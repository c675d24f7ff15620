//! Integer kernels for 2D sprite movement: direction capture from movement
//! keys, velocity scaling, and stepping a body toward a target point.
//!
//! All coordinates are plain integers; callers pick how many units make up one
//! world unit and convert at the boundary. Every function states exactly what
//! it computes, down to the rounding of each division and square root.

pub mod input;
pub mod motion;
pub mod sqrt;
pub mod vec2;
