use vstd::prelude::*;

verus! {

/// A point or displacement in the plane, with integer coordinates.
#[derive(Clone, Copy, Debug, PartialEq, Eq, Structural)]
pub struct Vec2I {
    pub x: i64,
    pub y: i64,
}

impl Vec2I {
    pub fn new(x: i64, y: i64) -> (v: Vec2I)
        ensures
            v.x == x,
            v.y == y,
    {
        Vec2I { x, y }
    }

    pub fn zero() -> (v: Vec2I)
        ensures
            v.x == 0,
            v.y == 0,
    {
        Vec2I { x: 0, y: 0 }
    }

    /// Componentwise sum.
    pub fn add(self, other: Vec2I) -> (v: Vec2I)
        requires
            i64::MIN <= self.x + other.x <= i64::MAX,
            i64::MIN <= self.y + other.y <= i64::MAX,
        ensures
            v.x == self.x + other.x,
            v.y == self.y + other.y,
    {
        Vec2I { x: self.x + other.x, y: self.y + other.y }
    }
}

} // verus!
