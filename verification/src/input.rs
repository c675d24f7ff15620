use vstd::prelude::*;
use vstd::arithmetic::div_mod::lemma_fundamental_div_mod;
use crate::sqrt::{isqrt, lemma_sqrt_floor_bounds, sqrt_floor};
use crate::motion::MAX_STEP;
use crate::vec2::Vec2I;

verus! {

/// Which of the four movement keys are held this frame.
#[derive(Clone, Copy, Debug, PartialEq, Eq, Structural)]
pub struct WasdKeys {
    pub w: bool,
    pub a: bool,
    pub s: bool,
    pub d: bool,
}

/// Rightward minus leftward input.
pub open spec fn axis_x(k: WasdKeys) -> int {
    (if k.d { 1int } else { 0int }) - (if k.a { 1int } else { 0int })
}

/// Upward minus downward input.
pub open spec fn axis_y(k: WasdKeys) -> int {
    (if k.w { 1int } else { 0int }) - (if k.s { 1int } else { 0int })
}

/// The raw movement direction held on the keyboard: each coordinate is -1, 0
/// or 1, and opposite keys cancel.
pub fn wasd_direction(k: WasdKeys) -> (dir: Vec2I)
    ensures
        dir.x == axis_x(k),
        dir.y == axis_y(k),
{
    let mut x: i64 = 0;
    let mut y: i64 = 0;
    if k.a {
        x = x - 1;
    }
    if k.d {
        x = x + 1;
    }
    if k.w {
        y = y + 1;
    }
    if k.s {
        y = y - 1;
    }
    Vec2I { x, y }
}

/// The per-axis magnitude of a diagonal move at the given speed:
/// `sqrt_floor(speed² / 2)`, the closest integer from below to `speed / √2`.
pub open spec fn diagonal_component(speed: u64) -> int {
    sqrt_floor(((speed * speed) / 2) as nat) as int
}

/// Holding two perpendicular keys moves at the same overall speed as holding
/// one: the squared magnitude of the diagonal velocity never exceeds `speed²`,
/// and a diagonal one unit longer per axis would already exceed it.
pub proof fn lemma_diagonal_speed(speed: u64)
    ensures
        2 * (diagonal_component(speed) * diagonal_component(speed)) <= speed * speed,
        speed * speed < 2 * ((diagonal_component(speed) + 1) * (diagonal_component(speed) + 1)),
{
    assert((speed as int) * (speed as int) >= 0) by (nonlinear_arith);
    let s2 = (speed as int) * (speed as int);
    let h = s2 / 2;
    lemma_fundamental_div_mod(s2, 2);
    lemma_sqrt_floor_bounds(h as nat);
    let dc = diagonal_component(speed);
    assert(dc * dc <= h);
    assert(h < (dc + 1) * (dc + 1));
}

/// The velocity of a body holding the given direction: the unit vector along
/// `dir` scaled to length `speed`, rounded toward zero per axis. A single key
/// moves at `speed` along its axis; two perpendicular keys move at
/// `diagonal_component(speed)` on each axis, so the overall speed stays the
/// same whichever direction is held.
pub fn wasd_velocity(dir: Vec2I, speed: u64) -> (v: Vec2I)
    requires
        -1 <= dir.x <= 1,
        -1 <= dir.y <= 1,
        speed <= MAX_STEP,
    ensures
        dir.x == 0 && dir.y == 0 ==> v.x == 0 && v.y == 0,
        dir.x != 0 && dir.y == 0 ==> v.x == dir.x * speed && v.y == 0,
        dir.x == 0 && dir.y != 0 ==> v.x == 0 && v.y == dir.y * speed,
        dir.x != 0 && dir.y != 0 ==> v.x == dir.x * diagonal_component(speed)
            && v.y == dir.y * diagonal_component(speed),
        -(speed as int) <= v.x <= speed as int,
        -(speed as int) <= v.y <= speed as int,
{
    if dir.x == 0 && dir.y == 0 {
        Vec2I { x: 0, y: 0 }
    } else if dir.y == 0 {
        proof {
            assert(dir.x == 1 ==> dir.x * speed == speed) by (nonlinear_arith);
            assert(dir.x == -1 ==> dir.x * speed == -(speed as int)) by (nonlinear_arith);
        }
        let m = speed as i64;
        Vec2I { x: if dir.x > 0 { m } else { -m }, y: 0 }
    } else if dir.x == 0 {
        proof {
            assert(dir.y == 1 ==> dir.y * speed == speed) by (nonlinear_arith);
            assert(dir.y == -1 ==> dir.y * speed == -(speed as int)) by (nonlinear_arith);
        }
        let m = speed as i64;
        Vec2I { x: 0, y: if dir.y > 0 { m } else { -m } }
    } else {
        assert(speed * speed <= 0x4000000000000000) by (nonlinear_arith)
            requires
                speed <= 2147483648u64,
        ;
        let half = speed * speed / 2;
        let c = isqrt(half);
        assert(c <= speed) by (nonlinear_arith)
            requires
                (c as int) * (c as int) <= (speed as int) * (speed as int) / 2,
                0 <= c,
                0 <= speed,
        ;
        proof {
            let dc = diagonal_component(speed);
            assert(c == dc);
            assert(dir.x == 1 ==> dir.x * dc == dc) by (nonlinear_arith);
            assert(dir.x == -1 ==> dir.x * dc == -dc) by (nonlinear_arith);
            assert(dir.y == 1 ==> dir.y * dc == dc) by (nonlinear_arith);
            assert(dir.y == -1 ==> dir.y * dc == -dc) by (nonlinear_arith);
        }
        let m = c as i64;
        Vec2I {
            x: if dir.x > 0 { m } else { -m },
            y: if dir.y > 0 { m } else { -m },
        }
    }
}

/// The stored click target after one frame: a click that mapped to a world
/// position replaces it; otherwise it stays as it was.
pub fn update_last_click(last: Vec2I, click: Option<Vec2I>) -> (r: Vec2I)
    ensures
        click is Some ==> r == click->0,
        click is None ==> r == last,
{
    match click {
        Some(c) => c,
        None => last,
    }
}

} // verus!
