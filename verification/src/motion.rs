use vstd::prelude::*;
use vstd::arithmetic::div_mod::{
    lemma_div_by_multiple, lemma_div_is_ordered, lemma_div_nonincreasing, lemma_div_pos_is_pos,
};
use vstd::math::abs;
use crate::sqrt::{isqrt, sqrt_floor};
use crate::vec2::Vec2I;

verus! {

/// Largest coordinate magnitude the motion functions accept: far inside `i64`,
/// so that squared distances fit in `u64`.
pub const MAX_COORD: i64 = 1073741824;

/// Largest step length `move_toward` accepts.
pub const MAX_STEP: u64 = 2147483648;

pub open spec fn in_bounds(v: Vec2I) -> bool {
    -MAX_COORD <= v.x <= MAX_COORD && -MAX_COORD <= v.y <= MAX_COORD
}

/// The squared distance between two points.
pub open spec fn dist_sq(a: Vec2I, b: Vec2I) -> int {
    (b.x - a.x) * (b.x - a.x) + (b.y - a.y) * (b.y - a.y)
}

/// `delta * num / den`, rounded toward zero.
pub open spec fn scaled(delta: int, num: int, den: int) -> int {
    if delta >= 0 {
        (delta * num) / den
    } else {
        -(((-delta) * num) / den)
    }
}

/// The sign of `x`: -1, 0 or 1.
pub open spec fn sign_of(x: int) -> int {
    if x > 0 {
        1
    } else if x < 0 {
        -1
    } else {
        0
    }
}

/// Whether truncated scaling rounds a positive step away entirely.
pub open spec fn step_stalls(dx: int, dy: int, m: int, d: int) -> bool {
    1 <= m && scaled(dx, m, d) == 0 && scaled(dy, m, d) == 0
}

/// The x component of a stepping tick toward a target `(dx, dy)` away, whose
/// distance rounds down to `d`: `dx` scaled by `m / d` and rounded toward
/// zero, except that a positive step whose axes both round to zero moves one
/// unit along the dominant axis instead, so the approach never stalls.
pub open spec fn step_x(dx: int, dy: int, m: int, d: int) -> int {
    if step_stalls(dx, dy, m, d) && abs(dx) >= abs(dy) {
        sign_of(dx)
    } else {
        scaled(dx, m, d)
    }
}

/// The y component of a stepping tick; the y axis counts as dominant only
/// when it is strictly longer, so exactly one axis takes the one-unit step
/// when the scaling stalls.
pub open spec fn step_y(dx: int, dy: int, m: int, d: int) -> int {
    if step_stalls(dx, dy, m, d) && abs(dy) > abs(dx) {
        sign_of(dy)
    } else {
        scaled(dy, m, d)
    }
}

/// How far a stepping tick with step length `m >= 1` is guaranteed to move
/// along its dominant axis: half of `m`, and never less than one unit.
pub open spec fn min_step(m: int) -> int {
    if m / 2 >= 1 {
        m / 2
    } else {
        1
    }
}

/// Scaling a delta by a factor of at most one moves it toward zero and never
/// past it.
pub proof fn lemma_scaled_within(delta: int, num: int, den: int)
    requires
        0 <= num <= den,
        1 <= den,
    ensures
        delta >= 0 ==> 0 <= scaled(delta, num, den) <= delta,
        delta < 0 ==> delta <= scaled(delta, num, den) <= 0,
{
    let mag = if delta >= 0 { delta } else { -delta };
    lemma_div_pos_is_pos(mag * num, den);
    assert(mag * num <= mag * den) by (nonlinear_arith)
        requires
            num <= den,
            mag >= 0,
    ;
    lemma_div_is_ordered(mag * num, mag * den, den);
    lemma_div_by_multiple(mag, den);
}

/// Moving each coordinate toward the target, without passing it, never
/// increases the squared distance to the target.
proof fn lemma_between_closer(px: int, py: int, tx: int, ty: int, qx: int, qy: int)
    requires
        px <= tx ==> px <= qx <= tx,
        tx <= px ==> tx <= qx <= px,
        py <= ty ==> py <= qy <= ty,
        ty <= py ==> ty <= qy <= py,
    ensures
        (tx - qx) * (tx - qx) + (ty - qy) * (ty - qy)
            <= (tx - px) * (tx - px) + (ty - py) * (ty - py),
{
    assert((tx - qx) * (tx - qx) <= (tx - px) * (tx - px)) by (nonlinear_arith)
        requires
            px <= tx ==> px <= qx <= tx,
            tx <= px ==> tx <= qx <= px,
    ;
    assert((ty - qy) * (ty - qy) <= (ty - py) * (ty - py)) by (nonlinear_arith)
        requires
            py <= ty ==> py <= qy <= ty,
            ty <= py ==> ty <= qy <= py,
    ;
}

/// Stepping away from a delta by at least one unit, and never past zero,
/// strictly shrinks its square.
proof fn lemma_axis_strict(delta: int, s: int)
    requires
        delta >= 0 ==> 1 <= s <= delta,
        delta < 0 ==> delta <= s <= -1,
    ensures
        (delta - s) * (delta - s) < delta * delta,
{
    assert((delta - s) * (delta - s) < delta * delta) by (nonlinear_arith)
        requires
            delta >= 0 ==> 1 <= s <= delta,
            delta < 0 ==> delta <= s <= -1,
    ;
}

/// Out of reach, the truncated scaling moves a dominant axis of length `a`
/// (so `d <= 2a - 1`) by at least half of `m`.
proof fn lemma_dominant_floor(a: int, m: int, d: int)
    requires
        2 <= m,
        1 <= d,
        0 <= a,
        d <= 2 * a - 1,
    ensures
        (a * m) / d >= m / 2,
{
    let k = m / 2;
    assert(k * d <= a * m) by (nonlinear_arith)
        requires
            d <= 2 * a - 1,
            2 * k <= m,
            1 <= k,
            0 <= a,
    ;
    lemma_div_is_ordered(k * d, a * m, d);
    lemma_div_by_multiple(k, d);
}

/// A positive out-of-reach step never stalls: it stays between the position
/// and the target on each axis, shrinks the taxicab distance to the target by
/// at least `min_step(m)`, and shrinks the squared distance strictly.
proof fn lemma_step_rate(dx: int, dy: int, m: int, d: int)
    requires
        1 <= m,
        m <= d,
        d * d <= dx * dx + dy * dy,
        dx * dx + dy * dy < (d + 1) * (d + 1),
        m * m < dx * dx + dy * dy,
    ensures
        dx >= 0 ==> 0 <= step_x(dx, dy, m, d) <= dx,
        dx < 0 ==> dx <= step_x(dx, dy, m, d) <= 0,
        dy >= 0 ==> 0 <= step_y(dx, dy, m, d) <= dy,
        dy < 0 ==> dy <= step_y(dx, dy, m, d) <= 0,
        abs(dx - step_x(dx, dy, m, d)) + abs(dy - step_y(dx, dy, m, d)) + min_step(m)
            <= abs(dx) + abs(dy),
        (dx - step_x(dx, dy, m, d)) * (dx - step_x(dx, dy, m, d))
            + (dy - step_y(dx, dy, m, d)) * (dy - step_y(dx, dy, m, d))
            < dx * dx + dy * dy,
{
    lemma_scaled_within(dx, m, d);
    lemma_scaled_within(dy, m, d);
    let ax = if dx >= 0 { dx } else { -dx };
    let ay = if dy >= 0 { dy } else { -dy };
    assert(ax == abs(dx) && ay == abs(dy));
    assert(dx * dx == ax * ax && dy * dy == ay * ay) by (nonlinear_arith)
        requires
            ax == (if dx >= 0 { dx } else { -dx }),
            ay == (if dy >= 0 { dy } else { -dy }),
    ;
    let rx = scaled(dx, m, d);
    let ry = scaled(dy, m, d);
    let sx = step_x(dx, dy, m, d);
    let sy = step_y(dx, dy, m, d);
    let k = min_step(m);
    if ax >= ay {
        assert(1 <= ax) by (nonlinear_arith)
            requires
                0 <= ay <= ax,
                ax * ax + ay * ay >= 1,
        ;
        assert(d <= 2 * ax - 1) by (nonlinear_arith)
            requires
                d * d <= ax * ax + ay * ay,
                0 <= ay <= ax,
                1 <= ax,
                0 <= d,
        ;
        assert(rx == (if dx >= 0 { (ax * m) / d } else { -((ax * m) / d) }));
        if m >= 2 {
            lemma_dominant_floor(ax, m, d);
        } else if rx == 0 && ry != 0 {
            // The shorter axis cannot move while the dominant one stands.
            assert(ay * m <= ax * m) by (nonlinear_arith)
                requires
                    0 <= ay <= ax,
                    0 <= m,
            ;
            lemma_div_is_ordered(ay * m, ax * m, d);
            assert(ry == (if dy >= 0 { (ay * m) / d } else { -((ay * m) / d) }));
            assert(false);
        }
        if step_stalls(dx, dy, m, d) {
            assert(sx == sign_of(dx) && sy == 0);
        } else {
            assert(sx == rx && sy == ry);
        }
        assert(abs(sx) >= k);
        lemma_axis_strict(dx, sx);
        assert((dy - sy) * (dy - sy) <= dy * dy) by (nonlinear_arith)
            requires
                dy >= 0 ==> 0 <= sy <= dy,
                dy < 0 ==> dy <= sy <= 0,
        ;
    } else {
        assert(1 <= ay) by (nonlinear_arith)
            requires
                0 <= ax <= ay,
                ax * ax + ay * ay >= 1,
        ;
        assert(d <= 2 * ay - 1) by (nonlinear_arith)
            requires
                d * d <= ax * ax + ay * ay,
                0 <= ax <= ay,
                1 <= ay,
                0 <= d,
        ;
        assert(ry == (if dy >= 0 { (ay * m) / d } else { -((ay * m) / d) }));
        if m >= 2 {
            lemma_dominant_floor(ay, m, d);
        } else if ry == 0 && rx != 0 {
            assert(ax * m <= ay * m) by (nonlinear_arith)
                requires
                    0 <= ax <= ay,
                    0 <= m,
            ;
            lemma_div_is_ordered(ax * m, ay * m, d);
            assert(rx == (if dx >= 0 { (ax * m) / d } else { -((ax * m) / d) }));
            assert(false);
        }
        if step_stalls(dx, dy, m, d) {
            assert(sy == sign_of(dy) && sx == 0);
        } else {
            assert(sx == rx && sy == ry);
        }
        assert(abs(sy) >= k);
        lemma_axis_strict(dy, sy);
        assert((dx - sx) * (dx - sx) <= dx * dx) by (nonlinear_arith)
            requires
                dx >= 0 ==> 0 <= sx <= dx,
                dx < 0 ==> dx <= sx <= 0,
        ;
    }
    assert(abs(dx - sx) + abs(sx) == ax);
    assert(abs(dy - sy) + abs(sy) == ay);
}

/// The squared distance between two in-bounds points, exactly.
pub fn distance_sq(a: Vec2I, b: Vec2I) -> (d: u64)
    requires
        in_bounds(a),
        in_bounds(b),
    ensures
        d == dist_sq(a, b),
{
    let dx = b.x - a.x;
    let dy = b.y - a.y;
    assert(0 <= dx * dx <= 0x4000000000000000) by (nonlinear_arith)
        requires
            -2147483648 <= dx <= 2147483648,
    ;
    assert(0 <= dy * dy <= 0x4000000000000000) by (nonlinear_arith)
        requires
            -2147483648 <= dy <= 2147483648,
    ;
    let sx = (dx * dx) as u64;
    let sy = (dy * dy) as u64;
    sx + sy
}

/// `delta * num / den`, rounded toward zero.
fn scale_delta(delta: i64, num: u64, den: u64) -> (s: i64)
    requires
        0 < den,
        -(MAX_STEP as int) <= delta <= MAX_STEP as int,
        num <= MAX_STEP,
    ensures
        s == scaled(delta as int, num as int, den as int),
        -0x4000000000000000 <= s <= 0x4000000000000000,
{
    if delta >= 0 {
        let mag = delta as u64;
        assert(mag * num <= 0x4000000000000000) by (nonlinear_arith)
            requires
                mag <= 2147483648u64,
                num <= 2147483648u64,
        ;
        let q = (mag * num) / den;
        proof {
            lemma_div_nonincreasing((mag * num) as int, den as int);
            lemma_div_pos_is_pos((mag * num) as int, den as int);
        }
        q as i64
    } else {
        let mag = (-delta) as u64;
        assert(mag * num <= 0x4000000000000000) by (nonlinear_arith)
            requires
                mag <= 2147483648u64,
                num <= 2147483648u64,
        ;
        let q = (mag * num) / den;
        proof {
            lemma_div_nonincreasing((mag * num) as int, den as int);
            lemma_div_pos_is_pos((mag * num) as int, den as int);
        }
        -(q as i64)
    }
}

/// One tick of velocity integration: the position advanced by
/// `vel * dt_num / dt_den` (each coordinate rounded toward zero), for a frame
/// lasting `dt_num / dt_den` time units.
pub fn integrate(pos: Vec2I, vel: Vec2I, dt_num: u64, dt_den: u64) -> (p: Vec2I)
    requires
        in_bounds(pos),
        -(MAX_STEP as int) <= vel.x <= MAX_STEP as int,
        -(MAX_STEP as int) <= vel.y <= MAX_STEP as int,
        dt_num <= MAX_STEP,
        0 < dt_den,
    ensures
        p.x == pos.x + scaled(vel.x as int, dt_num as int, dt_den as int),
        p.y == pos.y + scaled(vel.y as int, dt_num as int, dt_den as int),
{
    let sx = scale_delta(vel.x, dt_num, dt_den);
    let sy = scale_delta(vel.y, dt_num, dt_den);
    Vec2I { x: pos.x + sx, y: pos.y + sy }
}

/// One tick of motion toward `target`.
///
/// Stays put when already on the target; lands exactly on the target when it
/// is within `max_step`; otherwise moves toward the target by at most
/// `max_step`: each axis is scaled by `max_step / sqrt_floor(distance²)` and
/// rounded toward zero, except that a positive step whose axes both round to
/// zero moves one unit along the dominant axis instead. The result never
/// passes the target on either axis and never gets farther from it, and a
/// positive step from beyond reach strictly approaches, shrinking the taxicab
/// distance by at least `min_step(max_step)` — so repeated ticks always
/// arrive, and then stay.
pub fn move_toward(pos: Vec2I, target: Vec2I, max_step: u64) -> (p: Vec2I)
    requires
        in_bounds(pos),
        in_bounds(target),
        max_step <= MAX_STEP,
    ensures
        dist_sq(pos, target) == 0 ==> p == pos,
        0 < dist_sq(pos, target) <= max_step * max_step ==> p == target,
        dist_sq(pos, target) > max_step * max_step ==> {
            let d = sqrt_floor(dist_sq(pos, target) as nat) as int;
            p.x == pos.x + step_x(target.x - pos.x, target.y - pos.y, max_step as int, d)
                && p.y == pos.y + step_y(target.x - pos.x, target.y - pos.y, max_step as int, d)
        },
        pos.x <= target.x ==> pos.x <= p.x <= target.x,
        target.x <= pos.x ==> target.x <= p.x <= pos.x,
        pos.y <= target.y ==> pos.y <= p.y <= target.y,
        target.y <= pos.y ==> target.y <= p.y <= pos.y,
        dist_sq(p, target) <= dist_sq(pos, target),
        0 < max_step && dist_sq(pos, target) > max_step * max_step ==> {
            &&& abs(target.x - p.x) + abs(target.y - p.y) + min_step(max_step as int)
                <= abs(target.x - pos.x) + abs(target.y - pos.y)
            &&& dist_sq(p, target) < dist_sq(pos, target)
        },
{
    let dsq = distance_sq(pos, target);
    if dsq == 0 {
        return pos;
    }
    assert(max_step * max_step <= 0x4000000000000000) by (nonlinear_arith)
        requires
            max_step <= 2147483648u64,
    ;
    let cap = max_step * max_step;
    if dsq <= cap {
        return target;
    }
    let dx = target.x - pos.x;
    let dy = target.y - pos.y;
    let d = isqrt(dsq);
    proof {
        assert(1 <= d) by (nonlinear_arith)
            requires
                1 <= dsq,
                (dsq as int) < ((d as int) + 1) * ((d as int) + 1),
                0 <= d,
        ;
        assert(max_step <= d) by (nonlinear_arith)
            requires
                (max_step as int) * (max_step as int) < dsq as int,
                (dsq as int) < ((d as int) + 1) * ((d as int) + 1),
                0 <= max_step,
                0 <= d,
        ;
        lemma_scaled_within(dx as int, max_step as int, d as int);
        lemma_scaled_within(dy as int, max_step as int, d as int);
    }
    let mut sx = scale_delta(dx, max_step, d);
    let mut sy = scale_delta(dy, max_step, d);
    if max_step >= 1 && sx == 0 && sy == 0 {
        let adx = if dx >= 0 { dx } else { -dx };
        let ady = if dy >= 0 { dy } else { -dy };
        proof {
            assert(!(dx == 0 && dy == 0)) by (nonlinear_arith)
                requires
                    (dx as int) * (dx as int) + (dy as int) * (dy as int) > 0,
            ;
        }
        if adx >= ady {
            sx = if dx >= 0 { 1 } else { -1 };
        } else {
            sy = if dy >= 0 { 1 } else { -1 };
        }
    }
    let p = Vec2I { x: pos.x + sx, y: pos.y + sy };
    proof {
        let dxi = dx as int;
        let dyi = dy as int;
        let mi = max_step as int;
        let di = d as int;
        assert(sx == step_x(dxi, dyi, mi, di));
        assert(sy == step_y(dxi, dyi, mi, di));
        if max_step >= 1 {
            lemma_step_rate(dxi, dyi, mi, di);
        }
        lemma_between_closer(
            pos.x as int,
            pos.y as int,
            target.x as int,
            target.y as int,
            p.x as int,
            p.y as int,
        );
    }
    p
}

} // verus!
