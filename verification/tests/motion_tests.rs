use sprite_motion::motion::{distance_sq, integrate, move_toward};
use sprite_motion::vec2::Vec2I;

#[test]
fn squared_distance_exact() {
    assert_eq!(distance_sq(Vec2I { x: 0, y: 0 }, Vec2I { x: 3, y: 4 }), 25);
    assert_eq!(distance_sq(Vec2I { x: -3, y: 4 }, Vec2I { x: 3, y: -4 }), 100);
    assert_eq!(distance_sq(Vec2I { x: 7, y: 7 }, Vec2I { x: 7, y: 7 }), 0);
}

#[test]
fn vector_sum() {
    let a = Vec2I::new(3, -4);
    let b = Vec2I::new(-1, 10);
    assert_eq!(a.add(b), Vec2I { x: 2, y: 6 });
    assert_eq!(Vec2I::zero().add(a), a);
}

#[test]
fn integrate_one_frame() {
    let pos = Vec2I { x: 10, y: 20 };
    let vel = Vec2I { x: 300, y: -300 };
    // One sixtieth of a time unit: 300 / 60 = 5 per axis.
    assert_eq!(integrate(pos, vel, 1, 60), Vec2I { x: 15, y: 15 });
}

#[test]
fn integrate_rounds_toward_zero() {
    let pos = Vec2I { x: 0, y: 0 };
    // 100 / 3 truncates to 33 on both signs.
    assert_eq!(integrate(pos, Vec2I { x: 100, y: -100 }, 1, 3), Vec2I { x: 33, y: -33 });
}

#[test]
fn integrate_zero_velocity() {
    let pos = Vec2I { x: -5, y: 9 };
    assert_eq!(integrate(pos, Vec2I { x: 0, y: 0 }, 1, 60), pos);
}

#[test]
fn move_toward_stays_on_target() {
    let p = Vec2I { x: 12, y: -34 };
    assert_eq!(move_toward(p, p, 5), p);
}

#[test]
fn move_toward_snaps_when_in_reach() {
    let pos = Vec2I { x: 0, y: 0 };
    let target = Vec2I { x: 3, y: 4 };
    // Distance is exactly 5.
    assert_eq!(move_toward(pos, target, 5), target);
    assert_eq!(move_toward(pos, target, 6), target);
}

#[test]
fn move_toward_steps_along_the_line() {
    let pos = Vec2I { x: 0, y: 0 };
    let target = Vec2I { x: 30, y: 40 };
    // Distance is 50: a step of 5 covers a tenth of each axis.
    assert_eq!(move_toward(pos, target, 5), Vec2I { x: 3, y: 4 });
}

#[test]
fn move_toward_steps_in_negative_direction() {
    let pos = Vec2I { x: 0, y: 0 };
    let target = Vec2I { x: -30, y: 40 };
    assert_eq!(move_toward(pos, target, 5), Vec2I { x: -3, y: 4 });
}

#[test]
fn move_toward_rounds_step_toward_zero() {
    let pos = Vec2I { x: 0, y: 0 };
    let target = Vec2I { x: 5, y: 5 };
    // Squared distance 50, isqrt 7: each axis moves 5 * 3 / 7 = 2.
    assert_eq!(move_toward(pos, target, 3), Vec2I { x: 2, y: 2 });
}

#[test]
fn move_toward_strictly_approaches() {
    // With any positive step, every tick gets strictly closer until arrival.
    let mut pos = Vec2I { x: -23, y: 11 };
    let target = Vec2I { x: 14, y: -37 };
    let mut ticks: u32 = 0;
    while pos != target {
        let before = distance_sq(pos, target);
        pos = move_toward(pos, target, 2);
        assert!(pos == target || distance_sq(pos, target) < before);
        ticks += 1;
        assert!(ticks < 1000);
    }
}

#[test]
fn move_toward_unit_step_never_stalls() {
    // A unit step toward a diagonal target would truncate to nothing per
    // axis; instead it moves one unit along the dominant axis and arrives.
    let target = Vec2I { x: 3, y: 3 };
    let p1 = move_toward(Vec2I { x: 0, y: 0 }, target, 1);
    assert_eq!(p1, Vec2I { x: 1, y: 0 });
    let p2 = move_toward(p1, target, 1);
    assert_eq!(p2, Vec2I { x: 1, y: 1 });
    let p3 = move_toward(p2, target, 1);
    assert_eq!(p3, Vec2I { x: 2, y: 2 });
    let p4 = move_toward(p3, target, 1);
    assert_eq!(p4, target);
}

#[test]
fn move_toward_unit_step_arrival_is_bounded() {
    // The taxicab distance shrinks by at least one unit per tick, so arrival
    // takes at most the initial taxicab distance in ticks.
    let mut pos = Vec2I { x: -40, y: 25 };
    let target = Vec2I { x: 11, y: -14 };
    let l1_start = (target.x - pos.x).abs() + (target.y - pos.y).abs();
    let mut ticks: i64 = 0;
    while pos != target {
        let l1_before = (target.x - pos.x).abs() + (target.y - pos.y).abs();
        pos = move_toward(pos, target, 1);
        let l1_after = (target.x - pos.x).abs() + (target.y - pos.y).abs();
        assert!(l1_after < l1_before);
        ticks += 1;
    }
    assert!(ticks <= l1_start);
}

#[test]
fn move_toward_zero_step_stands_still() {
    // A zero step may not move at all, however far the target is.
    let pos = Vec2I { x: 2, y: -9 };
    let target = Vec2I { x: 100, y: 50 };
    assert_eq!(move_toward(pos, target, 0), pos);
}

#[test]
fn move_toward_never_overshoots() {
    let mut pos = Vec2I { x: 0, y: 0 };
    let target = Vec2I { x: 17, y: -29 };
    for _ in 0..100 {
        pos = move_toward(pos, target, 4);
        assert!(pos.x >= 0 && pos.x <= 17);
        assert!(pos.y <= 0 && pos.y >= -29);
    }
    assert_eq!(pos, target);
}
