use sprite_motion::input::{update_last_click, wasd_direction, wasd_velocity, WasdKeys};
use sprite_motion::vec2::Vec2I;

fn keys(w: bool, a: bool, s: bool, d: bool) -> WasdKeys {
    WasdKeys { w, a, s, d }
}

#[test]
fn direction_single_keys() {
    assert_eq!(wasd_direction(keys(true, false, false, false)), Vec2I { x: 0, y: 1 });
    assert_eq!(wasd_direction(keys(false, true, false, false)), Vec2I { x: -1, y: 0 });
    assert_eq!(wasd_direction(keys(false, false, true, false)), Vec2I { x: 0, y: -1 });
    assert_eq!(wasd_direction(keys(false, false, false, true)), Vec2I { x: 1, y: 0 });
}

#[test]
fn direction_opposite_keys_cancel() {
    assert_eq!(wasd_direction(keys(false, true, false, true)), Vec2I { x: 0, y: 0 });
    assert_eq!(wasd_direction(keys(true, false, true, false)), Vec2I { x: 0, y: 0 });
    assert_eq!(wasd_direction(keys(true, true, true, true)), Vec2I { x: 0, y: 0 });
    assert_eq!(wasd_direction(keys(false, false, false, false)), Vec2I { x: 0, y: 0 });
}

#[test]
fn direction_diagonals() {
    assert_eq!(wasd_direction(keys(true, false, false, true)), Vec2I { x: 1, y: 1 });
    assert_eq!(wasd_direction(keys(false, true, true, false)), Vec2I { x: -1, y: -1 });
}

#[test]
fn velocity_along_axes() {
    assert_eq!(wasd_velocity(Vec2I { x: 1, y: 0 }, 300), Vec2I { x: 300, y: 0 });
    assert_eq!(wasd_velocity(Vec2I { x: -1, y: 0 }, 300), Vec2I { x: -300, y: 0 });
    assert_eq!(wasd_velocity(Vec2I { x: 0, y: 1 }, 300), Vec2I { x: 0, y: 300 });
    assert_eq!(wasd_velocity(Vec2I { x: 0, y: -1 }, 300), Vec2I { x: 0, y: -300 });
}

#[test]
fn velocity_diagonal_is_slower_per_axis() {
    // 300^2 / 2 = 45000, and 212^2 = 44944 <= 45000 < 213^2 = 45369.
    assert_eq!(wasd_velocity(Vec2I { x: 1, y: 1 }, 300), Vec2I { x: 212, y: 212 });
    assert_eq!(wasd_velocity(Vec2I { x: -1, y: 1 }, 300), Vec2I { x: -212, y: 212 });
    assert_eq!(wasd_velocity(Vec2I { x: 1, y: -1 }, 300), Vec2I { x: 212, y: -212 });
}

#[test]
fn diagonal_speed_matches_axis_speed() {
    // The diagonal velocity's squared magnitude is the largest one not
    // exceeding speed².
    let v = wasd_velocity(Vec2I { x: 1, y: 1 }, 300);
    let mag_sq: i64 = v.x * v.x + v.y * v.y;
    assert!(mag_sq <= 300 * 300);
    assert!(300 * 300 < 2 * (v.x + 1) * (v.x + 1));
}

#[test]
fn velocity_zero_direction() {
    assert_eq!(wasd_velocity(Vec2I { x: 0, y: 0 }, 300), Vec2I { x: 0, y: 0 });
}

#[test]
fn velocity_zero_speed() {
    assert_eq!(wasd_velocity(Vec2I { x: 1, y: 1 }, 0), Vec2I { x: 0, y: 0 });
}

#[test]
fn last_click_updates_on_new_click() {
    let old = Vec2I { x: 5, y: 6 };
    let new = Vec2I { x: -7, y: 8 };
    assert_eq!(update_last_click(old, Some(new)), new);
}

#[test]
fn last_click_keeps_old_without_click() {
    let old = Vec2I { x: 5, y: 6 };
    assert_eq!(update_last_click(old, None), old);
}
