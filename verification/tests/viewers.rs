use raycaster::fixed::ONE;
use raycaster::vector2::Vector2;
use raycaster::viewer::{move_viewer, Keys, TURN, WALK};

const UNIT: i32 = ONE as i32;

fn keys() -> Keys {
    Keys { up: false, down: false, left: false, right: false, run: false }
}

fn pose() -> (Vector2, Vector2) {
    (Vector2::new(10 * UNIT, 10 * UNIT), Vector2::new(30 * UNIT, 10 * UNIT))
}

#[test]
fn speeds_are_a_fifth_and_two_fifths() {
    assert_eq!(WALK, (0.2 * ONE as f64) as i64);
    assert_eq!(TURN, (0.4 * ONE as f64) as i64);
}

#[test]
fn no_key_moves_nothing() {
    let (p1, p2) = pose();
    assert_eq!(move_viewer(p1, p2, keys()), (p1, p2));
}

#[test]
fn walking_moves_both_points_along_the_facing() {
    let (p1, p2) = pose();
    let ahead = move_viewer(p1, p2, Keys { up: true, ..keys() });
    assert_eq!(ahead.0, Vector2::new(10 * UNIT + 13107, 10 * UNIT));
    assert_eq!(ahead.1, Vector2::new(30 * UNIT + 13107, 10 * UNIT));
    let back = move_viewer(p1, p2, Keys { down: true, ..keys() });
    assert_eq!(back.0, Vector2::new(10 * UNIT - 13107, 10 * UNIT));
    assert_eq!(back.1, Vector2::new(30 * UNIT - 13107, 10 * UNIT));
    let running = move_viewer(p1, p2, Keys { up: true, run: true, ..keys() });
    assert_eq!(running.0, Vector2::new(10 * UNIT + 26214, 10 * UNIT));
    assert_eq!(running.1, Vector2::new(30 * UNIT + 26214, 10 * UNIT));
    assert_eq!(move_viewer(p1, p2, Keys { up: true, down: true, ..keys() }), (p1, p2));
}

#[test]
fn turning_moves_the_look_point_alone() {
    let (p1, p2) = pose();
    let right = move_viewer(p1, p2, Keys { right: true, ..keys() });
    assert_eq!(right, (p1, Vector2::new(30 * UNIT, 10 * UNIT + 26214)));
    let left = move_viewer(p1, p2, Keys { left: true, run: true, ..keys() });
    assert_eq!(left, (p1, Vector2::new(30 * UNIT, 10 * UNIT - 26214)));
}

#[test]
fn slanted_facing_moves_by_rounded_components() {
    let p1 = Vector2::new(10 * UNIT, 10 * UNIT);
    let p2 = Vector2::new(13 * UNIT, 14 * UNIT);
    let moved = move_viewer(p1, p2, Keys { up: true, right: true, ..keys() });
    assert_eq!(moved.0, Vector2::new(10 * UNIT + 7864, 10 * UNIT + 10485));
    assert_eq!(moved.1, Vector2::new(13 * UNIT + 7864 - 20971, 14 * UNIT + 10485 + 15728));
    let other = move_viewer(p1, p2, Keys { down: true, left: true, ..keys() });
    assert_eq!(other.0, Vector2::new(10 * UNIT - 7864, 10 * UNIT - 10485));
    assert_eq!(other.1, Vector2::new(13 * UNIT - 7864 + 20970, 14 * UNIT - 10485 - 15729));
}

#[test]
fn viewer_without_a_facing_stays() {
    let p = Vector2::new(10 * UNIT, 10 * UNIT);
    let all = Keys { up: true, down: false, left: true, right: false, run: true };
    assert_eq!(move_viewer(p, p, all), (p, p));
}

#[test]
fn walking_keeps_the_look_point_ahead_of_the_eye() {
    let p1 = Vector2::new(10 * UNIT + 5, 10 * UNIT - 9);
    let p2 = Vector2::new(13 * UNIT, 17 * UNIT + 1);
    for (up, down, run) in [(true, false, false), (false, true, true), (true, true, false)] {
        let moved = move_viewer(p1, p2, Keys { up, down, run, ..keys() });
        assert_eq!(moved.1.sub(moved.0), p2.sub(p1));
    }
}

#[test]
fn turning_both_ways_at_once_moves_the_look_point_by_rounding_only() {
    let p1 = Vector2::new(10 * UNIT + 5, 10 * UNIT - 9);
    let p2 = Vector2::new(13 * UNIT, 17 * UNIT + 1);
    let moved = move_viewer(p1, p2, Keys { left: true, right: true, ..keys() });
    assert_eq!(moved.0, p1);
    assert!((-1..=0).contains(&(moved.1.x - p2.x)));
    assert!((-1..=0).contains(&(moved.1.y - p2.y)));
}
