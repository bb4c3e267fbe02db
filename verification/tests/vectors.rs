use raycaster::fixed::{div_floor, isqrt, ONE};
use raycaster::vector2::{
    distance_between, is_vertical_side, point_at_angle, point_at_distance, point_perpendicular,
    unit_vector, CellSize, Vector2,
};

const UNIT: i32 = ONE as i32;

#[test]
fn isqrt_rounds_down() {
    assert_eq!(isqrt(0), 0);
    assert_eq!(isqrt(1), 1);
    assert_eq!(isqrt(2), 1);
    assert_eq!(isqrt(3), 1);
    assert_eq!(isqrt(4), 2);
    assert_eq!(isqrt(15), 3);
    assert_eq!(isqrt(16), 4);
    assert_eq!(isqrt(17), 4);
    assert_eq!(isqrt(1 << 64), 1 << 32);
    assert_eq!(isqrt((1 << 64) - 1), (1 << 32) - 1);
    assert_eq!(isqrt(u128::MAX), u64::MAX);
}

#[test]
fn div_floor_rounds_toward_minus_infinity() {
    assert_eq!(div_floor(7, 2), 3);
    assert_eq!(div_floor(-7, 2), -4);
    assert_eq!(div_floor(-8, 2), -4);
    assert_eq!(div_floor(-1, 65536), -1);
    assert_eq!(div_floor(0, 5), 0);
    assert_eq!(div_floor(i128::MIN, 1), i128::MIN);
}

#[test]
fn new_and_default_hold_their_components() {
    let v = Vector2::new(3, -4);
    assert_eq!((v.x, v.y), (3, -4));
    assert_eq!(Vector2::default(), Vector2::new(0, 0));
}

#[test]
fn add_sub_and_mul_work_by_component() {
    let a = Vector2::new(3 * UNIT, -UNIT);
    let b = Vector2::new(UNIT / 2, 2 * UNIT);
    assert_eq!(a.add(b), Vector2::new(3 * UNIT + UNIT / 2, UNIT));
    assert_eq!(a.sub(b), Vector2::new(2 * UNIT + UNIT / 2, -3 * UNIT));
    assert_eq!(a.mul(ONE / 2), Vector2::new(UNIT + UNIT / 2, -UNIT / 2));
    assert_eq!(Vector2::new(1, -1).mul(ONE / 2), Vector2::new(0, -1));
    assert_eq!(a.mul(-2 * ONE), Vector2::new(-6 * UNIT, 2 * UNIT));
}

#[test]
fn magnitude_is_the_length_rounded_down() {
    assert_eq!(Vector2::new(3 * UNIT, 4 * UNIT).magnitude(), 5 * ONE as u64);
    assert_eq!(Vector2::new(-3 * UNIT, 4 * UNIT).magnitude(), 5 * ONE as u64);
    assert_eq!(Vector2::new(0, 0).magnitude(), 0);
    assert_eq!(Vector2::new(1, 1).magnitude(), 1);
    assert_eq!(Vector2::new(i32::MIN, i32::MIN).magnitude(), 3037000499);
    assert_eq!(Vector2::new(i32::MAX, 1).magnitude(), 2147483647);
}

#[test]
fn norm_of_zero_is_zero() {
    assert_eq!(Vector2::new(0, 0).norm(), Vector2::new(0, 0));
}

#[test]
fn norm_gives_the_unit_vector_rounded_toward_zero() {
    assert_eq!(Vector2::new(3 * UNIT, 4 * UNIT).norm(), Vector2::new(39321, 52428));
    assert_eq!(Vector2::new(-3 * UNIT, 4 * UNIT).norm(), Vector2::new(-39321, 52428));
    assert_eq!(Vector2::new(1, 1).norm(), Vector2::new(46340, 46340));
    assert_eq!(Vector2::new(1, 0).norm(), Vector2::new(UNIT, 0));
    assert_eq!(Vector2::new(0, -7).norm(), Vector2::new(0, -UNIT));
    assert_eq!(Vector2::new(i32::MIN, i32::MIN).norm(), Vector2::new(-46340, -46340));
    assert_eq!(Vector2::new(i32::MAX, 1).norm(), Vector2::new(65535, 0));
    assert_eq!(unit_vector(3, 4), Vector2::new(39321, 52428));
}

#[test]
fn norm_has_unit_length_within_three_raw_units() {
    let samples = [
        (1, 0),
        (1, 1),
        (3, 4),
        (-5, 12),
        (123456, -7891),
        (i32::MAX, i32::MIN),
        (-1, i32::MAX),
        (7 * UNIT, -2 * UNIT),
    ];
    for (x, y) in samples {
        let m = Vector2::new(x, y).norm().magnitude();
        assert!(m <= ONE as u64, "{} {} gave {}", x, y, m);
        assert!(m >= ONE as u64 - 3, "{} {} gave {}", x, y, m);
        let as_float = m as f64 / ONE as f64;
        assert!((as_float - 1.0).abs() < 1e-4);
    }
}

#[test]
fn perpendicular_is_a_quarter_turn() {
    assert_eq!(Vector2::new(3, 4).perpendicular(), Vector2::new(-4, 3));
    assert_eq!(Vector2::new(0, -UNIT).perpendicular(), Vector2::new(UNIT, 0));
}

#[test]
fn four_quarter_turns_give_the_vector_back() {
    for (x, y) in [(3, 4), (0, 0), (-7, 2), (i32::MAX, -i32::MAX), (UNIT, -5 * UNIT)] {
        let v = Vector2::new(x, y);
        let turned = v.perpendicular().perpendicular().perpendicular().perpendicular();
        assert_eq!(turned, v);
    }
}

#[test]
fn dot_is_the_fixed_point_product() {
    let a = Vector2::new(2 * UNIT, 3 * UNIT);
    let b = Vector2::new(4 * UNIT, -UNIT);
    assert_eq!(a.dot(&b), 5 * ONE);
    assert_eq!(a.dot(&a.perpendicular()), 0);
    assert_eq!(Vector2::new(1, 0).dot(&Vector2::new(-1, 0)), -1);
    assert_eq!(
        Vector2::new(i32::MIN, i32::MIN).dot(&Vector2::new(i32::MIN, i32::MIN)),
        1i64 << 47
    );
}

#[test]
fn rotate_applies_the_rotation_matrix() {
    let v = Vector2::new(3 * UNIT, 4 * UNIT);
    assert_eq!(v.rotate(0, ONE), Vector2::new(-4 * UNIT, 3 * UNIT));
    assert_eq!(v.rotate(ONE, 0), v);
    assert_eq!(v.rotate(-ONE, 0), Vector2::new(-3 * UNIT, -4 * UNIT));
    let angle = std::f64::consts::PI / 3.0;
    let cos = (angle.cos() * ONE as f64).round() as i64;
    let sin = (angle.sin() * ONE as f64).round() as i64;
    assert_eq!((cos, sin), (32768, 56756));
    assert_eq!(Vector2::new(UNIT, 0).rotate(cos, sin), Vector2::new(32768, 56756));
}

#[test]
fn pixel_and_grid_coordinates_scale_by_the_cell() {
    let cell = CellSize { width: 10, height: 5 };
    assert_eq!(
        Vector2::new(3 * UNIT, -2 * UNIT).to_pixel_coords(cell),
        Vector2::new(30 * UNIT, -10 * UNIT)
    );
    assert_eq!(
        Vector2::new(30 * UNIT, -10 * UNIT).to_grid_coords(cell),
        Vector2::new(3 * UNIT, -2 * UNIT)
    );
    assert_eq!(Vector2::new(123456, -7891).to_grid_coords(cell), Vector2::new(12345, -1579));
}

#[test]
fn grid_and_back_loses_less_than_a_cell_dimension() {
    let cell = CellSize { width: 10, height: 7 };
    for (x, y) in [(0, 0), (123456, -7891), (-1, 1), (i32::MAX, i32::MAX), (9, 6), (-10, -7)] {
        let v = Vector2::new(x, y);
        let back = v.to_grid_coords(cell).to_pixel_coords(cell);
        assert!(back.x <= v.x && v.x - back.x < 10);
        assert!(back.y <= v.y && v.y - back.y < 7);
        let tolerance = 10.0 / ONE as f64;
        assert!(((v.x - back.x) as f64 / (ONE as f64)) < tolerance);
    }
}

#[test]
fn point_perpendicular_moves_square_to_the_direction() {
    let p1 = Vector2::new(0, 0);
    let p2 = Vector2::new(20 * UNIT, 0);
    assert_eq!(point_perpendicular(p1, p2, 5 * ONE), Vector2::new(20 * UNIT, 5 * UNIT));
    assert_eq!(point_perpendicular(p1, p2, -5 * ONE), Vector2::new(20 * UNIT, -5 * UNIT));
    assert_eq!(point_perpendicular(p1, p2, 0), p2);
    assert_eq!(
        point_perpendicular(Vector2::new(3, 7), Vector2::new(100000, 200000), 12345),
        Vector2::new(88958, 205520)
    );
    assert_eq!(point_perpendicular(p2, p2, 5 * ONE), p2);
}

#[test]
fn point_at_distance_moves_along_the_direction() {
    let p1 = Vector2::new(10 * UNIT, 10 * UNIT);
    assert_eq!(
        point_at_distance(&p1, Vector2::new(200 * UNIT, 10 * UNIT), 20 * ONE),
        Vector2::new(30 * UNIT, 10 * UNIT)
    );
    assert_eq!(
        point_at_distance(&p1, Vector2::new(13 * UNIT, 14 * UNIT), 5 * ONE),
        Vector2::new(10 * UNIT + 5 * 39321, 10 * UNIT + 5 * 52428)
    );
    assert_eq!(point_at_distance(&p1, p1, 20 * ONE), p1);
}

#[test]
fn point_at_angle_adds_the_turned_direction() {
    let p1 = Vector2::new(0, 0);
    let p2 = Vector2::new(2 * UNIT, 0);
    assert_eq!(point_at_angle(p1, p2, 0, ONE), Vector2::new(2 * UNIT, UNIT));
    assert_eq!(point_at_angle(p1, p2, ONE, 0), Vector2::new(3 * UNIT, 0));
    assert_eq!(point_at_angle(p1, p2, 0, -ONE), Vector2::new(2 * UNIT, -UNIT));
}

#[test]
fn vertical_side_is_the_nearer_edge_along_x() {
    let size = 10 * ONE;
    assert!(is_vertical_side(Vector2::new(190 * UNIT, 105 * UNIT), size));
    assert!(!is_vertical_side(Vector2::new(105 * UNIT, 190 * UNIT), size));
    assert!(is_vertical_side(Vector2::new(199 * UNIT, 105 * UNIT), size));
    assert!(!is_vertical_side(Vector2::new(105 * UNIT, 105 * UNIT), size));
    assert!(!is_vertical_side(Vector2::new(190 * UNIT, 105 * UNIT), 0));
    assert!(is_vertical_side(Vector2::new(-3 * UNIT, 5 * UNIT), size));
    assert!(!is_vertical_side(Vector2::new(3 * UNIT, 5 * UNIT), -size));
    assert!(is_vertical_side(Vector2::new(3 * UNIT, 5 * UNIT), size));
}

#[test]
fn distance_between_is_the_length_of_the_difference() {
    let a = Vector2::new(10 * UNIT, 10 * UNIT);
    let b = Vector2::new(13 * UNIT, 14 * UNIT);
    assert_eq!(distance_between(a, b), 5 * ONE as u64);
    assert_eq!(distance_between(b, a), 5 * ONE as u64);
    assert_eq!(distance_between(a, a), 0);
    assert_eq!(
        distance_between(Vector2::new(i32::MIN, i32::MIN), Vector2::new(i32::MAX, i32::MAX)),
        6074000998
    );
}
