use raycaster::fixed::ONE;
use raycaster::render::{fade, normalize, pixel_index, project, wall_slice};

const UNIT: u64 = ONE as u64;

#[test]
fn touching_wall_fills_the_screen() {
    assert_eq!(project(UNIT, 800), (0, 799));
}

#[test]
fn distant_wall_is_one_centred_row() {
    let (start, end) = project(800 * UNIT, 800);
    assert_eq!((start, end), (399, 400));
    assert_eq!((start..end).count(), 1);
}

#[test]
fn project_centres_the_slice() {
    assert_eq!(project(8 * UNIT, 800), (350, 450));
    assert_eq!(project(4 * UNIT, 800), (300, 500));
    assert_eq!(project(16 * UNIT, 800), (375, 425));
    assert_eq!(project(3 * UNIT, 800), (266, 533));
    assert_eq!(project(3 * UNIT, 8), (2, 5));
}

#[test]
fn project_clamps_near_walls_to_the_screen() {
    assert_eq!(project(UNIT / 2, 800), (0, 799));
    assert_eq!(project(1, 800), (0, 799));
    assert_eq!(project(1, 1), (0, 0));
    assert_eq!(project(u64::MAX, 800), (399, 400));
    assert_eq!(project(u64::MAX, u32::MAX), (2147483647, 2147483647));
}

#[test]
fn wall_at_no_distance_fills_the_screen() {
    assert_eq!(wall_slice(0, 800), (0, 799));
    assert_eq!(wall_slice(UNIT, 800), (0, 799));
    assert_eq!(wall_slice(8 * UNIT, 800), (350, 450));
}

#[test]
fn pixel_index_counts_four_bytes_to_the_pixel() {
    assert_eq!(pixel_index(0, 0, 800), 0);
    assert_eq!(pixel_index(3, 2, 800), (2 * 800 + 3) * 4);
    assert_eq!(pixel_index(799, 799, 800), 800 * 800 * 4 - 4);
    assert_eq!(pixel_index(5, 0, 0), 20);
}

#[test]
fn normalize_places_a_value_on_the_byte_scale() {
    assert_eq!(normalize(0, 0, 800), 0);
    assert_eq!(normalize(400, 0, 800), 127);
    assert_eq!(normalize(800, 0, 800), 255);
    assert_eq!(normalize(900, 0, 800), 255);
    assert_eq!(normalize(-5, 0, 800), 0);
    assert_eq!(normalize(3, 10, 0), 178);
    assert_eq!(normalize(1, 0, 0), 255);
    assert_eq!(normalize(0, 0, 0), 0);
    assert_eq!(normalize(-1, 0, 0), 0);
    assert_eq!(normalize(i64::MAX, i64::MIN, i64::MAX), 255);
    assert_eq!(normalize(0, i64::MIN, i64::MAX), 127);
    assert_eq!(normalize(i64::MIN, i64::MIN, i64::MAX), 0);
}

#[test]
fn normalize_agrees_with_the_float_formula() {
    for (value, min, max) in [(1, 0, 8), (3, 0, 8), (4, 0, 8), (7, 2, 9), (50, -50, 150)] {
        let expected = (((value - min) as f64 / (max - min) as f64) * 255.0).clamp(0.0, 255.0) as u8;
        assert_eq!(normalize(value, min, max), expected);
    }
}

#[test]
fn fade_drops_with_distance_down_to_fifteen() {
    assert_eq!(fade(0), 255);
    assert_eq!(fade(UNIT - 1), 255);
    assert_eq!(fade(10 * UNIT), 245);
    assert_eq!(fade(240 * UNIT), 15);
    assert_eq!(fade(241 * UNIT), 15);
    assert_eq!(fade(u64::MAX), 15);
}

#[test]
fn slices_are_centred_and_shrink_with_distance() {
    let distances = [1, 1000, UNIT / 2, UNIT, UNIT + 1, 3 * UNIT, 7 * UNIT + 5, 800 * UNIT, u64::MAX];
    for height in [1, 2, 7, 8, 799, 800] {
        let mut last = (0, height - 1);
        for distance in distances {
            let (start, end) = project(distance, height);
            assert!(start <= end && end < height);
            assert!(start + end == height || start + end == height - 1);
            assert!(last.0 <= start && end <= last.1);
            last = (start, end);
        }
    }
}
