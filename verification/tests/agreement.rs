use raycaster::fixed::ONE;
use raycaster::grid::Grid;
use raycaster::raycast::dda;
use raycaster::vector2::{CellSize, Vector2};

const ROWS: usize = 20;
const COLS: usize = 20;

const MAP: [[u8; COLS]; ROWS] = [
    [1, 1, 1, 1, 1, 1, 1, 1, 1, 1, 1, 1, 1, 1, 1, 1, 1, 1, 1, 1],
    [1, 0, 0, 0, 0, 0, 0, 0, 0, 0, 0, 0, 0, 0, 0, 0, 0, 0, 0, 1],
    [1, 0, 0, 0, 0, 0, 0, 1, 1, 1, 1, 1, 0, 0, 0, 0, 0, 0, 0, 1],
    [1, 0, 1, 0, 0, 1, 0, 1, 1, 0, 0, 1, 0, 0, 0, 0, 0, 0, 0, 1],
    [1, 1, 1, 0, 0, 1, 0, 1, 1, 0, 0, 1, 1, 1, 0, 0, 0, 0, 0, 1],
    [1, 0, 0, 0, 0, 1, 0, 1, 1, 0, 0, 0, 0, 0, 0, 0, 0, 0, 0, 1],
    [1, 0, 0, 0, 0, 1, 0, 1, 1, 0, 0, 0, 0, 0, 0, 0, 0, 0, 0, 1],
    [1, 0, 0, 0, 0, 1, 0, 1, 1, 1, 1, 1, 0, 0, 0, 0, 0, 0, 0, 1],
    [1, 0, 0, 0, 0, 1, 0, 1, 1, 1, 1, 1, 0, 0, 0, 0, 0, 0, 0, 1],
    [1, 0, 0, 0, 0, 1, 0, 0, 0, 0, 0, 0, 0, 0, 0, 0, 0, 0, 0, 1],
    [1, 0, 0, 0, 0, 1, 1, 1, 1, 1, 0, 0, 0, 0, 0, 0, 0, 0, 0, 1],
    [1, 0, 0, 0, 0, 0, 0, 0, 0, 0, 0, 0, 0, 0, 0, 0, 1, 1, 1, 1],
    [1, 0, 0, 0, 0, 0, 0, 0, 0, 0, 0, 0, 0, 0, 0, 0, 1, 0, 0, 1],
    [1, 0, 0, 1, 1, 0, 0, 1, 1, 0, 0, 0, 0, 0, 0, 0, 1, 0, 0, 1],
    [1, 0, 0, 1, 1, 0, 0, 1, 1, 0, 0, 0, 0, 0, 0, 0, 1, 0, 0, 1],
    [1, 0, 0, 1, 1, 1, 1, 1, 1, 0, 0, 0, 1, 1, 1, 1, 1, 0, 0, 1],
    [1, 0, 0, 0, 0, 0, 0, 0, 0, 0, 0, 0, 1, 0, 0, 0, 0, 0, 0, 1],
    [1, 0, 0, 0, 0, 0, 0, 0, 0, 0, 0, 0, 1, 0, 0, 0, 0, 0, 0, 1],
    [1, 0, 0, 0, 0, 0, 0, 0, 0, 0, 0, 0, 1, 0, 0, 0, 0, 0, 0, 1],
    [1, 1, 1, 1, 1, 1, 1, 1, 1, 1, 1, 1, 1, 1, 1, 1, 1, 1, 1, 1],
];

fn grid() -> Grid {
    let cells = MAP.iter().flat_map(|row| row.iter().map(|c| *c == 1)).collect();
    Grid::new(ROWS, COLS, CellSize { width: 10, height: 10 }, cells).unwrap()
}

/// The cast in double precision: the distance along the ray to the first wall, and the
/// point there, in grid units; `None` where a crossing comes too near a corner to call.
fn cast_in_floats(ox: f64, oy: f64, tx: f64, ty: f64) -> Option<(bool, f64, f64, f64)> {
    let (dx, dy) = (tx - ox, ty - oy);
    let length = (dx * dx + dy * dy).sqrt();
    let (ux, uy) = (dx / length, dy / length);
    let delta_x = if ux == 0.0 { f64::INFINITY } else { (1.0 / ux).abs() };
    let delta_y = if uy == 0.0 { f64::INFINITY } else { (1.0 / uy).abs() };
    let (mut col, mut row) = (ox.floor() as i64, oy.floor() as i64);
    let mut side_x = if ux < 0.0 { (ox - col as f64) * delta_x } else { (col as f64 + 1.0 - ox) * delta_x };
    let mut side_y = if uy < 0.0 { (oy - row as f64) * delta_y } else { (row as f64 + 1.0 - oy) * delta_y };
    if ux == 0.0 {
        side_x = f64::INFINITY;
    }
    if uy == 0.0 {
        side_y = f64::INFINITY;
    }
    loop {
        if (side_x - side_y).abs() < 1e-6 {
            return None;
        }
        let distance;
        if side_x < side_y {
            col += if ux < 0.0 { -1 } else { 1 };
            distance = side_x;
            side_x += delta_x;
        } else {
            row += if uy < 0.0 { -1 } else { 1 };
            distance = side_y;
            side_y += delta_y;
        }
        let inside = 0 <= col && col < COLS as i64 && 0 <= row && row < ROWS as i64;
        if inside && MAP[row as usize][col as usize] == 1 {
            return Some((true, ox + ux * distance, oy + uy * distance, distance));
        }
        if !inside {
            return Some((false, ox + ux * distance, oy + uy * distance, 0.0));
        }
    }
}

#[test]
fn fixed_point_casts_agree_with_casts_in_floats() {
    let grid = grid();
    let one = ONE as f64;
    let mut compared = 0;
    let origins = [(1.5, 1.5), (3.25, 6.75), (10.1, 10.9), (17.5, 16.5), (9.5, 3.5), (6.5, 12.0)];
    for (ox, oy) in origins {
        for step in 0..360 {
            let angle = (step as f64 + 0.37) * std::f64::consts::PI / 180.0;
            let origin = Vector2::new((ox * one) as i32, (oy * one) as i32);
            let target = Vector2::new(
                origin.x + (angle.cos() * 5.0 * one) as i32,
                origin.y + (angle.sin() * 5.0 * one) as i32,
            );
            let expected = cast_in_floats(
                origin.x as f64 / one,
                origin.y as f64 / one,
                target.x as f64 / one,
                target.y as f64 / one,
            );
            let Some((hit, x, y, distance)) = expected else {
                continue;
            };
            let found = dda(&grid, origin, target);
            assert_eq!(found.0, hit);
            assert!((found.1.x as f64 / one - x * 10.0).abs() < 1e-3, "{:?} {} {}", found, x, y);
            assert!((found.1.y as f64 / one - y * 10.0).abs() < 1e-3, "{:?} {} {}", found, x, y);
            assert!((found.2 as f64 / one - distance).abs() < 1e-4, "{:?} {}", found, distance);
            compared += 1;
        }
    }
    assert!(compared > 2000);
}
