use raycaster::fixed::ONE;
use raycaster::grid::{Grid, MAX_EXTENT};
use raycaster::vector2::{CellSize, Vector2};

const UNIT: i32 = ONE as i32;

fn cell() -> CellSize {
    CellSize { width: 10, height: 10 }
}

#[test]
fn new_takes_a_matching_layout() {
    let grid = Grid::new(2, 3, cell(), vec![false, true, false, true, false, false]).unwrap();
    assert_eq!(grid.rows(), 2);
    assert_eq!(grid.cols(), 3);
    assert_eq!(grid.cell(), cell());
}

#[test]
fn new_refuses_what_is_no_map() {
    assert!(Grid::new(2, 3, cell(), vec![false; 5]).is_none());
    assert!(Grid::new(2, 3, cell(), vec![false; 7]).is_none());
    assert!(Grid::new(2, 3, CellSize { width: 0, height: 10 }, vec![false; 6]).is_none());
    assert!(Grid::new(2, 3, CellSize { width: 10, height: 0 }, vec![false; 6]).is_none());
    assert!(Grid::new(1, 3277, cell(), vec![false; 3277]).is_none());
    assert!(Grid::new(3277, 1, cell(), vec![false; 3277]).is_none());
    assert!(Grid::new(1, 3276, cell(), vec![false; 3276]).is_some());
    assert!(Grid::new(0, 0, cell(), vec![]).is_some());
    assert_eq!(MAX_EXTENT, 32767);
}

#[test]
fn is_occupied_reads_the_cell_at_column_and_row() {
    let grid = Grid::new(2, 3, cell(), vec![false, true, false, true, false, false]).unwrap();
    assert!(grid.is_occupied(1, 0));
    assert!(grid.is_occupied(0, 1));
    assert!(!grid.is_occupied(0, 0));
    assert!(!grid.is_occupied(2, 1));
}

#[test]
fn is_occupied_is_false_off_the_map() {
    let grid = Grid::new(2, 3, cell(), vec![true; 6]).unwrap();
    assert!(!grid.is_occupied(-1, 0));
    assert!(!grid.is_occupied(0, -1));
    assert!(!grid.is_occupied(3, 0));
    assert!(!grid.is_occupied(0, 2));
    assert!(!grid.is_occupied(i64::MAX, i64::MIN));
}

#[test]
fn contains_tells_points_on_the_map() {
    let grid = Grid::new(2, 3, cell(), vec![false; 6]).unwrap();
    assert!(grid.contains(Vector2::new(0, 0)));
    assert!(grid.contains(Vector2::new(3 * UNIT - 1, 2 * UNIT - 1)));
    assert!(!grid.contains(Vector2::new(3 * UNIT, 0)));
    assert!(!grid.contains(Vector2::new(0, 2 * UNIT)));
    assert!(!grid.contains(Vector2::new(-1, 0)));
    assert!(!grid.contains(Vector2::new(0, -1)));
}
