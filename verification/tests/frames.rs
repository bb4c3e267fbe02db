use raycaster::fixed::ONE;
use raycaster::grid::Grid;
use raycaster::render::{
    grid_to_world, main_scene, put_pixel, render_main, set_background, set_minimap_background,
};
use raycaster::vector2::{CellSize, Vector2};

const UNIT: i32 = ONE as i32;

fn at(buffer: &[u8], width: usize, x: usize, y: usize) -> (u8, u8, u8, u8) {
    let i = (y * width + x) * 4;
    (buffer[i], buffer[i + 1], buffer[i + 2], buffer[i + 3])
}

fn rays() -> Vec<(bool, Vector2, u64)> {
    vec![
        (true, Vector2::new(30 * UNIT, 40 * UNIT), ONE as u64),
        (false, Vector2::new(30 * UNIT, 45 * UNIT), 0),
        (true, Vector2::new(30 * UNIT, 45 * UNIT), 8 * ONE as u64),
        (true, Vector2::new(0, 0), 0),
    ]
}

#[test]
fn put_pixel_writes_four_bytes_and_no_others() {
    let mut buffer = vec![7u8; 3 * 2 * 4];
    put_pixel(&mut buffer, 3, 2, 1, 1, (1, 2, 3, 4));
    for y in 0..2 {
        for x in 0..3 {
            let expected = if (x, y) == (1, 1) { (1, 2, 3, 4) } else { (7, 7, 7, 7) };
            assert_eq!(at(&buffer, 3, x, y), expected);
        }
    }
}

#[test]
fn background_fades_toward_the_middle_rows() {
    let mut buffer = vec![0u8; 4 * 8 * 4];
    set_background(&mut buffer, 4, 8);
    let alphas = [255, 223, 191, 159, 127, 159, 191, 223];
    for y in 0..8 {
        for x in 0..4 {
            assert_eq!(at(&buffer, 4, x, y), (200, 220, 250, alphas[y]));
        }
    }
}

#[test]
fn background_of_a_full_screen() {
    let mut buffer = vec![0u8; 800 * 800 * 4];
    set_background(&mut buffer, 800, 800);
    assert_eq!(at(&buffer, 800, 0, 0), (200, 220, 250, 255));
    assert_eq!(at(&buffer, 800, 799, 399), (200, 220, 250, 127));
    assert_eq!(at(&buffer, 800, 5, 400), (200, 220, 250, 127));
    assert_eq!(at(&buffer, 800, 799, 799), (200, 220, 250, 254));
}

#[test]
fn background_of_an_empty_frame_is_empty() {
    let mut buffer: Vec<u8> = vec![];
    set_background(&mut buffer, 0, 5);
    set_background(&mut buffer, 5, 0);
    assert!(buffer.is_empty());
}

#[test]
fn minimap_shows_walls_and_floors() {
    let mut cells = vec![false; 400];
    for y in 0..20 {
        for x in 0..20 {
            cells[y * 20 + x] = x == 0 || y == 0 || x == 19 || y == 19;
        }
    }
    cells[3 * 20 + 5] = true;
    let grid = Grid::new(20, 20, CellSize { width: 10, height: 10 }, cells).unwrap();
    let mut buffer = vec![0u8; 210 * 200 * 4];
    set_minimap_background(&mut buffer, &grid, 210, 200);
    let wall = (82, 42, 82, 255);
    let floor = (42, 42, 43, 255);
    assert_eq!(at(&buffer, 210, 0, 0), wall);
    assert_eq!(at(&buffer, 210, 9, 100), wall);
    assert_eq!(at(&buffer, 210, 10, 100), floor);
    assert_eq!(at(&buffer, 210, 15, 15), floor);
    assert_eq!(at(&buffer, 210, 199, 100), wall);
    assert_eq!(at(&buffer, 210, 50, 30), wall);
    assert_eq!(at(&buffer, 210, 59, 39), wall);
    assert_eq!(at(&buffer, 210, 60, 39), floor);
    assert_eq!(at(&buffer, 210, 30, 50), floor);
    assert_eq!(at(&buffer, 210, 205, 100), floor);
}

#[test]
fn walls_fill_their_slices() {
    let mut buffer = vec![9u8; 9 * 8 * 4];
    main_scene(&mut buffer, 9, 8, &rays(), Vector2::new(0, 0), 10 * ONE);
    let untouched = (9, 9, 9, 9);
    let near = (170, 190, 220, 205);
    let far = (190, 200, 240, 201);
    let touching = (170, 190, 220, 255);
    for y in 0..8 {
        for x in 0..9 {
            let expected = match x / 2 {
                0 if y < 7 => near,
                2 if y == 3 => far,
                3 if y < 7 => touching,
                _ => untouched,
            };
            assert_eq!(at(&buffer, 9, x, y), expected, "at {} {}", x, y);
        }
    }
}

#[test]
fn more_rays_than_columns_paint_nothing() {
    let mut buffer = vec![9u8; 3 * 8 * 4];
    main_scene(&mut buffer, 3, 8, &rays(), Vector2::new(0, 0), 10 * ONE);
    assert!(buffer.iter().all(|byte| *byte == 9));
    let traces = vec![vec![(Vector2::new(0, 0), ONE as u64)]; 4];
    grid_to_world(&mut buffer, 3, 8, &traces);
    assert!(buffer.iter().all(|byte| *byte == 9));
}

#[test]
fn traces_mark_the_bounds_of_their_slices() {
    let mut buffer = vec![9u8; 5 * 8 * 4];
    let point = Vector2::new(0, 0);
    let traces = vec![
        vec![(point, ONE as u64), (point, 8 * ONE as u64), (point, 4 * ONE as u64)],
        vec![],
    ];
    grid_to_world(&mut buffer, 5, 8, &traces);
    let untouched = (9, 9, 9, 9);
    for y in 0..8 {
        for x in 0..5 {
            let expected = if x < 2 {
                match y {
                    0 | 7 => (200, 200, 200, 224),
                    3 | 5 => (200, 200, 200, 160),
                    4 => (200, 200, 200, 128),
                    _ => untouched,
                }
            } else {
                untouched
            };
            assert_eq!(at(&buffer, 5, x, y), expected, "at {} {}", x, y);
        }
    }
}

#[test]
fn frame_is_backdrop_then_marks_then_walls() {
    let mut buffer = vec![9u8; 8 * 8 * 4];
    let point = Vector2::new(0, 0);
    let traces = vec![vec![(point, 8 * ONE as u64)], vec![(point, 4 * ONE as u64)]];
    render_main(&mut buffer, 8, 8, &traces, &rays(), point, 10 * ONE);
    assert_eq!(at(&buffer, 8, 0, 0), (170, 190, 220, 205));
    assert_eq!(at(&buffer, 8, 0, 7), (200, 220, 250, 223));
    assert_eq!(at(&buffer, 8, 2, 3), (200, 200, 200, 128));
    assert_eq!(at(&buffer, 8, 2, 4), (200, 200, 200, 128));
    assert_eq!(at(&buffer, 8, 2, 5), (200, 220, 250, 159));
    assert_eq!(at(&buffer, 8, 4, 3), (190, 200, 240, 201));
    assert_eq!(at(&buffer, 8, 4, 4), (200, 220, 250, 127));
    assert_eq!(at(&buffer, 8, 4, 5), (200, 200, 200, 160));
    assert_eq!(at(&buffer, 8, 7, 6), (170, 190, 220, 255));
    assert_eq!(at(&buffer, 8, 7, 7), (200, 220, 250, 223));
}
