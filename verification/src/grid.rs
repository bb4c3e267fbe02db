//! The occupancy grid: which cells of the map are walls.

use crate::fixed::ONE;
use crate::vector2::{CellSize, Vector2};
use vstd::prelude::*;

verus! {

/// The largest width or height of a map, in pixels: beyond it a pixel-space
/// coordinate would not fit a vector component.
pub const MAX_EXTENT: u32 = 32767;

/// A map of `rows` by `cols` cells, each occupied or empty, and the pixel size of a cell.
/// The cell at column `x` of row `y` stands at index `y * cols + x`.
pub struct Grid {
    rows: usize,
    cols: usize,
    cell: CellSize,
    cells: Vec<bool>,
}

/// The dimensions describe a map: cells of positive size, no more than `MAX_EXTENT`
/// pixels either way, and one state for each cell.
pub open spec fn valid_layout(rows: int, cols: int, cell: CellSize, len: int) -> bool {
    &&& cell.wf()
    &&& 0 <= cols && cols * cell.width <= MAX_EXTENT
    &&& 0 <= rows && rows * cell.height <= MAX_EXTENT
    &&& len == rows * cols
}

impl Grid {
    /// The number of rows.
    pub closed spec fn row_count(&self) -> int {
        self.rows as int
    }

    /// The number of columns.
    pub closed spec fn col_count(&self) -> int {
        self.cols as int
    }

    /// The pixel size of one cell.
    pub closed spec fn cell_size(&self) -> CellSize {
        self.cell
    }

    /// The states of the cells, row after row.
    pub closed spec fn states(&self) -> Seq<bool> {
        self.cells@
    }

    /// The invariant of the type.
    pub open spec fn wf(&self) -> bool {
        valid_layout(self.row_count(), self.col_count(), self.cell_size(), self.states().len() as int)
    }

    /// The cell at column `x`, row `y` lies on the map.
    pub open spec fn in_range(&self, x: int, y: int) -> bool {
        0 <= x < self.col_count() && 0 <= y < self.row_count()
    }

    /// The cell at column `x`, row `y` lies on the map and is occupied.
    pub open spec fn occupied(&self, x: int, y: int) -> bool {
        self.in_range(x, y) && self.states()[y * self.col_count() + x]
    }

    /// The grid-space point `p` lies in a cell of the map.
    pub open spec fn inside(&self, p: (int, int)) -> bool {
        self.in_range(p.0 / (ONE as int), p.1 / (ONE as int))
    }

    /// The width of the map in raw pixel-space units.
    pub open spec fn pixel_width(&self) -> int {
        self.col_count() * self.cell_size().width * ONE
    }

    /// The height of the map in raw pixel-space units.
    pub open spec fn pixel_height(&self) -> int {
        self.row_count() * self.cell_size().height * ONE
    }

    /// The pixel-space point `p` lies on the map.
    pub open spec fn covers(&self, p: (int, int)) -> bool {
        0 <= p.0 <= self.pixel_width() && 0 <= p.1 <= self.pixel_height()
    }

    /// The pixel-space point `p` lies on the outline of the map.
    pub open spec fn on_boundary(&self, p: (int, int)) -> bool {
        self.covers(p) && (p.0 == 0 || p.0 == self.pixel_width() || p.1 == 0 || p.1
            == self.pixel_height())
    }

    /// A map has at most `MAX_EXTENT` rows and columns, and every pixel-space point on it
    /// fits a vector.
    pub proof fn lemma_bounds(&self)
        requires
            self.wf(),
        ensures
            0 <= self.row_count() <= MAX_EXTENT,
            0 <= self.col_count() <= MAX_EXTENT,
            0 <= self.pixel_width() <= i32::MAX,
            0 <= self.pixel_height() <= i32::MAX,
    {
        lemma_extent(self.row_count(), self.cell_size().height as int);
        lemma_extent(self.col_count(), self.cell_size().width as int);
        lemma_raw_extent(self.row_count() * self.cell_size().height);
        lemma_raw_extent(self.col_count() * self.cell_size().width);
    }

    /// A map of `rows` by `cols` cells of the given pixel size, where `cells` holds the
    /// states row after row; `None` where the dimensions describe no map.
    pub fn new(rows: usize, cols: usize, cell: CellSize, cells: Vec<bool>) -> (r: Option<Grid>)
        ensures
            r.is_some() == valid_layout(rows as int, cols as int, cell, cells@.len() as int),
            r.is_some() ==> {
                let g = r.unwrap();
                &&& g.wf()
                &&& g.row_count() == rows
                &&& g.col_count() == cols
                &&& g.cell_size() == cell
                &&& g.states() == cells@
            },
    {
        if cell.width < 1 || cell.height < 1 {
            return None;
        }
        if cols > MAX_EXTENT as usize || rows > MAX_EXTENT as usize {
            proof {
                lemma_extent(rows as int, cell.height as int);
                lemma_extent(cols as int, cell.width as int);
            }
            return None;
        }
        proof {
            lemma_area(rows as int, cols as int);
            lemma_side(rows as int, cell.height as int);
            lemma_side(cols as int, cell.width as int);
        }
        if cols as u64 * cell.width as u64 > MAX_EXTENT as u64 {
            return None;
        }
        if rows as u64 * cell.height as u64 > MAX_EXTENT as u64 {
            return None;
        }
        if cells.len() as u64 != rows as u64 * cols as u64 {
            return None;
        }
        Some(Grid { rows, cols, cell, cells })
    }

    /// The number of rows.
    pub fn rows(&self) -> (r: usize)
        ensures
            r == self.row_count(),
    {
        self.rows
    }

    /// The number of columns.
    pub fn cols(&self) -> (r: usize)
        ensures
            r == self.col_count(),
    {
        self.cols
    }

    /// The pixel size of one cell.
    pub fn cell(&self) -> (r: CellSize)
        ensures
            r == self.cell_size(),
    {
        self.cell
    }

    /// Whether the cell at column `x`, row `y` is a wall. A cell off the map is none: the
    /// bounds are tested before the states are read.
    pub fn is_occupied(&self, x: i64, y: i64) -> (r: bool)
        requires
            self.wf(),
        ensures
            r == self.occupied(x as int, y as int),
    {
        proof {
            self.lemma_bounds();
        }
        if x < 0 || y < 0 || x >= self.cols as i64 || y >= self.rows as i64 {
            return false;
        }
        proof {
            lemma_index(x as int, y as int, self.cols as int, self.rows as int);
            lemma_area(self.rows as int, self.cols as int);
        }
        self.cells[y as usize * self.cols + x as usize]
    }

    /// Whether the grid-space point `p` lies in a cell of the map.
    pub fn contains(&self, p: Vector2) -> (r: bool)
        requires
            self.wf(),
        ensures
            r == self.inside(p@),
    {
        proof {
            self.lemma_bounds();
        }
        if p.x < 0 {
            proof {
                crate::fixed::lemma_div_strict_upper(p.x as int, ONE as int, 0);
            }
            return false;
        }
        if p.y < 0 {
            proof {
                crate::fixed::lemma_div_strict_upper(p.y as int, ONE as int, 0);
            }
            return false;
        }
        let col: i64 = p.x as i64 / ONE;
        let row: i64 = p.y as i64 / ONE;
        col < self.cols as i64 && row < self.rows as i64
    }
}

/// A side of more than `MAX_EXTENT` cells of positive size is longer than `MAX_EXTENT` pixels.
proof fn lemma_extent(n: int, size: int)
    by (nonlinear_arith)
    requires
        size >= 1,
    ensures
        n > MAX_EXTENT ==> n * size > MAX_EXTENT,
{
}

/// A length of at most `MAX_EXTENT` pixels fits a vector component in raw units.
proof fn lemma_raw_extent(n: int)
    by (nonlinear_arith)
    requires
        0 <= n <= MAX_EXTENT,
    ensures
        0 <= n * ONE <= i32::MAX,
{
}

/// A map of at most `MAX_EXTENT` cells either way has fewer than 2^30 cells.
proof fn lemma_area(rows: int, cols: int)
    by (nonlinear_arith)
    requires
        0 <= rows <= MAX_EXTENT,
        0 <= cols <= MAX_EXTENT,
    ensures
        0 <= rows * cols <= 0x3fff_0001,
{
}

/// The pixel length of a side fits 64 bits.
proof fn lemma_side(n: int, size: int)
    by (nonlinear_arith)
    requires
        0 <= n <= MAX_EXTENT,
        0 <= size <= u32::MAX,
    ensures
        0 <= n * size <= 0x7fff_0000_0000,
{
}

/// The index of a cell on the map lies within the states.
proof fn lemma_index(x: int, y: int, cols: int, rows: int)
    by (nonlinear_arith)
    requires
        0 <= x < cols,
        0 <= y < rows,
    ensures
        0 <= y * cols <= y * cols + x < rows * cols,
{
}

} // verus!
