//! Grid traversal: the walk of a ray from cell to cell, and what it strikes.
//!
//! A ray leaves its origin toward a target, both in grid space. Each step takes it
//! across the grid line it reaches first, into the next cell. Which line comes first is
//! decided by cross-multiplying integers, so the walk is the exact one of the
//! mathematical ray; only the reported point and distance are rounded, down.

use crate::fixed::{
    div_floor, isqrt, lemma_div_bounds, lemma_div_lower, lemma_div_strict_upper,
    lemma_div_upper, sqrt_floor, ONE,
};
use crate::grid::Grid;
use crate::vector2::{
    difference_of, fits, grid_of, lemma_unit_is_parallel, perpendicular_target, pixel_of,
    point_perpendicular_of, representable, unit_of, Vector2,
};
use vstd::prelude::*;

verus! {

/// The absolute value of `v`.
pub open spec fn abs_of(v: int) -> int {
    if v < 0 {
        -v
    } else {
        v
    }
}

/// The raw distance from the coordinate `o` to the first grid line ahead of it, where
/// `d` says which way is ahead: toward smaller coordinates when negative.
pub open spec fn first_reach(o: int, d: int) -> int {
    if d < 0 {
        o - (o / (ONE as int)) * ONE
    } else {
        (o / (ONE as int) + 1) * ONE - o
    }
}

/// A ray in grid space: its origin and the displacement from there to its target.
pub struct Ray {
    pub ox: int,
    pub oy: int,
    pub dx: int,
    pub dy: int,
}

/// The ray from `p1` toward `p2`.
pub open spec fn ray_of(p1: (int, int), p2: (int, int)) -> Ray {
    Ray { ox: p1.0, oy: p1.1, dx: p2.0 - p1.0, dy: p2.1 - p1.1 }
}

impl Ray {
    /// The ray has a direction.
    pub open spec fn directed(self) -> bool {
        self.dx != 0 || self.dy != 0
    }

    /// The cell that holds the origin.
    pub open spec fn start(self) -> (int, int) {
        (self.ox / (ONE as int), self.oy / (ONE as int))
    }

    /// The way the ray moves from column to column: -1 or 1.
    pub open spec fn step_x(self) -> int {
        if self.dx < 0 {
            -1
        } else {
            1
        }
    }

    /// The way the ray moves from row to row: -1 or 1.
    pub open spec fn step_y(self) -> int {
        if self.dy < 0 {
            -1
        } else {
            1
        }
    }

    /// The raw distance along x from the origin to the vertical grid line that the ray
    /// meets after `i` column steps.
    pub open spec fn reach_x(self, i: int) -> int {
        first_reach(self.ox, self.dx) + i * ONE
    }

    /// The raw distance along y from the origin to the horizontal grid line that the ray
    /// meets after `j` row steps.
    pub open spec fn reach_y(self, j: int) -> int {
        first_reach(self.oy, self.dy) + j * ONE
    }

    /// After `i` column steps and `j` row steps the ray meets a vertical line before it
    /// meets a horizontal one. Where it meets both at once, the row step comes first.
    pub open spec fn x_is_next(self, i: int, j: int) -> bool {
        self.reach_x(i) * abs_of(self.dy) < self.reach_y(j) * abs_of(self.dx)
    }

    /// How many of the first `k` steps are column steps, and how many are row steps.
    pub open spec fn steps(self, k: nat) -> (int, int)
        decreases k,
    {
        if k == 0 {
            (0, 0)
        } else {
            let before = self.steps((k - 1) as nat);
            if self.x_is_next(before.0, before.1) {
                (before.0 + 1, before.1)
            } else {
                (before.0, before.1 + 1)
            }
        }
    }

    /// The cell that the ray is in after `k` steps, as column and row.
    pub open spec fn cell(self, k: nat) -> (int, int) {
        let done = self.steps(k);
        (self.start().0 + self.step_x() * done.0, self.start().1 + self.step_y() * done.1)
    }

    /// Step `k`, counted from 1, is a column step.
    pub open spec fn along_x(self, k: nat) -> bool {
        let before = self.steps((k - 1) as nat);
        self.x_is_next(before.0, before.1)
    }

    /// The raw distance, along the axis of step `k`, from the origin to the line crossed.
    pub open spec fn reach(self, k: nat) -> int {
        let before = self.steps((k - 1) as nat);
        if self.x_is_next(before.0, before.1) {
            self.reach_x(before.0)
        } else {
            self.reach_y(before.1)
        }
    }

    /// The length of the ray's displacement along the axis of step `k`.
    pub open spec fn span(self, k: nat) -> int {
        if self.along_x(k) {
            abs_of(self.dx)
        } else {
            abs_of(self.dy)
        }
    }

    /// The grid-space point where step `k` crosses its line: the origin moved by
    /// `reach / span` of the displacement, each coordinate rounded down.
    pub open spec fn crossing(self, k: nat) -> (int, int) {
        (
            self.ox + (self.dx * self.reach(k)) / self.span(k),
            self.oy + (self.dy * self.reach(k)) / self.span(k),
        )
    }

    /// The distance from the origin to the point where step `k` crosses its line,
    /// rounded down: `reach / span` of the length of the displacement.
    pub open spec fn distance(self, k: nat) -> int {
        sqrt_floor(
            (self.reach(k) * self.reach(k) * (self.dx * self.dx + self.dy * self.dy)) / (self.span(
                k,
            ) * self.span(k)),
        )
    }

    /// Neither line around the ray's place after `i` column steps and `j` row steps is
    /// out of turn: the line behind on either axis is met no later than the line ahead on
    /// the other.
    pub open spec fn in_turn(self, i: int, j: int) -> bool {
        &&& self.reach_y(j - 1) * abs_of(self.dx) <= self.reach_x(i) * abs_of(self.dy)
        &&& self.reach_x(i - 1) * abs_of(self.dy) <= self.reach_y(j) * abs_of(self.dx)
    }
}

/// The first line ahead is at most one cell away, and not behind.
pub proof fn lemma_first_reach(o: int, d: int)
    ensures
        0 <= first_reach(o, d) <= ONE,
        d >= 0 ==> first_reach(o, d) > 0,
{
    lemma_div_bounds(o, ONE as int);
}

/// `(-a) * b` is `-(a * b)`, and a product of non-negative factors is non-negative.
proof fn lemma_signs(a: int, b: int)
    by (nonlinear_arith)
    ensures
        (-a) * b == -(a * b),
        a * (-b) == -(a * b),
        a * b == b * a,
        a >= 0 && b >= 0 ==> a * b >= 0,
        a <= 0 && b >= 0 ==> a * b <= 0,
{
}

/// `(r + ONE) * b` is no less than `r * b` for a non-negative `b`.
proof fn lemma_next_reach(r: int, b: int)
    by (nonlinear_arith)
    requires
        b >= 0,
    ensures
        (r + ONE) * b >= r * b,
{
}

impl Ray {
    /// The counts of column and row steps are non-negative and add up to `k`, and the
    /// lines around the ray's place are in turn.
    pub proof fn lemma_steps(self, k: nat)
        ensures
            self.steps(k).0 >= 0,
            self.steps(k).1 >= 0,
            self.steps(k).0 + self.steps(k).1 == k,
            self.in_turn(self.steps(k).0, self.steps(k).1),
        decreases k,
    {
        let a = abs_of(self.dx);
        let b = abs_of(self.dy);
        lemma_first_reach(self.ox, self.dx);
        lemma_first_reach(self.oy, self.dy);
        if k == 0 {
            lemma_signs(self.reach_y(-1), a);
            lemma_signs(self.reach_x(0), b);
            lemma_signs(self.reach_x(-1), b);
            lemma_signs(self.reach_y(0), a);
        } else {
            self.lemma_steps((k - 1) as nat);
            let before = self.steps((k - 1) as nat);
            let i = before.0;
            let j = before.1;
            if self.x_is_next(i, j) {
                assert(self.reach_x(i + 1) == self.reach_x(i) + ONE);
                assert(self.reach_x(i + 1 - 1) == self.reach_x(i));
                lemma_next_reach(self.reach_x(i), b);
            } else {
                assert(self.reach_y(j + 1) == self.reach_y(j) + ONE);
                assert(self.reach_y(j + 1 - 1) == self.reach_y(j));
                lemma_next_reach(self.reach_y(j), a);
            }
        }
    }
}

/// Where a ray has come `n` along one axis, of a displacement of length `a` along that
/// axis, it has come `d * n / a` along the other. If that lies between the line `behind`
/// and the line `ahead` on the other axis, so does the rounded quotient.
proof fn lemma_lateral(d: int, a: int, n: int, behind: int, ahead: int)
    requires
        a > 0,
        behind * a <= abs_of(d) * n,
        abs_of(d) * n <= ahead * a,
    ensures
        d >= 0 ==> behind <= (d * n) / a <= ahead,
        d < 0 ==> -ahead <= (d * n) / a <= -behind,
{
    if d >= 0 {
        lemma_div_upper(d * n, a, ahead);
        lemma_div_lower(d * n, a, behind);
    } else {
        lemma_signs(d, n);
        lemma_signs(ahead, a);
        lemma_signs(behind, a);
        assert(d * n == -(abs_of(d) * n));
        lemma_div_lower(d * n, a, -ahead);
        lemma_div_upper(d * n, a, -behind);
    }
}

/// Along its own axis a step goes exactly as far as its reach: `d * n / |d|` is `n`
/// with the sign of `d`.
proof fn lemma_axial(d: int, n: int)
    requires
        d != 0,
    ensures
        d > 0 ==> (d * n) / abs_of(d) == n,
        d < 0 ==> (d * n) / abs_of(d) == -n,
{
    if d > 0 {
        lemma_signs(d, n);
        vstd::arithmetic::div_mod::lemma_fundamental_div_mod_converse(d * n, d, n, 0);
    } else {
        lemma_signs(-d, n);
        lemma_signs(d, n);
        lemma_signs(n, -d);
        lemma_signs(n, d);
        assert(d * n == (-n) * (-d)) by (nonlinear_arith);
        vstd::arithmetic::div_mod::lemma_fundamental_div_mod_converse(d * n, -d, -n, 0);
    }
}

impl Ray {
    /// The axis of a step has a displacement: a column step is taken only by a ray that
    /// moves along x, a row step only by one that moves along y.
    pub proof fn lemma_span(self, k: nat)
        requires
            self.directed(),
            k >= 1,
        ensures
            self.span(k) > 0,
            self.reach(k) >= 0,
    {
        let km = (k - 1) as nat;
        self.lemma_steps(km);
        let i = self.steps(km).0;
        let j = self.steps(km).1;
        lemma_first_reach(self.ox, self.dx);
        lemma_first_reach(self.oy, self.dy);
        let a = abs_of(self.dx);
        let b = abs_of(self.dy);
        assert(i * ONE >= 0 && j * ONE >= 0);
        if self.x_is_next(i, j) {
            lemma_signs(self.reach_x(i), b);
            if a == 0 {
                lemma_signs(self.reach_y(j), a);
                assert(self.reach_y(j) * a == 0) by (nonlinear_arith)
                    requires
                        a == 0,
                ;
            }
        } else {
            if b == 0 {
                assert(self.reach_x(i) * b == 0) by (nonlinear_arith)
                    requires
                        b == 0,
                ;
                assert(self.reach_y(j) * a > 0) by (nonlinear_arith)
                    requires
                        self.reach_y(j) > 0,
                        a > 0,
                ;
            }
        }
    }

    /// A step crosses on the edge of the cell it leaves. The crossing lies on the line
    /// between the two cells, and along that line within the cell left.
    pub proof fn lemma_crossing(self, k: nat)
        requires
            self.directed(),
            k >= 1,
        ensures
            ({
                let from = self.cell((k - 1) as nat);
                let to = self.cell(k);
                let p = self.crossing(k);
                &&& from.0 * ONE <= p.0 <= (from.0 + 1) * ONE
                &&& from.1 * ONE <= p.1 <= (from.1 + 1) * ONE
                &&& self.along_x(k) ==> to == (from.0 + self.step_x(), from.1) && p.0 == (if self.dx
                    < 0 {
                    from.0 * ONE
                } else {
                    to.0 * ONE
                })
                &&& !self.along_x(k) ==> to == (from.0, from.1 + self.step_y()) && p.1 == (
                if self.dy < 0 {
                    from.1 * ONE
                } else {
                    to.1 * ONE
                })
            }),
    {
        let km = (k - 1) as nat;
        self.lemma_steps(km);
        self.lemma_span(k);
        let i = self.steps(km).0;
        let j = self.steps(km).1;
        let a = abs_of(self.dx);
        let b = abs_of(self.dy);
        lemma_div_bounds(self.ox, ONE as int);
        lemma_div_bounds(self.oy, ONE as int);
        assert(self.steps(k) == if self.x_is_next(i, j) {
            (i + 1, j)
        } else {
            (i, j + 1)
        });
        let from = self.cell(km);
        let to = self.cell(k);
        let p = self.crossing(k);
        assert(from.0 == if self.dx < 0 {
            self.start().0 - i
        } else {
            self.start().0 + i
        }) by {
            lemma_signs(1, i);
        }
        assert(from.1 == if self.dy < 0 {
            self.start().1 - j
        } else {
            self.start().1 + j
        }) by {
            lemma_signs(1, j);
        }
        if self.x_is_next(i, j) {
            let n = self.reach_x(i);
            assert(self.reach(k) == n && self.span(k) == a);
            lemma_axial(self.dx, n);
            lemma_signs(b, n);
            lemma_signs(n, b);
            lemma_lateral(self.dy, a, n, self.reach_y(j - 1), self.reach_y(j));
            assert(to.0 == if self.dx < 0 {
                self.start().0 - (i + 1)
            } else {
                self.start().0 + (i + 1)
            }) by {
                lemma_signs(1, i + 1);
            }
            assert(to.1 == from.1);
            assert(p.0 == if self.dx < 0 {
                self.ox - n
            } else {
                self.ox + n
            });
            assert(from.1 * ONE <= p.1 <= (from.1 + 1) * ONE);
        } else {
            let n = self.reach_y(j);
            assert(self.reach(k) == n && self.span(k) == b);
            lemma_axial(self.dy, n);
            lemma_signs(a, n);
            lemma_signs(n, a);
            lemma_lateral(self.dx, b, n, self.reach_x(i - 1), self.reach_x(i));
            assert(to.1 == if self.dy < 0 {
                self.start().1 - (j + 1)
            } else {
                self.start().1 + (j + 1)
            }) by {
                lemma_signs(1, j + 1);
            }
            assert(to.0 == from.0);
            assert(p.1 == if self.dy < 0 {
                self.oy - n
            } else {
                self.oy + n
            });
            assert(from.0 * ONE <= p.0 <= (from.0 + 1) * ONE);
        }
    }
}

impl Ray {
    /// The distance reported for a crossing is the straight-line distance from the origin
    /// to the crossing, rounded down: it never exceeds that distance, and one raw unit
    /// more would.
    pub proof fn lemma_distance_is_straight_line(self, k: nat)
        requires
            self.directed(),
            k >= 1,
        ensures
            0 <= self.distance(k),
            self.distance(k) * self.distance(k) * (self.span(k) * self.span(k)) <= self.reach(k)
                * self.reach(k) * (self.dx * self.dx + self.dy * self.dy),
            self.reach(k) * self.reach(k) * (self.dx * self.dx + self.dy * self.dy) < (
            self.distance(k) + 1) * (self.distance(k) + 1) * (self.span(k) * self.span(k)),
    {
        self.lemma_span(k);
        let n = self.reach(k);
        let a = self.span(k);
        let len2 = self.dx * self.dx + self.dy * self.dy;
        let whole = n * n * len2;
        let aa = a * a;
        assert(aa > 0 && whole >= 0) by (nonlinear_arith)
            requires
                a > 0,
                aa == a * a,
                whole == n * n * len2,
                len2 == self.dx * self.dx + self.dy * self.dy,
        ;
        lemma_div_bounds(whole, aa);
        lemma_div_lower(whole, aa, 0);
        let q = whole / aa;
        crate::fixed::lemma_sqrt_floor(q);
        let d = self.distance(k);
        assert(d * d * aa <= whole) by (nonlinear_arith)
            requires
                d * d <= q,
                q * aa <= whole,
                aa > 0,
        ;
        assert(whole < (d + 1) * (d + 1) * aa) by (nonlinear_arith)
            requires
                q < (d + 1) * (d + 1),
                whole < q * aa + aa,
                aa > 0,
        ;
    }
}

/// After `k` steps the ray is off the map, just past one of its four sides.
pub open spec fn leaves(grid: &Grid, ray: Ray, k: nat) -> bool {
    let c = ray.cell(k);
    c.0 == -1 || c.0 == grid.col_count() || c.1 == -1 || c.1 == grid.row_count()
}

/// After `k` steps the ray is in an occupied cell of the map.
pub open spec fn strikes(grid: &Grid, ray: Ray, k: nat) -> bool {
    grid.occupied(ray.cell(k).0, ray.cell(k).1)
}

/// Step `k` ends the search for a wall: it enters a wall or leaves the map.
pub open spec fn stops(grid: &Grid, ray: Ray, k: nat) -> bool {
    strikes(grid, ray, k) || leaves(grid, ray, k)
}

/// Step `k` is the first that enters a wall or leaves the map.
pub open spec fn first_stop(grid: &Grid, ray: Ray, k: nat) -> bool {
    &&& k >= 1
    &&& stops(grid, ray, k)
    &&& forall|m: nat| 1 <= m < k ==> !stops(grid, ray, m)
}

/// Step `k` is the first that leaves the map.
pub open spec fn first_exit(grid: &Grid, ray: Ray, k: nat) -> bool {
    &&& k >= 1
    &&& leaves(grid, ray, k)
    &&& forall|m: nat| 1 <= m < k ==> !leaves(grid, ray, m)
}

/// The number of the first step that enters a wall or leaves the map.
pub open spec fn stop_of(grid: &Grid, ray: Ray) -> nat {
    choose|k: nat| first_stop(grid, ray, k)
}

/// The number of the first step that leaves the map.
pub open spec fn exit_of(grid: &Grid, ray: Ray) -> nat {
    choose|k: nat| first_exit(grid, ray, k)
}

/// The pixel-space point where step `k` crosses its line.
pub open spec fn crossing_pixel(grid: &Grid, ray: Ray, k: nat) -> (int, int) {
    pixel_of(ray.crossing(k), grid.cell_size())
}

/// `r` is what a cast of `ray` across `grid` finds: whether the first step that stops
/// enters a wall, the pixel-space point where that step crosses its line, and the
/// distance from the origin to that point, or 0 where the ray leaves the map.
pub open spec fn is_cast(grid: &Grid, ray: Ray, r: (bool, Vector2, u64)) -> bool {
    let k = stop_of(grid, ray);
    &&& first_stop(grid, ray, k)
    &&& r.0 == strikes(grid, ray, k)
    &&& r.1@ == crossing_pixel(grid, ray, k)
    &&& r.2 == if r.0 {
        ray.distance(k)
    } else {
        0
    }
}

/// `r` is the trace of `ray` across `grid`: for each step up to the first that leaves
/// the map, the pixel-space point where it crosses its line and the distance from the
/// origin to that point.
pub open spec fn is_trace(grid: &Grid, ray: Ray, r: Seq<(Vector2, u64)>) -> bool {
    &&& first_exit(grid, ray, exit_of(grid, ray))
    &&& r.len() == exit_of(grid, ray)
    &&& forall|m: int|
        0 <= m < r.len() ==> {
            &&& (#[trigger] r[m]).0@ == crossing_pixel(grid, ray, (m + 1) as nat)
            &&& r[m].1 == ray.distance((m + 1) as nat)
        }
}

/// Only one step is the first to stop.
pub proof fn lemma_first_stop_unique(grid: &Grid, ray: Ray, k1: nat, k2: nat)
    requires
        first_stop(grid, ray, k1),
        first_stop(grid, ray, k2),
    ensures
        k1 == k2,
{
}

/// Only one step is the first to leave.
pub proof fn lemma_first_exit_unique(grid: &Grid, ray: Ray, k1: nat, k2: nat)
    requires
        first_exit(grid, ray, k1),
        first_exit(grid, ray, k2),
    ensures
        k1 == k2,
{
}

/// The place of a walk: the cell, and the reach of the next line ahead on each axis.
struct Cursor {
    col: i64,
    row: i64,
    reach_x: i64,
    reach_y: i64,
}

/// The cursor is where the ray is after `k` steps.
spec fn follows(ray: Ray, k: nat, c: Cursor) -> bool {
    &&& c.col == ray.cell(k).0
    &&& c.row == ray.cell(k).1
    &&& c.reach_x == ray.reach_x(ray.steps(k).0)
    &&& c.reach_y == ray.reach_y(ray.steps(k).1)
}

/// The steps that a ray on the map can still take before it must have left: the cells
/// ahead of it along x, and those along y.
spec fn cells_ahead(grid: &Grid, ray: Ray, col: int, row: int) -> int {
    (if ray.dx < 0 {
        col + 1
    } else {
        grid.col_count() - col
    }) + (if ray.dy < 0 {
        row + 1
    } else {
        grid.row_count() - row
    })
}

/// While the ray is on the map, the next line ahead on either axis is no further from
/// the origin than the map is wide or high.
proof fn lemma_reach_on_map(grid: &Grid, ray: Ray, k: nat)
    requires
        grid.wf(),
        grid.inside((ray.ox, ray.oy)),
        grid.in_range(ray.cell(k).0, ray.cell(k).1),
    ensures
        0 <= ray.reach_x(ray.steps(k).0) <= grid.col_count() * ONE <= 0x7fff_0000,
        0 <= ray.reach_y(ray.steps(k).1) <= grid.row_count() * ONE <= 0x7fff_0000,
        0 <= ray.ox < grid.col_count() * ONE,
        0 <= ray.oy < grid.row_count() * ONE,
{
    grid.lemma_bounds();
    ray.lemma_steps(k);
    lemma_div_bounds(ray.ox, ONE as int);
    lemma_div_bounds(ray.oy, ONE as int);
    lemma_signs(1, ray.steps(k).0);
    lemma_signs(1, ray.steps(k).1);
}

/// The product of a reach on the map and the length of a displacement fits 64 bits.
proof fn lemma_reach_product(n: int, d: int)
    by (nonlinear_arith)
    requires
        0 <= n <= 0x7fff_0000,
        -0x1_0000_0000 <= d <= 0x1_0000_0000,
    ensures
        -0x7fff_0000_0000_0000 <= d * n <= 0x7fff_0000_0000_0000,
        -0x7fff_0000_0000_0000 <= n * d <= 0x7fff_0000_0000_0000,
{
}

/// The absolute value of a displacement between two vector components.
fn span_of(d: i64) -> (a: i64)
    requires
        -0x1_0000_0000 <= d <= 0x1_0000_0000,
    ensures
        a == abs_of(d as int),
{
    if d < 0 {
        -d
    } else {
        d
    }
}

/// The cursor at the origin of the ray from `p1` toward `p2`.
fn start_walk(grid: &Grid, p1: Vector2, p2: Vector2) -> (c: Cursor)
    requires
        grid.wf(),
        grid.inside(p1@),
    ensures
        follows(ray_of(p1@, p2@), 0, c),
{
    let ghost ray = ray_of(p1@, p2@);
    proof {
        lemma_reach_on_map(grid, ray, 0);
        lemma_div_bounds(p1.x as int, ONE as int);
        lemma_div_bounds(p1.y as int, ONE as int);
        lemma_signs(ray.step_x(), 0);
        lemma_signs(ray.step_y(), 0);
    }
    let col: i64 = p1.x as i64 / ONE;
    let row: i64 = p1.y as i64 / ONE;
    let reach_x: i64 = if p2.x < p1.x {
        p1.x as i64 - col * ONE
    } else {
        (col + 1) * ONE - p1.x as i64
    };
    let reach_y: i64 = if p2.y < p1.y {
        p1.y as i64 - row * ONE
    } else {
        (row + 1) * ONE - p1.y as i64
    };
    Cursor { col, row, reach_x, reach_y }
}

/// One step of the walk: the cursor after it, whether it was a column step, and the
/// reach of the line it crossed.
fn advance(grid: &Grid, p1: Vector2, p2: Vector2, c: Cursor, Ghost(k): Ghost<nat>) -> (r: (
    Cursor,
    bool,
    i64,
))
    requires
        grid.wf(),
        grid.inside(p1@),
        follows(ray_of(p1@, p2@), k, c),
        grid.in_range(c.col as int, c.row as int),
    ensures
        follows(ray_of(p1@, p2@), k + 1, r.0),
        r.1 == ray_of(p1@, p2@).along_x(k + 1),
        r.2 == ray_of(p1@, p2@).reach(k + 1),
        0 <= r.2 <= 0x7fff_0000,
        r.1 ==> r.0.row == c.row && r.0.col == c.col + ray_of(p1@, p2@).step_x(),
        !r.1 ==> r.0.col == c.col && r.0.row == c.row + ray_of(p1@, p2@).step_y(),
{
    let ghost ray = ray_of(p1@, p2@);
    let dx: i64 = p2.x as i64 - p1.x as i64;
    let dy: i64 = p2.y as i64 - p1.y as i64;
    let span_x: i64 = span_of(dx);
    let span_y: i64 = span_of(dy);
    proof {
        lemma_reach_on_map(grid, ray, k);
        lemma_reach_product(c.reach_x as int, span_y as int);
        lemma_reach_product(c.reach_y as int, span_x as int);
        ray.lemma_steps(k);
        let i = ray.steps(k).0;
        let j = ray.steps(k).1;
        assert(ray.steps(k + 1) == if ray.x_is_next(i, j) {
            (i + 1, j)
        } else {
            (i, j + 1)
        });
        lemma_signs(1, i);
        lemma_signs(1, j);
        lemma_signs(1, i + 1);
        lemma_signs(1, j + 1);
    }
    if c.reach_x * span_y < c.reach_y * span_x {
        let step: i64 = if dx < 0 {
            -1
        } else {
            1
        };
        (
            Cursor {
                col: c.col + step,
                row: c.row,
                reach_x: c.reach_x + ONE,
                reach_y: c.reach_y,
            },
            true,
            c.reach_x,
        )
    } else {
        let step: i64 = if dy < 0 {
            -1
        } else {
            1
        };
        (
            Cursor {
                col: c.col,
                row: c.row + step,
                reach_x: c.reach_x,
                reach_y: c.reach_y + ONE,
            },
            false,
            c.reach_y,
        )
    }
}

/// A ray that is on the map after `k` steps, and has not left it before, leaves it at
/// some later step, within as many steps as there are cells ahead of it.
proof fn lemma_leaves_after(grid: &Grid, ray: Ray, k: nat) -> (e: nat)
    requires
        grid.wf(),
        ray.directed(),
        grid.in_range(ray.cell(k).0, ray.cell(k).1),
        forall|m: nat| 1 <= m <= k ==> !leaves(grid, ray, m),
    ensures
        first_exit(grid, ray, e),
        k < e <= k + cells_ahead(grid, ray, ray.cell(k).0, ray.cell(k).1),
    decreases cells_ahead(grid, ray, ray.cell(k).0, ray.cell(k).1),
{
    lemma_crossing_on_map(grid, ray, k + 1);
    ray.lemma_crossing(k + 1);
    if leaves(grid, ray, k + 1) {
        k + 1
    } else {
        lemma_leaves_after(grid, ray, k + 1)
    }
}

/// Where step `e` stops and no step before step `m` does, some step from `m` to `e` is
/// the first to stop.
proof fn lemma_stops_from(grid: &Grid, ray: Ray, m: nat, e: nat) -> (s: nat)
    requires
        1 <= m <= e,
        stops(grid, ray, e),
        forall|j: nat| 1 <= j < m ==> !stops(grid, ray, j),
    ensures
        first_stop(grid, ray, s),
        m <= s <= e,
    decreases e - m,
{
    if stops(grid, ray, m) {
        m
    } else {
        lemma_stops_from(grid, ray, m + 1, e)
    }
}

/// Every cast ends. A ray that has a direction and starts on the map leaves the map
/// after no more steps than the map has rows and columns together, and enters a wall or
/// leaves the map no later than that.
pub proof fn lemma_cast_ends(grid: &Grid, ray: Ray)
    requires
        grid.wf(),
        grid.inside((ray.ox, ray.oy)),
        ray.directed(),
    ensures
        first_stop(grid, ray, stop_of(grid, ray)),
        first_exit(grid, ray, exit_of(grid, ray)),
        stop_of(grid, ray) <= exit_of(grid, ray) <= grid.row_count() + grid.col_count(),
{
    let e = lemma_leaves_after(grid, ray, 0);
    let s = lemma_stops_from(grid, ray, 1, e);
    lemma_first_exit_unique(grid, ray, e, exit_of(grid, ray));
    lemma_first_stop_unique(grid, ray, s, stop_of(grid, ray));
}

/// A cast ends on a crossing of the trace of the same ray: the step that stops the cast
/// is a step of the trace, with the same point, and with the same distance where the
/// cast struck a wall.
pub proof fn lemma_cast_on_trace(
    grid: &Grid,
    ray: Ray,
    cast: (bool, Vector2, u64),
    trace: Seq<(Vector2, u64)>,
)
    requires
        is_cast(grid, ray, cast),
        is_trace(grid, ray, trace),
    ensures
        1 <= stop_of(grid, ray) <= trace.len(),
        trace[stop_of(grid, ray) - 1].0@ == cast.1@,
        cast.0 ==> trace[stop_of(grid, ray) - 1].1 == cast.2,
{
    let e = exit_of(grid, ray);
    let s = stop_of(grid, ray);
    assert(stops(grid, ray, e));
    if e < s {
        assert(!stops(grid, ray, e));
    }
    assert(trace[s - 1].0@ == crossing_pixel(grid, ray, ((s - 1) + 1) as nat));
}

/// A point on the map in grid space, scaled to pixel space, is a point on the map.
proof fn lemma_pixel_on_map(c: int, count: int, size: int)
    by (nonlinear_arith)
    requires
        0 <= c <= count * ONE,
        size >= 0,
    ensures
        0 <= c * size <= count * size * ONE,
        c == 0 ==> c * size == 0,
        c == count * ONE ==> c * size == count * size * ONE,
{
}

/// The crossing of a step that leaves a cell of the map lies on the map, and on its
/// outline if the step leaves the map.
proof fn lemma_crossing_on_map(grid: &Grid, ray: Ray, k: nat)
    requires
        grid.wf(),
        ray.directed(),
        k >= 1,
        grid.in_range(ray.cell((k - 1) as nat).0, ray.cell((k - 1) as nat).1),
    ensures
        0 <= ray.crossing(k).0 <= grid.col_count() * ONE,
        0 <= ray.crossing(k).1 <= grid.row_count() * ONE,
        grid.covers(crossing_pixel(grid, ray, k)),
        leaves(grid, ray, k) ==> grid.on_boundary(crossing_pixel(grid, ray, k)),
        !leaves(grid, ray, k) ==> grid.in_range(ray.cell(k).0, ray.cell(k).1),
{
    ray.lemma_crossing(k);
    grid.lemma_bounds();
    let p = ray.crossing(k);
    lemma_pixel_on_map(p.0, grid.col_count(), grid.cell_size().width as int);
    lemma_pixel_on_map(p.1, grid.row_count(), grid.cell_size().height as int);
}

/// The pixel-space point where step `k` crosses its line.
fn crossing_point(
    grid: &Grid,
    p1: Vector2,
    p2: Vector2,
    along_x: bool,
    reach: i64,
    Ghost(k): Ghost<nat>,
) -> (r: Vector2)
    requires
        grid.wf(),
        p1@ != p2@,
        k >= 1,
        grid.in_range(
            ray_of(p1@, p2@).cell((k - 1) as nat).0,
            ray_of(p1@, p2@).cell((k - 1) as nat).1,
        ),
        along_x == ray_of(p1@, p2@).along_x(k),
        reach == ray_of(p1@, p2@).reach(k),
        0 <= reach <= 0x7fff_0000,
    ensures
        r@ == crossing_pixel(grid, ray_of(p1@, p2@), k),
{
    let ghost ray = ray_of(p1@, p2@);
    let dx: i64 = p2.x as i64 - p1.x as i64;
    let dy: i64 = p2.y as i64 - p1.y as i64;
    let span: i64 = if along_x {
        span_of(dx)
    } else {
        span_of(dy)
    };
    proof {
        ray.lemma_span(k);
        lemma_crossing_on_map(grid, ray, k);
        lemma_reach_product(reach as int, dx as int);
        lemma_reach_product(reach as int, dy as int);
        grid.lemma_bounds();
    }
    let x: i128 = p1.x as i128 + div_floor((dx * reach) as i128, span as i128);
    let y: i128 = p1.y as i128 + div_floor((dy * reach) as i128, span as i128);
    let cell = grid.cell();
    Vector2 { x: (x * cell.width as i128) as i32, y: (y * cell.height as i128) as i32 }
}

/// The share `reach / span` of the length of `(dx, dy)`, rounded down.
fn crossing_distance(dx: i64, dy: i64, span: i64, reach: i64) -> (r: u64)
    requires
        -0x1_0000_0000 <= dx <= 0x1_0000_0000,
        -0x1_0000_0000 <= dy <= 0x1_0000_0000,
        0 < span <= 0x1_0000_0000,
        0 <= reach <= 0x7fff_0000,
    ensures
        r == sqrt_floor((reach * reach * (dx * dx + dy * dy)) / (span * span)),
{
    let ax: u128 = span_of(dx) as u128;
    let ay: u128 = span_of(dy) as u128;
    let n: u128 = reach as u128;
    let a: u128 = span as u128;
    proof {
        lemma_squares(ax as int, ay as int, n as int, a as int);
        assert(ax * ax == dx * dx && ay * ay == dy * dy) by (nonlinear_arith)
            requires
                ax == dx || ax == -dx,
                ay == dy || ay == -dy,
        ;
    }
    let nn: u128 = n * n;
    let dd: u128 = ax * ax + ay * ay;
    isqrt((nn * dd) / (a * a))
}

/// The squares that the distance of a crossing is made of fit 128 bits.
proof fn lemma_squares(ax: int, ay: int, n: int, a: int)
    by (nonlinear_arith)
    requires
        0 <= ax <= 0x1_0000_0000,
        0 <= ay <= 0x1_0000_0000,
        0 <= n <= 0x7fff_0000,
        0 < a <= 0x1_0000_0000,
    ensures
        0 <= ax * ax <= 0x1_0000_0000_0000_0000,
        0 <= ay * ay <= 0x1_0000_0000_0000_0000,
        0 <= n * n <= 0x4000_0000_0000_0000,
        0 < a * a <= 0x1_0000_0000_0000_0000,
        0 <= (n * n) * (ax * ax + ay * ay) <= 0x8000_0000_0000_0000_0000_0000_0000_0000,
{
}

/// Casts a ray from `p1` toward `p2`, both in grid space, and follows it from cell to
/// cell until it enters an occupied cell or leaves the map.
///
/// The result is whether a wall was struck, the pixel-space point where the last step
/// crossed into the wall or off the map, and the distance from `p1` to that point in
/// grid space, or 0 where no wall was struck.
pub fn dda(grid: &Grid, p1: Vector2, p2: Vector2) -> (r: (bool, Vector2, u64))
    requires
        grid.wf(),
        grid.inside(p1@),
        p1@ != p2@,
    ensures
        is_cast(grid, ray_of(p1@, p2@), r),
        r.0 ==> grid.covers(r.1@),
        !r.0 ==> grid.on_boundary(r.1@),
{
    let ghost ray = ray_of(p1@, p2@);
    let dx: i64 = p2.x as i64 - p1.x as i64;
    let dy: i64 = p2.y as i64 - p1.y as i64;
    let mut cursor = start_walk(grid, p1, p2);
    let ghost mut k: nat = 0;
    proof {
        grid.lemma_bounds();
    }
    loop
        invariant
            grid.wf(),
            grid.inside(p1@),
            p1@ != p2@,
            ray == ray_of(p1@, p2@),
            dx == ray.dx,
            dy == ray.dy,
            follows(ray, k, cursor),
            grid.in_range(cursor.col as int, cursor.row as int),
            forall|m: nat| 1 <= m <= k ==> !stops(grid, ray, m),
        decreases cells_ahead(grid, ray, cursor.col as int, cursor.row as int),
    {
        let (next, along_x, reach) = advance(grid, p1, p2, cursor, Ghost(k));
        proof {
            k = k + 1;
            lemma_crossing_on_map(grid, ray, k);
            ray.lemma_span(k);
            grid.lemma_bounds();
        }
        cursor = next;
        let hit = grid.is_occupied(cursor.col, cursor.row);
        let out = cursor.col == -1 || cursor.col == grid.cols() as i64 || cursor.row == -1
            || cursor.row == grid.rows() as i64;
        if hit || out {
            let point = crossing_point(grid, p1, p2, along_x, reach, Ghost(k));
            let distance: u64 = if hit {
                let span: i64 = if along_x {
                    span_of(dx)
                } else {
                    span_of(dy)
                };
                crossing_distance(dx, dy, span, reach)
            } else {
                0
            };
            proof {
                assert(first_stop(grid, ray, k));
                lemma_first_stop_unique(grid, ray, k, stop_of(grid, ray));
            }
            return (hit, point, distance);
        }
    }
}

/// Casts a ray from `p1` toward `p2`, both in grid space, and follows it across the
/// whole map, whatever the cells hold.
///
/// The result has one entry for each step up to the one that leaves the map: the
/// pixel-space point where the step crossed its line, and the distance from `p1` to that
/// point in grid space.
pub fn dda_grid(grid: &Grid, p1: Vector2, p2: Vector2) -> (r: Vec<(Vector2, u64)>)
    requires
        grid.wf(),
        grid.inside(p1@),
        p1@ != p2@,
    ensures
        is_trace(grid, ray_of(p1@, p2@), r@),
        forall|m: int| 0 <= m < r@.len() ==> grid.covers((#[trigger] r@[m]).0@),
        1 <= r@.len() <= grid.row_count() + grid.col_count(),
        grid.on_boundary(r@[r@.len() - 1].0@),
{
    let ghost ray = ray_of(p1@, p2@);
    let dx: i64 = p2.x as i64 - p1.x as i64;
    let dy: i64 = p2.y as i64 - p1.y as i64;
    let mut cursor = start_walk(grid, p1, p2);
    let mut crossings: Vec<(Vector2, u64)> = Vec::new();
    let ghost mut k: nat = 0;
    proof {
        grid.lemma_bounds();
    }
    loop
        invariant
            grid.wf(),
            grid.inside(p1@),
            p1@ != p2@,
            ray == ray_of(p1@, p2@),
            dx == ray.dx,
            dy == ray.dy,
            follows(ray, k, cursor),
            grid.in_range(cursor.col as int, cursor.row as int),
            forall|m: nat| 1 <= m <= k ==> !leaves(grid, ray, m),
            crossings@.len() == k,
            forall|m: int|
                0 <= m < crossings@.len() ==> {
                    &&& (#[trigger] crossings@[m]).0@ == crossing_pixel(grid, ray, (m + 1) as nat)
                    &&& crossings@[m].1 == ray.distance((m + 1) as nat)
                    &&& grid.covers(crossings@[m].0@)
                },
        decreases cells_ahead(grid, ray, cursor.col as int, cursor.row as int),
    {
        let (next, along_x, reach) = advance(grid, p1, p2, cursor, Ghost(k));
        proof {
            k = k + 1;
            lemma_crossing_on_map(grid, ray, k);
            ray.lemma_span(k);
            grid.lemma_bounds();
        }
        cursor = next;
        let span: i64 = if along_x {
            span_of(dx)
        } else {
            span_of(dy)
        };
        let point = crossing_point(grid, p1, p2, along_x, reach, Ghost(k));
        let distance: u64 = crossing_distance(dx, dy, span, reach);
        crossings.push((point, distance));
        if cursor.col == -1 || cursor.col == grid.cols() as i64 || cursor.row == -1
            || cursor.row == grid.rows() as i64 {
            proof {
                assert(first_exit(grid, ray, k));
                lemma_first_exit_unique(grid, ray, k, exit_of(grid, ray));
                lemma_cast_ends(grid, ray);
            }
            return crossings;
        }
    }
}

/// The number of rays in a fan that spreads `range` units to either side of the look
/// point, with `fraction` rays to the unit.
pub open spec fn fan_size(range: u16, fraction: u16) -> int {
    2 * range * fraction
}

/// How far to the side of the look point ray `index` of a fan aims: the rays start
/// `range` units to one side and lie `1 / fraction` apart.
pub open spec fn fan_offset(range: u16, fraction: u16, index: int) -> int {
    (index * ONE) / (fraction as int) - range * ONE
}

/// The pixel-space point that ray `index` of a fan aims at: the look point `p2` moved
/// sideways, square to the line from the eye `p1`.
pub open spec fn fan_target(p1: (int, int), p2: (int, int), range: u16, fraction: u16, index: int)
    -> (int, int) {
    point_perpendicular_of(p1, p2, fan_offset(range, fraction, index))
}

/// Ray `index` of a fan, in grid space.
pub open spec fn fan_ray(
    grid: &Grid,
    p1: (int, int),
    p2: (int, int),
    range: u16,
    fraction: u16,
    index: int,
) -> Ray {
    ray_of(
        grid_of(p1, grid.cell_size()),
        grid_of(fan_target(p1, p2, range, fraction, index), grid.cell_size()),
    )
}

/// Ray `index` of a fan can be cast: its target fits a vector, the eye is on the map,
/// and in grid space the target is not the eye itself.
pub open spec fn ray_ready(
    grid: &Grid,
    p1: (int, int),
    p2: (int, int),
    range: u16,
    fraction: u16,
    index: int,
) -> bool {
    &&& representable(fan_target(p1, p2, range, fraction, index))
    &&& grid.inside(grid_of(p1, grid.cell_size()))
    &&& fan_ray(grid, p1, p2, range, fraction, index).directed()
}

/// Every ray of a fan can be cast.
pub open spec fn fan_ready(grid: &Grid, p1: (int, int), p2: (int, int), range: u16, fraction: u16)
    -> bool {
    forall|i: int|
        0 <= i < fan_size(range, fraction) ==> ray_ready(grid, p1, p2, range, fraction, i)
}

/// The rays of a fan are in order from one side to the other: the first aims `range`
/// units to one side of the look point, each later one no less far toward the other
/// side, and none as far as `range` units to the other side.
pub proof fn lemma_fan_is_ordered(range: u16, fraction: u16, i: int, j: int)
    requires
        0 <= i <= j < fan_size(range, fraction),
    ensures
        fan_offset(range, fraction, 0) == -range * ONE,
        -range * ONE <= fan_offset(range, fraction, i) <= fan_offset(range, fraction, j) < range
            * ONE,
{
    let k = ONE as int;
    let r = range as int;
    lemma_fan_size(range, fraction);
    assert(0 <= i * k <= j * k && j * k < (2 * r * k) * fraction) by (nonlinear_arith)
        requires
            0 <= i <= j < 2 * r * fraction,
            k > 0,
    ;
    lemma_div_lower(i * k, fraction as int, 0);
    lemma_div_strict_upper(j * k, fraction as int, 2 * r * k);
    vstd::arithmetic::div_mod::lemma_div_is_ordered(i * k, j * k, fraction as int);
    lemma_div_upper(0, fraction as int, 0);
    lemma_div_lower(0, fraction as int, 0);
}

/// A fan has room: the eye `p1` is on the map, the look point `p2` lies `range` units
/// or more inside of what a vector can hold, and along x or along y the two are apart by
/// twice the larger dimension of a cell and `range + 2` more, in raw units.
pub open spec fn fan_room(grid: &Grid, p1: (int, int), p2: (int, int), range: u16) -> bool {
    let cell = grid.cell_size();
    let larger = if cell.width > cell.height {
        cell.width as int
    } else {
        cell.height as int
    };
    let apart = 2 * larger + range + 2;
    &&& grid.inside(grid_of(p1, cell))
    &&& fits(p2.0 - range * ONE) && fits(p2.0 + range * ONE)
    &&& fits(p2.1 - range * ONE) && fits(p2.1 + range * ONE)
    &&& (abs_of(p2.0 - p1.0) >= apart || abs_of(p2.1 - p1.1) >= apart)
}

/// A step sideways is nearly square to the direction: where `(ex, ey)` is `off` times
/// the quarter turn of the unit vector `(ux, uy)` along `(a, b)`, rounded down, its dot
/// product with `(a, b)` stays above `-(r + 2) * m`, for an `off` of at most `r` units
/// and components of `(a, b)` of at most `m`.
proof fn lemma_sideways(a: int, b: int, ux: int, uy: int, off: int, r: int, m: int)
    requires
        m > 0,
        r >= 0,
        -m <= a <= m,
        -m <= b <= m,
        -m <= ux * b - uy * a <= m,
        -r * ONE <= off <= r * ONE,
    ensures
        ((-uy * off) / (ONE as int)) * a + ((ux * off) / (ONE as int)) * b > -(r + 2) * m,
{
    let k = ONE as int;
    let nx = -uy * off;
    let ny = ux * off;
    let ex = nx / k;
    let ey = ny / k;
    lemma_div_bounds(nx, k);
    lemma_div_bounds(ny, k);
    let rx = nx - ex * k;
    let ry = ny - ey * k;
    let cross = ux * b - uy * a;
    assert(nx * a + ny * b == off * cross) by (nonlinear_arith)
        requires
            nx == -uy * off,
            ny == ux * off,
            cross == ux * b - uy * a,
    ;
    assert(off * cross >= -(r * k * m)) by (nonlinear_arith)
        requires
            -r * k <= off <= r * k,
            -m <= cross <= m,
            m > 0,
            r >= 0,
            k > 0,
    ;
    assert(rx * a <= (k - 1) * m && ry * b <= (k - 1) * m) by (nonlinear_arith)
        requires
            0 <= rx <= k - 1,
            0 <= ry <= k - 1,
            -m <= a <= m,
            -m <= b <= m,
            m > 0,
    ;
    let dot = ex * a + ey * b;
    assert(k * dot == nx * a + ny * b - rx * a - ry * b) by (nonlinear_arith)
        requires
            dot == ex * a + ey * b,
            rx == nx - ex * k,
            ry == ny - ey * k,
    ;
    assert(dot > -(r + 2) * m) by (nonlinear_arith)
        requires
            k * dot >= -(r * k * m) - 2 * ((k - 1) * m),
            k > 0,
            m > 0,
            r >= 0,
    ;
}

/// A target that lies nearly square to the side of a far look point is not near the
/// eye: along x or along y it is `c` or more away.
proof fn lemma_not_near(a: int, b: int, ex: int, ey: int, r: int, m: int, c: int)
    by (nonlinear_arith)
    requires
        c >= 1,
        r >= 0,
        m >= 2 * c + r + 2,
        -m <= a <= m,
        -m <= b <= m,
        a == m || a == -m || b == m || b == -m,
        ex * a + ey * b > -(r + 2) * m,
    ensures
        a + ex >= c || a + ex <= -c || b + ey >= c || b + ey <= -c,
{
}

/// Two coordinates that lie `c` or more apart lie in different cells of size `c`.
proof fn lemma_other_cell(x: int, y: int, c: int)
    requires
        c >= 1,
        x - y >= c || y - x >= c,
    ensures
        x / c != y / c,
{
    lemma_div_bounds(x, c);
    lemma_div_bounds(y, c);
}

/// What is at most `r` units times a factor of at most 1.0 is at most `r` units.
proof fn lemma_sideways_reach(u: int, off: int, r: int)
    requires
        r >= 0,
        -ONE <= u <= ONE,
        -r * ONE <= off <= r * ONE,
    ensures
        -r * ONE <= (u * off) / (ONE as int) <= r * ONE,
{
    let k = ONE as int;
    assert(-(r * k) * k <= u * off <= (r * k) * k) by (nonlinear_arith)
        requires
            -k <= u <= k,
            -r * k <= off <= r * k,
            r >= 0,
            k > 0,
    ;
    lemma_div_upper(u * off, k, r * k);
    lemma_div_lower(u * off, k, -(r * k));
}

/// A fan that has room can be cast: `intersections` and `grid_intersections` then
/// return `Some`.
pub proof fn lemma_fan_is_ready(
    grid: &Grid,
    p1: (int, int),
    p2: (int, int),
    range: u16,
    fraction: u16,
)
    requires
        grid.wf(),
        fan_room(grid, p1, p2, range),
    ensures
        fan_ready(grid, p1, p2, range, fraction),
{
    assert forall|i: int| 0 <= i < fan_size(range, fraction) implies ray_ready(
        grid,
        p1,
        p2,
        range,
        fraction,
        i,
    ) by {
        let k = ONE as int;
        let r = range as int;
        let cell = grid.cell_size();
        lemma_fan_size(range, fraction);
        assert(0 <= i * k < (2 * r * k) * fraction) by (nonlinear_arith)
            requires
                0 <= i < 2 * r * fraction,
                k > 0,
        ;
        lemma_div_lower(i * k, fraction as int, 0);
        lemma_div_strict_upper(i * k, fraction as int, 2 * r * k);
        let off = fan_offset(range, fraction, i);
        let d = difference_of(p2, p1);
        let u = unit_of(d);
        lemma_unit_is_parallel(d);
        lemma_sideways_reach(-u.1, off, r);
        lemma_sideways_reach(u.0, off, r);
        let t = fan_target(p1, p2, range, fraction, i);
        let ex = (-u.1 * off) / k;
        let ey = (u.0 * off) / k;
        assert(t == (p2.0 + ex, p2.1 + ey));
        let a = d.0;
        let b = d.1;
        let m = if abs_of(a) > abs_of(b) {
            abs_of(a)
        } else {
            abs_of(b)
        };
        let c = if cell.width > cell.height {
            cell.width as int
        } else {
            cell.height as int
        };
        lemma_sideways(a, b, u.0, u.1, off, r, m);
        lemma_not_near(a, b, ex, ey, r, m, c);
        if a + ex >= c || a + ex <= -c {
            lemma_other_cell(t.0, p1.0, cell.width as int);
        } else {
            lemma_other_cell(t.1, p1.1, cell.height as int);
        }
    }
}

/// A fan of 16-bit range and fraction has fewer than 2^33 rays.
proof fn lemma_fan_size(range: u16, fraction: u16)
    by (nonlinear_arith)
    ensures
        0 <= range * fraction <= 0xffff_0000,
        fan_size(range, fraction) == 2 * (range * fraction),
        fraction == 0 ==> fan_size(range, fraction) == 0,
{
}

/// The grid-space origin and target of ray `index` of a fan, or `None` where the ray
/// cannot be cast.
fn fan_endpoints(
    grid: &Grid,
    p1: Vector2,
    p2: Vector2,
    range: u16,
    fraction: u16,
    index: u64,
) -> (r: Option<(Vector2, Vector2)>)
    requires
        grid.wf(),
        index < fan_size(range, fraction),
    ensures
        r.is_some() == ray_ready(grid, p1@, p2@, range, fraction, index as int),
        r.is_some() ==> ray_of(r.unwrap().0@, r.unwrap().1@) == fan_ray(
            grid,
            p1@,
            p2@,
            range,
            fraction,
            index as int,
        ),
{
    proof {
        lemma_fan_size(range, fraction);
        assert(index * ONE <= (index * ONE) * fraction) by (nonlinear_arith)
            requires
                index >= 0,
                fraction >= 1,
        ;
        lemma_div_upper(index * ONE, fraction as int, index * ONE);
        lemma_div_lower(index * ONE, fraction as int, 0);
    }
    let offset: i64 = (index as i64 * ONE) / (fraction as i64) - range as i64 * ONE;
    let target = perpendicular_target(p1, p2, offset);
    if target.0 < i32::MIN as i128 || target.0 > i32::MAX as i128 || target.1 < i32::MIN as i128
        || target.1 > i32::MAX as i128 {
        return None;
    }
    let aim = Vector2 { x: target.0 as i32, y: target.1 as i32 };
    let origin = p1.to_grid_coords(grid.cell());
    let goal = aim.to_grid_coords(grid.cell());
    if !grid.contains(origin) {
        return None;
    }
    if origin.x == goal.x && origin.y == goal.y {
        return None;
    }
    Some((origin, goal))
}

/// Casts the fan of rays that a viewer sees along: from the eye `p1`, in pixel space,
/// toward points spread to both sides of the look point `p2`, `range` units either way
/// and `fraction` to the unit, in order from one side to the other.
///
/// The result holds what each ray finds, in that order; it is `None` where some ray of
/// the fan cannot be cast. A fan that has room, as `fan_room` states it, can be cast.
pub fn intersections(grid: &Grid, p1: Vector2, p2: Vector2, range: u16, fraction: u16) -> (r:
    Option<Vec<(bool, Vector2, u64)>>)
    requires
        grid.wf(),
    ensures
        r.is_some() == fan_ready(grid, p1@, p2@, range, fraction),
        r.is_some() ==> {
            &&& r.unwrap()@.len() == fan_size(range, fraction)
            &&& forall|i: int|
                0 <= i < fan_size(range, fraction) ==> is_cast(
                    grid,
                    fan_ray(grid, p1@, p2@, range, fraction, i),
                    #[trigger] r.unwrap()@[i],
                )
        },
{
    proof {
        lemma_fan_size(range, fraction);
    }
    let count: u64 = 2 * (range as u64 * fraction as u64);
    let mut found: Vec<(bool, Vector2, u64)> = Vec::new();
    let mut index: u64 = 0;
    while index < count
        invariant
            grid.wf(),
            count == fan_size(range, fraction),
            index <= count,
            found@.len() == index,
            forall|i: int| 0 <= i < index ==> ray_ready(grid, p1@, p2@, range, fraction, i),
            forall|i: int|
                0 <= i < index ==> is_cast(
                    grid,
                    fan_ray(grid, p1@, p2@, range, fraction, i),
                    #[trigger] found@[i],
                ),
        decreases count - index,
    {
        match fan_endpoints(grid, p1, p2, range, fraction, index) {
            None => {
                return None;
            },
            Some((origin, goal)) => {
                found.push(dda(grid, origin, goal));
            },
        }
        index = index + 1;
    }
    Some(found)
}

/// Traces the fan of rays that a viewer sees along, as `intersections` casts it, each
/// ray across the whole map.
///
/// The result holds the trace of each ray, in the fan's order; it is `None` where some
/// ray of the fan cannot be cast.
pub fn grid_intersections(grid: &Grid, p1: Vector2, p2: Vector2, range: u16, fraction: u16) -> (r:
    Option<Vec<Vec<(Vector2, u64)>>>)
    requires
        grid.wf(),
    ensures
        r.is_some() == fan_ready(grid, p1@, p2@, range, fraction),
        r.is_some() ==> {
            &&& r.unwrap()@.len() == fan_size(range, fraction)
            &&& forall|i: int|
                0 <= i < fan_size(range, fraction) ==> is_trace(
                    grid,
                    fan_ray(grid, p1@, p2@, range, fraction, i),
                    (#[trigger] r.unwrap()@[i])@,
                )
        },
{
    proof {
        lemma_fan_size(range, fraction);
    }
    let count: u64 = 2 * (range as u64 * fraction as u64);
    let mut found: Vec<Vec<(Vector2, u64)>> = Vec::new();
    let mut index: u64 = 0;
    while index < count
        invariant
            grid.wf(),
            count == fan_size(range, fraction),
            index <= count,
            found@.len() == index,
            forall|i: int| 0 <= i < index ==> ray_ready(grid, p1@, p2@, range, fraction, i),
            forall|i: int|
                0 <= i < index ==> is_trace(
                    grid,
                    fan_ray(grid, p1@, p2@, range, fraction, i),
                    (#[trigger] found@[i])@,
                ),
        decreases count - index,
    {
        match fan_endpoints(grid, p1, p2, range, fraction, index) {
            None => {
                return None;
            },
            Some((origin, goal)) => {
                found.push(dda_grid(grid, origin, goal));
            },
        }
        index = index + 1;
    }
    Some(found)
}

} // verus!
