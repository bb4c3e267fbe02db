//! Two-dimensional fixed-point vectors and the two coordinate spaces.
//!
//! A vector holds raw fixed-point components. Grid space counts cells, pixel
//! space counts pixels; a [`CellSize`] converts between the two.

use crate::fixed::{
    div_floor, isqrt, lemma_div_bounds, lemma_div_lower, lemma_div_upper, lemma_sqrt_floor,
    lemma_sqrt_floor_is, lemma_sqrt_floor_monotonic, sqrt_floor, ONE,
};
use vstd::prelude::*;

verus! {

/// A point or displacement with raw fixed-point components.
#[derive(Clone, Copy, Debug, PartialEq, Eq, Structural)]
pub struct Vector2 {
    pub x: i32,
    pub y: i32,
}

/// The width and height of one grid cell, in pixels.
#[derive(Clone, Copy, Debug, PartialEq, Eq, Structural)]
pub struct CellSize {
    pub width: u32,
    pub height: u32,
}

impl View for Vector2 {
    type V = (int, int);

    open spec fn view(&self) -> (int, int) {
        (self.x as int, self.y as int)
    }
}

/// `v` is the raw value of some vector component.
pub open spec fn fits(v: int) -> bool {
    i32::MIN <= v <= i32::MAX
}

/// Both components of `v` are raw values of vector components.
pub open spec fn representable(v: (int, int)) -> bool {
    fits(v.0) && fits(v.1)
}

/// The fixed-point product of two raw values, rounded down.
pub open spec fn scaled(c: int, s: int) -> int {
    (c * s) / (ONE as int)
}

/// The sum of two vectors.
pub open spec fn sum_of(a: (int, int), b: (int, int)) -> (int, int) {
    (a.0 + b.0, a.1 + b.1)
}

/// The difference of two vectors.
pub open spec fn difference_of(a: (int, int), b: (int, int)) -> (int, int) {
    (a.0 - b.0, a.1 - b.1)
}

/// A vector multiplied by a fixed-point scalar, each component rounded down.
pub open spec fn scaled_by(v: (int, int), s: int) -> (int, int) {
    (scaled(v.0, s), scaled(v.1, s))
}

/// The squared length of `v`, in squared raw units.
pub open spec fn square_of(v: (int, int)) -> int {
    v.0 * v.0 + v.1 * v.1
}

/// The length of `v`, rounded down.
pub open spec fn magnitude_of(v: (int, int)) -> int {
    sqrt_floor(square_of(v))
}

/// One component of the unit vector along a vector of squared length `s`:
/// `c * ONE / sqrt(s)`, rounded toward zero.
pub open spec fn unit_component(c: int, s: int) -> int {
    let r = sqrt_floor((c * c * ((ONE as int) * (ONE as int))) / s);
    if c < 0 {
        -r
    } else {
        r
    }
}

/// The unit vector along `v`; the zero vector stays as it is.
pub open spec fn unit_of(v: (int, int)) -> (int, int) {
    if v.0 == 0 && v.1 == 0 {
        v
    } else {
        (unit_component(v.0, square_of(v)), unit_component(v.1, square_of(v)))
    }
}

/// `v` turned by a quarter turn: `(x, y)` becomes `(-y, x)`.
pub open spec fn perpendicular_of(v: (int, int)) -> (int, int) {
    (-v.1, v.0)
}

/// The fixed-point dot product, rounded down.
pub open spec fn dot_of(a: (int, int), b: (int, int)) -> int {
    (a.0 * b.0 + a.1 * b.1) / (ONE as int)
}

/// `v` under the matrix `[[c, -s], [s, c]]` of fixed-point entries, each component rounded down.
pub open spec fn rotated_of(v: (int, int), c: int, s: int) -> (int, int) {
    ((v.0 * c - v.1 * s) / (ONE as int), (v.0 * s + v.1 * c) / (ONE as int))
}

/// A grid-space vector in pixel space.
pub open spec fn pixel_of(v: (int, int), cell: CellSize) -> (int, int) {
    (v.0 * cell.width, v.1 * cell.height)
}

/// A pixel-space vector in grid space, each component rounded down.
pub open spec fn grid_of(v: (int, int), cell: CellSize) -> (int, int) {
    (v.0 / (cell.width as int), v.1 / (cell.height as int))
}

/// The point at `distance` from `p2` along the quarter turn of the direction from `p1` to `p2`.
pub open spec fn point_perpendicular_of(p1: (int, int), p2: (int, int), distance: int) -> (
    int,
    int,
) {
    sum_of(p2, scaled_by(perpendicular_of(unit_of(difference_of(p2, p1))), distance))
}

/// The point at `distance` from `p1` along the direction from `p1` to `pos`.
pub open spec fn point_at_distance_of(p1: (int, int), pos: (int, int), distance: int) -> (
    int,
    int,
) {
    sum_of(p1, scaled_by(unit_of(difference_of(pos, p1)), distance))
}

/// `p2` moved by the unit direction from `p1` to `p2` after that direction went through
/// the matrix `[[c, -s], [s, c]]`.
pub open spec fn point_at_angle_of(p1: (int, int), p2: (int, int), c: int, s: int) -> (int, int) {
    sum_of(p2, rotated_of(unit_of(difference_of(p2, p1)), c, s))
}

/// The remainder of `a` by `b` with the sign of `a`, as the machine's `%` gives it.
pub open spec fn truncated_rem(a: int, b: int) -> int {
    let m = if b < 0 {
        -b
    } else {
        b
    };
    if a < 0 {
        -((-a) % m)
    } else {
        a % m
    }
}

/// How far `c` lies from the nearer of the two multiples of `size` around it,
/// measured as the machine's remainder measures it.
pub open spec fn edge_distance(c: int, size: int) -> int {
    let r = truncated_rem(c, size);
    if r <= size - r {
        r
    } else {
        size - r
    }
}

/// A point lies nearer to a vertical cell edge than to a horizontal one.
pub open spec fn vertical_side_of(p: (int, int), size: int) -> bool {
    size != 0 && edge_distance(p.0, size) < edge_distance(p.1, size)
}

impl CellSize {
    /// Both dimensions are positive.
    pub open spec fn wf(&self) -> bool {
        self.width >= 1 && self.height >= 1
    }
}

/// The unit vector along `(dx, dy)`.
pub fn unit_vector(dx: i64, dy: i64) -> (r: Vector2)
    requires
        -0x1_0000_0000 <= dx <= 0x1_0000_0000,
        -0x1_0000_0000 <= dy <= 0x1_0000_0000,
    ensures
        r@ == unit_of((dx as int, dy as int)),
        -ONE <= r.x <= ONE,
        -ONE <= r.y <= ONE,
{
    if dx == 0 && dy == 0 {
        return Vector2 { x: 0, y: 0 };
    }
    let ax: u128 = if dx < 0 {
        (-dx) as u128
    } else {
        dx as u128
    };
    let ay: u128 = if dy < 0 {
        (-dy) as u128
    } else {
        dy as u128
    };
    assert(ax * ax <= 0x1_0000_0000 * 0x1_0000_0000) by (nonlinear_arith)
        requires
            0 <= ax <= 0x1_0000_0000,
    ;
    assert(ay * ay <= 0x1_0000_0000 * 0x1_0000_0000) by (nonlinear_arith)
        requires
            0 <= ay <= 0x1_0000_0000,
    ;
    assert(ax * ax == dx * dx && ay * ay == dy * dy) by (nonlinear_arith)
        requires
            ax == dx || ax == -dx,
            ay == dy || ay == -dy,
    ;
    assert(ax * ax + ay * ay > 0) by (nonlinear_arith)
        requires
            ax > 0 || ay > 0,
            ax >= 0,
            ay >= 0,
    ;
    let xx: u128 = ax * ax;
    let yy: u128 = ay * ay;
    let s: u128 = xx + yy;
    let one2: u128 = 0x1_0000_0000;
    assert(ONE * ONE == 0x1_0000_0000) by (nonlinear_arith);
    assert(xx * one2 <= 0x1_0000_0000_0000_0000 * 0x1_0000_0000) by (nonlinear_arith)
        requires
            0 <= xx <= 0x1_0000_0000_0000_0000,
            one2 == 0x1_0000_0000,
    ;
    assert(yy * one2 <= 0x1_0000_0000_0000_0000 * 0x1_0000_0000) by (nonlinear_arith)
        requires
            0 <= yy <= 0x1_0000_0000_0000_0000,
            one2 == 0x1_0000_0000,
    ;
    let qx: u128 = (xx * one2) / s;
    let qy: u128 = (yy * one2) / s;
    let rx: u64 = isqrt(qx);
    let ry: u64 = isqrt(qy);
    proof {
        assert(xx * one2 <= one2 * s) by (nonlinear_arith)
            requires
                xx <= s,
                one2 >= 0,
        ;
        assert(yy * one2 <= one2 * s) by (nonlinear_arith)
            requires
                yy <= s,
                one2 >= 0,
        ;
        lemma_div_upper((xx * one2) as int, s as int, one2 as int);
        lemma_div_upper((yy * one2) as int, s as int, one2 as int);
        assert(ONE * ONE == one2);
        lemma_sqrt_floor_is(one2 as int, ONE as int);
        lemma_sqrt_floor_monotonic(qx as int, one2 as int);
        lemma_sqrt_floor_monotonic(qy as int, one2 as int);
        assert(dx * dx * (ONE * ONE) == xx * one2);
        assert(dy * dy * (ONE * ONE) == yy * one2);
    }
    let x: i32 = if dx < 0 {
        -(rx as i32)
    } else {
        rx as i32
    };
    let y: i32 = if dy < 0 {
        -(ry as i32)
    } else {
        ry as i32
    };
    Vector2 { x, y }
}

impl Vector2 {
    /// The vector with the given raw components.
    pub fn new(x: i32, y: i32) -> (r: Self)
        ensures
            r.x == x,
            r.y == y,
    {
        Vector2 { x, y }
    }

    /// The length of the vector, rounded down.
    pub fn magnitude(&self) -> (m: u64)
        ensures
            m == magnitude_of(self@),
    {
        let x: i64 = self.x as i64;
        let y: i64 = self.y as i64;
        assert(x * x <= 0x8000_0000 * 0x8000_0000 && x * x >= 0) by (nonlinear_arith)
            requires
                -0x8000_0000 <= x <= 0x8000_0000,
        ;
        assert(y * y <= 0x8000_0000 * 0x8000_0000 && y * y >= 0) by (nonlinear_arith)
            requires
                -0x8000_0000 <= y <= 0x8000_0000,
        ;
        let s: u128 = (x * x) as u128 + (y * y) as u128;
        isqrt(s)
    }

    /// The unit vector along this one; the zero vector comes back unchanged.
    pub fn norm(self) -> (r: Vector2)
        ensures
            r@ == unit_of(self@),
    {
        unit_vector(self.x as i64, self.y as i64)
    }

    /// The vector turned by a quarter turn: `(x, y)` becomes `(-y, x)`.
    pub fn perpendicular(&self) -> (r: Self)
        requires
            fits(-self.y),
        ensures
            r@ == perpendicular_of(self@),
    {
        Vector2 { x: -self.y, y: self.x }
    }

    /// The fixed-point dot product with `other`, rounded down.
    pub fn dot(&self, other: &Self) -> (d: i64)
        ensures
            d == dot_of(self@, other@),
    {
        proof {
            lemma_component_product(self.x as int, other.x as int);
            lemma_component_product(self.y as int, other.y as int);
        }
        let a: i128 = (self.x as i128) * (other.x as i128);
        let b: i128 = (self.y as i128) * (other.y as i128);
        proof {
            lemma_div_upper(a + b, ONE as int, 0x8000_0000_0000);
            lemma_div_lower(a + b, ONE as int, -0x8000_0000_0000);
        }
        let q: i128 = div_floor(a + b, ONE as i128);
        q as i64
    }

    /// The vector under the matrix `[[cos_theta, -sin_theta], [sin_theta, cos_theta]]`:
    /// a rotation, when the two entries are the cosine and sine of an angle.
    pub fn rotate(&self, cos_theta: i64, sin_theta: i64) -> (r: Self)
        requires
            representable(rotated_of(self@, cos_theta as int, sin_theta as int)),
        ensures
            r@ == rotated_of(self@, cos_theta as int, sin_theta as int),
    {
        let x: i128 = self.x as i128;
        let y: i128 = self.y as i128;
        let c: i128 = cos_theta as i128;
        let s: i128 = sin_theta as i128;
        proof {
            lemma_product_bound(x as int, c as int);
            lemma_product_bound(y as int, s as int);
            lemma_product_bound(x as int, s as int);
            lemma_product_bound(y as int, c as int);
        }
        let rx: i128 = div_floor(x * c - y * s, ONE as i128);
        let ry: i128 = div_floor(x * s + y * c, ONE as i128);
        Vector2 { x: rx as i32, y: ry as i32 }
    }

    /// The grid-space vector in pixel space.
    pub fn to_pixel_coords(&self, cell: CellSize) -> (r: Vector2)
        requires
            representable(pixel_of(self@, cell)),
        ensures
            r@ == pixel_of(self@, cell),
    {
        let x: i64 = (self.x as i64) * (cell.width as i64);
        let y: i64 = (self.y as i64) * (cell.height as i64);
        Vector2 { x: x as i32, y: y as i32 }
    }

    /// The pixel-space vector in grid space, each component rounded down.
    pub fn to_grid_coords(&self, cell: CellSize) -> (r: Vector2)
        requires
            cell.wf(),
        ensures
            r@ == grid_of(self@, cell),
    {
        let x: i128 = div_floor(self.x as i128, cell.width as i128);
        let y: i128 = div_floor(self.y as i128, cell.height as i128);
        proof {
            lemma_quotient_fits(self.x as int, cell.width as int);
            lemma_quotient_fits(self.y as int, cell.height as int);
        }
        Vector2 { x: x as i32, y: y as i32 }
    }

    /// The vector multiplied by a fixed-point scalar, each component rounded down.
    pub fn mul(self, scalar: i64) -> (r: Vector2)
        requires
            representable(scaled_by(self@, scalar as int)),
        ensures
            r@ == scaled_by(self@, scalar as int),
    {
        let x: i128 = self.x as i128;
        let y: i128 = self.y as i128;
        let s: i128 = scalar as i128;
        proof {
            lemma_product_bound(x as int, s as int);
            lemma_product_bound(y as int, s as int);
        }
        let rx: i128 = div_floor(x * s, ONE as i128);
        let ry: i128 = div_floor(y * s, ONE as i128);
        Vector2 { x: rx as i32, y: ry as i32 }
    }

    /// The sum of two vectors.
    pub fn add(self, other: Vector2) -> (r: Vector2)
        requires
            representable(sum_of(self@, other@)),
        ensures
            r@ == sum_of(self@, other@),
    {
        Vector2 { x: self.x + other.x, y: self.y + other.y }
    }

    /// The difference of two vectors.
    pub fn sub(self, other: Vector2) -> (r: Vector2)
        requires
            representable(difference_of(self@, other@)),
        ensures
            r@ == difference_of(self@, other@),
    {
        Vector2 { x: self.x - other.x, y: self.y - other.y }
    }
}

impl Default for Vector2 {
    /// The zero vector.
    fn default() -> (r: Self)
        ensures
            r@ == (0int, 0int),
    {
        Vector2 { x: 0, y: 0 }
    }
}

/// The point at `distance` from `p2` along the quarter turn of the direction from `p1` to
/// `p2`, whether or not it fits a vector.
pub(crate) fn perpendicular_target(p1: Vector2, p2: Vector2, distance: i64) -> (r: (i128, i128))
    ensures
        (r.0 as int, r.1 as int) == point_perpendicular_of(p1@, p2@, distance as int),
{
    let direction = unit_vector(p2.x as i64 - p1.x as i64, p2.y as i64 - p1.y as i64);
    let px: i128 = -(direction.y as i128);
    let py: i128 = direction.x as i128;
    let d: i128 = distance as i128;
    proof {
        lemma_product_bound(px as int, d as int);
        lemma_product_bound(py as int, d as int);
    }
    let ex: i128 = div_floor(px * d, ONE as i128);
    let ey: i128 = div_floor(py * d, ONE as i128);
    proof {
        lemma_div_upper(px * d, ONE as int, 0x4000_0000_0000_0000_0000_0000);
        lemma_div_lower(px * d, ONE as int, -0x4000_0000_0000_0000_0000_0000);
        lemma_div_upper(py * d, ONE as int, 0x4000_0000_0000_0000_0000_0000);
        lemma_div_lower(py * d, ONE as int, -0x4000_0000_0000_0000_0000_0000);
    }
    (p2.x as i128 + ex, p2.y as i128 + ey)
}

/// The point at `distance` from `p2` along the quarter turn of the direction from `p1` to `p2`.
pub fn point_perpendicular(p1: Vector2, p2: Vector2, distance: i64) -> (r: Vector2)
    requires
        representable(point_perpendicular_of(p1@, p2@, distance as int)),
    ensures
        r@ == point_perpendicular_of(p1@, p2@, distance as int),
{
    let target = perpendicular_target(p1, p2, distance);
    Vector2 { x: target.0 as i32, y: target.1 as i32 }
}

/// `p2` moved by the unit direction from `p1` to `p2` after that direction went through
/// the matrix `[[cos_theta, -sin_theta], [sin_theta, cos_theta]]`.
pub fn point_at_angle(p1: Vector2, p2: Vector2, cos_theta: i64, sin_theta: i64) -> (r: Vector2)
    requires
        representable(point_at_angle_of(p1@, p2@, cos_theta as int, sin_theta as int)),
    ensures
        r@ == point_at_angle_of(p1@, p2@, cos_theta as int, sin_theta as int),
{
    let direction = unit_vector(p2.x as i64 - p1.x as i64, p2.y as i64 - p1.y as i64);
    let x: i128 = direction.x as i128;
    let y: i128 = direction.y as i128;
    let c: i128 = cos_theta as i128;
    let s: i128 = sin_theta as i128;
    proof {
        lemma_product_bound(x as int, c as int);
        lemma_product_bound(y as int, s as int);
        lemma_product_bound(x as int, s as int);
        lemma_product_bound(y as int, c as int);
    }
    let ex: i128 = div_floor(x * c - y * s, ONE as i128);
    let ey: i128 = div_floor(x * s + y * c, ONE as i128);
    proof {
        lemma_div_upper(x * c - y * s, ONE as int, 0x8000_0000_0000_0000_0000_0000);
        lemma_div_lower(x * c - y * s, ONE as int, -0x8000_0000_0000_0000_0000_0000);
        lemma_div_upper(x * s + y * c, ONE as int, 0x8000_0000_0000_0000_0000_0000);
        lemma_div_lower(x * s + y * c, ONE as int, -0x8000_0000_0000_0000_0000_0000);
    }
    Vector2 { x: (p2.x as i128 + ex) as i32, y: (p2.y as i128 + ey) as i32 }
}

/// The point at `distance` from `p1` along the direction from `p1` to `pos`.
pub fn point_at_distance(p1: &Vector2, pos: Vector2, distance: i64) -> (r: Vector2)
    requires
        representable(point_at_distance_of(p1@, pos@, distance as int)),
    ensures
        r@ == point_at_distance_of(p1@, pos@, distance as int),
{
    let direction = unit_vector(pos.x as i64 - p1.x as i64, pos.y as i64 - p1.y as i64);
    let x: i128 = direction.x as i128;
    let y: i128 = direction.y as i128;
    let d: i128 = distance as i128;
    proof {
        lemma_product_bound(x as int, d as int);
        lemma_product_bound(y as int, d as int);
    }
    let ex: i128 = div_floor(x * d, ONE as i128);
    let ey: i128 = div_floor(y * d, ONE as i128);
    proof {
        lemma_div_upper(x * d, ONE as int, 0x4000_0000_0000_0000_0000_0000);
        lemma_div_lower(x * d, ONE as int, -0x4000_0000_0000_0000_0000_0000);
        lemma_div_upper(y * d, ONE as int, 0x4000_0000_0000_0000_0000_0000);
        lemma_div_lower(y * d, ONE as int, -0x4000_0000_0000_0000_0000_0000);
    }
    Vector2 { x: (p1.x as i128 + ex) as i32, y: (p1.y as i128 + ey) as i32 }
}

/// The distance between two points, rounded down.
pub fn distance_between(a: Vector2, b: Vector2) -> (d: u64)
    ensures
        d == magnitude_of(difference_of(a@, b@)),
{
    let dx: i64 = a.x as i64 - b.x as i64;
    let dy: i64 = a.y as i64 - b.y as i64;
    assert(0 <= dx * dx <= 0x1_0000_0000 * 0x1_0000_0000) by (nonlinear_arith)
        requires
            -0x1_0000_0000 <= dx <= 0x1_0000_0000,
    ;
    assert(0 <= dy * dy <= 0x1_0000_0000 * 0x1_0000_0000) by (nonlinear_arith)
        requires
            -0x1_0000_0000 <= dy <= 0x1_0000_0000,
    ;
    let xx: u128 = (dx as i128 * dx as i128) as u128;
    let yy: u128 = (dy as i128 * dy as i128) as u128;
    isqrt(xx + yy)
}

/// The distance of `c` from the nearer multiple of `size`, as `edge_distance` states it.
fn distance_to_edge(c: i32, size: i64) -> (r: i128)
    requires
        size != 0,
    ensures
        r == edge_distance(c as int, size as int),
{
    proof {
        let m: int = if size < 0 {
            -size
        } else {
            size as int
        };
        let a: int = if c < 0 {
            -c
        } else {
            c as int
        };
        vstd::arithmetic::div_mod::lemma_mod_bound(a, m);
        vstd::arithmetic::div_mod::lemma_small_mod(0, m as nat);
    }
    let rem: i64 = match (c as i64).checked_rem(size) {
        Some(v) => v,
        None => 0,
    };
    assert(rem == truncated_rem(c as int, size as int));
    let other: i128 = size as i128 - rem as i128;
    if rem as i128 <= other {
        rem as i128
    } else {
        other
    }
}

/// Whether a wall was struck on a vertical cell edge: the point lies nearer to a multiple of
/// `grid_size` along x than along y. A `grid_size` of zero gives `false`.
pub fn is_vertical_side(intersection: Vector2, grid_size: i64) -> (r: bool)
    ensures
        r == vertical_side_of(intersection@, grid_size as int),
{
    if grid_size == 0 {
        return false;
    }
    let x_dist: i128 = distance_to_edge(intersection.x, grid_size);
    let y_dist: i128 = distance_to_edge(intersection.y, grid_size);
    x_dist < y_dist
}

/// A quarter turn applied four times gives the vector back.
pub proof fn lemma_perpendicular_four_times(v: Vector2)
    ensures
        perpendicular_of(perpendicular_of(perpendicular_of(perpendicular_of(v@)))) == v@,
{
}

/// From pixel space to grid space and back, a vector loses less than one cell dimension of
/// raw units on each axis, and never gains.
pub proof fn lemma_pixel_grid_round_trip(v: Vector2, cell: CellSize)
    requires
        cell.wf(),
    ensures
        v@.0 - cell.width < pixel_of(grid_of(v@, cell), cell).0 <= v@.0,
        v@.1 - cell.height < pixel_of(grid_of(v@, cell), cell).1 <= v@.1,
{
    lemma_div_bounds(v@.0, cell.width as int);
    lemma_div_bounds(v@.1, cell.height as int);
}

/// What rounding leaves of one component of a unit vector: its square, times the squared
/// length `s`, is at most `c * c * ONE * ONE`, and one raw unit more would exceed it.
proof fn lemma_unit_component(c: int, s: int)
    requires
        s > 0,
        c * c <= s,
    ensures
        ({
            let u = unit_component(c, s);
            let a = if u < 0 {
                -u
            } else {
                u
            };
            &&& u * u == a * a
            &&& (c >= 0 ==> u >= 0)
            &&& (c < 0 ==> u <= 0)
            &&& 0 <= a <= ONE
            &&& a * a * s <= c * c * (ONE * ONE)
            &&& c * c * (ONE * ONE) < (a + 1) * (a + 1) * s
        }),
{
    let k = (ONE as int) * (ONE as int);
    let n = c * c * k;
    assert(0 <= n <= k * s) by (nonlinear_arith)
        requires
            n == c * c * k,
            c * c <= s,
            k >= 0,
    ;
    let q = n / s;
    lemma_div_bounds(n, s);
    lemma_div_lower(n, s, 0);
    lemma_div_upper(n, s, k);
    lemma_sqrt_floor(q);
    let a = sqrt_floor(q);
    lemma_sqrt_floor_is(k, ONE as int);
    lemma_sqrt_floor_monotonic(q, k);
    let u = unit_component(c, s);
    assert(u == a || u == -a);
    assert(u * u == a * a) by (nonlinear_arith)
        requires
            u == a || u == -a,
    ;
    assert(a * a * s <= n) by (nonlinear_arith)
        requires
            a * a <= q,
            q * s <= n,
            s > 0,
    ;
    assert(n < (a + 1) * (a + 1) * s) by (nonlinear_arith)
        requires
            q < (a + 1) * (a + 1),
            n < q * s + s,
            s > 0,
    ;
}

/// Of two non-negative integers, the one with the smaller square is the smaller.
proof fn lemma_square_order(p: int, q: int)
    by (nonlinear_arith)
    requires
        0 <= p,
        0 <= q,
        p * p < q * q,
    ensures
        p < q,
{
}

/// One half of the parallel law: where `big` is the rounded unit component along `a` and
/// `small` the one along `b`, `big * |b|` stays below `(small + 1) * |a|`.
proof fn lemma_cross_half(a: int, b: int, s: int, k2: int, big: int, small: int)
    requires
        a > 0,
        b >= 0,
        s > 0,
        k2 >= 0,
        big >= 0,
        small >= 0,
        big * big * s <= a * a * k2,
        b * b * k2 < (small + 1) * (small + 1) * s,
    ensures
        big * b < (small + 1) * a,
{
    let p = big * b;
    let q = (small + 1) * a;
    assert(p >= 0 && q >= 0) by (nonlinear_arith)
        requires
            p == big * b,
            q == (small + 1) * a,
            big >= 0,
            b >= 0,
            small >= 0,
            a > 0,
    ;
    let left = big * big * s;
    let mid = a * a * k2;
    assert(left * (b * b) <= mid * (b * b)) by (nonlinear_arith)
        requires
            left <= mid,
    ;
    let low = b * b * k2;
    let high = (small + 1) * (small + 1) * s;
    assert(low * (a * a) < high * (a * a)) by (nonlinear_arith)
        requires
            low < high,
            a > 0,
    ;
    assert(left * (b * b) == (p * p) * s) by (nonlinear_arith)
        requires
            left == big * big * s,
            p == big * b,
    ;
    assert(mid * (b * b) == low * (a * a)) by (nonlinear_arith)
        requires
            mid == a * a * k2,
            low == b * b * k2,
    ;
    assert(high * (a * a) == (q * q) * s) by (nonlinear_arith)
        requires
            high == (small + 1) * (small + 1) * s,
            q == (small + 1) * a,
    ;
    assert(p * p < q * q) by (nonlinear_arith)
        requires
            (p * p) * s < (q * q) * s,
            s > 0,
    ;
    lemma_square_order(p, q);
}

/// A rounded unit component of nothing is nothing.
proof fn lemma_unit_of_none(s: int, big: int)
    by (nonlinear_arith)
    requires
        s > 0,
        big >= 0,
        big * big * s <= 0,
    ensures
        big == 0,
{
}

/// The unit vector along a vector is parallel to it, as far as rounding allows: the cross
/// product of the two is no larger than the vector's larger component, and no component
/// of the unit vector exceeds 1.0.
pub proof fn lemma_unit_is_parallel(v: (int, int))
    requires
        v.0 != 0 || v.1 != 0,
    ensures
        -ONE <= unit_of(v).0 <= ONE,
        -ONE <= unit_of(v).1 <= ONE,
        ({
            let cross = unit_of(v).0 * v.1 - unit_of(v).1 * v.0;
            let a = if v.0 < 0 {
                -v.0
            } else {
                v.0
            };
            let b = if v.1 < 0 {
                -v.1
            } else {
                v.1
            };
            -a <= cross <= a || -b <= cross <= b
        }),
{
    let x = v.0;
    let y = v.1;
    let s = square_of(v);
    assert(x * x >= 0 && y * y >= 0 && x * x + y * y > 0) by (nonlinear_arith)
        requires
            x != 0 || y != 0,
    ;
    lemma_unit_component(x, s);
    lemma_unit_component(y, s);
    let ux = unit_component(x, s);
    let uy = unit_component(y, s);
    let big = if ux < 0 {
        -ux
    } else {
        ux
    };
    let small = if uy < 0 {
        -uy
    } else {
        uy
    };
    let a = if x < 0 {
        -x
    } else {
        x
    };
    let b = if y < 0 {
        -y
    } else {
        y
    };
    let k2 = (ONE as int) * (ONE as int);
    assert(a * a == x * x && b * b == y * y) by (nonlinear_arith)
        requires
            a == x || a == -x,
            b == y || b == -y,
    ;
    assert(big * big * s <= a * a * k2 && a * a * k2 < (big + 1) * (big + 1) * s);
    assert(small * small * s <= b * b * k2 && b * b * k2 < (small + 1) * (small + 1) * s);
    if a == 0 {
        assert(a * a * k2 == 0) by (nonlinear_arith)
            requires
                a == 0,
        ;
        lemma_unit_of_none(s, big);
    } else {
        lemma_cross_half(a, b, s, k2, big, small);
    }
    if b == 0 {
        assert(b * b * k2 == 0) by (nonlinear_arith)
            requires
                b == 0,
        ;
        lemma_unit_of_none(s, small);
    } else {
        lemma_cross_half(b, a, s, k2, small, big);
    }
    let spread = big * b - small * a;
    assert(-b <= spread <= a || (a == 0 && spread == 0) || (b == 0 && spread == 0)) by (nonlinear_arith)
        requires
            spread == big * b - small * a,
            a != 0 ==> big * b < (small + 1) * a,
            b != 0 ==> small * a < (big + 1) * b,
            a == 0 ==> big == 0,
            b == 0 ==> small == 0,
            a >= 0,
            b >= 0,
    ;
    let cross = ux * y - uy * x;
    assert(cross == spread || cross == -spread) by (nonlinear_arith)
        requires
            cross == ux * y - uy * x,
            spread == big * b - small * a,
            (x >= 0 && a == x && ux == big) || (x < 0 && a == -x && ux == -big),
            (y >= 0 && b == y && uy == small) || (y < 0 && b == -y && uy == -small),
    ;
}

/// Normalising a non-zero vector gives a vector whose length is 1.0 to within three raw
/// units, and never more than 1.0; the zero vector comes back unchanged.
pub proof fn lemma_norm_is_unit(v: Vector2)
    ensures
        v@ == (0int, 0int) ==> unit_of(v@) == v@,
        v@ != (0int, 0int) ==> ONE - 3 <= magnitude_of(unit_of(v@)) <= ONE,
{
    if v@ != (0int, 0int) {
        let x = v@.0;
        let y = v@.1;
        let s = square_of(v@);
        assert(x * x >= 0 && y * y >= 0 && x * x + y * y > 0) by (nonlinear_arith)
            requires
                x != 0 || y != 0,
        ;
        lemma_unit_component(x, s);
        lemma_unit_component(y, s);
        let ux = unit_component(x, s);
        let uy = unit_component(y, s);
        let a = if ux < 0 {
            -ux
        } else {
            ux
        };
        let b = if uy < 0 {
            -uy
        } else {
            uy
        };
        let k = (ONE as int) * (ONE as int);
        let m = a * a + b * b;
        assert(m <= k) by (nonlinear_arith)
            requires
                a * a * s <= x * x * k,
                b * b * s <= y * y * k,
                s == x * x + y * y,
                s > 0,
                m == a * a + b * b,
        ;
        assert((a + 1) * (a + 1) + (b + 1) * (b + 1) > k) by (nonlinear_arith)
            requires
                x * x * k < (a + 1) * (a + 1) * s,
                y * y * k < (b + 1) * (b + 1) * s,
                s == x * x + y * y,
                s > 0,
        ;
        assert((a + 1) * (a + 1) + (b + 1) * (b + 1) == m + 2 * a + 2 * b + 2) by (nonlinear_arith)
            requires
                m == a * a + b * b,
        ;
        assert(k == 0x1_0000_0000) by (nonlinear_arith)
            requires
                k == ONE * ONE,
        ;
        assert((ONE - 3) * (ONE - 3) == 0x1_0000_0000 - 6 * 65536 + 9) by (nonlinear_arith);
        assert(square_of(unit_of(v@)) == m);
        assert(m >= 0) by (nonlinear_arith)
            requires
                m == a * a + b * b,
        ;
        lemma_sqrt_floor_is(k, ONE as int);
        lemma_sqrt_floor_is((ONE - 3) * (ONE - 3), ONE - 3);
        lemma_sqrt_floor_monotonic(m, k);
        lemma_sqrt_floor_monotonic((ONE - 3) * (ONE - 3), m);
    }
}

/// The product of two vector components stays inside 63 bits.
proof fn lemma_component_product(a: int, b: int)
    by (nonlinear_arith)
    requires
        -0x8000_0000 <= a <= 0x8000_0000,
        -0x8000_0000 <= b <= 0x8000_0000,
    ensures
        -0x4000_0000_0000_0000 <= a * b <= 0x4000_0000_0000_0000,
{
}

/// The product of a vector component and a scalar stays far inside 128 bits.
proof fn lemma_product_bound(c: int, s: int)
    by (nonlinear_arith)
    requires
        -0x8000_0000 <= c <= 0x8000_0000,
        -0x8000_0000_0000_0000 <= s <= 0x8000_0000_0000_0000,
    ensures
        -0x4000_0000_0000_0000_0000_0000 <= c * s <= 0x4000_0000_0000_0000_0000_0000,
{
}

/// Dividing a vector component by a positive integer gives a vector component.
proof fn lemma_quotient_fits(c: int, d: int)
    requires
        fits(c),
        d >= 1,
    ensures
        fits(c / d),
{
    lemma_div_bounds(c, d);
    let q = c / d;
    assert(fits(q)) by (nonlinear_arith)
        requires
            d >= 1,
            q * d <= c,
            c < q * d + d,
            -0x8000_0000 <= c <= 0x7fff_ffff,
    ;
}

} // verus!
