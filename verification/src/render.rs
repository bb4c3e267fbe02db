//! Projection of what the rays found onto a frame of RGBA pixels.
//!
//! A frame of `width` by `height` pixels is a buffer of `width * height * 4` bytes, row
//! after row, four bytes to the pixel: red, green, blue, alpha.

use crate::fixed::{div_floor, lemma_div_lower, lemma_div_strict_upper, ONE};
use crate::grid::Grid;
use crate::vector2::{
    difference_of, distance_between, is_vertical_side, magnitude_of, vertical_side_of, Vector2,
};
use vstd::prelude::*;

verus! {

/// A colour: red, green, blue, alpha.
pub type Rgba = (u8, u8, u8, u8);

/// The buffer holds a frame of `width` by `height` pixels, small enough to index.
pub open spec fn is_frame(buf: Seq<u8>, width: int, height: int) -> bool {
    buf.len() == width * height * 4 && width * height * 4 <= u32::MAX
}

/// The pixel at column `x` of row `y` lies on a frame of `width` by `height` pixels.
pub open spec fn on_frame(width: int, height: int, x: int, y: int) -> bool {
    0 <= x < width && 0 <= y < height
}

/// The colour of the pixel at column `x` of row `y` in a frame `width` pixels wide.
pub open spec fn pixel(buf: Seq<u8>, width: int, x: int, y: int) -> Rgba {
    let i = pixel_offset(x, y, width);
    (buf[i], buf[i + 1], buf[i + 2], buf[i + 3])
}

/// The colour of row `y` of the backdrop on a screen of `height` rows: a pale blue that
/// is most opaque at the top and at the bottom of the screen and fades toward the middle.
pub open spec fn backdrop(y: int, height: int) -> Rgba {
    let alpha = if y < height / 2 {
        ((height - y) * 255) / height
    } else {
        (y * 255) / height
    };
    (200u8, 220u8, 250u8, alpha as u8)
}

/// The colour of a pixel of the map seen from above: the colour of walls where the
/// pixel lies in an occupied cell, the colour of floors elsewhere.
pub open spec fn map_colour(grid: &Grid, x: int, y: int) -> Rgba {
    if grid.occupied(x / (grid.cell_size().width as int), y / (grid.cell_size().height as int)) {
        (82u8, 42u8, 82u8, 255u8)
    } else {
        (42u8, 42u8, 43u8, 255u8)
    }
}

/// Where the pixel at column `x` of row `y` starts in a frame `width` pixels wide.
pub open spec fn pixel_offset(x: int, y: int, width: int) -> int {
    (y * width + x) * 4
}

/// A value's place between `min` and `max` on a scale from 0 to 255, rounded down and
/// held to the scale. Where `min` and `max` are one value, anything above it is at the
/// top of the scale.
pub open spec fn normalized(value: int, min: int, max: int) -> int {
    if max == min {
        if value > min {
            255
        } else {
            0
        }
    } else {
        let place = if max > min {
            ((value - min) * 255) / (max - min)
        } else {
            ((min - value) * 255) / (min - max)
        };
        if place < 0 {
            0
        } else if place > 255 {
            255
        } else {
            place
        }
    }
}

/// The top row of the slice that a wall at `distance` fills on a screen of `height`
/// rows: half the wall's height above the middle of the screen, rounded down, the wall
/// being `height / distance` rows high; row 0 where the wall is higher than the screen.
pub open spec fn slice_start(distance: int, height: int) -> int {
    let row = (height * (distance - ONE)) / (2 * distance);
    if row < 0 {
        0
    } else {
        row
    }
}

/// The row that ends the slice of a wall at `distance` on a screen of `height` rows:
/// half the wall's height below the middle of the screen, rounded down; the last row
/// where the wall is higher than the screen.
pub open spec fn slice_end(distance: int, height: int) -> int {
    let row = (height * (distance + ONE)) / (2 * distance);
    if row > height - 1 {
        height - 1
    } else {
        row
    }
}

/// How opaque a wall is drawn at `distance`: fully at none, less by one for each whole
/// unit, and no less than 15.
pub open spec fn fade_of(distance: int) -> int {
    let whole = distance / (ONE as int);
    if whole > 240 {
        15
    } else {
        255 - whole
    }
}

/// The rows that a wall at `distance` fills on a screen of `height` rows, from the first
/// up to, and without, the second. A wall at no distance fills the screen.
pub open spec fn wall_rows(distance: int, height: int) -> (int, int) {
    if distance == 0 {
        (0, height - 1)
    } else {
        (slice_start(distance, height), slice_end(distance, height))
    }
}

/// The colour of the wall that a ray found, seen from `p1`: lighter where the ray struck
/// a vertical edge of a cell `grid_size` wide, and more transparent with the distance
/// from `p1` to the point struck.
pub open spec fn wall_colour(found: (bool, Vector2, u64), p1: (int, int), grid_size: int) -> Rgba {
    let alpha = fade_of(magnitude_of(difference_of(found.1@, p1))) as u8;
    if vertical_side_of(found.1@, grid_size) {
        (190u8, 200u8, 240u8, alpha)
    } else {
        (170u8, 190u8, 220u8, alpha)
    }
}

/// The pixel at column `x` of row `y` shows a wall: the screen is cut into as many
/// slices of equal width as there are rays, from the left, a remainder of the width
/// staying free at the right; the ray of the pixel's slice struck a wall, and the row lies
/// among the rows of that wall.
pub open spec fn walled(found: Seq<(bool, Vector2, u64)>, width: int, height: int, x: int, y: int)
    -> bool {
    let slice_width = width / (found.len() as int);
    let i = x / slice_width;
    &&& slice_width > 0
    &&& i < found.len()
    &&& found[i].0
    &&& wall_rows(found[i].2 as int, height).0 <= y < wall_rows(found[i].2 as int, height).1
}

/// The colour that a crossing at `distance` leaves on the two rows that bound its wall
/// slice: a grey that is the more opaque the lower the slice ends on the screen.
pub open spec fn floor_colour(distance: int, height: int) -> Rgba {
    let alpha = 255 - normalized(height - wall_rows(distance, height).1, 0, height);
    (200u8, 200u8, 200u8, alpha as u8)
}

/// A crossing at `distance` marks row `y`: the row bounds its wall slice.
pub open spec fn marks(distance: int, height: int, y: int) -> bool {
    y == wall_rows(distance, height).0 || y == wall_rows(distance, height).1
}

/// The last of the first `n` crossings of a trace that marks row `y`, or -1 where none does.
pub open spec fn last_mark(trace: Seq<(Vector2, u64)>, height: int, y: int, n: int) -> int
    decreases n,
{
    if n <= 0 {
        -1
    } else if marks(trace[n - 1].1 as int, height, y) {
        n - 1
    } else {
        last_mark(trace, height, y, n - 1)
    }
}

/// The colour of the pixel at column `x` of row `y` after the first `n` crossings of
/// `trace` have left their marks on it, over the colour `under`.
pub open spec fn marked(trace: Seq<(Vector2, u64)>, height: int, y: int, n: int, under: Rgba)
    -> Rgba {
    let m = last_mark(trace, height, y, n);
    if m >= 0 {
        floor_colour(trace[m].1 as int, height)
    } else {
        under
    }
}

/// The colour of the pixel at column `x` of row `y` after the traces of a fan have left
/// their marks: the screen is cut into slices as for the walls, and each crossing of a
/// slice's trace marks two rows of the slice, a later one over an earlier one.
pub open spec fn floored(
    traces: Seq<Vec<(Vector2, u64)>>,
    width: int,
    height: int,
    x: int,
    y: int,
    under: Rgba,
) -> Rgba {
    let slice_width = width / (traces.len() as int);
    let i = x / slice_width;
    if slice_width > 0 && i < traces.len() {
        marked(traces[i]@, height, y, traces[i]@.len() as int, under)
    } else {
        under
    }
}

/// The colour of the pixel at column `u` of row `v` while the marks are painted: the
/// slices before slice `i` are done, of slice `i` the crossings before crossing `j`, and
/// of crossing `j` the columns before column `x`.
spec fn floor_so_far(
    traces: Seq<Vec<(Vector2, u64)>>,
    width: int,
    height: int,
    i: int,
    j: int,
    x: int,
    u: int,
    v: int,
    under: Rgba,
) -> Rgba {
    let s = u / (width / (traces.len() as int));
    if s < i {
        marked(traces[s]@, height, v, traces[s]@.len() as int, under)
    } else if s == i {
        marked(traces[s]@, height, v, if u < x {
            j + 1
        } else {
            j
        }, under)
    } else {
        under
    }
}

/// The colour of the pixel at column `u` of row `v` while the walls are painted: the
/// slices before slice `i` are done, of slice `i` the rows before row `y`, and of row `y`
/// the columns before column `x`.
spec fn scene_so_far(
    before: Seq<u8>,
    found: Seq<(bool, Vector2, u64)>,
    width: int,
    height: int,
    p1: (int, int),
    grid_size: int,
    i: int,
    y: int,
    x: int,
    u: int,
    v: int,
) -> Rgba {
    let s = u / (width / (found.len() as int));
    if walled(found, width, height, u, v) && (s < i || (s == i && (v < y || (v == y && u < x)))) {
        wall_colour(found[s], p1, grid_size)
    } else {
        pixel(before, width, u, v)
    }
}

/// The index in a frame's buffer of the first byte of the pixel at column `x` of row `y`.
pub fn pixel_index(x: u32, y: u32, width: u32) -> (r: usize)
    requires
        pixel_offset(x as int, y as int, width as int) <= u32::MAX,
    ensures
        r == pixel_offset(x as int, y as int, width as int),
{
    assert(0 <= y * width) by (nonlinear_arith);
    ((y * width + x) * 4) as usize
}

/// A value's place between `min_value` and `max_value` on a scale from 0 to 255.
pub fn normalize(value: i64, min_value: i64, max_value: i64) -> (r: u8)
    ensures
        r == normalized(value as int, min_value as int, max_value as int),
{
    if max_value == min_value {
        return if value > min_value {
            255
        } else {
            0
        };
    }
    let place: i128 = if max_value > min_value {
        div_floor((value as i128 - min_value as i128) * 255, max_value as i128 - min_value as i128)
    } else {
        div_floor((min_value as i128 - value as i128) * 255, min_value as i128 - max_value as i128)
    };
    if place < 0 {
        0
    } else if place > 255 {
        255
    } else {
        place as u8
    }
}

/// The rows of the screen that a wall at `distance` fills: the first row of its slice
/// and the row that ends it.
pub fn project(distance: u64, screen_height: u32) -> (r: (u32, u32))
    requires
        distance > 0,
        screen_height >= 1,
    ensures
        r.0 == slice_start(distance as int, screen_height as int),
        r.1 == slice_end(distance as int, screen_height as int),
        r.0 <= r.1 < screen_height,
{
    let d: i128 = distance as i128;
    let h: i128 = screen_height as i128;
    let one: i128 = ONE as i128;
    proof {
        lemma_slice(d as int, h as int);
    }
    let top: i128 = div_floor(h * (d - one), 2 * d);
    let bottom: i128 = div_floor(h * (d + one), 2 * d);
    let start: u32 = if top < 0 {
        0
    } else {
        top as u32
    };
    let end: u32 = if bottom > h - 1 {
        screen_height - 1
    } else {
        bottom as u32
    };
    (start, end)
}

/// The rows of the screen that a wall at `distance` fills, where a wall at no distance
/// fills the screen.
pub fn wall_slice(distance: u64, screen_height: u32) -> (r: (u32, u32))
    requires
        screen_height >= 1,
    ensures
        r.0 == wall_rows(distance as int, screen_height as int).0,
        r.1 == wall_rows(distance as int, screen_height as int).1,
        r.0 <= r.1 < screen_height,
{
    if distance == 0 {
        (0, screen_height - 1)
    } else {
        project(distance, screen_height)
    }
}

/// The two quotients that bound a slice lie within reach of the screen, the upper one
/// no lower than the other.
proof fn lemma_slice(d: int, h: int)
    requires
        0 < d <= u64::MAX,
        1 <= h <= u32::MAX,
    ensures
        -0x10_0000_0000_0000_0000_0000_0000 <= h * (d - ONE) <= h * (d + ONE)
            <= 0x10_0000_0000_0000_0000_0000_0000,
        (h * (d - ONE)) / (2 * d) < h,
        (h * (d - ONE)) / (2 * d) <= (h * (d + ONE)) / (2 * d),
        0 <= (h * (d + ONE)) / (2 * d),
{
    assert(-0x10_0000_0000_0000_0000_0000_0000 <= h * (d - ONE) <= h * (d + ONE)
        <= 0x10_0000_0000_0000_0000_0000_0000) by (nonlinear_arith)
        requires
            0 < d <= u64::MAX,
            1 <= h <= u32::MAX,
            ONE == 65536,
    ;
    assert(h * (d - ONE) < h * (2 * d) && 0 <= h * (d + ONE)) by (nonlinear_arith)
        requires
            0 < d,
            1 <= h,
            ONE == 65536,
    ;
    lemma_div_strict_upper(h * (d - ONE), 2 * d, h);
    lemma_div_lower(h * (d + ONE), 2 * d, 0);
    vstd::arithmetic::div_mod::lemma_div_is_ordered(h * (d - ONE), h * (d + ONE), 2 * d);
}

/// Of two quotients by positive divisors, the one of the smaller fraction is no larger.
proof fn lemma_fractions(a: int, b: int, c: int, e: int)
    requires
        b > 0,
        e > 0,
        a * e <= c * b,
    ensures
        a / b <= c / e,
{
    crate::fixed::lemma_div_bounds(a, b);
    let q = a / b;
    assert(q * e <= c) by (nonlinear_arith)
        requires
            q * b <= a,
            a * e <= c * b,
            b > 0,
            e > 0,
    ;
    lemma_div_lower(c, e, q);
}

/// A slice is centred on the screen: its first row and the row that ends it lie as far
/// from the top as from the bottom, to within one row.
pub proof fn lemma_slice_is_centred(distance: int, height: int)
    requires
        distance > 0,
        height >= 1,
    ensures
        height - 1 <= slice_start(distance, height) + slice_end(distance, height) <= height,
        0 <= slice_start(distance, height) <= slice_end(distance, height) < height,
{
    let d = distance;
    let h = height;
    let top = (h * (d - ONE)) / (2 * d);
    let bottom = (h * (d + ONE)) / (2 * d);
    crate::fixed::lemma_div_bounds(h * (d - ONE), 2 * d);
    crate::fixed::lemma_div_bounds(h * (d + ONE), 2 * d);
    assert(h * (d - ONE) + h * (d + ONE) == h * (2 * d)) by (nonlinear_arith);
    assert(top + bottom <= h && top + bottom >= h - 1) by (nonlinear_arith)
        requires
            top * (2 * d) <= h * (d - ONE) < top * (2 * d) + 2 * d,
            bottom * (2 * d) <= h * (d + ONE) < bottom * (2 * d) + 2 * d,
            h * (d - ONE) + h * (d + ONE) == h * (2 * d),
            d > 0,
    ;
    assert(h * (d - ONE) <= h * (d + ONE) && 0 <= h * (d + ONE)) by (nonlinear_arith)
        requires
            d > 0,
            h >= 1,
            ONE == 65536,
    ;
    vstd::arithmetic::div_mod::lemma_div_is_ordered(h * (d - ONE), h * (d + ONE), 2 * d);
    lemma_div_lower(h * (d + ONE), 2 * d, 0);
}

/// A farther wall is no taller on the screen: its slice starts no higher and ends no
/// lower than the slice of a nearer wall.
pub proof fn lemma_farther_is_smaller(near: int, far: int, height: int)
    requires
        0 < near <= far,
        height >= 1,
    ensures
        slice_start(near, height) <= slice_start(far, height),
        slice_end(far, height) <= slice_end(near, height),
{
    let h = height;
    assert((h * (near - ONE)) * (2 * far) <= (h * (far - ONE)) * (2 * near)) by (nonlinear_arith)
        requires
            0 < near <= far,
            h >= 1,
            ONE == 65536,
    ;
    lemma_fractions(h * (near - ONE), 2 * near, h * (far - ONE), 2 * far);
    assert((h * (far + ONE)) * (2 * near) <= (h * (near + ONE)) * (2 * far)) by (nonlinear_arith)
        requires
            0 < near <= far,
            h >= 1,
            ONE == 65536,
    ;
    lemma_fractions(h * (far + ONE), 2 * far, h * (near + ONE), 2 * near);
}

/// How opaque a wall is drawn at `distance`.
pub fn fade(distance: u64) -> (r: u8)
    ensures
        r == fade_of(distance as int),
{
    let whole: u64 = distance / (ONE as u64);
    if whole > 240 {
        15
    } else {
        255 - whole as u8
    }
}

/// Whether the buffer holds a frame of `width` by `height` pixels that is small enough
/// to index: what every function that paints asks of its buffer.
pub fn is_frame_sized(buffer: &Vec<u8>, width: u32, height: u32) -> (r: bool)
    ensures
        r == is_frame(buffer@, width as int, height as int),
{
    assert(0 <= width * height <= 0xffff_ffff * 0xffff_ffff) by (nonlinear_arith)
        requires
            0 <= width <= 0xffff_ffff,
            0 <= height <= 0xffff_ffff,
    ;
    let bytes: u128 = width as u128 * height as u128 * 4;
    bytes <= u32::MAX as u128 && buffer.len() as u128 == bytes
}

/// Two pixels of a frame start at different places, four bytes or more apart, and each
/// lies within the frame.
proof fn lemma_pixels_apart(width: int, height: int, x1: int, y1: int, x2: int, y2: int)
    by (nonlinear_arith)
    requires
        on_frame(width, height, x1, y1),
        on_frame(width, height, x2, y2),
    ensures
        0 <= pixel_offset(x1, y1, width) <= width * height * 4 - 4,
        x1 != x2 || y1 != y2 ==> pixel_offset(x1, y1, width) + 4 <= pixel_offset(x2, y2, width)
            || pixel_offset(x2, y2, width) + 4 <= pixel_offset(x1, y1, width),
{
}

/// Gives the pixel at column `x` of row `y` the colour `colour`, and leaves the others.
pub fn put_pixel(buffer: &mut Vec<u8>, width: u32, height: u32, x: u32, y: u32, colour: Rgba)
    requires
        is_frame(old(buffer)@, width as int, height as int),
        on_frame(width as int, height as int, x as int, y as int),
    ensures
        is_frame(final(buffer)@, width as int, height as int),
        pixel(final(buffer)@, width as int, x as int, y as int) == colour,
        forall|u: int, v: int|
            on_frame(width as int, height as int, u, v) && (u != x || v != y) ==> #[trigger] pixel(
                final(buffer)@,
                width as int,
                u,
                v,
            ) == pixel(old(buffer)@, width as int, u, v),
{
    proof {
        lemma_pixels_apart(width as int, height as int, x as int, y as int, x as int, y as int);
    }
    let ghost before = buffer@;
    let index: usize = pixel_index(x, y, width);
    buffer[index] = colour.0;
    buffer[index + 1] = colour.1;
    buffer[index + 2] = colour.2;
    buffer[index + 3] = colour.3;
    assert forall|u: int, v: int|
        on_frame(width as int, height as int, u, v) && (u != x || v != y) implies #[trigger] pixel(
        buffer@,
        width as int,
        u,
        v,
    ) == pixel(before, width as int, u, v) by {
        lemma_pixels_apart(width as int, height as int, u, v, x as int, y as int);
    }
}

/// Paints the backdrop: every pixel of row `y` gets the colour `backdrop(y, height)`.
pub fn set_background(buffer: &mut Vec<u8>, width: u32, height: u32)
    requires
        is_frame(old(buffer)@, width as int, height as int),
    ensures
        is_frame(final(buffer)@, width as int, height as int),
        forall|u: int, v: int|
            on_frame(width as int, height as int, u, v) ==> #[trigger] pixel(
                final(buffer)@,
                width as int,
                u,
                v,
            ) == backdrop(v, height as int),
{
    let mut y: u32 = 0;
    while y < height
        invariant
            y <= height,
            is_frame(buffer@, width as int, height as int),
            forall|u: int, v: int|
                on_frame(width as int, height as int, u, v) && v < y ==> #[trigger] pixel(
                    buffer@,
                    width as int,
                    u,
                    v,
                ) == backdrop(v, height as int),
        decreases height - y,
    {
        proof {
            lemma_alpha(y as int, height as int);
        }
        let alpha: u64 = if y < height / 2 {
            (height as u64 - y as u64) * 255 / height as u64
        } else {
            y as u64 * 255 / height as u64
        };
        let colour: Rgba = (200, 220, 250, alpha as u8);
        let mut x: u32 = 0;
        while x < width
            invariant
                x <= width,
                y < height,
                colour == backdrop(y as int, height as int),
                is_frame(buffer@, width as int, height as int),
                forall|u: int, v: int|
                    on_frame(width as int, height as int, u, v) && (v < y || (v == y && u < x))
                        ==> #[trigger] pixel(buffer@, width as int, u, v) == backdrop(
                        v,
                        height as int,
                    ),
            decreases width - x,
        {
            put_pixel(buffer, width, height, x, y, colour);
            x = x + 1;
        }
        y = y + 1;
    }
}

/// The alpha of a row of the backdrop is a byte.
proof fn lemma_alpha(y: int, height: int)
    requires
        0 <= y < height,
    ensures
        0 <= ((height - y) * 255) / height <= 255,
        0 <= (y * 255) / height <= 255,
{
    assert(0 <= (height - y) * 255 <= 255 * height && 0 <= y * 255 <= 255 * height)
        by (nonlinear_arith)
        requires
            0 <= y < height,
    ;
    crate::fixed::lemma_div_upper((height - y) * 255, height, 255);
    crate::fixed::lemma_div_upper(y * 255, height, 255);
    lemma_div_lower((height - y) * 255, height, 0);
    lemma_div_lower(y * 255, height, 0);
}

/// Paints the map as seen from above, one pixel of the frame to the pixel of the map:
/// every pixel gets the colour `map_colour` of its place.
pub fn set_minimap_background(buffer: &mut Vec<u8>, grid: &Grid, width: u32, height: u32)
    requires
        grid.wf(),
        is_frame(old(buffer)@, width as int, height as int),
    ensures
        is_frame(final(buffer)@, width as int, height as int),
        forall|u: int, v: int|
            on_frame(width as int, height as int, u, v) ==> #[trigger] pixel(
                final(buffer)@,
                width as int,
                u,
                v,
            ) == map_colour(grid, u, v),
{
    let cell = grid.cell();
    let mut y: u32 = 0;
    while y < height
        invariant
            y <= height,
            grid.wf(),
            cell == grid.cell_size(),
            is_frame(buffer@, width as int, height as int),
            forall|u: int, v: int|
                on_frame(width as int, height as int, u, v) && v < y ==> #[trigger] pixel(
                    buffer@,
                    width as int,
                    u,
                    v,
                ) == map_colour(grid, u, v),
        decreases height - y,
    {
        let mut x: u32 = 0;
        while x < width
            invariant
                x <= width,
                y < height,
                grid.wf(),
                cell == grid.cell_size(),
                is_frame(buffer@, width as int, height as int),
                forall|u: int, v: int|
                    on_frame(width as int, height as int, u, v) && (v < y || (v == y && u < x))
                        ==> #[trigger] pixel(buffer@, width as int, u, v) == map_colour(grid, u, v),
            decreases width - x,
        {
            let colour: Rgba = if grid.is_occupied((x / cell.width) as i64, (y / cell.height) as i64) {
                (82, 42, 82, 255)
            } else {
                (42, 42, 43, 255)
            };
            put_pixel(buffer, width, height, x, y, colour);
            x = x + 1;
        }
        y = y + 1;
    }
}

/// The columns of slice `i`, and no others, have `i` for their quotient by the width of
/// a slice; and the slices of all the rays fit the screen.
proof fn lemma_slice_columns(width: int, count: int, i: int, u: int)
    requires
        0 < count <= width,
        0 <= i < count,
        0 <= u,
    ensures
        width / count >= 1,
        0 <= i * (width / count),
        (i + 1) * (width / count) == i * (width / count) + width / count,
        (i + 1) * (width / count) <= width,
        u / (width / count) == i <==> i * (width / count) <= u < (i + 1) * (width / count),
        u / (width / count) < i <==> u < i * (width / count),
        0 <= u / (width / count),
{
    lemma_div_lower(width, count, 1);
    let sw = width / count;
    crate::fixed::lemma_div_bounds(width, count);
    assert((i + 1) * sw == i * sw + sw && 0 <= i * sw && (i + 1) * sw <= count * sw)
        by (nonlinear_arith)
        requires
            0 <= i < count,
            sw >= 1,
    ;
    assert(sw * count == count * sw) by (nonlinear_arith);
    crate::fixed::lemma_div_bounds(u, sw);
    let q = u / sw;
    assert(q == i <==> i * sw <= u < i * sw + sw) by (nonlinear_arith)
        requires
            q * sw <= u < q * sw + sw,
            sw >= 1,
    ;
    assert(q < i <==> u < i * sw) by (nonlinear_arith)
        requires
            q * sw <= u < q * sw + sw,
            sw >= 1,
    ;
    lemma_div_lower(u, sw, 0);
}

/// Paints the walls that the rays of a fan found, seen from `p1`: the pixels that show a
/// wall get the colour of that wall, the others stay as they are.
pub fn main_scene(
    buffer: &mut Vec<u8>,
    width: u32,
    height: u32,
    intersect: &Vec<(bool, Vector2, u64)>,
    p1: Vector2,
    grid_size: i64,
)
    requires
        is_frame(old(buffer)@, width as int, height as int),
        intersect@.len() > 0,
    ensures
        is_frame(final(buffer)@, width as int, height as int),
        forall|u: int, v: int|
            on_frame(width as int, height as int, u, v) ==> #[trigger] pixel(
                final(buffer)@,
                width as int,
                u,
                v,
            ) == (if walled(intersect@, width as int, height as int, u, v) {
                wall_colour(intersect@[u / (width as int / intersect@.len() as int)], p1@, grid_size as int)
            } else {
                pixel(old(buffer)@, width as int, u, v)
            }),
{
    let ghost before = buffer@;
    let ghost found = intersect@;
    let count: usize = intersect.len();
    if height == 0 {
        return;
    }
    if count > width as usize {
        proof {
            crate::fixed::lemma_div_strict_upper(width as int, count as int, 1);
            lemma_div_lower(width as int, count as int, 0);
        }
        return;
    }
    let slice_width: u32 = width / (count as u32);
    proof {
        lemma_slice_columns(width as int, count as int, 0, 0);
    }
    let mut i: u32 = 0;
    while i < count as u32
        invariant
            i <= count,
            0 < count <= width,
            count == found.len(),
            found == intersect@,
            height >= 1,
            slice_width == width as int / count as int,
            is_frame(buffer@, width as int, height as int),
            forall|u: int, v: int|
                on_frame(width as int, height as int, u, v) ==> #[trigger] pixel(
                    buffer@,
                    width as int,
                    u,
                    v,
                ) == scene_so_far(
                    before,
                    found,
                    width as int,
                    height as int,
                    p1@,
                    grid_size as int,
                    i as int,
                    0,
                    0,
                    u,
                    v,
                ),
        decreases count - i,
    {
        let ray = intersect[i as usize];
        proof {
            lemma_slice_columns(width as int, count as int, i as int, 0);
        }
        let left: u32 = i * slice_width;
        let right: u32 = left + slice_width;
        if ray.0 {
            let rows = wall_slice(ray.2, height);
            let alpha: u8 = fade(distance_between(ray.1, p1));
            let colour: Rgba = if is_vertical_side(ray.1, grid_size) {
                (190, 200, 240, alpha)
            } else {
                (170, 190, 220, alpha)
            };
            proof {
                assert forall|u: int, v: int|
                    on_frame(width as int, height as int, u, v) implies #[trigger] pixel(
                    buffer@,
                    width as int,
                    u,
                    v,
                ) == scene_so_far(
                    before,
                    found,
                    width as int,
                    height as int,
                    p1@,
                    grid_size as int,
                    i as int,
                    rows.0 as int,
                    left as int,
                    u,
                    v,
                ) by {
                    lemma_slice_columns(width as int, count as int, i as int, u);
                }
            }
            let mut y: u32 = rows.0;
            while y < rows.1
                invariant
                    rows.0 <= y <= rows.1 < height,
                    i < count,
                    0 < count <= width,
                    count == found.len(),
                    slice_width == width as int / count as int,
                    left == i * slice_width,
                    right == left + slice_width,
                    right <= width,
                    found[i as int].0,
                    rows.0 == wall_rows(found[i as int].2 as int, height as int).0,
                    rows.1 == wall_rows(found[i as int].2 as int, height as int).1,
                    colour == wall_colour(found[i as int], p1@, grid_size as int),
                    is_frame(buffer@, width as int, height as int),
                    forall|u: int, v: int|
                        on_frame(width as int, height as int, u, v) ==> #[trigger] pixel(
                            buffer@,
                            width as int,
                            u,
                            v,
                        ) == scene_so_far(
                            before,
                            found,
                            width as int,
                            height as int,
                            p1@,
                            grid_size as int,
                            i as int,
                            y as int,
                            left as int,
                            u,
                            v,
                        ),
                decreases rows.1 - y,
            {
                let mut x: u32 = left;
                while x < right
                    invariant
                        left <= x <= right,
                        rows.0 <= y < rows.1,
                        rows.1 < height,
                        i < count,
                        0 < count <= width,
                        count == found.len(),
                        slice_width == width as int / count as int,
                        left == i * slice_width,
                        right == left + slice_width,
                        right <= width,
                        found[i as int].0,
                        rows.0 == wall_rows(found[i as int].2 as int, height as int).0,
                        rows.1 == wall_rows(found[i as int].2 as int, height as int).1,
                        colour == wall_colour(found[i as int], p1@, grid_size as int),
                        is_frame(buffer@, width as int, height as int),
                        forall|u: int, v: int|
                            on_frame(width as int, height as int, u, v) ==> #[trigger] pixel(
                                buffer@,
                                width as int,
                                u,
                                v,
                            ) == scene_so_far(
                                before,
                                found,
                                width as int,
                                height as int,
                                p1@,
                                grid_size as int,
                                i as int,
                                y as int,
                                x as int,
                                u,
                                v,
                            ),
                    decreases right - x,
                {
                    let ghost earlier = buffer@;
                    put_pixel(buffer, width, height, x, y, colour);
                    proof {
                        assert forall|u: int, v: int|
                            on_frame(width as int, height as int, u, v) implies #[trigger] pixel(
                            buffer@,
                            width as int,
                            u,
                            v,
                        ) == scene_so_far(
                            before,
                            found,
                            width as int,
                            height as int,
                            p1@,
                            grid_size as int,
                            i as int,
                            y as int,
                            x as int + 1,
                            u,
                            v,
                        ) by {
                            lemma_slice_columns(width as int, count as int, i as int, u);
                            if u == x && v == y {
                            } else {
                                assert(pixel(buffer@, width as int, u, v) == pixel(
                                    earlier,
                                    width as int,
                                    u,
                                    v,
                                ));
                            }
                        }
                    }
                    x = x + 1;
                }
                proof {
                    assert forall|u: int, v: int|
                        on_frame(width as int, height as int, u, v) implies #[trigger] pixel(
                        buffer@,
                        width as int,
                        u,
                        v,
                    ) == scene_so_far(
                        before,
                        found,
                        width as int,
                        height as int,
                        p1@,
                        grid_size as int,
                        i as int,
                        y as int + 1,
                        left as int,
                        u,
                        v,
                    ) by {
                        lemma_slice_columns(width as int, count as int, i as int, u);
                    }
                }
                y = y + 1;
            }
        }
        proof {
            assert forall|u: int, v: int|
                on_frame(width as int, height as int, u, v) implies #[trigger] pixel(
                buffer@,
                width as int,
                u,
                v,
            ) == scene_so_far(
                before,
                found,
                width as int,
                height as int,
                p1@,
                grid_size as int,
                i as int + 1,
                0,
                0,
                u,
                v,
            ) by {
                lemma_slice_columns(width as int, count as int, i as int, u);
            }
        }
        i = i + 1;
    }
}

/// Paints the marks of the traces of a fan: on each slice of the screen, for each
/// crossing of the slice's trace in turn, the two rows that bound the wall slice of the
/// crossing's distance.
pub fn grid_to_world(
    buffer: &mut Vec<u8>,
    width: u32,
    height: u32,
    traces: &Vec<Vec<(Vector2, u64)>>,
)
    requires
        is_frame(old(buffer)@, width as int, height as int),
        traces@.len() > 0,
    ensures
        is_frame(final(buffer)@, width as int, height as int),
        forall|u: int, v: int|
            on_frame(width as int, height as int, u, v) ==> #[trigger] pixel(
                final(buffer)@,
                width as int,
                u,
                v,
            ) == floored(
                traces@,
                width as int,
                height as int,
                u,
                v,
                pixel(old(buffer)@, width as int, u, v),
            ),
{
    let ghost before = buffer@;
    let count: usize = traces.len();
    if height == 0 {
        return;
    }
    if count > width as usize {
        proof {
            crate::fixed::lemma_div_strict_upper(width as int, count as int, 1);
            lemma_div_lower(width as int, count as int, 0);
        }
        return;
    }
    let slice_width: u32 = width / (count as u32);
    proof {
        lemma_slice_columns(width as int, count as int, 0, 0);
        assert forall|u: int, v: int|
            on_frame(width as int, height as int, u, v) implies #[trigger] pixel(
            buffer@,
            width as int,
            u,
            v,
        ) == floor_so_far(
            traces@,
            width as int,
            height as int,
            0,
            0,
            0,
            u,
            v,
            pixel(before, width as int, u, v),
        ) by {
            lemma_slice_columns(width as int, count as int, 0, u);
        }
    }
    let mut i: u32 = 0;
    while i < count as u32
        invariant
            i <= count,
            0 < count <= width,
            count == traces@.len(),
            height >= 1,
            slice_width == width as int / count as int,
            is_frame(buffer@, width as int, height as int),
            forall|u: int, v: int|
                on_frame(width as int, height as int, u, v) ==> #[trigger] pixel(
                    buffer@,
                    width as int,
                    u,
                    v,
                ) == floor_so_far(
                    traces@,
                    width as int,
                    height as int,
                    i as int,
                    0,
                    0,
                    u,
                    v,
                    pixel(before, width as int, u, v),
                ),
        decreases count - i,
    {
        let trace = &traces[i as usize];
        proof {
            lemma_slice_columns(width as int, count as int, i as int, 0);
        }
        let left: u32 = i * slice_width;
        let right: u32 = left + slice_width;
        proof {
            assert forall|u: int, v: int|
                on_frame(width as int, height as int, u, v) implies #[trigger] pixel(
                buffer@,
                width as int,
                u,
                v,
            ) == floor_so_far(
                traces@,
                width as int,
                height as int,
                i as int,
                0,
                left as int,
                u,
                v,
                pixel(before, width as int, u, v),
            ) by {
                lemma_slice_columns(width as int, count as int, i as int, u);
            }
        }
        let mut j: usize = 0;
        while j < trace.len()
            invariant
                j <= trace@.len(),
                trace@ == traces@[i as int]@,
                i < count,
                0 < count <= width,
                count == traces@.len(),
                height >= 1,
                slice_width == width as int / count as int,
                left == i * slice_width,
                right == left + slice_width,
                right <= width,
                is_frame(buffer@, width as int, height as int),
                forall|u: int, v: int|
                    on_frame(width as int, height as int, u, v) ==> #[trigger] pixel(
                        buffer@,
                        width as int,
                        u,
                        v,
                    ) == floor_so_far(
                        traces@,
                        width as int,
                        height as int,
                        i as int,
                        j as int,
                        left as int,
                        u,
                        v,
                        pixel(before, width as int, u, v),
                    ),
            decreases trace@.len() - j,
        {
            let rows = wall_slice(trace[j].1, height);
            let alpha: u8 = 255 - normalize(height as i64 - rows.1 as i64, 0, height as i64);
            let colour: Rgba = (200, 200, 200, alpha);
            let mut x: u32 = left;
            while x < right
                invariant
                    left <= x <= right,
                    j < trace@.len(),
                    trace@ == traces@[i as int]@,
                    i < count,
                    0 < count <= width,
                    count == traces@.len(),
                    height >= 1,
                    slice_width == width as int / count as int,
                    left == i * slice_width,
                    right == left + slice_width,
                    right <= width,
                    rows.0 == wall_rows(trace@[j as int].1 as int, height as int).0,
                    rows.1 == wall_rows(trace@[j as int].1 as int, height as int).1,
                    rows.0 <= rows.1 < height,
                    colour == floor_colour(trace@[j as int].1 as int, height as int),
                    is_frame(buffer@, width as int, height as int),
                    forall|u: int, v: int|
                        on_frame(width as int, height as int, u, v) ==> #[trigger] pixel(
                            buffer@,
                            width as int,
                            u,
                            v,
                        ) == floor_so_far(
                            traces@,
                            width as int,
                            height as int,
                            i as int,
                            j as int,
                            x as int,
                            u,
                            v,
                            pixel(before, width as int, u, v),
                        ),
                decreases right - x,
            {
                let ghost earlier = buffer@;
                put_pixel(buffer, width, height, x, rows.1, colour);
                let ghost between = buffer@;
                put_pixel(buffer, width, height, x, rows.0, colour);
                proof {
                    assert forall|u: int, v: int|
                        on_frame(width as int, height as int, u, v) implies #[trigger] pixel(
                        buffer@,
                        width as int,
                        u,
                        v,
                    ) == floor_so_far(
                        traces@,
                        width as int,
                        height as int,
                        i as int,
                        j as int,
                        x as int + 1,
                        u,
                        v,
                        pixel(before, width as int, u, v),
                    ) by {
                        lemma_slice_columns(width as int, count as int, i as int, u);
                        assert(pixel(earlier, width as int, u, v) == floor_so_far(
                            traces@,
                            width as int,
                            height as int,
                            i as int,
                            j as int,
                            x as int,
                            u,
                            v,
                            pixel(before, width as int, u, v),
                        ));
                        if u == x && v == rows.0 {
                        } else if u == x && v == rows.1 {
                            assert(pixel(buffer@, width as int, u, v) == pixel(
                                between,
                                width as int,
                                u,
                                v,
                            ));
                        } else {
                            assert(pixel(between, width as int, u, v) == pixel(
                                earlier,
                                width as int,
                                u,
                                v,
                            ));
                            assert(pixel(buffer@, width as int, u, v) == pixel(
                                between,
                                width as int,
                                u,
                                v,
                            ));
                        }
                    }
                }
                x = x + 1;
            }
            proof {
                assert forall|u: int, v: int|
                    on_frame(width as int, height as int, u, v) implies #[trigger] pixel(
                    buffer@,
                    width as int,
                    u,
                    v,
                ) == floor_so_far(
                    traces@,
                    width as int,
                    height as int,
                    i as int,
                    j as int + 1,
                    left as int,
                    u,
                    v,
                    pixel(before, width as int, u, v),
                ) by {
                    lemma_slice_columns(width as int, count as int, i as int, u);
                }
            }
            j = j + 1;
        }
        proof {
            assert forall|u: int, v: int|
                on_frame(width as int, height as int, u, v) implies #[trigger] pixel(
                buffer@,
                width as int,
                u,
                v,
            ) == floor_so_far(
                traces@,
                width as int,
                height as int,
                i as int + 1,
                0,
                0,
                u,
                v,
                pixel(before, width as int, u, v),
            ) by {
                lemma_slice_columns(width as int, count as int, i as int, u);
            }
        }
        i = i + 1;
    }
    proof {
        assert forall|u: int, v: int|
            on_frame(width as int, height as int, u, v) implies #[trigger] pixel(
            buffer@,
            width as int,
            u,
            v,
        ) == floored(
            traces@,
            width as int,
            height as int,
            u,
            v,
            pixel(before, width as int, u, v),
        ) by {
            lemma_slice_columns(width as int, count as int, 0, u);
        }
    }
}

/// Paints one frame of the view: the backdrop, over it the marks of the traces, and over
/// those the walls that the rays found.
pub fn render_main(
    buffer: &mut Vec<u8>,
    width: u32,
    height: u32,
    traces: &Vec<Vec<(Vector2, u64)>>,
    intersect: &Vec<(bool, Vector2, u64)>,
    p1: Vector2,
    grid_size: i64,
)
    requires
        is_frame(old(buffer)@, width as int, height as int),
        traces@.len() > 0,
        intersect@.len() > 0,
    ensures
        is_frame(final(buffer)@, width as int, height as int),
        forall|u: int, v: int|
            on_frame(width as int, height as int, u, v) ==> #[trigger] pixel(
                final(buffer)@,
                width as int,
                u,
                v,
            ) == (if walled(intersect@, width as int, height as int, u, v) {
                wall_colour(intersect@[u / (width as int / intersect@.len() as int)], p1@, grid_size as int)
            } else {
                floored(traces@, width as int, height as int, u, v, backdrop(v, height as int))
            }),
{
    set_background(buffer, width, height);
    grid_to_world(buffer, width, height, traces);
    main_scene(buffer, width, height, intersect, p1, grid_size);
}

} // verus!
