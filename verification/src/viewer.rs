//! The viewer: an eye point and a look point, and how the keys move them.
//!
//! The viewer faces from the eye toward the look point. Walking moves both points along
//! that direction; turning moves the look point alone, square to it.

use crate::fixed::{div_floor, lemma_div_lower, lemma_div_upper, ONE};
use crate::vector2::{difference_of, representable, scaled, unit_of, unit_vector, Vector2};
use vstd::prelude::*;

verus! {

/// How far a step of the walk takes the viewer: 0.2.
pub const WALK: i64 = 13107;

/// How far a step takes the viewer who runs, and how far a turn takes the look point: 0.4.
pub const TURN: i64 = 26214;

/// The keys that are down.
#[derive(Clone, Copy, Debug, PartialEq, Eq, Structural)]
pub struct Keys {
    pub up: bool,
    pub down: bool,
    pub left: bool,
    pub right: bool,
    pub run: bool,
}

/// The length of a step of the walk: twice as long for a viewer who runs.
pub open spec fn stride(keys: Keys) -> int {
    if keys.run {
        2 * WALK
    } else {
        WALK as int
    }
}

/// How far the keys take the eye along one axis, where `along` is the component of the
/// facing direction on that axis: a stride forward for `up`, a stride back for `down`.
pub open spec fn walked(keys: Keys, along: int) -> int {
    (if keys.up {
        scaled(along, stride(keys))
    } else {
        0
    }) - (if keys.down {
        scaled(along, stride(keys))
    } else {
        0
    })
}

/// The eye after the keys have moved it: along the facing direction.
pub open spec fn moved_eye(p1: (int, int), p2: (int, int), keys: Keys) -> (int, int) {
    let facing = unit_of(difference_of(p2, p1));
    (p1.0 + walked(keys, facing.0), p1.1 + walked(keys, facing.1))
}

/// The look point after the keys have moved it: with the eye along the facing direction,
/// and square to that direction by a turn for `right` and by a turn the other way for
/// `left`.
pub open spec fn moved_look(p1: (int, int), p2: (int, int), keys: Keys) -> (int, int) {
    let facing = unit_of(difference_of(p2, p1));
    (
        p2.0 + walked(keys, facing.0) + (if keys.right {
            scaled(-facing.1, TURN as int)
        } else {
            0
        }) + (if keys.left {
            scaled(facing.1, TURN as int)
        } else {
            0
        }),
        p2.1 + walked(keys, facing.1) + (if keys.right {
            scaled(facing.0, TURN as int)
        } else {
            0
        }) + (if keys.left {
            scaled(-facing.0, TURN as int)
        } else {
            0
        }),
    )
}

/// A component of a unit vector times a speed of at most 1.0, as a fixed-point product.
fn speed_times(along: i64, speed: i64) -> (r: i64)
    requires
        -ONE <= along <= ONE,
        0 <= speed <= ONE,
    ensures
        r == scaled(along as int, speed as int),
        -ONE <= r <= ONE,
{
    assert(-0x1_0000_0000 <= along * speed <= 0x1_0000_0000) by (nonlinear_arith)
        requires
            -65536 <= along <= 65536,
            0 <= speed <= 65536,
    ;
    proof {
        lemma_div_upper(along * speed, ONE as int, ONE as int);
        lemma_div_lower(along * speed, ONE as int, -ONE);
    }
    div_floor((along * speed) as i128, ONE as i128) as i64
}

/// Moves the viewer as the keys that are down ask: the eye `p1` and the look point `p2`
/// after one frame.
pub fn move_viewer(p1: Vector2, p2: Vector2, keys: Keys) -> (r: (Vector2, Vector2))
    requires
        representable(moved_eye(p1@, p2@, keys)),
        representable(moved_look(p1@, p2@, keys)),
    ensures
        r.0@ == moved_eye(p1@, p2@, keys),
        r.1@ == moved_look(p1@, p2@, keys),
{
    let facing = unit_vector(p2.x as i64 - p1.x as i64, p2.y as i64 - p1.y as i64);
    let speed: i64 = if keys.run {
        2 * WALK
    } else {
        WALK
    };
    let mut walk_x: i64 = 0;
    let mut walk_y: i64 = 0;
    if keys.up {
        walk_x = walk_x + speed_times(facing.x as i64, speed);
        walk_y = walk_y + speed_times(facing.y as i64, speed);
    }
    if keys.down {
        walk_x = walk_x - speed_times(facing.x as i64, speed);
        walk_y = walk_y - speed_times(facing.y as i64, speed);
    }
    let mut turn_x: i64 = 0;
    let mut turn_y: i64 = 0;
    if keys.right {
        turn_x = turn_x + speed_times(-(facing.y as i64), TURN);
        turn_y = turn_y + speed_times(facing.x as i64, TURN);
    }
    if keys.left {
        turn_x = turn_x + speed_times(facing.y as i64, TURN);
        turn_y = turn_y + speed_times(-(facing.x as i64), TURN);
    }
    (
        Vector2 { x: (p1.x as i64 + walk_x) as i32, y: (p1.y as i64 + walk_y) as i32 },
        Vector2 {
            x: (p2.x as i64 + walk_x + turn_x) as i32,
            y: (p2.y as i64 + walk_y + turn_y) as i32,
        },
    )
}

/// Walking moves the eye and the look point together: without a turn, the look point
/// stays where it was as seen from the eye.
pub proof fn lemma_walking_moves_both(p1: (int, int), p2: (int, int), keys: Keys)
    requires
        !keys.left,
        !keys.right,
    ensures
        difference_of(moved_look(p1, p2, keys), moved_eye(p1, p2, keys)) == difference_of(p2, p1),
{
}

/// Turning moves the look point alone: without a step, the eye stays where it was, and
/// the two turns together move the look point by less than two raw units.
pub proof fn lemma_turning_keeps_the_eye(p1: (int, int), p2: (int, int), keys: Keys)
    requires
        keys.up == keys.down,
    ensures
        moved_eye(p1, p2, keys) == p1,
        keys.left && keys.right ==> {
            let turned = difference_of(moved_look(p1, p2, keys), p2);
            -1 <= turned.0 <= 0 && -1 <= turned.1 <= 0
        },
{
    let facing = unit_of(difference_of(p2, p1));
    lemma_opposite_turns(facing.0);
    lemma_opposite_turns(facing.1);
}

/// A turn and the opposite turn cancel, up to the rounding of each.
proof fn lemma_opposite_turns(along: int)
    ensures
        -1 <= scaled(along, TURN as int) + scaled(-along, TURN as int) <= 0,
{
    let t = along * TURN;
    assert((-along) * TURN == -t) by (nonlinear_arith)
        requires
            t == along * TURN,
    ;
    crate::fixed::lemma_div_bounds(t, ONE as int);
    crate::fixed::lemma_div_bounds(-t, ONE as int);
}

} // verus!
