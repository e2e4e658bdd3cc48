//! The marker ("flag") that the detection engine and the inventory work on.

use vstd::prelude::*;

use crate::geometry::{clamped, dist2, dist2_i64, in_bounds, rect_in_bounds, FieldRect, Pos,
    COORD_LIMIT};

verus! {

/// A planted flag: one marker position on the world grid.
#[derive(Clone, Copy, Debug, PartialEq, Eq, Structural)]
pub struct Flag {
    pub pos: Pos,
}

/// Every flag's position lies within the coordinate window.
pub open spec fn all_in_bounds(flags: Seq<Flag>) -> bool {
    forall|i: int| 0 <= i < flags.len() ==> in_bounds(#[trigger] flags[i].pos)
}

/// A fresh flag at the given position.
pub fn make_flag(pos: Pos) -> (r: Flag)
    ensures
        r == (Flag { pos }),
{
    Flag { pos }
}

/// Where a placed flag lands: the throw target clamped into the field.
pub open spec fn place_pos(origin: Pos, offset: Pos, field: FieldRect) -> Pos {
    Pos {
        x: clamped(origin.x + offset.x, field.x as int, field.x + field.w) as i64,
        y: clamped(origin.y + offset.y, field.y as int, field.y + field.h) as i64,
    }
}

/// The ground list after a swap-removal at `i`: the last flag takes its place.
pub open spec fn swap_removed(s: Seq<Flag>, i: int) -> Seq<Flag> {
    s.update(i, s.last()).drop_last()
}

/// Index `i` is the flag a pickup takes: within reach, at minimal distance
/// from the origin, and the last such index when distances tie.
pub open spec fn picks_last_nearest(s: Seq<Flag>, origin: Pos, r2: int, i: int) -> bool {
    &&& 0 <= i < s.len()
    &&& dist2(s[i].pos, origin) <= r2
    &&& forall|j: int|
        0 <= j < s.len() ==> (dist2((#[trigger] s[j]).pos, origin) > dist2(s[i].pos, origin) || (
        dist2(s[j].pos, origin) == dist2(s[i].pos, origin) && j <= i))
}

/// Some flag lies within squared reach `r2` of the origin.
pub open spec fn any_within(s: Seq<Flag>, origin: Pos, r2: int) -> bool {
    exists|j: int| 0 <= j < s.len() && dist2((#[trigger] s[j]).pos, origin) <= r2
}

/// The index the pickup scan settles on: the last index at minimal distance,
/// if any flag is within reach.
fn nearest_flag_index(flags: &Vec<Flag>, origin: Pos, radius: i64) -> (r: Option<usize>)
    requires
        in_bounds(origin),
        all_in_bounds(flags@),
        -COORD_LIMIT <= radius <= COORD_LIMIT,
    ensures
        match r {
            Some(i) => picks_last_nearest(flags@, origin, radius * radius, i as int),
            None => !any_within(flags@, origin, radius * radius),
        },
        r.is_some() == any_within(flags@, origin, radius * radius),
{
    proof {
        assert(0 <= radius * radius <= 10_000_000_000) by (nonlinear_arith)
            requires
                -100_000 <= radius <= 100_000,
        ;
    }
    let mut best_index: Option<usize> = None;
    let mut best_dist = radius * radius;
    let mut i: usize = 0;
    while i < flags.len()
        invariant
            in_bounds(origin),
            all_in_bounds(flags@),
            i <= flags@.len(),
            best_dist <= radius * radius,
            match best_index {
                Some(bi) => {
                    &&& bi < i
                    &&& best_dist == dist2(flags@[bi as int].pos, origin)
                    &&& forall|j: int|
                        0 <= j < i ==> (dist2((#[trigger] flags@[j]).pos, origin) > best_dist || (
                        dist2(flags@[j].pos, origin) == best_dist && j <= bi))
                },
                None => {
                    &&& best_dist == radius * radius
                    &&& forall|j: int|
                        0 <= j < i ==> dist2((#[trigger] flags@[j]).pos, origin) > radius * radius
                },
            },
        decreases flags@.len() - i,
    {
        let d2 = dist2_i64(origin, flags[i].pos);
        proof {
            crate::geometry::lemma_dist2_sym(origin, flags@[i as int].pos);
        }
        if d2 <= best_dist {
            best_dist = d2;
            best_index = Some(i);
        }
        i = i + 1;
    }
    best_index
}

/// Removes the nearest flag within `radius` of the origin, if there is one;
/// ties go to the latest-listed flag, which swaps places with the last.
pub fn try_pickup_flag(flags: &mut Vec<Flag>, origin: Pos, radius: i64) -> (r: bool)
    requires
        in_bounds(origin),
        all_in_bounds(old(flags)@),
        -COORD_LIMIT <= radius <= COORD_LIMIT,
    ensures
        r == any_within(old(flags)@, origin, radius * radius),
        r ==> exists|i: int|
            picks_last_nearest(old(flags)@, origin, radius * radius, i) && final(flags)@
                == #[trigger] swap_removed(old(flags)@, i),
        !r ==> final(flags)@ == old(flags)@,
        all_in_bounds(final(flags)@),
{
    let picked = nearest_flag_index(flags, origin, radius);
    match picked {
        Some(index) => {
            flags.swap_remove(index);
            proof {
                assert(picks_last_nearest(old(flags)@, origin, radius * radius, index as int)
                    && flags@ == swap_removed(old(flags)@, index as int));
            }
            true
        },
        None => false,
    }
}

/// Plants one flag from the inventory at the throw target, clamped into the
/// field; fails without touching anything when the inventory is empty.
pub fn try_place_flag(
    flags: &mut Vec<Flag>,
    inventory: &mut u32,
    origin: Pos,
    offset: Pos,
    field: FieldRect,
) -> (r: bool)
    requires
        in_bounds(origin),
        in_bounds(offset),
        rect_in_bounds(field),
    ensures
        r == (*old(inventory) > 0),
        r ==> *final(inventory) == *old(inventory) - 1 && final(flags)@ == old(flags)@.push(
            Flag { pos: place_pos(origin, offset, field) },
        ),
        !r ==> *final(inventory) == *old(inventory) && final(flags)@ == old(flags)@,
        in_bounds(place_pos(origin, offset, field)),
{
    if *inventory == 0 {
        return false;
    }
    *inventory = *inventory - 1;
    let mut px = origin.x + offset.x;
    let mut py = origin.y + offset.y;
    if px < field.x {
        px = field.x;
    }
    if px > field.x + field.w {
        px = field.x + field.w;
    }
    if py < field.y {
        py = field.y;
    }
    if py > field.y + field.h {
        py = field.y + field.h;
    }
    let pos = Pos { x: px, y: py };
    flags.push(make_flag(pos));
    true
}

} // verus!
