//! Flag inventory bookkeeping: flags standing on the ground, flags in the
//! player's hands, and flags with the wandering thieves. Every move between
//! the pools is exact, so the fixed total the game was set up with can be
//! checked against the books at any time.

use vstd::prelude::*;

use crate::flags::{
    all_in_bounds, any_within, make_flag, picks_last_nearest, place_pos, swap_removed,
    try_pickup_flag, try_place_flag, Flag,
};
use crate::geometry::{dist2, dist2_i64, in_bounds, rect_in_bounds, FieldRect, Pos, COORD_LIMIT};

verus! {

/// One pass of the greedy hand-over: scan the ground flags from `idx`,
/// swap-removing each flag within squared reach `r2` of `pos` while the
/// thief still has capacity. Yields the ground that remains, the thief's new
/// count, and whether anything moved.
pub open spec fn transfer_result(
    ground: Seq<Flag>,
    idx: int,
    hippie: u8,
    capacity: u8,
    pos: Pos,
    r2: int,
) -> (Seq<Flag>, u8, bool)
    decreases ground.len() - idx,
    when 0 <= idx <= ground.len()
{
    if idx >= ground.len() || hippie >= capacity {
        (ground, hippie, false)
    } else if dist2(ground[idx].pos, pos) <= r2 {
        let rest = transfer_result(
            swap_removed(ground, idx),
            idx,
            (hippie + 1) as u8,
            capacity,
            pos,
            r2,
        );
        (rest.0, rest.1, true)
    } else {
        transfer_result(ground, idx + 1, hippie, capacity, pos, r2)
    }
}

/// The flag pools of one game: flags on the ground, flags the player
/// carries, and the fixed total the bookkeeping is held against.
#[derive(Clone, Debug)]
pub struct FlagState {
    ground: Vec<Flag>,
    player: u32,
    total: u32,
}

impl FlagState {
    /// The flags standing on the ground.
    pub closed spec fn spec_ground(self) -> Seq<Flag> {
        self.ground@
    }

    /// How many flags the player carries.
    pub closed spec fn spec_player(self) -> u32 {
        self.player
    }

    /// The fixed total the bookkeeping is held against.
    pub closed spec fn spec_total(self) -> u32 {
        self.total
    }

    /// Ground flags stay within the coordinate window.
    pub open spec fn wf(self) -> bool {
        all_in_bounds(self.spec_ground())
    }

    pub fn new(ground: Vec<Flag>, player: u32, total: u32) -> (r: Self)
        requires
            ground@.len() + player <= total,
            all_in_bounds(ground@),
        ensures
            r.spec_ground() == ground@,
            r.spec_player() == player,
            r.spec_total() == total,
            r.wf(),
    {
        Self { ground, player, total }
    }

    pub fn ground_flags(&self) -> (r: &Vec<Flag>)
        ensures
            r@ == self.spec_ground(),
    {
        &self.ground
    }

    pub fn player_inventory(&self) -> (r: u32)
        ensures
            r == self.spec_player(),
    {
        self.player
    }

    /// Flags in play right now: on the ground, with the player, and the
    /// given count with the thieves.
    pub fn current_total(&self, hippie_flags: u32) -> (r: u32)
        requires
            self.spec_ground().len() + self.spec_player() + hippie_flags <= u32::MAX,
        ensures
            r == self.spec_ground().len() + self.spec_player() + hippie_flags,
    {
        (self.ground.len() as u32) + self.player + hippie_flags
    }

    /// The bookkeeping check: callers must only invoke it when the books
    /// balance. Since that is a precondition, the check is discharged by the
    /// verifier and nothing is left to test at run time.
    pub fn debug_assert_invariant(&self, hippie_flags: u32)
        requires
            self.spec_ground().len() + self.spec_player() + hippie_flags == self.spec_total(),
    {
    }

    /// Plants one carried flag at the throw target, clamped into the field;
    /// fails without touching anything when the player carries none.
    pub fn try_place_from_player(&mut self, origin: Pos, offset: Pos, field: FieldRect) -> (r:
        bool)
        requires
            in_bounds(origin),
            in_bounds(offset),
            rect_in_bounds(field),
            old(self).wf(),
        ensures
            r == (old(self).spec_player() > 0),
            r ==> final(self).spec_player() == old(self).spec_player() - 1 && final(self).spec_ground() == old(self).spec_ground().push(
                Flag { pos: place_pos(origin, offset, field) },
            ),
            !r ==> final(self).spec_player() == old(self).spec_player() && final(self).spec_ground() == old(self).spec_ground(),
            final(self).spec_total() == old(self).spec_total(),
            final(self).wf(),
    {
        let placed = try_place_flag(&mut self.ground, &mut self.player, origin, offset, field);
        proof {
            assert forall|i: int| 0 <= i < self.ground@.len() implies in_bounds(
                #[trigger] self.ground@[i].pos,
            ) by {
                if i < old(self).spec_ground().len() {
                    assert(in_bounds(old(self).spec_ground()[i].pos));
                }
            }
        }
        placed
    }

    /// Picks up the nearest ground flag within `radius` of the origin, if
    /// any, into the player's hands; the carried count saturates at its
    /// ceiling.
    pub fn try_pickup_to_player(&mut self, origin: Pos, radius: i64) -> (r: bool)
        requires
            in_bounds(origin),
            old(self).wf(),
            -COORD_LIMIT <= radius <= COORD_LIMIT,
        ensures
            r == any_within(old(self).spec_ground(), origin, radius * radius),
            r ==> exists|i: int|
                picks_last_nearest(old(self).spec_ground(), origin, radius * radius, i) && final(self).spec_ground() == #[trigger] swap_removed(old(self).spec_ground(), i),
            r ==> final(self).spec_player() == (if old(self).spec_player() < u32::MAX {
                old(self).spec_player() + 1
            } else {
                u32::MAX as int
            }),
            !r ==> final(self).spec_ground() == old(self).spec_ground() && final(self).spec_player() == old(self).spec_player(),
            final(self).spec_total() == old(self).spec_total(),
            final(self).wf(),
    {
        if try_pickup_flag(&mut self.ground, origin, radius) {
            self.player = self.player.saturating_add(1);
            true
        } else {
            false
        }
    }

    /// Takes one flag from a thief's hands into the player's; the carried
    /// count saturates at its ceiling.
    pub fn steal_from_hippie(&mut self, hippie_flags: &mut u8) -> (r: bool)
        ensures
            r == (*old(hippie_flags) > 0),
            r ==> *final(hippie_flags) == *old(hippie_flags) - 1 && final(self).spec_player() == (
            if old(self).spec_player() < u32::MAX {
                old(self).spec_player() + 1
            } else {
                u32::MAX as int
            }),
            !r ==> *final(hippie_flags) == *old(hippie_flags) && final(self).spec_player() == old(self).spec_player(),
            final(self).spec_ground() == old(self).spec_ground(),
            final(self).spec_total() == old(self).spec_total(),
    {
        if *hippie_flags == 0 {
            return false;
        }
        *hippie_flags = *hippie_flags - 1;
        self.player = self.player.saturating_add(1);
        true
    }

    /// A thief gathers every ground flag within `radius` of its position,
    /// one scan, until it reaches its carrying capacity.
    pub fn transfer_ground_to_hippie(
        &mut self,
        hippie_flags: &mut u8,
        capacity: u8,
        pos: Pos,
        radius: i64,
    ) -> (r: bool)
        requires
            in_bounds(pos),
            old(self).wf(),
            -COORD_LIMIT <= radius <= COORD_LIMIT,
        ensures
            ({
                let t = transfer_result(
                    old(self).spec_ground(),
                    0,
                    *old(hippie_flags),
                    capacity,
                    pos,
                    radius * radius,
                );
                final(self).spec_ground() == t.0 && *final(hippie_flags) == t.1 && r == t.2
            }),
            final(self).spec_player() == old(self).spec_player(),
            final(self).spec_total() == old(self).spec_total(),
            final(self).wf(),
    {
        proof {
            assert(0 <= radius * radius <= 10_000_000_000) by (nonlinear_arith)
                requires
                    -100_000 <= radius <= 100_000,
            ;
        }
        let r2 = radius * radius;
        let mut picked = false;
        let mut index: usize = 0;
        while index < self.ground.len() && *hippie_flags < capacity
            invariant
                in_bounds(pos),
                all_in_bounds(self.ground@),
                r2 == radius * radius,
                index <= self.ground@.len(),
                self.player == old(self).spec_player(),
                self.total == old(self).spec_total(),
                ({
                    let t0 = transfer_result(
                        old(self).spec_ground(),
                        0,
                        *old(hippie_flags),
                        capacity,
                        pos,
                        r2 as int,
                    );
                    let t = transfer_result(
                        self.ground@,
                        index as int,
                        *hippie_flags,
                        capacity,
                        pos,
                        r2 as int,
                    );
                    t0.0 == t.0 && t0.1 == t.1 && t0.2 == (picked || t.2)
                }),
            decreases self.ground@.len() - index,
        {
            let flag_pos = self.ground[index].pos;
            let d2 = dist2_i64(flag_pos, pos);
            let ghost prev_ground = self.ground@;
            if d2 <= r2 {
                self.ground.swap_remove(index);
                *hippie_flags = *hippie_flags + 1;
                picked = true;
                proof {
                    assert(self.ground@ == swap_removed(prev_ground, index as int));
                    assert forall|i: int| 0 <= i < self.ground@.len() implies in_bounds(
                        #[trigger] self.ground@[i].pos,
                    ) by {
                        assert(in_bounds(prev_ground[i].pos) && in_bounds(
                            prev_ground[prev_ground.len() - 1].pos,
                        ));
                    }
                }
            } else {
                index = index + 1;
            }
        }
        picked
    }

    /// A thief drops up to `count` of its flags onto the ground at `pos`.
    pub fn drop_from_hippie(&mut self, hippie_flags: &mut u8, count: u8, pos: Pos) -> (r: u8)
        requires
            in_bounds(pos),
            old(self).wf(),
        ensures
            r == (if count <= *old(hippie_flags) {
                count
            } else {
                *old(hippie_flags)
            }),
            *final(hippie_flags) == *old(hippie_flags) - r,
            final(self).spec_ground() == old(self).spec_ground() + Seq::new(
                r as nat,
                |i: int| Flag { pos },
            ),
            final(self).spec_player() == old(self).spec_player(),
            final(self).spec_total() == old(self).spec_total(),
            final(self).wf(),
    {
        let dropped = if count < *hippie_flags {
            count
        } else {
            *hippie_flags
        };
        if dropped == 0 {
            proof {
                assert(self.ground@ =~= self.ground@ + Seq::new(0, |i: int| Flag { pos }));
            }
            return 0;
        }
        *hippie_flags = *hippie_flags - dropped;
        let mut k: u8 = 0;
        while k < dropped
            invariant
                in_bounds(pos),
                k <= dropped,
                self.ground@ == old(self).spec_ground() + Seq::new(k as nat, |i: int| Flag { pos }),
                self.player == old(self).spec_player(),
                self.total == old(self).spec_total(),
                all_in_bounds(old(self).spec_ground()),
            decreases dropped - k,
        {
            self.ground.push(make_flag(pos));
            k = k + 1;
            proof {
                assert(old(self).spec_ground() + Seq::new(k as nat, |i: int| Flag { pos })
                    =~= (old(self).spec_ground() + Seq::new((k - 1) as nat, |i: int| Flag { pos })).push(
                    Flag { pos },
                ));
            }
        }
        proof {
            assert forall|i: int| 0 <= i < self.ground@.len() implies in_bounds(
                #[trigger] self.ground@[i].pos,
            ) by {
                if i < old(self).spec_ground().len() {
                    assert(in_bounds(old(self).spec_ground()[i].pos));
                }
            }
        }
        dropped
    }

    /// A thief takes up to `max_count` flags from the player; whatever
    /// exceeds the thief's carrying capacity lands on the ground at `pos`.
    pub fn steal_from_player_to_hippie(
        &mut self,
        hippie_flags: &mut u8,
        capacity: u8,
        pos: Pos,
        max_count: u32,
    ) -> (r: u32)
        requires
            in_bounds(pos),
            old(self).wf(),
        ensures
            r == (if max_count <= old(self).spec_player() {
                max_count
            } else {
                old(self).spec_player()
            }),
            final(self).spec_player() == old(self).spec_player() - r,
            ({
                let gained: int = if *old(hippie_flags) >= capacity {
                    0
                } else if r <= capacity - *old(hippie_flags) {
                    r as int
                } else {
                    capacity - *old(hippie_flags)
                };
                *final(hippie_flags) == *old(hippie_flags) + gained && final(self).spec_ground()
                    == old(self).spec_ground() + Seq::new((r - gained) as nat, |i: int| Flag { pos })
            }),
            final(self).spec_total() == old(self).spec_total(),
            final(self).wf(),
    {
        let stolen = if max_count < self.player {
            max_count
        } else {
            self.player
        };
        if stolen == 0 {
            proof {
                assert(self.ground@ =~= self.ground@ + Seq::new(0, |i: int| Flag { pos }));
            }
            return 0;
        }
        self.player = self.player - stolen;
        let ghost h0 = *hippie_flags;
        let mut remaining = stolen;
        while remaining > 0
            invariant
                in_bounds(pos),
                remaining <= stolen,
                self.player == old(self).spec_player() - stolen,
                self.total == old(self).spec_total(),
                all_in_bounds(old(self).spec_ground()),
                h0 == *old(hippie_flags),
                ({
                    let processed: int = stolen - remaining;
                    let gained: int = if h0 >= capacity {
                        0
                    } else if processed <= capacity - h0 {
                        processed
                    } else {
                        capacity - h0
                    };
                    *hippie_flags == h0 + gained && self.ground@ == old(self).spec_ground()
                        + Seq::new((processed - gained) as nat, |i: int| Flag { pos })
                }),
            decreases remaining,
        {
            let ghost prev_ground = self.ground@;
            let ghost prev_processed: int = stolen - remaining;
            if *hippie_flags < capacity {
                *hippie_flags = *hippie_flags + 1;
            } else {
                self.ground.push(make_flag(pos));
                proof {
                    let gained: int = if h0 >= capacity {
                        0
                    } else if prev_processed + 1 <= capacity - h0 {
                        prev_processed + 1
                    } else {
                        capacity - h0
                    };
                    assert(old(self).spec_ground() + Seq::new(
                        (prev_processed + 1 - gained) as nat,
                        |i: int| Flag { pos },
                    ) =~= prev_ground.push(Flag { pos }));
                }
            }
            remaining = remaining - 1;
        }
        proof {
            assert forall|i: int| 0 <= i < self.ground@.len() implies in_bounds(
                #[trigger] self.ground@[i].pos,
            ) by {
                if i < old(self).spec_ground().len() {
                    assert(in_bounds(old(self).spec_ground()[i].pos));
                }
            }
        }
        stolen
    }
}

} // verus!
