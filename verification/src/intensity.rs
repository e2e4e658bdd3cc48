//! Edge brightness derived from the distance between two markers.
//!
//! An edge at distance `d` of a threshold `max_distance` glows with intensity
//! `(1 - d / max_distance)^2`, clamped to `[0, 1]`. The library reports that
//! value in parts per million: `0` at the threshold, `INTENSITY_SCALE` as the
//! distance approaches zero, monotonically brighter the closer the pair.

use vstd::arithmetic::div_mod::{lemma_div_is_ordered, lemma_div_pos_is_pos};
use vstd::prelude::*;

use crate::geometry::{isqrt, lemma_sqrt_floor_monotone, lemma_sqrt_floor_unique, sqrt_floor,
    COORD_LIMIT};

verus! {

/// One full unit of intensity, in parts per million.
pub const INTENSITY_SCALE: u32 = 1_000_000;

/// Intensity of an edge with squared length `d2` under threshold `md`,
/// in parts per million: the floor of `(md - sqrt(d2))^2 / md^2 * 10^6`.
pub open spec fn intensity_of(d2: int, md: int) -> int
    recommends
        1 <= md,
        0 <= d2 <= md * md,
{
    let t = md - sqrt_floor(d2);
    (t * t * (INTENSITY_SCALE as int)) / (md * md)
}

/// The rounded root of `d2` never exceeds `md` when `d2 <= md^2`.
proof fn lemma_root_at_most(d2: int, md: int)
    requires
        1 <= md,
        0 <= d2 <= md * md,
    ensures
        0 <= sqrt_floor(d2) <= md,
{
    crate::geometry::lemma_sqrt_floor_bounds(d2);
    lemma_sqrt_floor_monotone(d2, md * md);
    assert(md * md < (md + 1) * (md + 1)) by (nonlinear_arith)
        requires
            1 <= md,
    ;
    lemma_sqrt_floor_unique(md * md, md);
}

/// Every intensity lies between 0 and one full unit.
pub proof fn lemma_intensity_bounds(d2: int, md: int)
    requires
        1 <= md,
        0 <= d2 <= md * md,
    ensures
        0 <= intensity_of(d2, md) <= INTENSITY_SCALE,
{
    lemma_root_at_most(d2, md);
    let t = md - sqrt_floor(d2);
    let scale = INTENSITY_SCALE as int;
    assert(0 <= t * t * scale <= md * md * scale) by (nonlinear_arith)
        requires
            0 <= t <= md,
            scale == 1_000_000,
    ;
    lemma_div_pos_is_pos(t * t * scale, md * md);
    lemma_div_is_ordered(t * t * scale, md * md * scale, md * md);
    assert((md * md * scale) / (md * md) == scale) by (nonlinear_arith)
        requires
            1 <= md,
            scale == 1_000_000,
    ;
}

/// Of two edges under the same threshold, the closer pair's intensity is
/// never less than the farther pair's.
pub proof fn lemma_intensity_monotone(d2a: int, d2b: int, md: int)
    requires
        1 <= md,
        0 <= d2a <= d2b <= md * md,
    ensures
        intensity_of(d2a, md) >= intensity_of(d2b, md),
{
    lemma_root_at_most(d2a, md);
    lemma_root_at_most(d2b, md);
    lemma_sqrt_floor_monotone(d2a, d2b);
    let ta = md - sqrt_floor(d2a);
    let tb = md - sqrt_floor(d2b);
    let scale = INTENSITY_SCALE as int;
    assert(tb * tb * scale <= ta * ta * scale) by (nonlinear_arith)
        requires
            0 <= tb <= ta,
            scale == 1_000_000,
    ;
    lemma_div_is_ordered(tb * tb * scale, ta * ta * scale, md * md);
}

/// Parts-per-million intensity for an edge of squared length `d2`.
pub fn compute_intensity(d2: i64, md: i64) -> (r: u32)
    requires
        1 <= md <= COORD_LIMIT,
        0 <= d2 <= md * md,
    ensures
        r == intensity_of(d2 as int, md as int),
        r <= INTENSITY_SCALE,
{
    proof {
        assert(md * md <= 10_000_000_000) by (nonlinear_arith)
            requires
                1 <= md <= 100_000,
        ;
    }
    let d = isqrt(d2 as u64);
    proof {
        lemma_root_at_most(d2 as int, md as int);
    }
    let t = (md as u64) - d;
    proof {
        assert(t * t * 1_000_000 <= 10_000_000_000_000_000 && t * t <= 10_000_000_000)
            by (nonlinear_arith)
            requires
                0 <= t <= 100_000,
        ;
    }
    let num = t * t * (INTENSITY_SCALE as u64);
    let den = (md as u64) * (md as u64);
    proof {
        assert(1 <= (md as u64) * (md as u64)) by (nonlinear_arith)
            requires
                1 <= md as u64,
        ;
    }
    let q = num / den;
    proof {
        lemma_intensity_bounds(d2 as int, md as int);
    }
    q as u32
}

} // verus!
