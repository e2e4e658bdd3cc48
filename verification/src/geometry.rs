//! Integer 2D points, squared distances, and a floor square root.

use vstd::prelude::*;

verus! {

/// Largest coordinate magnitude the library accepts. Keeping coordinates in
/// this window guarantees that every product formed by the geometry code
/// (squared distances, centroid offsets, cross and dot products scaled by the
/// tangent thresholds) fits comfortably in an `i64`.
pub const COORD_LIMIT: i64 = 100_000;

/// A marker position on the integer world grid.
#[derive(Clone, Copy, Debug, PartialEq, Eq, Structural)]
pub struct Pos {
    pub x: i64,
    pub y: i64,
}

/// Both coordinates lie within the accepted window.
pub open spec fn in_bounds(p: Pos) -> bool {
    -COORD_LIMIT <= p.x <= COORD_LIMIT && -COORD_LIMIT <= p.y <= COORD_LIMIT
}

/// Squared Euclidean distance between two points.
pub open spec fn dist2(a: Pos, b: Pos) -> int {
    (a.x - b.x) * (a.x - b.x) + (a.y - b.y) * (a.y - b.y)
}

pub proof fn lemma_dist2_nonneg(a: Pos, b: Pos)
    ensures
        dist2(a, b) >= 0,
{
    let dx = a.x - b.x;
    let dy = a.y - b.y;
    assert(dx * dx >= 0 && dy * dy >= 0) by (nonlinear_arith)
        requires
            dx == a.x - b.x,
            dy == a.y - b.y,
    ;
}

pub proof fn lemma_dist2_sym(a: Pos, b: Pos)
    ensures
        dist2(a, b) == dist2(b, a),
{
    assert((a.x - b.x) * (a.x - b.x) == (b.x - a.x) * (b.x - a.x) && (a.y - b.y) * (a.y - b.y)
        == (b.y - a.y) * (b.y - a.y)) by (nonlinear_arith);
}

/// Squared distance of two in-bounds points, computed without overflow.
pub fn dist2_i64(a: Pos, b: Pos) -> (r: i64)
    requires
        in_bounds(a),
        in_bounds(b),
    ensures
        r == dist2(a, b),
        0 <= r <= 80_000_000_000,
{
    let dx = a.x - b.x;
    let dy = a.y - b.y;
    proof {
        assert(0 <= dx * dx <= 40_000_000_000 && 0 <= dy * dy <= 40_000_000_000)
            by (nonlinear_arith)
            requires
                -200_000 <= dx <= 200_000,
                -200_000 <= dy <= 200_000,
        ;
    }
    dx * dx + dy * dy
}

/// The floor of the square root of `n` (0 for negative `n`).
pub open spec fn sqrt_floor(n: int) -> int
    decreases n,
{
    if n <= 0 {
        0
    } else {
        let r = sqrt_floor(n - 1);
        if (r + 1) * (r + 1) <= n {
            r + 1
        } else {
            r
        }
    }
}

pub proof fn lemma_sqrt_floor_bounds(n: int)
    requires
        n >= 0,
    ensures
        sqrt_floor(n) >= 0,
        sqrt_floor(n) * sqrt_floor(n) <= n,
        n < (sqrt_floor(n) + 1) * (sqrt_floor(n) + 1),
    decreases n,
{
    if n > 0 {
        lemma_sqrt_floor_bounds(n - 1);
        let r = sqrt_floor(n - 1);
        if (r + 1) * (r + 1) <= n {
            assert(n < ((r + 1) + 1) * ((r + 1) + 1)) by (nonlinear_arith)
                requires
                    r >= 0,
                    n <= (r + 1) * (r + 1),
            ;
        }
    }
}

/// The floor square root is the only nonnegative `r` with
/// `r^2 <= n < (r + 1)^2`.
pub proof fn lemma_sqrt_floor_unique(n: int, r: int)
    requires
        n >= 0,
        r >= 0,
        r * r <= n,
        n < (r + 1) * (r + 1),
    ensures
        r == sqrt_floor(n),
{
    lemma_sqrt_floor_bounds(n);
    let s = sqrt_floor(n);
    if r < s {
        assert((r + 1) * (r + 1) <= s * s) by (nonlinear_arith)
            requires
                0 <= r,
                r < s,
        ;
    }
    if s < r {
        assert((s + 1) * (s + 1) <= r * r) by (nonlinear_arith)
            requires
                0 <= s,
                s < r,
        ;
    }
}

pub proof fn lemma_sqrt_floor_monotone(a: int, b: int)
    requires
        0 <= a <= b,
    ensures
        sqrt_floor(a) <= sqrt_floor(b),
{
    lemma_sqrt_floor_bounds(a);
    lemma_sqrt_floor_bounds(b);
    let ra = sqrt_floor(a);
    let rb = sqrt_floor(b);
    if rb < ra {
        assert((rb + 1) * (rb + 1) <= ra * ra) by (nonlinear_arith)
            requires
                0 <= rb,
                rb < ra,
        ;
    }
}

/// Floor square root by binary search.
pub fn isqrt(n: u64) -> (r: u64)
    requires
        n <= 4_000_000_000_000,
    ensures
        r == sqrt_floor(n as int),
        r * r <= n,
        (n as int) < (r + 1) * (r + 1),
        r <= 2_000_000,
{
    let mut lo: u64 = 0;
    let mut hi: u64 = 2_000_001;
    proof {
        assert(2_000_001 * 2_000_001 == 4_000_004_000_001) by (nonlinear_arith);
    }
    while lo + 1 < hi
        invariant
            lo < hi <= 2_000_001,
            lo * lo <= n,
            (n as int) < hi * hi,
            n <= 4_000_000_000_000,
        decreases hi - lo,
    {
        let mid = lo + (hi - lo) / 2;
        proof {
            assert(mid * mid <= 4_000_004_000_001) by (nonlinear_arith)
                requires
                    0 <= mid <= 2_000_001,
            ;
        }
        if mid * mid <= n {
            lo = mid;
        } else {
            hi = mid;
        }
    }
    proof {
        lemma_sqrt_floor_unique(n as int, lo as int);
    }
    lo
}

} // verus!

verus! {

/// A rectangular field: corner at `(x, y)`, extending `w` by `h`.
#[derive(Clone, Copy, Debug, PartialEq, Eq, Structural)]
pub struct FieldRect {
    pub x: i64,
    pub y: i64,
    pub w: i64,
    pub h: i64,
}

/// The rectangle lies within the coordinate window, so its sides are
/// nonnegative and clamping into it lands in bounds.
pub open spec fn rect_in_bounds(r: FieldRect) -> bool {
    &&& -COORD_LIMIT <= r.x && r.x + r.w <= COORD_LIMIT && r.w >= 0
    &&& -COORD_LIMIT <= r.y && r.y + r.h <= COORD_LIMIT && r.h >= 0
}

/// `v` clamped into `[lo, hi]`.
pub open spec fn clamped(v: int, lo: int, hi: int) -> int {
    if v < lo {
        lo
    } else if v > hi {
        hi
    } else {
        v
    }
}

} // verus!
