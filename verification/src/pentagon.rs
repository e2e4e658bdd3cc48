//! The pentagon regularity test for one 5-clique.
//!
//! The five corners are judged around their common centroid. To stay on the
//! integer grid the centroid is carried five-fold (the plain coordinate sums),
//! so every corner offset `5 * p - sum` is exact. Corner radii use the floor
//! square root of the five-fold squared offset; the angular walk around the
//! centroid is decided without any trigonometry, by quadrant classes and
//! cross products, and each angular gap is compared against the ideal fifth
//! of a turn through fixed rational tangent thresholds.

use vstd::prelude::*;
use vstd::relations::{sorted_by, total_ordering};
use vstd::seq_lib::lemma_sorted_unique;

use crate::geometry::{dist2, dist2_i64, in_bounds, isqrt, sqrt_floor, Pos, COORD_LIMIT};

verus! {

/// One corner during validation: the five-fold offset from the centroid
/// (`dx = 5 * x - sum of the five xs`, likewise `dy`) and the marker
/// position itself.
#[derive(Clone, Copy, Debug, PartialEq, Eq, Structural)]
pub struct Corner {
    pub dx: i64,
    pub dy: i64,
    pub px: i64,
    pub py: i64,
}

/// Offsets stay within five-fold coordinate range, positions within the
/// coordinate window; all products the validator forms then fit in `i64`.
pub open spec fn corner_bounded(c: Corner) -> bool {
    &&& -1_000_000 <= c.dx <= 1_000_000
    &&& -1_000_000 <= c.dy <= 1_000_000
    &&& -COORD_LIMIT <= c.px <= COORD_LIMIT
    &&& -COORD_LIMIT <= c.py <= COORD_LIMIT
}

/// Quadrant class of a corner's offset in `atan2` order: angles in
/// `(-pi, 0)` first, then `0`, then `(0, pi)`, then `pi` itself.
pub open spec fn cls(u: Corner) -> int {
    if u.dy < 0 {
        0
    } else if u.dy == 0 && u.dx >= 0 {
        1
    } else if u.dy > 0 {
        2
    } else {
        3
    }
}

/// Cross product of the two offsets.
pub open spec fn crossd(u: Corner, v: Corner) -> int {
    u.dx * v.dy - u.dy * v.dx
}

/// Dot product of the two offsets.
pub open spec fn dotd(u: Corner, v: Corner) -> int {
    u.dx * v.dx + u.dy * v.dy
}

/// `u`'s offset points at a strictly smaller `atan2` angle than `v`'s.
/// Within the open half-planes (classes 0 and 2) two offsets are at most a
/// straight angle apart, so the sign of their cross product decides.
pub open spec fn angle_lt(u: Corner, v: Corner) -> bool {
    cls(u) < cls(v) || (cls(u) == cls(v) && (cls(u) == 0 || cls(u) == 2) && crossd(u, v) > 0)
}

/// Lexicographic order on the raw fields; breaks ties among parallel offsets.
pub open spec fn field_leq(u: Corner, v: Corner) -> bool {
    if u.dx != v.dx {
        u.dx < v.dx
    } else if u.dy != v.dy {
        u.dy < v.dy
    } else if u.px != v.px {
        u.px < v.px
    } else {
        u.py <= v.py
    }
}

/// The total order the corners are sorted by: ascending angle, ties by the
/// raw fields.
pub open spec fn angle_leq(u: Corner, v: Corner) -> bool {
    angle_lt(u, v) || (!angle_lt(u, v) && !angle_lt(v, u) && field_leq(u, v))
}

/// `angle_leq` as a relation value, for the sequence sorting machinery.
pub open spec fn corner_order() -> spec_fn(Corner, Corner) -> bool {
    |u: Corner, v: Corner| angle_leq(u, v)
}

proof fn lemma_cross_antisym(u: Corner, v: Corner)
    ensures
        crossd(u, v) == -crossd(v, u),
{
    assert(u.dx * v.dy - u.dy * v.dx == -(v.dx * u.dy - v.dy * u.dx)) by (nonlinear_arith);
}

proof fn lemma_cross_self(u: Corner)
    ensures
        crossd(u, u) == 0,
{
    assert(u.dx * u.dy - u.dy * u.dx == 0) by (nonlinear_arith);
}

/// Composing two counterclockwise-or-parallel turns inside one open
/// half-plane stays counterclockwise-or-parallel, and strictly so when
/// either step is strict. Rests on the linear-dependence identity
/// `crossd(u, w) * v.dy == crossd(u, v) * w.dy + crossd(v, w) * u.dy`.
proof fn lemma_cross_halfplane(u: Corner, v: Corner, w: Corner)
    requires
        (u.dy < 0 && v.dy < 0 && w.dy < 0) || (u.dy > 0 && v.dy > 0 && w.dy > 0),
        crossd(u, v) >= 0,
        crossd(v, w) >= 0,
    ensures
        crossd(u, w) >= 0,
        crossd(u, v) > 0 || crossd(v, w) > 0 ==> crossd(u, w) > 0,
{
    let cuv = crossd(u, v);
    let cvw = crossd(v, w);
    let cuw = crossd(u, w);
    assert(cuw * v.dy == cuv * w.dy + cvw * u.dy) by (nonlinear_arith)
        requires
            cuv == u.dx * v.dy - u.dy * v.dx,
            cvw == v.dx * w.dy - v.dy * w.dx,
            cuw == u.dx * w.dy - u.dy * w.dx,
    ;
    if u.dy < 0 {
        assert(cuw >= 0 && (cuv > 0 || cvw > 0 ==> cuw > 0)) by (nonlinear_arith)
            requires
                cuw * v.dy == cuv * w.dy + cvw * u.dy,
                u.dy < 0,
                v.dy < 0,
                w.dy < 0,
                cuv >= 0,
                cvw >= 0,
        ;
    } else {
        assert(cuw >= 0 && (cuv > 0 || cvw > 0 ==> cuw > 0)) by (nonlinear_arith)
            requires
                cuw * v.dy == cuv * w.dy + cvw * u.dy,
                u.dy > 0,
                v.dy > 0,
                w.dy > 0,
                cuv >= 0,
                cvw >= 0,
        ;
    }
}

proof fn lemma_angle_lt_asym(u: Corner, v: Corner)
    ensures
        angle_lt(u, v) ==> !angle_lt(v, u),
{
    lemma_cross_antisym(u, v);
}

proof fn lemma_angle_trans(u: Corner, v: Corner, w: Corner)
    requires
        !angle_lt(v, u),
        !angle_lt(w, v),
    ensures
        angle_lt(u, v) || angle_lt(v, w) ==> angle_lt(u, w),
        !angle_lt(u, v) && !angle_lt(v, w) ==> !angle_lt(u, w) && !angle_lt(w, u),
{
    lemma_cross_antisym(u, v);
    lemma_cross_antisym(v, w);
    lemma_cross_antisym(u, w);
    if cls(u) == cls(v) && cls(v) == cls(w) && (cls(u) == 0 || cls(u) == 2) {
        lemma_cross_halfplane(u, v, w);
        if !angle_lt(u, v) && !angle_lt(v, w) {
            lemma_cross_halfplane(w, v, u);
        }
    }
}

/// The corner order is a total order, as the sorting lemmas require.
proof fn lemma_corner_order_total()
    ensures
        total_ordering(corner_order()),
{
    let r = corner_order();
    assert forall|x: Corner| #[trigger] r(x, x) by {
        lemma_cross_self(x);
    }
    assert forall|x: Corner, y: Corner| #[trigger] r(x, y) && #[trigger] r(y, x) implies x == y by {
        lemma_angle_lt_asym(x, y);
        lemma_angle_lt_asym(y, x);
    }
    assert forall|x: Corner, y: Corner, z: Corner| #[trigger] r(x, y) && #[trigger] r(y, z)
        implies r(x, z) by {
        lemma_angle_lt_asym(x, y);
        lemma_angle_lt_asym(y, z);
        lemma_angle_trans(x, y, z);
    }
    assert forall|x: Corner, y: Corner| #[trigger] r(x, y) || #[trigger] r(y, x) by {
        lemma_angle_lt_asym(x, y);
        lemma_angle_lt_asym(y, x);
    }
}

/// Decides `angle_leq` on two bounded corners.
fn corner_leq(u: Corner, v: Corner) -> (r: bool)
    requires
        corner_bounded(u),
        corner_bounded(v),
    ensures
        r == angle_leq(u, v),
{
    proof {
        assert(-2_000_000_000_000 <= u.dx * v.dy <= 2_000_000_000_000 && -2_000_000_000_000 <= u.dy
            * v.dx <= 2_000_000_000_000 && -2_000_000_000_000 <= v.dx * u.dy <= 2_000_000_000_000
            && -2_000_000_000_000 <= v.dy * u.dx <= 2_000_000_000_000) by (nonlinear_arith)
            requires
                -1_000_000 <= u.dx <= 1_000_000,
                -1_000_000 <= u.dy <= 1_000_000,
                -1_000_000 <= v.dx <= 1_000_000,
                -1_000_000 <= v.dy <= 1_000_000,
        ;
    }
    let cu: u8 = if u.dy < 0 {
        0
    } else if u.dy == 0 && u.dx >= 0 {
        1
    } else if u.dy > 0 {
        2
    } else {
        3
    };
    let cv: u8 = if v.dy < 0 {
        0
    } else if v.dy == 0 && v.dx >= 0 {
        1
    } else if v.dy > 0 {
        2
    } else {
        3
    };
    if cu < cv {
        true
    } else if cv < cu {
        false
    } else if (cu == 0 || cu == 2) && u.dx * v.dy - u.dy * v.dx > 0 {
        true
    } else if (cu == 0 || cu == 2) && v.dx * u.dy - v.dy * u.dx > 0 {
        false
    } else {
        proof {
            lemma_cross_antisym(u, v);
        }
        if u.dx != v.dx {
            u.dx < v.dx
        } else if u.dy != v.dy {
            u.dy < v.dy
        } else if u.px != v.px {
            u.px < v.px
        } else {
            u.py <= v.py
        }
    }
}

/// Sorts the corners by ascending angle; the result is exactly the
/// specification-level sort.
fn sort_corners(v: &Vec<Corner>) -> (out: Vec<Corner>)
    requires
        forall|k: int| 0 <= k < v@.len() ==> corner_bounded(#[trigger] v@[k]),
    ensures
        out@ == v@.sort_by(corner_order()),
        out@.len() == v@.len(),
        forall|k: int| 0 <= k < out@.len() ==> corner_bounded(#[trigger] out@[k]),
{
    broadcast use vstd::seq_lib::group_to_multiset_ensures;

    proof {
        lemma_corner_order_total();
        v@.lemma_sort_by_ensures(corner_order());
    }
    let mut out: Vec<Corner> = Vec::new();
    let n = v.len();
    for idx in 0..n
        invariant
            n == v@.len(),
            forall|k: int| 0 <= k < v@.len() ==> corner_bounded(#[trigger] v@[k]),
            forall|k: int| 0 <= k < out@.len() ==> corner_bounded(#[trigger] out@[k]),
            sorted_by(out@, corner_order()),
            out@.to_multiset() == v@.subrange(0, idx as int).to_multiset(),
            total_ordering(corner_order()),
    {
        let x = v[idx];
        let mut pos: usize = 0;
        while pos < out.len() && !corner_leq(x, out[pos])
            invariant
                pos <= out@.len(),
                forall|k: int| 0 <= k < out@.len() ==> corner_bounded(#[trigger] out@[k]),
                corner_bounded(x),
                forall|k: int| 0 <= k < pos ==> !angle_leq(x, #[trigger] out@[k]),
            decreases out@.len() - pos,
        {
            pos = pos + 1;
        }
        let ghost old_out = out@;
        out.insert(pos, x);
        proof {
            let r = corner_order();
            assert forall|i: int, j: int| 0 <= i < j < out@.len() implies #[trigger] r(
                out@[i],
                out@[j],
            ) by {
                if i < pos && j == pos {
                    assert(!angle_leq(x, old_out[i]));
                } else if i == pos && j > pos {
                    if pos < old_out.len() {
                        assert(r(x, old_out[pos as int]) || r(old_out[pos as int], x));
                        assert(angle_leq(x, old_out[pos as int]));
                        assert(r(old_out[pos as int], old_out[j - 1]) || pos == j - 1);
                    }
                } else if i < pos && j > pos {
                    assert(r(old_out[i], old_out[j - 1]));
                } else if j < pos {
                    assert(r(old_out[i], old_out[j]));
                } else if i > pos {
                    assert(r(old_out[i - 1], old_out[j - 1]));
                }
            }
            assert(v@.subrange(0, idx + 1) =~= v@.subrange(0, idx as int).push(x));
            assert(out@ == old_out.insert(pos as int, x));
            vstd::seq_lib::to_multiset_insert(old_out, pos as int, x);
            vstd::seq_lib::to_multiset_build(v@.subrange(0, idx as int), x);
        }
    }
    proof {
        assert(v@.subrange(0, n as int) =~= v@);
        lemma_sorted_unique(out@, v@.sort_by(corner_order()), corner_order());
        assert(out@.to_multiset().len() == out@.len());
        assert(v@.to_multiset().len() == v@.len());
    }
    out
}

} // verus!

verus! {

/// Numerator, in millionths, of the tangent of the flattest allowed gap
/// (a fifth of a turn minus the 0.7 radian tolerance).
pub const TAN_GAP_MIN_NUM: i64 = 622_275;

/// Numerator, in millionths, of the tangent of the widest allowed gap
/// (a fifth of a turn plus the 0.7 radian tolerance); negative because that
/// angle lies beyond a quarter turn.
pub const TAN_GAP_MAX_NUM: i64 = -2_461_835;

/// Common denominator of the tangent thresholds.
pub const TAN_DEN: i64 = 1_000_000;

/// The counterclockwise turn from `u`'s offset to `v`'s lies within the
/// angular tolerance of the ideal fifth of a turn. The turn is the `atan2`
/// of the pair (dot, cross): it must stay left of a straight angle
/// (`cross > 0`), reach the lower tangent threshold when it is still in the
/// first quarter (`dot > 0`), and not pass the upper threshold once it is in
/// the second (`dot < 0`).
pub open spec fn gap_ok(u: Corner, v: Corner) -> bool {
    &&& crossd(u, v) > 0
    &&& (dotd(u, v) <= 0 || crossd(u, v) * TAN_DEN >= dotd(u, v) * TAN_GAP_MIN_NUM)
    &&& (dotd(u, v) >= 0 || crossd(u, v) * TAN_DEN >= dotd(u, v) * TAN_GAP_MAX_NUM)
}

pub open spec fn min2(a: int, b: int) -> int {
    if a <= b {
        a
    } else {
        b
    }
}

pub open spec fn max2(a: int, b: int) -> int {
    if a >= b {
        a
    } else {
        b
    }
}

/// Sum of the five x coordinates: five times the centroid's x.
pub open spec fn sum_x(pts: Seq<Pos>) -> int {
    pts[0].x + pts[1].x + pts[2].x + pts[3].x + pts[4].x
}

/// Sum of the five y coordinates: five times the centroid's y.
pub open spec fn sum_y(pts: Seq<Pos>) -> int {
    pts[0].y + pts[1].y + pts[2].y + pts[3].y + pts[4].y
}

/// Corner `i`: its five-fold offset from the centroid, and its position.
pub open spec fn corner_of(pts: Seq<Pos>, i: int) -> Corner {
    Corner {
        dx: (5 * pts[i].x - sum_x(pts)) as i64,
        dy: (5 * pts[i].y - sum_y(pts)) as i64,
        px: pts[i].x,
        py: pts[i].y,
    }
}

pub open spec fn corners(pts: Seq<Pos>) -> Seq<Corner> {
    Seq::new(5, |i: int| corner_of(pts, i))
}

/// Squared five-fold distance of corner `i` from the centroid.
pub open spec fn offset2(pts: Seq<Pos>, i: int) -> int {
    let c = corner_of(pts, i);
    c.dx * c.dx + c.dy * c.dy
}

/// Five-fold radius of corner `i`, rounded down.
pub open spec fn radius5(pts: Seq<Pos>, i: int) -> int {
    sqrt_floor(offset2(pts, i))
}

pub open spec fn radius_sum(pts: Seq<Pos>) -> int {
    radius5(pts, 0) + radius5(pts, 1) + radius5(pts, 2) + radius5(pts, 3) + radius5(pts, 4)
}

pub open spec fn radius_min(pts: Seq<Pos>) -> int {
    min2(min2(min2(min2(radius5(pts, 0), radius5(pts, 1)), radius5(pts, 2)), radius5(pts, 3)),
        radius5(pts, 4))
}

pub open spec fn radius_max(pts: Seq<Pos>) -> int {
    max2(max2(max2(max2(radius5(pts, 0), radius5(pts, 1)), radius5(pts, 2)), radius5(pts, 3)),
        radius5(pts, 4))
}

/// The five corners lie on an approximately common circle: the radius spread
/// stays within 45 hundredths of the mean radius, and the corners do not all
/// coincide with the centroid. (With `s` the radius sum, the mean is `s / 5`,
/// so the spread test reads `100 * (max - min) <= 9 * s`.)
pub open spec fn radius_spread_ok(pts: Seq<Pos>) -> bool {
    &&& radius_sum(pts) > 0
    &&& 100 * (radius_max(pts) - radius_min(pts)) <= 9 * radius_sum(pts)
}

pub open spec fn corner_pos(c: Corner) -> Pos {
    Pos { x: c.px, y: c.py }
}

/// The cyclic successor in the angular walk.
pub open spec fn next1(i: int) -> int {
    if i == 4 {
        0
    } else {
        i + 1
    }
}

/// Two steps ahead in the angular walk: the other end of a diagonal.
pub open spec fn next2(i: int) -> int {
    if i >= 3 {
        i - 3
    } else {
        i + 2
    }
}

/// Every consecutive angular gap of the sorted corners is within tolerance.
pub open spec fn gaps_ok(sc: Seq<Corner>) -> bool {
    forall|i: int| 0 <= i < 5 ==> #[trigger] gap_ok(sc[i], sc[next1(i)])
}

/// Every diagonal of the angular walk stays within the edge threshold.
pub open spec fn diagonals_ok(sc: Seq<Corner>, md: int) -> bool {
    forall|i: int|
        0 <= i < 5 ==> #[trigger] dist2(corner_pos(sc[i]), corner_pos(sc[next2(i)])) <= md * md
}

/// The five corners in ascending angular order around their centroid.
pub open spec fn sorted_corners(pts: Seq<Pos>) -> Seq<Corner> {
    corners(pts).sort_by(corner_order())
}

/// The five points approximate a regular pentagon: common circle within the
/// radius tolerance, consecutive angular gaps near a fifth of a turn, and
/// all diagonals within the edge threshold.
pub open spec fn pentagon_ok(pts: Seq<Pos>, md: int) -> bool {
    &&& radius_spread_ok(pts)
    &&& gaps_ok(sorted_corners(pts))
    &&& diagonals_ok(sorted_corners(pts), md)
}

/// Decides `gap_ok` on two bounded corners.
fn gap_check(u: Corner, v: Corner) -> (r: bool)
    requires
        corner_bounded(u),
        corner_bounded(v),
    ensures
        r == gap_ok(u, v),
{
    proof {
        assert(-2_000_000_000_000 <= u.dx * v.dy - u.dy * v.dx <= 2_000_000_000_000
            && -2_000_000_000_000 <= u.dx * v.dx + u.dy * v.dy <= 2_000_000_000_000
            && -2_000_000_000_000 <= u.dx * v.dy <= 2_000_000_000_000 && -2_000_000_000_000 <= u.dy
            * v.dx <= 2_000_000_000_000 && -2_000_000_000_000 <= u.dx * v.dx <= 2_000_000_000_000
            && -2_000_000_000_000 <= u.dy * v.dy <= 2_000_000_000_000) by (nonlinear_arith)
            requires
                -1_000_000 <= u.dx <= 1_000_000,
                -1_000_000 <= u.dy <= 1_000_000,
                -1_000_000 <= v.dx <= 1_000_000,
                -1_000_000 <= v.dy <= 1_000_000,
        ;
    }
    let cross = u.dx * v.dy - u.dy * v.dx;
    let dot = u.dx * v.dx + u.dy * v.dy;
    proof {
        assert(-9_000_000_000_000_000_000 <= cross * TAN_DEN <= 9_000_000_000_000_000_000
            && -9_000_000_000_000_000_000 <= dot * TAN_GAP_MIN_NUM <= 9_000_000_000_000_000_000
            && -9_000_000_000_000_000_000 <= dot * TAN_GAP_MAX_NUM <= 9_000_000_000_000_000_000)
            by (nonlinear_arith)
            requires
                -2_000_000_000_000 <= cross <= 2_000_000_000_000,
                -2_000_000_000_000 <= dot <= 2_000_000_000_000,
        ;
    }
    cross > 0 && (dot <= 0 || cross * TAN_DEN >= dot * TAN_GAP_MIN_NUM) && (dot >= 0 || cross
        * TAN_DEN >= dot * TAN_GAP_MAX_NUM)
}

/// Validates one 5-clique: returns the five-fold centroid (the plain
/// coordinate sums) when the five points approximate a regular pentagon,
/// and `None` otherwise.
pub fn pentagram_center(p0: Pos, p1: Pos, p2: Pos, p3: Pos, p4: Pos, md: i64) -> (r: Option<
    (i64, i64),
>)
    requires
        in_bounds(p0),
        in_bounds(p1),
        in_bounds(p2),
        in_bounds(p3),
        in_bounds(p4),
        1 <= md <= COORD_LIMIT,
    ensures
        r.is_some() == pentagon_ok(seq![p0, p1, p2, p3, p4], md as int),
        r.is_some() ==> r == Some((sum_x(seq![p0, p1, p2, p3, p4]) as i64, sum_y(
            seq![p0, p1, p2, p3, p4],
        ) as i64)),
{
    let ghost pts = seq![p0, p1, p2, p3, p4];
    let sx = p0.x + p1.x + p2.x + p3.x + p4.x;
    let sy = p0.y + p1.y + p2.y + p3.y + p4.y;
    let mut cv: Vec<Corner> = Vec::new();
    cv.push(Corner { dx: 5 * p0.x - sx, dy: 5 * p0.y - sy, px: p0.x, py: p0.y });
    cv.push(Corner { dx: 5 * p1.x - sx, dy: 5 * p1.y - sy, px: p1.x, py: p1.y });
    cv.push(Corner { dx: 5 * p2.x - sx, dy: 5 * p2.y - sy, px: p2.x, py: p2.y });
    cv.push(Corner { dx: 5 * p3.x - sx, dy: 5 * p3.y - sy, px: p3.x, py: p3.y });
    cv.push(Corner { dx: 5 * p4.x - sx, dy: 5 * p4.y - sy, px: p4.x, py: p4.y });
    proof {
        assert(cv@ =~= corners(pts));
        assert(forall|k: int| 0 <= k < 5 ==> corner_bounded(#[trigger] cv@[k]));
    }
    let mut radii: Vec<i64> = Vec::new();
    let mut t: usize = 0;
    while t < 5
        invariant
            cv@ =~= corners(pts),
            cv@.len() == 5,
            forall|k: int| 0 <= k < 5 ==> corner_bounded(#[trigger] cv@[k]),
            radii@.len() == t <= 5,
            forall|k: int| 0 <= k < t ==> radii@[k] == radius5(pts, k),
            forall|k: int| 0 <= k < t ==> 0 <= #[trigger] radii@[k] <= 2_000_000,
        decreases 5 - t,
    {
        let c = cv[t];
        proof {
            assert(0 <= c.dx * c.dx <= 1_000_000_000_000 && 0 <= c.dy * c.dy
                <= 1_000_000_000_000 && 0 <= c.dx * c.dx + c.dy * c.dy <= 2_000_000_000_000)
                by (nonlinear_arith)
                requires
                    -1_000_000 <= c.dx <= 1_000_000,
                    -1_000_000 <= c.dy <= 1_000_000,
            ;
        }
        let d2 = c.dx * c.dx + c.dy * c.dy;
        let rad = isqrt(d2 as u64);
        proof {
            assert(d2 == offset2(pts, t as int));
        }
        radii.push(rad as i64);
        t = t + 1;
    }
    let r0 = radii[0];
    let r1 = radii[1];
    let r2 = radii[2];
    let r3 = radii[3];
    let r4 = radii[4];
    let sum = r0 + r1 + r2 + r3 + r4;
    let mut mn = r0;
    let mut mx = r0;
    if r1 < mn {
        mn = r1;
    }
    if r1 > mx {
        mx = r1;
    }
    if r2 < mn {
        mn = r2;
    }
    if r2 > mx {
        mx = r2;
    }
    if r3 < mn {
        mn = r3;
    }
    if r3 > mx {
        mx = r3;
    }
    if r4 < mn {
        mn = r4;
    }
    if r4 > mx {
        mx = r4;
    }
    proof {
        assert(sum == radius_sum(pts));
        assert(mn == radius_min(pts));
        assert(mx == radius_max(pts));
    }
    if sum == 0 {
        return None;
    }
    if 100 * (mx - mn) > 9 * sum {
        return None;
    }
    let sorted = sort_corners(&cv);
    proof {
        assert(sorted@ == sorted_corners(pts));
    }
    let mut i: usize = 0;
    while i < 5
        invariant
            pts == seq![p0, p1, p2, p3, p4],
            sorted@ == sorted_corners(pts),
            sorted@.len() == 5,
            forall|k: int| 0 <= k < 5 ==> corner_bounded(#[trigger] sorted@[k]),
            i <= 5,
            forall|k: int| 0 <= k < i ==> gap_ok(sorted@[k], sorted@[next1(k)]),
            radius_spread_ok(pts),
            1 <= md <= COORD_LIMIT,
        decreases 5 - i,
    {
        let u = sorted[i];
        let w = if i == 4 {
            sorted[0]
        } else {
            sorted[i + 1]
        };
        if !gap_check(u, w) {
            proof {
                assert(!gap_ok(sorted_corners(pts)[i as int], sorted_corners(pts)[next1(i as int)]));
            }
            return None;
        }
        i = i + 1;
    }
    proof {
        assert(1 <= md * md <= 10_000_000_000) by (nonlinear_arith)
            requires
                1 <= md <= 100_000,
        ;
    }
    let md2 = md * md;
    let mut j: usize = 0;
    while j < 5
        invariant
            pts == seq![p0, p1, p2, p3, p4],
            sorted@ == sorted_corners(pts),
            sorted@.len() == 5,
            forall|k: int| 0 <= k < 5 ==> corner_bounded(#[trigger] sorted@[k]),
            j <= 5,
            forall|k: int|
                0 <= k < j ==> #[trigger] dist2(
                    corner_pos(sorted@[k]),
                    corner_pos(sorted@[next2(k)]),
                ) <= md * md,
            radius_spread_ok(pts),
            gaps_ok(sorted_corners(pts)),
            1 <= md <= COORD_LIMIT,
            md2 == md * md,
        decreases 5 - j,
    {
        let u = sorted[j];
        let w = if j >= 3 {
            sorted[j - 3]
        } else {
            sorted[j + 2]
        };
        let d2 = dist2_i64(Pos { x: u.px, y: u.py }, Pos { x: w.px, y: w.py });
        if d2 > md2 {
            proof {
                assert(dist2(
                    corner_pos(sorted_corners(pts)[j as int]),
                    corner_pos(sorted_corners(pts)[next2(j as int)]),
                ) > md * md);
                assert(!diagonals_ok(sorted_corners(pts), md as int));
            }
            return None;
        }
        j = j + 1;
    }
    proof {
        assert(pentagon_ok(pts, md as int));
    }
    Some((sx, sy))
}

} // verus!

verus! {

/// The diagonal re-check is defensive only: for a true clique — five points
/// that are pairwise within the threshold — every diagonal of the angular
/// walk is automatically within the threshold, whatever order the sort
/// produced. So the check can only ever reject candidates that were not
/// cliques to begin with.
pub proof fn lemma_clique_diagonals(pts: Seq<Pos>, md: int)
    requires
        pts.len() == 5,
        forall|i: int, j: int|
            0 <= i < 5 && 0 <= j < 5 ==> dist2(#[trigger] pts[i], #[trigger] pts[j]) <= md * md,
    ensures
        diagonals_ok(sorted_corners(pts), md),
{
    broadcast use vstd::seq_lib::group_to_multiset_ensures;

    lemma_corner_order_total();
    corners(pts).lemma_sort_by_ensures(corner_order());
    let sc = sorted_corners(pts);
    assert(sc.to_multiset().len() == sc.len());
    assert(corners(pts).to_multiset().len() == corners(pts).len());
    assert(sc.len() == 5);
    assert forall|i: int| 0 <= i < 5 implies dist2(
        corner_pos(sc[i]),
        corner_pos(sc[next2(i)]),
    ) <= md * md by {
        lemma_sorted_corner_is_a_point(pts, i);
        lemma_sorted_corner_is_a_point(pts, next2(i));
        let k = choose|k: int| 0 <= k < 5 && corner_pos(sc[i]) == pts[k];
        let m = choose|m: int| 0 <= m < 5 && corner_pos(sc[next2(i)]) == pts[m];
        assert(dist2(pts[k], pts[m]) <= md * md);
    }
}

/// Each sorted corner carries the position of one of the five points.
proof fn lemma_sorted_corner_is_a_point(pts: Seq<Pos>, i: int)
    requires
        pts.len() == 5,
        0 <= i < sorted_corners(pts).len(),
    ensures
        exists|k: int| 0 <= k < 5 && corner_pos(sorted_corners(pts)[i]) == pts[k],
{
    broadcast use vstd::seq_lib::group_to_multiset_ensures;

    lemma_corner_order_total();
    corners(pts).lemma_sort_by_ensures(corner_order());
    let sc = sorted_corners(pts);
    let c = sc[i];
    assert(sc.contains(c));
    assert(sc.to_multiset().contains(c));
    assert(corners(pts).to_multiset().contains(c));
    assert(corners(pts).contains(c));
    let k = choose|k: int| 0 <= k < corners(pts).len() && corners(pts)[k] == c;
    assert(corners(pts)[k] == corner_of(pts, k));
    assert(corner_pos(c) == pts[k]);
}

} // verus!
