//! The ley-line engine's public face: one call turns a marker snapshot and a
//! distance threshold into the classified edge list and the pentagram
//! centroid list. The result is a pure function of its inputs; callers
//! recompute it after any marker change and treat the previous result as
//! stale, since edges refer to markers by index.

use vstd::prelude::*;

use crate::cliques::{
    find_pentagrams, five_points, has_pent, lemma_pents_unique, lemma_strict_sorted_unique,
    pent_matches, pents_ok, valid_pentagram, Pentagram,
};
use crate::flags::{all_in_bounds, Flag};
use crate::geometry::{dist2, lemma_dist2_nonneg, COORD_LIMIT};
use crate::graph::{build_proximity_graph, close, pair_lt};
use crate::intensity::{intensity_of, lemma_intensity_bounds, lemma_intensity_monotone,
    INTENSITY_SCALE};
use crate::pentagon::{sum_x, sum_y};

verus! {

/// How an edge is classified: an ordinary proximity link, or one of the ten
/// internal edges of a detected pentagram.
#[derive(Clone, Copy, Debug, PartialEq, Eq, Structural)]
pub enum LeyLineKind {
    Normal,
    Pentagram,
}

/// A classified ley line: endpoint marker indices (`a < b`) into the
/// snapshot, brightness in parts per million, and its kind.
#[derive(Clone, Copy, Debug, PartialEq, Eq, Structural)]
pub struct LeyLine {
    pub a: usize,
    pub b: usize,
    pub intensity: u32,
    pub kind: LeyLineKind,
}

/// A detected pentagram's centroid, carried five-fold: the plain sums of the
/// five marker coordinates. Divide both by five for the mean position.
#[derive(Clone, Copy, Debug, PartialEq, Eq, Structural)]
pub struct LeyCenter {
    pub x5: i64,
    pub y5: i64,
}

/// The complete result of one computation: every classified edge and every
/// pentagram centroid for the snapshot it was computed from.
#[derive(Clone, Debug, PartialEq)]
pub struct LeyState {
    pub lines: Vec<LeyLine>,
    pub pentagram_centers: Vec<LeyCenter>,
}

/// `x` is one of the five indices.
pub open spec fn among(x: int, a: int, b: int, c: int, d: int, e: int) -> bool {
    x == a || x == b || x == c || x == d || x == e
}

/// Markers `i` and `j` both belong to some valid pentagram of the snapshot.
pub open spec fn pair_covered(flags: Seq<Flag>, md: int, i: int, j: int) -> bool {
    exists|a: int, b: int, c: int, d: int, e: int|
        #[trigger] valid_pentagram(flags, md, a, b, c, d, e) && among(i, a, b, c, d, e) && among(
            j,
            a,
            b,
            c,
            d,
            e,
        )
}

/// Some entry of `lines` joins markers `i` and `j`.
pub open spec fn has_line(lines: Seq<LeyLine>, i: int, j: int) -> bool {
    exists|k: int|
        #![trigger lines[k]]
        0 <= k < lines.len() && lines[k].a == i && lines[k].b == j
}

/// The line list matches the snapshot: exactly the pairs within the
/// threshold, in ascending lexicographic order, each with its derived
/// intensity, and marked `Pentagram` exactly when some valid pentagram
/// covers the pair. Degenerate inputs produce no lines at all.
pub open spec fn lines_match(lines: Seq<LeyLine>, flags: Seq<Flag>, md: int) -> bool {
    if flags.len() < 2 || md <= 0 {
        lines.len() == 0
    } else {
        &&& forall|k: int|
            0 <= k < lines.len() ==> {
                let l = #[trigger] lines[k];
                &&& l.a < l.b
                &&& (l.b as int) < flags.len()
                &&& close(flags, md, l.a as int, l.b as int)
                &&& l.intensity == intensity_of(dist2(flags[l.a as int].pos, flags[l.b as int].pos), md)
                &&& (l.kind == LeyLineKind::Pentagram <==> pair_covered(
                    flags,
                    md,
                    l.a as int,
                    l.b as int,
                ))
            }
        &&& forall|i: int, j: int|
            0 <= i && i < j && j < flags.len() && #[trigger] close(flags, md, i, j) ==> has_line(
                lines,
                i,
                j,
            )
        &&& forall|k1: int, k2: int|
            0 <= k1 < k2 < lines.len() ==> pair_lt(
                lines[k1].a as int,
                lines[k1].b as int,
                lines[k2].a as int,
                lines[k2].b as int,
            )
    }
}

/// The centroid is the five-fold centroid of some valid pentagram.
pub open spec fn center_of_some(c: LeyCenter, flags: Seq<Flag>, md: int) -> bool {
    exists|a: int, b: int, cc: int, d: int, e: int|
        #[trigger] valid_pentagram(flags, md, a, b, cc, d, e) && c.x5 == sum_x(
            five_points(flags, a, b, cc, d, e),
        ) && c.y5 == sum_y(five_points(flags, a, b, cc, d, e))
}

/// The centroid list matches the snapshot: every entry is the five-fold
/// centroid of some valid pentagram, and every valid pentagram's centroid is
/// listed. Degenerate inputs produce no centroids.
pub open spec fn centers_match(cs: Seq<LeyCenter>, flags: Seq<Flag>, md: int) -> bool {
    if flags.len() < 2 || md <= 0 {
        cs.len() == 0
    } else {
        &&& forall|k: int|
            0 <= k < cs.len() ==> center_of_some(#[trigger] cs[k], flags, md)
        &&& forall|a: int, b: int, c: int, d: int, e: int|
            #[trigger] valid_pentagram(flags, md, a, b, c, d, e) ==> cs.contains(
                LeyCenter {
                    x5: sum_x(five_points(flags, a, b, c, d, e)) as i64,
                    y5: sum_y(five_points(flags, a, b, c, d, e)) as i64,
                },
            )
        &&& exists|ps: Seq<Pentagram>|
            #[trigger] pents_ok(ps, flags, md) && cs == ps.map_values(
                |p: Pentagram| (LeyCenter { x5: p.x5, y5: p.y5 }),
            )
    }
}

/// The full contract of one computation.
pub open spec fn ley_state_matches(s: LeyState, flags: Seq<Flag>, md: int) -> bool {
    &&& lines_match(s.lines@, flags, md)
    &&& centers_match(s.pentagram_centers@, flags, md)
}

/// One pentagram entry covers the pair `(i, j)`.
spec fn covers(p: Pentagram, i: int, j: int) -> bool {
    among(i, p.a as int, p.b as int, p.c as int, p.d as int, p.e as int) && among(
        j,
        p.a as int,
        p.b as int,
        p.c as int,
        p.d as int,
        p.e as int,
    )
}

/// Decides whether the pentagram's index set contains both `i` and `j`.
fn pent_covers(p: &Pentagram, i: usize, j: usize) -> (r: bool)
    ensures
        r == covers(*p, i as int, j as int),
{
    (i == p.a || i == p.b || i == p.c || i == p.d || i == p.e) && (j == p.a || j == p.b || j == p.c
        || j == p.d || j == p.e)
}

/// Computes the complete ley state for one marker snapshot: builds the
/// proximity graph, searches it for pentagrams, classifies every edge, and
/// collects the centroids.
pub fn compute_ley_state(flags: &[Flag], max_distance: i64) -> (r: LeyState)
    requires
        all_in_bounds(flags@),
        max_distance <= COORD_LIMIT,
    ensures
        ley_state_matches(r, flags@, max_distance as int),
{
    let n = flags.len();
    if n < 2 || max_distance <= 0 {
        return LeyState { lines: Vec::new(), pentagram_centers: Vec::new() };
    }
    let md = max_distance;
    let (cands, nb) = build_proximity_graph(flags, md);
    let pents: Vec<Pentagram> = if n >= 5 {
        find_pentagrams(flags, md, &nb)
    } else {
        let empty: Vec<Pentagram> = Vec::new();
        proof {
            assert forall|a2: int, b2: int, c2: int, d2: int, e2: int|
                !valid_pentagram(flags@, md as int, a2, b2, c2, d2, e2) by {}
        }
        empty
    };
    proof {
        assert(pents_ok(pents@, flags@, md as int));
        assert forall|i: int, j: int|
            0 <= i && i < j && j < flags@.len() implies (pair_covered(flags@, md as int, i, j)
            <==> exists|k: int|
            0 <= k < pents@.len() && covers(#[trigger] pents@[k], i, j)) by {
            if pair_covered(flags@, md as int, i, j) {
                let (a2, b2, c2, d2, e2): (int, int, int, int, int) = choose|
                    a2: int,
                    b2: int,
                    c2: int,
                    d2: int,
                    e2: int,
                |
                    #[trigger] valid_pentagram(flags@, md as int, a2, b2, c2, d2, e2) && among(
                        i,
                        a2,
                        b2,
                        c2,
                        d2,
                        e2,
                    ) && among(j, a2, b2, c2, d2, e2);
                assert(has_pent(pents@, a2, b2, c2, d2, e2));
                let k = choose|k: int|
                    #![trigger pents@[k]]
                    0 <= k < pents@.len() && pents@[k].a == a2 && pents@[k].b == b2 && pents@[k].c
                        == c2 && pents@[k].d == d2 && pents@[k].e == e2;
                assert(covers(pents@[k], i, j));
            }
            if exists|k: int| 0 <= k < pents@.len() && covers(#[trigger] pents@[k], i, j) {
                let k = choose|k: int| 0 <= k < pents@.len() && covers(#[trigger] pents@[k], i, j);
                let p = pents@[k];
                assert(pent_matches(p, flags@, md as int));
                assert(valid_pentagram(
                    flags@,
                    md as int,
                    p.a as int,
                    p.b as int,
                    p.c as int,
                    p.d as int,
                    p.e as int,
                ));
            }
        }
    }
    let mut lines: Vec<LeyLine> = Vec::new();
    let mut k: usize = 0;
    while k < cands.len()
        invariant
            n == flags@.len(),
            n >= 2,
            1 <= md <= COORD_LIMIT,
            all_in_bounds(flags@),
            crate::graph::candidates_ok(cands@, flags@, md as int),
            forall|t: int| 0 <= t < pents@.len() ==> pent_matches(#[trigger] pents@[t], flags@, md as int),
            forall|i: int, j: int|
                0 <= i && i < j && j < flags@.len() ==> (pair_covered(flags@, md as int, i, j)
                    <==> exists|t: int| 0 <= t < pents@.len() && covers(#[trigger] pents@[t], i, j)),
            k <= cands@.len(),
            lines@.len() == k,
            forall|t: int|
                0 <= t < k ==> {
                    let l = #[trigger] lines@[t];
                    &&& l.a == cands@[t].a
                    &&& l.b == cands@[t].b
                    &&& l.intensity == cands@[t].intensity
                    &&& (l.kind == LeyLineKind::Pentagram <==> pair_covered(
                        flags@,
                        md as int,
                        l.a as int,
                        l.b as int,
                    ))
                },
        decreases cands@.len() - k,
    {
        let cand = cands[k];
        let mut member = false;
        let mut t: usize = 0;
        while t < pents.len()
            invariant
                t <= pents@.len(),
                member <==> exists|q: int|
                    0 <= q < t && covers(#[trigger] pents@[q], cand.a as int, cand.b as int),
            decreases pents@.len() - t,
        {
            if pent_covers(&pents[t], cand.a, cand.b) {
                member = true;
            }
            t = t + 1;
        }
        let kind = if member {
            LeyLineKind::Pentagram
        } else {
            LeyLineKind::Normal
        };
        lines.push(LeyLine { a: cand.a, b: cand.b, intensity: cand.intensity, kind });
        k = k + 1;
    }
    let mut centers: Vec<LeyCenter> = Vec::new();
    let mut t: usize = 0;
    while t < pents.len()
        invariant
            forall|q: int| 0 <= q < pents@.len() ==> pent_matches(#[trigger] pents@[q], flags@, md as int),
            t <= pents@.len(),
            centers@.len() == t,
            forall|q: int|
                0 <= q < t ==> (#[trigger] centers@[q]).x5 == pents@[q].x5 && centers@[q].y5
                    == pents@[q].y5,
        decreases pents@.len() - t,
    {
        let p = pents[t];
        centers.push(LeyCenter { x5: p.x5, y5: p.y5 });
        t = t + 1;
    }
    proof {
        assert forall|q: int|
            0 <= q < centers@.len() implies center_of_some(#[trigger] centers@[q], flags@, md as int) by {
            let p = pents@[q];
            assert(valid_pentagram(
                flags@,
                md as int,
                p.a as int,
                p.b as int,
                p.c as int,
                p.d as int,
                p.e as int,
            ) && centers@[q].x5 == sum_x(
                five_points(flags@, p.a as int, p.b as int, p.c as int, p.d as int, p.e as int),
            ) && centers@[q].y5 == sum_y(
                five_points(flags@, p.a as int, p.b as int, p.c as int, p.d as int, p.e as int),
            ));
        }
        assert forall|a2: int, b2: int, c2: int, d2: int, e2: int| #[trigger] valid_pentagram(
            flags@,
            md as int,
            a2,
            b2,
            c2,
            d2,
            e2,
        ) implies centers@.contains(
            LeyCenter {
                x5: sum_x(five_points(flags@, a2, b2, c2, d2, e2)) as i64,
                y5: sum_y(five_points(flags@, a2, b2, c2, d2, e2)) as i64,
            },
        ) by {
            assert(has_pent(pents@, a2, b2, c2, d2, e2));
            let q = choose|q: int|
                #![trigger pents@[q]]
                0 <= q < pents@.len() && pents@[q].a == a2 && pents@[q].b == b2 && pents@[q].c == c2
                    && pents@[q].d == d2 && pents@[q].e == e2;
            assert(centers@[q] == LeyCenter {
                x5: sum_x(five_points(flags@, a2, b2, c2, d2, e2)) as i64,
                y5: sum_y(five_points(flags@, a2, b2, c2, d2, e2)) as i64,
            });
        }
        assert forall|i: int, j: int|
            0 <= i && i < j && j < flags@.len() && #[trigger] close(flags@, md as int, i, j)
            implies has_line(lines@, i, j) by {
            assert(crate::graph::has_pair(cands@, i, j));
            let k2 = choose|k2: int|
                #![trigger cands@[k2]]
                0 <= k2 < cands@.len() && cands@[k2].a == i && cands@[k2].b == j;
            assert(lines@[k2].a == i && lines@[k2].b == j);
        }
        assert forall|t: int|
            #![trigger lines@[t]]
            0 <= t < lines@.len() implies (lines@[t].a < lines@[t].b && (lines@[t].b as int)
            < flags@.len() && close(flags@, md as int, lines@[t].a as int, lines@[t].b as int)
            && lines@[t].intensity == intensity_of(
            dist2(flags@[lines@[t].a as int].pos, flags@[lines@[t].b as int].pos),
            md as int,
        )) by {
            assert(cands@[t].a < cands@[t].b);
            assert(cands@[t].intensity == intensity_of(
                dist2(flags@[cands@[t].a as int].pos, flags@[cands@[t].b as int].pos),
                md as int,
            ));
        }
        assert forall|k1: int, k2: int| 0 <= k1 < k2 < lines@.len() implies pair_lt(
            lines@[k1].a as int,
            lines@[k1].b as int,
            lines@[k2].a as int,
            lines@[k2].b as int,
        ) by {
            assert(pair_lt(
                cands@[k1].a as int,
                cands@[k1].b as int,
                cands@[k2].a as int,
                cands@[k2].b as int,
            ));
        }
        assert(lines_match(lines@, flags@, md as int));
        assert(centers@ =~= pents@.map_values(|p: Pentagram| (LeyCenter { x5: p.x5, y5: p.y5 })));
        assert(centers_match(centers@, flags@, md as int));
    }
    LeyState { lines, pentagram_centers: centers }
}

/// The classified edge list alone.
pub fn compute_ley_lines(flags: &[Flag], max_distance: i64) -> (r: Vec<LeyLine>)
    requires
        all_in_bounds(flags@),
        max_distance <= COORD_LIMIT,
    ensures
        lines_match(r@, flags@, max_distance as int),
{
    let state = compute_ley_state(flags, max_distance);
    state.lines
}

/// The pentagram centroid list alone.
pub fn pentagram_centers(flags: &[Flag], max_distance: i64) -> (r: Vec<LeyCenter>)
    requires
        all_in_bounds(flags@),
        max_distance <= COORD_LIMIT,
    ensures
        centers_match(r@, flags@, max_distance as int),
{
    let state = compute_ley_state(flags, max_distance);
    state.pentagram_centers
}

/// Pentagram membership implies clique: every valid pentagram's five markers
/// are pairwise within the distance threshold, all ten pairs.
pub proof fn lemma_pentagram_is_clique(
    flags: Seq<Flag>,
    md: int,
    a: int,
    b: int,
    c: int,
    d: int,
    e: int,
)
    requires
        valid_pentagram(flags, md, a, b, c, d, e),
    ensures
        dist2(flags[a].pos, flags[b].pos) <= md * md,
        dist2(flags[a].pos, flags[c].pos) <= md * md,
        dist2(flags[a].pos, flags[d].pos) <= md * md,
        dist2(flags[a].pos, flags[e].pos) <= md * md,
        dist2(flags[b].pos, flags[c].pos) <= md * md,
        dist2(flags[b].pos, flags[d].pos) <= md * md,
        dist2(flags[b].pos, flags[e].pos) <= md * md,
        dist2(flags[c].pos, flags[d].pos) <= md * md,
        dist2(flags[c].pos, flags[e].pos) <= md * md,
        dist2(flags[d].pos, flags[e].pos) <= md * md,
{
}

/// Idempotence: any two results that meet the computation's contract for the
/// same snapshot and threshold are the same result, line for line and
/// centroid for centroid.
pub proof fn lemma_recompute_agrees(s1: LeyState, s2: LeyState, flags: Seq<Flag>, md: int)
    requires
        ley_state_matches(s1, flags, md),
        ley_state_matches(s2, flags, md),
    ensures
        s1.lines@ == s2.lines@,
        s1.pentagram_centers@ == s2.pentagram_centers@,
{
    if flags.len() < 2 || md <= 0 {
        assert(s1.lines@ =~= s2.lines@);
        assert(s1.pentagram_centers@ =~= s2.pentagram_centers@);
    } else {
        let line_lt = |x: LeyLine, y: LeyLine|
            pair_lt(x.a as int, x.b as int, y.a as int, y.b as int);
        assert forall|l: LeyLine| s1.lines@.contains(l) implies s2.lines@.contains(l) by {
            lemma_line_member_swap(s1, s2, flags, md, l);
        }
        assert forall|l: LeyLine| s2.lines@.contains(l) implies s1.lines@.contains(l) by {
            lemma_line_member_swap(s2, s1, flags, md, l);
        }
        assert forall|k1: int, k2: int| 0 <= k1 < k2 < s1.lines@.len() implies line_lt(
            s1.lines@[k1],
            s1.lines@[k2],
        ) by {
            assert(pair_lt(
                s1.lines@[k1].a as int,
                s1.lines@[k1].b as int,
                s1.lines@[k2].a as int,
                s1.lines@[k2].b as int,
            ));
        }
        assert forall|k1: int, k2: int| 0 <= k1 < k2 < s2.lines@.len() implies line_lt(
            s2.lines@[k1],
            s2.lines@[k2],
        ) by {
            assert(pair_lt(
                s2.lines@[k1].a as int,
                s2.lines@[k1].b as int,
                s2.lines@[k2].a as int,
                s2.lines@[k2].b as int,
            ));
        }
        lemma_strict_sorted_unique(s1.lines@, s2.lines@, line_lt);
        let ps1 = choose|ps: Seq<Pentagram>|
            #[trigger] pents_ok(ps, flags, md) && s1.pentagram_centers@ == ps.map_values(
                |p: Pentagram| (LeyCenter { x5: p.x5, y5: p.y5 }),
            );
        let ps2 = choose|ps: Seq<Pentagram>|
            #[trigger] pents_ok(ps, flags, md) && s2.pentagram_centers@ == ps.map_values(
                |p: Pentagram| (LeyCenter { x5: p.x5, y5: p.y5 }),
            );
        lemma_pents_unique(ps1, ps2, flags, md);
    }
}

proof fn lemma_line_member_swap(s1: LeyState, s2: LeyState, flags: Seq<Flag>, md: int, l: LeyLine)
    requires
        ley_state_matches(s1, flags, md),
        ley_state_matches(s2, flags, md),
        flags.len() >= 2,
        md > 0,
        s1.lines@.contains(l),
    ensures
        s2.lines@.contains(l),
{
    let k1 = choose|k1: int| 0 <= k1 < s1.lines@.len() && s1.lines@[k1] == l;
    assert(close(flags, md, l.a as int, l.b as int));
    assert(has_line(s2.lines@, l.a as int, l.b as int));
    let k2 = choose|k2: int|
        #![trigger s2.lines@[k2]]
        0 <= k2 < s2.lines@.len() && s2.lines@[k2].a == l.a && s2.lines@[k2].b == l.b;
    assert(s2.lines@[k2] == l);
}


/// Emptiness: with fewer than two markers, or a threshold that is not
/// positive, the result holds no edges and no centroids.
pub proof fn lemma_empty_on_degenerate(s: LeyState, flags: Seq<Flag>, md: int)
    requires
        ley_state_matches(s, flags, md),
        flags.len() < 2 || md <= 0,
    ensures
        s.lines@.len() == 0,
        s.pentagram_centers@.len() == 0,
{
}

/// Distance gating: under a positive threshold, the result holds an edge
/// between two markers exactly when their squared distance is within the
/// squared threshold.
pub proof fn lemma_distance_gating(s: LeyState, flags: Seq<Flag>, md: int, i: int, j: int)
    requires
        ley_state_matches(s, flags, md),
        md > 0,
        0 <= i < j < flags.len(),
    ensures
        has_line(s.lines@, i, j) <==> dist2(flags[i].pos, flags[j].pos) <= md * md,
{
    if has_line(s.lines@, i, j) {
        let k = choose|k: int|
            #![trigger s.lines@[k]]
            0 <= k < s.lines@.len() && s.lines@[k].a == i && s.lines@[k].b == j;
        assert(close(flags, md, i, j));
    }
    if dist2(flags[i].pos, flags[j].pos) <= md * md {
        assert(close(flags, md, i, j));
    }
}

/// Intensity bounds: every edge of a result glows with an intensity between
/// zero and one full unit.
pub proof fn lemma_line_intensity_bounds(s: LeyState, flags: Seq<Flag>, md: int, k: int)
    requires
        ley_state_matches(s, flags, md),
        0 <= k < s.lines@.len(),
    ensures
        0 <= s.lines@[k].intensity <= INTENSITY_SCALE,
{
    let l = s.lines@[k];
    assert(flags.len() >= 2 && md > 0);
    lemma_dist2_nonneg(flags[l.a as int].pos, flags[l.b as int].pos);
    lemma_intensity_bounds(dist2(flags[l.a as int].pos, flags[l.b as int].pos), md);
}

/// Intensity monotonicity: of two edges of one result, the closer pair's
/// intensity is never less than the farther pair's.
pub proof fn lemma_line_intensity_monotone(
    s: LeyState,
    flags: Seq<Flag>,
    md: int,
    k1: int,
    k2: int,
)
    requires
        ley_state_matches(s, flags, md),
        0 <= k1 < s.lines@.len(),
        0 <= k2 < s.lines@.len(),
        dist2(flags[s.lines@[k1].a as int].pos, flags[s.lines@[k1].b as int].pos) <= dist2(
            flags[s.lines@[k2].a as int].pos,
            flags[s.lines@[k2].b as int].pos,
        ),
    ensures
        s.lines@[k1].intensity >= s.lines@[k2].intensity,
{
    let l1 = s.lines@[k1];
    let l2 = s.lines@[k2];
    assert(flags.len() >= 2 && md > 0);
    lemma_dist2_nonneg(flags[l1.a as int].pos, flags[l1.b as int].pos);
    lemma_intensity_monotone(
        dist2(flags[l1.a as int].pos, flags[l1.b as int].pos),
        dist2(flags[l2.a as int].pos, flags[l2.b as int].pos),
        md,
    );
}

} // verus!
