//! The proximity graph: every unordered marker pair within the distance
//! threshold becomes an edge candidate, and every marker gets the ascending
//! list of its higher-indexed neighbors.
//!
//! Storing only higher-indexed neighbors lets the clique search enumerate each
//! unordered clique exactly once, by extending strictly increasing index
//! sequences. The pair scan is quadratic in the marker count, which is fine
//! for the small fields this library is built for.

use vstd::prelude::*;

use crate::flags::{all_in_bounds, Flag};
use crate::geometry::{dist2, dist2_i64, COORD_LIMIT};
use crate::intensity::{compute_intensity, intensity_of};

verus! {

/// An edge of the proximity graph: endpoint indices into the marker list
/// (`a < b`) and a brightness in parts per million.
#[derive(Clone, Copy, Debug, PartialEq, Eq, Structural)]
pub struct LineCandidate {
    pub a: usize,
    pub b: usize,
    pub intensity: u32,
}

/// Markers `i` and `j` are within the threshold `md` of one another.
pub open spec fn close(flags: Seq<Flag>, md: int, i: int, j: int) -> bool {
    dist2(flags[i].pos, flags[j].pos) <= md * md
}

pub open spec fn strictly_increasing(s: Seq<usize>) -> bool {
    forall|p: int, q: int| 0 <= p < q < s.len() ==> s[p] < s[q]
}

/// `nb[u]` holds exactly the indices `v > u` whose marker lies within the
/// threshold of marker `u`, in ascending order.
pub open spec fn neighbor_lists_ok(nb: Seq<Vec<usize>>, flags: Seq<Flag>, md: int) -> bool {
    &&& nb.len() == flags.len()
    &&& forall|u: int| 0 <= u < nb.len() ==> strictly_increasing(#[trigger] nb[u]@)
    &&& forall|u: int, v: usize|
        0 <= u < nb.len() ==> (#[trigger] nb[u]@.contains(v) <==> u < v && v < flags.len()
            && close(flags, md, u, v as int))
}

/// Lexicographic order on index pairs.
pub open spec fn pair_lt(a1: int, b1: int, a2: int, b2: int) -> bool {
    a1 < a2 || (a1 == a2 && b1 < b2)
}

/// Some entry of `lines` is the pair `(i, j)`.
pub open spec fn has_pair(lines: Seq<LineCandidate>, i: int, j: int) -> bool {
    exists|k: int|
        #![trigger lines[k]]
        0 <= k < lines.len() && lines[k].a == i && lines[k].b == j
}

/// `lines` holds exactly the close pairs `(a, b)` with `a < b`, in strictly
/// ascending lexicographic order, each with its derived intensity.
pub open spec fn candidates_ok(lines: Seq<LineCandidate>, flags: Seq<Flag>, md: int) -> bool {
    &&& forall|k: int|
        0 <= k < lines.len() ==> {
            let l = #[trigger] lines[k];
            &&& l.a < l.b
            &&& (l.b as int) < flags.len()
            &&& close(flags, md, l.a as int, l.b as int)
            &&& l.intensity == intensity_of(dist2(flags[l.a as int].pos, flags[l.b as int].pos), md)
        }
    &&& forall|i: int, j: int|
        0 <= i && i < j && j < flags.len() && #[trigger] close(flags, md, i, j) ==> has_pair(
            lines,
            i,
            j,
        )
    &&& forall|k1: int, k2: int|
        0 <= k1 < k2 < lines.len() ==> pair_lt(
            lines[k1].a as int,
            lines[k1].b as int,
            lines[k2].a as int,
            lines[k2].b as int,
        )
}

/// Builds the edge-candidate list and the higher-index neighbor lists for a
/// marker snapshot under a positive distance threshold.
pub fn build_proximity_graph(flags: &[Flag], md: i64) -> (r: (Vec<LineCandidate>, Vec<Vec<usize>>))
    requires
        1 <= md <= COORD_LIMIT,
        all_in_bounds(flags@),
    ensures
        candidates_ok(r.0@, flags@, md as int),
        neighbor_lists_ok(r.1@, flags@, md as int),
{
    let n = flags.len();
    proof {
        assert(1 <= md * md <= 10_000_000_000) by (nonlinear_arith)
            requires
                1 <= md <= 100_000,
        ;
    }
    let md2 = md * md;
    let mut lines: Vec<LineCandidate> = Vec::new();
    let mut nb: Vec<Vec<usize>> = Vec::new();
    for i in 0..n
        invariant
            n == flags@.len(),
            1 <= md <= COORD_LIMIT,
            md2 == md * md,
            all_in_bounds(flags@),
            nb@.len() == i,
            forall|u: int| 0 <= u < i ==> strictly_increasing(#[trigger] nb@[u]@),
            forall|u: int, v: usize|
                0 <= u < i ==> (#[trigger] nb@[u]@.contains(v) <==> u < v && v < n && close(
                    flags@,
                    md as int,
                    u,
                    v as int,
                )),
            forall|k: int|
                0 <= k < lines@.len() ==> {
                    let l = #[trigger] lines@[k];
                    &&& l.a < l.b
                    &&& (l.b as int) < n
                    &&& (l.a as int) < i
                    &&& close(flags@, md as int, l.a as int, l.b as int)
                    &&& l.intensity == intensity_of(
                        dist2(flags@[l.a as int].pos, flags@[l.b as int].pos),
                        md as int,
                    )
                },
            forall|p: int, q: int|
                0 <= p && p < q && q < n && p < i && #[trigger] close(flags@, md as int, p, q)
                    ==> has_pair(lines@, p, q),
            forall|k1: int, k2: int|
                0 <= k1 < k2 < lines@.len() ==> pair_lt(
                    lines@[k1].a as int,
                    lines@[k1].b as int,
                    lines@[k2].a as int,
                    lines@[k2].b as int,
                ),
    {
        let mut row: Vec<usize> = Vec::new();
        let mut j = i + 1;
        while j < n
            invariant
                n == flags@.len(),
                1 <= md <= COORD_LIMIT,
                md2 == md * md,
                all_in_bounds(flags@),
                i < n,
                i < j <= n,
                nb@.len() == i,
                forall|u: int| 0 <= u < i ==> strictly_increasing(#[trigger] nb@[u]@),
                forall|u: int, v: usize|
                    0 <= u < i ==> (#[trigger] nb@[u]@.contains(v) <==> u < v && v < n && close(
                        flags@,
                        md as int,
                        u,
                        v as int,
                    )),
                forall|v: usize|
                    #[trigger] row@.contains(v) <==> i < v && v < j && close(
                        flags@,
                        md as int,
                        i as int,
                        v as int,
                    ),
                strictly_increasing(row@),
                forall|p: int| 0 <= p < row@.len() ==> (#[trigger] row@[p]) < j,
                forall|k: int|
                    0 <= k < lines@.len() ==> {
                        let l = #[trigger] lines@[k];
                        &&& l.a < l.b
                        &&& (l.b as int) < n
                        &&& (l.a as int) < i || (l.a as int == i && (l.b as int) < j)
                        &&& close(flags@, md as int, l.a as int, l.b as int)
                        &&& l.intensity == intensity_of(
                            dist2(flags@[l.a as int].pos, flags@[l.b as int].pos),
                            md as int,
                        )
                    },
                forall|p: int, q: int|
                    0 <= p && p < q && q < n && (p < i || (p == i && q < j)) && #[trigger] close(
                        flags@,
                        md as int,
                        p,
                        q,
                    ) ==> has_pair(lines@, p, q),
                forall|k1: int, k2: int|
                    0 <= k1 < k2 < lines@.len() ==> pair_lt(
                        lines@[k1].a as int,
                        lines@[k1].b as int,
                        lines@[k2].a as int,
                        lines@[k2].b as int,
                    ),
            decreases n - j,
        {
            let d2 = dist2_i64(flags[i].pos, flags[j].pos);
            if d2 <= md2 {
                let ghost old_row = row@;
                let ghost old_lines = lines@;
                row.push(j);
                let intensity = compute_intensity(d2, md);
                lines.push(LineCandidate { a: i, b: j, intensity });
                proof {
                    assert forall|v: usize|
                        #[trigger] row@.contains(v) <==> i < v && v < j + 1 && close(
                            flags@,
                            md as int,
                            i as int,
                            v as int,
                        ) by {
                        if row@.contains(v) {
                            let p = choose|p: int| 0 <= p < row@.len() && row@[p] == v;
                            if p < old_row.len() {
                                assert(old_row.contains(v));
                            } else {
                                assert(v == j);
                            }
                        }
                        if i < v && v < j + 1 && close(flags@, md as int, i as int, v as int) {
                            if v < j {
                                assert(old_row.contains(v));
                                let p = choose|p: int| 0 <= p < old_row.len() && old_row[p] == v;
                                assert(row@[p] == v);
                            } else {
                                assert(row@[old_row.len() as int] == v);
                            }
                        }
                    }
                    assert forall|p: int, q: int|
                        0 <= p && p < q && q < n && (p < i || (p == i && q < j + 1))
                            && #[trigger] close(flags@, md as int, p, q) implies has_pair(
                        lines@,
                        p,
                        q,
                    ) by {
                        if p == i as int && q == j as int {
                            assert(lines@[old_lines.len() as int].a == i);
                        } else {
                            assert(has_pair(old_lines, p, q));
                            let k = choose|k: int|
                                #![trigger old_lines[k]]
                                0 <= k < old_lines.len() && old_lines[k].a == p && old_lines[k].b
                                    == q;
                            assert(lines@[k].a == p && lines@[k].b == q);
                        }
                    }
                }
            }
            j = j + 1;
        }
        nb.push(row);
        proof {
            assert forall|u: int, v: usize| 0 <= u < i + 1 implies (#[trigger] nb@[u]@.contains(v)
                <==> u < v && v < n && close(flags@, md as int, u, v as int)) by {
            }
        }
    }
    proof {
        assert forall|p: int, q: int|
            0 <= p && p < q && q < n && #[trigger] close(flags@, md as int, p, q) implies has_pair(
            lines@,
            p,
            q,
        ) by {
            assert(p < n);
        }
    }
    (lines, nb)
}

} // verus!
