//! The 5-clique search over the proximity graph.
//!
//! Candidate lists are ascending index lists; extending a strictly increasing
//! prefix through intersections of neighbor lists yields each unordered
//! 5-clique exactly once. A branch is abandoned as soon as fewer candidates
//! remain than picks are still needed.

use vstd::prelude::*;

use crate::flags::{all_in_bounds, Flag};
use crate::geometry::{Pos, COORD_LIMIT};
use crate::graph::{close, neighbor_lists_ok, strictly_increasing};
use crate::pentagon::{pentagon_ok, pentagram_center, sum_x, sum_y};

verus! {

/// `v` occurs in `s` somewhere in the index window `[from, to)`.
pub open spec fn in_range(s: Seq<usize>, from: int, to: int, v: usize) -> bool {
    exists|p: int| from <= p < to && 0 <= p < s.len() && s[p] == v
}

/// In an ascending list, the window after the position of `b` holds exactly
/// the members greater than `b`.
pub proof fn lemma_window_after(s: Seq<usize>, pos: int, v: usize)
    requires
        strictly_increasing(s),
        0 <= pos < s.len(),
    ensures
        in_range(s, pos + 1, s.len() as int, v) <==> s.contains(v) && v > s[pos],
{
    if in_range(s, pos + 1, s.len() as int, v) {
        let p = choose|p: int| pos + 1 <= p < s.len() && 0 <= p < s.len() && s[p] == v;
        assert(s[pos] < s[p]);
    }
    if s.contains(v) && v > s[pos] {
        let p = choose|p: int| 0 <= p < s.len() && s[p] == v;
        if p <= pos {
            if p < pos {
                assert(s[p] < s[pos]);
            }
            assert(false);
        }
        assert(in_range(s, pos + 1, s.len() as int, v));
    }
}

pub proof fn lemma_two_members(s: Seq<usize>, v1: usize, v2: usize)
    requires
        strictly_increasing(s),
        v1 < v2,
        s.contains(v1),
        s.contains(v2),
    ensures
        s.len() >= 2,
{
    let p1 = choose|p: int| 0 <= p < s.len() && s[p] == v1;
    let p2 = choose|p: int| 0 <= p < s.len() && s[p] == v2;
    if p2 < p1 {
        assert(s[p2] < s[p1]);
    }
    assert(p1 < p2);
}

pub proof fn lemma_three_members(s: Seq<usize>, v1: usize, v2: usize, v3: usize)
    requires
        strictly_increasing(s),
        v1 < v2 < v3,
        s.contains(v1),
        s.contains(v2),
        s.contains(v3),
    ensures
        s.len() >= 3,
{
    let p1 = choose|p: int| 0 <= p < s.len() && s[p] == v1;
    let p2 = choose|p: int| 0 <= p < s.len() && s[p] == v2;
    let p3 = choose|p: int| 0 <= p < s.len() && s[p] == v3;
    if p2 < p1 {
        assert(s[p2] < s[p1]);
    }
    if p3 < p2 {
        assert(s[p3] < s[p2]);
    }
    assert(p1 < p2 < p3);
}

pub proof fn lemma_four_members(s: Seq<usize>, v1: usize, v2: usize, v3: usize, v4: usize)
    requires
        strictly_increasing(s),
        v1 < v2 < v3 < v4,
        s.contains(v1),
        s.contains(v2),
        s.contains(v3),
        s.contains(v4),
    ensures
        s.len() >= 4,
{
    let p1 = choose|p: int| 0 <= p < s.len() && s[p] == v1;
    let p2 = choose|p: int| 0 <= p < s.len() && s[p] == v2;
    let p3 = choose|p: int| 0 <= p < s.len() && s[p] == v3;
    let p4 = choose|p: int| 0 <= p < s.len() && s[p] == v4;
    if p2 < p1 {
        assert(s[p2] < s[p1]);
    }
    if p3 < p2 {
        assert(s[p3] < s[p2]);
    }
    if p4 < p3 {
        assert(s[p4] < s[p3]);
    }
    assert(p1 < p2 < p3 < p4);
}

/// Merge-intersects the window `left[from..]` with `right`, both ascending;
/// the result is ascending and holds exactly the common members.
pub fn intersect_sorted(left: &Vec<usize>, from: usize, right: &Vec<usize>) -> (out: Vec<usize>)
    requires
        strictly_increasing(left@),
        strictly_increasing(right@),
        from <= left@.len(),
    ensures
        strictly_increasing(out@),
        forall|v: usize|
            #[trigger] out@.contains(v) <==> in_range(left@, from as int, left@.len() as int, v)
                && right@.contains(v),
{
    let mut i = from;
    let mut j: usize = 0;
    let mut out: Vec<usize> = Vec::new();
    while i < left.len() && j < right.len()
        invariant
            strictly_increasing(left@),
            strictly_increasing(right@),
            from <= i <= left@.len(),
            0 <= j <= right@.len(),
            strictly_increasing(out@),
            forall|v: usize|
                #[trigger] out@.contains(v) <==> in_range(left@, from as int, i as int, v)
                    && in_range(right@, 0, j as int, v),
            j < right@.len() ==> forall|p: int| from <= p < i ==> left@[p] < right@[j as int],
            i < left@.len() ==> forall|q: int| 0 <= q < j ==> right@[q] < left@[i as int],
        decreases left@.len() - i + right@.len() - j,
    {
        let lv = left[i];
        let rv = right[j];
        if lv < rv {
            i = i + 1;
        } else if rv < lv {
            j = j + 1;
        } else {
            let ghost old_out = out@;
            out.push(lv);
            i = i + 1;
            j = j + 1;
            proof {
                assert forall|p: int, q: int| 0 <= p < q < out@.len() implies out@[p] < out@[q] by {
                    if q == out@.len() - 1 {
                        assert(old_out.contains(old_out[p]));
                        assert(in_range(left@, from as int, i - 1, old_out[p]));
                        let pp = choose|pp: int|
                            from <= pp < i - 1 && 0 <= pp < left@.len() && left@[pp] == old_out[p];
                        assert(left@[pp] < left@[i - 1]);
                    }
                }
                assert forall|v: usize|
                    #[trigger] out@.contains(v) <==> in_range(left@, from as int, i as int, v)
                        && in_range(right@, 0, j as int, v) by {
                    if out@.contains(v) {
                        let p = choose|p: int| 0 <= p < out@.len() && out@[p] == v;
                        if p < old_out.len() {
                            assert(old_out.contains(v));
                        } else {
                            assert(v == lv);
                            assert(left@[i - 1] == v && right@[j - 1] == v);
                        }
                    }
                    if in_range(left@, from as int, i as int, v) && in_range(
                        right@,
                        0,
                        j as int,
                        v,
                    ) {
                        let p = choose|p: int|
                            from <= p < i && 0 <= p < left@.len() && left@[p] == v;
                        let q = choose|q: int| 0 <= q < j && 0 <= q < right@.len() && right@[q] == v;
                        if p < i - 1 && q < j - 1 {
                            assert(old_out.contains(v));
                            let po = choose|po: int| 0 <= po < old_out.len() && old_out[po] == v;
                            assert(out@[po] == v);
                        } else if p == i - 1 {
                            assert(out@[out@.len() - 1] == v);
                        } else {
                            assert(q == j - 1);
                            assert(out@[out@.len() - 1] == v);
                        }
                    }
                }
            }
        }
    }
    proof {
        assert forall|v: usize|
            #[trigger] out@.contains(v) <==> in_range(left@, from as int, left@.len() as int, v)
                && right@.contains(v) by {
            if out@.contains(v) {
                assert(in_range(left@, from as int, i as int, v));
                assert(in_range(right@, 0, j as int, v));
                let q = choose|q: int| 0 <= q < j && 0 <= q < right@.len() && right@[q] == v;
                assert(right@[q] == v);
            }
            if in_range(left@, from as int, left@.len() as int, v) && right@.contains(v) {
                let p = choose|p: int|
                    from <= p < left@.len() && 0 <= p < left@.len() && left@[p] == v;
                let q = choose|q: int| 0 <= q < right@.len() && right@[q] == v;
                if i == left@.len() {
                    if q >= j {
                        assert(left@[p] < right@[j as int]);
                        assert(right@[j as int] <= right@[q]);
                        assert(false);
                    }
                } else {
                    if p >= i {
                        assert(right@[q] < left@[i as int]);
                        assert(left@[i as int] <= left@[p]);
                        assert(false);
                    }
                }
                assert(in_range(left@, from as int, i as int, v));
                assert(in_range(right@, 0, j as int, v));
            }
        }
    }
    out
}

} // verus!

verus! {

/// A detected pentagram: five ascending marker indices that form a 5-clique
/// passing the pentagon test, and the five-fold centroid of their positions.
#[derive(Clone, Copy, Debug, PartialEq, Eq, Structural)]
pub struct Pentagram {
    pub a: usize,
    pub b: usize,
    pub c: usize,
    pub d: usize,
    pub e: usize,
    pub x5: i64,
    pub y5: i64,
}

/// The five marker positions selected by the indices, in order.
pub open spec fn five_points(flags: Seq<Flag>, a: int, b: int, c: int, d: int, e: int) -> Seq<
    Pos,
> {
    seq![flags[a].pos, flags[b].pos, flags[c].pos, flags[d].pos, flags[e].pos]
}

/// `a < b < c < d < e` index a 5-clique of the proximity graph whose points
/// pass the pentagon regularity test.
pub open spec fn valid_pentagram(
    flags: Seq<Flag>,
    md: int,
    a: int,
    b: int,
    c: int,
    d: int,
    e: int,
) -> bool {
    &&& 0 <= a < b < c < d < e < flags.len()
    &&& close(flags, md, a, b)
    &&& close(flags, md, a, c)
    &&& close(flags, md, a, d)
    &&& close(flags, md, a, e)
    &&& close(flags, md, b, c)
    &&& close(flags, md, b, d)
    &&& close(flags, md, b, e)
    &&& close(flags, md, c, d)
    &&& close(flags, md, c, e)
    &&& close(flags, md, d, e)
    &&& pentagon_ok(five_points(flags, a, b, c, d, e), md)
}

/// The entry records a valid pentagram together with its five-fold centroid.
pub open spec fn pent_matches(p: Pentagram, flags: Seq<Flag>, md: int) -> bool {
    &&& valid_pentagram(flags, md, p.a as int, p.b as int, p.c as int, p.d as int, p.e as int)
    &&& p.x5 == sum_x(five_points(flags, p.a as int, p.b as int, p.c as int, p.d as int, p.e as int))
    &&& p.y5 == sum_y(five_points(flags, p.a as int, p.b as int, p.c as int, p.d as int, p.e as int))
}

/// Some entry of `ps` carries exactly these five indices.
pub open spec fn has_pent(ps: Seq<Pentagram>, a: int, b: int, c: int, d: int, e: int) -> bool {
    exists|k: int|
        #![trigger ps[k]]
        0 <= k < ps.len() && ps[k].a == a && ps[k].b == b && ps[k].c == c && ps[k].d == d
            && ps[k].e == e
}

/// Every valid pentagram of the snapshot is listed.
pub open spec fn pents_complete(ps: Seq<Pentagram>, flags: Seq<Flag>, md: int) -> bool {
    forall|a: int, b: int, c: int, d: int, e: int|
        #[trigger] valid_pentagram(flags, md, a, b, c, d, e) ==> has_pent(ps, a, b, c, d, e)
}

/// Strict lexicographic order on the index tuples of two pentagrams.
pub open spec fn pent_lex_lt(p: Pentagram, q: Pentagram) -> bool {
    p.a < q.a || (p.a == q.a && (p.b < q.b || (p.b == q.b && (p.c < q.c || (p.c == q.c && (p.d
        < q.d || (p.d == q.d && p.e < q.e)))))))
}

/// The pentagram list is sound, complete, and strictly ordered (so each
/// 5-clique appears exactly once).
pub open spec fn pents_ok(ps: Seq<Pentagram>, flags: Seq<Flag>, md: int) -> bool {
    &&& forall|k: int| 0 <= k < ps.len() ==> pent_matches(#[trigger] ps[k], flags, md)
    &&& pents_complete(ps, flags, md)
    &&& forall|k1: int, k2: int| 0 <= k1 < k2 < ps.len() ==> pent_lex_lt(ps[k1], ps[k2])
}

/// An ascending candidate list holding exactly the indices beyond `b` whose
/// markers are close to both anchors `a` and `b`.
spec fn cand_list2(s: Seq<usize>, flags: Seq<Flag>, md: int, a: int, b: int) -> bool {
    &&& strictly_increasing(s)
    &&& forall|v: usize|
        #[trigger] s.contains(v) <==> (b < v && v < flags.len() && close(flags, md, a, v as int)
            && close(flags, md, b, v as int))
}

/// As `cand_list2`, with the three anchors `a`, `b`, `c`.
spec fn cand_list3(s: Seq<usize>, flags: Seq<Flag>, md: int, a: int, b: int, c: int) -> bool {
    &&& strictly_increasing(s)
    &&& forall|v: usize|
        #[trigger] s.contains(v) <==> (c < v && v < flags.len() && close(flags, md, a, v as int)
            && close(flags, md, b, v as int) && close(flags, md, c, v as int))
}

/// As `cand_list2`, with the four anchors `a`, `b`, `c`, `d`.
spec fn cand_list4(s: Seq<usize>, flags: Seq<Flag>, md: int, a: int, b: int, c: int, d: int) -> bool {
    &&& strictly_increasing(s)
    &&& forall|v: usize|
        #[trigger] s.contains(v) <==> (d < v && v < flags.len() && close(flags, md, a, v as int)
            && close(flags, md, b, v as int) && close(flags, md, c, v as int) && close(
            flags,
            md,
            d,
            v as int,
        ))
}

/// Entry `p` lies lexicographically before any tuple starting at `a`, `bv`.
spec fn le_b(p: Pentagram, a: int, bv: int) -> bool {
    p.a < a || (p.a == a && p.b < bv)
}

spec fn le_c(p: Pentagram, a: int, b: int, cv: int) -> bool {
    p.a < a || (p.a == a && (p.b < b || (p.b == b && p.c < cv)))
}

spec fn le_d(p: Pentagram, a: int, b: int, c: int, dv: int) -> bool {
    p.a < a || (p.a == a && (p.b < b || (p.b == b && (p.c < c || (p.c == c && p.d < dv)))))
}

spec fn le_e(p: Pentagram, a: int, b: int, c: int, d: int, ev: int) -> bool {
    p.a < a || (p.a == a && (p.b < b || (p.b == b && (p.c < c || (p.c == c && (p.d < d || (p.d
        == d && p.e < ev)))))))
}

} // verus!


verus! {

/// The search's standing context: a bounded snapshot under a positive
/// threshold, with its higher-index neighbor lists.
pub open spec fn search_ctx(flags: Seq<Flag>, md: int, nb: Seq<Vec<usize>>) -> bool {
    &&& 1 <= md <= COORD_LIMIT
    &&& all_in_bounds(flags)
    &&& neighbor_lists_ok(nb, flags, md)
}

/// The accumulated hits are valid and strictly ordered.
spec fn ps_wf(ps: Seq<Pentagram>, flags: Seq<Flag>, md: int) -> bool {
    &&& forall|k: int| 0 <= k < ps.len() ==> pent_matches(#[trigger] ps[k], flags, md)
    &&& forall|k1: int, k2: int| 0 <= k1 < k2 < ps.len() ==> pent_lex_lt(ps[k1], ps[k2])
}

/// The list only grows; entries already present stay untouched.
spec fn grows(before: Seq<Pentagram>, after: Seq<Pentagram>) -> bool {
    &&& after.len() >= before.len()
    &&& forall|k: int| 0 <= k < before.len() ==> after[k] == #[trigger] before[k]
}

proof fn lemma_has_pent_grows(
    before: Seq<Pentagram>,
    after: Seq<Pentagram>,
    a: int,
    b: int,
    c: int,
    d: int,
    e: int,
)
    requires
        grows(before, after),
        has_pent(before, a, b, c, d, e),
    ensures
        has_pent(after, a, b, c, d, e),
{
    let k = choose|k: int|
        #![trigger before[k]]
        0 <= k < before.len() && before[k].a == a && before[k].b == b && before[k].c == c
            && before[k].d == d && before[k].e == e;
    assert(after[k].a == a);
}

/// Innermost level: try each remaining candidate `e` atop the fixed
/// four-index prefix, and record the tuples that pass the pentagon test.
#[verifier::loop_isolation(false)]
fn search_e(
    flags: &[Flag],
    md: i64,
    a: usize,
    b: usize,
    c: usize,
    d: usize,
    ec: &Vec<usize>,
    ps: &mut Vec<Pentagram>,
)
    requires
        1 <= md <= COORD_LIMIT,
        all_in_bounds(flags@),
        a < b && b < c && c < d && d < flags@.len(),
        close(flags@, md as int, a as int, b as int),
        close(flags@, md as int, a as int, c as int),
        close(flags@, md as int, a as int, d as int),
        close(flags@, md as int, b as int, c as int),
        close(flags@, md as int, b as int, d as int),
        close(flags@, md as int, c as int, d as int),
        cand_list4(ec@, flags@, md as int, a as int, b as int, c as int, d as int),
        ps_wf(old(ps)@, flags@, md as int),
        forall|k: int|
            0 <= k < old(ps)@.len() ==> le_d(
                #[trigger] old(ps)@[k],
                a as int,
                b as int,
                c as int,
                d as int,
            ),
    ensures
        ps_wf(final(ps)@, flags@, md as int),
        grows(old(ps)@, final(ps)@),
        forall|k: int|
            0 <= k < final(ps)@.len() ==> le_d(
                #[trigger] final(ps)@[k],
                a as int,
                b as int,
                c as int,
                d + 1,
            ),
        forall|e2: int|
            #[trigger] valid_pentagram(
                flags@,
                md as int,
                a as int,
                b as int,
                c as int,
                d as int,
                e2,
            ) ==> has_pent(final(ps)@, a as int, b as int, c as int, d as int, e2),
{
    // pins the snapshot's length as a usize, so index casts stay in range
    let _n = flags.len();
    let mut ep: usize = 0;
    while ep < ec.len()
        invariant
            ep <= ec@.len(),
            ps_wf(ps@, flags@, md as int),
            grows(old(ps)@, ps@),
            forall|k: int|
                0 <= k < ps@.len() ==> le_d(#[trigger] ps@[k], a as int, b as int, c as int, d + 1),
            forall|k: int|
                0 <= k < ps@.len() && ep < ec@.len() ==> le_e(
                    #[trigger] ps@[k],
                    a as int,
                    b as int,
                    c as int,
                    d as int,
                    ec@[ep as int] as int,
                ),
            forall|e2: int|
                in_range(ec@, 0, ep as int, e2 as usize) && #[trigger] valid_pentagram(
                    flags@,
                    md as int,
                    a as int,
                    b as int,
                    c as int,
                    d as int,
                    e2,
                ) ==> has_pent(ps@, a as int, b as int, c as int, d as int, e2),
        decreases ec@.len() - ep,
    {
        let e = ec[ep];
        proof {
            assert(ec@.contains(ec@[ep as int]));
        }
        let center = pentagram_center(
            flags[a].pos,
            flags[b].pos,
            flags[c].pos,
            flags[d].pos,
            flags[e].pos,
            md,
        );
        let ghost before = ps@;
        proof {
            assert(five_points(flags@, a as int, b as int, c as int, d as int, e as int) =~= seq![
                flags@[a as int].pos,
                flags@[b as int].pos,
                flags@[c as int].pos,
                flags@[d as int].pos,
                flags@[e as int].pos,
            ]);
        }
        match center {
            Some((x5, y5)) => {
                ps.push(Pentagram { a, b, c, d, e, x5, y5 });
                proof {
                    assert(valid_pentagram(
                        flags@,
                        md as int,
                        a as int,
                        b as int,
                        c as int,
                        d as int,
                        e as int,
                    ));
                    assert(pent_matches(ps@[before.len() as int], flags@, md as int));
                }
            },
            None => {
                proof {
                    assert(!valid_pentagram(
                        flags@,
                        md as int,
                        a as int,
                        b as int,
                        c as int,
                        d as int,
                        e as int,
                    ));
                }
            },
        }
        ep = ep + 1;
        proof {
            assert forall|e2: int|
                in_range(ec@, 0, ep as int, e2 as usize) && #[trigger] valid_pentagram(
                    flags@,
                    md as int,
                    a as int,
                    b as int,
                    c as int,
                    d as int,
                    e2,
                ) implies has_pent(ps@, a as int, b as int, c as int, d as int, e2) by {
                let p = choose|p: int|
                    0 <= p < ep && 0 <= p < ec@.len() && ec@[p] == e2 as usize;
                if p == ep - 1 {
                    assert(e2 == e);
                    assert(ps@[before.len() as int].a == a);
                } else {
                    assert(in_range(ec@, 0, ep - 1, e2 as usize));
                    assert(has_pent(before, a as int, b as int, c as int, d as int, e2));
                    lemma_has_pent_grows(
                        before,
                        ps@,
                        a as int,
                        b as int,
                        c as int,
                        d as int,
                        e2,
                    );
                }
            }
        }
    }
    proof {
        assert forall|e2: int| #[trigger] valid_pentagram(
            flags@,
            md as int,
            a as int,
            b as int,
            c as int,
            d as int,
            e2,
        ) implies has_pent(ps@, a as int, b as int, c as int, d as int, e2) by {
            assert((e2 as usize) as int == e2);
            assert(ec@.contains(e2 as usize));
            assert(in_range(ec@, 0, ec@.len() as int, e2 as usize));
        }
    }
}

/// Fourth level: extend the fixed three-index prefix with each candidate
/// `d`, intersecting the remaining window with `d`'s neighbors.
#[verifier::loop_isolation(false)]
fn search_d(
    flags: &[Flag],
    md: i64,
    nb: &Vec<Vec<usize>>,
    a: usize,
    b: usize,
    c: usize,
    dc: &Vec<usize>,
    ps: &mut Vec<Pentagram>,
)
    requires
        search_ctx(flags@, md as int, nb@),
        a < b && b < c && c < flags@.len(),
        close(flags@, md as int, a as int, b as int),
        close(flags@, md as int, a as int, c as int),
        close(flags@, md as int, b as int, c as int),
        cand_list3(dc@, flags@, md as int, a as int, b as int, c as int),
        ps_wf(old(ps)@, flags@, md as int),
        forall|k: int|
            0 <= k < old(ps)@.len() ==> le_c(#[trigger] old(ps)@[k], a as int, b as int, c as int),
    ensures
        ps_wf(final(ps)@, flags@, md as int),
        grows(old(ps)@, final(ps)@),
        forall|k: int|
            0 <= k < final(ps)@.len() ==> le_c(#[trigger] final(ps)@[k], a as int, b as int, c + 1),
        forall|d2: int, e2: int|
            #[trigger] valid_pentagram(flags@, md as int, a as int, b as int, c as int, d2, e2)
                ==> has_pent(final(ps)@, a as int, b as int, c as int, d2, e2),
{
    // pins the snapshot's length as a usize, so index casts stay in range
    let _n = flags.len();
    let mut dp: usize = 0;
    while dp < dc.len()
        invariant
            dp <= dc@.len(),
            ps_wf(ps@, flags@, md as int),
            grows(old(ps)@, ps@),
            forall|k: int|
                0 <= k < ps@.len() ==> le_c(#[trigger] ps@[k], a as int, b as int, c + 1),
            forall|k: int|
                0 <= k < ps@.len() && dp < dc@.len() ==> le_d(
                    #[trigger] ps@[k],
                    a as int,
                    b as int,
                    c as int,
                    dc@[dp as int] as int,
                ),
            forall|d2: int, e2: int|
                in_range(dc@, 0, dp as int, d2 as usize) && #[trigger] valid_pentagram(
                    flags@,
                    md as int,
                    a as int,
                    b as int,
                    c as int,
                    d2,
                    e2,
                ) ==> has_pent(ps@, a as int, b as int, c as int, d2, e2),
        decreases dc@.len() - dp,
    {
        let d = dc[dp];
        proof {
            assert(dc@.contains(dc@[dp as int]));
        }
        let ec = intersect_sorted(dc, dp + 1, &nb[d]);
        proof {
            assert(nb@[d as int]@ == nb[d as int]@);
            assert forall|v: usize| #[trigger] ec@.contains(v) implies (d < v && v < flags@.len()
                && close(flags@, md as int, a as int, v as int) && close(
                flags@,
                md as int,
                b as int,
                v as int,
            ) && close(flags@, md as int, c as int, v as int) && close(
                flags@,
                md as int,
                d as int,
                v as int,
            )) by {
                lemma_window_after(dc@, dp as int, v);
            }
            assert forall|v: usize|
                (d < v && v < flags@.len() && close(flags@, md as int, a as int, v as int) && close(
                    flags@,
                    md as int,
                    b as int,
                    v as int,
                ) && close(flags@, md as int, c as int, v as int) && close(
                    flags@,
                    md as int,
                    d as int,
                    v as int,
                )) implies #[trigger] ec@.contains(v) by {
                lemma_window_after(dc@, dp as int, v);
                assert(dc@.contains(v));
                assert(nb@[d as int]@.contains(v));
            }
            assert(cand_list4(ec@, flags@, md as int, a as int, b as int, c as int, d as int));
        }
        let ghost before = ps@;
        search_e(flags, md, a, b, c, d, &ec, ps);
        dp = dp + 1;
        proof {
            assert forall|d2: int, e2: int|
                in_range(dc@, 0, dp as int, d2 as usize) && #[trigger] valid_pentagram(
                    flags@,
                    md as int,
                    a as int,
                    b as int,
                    c as int,
                    d2,
                    e2,
                ) implies has_pent(ps@, a as int, b as int, c as int, d2, e2) by {
                let p = choose|p: int|
                    0 <= p < dp && 0 <= p < dc@.len() && dc@[p] == d2 as usize;
                if p == dp - 1 {
                    assert(d2 == d);
                } else {
                    assert(in_range(dc@, 0, dp - 1, d2 as usize));
                    assert(has_pent(before, a as int, b as int, c as int, d2, e2));
                    lemma_has_pent_grows(before, ps@, a as int, b as int, c as int, d2, e2);
                }
            }
        }
    }
    proof {
        assert forall|d2: int, e2: int| #[trigger] valid_pentagram(
            flags@,
            md as int,
            a as int,
            b as int,
            c as int,
            d2,
            e2,
        ) implies has_pent(ps@, a as int, b as int, c as int, d2, e2) by {
            assert((d2 as usize) as int == d2);
            assert(dc@.contains(d2 as usize));
            assert(in_range(dc@, 0, dc@.len() as int, d2 as usize));
        }
    }
}

} // verus!

verus! {

/// Third level: extend the fixed pair with each candidate `c`; a branch with
/// fewer than two remaining candidates cannot complete a 5-tuple.
#[verifier::loop_isolation(false)]
fn search_c(
    flags: &[Flag],
    md: i64,
    nb: &Vec<Vec<usize>>,
    a: usize,
    b: usize,
    cc: &Vec<usize>,
    ps: &mut Vec<Pentagram>,
)
    requires
        search_ctx(flags@, md as int, nb@),
        a < b && b < flags@.len(),
        close(flags@, md as int, a as int, b as int),
        cand_list2(cc@, flags@, md as int, a as int, b as int),
        ps_wf(old(ps)@, flags@, md as int),
        forall|k: int| 0 <= k < old(ps)@.len() ==> le_b(#[trigger] old(ps)@[k], a as int, b as int),
    ensures
        ps_wf(final(ps)@, flags@, md as int),
        grows(old(ps)@, final(ps)@),
        forall|k: int|
            0 <= k < final(ps)@.len() ==> le_b(#[trigger] final(ps)@[k], a as int, b + 1),
        forall|c2: int, d2: int, e2: int|
            #[trigger] valid_pentagram(flags@, md as int, a as int, b as int, c2, d2, e2)
                ==> has_pent(final(ps)@, a as int, b as int, c2, d2, e2),
{
    // pins the snapshot's length as a usize, so index casts stay in range
    let _n = flags.len();
    let mut cp: usize = 0;
    while cp < cc.len()
        invariant
            cp <= cc@.len(),
            ps_wf(ps@, flags@, md as int),
            grows(old(ps)@, ps@),
            forall|k: int| 0 <= k < ps@.len() ==> le_b(#[trigger] ps@[k], a as int, b + 1),
            forall|k: int|
                0 <= k < ps@.len() && cp < cc@.len() ==> le_c(
                    #[trigger] ps@[k],
                    a as int,
                    b as int,
                    cc@[cp as int] as int,
                ),
            forall|c2: int, d2: int, e2: int|
                in_range(cc@, 0, cp as int, c2 as usize) && #[trigger] valid_pentagram(
                    flags@,
                    md as int,
                    a as int,
                    b as int,
                    c2,
                    d2,
                    e2,
                ) ==> has_pent(ps@, a as int, b as int, c2, d2, e2),
        decreases cc@.len() - cp,
    {
        let c = cc[cp];
        proof {
            assert(cc@.contains(cc@[cp as int]));
        }
        let dc = intersect_sorted(cc, cp + 1, &nb[c]);
        proof {
            assert(nb@[c as int]@ == nb[c as int]@);
            assert forall|v: usize| #[trigger] dc@.contains(v) implies (c < v && v < flags@.len()
                && close(flags@, md as int, a as int, v as int) && close(
                flags@,
                md as int,
                b as int,
                v as int,
            ) && close(flags@, md as int, c as int, v as int)) by {
                lemma_window_after(cc@, cp as int, v);
            }
            assert forall|v: usize|
                (c < v && v < flags@.len() && close(flags@, md as int, a as int, v as int) && close(
                    flags@,
                    md as int,
                    b as int,
                    v as int,
                ) && close(flags@, md as int, c as int, v as int)) implies #[trigger] dc@.contains(
                v,
            ) by {
                lemma_window_after(cc@, cp as int, v);
                assert(cc@.contains(v));
                assert(nb@[c as int]@.contains(v));
            }
            assert(cand_list3(dc@, flags@, md as int, a as int, b as int, c as int));
        }
        let ghost before = ps@;
        if dc.len() >= 2 {
            search_d(flags, md, nb, a, b, c, &dc, ps);
        } else {
            proof {
                assert forall|d2: int, e2: int|
                    !valid_pentagram(flags@, md as int, a as int, b as int, c as int, d2, e2) by {
                    if valid_pentagram(flags@, md as int, a as int, b as int, c as int, d2, e2) {
                        assert((d2 as usize) as int == d2);
                        assert((e2 as usize) as int == e2);
                        assert(dc@.contains(d2 as usize));
                        assert(dc@.contains(e2 as usize));
                        lemma_two_members(dc@, d2 as usize, e2 as usize);
                    }
                }
            }
        }
        cp = cp + 1;
        proof {
            assert forall|c2: int, d2: int, e2: int|
                in_range(cc@, 0, cp as int, c2 as usize) && #[trigger] valid_pentagram(
                    flags@,
                    md as int,
                    a as int,
                    b as int,
                    c2,
                    d2,
                    e2,
                ) implies has_pent(ps@, a as int, b as int, c2, d2, e2) by {
                let p = choose|p: int| 0 <= p < cp && 0 <= p < cc@.len() && cc@[p] == c2 as usize;
                if p == cp - 1 {
                    assert(c2 == c);
                } else {
                    assert(in_range(cc@, 0, cp - 1, c2 as usize));
                    assert(has_pent(before, a as int, b as int, c2, d2, e2));
                    lemma_has_pent_grows(before, ps@, a as int, b as int, c2, d2, e2);
                }
            }
        }
    }
    proof {
        assert forall|c2: int, d2: int, e2: int| #[trigger] valid_pentagram(
            flags@,
            md as int,
            a as int,
            b as int,
            c2,
            d2,
            e2,
        ) implies has_pent(ps@, a as int, b as int, c2, d2, e2) by {
            assert((c2 as usize) as int == c2);
            assert(cc@.contains(c2 as usize));
            assert(in_range(cc@, 0, cc@.len() as int, c2 as usize));
        }
    }
}

/// Second level: extend anchor `a` with each of its higher neighbors; a
/// branch with fewer than four candidates cannot complete a 5-tuple.
#[verifier::loop_isolation(false)]
fn search_b(flags: &[Flag], md: i64, nb: &Vec<Vec<usize>>, a: usize, ps: &mut Vec<Pentagram>)
    requires
        search_ctx(flags@, md as int, nb@),
        a < flags@.len(),
        ps_wf(old(ps)@, flags@, md as int),
        forall|k: int| 0 <= k < old(ps)@.len() ==> (#[trigger] old(ps)@[k].a) < a,
    ensures
        ps_wf(final(ps)@, flags@, md as int),
        grows(old(ps)@, final(ps)@),
        forall|k: int| 0 <= k < final(ps)@.len() ==> (#[trigger] final(ps)@[k].a) <= a,
        forall|b2: int, c2: int, d2: int, e2: int|
            #[trigger] valid_pentagram(flags@, md as int, a as int, b2, c2, d2, e2) ==> has_pent(
                final(ps)@,
                a as int,
                b2,
                c2,
                d2,
                e2,
            ),
{
    // pins the snapshot's length as a usize, so index casts stay in range
    let _n = flags.len();
    let bc = &nb[a];
    proof {
        assert(bc@ == nb@[a as int]@);
    }
    if bc.len() < 4 {
        proof {
            assert forall|b2: int, c2: int, d2: int, e2: int|
                !valid_pentagram(flags@, md as int, a as int, b2, c2, d2, e2) by {
                if valid_pentagram(flags@, md as int, a as int, b2, c2, d2, e2) {
                    assert((b2 as usize) as int == b2);
                    assert((c2 as usize) as int == c2);
                    assert((d2 as usize) as int == d2);
                    assert((e2 as usize) as int == e2);
                    assert(bc@.contains(b2 as usize));
                    assert(bc@.contains(c2 as usize));
                    assert(bc@.contains(d2 as usize));
                    assert(bc@.contains(e2 as usize));
                    lemma_four_members(bc@, b2 as usize, c2 as usize, d2 as usize, e2 as usize);
                }
            }
        }
        return ;
    }
    let mut bp: usize = 0;
    while bp < bc.len()
        invariant
            bp <= bc@.len(),
            ps_wf(ps@, flags@, md as int),
            grows(old(ps)@, ps@),
            forall|k: int| 0 <= k < ps@.len() ==> (#[trigger] ps@[k].a) <= a,
            forall|k: int|
                0 <= k < ps@.len() && bp < bc@.len() ==> le_b(
                    #[trigger] ps@[k],
                    a as int,
                    bc@[bp as int] as int,
                ),
            forall|b2: int, c2: int, d2: int, e2: int|
                in_range(bc@, 0, bp as int, b2 as usize) && #[trigger] valid_pentagram(
                    flags@,
                    md as int,
                    a as int,
                    b2,
                    c2,
                    d2,
                    e2,
                ) ==> has_pent(ps@, a as int, b2, c2, d2, e2),
        decreases bc@.len() - bp,
    {
        let b = bc[bp];
        proof {
            assert(bc@.contains(bc@[bp as int]));
        }
        let cc = intersect_sorted(bc, bp + 1, &nb[b]);
        proof {
            assert(nb@[b as int]@ == nb[b as int]@);
            assert forall|v: usize| #[trigger] cc@.contains(v) implies (b < v && v < flags@.len()
                && close(flags@, md as int, a as int, v as int) && close(
                flags@,
                md as int,
                b as int,
                v as int,
            )) by {
                lemma_window_after(bc@, bp as int, v);
            }
            assert forall|v: usize|
                (b < v && v < flags@.len() && close(flags@, md as int, a as int, v as int) && close(
                    flags@,
                    md as int,
                    b as int,
                    v as int,
                )) implies #[trigger] cc@.contains(v) by {
                lemma_window_after(bc@, bp as int, v);
                assert(bc@.contains(v));
                assert(nb@[b as int]@.contains(v));
            }
            assert(cand_list2(cc@, flags@, md as int, a as int, b as int));
        }
        let ghost before = ps@;
        if cc.len() >= 3 {
            search_c(flags, md, nb, a, b, &cc, ps);
        } else {
            proof {
                assert forall|c2: int, d2: int, e2: int|
                    !valid_pentagram(flags@, md as int, a as int, b as int, c2, d2, e2) by {
                    if valid_pentagram(flags@, md as int, a as int, b as int, c2, d2, e2) {
                        assert((c2 as usize) as int == c2);
                        assert((d2 as usize) as int == d2);
                        assert((e2 as usize) as int == e2);
                        assert(cc@.contains(c2 as usize));
                        assert(cc@.contains(d2 as usize));
                        assert(cc@.contains(e2 as usize));
                        lemma_three_members(cc@, c2 as usize, d2 as usize, e2 as usize);
                    }
                }
            }
        }
        bp = bp + 1;
        proof {
            assert forall|b2: int, c2: int, d2: int, e2: int|
                in_range(bc@, 0, bp as int, b2 as usize) && #[trigger] valid_pentagram(
                    flags@,
                    md as int,
                    a as int,
                    b2,
                    c2,
                    d2,
                    e2,
                ) implies has_pent(ps@, a as int, b2, c2, d2, e2) by {
                let p = choose|p: int| 0 <= p < bp && 0 <= p < bc@.len() && bc@[p] == b2 as usize;
                if p == bp - 1 {
                    assert(b2 == b);
                } else {
                    assert(in_range(bc@, 0, bp - 1, b2 as usize));
                    assert(has_pent(before, a as int, b2, c2, d2, e2));
                    lemma_has_pent_grows(before, ps@, a as int, b2, c2, d2, e2);
                }
            }
        }
    }
    proof {
        assert forall|b2: int, c2: int, d2: int, e2: int| #[trigger] valid_pentagram(
            flags@,
            md as int,
            a as int,
            b2,
            c2,
            d2,
            e2,
        ) implies has_pent(ps@, a as int, b2, c2, d2, e2) by {
            assert((b2 as usize) as int == b2);
            assert(bc@.contains(b2 as usize));
            assert(in_range(bc@, 0, bc@.len() as int, b2 as usize));
        }
    }
}

/// Depth-first 5-clique enumeration over the proximity graph: every
/// ascending 5-tuple of pairwise-close indices is generated exactly once,
/// handed to the pentagon test, and the hits come back with their five-fold
/// centroids, in ascending lexicographic order.
#[verifier::loop_isolation(false)]
pub fn find_pentagrams(flags: &[Flag], md: i64, nb: &Vec<Vec<usize>>) -> (ps: Vec<Pentagram>)
    requires
        1 <= md <= COORD_LIMIT,
        all_in_bounds(flags@),
        neighbor_lists_ok(nb@, flags@, md as int),
        flags@.len() >= 5,
    ensures
        pents_ok(ps@, flags@, md as int),
{
    let n = flags.len();
    let mut ps: Vec<Pentagram> = Vec::new();
    let mut a: usize = 0;
    while a + 4 < n
        invariant
            a <= n - 4,
            ps_wf(ps@, flags@, md as int),
            forall|k: int| 0 <= k < ps@.len() ==> (#[trigger] ps@[k].a) < a,
            forall|a2: int, b2: int, c2: int, d2: int, e2: int|
                a2 < a && #[trigger] valid_pentagram(flags@, md as int, a2, b2, c2, d2, e2)
                    ==> has_pent(ps@, a2, b2, c2, d2, e2),
        decreases n - a,
    {
        let ghost before = ps@;
        search_b(flags, md, nb, a, &mut ps);
        a = a + 1;
        proof {
            assert forall|a2: int, b2: int, c2: int, d2: int, e2: int|
                a2 < a && #[trigger] valid_pentagram(flags@, md as int, a2, b2, c2, d2, e2)
                implies has_pent(ps@, a2, b2, c2, d2, e2) by {
                if a2 < a - 1 {
                    assert(has_pent(before, a2, b2, c2, d2, e2));
                    lemma_has_pent_grows(before, ps@, a2, b2, c2, d2, e2);
                }
            }
        }
    }
    proof {
        assert forall|a2: int, b2: int, c2: int, d2: int, e2: int| #[trigger] valid_pentagram(
            flags@,
            md as int,
            a2,
            b2,
            c2,
            d2,
            e2,
        ) implies has_pent(ps@, a2, b2, c2, d2, e2) by {
            assert(a2 < a);
        }
    }
    ps
}

} // verus!

verus! {

/// Two sequences that are strictly sorted by an asymmetric order and hold
/// the same members are the same sequence.
pub proof fn lemma_strict_sorted_unique<T>(s1: Seq<T>, s2: Seq<T>, lt: spec_fn(T, T) -> bool)
    requires
        forall|x: T, y: T| #[trigger] lt(x, y) ==> !lt(y, x),
        forall|k1: int, k2: int| 0 <= k1 < k2 < s1.len() ==> lt(#[trigger] s1[k1], #[trigger] s1[k2]),
        forall|k1: int, k2: int| 0 <= k1 < k2 < s2.len() ==> lt(#[trigger] s2[k1], #[trigger] s2[k2]),
        forall|x: T| s1.contains(x) <==> s2.contains(x),
    ensures
        s1 == s2,
    decreases s1.len(),
{
    if s1.len() == 0 {
        if s2.len() > 0 {
            assert(s2.contains(s2[0]));
            assert(s1.contains(s2[0]));
        }
        assert(s1 =~= s2);
    } else {
        assert(s1.contains(s1[0]));
        assert(s2.contains(s1[0]));
        assert(s2.contains(s2[0]));
        assert(s1.contains(s2[0]));
        let k = choose|k: int| 0 <= k < s2.len() && s2[k] == s1[0];
        let m = choose|m: int| 0 <= m < s1.len() && s1[m] == s2[0];
        if s1[0] != s2[0] {
            assert(k > 0 && m > 0);
            assert(lt(s2[0], s2[k]));
            assert(lt(s1[0], s1[m]));
            assert(false);
        }
        let t1 = s1.drop_first();
        let t2 = s2.drop_first();
        assert forall|x: T| t1.contains(x) implies t2.contains(x) by {
            lemma_tail_member(s1, s2, lt, x);
        }
        assert forall|x: T| t2.contains(x) implies t1.contains(x) by {
            lemma_tail_member(s2, s1, lt, x);
        }
        lemma_strict_sorted_unique(t1, t2, lt);
        assert(s1.len() == t1.len() + 1 && s2.len() == t2.len() + 1);
        assert forall|i: int| 0 <= i < s1.len() implies s1[i] == s2[i] by {
            if i > 0 {
                assert(s1.drop_first()[i - 1] == s2.drop_first()[i - 1]);
            }
        }
        assert(s1 =~= s2);
    }
}

/// A member of one tail is a member of the other, given equal membership of
/// the full sequences with equal heads.
proof fn lemma_tail_member<T>(s1: Seq<T>, s2: Seq<T>, lt: spec_fn(T, T) -> bool, x: T)
    requires
        forall|a: T, b: T| #[trigger] lt(a, b) ==> !lt(b, a),
        forall|k1: int, k2: int| 0 <= k1 < k2 < s1.len() ==> lt(#[trigger] s1[k1], #[trigger] s1[k2]),
        forall|k1: int, k2: int| 0 <= k1 < k2 < s2.len() ==> lt(#[trigger] s2[k1], #[trigger] s2[k2]),
        forall|y: T| s1.contains(y) <==> s2.contains(y),
        s1.len() > 0,
        s2.len() > 0,
        s1[0] == s2[0],
        s1.drop_first().contains(x),
    ensures
        s2.drop_first().contains(x),
{
    let i = choose|i: int| 0 <= i < s1.drop_first().len() && s1.drop_first()[i] == x;
    assert(s1[i + 1] == x);
    assert(lt(s1[0], x));
    assert(s1.contains(x));
    assert(s2.contains(x));
    let j = choose|j: int| 0 <= j < s2.len() && s2[j] == x;
    if j == 0 {
        assert(x == s1[0]);
        assert(false);
    }
    assert(s2.drop_first()[j - 1] == x);
}

/// Any two pentagram lists that are sound, complete, and strictly ordered
/// for the same snapshot are the same list.
pub proof fn lemma_pents_unique(ps1: Seq<Pentagram>, ps2: Seq<Pentagram>, flags: Seq<Flag>, md: int)
    requires
        pents_ok(ps1, flags, md),
        pents_ok(ps2, flags, md),
    ensures
        ps1 == ps2,
{
    let lt = |p: Pentagram, q: Pentagram| pent_lex_lt(p, q);
    assert forall|p: Pentagram| ps1.contains(p) implies ps2.contains(p) by {
        lemma_pent_member_swap(ps1, ps2, flags, md, p);
    }
    assert forall|p: Pentagram| ps2.contains(p) implies ps1.contains(p) by {
        lemma_pent_member_swap(ps2, ps1, flags, md, p);
    }
    assert forall|k1: int, k2: int| 0 <= k1 < k2 < ps1.len() implies lt(ps1[k1], ps1[k2]) by {
        assert(pent_lex_lt(ps1[k1], ps1[k2]));
    }
    assert forall|k1: int, k2: int| 0 <= k1 < k2 < ps2.len() implies lt(ps2[k1], ps2[k2]) by {
        assert(pent_lex_lt(ps2[k1], ps2[k2]));
    }
    lemma_strict_sorted_unique(ps1, ps2, lt);
}

proof fn lemma_pent_member_swap(
    ps1: Seq<Pentagram>,
    ps2: Seq<Pentagram>,
    flags: Seq<Flag>,
    md: int,
    p: Pentagram,
)
    requires
        pents_ok(ps1, flags, md),
        pents_ok(ps2, flags, md),
        ps1.contains(p),
    ensures
        ps2.contains(p),
{
    let k = choose|k: int| 0 <= k < ps1.len() && ps1[k] == p;
    assert(pent_matches(p, flags, md));
    assert(has_pent(ps2, p.a as int, p.b as int, p.c as int, p.d as int, p.e as int));
    let k2 = choose|k2: int|
        #![trigger ps2[k2]]
        0 <= k2 < ps2.len() && ps2[k2].a == p.a && ps2[k2].b == p.b && ps2[k2].c == p.c
            && ps2[k2].d == p.d && ps2[k2].e == p.e;
    assert(pent_matches(ps2[k2], flags, md));
    assert(ps2[k2] == p);
}

} // verus!
