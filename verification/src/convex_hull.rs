//! Lower convex hull of measurement records in the (duration, size)
//! plane.
//!
//! The scan walks records in ascending duration, keeping a stack whose
//! turns are never clockwise; a zero cross product (collinear triple)
//! does not pop, so collinear hull points are kept. The result is the
//! lower portion of the convex hull in ascending duration order, and
//! every input record lies on or above it.
use vstd::prelude::*;
use crate::algorithms::AlgorithmMetrics;

verus! {

/// z-coordinate of the vector product of (b - a) and (c - a), with
/// x = duration and y = size. A positive value means c lies strictly
/// above the directed line from a to b; negative means strictly below.
pub open spec fn cross(a: AlgorithmMetrics, b: AlgorithmMetrics, c: AlgorithmMetrics) -> int {
    (b.time_required - a.time_required) * (c.compressed_size - a.compressed_size) - (
    c.time_required - a.time_required) * (b.compressed_size - a.compressed_size)
}

/// Durations are pairwise strictly increasing along the sequence.
pub open spec fn times_strictly_increase(s: Seq<AlgorithmMetrics>) -> bool {
    forall|i: int, j: int|
        0 <= i < j < s.len() ==> s[i].time_required < s[j].time_required
}

/// Every consecutive triple turns counter-clockwise or is collinear:
/// the chain is convex from below.
pub open spec fn is_convex(s: Seq<AlgorithmMetrics>) -> bool {
    forall|i: int|
        0 <= i && i + 2 < s.len() ==> #[trigger] cross(s[i], s[i + 1], s[i + 2]) >= 0
}

/// Some chain segment spans q's duration and q lies on or above it.
#[verifier::opaque]
pub open spec fn covered_above(q: AlgorithmMetrics, s: Seq<AlgorithmMetrics>) -> bool {
    exists|i: int|
        0 <= i && i + 1 < s.len() && (#[trigger] s[i]).time_required <= q.time_required
            && q.time_required <= s[i + 1].time_required && cross(s[i], s[i + 1], q) >= 0
}

/// One scan step: pop while the top of the stack makes a clockwise
/// turn towards the candidate p.
#[verifier::opaque]
pub open spec fn scan_pop(st: Seq<AlgorithmMetrics>, p: AlgorithmMetrics) -> Seq<AlgorithmMetrics>
    decreases st.len(),
{
    if st.len() >= 2 && cross(st[st.len() - 2], st[st.len() - 1], p) < 0 {
        scan_pop(st.drop_last(), p)
    } else {
        st
    }
}

/// The whole scan over a duration-sorted sequence of records.
#[verifier::opaque]
pub open spec fn scan(s: Seq<AlgorithmMetrics>) -> Seq<AlgorithmMetrics>
    decreases s.len(),
{
    if s.len() == 0 {
        Seq::<AlgorithmMetrics>::empty()
    } else {
        scan_pop(scan(s.drop_last()), s.last()).push(s.last())
    }
}

/// Product of two u64 values, exact in u128.
pub(crate) fn mul_u64(x: u64, y: u64) -> (r: u128)
    ensures
        r == x as int * y as int,
{
    proof {
        assert((x as int) * (y as int) <= (u64::MAX as int) * (u64::MAX as int))
            by (nonlinear_arith)
            requires
                0 <= x as int <= u64::MAX as int,
                0 <= y as int <= u64::MAX as int,
        ;
        assert((u64::MAX as int) * (u64::MAX as int) < (u128::MAX as int));
    }
    (x as u128) * (y as u128)
}

/// Exact sign test for the cross product, without overflow: the two
/// duration differences are positive by the requires, so each side of
/// the comparison fits in a u128 once split by the sign of the size
/// differences.
#[verifier::spinoff_prover]
fn cross_is_neg(a: AlgorithmMetrics, b: AlgorithmMetrics, c: AlgorithmMetrics) -> (r: bool)
    requires
        a.time_required < b.time_required,
        b.time_required < c.time_required,
    ensures
        r == (cross(a, b, c) < 0),
{
    let dt_ab: u64 = b.time_required - a.time_required;
    let dt_ac: u64 = c.time_required - a.time_required;
    if c.compressed_size >= a.compressed_size {
        if b.compressed_size >= a.compressed_size {
            let lhs: u128 = mul_u64(dt_ab, c.compressed_size - a.compressed_size);
            let rhs: u128 = mul_u64(dt_ac, b.compressed_size - a.compressed_size);
            proof {
                assert(lhs == (b.time_required - a.time_required) * (c.compressed_size
                    - a.compressed_size));
                assert(rhs == (c.time_required - a.time_required) * (b.compressed_size
                    - a.compressed_size));
            }
            lhs < rhs
        } else {
            // c on or above a, b below a: the turn is counter-clockwise.
            proof {
                assert(cross(a, b, c) >= 0) by (nonlinear_arith)
                    requires
                        a.time_required < b.time_required < c.time_required,
                        c.compressed_size >= a.compressed_size,
                        b.compressed_size < a.compressed_size,
                        cross(a, b, c) == (b.time_required - a.time_required) * (
                        c.compressed_size - a.compressed_size) - (c.time_required
                            - a.time_required) * (b.compressed_size - a.compressed_size),
                ;
            }
            false
        }
    } else {
        if b.compressed_size >= a.compressed_size {
            // c below a, b on or above a: the turn is clockwise.
            proof {
                assert(cross(a, b, c) < 0) by (nonlinear_arith)
                    requires
                        a.time_required < b.time_required < c.time_required,
                        c.compressed_size < a.compressed_size,
                        b.compressed_size >= a.compressed_size,
                        cross(a, b, c) == (b.time_required - a.time_required) * (
                        c.compressed_size - a.compressed_size) - (c.time_required
                            - a.time_required) * (b.compressed_size - a.compressed_size),
                ;
            }
            true
        } else {
            let lhs: u128 = mul_u64(dt_ac, a.compressed_size - b.compressed_size);
            let rhs: u128 = mul_u64(dt_ab, a.compressed_size - c.compressed_size);
            proof {
                assert(lhs as int - rhs as int == cross(a, b, c)) by (nonlinear_arith)
                    requires
                        lhs as int == (c.time_required - a.time_required) * (a.compressed_size
                            - b.compressed_size),
                        rhs as int == (b.time_required - a.time_required) * (a.compressed_size
                            - c.compressed_size),
                        cross(a, b, c) == (b.time_required - a.time_required) * (
                        c.compressed_size - a.compressed_size) - (c.time_required
                            - a.time_required) * (b.compressed_size - a.compressed_size),
                ;
            }
            lhs < rhs
        }
    }
}

/// Planar triple-product identity for three vectors (at, ah), (bt, bh)
/// and (xt, xh) sharing an origin.
proof fn lemma_planar(at: int, ah: int, bt: int, bh: int, xt: int, xh: int)
    ensures
        (at * xh - ah * xt) * bt + (ah * bt - at * bh) * xt == (bt * xh - bh * xt) * at,
{
    assert((at * xh - ah * xt) * bt + (ah * bt - at * bh) * xt == (bt * xh - bh * xt) * at)
        by (nonlinear_arith);
}

/// The cross product vanishes when the third point is one of the two
/// segment endpoints.
proof fn lemma_cross_degenerate(a: AlgorithmMetrics, b: AlgorithmMetrics)
    ensures
        cross(a, b, a) == 0,
        cross(a, b, b) == 0,
{
    let at = a.time_required as int;
    let bt = b.time_required as int;
    let as_ = a.compressed_size as int;
    let bs = b.compressed_size as int;
    assert((bt - at) * (as_ - as_) - (at - at) * (bs - as_) == 0) by (nonlinear_arith);
    assert((bt - at) * (bs - as_) - (bt - at) * (bs - as_) == 0) by (nonlinear_arith);
}

/// A point on or above either of the two segments (u, t) and (t, c)
/// stays on or above the single segment (u, c) when t itself lies
/// strictly above the line from u to c; popping t therefore loses no
/// coverage.
#[verifier::spinoff_prover]
proof fn lemma_pop_preserves_cover(
    q: AlgorithmMetrics,
    u: AlgorithmMetrics,
    t: AlgorithmMetrics,
    c: AlgorithmMetrics,
)
    requires
        u.time_required < t.time_required,
        t.time_required < c.time_required,
        cross(u, t, c) < 0,
        (u.time_required <= q.time_required <= t.time_required && cross(u, t, q) >= 0) || (
        t.time_required <= q.time_required <= c.time_required && cross(t, c, q) >= 0),
    ensures
        u.time_required <= q.time_required <= c.time_required,
        cross(u, c, q) >= 0,
{
    let ut = u.time_required as int;
    let tt = t.time_required as int;
    let ct = c.time_required as int;
    let qt = q.time_required as int;
    let us = u.compressed_size as int;
    let ts = t.compressed_size as int;
    let cs = c.compressed_size as int;
    let qs = q.compressed_size as int;
    // t strictly above the line from u to c.
    let bb = (ts - us) * (ct - ut) - (cs - us) * (tt - ut);
    assert(bb > 0) by (nonlinear_arith)
        requires
            (tt - ut) * (cs - us) - (ct - ut) * (ts - us) < 0,
            bb == (ts - us) * (ct - ut) - (cs - us) * (tt - ut),
    ;
    let ww = (qs - us) * (ct - ut) - (cs - us) * (qt - ut);
    if u.time_required <= q.time_required <= t.time_required && cross(u, t, q) >= 0 {
        let aa = (qs - us) * (tt - ut) - (ts - us) * (qt - ut);
        assert(aa >= 0) by (nonlinear_arith)
            requires
                (tt - ut) * (qs - us) - (qt - ut) * (ts - us) >= 0,
                aa == (qs - us) * (tt - ut) - (ts - us) * (qt - ut),
        ;
        assert(((qs - us) * (tt - ut) - (ts - us) * (qt - ut)) * (ct - ut) + ((ts - us) * (ct
            - ut) - (cs - us) * (tt - ut)) * (qt - ut) == ((qs - us) * (ct - ut) - (cs - us) * (qt
            - ut)) * (tt - ut)) by (nonlinear_arith);
        assert(aa * (ct - ut) + bb * (qt - ut) == ww * (tt - ut));
        assert(aa * (ct - ut) >= 0) by (nonlinear_arith)
            requires
                aa >= 0,
                ct - ut > 0,
        ;
        assert(bb * (qt - ut) >= 0) by (nonlinear_arith)
            requires
                bb > 0,
                qt - ut >= 0,
        ;
        assert(ww >= 0) by (nonlinear_arith)
            requires
                ww * (tt - ut) >= 0,
                tt - ut > 0,
        ;
    } else {
        let aa = (qs - ts) * (ct - tt) - (cs - ts) * (qt - tt);
        assert(aa >= 0) by (nonlinear_arith)
            requires
                (ct - tt) * (qs - ts) - (qt - tt) * (cs - ts) >= 0,
                aa == (qs - ts) * (ct - tt) - (cs - ts) * (qt - tt),
        ;
        // The same identity, anchored at c instead of u.
        lemma_planar(tt - ct, ts - cs, ut - ct, us - cs, qt - ct, qs - cs);
        let p1 = (tt - ct) * (qs - cs) - (ts - cs) * (qt - ct);
        let p2 = (ts - cs) * (ut - ct) - (tt - ct) * (us - cs);
        let p3 = (ut - ct) * (qs - cs) - (us - cs) * (qt - ct);
        assert(p1 == -aa) by (nonlinear_arith)
            requires
                p1 == (tt - ct) * (qs - cs) - (ts - cs) * (qt - ct),
                aa == (qs - ts) * (ct - tt) - (cs - ts) * (qt - tt),
        ;
        assert(p2 == -bb) by (nonlinear_arith)
            requires
                p2 == (ts - cs) * (ut - ct) - (tt - ct) * (us - cs),
                bb == (ts - us) * (ct - ut) - (cs - us) * (tt - ut),
        ;
        assert(p3 == -ww) by (nonlinear_arith)
            requires
                p3 == (ut - ct) * (qs - cs) - (us - cs) * (qt - ct),
                ww == (qs - us) * (ct - ut) - (cs - us) * (qt - ut),
        ;
        assert(p1 * (ut - ct) + p2 * (qt - ct) == p3 * (tt - ct));
        assert(aa * (ct - ut) + bb * (ct - qt) == ww * (ct - tt)) by (nonlinear_arith)
            requires
                p1 == -aa,
                p2 == -bb,
                p3 == -ww,
                p1 * (ut - ct) + p2 * (qt - ct) == p3 * (tt - ct),
        ;
        assert(aa * (ct - ut) >= 0) by (nonlinear_arith)
            requires
                aa >= 0,
                ct - ut > 0,
        ;
        assert(bb * (ct - qt) >= 0) by (nonlinear_arith)
            requires
                bb > 0,
                ct - qt >= 0,
        ;
        assert(ww >= 0) by (nonlinear_arith)
            requires
                ww * (ct - tt) >= 0,
                ct - tt > 0,
        ;
    }
    assert(cross(u, c, q) == ww) by (nonlinear_arith)
        requires
            ww == (qs - us) * (ct - ut) - (cs - us) * (qt - ut),
            cross(u, c, q) == (ct - ut) * (qs - us) - (qt - ut) * (cs - us),
    ;
}

/// Popping the clockwise-turning top of the stack keeps every record
/// that was covered by the chain-with-candidate covered.
#[verifier::spinoff_prover]
proof fn lemma_pop_chain_cover(q: AlgorithmMetrics, pre: Seq<AlgorithmMetrics>, p: AlgorithmMetrics)
    requires
        pre.len() >= 2,
        times_strictly_increase(pre),
        pre.last().time_required < p.time_required,
        cross(pre[pre.len() - 2], pre[pre.len() - 1], p) < 0,
        covered_above(q, pre.push(p)),
    ensures
        covered_above(q, pre.drop_last().push(p)),
{
    reveal(covered_above);
    let m = pre.len() as int;
    let u = pre[m - 2];
    let t = pre[m - 1];
    let w = choose|w: int|
        0 <= w && w + 1 < pre.push(p).len() && (#[trigger] pre.push(p)[w]).time_required
            <= q.time_required && q.time_required <= pre.push(p)[w + 1].time_required && cross(
            pre.push(p)[w],
            pre.push(p)[w + 1],
            q,
        ) >= 0;
    let post = pre.drop_last().push(p);
    if w + 2 < m {
        // A segment wholly inside the untouched part of the stack.
        assert(post[w] == pre.push(p)[w]);
        assert(post[w + 1] == pre.push(p)[w + 1]);
        assert(0 <= w && w + 1 < post.len() && post[w].time_required <= q.time_required
            && q.time_required <= post[w + 1].time_required && cross(post[w], post[w + 1], q)
            >= 0);
    } else {
        // One of the two segments that meet at the popped point t:
        // re-cover with the single segment (u, p).
        assert(w + 2 == m || w + 1 == m);
        if w + 2 == m {
            assert(pre.push(p)[w] == u);
            assert(pre.push(p)[w + 1] == t);
        } else {
            assert(pre.push(p)[w] == t);
            assert(pre.push(p)[w + 1] == p);
        }
        lemma_pop_preserves_cover(q, u, t, p);
        assert(post[m - 2] == u);
        assert(post[m - 1] == p);
        assert(0 <= m - 2 && m - 1 < post.len() && post[m - 2].time_required <= q.time_required
            && q.time_required <= post[m - 1].time_required && cross(post[m - 2], post[m - 1], q)
            >= 0);
    }
}

/// Package a single covering segment into the chain-coverage predicate.
proof fn lemma_seg_cover(q: AlgorithmMetrics, s: Seq<AlgorithmMetrics>, k: int)
    requires
        0 <= k,
        k + 1 < s.len(),
        s[k].time_required <= q.time_required,
        q.time_required <= s[k + 1].time_required,
        cross(s[k], s[k + 1], q) >= 0,
    ensures
        covered_above(q, s),
{
    reveal(covered_above);
    assert(0 <= k && k + 1 < s.len() && (s[k]).time_required <= q.time_required
        && q.time_required <= s[k + 1].time_required && cross(s[k], s[k + 1], q) >= 0);
}

/// Appending a point to the chain keeps every covered record covered:
/// the old segments keep their indices.
proof fn lemma_push_cover(q: AlgorithmMetrics, s: Seq<AlgorithmMetrics>, p: AlgorithmMetrics)
    requires
        covered_above(q, s),
    ensures
        covered_above(q, s.push(p)),
{
    reveal(covered_above);
    let w = choose|w: int|
        0 <= w && w + 1 < s.len() && (#[trigger] s[w]).time_required <= q.time_required
            && q.time_required <= s[w + 1].time_required && cross(s[w], s[w + 1], q) >= 0;
    assert(s.push(p)[w] == s[w]);
    assert(s.push(p)[w + 1] == s[w + 1]);
    lemma_seg_cover(q, s.push(p), w);
}

/// A candidate that passes the pop test extends a convex chain to a
/// convex chain.
proof fn lemma_convex_push(s: Seq<AlgorithmMetrics>, p: AlgorithmMetrics)
    requires
        is_convex(s),
        s.len() >= 2 ==> cross(s[s.len() - 2], s[s.len() - 1], p) >= 0,
    ensures
        is_convex(s.push(p)),
{
    let post = s.push(p);
    let m = s.len() as int;
    assert forall|k: int| 0 <= k && k + 2 < post.len() implies cross(
        #[trigger] post[k],
        post[k + 1],
        post[k + 2],
    ) >= 0 by {
        if k + 2 < m {
            assert(post[k] == s[k] && post[k + 1] == s[k + 1] && post[k + 2] == s[k + 2]);
            assert(cross(s[k], s[k + 1], s[k + 2]) >= 0);
            assert(cross(post[k], post[k + 1], post[k + 2]) == cross(s[k], s[k + 1], s[k + 2]));
        } else {
            assert(k + 2 == m);
            assert(post[k] == s[m - 2] && post[k + 1] == s[m - 1] && post[k + 2] == p);
            assert(cross(post[k], post[k + 1], post[k + 2]) == cross(s[m - 2], s[m - 1], p));
        }
    }
}

/// Unfold one step of the scan along a prefix of the input.
proof fn lemma_scan_step(s: Seq<AlgorithmMetrics>, i: int)
    requires
        0 <= i < s.len(),
    ensures
        scan(s.take(i + 1)) == scan_pop(scan(s.take(i)), s[i]).push(s[i]),
{
    reveal(scan);
    assert(s.take(i + 1).drop_last() =~= s.take(i));
    assert(s.take(i + 1).last() == s[i]);
    assert(s.take(i + 1).len() == i + 1 > 0);
}

/// The lower convex hull of records sorted by strictly ascending
/// duration: the ordered subset whose chain every input record lies on
/// or above, convex from below, with collinear points kept. The first
/// and last input records are always on the hull.
#[verifier::rlimit(100)]
#[verifier::spinoff_prover]
pub fn lower_convex_hull(points: &Vec<AlgorithmMetrics>) -> (hull: Vec<AlgorithmMetrics>)
    requires
        points@.len() >= 1,
        times_strictly_increase(points@),
    ensures
        hull@ == scan(points@),
        hull@.len() >= 1,
        hull@[0] == points@[0],
        hull@.last() == points@.last(),
        times_strictly_increase(hull@),
        is_convex(hull@),
        forall|k: int| 0 <= k < hull@.len() ==> points@.contains(hull@[k]),
        points@.len() >= 2 ==> forall|j: int|
            0 <= j < points@.len() ==> covered_above(points@[j], hull@),
{
    let ghost gp = points@;
    let mut hull: Vec<AlgorithmMetrics> = Vec::new();
    hull.push(points[0]);
    proof {
        let s1 = gp.take(1);
        assert(hull@ == scan(s1)) by {
            reveal_with_fuel(scan, 2);
            reveal(scan_pop);
            assert(s1.len() == 1);
            assert(s1.last() == gp[0]);
            assert(s1.drop_last() =~= Seq::<AlgorithmMetrics>::empty());
            assert(scan(Seq::<AlgorithmMetrics>::empty()) == Seq::<AlgorithmMetrics>::empty());
            assert(scan_pop(Seq::<AlgorithmMetrics>::empty(), gp[0])
                == Seq::<AlgorithmMetrics>::empty());
            assert(scan(s1) == Seq::<AlgorithmMetrics>::empty().push(gp[0]));
            assert(hull@ =~= Seq::<AlgorithmMetrics>::empty().push(gp[0]));
        }
        assert(gp.contains(gp[0]));
    }
    let mut idx: usize = 1;
    while idx < points.len()
        invariant
            1 <= idx <= gp.len(),
            points@ == gp,
            times_strictly_increase(gp),
            hull@ == scan(gp.take(idx as int)),
            hull@.len() >= 1,
            hull@[0] == gp[0],
            hull@.last() == gp[idx - 1],
            times_strictly_increase(hull@),
            is_convex(hull@),
            forall|k: int| 0 <= k < hull@.len() ==> gp.contains(hull@[k]),
            idx >= 2 ==> forall|j: int| 0 <= j < idx ==> covered_above(gp[j], hull@),
        decreases gp.len() - idx,
    {
        let p = points[idx];
        let ghost i = idx as int;
        proof {
            assert(hull@.last().time_required < p.time_required);
            // Coverage carries over to the chain with the candidate
            // appended.
            assert forall|j: int| 0 <= j < i implies covered_above(gp[j], hull@.push(p)) by {
                if i == 1 {
                    // Only gp[0] is processed; it is the first chain point.
                    lemma_cross_degenerate(hull@[0], p);
                    assert(hull@.push(p)[0] == hull@[0]);
                    assert(hull@.push(p)[1] == p);
                    lemma_seg_cover(gp[j], hull@.push(p), 0);
                } else {
                    lemma_push_cover(gp[j], hull@, p);
                }
            }
        }
        while hull.len() >= 2 && cross_is_neg(hull[hull.len() - 2], hull[hull.len() - 1], p)
            invariant
                points@ == gp,
                0 <= i < gp.len(),
                p == gp[i],
                times_strictly_increase(gp),
                hull@.len() >= 1,
                hull@[0] == gp[0],
                times_strictly_increase(hull@),
                is_convex(hull@),
                forall|k: int| 0 <= k < hull@.len() ==> gp.contains(hull@[k]),
                hull@.last().time_required < p.time_required,
                scan_pop(scan(gp.take(i)), p) == scan_pop(hull@, p),
                forall|j: int| 0 <= j < i ==> covered_above(gp[j], hull@.push(p)),
            decreases hull@.len(),
        {
            let ghost pre = hull@;
            let u = hull[hull.len() - 2];
            hull.pop();
            proof {
                assert(hull@ =~= pre.drop_last());
                assert(scan_pop(pre, p) == scan_pop(hull@, p)) by {
                    reveal(scan_pop);
                }
                assert(hull@.last() == u);
                assert forall|j: int| 0 <= j < i implies covered_above(gp[j], hull@.push(p)) by {
                    lemma_pop_chain_cover(gp[j], pre, p);
                }
            }
        }
        let ghost before_push = hull@;
        hull.push(p);
        idx += 1;
        proof {
            // The scan spec takes the same step the loop just took.
            lemma_scan_step(gp, i);
            assert(scan_pop(before_push, p) == before_push) by {
                reveal(scan_pop);
            }
            assert(hull@ =~= before_push.push(p));
            assert(hull@ == scan(gp.take(i + 1)));
            assert(hull@.last() == gp[i]);
            assert(gp.contains(gp[i]));
            let m = before_push.len() as int;
            lemma_convex_push(before_push, p);
            // The candidate itself sits on the chain's final segment.
            lemma_cross_degenerate(before_push.last(), p);
            assert(hull@[m - 1] == before_push.last());
            assert(hull@[m] == p);
            lemma_seg_cover(gp[i], hull@, m - 1);
            assert forall|j: int| 0 <= j < i + 1 implies covered_above(gp[j], hull@) by {
                if j < i {
                    assert(covered_above(gp[j], before_push.push(p)));
                }
            }
        }
    }
    proof {
        assert(gp.take(gp.len() as int) =~= gp);
    }
    hull
}

} // verus!
