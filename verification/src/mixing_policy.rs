//! The mixing policy: per-document lower convex hulls annotated with
//! marginal benefits, and budget queries over them.
//!
//! A document's measurements are sorted by duration (worse compressors
//! first among equal durations), equal-duration records keep only their
//! best size, obviously dominated records are filtered out with the
//! paper's two local passes, and the survivors' lower convex hull is
//! cut back to its strictly size-decreasing prefix. Each hull point
//! carries the exact rational benefit of its segment: bytes saved per
//! extra duration unit.
use vstd::prelude::*;
use crate::algorithms::AlgorithmMetrics;
use crate::algorithms::metrics_le;
use crate::convex_hull::covered_above;
use crate::convex_hull::cross;
use crate::convex_hull::is_convex;
use crate::convex_hull::lower_convex_hull;
use crate::convex_hull::scan;
use crate::convex_hull::times_strictly_increase;
use crate::workload::Workload;

verus! {

/// Marginal benefit of a hull segment as an exact rational: `saved`
/// bytes per `elapsed` duration units. The first hull point carries the
/// conventional zero benefit 0/1.
#[derive(Clone, Copy, Debug)]
pub struct Benefit {
    pub saved: u64,
    pub elapsed: u64,
}

/// b1 <= b2 as rationals saved/elapsed, by cross-multiplication.
pub open spec fn benefit_le(b1: Benefit, b2: Benefit) -> bool {
    b1.saved * b2.elapsed <= b2.saved * b1.elapsed
}

impl Benefit {
    /// Exact decision procedure for `benefit_le`.
    pub fn le(&self, other: &Benefit) -> (r: bool)
        ensures
            r == benefit_le(*self, *other),
    {
        let lhs: u128 = crate::convex_hull::mul_u64(self.saved, other.elapsed);
        let rhs: u128 = crate::convex_hull::mul_u64(other.saved, self.elapsed);
        lhs <= rhs
    }
}

/// A hull point: a measurement record together with the marginal
/// benefit of reaching it from the previous hull point.
#[derive(Clone, Copy, Debug)]
pub struct MetricsWithBenefit {
    pub metrics: AlgorithmMetrics,
    pub benefit: Benefit,
}

/// Records are ordered by the planner's total order.
pub open spec fn sorted_by_le(s: Seq<AlgorithmMetrics>) -> bool {
    forall|i: int, j: int| 0 <= i < j < s.len() ==> metrics_le(s[i], s[j])
}

/// Insert m into an ordered sequence, after any record it ties with.
#[verifier::opaque]
pub open spec fn insert_sorted(s: Seq<AlgorithmMetrics>, m: AlgorithmMetrics) -> Seq<
    AlgorithmMetrics,
>
    decreases s.len(),
{
    if s.len() == 0 {
        seq![m]
    } else if metrics_le(s.last(), m) {
        s.push(m)
    } else {
        insert_sorted(s.drop_last(), m).push(s.last())
    }
}

/// Stable insertion sort of the records.
#[verifier::opaque]
pub open spec fn sort_spec(s: Seq<AlgorithmMetrics>) -> Seq<AlgorithmMetrics>
    decreases s.len(),
{
    if s.len() == 0 {
        Seq::<AlgorithmMetrics>::empty()
    } else {
        insert_sorted(sort_spec(s.drop_last()), s.last())
    }
}

proof fn lemma_insert_sorted_props(s: Seq<AlgorithmMetrics>, m: AlgorithmMetrics)
    requires
        sorted_by_le(s),
    ensures
        insert_sorted(s, m).len() == s.len() + 1,
        sorted_by_le(insert_sorted(s, m)),
        forall|x: AlgorithmMetrics|
            #[trigger] insert_sorted(s, m).contains(x) <==> (s.contains(x) || x == m),
    decreases s.len(),
{
    reveal(insert_sorted);
    if s.len() == 0 {
        assert(insert_sorted(s, m) =~= seq![m]);
        assert forall|x: AlgorithmMetrics| #[trigger]
            insert_sorted(s, m).contains(x) <==> (s.contains(x) || x == m) by {
            if insert_sorted(s, m).contains(x) {
                assert(insert_sorted(s, m)[0] == m);
            }
            if x == m {
                assert(insert_sorted(s, m)[0] == x);
            }
        }
    } else if metrics_le(s.last(), m) {
        let r = s.push(m);
        assert forall|i: int, j: int| 0 <= i < j < r.len() implies metrics_le(r[i], r[j]) by {
            if j < s.len() {
                assert(metrics_le(s[i], s[j]));
            } else {
                assert(r[j] == m);
                if i < s.len() - 1 {
                    assert(metrics_le(s[i], s.last()));
                }
            }
        }
        assert forall|x: AlgorithmMetrics| #[trigger]
            r.contains(x) <==> (s.contains(x) || x == m) by {
            if r.contains(x) {
                let k = choose|k: int| 0 <= k < r.len() && r[k] == x;
                if k < s.len() {
                    assert(s[k] == x);
                } else {
                    assert(x == m);
                }
            }
            if s.contains(x) {
                let k = choose|k: int| 0 <= k < s.len() && s[k] == x;
                assert(r[k] == x);
            }
            if x == m {
                assert(r[s.len() as int] == x);
            }
        }
    } else {
        let s0 = s.drop_last();
        assert(sorted_by_le(s0)) by {
            assert forall|i: int, j: int| 0 <= i < j < s0.len() implies metrics_le(
                s0[i],
                s0[j],
            ) by {
                assert(metrics_le(s[i], s[j]));
            }
        }
        lemma_insert_sorted_props(s0, m);
        let r0 = insert_sorted(s0, m);
        let r = r0.push(s.last());
        assert(insert_sorted(s, m) == r);
        // The total order makes m precede s.last() here.
        assert(metrics_le(m, s.last()));
        assert forall|i: int, j: int| 0 <= i < j < r.len() implies metrics_le(r[i], r[j]) by {
            if j < r0.len() {
                assert(metrics_le(r0[i], r0[j]));
            } else {
                assert(r[j] == s.last());
                assert(r0.contains(r0[i]));
                if s0.contains(r0[i]) {
                    let k = choose|k: int| 0 <= k < s0.len() && s0[k] == r0[i];
                    assert(metrics_le(s[k], s.last()));
                } else {
                    assert(r0[i] == m);
                }
            }
        }
        assert forall|x: AlgorithmMetrics| #[trigger]
            r.contains(x) <==> (s.contains(x) || x == m) by {
            if r.contains(x) {
                let k = choose|k: int| 0 <= k < r.len() && r[k] == x;
                if k < r0.len() {
                    assert(r0.contains(x));
                    if s0.contains(x) {
                        let k2 = choose|k2: int| 0 <= k2 < s0.len() && s0[k2] == x;
                        assert(s[k2] == x);
                    }
                } else {
                    assert(x == s.last());
                    assert(s[s.len() - 1] == x);
                }
            }
            if s.contains(x) {
                let k = choose|k: int| 0 <= k < s.len() && s[k] == x;
                if k < s.len() - 1 {
                    assert(s0[k] == x);
                    assert(r0.contains(x));
                    let k2 = choose|k2: int| 0 <= k2 < r0.len() && r0[k2] == x;
                    assert(r[k2] == x);
                } else {
                    assert(r[r.len() - 1] == x);
                }
            }
            if x == m {
                assert(r0.contains(x));
                let k2 = choose|k2: int| 0 <= k2 < r0.len() && r0[k2] == x;
                assert(r[k2] == x);
            }
        }
    }
}

/// Sort records by ascending duration, worse compressors first among
/// equal durations: a stable insertion sort.
fn sort_metrics(v: &Vec<AlgorithmMetrics>) -> (r: Vec<AlgorithmMetrics>)
    ensures
        r@ == sort_spec(v@),
        r@.len() == v@.len(),
        sorted_by_le(r@),
        forall|x: AlgorithmMetrics| #[trigger] r@.contains(x) <==> v@.contains(x),
{
    let ghost gv = v@;
    let mut r: Vec<AlgorithmMetrics> = Vec::new();
    proof {
        reveal(sort_spec);
        assert(gv.take(0) =~= Seq::<AlgorithmMetrics>::empty());
        assert(r@ == sort_spec(gv.take(0)));
    }
    let mut idx: usize = 0;
    while idx < v.len()
        invariant
            0 <= idx <= gv.len(),
            v@ == gv,
            r@ == sort_spec(gv.take(idx as int)),
            r@.len() == idx,
            sorted_by_le(r@),
            forall|x: AlgorithmMetrics| #[trigger] r@.contains(x) <==> gv.take(
                idx as int,
            ).contains(x),
        decreases gv.len() - idx,
    {
        let m = v[idx];
        let ghost i = idx as int;
        let ghost pre = r@;
        let mut j: usize = r.len();
        proof {
            reveal(insert_sorted);
            assert(pre.take(j as int) =~= pre);
            assert(pre.skip(j as int) =~= Seq::<AlgorithmMetrics>::empty());
            assert(insert_sorted(pre, m) =~= insert_sorted(pre.take(j as int), m) + pre.skip(
                j as int,
            ));
        }
        while j > 0 && !(r[j - 1].le(&m))
            invariant
                0 <= j <= r@.len(),
                r@ == pre,
                insert_sorted(pre, m) == insert_sorted(pre.take(j as int), m) + pre.skip(j as int),
            decreases j,
        {
            proof {
                reveal(insert_sorted);
                let t = pre.take(j as int);
                assert(t.last() == pre[j - 1]);
                assert(!metrics_le(t.last(), m));
                assert(t.drop_last() =~= pre.take(j - 1));
                assert(insert_sorted(t, m) == insert_sorted(pre.take(j - 1), m).push(pre[j - 1]));
                assert(insert_sorted(pre.take(j - 1), m).push(pre[j - 1]) + pre.skip(j as int)
                    =~= insert_sorted(pre.take(j - 1), m) + pre.skip(j - 1));
            }
            j -= 1;
        }
        proof {
            reveal(insert_sorted);
            let t = pre.take(j as int);
            if j == 0 {
                assert(t =~= Seq::<AlgorithmMetrics>::empty());
                assert(insert_sorted(t, m) =~= seq![m]);
                assert(insert_sorted(t, m) =~= t.push(m));
            } else {
                assert(t.last() == pre[j - 1]);
                assert(metrics_le(t.last(), m));
                assert(insert_sorted(t, m) == t.push(m));
            }
        }
        r.insert(j, m);
        idx += 1;
        proof {
            assert(r@ == pre.insert(j as int, m));
            assert(pre.insert(j as int, m) =~= pre.take(j as int).push(m) + pre.skip(j as int));
            assert(r@ == insert_sorted(pre, m));
            lemma_insert_sorted_props(pre, m);
            // One more unfolding of the sort along the input prefix.
            reveal(sort_spec);
            assert(gv.take(i + 1).drop_last() =~= gv.take(i));
            assert(gv.take(i + 1).last() == gv[i]);
            assert(sort_spec(gv.take(i + 1)) == insert_sorted(sort_spec(gv.take(i)), gv[i]));
            assert(r@ == sort_spec(gv.take(i + 1)));
            assert forall|x: AlgorithmMetrics| #[trigger]
                r@.contains(x) <==> gv.take(i + 1).contains(x) by {
                if gv.take(i + 1).contains(x) {
                    let k = choose|k: int|
                        0 <= k < gv.take(i + 1).len() && #[trigger] gv.take(i + 1)[k] == x;
                    if k < i {
                        assert(gv.take(i)[k] == x);
                        assert(gv.take(i).contains(x));
                        assert(pre.contains(x));
                    } else {
                        assert(x == m);
                    }
                    assert(r@.contains(x));
                }
                if r@.contains(x) {
                    if pre.contains(x) {
                        assert(gv.take(i).contains(x));
                        let k = choose|k: int|
                            0 <= k < gv.take(i).len() && #[trigger] gv.take(i)[k] == x;
                        assert(gv.take(i + 1)[k] == x);
                        assert(gv.take(i + 1).contains(x));
                    } else {
                        assert(x == m);
                        assert(gv.take(i + 1)[i] == x);
                        assert(gv.take(i + 1).contains(x));
                    }
                }
            }
        }
    }
    proof {
        assert(gv.take(gv.len() as int) =~= gv);
    }
    r
}

/// Keep only the best (last, hence smallest) record of each
/// equal-duration run, scanning the first k records.
pub open spec fn dedup_prefix(s: Seq<AlgorithmMetrics>, k: int) -> Seq<AlgorithmMetrics>
    decreases k,
{
    if k <= 0 {
        Seq::<AlgorithmMetrics>::empty()
    } else if k == s.len() || s[k - 1].time_required != s[k].time_required {
        dedup_prefix(s, k - 1).push(s[k - 1])
    } else {
        dedup_prefix(s, k - 1)
    }
}

/// All equal-duration runs collapsed to their best record.
pub open spec fn dedup_times_spec(s: Seq<AlgorithmMetrics>) -> Seq<AlgorithmMetrics> {
    dedup_prefix(s, s.len() as int)
}

/// Some record of s is at least as fast and at least as small as x.
#[verifier::opaque]
pub open spec fn pw_dominated(x: AlgorithmMetrics, s: Seq<AlgorithmMetrics>) -> bool {
    exists|k: int|
        0 <= k < s.len() && (#[trigger] s[k]).time_required <= x.time_required
            && s[k].compressed_size <= x.compressed_size
}

proof fn lemma_pw_intro(x: AlgorithmMetrics, s: Seq<AlgorithmMetrics>, k: int)
    requires
        0 <= k < s.len(),
        s[k].time_required <= x.time_required,
        s[k].compressed_size <= x.compressed_size,
    ensures
        pw_dominated(x, s),
{
    reveal(pw_dominated);
}

proof fn lemma_pw_push(x: AlgorithmMetrics, s: Seq<AlgorithmMetrics>, p: AlgorithmMetrics)
    requires
        pw_dominated(x, s),
    ensures
        pw_dominated(x, s.push(p)),
{
    reveal(pw_dominated);
    let k = choose|k: int|
        0 <= k < s.len() && (#[trigger] s[k]).time_required <= x.time_required
            && s[k].compressed_size <= x.compressed_size;
    assert(s.push(p)[k] == s[k]);
}

/// Domination is closed upward: anything a dominated record dominates
/// is dominated too.
proof fn lemma_pw_weaken(x: AlgorithmMetrics, y: AlgorithmMetrics, s: Seq<AlgorithmMetrics>)
    requires
        pw_dominated(x, s),
        x.time_required <= y.time_required,
        x.compressed_size <= y.compressed_size,
    ensures
        pw_dominated(y, s),
{
    reveal(pw_dominated);
    let k = choose|k: int|
        0 <= k < s.len() && (#[trigger] s[k]).time_required <= x.time_required
            && s[k].compressed_size <= x.compressed_size;
    assert(s[k].time_required <= y.time_required);
}

/// Collapse equal-duration runs: among records that cost the same
/// duration only the smallest output is useful, and it sorts last.
fn dedup_times(v: &Vec<AlgorithmMetrics>) -> (r: Vec<AlgorithmMetrics>)
    requires
        sorted_by_le(v@),
    ensures
        r@ == dedup_times_spec(v@),
        times_strictly_increase(r@),
        v@.len() >= 1 ==> r@.len() >= 1,
        forall|k: int| 0 <= k < r@.len() ==> v@.contains(#[trigger] r@[k]),
        forall|j: int| 0 <= j < v@.len() ==> pw_dominated(#[trigger] v@[j], r@),
{
    let ghost gv = v@;
    let mut r: Vec<AlgorithmMetrics> = Vec::new();
    let mut i: usize = 0;
    while i < v.len()
        invariant
            0 <= i <= gv.len(),
            v@ == gv,
            sorted_by_le(gv),
            r@ == dedup_prefix(gv, i as int),
            times_strictly_increase(r@),
            i < gv.len() && r@.len() > 0 ==> r@.last().time_required < gv[i as int].time_required,
            i == gv.len() && gv.len() >= 1 ==> r@.len() >= 1,
            forall|k: int| 0 <= k < r@.len() ==> gv.contains(#[trigger] r@[k]),
            forall|j: int|
                0 <= j < i ==> pw_dominated(#[trigger] gv[j], r@) || (i < gv.len()
                    && gv[j].time_required == gv[i as int].time_required),
        decreases gv.len() - i,
    {
        let ghost gi = i as int;
        let ghost pre = r@;
        let keep = i + 1 == v.len() || v[i].time_required != v[i + 1].time_required;
        if keep {
            r.push(v[i]);
        }
        i += 1;
        proof {
            assert(gv.contains(gv[gi]));
            if keep {
                assert(r@ =~= pre.push(gv[gi]));
                assert(r@ == dedup_prefix(gv, gi + 1));
                assert forall|j: int| 0 <= j < gi + 1 implies pw_dominated(#[trigger] gv[j], r@)
                    || (gi + 1 < gv.len() && gv[j].time_required == gv[gi + 1].time_required) by {
                    if j == gi {
                        lemma_pw_intro(gv[j], r@, r@.len() - 1);
                    } else if pw_dominated(gv[j], pre) {
                        lemma_pw_push(gv[j], pre, gv[gi]);
                    } else {
                        // j's run was still open: it ends exactly at gi.
                        assert(gv[j].time_required == gv[gi].time_required);
                        assert(metrics_le(gv[j], gv[gi]));
                        lemma_pw_intro(gv[j], r@, r@.len() - 1);
                    }
                }
                assert forall|k: int| 0 <= k < r@.len() implies gv.contains(#[trigger] r@[k]) by {
                    if k < pre.len() {
                        assert(r@[k] == pre[k]);
                    }
                }
                if gi + 1 < gv.len() {
                    assert(metrics_le(gv[gi], gv[gi + 1]));
                }
            } else {
                assert(r@ == dedup_prefix(gv, gi + 1));
                assert(gv[gi].time_required == gv[gi + 1].time_required);
                assert forall|j: int| 0 <= j < gi + 1 implies pw_dominated(#[trigger] gv[j], r@)
                    || (gi + 1 < gv.len() && gv[j].time_required == gv[gi + 1].time_required) by {
                    if j < gi && !pw_dominated(gv[j], r@) {
                        assert(gv[j].time_required == gv[gi].time_required);
                    }
                }
            }
        }
    }
    proof {
        assert(r@ == dedup_prefix(gv, gv.len() as int));
    }
    r
}

/// The paper-faithful pre-hull filter: which of the duration-sorted
/// records survives the two local passes. The first record always
/// stays; a middle record stays when it improves on its predecessor
/// and is not a vertical step to its successor; the last record stays
/// when it improves on its predecessor.
pub open spec fn filter_keep(s: Seq<AlgorithmMetrics>, i: int) -> bool {
    i == 0 || (s[i].compressed_size < s[i - 1].compressed_size && (i == s.len() - 1
        || s[i].time_required != s[i + 1].time_required))
}

pub open spec fn filter_prefix(s: Seq<AlgorithmMetrics>, k: int) -> Seq<AlgorithmMetrics>
    decreases k,
{
    if k <= 0 {
        Seq::<AlgorithmMetrics>::empty()
    } else if filter_keep(s, k - 1) {
        filter_prefix(s, k - 1).push(s[k - 1])
    } else {
        filter_prefix(s, k - 1)
    }
}

pub open spec fn filter_spec(s: Seq<AlgorithmMetrics>) -> Seq<AlgorithmMetrics> {
    filter_prefix(s, s.len() as int)
}

/// Drop obviously dominated records before the hull call.
fn filter_metrics(v: &Vec<AlgorithmMetrics>) -> (r: Vec<AlgorithmMetrics>)
    requires
        times_strictly_increase(v@),
    ensures
        r@ == filter_spec(v@),
        times_strictly_increase(r@),
        v@.len() >= 1 ==> r@.len() >= 1 && r@[0] == v@[0],
        forall|k: int| 0 <= k < r@.len() ==> v@.contains(#[trigger] r@[k]),
        forall|j: int| 0 <= j < v@.len() ==> pw_dominated(#[trigger] v@[j], r@),
{
    let ghost gv = v@;
    let mut r: Vec<AlgorithmMetrics> = Vec::new();
    let ghost mut last_idx: int = 0;
    let mut i: usize = 0;
    while i < v.len()
        invariant
            0 <= i <= gv.len(),
            v@ == gv,
            times_strictly_increase(gv),
            r@ == filter_prefix(gv, i as int),
            times_strictly_increase(r@),
            i >= 1 ==> r@.len() >= 1 && r@[0] == gv[0],
            r@.len() > 0 ==> 0 <= last_idx < i && r@.last() == gv[last_idx],
            forall|k: int| 0 <= k < r@.len() ==> gv.contains(#[trigger] r@[k]),
            forall|j: int| 0 <= j < i ==> pw_dominated(#[trigger] gv[j], r@),
        decreases gv.len() - i,
    {
        let ghost gi = i as int;
        let ghost pre = r@;
        let keep = i == 0 || (v[i].compressed_size < v[i - 1].compressed_size && (i + 1
            == v.len() || v[i].time_required != v[i + 1].time_required));
        proof {
            assert(keep == filter_keep(gv, gi));
        }
        if keep {
            r.push(v[i]);
            proof {
                last_idx = gi;
            }
        }
        i += 1;
        proof {
            assert(gv.contains(gv[gi]));
            if keep {
                assert(r@ =~= pre.push(gv[gi]));
                assert(r@ == filter_prefix(gv, gi + 1));
                assert forall|k: int| 0 <= k < r@.len() implies gv.contains(#[trigger] r@[k]) by {
                    if k < pre.len() {
                        assert(r@[k] == pre[k]);
                    }
                }
                assert forall|j: int| 0 <= j < gi + 1 implies pw_dominated(
                    #[trigger] gv[j],
                    r@,
                ) by {
                    if j == gi {
                        lemma_pw_intro(gv[j], r@, r@.len() - 1);
                    } else {
                        lemma_pw_push(gv[j], pre, gv[gi]);
                    }
                }
            } else {
                assert(r@ == filter_prefix(gv, gi + 1));
                // Only the non-improving-size rule can drop here, so the
                // predecessor dominates the dropped record.
                assert(gi >= 1);
                assert(gv[gi].compressed_size >= gv[gi - 1].compressed_size);
                assert forall|j: int| 0 <= j < gi + 1 implies pw_dominated(
                    #[trigger] gv[j],
                    r@,
                ) by {
                    if j == gi {
                        assert(pw_dominated(gv[gi - 1], r@));
                        lemma_pw_weaken(gv[gi - 1], gv[gi], r@);
                    }
                }
            }
        }
    }
    proof {
        assert(r@ == filter_prefix(gv, gv.len() as int));
    }
    r
}

/// Compressed sizes are pairwise strictly decreasing.
pub open spec fn sizes_strictly_decrease(s: Seq<AlgorithmMetrics>) -> bool {
    forall|i: int, j: int|
        0 <= i < j < s.len() ==> s[i].compressed_size > s[j].compressed_size
}

/// Where the strictly size-decreasing prefix of the chain ends,
/// scanning from position k.
pub open spec fn trunc_len(s: Seq<AlgorithmMetrics>, k: int) -> int
    decreases s.len() - k,
{
    if k < 1 || k >= s.len() {
        s.len() as int
    } else if s[k].compressed_size >= s[k - 1].compressed_size {
        k
    } else {
        trunc_len(s, k + 1)
    }
}

/// The hull arc that is still worth paying for: once sizes stop
/// strictly decreasing along the chain, later points only cost time.
pub open spec fn trunc_spec(s: Seq<AlgorithmMetrics>) -> Seq<AlgorithmMetrics> {
    s.take(trunc_len(s, 1))
}

/// Keep the strictly size-decreasing prefix of the chain.
fn truncate_decreasing(v: &Vec<AlgorithmMetrics>) -> (r: Vec<AlgorithmMetrics>)
    requires
        v@.len() >= 1,
        times_strictly_increase(v@),
    ensures
        r@ == trunc_spec(v@),
        r@ == v@.take(r@.len() as int),
        1 <= r@.len() <= v@.len(),
        r@[0] == v@[0],
        times_strictly_increase(r@),
        sizes_strictly_decrease(r@),
        r@.len() < v@.len() ==> v@[r@.len() as int].compressed_size
            >= v@[r@.len() - 1].compressed_size,
{
    let ghost gv = v@;
    let mut r: Vec<AlgorithmMetrics> = Vec::new();
    r.push(v[0]);
    let mut k: usize = 1;
    proof {
        assert(r@ =~= gv.take(1));
    }
    while k < v.len() && v[k].compressed_size < v[k - 1].compressed_size
        invariant
            1 <= k <= gv.len(),
            v@ == gv,
            times_strictly_increase(gv),
            r@ == gv.take(k as int),
            sizes_strictly_decrease(r@),
            trunc_len(gv, 1) == trunc_len(gv, k as int),
        decreases gv.len() - k,
    {
        let ghost pre = r@;
        r.push(v[k]);
        k += 1;
        proof {
            assert(r@ =~= gv.take(k as int));
            assert forall|i: int, j: int| 0 <= i < j < r@.len() implies r@[i].compressed_size
                > r@[j].compressed_size by {
                if j < pre.len() {
                    assert(pre[i].compressed_size > pre[j].compressed_size);
                } else if i < pre.len() - 1 {
                    assert(pre[i].compressed_size > pre[pre.len() - 1].compressed_size);
                }
            }
        }
    }
    proof {
        if k < gv.len() {
            assert(trunc_len(gv, k as int) == k as int);
        } else {
            assert(trunc_len(gv, k as int) == gv.len());
            assert(r@ =~= gv.take(gv.len() as int));
        }
        assert(r@ == trunc_spec(gv));
        assert forall|i: int, j: int| 0 <= i < j < r@.len() implies r@[i].time_required
            < r@[j].time_required by {
            assert(gv[i].time_required < gv[j].time_required);
        }
    }
    r
}

/// Adjacent hull entries are wired correctly: duration strictly grows,
/// size strictly shrinks, and the benefit is exactly the bytes saved
/// over the extra duration of the step.
pub open spec fn step_ok(prev: MetricsWithBenefit, cur: MetricsWithBenefit) -> bool {
    cur.metrics.time_required > prev.metrics.time_required && cur.metrics.compressed_size
        < prev.metrics.compressed_size && cur.benefit.saved == prev.metrics.compressed_size
        - cur.metrics.compressed_size && cur.benefit.elapsed == cur.metrics.time_required
        - prev.metrics.time_required
}

/// Well-formed annotated hull: non-empty; the first point carries the
/// conventional zero benefit; every step is wired correctly (so sizes
/// strictly decrease and durations strictly increase along the hull);
/// and marginal benefits never increase along the hull.
pub open spec fn hull_wf(h: Seq<MetricsWithBenefit>) -> bool {
    h.len() >= 1 && h[0].benefit.saved == 0 && h[0].benefit.elapsed == 1 && (forall|i: int|
        1 <= i < h.len() ==> #[trigger] step_ok(h[i - 1], h[i])) && (forall|i: int|
        2 <= i < h.len() ==> #[trigger] benefit_le(h[i].benefit, h[i - 1].benefit))
}

/// A counter-clockwise (or collinear) turn means the later segment
/// saves no more bytes per duration unit than the earlier one.
proof fn lemma_cross_to_benefit(a: AlgorithmMetrics, b: AlgorithmMetrics, c: AlgorithmMetrics)
    requires
        a.time_required < b.time_required,
        b.time_required < c.time_required,
        a.compressed_size > b.compressed_size,
        b.compressed_size > c.compressed_size,
        cross(a, b, c) >= 0,
    ensures
        benefit_le(
            Benefit {
                saved: (b.compressed_size - c.compressed_size) as u64,
                elapsed: (c.time_required - b.time_required) as u64,
            },
            Benefit {
                saved: (a.compressed_size - b.compressed_size) as u64,
                elapsed: (b.time_required - a.time_required) as u64,
            },
        ),
{
    let at = a.time_required as int;
    let bt = b.time_required as int;
    let ct = c.time_required as int;
    let as_ = a.compressed_size as int;
    let bs = b.compressed_size as int;
    let cs = c.compressed_size as int;
    assert((bs - cs) * (bt - at) <= (as_ - bs) * (ct - bt)) by (nonlinear_arith)
        requires
            (bt - at) * (cs - as_) - (ct - at) * (bs - as_) >= 0,
    ;
}

/// Attach to each chain point the marginal benefit of its segment.
fn annotate_benefits(v: &Vec<AlgorithmMetrics>) -> (r: Vec<MetricsWithBenefit>)
    requires
        v@.len() >= 1,
        times_strictly_increase(v@),
        sizes_strictly_decrease(v@),
        is_convex(v@),
    ensures
        r@.len() == v@.len(),
        forall|i: int| 0 <= i < v@.len() ==> (#[trigger] r@[i]).metrics == v@[i],
        hull_wf(r@),
{
    let ghost gv = v@;
    let mut r: Vec<MetricsWithBenefit> = Vec::new();
    r.push(MetricsWithBenefit { metrics: v[0], benefit: Benefit { saved: 0, elapsed: 1 } });
    let mut i: usize = 1;
    while i < v.len()
        invariant
            1 <= i <= gv.len(),
            v@ == gv,
            times_strictly_increase(gv),
            sizes_strictly_decrease(gv),
            is_convex(gv),
            r@.len() == i,
            forall|k: int| 0 <= k < i ==> (#[trigger] r@[k]).metrics == gv[k],
            r@[0].benefit.saved == 0 && r@[0].benefit.elapsed == 1,
            forall|k: int| 1 <= k < i ==> #[trigger] step_ok(r@[k - 1], r@[k]),
            forall|k: int| 2 <= k < i ==> #[trigger] benefit_le(r@[k].benefit, r@[k - 1].benefit),
        decreases gv.len() - i,
    {
        let ghost pre = r@;
        let b = Benefit {
            saved: v[i - 1].compressed_size - v[i].compressed_size,
            elapsed: v[i].time_required - v[i - 1].time_required,
        };
        r.push(MetricsWithBenefit { metrics: v[i], benefit: b });
        i += 1;
        proof {
            let gi = i - 1;
            assert(step_ok(r@[gi - 1], r@[gi]));
            if gi >= 2 {
                let k = gi - 2;
                assert(cross(gv[k], gv[k + 1], gv[k + 2]) >= 0);
                assert(gv[k + 1] == gv[gi - 1] && gv[k + 2] == gv[gi]);
                let k1 = gi - 1;
                assert(step_ok(r@[k1 - 1], r@[k1]));
                lemma_cross_to_benefit(gv[gi - 2], gv[gi - 1], gv[gi]);
                assert(benefit_le(r@[gi].benefit, r@[gi - 1].benefit));
            }
        }
    }
    r
}

/// The duration-sorted, deduplicated, pre-filtered chain whose lower
/// convex hull the policy keeps, cut to its size-decreasing prefix.
pub open spec fn planned_chain(s: Seq<AlgorithmMetrics>) -> Seq<AlgorithmMetrics> {
    trunc_spec(scan(filter_spec(dedup_times_spec(sort_spec(s)))))
}

/// A single-document mixing policy: the lower convex hull of the
/// document's measurements, each hull point annotated with its
/// marginal benefit, in ascending duration order.
#[derive(Debug)]
pub struct MixingPolicy {
    pub lower_convex_hull: Vec<MetricsWithBenefit>,
}

impl MixingPolicy {
    /// Build the policy for one document. At least one measurement is
    /// required.
    pub fn new(algorithm_metrics: Vec<AlgorithmMetrics>) -> (r: MixingPolicy)
        requires
            algorithm_metrics@.len() >= 1,
        ensures
            hull_wf(r.lower_convex_hull@),
            r.lower_convex_hull@.len() == planned_chain(algorithm_metrics@).len(),
            forall|i: int|
                0 <= i < r.lower_convex_hull@.len() ==> (#[trigger] r.lower_convex_hull@[i]).metrics
                    == planned_chain(algorithm_metrics@)[i],
            forall|i: int|
                0 <= i < r.lower_convex_hull@.len() ==> algorithm_metrics@.contains(
                    (#[trigger] r.lower_convex_hull@[i]).metrics,
                ),
            forall|j: int|
                0 <= j < algorithm_metrics@.len() ==> weakly_dominated(
                    #[trigger] algorithm_metrics@[j],
                    planned_chain(algorithm_metrics@),
                ),
    {
        let sorted = sort_metrics(&algorithm_metrics);
        let deduped = dedup_times(&sorted);
        let filtered = filter_metrics(&deduped);
        let hull = lower_convex_hull(&filtered);
        let chain = truncate_decreasing(&hull);
        let annotated = annotate_benefits(&chain);
        proof {
            assert(chain@ == planned_chain(algorithm_metrics@));
            assert forall|i: int| 0 <= i < annotated@.len() implies algorithm_metrics@.contains(
                (#[trigger] annotated@[i]).metrics,
            ) by {
                assert(annotated@[i].metrics == chain@[i]);
                assert(chain@[i] == hull@[i]);
                assert(filtered@.contains(hull@[i]));
                assert(deduped@.contains(hull@[i])) by {
                    let k = choose|k: int|
                        0 <= k < filtered@.len() && #[trigger] filtered@[k] == hull@[i];
                    assert(deduped@.contains(filtered@[k]));
                }
                assert(sorted@.contains(hull@[i])) by {
                    let k = choose|k: int|
                        0 <= k < deduped@.len() && #[trigger] deduped@[k] == hull@[i];
                    assert(sorted@.contains(deduped@[k]));
                }
                assert(algorithm_metrics@.contains(hull@[i]));
            }
            // Minimality: every measurement is weakly dominated by the
            // hull, either pointwise or by the interpolation of an
            // adjacent hull pair.
            assert forall|j: int| 0 <= j < algorithm_metrics@.len() implies weakly_dominated(
                #[trigger] algorithm_metrics@[j],
                planned_chain(algorithm_metrics@),
            ) by {
                let x = algorithm_metrics@[j];
                assert(algorithm_metrics@.contains(x));
                assert(sorted@.contains(x));
                let k0 = choose|k: int| 0 <= k < sorted@.len() && #[trigger] sorted@[k] == x;
                assert(pw_dominated(sorted@[k0], deduped@));
                assert(pw_dominated(x, filtered@)) by {
                    reveal(pw_dominated);
                    let k1 = choose|k: int|
                        0 <= k < deduped@.len() && (#[trigger] deduped@[k]).time_required
                            <= x.time_required && deduped@[k].compressed_size
                            <= x.compressed_size;
                    assert(pw_dominated(deduped@[k1], filtered@));
                    lemma_pw_weaken(deduped@[k1], x, filtered@);
                }
                reveal(pw_dominated);
                let k2 = choose|k: int|
                    0 <= k < filtered@.len() && (#[trigger] filtered@[k]).time_required
                        <= x.time_required && filtered@[k].compressed_size <= x.compressed_size;
                let z = filtered@[k2];
                if filtered@.len() == 1 {
                    assert(hull@.contains(hull@[0]));
                    assert(chain@[0] == filtered@[0]);
                    assert(z == chain@[0]);
                    lemma_pw_intro(x, chain@, 0);
                } else {
                    assert(covered_above(z, hull@));
                    assert(sizes_strictly_decrease(hull@.take(chain@.len() as int)));
                    lemma_truncate_cover(z, hull@, chain@.len() as int);
                    assert(weakly_dominated(z, chain@));
                    lemma_weak_upward(x, z, chain@);
                }
                assert(chain@ == planned_chain(algorithm_metrics@));
            }
        }
        MixingPolicy { lower_convex_hull: annotated }
    }
}


/// The plan a budget query selects: either one configuration applied
/// to the whole document, or a mix of two adjacent hull
/// configurations. In a mix `Normal((expensive, cheap), f)`, f is the
/// fraction of the input, in hundredths, that the expensive (slower,
/// smaller-output) configuration handles; the cheap one takes the
/// rest. Fractions are kept in hundredths so that the two byte ranges
/// always partition the input exactly.
#[derive(Clone, Copy, Debug)]
pub enum OptimalMix {
    Single(AlgorithmMetrics),
    Normal((AlgorithmMetrics, AlgorithmMetrics), u32),
}

/// Nearest hundredth of num/den (den > 0, rounding ties up), clamped
/// to one hundred.
pub open spec fn round_frac100(num: int, den: int) -> int {
    let q = (200 * num + den) / (2 * den);
    if q > 100 {
        100
    } else {
        q
    }
}

/// Fraction of the input, in hundredths, that the expensive side of a
/// split between durations t_cheap and t_exp must handle so that the
/// blended duration meets the budget.
pub open spec fn split_fraction(budget: u64, t_cheap: u64, t_exp: u64) -> int {
    round_frac100(budget - t_cheap, t_exp - t_cheap)
}

/// The mix selected on the hull segment from point i to point i + 1.
pub open spec fn mix_at(h: Seq<MetricsWithBenefit>, i: int, budget: u64) -> OptimalMix {
    OptimalMix::Normal(
        (h[i + 1].metrics, h[i].metrics),
        split_fraction(budget, h[i].metrics.time_required, h[i + 1].metrics.time_required) as u32,
    )
}

/// Nearest hundredth, computed exactly.
fn round_frac100_exec(num: u64, den: u64) -> (r: u32)
    requires
        den >= 1,
    ensures
        r == round_frac100(num as int, den as int),
        r <= 100,
{
    let n: u128 = num as u128;
    let d: u128 = den as u128;
    let q: u128 = (200 * n + d) / (2 * d);
    proof {
        assert(200 * n + d == 200 * (num as int) + den && 2 * d == 2 * (den as int))
            by (nonlinear_arith)
            requires
                n == num as int,
                d == den as int,
                n <= u64::MAX,
                d <= u64::MAX,
        ;
    }
    if q > 100 {
        100
    } else {
        q as u32
    }
}

impl MixingPolicy {
    /// The duration of the cheapest useful configuration: any budget
    /// below it is infeasible.
    pub fn min_required_time(&self) -> (r: u64)
        requires
            hull_wf(self.lower_convex_hull@),
        ensures
            r == self.lower_convex_hull@[0].metrics.time_required,
    {
        self.lower_convex_hull[0].metrics.time_required
    }

    /// Answer the budget query for one document: `None` exactly when
    /// the budget is below the cheapest hull point; the best single
    /// configuration when the budget covers the slowest hull point;
    /// otherwise the split on the unique hull segment that brackets
    /// the budget.
    pub fn optimal_mix(&self, workload: &Workload) -> (r: Option<OptimalMix>)
        requires
            hull_wf(self.lower_convex_hull@),
        ensures
            (r is None <==> workload.time_budget
                < self.lower_convex_hull@[0].metrics.time_required),
            workload.time_budget >= self.lower_convex_hull@.last().metrics.time_required ==> r
                == Some(OptimalMix::Single(self.lower_convex_hull@.last().metrics)),
            forall|i: int|
                0 <= i < self.lower_convex_hull@.len() - 1
                    && (#[trigger] self.lower_convex_hull@[i]).metrics.time_required
                    <= workload.time_budget && workload.time_budget < self.lower_convex_hull@[i
                    + 1].metrics.time_required ==> r == Some(
                    mix_at(self.lower_convex_hull@, i, workload.time_budget),
                ),
            r == query_spec(self.lower_convex_hull@, workload.time_budget),
    {
        let ghost h = self.lower_convex_hull@;
        let budget = workload.time_budget;
        let n = self.lower_convex_hull.len();
        if budget < self.lower_convex_hull[0].metrics.time_required {
            proof {
                assert forall|i: int|
                    0 <= i < h.len() - 1 && (#[trigger] h[i]).metrics.time_required <= budget
                        && budget < h[i + 1].metrics.time_required implies false by {
                    lemma_hull_times_increase(h, 0, i);
                }
                lemma_hull_times_increase(h, 0, h.len() - 1);
            }
            return None;
        }
        if budget >= self.lower_convex_hull[n - 1].metrics.time_required {
            proof {
                assert forall|i: int|
                    0 <= i < h.len() - 1 && (#[trigger] h[i]).metrics.time_required <= budget
                        && budget < h[i + 1].metrics.time_required implies false by {
                    lemma_hull_times_increase(h, i + 1, h.len() - 1);
                }
            }
            return Some(OptimalMix::Single(self.lower_convex_hull[n - 1].metrics));
        }
        let mut i: usize = 0;
        while budget >= self.lower_convex_hull[i + 1].metrics.time_required
            invariant
                self.lower_convex_hull@ == h,
                hull_wf(h),
                n == h.len(),
                0 <= i < n - 1,
                0 <= i < h.len() - 1,
                h[i as int].metrics.time_required <= budget,
                budget < h.last().metrics.time_required,
            decreases h.len() - i,
        {
            proof {
                if i + 2 == h.len() {
                    assert(h[i + 1] == h.last());
                    assert(false);
                }
            }
            i += 1;
        }
        let t_cheap = self.lower_convex_hull[i].metrics.time_required;
        let t_exp = self.lower_convex_hull[i + 1].metrics.time_required;
        proof {
            let k = i + 1;
            assert(step_ok(h[k - 1], h[k]));
        }
        let f = round_frac100_exec(budget - t_cheap, t_exp - t_cheap);
        let r = Some(
            OptimalMix::Normal(
                (self.lower_convex_hull[i + 1].metrics, self.lower_convex_hull[i].metrics),
                f,
            ),
        );
        proof {
            let gi = i as int;
            assert(r == Some(mix_at(h, gi, budget)));
            // The segment the spec finds is the segment the loop found,
            // since the bracketing segment is unique.
            lemma_seg_index_from(h, budget, 0);
            let si = seg_index(h, budget, 0);
            if si < gi {
                lemma_hull_times_increase(h, si + 1, gi);
                assert(false);
            }
            if si > gi {
                lemma_hull_times_increase(h, gi + 1, si);
                assert(false);
            }
            // The bracketing segment is unique because durations
            // strictly increase along the hull.
            assert forall|j: int|
                0 <= j < h.len() - 1 && (#[trigger] h[j]).metrics.time_required <= budget
                    && budget < h[j + 1].metrics.time_required implies r == Some(
                mix_at(h, j, budget),
            ) by {
                if j < gi {
                    lemma_hull_times_increase(h, j + 1, gi);
                    assert(false);
                }
                if j > gi {
                    lemma_hull_times_increase(h, gi + 1, j);
                    assert(false);
                }
            }
        }
        r
    }
}

/// Durations strictly increase along a well-formed hull.
pub proof fn lemma_hull_times_increase(h: Seq<MetricsWithBenefit>, i: int, j: int)
    requires
        hull_wf(h),
        0 <= i <= j < h.len(),
    ensures
        i < j ==> h[i].metrics.time_required < h[j].metrics.time_required,
        h[i].metrics.time_required <= h[j].metrics.time_required,
    decreases j - i,
{
    if i < j {
        lemma_hull_times_increase(h, i, j - 1);
        let k = j;
        assert(step_ok(h[k - 1], h[k]));
    }
}

/// Sizes strictly decrease along a well-formed hull.
pub proof fn lemma_hull_sizes_decrease(h: Seq<MetricsWithBenefit>, i: int, j: int)
    requires
        hull_wf(h),
        0 <= i <= j < h.len(),
    ensures
        i < j ==> h[i].metrics.compressed_size > h[j].metrics.compressed_size,
        h[i].metrics.compressed_size >= h[j].metrics.compressed_size,
    decreases j - i,
{
    if i < j {
        lemma_hull_sizes_decrease(h, i, j - 1);
        let k = j;
        assert(step_ok(h[k - 1], h[k]));
    }
}

/// Round num/den to the nearest integer, ties to the even neighbour
/// (den > 0).
pub open spec fn round_half_even(num: int, den: int) -> int {
    let q = num / den;
    let r = num % den;
    if 2 * r < den {
        q
    } else if 2 * r > den {
        q + 1
    } else if q % 2 == 0 {
        q
    } else {
        q + 1
    }
}

/// Byte offset at which a split plan hands the input over from the
/// expensive configuration to the cheap one: the fraction of the
/// document length, in hundredths, rounded half to even. The offset
/// never exceeds the length, so the ranges before and after it
/// together cover the whole input.
pub fn split_offset(len: u64, fraction_hundredths: u32) -> (b: u64)
    requires
        fraction_hundredths <= 100,
    ensures
        b == round_half_even(len as int * fraction_hundredths as int, 100),
        b <= len,
{
    let p: u128 = crate::convex_hull::mul_u64(len, fraction_hundredths as u64);
    let q: u128 = p / 100;
    let r: u128 = p % 100;
    proof {
        assert(p == len as int * fraction_hundredths as int && p <= 100 * (len as int))
            by (nonlinear_arith)
            requires
                p == (len as int) * (fraction_hundredths as int),
                len <= u64::MAX,
                0 <= fraction_hundredths <= 100,
        ;
        assert(q == (p as int) / 100 && r == (p as int) % 100);
        assert(q * 100 + r == p && 0 <= r < 100 && q <= len as int && (r != 0 ==> q < len))
            by (nonlinear_arith)
            requires
                q == (p as int) / 100,
                r == (p as int) % 100,
                0 <= p <= 100 * (len as int),
        ;
    }
    if 2 * r < 100 {
        q as u64
    } else if 2 * r > 100 {
        (q + 1) as u64
    } else if q % 2 == 0 {
        q as u64
    } else {
        (q + 1) as u64
    }
}


/// Views of a list of per-workload measurement lists.
pub open spec fn views_of(s: Seq<Vec<AlgorithmMetrics>>) -> Seq<Seq<AlgorithmMetrics>> {
    s.map_values(|v: Vec<AlgorithmMetrics>| v@)
}

/// Largest duration among the records.
pub open spec fn max_time(s: Seq<AlgorithmMetrics>) -> int
    decreases s.len(),
{
    if s.len() == 0 {
        0
    } else if max_time(s.drop_last()) >= s.last().time_required {
        max_time(s.drop_last())
    } else {
        s.last().time_required as int
    }
}

/// Largest size among the records.
pub open spec fn max_size(s: Seq<AlgorithmMetrics>) -> int
    decreases s.len(),
{
    if s.len() == 0 {
        0
    } else if max_size(s.drop_last()) >= s.last().compressed_size {
        max_size(s.drop_last())
    } else {
        s.last().compressed_size as int
    }
}

/// Sum over the first d workloads of their largest duration.
pub open spec fn sum_max_time(mm: Seq<Seq<AlgorithmMetrics>>, d: int) -> int
    decreases d,
{
    if d <= 0 {
        0
    } else {
        sum_max_time(mm, d - 1) + max_time(mm[d - 1])
    }
}

/// Sum over the first d workloads of their largest size.
pub open spec fn sum_max_size(mm: Seq<Seq<AlgorithmMetrics>>, d: int) -> int
    decreases d,
{
    if d <= 0 {
        0
    } else {
        sum_max_size(mm, d - 1) + max_size(mm[d - 1])
    }
}

proof fn lemma_max_time_contains(s: Seq<AlgorithmMetrics>, x: AlgorithmMetrics)
    requires
        s.contains(x),
    ensures
        x.time_required <= max_time(s),
        x.compressed_size <= max_size(s),
        max_time(s) >= 0,
        max_size(s) >= 0,
    decreases s.len(),
{
    let k = choose|k: int| 0 <= k < s.len() && s[k] == x;
    if k == s.len() - 1 {
        lemma_max_nonneg(s.drop_last());
    } else {
        assert(s.drop_last()[k] == x);
        lemma_max_time_contains(s.drop_last(), x);
    }
}

proof fn lemma_max_nonneg(s: Seq<AlgorithmMetrics>)
    ensures
        max_time(s) >= 0,
        max_size(s) >= 0,
    decreases s.len(),
{
    if s.len() > 0 {
        lemma_max_nonneg(s.drop_last());
    }
}

/// Every hull point of each per-workload hull is one of that
/// workload's measurements.
pub open spec fn hulls_from(hs: Seq<Seq<MetricsWithBenefit>>, mm: Seq<Seq<AlgorithmMetrics>>) -> bool {
    hs.len() == mm.len() && forall|d: int, i: int|
        0 <= d < hs.len() && 0 <= i < hs[d].len() ==> mm[d].contains(
            (#[trigger] hs[d][i]).metrics,
        )
}

/// Every per-workload hull is well formed.
pub open spec fn hulls_wf(hs: Seq<Seq<MetricsWithBenefit>>) -> bool {
    forall|d: int| 0 <= d < hs.len() ==> hull_wf(#[trigger] hs[d])
}

/// A joint setup chooses one valid hull index per workload.
pub open spec fn setup_wf(hs: Seq<Seq<MetricsWithBenefit>>, setup: Seq<usize>) -> bool {
    setup.len() == hs.len() && forall|d: int|
        0 <= d < hs.len() ==> (#[trigger] setup[d]) < hs[d].len()
}

/// Aggregate duration of the first d slots of a joint setup.
pub open spec fn setup_time(hs: Seq<Seq<MetricsWithBenefit>>, setup: Seq<usize>, d: int) -> int
    decreases d,
{
    if d <= 0 {
        0
    } else {
        setup_time(hs, setup, d - 1) + hs[d - 1][setup[d - 1] as int].metrics.time_required
    }
}

/// Aggregate size of the first d slots of a joint setup.
pub open spec fn setup_size(hs: Seq<Seq<MetricsWithBenefit>>, setup: Seq<usize>, d: int) -> int
    decreases d,
{
    if d <= 0 {
        0
    } else {
        setup_size(hs, setup, d - 1) + hs[d - 1][setup[d - 1] as int].metrics.compressed_size
    }
}

proof fn lemma_setup_time_bound(hs: Seq<Seq<MetricsWithBenefit>>, mm: Seq<Seq<AlgorithmMetrics>>, setup: Seq<usize>, d: int)
    requires
        hulls_from(hs, mm),
        forall|k: int| 0 <= k < d ==> (#[trigger] setup[k]) < hs[k].len(),
        0 <= d <= hs.len(),
    ensures
        0 <= setup_time(hs, setup, d) <= sum_max_time(mm, d),
        0 <= setup_size(hs, setup, d) <= sum_max_size(mm, d),
    decreases d,
{
    if d > 0 {
        lemma_setup_time_bound(hs, mm, setup, d - 1);
        lemma_max_time_contains(mm[d - 1], hs[d - 1][setup[d - 1] as int].metrics);
    }
}

proof fn lemma_sum_max_prefix(mm: Seq<Seq<AlgorithmMetrics>>, d: int)
    requires
        0 <= d <= mm.len(),
    ensures
        sum_max_time(mm, d) <= sum_max_time(mm, mm.len() as int),
        sum_max_size(mm, d) <= sum_max_size(mm, mm.len() as int),
    decreases mm.len() - d,
{
    if d < mm.len() {
        lemma_sum_max_prefix(mm, d + 1);
        assert(sum_max_time(mm, d + 1) == sum_max_time(mm, d) + max_time(mm[d]));
        lemma_max_nonneg(mm[d]);
    }
}

/// Changing one slot of a joint setup shifts the aggregates by exactly
/// that slot's change.
proof fn lemma_setup_update(hs: Seq<Seq<MetricsWithBenefit>>, setup: Seq<usize>, w: int, v: usize, d: int)
    requires
        setup_wf(hs, setup),
        0 <= w < hs.len(),
        v < hs[w].len(),
    ensures
        0 <= d <= hs.len() && d <= w ==> setup_time(hs, setup.update(w, v), d) == setup_time(
            hs,
            setup,
            d,
        ) && setup_size(hs, setup.update(w, v), d) == setup_size(hs, setup, d),
        0 <= d <= hs.len() && d > w ==> setup_time(hs, setup.update(w, v), d) == setup_time(
            hs,
            setup,
            d,
        ) + hs[w][v as int].metrics.time_required - hs[w][setup[w] as int].metrics.time_required
            && setup_size(hs, setup.update(w, v), d) == setup_size(hs, setup, d)
            + hs[w][v as int].metrics.compressed_size
            - hs[w][setup[w] as int].metrics.compressed_size,
    decreases d,
{
    if 0 < d <= hs.len() {
        lemma_setup_update(hs, setup, w, v, d - 1);
    }
}

/// How many hull steps are still unconsumed across the first d queues.
pub open spec fn remaining_steps(hs: Seq<Seq<MetricsWithBenefit>>, setup: Seq<usize>, d: int) -> int
    decreases d,
{
    if d <= 0 {
        0
    } else {
        remaining_steps(hs, setup, d - 1) + (hs[d - 1].len() - 1 - setup[d - 1])
    }
}

proof fn lemma_remaining_nonneg(hs: Seq<Seq<MetricsWithBenefit>>, setup: Seq<usize>, d: int)
    requires
        setup_wf(hs, setup),
        0 <= d <= hs.len(),
    ensures
        remaining_steps(hs, setup, d) >= 0,
        remaining_steps(hs, setup, d) == 0 ==> forall|e: int|
            0 <= e < d ==> (#[trigger] setup[e]) as int == hs[e].len() - 1,
        (exists|e: int| 0 <= e < d && ((#[trigger] setup[e]) as int) < hs[e].len() - 1)
            ==> remaining_steps(hs, setup, d) > 0,
    decreases d,
{
    if d > 0 {
        lemma_remaining_nonneg(hs, setup, d - 1);
        if remaining_steps(hs, setup, d) == 0 {
            assert forall|e: int| 0 <= e < d implies (#[trigger] setup[e]) as int == hs[e].len()
                - 1 by {}
        }
        if exists|e: int| 0 <= e < d && ((#[trigger] setup[e]) as int) < hs[e].len() - 1 {
            let e = choose|e: int| 0 <= e < d && ((#[trigger] setup[e]) as int) < hs[e].len() - 1;
            if e < d - 1 {
                assert(remaining_steps(hs, setup, d - 1) > 0);
            }
        }
    }
}

proof fn lemma_remaining_update(hs: Seq<Seq<MetricsWithBenefit>>, setup: Seq<usize>, w: int, v: usize, d: int)
    requires
        setup_wf(hs, setup),
        0 <= w < hs.len(),
        v < hs[w].len(),
    ensures
        0 <= d <= hs.len() && d <= w ==> remaining_steps(hs, setup.update(w, v), d)
            == remaining_steps(hs, setup, d),
        0 <= d <= hs.len() && d > w ==> remaining_steps(hs, setup.update(w, v), d)
            == remaining_steps(hs, setup, d) + setup[w] - v,
    decreases d,
{
    if 0 < d <= hs.len() {
        lemma_remaining_update(hs, setup, w, v, d - 1);
    }
}


/// The front benefit of workload d: the benefit of its next
/// unconsumed hull point.
pub open spec fn front_of(hs: Seq<Seq<MetricsWithBenefit>>, setup: Seq<usize>, d: int) -> Benefit {
    hs[d][setup[d] as int + 1].benefit
}

/// Which workload the greedy merge advances next, scanning the first
/// d queues: the one with the highest front benefit, ties to the
/// last such workload; -1 when every scanned queue is exhausted.
pub open spec fn pick_next(hs: Seq<Seq<MetricsWithBenefit>>, setup: Seq<usize>, d: int) -> int
    decreases d,
{
    if d <= 0 {
        -1
    } else {
        let rest = pick_next(hs, setup, d - 1);
        if setup[d - 1] as int + 1 < hs[d - 1].len() {
            if rest == -1 || benefit_le(front_of(hs, setup, rest), front_of(hs, setup, d - 1)) {
                d - 1
            } else {
                rest
            }
        } else {
            rest
        }
    }
}

/// The joint-plan step advanced exactly the workload the greedy
/// selection names.
pub open spec fn combo_pick_ok(
    hs: Seq<Seq<MetricsWithBenefit>>,
    prev: CombinationWithBenefit,
    cur: CombinationWithBenefit,
) -> bool {
    cur.label matches CombinationLabel::Advance { workload, algorithm } && workload as int
        == pick_next(hs, prev.setup@, hs.len() as int)
}

/// Identifies how a joint configuration came about: the starting
/// configuration, or an advance of one workload (named by index) to
/// the configuration produced by the named codec handle.
#[derive(Clone, Copy, Debug)]
pub enum CombinationLabel {
    Initial,
    Advance { workload: usize, algorithm: u64 },
}

/// One entry of the joint plan: the hull index chosen for each
/// workload, the aggregate duration and size of that choice, the
/// aggregate marginal benefit of the step that reached it, and a label
/// naming the advanced workload.
#[derive(Debug)]
pub struct CombinationWithBenefit {
    pub setup: Vec<usize>,
    pub total_time: u64,
    pub total_size: u64,
    pub benefit: Benefit,
    pub label: CombinationLabel,
}

/// One joint-plan step: exactly one workload advances by exactly one
/// hull index (the one the label names); aggregate duration strictly
/// grows, aggregate size strictly shrinks, and the step's benefit is
/// exactly the bytes saved over the extra duration.
pub open spec fn combo_step_ok(
    hs: Seq<Seq<MetricsWithBenefit>>,
    prev: CombinationWithBenefit,
    cur: CombinationWithBenefit,
) -> bool {
    &&& cur.label matches CombinationLabel::Advance { workload, algorithm } && {
        let d = workload as int;
        &&& 0 <= d < hs.len()
        &&& prev.setup@[d] as int + 1 < hs[d].len() + 1
        &&& cur.setup@ == prev.setup@.update(d, (prev.setup@[d] + 1) as usize)
        &&& algorithm == hs[d][prev.setup@[d] as int + 1].metrics.algorithm
        &&& cur.benefit == hs[d][prev.setup@[d] as int + 1].benefit
    }
    &&& cur.total_time > prev.total_time
    &&& cur.total_size < prev.total_size
    &&& cur.benefit.saved == prev.total_size - cur.total_size
    &&& cur.benefit.elapsed == cur.total_time - prev.total_time
}

/// A joint configuration's stored aggregates match its setup.
pub open spec fn combo_ok(hs: Seq<Seq<MetricsWithBenefit>>, c: CombinationWithBenefit) -> bool {
    setup_wf(hs, c.setup@) && c.total_time == setup_time(hs, c.setup@, hs.len() as int)
        && c.total_size == setup_size(hs, c.setup@, hs.len() as int)
}

/// Well-formed joint plan over the per-workload hulls: it starts from
/// everyone's fastest configuration, each entry's aggregates match its
/// setup, each step advances exactly one workload by one hull index
/// with strictly growing duration and strictly shrinking size, it ends
/// with everyone's best configuration, and aggregate benefits never
/// increase.
pub open spec fn multi_partial(hs: Seq<Seq<MetricsWithBenefit>>, combos: Seq<CombinationWithBenefit>) -> bool {
    &&& hulls_wf(hs)
    &&& hs.len() >= 1
    &&& combos.len() >= 1
    &&& combos[0].setup@.len() == hs.len()
    &&& (forall|d: int| 0 <= d < hs.len() ==> (#[trigger] combos[0].setup@[d]) == 0)
    &&& combos[0].benefit.saved == 0 && combos[0].benefit.elapsed == 1
    &&& combos[0].label == CombinationLabel::Initial
    &&& (forall|k: int| 0 <= k < combos.len() ==> combo_ok(hs, #[trigger] combos[k]))
    &&& (forall|k: int|
        1 <= k < combos.len() ==> #[trigger] combo_step_ok(hs, combos[k - 1], combos[k]))
    &&& (forall|k: int|
        2 <= k < combos.len() ==> #[trigger] benefit_le(combos[k].benefit, combos[k - 1].benefit))
}

pub open spec fn multi_wf(hs: Seq<Seq<MetricsWithBenefit>>, combos: Seq<CombinationWithBenefit>) -> bool {
    &&& multi_partial(hs, combos)
    &&& forall|d: int|
        0 <= d < hs.len() ==> (#[trigger] combos.last().setup@[d]) as int == hs[d].len() - 1
}

/// The multi-document mixing policy: per-document hulls plus the
/// benefit-greedy joint plan across them.
#[derive(Debug)]
pub struct MixingPolicyMultipleWorkloads {
    pub lower_convex_hull: Vec<CombinationWithBenefit>,
    pub lower_convex_hull_per_workload: Vec<Vec<MetricsWithBenefit>>,
}

/// Views of the per-workload hulls.
pub open spec fn hull_views(hs: Seq<Vec<MetricsWithBenefit>>) -> Seq<Seq<MetricsWithBenefit>> {
    hs.map_values(|v: Vec<MetricsWithBenefit>| v@)
}

fn copy_setup(v: &Vec<usize>) -> (r: Vec<usize>)
    ensures
        r@ == v@,
{
    let mut r: Vec<usize> = Vec::new();
    let mut i: usize = 0;
    while i < v.len()
        invariant
            0 <= i <= v@.len(),
            r@ == v@.take(i as int),
        decreases v@.len() - i,
    {
        r.push(v[i]);
        proof {
            assert(r@ =~= v@.take(i + 1));
        }
        i += 1;
    }
    proof {
        assert(v@.take(v@.len() as int) =~= v@);
    }
    r
}


/// Benefits compare transitively once every denominator is positive.
proof fn lemma_benefit_le_trans(a: Benefit, b: Benefit, c: Benefit)
    requires
        benefit_le(a, b),
        benefit_le(b, c),
        a.elapsed >= 1,
        b.elapsed >= 1,
        c.elapsed >= 1,
    ensures
        benefit_le(a, c),
{
    let an = a.saved as int;
    let ad = a.elapsed as int;
    let bn = b.saved as int;
    let bd = b.elapsed as int;
    let cn = c.saved as int;
    let cd = c.elapsed as int;
    assert(an * bd * cd <= bn * ad * cd) by (nonlinear_arith)
        requires
            an * bd <= bn * ad,
            cd >= 1,
    ;
    assert(bn * cd * ad <= cn * bd * ad) by (nonlinear_arith)
        requires
            bn * cd <= cn * bd,
            ad >= 1,
    ;
    assert(bn * ad * cd == bn * cd * ad && cn * bd * ad == cn * ad * bd) by (nonlinear_arith);
    assert(an * cd <= cn * ad) by (nonlinear_arith)
        requires
            an * bd * cd <= cn * ad * bd,
            bd >= 1,
    ;
}

/// A well-formed hull's step benefits have positive denominators.
proof fn lemma_hull_benefit_elapsed(h: Seq<MetricsWithBenefit>, i: int)
    requires
        hull_wf(h),
        1 <= i < h.len(),
    ensures
        h[i].benefit.elapsed >= 1,
{
    let k = i;
    assert(step_ok(h[k - 1], h[k]));
}

fn copy_metrics(v: &Vec<AlgorithmMetrics>) -> (r: Vec<AlgorithmMetrics>)
    ensures
        r@ == v@,
{
    let mut r: Vec<AlgorithmMetrics> = Vec::new();
    let mut i: usize = 0;
    while i < v.len()
        invariant
            0 <= i <= v@.len(),
            r@ == v@.take(i as int),
        decreases v@.len() - i,
    {
        r.push(v[i]);
        proof {
            assert(r@ =~= v@.take(i + 1));
        }
        i += 1;
    }
    proof {
        assert(v@.take(v@.len() as int) =~= v@);
    }
    r
}


/// Setups that agree on their first d slots aggregate identically
/// there.
proof fn lemma_setup_agree(hs: Seq<Seq<MetricsWithBenefit>>, s1: Seq<usize>, s2: Seq<usize>, d: int)
    requires
        forall|k: int| 0 <= k < d ==> #[trigger] s1[k] == s2[k],
    ensures
        setup_time(hs, s1, d) == setup_time(hs, s2, d),
        setup_size(hs, s1, d) == setup_size(hs, s2, d),
        remaining_steps(hs, s1, d) == remaining_steps(hs, s2, d),
    decreases d,
{
    if d > 0 {
        lemma_setup_agree(hs, s1, s2, d - 1);
    }
}

impl MixingPolicyMultipleWorkloads {
    /// Build per-document hulls and merge them, benefit-greedily, into
    /// the joint plan: start with every document at its fastest hull
    /// point, then repeatedly advance the document whose next hull step
    /// has the highest marginal benefit (the last such document on
    /// ties), until every queue is exhausted. Every document needs at
    /// least one measurement, and the worst-case aggregate duration and
    /// size must fit the machine word.
    pub fn new(algorithm_metrics: Vec<Vec<AlgorithmMetrics>>) -> (r: MixingPolicyMultipleWorkloads)
        requires
            algorithm_metrics@.len() >= 1,
            forall|d: int|
                0 <= d < algorithm_metrics@.len() ==> (#[trigger] algorithm_metrics@[d])@.len()
                    >= 1,
            sum_max_time(views_of(algorithm_metrics@), algorithm_metrics@.len() as int)
                <= u64::MAX,
            sum_max_size(views_of(algorithm_metrics@), algorithm_metrics@.len() as int)
                <= u64::MAX,
        ensures
            hull_views(r.lower_convex_hull_per_workload@).len() == algorithm_metrics@.len(),
            multi_wf(hull_views(r.lower_convex_hull_per_workload@), r.lower_convex_hull@),
            hulls_from(
                hull_views(r.lower_convex_hull_per_workload@),
                views_of(algorithm_metrics@),
            ),
            forall|d: int|
                0 <= d < algorithm_metrics@.len() ==> (#[trigger] hull_views(
                    r.lower_convex_hull_per_workload@,
                )[d]).len() == planned_chain(views_of(algorithm_metrics@)[d]).len(),
            forall|d: int, i: int|
                0 <= d < algorithm_metrics@.len() && 0 <= i < hull_views(
                    r.lower_convex_hull_per_workload@,
                )[d].len() ==> (#[trigger] hull_views(r.lower_convex_hull_per_workload@)[d][i]).metrics
                    == planned_chain(views_of(algorithm_metrics@)[d])[i],
            forall|k: int|
                1 <= k < r.lower_convex_hull@.len() ==> #[trigger] combo_pick_ok(
                    hull_views(r.lower_convex_hull_per_workload@),
                    r.lower_convex_hull@[k - 1],
                    r.lower_convex_hull@[k],
                ),
    {
        let ghost mm = views_of(algorithm_metrics@);
        let n = algorithm_metrics.len();
        // Per-document hulls, in document order.
        let mut raw: Vec<Vec<MetricsWithBenefit>> = Vec::new();
        let mut d: usize = 0;
        while d < n
            invariant
                0 <= d <= n,
                n == algorithm_metrics@.len(),
                mm == views_of(algorithm_metrics@),
                forall|e: int|
                    0 <= e < n ==> (#[trigger] algorithm_metrics@[e])@.len() >= 1,
                raw@.len() == d,
                forall|e: int| 0 <= e < d ==> hull_wf((#[trigger] raw@[e])@),
                forall|e: int, i: int|
                    0 <= e < d && 0 <= i < raw@[e]@.len() ==> mm[e].contains(
                        (#[trigger] raw@[e]@[i]).metrics,
                    ),
                forall|e: int|
                    0 <= e < d ==> (#[trigger] raw@[e])@.len() == planned_chain(mm[e]).len(),
                forall|e: int, i: int|
                    0 <= e < d && 0 <= i < raw@[e]@.len() ==> (#[trigger] raw@[e]@[i]).metrics
                        == planned_chain(mm[e])[i],
            decreases n - d,
        {
            let metrics_d = copy_metrics(&algorithm_metrics[d]);
            proof {
                assert(mm[d as int] == algorithm_metrics@[d as int]@);
            }
            let mp = MixingPolicy::new(metrics_d);
            raw.push(mp.lower_convex_hull);
            d += 1;
        }
        let ghost hs = hull_views(raw@);
        proof {
            assert(hs.len() == n);
            assert forall|e: int| 0 <= e < n implies hull_wf(#[trigger] hs[e]) by {
                assert(hs[e] == raw@[e]@);
            }
            assert forall|e: int, i: int| 0 <= e < n && 0 <= i < hs[e].len() implies mm[
                e
            ].contains((#[trigger] hs[e][i]).metrics) by {
                assert(hs[e] == raw@[e]@);
            }
            assert(hulls_from(hs, mm));
        }
        // The initial joint configuration: everyone's fastest point.
        let mut setup: Vec<usize> = Vec::new();
        let mut total_time: u64 = 0;
        let mut total_size: u64 = 0;
        let mut e: usize = 0;
        while e < n
            invariant
                0 <= e <= n,
                n == raw@.len(),
                hs == hull_views(raw@),
                hulls_from(hs, mm),
                hs.len() == n,
                mm.len() == n,
                forall|k: int| 0 <= k < n ==> hull_wf(#[trigger] hs[k]),
                sum_max_time(mm, n as int) <= u64::MAX,
                sum_max_size(mm, n as int) <= u64::MAX,
                setup@.len() == e,
                forall|k: int| 0 <= k < e ==> (#[trigger] setup@[k]) == 0,
                total_time == setup_time(hs, setup@, e as int),
                total_size == setup_size(hs, setup@, e as int),
            decreases n - e,
        {
            let ghost pre = setup@;
            setup.push(0);
            proof {
                assert(hs[e as int] == raw@[e as int]@);
                assert(hull_wf(hs[e as int]));
                lemma_setup_agree(hs, pre, setup@, e as int);
                lemma_setup_time_bound(hs, mm, setup@, e as int + 1);
                lemma_sum_max_prefix(mm, e as int + 1);
            }
            total_time = total_time + raw[e][0].metrics.time_required;
            total_size = total_size + raw[e][0].metrics.compressed_size;
            e += 1;
        }
        let mut combos: Vec<CombinationWithBenefit> = Vec::new();
        combos.push(
            CombinationWithBenefit {
                setup: copy_setup(&setup),
                total_time,
                total_size,
                benefit: Benefit { saved: 0, elapsed: 1 },
                label: CombinationLabel::Initial,
            },
        );
        // Benefit-greedy merge: always advance the document whose next
        // hull step saves the most bytes per extra duration unit.
        let mut more = true;
        while more
            invariant
                n == raw@.len(),
                hs == hull_views(raw@),
                hulls_from(hs, mm),
                hs.len() == n,
                n >= 1,
                forall|k: int| 0 <= k < n ==> hull_wf(#[trigger] hs[k]),
                sum_max_time(mm, n as int) <= u64::MAX,
                sum_max_size(mm, n as int) <= u64::MAX,
                setup_wf(hs, setup@),
                combos@.len() >= 1,
                combos@.last().setup@ == setup@,
                combos@.last().total_time == total_time,
                combos@.last().total_size == total_size,
                multi_partial(hs, combos@),
                forall|k: int|
                    1 <= k < combos@.len() ==> #[trigger] combo_pick_ok(
                        hs,
                        combos@[k - 1],
                        combos@[k],
                    ),
                combos@.len() >= 2 ==> forall|d2: int|
                    0 <= d2 < n && ((#[trigger] setup@[d2]) as int) + 1 < hs[d2].len()
                        ==> benefit_le(
                        hs[d2][setup@[d2] as int + 1].benefit,
                        combos@.last().benefit,
                    ),
                !more ==> forall|d2: int|
                    0 <= d2 < n ==> ((#[trigger] setup@[d2]) as int) == hs[d2].len() - 1,
            decreases remaining_steps(hs, setup@, n as int), (if more { 1int } else { 0int }),
        {
            // Select the non-exhausted queue with the best front; ties
            // go to the last such document.
            let mut best: usize = 0;
            let mut found = false;
            let mut d2: usize = 0;
            while d2 < n
                invariant
                    0 <= d2 <= n,
                    n == raw@.len(),
                    hs == hull_views(raw@),
                    hs.len() == n,
                    forall|k: int| 0 <= k < n ==> hull_wf(#[trigger] hs[k]),
                    setup_wf(hs, setup@),
                    found ==> best < n && (setup@[best as int] as int) + 1 < hs[
                        best as int
                    ].len(),
                    forall|k: int|
                        0 <= k < d2 && ((#[trigger] setup@[k]) as int) + 1 < hs[k].len() ==> found,
                    found ==> forall|k: int|
                        0 <= k < d2 && ((#[trigger] setup@[k]) as int) + 1 < hs[k].len()
                            ==> benefit_le(
                            hs[k][setup@[k] as int + 1].benefit,
                            hs[best as int][setup@[best as int] as int + 1].benefit,
                        ),
                    !found ==> pick_next(hs, setup@, d2 as int) == -1,
                    found ==> pick_next(hs, setup@, d2 as int) == best as int,
                decreases n - d2,
            {
                proof {
                    assert(hs[d2 as int] == raw@[d2 as int]@);
                }
                if setup[d2] < raw[d2].len() - 1 {
                    if !found {
                        best = d2;
                        found = true;
                    } else {
                        let lb = raw[best].len();
                        let ld = raw[d2].len();
                        proof {
                            assert(hs[best as int] == raw@[best as int]@);
                            assert(setup@[best as int] as int + 1 < lb as int);
                            assert(setup@[d2 as int] as int + 1 < ld as int);
                        }
                        let fb = raw[best][setup[best] + 1].benefit;
                        let fd = raw[d2][setup[d2] + 1].benefit;
                        if fb.le(&fd) {
                            let ghost oldbest = best as int;
                            best = d2;
                            proof {
                                assert forall|k: int|
                                    0 <= k < d2 as int + 1 && ((#[trigger] setup@[k]) as int) + 1
                                        < hs[k].len() implies benefit_le(
                                    hs[k][setup@[k] as int + 1].benefit,
                                    hs[best as int][setup@[best as int] as int + 1].benefit,
                                ) by {
                                    if k < d2 as int {
                                        lemma_hull_benefit_elapsed(
                                            hs[k],
                                            setup@[k] as int + 1,
                                        );
                                        lemma_hull_benefit_elapsed(
                                            hs[oldbest],
                                            setup@[oldbest] as int + 1,
                                        );
                                        lemma_hull_benefit_elapsed(
                                            hs[d2 as int],
                                            setup@[d2 as int] as int + 1,
                                        );
                                        lemma_benefit_le_trans(
                                            hs[k][setup@[k] as int + 1].benefit,
                                            hs[oldbest][setup@[oldbest] as int + 1].benefit,
                                            hs[d2 as int][setup@[d2 as int] as int + 1].benefit,
                                        );
                                    }
                                }
                            }
                        }
                    }
                }
                d2 += 1;
            }
            if found {
                let ghost presetup = setup@;
                let ghost precombos = combos@;
                let s = setup[best];
                let lb = raw[best].len();
                proof {
                    assert(hs[best as int] == raw@[best as int]@);
                    assert(s as int + 1 < lb as int);
                    let k = s as int + 1;
                    assert(step_ok(hs[best as int][k - 1], hs[best as int][k]));
                    lemma_setup_update(hs, presetup, best as int, (s + 1) as usize, n as int);
                    lemma_setup_time_bound(
                        hs,
                        mm,
                        presetup.update(best as int, (s + 1) as usize),
                        n as int,
                    );
                    lemma_setup_time_bound(hs, mm, presetup, n as int);
                }
                let dt = raw[best][s + 1].metrics.time_required
                    - raw[best][s].metrics.time_required;
                let ds = raw[best][s].metrics.compressed_size
                    - raw[best][s + 1].metrics.compressed_size;
                setup.set(best, s + 1);
                total_time = total_time + dt;
                total_size = total_size - ds;
                let b = Benefit { saved: ds, elapsed: dt };
                let alg = raw[best][s + 1].metrics.algorithm;
                combos.push(
                    CombinationWithBenefit {
                        setup: copy_setup(&setup),
                        total_time,
                        total_size,
                        benefit: b,
                        label: CombinationLabel::Advance { workload: best, algorithm: alg },
                    },
                );
                proof {
                    let m = combos@.len() - 1;
                    assert(setup@ == presetup.update(best as int, (s + 1) as usize));
                    assert(combos@[m].setup@ == setup@);
                    assert(combos@[m - 1] == precombos.last());
                    assert(combo_ok(hs, combos@[m]));
                    assert(combo_step_ok(hs, combos@[m - 1], combos@[m]));
                    assert(combo_pick_ok(hs, combos@[m - 1], combos@[m]));
                    assert forall|k: int| 1 <= k < combos@.len() implies #[trigger] combo_pick_ok(
                        hs,
                        combos@[k - 1],
                        combos@[k],
                    ) by {
                        if k < m {
                            assert(combos@[k] == precombos[k]);
                            assert(combos@[k - 1] == precombos[k - 1]);
                            assert(combo_pick_ok(hs, precombos[k - 1], precombos[k]));
                        }
                    }
                    assert forall|k: int| 0 <= k < combos@.len() implies combo_ok(
                        hs,
                        #[trigger] combos@[k],
                    ) by {
                        if k < m {
                            assert(combos@[k] == precombos[k]);
                        }
                    }
                    assert forall|k: int| 1 <= k < combos@.len() implies #[trigger] combo_step_ok(
                        hs,
                        combos@[k - 1],
                        combos@[k],
                    ) by {
                        if k < m {
                            assert(combos@[k] == precombos[k]);
                            assert(combos@[k - 1] == precombos[k - 1]);
                            assert(combo_step_ok(hs, precombos[k - 1], precombos[k]));
                        }
                    }
                    // Aggregate benefits never increase: the chosen front
                    // was the best, and every new front is no better.
                    assert forall|k: int| 2 <= k < combos@.len() implies #[trigger] benefit_le(
                        combos@[k].benefit,
                        combos@[k - 1].benefit,
                    ) by {
                        if k < m {
                            assert(combos@[k] == precombos[k]);
                            assert(combos@[k - 1] == precombos[k - 1]);
                            assert(benefit_le(precombos[k].benefit, precombos[k - 1].benefit));
                        } else {
                            assert(precombos.len() >= 2);
                            assert(benefit_le(
                                hs[best as int][presetup[best as int] as int + 1].benefit,
                                precombos.last().benefit,
                            ));
                        }
                    }
                    // Re-establish the bound on the remaining fronts.
                    assert forall|d3: int|
                        0 <= d3 < n && ((#[trigger] setup@[d3]) as int) + 1 < hs[d3].len()
                            implies benefit_le(
                        hs[d3][setup@[d3] as int + 1].benefit,
                        combos@.last().benefit,
                    ) by {
                        if d3 == best as int {
                            assert(setup@[d3] as int == s + 1);
                            let k2 = s as int + 2;
                            assert(benefit_le(
                                hs[d3][k2].benefit,
                                hs[d3][k2 - 1].benefit,
                            ));
                        } else {
                            assert(setup@[d3] == presetup[d3]);
                            assert(benefit_le(
                                hs[d3][presetup[d3] as int + 1].benefit,
                                hs[best as int][presetup[best as int] as int + 1].benefit,
                            ));
                        }
                    }
                    // Termination: one queue front was consumed.
                    lemma_remaining_update(hs, presetup, best as int, (s + 1) as usize, n as int);
                    lemma_remaining_nonneg(hs, setup@, n as int);
                }
            } else {
                proof {
                    assert forall|d3: int| 0 <= d3 < n implies ((#[trigger] setup@[d3]) as int)
                        == hs[d3].len() - 1 by {
                        assert(setup@[d3] < hs[d3].len());
                    }
                }
                more = false;
            }
        }
        proof {
            assert(multi_wf(hs, combos@));
        }
        MixingPolicyMultipleWorkloads {
            lower_convex_hull: combos,
            lower_convex_hull_per_workload: raw,
        }
    }
}


/// One single plan per workload, at the given joint setup.
pub open spec fn singles_of(hs: Seq<Seq<MetricsWithBenefit>>, setup: Seq<usize>) -> Seq<OptimalMix> {
    Seq::new(hs.len(), |d: int| OptimalMix::Single(hs[d][setup[d] as int].metrics))
}

/// The per-workload plans on the joint-plan segment from prev to cur:
/// workloads whose slot did not move get their single configuration;
/// the one advanced workload is split between its new (expensive) and
/// old (cheap) configurations, with the fraction taken on aggregate
/// durations.
pub open spec fn mixes_between(
    hs: Seq<Seq<MetricsWithBenefit>>,
    prev: CombinationWithBenefit,
    cur: CombinationWithBenefit,
    budget: u64,
) -> Seq<OptimalMix> {
    Seq::new(
        hs.len(),
        |d: int|
            if cur.setup@[d] == prev.setup@[d] {
                OptimalMix::Single(hs[d][prev.setup@[d] as int].metrics)
            } else {
                OptimalMix::Normal(
                    (hs[d][cur.setup@[d] as int].metrics, hs[d][prev.setup@[d] as int].metrics),
                    round_frac100(
                        budget - prev.total_time,
                        cur.total_time - prev.total_time,
                    ) as u32,
                )
            },
    )
}

/// Aggregate durations strictly increase along a well-formed joint
/// plan.
pub proof fn lemma_combo_times_increase(
    hs: Seq<Seq<MetricsWithBenefit>>,
    combos: Seq<CombinationWithBenefit>,
    i: int,
    j: int,
)
    requires
        multi_partial(hs, combos),
        0 <= i <= j < combos.len(),
    ensures
        i < j ==> combos[i].total_time < combos[j].total_time,
        combos[i].total_time <= combos[j].total_time,
    decreases j - i,
{
    if i < j {
        lemma_combo_times_increase(hs, combos, i, j - 1);
        let k = j;
        assert(combo_step_ok(hs, combos[k - 1], combos[k]));
    }
}

/// Aggregate sizes strictly decrease along a well-formed joint plan.
pub proof fn lemma_combo_sizes_decrease(
    hs: Seq<Seq<MetricsWithBenefit>>,
    combos: Seq<CombinationWithBenefit>,
    i: int,
    j: int,
)
    requires
        multi_partial(hs, combos),
        0 <= i <= j < combos.len(),
    ensures
        i < j ==> combos[i].total_size > combos[j].total_size,
        combos[i].total_size >= combos[j].total_size,
    decreases j - i,
{
    if i < j {
        lemma_combo_sizes_decrease(hs, combos, i, j - 1);
        let k = j;
        assert(combo_step_ok(hs, combos[k - 1], combos[k]));
    }
}

impl MixingPolicyMultipleWorkloads {
    /// The mixes to apply, one per workload, so that the aggregate
    /// duration respects the total budget. At most one workload gets an
    /// actual mix of two configurations; every other workload uses one
    /// configuration outright. `None` exactly when even the fastest
    /// joint configuration exceeds the budget.
    pub fn mix_with_total_time_budget(&self, total_time_budget: u64) -> (r: Option<
        Vec<OptimalMix>,
    >)
        requires
            multi_wf(hull_views(self.lower_convex_hull_per_workload@), self.lower_convex_hull@),
        ensures
            (r is None <==> total_time_budget < self.lower_convex_hull@[0].total_time),
            total_time_budget >= self.lower_convex_hull@.last().total_time ==> (r matches Some(v)
                && v@ == singles_of(
                hull_views(self.lower_convex_hull_per_workload@),
                self.lower_convex_hull@.last().setup@,
            )),
            forall|k: int|
                0 <= k < self.lower_convex_hull@.len() - 1
                    && (#[trigger] self.lower_convex_hull@[k]).total_time <= total_time_budget
                    && total_time_budget < self.lower_convex_hull@[k + 1].total_time ==> (
                r matches Some(v) && v@ == mixes_between(
                    hull_views(self.lower_convex_hull_per_workload@),
                    self.lower_convex_hull@[k],
                    self.lower_convex_hull@[k + 1],
                    total_time_budget,
                )),
    {
        let ghost hs = hull_views(self.lower_convex_hull_per_workload@);
        let ghost combos = self.lower_convex_hull@;
        let budget = total_time_budget;
        let m = self.lower_convex_hull.len();
        let n = self.lower_convex_hull_per_workload.len();
        proof {
            assert(combos[0].setup@.len() == hs.len());
            assert(combo_ok(hs, combos[0]));
            assert(hs.len() == n);
        }
        if budget < self.lower_convex_hull[0].total_time {
            proof {
                assert forall|k: int|
                    0 <= k < combos.len() - 1 && (#[trigger] combos[k]).total_time <= budget
                        && budget < combos[k + 1].total_time implies false by {
                    lemma_combo_times_increase(hs, combos, 0, k);
                }
                lemma_combo_times_increase(hs, combos, 0, combos.len() - 1);
            }
            return None;
        }
        if budget >= self.lower_convex_hull[m - 1].total_time {
            let last = &self.lower_convex_hull[m - 1];
            let mut out: Vec<OptimalMix> = Vec::new();
            let mut d: usize = 0;
            proof {
                assert(combo_ok(hs, combos.last()));
            }
            while d < n
                invariant
                    0 <= d <= n,
                    n == self.lower_convex_hull_per_workload@.len(),
                    hs == hull_views(self.lower_convex_hull_per_workload@),
                    hs.len() == n,
                    combos == self.lower_convex_hull@,
                    m == combos.len(),
                    m >= 1,
                    last == combos.last(),
                    combo_ok(hs, combos.last()),
                    out@.len() == d,
                    forall|e: int|
                        0 <= e < d ==> out@[e] == singles_of(hs, combos.last().setup@)[e],
                decreases n - d,
            {
                proof {
                    assert(hs[d as int] == self.lower_convex_hull_per_workload@[d as int]@);
                    assert(combos.last().setup@[d as int] < hs[d as int].len());
                }
                out.push(
                    OptimalMix::Single(
                        self.lower_convex_hull_per_workload[d][last.setup[d]].metrics,
                    ),
                );
                d += 1;
            }
            proof {
                assert(out@ =~= singles_of(hs, combos.last().setup@));
                assert forall|k: int|
                    0 <= k < combos.len() - 1 && (#[trigger] combos[k]).total_time <= budget
                        && budget < combos[k + 1].total_time implies false by {
                    lemma_combo_times_increase(hs, combos, k + 1, combos.len() - 1);
                }
            }
            return Some(out);
        }
        // Find the joint-plan segment that brackets the budget.
        let mut k: usize = 0;
        while budget >= self.lower_convex_hull[k + 1].total_time
            invariant
                combos == self.lower_convex_hull@,
                m == combos.len(),
                hs == hull_views(self.lower_convex_hull_per_workload@),
                multi_wf(hs, combos),
                0 <= k < m - 1,
                m == combos.len(),
                combos[k as int].total_time <= budget,
                budget < combos.last().total_time,
            decreases m - k,
        {
            proof {
                if k + 2 == m {
                    assert(combos[k + 1] == combos.last());
                    assert(false);
                }
            }
            k += 1;
        }
        let prev = &self.lower_convex_hull[k];
        let cur = &self.lower_convex_hull[k + 1];
        proof {
            let k1 = k as int + 1;
            assert(combo_step_ok(hs, combos[k1 - 1], combos[k1]));
            assert(combo_ok(hs, combos[k1 - 1]));
            assert(combo_ok(hs, combos[k1]));
        }
        let f = round_frac100_exec(budget - prev.total_time, cur.total_time - prev.total_time);
        let mut out: Vec<OptimalMix> = Vec::new();
        let mut d: usize = 0;
        while d < n
            invariant
                0 <= d <= n,
                n == self.lower_convex_hull_per_workload@.len(),
                hs == hull_views(self.lower_convex_hull_per_workload@),
                hs.len() == n,
                combos == self.lower_convex_hull@,
                m == combos.len(),
                0 <= k < m - 1,
                prev == combos[k as int],
                cur == combos[k as int + 1],
                combo_ok(hs, combos[k as int]),
                combo_ok(hs, combos[k as int + 1]),
                f as int == round_frac100(
                    budget - combos[k as int].total_time,
                    combos[k as int + 1].total_time - combos[k as int].total_time,
                ),
                out@.len() == d,
                forall|e: int|
                    0 <= e < d ==> out@[e] == mixes_between(
                        hs,
                        combos[k as int],
                        combos[k as int + 1],
                        budget,
                    )[e],
            decreases n - d,
        {
            proof {
                assert(hs[d as int] == self.lower_convex_hull_per_workload@[d as int]@);
                assert(combos[k as int].setup@[d as int] < hs[d as int].len());
                assert(combos[k as int + 1].setup@[d as int] < hs[d as int].len());
            }
            if cur.setup[d] == prev.setup[d] {
                out.push(
                    OptimalMix::Single(
                        self.lower_convex_hull_per_workload[d][prev.setup[d]].metrics,
                    ),
                );
            } else {
                out.push(
                    OptimalMix::Normal(
                        (
                            self.lower_convex_hull_per_workload[d][cur.setup[d]].metrics,
                            self.lower_convex_hull_per_workload[d][prev.setup[d]].metrics,
                        ),
                        f,
                    ),
                );
            }
            d += 1;
        }
        let r = Some(out);
        proof {
            let gk = k as int;
            assert(out@ =~= mixes_between(hs, combos[gk], combos[gk + 1], budget));
            assert forall|j: int|
                0 <= j < combos.len() - 1 && (#[trigger] combos[j]).total_time <= budget && budget
                    < combos[j + 1].total_time implies out@ == mixes_between(
                hs,
                combos[j],
                combos[j + 1],
                budget,
            ) by {
                if j < gk {
                    lemma_combo_times_increase(hs, combos, j + 1, gk);
                    assert(false);
                }
                if j > gk {
                    lemma_combo_times_increase(hs, combos, gk + 1, j);
                    assert(false);
                }
            }
        }
        r
    }
}


/// The hull segment a budget inside the hull's duration range falls
/// on, scanning from position i.
pub open spec fn seg_index(h: Seq<MetricsWithBenefit>, b: u64, i: int) -> int
    decreases h.len() - i,
{
    if i + 2 >= h.len() {
        i
    } else if b < h[i + 1].metrics.time_required {
        i
    } else {
        seg_index(h, b, i + 1)
    }
}

/// What the single-document query answers, as a function of the hull
/// and the budget alone.
pub open spec fn query_spec(h: Seq<MetricsWithBenefit>, b: u64) -> Option<OptimalMix> {
    if b < h[0].metrics.time_required {
        None
    } else if b >= h.last().metrics.time_required {
        Some(OptimalMix::Single(h.last().metrics))
    } else {
        Some(mix_at(h, seg_index(h, b, 0), b))
    }
}

/// The fraction-weighted compressed size of a plan, in hundredths of
/// a byte: what a split plan averages out to over the document.
pub open spec fn mix_size100(m: OptimalMix) -> int {
    match m {
        OptimalMix::Single(x) => 100 * x.compressed_size,
        OptimalMix::Normal((e, c), f) => f * e.compressed_size + (100 - f) * c.compressed_size,
    }
}

/// The size the query's plan realizes for a feasible budget.
pub open spec fn plan_size100(h: Seq<MetricsWithBenefit>, b: u64) -> int {
    match query_spec(h, b) {
        Some(m) => mix_size100(m),
        None => 0,
    }
}

proof fn lemma_seg_index_from(h: Seq<MetricsWithBenefit>, b: u64, i: int)
    requires
        hull_wf(h),
        0 <= i < h.len() - 1,
        h[i].metrics.time_required <= b,
        b < h.last().metrics.time_required,
    ensures
        i <= seg_index(h, b, i) < h.len() - 1,
        h[seg_index(h, b, i)].metrics.time_required <= b,
        b < h[seg_index(h, b, i) + 1].metrics.time_required,
    decreases h.len() - i,
{
    if i + 2 >= h.len() {
        assert(h[i + 1] == h.last());
    } else if b < h[i + 1].metrics.time_required {
    } else {
        lemma_seg_index_from(h, b, i + 1);
    }
}

proof fn lemma_round_frac100_bounds(num: int, den: int)
    requires
        num >= 0,
        den >= 1,
    ensures
        0 <= round_frac100(num, den) <= 100,
{
    vstd::arithmetic::div_mod::lemma_div_pos_is_pos(200 * num + den, 2 * den);
}

proof fn lemma_round_frac100_monotone(n1: int, n2: int, den: int)
    requires
        0 <= n1 <= n2,
        den >= 1,
    ensures
        round_frac100(n1, den) <= round_frac100(n2, den),
{
    vstd::arithmetic::div_mod::lemma_div_is_ordered(200 * n1 + den, 200 * n2 + den, 2 * den);
}

/// Blending two sizes with a fraction in hundredths lands between
/// them.
proof fn lemma_mix_size_bounds(e: int, c: int, f: int)
    requires
        0 <= e <= c,
        0 <= f <= 100,
    ensures
        f * e + (100 - f) * c >= 100 * e,
        f * e + (100 - f) * c <= 100 * c,
{
    assert(f * e + (100 - f) * c - 100 * e == (100 - f) * (c - e)) by (nonlinear_arith);
    assert((100 - f) * (c - e) >= 0) by (nonlinear_arith)
        requires
            f <= 100,
            e <= c,
    ;
    assert(100 * c - (f * e + (100 - f) * c) == f * (c - e)) by (nonlinear_arith);
    assert(f * (c - e) >= 0) by (nonlinear_arith)
        requires
            f >= 0,
            e <= c,
    ;
}

/// Budget monotonicity of the single-document query: every feasible
/// budget gets a plan, and a larger feasible budget never selects a
/// plan of larger fraction-weighted compressed size.
pub proof fn lemma_query_budget_monotone(h: Seq<MetricsWithBenefit>, b1: u64, b2: u64)
    requires
        hull_wf(h),
        h[0].metrics.time_required <= b1,
        b1 <= b2,
    ensures
        query_spec(h, b1) is Some,
        query_spec(h, b2) is Some,
        plan_size100(h, b2) <= plan_size100(h, b1),
{
    let n = h.len() as int;
    let last_t = h.last().metrics.time_required;
    if b1 >= last_t {
        // Both budgets take the best configuration outright.
    } else {
        lemma_seg_index_from(h, b1, 0);
        let i1 = seg_index(h, b1, 0);
        let k1 = i1 + 1;
        assert(step_ok(h[k1 - 1], h[k1]));
        let e1 = h[i1 + 1].metrics.compressed_size as int;
        let c1 = h[i1].metrics.compressed_size as int;
        let t1 = h[i1].metrics.time_required as int;
        let d1 = h[i1 + 1].metrics.time_required - h[i1].metrics.time_required;
        let f1 = split_fraction(b1, h[i1].metrics.time_required, h[i1 + 1].metrics.time_required);
        lemma_round_frac100_bounds(b1 - t1, d1 as int);
        lemma_mix_size_bounds(e1, c1, f1);
        assert(plan_size100(h, b1) == f1 * e1 + (100 - f1) * c1);
        if b2 >= last_t {
            lemma_hull_sizes_decrease(h, i1 + 1, n - 1);
            assert(plan_size100(h, b2) == 100 * h.last().metrics.compressed_size);
        } else {
            lemma_seg_index_from(h, b2, 0);
            let i2 = seg_index(h, b2, 0);
            let k2 = i2 + 1;
            assert(step_ok(h[k2 - 1], h[k2]));
            let e2 = h[i2 + 1].metrics.compressed_size as int;
            let c2 = h[i2].metrics.compressed_size as int;
            let t2 = h[i2].metrics.time_required as int;
            let d2 = h[i2 + 1].metrics.time_required - h[i2].metrics.time_required;
            let f2 = split_fraction(
                b2,
                h[i2].metrics.time_required,
                h[i2 + 1].metrics.time_required,
            );
            lemma_round_frac100_bounds(b2 - t2, d2 as int);
            lemma_mix_size_bounds(e2, c2, f2);
            assert(plan_size100(h, b2) == f2 * e2 + (100 - f2) * c2);
            if i1 == i2 {
                lemma_round_frac100_monotone(b1 - t1, b2 - t1, d1 as int);
                assert((f1 * e1 + (100 - f1) * c1) - (f2 * e2 + (100 - f2) * c2) == (f2 - f1) * (
                c1 - e1)) by (nonlinear_arith)
                    requires
                        e1 == e2,
                        c1 == c2,
                ;
                assert((f2 - f1) * (c1 - e1) >= 0) by (nonlinear_arith)
                    requires
                        f1 <= f2,
                        e1 <= c1,
                ;
            } else {
                if i2 < i1 {
                    // The earlier segment's upper end is not past b1.
                    lemma_hull_times_increase(h, i2 + 1, i1);
                    assert(false);
                }
                lemma_hull_sizes_decrease(h, i1 + 1, i2);
            }
        }
    }
}


/// Weak domination by a chain: some chain point is at least as fast
/// and as small, or some chain segment spans the record's duration
/// with the record on or above it.
pub open spec fn weakly_dominated(q: AlgorithmMetrics, c: Seq<AlgorithmMetrics>) -> bool {
    pw_dominated(q, c) || covered_above(q, c)
}

/// A record on or above a falling segment is no smaller than the
/// segment's right end.
proof fn lemma_above_seg_size(q: AlgorithmMetrics, a: AlgorithmMetrics, b: AlgorithmMetrics)
    requires
        a.time_required < b.time_required,
        a.time_required <= q.time_required <= b.time_required,
        cross(a, b, q) >= 0,
    ensures
        b.compressed_size <= a.compressed_size ==> q.compressed_size >= b.compressed_size,
        b.compressed_size >= a.compressed_size ==> q.compressed_size >= a.compressed_size,
{
    let at = a.time_required as int;
    let bt = b.time_required as int;
    let qt = q.time_required as int;
    let as_ = a.compressed_size as int;
    let bs = b.compressed_size as int;
    let qs = q.compressed_size as int;
    if b.compressed_size <= a.compressed_size {
        assert(qs >= bs) by (nonlinear_arith)
            requires
                (bt - at) * (qs - as_) - (qt - at) * (bs - as_) >= 0,
                at <= qt <= bt,
                at < bt,
                bs <= as_,
        ;
    } else {
        assert(qs >= as_) by (nonlinear_arith)
            requires
                (bt - at) * (qs - as_) - (qt - at) * (bs - as_) >= 0,
                at <= qt <= bt,
                at < bt,
                bs >= as_,
        ;
    }
}

/// Sliding up and to the right within a falling segment's span keeps a
/// record on or above the segment.
proof fn lemma_above_seg_shift(
    q: AlgorithmMetrics,
    x: AlgorithmMetrics,
    a: AlgorithmMetrics,
    b: AlgorithmMetrics,
)
    requires
        a.time_required < b.time_required,
        a.time_required <= q.time_required <= b.time_required,
        cross(a, b, q) >= 0,
        b.compressed_size <= a.compressed_size,
        q.time_required <= x.time_required <= b.time_required,
        q.compressed_size <= x.compressed_size,
    ensures
        cross(a, b, x) >= 0,
{
    let at = a.time_required as int;
    let bt = b.time_required as int;
    let qt = q.time_required as int;
    let xt = x.time_required as int;
    let as_ = a.compressed_size as int;
    let bs = b.compressed_size as int;
    let qs = q.compressed_size as int;
    let xs = x.compressed_size as int;
    assert((bt - at) * (xs - as_) - (xt - at) * (bs - as_) >= 0) by (nonlinear_arith)
        requires
            (bt - at) * (qs - as_) - (qt - at) * (bs - as_) >= 0,
            qt <= xt,
            qs <= xs,
            bs <= as_,
            at < bt,
    ;
}

/// Weak domination by a strictly falling chain carries upward: any
/// record that a dominated record dominates is itself dominated.
proof fn lemma_weak_upward(x: AlgorithmMetrics, z: AlgorithmMetrics, c: Seq<AlgorithmMetrics>)
    requires
        weakly_dominated(z, c),
        z.time_required <= x.time_required,
        z.compressed_size <= x.compressed_size,
        times_strictly_increase(c),
        sizes_strictly_decrease(c),
    ensures
        weakly_dominated(x, c),
{
    if pw_dominated(z, c) {
        lemma_pw_weaken(z, x, c);
    } else {
        reveal(covered_above);
        let w = choose|w: int|
            0 <= w && w + 1 < c.len() && (#[trigger] c[w]).time_required <= z.time_required
                && z.time_required <= c[w + 1].time_required && cross(c[w], c[w + 1], z) >= 0;
        if x.time_required <= c[w + 1].time_required {
            lemma_above_seg_shift(z, x, c[w], c[w + 1]);
            assert(0 <= w && w + 1 < c.len() && c[w].time_required <= x.time_required
                && x.time_required <= c[w + 1].time_required && cross(c[w], c[w + 1], x) >= 0);
        } else {
            lemma_above_seg_size(z, c[w], c[w + 1]);
            lemma_pw_intro(x, c, w + 1);
        }
    }
}

/// Sizes along a convex chain never fall again after they first stop
/// falling.
proof fn lemma_convex_tail_sizes(h: Seq<AlgorithmMetrics>, kk: int, j: int)
    requires
        is_convex(h),
        times_strictly_increase(h),
        1 <= kk < h.len(),
        h[kk].compressed_size >= h[kk - 1].compressed_size,
        kk - 1 <= j < h.len(),
    ensures
        h[j].compressed_size >= h[kk - 1].compressed_size,
        j >= kk ==> h[j].compressed_size >= h[j - 1].compressed_size,
    decreases j,
{
    if j > kk {
        lemma_convex_tail_sizes(h, kk, j - 1);
        let k2 = j - 2;
        assert(cross(h[k2], h[k2 + 1], h[k2 + 2]) >= 0);
        let at = h[j - 2].time_required as int;
        let bt = h[j - 1].time_required as int;
        let ct = h[j].time_required as int;
        let as_ = h[j - 2].compressed_size as int;
        let bs = h[j - 1].compressed_size as int;
        let cs = h[j].compressed_size as int;
        assert(cs >= bs) by (nonlinear_arith)
            requires
                (bt - at) * (cs - as_) - (ct - at) * (bs - as_) >= 0,
                at < bt < ct,
                bs >= as_,
        ;
    }
}

/// Cutting the hull back to its strictly falling prefix keeps every
/// covered record weakly dominated: records over the cut tail sit no
/// lower than the chain's last point.
proof fn lemma_truncate_cover(q: AlgorithmMetrics, h: Seq<AlgorithmMetrics>, kk: int)
    requires
        covered_above(q, h),
        is_convex(h),
        times_strictly_increase(h),
        1 <= kk <= h.len(),
        kk < h.len() ==> h[kk].compressed_size >= h[kk - 1].compressed_size,
        sizes_strictly_decrease(h.take(kk)),
    ensures
        weakly_dominated(q, h.take(kk)),
{
    reveal(covered_above);
    let c = h.take(kk);
    let w = choose|w: int|
        0 <= w && w + 1 < h.len() && (#[trigger] h[w]).time_required <= q.time_required
            && q.time_required <= h[w + 1].time_required && cross(h[w], h[w + 1], q) >= 0;
    if w + 1 < kk {
        assert(c[w] == h[w] && c[w + 1] == h[w + 1]);
        assert(0 <= w && w + 1 < c.len() && c[w].time_required <= q.time_required
            && q.time_required <= c[w + 1].time_required && cross(c[w], c[w + 1], q) >= 0);
        assert(covered_above(q, c));
    } else {
        // The covering segment lies in the cut tail, where no point is
        // smaller than the chain's last.
        assert(kk < h.len());
        if w > kk - 1 {
            lemma_convex_tail_sizes(h, kk, w);
        }
        lemma_convex_tail_sizes(h, kk, w + 1);
        if h[w + 1].compressed_size <= h[w].compressed_size {
            lemma_above_seg_size(q, h[w], h[w + 1]);
        } else {
            lemma_above_seg_size(q, h[w], h[w + 1]);
        }
        assert(q.compressed_size >= h[kk - 1].compressed_size);
        assert(c[kk - 1] == h[kk - 1]);
        lemma_pw_intro(q, c, kk - 1);
    }
}

} // verus!
