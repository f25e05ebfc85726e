//! Workload descriptions: what the planner needs to know about a
//! document (or folder of documents) to be compressed. Reading the
//! actual bytes, creating result files and enumerating folders happen
//! outside this crate; a workload here carries plain measured values.
use vstd::prelude::*;

verus! {

/// A single document to compress: its name, its length in bytes and
/// the duration budget allotted to it (in the planner's time unit).
#[derive(Debug)]
pub struct Workload {
    pub name: String,
    pub data_len: u64,
    pub time_budget: u64,
}

impl Workload {
    pub fn new(name: String, data_len: u64, time_budget: u64) -> (r: Self)
        ensures
            r.name == name,
            r.data_len == data_len,
            r.time_budget == time_budget,
    {
        Workload { name, data_len, time_budget }
    }
}

/// A folder of documents compressed as one workload: the per-file byte
/// sizes stand in for the folder listing.
#[derive(Debug)]
pub struct FolderWorkload {
    pub name: String,
    pub time_budget: u64,
    pub file_sizes: Vec<u64>,
}

/// Sum of the sizes of the files seen so far.
pub open spec fn sizes_sum(s: Seq<u64>) -> int
    decreases s.len(),
{
    if s.len() == 0 {
        0
    } else {
        sizes_sum(s.drop_last()) + s.last()
    }
}

impl FolderWorkload {
    pub fn new(name: String, time_budget: u64, file_sizes: Vec<u64>) -> (r: Self)
        ensures
            r.name == name,
            r.time_budget == time_budget,
            r.file_sizes == file_sizes,
    {
        FolderWorkload { name, time_budget, file_sizes }
    }

    /// How many data files the workload holds.
    pub fn data_files_count(&self) -> (r: usize)
        ensures
            r == self.file_sizes@.len(),
    {
        self.file_sizes.len()
    }

    /// Total byte size of the workload's data files.
    pub fn data_files_size(&self) -> (r: u64)
        requires
            sizes_sum(self.file_sizes@) <= u64::MAX,
        ensures
            r == sizes_sum(self.file_sizes@),
    {
        let ghost gs = self.file_sizes@;
        let mut size: u64 = 0;
        proof {
            assert(gs.take(0) =~= Seq::<u64>::empty());
        }
        let mut i: usize = 0;
        while i < self.file_sizes.len()
            invariant
                0 <= i <= gs.len(),
                self.file_sizes@ == gs,
                size == sizes_sum(gs.take(i as int)),
                sizes_sum(gs) <= u64::MAX,
            decreases gs.len() - i,
        {
            proof {
                lemma_sizes_sum_prefix(gs, i as int);
                lemma_sizes_sum_bound(gs, i + 1);
                assert(gs.take(i + 1).drop_last() =~= gs.take(i as int));
                assert(gs.take(i + 1).last() == gs[i as int]);
            }
            size = size + self.file_sizes[i];
            i += 1;
        }
        proof {
            assert(gs.take(gs.len() as int) =~= gs);
        }
        size
    }

    /// Where this workload's results are collected; creating the folder
    /// itself is the caller's concern.
    pub fn get_results_folder(&self) {
    }
}

/// Each prefix sum is non-negative.
proof fn lemma_sizes_sum_nonneg(s: Seq<u64>)
    ensures
        sizes_sum(s) >= 0,
    decreases s.len(),
{
    if s.len() > 0 {
        lemma_sizes_sum_nonneg(s.drop_last());
    }
}

/// Unfold one step of the prefix sum.
proof fn lemma_sizes_sum_prefix(s: Seq<u64>, i: int)
    requires
        0 <= i < s.len(),
    ensures
        sizes_sum(s.take(i + 1)) == sizes_sum(s.take(i)) + s[i],
{
    assert(s.take(i + 1).drop_last() =~= s.take(i));
    assert(s.take(i + 1).last() == s[i]);
}

/// A prefix sum never exceeds the whole sum.
proof fn lemma_sizes_sum_bound(s: Seq<u64>, i: int)
    requires
        0 <= i <= s.len(),
    ensures
        sizes_sum(s.take(i)) <= sizes_sum(s),
    decreases s.len() - i,
{
    if i < s.len() {
        lemma_sizes_sum_prefix(s, i);
        lemma_sizes_sum_bound(s, i + 1);
    } else {
        assert(s.take(i) =~= s);
    }
}

} // verus!
