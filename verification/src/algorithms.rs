//! Measurement records: the atoms the planner sorts and composes.
use vstd::prelude::*;

pub mod bzip2;
pub mod felics;
pub mod gzip;
pub mod jpegxl;
pub mod losslessjpeg;
pub mod xz2;

verus! {

/// Compressed output size in bytes.
pub type ByteSize = u64;

/// The observed cost of running one codec configuration on one
/// document: compressed byte count and wall-clock duration (in the
/// caller's time unit), plus an opaque handle naming the configuration
/// that produced them. Immutable after construction.
#[derive(Clone, Copy, Debug)]
pub struct AlgorithmMetrics {
    pub compressed_size: ByteSize,
    pub time_required: u64,
    pub algorithm: u64,
}

/// Total ordering used by the planner: primary ascending by duration,
/// tie-break descending by size, so that among equal-duration
/// candidates the worse compressor sorts earlier and is dominated.
pub open spec fn metrics_le(a: AlgorithmMetrics, b: AlgorithmMetrics) -> bool {
    a.time_required < b.time_required
        || (a.time_required == b.time_required && a.compressed_size >= b.compressed_size)
}

impl AlgorithmMetrics {
    pub fn new(compressed_size: ByteSize, time_required: u64, algorithm: u64) -> (r: Self)
        ensures
            r.compressed_size == compressed_size,
            r.time_required == time_required,
            r.algorithm == algorithm,
    {
        AlgorithmMetrics { compressed_size, time_required, algorithm }
    }

    /// Exact decision procedure for `metrics_le`.
    pub fn le(&self, other: &Self) -> (r: bool)
        ensures
            r == metrics_le(*self, *other),
    {
        self.time_required < other.time_required || (self.time_required == other.time_required
            && self.compressed_size >= other.compressed_size)
    }
}

impl PartialEq for AlgorithmMetrics {
    /// Equality is componentwise on size and duration; the codec handle
    /// does not take part, matching the planner's notion of
    /// interchangeable configurations.
    fn eq(&self, other: &Self) -> (r: bool) {
        self.compressed_size == other.compressed_size && self.time_required
            == other.time_required
    }
}

impl vstd::std_specs::cmp::PartialEqSpecImpl for AlgorithmMetrics {
    open spec fn obeys_eq_spec() -> bool {
        true
    }

    open spec fn eq_spec(&self, other: &Self) -> bool {
        self.compressed_size == other.compressed_size && self.time_required
            == other.time_required
    }
}

/// One sampled range for estimator-based measurement: the window length
/// and the index one past its end within the document.
pub struct BlockInfo {
    pub block_size: u64,
    pub block_end_index: u64,
}

} // verus!
