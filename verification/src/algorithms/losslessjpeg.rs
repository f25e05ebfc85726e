//! Lossless JPEG configuration records for the planner.
//!
//! Encoding and measuring happen outside this crate; a configuration
//! here carries the predictor chosen and, once the caller has measured
//! a run, the observed cost.
use vstd::prelude::*;
use crate::algorithms::AlgorithmMetrics;
use crate::algorithms::ByteSize;

verus! {

/// One lossless JPEG configuration: the predictor to use, and the
/// measured cost once the caller has recorded it.
#[derive(Clone, Copy, Debug)]
pub struct LosslessJPEG {
    pub compressed_size: Option<ByteSize>,
    pub time_required: Option<u64>,
    pub predictor: u32,
}

impl LosslessJPEG {
    /// A configuration that has not been measured yet.
    pub fn new(predictor: u32) -> (r: LosslessJPEG)
        ensures
            r.predictor == predictor,
            r.compressed_size is None,
            r.time_required is None,
    {
        LosslessJPEG { compressed_size: None, time_required: None, predictor }
    }

    /// Record the cost the caller measured; the pair is definitive to
    /// the planner.
    pub fn record_metrics(&mut self, compressed_size: ByteSize, time_required: u64)
        ensures
            final(self).predictor == old(self).predictor,
            final(self).compressed_size == Some(compressed_size),
            final(self).time_required == Some(time_required),
    {
        self.compressed_size = Some(compressed_size);
        self.time_required = Some(time_required);
    }

    /// The predictor this configuration uses.
    pub fn predictor(&self) -> (r: u32)
        ensures
            r == self.predictor,
    {
        self.predictor
    }

    /// The measured compressed size.
    pub fn compressed_size(&self) -> (r: ByteSize)
        requires
            self.compressed_size is Some,
        ensures
            Some(r) == self.compressed_size,
    {
        self.compressed_size.unwrap()
    }

    /// The measured duration.
    pub fn time_required(&self) -> (r: u64)
        requires
            self.time_required is Some,
        ensures
            Some(r) == self.time_required,
    {
        self.time_required.unwrap()
    }

    /// This configuration's measurement record, tagged with the
    /// caller's handle for it.
    pub fn metrics(&self, algorithm: u64) -> (r: AlgorithmMetrics)
        requires
            self.compressed_size is Some,
            self.time_required is Some,
        ensures
            Some(r.compressed_size) == self.compressed_size,
            Some(r.time_required) == self.time_required,
            r.algorithm == algorithm,
    {
        AlgorithmMetrics {
            compressed_size: self.compressed_size.unwrap(),
            time_required: self.time_required.unwrap(),
            algorithm,
        }
    }
}

} // verus!
