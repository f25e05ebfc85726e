//! FELICS configuration records for the planner.
//!
//! Encoding and measuring happen outside this crate; a configuration
//! here carries the measured cost the caller observed.
use vstd::prelude::*;
use crate::algorithms::AlgorithmMetrics;
use crate::algorithms::ByteSize;

verus! {

/// One measured FELICS configuration.
#[derive(Clone, Copy, Debug)]
pub struct FELICS {
    pub compressed_size: Option<ByteSize>,
    pub time_required: Option<u64>,
}

impl FELICS {
    /// A configuration whose cost was measured by the caller; the
    /// returned pair is definitive to the planner.
    pub fn new(compressed_size: ByteSize, time_required: u64) -> (r: FELICS)
        ensures
            r.compressed_size == Some(compressed_size),
            r.time_required == Some(time_required),
    {
        FELICS { compressed_size: Some(compressed_size), time_required: Some(time_required) }
    }

    /// The measured compressed size.
    pub fn compressed_size(&self) -> (r: ByteSize)
        requires
            self.compressed_size is Some,
        ensures
            Some(r) == self.compressed_size,
    {
        self.compressed_size.unwrap()
    }

    /// The measured duration.
    pub fn time_required(&self) -> (r: u64)
        requires
            self.time_required is Some,
        ensures
            Some(r) == self.time_required,
    {
        self.time_required.unwrap()
    }

    /// This configuration's measurement record, tagged with the
    /// caller's handle for it.
    pub fn metrics(&self, algorithm: u64) -> (r: AlgorithmMetrics)
        requires
            self.compressed_size is Some,
            self.time_required is Some,
        ensures
            Some(r.compressed_size) == self.compressed_size,
            Some(r.time_required) == self.time_required,
            r.algorithm == algorithm,
    {
        AlgorithmMetrics {
            compressed_size: self.compressed_size.unwrap(),
            time_required: self.time_required.unwrap(),
            algorithm,
        }
    }
}

} // verus!
