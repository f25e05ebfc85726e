//! Xz2 configuration records for the planner.
//!
//! Running the codec, measuring it and writing its output are I/O and
//! happen outside this crate; a configuration here carries the level
//! chosen and the measured cost the caller observed.
use vstd::prelude::*;
use crate::algorithms::AlgorithmMetrics;
use crate::algorithms::ByteSize;

verus! {

/// Xz2's compression level.
#[derive(Clone, Copy, Debug)]
pub struct Xz2CompressionLevel(pub u32);

/// One measured Xz2 configuration.
#[derive(Clone, Copy, Debug)]
pub struct Xz2 {
    pub compression_level: Xz2CompressionLevel,
    pub compressed_size: Option<ByteSize>,
    pub time_required: Option<u64>,
}

impl Xz2 {
    /// A configuration whose cost was measured by the caller (by a
    /// full run or an estimator); the returned pair is definitive to
    /// the planner.
    pub fn new(compression_level: Xz2CompressionLevel, compressed_size: ByteSize, time_required: u64) -> (r:
        Xz2)
        ensures
            r.compression_level == compression_level,
            r.compressed_size == Some(compressed_size),
            r.time_required == Some(time_required),
    {
        Xz2 {
            compression_level,
            compressed_size: Some(compressed_size),
            time_required: Some(time_required),
        }
    }

    /// The compression level this configuration uses.
    pub fn level(&self) -> (r: u32)
        ensures
            r == self.compression_level.0,
    {
        self.compression_level.0
    }

    /// The measured compressed size.
    pub fn compressed_size(&self) -> (r: ByteSize)
        requires
            self.compressed_size is Some,
        ensures
            Some(r) == self.compressed_size,
    {
        self.compressed_size.unwrap()
    }

    /// The measured duration.
    pub fn time_required(&self) -> (r: u64)
        requires
            self.time_required is Some,
        ensures
            Some(r) == self.time_required,
    {
        self.time_required.unwrap()
    }

    /// This configuration's measurement record, tagged with the
    /// caller's handle for it.
    pub fn metrics(&self, algorithm: u64) -> (r: AlgorithmMetrics)
        requires
            self.compressed_size is Some,
            self.time_required is Some,
        ensures
            Some(r.compressed_size) == self.compressed_size,
            Some(r.time_required) == self.time_required,
            r.algorithm == algorithm,
    {
        AlgorithmMetrics {
            compressed_size: self.compressed_size.unwrap(),
            time_required: self.time_required.unwrap(),
            algorithm,
        }
    }
}

} // verus!
