//! Budget-constrained lossless-compression planning.
//!
//! Given one or more documents, a set of measured compression
//! configurations per document (compressed size and wall-clock duration
//! for each), and a global time budget, the planner reduces each
//! document's measurements to a lower convex hull of useful
//! configurations, orders hull steps by marginal benefit (bytes saved
//! per extra time unit), and selects the configuration — or the pair of
//! adjacent configurations with a split fraction — that minimises total
//! compressed size within the budget.
//!
//! Durations are plain non-negative integers in a caller-chosen unit
//! (typically milliseconds); sizes are byte counts. Running the codecs,
//! file handling and plotting live outside this crate; the planner only
//! consumes measured `(duration, size)` pairs tagged with a codec
//! handle.
pub mod algorithms;
pub mod container;
pub mod convex_hull;
pub mod mixing_policy;
pub mod workload;
