//! Agglomerative clustering of brain regions over a symmetric correlation
//! graph: cluster-pair scoring, deterministic best-pair selection, and the
//! merge loop that shrinks a partition of the nodes to a target cluster count.
//!
//! Correlation weights are held as fixed-point integers (micro-units), so
//! that pair scores are exact rationals and every comparison is exact.
use vstd::prelude::*;

pub mod clustering;
pub mod partition;
pub mod preprocessing;

verus! {

/// Largest node count a graph may have; keeps every cross-pair count and
/// weight sum within machine integer ranges.
pub const NODE_LIMIT: usize = 46340;

/// Largest magnitude of a single correlation weight, in micro-units
/// (a correlation of 1.0 is stored as 1_000_000).
pub const WEIGHT_LIMIT: i64 = 1000000;

/// The unrecoverable failures of a clustering run.
#[derive(Debug, Clone, Copy, PartialEq, Eq)]
pub enum ClusterError {
    /// The target cluster count is less than 1 or exceeds the node count.
    InvalidTarget,
    /// Best-pair selection was invoked with fewer than 2 clusters remaining.
    InsufficientClusters,
    /// The weight matrix is not square, not symmetric, out of the supported
    /// weight range, or inconsistent with the node sequence.
    MalformedGraph,
}

} // verus!
