//! Configuration of a collection. It is fixed when the collection is created.

use vstd::prelude::*;
use crate::segment::types::Distance;

verus! {

/// What the user decides about the vectors of a collection.
#[derive(Debug, Clone, Copy, PartialEq, Eq, Structural)]
pub struct CollectionParams {
    /// Dimensionality of the vectors.
    pub vector_size: usize,
    /// How similarity is measured.
    pub distance: Distance,
}

/// Tuning of the operation log.
#[derive(Debug, Clone, Copy, PartialEq, Eq, Structural)]
pub struct WalConfig {
    /// Size of one log file, in megabytes.
    pub wal_capacity_mb: usize,
    /// Number of log files to create ahead of need.
    pub wal_segments_ahead: usize,
}

/// Tuning of the search index.
#[derive(Debug, Clone, Copy, PartialEq, Eq, Structural)]
pub struct HnswConfig {
    /// Number of edges per node of the index graph.
    pub m: usize,
    /// Number of neighbours considered while the index is built.
    pub ef_construct: usize,
    /// Below this many vectors a full scan is preferred to the index.
    pub full_scan_threshold: usize,
}

/// The whole configuration of a collection.
#[derive(Debug, Clone, Copy, PartialEq, Eq, Structural)]
pub struct CollectionConfig {
    pub params: CollectionParams,
    pub hnsw_config: HnswConfig,
    pub optimizer_config: crate::collection_builder::optimizers_builder::OptimizersConfig,
    pub wal_config: WalConfig,
}

} // verus!
