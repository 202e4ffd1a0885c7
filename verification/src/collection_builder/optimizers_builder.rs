//! Configuration of the optimizers.

use vstd::prelude::*;
use crate::config::{CollectionParams, HnswConfig};
use crate::segment_optimizer::Optimizer;

verus! {

/// Thresholds and budgets of the background optimization.
#[derive(Debug, Clone, Copy, PartialEq, Eq, Structural)]
pub struct OptimizersConfig {
    /// Number of empty segments that a new collection starts with.
    pub default_segment_number: usize,
    /// Segments with fewer points than this are merged with one another.
    pub merge_threshold: usize,
    /// Segments with at least this many points get a search index.
    pub indexing_threshold: usize,
    /// Seconds between two rounds of flushing and optimization.
    pub flush_interval_sec: u64,
    /// Number of threads for optimization; 0 leaves the choice to the machine.
    pub max_optimization_threads: usize,
}

/// The optimizers of a collection: one that merges small segments and one
/// that gives large segments their search index, each with the threshold of
/// the configuration.
pub fn build_optimizers(
    collection_params: &CollectionParams,
    optimizers_config: &OptimizersConfig,
    hnsw_config: &HnswConfig,
) -> (optimizers: Vec<Optimizer>)
    ensures
        optimizers@ == seq![
            Optimizer::Merge { threshold: optimizers_config.merge_threshold },
            Optimizer::Indexing { threshold: optimizers_config.indexing_threshold },
        ],
{
    let mut optimizers: Vec<Optimizer> = Vec::new();
    optimizers.push(Optimizer::Merge { threshold: optimizers_config.merge_threshold });
    optimizers.push(Optimizer::Indexing { threshold: optimizers_config.indexing_threshold });
    assert(optimizers@ =~= seq![
        Optimizer::Merge { threshold: optimizers_config.merge_threshold },
        Optimizer::Indexing { threshold: optimizers_config.indexing_threshold },
    ]);
    optimizers
}

} // verus!
