//! Assembles collections: a new one from its configuration, or one recovered
//! from an operation log.

use vstd::prelude::*;
use crate::collection::Collection;
use crate::collection_builder::optimizers_builder::{build_optimizers, OptimizersConfig};
use crate::config::{CollectionConfig, CollectionParams, HnswConfig, WalConfig};
use crate::operations::point_ops::{
    operation_views, replay, replay_indexes, CollectionUpdateOperations,
};
use crate::segment::segment::Segment;
use crate::segment::types::{PointIdType, PointView, SeqNumberType};
use crate::segment_holder::{SegmentHolder, SegmentId};
use crate::segment_optimizer::Optimizer;
use crate::update_handler::UpdateHandler;
use crate::wal::{Wal, WalView};

verus! {

/// The number of CPUs that `num_cpus::get` reports as available to this
/// process. Its documentation promises at least 1; the number itself depends
/// on the machine.
#[verifier::external_body]
fn available_cpus() -> (cpus: usize)
    ensures
        cpus >= 1,
{
    num_cpus::get()
}

/// The number of threads for background optimization: the configured number
/// or, where the configuration says 0, all CPUs but one, and at least one.
pub open spec fn threads_for(configured: usize, cpus: usize) -> int {
    if configured != 0 {
        configured as int
    } else if cpus - 1 > 1 {
        cpus - 1
    } else {
        1
    }
}

/// The number of threads for background optimization on a machine with
/// `cpus` CPUs.
pub fn optimization_threads(configured: usize, cpus: usize) -> (threads: usize)
    ensures
        threads == threads_for(configured, cpus),
{
    if configured != 0 {
        configured
    } else if cpus > 2 {
        cpus - 1
    } else {
        1
    }
}

/// Assembles a collection from segments, configuration, log and optimizers.
/// Everything that the log holds counts as applied to the segments. The
/// thread budget of the background optimization follows the configuration
/// and the machine.
pub fn construct_collection(
    segment_holder: SegmentHolder,
    config: CollectionConfig,
    wal: Wal<CollectionUpdateOperations>,
    optimizers: Vec<Optimizer>,
) -> (collection: Collection)
    requires
        segment_holder.wf(),
        wal.wf(),
        segment_holder.applied_through(wal@.next_index() as SeqNumberType),
    ensures
        collection.wf(),
        collection.points() == segment_holder.points(),
        collection.field_indexes() == segment_holder.field_indexes(),
        collection.segments() == segment_holder@,
        collection.writable() == (segment_holder.segment_ids().len() > 0),
        collection.log() == wal@,
        collection.spec_applied_until() == wal@.next_index(),
        collection.spec_dim() == segment_holder.spec_dim(),
        collection.spec_distance() == segment_holder.spec_distance(),
        collection.spec_config() == config,
        collection.handler().optimizers() == optimizers@,
        collection.handler().spec_flush_interval_sec() == config.optimizer_config.flush_interval_sec,
        !collection.handler().busy(),
        !collection.has_unrecovered_failure(),
        exists|cpus: usize|
            cpus >= 1 && collection.spec_optimization_threads() == #[trigger] threads_for(
                config.optimizer_config.max_optimization_threads,
                cpus,
            ),
{
    let cpus = available_cpus();
    let threads = optimization_threads(config.optimizer_config.max_optimization_threads, cpus);
    assert(threads == threads_for(config.optimizer_config.max_optimization_threads, cpus));
    let update_handler = UpdateHandler::new(optimizers, config.optimizer_config.flush_interval_sec);
    let applied_until = wal.next_index();
    Collection::assemble(segment_holder, config, wal, update_handler, applied_until, threads)
}

/// A holder with `count` empty segments for vectors of these parameters.
fn empty_segments(collection_params: &CollectionParams, count: usize) -> (holder: SegmentHolder)
    ensures
        holder.wf(),
        holder.spec_dim() == collection_params.vector_size,
        holder.spec_distance() == collection_params.distance,
        holder.segment_ids().len() == count,
        holder.points() == Map::<PointIdType, PointView>::empty(),
        holder.field_indexes() == Seq::<Seq<char>>::empty(),
        holder.applied_through(0),
        forall|sid: SegmentId| #[trigger]
            holder@.contains_key(sid) ==> holder@[sid]@ == Map::<PointIdType, PointView>::empty(),
{
    let mut holder = SegmentHolder::new(collection_params.vector_size, collection_params.distance);
    let mut i: usize = 0;
    while i < count
        invariant
            i <= count,
            holder.wf(),
            holder.spec_dim() == collection_params.vector_size,
            holder.spec_distance() == collection_params.distance,
            holder.spec_next_id() == i,
            holder.segment_ids().len() == i,
            holder.points() == Map::<PointIdType, PointView>::empty(),
            holder.field_indexes() == Seq::<Seq<char>>::empty(),
            holder.applied_through(0),
            forall|sid: SegmentId| #[trigger]
                holder@.contains_key(sid) ==> holder@[sid]@ == Map::<
                    PointIdType,
                    PointView,
                >::empty(),
        decreases count - i,
    {
        let segment = Segment::new(collection_params.vector_size, collection_params.distance);
        let ghost before = holder.points();
        let _ = holder.add(segment);
        assert(before.union_prefer_right(segment@) =~= Map::<PointIdType, PointView>::empty());
        i += 1;
    }
    holder
}

/// Creates a new, empty collection with the given configuration: the
/// configured number of empty segments, an empty log, the optimizers that
/// the configuration asks for.
pub fn build_collection(
    wal_config: &WalConfig,
    collection_params: &CollectionParams,
    optimizers_config: &OptimizersConfig,
    hnsw_config: &HnswConfig,
) -> (collection: Collection)
    ensures
        collection.wf(),
        collection.in_step_with_log(),
        collection.points() == Map::<PointIdType, PointView>::empty(),
        collection.field_indexes() == Seq::<Seq<char>>::empty(),
        collection.writable() == (optimizers_config.default_segment_number > 0),
        collection.log() == (WalView::<CollectionUpdateOperations> {
            first_index: 0,
            entries: Seq::empty(),
            durable_until: 0,
            failure: None,
        }),
        collection.spec_applied_until() == 0,
        collection.spec_dim() == collection_params.vector_size,
        collection.spec_distance() == collection_params.distance,
        collection.spec_config() == (CollectionConfig {
            params: *collection_params,
            hnsw_config: *hnsw_config,
            optimizer_config: *optimizers_config,
            wal_config: *wal_config,
        }),
        collection.handler().optimizers() == seq![
            Optimizer::Merge { threshold: optimizers_config.merge_threshold },
            Optimizer::Indexing { threshold: optimizers_config.indexing_threshold },
        ],
        !collection.handler().busy(),
        !collection.has_unrecovered_failure(),
{
    let segment_holder = empty_segments(collection_params, optimizers_config.default_segment_number);
    let wal: Wal<CollectionUpdateOperations> = Wal::new();
    let collection_config = CollectionConfig {
        params: *collection_params,
        hnsw_config: *hnsw_config,
        optimizer_config: *optimizers_config,
        wal_config: *wal_config,
    };
    let optimizers = build_optimizers(collection_params, optimizers_config, hnsw_config);
    let collection = construct_collection(segment_holder, collection_config, wal, optimizers);
    assert(collection.applied_operations() =~= Seq::empty());
    collection
}

/// Recovers a collection from its operation log: starts from empty segments
/// and applies every entry of the log, in order. A refused entry changes
/// nothing, as it changed nothing when it was first applied.
pub fn recover_collection(
    wal_config: &WalConfig,
    collection_params: &CollectionParams,
    optimizers_config: &OptimizersConfig,
    hnsw_config: &HnswConfig,
    wal: Wal<CollectionUpdateOperations>,
) -> (collection: Collection)
    requires
        wal.wf(),
    ensures
        collection.wf(),
        collection.in_step_with_log(),
        collection.log() == wal@,
        collection.spec_applied_until() == wal@.next_index(),
        collection.points() == replay(
            Map::<PointIdType, PointView>::empty(),
            collection_params.vector_size,
            optimizers_config.default_segment_number > 0,
            operation_views(wal@.entries),
        ),
        collection.field_indexes() == replay_indexes(
            Seq::<Seq<char>>::empty(),
            operation_views(wal@.entries),
        ),
        collection.writable() == (optimizers_config.default_segment_number > 0),
        collection.spec_dim() == collection_params.vector_size,
        collection.spec_distance() == collection_params.distance,
{
    let segment_holder = empty_segments(collection_params, optimizers_config.default_segment_number);
    let collection_config = CollectionConfig {
        params: *collection_params,
        hnsw_config: *hnsw_config,
        optimizer_config: *optimizers_config,
        wal_config: *wal_config,
    };
    let optimizers = build_optimizers(collection_params, optimizers_config, hnsw_config);
    let update_handler = UpdateHandler::new(optimizers, optimizers_config.flush_interval_sec);
    let threads = optimization_threads(
        optimizers_config.max_optimization_threads,
        available_cpus(),
    );
    let first = wal.first_index();
    let next = wal.next_index();
    let mut collection = Collection::assemble(
        segment_holder,
        collection_config,
        wal,
        update_handler,
        first,
        threads,
    );
    assert(collection.applied_operations() =~= Seq::empty());
    while collection.applied_until() < next
        invariant
            collection.wf(),
            collection.in_step_with_log(),
            collection.field_indexes() == replay_indexes(
                Seq::<Seq<char>>::empty(),
                collection.applied_operations(),
            ),
            collection.log() == wal@,
            next == wal@.next_index(),
            collection.spec_applied_until() <= next,
            collection.writable() == (optimizers_config.default_segment_number > 0),
            collection.spec_dim() == collection_params.vector_size,
            collection.spec_distance() == collection_params.distance,
        decreases next - collection.spec_applied_until(),
    {
        let ghost before = collection.applied_operations();
        let ghost seq = collection.spec_applied_until();
        proof {
            collection.lemma_wf();
        }
        let _ = collection.apply_next();
        proof {
            let ops = operation_views(wal@.entries);
            let k = seq - wal@.first_index;
            assert(collection.applied_operations().drop_last() =~= before);
            assert(collection.applied_operations().last() == ops[k]);
        }
    }
    assert(collection.applied_operations() =~= operation_views(wal@.entries));
    collection
}

/// Recovery reproduces the live collection: two collections that are in step
/// with the same log and have applied the same part of it, with vectors of
/// the same dimension and both with or both without a segment, hold the same
/// points.
pub proof fn lemma_recovery_reproduces(live: &Collection, recovered: &Collection)
    requires
        live.in_step_with_log(),
        recovered.in_step_with_log(),
        recovered.log().entries == live.log().entries,
        recovered.log().first_index == live.log().first_index,
        recovered.spec_applied_until() == live.spec_applied_until(),
        recovered.spec_dim() == live.spec_dim(),
        recovered.writable() == live.writable(),
    ensures
        recovered.points() == live.points(),
{
}

} // verus!
