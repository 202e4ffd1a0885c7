//! The collection: configuration, segments, operation log and update handler
//! assembled into the object that takes operations and answers queries.

use vstd::prelude::*;
use vstd::string::*;
use crate::collection_manager::points_reader::{
    is_page, is_visible, retrieve, scroll, show_points,
};
use crate::collection_manager::search::{
    is_top, names_first_absent, recommend_plan, search, vectors_exist, vectors_of_points,
    RecommendPlan,
};
use crate::collection_manager::segments_updater::process_operation;
use crate::segment::entry_point::OperationError;
use crate::config::CollectionConfig;
use crate::operations::point_ops::{
    accepted, index_effect, lemma_refused_not_accepted, lemma_replay_push, operation_views,
    rejected, replay, replay_indexes, step, CollectionUpdateOperations, OperationView,
};
use crate::operations::types::{
    record_ids, schema_keys, CollectionError, CollectionInfo, CollectionResult, CollectionStatus,
    RecommendRequest, Record, ScrollRequest, ScrollResult, SearchRequest, UpdateResult,
    UpdateStatus,
};
use crate::segment::segment::Segment;
use crate::segment::types::{
    passes, Distance, PayloadSchemaInfo, PointIdType, PointView, ScoredPoint, SeqNumberType,
};
use crate::segment_holder::{SegmentHolder, SegmentId};
use crate::segment_optimizer::carried_version;
use crate::update_handler::{OperationEvent, OperationState, UpdateHandler};
use crate::wal::{Wal, WalView};

verus! {

/// A collection of points. Operations enter through the log, which orders
/// them; they are applied to the segments in that order.
pub struct Collection {
    config: CollectionConfig,
    segments: SegmentHolder,
    wal: Wal<CollectionUpdateOperations>,
    update_handler: UpdateHandler,
    applied_until: SeqNumberType,
    optimization_threads: usize,
    unrecovered: bool,
}

impl Collection {
    /// The points of the collection, by id.
    pub closed spec fn points(&self) -> Map<PointIdType, PointView> {
        self.segments.points()
    }

    /// The segments of the collection, by id.
    pub closed spec fn segments(&self) -> Map<SegmentId, Segment> {
        self.segments@
    }

    /// The payload fields over which an index is kept, in the order in which
    /// their indexes were asked for.
    pub closed spec fn field_indexes(&self) -> Seq<Seq<char>> {
        self.segments.field_indexes()
    }

    /// The holder of the segments.
    pub closed spec fn holder(&self) -> SegmentHolder {
        self.segments
    }

    /// Whether the collection has a segment, so that it can take new points.
    pub closed spec fn writable(&self) -> bool {
        self.segments.segment_ids().len() > 0
    }

    /// The operation log.
    pub closed spec fn log(&self) -> WalView<CollectionUpdateOperations> {
        self.wal@
    }

    /// Every logged operation numbered below this is applied to the segments.
    pub closed spec fn spec_applied_until(&self) -> SeqNumberType {
        self.applied_until
    }

    /// The dimension of the collection's vectors.
    pub closed spec fn spec_dim(&self) -> usize {
        self.segments.spec_dim()
    }

    /// How the collection measures similarity.
    pub closed spec fn spec_distance(&self) -> Distance {
        self.segments.spec_distance()
    }

    /// The configuration that the collection was created with.
    pub closed spec fn spec_config(&self) -> CollectionConfig {
        self.config
    }

    /// The schedule of the background optimization.
    pub closed spec fn handler(&self) -> UpdateHandler {
        self.update_handler
    }

    /// The number of threads that the background optimization may use.
    pub closed spec fn spec_optimization_threads(&self) -> usize {
        self.optimization_threads
    }

    /// Whether an optimization round failed and nothing has made up for it.
    pub closed spec fn has_unrecovered_failure(&self) -> bool {
        self.unrecovered
    }

    /// The invariant of the collection: its parts are well formed, what is
    /// applied is a prefix of what the log holds or has given up, and no
    /// segment has absorbed an operation that is not yet applied.
    pub closed spec fn wf(&self) -> bool {
        &&& self.segments.wf()
        &&& self.wal.wf()
        &&& self.update_handler.wf()
        &&& self.wal@.first_index <= self.applied_until <= self.wal@.next_index()
        &&& self.segments.applied_through(self.applied_until)
        &&& self.optimization_threads >= 1
    }

    /// The operations of the log that are applied, oldest first.
    pub open spec fn applied_operations(&self) -> Seq<OperationView> {
        operation_views(self.log().entries).take(
            self.spec_applied_until() - self.log().first_index,
        )
    }

    /// Whether the points are what the applied operations of the log make of
    /// an empty collection. This holds from the creation of a collection for
    /// as long as the log gives up no entry.
    pub open spec fn in_step_with_log(&self) -> bool {
        self.points() == replay(
            Map::<PointIdType, PointView>::empty(),
            self.spec_dim(),
            self.writable(),
            self.applied_operations(),
        )
    }

    /// What the invariant says of the views.
    pub proof fn lemma_wf(&self)
        requires
            self.wf(),
        ensures
            self.log().first_index <= self.spec_applied_until() <= self.log().next_index(),
            self.log().next_index() <= u64::MAX,
            self.handler().wf(),
            self.holder().wf(),
            self.holder()@ == self.segments(),
            self.holder().points() == self.points(),
            self.holder().field_indexes() == self.field_indexes(),
            self.holder().spec_dim() == self.spec_dim(),
            self.holder().spec_distance() == self.spec_distance(),
            self.holder().applied_through(self.spec_applied_until()),
            self.writable() == (self.holder().segment_ids().len() > 0),
            self.spec_optimization_threads() >= 1,
            forall|id: PointIdType| #[trigger]
                self.points().contains_key(id) ==> self.points()[id].vector.len()
                    == self.spec_dim(),
    {
        self.segments.lemma_wf();
    }

    /// Puts a collection together from its parts.
    pub(crate) fn assemble(
        segments: SegmentHolder,
        config: CollectionConfig,
        wal: Wal<CollectionUpdateOperations>,
        update_handler: UpdateHandler,
        applied_until: SeqNumberType,
        optimization_threads: usize,
    ) -> (collection: Collection)
        requires
            segments.wf(),
            wal.wf(),
            update_handler.wf(),
            wal@.first_index <= applied_until <= wal@.next_index(),
            segments.applied_through(applied_until),
            optimization_threads >= 1,
        ensures
            collection.wf(),
            collection.points() == segments.points(),
            collection.field_indexes() == segments.field_indexes(),
            collection.segments() == segments@,
            collection.writable() == (segments.segment_ids().len() > 0),
            collection.log() == wal@,
            collection.spec_applied_until() == applied_until,
            collection.spec_dim() == segments.spec_dim(),
            collection.spec_distance() == segments.spec_distance(),
            collection.spec_config() == config,
            collection.handler() == update_handler,
            collection.spec_optimization_threads() == optimization_threads,
            !collection.has_unrecovered_failure(),
    {
        Collection {
            config,
            segments,
            wal,
            update_handler,
            applied_until,
            optimization_threads,
            unrecovered: false,
        }
    }

    /// The dimension of the collection's vectors.
    #[verifier::when_used_as_spec(spec_dim)]
    pub fn dim(&self) -> (d: usize)
        ensures
            d == self.spec_dim(),
    {
        self.segments.dim()
    }

    /// The configuration that the collection was created with.
    #[verifier::when_used_as_spec(spec_config)]
    pub fn config(&self) -> (c: CollectionConfig)
        ensures
            c == self.spec_config(),
    {
        self.config
    }

    /// The number of threads that the background optimization may use.
    #[verifier::when_used_as_spec(spec_optimization_threads)]
    pub fn optimization_threads(&self) -> (n: usize)
        ensures
            n == self.spec_optimization_threads(),
    {
        self.optimization_threads
    }

    /// Every logged operation numbered below this is applied to the segments.
    #[verifier::when_used_as_spec(spec_applied_until)]
    pub fn applied_until(&self) -> (seq: SeqNumberType)
        ensures
            seq == self.spec_applied_until(),
    {
        self.applied_until
    }

    /// The segments, for reading.
    pub fn segment_holder(&self) -> (holder: &SegmentHolder)
        requires
            self.wf(),
        ensures
            holder.wf(),
            holder.points() == self.points(),
            holder.field_indexes() == self.field_indexes(),
            holder@ == self.segments(),
            holder.spec_dim() == self.spec_dim(),
    {
        &self.segments
    }

    /// The operation log, for reading.
    pub fn wal(&self) -> (wal: &Wal<CollectionUpdateOperations>)
        requires
            self.wf(),
        ensures
            wal.wf(),
            wal@ == self.log(),
    {
        &self.wal
    }

    /// The schedule of the background optimization, for reading.
    pub fn update_handler(&self) -> (handler: &UpdateHandler)
        ensures
            *handler == self.handler(),
    {
        &self.update_handler
    }

    /// Whether the rest of the collection is as it was: everything but the
    /// log, the segments and the mark of what is applied.
    pub open spec fn same_frame(&self, before: &Collection) -> bool {
        &&& self.spec_dim() == before.spec_dim()
        &&& self.spec_distance() == before.spec_distance()
        &&& self.spec_config() == before.spec_config()
        &&& self.handler() == before.handler()
        &&& self.spec_optimization_threads() == before.spec_optimization_threads()
        &&& self.has_unrecovered_failure() == before.has_unrecovered_failure()
        &&& self.writable() == before.writable()
    }

    /// Takes the operation into the log and hands out its sequence number.
    /// The operation is then durable in the order of the log, and not yet
    /// applied. A log that is not writable refuses, and nothing changes.
    pub fn submit(&mut self, operation: CollectionUpdateOperations) -> (r: CollectionResult<
        UpdateResult,
    >)
        requires
            old(self).wf(),
        ensures
            final(self).wf(),
            final(self).same_frame(old(self)),
            final(self).field_indexes() == old(self).field_indexes(),
            final(self).points() == old(self).points(),
            final(self).segments() == old(self).segments(),
            final(self).spec_applied_until() == old(self).spec_applied_until(),
            old(self).in_step_with_log() ==> final(self).in_step_with_log(),
            match r {
                Ok(result) => {
                    &&& old(self).log().writable()
                    &&& result == (UpdateResult {
                        operation_id: old(self).log().next_index() as SeqNumberType,
                        status: UpdateStatus::Acknowledged,
                    })
                    &&& final(self).log() == old(self).log().appended(operation)
                },
                Err(e) => {
                    &&& !old(self).log().writable()
                    &&& final(self).log() == old(self).log()
                    &&& e matches CollectionError::ServiceError { error }
                    &&& error@ == "Can't write WAL: "@ + old(self).log().refusal_reason()
                },
            },
    {
        let ghost before = self.wal@;
        let ghost k = self.applied_until - before.first_index;
        let event = match self.wal.append(operation) {
            Ok(seq) => {
                proof {
                    assert(operation_views(before.appended(operation).entries).take(k)
                        =~= operation_views(before.entries).take(k));
                }
                OperationEvent::LogAppended(seq)
            },
            Err(e) => OperationEvent::LogRefused(e),
        };
        OperationState::Received.on_event(event).outcome()
    }

    /// Applies the oldest logged operation that is not yet applied. Operations
    /// are applied strictly in the order of their sequence numbers. The
    /// outcome belongs to that operation alone: a refused operation changes
    /// no point and does not keep the next one from being applied.
    pub fn apply_next(&mut self) -> (r: Option<(SeqNumberType, CollectionResult<UpdateResult>)>)
        requires
            old(self).wf(),
        ensures
            final(self).wf(),
            final(self).same_frame(old(self)),
            final(self).log() == old(self).log(),
            old(self).in_step_with_log() ==> final(self).in_step_with_log(),
            match r {
                None => {
                    &&& old(self).spec_applied_until() == old(self).log().next_index()
                    &&& final(self).spec_applied_until() == old(self).spec_applied_until()
                    &&& final(self).points() == old(self).points()
                    &&& final(self).field_indexes() == old(self).field_indexes()
                    &&& final(self).segments() == old(self).segments()
                },
                Some((seq, outcome)) => {
                    &&& seq == old(self).spec_applied_until()
                    &&& old(self).log().holds(seq as nat)
                    &&& final(self).spec_applied_until() == seq + 1
                    &&& final(self).points() == step(
                        old(self).points(),
                        old(self).spec_dim(),
                        old(self).writable(),
                        old(self).log().entry(seq as nat)@,
                    )
                    &&& final(self).field_indexes() == index_effect(
                        old(self).field_indexes(),
                        old(self).log().entry(seq as nat)@,
                    )
                    &&& match outcome {
                        Ok(result) => {
                            &&& accepted(
                                old(self).points(),
                                old(self).spec_dim(),
                                old(self).writable(),
                                old(self).log().entry(seq as nat)@,
                            )
                            &&& result == (UpdateResult {
                                operation_id: seq,
                                status: UpdateStatus::Completed,
                            })
                        },
                        Err(e) => rejected(
                            old(self).points(),
                            old(self).spec_dim(),
                            old(self).writable(),
                            old(self).log().entry(seq as nat)@,
                            e,
                        ),
                    }
                },
            },
    {
        let seq = self.applied_until;
        let ghost m = self.segments.points();
        let ghost dim = self.segments.spec_dim();
        let ghost w = self.segments.segment_ids().len() > 0;
        let ghost ops = operation_views(self.wal@.entries);
        let ghost k = seq - self.wal@.first_index;
        match self.wal.get(seq) {
            None => None,
            Some(operation) => {
                let applied = process_operation(&mut self.segments, seq, operation);
                self.applied_until = seq + 1;
                proof {
                    assert(ops[k] == operation@);
                    assert(ops.take(k + 1) =~= ops.take(k).push(operation@));
                    lemma_replay_push(
                        Map::<PointIdType, PointView>::empty(),
                        dim,
                        w,
                        ops.take(k),
                        operation@,
                    );
                    if applied is Err {
                        lemma_refused_not_accepted(m, dim, w, operation@, applied->Err_0);
                    }
                }
                let event = match applied {
                    Ok(_) => OperationEvent::SegmentsUpdated,
                    Err(oe) => OperationEvent::SegmentsRefused(oe),
                };
                let outcome = OperationState::Logged(seq).on_event(event).outcome();
                proof {
                    if applied is Err {
                        assert(CollectionError::converts(applied->Err_0, outcome->Err_0));
                    }
                }
                Some((seq, outcome))
            },
        }
    }

    /// The operations of the log that are not yet applied, oldest first.
    pub open spec fn pending_operations(&self) -> Seq<OperationView> {
        operation_views(self.log().entries).skip(
            self.spec_applied_until() - self.log().first_index,
        )
    }

    /// The points of the collection once everything logged is applied.
    pub open spec fn points_when_caught_up(&self) -> Map<PointIdType, PointView> {
        replay(self.points(), self.spec_dim(), self.writable(), self.pending_operations())
    }

    /// Takes the operation into the log and applies everything logged, up to
    /// and with this operation. The result is this operation's own: it says
    /// what the operation made of the points that the operations before it
    /// had left.
    pub fn update(&mut self, operation: CollectionUpdateOperations) -> (r: CollectionResult<
        UpdateResult,
    >)
        requires
            old(self).wf(),
        ensures
            final(self).wf(),
            final(self).same_frame(old(self)),
            old(self).in_step_with_log() ==> final(self).in_step_with_log(),
            !old(self).log().writable() ==> {
                &&& r matches Err(CollectionError::ServiceError { error })
                &&& error@ == "Can't write WAL: "@ + old(self).log().refusal_reason()
                &&& final(self).log() == old(self).log()
                &&& final(self).points() == old(self).points()
                &&& final(self).field_indexes() == old(self).field_indexes()
                &&& final(self).segments() == old(self).segments()
                &&& final(self).spec_applied_until() == old(self).spec_applied_until()
            },
            old(self).log().writable() ==> {
                &&& final(self).log() == old(self).log().appended(operation)
                &&& final(self).spec_applied_until() == final(self).log().next_index()
                &&& final(self).points() == step(
                    old(self).points_when_caught_up(),
                    old(self).spec_dim(),
                    old(self).writable(),
                    operation@,
                )
                &&& final(self).field_indexes() == index_effect(
                    replay_indexes(old(self).field_indexes(), old(self).pending_operations()),
                    operation@,
                )
                &&& match r {
                    Ok(result) => {
                        &&& accepted(
                            old(self).points_when_caught_up(),
                            old(self).spec_dim(),
                            old(self).writable(),
                            operation@,
                        )
                        &&& result == (UpdateResult {
                            operation_id: old(self).log().next_index() as SeqNumberType,
                            status: UpdateStatus::Completed,
                        })
                    },
                    Err(e) => rejected(
                        old(self).points_when_caught_up(),
                        old(self).spec_dim(),
                        old(self).writable(),
                        operation@,
                        e,
                    ),
                }
            },
    {
        let ghost start = self.points();
        let ghost dim = self.spec_dim();
        let ghost w = self.writable();
        let ghost first = self.log().first_index;
        let ghost from = self.applied_until - first;
        let ghost held = self.log().entries.len() as int;
        let ghost ops = operation_views(self.log().appended(operation).entries);
        let ghost caught_up = self.points_when_caught_up();
        let ghost fields = self.field_indexes();
        proof {
            self.lemma_wf();
            assert(ops.subrange(from, held) =~= self.pending_operations());
            assert(ops[held] == operation@);
            assert(ops.subrange(from, held + 1).drop_last() =~= ops.subrange(from, held));
            assert(ops.subrange(from, held + 1).last() == operation@);
        }
        let logged = self.submit(operation);
        let seq = match logged {
            Ok(result) => result.operation_id,
            Err(e) => {
                return Err(e);
            },
        };
        let mut last: CollectionResult<UpdateResult> = Ok(
            UpdateResult { operation_id: seq, status: UpdateStatus::Completed },
        );
        proof {
            assert(ops.subrange(from, from) =~= Seq::<OperationView>::empty());
        }
        while self.applied_until <= seq
            invariant
                self.wf(),
                self.same_frame(old(self)),
                dim == old(self).spec_dim(),
                w == old(self).writable(),
                start == old(self).points(),
                caught_up == old(self).points_when_caught_up(),
                self.log() == old(self).log().appended(operation),
                ops == operation_views(self.log().entries),
                first == self.log().first_index,
                held == old(self).log().entries.len(),
                seq == first + held,
                0 <= from <= self.spec_applied_until() - first <= held + 1,
                old(self).in_step_with_log() ==> self.in_step_with_log(),
                caught_up == replay(start, dim, w, ops.subrange(from, held)),
                ops[held] == operation@,
                fields == old(self).field_indexes(),
                self.field_indexes() == replay_indexes(
                    fields,
                    ops.subrange(from, self.spec_applied_until() - first),
                ),
                self.spec_applied_until() <= seq ==> self.points() == replay(
                    start,
                    dim,
                    w,
                    ops.subrange(from, self.spec_applied_until() - first),
                ),
                self.spec_applied_until() == seq + 1 ==> {
                    &&& self.points() == step(caught_up, dim, w, operation@)
                    &&& match last {
                        Ok(result) => {
                            &&& accepted(caught_up, dim, w, operation@)
                            &&& result == (UpdateResult {
                                operation_id: seq,
                                status: UpdateStatus::Completed,
                            })
                        },
                        Err(e) => rejected(caught_up, dim, w, operation@, e),
                    }
                },
            decreases seq + 1 - self.spec_applied_until(),
        {
            let ghost at = self.applied_until - first;
            proof {
                self.lemma_wf();
            }
            match self.apply_next() {
                Some((_, outcome)) => {
                    proof {
                        assert(self.log().entry((first + at) as nat)@ == ops[at]);
                        assert(ops.subrange(from, at + 1).drop_last() =~= ops.subrange(
                            from,
                            at,
                        ));
                        assert(ops.subrange(from, at + 1).last() == ops[at]);
                        if at < held {
                            assert(ops.subrange(from, at + 1) =~= ops.subrange(from, at).push(
                                ops[at],
                            ));
                            lemma_replay_push(start, dim, w, ops.subrange(from, at), ops[at]);
                        }
                    }
                    last = outcome;
                },
                None => {
                    assert(false);
                },
            }
        }
        proof {
            self.lemma_wf();
        }
        last
    }

    /// Records that the storage under the log was found unwritable. From then
    /// on the collection takes no operation, and its status is red.
    pub fn report_storage_failure(&mut self, reason: String)
        requires
            old(self).wf(),
        ensures
            final(self).wf(),
            final(self).same_frame(old(self)),
            final(self).field_indexes() == old(self).field_indexes(),
            final(self).points() == old(self).points(),
            final(self).segments() == old(self).segments(),
            final(self).spec_applied_until() == old(self).spec_applied_until(),
            final(self).log() == old(self).log().failed(reason@),
            old(self).in_step_with_log() ==> final(self).in_step_with_log(),
    {
        self.wal.mark_failed(reason);
    }

    /// Records that everything logged so far is persisted.
    pub fn flush(&mut self)
        requires
            old(self).wf(),
        ensures
            final(self).wf(),
            final(self).same_frame(old(self)),
            final(self).field_indexes() == old(self).field_indexes(),
            final(self).points() == old(self).points(),
            final(self).segments() == old(self).segments(),
            final(self).spec_applied_until() == old(self).spec_applied_until(),
            final(self).log() == old(self).log().flushed(),
            old(self).in_step_with_log() ==> final(self).in_step_with_log(),
    {
        self.wal.flush();
    }

    /// Lets the log give up the entries numbered `seq` or below. An entry
    /// that is not yet applied is kept whatever `seq` says.
    pub fn ack(&mut self, seq: SeqNumberType)
        requires
            old(self).wf(),
        ensures
            final(self).wf(),
            final(self).same_frame(old(self)),
            final(self).field_indexes() == old(self).field_indexes(),
            final(self).points() == old(self).points(),
            final(self).segments() == old(self).segments(),
            final(self).spec_applied_until() == old(self).spec_applied_until(),
            final(self).log() == if old(self).spec_applied_until() == 0 {
                old(self).log()
            } else if seq < old(self).spec_applied_until() {
                old(self).log().acked(seq as nat)
            } else {
                old(self).log().acked((old(self).spec_applied_until() - 1) as nat)
            },
    {
        if self.applied_until == 0 {
            return ;
        }
        let upto = if seq < self.applied_until {
            seq
        } else {
            self.applied_until - 1
        };
        self.wal.ack(upto);
    }

    /// Runs one round of optimizer `i` on the segments. The points of the
    /// collection are afterwards what they were. A round that fails leaves
    /// the segments as they were and is remembered as a failure.
    pub fn run_optimizer(&mut self, i: usize) -> (r: CollectionResult<Option<SegmentId>>)
        requires
            old(self).wf(),
            i < old(self).handler().optimizers().len(),
        ensures
            final(self).wf(),
            final(self).points() == old(self).points(),
            final(self).field_indexes() == old(self).field_indexes(),
            final(self).log() == old(self).log(),
            final(self).spec_applied_until() == old(self).spec_applied_until(),
            final(self).spec_dim() == old(self).spec_dim(),
            final(self).spec_distance() == old(self).spec_distance(),
            final(self).spec_config() == old(self).spec_config(),
            final(self).handler() == old(self).handler(),
            final(self).spec_optimization_threads() == old(self).spec_optimization_threads(),
            final(self).writable() == old(self).writable(),
            old(self).in_step_with_log() ==> final(self).in_step_with_log(),
            final(self).has_unrecovered_failure() == (old(self).has_unrecovered_failure()
                || r is Err),
            match r {
                Ok(Some(sid)) => old(self).handler().optimizers()[i as int].round(
                    &old(self).holder(),
                    &final(self).holder(),
                    sid,
                ),
                Ok(None) => {
                    &&& old(self).handler().optimizers()[i as int].idle(&old(self).holder())
                    &&& final(self).segments() == old(self).segments()
                },
                Err(e) => {
                    &&& old(self).handler().optimizers()[i as int].has_work(&old(self).holder())
                    &&& old(self).holder().spec_next_id() == usize::MAX
                    &&& final(self).segments() == old(self).segments()
                    &&& e matches CollectionError::ServiceError { error }
                    &&& error@ == "Segment ids exhausted"@
                },
            },
    {
        let optimizer = self.update_handler.optimizer(i);
        let ghost before = self.segments;
        proof {
            before.lemma_wf();
        }
        let r = optimizer.optimize(&mut self.segments);
        proof {
            self.segments.lemma_wf();
            match r {
                Ok(Some(sid)) => {
                    let ids = choose|ids: Seq<SegmentId>|
                        optimizer.chosen(&before, ids) && #[trigger] optimizer.repacked(
                            &before,
                            &self.segments,
                            ids,
                            sid,
                        );
                    assert(self.segments.segment_ids().contains(sid));
                    optimizer.lemma_chosen_names(&before, ids);
                    assert(ids.len() > 0);
                    assert(before@.contains_key(ids[0]));
                    assert(before.segment_ids().contains(ids[0]));
                },
                _ => {},
            }
        }
        if r.is_err() {
            self.unrecovered = true;
        }
        r
    }

    /// The first half of a round of optimizer `i`, which only reads: decides
    /// whether there is work and, if so, builds the segment that is to take
    /// the place of the candidates. Operations may be applied before the
    /// second half; `install_round` then finds out whether the segment still
    /// fits.
    pub fn prepare_round(&self, i: usize) -> (r: Option<(Vec<SegmentId>, Segment)>)
        requires
            self.wf(),
            i < self.handler().optimizers().len(),
        ensures
            match r {
                Some((candidates, rebuilt)) => {
                    &&& self.handler().optimizers()[i as int].chosen(&self.holder(), candidates@)
                    &&& rebuilt.wf()
                    &&& rebuilt.spec_dim() == self.spec_dim()
                    &&& rebuilt.spec_distance() == self.spec_distance()
                    &&& rebuilt@ == self.holder().points_within(candidates@.to_set())
                    &&& carried_version(&self.holder(), candidates@, rebuilt.spec_version())
                    &&& rebuilt.spec_is_indexed() == (self.handler().optimizers()[i as int]
                        is Indexing)
                },
                None => self.handler().optimizers()[i as int].idle(&self.holder()),
            },
    {
        let optimizer = self.update_handler.optimizer(i);
        match optimizer.should_run(&self.segments) {
            Some(candidates) => {
                proof {
                    optimizer.lemma_chosen_names(&self.segments, candidates@);
                }
                let rebuilt = optimizer.build(&self.segments, &candidates);
                Some((candidates, rebuilt))
            },
            None => None,
        }
    }

    /// Whether `rebuilt` may take the place of the segments `candidates`: it
    /// holds exactly their points, at least one of them is there, it fits the
    /// collection, and it has absorbed nothing that is not yet applied.
    pub open spec fn fits_in_place(&self, candidates: Seq<SegmentId>, rebuilt: Segment) -> bool {
        &&& rebuilt.spec_dim() == self.spec_dim()
        &&& rebuilt.spec_distance() == self.spec_distance()
        &&& self.holder().spec_next_id() < usize::MAX
        &&& rebuilt@ == self.holder().points_within(candidates.to_set())
        &&& rebuilt.spec_version() <= self.spec_applied_until()
        &&& exists|k: int|
            0 <= k < candidates.len() && self.segments().contains_key(#[trigger] candidates[k])
    }

    /// The second half of a round: puts `rebuilt` in the place of the
    /// segments `candidates`, in one step, if it still holds exactly their
    /// points. If the segments have changed since `rebuilt` was built, the
    /// round is cancelled and nothing changes. Either way the points of the
    /// collection are what they were.
    pub fn install_round(&mut self, candidates: &Vec<SegmentId>, rebuilt: Segment) -> (r:
        CollectionResult<SegmentId>)
        requires
            old(self).wf(),
            rebuilt.wf(),
        ensures
            final(self).wf(),
            final(self).same_frame(old(self)),
            final(self).field_indexes() == old(self).field_indexes(),
            final(self).points() == old(self).points(),
            final(self).log() == old(self).log(),
            final(self).spec_applied_until() == old(self).spec_applied_until(),
            old(self).in_step_with_log() ==> final(self).in_step_with_log(),
            match r {
                Ok(sid) => {
                    &&& old(self).fits_in_place(candidates@, rebuilt)
                    &&& sid == old(self).holder().spec_next_id()
                    &&& final(self).segments() == old(self).segments().remove_keys(
                        candidates@.to_set(),
                    ).insert(sid, rebuilt)
                },
                Err(e) => {
                    &&& !old(self).fits_in_place(candidates@, rebuilt)
                    &&& final(self).segments() == old(self).segments()
                    &&& e matches CollectionError::Cancelled { description }
                    &&& description@ == "Segments changed during optimization"@
                },
            },
    {
        let mut present = false;
        let mut k: usize = 0;
        while k < candidates.len() && !present
            invariant
                self.wf(),
                *self == *old(self),
                k <= candidates@.len(),
                !present ==> forall|j: int|
                    0 <= j < k ==> !self.segments().contains_key(#[trigger] candidates@[j]),
                present ==> exists|j: int|
                    0 <= j < candidates@.len() && self.segments().contains_key(
                        #[trigger] candidates@[j],
                    ),
            decreases candidates@.len() - k,
        {
            if self.segments.get(candidates[k]).is_some() {
                present = true;
            }
            k += 1;
        }
        if !present || rebuilt.version() > self.applied_until || !self.segments.can_swap(
            &rebuilt,
            candidates,
        ) {
            return Err(
                CollectionError::Cancelled {
                    description: String::from_str("Segments changed during optimization"),
                },
            );
        }
        let ghost before = self.segments;
        let sid = self.segments.swap(rebuilt, candidates);
        proof {
            before.lemma_wf();
            self.segments.lemma_wf();
            assert(self.segments@.contains_key(sid));
            assert(self.segments.segment_ids().contains(sid));
            let j = choose|j: int|
                0 <= j < candidates@.len() && before@.contains_key(#[trigger] candidates@[j]);
            assert(before.segment_ids().contains(candidates@[j]));
            assert forall|x: SegmentId| #[trigger]
                self.segments@.contains_key(x) implies self.segments@[x].spec_version()
                <= self.applied_until by {
                if x != sid {
                    assert(before@.contains_key(x));
                }
            }
        }
        Ok(sid)
    }

    /// A tick of the timer: everything logged counts as persisted, and the
    /// optimizers with no round in flight are named and marked as running.
    pub fn on_tick(&mut self) -> (due: Vec<usize>)
        requires
            old(self).wf(),
        ensures
            final(self).wf(),
            final(self).points() == old(self).points(),
            final(self).field_indexes() == old(self).field_indexes(),
            final(self).segments() == old(self).segments(),
            final(self).spec_applied_until() == old(self).spec_applied_until(),
            final(self).log() == old(self).log().flushed(),
            final(self).spec_config() == old(self).spec_config(),
            final(self).handler().optimizers() == old(self).handler().optimizers(),
            forall|i: int|
                0 <= i < final(self).handler().in_flight().len() ==> final(self).handler().in_flight()[i],
            forall|k: int|
                0 <= k < due@.len() ==> due@[k] < old(self).handler().in_flight().len() && !old(self).handler().in_flight()[due@[k] as int],
            forall|i: int|
                0 <= i < old(self).handler().in_flight().len() && !old(self).handler().in_flight()[i] ==> due@.contains(i as usize),
    {
        self.wal.flush();
        self.update_handler.on_tick()
    }

    /// The round of optimizer `i` has ended.
    pub fn finish_round(&mut self, i: usize)
        requires
            old(self).wf(),
            i < old(self).handler().optimizers().len(),
        ensures
            final(self).wf(),
            final(self).points() == old(self).points(),
            final(self).field_indexes() == old(self).field_indexes(),
            final(self).segments() == old(self).segments(),
            final(self).log() == old(self).log(),
            final(self).spec_applied_until() == old(self).spec_applied_until(),
            final(self).handler().optimizers() == old(self).handler().optimizers(),
            final(self).handler().in_flight() == old(self).handler().in_flight().update(
                i as int,
                false,
            ),
    {
        self.update_handler.finish_round(i);
    }

    /// The state of the collection: red while a failure stands unrecovered or
    /// the log's storage is unwritable, else yellow while an optimization
    /// round is in flight, else green.
    pub open spec fn spec_status(&self) -> CollectionStatus {
        if self.has_unrecovered_failure() || self.log().failure is Some {
            CollectionStatus::Red
        } else if self.handler().busy() {
            CollectionStatus::Yellow
        } else {
            CollectionStatus::Green
        }
    }

    /// The state of the collection.
    #[verifier::when_used_as_spec(spec_status)]
    pub fn status(&self) -> (s: CollectionStatus)
        requires
            self.wf(),
        ensures
            s == self.spec_status(),
    {
        if self.unrecovered || self.wal.has_failed() {
            CollectionStatus::Red
        } else if self.update_handler.any_in_flight() {
            CollectionStatus::Yellow
        } else {
            CollectionStatus::Green
        }
    }
    /// One page of the points that pass the request's filter, by ascending
    /// id, from the request's offset on. A page size of 0 is refused.
    pub fn scroll(&self, request: &ScrollRequest) -> (r: CollectionResult<ScrollResult>)
        requires
            self.wf(),
        ensures
            match r {
                Ok(page) => {
                    &&& request.page_size() > 0
                    &&& is_page(
                        self.points(),
                        request.filter,
                        request.from_id(),
                        request.page_size() as nat,
                        record_ids(page.points@),
                        page.next_page_offset,
                    )
                    &&& show_points(
                        page.points@,
                        self.points(),
                        record_ids(page.points@),
                        request.wants_payload(),
                        request.wants_vector(),
                    )
                },
                Err(e) => {
                    &&& request.page_size() == 0
                    &&& e matches CollectionError::BadRequest { description }
                    &&& description@ == "Limit cannot be 0"@
                },
            },
    {
        scroll(&self.segments, request)
    }

    /// The records of the points `ids`, in that order. A point that does not
    /// exist is an error: the first such point is named.
    pub fn retrieve(&self, ids: &Vec<PointIdType>, with_payload: bool, with_vector: bool) -> (r:
        CollectionResult<Vec<Record>>)
        requires
            self.wf(),
        ensures
            match r {
                Ok(records) => show_points(
                    records@,
                    self.points(),
                    ids@,
                    with_payload,
                    with_vector,
                ),
                Err(e) => names_first_absent(self.points(), ids@, e),
            },
    {
        retrieve(&self.segments, ids, with_payload, with_vector)
    }

    /// The best `top` of the scored points that exist and pass the request's
    /// filter, best first. A query vector of the wrong dimension is refused.
    pub fn search(&self, request: &SearchRequest, scored: &Vec<ScoredPoint>) -> (r: CollectionResult<
        Vec<ScoredPoint>,
    >)
        requires
            self.wf(),
        ensures
            match r {
                Ok(found) => {
                    &&& request.vector@.len() == self.spec_dim()
                    &&& is_top(self.points(), request.filter, scored@, request.top as nat, found@)
                },
                Err(e) => {
                    &&& request.vector@.len() != self.spec_dim()
                    &&& CollectionError::converts(
                        OperationError::WrongVector {
                            expected_dim: self.spec_dim(),
                            received_dim: request.vector.len(),
                        },
                        e,
                    )
                },
            },
    {
        search(&self.segments, request, scored)
    }

    /// Prepares a recommendation: the vectors of the examples, and the filter
    /// that keeps the examples out of the result.
    pub fn recommend(&self, request: &RecommendRequest) -> (r: CollectionResult<RecommendPlan>)
        requires
            self.wf(),
        ensures
            match r {
                Ok(plan) => {
                    &&& request.positive@.len() > 0
                    &&& vectors_of_points(plan.positive@, self.points(), request.positive@)
                    &&& vectors_of_points(plan.negative@, self.points(), request.negative@)
                    &&& plan.top == request.top
                    &&& forall|id: PointIdType|
                        plan.filter.accepts(id) == (passes(request.filter, id)
                            && !request.positive@.contains(id) && !request.negative@.contains(id))
                },
                Err(e) => {
                    if request.positive@.len() == 0 {
                        e matches CollectionError::BadRequest { description } && description@
                            == "At least one positive vector ID required"@
                    } else {
                        ||| names_first_absent(self.points(), request.positive@, e)
                        ||| vectors_exist(self.points(), request.positive@)
                            && names_first_absent(self.points(), request.negative@, e)
                    }
                },
            },
    {
        recommend_plan(&self.segments, request)
    }

    /// Statistics and configuration of the collection. The sizes are
    /// estimates: four bytes for each component of each vector, capped at
    /// what the machine can count.
    pub fn info(&self) -> (info: CollectionInfo)
        requires
            self.wf(),
        ensures
            self.points().dom().finite(),
            info.status == self.spec_status(),
            info.vectors_count == capped(self.points().dom().len() as int),
            info.segments_count == self.segments().dom().len(),
            info.ram_data_size == capped(info.vectors_count * self.spec_dim() * 4),
            info.disk_data_size == info.ram_data_size,
            info.config == self.spec_config(),
            schema_keys(info.payload_schema@) == self.field_indexes(),
            forall|i: int|
                0 <= i < info.payload_schema@.len() ==> (#[trigger] info.payload_schema@[i]).indexed,
    {
        let vectors_count = self.segments.points_count();
        let segments_count = self.segments.len();
        proof {
            self.segments.lemma_segment_count();
        }
        let per_vector: usize = match self.segments.dim().checked_mul(4) {
            Some(bytes) => bytes,
            None => usize::MAX,
        };
        let size: usize = match vectors_count.checked_mul(per_vector) {
            Some(bytes) => bytes,
            None => usize::MAX,
        };
        proof {
            let v = vectors_count as int;
            let d = self.spec_dim() as int;
            let pv = per_vector as int;
            let mx = usize::MAX as int;
            assert(v * d * 4 == v * (d * 4)) by (nonlinear_arith);
            if d * 4 > mx {
                if v == 0 {
                    assert(v * (d * 4) == 0) by (nonlinear_arith)
                        requires
                            v == 0,
                    ;
                    assert(v * pv == 0) by (nonlinear_arith)
                        requires
                            v == 0,
                    ;
                } else {
                    let x = d * 4;
                    assert(v * x >= x) by (nonlinear_arith)
                        requires
                            v >= 1,
                            x >= 0,
                    ;
                    assert(v * pv >= mx) by (nonlinear_arith)
                        requires
                            v >= 1,
                            pv == mx,
                            mx >= 0,
                    ;
                }
            }
        }
        let mut names = self.segments.indexed_fields();
        let ghost all = names@;
        let mut reversed: Vec<PayloadSchemaInfo> = Vec::new();
        while names.len() > 0
            invariant
                names@ == all.take(names@.len() as int),
                reversed@.len() + names@.len() == all.len(),
                forall|k: int|
                    0 <= k < reversed@.len() ==> (#[trigger] reversed@[k]).indexed && reversed@[k].key
                        == all[all.len() - 1 - k],
            decreases names@.len(),
        {
            match names.pop() {
                Some(key) => {
                    reversed.push(PayloadSchemaInfo { key, indexed: true });
                    assert(names@ =~= all.take(names@.len() as int));
                },
                None => {},
            }
        }
        let mut payload_schema: Vec<PayloadSchemaInfo> = Vec::new();
        while reversed.len() > 0
            invariant
                payload_schema@.len() + reversed@.len() == all.len(),
                forall|k: int|
                    0 <= k < reversed@.len() ==> (#[trigger] reversed@[k]).indexed && reversed@[k].key
                        == all[all.len() - 1 - k],
                forall|k: int|
                    0 <= k < payload_schema@.len() ==> (#[trigger] payload_schema@[k]).indexed
                        && payload_schema@[k].key == all[k],
            decreases reversed@.len(),
        {
            match reversed.pop() {
                Some(entry) => {
                    payload_schema.push(entry);
                },
                None => {},
            }
        }
        assert(schema_keys(payload_schema@) =~= self.field_indexes());
        CollectionInfo {
            status: self.status(),
            vectors_count,
            segments_count,
            disk_data_size: size,
            ram_data_size: size,
            config: self.config,
            payload_schema,
        }
    }
}

/// What a scroll shows is the net result of the operations: in a collection
/// that is in step with its log, a page that is not followed by another, read
/// from id 0 without a filter, holds exactly the ids of the points that the
/// applied operations, in the order of their submission, make of an empty
/// collection.
pub proof fn lemma_scroll_shows_the_net_result(
    collection: &Collection,
    limit: nat,
    ids: Seq<PointIdType>,
    id: PointIdType,
)
    requires
        collection.in_step_with_log(),
        is_page(collection.points(), None, 0, limit, ids, None),
    ensures
        ids.contains(id) <==> replay(
            Map::<PointIdType, PointView>::empty(),
            collection.spec_dim(),
            collection.writable(),
            collection.applied_operations(),
        ).contains_key(id),
{
    if ids.contains(id) {
        let k = choose|k: int| 0 <= k < ids.len() && ids[k] == id;
        assert(is_visible(collection.points(), None, 0, ids[k]));
    }
    if collection.points().contains_key(id) {
        assert(is_visible(collection.points(), None, 0, id));
    }
}

/// `n`, or the greatest number that the machine can count if `n` is above it.
pub open spec fn capped(n: int) -> usize {
    if n <= usize::MAX {
        n as usize
    } else {
        usize::MAX
    }
}

} // verus!
