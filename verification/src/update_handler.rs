//! The update handler: the path of one operation from arrival to
//! acknowledgment, and the schedule of the background optimization.

use vstd::prelude::*;
use vstd::string::*;
use crate::operations::types::{CollectionError, UpdateResult, UpdateStatus};
use crate::segment::entry_point::OperationError;
use crate::segment::types::SeqNumberType;
use crate::segment_optimizer::Optimizer;
use crate::wal::WalError;

verus! {

/// Where a submitted operation stands.
#[derive(Debug, Clone, PartialEq, Eq)]
pub enum OperationState {
    /// The operation has arrived and is not yet in the log.
    Received,
    /// The operation is in the log under this sequence number.
    Logged(SeqNumberType),
    /// The operation has been applied to the segments.
    Applied(SeqNumberType),
    /// The submitter has been told of the success. Terminal.
    Acknowledged(SeqNumberType),
    /// The operation failed; the submitter is told why. Terminal.
    Failed(CollectionError),
}

/// What can happen to a submitted operation.
#[derive(Debug, Clone, PartialEq, Eq)]
pub enum OperationEvent {
    /// The log took the operation under this sequence number.
    LogAppended(SeqNumberType),
    /// The log refused the operation.
    LogRefused(WalError),
    /// The segments took the operation.
    SegmentsUpdated,
    /// The segments refused the operation.
    SegmentsRefused(OperationError),
    /// The result reached the submitter.
    ResultDelivered,
    /// The consumer of operations is shutting down.
    Shutdown,
}

/// Whether `state` says that the operation was cancelled by a shutdown.
pub open spec fn cancelled(state: OperationState) -> bool {
    state matches OperationState::Failed(CollectionError::Cancelled { description })
        && description@ == "Shutting down"@
}

impl OperationState {
    /// Whether nothing more happens to the operation.
    pub open spec fn is_terminal(self) -> bool {
        self is Acknowledged || self is Failed
    }

    /// Whether `next` is the state that follows `self` on `event`: the log
    /// answers a received operation, the segments answer a logged one, delivery
    /// completes an applied one, and a shutdown cancels whatever is not yet
    /// acknowledged. Any other event leaves the state as it is.
    pub open spec fn steps_to(self, event: OperationEvent, next: OperationState) -> bool {
        match (self, event) {
            (OperationState::Received, OperationEvent::LogAppended(seq)) => {
                next == OperationState::Logged(seq)
            },
            (OperationState::Received, OperationEvent::LogRefused(e)) => {
                next matches OperationState::Failed(CollectionError::ServiceError { error })
                    && error@ == e.message_spec()
            },
            (OperationState::Logged(seq), OperationEvent::SegmentsUpdated) => {
                next == OperationState::Applied(seq)
            },
            (OperationState::Logged(_), OperationEvent::SegmentsRefused(e)) => {
                next matches OperationState::Failed(reason) && CollectionError::converts(e, reason)
            },
            (OperationState::Applied(seq), OperationEvent::ResultDelivered) => {
                next == OperationState::Acknowledged(seq)
            },
            (OperationState::Received, OperationEvent::Shutdown) => cancelled(next),
            (OperationState::Logged(_), OperationEvent::Shutdown) => cancelled(next),
            (OperationState::Applied(_), OperationEvent::Shutdown) => cancelled(next),
            _ => next == self,
        }
    }

    /// The state that follows on `event`.
    pub fn on_event(self, event: OperationEvent) -> (next: OperationState)
        ensures
            self.steps_to(event, next),
            self.is_terminal() ==> next == self,
    {
        match self {
            OperationState::Received => match event {
                OperationEvent::LogAppended(seq) => OperationState::Logged(seq),
                OperationEvent::LogRefused(e) => OperationState::Failed(CollectionError::from(e)),
                OperationEvent::Shutdown => OperationState::Failed(
                    CollectionError::Cancelled { description: String::from_str("Shutting down") },
                ),
                _ => OperationState::Received,
            },
            OperationState::Logged(seq) => match event {
                OperationEvent::SegmentsUpdated => OperationState::Applied(seq),
                OperationEvent::SegmentsRefused(e) => OperationState::Failed(
                    CollectionError::from(e),
                ),
                OperationEvent::Shutdown => OperationState::Failed(
                    CollectionError::Cancelled { description: String::from_str("Shutting down") },
                ),
                _ => OperationState::Logged(seq),
            },
            OperationState::Applied(seq) => match event {
                OperationEvent::ResultDelivered => OperationState::Acknowledged(seq),
                OperationEvent::Shutdown => OperationState::Failed(
                    CollectionError::Cancelled { description: String::from_str("Shutting down") },
                ),
                _ => OperationState::Applied(seq),
            },
            OperationState::Acknowledged(seq) => OperationState::Acknowledged(seq),
            OperationState::Failed(reason) => OperationState::Failed(reason),
        }
    }

    /// What the submitter is told of an operation that is left in this
    /// state: the sequence number once it is logged or done, the reason once
    /// it has failed. An operation that never reached the log counts as
    /// cancelled.
    pub fn outcome(self) -> (r: Result<UpdateResult, CollectionError>)
        ensures
            match self {
                OperationState::Received => {
                    r matches Err(CollectionError::Cancelled { description }) && description@
                        == "Not processed"@
                },
                OperationState::Logged(seq) => r == Ok::<UpdateResult, CollectionError>(
                    UpdateResult { operation_id: seq, status: UpdateStatus::Acknowledged },
                ),
                OperationState::Applied(seq) => r == Ok::<UpdateResult, CollectionError>(
                    UpdateResult { operation_id: seq, status: UpdateStatus::Completed },
                ),
                OperationState::Acknowledged(seq) => r == Ok::<UpdateResult, CollectionError>(
                    UpdateResult { operation_id: seq, status: UpdateStatus::Completed },
                ),
                OperationState::Failed(reason) => r == Err::<UpdateResult, CollectionError>(reason),
            },
    {
        match self {
            OperationState::Logged(seq) => Ok(
                UpdateResult { operation_id: seq, status: UpdateStatus::Acknowledged },
            ),
            OperationState::Applied(seq) => Ok(
                UpdateResult { operation_id: seq, status: UpdateStatus::Completed },
            ),
            OperationState::Acknowledged(seq) => Ok(
                UpdateResult { operation_id: seq, status: UpdateStatus::Completed },
            ),
            OperationState::Failed(reason) => Err(reason),
            OperationState::Received => Err(
                CollectionError::Cancelled { description: String::from_str("Not processed") },
            ),
        }
    }
}

/// The schedule of the background optimization: which optimizers there are,
/// and which of them has a round in flight.
pub struct UpdateHandler {
    optimizers: Vec<Optimizer>,
    in_flight: Vec<bool>,
    flush_interval_sec: u64,
}

impl UpdateHandler {
    /// The optimizers, in the order in which they were registered.
    pub closed spec fn optimizers(&self) -> Seq<Optimizer> {
        self.optimizers@
    }

    /// For each optimizer, whether a round of it is in flight.
    pub closed spec fn in_flight(&self) -> Seq<bool> {
        self.in_flight@
    }

    /// Seconds between two ticks.
    pub closed spec fn spec_flush_interval_sec(&self) -> u64 {
        self.flush_interval_sec
    }

    /// The invariant of the handler: every optimizer has its flag.
    pub open spec fn wf(&self) -> bool {
        self.in_flight().len() == self.optimizers().len()
    }

    /// A handler for these optimizers, with no round in flight.
    pub fn new(optimizers: Vec<Optimizer>, flush_interval_sec: u64) -> (handler: UpdateHandler)
        ensures
            handler.wf(),
            handler.optimizers() == optimizers@,
            handler.spec_flush_interval_sec() == flush_interval_sec,
            forall|i: int| 0 <= i < handler.in_flight().len() ==> !handler.in_flight()[i],
    {
        let mut in_flight: Vec<bool> = Vec::new();
        let mut i: usize = 0;
        while i < optimizers.len()
            invariant
                i <= optimizers@.len(),
                in_flight@.len() == i,
                forall|k: int| 0 <= k < i ==> !in_flight@[k],
            decreases optimizers@.len() - i,
        {
            in_flight.push(false);
            i += 1;
        }
        UpdateHandler { optimizers, in_flight, flush_interval_sec }
    }

    /// Seconds between two ticks.
    #[verifier::when_used_as_spec(spec_flush_interval_sec)]
    pub fn flush_interval_sec(&self) -> (s: u64)
        ensures
            s == self.spec_flush_interval_sec(),
    {
        self.flush_interval_sec
    }

    /// The number of optimizers.
    pub fn optimizers_count(&self) -> (n: usize)
        ensures
            n == self.optimizers().len(),
    {
        self.optimizers.len()
    }

    /// The optimizer at place `i`.
    pub fn optimizer(&self, i: usize) -> (o: Optimizer)
        requires
            i < self.optimizers().len(),
        ensures
            o == self.optimizers()[i as int],
    {
        self.optimizers[i]
    }

    /// Whether a round of optimizer `i` is in flight.
    pub fn is_in_flight(&self, i: usize) -> (b: bool)
        requires
            self.wf(),
            i < self.optimizers().len(),
        ensures
            b == self.in_flight()[i as int],
    {
        self.in_flight[i]
    }

    /// Whether a round of some optimizer is in flight.
    pub open spec fn busy(&self) -> bool {
        exists|i: int| 0 <= i < self.in_flight().len() && self.in_flight()[i]
    }

    /// Whether a round of any optimizer is in flight.
    pub fn any_in_flight(&self) -> (b: bool)
        ensures
            b == self.busy(),
    {
        let mut i: usize = 0;
        while i < self.in_flight.len()
            invariant
                i <= self.in_flight@.len(),
                forall|k: int| 0 <= k < i ==> !self.in_flight@[k],
            decreases self.in_flight@.len() - i,
        {
            if self.in_flight[i] {
                assert(self.in_flight()[i as int]);
                return true;
            }
            i += 1;
        }
        false
    }

    /// A tick of the timer: names the optimizers whose round is due, which
    /// are those with no round in flight, and marks each as in flight. An
    /// optimizer whose round is still running is passed over, not queued.
    pub fn on_tick(&mut self) -> (due: Vec<usize>)
        requires
            old(self).wf(),
        ensures
            final(self).wf(),
            final(self).optimizers() == old(self).optimizers(),
            final(self).spec_flush_interval_sec() == old(self).spec_flush_interval_sec(),
            forall|i: int| 0 <= i < final(self).in_flight().len() ==> final(self).in_flight()[i],
            forall|k: int, l: int| 0 <= k < l < due@.len() ==> due@[k] < due@[l],
            forall|k: int|
                0 <= k < due@.len() ==> due@[k] < old(self).in_flight().len() && !old(self).in_flight()[due@[k] as int],
            forall|i: int|
                0 <= i < old(self).in_flight().len() && !old(self).in_flight()[i]
                    ==> due@.contains(i as usize),
    {
        let mut due: Vec<usize> = Vec::new();
        let mut i: usize = 0;
        while i < self.in_flight.len()
            invariant
                i <= self.in_flight@.len(),
                self.in_flight@.len() == old(self).in_flight@.len(),
                self.optimizers == old(self).optimizers,
                self.flush_interval_sec == old(self).flush_interval_sec,
                forall|k: int| 0 <= k < i ==> self.in_flight@[k],
                forall|k: int|
                    i <= k < self.in_flight@.len() ==> self.in_flight@[k] == old(self).in_flight@[k],
                forall|k: int, l: int| 0 <= k < l < due@.len() ==> due@[k] < due@[l],
                forall|k: int|
                    0 <= k < due@.len() ==> due@[k] < i && !old(self).in_flight@[due@[k] as int],
                forall|j: int|
                    0 <= j < i && !old(self).in_flight@[j] ==> due@.contains(j as usize),
            decreases self.in_flight@.len() - i,
        {
            if !self.in_flight[i] {
                let ghost before = due@;
                due.push(i);
                self.in_flight.set(i, true);
                proof {
                    assert forall|j: int|
                        0 <= j < i + 1 && !old(self).in_flight@[j] implies due@.contains(
                        j as usize,
                    ) by {
                        if j < i {
                            let k = choose|k: int| 0 <= k < before.len() && before[k] == j as usize;
                            assert(due@[k] == j as usize);
                        } else {
                            assert(due@[before.len() as int] == i);
                        }
                    }
                }
            }
            i += 1;
        }
        due
    }

    /// The round of optimizer `i` has ended, well or badly: the next tick may
    /// start another.
    pub fn finish_round(&mut self, i: usize)
        requires
            old(self).wf(),
            i < old(self).optimizers().len(),
        ensures
            final(self).wf(),
            final(self).optimizers() == old(self).optimizers(),
            final(self).spec_flush_interval_sec() == old(self).spec_flush_interval_sec(),
            final(self).in_flight() == old(self).in_flight().update(i as int, false),
    {
        self.in_flight.set(i, false);
    }
}

} // verus!
