use collection::operations::types::{CollectionError, UpdateResult, UpdateStatus};
use collection::segment::entry_point::OperationError;
use collection::segment_optimizer::Optimizer;
use collection::update_handler::{OperationEvent, OperationState, UpdateHandler};
use collection::wal::WalError;

#[test]
fn an_operation_goes_from_received_to_acknowledged() {
    let state = OperationState::Received;
    let state = state.on_event(OperationEvent::LogAppended(7));
    assert_eq!(state, OperationState::Logged(7));
    let state = state.on_event(OperationEvent::SegmentsUpdated);
    assert_eq!(state, OperationState::Applied(7));
    let state = state.on_event(OperationEvent::ResultDelivered);
    assert_eq!(state, OperationState::Acknowledged(7));
}

#[test]
fn a_refused_append_fails_the_operation() {
    let state = OperationState::Received
        .on_event(OperationEvent::LogRefused(WalError::WriteWalError(String::from("disk full"))));
    assert_eq!(
        state,
        OperationState::Failed(CollectionError::ServiceError {
            error: String::from("Can't write WAL: disk full"),
        })
    );
}

#[test]
fn a_refusal_of_the_segments_fails_the_operation() {
    let state = OperationState::Logged(3)
        .on_event(OperationEvent::SegmentsRefused(OperationError::PointIdError {
            missed_point_id: 5,
        }));
    assert_eq!(state, OperationState::Failed(CollectionError::NotFound { missed_point_id: 5 }));
}

#[test]
fn a_shutdown_cancels_what_is_on_its_way() {
    let cancelled = OperationState::Failed(CollectionError::Cancelled {
        description: String::from("Shutting down"),
    });
    assert_eq!(OperationState::Received.on_event(OperationEvent::Shutdown), cancelled);
    assert_eq!(OperationState::Logged(1).on_event(OperationEvent::Shutdown), cancelled);
    assert_eq!(OperationState::Applied(1).on_event(OperationEvent::Shutdown), cancelled);
}

#[test]
fn terminal_states_stay() {
    let done = OperationState::Acknowledged(4);
    assert_eq!(done.clone().on_event(OperationEvent::Shutdown), done);
    assert_eq!(done.clone().on_event(OperationEvent::LogAppended(9)), done);
    let failed = OperationState::Failed(CollectionError::NotFound { missed_point_id: 1 });
    assert_eq!(failed.clone().on_event(OperationEvent::SegmentsUpdated), failed);
    assert_eq!(failed.clone().on_event(OperationEvent::Shutdown), failed);
}

#[test]
fn events_out_of_turn_are_passed_over() {
    assert_eq!(
        OperationState::Received.on_event(OperationEvent::SegmentsUpdated),
        OperationState::Received
    );
    assert_eq!(
        OperationState::Logged(2).on_event(OperationEvent::LogAppended(3)),
        OperationState::Logged(2)
    );
    assert_eq!(
        OperationState::Applied(2).on_event(OperationEvent::SegmentsUpdated),
        OperationState::Applied(2)
    );
}

#[test]
fn the_outcome_follows_the_state() {
    assert_eq!(
        OperationState::Received.outcome(),
        Err(CollectionError::Cancelled { description: String::from("Not processed") })
    );
    assert_eq!(
        OperationState::Logged(3).outcome(),
        Ok(UpdateResult { operation_id: 3, status: UpdateStatus::Acknowledged })
    );
    assert_eq!(
        OperationState::Applied(3).outcome(),
        Ok(UpdateResult { operation_id: 3, status: UpdateStatus::Completed })
    );
    assert_eq!(
        OperationState::Acknowledged(3).outcome(),
        Ok(UpdateResult { operation_id: 3, status: UpdateStatus::Completed })
    );
    assert_eq!(
        OperationState::Failed(CollectionError::NotFound { missed_point_id: 1 }).outcome(),
        Err(CollectionError::NotFound { missed_point_id: 1 })
    );
}

#[test]
fn a_tick_starts_every_idle_optimizer_once() {
    let optimizers =
        vec![Optimizer::Merge { threshold: 10 }, Optimizer::Indexing { threshold: 100 }];
    let mut handler = UpdateHandler::new(optimizers, 5);
    assert_eq!(handler.flush_interval_sec(), 5);
    assert_eq!(handler.optimizers_count(), 2);
    assert_eq!(handler.optimizer(1), Optimizer::Indexing { threshold: 100 });
    assert!(!handler.any_in_flight());
    assert_eq!(handler.on_tick(), vec![0, 1]);
    assert!(handler.any_in_flight());
    assert!(handler.is_in_flight(0));
    assert_eq!(handler.on_tick(), Vec::<usize>::new());
    handler.finish_round(1);
    assert!(!handler.is_in_flight(1));
    assert_eq!(handler.on_tick(), vec![1]);
    handler.finish_round(0);
    handler.finish_round(1);
    assert!(!handler.any_in_flight());
    assert_eq!(handler.on_tick(), vec![0, 1]);
}
