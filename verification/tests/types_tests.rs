use collection::operations::types::{
    is_service_error, CollectionError, CollectionResult, CollectionStatus, ScrollRequest,
    UpdateResult, UpdateStatus,
};
use collection::segment::entry_point::OperationError;
use collection::segment::types::WithPayloadInterface;
use collection::wal::WalError;

#[test]
fn collection_error_messages() {
    assert_eq!(
        CollectionError::BadInput { description: String::from("too short") }.message(),
        "Wrong input: too short"
    );
    assert_eq!(
        CollectionError::NotFound { missed_point_id: 17 }.message(),
        "No point with id 17 found"
    );
    assert_eq!(
        CollectionError::ServiceError { error: String::from("disk") }.message(),
        "Service internal error: disk"
    );
    assert_eq!(
        CollectionError::BadRequest { description: String::from("limit") }.message(),
        "Bad request: limit"
    );
    assert_eq!(
        CollectionError::Cancelled { description: String::from("shutdown") }.message(),
        "Operation Cancelled: shutdown"
    );
}

#[test]
fn operation_error_messages() {
    assert_eq!(
        OperationError::WrongVector { expected_dim: 4, received_dim: 3 }.message(),
        "Vector inserting error: expected dim: 4, got 3"
    );
    assert_eq!(
        OperationError::PointIdError { missed_point_id: 0 }.message(),
        "No point with id 0 found"
    );
    assert_eq!(
        OperationError::TypeError {
            field_name: String::from("color"),
            expected_type: String::from("keyword"),
        }
        .message(),
        "Payload type does not match with previously given for field color. Expected: keyword"
    );
    assert_eq!(
        OperationError::ServiceError { description: String::from("broken") }.message(),
        "Service runtime error: broken"
    );
    assert_eq!(
        OperationError::Cancelled { description: String::from("late") }.message(),
        "Operation cancelled: late"
    );
}

#[test]
fn wrong_vector_becomes_bad_input() {
    let e = CollectionError::from(OperationError::WrongVector { expected_dim: 4, received_dim: 5 });
    assert_eq!(
        e,
        CollectionError::BadInput {
            description: String::from("Vector inserting error: expected dim: 4, got 5"),
        }
    );
}

#[test]
fn type_error_becomes_bad_input() {
    let e = CollectionError::from(OperationError::TypeError {
        field_name: String::from("size"),
        expected_type: String::from("integer"),
    });
    assert_eq!(
        e,
        CollectionError::BadInput {
            description: String::from(
                "Payload type does not match with previously given for field size. Expected: integer"
            ),
        }
    );
}

#[test]
fn missing_point_stays_missing_point() {
    let e = CollectionError::from(OperationError::PointIdError { missed_point_id: 9 });
    assert_eq!(e, CollectionError::NotFound { missed_point_id: 9 });
}

#[test]
fn segment_fault_becomes_service_error() {
    let e = CollectionError::from(OperationError::ServiceError {
        description: String::from("index broken"),
    });
    assert_eq!(e, CollectionError::ServiceError { error: String::from("index broken") });
}

#[test]
fn cancellation_stays_cancellation() {
    let e = CollectionError::from(OperationError::Cancelled { description: String::from("stop") });
    assert_eq!(e, CollectionError::Cancelled { description: String::from("stop") });
}

#[test]
fn wal_error_becomes_service_error() {
    let e = CollectionError::from(WalError::WriteWalError(String::from("disk full")));
    assert_eq!(
        e,
        CollectionError::ServiceError { error: String::from("Can't write WAL: disk full") }
    );
    let e = CollectionError::from(WalError::InitWalError(String::from("no directory")));
    assert_eq!(
        e,
        CollectionError::ServiceError { error: String::from("Can't init WAL: no directory") }
    );
}

#[test]
fn lost_acknowledgment_becomes_service_error() {
    let (tx, rx) = tokio::sync::oneshot::channel::<u8>();
    drop(tx);
    let err = rx.blocking_recv().unwrap_err();
    let e = CollectionError::from(err);
    assert_eq!(e, CollectionError::ServiceError { error: String::from("channel closed") });
}

#[test]
fn unreachable_worker_becomes_service_error() {
    let err = tokio::sync::mpsc::error::SendError(5u8);
    let e = CollectionError::from(err);
    assert_eq!(
        e,
        CollectionError::ServiceError {
            error: String::from("Can't reach one of the workers: channel closed"),
        }
    );
}

#[test]
fn aborted_task_becomes_service_error() {
    let runtime = tokio::runtime::Builder::new_current_thread().build().unwrap();
    let handle = runtime.spawn(std::future::pending::<()>());
    handle.abort();
    let err = runtime.block_on(handle).unwrap_err();
    let text = err.to_string();
    let e = CollectionError::from(err);
    assert_eq!(e, CollectionError::ServiceError { error: text });
}

#[test]
fn json_error_becomes_service_error() {
    let err = serde_json::from_str::<serde_json::Value>("{").unwrap_err();
    let e = CollectionError::from(err);
    assert_eq!(
        e,
        CollectionError::ServiceError {
            error: String::from("Json error: EOF while parsing an object at line 1 column 1"),
        }
    );
}

#[test]
fn io_error_becomes_service_error() {
    let err = std::io::Error::new(std::io::ErrorKind::Other, "disk full");
    let e = CollectionError::from(err);
    assert_eq!(
        e,
        CollectionError::ServiceError { error: String::from("File IO error: disk full") }
    );
}

#[test]
fn only_service_errors_are_service_errors() {
    let ok: CollectionResult<u8> = Ok(1);
    assert!(!is_service_error(&ok));
    let service: CollectionResult<u8> =
        Err(CollectionError::ServiceError { error: String::from("x") });
    assert!(is_service_error(&service));
    let others: Vec<CollectionResult<u8>> = vec![
        Err(CollectionError::BadInput { description: String::from("x") }),
        Err(CollectionError::NotFound { missed_point_id: 1 }),
        Err(CollectionError::BadRequest { description: String::from("x") }),
        Err(CollectionError::Cancelled { description: String::from("x") }),
    ];
    for r in others.iter() {
        assert!(!is_service_error(r));
    }
}

#[test]
fn scroll_request_defaults() {
    let request = ScrollRequest::default();
    assert_eq!(request.offset, None);
    assert_eq!(request.limit, Some(10));
    assert_eq!(request.filter, None);
    assert_eq!(request.with_payload, Some(WithPayloadInterface::Bool(true)));
    assert_eq!(request.with_vector, Some(false));
}

#[test]
fn statuses_compare_by_variant() {
    assert_eq!(CollectionStatus::Green, CollectionStatus::Green);
    assert_ne!(CollectionStatus::Green, CollectionStatus::Yellow);
    assert_ne!(UpdateStatus::Acknowledged, UpdateStatus::Completed);
    let a = UpdateResult { operation_id: 3, status: UpdateStatus::Completed };
    let b = UpdateResult { operation_id: 3, status: UpdateStatus::Completed };
    assert_eq!(a, b);
}
