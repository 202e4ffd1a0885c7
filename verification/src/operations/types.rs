//! Requests, responses and errors of a collection.

use vstd::prelude::*;
use vstd::string::*;
use vstd::std_specs::convert::FromSpecImpl;
use crate::segment::entry_point::OperationError;
use crate::config::CollectionConfig;
use crate::segment::types::{
    payload_view, Filter, Payload, PayloadSchemaInfo, PointIdType, PointView, SearchParams,
    SeqNumberType, VectorElementType, WithPayloadInterface,
};
use crate::text::{append_decimal, decimal, prefixed};
use crate::wal::WalError;

verus! {

/// A vector, as requests and responses carry it.
pub type VectorType = Vec<VectorElementType>;

/// Current state of the collection.
#[derive(Debug, Clone, Copy, PartialEq, Eq, Structural)]
pub enum CollectionStatus {
    /// The collection is completely ready for requests.
    Green,
    /// The collection serves requests, but some segments are being optimized.
    Yellow,
    /// Some operation failed and was not recovered.
    Red,
}

/// How far an update has come when its result is handed back.
#[derive(Debug, Clone, Copy, PartialEq, Eq, Structural)]
pub enum UpdateStatus {
    /// The request is saved to the operation log and waits in the queue.
    Acknowledged,
    /// The request is completed; its changes are visible.
    Completed,
}

/// Result of an update.
#[derive(Debug, Clone, Copy, PartialEq, Eq, Structural)]
pub struct UpdateResult {
    /// Sequence number of the operation.
    pub operation_id: SeqNumberType,
    /// Update status.
    pub status: UpdateStatus,
}

/// Point data, as a query hands it back.
#[derive(Debug, Clone, PartialEq, Eq)]
pub struct Record {
    /// Id of the point.
    pub id: PointIdType,
    /// Payload of the point, where the query asked for it and the point has one.
    pub payload: Option<Payload>,
    /// Vector of the point, where the query asked for it.
    pub vector: Option<Vec<VectorElementType>>,
}

impl Record {
    /// Whether the record shows the point `id` with the data `data`, with its
    /// payload and its vector as far as they were asked for.
    pub open spec fn shows(
        self,
        id: PointIdType,
        data: PointView,
        with_payload: bool,
        with_vector: bool,
    ) -> bool {
        &&& self.id == id
        &&& payload_view(self.payload) == (if with_payload {
            data.payload
        } else {
            None
        })
        &&& match self.vector {
            Some(v) => with_vector && v@ == data.vector,
            None => !with_vector,
        }
    }
}

/// The ids of the records, in their order.
pub open spec fn record_ids(records: Seq<Record>) -> Seq<PointIdType> {
    records.map_values(|r: Record| r.id)
}

/// Current statistics and configuration of the collection.
#[derive(Debug, Clone, PartialEq, Eq)]
pub struct CollectionInfo {
    /// Status of the collection.
    pub status: CollectionStatus,
    /// Number of vectors in the collection.
    pub vectors_count: usize,
    /// Number of segments in the collection.
    pub segments_count: usize,
    /// Estimate of the disk space that the collection uses, in bytes.
    pub disk_data_size: usize,
    /// Estimate of the memory that the collection uses, in bytes.
    pub ram_data_size: usize,
    /// Settings of the collection.
    pub config: CollectionConfig,
    /// The payload fields over which an index is kept.
    pub payload_schema: Vec<PayloadSchemaInfo>,
}

/// The names of the fields of the schema, in their order.
pub open spec fn schema_keys(schema: Seq<PayloadSchemaInfo>) -> Seq<Seq<char>> {
    schema.map_values(|info: PayloadSchemaInfo| info.key@)
}

/// Scroll request: pages through the points that pass a filter, by
/// ascending id.
#[derive(Debug, Clone)]
pub struct ScrollRequest {
    /// Id to start from. Default: 0.
    pub offset: Option<PointIdType>,
    /// Page size. Default: 10.
    pub limit: Option<usize>,
    /// Only points that pass this filter; all points if there is none.
    pub filter: Option<Filter>,
    /// Whether to hand back the payload. Default: yes.
    pub with_payload: Option<WithPayloadInterface>,
    /// Whether to hand back the vector. Default: no.
    pub with_vector: Option<bool>,
}

impl ScrollRequest {
    /// The id that the page starts from.
    pub open spec fn from_id(self) -> PointIdType {
        match self.offset {
            Some(id) => id,
            None => 0,
        }
    }

    /// The number of points that the page may hold.
    pub open spec fn page_size(self) -> usize {
        match self.limit {
            Some(n) => n,
            None => 10,
        }
    }

    /// Whether the page shows payloads.
    pub open spec fn wants_payload(self) -> bool {
        match self.with_payload {
            Some(WithPayloadInterface::Bool(b)) => b,
            None => true,
        }
    }

    /// Whether the page shows vectors.
    pub open spec fn wants_vector(self) -> bool {
        match self.with_vector {
            Some(b) => b,
            None => false,
        }
    }
}

impl Default for ScrollRequest {
    fn default() -> (request: ScrollRequest)
        ensures
            request.offset is None,
            request.limit == Some(10usize),
            request.filter is None,
            request.with_payload == Some(WithPayloadInterface::Bool(true)),
            request.with_vector == Some(false),
    {
        ScrollRequest {
            offset: None,
            limit: Some(10),
            filter: None,
            with_payload: Some(WithPayloadInterface::Bool(true)),
            with_vector: Some(false),
        }
    }
}

/// One page of points.
#[derive(Debug, Clone, PartialEq, Eq)]
pub struct ScrollResult {
    /// The points of the page, by ascending id.
    pub points: Vec<Record>,
    /// The id to start the next page from; `None` after the last page.
    pub next_page_offset: Option<PointIdType>,
}

/// Search request: the points most similar to a vector, among those that pass
/// a filter.
#[derive(Debug, Clone)]
pub struct SearchRequest {
    /// Look for vectors closest to this one.
    pub vector: Vec<VectorElementType>,
    /// Only points that pass this filter.
    pub filter: Option<Filter>,
    /// Tuning of the search.
    pub params: Option<SearchParams>,
    /// Greatest number of points to hand back.
    pub top: usize,
    /// Whether to hand back the payload.
    pub with_payload: Option<WithPayloadInterface>,
    /// Whether to hand back the vector. Default: no.
    pub with_vector: Option<bool>,
}

/// Recommendation request: points close to the positive examples and far
/// from the negative ones. The examples are points of the collection.
#[derive(Debug, Clone)]
pub struct RecommendRequest {
    /// Look for vectors closest to those of these points.
    pub positive: Vec<PointIdType>,
    /// Avoid vectors like those of these points.
    pub negative: Vec<PointIdType>,
    /// Only points that pass this filter.
    pub filter: Option<Filter>,
    /// Tuning of the search.
    pub params: Option<SearchParams>,
    /// Greatest number of points to hand back.
    pub top: usize,
}

/// Failure of a collection-level request.
#[derive(Debug, Clone, PartialEq, Eq)]
pub enum CollectionError {
    /// A vector or payload of the wrong shape was offered.
    BadInput { description: String },
    /// The request names a point that the collection does not hold.
    NotFound { missed_point_id: PointIdType },
    /// An internal, storage or runtime failure.
    ServiceError { error: String },
    /// The request's parameters cannot be combined.
    BadRequest { description: String },
    /// The operation was abandoned before it completed.
    Cancelled { description: String },
}

/// The result of a collection-level request.
pub type CollectionResult<T> = Result<T, CollectionError>;

impl CollectionError {
    /// The human-readable message of this error.
    pub open spec fn message_spec(self) -> Seq<char> {
        match self {
            CollectionError::BadInput { description } => "Wrong input: "@ + description@,
            CollectionError::NotFound { missed_point_id } => {
                "No point with id "@ + decimal(missed_point_id as nat) + " found"@
            },
            CollectionError::ServiceError { error } => "Service internal error: "@ + error@,
            CollectionError::BadRequest { description } => "Bad request: "@ + description@,
            CollectionError::Cancelled { description } => {
                "Operation Cancelled: "@ + description@
            },
        }
    }

    /// Renders the message of this error.
    pub fn message(&self) -> (s: String)
        ensures
            s@ == self.message_spec(),
    {
        match self {
            CollectionError::BadInput { description } => {
                let mut s = String::from_str("Wrong input: ");
                s.append(description.as_str());
                s
            },
            CollectionError::NotFound { missed_point_id } => {
                let mut s = String::from_str("No point with id ");
                append_decimal(&mut s, *missed_point_id);
                s.append(" found");
                s
            },
            CollectionError::ServiceError { error } => {
                let mut s = String::from_str("Service internal error: ");
                s.append(error.as_str());
                s
            },
            CollectionError::BadRequest { description } => {
                let mut s = String::from_str("Bad request: ");
                s.append(description.as_str());
                s
            },
            CollectionError::Cancelled { description } => {
                let mut s = String::from_str("Operation Cancelled: ");
                s.append(description.as_str());
                s
            },
        }
    }

    /// What a segment-level failure becomes at the collection boundary: a wrong
    /// vector or payload type is bad input that carries the segment's message, a
    /// missing point stays a missing point, an internal fault and a cancellation
    /// keep their descriptions.
    pub open spec fn converts(err: OperationError, out: CollectionError) -> bool {
        match err {
            OperationError::WrongVector { .. } => {
                out matches CollectionError::BadInput { description } && description@
                    == err.message_spec()
            },
            OperationError::TypeError { .. } => {
                out matches CollectionError::BadInput { description } && description@
                    == err.message_spec()
            },
            OperationError::PointIdError { missed_point_id } => {
                out == (CollectionError::NotFound { missed_point_id })
            },
            OperationError::ServiceError { description } => {
                out == (CollectionError::ServiceError { error: description })
            },
            OperationError::Cancelled { description } => {
                out == (CollectionError::Cancelled { description })
            },
        }
    }
}

/// The conversions into `CollectionError` build messages, so what they return
/// is stated on each `from` itself, not as a spec function of the error.
impl FromSpecImpl<OperationError> for CollectionError {
    open spec fn obeys_from_spec() -> bool {
        false
    }

    open spec fn from_spec(err: OperationError) -> CollectionError {
        arbitrary()
    }
}

impl From<OperationError> for CollectionError {
    fn from(err: OperationError) -> (out: CollectionError)
        ensures
            CollectionError::converts(err, out),
    {
        match err {
            OperationError::WrongVector { .. } => {
                CollectionError::BadInput { description: err.message() }
            },
            OperationError::PointIdError { missed_point_id } => {
                CollectionError::NotFound { missed_point_id }
            },
            OperationError::ServiceError { description } => {
                CollectionError::ServiceError { error: description }
            },
            OperationError::TypeError { .. } => {
                CollectionError::BadInput { description: err.message() }
            },
            OperationError::Cancelled { description } => CollectionError::Cancelled { description },
        }
    }
}

impl FromSpecImpl<WalError> for CollectionError {
    open spec fn obeys_from_spec() -> bool {
        false
    }

    open spec fn from_spec(err: WalError) -> CollectionError {
        arbitrary()
    }
}

impl From<WalError> for CollectionError {
    /// A failure of the operation log is an internal failure that carries the
    /// log's message.
    fn from(err: WalError) -> (out: CollectionError)
        ensures
            out matches CollectionError::ServiceError { error } && error@ == err.message_spec(),
    {
        CollectionError::ServiceError { error: err.message() }
    }
}

/// `tokio::sync::oneshot::error::RecvError`: the sender of a one-shot channel
/// was dropped before it sent. The type is carried through; nothing is known
/// of what is inside.
#[verifier::external_type_specification]
#[verifier::external_body]
pub struct ExOneshotRecvError(tokio::sync::oneshot::error::RecvError);

/// `tokio::sync::mpsc::error::SendError`: the receiver of a channel is gone;
/// the value that could not be sent is inside. The type is carried through.
#[verifier::external_type_specification]
#[verifier::external_body]
#[verifier::reject_recursive_types(T)]
pub struct ExSendError<T>(tokio::sync::mpsc::error::SendError<T>);

/// `tokio::task::JoinError`: a task was cancelled or panicked. The type is
/// carried through.
#[verifier::external_type_specification]
#[verifier::external_body]
pub struct ExJoinError(tokio::task::JoinError);

/// `serde_json::Error`: a document could not be written or read as JSON. The
/// type is carried through.
#[verifier::external_type_specification]
#[verifier::external_body]
pub struct ExJsonError(serde_json::Error);

/// `futures::io::Error`, which is the I/O error of the standard library. The
/// type is carried through.
#[verifier::external_type_specification]
#[verifier::external_body]
pub struct ExIoError(futures::io::Error);

/// The `Display` text of `tokio::sync::oneshot::error::RecvError`, which is
/// the same for every value of the type: "channel closed".
#[verifier::external_body]
fn recv_error_text(err: &tokio::sync::oneshot::error::RecvError) -> (text: String)
    ensures
        text@ == "channel closed"@,
{
    err.to_string()
}

/// The `Display` text of `tokio::sync::mpsc::error::SendError`, which is the
/// same for every value of the type: "channel closed".
#[verifier::external_body]
fn send_error_text<T>(err: &tokio::sync::mpsc::error::SendError<T>) -> (text: String)
    ensures
        text@ == "channel closed"@,
{
    err.to_string()
}

/// The `Display` text of a `tokio::task::JoinError`. It names the task and
/// says whether it was cancelled or panicked; nothing is claimed of it here.
#[verifier::external_body]
fn join_error_text(err: &tokio::task::JoinError) -> (text: String) {
    err.to_string()
}

/// The `Display` text of a `serde_json::Error`. It may hold a message of the
/// operating system; nothing is claimed of it here.
#[verifier::external_body]
fn json_error_text(err: &serde_json::Error) -> (text: String) {
    err.to_string()
}

/// The `Display` text of an I/O error. It may hold a message of the operating
/// system; nothing is claimed of it here.
#[verifier::external_body]
fn io_error_text(err: &futures::io::Error) -> (text: String) {
    err.to_string()
}

impl FromSpecImpl<tokio::sync::oneshot::error::RecvError> for CollectionError {
    open spec fn obeys_from_spec() -> bool {
        false
    }

    open spec fn from_spec(err: tokio::sync::oneshot::error::RecvError) -> CollectionError {
        arbitrary()
    }
}

impl From<tokio::sync::oneshot::error::RecvError> for CollectionError {
    /// A lost acknowledgment is an internal failure.
    fn from(err: tokio::sync::oneshot::error::RecvError) -> (out: CollectionError)
        ensures
            out matches CollectionError::ServiceError { error } && error@ == "channel closed"@,
    {
        CollectionError::ServiceError { error: recv_error_text(&err) }
    }
}

impl<T> FromSpecImpl<tokio::sync::mpsc::error::SendError<T>> for CollectionError {
    open spec fn obeys_from_spec() -> bool {
        false
    }

    open spec fn from_spec(err: tokio::sync::mpsc::error::SendError<T>) -> CollectionError {
        arbitrary()
    }
}

impl<T> From<tokio::sync::mpsc::error::SendError<T>> for CollectionError {
    /// An operation that could not be queued is an internal failure.
    fn from(err: tokio::sync::mpsc::error::SendError<T>) -> (out: CollectionError)
        ensures
            out matches CollectionError::ServiceError { error } && error@
                == "Can't reach one of the workers: "@ + "channel closed"@,
    {
        let text = send_error_text(&err);
        CollectionError::ServiceError {
            error: prefixed("Can't reach one of the workers: ", text.as_str()),
        }
    }
}

impl FromSpecImpl<tokio::task::JoinError> for CollectionError {
    open spec fn obeys_from_spec() -> bool {
        false
    }

    open spec fn from_spec(err: tokio::task::JoinError) -> CollectionError {
        arbitrary()
    }
}

impl From<tokio::task::JoinError> for CollectionError {
    /// A background task that did not finish is an internal failure.
    fn from(err: tokio::task::JoinError) -> (out: CollectionError)
        ensures
            out is ServiceError,
    {
        CollectionError::ServiceError { error: join_error_text(&err) }
    }
}

impl FromSpecImpl<serde_json::Error> for CollectionError {
    open spec fn obeys_from_spec() -> bool {
        false
    }

    open spec fn from_spec(err: serde_json::Error) -> CollectionError {
        arbitrary()
    }
}

impl From<serde_json::Error> for CollectionError {
    /// A serialization failure is an internal failure.
    fn from(err: serde_json::Error) -> (out: CollectionError)
        ensures
            out matches CollectionError::ServiceError { error } && "Json error: "@.is_prefix_of(
                error@,
            ),
    {
        let text = json_error_text(&err);
        CollectionError::ServiceError { error: prefixed("Json error: ", text.as_str()) }
    }
}

impl FromSpecImpl<futures::io::Error> for CollectionError {
    open spec fn obeys_from_spec() -> bool {
        false
    }

    open spec fn from_spec(err: futures::io::Error) -> CollectionError {
        arbitrary()
    }
}

impl From<futures::io::Error> for CollectionError {
    /// A failure of file I/O is an internal failure.
    fn from(err: futures::io::Error) -> (out: CollectionError)
        ensures
            out matches CollectionError::ServiceError { error } && "File IO error: "@.is_prefix_of(
                error@,
            ),
    {
        let text = io_error_text(&err);
        CollectionError::ServiceError { error: prefixed("File IO error: ", text.as_str()) }
    }
}

/// Tells an internal failure, which an operator must act on, from a success
/// and from the failures that the caller can correct.
pub fn is_service_error<T>(err: &CollectionResult<T>) -> (b: bool)
    ensures
        b == (*err matches Err(CollectionError::ServiceError { .. })),
{
    match err {
        Ok(_) => false,
        Err(error) => matches!(error, CollectionError::ServiceError { .. }),
    }
}

} // verus!
