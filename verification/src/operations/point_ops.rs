//! Update operations on points, and what each does to the points of a
//! collection.

use vstd::prelude::*;
use vstd::string::*;
use crate::operations::types::CollectionError;
use crate::segment::entry_point::OperationError;
use crate::segment::segment::upserted;
use crate::segment::types::{
    payload_view, Payload, PayloadKeyType, PointIdType, PointView, VectorElementType,
};

verus! {

/// A point as an upsert offers it.
#[derive(Debug, Clone, PartialEq, Eq)]
pub struct PointStruct {
    /// Id of the point.
    pub id: PointIdType,
    /// Vector of the point.
    pub vector: Vec<VectorElementType>,
    /// Payload of the point; `None` keeps the payload that the point has.
    pub payload: Option<Payload>,
}

/// An offered point as a mathematical value.
pub struct PointStructView {
    pub id: PointIdType,
    pub vector: Seq<VectorElementType>,
    pub payload: Option<Seq<u8>>,
}

impl View for PointStruct {
    type V = PointStructView;

    open spec fn view(&self) -> PointStructView {
        PointStructView { id: self.id, vector: self.vector@, payload: payload_view(self.payload) }
    }
}

/// One mutation of a collection, with all the data needed to apply it.
#[derive(Debug, Clone, PartialEq, Eq)]
pub enum CollectionUpdateOperations {
    /// Insert the points, or update those that exist.
    UpsertPoints { points: Vec<PointStruct> },
    /// Delete the points with these ids.
    DeletePoints { ids: Vec<PointIdType> },
    /// Give each of the points this payload.
    SetPayload { payload: Payload, points: Vec<PointIdType> },
    /// Remove the payload of each of the points.
    ClearPayload { points: Vec<PointIdType> },
    /// Keep an index over this payload field.
    CreateIndex { field_name: PayloadKeyType },
    /// Keep no index over this payload field any more.
    DropIndex { field_name: PayloadKeyType },
}

/// An operation as a mathematical value.
pub enum OperationView {
    UpsertPoints { points: Seq<PointStructView> },
    DeletePoints { ids: Seq<PointIdType> },
    SetPayload { payload: Seq<u8>, points: Seq<PointIdType> },
    ClearPayload { points: Seq<PointIdType> },
    CreateIndex { field_name: Seq<char> },
    DropIndex { field_name: Seq<char> },
}

/// The offered points as mathematical values.
pub open spec fn views(points: Seq<PointStruct>) -> Seq<PointStructView> {
    points.map_values(|p: PointStruct| p@)
}

impl View for CollectionUpdateOperations {
    type V = OperationView;

    open spec fn view(&self) -> OperationView {
        match *self {
            CollectionUpdateOperations::UpsertPoints { points } => OperationView::UpsertPoints {
                points: views(points@),
            },
            CollectionUpdateOperations::DeletePoints { ids } => OperationView::DeletePoints {
                ids: ids@,
            },
            CollectionUpdateOperations::SetPayload { payload, points } => OperationView::SetPayload {
                payload: payload@,
                points: points@,
            },
            CollectionUpdateOperations::ClearPayload { points } => OperationView::ClearPayload {
                points: points@,
            },
            CollectionUpdateOperations::CreateIndex { field_name } => OperationView::CreateIndex {
                field_name: field_name@,
            },
            CollectionUpdateOperations::DropIndex { field_name } => OperationView::DropIndex {
                field_name: field_name@,
            },
        }
    }
}

/// The operations as mathematical values.
pub open spec fn operation_views(ops: Seq<CollectionUpdateOperations>) -> Seq<OperationView> {
    ops.map_values(|op: CollectionUpdateOperations| op@)
}

/// The points after `p` is upserted.
pub open spec fn upsert_one(
    m: Map<PointIdType, PointView>,
    p: PointStructView,
) -> Map<PointIdType, PointView> {
    m.insert(p.id, upserted(m, p.id, p.vector, p.payload))
}

/// The points after `ps` are upserted one after the other.
pub open spec fn upsert_all(
    m: Map<PointIdType, PointView>,
    ps: Seq<PointStructView>,
) -> Map<PointIdType, PointView>
    decreases ps.len(),
{
    if ps.len() == 0 {
        m
    } else {
        upsert_one(upsert_all(m, ps.drop_last()), ps.last())
    }
}

/// The points after those with an id in `ids` are deleted.
pub open spec fn delete_all(
    m: Map<PointIdType, PointView>,
    ids: Seq<PointIdType>,
) -> Map<PointIdType, PointView> {
    m.remove_keys(ids.to_set())
}

/// The points after each of those with an id in `ids` got the payload
/// `payload`.
pub open spec fn with_payload(
    m: Map<PointIdType, PointView>,
    ids: Seq<PointIdType>,
    payload: Option<Seq<u8>>,
) -> Map<PointIdType, PointView> {
    Map::new(
        |id: PointIdType| m.contains_key(id),
        |id: PointIdType|
            if ids.contains(id) {
                PointView { vector: m[id].vector, payload }
            } else {
                m[id]
            },
    )
}

/// `i` is the first place of `ps` whose vector is not of dimension `dim`.
pub open spec fn first_wrong_vector(ps: Seq<PointStructView>, dim: usize, i: int) -> bool {
    &&& 0 <= i < ps.len()
    &&& ps[i].vector.len() != dim
    &&& forall|j: int| 0 <= j < i ==> (#[trigger] ps[j]).vector.len() == dim
}

/// `i` is the first place of `ids` whose point is not in `m`.
pub open spec fn first_missing(m: Map<PointIdType, PointView>, ids: Seq<PointIdType>, i: int) -> bool {
    &&& 0 <= i < ids.len()
    &&& !m.contains_key(ids[i])
    &&& forall|j: int| 0 <= j < i ==> m.contains_key(#[trigger] ids[j])
}

/// The error `e` names the first wrong vector of `ps`, which is at place `i`.
pub open spec fn wrong_vector_at(
    ps: Seq<PointStructView>,
    dim: usize,
    e: OperationError,
    i: int,
) -> bool {
    &&& first_wrong_vector(ps, dim, i)
    &&& e matches OperationError::WrongVector { expected_dim, received_dim }
    &&& expected_dim == dim
    &&& received_dim == ps[i].vector.len()
}

/// The error `e` names the first missing point of `ids`, which is at place `i`.
pub open spec fn missing_at(
    m: Map<PointIdType, PointView>,
    ids: Seq<PointIdType>,
    e: OperationError,
    i: int,
) -> bool {
    first_missing(m, ids, i) && e == (OperationError::PointIdError { missed_point_id: ids[i] })
}

/// The error `e` names the first vector of `ps` that is not of dimension
/// `dim`.
pub open spec fn names_wrong_vector(ps: Seq<PointStructView>, dim: usize, e: OperationError) -> bool {
    exists|i: int| wrong_vector_at(ps, dim, e, i)
}

/// The error `e` names the first point of `ids` that is not in `m`.
pub open spec fn names_missing(
    m: Map<PointIdType, PointView>,
    ids: Seq<PointIdType>,
    e: OperationError,
) -> bool {
    exists|i: int| missing_at(m, ids, e, i)
}

/// Every vector of `ps` is of dimension `dim`.
pub open spec fn all_fit(ps: Seq<PointStructView>, dim: usize) -> bool {
    forall|i: int| 0 <= i < ps.len() ==> (#[trigger] ps[i]).vector.len() == dim
}

/// Every id of `ids` is the id of a point of `m`.
pub open spec fn all_present(m: Map<PointIdType, PointView>, ids: Seq<PointIdType>) -> bool {
    forall|i: int| 0 <= i < ids.len() ==> m.contains_key(#[trigger] ids[i])
}

/// The error `e` says that there is no segment to write into.
pub open spec fn lacks_segment(e: OperationError) -> bool {
    e matches OperationError::ServiceError { description } && description@
        == "No segment to write into"@
}

/// Whether a collection with the points `m` and vectors of dimension `dim`
/// takes the operation: every offered vector has the dimension, a segment is
/// there for offered points (`writable`), and every point whose payload is to
/// change exists.
pub open spec fn accepted(
    m: Map<PointIdType, PointView>,
    dim: usize,
    writable: bool,
    op: OperationView,
) -> bool {
    match op {
        OperationView::UpsertPoints { points } => {
            all_fit(points, dim) && (points.len() > 0 ==> writable)
        },
        OperationView::DeletePoints { .. } => true,
        OperationView::SetPayload { points, .. } => all_present(m, points),
        OperationView::ClearPayload { points } => all_present(m, points),
        OperationView::CreateIndex { .. } => true,
        OperationView::DropIndex { .. } => true,
    }
}

/// Whether the collection refuses the operation with the error `e`: the
/// error names the first offered vector of a wrong dimension, or the lack of
/// a segment, or the first point that is missing.
pub open spec fn refused(
    m: Map<PointIdType, PointView>,
    dim: usize,
    writable: bool,
    op: OperationView,
    e: OperationError,
) -> bool {
    match op {
        OperationView::UpsertPoints { points } => {
            names_wrong_vector(points, dim, e) || (all_fit(points, dim) && points.len() > 0
                && !writable && lacks_segment(e))
        },
        OperationView::DeletePoints { .. } => false,
        OperationView::SetPayload { points, .. } => names_missing(m, points, e),
        OperationView::ClearPayload { points } => names_missing(m, points, e),
        OperationView::CreateIndex { .. } => false,
        OperationView::DropIndex { .. } => false,
    }
}

/// The points after the operation, where the collection takes it.
pub open spec fn effect(m: Map<PointIdType, PointView>, op: OperationView) -> Map<
    PointIdType,
    PointView,
> {
    match op {
        OperationView::UpsertPoints { points } => upsert_all(m, points),
        OperationView::DeletePoints { ids } => delete_all(m, ids),
        OperationView::SetPayload { payload, points } => with_payload(m, points, Some(payload)),
        OperationView::ClearPayload { points } => with_payload(m, points, None),
        OperationView::CreateIndex { .. } => m,
        OperationView::DropIndex { .. } => m,
    }
}

/// The indexed payload fields after `name` is added: the fields as they
/// were if `name` is among them, else with `name` at their end.
pub open spec fn with_field(fields: Seq<Seq<char>>, name: Seq<char>) -> Seq<Seq<char>> {
    if fields.contains(name) {
        fields
    } else {
        fields.push(name)
    }
}

/// The indexed payload fields without `name`, the others in their order.
pub open spec fn without_field(fields: Seq<Seq<char>>, name: Seq<char>) -> Seq<Seq<char>>
    decreases fields.len(),
{
    if fields.len() == 0 {
        fields
    } else if fields.last() == name {
        without_field(fields.drop_last(), name)
    } else {
        without_field(fields.drop_last(), name).push(fields.last())
    }
}

/// The indexed payload fields after the operation. Only the two operations
/// on indexes change them, and the collection never refuses those.
pub open spec fn index_effect(fields: Seq<Seq<char>>, op: OperationView) -> Seq<Seq<char>> {
    match op {
        OperationView::CreateIndex { field_name } => with_field(fields, field_name),
        OperationView::DropIndex { field_name } => without_field(fields, field_name),
        _ => fields,
    }
}

/// The indexed payload fields after the operations `ops`, applied in order.
pub open spec fn replay_indexes(fields: Seq<Seq<char>>, ops: Seq<OperationView>) -> Seq<
    Seq<char>,
>
    decreases ops.len(),
{
    if ops.len() == 0 {
        fields
    } else {
        index_effect(replay_indexes(fields, ops.drop_last()), ops.last())
    }
}

/// The points after the operation: its effect where the collection takes it;
/// a refused operation changes nothing.
pub open spec fn step(
    m: Map<PointIdType, PointView>,
    dim: usize,
    writable: bool,
    op: OperationView,
) -> Map<PointIdType, PointView> {
    if accepted(m, dim, writable, op) {
        effect(m, op)
    } else {
        m
    }
}

/// The points after the operations `ops`, applied in order to the points `m`.
pub open spec fn replay(
    m: Map<PointIdType, PointView>,
    dim: usize,
    writable: bool,
    ops: Seq<OperationView>,
) -> Map<PointIdType, PointView>
    decreases ops.len(),
{
    if ops.len() == 0 {
        m
    } else {
        step(replay(m, dim, writable, ops.drop_last()), dim, writable, ops.last())
    }
}

/// Whether the collection refuses the operation with the collection-level
/// error `e`: what the segment-level refusal becomes at the boundary.
pub open spec fn rejected(
    m: Map<PointIdType, PointView>,
    dim: usize,
    writable: bool,
    op: OperationView,
    e: CollectionError,
) -> bool {
    exists|oe: OperationError|
        refused(m, dim, writable, op, oe) && #[trigger] CollectionError::converts(oe, e)
}

/// Applying one more operation is one more step: the points after `ops` and
/// then `op` are the step of `op` on the points after `ops`.
pub proof fn lemma_replay_push(
    m: Map<PointIdType, PointView>,
    dim: usize,
    writable: bool,
    ops: Seq<OperationView>,
    op: OperationView,
)
    ensures
        replay(m, dim, writable, ops.push(op)) == step(
            replay(m, dim, writable, ops),
            dim,
            writable,
            op,
        ),
{
    assert(ops.push(op).drop_last() =~= ops);
}

/// Operations applied one at a time, in the order of their submission, give
/// the net result of all of them: the points after a run of operations are
/// the points after its first part, carried on by the rest.
pub proof fn lemma_replay_in_order(
    m: Map<PointIdType, PointView>,
    dim: usize,
    writable: bool,
    first: Seq<OperationView>,
    rest: Seq<OperationView>,
)
    ensures
        replay(m, dim, writable, first + rest) == replay(
            replay(m, dim, writable, first),
            dim,
            writable,
            rest,
        ),
    decreases rest.len(),
{
    if rest.len() == 0 {
        assert(first + rest =~= first);
    } else {
        lemma_replay_in_order(m, dim, writable, first, rest.drop_last());
        assert((first + rest).drop_last() =~= first + rest.drop_last());
        assert((first + rest).last() == rest.last());
    }
}

/// A refused operation is not accepted: the two outcomes exclude each other.
pub proof fn lemma_refused_not_accepted(
    m: Map<PointIdType, PointView>,
    dim: usize,
    writable: bool,
    op: OperationView,
    e: OperationError,
)
    requires
        refused(m, dim, writable, op, e),
    ensures
        !accepted(m, dim, writable, op),
{
    match op {
        OperationView::UpsertPoints { points } => {
            if exists|i: int| wrong_vector_at(points, dim, e, i) {
                let i = choose|i: int| wrong_vector_at(points, dim, e, i);
                assert(points[i].vector.len() != dim);
            }
        },
        OperationView::DeletePoints { .. } => {},
        OperationView::SetPayload { points, .. } => {
            let i = choose|i: int| missing_at(m, points, e, i);
            assert(!m.contains_key(points[i]));
        },
        OperationView::ClearPayload { points } => {
            let i = choose|i: int| missing_at(m, points, e, i);
            assert(!m.contains_key(points[i]));
        },
        OperationView::CreateIndex { .. } => {},
        OperationView::DropIndex { .. } => {},
    }
}

} // verus!
