//! Applies whole operations to a segment holder, point by point. An
//! operation is checked before its first point is touched, so a refused
//! operation changes nothing.

use vstd::prelude::*;
use vstd::string::*;
use crate::operations::point_ops::{
    accepted, all_present, delete_all, effect, index_effect, missing_at, names_missing, refused,
    upsert_all, views, with_payload, wrong_vector_at, CollectionUpdateOperations, OperationView,
    PointStruct,
};
use crate::segment::entry_point::OperationError;
use crate::segment::types::{
    copy_payload, copy_vec, payload_view, Payload, PointIdType, PointView, SeqNumberType,
};
use crate::segment_holder::{lemma_take_to_set, SegmentHolder};

verus! {

/// The holder's segments, ids and parameters are those of `before`.
pub open spec fn same_layout(before: &SegmentHolder, after: &SegmentHolder) -> bool {
    &&& after.spec_next_id() == before.spec_next_id()
    &&& after.spec_dim() == before.spec_dim()
    &&& after.spec_distance() == before.spec_distance()
    &&& after.segment_ids() == before.segment_ids()
    &&& after@.dom() == before@.dom()
}

/// The indexed payload fields are those of `before`.
pub open spec fn same_indexes(before: &SegmentHolder, after: &SegmentHolder) -> bool {
    after.field_indexes() == before.field_indexes()
}

/// Upserts the points in order. Refuses the whole operation if a vector has
/// the wrong dimension, or if there are points and no segment. An operation
/// numbered below what some segment has absorbed is passed over: the holder
/// is beyond it.
pub fn upsert_points(
    holder: &mut SegmentHolder,
    op_num: SeqNumberType,
    points: &Vec<PointStruct>,
) -> (r: Result<(), OperationError>)
    requires
        old(holder).wf(),
    ensures
        final(holder).wf(),
        same_layout(old(holder), final(holder)),
        same_indexes(old(holder), final(holder)),
        old(holder).applied_through(op_num) ==> final(holder).applied_through(op_num),
        match r {
            Ok(_) => {
                &&& accepted(
                    old(holder).points(),
                    old(holder).spec_dim(),
                    old(holder).segment_ids().len() > 0,
                    OperationView::UpsertPoints { points: views(points@) },
                )
                &&& old(holder).applied_through(op_num) ==> final(holder).points() == upsert_all(
                    old(holder).points(),
                    views(points@),
                )
                &&& !old(holder).applied_through(op_num) ==> *final(holder) == *old(holder)
            },
            Err(e) => {
                &&& refused(
                    old(holder).points(),
                    old(holder).spec_dim(),
                    old(holder).segment_ids().len() > 0,
                    OperationView::UpsertPoints { points: views(points@) },
                    e,
                )
                &&& *final(holder) == *old(holder)
            },
        },
{
    let ghost ps = views(points@);
    let dim = holder.dim();
    let mut i: usize = 0;
    while i < points.len()
        invariant
            i <= points@.len(),
            ps == views(points@),
            dim == holder.spec_dim(),
            holder.wf(),
            *holder == *old(holder),
            forall|j: int| 0 <= j < i ==> (#[trigger] ps[j]).vector.len() == dim,
        decreases points@.len() - i,
    {
        if points[i].vector.len() != dim {
            let e = OperationError::WrongVector {
                expected_dim: dim,
                received_dim: points[i].vector.len(),
            };
            assert(wrong_vector_at(ps, dim, e, i as int));
            return Err(e);
        }
        i += 1;
    }
    if points.len() > 0 && holder.len() == 0 {
        return Err(
            OperationError::ServiceError {
                description: String::from_str("No segment to write into"),
            },
        );
    }
    if !holder.is_applied_through(op_num) {
        return Ok(());
    }
    let mut i: usize = 0;
    while i < points.len()
        invariant
            i <= points@.len(),
            ps == views(points@),
            holder.wf(),
            same_layout(old(holder), holder),
            same_indexes(old(holder), holder),
            dim == holder.spec_dim(),
            points@.len() > 0 ==> holder.segment_ids().len() > 0,
            forall|j: int| 0 <= j < ps.len() ==> (#[trigger] ps[j]).vector.len() == dim,
            old(holder).applied_through(op_num) ==> {
                &&& holder.applied_through(op_num)
                &&& holder.points() == upsert_all(old(holder).points(), ps.take(i as int))
            },
        decreases points@.len() - i,
    {
        let point = &points[i];
        assert(point@ == ps[i as int]);
        let r = holder.upsert_point(
            op_num,
            point.id,
            copy_vec(&point.vector),
            copy_payload(&point.payload),
        );
        proof {
            assert(ps.take(i + 1).drop_last() =~= ps.take(i as int));
            assert(ps.take(i + 1).last() == ps[i as int]);
        }
        match r {
            Ok(_) => {},
            Err(e) => {
                assert(false);
                return Err(e);
            },
        }
        i += 1;
    }
    assert(ps.take(i as int) =~= ps);
    Ok(())
}

/// Deletes the points with these ids. An id that names no point is passed
/// over, and so is an operation numbered below what some segment has
/// absorbed.
pub fn delete_points(holder: &mut SegmentHolder, op_num: SeqNumberType, ids: &Vec<PointIdType>)
    requires
        old(holder).wf(),
    ensures
        final(holder).wf(),
        same_layout(old(holder), final(holder)),
        same_indexes(old(holder), final(holder)),
        old(holder).applied_through(op_num) ==> {
            &&& final(holder).applied_through(op_num)
            &&& final(holder).points() == delete_all(old(holder).points(), ids@)
        },
        !old(holder).applied_through(op_num) ==> *final(holder) == *old(holder),
{
    if !holder.is_applied_through(op_num) {
        return ;
    }
    let mut i: usize = 0;
    assert(old(holder).points().remove_keys(ids@.take(0).to_set()) =~= old(holder).points());
    while i < ids.len()
        invariant
            i <= ids@.len(),
            holder.wf(),
            same_layout(old(holder), holder),
            same_indexes(old(holder), holder),
            old(holder).applied_through(op_num) ==> {
                &&& holder.applied_through(op_num)
                &&& holder.points() == delete_all(old(holder).points(), ids@.take(i as int))
            },
        decreases ids@.len() - i,
    {
        let ghost cur = holder.points();
        let _ = holder.delete_point(op_num, ids[i]);
        proof {
            lemma_take_to_set(ids@, i as int);
            if old(holder).applied_through(op_num) {
                assert(cur.remove(ids@[i as int]) =~= old(holder).points().remove_keys(
                    ids@.take(i + 1).to_set(),
                ));
            }
        }
        i += 1;
    }
    assert(ids@.take(i as int) =~= ids@);
}

/// Gives each of the points the payload `payload` (`None` clears it). Refuses
/// the whole operation if one of the points does not exist. An operation
/// numbered below what some segment has absorbed is passed over.
pub fn set_payload(
    holder: &mut SegmentHolder,
    op_num: SeqNumberType,
    ids: &Vec<PointIdType>,
    payload: &Option<Payload>,
) -> (r: Result<(), OperationError>)
    requires
        old(holder).wf(),
    ensures
        final(holder).wf(),
        same_layout(old(holder), final(holder)),
        same_indexes(old(holder), final(holder)),
        old(holder).applied_through(op_num) ==> final(holder).applied_through(op_num),
        match r {
            Ok(_) => {
                &&& all_present(old(holder).points(), ids@)
                &&& old(holder).applied_through(op_num) ==> final(holder).points()
                    == with_payload(old(holder).points(), ids@, payload_view(*payload))
                &&& !old(holder).applied_through(op_num) ==> *final(holder) == *old(holder)
            },
            Err(e) => {
                &&& names_missing(old(holder).points(), ids@, e)
                &&& *final(holder) == *old(holder)
            },
        },
{
    let ghost m = holder.points();
    let ghost pv = payload_view(*payload);
    let mut i: usize = 0;
    while i < ids.len()
        invariant
            i <= ids@.len(),
            holder.wf(),
            *holder == *old(holder),
            m == holder.points(),
            forall|j: int| 0 <= j < i ==> m.contains_key(#[trigger] ids@[j]),
        decreases ids@.len() - i,
    {
        if !holder.has_point(ids[i]) {
            let e = OperationError::PointIdError { missed_point_id: ids[i] };
            assert(missing_at(m, ids@, e, i as int));
            return Err(e);
        }
        i += 1;
    }
    if !holder.is_applied_through(op_num) {
        return Ok(());
    }
    let mut i: usize = 0;
    assert(with_payload(m, ids@.take(0), pv) =~= m);
    while i < ids.len()
        invariant
            i <= ids@.len(),
            holder.wf(),
            same_layout(old(holder), holder),
            same_indexes(old(holder), holder),
            m == old(holder).points(),
            pv == payload_view(*payload),
            forall|j: int| 0 <= j < ids@.len() ==> m.contains_key(#[trigger] ids@[j]),
            holder.points().dom() == m.dom(),
            old(holder).applied_through(op_num) ==> {
                &&& holder.applied_through(op_num)
                &&& holder.points() == with_payload(m, ids@.take(i as int), pv)
            },
        decreases ids@.len() - i,
    {
        let ghost cur = holder.points();
        let id = ids[i];
        assert(m.contains_key(ids@[i as int]));
        let r = holder.set_payload(op_num, id, copy_payload(payload));
        proof {
            assert(holder.points().dom() =~= m.dom());
            if old(holder).applied_through(op_num) {
                let a = ids@.take(i as int);
                let b = ids@.take(i + 1);
                assert forall|k: PointIdType| b.contains(k) == (a.contains(k) || k == id) by {
                    if b.contains(k) {
                        let j = choose|j: int| 0 <= j < b.len() && b[j] == k;
                        if j < i {
                            assert(a[j] == k);
                        }
                    }
                    if a.contains(k) {
                        let j = choose|j: int| 0 <= j < a.len() && a[j] == k;
                        assert(b[j] == k);
                    }
                    if k == id {
                        assert(b[i as int] == k);
                    }
                }
                assert(cur.insert(id, PointView { vector: cur[id].vector, payload: pv })
                    =~= with_payload(m, b, pv));
            }
        }
        match r {
            Ok(_) => {},
            Err(e) => {
                assert(false);
                return Err(e);
            },
        }
        i += 1;
    }
    assert(ids@.take(i as int) =~= ids@);
    Ok(())
}

/// Applies one operation to the holder, under its sequence number. A refused
/// operation changes nothing. An operation that is taken, and is numbered at
/// or above everything that the segments have absorbed, makes of the points
/// and of the indexed fields what it says; one numbered below is passed
/// over: the holder is beyond it.
pub fn process_operation(
    holder: &mut SegmentHolder,
    op_num: SeqNumberType,
    operation: &CollectionUpdateOperations,
) -> (r: Result<(), OperationError>)
    requires
        old(holder).wf(),
    ensures
        final(holder).wf(),
        same_layout(old(holder), final(holder)),
        old(holder).applied_through(op_num) ==> final(holder).applied_through(op_num),
        match r {
            Ok(_) => {
                &&& accepted(
                    old(holder).points(),
                    old(holder).spec_dim(),
                    old(holder).segment_ids().len() > 0,
                    operation@,
                )
                &&& old(holder).applied_through(op_num) ==> {
                    &&& final(holder).points() == effect(old(holder).points(), operation@)
                    &&& final(holder).field_indexes() == index_effect(
                        old(holder).field_indexes(),
                        operation@,
                    )
                }
                &&& !old(holder).applied_through(op_num) ==> *final(holder) == *old(holder)
            },
            Err(e) => {
                &&& refused(
                    old(holder).points(),
                    old(holder).spec_dim(),
                    old(holder).segment_ids().len() > 0,
                    operation@,
                    e,
                )
                &&& *final(holder) == *old(holder)
            },
        },
{
    match operation {
        CollectionUpdateOperations::UpsertPoints { points } => {
            upsert_points(holder, op_num, points)
        },
        CollectionUpdateOperations::DeletePoints { ids } => {
            delete_points(holder, op_num, ids);
            Ok(())
        },
        CollectionUpdateOperations::SetPayload { payload, points } => {
            let offered = Some(copy_vec(payload));
            set_payload(holder, op_num, points, &offered)
        },
        CollectionUpdateOperations::ClearPayload { points } => {
            set_payload(holder, op_num, points, &None)
        },
        CollectionUpdateOperations::CreateIndex { field_name } => {
            if !holder.is_applied_through(op_num) {
                return Ok(());
            }
            holder.create_field_index(field_name);
            proof {
                holder.lemma_same_points(old(holder));
            }
            Ok(())
        },
        CollectionUpdateOperations::DropIndex { field_name } => {
            if !holder.is_applied_through(op_num) {
                return Ok(());
            }
            holder.drop_field_index(field_name);
            proof {
                holder.lemma_same_points(old(holder));
            }
            Ok(())
        },
    }
}

} // verus!
