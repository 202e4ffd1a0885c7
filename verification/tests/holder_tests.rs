use collection::collection_manager::segments_updater::{
    delete_points, process_operation, set_payload, upsert_points,
};
use collection::operations::point_ops::{CollectionUpdateOperations, PointStruct};
use collection::segment::entry_point::OperationError;
use collection::segment::segment::Segment;
use collection::segment::types::{Distance, PointIdType};
use collection::segment_holder::SegmentHolder;

fn holder_with_segments(count: usize) -> SegmentHolder {
    let mut holder = SegmentHolder::new(2, Distance::Dot);
    for _ in 0..count {
        holder.add(Segment::new(2, Distance::Dot));
    }
    holder
}

fn point(id: PointIdType, x: u32) -> PointStruct {
    PointStruct { id, vector: vec![x, x], payload: None }
}

fn all_ids(holder: &SegmentHolder) -> Vec<PointIdType> {
    let mut ids = Vec::new();
    let mut from = 0;
    while let Some(id) = holder.first_id_from(from) {
        ids.push(id);
        if id == u64::MAX {
            break;
        }
        from = id + 1;
    }
    ids
}

#[test]
fn a_new_holder_has_no_segment() {
    let holder = SegmentHolder::new(2, Distance::Dot);
    assert_eq!(holder.len(), 0);
    assert!(holder.ids().is_empty());
    assert_eq!(holder.points_count(), 0);
    assert!(holder.has_spare_id());
    assert_eq!(holder.dim(), 2);
    assert_eq!(holder.distance(), Distance::Dot);
}

#[test]
fn segment_ids_are_given_out_once() {
    let mut holder = SegmentHolder::new(2, Distance::Dot);
    assert_eq!(holder.add(Segment::new(2, Distance::Dot)), 0);
    assert_eq!(holder.add(Segment::new(2, Distance::Dot)), 1);
    assert!(holder.remove(1).is_some());
    assert!(holder.remove(1).is_none());
    assert_eq!(holder.add(Segment::new(2, Distance::Dot)), 2);
    assert_eq!(holder.ids(), vec![0, 2]);
    assert!(holder.get(1).is_none());
    assert!(holder.get(2).is_some());
    assert_eq!(holder.at(1).0, 2);
}

#[test]
fn removing_a_segment_removes_its_points() {
    let mut holder = holder_with_segments(1);
    holder.upsert_point(1, 10, vec![1, 1], None).unwrap();
    let mut other = Segment::new(2, Distance::Dot);
    other.upsert_point(1, 20, vec![2, 2], None).unwrap();
    let sid = holder.add(other);
    assert_eq!(all_ids(&holder), vec![10, 20]);
    let removed = holder.remove(sid).unwrap();
    assert!(removed.has_point(20));
    assert_eq!(all_ids(&holder), vec![10]);
}

#[test]
fn an_existing_point_is_updated_where_it_lives() {
    let mut holder = holder_with_segments(2);
    holder.upsert_point(1, 10, vec![1, 1], None).unwrap();
    holder.upsert_point(2, 20, vec![2, 2], None).unwrap();
    holder.upsert_point(3, 10, vec![3, 3], None).unwrap();
    assert_eq!(holder.points_count(), 2);
    assert_eq!(holder.get_point(10).unwrap().vector, vec![3, 3]);
    let in_first = holder.get(0).unwrap().points_count();
    let in_second = holder.get(1).unwrap().points_count();
    assert_eq!(in_first + in_second, 2);
}

#[test]
fn new_points_go_to_the_least_loaded_segment() {
    let mut holder = holder_with_segments(2);
    for id in 1..=4u64 {
        holder.upsert_point(id, id, vec![0, 0], None).unwrap();
    }
    assert_eq!(holder.get(0).unwrap().points_count(), 2);
    assert_eq!(holder.get(1).unwrap().points_count(), 2);
}

#[test]
fn a_holder_without_segments_takes_no_point() {
    let mut holder = holder_with_segments(0);
    let r = holder.upsert_point(1, 10, vec![1, 1], None);
    assert_eq!(
        r,
        Err(OperationError::ServiceError { description: String::from("No segment to write into") })
    );
    assert_eq!(holder.points_count(), 0);
}

#[test]
fn the_holder_refuses_a_wrong_dimension() {
    let mut holder = holder_with_segments(1);
    let r = holder.upsert_point(1, 10, vec![1, 1, 1], None);
    assert_eq!(r, Err(OperationError::WrongVector { expected_dim: 2, received_dim: 3 }));
}

#[test]
fn the_holder_deletes_and_changes_payload() {
    let mut holder = holder_with_segments(2);
    holder.upsert_point(1, 10, vec![1, 1], None).unwrap();
    holder.upsert_point(2, 20, vec![2, 2], None).unwrap();
    assert_eq!(holder.set_payload(3, 20, Some(vec![9])), Ok(true));
    assert_eq!(holder.get_point(20).unwrap().payload, Some(vec![9]));
    assert_eq!(
        holder.set_payload(4, 30, Some(vec![9])),
        Err(OperationError::PointIdError { missed_point_id: 30 })
    );
    assert!(holder.delete_point(5, 10));
    assert!(!holder.delete_point(6, 10));
    assert!(!holder.has_point(10));
    assert!(holder.has_point(20));
}

#[test]
fn swap_puts_one_segment_in_the_place_of_several() {
    let mut holder = holder_with_segments(2);
    holder.upsert_point(1, 10, vec![1, 1], None).unwrap();
    holder.upsert_point(2, 20, vec![2, 2], None).unwrap();
    let mut merged = Segment::new(2, Distance::Dot);
    merged.upsert_point(2, 10, vec![1, 1], None).unwrap();
    merged.upsert_point(2, 20, vec![2, 2], None).unwrap();
    let sid = holder.swap(merged, &vec![0, 1]);
    assert_eq!(sid, 2);
    assert_eq!(holder.ids(), vec![2]);
    assert_eq!(all_ids(&holder), vec![10, 20]);
    assert_eq!(holder.get(2).unwrap().points_count(), 2);
}

#[test]
fn upsert_points_applies_all_or_nothing() {
    let mut holder = holder_with_segments(1);
    let r = upsert_points(&mut holder, 1, &vec![point(1, 1), point(2, 2)]);
    assert_eq!(r, Ok(()));
    let bad = PointStruct { id: 4, vector: vec![1], payload: None };
    let r = upsert_points(&mut holder, 2, &vec![point(3, 3), bad, point(5, 5)]);
    assert_eq!(r, Err(OperationError::WrongVector { expected_dim: 2, received_dim: 1 }));
    assert_eq!(all_ids(&holder), vec![1, 2]);
}

#[test]
fn upsert_points_names_the_first_wrong_vector() {
    let mut holder = holder_with_segments(1);
    let first = PointStruct { id: 1, vector: vec![1, 2, 3], payload: None };
    let second = PointStruct { id: 2, vector: vec![1], payload: None };
    let r = upsert_points(&mut holder, 1, &vec![first, second]);
    assert_eq!(r, Err(OperationError::WrongVector { expected_dim: 2, received_dim: 3 }));
}

#[test]
fn upsert_of_no_point_needs_no_segment() {
    let mut holder = holder_with_segments(0);
    assert_eq!(upsert_points(&mut holder, 1, &Vec::new()), Ok(()));
    let r = upsert_points(&mut holder, 2, &vec![point(1, 1)]);
    assert_eq!(
        r,
        Err(OperationError::ServiceError { description: String::from("No segment to write into") })
    );
}

#[test]
fn a_later_upsert_of_the_same_point_wins() {
    let mut holder = holder_with_segments(2);
    let r = upsert_points(&mut holder, 1, &vec![point(1, 1), point(1, 7)]);
    assert_eq!(r, Ok(()));
    assert_eq!(holder.get_point(1).unwrap().vector, vec![7, 7]);
    assert_eq!(holder.points_count(), 1);
}

#[test]
fn delete_points_passes_over_what_is_not_there() {
    let mut holder = holder_with_segments(2);
    upsert_points(&mut holder, 1, &vec![point(1, 1), point(2, 2), point(3, 3)]).unwrap();
    delete_points(&mut holder, 2, &vec![1, 9, 3, 1]);
    assert_eq!(all_ids(&holder), vec![2]);
}

#[test]
fn set_payload_names_the_first_missing_point() {
    let mut holder = holder_with_segments(2);
    upsert_points(&mut holder, 1, &vec![point(1, 1), point(2, 2)]).unwrap();
    let r = set_payload(&mut holder, 2, &vec![1, 8, 9], &Some(vec![5]));
    assert_eq!(r, Err(OperationError::PointIdError { missed_point_id: 8 }));
    assert_eq!(holder.get_point(1).unwrap().payload, None);
    let r = set_payload(&mut holder, 3, &vec![1, 2], &Some(vec![5]));
    assert_eq!(r, Ok(()));
    assert_eq!(holder.get_point(1).unwrap().payload, Some(vec![5]));
    assert_eq!(holder.get_point(2).unwrap().payload, Some(vec![5]));
    assert_eq!(holder.get_point(2).unwrap().vector, vec![2, 2]);
}

#[test]
fn process_operation_handles_every_kind() {
    let mut holder = holder_with_segments(2);
    let upsert = CollectionUpdateOperations::UpsertPoints {
        points: vec![point(1, 1), point(2, 2), point(3, 3)],
    };
    assert_eq!(process_operation(&mut holder, 0, &upsert), Ok(()));
    let payload = CollectionUpdateOperations::SetPayload { payload: vec![7], points: vec![1, 2] };
    assert_eq!(process_operation(&mut holder, 1, &payload), Ok(()));
    let clear = CollectionUpdateOperations::ClearPayload { points: vec![2] };
    assert_eq!(process_operation(&mut holder, 2, &clear), Ok(()));
    let delete = CollectionUpdateOperations::DeletePoints { ids: vec![3] };
    assert_eq!(process_operation(&mut holder, 3, &delete), Ok(()));
    let create = CollectionUpdateOperations::CreateIndex { field_name: String::from("color") };
    assert_eq!(process_operation(&mut holder, 4, &create), Ok(()));
    assert_eq!(holder.indexed_fields(), vec![String::from("color")]);
    let drop = CollectionUpdateOperations::DropIndex { field_name: String::from("color") };
    assert_eq!(process_operation(&mut holder, 5, &drop), Ok(()));
    assert!(holder.indexed_fields().is_empty());
    assert_eq!(all_ids(&holder), vec![1, 2]);
    assert_eq!(holder.get_point(1).unwrap().payload, Some(vec![7]));
    assert_eq!(holder.get_point(2).unwrap().payload, None);
    let missing = CollectionUpdateOperations::ClearPayload { points: vec![3] };
    assert_eq!(
        process_operation(&mut holder, 6, &missing),
        Err(OperationError::PointIdError { missed_point_id: 3 })
    );
}

#[test]
fn points_count_adds_up_the_segments() {
    let mut holder = holder_with_segments(3);
    for id in 0..7u64 {
        holder.upsert_point(id, id, vec![0, 0], None).unwrap();
    }
    assert_eq!(holder.points_count(), 7);
}

#[test]
fn can_swap_tells_whether_the_segment_holds_the_points() {
    let mut holder = holder_with_segments(2);
    holder.upsert_point(1, 10, vec![1, 1], Some(vec![5])).unwrap();
    holder.upsert_point(2, 20, vec![2, 2], None).unwrap();
    let mut merged = Segment::new(2, Distance::Dot);
    merged.upsert_point(2, 10, vec![1, 1], Some(vec![5])).unwrap();
    assert!(!holder.can_swap(&merged, &vec![0, 1]));
    merged.upsert_point(2, 20, vec![2, 2], None).unwrap();
    assert!(holder.can_swap(&merged, &vec![0, 1]));
    assert!(holder.can_swap(&merged, &vec![1, 0, 1, 9]));
    assert!(!holder.can_swap(&merged, &vec![0]));
    merged.upsert_point(3, 30, vec![3, 3], None).unwrap();
    assert!(!holder.can_swap(&merged, &vec![0, 1]));
    merged.delete_point(4, 30);
    merged.set_payload(5, 10, Some(vec![6])).unwrap();
    assert!(!holder.can_swap(&merged, &vec![0, 1]));
    merged.set_payload(6, 10, Some(vec![5])).unwrap();
    merged.upsert_point(7, 20, vec![2, 3], None).unwrap();
    assert!(!holder.can_swap(&merged, &vec![0, 1]));
    let other = Segment::new(3, Distance::Dot);
    assert!(!holder.can_swap(&other, &Vec::new()));
    let cosine = Segment::new(2, Distance::Cosine);
    assert!(!holder.can_swap(&cosine, &Vec::new()));
    let empty = Segment::new(2, Distance::Dot);
    assert!(holder.can_swap(&empty, &Vec::new()));
}

#[test]
fn an_operation_below_the_holder_is_passed_over() {
    let mut holder = holder_with_segments(2);
    upsert_points(&mut holder, 5, &vec![point(1, 1)]).unwrap();
    assert!(holder.is_applied_through(5));
    assert!(!holder.is_applied_through(4));
    assert_eq!(upsert_points(&mut holder, 4, &vec![point(2, 2)]), Ok(()));
    delete_points(&mut holder, 4, &vec![1]);
    assert_eq!(set_payload(&mut holder, 4, &vec![1], &Some(vec![7])), Ok(()));
    let create = CollectionUpdateOperations::CreateIndex { field_name: String::from("color") };
    assert_eq!(process_operation(&mut holder, 4, &create), Ok(()));
    assert_eq!(all_ids(&holder), vec![1]);
    assert_eq!(holder.get_point(1).unwrap().payload, None);
    assert!(holder.indexed_fields().is_empty());
    let bad = PointStruct { id: 3, vector: vec![1], payload: None };
    assert_eq!(
        upsert_points(&mut holder, 4, &vec![bad]),
        Err(OperationError::WrongVector { expected_dim: 2, received_dim: 1 })
    );
    assert_eq!(upsert_points(&mut holder, 5, &vec![point(2, 2)]), Ok(()));
    assert_eq!(all_ids(&holder), vec![1, 2]);
}
