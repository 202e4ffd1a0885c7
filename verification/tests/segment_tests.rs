use collection::collection_manager::search::search;
use collection::operations::types::SearchRequest;
use collection::segment::entry_point::OperationError;
use collection::segment::segment::Segment;
use collection::segment::types::{
    Condition, Distance, Filter, HasIdCondition, PointIdType, ScoredPoint, VectorElementType,
};
use collection::segment_holder::SegmentHolder;

fn bits(vector: &[f32]) -> Vec<VectorElementType> {
    vector.iter().map(|x| x.to_bits()).collect()
}

/// An integer that orders as the score does.
fn score_key(score: f32) -> i64 {
    let raw = score.to_bits() as i32;
    let key = if raw < 0 { raw ^ 0x7fff_ffff } else { raw };
    key as i64
}

fn dot(a: &[f32], b: &[f32]) -> f32 {
    a.iter().zip(b.iter()).map(|(x, y)| x * y).sum()
}

fn scores(segment: &Segment, query: &[f32]) -> Vec<ScoredPoint> {
    let mut scored = Vec::new();
    for id in segment.iter_points() {
        let point = segment.get(id).unwrap();
        let vector: Vec<f32> = point.vector.iter().map(|b| f32::from_bits(*b)).collect();
        scored.push(ScoredPoint {
            id,
            version: segment.version(),
            score: score_key(dot(&vector, query)),
        });
    }
    scored
}

fn build_segment_1() -> Segment {
    let mut segment1 = Segment::new(4, Distance::Dot);
    let vec1 = vec![1.0, 0.0, 1.0, 1.0];
    let vec2 = vec![1.0, 0.0, 1.0, 0.0];
    let vec3 = vec![1.0, 1.0, 1.0, 1.0];
    let vec4 = vec![1.0, 1.0, 0.0, 1.0];
    let vec5 = vec![1.0, 0.0, 0.0, 0.0];
    segment1.upsert_point(1, 1, bits(&vec1), None).unwrap();
    segment1.upsert_point(2, 2, bits(&vec2), None).unwrap();
    segment1.upsert_point(3, 3, bits(&vec3), None).unwrap();
    segment1.upsert_point(4, 4, bits(&vec4), None).unwrap();
    segment1.upsert_point(5, 5, bits(&vec5), None).unwrap();
    segment1.set_payload(6, 1, Some(b"{\"color\":\"red\"}".to_vec())).unwrap();
    segment1.set_payload(6, 2, Some(b"{\"color\":\"red\"}".to_vec())).unwrap();
    segment1.set_payload(6, 3, Some(b"{\"color\":\"blue\"}".to_vec())).unwrap();
    segment1
}

fn request(query: &[f32], filter: Option<Filter>, top: usize) -> SearchRequest {
    SearchRequest {
        vector: bits(query),
        filter,
        params: None,
        top,
        with_payload: None,
        with_vector: Some(false),
    }
}

#[test]
fn test_point_exclusion() {
    let segment = build_segment_1();

    assert!(segment.has_point(3));

    let query_vector = vec![1.0, 1.0, 1.0, 1.0];
    let scored = scores(&segment, &query_vector);

    let point_ids1: Vec<PointIdType> = segment.iter_points();
    let point_ids2: Vec<PointIdType> = segment.iter_points();

    let mut holder = SegmentHolder::new(4, Distance::Dot);
    holder.add(segment);

    let res = search(&holder, &request(&query_vector, None, 1), &scored).unwrap();

    let best_match = res.get(0).expect("Non-empty result");
    assert_eq!(best_match.id, 3);

    let frt = Filter {
        should: None,
        must: None,
        must_not: Some(vec![Condition::HasId(HasIdCondition { has_id: vec![3] })]),
    };

    let res = search(&holder, &request(&query_vector, Some(frt), 1), &scored).unwrap();

    let best_match = res.get(0).expect("Non-empty result");
    assert_ne!(best_match.id, 3);

    assert!(!point_ids1.is_empty());
    assert!(!point_ids2.is_empty());

    assert_eq!(&point_ids1, &point_ids2)
}

#[test]
fn a_new_segment_is_empty() {
    let segment = Segment::new(3, Distance::Cosine);
    assert_eq!(segment.points_count(), 0);
    assert_eq!(segment.version(), 0);
    assert_eq!(segment.dim(), 3);
    assert_eq!(segment.distance(), Distance::Cosine);
    assert!(!segment.is_indexed());
    assert!(segment.iter_points().is_empty());
    assert_eq!(segment.first_id_from(0), None);
}

#[test]
fn points_are_kept_by_ascending_id() {
    let mut segment = Segment::new(1, Distance::Dot);
    for id in [5u64, 1, 9, 3] {
        assert_eq!(segment.upsert_point(1, id, vec![id as u32], None), Ok(true));
    }
    assert_eq!(segment.iter_points(), vec![1, 3, 5, 9]);
    assert_eq!(segment.point_id_at(2), 5);
    assert_eq!(segment.point_at(3).id, 9);
    assert_eq!(segment.points_count(), 4);
    assert_eq!(segment.first_id_from(4), Some(5));
    assert_eq!(segment.first_id_from(5), Some(5));
    assert_eq!(segment.first_id_from(10), None);
}

#[test]
fn upsert_replaces_the_vector_and_keeps_the_payload() {
    let mut segment = Segment::new(2, Distance::Dot);
    segment.upsert_point(1, 7, vec![1, 2], Some(vec![42])).unwrap();
    segment.upsert_point(2, 7, vec![3, 4], None).unwrap();
    let point = segment.get(7).unwrap();
    assert_eq!(point.vector, vec![3, 4]);
    assert_eq!(point.payload, Some(vec![42]));
    segment.upsert_point(3, 7, vec![5, 6], Some(vec![43])).unwrap();
    let point = segment.get(7).unwrap();
    assert_eq!(point.vector, vec![5, 6]);
    assert_eq!(point.payload, Some(vec![43]));
    assert_eq!(segment.points_count(), 1);
    assert_eq!(segment.version(), 3);
}

#[test]
fn a_vector_of_the_wrong_dimension_is_refused() {
    let mut segment = Segment::new(2, Distance::Dot);
    let r = segment.upsert_point(1, 7, vec![1, 2, 3], None);
    assert_eq!(r, Err(OperationError::WrongVector { expected_dim: 2, received_dim: 3 }));
    assert_eq!(segment.points_count(), 0);
    assert_eq!(segment.version(), 0);
}

#[test]
fn an_absorbed_operation_changes_nothing() {
    let mut segment = Segment::new(1, Distance::Dot);
    segment.upsert_point(5, 1, vec![10], None).unwrap();
    assert_eq!(segment.upsert_point(4, 1, vec![20], None), Ok(false));
    assert_eq!(segment.upsert_point(4, 2, vec![20], None), Ok(false));
    assert!(!segment.delete_point(4, 1));
    assert_eq!(segment.set_payload(4, 1, Some(vec![1])), Ok(false));
    assert_eq!(segment.get(1).unwrap().vector, vec![10]);
    assert_eq!(segment.get(1).unwrap().payload, None);
    assert!(!segment.has_point(2));
    assert_eq!(segment.version(), 5);
    assert_eq!(segment.upsert_point(5, 1, vec![30], None), Ok(true));
    assert_eq!(segment.get(1).unwrap().vector, vec![30]);
}

#[test]
fn delete_removes_the_point() {
    let mut segment = Segment::new(1, Distance::Dot);
    segment.upsert_point(1, 1, vec![10], None).unwrap();
    segment.upsert_point(2, 2, vec![20], None).unwrap();
    assert!(segment.delete_point(3, 1));
    assert!(!segment.has_point(1));
    assert!(segment.has_point(2));
    assert!(!segment.delete_point(4, 1));
    assert_eq!(segment.version(), 4);
    assert_eq!(segment.iter_points(), vec![2]);
}

#[test]
fn payload_of_a_missing_point_is_an_error() {
    let mut segment = Segment::new(1, Distance::Dot);
    segment.upsert_point(1, 1, vec![10], None).unwrap();
    assert_eq!(
        segment.set_payload(2, 9, Some(vec![1])),
        Err(OperationError::PointIdError { missed_point_id: 9 })
    );
    assert_eq!(segment.version(), 1);
}

#[test]
fn payload_can_be_set_and_cleared() {
    let mut segment = Segment::new(1, Distance::Dot);
    segment.upsert_point(1, 1, vec![10], None).unwrap();
    assert_eq!(segment.set_payload(2, 1, Some(vec![7, 8])), Ok(true));
    assert_eq!(segment.get(1).unwrap().payload, Some(vec![7, 8]));
    assert_eq!(segment.get(1).unwrap().vector, vec![10]);
    assert_eq!(segment.set_payload(3, 1, None), Ok(true));
    assert_eq!(segment.get(1).unwrap().payload, None);
}

#[test]
fn a_change_of_vectors_makes_the_index_stale() {
    let mut segment = Segment::new(1, Distance::Dot);
    segment.upsert_point(1, 1, vec![10], None).unwrap();
    segment.build_index();
    assert!(segment.is_indexed());
    segment.set_payload(2, 1, Some(vec![1])).unwrap();
    assert!(segment.is_indexed());
    segment.upsert_point(3, 2, vec![20], None).unwrap();
    assert!(!segment.is_indexed());
    segment.build_index();
    assert!(!segment.delete_point(4, 9));
    assert!(segment.is_indexed());
    assert!(segment.delete_point(5, 2));
    assert!(!segment.is_indexed());
}

#[test]
fn the_version_never_goes_down() {
    let mut segment = Segment::new(1, Distance::Dot);
    segment.bump_version(7);
    assert_eq!(segment.version(), 7);
    segment.bump_version(3);
    assert_eq!(segment.version(), 7);
}
