use collection::collection_builder::optimizers_builder::{build_optimizers, OptimizersConfig};
use collection::config::{CollectionParams, HnswConfig};
use collection::operations::types::CollectionError;
use collection::segment::segment::{Segment, StoredPoint};
use collection::segment::types::{Distance, PointIdType};
use collection::segment_holder::SegmentHolder;
use collection::segment_optimizer::Optimizer;

fn segment_with(ids: &[PointIdType], version: u64) -> Segment {
    let mut segment = Segment::new(1, Distance::Dot);
    for id in ids {
        segment.upsert_point(version, *id, vec![*id as u32], Some(vec![*id as u8])).unwrap();
    }
    segment.bump_version(version);
    segment
}

fn all_points(holder: &SegmentHolder) -> Vec<StoredPoint> {
    let mut points = Vec::new();
    let mut from = 0;
    while let Some(id) = holder.first_id_from(from) {
        points.push(holder.get_point(id).unwrap().clone());
        if id == u64::MAX {
            break;
        }
        from = id + 1;
    }
    points
}

fn three_segments() -> SegmentHolder {
    let mut holder = SegmentHolder::new(1, Distance::Dot);
    holder.add(segment_with(&[1, 2], 4));
    holder.add(segment_with(&[10, 11, 12, 13, 14], 9));
    holder.add(segment_with(&[20], 6));
    holder
}

#[test]
fn merge_picks_all_small_segments() {
    let holder = three_segments();
    let merge = Optimizer::Merge { threshold: 3 };
    assert_eq!(merge.should_run(&holder), Some(vec![0, 2]));
}

#[test]
fn merge_needs_two_small_segments() {
    let holder = three_segments();
    assert_eq!(Optimizer::Merge { threshold: 2 }.should_run(&holder), None);
    assert_eq!(Optimizer::Merge { threshold: 0 }.should_run(&holder), None);
}

#[test]
fn indexing_picks_the_oldest_large_segment_without_index() {
    let mut holder = three_segments();
    holder.add(segment_with(&[30, 31, 32, 33, 34, 35], 2));
    let indexing = Optimizer::Indexing { threshold: 5 };
    assert_eq!(indexing.should_run(&holder), Some(vec![1]));
    assert_eq!(Optimizer::Indexing { threshold: 7 }.should_run(&holder), None);
}

#[test]
fn build_holds_the_points_of_the_candidates() {
    let holder = three_segments();
    let merge = Optimizer::Merge { threshold: 3 };
    let built = merge.build(&holder, &vec![0, 2]);
    assert_eq!(built.iter_points(), vec![1, 2, 20]);
    assert_eq!(built.version(), 6);
    assert!(!built.is_indexed());
    assert_eq!(built.get(20).unwrap().payload, Some(vec![20]));
    assert_eq!(holder.len(), 3);
}

#[test]
fn build_of_empty_segments_carries_the_version() {
    let mut holder = SegmentHolder::new(1, Distance::Dot);
    holder.add(segment_with(&[], 4));
    holder.add(segment_with(&[], 7));
    let built = Optimizer::Merge { threshold: 1 }.build(&holder, &vec![0, 1]);
    assert_eq!(built.points_count(), 0);
    assert_eq!(built.version(), 7);
}

#[test]
fn a_merge_round_keeps_every_point() {
    let mut holder = three_segments();
    let before = all_points(&holder);
    let r = Optimizer::Merge { threshold: 3 }.optimize(&mut holder);
    assert_eq!(r, Ok(Some(3)));
    assert_eq!(holder.ids(), vec![1, 3]);
    assert_eq!(all_points(&holder), before);
    assert_eq!(holder.get(3).unwrap().iter_points(), vec![1, 2, 20]);
    assert_eq!(holder.get(3).unwrap().version(), 6);
}

#[test]
fn an_indexing_round_keeps_every_point() {
    let mut holder = three_segments();
    let before = all_points(&holder);
    let r = Optimizer::Indexing { threshold: 5 }.optimize(&mut holder);
    assert_eq!(r, Ok(Some(3)));
    assert_eq!(holder.ids(), vec![0, 2, 3]);
    assert!(holder.get(3).unwrap().is_indexed());
    assert_eq!(holder.get(3).unwrap().version(), 9);
    assert_eq!(all_points(&holder), before);
    assert_eq!(Optimizer::Indexing { threshold: 5 }.optimize(&mut holder), Ok(None));
}

#[test]
fn an_idle_round_changes_nothing() {
    let mut holder = three_segments();
    let r = Optimizer::Merge { threshold: 1 }.optimize(&mut holder);
    assert_eq!(r, Ok(None));
    assert_eq!(holder.ids(), vec![0, 1, 2]);
}

#[test]
fn rounds_come_to_rest() {
    let mut holder = three_segments();
    let merge = Optimizer::Merge { threshold: 100 };
    assert_eq!(merge.optimize(&mut holder), Ok(Some(3)));
    assert_eq!(holder.ids(), vec![3]);
    assert_eq!(merge.optimize(&mut holder), Ok(None));
    assert_eq!(holder.points_count(), 8);
}

#[test]
fn a_round_result_is_no_service_error_when_it_ran() {
    let mut holder = three_segments();
    let r = Optimizer::Merge { threshold: 3 }.optimize(&mut holder);
    assert!(!matches!(r, Err(CollectionError::ServiceError { .. })));
}

#[test]
fn optimizers_follow_the_configuration() {
    let params = CollectionParams { vector_size: 4, distance: Distance::Dot };
    let hnsw = HnswConfig { m: 16, ef_construct: 100, full_scan_threshold: 10 };
    let config = OptimizersConfig {
        default_segment_number: 2,
        merge_threshold: 50,
        indexing_threshold: 1000,
        flush_interval_sec: 5,
        max_optimization_threads: 0,
    };
    assert_eq!(
        build_optimizers(&params, &config, &hnsw),
        vec![Optimizer::Merge { threshold: 50 }, Optimizer::Indexing { threshold: 1000 }]
    );
}
