use collection::collection::Collection;
use collection::collection_builder::collection_builder_base::{
    build_collection, construct_collection, optimization_threads, recover_collection,
};
use collection::collection_builder::optimizers_builder::OptimizersConfig;
use collection::config::{CollectionConfig, CollectionParams, HnswConfig, WalConfig};
use collection::operations::point_ops::{CollectionUpdateOperations, PointStruct};
use collection::operations::types::{
    CollectionError, CollectionStatus, Record, RecommendRequest, ScrollRequest, SearchRequest,
    UpdateResult, UpdateStatus,
};
use collection::segment::segment::Segment;
use collection::segment::types::{
    Condition, Distance, Filter, HasIdCondition, PayloadSchemaInfo, PointIdType, ScoredPoint,
    VectorElementType, WithPayloadInterface,
};
use collection::segment_holder::SegmentHolder;
use collection::segment_optimizer::Optimizer;
use collection::wal::Wal;

fn wal_config() -> WalConfig {
    WalConfig { wal_capacity_mb: 1, wal_segments_ahead: 0 }
}

fn hnsw_config() -> HnswConfig {
    HnswConfig { m: 16, ef_construct: 100, full_scan_threshold: 10 }
}

fn params() -> CollectionParams {
    CollectionParams { vector_size: 4, distance: Distance::Dot }
}

fn optimizers_config(segments: usize) -> OptimizersConfig {
    OptimizersConfig {
        default_segment_number: segments,
        merge_threshold: 3,
        indexing_threshold: 1000,
        flush_interval_sec: 5,
        max_optimization_threads: 2,
    }
}

fn new_collection(segments: usize) -> Collection {
    build_collection(&wal_config(), &params(), &optimizers_config(segments), &hnsw_config())
}

fn bits(vector: [f32; 4]) -> Vec<VectorElementType> {
    vector.iter().map(|x| x.to_bits()).collect()
}

fn point(id: PointIdType, vector: [f32; 4]) -> PointStruct {
    PointStruct { id, vector: bits(vector), payload: None }
}

fn insert(id: PointIdType) -> CollectionUpdateOperations {
    CollectionUpdateOperations::UpsertPoints { points: vec![point(id, [id as f32, 0.0, 0.0, 1.0])] }
}

fn delete(ids: &[PointIdType]) -> CollectionUpdateOperations {
    CollectionUpdateOperations::DeletePoints { ids: ids.to_vec() }
}

fn scroll_all(collection: &Collection) -> Vec<Record> {
    let mut records = Vec::new();
    let mut offset = Some(0);
    while offset.is_some() {
        let request = ScrollRequest {
            offset,
            limit: Some(2),
            filter: None,
            with_payload: Some(WithPayloadInterface::Bool(true)),
            with_vector: Some(true),
        };
        let page = collection.scroll(&request).unwrap();
        records.extend(page.points);
        offset = page.next_page_offset;
    }
    records
}

fn ids_of(records: &[Record]) -> Vec<PointIdType> {
    records.iter().map(|r| r.id).collect()
}

fn score_key(score: f32) -> i64 {
    let raw = score.to_bits() as i32;
    let key = if raw < 0 { raw ^ 0x7fff_ffff } else { raw };
    key as i64
}

fn scores(collection: &Collection, query: [f32; 4]) -> Vec<ScoredPoint> {
    let mut scored = Vec::new();
    for record in scroll_all(collection) {
        let vector = record.vector.unwrap();
        let mut score = 0.0f32;
        for i in 0..4 {
            score += f32::from_bits(vector[i]) * query[i];
        }
        scored.push(ScoredPoint { id: record.id, version: 0, score: score_key(score) });
    }
    scored
}

fn search_request(query: [f32; 4], filter: Option<Filter>, top: usize) -> SearchRequest {
    SearchRequest {
        vector: bits(query),
        filter,
        params: None,
        top,
        with_payload: None,
        with_vector: None,
    }
}

fn without(ids: &[PointIdType]) -> Filter {
    Filter {
        should: None,
        must: None,
        must_not: Some(vec![Condition::HasId(HasIdCondition { has_id: ids.to_vec() })]),
    }
}

fn four_points() -> Collection {
    let mut collection = new_collection(1);
    let points = vec![
        point(1, [1.0, 0.0, 1.0, 1.0]),
        point(2, [1.0, 0.0, 1.0, 0.0]),
        point(3, [1.0, 1.0, 1.0, 1.0]),
        point(4, [1.0, 1.0, 0.0, 1.0]),
    ];
    collection.update(CollectionUpdateOperations::UpsertPoints { points }).unwrap();
    collection
}

#[test]
fn a_new_collection_is_empty_and_green() {
    let collection = new_collection(2);
    assert!(scroll_all(&collection).is_empty());
    assert_eq!(collection.status(), CollectionStatus::Green);
    assert_eq!(collection.dim(), 4);
    assert_eq!(collection.applied_until(), 0);
    assert_eq!(collection.segment_holder().len(), 2);
    assert_eq!(collection.wal().len(), 0);
    assert_eq!(collection.optimization_threads(), 2);
    let info = collection.info();
    assert_eq!(info.status, CollectionStatus::Green);
    assert_eq!(info.vectors_count, 0);
    assert_eq!(info.segments_count, 2);
    assert_eq!(info.ram_data_size, 0);
    assert_eq!(info.disk_data_size, 0);
    assert!(info.payload_schema.is_empty());
    assert_eq!(
        info.config,
        CollectionConfig {
            params: params(),
            hnsw_config: hnsw_config(),
            optimizer_config: optimizers_config(2),
            wal_config: wal_config(),
        }
    );
}

#[test]
fn updates_are_numbered_in_the_order_of_submission() {
    let mut collection = new_collection(2);
    for expected in 0..5u64 {
        let result = collection.update(insert(expected + 100)).unwrap();
        assert_eq!(
            result,
            UpdateResult { operation_id: expected, status: UpdateStatus::Completed }
        );
    }
    assert_eq!(collection.wal().next_index(), 5);
    assert_eq!(collection.applied_until(), 5);
}

#[test]
fn the_points_are_the_net_result_of_all_operations() {
    let mut collection = new_collection(3);
    collection.update(insert(1)).unwrap();
    collection.update(insert(2)).unwrap();
    collection.update(insert(3)).unwrap();
    collection.update(delete(&[2])).unwrap();
    collection.update(insert(4)).unwrap();
    collection.update(delete(&[1, 7])).unwrap();
    collection.update(insert(2)).unwrap();
    collection.update(delete(&[4])).unwrap();
    assert_eq!(ids_of(&scroll_all(&collection)), vec![2, 3]);
    assert_eq!(collection.info().vectors_count, 2);
    assert_eq!(collection.info().ram_data_size, 32);
}

#[test]
fn a_refused_operation_does_not_stop_the_next() {
    let mut collection = new_collection(1);
    collection.update(insert(1)).unwrap();
    let bad = CollectionUpdateOperations::UpsertPoints {
        points: vec![PointStruct { id: 2, vector: vec![0, 0], payload: None }],
    };
    assert_eq!(
        collection.update(bad),
        Err(CollectionError::BadInput {
            description: String::from("Vector inserting error: expected dim: 4, got 2"),
        })
    );
    let missing = CollectionUpdateOperations::SetPayload { payload: vec![1], points: vec![9] };
    assert_eq!(collection.update(missing), Err(CollectionError::NotFound { missed_point_id: 9 }));
    let result = collection.update(insert(3)).unwrap();
    assert_eq!(result.operation_id, 3);
    assert_eq!(ids_of(&scroll_all(&collection)), vec![1, 3]);
    assert_eq!(collection.wal().len(), 4);
}

#[test]
fn a_collection_without_segments_takes_no_point() {
    let mut collection = new_collection(0);
    let r = collection.update(insert(1));
    assert_eq!(
        r,
        Err(CollectionError::ServiceError { error: String::from("No segment to write into") })
    );
    assert!(scroll_all(&collection).is_empty());
    assert_eq!(collection.update(delete(&[1])).unwrap().operation_id, 1);
}

#[test]
fn submit_logs_and_apply_next_applies_in_order() {
    let mut collection = new_collection(1);
    let first = collection.submit(insert(1)).unwrap();
    let second = collection.submit(delete(&[1])).unwrap();
    assert_eq!(first, UpdateResult { operation_id: 0, status: UpdateStatus::Acknowledged });
    assert_eq!(second, UpdateResult { operation_id: 1, status: UpdateStatus::Acknowledged });
    assert!(scroll_all(&collection).is_empty());
    assert_eq!(collection.applied_until(), 0);
    let (seq, outcome) = collection.apply_next().unwrap();
    assert_eq!(seq, 0);
    assert_eq!(outcome, Ok(UpdateResult { operation_id: 0, status: UpdateStatus::Completed }));
    assert_eq!(ids_of(&scroll_all(&collection)), vec![1]);
    let (seq, _) = collection.apply_next().unwrap();
    assert_eq!(seq, 1);
    assert!(scroll_all(&collection).is_empty());
    assert_eq!(collection.apply_next(), None);
    assert_eq!(collection.applied_until(), 2);
}

#[test]
fn update_applies_what_was_pending_first() {
    let mut collection = new_collection(1);
    collection.submit(insert(1)).unwrap();
    let result = collection.update(delete(&[1])).unwrap();
    assert_eq!(result, UpdateResult { operation_id: 1, status: UpdateStatus::Completed });
    assert!(scroll_all(&collection).is_empty());
    assert_eq!(collection.applied_until(), 2);
}

#[test]
fn replaying_the_log_reproduces_the_live_collection() {
    let mut live = new_collection(2);
    live.update(insert(1)).unwrap();
    live.update(insert(2)).unwrap();
    let payload = CollectionUpdateOperations::SetPayload { payload: vec![7, 7], points: vec![2] };
    live.update(payload).unwrap();
    live.update(delete(&[1])).unwrap();
    let refused = CollectionUpdateOperations::ClearPayload { points: vec![1] };
    assert!(live.update(refused).is_err());
    live.update(insert(5)).unwrap();

    let mut records = Vec::new();
    for (seq, operation) in live.wal().read_from(0) {
        records.push((seq, operation.clone()));
    }
    let log = Wal::restore(records).unwrap();
    let recovered =
        recover_collection(&wal_config(), &params(), &optimizers_config(2), &hnsw_config(), log);
    assert_eq!(scroll_all(&recovered), scroll_all(&live));
    assert_eq!(ids_of(&scroll_all(&recovered)), vec![2, 5]);
    assert_eq!(recovered.applied_until(), 6);
    assert_eq!(recovered.wal().next_index(), 6);
}

#[test]
fn an_insert_survives_the_loss_of_the_segments() {
    let mut collection = new_collection(2);
    let result = collection.update(insert(42)).unwrap();
    assert_eq!(result.operation_id, 0);
    collection.flush();
    let mut on_disk = Vec::new();
    for (seq, operation) in collection.wal().read_from(0) {
        on_disk.push((seq, operation.clone()));
    }
    drop(collection);

    let log = Wal::restore(on_disk).unwrap();
    let reopened =
        recover_collection(&wal_config(), &params(), &optimizers_config(2), &hnsw_config(), log);
    let found = reopened.retrieve(&vec![42], true, true).unwrap();
    assert_eq!(found.len(), 1);
    assert_eq!(found[0].id, 42);
    assert_eq!(found[0].vector, Some(bits([42.0, 0.0, 0.0, 1.0])));
}

#[test]
fn an_optimizer_round_changes_no_point() {
    let mut collection = new_collection(3);
    for id in 1..=5u64 {
        collection.update(insert(id)).unwrap();
    }
    let payload = CollectionUpdateOperations::SetPayload { payload: vec![9], points: vec![2, 4] };
    collection.update(payload).unwrap();
    let before = scroll_all(&collection);
    assert_eq!(collection.segment_holder().len(), 3);
    let r = collection.run_optimizer(0);
    assert_eq!(r, Ok(Some(3)));
    assert_eq!(collection.segment_holder().len(), 1);
    assert_eq!(scroll_all(&collection), before);
    assert_eq!(collection.run_optimizer(0), Ok(None));
    assert_eq!(collection.run_optimizer(1), Ok(None));
    assert_eq!(scroll_all(&collection), before);
    assert_eq!(collection.status(), CollectionStatus::Green);
    collection.update(insert(6)).unwrap();
    assert_eq!(ids_of(&scroll_all(&collection)), vec![1, 2, 3, 4, 5, 6]);
}

#[test]
fn the_nearest_point_is_found_unless_it_is_filtered_out() {
    let collection = four_points();
    let query = [1.0, 1.0, 1.0, 1.0];
    let scored = scores(&collection, query);

    let found = collection.search(&search_request(query, None, 1), &scored).unwrap();
    assert_eq!(found.len(), 1);
    assert_eq!(found[0].id, 3);
    assert_eq!(found[0].score, score_key(4.0));

    let filtered =
        collection.search(&search_request(query, Some(without(&[3])), 4), &scored).unwrap();
    assert_eq!(filtered.len(), 3);
    assert_ne!(filtered[0].id, 3);
    assert_eq!(filtered[0].id, 1);
    assert!(filtered.iter().all(|p| p.id != 3));
    assert_eq!(ids_of_scored(&filtered), vec![1, 4, 2]);

    let again = collection.search(&search_request(query, None, 1), &scored).unwrap();
    assert_eq!(again[0].id, 3);
}

fn ids_of_scored(points: &[ScoredPoint]) -> Vec<PointIdType> {
    points.iter().map(|p| p.id).collect()
}

#[test]
fn search_ranks_by_score_then_by_id() {
    let collection = four_points();
    let scored = vec![
        ScoredPoint { id: 4, version: 0, score: 5 },
        ScoredPoint { id: 2, version: 0, score: 9 },
        ScoredPoint { id: 9, version: 0, score: 100 },
        ScoredPoint { id: 1, version: 0, score: 5 },
        ScoredPoint { id: 3, version: 0, score: -1 },
    ];
    let query = [0.0, 0.0, 0.0, 0.0];
    let found = collection.search(&search_request(query, None, 10), &scored).unwrap();
    assert_eq!(ids_of_scored(&found), vec![2, 1, 4, 3]);
    let found = collection.search(&search_request(query, None, 2), &scored).unwrap();
    assert_eq!(ids_of_scored(&found), vec![2, 1]);
    let found = collection.search(&search_request(query, None, 0), &scored).unwrap();
    assert!(found.is_empty());
}

#[test]
fn search_refuses_a_query_of_the_wrong_dimension() {
    let collection = four_points();
    let request = SearchRequest {
        vector: vec![0, 0, 0],
        filter: None,
        params: None,
        top: 1,
        with_payload: None,
        with_vector: None,
    };
    assert_eq!(
        collection.search(&request, &Vec::new()),
        Err(CollectionError::BadInput {
            description: String::from("Vector inserting error: expected dim: 4, got 3"),
        })
    );
}

#[test]
fn scroll_pages_through_the_points() {
    let mut collection = new_collection(2);
    for id in [5u64, 1, 9, 3, 7] {
        collection.update(insert(id)).unwrap();
    }
    let mut request = ScrollRequest::default();
    request.limit = Some(2);
    let page = collection.scroll(&request).unwrap();
    assert_eq!(ids_of(&page.points), vec![1, 3]);
    assert_eq!(page.next_page_offset, Some(5));
    assert!(page.points[0].vector.is_none());
    request.offset = page.next_page_offset;
    let page = collection.scroll(&request).unwrap();
    assert_eq!(ids_of(&page.points), vec![5, 7]);
    assert_eq!(page.next_page_offset, Some(9));
    request.offset = page.next_page_offset;
    let page = collection.scroll(&request).unwrap();
    assert_eq!(ids_of(&page.points), vec![9]);
    assert_eq!(page.next_page_offset, None);
}

#[test]
fn scroll_twice_yields_the_same_page() {
    let mut collection = new_collection(2);
    for id in [5u64, 1, 9, 3, 7] {
        collection.update(insert(id)).unwrap();
    }
    let request = ScrollRequest::default();
    assert_eq!(collection.scroll(&request), collection.scroll(&request));
    assert_eq!(ids_of(&collection.scroll(&request).unwrap().points), vec![1, 3, 5, 7, 9]);
}

#[test]
fn scroll_honours_filter_and_flags() {
    let mut collection = new_collection(2);
    for id in 1..=6u64 {
        collection.update(insert(id)).unwrap();
    }
    let payload = CollectionUpdateOperations::SetPayload { payload: vec![1], points: vec![2] };
    collection.update(payload).unwrap();
    let only = Filter {
        should: Some(vec![
            Condition::HasId(HasIdCondition { has_id: vec![2, 3] }),
            Condition::HasId(HasIdCondition { has_id: vec![5] }),
        ]),
        must: Some(vec![Condition::HasId(HasIdCondition { has_id: vec![1, 2, 3, 5, 6] })]),
        must_not: Some(vec![Condition::HasId(HasIdCondition { has_id: vec![3] })]),
    };
    let request = ScrollRequest {
        offset: None,
        limit: None,
        filter: Some(only),
        with_payload: None,
        with_vector: Some(true),
    };
    let page = collection.scroll(&request).unwrap();
    assert_eq!(ids_of(&page.points), vec![2, 5]);
    assert_eq!(page.points[0].payload, Some(vec![1]));
    assert_eq!(page.points[1].payload, None);
    assert_eq!(page.points[1].vector, Some(bits([5.0, 0.0, 0.0, 1.0])));
    let hidden = ScrollRequest {
        offset: None,
        limit: None,
        filter: None,
        with_payload: Some(WithPayloadInterface::Bool(false)),
        with_vector: None,
    };
    let page = collection.scroll(&hidden).unwrap();
    assert_eq!(page.points[1].payload, None);
    assert_eq!(page.points[1].vector, None);
}

#[test]
fn an_empty_should_list_lets_nothing_pass() {
    let collection = four_points();
    let request = ScrollRequest {
        offset: None,
        limit: None,
        filter: Some(Filter { should: Some(Vec::new()), must: None, must_not: None }),
        with_payload: None,
        with_vector: None,
    };
    assert!(collection.scroll(&request).unwrap().points.is_empty());
}

#[test]
fn scroll_refuses_a_page_of_no_points() {
    let collection = four_points();
    let mut request = ScrollRequest::default();
    request.limit = Some(0);
    assert_eq!(
        collection.scroll(&request),
        Err(CollectionError::BadRequest { description: String::from("Limit cannot be 0") })
    );
}

#[test]
fn scroll_reaches_the_largest_id() {
    let mut collection = new_collection(1);
    collection.update(insert(u64::MAX)).unwrap();
    collection.update(insert(u64::MAX - 1)).unwrap();
    let mut request = ScrollRequest::default();
    request.limit = Some(1);
    request.offset = Some(u64::MAX - 1);
    let page = collection.scroll(&request).unwrap();
    assert_eq!(ids_of(&page.points), vec![u64::MAX - 1]);
    assert_eq!(page.next_page_offset, Some(u64::MAX));
    request.offset = page.next_page_offset;
    let page = collection.scroll(&request).unwrap();
    assert_eq!(ids_of(&page.points), vec![u64::MAX]);
    assert_eq!(page.next_page_offset, None);
}

#[test]
fn retrieve_names_the_first_missing_point() {
    let collection = four_points();
    let found = collection.retrieve(&vec![4, 1], false, false).unwrap();
    assert_eq!(ids_of(&found), vec![4, 1]);
    assert_eq!(
        collection.retrieve(&vec![4, 8, 9], false, false),
        Err(CollectionError::NotFound { missed_point_id: 8 })
    );
}

#[test]
fn a_recommendation_keeps_its_examples_out() {
    let collection = four_points();
    let request = RecommendRequest {
        positive: vec![1, 2],
        negative: vec![4],
        filter: Some(without(&[3])),
        params: None,
        top: 5,
    };
    let plan = collection.recommend(&request).unwrap();
    assert_eq!(plan.positive, vec![bits([1.0, 0.0, 1.0, 1.0]), bits([1.0, 0.0, 1.0, 0.0])]);
    assert_eq!(plan.negative, vec![bits([1.0, 1.0, 0.0, 1.0])]);
    assert_eq!(plan.top, 5);
    for id in [1u64, 2, 3, 4] {
        assert!(!plan.filter.check(id));
    }
    assert!(plan.filter.check(5));
    let open = RecommendRequest {
        positive: vec![1],
        negative: Vec::new(),
        filter: None,
        params: None,
        top: 1,
    };
    let plan = collection.recommend(&open).unwrap();
    assert!(!plan.filter.check(1));
    assert!(plan.filter.check(3));
}

#[test]
fn a_recommendation_needs_a_positive_example() {
    let collection = four_points();
    let request = RecommendRequest {
        positive: Vec::new(),
        negative: vec![9],
        filter: None,
        params: None,
        top: 5,
    };
    assert_eq!(
        collection.recommend(&request),
        Err(CollectionError::BadRequest {
            description: String::from("At least one positive vector ID required"),
        })
    );
    let request = RecommendRequest {
        positive: vec![1, 7],
        negative: vec![9],
        filter: None,
        params: None,
        top: 5,
    };
    assert_eq!(
        collection.recommend(&request),
        Err(CollectionError::NotFound { missed_point_id: 7 })
    );
    let request = RecommendRequest {
        positive: vec![1],
        negative: vec![2, 9],
        filter: None,
        params: None,
        top: 5,
    };
    assert_eq!(
        collection.recommend(&request),
        Err(CollectionError::NotFound { missed_point_id: 9 })
    );
}

#[test]
fn a_tick_flushes_and_names_the_idle_optimizers() {
    let mut collection = new_collection(1);
    collection.update(insert(1)).unwrap();
    assert_eq!(collection.wal().durable_until(), 0);
    assert_eq!(collection.on_tick(), vec![0, 1]);
    assert_eq!(collection.wal().durable_until(), 1);
    assert_eq!(collection.status(), CollectionStatus::Yellow);
    assert_eq!(collection.on_tick(), Vec::<usize>::new());
    collection.finish_round(0);
    assert_eq!(collection.status(), CollectionStatus::Yellow);
    assert_eq!(collection.on_tick(), vec![0]);
    collection.finish_round(0);
    collection.finish_round(1);
    assert_eq!(collection.status(), CollectionStatus::Green);
}

#[test]
fn ack_keeps_what_is_not_yet_applied() {
    let mut collection = new_collection(1);
    collection.ack(5);
    assert_eq!(collection.wal().first_index(), 0);
    collection.update(insert(1)).unwrap();
    collection.update(insert(2)).unwrap();
    collection.submit(insert(3)).unwrap();
    collection.ack(10);
    assert_eq!(collection.wal().first_index(), 2);
    assert_eq!(collection.wal().len(), 1);
    assert_eq!(collection.apply_next().unwrap().0, 2);
    assert_eq!(ids_of(&scroll_all(&collection)), vec![1, 2, 3]);
    collection.ack(0);
    assert_eq!(collection.wal().first_index(), 2);
}

#[test]
fn the_thread_budget_follows_configuration_and_machine() {
    assert_eq!(optimization_threads(3, 8), 3);
    assert_eq!(optimization_threads(0, 8), 7);
    assert_eq!(optimization_threads(0, 3), 2);
    assert_eq!(optimization_threads(0, 2), 1);
    assert_eq!(optimization_threads(0, 1), 1);
    assert_eq!(optimization_threads(0, 0), 1);
}

#[test]
fn a_constructed_collection_has_at_least_one_thread() {
    let mut holder = SegmentHolder::new(4, Distance::Dot);
    holder.add(Segment::new(4, Distance::Dot));
    let mut config_of_optimizers = optimizers_config(1);
    config_of_optimizers.max_optimization_threads = 0;
    let config = CollectionConfig {
        params: params(),
        hnsw_config: hnsw_config(),
        optimizer_config: config_of_optimizers,
        wal_config: wal_config(),
    };
    let collection = construct_collection(
        holder,
        config,
        Wal::new(),
        vec![Optimizer::Merge { threshold: 3 }],
    );
    assert!(collection.optimization_threads() >= 1);
    assert_eq!(collection.update_handler().optimizers_count(), 1);
    assert_eq!(collection.update_handler().flush_interval_sec(), 5);
    assert_eq!(collection.config(), config);
}

#[test]
fn a_round_in_two_halves_changes_no_point() {
    let mut collection = new_collection(3);
    for id in 1..=5u64 {
        collection.update(insert(id)).unwrap();
    }
    let before = scroll_all(&collection);
    let (candidates, rebuilt) = collection.prepare_round(0).unwrap();
    assert_eq!(candidates, vec![0, 1, 2]);
    assert_eq!(rebuilt.iter_points(), vec![1, 2, 3, 4, 5]);
    assert_eq!(rebuilt.version(), 4);
    assert_eq!(collection.segment_holder().len(), 3);
    assert_eq!(collection.install_round(&candidates, rebuilt), Ok(3));
    assert_eq!(collection.segment_holder().ids(), vec![3]);
    assert_eq!(scroll_all(&collection), before);
    assert!(collection.prepare_round(0).is_none());
    assert!(collection.prepare_round(1).is_none());
}

#[test]
fn a_round_is_cancelled_when_the_segments_have_changed() {
    let mut collection = new_collection(2);
    collection.update(insert(1)).unwrap();
    collection.update(insert(2)).unwrap();
    let (candidates, rebuilt) = collection.prepare_round(0).unwrap();
    collection.update(insert(3)).unwrap();
    let before = scroll_all(&collection);
    assert_eq!(
        collection.install_round(&candidates, rebuilt),
        Err(CollectionError::Cancelled {
            description: String::from("Segments changed during optimization"),
        })
    );
    assert_eq!(collection.segment_holder().ids(), vec![0, 1]);
    assert_eq!(scroll_all(&collection), before);
    assert_eq!(collection.status(), CollectionStatus::Green);

    let (candidates, rebuilt) = collection.prepare_round(0).unwrap();
    collection.update(delete(&[9])).unwrap();
    assert_eq!(collection.install_round(&candidates, rebuilt), Ok(2));
    assert_eq!(scroll_all(&collection), before);
}

#[test]
fn a_round_is_cancelled_when_a_payload_has_changed() {
    let mut collection = new_collection(2);
    collection.update(insert(1)).unwrap();
    collection.update(insert(2)).unwrap();
    let (candidates, rebuilt) = collection.prepare_round(0).unwrap();
    let payload = CollectionUpdateOperations::SetPayload { payload: vec![1], points: vec![2] };
    collection.update(payload).unwrap();
    assert!(collection.install_round(&candidates, rebuilt).is_err());
    assert_eq!(collection.retrieve(&vec![2], true, false).unwrap()[0].payload, Some(vec![1]));
}

#[test]
fn nothing_is_installed_in_the_place_of_no_segment() {
    let mut collection = new_collection(1);
    let empty = Segment::new(4, Distance::Dot);
    assert!(collection.install_round(&Vec::new(), empty).is_err());
    let empty = Segment::new(4, Distance::Dot);
    assert!(collection.install_round(&vec![7], empty).is_err());
    assert_eq!(collection.segment_holder().ids(), vec![0]);
    let empty = Segment::new(4, Distance::Dot);
    assert_eq!(collection.install_round(&vec![0, 7, 0], empty), Ok(1));
    assert_eq!(collection.segment_holder().ids(), vec![1]);
}

#[test]
fn a_storage_failure_turns_the_collection_red() {
    let mut collection = new_collection(1);
    collection.update(insert(1)).unwrap();
    collection.report_storage_failure(String::from("disk unwritable"));
    assert_eq!(collection.status(), CollectionStatus::Red);
    assert_eq!(
        collection.update(insert(2)),
        Err(CollectionError::ServiceError {
            error: String::from("Can't write WAL: disk unwritable"),
        })
    );
    assert_eq!(ids_of(&scroll_all(&collection)), vec![1]);
    assert_eq!(collection.wal().len(), 1);
}

fn create_index(field: &str) -> CollectionUpdateOperations {
    CollectionUpdateOperations::CreateIndex { field_name: String::from(field) }
}

fn drop_index(field: &str) -> CollectionUpdateOperations {
    CollectionUpdateOperations::DropIndex { field_name: String::from(field) }
}

fn indexed(collection: &Collection) -> Vec<PayloadSchemaInfo> {
    collection.info().payload_schema
}

fn field(key: &str) -> PayloadSchemaInfo {
    PayloadSchemaInfo { key: String::from(key), indexed: true }
}

#[test]
fn field_indexes_are_created_and_dropped() {
    let mut collection = new_collection(0);
    assert_eq!(collection.update(create_index("color")).unwrap().operation_id, 0);
    collection.update(create_index("size")).unwrap();
    collection.update(create_index("color")).unwrap();
    assert_eq!(indexed(&collection), vec![field("color"), field("size")]);
    collection.update(drop_index("color")).unwrap();
    collection.update(drop_index("weight")).unwrap();
    assert_eq!(indexed(&collection), vec![field("size")]);
    collection.update(create_index("color")).unwrap();
    assert_eq!(indexed(&collection), vec![field("size"), field("color")]);
    assert!(collection.segment_holder().has_field_index(&String::from("size")));
    assert!(!collection.segment_holder().has_field_index(&String::from("weight")));
}

#[test]
fn field_indexes_survive_recovery_and_optimization() {
    let mut live = new_collection(2);
    live.update(create_index("color")).unwrap();
    live.update(insert(1)).unwrap();
    live.update(insert(2)).unwrap();
    live.update(create_index("size")).unwrap();
    live.update(drop_index("color")).unwrap();
    assert_eq!(live.run_optimizer(0), Ok(Some(2)));
    assert_eq!(indexed(&live), vec![field("size")]);
    let mut records = Vec::new();
    for (seq, operation) in live.wal().read_from(0) {
        records.push((seq, operation.clone()));
    }
    let recovered = recover_collection(
        &wal_config(),
        &params(),
        &optimizers_config(2),
        &hnsw_config(),
        Wal::restore(records).unwrap(),
    );
    assert_eq!(indexed(&recovered), vec![field("size")]);
    assert_eq!(scroll_all(&recovered), scroll_all(&live));
}
