use vectordb::errors::DBError;
use vectordb::filters::Filter;
use vectordb::hnsw::HNSWIndex;
use vectordb::metric::distance;
use vectordb::payload::{Payload, PayloadValue};
use vectordb::segment::Segment;
use vectordb::types::{DistanceMetric, Vector};

fn vecf(v: &[f32]) -> Vector {
    v.iter().map(|x| x.to_bits()).collect()
}

fn fb(b: u32) -> f32 {
    f32::from_bits(b)
}

#[test]
fn scenario_euclidean_2d_basics() {
    let mut hnsw = HNSWIndex::new(DistanceMetric::Euclidean, 16, 50, 16, 2);
    hnsw.insert(1, vecf(&[0.0, 0.0])).unwrap();
    hnsw.insert(2, vecf(&[1.0, 1.0])).unwrap();
    hnsw.insert(3, vecf(&[5.0, 5.0])).unwrap();
    hnsw.insert(4, vecf(&[-1.0, -1.0])).unwrap();

    let results = hnsw.search(&vecf(&[0.0, 0.0]), 2).unwrap();
    let ids: Vec<u64> = results.iter().map(|r| r.id).collect();
    assert!(ids.contains(&1), "nearest point must be returned");
    assert!(
        ids.contains(&2) || ids.contains(&4),
        "one of the two runner-ups must be returned"
    );
}

#[test]
fn scenario_idempotent_dot_insert() {
    let mut hnsw = HNSWIndex::new(DistanceMetric::Dot, 16, 50, 16, 2);
    hnsw.insert(42, vecf(&[2.0, 2.0])).unwrap();
    hnsw.insert(42, vecf(&[2.0, 2.0])).unwrap();

    let results = hnsw.search(&vecf(&[2.0, 2.0]), 1).unwrap();
    assert_eq!(results.len(), 1);
    assert_eq!(results[0].id, 42);
}

#[test]
fn scenario_dimension_mismatch() {
    let mut hnsw = HNSWIndex::new(DistanceMetric::Euclidean, 16, 50, 16, 3);
    match hnsw.insert(1, vecf(&[1.0, 2.0])) {
        Err(DBError::VectorLengthMismatch { expected, actual }) => {
            assert_eq!(expected, 3);
            assert_eq!(actual, 2);
        }
        other => panic!("Expected VectorLengthMismatch, got: {:?}", other),
    }
}

#[test]
fn scenario_filtered_search_correctness() {
    let hnsw = HNSWIndex::new(DistanceMetric::Euclidean, 16, 50, 16, 2);
    let mut segment = Segment::new(hnsw);

    for i in 0..100i64 {
        let mut payload = Payload::default();
        let parity = if i % 2 == 0 { "even" } else { "odd" };
        payload.set("parity", PayloadValue::Str(parity.into()));
        segment
            .insert(vecf(&[i as f32, 0.0]), Some(payload))
            .unwrap();
    }

    let filter = Filter::Match {
        key: "parity".into(),
        value: PayloadValue::Str("even".into()),
    };
    let results = segment
        .post_filter(&vecf(&[0.0, 0.0]), 10, Some(&filter))
        .unwrap();
    assert!(results.len() <= 10);
    for r in &results {
        let p = segment.get_payload(r.id).unwrap();
        assert_eq!(p.get("parity"), Some(&PayloadValue::Str("even".into())));
    }
}

#[test]
fn scenario_deletion_and_compaction() {
    let hnsw = HNSWIndex::new(DistanceMetric::Euclidean, 16, 50, 16, 2);
    let mut segment = Segment::new(hnsw);

    let id1 = segment.insert(vecf(&[1.0, 1.0]), None).unwrap();
    let id2 = segment.insert(vecf(&[2.0, 2.0]), None).unwrap();
    segment.delete(id1).unwrap();
    segment.purge().unwrap();

    let results = segment.search_unfiltered(&vecf(&[1.0, 1.0]), 5).unwrap();
    assert!(!results.iter().any(|r| r.id == id1));
    assert!(results.iter().any(|r| r.id == id2));
}

#[test]
fn scenario_filter_aware_recall() {
    let hnsw = HNSWIndex::new(DistanceMetric::Euclidean, 16, 64, 16, 2);
    let mut segment = Segment::new(hnsw);

    for i in 0..50 {
        let mut payload = Payload::default();
        payload.set("category", PayloadValue::Str("fruit".into()));
        segment
            .insert(vecf(&[0.1 * i as f32, 1.0]), Some(payload))
            .unwrap();
    }
    for i in 0..50 {
        let mut payload = Payload::default();
        payload.set("category", PayloadValue::Str("furniture".into()));
        segment
            .insert(vecf(&[100.0, 0.1 * i as f32]), Some(payload))
            .unwrap();
    }

    let filter = Filter::Match {
        key: "category".into(),
        value: PayloadValue::Str("fruit".into()),
    };
    let results = segment
        .search_with_filter(&vecf(&[100.0, 1.0]), 10, Some(&filter))
        .unwrap();
    assert!(!results.is_empty());
    for r in &results {
        let p = segment.get_payload(r.id).unwrap();
        assert_eq!(p.get("category"), Some(&PayloadValue::Str("fruit".into())));
    }
}

#[test]
fn scenario_search_on_empty_live_set() {
    let hnsw = HNSWIndex::new(DistanceMetric::Euclidean, 16, 50, 16, 2);
    let mut segment = Segment::new(hnsw);

    let id = segment.insert(vecf(&[1.0, 2.0]), None).unwrap();
    segment.delete(id).unwrap();

    let result = segment.search(&vecf(&[1.0, 2.0]), 1);
    assert!(matches!(result, Err(DBError::SearchError(_))));
}

#[test]
fn euclidean_distance_is_exact_on_integer_grids() {
    // 3-4-5 triangle: the kernel must produce exactly 5.0.
    let d = distance(
        &vecf(&[0.0, 0.0]),
        &vecf(&[3.0, 4.0]),
        DistanceMetric::Euclidean,
    );
    assert_eq!(fb(d), 5.0);

    // The distance of a vector to itself is exactly +0.0.
    let z = distance(
        &vecf(&[1.5, -2.25, 7.0]),
        &vecf(&[1.5, -2.25, 7.0]),
        DistanceMetric::Euclidean,
    );
    assert_eq!(z, 0u32);
}

#[test]
fn dot_distance_is_exact_on_integer_grids() {
    let d = distance(&vecf(&[1.0, 2.0]), &vecf(&[3.0, 4.0]), DistanceMetric::Dot);
    assert_eq!(fb(d), 11.0);

    let n = distance(&vecf(&[1.0, -2.0]), &vecf(&[3.0, 4.0]), DistanceMetric::Dot);
    assert_eq!(fb(n), -5.0);
}

#[test]
fn search_results_are_sorted_and_bounded() {
    let mut hnsw = HNSWIndex::new(DistanceMetric::Euclidean, 8, 32, 8, 2);
    for i in 0..40 {
        hnsw.insert(i, vecf(&[(i as f32) * 0.7, 40.0 - i as f32]))
            .unwrap();
    }
    let results = hnsw.search(&vecf(&[5.0, 5.0]), 7).unwrap();
    assert!(results.len() <= 7);
    for pair in results.windows(2) {
        assert!(pair[0].sort_key <= pair[1].sort_key);
    }
    let mut ids: Vec<u64> = results.iter().map(|r| r.id).collect();
    ids.sort();
    ids.dedup();
    assert_eq!(ids.len(), results.len(), "ids must be distinct");
}

#[test]
fn inverted_index_tracks_live_points() {
    let hnsw = HNSWIndex::new(DistanceMetric::Euclidean, 16, 50, 16, 2);
    let mut segment = Segment::new(hnsw);

    let mut p = Payload::default();
    p.set("color", PayloadValue::Str("red".into()));
    p.set("size", PayloadValue::Int(7));
    let id = segment.insert(vecf(&[1.0, 0.0]), Some(p)).unwrap();

    let reds = segment
        .payload_index()
        .query_exact("color", &PayloadValue::Str("red".into()))
        .unwrap();
    assert!(reds.contains(&id));
    let sevens = segment
        .payload_index()
        .query_exact("size", &PayloadValue::Int(7))
        .unwrap();
    assert!(sevens.contains(&id));

    segment.delete(id).unwrap();
    assert!(segment
        .payload_index()
        .query_exact("color", &PayloadValue::Str("red".into()))
        .is_none());
}

#[test]
fn purge_preserves_vectors_and_payloads() {
    let hnsw = HNSWIndex::new(DistanceMetric::Euclidean, 16, 50, 16, 2);
    let mut segment = Segment::new(hnsw);

    let mut p = Payload::default();
    p.set("label", PayloadValue::Str("kept".into()));
    let id1 = segment.insert(vecf(&[1.0, 2.0]), Some(p.clone())).unwrap();
    let id2 = segment.insert(vecf(&[3.0, 4.0]), None).unwrap();
    segment.delete(id2).unwrap();

    segment.purge().unwrap();

    assert_eq!(segment.get_vector(id1).unwrap(), &vecf(&[1.0, 2.0]));
    assert_eq!(segment.get_payload(id1), Some(&p));
    assert!(segment.get_vector(id2).is_none());
    let results = segment.search(&vecf(&[1.0, 2.0]), 1).unwrap();
    assert_eq!(results[0].id, id1);
}

#[test]
fn deleted_points_are_invisible() {
    let hnsw = HNSWIndex::new(DistanceMetric::Euclidean, 16, 50, 16, 2);
    let mut segment = Segment::new(hnsw);

    let id1 = segment.insert(vecf(&[1.0, 0.0]), None).unwrap();
    let id2 = segment.insert(vecf(&[0.0, 1.0]), None).unwrap();
    segment.delete(id1).unwrap();

    assert!(segment.get_vector(id1).is_none());
    let results = segment.search(&vecf(&[1.0, 0.0]), 5).unwrap();
    assert!(!results.iter().any(|r| r.id == id1));
    assert!(results.iter().any(|r| r.id == id2));

    // Deleting again, or deleting an unknown id, is a quiet no-op.
    segment.delete(id1).unwrap();
    segment.delete(999).unwrap();
}

#[test]
fn segment_ids_auto_increment() {
    let hnsw = HNSWIndex::new(DistanceMetric::Euclidean, 16, 50, 16, 2);
    let mut segment = Segment::new(hnsw);

    let id1 = segment.insert(vecf(&[1.0, 0.0]), None).unwrap();
    let id2 = segment.insert(vecf(&[0.0, 1.0]), None).unwrap();
    assert_eq!(id2, id1 + 1);
}

#[test]
fn cosine_stores_normalized_vectors() {
    let mut hnsw = HNSWIndex::new(DistanceMetric::Cosine, 16, 50, 16, 2);
    hnsw.insert(1, vecf(&[3.0, 4.0])).unwrap();
    let stored = hnsw.get_vector(&1).unwrap();
    let x = fb(stored[0]);
    let y = fb(stored[1]);
    assert!((x - 0.6).abs() < 1e-6);
    assert!((y - 0.8).abs() < 1e-6);

    // A zero vector is stored unchanged.
    hnsw.insert(2, vecf(&[0.0, 0.0])).unwrap();
    assert_eq!(hnsw.get_vector(&2).unwrap(), &vecf(&[0.0, 0.0]));
}

#[test]
fn filtered_search_without_any_matching_seed_is_empty() {
    let hnsw = HNSWIndex::new(DistanceMetric::Euclidean, 16, 50, 16, 2);
    let mut segment = Segment::new(hnsw);
    for i in 0..10 {
        let mut p = Payload::default();
        p.set("category", PayloadValue::Str("fruit".into()));
        segment.insert(vecf(&[i as f32, 0.0]), Some(p)).unwrap();
    }
    // The entry point fails the filter and the inverted index knows no
    // point with this value: the query answers empty.
    let filter = Filter::Match {
        key: "category".into(),
        value: PayloadValue::Str("furniture".into()),
    };
    let results = segment
        .search_with_filter(&vecf(&[0.0, 0.0]), 5, Some(&filter))
        .unwrap();
    assert!(results.is_empty());
}
