use rand::Rng;
use vectordb::errors::DBError;
use vectordb::hnsw::HNSWIndex;
use vectordb::metric::distance;
use vectordb::types::{DistanceMetric, Vector};

fn vecf(v: &[f32]) -> Vector {
    println!("Creating vector: {:?}", v);
    v.iter().map(|x| x.to_bits()).collect()
}

fn fb(b: u32) -> f32 {
    f32::from_bits(b)
}

fn generate_points(n: usize, dim: usize, spread: f32) -> Vec<Vector> {
    println!(
        "Generating {} points with dimension {} and spread {}",
        n, dim, spread
    );
    let mut rng = rand::rng();
    let points = (0..n)
        .map(|i| {
            let point = (0..dim)
                .map(|_| rng.random_range(-spread..spread).to_bits())
                .collect::<Vec<u32>>();
            println!("Generated point {}: {:?}", i, point);
            point
        })
        .collect();
    println!("Point generation complete");
    points
}

#[test]
fn test_all_metrics_consistency() {
    println!("Starting test_all_metrics_consistency");

    for &metric in &[
        DistanceMetric::Euclidean,
        DistanceMetric::Cosine,
        DistanceMetric::Dot,
    ] {
        println!("Testing with metric: {:?}", metric);
        let mut hnsw = HNSWIndex::new(metric, 16, 64, 16, 4);
        println!("Created HNSW index with dimension 4");
        let points = generate_points(50, 4, 10.0);

        println!("Inserting {} points into index", points.len());
        for (i, vec) in points.iter().enumerate() {
            hnsw.insert(i as u64, vec.clone()).unwrap();
        }
        println!("All points inserted");

        let query = points[0].clone();
        println!("Searching for query vector: {:?}", query);
        let results = hnsw.search(&query, 10).unwrap();
        println!("Search returned {} results", results.len());

        assert!(!results.is_empty(), "Results should not be empty");

        let best = &results[0];
        println!(
            "Best match ID: {}, raw_score: {}",
            best.id,
            fb(best.raw_score)
        );

        match metric {
            DistanceMetric::Dot => {
                let all_dots: Vec<f32> = points
                    .iter()
                    .map(|v| fb(distance(&query, v, DistanceMetric::Dot)))
                    .collect();

                let max_dot = all_dots.iter().cloned().fold(f32::NEG_INFINITY, f32::max);
                assert!(
                    (fb(best.raw_score) - max_dot).abs() < 1e-5,
                    "Dot: Top result had raw_score {}, but max dot was {}",
                    fb(best.raw_score),
                    max_dot
                );
            }
            _ => {
                let actual_dist = fb(distance(&query, &points[best.id as usize], metric));
                assert!(
                    actual_dist <= 1e-4,
                    "{:?}: Expected best match to be original query, distance was {}",
                    metric,
                    actual_dist
                );
            }
        }
    }

    println!("Completed test_all_metrics_consistency");
}

#[test]
fn test_large_insertion_and_ranking_accuracy() {
    println!("Starting test_large_insertion_and_ranking_accuracy");
    let mut hnsw = HNSWIndex::new(DistanceMetric::Euclidean, 32, 64, 16, 3);
    println!("Created HNSW index with Euclidean metric and dimension 3");

    let mut vectors = Vec::new();
    println!("Inserting 300 sequential vectors");
    for i in 0..300 {
        let vec = vecf(&[i as f32, i as f32, i as f32]);
        hnsw.insert(i, vec.clone()).unwrap();
        vectors.push((i, vec));
    }
    println!("Insertion complete");

    let query = vecf(&[0.0, 0.0, 0.0]);
    let results = hnsw.search(&query, 5).unwrap();
    println!("Search returned {} results", results.len());

    for (i, result) in results.iter().enumerate() {
        println!("Result {}: ID={}, score={}", i, result.id, fb(result.raw_score));
    }

    let ids: Vec<_> = results.iter().map(|r| r.id).collect();
    println!("Result IDs in order: {:?}", ids);

    // Check that the nearest inserted point (id=0) is first
    assert_eq!(ids[0], 0, "First result should be ID 0");
    assert_eq!(results.len(), 5, "Should return exactly 5 results");

    // Check sorted by distance
    for pair in results.windows(2) {
        assert!(
            fb(pair[0].raw_score) <= fb(pair[1].raw_score),
            "Results not sorted by distance: {} > {}",
            fb(pair[0].raw_score),
            fb(pair[1].raw_score)
        );
    }
    println!("Completed test_large_insertion_and_ranking_accuracy");
}

#[test]
fn test_dot_product_prefers_larger_magnitudes() {
    let mut hnsw = HNSWIndex::new(DistanceMetric::Dot, 16, 50, 16, 2);

    hnsw.insert(1, vecf(&[1.0, 1.0])).unwrap();
    hnsw.insert(2, vecf(&[10.0, 10.0])).unwrap();
    hnsw.insert(3, vecf(&[-1.0, -1.0])).unwrap();

    let query = vecf(&[1.0, 1.0]);
    let results = hnsw.search(&query, 3).unwrap();

    for (i, result) in results.iter().enumerate() {
        println!("Result {}: ID={}, score={}", i, result.id, fb(result.raw_score));
    }

    assert_eq!(
        results[0].id, 2,
        "First result should be ID 2 (with larger magnitude)"
    );
}

#[test]
fn test_cosine_distance_with_opposite_vectors() {
    let mut hnsw = HNSWIndex::new(DistanceMetric::Cosine, 16, 50, 16, 3);

    hnsw.insert(1, vecf(&[1.0, 0.0, 0.0])).unwrap();
    hnsw.insert(2, vecf(&[-1.0, 0.0, 0.0])).unwrap();

    let query = vecf(&[1.0, 0.0, 0.0]);
    let results = hnsw.search(&query, 2).unwrap();

    assert_eq!(results[0].id, 1, "First result should be ID 1 (same direction)");
    assert_eq!(
        results[1].id, 2,
        "Second result should be ID 2 (opposite direction)"
    );
}

#[test]
fn test_idempotent_insert_and_query() {
    let mut hnsw = HNSWIndex::new(DistanceMetric::Euclidean, 16, 50, 16, 2);

    hnsw.insert(1, vecf(&[3.0, 4.0])).unwrap();
    hnsw.insert(1, vecf(&[3.0, 4.0])).unwrap(); // Should be ignored

    let query = vecf(&[3.0, 4.0]);
    let results = hnsw.search(&query, 1).unwrap();

    assert_eq!(results.len(), 1, "Should return exactly 1 result");
    assert_eq!(results[0].id, 1, "Result should have ID 1");
}

#[test]
fn test_empty_index_search_returns_empty() {
    let hnsw = HNSWIndex::new(DistanceMetric::Euclidean, 16, 50, 16, 2);

    let query = vecf(&[0.0, 0.0]);
    let results = hnsw.search(&query, 10).unwrap();

    assert!(results.is_empty(), "Results should be empty for empty index");
}

#[test]
fn test_dimension_mismatch_is_handled() {
    let mut hnsw = HNSWIndex::new(DistanceMetric::Cosine, 16, 50, 16, 5);

    hnsw.insert(1, vecf(&[1.0, 1.0, 1.0, 1.0, 1.0])).unwrap();

    let bad_vec = vecf(&[1.0, 2.0]);

    match hnsw.insert(2, bad_vec.clone()) {
        Err(DBError::VectorLengthMismatch { expected, actual }) => {
            assert_eq!(expected, 5, "Expected dimension should be 5");
            assert_eq!(actual, 2, "Actual dimension should be 2");
        }
        other => {
            panic!("Expected VectorLengthMismatch, got: {:?}", other);
        }
    }

    match hnsw.search(&bad_vec, 1) {
        Err(DBError::VectorLengthMismatch { expected, actual }) => {
            assert_eq!(expected, 5, "Expected dimension should be 5");
            assert_eq!(actual, 2, "Actual dimension should be 2");
        }
        other => {
            panic!("Expected VectorLengthMismatch, got: {:?}", other);
        }
    }
}

#[test]
fn test_search_k_greater_than_total_points() {
    let mut hnsw = HNSWIndex::new(DistanceMetric::Euclidean, 16, 50, 16, 2);
    hnsw.insert(1, vecf(&[1.0, 2.0])).unwrap();
    hnsw.insert(2, vecf(&[2.0, 3.0])).unwrap();

    let results = hnsw.search(&vecf(&[1.5, 2.5]), 10).unwrap();
    assert_eq!(results.len(), 2); // Only 2 points in index
}

#[test]
fn test_single_insertion_exact_retrieval() {
    let mut hnsw = HNSWIndex::new(DistanceMetric::Euclidean, 16, 50, 16, 2);
    let vec = vecf(&[3.14, 2.71]);
    hnsw.insert(42, vec.clone()).unwrap();

    let results = hnsw.search(&vec, 1).unwrap();
    assert_eq!(results.len(), 1);
    assert_eq!(results[0].id, 42);
    assert!(fb(results[0].raw_score) <= 1e-6, "Distance should be ~0.0");
}

#[test]
fn test_insertion_order_independence() {
    let mut hnsw = HNSWIndex::new(DistanceMetric::Euclidean, 16, 50, 16, 2);

    // Insert in non-sorted order
    hnsw.insert(100, vecf(&[5.0, 5.0])).unwrap();
    hnsw.insert(200, vecf(&[1.0, 1.0])).unwrap();
    hnsw.insert(300, vecf(&[3.0, 3.0])).unwrap();

    // Closest to [2.9, 2.9] should be ID 300
    let results = hnsw.search(&vecf(&[2.9, 2.9]), 1).unwrap();
    assert_eq!(results[0].id, 300);
}

#[test]
fn test_dense_cloud_retrieval_accuracy() {
    let mut hnsw = HNSWIndex::new(DistanceMetric::Euclidean, 16, 64, 16, 3);
    let center = vecf(&[0.0, 0.0, 0.0]);

    // Insert many points around the origin
    for i in 0..500 {
        let offset = i as f32 * 0.01;
        hnsw.insert(i, vecf(&[offset, offset, offset])).unwrap();
    }

    // Closest to center should be ID 0
    let results = hnsw.search(&center, 5).unwrap();
    assert_eq!(results[0].id, 0);
}

#[test]
fn test_high_dimensional_accuracy() {
    // Use 64 as the dimensionality
    let dim = 64;
    let m = 16;
    let ef = 64;
    let max_level_cap = 16;

    let mut hnsw = HNSWIndex::new(DistanceMetric::Euclidean, m, ef, max_level_cap, dim);

    // Insert two far-apart high-dimensional vectors
    hnsw.insert(1, vecf(&vec![1.0; dim])).unwrap();
    hnsw.insert(2, vecf(&vec![100.0; dim])).unwrap();

    let query = vecf(&vec![1.0; dim]);
    let results = hnsw.search(&query, 1).unwrap();

    assert_eq!(results[0].id, 1, "Expected ID 1 to be closest to query");
}

#[test]
fn test_stable_search_results() {
    let mut hnsw = HNSWIndex::new(DistanceMetric::Cosine, 16, 64, 16, 3);
    for i in 0..100 {
        hnsw.insert(i, vecf(&[i as f32, 1.0, 0.0])).unwrap();
    }

    let query = vecf(&[50.0, 1.0, 0.0]);

    let first = hnsw.search(&query, 5).unwrap();
    let second = hnsw.search(&query, 5).unwrap();

    assert_eq!(first, second, "Search results should be deterministic");
}
