use vectordb::errors::DBError;
use vectordb::metric::distance;
use vectordb::types::DistanceMetric;

fn vecb(v: &[f32]) -> Vec<u32> {
    v.iter().map(|x| x.to_bits()).collect()
}

fn fb(b: u32) -> f32 {
    f32::from_bits(b)
}

#[test]
fn test_distance_metrics() {
    let v1 = vecb(&[1.0, 2.0, 3.0]);
    let v2 = vecb(&[4.0, 5.0, 6.0]);

    let cosine = fb(distance(&v1, &v2, DistanceMetric::Cosine));
    assert!(
        cosine >= 0.0 && cosine <= 2.0,
        "Cosine distance out of range: {}",
        cosine
    );

    let dot = fb(distance(&v1, &v2, DistanceMetric::Dot));
    assert!(
        dot > 0.0,
        "Dot product similarity should be positive for aligned vectors: {}",
        dot
    );

    let euclidean = fb(distance(&v1, &v2, DistanceMetric::Euclidean));
    assert!(
        euclidean > 0.0,
        "Euclidean distance should be positive: {}",
        euclidean
    );
}

#[test]
fn test_error_display() {
    let not_found = DBError::NotFound(42);
    assert_eq!(not_found.message(), "Point with ID 42 not found");

    let mismatch = DBError::VectorLengthMismatch {
        expected: 3,
        actual: 5,
    };
    assert!(
        mismatch.message().contains("expected 3"),
        "Mismatch message incorrect"
    );

    let wal = DBError::WALCorrupt("bad header".to_string());
    assert!(wal.message().contains("bad header"));
}

#[test]
fn test_cosine_distance_exact() {
    let v1 = vecb(&[1.0, 0.0]);
    let v2 = vecb(&[0.0, 1.0]);

    let dist = fb(distance(&v1, &v2, DistanceMetric::Cosine));
    assert!((dist - 1.0).abs() < 1e-6);
}
