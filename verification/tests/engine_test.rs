use parsecdb::flat::FlatIndex;
use parsecdb::types::DistanceMetric;

fn normalize_in_place(vector: &mut [f32]) {
    let magnitude_sq: f32 = vector.iter().map(|v| v * v).sum();
    if magnitude_sq > 0.0 {
        let magnitude = magnitude_sq.sqrt();
        for v in vector.iter_mut() {
            *v /= magnitude;
        }
    }
}

fn to_bits(v: &[f32]) -> Vec<u32> {
    v.iter().map(|x| x.to_bits()).collect()
}

fn calculate_distance(a: &[u32], b: &[u32], metric: DistanceMetric) -> u32 {
    let d: f32 = match metric {
        DistanceMetric::Cosine => {
            let dot: f32 = a
                .iter()
                .zip(b.iter())
                .map(|(x, y)| f32::from_bits(*x) * f32::from_bits(*y))
                .sum();
            1.0 - dot
        }
        DistanceMetric::L2Squared => a
            .iter()
            .zip(b.iter())
            .map(|(x, y)| {
                let diff = f32::from_bits(*x) - f32::from_bits(*y);
                diff * diff
            })
            .sum(),
    };
    d.to_bits()
}

#[test]
fn test_flat_index_cosine() {
    let dim = 128;
    let capacity = 100;

    let mut index = FlatIndex::new(dim, capacity, DistanceMetric::Cosine);

    let mut target = vec![0.5; dim];
    normalize_in_place(&mut target);

    for i in 0..50 {
        let mut noise = vec![0.0; dim];

        noise[i % dim] = 1.0;

        normalize_in_place(&mut noise);
        index
            .insert(i as u64, &to_bits(&noise))
            .expect("Failed to insert noise");
    }

    index
        .insert(999, &to_bits(&target))
        .expect("Failed to insert target");

    let results = index.search(&to_bits(&target), 3, &calculate_distance);

    assert_eq!(results.len(), 3, "Should return exactly K results");

    assert_eq!(results[0].id, 999, "Top result did not match expected ID");

    assert!(
        f32::from_bits(results[0].distance) < 0.0001,
        "Perfect match distance should be ~0.0"
    );

    assert!(f32::from_bits(results[0].distance) <= f32::from_bits(results[1].distance));
    assert!(f32::from_bits(results[1].distance) <= f32::from_bits(results[2].distance));
}

#[test]
fn test_flat_index_l2_squared() {
    let dim = 4;
    let capacity = 10;

    let mut index = FlatIndex::new(dim, capacity, DistanceMetric::L2Squared);

    let target = vec![1.0f32, 1.0, 1.0, 1.0];

    index.insert(1, &to_bits(&[0.0, 0.0, 0.0, 0.0])).unwrap(); // Diff: 1^2 * 4 = 4.0
    index.insert(2, &to_bits(&[1.0, 1.0, 1.0, 1.0])).unwrap(); // Exact match = 0.0
    index.insert(3, &to_bits(&[2.0, 2.0, 2.0, 2.0])).unwrap(); // Diff: 1^2 * 4 = 4.0
    index.insert(4, &to_bits(&[1.0, 1.0, 1.0, 0.0])).unwrap(); // Diff: 1^2 * 1 = 1.0

    let results = index.search(&to_bits(&target), 2, &calculate_distance);

    assert_eq!(results.len(), 2, "Should return K=2 results");

    assert_eq!(results[0].id, 2);
    assert_eq!(f32::from_bits(results[0].distance), 0.0);

    // Second best result should be ID 4 (Distance of 1.0)
    assert_eq!(results[1].id, 4);
    assert_eq!(f32::from_bits(results[1].distance), 1.0);
}

#[test]
fn flat_search_with_k_zero_or_empty_index_is_empty() {
    let mut index = FlatIndex::new(2, 4, DistanceMetric::L2Squared);
    assert!(index.search(&to_bits(&[0.0, 0.0]), 3, &calculate_distance).is_empty());
    index.insert(1, &to_bits(&[1.0, 0.0])).unwrap();
    assert!(index.search(&to_bits(&[0.0, 0.0]), 0, &calculate_distance).is_empty());
}

#[test]
fn flat_search_returns_everything_when_k_exceeds_count() {
    let mut index = FlatIndex::new(1, 4, DistanceMetric::L2Squared);
    index.insert(10, &to_bits(&[3.0])).unwrap();
    index.insert(11, &to_bits(&[1.0])).unwrap();
    index.insert(12, &to_bits(&[2.0])).unwrap();
    let results = index.search(&to_bits(&[0.0]), 10, &calculate_distance);
    let ids: Vec<u64> = results.iter().map(|r| r.id).collect();
    assert_eq!(ids, vec![11, 12, 10]);
    let dists: Vec<f32> = results.iter().map(|r| f32::from_bits(r.distance)).collect();
    assert_eq!(dists, vec![1.0, 4.0, 9.0]);
}

#[test]
fn flat_search_keeps_the_nearest_when_a_nearer_vector_arrives_late() {
    let mut index = FlatIndex::new(1, 8, DistanceMetric::L2Squared);
    for (id, x) in [(1u64, 5.0f32), (2, 4.0), (3, 3.0), (4, 0.5), (5, 2.0)] {
        index.insert(id, &to_bits(&[x])).unwrap();
    }
    let results = index.search(&to_bits(&[0.0]), 2, &calculate_distance);
    let ids: Vec<u64> = results.iter().map(|r| r.id).collect();
    assert_eq!(ids, vec![4, 5]);
}

#[test]
fn flat_insert_refuses_a_vector_of_another_dimension() {
    let mut index = FlatIndex::new(3, 4, DistanceMetric::Cosine);
    let err = index.insert(7, &to_bits(&[1.0, 2.0])).unwrap_err();
    assert_eq!(
        err,
        parsecdb::error::ParsecError::DimensionMismatch { expected: 3, found: 2 }
    );
    assert!(index.search(&to_bits(&[1.0, 0.0, 0.0]), 1, &calculate_distance).is_empty());
    assert_eq!(index.metric(), DistanceMetric::Cosine);
}
