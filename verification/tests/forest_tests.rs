use extended_isolation_forest::{Error, Forest, ForestOptions};
use rand::Rng;
use rand::SeedableRng;

/// One fixed-point unit per 1.0: the library's scale.
const SCALE: i64 = 65536;

fn fp(x: f64) -> i64 {
    (x * SCALE as f64).round() as i64
}

fn fp_point(p: [f64; 3]) -> Vec<i64> {
    vec![fp(p[0]), fp(p[1]), fp(p[2])]
}

fn make_f64_forest() -> Forest {
    let mut rng = rand::rngs::StdRng::seed_from_u64(7);
    let mut values: Vec<Vec<i64>> = Vec::new();
    for _ in 0..6000 {
        values.push(vec![
            fp(rng.gen_range(-4.0..4.0)),
            fp(rng.gen_range(-4.0..4.0)),
            fp(rng.gen_range(10.0..50.0)),
        ]);
    }
    let options = ForestOptions {
        n_trees: 150,
        sample_size: 200,
        max_tree_depth: None,
        extension_level: 1,
    };
    Forest::from_slice(&values, &options, &mut rng).unwrap()
}

fn assert_anomalies_forest_3d_f64(forest: &Forest) {
    let half = (SCALE / 2) as u64;

    // no anomaly
    assert!(forest.score(&fp_point([1.0, 3.0, 25.0])) < half);
    assert!(forest.score(&fp_point([1.0, 3.0, 35.0])) < half);

    // anomalies
    assert!(forest.score(&fp_point([-12.0, 6.0, 25.0])) > half);
    assert!(forest.score(&fp_point([-1.0, 2.0, 60.0])) > half);
    assert!(forest.score(&fp_point([-1.0, 2.0, 0.0])) > half);
}

#[test]
fn score_forest_3d_f64() {
    let forest = make_f64_forest();
    assert_anomalies_forest_3d_f64(&forest);
}

#[test]
fn serialize_forest_3d_f64() {
    let forest = make_f64_forest();
    let records = forest.encode();
    let forest2 = Forest::decode(&records).unwrap();
    assert_anomalies_forest_3d_f64(&forest2);
}

#[test]
fn round_trip_scores_are_identical() {
    let forest = make_f64_forest();
    let forest2 = Forest::decode(&forest.encode()).unwrap();
    for p in [
        [0.0, 0.0, 30.0],
        [1.0, 3.0, 25.0],
        [-12.0, 6.0, 25.0],
        [2.5, -3.5, 48.0],
    ] {
        assert_eq!(forest.score(&fp_point(p)), forest2.score(&fp_point(p)));
    }
}

#[test]
fn decode_rejects_garbage() {
    assert!(Forest::decode(&vec![]).is_none());
    assert!(Forest::decode(&vec![3, 0, 65536, 1]).is_none());
    assert!(Forest::decode(&vec![3, 0, 65536, 1, 7, 7]).is_none());
    // a valid single-leaf forest, then the same with trailing garbage
    assert!(Forest::decode(&vec![3, 0, 65536, 1, 0, 5]).is_some());
    assert!(Forest::decode(&vec![3, 0, 65536, 1, 0, 5, 9]).is_none());
}

#[test]
fn insufficient_training_data_when_set_too_small() {
    let mut rng = rand::rngs::StdRng::seed_from_u64(1);
    let values: Vec<Vec<i64>> = (0..10).map(|i| vec![i, i + 1]).collect();
    let options = ForestOptions {
        n_trees: 5,
        sample_size: 11,
        max_tree_depth: None,
        extension_level: 0,
    };
    match Forest::from_slice(&values, &options, &mut rng) {
        Err(Error::InsufficientTrainingData) => {}
        _ => panic!("expected InsufficientTrainingData"),
    }
}

#[test]
fn insufficient_training_data_when_dimension_zero() {
    let mut rng = rand::rngs::StdRng::seed_from_u64(1);
    let values: Vec<Vec<i64>> = (0..10).map(|_| vec![]).collect();
    let options = ForestOptions {
        n_trees: 5,
        sample_size: 5,
        max_tree_depth: None,
        extension_level: 0,
    };
    match Forest::from_slice(&values, &options, &mut rng) {
        Err(Error::InsufficientTrainingData) => {}
        _ => panic!("expected InsufficientTrainingData"),
    }
}

#[test]
fn extension_level_must_stay_below_dimension() {
    let mut rng = rand::rngs::StdRng::seed_from_u64(1);
    let values: Vec<Vec<i64>> = (0..10).map(|i| vec![i, 2 * i]).collect();
    let options = ForestOptions {
        n_trees: 5,
        sample_size: 5,
        max_tree_depth: None,
        extension_level: 2,
    };
    match Forest::from_slice(&values, &options, &mut rng) {
        Err(Error::ExtensionLevelExceedsDimensions) => {}
        _ => panic!("expected ExtensionLevelExceedsDimensions"),
    }
}

#[test]
fn full_set_subsample_succeeds() {
    // a draw that asks for the whole training set must still succeed
    let mut rng = rand::rngs::StdRng::seed_from_u64(3);
    let values: Vec<Vec<i64>> = (0..40)
        .map(|i| vec![fp(i as f64 * 0.25), fp(20.0 - i as f64 * 0.5)])
        .collect();
    let options = ForestOptions {
        n_trees: 10,
        sample_size: 40,
        max_tree_depth: None,
        extension_level: 1,
    };
    let forest = Forest::from_slice(&values, &options, &mut rng).unwrap();
    let s = forest.score(&vec![fp(1.0), fp(10.0)]);
    assert!(s <= SCALE as u64);
}

#[test]
fn score_is_deterministic() {
    let mut rng = rand::rngs::StdRng::seed_from_u64(5);
    let values: Vec<Vec<i64>> = (0..100)
        .map(|i| vec![fp((i % 17) as f64), fp((i % 23) as f64), fp((i % 31) as f64)])
        .collect();
    let options = ForestOptions {
        n_trees: 25,
        sample_size: 50,
        max_tree_depth: Some(6),
        extension_level: 2,
    };
    let forest = Forest::from_slice(&values, &options, &mut rng).unwrap();
    let point = vec![fp(3.0), fp(4.0), fp(5.0)];
    let a = forest.score(&point);
    let b = forest.score(&point);
    assert_eq!(a, b);
}

#[test]
fn default_options() {
    let options = ForestOptions::default();
    assert_eq!(options.n_trees, 20);
    assert_eq!(options.sample_size, 20);
    assert!(options.max_tree_depth.is_none());
    assert_eq!(options.extension_level, 0);
}

/// Walks an encoded forest and returns the non-zero coordinate count of
/// every internal node's normal vector.
fn normal_nonzero_counts(records: &[i64]) -> Vec<usize> {
    let dim = records[0] as usize;
    let n_trees = records[3] as usize;
    let mut counts = Vec::new();
    let mut pos = 4;
    let mut remaining_nodes = n_trees;
    while remaining_nodes > 0 {
        remaining_nodes -= 1;
        match records[pos] {
            0 => pos += 2,
            1 => {
                let normal = &records[pos + 1..pos + 1 + dim];
                counts.push(normal.iter().filter(|v| **v != 0).count());
                pos += 1 + 2 * dim;
                remaining_nodes += 2;
            }
            _ => panic!("unknown node tag"),
        }
    }
    assert_eq!(pos, records.len());
    counts
}

#[test]
fn extension_level_zero_gives_axis_aligned_splits() {
    let mut rng = rand::rngs::StdRng::seed_from_u64(11);
    let values: Vec<Vec<i64>> = (0..200)
        .map(|i| vec![fp((i % 13) as f64), fp((i % 7) as f64 * 2.0), fp((i % 29) as f64)])
        .collect();
    let options = ForestOptions {
        n_trees: 20,
        sample_size: 64,
        max_tree_depth: None,
        extension_level: 0,
    };
    let forest = Forest::from_slice(&values, &options, &mut rng).unwrap();
    let counts = normal_nonzero_counts(&forest.encode());
    assert!(!counts.is_empty());
    assert!(counts.iter().all(|c| *c == 1));
}

#[test]
fn extension_level_bounds_oblique_splits() {
    let mut rng = rand::rngs::StdRng::seed_from_u64(12);
    let values: Vec<Vec<i64>> = (0..200)
        .map(|i| vec![fp((i % 13) as f64), fp((i % 7) as f64 * 2.0), fp((i % 29) as f64)])
        .collect();
    let options = ForestOptions {
        n_trees: 20,
        sample_size: 64,
        max_tree_depth: None,
        extension_level: 1,
    };
    let forest = Forest::from_slice(&values, &options, &mut rng).unwrap();
    let counts = normal_nonzero_counts(&forest.encode());
    assert!(!counts.is_empty());
    assert!(counts.iter().all(|c| *c == 2));
}
