use spatial_index::Distance;
use spatial_index::KdError;
use spatial_index::KdTree;
use spatial_index::SquaredEuclidean;

/// Squared Euclidean distance computed directly, for cross-checking.
fn brute_dist(a: &[i64], b: &[i64]) -> u64 {
    let mut acc: u128 = 0;
    for i in 0..a.len() {
        let d = (a[i] as i128) - (b[i] as i128);
        acc += (d * d) as u128;
    }
    u64::try_from(acc).unwrap()
}

/// All entries scored against `q` and sorted ascending by score.
fn brute_scored(entries: &[(Vec<i64>, u64)], q: &[i64]) -> Vec<(u64, u64)> {
    let mut all: Vec<(u64, u64)> = entries
        .iter()
        .map(|e| (brute_dist(&e.0, q), e.1))
        .collect();
    all.sort();
    all
}

/// A small deterministic pseudo-random generator for point sets.
fn next_rand(state: &mut u64) -> i64 {
    *state = state.wrapping_mul(6364136223846793005).wrapping_add(1442695040888963407);
    ((*state >> 33) as i64) % 1000 - 500
}

#[test]
fn new_index_is_empty() {
    for dims in 1..6usize {
        let t = KdTree::<f64>::new(dims).unwrap();
        assert_eq!(t.size(), 0);
    }
}

#[test]
fn new_rejects_zero_dimensions() {
    let t = KdTree::<f64>::new(0);
    assert!(matches!(t, Err(KdError::InvalidDimensions)));
}

#[test]
fn add_rejects_wrong_length_and_leaves_size_unchanged() {
    let mut t = KdTree::<f64>::new(1).unwrap();
    let r = t.add(vec![1, 2], 3.0);
    assert!(matches!(r, Err(KdError::DimensionMismatch)));
    assert_eq!(t.size(), 0);
    t.add(vec![7], 1.0).unwrap();
    let r = t.add(vec![], 2.0);
    assert!(matches!(r, Err(KdError::DimensionMismatch)));
    assert_eq!(t.size(), 1);
}

#[test]
fn size_counts_successful_adds() {
    let mut t = KdTree::<f64>::new(3).unwrap();
    for n in 0..40i64 {
        assert_eq!(t.size(), n as usize);
        t.add(vec![n % 7, -n, n * n], n as f64).unwrap();
    }
    assert_eq!(t.size(), 40);
}

#[test]
fn nearest_basic_scenario() {
    let mut t = KdTree::<f64>::new(2).unwrap();
    t.add(vec![1, 2], 3.0).unwrap();
    t.add(vec![6, 9], 4.0).unwrap();
    t.add(vec![3, 7], 5.0).unwrap();
    t.add(vec![7, 4], 6.0).unwrap();

    let nearest = t.nearest(vec![5, 1], 1, &SquaredEuclidean).unwrap();
    assert_eq!(nearest, vec![(13, 6.0)]);

    let nearest_euclidean = t.nearest_euclidean(vec![5, 1], 1).unwrap();
    assert_eq!(nearest_euclidean, vec![(13, 6.0)]);
}

#[test]
fn nearest_rejects_wrong_length() {
    let mut t = KdTree::<f64>::new(2).unwrap();
    t.add(vec![1, 2], 3.0).unwrap();
    let r = t.nearest(vec![5, 1, 2], 1, &SquaredEuclidean);
    assert!(matches!(r, Err(KdError::DimensionMismatch)));
    let r = t.nearest_euclidean(vec![5], 1);
    assert!(matches!(r, Err(KdError::DimensionMismatch)));
}

#[test]
fn within_rejects_wrong_length() {
    let mut t = KdTree::<f64>::new(2).unwrap();
    t.add(vec![1, 2], 3.0).unwrap();
    let r = t.within(vec![5, 1, 2], 1, &SquaredEuclidean);
    assert!(matches!(r, Err(KdError::DimensionMismatch)));
    let r = t.within_euclidean(vec![], 1);
    assert!(matches!(r, Err(KdError::DimensionMismatch)));
}

#[test]
fn within_basic_scenario() {
    let mut t = KdTree::<f64>::new(2).unwrap();
    t.add(vec![1, 2], 3.0).unwrap();

    let within = t.within(vec![2, 1], 20, &SquaredEuclidean).unwrap();
    assert_eq!(within, vec![(2, 3.0)]);

    let within_euclidean = t.within_euclidean(vec![2, 1], 20).unwrap();
    assert_eq!(within_euclidean, vec![(2, 3.0)]);
}

#[test]
fn within_radius_is_inclusive() {
    let mut t = KdTree::<f64>::new(1).unwrap();
    t.add(vec![3], 1.0).unwrap();
    // distance is exactly the radius: the entry is included
    let r = t.within_euclidean(vec![0], 9).unwrap();
    assert_eq!(r, vec![(9, 1.0)]);
    let r = t.within_euclidean(vec![0], 8).unwrap();
    assert_eq!(r, vec![]);
}

#[test]
fn nearest_returns_at_most_k_sorted() {
    let mut t = KdTree::<f64>::new(2).unwrap();
    t.add(vec![0, 0], 1.0).unwrap();
    t.add(vec![10, 0], 2.0).unwrap();
    t.add(vec![0, 10], 3.0).unwrap();
    let r = t.nearest_euclidean(vec![1, 0], 2).unwrap();
    assert_eq!(r.len(), 2);
    assert_eq!(r, vec![(1, 1.0), (81, 2.0)]);
    // asking for more than is stored returns everything, sorted
    let r = t.nearest_euclidean(vec![1, 0], 10).unwrap();
    assert_eq!(r, vec![(1, 1.0), (81, 2.0), (101, 3.0)]);
    // asking for nothing returns nothing
    let r = t.nearest_euclidean(vec![1, 0], 0).unwrap();
    assert_eq!(r, vec![]);
}

#[test]
fn nearest_matches_brute_force_scan() {
    let mut state: u64 = 42;
    let mut t = KdTree::<u64>::new(3).unwrap();
    let mut entries: Vec<(Vec<i64>, u64)> = Vec::new();
    for n in 0..60u64 {
        let p = vec![
            next_rand(&mut state),
            next_rand(&mut state),
            next_rand(&mut state),
        ];
        t.add(p.clone(), n).unwrap();
        entries.push((p, n));
    }
    let q = vec![3, -4, 5];
    let all = brute_scored(&entries, &q);
    for k in [0usize, 1, 2, 7, 59, 60, 100] {
        let got = t.nearest_euclidean(q.clone(), k).unwrap();
        let want = k.min(all.len());
        assert_eq!(got.len(), want);
        // the scores are exactly the k smallest, ascending
        let got_scores: Vec<u64> = got.iter().map(|c| c.0).collect();
        let want_scores: Vec<u64> = all[..want].iter().map(|c| c.0).collect();
        assert_eq!(got_scores, want_scores);
        // every returned payload really lies at its reported distance
        for (score, payload) in &got {
            let entry = entries.iter().find(|e| e.1 == *payload).unwrap();
            assert_eq!(brute_dist(&entry.0, &q), *score);
        }
    }
}

#[test]
fn within_matches_brute_force_scan() {
    let mut state: u64 = 7;
    let mut t = KdTree::<u64>::new(2).unwrap();
    let mut entries: Vec<(Vec<i64>, u64)> = Vec::new();
    for n in 0..50u64 {
        let p = vec![next_rand(&mut state), next_rand(&mut state)];
        t.add(p.clone(), n).unwrap();
        entries.push((p, n));
    }
    let q = vec![10, -10];
    let all = brute_scored(&entries, &q);
    for radius in [0u64, 100, 10_000, 100_000, 1_000_000] {
        let mut got = t.within_euclidean(q.clone(), radius).unwrap();
        let mut want: Vec<(u64, u64)> =
            all.iter().copied().filter(|c| c.0 <= radius).collect();
        // exactly the same multiset of (score, payload) pairs
        got.sort();
        want.sort();
        assert_eq!(got, want);
    }
}

#[test]
fn euclidean_shorthand_agrees_with_explicit_metric() {
    let mut state: u64 = 99;
    let mut t = KdTree::<u64>::new(2).unwrap();
    for n in 0..30u64 {
        let p = vec![next_rand(&mut state), next_rand(&mut state)];
        t.add(p, n).unwrap();
    }
    let q = vec![1, 2];
    for k in [1usize, 5, 30] {
        let a = t.nearest(q.clone(), k, &SquaredEuclidean).unwrap();
        let b = t.nearest_euclidean(q.clone(), k).unwrap();
        assert_eq!(a, b);
    }
    for radius in [100u64, 50_000, 500_000] {
        let a = t.within(q.clone(), radius, &SquaredEuclidean).unwrap();
        let b = t.within_euclidean(q.clone(), radius).unwrap();
        assert_eq!(a, b);
    }
}

#[test]
fn queries_are_read_only_and_repeatable() {
    let mut t = KdTree::<f64>::new(2).unwrap();
    t.add(vec![1, 2], 3.0).unwrap();
    t.add(vec![6, 9], 4.0).unwrap();
    assert_eq!(t.size(), 2);
    assert_eq!(t.size(), 2);
    let a = t.nearest_euclidean(vec![0, 0], 2).unwrap();
    let b = t.nearest_euclidean(vec![0, 0], 2).unwrap();
    assert_eq!(a, b);
    let c = t.within_euclidean(vec![0, 0], 1_000).unwrap();
    let d = t.within_euclidean(vec![0, 0], 1_000).unwrap();
    assert_eq!(c, d);
    assert_eq!(t.size(), 2);
}

#[test]
fn unrepresentable_distance_is_reported() {
    let mut t = KdTree::<f64>::new(1).unwrap();
    t.add(vec![i64::MIN], 1.0).unwrap();
    let r = t.nearest_euclidean(vec![i64::MAX], 1);
    assert!(matches!(r, Err(KdError::DistanceFnError)));
    let r = t.within_euclidean(vec![i64::MAX], u64::MAX);
    assert!(matches!(r, Err(KdError::DistanceFnError)));
    // a representable query against the same index still succeeds
    let r = t.nearest_euclidean(vec![i64::MIN + 10], 1).unwrap();
    assert_eq!(r, vec![(100, 1.0)]);
}

/// Manhattan distance supplied from outside the library, as a caller would.
struct Manhattan;

impl Distance for Manhattan {
    // the mathematical description is ghost code and is never executed
    fn spec_dist(
        &self,
        _a: vstd::prelude::Seq<i64>,
        _b: vstd::prelude::Seq<i64>,
    ) -> vstd::prelude::int {
        unreachable!()
    }

    fn dist(&self, a: &Vec<i64>, b: &Vec<i64>) -> Option<u64> {
        let mut acc: u128 = 0;
        for i in 0..a.len() {
            acc += ((a[i] as i128) - (b[i] as i128)).unsigned_abs();
        }
        u64::try_from(acc).ok()
    }
}

#[test]
fn custom_metric_drives_the_queries() {
    let mut t = KdTree::<f64>::new(2).unwrap();
    t.add(vec![0, 0], 1.0).unwrap();
    t.add(vec![3, 4], 2.0).unwrap();
    t.add(vec![-1, 1], 3.0).unwrap();
    let r = t.nearest(vec![1, 1], 3, &Manhattan).unwrap();
    assert_eq!(r, vec![(2, 1.0), (2, 3.0), (5, 2.0)]);
    let r = t.within(vec![1, 1], 2, &Manhattan).unwrap();
    assert_eq!(r, vec![(2, 1.0), (2, 3.0)]);
}

#[test]
fn duplicate_points_are_all_stored() {
    let mut t = KdTree::<u64>::new(2).unwrap();
    for n in 0..5u64 {
        t.add(vec![5, 5], n).unwrap();
    }
    assert_eq!(t.size(), 5);
    let mut got = t.nearest_euclidean(vec![5, 5], 10).unwrap();
    got.sort();
    assert_eq!(got, vec![(0, 0), (0, 1), (0, 2), (0, 3), (0, 4)]);
    let within = t.within_euclidean(vec![5, 5], 0).unwrap();
    assert_eq!(within.len(), 5);
}

#[test]
fn empty_index_queries_return_empty() {
    let mut t = KdTree::<f64>::new(2).unwrap();
    assert_eq!(t.nearest_euclidean(vec![1, 2], 5).unwrap(), vec![]);
    assert_eq!(t.within_euclidean(vec![1, 2], 100).unwrap(), vec![]);
    assert_eq!(t.nearest(vec![1, 2], 5, &SquaredEuclidean).unwrap(), vec![]);
    assert_eq!(t.within(vec![1, 2], 100, &SquaredEuclidean).unwrap(), vec![]);
}

#[test]
fn drop_consumes_the_index() {
    let mut t = KdTree::<f64>::new(2).unwrap();
    t.add(vec![1, 2], 3.0).unwrap();
    t.drop();
}
