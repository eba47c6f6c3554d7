use country_tiers::fixed::SCALE;
use country_tiers::tiers::{BUCKET_FRACTION, DANGER_CUTOFF, SAFE_CUTOFF};
use country_tiers::{
    classify_by_matrix_row_mean, classify_by_score, create_similarity_matrix, rank_and_bucket,
    rank_and_bucket_default, rank_order, simple_clustering, Tier,
};

#[test]
fn score_thresholds_at_their_boundaries() {
    assert_eq!(classify_by_score(600_000_000), Tier::MostDangerous);
    assert_eq!(classify_by_score(600_000_100), Tier::ModeratelySafe);
    assert_eq!(classify_by_score(800_000_000), Tier::ModeratelySafe);
    assert_eq!(classify_by_score(800_000_100), Tier::Safest);
    assert_eq!(classify_by_score(DANGER_CUTOFF + 1), Tier::ModeratelySafe);
    assert_eq!(classify_by_score(SAFE_CUTOFF + 1), Tier::Safest);
    assert_eq!(classify_by_score(0), Tier::MostDangerous);
    assert_eq!(classify_by_score(-SCALE), Tier::MostDangerous);
    assert_eq!(classify_by_score(SCALE), Tier::Safest);
}

#[test]
fn tier_indices_follow_the_order() {
    assert_eq!(Tier::MostDangerous.index(), 0);
    assert_eq!(Tier::ModeratelySafe.index(), 1);
    assert_eq!(Tier::Safest.index(), 2);
}

#[test]
fn row_mean_classification() {
    // points 0, 1.5 and 0.6 on a line: rows [0, 1.5, 0.6], [1.5, 0, 0.9],
    // [0.6, 0.9, 0] have means 0.7, 0.8 and 0.5
    let data = vec![vec![0], vec![1_500_000_000], vec![600_000_000]];
    let m = create_similarity_matrix(&data).unwrap();
    assert_eq!(m.get(0, 1), 1_500_000_000);
    assert_eq!(m.get(1, 2), 900_000_000);
    assert_eq!(m.row_mean(0), 700_000_000);
    assert_eq!(m.row_mean(1), 800_000_000);
    assert_eq!(m.row_mean(2), 500_000_000);
    assert_eq!(classify_by_matrix_row_mean(&m, 0), Tier::ModeratelySafe);
    assert_eq!(classify_by_matrix_row_mean(&m, 1), Tier::ModeratelySafe);
    assert_eq!(classify_by_matrix_row_mean(&m, 2), Tier::MostDangerous);
    assert_eq!(simple_clustering(&m, vec![0, 0, 0]), vec![1, 1, 0]);
}

#[test]
fn clustering_of_close_entities_is_most_dangerous() {
    let data = vec![vec![0], vec![100_000_000], vec![200_000_000]];
    let m = create_similarity_matrix(&data).unwrap();
    assert_eq!(m.row_mean(0), 100_000_000);
    assert_eq!(simple_clustering(&m, vec![]), vec![0, 0, 0]);
}

#[test]
fn rank_order_is_descending_and_stable() {
    let scores = vec![300, 900, 300, 100, 900];
    assert_eq!(rank_order(&scores), vec![1, 4, 0, 2, 3]);
    assert_eq!(rank_order(&vec![]), Vec::<usize>::new());
}

#[test]
fn buckets_of_ten_at_a_quarter() {
    let scores: Vec<i64> = vec![50, 10, 90, 30, 70, 20, 80, 40, 60, 100];
    let b = rank_and_bucket(&scores, BUCKET_FRACTION);
    assert_eq!(b.most_safe, vec![9, 2]);
    assert_eq!(b.moderately_safe, vec![6, 4, 8, 0, 7, 3]);
    assert_eq!(b.most_dangerous, vec![5, 1]);
    let mut all: Vec<usize> = b
        .most_safe
        .iter()
        .chain(b.moderately_safe.iter())
        .chain(b.most_dangerous.iter())
        .copied()
        .collect();
    all.sort();
    assert_eq!(all, (0..10).collect::<Vec<usize>>());
}

#[test]
fn bucket_sizes_for_each_population() {
    for n in 0..23usize {
        let scores: Vec<i64> = (0..n as i64).map(|i| (i * 7) % 5).collect();
        let b = rank_and_bucket_default(&scores);
        assert_eq!(b.most_safe.len(), n / 4);
        assert_eq!(b.most_dangerous.len(), n / 4);
        assert_eq!(b.moderately_safe.len(), n - 2 * (n / 4));
    }
}

#[test]
fn buckets_with_large_fractions() {
    let scores = vec![1, 2, 3];
    let half = rank_and_bucket(&scores, 500_000_000);
    assert_eq!(half.most_safe, vec![2]);
    assert_eq!(half.moderately_safe, vec![1]);
    assert_eq!(half.most_dangerous, vec![0]);
    let all = rank_and_bucket(&scores, 2 * SCALE as u64);
    assert_eq!(all.most_safe, vec![2, 1, 0]);
    assert!(all.moderately_safe.is_empty());
    assert!(all.most_dangerous.is_empty());
}

#[test]
fn buckets_keep_ties_in_input_order() {
    let scores = vec![5, 5, 5, 5];
    let b = rank_and_bucket_default(&scores);
    assert_eq!(b.most_safe, vec![0]);
    assert_eq!(b.moderately_safe, vec![1, 2]);
    assert_eq!(b.most_dangerous, vec![3]);
}
