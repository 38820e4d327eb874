use iroh_sdht::kmeans::{
    dynamic_kmeans, ensure_tier_coverage, initialize_centroids, nearest_center_scalar, run_kmeans,
};
use iroh_sdht::tiering::{TieringManager, MAX_RTT_SAMPLES_PER_NODE};
use iroh_sdht::{NodeId, TieringLevel};

const MS: u64 = 1_000_000;
const SECOND: u64 = 1_000_000_000;
const PENALTY: u128 = 1_500_000_000_000;

fn id(n: u8) -> NodeId {
    [n; 32]
}

#[test]
fn the_nearest_center_is_the_first_of_several() {
    assert_eq!(nearest_center_scalar(10, &vec![0, 20, 12, 8]), 2);
    assert_eq!(nearest_center_scalar(10, &vec![5, 15]), 0);
    assert_eq!(nearest_center_scalar(10, &vec![]), 0);
    assert_eq!(nearest_center_scalar(u64::MAX, &vec![0, u64::MAX]), 1);
}

#[test]
fn initial_centroids_are_spread_evenly() {
    let samples = vec![50, 10, 40, 20, 30];
    assert_eq!(initialize_centroids(&samples, 1), vec![50]);
    assert_eq!(initialize_centroids(&samples, 2), vec![20, 40]);
    assert_eq!(initialize_centroids(&samples, 5), vec![10, 20, 30, 40, 50]);
    assert_eq!(initialize_centroids(&vec![], 3), vec![0]);
}

#[test]
fn clusters_are_numbered_from_the_fastest() {
    let (centroids, assignments, inertia) = run_kmeans(&vec![50, 5, 25], 2);
    assert_eq!(centroids, vec![15, 50]);
    assert_eq!(assignments, vec![1, 0, 0]);
    assert_eq!(inertia, 200);
}

#[test]
fn a_single_cluster_is_the_mean() {
    let (centroids, assignments, inertia) = run_kmeans(&vec![1, 2, 9], 1);
    assert_eq!(centroids, vec![4]);
    assert_eq!(assignments, vec![0, 0, 0]);
    assert_eq!(inertia, 9 + 4 + 25);
}

#[test]
fn inertia_saturates() {
    let (_, _, inertia) = run_kmeans(&vec![0, 0, 0, u64::MAX], 1);
    assert!(inertia < u128::MAX);
    let many = vec![0, 0, 0, 0, 0, 0, u64::MAX, u64::MAX, u64::MAX, u64::MAX, u64::MAX, u64::MAX];
    let (_, _, inertia) = run_kmeans(&many, 1);
    assert_eq!(inertia, u128::MAX);
    let (centroids, assignments) = dynamic_kmeans(&many, 1, 1, 0);
    assert_eq!(centroids, vec![u64::MAX / 2]);
    assert_eq!(assignments, vec![0; 12]);
    // where no number of clusters fits any better, there are as few as allowed
    let (centroids, assignments) = dynamic_kmeans(&many, 2, 5, u128::MAX);
    assert_eq!(centroids, vec![0, u64::MAX]);
    assert_eq!(assignments, vec![0, 0, 0, 0, 0, 0, 1, 1, 1, 1, 1, 1]);
}

#[test]
fn empty_tiers_are_put_back_to_use() {
    let samples = vec![1, 2, 100];
    let mut centroids = vec![1, 500, 100];
    let mut assignments = vec![0, 0, 2];
    ensure_tier_coverage(&samples, &mut centroids, &mut assignments);
    assert_eq!(centroids, vec![1, 2, 100]);
    assert_eq!(assignments, vec![0, 1, 2]);

    let mut centroids = vec![];
    let mut assignments = vec![];
    ensure_tier_coverage(&vec![], &mut centroids, &mut assignments);
    assert!(centroids.is_empty() && assignments.is_empty());

    let mut centroids = vec![1, 100];
    let mut assignments = vec![0, 1, 1];
    ensure_tier_coverage(&samples, &mut centroids, &mut assignments);
    assert_eq!(centroids, vec![1, 100]);
    assert_eq!(assignments, vec![0, 1, 1]);
}

#[test]
fn no_tier_is_left_out_between_equal_centers() {
    let samples = vec![1, 1];
    let mut centroids = vec![1, 1];
    let mut assignments = vec![0, 0];
    ensure_tier_coverage(&samples, &mut centroids, &mut assignments);
    assert_eq!(centroids, vec![1, 1]);
    assert_eq!(assignments, vec![0, 1]);
}

#[test]
fn a_center_that_had_samples_stays() {
    let samples = vec![1, 1, 1, 100];
    let mut centroids = vec![100, 7, 1];
    let mut assignments = vec![2, 2, 2, 0];
    ensure_tier_coverage(&samples, &mut centroids, &mut assignments);
    assert_eq!(centroids, vec![100, 1, 1]);
    assert_eq!(assignments, vec![1, 1, 2, 0]);
}

#[test]
fn equal_samples_fill_every_cluster() {
    let (centroids, assignments, inertia) = run_kmeans(&vec![7, 7, 7], 3);
    assert_eq!(centroids, vec![7, 7, 7]);
    assert_eq!(assignments, vec![0, 1, 2]);
    assert_eq!(inertia, 0);
    let (centroids, assignments, inertia) = run_kmeans(&vec![1, 1, 1, 1, 100], 3);
    assert_eq!(centroids, vec![1, 1, 20]);
    assert_eq!(assignments, vec![0, 0, 0, 1, 2]);
    assert_eq!(inertia, 80 * 80);
    assert_eq!(
        dynamic_kmeans(&vec![5, 5], 2, 2, 1),
        (vec![5, 5], vec![0, 1])
    );
}

#[test]
fn too_few_samples_leave_clusters_empty() {
    let (centroids, assignments, inertia) = run_kmeans(&vec![7], 2);
    assert_eq!(centroids, vec![7, 7]);
    assert_eq!(assignments, vec![0]);
    assert_eq!(inertia, 0);
}

#[test]
fn the_inertia_is_that_of_the_result() {
    let samples = vec![90, 3, 40, 41, 3, 77, 12, 8];
    for k in 1..=8usize {
        let (centroids, assignments, inertia) = run_kmeans(&samples, k);
        let total: u128 = samples
            .iter()
            .zip(&assignments)
            .map(|(sample, t)| (centroids[*t].abs_diff(*sample) as u128).pow(2))
            .sum();
        assert_eq!(inertia, total);
        assert!((0..k).all(|t| assignments.contains(&t)));
    }
}

#[test]
fn the_penalty_decides_how_many_clusters_there_are() {
    let samples = vec![10, 11, 50, 51, 90, 91];
    let (centroids, assignments) = dynamic_kmeans(&samples, 1, 3, 1);
    assert_eq!(centroids, vec![10, 50, 90]);
    assert_eq!(assignments, vec![0, 0, 1, 1, 2, 2]);
    let (centroids, _) = dynamic_kmeans(&samples, 1, 3, 1_000_000);
    assert_eq!(centroids.len(), 1);
    let (centroids, _) = dynamic_kmeans(&samples, 2, 1, 1_000_000);
    assert_eq!(centroids.len(), 2);
    let (centroids, _) = dynamic_kmeans(&samples, 0, 0, 1);
    assert_eq!(centroids.len(), 1);
    assert_eq!(dynamic_kmeans(&vec![], 2, 5, 1), (vec![], vec![]));
}

#[test]
fn faster_samples_are_never_in_slower_clusters() {
    let samples: Vec<u64> = (0..60).map(|i| (i * 7919 + 13) % 401).collect();
    for k in 1..=7usize {
        let (centroids, assignments, _) = run_kmeans(&samples, k);
        assert!(centroids.windows(2).all(|w| w[0] <= w[1]));
        assert!((0..k).all(|t| assignments.contains(&t)));
        for i in 0..samples.len() {
            for j in 0..samples.len() {
                if samples[i] < samples[j] {
                    assert!(assignments[i] <= assignments[j]);
                }
            }
        }
    }
}

#[test]
fn a_new_manager_has_one_tier() {
    let manager = TieringManager::new();
    let stats = manager.stats();
    assert_eq!(stats.centroids, vec![150 * MS]);
    assert_eq!(stats.counts, vec![0]);
    assert_eq!(manager.default_level().index(), 0);
    assert_eq!(manager.slowest_level().index(), 0);
    assert_eq!(manager.level_for(&id(1)), TieringLevel::new(0));
}

#[test]
fn registering_counts_a_peer_once() {
    let mut manager = TieringManager::new();
    assert_eq!(manager.register_contact(&id(1)).index(), 0);
    manager.register_contact(&id(1));
    manager.register_contact(&id(2));
    assert_eq!(manager.stats().counts, vec![2]);
    assert_eq!(manager.sampled_peers_with(&id(1)), 1);
}

#[test]
fn tiers_are_computed_once_two_peers_have_samples() {
    let mut manager = TieringManager::new();
    manager.record_sample(&id(1), 40 * MS, 0, PENALTY);
    assert_eq!(manager.stats().centroids, vec![150 * MS]);
    assert_eq!(manager.sampled_peers_with(&id(1)), 1);
    assert_eq!(manager.sampled_peers_with(&id(2)), 2);
    manager.record_sample(&id(2), 5 * MS, 1, PENALTY);
    let stats = manager.stats();
    assert_eq!(stats.centroids, vec![5 * MS, 40 * MS]);
    assert_eq!(stats.counts, vec![1, 1]);
    assert_eq!(manager.level_for(&id(2)).index(), 0);
    assert_eq!(manager.level_for(&id(1)).index(), 1);
    // a peer of which nothing is known is in the middle tier
    assert_eq!(manager.level_for(&id(9)).index(), 1);
    assert_eq!(manager.slowest_level().index(), 1);
}

#[test]
fn peers_of_one_latency_fill_both_tiers() {
    let mut manager = TieringManager::new();
    manager.record_sample(&id(1), 20 * MS, 0, PENALTY);
    manager.record_sample(&id(2), 20 * MS, 0, PENALTY);
    let stats = manager.stats();
    assert_eq!(stats.centroids, vec![20 * MS, 20 * MS]);
    assert_eq!(stats.counts, vec![1, 1]);
    assert_eq!(manager.level_for(&id(2)), manager.slowest_level());
}

#[test]
fn tiers_stay_for_half_a_minute() {
    let mut manager = TieringManager::new();
    manager.record_sample(&id(1), 10 * MS, 0, PENALTY);
    manager.record_sample(&id(2), 20 * MS, 0, PENALTY);
    manager.record_sample(&id(3), 300 * MS, 29 * SECOND, PENALTY);
    assert_eq!(manager.stats().centroids, vec![10 * MS, 20 * MS]);
    manager.recompute_if_needed(30 * SECOND - 1, PENALTY);
    assert_eq!(manager.stats().centroids, vec![10 * MS, 20 * MS]);
    manager.recompute_if_needed(30 * SECOND, PENALTY);
    let stats = manager.stats();
    assert_eq!(stats.centroids, vec![10 * MS, 20 * MS, 300 * MS]);
    assert_eq!(stats.counts, vec![1, 1, 1]);
    assert_eq!(manager.level_for(&id(3)).index(), 2);
}

#[test]
fn there_are_at_most_five_tiers() {
    let mut manager = TieringManager::new();
    for n in 0..12u8 {
        manager.record_sample(&id(n), n as u64 * 1000 * MS, 0, PENALTY);
    }
    manager.recompute_if_needed(60 * SECOND, PENALTY);
    let stats = manager.stats();
    assert_eq!(stats.centroids.len(), 5);
    assert_eq!(stats.counts.iter().sum::<usize>(), 12);
    for n in 1..12u8 {
        assert!(manager.level_for(&id(n - 1)).index() <= manager.level_for(&id(n)).index());
    }
}

#[test]
fn only_the_latest_samples_count() {
    let mut manager = TieringManager::new();
    manager.record_sample(&id(1), 1000 * MS, 0, PENALTY);
    for _ in 0..MAX_RTT_SAMPLES_PER_NODE {
        manager.record_sample(&id(1), 10 * MS, 0, PENALTY);
    }
    manager.record_sample(&id(2), 21 * MS, 0, PENALTY);
    assert_eq!(manager.stats().centroids, vec![10 * MS, 21 * MS]);
}

#[test]
fn a_mean_is_rounded_down() {
    let mut manager = TieringManager::new();
    manager.record_sample(&id(1), 10, 0, 0);
    manager.record_sample(&id(1), 11, 0, 0);
    manager.record_sample(&id(2), 1000, 0, 0);
    assert_eq!(manager.stats().centroids, vec![10, 1000]);
}
