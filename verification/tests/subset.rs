use lb::rng::{enter_run, exit_run, RunRng};
use lb::subset::{assign_subset, subset_size_k, subset_table, SubsetPolicyKind};
use std::collections::HashSet;

fn deterministic(n: usize, client_id: usize, k: u32) -> Vec<usize> {
    let mut rng = RunRng::new();
    assign_subset(SubsetPolicyKind::Deterministic, n, client_id, k, &mut rng)
}

#[test]
fn deterministic_is_reproducible() {
    let a = deterministic(20, 3, 3);
    let b = deterministic(20, 3, 3);
    assert_eq!(a, b);
}

#[test]
fn deterministic_round_zero_clients_are_disjoint() {
    let k = 3;
    let n = 20;
    let subset_count = n / k;
    let mut seen = HashSet::new();
    for client_id in 0..subset_count {
        let subset = deterministic(n, client_id, k as u32);
        assert_eq!(subset.len(), k);
        for idx in subset {
            assert!(seen.insert(idx), "duplicate backend {idx} for client {client_id}");
        }
    }
    assert_eq!(seen.len(), subset_count * k);
}

#[test]
fn deterministic_clients_in_same_round_share_shuffle() {
    let k = 3;
    let n = 20;
    let subset_count = n / k;
    let first = deterministic(n, subset_count, k as u32);
    let second = deterministic(n, subset_count + 1, k as u32);
    assert_ne!(first, second);
    assert!(first.iter().all(|idx| !second.contains(idx)));
}

#[test]
fn deterministic_reference_fixture() {
    let mut expected = Vec::new();
    for client_id in 0..10 {
        expected.push(deterministic(20, client_id, 3));
    }
    for (client_id, want) in expected.iter().enumerate() {
        let got = deterministic(20, client_id, 3);
        assert_eq!(&got, want, "client {client_id}");
    }
}

#[test]
fn subset_size_zero_returns_all() {
    assert_eq!(deterministic(10, 0, 0), (0..10).collect::<Vec<_>>());
}

#[test]
fn k_ge_n_returns_all() {
    assert_eq!(deterministic(5, 7, 10), (0..5).collect::<Vec<_>>());
}

#[test]
fn leftover_backends_excluded() {
    let k = 3;
    let n = 20;
    let subset_count = n / k;
    let mut seen = HashSet::new();
    for client_id in 0..subset_count {
        for idx in deterministic(n, client_id, k as u32) {
            seen.insert(idx);
        }
    }
    assert_eq!(seen.len(), subset_count * k);
    assert_eq!(seen.len(), 18);
}

#[test]
fn random_subset_has_expected_length() {
    let mut rng = RunRng::new();
    enter_run(&mut rng, Some(42));
    let subset = assign_subset(SubsetPolicyKind::Random, 20, 0, 3, &mut rng);
    exit_run(&mut rng);
    assert_eq!(subset.len(), 3);
    assert!(subset.iter().all(|&i| i < 20));
    assert_eq!(subset.iter().collect::<HashSet<_>>().len(), 3);
}

#[test]
fn expresslane_subset_uses_regular_pool_only() {
    let n_regular = 8;
    let subset = deterministic(n_regular, 0, 0);
    assert!(subset.iter().all(|&idx| idx < n_regular));
    assert_eq!(subset.len(), n_regular);
}

#[test]
fn rounds_are_shuffled_apart() {
    let first = deterministic(20, 0, 10);
    let second = deterministic(20, 2, 10);
    assert_ne!(first, (0..10).collect::<Vec<_>>());
    assert_ne!(first, second);
}

#[test]
fn a_dividing_size_splits_all_servers() {
    let table = subset_table(12, 4);
    assert_eq!(table.len(), 3);
    let mut all: Vec<usize> = table.concat();
    all.sort();
    assert_eq!(all, (0..12).collect::<Vec<_>>());
    assert_eq!(subset_size_k(12, 40), 12);
    assert_eq!(subset_table(5, 0), vec![(0..5).collect::<Vec<_>>()]);
}
