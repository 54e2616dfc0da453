use lb::prequal::{apply_r_remove, pool_cap, sample_probe_targets, CandidatePool};
use lb::rng::{enter_run, exit_run, RunRng};

#[test]
fn pool_cap_ceil_fraction() {
    assert_eq!(pool_cap(1), 1);
    assert_eq!(pool_cap(3), 1);
    assert_eq!(pool_cap(4), 1);
    assert_eq!(pool_cap(5), 2);
    assert_eq!(pool_cap(100), 25);
}

#[test]
fn remove_worst_prefers_highest_rif_then_oldest() {
    let mut pool = CandidatePool::new(4);
    pool.ingest_reply(0, 5);
    pool.ingest_reply(1, 9);
    pool.ingest_reply(2, 9);
    let removed = pool.remove_worst().unwrap();
    assert_eq!(removed.server_idx, 1);
    assert_eq!(pool.len(), 2);
}

#[test]
fn select_best_least_rif_oldest_tie() {
    let mut pool = CandidatePool::new(4);
    pool.ingest_reply(3, 2);
    pool.ingest_reply(1, 2);
    pool.ingest_reply(0, 5);
    assert_eq!(pool.select_best(), Some(3));
}

#[test]
fn after_dispatch_increments_and_evicts_on_reuse() {
    let mut pool = CandidatePool::new(4);
    pool.ingest_reply(2, 1);
    pool.after_dispatch(2, 2);
    assert_eq!(pool.entries()[0].rif, 2);
    assert_eq!(pool.entries()[0].uses, 1);
    pool.after_dispatch(2, 2);
    assert!(pool.is_empty());
}

#[test]
fn ingest_at_cap_evicts_oldest() {
    let mut pool = CandidatePool::new(2);
    pool.ingest_reply(0, 1);
    pool.ingest_reply(1, 2);
    pool.ingest_reply(2, 3);
    assert_eq!(pool.len(), 2);
    assert!(!pool.contains(0));
    assert!(pool.contains(1));
    assert!(pool.contains(2));
}

#[test]
fn ingest_duplicate_refreshes_and_marks_newest() {
    let mut pool = CandidatePool::new(2);
    pool.ingest_reply(0, 1);
    pool.ingest_reply(1, 2);
    pool.after_dispatch(0, 10);
    pool.ingest_reply(0, 7);
    assert_eq!(pool.len(), 2);
    assert_eq!(pool.entries()[1].server_idx, 0);
    assert_eq!(pool.entries()[1].rif, 7);
    assert_eq!(pool.entries()[1].uses, 0);
    pool.ingest_reply(2, 0);
    assert!(!pool.contains(1));
    assert!(pool.contains(0));
    assert!(pool.contains(2));
}

#[test]
fn apply_r_remove_fractional() {
    let mut pool = CandidatePool::new(4);
    pool.ingest_reply(0, 1);
    pool.ingest_reply(1, 9);
    let mut accum = 0.0f64;
    let mut step = |pool: &mut CandidatePool| {
        accum += 0.3;
        accum -= apply_r_remove(pool, accum as usize) as f64;
        accum
    };
    let after_one = step(&mut pool);
    assert_eq!(pool.len(), 2);
    assert!((after_one - 0.3).abs() < 1e-9);
    step(&mut pool);
    step(&mut pool);
    let after_four = step(&mut pool);
    assert_eq!(pool.len(), 1);
    assert!(!pool.contains(1));
    assert!((after_four - 0.2).abs() < 1e-9);
}

#[test]
fn removing_more_than_there_are_empties_the_pool() {
    let mut pool = CandidatePool::new(4);
    pool.ingest_reply(0, 1);
    pool.ingest_reply(1, 9);
    assert_eq!(apply_r_remove(&mut pool, 5), 2);
    assert!(pool.is_empty());
    assert_eq!(pool.select_best(), None);
    assert!(pool.remove_worst().is_none());
}

#[test]
fn sample_probe_targets_excludes_pool() {
    let mut rng = RunRng::new();
    enter_run(&mut rng, Some(1));
    let mut pool = CandidatePool::new(4);
    pool.ingest_reply(0, 1);
    pool.ingest_reply(2, 1);
    let targets = sample_probe_targets(4, &pool, 2, &mut rng);
    assert_eq!(targets.len(), 2);
    assert!(!targets.contains(&0));
    assert!(!targets.contains(&2));
    assert_eq!(pool.server_indices(), vec![0, 2]);
    exit_run(&mut rng);
}

#[test]
fn a_pool_for_no_servers_holds_one() {
    assert_eq!(pool_cap(0), 1);
}
