use lb::load_registry::LoadRegistry;
use lb::policy::{
    lighter_of, lightest, validate_approx_sched, validate_approx_share, validate_centralized_sched,
    validate_centralized_subset, validate_jbsq_n, validate_no_bind, validate_prequal_subset,
    validate_pull_policy, AnyPolicy, ApproxSchedKind, CentralizedSchedKind, LoadBalancePolicy,
    LoadBalancePolicyKind, PowerOfTwoPolicy, PullPolicyKind, RandomPolicy, RoundRobinPolicy,
};
use lb::rng::{enter_run, exit_run, random_bits, random_usize_range, shuffle, RunRng};
use lb::subset::SubsetPolicyKind;

#[test]
fn centralized_policy_kind_is_centralized() {
    assert!(LoadBalancePolicyKind::Centralized.is_centralized());
    assert!(!LoadBalancePolicyKind::PowerOfTwo.is_centralized());
}

#[test]
fn approx_policy_kind_is_approx() {
    assert!(LoadBalancePolicyKind::Approx.is_approx());
    assert!(!LoadBalancePolicyKind::ApproxShare.is_approx());
    assert!(LoadBalancePolicyKind::Approx.uses_approx_protocol());
    assert!(LoadBalancePolicyKind::ApproxShare.uses_approx_protocol());
    assert!(LoadBalancePolicyKind::ApproxShare.is_approx_share());
    assert!(!LoadBalancePolicyKind::PowerOfTwo.is_approx());
}

#[test]
fn prequal_policy_kind_flags() {
    assert!(LoadBalancePolicyKind::Prequal.is_prequal());
    assert!(!LoadBalancePolicyKind::Prequal.is_pull_based());
    assert!(!LoadBalancePolicyKind::PowerOfTwo.is_prequal());
}

#[test]
fn prequal_ingress_is_power_of_two() {
    let mut rng = RunRng::new();
    enter_run(&mut rng, Some(42));
    let mut prequal = LoadBalancePolicyKind::Prequal.ingress_policy();
    let loads = [3u32, 0, 7, 2];
    let prequal_pick = prequal.select(&loads, &mut rng);

    enter_run(&mut rng, Some(42));
    let mut p2c = PowerOfTwoPolicy;
    assert_eq!(p2c.select(&loads, &mut rng), prequal_pick);
    exit_run(&mut rng);
}

#[test]
fn validate_prequal_subset_rejects_nonzero() {
    assert!(validate_prequal_subset(LoadBalancePolicyKind::Prequal, 0).is_ok());
    let err = validate_prequal_subset(LoadBalancePolicyKind::Prequal, 3).unwrap_err();
    assert!(err.contains("--lb-subset-size is not supported"));
    assert!(validate_prequal_subset(LoadBalancePolicyKind::PowerOfTwo, 3).is_ok());
}

#[test]
fn validate_centralized_subset_ok_partition() {
    assert!(validate_centralized_subset(
        LoadBalancePolicyKind::Centralized,
        12,
        2,
        6,
        SubsetPolicyKind::Deterministic,
    )
    .is_ok());
    assert!(validate_centralized_subset(
        LoadBalancePolicyKind::Centralized,
        12,
        4,
        6,
        SubsetPolicyKind::Deterministic,
    )
    .is_ok());
    assert!(validate_centralized_subset(
        LoadBalancePolicyKind::Centralized,
        12,
        3,
        0,
        SubsetPolicyKind::Random,
    )
    .is_ok());
    assert!(validate_centralized_subset(
        LoadBalancePolicyKind::PowerOfTwo,
        12,
        3,
        5,
        SubsetPolicyKind::Random,
    )
    .is_ok());
}

#[test]
fn validate_centralized_subset_rejects_non_divisor() {
    let err = validate_centralized_subset(
        LoadBalancePolicyKind::Centralized,
        12,
        2,
        5,
        SubsetPolicyKind::Deterministic,
    )
    .unwrap_err();
    assert!(err.contains("must evenly divide"));
}

#[test]
fn validate_centralized_subset_rejects_clients_not_divisible() {
    let err = validate_centralized_subset(
        LoadBalancePolicyKind::Centralized,
        12,
        3,
        6,
        SubsetPolicyKind::Deterministic,
    )
    .unwrap_err();
    assert!(err.contains("must be divisible by the subset count"));
}

#[test]
fn validate_centralized_subset_rejects_random() {
    let err = validate_centralized_subset(
        LoadBalancePolicyKind::Centralized,
        12,
        2,
        6,
        SubsetPolicyKind::Random,
    )
    .unwrap_err();
    assert!(err.contains("random is not supported"));
}

#[test]
fn approx_ingress_is_power_of_two() {
    let mut rng = RunRng::new();
    enter_run(&mut rng, Some(42));
    let mut approx = LoadBalancePolicyKind::Approx.ingress_policy();
    let loads = [3u32, 0, 7, 2];
    let approx_pick = approx.select(&loads, &mut rng);

    enter_run(&mut rng, Some(42));
    let mut centralized = LoadBalancePolicyKind::Centralized.ingress_policy();
    assert_eq!(centralized.select(&loads, &mut rng), approx_pick);
    exit_run(&mut rng);
}

#[test]
fn policy_validate_pull_policy_required_for_approx() {
    let err = validate_pull_policy(LoadBalancePolicyKind::Approx, None).unwrap_err();
    assert!(err.contains("--pull-policy is required"));
}

#[test]
fn policy_validate_pull_policy_rejected_without_approx() {
    let err = validate_pull_policy(
        LoadBalancePolicyKind::PowerOfTwo,
        Some(PullPolicyKind::LeastRequest),
    )
    .unwrap_err();
    assert!(err.contains("--pull-policy is only valid"));
}

#[test]
fn pull_policy_kind_build_delegates_to_push_policies() {
    let loads = [5u32, 1, 3];
    let mut rng = RunRng::new();
    let mut pull_lr = PullPolicyKind::LeastRequest.build();
    let mut lb_lr = LoadBalancePolicyKind::LeastRequest.build();
    assert_eq!(
        pull_lr.select(&loads, &mut rng),
        lb_lr.select(&loads, &mut rng)
    );
}

#[test]
fn cl_policy_kind_is_cl() {
    assert!(LoadBalancePolicyKind::Cl.is_cl());
    assert!(!LoadBalancePolicyKind::PowerOfTwo.is_cl());
}

#[test]
fn corr_policy_kind_is_corr() {
    assert!(LoadBalancePolicyKind::Corr.is_corr());
    assert!(!LoadBalancePolicyKind::PowerOfTwo.is_corr());
}

#[test]
fn uses_shared_downstream_for_cl_centralized_and_corr() {
    assert!(LoadBalancePolicyKind::Cl.uses_shared_downstream());
    assert!(LoadBalancePolicyKind::ClLr.uses_shared_downstream());
    assert!(LoadBalancePolicyKind::ClR.uses_shared_downstream());
    assert!(LoadBalancePolicyKind::ClRr.uses_shared_downstream());
    assert!(LoadBalancePolicyKind::Centralized.uses_shared_downstream());
    assert!(LoadBalancePolicyKind::Jbsq.uses_shared_downstream());
    assert!(LoadBalancePolicyKind::Corr.uses_shared_downstream());
    assert!(!LoadBalancePolicyKind::PowerOfTwo.uses_shared_downstream());
}

#[test]
fn jbsq_policy_kind_flags() {
    assert!(LoadBalancePolicyKind::Jbsq.is_jbsq());
    assert!(LoadBalancePolicyKind::Jbsq.uses_central_pull_queue());
    assert!(LoadBalancePolicyKind::Centralized.uses_central_pull_queue());
    assert!(!LoadBalancePolicyKind::Jbsq.is_centralized());
    assert!(LoadBalancePolicyKind::Jbsq.is_pull_based());
    assert!(LoadBalancePolicyKind::Jbsq.is_ms_only());
    assert!(!LoadBalancePolicyKind::PowerOfTwo.is_jbsq());
}

#[test]
fn is_ms_only_for_cl_cl_lr_corr_and_approx_share() {
    assert!(LoadBalancePolicyKind::Cl.is_ms_only());
    assert!(LoadBalancePolicyKind::ClLr.is_ms_only());
    assert!(LoadBalancePolicyKind::ClR.is_ms_only());
    assert!(LoadBalancePolicyKind::ClRr.is_ms_only());
    assert!(LoadBalancePolicyKind::Corr.is_ms_only());
    assert!(LoadBalancePolicyKind::ApproxShare.is_ms_only());
    assert!(LoadBalancePolicyKind::Jbsq.is_ms_only());
    assert!(!LoadBalancePolicyKind::Approx.is_ms_only());
    assert!(!LoadBalancePolicyKind::Centralized.is_ms_only());
    assert!(!LoadBalancePolicyKind::PowerOfTwo.is_ms_only());
}

#[test]
fn validate_jbsq_n_rules() {
    assert!(validate_jbsq_n(LoadBalancePolicyKind::Jbsq, Some(1)).is_ok());
    assert!(validate_jbsq_n(LoadBalancePolicyKind::Jbsq, Some(3)).is_ok());
    let err = validate_jbsq_n(LoadBalancePolicyKind::Jbsq, None).unwrap_err();
    assert!(err.contains("--jbsq-n is required"));
    let err = validate_jbsq_n(LoadBalancePolicyKind::Jbsq, Some(0)).unwrap_err();
    assert!(err.contains("must be >= 1"));
    let err = validate_jbsq_n(LoadBalancePolicyKind::Centralized, Some(2)).unwrap_err();
    assert!(err.contains("only valid with --lb-policy jbsq"));
    assert!(validate_jbsq_n(LoadBalancePolicyKind::PowerOfTwo, None).is_ok());
}

#[test]
fn validate_centralized_sched_allows_edf_for_jbsq() {
    assert!(
        validate_centralized_sched(LoadBalancePolicyKind::Jbsq, CentralizedSchedKind::Edf).is_ok()
    );
    let err =
        validate_centralized_sched(LoadBalancePolicyKind::PowerOfTwo, CentralizedSchedKind::Edf)
            .unwrap_err();
    assert!(err.contains("centralized or jbsq"));
}

#[test]
fn validate_approx_share_rules() {
    assert!(validate_approx_share(LoadBalancePolicyKind::ApproxShare, 1).is_ok());
    assert!(validate_approx_share(LoadBalancePolicyKind::ApproxShare, 3).is_ok());
    let err = validate_approx_share(LoadBalancePolicyKind::ApproxShare, 0).unwrap_err();
    assert!(err.contains("must be >= 1"));
    assert!(validate_approx_share(LoadBalancePolicyKind::Approx, 1).is_ok());
    let err = validate_approx_share(LoadBalancePolicyKind::Approx, 2).unwrap_err();
    assert!(err.contains("only valid with --lb-policy approx-share"));
    assert!(validate_prequal_subset(LoadBalancePolicyKind::ApproxShare, 0).is_ok());
    let err = validate_prequal_subset(LoadBalancePolicyKind::ApproxShare, 3).unwrap_err();
    assert!(err.contains("--lb-subset-size is not supported"));
}

#[test]
fn cl_lr_ingress_is_power_of_two() {
    let mut rng = RunRng::new();
    enter_run(&mut rng, Some(42));
    let mut cl = LoadBalancePolicyKind::Cl.ingress_policy();
    let loads = [3u32, 0, 7, 2];
    let cl_pick = cl.select(&loads, &mut rng);

    enter_run(&mut rng, Some(42));
    let mut cl_lr = LoadBalancePolicyKind::ClLr.ingress_policy();
    assert_eq!(cl_lr.select(&loads, &mut rng), cl_pick);
    exit_run(&mut rng);
}

#[test]
fn cl_r_and_cl_rr_ingress_is_power_of_two() {
    let mut rng = RunRng::new();
    enter_run(&mut rng, Some(42));
    let mut cl = LoadBalancePolicyKind::Cl.ingress_policy();
    let loads = [3u32, 0, 7, 2];
    let cl_pick = cl.select(&loads, &mut rng);

    enter_run(&mut rng, Some(42));
    let mut cl_r = LoadBalancePolicyKind::ClR.ingress_policy();
    assert_eq!(cl_r.select(&loads, &mut rng), cl_pick);

    enter_run(&mut rng, Some(42));
    let mut cl_rr = LoadBalancePolicyKind::ClRr.ingress_policy();
    assert_eq!(cl_rr.select(&loads, &mut rng), cl_pick);
    exit_run(&mut rng);
}

#[test]
fn cl_lr_downstream_is_least_request() {
    let mut rng = RunRng::new();
    let mut policy = LoadBalancePolicyKind::ClLr.downstream_push_policy();
    let loads = [5u32, 1, 3];
    assert_eq!(policy.select(&loads, &mut rng), 1);
}

#[test]
fn cl_r_downstream_is_random() {
    let mut rng = RunRng::new();
    enter_run(&mut rng, Some(7));
    let mut expected = RandomPolicy;
    let loads = [5u32, 1, 3, 2];
    let expected_pick = expected.select(&loads, &mut rng);

    enter_run(&mut rng, Some(7));
    let mut policy = LoadBalancePolicyKind::ClR.downstream_push_policy();
    assert_eq!(policy.select(&loads, &mut rng), expected_pick);
    exit_run(&mut rng);
}

#[test]
fn cl_rr_downstream_is_round_robin() {
    let mut rng = RunRng::new();
    enter_run(&mut rng, Some(11));
    let mut expected = RoundRobinPolicy::new();
    let loads = [5u32, 1, 3, 2];
    let expected_picks: Vec<usize> = (0..8).map(|_| expected.select(&loads, &mut rng)).collect();

    enter_run(&mut rng, Some(11));
    let mut policy = LoadBalancePolicyKind::ClRr.downstream_push_policy();
    let actual_picks: Vec<usize> = (0..8).map(|_| policy.select(&loads, &mut rng)).collect();
    assert_eq!(actual_picks, expected_picks);
    exit_run(&mut rng);
}

#[test]
fn validate_approx_sched_requires_approx_and_ms_for_edf() {
    assert!(validate_approx_sched(
        LoadBalancePolicyKind::Approx,
        Some(ApproxSchedKind::Edf),
        true,
    )
    .is_ok());
    assert!(validate_approx_sched(
        LoadBalancePolicyKind::ApproxShare,
        Some(ApproxSchedKind::EdfPlus),
        true,
    )
    .is_ok());
    assert!(validate_approx_sched(
        LoadBalancePolicyKind::Approx,
        Some(ApproxSchedKind::Fcfs),
        false,
    )
    .is_ok());
    assert!(validate_approx_sched(LoadBalancePolicyKind::Approx, None, false).is_ok());
    let err = validate_approx_sched(
        LoadBalancePolicyKind::PowerOfTwo,
        Some(ApproxSchedKind::Fcfs),
        false,
    )
    .unwrap_err();
    assert!(err.contains("approx"));
    let err = validate_approx_sched(
        LoadBalancePolicyKind::Approx,
        Some(ApproxSchedKind::Edf),
        false,
    )
    .unwrap_err();
    assert!(err.contains("ms simulator"));
    let err = validate_approx_sched(
        LoadBalancePolicyKind::Approx,
        Some(ApproxSchedKind::EdfPlus),
        false,
    )
    .unwrap_err();
    assert!(err.contains("ms simulator"));
    assert!(ApproxSchedKind::Edf.outbound_uses_edf());
    assert!(ApproxSchedKind::EdfPlus.outbound_uses_edf());
    assert!(!ApproxSchedKind::Fcfs.outbound_uses_edf());
    assert!(ApproxSchedKind::EdfPlus.intent_queue_uses_edf());
    assert!(!ApproxSchedKind::Edf.intent_queue_uses_edf());
}

#[test]
fn validate_centralized_sched_requires_centralized_for_edf() {
    assert!(validate_centralized_sched(
        LoadBalancePolicyKind::Centralized,
        CentralizedSchedKind::Fcfs,
    )
    .is_ok());
    assert!(validate_centralized_sched(
        LoadBalancePolicyKind::Centralized,
        CentralizedSchedKind::Edf,
    )
    .is_ok());
    assert!(validate_centralized_sched(
        LoadBalancePolicyKind::PowerOfTwo,
        CentralizedSchedKind::Fcfs,
    )
    .is_ok());
    let err =
        validate_centralized_sched(LoadBalancePolicyKind::PowerOfTwo, CentralizedSchedKind::Edf)
            .unwrap_err();
    assert!(err.contains("only valid with --lb-policy centralized or jbsq"));
    assert!(CentralizedSchedKind::Edf.uses_edf());
    assert!(!CentralizedSchedKind::Fcfs.uses_edf());
}

#[test]
fn rejects_centralized_sched_edf_without_centralized() {
    let err =
        validate_centralized_sched(LoadBalancePolicyKind::PowerOfTwo, CentralizedSchedKind::Edf)
            .unwrap_err();
    assert!(err.contains("only valid with --lb-policy centralized"));
}

#[test]
fn main_validate_pull_policy_required_for_approx() {
    let err = validate_pull_policy(LoadBalancePolicyKind::Approx, None).unwrap_err();
    assert!(err.contains("--pull-policy is required"));
}

#[test]
fn main_validate_pull_policy_rejected_without_approx() {
    let err = validate_pull_policy(
        LoadBalancePolicyKind::PowerOfTwo,
        Some(PullPolicyKind::LeastRequest),
    )
    .unwrap_err();
    assert!(err.contains("--pull-policy is only valid"));
}

#[test]
fn validate_no_bind_rejected_without_approx() {
    let err = validate_no_bind(LoadBalancePolicyKind::PowerOfTwo, true).unwrap_err();
    assert!(err.contains("--no-bind is only valid with --lb-policy approx"));
    assert!(validate_no_bind(LoadBalancePolicyKind::Approx, true).is_ok());
    assert!(validate_no_bind(LoadBalancePolicyKind::PowerOfTwo, false).is_ok());
}

#[test]
fn power_of_two_prefers_the_lighter_backend() {
    let loads = [4u32, 1, 1];
    assert_eq!(lighter_of(&loads, 0, 1), 1);
    assert_eq!(lighter_of(&loads, 1, 0), 1);
    assert_eq!(lightest(&loads), vec![1, 2]);
}

#[test]
fn round_robin_serves_each_backend_once_per_round() {
    let mut rng = RunRng::new();
    enter_run(&mut rng, Some(3));
    let mut policy = RoundRobinPolicy::new();
    let loads = [9u32, 9, 9, 9, 9];
    let mut first: Vec<usize> = (0..5).map(|_| policy.select(&loads, &mut rng)).collect();
    let second: Vec<usize> = (0..5).map(|_| policy.select(&loads, &mut rng)).collect();
    assert_eq!(first, second);
    first.sort();
    assert_eq!(first, vec![0, 1, 2, 3, 4]);
}

#[test]
fn seeded_draws_repeat_and_shuffles_rearrange() {
    let mut a = RunRng::new();
    let mut b = RunRng::new();
    enter_run(&mut a, Some(5));
    enter_run(&mut b, Some(5));
    let draws: Vec<usize> = (0..20).map(|_| random_usize_range(&mut a, 3..40)).collect();
    let again: Vec<usize> = (0..20).map(|_| random_usize_range(&mut b, 3..40)).collect();
    assert_eq!(draws, again);
    assert!(draws.iter().all(|d| (3..40).contains(d)));
    assert!(draws.iter().any(|d| *d != draws[0]));

    let mut items: Vec<usize> = (0..50).collect();
    shuffle(&mut a, &mut items);
    assert_ne!(items, (0..50).collect::<Vec<usize>>());
    items.sort();
    assert_eq!(items, (0..50).collect::<Vec<usize>>());

    exit_run(&mut a);
    let unseeded = random_usize_range(&mut a, 0..10);
    assert!(unseeded < 10);
}

#[test]
fn drawn_bits_follow_the_seed() {
    let mut rng = RunRng::new();
    let mut draws = |seed| {
        enter_run(&mut rng, Some(seed));
        let bits: Vec<u32> = (0..8).map(|_| random_bits(&mut rng)).collect();
        exit_run(&mut rng);
        bits
    };
    let first = draws(42);
    assert_eq!(first, draws(42));
    assert_ne!(first, draws(43));
}

#[test]
fn one_seed_gives_one_run() {
    let draws = |seed: u64| {
        let mut rng = RunRng::new();
        enter_run(&mut rng, Some(seed));
        let first = random_usize_range(&mut rng, 0..1_000_000);
        let bits = random_bits(&mut rng);
        let mut items: Vec<u32> = (0..50).collect();
        shuffle(&mut rng, &mut items);
        let last = random_usize_range(&mut rng, 10..1_000_010);
        (first, bits, items, last)
    };
    assert_eq!(draws(42), draws(42));
    assert_ne!(draws(42), draws(43));
    // Places are rearranged, whatever is there.
    let order = |items: Vec<&'static str>| {
        let mut rng = RunRng::new();
        enter_run(&mut rng, Some(5));
        let mut items = items;
        shuffle(&mut rng, &mut items);
        items
    };
    let letters = order(vec!["a", "b", "c", "d", "e"]);
    let digits = order(vec!["1", "2", "3", "4", "5"]);
    for (letter, digit) in letters.iter().zip(&digits) {
        assert_eq!(letter.as_bytes()[0] - b'a', digit.as_bytes()[0] - b'1');
    }
}

fn picks(policy: &mut AnyPolicy, seed: u64) -> Vec<usize> {
    let mut rng = RunRng::new();
    enter_run(&mut rng, Some(seed));
    let mut loads = vec![3, 0, 2, 0, 5, 1, 0, 4];
    let mut out = Vec::new();
    for _ in 0..40 {
        let pick = policy.select(&loads, &mut rng);
        loads[pick] += 1;
        out.push(pick);
    }
    out
}

#[test]
fn equal_policies_pick_alike_from_one_seed() {
    let two = picks(&mut LoadBalancePolicyKind::PowerOfTwo.build(), 42);
    for kind in [
        LoadBalancePolicyKind::Cl,
        LoadBalancePolicyKind::ClLr,
        LoadBalancePolicyKind::ClR,
        LoadBalancePolicyKind::ClRr,
        LoadBalancePolicyKind::Corr,
    ] {
        assert_eq!(picks(&mut kind.build(), 42), two);
        assert_eq!(picks(&mut kind.ingress_policy(), 42), two);
    }
    for kind in [
        LoadBalancePolicyKind::Centralized,
        LoadBalancePolicyKind::Jbsq,
        LoadBalancePolicyKind::Approx,
        LoadBalancePolicyKind::ApproxShare,
        LoadBalancePolicyKind::Prequal,
    ] {
        assert_eq!(picks(&mut kind.build(), 42), vec![0; 40]);
        assert_eq!(picks(&mut kind.ingress_policy(), 42), two);
    }
    for kind in [
        LoadBalancePolicyKind::Random,
        LoadBalancePolicyKind::PowerOfTwo,
        LoadBalancePolicyKind::RoundRobin,
        LoadBalancePolicyKind::LeastRequest,
    ] {
        assert_eq!(
            picks(&mut kind.build(), 42),
            picks(&mut kind.ingress_policy(), 42)
        );
    }
}

#[test]
fn the_last_report_of_a_server_counts() {
    let mut registry = LoadRegistry::new(3);
    for (server, load) in [(0, 4), (2, 7), (0, 5), (9, 8)] {
        registry.set(server, load);
    }
    let loads: Vec<u32> = (0..4).map(|server| registry.get(server)).collect();
    assert_eq!(loads, [5, 0, 7, 0]);
    assert_eq!(registry.get(9), 0);
    assert_eq!(LoadRegistry::default().get(0), 0);
}
