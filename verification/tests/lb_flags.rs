use lb::lb_flags::{
    flag_name, resolve_service_time, validate_expresslane, validate_lb_simulator,
    validate_work_shedding, DelayFlag, ExpressFlags, ModeFlags, ServiceTimePlan,
};
use lb::lb_simulate::{ExpressEvictionConfig, LbServiceDistribution};
use lb::policy::LoadBalancePolicyKind;
use lb::samples::{consecutive_diffs, count_above, percentile_index, sorted};

const HALF_SECOND: u64 = 500_000_000;

fn flags() -> ExpressFlags {
    ExpressFlags {
        lb_policy: LoadBalancePolicyKind::PowerOfTwo,
        servers: 10,
        expresslane: false,
        express_size: None,
        express_th: None,
        express_del_th: None,
        ideal: false,
    }
}

/// What the command line gives for `--service-modes` and `--service-mode-probs`.
fn modes(values: &[f32]) -> Option<ModeFlags> {
    Some(ModeFlags {
        count: values.len(),
        all_positive: values.iter().all(|v| *v > 0.0),
    })
}

fn resolve(
    dist: LbServiceDistribution,
    service_modes: Option<&[f32]>,
    probs: Option<&[f32]>,
) -> Result<ServiceTimePlan, String> {
    let sum: f32 = probs.unwrap_or(&[]).iter().sum();
    resolve_service_time(
        dist,
        service_modes.and_then(modes),
        probs.and_then(modes),
        (sum - 1.0).abs() <= 1e-6,
        &format!("{sum}"),
    )
}

#[test]
fn resolve_service_time_rejects_invalid_probs() {
    let err = match resolve(
        LbServiceDistribution::Bimodal,
        Some(&[0.1, 1.0]),
        Some(&[0.6, 0.3]),
    ) {
        Err(err) => err,
        Ok(_) => panic!("expected validation error"),
    };
    assert!(err.contains("must sum to 1"));
}

#[test]
fn resolve_service_time_rejects_wrong_mode_count() {
    let err = match resolve(
        LbServiceDistribution::Bimodal,
        Some(&[0.1]),
        Some(&[0.5, 0.5]),
    ) {
        Err(err) => err,
        Ok(_) => panic!("expected validation error"),
    };
    assert!(err.contains("exactly 2 values"));
}

#[test]
fn resolve_service_time_rejects_modes_with_non_bimodal_dist() {
    let err = match resolve(
        LbServiceDistribution::Exponential,
        Some(&[0.1, 1.0]),
        None,
    ) {
        Err(err) => err,
        Ok(_) => panic!("expected validation error"),
    };
    assert!(err.contains("only valid with bimodal"));
}

#[test]
fn resolve_service_time_bimodal_sets_mean() {
    let (m, p) = ([0.1f32, 1.0], [0.9f32, 0.1]);
    let plan = resolve(LbServiceDistribution::Bimodal, Some(&m), Some(&p)).unwrap();
    assert!(matches!(plan, ServiceTimePlan::TwoModes));
    let mean = m[0] * p[0] + m[1] * p[1];
    assert!((mean - 0.19).abs() < 1e-6);
}

#[test]
fn service_time_needs_its_modes_to_be_positive() {
    assert!(resolve(LbServiceDistribution::Bimodal, None, Some(&[0.5, 0.5])).is_err());
    assert!(resolve(LbServiceDistribution::Bimodal, Some(&[1.0, 2.0]), None).is_err());
    assert!(resolve(
        LbServiceDistribution::Bimodal,
        Some(&[-1.0, 2.0]),
        Some(&[0.5, 0.5])
    )
    .is_err());
    assert!(matches!(
        resolve(LbServiceDistribution::Constant, None, None),
        Ok(ServiceTimePlan::OneMode)
    ));
}

#[test]
fn prob_latency_gt_slo_empty_samples() {
    assert_eq!(count_above(&vec![], 5), 0);
}

#[test]
fn prob_latency_gt_slo_all_below() {
    assert_eq!(count_above(&vec![1, 2, 3], 5), 0);
}

#[test]
fn prob_latency_gt_slo_some_above() {
    let samples = vec![1, 6, 7, 2];
    let share = count_above(&samples, 5) as f64 / samples.len() as f64;
    assert!((share - 0.5).abs() < 1e-12);
}

#[test]
fn samples_are_sorted_and_ranked() {
    assert_eq!(sorted(&vec![5, 1, 9, 1]), vec![1, 1, 5, 9]);
    assert_eq!(consecutive_diffs(&vec![3, 4, 9]), vec![1, 5]);
    assert_eq!(consecutive_diffs(&vec![3]), Vec::<u64>::new());
    assert_eq!(percentile_index(1, 99), 0);
    assert_eq!(percentile_index(101, 99), 99);
    assert_eq!(percentile_index(101, 100), 100);
    assert_eq!(percentile_index(101, 50), 50);
}

#[test]
fn validate_expresslane_rejects_centralized_policy() {
    let err = validate_expresslane(&ExpressFlags {
        expresslane: true,
        express_size: Some(2),
        express_th: Some(5),
        lb_policy: LoadBalancePolicyKind::Centralized,
        ..flags()
    })
    .unwrap_err();
    assert!(err.contains("not supported with --lb-policy centralized"));
}

#[test]
fn validate_expresslane_rejects_approx_policy() {
    let err = validate_expresslane(&ExpressFlags {
        expresslane: true,
        express_size: Some(2),
        express_th: Some(5),
        lb_policy: LoadBalancePolicyKind::Approx,
        ..flags()
    })
    .unwrap_err();
    assert!(err.contains("not supported with --lb-policy approx"));
}

#[test]
fn validate_expresslane_rejects_orphan_flags() {
    let err = validate_expresslane(&ExpressFlags {
        express_size: Some(2),
        ..flags()
    })
    .unwrap_err();
    assert!(err.contains("--expresslane"));

    let err = validate_expresslane(&ExpressFlags {
        express_th: Some(5),
        ..flags()
    })
    .unwrap_err();
    assert!(err.contains("--expresslane"));

    let err = validate_expresslane(&ExpressFlags {
        express_del_th: Some(DelayFlag::Nanos(HALF_SECOND)),
        ..flags()
    })
    .unwrap_err();
    assert!(err.contains("--expresslane"));
}

#[test]
fn validate_expresslane_requires_size_and_one_threshold() {
    let err = validate_expresslane(&ExpressFlags {
        expresslane: true,
        express_size: Some(2),
        ..flags()
    })
    .unwrap_err();
    assert!(err.contains("one of --express-th or --express-del-th"));

    let err = validate_expresslane(&ExpressFlags {
        expresslane: true,
        express_th: Some(5),
        ..flags()
    })
    .unwrap_err();
    assert!(err.contains("--express-size"));
}

#[test]
fn validate_expresslane_accepts_combined_thresholds() {
    let cfg = validate_expresslane(&ExpressFlags {
        expresslane: true,
        express_size: Some(2),
        express_th: Some(5),
        express_del_th: Some(DelayFlag::Nanos(HALF_SECOND)),
        ..flags()
    })
    .unwrap()
    .expect("expected express lane config");
    assert_eq!(cfg.express_size, 2);
    match cfg.eviction {
        ExpressEvictionConfig::Combined {
            depth_threshold,
            delay_threshold,
        } => {
            assert_eq!(depth_threshold, 5);
            assert_eq!(delay_threshold, HALF_SECOND);
        }
        ExpressEvictionConfig::QueueDepth(_) | ExpressEvictionConfig::QueueDelay { .. } => {
            panic!("expected combined eviction")
        }
    }
}

#[test]
fn validate_expresslane_rejects_invalid_delay_threshold() {
    let err = validate_expresslane(&ExpressFlags {
        expresslane: true,
        express_size: Some(2),
        express_del_th: Some(DelayFlag::NotPositive),
        ..flags()
    })
    .unwrap_err();
    assert!(err.contains("--express-del-th must be positive"));
}

#[test]
fn validate_expresslane_rejects_invalid_size() {
    let err = validate_expresslane(&ExpressFlags {
        expresslane: true,
        express_size: Some(0),
        express_th: Some(5),
        ..flags()
    })
    .unwrap_err();
    assert!(err.contains("must be positive"));

    let err = validate_expresslane(&ExpressFlags {
        expresslane: true,
        express_size: Some(10),
        express_th: Some(5),
        ..flags()
    })
    .unwrap_err();
    assert!(err.contains("must be less than"));
}

#[test]
fn validate_expresslane_accepts_valid_config() {
    let cfg = validate_expresslane(&ExpressFlags {
        expresslane: true,
        express_size: Some(2),
        express_th: Some(5),
        ..flags()
    })
    .unwrap()
    .expect("expected express lane config");
    assert_eq!(cfg.express_size, 2);
    match cfg.eviction {
        ExpressEvictionConfig::QueueDepth(th) => assert_eq!(th, 5),
        ExpressEvictionConfig::QueueDelay { .. } => panic!("expected queue depth eviction"),
        ExpressEvictionConfig::Combined { .. } => panic!("expected queue depth eviction"),
    }
}

#[test]
fn validate_expresslane_accepts_delay_threshold_config() {
    let cfg = validate_expresslane(&ExpressFlags {
        expresslane: true,
        express_size: Some(2),
        express_del_th: Some(DelayFlag::Nanos(HALF_SECOND)),
        ..flags()
    })
    .unwrap()
    .expect("expected express lane config");
    assert_eq!(cfg.express_size, 2);
    match cfg.eviction {
        ExpressEvictionConfig::QueueDelay { threshold, ideal } => {
            assert_eq!(threshold, HALF_SECOND);
            assert!(!ideal);
        }
        ExpressEvictionConfig::QueueDepth(_) => panic!("expected queue delay eviction"),
        ExpressEvictionConfig::Combined { .. } => panic!("expected queue delay eviction"),
    }
}

#[test]
fn validate_expresslane_accepts_ideal_delay_threshold_config() {
    let cfg = validate_expresslane(&ExpressFlags {
        expresslane: true,
        express_size: Some(2),
        express_del_th: Some(DelayFlag::Nanos(HALF_SECOND)),
        ideal: true,
        ..flags()
    })
    .unwrap()
    .expect("expected express lane config");
    assert_eq!(cfg.express_size, 2);
    match cfg.eviction {
        ExpressEvictionConfig::QueueDelay { threshold, ideal } => {
            assert_eq!(threshold, HALF_SECOND);
            assert!(ideal);
        }
        ExpressEvictionConfig::QueueDepth(_) => panic!("expected queue delay eviction"),
        ExpressEvictionConfig::Combined { .. } => panic!("expected queue delay eviction"),
    }
}

#[test]
fn validate_expresslane_rejects_ideal_without_expresslane() {
    let err = validate_expresslane(&ExpressFlags {
        ideal: true,
        express_del_th: Some(DelayFlag::Nanos(HALF_SECOND)),
        ..flags()
    })
    .unwrap_err();
    assert!(err.contains("--ideal requires --expresslane"));
}

#[test]
fn validate_expresslane_rejects_ideal_with_express_th() {
    let err = validate_expresslane(&ExpressFlags {
        expresslane: true,
        express_size: Some(2),
        express_th: Some(5),
        ideal: true,
        ..flags()
    })
    .unwrap_err();
    assert!(err.contains("--ideal requires --express-del-th"));
}

#[test]
fn validate_expresslane_rejects_ideal_without_express_del_th() {
    let err = validate_expresslane(&ExpressFlags {
        expresslane: true,
        express_size: Some(2),
        ideal: true,
        ..flags()
    })
    .unwrap_err();
    assert!(err.contains("--ideal requires --express-del-th"));
}

#[test]
fn validate_work_shedding_accepts_positive_threshold() {
    let threshold = validate_work_shedding(&flags(), Some(DelayFlag::Nanos(HALF_SECOND)))
        .unwrap()
        .expect("expected work shedding config");
    assert_eq!(threshold, HALF_SECOND);
}

#[test]
fn validate_work_shedding_rejects_non_positive_threshold() {
    let err = validate_work_shedding(&flags(), Some(DelayFlag::NotPositive)).unwrap_err();
    assert!(err.contains("--shed-delay must be positive"));
}

#[test]
fn validate_work_shedding_rejects_centralized() {
    let err = validate_work_shedding(
        &ExpressFlags {
            lb_policy: LoadBalancePolicyKind::Centralized,
            ..flags()
        },
        Some(DelayFlag::Nanos(HALF_SECOND)),
    )
    .unwrap_err();
    assert!(err.contains("not supported with --lb-policy centralized"));
}

#[test]
fn validate_work_shedding_rejects_approx() {
    let err = validate_work_shedding(
        &ExpressFlags {
            lb_policy: LoadBalancePolicyKind::Approx,
            ..flags()
        },
        Some(DelayFlag::Nanos(HALF_SECOND)),
    )
    .unwrap_err();
    assert!(err.contains("not supported with --lb-policy approx"));
}

#[test]
fn validate_work_shedding_rejects_expresslane() {
    let err = validate_work_shedding(
        &ExpressFlags {
            expresslane: true,
            express_size: Some(2),
            express_th: Some(5),
            ..flags()
        },
        Some(DelayFlag::Nanos(HALF_SECOND)),
    )
    .unwrap_err();
    assert!(err.contains("cannot be combined with --expresslane"));
}

#[test]
fn microservice_policies_are_named_and_refused() {
    assert_eq!(flag_name(LoadBalancePolicyKind::ClLr), "cl-lr");
    assert_eq!(flag_name(LoadBalancePolicyKind::ApproxShare), "approx-share");
    for kind in [
        LoadBalancePolicyKind::Cl,
        LoadBalancePolicyKind::Jbsq,
        LoadBalancePolicyKind::ApproxShare,
    ] {
        let err = validate_lb_simulator(kind).unwrap_err();
        assert!(err.contains(flag_name(kind)), "{err}");
        assert!(err.contains("lb simulator"), "{err}");
    }
    assert!(validate_lb_simulator(LoadBalancePolicyKind::Approx).is_ok());
}
