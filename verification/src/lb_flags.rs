//! Which combinations of command-line flags the `lb` simulator accepts.
//!
//! A flag that holds a duration arrives as nanoseconds, or as the fact that it was not a
//! positive finite number.

use crate::lb_simulate::{ExpressEvictionConfig, ExpressLaneConfig, LbServiceDistribution};
use crate::policy::LoadBalancePolicyKind;
use crate::text::{decimal, Text};
use vstd::prelude::*;

verus! {

/// A duration given on the command line.
#[derive(Clone, Copy, Debug, PartialEq, Eq, Structural)]
pub enum DelayFlag {
    Nanos(u64),
    /// Zero, negative, infinite or not a number.
    NotPositive,
}

/// The flags that have to do with the express lane.
#[derive(Clone, Copy, Debug, PartialEq, Eq, Structural)]
pub struct ExpressFlags {
    pub lb_policy: LoadBalancePolicyKind,
    pub servers: u32,
    pub expresslane: bool,
    pub express_size: Option<u32>,
    pub express_th: Option<u32>,
    pub express_del_th: Option<DelayFlag>,
    pub ideal: bool,
}

impl ExpressFlags {
    /// A flag that only makes sense with the express lane is set.
    pub open spec fn has_details(self) -> bool {
        self.express_size is Some || self.express_th is Some || self.express_del_th is Some
    }

    /// The policy pulls, so that there is no server queue to evict from.
    pub open spec fn pulls(self) -> bool {
        self.lb_policy is Centralized || self.lb_policy is Approx
    }

    /// What the flags amount to: an express lane, none, or an error.
    pub open spec fn verdict(self) -> Result<Option<ExpressLaneConfig>, Seq<char>> {
        let policy = if self.lb_policy is Centralized {
            "centralized"@
        } else {
            "approx"@
        };
        if self.pulls() {
            if self.expresslane || self.has_details() {
                Err("--expresslane is not supported with --lb-policy "@ + policy)
            } else {
                Ok(None)
            }
        } else if self.ideal && !self.expresslane {
            Err("--ideal requires --expresslane"@)
        } else if self.ideal && (self.express_th is Some || self.express_del_th is None) {
            Err("--ideal requires --express-del-th"@)
        } else if !self.expresslane {
            if self.has_details() {
                Err("--express-size, --express-th, and --express-del-th require --expresslane"@)
            } else {
                Ok(None)
            }
        } else {
            match self.express_size {
                None => Err("--express-size is required with --expresslane"@),
                Some(size) => if size == 0 {
                    Err("--express-size must be positive"@)
                } else if size >= self.servers {
                    Err(
                        "--express-size ("@ + decimal(size as nat)
                            + ") must be less than --servers ("@ + decimal(self.servers as nat)
                            + ")"@,
                    )
                } else {
                    match (self.express_th, self.express_del_th) {
                        (None, None) => Err(
                            "one of --express-th or --express-del-th is required with --expresslane"@,
                        ),
                        (_, Some(DelayFlag::NotPositive)) => Err(
                            "--express-del-th must be positive and finite"@,
                        ),
                        (Some(depth), None) => Ok(
                            Some(
                                ExpressLaneConfig {
                                    express_size: size,
                                    eviction: ExpressEvictionConfig::QueueDepth(depth),
                                },
                            ),
                        ),
                        (None, Some(DelayFlag::Nanos(delay))) => Ok(
                            Some(
                                ExpressLaneConfig {
                                    express_size: size,
                                    eviction: ExpressEvictionConfig::QueueDelay {
                                        threshold: delay,
                                        ideal: self.ideal,
                                    },
                                },
                            ),
                        ),
                        (Some(depth), Some(DelayFlag::Nanos(delay))) => Ok(
                            Some(
                                ExpressLaneConfig {
                                    express_size: size,
                                    eviction: ExpressEvictionConfig::Combined {
                                        depth_threshold: depth,
                                        delay_threshold: delay,
                                    },
                                },
                            ),
                        ),
                    }
                },
            }
        }
    }

    /// What a shedding delay amounts to beside these flags.
    pub open spec fn shedding_verdict(self, shed_delay: Option<DelayFlag>) -> Result<
        Option<u64>,
        Seq<char>,
    > {
        let policy = if self.lb_policy is Centralized {
            "centralized"@
        } else {
            "approx"@
        };
        match shed_delay {
            None => Ok(None),
            Some(delay) => if self.pulls() {
                Err("--shed-delay is not supported with --lb-policy "@ + policy)
            } else if self.expresslane || self.has_details() {
                Err("--shed-delay cannot be combined with --expresslane"@)
            } else {
                match delay {
                    DelayFlag::Nanos(n) => Ok(Some(n)),
                    DelayFlag::NotPositive => Err("--shed-delay must be positive and finite"@),
                }
            },
        }
    }
}

fn policy_text(lb_policy: LoadBalancePolicyKind) -> (s: &'static str)
    ensures
        s@ == if lb_policy is Centralized {
            "centralized"@
        } else {
            "approx"@
        },
{
    if lb_policy.is_centralized() {
        "centralized"
    } else {
        "approx"
    }
}

/// Decides whether a run has an express lane.
pub fn validate_expresslane(flags: &ExpressFlags) -> (r: Result<Option<ExpressLaneConfig>, String>)
    ensures
        match flags.verdict() {
            Ok(lane) => r matches Ok(got) && got == lane,
            Err(text) => r matches Err(e) && e@ == text,
        },
{
    let has_details = flags.express_size.is_some() || flags.express_th.is_some()
        || flags.express_del_th.is_some();
    if flags.lb_policy.is_centralized() || flags.lb_policy.is_approx() {
        if flags.expresslane || has_details {
            return Err(
                Text::of("--expresslane is not supported with --lb-policy ").lit(
                    policy_text(flags.lb_policy),
                ).done(),
            );
        }
        return Ok(None);
    }
    if flags.ideal {
        if !flags.expresslane {
            return Err("--ideal requires --expresslane".to_owned());
        }
        if flags.express_th.is_some() {
            return Err("--ideal requires --express-del-th".to_owned());
        }
        if flags.express_del_th.is_none() {
            return Err("--ideal requires --express-del-th".to_owned());
        }
    }
    if !flags.expresslane {
        if has_details {
            return Err(
                "--express-size, --express-th, and --express-del-th require --expresslane".to_owned(),
            );
        }
        return Ok(None);
    }
    let express_size: u32 = match flags.express_size {
        None => {
            return Err("--express-size is required with --expresslane".to_owned());
        },
        Some(size) => size,
    };
    if express_size == 0 {
        return Err("--express-size must be positive".to_owned());
    }
    if express_size >= flags.servers {
        return Err(
            Text::of("--express-size (").num(express_size as u64).lit(
                ") must be less than --servers (",
            ).num(flags.servers as u64).lit(")").done(),
        );
    }
    let eviction = match (flags.express_th, flags.express_del_th) {
        (None, None) => {
            return Err(
                "one of --express-th or --express-del-th is required with --expresslane".to_owned(),
            );
        },
        (_, Some(DelayFlag::NotPositive)) => {
            return Err("--express-del-th must be positive and finite".to_owned());
        },
        (Some(depth), None) => ExpressEvictionConfig::QueueDepth(depth),
        (None, Some(DelayFlag::Nanos(delay))) => ExpressEvictionConfig::QueueDelay {
            threshold: delay,
            ideal: flags.ideal,
        },
        (Some(depth), Some(DelayFlag::Nanos(delay))) => ExpressEvictionConfig::Combined {
            depth_threshold: depth,
            delay_threshold: delay,
        },
    };
    Ok(Some(ExpressLaneConfig { express_size, eviction }))
}

/// Decides whether a run sheds work.
pub fn validate_work_shedding(flags: &ExpressFlags, shed_delay: Option<DelayFlag>) -> (r: Result<
    Option<u64>,
    String,
>)
    ensures
        match flags.shedding_verdict(shed_delay) {
            Ok(delay) => r matches Ok(got) && got == delay,
            Err(text) => r matches Err(e) && e@ == text,
        },
{
    let delay = match shed_delay {
        None => {
            return Ok(None);
        },
        Some(delay) => delay,
    };
    if flags.lb_policy.is_centralized() || flags.lb_policy.is_approx() {
        return Err(
            Text::of("--shed-delay is not supported with --lb-policy ").lit(
                policy_text(flags.lb_policy),
            ).done(),
        );
    }
    if flags.expresslane || flags.express_size.is_some() || flags.express_th.is_some()
        || flags.express_del_th.is_some() {
        return Err("--shed-delay cannot be combined with --expresslane".to_owned());
    }
    match delay {
        DelayFlag::Nanos(n) => Ok(Some(n)),
        DelayFlag::NotPositive => Err("--shed-delay must be positive and finite".to_owned()),
    }
}

/// An express lane and work shedding exclude each other: no flags give both.
pub proof fn law_express_lane_excludes_shedding(flags: ExpressFlags, shed_delay: Option<DelayFlag>)
    ensures
        !((flags.verdict() matches Ok(Some(_))) && (flags.shedding_verdict(shed_delay) matches Ok(
            Some(_),
        ))),
{
}

/// An accepted express lane leaves at least one regular server.
pub proof fn law_express_lane_leaves_a_server(flags: ExpressFlags)
    ensures
        flags.verdict() matches Ok(Some(lane)) ==> 0 < lane.express_size < flags.servers,
{
}

/// A list of numbers given on the command line.
#[derive(Clone, Copy, Debug, PartialEq, Eq, Structural)]
pub struct ModeFlags {
    pub count: usize,
    /// Every number is positive and finite.
    pub all_positive: bool,
}

/// Which service-time model a run uses.
#[derive(Clone, Copy, Debug, PartialEq, Eq, Structural)]
pub enum ServiceTimePlan {
    OneMode,
    TwoModes,
}

/// What the flags for service times amount to. `sum_is_one` says whether the mode
/// probabilities sum to 1 within tolerance, and `sum` is their sum as text.
pub open spec fn service_time_verdict(
    dist: LbServiceDistribution,
    modes: Option<ModeFlags>,
    probs: Option<ModeFlags>,
    sum_is_one: bool,
    sum: Seq<char>,
) -> Result<ServiceTimePlan, Seq<char>> {
    if dist !is Bimodal {
        if modes is Some || probs is Some {
            Err("service_modes and service_mode_probs are only valid with bimodal"@)
        } else {
            Ok(ServiceTimePlan::OneMode)
        }
    } else {
        match (modes, probs) {
            (None, _) => Err("service_modes required for bimodal"@),
            (_, None) => Err("service_mode_probs required for bimodal"@),
            (Some(m), Some(p)) => if m.count != 2 {
                Err("service_modes requires exactly 2 values, got "@ + decimal(m.count as nat))
            } else if p.count != 2 {
                Err("service_mode_probs requires exactly 2 values, got "@ + decimal(p.count as nat))
            } else if !m.all_positive {
                Err("service_modes values must be positive and finite"@)
            } else if !p.all_positive {
                Err("service_mode_probs values must be positive and finite"@)
            } else if !sum_is_one {
                Err("service_mode_probs must sum to 1, got "@ + sum)
            } else {
                Ok(ServiceTimePlan::TwoModes)
            },
        }
    }
}

/// Decides which service-time model a run uses.
pub fn resolve_service_time(
    dist: LbServiceDistribution,
    modes: Option<ModeFlags>,
    probs: Option<ModeFlags>,
    sum_is_one: bool,
    sum: &str,
) -> (r: Result<ServiceTimePlan, String>)
    ensures
        match service_time_verdict(dist, modes, probs, sum_is_one, sum@) {
            Ok(plan) => r matches Ok(got) && got == plan,
            Err(text) => r matches Err(e) && e@ == text,
        },
{
    match dist {
        LbServiceDistribution::Bimodal => {
            let m = match modes {
                None => {
                    return Err("service_modes required for bimodal".to_owned());
                },
                Some(m) => m,
            };
            let p = match probs {
                None => {
                    return Err("service_mode_probs required for bimodal".to_owned());
                },
                Some(p) => p,
            };
            if m.count != 2 {
                return Err(
                    Text::of("service_modes requires exactly 2 values, got ").size(m.count).done(),
                );
            }
            if p.count != 2 {
                return Err(
                    Text::of("service_mode_probs requires exactly 2 values, got ").size(
                        p.count,
                    ).done(),
                );
            }
            if !m.all_positive {
                return Err("service_modes values must be positive and finite".to_owned());
            }
            if !p.all_positive {
                return Err("service_mode_probs values must be positive and finite".to_owned());
            }
            if !sum_is_one {
                return Err(Text::of("service_mode_probs must sum to 1, got ").lit(sum).done());
            }
            Ok(ServiceTimePlan::TwoModes)
        },
        _ => {
            if modes.is_some() || probs.is_some() {
                return Err(
                    "service_modes and service_mode_probs are only valid with bimodal".to_owned(),
                );
            }
            Ok(ServiceTimePlan::OneMode)
        },
    }
}

/// The name of a policy on the command line.
pub open spec fn flag_name_of(kind: LoadBalancePolicyKind) -> Seq<char> {
    match kind {
        LoadBalancePolicyKind::Random => "random"@,
        LoadBalancePolicyKind::PowerOfTwo => "power-of-two"@,
        LoadBalancePolicyKind::RoundRobin => "round-robin"@,
        LoadBalancePolicyKind::LeastRequest => "least-request"@,
        LoadBalancePolicyKind::Centralized => "centralized"@,
        LoadBalancePolicyKind::Jbsq => "jbsq"@,
        LoadBalancePolicyKind::Approx => "approx"@,
        LoadBalancePolicyKind::ApproxShare => "approx-share"@,
        LoadBalancePolicyKind::Prequal => "prequal"@,
        LoadBalancePolicyKind::Cl => "cl"@,
        LoadBalancePolicyKind::ClLr => "cl-lr"@,
        LoadBalancePolicyKind::ClR => "cl-r"@,
        LoadBalancePolicyKind::ClRr => "cl-rr"@,
        LoadBalancePolicyKind::Corr => "corr"@,
    }
}

/// The name of a policy on the command line.
pub fn flag_name(kind: LoadBalancePolicyKind) -> (s: &'static str)
    ensures
        s@ == flag_name_of(kind),
{
    match kind {
        LoadBalancePolicyKind::Random => "random",
        LoadBalancePolicyKind::PowerOfTwo => "power-of-two",
        LoadBalancePolicyKind::RoundRobin => "round-robin",
        LoadBalancePolicyKind::LeastRequest => "least-request",
        LoadBalancePolicyKind::Centralized => "centralized",
        LoadBalancePolicyKind::Jbsq => "jbsq",
        LoadBalancePolicyKind::Approx => "approx",
        LoadBalancePolicyKind::ApproxShare => "approx-share",
        LoadBalancePolicyKind::Prequal => "prequal",
        LoadBalancePolicyKind::Cl => "cl",
        LoadBalancePolicyKind::ClLr => "cl-lr",
        LoadBalancePolicyKind::ClR => "cl-r",
        LoadBalancePolicyKind::ClRr => "cl-rr",
        LoadBalancePolicyKind::Corr => "corr",
    }
}

/// A policy that only the microservice simulator has is turned away by the other one.
pub fn validate_lb_simulator(kind: LoadBalancePolicyKind) -> (r: Result<(), String>)
    ensures
        r is Ok <==> !(kind.is_cl_family() || kind is Corr || kind is ApproxShare || kind is Jbsq),
        r matches Err(e) ==> e@ == "--lb-policy "@ + flag_name_of(kind)
            + " is not supported by the lb simulator"@,
{
    if kind.is_ms_only() {
        return Err(
            Text::of("--lb-policy ").lit(flag_name(kind)).lit(
                " is not supported by the lb simulator",
            ).done(),
        );
    }
    Ok(())
}

/// An accepted express lane is the one that was asked for: of the size given, and evicting by
/// depth, by delay or by both, as the thresholds were given. Without the flag there is none,
/// and flags that only make sense with it are refused.
pub proof fn law_express_lane_is_the_one_asked_for(flags: ExpressFlags)
    ensures
        flags.verdict() matches Ok(Some(lane)) ==> {
            &&& flags.expresslane
            &&& Some(lane.express_size) == flags.express_size
            &&& flags.lb_policy != LoadBalancePolicyKind::Centralized
            &&& flags.lb_policy != LoadBalancePolicyKind::Approx
            &&& match lane.eviction {
                ExpressEvictionConfig::QueueDepth(depth) => flags.express_th == Some(depth)
                    && flags.express_del_th is None && !flags.ideal,
                ExpressEvictionConfig::QueueDelay { threshold, ideal } => flags.express_th is None
                    && flags.express_del_th == Some(DelayFlag::Nanos(threshold)) && ideal
                    == flags.ideal,
                ExpressEvictionConfig::Combined { depth_threshold, delay_threshold } =>
                    flags.express_th == Some(depth_threshold) && flags.express_del_th == Some(
                        DelayFlag::Nanos(delay_threshold),
                    ) && !flags.ideal,
            }
        },
        flags.verdict() matches Ok(None) ==> !flags.expresslane && flags.express_size is None
            && flags.express_th is None && flags.express_del_th is None,
        flags.expresslane && flags.express_size is Some && 0 < flags.express_size->0
            < flags.servers && flags.lb_policy != LoadBalancePolicyKind::Centralized
            && flags.lb_policy != LoadBalancePolicyKind::Approx && !flags.ideal
            && flags.express_th is Some && flags.express_del_th is None ==> flags.verdict() is Ok,
{
}

/// An accepted shedding delay is the one that was given, in a run that pushes and has no
/// express lane.
pub proof fn law_shedding_delay_is_the_one_given(flags: ExpressFlags, delay: Option<DelayFlag>)
    ensures
        delay is None ==> flags.shedding_verdict(delay) matches Ok(None),
        flags.shedding_verdict(delay) matches Ok(Some(n)) ==> delay == Some(DelayFlag::Nanos(n))
            && !flags.expresslane && flags.lb_policy != LoadBalancePolicyKind::Centralized
            && flags.lb_policy != LoadBalancePolicyKind::Approx,
        delay is Some ==> !(flags.shedding_verdict(delay) matches Ok(None)),
{
}

/// Two modes are used exactly where they are asked for and given in full: two positive values
/// and two positive probabilities that sum to 1. Any other distribution takes neither list.
pub proof fn law_modes_are_given_in_full(
    dist: LbServiceDistribution,
    modes: Option<ModeFlags>,
    probs: Option<ModeFlags>,
    sum_is_one: bool,
    sum: Seq<char>,
)
    ensures
        ({
            let verdict = service_time_verdict(dist, modes, probs, sum_is_one, sum);
            &&& verdict == Ok::<ServiceTimePlan, Seq<char>>(ServiceTimePlan::TwoModes) <==> {
                &&& dist == LbServiceDistribution::Bimodal
                &&& modes is Some && modes->0.count == 2 && modes->0.all_positive
                &&& probs is Some && probs->0.count == 2 && probs->0.all_positive
                &&& sum_is_one
            }
            &&& verdict == Ok::<ServiceTimePlan, Seq<char>>(ServiceTimePlan::OneMode) <==> dist
                != LbServiceDistribution::Bimodal && modes is None && probs is None
        }),
{
}

} // verus!
