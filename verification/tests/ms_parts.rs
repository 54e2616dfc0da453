use lb::key_map::NameMap;
use lb::microservice::balancer::{remove_call_for_pull, EdgeBalancer, OutboundOutcome, ReplicaBalancer, ReplicaPullReply};
use lb::microservice::downstream::{
    corr_candidates, rank_among, select_corr_replica, DownstreamBalancer, OutboundGateway,
    SharedOutcome, Slack,
};
use lb::microservice::hop::{
    CompletedRequest, Hop, MsPullIntent, OutboundCall, OutboundRelease, ReplicaInput, ReplicaPull,
};
use lb::microservice::microservice_stats::{cumulative_prefix, MicroserviceVisitTracker};
use lb::microservice::occupancy::{server_level, OccupancyAccumulator, OccupancyAverage};
use lb::microservice::replica::CentralPull;
use lb::microservice::callgraph::MicroserviceSpec;
use lb::microservice::sidecar::{
    n_sidecars, sidecar_id, sidecar_replicas, ApproxServerSidecar, SidecarCapacityEvent,
};
use lb::microservice::simulate::{calculate_stats, plan_replica, split_by_shares, validate_run};
use lb::microservice::trace::MsTracer;
use lb::policy::{ApproxSchedKind, CentralizedSchedKind, LoadBalancePolicyKind, PullPolicyKind};
use lb::rng::{enter_run, RunRng};
use std::collections::VecDeque;
use std::time::Duration;

const MS: u64 = 1_000_000;

fn t(secs: f64) -> u64 {
    (secs * 1e9).round() as u64
}

fn average(avg: OccupancyAverage) -> f64 {
    avg.area as f64 / avg.span as f64
}

#[test]
fn constant_level_averages_to_level() {
    let mut acc = OccupancyAccumulator::default();
    acc.record(t(0.0), 2);
    acc.record(t(10.0), 2);
    let avg = average(acc.finalize(t(10.0), t(0.0)));
    assert!((avg - 2.0).abs() < 1e-9);
}

#[test]
fn level_change_mid_run() {
    let mut acc = OccupancyAccumulator::default();
    acc.record(t(0.0), 0);
    acc.record(t(5.0), 4);
    acc.record(t(10.0), 4);
    let avg = average(acc.finalize(t(10.0), t(0.0)));
    assert!((avg - 2.0).abs() < 1e-9);
}

#[test]
fn idle_before_first_sample_counts_as_zero() {
    let mut acc = OccupancyAccumulator::default();
    acc.record(t(5.0), 3);
    let avg = average(acc.finalize(t(10.0), t(0.0)));
    assert!((avg - 1.5).abs() < 1e-9);
}

#[test]
fn last_sample_of_an_instant_counts() {
    let mut acc = OccupancyAccumulator::default();
    acc.record(t(0.0), 9);
    acc.record(t(0.0), 1);
    acc.record(t(2.0), 1);
    let avg = acc.finalize(t(4.0), t(0.0));
    assert_eq!(avg.area, u128::from(t(4.0)));
    assert_eq!(avg.span, t(4.0));
}

#[test]
fn fair_share_finalize_adds_queue_average_over_replicas() {
    let sim_start = 0;
    let sim_end = t(10.0);

    let mut replica = OccupancyAccumulator::default();
    replica.record(sim_start, 1);
    replica.record(sim_end, 1);
    let replica_avg = average(replica.finalize(sim_end, sim_start));

    let mut balancer = OccupancyAccumulator::default();
    balancer.record(sim_start, 6);
    balancer.record(sim_end, 6);
    let q_avg = average(balancer.finalize(sim_end, sim_start));

    let n = 3.0;
    let combined = replica_avg + q_avg / n;
    assert!((replica_avg - 1.0).abs() < 1e-9);
    assert!((q_avg - 6.0).abs() < 1e-9);
    assert!((combined - 3.0).abs() < 1e-9);
}

fn ms(nanos: u64) -> f64 {
    nanos as f64 / 1e6
}

#[test]
fn queueing_is_own_response_minus_processing() {
    let svc = "svc".to_string();
    let mut tracker = MicroserviceVisitTracker::new(&vec![svc.clone()]);
    let arrival = 0;
    let deadline = arrival + t(10.0);
    tracker.record_arrival(1, &svc, arrival, deadline);
    tracker.add_downstream_response(1, &svc, 300);
    tracker.add_local_processing(1, &svc, 50 * MS);
    let departure = arrival + 500 * MS;
    assert_eq!(tracker.finalize_visit(1, &svc, departure), Some(500 * MS));

    tracker.finalize_cumulative_metrics();
    let stats = tracker.into_stats(&vec![svc.clone()]);
    let svc = stats.get(&svc).unwrap();
    assert_eq!(svc.response_time, vec![500 * MS]);
    assert_eq!(svc.processing_time, vec![50 * MS]);
    assert_eq!(svc.queueing_delay, vec![150 * MS]);
    assert_eq!(svc.cumulative_queueing_delay, vec![Some(u128::from(150 * MS))]);
    assert_eq!(svc.slo_violations, 0);
    assert_eq!(ms(svc.response_time[0]), 500.0);
}

#[test]
fn cumulative_is_prefix_sum_of_queueing_delays_along_chain() {
    assert_eq!(
        cumulative_prefix(&vec![Some(10), Some(20), Some(30)]),
        vec![Some(10), Some(30), Some(60)]
    );
    let with_gap = cumulative_prefix(&vec![None, Some(20), Some(30)]);
    assert!(with_gap[0].is_none());
    assert_eq!(with_gap[1], Some(20));
    assert_eq!(with_gap[2], Some(50));

    let chain: Vec<String> = ["frontend", "backend1", "backend2"]
        .iter()
        .map(|s| s.to_string())
        .collect();
    let mut tracker = MicroserviceVisitTracker::new(&chain);
    let deadline = t(60.0);

    tracker.record_arrival(1, &chain[0], 0, deadline);
    tracker.add_local_processing(1, &chain[0], 5 * MS);
    tracker.finalize_visit(1, &chain[0], 15 * MS);

    let be1_arrival = 100 * MS;
    tracker.record_arrival(1, &chain[1], be1_arrival, deadline);
    tracker.add_downstream_response(1, &chain[1], 50);
    tracker.add_local_processing(1, &chain[1], 5 * MS);
    tracker.finalize_visit(1, &chain[1], be1_arrival + 75 * MS);

    let be2_arrival = 200 * MS;
    tracker.record_arrival(1, &chain[2], be2_arrival, deadline);
    tracker.add_local_processing(1, &chain[2], 5 * MS);
    tracker.finalize_visit(1, &chain[2], be2_arrival + 35 * MS);

    tracker.finalize_cumulative_metrics();
    let per_request = tracker.per_request_cumulative_queueing();
    let stats = tracker.into_stats(&chain);

    let queueing = |i: usize| stats.get(&chain[i]).unwrap().queueing_delay.clone();
    let gathered = |i: usize| stats.get(&chain[i]).unwrap().cumulative_queueing_delay.clone();
    assert_eq!(queueing(0), vec![10 * MS]);
    assert_eq!(queueing(1), vec![20 * MS]);
    assert_eq!(queueing(2), vec![30 * MS]);
    assert_eq!(gathered(0), vec![Some(u128::from(10 * MS))]);
    assert_eq!(gathered(1), vec![Some(u128::from(30 * MS))]);
    assert_eq!(gathered(2), vec![Some(u128::from(60 * MS))]);
    assert_eq!(
        per_request,
        vec![vec![
            Some(u128::from(10 * MS)),
            Some(u128::from(30 * MS)),
            Some(u128::from(60 * MS))
        ]]
    );
    assert_eq!(tracker.row_ids(), vec![1]);
}

#[test]
fn late_visits_are_violations() {
    let svc = "svc".to_string();
    let mut tracker = MicroserviceVisitTracker::new(&vec![svc.clone()]);
    tracker.record_arrival(1, &svc, 0, 10);
    tracker.finalize_visit(1, &svc, 11);
    tracker.record_arrival(2, &svc, 5, 10);
    tracker.finalize_visit(2, &svc, 10);
    tracker.record_arrival(3, &svc, 20, 10);
    tracker.finalize_visit(3, &svc, 20);
    assert_eq!(tracker.finalize_visit(9, &svc, 30), None);
    let stats = tracker.into_stats(&vec![svc.clone()]);
    let svc = stats.get(&svc).unwrap();
    assert_eq!(svc.slo_violations, 2);
    assert_eq!(svc.slack_d, vec![10, 5, -10]);
    assert_eq!(svc.inter_arrival, vec![5, 15]);
    assert_eq!(svc.inter_departure, vec![1, 9]);
}

#[test]
fn grouping_ceil_remainder() {
    assert_eq!(n_sidecars(10, 3), 4);
    assert_eq!(sidecar_id(0, 3), 0);
    assert_eq!(sidecar_id(2, 3), 0);
    assert_eq!(sidecar_id(3, 3), 1);
    assert_eq!(sidecar_id(9, 3), 3);
    assert_eq!(sidecar_replicas(0, 10, 3), vec![0, 1, 2]);
    assert_eq!(sidecar_replicas(3, 10, 3), vec![9]);
}

#[test]
fn share_one_is_identity() {
    assert_eq!(n_sidecars(5, 1), 5);
    for i in 0..5 {
        assert_eq!(sidecar_id(i, 1), i);
        assert_eq!(sidecar_replicas(i, 5, 1), vec![i]);
    }
}

#[test]
fn select_replica_least_occupancy() {
    let mut sc = ApproxServerSidecar::new("ms".into(), 0, vec![0, 1, 2], 1, vec![], None);
    sc.set_occupancy(0, 2);
    sc.set_occupancy(1, 0);
    sc.set_occupancy(2, 1);
    assert_eq!(sc.select_replica(), 1);
    sc.set_occupancy(1, 3);
    sc.set_occupancy(0, 2);
    sc.set_occupancy(2, 2);
    assert_eq!(sc.select_replica(), 0);
}

#[test]
fn a_sidecar_answers_within_its_capacity() {
    let mut sc = ApproxServerSidecar::new("svc".into(), 2, vec![6, 7], 1, vec![4, 5], None);
    let intent = |id: u64| MsPullIntent {
        sender_id: 4,
        request_id: id,
        deadline: 0,
    };
    let first = sc.receive_pull_intent(intent(1), &mut None);
    let second = sc.receive_pull_intent(intent(2), &mut None);
    let third = sc.receive_pull_intent(intent(3), &mut None);
    assert_eq!((first.len(), second.len(), third.len()), (1, 1, 0));
    assert_eq!(first[0].sender_id, 4);
    assert_eq!(first[0].pull.server_idx, 6);
    assert_eq!(first[0].pull.intent_target_idx, 2);
    assert_eq!(second[0].pull.server_idx, 7);
    assert_eq!(second[0].pull.request_id, 2);

    let arrived = SidecarCapacityEvent::PullArrived { server_idx: 7 };
    assert!(sc.capacity_event(arrived, &mut None).is_empty());
    let freed = sc.capacity_event(SidecarCapacityEvent::Completed { server_idx: 7 }, &mut None);
    assert_eq!(freed.len(), 1);
    assert_eq!(freed[0].pull.request_id, 3);
    assert_eq!(freed[0].pull.server_idx, 7);
}

#[test]
fn an_edf_plus_sidecar_answers_the_most_urgent_intent() {
    let sched = Some(ApproxSchedKind::EdfPlus);
    let mut sc = ApproxServerSidecar::new("svc".into(), 0, vec![0], 1, vec![4], sched);
    for (id, deadline) in [(1, 50), (2, 90), (3, 70)] {
        sc.receive_pull_intent(
            MsPullIntent {
                sender_id: 4,
                request_id: id,
                deadline,
            },
            &mut None,
        );
    }
    let next = |sc: &mut ApproxServerSidecar| {
        sc.capacity_event(SidecarCapacityEvent::PullArrived { server_idx: 0 }, &mut None);
        let freed =
            sc.capacity_event(SidecarCapacityEvent::Completed { server_idx: 0 }, &mut None);
        freed[0].pull.request_id
    };
    assert_eq!(next(&mut sc), 3);
    assert_eq!(next(&mut sc), 2);
}

fn sample_call(request_id: u64) -> OutboundCall {
    OutboundCall {
        target_microservice: "backend1".to_string(),
        hop: Hop {
            request_id,
            trace: false,
            api: "handle".to_string(),
            endpoint: "handle".to_string(),
            sibling_index: 0,
            start: 0,
            deadline: 0,
            duration: 0,
            processing_time: 0,
            caller: None,
            outbound_release: None,
            slot_release: None,
        },
    }
}

fn test_rb(approx_sched: Option<ApproxSchedKind>) -> ReplicaBalancer {
    let mut rb = ReplicaBalancer::new(
        PullPolicyKind::PowerOfTwo.build(),
        LoadBalancePolicyKind::Approx,
        0,
        "frontend".to_string(),
        0,
        approx_sched,
    );
    rb.add_target("backend1".to_string(), vec![0], 1, 1);
    rb
}

fn pull_of(request_id: u64) -> ReplicaPull {
    ReplicaPull {
        target_microservice: "backend1".to_string(),
        server_idx: 0,
        intent_target_idx: 0,
        request_id,
    }
}

#[test]
fn balancer_no_bind_pull_takes_oldest_not_bound_id() {
    let mut rng = RunRng::new();
    let mut rb = test_rb(Some(ApproxSchedKind::Fcfs));
    rb.outbound(sample_call(10), &mut rng, &mut None);
    rb.outbound(sample_call(20), &mut rng, &mut None);
    assert_eq!(rb.queue_len(&"backend1".to_string()), 2);
    let pulled = |rb: &mut ReplicaBalancer| match rb.pull(pull_of(99), &mut None) {
        ReplicaPullReply::Dispatch { server, hop } => {
            assert_eq!(server, 0);
            hop.request_id
        }
        _ => panic!("queue non-empty"),
    };
    assert_eq!(pulled(&mut rb), 10);
    assert_eq!(pulled(&mut rb), 20);

    let mut queue = VecDeque::from(vec![sample_call(20)]);
    assert!(remove_call_for_pull(&mut queue, 99).is_none());
    assert_eq!(queue.len(), 1);
}

#[test]
fn no_bind_empty_queue_aborts() {
    let mut rb = test_rb(Some(ApproxSchedKind::Fcfs));
    assert_eq!(rb.queue_len(&"backend1".to_string()), 0);
    match rb.pull(pull_of(99), &mut None) {
        ReplicaPullReply::Abort(text) => assert!(text.contains("queue_len=0"), "{text}"),
        _ => panic!("expected an abort"),
    }
}

#[test]
fn an_announced_call_is_pulled_by_its_id() {
    let mut rng = RunRng::new();
    let mut rb = test_rb(None);
    for id in [10, 20, 30] {
        match rb.outbound(sample_call(id), &mut rng, &mut None) {
            OutboundOutcome::Announced { place, intent } => {
                assert_eq!(place, 0);
                assert_eq!(intent.request_id, id);
            }
            _ => panic!("expected an intent"),
        }
    }
    match rb.pull(pull_of(20), &mut None) {
        ReplicaPullReply::Dispatch { hop, .. } => assert_eq!(hop.request_id, 20),
        _ => panic!("expected call 20"),
    }
    assert!(matches!(
        rb.pull(pull_of(20), &mut None),
        ReplicaPullReply::Abort(_)
    ));
    let mut other = sample_call(1);
    other.target_microservice = "nowhere".to_string();
    assert!(matches!(
        rb.outbound(other, &mut rng, &mut None),
        OutboundOutcome::Refused(_)
    ));
}

#[test]
fn deadlines_order_an_edf_outbound_queue() {
    let mut rng = RunRng::new();
    let mut rb = test_rb(Some(ApproxSchedKind::Edf));
    for (id, deadline) in [(1, 9), (2, 3), (3, 5), (4, 3)] {
        let mut call = sample_call(id);
        call.hop.deadline = deadline;
        rb.outbound(call, &mut rng, &mut None);
    }
    let mut order = Vec::new();
    while rb.queue_len(&"backend1".to_string()) > 0 {
        if let ReplicaPullReply::Dispatch { hop, .. } = rb.pull(pull_of(0), &mut None) {
            order.push(hop.request_id);
        }
    }
    assert_eq!(order, vec![2, 4, 3, 1]);
}

#[test]
fn an_edge_release_undoes_an_entry() {
    let mut rng = RunRng::new();
    enter_run(&mut rng, Some(4));
    let mut edge = EdgeBalancer::new(
        LoadBalancePolicyKind::LeastRequest.build(),
        "f1".to_string(),
        3,
        vec![0, 1, 2],
    );
    let a = edge.input(&mut rng);
    let b = edge.input(&mut rng);
    let c = edge.input(&mut rng);
    let mut all = vec![a, b, c];
    all.sort();
    assert_eq!(all, vec![0, 1, 2]);
    edge.release(b);
    assert_eq!(edge.input(&mut rng), b);
}

fn shared(kind: LoadBalancePolicyKind, sched: CentralizedSchedKind) -> DownstreamBalancer {
    DownstreamBalancer::new("backend1".to_string(), 0, 2, vec![0, 1], kind, sched)
}

fn sent(outcome: SharedOutcome) -> Vec<(usize, u64)> {
    match outcome {
        SharedOutcome::Sent(list) => list.iter().map(|d| (d.server, d.hop.request_id)).collect(),
        SharedOutcome::Refused(text) => panic!("{text}"),
    }
}

#[test]
fn shared_queue_hands_calls_to_waiting_servers() {
    let mut rng = RunRng::new();
    let mut lb = shared(LoadBalancePolicyKind::Centralized, CentralizedSchedKind::Edf);
    assert!(lb.pull(1, &mut None).is_none());
    assert_eq!(
        sent(lb.outbound(sample_call(1), None, &mut rng, &mut None)),
        vec![(1, 1)]
    );
    for (id, deadline) in [(2, 8), (3, 4)] {
        let mut call = sample_call(id);
        call.hop.deadline = deadline;
        assert!(sent(lb.outbound(call, None, &mut rng, &mut None)).is_empty());
    }
    assert_eq!(lb.queue_len(), 2);
    let d = lb.pull(0, &mut None).unwrap();
    assert_eq!((d.server, d.hop.request_id), (0, 3));
}

#[test]
fn shared_push_counts_calls_of_all_callers() {
    let mut rng = RunRng::new();
    enter_run(&mut rng, Some(6));
    let mut lb = shared(LoadBalancePolicyKind::ClLr, CentralizedSchedKind::Fcfs);
    let a = sent(lb.outbound(sample_call(1), None, &mut rng, &mut None))[0].0;
    let b = sent(lb.outbound(sample_call(2), None, &mut rng, &mut None))[0].0;
    assert_ne!(a, b);
    lb.release(OutboundRelease {
        target_microservice: "backend1".to_string(),
        target_server: b,
        response_time_ms: 3,
    });
    let c = sent(lb.outbound(sample_call(3), None, &mut rng, &mut None))[0].0;
    assert_eq!(c, b);
}

#[test]
fn corr_sends_tight_calls_to_light_servers() {
    assert_eq!(rank_among(10, 4), 0);
    assert_eq!(rank_among(10, 5), 1);
    assert_eq!(rank_among(10, 8), 2);
    let servers = vec![0, 1, 2];
    let loads = vec![5, 1, 3];
    assert_eq!(corr_candidates(&servers, &loads, 0), vec![1]);
    assert_eq!(corr_candidates(&servers, &loads, 1), vec![2]);
    assert_eq!(corr_candidates(&servers, &loads, 2), vec![0]);
    assert_eq!(corr_candidates(&servers, &loads, 9), vec![0]);
    let mut rng = RunRng::new();
    assert_eq!(select_corr_replica(&servers, &loads, 0, &mut rng), 1);
}

/// What is left until `deadline`, as floating-point milliseconds tell it.
fn slack_at(deadline: u64, now: u64) -> Option<Slack> {
    let ms = |t: u64| Duration::from_nanos(t).as_secs_f64() * 1000.0;
    let left = ms(deadline) - ms(now);
    (left >= 0.0).then_some(Slack {
        floor_ms: left.floor() as u64,
        rounded_ms: left.round() as u64,
    })
}

#[test]
fn corr_ranks_by_recorded_slack() {
    let mut rng = RunRng::new();
    enter_run(&mut rng, Some(8));
    let mut lb = DownstreamBalancer::new(
        "backend1".to_string(),
        0,
        3,
        vec![0, 1, 2],
        LoadBalancePolicyKind::Corr,
        CentralizedSchedKind::Fcfs,
    );
    // Slack of 1 to 400 ms, so that the ranks have something to compare with.
    let mut served: Vec<usize> = Vec::new();
    for i in 1..=400u64 {
        served.push(sent(lb.outbound(sample_call(i), slack_at(i * MS, 0), &mut rng, &mut None))[0].0);
    }
    for s in &served {
        lb.release(OutboundRelease {
            target_microservice: "backend1".to_string(),
            target_server: *s,
            response_time_ms: 1,
        });
    }
    // Server loads 0, 0, 0: make them 2, 1, 0 through known picks.
    let dispatch = |lb: &mut DownstreamBalancer, rng: &mut RunRng, slack_ms: u64| {
        let slack = slack_at(slack_ms * MS, 0);
        sent(lb.outbound(sample_call(1000), slack, rng, &mut None))[0].0
    };
    let first = dispatch(&mut lb, &mut rng, 1);
    let second = dispatch(&mut lb, &mut rng, 1);
    assert_ne!(first, second, "the tightest call goes to a least loaded server");
    let third = dispatch(&mut lb, &mut rng, 1);
    assert!(third != first && third != second);
}

#[test]
fn slack_is_compared_at_two_digits() {
    let mut rng = RunRng::new();
    enter_run(&mut rng, Some(8));
    let mut lb = DownstreamBalancer::new(
        "backend1".to_string(),
        0,
        3,
        vec![0, 1, 2],
        LoadBalancePolicyKind::Corr,
        CentralizedSchedKind::Fcfs,
    );
    let dispatch = |lb: &mut DownstreamBalancer, rng: &mut RunRng, slack_ms: u64| {
        let slack = slack_at(slack_ms * MS, 0);
        sent(lb.outbound(sample_call(1), slack, rng, &mut None))[0].0
    };
    for _ in 0..400 {
        let server = dispatch(&mut lb, &mut rng, 401);
        lb.release(OutboundRelease {
            target_microservice: "backend1".to_string(),
            target_server: server,
            response_time_ms: 1,
        });
    }
    let a = dispatch(&mut lb, &mut rng, 1);
    let b = dispatch(&mut lb, &mut rng, 1);
    let c = dispatch(&mut lb, &mut rng, 1);
    assert!(a != b && b != c && a != c);
    // The fourth call makes one server the only one with two calls.
    let heavy = dispatch(&mut lb, &mut rng, 1);
    // 400 ms share a bin with the 401 ms seen so far, 399 ms do not.
    assert_eq!(dispatch(&mut lb, &mut rng, 400), heavy);
    assert_ne!(dispatch(&mut lb, &mut rng, 399), heavy);
}

#[test]
fn slack_is_rounded_to_be_kept_and_cut_off_to_be_compared() {
    let mut rng = RunRng::new();
    enter_run(&mut rng, Some(8));
    let mut lb = DownstreamBalancer::new(
        "backend1".to_string(),
        0,
        3,
        vec![0, 1, 2],
        LoadBalancePolicyKind::Corr,
        CentralizedSchedKind::Fcfs,
    );
    // Five milliseconds before 1.005 s come out just below five.
    let short = slack_at(1_005 * MS, 1_000 * MS);
    assert_eq!(
        short,
        Some(Slack {
            floor_ms: 4,
            rounded_ms: 5
        })
    );
    let mut served = Vec::new();
    for i in 0..200 {
        served.push(sent(lb.outbound(sample_call(i), short, &mut rng, &mut None))[0].0);
    }
    for s in &served {
        lb.release(OutboundRelease {
            target_microservice: "backend1".to_string(),
            target_server: *s,
            response_time_ms: 1,
        });
    }
    let mut dispatch =
        |slack: Option<Slack>| sent(lb.outbound(sample_call(9), slack, &mut rng, &mut None))[0].0;
    // Nothing below five was seen: such calls go to the least loaded servers.
    let a = dispatch(short);
    let b = dispatch(short);
    let c = dispatch(short);
    assert!(a != b && b != c && a != c);
    let heavy = dispatch(short);
    // Everything seen so far is five or less.
    assert_eq!(dispatch(slack_at(5 * MS, 0)), heavy);
    // Past the deadline, the highest load there is.
    assert_eq!(dispatch(slack_at(5 * MS, 6 * MS)), heavy);
}

#[test]
fn waiting_calls_count_in_the_level_of_a_server() {
    assert_eq!(server_level(3, &vec![]), 3);
    assert_eq!(server_level(3, &vec![2, 0, 5]), 10);
    assert_eq!(server_level(0, &vec![4]), 4);
}

#[test]
fn a_gateway_forwards_known_targets_only() {
    let gateway = OutboundGateway::new(vec!["backend1".to_string()]);
    assert_eq!(gateway.input(sample_call(7)).ok().unwrap().hop.request_id, 7);
    let mut other = sample_call(8);
    other.target_microservice = "nowhere".to_string();
    assert!(gateway.input(other).is_err());
    let release = |target: &str| OutboundRelease {
        target_microservice: target.to_string(),
        target_server: 0,
        response_time_ms: 0,
    };
    assert!(gateway.release(release("backend1")).is_some());
    assert!(gateway.release(release("nowhere")).is_none());
}

#[test]
fn runs_of_unsupported_policies_are_refused() {
    assert!(validate_run(LoadBalancePolicyKind::Prequal, 0)
        .unwrap_err()
        .contains("prequal is not supported by the ms simulator"));
    for kind in [
        LoadBalancePolicyKind::Cl,
        LoadBalancePolicyKind::ClLr,
        LoadBalancePolicyKind::ClR,
        LoadBalancePolicyKind::ClRr,
        LoadBalancePolicyKind::Corr,
    ] {
        assert!(validate_run(kind, 0).is_ok());
        assert!(validate_run(kind, 2)
            .unwrap_err()
            .contains("--lb-subset-size is not supported"));
    }
    assert!(validate_run(LoadBalancePolicyKind::Centralized, 5).is_ok());
}

#[test]
fn shares_give_out_every_request() {
    assert_eq!(split_by_shares(10, &vec![5, 3]), vec![5, 5]);
    assert_eq!(split_by_shares(10, &vec![7, 7]).iter().sum::<u32>(), 10);
    assert_eq!(split_by_shares(10, &vec![4]), vec![10]);
    assert!(split_by_shares(10, &vec![]).is_empty());
}

#[test]
fn replicas_share_the_cpus() {
    let spec = MicroserviceSpec {
        cpu: 7,
        replicas: 3,
    };
    let push = plan_replica(LoadBalancePolicyKind::PowerOfTwo, None, spec, true);
    assert_eq!(push.max_concurrency, 2);
    assert_eq!(push.central, CentralPull::Off);
    assert_eq!(push.initial_pulls, 0);
    let central = plan_replica(LoadBalancePolicyKind::Centralized, None, spec, true);
    assert_eq!(central.central, CentralPull::WhenIdle);
    assert_eq!(central.initial_pulls, 2);
    let jbsq = plan_replica(LoadBalancePolicyKind::Jbsq, Some(5), spec, true);
    assert_eq!(jbsq.central, CentralPull::UpTo(5));
    assert_eq!(jbsq.initial_pulls, 5);
    let entry = plan_replica(LoadBalancePolicyKind::Jbsq, Some(5), spec, false);
    assert_eq!(entry.central, CentralPull::Off);
}

fn completed(api: &str, start: u64, finish: u64, processing_time: u64) -> CompletedRequest {
    CompletedRequest {
        request_id: 0,
        trace: false,
        api: api.to_string(),
        start,
        finish,
        processing_time,
    }
}

#[test]
fn summaries_keep_apis_apart() {
    let done = vec![
        completed("a", 0, 10, 4),
        completed("b", 5, 8, 3),
        completed("a", 10, 12, 1),
    ];
    let mut slo = NameMap::new();
    slo.insert("a".to_string(), 5u64);
    let summary = calculate_stats(&done, &slo).unwrap();
    assert_eq!(summary.by_api.len(), 2);
    let a = summary.by_api.get(&"a".to_string()).unwrap();
    assert_eq!(a.e2e, vec![10, 2]);
    assert_eq!(a.processing, vec![4, 1]);
    assert_eq!(a.unloaded_latency_p99, 4);
    assert_eq!(a.violations, Some(1));
    let b = summary.by_api.get(&"b".to_string()).unwrap();
    assert_eq!(b.e2e, vec![3]);
    assert_eq!(b.violations, None);
    assert_eq!(summary.total_processing_p99, 4);
    assert!(calculate_stats(&vec![], &slo).is_none());
}

#[test]
fn the_first_requests_are_traced() {
    let mut tracer = MsTracer::new(2);
    assert_eq!(tracer.next_request_id(), (1, true));
    assert_eq!(tracer.next_request_id(), (2, true));
    assert_eq!(tracer.next_request_id(), (3, false));
    assert!(tracer.should_trace(2));
    assert!(!tracer.should_trace(3));
}

#[test]
fn a_name_map_keeps_the_order_of_first_insertion() {
    let mut map: NameMap<u32> = NameMap::new();
    assert_eq!(map.insert("b".to_string(), 1), None);
    assert_eq!(map.insert("a".to_string(), 2), None);
    assert_eq!(map.insert("b".to_string(), 3), Some(1));
    assert_eq!(map.len(), 2);
    assert_eq!(map.key_at(0), "b");
    assert_eq!(*map.value_at(0), 3);
    *map.value_mut(1) = 9;
    assert_eq!(map.get(&"a".to_string()), Some(&9));
    assert_eq!(map.remove(&"b".to_string()), Some(3));
    assert!(!map.contains(&"b".to_string()));
}

#[test]
fn sidecars_pass_upstream_work_to_the_lightest_replica() {
    let mut sc = ApproxServerSidecar::new("svc".into(), 0, vec![0, 1], 1, vec![], None);
    let hop = sample_call(5).hop;
    let (server, got) = sc.receive_upstream(ReplicaInput::Upstream(hop)).unwrap();
    assert_eq!(server, 0);
    assert_eq!(got.request_id, 5);
    let (server, _) = sc
        .receive_upstream(ReplicaInput::Upstream(sample_call(6).hop))
        .unwrap();
    assert_eq!(server, 1);
    assert!(sc
        .receive_upstream(ReplicaInput::DownstreamReturn(sample_call(7).hop))
        .is_none());
}
