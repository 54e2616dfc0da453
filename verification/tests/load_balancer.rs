use lb::approx::PullRequest;
use lb::lb_pull_audit::LbPullAudit;
use lb::load_balancer::{LoadBalancer, PullOutcome};
use lb::policy::{ApproxSchedKind, LoadBalancePolicyKind, PullPolicyKind};
use lb::prequal::ProbeReply;
use lb::rng::{enter_run, RunRng};
use lb::server::Task;

fn test_lb(approx_sched: Option<ApproxSchedKind>) -> LoadBalancer {
    LoadBalancer::new(
        PullPolicyKind::LeastRequest.build(),
        LoadBalancePolicyKind::Approx,
        2,
        vec![0, 1],
        0,
        false,
        approx_sched,
    )
}

/// A balancer that holds the tasks 1, 2 and 3.
fn lb_with_three(approx_sched: Option<ApproxSchedKind>) -> LoadBalancer {
    let mut rng = RunRng::new();
    enter_run(&mut rng, Some(1));
    let mut lb = test_lb(approx_sched);
    for _ in 0..4 {
        let out = lb.input(Task::new(0, 1_000_000_000), 0, &mut rng, &mut None);
        assert!(out.dispatches.is_empty());
        assert!(out.intent.is_some());
    }
    let first = lb.remove_task_for_pull(0).expect("task 0 present");
    assert_eq!(first.task_id, 0);
    lb
}

fn pulled_id(lb: &mut LoadBalancer, server_idx: usize, request_id: u64) -> u64 {
    match lb.pull(
        PullRequest {
            server_idx,
            request_id: Some(request_id),
        },
        &mut None,
    ) {
        PullOutcome::Dispatch(d) => {
            assert_eq!(d.server_idx, server_idx);
            d.task.task_id
        }
        PullOutcome::Wait => panic!("no task"),
        PullOutcome::Abort(text) => panic!("{text}"),
    }
}

#[test]
fn bound_pull_removes_matching_task_not_front() {
    let mut lb = lb_with_three(None);
    let task = lb.remove_task_for_pull(2).expect("task 2 present");
    assert_eq!(task.task_id, 2);
    assert!(lb.remove_task_for_pull(2).is_none());
    assert_eq!(lb.remove_task_for_pull(1).expect("task 1 present").task_id, 1);
    assert_eq!(lb.remove_task_for_pull(3).expect("task 3 present").task_id, 3);
}

#[test]
fn load_balancer_no_bind_pull_takes_oldest_not_bound_id() {
    let mut lb = lb_with_three(Some(ApproxSchedKind::Fcfs));
    assert_eq!(pulled_id(&mut lb, 0, 99), 1);
    assert_eq!(pulled_id(&mut lb, 1, 3), 2);
    assert_eq!(pulled_id(&mut lb, 0, 1), 3);
}

#[test]
fn bound_pull_takes_the_announced_task() {
    let mut lb = lb_with_three(None);
    assert_eq!(pulled_id(&mut lb, 0, 3), 3);
    assert_eq!(pulled_id(&mut lb, 0, 1), 1);
}

#[test]
fn unanswerable_pulls_abort_with_the_state() {
    let mut no_bind = test_lb(Some(ApproxSchedKind::Fcfs));
    let pull = PullRequest {
        server_idx: 0,
        request_id: Some(99),
    };
    match no_bind.pull(pull, &mut None) {
        PullOutcome::Abort(text) => assert_eq!(
            text,
            "no queued task for approx pull (lb_id=0, server_idx=0, \
             ignored_request_id=Some(99), queue_len=0, pull_intent_load=0, \
             queued_task_ids=[])"
        ),
        _ => panic!("expected an abort"),
    }

    let mut bound = lb_with_three(None);
    match bound.pull(pull, &mut None) {
        PullOutcome::Abort(text) => assert_eq!(
            text,
            "bound task not found (lb_id=0, server_idx=0, request_id=99, queue_len=3, \
             queued_task_ids=[1, 2, 3])"
        ),
        _ => panic!("expected an abort"),
    }
    let unnamed = PullRequest {
        server_idx: 1,
        request_id: None,
    };
    match bound.pull(unnamed, &mut None) {
        PullOutcome::Abort(text) => assert_eq!(
            text,
            "missing request_id on approx pull (lb_id=0, server_idx=1)"
        ),
        _ => panic!("expected an abort"),
    }
    assert_eq!(
        lb::approx::pull_abort_message("lb", "why"),
        "approx pull abort (lb): why"
    );
}

#[test]
fn central_queue_serves_waiting_servers_in_turn() {
    let mut rng = RunRng::new();
    let mut lb = LoadBalancer::new(
        LoadBalancePolicyKind::Centralized.build(),
        LoadBalancePolicyKind::Centralized,
        2,
        vec![0, 1],
        0,
        false,
        None,
    );
    let pull = |s: usize| PullRequest {
        server_idx: s,
        request_id: None,
    };
    assert!(matches!(lb.pull(pull(1), &mut None), PullOutcome::Wait));
    assert!(matches!(lb.pull(pull(0), &mut None), PullOutcome::Wait));
    let first = lb.input(Task::new(5, 7), 0, &mut rng, &mut None);
    assert_eq!(first.dispatches.len(), 1);
    assert_eq!(first.dispatches[0].server_idx, 1);
    assert_eq!(first.dispatches[0].task.start, 5);
    let second = lb.input(Task::new(6, 7), 0, &mut rng, &mut None);
    assert_eq!(second.dispatches[0].server_idx, 0);
    let third = lb.input(Task::new(8, 7), 0, &mut rng, &mut None);
    assert!(third.dispatches.is_empty());
    match lb.pull(pull(1), &mut None) {
        PullOutcome::Dispatch(d) => assert_eq!(d.task.start, 8),
        _ => panic!("expected the queued task"),
    }
}

#[test]
fn a_release_takes_back_a_dispatch() {
    let mut rng = RunRng::new();
    enter_run(&mut rng, Some(9));
    let mut lb = LoadBalancer::new(
        LoadBalancePolicyKind::LeastRequest.build(),
        LoadBalancePolicyKind::LeastRequest,
        2,
        vec![0, 1],
        4,
        false,
        None,
    );
    let a = lb.input(Task::new(0, 1), 0, &mut rng, &mut None).dispatches[0];
    assert_eq!(a.task.lb_id, 4);
    assert_eq!(a.task.origin_server_idx, a.server_idx);
    let b = lb.input(Task::new(0, 1), 0, &mut rng, &mut None).dispatches[0];
    assert_ne!(a.server_idx, b.server_idx);
    lb.release(a.server_idx);
    let c = lb.input(Task::new(0, 1), 0, &mut rng, &mut None).dispatches[0];
    assert_eq!(c.server_idx, a.server_idx);
}

#[test]
fn probed_servers_are_preferred() {
    let mut rng = RunRng::new();
    enter_run(&mut rng, Some(2));
    let mut lb = LoadBalancer::new(
        LoadBalancePolicyKind::Prequal.build(),
        LoadBalancePolicyKind::Prequal,
        8,
        (0..8).collect(),
        0,
        false,
        None,
    );
    lb.probe_reply(ProbeReply {
        server_idx: 6,
        rif: 0,
    });
    lb.probe_reply(ProbeReply {
        server_idx: 3,
        rif: 4,
    });
    let out = lb.input(Task::new(0, 1), 0, &mut rng, &mut None);
    assert_eq!(out.dispatches.len(), 1);
    assert_eq!(out.dispatches[0].server_idx, 6);
    assert!(out.intent.is_none());
    assert_eq!(out.probes.len(), 2);
    assert_eq!(out.removed, 0);

    // The one candidate left, server 3, leaves the pool before the next task is sent.
    let out = lb.input(Task::new(0, 1), 2, &mut rng, &mut None);
    assert_eq!(out.removed, 1);
    assert_eq!(out.dispatches.len(), 1);
}

#[test]
fn a_pull_trail_is_accepted() {
    let mut rng = RunRng::new();
    enter_run(&mut rng, Some(5));
    let mut audit = Some(LbPullAudit::new());
    let mut lb = test_lb(None);
    for _ in 0..6 {
        let out = lb.input(Task::new(0, 1), 0, &mut rng, &mut audit);
        let intent = out.intent.unwrap();
        if let Some(a) = &mut audit {
            a.record_intent_queued(intent.server_idx, 0, intent.intent.request_id, 0);
            a.record_intent_drained(intent.server_idx, 0, intent.intent.request_id, 1, 0, 0, 1);
        }
        let pull = PullRequest {
            server_idx: intent.server_idx,
            request_id: Some(intent.intent.request_id),
        };
        assert!(matches!(
            lb.pull(pull, &mut audit),
            PullOutcome::Dispatch(_)
        ));
    }
    let audit = audit.unwrap();
    audit.validate_common().expect("common");
    audit.validate_bound().expect("bound");
    assert!(audit
        .validate_no_bind()
        .unwrap_err()
        .contains("never exercised"));
    assert_eq!(audit.pull_fulfilled_events().len(), 6);
}
