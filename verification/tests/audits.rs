use lb::approx_audit::ApproxPullAudit;
use lb::lb_centralized_audit::LbCentralizedAudit;
use lb::lb_pull_audit::LbPullAudit;
use lb::ms_centralized_audit::MsCentralizedAudit;
use lb::ms_jbsq_audit::MsJbsqAudit;

#[test]
fn validate_accepts_well_formed_sequence() {
    let mut audit = ApproxPullAudit::new();
    audit.record_intent_sent(3, "frontend", 3, "backend1", 4, 10);
    audit.record_intent_queued("backend1", 4, 3, 10, 0);
    audit.record_intent_drained("backend1", 4, 3, 10, 1, 0, 0, 1);
    audit.record_pull_matched(3, "frontend", 3, "backend1", 4, 10);
    audit.validate().expect("valid sequence");
}

#[test]
fn validate_rejects_fifo_violation() {
    let mut audit = ApproxPullAudit::new();
    audit.record_intent_sent(1, "frontend", 1, "backend1", 0, 1);
    audit.record_intent_sent(2, "frontend", 2, "backend1", 0, 2);
    audit.record_intent_queued("backend1", 0, 1, 1, 0);
    audit.record_intent_queued("backend1", 0, 2, 2, 1);
    audit.record_intent_drained("backend1", 0, 2, 2, 2, 0, 0, 2);
    let err = audit.validate().unwrap_err();
    assert!(err.contains("not FIFO"), "unexpected error: {err}");
}

#[test]
fn approx_audit_reports_each_fault() {
    assert_eq!(
        ApproxPullAudit::new().validate().unwrap_err(),
        "no approx pull audit events recorded"
    );

    let mut depth = ApproxPullAudit::new();
    depth.record_intent_queued("svc", 2, 1, 7, 3);
    assert_eq!(
        depth.validate().unwrap_err(),
        "intent queue depth mismatch on IntentQueued (svc/2): expected 0, got 3 (seq=0)"
    );

    let mut capacity = ApproxPullAudit::new();
    capacity.record_intent_queued("svc", 0, 1, 7, 0);
    capacity.record_intent_drained("svc", 0, 1, 7, 1, 1, 1, 2);
    assert_eq!(
        capacity.validate().unwrap_err(),
        "IntentDrained while at capacity (svc/0): in_flight=1 pending=1 max=2 (seq=1)"
    );

    let mut drained_depth = ApproxPullAudit::new();
    drained_depth.record_intent_queued("svc", 0, 1, 7, 0);
    drained_depth.record_intent_drained("svc", 0, 1, 7, 5, 0, 0, 2);
    assert!(drained_depth
        .validate()
        .unwrap_err()
        .contains("depth mismatch on IntentDrained"));

    let mut empty = ApproxPullAudit::new();
    empty.record_intent_drained("svc", 0, 1, 7, 0, 0, 0, 2);
    assert_eq!(
        empty.validate().unwrap_err(),
        "IntentDrained from empty queue (svc/0) (seq=0)"
    );

    let mut none_sent = ApproxPullAudit::new();
    none_sent.record_intent_queued("svc", 0, 1, 7, 0);
    assert_eq!(none_sent.validate().unwrap_err(), "no IntentSent events");

    let mut undelivered = ApproxPullAudit::new();
    undelivered.record_intent_sent(1, "a", 0, "svc", 0, 7);
    assert_eq!(
        undelivered.validate().unwrap_err(),
        "intent delivery mismatch: sent 1 intents, queued 0"
    );

    let mut undrained = ApproxPullAudit::new();
    undrained.record_intent_sent(1, "a", 0, "svc", 0, 7);
    undrained.record_intent_queued("svc", 0, 1, 7, 0);
    assert_eq!(
        undrained.validate().unwrap_err(),
        "intent drain mismatch: sent 1 intents, drained 0"
    );

    let mut unmatched = ApproxPullAudit::new();
    unmatched.record_intent_sent(1, "a", 0, "svc", 0, 7);
    unmatched.record_intent_queued("svc", 0, 1, 7, 0);
    unmatched.record_intent_drained("svc", 0, 1, 7, 1, 0, 0, 1);
    assert_eq!(
        unmatched.validate().unwrap_err(),
        "bound pull mismatch: sent 1 intents, matched 0 pulls"
    );

    let mut pairing = ApproxPullAudit::new();
    pairing.record_intent_sent(1, "a", 0, "svc", 1, 7);
    pairing.record_intent_queued("svc", 0, 1, 7, 0);
    pairing.record_intent_drained("svc", 0, 1, 7, 1, 0, 0, 1);
    pairing.record_pull_matched(1, "a", 0, "svc", 0, 7);
    assert_eq!(
        pairing.validate().unwrap_err(),
        "IntentSent vs IntentQueued pairing mismatch: \
         sent={(\"svc\", 1, 1, 7): 1} queued={(\"svc\", 0, 1, 7): 1}"
    );

    let mut twice = ApproxPullAudit::new();
    for request in [7, 8, 7] {
        twice.record_intent_sent(1, "a", 0, "svc", 0, request);
    }
    for (before, request) in [(0, 8), (1, 8), (2, 7)] {
        twice.record_intent_queued("svc", 0, 1, request, before);
    }
    for (before, request) in [(3, 8), (2, 8), (1, 7)] {
        twice.record_intent_drained("svc", 0, 1, request, before, 0, 0, 1);
        twice.record_pull_matched(1, "a", 0, "svc", 0, request);
    }
    assert_eq!(
        twice.validate().unwrap_err(),
        "IntentSent vs IntentQueued pairing mismatch: \
         sent={(\"svc\", 0, 1, 7): 2, (\"svc\", 0, 1, 8): 1} \
         queued={(\"svc\", 0, 1, 8): 2, (\"svc\", 0, 1, 7): 1}"
    );

    let mut handler = ApproxPullAudit::new();
    handler.record_intent_sent(1, "a", 0, "svc", 0, 7);
    handler.record_intent_queued("svc", 0, 1, 7, 0);
    handler.record_intent_drained("svc", 0, 1, 7, 1, 0, 0, 1);
    handler.record_pull_matched(2, "a", 0, "svc", 0, 7);
    assert_eq!(
        handler.validate().unwrap_err(),
        "IntentDrained sender_rb_id=1 request_id=7 on svc/0 has no PullMatched handler"
    );
}

#[test]
fn validate_no_bind_accepts_intent_mismatch() {
    let mut audit = LbPullAudit::new();
    audit.record_task_enqueued(0, 3, 0);
    audit.record_task_enqueued(0, 5, 1);
    audit.record_intent_sent(0, 0, 3);
    audit.record_intent_sent(0, 1, 5);
    audit.record_intent_queued(1, 0, 5, 0);
    audit.record_intent_drained(1, 0, 5, 1, 0, 0, 1);
    audit.record_pull_fulfilled(0, 1, Some(5), 3, 2, Some(3));
    audit.record_intent_queued(0, 0, 3, 0);
    audit.record_intent_drained(0, 0, 3, 1, 0, 0, 1);
    audit.record_pull_fulfilled(0, 0, Some(3), 5, 1, Some(5));
    audit.validate_no_bind().expect("valid no-bind sequence");
}

#[test]
fn validate_no_bind_rejects_wrong_queue_head() {
    let mut audit = LbPullAudit::new();
    audit.record_task_enqueued(0, 3, 0);
    audit.record_intent_sent(0, 0, 3);
    audit.record_intent_queued(0, 0, 3, 0);
    audit.record_intent_drained(0, 0, 3, 1, 0, 0, 1);
    audit.record_pull_fulfilled(0, 0, Some(3), 99, 1, Some(3));
    let err = audit.validate_no_bind().unwrap_err();
    assert!(
        err.contains("not queue head") || err.contains("not FCFS"),
        "unexpected error: {err}"
    );
}

#[test]
fn validate_bound_rejects_intent_mismatch() {
    let mut audit = LbPullAudit::new();
    audit.record_task_enqueued(0, 3, 0);
    audit.record_intent_sent(0, 0, 3);
    audit.record_intent_queued(0, 0, 3, 0);
    audit.record_intent_drained(0, 0, 3, 1, 0, 0, 1);
    audit.record_pull_fulfilled(0, 0, Some(5), 3, 1, Some(3));
    let err = audit.validate_bound().unwrap_err();
    assert!(err.contains("bound pull mismatch"), "unexpected error: {err}");
}

#[test]
fn bound_trace_is_accepted_and_read_back() {
    let mut audit = LbPullAudit::new();
    audit.record_task_enqueued(0, 3, 0);
    audit.record_intent_sent(0, 0, 3);
    audit.record_intent_queued(0, 0, 3, 0);
    audit.record_intent_drained(0, 0, 3, 1, 0, 0, 1);
    audit.record_pull_fulfilled(0, 0, Some(3), 3, 1, Some(3));
    audit.validate_common().expect("common");
    audit.validate_bound().expect("bound");
    assert_eq!(audit.pull_fulfilled_events(), vec![(Some(3), 3, Some(3))]);
    assert!(LbPullAudit::new().validate_common().is_err());
}

#[test]
fn caller_mapping_rejects_mismatch() {
    let mut audit = MsCentralizedAudit::new();
    audit.record_call_enqueued("backend1", 0, 1, 1, 0);
    let err = audit
        .validate_caller_lb_mapping("backend1", 10, 5)
        .unwrap_err();
    assert!(err.contains("maps to lb 1"));
}

#[test]
fn caller_mapping_accepts_modulo() {
    let mut audit = MsCentralizedAudit::new();
    audit.record_call_enqueued("backend1", 0, 0, 1, 0);
    audit.record_call_enqueued("backend1", 1, 1, 2, 0);
    audit.record_call_enqueued("backend1", 0, 2, 3, 0);
    audit
        .validate_caller_lb_mapping("backend1", 10, 5)
        .expect("mapping ok");
}

#[test]
fn caller_mapping_needs_an_enqueue_and_keeps_targets_apart() {
    let mut audit = MsCentralizedAudit::new();
    audit.record_call_enqueued("backend2", 0, 0, 1, 0);
    let err = audit
        .validate_caller_lb_mapping("backend1", 10, 5)
        .unwrap_err();
    assert_eq!(err, "target backend1: no enqueues recorded");
    assert_eq!(audit.events().len(), 1);
}

#[test]
fn central_dispatch_outside_its_subset_is_rejected() {
    let inside = lb::subset::deterministic_subset(10, 0, 5);
    let outside = (0..10).find(|i| !inside.contains(i)).unwrap();

    let other = lb::subset::deterministic_subset(10, 1, 5);

    let mut good = LbCentralizedAudit::new();
    good.record_task_enqueued(0, 1, 0);
    good.record_task_dispatched(0, inside[0], 1);
    good.record_task_enqueued(1, 2, 0);
    good.record_task_dispatched(1, other[0], 2);
    good.validate_disjoint_subsets(10, 5).expect("disjoint");
    good.validate_centralized_per_subset(10, 5).expect("in subset");

    let mut bad = LbCentralizedAudit::new();
    bad.record_task_enqueued(0, 1, 0);
    bad.record_task_dispatched(0, outside, 1);
    assert!(bad.validate_centralized_per_subset(10, 5).is_err());
    assert_eq!(bad.events().len(), 2);

    let mut one_sided = LbCentralizedAudit::new();
    one_sided.record_task_dispatched(0, inside[0], 1);
    assert_eq!(
        one_sided.validate_centralized_per_subset(10, 5).unwrap_err(),
        "expected 2 LBs with dispatches, saw 1"
    );
}

#[test]
fn validate_rejects_pull_at_capacity() {
    let mut audit = MsJbsqAudit::new();
    audit.record_pull_sent("backend1", 0, 2, 0, 2);
    let err = audit.validate().unwrap_err();
    assert!(err.contains("PullSent when at capacity"));
}

#[test]
fn validate_accepts_under_capacity_pull_and_arrival() {
    let mut audit = MsJbsqAudit::new();
    audit.record_pull_sent("backend1", 0, 0, 0, 2);
    audit.record_pull_arrived("backend1", 0, 0, 0, 1, 2);
    audit.validate().unwrap();
}

#[test]
fn jbsq_audit_reports_each_fault() {
    assert_eq!(
        MsJbsqAudit::new().validate().unwrap_err(),
        "jbsq audit recorded no events"
    );
    let mut audit = MsJbsqAudit::new();
    audit.record_pull_arrived("svc", 3, 1, 1, 1, 2);
    assert_eq!(
        audit.validate().unwrap_err(),
        "PullArrived exceeds n: ms=svc server=3 queue=1 in_flight=1 occupancy_after=3 n=2 (seq=0)"
    );
    assert!(audit.observed_local_queueing());
    assert_eq!(audit.pull_arrived_count(), 1);
    assert_eq!(audit.pull_sent_count(), 0);
}
