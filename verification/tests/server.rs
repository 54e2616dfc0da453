use lb::prequal::{Probe, ProbeReply};
use lb::server::{
    head_of_line_exceeds_threshold, head_of_line_wait, ideal_queue_delay_estimate,
    remaining_service_time, remove_task_from_queue, DispatchMode, InFlightService, ProbeAnswer,
    QueueDelayEvictionMode, Server, Task,
};

fn secs(s: f64) -> u64 {
    (s * 1e9).round() as u64
}

fn task_with_duration(start_offset: f64, duration: f64) -> Task {
    Task::new(secs(start_offset), secs(duration))
}

fn in_flight(started_offset: f64, duration: f64) -> InFlightService {
    InFlightService {
        started_at: secs(started_offset),
        duration: secs(duration),
    }
}

#[test]
fn head_of_line_wait_uses_in_flight_service_start() {
    let in_flight = vec![in_flight(1.0, 2.0)];
    assert_eq!(head_of_line_wait(&in_flight, secs(3.5)), secs(2.5));
}

#[test]
fn head_of_line_wait_uses_max_elapsed_among_in_flight() {
    let in_flight = vec![in_flight(0.0, 4.0), in_flight(2.0, 1.0)];
    assert_eq!(head_of_line_wait(&in_flight, secs(3.0)), secs(3.0));
}

#[test]
fn head_of_line_exceeds_threshold_at_boundary() {
    let in_flight = vec![in_flight(1.0, 2.0)];
    let threshold = secs(2.5);
    assert!(!head_of_line_exceeds_threshold(&in_flight, secs(3.5), threshold));
    assert!(head_of_line_exceeds_threshold(&in_flight, secs(3.51), threshold));
}

#[test]
fn head_of_line_exceeds_threshold_false_when_no_in_flight() {
    assert!(!head_of_line_exceeds_threshold(&[], secs(10.0), secs(1.0)));
}

#[test]
fn ideal_queue_delay_estimate_sums_queue_and_min_remaining() {
    let queue = vec![task_with_duration(0.0, 1.0), task_with_duration(0.0, 2.0)];
    let in_flight = vec![in_flight(0.0, 4.0), in_flight(0.0, 1.5)];
    let delay = ideal_queue_delay_estimate(&queue, &in_flight, secs(1.0));
    assert_eq!(delay, u128::from(secs(3.5)));
}

#[test]
fn ideal_queue_delay_estimate_with_no_in_flight_uses_queue_only() {
    let queue = vec![task_with_duration(0.0, 0.75)];
    let delay = ideal_queue_delay_estimate(&queue, &[], secs(1.0));
    assert_eq!(delay, u128::from(secs(0.75)));
}

#[test]
fn remove_task_from_queue_finds_task_not_at_back() {
    let t0 = task_with_duration(0.0, 1.0);
    let t1 = task_with_duration(1.0, 1.0);
    let t2 = task_with_duration(2.0, 1.0);
    let mut queue = vec![t0.clone(), t1.clone(), t2.clone()];
    let removed = remove_task_from_queue(&mut queue, t1.start).unwrap();
    assert_eq!(removed.start, t1.start);
    assert_eq!(queue.len(), 2);
    assert_eq!(queue[0].start, t0.start);
    assert_eq!(queue[1].start, t2.start);
}

#[test]
fn remove_task_from_queue_returns_none_when_missing() {
    let mut queue = vec![task_with_duration(0.0, 1.0)];
    assert!(remove_task_from_queue(&mut queue, secs(99.0)).is_none());
}

#[test]
fn queue_delay_eviction_mode_from_ideal_flag() {
    assert_eq!(
        if false {
            QueueDelayEvictionMode::ImmediateIdeal
        } else {
            QueueDelayEvictionMode::Monitored
        },
        QueueDelayEvictionMode::Monitored
    );
    assert_eq!(
        if true {
            QueueDelayEvictionMode::ImmediateIdeal
        } else {
            QueueDelayEvictionMode::Monitored
        },
        QueueDelayEvictionMode::ImmediateIdeal
    );
}

#[test]
fn remaining_service_time_never_goes_below_zero() {
    assert_eq!(remaining_service_time(secs(1.0), secs(2.0), secs(2.0)), secs(1.0));
    assert_eq!(remaining_service_time(secs(1.0), secs(2.0), secs(9.0)), 0);
}

#[test]
fn a_probe_counts_queued_and_running_tasks() {
    let mut server = Server::new(2, 4, None, None, false, None, DispatchMode::Push);
    for expected in 0..=3 {
        let answer = server.receive_probe(Probe { sender_id: 7 });
        let reply = ProbeReply {
            server_idx: 4,
            rif: expected,
        };
        assert_eq!(answer, ProbeAnswer { lb_id: 7, reply });
        server.input(task_with_duration(0.0, 1.0), 0);
    }
}
