use lb::scheduling::{
    edf_insert_index, edf_insert_index_in_mixed_queue, SchedulingPolicyKind,
};

fn t(ms: u64) -> u64 {
    ms * 1_000_000
}

#[test]
fn edf_inserts_before_first_strictly_later_upstream() {
    let items = vec![(true, t(120)), (true, t(200)), (false, t(0))];
    let idx = edf_insert_index_in_mixed_queue(&items, t(150));
    assert_eq!(idx, 1);
}

#[test]
fn edf_appends_when_no_later_upstream() {
    let items = vec![(true, t(100)), (true, t(120))];
    let idx = edf_insert_index_in_mixed_queue(&items, t(200));
    assert_eq!(idx, 2);
}

#[test]
fn edf_skips_returns_when_scanning() {
    let items = vec![(true, t(100)), (false, t(0)), (true, t(180))];
    let idx = edf_insert_index_in_mixed_queue(&items, t(150));
    assert_eq!(idx, 2);
}

#[test]
fn edf_equal_deadline_inserts_after_existing() {
    let items = vec![(true, t(120)), (true, t(200))];
    let idx = edf_insert_index_in_mixed_queue(&items, t(120));
    assert_eq!(idx, 1);
}

#[test]
fn edf_insertion_keeps_a_queue_in_order() {
    let mut queue: Vec<u64> = Vec::new();
    for d in [t(5), t(1), t(9), t(5), t(0), t(9)] {
        let at = edf_insert_index(&queue, d);
        queue.insert(at, d);
    }
    assert_eq!(queue, vec![t(0), t(1), t(5), t(5), t(9), t(9)]);
    assert_eq!(edf_insert_index(&queue, t(5)), 4);
    assert_eq!(SchedulingPolicyKind::default(), SchedulingPolicyKind::Fifo);
}

#[test]
fn deadline_insertion_moves_no_other_item() {
    let mut queue = vec![t(120), t(200), t(180)];
    let at = edf_insert_index(&queue, t(150));
    assert_eq!(at, 1);
    queue.insert(at, t(150));
    assert_eq!(queue, vec![t(120), t(150), t(200), t(180)]);
}
