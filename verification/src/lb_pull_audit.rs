//! Audit trail of pull intents and task queues in the `lb` simulator.

use crate::ledger::Ledger;
use crate::text::{decimal, Text};
use vstd::prelude::*;

verus! {

#[allow(inconsistent_fields)]
#[derive(Debug, Clone, Copy, PartialEq, Eq)]
pub enum LbPullEventKind {
    TaskEnqueued { lb_id: usize, task_id: u64, queue_len_before: usize },
    IntentSent { lb_id: usize, target_server: usize, request_id: u64 },
    IntentQueued {
        server_idx: usize,
        sender_lb_id: usize,
        request_id: u64,
        queue_len_before: usize,
    },
    IntentDrained {
        server_idx: usize,
        sender_lb_id: usize,
        intent_request_id: u64,
        queue_len_before: usize,
        pending_pulls_before: u32,
        in_flight_before: u32,
        max_concurrency: u32,
    },
    PullFulfilled {
        lb_id: usize,
        server_idx: usize,
        intent_request_id: Option<u64>,
        pulled_task_id: u64,
        queue_len_before: usize,
        queue_head_task_id: Option<u64>,
    },
}

/// What a trace can be rejected for.
pub enum LbPullFault {
    NoEvents,
    EnqueuedDepth { lb_id: usize, expected: usize, got: usize, seq: usize },
    QueuedDepth { server: usize, expected: usize, got: usize, seq: usize },
    DrainedAtCapacity { server: usize, in_flight: u32, pending: u32, max: u32, seq: usize },
    DrainedDepth { server: usize, expected: usize, got: usize, seq: usize },
    DrainedEmpty { server: usize, seq: usize },
    NotFifo {
        server: usize,
        front: (usize, u64),
        sender_lb_id: usize,
        intent_request_id: u64,
        seq: usize,
    },
    FulfilledDepth { lb_id: usize, expected: usize, got: usize, seq: usize },
    FulfilledEmpty { lb_id: usize, seq: usize },
    NoIntentSent,
    DeliveryCount { sent: usize, queued: usize },
    DrainCount { sent: usize, drained: usize },
    FulfillCount { sent: usize, fulfilled: usize },
    TasksLeft { lb_id: usize },
    BoundWithoutIntent { seq: usize },
    BoundMismatch { seq: usize, intent: u64, pulled: u64 },
    BoundNotQueued { lb_id: usize, pulled: u64, seq: usize },
    HeadMissing { lb_id: usize, seq: usize },
    NotHead { lb_id: usize, head: u64, pulled: u64, seq: usize },
    NotFcfs { lb_id: usize, head: u64, pulled: u64, seq: usize },
    NeverUnbound,
}

impl LbPullFault {
    /// The text a fault is reported with.
    pub open spec fn text(self) -> Seq<char> {
        match self {
            LbPullFault::NoEvents => "no lb pull audit events recorded"@,
            LbPullFault::EnqueuedDepth { lb_id, expected, got, seq } =>
                "task queue depth mismatch on TaskEnqueued (lb_id="@ + decimal(lb_id as nat)
                + "): expected "@ + decimal(expected as nat) + ", got "@ + decimal(got as nat)
                + " (seq="@ + decimal(seq as nat) + ")"@,
            LbPullFault::QueuedDepth { server, expected, got, seq } =>
                "intent queue depth mismatch on IntentQueued (server="@ + decimal(server as nat)
                + "): expected "@ + decimal(expected as nat) + ", got "@ + decimal(got as nat)
                + " (seq="@ + decimal(seq as nat) + ")"@,
            LbPullFault::DrainedAtCapacity { server, in_flight, pending, max, seq } =>
                "IntentDrained while at capacity (server="@ + decimal(server as nat)
                + "): in_flight="@ + decimal(in_flight as nat) + " pending="@ + decimal(
                pending as nat,
            ) + " max="@ + decimal(max as nat) + " (seq="@ + decimal(seq as nat) + ")"@,
            LbPullFault::DrainedDepth { server, expected, got, seq } =>
                "intent queue depth mismatch on IntentDrained (server="@ + decimal(server as nat)
                + "): expected "@ + decimal(expected as nat) + ", got "@ + decimal(got as nat)
                + " (seq="@ + decimal(seq as nat) + ")"@,
            LbPullFault::DrainedEmpty { server, seq } => "IntentDrained from empty queue (server="@
                + decimal(server as nat) + ") (seq="@ + decimal(seq as nat) + ")"@,
            LbPullFault::NotFifo { server, front, sender_lb_id, intent_request_id, seq } =>
                "intent queue pop was not FIFO (server="@ + decimal(server as nat) + "): expected ("@
                + decimal(front.0 as nat) + ", "@ + decimal(front.1 as nat)
                + "), got sender_lb_id="@ + decimal(sender_lb_id as nat) + " intent_request_id="@
                + decimal(intent_request_id as nat) + " (seq="@ + decimal(seq as nat) + ")"@,
            LbPullFault::FulfilledDepth { lb_id, expected, got, seq } =>
                "task queue depth mismatch on PullFulfilled (lb_id="@ + decimal(lb_id as nat)
                + "): expected "@ + decimal(expected as nat) + ", got "@ + decimal(got as nat)
                + " (seq="@ + decimal(seq as nat) + ")"@,
            LbPullFault::FulfilledEmpty { lb_id, seq } => "PullFulfilled from empty queue (lb_id="@
                + decimal(lb_id as nat) + ") (seq="@ + decimal(seq as nat) + ")"@,
            LbPullFault::NoIntentSent => "no IntentSent events"@,
            LbPullFault::DeliveryCount { sent, queued } => "intent delivery mismatch: sent "@
                + decimal(sent as nat) + " intents, queued "@ + decimal(queued as nat),
            LbPullFault::DrainCount { sent, drained } => "intent drain mismatch: sent "@ + decimal(
                sent as nat,
            ) + " intents, drained "@ + decimal(drained as nat),
            LbPullFault::FulfillCount { sent, fulfilled } => "pull fulfillment mismatch: sent "@
                + decimal(sent as nat) + " intents, fulfilled "@ + decimal(fulfilled as nat)
                + " pulls"@,
            LbPullFault::TasksLeft { lb_id } => "non-empty task queue at end of run (lb_id="@
                + decimal(lb_id as nat) + ")"@,
            LbPullFault::BoundWithoutIntent { seq } =>
                "bound pull missing intent_request_id (seq="@ + decimal(seq as nat) + ")"@,
            LbPullFault::BoundMismatch { seq, intent, pulled } => "bound pull mismatch (seq="@
                + decimal(seq as nat) + "): intent_request_id="@ + decimal(intent as nat)
                + ", pulled_task_id="@ + decimal(pulled as nat),
            LbPullFault::BoundNotQueued { lb_id, pulled, seq } =>
                "bound pulled task not in replay queue (lb_id="@ + decimal(lb_id as nat)
                + ", pulled_task_id="@ + decimal(pulled as nat) + ") (seq="@ + decimal(seq as nat)
                + ")"@,
            LbPullFault::HeadMissing { lb_id, seq } =>
                "PullFulfilled missing queue_head_task_id (lb_id="@ + decimal(lb_id as nat)
                + ") (seq="@ + decimal(seq as nat) + ")"@,
            LbPullFault::NotHead { lb_id, head, pulled, seq } =>
                "pulled task is not queue head (lb_id="@ + decimal(lb_id as nat) + "): head="@
                + decimal(head as nat) + ", pulled="@ + decimal(pulled as nat) + " (seq="@
                + decimal(seq as nat) + ")"@,
            LbPullFault::NotFcfs { lb_id, head, pulled, seq } =>
                "task queue pop was not FCFS (lb_id="@ + decimal(lb_id as nat) + "): expected "@
                + decimal(head as nat) + ", got "@ + decimal(pulled as nat) + " (seq="@ + decimal(
                seq as nat,
            ) + ")"@,
            LbPullFault::NeverUnbound =>
                "no-bind trace never exercised intent_request_id != pulled_task_id; no-bind semantics may not be active"@,
        }
    }

    /// Renders the fault.
    pub fn message(&self) -> (s: String)
        ensures
            s@ == self.text(),
    {
        match self {
            LbPullFault::NoEvents => Text::of("no lb pull audit events recorded").done(),
            LbPullFault::EnqueuedDepth { lb_id, expected, got, seq } => Text::of(
                "task queue depth mismatch on TaskEnqueued (lb_id=",
            ).size(*lb_id).lit("): expected ").size(*expected).lit(", got ").size(*got).lit(
                " (seq=",
            ).size(*seq).lit(")").done(),
            LbPullFault::QueuedDepth { server, expected, got, seq } => Text::of(
                "intent queue depth mismatch on IntentQueued (server=",
            ).size(*server).lit("): expected ").size(*expected).lit(", got ").size(*got).lit(
                " (seq=",
            ).size(*seq).lit(")").done(),
            LbPullFault::DrainedAtCapacity { server, in_flight, pending, max, seq } => Text::of(
                "IntentDrained while at capacity (server=",
            ).size(*server).lit("): in_flight=").num(*in_flight as u64).lit(" pending=").num(
                *pending as u64,
            ).lit(" max=").num(*max as u64).lit(" (seq=").size(*seq).lit(")").done(),
            LbPullFault::DrainedDepth { server, expected, got, seq } => Text::of(
                "intent queue depth mismatch on IntentDrained (server=",
            ).size(*server).lit("): expected ").size(*expected).lit(", got ").size(*got).lit(
                " (seq=",
            ).size(*seq).lit(")").done(),
            LbPullFault::DrainedEmpty { server, seq } => Text::of(
                "IntentDrained from empty queue (server=",
            ).size(*server).lit(") (seq=").size(*seq).lit(")").done(),
            LbPullFault::NotFifo { server, front, sender_lb_id, intent_request_id, seq } =>
                Text::of("intent queue pop was not FIFO (server=").size(*server).lit(
                "): expected (",
            ).size(front.0).lit(", ").num(front.1).lit("), got sender_lb_id=").size(
                *sender_lb_id,
            ).lit(" intent_request_id=").num(*intent_request_id).lit(" (seq=").size(*seq).lit(
                ")",
            ).done(),
            LbPullFault::FulfilledDepth { lb_id, expected, got, seq } => Text::of(
                "task queue depth mismatch on PullFulfilled (lb_id=",
            ).size(*lb_id).lit("): expected ").size(*expected).lit(", got ").size(*got).lit(
                " (seq=",
            ).size(*seq).lit(")").done(),
            LbPullFault::FulfilledEmpty { lb_id, seq } => Text::of(
                "PullFulfilled from empty queue (lb_id=",
            ).size(*lb_id).lit(") (seq=").size(*seq).lit(")").done(),
            LbPullFault::NoIntentSent => Text::of("no IntentSent events").done(),
            LbPullFault::DeliveryCount { sent, queued } => Text::of(
                "intent delivery mismatch: sent ",
            ).size(*sent).lit(" intents, queued ").size(*queued).done(),
            LbPullFault::DrainCount { sent, drained } => Text::of(
                "intent drain mismatch: sent ",
            ).size(*sent).lit(" intents, drained ").size(*drained).done(),
            LbPullFault::FulfillCount { sent, fulfilled } => Text::of(
                "pull fulfillment mismatch: sent ",
            ).size(*sent).lit(" intents, fulfilled ").size(*fulfilled).lit(" pulls").done(),
            LbPullFault::TasksLeft { lb_id } => Text::of(
                "non-empty task queue at end of run (lb_id=",
            ).size(*lb_id).lit(")").done(),
            LbPullFault::BoundWithoutIntent { seq } => Text::of(
                "bound pull missing intent_request_id (seq=",
            ).size(*seq).lit(")").done(),
            LbPullFault::BoundMismatch { seq, intent, pulled } => Text::of(
                "bound pull mismatch (seq=",
            ).size(*seq).lit("): intent_request_id=").num(*intent).lit(", pulled_task_id=").num(
                *pulled,
            ).done(),
            LbPullFault::BoundNotQueued { lb_id, pulled, seq } => Text::of(
                "bound pulled task not in replay queue (lb_id=",
            ).size(*lb_id).lit(", pulled_task_id=").num(*pulled).lit(") (seq=").size(*seq).lit(
                ")",
            ).done(),
            LbPullFault::HeadMissing { lb_id, seq } => Text::of(
                "PullFulfilled missing queue_head_task_id (lb_id=",
            ).size(*lb_id).lit(") (seq=").size(*seq).lit(")").done(),
            LbPullFault::NotHead { lb_id, head, pulled, seq } => Text::of(
                "pulled task is not queue head (lb_id=",
            ).size(*lb_id).lit("): head=").num(*head).lit(", pulled=").num(*pulled).lit(
                " (seq=",
            ).size(*seq).lit(")").done(),
            LbPullFault::NotFcfs { lb_id, head, pulled, seq } => Text::of(
                "task queue pop was not FCFS (lb_id=",
            ).size(*lb_id).lit("): expected ").num(*head).lit(", got ").num(*pulled).lit(
                " (seq=",
            ).size(*seq).lit(")").done(),
            LbPullFault::NeverUnbound => Text::of(
                "no-bind trace never exercised intent_request_id != pulled_task_id; no-bind semantics may not be active",
            ).done(),
        }
    }
}

/// How many intents were sent in `events`.
pub open spec fn sent_count(events: Seq<LbPullEventKind>) -> nat
    decreases events.len(),
{
    if events.len() == 0 {
        0
    } else {
        sent_count(events.drop_last()) + if events.last() is IntentSent {
            1nat
        } else {
            0
        }
    }
}

/// How many intents servers queued in `events`.
pub open spec fn queued_count(events: Seq<LbPullEventKind>) -> nat
    decreases events.len(),
{
    if events.len() == 0 {
        0
    } else {
        queued_count(events.drop_last()) + if events.last() is IntentQueued {
            1nat
        } else {
            0
        }
    }
}

/// How many intents servers drained in `events`.
pub open spec fn drained_count(events: Seq<LbPullEventKind>) -> nat
    decreases events.len(),
{
    if events.len() == 0 {
        0
    } else {
        drained_count(events.drop_last()) + if events.last() is IntentDrained {
            1nat
        } else {
            0
        }
    }
}

/// How many pulls were fulfilled in `events`.
pub open spec fn fulfilled_count(events: Seq<LbPullEventKind>) -> nat
    decreases events.len(),
{
    if events.len() == 0 {
        0
    } else {
        fulfilled_count(events.drop_last()) + if events.last() is PullFulfilled {
            1nat
        } else {
            0
        }
    }
}

/// The intents waiting at `server` after `events`, head first.
pub open spec fn intent_queue(events: Seq<LbPullEventKind>, server: usize) -> Seq<(usize, u64)>
    decreases events.len(),
{
    if events.len() == 0 {
        Seq::empty()
    } else {
        let before = intent_queue(events.drop_last(), server);
        match events.last() {
            LbPullEventKind::IntentQueued {
                server_idx,
                sender_lb_id,
                request_id,
                ..
            } if server_idx == server => before.push((sender_lb_id, request_id)),
            LbPullEventKind::IntentDrained { server_idx, .. } if server_idx == server
                && before.len() > 0 => before.remove(0),
            _ => before,
        }
    }
}

/// The tasks waiting at balancer `lb` after `events` when each pull takes the head.
pub open spec fn task_queue(events: Seq<LbPullEventKind>, lb: usize) -> Seq<u64>
    decreases events.len(),
{
    if events.len() == 0 {
        Seq::empty()
    } else {
        let before = task_queue(events.drop_last(), lb);
        match events.last() {
            LbPullEventKind::TaskEnqueued { lb_id, task_id, .. } if lb_id == lb => before.push(
                task_id,
            ),
            LbPullEventKind::PullFulfilled { lb_id, .. } if lb_id == lb && before.len() > 0 =>
                before.remove(0),
            _ => before,
        }
    }
}

/// The tasks waiting at balancer `lb` after `events` when each pull takes the task it names.
pub open spec fn bound_queue(events: Seq<LbPullEventKind>, lb: usize) -> Seq<u64>
    decreases events.len(),
{
    if events.len() == 0 {
        Seq::empty()
    } else {
        let before = bound_queue(events.drop_last(), lb);
        match events.last() {
            LbPullEventKind::TaskEnqueued { lb_id, task_id, .. } if lb_id == lb => before.push(
                task_id,
            ),
            LbPullEventKind::PullFulfilled { lb_id, pulled_task_id, .. } if lb_id == lb
                && before.contains(pulled_task_id) => before.remove(before.index_of_first(
                pulled_task_id,
            )->0),
            _ => before,
        }
    }
}

/// The pulls fulfilled in `events`: announced task, pulled task, queue head.
pub open spec fn fulfilled_of(events: Seq<LbPullEventKind>) -> Seq<(Option<u64>, u64, Option<u64>)>
    decreases events.len(),
{
    if events.len() == 0 {
        Seq::empty()
    } else {
        let before = fulfilled_of(events.drop_last());
        match events.last() {
            LbPullEventKind::PullFulfilled {
                intent_request_id,
                pulled_task_id,
                queue_head_task_id,
                ..
            } => before.push((intent_request_id, pulled_task_id, queue_head_task_id)),
            _ => before,
        }
    }
}

/// What is wrong with event `i` of a trace, whether pulls are bound or not.
pub open spec fn event_fault(events: Seq<LbPullEventKind>, i: int) -> Option<LbPullFault> {
    match events[i] {
        LbPullEventKind::TaskEnqueued { lb_id, queue_len_before, .. } => {
            let depth = task_queue(events.take(i), lb_id).len();
            if queue_len_before != depth {
                Some(
                    LbPullFault::EnqueuedDepth {
                        lb_id,
                        expected: depth as usize,
                        got: queue_len_before,
                        seq: i as usize,
                    },
                )
            } else {
                None
            }
        },
        LbPullEventKind::IntentSent { .. } => None,
        LbPullEventKind::IntentQueued { server_idx, queue_len_before, .. } => {
            let depth = intent_queue(events.take(i), server_idx).len();
            if queue_len_before != depth {
                Some(
                    LbPullFault::QueuedDepth {
                        server: server_idx,
                        expected: depth as usize,
                        got: queue_len_before,
                        seq: i as usize,
                    },
                )
            } else {
                None
            }
        },
        LbPullEventKind::IntentDrained {
            server_idx,
            sender_lb_id,
            intent_request_id,
            queue_len_before,
            pending_pulls_before,
            in_flight_before,
            max_concurrency,
        } => {
            let queue = intent_queue(events.take(i), server_idx);
            if in_flight_before + pending_pulls_before >= max_concurrency {
                Some(
                    LbPullFault::DrainedAtCapacity {
                        server: server_idx,
                        in_flight: in_flight_before,
                        pending: pending_pulls_before,
                        max: max_concurrency,
                        seq: i as usize,
                    },
                )
            } else if queue_len_before != queue.len() {
                Some(
                    LbPullFault::DrainedDepth {
                        server: server_idx,
                        expected: queue.len() as usize,
                        got: queue_len_before,
                        seq: i as usize,
                    },
                )
            } else if queue.len() == 0 {
                Some(LbPullFault::DrainedEmpty { server: server_idx, seq: i as usize })
            } else if queue[0] != (sender_lb_id, intent_request_id) {
                Some(
                    LbPullFault::NotFifo {
                        server: server_idx,
                        front: queue[0],
                        sender_lb_id,
                        intent_request_id,
                        seq: i as usize,
                    },
                )
            } else {
                None
            }
        },
        LbPullEventKind::PullFulfilled { lb_id, queue_len_before, .. } => {
            let depth = task_queue(events.take(i), lb_id).len();
            if queue_len_before != depth {
                Some(
                    LbPullFault::FulfilledDepth {
                        lb_id,
                        expected: depth as usize,
                        got: queue_len_before,
                        seq: i as usize,
                    },
                )
            } else if depth == 0 {
                Some(LbPullFault::FulfilledEmpty { lb_id, seq: i as usize })
            } else {
                None
            }
        },
    }
}

/// The earliest fault among the first `n` events.
pub open spec fn replay_fault(events: Seq<LbPullEventKind>, n: nat) -> Option<LbPullFault>
    decreases n,
{
    if n == 0 {
        None
    } else {
        match replay_fault(events, (n - 1) as nat) {
            Some(fault) => Some(fault),
            None => event_fault(events, n - 1),
        }
    }
}

/// The balancer of the earliest of the first `n` enqueues whose balancer ends the run
/// with tasks left.
pub open spec fn left_fault(events: Seq<LbPullEventKind>, n: nat) -> Option<LbPullFault>
    decreases n,
{
    if n == 0 {
        None
    } else {
        match left_fault(events, (n - 1) as nat) {
            Some(fault) => Some(fault),
            None => match events[n - 1] {
                LbPullEventKind::TaskEnqueued { lb_id, .. } if task_queue(events, lb_id).len() > 0 =>
                    Some(LbPullFault::TasksLeft { lb_id }),
                _ => None,
            },
        }
    }
}

/// The fault that rejects a trace of either kind, if any.
pub open spec fn common_fault(events: Seq<LbPullEventKind>) -> Option<LbPullFault> {
    let sent = sent_count(events);
    if events.len() == 0 {
        Some(LbPullFault::NoEvents)
    } else if replay_fault(events, events.len()) is Some {
        replay_fault(events, events.len())
    } else if sent == 0 {
        Some(LbPullFault::NoIntentSent)
    } else if sent != queued_count(events) {
        Some(
            LbPullFault::DeliveryCount {
                sent: sent as usize,
                queued: queued_count(events) as usize,
            },
        )
    } else if sent != drained_count(events) {
        Some(
            LbPullFault::DrainCount {
                sent: sent as usize,
                drained: drained_count(events) as usize,
            },
        )
    } else if sent != fulfilled_count(events) {
        Some(
            LbPullFault::FulfillCount {
                sent: sent as usize,
                fulfilled: fulfilled_count(events) as usize,
            },
        )
    } else {
        left_fault(events, events.len())
    }
}

/// What is wrong with event `i` of a trace of bound pulls.
pub open spec fn bound_event_fault(events: Seq<LbPullEventKind>, i: int) -> Option<LbPullFault> {
    match events[i] {
        LbPullEventKind::PullFulfilled { lb_id, intent_request_id, pulled_task_id, .. } => {
            match intent_request_id {
                None => Some(LbPullFault::BoundWithoutIntent { seq: i as usize }),
                Some(intent) => if intent != pulled_task_id {
                    Some(
                        LbPullFault::BoundMismatch {
                            seq: i as usize,
                            intent,
                            pulled: pulled_task_id,
                        },
                    )
                } else if !bound_queue(events.take(i), lb_id).contains(pulled_task_id) {
                    Some(
                        LbPullFault::BoundNotQueued {
                            lb_id,
                            pulled: pulled_task_id,
                            seq: i as usize,
                        },
                    )
                } else {
                    None
                },
            }
        },
        _ => None,
    }
}

/// The earliest bound-pull fault among the first `n` events.
pub open spec fn bound_replay_fault(events: Seq<LbPullEventKind>, n: nat) -> Option<LbPullFault>
    decreases n,
{
    if n == 0 {
        None
    } else {
        match bound_replay_fault(events, (n - 1) as nat) {
            Some(fault) => Some(fault),
            None => bound_event_fault(events, n - 1),
        }
    }
}

/// The fault that rejects a trace of bound pulls, if any.
pub open spec fn bound_fault(events: Seq<LbPullEventKind>) -> Option<LbPullFault> {
    match common_fault(events) {
        Some(fault) => Some(fault),
        None => bound_replay_fault(events, events.len()),
    }
}

/// What is wrong with event `i` of a trace in which pulls take the oldest task.
pub open spec fn no_bind_event_fault(events: Seq<LbPullEventKind>, i: int) -> Option<LbPullFault> {
    match events[i] {
        LbPullEventKind::PullFulfilled { lb_id, pulled_task_id, queue_head_task_id, .. } => {
            let queue = task_queue(events.take(i), lb_id);
            match queue_head_task_id {
                None => Some(LbPullFault::HeadMissing { lb_id, seq: i as usize }),
                Some(head) => if head != pulled_task_id {
                    Some(
                        LbPullFault::NotHead {
                            lb_id,
                            head,
                            pulled: pulled_task_id,
                            seq: i as usize,
                        },
                    )
                } else if queue[0] != pulled_task_id {
                    Some(
                        LbPullFault::NotFcfs {
                            lb_id,
                            head: queue[0],
                            pulled: pulled_task_id,
                            seq: i as usize,
                        },
                    )
                } else {
                    None
                },
            }
        },
        _ => None,
    }
}

/// The earliest no-bind fault among the first `n` events.
pub open spec fn no_bind_replay_fault(events: Seq<LbPullEventKind>, n: nat) -> Option<LbPullFault>
    decreases n,
{
    if n == 0 {
        None
    } else {
        match no_bind_replay_fault(events, (n - 1) as nat) {
            Some(fault) => Some(fault),
            None => no_bind_event_fault(events, n - 1),
        }
    }
}

/// A pull that took another task than the one its intent announced.
pub open spec fn took_another(event: LbPullEventKind) -> bool {
    event matches LbPullEventKind::PullFulfilled {
        intent_request_id: Some(intent),
        pulled_task_id,
        ..
    } && intent != pulled_task_id
}

/// The fault that rejects a trace in which pulls take the oldest task, if any.
pub open spec fn no_bind_fault(events: Seq<LbPullEventKind>) -> Option<LbPullFault> {
    match common_fault(events) {
        Some(fault) => Some(fault),
        None => match no_bind_replay_fault(events, events.len()) {
            Some(fault) => Some(fault),
            None => if exists|i: int| 0 <= i < events.len() && took_another(#[trigger] events[i]) {
                None
            } else {
                Some(LbPullFault::NeverUnbound)
            },
        },
    }
}

proof fn lemma_replay_fault_final(events: Seq<LbPullEventKind>, n: nat, m: nat)
    requires
        n <= m,
        replay_fault(events, n) is Some,
    ensures
        replay_fault(events, m) == replay_fault(events, n),
    decreases m,
{
    if n < m {
        lemma_replay_fault_final(events, n, (m - 1) as nat);
    }
}

proof fn lemma_replay_clean_at(events: Seq<LbPullEventKind>, n: nat, i: int)
    requires
        replay_fault(events, n) is None,
        0 <= i < n,
    ensures
        event_fault(events, i) is None,
    decreases n,
{
    if i < n - 1 {
        lemma_replay_clean_at(events, (n - 1) as nat, i);
    }
}

proof fn lemma_left_fault_final(events: Seq<LbPullEventKind>, n: nat, m: nat)
    requires
        n <= m,
        left_fault(events, n) is Some,
    ensures
        left_fault(events, m) == left_fault(events, n),
    decreases m,
{
    if n < m {
        lemma_left_fault_final(events, n, (m - 1) as nat);
    }
}

proof fn lemma_bound_fault_final(events: Seq<LbPullEventKind>, n: nat, m: nat)
    requires
        n <= m,
        bound_replay_fault(events, n) is Some,
    ensures
        bound_replay_fault(events, m) == bound_replay_fault(events, n),
    decreases m,
{
    if n < m {
        lemma_bound_fault_final(events, n, (m - 1) as nat);
    }
}

proof fn lemma_no_bind_fault_final(events: Seq<LbPullEventKind>, n: nat, m: nat)
    requires
        n <= m,
        no_bind_replay_fault(events, n) is Some,
    ensures
        no_bind_replay_fault(events, m) == no_bind_replay_fault(events, n),
    decreases m,
{
    if n < m {
        lemma_no_bind_fault_final(events, n, (m - 1) as nat);
    }
}

fn task_position(queue: &Ledger<usize, u64>, lb_id: usize, task: u64) -> (r: Option<usize>)
    requires
        queue.wf(),
    ensures
        match r {
            Some(at) => queue.queue(lb_id).contains(task) && queue.queue(lb_id).index_of_first(task)
                == Some(at as int),
            None => !queue.queue(lb_id).contains(task),
        },
{
    let len: usize = queue.depth(&lb_id);
    let mut i: usize = 0;
    while i < len
        invariant
            queue.wf(),
            len == queue.queue(lb_id).len(),
            i <= len,
            forall|j: int| 0 <= j < i ==> queue.queue(lb_id)[j] != task,
        decreases len - i,
    {
        if *queue.item(&lb_id, i) == task {
            proof {
                queue.queue(lb_id).index_of_first_ensures(task);
                assert(queue.queue(lb_id)[i as int] == task);
            }
            return Some(i);
        }
        i += 1;
    }
    None
}

/// Records approx pull/intent events during an `lb` simulation run for post-hoc invariant checks.
pub struct LbPullAudit {
    events: Vec<LbPullEventKind>,
}

impl View for LbPullAudit {
    type V = Seq<LbPullEventKind>;

    /// The recorded events; an event's sequence number is its position.
    closed spec fn view(&self) -> Seq<LbPullEventKind> {
        self.events@
    }
}

impl LbPullAudit {
    pub fn new() -> (r: Self)
        ensures
            r@ == Seq::<LbPullEventKind>::empty(),
    {
        LbPullAudit { events: Vec::new() }
    }

    pub fn record_task_enqueued(&mut self, lb_id: usize, task_id: u64, queue_len_before: usize)
        ensures
            final(self)@ == old(self)@.push(
                LbPullEventKind::TaskEnqueued { lb_id, task_id, queue_len_before },
            ),
    {
        self.events.push(LbPullEventKind::TaskEnqueued { lb_id, task_id, queue_len_before });
    }

    pub fn record_intent_sent(&mut self, lb_id: usize, target_server: usize, request_id: u64)
        ensures
            final(self)@ == old(self)@.push(
                LbPullEventKind::IntentSent { lb_id, target_server, request_id },
            ),
    {
        self.events.push(LbPullEventKind::IntentSent { lb_id, target_server, request_id });
    }

    pub fn record_intent_queued(
        &mut self,
        server_idx: usize,
        sender_lb_id: usize,
        request_id: u64,
        queue_len_before: usize,
    )
        ensures
            final(self)@ == old(self)@.push(
                LbPullEventKind::IntentQueued {
                    server_idx,
                    sender_lb_id,
                    request_id,
                    queue_len_before,
                },
            ),
    {
        self.events.push(
            LbPullEventKind::IntentQueued { server_idx, sender_lb_id, request_id, queue_len_before },
        );
    }

    pub fn record_intent_drained(
        &mut self,
        server_idx: usize,
        sender_lb_id: usize,
        intent_request_id: u64,
        queue_len_before: usize,
        pending_pulls_before: u32,
        in_flight_before: u32,
        max_concurrency: u32,
    )
        ensures
            final(self)@ == old(self)@.push(
                LbPullEventKind::IntentDrained {
                    server_idx,
                    sender_lb_id,
                    intent_request_id,
                    queue_len_before,
                    pending_pulls_before,
                    in_flight_before,
                    max_concurrency,
                },
            ),
    {
        self.events.push(
            LbPullEventKind::IntentDrained {
                server_idx,
                sender_lb_id,
                intent_request_id,
                queue_len_before,
                pending_pulls_before,
                in_flight_before,
                max_concurrency,
            },
        );
    }

    pub fn record_pull_fulfilled(
        &mut self,
        lb_id: usize,
        server_idx: usize,
        intent_request_id: Option<u64>,
        pulled_task_id: u64,
        queue_len_before: usize,
        queue_head_task_id: Option<u64>,
    )
        ensures
            final(self)@ == old(self)@.push(
                LbPullEventKind::PullFulfilled {
                    lb_id,
                    server_idx,
                    intent_request_id,
                    pulled_task_id,
                    queue_len_before,
                    queue_head_task_id,
                },
            ),
    {
        self.events.push(
            LbPullEventKind::PullFulfilled {
                lb_id,
                server_idx,
                intent_request_id,
                pulled_task_id,
                queue_len_before,
                queue_head_task_id,
            },
        );
    }

    /// The fulfilled pulls, in order: announced task, pulled task, queue head.
    pub fn pull_fulfilled_events(&self) -> (r: Vec<(Option<u64>, u64, Option<u64>)>)
        ensures
            r@ == fulfilled_of(self@),
    {
        let mut out: Vec<(Option<u64>, u64, Option<u64>)> = Vec::new();
        let mut i: usize = 0;
        while i < self.events.len()
            invariant
                i <= self.events@.len(),
                out@ == fulfilled_of(self.events@.take(i as int)),
            decreases self.events@.len() - i,
        {
            assert(self.events@.take(i + 1).drop_last() =~= self.events@.take(i as int));
            if let LbPullEventKind::PullFulfilled {
                intent_request_id,
                pulled_task_id,
                queue_head_task_id,
                ..
            } = self.events[i] {
                out.push((intent_request_id, pulled_task_id, queue_head_task_id));
            }
            i += 1;
        }
        assert(self.events@.take(i as int) =~= self.events@);
        out
    }

    fn check_common(&self) -> (r: Option<LbPullFault>)
        ensures
            r == common_fault(self@),
    {
        if self.events.len() == 0 {
            return Some(LbPullFault::NoEvents);
        }
        let ghost events = self.events@;
        let mut intents: Ledger<usize, (usize, u64)> = Ledger::new();
        let mut tasks: Ledger<usize, u64> = Ledger::new();
        let mut sent: usize = 0;
        let mut queued: usize = 0;
        let mut drained: usize = 0;
        let mut fulfilled: usize = 0;
        let mut i: usize = 0;
        while i < self.events.len()
            invariant
                events == self.events@,
                events.len() > 0,
                i <= events.len(),
                intents.wf(),
                tasks.wf(),
                forall|server: usize| #[trigger]
                    intents.queue(server) == intent_queue(events.take(i as int), server),
                forall|lb: usize| #[trigger]
                    tasks.queue(lb) == task_queue(events.take(i as int), lb),
                sent == sent_count(events.take(i as int)),
                queued == queued_count(events.take(i as int)),
                drained == drained_count(events.take(i as int)),
                fulfilled == fulfilled_count(events.take(i as int)),
                sent <= i,
                queued <= i,
                drained <= i,
                fulfilled <= i,
                replay_fault(events, i as nat) is None,
            decreases events.len() - i,
        {
            proof {
                assert(events.take(i + 1).drop_last() =~= events.take(i as int));
                assert(events.take(i + 1).last() == events[i as int]);
                if replay_fault(events, (i + 1) as nat) is Some {
                    lemma_replay_fault_final(events, (i + 1) as nat, events.len());
                }
            }
            match self.events[i] {
                LbPullEventKind::TaskEnqueued { lb_id, task_id, queue_len_before } => {
                    let expected: usize = tasks.depth(&lb_id);
                    if queue_len_before != expected {
                        return Some(
                            LbPullFault::EnqueuedDepth {
                                lb_id,
                                expected,
                                got: queue_len_before,
                                seq: i,
                            },
                        );
                    }
                    tasks.push(lb_id, task_id);
                },
                LbPullEventKind::IntentSent { .. } => {
                    sent += 1;
                },
                LbPullEventKind::IntentQueued {
                    server_idx,
                    sender_lb_id,
                    request_id,
                    queue_len_before,
                } => {
                    let expected: usize = intents.depth(&server_idx);
                    if queue_len_before != expected {
                        return Some(
                            LbPullFault::QueuedDepth {
                                server: server_idx,
                                expected,
                                got: queue_len_before,
                                seq: i,
                            },
                        );
                    }
                    intents.push(server_idx, (sender_lb_id, request_id));
                    queued += 1;
                },
                LbPullEventKind::IntentDrained {
                    server_idx,
                    sender_lb_id,
                    intent_request_id,
                    queue_len_before,
                    pending_pulls_before,
                    in_flight_before,
                    max_concurrency,
                } => {
                    if in_flight_before as u64 + pending_pulls_before as u64
                        >= max_concurrency as u64 {
                        return Some(
                            LbPullFault::DrainedAtCapacity {
                                server: server_idx,
                                in_flight: in_flight_before,
                                pending: pending_pulls_before,
                                max: max_concurrency,
                                seq: i,
                            },
                        );
                    }
                    let expected: usize = intents.depth(&server_idx);
                    if queue_len_before != expected {
                        return Some(
                            LbPullFault::DrainedDepth {
                                server: server_idx,
                                expected,
                                got: queue_len_before,
                                seq: i,
                            },
                        );
                    }
                    if expected == 0 {
                        return Some(LbPullFault::DrainedEmpty { server: server_idx, seq: i });
                    }
                    let front = *intents.item(&server_idx, 0);
                    if front.0 != sender_lb_id || front.1 != intent_request_id {
                        return Some(
                            LbPullFault::NotFifo {
                                server: server_idx,
                                front,
                                sender_lb_id,
                                intent_request_id,
                                seq: i,
                            },
                        );
                    }
                    intents.remove(&server_idx, 0);
                    drained += 1;
                },
                LbPullEventKind::PullFulfilled { lb_id, queue_len_before, .. } => {
                    let expected: usize = tasks.depth(&lb_id);
                    if queue_len_before != expected {
                        return Some(
                            LbPullFault::FulfilledDepth {
                                lb_id,
                                expected,
                                got: queue_len_before,
                                seq: i,
                            },
                        );
                    }
                    if expected == 0 {
                        return Some(LbPullFault::FulfilledEmpty { lb_id, seq: i });
                    }
                    tasks.remove(&lb_id, 0);
                    fulfilled += 1;
                },
            }
            i += 1;
        }
        assert(events.take(i as int) =~= events);
        if sent == 0 {
            return Some(LbPullFault::NoIntentSent);
        }
        if sent != queued {
            return Some(LbPullFault::DeliveryCount { sent, queued });
        }
        if sent != drained {
            return Some(LbPullFault::DrainCount { sent, drained });
        }
        if sent != fulfilled {
            return Some(LbPullFault::FulfillCount { sent, fulfilled });
        }
        let mut i: usize = 0;
        while i < self.events.len()
            invariant
                events == self.events@,
                i <= events.len(),
                tasks.wf(),
                forall|lb: usize| #[trigger] tasks.queue(lb) == task_queue(events, lb),
                left_fault(events, i as nat) is None,
                events.len() > 0,
                replay_fault(events, events.len()) is None,
                0 < sent == sent_count(events) == queued_count(events) == drained_count(events)
                    == fulfilled_count(events),
            decreases events.len() - i,
        {
            if let LbPullEventKind::TaskEnqueued { lb_id, .. } = self.events[i] {
                if tasks.depth(&lb_id) > 0 {
                    proof {
                        lemma_left_fault_final(events, (i + 1) as nat, events.len());
                    }
                    return Some(LbPullFault::TasksLeft { lb_id });
                }
            }
            i += 1;
        }
        None
    }

    /// Shared invariants for bound and no-bind approx runs.
    pub fn validate_common(&self) -> (r: Result<(), String>)
        ensures
            match common_fault(self@) {
                None => r is Ok,
                Some(fault) => r matches Err(e) && e@ == fault.text(),
            },
    {
        match self.check_common() {
            None => Ok(()),
            Some(fault) => Err(fault.message()),
        }
    }

    fn check_bound(&self) -> (r: Option<LbPullFault>)
        ensures
            r == bound_fault(self@),
    {
        let common = self.check_common();
        if common.is_some() {
            return common;
        }
        let ghost events = self.events@;
        let mut tasks: Ledger<usize, u64> = Ledger::new();
        let mut i: usize = 0;
        while i < self.events.len()
            invariant
                events == self.events@,
                i <= events.len(),
                tasks.wf(),
                forall|lb: usize| #[trigger]
                    tasks.queue(lb) == bound_queue(events.take(i as int), lb),
                common_fault(events) is None,
                bound_replay_fault(events, i as nat) is None,
            decreases events.len() - i,
        {
            proof {
                assert(events.take(i + 1).drop_last() =~= events.take(i as int));
                assert(events.take(i + 1).last() == events[i as int]);
                if bound_replay_fault(events, (i + 1) as nat) is Some {
                    lemma_bound_fault_final(events, (i + 1) as nat, events.len());
                }
            }
            match self.events[i] {
                LbPullEventKind::TaskEnqueued { lb_id, task_id, .. } => {
                    tasks.push(lb_id, task_id);
                },
                LbPullEventKind::PullFulfilled {
                    lb_id,
                    intent_request_id,
                    pulled_task_id,
                    ..
                } => {
                    let intent: u64 = match intent_request_id {
                        None => {
                            return Some(LbPullFault::BoundWithoutIntent { seq: i });
                        },
                        Some(intent) => intent,
                    };
                    if intent != pulled_task_id {
                        return Some(
                            LbPullFault::BoundMismatch { seq: i, intent, pulled: pulled_task_id },
                        );
                    }
                    match task_position(&tasks, lb_id, pulled_task_id) {
                        None => {
                            return Some(
                                LbPullFault::BoundNotQueued {
                                    lb_id,
                                    pulled: pulled_task_id,
                                    seq: i,
                                },
                            );
                        },
                        Some(at) => {
                            proof {
                                tasks.queue(lb_id).index_of_first_ensures(pulled_task_id);
                            }
                            tasks.remove(&lb_id, at);
                        },
                    }
                },
                _ => {},
            }
            i += 1;
        }
        None
    }

    /// Every pull took the very task its intent announced.
    pub fn validate_bound(&self) -> (r: Result<(), String>)
        ensures
            match bound_fault(self@) {
                None => r is Ok,
                Some(fault) => r matches Err(e) && e@ == fault.text(),
            },
    {
        match self.check_bound() {
            None => Ok(()),
            Some(fault) => Err(fault.message()),
        }
    }

    fn check_no_bind(&self) -> (r: Option<LbPullFault>)
        ensures
            r == no_bind_fault(self@),
    {
        let common = self.check_common();
        if common.is_some() {
            return common;
        }
        let ghost events = self.events@;
        let mut tasks: Ledger<usize, u64> = Ledger::new();
        let mut saw_mismatch = false;
        let mut i: usize = 0;
        while i < self.events.len()
            invariant
                events == self.events@,
                i <= events.len(),
                tasks.wf(),
                forall|lb: usize| #[trigger]
                    tasks.queue(lb) == task_queue(events.take(i as int), lb),
                common_fault(events) is None,
                no_bind_replay_fault(events, i as nat) is None,
                saw_mismatch == exists|j: int| 0 <= j < i && took_another(#[trigger] events[j]),
            decreases events.len() - i,
        {
            proof {
                assert(events.take(i + 1).drop_last() =~= events.take(i as int));
                assert(events.take(i + 1).last() == events[i as int]);
                lemma_replay_clean_at(events, events.len(), i as int);
                if no_bind_replay_fault(events, (i + 1) as nat) is Some {
                    lemma_no_bind_fault_final(events, (i + 1) as nat, events.len());
                }
            }
            match self.events[i] {
                LbPullEventKind::TaskEnqueued { lb_id, task_id, .. } => {
                    tasks.push(lb_id, task_id);
                },
                LbPullEventKind::PullFulfilled {
                    lb_id,
                    intent_request_id,
                    pulled_task_id,
                    queue_head_task_id,
                    ..
                } => {
                    let head: u64 = match queue_head_task_id {
                        None => {
                            return Some(LbPullFault::HeadMissing { lb_id, seq: i });
                        },
                        Some(head) => head,
                    };
                    if head != pulled_task_id {
                        return Some(
                            LbPullFault::NotHead { lb_id, head, pulled: pulled_task_id, seq: i },
                        );
                    }
                    let front: u64 = *tasks.item(&lb_id, 0);
                    if front != pulled_task_id {
                        return Some(
                            LbPullFault::NotFcfs {
                                lb_id,
                                head: front,
                                pulled: pulled_task_id,
                                seq: i,
                            },
                        );
                    }
                    tasks.remove(&lb_id, 0);
                    if let Some(intent) = intent_request_id {
                        if intent != pulled_task_id {
                            saw_mismatch = true;
                            assert(took_another(events[i as int]));
                        }
                    }
                },
                _ => {},
            }
            i += 1;
        }
        if !saw_mismatch {
            return Some(LbPullFault::NeverUnbound);
        }
        None
    }

    /// Every pull took the oldest task, and at least one took another task than the one
    /// its intent announced.
    pub fn validate_no_bind(&self) -> (r: Result<(), String>)
        ensures
            match no_bind_fault(self@) {
                None => r is Ok,
                Some(fault) => r matches Err(e) && e@ == fault.text(),
            },
    {
        match self.check_no_bind() {
            None => Ok(()),
            Some(fault) => Err(fault.message()),
        }
    }
}

/// The servers that queue or drain an intent in `events`, each once.
spec fn servers_of(events: Seq<LbPullEventKind>) -> Seq<usize>
    decreases events.len(),
{
    if events.len() == 0 {
        Seq::empty()
    } else {
        let before = servers_of(events.drop_last());
        match events.last() {
            LbPullEventKind::IntentQueued { server_idx, .. } if !before.contains(server_idx) =>
                before.push(server_idx),
            LbPullEventKind::IntentDrained { server_idx, .. } if !before.contains(server_idx) =>
                before.push(server_idx),
            _ => before,
        }
    }
}

proof fn lemma_servers_distinct(events: Seq<LbPullEventKind>)
    ensures
        servers_of(events).no_duplicates(),
    decreases events.len(),
{
    if events.len() > 0 {
        lemma_servers_distinct(events.drop_last());
    }
}

proof fn lemma_other_server_empty(events: Seq<LbPullEventKind>, server: usize)
    requires
        !servers_of(events).contains(server),
    ensures
        intent_queue(events, server).len() == 0,
    decreases events.len(),
{
    if events.len() > 0 {
        let before = servers_of(events.drop_last());
        if before.contains(server) {
            let i = choose|i: int| 0 <= i < before.len() && before[i] == server;
            assert(servers_of(events)[i] == server);
        }
        if servers_of(events) != before {
            assert(servers_of(events)[before.len() as int] == servers_of(events).last());
        }
        lemma_other_server_empty(events.drop_last(), server);
    }
}

/// How many intents wait at `servers` together.
spec fn waiting_at(events: Seq<LbPullEventKind>, servers: Seq<usize>) -> nat
    decreases servers.len(),
{
    if servers.len() == 0 {
        0
    } else {
        waiting_at(events, servers.drop_last()) + intent_queue(events, servers.last()).len()
    }
}

/// The change that `event` makes to the number of intents waiting at `servers`.
spec fn waiting_step(event: LbPullEventKind, servers: Seq<usize>) -> int {
    match event {
        LbPullEventKind::IntentQueued { server_idx, .. } if servers.contains(server_idx) => 1,
        LbPullEventKind::IntentDrained { server_idx, .. } if servers.contains(server_idx) => -1,
        _ => 0,
    }
}

proof fn lemma_waiting_step(events: Seq<LbPullEventKind>, servers: Seq<usize>)
    requires
        events.len() > 0,
        servers.no_duplicates(),
        events.last() matches LbPullEventKind::IntentDrained { server_idx, .. } ==> intent_queue(
            events.drop_last(),
            server_idx,
        ).len() > 0,
    ensures
        waiting_at(events, servers) == waiting_at(events.drop_last(), servers) + waiting_step(
            events.last(),
            servers,
        ),
    decreases servers.len(),
{
    if servers.len() > 0 {
        let rest = servers.drop_last();
        lemma_waiting_step(events, rest);
        assert forall|server: usize| servers.contains(server) implies rest.contains(server)
            || server == servers.last() by {
            let i = choose|i: int| 0 <= i < servers.len() && servers[i] == server;
            if i < rest.len() {
                assert(rest[i] == server);
            }
        }
        assert forall|server: usize| rest.contains(server) implies servers.contains(server)
            && server != servers.last() by {
            let i = choose|i: int| 0 <= i < rest.len() && rest[i] == server;
            assert(servers[i] == server);
        }
        assert(servers.contains(servers.last()));
    }
}

proof fn lemma_waiting_total(events: Seq<LbPullEventKind>, servers: Seq<usize>)
    requires
        replay_fault(events, events.len()) is None,
        servers.no_duplicates(),
        forall|server: usize| servers_of(events).contains(server) ==> servers.contains(server),
    ensures
        waiting_at(events, servers) + drained_count(events) == queued_count(events),
    decreases events.len(),
{
    if events.len() == 0 {
        assert(events =~= Seq::empty());
        lemma_nothing_waits(servers);
    } else {
        let before = events.drop_last();
        let n = (events.len() - 1) as nat;
        lemma_replay_fault_prefix(events, n);
        assert(events.take(n as int) =~= before);
        assert(event_fault(events, n as int) is None);
        assert forall|server: usize| servers_of(before).contains(server) implies servers.contains(
            server,
        ) by {
            let i = choose|i: int|
                0 <= i < servers_of(before).len() && servers_of(before)[i] == server;
            assert(servers_of(events)[i] == server);
        }
        lemma_waiting_total(before, servers);
        lemma_waiting_step(events, servers);
        match events.last() {
            LbPullEventKind::IntentQueued { server_idx, .. } => {
                lemma_server_listed(events, server_idx);
            },
            LbPullEventKind::IntentDrained { server_idx, .. } => {
                lemma_server_listed(events, server_idx);
            },
            _ => {},
        }
    }
}

proof fn lemma_server_listed(events: Seq<LbPullEventKind>, server: usize)
    requires
        events.len() > 0,
        (events.last() matches LbPullEventKind::IntentQueued { server_idx, .. } && server_idx
            == server) || (events.last() matches LbPullEventKind::IntentDrained { server_idx, .. }
            && server_idx == server),
    ensures
        servers_of(events).contains(server),
{
    let before = servers_of(events.drop_last());
    if !before.contains(server) {
        assert(servers_of(events)[before.len() as int] == server);
    }
}

proof fn lemma_nothing_waits(servers: Seq<usize>)
    ensures
        waiting_at(Seq::empty(), servers) == 0,
    decreases servers.len(),
{
    if servers.len() > 0 {
        lemma_nothing_waits(servers.drop_last());
    }
}

proof fn lemma_waiting_at_least(events: Seq<LbPullEventKind>, servers: Seq<usize>, i: int)
    requires
        0 <= i < servers.len(),
    ensures
        intent_queue(events, servers[i]).len() <= waiting_at(events, servers),
    decreases servers.len(),
{
    if i < servers.len() - 1 {
        lemma_waiting_at_least(events, servers.drop_last(), i);
    }
}

proof fn lemma_replay_fault_prefix(events: Seq<LbPullEventKind>, n: nat)
    requires
        n < events.len(),
    ensures
        replay_fault(events.drop_last(), n) == replay_fault(events, n),
    decreases n,
{
    if n > 0 {
        lemma_replay_fault_prefix(events, (n - 1) as nat);
        assert(events.drop_last().take(n - 1) =~= events.take(n - 1));
    }
}

proof fn lemma_left_clean_at(events: Seq<LbPullEventKind>, n: nat, i: int)
    requires
        left_fault(events, n) is None,
        0 <= i < n <= events.len(),
        events[i] is TaskEnqueued,
    ensures
        task_queue(events, events[i]->TaskEnqueued_lb_id).len() == 0,
    decreases n,
{
    if i < n - 1 {
        lemma_left_clean_at(events, (n - 1) as nat, i);
    }
}

proof fn lemma_queue_needs_enqueue(events: Seq<LbPullEventKind>, n: int, lb: usize)
    requires
        0 <= n <= events.len(),
        task_queue(events.take(n), lb).len() > 0,
    ensures
        exists|i: int|
            0 <= i < n && (#[trigger] events[i] matches LbPullEventKind::TaskEnqueued { lb_id, .. }
                && lb_id == lb),
    decreases n,
{
    if n > 0 {
        assert(events.take(n).drop_last() =~= events.take(n - 1));
        if task_queue(events.take(n - 1), lb).len() > 0 {
            lemma_queue_needs_enqueue(events, n - 1, lb);
        } else {
            assert(events.take(n).last() == events[n - 1]);
        }
    }
}

/// A trace that passes the common checks leaves no intent waiting at any server and no
/// task waiting at any balancer.
pub proof fn law_accepted_trace_leaves_nothing_waiting(
    events: Seq<LbPullEventKind>,
    server: usize,
    lb: usize,
)
    requires
        common_fault(events) is None,
    ensures
        intent_queue(events, server).len() == 0,
        task_queue(events, lb).len() == 0,
{
    let servers = servers_of(events);
    lemma_servers_distinct(events);
    lemma_waiting_total(events, servers);
    if servers.contains(server) {
        let i = choose|i: int| 0 <= i < servers.len() && servers[i] == server;
        lemma_waiting_at_least(events, servers, i);
    } else {
        lemma_other_server_empty(events, server);
    }
    assert(events.take(events.len() as int) =~= events);
    if task_queue(events, lb).len() > 0 {
        lemma_queue_needs_enqueue(events, events.len() as int, lb);
        let i = choose|i: int|
            0 <= i < events.len() && (
            #[trigger] events[i] matches LbPullEventKind::TaskEnqueued { lb_id, .. } && lb_id
                == lb);
        lemma_left_clean_at(events, events.len(), i);
    }
}

proof fn lemma_bound_fault_prefix(events: Seq<LbPullEventKind>, n: nat)
    requires
        n < events.len(),
    ensures
        bound_replay_fault(events.drop_last(), n) == bound_replay_fault(events, n),
    decreases n,
{
    if n > 0 {
        lemma_bound_fault_prefix(events, (n - 1) as nat);
        assert(events.drop_last().take(n - 1) =~= events.take(n - 1));
    }
}

proof fn lemma_bound_queue_len(events: Seq<LbPullEventKind>, lb: usize)
    requires
        replay_fault(events, events.len()) is None,
        bound_replay_fault(events, events.len()) is None,
    ensures
        bound_queue(events, lb).len() == task_queue(events, lb).len(),
    decreases events.len(),
{
    if events.len() > 0 {
        let n = (events.len() - 1) as nat;
        let before = events.drop_last();
        lemma_replay_fault_prefix(events, n);
        lemma_bound_fault_prefix(events, n);
        lemma_bound_queue_len(before, lb);
        assert(events.take(n as int) =~= before);
        assert(event_fault(events, n as int) is None);
        assert(bound_event_fault(events, n as int) is None);
        if let LbPullEventKind::PullFulfilled { lb_id, pulled_task_id, .. } = events.last() {
            bound_queue(before, lb_id).index_of_first_ensures(pulled_task_id);
        }
    }
}

/// A trace of bound pulls that passes its audit has pulled every enqueued task: nothing
/// is left at any balancer.
pub proof fn law_bound_trace_takes_every_task(events: Seq<LbPullEventKind>, lb: usize)
    requires
        bound_fault(events) is None,
    ensures
        bound_queue(events, lb).len() == 0,
{
    lemma_bound_queue_len(events, lb);
    law_accepted_trace_leaves_nothing_waiting(events, 0, lb);
}

/// The tasks enqueued at balancer `lb`, in order.
pub open spec fn enqueued_at(events: Seq<LbPullEventKind>, lb: usize) -> Seq<u64>
    decreases events.len(),
{
    if events.len() == 0 {
        Seq::empty()
    } else {
        let before = enqueued_at(events.drop_last(), lb);
        match events.last() {
            LbPullEventKind::TaskEnqueued { lb_id, task_id, .. } if lb_id == lb => before.push(
                task_id,
            ),
            _ => before,
        }
    }
}

/// The tasks pulled from balancer `lb`, in order.
pub open spec fn pulled_at(events: Seq<LbPullEventKind>, lb: usize) -> Seq<u64>
    decreases events.len(),
{
    if events.len() == 0 {
        Seq::empty()
    } else {
        let before = pulled_at(events.drop_last(), lb);
        match events.last() {
            LbPullEventKind::PullFulfilled { lb_id, pulled_task_id, .. } if lb_id == lb =>
                before.push(pulled_task_id),
            _ => before,
        }
    }
}

proof fn lemma_no_bind_fault_prefix(events: Seq<LbPullEventKind>, n: nat)
    requires
        n < events.len(),
    ensures
        no_bind_replay_fault(events.drop_last(), n) == no_bind_replay_fault(events, n),
    decreases n,
{
    if n > 0 {
        lemma_no_bind_fault_prefix(events, (n - 1) as nat);
        assert(events.drop_last().take(n - 1) =~= events.take(n - 1));
    }
}

proof fn lemma_pulled_in_order(events: Seq<LbPullEventKind>, lb: usize)
    requires
        replay_fault(events, events.len()) is None,
        no_bind_replay_fault(events, events.len()) is None,
    ensures
        enqueued_at(events, lb) == pulled_at(events, lb) + task_queue(events, lb),
    decreases events.len(),
{
    if events.len() > 0 {
        let n = (events.len() - 1) as nat;
        let before = events.drop_last();
        lemma_replay_fault_prefix(events, n);
        lemma_no_bind_fault_prefix(events, n);
        lemma_pulled_in_order(before, lb);
        assert(events.take(n as int) =~= before);
        assert(event_fault(events, n as int) is None);
        assert(no_bind_event_fault(events, n as int) is None);
        assert(enqueued_at(events, lb) =~= pulled_at(events, lb) + task_queue(events, lb));
    } else {
        assert(enqueued_at(events, lb) =~= pulled_at(events, lb) + task_queue(events, lb));
    }
}

/// A no-bind trace that passes its audit pulled the tasks of every balancer in exactly
/// the order in which they were enqueued there.
pub proof fn law_no_bind_trace_pulls_oldest_first(events: Seq<LbPullEventKind>, lb: usize)
    requires
        no_bind_fault(events) is None,
    ensures
        pulled_at(events, lb) == enqueued_at(events, lb),
{
    lemma_pulled_in_order(events, lb);
    law_accepted_trace_leaves_nothing_waiting(events, 0, lb);
    assert(pulled_at(events, lb) =~= enqueued_at(events, lb));
}

/// A trace passes only if servers keep to their rules: an intent is drained only while a slot is
/// neither busy nor promised, and it is the one that has waited longest at that server.
pub proof fn law_accepted_drains_take_the_oldest_intent(events: Seq<LbPullEventKind>, i: int)
    requires
        common_fault(events) is None,
        0 <= i < events.len(),
    ensures
        events[i] matches LbPullEventKind::IntentDrained {
            server_idx,
            sender_lb_id,
            intent_request_id,
            queue_len_before,
            pending_pulls_before,
            in_flight_before,
            max_concurrency,
        } ==> {
            let waiting = intent_queue(events.take(i), server_idx);
            &&& in_flight_before + pending_pulls_before < max_concurrency
            &&& waiting.len() == queue_len_before
            &&& waiting.len() > 0
            &&& waiting[0] == (sender_lb_id, intent_request_id)
        },
{
    lemma_no_event_fault(events, events.len(), i);
}

proof fn lemma_no_event_fault(events: Seq<LbPullEventKind>, n: nat, i: int)
    requires
        0 <= i < n <= events.len(),
        replay_fault(events, n) is None,
    ensures
        event_fault(events, i) is None,
    decreases n,
{
    if i < n - 1 {
        lemma_no_event_fault(events, (n - 1) as nat, i);
    }
}

/// A trace of bound pulls passes only if every pull took the very task that its intent
/// announced, and one in which pulls take the oldest task only if every pull took the head.
pub proof fn law_accepted_pulls_take_their_task(events: Seq<LbPullEventKind>, i: int)
    requires
        0 <= i < events.len(),
    ensures
        bound_fault(events) is None ==> (events[i] matches LbPullEventKind::PullFulfilled {
            intent_request_id,
            pulled_task_id,
            ..
        } ==> intent_request_id == Some(pulled_task_id)),
        no_bind_fault(events) is None ==> (events[i] matches LbPullEventKind::PullFulfilled {
            lb_id,
            pulled_task_id,
            queue_head_task_id,
            ..
        } ==> queue_head_task_id == Some(pulled_task_id) && task_queue(
            events.take(i),
            lb_id,
        )[0] == pulled_task_id),
{
    if bound_fault(events) is None {
        lemma_no_bound_fault(events, events.len(), i);
    }
    if no_bind_fault(events) is None {
        lemma_no_head_fault(events, events.len(), i);
    }
}

proof fn lemma_no_bound_fault(events: Seq<LbPullEventKind>, n: nat, i: int)
    requires
        0 <= i < n <= events.len(),
        bound_replay_fault(events, n) is None,
    ensures
        bound_event_fault(events, i) is None,
    decreases n,
{
    if i < n - 1 {
        lemma_no_bound_fault(events, (n - 1) as nat, i);
    }
}

proof fn lemma_no_head_fault(events: Seq<LbPullEventKind>, n: nat, i: int)
    requires
        0 <= i < n <= events.len(),
        no_bind_replay_fault(events, n) is None,
    ensures
        no_bind_event_fault(events, i) is None,
    decreases n,
{
    if i < n - 1 {
        lemma_no_head_fault(events, (n - 1) as nat, i);
    }
}

} // verus!
