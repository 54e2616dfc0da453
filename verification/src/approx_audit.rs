//! Audit trail of bound pull intents in the microservice simulator.
//!
//! A balancer announces a queued call to a downstream server with an intent; the
//! server queues the intent, drains it first-in-first-out when it has capacity,
//! and pulls the announced call. The audit records those steps and checks them
//! after the run.

use crate::ledger::{LaneKey, Ledger};
use crate::text::{decimal, quoted, quoted_of, Text};
use vstd::prelude::*;

verus! {

#[derive(Debug, Clone, PartialEq, Eq)]
pub enum ApproxPullEventKind {
    /// Upstream balancer chose a downstream target and sent a bound pull intent.
    IntentSent {
        sender_rb_id: usize,
        sender_ms: String,
        sender_server: usize,
        target_ms: String,
        target_server: usize,
        request_id: u64,
    },
    /// Downstream replica received a pull intent and pushed it onto the intent queue.
    IntentQueued {
        downstream_ms: String,
        downstream_server: usize,
        sender_rb_id: usize,
        request_id: u64,
        queue_len_before: usize,
    },
    /// Downstream replica popped the front intent and sent a bound pull upstream.
    IntentDrained {
        downstream_ms: String,
        downstream_server: usize,
        sender_rb_id: usize,
        request_id: u64,
        queue_len_before: usize,
        pending_pulls_before: u32,
        in_flight_before: u32,
        max_concurrency: u32,
    },
    /// Upstream balancer fulfilled a bound pull and removed the matching queued call.
    PullMatched {
        handler_rb_id: usize,
        handler_ms: String,
        handler_server: usize,
        target_ms: String,
        pull_from_server: usize,
        request_id: u64,
    },
}

/// One intent as it was sent to, queued at, or drained by a downstream server.
pub struct IntentRecord {
    pub ms: String,
    pub server: usize,
    pub sender_rb_id: usize,
    pub request_id: u64,
}

impl IntentRecord {
    /// The intent as a mathematical value.
    pub open spec fn key(self) -> (Seq<char>, usize, usize, u64) {
        (self.ms@, self.server, self.sender_rb_id, self.request_id)
    }

    /// The downstream server the intent belongs to.
    pub open spec fn lane(self) -> (Seq<char>, usize) {
        (self.ms@, self.server)
    }

    fn same(&self, other: &IntentRecord) -> (r: bool)
        ensures
            r == (self.key() == other.key()),
    {
        self.ms == other.ms && self.server == other.server && self.sender_rb_id
            == other.sender_rb_id && self.request_id == other.request_id
    }
}

/// A downstream server: microservice name and server index.
struct IntentLane {
    ms: String,
    server: usize,
}

impl LaneKey for IntentLane {
    type Id = (Seq<char>, usize);

    closed spec fn id(&self) -> (Seq<char>, usize) {
        (self.ms@, self.server)
    }

    fn same(&self, other: &IntentLane) -> (r: bool) {
        self.ms == other.ms && self.server == other.server
    }
}

/// What a trace can be rejected for.
pub enum ApproxPullFault {
    NoEvents,
    QueuedDepth { ms: String, server: usize, expected: usize, got: usize, seq: usize },
    DrainedAtCapacity {
        ms: String,
        server: usize,
        in_flight: u32,
        pending: u32,
        max: u32,
        seq: usize,
    },
    DrainedDepth { ms: String, server: usize, expected: usize, got: usize, seq: usize },
    DrainedEmpty { ms: String, server: usize, seq: usize },
    NotFifo {
        ms: String,
        server: usize,
        front: (usize, u64),
        sender_rb_id: usize,
        request_id: u64,
        seq: usize,
    },
    NoIntentSent,
    DeliveryCount { sent: usize, queued: usize },
    DrainCount { sent: usize, drained: usize },
    PullCount { sent: usize, matched: usize },
    SentQueuedPairing,
    SentDrainedPairing,
    DrainWithoutPull { ms: String, server: usize, sender_rb_id: usize, request_id: u64 },
    PullWithoutDrain { handler_rb_id: usize, request_id: u64 },
    DuplicatePull { handler_rb_id: usize, request_id: u64 },
}

/// An intent of `records`, and how often it is there.
pub open spec fn entry_text(records: Seq<IntentRecord>, record: IntentRecord) -> Seq<char> {
    "("@ + quoted_of(record.ms@) + ", "@ + decimal(record.server as nat) + ", "@ + decimal(
        record.sender_rb_id as nat,
    ) + ", "@ + decimal(record.request_id as nat) + "): "@ + decimal(
        keys(records).to_multiset().count(record.key()),
    )
}

/// One of the first `k` records is the same intent.
pub open spec fn seen_before(records: Seq<IntentRecord>, k: nat, record: IntentRecord) -> bool {
    exists|j: int| 0 <= j < k && (#[trigger] records[j]).key() == record.key()
}

/// The different intents among the first `k` records, in the order they come up first, each
/// with how often it is there in all.
pub open spec fn entries_text(records: Seq<IntentRecord>, k: nat) -> Seq<char>
    decreases k,
{
    if k == 0 {
        Seq::empty()
    } else {
        let before = entries_text(records, (k - 1) as nat);
        let record = records[k - 1];
        if seen_before(records, (k - 1) as nat, record) {
            before
        } else if k == 1 {
            entry_text(records, record)
        } else {
            before + ", "@ + entry_text(records, record)
        }
    }
}

/// How often each intent is there.
pub open spec fn counts_text(records: Seq<IntentRecord>) -> Seq<char> {
    "{"@ + entries_text(records, records.len()) + "}"@
}

fn render_counts(records: &Vec<IntentRecord>) -> (s: String)
    ensures
        s@ == counts_text(records@),
{
    let mut t = Text::of("{");
    let mut k: usize = 0;
    assert("{"@ + entries_text(records@, 0) =~= "{"@);
    while k < records.len()
        invariant
            k <= records@.len(),
            t@ == "{"@ + entries_text(records@, k as nat),
        decreases records@.len() - k,
    {
        let record = &records[k];
        let mut seen = false;
        let mut j: usize = 0;
        while j < k
            invariant
                j <= k < records@.len(),
                record == records@[k as int],
                seen == seen_before(records@, j as nat, *record),
            decreases k - j,
        {
            if records[j].same(record) {
                seen = true;
            }
            j += 1;
        }
        if !seen {
            if k > 0 {
                t = t.lit(", ");
            }
            let name = quoted(&record.ms);
            let entry = Text::of("(").lit(&name).lit(", ").size(record.server).lit(", ").size(
                record.sender_rb_id,
            ).lit(", ").num(record.request_id).lit("): ").size(count_key(records, record)).done();
            let ghost before = entries_text(records@, k as nat);
            t = t.lit(&entry);
            assert(entry@ == entry_text(records@, *record));
            assert("{"@ + before + ", "@ + entry@ =~= "{"@ + (before + ", "@ + entry@));
            assert(k == 0 ==> "{"@ + before + entry@ =~= "{"@ + entry@);
        }
        k += 1;
    }
    t.lit("}").done()
}

impl ApproxPullFault {
    /// The text a fault is reported with, for a trace in which these intents were sent,
    /// queued and drained.
    pub open spec fn text(
        self,
        sent: Seq<IntentRecord>,
        queued: Seq<IntentRecord>,
        drained: Seq<IntentRecord>,
    ) -> Seq<char> {
        match self {
            ApproxPullFault::NoEvents => "no approx pull audit events recorded"@,
            ApproxPullFault::QueuedDepth { ms, server, expected, got, seq } =>
                "intent queue depth mismatch on IntentQueued ("@ + ms@ + "/"@ + decimal(
                server as nat,
            ) + "): expected "@ + decimal(expected as nat) + ", got "@ + decimal(got as nat)
                + " (seq="@ + decimal(seq as nat) + ")"@,
            ApproxPullFault::DrainedAtCapacity { ms, server, in_flight, pending, max, seq } =>
                "IntentDrained while at capacity ("@ + ms@ + "/"@ + decimal(server as nat)
                + "): in_flight="@ + decimal(in_flight as nat) + " pending="@ + decimal(
                pending as nat,
            ) + " max="@ + decimal(max as nat) + " (seq="@ + decimal(seq as nat) + ")"@,
            ApproxPullFault::DrainedDepth { ms, server, expected, got, seq } =>
                "intent queue depth mismatch on IntentDrained ("@ + ms@ + "/"@ + decimal(
                server as nat,
            ) + "): expected "@ + decimal(expected as nat) + ", got "@ + decimal(got as nat)
                + " (seq="@ + decimal(seq as nat) + ")"@,
            ApproxPullFault::DrainedEmpty { ms, server, seq } =>
                "IntentDrained from empty queue ("@ + ms@ + "/"@ + decimal(server as nat)
                + ") (seq="@ + decimal(seq as nat) + ")"@,
            ApproxPullFault::NotFifo { ms, server, front, sender_rb_id, request_id, seq } =>
                "intent queue pop was not FIFO ("@ + ms@ + "/"@ + decimal(server as nat)
                + "): expected ("@ + decimal(front.0 as nat) + ", "@ + decimal(
                front.1 as nat,
            ) + "), got sender_rb_id="@ + decimal(sender_rb_id as nat) + " request_id="@ + decimal(
                request_id as nat,
            ) + " (seq="@ + decimal(seq as nat) + ")"@,
            ApproxPullFault::NoIntentSent => "no IntentSent events"@,
            ApproxPullFault::DeliveryCount { sent, queued } => "intent delivery mismatch: sent "@
                + decimal(sent as nat) + " intents, queued "@ + decimal(queued as nat),
            ApproxPullFault::DrainCount { sent, drained } => "intent drain mismatch: sent "@
                + decimal(sent as nat) + " intents, drained "@ + decimal(drained as nat),
            ApproxPullFault::PullCount { sent, matched } => "bound pull mismatch: sent "@ + decimal(
                sent as nat,
            ) + " intents, matched "@ + decimal(matched as nat) + " pulls"@,
            ApproxPullFault::SentQueuedPairing =>
                "IntentSent vs IntentQueued pairing mismatch: sent="@ + counts_text(sent)
                + " queued="@ + counts_text(queued),
            ApproxPullFault::SentDrainedPairing =>
                "IntentSent vs IntentDrained pairing mismatch: sent="@ + counts_text(sent)
                + " drained="@ + counts_text(drained),
            ApproxPullFault::DrainWithoutPull { ms, server, sender_rb_id, request_id } =>
                "IntentDrained sender_rb_id="@ + decimal(sender_rb_id as nat) + " request_id="@
                + decimal(request_id as nat) + " on "@ + ms@ + "/"@ + decimal(server as nat)
                + " has no PullMatched handler"@,
            ApproxPullFault::PullWithoutDrain { handler_rb_id, request_id } =>
                "PullMatched handler_rb_id="@ + decimal(handler_rb_id as nat) + " request_id="@
                + decimal(request_id as nat) + " has no matching IntentDrained"@,
            ApproxPullFault::DuplicatePull { handler_rb_id, request_id } =>
                "duplicate PullMatched for handler_rb_id="@ + decimal(handler_rb_id as nat)
                + " request_id="@ + decimal(request_id as nat),
        }
    }

    /// Renders the fault.
    pub fn message(
        &self,
        sent: &Vec<IntentRecord>,
        queued: &Vec<IntentRecord>,
        drained: &Vec<IntentRecord>,
    ) -> (s: String)
        ensures
            s@ == self.text(sent@, queued@, drained@),
    {
        match self {
            ApproxPullFault::NoEvents => Text::of("no approx pull audit events recorded").done(),
            ApproxPullFault::QueuedDepth { ms, server, expected, got, seq } => Text::of(
                "intent queue depth mismatch on IntentQueued (",
            ).lit(ms).lit("/").size(*server).lit("): expected ").size(*expected).lit(", got ").size(
                *got,
            ).lit(" (seq=").size(*seq).lit(")").done(),
            ApproxPullFault::DrainedAtCapacity { ms, server, in_flight, pending, max, seq } =>
                Text::of("IntentDrained while at capacity (").lit(ms).lit("/").size(*server).lit(
                "): in_flight=",
            ).num(*in_flight as u64).lit(" pending=").num(*pending as u64).lit(" max=").num(
                *max as u64,
            ).lit(" (seq=").size(*seq).lit(")").done(),
            ApproxPullFault::DrainedDepth { ms, server, expected, got, seq } => Text::of(
                "intent queue depth mismatch on IntentDrained (",
            ).lit(ms).lit("/").size(*server).lit("): expected ").size(*expected).lit(", got ").size(
                *got,
            ).lit(" (seq=").size(*seq).lit(")").done(),
            ApproxPullFault::DrainedEmpty { ms, server, seq } => Text::of(
                "IntentDrained from empty queue (",
            ).lit(ms).lit("/").size(*server).lit(") (seq=").size(*seq).lit(")").done(),
            ApproxPullFault::NotFifo { ms, server, front, sender_rb_id, request_id, seq } =>
                Text::of("intent queue pop was not FIFO (").lit(ms).lit("/").size(*server).lit(
                "): expected (",
            ).size(front.0).lit(", ").num(front.1).lit("), got sender_rb_id=").size(
                *sender_rb_id,
            ).lit(" request_id=").num(*request_id).lit(" (seq=").size(*seq).lit(")").done(),
            ApproxPullFault::NoIntentSent => Text::of("no IntentSent events").done(),
            ApproxPullFault::DeliveryCount { sent, queued } => Text::of(
                "intent delivery mismatch: sent ",
            ).size(*sent).lit(" intents, queued ").size(*queued).done(),
            ApproxPullFault::DrainCount { sent, drained } => Text::of(
                "intent drain mismatch: sent ",
            ).size(*sent).lit(" intents, drained ").size(*drained).done(),
            ApproxPullFault::PullCount { sent, matched } => Text::of(
                "bound pull mismatch: sent ",
            ).size(*sent).lit(" intents, matched ").size(*matched).lit(" pulls").done(),
            ApproxPullFault::SentQueuedPairing => Text::of(
                "IntentSent vs IntentQueued pairing mismatch: sent=",
            ).lit(&render_counts(sent)).lit(" queued=").lit(&render_counts(queued)).done(),
            ApproxPullFault::SentDrainedPairing => Text::of(
                "IntentSent vs IntentDrained pairing mismatch: sent=",
            ).lit(&render_counts(sent)).lit(" drained=").lit(&render_counts(drained)).done(),
            ApproxPullFault::DrainWithoutPull { ms, server, sender_rb_id, request_id } => Text::of(
                "IntentDrained sender_rb_id=",
            ).size(*sender_rb_id).lit(" request_id=").num(*request_id).lit(" on ").lit(ms).lit(
                "/",
            ).size(*server).lit(" has no PullMatched handler").done(),
            ApproxPullFault::PullWithoutDrain { handler_rb_id, request_id } => Text::of(
                "PullMatched handler_rb_id=",
            ).size(*handler_rb_id).lit(" request_id=").num(*request_id).lit(
                " has no matching IntentDrained",
            ).done(),
            ApproxPullFault::DuplicatePull { handler_rb_id, request_id } => Text::of(
                "duplicate PullMatched for handler_rb_id=",
            ).size(*handler_rb_id).lit(" request_id=").num(*request_id).done(),
        }
    }
}

/// The intents sent in `events`, in order.
pub open spec fn sent_of(events: Seq<ApproxPullEventKind>) -> Seq<IntentRecord>
    decreases events.len(),
{
    if events.len() == 0 {
        Seq::empty()
    } else {
        let before = sent_of(events.drop_last());
        match events.last() {
            ApproxPullEventKind::IntentSent {
                sender_rb_id,
                target_ms,
                target_server,
                request_id,
                ..
            } => before.push(
                IntentRecord { ms: target_ms, server: target_server, sender_rb_id, request_id },
            ),
            _ => before,
        }
    }
}

/// The intents queued downstream in `events`, in order.
pub open spec fn queued_of(events: Seq<ApproxPullEventKind>) -> Seq<IntentRecord>
    decreases events.len(),
{
    if events.len() == 0 {
        Seq::empty()
    } else {
        let before = queued_of(events.drop_last());
        match events.last() {
            ApproxPullEventKind::IntentQueued {
                downstream_ms,
                downstream_server,
                sender_rb_id,
                request_id,
                ..
            } => before.push(
                IntentRecord {
                    ms: downstream_ms,
                    server: downstream_server,
                    sender_rb_id,
                    request_id,
                },
            ),
            _ => before,
        }
    }
}

/// The intents drained downstream in `events`, in order.
pub open spec fn drained_of(events: Seq<ApproxPullEventKind>) -> Seq<IntentRecord>
    decreases events.len(),
{
    if events.len() == 0 {
        Seq::empty()
    } else {
        let before = drained_of(events.drop_last());
        match events.last() {
            ApproxPullEventKind::IntentDrained {
                downstream_ms,
                downstream_server,
                sender_rb_id,
                request_id,
                ..
            } => before.push(
                IntentRecord {
                    ms: downstream_ms,
                    server: downstream_server,
                    sender_rb_id,
                    request_id,
                },
            ),
            _ => before,
        }
    }
}

/// The pulls fulfilled in `events`, in order: handling balancer and request.
pub open spec fn matched_of(events: Seq<ApproxPullEventKind>) -> Seq<(usize, u64)>
    decreases events.len(),
{
    if events.len() == 0 {
        Seq::empty()
    } else {
        let before = matched_of(events.drop_last());
        match events.last() {
            ApproxPullEventKind::PullMatched { handler_rb_id, request_id, .. } => before.push(
                (handler_rb_id, request_id),
            ),
            _ => before,
        }
    }
}

/// The intents waiting at a downstream server after `events`, head first.
pub open spec fn intent_queue(
    events: Seq<ApproxPullEventKind>,
    lane: (Seq<char>, usize),
) -> Seq<(usize, u64)>
    decreases events.len(),
{
    if events.len() == 0 {
        Seq::empty()
    } else {
        let before = intent_queue(events.drop_last(), lane);
        match events.last() {
            ApproxPullEventKind::IntentQueued {
                downstream_ms,
                downstream_server,
                sender_rb_id,
                request_id,
                ..
            } if (downstream_ms@, downstream_server) == lane => before.push(
                (sender_rb_id, request_id),
            ),
            ApproxPullEventKind::IntentDrained { downstream_ms, downstream_server, .. } if (
            downstream_ms@, downstream_server) == lane && before.len() > 0 => before.remove(0),
            _ => before,
        }
    }
}

/// What is wrong with event `i` of a trace, given the events before it.
pub open spec fn event_fault(events: Seq<ApproxPullEventKind>, i: int) -> Option<ApproxPullFault> {
    match events[i] {
        ApproxPullEventKind::IntentQueued {
            downstream_ms,
            downstream_server,
            queue_len_before,
            ..
        } => {
            let queue = intent_queue(events.take(i), (downstream_ms@, downstream_server));
            if queue_len_before != queue.len() {
                Some(
                    ApproxPullFault::QueuedDepth {
                        ms: downstream_ms,
                        server: downstream_server,
                        expected: queue.len() as usize,
                        got: queue_len_before,
                        seq: i as usize,
                    },
                )
            } else {
                None
            }
        },
        ApproxPullEventKind::IntentDrained {
            downstream_ms,
            downstream_server,
            sender_rb_id,
            request_id,
            queue_len_before,
            pending_pulls_before,
            in_flight_before,
            max_concurrency,
        } => {
            let queue = intent_queue(events.take(i), (downstream_ms@, downstream_server));
            if in_flight_before + pending_pulls_before >= max_concurrency {
                Some(
                    ApproxPullFault::DrainedAtCapacity {
                        ms: downstream_ms,
                        server: downstream_server,
                        in_flight: in_flight_before,
                        pending: pending_pulls_before,
                        max: max_concurrency,
                        seq: i as usize,
                    },
                )
            } else if queue_len_before != queue.len() {
                Some(
                    ApproxPullFault::DrainedDepth {
                        ms: downstream_ms,
                        server: downstream_server,
                        expected: queue.len() as usize,
                        got: queue_len_before,
                        seq: i as usize,
                    },
                )
            } else if queue.len() == 0 {
                Some(
                    ApproxPullFault::DrainedEmpty {
                        ms: downstream_ms,
                        server: downstream_server,
                        seq: i as usize,
                    },
                )
            } else if queue[0] != (sender_rb_id, request_id) {
                Some(
                    ApproxPullFault::NotFifo {
                        ms: downstream_ms,
                        server: downstream_server,
                        front: queue[0],
                        sender_rb_id,
                        request_id,
                        seq: i as usize,
                    },
                )
            } else {
                None
            }
        },
        _ => None,
    }
}

/// The earliest fault among the first `n` events.
pub open spec fn replay_fault(events: Seq<ApproxPullEventKind>, n: nat) -> Option<ApproxPullFault>
    decreases n,
{
    if n == 0 {
        None
    } else {
        match replay_fault(events, (n - 1) as nat) {
            Some(fault) => Some(fault),
            None => event_fault(events, n - 1),
        }
    }
}

/// The intents of `records` as mathematical values.
pub open spec fn keys(records: Seq<IntentRecord>) -> Seq<(Seq<char>, usize, usize, u64)> {
    records.map_values(|record: IntentRecord| record.key())
}

/// How many of `records` were sent by `sender` for `request`.
pub open spec fn drains_for(records: Seq<IntentRecord>, sender: usize, request: u64) -> nat
    decreases records.len(),
{
    if records.len() == 0 {
        0
    } else {
        let before = drains_for(records.drop_last(), sender, request);
        if records.last().sender_rb_id == sender && records.last().request_id == request {
            before + 1
        } else {
            before
        }
    }
}

/// The earliest of the first `n` drained intents that no pull answers.
pub open spec fn drain_fault(
    drained: Seq<IntentRecord>,
    matched: Seq<(usize, u64)>,
    n: nat,
) -> Option<ApproxPullFault>
    decreases n,
{
    if n == 0 {
        None
    } else {
        match drain_fault(drained, matched, (n - 1) as nat) {
            Some(fault) => Some(fault),
            None => {
                let record = drained[n - 1];
                if matched.contains((record.sender_rb_id, record.request_id)) {
                    None
                } else {
                    Some(
                        ApproxPullFault::DrainWithoutPull {
                            ms: record.ms,
                            server: record.server,
                            sender_rb_id: record.sender_rb_id,
                            request_id: record.request_id,
                        },
                    )
                }
            },
        }
    }
}

/// The earliest of the first `n` pulls that does not answer exactly one drained intent.
pub open spec fn pull_fault(
    drained: Seq<IntentRecord>,
    matched: Seq<(usize, u64)>,
    n: nat,
) -> Option<ApproxPullFault>
    decreases n,
{
    if n == 0 {
        None
    } else {
        match pull_fault(drained, matched, (n - 1) as nat) {
            Some(fault) => Some(fault),
            None => {
                let pull = matched[n - 1];
                let drains = drains_for(drained, pull.0, pull.1);
                if drains == 0 {
                    Some(
                        ApproxPullFault::PullWithoutDrain {
                            handler_rb_id: pull.0,
                            request_id: pull.1,
                        },
                    )
                } else if drains > 1 {
                    Some(
                        ApproxPullFault::DuplicatePull {
                            handler_rb_id: pull.0,
                            request_id: pull.1,
                        },
                    )
                } else {
                    None
                }
            },
        }
    }
}

/// What is wrong with the trace as a whole, when no single event is at fault.
pub open spec fn tally_fault(
    sent: Seq<IntentRecord>,
    queued: Seq<IntentRecord>,
    drained: Seq<IntentRecord>,
    matched: Seq<(usize, u64)>,
) -> Option<ApproxPullFault> {
    if sent.len() == 0 {
        Some(ApproxPullFault::NoIntentSent)
    } else if sent.len() != queued.len() {
        Some(
            ApproxPullFault::DeliveryCount {
                sent: sent.len() as usize,
                queued: queued.len() as usize,
            },
        )
    } else if sent.len() != drained.len() {
        Some(
            ApproxPullFault::DrainCount {
                sent: sent.len() as usize,
                drained: drained.len() as usize,
            },
        )
    } else if sent.len() != matched.len() {
        Some(
            ApproxPullFault::PullCount {
                sent: sent.len() as usize,
                matched: matched.len() as usize,
            },
        )
    } else if keys(sent).to_multiset() != keys(queued).to_multiset() {
        Some(ApproxPullFault::SentQueuedPairing)
    } else if keys(sent).to_multiset() != keys(drained).to_multiset() {
        Some(ApproxPullFault::SentDrainedPairing)
    } else {
        match drain_fault(drained, matched, drained.len()) {
            Some(fault) => Some(fault),
            None => pull_fault(drained, matched, matched.len()),
        }
    }
}

/// The fault a trace is rejected for, if any.
pub open spec fn fault_of(events: Seq<ApproxPullEventKind>) -> Option<ApproxPullFault> {
    if events.len() == 0 {
        Some(ApproxPullFault::NoEvents)
    } else {
        match replay_fault(events, events.len()) {
            Some(fault) => Some(fault),
            None => tally_fault(
                sent_of(events),
                queued_of(events),
                drained_of(events),
                matched_of(events),
            ),
        }
    }
}

proof fn lemma_replay_fault_final(events: Seq<ApproxPullEventKind>, n: nat, m: nat)
    requires
        n <= m,
        replay_fault(events, n) is Some,
    ensures
        replay_fault(events, m) == replay_fault(events, n),
    decreases m,
{
    if n < m {
        lemma_replay_fault_final(events, n, (m - 1) as nat);
    }
}

proof fn lemma_drain_fault_final(
    drained: Seq<IntentRecord>,
    matched: Seq<(usize, u64)>,
    n: nat,
    m: nat,
)
    requires
        n <= m,
        drain_fault(drained, matched, n) is Some,
    ensures
        drain_fault(drained, matched, m) == drain_fault(drained, matched, n),
    decreases m,
{
    if n < m {
        lemma_drain_fault_final(drained, matched, n, (m - 1) as nat);
    }
}

proof fn lemma_pull_fault_final(
    drained: Seq<IntentRecord>,
    matched: Seq<(usize, u64)>,
    n: nat,
    m: nat,
)
    requires
        n <= m,
        pull_fault(drained, matched, n) is Some,
    ensures
        pull_fault(drained, matched, m) == pull_fault(drained, matched, n),
    decreases m,
{
    if n < m {
        lemma_pull_fault_final(drained, matched, n, (m - 1) as nat);
    }
}

fn count_key(records: &Vec<IntentRecord>, key: &IntentRecord) -> (r: usize)
    ensures
        r == keys(records@).to_multiset().count(key.key()),
{
    broadcast use vstd::seq_lib::group_to_multiset_ensures;

    let mut n: usize = 0;
    let mut i: usize = 0;
    assert(keys(records@.take(0)) =~= Seq::empty());
    while i < records.len()
        invariant
            i <= records@.len(),
            n <= i,
            n == keys(records@.take(i as int)).to_multiset().count(key.key()),
        decreases records@.len() - i,
    {
        proof {
            assert(records@.take(i + 1) =~= records@.take(i as int).push(records@[i as int]));
            assert(keys(records@.take(i + 1)) =~= keys(records@.take(i as int)).push(
                records@[i as int].key(),
            ));
            keys(records@.take(i as int)).to_multiset_ensures();
        }
        if records[i].same(key) {
            n += 1;
        }
        i += 1;
    }
    assert(records@.take(i as int) =~= records@);
    n
}

fn same_counts(left: &Vec<IntentRecord>, right: &Vec<IntentRecord>) -> (r: bool)
    ensures
        r ==> forall|i: int|
            0 <= i < left@.len() ==> keys(left@).to_multiset().count(
                (#[trigger] left@[i]).key(),
            ) == keys(right@).to_multiset().count(left@[i].key()),
        !r ==> keys(left@).to_multiset() != keys(right@).to_multiset(),
{
    let mut i: usize = 0;
    while i < left.len()
        invariant
            i <= left@.len(),
            forall|j: int|
                0 <= j < i ==> keys(left@).to_multiset().count((#[trigger] left@[j]).key()) == keys(
                    right@,
                ).to_multiset().count(left@[j].key()),
        decreases left@.len() - i,
    {
        if count_key(left, &left[i]) != count_key(right, &left[i]) {
            return false;
        }
        i += 1;
    }
    true
}

fn same_multiset(left: &Vec<IntentRecord>, right: &Vec<IntentRecord>) -> (r: bool)
    ensures
        r == (keys(left@).to_multiset() == keys(right@).to_multiset()),
{
    broadcast use vstd::seq_lib::group_to_multiset_ensures;

    if !same_counts(left, right) {
        return false;
    }
    if !same_counts(right, left) {
        return false;
    }
    proof {
        let a = keys(left@).to_multiset();
        let b = keys(right@).to_multiset();
        assert forall|key: (Seq<char>, usize, usize, u64)| a.count(key) == b.count(key) by {
            if a.count(key) > 0 {
                assert(keys(left@).contains(key));
                let i = choose|i: int| 0 <= i < keys(left@).len() && keys(left@)[i] == key;
                assert(left@[i].key() == key);
            } else if b.count(key) > 0 {
                assert(keys(right@).contains(key));
                let i = choose|i: int| 0 <= i < keys(right@).len() && keys(right@)[i] == key;
                assert(right@[i].key() == key);
            }
        }
        assert(a =~= b);
    }
    true
}

fn contains_pull(matched: &Vec<(usize, u64)>, pull: (usize, u64)) -> (r: bool)
    ensures
        r == matched@.contains(pull),
{
    let mut i: usize = 0;
    while i < matched.len()
        invariant
            i <= matched@.len(),
            forall|j: int| 0 <= j < i ==> matched@[j] != pull,
        decreases matched@.len() - i,
    {
        if matched[i].0 == pull.0 && matched[i].1 == pull.1 {
            assert(matched@[i as int] == pull);
            return true;
        }
        i += 1;
    }
    false
}

fn count_drains(drained: &Vec<IntentRecord>, sender: usize, request: u64) -> (r: usize)
    ensures
        r == drains_for(drained@, sender, request),
{
    let mut n: usize = 0;
    let mut i: usize = 0;
    while i < drained.len()
        invariant
            i <= drained@.len(),
            n <= i,
            n == drains_for(drained@.take(i as int), sender, request),
        decreases drained@.len() - i,
    {
        assert(drained@.take(i + 1).drop_last() =~= drained@.take(i as int));
        if drained[i].sender_rb_id == sender && drained[i].request_id == request {
            n += 1;
        }
        i += 1;
    }
    assert(drained@.take(i as int) =~= drained@);
    n
}

fn check_tally(
    sent: &Vec<IntentRecord>,
    queued: &Vec<IntentRecord>,
    drained: &Vec<IntentRecord>,
    matched: &Vec<(usize, u64)>,
) -> (r: Option<ApproxPullFault>)
    ensures
        r == tally_fault(sent@, queued@, drained@, matched@),
{
    if sent.len() == 0 {
        return Some(ApproxPullFault::NoIntentSent);
    }
    if sent.len() != queued.len() {
        return Some(ApproxPullFault::DeliveryCount { sent: sent.len(), queued: queued.len() });
    }
    if sent.len() != drained.len() {
        return Some(ApproxPullFault::DrainCount { sent: sent.len(), drained: drained.len() });
    }
    if sent.len() != matched.len() {
        return Some(ApproxPullFault::PullCount { sent: sent.len(), matched: matched.len() });
    }
    if !same_multiset(sent, queued) {
        return Some(ApproxPullFault::SentQueuedPairing);
    }
    if !same_multiset(sent, drained) {
        return Some(ApproxPullFault::SentDrainedPairing);
    }
    let mut i: usize = 0;
    while i < drained.len()
        invariant
            i <= drained@.len(),
            drain_fault(drained@, matched@, i as nat) is None,
            sent@.len() == queued@.len() == drained@.len() == matched@.len(),
            sent@.len() > 0,
            keys(sent@).to_multiset() == keys(queued@).to_multiset(),
            keys(sent@).to_multiset() == keys(drained@).to_multiset(),
        decreases drained@.len() - i,
    {
        if !contains_pull(matched, (drained[i].sender_rb_id, drained[i].request_id)) {
            proof {
                lemma_drain_fault_final(drained@, matched@, (i + 1) as nat, drained@.len());
            }
            return Some(
                ApproxPullFault::DrainWithoutPull {
                    ms: drained[i].ms.clone(),
                    server: drained[i].server,
                    sender_rb_id: drained[i].sender_rb_id,
                    request_id: drained[i].request_id,
                },
            );
        }
        i += 1;
    }
    let mut i: usize = 0;
    while i < matched.len()
        invariant
            i <= matched@.len(),
            drain_fault(drained@, matched@, drained@.len()) is None,
            pull_fault(drained@, matched@, i as nat) is None,
            sent@.len() == queued@.len() == drained@.len() == matched@.len(),
            sent@.len() > 0,
            keys(sent@).to_multiset() == keys(queued@).to_multiset(),
            keys(sent@).to_multiset() == keys(drained@).to_multiset(),
        decreases matched@.len() - i,
    {
        let (handler_rb_id, request_id) = matched[i];
        let drains: usize = count_drains(drained, handler_rb_id, request_id);
        if drains == 0 {
            proof {
                lemma_pull_fault_final(drained@, matched@, (i + 1) as nat, matched@.len());
            }
            return Some(ApproxPullFault::PullWithoutDrain { handler_rb_id, request_id });
        }
        if drains > 1 {
            proof {
                lemma_pull_fault_final(drained@, matched@, (i + 1) as nat, matched@.len());
            }
            return Some(ApproxPullFault::DuplicatePull { handler_rb_id, request_id });
        }
        i += 1;
    }
    None
}

/// Records approx pull/intent events during a simulation run for post-hoc invariant checks.
pub struct ApproxPullAudit {
    events: Vec<ApproxPullEventKind>,
}

impl View for ApproxPullAudit {
    type V = Seq<ApproxPullEventKind>;

    /// The recorded events; an event's sequence number is its position.
    closed spec fn view(&self) -> Seq<ApproxPullEventKind> {
        self.events@
    }
}

impl ApproxPullAudit {
    pub fn new() -> (r: Self)
        ensures
            r@ == Seq::<ApproxPullEventKind>::empty(),
    {
        ApproxPullAudit { events: Vec::new() }
    }

    pub fn record_intent_sent(
        &mut self,
        sender_rb_id: usize,
        sender_ms: &str,
        sender_server: usize,
        target_ms: &str,
        target_server: usize,
        request_id: u64,
    )
        ensures
            final(self)@.len() == old(self)@.len() + 1,
            final(self)@.drop_last() == old(self)@,
            final(self)@.last() matches ApproxPullEventKind::IntentSent {
                sender_rb_id: rb,
                sender_ms: sm,
                sender_server: ss,
                target_ms: tm,
                target_server: ts,
                request_id: req,
            } && rb == sender_rb_id && sm@ == sender_ms@ && ss == sender_server && tm@ == target_ms@
                && ts == target_server && req == request_id,
    {
        self.events.push(
            ApproxPullEventKind::IntentSent {
                sender_rb_id,
                sender_ms: sender_ms.to_owned(),
                sender_server,
                target_ms: target_ms.to_owned(),
                target_server,
                request_id,
            },
        );
        assert(self@.drop_last() =~= old(self)@);
    }

    pub fn record_intent_queued(
        &mut self,
        downstream_ms: &str,
        downstream_server: usize,
        sender_rb_id: usize,
        request_id: u64,
        queue_len_before: usize,
    )
        ensures
            final(self)@.len() == old(self)@.len() + 1,
            final(self)@.drop_last() == old(self)@,
            final(self)@.last() matches ApproxPullEventKind::IntentQueued {
                downstream_ms: ms,
                downstream_server: server,
                sender_rb_id: rb,
                request_id: req,
                queue_len_before: len,
            } && ms@ == downstream_ms@ && server == downstream_server && rb == sender_rb_id && req
                == request_id && len == queue_len_before,
    {
        self.events.push(
            ApproxPullEventKind::IntentQueued {
                downstream_ms: downstream_ms.to_owned(),
                downstream_server,
                sender_rb_id,
                request_id,
                queue_len_before,
            },
        );
        assert(self@.drop_last() =~= old(self)@);
    }

    pub fn record_intent_drained(
        &mut self,
        downstream_ms: &str,
        downstream_server: usize,
        sender_rb_id: usize,
        request_id: u64,
        queue_len_before: usize,
        pending_pulls_before: u32,
        in_flight_before: u32,
        max_concurrency: u32,
    )
        ensures
            final(self)@.len() == old(self)@.len() + 1,
            final(self)@.drop_last() == old(self)@,
            final(self)@.last() matches ApproxPullEventKind::IntentDrained {
                downstream_ms: ms,
                downstream_server: server,
                sender_rb_id: rb,
                request_id: req,
                queue_len_before: len,
                pending_pulls_before: pending,
                in_flight_before: in_flight,
                max_concurrency: max,
            } && ms@ == downstream_ms@ && server == downstream_server && rb == sender_rb_id && req
                == request_id && len == queue_len_before && pending == pending_pulls_before
                && in_flight == in_flight_before && max == max_concurrency,
    {
        self.events.push(
            ApproxPullEventKind::IntentDrained {
                downstream_ms: downstream_ms.to_owned(),
                downstream_server,
                sender_rb_id,
                request_id,
                queue_len_before,
                pending_pulls_before,
                in_flight_before,
                max_concurrency,
            },
        );
        assert(self@.drop_last() =~= old(self)@);
    }

    pub fn record_pull_matched(
        &mut self,
        handler_rb_id: usize,
        handler_ms: &str,
        handler_server: usize,
        target_ms: &str,
        pull_from_server: usize,
        request_id: u64,
    )
        ensures
            final(self)@.len() == old(self)@.len() + 1,
            final(self)@.drop_last() == old(self)@,
            final(self)@.last() matches ApproxPullEventKind::PullMatched {
                handler_rb_id: rb,
                handler_ms: hm,
                handler_server: hs,
                target_ms: tm,
                pull_from_server: from,
                request_id: req,
            } && rb == handler_rb_id && hm@ == handler_ms@ && hs == handler_server && tm@
                == target_ms@ && from == pull_from_server && req == request_id,
    {
        self.events.push(
            ApproxPullEventKind::PullMatched {
                handler_rb_id,
                handler_ms: handler_ms.to_owned(),
                handler_server,
                target_ms: target_ms.to_owned(),
                pull_from_server,
                request_id,
            },
        );
        assert(self@.drop_last() =~= old(self)@);
    }

    fn check(&self) -> (r: Option<ApproxPullFault>)
        ensures
            r == fault_of(self@),
    {
        if self.events.len() == 0 {
            return Some(ApproxPullFault::NoEvents);
        }
        let ghost events = self.events@;
        let mut queues: Ledger<IntentLane, (usize, u64)> = Ledger::new();
        let mut sent: Vec<IntentRecord> = Vec::new();
        let mut queued: Vec<IntentRecord> = Vec::new();
        let mut drained: Vec<IntentRecord> = Vec::new();
        let mut matched: Vec<(usize, u64)> = Vec::new();
        let mut i: usize = 0;
        while i < self.events.len()
            invariant
                events == self.events@,
                events.len() > 0,
                i <= events.len(),
                queues.wf(),
                forall|lane: (Seq<char>, usize)| #[trigger]
                    queues.queue(lane) == intent_queue(events.take(i as int), lane),
                sent@ == sent_of(events.take(i as int)),
                queued@ == queued_of(events.take(i as int)),
                drained@ == drained_of(events.take(i as int)),
                matched@ == matched_of(events.take(i as int)),
                replay_fault(events, i as nat) is None,
            decreases events.len() - i,
        {
            proof {
                assert(events.take(i + 1).drop_last() =~= events.take(i as int));
                assert(events.take(i + 1).last() == events[i as int]);
            }
            match &self.events[i] {
                ApproxPullEventKind::IntentSent {
                    sender_rb_id,
                    target_ms,
                    target_server,
                    request_id,
                    ..
                } => {
                    sent.push(
                        IntentRecord {
                            ms: target_ms.clone(),
                            server: *target_server,
                            sender_rb_id: *sender_rb_id,
                            request_id: *request_id,
                        },
                    );
                },
                ApproxPullEventKind::IntentQueued {
                    downstream_ms,
                    downstream_server,
                    sender_rb_id,
                    request_id,
                    queue_len_before,
                } => {
                    let lane = IntentLane { ms: downstream_ms.clone(), server: *downstream_server };
                    let expected: usize = queues.depth(&lane);
                    if *queue_len_before != expected {
                        proof {
                            lemma_replay_fault_final(events, (i + 1) as nat, events.len());
                        }
                        return Some(
                            ApproxPullFault::QueuedDepth {
                                ms: downstream_ms.clone(),
                                server: *downstream_server,
                                expected,
                                got: *queue_len_before,
                                seq: i,
                            },
                        );
                    }
                    queues.push(lane, (*sender_rb_id, *request_id));
                    queued.push(
                        IntentRecord {
                            ms: downstream_ms.clone(),
                            server: *downstream_server,
                            sender_rb_id: *sender_rb_id,
                            request_id: *request_id,
                        },
                    );
                },
                ApproxPullEventKind::IntentDrained {
                    downstream_ms,
                    downstream_server,
                    sender_rb_id,
                    request_id,
                    queue_len_before,
                    pending_pulls_before,
                    in_flight_before,
                    max_concurrency,
                } => {
                    if *in_flight_before as u64 + *pending_pulls_before as u64
                        >= *max_concurrency as u64 {
                        proof {
                            lemma_replay_fault_final(events, (i + 1) as nat, events.len());
                        }
                        return Some(
                            ApproxPullFault::DrainedAtCapacity {
                                ms: downstream_ms.clone(),
                                server: *downstream_server,
                                in_flight: *in_flight_before,
                                pending: *pending_pulls_before,
                                max: *max_concurrency,
                                seq: i,
                            },
                        );
                    }
                    let lane = IntentLane { ms: downstream_ms.clone(), server: *downstream_server };
                    let expected: usize = queues.depth(&lane);
                    if *queue_len_before != expected {
                        proof {
                            lemma_replay_fault_final(events, (i + 1) as nat, events.len());
                        }
                        return Some(
                            ApproxPullFault::DrainedDepth {
                                ms: downstream_ms.clone(),
                                server: *downstream_server,
                                expected,
                                got: *queue_len_before,
                                seq: i,
                            },
                        );
                    }
                    if expected == 0 {
                        proof {
                            lemma_replay_fault_final(events, (i + 1) as nat, events.len());
                        }
                        return Some(
                            ApproxPullFault::DrainedEmpty {
                                ms: downstream_ms.clone(),
                                server: *downstream_server,
                                seq: i,
                            },
                        );
                    }
                    let front = *queues.item(&lane, 0);
                    if front.0 != *sender_rb_id || front.1 != *request_id {
                        proof {
                            lemma_replay_fault_final(events, (i + 1) as nat, events.len());
                        }
                        return Some(
                            ApproxPullFault::NotFifo {
                                ms: downstream_ms.clone(),
                                server: *downstream_server,
                                front,
                                sender_rb_id: *sender_rb_id,
                                request_id: *request_id,
                                seq: i,
                            },
                        );
                    }
                    queues.remove(&lane, 0);
                    drained.push(
                        IntentRecord {
                            ms: downstream_ms.clone(),
                            server: *downstream_server,
                            sender_rb_id: *sender_rb_id,
                            request_id: *request_id,
                        },
                    );
                },
                ApproxPullEventKind::PullMatched { handler_rb_id, request_id, .. } => {
                    matched.push((*handler_rb_id, *request_id));
                },
            }
            i += 1;
        }
        assert(events.take(i as int) =~= events);
        check_tally(&sent, &queued, &drained, &matched)
    }

    /// Check delivery, queue accounting, FIFO pops, and bound pull routing.
    pub fn validate(&self) -> (r: Result<(), String>)
        ensures
            match fault_of(self@) {
                None => r is Ok,
                Some(fault) => r matches Err(e) && e@ == fault.text(
                    sent_of(self@),
                    queued_of(self@),
                    drained_of(self@),
                ),
            },
    {
        match self.check() {
            None => Ok(()),
            Some(fault) => {
                let (sent, queued, drained) = self.intents();
                Err(fault.message(&sent, &queued, &drained))
            },
        }
    }

    /// The intents that were sent, queued and drained, in order.
    fn intents(&self) -> (r: (Vec<IntentRecord>, Vec<IntentRecord>, Vec<IntentRecord>))
        ensures
            r.0@ == sent_of(self@),
            r.1@ == queued_of(self@),
            r.2@ == drained_of(self@),
    {
        let ghost events = self.events@;
        let mut sent: Vec<IntentRecord> = Vec::new();
        let mut queued: Vec<IntentRecord> = Vec::new();
        let mut drained: Vec<IntentRecord> = Vec::new();
        let mut i: usize = 0;
        while i < self.events.len()
            invariant
                events == self.events@,
                i <= events.len(),
                sent@ == sent_of(events.take(i as int)),
                queued@ == queued_of(events.take(i as int)),
                drained@ == drained_of(events.take(i as int)),
            decreases events.len() - i,
        {
            proof {
                assert(events.take(i + 1).drop_last() =~= events.take(i as int));
                assert(events.take(i + 1).last() == events[i as int]);
            }
            match &self.events[i] {
                ApproxPullEventKind::IntentSent {
                    sender_rb_id,
                    target_ms,
                    target_server,
                    request_id,
                    ..
                } => sent.push(
                    IntentRecord {
                        ms: target_ms.clone(),
                        server: *target_server,
                        sender_rb_id: *sender_rb_id,
                        request_id: *request_id,
                    },
                ),
                ApproxPullEventKind::IntentQueued {
                    downstream_ms,
                    downstream_server,
                    sender_rb_id,
                    request_id,
                    ..
                } => queued.push(
                    IntentRecord {
                        ms: downstream_ms.clone(),
                        server: *downstream_server,
                        sender_rb_id: *sender_rb_id,
                        request_id: *request_id,
                    },
                ),
                ApproxPullEventKind::IntentDrained {
                    downstream_ms,
                    downstream_server,
                    sender_rb_id,
                    request_id,
                    ..
                } => drained.push(
                    IntentRecord {
                        ms: downstream_ms.clone(),
                        server: *downstream_server,
                        sender_rb_id: *sender_rb_id,
                        request_id: *request_id,
                    },
                ),
                ApproxPullEventKind::PullMatched { .. } => {},
            }
            i += 1;
        }
        assert(events.take(i as int) =~= events);
        (sent, queued, drained)
    }
}

/// Of `records`, the intents of one downstream server, in order.
pub open spec fn on_lane(records: Seq<IntentRecord>, lane: (Seq<char>, usize)) -> Seq<(usize, u64)>
    decreases records.len(),
{
    if records.len() == 0 {
        Seq::empty()
    } else {
        let before = on_lane(records.drop_last(), lane);
        if records.last().lane() == lane {
            before.push((records.last().sender_rb_id, records.last().request_id))
        } else {
            before
        }
    }
}

proof fn lemma_replay_fault_prefix(events: Seq<ApproxPullEventKind>, n: nat)
    requires
        n < events.len(),
    ensures
        replay_fault(events.drop_last(), n) == replay_fault(events, n),
    decreases n,
{
    if n > 0 {
        lemma_replay_fault_prefix(events, (n - 1) as nat);
        assert(events.drop_last().take(n - 1) =~= events.take(n - 1));
    }
}

proof fn lemma_lane_step(records: Seq<IntentRecord>, record: IntentRecord, lane: (Seq<char>, usize))
    ensures
        on_lane(records.push(record), lane) == if record.lane() == lane {
            on_lane(records, lane).push((record.sender_rb_id, record.request_id))
        } else {
            on_lane(records, lane)
        },
{
    assert(records.push(record).drop_last() =~= records);
}

/// In a trace whose events replay without fault, each server drains its intents in
/// the order in which they were queued: what it has drained, followed by what is
/// still waiting, is what was queued.
pub proof fn law_intents_drain_in_order(
    events: Seq<ApproxPullEventKind>,
    lane: (Seq<char>, usize),
)
    requires
        replay_fault(events, events.len()) is None,
    ensures
        on_lane(queued_of(events), lane) == on_lane(drained_of(events), lane) + intent_queue(
            events,
            lane,
        ),
    decreases events.len(),
{
    if events.len() > 0 {
        let n = (events.len() - 1) as nat;
        let before = events.drop_last();
        lemma_replay_fault_prefix(events, n);
        law_intents_drain_in_order(before, lane);
        assert(events.take(n as int) =~= before);
        assert(event_fault(events, n as int) is None);
        match events.last() {
            ApproxPullEventKind::IntentQueued {
                downstream_ms,
                downstream_server,
                sender_rb_id,
                request_id,
                ..
            } => {
                let record = IntentRecord {
                    ms: downstream_ms,
                    server: downstream_server,
                    sender_rb_id,
                    request_id,
                };
                lemma_lane_step(queued_of(before), record, lane);
            },
            ApproxPullEventKind::IntentDrained {
                downstream_ms,
                downstream_server,
                sender_rb_id,
                request_id,
                ..
            } => {
                let record = IntentRecord {
                    ms: downstream_ms,
                    server: downstream_server,
                    sender_rb_id,
                    request_id,
                };
                lemma_lane_step(drained_of(before), record, lane);
            },
            _ => {},
        }
        assert(on_lane(queued_of(events), lane) =~= on_lane(drained_of(events), lane)
            + intent_queue(events, lane));
    }
}

proof fn lemma_lane_remove(records: Seq<IntentRecord>, i: int, lane: (Seq<char>, usize))
    requires
        0 <= i < records.len(),
    ensures
        on_lane(records, lane).len() == on_lane(records.remove(i), lane).len() + if records[i].lane()
            == lane {
            1int
        } else {
            0
        },
    decreases records.len(),
{
    if i == records.len() - 1 {
        assert(records.remove(i) =~= records.drop_last());
    } else {
        lemma_lane_remove(records.drop_last(), i, lane);
        assert(records.remove(i).drop_last() =~= records.drop_last().remove(i));
        assert(records.remove(i).last() == records.last());
    }
}

proof fn lemma_lane_len(left: Seq<IntentRecord>, right: Seq<IntentRecord>, lane: (Seq<char>, usize))
    requires
        keys(left).to_multiset() == keys(right).to_multiset(),
    ensures
        on_lane(left, lane).len() == on_lane(right, lane).len(),
    decreases left.len(),
{
    keys(left).to_multiset_ensures();
    keys(right).to_multiset_ensures();
    if left.len() > 0 {
        let last = left.last();
        let end = left.len() - 1;
        assert(keys(left)[end] == last.key());
        assert(keys(left).contains(last.key()));
        assert(keys(left).to_multiset().count(last.key()) > 0);
        assert(keys(right).to_multiset().count(last.key()) > 0);
        let i = choose|i: int| 0 <= i < keys(right).len() && keys(right)[i] == last.key();
        assert(right[i].key() == last.key());
        assert(keys(left.drop_last()) =~= keys(left).remove(end));
        assert(keys(right.remove(i)) =~= keys(right).remove(i));
        lemma_lane_len(left.drop_last(), right.remove(i), lane);
        lemma_lane_remove(right, i, lane);
        assert(right[i].lane() == last.lane());
    }
}

/// A trace that passes the audit leaves no intent waiting at any server, and every
/// server has drained its intents in exactly the order in which they were queued.
pub proof fn law_accepted_trace_drains_every_queue(
    events: Seq<ApproxPullEventKind>,
    lane: (Seq<char>, usize),
)
    requires
        fault_of(events) is None,
    ensures
        intent_queue(events, lane).len() == 0,
        on_lane(drained_of(events), lane) == on_lane(queued_of(events), lane),
{
    law_intents_drain_in_order(events, lane);
    lemma_lane_len(queued_of(events), drained_of(events), lane);
    assert(intent_queue(events, lane).len() == 0);
    assert(on_lane(drained_of(events), lane) =~= on_lane(queued_of(events), lane));
}

proof fn lemma_no_pull_fault(drained: Seq<IntentRecord>, matched: Seq<(usize, u64)>, n: nat, i: int)
    requires
        pull_fault(drained, matched, n) is None,
        0 <= i < n <= matched.len(),
    ensures
        drains_for(drained, matched[i].0, matched[i].1) == 1,
    decreases n,
{
    if i < n - 1 {
        lemma_no_pull_fault(drained, matched, (n - 1) as nat, i);
    }
}

/// In a trace that passes the audit every intent was queued and drained exactly as
/// often as it was sent, there are as many pulls as intents, and each pull answers
/// exactly one drained intent.
pub proof fn law_accepted_trace_pairs_every_intent(events: Seq<ApproxPullEventKind>)
    requires
        fault_of(events) is None,
    ensures
        sent_of(events).len() > 0,
        keys(queued_of(events)).to_multiset() == keys(sent_of(events)).to_multiset(),
        keys(drained_of(events)).to_multiset() == keys(sent_of(events)).to_multiset(),
        matched_of(events).len() == sent_of(events).len(),
        forall|i: int|
            0 <= i < matched_of(events).len() ==> drains_for(
                drained_of(events),
                (#[trigger] matched_of(events)[i]).0,
                matched_of(events)[i].1,
            ) == 1,
{
    let drained = drained_of(events);
    let matched = matched_of(events);
    assert forall|i: int| 0 <= i < matched.len() implies drains_for(
        drained,
        (#[trigger] matched[i]).0,
        matched[i].1,
    ) == 1 by {
        lemma_no_pull_fault(drained, matched, matched.len(), i);
    }
}

/// A trace passes only if intents are drained while a slot of the server is neither busy nor
/// promised, and in their turn: each is the one that stood first at its server.
pub proof fn law_accepted_drains_have_a_slot(events: Seq<ApproxPullEventKind>, i: int)
    requires
        fault_of(events) is None,
        0 <= i < events.len(),
    ensures
        events[i] matches ApproxPullEventKind::IntentDrained {
            downstream_ms,
            downstream_server,
            sender_rb_id,
            request_id,
            queue_len_before,
            pending_pulls_before,
            in_flight_before,
            max_concurrency,
        } ==> {
            let waiting = intent_queue(events.take(i), (downstream_ms@, downstream_server));
            &&& in_flight_before + pending_pulls_before < max_concurrency
            &&& waiting.len() == queue_len_before
            &&& waiting.len() > 0
            &&& waiting[0] == (sender_rb_id, request_id)
        },
{
    lemma_no_event_fault(events, events.len(), i);
}

proof fn lemma_no_event_fault(events: Seq<ApproxPullEventKind>, n: nat, i: int)
    requires
        0 <= i < n <= events.len(),
        replay_fault(events, n) is None,
    ensures
        event_fault(events, i) is None,
    decreases n,
{
    if i < n - 1 {
        lemma_no_event_fault(events, (n - 1) as nat, i);
    }
}

} // verus!
