//! Audit trail of bounded pulls in the microservice simulator: a replica pulls only
//! while its occupancy, with the pulls still on their way, is below the bound `n`.

use crate::text::{decimal, Text};
use vstd::prelude::*;

verus! {

#[derive(Debug, Clone, PartialEq, Eq)]
pub enum JbsqEventKind {
    PullSent {
        microservice_id: String,
        server_idx: usize,
        occupancy_before: u32,
        pending_before: u32,
        n: u32,
    },
    PullArrived {
        microservice_id: String,
        server_idx: usize,
        queue_before: u32,
        in_flight_before: u32,
        pending_before: u32,
        n: u32,
    },
}

/// What a trace can be rejected for.
pub enum JbsqFault {
    NoEvents,
    SentAtCapacity { ms: String, server: usize, occupancy: u32, pending: u32, n: u32, seq: usize },
    ArrivedBeyond { ms: String, server: usize, queue: u32, in_flight: u32, n: u32, seq: usize },
}

impl JbsqFault {
    /// The text a fault is reported with.
    pub open spec fn text(self) -> Seq<char> {
        match self {
            JbsqFault::NoEvents => "jbsq audit recorded no events"@,
            JbsqFault::SentAtCapacity { ms, server, occupancy, pending, n, seq } =>
                "PullSent when at capacity: ms="@ + ms@ + " server="@ + decimal(server as nat)
                + " occupancy="@ + decimal(occupancy as nat) + " pending="@ + decimal(
                pending as nat,
            ) + " n="@ + decimal(n as nat) + " (seq="@ + decimal(seq as nat) + ")"@,
            JbsqFault::ArrivedBeyond { ms, server, queue, in_flight, n, seq } =>
                "PullArrived exceeds n: ms="@ + ms@ + " server="@ + decimal(server as nat)
                + " queue="@ + decimal(queue as nat) + " in_flight="@ + decimal(in_flight as nat)
                + " occupancy_after="@ + decimal((queue + in_flight + 1) as nat) + " n="@ + decimal(
                n as nat,
            ) + " (seq="@ + decimal(seq as nat) + ")"@,
        }
    }

    /// Renders the fault.
    pub fn message(&self) -> (s: String)
        ensures
            s@ == self.text(),
    {
        match self {
            JbsqFault::NoEvents => Text::of("jbsq audit recorded no events").done(),
            JbsqFault::SentAtCapacity { ms, server, occupancy, pending, n, seq } => Text::of(
                "PullSent when at capacity: ms=",
            ).lit(ms).lit(" server=").size(*server).lit(" occupancy=").num(*occupancy as u64).lit(
                " pending=",
            ).num(*pending as u64).lit(" n=").num(*n as u64).lit(" (seq=").size(*seq).lit(
                ")",
            ).done(),
            JbsqFault::ArrivedBeyond { ms, server, queue, in_flight, n, seq } => Text::of(
                "PullArrived exceeds n: ms=",
            ).lit(ms).lit(" server=").size(*server).lit(" queue=").num(*queue as u64).lit(
                " in_flight=",
            ).num(*in_flight as u64).lit(" occupancy_after=").num(
                *queue as u64 + *in_flight as u64 + 1,
            ).lit(" n=").num(*n as u64).lit(" (seq=").size(*seq).lit(")").done(),
        }
    }
}

/// What is wrong with event `i`: a pull sent at the bound, or one that takes the
/// replica beyond it.
pub open spec fn event_fault(events: Seq<JbsqEventKind>, i: int) -> Option<JbsqFault> {
    match events[i] {
        JbsqEventKind::PullSent {
            microservice_id,
            server_idx,
            occupancy_before,
            pending_before,
            n,
        } => if occupancy_before + pending_before >= n {
            Some(
                JbsqFault::SentAtCapacity {
                    ms: microservice_id,
                    server: server_idx,
                    occupancy: occupancy_before,
                    pending: pending_before,
                    n,
                    seq: i as usize,
                },
            )
        } else {
            None
        },
        JbsqEventKind::PullArrived {
            microservice_id,
            server_idx,
            queue_before,
            in_flight_before,
            n,
            ..
        } => if queue_before + in_flight_before + 1 > n {
            Some(
                JbsqFault::ArrivedBeyond {
                    ms: microservice_id,
                    server: server_idx,
                    queue: queue_before,
                    in_flight: in_flight_before,
                    n,
                    seq: i as usize,
                },
            )
        } else {
            None
        },
    }
}

/// The earliest fault among the first `m` events.
pub open spec fn replay_fault(events: Seq<JbsqEventKind>, m: nat) -> Option<JbsqFault>
    decreases m,
{
    if m == 0 {
        None
    } else {
        match replay_fault(events, (m - 1) as nat) {
            Some(fault) => Some(fault),
            None => event_fault(events, m - 1),
        }
    }
}

/// The fault a trace is rejected for, if any.
pub open spec fn fault_of(events: Seq<JbsqEventKind>) -> Option<JbsqFault> {
    if events.len() == 0 {
        Some(JbsqFault::NoEvents)
    } else {
        replay_fault(events, events.len())
    }
}

/// A pull that arrives at a replica which already holds work.
pub open spec fn queues_locally(event: JbsqEventKind) -> bool {
    event matches JbsqEventKind::PullArrived { queue_before, in_flight_before, .. } && (queue_before
        > 0 || in_flight_before > 0)
}

/// How many pulls were sent in `events`.
pub open spec fn sent_in(events: Seq<JbsqEventKind>) -> nat
    decreases events.len(),
{
    if events.len() == 0 {
        0
    } else {
        sent_in(events.drop_last()) + if events.last() is PullSent {
            1nat
        } else {
            0
        }
    }
}

/// How many pulls arrived in `events`.
pub open spec fn arrived_in(events: Seq<JbsqEventKind>) -> nat
    decreases events.len(),
{
    if events.len() == 0 {
        0
    } else {
        arrived_in(events.drop_last()) + if events.last() is PullArrived {
            1nat
        } else {
            0
        }
    }
}

proof fn lemma_replay_fault_final(events: Seq<JbsqEventKind>, m: nat, end: nat)
    requires
        m <= end,
        replay_fault(events, m) is Some,
    ensures
        replay_fault(events, end) == replay_fault(events, m),
    decreases end,
{
    if m < end {
        lemma_replay_fault_final(events, m, (end - 1) as nat);
    }
}

proof fn lemma_replay_clean_at(events: Seq<JbsqEventKind>, m: nat, i: int)
    requires
        replay_fault(events, m) is None,
        0 <= i < m,
    ensures
        event_fault(events, i) is None,
    decreases m,
{
    if i < m - 1 {
        lemma_replay_clean_at(events, (m - 1) as nat, i);
    }
}

/// In a trace that passes the audit, no pull is sent at the bound and no arrival takes
/// a replica's occupancy beyond it.
pub proof fn law_accepted_trace_respects_bound(events: Seq<JbsqEventKind>, i: int)
    requires
        fault_of(events) is None,
        0 <= i < events.len(),
    ensures
        events[i] matches JbsqEventKind::PullSent { occupancy_before, pending_before, n, .. }
            ==> occupancy_before + pending_before < n,
        events[i] matches JbsqEventKind::PullArrived { queue_before, in_flight_before, n, .. }
            ==> queue_before + in_flight_before + 1 <= n,
{
    lemma_replay_clean_at(events, events.len(), i);
}

/// Records MS jbsq pull occupancy events for post-hoc invariant checks.
pub struct MsJbsqAudit {
    events: Vec<JbsqEventKind>,
}

impl View for MsJbsqAudit {
    type V = Seq<JbsqEventKind>;

    /// The recorded events; an event's sequence number is its position.
    closed spec fn view(&self) -> Seq<JbsqEventKind> {
        self.events@
    }
}

impl MsJbsqAudit {
    pub fn new() -> (r: Self)
        ensures
            r@ == Seq::<JbsqEventKind>::empty(),
    {
        MsJbsqAudit { events: Vec::new() }
    }

    pub fn record_pull_sent(
        &mut self,
        microservice_id: &str,
        server_idx: usize,
        occupancy_before: u32,
        pending_before: u32,
        n: u32,
    )
        ensures
            final(self)@.len() == old(self)@.len() + 1,
            final(self)@.drop_last() == old(self)@,
            final(self)@.last() matches JbsqEventKind::PullSent {
                microservice_id: ms,
                server_idx: server,
                occupancy_before: occupancy,
                pending_before: pending,
                n: bound,
            } && ms@ == microservice_id@ && server == server_idx && occupancy == occupancy_before
                && pending == pending_before && bound == n,
    {
        self.events.push(
            JbsqEventKind::PullSent {
                microservice_id: microservice_id.to_owned(),
                server_idx,
                occupancy_before,
                pending_before,
                n,
            },
        );
        assert(self@.drop_last() =~= old(self)@);
    }

    pub fn record_pull_arrived(
        &mut self,
        microservice_id: &str,
        server_idx: usize,
        queue_before: u32,
        in_flight_before: u32,
        pending_before: u32,
        n: u32,
    )
        ensures
            final(self)@.len() == old(self)@.len() + 1,
            final(self)@.drop_last() == old(self)@,
            final(self)@.last() matches JbsqEventKind::PullArrived {
                microservice_id: ms,
                server_idx: server,
                queue_before: queue,
                in_flight_before: in_flight,
                pending_before: pending,
                n: bound,
            } && ms@ == microservice_id@ && server == server_idx && queue == queue_before
                && in_flight == in_flight_before && pending == pending_before && bound == n,
    {
        self.events.push(
            JbsqEventKind::PullArrived {
                microservice_id: microservice_id.to_owned(),
                server_idx,
                queue_before,
                in_flight_before,
                pending_before,
                n,
            },
        );
        assert(self@.drop_last() =~= old(self)@);
    }

    fn check(&self) -> (r: Option<JbsqFault>)
        ensures
            r == fault_of(self@),
    {
        if self.events.len() == 0 {
            return Some(JbsqFault::NoEvents);
        }
        let mut i: usize = 0;
        while i < self.events.len()
            invariant
                0 < self.events@.len(),
                i <= self.events@.len(),
                replay_fault(self.events@, i as nat) is None,
            decreases self.events@.len() - i,
        {
            proof {
                if replay_fault(self.events@, (i + 1) as nat) is Some {
                    lemma_replay_fault_final(self.events@, (i + 1) as nat, self.events@.len());
                }
            }
            match &self.events[i] {
                JbsqEventKind::PullSent {
                    microservice_id,
                    server_idx,
                    occupancy_before,
                    pending_before,
                    n,
                } => {
                    if *occupancy_before as u64 + *pending_before as u64 >= *n as u64 {
                        return Some(
                            JbsqFault::SentAtCapacity {
                                ms: microservice_id.clone(),
                                server: *server_idx,
                                occupancy: *occupancy_before,
                                pending: *pending_before,
                                n: *n,
                                seq: i,
                            },
                        );
                    }
                },
                JbsqEventKind::PullArrived {
                    microservice_id,
                    server_idx,
                    queue_before,
                    in_flight_before,
                    n,
                    ..
                } => {
                    if *queue_before as u64 + *in_flight_before as u64 + 1 > *n as u64 {
                        return Some(
                            JbsqFault::ArrivedBeyond {
                                ms: microservice_id.clone(),
                                server: *server_idx,
                                queue: *queue_before,
                                in_flight: *in_flight_before,
                                n: *n,
                                seq: i,
                            },
                        );
                    }
                },
            }
            i += 1;
        }
        None
    }

    /// Never send a pull when `occupancy + pending >= n`.
    /// After each arrival, reconstructed occupancy never exceeds `n`.
    pub fn validate(&self) -> (r: Result<(), String>)
        ensures
            match fault_of(self@) {
                None => r is Ok,
                Some(fault) => r matches Err(e) && e@ == fault.text(),
            },
    {
        match self.check() {
            None => Ok(()),
            Some(fault) => Err(fault.message()),
        }
    }

    /// True if any pull arrived while the replica already held upstream work
    /// (queued or in service), so the new request must sit on the local queue.
    pub fn observed_local_queueing(&self) -> (r: bool)
        ensures
            r == exists|i: int| 0 <= i < self@.len() && queues_locally(#[trigger] self@[i]),
    {
        let mut i: usize = 0;
        while i < self.events.len()
            invariant
                i <= self.events@.len(),
                forall|j: int| 0 <= j < i ==> !queues_locally(#[trigger] self.events@[j]),
            decreases self.events@.len() - i,
        {
            if let JbsqEventKind::PullArrived { queue_before, in_flight_before, .. } =
                &self.events[i] {
                if *queue_before > 0 || *in_flight_before > 0 {
                    assert(queues_locally(self@[i as int]));
                    return true;
                }
            }
            i += 1;
        }
        false
    }

    pub fn pull_sent_count(&self) -> (r: usize)
        ensures
            r == sent_in(self@),
    {
        let mut n: usize = 0;
        let mut i: usize = 0;
        while i < self.events.len()
            invariant
                n <= i <= self.events@.len(),
                n == sent_in(self.events@.take(i as int)),
            decreases self.events@.len() - i,
        {
            assert(self.events@.take(i + 1).drop_last() =~= self.events@.take(i as int));
            if let JbsqEventKind::PullSent { .. } = &self.events[i] {
                n += 1;
            }
            i += 1;
        }
        assert(self.events@.take(i as int) =~= self.events@);
        n
    }

    pub fn pull_arrived_count(&self) -> (r: usize)
        ensures
            r == arrived_in(self@),
    {
        let mut n: usize = 0;
        let mut i: usize = 0;
        while i < self.events.len()
            invariant
                n <= i <= self.events@.len(),
                n == arrived_in(self.events@.take(i as int)),
            decreases self.events@.len() - i,
        {
            assert(self.events@.take(i + 1).drop_last() =~= self.events@.take(i as int));
            if let JbsqEventKind::PullArrived { .. } = &self.events[i] {
                n += 1;
            }
            i += 1;
        }
        assert(self.events@.take(i as int) =~= self.events@);
        n
    }
}

} // verus!
