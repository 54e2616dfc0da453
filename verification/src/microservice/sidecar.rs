//! Sidecars that several replicas of a microservice share: which replicas belong to which
//! sidecar, and what a sidecar does.
//!
//! A sidecar passes new arrivals on to the replica with the lowest occupancy, and keeps one
//! queue of announced calls for all its replicas.

use super::hop::{intent_deadlines, Hop, MsPullIntent, PullModel, ReplicaInput, ReplicaPull};
use super::replica::insert_intent;
use crate::approx_audit::{ApproxPullAudit, ApproxPullEventKind};
use crate::load_balancer::one_less;
use crate::policy::ApproxSchedKind;
use crate::queues::take_front;
use crate::scheduling::edf_position;
use std::collections::{HashMap, VecDeque};
use vstd::prelude::*;

verus! {

broadcast use vstd::std_specs::hash::group_hash_axioms;

/// How many replicas a sidecar covers: at least one.
pub open spec fn per_sidecar(share: u32) -> nat {
    if share == 0 {
        1
    } else {
        share as nat
    }
}

/// The sidecar of a replica.
pub open spec fn sidecar_of(replica_idx: nat, share: u32) -> nat {
    replica_idx / per_sidecar(share)
}

/// Number of sidecars for `replicas` with `share` replicas per sidecar.
pub fn n_sidecars(replicas: usize, share: u32) -> (r: usize)
    ensures
        replicas == 0 ==> r == 0,
        replicas > 0 ==> r == sidecar_of((replicas - 1) as nat, share) + 1,
{
    let share: usize = if share == 0 {
        1
    } else {
        share as usize
    };
    if replicas == 0 {
        return 0;
    }
    proof {
        assert((replicas - 1) / share as int <= replicas - 1) by (nonlinear_arith)
            requires
                replicas >= 1,
                share >= 1,
        ;
    }
    (replicas - 1) / share + 1
}

/// Sidecar id owning `replica_idx` when each sidecar covers `share` replicas.
pub fn sidecar_id(replica_idx: usize, share: u32) -> (r: usize)
    ensures
        r == sidecar_of(replica_idx as nat, share),
{
    let share: usize = if share == 0 {
        1
    } else {
        share as usize
    };
    replica_idx / share
}

/// Replica indices owned by `sidecar_idx`.
pub fn sidecar_replicas(sidecar_idx: usize, replicas: usize, share: u32) -> (r: Vec<usize>)
    requires
        (sidecar_idx + 1) * per_sidecar(share) <= usize::MAX,
    ensures
        forall|i: int, j: int|
            #![trigger r@[i], r@[j]]
            0 <= i < j < r@.len() ==> r@[i] < r@[j],
        forall|idx: usize| #[trigger]
            r@.contains(idx) <==> idx < replicas && sidecar_of(idx as nat, share) == sidecar_idx,
{
    let size: usize = if share == 0 {
        1
    } else {
        share as usize
    };
    proof {
        assert(sidecar_idx * size + size == (sidecar_idx + 1) * size) by (nonlinear_arith);
        assert(sidecar_idx * size >= 0) by (nonlinear_arith);
    }
    let start: usize = sidecar_idx * size;
    let mut out: Vec<usize> = Vec::new();
    let end: usize = if start + size < replicas {
        start + size
    } else {
        replicas
    };
    let mut next: usize = start;
    while next < end
        invariant
            start <= next,
            start < end ==> next <= end,
            start >= end ==> next == start,
            forall|i: int, j: int|
                #![trigger out@[i], out@[j]]
                0 <= i < j < out@.len() ==> out@[i] < out@[j],
            forall|idx: usize| #[trigger] out@.contains(idx) <==> start <= idx < next,
        decreases end - next,
    {
        let ghost shorter = out@;
        out.push(next);
        proof {
            assert forall|i: int, j: int|
                #![trigger out@[i], out@[j]]
                0 <= i < j < out@.len() implies out@[i] < out@[j] by {
                if j == shorter.len() {
                    assert(shorter.contains(shorter[i]));
                } else {
                    assert(shorter[i] < shorter[j]);
                }
            }
            assert forall|idx: usize| #[trigger] out@.contains(idx) <==> start <= idx < next + 1 by {
                if out@.contains(idx) {
                    let i = choose|i: int| 0 <= i < out@.len() && out@[i] == idx;
                    if i < shorter.len() {
                        assert(shorter.contains(shorter[i]));
                    }
                }
                if start <= idx < next {
                    assert(shorter.contains(idx));
                    let i = choose|i: int| 0 <= i < shorter.len() && shorter[i] == idx;
                    assert(out@[i] == idx);
                }
                if idx == next {
                    assert(out@[shorter.len() as int] == idx);
                }
            }
        }
        next += 1;
    }
    proof {
        assert forall|idx: usize| #[trigger]
            out@.contains(idx) <==> idx < replicas && sidecar_of(idx as nat, share)
            == sidecar_idx by {
            lemma_owner(idx as nat, size as nat, sidecar_idx as nat);
        }
    }
    out
}

proof fn lemma_owner(idx: nat, size: nat, sidecar: nat)
    requires
        size > 0,
    ensures
        idx / size == sidecar <==> sidecar * size <= idx < sidecar * size + size,
{
    assert(idx / size == sidecar <==> sidecar * size <= idx < sidecar * size + size)
        by (nonlinear_arith)
        requires
            size > 0,
    ;
}

/// Every replica belongs to one of the sidecars that there are, and to no other: `sidecar`
/// covers it exactly where `sidecar` is its sidecar.
pub proof fn law_sidecars_partition_replicas(
    replica_idx: nat,
    replicas: nat,
    share: u32,
    sidecar: nat,
)
    requires
        replica_idx < replicas,
    ensures
        sidecar_of(replica_idx, share) <= sidecar_of((replicas - 1) as nat, share),
        sidecar == sidecar_of(replica_idx, share) <==> sidecar * per_sidecar(share) <= replica_idx
            < sidecar * per_sidecar(share) + per_sidecar(share),
{
    let size = per_sidecar(share);
    assert(replica_idx / size <= ((replicas - 1) as nat) / size) by (nonlinear_arith)
        requires
            size > 0,
            replica_idx <= (replicas - 1) as nat,
    ;
    lemma_owner(replica_idx, size, sidecar);
}

/// With one replica per sidecar, each replica has its own.
pub proof fn law_share_one_is_identity(replica_idx: nat)
    ensures
        sidecar_of(replica_idx, 1) == replica_idx,
{
}

/// What a replica tells its sidecar.
#[derive(Clone, Copy, Debug, PartialEq, Eq, Structural)]
pub enum SidecarCapacityEvent {
    /// A call that was asked for arrived.
    PullArrived { server_idx: usize },
    /// Work on a call is over.
    Completed { server_idx: usize },
    /// How many items the replica holds, waiting or worked on.
    Occupancy { server_idx: usize, level: u32 },
}

/// The answer to an announced call.
#[derive(Clone, Debug)]
pub struct SidecarPull {
    pub sender_id: usize,
    pub pull: ReplicaPull,
}

/// An answer as a mathematical value.
#[verifier::ext_equal]
pub struct AnswerModel {
    pub sender_id: usize,
    pub pull: PullModel,
}

impl SidecarPull {
    pub open spec fn model(self) -> AnswerModel {
        AnswerModel { sender_id: self.sender_id, pull: self.pull.model() }
    }
}

pub open spec fn answers_of(list: Seq<SidecarPull>) -> Seq<AnswerModel> {
    list.map_values(|a: SidecarPull| a.model())
}

/// What a drained intent leaves in the audit trail.
pub struct DrainRecord {
    pub sender_id: usize,
    pub request_id: u64,
    pub queue_len: nat,
    pub pending: u32,
    pub in_flight: u32,
    pub max: u32,
}

/// What a sidecar is made of.
#[verifier::ext_equal]
pub struct SidecarState {
    pub microservice: Seq<char>,
    pub sidecar_id: usize,
    pub replicas: Seq<usize>,
    /// Last known occupancy of each replica, with the arrivals passed on since.
    pub occupancy: Map<usize, u32>,
    /// Calls that were asked for and have not arrived.
    pub pending: Map<usize, u32>,
    pub max: Map<usize, u32>,
    pub intents: Seq<MsPullIntent>,
    /// Balancers that announce calls to this sidecar.
    pub senders: Seq<usize>,
    pub approx_sched: Option<ApproxSchedKind>,
}

/// A sidecar, what it sent, and what it left in the trail.
#[verifier::ext_equal]
pub struct SidecarStep {
    pub state: SidecarState,
    pub answers: Seq<AnswerModel>,
    pub drains: Seq<DrainRecord>,
}

/// The entry of `idx`, or `default`.
pub open spec fn entry(table: Map<usize, u32>, idx: usize, default: u32) -> u32 {
    if table.dom().contains(idx) {
        table[idx]
    } else {
        default
    }
}

impl SidecarState {
    /// Items at a replica.
    pub open spec fn level(self, idx: usize) -> u32 {
        entry(self.occupancy, idx, 0)
    }

    pub open spec fn pending_at(self, idx: usize) -> u32 {
        entry(self.pending, idx, 0)
    }

    pub open spec fn max_at(self, idx: usize) -> u32 {
        entry(self.max, idx, 1)
    }

    /// A replica can take one more call.
    pub open spec fn has_capacity(self, idx: usize) -> bool {
        self.level(idx) + self.pending_at(idx) < self.max_at(idx)
    }

    /// The replica at place `i` has the lowest occupancy, and is the first that has it.
    pub open spec fn is_least(self, i: int) -> bool {
        &&& 0 <= i < self.replicas.len()
        &&& forall|j: int|
            0 <= j < self.replicas.len() ==> self.level(self.replicas[i]) <= self.level(
                #[trigger] self.replicas[j],
            )
        &&& forall|j: int|
            0 <= j < i ==> self.level(self.replicas[i]) < self.level(#[trigger] self.replicas[j])
    }

    pub open spec fn with_level(self, idx: usize, level: u32) -> SidecarState {
        SidecarState { occupancy: self.occupancy.insert(idx, level), ..self }
    }

    /// The state once an arrival was passed on to the replica at place `i`.
    pub open spec fn passed_on(self, i: int) -> SidecarState {
        self.with_level(self.replicas[i], (self.level(self.replicas[i]) + 1) as u32)
    }

    pub open spec fn with_intent(self, intent: MsPullIntent) -> SidecarState {
        let at = if self.approx_sched matches Some(ApproxSchedKind::EdfPlus) {
            edf_position(intent_deadlines(self.intents), intent.deadline)
        } else {
            self.intents.len() as int
        };
        SidecarState { intents: self.intents.insert(at, intent), ..self }
    }

    /// The state once the first intent was answered for `idx`. One from an unknown balancer
    /// is dropped.
    pub open spec fn intent_taken(self, idx: usize) -> SidecarState {
        SidecarState {
            intents: self.intents.remove(0),
            pending: if self.senders.contains(self.intents[0].sender_id) {
                self.pending.insert(idx, (self.pending_at(idx) + 1) as u32)
            } else {
                self.pending.insert(idx, self.pending_at(idx))
            },
            ..self
        }
    }

    pub open spec fn answer(self, idx: usize) -> Seq<AnswerModel> {
        if self.senders.contains(self.intents[0].sender_id) {
            seq![
                AnswerModel {
                    sender_id: self.intents[0].sender_id,
                    pull: PullModel {
                        target_microservice: self.microservice,
                        server_idx: idx,
                        intent_target_idx: self.sidecar_id,
                        request_id: self.intents[0].request_id,
                    },
                },
            ]
        } else {
            Seq::empty()
        }
    }

    pub open spec fn drain_record(self, idx: usize) -> DrainRecord {
        DrainRecord {
            sender_id: self.intents[0].sender_id,
            request_id: self.intents[0].request_id,
            queue_len: self.intents.len(),
            pending: self.pending_at(idx),
            in_flight: self.level(idx),
            max: self.max_at(idx),
        }
    }

    pub open spec fn unchanged(self) -> SidecarStep {
        SidecarStep { state: self, answers: Seq::empty(), drains: Seq::empty() }
    }

    /// Answers intents for `idx` while it has capacity.
    pub open spec fn drained_for(self, idx: usize) -> SidecarStep
        decreases self.intents.len(),
    {
        if self.has_capacity(idx) && self.intents.len() > 0 {
            let rest = self.intent_taken(idx).drained_for(idx);
            SidecarStep {
                state: rest.state,
                answers: self.answer(idx) + rest.answers,
                drains: seq![self.drain_record(idx)] + rest.drains,
            }
        } else {
            self.unchanged()
        }
    }

    /// Answers intents for the first `k` replicas, one replica after the other.
    pub open spec fn drained_all(self, k: nat) -> SidecarStep
        decreases k,
    {
        if k == 0 {
            self.unchanged()
        } else {
            let before = self.drained_all((k - 1) as nat);
            let last = before.state.drained_for(self.replicas[k - 1]);
            SidecarStep {
                state: last.state,
                answers: before.answers + last.answers,
                drains: before.drains + last.drains,
            }
        }
    }

    /// What becomes of a sidecar that a replica told something.
    pub open spec fn informed(self, event: SidecarCapacityEvent) -> SidecarStep {
        match event {
            SidecarCapacityEvent::PullArrived { server_idx } => (SidecarState {
                pending: if self.pending.dom().contains(server_idx) {
                    self.pending.insert(server_idx, one_less(self.pending[server_idx]))
                } else {
                    self.pending
                },
                ..self
            }).unchanged(),
            SidecarCapacityEvent::Completed { server_idx } => self.drained_for(server_idx),
            SidecarCapacityEvent::Occupancy { server_idx, level } => self.with_level(
                server_idx,
                level,
            ).drained_for(server_idx),
        }
    }
}

/// `event` is the draining of `record` at sidecar `state`.
pub open spec fn is_drain_event(
    state: SidecarState,
    record: DrainRecord,
    event: ApproxPullEventKind,
) -> bool {
    event matches ApproxPullEventKind::IntentDrained {
        downstream_ms,
        downstream_server,
        sender_rb_id,
        request_id,
        queue_len_before,
        pending_pulls_before,
        in_flight_before,
        max_concurrency,
    } && downstream_ms@ == state.microservice && downstream_server == state.sidecar_id
        && sender_rb_id == record.sender_id && request_id == record.request_id && queue_len_before
        == record.queue_len && pending_pulls_before == record.pending && in_flight_before
        == record.in_flight && max_concurrency == record.max
}

/// The trail of a number of drained intents.
pub open spec fn drains_trail(
    state: SidecarState,
    drains: Seq<DrainRecord>,
    before: Option<ApproxPullAudit>,
    after: Option<ApproxPullAudit>,
) -> bool {
    match before {
        None => after is None,
        Some(trail) => after matches Some(longer) && {
            &&& longer@.len() == trail@.len() + drains.len()
            &&& longer@.take(trail@.len() as int) == trail@
            &&& forall|i: int|
                0 <= i < drains.len() ==> is_drain_event(
                    state,
                    drains[i],
                    #[trigger] longer@[trail@.len() + i],
                )
        },
    }
}

proof fn lemma_trails_join(
    state: SidecarState,
    first: Seq<DrainRecord>,
    second: Seq<DrainRecord>,
    a: Option<ApproxPullAudit>,
    b: Option<ApproxPullAudit>,
    c: Option<ApproxPullAudit>,
)
    requires
        drains_trail(state, first, a, b),
        drains_trail(state, second, b, c),
    ensures
        drains_trail(state, first + second, a, c),
{
    if a is Some {
        let x = a->0@;
        let y = b->0@;
        let z = c->0@;
        assert(z.take(x.len() as int) =~= z.take(y.len() as int).take(x.len() as int));
        assert forall|i: int| 0 <= i < (first + second).len() implies is_drain_event(
            state,
            (first + second)[i],
            #[trigger] z[x.len() + i],
        ) by {
            if i < first.len() {
                assert(z.take(y.len() as int)[x.len() + i] == y[x.len() + i]);
                assert(is_drain_event(state, first[i], y[x.len() + i]));
            } else {
                assert(is_drain_event(state, second[i - first.len()], z[y.len() + (i
                    - first.len())]));
            }
        }
    }
}

proof fn lemma_empty_trail(state: SidecarState, a: Option<ApproxPullAudit>)
    ensures
        drains_trail(state, Seq::<DrainRecord>::empty(), a, a),
{
    if a is Some {
        assert(a->0@.take(a->0@.len() as int) =~= a->0@);
    }
}

/// A sidecar.
pub struct ApproxServerSidecar {
    microservice_id: String,
    sidecar_id: usize,
    replica_indices: Vec<usize>,
    occupancy: HashMap<usize, u32>,
    pending_pulls: HashMap<usize, u32>,
    max_concurrency: HashMap<usize, u32>,
    intents: VecDeque<MsPullIntent>,
    senders: Vec<usize>,
    approx_sched: Option<ApproxSchedKind>,
}

impl View for ApproxServerSidecar {
    type V = SidecarState;

    closed spec fn view(&self) -> SidecarState {
        SidecarState {
            microservice: self.microservice_id@,
            sidecar_id: self.sidecar_id,
            replicas: self.replica_indices@,
            occupancy: self.occupancy@,
            pending: self.pending_pulls@,
            max: self.max_concurrency@,
            intents: self.intents@,
            senders: self.senders@,
            approx_sched: self.approx_sched,
        }
    }
}

/// The entry of `idx` in `table`, or `default`.
fn lookup(table: &HashMap<usize, u32>, idx: usize, default: u32) -> (r: u32)
    ensures
        r == entry(table@, idx, default),
{
    match table.get(&idx) {
        Some(v) => *v,
        None => default,
    }
}

impl ApproxServerSidecar {
    /// A sidecar of idle replicas that have `max_concurrency` slots each, but at least one.
    pub fn new(
        microservice_id: String,
        sidecar_id: usize,
        replica_indices: Vec<usize>,
        max_concurrency: u32,
        senders: Vec<usize>,
        approx_sched: Option<ApproxSchedKind>,
    ) -> (r: ApproxServerSidecar)
        ensures
            r@ == (SidecarState {
                microservice: microservice_id@,
                sidecar_id,
                replicas: replica_indices@,
                occupancy: r@.occupancy,
                pending: r@.pending,
                max: r@.max,
                intents: Seq::empty(),
                senders: senders@,
                approx_sched,
            }),
            forall|idx: usize| #[trigger]
                r@.level(idx) == 0 && r@.pending_at(idx) == 0 && (replica_indices@.contains(idx)
                    ==> r@.max_at(idx) == if max_concurrency == 0 {
                    1
                } else {
                    max_concurrency
                }),
            forall|idx: usize| #[trigger]
                r@.pending.dom().contains(idx) <==> replica_indices@.contains(idx),
    {
        let slots: u32 = if max_concurrency == 0 {
            1
        } else {
            max_concurrency
        };
        let mut occupancy: HashMap<usize, u32> = HashMap::new();
        let mut pending_pulls: HashMap<usize, u32> = HashMap::new();
        let mut maxima: HashMap<usize, u32> = HashMap::new();
        let mut i: usize = 0;
        while i < replica_indices.len()
            invariant
                i <= replica_indices@.len(),
                forall|idx: usize| #[trigger]
                    occupancy@.dom().contains(idx) ==> occupancy@[idx] == 0,
                forall|idx: usize| #[trigger]
                    pending_pulls@.dom().contains(idx) ==> pending_pulls@[idx] == 0,
                forall|idx: usize| #[trigger]
                    pending_pulls@.dom().contains(idx) <==> replica_indices@.take(
                        i as int,
                    ).contains(idx),
                forall|idx: usize| #[trigger] maxima@.dom().contains(idx) ==> maxima@[idx] == slots,
                forall|idx: usize|
                    replica_indices@.take(i as int).contains(idx)
                        ==> #[trigger] maxima@.dom().contains(idx),
            decreases replica_indices@.len() - i,
        {
            let idx: usize = replica_indices[i];
            occupancy.insert(idx, 0);
            pending_pulls.insert(idx, 0);
            maxima.insert(idx, slots);
            proof {
                let shorter = replica_indices@.take(i as int);
                let longer = replica_indices@.take(i + 1);
                assert(longer =~= shorter.push(idx));
                assert forall|other: usize| #[trigger]
                    longer.contains(other) <==> shorter.contains(other) || other == idx by {
                    if shorter.contains(other) {
                        let k = choose|k: int| 0 <= k < shorter.len() && shorter[k] == other;
                        assert(longer[k] == other);
                    }
                    if other == idx {
                        assert(longer[i as int] == other);
                    }
                    if longer.contains(other) {
                        let k = choose|k: int| 0 <= k < longer.len() && longer[k] == other;
                        if k < i {
                            assert(shorter[k] == other);
                        }
                    }
                }
            }
            i += 1;
        }
        assert(replica_indices@.take(i as int) =~= replica_indices@);
        ApproxServerSidecar {
            microservice_id,
            sidecar_id,
            replica_indices,
            occupancy,
            pending_pulls,
            max_concurrency: maxima,
            intents: VecDeque::new(),
            senders,
            approx_sched,
        }
    }

    /// Sets the last known occupancy of a replica.
    pub fn set_occupancy(&mut self, server_idx: usize, level: u32)
        ensures
            final(self)@ == old(self)@.with_level(server_idx, level),
    {
        self.occupancy.insert(server_idx, level);
        assert(self@ =~= old(self)@.with_level(server_idx, level));
    }

    fn has_capacity(&self, server_idx: usize) -> (r: bool)
        ensures
            r == self@.has_capacity(server_idx),
    {
        let occupied: u64 = lookup(&self.occupancy, server_idx, 0) as u64;
        let pending: u64 = lookup(&self.pending_pulls, server_idx, 0) as u64;
        occupied + pending < lookup(&self.max_concurrency, server_idx, 1) as u64
    }

    /// The replica with the lowest occupancy; the first one where several have it.
    pub fn select_replica(&self) -> (r: usize)
        requires
            self@.replicas.len() > 0,
        ensures
            exists|i: int| #[trigger] self@.is_least(i) && r == self@.replicas[i],
    {
        let mut best: usize = 0;
        let mut lowest: u32 = lookup(&self.occupancy, self.replica_indices[0], 0);
        let mut i: usize = 1;
        while i < self.replica_indices.len()
            invariant
                best < i <= self.replica_indices@.len(),
                lowest == self@.level(self@.replicas[best as int]),
                forall|j: int| 0 <= j < i ==> lowest <= self@.level(#[trigger] self@.replicas[j]),
                forall|j: int|
                    0 <= j < best ==> lowest < self@.level(#[trigger] self@.replicas[j]),
            decreases self.replica_indices@.len() - i,
        {
            let level: u32 = lookup(&self.occupancy, self.replica_indices[i], 0);
            if level < lowest {
                best = i;
                lowest = level;
            }
            i += 1;
        }
        assert(self@.is_least(best as int));
        self.replica_indices[best]
    }

    /// Passes a new arrival on: returns the replica that it goes to. Anything else is
    /// ignored, and so is an arrival where the sidecar has no replica.
    pub fn receive_upstream(&mut self, msg: ReplicaInput) -> (r: Option<(usize, Hop)>)
        requires
            forall|idx: usize| #[trigger] old(self)@.level(idx) < u32::MAX,
        ensures
            match msg {
                ReplicaInput::Upstream(hop) if old(self)@.replicas.len() > 0 => exists|i: int|
                    {
                        &&& #[trigger] old(self)@.is_least(i)
                        &&& r == Some((old(self)@.replicas[i], hop))
                        &&& final(self)@ == old(self)@.passed_on(i)
                    },
                _ => r is None && final(self)@ == old(self)@,
            },
    {
        match msg {
            ReplicaInput::Upstream(hop) => {
                if self.replica_indices.len() == 0 {
                    return None;
                }
                let server_idx: usize = self.select_replica();
                assert(self@.level(server_idx) < u32::MAX);
                let level: u32 = lookup(&self.occupancy, server_idx, 0);
                self.set_occupancy(server_idx, level + 1);
                Some((server_idx, hop))
            },
            ReplicaInput::DownstreamReturn(_) => None,
        }
    }

    /// Answers the first intent for `server_idx`.
    fn drain_intent_for_replica(
        &mut self,
        server_idx: usize,
        audit: &mut Option<ApproxPullAudit>,
        answers: &mut Vec<SidecarPull>,
    )
        requires
            old(self)@.has_capacity(server_idx),
            old(self)@.intents.len() > 0,
        ensures
            final(self)@ == old(self)@.intent_taken(server_idx),
            answers_of(final(answers)@) == answers_of(old(answers)@) + old(self)@.answer(
                server_idx,
            ),
            drains_trail(
                old(self)@,
                seq![old(self)@.drain_record(server_idx)],
                *old(audit),
                *final(audit),
            ),
    {
        let ghost start = self@;
        let waiting: usize = self.intents.len();
        let pending: u32 = lookup(&self.pending_pulls, server_idx, 0);
        let occupied: u32 = lookup(&self.occupancy, server_idx, 0);
        let slots: u32 = lookup(&self.max_concurrency, server_idx, 1);
        let intent = take_front(&mut self.intents);
        if let Some(trail) = audit {
            let ghost shorter = trail@;
            trail.record_intent_drained(
                &self.microservice_id,
                self.sidecar_id,
                intent.sender_id,
                intent.request_id,
                waiting,
                pending,
                occupied,
                slots,
            );
            assert(trail@.take(shorter.len() as int) =~= trail@.drop_last());
            assert(is_drain_event(start, start.drain_record(server_idx), trail@[shorter.len() as int]));
        }
        let mut known = false;
        let mut i: usize = 0;
        while i < self.senders.len() && !known
            invariant
                i <= self.senders@.len(),
                known ==> self.senders@.contains(intent.sender_id),
                !known ==> forall|j: int| 0 <= j < i ==> self.senders@[j] != intent.sender_id,
            decreases self.senders@.len() - i,
        {
            if self.senders[i] == intent.sender_id {
                known = true;
            }
            i += 1;
        }
        assert(known == start.senders.contains(intent.sender_id));
        if known {
            self.pending_pulls.insert(server_idx, pending + 1);
            let ghost had = answers@;
            let answer = SidecarPull {
                sender_id: intent.sender_id,
                pull: ReplicaPull {
                    target_microservice: self.microservice_id.clone(),
                    server_idx,
                    intent_target_idx: self.sidecar_id,
                    request_id: intent.request_id,
                },
            };
            answers.push(answer);
            assert(answers_of(answers@) =~= answers_of(had).push(answer.model()));
            assert(answers_of(answers@) =~= answers_of(had) + start.answer(server_idx));
        } else {
            self.pending_pulls.insert(server_idx, pending);
            assert(answers_of(answers@) =~= answers_of(answers@) + start.answer(server_idx));
        }
        assert(self@ =~= start.intent_taken(server_idx));
    }

    /// Answers intents for `server_idx` while it has capacity.
    fn drain_capacity_for_replica(
        &mut self,
        server_idx: usize,
        audit: &mut Option<ApproxPullAudit>,
        answers: &mut Vec<SidecarPull>,
    )
        ensures
            final(self)@ == old(self)@.drained_for(server_idx).state,
            answers_of(final(answers)@) == answers_of(old(answers)@) + old(self)@.drained_for(
                server_idx,
            ).answers,
            drains_trail(
                old(self)@,
                old(self)@.drained_for(server_idx).drains,
                *old(audit),
                *final(audit),
            ),
            final(self)@.replicas == old(self)@.replicas,
            final(self)@.microservice == old(self)@.microservice,
            final(self)@.sidecar_id == old(self)@.sidecar_id,
    {
        let ghost whole = self@.drained_for(server_idx);
        let ghost first = answers_of(answers@);
        let ghost mut done: Seq<DrainRecord> = Seq::empty();
        proof {
            lemma_empty_trail(self@, *audit);
            assert(done + whole.drains =~= whole.drains);
        }
        while self.intents.len() > 0 && self.has_capacity(server_idx)
            invariant
                self@.replicas == old(self)@.replicas,
                self@.microservice == old(self)@.microservice,
                self@.sidecar_id == old(self)@.sidecar_id,
                first == answers_of(old(answers)@),
                whole == old(self)@.drained_for(server_idx),
                self@.drained_for(server_idx).state == whole.state,
                first + whole.answers == answers_of(answers@) + self@.drained_for(
                    server_idx,
                ).answers,
                whole.drains == done + self@.drained_for(server_idx).drains,
                drains_trail(old(self)@, done, *old(audit), *audit),
            decreases self.intents@.len(),
        {
            let ghost here = self@;
            let ghost sent = answers_of(answers@);
            let ghost trail = *audit;
            self.drain_intent_for_replica(server_idx, audit, answers);
            proof {
                let record = seq![here.drain_record(server_idx)];
                let rest = self@.drained_for(server_idx);
                assert(sent + here.drained_for(server_idx).answers =~= (sent + here.answer(
                    server_idx,
                )) + rest.answers);
                assert(done + here.drained_for(server_idx).drains =~= (done + record)
                    + rest.drains);
                assert(drains_trail(old(self)@, record, trail, *audit));
                lemma_trails_join(old(self)@, done, record, *old(audit), trail, *audit);
                done = done + record;
            }
        }
        assert(done =~= whole.drains);
        assert(answers_of(answers@) =~= first + whole.answers);
    }

    fn drain_idle_replicas(
        &mut self,
        audit: &mut Option<ApproxPullAudit>,
        answers: &mut Vec<SidecarPull>,
    )
        ensures
            ({
                let step = old(self)@.drained_all(old(self)@.replicas.len());
                &&& final(self)@ == step.state
                &&& answers_of(final(answers)@) == answers_of(old(answers)@) + step.answers
                &&& drains_trail(old(self)@, step.drains, *old(audit), *final(audit))
            }),
    {
        let ghost start = self@;
        let ghost first = answers_of(answers@);
        let n: usize = self.replica_indices.len();
        proof {
            lemma_empty_trail(start, *audit);
            assert(first + Seq::<AnswerModel>::empty() =~= first);
        }
        let mut k: usize = 0;
        while k < n
            invariant
                start == old(self)@,
                n == start.replicas.len(),
                k <= n,
                first == answers_of(old(answers)@),
                self@ == start.drained_all(k as nat).state,
                self@.replicas == start.replicas,
                self@.microservice == start.microservice,
                self@.sidecar_id == start.sidecar_id,
                answers_of(answers@) == first + start.drained_all(k as nat).answers,
                drains_trail(start, start.drained_all(k as nat).drains, *old(audit), *audit),
            decreases n - k,
        {
            let server_idx: usize = self.replica_indices[k];
            let ghost here = self@;
            let ghost before = start.drained_all(k as nat);
            let ghost trail = *audit;
            self.drain_capacity_for_replica(server_idx, audit, answers);
            proof {
                let last = here.drained_for(server_idx);
                assert(answers_of(answers@) =~= first + (before.answers + last.answers));
                assert(drains_trail(start, last.drains, trail, *audit));
                lemma_trails_join(start, before.drains, last.drains, *old(audit), trail, *audit);
            }
            k += 1;
        }
    }

    /// Receives an intent, and answers intents for every replica that has capacity.
    pub fn receive_pull_intent(
        &mut self,
        intent: MsPullIntent,
        audit: &mut Option<ApproxPullAudit>,
    ) -> (r: Vec<SidecarPull>)
        ensures
            ({
                let queued = old(self)@.with_intent(intent);
                let step = queued.drained_all(queued.replicas.len());
                &&& final(self)@ == step.state
                &&& answers_of(r@) == step.answers
                &&& exists|between: Option<ApproxPullAudit>| #[trigger]
                    queued_trail(old(self)@, intent, *old(audit), between) && drains_trail(
                        queued,
                        step.drains,
                        between,
                        *final(audit),
                    )
            }),
    {
        let ghost start = self@;
        if let Some(trail) = audit {
            trail.record_intent_queued(
                &self.microservice_id,
                self.sidecar_id,
                intent.sender_id,
                intent.request_id,
                self.intents.len(),
            );
        }
        assert(queued_trail(start, intent, *old(audit), *audit));
        let by_deadline = match self.approx_sched {
            Some(sched) => sched.intent_queue_uses_edf(),
            None => false,
        };
        if by_deadline {
            insert_intent(&mut self.intents, intent);
        } else {
            self.intents.push_back(intent);
            assert(self.intents@ =~= start.intents.insert(start.intents.len() as int, intent));
        }
        assert(self@ =~= start.with_intent(intent));
        let mut answers: Vec<SidecarPull> = Vec::new();
        assert(answers_of(answers@) =~= Seq::<AnswerModel>::empty());
        self.drain_idle_replicas(audit, &mut answers);
        proof {
            let queued = start.with_intent(intent);
            let step = queued.drained_all(queued.replicas.len());
            assert(Seq::<AnswerModel>::empty() + step.answers =~= step.answers);
        }
        answers
    }

    /// A replica tells the sidecar something.
    pub fn capacity_event(
        &mut self,
        event: SidecarCapacityEvent,
        audit: &mut Option<ApproxPullAudit>,
    ) -> (r: Vec<SidecarPull>)
        ensures
            ({
                let step = old(self)@.informed(event);
                &&& final(self)@ == step.state
                &&& answers_of(r@) == step.answers
                &&& drains_trail(old(self)@, step.drains, *old(audit), *final(audit))
            }),
    {
        let ghost start = self@;
        let ghost step = start.informed(event);
        let mut answers: Vec<SidecarPull> = Vec::new();
        assert(answers_of(answers@) =~= Seq::<AnswerModel>::empty());
        match event {
            SidecarCapacityEvent::PullArrived { server_idx } => {
                let asked: Option<u32> = match self.pending_pulls.get(&server_idx) {
                    Some(pending) => Some(*pending),
                    None => None,
                };
                if let Some(pending) = asked {
                    self.pending_pulls.insert(server_idx, pending.saturating_sub(1));
                }
                proof {
                    lemma_empty_trail(start, *audit);
                }
                assert(self@ =~= step.state);
            },
            SidecarCapacityEvent::Completed { server_idx } => {
                self.drain_capacity_for_replica(server_idx, audit, &mut answers);
            },
            SidecarCapacityEvent::Occupancy { server_idx, level } => {
                self.set_occupancy(server_idx, level);
                self.drain_capacity_for_replica(server_idx, audit, &mut answers);
            },
        }
        assert(Seq::<AnswerModel>::empty() + step.answers =~= step.answers);
        answers
    }
}

/// The trail of an intent that was queued.
pub open spec fn queued_trail(
    state: SidecarState,
    intent: MsPullIntent,
    before: Option<ApproxPullAudit>,
    after: Option<ApproxPullAudit>,
) -> bool {
    match before {
        None => after is None,
        Some(trail) => after matches Some(longer) && {
            &&& longer@.len() == trail@.len() + 1
            &&& longer@.drop_last() == trail@
            &&& longer@.last() matches ApproxPullEventKind::IntentQueued {
                downstream_ms,
                downstream_server,
                sender_rb_id,
                request_id,
                queue_len_before,
            } && downstream_ms@ == state.microservice && downstream_server == state.sidecar_id
                && sender_rb_id == intent.sender_id && request_id == intent.request_id
                && queue_len_before == state.intents.len()
        },
    }
}

/// A sidecar answers for its own replicas only, and only while a replica has a slot: no
/// replica is promised more calls than it has slots for.
pub proof fn law_sidecar_answers_within_capacity(state: SidecarState, idx: usize, other: usize)
    requires
        state.level(idx) + state.pending_at(idx) <= state.max_at(idx),
        state.level(other) + state.pending_at(other) <= state.max_at(other),
    ensures
        ({
            let step = state.drained_for(idx);
            &&& forall|i: int|
                0 <= i < step.answers.len() ==> (#[trigger] step.answers[i]).pull.server_idx == idx
            &&& step.state.level(other) + step.state.pending_at(other) <= step.state.max_at(other)
            &&& other != idx ==> step.state.pending_at(other) == state.pending_at(other)
        }),
    decreases state.intents.len(),
{
    if state.has_capacity(idx) && state.intents.len() > 0 {
        let next = state.intent_taken(idx);
        law_sidecar_answers_within_capacity(next, idx, other);
        let step = state.drained_for(idx);
        let rest = next.drained_for(idx);
        assert forall|i: int| 0 <= i < step.answers.len() implies (#[trigger]
        step.answers[i]).pull.server_idx == idx by {
            if i >= state.answer(idx).len() {
                assert(step.answers[i] == rest.answers[i - state.answer(idx).len()]);
            }
        }
    }
}

/// Once a sidecar has answered for a replica, either no call is announced any more or the
/// replica has no slot left.
pub proof fn law_sidecar_leaves_no_slot_idle(state: SidecarState, idx: usize)
    ensures
        ({
            let after = state.drained_for(idx).state;
            after.intents.len() == 0 || !after.has_capacity(idx)
        }),
    decreases state.intents.len(),
{
    if state.has_capacity(idx) && state.intents.len() > 0 {
        law_sidecar_leaves_no_slot_idle(state.intent_taken(idx), idx);
    }
}

/// A sidecar covers `share` replicas in a row, or one where the share is 0: replica `i` belongs
/// to the sidecar whose row holds `i`.
pub proof fn law_sidecar_covers_a_row(replica: nat, share: u32)
    ensures
        share > 0 ==> share * sidecar_of(replica, share) <= replica < share * (sidecar_of(
            replica,
            share,
        ) + 1),
        share == 0 ==> sidecar_of(replica, share) == replica,
{
    let size = per_sidecar(share);
    let at = sidecar_of(replica, share);
    lemma_owner(replica, size, at);
    assert(at * size == size * at && at * size + size == size * (at + 1)) by (nonlinear_arith);
}

/// The replica that a new arrival is passed on to holds no more items than any other replica of
/// the sidecar, as far as is known, and is the first of those that are tied. A replica that
/// nothing is known of counts as empty.
pub proof fn law_arrivals_join_the_emptiest_replica(state: SidecarState, i: int, j: int)
    requires
        state.is_least(i),
        0 <= j < state.replicas.len(),
    ensures
        0 <= i < state.replicas.len(),
        ({
            let mine = state.replicas[i];
            let other = state.replicas[j];
            &&& state.occupancy.dom().contains(mine) && state.occupancy.dom().contains(other)
                ==> state.occupancy[mine] <= state.occupancy[other] && (state.occupancy[mine]
                == state.occupancy[other] ==> i <= j)
            &&& state.occupancy.dom().contains(mine) && !state.occupancy.dom().contains(other)
                ==> state.occupancy[mine] == 0
        }),
{
    assert(state.level(state.replicas[i]) <= state.level(state.replicas[j]));
    if j < i {
        assert(state.level(state.replicas[i]) < state.level(state.replicas[j]));
    }
}

/// An intent that reaches a sidecar goes behind all others, or, where intents are kept by
/// deadline, before the first that is due later.
pub proof fn law_sidecar_intents_queue_in_turn(state: SidecarState, intent: MsPullIntent)
    ensures
        state.approx_sched != Some(ApproxSchedKind::EdfPlus) ==> state.with_intent(intent).intents
            == state.intents.push(intent),
        state.approx_sched == Some(ApproxSchedKind::EdfPlus) ==> exists|at: int|
            {
                &&& 0 <= at <= state.intents.len()
                &&& state.with_intent(intent).intents == #[trigger] state.intents.insert(at, intent)
                &&& forall|i: int|
                    0 <= i < at ==> (#[trigger] state.intents[i]).deadline <= intent.deadline
                &&& at < state.intents.len() ==> state.intents[at].deadline > intent.deadline
            },
{
    if state.approx_sched != Some(ApproxSchedKind::EdfPlus) {
        assert(state.with_intent(intent).intents =~= state.intents.push(intent));
    } else {
        let deadlines = intent_deadlines(state.intents);
        crate::scheduling::law_equal_deadlines_keep_their_order(deadlines, intent.deadline);
        let at = edf_position(deadlines, intent.deadline);
        assert(state.with_intent(intent).intents == state.intents.insert(at, intent));
        assert forall|i: int| 0 <= i < at implies (#[trigger] state.intents[i]).deadline
            <= intent.deadline by {
            assert(deadlines[i] == state.intents[i].deadline);
        }
        if at < state.intents.len() {
            assert(deadlines[at] == state.intents[at].deadline);
        }
    }
}

/// A sidecar answers intents from the front, while a slot of the replica is neither busy nor
/// promised: the first intent is answered with a pull for that replica, which names the request
/// and the sidecar, and promises one slot. Without a slot or an intent nothing happens.
pub proof fn law_sidecar_answers_from_the_front(state: SidecarState, idx: usize)
    requires
        state.occupancy.dom().contains(idx),
        state.pending.dom().contains(idx),
        state.max.dom().contains(idx),
    ensures
        ({
            let step = state.drained_for(idx);
            let free = state.occupancy[idx] + state.pending[idx] < state.max[idx];
            &&& free && state.intents.len() > 0 && state.senders.contains(
                state.intents[0].sender_id,
            ) ==> {
                &&& step.answers.len() > 0
                &&& step.answers[0] == (AnswerModel {
                    sender_id: state.intents[0].sender_id,
                    pull: PullModel {
                        target_microservice: state.microservice,
                        server_idx: idx,
                        intent_target_idx: state.sidecar_id,
                        request_id: state.intents[0].request_id,
                    },
                })
            }
            &&& !free || state.intents.len() == 0 ==> step.state == state && step.answers.len() == 0
            &&& exists|k: int|
                0 <= k <= state.intents.len() && step.state.intents == #[trigger] state.intents.skip(
                    k,
                ) && step.answers.len() <= k
            &&& step.state.pending.dom().contains(idx)
            &&& step.state.pending[idx] == state.pending[idx] + step.answers.len()
            &&& step.state.occupancy == state.occupancy
        }),
    decreases state.intents.len(),
{
    let step = state.drained_for(idx);
    if state.has_capacity(idx) && state.intents.len() > 0 {
        let taken = state.intent_taken(idx);
        law_sidecar_answers_from_the_front(taken, idx);
        let rest = taken.drained_for(idx);
        let k = choose|k: int|
            0 <= k <= taken.intents.len() && rest.state.intents == #[trigger] taken.intents.skip(k)
                && rest.answers.len() <= k;
        assert(taken.intents.skip(k) =~= state.intents.skip(k + 1));
        assert(step.state.intents == state.intents.skip(k + 1));
    } else {
        assert(step.state.intents =~= state.intents.skip(0));
    }
}

/// What a replica tells its sidecar: a pulled call that arrived is no longer promised, the
/// level that it reports is the one that counts from then on, and with a level or a finished
/// call intents are looked at for that replica.
pub proof fn law_sidecar_hears_its_replicas(state: SidecarState, idx: usize, level: u32)
    requires
        state.pending.dom().contains(idx),
    ensures
        ({
            let arrived = state.informed(SidecarCapacityEvent::PullArrived { server_idx: idx });
            &&& state.pending[idx] > 0 ==> arrived.state.pending[idx] == state.pending[idx] - 1
            &&& arrived.answers.len() == 0
            &&& arrived.state.intents == state.intents
            &&& arrived.state.occupancy == state.occupancy
        }),
        state.with_level(idx, level).occupancy.dom().contains(idx),
        state.with_level(idx, level).occupancy[idx] == level,
        state.intents.len() == 0 ==> ({
            let told = state.informed(SidecarCapacityEvent::Occupancy { server_idx: idx, level });
            &&& told.answers.len() == 0
            &&& told.state.occupancy[idx] == level
            &&& told.state.pending == state.pending
        }),
{
}

/// An arrival that is passed on counts at its replica at once, and at no other, until the replica
/// reports its level itself.
pub proof fn law_passed_on_arrival_counts_at_once(state: SidecarState, i: int, other: usize)
    requires
        0 <= i < state.replicas.len(),
        state.occupancy.dom().contains(state.replicas[i]),
        state.occupancy[state.replicas[i]] < u32::MAX,
    ensures
        state.passed_on(i).occupancy[state.replicas[i]] == state.occupancy[state.replicas[i]] + 1,
        other != state.replicas[i] && state.occupancy.dom().contains(other) ==> state.passed_on(
            i,
        ).occupancy[other] == state.occupancy[other],
        state.passed_on(i).pending == state.pending,
        state.passed_on(i).intents == state.intents,
{
}

/// Once a sidecar has looked at its intents for all its replicas, either no call is announced
/// any more or none of its replicas has a slot left.
pub proof fn law_sidecar_fills_all_its_replicas(state: SidecarState, i: int)
    requires
        0 <= i < state.replicas.len(),
    ensures
        ({
            let after = state.drained_all(state.replicas.len()).state;
            after.intents.len() == 0 || !after.has_capacity(state.replicas[i])
        }),
{
    lemma_drained_all_fills(state, state.replicas.len(), i);
}

proof fn lemma_drained_all_fills(state: SidecarState, k: nat, i: int)
    requires
        0 <= i < k <= state.replicas.len(),
    ensures
        ({
            let after = state.drained_all(k).state;
            after.intents.len() == 0 || !after.has_capacity(state.replicas[i])
        }),
    decreases k,
{
    let before = state.drained_all((k - 1) as nat).state;
    let last = state.replicas[k - 1];
    if i == k - 1 {
        law_sidecar_leaves_no_slot_idle(before, last);
    } else {
        lemma_drained_all_fills(state, (k - 1) as nat, i);
        lemma_drain_keeps_full(before, last, state.replicas[i]);
    }
}

proof fn lemma_drain_keeps_full(state: SidecarState, idx: usize, other: usize)
    ensures
        !state.has_capacity(other) ==> !state.drained_for(idx).state.has_capacity(other),
        state.intents.len() == 0 ==> state.drained_for(idx).state.intents.len() == 0,
    decreases state.intents.len(),
{
    if state.has_capacity(idx) && state.intents.len() > 0 {
        lemma_drain_keeps_full(state.intent_taken(idx), idx, other);
    }
}

} // verus!
