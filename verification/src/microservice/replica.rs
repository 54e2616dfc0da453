//! One server of a microservice: its queue, the requests it works on, and how a request
//! goes on once a piece of work on it is done.
//!
//! A method returns what is to be sent. Work itself takes time that is drawn elsewhere:
//! a request to be served comes back through `complete` when its duration is over.

use super::callgraph::{names_of, CallGraph, GraphModel};
use super::hop::{
    filtered_children, intent_deadlines, microservice_for_endpoint, CallModel, CallerModel,
    CallerRef, CompletedModel, CompletedRequest, EdgeRelease, EdgeReleaseModel, Hop, HopModel,
    MsPullIntent, OutboundCall, OutboundRelease, PullModel, ReleaseModel, ReplicaInput,
    ReplicaPull, WorkModel,
};
use super::microservice_stats::{MicroserviceVisitTracker, TrackerState};
use crate::approx_audit::{event_fault, intent_queue, ApproxPullAudit, ApproxPullEventKind};
use crate::load_balancer::one_less;
use crate::ms_jbsq_audit::{JbsqEventKind, MsJbsqAudit};
use crate::policy::ApproxSchedKind;
use crate::queues::take_front;
use crate::scheduling::{
    by_deadline, edf_insert_index, edf_position, law_edf_insert_keeps_order, lemma_edf_in_range,
    lemma_edf_position, SchedulingPolicyKind,
};
use std::collections::VecDeque;
use vstd::prelude::*;

verus! {

/// How a replica gets calls from a shared queue.
#[derive(Clone, Copy, Debug, PartialEq, Eq, Structural)]
pub enum CentralPull {
    /// It does not.
    Off,
    /// It pulls when it has a free slot.
    WhenIdle,
    /// It holds and has asked for at most this many calls.
    UpTo(u32),
}

/// A call that is over, on its way back to its caller.
#[derive(Clone, Debug)]
pub struct CallReturn {
    /// The request as the caller takes it up again.
    pub hop: Hop,
    /// Where the call was sent.
    pub target_microservice: String,
    pub target_server: usize,
    /// How many nanoseconds the visit took, if it was recorded.
    pub response: Option<u64>,
}

/// A call that is over, as a mathematical value.
#[verifier::ext_equal]
pub struct ReturnModel {
    pub hop: HopModel,
    pub target_microservice: Seq<char>,
    pub target_server: usize,
    pub response: Option<u64>,
}

impl ReturnModel {
    /// The request as it is sent to its caller, which is told that the call took
    /// `response_ms`.
    pub open spec fn reporting(self, response_ms: u64) -> HopModel {
        HopModel {
            outbound_release: if response_ms > 0 || self.target_microservice.len() > 0 {
                Some(
                    ReleaseModel {
                        target_microservice: self.target_microservice,
                        target_server: self.target_server,
                        response_time_ms: response_ms,
                    },
                )
            } else {
                self.hop.outbound_release
            },
            ..self.hop
        }
    }
}

impl CallReturn {
    pub open spec fn model(self) -> ReturnModel {
        ReturnModel {
            hop: self.hop.model(),
            target_microservice: self.target_microservice@,
            target_server: self.target_server,
            response: self.response,
        }
    }

    /// The request as it is sent to its caller, which is told that the call took
    /// `response_ms`: the milliseconds of `response`, as floating point rounds them where
    /// the clock is, or 0 without one.
    pub fn report(self, response_ms: u64) -> (r: Hop)
        ensures
            r.model() == self.model().reporting(response_ms),
    {
        let ghost back = self.model();
        let mut r = self.hop;
        if response_ms > 0 || !is_empty(&self.target_microservice) {
            r.outbound_release = Some(
                OutboundRelease {
                    target_microservice: self.target_microservice,
                    target_server: self.target_server,
                    response_time_ms: response_ms,
                },
            );
        }
        assert(r.model() =~= back.reporting(response_ms));
        r
    }
}

/// How a request goes on.
#[derive(Clone, Debug)]
pub enum Advance {
    /// It calls another microservice.
    Call(OutboundCall),
    /// It returns to the server that called.
    Return { microservice: String, server: usize, back: CallReturn },
    /// It is done, and the slot that it held at the entry of its API is free again.
    Complete { done: CompletedRequest, edge: EdgeRelease },
    /// It is lost, for this reason.
    Fail(String),
}

/// How a request goes on, as a mathematical value.
#[verifier::ext_equal]
pub enum AdvanceModel {
    Call(CallModel),
    Return { microservice: Seq<char>, server: usize, back: ReturnModel },
    Complete { done: CompletedModel, edge: EdgeReleaseModel },
    Fail(Seq<char>),
}

impl Advance {
    pub open spec fn model(self) -> AdvanceModel {
        match self {
            Advance::Call(call) => AdvanceModel::Call(call.model()),
            Advance::Return { microservice, server, back } => AdvanceModel::Return {
                microservice: microservice@,
                server,
                back: back.model(),
            },
            Advance::Complete { done, edge } => AdvanceModel::Complete {
                done: done.model(),
                edge: edge.model(),
            },
            Advance::Fail(text) => AdvanceModel::Fail(text@),
        }
    }
}

impl HopModel {
    /// The request as it is sent to `child`, to come back to `server` of `microservice`.
    pub open spec fn calling(
        self,
        microservice: Seq<char>,
        server: usize,
        child: Seq<char>,
    ) -> HopModel {
        HopModel {
            endpoint: child,
            sibling_index: 0,
            duration: 0,
            outbound_release: None,
            slot_release: None,
            caller: Some(
                CallerModel {
                    microservice,
                    server,
                    resume_endpoint: self.endpoint,
                    resume_sibling_index: (self.sibling_index + 1) as usize,
                    resume_caller: match self.caller {
                        Some(caller) => Some(Box::new(caller)),
                        None => None,
                    },
                    outbound_target_microservice: Seq::empty(),
                    outbound_target_server: 0,
                },
            ),
            ..self
        }
    }

    /// The request on its way back to its caller, after a visit of `response` nanoseconds.
    pub open spec fn returning(self, response: Option<u64>) -> ReturnModel {
        let caller = self.caller->0;
        ReturnModel {
            hop: HopModel {
                endpoint: caller.resume_endpoint,
                sibling_index: caller.resume_sibling_index,
                caller: match caller.resume_caller {
                    Some(outer) => Some(*outer),
                    None => None,
                },
                ..self
            },
            target_microservice: caller.outbound_target_microservice,
            target_server: caller.outbound_target_server,
            response,
        }
    }

    /// The request once a server has done its own work for it.
    pub open spec fn served(self) -> HopModel {
        HopModel {
            processing_time: (self.processing_time + self.duration) as u64,
            slot_release: None,
            sibling_index: 0,
            ..self
        }
    }

    /// The request once it is taken up again behind a call.
    pub open spec fn resumed(self) -> HopModel {
        HopModel { outbound_release: None, ..self }
    }

    pub open spec fn completed(self, now: u64) -> CompletedModel {
        CompletedModel {
            request_id: self.request_id,
            trace: self.trace,
            api: self.api,
            start: self.start,
            finish: now,
            processing_time: self.processing_time,
        }
    }
}

/// What has become of the visits, and how the request goes on.
#[verifier::ext_equal]
pub struct Advanced {
    pub visits: TrackerState,
    pub next: AdvanceModel,
}

/// How a request goes on at `server` of `microservice`: the next call, or back to its
/// caller, or done. One that is done gives the slot of `server` back at the entry of its API.
pub open spec fn advanced(
    microservice: Seq<char>,
    server: usize,
    graph: GraphModel,
    visits: TrackerState,
    hop: HopModel,
    now: u64,
) -> Advanced {
    let children = graph.children_for(hop.endpoint, hop.api);
    let key = (hop.request_id, microservice);
    if hop.sibling_index < children.len() {
        let child = children[hop.sibling_index as int];
        if graph.owners.dom().contains(child) {
            Advanced {
                visits,
                next: AdvanceModel::Call(
                    CallModel {
                        target_microservice: graph.owners[child],
                        hop: hop.calling(microservice, server, child),
                    },
                ),
            }
        } else {
            Advanced { visits, next: AdvanceModel::Fail("unknown endpoint "@ + child) }
        }
    } else if hop.caller is Some {
        let response = if visits.active.dom().contains(key) {
            Some((now - visits.active[key].arrival) as u64)
        } else {
            None
        };
        Advanced {
            visits: visits.with_departure(key, now),
            next: AdvanceModel::Return {
                microservice: hop.caller->0.microservice,
                server: hop.caller->0.server,
                back: hop.returning(response),
            },
        }
    } else {
        Advanced {
            visits: visits.with_departure(key, now),
            next: AdvanceModel::Complete {
                done: hop.completed(now),
                edge: EdgeReleaseModel { api: hop.api, server },
            },
        }
    }
}

/// Goes on with a request at `server` of `microservice`.
pub fn advance(
    microservice: &String,
    server: usize,
    graph: &CallGraph,
    visits: &mut MicroserviceVisitTracker,
    hop: Hop,
    now: u64,
) -> (r: Advance)
    requires
        graph.wf(),
        old(visits).wf(),
        old(visits)@.started_by(now),
    ensures
        final(visits).wf(),
        (Advanced { visits: final(visits)@, next: r.model() }) == advanced(
            microservice@,
            server,
            graph@,
            old(visits)@,
            hop.model(),
            now,
        ),
{
    let children = filtered_children(graph, &hop.endpoint, &hop.api);
    assert(names_of(children@).len() == children@.len());
    if hop.sibling_index < children.len() {
        let child = children[hop.sibling_index].clone();
        assert(names_of(children@)[hop.sibling_index as int] == child@);
        let target = match microservice_for_endpoint(graph, &child) {
            Ok(target) => target,
            Err(text) => {
                return Advance::Fail(text);
            },
        };
        let resume_caller = match hop.caller {
            Some(caller) => Some(Box::new(caller)),
            None => None,
        };
        let caller = CallerRef {
            microservice: microservice.clone(),
            server,
            resume_endpoint: hop.endpoint,
            resume_sibling_index: hop.sibling_index + 1,
            resume_caller,
            outbound_target_microservice: String::new(),
            outbound_target_server: 0,
        };
        let child_hop = Hop {
            request_id: hop.request_id,
            trace: hop.trace,
            api: hop.api,
            endpoint: child,
            sibling_index: 0,
            start: hop.start,
            deadline: hop.deadline,
            duration: 0,
            processing_time: hop.processing_time,
            caller: Some(caller),
            outbound_release: None,
            slot_release: None,
        };
        assert(child_hop.model() =~= hop.model().calling(microservice@, server, child@));
        return Advance::Call(OutboundCall { target_microservice: target, hop: child_hop });
    }
    let response = visits.finalize_visit(hop.request_id, microservice, now);
    match hop.caller {
        Some(caller) => {
            let outer = match caller.resume_caller {
                Some(outer) => Some(*outer),
                None => None,
            };
            let resumed = Hop {
                request_id: hop.request_id,
                trace: hop.trace,
                api: hop.api,
                endpoint: caller.resume_endpoint,
                sibling_index: caller.resume_sibling_index,
                start: hop.start,
                deadline: hop.deadline,
                duration: hop.duration,
                processing_time: hop.processing_time,
                caller: outer,
                outbound_release: hop.outbound_release,
                slot_release: hop.slot_release,
            };
            let back = CallReturn {
                hop: resumed,
                target_microservice: caller.outbound_target_microservice,
                target_server: caller.outbound_target_server,
                response,
            };
            assert(back.model() =~= hop.model().returning(response));
            Advance::Return { microservice: caller.microservice, server: caller.server, back }
        },
        None => Advance::Complete {
            edge: EdgeRelease { api: hop.api.clone(), server },
            done: CompletedRequest {
                request_id: hop.request_id,
                trace: hop.trace,
                api: hop.api,
                start: hop.start,
                finish: now,
                processing_time: hop.processing_time,
            },
        },
    }
}

/// Whether a name has no characters.
pub(crate) fn is_empty(name: &String) -> (r: bool)
    ensures
        r == (name@.len() == 0),
{
    name.as_str().unicode_len() == 0
}

/// What a replica sends or starts.
#[derive(Clone, Debug)]
pub enum ReplicaAction {
    /// Work on the request begins; it comes back through `complete`.
    Serve(Hop),
    /// A slot at another server is free again.
    Release(OutboundRelease),
    /// A request goes on.
    Advance(Advance),
    /// The replica asks the shared queue for a call.
    Pull,
    /// The replica asks a balancer for a call that was announced.
    PullFrom { sender_id: usize, pull: ReplicaPull },
}

/// An action as a mathematical value.
#[verifier::ext_equal]
pub enum ActionModel {
    Serve(HopModel),
    Release(ReleaseModel),
    Advance(AdvanceModel),
    Pull,
    PullFrom { sender_id: usize, pull: PullModel },
}

impl ReplicaAction {
    pub open spec fn model(self) -> ActionModel {
        match self {
            ReplicaAction::Serve(hop) => ActionModel::Serve(hop.model()),
            ReplicaAction::Release(release) => ActionModel::Release(release.model()),
            ReplicaAction::Advance(next) => ActionModel::Advance(next.model()),
            ReplicaAction::Pull => ActionModel::Pull,
            ReplicaAction::PullFrom { sender_id, pull } => ActionModel::PullFrom {
                sender_id,
                pull: pull.model(),
            },
        }
    }
}

pub open spec fn actions_of(list: Seq<ReplicaAction>) -> Seq<ActionModel> {
    list.map_values(|a: ReplicaAction| a.model())
}

pub open spec fn works_of(list: Seq<ReplicaInput>) -> Seq<WorkModel> {
    list.map_values(|w: ReplicaInput| w.model())
}

/// The deadlines of queued work, in order.
pub open spec fn deadlines_of(queue: Seq<WorkModel>) -> Seq<u64> {
    queue.map_values(|w: WorkModel| w.hop().deadline)
}

/// How many of the queued items are new arrivals.
pub open spec fn upstream_in(queue: Seq<WorkModel>) -> nat
    decreases queue.len(),
{
    if queue.len() == 0 {
        0
    } else {
        upstream_in(queue.drop_last()) + if queue.last() is Upstream {
            1nat
        } else {
            0nat
        }
    }
}

/// What a replica is made of.
#[verifier::ext_equal]
pub struct ReplicaState {
    pub microservice: Seq<char>,
    pub server_idx: usize,
    pub max_concurrency: u32,
    pub in_flight: u32,
    /// Calls that were asked for and have not arrived.
    pub pending_pulls: u32,
    pub queue: Seq<WorkModel>,
    pub central: CentralPull,
    /// Balancers that announce calls to this replica.
    pub senders: Seq<usize>,
    pub intents: Seq<MsPullIntent>,
    pub scheduling: SchedulingPolicyKind,
    pub approx_sched: Option<ApproxSchedKind>,
    /// How long the replica has worked.
    pub busy: u128,
}

/// A replica, the visits, and what was sent.
#[verifier::ext_equal]
pub struct ReplicaStep {
    pub state: ReplicaState,
    pub visits: TrackerState,
    pub actions: Seq<ActionModel>,
}

impl ReplicaState {
    /// The queue with `work` in its place.
    pub open spec fn enqueued(self, work: WorkModel) -> ReplicaState {
        let at = match self.scheduling {
            SchedulingPolicyKind::Fifo => self.queue.len() as int,
            SchedulingPolicyKind::Edf => edf_position(
                deadlines_of(self.queue),
                work.hop().deadline,
            ),
        };
        ReplicaState { queue: self.queue.insert(at, work), ..self }
    }

    /// How many items wait, and how many requests are worked on, together.
    pub open spec fn level(self) -> nat {
        self.queue.len() + self.in_flight as nat
    }

    /// The calls that the replica holds: new arrivals that wait, and requests it works on.
    pub open spec fn held(self) -> nat {
        upstream_in(self.queue) + self.in_flight as nat
    }

    /// The replica may ask the shared queue for a call.
    pub open spec fn wants_call(self) -> bool {
        match self.central {
            CentralPull::Off => false,
            CentralPull::WhenIdle => self.in_flight < self.max_concurrency,
            CentralPull::UpTo(n) => self.held() + self.pending_pulls < n,
        }
    }

    pub open spec fn with_in_flight(self, in_flight: u32) -> ReplicaState {
        ReplicaState { in_flight, ..self }
    }

    pub open spec fn with_pending(self, pending_pulls: u32) -> ReplicaState {
        ReplicaState { pending_pulls, ..self }
    }

    /// The state without the first item of the queue.
    pub open spec fn dequeued(self) -> ReplicaState {
        ReplicaState { queue: self.queue.remove(0), ..self }
    }

    /// How the request of a call that returned goes on: the slot at the callee is given
    /// back, and the time that the call took is added to the visit.
    pub open spec fn returned(
        self,
        graph: GraphModel,
        visits: TrackerState,
        hop: HopModel,
        now: u64,
    ) -> ReplicaStep {
        let key = (hop.request_id, self.microservice);
        let counted = match hop.outbound_release {
            Some(release) if release.response_time_ms > 0 => visits.with_downstream(
                key,
                release.response_time_ms,
            ),
            _ => visits,
        };
        let releases = match hop.outbound_release {
            Some(release) if release.target_microservice.len() > 0 => seq![
                ActionModel::Release(release),
            ],
            _ => Seq::empty(),
        };
        let next = advanced(
            self.microservice,
            self.server_idx,
            graph,
            counted,
            hop.resumed(),
            now,
        );
        ReplicaStep {
            state: self,
            visits: next.visits,
            actions: releases.push(ActionModel::Advance(next.next)),
        }
    }

    /// Takes items off the queue while there is a free slot: returned calls go on at once,
    /// and the first new arrival takes the slot.
    pub open spec fn drained(self, graph: GraphModel, visits: TrackerState, now: u64) -> ReplicaStep
        decreases self.queue.len(),
    {
        if self.queue.len() == 0 || self.in_flight >= self.max_concurrency {
            ReplicaStep { state: self, visits, actions: Seq::empty() }
        } else {
            match self.queue[0] {
                WorkModel::Upstream(hop) => ReplicaStep {
                    state: self.dequeued().with_in_flight((self.in_flight + 1) as u32),
                    visits,
                    actions: seq![ActionModel::Serve(hop)],
                },
                WorkModel::DownstreamReturn(hop) => {
                    let first = self.dequeued().returned(graph, visits, hop, now);
                    let rest = self.dequeued().drained(graph, first.visits, now);
                    ReplicaStep { actions: first.actions + rest.actions, ..rest }
                },
            }
        }
    }

    /// One more item can be counted.
    pub open spec fn has_room(self) -> bool {
        self.queue.len() + self.in_flight < u32::MAX
    }

    /// What becomes of a replica that receives `work`.
    pub open spec fn receiving(
        self,
        graph: GraphModel,
        visits: TrackerState,
        work: WorkModel,
        now: u64,
    ) -> ReplicaStep {
        match work {
            WorkModel::Upstream(hop) => {
                let arrived = visits.with_arrival(
                    (hop.request_id, self.microservice),
                    now,
                    hop.deadline,
                );
                if hop.slot_release is None {
                    self.enqueued(work).drained(graph, arrived, now)
                } else if self.central is UpTo {
                    self.with_pending(one_less(self.pending_pulls)).enqueued(work).drained(
                        graph,
                        arrived,
                        now,
                    )
                } else {
                    ReplicaStep {
                        state: self.with_pending(
                            if self.senders.len() > 0 {
                                one_less(self.pending_pulls)
                            } else {
                                self.pending_pulls
                            },
                        ).with_in_flight((self.in_flight + 1) as u32),
                        visits: arrived,
                        actions: seq![ActionModel::Serve(hop)],
                    }
                }
            },
            WorkModel::DownstreamReturn(_) => self.enqueued(work).drained(graph, visits, now),
        }
    }

    /// The state with `intent` in its place among the intents.
    pub open spec fn with_intent(self, intent: MsPullIntent) -> ReplicaState {
        let at = if self.approx_sched matches Some(ApproxSchedKind::EdfPlus) {
            edf_position(intent_deadlines(self.intents), intent.deadline)
        } else {
            self.intents.len() as int
        };
        ReplicaState { intents: self.intents.insert(at, intent), ..self }
    }

    /// An announced call can be taken.
    pub open spec fn takes_intent(self) -> bool {
        self.in_flight + self.pending_pulls < self.max_concurrency && self.intents.len() > 0
    }

    /// The state once the first intent was answered. One from an unknown balancer is
    /// dropped.
    pub open spec fn intent_taken(self) -> ReplicaState {
        let pending = if self.senders.contains(self.intents[0].sender_id) {
            (self.pending_pulls + 1) as u32
        } else {
            self.pending_pulls
        };
        ReplicaState { intents: self.intents.remove(0), ..self }.with_pending(pending)
    }

    /// The answer to the first intent.
    pub open spec fn intent_answer(self) -> Option<ActionModel> {
        if self.senders.contains(self.intents[0].sender_id) {
            Some(
                ActionModel::PullFrom {
                    sender_id: self.intents[0].sender_id,
                    pull: PullModel {
                        target_microservice: self.microservice,
                        server_idx: self.server_idx,
                        intent_target_idx: self.server_idx,
                        request_id: self.intents[0].request_id,
                    },
                },
            )
        } else {
            None
        }
    }

    /// What becomes of a replica that looks at its intents.
    pub open spec fn with_intents_drained(self) -> ReplicaState {
        if self.takes_intent() {
            self.intent_taken()
        } else {
            self
        }
    }

    pub open spec fn drain_answer(self) -> Option<ActionModel> {
        if self.takes_intent() {
            self.intent_answer()
        } else {
            None
        }
    }

    /// How many calls a bounded replica asks for: as many as it takes to be full.
    pub open spec fn refill(self) -> nat {
        match self.central {
            CentralPull::UpTo(n) => if self.held() + self.pending_pulls < n {
                (n - self.held() - self.pending_pulls) as nat
            } else {
                0
            },
            _ => 0,
        }
    }

    /// The replica once work on `hop` is over.
    pub open spec fn worked(self, hop: HopModel) -> ReplicaState {
        ReplicaState { busy: (self.busy + hop.duration) as u128, ..self }.with_in_flight(
            one_less(self.in_flight),
        )
    }

    /// What becomes of a replica once work on `hop` is over: a call that held a slot gives
    /// it back and the replica asks for the next one, the request goes on, and the queue
    /// moves up.
    pub open spec fn completing(
        self,
        graph: GraphModel,
        visits: TrackerState,
        hop: HopModel,
        now: u64,
    ) -> ReplicaStep {
        let idle = self.worked(hop);
        let counted = visits.with_processing((hop.request_id, self.microservice), hop.duration);
        let asked = if hop.slot_release is None {
            ReplicaStep { state: idle, visits: counted, actions: Seq::empty() }
        } else {
            idle.asking(counted, hop.slot_release->0)
        };
        let next = advanced(
            self.microservice,
            self.server_idx,
            graph,
            counted,
            hop.served(),
            now,
        );
        let rest = asked.state.drained(graph, next.visits, now);
        ReplicaStep {
            actions: asked.actions.push(ActionModel::Advance(next.next)) + rest.actions,
            ..rest
        }
    }

    /// What becomes of a replica that gives `release` back and asks for calls.
    pub open spec fn asking(self, visits: TrackerState, release: ReleaseModel) -> ReplicaStep {
        let pulls = match self.central {
            CentralPull::Off => 0,
            CentralPull::WhenIdle => 1,
            CentralPull::UpTo(_) => self.refill(),
        };
        let asked = if self.central is UpTo {
            self.with_pending((self.pending_pulls + pulls) as u32)
        } else {
            self
        };
        let first = seq![ActionModel::Release(release)] + Seq::new(pulls, |i: int| ActionModel::Pull);
        ReplicaStep {
            state: if self.senders.len() > 0 {
                asked.with_intents_drained()
            } else {
                asked
            },
            visits,
            actions: if self.senders.len() > 0 && asked.drain_answer() is Some {
                first.push(asked.drain_answer()->0)
            } else {
                first
            },
        }
    }
}

/// The trail of an intent that was queued.
pub open spec fn intent_queued_trail(
    state: ReplicaState,
    intent: MsPullIntent,
    before: Option<ApproxPullAudit>,
    after: Option<ApproxPullAudit>,
) -> bool {
    match before {
        None => after is None,
        Some(trail) => after matches Some(longer) && {
            &&& longer@.len() == trail@.len() + 1
            &&& longer@.drop_last() == trail@
            &&& longer@.last() matches ApproxPullEventKind::IntentQueued {
                downstream_ms,
                downstream_server,
                sender_rb_id,
                request_id,
                queue_len_before,
            } && downstream_ms@ == state.microservice && downstream_server == state.server_idx
                && sender_rb_id == intent.sender_id && request_id == intent.request_id
                && queue_len_before == state.intents.len()
        },
    }
}

/// The trail of a replica that looked at its intents.
pub open spec fn intent_drained_trail(
    state: ReplicaState,
    before: Option<ApproxPullAudit>,
    after: Option<ApproxPullAudit>,
) -> bool {
    match before {
        None => after is None,
        Some(trail) => after matches Some(longer) && if state.takes_intent() {
            &&& longer@.len() == trail@.len() + 1
            &&& longer@.drop_last() == trail@
            &&& longer@.last() matches ApproxPullEventKind::IntentDrained {
                downstream_ms,
                downstream_server,
                sender_rb_id,
                request_id,
                queue_len_before,
                pending_pulls_before,
                in_flight_before,
                max_concurrency,
            } && downstream_ms@ == state.microservice && downstream_server == state.server_idx
                && sender_rb_id == state.intents[0].sender_id && request_id
                == state.intents[0].request_id && queue_len_before == state.intents.len()
                && pending_pulls_before == state.pending_pulls && in_flight_before
                == state.in_flight && max_concurrency == state.max_concurrency
        } else {
            longer@ == trail@
        },
    }
}

/// `event` is a pull sent by a replica in `state` that holds and has asked for fewer calls
/// than it may.
pub open spec fn is_pull_sent(state: ReplicaState, pending: int, event: JbsqEventKind) -> bool {
    event matches JbsqEventKind::PullSent {
        microservice_id,
        server_idx,
        occupancy_before,
        pending_before,
        n,
    } && microservice_id@ == state.microservice && server_idx == state.server_idx
        && occupancy_before == state.held() && pending_before == pending && state.central
        == CentralPull::UpTo(n)
}

/// The trail of `k` pulls, one after the other.
pub open spec fn pulls_trail(
    state: ReplicaState,
    k: nat,
    before: Option<MsJbsqAudit>,
    after: Option<MsJbsqAudit>,
) -> bool {
    match before {
        None => after is None,
        Some(trail) => after matches Some(longer) && {
            &&& longer@.len() == trail@.len() + k
            &&& longer@.take(trail@.len() as int) == trail@
            &&& forall|i: int|
                0 <= i < k ==> is_pull_sent(
                    state,
                    state.pending_pulls + i,
                    #[trigger] longer@[trail@.len() + i],
                )
        },
    }
}

/// The trail of what a replica receives: a call that it pulled leaves one where it holds a
/// bounded number of them.
pub open spec fn arrival_trail(
    state: ReplicaState,
    work: WorkModel,
    before: Option<MsJbsqAudit>,
    after: Option<MsJbsqAudit>,
) -> bool {
    match before {
        None => after is None,
        Some(trail) => after matches Some(longer) && if state.central is UpTo && work is Upstream
            && work.hop().slot_release is Some {
            &&& longer@.len() == trail@.len() + 1
            &&& longer@.drop_last() == trail@
            &&& longer@.last() matches JbsqEventKind::PullArrived {
                microservice_id,
                server_idx,
                queue_before,
                in_flight_before,
                pending_before,
                n,
            } && microservice_id@ == state.microservice && server_idx == state.server_idx
                && queue_before == upstream_in(state.queue) && in_flight_before == state.in_flight
                && pending_before == state.pending_pulls && state.central == CentralPull::UpTo(n)
        } else {
            longer@ == trail@
        },
    }
}

/// A server of a microservice.
pub struct Replica {
    microservice_id: String,
    server_idx: usize,
    max_concurrency: u32,
    in_flight: u32,
    pending_pulls: u32,
    queue: VecDeque<ReplicaInput>,
    central: CentralPull,
    senders: Vec<usize>,
    intents: VecDeque<MsPullIntent>,
    scheduling: SchedulingPolicyKind,
    approx_sched: Option<ApproxSchedKind>,
    busy: u128,
}

/// What a replica is configured with.
#[derive(Clone, Debug)]
pub struct ReplicaConfig {
    pub microservice_id: String,
    pub server_idx: usize,
    pub max_concurrency: u32,
    pub central: CentralPull,
    pub senders: Vec<usize>,
    pub scheduling: SchedulingPolicyKind,
    pub approx_sched: Option<ApproxSchedKind>,
}

impl View for Replica {
    type V = ReplicaState;

    closed spec fn view(&self) -> ReplicaState {
        ReplicaState {
            microservice: self.microservice_id@,
            server_idx: self.server_idx,
            max_concurrency: self.max_concurrency,
            in_flight: self.in_flight,
            pending_pulls: self.pending_pulls,
            queue: works_of(self.queue@),
            central: self.central,
            senders: self.senders@,
            intents: self.intents@,
            scheduling: self.scheduling,
            approx_sched: self.approx_sched,
            busy: self.busy,
        }
    }
}

impl Replica {
    /// A replica that is idle. It has at least one slot.
    pub fn new(config: ReplicaConfig) -> (r: Replica)
        ensures
            r@ == (ReplicaState {
                microservice: config.microservice_id@,
                server_idx: config.server_idx,
                max_concurrency: if config.max_concurrency == 0 {
                    1
                } else {
                    config.max_concurrency
                },
                in_flight: 0,
                pending_pulls: 0,
                queue: Seq::empty(),
                central: config.central,
                senders: config.senders@,
                intents: Seq::empty(),
                scheduling: config.scheduling,
                approx_sched: config.approx_sched,
                busy: 0,
            }),
    {
        let r = Replica {
            microservice_id: config.microservice_id,
            server_idx: config.server_idx,
            max_concurrency: if config.max_concurrency == 0 {
                1
            } else {
                config.max_concurrency
            },
            in_flight: 0,
            pending_pulls: 0,
            queue: VecDeque::new(),
            central: config.central,
            senders: config.senders,
            intents: VecDeque::new(),
            scheduling: config.scheduling,
            approx_sched: config.approx_sched,
            busy: 0,
        };
        assert(works_of(r.queue@) =~= Seq::<WorkModel>::empty());
        r
    }

    /// How many items wait, and how many requests are worked on, together.
    pub fn occupancy_level(&self) -> (r: u32)
        requires
            self@.queue.len() + self@.in_flight <= u32::MAX,
        ensures
            r == self@.level(),
    {
        self.queue.len() as u32 + self.in_flight
    }

    /// How many items wait.
    pub fn queue_len(&self) -> (r: usize)
        ensures
            r == self@.queue.len(),
    {
        self.queue.len()
    }

    /// How many requests are worked on.
    pub fn in_flight(&self) -> (r: u32)
        ensures
            r == self@.in_flight,
    {
        self.in_flight
    }

    /// How long the replica has worked.
    pub fn busy_time(&self) -> (r: u128)
        ensures
            r == self@.busy,
    {
        self.busy
    }

    fn enqueue_work(&mut self, work: ReplicaInput)
        ensures
            final(self)@ == old(self)@.enqueued(work.model()),
    {
        let ghost start = self@;
        let ghost item = work.model();
        match self.scheduling {
            SchedulingPolicyKind::Fifo => {
                self.queue.push_back(work);
                assert(works_of(self.queue@) =~= start.queue.insert(
                    start.queue.len() as int,
                    item,
                ));
            },
            SchedulingPolicyKind::Edf => {
                let deadline: u64 = match &work {
                    ReplicaInput::Upstream(hop) => hop.deadline,
                    ReplicaInput::DownstreamReturn(hop) => hop.deadline,
                };
                let mut deadlines: Vec<u64> = Vec::new();
                let mut i: usize = 0;
                while i < self.queue.len()
                    invariant
                        i <= self.queue@.len(),
                        start.queue == works_of(self.queue@),
                        *self == *old(self),
                        deadlines@ == deadlines_of(start.queue).take(i as int),
                    decreases self.queue@.len() - i,
                {
                    let d: u64 = match &self.queue[i] {
                        ReplicaInput::Upstream(hop) => hop.deadline,
                        ReplicaInput::DownstreamReturn(hop) => hop.deadline,
                    };
                    assert(start.queue[i as int].hop().deadline == d);
                    deadlines.push(d);
                    assert(deadlines@ =~= deadlines_of(start.queue).take(i + 1));
                    i += 1;
                }
                assert(deadlines@ =~= deadlines_of(start.queue));
                let at: usize = edf_insert_index(&deadlines, deadline);
                proof {
                    lemma_edf_position(deadlines@, deadline, at as int);
                }
                self.queue.insert(at, work);
                assert(works_of(self.queue@) =~= start.queue.insert(at as int, item));
            },
        }
        assert(self@ =~= start.enqueued(item));
    }

    fn handle_return(
        &self,
        graph: &CallGraph,
        visits: &mut MicroserviceVisitTracker,
        hop: Hop,
        now: u64,
        actions: &mut Vec<ReplicaAction>,
    )
        requires
            graph.wf(),
            old(visits).wf(),
            old(visits)@.started_by(now),
        ensures
            final(visits).wf(),
            final(visits)@.started_by(now),
            final(visits)@ == self@.returned(graph@, old(visits)@, hop.model(), now).visits,
            actions_of(final(actions)@) == actions_of(old(actions)@) + self@.returned(
                graph@,
                old(visits)@,
                hop.model(),
                now,
            ).actions,
    {
        let ghost model = hop.model();
        let ghost before = actions_of(actions@);
        let ghost step = self@.returned(graph@, visits@, model, now);
        let mut hop = hop;
        let release = hop.outbound_release.take();
        match release {
            Some(release) => {
                if release.response_time_ms > 0 {
                    visits.add_downstream_response(
                        hop.request_id,
                        &self.microservice_id,
                        release.response_time_ms,
                    );
                }
                if !is_empty(&release.target_microservice) {
                    let ghost had = actions@;
                    actions.push(ReplicaAction::Release(release));
                    assert(actions_of(actions@) =~= actions_of(had).push(
                        ActionModel::Release(release.model()),
                    ));
                }
            },
            None => {},
        }
        assert(hop.model() =~= (HopModel { outbound_release: None, ..model }));
        let next = advance(&self.microservice_id, self.server_idx, graph, visits, hop, now);
        let ghost had = actions@;
        actions.push(ReplicaAction::Advance(next));
        assert(actions_of(actions@) =~= actions_of(had).push(ActionModel::Advance(next.model())));
        assert(actions_of(actions@) =~= before + step.actions);
    }

    /// Moves the queue up while there is a free slot.
    fn drain_queue(
        &mut self,
        graph: &CallGraph,
        visits: &mut MicroserviceVisitTracker,
        now: u64,
        actions: &mut Vec<ReplicaAction>,
    )
        requires
            graph.wf(),
            old(visits).wf(),
            old(visits)@.started_by(now),
        ensures
            final(visits).wf(),
            final(visits)@.started_by(now),
            ({
                let step = old(self)@.drained(graph@, old(visits)@, now);
                &&& final(self)@ == step.state
                &&& final(visits)@ == step.visits
                &&& actions_of(final(actions)@) == actions_of(old(actions)@) + step.actions
            }),
    {
        let ghost step = self@.drained(graph@, visits@, now);
        let ghost first = actions_of(actions@);
        while self.queue.len() > 0 && self.in_flight < self.max_concurrency
            invariant
                graph.wf(),
                visits.wf(),
                visits@.started_by(now),
                step == old(self)@.drained(graph@, old(visits)@, now),
                first == actions_of(old(actions)@),
                ({
                    let rest = self@.drained(graph@, visits@, now);
                    &&& rest.state == step.state
                    &&& rest.visits == step.visits
                    &&& first + step.actions == actions_of(actions@) + rest.actions
                }),
            decreases self.queue@.len(),
        {
            let ghost here = self@;
            let ghost seen = visits@;
            let ghost sent = actions_of(actions@);
            let work = take_front(&mut self.queue);
            assert(self@ =~= here.dequeued());
            assert(works_of(self.queue@) =~= here.queue.remove(0));
            assert(here.queue[0] == work.model());
            match work {
                ReplicaInput::Upstream(hop) => {
                    self.in_flight = self.in_flight + 1;
                    let ghost had = actions@;
                    actions.push(ReplicaAction::Serve(hop));
                    assert(actions_of(actions@) =~= actions_of(had).push(
                        ActionModel::Serve(hop.model()),
                    ));
                    assert(actions_of(actions@) =~= first + step.actions);
                    assert(self@ =~= step.state);
                    return;
                },
                ReplicaInput::DownstreamReturn(hop) => {
                    self.handle_return(graph, visits, hop, now, actions);
                    proof {
                        let back = here.dequeued().returned(graph@, seen, hop.model(), now);
                        let rest = here.dequeued().drained(graph@, back.visits, now);
                        let whole = here.drained(graph@, seen, now);
                        assert(whole.actions == back.actions + rest.actions);
                        assert(sent + whole.actions =~= (sent + back.actions) + rest.actions);
                    }
                },
            }
        }
        assert(first + step.actions =~= actions_of(actions@));
    }
}

impl Replica {
    /// How many of the queued items are new arrivals.
    fn upstream_waiting(&self) -> (r: usize)
        ensures
            r == upstream_in(self@.queue),
            r <= self@.queue.len(),
    {
        let ghost queue = self@.queue;
        let mut count: usize = 0;
        let mut i: usize = 0;
        while i < self.queue.len()
            invariant
                i <= self.queue@.len(),
                queue == works_of(self.queue@),
                count == upstream_in(queue.take(i as int)),
                count <= i,
            decreases self.queue@.len() - i,
        {
            assert(queue.take(i + 1).drop_last() =~= queue.take(i as int));
            assert(queue.take(i + 1).last() == self.queue@[i as int].model());
            match &self.queue[i] {
                ReplicaInput::Upstream(_) => {
                    count += 1;
                },
                ReplicaInput::DownstreamReturn(_) => {},
            }
            i += 1;
        }
        assert(queue.take(i as int) =~= queue);
        count
    }

    /// Receives a new arrival or a call that returned, and starts what can be started.
    pub fn input(
        &mut self,
        graph: &CallGraph,
        visits: &mut MicroserviceVisitTracker,
        msg: ReplicaInput,
        now: u64,
        audit: &mut Option<MsJbsqAudit>,
    ) -> (r: Vec<ReplicaAction>)
        requires
            graph.wf(),
            old(self)@.has_room(),
            old(visits).wf(),
            old(visits)@.started_by(now),
        ensures
            final(visits).wf(),
            final(visits)@.started_by(now),
            (ReplicaStep {
                state: final(self)@,
                visits: final(visits)@,
                actions: actions_of(r@),
            }) == old(self)@.receiving(graph@, old(visits)@, msg.model(), now),
            arrival_trail(old(self)@, msg.model(), *old(audit), *final(audit)),
    {
        let mut actions: Vec<ReplicaAction> = Vec::new();
        assert(actions_of(actions@) =~= Seq::<ActionModel>::empty());
        let ghost start = self@;
        let ghost model = msg.model();
        let msg = match msg {
            ReplicaInput::Upstream(hop) => {
                visits.record_arrival(hop.request_id, &self.microservice_id, now, hop.deadline);
                if hop.slot_release.is_some() {
                    match self.central {
                        CentralPull::UpTo(n) => {
                            let waiting: usize = self.upstream_waiting();
                            if let Some(trail) = audit {
                                trail.record_pull_arrived(
                                    &self.microservice_id,
                                    self.server_idx,
                                    waiting as u32,
                                    self.in_flight,
                                    self.pending_pulls,
                                    n,
                                );
                            }
                            self.pending_pulls = self.pending_pulls.saturating_sub(1);
                            assert(self@ =~= start.with_pending(one_less(start.pending_pulls)));
                        },
                        _ => {
                            if self.senders.len() > 0 {
                                self.pending_pulls = self.pending_pulls.saturating_sub(1);
                            }
                            self.in_flight = self.in_flight + 1;
                            actions.push(ReplicaAction::Serve(hop));
                            assert(actions_of(actions@) =~= seq![ActionModel::Serve(hop.model())]);
                            assert(self@ =~= start.receiving(
                                graph@,
                                old(visits)@,
                                model,
                                now,
                            ).state);
                            return actions;
                        },
                    }
                }
                ReplicaInput::Upstream(hop)
            },
            ReplicaInput::DownstreamReturn(hop) => ReplicaInput::DownstreamReturn(hop),
        };
        assert(msg.model() == model);
        self.enqueue_work(msg);
        self.drain_queue(graph, visits, now, &mut actions);
        assert(Seq::<ActionModel>::empty() + start.receiving(
            graph@,
            old(visits)@,
            model,
            now,
        ).actions =~= start.receiving(graph@, old(visits)@, model, now).actions);
        actions
    }

    /// Work that was about to begin could not begin.
    pub fn service_not_started(&mut self)
        ensures
            final(self)@ == old(self)@.with_in_flight(one_less(old(self)@.in_flight)),
    {
        self.in_flight = self.in_flight.saturating_sub(1);
    }

    /// The replica is told to ask the shared queue for a call. Returns whether it does.
    pub fn request_pull(&mut self, audit: &mut Option<MsJbsqAudit>) -> (r: bool)
        ensures
            r == old(self)@.wants_call(),
            r && old(self)@.central is UpTo ==> final(self)@ == old(self)@.with_pending(
                (old(self)@.pending_pulls + 1) as u32,
            ) && pulls_trail(old(self)@, 1, *old(audit), *final(audit)),
            !(r && old(self)@.central is UpTo) ==> final(self)@ == old(self)@ && *final(audit)
                == *old(audit),
    {
        match self.central {
            CentralPull::Off => false,
            CentralPull::WhenIdle => self.in_flight < self.max_concurrency,
            CentralPull::UpTo(n) => {
                let held: u128 = self.upstream_waiting() as u128 + self.in_flight as u128;
                if held + (self.pending_pulls as u128) < n as u128 {
                    if let Some(trail) = audit {
                        trail.record_pull_sent(
                            &self.microservice_id,
                            self.server_idx,
                            held as u32,
                            self.pending_pulls,
                            n,
                        );
                        proof {
                            let b = (*old(audit))->0@;
                            assert(trail@.take(b.len() as int) =~= trail@.drop_last());
                            assert(is_pull_sent(
                                old(self)@,
                                old(self)@.pending_pulls + 0,
                                trail@[b.len() as int],
                            ));
                        }
                    }
                    self.pending_pulls = self.pending_pulls + 1;
                    true
                } else {
                    false
                }
            },
        }
    }

    /// Answers the first intent, if there is one and a slot for it.
    fn drain_pull_intents(&mut self, audit: &mut Option<ApproxPullAudit>) -> (r: Option<
        ReplicaAction,
    >)
        ensures
            final(self)@ == old(self)@.with_intents_drained(),
            match r {
                Some(action) => old(self)@.drain_answer() == Some(action.model()),
                None => old(self)@.drain_answer() is None,
            },
            intent_drained_trail(old(self)@, *old(audit), *final(audit)),
    {
        let ghost start = self@;
        let waiting: usize = self.intents.len();
        if self.in_flight as u64 + self.pending_pulls as u64 >= self.max_concurrency as u64
            || waiting == 0 {
            return None;
        }
        let intent = take_front(&mut self.intents);
        if let Some(trail) = audit {
            trail.record_intent_drained(
                &self.microservice_id,
                self.server_idx,
                intent.sender_id,
                intent.request_id,
                waiting,
                self.pending_pulls,
                self.in_flight,
                self.max_concurrency,
            );
        }
        let mut i: usize = 0;
        while i < self.senders.len()
            invariant
                i <= self.senders@.len(),
                forall|j: int| 0 <= j < i ==> self.senders@[j] != intent.sender_id,
                self@ == (ReplicaState { intents: start.intents.remove(0), ..start }),
                start.takes_intent(),
                intent == start.intents[0],
                intent_drained_trail(start, *old(audit), *audit),
                start == old(self)@,
            decreases self.senders@.len() - i,
        {
            if self.senders[i] == intent.sender_id {
                assert(start.senders.contains(intent.sender_id));
                self.pending_pulls = self.pending_pulls + 1;
                assert(self@ =~= start.intent_taken());
                return Some(
                    ReplicaAction::PullFrom {
                        sender_id: intent.sender_id,
                        pull: ReplicaPull {
                            target_microservice: self.microservice_id.clone(),
                            server_idx: self.server_idx,
                            intent_target_idx: self.server_idx,
                            request_id: intent.request_id,
                        },
                    },
                );
            }
            i += 1;
        }
        assert(self@ =~= start.intent_taken());
        None
    }

    /// Receives an intent, and answers the first one if there is a slot for it. A replica
    /// that no balancer announces calls to ignores intents.
    pub fn receive_pull_intent(
        &mut self,
        intent: MsPullIntent,
        audit: &mut Option<ApproxPullAudit>,
    ) -> (r: Option<ReplicaAction>)
        ensures
            old(self)@.senders.len() == 0 ==> r is None && final(self)@ == old(self)@
                && *final(audit) == *old(audit),
            old(self)@.senders.len() > 0 ==> {
                let queued = old(self)@.with_intent(intent);
                &&& final(self)@ == queued.with_intents_drained()
                &&& match r {
                    Some(action) => queued.drain_answer() == Some(action.model()),
                    None => queued.drain_answer() is None,
                }
                &&& exists|between: Option<ApproxPullAudit>| #[trigger]
                    intent_queued_trail(old(self)@, intent, *old(audit), between)
                        && intent_drained_trail(queued, between, *final(audit))
            },
    {
        if self.senders.len() == 0 {
            return None;
        }
        let ghost start = self@;
        if let Some(trail) = audit {
            trail.record_intent_queued(
                &self.microservice_id,
                self.server_idx,
                intent.sender_id,
                intent.request_id,
                self.intents.len(),
            );
        }
        let ghost between = *audit;
        assert(intent_queued_trail(start, intent, *old(audit), between));
        let by_deadline = match self.approx_sched {
            Some(sched) => sched.intent_queue_uses_edf(),
            None => false,
        };
        if by_deadline {
            insert_intent(&mut self.intents, intent);
        } else {
            self.intents.push_back(intent);
            assert(self.intents@ =~= start.intents.insert(start.intents.len() as int, intent));
        }
        assert(self@ =~= start.with_intent(intent));
        self.drain_pull_intents(audit)
    }

    /// Work on a request is over.
    pub fn complete(
        &mut self,
        graph: &CallGraph,
        visits: &mut MicroserviceVisitTracker,
        hop: Hop,
        now: u64,
        pull_audit: &mut Option<ApproxPullAudit>,
        jbsq_audit: &mut Option<MsJbsqAudit>,
    ) -> (r: Vec<ReplicaAction>)
        requires
            graph.wf(),
            old(visits).wf(),
            old(visits)@.started_by(now),
            old(visits)@.can_add((hop.request_id, old(self)@.microservice), hop.duration),
            hop.processing_time + hop.duration <= u64::MAX,
            old(self)@.busy + hop.duration <= u128::MAX,
        ensures
            final(visits).wf(),
            final(visits)@.started_by(now),
            (ReplicaStep {
                state: final(self)@,
                visits: final(visits)@,
                actions: actions_of(r@),
            }) == old(self)@.completing(graph@, old(visits)@, hop.model(), now),
            hop.slot_release is None ==> *final(pull_audit) == *old(pull_audit)
                && *final(jbsq_audit) == *old(jbsq_audit),
            hop.slot_release is Some ==> {
                let idle = old(self)@.worked(hop.model());
                &&& pulls_trail(idle, idle.refill(), *old(jbsq_audit), *final(jbsq_audit))
                &&& if idle.senders.len() > 0 {
                    intent_drained_trail(
                        idle.with_pending((idle.pending_pulls + idle.refill()) as u32),
                        *old(pull_audit),
                        *final(pull_audit),
                    )
                } else {
                    *final(pull_audit) == *old(pull_audit)
                }
            },
    {
        let ghost start = self@;
        let ghost model = hop.model();
        let ghost seen = visits@;
        self.busy = self.busy + hop.duration as u128;
        visits.add_local_processing(hop.request_id, &self.microservice_id, hop.duration);
        self.in_flight = self.in_flight.saturating_sub(1);
        let ghost idle = start.worked(model);
        assert(self@ =~= idle);
        let mut hop = hop;
        hop.processing_time = hop.processing_time + hop.duration;
        let mut actions: Vec<ReplicaAction> = Vec::new();
        assert(actions_of(actions@) =~= Seq::<ActionModel>::empty());
        let release = hop.slot_release.take();
        match release {
            Some(release) => {
                self.ask(release, pull_audit, jbsq_audit, &mut actions);
            },
            None => {},
        }
        hop.sibling_index = 0;
        let ghost sent = actions_of(actions@);
        assert(hop.model() =~= (HopModel {
            processing_time: (model.processing_time + model.duration) as u64,
            slot_release: None,
            sibling_index: 0,
            ..model
        }));
        let next = advance(&self.microservice_id, self.server_idx, graph, visits, hop, now);
        let ghost had = actions@;
        actions.push(ReplicaAction::Advance(next));
        assert(actions_of(actions@) =~= sent.push(ActionModel::Advance(next.model())));
        self.drain_queue(graph, visits, now, &mut actions);
        actions
    }

    /// Gives a slot back, and asks for the next calls.
    fn ask(
        &mut self,
        release: OutboundRelease,
        pull_audit: &mut Option<ApproxPullAudit>,
        jbsq_audit: &mut Option<MsJbsqAudit>,
        actions: &mut Vec<ReplicaAction>,
    )
        requires
            old(actions)@.len() == 0,
        ensures
            forall|visits: TrackerState|
                (ReplicaStep {
                    state: final(self)@,
                    visits,
                    actions: actions_of(final(actions)@),
                }) == #[trigger] old(self)@.asking(visits, release.model()),
            pulls_trail(old(self)@, old(self)@.refill(), *old(jbsq_audit), *final(jbsq_audit)),
            if old(self)@.senders.len() > 0 {
                intent_drained_trail(
                    old(self)@.with_pending(
                        (old(self)@.pending_pulls + old(self)@.refill()) as u32,
                    ),
                    *old(pull_audit),
                    *final(pull_audit),
                )
            } else {
                *final(pull_audit) == *old(pull_audit)
            },
    {
        let ghost start = self@;
        let ghost freed = ActionModel::Release(release.model());
        actions.push(ReplicaAction::Release(release));
        assert(actions_of(actions@) =~= seq![freed]);
        match self.central {
            CentralPull::Off => {},
            CentralPull::WhenIdle => {
                let ghost had = actions@;
                actions.push(ReplicaAction::Pull);
                assert(actions_of(actions@) =~= actions_of(had).push(ActionModel::Pull));
            },
            CentralPull::UpTo(n) => {
                let held: u128 = self.upstream_waiting() as u128 + self.in_flight as u128;
                let ghost mut asked: nat = 0;
                if let Some(trail) = jbsq_audit {
                    assert(trail@.take(trail@.len() as int) =~= trail@);
                }
                while held + (self.pending_pulls as u128) < n as u128
                    invariant
                        start == old(self)@,
                        start.central == CentralPull::UpTo(n),
                        held == start.held(),
                        self@ == start.with_pending((start.pending_pulls + asked) as u32),
                        start.pending_pulls + asked <= u32::MAX,
                        start.pending_pulls + asked == self.pending_pulls,
                        asked <= start.refill(),
                        held <= u32::MAX + usize::MAX,
                        actions_of(actions@) == seq![freed] + Seq::new(
                            asked,
                            |i: int| ActionModel::Pull,
                        ),
                        pulls_trail(start, asked, *old(jbsq_audit), *jbsq_audit),
                    decreases n - self.pending_pulls,
                {
                    if let Some(trail) = jbsq_audit {
                        let ghost shorter = trail@;
                        trail.record_pull_sent(
                            &self.microservice_id,
                            self.server_idx,
                            held as u32,
                            self.pending_pulls,
                            n,
                        );
                        proof {
                            let b = (*old(jbsq_audit))->0@;
                            assert(trail@.drop_last() == shorter);
                            assert(trail@.take(b.len() as int) =~= shorter.take(b.len() as int));
                            assert forall|i: int| 0 <= i < asked + 1 implies is_pull_sent(
                                start,
                                start.pending_pulls + i,
                                #[trigger] trail@[b.len() + i],
                            ) by {
                                if i < asked {
                                    assert(trail@.drop_last()[b.len() + i] == shorter[b.len() + i]);
                                }
                            }
                        }
                    }
                    self.pending_pulls = self.pending_pulls + 1;
                    let ghost had = actions@;
                    actions.push(ReplicaAction::Pull);
                    proof {
                        assert(actions_of(actions@) =~= actions_of(had).push(ActionModel::Pull));
                        asked = asked + 1;
                        assert(actions_of(actions@) =~= seq![freed] + Seq::new(
                            asked,
                            |i: int| ActionModel::Pull,
                        ));
                        assert(self@ =~= start.with_pending((start.pending_pulls + asked) as u32));
                    }
                }
                assert(asked == start.refill());
            },
        }
        proof {
            if !(self.central is UpTo) {
                if *jbsq_audit is Some {
                    let trail = (*jbsq_audit)->0@;
                    assert(trail.take(trail.len() as int) =~= trail);
                }
                assert(start.refill() == 0);
            }
        }
        if self.senders.len() > 0 {
            match self.drain_pull_intents(pull_audit) {
                Some(action) => {
                    let ghost had = actions@;
                    actions.push(action);
                    assert(actions_of(actions@) =~= actions_of(had).push(action.model()));
                },
                None => {},
            }
        }
        proof {
            assert forall|visits: TrackerState|
                (ReplicaStep {
                    state: self@,
                    visits,
                    actions: actions_of(actions@),
                }) == #[trigger] start.asking(visits, release.model()) by {
                let step = start.asking(visits, release.model());
                assert(step.state =~= self@);
                assert(step.actions =~= actions_of(actions@));
            }
        }
    }
}

/// Puts `intent` before the first one that is due later.
pub(crate) fn insert_intent(intents: &mut VecDeque<MsPullIntent>, intent: MsPullIntent)
    ensures
        final(intents)@ == old(intents)@.insert(
            edf_position(intent_deadlines(old(intents)@), intent.deadline),
            intent,
        ),
{
    let mut deadlines: Vec<u64> = Vec::new();
    let mut i: usize = 0;
    while i < intents.len()
        invariant
            i <= intents@.len(),
            *intents == *old(intents),
            deadlines@ == intent_deadlines(intents@).take(i as int),
        decreases intents@.len() - i,
    {
        deadlines.push(intents[i].deadline);
        assert(deadlines@ =~= intent_deadlines(intents@).take(i + 1));
        i += 1;
    }
    assert(deadlines@ =~= intent_deadlines(intents@));
    let at: usize = edf_insert_index(&deadlines, intent.deadline);
    proof {
        lemma_edf_position(deadlines@, intent.deadline, at as int);
    }
    intents.insert(at, intent);
}

/// A request that goes on is the request it was: its id, API, start, deadline and gathered
/// work stay with it, wherever it is sent.
pub proof fn law_request_keeps_its_identity(
    microservice: Seq<char>,
    server: usize,
    graph: GraphModel,
    visits: TrackerState,
    hop: HopModel,
    now: u64,
)
    ensures
        match advanced(microservice, server, graph, visits, hop, now).next {
            AdvanceModel::Call(call) => same_request(hop, call.hop),
            AdvanceModel::Return { back, .. } => same_request(hop, back.hop),
            AdvanceModel::Complete { done, edge } => done.request_id == hop.request_id && done.api
                == hop.api && done.start == hop.start && done.processing_time
                == hop.processing_time && done.finish == now && edge.api == hop.api && edge.server
                == server,
            AdvanceModel::Fail(_) => true,
        },
{
}

pub open spec fn same_request(a: HopModel, b: HopModel) -> bool {
    &&& a.request_id == b.request_id
    &&& a.trace == b.trace
    &&& a.api == b.api
    &&& a.start == b.start
    &&& a.deadline == b.deadline
    &&& a.processing_time == b.processing_time
}

proof fn lemma_upstream_insert(queue: Seq<WorkModel>, at: int, work: WorkModel)
    requires
        0 <= at <= queue.len(),
    ensures
        upstream_in(queue.insert(at, work)) == upstream_in(queue) + if work is Upstream {
            1nat
        } else {
            0nat
        },
    decreases queue.len(),
{
    let longer = queue.insert(at, work);
    if at == queue.len() {
        assert(longer.drop_last() =~= queue);
    } else {
        assert(longer.drop_last() =~= queue.drop_last().insert(at, work));
        assert(longer.last() == queue.last());
        lemma_upstream_insert(queue.drop_last(), at, work);
    }
}

proof fn lemma_enqueued_held(state: ReplicaState, work: WorkModel)
    ensures
        state.enqueued(work).held() == state.held() + if work is Upstream {
            1nat
        } else {
            0nat
        },
        state.enqueued(work).queue.len() == state.queue.len() + 1,
{
    lemma_edf_in_range(deadlines_of(state.queue), work.hop().deadline, 0);
    let at = match state.scheduling {
        SchedulingPolicyKind::Fifo => state.queue.len() as int,
        SchedulingPolicyKind::Edf => edf_position(deadlines_of(state.queue), work.hop().deadline),
    };
    lemma_upstream_insert(state.queue, at, work);
}

/// Moving the queue up keeps the calls that a replica holds, and never takes more slots
/// than there are. It ends with an empty queue, with no free slot, or with one more
/// request that is worked on.
pub proof fn law_drain_keeps_calls_and_slots(
    state: ReplicaState,
    graph: GraphModel,
    visits: TrackerState,
    now: u64,
)
    ensures
        ({
            let after = state.drained(graph, visits, now).state;
            &&& after == (ReplicaState { queue: after.queue, in_flight: after.in_flight, ..state })
            &&& after.held() == state.held()
            &&& state.in_flight <= state.max_concurrency ==> after.in_flight
                <= state.max_concurrency
            &&& after.in_flight == state.in_flight || after.in_flight == state.in_flight + 1
            &&& after.queue.len() == 0 || state.in_flight >= state.max_concurrency
                || after.in_flight == state.in_flight + 1
        }),
    decreases state.queue.len(),
{
    if state.queue.len() > 0 && state.in_flight < state.max_concurrency {
        let rest = state.queue.remove(0);
        lemma_upstream_insert(rest, 0, state.queue[0]);
        assert(rest.insert(0, state.queue[0]) =~= state.queue);
        match state.queue[0] {
            WorkModel::Upstream(hop) => {},
            WorkModel::DownstreamReturn(hop) => {
                let first = state.dequeued().returned(graph, visits, hop, now);
                law_drain_keeps_calls_and_slots(state.dequeued(), graph, first.visits, now);
            },
        }
    }
}

proof fn lemma_drain_keeps_order(
    state: ReplicaState,
    graph: GraphModel,
    visits: TrackerState,
    now: u64,
)
    requires
        by_deadline(deadlines_of(state.queue)),
    ensures
        by_deadline(deadlines_of(state.drained(graph, visits, now).state.queue)),
    decreases state.queue.len(),
{
    if state.queue.len() > 0 && state.in_flight < state.max_concurrency {
        assert(deadlines_of(state.queue.remove(0)) =~= deadlines_of(state.queue).remove(0));
        match state.queue[0] {
            WorkModel::Upstream(hop) => {},
            WorkModel::DownstreamReturn(hop) => {
                let first = state.dequeued().returned(graph, visits, hop, now);
                lemma_drain_keeps_order(state.dequeued(), graph, first.visits, now);
            },
        }
    }
}

/// The queue of a replica that works by deadline stays ordered by deadline, whatever
/// arrives, returns or is finished.
pub proof fn law_deadline_queue_stays_ordered(
    state: ReplicaState,
    graph: GraphModel,
    visits: TrackerState,
    work: WorkModel,
    hop: HopModel,
    now: u64,
)
    requires
        state.scheduling is Edf,
        by_deadline(deadlines_of(state.queue)),
    ensures
        by_deadline(deadlines_of(state.receiving(graph, visits, work, now).state.queue)),
        by_deadline(deadlines_of(state.completing(graph, visits, hop, now).state.queue)),
{
    let deadlines = deadlines_of(state.queue);
    let deadline = work.hop().deadline;
    let at = edf_position(deadlines, deadline);
    lemma_edf_in_range(deadlines, deadline, 0);
    law_edf_insert_keeps_order(deadlines, deadline, at);
    assert(deadlines_of(state.queue.insert(at, work)) =~= deadlines.insert(at, deadline));
    let queued = state.enqueued(work);
    let arrived = visits.with_arrival(
        (work.hop().request_id, state.microservice),
        now,
        work.hop().deadline,
    );
    lemma_drain_keeps_order(queued, graph, visits, now);
    lemma_drain_keeps_order(queued, graph, arrived, now);
    lemma_drain_keeps_order(
        state.with_pending(one_less(state.pending_pulls)).enqueued(work),
        graph,
        arrived,
        now,
    );

    let counted = visits.with_processing((hop.request_id, state.microservice), hop.duration);
    let idle = state.worked(hop);
    let asked = if hop.slot_release is None {
        idle
    } else {
        idle.asking(counted, hop.slot_release->0).state
    };
    assert(asked.queue == state.queue);
    let next = advanced(
        state.microservice,
        state.server_idx,
        graph,
        counted,
        HopModel {
            processing_time: (hop.processing_time + hop.duration) as u64,
            slot_release: None,
            sibling_index: 0,
            ..hop
        },
        now,
    );
    lemma_drain_keeps_order(asked, graph, next.visits, now);
}

/// The same replica with a bound of one call, `pending` of which it has asked for.
pub open spec fn bound_to_one(state: ReplicaState, pending: u32) -> ReplicaState {
    ReplicaState { central: CentralPull::UpTo(1), pending_pulls: pending, ..state }
}

/// A step after which the replica is bound to one call.
pub open spec fn step_bound_to_one(step: ReplicaStep, pending: u32) -> ReplicaStep {
    ReplicaStep { state: bound_to_one(step.state, pending), ..step }
}

proof fn lemma_drain_bound_to_one(
    state: ReplicaState,
    pending: u32,
    graph: GraphModel,
    visits: TrackerState,
    now: u64,
)
    ensures
        bound_to_one(state, pending).drained(graph, visits, now) == step_bound_to_one(
            state.drained(graph, visits, now),
            pending,
        ),
    decreases state.queue.len(),
{
    let bound = bound_to_one(state, pending);
    if state.queue.len() > 0 && state.in_flight < state.max_concurrency {
        match state.queue[0] {
            WorkModel::Upstream(hop) => {
                assert(bound.drained(graph, visits, now).state =~= bound_to_one(
                    state.drained(graph, visits, now).state,
                    pending,
                ));
            },
            WorkModel::DownstreamReturn(hop) => {
                let first = state.dequeued().returned(graph, visits, hop, now);
                let bound_first = bound.dequeued().returned(graph, visits, hop, now);
                assert(bound.dequeued() =~= bound_to_one(state.dequeued(), pending));
                assert(bound_first.visits == first.visits);
                assert(bound_first.actions == first.actions);
                lemma_drain_bound_to_one(state.dequeued(), pending, graph, first.visits, now);
            },
        }
    }
}

/// A replica with one slot that pulls when it is idle, and the same replica with a bound of
/// one call, do the same: an idle one starts the call that it asked for, a busy one asks
/// for the next call when work on one is over, and calls that return go on alike.
pub proof fn law_bound_of_one_pulls_when_idle(
    state: ReplicaState,
    graph: GraphModel,
    visits: TrackerState,
    hop: HopModel,
    pending: u32,
    now: u64,
)
    requires
        state.central is WhenIdle,
        state.max_concurrency == 1,
        state.senders.len() == 0,
        upstream_in(state.queue) == 0,
    ensures
        state.queue.len() == 0 && state.in_flight == 0 ==> state.wants_call() && bound_to_one(
            state,
            0,
        ).wants_call(),
        state.queue.len() == 0 && state.in_flight == 0 && hop.slot_release is Some ==> bound_to_one(
            state,
            1,
        ).receiving(graph, visits, WorkModel::Upstream(hop), now) == step_bound_to_one(
            state.receiving(graph, visits, WorkModel::Upstream(hop), now),
            0,
        ),
        bound_to_one(state, pending).receiving(
            graph,
            visits,
            WorkModel::DownstreamReturn(hop),
            now,
        ) == step_bound_to_one(
            state.receiving(graph, visits, WorkModel::DownstreamReturn(hop), now),
            pending,
        ),
        state.in_flight == 1 && hop.slot_release is Some ==> bound_to_one(state, 0).completing(
            graph,
            visits,
            hop,
            now,
        ) == step_bound_to_one(state.completing(graph, visits, hop, now), 1),
{
    if state.queue.len() == 0 && state.in_flight == 0 && hop.slot_release is Some {
        let work = WorkModel::Upstream(hop);
        let arrived = visits.with_arrival((hop.request_id, state.microservice), now, hop.deadline);
        let bound = bound_to_one(state, 0);
        lemma_edf_position(deadlines_of(state.queue), hop.deadline, 0);
        assert(bound_to_one(state, 1).with_pending(0) =~= bound);
        let queued = bound.enqueued(work);
        assert(queued.queue =~= seq![work]);
        assert(queued.queue.remove(0) =~= state.queue);
        let direct = state.receiving(graph, visits, work, now);
        assert(queued.drained(graph, arrived, now).state =~= bound_to_one(direct.state, 0));
        assert(queued.drained(graph, arrived, now).actions =~= direct.actions);
    }
    let back = WorkModel::DownstreamReturn(hop);
    assert(bound_to_one(state, pending).enqueued(back) =~= bound_to_one(
        state.enqueued(back),
        pending,
    ));
    lemma_drain_bound_to_one(state.enqueued(back), pending, graph, visits, now);
    if state.in_flight == 1 && hop.slot_release is Some {
        let bound = bound_to_one(state, 0);
        let counted = visits.with_processing((hop.request_id, state.microservice), hop.duration);
        let idle = state.worked(hop);
        assert(bound.worked(hop) =~= bound_to_one(idle, 0));
        let release = hop.slot_release->0;
        let asked = idle.asking(counted, release);
        let bound_asked = bound_to_one(idle, 0).asking(counted, release);
        assert(bound_to_one(idle, 0).refill() == 1);
        assert(bound_asked.state =~= bound_to_one(asked.state, 1));
        assert(bound_asked.actions =~= asked.actions);
        let next = advanced(
            state.microservice,
            state.server_idx,
            graph,
            counted,
            HopModel {
                processing_time: (hop.processing_time + hop.duration) as u64,
                slot_release: None,
                sibling_index: 0,
                ..hop
            },
            now,
        );
        lemma_drain_bound_to_one(asked.state, 1, graph, next.visits, now);
    }
}

/// A queue of returned calls takes no slot.
proof fn lemma_drain_without_calls(
    state: ReplicaState,
    graph: GraphModel,
    visits: TrackerState,
    now: u64,
)
    ensures
        upstream_in(state.queue) == 0 ==> {
            let after = state.drained(graph, visits, now).state;
            &&& upstream_in(after.queue) == 0
            &&& after.in_flight == state.in_flight
            &&& after.pending_pulls == state.pending_pulls
            &&& after.max_concurrency == state.max_concurrency
        },
    decreases state.queue.len(),
{
    if upstream_in(state.queue) == 0 && state.queue.len() > 0 && state.in_flight
        < state.max_concurrency {
        let rest = state.queue.remove(0);
        lemma_upstream_insert(rest, 0, state.queue[0]);
        assert(rest.insert(0, state.queue[0]) =~= state.queue);
        match state.queue[0] {
            WorkModel::Upstream(_) => {},
            WorkModel::DownstreamReturn(hop) => {
                let first = state.dequeued().returned(graph, visits, hop, now);
                lemma_drain_without_calls(state.dequeued(), graph, first.visits, now);
            },
        }
    }
}

/// A bounded replica asks for exactly as many calls as make it full, and a call that
/// arrives takes the place of one that was asked for. Whatever happens to it, it never holds
/// and has asked for more calls than its bound, unless calls reach it that it did not ask
/// for. And it never serves more calls at a time than it has slots.
pub proof fn law_bounded_replica_stays_within_bound(
    state: ReplicaState,
    graph: GraphModel,
    visits: TrackerState,
    hop: HopModel,
    now: u64,
)
    requires
        state.central is UpTo,
        state.senders.len() == 0,
        state.held() + state.pending_pulls <= state.central->UpTo_0,
    ensures
        state.wants_call() ==> state.held() + state.pending_pulls + 1 <= state.central->UpTo_0,
        hop.slot_release is Some && state.pending_pulls > 0 ==> {
            let after = state.receiving(graph, visits, WorkModel::Upstream(hop), now).state;
            after.held() + after.pending_pulls == state.held() + state.pending_pulls
        },
        ({
            let after = state.receiving(graph, visits, WorkModel::DownstreamReturn(hop), now).state;
            after.held() + after.pending_pulls == state.held() + state.pending_pulls
        }),
        ({
            let after = state.completing(graph, visits, hop, now).state;
            if hop.slot_release is Some {
                after.held() + after.pending_pulls == state.central->UpTo_0
            } else {
                after.held() + after.pending_pulls <= state.central->UpTo_0
            }
        }),
        state.in_flight <= state.max_concurrency ==> {
            &&& hop.slot_release is Some ==> state.receiving(
                graph,
                visits,
                WorkModel::Upstream(hop),
                now,
            ).state.in_flight <= state.max_concurrency
            &&& state.receiving(
                graph,
                visits,
                WorkModel::DownstreamReturn(hop),
                now,
            ).state.in_flight <= state.max_concurrency
            &&& state.completing(graph, visits, hop, now).state.in_flight <= state.max_concurrency
        },
{
    let work = WorkModel::Upstream(hop);
    let fewer = state.with_pending(one_less(state.pending_pulls));
    lemma_enqueued_held(fewer, work);
    let arrived = visits.with_arrival((hop.request_id, state.microservice), now, hop.deadline);
    law_drain_keeps_calls_and_slots(fewer.enqueued(work), graph, arrived, now);
    let back = WorkModel::DownstreamReturn(hop);
    lemma_enqueued_held(state, back);
    law_drain_keeps_calls_and_slots(state.enqueued(back), graph, visits, now);
    let idle = state.worked(hop);
    let counted = visits.with_processing((hop.request_id, state.microservice), hop.duration);
    let asked = if hop.slot_release is None {
        idle
    } else {
        idle.asking(counted, hop.slot_release->0).state
    };
    let next = advanced(state.microservice, state.server_idx, graph, counted, hop.served(), now);
    law_drain_keeps_calls_and_slots(asked, graph, next.visits, now);
}

/// A replica that pulls when it is idle keeps its slots: a call that was asked for takes one
/// slot, and with the slot of a call that is over it asks for exactly one more. With the calls
/// that were `asked` for and have not arrived, it never has more than it has slots for.
pub proof fn law_idle_pulls_fill_the_slots(
    state: ReplicaState,
    graph: GraphModel,
    visits: TrackerState,
    hop: HopModel,
    asked: nat,
    now: u64,
)
    requires
        state.central is WhenIdle,
        state.senders.len() == 0,
        upstream_in(state.queue) == 0,
        state.in_flight + asked <= state.max_concurrency,
        hop.slot_release is Some,
    ensures
        asked > 0 ==> {
            let after = state.receiving(graph, visits, WorkModel::Upstream(hop), now).state;
            &&& upstream_in(after.queue) == 0
            &&& after.in_flight == state.in_flight + 1
            &&& after.in_flight + (asked - 1) <= after.max_concurrency
        },
        ({
            let after = state.receiving(graph, visits, WorkModel::DownstreamReturn(hop), now).state;
            &&& upstream_in(after.queue) == 0
            &&& after.in_flight == state.in_flight
        }),
        state.in_flight > 0 ==> {
            let step = state.completing(graph, visits, hop, now);
            &&& step.actions.len() >= 2
            &&& step.actions[0] == ActionModel::Release(hop.slot_release->0)
            &&& step.actions[1] is Pull
            &&& forall|i: int| 2 <= i < step.actions.len() ==> !(#[trigger] step.actions[i] is Pull)
            &&& upstream_in(step.state.queue) == 0
            &&& step.state.in_flight == state.in_flight - 1
            &&& step.state.in_flight + (asked + 1) <= step.state.max_concurrency
        },
{
    let back = WorkModel::DownstreamReturn(hop);
    lemma_enqueued_held(state, back);
    lemma_drain_without_calls(state.enqueued(back), graph, visits, now);
    let idle = state.worked(hop);
    let counted = visits.with_processing((hop.request_id, state.microservice), hop.duration);
    let asked_step = idle.asking(counted, hop.slot_release->0);
    let next = advanced(state.microservice, state.server_idx, graph, counted, hop.served(), now);
    lemma_drain_without_calls(asked_step.state, graph, next.visits, now);
    lemma_drain_asks_nothing(asked_step.state, graph, next.visits, now);
}

/// Working off the queue asks for no call.
proof fn lemma_drain_asks_nothing(
    state: ReplicaState,
    graph: GraphModel,
    visits: TrackerState,
    now: u64,
)
    ensures
        forall|i: int|
            0 <= i < state.drained(graph, visits, now).actions.len() ==> !(#[trigger] state.drained(
                graph,
                visits,
                now,
            ).actions[i] is Pull),
    decreases state.queue.len(),
{
    if state.queue.len() > 0 && state.in_flight < state.max_concurrency {
        match state.queue[0] {
            WorkModel::Upstream(_) => {},
            WorkModel::DownstreamReturn(hop) => {
                let first = state.dequeued().returned(graph, visits, hop, now);
                lemma_drain_asks_nothing(state.dequeued(), graph, first.visits, now);
            },
        }
    }
}

/// Answering announced calls never takes more slots than there are, counting the calls
/// that are on their way, and a call that arrives takes the slot that was kept for it. That
/// holds whatever happens to a replica that all calls are announced to.
pub proof fn law_announced_calls_keep_slots(
    state: ReplicaState,
    graph: GraphModel,
    visits: TrackerState,
    hop: HopModel,
    now: u64,
)
    requires
        state.senders.len() > 0,
        !(state.central is UpTo),
        state.in_flight + state.pending_pulls <= state.max_concurrency,
    ensures
        ({
            let after = state.with_intents_drained();
            after.in_flight + after.pending_pulls <= after.max_concurrency
        }),
        hop.slot_release is Some && state.pending_pulls > 0 ==> {
            let after = state.receiving(graph, visits, WorkModel::Upstream(hop), now).state;
            after.in_flight + after.pending_pulls == state.in_flight + state.pending_pulls
        },
        upstream_in(state.queue) == 0 ==> {
            let after = state.receiving(graph, visits, WorkModel::DownstreamReturn(hop), now).state;
            &&& upstream_in(after.queue) == 0
            &&& after.in_flight + after.pending_pulls == state.in_flight + state.pending_pulls
        },
        upstream_in(state.queue) == 0 ==> {
            let after = state.completing(graph, visits, hop, now).state;
            &&& upstream_in(after.queue) == 0
            &&& after.in_flight + after.pending_pulls <= after.max_concurrency
        },
{
    let back = WorkModel::DownstreamReturn(hop);
    lemma_enqueued_held(state, back);
    lemma_drain_without_calls(state.enqueued(back), graph, visits, now);
    let idle = state.worked(hop);
    let counted = visits.with_processing((hop.request_id, state.microservice), hop.duration);
    let asked = if hop.slot_release is None {
        idle
    } else {
        idle.asking(counted, hop.slot_release->0).state
    };
    let next = advanced(state.microservice, state.server_idx, graph, counted, hop.served(), now);
    lemma_drain_without_calls(asked, graph, next.visits, now);
}

/// The pulls that a bounded replica records are accepted by the audit, and so is a call
/// that arrives for one of them.
pub proof fn law_bounded_pull_trail_is_accepted(
    state: ReplicaState,
    k: nat,
    work: WorkModel,
    before: MsJbsqAudit,
    pulled: MsJbsqAudit,
    arrived: MsJbsqAudit,
)
    requires
        state.central is UpTo,
        k <= state.refill(),
        pulls_trail(state, k, Some(before), Some(pulled)),
        arrival_trail(state, work, Some(before), Some(arrived)),
    ensures
        forall|j: int|
            before@.len() <= j < before@.len() + k
                ==> #[trigger] crate::ms_jbsq_audit::event_fault(pulled@, j) is None,
        work is Upstream && work.hop().slot_release is Some && state.pending_pulls > 0
            && state.held() + state.pending_pulls <= state.central->UpTo_0
            ==> crate::ms_jbsq_audit::event_fault(arrived@, before@.len() as int) is None,
{
    assert forall|j: int|
        before@.len() <= j < before@.len()
            + k implies #[trigger] crate::ms_jbsq_audit::event_fault(pulled@, j) is None by {
        let i = j - before@.len();
        assert(is_pull_sent(state, state.pending_pulls + i, pulled@[before@.len() + i]));
    }
}

/// The intents as pairs of balancer and request.
pub open spec fn intent_pairs(intents: Seq<MsPullIntent>) -> Seq<(usize, u64)> {
    intents.map_values(|intent: MsPullIntent| (intent.sender_id, intent.request_id))
}

/// What a replica that answers intents in order records is accepted by the audit: queueing
/// and draining keep the replayed queue equal to the queue itself.
pub proof fn law_intent_trail_is_accepted(
    state: ReplicaState,
    intent: MsPullIntent,
    before: ApproxPullAudit,
    queued: ApproxPullAudit,
    drained: ApproxPullAudit,
)
    requires
        !(state.approx_sched matches Some(ApproxSchedKind::EdfPlus)),
        state.intents.len() < usize::MAX,
        intent_queue(before@, (state.microservice, state.server_idx)) == intent_pairs(
            state.intents,
        ),
        intent_queued_trail(state, intent, Some(before), Some(queued)),
        intent_drained_trail(state.with_intent(intent), Some(queued), Some(drained)),
    ensures
        ({
            let after = state.with_intent(intent);
            let lane = (state.microservice, state.server_idx);
            &&& event_fault(queued@, before@.len() as int) is None
            &&& intent_queue(queued@, lane) == intent_pairs(after.intents)
            &&& after.takes_intent() ==> event_fault(drained@, queued@.len() as int) is None
            &&& intent_queue(drained@, lane) == intent_pairs(after.with_intents_drained().intents)
        }),
{
    let after = state.with_intent(intent);
    let lane = (state.microservice, state.server_idx);
    assert(queued@.take(before@.len() as int) =~= queued@.drop_last());
    assert(intent_queue(queued@, lane) =~= intent_pairs(after.intents));
    if after.takes_intent() {
        assert(drained@.take(queued@.len() as int) =~= drained@.drop_last());
        assert(intent_pairs(after.intents)[0] == (
            after.intents[0].sender_id,
            after.intents[0].request_id,
        ));
        assert(intent_queue(drained@, lane) =~= intent_pairs(after.intent_taken().intents));
    }
}

/// Work that reaches a replica is queued in its turn: with fifo scheduling behind all work that
/// came before it, and by deadline behind the work that is due no later and before the first
/// that is due later. The work before it stays in its order.
pub proof fn law_work_queues_in_its_turn(state: ReplicaState, work: WorkModel)
    ensures
        state.scheduling == SchedulingPolicyKind::Fifo ==> {
            let after = state.enqueued(work);
            &&& after.queue.len() == state.queue.len() + 1
            &&& after.queue.last() == work
            &&& forall|i: int|
                0 <= i < state.queue.len() ==> after.queue[i] == #[trigger] state.queue[i]
        },
        state.scheduling == SchedulingPolicyKind::Edf ==> exists|at: int|
            {
                &&& 0 <= at <= state.queue.len()
                &&& state.enqueued(work).queue == #[trigger] state.queue.insert(at, work)
                &&& forall|i: int|
                    0 <= i < at ==> (#[trigger] state.queue[i]).hop().deadline
                        <= work.hop().deadline
                &&& at < state.queue.len() ==> state.queue[at].hop().deadline
                    > work.hop().deadline
            },
        state.enqueued(work).in_flight == state.in_flight,
        state.enqueued(work).pending_pulls == state.pending_pulls,
{
    let deadlines = deadlines_of(state.queue);
    let at = edf_position(deadlines, work.hop().deadline);
    crate::scheduling::law_equal_deadlines_keep_their_order(deadlines, work.hop().deadline);
    if state.scheduling == SchedulingPolicyKind::Edf {
        assert(state.enqueued(work).queue == state.queue.insert(at, work));
        assert forall|i: int| 0 <= i < at implies (#[trigger] state.queue[i]).hop().deadline
            <= work.hop().deadline by {
            assert(deadlines[i] == state.queue[i].hop().deadline);
        }
        if at < state.queue.len() {
            assert(deadlines[at] == state.queue[at].hop().deadline);
        }
    }
}

/// The queue of a replica is worked off from its front: with a free slot, calls that came back
/// go on one after the other until a new arrival comes up, which takes the slot and is served;
/// whatever stands behind it stays in its order. Without a free slot nothing moves.
pub proof fn law_queue_moves_up_from_the_front(
    state: ReplicaState,
    graph: GraphModel,
    visits: TrackerState,
    now: u64,
)
    ensures
        exists|k: int|
            {
                let after = state.drained(graph, visits, now);
                &&& 0 <= k <= state.queue.len()
                &&& after.state.queue == #[trigger] state.queue.skip(k)
                &&& forall|i: int|
                    0 <= i < k - 1 ==> (#[trigger] state.queue[i]) is DownstreamReturn
                &&& state.in_flight >= state.max_concurrency ==> k == 0 && after.actions.len() == 0
                    && after.visits == visits
                &&& state.in_flight < state.max_concurrency ==> k == state.queue.len() || k > 0
                    && state.queue[k - 1] is Upstream
                &&& k > 0 && state.queue[k - 1] is Upstream ==> {
                    &&& after.state.in_flight == state.in_flight + 1
                    &&& after.actions.len() > 0
                    &&& after.actions.last() == ActionModel::Serve(state.queue[k - 1].hop())
                }
                &&& k == 0 || state.queue[k - 1] is DownstreamReturn ==> after.state.in_flight
                    == state.in_flight
                &&& after.state.pending_pulls == state.pending_pulls
            },
    decreases state.queue.len(),
{
    let after = state.drained(graph, visits, now);
    if state.queue.len() == 0 || state.in_flight >= state.max_concurrency {
        assert(after.state.queue =~= state.queue.skip(0));
    } else {
        match state.queue[0] {
            WorkModel::Upstream(hop) => {
                assert(state.queue.remove(0) =~= state.queue.skip(1));
                assert(after.state.queue == state.queue.skip(1));
            },
            WorkModel::DownstreamReturn(hop) => {
                let shorter = state.dequeued();
                let first = shorter.returned(graph, visits, hop, now);
                law_queue_moves_up_from_the_front(shorter, graph, first.visits, now);
                let rest = shorter.drained(graph, first.visits, now);
                let k = choose|k: int|
                    {
                        &&& 0 <= k <= shorter.queue.len()
                        &&& rest.state.queue == #[trigger] shorter.queue.skip(k)
                        &&& forall|i: int|
                            0 <= i < k - 1 ==> (#[trigger] shorter.queue[i]) is DownstreamReturn
                        &&& shorter.in_flight < shorter.max_concurrency ==> k
                            == shorter.queue.len() || k > 0 && shorter.queue[k - 1] is Upstream
                        &&& k > 0 && shorter.queue[k - 1] is Upstream ==> {
                            &&& rest.state.in_flight == shorter.in_flight + 1
                            &&& rest.actions.len() > 0
                            &&& rest.actions.last() == ActionModel::Serve(
                                shorter.queue[k - 1].hop(),
                            )
                        }
                        &&& k == 0 || shorter.queue[k - 1] is DownstreamReturn
                            ==> rest.state.in_flight == shorter.in_flight
                        &&& rest.state.pending_pulls == shorter.pending_pulls
                    };
                assert(shorter.queue.skip(k) =~= state.queue.skip(k + 1));
                assert forall|i: int| 0 <= i < k implies (
                #[trigger] state.queue[i]) is DownstreamReturn by {
                    if i > 0 {
                        assert(shorter.queue[i - 1] == state.queue[i]);
                    }
                }
                if k > 0 {
                    assert(shorter.queue[k - 1] == state.queue[k]);
                }
                assert(after.state.queue == state.queue.skip(k + 1));
            },
        }
    }
}

/// A call that was pushed to a replica is served at once where a slot is free and nothing
/// waits, and otherwise waits in its turn where all slots are busy. Its visit begins now, and
/// has its deadline.
pub proof fn law_pushed_call_is_served_or_waits(
    state: ReplicaState,
    graph: GraphModel,
    visits: TrackerState,
    hop: HopModel,
    now: u64,
)
    requires
        hop.slot_release is None,
        state.in_flight < u32::MAX,
    ensures
        ({
            let step = state.receiving(graph, visits, WorkModel::Upstream(hop), now);
            let key = (hop.request_id, state.microservice);
            &&& state.queue.len() == 0 && state.in_flight < state.max_concurrency ==> {
                &&& step.actions == seq![ActionModel::Serve(hop)]
                &&& step.state.in_flight == state.in_flight + 1
                &&& step.state.queue.len() == 0
                &&& step.visits.active.dom().contains(key)
                &&& step.visits.active[key].arrival == now
                &&& step.visits.active[key].deadline == hop.deadline
                &&& step.visits.active[key].local_processing == 0
                &&& step.visits.active[key].downstream_response == 0
            }
            &&& state.in_flight >= state.max_concurrency ==> {
                &&& step.actions.len() == 0
                &&& step.state.in_flight == state.in_flight
                &&& step.state.queue.len() == state.queue.len() + 1
                &&& step.state.queue.contains(WorkModel::Upstream(hop))
                &&& step.visits.active[key].arrival == now
                &&& step.visits.active[key].deadline == hop.deadline
            }
        }),
{
    let work = WorkModel::Upstream(hop);
    let queued = state.enqueued(work);
    law_work_queues_in_its_turn(state, work);
    let at = match state.scheduling {
        SchedulingPolicyKind::Fifo => state.queue.len() as int,
        SchedulingPolicyKind::Edf => edf_position(deadlines_of(state.queue), hop.deadline),
    };
    crate::scheduling::law_equal_deadlines_keep_their_order(deadlines_of(state.queue), hop.deadline);
    assert(queued.queue[at] == work);
    if state.queue.len() == 0 && state.in_flight < state.max_concurrency {
        assert(queued.queue[0] == work);
        assert(queued.queue.remove(0).len() == 0);
    }
}

/// A call that a replica pulled takes the slot that was kept for it, at once, unless the
/// replica holds a bounded number of calls and queues them: then it takes the place of one that
/// was asked for.
pub proof fn law_pulled_call_takes_its_slot(
    state: ReplicaState,
    graph: GraphModel,
    visits: TrackerState,
    hop: HopModel,
    now: u64,
)
    requires
        hop.slot_release is Some,
        state.in_flight < u32::MAX,
    ensures
        ({
            let step = state.receiving(graph, visits, WorkModel::Upstream(hop), now);
            &&& !(state.central is UpTo) ==> {
                &&& step.actions == seq![ActionModel::Serve(hop)]
                &&& step.state.in_flight == state.in_flight + 1
                &&& step.state.queue == state.queue
                &&& state.senders.len() > 0 && state.pending_pulls > 0 ==> step.state.pending_pulls
                    == state.pending_pulls - 1
                &&& state.senders.len() == 0 ==> step.state.pending_pulls == state.pending_pulls
            }
            &&& state.central is UpTo && state.pending_pulls > 0 ==> step.state.pending_pulls
                == state.pending_pulls - 1
        }),
{
    if state.central is UpTo {
        let queued = state.with_pending(one_less(state.pending_pulls)).enqueued(
            WorkModel::Upstream(hop),
        );
        let arrived = visits.with_arrival(
            (hop.request_id, state.microservice),
            now,
            hop.deadline,
        );
        law_queue_moves_up_from_the_front(queued, graph, arrived, now);
    }
}

/// Once work on a request is over its slot is free, the time of it counts as busy and as work
/// done for the request, and the request goes on: the replica first gives a slot back that the
/// call held, asks for one more call where it pulls when idle, and for as many as make it full
/// where it holds a bounded number.
pub proof fn law_finished_work_frees_its_slot(
    state: ReplicaState,
    graph: GraphModel,
    visits: TrackerState,
    hop: HopModel,
    now: u64,
)
    requires
        state.in_flight > 0,
        state.busy + hop.duration <= u128::MAX,
    ensures
        state.worked(hop).in_flight == state.in_flight - 1,
        state.worked(hop).busy == state.busy + hop.duration,
        state.worked(hop).queue == state.queue,
        ({
            let step = state.completing(graph, visits, hop, now);
            let goes_on = ActionModel::Advance(
                advanced(
                    state.microservice,
                    state.server_idx,
                    graph,
                    visits.with_processing((hop.request_id, state.microservice), hop.duration),
                    hop.served(),
                    now,
                ).next,
            );
            &&& hop.slot_release is None ==> step.actions.len() > 0 && step.actions[0] == goes_on
            &&& hop.slot_release matches Some(slot) ==> {
                &&& step.actions.len() > 1
                &&& step.actions[0] == ActionModel::Release(slot)
                &&& state.senders.len() == 0 && state.central is Off ==> step.actions[1] == goes_on
                &&& state.senders.len() == 0 && state.central is WhenIdle ==> step.actions.len() > 2
                    && step.actions[1] is Pull && step.actions[2] == goes_on
            }
        }),
        hop.slot_release is Some ==> (state.central matches CentralPull::UpTo(n) ==> {
            let idle = state.worked(hop);
            let asked = idle.refill();
            &&& upstream_in(idle.queue) + idle.in_flight + idle.pending_pulls < n
                ==> upstream_in(idle.queue) + idle.in_flight + idle.pending_pulls + asked == n
            &&& upstream_in(idle.queue) + idle.in_flight + idle.pending_pulls >= n ==> asked == 0
        }),
{
    let idle = state.worked(hop);
    let counted = visits.with_processing((hop.request_id, state.microservice), hop.duration);
    if let Some(slot) = hop.slot_release {
        let asked = idle.asking(counted, slot);
        if state.senders.len() == 0 && state.central is WhenIdle {
            assert(asked.actions.len() == 2);
        }
    }
}

/// The request takes with it what was done for it: once a server has worked on it, its
/// processing time has grown by that work, the slot it held is given back, and its first call is
/// next. Taken up again behind a call, it has nothing left to report of that call.
pub proof fn law_work_adds_to_the_request(hop: HopModel)
    requires
        hop.processing_time + hop.duration <= u64::MAX,
    ensures
        hop.served().processing_time == hop.processing_time + hop.duration,
        hop.served().slot_release is None,
        hop.served().sibling_index == 0,
        hop.served().endpoint == hop.endpoint,
        hop.served().caller == hop.caller,
        hop.resumed().outbound_release is None,
        hop.resumed().endpoint == hop.endpoint,
        hop.resumed().sibling_index == hop.sibling_index,
        hop.resumed().processing_time == hop.processing_time,
        hop.resumed().caller == hop.caller,
{
}

/// How a request goes on at an endpoint: while it has a call left to make it makes the next
/// one, to the microservice that owns the called endpoint, and is to come back here behind
/// that call. When none is left it ends its visit: it returns to its caller where it has one,
/// with the time that the visit took, and is done otherwise, at this time.
pub proof fn law_request_makes_its_next_call(
    microservice: Seq<char>,
    server: usize,
    graph: GraphModel,
    visits: TrackerState,
    hop: HopModel,
    now: u64,
)
    requires
        visits.started_by(now),
    ensures
        ({
            let children = graph.children_for(hop.endpoint, hop.api);
            let step = advanced(microservice, server, graph, visits, hop, now);
            let key = (hop.request_id, microservice);
            &&& hop.sibling_index < children.len() && graph.owners.dom().contains(
                children[hop.sibling_index as int],
            ) ==> {
                &&& step.visits == visits
                &&& step.next is Call
                &&& ({
                    let call = step.next->Call_0;
                    let child = children[hop.sibling_index as int];
                    &&& call.target_microservice == graph.owners[child]
                    &&& call.hop.endpoint == child
                    &&& call.hop.sibling_index == 0
                    &&& call.hop.outbound_release is None
                    &&& call.hop.slot_release is None
                    &&& call.hop.caller is Some
                    &&& call.hop.caller->0.microservice == microservice
                    &&& call.hop.caller->0.server == server
                    &&& call.hop.caller->0.resume_endpoint == hop.endpoint
                    &&& call.hop.caller->0.resume_sibling_index == (hop.sibling_index + 1) as usize
                    &&& hop.caller is None ==> call.hop.caller->0.resume_caller is None
                    &&& hop.caller matches Some(outer) ==> call.hop.caller->0.resume_caller == Some(
                        Box::new(outer),
                    )
                })
            }
            &&& hop.sibling_index < children.len() && !graph.owners.dom().contains(
                children[hop.sibling_index as int],
            ) ==> step.next is Fail
            &&& hop.sibling_index >= children.len() ==> !step.visits.active.dom().contains(key)
            &&& hop.sibling_index >= children.len() ==> (hop.caller matches Some(caller) ==> {
                &&& step.next is Return
                &&& step.next->microservice == caller.microservice
                &&& step.next->server == caller.server
                &&& ({
                    let back = step.next->back;
                    &&& back.hop.endpoint == caller.resume_endpoint
                    &&& back.hop.sibling_index == caller.resume_sibling_index
                    &&& caller.resume_caller is None ==> back.hop.caller is None
                    &&& caller.resume_caller matches Some(outer) ==> back.hop.caller == Some(*outer)
                    &&& back.target_microservice == caller.outbound_target_microservice
                    &&& back.target_server == caller.outbound_target_server
                    &&& visits.active.dom().contains(key) ==> back.response is Some
                        && visits.active[key].arrival + back.response->0 == now
                    &&& !visits.active.dom().contains(key) ==> back.response is None
                })
            })
            &&& hop.sibling_index >= children.len() && hop.caller is None ==> {
                &&& step.next is Complete
                &&& step.next->done.start == hop.start
                &&& step.next->done.finish == now
                &&& step.next->done.processing_time == hop.processing_time
                &&& step.next->done.api == hop.api
                &&& step.next->edge.api == hop.api
                &&& step.next->edge.server == server
            }
        }),
{
}

/// A call that is over tells its caller which slot is free again, where it was sent by a
/// balancer, and how long it took, where it took any time.
pub proof fn law_return_frees_the_slot_of_the_call(back: ReturnModel, response_ms: u64)
    ensures
        back.target_microservice.len() > 0 || response_ms > 0 ==> {
            &&& back.reporting(response_ms).outbound_release is Some
            &&& ({
                let told = back.reporting(response_ms).outbound_release->0;
                &&& told.target_microservice == back.target_microservice
                &&& told.target_server == back.target_server
                &&& told.response_time_ms == response_ms
            })
        },
        back.target_microservice.len() == 0 && response_ms == 0 ==> back.reporting(response_ms)
            == back.hop,
        back.reporting(response_ms).endpoint == back.hop.endpoint,
        back.reporting(response_ms).sibling_index == back.hop.sibling_index,
        back.reporting(response_ms).caller == back.hop.caller,
{
}

/// What a returned call does: the slot that it names is given back before the request goes on,
/// and the milliseconds that it took count as time that the caller's visit waited for calls.
pub proof fn law_returned_call_is_accounted(
    state: ReplicaState,
    graph: GraphModel,
    visits: TrackerState,
    hop: HopModel,
    now: u64,
)
    ensures
        ({
            let step = state.returned(graph, visits, hop, now);
            &&& step.state == state
            &&& step.actions.len() > 0
            &&& step.actions.last() is Advance
            &&& hop.outbound_release matches Some(told) ==> {
                &&& told.target_microservice.len() > 0 ==> step.actions.len() == 2
                    && step.actions[0] == ActionModel::Release(told)
                &&& told.target_microservice.len() == 0 ==> step.actions.len() == 1
            }
            &&& hop.outbound_release is None ==> step.actions.len() == 1
        }),
        ({
            let step = state.returned(graph, visits, hop, now);
            let key = (hop.request_id, state.microservice);
            let children = graph.children_for(hop.endpoint, hop.api);
            hop.sibling_index < children.len() && visits.active.dom().contains(key) ==> {
                let had = visits.active[key].downstream_response;
                let has = step.visits.active[key].downstream_response;
                &&& hop.outbound_release is None ==> has == had
                &&& hop.outbound_release matches Some(told) ==> (had + told.response_time_ms
                    * 1_000_000 <= u64::MAX ==> has == had + told.response_time_ms * 1_000_000)
            }
        }),
{
}

/// A replica asks the shared queue for a call never where it is not to, where it pulls when
/// idle exactly with a free slot, and where it holds a bounded number of calls exactly while
/// those that wait, are worked on and were asked for are fewer.
pub proof fn law_replica_asks_within_its_rule(state: ReplicaState, work: WorkModel, n: u32)
    ensures
        state.central == CentralPull::Off ==> !state.wants_call(),
        state.central == CentralPull::WhenIdle ==> (state.wants_call() <==> state.in_flight
            < state.max_concurrency),
        state.central == CentralPull::UpTo(n) ==> (state.wants_call() <==> upstream_in(state.queue)
            + state.in_flight + state.pending_pulls < n),
        upstream_in(Seq::empty()) == 0,
        work is Upstream ==> upstream_in(state.queue.push(work)) == upstream_in(state.queue) + 1,
        work is DownstreamReturn ==> upstream_in(state.queue.push(work)) == upstream_in(state.queue),
{
    assert(state.queue.push(work).drop_last() =~= state.queue);
}

/// Announced calls are taken from the front of the intents, only into slots that are neither
/// busy nor promised, with a pull that names the request and this replica. A new intent goes
/// behind all others, or, where intents are kept by deadline, before the first due later.
pub proof fn law_replica_answers_intents_from_the_front(state: ReplicaState, intent: MsPullIntent)
    ensures
        state.approx_sched != Some(ApproxSchedKind::EdfPlus) ==> state.with_intent(intent).intents
            == state.intents.push(intent),
        state.approx_sched == Some(ApproxSchedKind::EdfPlus) ==> exists|at: int|
            {
                &&& 0 <= at <= state.intents.len()
                &&& state.with_intent(intent).intents == #[trigger] state.intents.insert(at, intent)
                &&& forall|i: int|
                    0 <= i < at ==> (#[trigger] state.intents[i]).deadline <= intent.deadline
                &&& at < state.intents.len() ==> state.intents[at].deadline > intent.deadline
            },
        state.intents.len() > 0 && state.in_flight + state.pending_pulls < state.max_concurrency ==> {
            let known = state.senders.contains(state.intents[0].sender_id);
            let after = state.with_intents_drained();
            &&& known ==> state.drain_answer() == Some(
                ActionModel::PullFrom {
                    sender_id: state.intents[0].sender_id,
                    pull: PullModel {
                        target_microservice: state.microservice,
                        server_idx: state.server_idx,
                        intent_target_idx: state.server_idx,
                        request_id: state.intents[0].request_id,
                    },
                },
            ) && after.pending_pulls == state.pending_pulls + 1
            &&& !known ==> state.drain_answer() is None && after.pending_pulls
                == state.pending_pulls
            &&& after.intents.len() == state.intents.len() - 1
            &&& forall|i: int|
                0 <= i < after.intents.len() ==> #[trigger] after.intents[i] == state.intents[i + 1]
            &&& after.queue == state.queue && after.in_flight == state.in_flight
        },
        state.intents.len() == 0 || state.in_flight + state.pending_pulls >= state.max_concurrency
            ==> state.drain_answer() is None && state.with_intents_drained() == state,
{
    if state.approx_sched != Some(ApproxSchedKind::EdfPlus) {
        assert(state.with_intent(intent).intents =~= state.intents.push(intent));
    } else {
        let deadlines = intent_deadlines(state.intents);
        crate::scheduling::law_equal_deadlines_keep_their_order(deadlines, intent.deadline);
        let at = edf_position(deadlines, intent.deadline);
        assert(state.with_intent(intent).intents == state.intents.insert(at, intent));
        assert forall|i: int| 0 <= i < at implies (#[trigger] state.intents[i]).deadline
            <= intent.deadline by {
            assert(deadlines[i] == state.intents[i].deadline);
        }
        if at < state.intents.len() {
            assert(deadlines[at] == state.intents[at].deadline);
        }
    }
}

/// The level of a replica counts what waits and what is worked on: an item that is queued adds
/// one, one that begins to be served changes nothing, and finished work takes one away.
pub proof fn law_level_counts_what_is_held(
    state: ReplicaState,
    graph: GraphModel,
    visits: TrackerState,
    work: WorkModel,
    hop: HopModel,
    now: u64,
)
    ensures
        state.enqueued(work).level() == state.level() + 1,
        state.queue.len() == 0 && state.in_flight == 0 ==> state.level() == 0,
        state.in_flight > 0 ==> state.worked(hop).level() == state.level() - 1,
        state.queue.len() > 0 && state.queue[0] is Upstream ==> state.drained(
            graph,
            visits,
            now,
        ).state.level() == state.level(),
{
    crate::scheduling::law_equal_deadlines_keep_their_order(
        deadlines_of(state.queue),
        work.hop().deadline,
    );
}

} // verus!
