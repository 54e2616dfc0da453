//! The balancers of the microservice simulator.
//!
//! Users reach the entry microservice through an edge balancer. A replica sends its calls
//! through a balancer of its own, or through a gateway to a balancer that all callers of
//! the target share. A method returns what is to be sent.

use super::hop::{
    CallModel, CallerModel, CallerRef, Hop, HopModel, MsPullIntent, OutboundCall, OutboundRelease,
    PullModel, ReleaseModel, ReplicaPull,
};
use crate::approx_audit::{ApproxPullAudit, ApproxPullEventKind};
use crate::key_map::{KeyMap, NameMap};
use crate::load_balancer::{gather, loads_of, one_less, zeros};
use crate::policy::{
    law_one_generator_picks_alike, AnyPolicy, ApproxSchedKind, LoadBalancePolicy,
    LoadBalancePolicyKind,
};
use crate::queues::take_front;
use crate::rng::RunRng;
use crate::scheduling::{
    by_deadline, edf_insert_index, edf_position, law_edf_insert_keeps_order, lemma_edf_in_range,
    lemma_edf_position,
};
use crate::text::{decimal, joined_ids, Text};
use rand::rngs::StdRng;
use vstd::multiset::Multiset;
use std::collections::VecDeque;
use vstd::prelude::*;

verus! {

/// The calls of `list`.
pub open spec fn calls_of(list: Seq<OutboundCall>) -> Seq<CallModel> {
    list.map_values(|c: OutboundCall| c.model())
}

/// The deadlines of queued calls, in order.
pub open spec fn call_deadlines(queue: Seq<CallModel>) -> Seq<u64> {
    queue.map_values(|c: CallModel| c.hop.deadline)
}

/// The request ids of queued calls, in order.
pub open spec fn call_ids(queue: Seq<CallModel>) -> Seq<u64> {
    queue.map_values(|c: CallModel| c.hop.request_id)
}

/// The queue with `call` in its place: by deadline, or at the end.
pub open spec fn with_call(queue: Seq<CallModel>, call: CallModel, by_deadline: bool) -> Seq<
    CallModel,
> {
    let at = if by_deadline {
        edf_position(call_deadlines(queue), call.hop.deadline)
    } else {
        queue.len() as int
    };
    queue.insert(at, call)
}

/// Puts `call` in its place.
pub(crate) fn enqueue_call(queue: &mut VecDeque<OutboundCall>, call: OutboundCall, by_deadline: bool)
    ensures
        calls_of(final(queue)@) == with_call(calls_of(old(queue)@), call.model(), by_deadline),
{
    let ghost before = calls_of(queue@);
    if by_deadline {
        let mut deadlines: Vec<u64> = Vec::new();
        let mut i: usize = 0;
        while i < queue.len()
            invariant
                i <= queue@.len(),
                *queue == *old(queue),
                before == calls_of(queue@),
                deadlines@ == call_deadlines(before).take(i as int),
            decreases queue@.len() - i,
        {
            deadlines.push(queue[i].hop.deadline);
            assert(before[i as int].hop.deadline == queue@[i as int].hop.deadline);
            assert(deadlines@ =~= call_deadlines(before).take(i + 1));
            i += 1;
        }
        assert(deadlines@ =~= call_deadlines(before));
        let at: usize = edf_insert_index(&deadlines, call.hop.deadline);
        proof {
            lemma_edf_position(deadlines@, call.hop.deadline, at as int);
        }
        let ghost model = call.model();
        queue.insert(at, call);
        assert(calls_of(queue@) =~= before.insert(at as int, model));
    } else {
        let ghost model = call.model();
        queue.push_back(call);
        assert(calls_of(queue@) =~= before.insert(before.len() as int, model));
    }
}

/// A queue of calls that is kept by deadline stays ordered when a call is put in its place
/// and when the first call is taken, and no call is due before the first one.
pub proof fn law_urgent_calls_come_first(queue: Seq<CallModel>, call: CallModel)
    requires
        by_deadline(call_deadlines(queue)),
    ensures
        by_deadline(call_deadlines(with_call(queue, call, true))),
        forall|i: int|
            0 <= i < with_call(queue, call, true).len() ==> with_call(
                queue,
                call,
                true,
            )[0].hop.deadline <= (#[trigger] with_call(queue, call, true)[i]).hop.deadline,
        queue.len() > 0 ==> by_deadline(call_deadlines(queue.remove(0))),
{
    let deadlines = call_deadlines(queue);
    let at = edf_position(deadlines, call.hop.deadline);
    lemma_edf_in_range(deadlines, call.hop.deadline, 0);
    law_edf_insert_keeps_order(deadlines, call.hop.deadline, at);
    let after = with_call(queue, call, true);
    assert(call_deadlines(after) =~= deadlines.insert(at, call.hop.deadline));
    assert forall|i: int| 0 <= i < after.len() implies after[0].hop.deadline <= (
    #[trigger] after[i]).hop.deadline by {
        assert(call_deadlines(after)[0] == after[0].hop.deadline);
        assert(call_deadlines(after)[i] == after[i].hop.deadline);
    }
    if queue.len() > 0 {
        assert(call_deadlines(queue.remove(0)) =~= deadlines.remove(0));
    }
}

/// The first call of `request` in the queue is at `i`.
pub open spec fn first_call(queue: Seq<CallModel>, request: u64, i: int) -> bool {
    &&& 0 <= i < queue.len()
    &&& queue[i].hop.request_id == request
    &&& forall|j: int| 0 <= j < i ==> (#[trigger] queue[j]).hop.request_id != request
}

impl HopModel {
    /// The request as it is sent to a slot that it holds until its work is done.
    pub open spec fn holding(self, target: Seq<char>, server: usize) -> HopModel {
        HopModel {
            slot_release: Some(
                ReleaseModel {
                    target_microservice: target,
                    target_server: server,
                    response_time_ms: 0,
                },
            ),
            ..self
        }
    }

    /// The request as it is sent to a server: its caller remembers which one.
    pub open spec fn pushed(self, target: Seq<char>, server: usize) -> HopModel {
        HopModel {
            caller: match self.caller {
                Some(caller) => Some(
                    CallerModel {
                        outbound_target_microservice: target,
                        outbound_target_server: server,
                        ..caller
                    },
                ),
                None => None,
            },
            ..self
        }
    }
}

/// Marks `hop` as holding a slot at `server` of `target`.
pub(crate) fn hold_slot(hop: Hop, target: &String, server: usize) -> (r: Hop)
    ensures
        r.model() == hop.model().holding(target@, server),
{
    let mut hop = hop;
    hop.slot_release = Some(
        OutboundRelease {
            target_microservice: target.clone(),
            target_server: server,
            response_time_ms: 0,
        },
    );
    hop
}

/// Lets the caller of `hop` remember that it was sent to `server` of `target`.
pub(crate) fn push_to(hop: Hop, target: &String, server: usize) -> (r: Hop)
    ensures
        r.model() == hop.model().pushed(target@, server),
{
    let ghost model = hop.model();
    let mut hop = hop;
    let caller = hop.caller.take();
    hop.caller = match caller {
        Some(caller) => Some(
            CallerRef {
                microservice: caller.microservice,
                server: caller.server,
                resume_endpoint: caller.resume_endpoint,
                resume_sibling_index: caller.resume_sibling_index,
                resume_caller: caller.resume_caller,
                outbound_target_microservice: target.clone(),
                outbound_target_server: server,
            },
        ),
        None => None,
    };
    assert(hop.model() =~= model.pushed(target@, server));
    hop
}

/// What a replica's balancer keeps for one target microservice.
pub struct Target {
    /// Where calls go, or where they are announced.
    pub indices: Vec<usize>,
    /// Calls sent to each server and not released yet.
    pub inflight: Vec<u32>,
    /// Intents sent to each place and not answered yet.
    pub intent_load: Vec<u32>,
    pub queue: VecDeque<OutboundCall>,
}

/// A target as a mathematical value.
#[verifier::ext_equal]
pub struct TargetModel {
    pub indices: Seq<usize>,
    pub inflight: Seq<u32>,
    pub intent_load: Seq<u32>,
    pub queue: Seq<CallModel>,
}

impl Target {
    pub open spec fn model(self) -> TargetModel {
        TargetModel {
            indices: self.indices@,
            inflight: self.inflight@,
            intent_load: self.intent_load@,
            queue: calls_of(self.queue@),
        }
    }
}

impl TargetModel {
    pub open spec fn with_inflight(self, server: usize, count: u32) -> TargetModel {
        TargetModel { inflight: self.inflight.update(server as int, count), ..self }
    }

    pub open spec fn with_intents(self, place: usize, count: u32) -> TargetModel {
        TargetModel { intent_load: self.intent_load.update(place as int, count), ..self }
    }

    /// One more call at `server`.
    pub open spec fn sent_to(self, server: usize) -> TargetModel {
        self.with_inflight(server, (self.inflight[server as int] + 1) as u32)
    }

    /// One intent fewer at `place`, if there is such a place.
    pub open spec fn intent_answered(self, place: usize) -> TargetModel {
        if place < self.intent_load.len() {
            self.with_intents(place, one_less(self.intent_load[place as int]))
        } else {
            self
        }
    }

    /// The call at `i` goes to `server`, in answer to an intent sent to `place`.
    pub open spec fn pulled(self, i: int, place: usize, server: usize) -> TargetModel {
        (TargetModel { queue: self.queue.remove(i), ..self }).intent_answered(place).sent_to(server)
    }

    /// No counter is at its limit.
    pub open spec fn can_count(self) -> bool {
        &&& forall|i: int| 0 <= i < self.inflight.len() ==> (#[trigger] self.inflight[i]) < u32::MAX
        &&& forall|i: int|
            0 <= i < self.intent_load.len() ==> (#[trigger] self.intent_load[i]) < u32::MAX
    }
}

/// A pull takes the call at `i`: the first one, or the first one of its own request.
pub open spec fn takes_call(queue: Seq<CallModel>, any: bool, request: u64, i: int) -> bool {
    if any {
        i == 0 && queue.len() > 0
    } else {
        first_call(queue, request, i)
    }
}

impl Target {
    /// Takes a call off the queue for `server`, in answer to an intent sent to `place`.
    fn answer_pull(&mut self, any: bool, request_id: u64, place: usize, server: usize) -> (r:
        Option<OutboundCall>)
        requires
            server < old(self).model().inflight.len(),
            old(self).model().can_count(),
        ensures
            match r {
                Some(call) => exists|i: int| #[trigger]
                    takes_call(old(self).model().queue, any, request_id, i) && call.model() == old(
                        self,
                    ).model().queue[i] && final(self).model() == old(self).model().pulled(
                        i,
                        place,
                        server,
                    ),
                None => final(self).model() == old(self).model() && forall|i: int|
                    !#[trigger] takes_call(old(self).model().queue, any, request_id, i),
            },
    {
        let ghost start = self.model();
        let ghost mut i: int = 0;
        let call = if any {
            if self.queue.len() == 0 {
                return None;
            }
            take_front(&mut self.queue)
        } else {
            let ghost held = self.queue@;
            match remove_call_for_pull(&mut self.queue, request_id) {
                Some(call) => {
                    proof {
                        i = choose|i: int| #[trigger]
                            first_call(calls_of(held), request_id, i) && call == held[i]
                                && self.queue@ == held.remove(i);
                    }
                    call
                },
                None => {
                    proof {
                        assert forall|j: int|
                            !#[trigger] takes_call(start.queue, any, request_id, j) by {
                            if 0 <= j < start.queue.len() {
                                assert(held[j].hop.request_id != request_id);
                                assert(start.queue[j].hop.request_id != request_id);
                            }
                        }
                    }
                    return None;
                },
            }
        };
        assert(takes_call(start.queue, any, request_id, i));
        assert(calls_of(self.queue@) =~= start.queue.remove(i));
        if place < self.intent_load.len() {
            let load: u32 = self.intent_load[place];
            self.intent_load.set(place, load.saturating_sub(1));
        }
        assert(start.inflight[server as int] < u32::MAX);
        let count: u32 = self.inflight[server];
        self.inflight.set(server, count + 1);
        assert(self.model() =~= start.pulled(i, place, server));
        Some(call)
    }
}

/// What a replica's balancer is made of.
#[verifier::ext_equal]
pub struct RbState {
    pub policy: AnyPolicy,
    pub lb_policy: LoadBalancePolicyKind,
    pub rb_id: usize,
    pub microservice: Seq<char>,
    pub server_idx: usize,
    pub targets: Map<Seq<char>, TargetModel>,
    /// None where a pull takes the call that was announced; otherwise the order in which
    /// pulls take queued calls.
    pub approx_sched: Option<ApproxSchedKind>,
}

impl RbState {
    /// Every place that is picked exists.
    pub open spec fn wf(self) -> bool {
        &&& self.policy.wf()
        &&& forall|target: Seq<char>| #[trigger]
            self.targets.dom().contains(target) ==> self.target_wf(self.targets[target])
    }

    pub open spec fn target_wf(self, target: TargetModel) -> bool {
        forall|i: int|
            0 <= i < target.indices.len() ==> (#[trigger] target.indices[i]) < (
            if self.lb_policy.sends_intents() {
                target.intent_load.len()
            } else {
                target.inflight.len()
            })
    }

    /// A call to `target` has nowhere to go.
    pub open spec fn has_no_servers(self, target: Seq<char>) -> bool {
        self.targets[target].indices.len() == 0 || self.targets[target].inflight.len() == 0
    }

    pub open spec fn with_target(self, name: Seq<char>, target: TargetModel) -> RbState {
        RbState { targets: self.targets.insert(name, target), ..self }
    }

    /// The state once `call` waits for a pull.
    pub open spec fn with_queued(self, call: CallModel) -> RbState {
        let target = self.targets[call.target_microservice];
        self.with_target(
            call.target_microservice,
            TargetModel {
                queue: with_call(
                    target.queue,
                    call,
                    self.approx_sched matches Some(sched) && (sched is Edf || sched is EdfPlus),
                ),
                ..target
            },
        )
    }

    /// The call that a pull takes is at `i` of the queue.
    pub open spec fn pulled_at(self, pull: PullModel, i: int) -> bool {
        takes_call(
            self.targets[pull.target_microservice].queue,
            self.approx_sched is Some,
            pull.request_id,
            i,
        )
    }

    /// The state once the call at `i` was pulled.
    pub open spec fn pulled(self, pull: PullModel, i: int) -> RbState {
        self.with_target(
            pull.target_microservice,
            self.targets[pull.target_microservice].pulled(
                i,
                pull.intent_target_idx,
                pull.server_idx,
            ),
        )
    }

    /// The intent that announces `call`.
    pub open spec fn intent_for(self, call: CallModel) -> MsPullIntent {
        MsPullIntent {
            sender_id: self.rb_id,
            request_id: call.hop.request_id,
            deadline: call.hop.deadline,
        }
    }

    /// The state once a call to `server` of `name` is over.
    pub open spec fn released(self, name: Seq<char>, server: usize) -> RbState {
        if self.targets.dom().contains(name) && server < self.targets[name].inflight.len() {
            let target = self.targets[name];
            self.with_target(
                name,
                target.with_inflight(server, one_less(target.inflight[server as int])),
            )
        } else {
            self
        }
    }

    /// Which pull a message is about.
    pub open spec fn place_text(self, pull: PullModel) -> Seq<char> {
        "(rb_id="@ + decimal(self.rb_id as nat) + ", microservice_id="@ + self.microservice
            + ", server_idx="@ + decimal(pull.server_idx as nat) + ", target="@
            + pull.target_microservice
    }

    /// Why a pull cannot be answered.
    pub open spec fn abort_text(self, pull: PullModel) -> Seq<char> {
        let place = self.place_text(pull);
        if !self.targets.dom().contains(pull.target_microservice) {
            "unknown outbound queue "@ + place + ", request_id="@ + decimal(pull.request_id as nat)
                + ")"@
        } else if self.approx_sched is Some {
            "no queued outbound call for approx pull "@ + place + ", ignored_request_id="@
                + decimal(pull.request_id as nat) + ", queue_len=0)"@
        } else {
            let queue = self.targets[pull.target_microservice].queue;
            "bound call not found "@ + place + ", request_id="@ + decimal(pull.request_id as nat)
                + ", queue_len="@ + decimal(queue.len()) + ", queued_request_ids=["@ + joined_ids(
                call_ids(queue),
            ) + "])"@
        }
    }
}

proof fn lemma_same_indices(before: RbState, after: RbState)
    requires
        before.wf(),
        after.policy.wf(),
        after.lb_policy == before.lb_policy,
        after.targets.dom() =~= before.targets.dom(),
        forall|t: Seq<char>| #[trigger]
            before.targets.dom().contains(t) ==> after.targets[t].indices
                == before.targets[t].indices && after.targets[t].inflight.len()
                == before.targets[t].inflight.len() && after.targets[t].intent_load.len()
                == before.targets[t].intent_load.len(),
    ensures
        after.wf(),
{
    assert forall|t: Seq<char>| #[trigger] after.targets.dom().contains(t) implies after.target_wf(
        after.targets[t],
    ) by {
        assert(before.targets.dom().contains(t));
        assert(before.target_wf(before.targets[t]));
    }
}

/// What becomes of a call that a replica makes.
#[derive(Clone, Debug)]
pub enum OutboundOutcome {
    /// It cannot be made, for this reason.
    Refused(String),
    /// It waits for a pull, and is announced at a place.
    Announced { place: usize, intent: MsPullIntent },
    /// It is sent to a server.
    Sent { server: usize, hop: Hop },
}

/// `after` and `place` are what may become of a balancer that announces a queued call at a
/// place of the policy's choice, in a run whose generator goes from `from` to `to`.
pub open spec fn announces_call(
    queued: RbState,
    call: CallModel,
    pick: int,
    after: RbState,
    place: usize,
    from: Option<StdRng>,
    to: Option<StdRng>,
) -> bool {
    let target = queued.targets[call.target_microservice];
    &&& 0 <= pick < target.indices.len()
    &&& place == target.indices[pick]
    &&& queued.policy.may_select(
        loads_of(target.intent_load, target.indices),
        from,
        pick,
        after.policy,
        to,
    )
    &&& after == (RbState {
        policy: after.policy,
        ..queued.with_target(
            call.target_microservice,
            target.with_intents(place, (target.intent_load[place as int] + 1) as u32),
        )
    })
}

/// `after` and `server` are what may become of a balancer that pushes a call to a server of
/// the policy's choice, in a run whose generator goes from `from` to `to`.
pub open spec fn pushes_call(
    before: RbState,
    call: CallModel,
    pick: int,
    after: RbState,
    server: usize,
    from: Option<StdRng>,
    to: Option<StdRng>,
) -> bool {
    let target = before.targets[call.target_microservice];
    &&& 0 <= pick < target.indices.len()
    &&& server == target.indices[pick]
    &&& before.policy.may_select(
        loads_of(target.inflight, target.indices),
        from,
        pick,
        after.policy,
        to,
    )
    &&& after == (RbState {
        policy: after.policy,
        ..before.with_target(call.target_microservice, target.sent_to(server))
    })
}

/// The trail of an announced call.
pub open spec fn sent_trail(
    state: RbState,
    call: CallModel,
    place: usize,
    before: Option<ApproxPullAudit>,
    after: Option<ApproxPullAudit>,
) -> bool {
    match before {
        None => after is None,
        Some(trail) => after matches Some(longer) && {
            &&& longer@.len() == trail@.len() + 1
            &&& longer@.drop_last() == trail@
            &&& longer@.last() matches ApproxPullEventKind::IntentSent {
                sender_rb_id,
                sender_ms,
                sender_server,
                target_ms,
                target_server,
                request_id,
            } && sender_rb_id == state.rb_id && sender_ms@ == state.microservice && sender_server
                == state.server_idx && target_ms@ == call.target_microservice && target_server
                == place && request_id == call.hop.request_id
        },
    }
}

/// The trail of a pull that was answered. It names the request of the intent.
pub open spec fn matched_trail(
    state: RbState,
    pull: PullModel,
    before: Option<ApproxPullAudit>,
    after: Option<ApproxPullAudit>,
) -> bool {
    match before {
        None => after is None,
        Some(trail) => after matches Some(longer) && {
            &&& longer@.len() == trail@.len() + 1
            &&& longer@.drop_last() == trail@
            &&& longer@.last() matches ApproxPullEventKind::PullMatched {
                handler_rb_id,
                handler_ms,
                handler_server,
                target_ms,
                pull_from_server,
                request_id,
            } && handler_rb_id == state.rb_id && handler_ms@ == state.microservice
                && handler_server == state.server_idx && target_ms@ == pull.target_microservice
                && pull_from_server == pull.server_idx && request_id == pull.request_id
        },
    }
}

/// The answer to a pull.
#[derive(Clone, Debug)]
pub enum ReplicaPullReply {
    /// The balancer does not answer pulls.
    Ignored,
    Dispatch { server: usize, hop: Hop },
    /// The pull cannot be answered; the run ends with this message.
    Abort(String),
}

/// The balancer through which one replica makes its calls.
pub struct ReplicaBalancer {
    policy: AnyPolicy,
    lb_policy: LoadBalancePolicyKind,
    rb_id: usize,
    microservice_id: String,
    server_idx: usize,
    targets: NameMap<Target>,
    approx_sched: Option<ApproxSchedKind>,
}

impl View for ReplicaBalancer {
    type V = RbState;

    closed spec fn view(&self) -> RbState {
        RbState {
            policy: self.policy,
            lb_policy: self.lb_policy,
            rb_id: self.rb_id,
            microservice: self.microservice_id@,
            server_idx: self.server_idx,
            targets: self.targets@.map_values(|t: Target| t.model()),
            approx_sched: self.approx_sched,
        }
    }
}

/// Removes the first call of `request`.
pub fn remove_call_for_pull(queue: &mut VecDeque<OutboundCall>, request_id: u64) -> (r: Option<
    OutboundCall,
>)
    ensures
        match r {
            Some(call) => exists|i: int| #[trigger]
                first_call(calls_of(old(queue)@), request_id, i) && call == old(queue)@[i]
                    && final(queue)@ == old(queue)@.remove(i),
            None => final(queue)@ == old(queue)@ && forall|i: int|
                0 <= i < old(queue)@.len() ==> (#[trigger] old(queue)@[i]).hop.request_id
                    != request_id,
        },
{
    let mut i: usize = 0;
    while i < queue.len()
        invariant
            i <= queue@.len(),
            *queue == *old(queue),
            forall|j: int| 0 <= j < i ==> (#[trigger] queue@[j]).hop.request_id != request_id,
        decreases queue@.len() - i,
    {
        if queue[i].hop.request_id == request_id {
            proof {
                let models = calls_of(queue@);
                assert forall|j: int| 0 <= j < i implies (#[trigger] models[j]).hop.request_id
                    != request_id by {
                    assert(queue@[j].hop.request_id != request_id);
                }
                assert(first_call(models, request_id, i as int));
            }
            return queue.remove(i);
        }
        i += 1;
    }
    None
}

fn ids_of_calls(queue: &VecDeque<OutboundCall>) -> (r: Vec<u64>)
    ensures
        r@ == call_ids(calls_of(queue@)),
{
    let mut out: Vec<u64> = Vec::new();
    let mut i: usize = 0;
    while i < queue.len()
        invariant
            i <= queue@.len(),
            out@ == call_ids(calls_of(queue@)).take(i as int),
        decreases queue@.len() - i,
    {
        out.push(queue[i].hop.request_id);
        assert(calls_of(queue@)[i as int].hop.request_id == queue@[i as int].hop.request_id);
        assert(out@ =~= call_ids(calls_of(queue@)).take(i + 1));
        i += 1;
    }
    assert(out@ =~= call_ids(calls_of(queue@)));
    out
}

impl ReplicaBalancer {
    pub closed spec fn wf(&self) -> bool {
        &&& self.targets.wf()
        &&& self@.wf()
    }

    pub proof fn lemma_wf(&self)
        requires
            self.wf(),
        ensures
            self@.wf(),
    {
    }

    /// A balancer that calls no microservice yet.
    pub fn new(
        policy: AnyPolicy,
        lb_policy: LoadBalancePolicyKind,
        rb_id: usize,
        microservice_id: String,
        server_idx: usize,
        approx_sched: Option<ApproxSchedKind>,
    ) -> (r: ReplicaBalancer)
        requires
            policy.wf(),
        ensures
            r.wf(),
            r@ == (RbState {
                policy,
                lb_policy,
                rb_id,
                microservice: microservice_id@,
                server_idx,
                targets: Map::empty(),
                approx_sched,
            }),
    {
        let r = ReplicaBalancer {
            policy,
            lb_policy,
            rb_id,
            microservice_id,
            server_idx,
            targets: KeyMap::new(),
            approx_sched,
        };
        assert(r@.targets =~= Map::<Seq<char>, TargetModel>::empty());
        r
    }

    /// Lets the balancer call `target`, which has `n_servers` servers and takes intents at
    /// `n_places` places, through `indices`.
    pub fn add_target(
        &mut self,
        target: String,
        indices: Vec<usize>,
        n_servers: usize,
        n_places: usize,
    )
        requires
            old(self).wf(),
            forall|i: int|
                0 <= i < indices@.len() ==> (#[trigger] indices@[i]) < (
                if old(self)@.lb_policy.sends_intents() {
                    n_places
                } else {
                    n_servers
                }),
        ensures
            final(self).wf(),
            final(self)@ == old(self)@.with_target(
                target@,
                TargetModel {
                    indices: indices@,
                    inflight: Seq::new(n_servers as nat, |i: int| 0u32),
                    intent_load: Seq::new(n_places as nat, |i: int| 0u32),
                    queue: Seq::empty(),
                },
            ),
    {
        let ghost name = target@;
        let ghost fresh = TargetModel {
            indices: indices@,
            inflight: Seq::new(n_servers as nat, |i: int| 0u32),
            intent_load: Seq::new(n_places as nat, |i: int| 0u32),
            queue: Seq::empty(),
        };
        let entry = Target {
            indices,
            inflight: zeros(n_servers),
            intent_load: zeros(n_places),
            queue: VecDeque::new(),
        };
        assert(entry.model() =~= fresh);
        self.targets.insert(target, entry);
        assert(self@ =~= old(self)@.with_target(name, fresh));
    }

    /// How many calls to `target` wait for a pull.
    pub fn queue_len(&self, target: &String) -> (r: usize)
        requires
            self.wf(),
        ensures
            r == if self@.targets.dom().contains(target@) {
                self@.targets[target@].queue.len()
            } else {
                0
            },
    {
        match self.targets.get(target) {
            Some(entry) => entry.queue.len(),
            None => 0,
        }
    }

    /// The servers or sidecars of `target` that calls to it are picked from.
    pub fn server_indices(&self, target: &String) -> (r: Option<&Vec<usize>>)
        requires
            self.wf(),
        ensures
            match r {
                Some(indices) => self@.targets.dom().contains(target@) && indices@
                    == self@.targets[target@].indices,
                None => !self@.targets.dom().contains(target@),
            },
    {
        match self.targets.get(target) {
            Some(entry) => Some(&entry.indices),
            None => None,
        }
    }

    /// Picks where a call to the target at `at` goes, by the intents or by the calls that
    /// are outstanding.
    fn pick(&mut self, at: usize, by_intents: bool, rng: &mut RunRng) -> (r: usize)
        requires
            old(self).wf(),
            at < old(self).targets.ids().len(),
            by_intents == old(self)@.lb_policy.sends_intents(),
            old(self).targets@[old(self).targets.ids()[at as int]].indices@.len() > 0,
        ensures
            final(self).wf(),
            final(self).targets == old(self).targets,
            final(self)@ == (RbState { policy: final(self)@.policy, ..old(self)@ }),
            ({
                let target = old(self)@.targets[old(self).targets.ids()[at as int]];
                let loads = if by_intents {
                    target.intent_load
                } else {
                    target.inflight
                };
                &&& r < target.indices.len()
                &&& old(self)@.policy.may_select(
                    loads_of(loads, target.indices),
                    old(rng).generator(),
                    r as int,
                    final(self)@.policy,
                    final(rng).generator(),
                )
            }),
    {
        proof {
            self.targets.lemma_ids();
        }
        let ghost name = self.targets.ids()[at as int];
        assert(self@.targets.dom().contains(name));
        assert(self@.target_wf(self@.targets[name]));
        let entry = self.targets.value_at(at);
        assert(entry.model() == self@.targets[name]);
        let loads = if by_intents {
            gather(&entry.intent_load, &entry.indices)
        } else {
            gather(&entry.inflight, &entry.indices)
        };
        self.policy.select(loads.as_slice(), rng)
    }

    /// The replica makes a call.
    pub fn outbound(
        &mut self,
        call: OutboundCall,
        rng: &mut RunRng,
        audit: &mut Option<ApproxPullAudit>,
    ) -> (r: OutboundOutcome)
        requires
            old(self).wf(),
            old(self)@.targets.dom().contains(call.target_microservice@) ==> old(
                self,
            )@.targets[call.target_microservice@].can_count(),
        ensures
            final(self).wf(),
            ({
                let name = call.target_microservice@;
                if !old(self)@.targets.dom().contains(name) {
                    &&& r matches OutboundOutcome::Refused(text) && text@
                        == "replica balancer outbound: unknown target microservice "@ + name
                    &&& final(self)@ == old(self)@
                    &&& final(rng).generator() == old(rng).generator()
                    &&& *final(audit) == *old(audit)
                } else if old(self)@.has_no_servers(name) {
                    &&& r matches OutboundOutcome::Refused(text) && text@
                        == "replica balancer outbound: no servers for microservice "@ + name
                    &&& final(self)@ == old(self)@
                    &&& final(rng).generator() == old(rng).generator()
                    &&& *final(audit) == *old(audit)
                } else if old(self)@.lb_policy.sends_intents() {
                    &&& r matches OutboundOutcome::Announced { place, intent }
                    &&& intent == old(self)@.intent_for(call.model())
                    &&& exists|pick: int| #[trigger]
                        announces_call(
                            old(self)@.with_queued(call.model()),
                            call.model(),
                            pick,
                            final(self)@,
                            place,
                            old(rng).generator(),
                            final(rng).generator(),
                        )
                    &&& sent_trail(old(self)@, call.model(), place, *old(audit), *final(audit))
                } else {
                    &&& r matches OutboundOutcome::Sent { server, hop }
                    &&& exists|pick: int| #[trigger]
                        pushes_call(
                            old(self)@,
                            call.model(),
                            pick,
                            final(self)@,
                            server,
                            old(rng).generator(),
                            final(rng).generator(),
                        )
                    &&& hop.model() == call.model().hop.pushed(name, server)
                    &&& *final(audit) == *old(audit)
                }
            }),
    {
        let ghost start = self@;
        let ghost model = call.model();
        let ghost name = call.target_microservice@;
        let at: usize = match self.targets.find(&call.target_microservice) {
            Some(at) => at,
            None => {
                return OutboundOutcome::Refused(
                    Text::of("replica balancer outbound: unknown target microservice ").lit(
                        &call.target_microservice,
                    ).done(),
                );
            },
        };
        assert(start.targets.dom().contains(name));
        assert(start.target_wf(start.targets[name]));
        let entry = self.targets.value_at(at);
        assert(entry.model() == start.targets[name]);
        if entry.indices.len() == 0 || entry.inflight.len() == 0 {
            return OutboundOutcome::Refused(
                Text::of("replica balancer outbound: no servers for microservice ").lit(
                    &call.target_microservice,
                ).done(),
            );
        }
        if self.lb_policy.uses_approx_protocol() {
            let request_id: u64 = call.hop.request_id;
            let deadline: u64 = call.hop.deadline;
            let target = call.target_microservice.clone();
            let by_deadline = match self.approx_sched {
                Some(sched) => sched.outbound_uses_edf(),
                None => false,
            };
            let slot = self.targets.value_mut(at);
            let ghost had = slot.model();
            enqueue_call(&mut slot.queue, call, by_deadline);
            assert(slot.model() =~= (TargetModel {
                queue: with_call(had.queue, model, by_deadline),
                ..had
            }));
            let ghost queued = start.with_queued(model);
            assert(self@ =~= queued);
            assert(self.wf()) by {
                lemma_same_indices(start, self@);
            }
            let picked: usize = self.pick(at, true, rng);
            let ghost chosen = self@;
            let place: usize = self.targets.value_at(at).indices[picked];
            assert(queued.target_wf(queued.targets[name]));
            assert(queued.targets[name].indices[picked as int] == place);
            assert(start.targets[name].intent_load[place as int] < u32::MAX);
            let slot = self.targets.value_mut(at);
            let ghost had = slot.model();
            let count: u32 = slot.intent_load[place];
            slot.intent_load.set(place, count + 1);
            assert(slot.model() =~= had.with_intents(place, (count + 1) as u32));
            if let Some(trail) = audit {
                trail.record_intent_sent(
                    self.rb_id,
                    &self.microservice_id,
                    self.server_idx,
                    &target,
                    place,
                    request_id,
                );
            }
            proof {
                assert(self@ =~= (RbState {
                    policy: self@.policy,
                    ..queued.with_target(
                        name,
                        queued.targets[name].with_intents(place, (count + 1) as u32),
                    )
                }));
                assert(announces_call(
                    queued,
                    model,
                    picked as int,
                    self@,
                    place,
                    old(rng).generator(),
                    rng.generator(),
                ));
                lemma_same_indices(queued, self@);
            }
            return OutboundOutcome::Announced {
                place,
                intent: MsPullIntent { sender_id: self.rb_id, request_id, deadline },
            };
        }
        let picked: usize = self.pick(at, false, rng);
        let server: usize = self.targets.value_at(at).indices[picked];
        assert(start.targets[name].indices[picked as int] == server);
        assert(start.targets[name].inflight[server as int] < u32::MAX);
        let hop = push_to(call.hop, &call.target_microservice, server);
        let slot = self.targets.value_mut(at);
        let ghost had = slot.model();
        let count: u32 = slot.inflight[server];
        slot.inflight.set(server, count + 1);
        assert(slot.model() =~= had.sent_to(server));
        proof {
            assert(self@ =~= (RbState {
                policy: self@.policy,
                ..start.with_target(name, start.targets[name].sent_to(server))
            }));
            assert(pushes_call(
                start,
                model,
                picked as int,
                self@,
                server,
                old(rng).generator(),
                rng.generator(),
            ));
            lemma_same_indices(start, self@);
        }
        OutboundOutcome::Sent { server, hop }
    }

    /// The message about a pull to the target at `at` that finds no call.
    fn abort_message(&self, at: usize, pull: &ReplicaPull) -> (r: String)
        requires
            self.wf(),
            at < self.targets.ids().len(),
            self.targets.ids()[at as int] == pull.target_microservice@,
            self.targets@.dom().contains(pull.target_microservice@),
        ensures
            r@ == self@.abort_text(pull.model()),
    {
        let entry = self.targets.value_at(at);
        assert(entry.model() == self@.targets[pull.target_microservice@]);
        if self.approx_sched.is_some() {
            Text::of("no queued outbound call for approx pull ").lit(&self.pull_place(pull)).lit(
                ", ignored_request_id=",
            ).num(pull.request_id).lit(", queue_len=0)").done()
        } else {
            let ids = ids_of_calls(&entry.queue);
            Text::of("bound call not found ").lit(&self.pull_place(pull)).lit(", request_id=").num(
                pull.request_id,
            ).lit(", queue_len=").size(entry.queue.len()).lit(", queued_request_ids=[").ids(
                &ids,
            ).lit("])").done()
        }
    }

    fn pull_place(&self, pull: &ReplicaPull) -> (r: String)
        ensures
            r@ == self@.place_text(pull.model()),
    {
        Text::of("(rb_id=").size(self.rb_id).lit(", microservice_id=").lit(
            &self.microservice_id,
        ).lit(", server_idx=").size(pull.server_idx).lit(", target=").lit(
            &pull.target_microservice,
        ).done()
    }

    /// A downstream replica pulls a call.
    pub fn pull(&mut self, pull: ReplicaPull, audit: &mut Option<ApproxPullAudit>) -> (r:
        ReplicaPullReply)
        requires
            old(self).wf(),
            old(self)@.targets.dom().contains(pull.target_microservice@) ==> old(
                self,
            )@.targets[pull.target_microservice@].can_count() && pull.server_idx < old(
                self,
            )@.targets[pull.target_microservice@].inflight.len(),
        ensures
            final(self).wf(),
            !old(self)@.lb_policy.sends_intents() ==> r is Ignored && final(self)@ == old(self)@
                && *final(audit) == *old(audit),
            old(self)@.lb_policy.sends_intents() ==> match r {
                ReplicaPullReply::Ignored => false,
                ReplicaPullReply::Abort(text) => {
                    &&& final(self)@ == old(self)@
                    &&& *final(audit) == *old(audit)
                    &&& text@ == old(self)@.abort_text(pull.model())
                    &&& old(self)@.targets.dom().contains(pull.target_microservice@) ==> forall|
                        i: int,
                    | !#[trigger] old(self)@.pulled_at(pull.model(), i)
                },
                ReplicaPullReply::Dispatch { server, hop } => {
                    &&& old(self)@.targets.dom().contains(pull.target_microservice@)
                    &&& exists|i: int|
                        {
                            &&& #[trigger] old(self)@.pulled_at(pull.model(), i)
                            &&& final(self)@ == old(self)@.pulled(pull.model(), i)
                            &&& hop.model() == old(
                                self,
                            )@.targets[pull.target_microservice@].queue[i].hop.holding(
                                pull.target_microservice@,
                                pull.server_idx,
                            )
                        }
                    &&& server == pull.server_idx
                    &&& matched_trail(old(self)@, pull.model(), *old(audit), *final(audit))
                },
            },
    {
        if !self.lb_policy.uses_approx_protocol() {
            return ReplicaPullReply::Ignored;
        }
        let ghost start = self@;
        let ghost name = pull.target_microservice@;
        let ghost model = pull.model();
        let at: usize = match self.targets.find(&pull.target_microservice) {
            Some(at) => at,
            None => {
                let place = self.pull_place(&pull);
                return ReplicaPullReply::Abort(
                    Text::of("unknown outbound queue ").lit(&place).lit(", request_id=").num(
                        pull.request_id,
                    ).lit(")").done(),
                );
            },
        };
        assert(start.targets.dom().contains(name));
        assert(start.target_wf(start.targets[name]));
        let no_bind = self.approx_sched.is_some();
        let ghost target = start.targets[name];
        let slot = self.targets.value_mut(at);
        assert(slot.model() == target);
        let taken = slot.answer_pull(
            no_bind,
            pull.request_id,
            pull.intent_target_idx,
            pull.server_idx,
        );
        let ghost after = slot.model();
        let call = match taken {
            Some(call) => call,
            None => {
                assert(self@ =~= start);
                assert forall|i: int| !#[trigger] start.pulled_at(model, i) by {
                    assert(!takes_call(target.queue, no_bind, pull.request_id, i));
                }
                let text = self.abort_message(at, &pull);
                return ReplicaPullReply::Abort(text);
            },
        };
        let ghost i = choose|i: int| #[trigger]
            takes_call(target.queue, no_bind, pull.request_id, i) && call.model()
                == target.queue[i] && after == target.pulled(
                i,
                pull.intent_target_idx,
                pull.server_idx,
            );
        assert(start.pulled_at(model, i));
        if let Some(trail) = audit {
            trail.record_pull_matched(
                self.rb_id,
                &self.microservice_id,
                self.server_idx,
                &pull.target_microservice,
                pull.server_idx,
                pull.request_id,
            );
        }
        proof {
            assert(self@ =~= start.pulled(model, i));
            lemma_same_indices(start, self@);
        }
        let hop = hold_slot(call.hop, &pull.target_microservice, pull.server_idx);
        ReplicaPullReply::Dispatch { server: pull.server_idx, hop }
    }

    /// A call gives its slot back.
    pub fn release_outbound(&mut self, release: OutboundRelease)
        requires
            old(self).wf(),
        ensures
            final(self).wf(),
            final(self)@ == old(self)@.released(
                release.target_microservice@,
                release.target_server,
            ),
    {
        let ghost start = self@;
        let ghost name = release.target_microservice@;
        match self.targets.find(&release.target_microservice) {
            Some(at) => {
                let slot = self.targets.value_mut(at);
                let ghost had = slot.model();
                assert(had == start.targets[name]);
                if release.target_server < slot.inflight.len() {
                    let count: u32 = slot.inflight[release.target_server];
                    slot.inflight.set(release.target_server, count.saturating_sub(1));
                    assert(slot.model() =~= had.with_inflight(
                        release.target_server,
                        one_less(had.inflight[release.target_server as int]),
                    ));
                }
                proof {
                    if release.target_server >= had.inflight.len() {
                        assert(self@ =~= start);
                    } else {
                        assert(self@ =~= start.with_target(
                            name,
                            had.with_inflight(
                                release.target_server,
                                one_less(had.inflight[release.target_server as int]),
                            ),
                        ));
                    }
                    lemma_same_indices(start, self@);
                }
            },
            None => {},
        }
    }
}

/// What an edge balancer is made of.
#[verifier::ext_equal]
pub struct EdgeState {
    pub policy: AnyPolicy,
    pub api: Seq<char>,
    pub inflight: Seq<u32>,
    pub servers: Seq<usize>,
}

impl EdgeState {
    pub open spec fn wf(self) -> bool {
        &&& self.policy.wf()
        &&& forall|i: int|
            0 <= i < self.servers.len() ==> (#[trigger] self.servers[i]) < self.inflight.len()
    }

    pub open spec fn with_inflight(self, server: usize, count: u32) -> EdgeState {
        EdgeState { inflight: self.inflight.update(server as int, count), ..self }
    }

    /// The state once a request that entered by `server` is done.
    pub open spec fn released(self, server: usize) -> EdgeState {
        self.with_inflight(server, one_less(self.inflight[server as int]))
    }
}

/// `after` and `server` are what may become of an edge balancer that sends a request to a
/// server of the policy's choice, in a run whose generator goes from `from` to `to`.
pub open spec fn admits(
    before: EdgeState,
    pick: int,
    after: EdgeState,
    server: usize,
    from: Option<StdRng>,
    to: Option<StdRng>,
) -> bool {
    &&& 0 <= pick < before.servers.len()
    &&& server == before.servers[pick]
    &&& before.policy.may_select(
        loads_of(before.inflight, before.servers),
        from,
        pick,
        after.policy,
        to,
    )
    &&& after == (EdgeState {
        policy: after.policy,
        ..before.with_inflight(server, (before.inflight[server as int] + 1) as u32)
    })
}

/// The balancer through which the requests of one API enter.
pub struct EdgeBalancer {
    policy: AnyPolicy,
    api: String,
    local_inflight: Vec<u32>,
    server_indices: Vec<usize>,
}

impl View for EdgeBalancer {
    type V = EdgeState;

    closed spec fn view(&self) -> EdgeState {
        EdgeState {
            policy: self.policy,
            api: self.api@,
            inflight: self.local_inflight@,
            servers: self.server_indices@,
        }
    }
}

impl EdgeBalancer {
    pub open spec fn wf(&self) -> bool {
        self@.wf()
    }

    /// The servers that requests are sent to.
    pub fn server_indices(&self) -> (r: &Vec<usize>)
        ensures
            r@ == self@.servers,
    {
        &self.server_indices
    }

    pub fn new(policy: AnyPolicy, api: String, n_servers: usize, server_indices: Vec<usize>) -> (r:
        EdgeBalancer)
        requires
            policy.wf(),
            forall|i: int|
                0 <= i < server_indices@.len() ==> (#[trigger] server_indices@[i]) < n_servers,
        ensures
            r.wf(),
            r@ == (EdgeState {
                policy,
                api: api@,
                inflight: Seq::new(n_servers as nat, |i: int| 0u32),
                servers: server_indices@,
            }),
    {
        EdgeBalancer { policy, api, local_inflight: zeros(n_servers), server_indices }
    }

    /// A request enters. Returns the server that it goes to.
    pub fn input(&mut self, rng: &mut RunRng) -> (server: usize)
        requires
            old(self).wf(),
            old(self)@.servers.len() > 0,
            forall|i: int|
                0 <= i < old(self)@.inflight.len() ==> (#[trigger] old(self)@.inflight[i])
                    < u32::MAX,
        ensures
            final(self).wf(),
            exists|pick: int| #[trigger]
                admits(
                    old(self)@,
                    pick,
                    final(self)@,
                    server,
                    old(rng).generator(),
                    final(rng).generator(),
                ),
    {
        let ghost start = self@;
        let loads = gather(&self.local_inflight, &self.server_indices);
        let picked: usize = self.policy.select(loads.as_slice(), rng);
        let server: usize = self.server_indices[picked];
        assert(start.servers[picked as int] == server);
        let count: u32 = self.local_inflight[server];
        self.local_inflight.set(server, count + 1);
        assert(admits(
            start,
            picked as int,
            self@,
            server,
            old(rng).generator(),
            rng.generator(),
        ));
        server
    }

    /// A request that entered through `server_idx` is done.
    pub fn release(&mut self, server_idx: usize)
        requires
            old(self).wf(),
            server_idx < old(self)@.inflight.len(),
        ensures
            final(self).wf(),
            final(self)@ == old(self)@.released(server_idx),
    {
        let count: u32 = self.local_inflight[server_idx];
        self.local_inflight.set(server_idx, count.saturating_sub(1));
    }
}

/// A request that is done gives back what it took when it entered.
pub proof fn law_edge_release_undoes_entry(
    before: EdgeState,
    pick: int,
    after: EdgeState,
    server: usize,
    from: Option<StdRng>,
    to: Option<StdRng>,
)
    requires
        before.wf(),
        admits(before, pick, after, server, from, to),
        before.inflight[server as int] < u32::MAX,
    ensures
        after.released(server) == (EdgeState { policy: after.policy, ..before }),
{
    assert(before.servers[pick] < before.inflight.len());
    assert(after.inflight.update(server as int, before.inflight[server as int])
        =~= before.inflight);
}

impl RbState {
    /// The intents for `target` that were announced and not answered belong to the calls
    /// that wait: by request where a pull takes the call it names, by number where it takes
    /// any.
    pub open spec fn announced(self, target: Seq<char>, outstanding: Multiset<u64>) -> bool {
        if self.approx_sched is None {
            call_ids(self.targets[target].queue).to_multiset() == outstanding
        } else {
            self.targets[target].queue.len() == outstanding.len()
        }
    }
}

/// Outstanding intents and waiting calls stay matched: a call that is announced adds one of
/// each, a pull that answers an outstanding intent always finds a call, and takes one of
/// each away. Calls to other targets do not matter.
pub proof fn law_announced_call_can_be_pulled(
    state: RbState,
    target: Seq<char>,
    outstanding: Multiset<u64>,
    call: CallModel,
    pull: PullModel,
)
    requires
        state.targets.dom().contains(target),
        state.targets.dom().contains(call.target_microservice),
        state.targets.dom().contains(pull.target_microservice),
        state.announced(target, outstanding),
    ensures
        state.with_queued(call).announced(
            target,
            if call.target_microservice == target {
                outstanding.insert(call.hop.request_id)
            } else {
                outstanding
            },
        ),
        pull.target_microservice == target && outstanding.count(pull.request_id) > 0 ==> exists|
            i: int,
        | #[trigger] state.pulled_at(pull, i),
        pull.target_microservice == target && outstanding.count(pull.request_id) > 0 ==> forall|
            i: int,
        | #[trigger]
            state.pulled_at(pull, i) ==> state.pulled(pull, i).announced(
                target,
                outstanding.remove(pull.request_id),
            ),
        pull.target_microservice != target ==> forall|i: int| #[trigger]
            state.pulled_at(pull, i) ==> state.pulled(pull, i).announced(target, outstanding),
{
    broadcast use vstd::seq_lib::group_to_multiset_ensures;

    let queue = state.targets[target].queue;
    let ids = call_ids(queue);
    if call.target_microservice == target {
        let by_deadline = state.approx_sched matches Some(sched) && (sched is Edf
            || sched is EdfPlus);
        let deadlines = call_deadlines(queue);
        lemma_edf_in_range(deadlines, call.hop.deadline, 0);
        let at = if by_deadline {
            edf_position(deadlines, call.hop.deadline)
        } else {
            queue.len() as int
        };
        let after = state.with_queued(call).targets[target].queue;
        assert(after == queue.insert(at, call));
        assert(call_ids(after) =~= ids.insert(at, call.hop.request_id));
        vstd::seq_lib::to_multiset_insert(ids, at, call.hop.request_id);
    }
    let id = pull.request_id;
    if pull.target_microservice == target && outstanding.count(id) > 0 {
        assert(outstanding.remove(id).insert(id) =~= outstanding);
        if state.approx_sched is None {
            assert(ids.contains(id));
            let at = ids.index_of(id);
            assert(queue[at].hop.request_id == id);
            lemma_first_call(queue, id, at);
            let i = choose|i: int| #[trigger] first_call(queue, id, i);
            assert(state.pulled_at(pull, i));
        } else {
            assert(state.pulled_at(pull, 0));
        }
        assert forall|i: int| #[trigger] state.pulled_at(pull, i) implies state.pulled(
            pull,
            i,
        ).announced(target, outstanding.remove(id)) by {
            let after = state.pulled(pull, i).targets[target].queue;
            assert(after == queue.remove(i));
            if state.approx_sched is None {
                assert(ids[i] == id);
                assert(call_ids(after) =~= ids.remove(i));
            }
        }
    }
}

proof fn lemma_first_call(queue: Seq<CallModel>, request: u64, at: int)
    requires
        0 <= at < queue.len(),
        queue[at].hop.request_id == request,
    ensures
        exists|i: int| #[trigger] first_call(queue, request, i),
    decreases at,
{
    if forall|j: int| 0 <= j < at ==> (#[trigger] queue[j]).hop.request_id != request {
        assert(first_call(queue, request, at));
    } else {
        let j = choose|j: int| 0 <= j < at && (#[trigger] queue[j]).hop.request_id == request;
        lemma_first_call(queue, request, j);
    }
}

impl RbState {
    /// The same balancer, with the same picks to come from one generator.
    pub open spec fn agrees(self, other: RbState) -> bool {
        &&& self.policy.alike(other.policy)
        &&& self == (RbState { policy: self.policy, ..other })
    }
}

impl EdgeState {
    /// The same balancer, with the same picks to come from one generator.
    pub open spec fn agrees(self, other: EdgeState) -> bool {
        &&& self.policy.alike(other.policy)
        &&& self == (EdgeState { policy: self.policy, ..other })
    }
}

/// The balancers of a replica that agree and make a call in runs with one generator send or
/// announce it at one place, agree afterwards, and leave one generator.
pub proof fn law_one_generator_calls_alike(
    a: RbState,
    b: RbState,
    call: CallModel,
    generator: StdRng,
    i: int,
    after_a: RbState,
    place_a: usize,
    to_a: Option<StdRng>,
    j: int,
    after_b: RbState,
    place_b: usize,
    to_b: Option<StdRng>,
)
    requires
        a.agrees(b),
    ensures
        pushes_call(a, call, i, after_a, place_a, Some(generator), to_a) && pushes_call(
            b,
            call,
            j,
            after_b,
            place_b,
            Some(generator),
            to_b,
        ) ==> place_a == place_b && after_a.agrees(after_b) && to_a == to_b,
        announces_call(a, call, i, after_a, place_a, Some(generator), to_a) && announces_call(
            b,
            call,
            j,
            after_b,
            place_b,
            Some(generator),
            to_b,
        ) ==> place_a == place_b && after_a.agrees(after_b) && to_a == to_b,
{
    let target = a.targets[call.target_microservice];
    if pushes_call(a, call, i, after_a, place_a, Some(generator), to_a) && pushes_call(
        b,
        call,
        j,
        after_b,
        place_b,
        Some(generator),
        to_b,
    ) {
        law_one_generator_picks_alike(
            a.policy,
            b.policy,
            loads_of(target.inflight, target.indices),
            generator,
            i,
            after_a.policy,
            to_a,
            j,
            after_b.policy,
            to_b,
        );
    }
    if announces_call(a, call, i, after_a, place_a, Some(generator), to_a) && announces_call(
        b,
        call,
        j,
        after_b,
        place_b,
        Some(generator),
        to_b,
    ) {
        law_one_generator_picks_alike(
            a.policy,
            b.policy,
            loads_of(target.intent_load, target.indices),
            generator,
            i,
            after_a.policy,
            to_a,
            j,
            after_b.policy,
            to_b,
        );
    }
}

/// Edge balancers that agree let a request enter by one server in runs with one generator,
/// agree afterwards, and leave one generator.
pub proof fn law_one_generator_admits_alike(
    a: EdgeState,
    b: EdgeState,
    generator: StdRng,
    i: int,
    after_a: EdgeState,
    server_a: usize,
    to_a: Option<StdRng>,
    j: int,
    after_b: EdgeState,
    server_b: usize,
    to_b: Option<StdRng>,
)
    requires
        a.agrees(b),
        admits(a, i, after_a, server_a, Some(generator), to_a),
        admits(b, j, after_b, server_b, Some(generator), to_b),
    ensures
        server_a == server_b,
        after_a.agrees(after_b),
        to_a == to_b,
{
    law_one_generator_picks_alike(
        a.policy,
        b.policy,
        loads_of(a.inflight, a.servers),
        generator,
        i,
        after_a.policy,
        to_a,
        j,
        after_b.policy,
        to_b,
    );
}

/// A queue of calls without deadlines keeps the order of arrival: a new call goes behind all
/// others. With deadlines it goes behind every call that is due no later and before the first
/// that is due later. Either way the calls before it stay in their order.
pub proof fn law_calls_queue_in_order(queue: Seq<CallModel>, call: CallModel)
    ensures
        with_call(queue, call, false).len() == queue.len() + 1,
        with_call(queue, call, false).last() == call,
        forall|i: int|
            0 <= i < queue.len() ==> with_call(queue, call, false)[i] == #[trigger] queue[i],
        exists|at: int|
            {
                &&& 0 <= at <= queue.len()
                &&& with_call(queue, call, true) == #[trigger] queue.insert(at, call)
                &&& forall|i: int|
                    0 <= i < at ==> (#[trigger] queue[i]).hop.deadline <= call.hop.deadline
                &&& at < queue.len() ==> queue[at].hop.deadline > call.hop.deadline
            },
{
    let deadlines = call_deadlines(queue);
    let at = edf_position(deadlines, call.hop.deadline);
    crate::scheduling::law_equal_deadlines_keep_their_order(deadlines, call.hop.deadline);
    assert(with_call(queue, call, true) == queue.insert(at, call));
    assert forall|i: int| 0 <= i < at implies (#[trigger] queue[i]).hop.deadline
        <= call.hop.deadline by {
        assert(deadlines[i] == queue[i].hop.deadline);
    }
    if at < queue.len() {
        assert(deadlines[at] == queue[at].hop.deadline);
    }
}

/// A call that a replica announces waits in the queue of its target: behind all others where
/// pulls take the call that was announced or the one that came first, and by its deadline
/// where they take the most urgent one. The queues of other targets stay as they are.
pub proof fn law_announced_calls_wait_by_discipline(state: RbState, call: CallModel, other: Seq<char>)
    requires
        state.targets.dom().contains(call.target_microservice),
    ensures
        ({
            let name = call.target_microservice;
            let before = state.targets[name];
            let after = state.with_queued(call).targets[name];
            &&& state.approx_sched is None || state.approx_sched == Some(ApproxSchedKind::Fcfs) ==> {
                &&& after.queue.len() == before.queue.len() + 1
                &&& after.queue.last() == call
                &&& forall|i: int|
                    0 <= i < before.queue.len() ==> after.queue[i] == #[trigger] before.queue[i]
            }
            &&& state.approx_sched == Some(ApproxSchedKind::Edf) || state.approx_sched == Some(
                ApproxSchedKind::EdfPlus,
            ) ==> exists|at: int|
                {
                    &&& 0 <= at <= before.queue.len()
                    &&& after.queue == #[trigger] before.queue.insert(at, call)
                    &&& forall|i: int|
                        0 <= i < at ==> (#[trigger] before.queue[i]).hop.deadline
                            <= call.hop.deadline
                    &&& at < before.queue.len() ==> before.queue[at].hop.deadline
                        > call.hop.deadline
                }
            &&& after.inflight == before.inflight
            &&& after.intent_load == before.intent_load
        }),
        other != call.target_microservice && state.targets.dom().contains(other)
            ==> state.with_queued(call).targets[other] == state.targets[other],
{
    law_calls_queue_in_order(state.targets[call.target_microservice].queue, call);
}

/// A pull takes the first call of its target's queue, or, where calls are bound to their
/// intents, the first of the very request that it names. The other calls keep their order. The
/// server that pulls has one call more, and at the place that was told one intent less is
/// outstanding. Other targets are not touched.
pub proof fn law_pull_takes_the_first_or_the_named(
    state: RbState,
    pull: PullModel,
    i: int,
    j: int,
    other: Seq<char>,
)
    requires
        state.targets.dom().contains(pull.target_microservice),
        state.targets[pull.target_microservice].can_count(),
        pull.server_idx < state.targets[pull.target_microservice].inflight.len(),
        state.pulled_at(pull, i),
    ensures
        ({
            let before = state.targets[pull.target_microservice];
            let after = state.pulled(pull, i).targets[pull.target_microservice];
            let place = pull.intent_target_idx as int;
            &&& 0 <= i < before.queue.len()
            &&& state.approx_sched is Some ==> i == 0
            &&& state.approx_sched is None ==> before.queue[i].hop.request_id == pull.request_id
            &&& state.approx_sched is None && 0 <= j < i ==> before.queue[j].hop.request_id
                != pull.request_id
            &&& after.queue.len() == before.queue.len() - 1
            &&& 0 <= j < i ==> after.queue[j] == before.queue[j]
            &&& i <= j < after.queue.len() ==> after.queue[j] == before.queue[j + 1]
            &&& after.inflight[pull.server_idx as int] == before.inflight[pull.server_idx as int] + 1
            &&& 0 <= j < before.inflight.len() && j != pull.server_idx ==> after.inflight[j]
                == before.inflight[j]
            &&& place < before.intent_load.len() && before.intent_load[place] > 0
                ==> after.intent_load[place] == before.intent_load[place] - 1
            &&& 0 <= j < before.intent_load.len() && j != place ==> after.intent_load[j]
                == before.intent_load[j]
            &&& after.indices == before.indices
        }),
        other != pull.target_microservice && state.targets.dom().contains(other) ==> state.pulled(
            pull,
            i,
        ).targets[other] == state.targets[other],
{
}

/// A call that a replica makes goes to one of the servers that it may pick from, and is
/// counted there and nowhere else. With least request none of those servers has fewer calls of
/// this replica; with the power of two choices none of the two that were drawn has.
pub proof fn law_made_call_goes_to_a_light_server(
    before: RbState,
    call: CallModel,
    pick: int,
    after: RbState,
    server: usize,
    from: Option<StdRng>,
    to: Option<StdRng>,
    other: Seq<char>,
    j: int,
)
    requires
        before.targets.dom().contains(call.target_microservice),
        before.targets[call.target_microservice].can_count(),
        before.targets[call.target_microservice].indices.len() <= usize::MAX,
        forall|i: int|
            0 <= i < before.targets[call.target_microservice].indices.len() ==> (
            #[trigger] before.targets[call.target_microservice].indices[i])
                < before.targets[call.target_microservice].inflight.len(),
        pushes_call(before, call, pick, after, server, from, to),
    ensures
        ({
            let had = before.targets[call.target_microservice];
            let has = after.targets[call.target_microservice];
            &&& had.indices.contains(server)
            &&& has.inflight[server as int] == had.inflight[server as int] + 1
            &&& 0 <= j < had.inflight.len() && j != server ==> has.inflight[j] == had.inflight[j]
            &&& has.queue == had.queue
            &&& before.policy is LeastRequest && 0 <= j < had.indices.len()
                ==> had.inflight[server as int] <= had.inflight[had.indices[j] as int]
            &&& before.policy is PowerOfTwo ==> exists|a: int, b: int|
                {
                    &&& 0 <= a < had.indices.len()
                    &&& 0 <= b < had.indices.len()
                    &&& server == had.indices[a] || server == had.indices[b]
                    &&& had.inflight[server as int] <= had.inflight[#[trigger] had.indices[a] as int]
                    &&& had.inflight[server as int] <= had.inflight[#[trigger] had.indices[b] as int]
                }
        }),
        other != call.target_microservice && before.targets.dom().contains(other)
            ==> after.targets[other] == before.targets[other],
{
    let had = before.targets[call.target_microservice];
    crate::load_balancer::lemma_pick_respects_counts(
        before.policy,
        had.inflight,
        had.indices,
        from,
        pick,
        after.policy,
        to,
    );
    assert(had.indices[pick] == server);
    if before.policy is PowerOfTwo {
        let (a, b) = choose|a: int, b: int|
            {
                &&& 0 <= a < had.indices.len()
                &&& 0 <= b < had.indices.len()
                &&& pick == a || pick == b
                &&& had.inflight[had.indices[pick] as int]
                    <= had.inflight[#[trigger] had.indices[a] as int]
                &&& had.inflight[had.indices[pick] as int]
                    <= had.inflight[#[trigger] had.indices[b] as int]
            };
        assert(server == had.indices[a] || server == had.indices[b]);
    }
}

/// A call is announced at one of the places that the replica may pick from, and counted there
/// as one intent more. With least request none of those places has fewer intents outstanding.
pub proof fn law_announcement_goes_to_a_light_place(
    queued: RbState,
    call: CallModel,
    pick: int,
    after: RbState,
    place: usize,
    from: Option<StdRng>,
    to: Option<StdRng>,
    j: int,
)
    requires
        queued.targets.dom().contains(call.target_microservice),
        queued.targets[call.target_microservice].can_count(),
        queued.targets[call.target_microservice].indices.len() <= usize::MAX,
        forall|i: int|
            0 <= i < queued.targets[call.target_microservice].indices.len() ==> (
            #[trigger] queued.targets[call.target_microservice].indices[i])
                < queued.targets[call.target_microservice].intent_load.len(),
        announces_call(queued, call, pick, after, place, from, to),
    ensures
        ({
            let had = queued.targets[call.target_microservice];
            let has = after.targets[call.target_microservice];
            &&& had.indices.contains(place)
            &&& has.intent_load[place as int] == had.intent_load[place as int] + 1
            &&& 0 <= j < had.intent_load.len() && j != place ==> has.intent_load[j]
                == had.intent_load[j]
            &&& has.queue == had.queue
            &&& has.inflight == had.inflight
            &&& queued.policy is LeastRequest && 0 <= j < had.indices.len()
                ==> had.intent_load[place as int] <= had.intent_load[had.indices[j] as int]
            &&& queued.policy is PowerOfTwo ==> exists|a: int, b: int|
                {
                    &&& 0 <= a < had.indices.len()
                    &&& 0 <= b < had.indices.len()
                    &&& place == had.indices[a] || place == had.indices[b]
                    &&& had.intent_load[place as int]
                        <= had.intent_load[#[trigger] had.indices[a] as int]
                    &&& had.intent_load[place as int]
                        <= had.intent_load[#[trigger] had.indices[b] as int]
                }
        }),
{
    let had = queued.targets[call.target_microservice];
    crate::load_balancer::lemma_pick_respects_counts(
        queued.policy,
        had.intent_load,
        had.indices,
        from,
        pick,
        after.policy,
        to,
    );
    assert(had.indices[pick] == place);
    if queued.policy is PowerOfTwo {
        let (a, b) = choose|a: int, b: int|
            {
                &&& 0 <= a < had.indices.len()
                &&& 0 <= b < had.indices.len()
                &&& pick == a || pick == b
                &&& had.intent_load[had.indices[pick] as int]
                    <= had.intent_load[#[trigger] had.indices[a] as int]
                &&& had.intent_load[had.indices[pick] as int]
                    <= had.intent_load[#[trigger] had.indices[b] as int]
            };
        assert(place == had.indices[a] || place == had.indices[b]);
    }
}

/// A request enters by one of the servers of its entry, which has one request more from then
/// on, and no other has. With least request no server of the entry has fewer; with the power
/// of two choices none of the two that were drawn has.
pub proof fn law_request_enters_by_a_light_server(
    before: EdgeState,
    pick: int,
    after: EdgeState,
    server: usize,
    from: Option<StdRng>,
    to: Option<StdRng>,
    j: int,
)
    requires
        before.wf(),
        before.servers.len() <= usize::MAX,
        before.inflight[server as int] < u32::MAX,
        admits(before, pick, after, server, from, to),
    ensures
        before.servers.contains(server),
        after.inflight[server as int] == before.inflight[server as int] + 1,
        0 <= j < before.inflight.len() && j != server ==> after.inflight[j] == before.inflight[j],
        before.policy is LeastRequest && 0 <= j < before.servers.len()
            ==> before.inflight[server as int] <= before.inflight[before.servers[j] as int],
        before.policy is PowerOfTwo ==> exists|a: int, b: int|
            {
                &&& 0 <= a < before.servers.len()
                &&& 0 <= b < before.servers.len()
                &&& server == before.servers[a] || server == before.servers[b]
                &&& before.inflight[server as int]
                    <= before.inflight[#[trigger] before.servers[a] as int]
                &&& before.inflight[server as int]
                    <= before.inflight[#[trigger] before.servers[b] as int]
            },
{
    crate::load_balancer::lemma_pick_respects_counts(
        before.policy,
        before.inflight,
        before.servers,
        from,
        pick,
        after.policy,
        to,
    );
    assert(before.servers[pick] == server);
    assert(before.servers[pick] < before.inflight.len());
    if before.policy is PowerOfTwo {
        let (a, b) = choose|a: int, b: int|
            {
                &&& 0 <= a < before.servers.len()
                &&& 0 <= b < before.servers.len()
                &&& pick == a || pick == b
                &&& before.inflight[before.servers[pick] as int]
                    <= before.inflight[#[trigger] before.servers[a] as int]
                &&& before.inflight[before.servers[pick] as int]
                    <= before.inflight[#[trigger] before.servers[b] as int]
            };
        assert(server == before.servers[a] || server == before.servers[b]);
    }
}

/// A call that is sent remembers where it was sent: one that holds a slot until its work is
/// done names the slot itself, and of any other its caller knows the server. Nothing else of
/// the request changes.
pub proof fn law_sent_call_remembers_its_server(hop: HopModel, target: Seq<char>, server: usize)
    ensures
        hop.holding(target, server).slot_release matches Some(slot) && slot.target_microservice
            == target && slot.target_server == server && slot.response_time_ms == 0,
        hop.holding(target, server).caller == hop.caller,
        hop.holding(target, server).endpoint == hop.endpoint,
        hop.holding(target, server).request_id == hop.request_id,
        hop.holding(target, server).deadline == hop.deadline,
        hop.holding(target, server).processing_time == hop.processing_time,
        hop.pushed(target, server).slot_release == hop.slot_release,
        hop.pushed(target, server).endpoint == hop.endpoint,
        hop.pushed(target, server).request_id == hop.request_id,
        hop.pushed(target, server).deadline == hop.deadline,
        hop.pushed(target, server).processing_time == hop.processing_time,
        hop.caller is None ==> hop.pushed(target, server).caller is None,
        hop.caller matches Some(before) ==> {
            &&& hop.pushed(target, server).caller is Some
            &&& ({
                let after = hop.pushed(target, server).caller->0;
                &&& after.outbound_target_microservice == target
                &&& after.outbound_target_server == server
                &&& after.microservice == before.microservice && after.server == before.server
                &&& after.resume_endpoint == before.resume_endpoint
                &&& after.resume_sibling_index == before.resume_sibling_index
                &&& after.resume_caller == before.resume_caller
            })
        },
{
}

/// A call that is over takes one call away at its own server and target, as long as one is
/// counted there, and changes nothing anywhere else. The same holds of a request that is done
/// at the entry.
pub proof fn law_release_takes_one_call_away(
    state: RbState,
    name: Seq<char>,
    server: usize,
    other: Seq<char>,
    j: int,
    edge: EdgeState,
)
    ensures
        state.targets.dom().contains(name) && server < state.targets[name].inflight.len() ==> {
            let before = state.targets[name];
            let after = state.released(name, server).targets[name];
            &&& before.inflight[server as int] > 0 ==> after.inflight[server as int]
                == before.inflight[server as int] - 1
            &&& before.inflight[server as int] == 0 ==> after.inflight[server as int] == 0
            &&& 0 <= j < before.inflight.len() && j != server ==> after.inflight[j]
                == before.inflight[j]
            &&& after.queue == before.queue
            &&& after.intent_load == before.intent_load
        },
        !state.targets.dom().contains(name) || server >= state.targets[name].inflight.len()
            ==> state.released(name, server) == state,
        other != name && state.targets.dom().contains(other) ==> state.released(
            name,
            server,
        ).targets[other] == state.targets[other],
        server < edge.inflight.len() && edge.inflight[server as int] > 0 ==> edge.released(
            server,
        ).inflight[server as int] == edge.inflight[server as int] - 1,
        server < edge.inflight.len() && 0 <= j < edge.inflight.len() && j != server
            ==> edge.released(server).inflight[j] == edge.inflight[j],
{
}

/// An intent says who announces which request, and when that is due.
pub proof fn law_intent_names_its_call(state: RbState, call: CallModel)
    ensures
        state.intent_for(call).sender_id == state.rb_id,
        state.intent_for(call).request_id == call.hop.request_id,
        state.intent_for(call).deadline == call.hop.deadline,
{
}

} // verus!
