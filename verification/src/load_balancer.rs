//! A balancer of the `lb` simulator: pushes each task to a server that its policy picks,
//! or queues tasks for servers to pull.
//!
//! A method returns what is to be sent: tasks, pull intents, probes.

use crate::approx::{PullIntent, PullRequest};
use crate::lb_pull_audit::{
    bound_event_fault, bound_queue, event_fault, no_bind_event_fault, task_queue, LbPullAudit,
    LbPullEventKind,
};
use crate::policy::{
    law_one_generator_picks_alike, AnyPolicy, ApproxSchedKind, LoadBalancePolicy,
    LoadBalancePolicyKind,
};
use crate::prequal::{
    apply_r_remove, candidate_at, draws_probes, is_best, pool_cap, pooled, sample_probe_targets, unpooled,
    is_worst, lemma_worst_exists, without_worst, worst, Candidate, CandidatePool, ProbeReply,
    B_REUSE, R_PROBE,
};
use crate::queues::take_front;
use crate::rng::{draws_index, random_usize_range, RunRng};
use crate::server::{recorded, Task};
use crate::text::{decimal, joined_ids, maybe, Text};
use rand::rngs::StdRng;
use vstd::multiset::Multiset;
use std::collections::VecDeque;
use vstd::prelude::*;

verus! {

/// What a balancer is made of.
pub struct LbState {
    pub policy: AnyPolicy,
    pub lb_policy: LoadBalancePolicyKind,
    pub lb_id: usize,
    /// Tasks sent to each server and not released yet.
    pub inflight: Seq<u32>,
    /// The servers this balancer picks from.
    pub servers: Seq<usize>,
    pub queue: Seq<Task>,
    /// Servers that asked for a task when there was none.
    pub waiting: Seq<usize>,
    /// Intents sent to each server and not answered yet.
    pub intent_load: Seq<u32>,
    pub next_task_id: u64,
    pub preserve_client_metadata: bool,
    pub approx_sched: Option<ApproxSchedKind>,
    /// Servers that answered a probe, with what they reported.
    pub pool: Seq<Candidate>,
    pub pool_cap: nat,
    pub n_servers: usize,
}

/// A task to be sent to a server.
#[derive(Clone, Copy, Debug, PartialEq, Eq, Structural)]
pub struct Dispatch {
    pub server_idx: usize,
    pub task: Task,
}

/// A pull intent to be sent to a server.
#[derive(Clone, Copy, Debug, PartialEq, Eq, Structural)]
pub struct IntentDispatch {
    pub server_idx: usize,
    pub intent: PullIntent,
}

/// What a balancer sends for one task that it received.
#[derive(Clone, Debug)]
pub struct LbOutput {
    pub dispatches: Vec<Dispatch>,
    pub intent: Option<IntentDispatch>,
    /// Servers to probe.
    pub probes: Vec<usize>,
    /// How many candidates were removed from the pool first.
    pub removed: usize,
}

impl LbOutput {
    /// The output of a balancer that does not probe.
    pub open spec fn probes_nothing(self) -> bool {
        self.probes@.len() == 0 && self.removed == 0
    }
}

/// What a probing balancer sends for one task that it received.
#[derive(Clone, Debug)]
struct PrequalOutput {
    pub dispatch: Option<Dispatch>,
    /// Servers to probe.
    pub probes: Vec<usize>,
    /// How many candidates were removed from the pool first.
    pub removed: usize,
}

/// The answer to a pull.
#[derive(Clone, Debug)]
pub enum PullOutcome {
    Dispatch(Dispatch),
    /// No task is queued; the server waits.
    Wait,
    /// The pull cannot be answered; the run ends with this message.
    Abort(String),
}

/// The counts of `servers`, in their order.
pub open spec fn loads_of(counts: Seq<u32>, servers: Seq<usize>) -> Seq<u32> {
    Seq::new(servers.len(), |i: int| counts[servers[i] as int])
}

/// The task with `id` is at `i`, and none with `id` before it.
pub open spec fn first_with_id(queue: Seq<Task>, id: u64, i: int) -> bool {
    &&& 0 <= i < queue.len()
    &&& queue[i].task_id == id
    &&& forall|j: int| 0 <= j < i ==> (#[trigger] queue[j]).task_id != id
}

/// The ids of `queue`, in order.
pub open spec fn ids_of(queue: Seq<Task>) -> Seq<u64> {
    queue.map_values(|task: Task| task.task_id)
}

/// One less, but not below 0.
pub open spec fn one_less(n: u32) -> u32 {
    if n == 0 {
        0
    } else {
        (n - 1) as u32
    }
}

impl LbState {
    /// A balancer that has seen nothing yet.
    pub open spec fn is_new(
        self,
        lb_policy: LoadBalancePolicyKind,
        n_servers: usize,
        servers: Seq<usize>,
        lb_id: usize,
        preserve_client_metadata: bool,
        approx_sched: Option<ApproxSchedKind>,
    ) -> bool {
        &&& self == (LbState {
            policy: self.policy,
            lb_policy,
            lb_id,
            inflight: Seq::new(n_servers as nat, |i: int| 0u32),
            servers,
            queue: Seq::empty(),
            waiting: Seq::empty(),
            intent_load: Seq::new(n_servers as nat, |i: int| 0u32),
            next_task_id: 0,
            preserve_client_metadata,
            approx_sched,
            pool: Seq::empty(),
            pool_cap: self.pool_cap,
            n_servers,
        })
        &&& n_servers == 0 ==> self.pool_cap == 1
        &&& n_servers > 0 ==> self.pool_cap >= 1 && 4 * (self.pool_cap - 1) < n_servers <= 4
            * self.pool_cap
    }

    /// The servers it picks from exist, and the counts cover every server.
    pub open spec fn wf(self) -> bool {
        &&& self.policy.wf()
        &&& self.policy.accepts(self.servers.len())
        &&& self.inflight.len() == self.n_servers
        &&& self.intent_load.len() == self.n_servers
        &&& forall|i: int| 0 <= i < self.servers.len() ==> (#[trigger] self.servers[i]) < self.n_servers
        &&& forall|i: int| 0 <= i < self.waiting.len() ==> (#[trigger] self.waiting[i]) < self.n_servers
        &&& forall|i: int|
            0 <= i < self.pool.len() ==> (#[trigger] self.pool[i]).server_idx < self.n_servers
    }

    /// No counter is at its limit.
    pub open spec fn can_count(self) -> bool {
        &&& self.next_task_id < u64::MAX
        &&& forall|i: int| 0 <= i < self.inflight.len() ==> (#[trigger] self.inflight[i]) < u32::MAX
        &&& forall|i: int|
            0 <= i < self.intent_load.len() ==> (#[trigger] self.intent_load[i]) < u32::MAX
    }

    /// `task` as it is sent to `server`: marked with this balancer, unless it passes
    /// tasks of other balancers on.
    pub open spec fn stamped(self, server: usize, task: Task) -> Task {
        if self.preserve_client_metadata {
            task
        } else {
            Task { lb_id: self.lb_id, origin_server_idx: server, ..task }
        }
    }

    /// What is sent when `task` goes to `server`.
    pub open spec fn dispatch(self, server: usize, task: Task) -> Dispatch {
        Dispatch { server_idx: server, task: self.stamped(server, task) }
    }

    /// The state with one more task at `server`.
    pub open spec fn sent_to(self, server: usize) -> LbState {
        LbState {
            inflight: self.inflight.update(
                server as int,
                (self.inflight[server as int] + 1) as u32,
            ),
            ..self
        }
    }

    /// The state with `task` at the end of the queue.
    pub open spec fn with_queued(self, task: Task) -> LbState {
        LbState { queue: self.queue.push(task), ..self }
    }

    /// The state without the task at `i` of the queue.
    pub open spec fn without_queued(self, i: int) -> LbState {
        LbState { queue: self.queue.remove(i), ..self }
    }

    /// The state with one task fewer at `server`.
    pub open spec fn released(self, server: usize) -> LbState {
        LbState {
            inflight: self.inflight.update(
                server as int,
                one_less(self.inflight[server as int]),
            ),
            ..self
        }
    }

    /// The state with one intent fewer at `server`.
    pub open spec fn intent_answered(self, server: usize) -> LbState {
        LbState {
            intent_load: self.intent_load.update(
                server as int,
                one_less(self.intent_load[server as int]),
            ),
            ..self
        }
    }

    /// `task` with the next id.
    pub open spec fn numbered(self, task: Task) -> Task {
        Task { task_id: self.next_task_id, ..task }
    }

    /// The state once a numbered task was queued.
    pub open spec fn with_numbered(self, task: Task) -> LbState {
        LbState {
            queue: self.queue.push(self.numbered(task)),
            next_task_id: (self.next_task_id + 1) as u64,
            ..self
        }
    }

    /// The state once the policy picked `pick` for an intent.
    pub open spec fn intent_sent(self, pick: int, policy: AnyPolicy) -> LbState {
        let server = self.servers[pick];
        LbState {
            policy,
            intent_load: self.intent_load.update(
                server as int,
                (self.intent_load[server as int] + 1) as u32,
            ),
            ..self
        }
    }

    /// Queued tasks and waiting servers, paired off from the front.
    pub open spec fn paired(self) -> nat {
        if self.waiting.len() <= self.queue.len() {
            self.waiting.len()
        } else {
            self.queue.len()
        }
    }

    /// The state once `k` waiting servers got a queued task each.
    pub open spec fn served_waiting(self, k: nat) -> LbState
        decreases k,
    {
        if k == 0 {
            self
        } else {
            let before = self.served_waiting((k - 1) as nat);
            LbState {
                waiting: before.waiting.remove(0),
                queue: before.queue.remove(0),
                ..before.sent_to(before.waiting[0])
            }
        }
    }

    /// The task that a pull gets when it takes the oldest one, or the one it names.
    pub open spec fn pulled_at(self, request_id: Option<u64>, i: int) -> bool {
        if self.lb_policy is Approx && self.approx_sched is None {
            request_id matches Some(id) && first_with_id(self.queue, id, i)
        } else {
            i == 0 && self.queue.len() > 0
        }
    }

    /// The state once `server` waits for a task.
    pub open spec fn with_waiting(self, server: usize) -> LbState {
        LbState { waiting: self.waiting.push(server), ..self }
    }

    /// A pull gets a task.
    pub open spec fn can_pull(self, request_id: Option<u64>) -> bool {
        exists|i: int| self.pulled_at(request_id, i)
    }

    /// The state once the task at `i` was pulled by `server`.
    pub open spec fn pulled(self, server: usize, i: int) -> LbState {
        if self.lb_policy is Approx {
            self.without_queued(i).intent_answered(server).sent_to(server)
        } else {
            self.without_queued(i).sent_to(server)
        }
    }

    /// The trace event of queueing the next task.
    pub open spec fn enqueue_event(self) -> LbPullEventKind {
        LbPullEventKind::TaskEnqueued {
            lb_id: self.lb_id,
            task_id: self.next_task_id,
            queue_len_before: self.queue.len() as usize,
        }
    }

    /// The trace event of pulling the task at `i`.
    pub open spec fn pull_event(self, pull: PullRequest, i: int) -> LbPullEventKind {
        LbPullEventKind::PullFulfilled {
            lb_id: self.lb_id,
            server_idx: pull.server_idx,
            intent_request_id: pull.request_id,
            pulled_task_id: self.queue[i].task_id,
            queue_len_before: self.queue.len() as usize,
            queue_head_task_id: Some(self.queue[0].task_id),
        }
    }

    /// Why a pull of the pull-intent protocol cannot be answered.
    pub open spec fn abort_text(self, pull: PullRequest) -> Seq<char> {
        if self.approx_sched is Some {
            "no queued task for approx pull (lb_id="@ + decimal(self.lb_id as nat)
                + ", server_idx="@ + decimal(pull.server_idx as nat)
                + ", ignored_request_id="@ + maybe(pull.request_id)
                + ", queue_len=0, pull_intent_load="@ + decimal(
                self.intent_load[pull.server_idx as int] as nat,
            ) + ", queued_task_ids=[])"@
        } else {
            match pull.request_id {
                None => "missing request_id on approx pull (lb_id="@ + decimal(self.lb_id as nat)
                    + ", server_idx="@ + decimal(pull.server_idx as nat) + ")"@,
                Some(id) => "bound task not found (lb_id="@ + decimal(self.lb_id as nat)
                    + ", server_idx="@ + decimal(pull.server_idx as nat) + ", request_id="@
                    + decimal(id as nat) + ", queue_len="@ + decimal(self.queue.len())
                    + ", queued_task_ids=["@ + joined_ids(ids_of(self.queue)) + "])"@,
            }
        }
    }
}

/// `after` and `intent` are what may become of a balancer that queued a task and
/// announced it to a server of the policy's choice, in a run whose generator goes from
/// `from` to `to`.
pub open spec fn announces(
    queued: LbState,
    id: u64,
    pick: int,
    after: LbState,
    intent: IntentDispatch,
    from: Option<StdRng>,
    to: Option<StdRng>,
) -> bool {
    &&& 0 <= pick < queued.servers.len()
    &&& queued.policy.may_select(
        loads_of(queued.intent_load, queued.servers),
        from,
        pick,
        after.policy,
        to,
    )
    &&& after == queued.intent_sent(pick, after.policy)
    &&& intent == IntentDispatch {
        server_idx: queued.servers[pick],
        intent: PullIntent { sender_id: queued.lb_id, request_id: id },
    }
}

/// The trace of queueing the next task and announcing it to `target`.
pub open spec fn enqueue_trail(
    state: LbState,
    target: usize,
    before: Option<LbPullAudit>,
    after: Option<LbPullAudit>,
) -> bool {
    match before {
        None => after is None,
        Some(trail) => after matches Some(longer) && longer@ == trail@.push(
            state.enqueue_event(),
        ).push(
            LbPullEventKind::IntentSent {
                lb_id: state.lb_id,
                target_server: target,
                request_id: state.next_task_id,
            },
        ),
    }
}

/// `after` and `sent` are what may become of a balancer that pushed a task to a server of
/// the policy's choice, in a run whose generator goes from `from` to `to`.
pub open spec fn pushes(
    before: LbState,
    task: Task,
    pick: int,
    after: LbState,
    sent: Dispatch,
    from: Option<StdRng>,
    to: Option<StdRng>,
) -> bool {
    &&& 0 <= pick < before.servers.len()
    &&& before.policy.may_select(
        loads_of(before.inflight, before.servers),
        from,
        pick,
        after.policy,
        to,
    )
    &&& after == (LbState { policy: after.policy, ..before.sent_to(before.servers[pick]) })
    &&& sent == before.dispatch(before.servers[pick], task)
}

/// The pool without the candidate of `server`, if it has one.
pub open spec fn pool_without(before: Seq<Candidate>, server: usize, after: Seq<Candidate>) -> bool {
    &&& !pooled(before, server) ==> after == before
    &&& forall|i: int| #[trigger] candidate_at(before, server, i) ==> after == before.remove(i)
}

/// The pool once `reply` came in: the newest candidate is the one that replied, an older
/// one of the same server is gone, and so is the oldest one where there was no room.
pub open spec fn pool_with(
    before: Seq<Candidate>,
    cap: nat,
    reply: ProbeReply,
    after: Seq<Candidate>,
) -> bool {
    let fresh = Candidate { server_idx: reply.server_idx, rif: reply.rif, uses: 0 };
    &&& forall|i: int| #[trigger]
        candidate_at(before, reply.server_idx, i) ==> after == before.remove(i).push(fresh)
    &&& !pooled(before, reply.server_idx) && before.len() < cap ==> after == before.push(fresh)
    &&& !pooled(before, reply.server_idx) && before.len() == cap ==> after == before.remove(
        0,
    ).push(fresh)
}

proof fn lemma_pool_with_bounded(
    before: Seq<Candidate>,
    cap: nat,
    reply: ProbeReply,
    after: Seq<Candidate>,
    n: usize,
)
    requires
        before.len() <= cap,
        cap >= 1,
        pool_with(before, cap, reply, after),
        reply.server_idx < n,
        forall|i: int| 0 <= i < before.len() ==> (#[trigger] before[i]).server_idx < n,
    ensures
        forall|i: int| 0 <= i < after.len() ==> (#[trigger] after[i]).server_idx < n,
{
    let fresh = Candidate { server_idx: reply.server_idx, rif: reply.rif, uses: 0 };
    if pooled(before, reply.server_idx) {
        let at = choose|i: int|
            0 <= i < before.len() && (#[trigger] before[i]).server_idx == reply.server_idx;
        assert(candidate_at(before, reply.server_idx, at));
        assert(after == before.remove(at).push(fresh));
    }
}

proof fn lemma_without_worst_bounded(pool: Seq<Candidate>, k: nat, n: usize)
    requires
        forall|i: int| 0 <= i < pool.len() ==> (#[trigger] pool[i]).server_idx < n,
    ensures
        forall|i: int|
            0 <= i < without_worst(pool, k).len() ==> (#[trigger] without_worst(
                pool,
                k,
            )[i]).server_idx < n,
    decreases k,
{
    if k > 0 && pool.len() > 0 {
        lemma_worst_exists(pool, pool.len());
        let at = worst(pool);
        assert(is_worst(pool, at));
        let rest = pool.remove(at);
        assert forall|i: int| 0 <= i < rest.len() implies (#[trigger] rest[i]).server_idx < n by {
            if i < at {
                assert(rest[i] == pool[i]);
            } else {
                assert(rest[i] == pool[i + 1]);
            }
        }
        lemma_without_worst_bounded(rest, (k - 1) as nat, n);
        assert(without_worst(pool, k) == without_worst(rest, (k - 1) as nat));
    }
}

/// Servers that may be probed: distinct, outside the pool, and as many as wanted if there
/// are so many, as a run whose generator goes from `from` to `to` draws them.
pub open spec fn may_probe(
    n_servers: usize,
    pool: Seq<Candidate>,
    wanted: nat,
    from: Option<StdRng>,
    probes: Seq<usize>,
    to: Option<StdRng>,
) -> bool {
    let outside = unpooled(n_servers as nat, pool).len();
    &&& probes.len() == if wanted <= outside {
        wanted
    } else {
        outside
    }
    &&& probes.no_duplicates()
    &&& forall|i: int|
        0 <= i < probes.len() ==> (#[trigger] probes[i]) < n_servers && !pooled(pool, probes[i])
    &&& draws_probes(n_servers, pool, wanted, from, probes, to)
}

/// A server that a probing balancer may send a task to, in a run whose generator goes from
/// `from` to `to`: the best candidate, or a server that is drawn if there is no candidate.
pub open spec fn probed_choice(
    pool: Seq<Candidate>,
    n_servers: usize,
    from: Option<StdRng>,
    server: usize,
    to: Option<StdRng>,
) -> bool {
    if pool.len() > 0 {
        to == from && exists|i: int| #[trigger] is_best(pool, i) && pool[i].server_idx == server
    } else {
        draws_index(from, 0, n_servers, server, to)
    }
}

pub struct LoadBalancer {
    policy: AnyPolicy,
    lb_policy: LoadBalancePolicyKind,
    lb_id: usize,
    local_inflight: Vec<u32>,
    server_indices: Vec<usize>,
    queue: Vec<Task>,
    waiting_servers: VecDeque<usize>,
    pull_intent_load: Vec<u32>,
    next_task_id: u64,
    preserve_client_metadata: bool,
    approx_sched: Option<ApproxSchedKind>,
    candidate_pool: CandidatePool,
    n_servers: usize,
}

impl View for LoadBalancer {
    type V = LbState;

    closed spec fn view(&self) -> LbState {
        LbState {
            policy: self.policy,
            lb_policy: self.lb_policy,
            lb_id: self.lb_id,
            inflight: self.local_inflight@,
            servers: self.server_indices@,
            queue: self.queue@,
            waiting: self.waiting_servers@,
            intent_load: self.pull_intent_load@,
            next_task_id: self.next_task_id,
            preserve_client_metadata: self.preserve_client_metadata,
            approx_sched: self.approx_sched,
            pool: self.candidate_pool@,
            pool_cap: self.candidate_pool.capacity(),
            n_servers: self.n_servers,
        }
    }
}

pub(crate) fn zeros(n: usize) -> (r: Vec<u32>)
    ensures
        r@ == Seq::new(n as nat, |i: int| 0u32),
{
    let mut out: Vec<u32> = Vec::new();
    let mut i: usize = 0;
    while i < n
        invariant
            i <= n,
            out@ == Seq::new(i as nat, |j: int| 0u32),
        decreases n - i,
    {
        out.push(0);
        i += 1;
        assert(out@ =~= Seq::new(i as nat, |j: int| 0u32));
    }
    out
}

pub(crate) fn gather(counts: &Vec<u32>, servers: &Vec<usize>) -> (r: Vec<u32>)
    requires
        forall|i: int| 0 <= i < servers@.len() ==> (#[trigger] servers@[i]) < counts@.len(),
    ensures
        r@ == loads_of(counts@, servers@),
{
    let mut out: Vec<u32> = Vec::new();
    let mut i: usize = 0;
    while i < servers.len()
        invariant
            i <= servers@.len(),
            forall|j: int| 0 <= j < servers@.len() ==> (#[trigger] servers@[j]) < counts@.len(),
            out@ == loads_of(counts@, servers@.take(i as int)),
        decreases servers@.len() - i,
    {
        assert(servers@[i as int] < counts@.len());
        out.push(counts[servers[i]]);
        i += 1;
        assert(out@ =~= loads_of(counts@, servers@.take(i as int)));
    }
    assert(servers@.take(i as int) =~= servers@);
    out
}

/// A probing balancer goes from `before` to `after` when it takes in `task`: the worst
/// candidates that are due leave its pool, the task goes to the best remaining one, or to any
/// server if there is none, and servers outside the pool are probed.
pub open spec fn takes_probing(
    before: LbState,
    task: Task,
    removals_due: usize,
    after: LbState,
    dispatch: Option<Dispatch>,
    probes: Seq<usize>,
    removed: usize,
    from: Option<StdRng>,
    to: Option<StdRng>,
) -> bool {
    let kept = without_worst(before.pool, removals_due as nat);
    &&& removed == if removals_due <= before.pool.len() {
        removals_due as nat
    } else {
        before.pool.len()
    }
    &&& match dispatch {
        None => {
            &&& kept.len() == 0
            &&& before.n_servers == 0
            &&& probes.len() == 0
            &&& after == (LbState { pool: kept, ..before })
            &&& to == from
        },
        Some(sent) => {
            &&& sent.server_idx < before.n_servers
            &&& sent == before.dispatch(sent.server_idx, task)
            &&& after == (LbState { pool: after.pool, ..before.sent_to(sent.server_idx) })
            &&& pool_without(kept, sent.server_idx, after.pool)
            &&& exists|between: Option<StdRng>|
                {
                    &&& #[trigger] probed_choice(
                        kept,
                        before.n_servers,
                        from,
                        sent.server_idx,
                        between,
                    )
                    &&& may_probe(
                        before.n_servers,
                        after.pool,
                        R_PROBE as nat,
                        between,
                        probes,
                        to,
                    )
                }
        },
    }
}

impl LoadBalancer {
    /// The pool is consistent, and so is everything else.
    pub closed spec fn wf(&self) -> bool {
        &&& self.candidate_pool.wf()
        &&& self@.wf()
    }

    pub proof fn lemma_wf(&self)
        requires
            self.wf(),
        ensures
            self@.wf(),
    {
    }

    pub fn new(
        policy: AnyPolicy,
        lb_policy: LoadBalancePolicyKind,
        n_servers: usize,
        server_indices: Vec<usize>,
        lb_id: usize,
        preserve_client_metadata: bool,
        approx_sched: Option<ApproxSchedKind>,
    ) -> (r: Self)
        requires
            policy.wf(),
            policy.accepts(server_indices@.len()),
            forall|i: int|
                0 <= i < server_indices@.len() ==> (#[trigger] server_indices@[i]) < n_servers,
        ensures
            r.wf(),
            r@.policy == policy,
            r@.is_new(
                lb_policy,
                n_servers,
                server_indices@,
                lb_id,
                preserve_client_metadata,
                approx_sched,
            ),
    {
        let cap: usize = pool_cap(n_servers);
        let candidate_pool = CandidatePool::new(cap);
        assert(candidate_pool@ =~= Seq::<Candidate>::empty());
        LoadBalancer {
            policy,
            lb_policy,
            lb_id,
            local_inflight: zeros(n_servers),
            server_indices,
            queue: Vec::new(),
            waiting_servers: VecDeque::new(),
            pull_intent_load: zeros(n_servers),
            next_task_id: 0,
            preserve_client_metadata,
            approx_sched,
            candidate_pool,
            n_servers,
        }
    }

    /// The servers that tasks are sent to.
    pub fn server_indices(&self) -> (r: &Vec<usize>)
        ensures
            r@ == self@.servers,
    {
        &self.server_indices
    }

    /// Sends `task` to `server_idx`, whoever chose it.
    pub fn dispatch_to_server(&mut self, server_idx: usize, task: Task) -> (r: Dispatch)
        requires
            old(self).wf(),
            server_idx < old(self)@.n_servers,
            old(self)@.inflight[server_idx as int] < u32::MAX,
        ensures
            final(self).wf(),
            final(self)@ == old(self)@.sent_to(server_idx),
            r == old(self)@.dispatch(server_idx, task),
    {
        let count: u32 = self.local_inflight[server_idx];
        self.local_inflight.set(server_idx, count + 1);
        let sent = if self.preserve_client_metadata {
            task
        } else {
            Task { lb_id: self.lb_id, origin_server_idx: server_idx, ..task }
        };
        Dispatch { server_idx, task: sent }
    }

    fn dispatch_waiting(&mut self) -> (r: Vec<Dispatch>)
        requires
            old(self).wf(),
            forall|i: int|
                0 <= i < old(self)@.n_servers ==> (#[trigger] old(self)@.inflight[i]) + old(
                    self,
                )@.paired() <= u32::MAX,
        ensures
            final(self).wf(),
            final(self)@ == old(self)@.served_waiting(old(self)@.paired()),
            r@.len() == old(self)@.paired(),
            forall|i: int|
                0 <= i < r@.len() ==> (#[trigger] r@[i]) == old(self)@.dispatch(
                    old(self)@.waiting[i],
                    old(self)@.queue[i],
                ),
    {
        let mut out: Vec<Dispatch> = Vec::new();
        let ghost mut k: nat = 0;
        while self.waiting_servers.len() > 0 && self.queue.len() > 0
            invariant
                self.wf(),
                k <= old(self)@.paired(),
                self@ == old(self)@.served_waiting(k),
                self@.waiting == old(self)@.waiting.skip(k as int),
                self@.queue == old(self)@.queue.skip(k as int),
                self@.n_servers == old(self)@.n_servers,
                self@.lb_id == old(self)@.lb_id,
                self@.preserve_client_metadata == old(self)@.preserve_client_metadata,
                forall|i: int|
                    0 <= i < old(self)@.n_servers ==> (#[trigger] old(self)@.inflight[i]) + old(
                        self,
                    )@.paired() <= u32::MAX,
                old(self)@.inflight.len() == old(self)@.n_servers,
                forall|i: int|
                    0 <= i < self@.n_servers ==> (#[trigger] self@.inflight[i]) <= old(
                        self,
                    )@.inflight[i] + k,
                out@.len() == k,
                forall|i: int|
                    0 <= i < k ==> (#[trigger] out@[i]) == old(self)@.dispatch(
                        old(self)@.waiting[i],
                        old(self)@.queue[i],
                    ),
            decreases self.queue@.len(),
        {
            let ghost before = self@;
            let server_idx: usize = take_front(&mut self.waiting_servers);
            let task = self.queue.remove(0);
            proof {
                assert(before.waiting[0] == old(self)@.waiting[k as int]);
                assert(before.queue[0] == old(self)@.queue[k as int]);
                assert(server_idx < before.n_servers);
                assert(before.inflight[server_idx as int] <= old(self)@.inflight[server_idx as int]
                    + k);
                assert(old(self)@.inflight[server_idx as int] + old(self)@.paired() <= u32::MAX);
                assert forall|i: int| 0 <= i < self@.waiting.len() implies (
                #[trigger] self@.waiting[i]) < self@.n_servers by {
                    assert(self@.waiting[i] == before.waiting[i + 1]);
                }
                assert(self@ == (LbState {
                    waiting: before.waiting.remove(0),
                    queue: before.queue.remove(0),
                    ..before
                }));
                assert(self@.wf());
            }
            let sent = self.dispatch_to_server(server_idx, task);
            out.push(sent);
            proof {
                k = k + 1;
                assert(self@.waiting =~= old(self)@.waiting.skip(k as int));
                assert(self@.queue =~= old(self)@.queue.skip(k as int));
                assert(self@ == old(self)@.served_waiting(k));
            }
        }
        out
    }

    /// The queued task that a pull names, taken out of the queue.
    pub fn remove_task_for_pull(&mut self, request_id: u64) -> (r: Option<Task>)
        requires
            old(self).wf(),
        ensures
            final(self).wf(),
            match r {
                None => final(self)@ == old(self)@ && forall|i: int|
                    !first_with_id(old(self)@.queue, request_id, i),
                Some(task) => exists|i: int| #[trigger]
                    first_with_id(old(self)@.queue, request_id, i) && task == old(self)@.queue[i]
                        && final(self)@ == old(self)@.without_queued(i),
            },
    {
        let mut i: usize = 0;
        while i < self.queue.len()
            invariant
                self.wf(),
                self@ == old(self)@,
                i <= self.queue@.len(),
                forall|j: int| 0 <= j < i ==> (#[trigger] self.queue@[j]).task_id != request_id,
            decreases self.queue@.len() - i,
        {
            if self.queue[i].task_id == request_id {
                assert(first_with_id(self@.queue, request_id, i as int));
                let task = self.queue.remove(i);
                assert(self@ == old(self)@.without_queued(i as int));
                return Some(task);
            }
            i += 1;
        }
        None
    }

    /// Announces the queued task `request_id` to a server of the policy's choice.
    fn send_pull_intent(
        &mut self,
        request_id: u64,
        rng: &mut RunRng,
        audit: &mut Option<LbPullAudit>,
    ) -> (r: IntentDispatch)
        requires
            old(self).wf(),
            old(self)@.servers.len() > 0,
            forall|i: int|
                0 <= i < old(self)@.intent_load.len() ==> (#[trigger] old(self)@.intent_load[i])
                    < u32::MAX,
        ensures
            final(self).wf(),
            exists|pick: int| #[trigger]
                announces(
                    old(self)@,
                    request_id,
                    pick,
                    final(self)@,
                    r,
                    old(rng).generator(),
                    final(rng).generator(),
                ),
            recorded(
                *old(audit),
                *final(audit),
                LbPullEventKind::IntentSent {
                    lb_id: old(self)@.lb_id,
                    target_server: r.server_idx,
                    request_id,
                },
            ),
    {
        let loads = gather(&self.pull_intent_load, &self.server_indices);
        let ghost before = self@;
        let pick: usize = self.policy.select(&loads, rng);
        let server_idx: usize = self.server_indices[pick];
        assert(before.servers[pick as int] < before.n_servers);
        let count: u32 = self.pull_intent_load[server_idx];
        assert(before.intent_load[server_idx as int] < u32::MAX);
        self.pull_intent_load.set(server_idx, count + 1);
        if let Some(trail) = audit {
            trail.record_intent_sent(self.lb_id, server_idx, request_id);
        }
        let r = IntentDispatch {
            server_idx,
            intent: PullIntent { sender_id: self.lb_id, request_id },
        };
        proof {
            assert(loads@.len() == before.servers.len());
            assert(announces(
                before,
                request_id,
                pick as int,
                self@,
                r,
                old(rng).generator(),
                rng.generator(),
            ));
        }
        r
    }

    /// Receives a task. A central balancer queues it and serves waiting servers; a
    /// pull-intent balancer numbers it, queues it and announces it; a probing balancer, from
    /// whose pool `removals_due` candidates ought to leave by now, sends it to the best
    /// candidate; any other pushes it to a server of the policy's choice.
    pub fn input(
        &mut self,
        task: Task,
        removals_due: usize,
        rng: &mut RunRng,
        audit: &mut Option<LbPullAudit>,
    ) -> (r: LbOutput)
        requires
            old(self).wf(),
            old(self)@.lb_policy !is Centralized ==> old(self)@.can_count(),
            old(self)@.lb_policy !is Centralized && old(self)@.lb_policy !is Prequal ==> old(
                self,
            )@.servers.len() > 0,
            old(self)@.lb_policy is Centralized ==> forall|i: int|
                0 <= i < old(self)@.n_servers ==> (#[trigger] old(self)@.inflight[i])
                    + old(self)@.with_queued(task).paired() <= u32::MAX,
        ensures
            final(self).wf(),
            match old(self)@.lb_policy {
                LoadBalancePolicyKind::Centralized => {
                    let queued = old(self)@.with_queued(task);
                    &&& final(self)@ == queued.served_waiting(queued.paired())
                    &&& r.intent is None
                    &&& r.probes_nothing()
                    &&& r.dispatches@.len() == queued.paired()
                    &&& forall|i: int|
                        0 <= i < r.dispatches@.len() ==> (#[trigger] r.dispatches@[i])
                            == queued.dispatch(queued.waiting[i], queued.queue[i])
                    &&& *final(audit) == *old(audit)
                    &&& final(rng).generator() == old(rng).generator()
                },
                LoadBalancePolicyKind::Approx => {
                    let queued = old(self)@.with_numbered(task);
                    &&& r.dispatches@.len() == 0
                    &&& r.probes_nothing()
                    &&& r.intent matches Some(intent) && (exists|pick: int| #[trigger]
                        announces(
                            queued,
                            old(self)@.next_task_id,
                            pick,
                            final(self)@,
                            intent,
                            old(rng).generator(),
                            final(rng).generator(),
                        )) && enqueue_trail(
                        old(self)@,
                        intent.server_idx,
                        *old(audit),
                        *final(audit),
                    )
                },
                LoadBalancePolicyKind::Prequal => {
                    &&& r.intent is None
                    &&& r.dispatches@.len() <= 1
                    &&& takes_probing(
                        old(self)@,
                        task,
                        removals_due,
                        final(self)@,
                        if r.dispatches@.len() == 1 {
                            Some(r.dispatches@[0])
                        } else {
                            None
                        },
                        r.probes@,
                        r.removed,
                        old(rng).generator(),
                        final(rng).generator(),
                    )
                    &&& *final(audit) == *old(audit)
                },
                _ => {
                    &&& r.intent is None
                    &&& r.probes_nothing()
                    &&& r.dispatches@.len() == 1
                    &&& exists|pick: int| #[trigger]
                        pushes(
                            old(self)@,
                            task,
                            pick,
                            final(self)@,
                            r.dispatches@[0],
                            old(rng).generator(),
                            final(rng).generator(),
                        )
                    &&& *final(audit) == *old(audit)
                },
            },
    {
        let mut dispatches: Vec<Dispatch> = Vec::new();
        match self.lb_policy {
            LoadBalancePolicyKind::Centralized => {
                self.queue.push(task);
                assert(self@ == old(self)@.with_queued(task));
                let dispatches = self.dispatch_waiting();
                LbOutput { dispatches, intent: None, probes: Vec::new(), removed: 0 }
            },
            LoadBalancePolicyKind::Prequal => {
                let sent = self.dispatch_prequal(task, removals_due, rng);
                if let Some(dispatch) = sent.dispatch {
                    dispatches.push(dispatch);
                }
                LbOutput { dispatches, intent: None, probes: sent.probes, removed: sent.removed }
            },
            LoadBalancePolicyKind::Approx => {
                let id: u64 = self.next_task_id;
                self.next_task_id = id + 1;
                let queue_len_before: usize = self.queue.len();
                if let Some(trail) = audit {
                    trail.record_task_enqueued(self.lb_id, id, queue_len_before);
                }
                let numbered = Task { task_id: id, ..task };
                self.queue.push(numbered);
                assert(self@ == old(self)@.with_numbered(task));
                let intent = self.send_pull_intent(id, rng, audit);
                LbOutput { dispatches, intent: Some(intent), probes: Vec::new(), removed: 0 }
            },
            _ => {
                let loads = gather(&self.local_inflight, &self.server_indices);
                let ghost before = self@;
                let pick: usize = self.policy.select(&loads, rng);
                let server_idx: usize = self.server_indices[pick];
                assert(before.servers[pick as int] < before.n_servers);
                assert(before.inflight[server_idx as int] < u32::MAX);
                let sent = self.dispatch_to_server(server_idx, task);
                dispatches.push(sent);
                assert(pushes(
                    before,
                    task,
                    pick as int,
                    self@,
                    dispatches@[0],
                    old(rng).generator(),
                    rng.generator(),
                ));
                LbOutput { dispatches, intent: None, probes: Vec::new(), removed: 0 }
            },
        }
    }

    fn record_pull(
        &self,
        pull: PullRequest,
        pulled: u64,
        queue_len_before: usize,
        head: u64,
        audit: &mut Option<LbPullAudit>,
    )
        ensures
            recorded(
                *old(audit),
                *final(audit),
                LbPullEventKind::PullFulfilled {
                    lb_id: self@.lb_id,
                    server_idx: pull.server_idx,
                    intent_request_id: pull.request_id,
                    pulled_task_id: pulled,
                    queue_len_before,
                    queue_head_task_id: Some(head),
                },
            ),
    {
        if let Some(trail) = audit {
            trail.record_pull_fulfilled(
                self.lb_id,
                pull.server_idx,
                pull.request_id,
                pulled,
                queue_len_before,
                Some(head),
            );
        }
    }

    fn answer_intent(&mut self, server_idx: usize, task: Task) -> (r: Dispatch)
        requires
            old(self).wf(),
            server_idx < old(self)@.n_servers,
            old(self)@.inflight[server_idx as int] < u32::MAX,
        ensures
            final(self).wf(),
            final(self)@ == old(self)@.intent_answered(server_idx).sent_to(server_idx),
            r == old(self)@.dispatch(server_idx, task),
    {
        let count: u32 = self.pull_intent_load[server_idx];
        self.pull_intent_load.set(server_idx, count.saturating_sub(1));
        self.dispatch_to_server(server_idx, task)
    }

    fn not_found_text(&self, server_idx: usize, request_id: u64) -> (s: String)
        requires
            self@.approx_sched is None,
        ensures
            s@ == self@.abort_text(PullRequest { server_idx, request_id: Some(request_id) }),
    {
        let mut ids: Vec<u64> = Vec::new();
        let mut i: usize = 0;
        while i < self.queue.len()
            invariant
                i <= self.queue@.len(),
                ids@ == ids_of(self.queue@.take(i as int)),
            decreases self.queue@.len() - i,
        {
            ids.push(self.queue[i].task_id);
            i += 1;
            assert(ids@ =~= ids_of(self.queue@.take(i as int)));
        }
        assert(self.queue@.take(i as int) =~= self.queue@);
        Text::of("bound task not found (lb_id=").size(self.lb_id).lit(", server_idx=").size(
            server_idx,
        ).lit(", request_id=").num(request_id).lit(", queue_len=").size(self.queue.len()).lit(
            ", queued_task_ids=[",
        ).ids(&ids).lit("])").done()
    }

    /// Answers a pull from a server.
    pub fn pull(&mut self, pull: PullRequest, audit: &mut Option<LbPullAudit>) -> (r: PullOutcome)
        requires
            old(self).wf(),
            pull.server_idx < old(self)@.n_servers,
            old(self)@.inflight[pull.server_idx as int] < u32::MAX,
        ensures
            final(self).wf(),
            match r {
                PullOutcome::Dispatch(sent) => {
                    exists|i: int| #[trigger]
                        old(self)@.pulled_at(pull.request_id, i) && sent == old(self)@.dispatch(
                            pull.server_idx,
                            old(self)@.queue[i],
                        ) && final(self)@ == old(self)@.pulled(pull.server_idx, i) && if old(
                            self,
                        )@.lb_policy is Approx {
                            recorded(*old(audit), *final(audit), old(self)@.pull_event(pull, i))
                        } else {
                            *final(audit) == *old(audit)
                        }
                },
                PullOutcome::Wait => {
                    &&& old(self)@.lb_policy !is Approx
                    &&& old(self)@.queue.len() == 0
                    &&& final(self)@ == old(self)@.with_waiting(pull.server_idx)
                    &&& *final(audit) == *old(audit)
                },
                PullOutcome::Abort(text) => {
                    &&& old(self)@.lb_policy is Approx
                    &&& !old(self)@.can_pull(pull.request_id)
                    &&& text@ == old(self)@.abort_text(pull)
                    &&& final(self)@ == old(self)@
                    &&& *final(audit) == *old(audit)
                },
            },
    {
        let server_idx: usize = pull.server_idx;
        let ghost before = self@;
        match self.lb_policy {
            LoadBalancePolicyKind::Approx => {
                let queue_len_before: usize = self.queue.len();
                if self.approx_sched.is_some() {
                    if self.queue.len() == 0 {
                        let text = Text::of("no queued task for approx pull (lb_id=").size(
                            self.lb_id,
                        ).lit(", server_idx=").size(server_idx).lit(
                            ", ignored_request_id=",
                        ).maybe(pull.request_id).lit(", queue_len=0, pull_intent_load=").num(
                            self.pull_intent_load[server_idx] as u64,
                        ).lit(", queued_task_ids=[])").done();
                        return PullOutcome::Abort(text);
                    }
                    let head: u64 = self.queue[0].task_id;
                    let task = self.queue.remove(0);
                    assert(before.pulled_at(pull.request_id, 0));
                    self.record_pull(pull, task.task_id, queue_len_before, head, audit);
                    PullOutcome::Dispatch(self.answer_intent(server_idx, task))
                } else {
                    let request_id: u64 = match pull.request_id {
                        None => {
                            let text = Text::of("missing request_id on approx pull (lb_id=").size(
                                self.lb_id,
                            ).lit(", server_idx=").size(server_idx).lit(")").done();
                            return PullOutcome::Abort(text);
                        },
                        Some(id) => id,
                    };
                    if self.queue.len() == 0 {
                        return PullOutcome::Abort(self.not_found_text(server_idx, request_id));
                    }
                    let head: u64 = self.queue[0].task_id;
                    match self.remove_task_for_pull(request_id) {
                        None => {
                            assert forall|i: int| !before.pulled_at(pull.request_id, i) by {
                                assert(!first_with_id(before.queue, request_id, i));
                            }
                            PullOutcome::Abort(self.not_found_text(server_idx, request_id))
                        },
                        Some(task) => {
                            let ghost at = choose|i: int| #[trigger]
                                first_with_id(before.queue, request_id, i) && task
                                    == before.queue[i] && self@ == before.without_queued(i);
                            assert(before.pulled_at(pull.request_id, at));
                            self.record_pull(pull, task.task_id, queue_len_before, head, audit);
                            PullOutcome::Dispatch(self.answer_intent(server_idx, task))
                        },
                    }
                }
            },
            _ => {
                if self.queue.len() == 0 {
                    self.waiting_servers.push_back(server_idx);
                    PullOutcome::Wait
                } else {
                    let task = self.queue.remove(0);
                    assert(before.pulled_at(pull.request_id, 0));
                    PullOutcome::Dispatch(self.dispatch_to_server(server_idx, task))
                }
            },
        }
    }

    /// Receives a task as a probing balancer: removes the worst candidates that are due,
    /// sends the task to the best remaining one, or to any server if there is none, and
    /// probes servers outside the pool.
    fn dispatch_prequal(
        &mut self,
        task: Task,
        removals_due: usize,
        rng: &mut RunRng,
    ) -> (r: PrequalOutput)
        requires
            old(self).wf(),
            old(self)@.can_count(),
        ensures
            final(self).wf(),
            takes_probing(
                old(self)@,
                task,
                removals_due,
                final(self)@,
                r.dispatch,
                r.probes@,
                r.removed,
                old(rng).generator(),
                final(rng).generator(),
            ),
    {
        let ghost before = self@;
        proof {
            lemma_without_worst_bounded(before.pool, removals_due as nat, before.n_servers);
        }
        let removed: usize = apply_r_remove(&mut self.candidate_pool, removals_due);
        let ghost kept = self@.pool;
        assert(kept == without_worst(before.pool, removals_due as nat));
        assert(self@ == (LbState { pool: kept, ..before }));
        assert(self.wf());
        let server_idx: usize = match self.candidate_pool.select_best() {
            Some(server_idx) => {
                proof {
                    let i = choose|i: int| #[trigger]
                        is_best(kept, i) && kept[i].server_idx == server_idx;
                    assert(kept[i].server_idx < before.n_servers);
                }
                server_idx
            },
            None => {
                if self.n_servers == 0 {
                    return PrequalOutput { dispatch: None, probes: Vec::new(), removed };
                }
                random_usize_range(rng, 0..self.n_servers)
            },
        };
        let ghost between = rng.generator();
        assert(probed_choice(
            kept,
            before.n_servers,
            old(rng).generator(),
            server_idx,
            between,
        ));
        assert(before.inflight[server_idx as int] < u32::MAX);
        let sent = self.dispatch_to_server(server_idx, task);
        assert(self@.pool == kept);
        self.candidate_pool.after_dispatch(server_idx, B_REUSE);
        proof {
            let after = self@.pool;
            assert forall|i: int| #[trigger] candidate_at(kept, server_idx, i) implies after
                == kept.remove(i) by {}
            if pooled(kept, server_idx) {
                let at = choose|i: int|
                    0 <= i < kept.len() && (#[trigger] kept[i]).server_idx == server_idx;
                assert(candidate_at(kept, server_idx, at));
                assert forall|i: int| 0 <= i < after.len() implies (
                #[trigger] after[i]).server_idx < before.n_servers by {
                    if i < at {
                        assert(after[i] == kept[i]);
                    } else {
                        assert(after[i] == kept[i + 1]);
                    }
                }
            }
        }
        let probes = sample_probe_targets(self.n_servers, &self.candidate_pool, R_PROBE, rng);
        PrequalOutput { dispatch: Some(sent), probes, removed }
    }

    /// Notes that a task of this balancer left `server_idx`.
    pub fn release(&mut self, server_idx: usize)
        requires
            old(self).wf(),
            server_idx < old(self)@.n_servers,
        ensures
            final(self).wf(),
            final(self)@ == old(self)@.released(server_idx),
    {
        let count: u32 = self.local_inflight[server_idx];
        self.local_inflight.set(server_idx, count.saturating_sub(1));
    }

    /// Takes in what a probed server reported.
    pub fn probe_reply(&mut self, reply: ProbeReply)
        requires
            old(self).wf(),
            reply.server_idx < old(self)@.n_servers,
        ensures
            final(self).wf(),
            final(self)@ == (LbState { pool: final(self)@.pool, ..old(self)@ }),
            if old(self)@.lb_policy is Prequal {
                pool_with(old(self)@.pool, old(self)@.pool_cap, reply, final(self)@.pool)
            } else {
                final(self)@.pool == old(self)@.pool
            },
    {
        let ghost before = self@.pool;
        match self.lb_policy {
            LoadBalancePolicyKind::Prequal => {
                self.candidate_pool.ingest_reply(reply.server_idx, reply.rif);
                proof {
                    lemma_pool_with_bounded(before, self@.pool_cap, reply, self@.pool, self@.n_servers);
                }
            },
            _ => {},
        }
    }
}

/// Sending a task to a server and releasing it again leaves the balancer as it was.
pub proof fn law_release_undoes_dispatch(state: LbState, server: usize)
    requires
        state.wf(),
        server < state.n_servers,
        state.inflight[server as int] < u32::MAX,
    ensures
        state.sent_to(server).released(server) == state,
{
    assert(state.sent_to(server).released(server).inflight =~= state.inflight);
}

proof fn lemma_served_waiting(state: LbState, k: nat)
    requires
        k <= state.paired(),
    ensures
        state.served_waiting(k).waiting == state.waiting.skip(k as int),
        state.served_waiting(k).queue == state.queue.skip(k as int),
    decreases k,
{
    if k > 0 {
        lemma_served_waiting(state, (k - 1) as nat);
        assert(state.waiting.skip(k - 1).remove(0) =~= state.waiting.skip(k as int));
        assert(state.queue.skip(k - 1).remove(0) =~= state.queue.skip(k as int));
    } else {
        assert(state.waiting.skip(0) =~= state.waiting);
        assert(state.queue.skip(0) =~= state.queue);
    }
}

impl LbState {
    /// No server waits while a task is queued.
    pub open spec fn work_conserving(self) -> bool {
        self.waiting.len() == 0 || self.queue.len() == 0
    }
}

/// A central balancer never leaves a server waiting while a task is queued: neither a
/// new task nor a pull breaks that.
pub proof fn law_central_queue_is_work_conserving(state: LbState, task: Task, server: usize)
    requires
        state.work_conserving(),
    ensures
        ({
            let queued = state.with_queued(task);
            queued.served_waiting(queued.paired()).work_conserving()
        }),
        state.queue.len() == 0 ==> (LbState {
            waiting: state.waiting.push(server),
            ..state
        }).work_conserving(),
        state.queue.len() > 0 ==> state.pulled(server, 0).work_conserving(),
{
    let queued = state.with_queued(task);
    lemma_served_waiting(queued, queued.paired());
}

impl LbState {
    /// The intents that were announced and not answered belong to the queued tasks: by id
    /// where a pull takes the task it names, by number where it takes any.
    pub open spec fn announced(self, outstanding: Multiset<u64>) -> bool {
        if self.approx_sched is None {
            ids_of(self.queue).to_multiset() == outstanding
        } else {
            self.queue.len() == outstanding.len()
        }
    }
}

proof fn lemma_first_with_id(queue: Seq<Task>, id: u64, at: int)
    requires
        0 <= at < queue.len(),
        queue[at].task_id == id,
    ensures
        exists|i: int| #[trigger] first_with_id(queue, id, i),
    decreases at,
{
    if forall|j: int| 0 <= j < at ==> (#[trigger] queue[j]).task_id != id {
        assert(first_with_id(queue, id, at));
    } else {
        let j = choose|j: int| 0 <= j < at && (#[trigger] queue[j]).task_id == id;
        lemma_first_with_id(queue, id, j);
    }
}

/// Outstanding intents and queued tasks stay matched: a task that is announced adds one of
/// each, a pull that answers an outstanding intent always finds a task, and takes one of
/// each away.
pub proof fn law_outstanding_intents_can_be_answered(
    state: LbState,
    outstanding: Multiset<u64>,
    task: Task,
    id: u64,
    server: usize,
)
    requires
        state.lb_policy is Approx,
        state.announced(outstanding),
    ensures
        state.with_numbered(task).announced(outstanding.insert(state.next_task_id)),
        outstanding.count(id) > 0 ==> state.can_pull(Some(id)),
        outstanding.count(id) > 0 ==> forall|i: int| #[trigger]
            state.pulled_at(Some(id), i) ==> state.pulled(server, i).announced(
                outstanding.remove(id),
            ),
{
    broadcast use vstd::seq_lib::group_to_multiset_ensures;

    let ids = ids_of(state.queue);
    let queued = state.with_numbered(task);
    assert(ids_of(queued.queue) =~= ids.push(state.next_task_id));
    if outstanding.count(id) > 0 {
        if state.approx_sched is None {
            assert(ids.contains(id));
            let at = ids.index_of(id);
            assert(state.queue[at].task_id == id);
            lemma_first_with_id(state.queue, id, at);
            let i = choose|i: int| #[trigger] first_with_id(state.queue, id, i);
            assert(state.pulled_at(Some(id), i));
        } else {
            assert(outstanding.len() > 0) by {
                if outstanding.len() == 0 {
                    assert(outstanding.remove(id).insert(id) =~= outstanding);
                }
            }
            assert(state.pulled_at(Some(id), 0));
        }
        assert forall|i: int| #[trigger] state.pulled_at(Some(id), i) implies state.pulled(
            server,
            i,
        ).announced(outstanding.remove(id)) by {
            let after = state.pulled(server, i);
            assert(after.queue == state.queue.remove(i));
            if state.approx_sched is None {
                assert(ids[i] == id);
                assert(ids_of(after.queue) =~= ids.remove(i));
            } else {
                assert(outstanding.remove(id).insert(id) =~= outstanding);
            }
        }
    }
}

/// What a no-bind balancer records replays without fault: enqueueing and pulling keep the
/// replayed queue equal to the queue itself, and pulls are seen to take its head.
pub proof fn law_no_bind_trail_replays(
    state: LbState,
    trail: Seq<LbPullEventKind>,
    task: Task,
    pull: PullRequest,
)
    requires
        state.queue.len() <= usize::MAX,
        task_queue(trail, state.lb_id) == ids_of(state.queue),
    ensures
        ({
            let longer = trail.push(state.enqueue_event());
            &&& event_fault(longer, trail.len() as int) is None
            &&& task_queue(longer, state.lb_id) == ids_of(state.with_numbered(task).queue)
        }),
        state.queue.len() > 0 ==> {
            let longer = trail.push(state.pull_event(pull, 0));
            &&& event_fault(longer, trail.len() as int) is None
            &&& no_bind_event_fault(longer, trail.len() as int) is None
            &&& task_queue(longer, state.lb_id) == ids_of(state.pulled(pull.server_idx, 0).queue)
        },
{
    let enqueued = trail.push(state.enqueue_event());
    assert(enqueued.drop_last() =~= trail);
    assert(enqueued.take(trail.len() as int) =~= trail);
    assert(task_queue(enqueued, state.lb_id) =~= ids_of(state.with_numbered(task).queue));
    if state.queue.len() > 0 {
        let pulled = trail.push(state.pull_event(pull, 0));
        assert(pulled.drop_last() =~= trail);
        assert(pulled.take(trail.len() as int) =~= trail);
        assert(task_queue(pulled, state.lb_id) =~= ids_of(
            state.pulled(pull.server_idx, 0).queue,
        ));
        assert(ids_of(state.queue)[0] == state.queue[0].task_id);
    }
}

/// What a bound balancer records replays without fault: each pull takes the very task it
/// names, and the replayed queue stays equal to the queue itself.
pub proof fn law_bound_trail_replays(
    state: LbState,
    trail: Seq<LbPullEventKind>,
    task: Task,
    pull: PullRequest,
    i: int,
)
    requires
        state.queue.len() <= usize::MAX,
        bound_queue(trail, state.lb_id) == ids_of(state.queue),
        task_queue(trail, state.lb_id).len() == state.queue.len(),
        pull.request_id matches Some(id) && first_with_id(state.queue, id, i),
    ensures
        ({
            let longer = trail.push(state.enqueue_event());
            &&& event_fault(longer, trail.len() as int) is None
            &&& bound_queue(longer, state.lb_id) == ids_of(state.with_numbered(task).queue)
            &&& task_queue(longer, state.lb_id).len() == state.queue.len() + 1
        }),
        ({
            let longer = trail.push(state.pull_event(pull, i));
            &&& event_fault(longer, trail.len() as int) is None
            &&& bound_event_fault(longer, trail.len() as int) is None
            &&& bound_queue(longer, state.lb_id) == ids_of(state.pulled(pull.server_idx, i).queue)
            &&& task_queue(longer, state.lb_id).len() == state.queue.len() - 1
        }),
{
    let enqueued = trail.push(state.enqueue_event());
    assert(enqueued.drop_last() =~= trail);
    assert(enqueued.take(trail.len() as int) =~= trail);
    assert(bound_queue(enqueued, state.lb_id) =~= ids_of(state.with_numbered(task).queue));
    let id = pull.request_id->0;
    let ids = ids_of(state.queue);
    let pulled = trail.push(state.pull_event(pull, i));
    assert(pulled.drop_last() =~= trail);
    assert(pulled.take(trail.len() as int) =~= trail);
    assert(ids[i] == id);
    ids.index_of_first_ensures(id);
    assert(ids.index_of_first(id) == Some(i)) by {
        let first = ids.index_of_first(id)->0;
        if first < i {
            assert(state.queue[first].task_id != id);
        }
    }
    assert(bound_queue(pulled, state.lb_id) =~= ids_of(state.pulled(pull.server_idx, i).queue));
}

impl LbState {
    /// The same balancer, with the same picks to come from one generator.
    pub open spec fn agrees(self, other: LbState) -> bool {
        &&& self.policy.alike(other.policy)
        &&& self == (LbState { policy: self.policy, ..other })
    }
}

/// Balancers that agree and push or announce a task in runs with one generator do the same,
/// agree afterwards, and leave one generator.
pub proof fn law_one_generator_balances_alike(
    a: LbState,
    b: LbState,
    task: Task,
    id: u64,
    generator: StdRng,
    i: int,
    after_a: LbState,
    sent_a: Dispatch,
    intent_a: IntentDispatch,
    to_a: Option<StdRng>,
    j: int,
    after_b: LbState,
    sent_b: Dispatch,
    intent_b: IntentDispatch,
    to_b: Option<StdRng>,
)
    requires
        a.agrees(b),
    ensures
        pushes(a, task, i, after_a, sent_a, Some(generator), to_a) && pushes(
            b,
            task,
            j,
            after_b,
            sent_b,
            Some(generator),
            to_b,
        ) ==> sent_a == sent_b && after_a.agrees(after_b) && to_a == to_b,
        announces(a, id, i, after_a, intent_a, Some(generator), to_a) && announces(
            b,
            id,
            j,
            after_b,
            intent_b,
            Some(generator),
            to_b,
        ) ==> intent_a == intent_b && after_a.agrees(after_b) && to_a == to_b,
{
    if pushes(a, task, i, after_a, sent_a, Some(generator), to_a) && pushes(
        b,
        task,
        j,
        after_b,
        sent_b,
        Some(generator),
        to_b,
    ) {
        law_one_generator_picks_alike(
            a.policy,
            b.policy,
            loads_of(a.inflight, a.servers),
            generator,
            i,
            after_a.policy,
            to_a,
            j,
            after_b.policy,
            to_b,
        );
    }
    if announces(a, id, i, after_a, intent_a, Some(generator), to_a) && announces(
        b,
        id,
        j,
        after_b,
        intent_b,
        Some(generator),
        to_b,
    ) {
        law_one_generator_picks_alike(
            a.policy,
            b.policy,
            loads_of(a.intent_load, a.servers),
            generator,
            i,
            after_a.policy,
            to_a,
            j,
            after_b.policy,
            to_b,
        );
    }
}

/// Probing balancers with one pool, in runs with one generator, send to one server and probe
/// the same ones, and leave one generator.
pub proof fn law_one_generator_probes_alike(
    pool: Seq<Candidate>,
    n_servers: usize,
    wanted: nat,
    generator: StdRng,
    server_a: usize,
    probes_a: Seq<usize>,
    to_a: Option<StdRng>,
    server_b: usize,
    probes_b: Seq<usize>,
    to_b: Option<StdRng>,
)
    ensures
        probed_choice(pool, n_servers, Some(generator), server_a, to_a) && probed_choice(
            pool,
            n_servers,
            Some(generator),
            server_b,
            to_b,
        ) ==> server_a == server_b && to_a == to_b,
        may_probe(n_servers, pool, wanted, Some(generator), probes_a, to_a) && may_probe(
            n_servers,
            pool,
            wanted,
            Some(generator),
            probes_b,
            to_b,
        ) ==> probes_a == probes_b && to_a == to_b,
{
    if pool.len() > 0 && probed_choice(pool, n_servers, Some(generator), server_a, to_a)
        && probed_choice(pool, n_servers, Some(generator), server_b, to_b) {
        let i = choose|i: int| #[trigger] is_best(pool, i) && pool[i].server_idx == server_a;
        let j = choose|j: int| #[trigger] is_best(pool, j) && pool[j].server_idx == server_b;
        assert(pool[i].rif <= pool[j].rif && pool[j].rif <= pool[i].rif);
        assert(i == j);
    }
    if wanted == 0 || unpooled(n_servers as nat, pool).len() == 0 {
        if may_probe(n_servers, pool, wanted, Some(generator), probes_a, to_a) && may_probe(
            n_servers,
            pool,
            wanted,
            Some(generator),
            probes_b,
            to_b,
        ) {
            assert(probes_a =~= probes_b);
        }
    }
}

/// A central queue is first come, first served: a task that no server waits for goes to the
/// end of the queue, and where servers wait for tasks, the one that has waited longest gets it
/// at once and the others keep their turns.
pub proof fn law_central_tasks_wait_in_order(state: LbState, task: Task)
    requires
        state.queue.len() == 0 || state.waiting.len() == 0,
        forall|i: int|
            0 <= i < state.waiting.len() ==> (#[trigger] state.waiting[i]) < state.inflight.len(),
    ensures
        ({
            let queued = state.with_queued(task);
            let after = queued.served_waiting(queued.paired());
            &&& state.waiting.len() == 0 ==> {
                &&& queued.paired() == 0
                &&& after.queue.len() == state.queue.len() + 1
                &&& after.queue.last() == task
                &&& forall|i: int|
                    0 <= i < state.queue.len() ==> after.queue[i] == #[trigger] state.queue[i]
                &&& after.waiting.len() == 0
                &&& after.inflight == state.inflight
            }
            &&& state.waiting.len() > 0 ==> {
                &&& queued.paired() == 1
                &&& queued.queue[0] == task
                &&& queued.waiting[0] == state.waiting[0]
                &&& after.queue.len() == 0
                &&& after.waiting.len() == state.waiting.len() - 1
                &&& forall|i: int|
                    0 <= i < after.waiting.len() ==> #[trigger] after.waiting[i]
                        == state.waiting[i + 1]
                &&& after.inflight[state.waiting[0] as int] == (state.inflight[state.waiting[0] as int]
                    + 1) as u32
                &&& forall|i: int|
                    0 <= i < state.inflight.len() && i != state.waiting[0] ==> after.inflight[i]
                        == #[trigger] state.inflight[i]
            }
        }),
{
    let queued = state.with_queued(task);
    if state.waiting.len() > 0 {
        reveal_with_fuel(LbState::served_waiting, 2);
        assert(state.waiting[0] < state.inflight.len());
    }
}

/// A pull from a central queue takes the task that has waited longest, and so does one from a
/// queue of announced tasks that are not bound; where they are bound, it takes the very task
/// that it names, and fails where no such task waits. The other tasks keep their order, the
/// server has one task more, and where tasks are announced one intent less is outstanding.
pub proof fn law_pull_takes_the_oldest_or_the_named(
    state: LbState,
    request_id: Option<u64>,
    server: usize,
    i: int,
    j: int,
)
    requires
        state.pulled_at(request_id, i),
        server < state.inflight.len(),
        server < state.intent_load.len(),
        state.inflight[server as int] < u32::MAX,
    ensures
        0 <= i < state.queue.len(),
        state.lb_policy != LoadBalancePolicyKind::Approx ==> i == 0,
        state.approx_sched is Some ==> i == 0,
        state.lb_policy == LoadBalancePolicyKind::Approx && state.approx_sched is None ==> Some(
            state.queue[i].task_id,
        ) == request_id,
        state.lb_policy == LoadBalancePolicyKind::Approx && state.approx_sched is None && 0 <= j < i
            ==> Some(state.queue[j].task_id) != request_id,
        state.pulled(server, i).queue.len() == state.queue.len() - 1,
        0 <= j < i ==> state.pulled(server, i).queue[j] == state.queue[j],
        i <= j < state.queue.len() - 1 ==> state.pulled(server, i).queue[j] == state.queue[j + 1],
        state.pulled(server, i).inflight[server as int] == state.inflight[server as int] + 1,
        0 <= j < state.inflight.len() && j != server ==> state.pulled(server, i).inflight[j]
            == state.inflight[j],
        state.lb_policy == LoadBalancePolicyKind::Approx && state.intent_load[server as int] > 0
            ==> state.pulled(server, i).intent_load[server as int]
            == state.intent_load[server as int] - 1,
        state.lb_policy != LoadBalancePolicyKind::Approx ==> state.pulled(server, i).intent_load
            == state.intent_load,
        0 <= j < state.intent_load.len() && j != server ==> state.pulled(server, i).intent_load[j]
            == state.intent_load[j],
{
}

/// A pull can be answered exactly where a task waits, or, where tasks are bound to their
/// intents, where the task that it names waits.
pub proof fn law_pull_needs_a_task(state: LbState, request_id: Option<u64>)
    ensures
        state.lb_policy != LoadBalancePolicyKind::Approx || state.approx_sched is Some ==> (
        state.can_pull(request_id) <==> state.queue.len() > 0),
        state.lb_policy == LoadBalancePolicyKind::Approx && state.approx_sched is None ==> (
        state.can_pull(request_id) <==> exists|i: int|
            0 <= i < state.queue.len() && Some((#[trigger] state.queue[i]).task_id) == request_id),
{
    if state.lb_policy == LoadBalancePolicyKind::Approx && state.approx_sched is None {
        if exists|i: int|
            0 <= i < state.queue.len() && Some((#[trigger] state.queue[i]).task_id)
                == request_id {
            let i = choose|i: int|
                0 <= i < state.queue.len() && Some((#[trigger] state.queue[i]).task_id)
                    == request_id;
            let first = lemma_first_id(state.queue, request_id->0, i);
            assert(state.pulled_at(request_id, first));
        }
        if state.can_pull(request_id) {
            let i = choose|i: int| state.pulled_at(request_id, i);
            assert(Some(state.queue[i].task_id) == request_id);
        }
    } else if state.queue.len() > 0 {
        assert(state.pulled_at(request_id, 0));
    }
}

proof fn lemma_first_id(queue: Seq<Task>, id: u64, i: int) -> (first: int)
    requires
        0 <= i < queue.len(),
        queue[i].task_id == id,
    ensures
        first_with_id(queue, id, first),
    decreases i,
{
    if forall|j: int| 0 <= j < i ==> (#[trigger] queue[j]).task_id != id {
        i
    } else {
        let j = choose|j: int| 0 <= j < i && (#[trigger] queue[j]).task_id == id;
        lemma_first_id(queue, id, j)
    }
}

/// A pick by load among `servers`: with least request no server of the list has a lower count
/// than the one picked; with the power of two choices two servers of the list were drawn, and
/// the one picked is one of them and has no more than the other.
pub proof fn lemma_pick_respects_counts(
    policy: AnyPolicy,
    counts: Seq<u32>,
    servers: Seq<usize>,
    from: Option<StdRng>,
    pick: int,
    after: AnyPolicy,
    to: Option<StdRng>,
)
    requires
        policy.may_select(loads_of(counts, servers), from, pick, after, to),
        0 <= pick < servers.len() <= usize::MAX,
    ensures
        policy is LeastRequest ==> forall|other: int|
            0 <= other < servers.len() ==> counts[servers[pick] as int]
                <= counts[#[trigger] servers[other] as int],
        policy is PowerOfTwo ==> exists|a: int, b: int|
            {
                &&& 0 <= a < servers.len()
                &&& 0 <= b < servers.len()
                &&& pick == a || pick == b
                &&& counts[servers[pick] as int] <= counts[#[trigger] servers[a] as int]
                &&& counts[servers[pick] as int] <= counts[#[trigger] servers[b] as int]
            },
{
    let loads = loads_of(counts, servers);
    if policy is LeastRequest {
        crate::policy::law_least_request_picks_a_least_loaded(
            policy,
            loads,
            from,
            pick,
            after,
            to,
        );
        assert forall|other: int| 0 <= other < servers.len() implies counts[servers[pick] as int]
            <= counts[#[trigger] servers[other] as int] by {
            assert(loads[pick] <= loads[other]);
        }
    }
    if policy is PowerOfTwo {
        if loads.len() > 1 {
            let n = loads.len() as usize;
            let (i, j, between) = choose|i: usize, j: usize, between: Option<StdRng>|
                {
                    &&& #[trigger] draws_index(from, 0, n, i, between)
                    &&& #[trigger] draws_index(between, 0, n, j, to)
                    &&& pick == crate::policy::lighter(loads, i, j)
                };
            let a = i as int;
            let b = j as int;
            assert(loads[a] == counts[servers[a] as int]);
            assert(loads[b] == counts[servers[b] as int]);
            assert(counts[servers[pick] as int] <= counts[servers[a] as int]);
            assert(counts[servers[pick] as int] <= counts[servers[b] as int]);
        } else {
            let a = 0int;
            assert(counts[servers[pick] as int] <= counts[servers[a] as int]);
        }
    }
}

/// A pushed task goes to one of the balancer's own servers, which then has one task more, and
/// carries the balancer and the server with it unless it is passed on for another balancer.
/// What it asks for stays as it was. With least request no own server holds fewer tasks of the
/// balancer; with the power of two choices neither of the two that were drawn does.
pub proof fn law_pushed_task_goes_to_an_own_server(
    before: LbState,
    task: Task,
    pick: int,
    after: LbState,
    sent: Dispatch,
    from: Option<StdRng>,
    to: Option<StdRng>,
    other: int,
)
    requires
        before.wf(),
        before.can_count(),
        pushes(before, task, pick, after, sent, from, to),
    ensures
        before.servers.contains(sent.server_idx),
        after.inflight[sent.server_idx as int] == before.inflight[sent.server_idx as int] + 1,
        0 <= other < before.inflight.len() && other != sent.server_idx ==> after.inflight[other]
            == before.inflight[other],
        after.queue == before.queue,
        after.waiting == before.waiting,
        after.servers == before.servers,
        sent.task.start == task.start && sent.task.duration == task.duration,
        sent.task.task_id == task.task_id,
        sent.task.evicted_at == task.evicted_at && sent.task.shed_at == task.shed_at,
        before.preserve_client_metadata ==> sent.task == task,
        !before.preserve_client_metadata ==> sent.task.lb_id == before.lb_id
            && sent.task.origin_server_idx == sent.server_idx,
        before.policy is LeastRequest && 0 <= other < before.servers.len()
            ==> before.inflight[sent.server_idx as int]
            <= before.inflight[before.servers[other] as int],
        before.policy is PowerOfTwo ==> exists|a: int, b: int|
            {
                &&& 0 <= a < before.servers.len()
                &&& 0 <= b < before.servers.len()
                &&& sent.server_idx == #[trigger] before.servers[a] || sent.server_idx
                    == #[trigger] before.servers[b]
                &&& before.inflight[sent.server_idx as int]
                    <= before.inflight[before.servers[a] as int]
                &&& before.inflight[sent.server_idx as int]
                    <= before.inflight[before.servers[b] as int]
            },
{
    let loads = loads_of(before.inflight, before.servers);
    assert(before.servers[pick] == sent.server_idx);
    assert(before.servers[pick] < before.n_servers);
    if before.policy is LeastRequest && 0 <= other < before.servers.len() {
        crate::policy::law_kinds_build_alike(
            LoadBalancePolicyKind::LeastRequest,
            before.policy,
            before.policy,
            loads,
            from,
            pick,
            after.policy,
            to,
        );
        assert(loads[pick] <= loads[other]);
    }
    if before.policy is PowerOfTwo {
        if loads.len() > 1 {
            let n = loads.len() as usize;
            let (i, j, between) = choose|i: usize, j: usize, between: Option<StdRng>|
                {
                    &&& #[trigger] draws_index(from, 0, n, i, between)
                    &&& #[trigger] draws_index(between, 0, n, j, to)
                    &&& pick == crate::policy::lighter(loads, i, j)
                };
            assert(loads[i as int] == before.inflight[before.servers[i as int] as int]);
            assert(loads[j as int] == before.inflight[before.servers[j as int] as int]);
            let a = i as int;
            let b = j as int;
            assert(sent.server_idx == before.servers[a] || sent.server_idx == before.servers[b]);
        } else {
            let a = 0int;
            assert(sent.server_idx == before.servers[a]);
        }
    }
}

/// A task that is announced waits at the end of the queue under a number of its own, which no
/// task before it had, and its intent names the balancer and that number. The server that is
/// told has one intent more outstanding; with least request no own server had fewer.
pub proof fn law_announced_task_waits_under_its_number(
    state: LbState,
    task: Task,
    pick: int,
    after: LbState,
    sent: IntentDispatch,
    from: Option<StdRng>,
    to: Option<StdRng>,
    other: int,
)
    requires
        state.wf(),
        state.can_count(),
        announces(
            state.with_numbered(task),
            state.next_task_id,
            pick,
            after,
            sent,
            from,
            to,
        ),
    ensures
        after.queue.len() == state.queue.len() + 1,
        0 <= other < state.queue.len() ==> after.queue[other] == state.queue[other],
        after.queue.last().task_id == state.next_task_id,
        after.queue.last().start == task.start,
        after.queue.last().duration == task.duration,
        after.next_task_id == state.next_task_id + 1,
        sent.intent.sender_id == state.lb_id,
        sent.intent.request_id == after.queue.last().task_id,
        state.servers.contains(sent.server_idx),
        after.intent_load[sent.server_idx as int] == state.intent_load[sent.server_idx as int] + 1,
        0 <= other < state.intent_load.len() && other != sent.server_idx
            ==> after.intent_load[other] == state.intent_load[other],
        after.inflight == state.inflight,
        state.policy is LeastRequest && 0 <= other < state.servers.len()
            ==> state.intent_load[sent.server_idx as int]
            <= state.intent_load[state.servers[other] as int],
{
    let queued = state.with_numbered(task);
    let loads = loads_of(queued.intent_load, queued.servers);
    assert(state.servers[pick] == sent.server_idx);
    assert(state.servers[pick] < state.n_servers);
    if state.policy is LeastRequest && 0 <= other < state.servers.len() {
        crate::policy::law_kinds_build_alike(
            LoadBalancePolicyKind::LeastRequest,
            state.policy,
            state.policy,
            loads,
            from,
            pick,
            after.policy,
            to,
        );
        assert(loads[pick] <= loads[other]);
    }
}

/// A probing balancer sends a task to a candidate that no other kept candidate reports less
/// load than, and to the oldest of several; it is used up by that. Without a candidate any
/// server may get the task. Up to two servers are probed, none twice and none that is still a
/// candidate. No task is queued.
pub proof fn law_probing_sends_to_the_best_candidate(
    before: LbState,
    task: Task,
    due: usize,
    after: LbState,
    dispatch: Option<Dispatch>,
    probes: Seq<usize>,
    removed: usize,
    from: Option<StdRng>,
    to: Option<StdRng>,
)
    requires
        before.wf(),
        before.can_count(),
        forall|i: int, j: int|
            #![trigger before.pool[i], before.pool[j]]
            0 <= i < j < before.pool.len() ==> before.pool[i].server_idx
                != before.pool[j].server_idx,
        takes_probing(before, task, due, after, dispatch, probes, removed, from, to),
    ensures
        removed == if due <= before.pool.len() {
            due as nat
        } else {
            before.pool.len()
        },
        before.n_servers > 0 ==> dispatch is Some,
        after.queue == before.queue,
        probes.len() <= 2,
        probes.no_duplicates(),
        forall|i: int|
            0 <= i < probes.len() ==> (#[trigger] probes[i]) < before.n_servers && forall|j: int|
                0 <= j < after.pool.len() ==> (#[trigger] after.pool[j]).server_idx != probes[i],
        dispatch matches Some(sent) ==> {
            &&& sent.server_idx < before.n_servers
            &&& after.inflight[sent.server_idx as int] == before.inflight[sent.server_idx as int] + 1
            &&& forall|i: int|
                0 <= i < before.inflight.len() && i != sent.server_idx ==> after.inflight[i]
                    == #[trigger] before.inflight[i]
            &&& before.pool.len() > due ==> exists|i: int|
                {
                    &&& 0 <= i < without_worst(before.pool, due as nat).len()
                    &&& (#[trigger] without_worst(before.pool, due as nat)[i]).server_idx
                        == sent.server_idx
                    &&& forall|j: int|
                        0 <= j < without_worst(before.pool, due as nat).len()
                            ==> without_worst(before.pool, due as nat)[i].rif
                            <= (#[trigger] without_worst(before.pool, due as nat)[j]).rif
                    &&& after.pool == without_worst(before.pool, due as nat).remove(i)
                }
            &&& before.pool.len() <= due ==> after.pool.len() == 0
        },
{
    crate::prequal::law_removals_take_the_most_loaded(before.pool, due as nat);
    let kept = without_worst(before.pool, due as nat);
    if let Some(sent) = dispatch {
        let between = choose|between: Option<StdRng>|
            {
                &&& #[trigger] probed_choice(
                    kept,
                    before.n_servers,
                    from,
                    sent.server_idx,
                    between,
                )
                &&& may_probe(
                    before.n_servers,
                    after.pool,
                    R_PROBE as nat,
                    between,
                    probes,
                    to,
                )
            };
        crate::prequal::law_probes_go_outside_the_pool(
            before.n_servers,
            after.pool,
            R_PROBE as nat,
            between,
            probes,
            to,
        );
        if kept.len() > 0 {
            let i = choose|i: int| #[trigger]
                is_best(kept, i) && kept[i].server_idx == sent.server_idx;
            assert(candidate_at(kept, sent.server_idx, i));
            assert(after.pool == kept.remove(i));
            assert(kept[i].server_idx == sent.server_idx);
        } else {
            assert(!pooled(kept, sent.server_idx));
        }
    }
}

/// A reply makes its server the newest candidate, with the load that it reports. Any older
/// candidate of that server is gone, and where the pool is full the oldest one; all others stay
/// in their order.
pub proof fn law_reply_makes_the_newest_candidate(
    before: Seq<Candidate>,
    cap: nat,
    reply: ProbeReply,
    after: Seq<Candidate>,
    at: int,
)
    requires
        pool_with(before, cap, reply, after),
        0 < cap,
        before.len() <= cap,
        forall|i: int, j: int|
            #![trigger before[i], before[j]]
            0 <= i < j < before.len() ==> before[i].server_idx != before[j].server_idx,
    ensures
        0 < after.len() <= cap,
        after.last().server_idx == reply.server_idx,
        after.last().rif == reply.rif,
        after.last().uses == 0,
        0 <= at < before.len() && before[at].server_idx == reply.server_idx ==> after.drop_last()
            == before.remove(at),
        (forall|i: int|
            0 <= i < before.len() ==> (#[trigger] before[i]).server_idx != reply.server_idx) ==> {
            &&& before.len() < cap ==> after.drop_last() == before
            &&& before.len() == cap ==> after.drop_last() == before.remove(0)
        },
{
    let fresh = Candidate { server_idx: reply.server_idx, rif: reply.rif, uses: 0 };
    if pooled(before, reply.server_idx) {
        let i = choose|i: int|
            0 <= i < before.len() && (#[trigger] before[i]).server_idx == reply.server_idx;
        assert(candidate_at(before, reply.server_idx, i));
        assert(after == before.remove(i).push(fresh));
        assert(before.remove(i).push(fresh).drop_last() =~= before.remove(i));
        if 0 <= at < before.len() && before[at].server_idx == reply.server_idx {
            assert(candidate_at(before, reply.server_idx, at));
            assert(before.remove(at).push(fresh).drop_last() =~= before.remove(at));
        }
    } else {
        assert(before.push(fresh).drop_last() =~= before);
        if before.len() == cap {
            assert(before.remove(0).push(fresh).drop_last() =~= before.remove(0));
        }
        if 0 <= at < before.len() {
            assert(before[at].server_idx != reply.server_idx);
        }
    }
}

/// A server that finds no task waits behind the servers that already do, and is served in that
/// turn. Nothing else changes.
pub proof fn law_servers_wait_in_turn(state: LbState, server: usize, i: int)
    ensures
        state.with_waiting(server).waiting.len() == state.waiting.len() + 1,
        state.with_waiting(server).waiting.last() == server,
        0 <= i < state.waiting.len() ==> state.with_waiting(server).waiting[i] == state.waiting[i],
        state.with_waiting(server).queue == state.queue,
        state.with_waiting(server).inflight == state.inflight,
{
}

/// A task that was sent counts at its server until it is released there, and nowhere else.
pub proof fn law_counts_follow_tasks(state: LbState, server: usize, i: int)
    requires
        server < state.inflight.len(),
        0 <= i < state.inflight.len(),
    ensures
        state.inflight[server as int] < u32::MAX ==> state.sent_to(server).inflight[server as int]
            == state.inflight[server as int] + 1,
        state.inflight[server as int] > 0 ==> state.released(server).inflight[server as int]
            == state.inflight[server as int] - 1,
        state.inflight[server as int] == 0 ==> state.released(server).inflight[server as int] == 0,
        i != server ==> state.sent_to(server).inflight[i] == state.inflight[i] && state.released(
            server,
        ).inflight[i] == state.inflight[i],
        state.released(server).queue == state.queue && state.released(server).waiting
            == state.waiting,
{
}

} // verus!
