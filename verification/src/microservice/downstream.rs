//! The balancer that all callers of a microservice share, and the gateway through which a
//! replica reaches such balancers.
//!
//! The shared balancer pushes calls to servers, or keeps them in one queue that the servers
//! pull from.

use super::balancer::{calls_of, enqueue_call, hold_slot, push_to, with_call};
use super::callgraph::names_of;
use super::histogram::{
    bin_of, count_up_to, new_histogram, record_value, recorded_count, recorded_in, MsHistogram,
    DIGITS, MAX_RECORDED,
};
use super::hop::{CallModel, Hop, HopModel, OutboundCall, OutboundRelease, ReleaseModel};
use crate::load_balancer::{gather, loads_of, one_less, zeros};
use crate::ms_centralized_audit::{CentralizedEventKind, MsCentralizedAudit};
use crate::policy::{
    law_one_generator_picks_alike, lemma_ascending_unique, AnyPolicy, CentralizedSchedKind,
    LoadBalancePolicy, LoadBalancePolicyKind,
};
use crate::queues::take_front;
use crate::rng::{draws_index, random_usize_range, RunRng};
use crate::text::Text;
use rand::rngs::StdRng;
use vstd::multiset::Multiset;
use std::collections::VecDeque;
use vstd::prelude::*;

verus! {

/// How many calls have to be seen before their slack is used for routing.
pub const CORR_SLACK_DIST_WARMUP: u64 = 200;

/// The rank of a call among `total` calls of which `below` have no more slack: 0 in the
/// lower half, 1 up to four fifths, 2 above.
pub open spec fn rank_in(total: nat, below: nat) -> usize {
    if 2 * below < total {
        0
    } else if 5 * below < 4 * total {
        1
    } else {
        2
    }
}

pub fn rank_among(total: u64, below: u64) -> (r: usize)
    ensures
        r == rank_in(total as nat, below as nat),
{
    if 2 * (below as u128) < total as u128 {
        0
    } else if 5 * (below as u128) < 4 * (total as u128) {
        1
    } else {
        2
    }
}

/// The milliseconds that a call has left until its deadline: cut off, and rounded. The
/// difference of two points in time is a floating-point number, so it is read off where the
/// clock is, and comes here in whole numbers.
#[derive(Clone, Copy, Debug, PartialEq, Eq, Structural)]
pub struct Slack {
    pub floor_ms: u64,
    pub rounded_ms: u64,
}

/// The rank of a call among the calls seen before it; a call whose deadline has passed has no
/// `slack`.
pub open spec fn corr_rank_of(seen: Multiset<u64>, slack: Option<Slack>) -> usize {
    if seen.len() < CORR_SLACK_DIST_WARMUP {
        0
    } else {
        match slack {
            None => 10,
            Some(left) => rank_in(
                seen.len(),
                seen.filter(|x: u64| bin_of(x as nat) <= bin_of(left.floor_ms as nat)).len(),
            ),
        }
    }
}

/// The rank of a call among the calls seen before it.
pub fn corr_rank(slack_hist: &MsHistogram, slack: Option<Slack>) -> (r: usize)
    requires
        recorded_in(*slack_hist).len() <= u64::MAX,
    ensures
        r == corr_rank_of(recorded_in(*slack_hist), slack),
{
    let total: u64 = recorded_count(slack_hist);
    if total < CORR_SLACK_DIST_WARMUP {
        return 0;
    }
    match slack {
        None => 10,
        Some(left) => {
            let below: u64 = count_up_to(slack_hist, left.floor_ms);
            rank_among(total, below)
        },
    }
}

/// `levels` are the different values of `loads`, lowest first.
pub open spec fn are_levels(loads: Seq<u32>, levels: Seq<u32>) -> bool {
    &&& forall|i: int, j: int|
        #![trigger levels[i], levels[j]]
        0 <= i < j < levels.len() ==> levels[i] < levels[j]
    &&& forall|x: u32| #[trigger] levels.contains(x) <==> loads.contains(x)
}

/// `load` is the one of `rank` among the different values of `loads`; beyond the last rank,
/// the highest.
pub open spec fn is_rank_load(loads: Seq<u32>, rank: usize, load: u32) -> bool {
    exists|levels: Seq<u32>| #[trigger]
        are_levels(loads, levels) && levels.len() > 0 && load == levels[if rank < levels.len() {
            rank as int
        } else {
            levels.len() - 1
        }]
}

/// Those of the first `k` servers that have `load`.
pub open spec fn with_load(servers: Seq<usize>, loads: Seq<u32>, load: u32, k: nat) -> Seq<usize>
    decreases k,
{
    if k == 0 {
        Seq::empty()
    } else {
        let before = with_load(servers, loads, load, (k - 1) as nat);
        if loads[k - 1] == load {
            before.push(servers[k - 1])
        } else {
            before
        }
    }
}

/// The different values of `loads`, lowest first.
fn distinct_levels(loads: &Vec<u32>) -> (r: Vec<u32>)
    ensures
        are_levels(loads@, r@),
{
    let mut levels: Vec<u32> = Vec::new();
    let mut i: usize = 0;
    while i < loads.len()
        invariant
            i <= loads@.len(),
            are_levels(loads@.take(i as int), levels@),
        decreases loads@.len() - i,
    {
        let x: u32 = loads[i];
        let ghost before = levels@;
        let mut at: usize = 0;
        while at < levels.len() && levels[at] < x
            invariant
                at <= levels@.len(),
                levels@ == before,
                forall|j: int| 0 <= j < at ==> (#[trigger] levels@[j]) < x,
            decreases levels@.len() - at,
        {
            at += 1;
        }
        if at == levels.len() || levels[at] != x {
            proof {
                assert forall|j: int| at <= j < before.len() implies x < #[trigger] before[j] by {
                    if at < j {
                        assert(before[at as int] < before[j]);
                    }
                }
            }
            levels.insert(at, x);
        }
        proof {
            let shorter = loads@.take(i as int);
            let longer = loads@.take(i + 1);
            assert(longer =~= shorter.push(x));
            assert forall|y: u32| #[trigger] levels@.contains(y) <==> longer.contains(y) by {
                assert(before.contains(y) <==> shorter.contains(y));
                if longer.contains(y) {
                    let k = choose|k: int| 0 <= k < longer.len() && longer[k] == y;
                    if k < i {
                        assert(shorter[k] == y);
                        assert(shorter.contains(y));
                        let m = choose|m: int| 0 <= m < before.len() && before[m] == y;
                        if levels@.len() > before.len() {
                            assert(levels@[if m < at {
                                m
                            } else {
                                m + 1
                            }] == y);
                        } else {
                            assert(levels@[m] == y);
                        }
                    } else {
                        assert(levels@[at as int] == y);
                    }
                }
                if levels@.contains(y) {
                    let m = choose|m: int| 0 <= m < levels@.len() && levels@[m] == y;
                    if levels@.len() > before.len() {
                        if m == at {
                            assert(longer[i as int] == y);
                        } else {
                            assert(before[if m < at {
                                m
                            } else {
                                m - 1
                            }] == y);
                            assert(before.contains(y));
                            let k = choose|k: int| 0 <= k < shorter.len() && shorter[k] == y;
                            assert(longer[k] == y);
                        }
                    } else {
                        assert(before.contains(y));
                        let k = choose|k: int| 0 <= k < shorter.len() && shorter[k] == y;
                        assert(longer[k] == y);
                    }
                }
            }
        }
        i += 1;
    }
    assert(loads@.take(i as int) =~= loads@);
    levels
}

/// The servers whose load has `rank` among the different loads, in order.
pub fn corr_candidates(servers: &Vec<usize>, loads: &Vec<u32>, rank: usize) -> (r: Vec<usize>)
    requires
        servers@.len() == loads@.len(),
        servers@.len() > 0,
    ensures
        exists|load: u32| #[trigger]
            is_rank_load(loads@, rank, load) && r@ == with_load(
                servers@,
                loads@,
                load,
                servers@.len(),
            ),
        r@.len() > 0,
        forall|i: int| 0 <= i < r@.len() ==> servers@.contains(#[trigger] r@[i]),
{
    let levels = distinct_levels(loads);
    assert(levels@.len() > 0) by {
        assert(loads@.contains(loads@[0]));
        assert(levels@.contains(loads@[0]));
    }
    let load: u32 = if rank < levels.len() {
        levels[rank]
    } else {
        levels[levels.len() - 1]
    };
    assert(is_rank_load(loads@, rank, load));
    assert(levels@.contains(load));
    let mut out: Vec<usize> = Vec::new();
    let mut i: usize = 0;
    while i < servers.len()
        invariant
            i <= servers@.len(),
            servers@.len() == loads@.len(),
            out@ == with_load(servers@, loads@, load, i as nat),
            (exists|j: int| 0 <= j < i && #[trigger] loads@[j] == load) ==> out@.len() > 0,
            forall|j: int| 0 <= j < out@.len() ==> servers@.contains(#[trigger] out@[j]),
        decreases servers@.len() - i,
    {
        if loads[i] == load {
            assert(servers@.contains(servers@[i as int]));
            out.push(servers[i]);
        }
        i += 1;
    }
    assert(out@.len() > 0) by {
        assert(loads@.contains(load));
        let j = choose|j: int| 0 <= j < loads@.len() && loads@[j] == load;
        assert(loads@[j] == load);
    }
    out
}

/// Picks one of the servers whose load has `rank`, whichever the draw gives.
pub fn select_corr_replica(
    server_indices: &Vec<usize>,
    local_inflight: &Vec<u32>,
    rank: usize,
    rng: &mut RunRng,
) -> (r: usize)
    requires
        forall|i: int|
            0 <= i < server_indices@.len() ==> (#[trigger] server_indices@[i])
                < local_inflight@.len(),
    ensures
        server_indices@.len() == 0 ==> r == 0 && final(rng).generator() == old(rng).generator(),
        server_indices@.len() > 0 ==> may_route(
            server_indices@,
            local_inflight@,
            rank,
            r,
            old(rng).generator(),
            final(rng).generator(),
        ),
{
    if server_indices.len() == 0 {
        return 0;
    }
    let loads = gather(local_inflight, server_indices);
    let tied = corr_candidates(server_indices, &loads, rank);
    let pick: usize = random_usize_range(rng, 0..tied.len());
    assert(tied@.contains(tied@[pick as int]));
    assert(draws_index(old(rng).generator(), 0, tied@.len() as usize, pick, rng.generator()));
    tied[pick]
}

/// `server` is drawn from those whose load has `rank`, in a run whose generator goes from
/// `from` to `to`.
pub open spec fn may_route(
    servers: Seq<usize>,
    inflight: Seq<u32>,
    rank: usize,
    server: usize,
    from: Option<StdRng>,
    to: Option<StdRng>,
) -> bool {
    let loads = loads_of(inflight, servers);
    &&& servers.contains(server)
    &&& exists|load: u32, tied: Seq<usize>, at: usize|
        {
            &&& #[trigger] is_rank_load(loads, rank, load)
            &&& tied == with_load(servers, loads, load, servers.len())
            &&& #[trigger] draws_index(from, 0, tied.len() as usize, at, to)
            &&& server == tied[at as int]
        }
}

/// A call on its way to a server.
#[derive(Clone, Debug)]
pub struct DownstreamDispatch {
    pub server: usize,
    pub hop: Hop,
}

/// A dispatched call as a mathematical value.
#[verifier::ext_equal]
pub struct DispatchModel {
    pub server: usize,
    pub hop: HopModel,
}

impl DownstreamDispatch {
    pub open spec fn model(self) -> DispatchModel {
        DispatchModel { server: self.server, hop: self.hop.model() }
    }
}

pub open spec fn dispatches_of(list: Seq<DownstreamDispatch>) -> Seq<DispatchModel> {
    list.map_values(|d: DownstreamDispatch| d.model())
}

/// What a shared balancer is made of.
#[verifier::ext_equal]
pub struct DbState {
    pub policy: AnyPolicy,
    pub lb_policy: LoadBalancePolicyKind,
    pub target: Seq<char>,
    /// Which of the balancers of the target this is.
    pub lb_id: usize,
    /// Calls sent to each server and not released yet.
    pub inflight: Seq<u32>,
    pub servers: Seq<usize>,
    pub queue: Seq<CallModel>,
    /// Servers that asked for a call when there was none.
    pub waiting: Seq<usize>,
    pub sched: CentralizedSchedKind,
    /// Slack of the calls seen, in milliseconds.
    pub slack: Multiset<u64>,
    /// Response times of the calls released, in milliseconds.
    pub responses: Multiset<u64>,
}

impl DbState {
    pub open spec fn wf(self) -> bool {
        &&& self.policy.wf()
        &&& forall|i: int|
            0 <= i < self.servers.len() ==> (#[trigger] self.servers[i]) < self.inflight.len()
        &&& forall|i: int|
            0 <= i < self.waiting.len() ==> (#[trigger] self.waiting[i]) < self.inflight.len()
    }

    /// Not both calls and servers wait.
    pub open spec fn is_settled(self) -> bool {
        self.queue.len() == 0 || self.waiting.len() == 0
    }

    /// One more call at `server`.
    pub open spec fn sent_to(self, server: usize) -> DbState {
        DbState {
            inflight: self.inflight.update(
                server as int,
                (self.inflight[server as int] + 1) as u32,
            ),
            ..self
        }
    }

    /// One call fewer at `server`, if there is such a server.
    pub open spec fn released(self, server: usize) -> DbState {
        if server < self.inflight.len() {
            DbState {
                inflight: self.inflight.update(
                    server as int,
                    one_less(self.inflight[server as int]),
                ),
                ..self
            }
        } else {
            self
        }
    }

    /// `call` as it is sent to `server`.
    pub open spec fn dispatch(self, server: usize, call: CallModel) -> DispatchModel {
        DispatchModel {
            server,
            hop: if self.lb_policy.pulls_centrally() {
                call.hop.holding(self.target, server)
            } else {
                call.hop.pushed(self.target, server)
            },
        }
    }

    pub open spec fn with_queued(self, call: CallModel) -> DbState {
        DbState { queue: with_call(self.queue, call, self.sched is Edf), ..self }
    }

    /// Queued calls and waiting servers, paired off from the front.
    pub open spec fn paired(self) -> nat {
        if self.waiting.len() <= self.queue.len() {
            self.waiting.len()
        } else {
            self.queue.len()
        }
    }

    /// The first waiting server gets the first queued call.
    pub open spec fn served_one(self) -> DbState {
        DbState { queue: self.queue.remove(0), waiting: self.waiting.remove(0), ..self }.sent_to(
            self.waiting[0],
        )
    }

    /// The state once `k` waiting servers got a queued call each.
    pub open spec fn served_waiting(self, k: nat) -> DbState
        decreases k,
    {
        if k == 0 {
            self
        } else {
            self.served_waiting((k - 1) as nat).served_one()
        }
    }

    /// What is sent when `k` waiting servers get a queued call each.
    pub open spec fn served_dispatches(self, k: nat) -> Seq<DispatchModel> {
        Seq::new(k, |i: int| self.dispatch(self.waiting[i], self.queue[i]))
    }

    /// The state once `server` has asked for a call: it gets the first one, or waits.
    pub open spec fn pulled(self, server: usize) -> DbState {
        if !self.lb_policy.pulls_centrally() {
            self
        } else if self.queue.len() == 0 {
            DbState { waiting: self.waiting.push(server), ..self }
        } else {
            (DbState { queue: self.queue.remove(0), ..self }).sent_to(server)
        }
    }

    /// What `server` gets when it asks for a call.
    pub open spec fn pull_answer(self, server: usize) -> Option<DispatchModel> {
        if self.lb_policy.pulls_centrally() && self.queue.len() > 0 {
            Some(self.dispatch(server, self.queue[0]))
        } else {
            None
        }
    }

    /// The state once a call has given its slot back.
    pub open spec fn told(self, release: ReleaseModel) -> DbState {
        if release.target_microservice != self.target {
            self
        } else if self.lb_policy is Corr && release.response_time_ms > 0 {
            DbState {
                responses: self.responses.insert(release.response_time_ms),
                ..self.released(release.target_server)
            }
        } else {
            self.released(release.target_server)
        }
    }

    /// A call can still be counted at any server, even `more` times.
    pub open spec fn can_count(self, more: nat) -> bool {
        forall|i: int|
            0 <= i < self.inflight.len() ==> (#[trigger] self.inflight[i]) + more <= u32::MAX
    }

    /// The slack of a call was seen; that of a call whose deadline has passed is not kept.
    pub open spec fn with_slack(self, slack: Option<Slack>) -> DbState {
        match slack {
            None => self,
            Some(left) => DbState { slack: self.slack.insert(left.rounded_ms), ..self },
        }
    }
}

/// `after` and `server` are what may become of a shared balancer that pushes a call to a
/// server of the policy's choice, in a run whose generator goes from `from` to `to`.
pub open spec fn pushes_shared(
    before: DbState,
    pick: int,
    after: DbState,
    server: usize,
    from: Option<StdRng>,
    to: Option<StdRng>,
) -> bool {
    &&& 0 <= pick < before.servers.len()
    &&& server == before.servers[pick]
    &&& before.policy.may_select(
        loads_of(before.inflight, before.servers),
        from,
        pick,
        after.policy,
        to,
    )
    &&& after == (DbState { policy: after.policy, ..before.sent_to(server) })
}

/// `event` records that a call was queued.
pub open spec fn is_enqueue_event(
    state: DbState,
    call: CallModel,
    event: CentralizedEventKind,
) -> bool {
    event matches CentralizedEventKind::CallEnqueued {
        target,
        lb_id,
        caller_server,
        request_id,
        queue_len_before,
    } && target@ == state.target && lb_id == state.lb_id && caller_server == (
    match call.hop.caller {
        Some(caller) => caller.server,
        None => 0,
    }) && request_id == call.hop.request_id && queue_len_before == state.queue.len()
}

/// `event` records that a call was sent to `server`.
pub open spec fn is_dispatch_event(
    state: DbState,
    server: usize,
    call: CallModel,
    event: CentralizedEventKind,
) -> bool {
    event matches CentralizedEventKind::CallDispatched { target, lb_id, server_idx, request_id }
        && target@ == state.target && lb_id == state.lb_id && server_idx == server && request_id
        == call.hop.request_id
}

/// The trail of `k` waiting servers that got a queued call each.
pub open spec fn served_trail(
    state: DbState,
    k: nat,
    before: Option<MsCentralizedAudit>,
    after: Option<MsCentralizedAudit>,
) -> bool {
    match before {
        None => after is None,
        Some(trail) => after matches Some(longer) && {
            &&& longer@.len() == trail@.len() + k
            &&& longer@.take(trail@.len() as int) == trail@
            &&& forall|i: int|
                0 <= i < k ==> is_dispatch_event(
                    state,
                    state.waiting[i],
                    state.queue[i],
                    #[trigger] longer@[trail@.len() + i],
                )
        },
    }
}

/// The trail of a call that was queued.
pub open spec fn enqueued_trail(
    state: DbState,
    call: CallModel,
    before: Option<MsCentralizedAudit>,
    after: Option<MsCentralizedAudit>,
) -> bool {
    match before {
        None => after is None,
        Some(trail) => after matches Some(longer) && longer@.len() == trail@.len() + 1
            && longer@.drop_last() == trail@ && is_enqueue_event(state, call, longer@.last()),
    }
}

/// What becomes of a call that reaches a shared balancer.
#[derive(Clone, Debug)]
pub enum SharedOutcome {
    /// It cannot be made, for this reason.
    Refused(String),
    /// These calls are sent.
    Sent(Vec<DownstreamDispatch>),
}

/// The balancer that all callers of a microservice share.
pub struct DownstreamBalancer {
    policy: AnyPolicy,
    lb_policy: LoadBalancePolicyKind,
    target_microservice: String,
    lb_id: usize,
    local_inflight: Vec<u32>,
    server_indices: Vec<usize>,
    slack_histogram: MsHistogram,
    response_time_histogram: MsHistogram,
    queue: VecDeque<OutboundCall>,
    waiting_servers: VecDeque<usize>,
    sched: CentralizedSchedKind,
}

impl View for DownstreamBalancer {
    type V = DbState;

    closed spec fn view(&self) -> DbState {
        DbState {
            policy: self.policy,
            lb_policy: self.lb_policy,
            target: self.target_microservice@,
            lb_id: self.lb_id,
            inflight: self.local_inflight@,
            servers: self.server_indices@,
            queue: calls_of(self.queue@),
            waiting: self.waiting_servers@,
            sched: self.sched,
            slack: recorded_in(self.slack_histogram),
            responses: recorded_in(self.response_time_histogram),
        }
    }
}

impl DownstreamBalancer {
    pub open spec fn wf(&self) -> bool {
        self@.wf()
    }

    pub fn new(
        target_microservice: String,
        lb_id: usize,
        n_servers: usize,
        server_indices: Vec<usize>,
        lb_policy: LoadBalancePolicyKind,
        sched: CentralizedSchedKind,
    ) -> (r: DownstreamBalancer)
        requires
            forall|i: int|
                0 <= i < server_indices@.len() ==> (#[trigger] server_indices@[i]) < n_servers,
        ensures
            r.wf(),
            lb_policy.pushes_downstream_by(r@.policy),
            r@ == (DbState {
                policy: r@.policy,
                lb_policy,
                target: target_microservice@,
                lb_id,
                inflight: Seq::new(n_servers as nat, |i: int| 0u32),
                servers: server_indices@,
                queue: Seq::empty(),
                waiting: Seq::empty(),
                sched,
                slack: Multiset::empty(),
                responses: Multiset::empty(),
            }),
    {
        let r = DownstreamBalancer {
            policy: lb_policy.downstream_push_policy(),
            lb_policy,
            target_microservice,
            lb_id,
            local_inflight: zeros(n_servers),
            server_indices,
            slack_histogram: new_histogram(DIGITS),
            response_time_histogram: new_histogram(DIGITS),
            queue: VecDeque::new(),
            waiting_servers: VecDeque::new(),
            sched,
        };
        assert(calls_of(r.queue@) =~= Seq::<CallModel>::empty());
        r
    }

    /// How many calls wait for a server.
    pub fn queue_len(&self) -> (r: usize)
        ensures
            r == self@.queue.len(),
    {
        self.queue.len()
    }

    /// The servers that calls are sent to.
    pub fn server_indices(&self) -> (r: &Vec<usize>)
        ensures
            r@ == self@.servers,
    {
        &self.server_indices
    }

    fn dispatch_to_server(&mut self, server: usize, call: OutboundCall) -> (r: DownstreamDispatch)
        requires
            old(self).wf(),
            server < old(self)@.inflight.len(),
            old(self)@.inflight[server as int] < u32::MAX,
        ensures
            final(self).wf(),
            final(self)@ == old(self)@.sent_to(server),
            r.model() == old(self)@.dispatch(server, call.model()),
    {
        let count: u32 = self.local_inflight[server];
        self.local_inflight.set(server, count + 1);
        let hop = if self.lb_policy.uses_central_pull_queue() {
            hold_slot(call.hop, &self.target_microservice, server)
        } else {
            push_to(call.hop, &self.target_microservice, server)
        };
        assert(self@ =~= old(self)@.sent_to(server));
        DownstreamDispatch { server, hop }
    }

    /// Gives waiting servers the calls at the head of the queue.
    fn dispatch_waiting(&mut self, audit: &mut Option<MsCentralizedAudit>) -> (r: Vec<
        DownstreamDispatch,
    >)
        requires
            old(self).wf(),
            old(self)@.can_count(old(self)@.paired()),
        ensures
            final(self).wf(),
            final(self)@ == old(self)@.served_waiting(old(self)@.paired()),
            dispatches_of(r@) == old(self)@.served_dispatches(old(self)@.paired()),
            served_trail(old(self)@, old(self)@.paired(), *old(audit), *final(audit)),
            final(self)@.is_settled(),
    {
        let ghost start = self@;
        let ghost pairs = start.paired();
        let mut out: Vec<DownstreamDispatch> = Vec::new();
        assert(dispatches_of(out@) =~= start.served_dispatches(0));
        let ghost mut k: nat = 0;
        if let Some(trail) = audit {
            assert(trail@.take(trail@.len() as int) =~= trail@);
        }
        while self.waiting_servers.len() > 0 && self.queue.len() > 0
            invariant
                self.wf(),
                start == old(self)@,
                start.wf(),
                pairs == start.paired(),
                start.can_count(pairs),
                k <= pairs,
                self@ == start.served_waiting(k),
                self@.waiting == start.waiting.skip(k as int),
                self@.queue == start.queue.skip(k as int),
                self@.inflight.len() == start.inflight.len(),
                self@.target == start.target,
                self@.lb_id == start.lb_id,
                self@.lb_policy == start.lb_policy,
                forall|i: int|
                    0 <= i < start.inflight.len() ==> (#[trigger] self@.inflight[i])
                        <= start.inflight[i] + k,
                dispatches_of(out@) == start.served_dispatches(k),
                served_trail(start, k, *old(audit), *audit),
            decreases self.queue@.len(),
        {
            let ghost here = self@;
            assert(here.waiting[0] == start.waiting[k as int]);
            assert(here.queue[0] == start.queue[k as int]);
            let server: usize = take_front(&mut self.waiting_servers);
            let call = take_front(&mut self.queue);
            assert(calls_of(self.queue@) =~= here.queue.remove(0));
            assert(call.model() == here.queue[0]);
            proof {
                assert(start.waiting[k as int] < start.inflight.len());
                assert(here.inflight[server as int] <= start.inflight[server as int] + k);
                assert(start.inflight[server as int] + pairs <= u32::MAX);
                assert forall|i: int| 0 <= i < self@.waiting.len() implies (
                #[trigger] self@.waiting[i]) < self@.inflight.len() by {
                    assert(self@.waiting[i] == here.waiting[i + 1]);
                }
            }
            if let Some(trail) = audit {
                let ghost shorter = trail@;
                trail.record_call_dispatched(
                    &self.target_microservice,
                    self.lb_id,
                    server,
                    call.hop.request_id,
                );
                proof {
                    let b = (*old(audit))->0@;
                    assert(trail@.drop_last() == shorter);
                    assert(trail@.take(b.len() as int) =~= shorter.take(b.len() as int));
                    assert forall|i: int| 0 <= i < k + 1 implies is_dispatch_event(
                        start,
                        start.waiting[i],
                        start.queue[i],
                        #[trigger] trail@[b.len() + i],
                    ) by {
                        if i < k {
                            assert(trail@.drop_last()[b.len() + i] == shorter[b.len() + i]);
                        }
                    }
                }
            }
            let dispatch = self.dispatch_to_server(server, call);
            let ghost had = out@;
            out.push(dispatch);
            proof {
                assert(dispatches_of(out@) =~= dispatches_of(had).push(dispatch.model()));
                assert(start.served_dispatches(k + 1) =~= start.served_dispatches(k).push(
                    dispatch.model(),
                ));
                assert(self@ =~= here.served_one());
                k = k + 1;
                assert(self@.waiting =~= start.waiting.skip(k as int));
                assert(self@.queue =~= start.queue.skip(k as int));
            }
        }
        assert(k == pairs);
        out
    }

    /// A call reaches the balancer with `slack` left.
    pub fn outbound(
        &mut self,
        call: OutboundCall,
        slack: Option<Slack>,
        rng: &mut RunRng,
        audit: &mut Option<MsCentralizedAudit>,
    ) -> (r: SharedOutcome)
        requires
            old(self).wf(),
            old(self)@.can_count(old(self)@.queue.len() + 1),
            old(self)@.slack.len() < u64::MAX,
            slack matches Some(left) ==> left.rounded_ms <= MAX_RECORDED,
        ensures
            final(self).wf(),
            ({
                let state = old(self)@;
                let model = call.model();
                if model.target_microservice != state.target {
                    &&& r matches SharedOutcome::Refused(text) && text@
                        == "downstream balancer outbound: unexpected target "@
                        + model.target_microservice + " (expected "@ + state.target + ")"@
                    &&& final(self)@ == state
                    &&& final(rng).generator() == old(rng).generator()
                    &&& *final(audit) == *old(audit)
                } else if state.servers.len() == 0 || state.inflight.len() == 0 {
                    &&& r matches SharedOutcome::Refused(text) && text@
                        == "downstream balancer outbound: no servers for microservice "@
                        + state.target
                    &&& final(self)@ == state
                    &&& final(rng).generator() == old(rng).generator()
                    &&& *final(audit) == *old(audit)
                } else if state.lb_policy.pulls_centrally() {
                    let queued = state.with_queued(model);
                    &&& r matches SharedOutcome::Sent(sent) && dispatches_of(sent@)
                        == queued.served_dispatches(queued.paired())
                    &&& final(self)@ == queued.served_waiting(queued.paired())
                    &&& final(self)@.is_settled()
                    &&& final(rng).generator() == old(rng).generator()
                    &&& exists|between: Option<MsCentralizedAudit>| #[trigger]
                        enqueued_trail(state, model, *old(audit), between) && served_trail(
                            queued,
                            queued.paired(),
                            between,
                            *final(audit),
                        )
                } else if state.lb_policy is Corr {
                    &&& r matches SharedOutcome::Sent(sent) && exists|server: usize| #[trigger]
                        may_route(
                            state.servers,
                            state.inflight,
                            corr_rank_of(state.slack, slack),
                            server,
                            old(rng).generator(),
                            final(rng).generator(),
                        ) && dispatches_of(sent@) == seq![state.dispatch(server, model)]
                            && final(self)@ == state.with_slack(slack).sent_to(server)
                    &&& *final(audit) == *old(audit)
                } else {
                    &&& r matches SharedOutcome::Sent(sent) && exists|pick: int, server: usize|
                        #[trigger]
                        pushes_shared(
                            state,
                            pick,
                            final(self)@,
                            server,
                            old(rng).generator(),
                            final(rng).generator(),
                        ) && dispatches_of(sent@) == seq![state.dispatch(server, model)]
                    &&& *final(audit) == *old(audit)
                }
            }),
    {
        let ghost start = self@;
        let ghost model = call.model();
        if call.target_microservice != self.target_microservice {
            return SharedOutcome::Refused(
                Text::of("downstream balancer outbound: unexpected target ").lit(
                    &call.target_microservice,
                ).lit(" (expected ").lit(&self.target_microservice).lit(")").done(),
            );
        }
        if self.server_indices.len() == 0 || self.local_inflight.len() == 0 {
            return SharedOutcome::Refused(
                Text::of("downstream balancer outbound: no servers for microservice ").lit(
                    &self.target_microservice,
                ).done(),
            );
        }
        if self.lb_policy.uses_central_pull_queue() {
            if let Some(trail) = audit {
                let caller_server: usize = match &call.hop.caller {
                    Some(caller) => caller.server,
                    None => 0,
                };
                trail.record_call_enqueued(
                    &self.target_microservice,
                    self.lb_id,
                    caller_server,
                    call.hop.request_id,
                    self.queue.len(),
                );
            }
            assert(enqueued_trail(start, model, *old(audit), *audit));
            let by_deadline = self.sched.uses_edf();
            enqueue_call(&mut self.queue, call, by_deadline);
            proof {
                let queued = start.with_queued(model);
                assert(self@ =~= queued);
                lemma_with_call_len(start.queue, model, by_deadline);
                assert forall|i: int| 0 <= i < queued.inflight.len() implies (
                #[trigger] queued.inflight[i]) + queued.paired() <= u32::MAX by {
                    assert(start.inflight[i] + (start.queue.len() + 1) <= u32::MAX);
                }
            }
            return SharedOutcome::Sent(self.dispatch_waiting(audit));
        }
        assert forall|i: int| 0 <= i < start.inflight.len() implies (#[trigger] start.inflight[i])
            < u32::MAX by {
            assert(start.inflight[i] + (start.queue.len() + 1) <= u32::MAX);
        }
        let server: usize = if self.lb_policy.is_corr() {
            let rank: usize = corr_rank(&self.slack_histogram, slack);
            let server: usize = select_corr_replica(
                &self.server_indices,
                &self.local_inflight,
                rank,
                rng,
            );
            if let Some(left) = slack {
                record_value(&mut self.slack_histogram, left.rounded_ms);
            }
            assert(self@ =~= start.with_slack(slack));
            proof {
                let i = choose|i: int| 0 <= i < start.servers.len() && start.servers[i] == server;
                assert(start.servers[i] < start.inflight.len());
            }
            server
        } else {
            let loads = gather(&self.local_inflight, &self.server_indices);
            let picked: usize = self.policy.select(loads.as_slice(), rng);
            let server: usize = self.server_indices[picked];
            assert(start.servers[picked as int] == server);
            assert(pushes_shared(
                start,
                picked as int,
                (DbState { policy: self@.policy, ..start.sent_to(server) }),
                server,
                old(rng).generator(),
                rng.generator(),
            ));
            server
        };
        let dispatch = self.dispatch_to_server(server, call);
        let mut sent: Vec<DownstreamDispatch> = Vec::new();
        sent.push(dispatch);
        assert(dispatches_of(sent@) =~= seq![start.dispatch(server, model)]);
        proof {
            if !(start.lb_policy is Corr) {
                assert(self@ =~= (DbState { policy: self@.policy, ..start.sent_to(server) }));
            }
        }
        SharedOutcome::Sent(sent)
    }

    /// A server asks for a call.
    pub fn pull(&mut self, server_idx: usize, audit: &mut Option<MsCentralizedAudit>) -> (r: Option<
        DownstreamDispatch,
    >)
        requires
            old(self).wf(),
            server_idx < old(self)@.inflight.len(),
            old(self)@.inflight[server_idx as int] < u32::MAX,
        ensures
            final(self).wf(),
            ({
                let state = old(self)@;
                &&& final(self)@ == state.pulled(server_idx)
                &&& match r {
                    Some(sent) => state.pull_answer(server_idx) == Some(sent.model()),
                    None => state.pull_answer(server_idx) is None,
                }
                &&& if state.pull_answer(server_idx) is None {
                    *final(audit) == *old(audit)
                } else {
                    match *old(audit) {
                        None => *final(audit) is None,
                        Some(trail) => *final(audit) matches Some(longer) && longer@.len()
                            == trail@.len() + 1 && longer@.drop_last() == trail@
                            && is_dispatch_event(
                            state,
                            server_idx,
                            state.queue[0],
                            longer@.last(),
                        ),
                    }
                }
            }),
    {
        let ghost start = self@;
        if !self.lb_policy.uses_central_pull_queue() {
            return None;
        }
        if self.queue.len() == 0 {
            self.waiting_servers.push_back(server_idx);
            assert(self@ =~= (DbState { waiting: start.waiting.push(server_idx), ..start }));
            return None;
        }
        let call = take_front(&mut self.queue);
        assert(calls_of(self.queue@) =~= start.queue.remove(0));
        assert(call.model() == start.queue[0]);
        if let Some(trail) = audit {
            trail.record_call_dispatched(
                &self.target_microservice,
                self.lb_id,
                server_idx,
                call.hop.request_id,
            );
        }
        Some(self.dispatch_to_server(server_idx, call))
    }

    /// A call gives its slot back. Its response time is kept where it is of use.
    pub fn release(&mut self, release: OutboundRelease)
        requires
            old(self).wf(),
            old(self)@.responses.len() < u64::MAX,
            release.response_time_ms <= MAX_RECORDED,
        ensures
            final(self).wf(),
            final(self)@ == old(self)@.told(release.model()),
    {
        let ghost start = self@;
        if release.target_microservice != self.target_microservice {
            return ;
        }
        if release.target_server < self.local_inflight.len() {
            let count: u32 = self.local_inflight[release.target_server];
            self.local_inflight.set(release.target_server, count.saturating_sub(1));
        }
        assert(self@ =~= start.released(release.target_server));
        if self.lb_policy.is_corr() && release.response_time_ms > 0 {
            record_value(&mut self.response_time_histogram, release.response_time_ms);
        }
    }
}

proof fn lemma_with_call_len(queue: Seq<CallModel>, call: CallModel, by_deadline: bool)
    ensures
        with_call(queue, call, by_deadline).len() == queue.len() + 1,
{
    crate::scheduling::lemma_edf_in_range(
        super::balancer::call_deadlines(queue),
        call.hop.deadline,
        0,
    );
}

/// A shared queue never keeps a call and a server waiting at the same time: whatever
/// reaches the balancer, a call or a server, leaves it so.
pub proof fn law_shared_queue_is_work_conserving(state: DbState, call: CallModel, server: usize)
    requires
        state.is_settled(),
    ensures
        ({
            let queued = state.with_queued(call);
            queued.served_waiting(queued.paired()).is_settled()
        }),
        state.pulled(server).is_settled(),
{
    let queued = state.with_queued(call);
    lemma_with_call_len(state.queue, call, state.sched is Edf);
    lemma_served_lengths(queued, queued.paired());
}

proof fn lemma_served_lengths(state: DbState, k: nat)
    requires
        k <= state.paired(),
    ensures
        state.served_waiting(k).queue.len() == state.queue.len() - k,
        state.served_waiting(k).waiting.len() == state.waiting.len() - k,
    decreases k,
{
    if k > 0 {
        lemma_served_lengths(state, (k - 1) as nat);
    }
}

/// A call that gives its slot back takes away what it added when it was sent.
pub proof fn law_shared_release_undoes_dispatch(state: DbState, server: usize)
    requires
        server < state.inflight.len(),
        state.inflight[server as int] < u32::MAX,
    ensures
        state.sent_to(server).released(server) == state,
{
    assert(state.sent_to(server).released(server).inflight =~= state.inflight);
}

/// The gateway through which a replica reaches the shared balancers.
pub struct OutboundGateway {
    targets: Vec<String>,
}

impl OutboundGateway {
    /// The microservices that can be called.
    pub closed spec fn targets(&self) -> Seq<Seq<char>> {
        names_of(self.targets@)
    }

    pub fn new(targets: Vec<String>) -> (r: OutboundGateway)
        ensures
            r.targets() == names_of(targets@),
    {
        OutboundGateway { targets }
    }

    fn knows(&self, target: &String) -> (r: bool)
        ensures
            r == self.targets().contains(target@),
    {
        let mut i: usize = 0;
        while i < self.targets.len()
            invariant
                i <= self.targets@.len(),
                forall|j: int| 0 <= j < i ==> (#[trigger] self.targets@[j])@ != target@,
            decreases self.targets@.len() - i,
        {
            if self.targets[i] == *target {
                assert(self.targets()[i as int] == target@);
                return true;
            }
            i += 1;
        }
        assert forall|j: int| 0 <= j < self.targets().len() implies self.targets()[j] != target@ by {
            assert(self.targets@[j]@ != target@);
        }
        false
    }

    /// Passes a call on to the balancer of its target.
    pub fn input(&self, call: OutboundCall) -> (r: Result<OutboundCall, String>)
        ensures
            match r {
                Ok(passed) => self.targets().contains(call.target_microservice@) && passed == call,
                Err(text) => !self.targets().contains(call.target_microservice@) && text@
                    == "outbound gateway: unknown target microservice "@
                    + call.target_microservice@,
            },
    {
        if self.knows(&call.target_microservice) {
            Ok(call)
        } else {
            Err(
                Text::of("outbound gateway: unknown target microservice ").lit(
                    &call.target_microservice,
                ).done(),
            )
        }
    }

    /// Passes a release on to the balancer of its target; drops it where there is none.
    pub fn release(&self, release: OutboundRelease) -> (r: Option<OutboundRelease>)
        ensures
            r == if self.targets().contains(release.target_microservice@) {
                Some(release)
            } else {
                None
            },
    {
        if self.knows(&release.target_microservice) {
            Some(release)
        } else {
            None
        }
    }
}

impl DbState {
    /// The same balancer, with the same picks to come from one generator.
    pub open spec fn agrees(self, other: DbState) -> bool {
        &&& self.policy.alike(other.policy)
        &&& self == (DbState { policy: self.policy, ..other })
    }
}

proof fn lemma_one_rank_load(loads: Seq<u32>, rank: usize, a: u32, b: u32)
    requires
        is_rank_load(loads, rank, a),
        is_rank_load(loads, rank, b),
    ensures
        a == b,
{
    let x = choose|levels: Seq<u32>| #[trigger]
        are_levels(loads, levels) && levels.len() > 0 && a == levels[if rank < levels.len() {
            rank as int
        } else {
            levels.len() - 1
        }];
    let y = choose|levels: Seq<u32>| #[trigger]
        are_levels(loads, levels) && levels.len() > 0 && b == levels[if rank < levels.len() {
            rank as int
        } else {
            levels.len() - 1
        }];
    let p = x.map_values(|v: u32| v as int);
    let q = y.map_values(|v: u32| v as int);
    assert(p.len() == x.len() && q.len() == y.len());
    assert forall|v: int| #[trigger] p.contains(v) <==> q.contains(v) by {
        if p.contains(v) {
            let i = choose|i: int| 0 <= i < p.len() && p[i] == v;
            assert(x.contains(x[i]));
            assert(y.contains(x[i]));
            let j = choose|j: int| 0 <= j < y.len() && y[j] == x[i];
            assert(q[j] == v);
        }
        if q.contains(v) {
            let i = choose|i: int| 0 <= i < q.len() && q[i] == v;
            assert(y.contains(y[i]));
            assert(x.contains(y[i]));
            let j = choose|j: int| 0 <= j < x.len() && x[j] == y[i];
            assert(p[j] == v);
        }
    }
    lemma_ascending_unique(p, q);
    assert forall|i: int| 0 <= i < x.len() implies x[i] == y[i] by {
        assert(p[i] == q[i]);
    }
}

/// Shared balancers that agree send a call to one server in runs with one generator, agree
/// afterwards, and leave one generator. So does a pick by rank among equal loads.
pub proof fn law_one_generator_shares_alike(
    a: DbState,
    b: DbState,
    rank: usize,
    generator: StdRng,
    i: int,
    after_a: DbState,
    server_a: usize,
    to_a: Option<StdRng>,
    j: int,
    after_b: DbState,
    server_b: usize,
    to_b: Option<StdRng>,
)
    requires
        a.agrees(b),
    ensures
        pushes_shared(a, i, after_a, server_a, Some(generator), to_a) && pushes_shared(
            b,
            j,
            after_b,
            server_b,
            Some(generator),
            to_b,
        ) ==> server_a == server_b && after_a.agrees(after_b) && to_a == to_b,
        may_route(a.servers, a.inflight, rank, server_a, Some(generator), to_a) && may_route(
            b.servers,
            b.inflight,
            rank,
            server_b,
            Some(generator),
            to_b,
        ) ==> server_a == server_b && to_a == to_b,
{
    let loads = loads_of(a.inflight, a.servers);
    if pushes_shared(a, i, after_a, server_a, Some(generator), to_a) && pushes_shared(
        b,
        j,
        after_b,
        server_b,
        Some(generator),
        to_b,
    ) {
        law_one_generator_picks_alike(
            a.policy,
            b.policy,
            loads,
            generator,
            i,
            after_a.policy,
            to_a,
            j,
            after_b.policy,
            to_b,
        );
    }
    if may_route(a.servers, a.inflight, rank, server_a, Some(generator), to_a) && may_route(
        b.servers,
        b.inflight,
        rank,
        server_b,
        Some(generator),
        to_b,
    ) {
        let (x, tied_x, at_x) = choose|load: u32, tied: Seq<usize>, at: usize|
            {
                &&& #[trigger] is_rank_load(loads, rank, load)
                &&& tied == with_load(a.servers, loads, load, a.servers.len())
                &&& #[trigger] draws_index(Some(generator), 0, tied.len() as usize, at, to_a)
                &&& server_a == tied[at as int]
            };
        let (y, tied_y, at_y) = choose|load: u32, tied: Seq<usize>, at: usize|
            {
                &&& #[trigger] is_rank_load(loads, rank, load)
                &&& tied == with_load(a.servers, loads, load, a.servers.len())
                &&& #[trigger] draws_index(Some(generator), 0, tied.len() as usize, at, to_b)
                &&& server_b == tied[at as int]
            };
        lemma_one_rank_load(loads, rank, x, y);
    }
}

/// A shared queue that is first come, first served keeps the order of arrival: a call that no
/// server waits for goes behind all calls before it. One that is kept by deadline has a call
/// go behind those that are due no later and before the first that is due later. No call is
/// sent then, and no count changes.
pub proof fn law_shared_calls_wait_in_order(state: DbState, call: CallModel)
    requires
        state.waiting.len() == 0,
    ensures
        ({
            let queued = state.with_queued(call);
            let after = queued.served_waiting(queued.paired());
            &&& queued.served_dispatches(queued.paired()).len() == 0
            &&& after.inflight == state.inflight
            &&& after.waiting == state.waiting
            &&& state.sched == CentralizedSchedKind::Fcfs ==> {
                &&& after.queue.len() == state.queue.len() + 1
                &&& after.queue.last() == call
                &&& forall|i: int|
                    0 <= i < state.queue.len() ==> after.queue[i] == #[trigger] state.queue[i]
            }
            &&& state.sched == CentralizedSchedKind::Edf ==> exists|at: int|
                {
                    &&& 0 <= at <= state.queue.len()
                    &&& after.queue == #[trigger] state.queue.insert(at, call)
                    &&& forall|i: int|
                        0 <= i < at ==> (#[trigger] state.queue[i]).hop.deadline
                            <= call.hop.deadline
                    &&& at < state.queue.len() ==> state.queue[at].hop.deadline
                        > call.hop.deadline
                }
        }),
{
    super::balancer::law_calls_queue_in_order(state.queue, call);
    let queued = state.with_queued(call);
    assert(queued.paired() == 0);
}

/// A call that reaches a shared queue while servers wait goes at once to the one that has
/// waited longest, and is counted there; the others keep their turns.
pub proof fn law_longest_waiting_server_gets_the_call(state: DbState, call: CallModel)
    requires
        state.waiting.len() > 0,
        state.queue.len() == 0,
        state.waiting[0] < state.inflight.len(),
        state.inflight[state.waiting[0] as int] < u32::MAX,
    ensures
        ({
            let queued = state.with_queued(call);
            let after = queued.served_waiting(queued.paired());
            let sent = queued.served_dispatches(queued.paired());
            &&& sent.len() == 1
            &&& sent[0].server == state.waiting[0]
            &&& sent[0].hop.request_id == call.hop.request_id
            &&& sent[0].hop.endpoint == call.hop.endpoint
            &&& after.queue.len() == 0
            &&& after.waiting.len() == state.waiting.len() - 1
            &&& forall|i: int|
                0 <= i < after.waiting.len() ==> #[trigger] after.waiting[i] == state.waiting[i + 1]
            &&& after.inflight[state.waiting[0] as int] == state.inflight[state.waiting[0] as int]
                + 1
            &&& forall|i: int|
                0 <= i < state.inflight.len() && i != state.waiting[0] ==> after.inflight[i]
                    == #[trigger] state.inflight[i]
        }),
{
    super::balancer::law_calls_queue_in_order(state.queue, call);
    let queued = state.with_queued(call);
    lemma_with_call_len(state.queue, call, state.sched is Edf);
    let by_deadline = state.sched is Edf;
    let queue = with_call(state.queue, call, by_deadline);
    if by_deadline {
        let at = choose|at: int|
            {
                &&& 0 <= at <= state.queue.len()
                &&& queue == #[trigger] state.queue.insert(at, call)
            };
        assert(queue[0] == call);
    }
    assert(queued.queue[0] == call);
    assert(queued.paired() == 1);
    reveal_with_fuel(DbState::served_waiting, 2);
}

/// A server that asks a shared queue for a call gets the first one, holds the slot for it, and
/// is counted with one call more; the others move up in their order. Where none waits, the
/// server does, behind those that already do. A balancer that pushes answers no such request.
pub proof fn law_pull_takes_the_first_call(state: DbState, server: usize)
    requires
        server < state.inflight.len(),
        state.inflight[server as int] < u32::MAX,
    ensures
        ({
            let after = state.pulled(server);
            let central = state.lb_policy == LoadBalancePolicyKind::Centralized || state.lb_policy
                == LoadBalancePolicyKind::Jbsq;
            &&& central && state.queue.len() > 0 ==> {
                &&& state.pull_answer(server) matches Some(sent) && sent.server == server
                    && sent.hop.request_id == state.queue[0].hop.request_id && sent.hop.endpoint
                    == state.queue[0].hop.endpoint && sent.hop.caller == state.queue[0].hop.caller
                    && sent.hop.slot_release == Some(
                    ReleaseModel {
                        target_microservice: state.target,
                        target_server: server,
                        response_time_ms: 0,
                    },
                )
                &&& after.queue.len() == state.queue.len() - 1
                &&& forall|i: int|
                    0 <= i < after.queue.len() ==> #[trigger] after.queue[i] == state.queue[i + 1]
                &&& after.inflight[server as int] == state.inflight[server as int] + 1
                &&& forall|i: int|
                    0 <= i < state.inflight.len() && i != server ==> after.inflight[i]
                        == #[trigger] state.inflight[i]
                &&& after.waiting == state.waiting
            }
            &&& central && state.queue.len() == 0 ==> {
                &&& state.pull_answer(server) is None
                &&& after.waiting.len() == state.waiting.len() + 1
                &&& after.waiting.last() == server
                &&& forall|i: int|
                    0 <= i < state.waiting.len() ==> after.waiting[i] == #[trigger] state.waiting[i]
                &&& after.inflight == state.inflight
                &&& after.queue.len() == 0
            }
            &&& !central ==> state.pull_answer(server) is None && after == state
        }),
{
}

/// Of two calls that reach a shared first-come-first-served queue one after the other, the
/// earlier one is sent first: whoever pulls, the first pull that takes either of them takes the
/// earlier one.
pub proof fn law_earlier_call_is_sent_first(state: DbState, a: CallModel, b: CallModel, server: usize)
    requires
        state.sched == CentralizedSchedKind::Fcfs,
        state.lb_policy == LoadBalancePolicyKind::Centralized || state.lb_policy
            == LoadBalancePolicyKind::Jbsq,
        state.waiting.len() == 0,
    ensures
        ({
            let both = state.with_queued(a).with_queued(b);
            let n = state.queue.len() as int;
            &&& both.queue[n] == a
            &&& both.queue[n + 1] == b
            &&& n == 0 ==> {
                &&& both.pull_answer(server)->0.hop.request_id == a.hop.request_id
                &&& both.pull_answer(server)->0.hop.endpoint == a.hop.endpoint
                &&& both.pulled(server).pull_answer(server)->0.hop.request_id == b.hop.request_id
                &&& both.pulled(server).pull_answer(server)->0.hop.endpoint == b.hop.endpoint
            }
            &&& n > 0 ==> both.pulled(server).queue[n - 1] == a && both.pulled(server).queue[n]
                == b && both.pull_answer(server)->0.hop.request_id == state.queue[0].hop.request_id
        }),
{
}

/// The rank of a call: 0 until two hundred calls have been seen. From then on a call whose
/// deadline has passed ranks beyond all others; of any other, it counts which share of the
/// calls seen had no more slack, as far as the histogram tells: less than a half, less than
/// four fifths, or more.
pub proof fn law_rank_follows_the_slack(seen: Multiset<u64>, slack: Option<Slack>)
    ensures
        seen.len() < 200 ==> corr_rank_of(seen, slack) == 0,
        seen.len() >= 200 && slack is None ==> corr_rank_of(seen, slack) == 10,
        seen.len() >= 200 ==> (slack matches Some(left) ==> {
            let no_more = seen.filter(
                |x: u64| bin_of(x as nat) <= bin_of(left.floor_ms as nat),
            ).len();
            &&& 2 * no_more < seen.len() ==> corr_rank_of(seen, slack) == 0
            &&& 2 * no_more >= seen.len() && 5 * no_more < 4 * seen.len() ==> corr_rank_of(
                seen,
                slack,
            ) == 1
            &&& 5 * no_more >= 4 * seen.len() ==> corr_rank_of(seen, slack) == 2
        }),
{
}

/// The histogram tells small values apart, and never mixes up the order of two values.
pub proof fn law_bins_keep_the_order(a: nat, b: nat)
    requires
        a <= b,
    ensures
        bin_of(a) <= bin_of(b),
        bin_of(a) <= a,
        a < 256 ==> bin_of(a) == a,
        a < b && b < 256 ==> bin_of(a) < bin_of(b),
    decreases b,
{
    if a >= 256 {
        law_bins_keep_the_order(a / 2, b / 2);
    } else if b >= 256 {
        lemma_large_bin(b);
    }
}

proof fn lemma_large_bin(b: nat)
    requires
        b >= 256,
    ensures
        bin_of(b) >= 256,
    decreases b,
{
    if b / 2 >= 256 {
        lemma_large_bin(b / 2);
    } else {
        assert(bin_of(b / 2) == b / 2);
    }
}

/// A call that is routed by rank goes to one of the servers of the balancer whose number of
/// calls comes in that place among the different numbers there are, lowest first, or in the
/// last place where there are not so many. With rank 0 no server has fewer calls.
pub proof fn law_rank_picks_by_load(
    servers: Seq<usize>,
    inflight: Seq<u32>,
    rank: usize,
    server: usize,
    from: Option<StdRng>,
    to: Option<StdRng>,
)
    requires
        may_route(servers, inflight, rank, server, from, to),
        forall|i: int| 0 <= i < servers.len() ==> (#[trigger] servers[i]) < inflight.len(),
        servers.len() <= usize::MAX,
    ensures
        servers.contains(server),
        exists|levels: Seq<u32>, place: int|
            {
                &&& 0 <= place < levels.len()
                &&& place == rank || rank > place && place == levels.len() - 1
                &&& inflight[server as int] == #[trigger] levels[place]
                &&& forall|i: int, j: int| 0 <= i < j < levels.len() ==> levels[i] < levels[j]
                &&& forall|i: int|
                    0 <= i < servers.len() ==> levels.contains(
                        inflight[#[trigger] servers[i] as int],
                    )
                &&& forall|x: u32| #[trigger]
                    levels.contains(x) ==> exists|i: int|
                        0 <= i < servers.len() && inflight[#[trigger] servers[i] as int] == x
            },
        rank == 0 ==> forall|i: int|
            0 <= i < servers.len() ==> inflight[server as int]
                <= inflight[#[trigger] servers[i] as int],
{
    let loads = loads_of(inflight, servers);
    let (load, tied, at) = choose|load: u32, tied: Seq<usize>, at: usize|
        {
            &&& #[trigger] is_rank_load(loads, rank, load)
            &&& tied == with_load(servers, loads, load, servers.len())
            &&& #[trigger] draws_index(from, 0, tied.len() as usize, at, to)
            &&& server == tied[at as int]
        };
    lemma_with_load(servers, inflight, load, servers.len());
    assert(tied[at as int] == server);
    assert(inflight[server as int] == load);
    let levels = choose|levels: Seq<u32>| #[trigger]
        are_levels(loads, levels) && levels.len() > 0 && load == levels[if rank < levels.len() {
            rank as int
        } else {
            levels.len() - 1
        }];
    assert forall|i: int| 0 <= i < servers.len() implies levels.contains(
        inflight[#[trigger] servers[i] as int],
    ) by {
        assert(loads[i] == inflight[servers[i] as int]);
        assert(loads.contains(loads[i]));
    }
    assert forall|x: u32| #[trigger] levels.contains(x) implies exists|i: int|
        0 <= i < servers.len() && inflight[#[trigger] servers[i] as int] == x by {
        assert(loads.contains(x));
        let i = choose|i: int| 0 <= i < loads.len() && loads[i] == x;
        assert(inflight[servers[i] as int] == x);
    }
    if rank == 0 {
        assert forall|i: int| 0 <= i < servers.len() implies inflight[server as int]
            <= inflight[#[trigger] servers[i] as int] by {
            let x = inflight[servers[i] as int];
            assert(levels.contains(x));
            let k = choose|k: int| 0 <= k < levels.len() && levels[k] == x;
            if k > 0 {
                assert(levels[0] < levels[k]);
            }
        }
    }
    let place = if rank < levels.len() {
        rank as int
    } else {
        levels.len() - 1
    };
    assert(inflight[server as int] == levels[place]);
}

proof fn lemma_with_load(servers: Seq<usize>, inflight: Seq<u32>, load: u32, k: nat)
    requires
        k <= servers.len(),
    ensures
        with_load(servers, loads_of(inflight, servers), load, k).len() <= k,
        forall|i: int|
            0 <= i < with_load(servers, loads_of(inflight, servers), load, k).len()
                ==> inflight[#[trigger] with_load(
                servers,
                loads_of(inflight, servers),
                load,
                k,
            )[i] as int] == load,
    decreases k,
{
    if k > 0 {
        lemma_with_load(servers, inflight, load, (k - 1) as nat);
    }
}

/// A call that a shared balancer pushes goes to one of its servers, which is counted with one
/// call more. With least request no server has fewer calls of all callers together; with the
/// power of two choices none of the two that were drawn has.
pub proof fn law_shared_push_goes_to_a_light_server(
    before: DbState,
    pick: int,
    after: DbState,
    server: usize,
    from: Option<StdRng>,
    to: Option<StdRng>,
    j: int,
)
    requires
        before.wf(),
        before.servers.len() <= usize::MAX,
        before.inflight[server as int] < u32::MAX,
        pushes_shared(before, pick, after, server, from, to),
    ensures
        before.servers.contains(server),
        after.inflight[server as int] == before.inflight[server as int] + 1,
        0 <= j < before.inflight.len() && j != server ==> after.inflight[j] == before.inflight[j],
        after.queue == before.queue,
        before.policy is LeastRequest && 0 <= j < before.servers.len()
            ==> before.inflight[server as int] <= before.inflight[before.servers[j] as int],
        before.policy is PowerOfTwo ==> exists|a: int, b: int|
            {
                &&& 0 <= a < before.servers.len()
                &&& 0 <= b < before.servers.len()
                &&& server == before.servers[a] || server == before.servers[b]
                &&& before.inflight[server as int]
                    <= before.inflight[#[trigger] before.servers[a] as int]
                &&& before.inflight[server as int]
                    <= before.inflight[#[trigger] before.servers[b] as int]
            },
{
    crate::load_balancer::lemma_pick_respects_counts(
        before.policy,
        before.inflight,
        before.servers,
        from,
        pick,
        after.policy,
        to,
    );
    assert(before.servers[pick] == server);
    assert(before.servers[pick] < before.inflight.len());
    if before.policy is PowerOfTwo {
        let (a, b) = choose|a: int, b: int|
            {
                &&& 0 <= a < before.servers.len()
                &&& 0 <= b < before.servers.len()
                &&& pick == a || pick == b
                &&& before.inflight[before.servers[pick] as int]
                    <= before.inflight[#[trigger] before.servers[a] as int]
                &&& before.inflight[before.servers[pick] as int]
                    <= before.inflight[#[trigger] before.servers[b] as int]
            };
        assert(server == before.servers[a] || server == before.servers[b]);
    }
}

/// A release that a shared balancer is told of takes one call away at its server, if one is
/// counted there. It concerns no other target and no other server. Response times are kept
/// only where calls are routed by rank, and only those that are not zero.
pub proof fn law_release_concerns_its_own_target(state: DbState, release: ReleaseModel, j: int)
    ensures
        release.target_microservice != state.target ==> state.told(release) == state,
        release.target_microservice == state.target && release.target_server < state.inflight.len()
            && state.inflight[release.target_server as int] > 0 ==> state.told(
            release,
        ).inflight[release.target_server as int] == state.inflight[release.target_server as int]
            - 1,
        0 <= j < state.inflight.len() && j != release.target_server ==> state.told(
            release,
        ).inflight[j] == state.inflight[j],
        state.told(release).queue == state.queue,
        state.told(release).waiting == state.waiting,
        release.target_microservice == state.target && state.lb_policy
            == LoadBalancePolicyKind::Corr && release.response_time_ms > 0 ==> state.told(
            release,
        ).responses == state.responses.insert(release.response_time_ms),
        state.lb_policy != LoadBalancePolicyKind::Corr || release.response_time_ms == 0
            ==> state.told(release).responses == state.responses,
{
}

/// The slack of a call is kept, rounded, among those that later calls are ranked against, unless
/// its deadline has passed.
pub proof fn law_slack_is_kept_for_later_calls(state: DbState, left: Slack)
    ensures
        state.with_slack(Some(left)).slack.len() == state.slack.len() + 1,
        state.with_slack(Some(left)).slack.count(left.rounded_ms) == state.slack.count(
            left.rounded_ms,
        ) + 1,
        state.with_slack(None).slack == state.slack,
        state.with_slack(Some(left)).inflight == state.inflight,
{
}

} // verus!
