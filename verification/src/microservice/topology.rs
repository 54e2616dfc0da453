//! The parts of a run, laid out over a call graph: who calls whom through which balancer.

use super::balancer::{EdgeBalancer, EdgeState, RbState, ReplicaBalancer, TargetModel};
use super::callgraph::{names_of, CallGraph, GraphModel};
use super::downstream::{DbState, DownstreamBalancer, OutboundGateway};
use super::hop::microservice_for_endpoint;
use super::replica::{CentralPull, Replica, ReplicaConfig, ReplicaState};
use super::sidecar::{n_sidecars, sidecar_of};
use super::simulate::{downstream_targets, listed, plan_replica, slots_of};
use crate::lb_simulate::copy_subset;
use crate::policy::{
    centralized_subset_error, validate_centralized_subset, AnyPolicy, ApproxSchedKind,
    CentralizedSchedKind, LoadBalancePolicyKind, PullPolicyKind,
};
use crate::rng::RunRng;
use crate::scheduling::SchedulingPolicyKind;
use crate::subset::{
    assign_subset, deterministic_subset_of, disjoint, distinct_below, draws_subset, indices, subset_count,
    subset_len, subset_table, SubsetPolicyKind,
};
use crate::text::Text;
use rand::rngs::StdRng;
use vstd::multiset::Multiset;
use vstd::prelude::*;

verus! {

/// What the layout of a run depends on.
#[derive(Clone, Copy, Debug, PartialEq, Eq, Structural)]
pub struct MsPlan {
    pub lb_policy: LoadBalancePolicyKind,
    pub pull_policy: Option<PullPolicyKind>,
    pub lb_subset_size: u32,
    pub lb_subset_policy: SubsetPolicyKind,
    pub scheduling: SchedulingPolicyKind,
    pub centralized_sched: CentralizedSchedKind,
    pub approx_sched: Option<ApproxSchedKind>,
    pub approx_share: u32,
    pub jbsq_n: Option<u32>,
}

impl MsPlan {
    /// At how many places a microservice with `n` servers takes intents.
    pub open spec fn places(self, n: nat) -> nat {
        if self.lb_policy is ApproxShare && n > 0 {
            sidecar_of((n - 1) as nat, self.approx_share) + 1
        } else {
            n
        }
    }

    /// The policy by which a replica picks where its calls go, or where it announces them.
    pub open spec fn is_outbound_policy(self, policy: AnyPolicy) -> bool {
        match (self.lb_policy.sends_intents(), self.pull_policy) {
            (true, Some(pull)) => pull.builds(policy),
            _ => self.lb_policy.builds(policy),
        }
    }

    fn outbound_policy(&self) -> (r: AnyPolicy)
        ensures
            self.is_outbound_policy(r),
    {
        if self.lb_policy.uses_approx_protocol() {
            match self.pull_policy {
                Some(policy) => policy.build(),
                None => self.lb_policy.build(),
            }
        } else {
            self.lb_policy.build()
        }
    }
}

/// The indices `0..n`.
fn all_of(n: usize) -> (r: Vec<usize>)
    ensures
        r@ == indices(n as nat),
{
    let mut out: Vec<usize> = Vec::new();
    let mut i: usize = 0;
    while i < n
        invariant
            i <= n,
            out@ == indices(i as nat),
        decreases n - i,
    {
        out.push(i);
        assert(out@ =~= indices((i + 1) as nat));
        i += 1;
    }
    out
}

/// The edge balancer of an API, and the microservice that it leads to. It sends requests to
/// any server of that microservice, whatever the subset size.
pub fn plan_edge(graph: &CallGraph, plan: &MsPlan, api: &String) -> (r: Result<
    (String, EdgeBalancer),
    String,
>)
    requires
        graph.wf(),
        graph@.is_complete(),
    ensures
        match r {
            Ok((entry, balancer)) => {
                &&& graph@.entries.dom().contains(api@)
                &&& graph@.owners.dom().contains(graph@.entries[api@])
                &&& entry@ == graph@.owners[graph@.entries[api@]]
                &&& balancer.wf()
                &&& plan.lb_policy.enters_by(balancer@.policy)
                &&& balancer@ == (EdgeState {
                    policy: balancer@.policy,
                    api: api@,
                    inflight: Seq::new(
                        graph@.specs[entry@].replicas as nat,
                        |i: int| 0u32,
                    ),
                    servers: indices(graph@.specs[entry@].replicas as nat),
                })
                &&& balancer@.servers.len() > 0
            },
            Err(text) => text@ == if graph@.entries.dom().contains(api@) {
                "unknown endpoint "@ + graph@.entries[api@]
            } else {
                "unknown API "@ + api@
            } && !(graph@.entries.dom().contains(api@) && graph@.owners.dom().contains(
                graph@.entries[api@],
            )),
        },
{
    let endpoint = match graph.entrypoints.get(api) {
        Some(endpoint) => endpoint,
        None => {
            return Err(Text::of("unknown API ").lit(api).done());
        },
    };
    let entry = match microservice_for_endpoint(graph, endpoint) {
        Ok(entry) => entry,
        Err(text) => {
            return Err(text);
        },
    };
    assert(graph@.specs.dom().contains(entry@));
    let n: usize = server_count(graph, &entry);
    let balancer = EdgeBalancer::new(
        plan.lb_policy.ingress_policy(),
        api.clone(),
        n,
        all_of(n),
    );
    Ok((entry, balancer))
}

/// How many servers a microservice has.
fn server_count(graph: &CallGraph, id: &String) -> (n: usize)
    requires
        graph.wf(),
        graph@.is_complete(),
        graph@.specs.dom().contains(id@),
    ensures
        n == graph@.specs[id@].replicas,
        n > 0,
{
    replica_count(graph, id) as usize
}

fn replica_count(graph: &CallGraph, id: &String) -> (n: u32)
    requires
        graph.wf(),
        graph@.is_complete(),
        graph@.specs.dom().contains(id@),
    ensures
        n == graph@.specs[id@].replicas,
        n > 0,
{
    match graph.microservices.get(id) {
        Some(spec) => spec.replicas,
        None => 1,
    }
}

/// What is wrong with the subsets through which the servers of `caller` reach those of
/// `target`. A server of `caller` is a client by its index there.
pub open spec fn call_fault(
    graph: GraphModel,
    plan: MsPlan,
    caller: Seq<char>,
    target: Seq<char>,
) -> Option<Seq<char>> {
    if graph.reaches(caller, target) {
        centralized_subset_error(
            plan.lb_policy,
            graph.specs[target].replicas,
            graph.specs[caller].replicas,
            plan.lb_subset_size,
            plan.lb_subset_policy,
        )
    } else {
        None
    }
}

/// Nothing is wrong before the calls of microservice `c` to microservice `t`, in the order
/// of the graph, callers first.
pub open spec fn faultless_before(graph: GraphModel, plan: MsPlan, c: int, t: int) -> bool {
    forall|i: int, j: int|
        #![trigger graph.order[i], graph.order[j]]
        0 <= i < graph.order.len() && 0 <= j < graph.order.len() && (i < c || i == c && j < t)
            ==> call_fault(graph, plan, graph.order[i], graph.order[j]) is None
}

/// Checks that subsets of a central pull queue split the servers of every called
/// microservice, and that its callers are shared out evenly among them.
pub fn validate_subsets(graph: &CallGraph, plan: &MsPlan) -> (r: Result<(), String>)
    requires
        graph.wf(),
        graph@.is_complete(),
    ensures
        match r {
            Ok(_) => forall|caller: Seq<char>, target: Seq<char>|
                call_fault(graph@, *plan, caller, target) is None,
            Err(text) => exists|c: int, t: int|
                {
                    &&& 0 <= c < graph@.order.len()
                    &&& 0 <= t < graph@.order.len()
                    &&& #[trigger] faultless_before(graph@, *plan, c, t)
                    &&& call_fault(graph@, *plan, graph@.order[c], graph@.order[t]) == Some(text@)
                },
        },
{
    let n: usize = graph.microservice_order.len();
    let mut c: usize = 0;
    while c < n
        invariant
            graph.wf(),
            graph@.is_complete(),
            n == graph@.order.len(),
            c <= n,
            faultless_before(graph@, *plan, c as int, 0),
        decreases n - c,
    {
        let caller = &graph.microservice_order[c];
        assert(graph@.order[c as int] == caller@);
        let targets = downstream_targets(graph, caller);
        let mut t: usize = 0;
        while t < n
            invariant
                graph.wf(),
                graph@.is_complete(),
                n == graph@.order.len(),
                c < n,
                t <= n,
                caller@ == graph@.order[c as int],
                forall|id: Seq<char>| #[trigger]
                    names_of(targets@).contains(id) <==> graph@.reaches(caller@, id),
                faultless_before(graph@, *plan, c as int, t as int),
            decreases n - t,
        {
            let target = &graph.microservice_order[t];
            assert(graph@.order[t as int] == target@);
            if listed(&targets, target) {
                match validate_centralized_subset(
                    plan.lb_policy,
                    replica_count(graph, target),
                    replica_count(graph, caller),
                    plan.lb_subset_size,
                    plan.lb_subset_policy,
                ) {
                    Ok(_) => {},
                    Err(text) => {
                        assert(call_fault(
                            graph@,
                            *plan,
                            graph@.order[c as int],
                            graph@.order[t as int],
                        ) == Some(text@));
                        return Err(text);
                    },
                }
            }
            t += 1;
        }
        c += 1;
    }
    proof {
        assert forall|caller: Seq<char>, target: Seq<char>|
            call_fault(graph@, *plan, caller, target) is None by {
            if graph@.reaches(caller, target) {
                let (endpoint, i) = choose|endpoint: Seq<char>, i: int| #[trigger]
                    graph@.call_at(caller, target, endpoint, i);
                assert(graph@.specs.dom().contains(graph@.owners[endpoint]));
                assert(graph@.owners.dom().contains(graph@.calls(endpoint)[i].target));
                assert(graph@.order.contains(caller));
                assert(graph@.order.contains(target));
                let a = choose|a: int| 0 <= a < graph@.order.len() && graph@.order[a] == caller;
                let b = choose|b: int| 0 <= b < graph@.order.len() && graph@.order[b] == target;
                assert(call_fault(graph@, *plan, graph@.order[a], graph@.order[b]) is None);
            }
        }
    }
    Ok(())
}

/// Where nothing is wrong with the subsets of a central pull queue, they use up the servers
/// of the called microservice, and the number of calling servers is a multiple of theirs.
pub proof fn law_subsets_share_out_callers(
    graph: GraphModel,
    plan: MsPlan,
    caller: Seq<char>,
    target: Seq<char>,
)
    requires
        graph.is_complete(),
        graph.specs.dom().contains(caller),
        graph.specs.dom().contains(target),
        graph.reaches(caller, target),
        plan.lb_policy.pulls_centrally(),
        plan.lb_subset_size > 0,
        call_fault(graph, plan, caller, target) is None,
    ensures
        ({
            let n = graph.specs[target].replicas as nat;
            let size = plan.lb_subset_size as nat;
            &&& plan.lb_subset_policy is Deterministic
            &&& subset_count(n, size) * subset_len(n, size) == n
            &&& graph.specs[caller].replicas as nat % subset_count(n, size) == 0
        }),
{
    let n = graph.specs[target].replicas as int;
    let k = subset_len(n as nat, plan.lb_subset_size as nat) as int;
    vstd::arithmetic::div_mod::lemma_fundamental_div_mod(n, k);
    vstd::arithmetic::mul::lemma_mul_is_commutative(k, n / k);
}

/// `target` is what a replica's balancer starts with for a microservice with `n` servers.
pub open spec fn is_fresh_target(
    plan: MsPlan,
    n: nat,
    server_idx: usize,
    target: TargetModel,
) -> bool {
    let places = plan.places(n);
    &&& target.inflight == Seq::new(n, |i: int| 0u32)
    &&& target.intent_load == Seq::new(places, |i: int| 0u32)
    &&& target.queue.len() == 0
    &&& target.indices.len() == subset_len(places, plan.lb_subset_size as nat)
    &&& distinct_below(target.indices, places)
    &&& plan.lb_subset_policy is Deterministic ==> target.indices == deterministic_subset_of(
        places,
        server_idx as nat,
        plan.lb_subset_size as nat,
    )
}

/// The servers that a replica's balancer picks from are drawn for one of `names` after the
/// other, in a run whose generator goes through `steps`.
pub open spec fn draws_targets(
    plan: MsPlan,
    graph: GraphModel,
    server_idx: usize,
    names: Seq<Seq<char>>,
    targets: Map<Seq<char>, TargetModel>,
    steps: Seq<Option<StdRng>>,
) -> bool {
    &&& steps.len() == names.len() + 1
    &&& forall|i: int|
        0 <= i < names.len() ==> draws_subset(
            plan.lb_subset_policy,
            plan.places(graph.specs[#[trigger] names[i]].replicas as nat) as usize,
            server_idx,
            plan.lb_subset_size,
            steps[i],
            targets[names[i]].indices,
            steps[i + 1],
        )
}

/// The balancer of replica `server_idx` of a microservice: it knows every microservice that
/// the replica calls, and picks from its own subset of the servers there.
pub fn plan_replica_balancer(
    graph: &CallGraph,
    plan: &MsPlan,
    rb_id: usize,
    microservice_id: &String,
    server_idx: usize,
    rng: &mut RunRng,
) -> (r: ReplicaBalancer)
    requires
        graph.wf(),
        graph@.is_complete(),
    ensures
        r.wf(),
        r@ == (RbState {
            policy: r@.policy,
            lb_policy: plan.lb_policy,
            rb_id,
            microservice: microservice_id@,
            server_idx,
            targets: r@.targets,
            approx_sched: plan.approx_sched,
        }),
        plan.is_outbound_policy(r@.policy),
        forall|t: Seq<char>| #[trigger]
            r@.targets.dom().contains(t) <==> graph@.reaches(microservice_id@, t),
        forall|t: Seq<char>| #[trigger]
            r@.targets.dom().contains(t) ==> graph@.specs.dom().contains(t) && is_fresh_target(
                *plan,
                graph@.specs[t].replicas as nat,
                server_idx,
                r@.targets[t],
            ),
        exists|names: Seq<Seq<char>>, steps: Seq<Option<StdRng>>|
            {
                &&& #[trigger] draws_targets(
                    *plan,
                    graph@,
                    server_idx,
                    names,
                    r@.targets,
                    steps,
                )
                &&& names.no_duplicates()
                &&& forall|t: Seq<char>| #[trigger]
                    names.contains(t) <==> graph@.reaches(microservice_id@, t)
                &&& steps[0] == old(rng).generator()
                &&& steps.last() == final(rng).generator()
            },
        plan.lb_subset_policy is Deterministic ==> final(rng).generator() == old(rng).generator(),
{
    let policy = plan.outbound_policy();
    let mut balancer = ReplicaBalancer::new(
        policy,
        plan.lb_policy,
        rb_id,
        microservice_id.clone(),
        server_idx,
        plan.approx_sched,
    );
    let ghost fresh = balancer@;
    let targets = downstream_targets(graph, microservice_id);
    let ghost names = names_of(targets@);
    let ghost mut steps = seq![rng.generator()];
    let mut k: usize = 0;
    while k < targets.len()
        invariant
            graph.wf(),
            graph@.is_complete(),
            balancer.wf(),
            names == names_of(targets@),
            k <= names.len(),
            forall|t: Seq<char>| #[trigger]
                names.contains(t) <==> graph@.reaches(microservice_id@, t),
            balancer@ == (RbState { targets: balancer@.targets, ..fresh }),
            fresh.lb_policy == plan.lb_policy,
            forall|t: Seq<char>| #[trigger]
                balancer@.targets.dom().contains(t) <==> names.take(k as int).contains(t),
            forall|t: Seq<char>| #[trigger]
                balancer@.targets.dom().contains(t) ==> graph@.specs.dom().contains(t)
                    && is_fresh_target(
                    *plan,
                    graph@.specs[t].replicas as nat,
                    server_idx,
                    balancer@.targets[t],
                ),
            names.no_duplicates(),
            draws_targets(
                *plan,
                graph@,
                server_idx,
                names.take(k as int),
                balancer@.targets,
                steps,
            ),
            steps[0] == old(rng).generator(),
            steps.last() == rng.generator(),
            plan.lb_subset_policy is Deterministic ==> rng.generator() == old(rng).generator(),
        decreases names.len() - k,
    {
        let target = &targets[k];
        proof {
            assert(names[k as int] == target@);
            assert(names.contains(target@));
            let (endpoint, i) = choose|endpoint: Seq<char>, i: int| #[trigger]
                graph@.call_at(microservice_id@, target@, endpoint, i);
            assert(graph@.owners.dom().contains(graph@.calls(endpoint)[i].target));
            assert(graph@.specs.dom().contains(target@));
        }
        let n: usize = server_count(graph, target);
        let places: usize = if plan.lb_policy.is_approx_share() {
            n_sidecars(n, plan.approx_share)
        } else {
            n
        };
        assert(places == plan.places(n as nat));
        let picked = assign_subset(
            plan.lb_subset_policy,
            places,
            server_idx,
            plan.lb_subset_size,
            rng,
        );
        let ghost before = balancer@;
        balancer.add_target(target.clone(), picked, n, places);
        proof {
            assert forall|i: int| 0 <= i < k implies balancer@.targets[#[trigger] names[i]]
                == before.targets[names[i]] by {
                assert(names[i] != names[k as int]);
            }
            let drawn = names.take(k as int);
            let more = names.take(k + 1);
            let longer = steps.push(rng.generator());
            assert forall|i: int| 0 <= i < more.len() implies draws_subset(
                plan.lb_subset_policy,
                plan.places(graph@.specs[#[trigger] more[i]].replicas as nat) as usize,
                server_idx,
                plan.lb_subset_size,
                longer[i],
                balancer@.targets[more[i]].indices,
                longer[i + 1],
            ) by {
                if i < k {
                    assert(drawn[i] == names[i]);
                    assert(more[i] == names[i]);
                } else {
                    assert(more[i] == target@);
                }
            }
            steps = longer;
            assert(names.take(k + 1) =~= names.take(k as int).push(target@));
            assert forall|t: Seq<char>| #[trigger]
                balancer@.targets.dom().contains(t) <==> names.take(k + 1).contains(t) by {
                super::simulate::lemma_push_seq(names.take(k as int), target@, t);
                assert(before.targets.dom().contains(t) <==> names.take(k as int).contains(t));
            }
            assert(balancer@.targets[target@].inflight =~= Seq::new(n as nat, |i: int| 0u32));
            assert(balancer@.targets[target@].intent_load =~= Seq::new(
                plan.places(n as nat),
                |i: int| 0u32,
            ));
        }
        k += 1;
    }
    assert(names.take(k as int) =~= names);
    balancer
}

/// A shared balancer of `target` that has seen no call yet.
pub open spec fn is_fresh_shared(
    plan: MsPlan,
    target: Seq<char>,
    n_servers: nat,
    lb_id: usize,
    servers: Seq<usize>,
    b: DbState,
) -> bool {
    &&& plan.lb_policy.pushes_downstream_by(b.policy)
    &&& b == (DbState {
        policy: b.policy,
        lb_policy: plan.lb_policy,
        target,
        lb_id,
        inflight: Seq::new(n_servers, |i: int| 0u32),
        servers,
        queue: Seq::empty(),
        waiting: Seq::empty(),
        sched: plan.centralized_sched,
        slack: Multiset::empty(),
        responses: Multiset::empty(),
    })
}

/// The shared balancers of a microservice: one for each subset of its servers where the
/// policy keeps a queue per subset, otherwise a single one for all of them.
pub fn plan_shared_balancers(graph: &CallGraph, plan: &MsPlan, target: &String) -> (r: Vec<
    DownstreamBalancer,
>)
    requires
        graph.wf(),
        graph@.is_complete(),
        graph@.specs.dom().contains(target@),
    ensures
        r@.len() > 0,
        ({
            let n = graph@.specs[target@].replicas as nat;
            let size = if plan.lb_policy.pulls_centrally() {
                plan.lb_subset_size as nat
            } else {
                0
            };
            &&& r@.len() == subset_count(n, size)
            &&& forall|lb: int|
                0 <= lb < r@.len() ==> {
                    let b = #[trigger] r@[lb];
                    &&& b.wf()
                    &&& is_fresh_shared(
                        *plan,
                        target@,
                        n,
                        lb as usize,
                        deterministic_subset_of(n, lb as nat, size),
                        b@,
                    )
                }
            &&& forall|a: int, b: int|
                #![trigger r@[a], r@[b]]
                0 <= a < r@.len() && 0 <= b < r@.len() && a != b ==> disjoint(
                    r@[a]@.servers,
                    r@[b]@.servers,
                )
        }),
{
    let n: usize = server_count(graph, target);
    let size: u32 = if plan.lb_policy.uses_central_pull_queue() {
        plan.lb_subset_size
    } else {
        0
    };
    let subsets = subset_table(n, size);
    proof {
        vstd::arithmetic::div_mod::lemma_div_non_zero(
            n as int,
            subset_len(n as nat, size as nat) as int,
        );
    }
    let mut out: Vec<DownstreamBalancer> = Vec::new();
    let mut lb: usize = 0;
    while lb < subsets.len()
        invariant
            lb <= subsets@.len(),
            n > 0,
            out@.len() == lb,
            forall|i: int|
                0 <= i < subsets@.len() ==> (#[trigger] subsets@[i])@ == deterministic_subset_of(
                    n as nat,
                    i as nat,
                    size as nat,
                ),
            forall|i: int|
                0 <= i < lb ==> {
                    let b = #[trigger] out@[i];
                    &&& b.wf()
                    &&& is_fresh_shared(*plan, target@, n as nat, i as usize, subsets@[i]@, b@)
                },
        decreases subsets@.len() - lb,
    {
        let servers = copy_subset(&subsets[lb], n, lb, size);
        out.push(
            DownstreamBalancer::new(
                target.clone(),
                lb,
                n,
                servers,
                plan.lb_policy,
                plan.centralized_sched,
            ),
        );
        lb += 1;
    }
    out
}

/// The gateway of the replicas of a microservice: it knows every microservice that they call.
pub fn plan_gateway(graph: &CallGraph, microservice_id: &String) -> (r: OutboundGateway)
    requires
        graph.wf(),
    ensures
        forall|t: Seq<char>| #[trigger]
            r.targets().contains(t) <==> graph@.reaches(microservice_id@, t),
{
    OutboundGateway::new(downstream_targets(graph, microservice_id))
}

/// Replica `server_idx` of a microservice. `is_called` says whether other microservices call
/// it, and `senders` which balancers announce calls to it directly.
pub fn plan_server(
    graph: &CallGraph,
    plan: &MsPlan,
    microservice_id: &String,
    server_idx: usize,
    is_called: bool,
    senders: Vec<usize>,
) -> (r: Replica)
    requires
        graph.wf(),
        graph@.is_complete(),
        graph@.specs.dom().contains(microservice_id@),
    ensures
        r@ == (ReplicaState {
            microservice: microservice_id@,
            server_idx,
            max_concurrency: slots_of(graph@.specs[microservice_id@]),
            in_flight: 0,
            pending_pulls: 0,
            queue: Seq::empty(),
            central: r@.central,
            senders: senders@,
            intents: Seq::empty(),
            scheduling: plan.scheduling,
            approx_sched: plan.approx_sched,
            busy: 0,
        }),
        r@.central is Off <==> !(is_called && plan.lb_policy.pulls_centrally()),
        r@.central is WhenIdle <==> is_called && plan.lb_policy is Centralized,
        is_called && plan.lb_policy is Jbsq ==> r@.central == CentralPull::UpTo(
            match plan.jbsq_n {
                Some(n) => n,
                None => 1,
            },
        ),
{
    let spec = match graph.microservices.get(microservice_id) {
        Some(spec) => *spec,
        None => super::callgraph::MicroserviceSpec { cpu: 1, replicas: 1 },
    };
    let set_up = plan_replica(plan.lb_policy, plan.jbsq_n, spec, is_called);
    Replica::new(
        ReplicaConfig {
            microservice_id: microservice_id.clone(),
            server_idx,
            max_concurrency: set_up.max_concurrency,
            central: set_up.central,
            senders,
            scheduling: plan.scheduling,
            approx_sched: plan.approx_sched,
        },
    )
}

/// At how many places a microservice takes intents: one for each server, or one for each sidecar
/// where servers share sidecars, so many that each covers its share of the servers.
pub proof fn law_places_cover_the_servers(plan: MsPlan, n: nat)
    requires
        n > 0,
    ensures
        plan.lb_policy != LoadBalancePolicyKind::ApproxShare ==> plan.places(n) == n,
        plan.lb_policy == LoadBalancePolicyKind::ApproxShare && plan.approx_share > 0 ==> (
        plan.places(n) - 1) * plan.approx_share < n <= plan.places(n) * plan.approx_share,
        plan.lb_policy == LoadBalancePolicyKind::ApproxShare && plan.approx_share == 0
            ==> plan.places(n) == n,
{
    super::sidecar::law_sidecar_covers_a_row((n - 1) as nat, plan.approx_share);
    let last = sidecar_of((n - 1) as nat, plan.approx_share);
    let share = plan.approx_share as nat;
    assert(share * last == last * share && share * (last + 1) == (last + 1) * share)
        by (nonlinear_arith);
}

/// By which policy a replica makes its calls: by the pull policy where calls are announced, and
/// by the policy of the run where they are pushed.
pub proof fn law_announcements_go_by_the_pull_policy(plan: MsPlan, policy: AnyPolicy)
    requires
        plan.is_outbound_policy(policy),
    ensures
        (plan.lb_policy == LoadBalancePolicyKind::Approx || plan.lb_policy
            == LoadBalancePolicyKind::ApproxShare) && plan.pull_policy is Some
            ==> plan.pull_policy->0.builds(policy),
        plan.lb_policy != LoadBalancePolicyKind::Approx && plan.lb_policy
            != LoadBalancePolicyKind::ApproxShare ==> plan.lb_policy.builds(policy),
{
}

/// A balancer that is laid out has seen nothing: no call is counted anywhere, none waits, and it
/// keeps to the servers that it was given.
pub proof fn law_balancers_start_empty(
    plan: MsPlan,
    n: nat,
    server_idx: usize,
    target: TargetModel,
    name: Seq<char>,
    lb_id: usize,
    servers: Seq<usize>,
    shared: DbState,
    i: int,
)
    requires
        is_fresh_target(plan, n, server_idx, target),
        is_fresh_shared(plan, name, n, lb_id, servers, shared),
    ensures
        target.queue.len() == 0,
        target.inflight.len() == n,
        0 <= i < n ==> target.inflight[i] == 0,
        target.intent_load.len() == plan.places(n),
        0 <= i < plan.places(n) ==> target.intent_load[i] == 0,
        target.indices.no_duplicates(),
        0 <= i < target.indices.len() ==> target.indices[i] < plan.places(n),
        shared.queue.len() == 0 && shared.waiting.len() == 0,
        shared.servers == servers,
        shared.target == name && shared.lb_id == lb_id,
        shared.sched == plan.centralized_sched,
        shared.inflight.len() == n,
        0 <= i < n ==> shared.inflight[i] == 0,
        shared.slack.len() == 0 && shared.responses.len() == 0,
{
}

} // verus!
