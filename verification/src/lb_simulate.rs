//! The `lb` simulation: who is connected to whom, and what a run amounts to.

use crate::load_balancer::LoadBalancer;
use crate::policy::{ApproxSchedKind, LoadBalancePolicyKind, PullPolicyKind};
use crate::rng::RunRng;
use crate::samples::{
    consecutive_diffs, gaps, is_sorted_of, percentile_index, percentile_index_of, sorted,
};
use crate::server::{
    DispatchMode, ExpressEvictionPolicy, QueueDelayEvictionMode, Server, ServerState, Task,
};
use crate::subset::{
    assign_subset, deterministic_subset_of, disjoint, distinct_below, draws_subset, in_some_subset,
    subset_count, subset_len, subset_table, SubsetPolicyKind,
};
use vstd::prelude::*;

verus! {

/// How service times are drawn.
#[derive(Clone, Copy, Debug, PartialEq, Eq, Structural)]
pub enum LbServiceDistribution {
    Exponential,
    Constant,
    Bimodal,
}

/// How times between arrivals are drawn.
#[derive(Clone, Copy, Debug, PartialEq, Eq, Structural)]
pub enum LbArrivalDistribution {
    Exponential,
    Constant,
}

/// When a task leaves for the express lane.
#[derive(Clone, Copy, Debug, PartialEq, Eq, Structural)]
pub enum ExpressEvictionConfig {
    QueueDepth(u32),
    QueueDelay { threshold: u64, ideal: bool },
    Combined { depth_threshold: u32, delay_threshold: u64 },
}

/// The express lane: how many servers it has and when tasks leave for it.
#[derive(Clone, Copy, Debug, PartialEq, Eq, Structural)]
pub struct ExpressLaneConfig {
    pub express_size: u32,
    pub eviction: ExpressEvictionConfig,
}

/// What a run is asked to simulate.
#[derive(Clone, Copy, Debug, PartialEq, Eq, Structural)]
pub struct LbRunArgs {
    pub n: u32,
    pub servers: u32,
    pub concurrency: u32,
    pub clients: u32,
    pub lb_policy: LoadBalancePolicyKind,
    pub pull_policy: Option<PullPolicyKind>,
    pub lb_subset_size: u32,
    pub lb_subset_policy: SubsetPolicyKind,
    pub approx_sched: Option<ApproxSchedKind>,
    pub express_lane: Option<ExpressLaneConfig>,
    pub work_shedding: Option<u64>,
}

/// `n`, but at least 1.
pub open spec fn positive(n: u32) -> u32 {
    if n == 0 {
        1
    } else {
        n
    }
}

fn at_least_one(n: u32) -> (r: u32)
    ensures
        r == positive(n),
{
    if n == 0 {
        1
    } else {
        n
    }
}

/// How many of `n` tasks client `i` of `clients` sends.
pub open spec fn share(n: u32, clients: u32, i: int) -> nat {
    (n / clients) as nat + if i < n % clients {
        1nat
    } else {
        0
    }
}

/// Splits `n` tasks among the clients as evenly as possible; the first ones get what is
/// left over.
pub fn split_tasks(n: u32, clients: u32) -> (r: Vec<u32>)
    ensures
        r@.len() == positive(clients),
        forall|i: int| 0 <= i < r@.len() ==> (#[trigger] r@[i]) == share(n, positive(clients), i),
{
    let clients: u32 = at_least_one(clients);
    let base: u32 = n / clients;
    let rem: u32 = n % clients;
    let mut out: Vec<u32> = Vec::new();
    let mut i: u32 = 0;
    while i < clients
        invariant
            i <= clients,
            clients > 0,
            base == n / clients,
            rem == n % clients,
            out@.len() == i,
            forall|j: int| 0 <= j < i ==> (#[trigger] out@[j]) == share(n, clients, j),
        decreases clients - i,
    {
        if i < rem {
            proof {
                vstd::arithmetic::div_mod::lemma_fundamental_div_mod(n as int, clients as int);
                assert(base + 1 <= n) by (nonlinear_arith)
                    requires
                        n == clients * base + rem,
                        clients > 0,
                        rem >= 1,
                ;
            }
            out.push(base + 1);
        } else {
            out.push(base);
        }
        i += 1;
    }
    out
}

/// What the first `k` clients send together.
pub open spec fn share_sum(n: u32, clients: u32, k: nat) -> nat
    decreases k,
{
    if k == 0 {
        0
    } else {
        share_sum(n, clients, (k - 1) as nat) + share(n, clients, k - 1)
    }
}

proof fn lemma_share_sum(n: u32, clients: u32, k: nat)
    requires
        clients > 0,
    ensures
        share_sum(n, clients, k) == k * (n / clients) + if k <= n % clients {
            k
        } else {
            (n % clients) as nat
        },
    decreases k,
{
    if k > 0 {
        lemma_share_sum(n, clients, (k - 1) as nat);
        assert((k - 1) * (n / clients) + (n / clients) == k * (n / clients)) by (nonlinear_arith);
    } else {
        assert(k * (n / clients) == 0) by (nonlinear_arith)
            requires
                k == 0,
        ;
    }
}

/// The clients together send exactly `n` tasks, and no client sends two more than another.
pub proof fn law_split_is_even(n: u32, clients: u32, i: int, j: int)
    requires
        clients > 0,
        0 <= i < clients,
        0 <= j < clients,
    ensures
        share_sum(n, clients, clients as nat) == n,
        share(n, clients, i) <= share(n, clients, j) + 1,
{
    lemma_share_sum(n, clients, clients as nat);
    vstd::arithmetic::div_mod::lemma_fundamental_div_mod(n as int, clients as int);
    vstd::arithmetic::div_mod::lemma_mod_bound(n as int, clients as int);
    assert(clients * (n / clients) + n % clients == n);
}

/// The numbers that the layout of a run is made of.
#[derive(Clone, Copy, Debug, PartialEq, Eq, Structural)]
pub struct Layout {
    pub n_clients: usize,
    pub n_servers: usize,
    /// Servers `0..n_regular` are regular, the rest is the express lane.
    pub n_regular: usize,
    pub concurrency: u32,
    pub total_capacity: u32,
    /// The balancer of the express lane comes after those of the clients.
    pub express_lb_id: usize,
}

impl LbRunArgs {
    /// The numbers fit, and the express lane is smaller than the pool.
    pub open spec fn fits(self) -> bool {
        &&& positive(self.servers) * positive(self.concurrency) <= u32::MAX
        &&& self.express_lane matches Some(lane) ==> lane.express_size < positive(self.servers)
    }

    pub open spec fn layout(self) -> Layout {
        let n_servers = positive(self.servers) as usize;
        Layout {
            n_clients: positive(self.clients) as usize,
            n_servers,
            n_regular: match self.express_lane {
                Some(lane) => (n_servers - lane.express_size) as usize,
                None => n_servers,
            },
            concurrency: positive(self.concurrency),
            total_capacity: (positive(self.servers) * positive(self.concurrency)) as u32,
            express_lb_id: positive(self.clients) as usize,
        }
    }

    /// Server `i` belongs to the express lane.
    pub open spec fn in_express_lane(self, i: int) -> bool {
        self.express_lane is Some && i >= self.layout().n_regular
    }

    /// How server `i` gets its tasks.
    pub open spec fn dispatch_mode(self, i: int) -> DispatchMode {
        if self.in_express_lane(i) {
            DispatchMode::Centralized
        } else if self.lb_policy is Approx {
            DispatchMode::Approx
        } else {
            DispatchMode::Push
        }
    }

    /// When server `i` evicts.
    pub open spec fn eviction(self, i: int) -> Option<ExpressEvictionPolicy> {
        match self.express_lane {
            Some(lane) if !self.in_express_lane(i) => Some(eviction_policy_of(lane.eviction)),
            _ => None,
        }
    }

    /// When server `i` sheds.
    pub open spec fn shedding(self, i: int) -> Option<u64> {
        if self.dispatch_mode(i) is Push {
            self.work_shedding
        } else {
            None
        }
    }
}

/// The rule a server evicts by.
pub open spec fn eviction_policy_of(config: ExpressEvictionConfig) -> ExpressEvictionPolicy {
    match config {
        ExpressEvictionConfig::QueueDepth(depth) => ExpressEvictionPolicy::QueueDepth(depth),
        ExpressEvictionConfig::QueueDelay { threshold, ideal } =>
            ExpressEvictionPolicy::QueueDelay {
            threshold,
            mode: if ideal {
                QueueDelayEvictionMode::ImmediateIdeal
            } else {
                QueueDelayEvictionMode::Monitored
            },
        },
        ExpressEvictionConfig::Combined { depth_threshold, delay_threshold } =>
            ExpressEvictionPolicy::Combined { depth_threshold, delay_threshold },
    }
}

/// The rule a server evicts by.
pub fn eviction_policy(config: ExpressEvictionConfig) -> (r: ExpressEvictionPolicy)
    ensures
        r == eviction_policy_of(config),
{
    match config {
        ExpressEvictionConfig::QueueDepth(depth) => ExpressEvictionPolicy::QueueDepth(depth),
        ExpressEvictionConfig::QueueDelay { threshold, ideal } => {
            let mode = if ideal {
                QueueDelayEvictionMode::ImmediateIdeal
            } else {
                QueueDelayEvictionMode::Monitored
            };
            ExpressEvictionPolicy::QueueDelay { threshold, mode }
        },
        ExpressEvictionConfig::Combined { depth_threshold, delay_threshold } =>
            ExpressEvictionPolicy::Combined { depth_threshold, delay_threshold },
    }
}

/// Lays a run out.
pub fn plan_layout(args: &LbRunArgs) -> (r: Layout)
    requires
        args.fits(),
    ensures
        r == args.layout(),
        0 < r.n_regular <= r.n_servers,
        r.n_clients > 0,
{
    let n_servers: usize = at_least_one(args.servers) as usize;
    let n_clients: usize = at_least_one(args.clients) as usize;
    let concurrency: u32 = at_least_one(args.concurrency);
    let n_regular: usize = match &args.express_lane {
        Some(lane) => n_servers - lane.express_size as usize,
        None => n_servers,
    };
    Layout {
        n_clients,
        n_servers,
        n_regular,
        concurrency,
        total_capacity: at_least_one(args.servers) * concurrency,
        express_lb_id: n_clients,
    }
}

/// The balancer of client `i`: it picks among the regular servers of its subset.
pub fn client_balancer(args: &LbRunArgs, i: usize, rng: &mut RunRng) -> (r: LoadBalancer)
    requires
        args.fits(),
        args.lb_policy is Approx ==> args.pull_policy is Some,
    ensures
        r.wf(),
        r@.is_new(
            args.lb_policy,
            args.layout().n_regular,
            r@.servers,
            i,
            false,
            args.approx_sched,
        ),
        if args.lb_policy is Approx {
            args.pull_policy->0.builds(r@.policy)
        } else {
            args.lb_policy.builds(r@.policy)
        },
        r@.servers.len() == subset_len(
            args.layout().n_regular as nat,
            args.lb_subset_size as nat,
        ),
        distinct_below(r@.servers, args.layout().n_regular as nat),
        args.lb_subset_policy is Deterministic ==> r@.servers == deterministic_subset_of(
            args.layout().n_regular as nat,
            i as nat,
            args.lb_subset_size as nat,
        ),
        draws_subset(
            args.lb_subset_policy,
            args.layout().n_regular,
            i,
            args.lb_subset_size,
            old(rng).generator(),
            r@.servers,
            final(rng).generator(),
        ),
{
    let pool: usize = plan_layout(args).n_regular;
    let servers = assign_subset(args.lb_subset_policy, pool, i, args.lb_subset_size, rng);
    let policy = match (args.lb_policy, args.pull_policy) {
        (LoadBalancePolicyKind::Approx, Some(pull)) => pull.build(),
        (kind, _) => kind.build(),
    };
    LoadBalancer::new(policy, args.lb_policy, pool, servers, i, false, args.approx_sched)
}

fn index_range(start: usize, end: usize) -> (r: Vec<usize>)
    requires
        start <= end,
    ensures
        r@ == Seq::new((end - start) as nat, |i: int| (start + i) as usize),
{
    let mut out: Vec<usize> = Vec::new();
    let mut i: usize = start;
    while i < end
        invariant
            start <= i <= end,
            out@ == Seq::new((i - start) as nat, |j: int| (start + j) as usize),
        decreases end - i,
    {
        out.push(i);
        i += 1;
        assert(out@ =~= Seq::new((i - start) as nat, |j: int| (start + j) as usize));
    }
    out
}

/// The balancer of the express lane: it queues evicted tasks for the express servers to
/// pull, and passes them on as they are.
pub fn express_balancer(args: &LbRunArgs) -> (r: LoadBalancer)
    requires
        args.fits(),
    ensures
        r.wf(),
        r@.policy is Centralized,
        r@.is_new(
            LoadBalancePolicyKind::Centralized,
            args.layout().n_servers,
            Seq::new(
                (args.layout().n_servers - args.layout().n_regular) as nat,
                |i: int| (args.layout().n_regular + i) as usize,
            ),
            args.layout().express_lb_id,
            true,
            None,
        ),
{
    let layout = plan_layout(args);
    let servers = index_range(layout.n_regular, layout.n_servers);
    LoadBalancer::new(
        LoadBalancePolicyKind::Centralized.build(),
        LoadBalancePolicyKind::Centralized,
        layout.n_servers,
        servers,
        layout.express_lb_id,
        true,
        None,
    )
}

/// Server `i` of a run.
pub fn plan_server(args: &LbRunArgs, i: usize) -> (r: Server)
    requires
        args.fits(),
    ensures
        r@ == (ServerState {
            server_idx: i,
            max_concurrency: args.layout().concurrency,
            in_flight: 0,
            pending_pulls: 0,
            dispatch_mode: args.dispatch_mode(i as int),
            services: Seq::empty(),
            queue: Seq::empty(),
            intents: Seq::empty(),
            express_eviction: args.eviction(i as int),
            work_shedding: args.shedding(i as int),
            is_express: args.in_express_lane(i as int),
            express_lb_id: if args.in_express_lane(i as int) {
                Some(args.layout().express_lb_id)
            } else {
                None
            },
            pull_outputs: if args.dispatch_mode(i as int) is Approx {
                args.layout().n_clients
            } else {
                0
            },
            pending_evictions: Seq::empty(),
            pending_sheds: Seq::empty(),
        }),
{
    let layout = plan_layout(args);
    let is_express = args.express_lane.is_some() && i >= layout.n_regular;
    let express_eviction = match args.express_lane {
        Some(lane) => {
            if is_express {
                None
            } else {
                Some(eviction_policy(lane.eviction))
            }
        },
        None => None,
    };
    let express_lb_id: Option<usize> = if is_express {
        Some(layout.express_lb_id)
    } else {
        None
    };
    let is_approx = args.lb_policy.is_approx();
    let dispatch_mode = if is_express {
        DispatchMode::Centralized
    } else if is_approx {
        DispatchMode::Approx
    } else {
        DispatchMode::Push
    };
    let work_shedding: Option<u64> = if !is_express && !is_approx {
        args.work_shedding
    } else {
        None
    };
    let mut server = Server::new(
        layout.concurrency,
        i,
        express_eviction,
        work_shedding,
        is_express,
        express_lb_id,
        dispatch_mode,
    );
    if is_approx && !is_express {
        server.set_pull_outputs(layout.n_clients);
    }
    server
}

/// How many balancers server `i` reports finished tasks to: those of the clients, and its
/// own one if it belongs to the express lane.
pub fn release_outputs(args: &LbRunArgs, i: usize) -> (r: usize)
    requires
        args.fits(),
        args.clients < usize::MAX,
    ensures
        r == args.layout().n_clients + if args.in_express_lane(i as int) {
            1int
        } else {
            0
        },
{
    let layout = plan_layout(args);
    if args.express_lane.is_some() && i >= layout.n_regular {
        layout.n_clients + 1
    } else {
        layout.n_clients
    }
}

/// The central balancers of a run, one per subset of the servers: a single one if the
/// servers are not split.
pub fn central_balancers(args: &LbRunArgs) -> (r: Vec<LoadBalancer>)
    requires
        args.fits(),
    ensures
        r@.len() == subset_count(args.layout().n_servers as nat, args.lb_subset_size as nat),
        r@.len() > 0,
        forall|lb: int|
            0 <= lb < r@.len() ==> {
                let b = #[trigger] r@[lb];
                &&& b.wf()
                &&& b@.policy is Centralized
                &&& b@.is_new(
                    LoadBalancePolicyKind::Centralized,
                    args.layout().n_servers,
                    deterministic_subset_of(
                        args.layout().n_servers as nat,
                        lb as nat,
                        args.lb_subset_size as nat,
                    ),
                    lb as usize,
                    false,
                    None,
                )
            },
        forall|a: int, b: int|
            #![trigger r@[a], r@[b]]
            0 <= a < r@.len() && 0 <= b < r@.len() && a != b ==> disjoint(
                r@[a]@.servers,
                r@[b]@.servers,
            ),
{
    let n_servers: usize = plan_layout(args).n_servers;
    let subsets = subset_table(n_servers, args.lb_subset_size);
    proof {
        let n = n_servers as nat;
        let k = subset_len(n, args.lb_subset_size as nat);
        vstd::arithmetic::div_mod::lemma_div_non_zero(n as int, k as int);
    }
    let mut out: Vec<LoadBalancer> = Vec::new();
    let mut lb: usize = 0;
    while lb < subsets.len()
        invariant
            lb <= subsets@.len(),
            out@.len() == lb,
            n_servers == args.layout().n_servers,
            n_servers > 0,
            subsets@.len() == subset_count(n_servers as nat, args.lb_subset_size as nat),
            forall|i: int|
                0 <= i < subsets@.len() ==> (#[trigger] subsets@[i])@ == deterministic_subset_of(
                    n_servers as nat,
                    i as nat,
                    args.lb_subset_size as nat,
                ),
            forall|i: int|
                0 <= i < lb ==> {
                    let b = #[trigger] out@[i];
                    &&& b.wf()
                    &&& b@.policy is Centralized
                    &&& b@.is_new(
                        LoadBalancePolicyKind::Centralized,
                        n_servers,
                        subsets@[i]@,
                        i as usize,
                        false,
                        None,
                    )
                },
        decreases subsets@.len() - lb,
    {
        let subset = copy_subset(&subsets[lb], n_servers, lb, args.lb_subset_size);
        out.push(
            LoadBalancer::new(
                LoadBalancePolicyKind::Centralized.build(),
                LoadBalancePolicyKind::Centralized,
                n_servers,
                subset,
                lb,
                false,
                None,
            ),
        );
        lb += 1;
    }
    out
}

pub(crate) fn copy_subset(subset: &Vec<usize>, n: usize, lb: usize, subset_size: u32) -> (r: Vec<usize>)
    requires
        n > 0,
        subset@ == deterministic_subset_of(n as nat, lb as nat, subset_size as nat),
    ensures
        r@ == subset@,
        distinct_below(r@, n as nat),
{
    crate::subset::deterministic_subset(n, lb, crate::subset::subset_size_k(n, subset_size))
}

/// The central balancer that client `i` sends to.
pub fn balancer_of_client(i: usize, n_balancers: usize) -> (r: usize)
    requires
        n_balancers > 0,
    ensures
        r == i as nat % n_balancers as nat,
        r < n_balancers,
{
    i % n_balancers
}

/// The central balancer that `server` pulls from: the one whose subset holds it. A server
/// outside every subset is left idle.
pub fn balancer_of_server(balancers: &Vec<Vec<usize>>, server: usize) -> (r: Option<usize>)
    ensures
        match r {
            Some(lb) => lb < balancers@.len() && balancers@[lb as int]@.contains(server) && forall|
                i: int,
            | 0 <= i < lb ==> !(#[trigger] balancers@[i])@.contains(server),
            None => !in_some_subset(balancers@, server),
        },
{
    let mut lb: usize = 0;
    while lb < balancers.len()
        invariant
            lb <= balancers@.len(),
            forall|i: int| 0 <= i < lb ==> !(#[trigger] balancers@[i])@.contains(server),
        decreases balancers@.len() - lb,
    {
        let subset = &balancers[lb];
        let mut j: usize = 0;
        while j < subset.len()
            invariant
                j <= subset@.len(),
                lb < balancers@.len(),
                subset@ == balancers@[lb as int]@,
                forall|i: int| 0 <= i < lb ==> !(#[trigger] balancers@[i])@.contains(server),
                forall|i: int| 0 <= i < j ==> subset@[i] != server,
            decreases subset@.len() - j,
        {
            if subset[j] == server {
                assert(subset@[j as int] == server);
                return Some(lb);
            }
            j += 1;
        }
        lb += 1;
    }
    None
}

/// A server in the mode of the central queue.
pub fn central_server(args: &LbRunArgs, i: usize) -> (r: Server)
    requires
        args.fits(),
    ensures
        r@ == (ServerState {
            server_idx: i,
            max_concurrency: args.layout().concurrency,
            in_flight: 0,
            pending_pulls: 0,
            dispatch_mode: DispatchMode::Centralized,
            services: Seq::empty(),
            queue: Seq::empty(),
            intents: Seq::empty(),
            express_eviction: None,
            work_shedding: None,
            is_express: false,
            express_lb_id: None,
            pull_outputs: 0,
            pending_evictions: Seq::empty(),
            pending_sheds: Seq::empty(),
        }),
{
    let layout = plan_layout(args);
    Server::new(layout.concurrency, i, None, None, false, None, DispatchMode::Centralized)
}

/// What is measured of one finished task, in nanoseconds.
#[derive(Clone, Copy, Debug, PartialEq, Eq, Structural)]
pub struct TaskSample {
    pub e2e: u64,
    pub duration: u64,
    pub express: bool,
    /// For a task of the express lane: how long it waited before it was evicted.
    pub pre_eviction: Option<u64>,
    /// For a task of the express lane: how long it waited after it was evicted.
    pub post_eviction: Option<u64>,
}

impl TaskSample {
    /// Time not spent in service.
    pub open spec fn queueing(self) -> int {
        self.e2e - self.duration
    }
}

/// The stamps of a finished task are in order, and an express task has all of them.
pub open spec fn is_finished(task: Task) -> bool {
    &&& task.start <= task.finish
    &&& task.served_by_express ==> {
        &&& task.evicted_at matches Some(evicted) && task.start <= evicted
        &&& task.service_started_at matches Some(started) && task.evicted_at->0 <= started
    }
}

/// What is measured of `task`.
pub open spec fn sample_of(task: Task) -> TaskSample {
    TaskSample {
        e2e: (task.finish - task.start) as u64,
        duration: task.duration,
        express: task.served_by_express,
        pre_eviction: if task.served_by_express {
            Some((task.evicted_at->0 - task.start) as u64)
        } else {
            None
        },
        post_eviction: if task.served_by_express {
            Some((task.service_started_at->0 - task.evicted_at->0) as u64)
        } else {
            None
        },
    }
}

/// The samples of the tasks that needed any service.
pub open spec fn samples_of(tasks: Seq<Task>) -> Seq<TaskSample>
    decreases tasks.len(),
{
    if tasks.len() == 0 {
        Seq::empty()
    } else {
        let before = samples_of(tasks.drop_last());
        if tasks.last().duration == 0 {
            before
        } else {
            before.push(sample_of(tasks.last()))
        }
    }
}

/// How many tasks were shed at least once.
pub open spec fn shed_count(tasks: Seq<Task>) -> nat
    decreases tasks.len(),
{
    if tasks.len() == 0 {
        0
    } else {
        shed_count(tasks.drop_last()) + if tasks.last().shed_at is Some {
            1nat
        } else {
            0
        }
    }
}

/// Service time spent on tasks of one lane.
pub open spec fn busy_time(tasks: Seq<Task>, express: bool) -> nat
    decreases tasks.len(),
{
    if tasks.len() == 0 {
        0
    } else {
        busy_time(tasks.drop_last(), express) + if tasks.last().served_by_express == express {
            tasks.last().duration as nat
        } else {
            0
        }
    }
}

/// When the tasks arrived.
pub open spec fn starts_of(tasks: Seq<Task>) -> Seq<u64> {
    tasks.map_values(|task: Task| task.start)
}

/// When the tasks left.
pub open spec fn finishes_of(tasks: Seq<Task>) -> Seq<u64> {
    tasks.map_values(|task: Task| task.finish)
}

/// The service times of the samples.
pub open spec fn durations_of(samples: Seq<TaskSample>) -> Seq<u64> {
    samples.map_values(|sample: TaskSample| sample.duration)
}

/// What each lane amounts to, in nanoseconds.
#[derive(Clone, Debug)]
pub struct LaneSummary {
    pub regular_busy: u128,
    pub express_busy: u128,
    pub regular: Vec<TaskSample>,
    pub express: Vec<TaskSample>,
    pub pre_eviction: Vec<u64>,
    pub post_eviction: Vec<u64>,
}

/// What a run amounts to, in nanoseconds.
#[derive(Clone, Debug)]
pub struct RunSummary {
    pub total_requests: usize,
    /// How many tasks were shed, if servers shed tasks in this run.
    pub shed_requests: Option<usize>,
    pub busy: u128,
    pub unloaded_latency_p99: u64,
    pub inter_arrival: Vec<u64>,
    pub inter_departure: Vec<u64>,
    pub samples: Vec<TaskSample>,
    /// Lane by lane, if this run has an express lane.
    pub lanes: Option<LaneSummary>,
}

impl LbRunArgs {
    /// The lanes are reported one by one. A central queue has none.
    pub open spec fn has_lanes(self) -> bool {
        self.lb_policy !is Centralized && self.express_lane is Some
    }

    /// Shed tasks are reported. A central queue sheds none.
    pub open spec fn has_sheds(self) -> bool {
        self.lb_policy !is Centralized && self.work_shedding is Some
    }
}

impl LaneSummary {
    /// The summary is that of the lanes of `tasks`.
    pub open spec fn is_of(self, tasks: Seq<Task>) -> bool {
        let regular = lane_of(samples_of(tasks), false);
        let express = lane_of(samples_of(tasks), true);
        &&& self.regular_busy == busy_time(tasks, false)
        &&& self.express_busy == busy_time(tasks, true)
        &&& self.regular@ == regular
        &&& self.express@ == express
        &&& self.pre_eviction@ == express.map_values(|s: TaskSample| s.pre_eviction->0)
        &&& self.post_eviction@ == express.map_values(|s: TaskSample| s.post_eviction->0)
    }
}

/// `p99` is the 99th percentile of `durations`.
pub open spec fn is_p99(durations: Seq<u64>, p99: u64) -> bool {
    exists|sorted: Seq<u64>| #[trigger]
        is_sorted_of(durations, sorted) && p99 == sorted[percentile_index_of(durations.len(), 99)]
}

/// `diffs` are the gaps between the points in time `times`, once they are in order.
pub open spec fn are_gaps(times: Seq<u64>, diffs: Seq<u64>) -> bool {
    exists|sorted: Seq<u64>| #[trigger] is_sorted_of(times, sorted) && diffs == gaps(sorted)
}

/// Sums a run up. There is nothing to report unless some task needed service.
pub fn calculate_stats(args: &LbRunArgs, tasks: &Vec<Task>) -> (r: Option<RunSummary>)
    requires
        forall|i: int|
            0 <= i < tasks@.len() && (#[trigger] tasks@[i]).duration > 0 ==> is_finished(tasks@[i]),
    ensures
        r is None <==> samples_of(tasks@).len() == 0,
        r matches Some(summary) ==> {
            &&& summary.total_requests == tasks@.len()
            &&& summary.shed_requests == if args.has_sheds() {
                Some(shed_count(tasks@) as usize)
            } else {
                None
            }
            &&& summary.busy == busy_time(tasks@, false) + busy_time(tasks@, true)
            &&& summary.samples@ == samples_of(tasks@)
            &&& is_p99(durations_of(samples_of(tasks@)), summary.unloaded_latency_p99)
            &&& are_gaps(starts_of(tasks@), summary.inter_arrival@)
            &&& are_gaps(finishes_of(tasks@), summary.inter_departure@)
            &&& summary.lanes is Some <==> args.has_lanes()
            &&& summary.lanes matches Some(lanes) ==> lanes.is_of(tasks@)
        },
{
    let mut shed_requests: usize = 0;
    let mut regular_busy: u128 = 0;
    let mut express_busy: u128 = 0;
    let mut samples: Vec<TaskSample> = Vec::new();
    let mut durations: Vec<u64> = Vec::new();
    let mut starts: Vec<u64> = Vec::new();
    let mut finishes: Vec<u64> = Vec::new();
    let n: usize = tasks.len();
    let mut i: usize = 0;
    while i < n
        invariant
            i <= n == tasks@.len(),
            forall|j: int|
                0 <= j < tasks@.len() && (#[trigger] tasks@[j]).duration > 0 ==> is_finished(
                    tasks@[j],
                ),
            shed_requests <= i,
            shed_requests == shed_count(tasks@.take(i as int)),
            regular_busy == busy_time(tasks@.take(i as int), false),
            express_busy == busy_time(tasks@.take(i as int), true),
            regular_busy + express_busy <= i * u64::MAX,
            samples@ == samples_of(tasks@.take(i as int)),
            have_waits(samples@),
            durations@ == durations_of(samples@),
            starts@ == starts_of(tasks@.take(i as int)),
            finishes@ == finishes_of(tasks@.take(i as int)),
        decreases n - i,
    {
        let task = tasks[i];
        proof {
            assert(tasks@.take(i + 1).drop_last() =~= tasks@.take(i as int));
            assert(i * u64::MAX + u64::MAX == (i + 1) * u64::MAX);
            assert((i + 1) * u64::MAX <= u64::MAX * u64::MAX) by (nonlinear_arith)
                requires
                    i + 1 <= u64::MAX,
            ;
        }
        if task.shed_at.is_some() {
            shed_requests += 1;
        }
        starts.push(task.start);
        finishes.push(task.finish);
        if task.served_by_express {
            express_busy = express_busy + task.duration as u128;
        } else {
            regular_busy = regular_busy + task.duration as u128;
        }
        if task.duration != 0 {
            let (pre_eviction, post_eviction): (Option<u64>, Option<u64>) =
                if task.served_by_express {
                match (task.evicted_at, task.service_started_at) {
                    (Some(evicted), Some(started)) => (
                        Some(evicted - task.start),
                        Some(started - evicted),
                    ),
                    _ => {
                        assert(false);
                        (None, None)
                    },
                }
            } else {
                (None, None)
            };
            let sample = TaskSample {
                e2e: task.finish - task.start,
                duration: task.duration,
                express: task.served_by_express,
                pre_eviction,
                post_eviction,
            };
            samples.push(sample);
            durations.push(task.duration);
            assert(durations@ =~= durations_of(samples@));
        }
        i += 1;
        proof {
            assert(starts@ =~= starts_of(tasks@.take(i as int)));
            assert(finishes@ =~= finishes_of(tasks@.take(i as int)));
        }
    }
    assert(tasks@.take(i as int) =~= tasks@);
    if samples.len() == 0 {
        return None;
    }
    proof {
        assert(n * u64::MAX <= u64::MAX * u64::MAX) by (nonlinear_arith)
            requires
                n <= u64::MAX,
        ;
    }
    let ordered = sorted(&durations);
    let at: usize = percentile_index(ordered.len(), 99);
    let unloaded_latency_p99: u64 = ordered[at];
    let inter_arrival = consecutive_diffs(&starts);
    let inter_departure = consecutive_diffs(&finishes);
    let central: bool = args.lb_policy.is_centralized();
    let lanes: Option<LaneSummary> = if !central && args.express_lane.is_some() {
        let regular = lane_samples(&samples, false);
        let express = lane_samples(&samples, true);
        let (pre_eviction, post_eviction) = eviction_waits(&samples);
        Some(
            LaneSummary {
                regular_busy,
                express_busy,
                regular,
                express,
                pre_eviction,
                post_eviction,
            },
        )
    } else {
        None
    };
    Some(
        RunSummary {
            total_requests: n,
            shed_requests: if !central && args.work_shedding.is_some() {
                Some(shed_requests)
            } else {
                None
            },
            busy: regular_busy + express_busy,
            unloaded_latency_p99,
            inter_arrival,
            inter_departure,
            samples,
            lanes,
        },
    )
}

/// A sample of the express lane has both waits, and no other has any.
pub open spec fn have_waits(samples: Seq<TaskSample>) -> bool {
    forall|i: int|
        0 <= i < samples.len() ==> {
            &&& (#[trigger] samples[i]).pre_eviction is Some <==> samples[i].express
            &&& samples[i].post_eviction is Some <==> samples[i].express
        }
}

/// How long the samples of the express lane waited before and after they were evicted.
fn eviction_waits(samples: &Vec<TaskSample>) -> (r: (Vec<u64>, Vec<u64>))
    requires
        have_waits(samples@),
    ensures
        r.0@ == lane_of(samples@, true).map_values(|s: TaskSample| s.pre_eviction->0),
        r.1@ == lane_of(samples@, true).map_values(|s: TaskSample| s.post_eviction->0),
{
    let mut pre: Vec<u64> = Vec::new();
    let mut post: Vec<u64> = Vec::new();
    let mut i: usize = 0;
    while i < samples.len()
        invariant
            i <= samples@.len(),
            have_waits(samples@),
            pre@ == lane_of(samples@.take(i as int), true).map_values(
                |s: TaskSample| s.pre_eviction->0,
            ),
            post@ == lane_of(samples@.take(i as int), true).map_values(
                |s: TaskSample| s.post_eviction->0,
            ),
        decreases samples@.len() - i,
    {
        assert(samples@.take(i + 1).drop_last() =~= samples@.take(i as int));
        let sample = samples[i];
        if let (Some(waited), Some(waited_again)) = (sample.pre_eviction, sample.post_eviction) {
            pre.push(waited);
            post.push(waited_again);
        }
        i += 1;
        proof {
            let after = lane_of(samples@.take(i as int), true);
            assert(pre@ =~= after.map_values(|s: TaskSample| s.pre_eviction->0));
            assert(post@ =~= after.map_values(|s: TaskSample| s.post_eviction->0));
        }
    }
    assert(samples@.take(i as int) =~= samples@);
    (pre, post)
}

/// The samples of one lane, in order.
pub open spec fn lane_of(samples: Seq<TaskSample>, express: bool) -> Seq<TaskSample>
    decreases samples.len(),
{
    if samples.len() == 0 {
        Seq::empty()
    } else {
        let before = lane_of(samples.drop_last(), express);
        if samples.last().express == express {
            before.push(samples.last())
        } else {
            before
        }
    }
}

/// The samples of one lane, in order.
fn lane_samples(samples: &Vec<TaskSample>, express: bool) -> (r: Vec<TaskSample>)
    ensures
        r@ == lane_of(samples@, express),
{
    let mut out: Vec<TaskSample> = Vec::new();
    let mut i: usize = 0;
    while i < samples.len()
        invariant
            i <= samples@.len(),
            out@ == lane_of(samples@.take(i as int), express),
        decreases samples@.len() - i,
    {
        assert(samples@.take(i + 1).drop_last() =~= samples@.take(i as int));
        if samples[i].express == express {
            out.push(samples[i]);
        }
        i += 1;
    }
    assert(samples@.take(i as int) =~= samples@);
    out
}

/// Every sample belongs to exactly one lane.
pub proof fn law_lanes_share_all_samples(samples: Seq<TaskSample>)
    ensures
        lane_of(samples, false).len() + lane_of(samples, true).len() == samples.len(),
    decreases samples.len(),
{
    if samples.len() > 0 {
        law_lanes_share_all_samples(samples.drop_last());
    }
}

/// A task of the express lane waited before and after its eviction, and not otherwise:
/// both waits together are its queueing time.
pub proof fn law_eviction_splits_the_wait(task: Task)
    requires
        is_finished(task),
        task.served_by_express,
        task.finish == task.service_started_at->0 + task.duration,
    ensures
        sample_of(task).queueing() == sample_of(task).pre_eviction->0
            + sample_of(task).post_eviction->0,
{
}

/// The busy time of both lanes is the service time of all tasks.
pub proof fn law_busy_time_counts_every_task(tasks: Seq<Task>)
    ensures
        busy_time(tasks, false) + busy_time(tasks, true) == crate::server::queued_work(tasks),
    decreases tasks.len(),
{
    if tasks.len() > 0 {
        law_busy_time_counts_every_task(tasks.drop_last());
    }
}

/// What is reported of a finished task, in whichever lane it was served: its latency is the
/// time from its arrival to its finish, so a task that waited `w` and was then served to the
/// end queued for `w`. A task that needed no service is not reported. The other samples stay.
pub proof fn law_latency_runs_from_arrival_to_finish(tasks: Seq<Task>, task: Task, w: u64)
    requires
        task.start <= task.finish,
    ensures
        samples_of(Seq::empty()).len() == 0,
        task.duration == 0 ==> samples_of(tasks.push(task)) == samples_of(tasks),
        task.duration > 0 ==> {
            let samples = samples_of(tasks.push(task));
            &&& samples.len() == samples_of(tasks).len() + 1
            &&& samples.drop_last() == samples_of(tasks)
            &&& task.start + samples.last().e2e == task.finish
            &&& samples.last().duration == task.duration
            &&& samples.last().express == task.served_by_express
            &&& task.service_started_at == Some((task.start + w) as u64) && task.start + w
                <= u64::MAX && task.finish == task.start + w + task.duration
                ==> samples.last().queueing() == w
        },
{
    assert(tasks.push(task).drop_last() =~= tasks);
    assert(samples_of(tasks).push(sample_of(task)).drop_last() =~= samples_of(tasks));
}

/// A task of the express lane is reported with the waits before and after its eviction: they
/// end when it was evicted and when its service began. A regular task has no such waits.
pub proof fn law_waits_end_with_eviction_and_service(
    tasks: Seq<Task>,
    task: Task,
    evicted: u64,
    started: u64,
)
    requires
        task.duration > 0,
        task.served_by_express ==> task.evicted_at == Some(evicted) && task.service_started_at
            == Some(started) && task.start <= evicted <= started,
    ensures
        ({
            let sample = samples_of(tasks.push(task)).last();
            &&& task.served_by_express ==> {
                &&& sample.pre_eviction is Some
                &&& sample.post_eviction is Some
                &&& task.start + sample.pre_eviction->0 == evicted
                &&& evicted + sample.post_eviction->0 == started
            }
            &&& !task.served_by_express ==> sample.pre_eviction is None && sample.post_eviction
                is None
        }),
{
}

/// The 99th percentile that is reported is the service time of some task, and stands in the
/// sorted service times at the place that is nearest to 99 percent of the way.
pub proof fn law_p99_is_a_service_time(durations: Seq<u64>, p99: u64)
    requires
        durations.len() > 0,
        is_p99(durations, p99),
    ensures
        durations.contains(p99),
        exists|sorted: Seq<u64>, at: int|
            {
                &&& 0 <= at < sorted.len()
                &&& p99 == #[trigger] sorted[at]
                &&& sorted.to_multiset() == durations.to_multiset()
                &&& forall|i: int, j: int| 0 <= i <= j < sorted.len() ==> sorted[i] <= sorted[j]
                &&& 100 * at - 99 * (durations.len() - 1) <= 50
                &&& 99 * (durations.len() - 1) - 100 * at < 50
            },
{
    let ordered = choose|ordered: Seq<u64>| #[trigger]
        is_sorted_of(durations, ordered) && p99 == ordered[percentile_index_of(
            durations.len(),
            99,
        )];
    let at = percentile_index_of(durations.len(), 99);
    durations.to_multiset_ensures();
    ordered.to_multiset_ensures();
    crate::samples::law_percentile_is_the_nearest_place(durations.len(), 99);
    crate::samples::law_sorted_samples_are_the_samples(durations, ordered, at);
    assert(p99 == ordered[at]);
}

/// One more task adds its service time to the busy time of its own lane and to no other, and
/// one shed task exactly where it was shed.
pub proof fn law_a_task_counts_in_its_own_lane(tasks: Seq<Task>, task: Task, lane: bool)
    ensures
        busy_time(Seq::empty(), lane) == 0,
        shed_count(Seq::empty()) == 0,
        task.served_by_express == lane ==> busy_time(tasks.push(task), lane) == busy_time(
            tasks,
            lane,
        ) + task.duration,
        task.served_by_express != lane ==> busy_time(tasks.push(task), lane) == busy_time(
            tasks,
            lane,
        ),
        task.shed_at is Some ==> shed_count(tasks.push(task)) == shed_count(tasks) + 1,
        task.shed_at is None ==> shed_count(tasks.push(task)) == shed_count(tasks),
{
    assert(tasks.push(task).drop_last() =~= tasks);
}

/// Which samples a lane holds: those of its own tasks and no others, in the order in which
/// they were taken.
pub proof fn law_a_lane_holds_its_own_samples(samples: Seq<TaskSample>, sample: TaskSample, lane: bool)
    ensures
        lane_of(Seq::empty(), lane).len() == 0,
        sample.express == lane ==> lane_of(samples.push(sample), lane) == lane_of(
            samples,
            lane,
        ).push(sample),
        sample.express != lane ==> lane_of(samples.push(sample), lane) == lane_of(samples, lane),
{
    assert(samples.push(sample).drop_last() =~= samples);
}

/// The lanes of a run are reported where it has an express lane and balancers push or
/// announce tasks, and shed tasks where servers shed in such a run.
pub proof fn law_reports_follow_the_flags(args: LbRunArgs)
    ensures
        args.lb_policy == LoadBalancePolicyKind::Centralized ==> !args.has_lanes()
            && !args.has_sheds(),
        args.lb_policy != LoadBalancePolicyKind::Centralized ==> (args.has_lanes()
            <==> args.express_lane is Some) && (args.has_sheds() <==> args.work_shedding is Some),
{
}

/// How a run is laid out: the express lane takes the last servers of the pool, as many as it
/// was given, and no server is both regular and express. Express servers pull, the others are
/// pushed to unless tasks are announced, and only servers that are pushed to shed. Regular
/// servers evict where there is an express lane, and express servers never do.
pub proof fn law_layout_parts_the_pool(args: LbRunArgs, i: int)
    requires
        args.fits(),
        0 <= i < args.layout().n_servers,
    ensures
        args.servers > 0 ==> args.layout().n_servers == args.servers,
        args.clients > 0 ==> args.layout().n_clients == args.clients,
        args.concurrency > 0 ==> args.layout().concurrency == args.concurrency,
        args.servers == 0 ==> args.layout().n_servers == 1,
        args.clients == 0 ==> args.layout().n_clients == 1,
        args.concurrency == 0 ==> args.layout().concurrency == 1,
        args.layout().total_capacity == args.layout().n_servers * args.layout().concurrency,
        args.layout().express_lb_id == args.layout().n_clients,
        args.express_lane is None ==> args.layout().n_regular == args.layout().n_servers
            && !args.in_express_lane(i),
        args.express_lane matches Some(lane) ==> args.layout().n_regular + lane.express_size
            == args.layout().n_servers && (args.in_express_lane(i) <==> i
            >= args.layout().n_servers - lane.express_size),
        args.in_express_lane(i) ==> args.dispatch_mode(i) == DispatchMode::Centralized
            && args.eviction(i) is None && args.shedding(i) is None,
        !args.in_express_lane(i) && args.lb_policy == LoadBalancePolicyKind::Approx
            ==> args.dispatch_mode(i) == DispatchMode::Approx && args.shedding(i) is None,
        !args.in_express_lane(i) && args.lb_policy != LoadBalancePolicyKind::Approx
            ==> args.dispatch_mode(i) == DispatchMode::Push && args.shedding(i)
            == args.work_shedding,
        !args.in_express_lane(i) ==> (args.eviction(i) is Some <==> args.express_lane is Some),
        !args.in_express_lane(i) ==> (args.express_lane matches Some(lane) ==> match (
            lane.eviction,
            args.eviction(i)->0,
        ) {
            (
                ExpressEvictionConfig::QueueDepth(a),
                ExpressEvictionPolicy::QueueDepth(b),
            ) => a == b,
            (
                ExpressEvictionConfig::QueueDelay { threshold: a, ideal },
                ExpressEvictionPolicy::QueueDelay { threshold: b, mode },
            ) => a == b && (ideal <==> mode == QueueDelayEvictionMode::ImmediateIdeal),
            (
                ExpressEvictionConfig::Combined { depth_threshold: a, delay_threshold: c },
                ExpressEvictionPolicy::Combined { depth_threshold: b, delay_threshold: d },
            ) => a == b && c == d,
            _ => false,
        }),
{
}

/// What the gaps and percentiles of a run are made of: when its tasks arrived, when they left,
/// and the service times of those that are reported, task by task.
pub proof fn law_times_are_those_of_the_tasks(tasks: Seq<Task>, samples: Seq<TaskSample>, i: int)
    ensures
        starts_of(tasks).len() == tasks.len(),
        finishes_of(tasks).len() == tasks.len(),
        durations_of(samples).len() == samples.len(),
        0 <= i < tasks.len() ==> starts_of(tasks)[i] == tasks[i].start && finishes_of(tasks)[i]
            == tasks[i].finish,
        0 <= i < samples.len() ==> durations_of(samples)[i] == samples[i].duration,
{
}

/// The gaps that are reported lie between the points in time once they are in order: there is
/// one less of them, and they lead from one to the next.
pub proof fn law_reported_gaps_lie_between_neighbours(times: Seq<u64>, diffs: Seq<u64>)
    requires
        are_gaps(times, diffs),
        times.len() > 0,
    ensures
        exists|order: Seq<u64>|
            {
                &&& #[trigger] order.to_multiset() == times.to_multiset()
                &&& forall|i: int, j: int| 0 <= i <= j < order.len() ==> order[i] <= order[j]
                &&& diffs.len() == order.len() - 1
                &&& forall|i: int|
                    0 <= i < diffs.len() ==> order[i] + #[trigger] diffs[i] == order[i + 1]
            },
{
    let order = choose|order: Seq<u64>| #[trigger] is_sorted_of(times, order) && diffs == gaps(order);
    times.to_multiset_ensures();
    order.to_multiset_ensures();
    assert forall|i: int| 0 <= i < diffs.len() implies order[i] + #[trigger] diffs[i] == order[i + 1] by {
        assert(order[i] <= order[i + 1]);
    }
    assert(order.to_multiset() == times.to_multiset());
}

/// What is left over goes to the first clients: no client sends more tasks than one before it,
/// and none sends two less.
pub proof fn law_first_clients_get_the_rest(n: u32, clients: u32, i: int, j: int)
    requires
        clients > 0,
        0 <= i <= j < clients,
    ensures
        share(n, clients, j) <= share(n, clients, i) <= share(n, clients, j) + 1,
{
}

/// What is reported of each lane: the samples and the service time of its own tasks, and for
/// each task of the express lane, in order, how long it waited before and after its eviction.
pub proof fn law_lanes_report_their_own_tasks(lanes: LaneSummary, tasks: Seq<Task>, i: int)
    requires
        lanes.is_of(tasks),
    ensures
        lanes.regular@ == lane_of(samples_of(tasks), false),
        lanes.express@ == lane_of(samples_of(tasks), true),
        lanes.regular_busy == busy_time(tasks, false),
        lanes.express_busy == busy_time(tasks, true),
        lanes.pre_eviction@.len() == lanes.express@.len(),
        lanes.post_eviction@.len() == lanes.express@.len(),
        0 <= i < lanes.express@.len() && lanes.express@[i].pre_eviction is Some ==> Some(
            lanes.pre_eviction@[i],
        ) == lanes.express@[i].pre_eviction,
        0 <= i < lanes.express@.len() && lanes.express@[i].post_eviction is Some ==> Some(
            lanes.post_eviction@[i],
        ) == lanes.express@[i].post_eviction,
{
}

} // verus!
