//! Whole runs of the load-balancer simulator, on a plain event queue.

use lb::approx::{PullIntent, PullRequest};
use lb::lb_centralized_audit::LbCentralizedAudit;
use lb::lb_pull_audit::LbPullAudit;
use lb::lb_simulate::{
    balancer_of_client, balancer_of_server, calculate_stats, central_balancers, central_server,
    client_balancer, express_balancer, plan_layout, plan_server, release_outputs,
    split_tasks, ExpressEvictionConfig, ExpressLaneConfig, LbArrivalDistribution, LbRunArgs,
    LbServiceDistribution, RunSummary,
};
use lb::load_balancer::{Dispatch, LoadBalancer, PullOutcome};
use lb::policy::{ApproxSchedKind, LoadBalancePolicyKind, PullPolicyKind};
use lb::prequal::{Probe, ProbeReply};
use lb::rng::{enter_run, exit_run, random_usize_range, RunRng};
use lb::server::{FollowUp, InputAction, Overload, ServeAction, Server, Task};
use lb::subset::{subset_table, SubsetPolicyKind};
use std::collections::{BTreeMap, HashMap};

enum Event {
    LbInput(usize, Task),
    LbRelease(usize, usize),
    LbPull(usize, PullRequest),
    LbReply(usize, ProbeReply),
    ServerInput(usize, Task),
    Intent(usize, PullIntent),
    Probe(usize, Probe),
    RequestPull(usize),
    Complete(usize, Task),
    Evict(usize, u64),
    Shed(usize, u64),
}

/// Distributions and the load, next to the arguments that the library plans with.
#[derive(Clone, Copy)]
struct Traffic {
    load: f64,
    service: LbServiceDistribution,
    arrival: LbArrivalDistribution,
    seed: u64,
}

struct Run {
    balancers: Vec<LoadBalancer>,
    servers: Vec<Server>,
    /// The balancer that a server pulls from, if it does.
    puller: Vec<Option<usize>>,
    express_lb: Option<usize>,
    prequal: bool,
    accum: Vec<f64>,
    rng: RunRng,
    pull_audit: Option<LbPullAudit>,
    central_audit: Option<LbCentralizedAudit>,
    events: BTreeMap<(u64, u64), Event>,
    timers: HashMap<(usize, u64, bool), (u64, u64)>,
    seq: u64,
    now: u64,
    done: Vec<Task>,
}

struct Outcome {
    summary: RunSummary,
    utilization_pct: f64,
    pull_audit: Option<LbPullAudit>,
    central_audit: Option<LbCentralizedAudit>,
}

const SECOND: f64 = 1e9;

fn exp_sample(rng: &mut RunRng, mean: f64) -> f64 {
    let u = (random_usize_range(rng, 0..(1 << 24)) + 1) as f64 / (1 << 24) as f64;
    -mean * u.ln()
}

impl Run {
    fn at(&mut self, time: u64, event: Event) -> (u64, u64) {
        let key = (time, self.seq);
        self.seq += 1;
        self.events.insert(key, event);
        key
    }

    fn soon(&mut self, event: Event) {
        let now = self.now;
        self.at(now, event);
    }

    fn send(&mut self, lb: usize, dispatches: Vec<Dispatch>) {
        for d in dispatches {
            if let Some(audit) = &mut self.central_audit {
                audit.record_task_dispatched(lb, d.server_idx, d.task.start);
            }
            self.soon(Event::ServerInput(d.server_idx, d.task));
        }
    }

    fn serve(&mut self, server: usize, action: ServeAction) {
        let start = action.task.start;
        if action.cancel_eviction {
            let key = self.timers.remove(&(server, start, true)).expect("a timer");
            self.events.remove(&key);
        }
        if action.cancel_shed {
            let key = self.timers.remove(&(server, start, false)).expect("a timer");
            self.events.remove(&key);
        }
        let end = self.now + action.task.duration;
        self.at(end, Event::Complete(server, action.task));
    }

    fn evicted(&mut self, task: Task) {
        assert_eq!(task.evicted_at, Some(self.now));
        let lb = self.express_lb.expect("an express lane");
        self.soon(Event::LbInput(lb, task));
    }

    fn shed(&mut self, server: usize, task: Task) {
        assert_eq!(task.shed_at, Some(self.now));
        self.soon(Event::LbRelease(task.lb_id, server));
        self.soon(Event::LbInput(task.lb_id, task));
    }

    fn overload(&mut self, server: usize, start: u64, eviction: Overload, shedding: Overload) {
        match eviction {
            Overload::Keep => {}
            Overload::Forward(task) => self.evicted(task),
            Overload::Watch(delay) => {
                let time = self.now + delay;
                let key = self.at(time, Event::Evict(server, start));
                self.timers.insert((server, start, true), key);
                self.servers[server].eviction_scheduled(start);
            }
        }
        match shedding {
            Overload::Keep => {}
            Overload::Forward(task) => self.shed(server, task),
            Overload::Watch(delay) => {
                let time = self.now + delay;
                let key = self.at(time, Event::Shed(server, start));
                self.timers.insert((server, start, false), key);
                self.servers[server].shed_scheduled(start);
            }
        }
    }

    fn step(&mut self, event: Event) {
        let now = self.now;
        match event {
            Event::LbInput(lb, task) => {
                let mut due = 0;
                if self.prequal {
                    self.accum[lb] += 0.3;
                    due = self.accum[lb] as usize;
                }
                if let Some(audit) = &mut self.central_audit {
                    audit.record_task_enqueued(lb, task.start, 0);
                }
                let out =
                    self.balancers[lb].input(task, due, &mut self.rng, &mut self.pull_audit);
                self.accum[lb] -= out.removed as f64;
                self.send(lb, out.dispatches);
                for target in out.probes {
                    self.soon(Event::Probe(target, Probe { sender_id: lb }));
                }
                if let Some(intent) = out.intent {
                    self.soon(Event::Intent(intent.server_idx, intent.intent));
                }
            }
            Event::LbRelease(lb, server) => self.balancers[lb].release(server),
            Event::LbPull(lb, pull) => match self.balancers[lb].pull(pull, &mut self.pull_audit) {
                PullOutcome::Dispatch(d) => self.send(lb, vec![d]),
                PullOutcome::Wait => {}
                PullOutcome::Abort(text) => panic!("{text}"),
            },
            Event::LbReply(lb, reply) => self.balancers[lb].probe_reply(reply),
            Event::ServerInput(server, task) => match self.servers[server].input(task, now) {
                InputAction::Serve(action) => self.serve(server, action),
                InputAction::Queue { eviction, shedding } => {
                    self.overload(server, task.start, eviction, shedding)
                }
            },
            Event::Intent(server, intent) => {
                let answer = self.servers[server].receive_pull_intent(intent, &mut self.pull_audit);
                if let Some(pull) = answer {
                    self.soon(Event::LbPull(pull.lb_id, pull.request));
                }
            }
            Event::Probe(server, probe) => {
                let answer = self.servers[server].receive_probe(probe);
                self.soon(Event::LbReply(answer.lb_id, answer.reply));
            }
            Event::RequestPull(server) => {
                if let Some(pull) = self.servers[server].request_pull() {
                    let lb = self.puller[server].expect("a central queue");
                    self.soon(Event::LbPull(lb, pull));
                }
            }
            Event::Complete(server, task) => {
                let done = self.servers[server].complete(task, now, &mut self.pull_audit);
                self.done.push(done.task);
                self.soon(Event::LbRelease(done.release.lb_id, done.release.server_idx));
                if let Some(origin) = done.origin_release {
                    self.soon(Event::LbRelease(origin.lb_id, origin.server_idx));
                }
                match done.follow_up {
                    FollowUp::Pull(pull) => {
                        let lb = self.puller[server].expect("a central queue");
                        self.soon(Event::LbPull(lb, pull));
                    }
                    FollowUp::Intent(answer) => {
                        if let Some(pull) = answer {
                            self.soon(Event::LbPull(pull.lb_id, pull.request));
                        }
                    }
                    FollowUp::Drain => {
                        while let Some(action) = self.servers[server].drain_queue(now) {
                            self.serve(server, action);
                        }
                    }
                }
            }
            Event::Evict(server, start) => {
                self.timers.remove(&(server, start, true));
                if let Some(task) = self.servers[server].evict_task(start, now) {
                    self.evicted(task);
                }
            }
            Event::Shed(server, start) => {
                self.timers.remove(&(server, start, false));
                if let Some(task) = self.servers[server].shed_task(start, now) {
                    self.shed(server, task);
                }
            }
        }
    }
}

fn run(args: &LbRunArgs, traffic: Traffic, audits: bool) -> Outcome {
    let layout = plan_layout(args);
    let central = args.lb_policy.is_centralized();
    let mut rng = RunRng::new();
    enter_run(&mut rng, Some(traffic.seed));

    let mut balancers = Vec::new();
    let mut servers = Vec::new();
    let mut puller = vec![None; layout.n_servers];
    let mut express_lb = None;
    let mut client_lb: Vec<usize> = (0..layout.n_clients).collect();
    if central {
        balancers = central_balancers(args);
        client_lb = (0..layout.n_clients)
            .map(|i| balancer_of_client(i, balancers.len()))
            .collect();
        let table = subset_table(layout.n_servers, args.lb_subset_size);
        for i in 0..layout.n_servers {
            servers.push(central_server(args, i));
            puller[i] = balancer_of_server(&table, i);
        }
    } else {
        for i in 0..layout.n_clients {
            balancers.push(client_balancer(args, i, &mut rng));
        }
        if args.express_lane.is_some() {
            express_lb = Some(layout.express_lb_id);
            balancers.push(express_balancer(args));
        }
        for i in 0..layout.n_servers {
            servers.push(plan_server(args, i));
            assert!(release_outputs(args, i) <= balancers.len());
            if i >= layout.n_regular {
                puller[i] = express_lb;
            }
        }
    }

    let n_balancers = balancers.len();
    let mut run = Run {
        balancers,
        servers,
        puller,
        express_lb,
        prequal: args.lb_policy.is_prequal(),
        accum: vec![0.0; n_balancers],
        rng,
        pull_audit: audits.then_some(LbPullAudit::new()),
        central_audit: (audits && central).then_some(LbCentralizedAudit::new()),
        events: BTreeMap::new(),
        timers: HashMap::new(),
        seq: 0,
        now: 0,
        done: Vec::new(),
    };
    for server in 0..layout.n_servers {
        if run.puller[server].is_some() {
            for _ in 0..layout.concurrency {
                run.soon(Event::RequestPull(server));
            }
        }
    }

    let arrival_mean = 1.0 / (traffic.load * f64::from(layout.total_capacity));
    let per_client = arrival_mean * layout.n_clients as f64;
    let counts = split_tasks(args.n, args.clients);
    for (client, n) in counts.into_iter().enumerate() {
        let mut time = match traffic.arrival {
            LbArrivalDistribution::Exponential => 0.0,
            LbArrivalDistribution::Constant => client as f64 * arrival_mean,
        };
        for _ in 0..n {
            if traffic.arrival == LbArrivalDistribution::Exponential {
                time += exp_sample(&mut run.rng, per_client);
            }
            let service = match traffic.service {
                LbServiceDistribution::Constant => 1.0,
                _ => exp_sample(&mut run.rng, 1.0),
            };
            let start = (time * SECOND).round() as u64;
            let duration = ((service * SECOND).round() as u64).max(1);
            run.at(start, Event::LbInput(client_lb[client], Task::new(start, duration)));
            if traffic.arrival == LbArrivalDistribution::Constant {
                time += per_client;
            }
        }
    }

    while let Some(((time, _), event)) = run.events.pop_first() {
        run.now = time;
        run.step(event);
    }
    exit_run(&mut run.rng);

    let summary = calculate_stats(args, &run.done).expect("completed tasks");
    let busy = summary.busy as f64;
    Outcome {
        summary,
        utilization_pct: busy / (run.now as f64 * f64::from(layout.total_capacity)) * 100.0,
        pull_audit: run.pull_audit,
        central_audit: run.central_audit,
    }
}

fn base_args(n: u32) -> LbRunArgs {
    LbRunArgs {
        n,
        servers: 10,
        concurrency: 1,
        clients: 1,
        lb_policy: LoadBalancePolicyKind::PowerOfTwo,
        pull_policy: None,
        lb_subset_size: 0,
        lb_subset_policy: SubsetPolicyKind::Deterministic,
        approx_sched: None,
        express_lane: None,
        work_shedding: None,
    }
}

fn exponential(load: f64, seed: u64) -> Traffic {
    Traffic {
        load,
        service: LbServiceDistribution::Exponential,
        arrival: LbArrivalDistribution::Exponential,
        seed,
    }
}

fn constant(load: f64, seed: u64) -> Traffic {
    Traffic {
        load,
        service: LbServiceDistribution::Constant,
        arrival: LbArrivalDistribution::Constant,
        seed,
    }
}

fn approx_args(
    n: u32,
    approx_sched: Option<ApproxSchedKind>,
    servers: u32,
    concurrency: u32,
    clients: u32,
) -> LbRunArgs {
    LbRunArgs {
        servers,
        concurrency,
        clients,
        lb_policy: LoadBalancePolicyKind::Approx,
        pull_policy: Some(PullPolicyKind::LeastRequest),
        approx_sched,
        ..base_args(n)
    }
}

fn e2e_len(outcome: &Outcome) -> usize {
    outcome.summary.samples.len()
}

#[test]
fn lb_no_bind_trace_invariants() {
    let args = approx_args(200, Some(ApproxSchedKind::Fcfs), 2, 2, 2);
    let out = run(&args, constant(2.0, 99), true);
    assert_eq!(e2e_len(&out), 200);
    let audit = out.pull_audit.unwrap();
    audit.validate_common().expect("common invariants");
    audit.validate_no_bind().expect("no-bind invariants");
}

#[test]
fn lb_no_bind_pulls_oldest_not_intent_id() {
    let args = approx_args(200, Some(ApproxSchedKind::Fcfs), 2, 2, 2);
    let out = run(&args, constant(2.0, 99), true);
    assert_eq!(e2e_len(&out), 200);
    let audit = out.pull_audit.unwrap();
    audit.validate_common().expect("common invariants");
    audit.validate_no_bind().expect("no-bind invariants");

    let mismatches: Vec<_> = audit
        .pull_fulfilled_events()
        .into_iter()
        .filter(|(intent_id, pulled_id, _)| intent_id.map(|i| i != *pulled_id).unwrap_or(false))
        .collect();
    assert!(
        !mismatches.is_empty(),
        "expected at least one pull where intent_request_id != pulled_task_id"
    );
    for (_, pulled_id, head_id) in audit.pull_fulfilled_events() {
        assert_eq!(
            head_id,
            Some(pulled_id),
            "pulled task must match recorded queue head"
        );
    }
}

#[test]
fn lb_no_bind_multi_client_independent_fcfs() {
    let args = approx_args(200, Some(ApproxSchedKind::Fcfs), 2, 2, 2);
    let out = run(&args, constant(2.0, 99), true);
    assert_eq!(e2e_len(&out), 200);
    let audit = out.pull_audit.unwrap();
    audit.validate_common().expect("common invariants");
    audit.validate_no_bind().expect("no-bind invariants");
}

#[test]
fn lb_bound_pull_trace_regression() {
    let args = approx_args(100, None, 2, 1, 1);
    let out = run(&args, constant(2.0, 42), true);
    assert_eq!(e2e_len(&out), 100);
    let audit = out.pull_audit.unwrap();
    audit.validate_common().expect("common invariants");
    audit.validate_bound().expect("bound pull invariants");
}

fn centralized_args(n: u32, servers: u32, clients: u32, subset_size: u32) -> LbRunArgs {
    LbRunArgs {
        servers,
        clients,
        lb_policy: LoadBalancePolicyKind::Centralized,
        lb_subset_size: subset_size,
        ..base_args(n)
    }
}

#[test]
fn lb_centralized_subset_disjoint_trace() {
    let out = run(&centralized_args(400, 12, 2, 6), constant(0.8, 42), true);
    assert_eq!(e2e_len(&out), 400);
    out.central_audit
        .unwrap()
        .validate_disjoint_subsets(12, 6)
        .expect("subsets must be disjoint");
}

#[test]
fn lb_centralized_per_subset_shared_lb_trace() {
    let out = run(&centralized_args(400, 12, 4, 6), constant(0.8, 7), true);
    assert_eq!(e2e_len(&out), 400);
    out.central_audit
        .unwrap()
        .validate_centralized_per_subset(12, 6)
        .expect("each subset must use one shared centralized LB");
}

#[test]
fn lb_centralized_subset_smoke_completes() {
    let out = run(&centralized_args(200, 12, 2, 6), constant(0.8, 99), false);
    assert_eq!(e2e_len(&out), 200);
    assert!(out.utilization_pct > 0.0);
}

#[test]
fn lb_prequal_completes_with_sane_utilization() {
    let args = LbRunArgs {
        clients: 2,
        lb_policy: LoadBalancePolicyKind::Prequal,
        ..base_args(1000)
    };
    let out = run(&args, exponential(0.5, 42), false);
    assert!(out.utilization_pct > 0.0, "expected positive utilization");
    assert!(out.utilization_pct <= 100.0, "utilization should not exceed 100%");
    assert_eq!(e2e_len(&out), 1000);
}

#[test]
fn lb_approx_completes_with_sane_utilization() {
    let out = run(&approx_args(1000, None, 10, 1, 2), exponential(0.5, 42), true);
    assert!(out.utilization_pct > 0.0, "expected positive utilization");
    assert!(out.utilization_pct <= 100.0, "utilization should not exceed 100%");
    assert_eq!(e2e_len(&out), 1000);
}

#[test]
fn lb_centralized_completes_with_sane_utilization() {
    let out = run(&centralized_args(1000, 10, 2, 0), exponential(0.5, 42), false);
    assert!(out.utilization_pct > 0.0, "expected positive utilization");
    assert!(out.utilization_pct <= 100.0, "utilization should not exceed 100%");
    assert_eq!(e2e_len(&out), 1000);
}

fn percentile(values: &mut [u64], pct: f64) -> f64 {
    values.sort();
    let idx = ((values.len() - 1) as f64 * pct / 100.0).round() as usize;
    values[idx] as f64
}

#[test]
fn lb_all_policies_similar_with_single_server() {
    let kinds = [
        (LoadBalancePolicyKind::Random, None),
        (LoadBalancePolicyKind::PowerOfTwo, None),
        (LoadBalancePolicyKind::RoundRobin, None),
        (LoadBalancePolicyKind::LeastRequest, None),
        (LoadBalancePolicyKind::Centralized, None),
        (LoadBalancePolicyKind::Approx, Some(PullPolicyKind::Random)),
    ];
    let mut p50 = Vec::new();
    let mut p99 = Vec::new();
    for (lb_policy, pull_policy) in kinds {
        let args = LbRunArgs {
            servers: 1,
            lb_policy,
            pull_policy,
            ..base_args(500)
        };
        let out = run(&args, constant(2.0, 42), false);
        assert_eq!(e2e_len(&out), 500, "expected 500 completed tasks");
        assert!(out.utilization_pct > 0.0 && out.utilization_pct <= 100.0);
        let mut samples: Vec<u64> = out.summary.samples.iter().map(|s| s.e2e).collect();
        p50.push(percentile(&mut samples, 50.0));
        p99.push(percentile(&mut samples, 99.0));
    }
    let spread = |values: &[f64]| {
        let min = values.iter().copied().fold(f64::INFINITY, f64::min);
        let max = values.iter().copied().fold(f64::NEG_INFINITY, f64::max);
        max / min
    };
    assert!(spread(&p99) < 1.15, "p99 e2e spread too large: {p99:?}");
    assert!(spread(&p50) < 1.05, "p50 e2e spread too large: {p50:?}");
}

#[test]
fn work_shedding_run_completes_every_task() {
    let args = LbRunArgs {
        servers: 4,
        work_shedding: Some(2_000_000_000),
        ..base_args(200)
    };
    let out = run(&args, exponential(0.3, 42), false);
    assert_eq!(e2e_len(&out), 200);
    assert_eq!(out.summary.total_requests, 200);
    assert!(out.summary.shed_requests.unwrap() <= out.summary.total_requests);
    assert!(out.summary.lanes.is_none(), "no lane split without an express lane");
}

#[test]
fn work_shedding_moves_tasks_under_load() {
    let args = LbRunArgs {
        servers: 3,
        work_shedding: Some(2_000_000_000),
        ..base_args(500)
    };
    let traffic = Traffic {
        service: LbServiceDistribution::Constant,
        ..exponential(1.1, 42)
    };
    let out = run(&args, traffic, false);
    assert_eq!(e2e_len(&out), 500);
    assert!(out.summary.shed_requests.unwrap() > 0, "expected shed tasks under load");
}

#[test]
fn express_lane_splits_every_sample() {
    let args = LbRunArgs {
        servers: 3,
        express_lane: Some(ExpressLaneConfig {
            express_size: 1,
            eviction: ExpressEvictionConfig::QueueDepth(2),
        }),
        ..base_args(1000)
    };
    let out = run(&args, exponential(0.8, 42), false);
    assert_eq!(e2e_len(&out), 1000);
    assert_eq!(out.summary.shed_requests, None);
    let lanes = out.summary.lanes.expect("an express lane");
    let (regular, express) = (lanes.regular, lanes.express);
    assert_eq!(regular.len() + express.len(), 1000);
    assert_eq!(lanes.regular_busy + lanes.express_busy, out.summary.busy);
    let pre: Vec<u64> = express.iter().filter_map(|s| s.pre_eviction).collect();
    let post: Vec<u64> = express.iter().filter_map(|s| s.post_eviction).collect();
    assert_eq!((lanes.pre_eviction, lanes.post_eviction), (pre, post));
    assert!(!express.is_empty(), "expected some express-served tasks");
    for sample in &express {
        let pre = sample.pre_eviction.unwrap();
        let post = sample.post_eviction.unwrap();
        assert_eq!(pre + post, sample.e2e - sample.duration);
    }
    for sample in &regular {
        assert!(sample.pre_eviction.is_none() && sample.post_eviction.is_none());
    }
}

#[test]
fn express_lane_watches_delays() {
    for eviction in [
        ExpressEvictionConfig::QueueDelay {
            threshold: 500_000_000,
            ideal: false,
        },
        ExpressEvictionConfig::QueueDelay {
            threshold: 500_000_000,
            ideal: true,
        },
        ExpressEvictionConfig::Combined {
            depth_threshold: 4,
            delay_threshold: 800_000_000,
        },
    ] {
        let args = LbRunArgs {
            servers: 4,
            express_lane: Some(ExpressLaneConfig {
                express_size: 1,
                eviction,
            }),
            ..base_args(600)
        };
        let out = run(&args, exponential(0.7, 5), false);
        assert_eq!(e2e_len(&out), 600);
        assert!(!out.summary.lanes.expect("an express lane").express.is_empty());
    }
}

#[test]
fn constant_arrival_single_client_has_uniform_inter_arrival() {
    let args = LbRunArgs {
        clients: 1,
        ..base_args(50)
    };
    let load = 0.5;
    let arrival_mean = 1.0 / (load * 10.0);
    let traffic = Traffic {
        service: LbServiceDistribution::Exponential,
        ..constant(load, 42)
    };
    let out = run(&args, traffic, false);
    assert_eq!(out.summary.inter_arrival.len(), 49);
    for gap in &out.summary.inter_arrival {
        let gap = *gap as f64 / SECOND;
        assert!(
            (gap - arrival_mean).abs() < 1e-6,
            "expected inter-arrival {arrival_mean}, got {gap}"
        );
    }
}

#[test]
fn constant_arrival_multi_client_offsets_produce_uniform_global_spacing() {
    let args = LbRunArgs {
        clients: 3,
        ..base_args(30)
    };
    let load = 0.5;
    let arrival_mean = 1.0 / (load * 10.0);
    let traffic = Traffic {
        service: LbServiceDistribution::Exponential,
        ..constant(load, 42)
    };
    let out = run(&args, traffic, false);
    assert_eq!(out.summary.inter_arrival.len(), 29);
    for gap in &out.summary.inter_arrival {
        let gap = *gap as f64 / SECOND;
        assert!(
            (gap - arrival_mean).abs() < 1e-6,
            "expected global inter-arrival {arrival_mean}, got {gap}"
        );
    }
}

#[test]
fn inter_arrival_and_departure_lengths_match_task_count() {
    let out = run(&base_args(500), exponential(0.5, 42), false);
    assert_eq!(out.summary.inter_arrival.len(), 499);
    assert_eq!(out.summary.inter_departure.len(), 499);
    assert_eq!(e2e_len(&out), 500);
}

#[test]
fn a_run_repeats_under_its_seed() {
    for (lb_policy, pull_policy) in [
        (LoadBalancePolicyKind::PowerOfTwo, None),
        (LoadBalancePolicyKind::Approx, Some(PullPolicyKind::PowerOfTwo)),
        (LoadBalancePolicyKind::Prequal, None),
    ] {
        let args = LbRunArgs {
            clients: 3,
            lb_policy,
            pull_policy,
            lb_subset_policy: SubsetPolicyKind::Random,
            ..base_args(300)
        };
        let first = run(&args, exponential(0.8, 11), false);
        let second = run(&args, exponential(0.8, 11), false);
        assert_eq!(first.summary.samples, second.summary.samples);
        let other = run(&args, exponential(0.8, 12), false);
        assert_ne!(first.summary.samples, other.summary.samples);
    }
}

#[test]
fn tasks_are_split_evenly() {
    assert_eq!(split_tasks(10, 3), vec![4, 3, 3]);
    assert_eq!(split_tasks(2, 4), vec![1, 1, 0, 0]);
    assert_eq!(split_tasks(5, 0), vec![5]);
}
