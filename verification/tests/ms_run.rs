//! Whole runs of the microservice simulator, on a plain event queue.

use lb::approx_audit::ApproxPullAudit;
use lb::key_map::NameMap;
use lb::lb_simulate::{balancer_of_client, balancer_of_server};
use lb::microservice::balancer::{EdgeBalancer, OutboundOutcome, ReplicaBalancer, ReplicaPullReply};
use lb::microservice::callgraph::{CallGraph, CallGraphFile, Edge, Interface, Node};
use lb::microservice::downstream::{DownstreamBalancer, OutboundGateway, SharedOutcome, Slack};
use lb::microservice::hop::{
    CompletedRequest, Hop, MsPullIntent, OutboundCall, OutboundRelease, ReplicaInput, ReplicaPull,
};
use lb::microservice::microservice_stats::{MicroserviceStats, MicroserviceVisitTracker};
use lb::microservice::occupancy::{server_level, OccupancyAccumulator};
use lb::microservice::replica::{advance, Advance, Replica, ReplicaAction};
use lb::microservice::sidecar::{
    n_sidecars, sidecar_id, sidecar_replicas, ApproxServerSidecar, SidecarCapacityEvent,
};
use lb::microservice::simulate::{
    all_downstream_targets, calculate_stats, downstream_targets, plan_replica, validate_run,
    ApiSummary, MsSummary, UserArrival,
};
use lb::microservice::topology::{
    plan_edge, plan_gateway, plan_replica_balancer, plan_server, plan_shared_balancers,
    validate_subsets, MsPlan,
};
use lb::ms_centralized_audit::MsCentralizedAudit;
use lb::ms_jbsq_audit::MsJbsqAudit;
use lb::policy::{ApproxSchedKind, CentralizedSchedKind, LoadBalancePolicyKind, PullPolicyKind};
use lb::rng::{enter_run, random_usize_range, RunRng};
use lb::scheduling::SchedulingPolicyKind;
use lb::subset::{subset_table, SubsetPolicyKind};
use std::collections::{BTreeMap, HashMap};
use std::time::Duration;

type Place = (String, usize);

const MS: f64 = 1e6;

enum Event {
    Arrive(String),
    Input(Place, ReplicaInput),
    Complete(Place, Hop),
    RequestPull(Place),
    Call(Place, OutboundCall),
    Released(Place, OutboundRelease),
    EdgeRelease(String, usize),
    Intent(Place, MsPullIntent),
    PullFrom(usize, ReplicaPull),
    SharedPull(String, usize),
}

/// What a call graph is loaded with.
struct Fixture {
    graph: CallGraph,
    /// Mean service time of each endpoint, in ms.
    means: HashMap<String, f64>,
    /// Requests per second and SLO in ms, by API.
    load: Vec<(String, f64, f64)>,
}

struct Args {
    n: u32,
    seed: u64,
    plan: MsPlan,
    fixed: bool,
    audits: bool,
}

struct Stats {
    summary: MsSummary,
    by_microservice: NameMap<MicroserviceStats>,
    rows: Vec<Vec<Option<u128>>>,
    order: Vec<String>,
    end: u64,
    utilization: HashMap<String, Vec<f64>>,
    occupancy: HashMap<String, Vec<f64>>,
    pull_audit: ApproxPullAudit,
    central_audit: MsCentralizedAudit,
    jbsq_audit: MsJbsqAudit,
}

struct Run<'a> {
    fixture: &'a Fixture,
    args: &'a Args,
    rng: RunRng,
    arrivals: UserArrival,
    visits: MicroserviceVisitTracker,
    edges: HashMap<String, (String, EdgeBalancer)>,
    replicas: BTreeMap<Place, Replica>,
    balancers: Vec<ReplicaBalancer>,
    balancer_of: HashMap<Place, usize>,
    gateways: HashMap<String, OutboundGateway>,
    shared: HashMap<String, Vec<DownstreamBalancer>>,
    sidecars: HashMap<Place, ApproxServerSidecar>,
    replica_occ: HashMap<Place, OccupancyAccumulator>,
    queue_occ: HashMap<String, OccupancyAccumulator>,
    pull_audit: Option<ApproxPullAudit>,
    central_audit: Option<MsCentralizedAudit>,
    jbsq_audit: Option<MsJbsqAudit>,
    events: BTreeMap<(u64, u64), Event>,
    seq: u64,
    now: u64,
    done: Vec<CompletedRequest>,
}

fn exp_sample(rng: &mut RunRng, mean: f64) -> f64 {
    let u = (random_usize_range(rng, 0..(1 << 24)) + 1) as f64 / (1 << 24) as f64;
    -mean * u.ln()
}

impl Run<'_> {
    fn at(&mut self, time: u64, event: Event) {
        let key = (time, self.seq);
        self.seq += 1;
        self.events.insert(key, event);
    }

    fn soon(&mut self, event: Event) {
        let now = self.now;
        self.at(now, event);
    }

    fn shares(&self) -> bool {
        self.args.plan.lb_policy.is_approx_share()
    }

    fn sidecar_place(&self, place: &Place) -> Place {
        (place.0.clone(), sidecar_id(place.1, self.args.plan.approx_share))
    }

    /// The occupancy of a replica counts what waits in its own balancer.
    fn sample(&mut self, place: &Place) {
        let level = self.replicas[place].occupancy_level();
        let mut waiting = Vec::new();
        if let Some(rb) = self.balancer_of.get(place) {
            if !self.shares() {
                for target in downstream_targets(&self.fixture.graph, &place.0) {
                    waiting.push(self.balancers[*rb].queue_len(&target));
                }
            }
        }
        let now = self.now;
        self.replica_occ
            .entry(place.clone())
            .or_default()
            .record(now, server_level(level, &waiting));
        if self.shares() {
            let sc = self.sidecar_place(place);
            let event = SidecarCapacityEvent::Occupancy {
                server_idx: place.1,
                level,
            };
            self.tell_sidecar(sc, event);
        }
    }

    fn tell_sidecar(&mut self, sc: Place, event: SidecarCapacityEvent) {
        let sidecar = self.sidecars.get_mut(&sc).expect("a sidecar");
        for answer in sidecar.capacity_event(event, &mut self.pull_audit) {
            self.soon(Event::PullFrom(answer.sender_id, answer.pull));
        }
    }

    fn sample_queue(&mut self, target: &String) {
        let waiting: Vec<usize> = self.shared[target].iter().map(|b| b.queue_len()).collect();
        let now = self.now;
        self.queue_occ
            .entry(target.clone())
            .or_default()
            .record(now, server_level(0, &waiting));
    }

    fn perform(&mut self, place: &Place, actions: Vec<ReplicaAction>) {
        for action in actions {
            match action {
                ReplicaAction::Serve(mut hop) => {
                    let mean = self.fixture.means[&hop.endpoint] * MS;
                    let nanos = if self.args.fixed {
                        mean
                    } else {
                        exp_sample(&mut self.rng, mean)
                    };
                    hop.duration = (nanos.round() as u64).max(1);
                    let end = self.now + hop.duration;
                    self.at(end, Event::Complete(place.clone(), hop));
                }
                ReplicaAction::Release(release) => {
                    self.soon(Event::Released(place.clone(), release))
                }
                ReplicaAction::Advance(Advance::Call(call)) => {
                    self.soon(Event::Call(place.clone(), call))
                }
                ReplicaAction::Advance(Advance::Return {
                    microservice,
                    server,
                    back,
                }) => {
                    let ms = response_ms(back.response);
                    self.soon(Event::Input(
                        (microservice, server),
                        ReplicaInput::DownstreamReturn(back.report(ms)),
                    ));
                }
                ReplicaAction::Advance(Advance::Complete { done, edge }) => {
                    self.soon(Event::EdgeRelease(edge.api, edge.server));
                    self.done.push(done);
                }
                ReplicaAction::Advance(Advance::Fail(text)) => panic!("{text}"),
                ReplicaAction::Pull => self.soon(Event::SharedPull(place.0.clone(), place.1)),
                ReplicaAction::PullFrom { sender_id, pull } => {
                    self.soon(Event::PullFrom(sender_id, pull))
                }
            }
        }
        self.sample(place);
    }

    fn to_replica(&mut self, place: Place, msg: ReplicaInput) {
        let now = self.now;
        let pulled = matches!(&msg, ReplicaInput::Upstream(hop) if hop.slot_release.is_some());
        let replica = self.replicas.get_mut(&place).expect("a replica");
        let actions = replica.input(
            &self.fixture.graph,
            &mut self.visits,
            msg,
            now,
            &mut self.jbsq_audit,
        );
        if pulled && self.shares() {
            let sc = self.sidecar_place(&place);
            self.tell_sidecar(
                sc,
                SidecarCapacityEvent::PullArrived {
                    server_idx: place.1,
                },
            );
        }
        self.perform(&place, actions);
    }

    fn step(&mut self, event: Event) {
        let now = self.now;
        match event {
            Event::Arrive(api) => {
                let slo = self
                    .fixture
                    .load
                    .iter()
                    .find(|(name, _, _)| *name == api)
                    .map(|(_, _, slo)| (slo * MS) as u64);
                let hop = self
                    .arrivals
                    .inject(&self.fixture.graph, api.clone(), true, slo, now)
                    .expect("an entry");
                let (entry, edge) = self.edges.get_mut(&api).expect("an edge");
                let server = edge.input(&mut self.rng);
                let place = (entry.clone(), server);
                self.soon(Event::Input(place, ReplicaInput::Upstream(hop)));
            }
            Event::Input(place, msg) => {
                let entering =
                    matches!(&msg, ReplicaInput::Upstream(hop) if hop.slot_release.is_none());
                if entering && self.shares() {
                    let sc = self.sidecar_place(&place);
                    let sidecar = self.sidecars.get_mut(&sc).expect("a sidecar");
                    let (server, hop) = sidecar.receive_upstream(msg).expect("a replica");
                    self.to_replica((place.0, server), ReplicaInput::Upstream(hop));
                } else {
                    self.to_replica(place, msg);
                }
            }
            Event::Complete(place, hop) => {
                let pulled = hop.slot_release.is_some();
                let replica = self.replicas.get_mut(&place).expect("a replica");
                let actions = replica.complete(
                    &self.fixture.graph,
                    &mut self.visits,
                    hop,
                    now,
                    &mut self.pull_audit,
                    &mut self.jbsq_audit,
                );
                self.perform(&place, actions);
                if pulled && self.shares() {
                    let sc = self.sidecar_place(&place);
                    let event = SidecarCapacityEvent::Completed {
                        server_idx: place.1,
                    };
                    self.tell_sidecar(sc, event);
                }
            }
            Event::RequestPull(place) => {
                let replica = self.replicas.get_mut(&place).expect("a replica");
                if replica.request_pull(&mut self.jbsq_audit) {
                    self.soon(Event::SharedPull(place.0, place.1));
                }
            }
            Event::Call(place, call) => {
                if self.args.plan.lb_policy.uses_shared_downstream() {
                    let call = self.gateways[&place.0].input(call).expect("a target");
                    let target = call.target_microservice.clone();
                    let list = self.shared.get_mut(&target).expect("shared balancers");
                    let lb = balancer_of_client(place.1, list.len());
                    let slack = slack_at(call.hop.deadline, now);
                    let out =
                        list[lb].outbound(call, slack, &mut self.rng, &mut self.central_audit);
                    match out {
                        SharedOutcome::Sent(list) => {
                            for d in list {
                                self.soon(Event::Input(
                                    (target.clone(), d.server),
                                    ReplicaInput::Upstream(d.hop),
                                ));
                            }
                        }
                        SharedOutcome::Refused(text) => panic!("{text}"),
                    }
                    self.sample_queue(&target);
                } else {
                    let target = call.target_microservice.clone();
                    let rb = self.balancer_of[&place];
                    match self.balancers[rb].outbound(call, &mut self.rng, &mut self.pull_audit) {
                        OutboundOutcome::Sent { server, hop } => self.soon(Event::Input(
                            (target, server),
                            ReplicaInput::Upstream(hop),
                        )),
                        OutboundOutcome::Announced { place, intent } => {
                            self.soon(Event::Intent((target, place), intent))
                        }
                        OutboundOutcome::Refused(text) => panic!("{text}"),
                    }
                    self.sample(&place);
                }
            }
            Event::Released(place, release) => {
                if self.args.plan.lb_policy.uses_central_pull_queue() {
                    assert_eq!((&release.target_microservice, release.target_server), (&place.0, place.1));
                    let n = self.fixture.graph.microservices.get(&place.0).unwrap().replicas;
                    let table = subset_table(n as usize, self.args.plan.lb_subset_size);
                    let lb = balancer_of_server(&table, place.1).expect("a subset");
                    self.shared.get_mut(&place.0).expect("shared balancers")[lb].release(release);
                } else if self.args.plan.lb_policy.uses_shared_downstream() {
                    if let Some(release) = self.gateways[&place.0].release(release) {
                        let list = self
                            .shared
                            .get_mut(&release.target_microservice)
                            .expect("shared balancers");
                        let lb = balancer_of_client(place.1, list.len());
                        list[lb].release(release);
                    }
                } else {
                    let rb = self.balancer_of[&place];
                    self.balancers[rb].release_outbound(release);
                }
            }
            Event::EdgeRelease(api, server) => {
                self.edges.get_mut(&api).expect("an edge").1.release(server);
            }
            Event::Intent(place, intent) => {
                if self.shares() {
                    let sidecar = self.sidecars.get_mut(&place).expect("a sidecar");
                    for answer in sidecar.receive_pull_intent(intent, &mut self.pull_audit) {
                        self.soon(Event::PullFrom(answer.sender_id, answer.pull));
                    }
                } else {
                    let replica = self.replicas.get_mut(&place).expect("a replica");
                    let action = replica.receive_pull_intent(intent, &mut self.pull_audit);
                    self.perform(&place, action.into_iter().collect());
                }
            }
            Event::PullFrom(rb, pull) => {
                let target = pull.target_microservice.clone();
                match self.balancers[rb].pull(pull, &mut self.pull_audit) {
                    ReplicaPullReply::Dispatch { server, hop } => self.soon(Event::Input(
                        (target, server),
                        ReplicaInput::Upstream(hop),
                    )),
                    ReplicaPullReply::Ignored => {}
                    ReplicaPullReply::Abort(text) => panic!("{text}"),
                }
            }
            Event::SharedPull(target, server) => {
                let n = self.fixture.graph.microservices.get(&target).unwrap().replicas;
                let table = subset_table(n as usize, self.args.plan.lb_subset_size);
                let lb = balancer_of_server(&table, server).expect("a subset");
                let list = self.shared.get_mut(&target).expect("shared balancers");
                if let Some(d) = list[lb].pull(server, &mut self.central_audit) {
                    self.soon(Event::Input(
                        (target.clone(), d.server),
                        ReplicaInput::Upstream(d.hop),
                    ));
                }
                self.sample_queue(&target);
            }
        }
    }
}

/// How long a visit took, in rounded milliseconds.
fn response_ms(nanos: Option<u64>) -> u64 {
    let ms = |n: u64| Duration::from_nanos(n).as_secs_f64() * 1000.0;
    nanos.map_or(0, |n| ms(n).round() as u64)
}

/// What is left until `deadline`, as floating-point milliseconds tell it.
fn slack_at(deadline: u64, now: u64) -> Option<Slack> {
    let ms = |t: u64| Duration::from_nanos(t).as_secs_f64() * 1000.0;
    let left = ms(deadline) - ms(now);
    (left >= 0.0).then_some(Slack {
        floor_ms: left.floor() as u64,
        rounded_ms: left.round() as u64,
    })
}

fn run(fixture: &Fixture, args: &Args) -> Stats {
    let graph = &fixture.graph;
    let plan = &args.plan;
    validate_run(plan.lb_policy, plan.lb_subset_size).expect("a supported run");
    validate_subsets(graph, plan).expect("whole subsets");
    let mut rng = RunRng::new();
    enter_run(&mut rng, Some(args.seed));

    let mut edges = HashMap::new();
    for i in 0..graph.entrypoints.len() {
        let api = graph.entrypoints.key_at(i);
        edges.insert(api.clone(), plan_edge(graph, plan, api).expect("an entry"));
    }
    let count = |ms: &String| graph.microservices.get(ms).unwrap().replicas as usize;
    let called = all_downstream_targets(graph);

    let mut balancers = Vec::new();
    let mut balancer_of = HashMap::new();
    let mut gateways = HashMap::new();
    let mut shared = HashMap::new();
    let mut sidecars = HashMap::new();
    if plan.lb_policy.uses_shared_downstream() {
        for ms in &graph.microservice_order {
            gateways.insert(ms.clone(), plan_gateway(graph, ms));
        }
        for target in &called {
            shared.insert(target.clone(), plan_shared_balancers(graph, plan, target));
        }
    } else {
        for ms in &graph.microservice_order {
            let share = plan.approx_share;
            if plan.lb_policy.is_approx_share() {
                for sc in 0..n_sidecars(count(ms), share) {
                    let id = balancers.len();
                    balancers.push(plan_replica_balancer(graph, plan, id, ms, sc, &mut rng));
                    for server in sidecar_replicas(sc, count(ms), share) {
                        balancer_of.insert((ms.clone(), server), id);
                    }
                }
            } else {
                for server in 0..count(ms) {
                    let id = balancers.len();
                    balancers.push(plan_replica_balancer(graph, plan, id, ms, server, &mut rng));
                    balancer_of.insert((ms.clone(), server), id);
                }
            }
        }
    }
    let ids: Vec<usize> = (0..balancers.len()).collect();

    let mut replicas = BTreeMap::new();
    let mut initial = Vec::new();
    for ms in &graph.microservice_order {
        let is_called = called.contains(ms);
        let spec = *graph.microservices.get(ms).unwrap();
        let set_up = plan_replica(plan.lb_policy, plan.jbsq_n, spec, is_called);
        for server in 0..count(ms) {
            let senders = if plan.lb_policy.is_approx() {
                ids.clone()
            } else {
                vec![]
            };
            let replica = plan_server(graph, plan, ms, server, is_called, senders);
            replicas.insert((ms.clone(), server), replica);
            for _ in 0..set_up.initial_pulls {
                initial.push((ms.clone(), server));
            }
        }
        if plan.lb_policy.is_approx_share() {
            for sc in 0..n_sidecars(count(ms), plan.approx_share) {
                let owned = sidecar_replicas(sc, count(ms), plan.approx_share);
                let sidecar = ApproxServerSidecar::new(
                    ms.clone(),
                    sc,
                    owned,
                    set_up.max_concurrency,
                    ids.clone(),
                    plan.approx_sched,
                );
                sidecars.insert((ms.clone(), sc), sidecar);
            }
        }
    }

    let mut run = Run {
        fixture,
        args,
        rng,
        arrivals: UserArrival::new(None),
        visits: MicroserviceVisitTracker::new(&graph.microservice_order),
        edges,
        replicas,
        balancers,
        balancer_of,
        gateways,
        shared,
        sidecars,
        replica_occ: HashMap::new(),
        queue_occ: HashMap::new(),
        pull_audit: args.audits.then_some(ApproxPullAudit::new()),
        central_audit: args.audits.then_some(MsCentralizedAudit::new()),
        jbsq_audit: args.audits.then_some(MsJbsqAudit::new()),
        events: BTreeMap::new(),
        seq: 0,
        now: 0,
        done: Vec::new(),
    };
    for place in initial {
        run.soon(Event::RequestPull(place));
    }
    for (api, rps, _) in &fixture.load {
        let mut time = 0.0;
        for _ in 0..args.n {
            time += exp_sample(&mut run.rng, 1e9 / rps);
            run.at(time.round() as u64, Event::Arrive(api.clone()));
        }
    }
    while let Some(((time, _), event)) = run.events.pop_first() {
        run.now = time;
        run.step(event);
    }

    run.visits.finalize_cumulative_metrics();
    let mut slo = NameMap::new();
    for (api, _, ms) in &fixture.load {
        slo.insert(api.clone(), (ms * MS) as u64);
    }
    let end = run.now;
    let mut utilization: HashMap<String, Vec<f64>> = HashMap::new();
    let mut occupancy: HashMap<String, Vec<f64>> = HashMap::new();
    for (place, replica) in &run.replicas {
        let spec = graph.microservices.get(&place.0).unwrap();
        let slots = plan_replica(plan.lb_policy, plan.jbsq_n, *spec, false).max_concurrency;
        utilization
            .entry(place.0.clone())
            .or_default()
            .push(replica.busy_time() as f64 / (end as f64 * f64::from(slots)) * 100.0);
        let avg = run
            .replica_occ
            .entry(place.clone())
            .or_default()
            .finalize(end, 0);
        let mut level = avg.area as f64 / avg.span as f64;
        if let Some(queue) = run.queue_occ.get_mut(&place.0) {
            let avg = queue.finalize(end, 0);
            level += avg.area as f64 / avg.span as f64 / f64::from(spec.replicas);
        }
        occupancy.entry(place.0.clone()).or_default().push(level);
    }
    Stats {
        summary: calculate_stats(&run.done, &slo).expect("completed requests"),
        by_microservice: run.visits.into_stats(&graph.microservice_order),
        rows: run.visits.per_request_cumulative_queueing(),
        order: graph.microservice_order.clone(),
        end,
        utilization,
        occupancy,
        pull_audit: run.pull_audit.unwrap_or_else(ApproxPullAudit::new),
        central_audit: run.central_audit.unwrap_or_else(MsCentralizedAudit::new),
        jbsq_audit: run.jbsq_audit.unwrap_or_else(MsJbsqAudit::new),
    }
}

fn node(id: &str, interfaces: &[&str], size: u32) -> Node {
    Node {
        id: id.to_string(),
        interfaces: interfaces
            .iter()
            .map(|name| Interface {
                name: name.to_string(),
                has_avg_rt: true,
                has_exponential: false,
            })
            .collect(),
        cpu: Some(size),
        replicas: Some(size),
    }
}

fn edge(source: &str, target: &str, api: &str) -> Edge {
    Edge {
        source: source.to_string(),
        target: target.to_string(),
        api: (!api.is_empty()).then_some(api.to_string()),
    }
}

fn fixture(nodes: Vec<Node>, edges: Vec<Edge>, ms: &[f64], load: &[(&str, f64, f64)]) -> Fixture {
    let mut means = HashMap::new();
    let mut next = ms.iter();
    for node in &nodes {
        for interface in &node.interfaces {
            let mean = *next.next().expect("a mean");
            means.insert(format!("{}:{}", node.id, interface.name), mean);
        }
    }
    Fixture {
        graph: CallGraph::from_file_data(&CallGraphFile { nodes, edges }).expect("a graph"),
        means,
        load: load
            .iter()
            .map(|(api, rps, slo)| (api.to_string(), *rps, *slo))
            .collect(),
    }
}

fn chain3(rps: f64) -> Fixture {
    fixture(
        vec![
            node("frontend", &["handle"], 10),
            node("backend1", &["f1"], 10),
            node("backend2", &["f2"], 10),
        ],
        vec![
            edge("USER", "frontend:handle", ""),
            edge("frontend:handle", "backend1:f1", "handle"),
            edge("backend1:f1", "backend2:f2", "handle"),
        ],
        &[1.0, 1.0, 1.0],
        &[("handle", rps, 16.0)],
    )
}

fn fanin(sizes: [u32; 4], rps: f64) -> Fixture {
    fixture(
        vec![
            node("frontend", &["f1"], sizes[0]),
            node("backend1", &["f2"], sizes[1]),
            node("backend2", &["f4"], sizes[2]),
            node("shared", &["f5"], sizes[3]),
        ],
        vec![
            edge("USER", "frontend:f1", ""),
            edge("frontend:f1", "backend1:f2", "f1"),
            edge("frontend:f1", "backend2:f4", "f1"),
            edge("backend1:f2", "shared:f5", "f1"),
            edge("backend2:f4", "shared:f5", "f1"),
        ],
        &[0.5, 1.0, 1.0, 1.0],
        &[("f1", rps, 35.0)],
    )
}

fn client_server(rps: f64, slo: f64) -> Fixture {
    fixture(
        vec![node("server", &["handle"], 1)],
        vec![edge("USER", "server:handle", "")],
        &[5.0],
        &[("handle", rps, slo)],
    )
}

fn caller_queue() -> Fixture {
    fixture(
        vec![node("frontend", &["g1"], 1), node("backend1", &["g2"], 1)],
        vec![
            edge("USER", "frontend:g1", ""),
            edge("frontend:g1", "backend1:g2", "g1"),
        ],
        &[1.0, 5.0],
        &[("g1", 170.0, 100.0)],
    )
}

fn plan(lb_policy: LoadBalancePolicyKind) -> MsPlan {
    MsPlan {
        lb_policy,
        pull_policy: lb_policy
            .uses_approx_protocol()
            .then_some(PullPolicyKind::LeastRequest),
        lb_subset_size: 0,
        lb_subset_policy: SubsetPolicyKind::Deterministic,
        scheduling: SchedulingPolicyKind::Fifo,
        centralized_sched: CentralizedSchedKind::Fcfs,
        approx_sched: None,
        approx_share: 1,
        jbsq_n: None,
    }
}

fn args(n: u32, seed: u64, plan: MsPlan) -> Args {
    Args {
        n,
        seed,
        plan,
        fixed: false,
        audits: true,
    }
}

fn api<'a>(stats: &'a Stats, name: &str) -> &'a ApiSummary {
    stats.summary.by_api.get(&name.to_string()).expect("an API")
}

fn service<'a>(stats: &'a Stats, name: &str) -> &'a MicroserviceStats {
    stats
        .by_microservice
        .get(&name.to_string())
        .expect("a microservice")
}

fn mean(values: &[f64]) -> f64 {
    values.iter().sum::<f64>() / values.len() as f64
}

fn p(values: &[u64], pct: f64) -> f64 {
    let mut sorted = values.to_vec();
    sorted.sort();
    sorted[((sorted.len() - 1) as f64 * pct / 100.0).round() as usize] as f64
}

#[test]
fn fanin_multi_replica_seed_1() {
    let f = fanin([2, 3, 3, 4], 1400.0);
    let stats = run(&f, &args(1000, 1, plan(LoadBalancePolicyKind::LeastRequest)));
    assert!(stats.summary.by_api.len() > 0);
    for ms in &f.graph.microservice_order {
        let spec = f.graph.microservices.get(ms).unwrap();
        let servers = &stats.utilization[ms];
        assert_eq!(servers.len(), spec.replicas as usize);
        for (i, pct) in servers.iter().enumerate() {
            assert!(
                (0.0..=100.0).contains(pct),
                "server {i} of {ms}: {pct}% out of range"
            );
        }
    }
}

#[test]
fn server_avg_queue_inflight_present_and_non_negative() {
    let f = fanin([2, 3, 3, 4], 1400.0);
    let stats = run(&f, &args(1000, 1, plan(LoadBalancePolicyKind::LeastRequest)));
    for ms in &f.graph.microservice_order {
        let spec = f.graph.microservices.get(ms).unwrap();
        let servers = &stats.occupancy[ms];
        assert_eq!(servers.len(), spec.replicas as usize);
        for (i, avg) in servers.iter().enumerate() {
            assert!(avg.is_finite() && *avg >= 0.0, "server {i} of {ms}: {avg}");
        }
    }
}

#[test]
fn server_utilization_is_reproducible() {
    let f = fanin([2, 3, 3, 4], 1400.0);
    let a = args(1000, 99, plan(LoadBalancePolicyKind::LeastRequest));
    let first = run(&f, &a);
    let second = run(&f, &a);
    assert_eq!(first.utilization, second.utilization);
}

#[test]
fn server_avg_queue_inflight_is_reproducible() {
    let f = fanin([2, 3, 3, 4], 1400.0);
    let a = args(1000, 99, plan(LoadBalancePolicyKind::Cl));
    let first = run(&f, &a);
    let second = run(&f, &a);
    assert_eq!(first.occupancy, second.occupancy);
}

#[test]
fn same_seed_is_reproducible() {
    let f = client_server(100.0, 50.0);
    let a = args(5000, 42, plan(LoadBalancePolicyKind::LeastRequest));
    let first = run(&f, &a);
    let second = run(&f, &a);
    assert_eq!(api(&first, "handle").e2e, api(&second, "handle").e2e);
}

#[test]
fn rps_override_changes_arrival_rate_enough_to_affect_utilization() {
    let a = args(5000, 11, plan(LoadBalancePolicyKind::LeastRequest));
    let low = run(&client_server(1.0, 50.0), &a);
    let high = run(&client_server(100.0, 50.0), &a);
    assert!(
        high.utilization["server"][0] > low.utilization["server"][0],
        "expected higher rps override to increase utilization"
    );
}

#[test]
fn slo_override_changes_reported_slo_and_violation_probability() {
    let a = args(5000, 13, plan(LoadBalancePolicyKind::LeastRequest));
    let stats = run(&client_server(100.0, 1.0), &a);
    assert_eq!(api(&stats, "handle").slo, Some(1_000_000));
    assert!(api(&stats, "handle").violations.unwrap() > 0);
}

#[test]
fn prob_latency_gt_slo_computed_from_e2e() {
    let f = fanin([2, 3, 3, 4], 1400.0);
    let stats = run(&f, &args(1000, 1, plan(LoadBalancePolicyKind::LeastRequest)));
    let f1 = api(&stats, "f1");
    let expected = f1.e2e.iter().filter(|e2e| **e2e as f64 > 35.0 * MS).count();
    assert_eq!(f1.violations, Some(expected));
}

#[test]
fn centralized_fair_share_adds_balancer_queue_to_downstream_replicas() {
    let f = chain3(500.0);
    let stats = run(&f, &args(5000, 42, plan(LoadBalancePolicyKind::Centralized)));
    let cl_stats = run(&f, &args(5000, 42, plan(LoadBalancePolicyKind::Cl)));
    let centralized_mean = mean(&stats.occupancy["backend2"]);
    let cl_mean = mean(&cl_stats.occupancy["backend2"]);
    assert!(
        centralized_mean > 0.0,
        "centralized downstream avg occupancy should be positive under load"
    );
    assert!(cl_mean > 0.0);
    assert!(
        (centralized_mean - cl_mean).abs() < 50.0,
        "centralized mean={centralized_mean}, cl mean={cl_mean}"
    );
}

fn assert_chain3_visit_metrics(stats: &Stats, slo_ms: f64) {
    let chain = ["frontend", "backend1", "backend2"];
    assert_eq!(stats.order, chain);
    let mut mean_slack = [0.0; 3];
    let mut mean_cumulative = [0.0; 3];
    for (idx, ms) in chain.iter().enumerate() {
        let ms_stats = service(stats, ms);
        assert_eq!(ms_stats.response_time.len(), 500, "{ms}");
        assert_eq!(ms_stats.inter_arrival.len(), 499, "{ms}");
        assert_eq!(ms_stats.slack_d.len(), 500, "{ms}");
        assert_eq!(ms_stats.cumulative_queueing_delay.len(), 500, "{ms}");
        mean_slack[idx] = ms_stats.slack_d.iter().map(|s| *s as f64 / MS).sum::<f64>() / 500.0;
        mean_cumulative[idx] = ms_stats
            .cumulative_queueing_delay
            .iter()
            .map(|q| q.expect("a visit") as f64 / MS)
            .sum::<f64>()
            / 500.0;
        let expected = ms_stats
            .response_time
            .iter()
            .zip(ms_stats.slack_d.iter())
            .filter(|(rt, sd)| i128::from(**rt) > **sd)
            .count();
        assert_eq!(ms_stats.slo_violations, expected, "{ms}");
        for i in 0..500 {
            assert!(
                ms_stats.queueing_delay[i] + ms_stats.processing_time[i]
                    <= ms_stats.response_time[i],
                "{ms} visit {i}"
            );
            assert!(
                ms_stats.cumulative_queueing_delay[i].unwrap()
                    >= u128::from(ms_stats.queueing_delay[i]),
                "{ms} visit {i}: cumulative should be >= local queueing"
            );
        }
    }
    assert!(
        mean_slack[0] > slo_ms - 1.0 && mean_slack[0] <= slo_ms,
        "frontend mean slack {mean_slack:?} vs slo_ms={slo_ms}"
    );
    assert!(
        mean_slack[0] > mean_slack[1] && mean_slack[1] > mean_slack[2],
        "mean slack should decrease down chain: {mean_slack:?}"
    );
    assert!(
        mean_cumulative[0] < mean_cumulative[1] && mean_cumulative[1] < mean_cumulative[2],
        "mean cumulative queueing should increase down chain: {mean_cumulative:?}"
    );
    assert!(stats.summary.total_processing_p99 > 0);

    assert_eq!(stats.rows.len(), 500);
    for (row_idx, row) in stats.rows.iter().enumerate() {
        assert_eq!(row.len(), 3, "row {row_idx}");
        assert!(
            row[0] <= row[1] && row[1] <= row[2],
            "row {row_idx}: cumulative should be non-decreasing: {row:?}"
        );
    }
    for (idx, ms) in chain.iter().enumerate() {
        let per_request: u128 = stats.rows.iter().map(|row| row[idx].unwrap()).sum();
        let visits: u128 = service(stats, ms)
            .cumulative_queueing_delay
            .iter()
            .map(|q| q.unwrap())
            .sum();
        assert_eq!(per_request, visits, "{ms}");
    }
}

#[test]
fn chain3_by_microservice_visit_metrics() {
    let f = chain3(8000.0);
    for scheduling in [SchedulingPolicyKind::Fifo, SchedulingPolicyKind::Edf] {
        let p = MsPlan {
            scheduling,
            ..plan(LoadBalancePolicyKind::LeastRequest)
        };
        assert_chain3_visit_metrics(&run(&f, &args(500, 42, p)), 16.0);
    }
}

#[test]
fn force_fixed_svc_uses_constant_processing_times() {
    let a = Args {
        fixed: true,
        ..args(500, 42, plan(LoadBalancePolicyKind::LeastRequest))
    };
    let stats = run(&chain3(8000.0), &a);
    for ms in ["frontend", "backend1", "backend2"] {
        let samples = &service(&stats, ms).processing_time;
        assert!(!samples.is_empty(), "{ms}");
        for sample in samples {
            assert_eq!(*sample as f64, MS, "{ms}: expected constant 1 ms");
        }
    }
}

#[test]
fn ms_approx_pull_intent_and_bound_pull_invariants() {
    let stats = run(&chain3(8000.0), &args(500, 42, plan(LoadBalancePolicyKind::Approx)));
    assert_eq!(
        api(&stats, "handle").e2e.len(),
        500,
        "all requests should finish"
    );
    stats
        .pull_audit
        .validate()
        .expect("approx pull audit invariants should hold");
}

#[test]
fn ms_approx_pull_invariants_under_heavier_load() {
    let stats = run(&chain3(8000.0), &args(2000, 7, plan(LoadBalancePolicyKind::Approx)));
    assert_eq!(api(&stats, "handle").e2e.len(), 2000);
    stats.pull_audit.validate().expect("audit should pass at n=2000");
}

#[test]
fn ms_approx_pull_invariants_with_power_of_two_pull_policy() {
    let p = MsPlan {
        pull_policy: Some(PullPolicyKind::PowerOfTwo),
        ..plan(LoadBalancePolicyKind::Approx)
    };
    let stats = run(&chain3(8000.0), &args(800, 99, p));
    assert_eq!(api(&stats, "handle").e2e.len(), 800);
    stats.pull_audit.validate().expect("audit should pass with P2C pull");
}

#[test]
fn unbound_pulls_complete_under_every_order() {
    for sched in [ApproxSchedKind::Fcfs, ApproxSchedKind::Edf] {
        let p = MsPlan {
            approx_sched: Some(sched),
            ..plan(LoadBalancePolicyKind::Approx)
        };
        let stats = run(&chain3(8000.0), &args(500, 99, p));
        assert_eq!(api(&stats, "handle").e2e.len(), 500);
        stats.pull_audit.validate().expect("every intent is answered");
    }
    for sched in [ApproxSchedKind::Fcfs, ApproxSchedKind::Edf, ApproxSchedKind::EdfPlus] {
        let p = MsPlan {
            approx_sched: Some(sched),
            ..plan(LoadBalancePolicyKind::Approx)
        };
        let stats = run(&fanin([2, 3, 3, 4], 1400.0), &args(400, 7, p));
        assert_eq!(api(&stats, "f1").e2e.len(), 400);
    }
}

fn central_subsets(seed: u64) -> Stats {
    let p = MsPlan {
        lb_subset_size: 5,
        ..plan(LoadBalancePolicyKind::Centralized)
    };
    let stats = run(&chain3(8000.0), &args(400, seed, p));
    assert_eq!(api(&stats, "handle").e2e.len(), 400);
    stats
}

#[test]
fn ms_centralized_subset_disjoint_trace() {
    let stats = central_subsets(42);
    for target in ["backend1", "backend2"] {
        stats
            .central_audit
            .validate_disjoint_subsets(target, 10, 5)
            .unwrap_or_else(|e| panic!("{target}: {e}"));
    }
}

#[test]
fn ms_centralized_per_subset_shared_lb_trace() {
    let stats = central_subsets(7);
    for target in ["backend1", "backend2"] {
        stats
            .central_audit
            .validate_centralized_per_subset(target, 10, 5)
            .unwrap_or_else(|e| panic!("{target}: {e}"));
    }
}

#[test]
fn ms_centralized_caller_maps_to_subset_lb_trace() {
    let stats = central_subsets(99);
    for target in ["backend1", "backend2"] {
        stats
            .central_audit
            .validate_caller_lb_mapping(target, 10, 5)
            .unwrap_or_else(|e| panic!("{target}: {e}"));
    }
}

fn jbsq(n: u32, seed: u64, bound: u32, centralized_sched: CentralizedSchedKind) -> Stats {
    let p = MsPlan {
        jbsq_n: Some(bound),
        centralized_sched,
        ..plan(LoadBalancePolicyKind::Jbsq)
    };
    let stats = run(&chain3(8000.0), &args(n, seed, p));
    assert_eq!(api(&stats, "handle").e2e.len(), n as usize);
    stats
}

#[test]
fn ms_jbsq_n1_pull_bound_invariants() {
    let stats = jbsq(800, 42, 1, CentralizedSchedKind::Fcfs);
    stats.jbsq_audit.validate().expect("jbsq n=1 audit invariants");
    assert!(stats.jbsq_audit.pull_sent_count() > 0);
    assert!(stats.jbsq_audit.pull_arrived_count() > 0);
}

#[test]
fn ms_jbsq_n2_local_queue_and_bound() {
    let stats = jbsq(2000, 7, 2, CentralizedSchedKind::Fcfs);
    stats.jbsq_audit.validate().expect("jbsq n=2 audit invariants");
    assert!(
        stats.jbsq_audit.observed_local_queueing(),
        "expected local queueing when jbsq_n=2 > concurrency=1"
    );
}

#[test]
fn ms_jbsq_edf_completes_with_audit() {
    let stats = jbsq(800, 99, 2, CentralizedSchedKind::Edf);
    stats.jbsq_audit.validate().expect("jbsq edf audit invariants");
}

#[test]
fn ms_jbsq_n1_matches_centralized() {
    let fixed = |p: MsPlan| Args {
        fixed: true,
        ..args(1000, 42, p)
    };
    let f = chain3(8000.0);
    let centralized = run(&f, &fixed(plan(LoadBalancePolicyKind::Centralized)));
    let bounded = run(
        &f,
        &fixed(MsPlan {
            jbsq_n: Some(1),
            ..plan(LoadBalancePolicyKind::Jbsq)
        }),
    );
    assert_eq!(
        api(&centralized, "handle").e2e,
        api(&bounded, "handle").e2e,
        "jbsq n=1 should match centralized e2e latencies"
    );
    assert_eq!(
        api(&centralized, "handle").processing,
        api(&bounded, "handle").processing,
        "jbsq n=1 should match centralized processing times"
    );
}

#[test]
fn g1_nested_call_completes_with_queueing() {
    let stats = run(
        &caller_queue(),
        &args(500, 42, plan(LoadBalancePolicyKind::LeastRequest)),
    );
    let g1 = api(&stats, "g1");
    assert_eq!(g1.e2e.len(), 500);
    assert!(
        p(&g1.e2e, 50.0) > p(&g1.processing, 50.0),
        "e2e p50 should exceed processing p50 when caller queueing applies"
    );
}

#[test]
fn approx_caller_queueing_excludes_downstream_blocking() {
    let stats = run(
        &caller_queue(),
        &args(500, 42, plan(LoadBalancePolicyKind::Approx)),
    );
    let frontend = service(&stats, "frontend");
    let backend = service(&stats, "backend1");
    assert_eq!(frontend.queueing_delay.len(), 500);
    assert_eq!(backend.queueing_delay.len(), 500);
    for i in 0..500 {
        assert_eq!(
            backend.queueing_delay[i] + backend.processing_time[i],
            backend.response_time[i],
            "visit {i}: leaf queueing+proc should equal response"
        );
    }
    let own: Vec<u64> = frontend
        .queueing_delay
        .iter()
        .zip(frontend.processing_time.iter())
        .map(|(q, p)| q + p)
        .collect();
    assert!(
        p(&own, 50.0) < p(&frontend.response_time, 50.0) - MS,
        "frontend own time p50 should be well below total response when downstream is slow"
    );
    assert!(
        p(&frontend.queueing_delay, 50.0) > 0.0,
        "approx frontend queueing p50 should be positive"
    );
}

#[test]
fn approx_caller_lb_queue_increases_server_avg_occupancy() {
    let f = caller_queue();
    let approx = run(&f, &args(500, 42, plan(LoadBalancePolicyKind::Approx)));
    let lr = run(&f, &args(500, 42, plan(LoadBalancePolicyKind::LeastRequest)));
    let approx_occ = approx.occupancy["frontend"][0];
    let lr_occ = lr.occupancy["frontend"][0];
    assert!(
        approx_occ > lr_occ,
        "approx caller LB queue should increase frontend avg occupancy (approx={approx_occ}, lr={lr_occ})"
    );
}

#[test]
fn f1_nested_callgraph_completes() {
    let stats = run(
        &fanin([1, 1, 1, 1], 300.0),
        &args(200, 7, plan(LoadBalancePolicyKind::LeastRequest)),
    );
    assert_eq!(api(&stats, "f1").e2e.len(), 200);
}

#[test]
fn single_server_utilization_matches_overall() {
    let f = client_server(100.0, 50.0);
    let stats = run(
        &f,
        &args(5000, 7, plan(LoadBalancePolicyKind::LeastRequest)),
    );
    let servers = &stats.utilization["server"];
    assert_eq!(servers.len(), 1);
    // The work of all visits over what the cores could do in the time of the run.
    let work: u64 = service(&stats, "server").processing_time.iter().sum();
    let cpu = f.graph.microservices.get(&"server".to_string()).unwrap().cpu;
    let overall = work as f64 / (stats.end as f64 * f64::from(cpu)) * 100.0;
    assert!(
        (overall - servers[0]).abs() < 1e-9,
        "single server: overall={overall}, server={}",
        servers[0]
    );
}

fn share_run(n: u32, seed: u64, share: u32, sched: Option<ApproxSchedKind>) -> Stats {
    let p = MsPlan {
        approx_share: share,
        approx_sched: sched,
        ..plan(LoadBalancePolicyKind::ApproxShare)
    };
    let stats = run(&chain3(8000.0), &args(n, seed, p));
    assert_eq!(api(&stats, "handle").e2e.len(), n as usize);
    stats
}

#[test]
fn ms_approx_share_one_bound_audit_matches_approx_invariants() {
    let stats = share_run(500, 42, 1, None);
    stats.pull_audit.validate().expect("share=1 bound invariants");
}

#[test]
fn a_shared_sidecar_answers_every_intent() {
    for (share, sched) in [(3, None), (3, Some(ApproxSchedKind::Fcfs)), (2, None)] {
        let stats = share_run(600, 7, share, sched);
        stats.pull_audit.validate().expect("bound invariants");
    }
}

#[test]
fn ms_approx_share_one_latency_close_to_approx() {
    let approx = run(&chain3(8000.0), &args(800, 42, plan(LoadBalancePolicyKind::Approx)));
    let share = share_run(800, 42, 1, None);
    let ratio = |x: f64, y: f64| (x / y).max(y / x);
    for pct in [50.0, 99.0] {
        let a = p(&api(&approx, "handle").e2e, pct);
        let s = p(&api(&share, "handle").e2e, pct);
        assert!(ratio(a, s) < 1.05, "p{pct} diverged: approx={a} share1={s}");
    }
}

#[test]
fn every_policy_serves_the_chain() {
    for kind in [
        LoadBalancePolicyKind::Random,
        LoadBalancePolicyKind::PowerOfTwo,
        LoadBalancePolicyKind::RoundRobin,
        LoadBalancePolicyKind::LeastRequest,
        LoadBalancePolicyKind::Centralized,
        LoadBalancePolicyKind::Cl,
        LoadBalancePolicyKind::ClLr,
        LoadBalancePolicyKind::ClR,
        LoadBalancePolicyKind::ClRr,
        LoadBalancePolicyKind::Corr,
    ] {
        let stats = run(&chain3(7000.0), &args(600, 3, plan(kind)));
        assert_eq!(api(&stats, "handle").e2e.len(), 600, "{kind:?}");
        for ms in ["frontend", "backend1", "backend2"] {
            assert_eq!(service(&stats, ms).response_time.len(), 600, "{kind:?} {ms}");
        }
    }
}

#[test]
fn ms_edge_ignores_subset_size_for_power_of_two() {
    let f = chain3(100.0);
    let p = MsPlan {
        lb_subset_size: 5,
        ..plan(LoadBalancePolicyKind::PowerOfTwo)
    };
    assert!(validate_run(p.lb_policy, p.lb_subset_size).is_ok());
    let mut rng = RunRng::new();
    enter_run(&mut rng, Some(42));
    let (entry, edge) = plan_edge(&f.graph, &p, &"handle".to_string()).expect("an entry");
    assert_eq!(entry, "frontend");
    assert_eq!(edge.server_indices().len(), 10);
    let frontend = plan_replica_balancer(&f.graph, &p, 0, &entry, 0, &mut rng);
    let outbound = frontend.server_indices(&"backend1".to_string());
    assert_eq!(outbound.map(|indices| indices.len()), Some(5));
    assert!(frontend.server_indices(&"nowhere".to_string()).is_none());
    let stats = run(&f, &args(100, 42, p));
    assert_eq!(api(&stats, "handle").e2e.len(), 100);
}

#[test]
fn subsets_of_a_central_queue_split_servers_and_callers() {
    let f = chain3(100.0);
    let with = |kind, size, policy| MsPlan {
        lb_subset_size: size,
        lb_subset_policy: policy,
        ..plan(kind)
    };
    let deterministic = SubsetPolicyKind::Deterministic;
    for kind in [LoadBalancePolicyKind::Centralized, LoadBalancePolicyKind::Jbsq] {
        for size in [0, 1, 2, 5, 10, 40] {
            assert!(validate_subsets(&f.graph, &with(kind, size, deterministic)).is_ok());
        }
    }
    assert_eq!(
        validate_subsets(&f.graph, &with(LoadBalancePolicyKind::Jbsq, 3, deterministic)),
        Err("--lb-subset-size 3 must evenly divide --servers 10 with --lb-policy jbsq".to_string())
    );
    let random = with(LoadBalancePolicyKind::Centralized, 5, SubsetPolicyKind::Random);
    assert_eq!(
        validate_subsets(&f.graph, &random),
        Err("--lb-subset-policy random is not supported with --lb-policy centralized; use deterministic".to_string())
    );
    for policy in [deterministic, SubsetPolicyKind::Random] {
        let pushes = with(LoadBalancePolicyKind::PowerOfTwo, 3, policy);
        assert!(validate_subsets(&f.graph, &pushes).is_ok());
    }

    // Three callers cannot be shared out between two subsets. Nobody calls the frontend, so
    // its own three servers need no splitting.
    let f = fixture(
        vec![node("frontend", &["f1"], 3), node("backend", &["f2"], 10)],
        vec![
            edge("USER", "frontend:f1", ""),
            edge("frontend:f1", "backend:f2", "f1"),
        ],
        &[1.0, 1.0],
        &[("f1", 1.0, 10.0)],
    );
    assert_eq!(
        validate_subsets(&f.graph, &with(LoadBalancePolicyKind::Centralized, 5, deterministic)),
        Err("--clients 3 must be divisible by the subset count (2 = servers/subset-size) with --lb-policy centralized".to_string())
    );
    assert!(
        validate_subsets(&f.graph, &with(LoadBalancePolicyKind::Centralized, 10, deterministic))
            .is_ok()
    );
}

#[test]
fn a_return_tells_its_caller_how_long_the_call_took() {
    let f = fixture(
        vec![node("frontend", &["f1"], 2), node("backend", &["f2"], 2)],
        vec![
            edge("USER", "frontend:f1", ""),
            edge("frontend:f1", "backend:f2", "f1"),
        ],
        &[1.0, 1.0],
        &[("f1", 1.0, 10.0)],
    );
    let mut visits = MicroserviceVisitTracker::new(&f.graph.microservice_order);
    let hop = Hop {
        request_id: 3,
        trace: false,
        api: "f1".to_string(),
        endpoint: "frontend:f1".to_string(),
        sibling_index: 0,
        start: 0,
        deadline: 100,
        duration: 0,
        processing_time: 0,
        caller: None,
        outbound_release: None,
        slot_release: None,
    };
    let frontend = "frontend".to_string();
    let backend = "backend".to_string();
    let mut called = match advance(&frontend, 1, &f.graph, &mut visits, hop, 0) {
        Advance::Call(call) => call.hop,
        other => panic!("{other:?}"),
    };
    // A balancer notes where it sends a call.
    let caller = called.caller.as_mut().unwrap();
    caller.outbound_target_microservice = backend.clone();
    caller.outbound_target_server = 1;
    visits.record_arrival(3, &backend, 0, 100);
    let back = match advance(&backend, 1, &f.graph, &mut visits, called, 500_500_000) {
        Advance::Return {
            microservice,
            server,
            back,
        } => {
            assert_eq!((microservice.as_str(), server), ("frontend", 1));
            back
        }
        other => panic!("{other:?}"),
    };
    assert_eq!(back.response, Some(500_500_000));
    // Half a millisecond that floating point holds just below the half.
    assert_eq!(response_ms(back.response), 500);
    assert!(back.hop.outbound_release.is_none());
    let release = back.clone().report(500).outbound_release.unwrap();
    assert_eq!(
        (release.target_microservice.as_str(), release.target_server, release.response_time_ms),
        ("backend", 1, 500)
    );

    // Nothing is reported of a call that took no time and was sent by no balancer.
    let mut unsent = back;
    unsent.target_microservice = String::new();
    assert!(unsent.clone().report(0).outbound_release.is_none());
    assert_eq!(unsent.report(2).outbound_release.unwrap().response_time_ms, 2);
}

#[test]
fn a_request_walks_its_calls_in_order_and_comes_back() {
    let f = fixture(
        vec![
            node("frontend", &["f1"], 2),
            node("backend1", &["f2"], 2),
            node("backend2", &["f4"], 2),
            node("shared", &["f5"], 2),
        ],
        vec![
            edge("USER", "frontend:f1", ""),
            edge("frontend:f1", "backend1:f2", "f1"),
            edge("frontend:f1", "backend2:f4", "f1"),
            edge("backend1:f2", "shared:f5", "f1"),
            edge("backend2:f4", "shared:f5", "f1"),
        ],
        &[1.0, 1.0, 1.0, 1.0],
        &[("f1", 1.0, 10.0)],
    );
    let mut visits = MicroserviceVisitTracker::new(&f.graph.microservice_order);
    let mut place = ("frontend".to_string(), 1);
    let mut hop = Hop {
        request_id: 3,
        trace: false,
        api: "f1".to_string(),
        endpoint: "frontend:f1".to_string(),
        sibling_index: 0,
        start: 5,
        deadline: 100,
        duration: 0,
        processing_time: 0,
        caller: None,
        outbound_release: None,
        slot_release: None,
    };
    let mut begun = vec![hop.endpoint.clone()];
    let mut stays = 1;
    loop {
        match advance(&place.0, place.1, &f.graph, &mut visits, hop, 50) {
            Advance::Call(call) => {
                place = (call.target_microservice, 0);
                hop = call.hop;
                begun.push(hop.endpoint.clone());
            }
            Advance::Return {
                microservice,
                server,
                back,
            } => {
                place = (microservice, server);
                hop = back.report(0);
            }
            Advance::Complete { done, edge } => {
                assert_eq!((done.request_id, done.start, done.finish), (3, 5, 50));
                assert_eq!((edge.api.as_str(), edge.server), (done.api.as_str(), 1));
                break;
            }
            Advance::Fail(text) => panic!("{text}"),
        }
        stays += 1;
    }
    assert_eq!(place, ("frontend".to_string(), 1));
    assert_eq!(
        begun,
        [
            "frontend:f1",
            "backend1:f2",
            "shared:f5",
            "backend2:f4",
            "shared:f5"
        ]
    );
    assert_eq!(stays, 9);
}
