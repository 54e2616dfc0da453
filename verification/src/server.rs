//! A server of the `lb` simulator: serves up to a fixed number of tasks at once, and
//! queues, evicts or sheds the rest; or pulls tasks instead of being pushed any.
//!
//! Points in time and durations are nanoseconds. A method returns what is to be done
//! outside: which task to finish when, what to send where, which timers to set.

use crate::approx::{PullIntent, PullRequest};
use crate::lb_pull_audit::{event_fault, intent_queue, LbPullAudit, LbPullEventKind};
use crate::prequal::{Probe, ProbeReply};
use crate::queues::take_front;
use std::collections::VecDeque;
use vstd::prelude::*;

verus! {

#[derive(Clone, Copy, Debug, PartialEq, Eq, Structural)]
pub struct Task {
    pub duration: u64,
    pub finish: u64,
    pub start: u64,
    pub task_id: u64,
    pub lb_id: usize,
    pub origin_server_idx: usize,
    pub served_by_express: bool,
    pub evicted_at: Option<u64>,
    pub shed_at: Option<u64>,
    pub service_started_at: Option<u64>,
}

impl Task {
    /// A task that arrives at `start` and needs `duration` of service.
    pub fn new(start: u64, duration: u64) -> (r: Self)
        ensures
            r == (Task {
                duration,
                finish: 0,
                start,
                task_id: 0,
                lb_id: 0,
                origin_server_idx: 0,
                served_by_express: false,
                evicted_at: None,
                shed_at: None,
                service_started_at: None,
            }),
    {
        Task {
            duration,
            finish: 0,
            start,
            task_id: 0,
            lb_id: 0,
            origin_server_idx: 0,
            served_by_express: false,
            evicted_at: None,
            shed_at: None,
            service_started_at: None,
        }
    }
}

#[derive(Clone, Copy, Debug, PartialEq, Eq, Structural)]
pub enum QueueDelayEvictionMode {
    Monitored,
    ImmediateIdeal,
}

#[derive(Clone, Copy, Debug, PartialEq, Eq, Structural)]
pub enum ExpressEvictionPolicy {
    QueueDepth(u32),
    QueueDelay { threshold: u64, mode: QueueDelayEvictionMode },
    Combined { depth_threshold: u32, delay_threshold: u64 },
}

#[derive(Clone, Copy, Debug, PartialEq, Eq, Structural)]
pub struct InFlightService {
    pub started_at: u64,
    pub duration: u64,
}

#[derive(Clone, Copy, Debug, PartialEq, Eq, Structural)]
pub enum DispatchMode {
    Push,
    Centralized,
    Approx,
}

/// No service started after `now`.
pub open spec fn none_started_after(in_flight: Seq<InFlightService>, now: u64) -> bool {
    forall|i: int| 0 <= i < in_flight.len() ==> (#[trigger] in_flight[i]).started_at <= now
}

/// What is left of a service at `now`.
pub open spec fn left_of(service: InFlightService, now: u64) -> nat {
    let elapsed = now - service.started_at;
    if elapsed < service.duration {
        (service.duration - elapsed) as nat
    } else {
        0
    }
}

/// What is left of a service that started at `started_at` and takes `duration`.
pub fn remaining_service_time(started_at: u64, duration: u64, now: u64) -> (r: u64)
    requires
        started_at <= now,
    ensures
        r == left_of(InFlightService { started_at, duration }, now),
{
    let elapsed: u64 = now - started_at;
    duration.saturating_sub(elapsed)
}

/// How long the longest running service has been going on; 0 if there is none.
pub fn head_of_line_wait(in_flight: &[InFlightService], now: u64) -> (r: u64)
    requires
        none_started_after(in_flight@, now),
    ensures
        in_flight@.len() == 0 ==> r == 0,
        in_flight@.len() > 0 ==> exists|i: int|
            0 <= i < in_flight@.len() && r == now - (#[trigger] in_flight@[i]).started_at,
        forall|i: int|
            0 <= i < in_flight@.len() ==> now - (#[trigger] in_flight@[i]).started_at <= r,
{
    let mut longest: u64 = 0;
    let mut i: usize = 0;
    while i < in_flight.len()
        invariant
            i <= in_flight@.len(),
            none_started_after(in_flight@, now),
            i == 0 ==> longest == 0,
            i > 0 ==> exists|j: int|
                0 <= j < i && longest == now - (#[trigger] in_flight@[j]).started_at,
            forall|j: int| 0 <= j < i ==> now - (#[trigger] in_flight@[j]).started_at <= longest,
        decreases in_flight@.len() - i,
    {
        assert(in_flight@[i as int].started_at <= now);
        let waited: u64 = now - in_flight[i].started_at;
        if i == 0 || waited > longest {
            longest = waited;
        }
        i += 1;
    }
    longest
}

/// Some service has been going on for longer than `threshold`.
pub open spec fn overdue(in_flight: Seq<InFlightService>, now: u64, threshold: u64) -> bool {
    exists|i: int|
        0 <= i < in_flight.len() && now - (#[trigger] in_flight[i]).started_at > threshold
}

pub fn head_of_line_exceeds_threshold(
    in_flight: &[InFlightService],
    now: u64,
    threshold: u64,
) -> (r: bool)
    requires
        none_started_after(in_flight@, now),
    ensures
        r == overdue(in_flight@, now, threshold),
{
    in_flight.len() > 0 && head_of_line_wait(in_flight, now) > threshold
}

/// The service time that `queue` asks for together.
pub open spec fn queued_work(queue: Seq<Task>) -> nat
    decreases queue.len(),
{
    if queue.len() == 0 {
        0
    } else {
        queued_work(queue.drop_last()) + queue.last().duration as nat
    }
}

/// The time until the first of the running services ends; 0 if there is none.
pub open spec fn next_free(in_flight: Seq<InFlightService>, now: u64) -> nat
    decreases in_flight.len(),
{
    if in_flight.len() == 0 {
        0
    } else {
        let last = left_of(in_flight.last(), now);
        if in_flight.len() == 1 || last < next_free(in_flight.drop_last(), now) {
            last
        } else {
            next_free(in_flight.drop_last(), now)
        }
    }
}

/// How long a task at the end of the queue would wait at best.
pub open spec fn ideal_delay(
    queue: Seq<Task>,
    in_flight: Seq<InFlightService>,
    now: u64,
) -> nat {
    queued_work(queue) + next_free(in_flight, now)
}

/// How long a task at the end of the queue would wait at best: the work queued before it
/// and what is left of the service that ends first.
pub fn ideal_queue_delay_estimate(
    queue: &[Task],
    in_flight: &[InFlightService],
    now: u64,
) -> (r: u128)
    requires
        none_started_after(in_flight@, now),
    ensures
        r == ideal_delay(queue@, in_flight@, now),
{
    let mut work: u128 = 0;
    let n: usize = queue.len();
    let mut i: usize = 0;
    while i < n
        invariant
            i <= n == queue@.len(),
            work == queued_work(queue@.take(i as int)),
            work <= i * u64::MAX,
            queue@.len() <= u64::MAX,
        decreases queue@.len() - i,
    {
        proof {
            assert(queue@.take(i + 1).drop_last() =~= queue@.take(i as int));
            assert(i * u64::MAX + u64::MAX == (i + 1) * u64::MAX);
        }
        work = work + queue[i].duration as u128;
        i += 1;
    }
    assert(queue@.take(i as int) =~= queue@);
    let mut least: u64 = 0;
    let mut j: usize = 0;
    while j < in_flight.len()
        invariant
            j <= in_flight@.len(),
            none_started_after(in_flight@, now),
            least == next_free(in_flight@.take(j as int), now),
        decreases in_flight@.len() - j,
    {
        proof {
            assert(in_flight@.take(j + 1).drop_last() =~= in_flight@.take(j as int));
            assert(in_flight@[j as int].started_at <= now);
        }
        let left: u64 = remaining_service_time(
            in_flight[j].started_at,
            in_flight[j].duration,
            now,
        );
        if j == 0 || left < least {
            least = left;
        }
        j += 1;
    }
    proof {
        assert(in_flight@.take(j as int) =~= in_flight@);
        assert(queue@.len() * u64::MAX <= u64::MAX * u64::MAX) by (nonlinear_arith)
            requires
                queue@.len() <= u64::MAX,
        ;
    }
    work + least as u128
}

/// `start` is the arrival time of the task at `i`, and of none before it.
pub open spec fn first_with_start(queue: Seq<Task>, start: u64, i: int) -> bool {
    &&& 0 <= i < queue.len()
    &&& queue[i].start == start
    &&& forall|j: int| 0 <= j < i ==> (#[trigger] queue[j]).start != start
}

/// Some task arrived at `start`.
pub open spec fn has_start(queue: Seq<Task>, start: u64) -> bool {
    exists|i: int| first_with_start(queue, start, i)
}

/// The position of the first task that arrived at `start`.
pub open spec fn start_at(queue: Seq<Task>, start: u64) -> int {
    choose|i: int| first_with_start(queue, start, i)
}

/// Takes the task that arrived at `task_start` out of the queue.
pub fn remove_task_from_queue(queue: &mut Vec<Task>, task_start: u64) -> (r: Option<Task>)
    ensures
        match r {
            None => !has_start(old(queue)@, task_start) && final(queue)@ == old(queue)@ && (
            forall|i: int|
                0 <= i < old(queue)@.len() ==> (#[trigger] old(queue)@[i]).start != task_start),
            Some(task) => {
                let at = start_at(old(queue)@, task_start);
                &&& first_with_start(old(queue)@, task_start, at)
                &&& task == old(queue)@[at]
                &&& final(queue)@ == old(queue)@.remove(at)
            },
        },
{
    let mut i: usize = 0;
    while i < queue.len()
        invariant
            i <= queue@.len(),
            queue@ == old(queue)@,
            forall|j: int| 0 <= j < i ==> (#[trigger] queue@[j]).start != task_start,
        decreases queue@.len() - i,
    {
        if queue[i].start == task_start {
            proof {
                assert(first_with_start(queue@, task_start, i as int));
                let at = start_at(queue@, task_start);
                assert(first_with_start(queue@, task_start, at));
                assert(at == i);
            }
            return Some(queue.remove(i));
        }
        i += 1;
    }
    None
}

/// `starts` without its first occurrence of `start`.
pub open spec fn without_first(starts: Seq<u64>, start: u64) -> Seq<u64>
    decreases starts.len(),
{
    if starts.len() == 0 {
        starts
    } else if starts[0] == start {
        starts.remove(0)
    } else {
        seq![starts[0]] + without_first(starts.remove(0), start)
    }
}

/// `starts` without any occurrence of `start`.
pub open spec fn without_all(starts: Seq<u64>, start: u64) -> Seq<u64>
    decreases starts.len(),
{
    if starts.len() == 0 {
        starts
    } else {
        let before = without_all(starts.drop_last(), start);
        if starts.last() == start {
            before
        } else {
            before.push(starts.last())
        }
    }
}

proof fn lemma_without_first(starts: Seq<u64>, start: u64, at: int)
    requires
        0 <= at <= starts.len(),
        forall|j: int| 0 <= j < at ==> starts[j] != start,
        at < starts.len() ==> starts[at] == start,
    ensures
        without_first(starts, start) == if at < starts.len() {
            starts.remove(at)
        } else {
            starts
        },
    decreases starts.len(),
{
    if starts.len() > 0 && starts[0] != start {
        let rest = starts.remove(0);
        assert forall|j: int| 0 <= j < at - 1 implies rest[j] != start by {
            assert(rest[j] == starts[j + 1]);
        }
        lemma_without_first(rest, start, at - 1);
        if at < starts.len() {
            assert(seq![starts[0]] + rest.remove(at - 1) =~= starts.remove(at));
        } else {
            assert(seq![starts[0]] + rest =~= starts);
        }
    }
}

fn drop_first_start(starts: &mut Vec<u64>, start: u64) -> (found: bool)
    ensures
        found == old(starts)@.contains(start),
        final(starts)@ == without_first(old(starts)@, start),
{
    let mut i: usize = 0;
    while i < starts.len()
        invariant
            i <= starts@.len(),
            starts@ == old(starts)@,
            forall|j: int| 0 <= j < i ==> starts@[j] != start,
        decreases starts@.len() - i,
    {
        if starts[i] == start {
            proof {
                lemma_without_first(starts@, start, i as int);
                assert(starts@[i as int] == start);
            }
            starts.remove(i);
            return true;
        }
        i += 1;
    }
    proof {
        lemma_without_first(starts@, start, i as int);
    }
    false
}

fn drop_all_starts(starts: &mut Vec<u64>, start: u64)
    ensures
        final(starts)@ == without_all(old(starts)@, start),
{
    let mut kept: Vec<u64> = Vec::new();
    let mut i: usize = 0;
    while i < starts.len()
        invariant
            i <= starts@.len(),
            starts@ == old(starts)@,
            kept@ == without_all(starts@.take(i as int), start),
        decreases starts@.len() - i,
    {
        assert(starts@.take(i + 1).drop_last() =~= starts@.take(i as int));
        let s: u64 = starts[i];
        if s != start {
            kept.push(s);
        }
        i += 1;
    }
    assert(starts@.take(i as int) =~= starts@);
    *starts = kept;
}

/// `audit` after `event` was recorded, if there is an audit at all.
pub open spec fn recorded(
    before: Option<LbPullAudit>,
    after: Option<LbPullAudit>,
    event: LbPullEventKind,
) -> bool {
    match before {
        None => after is None,
        Some(trail) => after matches Some(longer) && longer@ == trail@.push(event),
    }
}

/// What a server is made of.
pub struct ServerState {
    pub server_idx: usize,
    pub max_concurrency: u32,
    pub in_flight: u32,
    pub pending_pulls: u32,
    pub dispatch_mode: DispatchMode,
    pub services: Seq<InFlightService>,
    pub queue: Seq<Task>,
    pub intents: Seq<PullIntent>,
    pub express_eviction: Option<ExpressEvictionPolicy>,
    pub work_shedding: Option<u64>,
    pub is_express: bool,
    pub express_lb_id: Option<usize>,
    pub pull_outputs: usize,
    pub pending_evictions: Seq<u64>,
    pub pending_sheds: Seq<u64>,
}

/// What a waiting time calls for.
#[derive(Clone, Copy, Debug, PartialEq, Eq, Structural)]
pub enum Pressure {
    /// The newest task may wait.
    Keep,
    /// The newest task goes at once.
    Now,
    /// The newest task goes if it still waits after this long.
    Watch(u64),
}

/// What becomes of the newest task of the queue.
#[derive(Clone, Copy, Debug, PartialEq, Eq, Structural)]
pub enum Overload {
    Keep,
    /// Send the task on; it has left the queue.
    Forward(Task),
    /// Set a timer of this length for the task that was queued.
    Watch(u64),
}

/// What becomes of a task that a server received.
#[derive(Clone, Copy, Debug, PartialEq, Eq, Structural)]
pub enum InputAction {
    /// Finish the task after its duration; cancel its timers if there were any.
    Serve(ServeAction),
    /// The task was queued.
    Queue { eviction: Overload, shedding: Overload },
}

/// A task whose service begins.
#[derive(Clone, Copy, Debug, PartialEq, Eq, Structural)]
pub struct ServeAction {
    pub task: Task,
    pub cancel_eviction: bool,
    pub cancel_shed: bool,
}

/// A pull to be sent to a balancer.
#[derive(Clone, Copy, Debug, PartialEq, Eq, Structural)]
pub struct PullDispatch {
    pub lb_id: usize,
    pub request: PullRequest,
}

/// What a server does once a task is finished.
#[derive(Clone, Copy, Debug, PartialEq, Eq, Structural)]
pub enum FollowUp {
    /// Ask the central queue for more.
    Pull(PullRequest),
    /// Answer the next pull intent, if there is one and room for it.
    Intent(Option<PullDispatch>),
    /// Take tasks from the own queue.
    Drain,
}

/// The answer to a probe, and the balancer it goes to.
#[derive(Clone, Copy, Debug, PartialEq, Eq, Structural)]
pub struct ProbeAnswer {
    pub lb_id: usize,
    pub reply: ProbeReply,
}

/// A balancer to tell that one of its servers is free again.
#[derive(Clone, Copy, Debug, PartialEq, Eq, Structural)]
pub struct Release {
    pub lb_id: usize,
    pub server_idx: usize,
}

/// A finished task, and what is to be sent because of it.
#[derive(Clone, Copy, Debug, PartialEq, Eq, Structural)]
pub struct Completion {
    pub task: Task,
    pub release: Release,
    /// For a task served by the express lane: the balancer it came from.
    pub origin_release: Option<Release>,
    pub follow_up: FollowUp,
}

impl ServerState {
    /// Whether the newest task is to leave for the express lane.
    pub open spec fn eviction_pressure(self, now: u64) -> Pressure {
        let delay = ideal_delay(self.queue, self.services, now);
        match self.express_eviction {
            None => Pressure::Keep,
            Some(ExpressEvictionPolicy::QueueDepth(th)) => if self.queue.len() > th {
                Pressure::Now
            } else {
                Pressure::Keep
            },
            Some(ExpressEvictionPolicy::QueueDelay { threshold, mode }) => if overdue(
                self.services,
                now,
                threshold,
            ) || (mode is ImmediateIdeal && delay > threshold) {
                Pressure::Now
            } else if mode is Monitored && delay > threshold {
                Pressure::Watch(threshold)
            } else {
                Pressure::Keep
            },
            Some(ExpressEvictionPolicy::Combined { depth_threshold, delay_threshold }) =>
                if self.queue.len() > depth_threshold || overdue(
                self.services,
                now,
                delay_threshold,
            ) {
                Pressure::Now
            } else if delay > delay_threshold {
                Pressure::Watch(delay_threshold)
            } else {
                Pressure::Keep
            },
        }
    }

    /// Whether the newest task is to go back to its balancer.
    pub open spec fn shed_pressure(self, now: u64) -> Pressure {
        match self.work_shedding {
            None => Pressure::Keep,
            Some(threshold) => if overdue(self.services, now, threshold) {
                Pressure::Now
            } else if ideal_delay(self.queue, self.services, now) > threshold {
                Pressure::Watch(threshold)
            } else {
                Pressure::Keep
            },
        }
    }

    /// The state once `task` is being served.
    pub open spec fn serving(self, task: Task, now: u64) -> ServerState {
        ServerState {
            in_flight: (self.in_flight + 1) as u32,
            services: self.services.push(
                InFlightService { started_at: now, duration: task.duration },
            ),
            pending_evictions: without_first(self.pending_evictions, task.start),
            pending_sheds: without_first(self.pending_sheds, task.start),
            ..self
        }
    }

    /// What beginning to serve `task` calls for.
    pub open spec fn serve_action(self, task: Task, now: u64) -> ServeAction {
        ServeAction {
            task: Task { service_started_at: Some(now), ..task },
            cancel_eviction: self.pending_evictions.contains(task.start),
            cancel_shed: self.pending_sheds.contains(task.start),
        }
    }

    /// The state without the newest task of the queue.
    pub open spec fn without_newest(self) -> ServerState {
        ServerState { queue: self.queue.drop_last(), ..self }
    }

    /// The state once `task` was queued.
    pub open spec fn with_queued(self, task: Task) -> ServerState {
        ServerState { queue: self.queue.push(task), ..self }
    }

    /// The state once the eviction rule was applied to the newest task.
    pub open spec fn after_eviction(self, now: u64) -> ServerState {
        if self.eviction_pressure(now) is Now {
            self.without_newest()
        } else {
            self
        }
    }

    /// The state once the shedding rule was applied to the newest task.
    pub open spec fn after_shedding(self, now: u64) -> ServerState {
        if self.shed_pressure(now) is Now {
            self.without_newest()
        } else {
            self
        }
    }

    /// What the eviction rule does to the newest task.
    pub open spec fn eviction_of_newest(self, now: u64) -> Overload {
        match self.eviction_pressure(now) {
            Pressure::Keep => Overload::Keep,
            Pressure::Now => Overload::Forward(
                Task { evicted_at: Some(now), ..self.queue.last() },
            ),
            Pressure::Watch(after) => Overload::Watch(after),
        }
    }

    /// What the shedding rule does to the newest task.
    pub open spec fn shedding_of_newest(self, now: u64) -> Overload {
        match self.shed_pressure(now) {
            Pressure::Keep => Overload::Keep,
            Pressure::Now => Overload::Forward(Task { shed_at: Some(now), ..self.queue.last() }),
            Pressure::Watch(after) => Overload::Watch(after),
        }
    }

    /// The pushed task is served rather than queued.
    pub open spec fn serves_at_once(self) -> bool {
        self.dispatch_mode !is Push || self.in_flight < self.max_concurrency
    }

    /// The state with one pull fewer on its way, in the mode that counts them.
    pub open spec fn pull_answered(self) -> ServerState {
        if self.dispatch_mode is Approx && self.pending_pulls > 0 {
            ServerState { pending_pulls: (self.pending_pulls - 1) as u32, ..self }
        } else {
            self
        }
    }

    /// The state once `task` was received.
    pub open spec fn received(self, task: Task, now: u64) -> ServerState {
        if self.serves_at_once() {
            self.pull_answered().serving(task, now)
        } else {
            self.with_queued(task).after_eviction(now).after_shedding(now)
        }
    }

    /// What receiving `task` calls for.
    pub open spec fn input_action(self, task: Task, now: u64) -> InputAction {
        if self.serves_at_once() {
            InputAction::Serve(self.serve_action(task, now))
        } else {
            let queued = self.with_queued(task);
            InputAction::Queue {
                eviction: queued.eviction_of_newest(now),
                shedding: queued.after_eviction(now).shedding_of_newest(now),
            }
        }
    }

    /// There is room for another pull.
    pub open spec fn has_room(self) -> bool {
        self.in_flight + self.pending_pulls < self.max_concurrency
    }

    /// The oldest intent is answered now.
    pub open spec fn answers_intent(self) -> bool {
        self.has_room() && self.intents.len() > 0
    }

    /// The oldest intent is answered with a pull; an intent from an unknown balancer is
    /// dropped.
    pub open spec fn pulls_for_intent(self) -> bool {
        self.answers_intent() && self.intents[0].sender_id < self.pull_outputs
    }

    /// The state once the oldest intent was answered, if there was room for it.
    pub open spec fn intent_drained(self) -> ServerState {
        if self.pulls_for_intent() {
            ServerState {
                intents: self.intents.remove(0),
                pending_pulls: (self.pending_pulls + 1) as u32,
                ..self
            }
        } else if self.answers_intent() {
            ServerState { intents: self.intents.remove(0), ..self }
        } else {
            self
        }
    }

    /// The pull that answers the oldest intent.
    pub open spec fn intent_pull(self) -> Option<PullDispatch> {
        if self.pulls_for_intent() {
            Some(
                PullDispatch {
                    lb_id: self.intents[0].sender_id,
                    request: PullRequest {
                        server_idx: self.server_idx,
                        request_id: Some(self.intents[0].request_id),
                    },
                },
            )
        } else {
            None
        }
    }

    /// The trace event of answering the oldest intent.
    pub open spec fn drain_event(self) -> LbPullEventKind {
        LbPullEventKind::IntentDrained {
            server_idx: self.server_idx,
            sender_lb_id: self.intents[0].sender_id,
            intent_request_id: self.intents[0].request_id,
            queue_len_before: self.intents.len() as usize,
            pending_pulls_before: self.pending_pulls,
            in_flight_before: self.in_flight,
            max_concurrency: self.max_concurrency,
        }
    }

    /// The state with `intent` queued.
    pub open spec fn with_intent(self, intent: PullIntent) -> ServerState {
        ServerState { intents: self.intents.push(intent), ..self }
    }

    /// The state without the service that began at `started_at`, if one did.
    pub open spec fn service_ended(self, started_at: Option<u64>) -> ServerState {
        match started_at {
            Some(t) if exists|i: int| first_begun(self.services, t, i) => ServerState {
                services: self.services.remove(
                    choose|i: int| first_begun(self.services, t, i),
                ),
                ..self
            },
            _ => self,
        }
    }

    /// The state once `task` is finished, before the server looks for more work.
    pub open spec fn finished(self, task: Task) -> ServerState {
        let ended = self.service_ended(task.service_started_at);
        ServerState { in_flight: (ended.in_flight - 1) as u32, ..ended }
    }

    /// The state once `task` is finished and the server has answered the next intent, where
    /// it answers intents.
    pub open spec fn completed(self, task: Task) -> ServerState {
        if self.dispatch_mode is Approx {
            self.finished(task).intent_drained()
        } else {
            self.finished(task)
        }
    }

    /// What finishing `task` at `now` calls for.
    pub open spec fn completion(self, task: Task, now: u64) -> Completion {
        Completion {
            task: Task { finish: now, served_by_express: self.is_express, ..task },
            release: Release {
                lb_id: if self.is_express {
                    self.express_lb_id->0
                } else {
                    task.lb_id
                },
                server_idx: self.server_idx,
            },
            origin_release: if self.is_express {
                Some(Release { lb_id: task.lb_id, server_idx: task.origin_server_idx })
            } else {
                None
            },
            follow_up: match self.dispatch_mode {
                DispatchMode::Centralized => FollowUp::Pull(self.central_pull()),
                DispatchMode::Approx => FollowUp::Intent(self.finished(task).intent_pull()),
                DispatchMode::Push => FollowUp::Drain,
            },
        }
    }

    /// A queued task can be served.
    pub open spec fn can_drain(self) -> bool {
        self.in_flight < self.max_concurrency && self.queue.len() > 0
    }

    /// The state once the next queued task is being served, if one can be.
    pub open spec fn drained(self, now: u64) -> ServerState {
        if self.can_drain() {
            (ServerState { queue: self.queue.remove(0), ..self }).serving(self.queue[0], now)
        } else {
            self
        }
    }

    /// What beginning to serve the next queued task calls for.
    pub open spec fn drain_action(self, now: u64) -> Option<ServeAction> {
        if self.can_drain() {
            Some(self.serve_action(self.queue[0], now))
        } else {
            None
        }
    }

    /// The pull with which an idle slot is offered to the central queue.
    pub open spec fn offered_pull(self) -> Option<PullRequest> {
        if self.dispatch_mode is Centralized && self.in_flight < self.max_concurrency {
            Some(self.central_pull())
        } else {
            None
        }
    }

    /// The answer to a probe.
    pub open spec fn probe_answer(self, probe: Probe) -> ProbeAnswer {
        ProbeAnswer {
            lb_id: probe.sender_id,
            reply: ProbeReply {
                server_idx: self.server_idx,
                rif: (self.queue.len() + self.in_flight) as u32,
            },
        }
    }

    /// The request for another task from the central queue.
    pub open spec fn central_pull(self) -> PullRequest {
        PullRequest { server_idx: self.server_idx, request_id: None }
    }
}

/// The first service that began at `t` is at `i`.
pub open spec fn first_begun(services: Seq<InFlightService>, t: u64, i: int) -> bool {
    &&& 0 <= i < services.len()
    &&& services[i].started_at == t
    &&& forall|j: int| 0 <= j < i ==> (#[trigger] services[j]).started_at != t
}

pub struct Server {
    server_idx: usize,
    max_concurrency: u32,
    in_flight: u32,
    pending_pulls: u32,
    dispatch_mode: DispatchMode,
    in_flight_services: Vec<InFlightService>,
    queue: Vec<Task>,
    pull_intent_queue: VecDeque<PullIntent>,
    express_eviction: Option<ExpressEvictionPolicy>,
    work_shedding: Option<u64>,
    is_express: bool,
    express_lb_id: Option<usize>,
    pull_outputs: usize,
    pending_evictions: Vec<u64>,
    pending_sheds: Vec<u64>,
}

impl View for Server {
    type V = ServerState;

    closed spec fn view(&self) -> ServerState {
        ServerState {
            server_idx: self.server_idx,
            max_concurrency: self.max_concurrency,
            in_flight: self.in_flight,
            pending_pulls: self.pending_pulls,
            dispatch_mode: self.dispatch_mode,
            services: self.in_flight_services@,
            queue: self.queue@,
            intents: self.pull_intent_queue@,
            express_eviction: self.express_eviction,
            work_shedding: self.work_shedding,
            is_express: self.is_express,
            express_lb_id: self.express_lb_id,
            pull_outputs: self.pull_outputs,
            pending_evictions: self.pending_evictions@,
            pending_sheds: self.pending_sheds@,
        }
    }
}

impl Server {
    pub fn new(
        max_concurrency: u32,
        server_idx: usize,
        express_eviction: Option<ExpressEvictionPolicy>,
        work_shedding: Option<u64>,
        is_express: bool,
        express_lb_id: Option<usize>,
        dispatch_mode: DispatchMode,
    ) -> (r: Self)
        ensures
            r@ == (ServerState {
                server_idx,
                max_concurrency: if max_concurrency == 0 {
                    1
                } else {
                    max_concurrency
                },
                in_flight: 0,
                pending_pulls: 0,
                dispatch_mode,
                services: Seq::empty(),
                queue: Seq::empty(),
                intents: Seq::empty(),
                express_eviction,
                work_shedding,
                is_express,
                express_lb_id,
                pull_outputs: 0,
                pending_evictions: Seq::empty(),
                pending_sheds: Seq::empty(),
            }),
    {
        Server {
            server_idx,
            max_concurrency: if max_concurrency == 0 {
                1
            } else {
                max_concurrency
            },
            in_flight: 0,
            pending_pulls: 0,
            dispatch_mode,
            in_flight_services: Vec::new(),
            queue: Vec::new(),
            pull_intent_queue: VecDeque::new(),
            express_eviction,
            work_shedding,
            is_express,
            express_lb_id,
            pull_outputs: 0,
            pending_evictions: Vec::new(),
            pending_sheds: Vec::new(),
        }
    }

    /// Sets how many balancers the server can send pulls to.
    pub fn set_pull_outputs(&mut self, pull_outputs: usize)
        ensures
            final(self)@ == (ServerState { pull_outputs, ..old(self)@ }),
    {
        self.pull_outputs = pull_outputs;
    }

    fn eviction_pressure(&self, now: u64) -> (r: Pressure)
        requires
            none_started_after(self@.services, now),
        ensures
            r == self@.eviction_pressure(now),
    {
        match self.express_eviction {
            None => Pressure::Keep,
            Some(ExpressEvictionPolicy::QueueDepth(th)) => {
                if self.queue.len() > th as usize {
                    Pressure::Now
                } else {
                    Pressure::Keep
                }
            },
            Some(ExpressEvictionPolicy::QueueDelay { threshold, mode }) => {
                if head_of_line_exceeds_threshold(&self.in_flight_services, now, threshold) {
                    return Pressure::Now;
                }
                if ideal_queue_delay_estimate(&self.queue, &self.in_flight_services, now)
                    > threshold as u128 {
                    match mode {
                        QueueDelayEvictionMode::ImmediateIdeal => Pressure::Now,
                        QueueDelayEvictionMode::Monitored => Pressure::Watch(threshold),
                    }
                } else {
                    Pressure::Keep
                }
            },
            Some(ExpressEvictionPolicy::Combined { depth_threshold, delay_threshold }) => {
                if self.queue.len() > depth_threshold as usize {
                    return Pressure::Now;
                }
                if head_of_line_exceeds_threshold(&self.in_flight_services, now, delay_threshold) {
                    return Pressure::Now;
                }
                if ideal_queue_delay_estimate(&self.queue, &self.in_flight_services, now)
                    > delay_threshold as u128 {
                    Pressure::Watch(delay_threshold)
                } else {
                    Pressure::Keep
                }
            },
        }
    }

    fn shed_pressure(&self, now: u64) -> (r: Pressure)
        requires
            none_started_after(self@.services, now),
        ensures
            r == self@.shed_pressure(now),
    {
        match self.work_shedding {
            None => Pressure::Keep,
            Some(threshold) => {
                if head_of_line_exceeds_threshold(&self.in_flight_services, now, threshold) {
                    return Pressure::Now;
                }
                if ideal_queue_delay_estimate(&self.queue, &self.in_flight_services, now)
                    > threshold as u128 {
                    Pressure::Watch(threshold)
                } else {
                    Pressure::Keep
                }
            },
        }
    }

    fn pop_newest(&mut self) -> (r: Task)
        requires
            old(self)@.queue.len() > 0,
        ensures
            r == old(self)@.queue.last(),
            final(self)@ == old(self)@.without_newest(),
    {
        match self.queue.pop() {
            Some(task) => task,
            None => {
                assert(false);
                Task::new(0, 0)
            },
        }
    }

    fn apply_enqueue_eviction(&mut self, now: u64) -> (r: Overload)
        requires
            none_started_after(old(self)@.services, now),
            old(self)@.queue.len() > 0,
        ensures
            r == old(self)@.eviction_of_newest(now),
            final(self)@ == old(self)@.after_eviction(now),
    {
        match self.eviction_pressure(now) {
            Pressure::Keep => Overload::Keep,
            Pressure::Now => {
                let newest = self.pop_newest();
                Overload::Forward(Task { evicted_at: Some(now), ..newest })
            },
            Pressure::Watch(after) => Overload::Watch(after),
        }
    }

    fn apply_work_shedding_on_enqueue(&mut self, now: u64) -> (r: Overload)
        requires
            none_started_after(old(self)@.services, now),
            old(self)@.shed_pressure(now) is Now ==> old(self)@.queue.len() > 0,
        ensures
            r == old(self)@.shedding_of_newest(now),
            final(self)@ == old(self)@.after_shedding(now),
    {
        match self.shed_pressure(now) {
            Pressure::Keep => Overload::Keep,
            Pressure::Now => {
                let newest = self.pop_newest();
                Overload::Forward(Task { shed_at: Some(now), ..newest })
            },
            Pressure::Watch(after) => Overload::Watch(after),
        }
    }

    fn begin_service(&mut self, task: Task, now: u64) -> (r: ServeAction)
        requires
            old(self)@.in_flight < u32::MAX,
        ensures
            r == old(self)@.serve_action(task, now),
            final(self)@ == old(self)@.serving(task, now),
    {
        let cancel_eviction = drop_first_start(&mut self.pending_evictions, task.start);
        let cancel_shed = drop_first_start(&mut self.pending_sheds, task.start);
        self.in_flight_services.push(
            InFlightService { started_at: now, duration: task.duration },
        );
        self.in_flight = self.in_flight + 1;
        ServeAction {
            task: Task { service_started_at: Some(now), ..task },
            cancel_eviction,
            cancel_shed,
        }
    }

    /// Takes back the service that began last, when its end could not be scheduled.
    pub fn service_not_scheduled(&mut self)
        requires
            old(self)@.in_flight > 0,
            old(self)@.services.len() > 0,
        ensures
            final(self)@ == (ServerState {
                in_flight: (old(self)@.in_flight - 1) as u32,
                services: old(self)@.services.drop_last(),
                ..old(self)@
            }),
    {
        self.in_flight_services.pop();
        self.in_flight = self.in_flight - 1;
    }

    /// Receives a task: begins to serve it, or queues it and decides whether the newest
    /// task is evicted to the express lane, shed back to its balancer, or watched.
    pub fn input(&mut self, task: Task, now: u64) -> (r: InputAction)
        requires
            none_started_after(old(self)@.services, now),
            old(self)@.in_flight < u32::MAX,
            !old(self)@.serves_at_once() ==> {
                let evicted = old(self)@.with_queued(task).after_eviction(now);
                evicted.shed_pressure(now) is Now ==> evicted.queue.len() > 0
            },
        ensures
            r == old(self)@.input_action(task, now),
            final(self)@ == old(self)@.received(task, now),
    {
        match self.dispatch_mode {
            DispatchMode::Approx => {
                self.pending_pulls = self.pending_pulls.saturating_sub(1);
                InputAction::Serve(self.begin_service(task, now))
            },
            DispatchMode::Centralized => InputAction::Serve(self.begin_service(task, now)),
            DispatchMode::Push => {
                if self.in_flight < self.max_concurrency {
                    InputAction::Serve(self.begin_service(task, now))
                } else {
                    self.queue.push(task);
                    assert(self@ == old(self)@.with_queued(task));
                    let eviction = self.apply_enqueue_eviction(now);
                    let shedding = self.apply_work_shedding_on_enqueue(now);
                    InputAction::Queue { eviction, shedding }
                }
            },
        }
    }

    /// Notes that a timer now watches the task that arrived at `task_start`, and evicts
    /// it if it still waits when the timer goes off.
    pub fn eviction_scheduled(&mut self, task_start: u64)
        ensures
            final(self)@ == (ServerState {
                pending_evictions: old(self)@.pending_evictions.push(task_start),
                ..old(self)@
            }),
    {
        self.pending_evictions.push(task_start);
    }

    /// Notes that a timer now watches the task that arrived at `task_start`, and sheds
    /// it if it still waits when the timer goes off.
    pub fn shed_scheduled(&mut self, task_start: u64)
        ensures
            final(self)@ == (ServerState {
                pending_sheds: old(self)@.pending_sheds.push(task_start),
                ..old(self)@
            }),
    {
        self.pending_sheds.push(task_start);
    }

    /// The eviction timer of the task that arrived at `task_start` went off: the task
    /// leaves the queue, if it still waits.
    pub fn evict_task(&mut self, task_start: u64, now: u64) -> (r: Option<Task>)
        ensures
            final(self)@.pending_evictions == without_all(
                old(self)@.pending_evictions,
                task_start,
            ),
            r is Some <==> has_start(old(self)@.queue, task_start),
            final(self)@ == (ServerState {
                pending_evictions: final(self)@.pending_evictions,
                queue: if r is Some {
                    old(self)@.queue.remove(start_at(old(self)@.queue, task_start))
                } else {
                    old(self)@.queue
                },
                ..old(self)@
            }),
            r matches Some(task) ==> task == (Task {
                evicted_at: Some(now),
                ..old(self)@.queue[start_at(old(self)@.queue, task_start)]
            }),
    {
        drop_all_starts(&mut self.pending_evictions, task_start);
        match remove_task_from_queue(&mut self.queue, task_start) {
            Some(task) => Some(Task { evicted_at: Some(now), ..task }),
            None => None,
        }
    }

    /// The shedding timer of the task that arrived at `task_start` went off: the task
    /// leaves the queue, if it still waits.
    pub fn shed_task(&mut self, task_start: u64, now: u64) -> (r: Option<Task>)
        ensures
            final(self)@.pending_sheds == without_all(old(self)@.pending_sheds, task_start),
            r is Some <==> has_start(old(self)@.queue, task_start),
            final(self)@ == (ServerState {
                pending_sheds: final(self)@.pending_sheds,
                queue: if r is Some {
                    old(self)@.queue.remove(start_at(old(self)@.queue, task_start))
                } else {
                    old(self)@.queue
                },
                ..old(self)@
            }),
            r matches Some(task) ==> task == (Task {
                shed_at: Some(now),
                ..old(self)@.queue[start_at(old(self)@.queue, task_start)]
            }),
    {
        drop_all_starts(&mut self.pending_sheds, task_start);
        match remove_task_from_queue(&mut self.queue, task_start) {
            Some(task) => Some(Task { shed_at: Some(now), ..task }),
            None => None,
        }
    }

    /// Begins to serve the oldest queued task, if there is one and a free slot for it.
    pub fn drain_queue(&mut self, now: u64) -> (r: Option<ServeAction>)
        ensures
            r == old(self)@.drain_action(now),
            final(self)@ == old(self)@.drained(now),
    {
        if self.in_flight < self.max_concurrency && self.queue.len() > 0 {
            let next = self.queue.remove(0);
            Some(self.begin_service(next, now))
        } else {
            None
        }
    }

    fn drain_pull_intents(&mut self, audit: &mut Option<LbPullAudit>) -> (r: Option<PullDispatch>)
        ensures
            r == old(self)@.intent_pull(),
            final(self)@ == old(self)@.intent_drained(),
            old(self)@.answers_intent() ==> recorded(
                *old(audit),
                *final(audit),
                old(self)@.drain_event(),
            ),
            !old(self)@.answers_intent() ==> *final(audit) == *old(audit),
    {
        if self.in_flight as u64 + self.pending_pulls as u64 >= self.max_concurrency as u64 {
            return None;
        }
        if self.pull_intent_queue.len() == 0 {
            return None;
        }
        let queue_len_before: usize = self.pull_intent_queue.len();
        let intent = take_front(&mut self.pull_intent_queue);
        if let Some(trail) = audit {
            trail.record_intent_drained(
                self.server_idx,
                intent.sender_id,
                intent.request_id,
                queue_len_before,
                self.pending_pulls,
                self.in_flight,
                self.max_concurrency,
            );
        }
        if intent.sender_id < self.pull_outputs {
            self.pending_pulls = self.pending_pulls + 1;
            Some(
                PullDispatch {
                    lb_id: intent.sender_id,
                    request: PullRequest {
                        server_idx: self.server_idx,
                        request_id: Some(intent.request_id),
                    },
                },
            )
        } else {
            None
        }
    }

    /// Receives a pull intent: queues it and answers the oldest one, if there is room.
    pub fn receive_pull_intent(
        &mut self,
        intent: PullIntent,
        audit: &mut Option<LbPullAudit>,
    ) -> (r: Option<PullDispatch>)
        ensures
            old(self)@.dispatch_mode !is Approx ==> {
                &&& r is None
                &&& final(self)@ == old(self)@
                &&& *final(audit) == *old(audit)
            },
            old(self)@.dispatch_mode is Approx ==> {
                let queued = old(self)@.with_intent(intent);
                &&& r == queued.intent_pull()
                &&& final(self)@ == queued.intent_drained()
                &&& trail_of_intent(old(self)@, intent, *old(audit), *final(audit))
            },
    {
        match self.dispatch_mode {
            DispatchMode::Approx => {
                let queue_len_before: usize = self.pull_intent_queue.len();
                if let Some(trail) = audit {
                    trail.record_intent_queued(
                        self.server_idx,
                        intent.sender_id,
                        intent.request_id,
                        queue_len_before,
                    );
                }
                self.pull_intent_queue.push_back(intent);
                assert(self@ == old(self)@.with_intent(intent));
                self.drain_pull_intents(audit)
            },
            _ => None,
        }
    }

    /// The pull with which an idle slot is offered to the central queue.
    pub fn request_pull(&self) -> (r: Option<PullRequest>)
        ensures
            r == self@.offered_pull(),
    {
        match self.dispatch_mode {
            DispatchMode::Centralized => {
                if self.in_flight < self.max_concurrency {
                    Some(PullRequest { server_idx: self.server_idx, request_id: None })
                } else {
                    None
                }
            },
            _ => None,
        }
    }

    /// The answer to the probe of a balancer: how many tasks are queued or in service.
    pub fn receive_probe(&self, probe: Probe) -> (r: ProbeAnswer)
        requires
            self@.queue.len() + self@.in_flight <= u32::MAX,
        ensures
            r == self@.probe_answer(probe),
    {
        let rif: u32 = self.queue.len() as u32 + self.in_flight;
        ProbeAnswer {
            lb_id: probe.sender_id,
            reply: ProbeReply { server_idx: self.server_idx, rif },
        }
    }

    fn remove_in_flight(&mut self, service_started_at: u64)
        ensures
            final(self)@ == old(self)@.service_ended(Some(service_started_at)),
    {
        let mut i: usize = 0;
        while i < self.in_flight_services.len()
            invariant
                i <= self.in_flight_services@.len(),
                self@ == old(self)@,
                forall|j: int|
                    0 <= j < i ==> (#[trigger] self.in_flight_services@[j]).started_at
                        != service_started_at,
            decreases self.in_flight_services@.len() - i,
        {
            if self.in_flight_services[i].started_at == service_started_at {
                proof {
                    let services = self.in_flight_services@;
                    assert(first_begun(services, service_started_at, i as int));
                    let at = choose|j: int| first_begun(services, service_started_at, j);
                    assert(first_begun(services, service_started_at, at));
                    assert(at == i);
                }
                self.in_flight_services.remove(i);
                return;
            }
            i += 1;
        }
    }

    /// Finishes a task: stamps it, frees its slot, says which balancers to tell, and what
    /// the server does next.
    pub fn complete(&mut self, task: Task, now: u64, audit: &mut Option<LbPullAudit>) -> (r:
        Completion)
        requires
            old(self)@.in_flight > 0,
            old(self)@.is_express ==> old(self)@.express_lb_id is Some,
        ensures
            r == old(self)@.completion(task, now),
            final(self)@ == old(self)@.completed(task),
            match old(self)@.dispatch_mode {
                DispatchMode::Centralized => *final(audit) == *old(audit),
                DispatchMode::Approx => {
                    let free = old(self)@.finished(task);
                    &&& free.answers_intent() ==> recorded(
                        *old(audit),
                        *final(audit),
                        free.drain_event(),
                    )
                    &&& !free.answers_intent() ==> *final(audit) == *old(audit)
                },
                DispatchMode::Push => *final(audit) == *old(audit),
            },
    {
        let done = Task { finish: now, served_by_express: self.is_express, ..task };
        if let Some(started_at) = task.service_started_at {
            self.remove_in_flight(started_at);
        }
        let mut release = Release { lb_id: task.lb_id, server_idx: self.server_idx };
        let mut origin_release: Option<Release> = None;
        if self.is_express {
            match self.express_lb_id {
                Some(express_lb_id) => {
                    release = Release { lb_id: express_lb_id, server_idx: self.server_idx };
                },
                None => {
                    assert(false);
                },
            }
            origin_release = Some(
                Release { lb_id: task.lb_id, server_idx: task.origin_server_idx },
            );
        }
        self.in_flight = self.in_flight - 1;
        assert(self@ == old(self)@.finished(task));
        let follow_up = match self.dispatch_mode {
            DispatchMode::Centralized => FollowUp::Pull(
                PullRequest { server_idx: self.server_idx, request_id: None },
            ),
            DispatchMode::Approx => FollowUp::Intent(self.drain_pull_intents(audit)),
            DispatchMode::Push => FollowUp::Drain,
        };
        Completion { task: done, release, origin_release, follow_up }
    }
}

/// The trace of receiving `intent`: it was queued, and the oldest one was drained if
/// there was room.
pub open spec fn trail_of_intent(
    state: ServerState,
    intent: PullIntent,
    before: Option<LbPullAudit>,
    after: Option<LbPullAudit>,
) -> bool {
    let queued_event = LbPullEventKind::IntentQueued {
        server_idx: state.server_idx,
        sender_lb_id: intent.sender_id,
        request_id: intent.request_id,
        queue_len_before: state.intents.len() as usize,
    };
    let queued = state.with_intent(intent);
    match before {
        None => after is None,
        Some(trail) => after matches Some(longer) && longer@ == if queued.answers_intent() {
            trail@.push(queued_event).push(queued.drain_event())
        } else {
            trail@.push(queued_event)
        },
    }
}

impl ServerState {
    /// Never more work at once than the server has slots, counting the pulls that are
    /// still on their way where the server pulls.
    pub open spec fn within_capacity(self) -> bool {
        match self.dispatch_mode {
            DispatchMode::Push => self.in_flight <= self.max_concurrency,
            DispatchMode::Approx => self.in_flight + self.pending_pulls <= self.max_concurrency,
            DispatchMode::Centralized => true,
        }
    }

    /// Every busy slot stands for one running service.
    pub open spec fn slots_match_services(self) -> bool {
        self.in_flight == self.services.len()
    }
}

/// A server never takes on more than it has slots for: receiving a task keeps within
/// capacity, as long as a pulled task answers a pull that was sent.
pub proof fn law_receiving_keeps_capacity(state: ServerState, task: Task, now: u64)
    requires
        state.within_capacity(),
        state.in_flight < u32::MAX,
        state.dispatch_mode is Approx ==> state.pending_pulls > 0,
    ensures
        state.received(task, now).within_capacity(),
{
}

/// Answering pull intents and finishing tasks keep a server within capacity.
pub proof fn law_draining_keeps_capacity(state: ServerState, task: Task)
    requires
        state.within_capacity(),
    ensures
        state.dispatch_mode is Approx ==> state.intent_drained().within_capacity(),
        state.in_flight > 0 ==> state.finished(task).within_capacity(),
{
}

/// A received task is never lost: it is being served, or it is in the queue together
/// with the tasks that waited before it, save for those that were sent on.
pub proof fn law_received_task_is_kept(state: ServerState, task: Task, now: u64)
    requires
        state.dispatch_mode is Push,
        state.in_flight < u32::MAX,
        !state.serves_at_once() ==> {
            let evicted = state.with_queued(task).after_eviction(now);
            evicted.shed_pressure(now) is Now ==> evicted.queue.len() > 0
        },
    ensures
        match state.input_action(task, now) {
            InputAction::Serve(action) => {
                &&& action.task == (Task { service_started_at: Some(now), ..task })
                &&& state.received(task, now).queue == state.queue
                &&& state.received(task, now).in_flight == state.in_flight + 1
            },
            InputAction::Queue { eviction, shedding } => {
                let sent = (if eviction is Forward {
                    1int
                } else {
                    0
                }) + if shedding is Forward {
                    1int
                } else {
                    0
                };
                let all = state.queue.push(task);
                &&& state.received(task, now).queue == all.take(all.len() - sent)
                &&& state.received(task, now).in_flight == state.in_flight
            },
        },
{
    let all = state.queue.push(task);
    if !state.serves_at_once() {
        let queued = state.with_queued(task);
        let evicted = queued.after_eviction(now);
        let shed = evicted.after_shedding(now);
        assert(all.drop_last() =~= all.take(all.len() - 1));
        if queued.eviction_pressure(now) is Now {
            if evicted.shed_pressure(now) is Now {
                assert(all.drop_last().drop_last() =~= all.take(all.len() - 2));
            }
        } else if evicted.shed_pressure(now) is Now {
        } else {
            assert(all =~= all.take(all.len() as int));
        }
    }
}

/// Beginning and ending services keeps the busy slots in step with the running services,
/// as long as a finished task is one whose service began here.
pub proof fn law_slots_follow_services(state: ServerState, task: Task, now: u64)
    requires
        state.slots_match_services(),
    ensures
        state.in_flight < u32::MAX ==> state.serving(task, now).slots_match_services(),
        (task.service_started_at matches Some(t) && exists|i: int|
            first_begun(state.services, t, i)) ==> state.finished(task).slots_match_services(),
{
    if let Some(t) = task.service_started_at {
        if exists|i: int| first_begun(state.services, t, i) {
            let at = choose|i: int| first_begun(state.services, t, i);
            assert(first_begun(state.services, t, at));
            assert(state.services.remove(at).len() == state.services.len() - 1);
        }
    }
}

/// Intents as a trace shows them: sender and request.
pub open spec fn pairs_of(intents: Seq<PullIntent>) -> Seq<(usize, u64)> {
    intents.map_values(|intent: PullIntent| (intent.sender_id, intent.request_id))
}

/// What a server records replays without fault: queueing and draining intents keep the
/// replayed queue equal to the queue itself, in order, and never happen beyond capacity.
pub proof fn law_intent_trail_replays(
    state: ServerState,
    trail: Seq<LbPullEventKind>,
    intent: PullIntent,
)
    requires
        state.intents.len() <= usize::MAX,
        intent_queue(trail, state.server_idx) == pairs_of(state.intents),
    ensures
        ({
            let longer = trail.push(
                LbPullEventKind::IntentQueued {
                    server_idx: state.server_idx,
                    sender_lb_id: intent.sender_id,
                    request_id: intent.request_id,
                    queue_len_before: state.intents.len() as usize,
                },
            );
            &&& event_fault(longer, trail.len() as int) is None
            &&& intent_queue(longer, state.server_idx) == pairs_of(
                state.with_intent(intent).intents,
            )
        }),
        state.answers_intent() ==> {
            let longer = trail.push(state.drain_event());
            &&& event_fault(longer, trail.len() as int) is None
            &&& intent_queue(longer, state.server_idx) == pairs_of(state.intent_drained().intents)
        },
{
    let queued = trail.push(
        LbPullEventKind::IntentQueued {
            server_idx: state.server_idx,
            sender_lb_id: intent.sender_id,
            request_id: intent.request_id,
            queue_len_before: state.intents.len() as usize,
        },
    );
    assert(queued.drop_last() =~= trail);
    assert(queued.take(trail.len() as int) =~= trail);
    assert(intent_queue(queued, state.server_idx) =~= pairs_of(state.with_intent(intent).intents));
    if state.answers_intent() {
        let drained = trail.push(state.drain_event());
        assert(drained.drop_last() =~= trail);
        assert(drained.take(trail.len() as int) =~= trail);
        assert(pairs_of(state.intents)[0] == (
            state.intents[0].sender_id,
            state.intents[0].request_id,
        ));
        assert(intent_queue(drained, state.server_idx) =~= pairs_of(
            state.intent_drained().intents,
        ));
    }
}

/// A server with a free slot serves a pushed task at once, and one that pulls serves whatever
/// it is sent: the task starts now, and nothing that waits is touched.
pub proof fn law_free_slot_serves_at_once(state: ServerState, task: Task, now: u64)
    requires
        state.dispatch_mode != DispatchMode::Push || state.in_flight < state.max_concurrency,
        state.in_flight < u32::MAX,
    ensures
        state.input_action(task, now) matches InputAction::Serve(action) && {
            &&& action.task == (Task { service_started_at: Some(now), ..task })
            &&& action.cancel_eviction <==> state.pending_evictions.contains(task.start)
            &&& action.cancel_shed <==> state.pending_sheds.contains(task.start)
        },
        state.received(task, now).in_flight == state.in_flight + 1,
        state.received(task, now).queue == state.queue,
        state.received(task, now).intents == state.intents,
        state.received(task, now).services.len() == state.services.len() + 1,
        state.received(task, now).services.last().started_at == now,
        state.received(task, now).services.last().duration == task.duration,
        forall|i: int|
            0 <= i < state.services.len() ==> state.received(task, now).services[i]
                == #[trigger] state.services[i],
        state.dispatch_mode == DispatchMode::Approx && state.pending_pulls > 0
            ==> state.received(task, now).pending_pulls == state.pending_pulls - 1,
        state.dispatch_mode != DispatchMode::Approx || state.pending_pulls == 0
            ==> state.received(task, now).pending_pulls == state.pending_pulls,
{
}

/// A busy server that neither evicts nor sheds queues a pushed task behind all others, and
/// keeps it.
pub proof fn law_busy_server_queues_in_order(state: ServerState, task: Task, now: u64)
    requires
        state.dispatch_mode == DispatchMode::Push,
        state.in_flight >= state.max_concurrency,
        state.express_eviction is None,
        state.work_shedding is None,
    ensures
        state.input_action(task, now) == (InputAction::Queue {
            eviction: Overload::Keep,
            shedding: Overload::Keep,
        }),
        state.received(task, now).in_flight == state.in_flight,
        state.received(task, now).services == state.services,
        state.received(task, now).queue.len() == state.queue.len() + 1,
        state.received(task, now).queue.last() == task,
        forall|i: int|
            0 <= i < state.queue.len() ==> state.received(task, now).queue[i]
                == #[trigger] state.queue[i],
{
}

/// Queued tasks are served first come, first served: with a free slot the one that has waited
/// longest starts, the others move up in their order, and without a free slot none does.
pub proof fn law_longest_waiting_task_is_served_next(state: ServerState, now: u64)
    ensures
        state.queue.len() > 0 && state.in_flight < state.max_concurrency ==> {
            let after = state.drained(now);
            &&& state.drain_action(now) matches Some(action) && action.task == (Task {
                service_started_at: Some(now),
                ..state.queue[0]
            })
            &&& after.in_flight == state.in_flight + 1
            &&& after.queue.len() == state.queue.len() - 1
            &&& forall|i: int| 0 <= i < after.queue.len() ==> #[trigger] after.queue[i] == state.queue[i + 1]
            &&& after.services.len() == state.services.len() + 1
            &&& after.services.last().started_at == now
            &&& after.services.last().duration == state.queue[0].duration
        },
        state.queue.len() == 0 || state.in_flight >= state.max_concurrency ==> state.drain_action(
            now,
        ) is None && state.drained(now) == state,
{
}

/// With a depth threshold, a task that reaches a busy server goes to the express lane exactly
/// where more tasks than the threshold would wait, and is stamped; otherwise it stays, as the
/// last of the queue. No task that waited before is ever sent on.
pub proof fn law_depth_threshold_decides_overflow(state: ServerState, task: Task, now: u64, th: u32)
    requires
        state.dispatch_mode == DispatchMode::Push,
        state.in_flight >= state.max_concurrency,
        state.express_eviction == Some(ExpressEvictionPolicy::QueueDepth(th)),
        state.work_shedding is None,
    ensures
        state.queue.len() + 1 > th ==> {
            &&& state.input_action(task, now) == (InputAction::Queue {
                eviction: Overload::Forward(Task { evicted_at: Some(now), ..task }),
                shedding: Overload::Keep,
            })
            &&& state.received(task, now).queue == state.queue
        },
        state.queue.len() + 1 <= th ==> {
            &&& state.input_action(task, now) == (InputAction::Queue {
                eviction: Overload::Keep,
                shedding: Overload::Keep,
            })
            &&& state.received(task, now).queue == state.queue.push(task)
        },
        state.received(task, now).in_flight == state.in_flight,
        state.received(task, now).services == state.services,
{
    assert(state.queue.push(task).drop_last() =~= state.queue);
}

/// A service has been going on for longer than `threshold`: it began more than `threshold`
/// before `now`. Time that passes, and a lower threshold, only make more services overdue.
pub proof fn law_long_services_are_overdue(
    services: Seq<InFlightService>,
    now: u64,
    threshold: u64,
    i: int,
)
    ensures
        0 <= i < services.len() && services[i].started_at + threshold < now ==> overdue(
            services,
            now,
            threshold,
        ),
        (forall|j: int|
            0 <= j < services.len() ==> now <= (#[trigger] services[j]).started_at + threshold)
            ==> !overdue(services, now, threshold),
{
    if 0 <= i < services.len() && services[i].started_at + threshold < now {
        assert(now - services[i].started_at > threshold);
    }
}

/// With a delay threshold, a task that reaches a busy server leaves at once where some service
/// has been going on for longer than the threshold. If not, and the work ahead of it and its
/// own take longer than the threshold, it leaves at once in ideal mode, and is watched for as
/// long as the threshold otherwise. In all other cases it just waits. What waited before stays.
pub proof fn law_delay_threshold_decides_overflow(
    state: ServerState,
    task: Task,
    now: u64,
    threshold: u64,
    mode: QueueDelayEvictionMode,
)
    requires
        state.dispatch_mode == DispatchMode::Push,
        state.in_flight >= state.max_concurrency,
        state.express_eviction == Some(ExpressEvictionPolicy::QueueDelay { threshold, mode }),
        state.work_shedding is None,
    ensures
        ({
            let late = exists|i: int|
                0 <= i < state.services.len() && now - (#[trigger] state.services[i]).started_at
                    > threshold;
            let slow = ideal_delay(state.queue.push(task), state.services, now) > threshold;
            let leaves = late || slow && mode == QueueDelayEvictionMode::ImmediateIdeal;
            &&& state.input_action(task, now) == (InputAction::Queue {
                eviction: if leaves {
                    Overload::Forward(Task { evicted_at: Some(now), ..task })
                } else if slow {
                    Overload::Watch(threshold)
                } else {
                    Overload::Keep
                },
                shedding: Overload::Keep,
            })
            &&& state.received(task, now).queue == if leaves {
                state.queue
            } else {
                state.queue.push(task)
            }
            &&& state.received(task, now).in_flight == state.in_flight
        }),
{
    assert(state.queue.push(task).drop_last() =~= state.queue);
}

/// With both thresholds, too long a queue or a service that has been going on for too long
/// sends the task on at once, and too much work ahead of it has it watched.
pub proof fn law_both_thresholds_decide_overflow(
    state: ServerState,
    task: Task,
    now: u64,
    depth: u32,
    delay: u64,
)
    requires
        state.dispatch_mode == DispatchMode::Push,
        state.in_flight >= state.max_concurrency,
        state.express_eviction == Some(
            ExpressEvictionPolicy::Combined { depth_threshold: depth, delay_threshold: delay },
        ),
        state.work_shedding is None,
    ensures
        ({
            let leaves = state.queue.len() + 1 > depth || exists|i: int|
                0 <= i < state.services.len() && now - (#[trigger] state.services[i]).started_at
                    > delay;
            let slow = ideal_delay(state.queue.push(task), state.services, now) > delay;
            &&& state.input_action(task, now) == (InputAction::Queue {
                eviction: if leaves {
                    Overload::Forward(Task { evicted_at: Some(now), ..task })
                } else if slow {
                    Overload::Watch(delay)
                } else {
                    Overload::Keep
                },
                shedding: Overload::Keep,
            })
            &&& state.received(task, now).queue == if leaves {
                state.queue
            } else {
                state.queue.push(task)
            }
        }),
{
    assert(state.queue.push(task).drop_last() =~= state.queue);
}

/// Work shedding gives a task back to its balancer at once where some service has been going
/// on for longer than the threshold, and watches it for as long as the threshold where the
/// work ahead of it and its own take longer. What waited before stays.
pub proof fn law_shedding_threshold_decides(state: ServerState, task: Task, now: u64, threshold: u64)
    requires
        state.dispatch_mode == DispatchMode::Push,
        state.in_flight >= state.max_concurrency,
        state.express_eviction is None,
        state.work_shedding == Some(threshold),
    ensures
        ({
            let late = exists|i: int|
                0 <= i < state.services.len() && now - (#[trigger] state.services[i]).started_at
                    > threshold;
            let slow = ideal_delay(state.queue.push(task), state.services, now) > threshold;
            &&& state.input_action(task, now) == (InputAction::Queue {
                eviction: Overload::Keep,
                shedding: if late {
                    Overload::Forward(Task { shed_at: Some(now), ..task })
                } else if slow {
                    Overload::Watch(threshold)
                } else {
                    Overload::Keep
                },
            })
            &&& state.received(task, now).queue == if late {
                state.queue
            } else {
                state.queue.push(task)
            }
        }),
{
    assert(state.queue.push(task).drop_last() =~= state.queue);
}

/// The wait at the end of a queue, at best: each queued task adds its service time, whatever
/// its place, and an empty queue leaves what remains of the service that ends first, which is
/// nothing where a slot is free.
pub proof fn law_ideal_delay_adds_up(
    queue: Seq<Task>,
    task: Task,
    services: Seq<InFlightService>,
    now: u64,
)
    requires
        none_started_after(services, now),
    ensures
        ideal_delay(queue.push(task), services, now) == ideal_delay(queue, services, now)
            + task.duration,
        services.len() == 0 ==> ideal_delay(Seq::empty(), services, now) == 0,
        services.len() > 0 ==> exists|i: int|
            0 <= i < services.len() && ideal_delay(Seq::empty(), services, now) == (if (
            #[trigger] services[i]).started_at + services[i].duration > now {
                services[i].started_at + services[i].duration - now
            } else {
                0
            }),
        forall|i: int|
            0 <= i < services.len() && now < (#[trigger] services[i]).started_at
                + services[i].duration ==> ideal_delay(Seq::empty(), services, now)
                <= services[i].started_at + services[i].duration - now,
        forall|i: int|
            0 <= i < services.len() && now >= (#[trigger] services[i]).started_at
                + services[i].duration ==> ideal_delay(Seq::empty(), services, now) == 0,
{
    assert(queue.push(task).drop_last() =~= queue);
    lemma_next_free(services, now);
}

proof fn lemma_next_free(services: Seq<InFlightService>, now: u64)
    requires
        none_started_after(services, now),
    ensures
        services.len() == 0 ==> next_free(services, now) == 0,
        services.len() > 0 ==> exists|i: int|
            0 <= i < services.len() && next_free(services, now) == left_of(
                #[trigger] services[i],
                now,
            ),
        forall|i: int|
            0 <= i < services.len() ==> next_free(services, now) <= left_of(
                #[trigger] services[i],
                now,
            ),
    decreases services.len(),
{
    if services.len() > 0 {
        let rest = services.drop_last();
        assert forall|i: int| 0 <= i < rest.len() implies (#[trigger] rest[i]).started_at <= now by {
            assert(rest[i] == services[i]);
        }
        lemma_next_free(rest, now);
        if services.len() == 1 || left_of(services.last(), now) < next_free(rest, now) {
            assert(next_free(services, now) == left_of(services[services.len() - 1], now));
        } else {
            let i = choose|i: int|
                0 <= i < rest.len() && next_free(rest, now) == left_of(#[trigger] rest[i], now);
            assert(services[i] == rest[i]);
            assert(next_free(services, now) == left_of(services[i], now));
        }
        assert forall|i: int| 0 <= i < services.len() implies next_free(services, now) <= left_of(
            #[trigger] services[i],
            now,
        ) by {
            if i < rest.len() {
                assert(rest[i] == services[i]);
            }
        }
    }
}

/// A timer that goes off names a task by its arrival: where one waits, the first that arrived
/// then leaves, and where none does, none leaves.
pub proof fn law_timer_names_the_first_arrival(queue: Seq<Task>, start: u64, i: int)
    requires
        0 <= i < queue.len(),
        queue[i].start == start,
    ensures
        has_start(queue, start),
        0 <= start_at(queue, start) <= i,
        queue[start_at(queue, start)].start == start,
        forall|j: int| 0 <= j < start_at(queue, start) ==> (#[trigger] queue[j]).start != start,
    decreases i,
{
    if forall|j: int| 0 <= j < i ==> (#[trigger] queue[j]).start != start {
        assert(first_with_start(queue, start, i));
        let at = start_at(queue, start);
        assert(first_with_start(queue, start, at));
        if i < at {
            assert(queue[i].start != start);
        }
    } else {
        let j = choose|j: int| 0 <= j < i && (#[trigger] queue[j]).start == start;
        law_timer_names_the_first_arrival(queue, start, j);
    }
}

/// Once a timer has gone off nothing is watched under its arrival any more, and once a task is
/// served one timer less is; all others stay, in their order.
pub proof fn law_timers_are_forgotten(starts: Seq<u64>, start: u64, other: u64)
    ensures
        !without_all(starts, start).contains(start),
        other != start ==> (without_all(starts, start).contains(other) <==> starts.contains(other)),
        starts.contains(start) ==> without_first(starts, start).len() == starts.len() - 1,
        !starts.contains(start) ==> without_first(starts, start) == starts,
        other != start ==> (without_first(starts, start).contains(other) <==> starts.contains(
            other,
        )),
{
    lemma_without_all_keeps(starts, start, other);
    if starts.contains(start) {
        let at = lemma_first_place(starts, start);
        lemma_without_first(starts, start, at);
        let rest = starts.remove(at);
        if other != start {
            if starts.contains(other) {
                let k = choose|k: int| 0 <= k < starts.len() && starts[k] == other;
                assert(rest[if k < at {
                    k
                } else {
                    k - 1
                }] == other);
            }
            if rest.contains(other) {
                let k = choose|k: int| 0 <= k < rest.len() && rest[k] == other;
                assert(starts[if k < at {
                    k
                } else {
                    k + 1
                }] == other);
            }
        }
    } else {
        lemma_without_first(starts, start, starts.len() as int);
    }
}

proof fn lemma_first_place(starts: Seq<u64>, start: u64) -> (at: int)
    requires
        starts.contains(start),
    ensures
        0 <= at < starts.len(),
        starts[at] == start,
        forall|j: int| 0 <= j < at ==> starts[j] != start,
    decreases starts.len(),
{
    if starts.drop_last().contains(start) {
        let at = lemma_first_place(starts.drop_last(), start);
        assert forall|j: int| 0 <= j < at implies starts[j] != start by {
            assert(starts.drop_last()[j] != start);
        }
        at
    } else {
        let at = starts.len() - 1;
        let k = choose|k: int| 0 <= k < starts.len() && starts[k] == start;
        if k < at {
            assert(starts.drop_last()[k] == start);
        }
        assert forall|j: int| 0 <= j < at implies starts[j] != start by {
            if starts[j] == start {
                assert(starts.drop_last()[j] == start);
            }
        }
        at
    }
}

proof fn lemma_without_all_keeps(starts: Seq<u64>, start: u64, other: u64)
    ensures
        !without_all(starts, start).contains(start),
        other != start ==> (without_all(starts, start).contains(other) <==> starts.contains(other)),
    decreases starts.len(),
{
    if starts.len() > 0 {
        let before = starts.drop_last();
        lemma_without_all_keeps(before, start, other);
        let kept = without_all(before, start);
        let all = without_all(starts, start);
        if all.contains(start) {
            let k = choose|k: int| 0 <= k < all.len() && all[k] == start;
            if k < kept.len() {
                assert(kept[k] == start);
            }
        }
        if other != start {
            if starts.contains(other) {
                let k = choose|k: int| 0 <= k < starts.len() && starts[k] == other;
                if k < before.len() {
                    assert(before[k] == other);
                    let m = choose|m: int| 0 <= m < kept.len() && kept[m] == other;
                    assert(all[m] == other);
                } else {
                    assert(all[kept.len() as int] == other);
                }
            }
            if all.contains(other) {
                let k = choose|k: int| 0 <= k < all.len() && all[k] == other;
                if k < kept.len() {
                    assert(kept[k] == other);
                    let m = choose|m: int| 0 <= m < before.len() && before[m] == other;
                    assert(starts[m] == other);
                } else {
                    assert(starts[starts.len() - 1] == other);
                }
            }
        }
    }
}

/// A finished task is stamped with the time, and its slot is free again: its service is over,
/// and all others go on. The balancer that sent it is told of this server; where it was the
/// express lane that served it, the lane's balancer is told of this server and the task's own
/// balancer of the server that it was first sent to.
pub proof fn law_completion_frees_a_slot(state: ServerState, task: Task, now: u64, i: int)
    requires
        state.in_flight > 0,
        state.is_express ==> state.express_lb_id is Some,
    ensures
        ({
            let done = state.completion(task, now);
            &&& done.task.finish == now
            &&& done.task.served_by_express == state.is_express
            &&& done.task.start == task.start && done.task.duration == task.duration
            &&& done.task.evicted_at == task.evicted_at && done.task.shed_at == task.shed_at
            &&& done.task.service_started_at == task.service_started_at
            &&& done.task.task_id == task.task_id && done.task.lb_id == task.lb_id
            &&& done.release.server_idx == state.server_idx
            &&& !state.is_express ==> done.release.lb_id == task.lb_id && done.origin_release is None
            &&& state.is_express ==> Some(done.release.lb_id) == state.express_lb_id
                && done.origin_release == Some(
                Release { lb_id: task.lb_id, server_idx: task.origin_server_idx },
            )
            &&& state.dispatch_mode == DispatchMode::Push ==> done.follow_up == FollowUp::Drain
            &&& state.dispatch_mode == DispatchMode::Centralized ==> done.follow_up
                == FollowUp::Pull(
                PullRequest { server_idx: state.server_idx, request_id: None },
            )
        }),
        state.completed(task).in_flight == state.in_flight - 1,
        state.completed(task).queue == state.queue,
        task.service_started_at is None ==> state.completed(task).services == state.services,
        0 <= i < state.services.len() && task.service_started_at == Some(
            state.services[i].started_at,
        ) && (forall|j: int|
            0 <= j < i ==> (#[trigger] state.services[j]).started_at
                != state.services[i].started_at) ==> state.completed(task).services
            == state.services.remove(i),
        (forall|j: int|
            0 <= j < state.services.len() ==> Some((#[trigger] state.services[j]).started_at)
                != task.service_started_at) ==> state.completed(task).services == state.services,
{
    if 0 <= i < state.services.len() && task.service_started_at == Some(
        state.services[i].started_at,
    ) && (forall|j: int|
        0 <= j < i ==> (#[trigger] state.services[j]).started_at
            != state.services[i].started_at) {
        let t = state.services[i].started_at;
        assert(first_begun(state.services, t, i));
        let at = choose|j: int| first_begun(state.services, t, j);
        assert(first_begun(state.services, t, at));
        assert(at == i);
    }
}

/// A server that answers intents does so in the order in which they came, and only while it
/// has a slot that is neither busy nor promised: the oldest is answered with a pull of the very
/// request that it named, and the slot is promised. One more intent goes to the end.
pub proof fn law_intents_are_answered_in_order(state: ServerState, intent: PullIntent)
    ensures
        state.with_intent(intent).intents == state.intents.push(intent),
        state.intents.len() > 0 && state.in_flight + state.pending_pulls < state.max_concurrency ==> {
            let known = state.intents[0].sender_id < state.pull_outputs;
            let after = state.intent_drained();
            &&& state.intent_pull() == if known {
                Some(
                    PullDispatch {
                        lb_id: state.intents[0].sender_id,
                        request: PullRequest {
                            server_idx: state.server_idx,
                            request_id: Some(state.intents[0].request_id),
                        },
                    },
                )
            } else {
                None
            }
            &&& after.intents.len() == state.intents.len() - 1
            &&& forall|i: int|
                0 <= i < after.intents.len() ==> #[trigger] after.intents[i] == state.intents[i + 1]
            &&& after.pending_pulls == state.pending_pulls + if known {
                1int
            } else {
                0
            }
            &&& after.in_flight == state.in_flight && after.queue == state.queue
        },
        state.intents.len() == 0 || state.in_flight + state.pending_pulls >= state.max_concurrency
            ==> state.intent_pull() is None && state.intent_drained() == state,
{
}

/// A probe is answered with how many tasks a server holds: a task that is served or queued
/// here adds one, a task that was finished takes one away, and one that begins to be served
/// changes nothing.
pub proof fn law_probe_counts_the_tasks_held(state: ServerState, task: Task, now: u64, probe: Probe)
    requires
        state.queue.len() + state.in_flight < u32::MAX,
    ensures
        state.probe_answer(probe).lb_id == probe.sender_id,
        state.probe_answer(probe).reply.server_idx == state.server_idx,
        state.queue.len() == 0 && state.in_flight == 0 ==> state.probe_answer(probe).reply.rif
            == 0,
        state.express_eviction is None && state.work_shedding is None ==> state.received(
            task,
            now,
        ).probe_answer(probe).reply.rif == state.probe_answer(probe).reply.rif + 1,
        state.drained(now).probe_answer(probe).reply.rif == state.probe_answer(probe).reply.rif,
        state.in_flight > 0 ==> state.completed(task).probe_answer(probe).reply.rif
            == state.probe_answer(probe).reply.rif - 1,
{
}

/// A server offers a slot to the central queue exactly where it pulls from one and has a free
/// slot. The pull names the server, and no task.
pub proof fn law_free_slots_are_offered(state: ServerState)
    ensures
        state.offered_pull() is Some <==> state.dispatch_mode == DispatchMode::Centralized
            && state.in_flight < state.max_concurrency,
        state.offered_pull() matches Some(pull) ==> pull.server_idx == state.server_idx
            && pull.request_id is None,
{
}

} // verus!
