//! Audit trail of centralized enqueues and dispatches in the microservice simulator.

use crate::subset::{subset_count, subset_size_k};
use crate::subset_audit::{
    check_disjoint, check_per_subset, disjoint_fault, no_shared_server, per_subset_fault,
    SubsetStep,
};
use crate::text::{decimal, Text};
use vstd::prelude::*;

verus! {

#[derive(Debug, Clone, PartialEq, Eq)]
pub enum CentralizedEventKind {
    CallEnqueued {
        target: String,
        lb_id: usize,
        caller_server: usize,
        request_id: u64,
        queue_len_before: usize,
    },
    CallDispatched { target: String, lb_id: usize, server_idx: usize, request_id: u64 },
}

/// The steps that the events of one target microservice stand for.
pub open spec fn steps_for(events: Seq<CentralizedEventKind>, target: Seq<char>) -> Seq<SubsetStep>
    decreases events.len(),
{
    if events.len() == 0 {
        Seq::empty()
    } else {
        let before = steps_for(events.drop_last(), target);
        match events.last() {
            CentralizedEventKind::CallEnqueued { target: t, lb_id, request_id, .. } if t@
                == target => before.push(SubsetStep::Enqueued { lb: lb_id, id: request_id }),
            CentralizedEventKind::CallDispatched { target: t, lb_id, server_idx, request_id } if t@
                == target => before.push(
                SubsetStep::Dispatched { lb: lb_id, server: server_idx, id: request_id },
            ),
            _ => before,
        }
    }
}

/// A message about one target microservice.
pub open spec fn about(target: Seq<char>, what: Seq<char>) -> Seq<char> {
    "target "@ + target + ": "@ + what
}

fn about_text(target: &str, what: &str) -> (s: String)
    ensures
        s@ == about(target@, what@),
{
    Text::of("target ").lit(target).lit(": ").lit(what).done()
}

/// What the callers of a target can be rejected for.
pub enum CallerFault {
    NoSubsets,
    WrongLb { request_id: u64, lb_id: usize, caller_server: usize, expected_lb: usize },
    NoEnqueue,
}

impl CallerFault {
    /// The text a fault is reported with.
    pub open spec fn text(self) -> Seq<char> {
        match self {
            CallerFault::NoSubsets => "subset count is zero"@,
            CallerFault::WrongLb { request_id, lb_id, caller_server, expected_lb } => "request "@
                + decimal(request_id as nat) + " enqueued on lb "@ + decimal(lb_id as nat)
                + " but caller_server "@ + decimal(caller_server as nat) + " maps to lb "@
                + decimal(expected_lb as nat),
            CallerFault::NoEnqueue => "no enqueues recorded"@,
        }
    }

    /// Renders the fault.
    pub fn message(&self) -> (s: String)
        ensures
            s@ == self.text(),
    {
        match self {
            CallerFault::NoSubsets => Text::of("subset count is zero").done(),
            CallerFault::WrongLb { request_id, lb_id, caller_server, expected_lb } => Text::of(
                "request ",
            ).num(*request_id).lit(" enqueued on lb ").size(*lb_id).lit(
                " but caller_server ",
            ).size(*caller_server).lit(" maps to lb ").size(*expected_lb).done(),
            CallerFault::NoEnqueue => Text::of("no enqueues recorded").done(),
        }
    }
}

/// An enqueue for `target`.
pub open spec fn enqueue_for(event: CentralizedEventKind, target: Seq<char>) -> bool {
    event matches CentralizedEventKind::CallEnqueued { target: t, .. } && t@ == target
}

/// The earliest of the first `m` enqueues for `target` that is not on the balancer its
/// caller belongs to: `caller_server % n_lbs`.
pub open spec fn first_misrouted(
    events: Seq<CentralizedEventKind>,
    target: Seq<char>,
    n_lbs: nat,
    m: nat,
) -> Option<CallerFault>
    decreases m,
{
    if m == 0 {
        None
    } else {
        match first_misrouted(events, target, n_lbs, (m - 1) as nat) {
            Some(fault) => Some(fault),
            None => match events[m - 1] {
                CentralizedEventKind::CallEnqueued {
                    target: t,
                    lb_id,
                    caller_server,
                    request_id,
                    ..
                } if t@ == target && lb_id != caller_server as nat % n_lbs => Some(
                    CallerFault::WrongLb {
                        request_id,
                        lb_id,
                        caller_server,
                        expected_lb: (caller_server as nat % n_lbs) as usize,
                    },
                ),
                _ => None,
            },
        }
    }
}

/// The fault for which the callers of `target` do not follow the split, if any.
pub open spec fn caller_fault(
    events: Seq<CentralizedEventKind>,
    target: Seq<char>,
    n_lbs: nat,
) -> Option<CallerFault> {
    if n_lbs == 0 {
        Some(CallerFault::NoSubsets)
    } else {
        match first_misrouted(events, target, n_lbs, events.len()) {
            Some(fault) => Some(fault),
            None => if exists|i: int|
                0 <= i < events.len() && enqueue_for(#[trigger] events[i], target) {
                None
            } else {
                Some(CallerFault::NoEnqueue)
            },
        }
    }
}

proof fn lemma_first_misrouted_final(
    events: Seq<CentralizedEventKind>,
    target: Seq<char>,
    n_lbs: nat,
    m: nat,
    end: nat,
)
    requires
        m <= end,
        first_misrouted(events, target, n_lbs, m) is Some,
    ensures
        first_misrouted(events, target, n_lbs, end) == first_misrouted(events, target, n_lbs, m),
    decreases end,
{
    if m < end {
        lemma_first_misrouted_final(events, target, n_lbs, m, (end - 1) as nat);
    }
}

fn same_name(a: &String, b: &str) -> (r: bool)
    ensures
        r == (a@ == b@),
{
    let owned: String = b.to_owned();
    *a == owned
}

fn copy_event(event: &CentralizedEventKind) -> (r: CentralizedEventKind)
    ensures
        r == *event,
{
    match event {
        CentralizedEventKind::CallEnqueued {
            target,
            lb_id,
            caller_server,
            request_id,
            queue_len_before,
        } => CentralizedEventKind::CallEnqueued {
            target: target.clone(),
            lb_id: *lb_id,
            caller_server: *caller_server,
            request_id: *request_id,
            queue_len_before: *queue_len_before,
        },
        CentralizedEventKind::CallDispatched { target, lb_id, server_idx, request_id } =>
            CentralizedEventKind::CallDispatched {
            target: target.clone(),
            lb_id: *lb_id,
            server_idx: *server_idx,
            request_id: *request_id,
        },
    }
}

/// Records MS centralized enqueue/dispatch events for post-hoc subset invariant checks.
pub struct MsCentralizedAudit {
    events: Vec<CentralizedEventKind>,
}

impl View for MsCentralizedAudit {
    type V = Seq<CentralizedEventKind>;

    closed spec fn view(&self) -> Seq<CentralizedEventKind> {
        self.events@
    }
}

impl MsCentralizedAudit {
    pub fn new() -> (r: Self)
        ensures
            r@ == Seq::<CentralizedEventKind>::empty(),
    {
        MsCentralizedAudit { events: Vec::new() }
    }

    pub fn record_call_enqueued(
        &mut self,
        target: &str,
        lb_id: usize,
        caller_server: usize,
        request_id: u64,
        queue_len_before: usize,
    )
        ensures
            final(self)@.len() == old(self)@.len() + 1,
            final(self)@.drop_last() == old(self)@,
            final(self)@.last() matches CentralizedEventKind::CallEnqueued {
                target: t,
                lb_id: lb,
                caller_server: caller,
                request_id: request,
                queue_len_before: len,
            } && t@ == target@ && lb == lb_id && caller == caller_server && request == request_id
                && len == queue_len_before,
    {
        self.events.push(
            CentralizedEventKind::CallEnqueued {
                target: target.to_owned(),
                lb_id,
                caller_server,
                request_id,
                queue_len_before,
            },
        );
        assert(self@.drop_last() =~= old(self)@);
    }

    pub fn record_call_dispatched(
        &mut self,
        target: &str,
        lb_id: usize,
        server_idx: usize,
        request_id: u64,
    )
        ensures
            final(self)@.len() == old(self)@.len() + 1,
            final(self)@.drop_last() == old(self)@,
            final(self)@.last() matches CentralizedEventKind::CallDispatched {
                target: t,
                lb_id: lb,
                server_idx: server,
                request_id: request,
            } && t@ == target@ && lb == lb_id && server == server_idx && request == request_id,
    {
        self.events.push(
            CentralizedEventKind::CallDispatched {
                target: target.to_owned(),
                lb_id,
                server_idx,
                request_id,
            },
        );
        assert(self@.drop_last() =~= old(self)@);
    }

    /// A copy of the recorded events.
    pub fn events(&self) -> (r: Vec<CentralizedEventKind>)
        ensures
            r@ == self@,
    {
        let mut out: Vec<CentralizedEventKind> = Vec::new();
        let mut i: usize = 0;
        while i < self.events.len()
            invariant
                i <= self.events@.len(),
                out@ == self.events@.take(i as int),
            decreases self.events@.len() - i,
        {
            out.push(copy_event(&self.events[i]));
            i += 1;
            assert(out@ =~= self.events@.take(i as int));
        }
        assert(out@ =~= self.events@);
        out
    }

    fn steps_for_target(&self, target: &str) -> (r: Vec<SubsetStep>)
        ensures
            r@ == steps_for(self@, target@),
    {
        let mut out: Vec<SubsetStep> = Vec::new();
        let mut i: usize = 0;
        while i < self.events.len()
            invariant
                i <= self.events@.len(),
                out@ == steps_for(self.events@.take(i as int), target@),
            decreases self.events@.len() - i,
        {
            assert(self.events@.take(i + 1).drop_last() =~= self.events@.take(i as int));
            match &self.events[i] {
                CentralizedEventKind::CallEnqueued { target: t, lb_id, request_id, .. } => {
                    if same_name(t, target) {
                        out.push(SubsetStep::Enqueued { lb: *lb_id, id: *request_id });
                    }
                },
                CentralizedEventKind::CallDispatched {
                    target: t,
                    lb_id,
                    server_idx,
                    request_id,
                } => {
                    if same_name(t, target) {
                        out.push(
                            SubsetStep::Dispatched {
                                lb: *lb_id,
                                server: *server_idx,
                                id: *request_id,
                            },
                        );
                    }
                },
            }
            i += 1;
        }
        assert(self.events@.take(i as int) =~= self.events@);
        out
    }

    /// Assert observed dispatch servers per LB form a partition matching `assign_subset`.
    pub fn validate_disjoint_subsets(
        &self,
        target: &str,
        n_servers: usize,
        subset_size: u32,
    ) -> (r: Result<(), String>)
        requires
            n_servers > 0 || subset_size > 0,
        ensures
            match disjoint_fault(
                steps_for(self@, target@),
                n_servers as nat,
                subset_size as nat,
            ) {
                None => r is Ok,
                Some(fault) => r matches Err(e) && e@ == about(
                    target@,
                    fault.text(
                        "request"@,
                        steps_for(self@, target@),
                        n_servers as nat,
                        subset_size as nat,
                    ),
                ),
            },
            r is Ok ==> no_shared_server(steps_for(self@, target@)),
    {
        let steps = self.steps_for_target(target);
        match check_disjoint(&steps, n_servers, subset_size) {
            None => Ok(()),
            Some(fault) => {
                let what = fault.message("request", &steps, n_servers, subset_size);
                Err(about_text(target, &what))
            },
        }
    }

    /// Assert every dispatch stays in its LB subset, and enqueue/dispatch lb_ids match
    /// the expected centralized-per-subset topology (`n_lbs = n_servers / k`).
    pub fn validate_centralized_per_subset(
        &self,
        target: &str,
        n_servers: usize,
        subset_size: u32,
    ) -> (r: Result<(), String>)
        requires
            n_servers > 0 || subset_size > 0,
        ensures
            match per_subset_fault(
                steps_for(self@, target@),
                n_servers as nat,
                subset_size as nat,
            ) {
                None => r is Ok,
                Some(fault) => r matches Err(e) && e@ == about(
                    target@,
                    fault.text(
                        "request"@,
                        steps_for(self@, target@),
                        n_servers as nat,
                        subset_size as nat,
                    ),
                ),
            },
    {
        let steps = self.steps_for_target(target);
        match check_per_subset(&steps, n_servers, subset_size) {
            None => Ok(()),
            Some(fault) => {
                let what = fault.message("request", &steps, n_servers, subset_size);
                Err(about_text(target, &what))
            },
        }
    }

    fn check_callers(&self, target: &str, n_lbs: usize) -> (r: Option<CallerFault>)
        ensures
            r == caller_fault(self@, target@, n_lbs as nat),
    {
        if n_lbs == 0 {
            return Some(CallerFault::NoSubsets);
        }
        let mut saw_enqueue = false;
        let mut i: usize = 0;
        while i < self.events.len()
            invariant
                i <= self.events@.len(),
                n_lbs > 0,
                first_misrouted(self.events@, target@, n_lbs as nat, i as nat) is None,
                saw_enqueue == exists|j: int|
                    0 <= j < i && enqueue_for(#[trigger] self.events@[j], target@),
            decreases self.events@.len() - i,
        {
            if let CentralizedEventKind::CallEnqueued {
                target: t,
                lb_id,
                caller_server,
                request_id,
                ..
            } = &self.events[i] {
                if same_name(t, target) {
                    saw_enqueue = true;
                    assert(enqueue_for(self.events@[i as int], target@));
                    let expected_lb: usize = *caller_server % n_lbs;
                    if *lb_id != expected_lb {
                        proof {
                            lemma_first_misrouted_final(
                                self.events@,
                                target@,
                                n_lbs as nat,
                                (i + 1) as nat,
                                self.events@.len(),
                            );
                        }
                        return Some(
                            CallerFault::WrongLb {
                                request_id: *request_id,
                                lb_id: *lb_id,
                                caller_server: *caller_server,
                                expected_lb,
                            },
                        );
                    }
                }
            }
            i += 1;
        }
        if !saw_enqueue {
            return Some(CallerFault::NoEnqueue);
        }
        None
    }

    /// Assert every enqueue has `lb_id == caller_server % S` where `S = n_servers / k`.
    pub fn validate_caller_lb_mapping(
        &self,
        target: &str,
        n_servers: usize,
        subset_size: u32,
    ) -> (r: Result<(), String>)
        requires
            n_servers > 0 || subset_size > 0,
        ensures
            match caller_fault(
                self@,
                target@,
                subset_count(n_servers as nat, subset_size as nat),
            ) {
                None => r is Ok,
                Some(fault) => r matches Err(e) && e@ == about(target@, fault.text()),
            },
    {
        let n_lbs: usize = n_servers / subset_size_k(n_servers, subset_size);
        match self.check_callers(target, n_lbs) {
            None => Ok(()),
            Some(fault) => {
                let what = fault.message();
                Err(about_text(target, &what))
            },
        }
    }
}

/// A trace passes only if every call was queued at the balancer that its caller belongs to,
/// which is the caller's index modulo the number of balancers, and if there was such a call.
pub proof fn law_accepted_callers_keep_to_their_balancer(
    events: Seq<CentralizedEventKind>,
    target: Seq<char>,
    n_lbs: nat,
    i: int,
)
    requires
        caller_fault(events, target, n_lbs) is None,
        0 <= i < events.len(),
    ensures
        n_lbs > 0,
        events[i] matches CentralizedEventKind::CallEnqueued {
            target: t,
            lb_id,
            caller_server,
            ..
        } ==> (t@ == target ==> lb_id == caller_server as nat % n_lbs),
        exists|j: int|
            0 <= j < events.len() && ((#[trigger] events[j]) matches CentralizedEventKind::CallEnqueued {
                target: t,
                ..
            } && t@ == target),
{
    lemma_none_misrouted(events, target, n_lbs, events.len(), i);
    let j = choose|j: int| 0 <= j < events.len() && enqueue_for(#[trigger] events[j], target);
    assert(enqueue_for(events[j], target));
}

proof fn lemma_none_misrouted(
    events: Seq<CentralizedEventKind>,
    target: Seq<char>,
    n_lbs: nat,
    m: nat,
    i: int,
)
    requires
        0 <= i < m <= events.len(),
        first_misrouted(events, target, n_lbs, m) is None,
    ensures
        events[i] matches CentralizedEventKind::CallEnqueued {
            target: t,
            lb_id,
            caller_server,
            ..
        } ==> (t@ == target ==> lb_id == caller_server as nat % n_lbs),
    decreases m,
{
    if i < m - 1 {
        lemma_none_misrouted(events, target, n_lbs, (m - 1) as nat, i);
    }
}

} // verus!
