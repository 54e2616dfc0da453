//! Audit trail of centralized enqueues and dispatches in the `lb` simulator.

use crate::subset_audit::{
    check_disjoint, check_per_subset, disjoint_fault, no_shared_server, per_subset_fault,
    SubsetStep,
};
use vstd::prelude::*;

verus! {

#[derive(Debug, Clone, Copy, PartialEq, Eq)]
pub enum CentralizedEventKind {
    TaskEnqueued { lb_id: usize, task_id: u64, queue_len_before: usize },
    TaskDispatched { lb_id: usize, server_idx: usize, task_id: u64 },
}

/// What an event means for the split into subsets.
pub open spec fn step_of(event: CentralizedEventKind) -> SubsetStep {
    match event {
        CentralizedEventKind::TaskEnqueued { lb_id, task_id, .. } => SubsetStep::Enqueued {
            lb: lb_id,
            id: task_id,
        },
        CentralizedEventKind::TaskDispatched { lb_id, server_idx, task_id } =>
            SubsetStep::Dispatched { lb: lb_id, server: server_idx, id: task_id },
    }
}

/// The steps that `events` stand for.
pub open spec fn steps_of(events: Seq<CentralizedEventKind>) -> Seq<SubsetStep> {
    Seq::new(events.len(), |i: int| step_of(events[i]))
}

/// Records centralized enqueue/dispatch events for post-hoc subset invariant checks.
pub struct LbCentralizedAudit {
    events: Vec<CentralizedEventKind>,
}

impl View for LbCentralizedAudit {
    type V = Seq<CentralizedEventKind>;

    closed spec fn view(&self) -> Seq<CentralizedEventKind> {
        self.events@
    }
}

impl LbCentralizedAudit {
    pub fn new() -> (r: Self)
        ensures
            r@ == Seq::<CentralizedEventKind>::empty(),
    {
        LbCentralizedAudit { events: Vec::new() }
    }

    pub fn record_task_enqueued(&mut self, lb_id: usize, task_id: u64, queue_len_before: usize)
        ensures
            final(self)@ == old(self)@.push(
                CentralizedEventKind::TaskEnqueued { lb_id, task_id, queue_len_before },
            ),
    {
        self.events.push(CentralizedEventKind::TaskEnqueued { lb_id, task_id, queue_len_before });
    }

    pub fn record_task_dispatched(&mut self, lb_id: usize, server_idx: usize, task_id: u64)
        ensures
            final(self)@ == old(self)@.push(
                CentralizedEventKind::TaskDispatched { lb_id, server_idx, task_id },
            ),
    {
        self.events.push(CentralizedEventKind::TaskDispatched { lb_id, server_idx, task_id });
    }

    /// A copy of the recorded events.
    pub fn events(&self) -> (r: Vec<CentralizedEventKind>)
        ensures
            r@ == self@,
    {
        let mut out: Vec<CentralizedEventKind> = Vec::new();
        let mut i: usize = 0;
        while i < self.events.len()
            invariant
                i <= self.events@.len(),
                out@ == self.events@.take(i as int),
            decreases self.events@.len() - i,
        {
            out.push(self.events[i]);
            i += 1;
            assert(out@ =~= self.events@.take(i as int));
        }
        assert(out@ =~= self.events@);
        out
    }

    fn steps(&self) -> (r: Vec<SubsetStep>)
        ensures
            r@ == steps_of(self@),
    {
        let mut out: Vec<SubsetStep> = Vec::new();
        let mut i: usize = 0;
        while i < self.events.len()
            invariant
                i <= self.events@.len(),
                out@.len() == i,
                forall|j: int| 0 <= j < i ==> (#[trigger] out@[j]) == step_of(self.events@[j]),
            decreases self.events@.len() - i,
        {
            match self.events[i] {
                CentralizedEventKind::TaskEnqueued { lb_id, task_id, .. } => {
                    out.push(SubsetStep::Enqueued { lb: lb_id, id: task_id });
                },
                CentralizedEventKind::TaskDispatched { lb_id, server_idx, task_id } => {
                    out.push(SubsetStep::Dispatched { lb: lb_id, server: server_idx, id: task_id });
                },
            }
            i += 1;
        }
        assert(out@ =~= steps_of(self@));
        out
    }

    /// Assert observed dispatch servers per LB form a partition matching `assign_subset`.
    pub fn validate_disjoint_subsets(&self, n_servers: usize, subset_size: u32) -> (r: Result<
        (),
        String,
    >)
        requires
            n_servers > 0 || subset_size > 0,
        ensures
            match disjoint_fault(steps_of(self@), n_servers as nat, subset_size as nat) {
                None => r is Ok,
                Some(fault) => r matches Err(e) && e@ == fault.text(
                    "task"@,
                    steps_of(self@),
                    n_servers as nat,
                    subset_size as nat,
                ),
            },
            r is Ok ==> no_shared_server(steps_of(self@)),
    {
        let steps = self.steps();
        match check_disjoint(&steps, n_servers, subset_size) {
            None => Ok(()),
            Some(fault) => Err(fault.message("task", &steps, n_servers, subset_size)),
        }
    }

    /// Assert every dispatch stays in its LB subset, and enqueue/dispatch lb_ids match
    /// the expected centralized-per-subset topology (`n_lbs = n_servers / k`).
    pub fn validate_centralized_per_subset(&self, n_servers: usize, subset_size: u32) -> (r: Result<
        (),
        String,
    >)
        requires
            n_servers > 0 || subset_size > 0,
        ensures
            match per_subset_fault(steps_of(self@), n_servers as nat, subset_size as nat) {
                None => r is Ok,
                Some(fault) => r matches Err(e) && e@ == fault.text(
                    "task"@,
                    steps_of(self@),
                    n_servers as nat,
                    subset_size as nat,
                ),
            },
    {
        let steps = self.steps();
        match check_per_subset(&steps, n_servers, subset_size) {
            None => Ok(()),
            Some(fault) => Err(fault.message("task", &steps, n_servers, subset_size)),
        }
    }
}

} // verus!
