//! The loads that servers report, by server index.

use vstd::prelude::*;

verus! {

pub struct LoadRegistry {
    loads: Vec<u32>,
}

impl View for LoadRegistry {
    type V = Seq<u32>;

    closed spec fn view(&self) -> Seq<u32> {
        self.loads@
    }
}

impl LoadRegistry {
    /// A registry for `n` servers, all idle.
    pub fn new(n: usize) -> (r: Self)
        ensures
            r@ == Seq::new(n as nat, |i: int| 0u32),
    {
        let mut loads: Vec<u32> = Vec::new();
        let mut i: usize = 0;
        while i < n
            invariant
                i <= n,
                loads@ == Seq::new(i as nat, |j: int| 0u32),
            decreases n - i,
        {
            loads.push(0);
            i += 1;
            assert(loads@ =~= Seq::new(i as nat, |j: int| 0u32));
        }
        LoadRegistry { loads }
    }

    /// The load last reported by server `idx`; 0 for a server that does not exist.
    pub fn get(&self, idx: usize) -> (r: u32)
        ensures
            r == if idx < self@.len() {
                self@[idx as int]
            } else {
                0
            },
    {
        if idx < self.loads.len() {
            self.loads[idx]
        } else {
            0
        }
    }

    /// Reports the load of server `idx`; a server that does not exist is ignored.
    pub fn set(&mut self, idx: usize, load: u32)
        ensures
            final(self)@ == if idx < old(self)@.len() {
                old(self)@.update(idx as int, load)
            } else {
                old(self)@
            },
    {
        if idx < self.loads.len() {
            self.loads.set(idx, load);
        }
    }
}

impl Default for LoadRegistry {
    /// A registry for no servers.
    fn default() -> (r: Self)
        ensures
            r@.len() == 0,
    {
        LoadRegistry::new(0)
    }
}

/// The loads after `reports`, one after the other: each of a server and its load.
pub open spec fn after_reports(loads: Seq<u32>, reports: Seq<(usize, u32)>) -> Seq<u32>
    decreases reports.len(),
{
    if reports.len() == 0 {
        loads
    } else {
        let before = after_reports(loads, reports.drop_last());
        let (idx, load) = reports.last();
        if idx < before.len() {
            before.update(idx as int, load)
        } else {
            before
        }
    }
}

/// The last load that server `idx` reported, if it reported one.
pub open spec fn last_report(reports: Seq<(usize, u32)>, idx: usize) -> Option<u32>
    decreases reports.len(),
{
    if reports.len() == 0 {
        None
    } else if reports.last().0 == idx {
        Some(reports.last().1)
    } else {
        last_report(reports.drop_last(), idx)
    }
}

/// A registry of `n` servers tells of each server what it reported last, and 0 of one that
/// has reported nothing. Reports of servers that do not exist change nothing.
pub proof fn law_last_report_counts(n: usize, reports: Seq<(usize, u32)>, idx: usize)
    ensures
        ({
            let loads = after_reports(Seq::new(n as nat, |i: int| 0u32), reports);
            &&& loads.len() == n
            &&& idx < n ==> loads[idx as int] == match last_report(reports, idx) {
                Some(load) => load,
                None => 0,
            }
        }),
    decreases reports.len(),
{
    if reports.len() > 0 {
        law_last_report_counts(n, reports.drop_last(), idx);
    }
}

} // verus!
