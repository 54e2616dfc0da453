//! Checks on traces of a centralized run whose backends are split into subsets, one
//! shared balancer per subset.

use crate::subset::{
    deterministic_subset, deterministic_subset_of, disjoint, subset_count, subset_size_k,
    subset_table,
};
use crate::text::{decimal, joined, Text};
use vstd::prelude::*;

verus! {

/// What a balancer does with a piece of work.
#[derive(Clone, Copy, Debug, PartialEq, Eq)]
pub enum SubsetStep {
    Enqueued { lb: usize, id: u64 },
    Dispatched { lb: usize, server: usize, id: u64 },
}

/// What a trace can be rejected for.
pub enum SubsetFault {
    NoDispatch,
    LbCount { expected: usize, saw: usize },
    UnexpectedLb { lb: usize },
    OutsideSubset { lb: usize },
    NotEnqueued { lb: usize, id: u64 },
    EnqueueCount { expected: usize, saw: usize },
}

impl SubsetFault {
    /// The text a fault is reported with; `noun` is what a piece of work is called.
    pub open spec fn text(
        self,
        noun: Seq<char>,
        steps: Seq<SubsetStep>,
        n: nat,
        subset_size: nat,
    ) -> Seq<char> {
        match self {
            SubsetFault::NoDispatch => "no centralized dispatches recorded"@,
            SubsetFault::LbCount { expected, saw } => "expected "@ + decimal(expected as nat)
                + " LBs with dispatches, saw "@ + decimal(saw as nat),
            SubsetFault::UnexpectedLb { lb } => "unexpected lb_id "@ + decimal(lb as nat)
                + " in dispatches"@,
            SubsetFault::OutsideSubset { lb } => "lb "@ + decimal(lb as nat)
                + " dispatched outside its subset: observed={"@ + joined(
                observed_servers(steps, lb),
            ) + "} expected_subset={"@ + joined(deterministic_subset_of(n, lb as nat, subset_size))
                + "}"@,
            SubsetFault::NotEnqueued { lb, id } => noun + " "@ + decimal(id as nat)
                + " dispatched by lb "@ + decimal(lb as nat) + " without a matching enqueue"@,
            SubsetFault::EnqueueCount { expected, saw } => "expected enqueues on "@ + decimal(
                expected as nat,
            ) + " LBs, saw "@ + decimal(saw as nat),
        }
    }

    /// Renders the fault.
    pub fn message(
        &self,
        noun: &str,
        steps: &Vec<SubsetStep>,
        n: usize,
        subset_size: u32,
    ) -> (s: String)
        requires
            n > 0 || subset_size > 0,
        ensures
            s@ == self.text(noun@, steps@, n as nat, subset_size as nat),
    {
        match self {
            SubsetFault::NoDispatch => Text::of("no centralized dispatches recorded").done(),
            SubsetFault::LbCount { expected, saw } => Text::of("expected ").size(*expected).lit(
                " LBs with dispatches, saw ",
            ).size(*saw).done(),
            SubsetFault::UnexpectedLb { lb } => Text::of("unexpected lb_id ").size(*lb).lit(
                " in dispatches",
            ).done(),
            SubsetFault::OutsideSubset { lb } => {
                let observed = servers_dispatched(steps, *lb);
                let expected = deterministic_subset(n, *lb, subset_size_k(n, subset_size));
                Text::of("lb ").size(*lb).lit(" dispatched outside its subset: observed={").items(
                    &observed,
                ).lit("} expected_subset={").items(&expected).lit("}").done()
            },
            SubsetFault::NotEnqueued { lb, id } => Text::of(noun).lit(" ").num(*id).lit(
                " dispatched by lb ",
            ).size(*lb).lit(" without a matching enqueue").done(),
            SubsetFault::EnqueueCount { expected, saw } => Text::of("expected enqueues on ").size(
                *expected,
            ).lit(" LBs, saw ").size(*saw).done(),
        }
    }
}

/// The balancers that dispatch something in `steps`.
pub open spec fn dispatching(steps: Seq<SubsetStep>) -> Set<usize>
    decreases steps.len(),
{
    if steps.len() == 0 {
        Set::empty()
    } else {
        let before = dispatching(steps.drop_last());
        match steps.last() {
            SubsetStep::Dispatched { lb, .. } => before.insert(lb),
            _ => before,
        }
    }
}

/// The balancers that enqueue something in `steps`.
pub open spec fn enqueueing(steps: Seq<SubsetStep>) -> Set<usize>
    decreases steps.len(),
{
    if steps.len() == 0 {
        Set::empty()
    } else {
        let before = enqueueing(steps.drop_last());
        match steps.last() {
            SubsetStep::Enqueued { lb, .. } => before.insert(lb),
            _ => before,
        }
    }
}

/// The servers that `lb` dispatches to in `steps`, in order of first use.
pub open spec fn observed_servers(steps: Seq<SubsetStep>, lb: usize) -> Seq<usize>
    decreases steps.len(),
{
    if steps.len() == 0 {
        Seq::empty()
    } else {
        let before = observed_servers(steps.drop_last(), lb);
        match steps.last() {
            SubsetStep::Dispatched { lb: by, server, .. } if by == lb && !before.contains(server) =>
                before.push(server),
            _ => before,
        }
    }
}

/// Whether `lb` enqueued `id` in `steps`.
pub open spec fn was_enqueued(steps: Seq<SubsetStep>, lb: usize, id: u64) -> bool {
    exists|i: int|
        0 <= i < steps.len() && (#[trigger] steps[i]) == (SubsetStep::Enqueued { lb, id })
}

/// No server gets work from two balancers.
pub open spec fn no_shared_server(steps: Seq<SubsetStep>) -> bool {
    forall|i: int, j: int|
        #![trigger steps[i], steps[j]]
        0 <= i < steps.len() && 0 <= j < steps.len() ==> (steps[i] matches SubsetStep::Dispatched {
            lb: a,
            server: s,
            ..
        } ==> steps[j] matches SubsetStep::Dispatched { lb: b, server: t, .. } ==> a != b ==> s
            != t)
}

/// What is wrong with where step `i` sends work.
pub open spec fn stray_fault(
    steps: Seq<SubsetStep>,
    n: nat,
    subset_size: nat,
    i: int,
) -> Option<SubsetFault> {
    match steps[i] {
        SubsetStep::Dispatched { lb, server, .. } => if lb >= subset_count(n, subset_size) {
            Some(SubsetFault::UnexpectedLb { lb })
        } else if !deterministic_subset_of(n, lb as nat, subset_size).contains(server) {
            Some(SubsetFault::OutsideSubset { lb })
        } else {
            None
        },
        _ => None,
    }
}

/// The earliest of the first `m` steps that sends work astray.
pub open spec fn first_stray(
    steps: Seq<SubsetStep>,
    n: nat,
    subset_size: nat,
    m: nat,
) -> Option<SubsetFault>
    decreases m,
{
    if m == 0 {
        None
    } else {
        match first_stray(steps, n, subset_size, (m - 1) as nat) {
            Some(fault) => Some(fault),
            None => stray_fault(steps, n, subset_size, m - 1),
        }
    }
}

/// The fault for which dispatches do not follow the split into subsets, if any.
pub open spec fn disjoint_fault(
    steps: Seq<SubsetStep>,
    n: nat,
    subset_size: nat,
) -> Option<SubsetFault> {
    let saw = dispatching(steps).len();
    if saw == 0 {
        Some(SubsetFault::NoDispatch)
    } else if saw != subset_count(n, subset_size) {
        Some(
            SubsetFault::LbCount {
                expected: subset_count(n, subset_size) as usize,
                saw: saw as usize,
            },
        )
    } else {
        first_stray(steps, n, subset_size, steps.len())
    }
}

/// The earliest of the first `m` steps that dispatches what its balancer never enqueued.
pub open spec fn first_unqueued(steps: Seq<SubsetStep>, m: nat) -> Option<SubsetFault>
    decreases m,
{
    if m == 0 {
        None
    } else {
        match first_unqueued(steps, (m - 1) as nat) {
            Some(fault) => Some(fault),
            None => match steps[m - 1] {
                SubsetStep::Dispatched { lb, id, .. } if !was_enqueued(steps.take(m - 1), lb, id) =>
                    Some(SubsetFault::NotEnqueued { lb, id }),
                _ => None,
            },
        }
    }
}

/// The fault for which a trace does not show one shared balancer per subset, if any.
pub open spec fn per_subset_fault(
    steps: Seq<SubsetStep>,
    n: nat,
    subset_size: nat,
) -> Option<SubsetFault> {
    match disjoint_fault(steps, n, subset_size) {
        Some(fault) => Some(fault),
        None => match first_unqueued(steps, steps.len()) {
            Some(fault) => Some(fault),
            None => if enqueueing(steps).len() != subset_count(n, subset_size) {
                Some(
                    SubsetFault::EnqueueCount {
                        expected: subset_count(n, subset_size) as usize,
                        saw: enqueueing(steps).len() as usize,
                    },
                )
            } else {
                None
            },
        },
    }
}

proof fn lemma_first_stray_final(
    steps: Seq<SubsetStep>,
    n: nat,
    subset_size: nat,
    m: nat,
    end: nat,
)
    requires
        m <= end,
        first_stray(steps, n, subset_size, m) is Some,
    ensures
        first_stray(steps, n, subset_size, end) == first_stray(steps, n, subset_size, m),
    decreases end,
{
    if m < end {
        lemma_first_stray_final(steps, n, subset_size, m, (end - 1) as nat);
    }
}

proof fn lemma_first_unqueued_final(steps: Seq<SubsetStep>, m: nat, end: nat)
    requires
        m <= end,
        first_unqueued(steps, m) is Some,
    ensures
        first_unqueued(steps, end) == first_unqueued(steps, m),
    decreases end,
{
    if m < end {
        lemma_first_unqueued_final(steps, m, (end - 1) as nat);
    }
}

fn contains_index(items: &Vec<usize>, item: usize) -> (r: bool)
    ensures
        r == items@.contains(item),
{
    let mut i: usize = 0;
    while i < items.len()
        invariant
            i <= items@.len(),
            forall|j: int| 0 <= j < i ==> items@[j] != item,
        decreases items@.len() - i,
    {
        if items[i] == item {
            assert(items@[i as int] == item);
            return true;
        }
        i += 1;
    }
    false
}

fn servers_dispatched(steps: &Vec<SubsetStep>, lb: usize) -> (r: Vec<usize>)
    ensures
        r@ == observed_servers(steps@, lb),
{
    let mut out: Vec<usize> = Vec::new();
    let mut i: usize = 0;
    while i < steps.len()
        invariant
            i <= steps@.len(),
            out@ == observed_servers(steps@.take(i as int), lb),
        decreases steps@.len() - i,
    {
        assert(steps@.take(i + 1).drop_last() =~= steps@.take(i as int));
        if let SubsetStep::Dispatched { lb: by, server, .. } = steps[i] {
            if by == lb && !contains_index(&out, server) {
                out.push(server);
            }
        }
        i += 1;
    }
    assert(steps@.take(i as int) =~= steps@);
    out
}

/// Adds `item` to a list of distinct indices that stands for a set.
fn add_distinct(items: &mut Vec<usize>, item: usize)
    requires
        old(items)@.no_duplicates(),
    ensures
        final(items)@.no_duplicates(),
        final(items)@.to_set() == old(items)@.to_set().insert(item),
{
    if !contains_index(items, item) {
        items.push(item);
        proof {
            let before = old(items)@;
            let after = items@;
            assert forall|x: usize| after.to_set().contains(x) == before.to_set().insert(
                item,
            ).contains(x) by {
                if before.contains(x) {
                    let i = choose|i: int| 0 <= i < before.len() && before[i] == x;
                    assert(after[i] == x);
                }
                if x == item {
                    assert(after[before.len() as int] == x);
                }
            }
            assert(after.to_set() =~= before.to_set().insert(item));
        }
    } else {
        assert(items@.to_set() =~= items@.to_set().insert(item));
    }
}

fn distinct_lbs(steps: &Vec<SubsetStep>, dispatches: bool) -> (r: usize)
    ensures
        r == if dispatches {
            dispatching(steps@).len()
        } else {
            enqueueing(steps@).len()
        },
{
    let mut lbs: Vec<usize> = Vec::new();
    let mut i: usize = 0;
    assert(lbs@.to_set() =~= Set::empty());
    while i < steps.len()
        invariant
            i <= steps@.len(),
            lbs@.no_duplicates(),
            lbs@.to_set() == if dispatches {
                dispatching(steps@.take(i as int))
            } else {
                enqueueing(steps@.take(i as int))
            },
        decreases steps@.len() - i,
    {
        assert(steps@.take(i + 1).drop_last() =~= steps@.take(i as int));
        match steps[i] {
            SubsetStep::Dispatched { lb, .. } => {
                if dispatches {
                    add_distinct(&mut lbs, lb);
                }
            },
            SubsetStep::Enqueued { lb, .. } => {
                if !dispatches {
                    add_distinct(&mut lbs, lb);
                }
            },
        }
        i += 1;
    }
    proof {
        assert(steps@.take(i as int) =~= steps@);
        lbs@.unique_seq_to_set();
    }
    lbs.len()
}

/// Checks that observed dispatch servers per balancer follow the split into subsets.
pub fn check_disjoint(steps: &Vec<SubsetStep>, n: usize, subset_size: u32) -> (r: Option<
    SubsetFault,
>)
    requires
        n > 0 || subset_size > 0,
    ensures
        r == disjoint_fault(steps@, n as nat, subset_size as nat),
        r is None ==> no_shared_server(steps@),
{
    let expected = subset_table(n, subset_size);
    let saw: usize = distinct_lbs(steps, true);
    if saw == 0 {
        return Some(SubsetFault::NoDispatch);
    }
    if saw != expected.len() {
        return Some(SubsetFault::LbCount { expected: expected.len(), saw });
    }
    let mut i: usize = 0;
    while i < steps.len()
        invariant
            i <= steps@.len(),
            saw != 0,
            saw == dispatching(steps@).len() == expected@.len(),
            expected@.len() == subset_count(n as nat, subset_size as nat),
            forall|lb: int|
                0 <= lb < expected@.len() ==> (#[trigger] expected@[lb])@
                    == deterministic_subset_of(n as nat, lb as nat, subset_size as nat),
            forall|a: int, b: int|
                #![trigger expected@[a], expected@[b]]
                0 <= a < expected@.len() && 0 <= b < expected@.len() && a != b ==> disjoint(
                    expected@[a]@,
                    expected@[b]@,
                ),
            first_stray(steps@, n as nat, subset_size as nat, i as nat) is None,
        decreases steps@.len() - i,
    {
        proof {
            if first_stray(steps@, n as nat, subset_size as nat, (i + 1) as nat) is Some {
                lemma_first_stray_final(
                    steps@,
                    n as nat,
                    subset_size as nat,
                    (i + 1) as nat,
                    steps@.len(),
                );
            }
        }
        if let SubsetStep::Dispatched { lb, server, .. } = steps[i] {
            if lb >= expected.len() {
                return Some(SubsetFault::UnexpectedLb { lb });
            }
            if !contains_index(&expected[lb], server) {
                return Some(SubsetFault::OutsideSubset { lb });
            }
        }
        i += 1;
    }
    proof {
        assert forall|i: int, j: int|
            #![trigger steps@[i], steps@[j]]
            0 <= i < steps@.len() && 0 <= j < steps@.len() implies (
        steps@[i] matches SubsetStep::Dispatched { lb: a, server: s, .. } ==> steps@[j]
            matches SubsetStep::Dispatched { lb: b, server: t, .. } ==> a != b ==> s != t) by {
            lemma_no_stray_at(steps@, n as nat, subset_size as nat, steps@.len(), i);
            lemma_no_stray_at(steps@, n as nat, subset_size as nat, steps@.len(), j);
            if let SubsetStep::Dispatched { lb: a, server: s, .. } = steps@[i] {
                if let SubsetStep::Dispatched { lb: b, server: t, .. } = steps@[j] {
                    if a != b {
                        let left = expected@[a as int]@;
                        let right = expected@[b as int]@;
                        assert(disjoint(left, right));
                        let x = choose|x: int| 0 <= x < left.len() && left[x] == s;
                        let y = choose|y: int| 0 <= y < right.len() && right[y] == t;
                        assert(left[x] != right[y]);
                    }
                }
            }
        }
    }
    None
}

proof fn lemma_no_stray_at(steps: Seq<SubsetStep>, n: nat, subset_size: nat, m: nat, i: int)
    requires
        first_stray(steps, n, subset_size, m) is None,
        0 <= i < m,
    ensures
        stray_fault(steps, n, subset_size, i) is None,
    decreases m,
{
    if i < m - 1 {
        lemma_no_stray_at(steps, n, subset_size, (m - 1) as nat, i);
    }
}

fn find_enqueue(steps: &Vec<SubsetStep>, end: usize, lb: usize, id: u64) -> (r: bool)
    requires
        end <= steps@.len(),
    ensures
        r == was_enqueued(steps@.take(end as int), lb, id),
{
    let mut i: usize = 0;
    while i < end
        invariant
            i <= end <= steps@.len(),
            forall|j: int|
                0 <= j < i ==> (#[trigger] steps@[j]) != (SubsetStep::Enqueued { lb, id }),
        decreases end - i,
    {
        if let SubsetStep::Enqueued { lb: by, id: what } = steps[i] {
            if by == lb && what == id {
                assert(steps@.take(end as int)[i as int] == (SubsetStep::Enqueued { lb, id }));
                return true;
            }
        }
        i += 1;
    }
    false
}

/// Checks that every dispatch stays in its subset and follows an enqueue on the same
/// balancer, and that every subset's balancer was used.
pub fn check_per_subset(steps: &Vec<SubsetStep>, n: usize, subset_size: u32) -> (r: Option<
    SubsetFault,
>)
    requires
        n > 0 || subset_size > 0,
    ensures
        r == per_subset_fault(steps@, n as nat, subset_size as nat),
{
    let split = check_disjoint(steps, n, subset_size);
    if split.is_some() {
        return split;
    }
    let mut i: usize = 0;
    while i < steps.len()
        invariant
            i <= steps@.len(),
            disjoint_fault(steps@, n as nat, subset_size as nat) is None,
            first_unqueued(steps@, i as nat) is None,
        decreases steps@.len() - i,
    {
        if let SubsetStep::Dispatched { lb, id, .. } = steps[i] {
            if !find_enqueue(steps, i, lb, id) {
                proof {
                    lemma_first_unqueued_final(steps@, (i + 1) as nat, steps@.len());
                }
                return Some(SubsetFault::NotEnqueued { lb, id });
            }
        }
        i += 1;
    }
    let count: usize = n / subset_size_k(n, subset_size);
    let saw: usize = distinct_lbs(steps, false);
    if saw != count {
        return Some(SubsetFault::EnqueueCount { expected: count, saw });
    }
    None
}

/// A trace passes only if every piece of work went to a server of the subset of the balancer
/// that sent it, and that balancer had queued it before: a single dispatch elsewhere, by a
/// balancer that there is not, or of work that was not queued there, is a fault.
pub proof fn law_accepted_dispatch_stays_in_its_subset(
    steps: Seq<SubsetStep>,
    n: nat,
    size: nat,
    i: int,
    lb: usize,
    server: usize,
    id: u64,
)
    requires
        0 <= i < steps.len(),
        steps[i] == (SubsetStep::Dispatched { lb, server, id }),
    ensures
        disjoint_fault(steps, n, size) is None ==> lb < subset_count(n, size)
            && deterministic_subset_of(n, lb as nat, size).contains(server),
        per_subset_fault(steps, n, size) is None ==> lb < subset_count(n, size)
            && deterministic_subset_of(n, lb as nat, size).contains(server) && exists|j: int|
            0 <= j < i && (#[trigger] steps[j]) == (SubsetStep::Enqueued { lb, id }),
{
    if disjoint_fault(steps, n, size) is None {
        lemma_no_stray(steps, n, size, steps.len(), i);
    }
    if per_subset_fault(steps, n, size) is None {
        lemma_all_queued(steps, steps.len(), i);
        let before = steps.take(i);
        let j = choose|j: int|
            0 <= j < before.len() && (#[trigger] before[j]) == (SubsetStep::Enqueued { lb, id });
        assert(steps[j] == (SubsetStep::Enqueued { lb, id }));
    }
}

proof fn lemma_no_stray(steps: Seq<SubsetStep>, n: nat, size: nat, m: nat, i: int)
    requires
        0 <= i < m <= steps.len(),
        first_stray(steps, n, size, m) is None,
    ensures
        stray_fault(steps, n, size, i) is None,
    decreases m,
{
    if i < m - 1 {
        lemma_no_stray(steps, n, size, (m - 1) as nat, i);
    }
}

proof fn lemma_all_queued(steps: Seq<SubsetStep>, m: nat, i: int)
    requires
        0 <= i < m <= steps.len(),
        first_unqueued(steps, m) is None,
    ensures
        steps[i] matches SubsetStep::Dispatched { lb, id, .. } ==> was_enqueued(
            steps.take(i),
            lb,
            id,
        ),
    decreases m,
{
    if i < m - 1 {
        lemma_all_queued(steps, (m - 1) as nat, i);
    }
}

} // verus!
