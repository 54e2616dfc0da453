//! Load-balancing policies: how each one picks a backend from the loads it sees, and
//! which combinations of policy flags a run accepts.

use crate::rng::{
    after_draw, draw_of, draws_index, random_usize_range, shuffle, shuffles, RunRng,
};
use crate::subset::{indices, SubsetPolicyKind};
use crate::text::{decimal, Text};
use rand::rngs::StdRng;
use vstd::prelude::*;

verus! {

#[derive(Clone, Copy, Debug, PartialEq, Eq, Structural)]
pub enum ApproxSchedKind {
    Fcfs,
    Edf,
    EdfPlus,
}

/// Shared DownstreamBalancer pull-queue discipline for `--lb-policy centralized`.
#[derive(Clone, Copy, Debug, PartialEq, Eq, Structural)]
pub enum CentralizedSchedKind {
    Fcfs,
    Edf,
}

impl Default for CentralizedSchedKind {
    fn default() -> (r: CentralizedSchedKind)
        ensures
            r == CentralizedSchedKind::Fcfs,
    {
        CentralizedSchedKind::Fcfs
    }
}

impl CentralizedSchedKind {
    pub fn uses_edf(self) -> (r: bool)
        ensures
            r == (self is Edf),
    {
        matches!(self, CentralizedSchedKind::Edf)
    }
}

impl ApproxSchedKind {
    /// Outbound balancer queues use EDF insert for `edf` and `edf+`.
    pub fn outbound_uses_edf(self) -> (r: bool)
        ensures
            r == (self is Edf || self is EdfPlus),
    {
        matches!(self, ApproxSchedKind::Edf | ApproxSchedKind::EdfPlus)
    }

    /// Replica pull-intent queues use EDF insert only for `edf+`.
    pub fn intent_queue_uses_edf(self) -> (r: bool)
        ensures
            r == (self is EdfPlus),
    {
        matches!(self, ApproxSchedKind::EdfPlus)
    }

    /// `edf` / `edf+` are only supported by the `ms` simulator.
    pub fn requires_ms(self) -> (r: bool)
        ensures
            r == (self is Edf || self is EdfPlus),
    {
        matches!(self, ApproxSchedKind::Edf | ApproxSchedKind::EdfPlus)
    }
}

/// A rule that picks a backend from the loads of all backends.
pub trait LoadBalancePolicy: Sized {
    /// The policy's own state is consistent.
    spec fn wf(&self) -> bool;

    /// Whether the policy can pick among `n` backends.
    spec fn accepts(&self, n: nat) -> bool;

    /// Whether the policy may pick backend `pick` when it sees `loads`, and be left in
    /// the state `after`, in a run whose generator goes from `from` to `to`.
    spec fn may_select(
        &self,
        loads: Seq<u32>,
        from: Option<StdRng>,
        pick: int,
        after: Self,
        to: Option<StdRng>,
    ) -> bool;

    fn select(&mut self, loads: &[u32], rng: &mut RunRng) -> (r: usize)
        requires
            old(self).wf(),
            old(self).accepts(loads@.len()),
        ensures
            final(self).wf(),
            old(self).may_select(
                loads@,
                old(rng).generator(),
                r as int,
                *final(self),
                final(rng).generator(),
            ),
            loads@.len() > 0 ==> r < loads@.len(),
            final(rng).active() == old(rng).active(),
    ;
}

/// Any backend, whatever its load.
pub struct RandomPolicy;

impl LoadBalancePolicy for RandomPolicy {
    open spec fn wf(&self) -> bool {
        true
    }

    open spec fn accepts(&self, n: nat) -> bool {
        n > 0
    }

    open spec fn may_select(
        &self,
        loads: Seq<u32>,
        from: Option<StdRng>,
        pick: int,
        after: RandomPolicy,
        to: Option<StdRng>,
    ) -> bool {
        exists|r: usize| #[trigger]
            draws_index(from, 0, loads.len() as usize, r, to) && pick == r
    }

    fn select(&mut self, loads: &[u32], rng: &mut RunRng) -> (r: usize) {
        let r: usize = random_usize_range(rng, 0..loads.len());
        assert(draws_index(
            old(rng).generator(),
            0,
            loads@.len() as usize,
            r,
            rng.generator(),
        ));
        r
    }
}

/// Of two backends, the one with the lower load; the first if both are equally loaded.
pub open spec fn lighter(loads: Seq<u32>, i: usize, j: usize) -> usize {
    if loads[i as int] <= loads[j as int] {
        i
    } else {
        j
    }
}

/// Of two backends drawn with replacement, the one with the lower load; the first drawn
/// if both are equally loaded.
pub fn lighter_of(loads: &[u32], i: usize, j: usize) -> (r: usize)
    requires
        i < loads@.len(),
        j < loads@.len(),
    ensures
        r == lighter(loads@, i, j),
{
    if loads[i] <= loads[j] {
        i
    } else {
        j
    }
}

/// The lighter of two backends drawn at random.
pub struct PowerOfTwoPolicy;

impl LoadBalancePolicy for PowerOfTwoPolicy {
    open spec fn wf(&self) -> bool {
        true
    }

    open spec fn accepts(&self, n: nat) -> bool {
        true
    }

    open spec fn may_select(
        &self,
        loads: Seq<u32>,
        from: Option<StdRng>,
        pick: int,
        after: PowerOfTwoPolicy,
        to: Option<StdRng>,
    ) -> bool {
        if loads.len() <= 1 {
            pick == 0 && to == from
        } else {
            let n = loads.len() as usize;
            exists|i: usize, j: usize, between: Option<StdRng>|
                {
                    &&& #[trigger] draws_index(from, 0, n, i, between)
                    &&& #[trigger] draws_index(between, 0, n, j, to)
                    &&& pick == lighter(loads, i, j)
                }
        }
    }

    fn select(&mut self, loads: &[u32], rng: &mut RunRng) -> (r: usize) {
        let n: usize = loads.len();
        if n <= 1 {
            return 0;
        }
        let i: usize = random_usize_range(rng, 0..n);
        let ghost between = rng.generator();
        let j: usize = random_usize_range(rng, 0..n);
        assert(n == loads@.len() as usize);
        assert(draws_index(old(rng).generator(), 0, n, i, between));
        assert(draws_index(between, 0, n, j, rng.generator()));
        lighter_of(loads, i, j)
    }
}

/// The backends in turn, in an order shuffled when the number of backends changes.
pub struct RoundRobinPolicy {
    order: Vec<usize>,
    next: usize,
}

impl RoundRobinPolicy {
    /// The order in which backends take turns; empty before the first pick.
    pub closed spec fn order(&self) -> Seq<usize> {
        self.order@
    }

    /// The position in the order that is next.
    pub closed spec fn next(&self) -> nat {
        self.next as nat
    }

    pub fn new() -> (r: RoundRobinPolicy)
        ensures
            r.wf(),
            r.order().len() == 0,
            r.next() == 0,
    {
        RoundRobinPolicy { order: Vec::new(), next: 0 }
    }

    fn ensure_order(&mut self, n: usize, rng: &mut RunRng)
        requires
            old(self).wf(),
            n > 0,
        ensures
            final(self).wf(),
            final(self).order().len() == n,
            old(self).order().len() == n ==> *final(self) == *old(self) && final(rng).generator()
                == old(rng).generator(),
            old(self).order().len() != n ==> final(self).next() == 0 && shuffles(
                old(rng).generator(),
                indices(n as nat),
                final(self).order(),
                final(rng).generator(),
            ),
    {
        if self.order.len() != n {
            let mut order: Vec<usize> = Vec::new();
            let mut i: usize = 0;
            while i < n
                invariant
                    i <= n,
                    order@ == indices(i as nat),
                decreases n - i,
            {
                order.push(i);
                i += 1;
                assert(order@ =~= indices(i as nat));
            }
            shuffle(rng, &mut order);
            proof {
                order@.to_multiset_ensures();
                indices(n as nat).to_multiset_ensures();
                crate::subset::lemma_arrangement_of_indices(order@, n);
            }
            self.order = order;
            self.next = 0;
        }
    }
}

impl LoadBalancePolicy for RoundRobinPolicy {
    /// The order holds each backend once, and the next turn is within it.
    closed spec fn wf(&self) -> bool {
        &&& crate::subset::distinct_below(self.order@, self.order@.len())
        &&& self.order@.len() > 0 ==> self.next < self.order@.len()
    }

    open spec fn accepts(&self, n: nat) -> bool {
        true
    }

    open spec fn may_select(
        &self,
        loads: Seq<u32>,
        from: Option<StdRng>,
        pick: int,
        after: RoundRobinPolicy,
        to: Option<StdRng>,
    ) -> bool {
        if loads.len() == 0 {
            pick == 0 && after == *self && to == from
        } else {
            let at = if self.order().len() == loads.len() {
                self.next()
            } else {
                0
            };
            &&& after.order().len() == loads.len()
            &&& if self.order().len() == loads.len() {
                after.order() == self.order() && to == from
            } else {
                shuffles(from, indices(loads.len()), after.order(), to)
            }
            &&& pick == after.order()[at as int]
            &&& after.next() == (at + 1) % loads.len()
        }
    }

    fn select(&mut self, loads: &[u32], rng: &mut RunRng) -> (r: usize) {
        let n: usize = loads.len();
        if n == 0 {
            return 0;
        }
        self.ensure_order(n, rng);
        let pick: usize = self.order[self.next];
        let following: usize = if self.next + 1 == n {
            0
        } else {
            self.next + 1
        };
        proof {
            if self.next + 1 == n {
                vstd::arithmetic::div_mod::lemma_mod_self_0(n as int);
            } else {
                vstd::arithmetic::div_mod::lemma_small_mod((self.next + 1) as nat, n as nat);
            }
        }
        self.next = following;
        pick
    }
}

/// The pick that round robin makes `k` turns from now, while the number of backends
/// stays the same.
pub open spec fn turn(order: Seq<usize>, next: nat, k: nat) -> usize {
    order[((next + k) % order.len()) as int]
}

/// Over as many turns as there are backends, round robin picks every backend exactly
/// once: no two turns fall on the same backend.
pub proof fn law_round_robin_serves_each_once(policy: RoundRobinPolicy, i: nat, j: nat)
    requires
        policy.wf(),
        i < j < policy.order().len(),
    ensures
        turn(policy.order(), policy.next(), i) != turn(policy.order(), policy.next(), j),
{
    let n = policy.order().len();
    let next = policy.next();
    let a = (next + i) as int;
    let b = (next + j) as int;
    vstd::arithmetic::div_mod::lemma_mod_bound(a, n as int);
    vstd::arithmetic::div_mod::lemma_mod_bound(b, n as int);
    assert(a % n as int != b % n as int) by {
        vstd::arithmetic::div_mod::lemma_fundamental_div_mod(a, n as int);
        vstd::arithmetic::div_mod::lemma_fundamental_div_mod(b, n as int);
        if a % n as int == b % n as int {
            let qa = a / n as int;
            let qb = b / n as int;
            assert(b - a == n as int * qb - n as int * qa);
            assert(b - a == n as int * (qb - qa)) by (nonlinear_arith)
                requires
                    b - a == n as int * qb - n as int * qa,
            ;
            assert(qb - qa >= 1 || qb - qa <= 0);
            assert(false) by (nonlinear_arith)
                requires
                    b - a == n as int * (qb - qa),
                    0 < b - a < n,
            ;
        }
    }
}

/// A pick of round robin and the state it leaves behind are the first turn and the
/// remaining turns of the state before.
pub proof fn law_round_robin_takes_turns(
    policy: RoundRobinPolicy,
    loads: Seq<u32>,
    from: Option<StdRng>,
    pick: int,
    after: RoundRobinPolicy,
    to: Option<StdRng>,
    k: nat,
)
    requires
        policy.wf(),
        policy.order().len() == loads.len(),
        loads.len() > 0,
        policy.may_select(loads, from, pick, after, to),
    ensures
        pick == turn(policy.order(), policy.next(), 0),
        turn(after.order(), after.next(), k) == turn(policy.order(), policy.next(), k + 1),
{
    let n = loads.len();
    let next = policy.next();
    vstd::arithmetic::div_mod::lemma_small_mod(next, n);
    vstd::arithmetic::div_mod::lemma_add_mod_noop((next + 1) as int, k as int, n as int);
    vstd::arithmetic::div_mod::lemma_add_mod_noop(
        ((next + 1) % n) as int,
        k as int,
        n as int,
    );
    vstd::arithmetic::div_mod::lemma_mod_twice((next + 1) as int, n as int);
    assert(((next + 1) % n + k) % n == (next + 1 + k) % n);
}

/// No backend is loaded less than backend `i`.
pub open spec fn is_lightest(loads: Seq<u32>, i: int) -> bool {
    &&& 0 <= i < loads.len()
    &&& forall|j: int| 0 <= j < loads.len() ==> loads[i] <= #[trigger] loads[j]
}

/// `tied` holds the backends tied for the lowest load, in ascending order.
pub open spec fn are_lightest(loads: Seq<u32>, tied: Seq<usize>) -> bool {
    &&& forall|a: int| 0 <= a < tied.len() ==> is_lightest(loads, #[trigger] tied[a] as int)
    &&& forall|i: int| #[trigger] is_lightest(loads, i) ==> tied.contains(i as usize)
    &&& forall|a: int, b: int| 0 <= a < b < tied.len() ==> tied[a] < tied[b]
}

/// The backends tied for the lowest load, in ascending order.
pub fn lightest(loads: &[u32]) -> (r: Vec<usize>)
    ensures
        are_lightest(loads@, r@),
        loads@.len() > 0 ==> r@.len() > 0,
{
    let mut tied: Vec<usize> = Vec::new();
    let mut i: usize = 0;
    while i < loads.len()
        invariant
            i <= loads@.len(),
            i > 0 ==> tied@.len() > 0,
            forall|a: int, b: int| 0 <= a < b < tied@.len() ==> tied@[a] < tied@[b],
            forall|a: int| 0 <= a < tied@.len() ==> is_lightest(
                loads@.take(i as int),
                #[trigger] tied@[a] as int,
            ),
            forall|a: int| is_lightest(loads@.take(i as int), a) ==> tied@.contains(a as usize),
        decreases loads@.len() - i,
    {
        let ghost seen = loads@.take(i as int);
        let ghost before = tied@;
        let load: u32 = loads[i];
        proof {
            assert(loads@.take(i + 1) =~= seen.push(load));
        }
        if tied.len() == 0 || load < loads[tied[0]] {
            tied.clear();
            tied.push(i);
            proof {
                let now = loads@.take(i + 1);
                assert(is_lightest(now, i as int)) by {
                    assert forall|j: int| 0 <= j < now.len() implies now[i as int]
                        <= #[trigger] now[j] by {
                        if j < i {
                            assert(is_lightest(seen, before[0] as int));
                            assert(seen[before[0] as int] <= seen[j]);
                        }
                    }
                }
                assert(tied@[0] == i);
                assert forall|a: int| is_lightest(now, a) implies tied@.contains(a as usize) by {
                    if a < i {
                        assert(now[a] <= now[i as int]);
                        assert(seen[before[0] as int] <= seen[a]);
                    }
                }
            }
        } else if load == loads[tied[0]] {
            tied.push(i);
            proof {
                let now = loads@.take(i + 1);
                assert(is_lightest(seen, before[0] as int));
                assert forall|a: int| 0 <= a < tied@.len() implies is_lightest(
                    now,
                    #[trigger] tied@[a] as int,
                ) by {
                    if a < before.len() {
                        assert(tied@[a] == before[a]);
                        assert(is_lightest(seen, before[a] as int));
                        assert(seen[before[a] as int] <= seen[before[0] as int]);
                        assert forall|j: int| 0 <= j < now.len() implies now[before[a] as int]
                            <= #[trigger] now[j] by {
                            if j < i {
                                assert(seen[before[a] as int] <= seen[j]);
                            }
                        }
                    } else {
                        assert forall|j: int| 0 <= j < now.len() implies now[i as int]
                            <= #[trigger] now[j] by {
                            if j < i {
                                assert(seen[before[0] as int] <= seen[j]);
                            }
                        }
                    }
                }
                assert forall|a: int| is_lightest(now, a) implies tied@.contains(a as usize) by {
                    if a < i {
                        assert forall|j: int| 0 <= j < seen.len() implies seen[a]
                            <= #[trigger] seen[j] by {
                            assert(now[a] <= now[j]);
                        }
                        assert(is_lightest(seen, a));
                        let x = choose|x: int| 0 <= x < before.len() && before[x] == a as usize;
                        assert(tied@[x] == a as usize);
                    } else {
                        assert(tied@[before.len() as int] == a as usize);
                    }
                }
                assert forall|a: int, b: int| 0 <= a < b < tied@.len() implies tied@[a]
                    < tied@[b] by {
                    assert(is_lightest(seen, before[a] as int));
                }
            }
        } else {
            proof {
                let now = loads@.take(i + 1);
                assert(is_lightest(seen, before[0] as int));
                assert forall|a: int| 0 <= a < tied@.len() implies is_lightest(
                    now,
                    #[trigger] tied@[a] as int,
                ) by {
                    assert(is_lightest(seen, before[a] as int));
                    assert(seen[before[a] as int] <= seen[before[0] as int]);
                    assert forall|j: int| 0 <= j < now.len() implies now[before[a] as int]
                        <= #[trigger] now[j] by {
                        if j < i {
                            assert(seen[before[a] as int] <= seen[j]);
                        }
                    }
                }
                assert forall|a: int| is_lightest(now, a) implies tied@.contains(a as usize) by {
                    assert(now[a] <= now[before[0] as int]);
                    assert(a < i);
                    assert forall|j: int| 0 <= j < seen.len() implies seen[a]
                        <= #[trigger] seen[j] by {
                        assert(now[a] <= now[j]);
                    }
                    assert(is_lightest(seen, a));
                }
            }
        }
        i += 1;
    }
    proof {
        assert(loads@.take(i as int) =~= loads@);
    }
    tied
}

/// One of the least loaded backends, drawn at random among the tied ones.
pub struct LeastRequestPolicy;

impl LoadBalancePolicy for LeastRequestPolicy {
    open spec fn wf(&self) -> bool {
        true
    }

    open spec fn accepts(&self, n: nat) -> bool {
        true
    }

    open spec fn may_select(
        &self,
        loads: Seq<u32>,
        from: Option<StdRng>,
        pick: int,
        after: LeastRequestPolicy,
        to: Option<StdRng>,
    ) -> bool {
        if loads.len() == 0 {
            pick == 0 && to == from
        } else {
            &&& is_lightest(loads, pick)
            &&& exists|tied: Seq<usize>, at: usize|
                {
                    &&& #[trigger] are_lightest(loads, tied)
                    &&& #[trigger] draws_index(from, 0, tied.len() as usize, at, to)
                    &&& pick == tied[at as int]
                }
        }
    }

    fn select(&mut self, loads: &[u32], rng: &mut RunRng) -> (r: usize) {
        if loads.len() == 0 {
            return 0;
        }
        let tied = lightest(loads);
        let at: usize = random_usize_range(rng, 0..tied.len());
        assert(is_lightest(loads@, tied@[at as int] as int));
        assert(draws_index(
            old(rng).generator(),
            0,
            tied@.len() as usize,
            at,
            rng.generator(),
        ));
        tied[at]
    }
}

/// Placeholder for pull-based balancing: always backend 0.
pub struct CentralizedPolicy;

impl LoadBalancePolicy for CentralizedPolicy {
    open spec fn wf(&self) -> bool {
        true
    }

    open spec fn accepts(&self, n: nat) -> bool {
        true
    }

    open spec fn may_select(
        &self,
        loads: Seq<u32>,
        from: Option<StdRng>,
        pick: int,
        after: CentralizedPolicy,
        to: Option<StdRng>,
    ) -> bool {
        pick == 0 && to == from
    }

    fn select(&mut self, loads: &[u32], rng: &mut RunRng) -> (r: usize) {
        0
    }
}

/// Placeholder for pull-intent balancing: always backend 0.
pub struct ApproxPolicy;

impl LoadBalancePolicy for ApproxPolicy {
    open spec fn wf(&self) -> bool {
        true
    }

    open spec fn accepts(&self, n: nat) -> bool {
        true
    }

    open spec fn may_select(
        &self,
        loads: Seq<u32>,
        from: Option<StdRng>,
        pick: int,
        after: ApproxPolicy,
        to: Option<StdRng>,
    ) -> bool {
        pick == 0 && to == from
    }

    fn select(&mut self, loads: &[u32], rng: &mut RunRng) -> (r: usize) {
        0
    }
}

/// Placeholder for probing balancing: always backend 0.
pub struct PrequalPolicy;

impl LoadBalancePolicy for PrequalPolicy {
    open spec fn wf(&self) -> bool {
        true
    }

    open spec fn accepts(&self, n: nat) -> bool {
        true
    }

    open spec fn may_select(
        &self,
        loads: Seq<u32>,
        from: Option<StdRng>,
        pick: int,
        after: PrequalPolicy,
        to: Option<StdRng>,
    ) -> bool {
        pick == 0 && to == from
    }

    fn select(&mut self, loads: &[u32], rng: &mut RunRng) -> (r: usize) {
        0
    }
}

/// One of the policies.
pub enum AnyPolicy {
    Random(RandomPolicy),
    PowerOfTwo(PowerOfTwoPolicy),
    RoundRobin(RoundRobinPolicy),
    LeastRequest(LeastRequestPolicy),
    Centralized(CentralizedPolicy),
    Approx(ApproxPolicy),
    Prequal(PrequalPolicy),
}

impl AnyPolicy {
    /// A policy that has made no pick yet.
    pub open spec fn is_fresh(&self) -> bool {
        &&& self.wf()
        &&& self matches AnyPolicy::RoundRobin(p) ==> p.order().len() == 0 && p.next() == 0
    }

    /// The same policy, with the same turns to come.
    pub open spec fn alike(self, other: AnyPolicy) -> bool {
        match (self, other) {
            (AnyPolicy::Random(_), AnyPolicy::Random(_)) => true,
            (AnyPolicy::PowerOfTwo(_), AnyPolicy::PowerOfTwo(_)) => true,
            (AnyPolicy::RoundRobin(p), AnyPolicy::RoundRobin(q)) => p.order() == q.order()
                && p.next() == q.next(),
            (AnyPolicy::LeastRequest(_), AnyPolicy::LeastRequest(_)) => true,
            (AnyPolicy::Centralized(_), AnyPolicy::Centralized(_)) => true,
            (AnyPolicy::Approx(_), AnyPolicy::Approx(_)) => true,
            (AnyPolicy::Prequal(_), AnyPolicy::Prequal(_)) => true,
            _ => false,
        }
    }
}

impl LoadBalancePolicy for AnyPolicy {
    open spec fn wf(&self) -> bool {
        self matches AnyPolicy::RoundRobin(p) ==> p.wf()
    }

    open spec fn accepts(&self, n: nat) -> bool {
        self matches AnyPolicy::Random(p) ==> p.accepts(n)
    }

    open spec fn may_select(
        &self,
        loads: Seq<u32>,
        from: Option<StdRng>,
        pick: int,
        after: AnyPolicy,
        to: Option<StdRng>,
    ) -> bool {
        match self {
            AnyPolicy::Random(p) => after matches AnyPolicy::Random(q) && p.may_select(
                loads,
                from,
                pick,
                q,
                to,
            ),
            AnyPolicy::PowerOfTwo(p) => after matches AnyPolicy::PowerOfTwo(q) && p.may_select(
                loads,
                from,
                pick,
                q,
                to,
            ),
            AnyPolicy::RoundRobin(p) => after matches AnyPolicy::RoundRobin(q) && p.may_select(
                loads,
                from,
                pick,
                q,
                to,
            ),
            AnyPolicy::LeastRequest(p) => after matches AnyPolicy::LeastRequest(q) && p.may_select(
                loads,
                from,
                pick,
                q,
                to,
            ),
            AnyPolicy::Centralized(p) => after matches AnyPolicy::Centralized(q) && p.may_select(
                loads,
                from,
                pick,
                q,
                to,
            ),
            AnyPolicy::Approx(p) => after matches AnyPolicy::Approx(q) && p.may_select(
                loads,
                from,
                pick,
                q,
                to,
            ),
            AnyPolicy::Prequal(p) => after matches AnyPolicy::Prequal(q) && p.may_select(
                loads,
                from,
                pick,
                q,
                to,
            ),
        }
    }

    fn select(&mut self, loads: &[u32], rng: &mut RunRng) -> (r: usize) {
        match self {
            AnyPolicy::Random(p) => p.select(loads, rng),
            AnyPolicy::PowerOfTwo(p) => p.select(loads, rng),
            AnyPolicy::RoundRobin(p) => p.select(loads, rng),
            AnyPolicy::LeastRequest(p) => p.select(loads, rng),
            AnyPolicy::Centralized(p) => p.select(loads, rng),
            AnyPolicy::Approx(p) => p.select(loads, rng),
            AnyPolicy::Prequal(p) => p.select(loads, rng),
        }
    }
}

#[derive(Clone, Copy, Debug, PartialEq, Eq, Structural)]
pub enum PullPolicyKind {
    Random,
    PowerOfTwo,
    RoundRobin,
    LeastRequest,
}

impl PullPolicyKind {
    /// `policy` is the one that picks where a pull intent goes, before its first pick.
    pub open spec fn builds(self, policy: AnyPolicy) -> bool {
        &&& policy.is_fresh()
        &&& match self {
            PullPolicyKind::Random => policy is Random,
            PullPolicyKind::PowerOfTwo => policy is PowerOfTwo,
            PullPolicyKind::RoundRobin => policy is RoundRobin,
            PullPolicyKind::LeastRequest => policy is LeastRequest,
        }
    }

    /// The policy that picks where a pull intent goes.
    pub fn build(self) -> (r: AnyPolicy)
        ensures
            self.builds(r),
    {
        match self {
            PullPolicyKind::Random => LoadBalancePolicyKind::Random.build(),
            PullPolicyKind::PowerOfTwo => LoadBalancePolicyKind::PowerOfTwo.build(),
            PullPolicyKind::RoundRobin => LoadBalancePolicyKind::RoundRobin.build(),
            PullPolicyKind::LeastRequest => LoadBalancePolicyKind::LeastRequest.build(),
        }
    }
}

#[derive(Clone, Copy, Debug, PartialEq, Eq, Structural)]
pub enum LoadBalancePolicyKind {
    Random,
    PowerOfTwo,
    RoundRobin,
    LeastRequest,
    Centralized,
    Jbsq,
    Approx,
    ApproxShare,
    Prequal,
    Cl,
    ClLr,
    ClR,
    ClRr,
    Corr,
}

impl LoadBalancePolicyKind {
    /// Balanced through one queue that servers pull from.
    pub open spec fn pulls_centrally(self) -> bool {
        self is Centralized || self is Jbsq
    }

    /// Balanced through pull intents.
    pub open spec fn sends_intents(self) -> bool {
        self is Approx || self is ApproxShare
    }

    /// One of the policies whose downstream tier shares a balancer and pushes.
    pub open spec fn is_cl_family(self) -> bool {
        self is Cl || self is ClLr || self is ClR || self is ClRr
    }

    /// `policy` is the policy itself, before its first pick.
    pub open spec fn builds(self, policy: AnyPolicy) -> bool {
        &&& policy.is_fresh()
        &&& match self {
            LoadBalancePolicyKind::Random => policy is Random,
            LoadBalancePolicyKind::PowerOfTwo => policy is PowerOfTwo,
            LoadBalancePolicyKind::RoundRobin => policy is RoundRobin,
            LoadBalancePolicyKind::LeastRequest => policy is LeastRequest,
            LoadBalancePolicyKind::Centralized => policy is Centralized,
            LoadBalancePolicyKind::Jbsq => policy is Centralized,
            LoadBalancePolicyKind::Approx => policy is Approx,
            LoadBalancePolicyKind::ApproxShare => policy is Approx,
            LoadBalancePolicyKind::Prequal => policy is Prequal,
            _ => policy is PowerOfTwo,
        }
    }

    /// `policy` is that of the tier that users enter by, before its first pick.
    pub open spec fn enters_by(self, policy: AnyPolicy) -> bool {
        &&& policy.is_fresh()
        &&& match self {
            LoadBalancePolicyKind::Random => policy is Random,
            LoadBalancePolicyKind::RoundRobin => policy is RoundRobin,
            LoadBalancePolicyKind::LeastRequest => policy is LeastRequest,
            _ => policy is PowerOfTwo,
        }
    }

    /// `policy` is that of a shared downstream balancer that pushes, before its first pick.
    pub open spec fn pushes_downstream_by(self, policy: AnyPolicy) -> bool {
        &&& policy.is_fresh()
        &&& match self {
            LoadBalancePolicyKind::ClLr => policy is LeastRequest,
            LoadBalancePolicyKind::ClR => policy is Random,
            LoadBalancePolicyKind::ClRr => policy is RoundRobin,
            _ => policy is PowerOfTwo,
        }
    }

    /// The policy itself.
    pub fn build(self) -> (r: AnyPolicy)
        ensures
            self.builds(r),
    {
        match self {
            LoadBalancePolicyKind::Random => AnyPolicy::Random(RandomPolicy),
            LoadBalancePolicyKind::PowerOfTwo => AnyPolicy::PowerOfTwo(PowerOfTwoPolicy),
            LoadBalancePolicyKind::RoundRobin => AnyPolicy::RoundRobin(RoundRobinPolicy::new()),
            LoadBalancePolicyKind::LeastRequest => AnyPolicy::LeastRequest(LeastRequestPolicy),
            LoadBalancePolicyKind::Centralized | LoadBalancePolicyKind::Jbsq =>
                AnyPolicy::Centralized(CentralizedPolicy),
            LoadBalancePolicyKind::Approx | LoadBalancePolicyKind::ApproxShare => AnyPolicy::Approx(
                ApproxPolicy,
            ),
            LoadBalancePolicyKind::Prequal => AnyPolicy::Prequal(PrequalPolicy),
            LoadBalancePolicyKind::Cl
            | LoadBalancePolicyKind::ClLr
            | LoadBalancePolicyKind::ClR
            | LoadBalancePolicyKind::ClRr
            | LoadBalancePolicyKind::Corr => AnyPolicy::PowerOfTwo(PowerOfTwoPolicy),
        }
    }

    pub fn is_centralized(self) -> (r: bool)
        ensures
            r == (self is Centralized),
    {
        matches!(self, LoadBalancePolicyKind::Centralized)
    }

    pub fn is_jbsq(self) -> (r: bool)
        ensures
            r == (self is Jbsq),
    {
        matches!(self, LoadBalancePolicyKind::Jbsq)
    }

    /// Shared DownstreamBalancer pull queue (centralized or jbsq).
    pub fn uses_central_pull_queue(self) -> (r: bool)
        ensures
            r == self.pulls_centrally(),
    {
        matches!(self, LoadBalancePolicyKind::Centralized | LoadBalancePolicyKind::Jbsq)
    }

    pub fn is_approx(self) -> (r: bool)
        ensures
            r == (self is Approx),
    {
        matches!(self, LoadBalancePolicyKind::Approx)
    }

    pub fn is_approx_share(self) -> (r: bool)
        ensures
            r == (self is ApproxShare),
    {
        matches!(self, LoadBalancePolicyKind::ApproxShare)
    }

    /// Approx pull-intent protocol (decentralized or shared-sidecar).
    pub fn uses_approx_protocol(self) -> (r: bool)
        ensures
            r == self.sends_intents(),
    {
        matches!(self, LoadBalancePolicyKind::Approx | LoadBalancePolicyKind::ApproxShare)
    }

    pub fn is_prequal(self) -> (r: bool)
        ensures
            r == (self is Prequal),
    {
        matches!(self, LoadBalancePolicyKind::Prequal)
    }

    pub fn is_pull_based(self) -> (r: bool)
        ensures
            r == (self.pulls_centrally() || self.sends_intents()),
    {
        matches!(
            self,
            LoadBalancePolicyKind::Centralized | LoadBalancePolicyKind::Jbsq
                | LoadBalancePolicyKind::Approx | LoadBalancePolicyKind::ApproxShare
        )
    }

    pub fn is_cl(self) -> (r: bool)
        ensures
            r == (self is Cl),
    {
        matches!(self, LoadBalancePolicyKind::Cl)
    }

    pub fn is_corr(self) -> (r: bool)
        ensures
            r == (self is Corr),
    {
        matches!(self, LoadBalancePolicyKind::Corr)
    }

    pub fn is_ms_only(self) -> (r: bool)
        ensures
            r == (self.is_cl_family() || self is Corr || self is ApproxShare || self is Jbsq),
    {
        matches!(
            self,
            LoadBalancePolicyKind::Cl | LoadBalancePolicyKind::ClLr | LoadBalancePolicyKind::ClR
                | LoadBalancePolicyKind::ClRr | LoadBalancePolicyKind::Corr
                | LoadBalancePolicyKind::ApproxShare | LoadBalancePolicyKind::Jbsq
        )
    }

    pub fn uses_shared_downstream(self) -> (r: bool)
        ensures
            r == (self.is_cl_family() || self.pulls_centrally() || self is Corr),
    {
        matches!(
            self,
            LoadBalancePolicyKind::Cl | LoadBalancePolicyKind::ClLr | LoadBalancePolicyKind::ClR
                | LoadBalancePolicyKind::ClRr | LoadBalancePolicyKind::Centralized
                | LoadBalancePolicyKind::Jbsq | LoadBalancePolicyKind::Corr
        )
    }

    /// The policy of the tier that users enter by: a push policy keeps itself, every
    /// other one enters by the power of two choices.
    pub fn ingress_policy(self) -> (r: AnyPolicy)
        ensures
            self.enters_by(r),
    {
        match self {
            LoadBalancePolicyKind::Cl
            | LoadBalancePolicyKind::ClLr
            | LoadBalancePolicyKind::ClR
            | LoadBalancePolicyKind::ClRr
            | LoadBalancePolicyKind::Centralized
            | LoadBalancePolicyKind::Jbsq
            | LoadBalancePolicyKind::Corr
            | LoadBalancePolicyKind::Approx
            | LoadBalancePolicyKind::ApproxShare
            | LoadBalancePolicyKind::Prequal => AnyPolicy::PowerOfTwo(PowerOfTwoPolicy),
            other => other.build(),
        }
    }

    /// The policy of a shared downstream balancer that pushes.
    pub fn downstream_push_policy(self) -> (r: AnyPolicy)
        ensures
            self.pushes_downstream_by(r),
    {
        match self {
            LoadBalancePolicyKind::ClLr => AnyPolicy::LeastRequest(LeastRequestPolicy),
            LoadBalancePolicyKind::ClR => AnyPolicy::Random(RandomPolicy),
            LoadBalancePolicyKind::ClRr => AnyPolicy::RoundRobin(RoundRobinPolicy::new()),
            _ => AnyPolicy::PowerOfTwo(PowerOfTwoPolicy),
        }
    }
}

/// The policies that are built for one kind are alike. A kind that no balancer picks by
/// always gives the first backend and draws nothing; the kinds of a shared downstream tier
/// are built as the power of two choices.
pub proof fn law_kinds_build_alike(
    kind: LoadBalancePolicyKind,
    p: AnyPolicy,
    q: AnyPolicy,
    loads: Seq<u32>,
    from: Option<StdRng>,
    pick: int,
    after: AnyPolicy,
    to: Option<StdRng>,
)
    requires
        kind.builds(p),
    ensures
        kind.builds(q) ==> p.alike(q),
        (kind.is_cl_family() || kind is Corr) && LoadBalancePolicyKind::PowerOfTwo.builds(q)
            ==> p.alike(q),
        (kind.pulls_centrally() || kind.sends_intents() || kind is Prequal) && p.may_select(
            loads,
            from,
            pick,
            after,
            to,
        ) ==> pick == 0 && to == from && after.alike(p),
        kind is LeastRequest && loads.len() > 0 && p.may_select(loads, from, pick, after, to)
            ==> is_lightest(loads, pick),
{
    lemma_empty_orders(p, q);
}

/// Users enter by the policy itself where it pushes, and by the power of two choices
/// everywhere else.
pub proof fn law_ingress_pushes(kind: LoadBalancePolicyKind, p: AnyPolicy, q: AnyPolicy)
    requires
        kind.enters_by(p),
    ensures
        (kind is Random || kind is PowerOfTwo || kind is RoundRobin || kind is LeastRequest)
            && kind.builds(q) ==> p.alike(q),
        !(kind is Random || kind is PowerOfTwo || kind is RoundRobin || kind is LeastRequest)
            && LoadBalancePolicyKind::PowerOfTwo.builds(q) ==> p.alike(q),
{
    lemma_empty_orders(p, q);
}

proof fn lemma_empty_orders(p: AnyPolicy, q: AnyPolicy)
    ensures
        p.is_fresh() && q.is_fresh() ==> match (p, q) {
            (AnyPolicy::RoundRobin(a), AnyPolicy::RoundRobin(b)) => a.order() == b.order(),
            _ => true,
        },
{
    match (p, q) {
        (AnyPolicy::RoundRobin(a), AnyPolicy::RoundRobin(b)) => {
            if a.order().len() == 0 && b.order().len() == 0 {
                assert(a.order() =~= b.order());
            }
        },
        _ => {},
    }
}

/// Two ascending lists of the same numbers are one list.
pub proof fn lemma_ascending_unique(a: Seq<int>, b: Seq<int>)
    requires
        forall|i: int, j: int| 0 <= i < j < a.len() ==> a[i] < a[j],
        forall|i: int, j: int| 0 <= i < j < b.len() ==> b[i] < b[j],
        forall|x: int| #[trigger] a.contains(x) <==> b.contains(x),
    ensures
        a == b,
    decreases a.len(),
{
    if a.len() == 0 {
        if b.len() > 0 {
            assert(b.contains(b[0]));
            assert(a.contains(b[0]));
        }
        assert(a =~= b);
    } else {
        assert(a.contains(a[0]));
        assert(b.len() > 0);
        assert(b.contains(b.last())) by {
            assert(b[b.len() - 1] == b.last());
        }
        assert(a.contains(a.last())) by {
            assert(a[a.len() - 1] == a.last());
        }
        assert(a.contains(b.last()));
        let i = choose|i: int| 0 <= i < b.len() && b[i] == a.last();
        let j = choose|j: int| 0 <= j < a.len() && a[j] == b.last();
        assert(a.last() == b.last());
        let c = a.drop_last();
        let d = b.drop_last();
        assert forall|x: int| #[trigger] c.contains(x) <==> d.contains(x) by {
            if c.contains(x) {
                let k = choose|k: int| 0 <= k < c.len() && c[k] == x;
                assert(a[k] == x);
                assert(a.contains(x));
                let m = choose|m: int| 0 <= m < b.len() && b[m] == x;
                assert(d[m] == x);
            }
            if d.contains(x) {
                let k = choose|k: int| 0 <= k < d.len() && d[k] == x;
                assert(b[k] == x);
                assert(a.contains(x));
                let m = choose|m: int| 0 <= m < a.len() && a[m] == x;
                assert(c[m] == x);
            }
        }
        lemma_ascending_unique(c, d);
        assert(a =~= c.push(a.last()));
        assert(b =~= d.push(b.last()));
    }
}

proof fn lemma_one_lightest_list(loads: Seq<u32>, a: Seq<usize>, b: Seq<usize>)
    requires
        are_lightest(loads, a),
        are_lightest(loads, b),
    ensures
        a == b,
{
    let x = a.map_values(|i: usize| i as int);
    let y = b.map_values(|i: usize| i as int);
    assert forall|v: int| #[trigger] x.contains(v) <==> y.contains(v) by {
        if x.contains(v) {
            let i = choose|i: int| 0 <= i < x.len() && x[i] == v;
            assert(is_lightest(loads, a[i] as int));
            let j = choose|j: int| 0 <= j < b.len() && b[j] == v as usize;
            assert(y[j] == v);
        }
        if y.contains(v) {
            let i = choose|i: int| 0 <= i < y.len() && y[i] == v;
            assert(is_lightest(loads, b[i] as int));
            let j = choose|j: int| 0 <= j < a.len() && a[j] == v as usize;
            assert(x[j] == v);
        }
    }
    lemma_ascending_unique(x, y);
    assert(x.len() == a.len() && y.len() == b.len());
    assert forall|i: int| 0 <= i < a.len() implies a[i] == b[i] by {
        assert(x[i] == y[i]);
    }
    assert(a =~= b);
}

/// Equal policies that see equal loads in runs with one generator pick alike, are left
/// alike, and leave one generator.
pub proof fn law_one_generator_picks_alike(
    p: AnyPolicy,
    q: AnyPolicy,
    loads: Seq<u32>,
    generator: StdRng,
    i: int,
    after_p: AnyPolicy,
    to_p: Option<StdRng>,
    j: int,
    after_q: AnyPolicy,
    to_q: Option<StdRng>,
)
    requires
        p.alike(q),
        p.may_select(loads, Some(generator), i, after_p, to_p),
        q.may_select(loads, Some(generator), j, after_q, to_q),
    ensures
        i == j,
        after_p.alike(after_q),
        to_p == to_q,
{
    match (p, q) {
        (AnyPolicy::LeastRequest(_), AnyPolicy::LeastRequest(_)) => {
            if loads.len() > 0 {
                let (a, x) = choose|tied: Seq<usize>, at: usize|
                    {
                        &&& #[trigger] are_lightest(loads, tied)
                        &&& #[trigger] draws_index(
                            Some(generator),
                            0,
                            tied.len() as usize,
                            at,
                            to_p,
                        )
                        &&& i == tied[at as int]
                    };
                let (b, y) = choose|tied: Seq<usize>, at: usize|
                    {
                        &&& #[trigger] are_lightest(loads, tied)
                        &&& #[trigger] draws_index(
                            Some(generator),
                            0,
                            tied.len() as usize,
                            at,
                            to_q,
                        )
                        &&& j == tied[at as int]
                    };
                lemma_one_lightest_list(loads, a, b);
            }
        },
        _ => {},
    }
}

/// Pull intents need a policy that targets them, and nothing else takes one.
pub fn validate_pull_policy(
    lb_policy: LoadBalancePolicyKind,
    pull_policy: Option<PullPolicyKind>,
) -> (r: Result<(), String>)
    ensures
        r is Ok <==> lb_policy.sends_intents() == pull_policy is Some,
        r matches Err(e) ==> e@ == if lb_policy.sends_intents() {
            "--pull-policy is required with --lb-policy approx or approx-share"@
        } else {
            "--pull-policy is only valid with --lb-policy approx or approx-share"@
        },
{
    match (lb_policy.uses_approx_protocol(), pull_policy) {
        (true, None) => Err(
            "--pull-policy is required with --lb-policy approx or approx-share".to_owned(),
        ),
        (false, Some(_)) => Err(
            "--pull-policy is only valid with --lb-policy approx or approx-share".to_owned(),
        ),
        _ => Ok(()),
    }
}

/// A queue discipline for pull intents needs pull intents, and deadlines need the
/// simulator that has them.
pub fn validate_approx_sched(
    lb_policy: LoadBalancePolicyKind,
    approx_sched: Option<ApproxSchedKind>,
    allow_edf: bool,
) -> (r: Result<(), String>)
    ensures
        r is Ok <==> (approx_sched matches Some(sched) ==> lb_policy.sends_intents() && (sched
            is Fcfs || allow_edf)),
        r matches Err(e) ==> e@ == if !lb_policy.sends_intents() {
            "--approx-sched is only valid with --lb-policy approx or approx-share"@
        } else {
            "--approx-sched edf/edf+ is only supported by the ms simulator"@
        },
{
    match approx_sched {
        None => Ok(()),
        Some(sched) => {
            if !lb_policy.uses_approx_protocol() {
                return Err(
                    "--approx-sched is only valid with --lb-policy approx or approx-share".to_owned(),
                );
            }
            if sched.requires_ms() && !allow_edf {
                return Err(
                    "--approx-sched edf/edf+ is only supported by the ms simulator".to_owned(),
                );
            }
            Ok(())
        },
    }
}

/// Pulls that take any queued item need the pull-intent protocol.
pub fn validate_no_bind(lb_policy: LoadBalancePolicyKind, no_bind: bool) -> (r: Result<(), String>)
    ensures
        r is Err <==> no_bind && !(lb_policy is Approx),
        r matches Err(e) ==> e@ == "--no-bind is only valid with --lb-policy approx"@,
{
    if no_bind && !lb_policy.is_approx() {
        return Err("--no-bind is only valid with --lb-policy approx".to_owned());
    }
    Ok(())
}

/// `--centralized-sched edf` is only valid with `--lb-policy centralized` or `jbsq`.
/// Default `fcfs` is allowed with any policy (no-op when not a central pull queue).
pub fn validate_centralized_sched(
    lb_policy: LoadBalancePolicyKind,
    centralized_sched: CentralizedSchedKind,
) -> (r: Result<(), String>)
    ensures
        r is Ok <==> (centralized_sched is Edf ==> lb_policy.pulls_centrally()),
        r matches Err(e) ==> e@
            == "--centralized-sched edf is only valid with --lb-policy centralized or jbsq"@,
{
    if centralized_sched.uses_edf() && !lb_policy.uses_central_pull_queue() {
        return Err(
            "--centralized-sched edf is only valid with --lb-policy centralized or jbsq".to_owned(),
        );
    }
    Ok(())
}

/// `--jbsq-n` is required with `--lb-policy jbsq` (no default) and must be >= 1.
pub fn validate_jbsq_n(lb_policy: LoadBalancePolicyKind, jbsq_n: Option<u32>) -> (r: Result<
    (),
    String,
>)
    ensures
        r is Ok <==> if lb_policy is Jbsq {
            jbsq_n matches Some(n) && n >= 1
        } else {
            jbsq_n is None
        },
        r matches Err(e) ==> e@ == if lb_policy is Jbsq && jbsq_n is None {
            "--jbsq-n is required with --lb-policy jbsq"@
        } else if lb_policy is Jbsq {
            "--jbsq-n must be >= 1 with --lb-policy jbsq"@
        } else {
            "--jbsq-n is only valid with --lb-policy jbsq"@
        },
{
    match (lb_policy.is_jbsq(), jbsq_n) {
        (true, None) => Err("--jbsq-n is required with --lb-policy jbsq".to_owned()),
        (true, Some(n)) => {
            if n == 0 {
                return Err("--jbsq-n must be >= 1 with --lb-policy jbsq".to_owned());
            }
            Ok(())
        },
        (false, Some(_)) => Err("--jbsq-n is only valid with --lb-policy jbsq".to_owned()),
        (false, None) => Ok(()),
    }
}

/// `--approx-share` is at least 1 with `--lb-policy approx-share`, and exactly 1
/// without it.
pub fn validate_approx_share(lb_policy: LoadBalancePolicyKind, approx_share: u32) -> (r: Result<
    (),
    String,
>)
    ensures
        r is Ok <==> if lb_policy is ApproxShare {
            approx_share >= 1
        } else {
            approx_share == 1
        },
        r matches Err(e) ==> e@ == if lb_policy is ApproxShare {
            "--approx-share must be >= 1 with --lb-policy approx-share"@
        } else {
            "--approx-share is only valid with --lb-policy approx-share"@
        },
{
    if lb_policy.is_approx_share() {
        if approx_share == 0 {
            return Err("--approx-share must be >= 1 with --lb-policy approx-share".to_owned());
        }
        return Ok(());
    }
    if approx_share != 1 {
        return Err("--approx-share is only valid with --lb-policy approx-share".to_owned());
    }
    Ok(())
}

/// Probing and shared sidecars always see every backend.
pub fn validate_prequal_subset(lb_policy: LoadBalancePolicyKind, lb_subset_size: u32) -> (r: Result<
    (),
    String,
>)
    ensures
        r is Ok <==> (lb_policy is Prequal || lb_policy is ApproxShare ==> lb_subset_size == 0),
        r matches Err(e) ==> e@ == if lb_policy is Prequal {
            "--lb-subset-size is not supported with --lb-policy prequal"@
        } else {
            "--lb-subset-size is not supported with --lb-policy approx-share"@
        },
{
    if lb_policy.is_prequal() && lb_subset_size > 0 {
        return Err("--lb-subset-size is not supported with --lb-policy prequal".to_owned());
    }
    if lb_policy.is_approx_share() && lb_subset_size > 0 {
        return Err("--lb-subset-size is not supported with --lb-policy approx-share".to_owned());
    }
    Ok(())
}

/// The greater of `n` and 1.
pub open spec fn at_least_one(n: u32) -> nat {
    if n == 0 {
        1
    } else {
        n as nat
    }
}

/// The lesser of `a` and `b`.
pub open spec fn lesser(a: nat, b: nat) -> nat {
    if a <= b {
        a
    } else {
        b
    }
}

/// What is wrong with splitting the backends of a central pull queue into subsets.
pub open spec fn centralized_subset_error(
    lb_policy: LoadBalancePolicyKind,
    servers: u32,
    clients: u32,
    lb_subset_size: u32,
    lb_subset_policy: SubsetPolicyKind,
) -> Option<Seq<char>> {
    let name = if lb_policy is Jbsq {
        "jbsq"@
    } else {
        "centralized"@
    };
    let n = at_least_one(servers);
    let k = lesser(lb_subset_size as nat, n);
    if !lb_policy.pulls_centrally() || lb_subset_size == 0 {
        None
    } else if lb_subset_policy is Random {
        Some(
            "--lb-subset-policy random is not supported with --lb-policy "@ + name
                + "; use deterministic"@,
        )
    } else if n % k != 0 {
        Some(
            "--lb-subset-size "@ + decimal(lb_subset_size as nat)
                + " must evenly divide --servers "@ + decimal(servers as nat)
                + " with --lb-policy "@ + name,
        )
    } else if at_least_one(clients) % (n / k) != 0 {
        Some(
            "--clients "@ + decimal(clients as nat)
                + " must be divisible by the subset count ("@ + decimal(n / k)
                + " = servers/subset-size) with --lb-policy "@ + name,
        )
    } else {
        None
    }
}

/// Central pull-queue subsetting is a strict partition: `k` must divide `n_servers`,
/// clients must be divisible by the subset count, and only deterministic assignment
/// is allowed. No-op unless policy uses a central pull queue and `lb_subset_size > 0`.
pub fn validate_centralized_subset(
    lb_policy: LoadBalancePolicyKind,
    servers: u32,
    clients: u32,
    lb_subset_size: u32,
    lb_subset_policy: SubsetPolicyKind,
) -> (r: Result<(), String>)
    ensures
        match centralized_subset_error(
            lb_policy,
            servers,
            clients,
            lb_subset_size,
            lb_subset_policy,
        ) {
            None => r is Ok,
            Some(text) => r matches Err(e) && e@ == text,
        },
{
    if !lb_policy.uses_central_pull_queue() || lb_subset_size == 0 {
        return Ok(());
    }
    let name: &str = if lb_policy.is_jbsq() {
        "jbsq"
    } else {
        "centralized"
    };
    if lb_subset_policy != SubsetPolicyKind::Deterministic {
        return Err(
            Text::of("--lb-subset-policy random is not supported with --lb-policy ").lit(name).lit(
                "; use deterministic",
            ).done(),
        );
    }
    let n: u32 = if servers == 0 {
        1
    } else {
        servers
    };
    let k: u32 = if lb_subset_size <= n {
        lb_subset_size
    } else {
        n
    };
    if n % k != 0 {
        return Err(
            Text::of("--lb-subset-size ").num(lb_subset_size as u64).lit(
                " must evenly divide --servers ",
            ).num(servers as u64).lit(" with --lb-policy ").lit(name).done(),
        );
    }
    proof {
        vstd::arithmetic::div_mod::lemma_div_non_zero(n as int, k as int);
    }
    let subset_count: u32 = n / k;
    let n_clients: u32 = if clients == 0 {
        1
    } else {
        clients
    };
    if n_clients % subset_count != 0 {
        return Err(
            Text::of("--clients ").num(clients as u64).lit(
                " must be divisible by the subset count (",
            ).num(subset_count as u64).lit(" = servers/subset-size) with --lb-policy ").lit(
                name,
            ).done(),
        );
    }
    Ok(())
}

/// The power of two choices among at least two backends: two of them are drawn, one of the
/// two is picked, and it has no more load than the other. Of two that are equally loaded the
/// first drawn is picked. A single backend is picked without a draw.
pub proof fn law_power_of_two_picks_the_lighter(
    policy: AnyPolicy,
    loads: Seq<u32>,
    from: Option<StdRng>,
    pick: int,
    after: AnyPolicy,
    to: Option<StdRng>,
)
    requires
        policy is PowerOfTwo,
        loads.len() <= usize::MAX,
        policy.may_select(loads, from, pick, after, to),
    ensures
        after is PowerOfTwo,
        loads.len() <= 1 ==> pick == 0 && to == from,
        loads.len() > 1 ==> exists|i: int, j: int|
            {
                &&& 0 <= i < loads.len()
                &&& 0 <= j < loads.len()
                &&& pick == i || pick == j
                &&& #[trigger] loads[i] >= loads[pick]
                &&& #[trigger] loads[j] >= loads[pick]
                &&& loads[i] == loads[j] ==> pick == i
                &&& from matches Some(g) ==> {
                    let n = loads.len() as usize;
                    let between = after_draw(g, 0, n);
                    &&& i == draw_of(g, 0, n)
                    &&& j == draw_of(between, 0, n)
                    &&& to == Some(after_draw(between, 0, n))
                }
            },
        loads.len() > 1 && from is None ==> to is None,
{
    if loads.len() > 1 {
        let n = loads.len() as usize;
        let (i, j, between) = choose|i: usize, j: usize, between: Option<StdRng>|
            {
                &&& #[trigger] draws_index(from, 0, n, i, between)
                &&& #[trigger] draws_index(between, 0, n, j, to)
                &&& pick == lighter(loads, i, j)
            };
        assert(loads[i as int] >= loads[pick]);
        assert(loads[j as int] >= loads[pick]);
    }
}

/// Whatever two backends come, the power of two choices may pick the lighter of them outside
/// a run: no pair is left out.
pub proof fn law_power_of_two_draws_any_pair(policy: AnyPolicy, loads: Seq<u32>, i: int, j: int)
    requires
        policy is PowerOfTwo,
        1 < loads.len() <= usize::MAX,
        0 <= i < loads.len(),
        0 <= j < loads.len(),
        loads[i] < loads[j],
    ensures
        policy.may_select(loads, None, i, policy, None),
{
    let n = loads.len() as usize;
    let a = i as usize;
    let b = j as usize;
    assert(draws_index(None, 0, n, a, None));
    assert(draws_index(None, 0, n, b, None));
    assert(i == lighter(loads, a, b));
}

/// The random policy looks at no load: in a run it picks the backend that is drawn, and
/// outside a run any backend may come, whatever the loads are.
pub proof fn law_random_ignores_loads(
    policy: AnyPolicy,
    loads: Seq<u32>,
    from: Option<StdRng>,
    pick: int,
    after: AnyPolicy,
    to: Option<StdRng>,
)
    requires
        policy is Random,
        0 < loads.len() <= usize::MAX,
    ensures
        policy.may_select(loads, from, pick, after, to) <==> {
            &&& after is Random
            &&& 0 <= pick < loads.len()
            &&& match from {
                Some(g) => {
                    let n = loads.len() as usize;
                    &&& pick == draw_of(g, 0, n)
                    &&& to == Some(after_draw(g, 0, n))
                },
                None => to is None,
            }
        },
{
    let n = loads.len() as usize;
    if policy.may_select(loads, from, pick, after, to) {
        let r = choose|r: usize| #[trigger] draws_index(from, 0, n, r, to) && pick == r;
        assert(r == pick);
    }
    if 0 <= pick < loads.len() && draws_index(from, 0, n, pick as usize, to) {
        assert(exists|r: usize| #[trigger] draws_index(from, 0, n, r, to) && pick == r);
    }
}

/// Least request picks a backend that no other backend is loaded less than. Among those that
/// are tied, counted from the first, it takes the one whose number is drawn.
pub proof fn law_least_request_picks_a_least_loaded(
    policy: AnyPolicy,
    loads: Seq<u32>,
    from: Option<StdRng>,
    pick: int,
    after: AnyPolicy,
    to: Option<StdRng>,
)
    requires
        policy is LeastRequest,
        loads.len() <= usize::MAX,
        policy.may_select(loads, from, pick, after, to),
    ensures
        after is LeastRequest,
        loads.len() == 0 ==> pick == 0 && to == from,
        loads.len() > 0 ==> 0 <= pick < loads.len(),
        forall|j: int| 0 <= j < loads.len() ==> loads[pick] <= #[trigger] loads[j],
        loads.len() > 0 ==> exists|tied: Seq<usize>, at: int|
            {
                &&& 0 <= at < tied.len()
                &&& pick == #[trigger] tied[at]
                &&& forall|a: int, b: int| 0 <= a < b < tied.len() ==> tied[a] < tied[b]
                &&& forall|i: usize| #[trigger]
                    tied.contains(i) <==> i < loads.len() && forall|j: int|
                        0 <= j < loads.len() ==> loads[i as int] <= #[trigger] loads[j]
                &&& match from {
                    Some(g) => at == draw_of(g, 0, tied.len() as usize) && to == Some(
                        after_draw(g, 0, tied.len() as usize),
                    ),
                    None => to is None,
                }
            },
{
    if loads.len() > 0 {
        let (tied, at) = choose|tied: Seq<usize>, at: usize|
            {
                &&& #[trigger] are_lightest(loads, tied)
                &&& #[trigger] draws_index(from, 0, tied.len() as usize, at, to)
                &&& pick == tied[at as int]
            };
        assert forall|i: usize| #[trigger] tied.contains(i) <==> i < loads.len() && forall|j: int|
            0 <= j < loads.len() ==> loads[i as int] <= #[trigger] loads[j] by {
            if tied.contains(i) {
                let a = choose|a: int| 0 <= a < tied.len() && tied[a] == i;
                assert(is_lightest(loads, tied[a] as int));
            }
            if i < loads.len() && (forall|j: int|
                0 <= j < loads.len() ==> loads[i as int] <= #[trigger] loads[j]) {
                assert(is_lightest(loads, i as int));
            }
        }
        lemma_few_lightest(loads, tied);
        assert(at < tied.len());
        assert(pick == tied[at as int]);
    }
}

proof fn lemma_few_lightest(loads: Seq<u32>, tied: Seq<usize>)
    requires
        are_lightest(loads, tied),
        loads.len() <= usize::MAX,
    ensures
        tied.len() <= loads.len(),
{
    if tied.len() > loads.len() {
        lemma_ascending_reaches(tied, loads.len() as int);
        assert(is_lightest(loads, tied[loads.len() as int] as int));
    }
}

proof fn lemma_ascending_reaches(list: Seq<usize>, k: int)
    requires
        0 <= k < list.len(),
        forall|a: int, b: int| 0 <= a < b < list.len() ==> list[a] < list[b],
    ensures
        list[k] >= k,
    decreases k,
{
    if k > 0 {
        lemma_ascending_reaches(list, k - 1);
        assert(list[k - 1] < list[k]);
    }
}

/// Round robin over `n` backends: `n` picks in a row, from the first pick on or from any
/// later one, go to every backend, each once. As long as there are `n` backends the order is
/// kept and nothing is drawn.
pub proof fn law_round_robin_visits_every_backend(
    states: Seq<RoundRobinPolicy>,
    loads: Seq<Seq<u32>>,
    generators: Seq<Option<StdRng>>,
    picks: Seq<int>,
    n: nat,
)
    requires
        n > 0,
        loads.len() == n,
        picks.len() == n,
        states.len() == n + 1,
        generators.len() == n + 1,
        states[0].wf(),
        forall|k: int| 0 <= k < n ==> (#[trigger] loads[k]).len() == n,
        forall|k: int|
            0 <= k < n ==> #[trigger] states[k].may_select(
                loads[k],
                generators[k],
                picks[k],
                states[k + 1],
                generators[k + 1],
            ),
        states[1].wf(),
    ensures
        picks.no_duplicates(),
        forall|k: int| 0 <= k < n ==> 0 <= #[trigger] picks[k] < n,
        forall|k: int| 1 <= k <= n ==> #[trigger] generators[k] == generators[1],
        states[0].order().len() == n ==> generators[1] == generators[0],
        states[0].order().len() != n ==> forall|i: int|
            0 <= i < n ==> picks[i] == #[trigger] states[1].order()[i],
{
    let order = states[1].order();
    let first: nat = if states[0].order().len() == n {
        states[0].next()
    } else {
        0
    };
    let z: int = 0;
    assert(states[z].may_select(
        loads[z],
        generators[z],
        picks[z],
        states[z + 1],
        generators[z + 1],
    ));
    assert(first < n);
    assert forall|k: int| 0 <= k < n implies #[trigger] picks[k] == turn(order, first, k as nat)
        && states[k + 1].order() == order && states[k + 1].next() == (first + k + 1) % n as int
        && generators[k + 1] == generators[1] by {
        lemma_round_robin_goes_on(states, loads, generators, picks, n, first, k);
    }
    assert forall|i: int, j: int| 0 <= i < j < n implies picks[i] != picks[j] by {
        assert(picks[i] == turn(order, first, i as nat));
        assert(picks[j] == turn(order, first, j as nat));
        lemma_turns_differ(order, first, i as nat, j as nat);
    }
    assert forall|k: int| 0 <= k < n implies 0 <= #[trigger] picks[k] < n by {
        assert(picks[k] == turn(order, first, k as nat));
        vstd::arithmetic::div_mod::lemma_mod_bound(first + k, n as int);
    }
    assert forall|k: int| 1 <= k <= n implies #[trigger] generators[k] == generators[1] by {
        assert(picks[k - 1] == turn(order, first, (k - 1) as nat));
    }
    if states[0].order().len() != n {
        assert forall|i: int| 0 <= i < n implies picks[i] == #[trigger] states[1].order()[i] by {
            assert(picks[i] == turn(order, first, i as nat));
            vstd::arithmetic::div_mod::lemma_small_mod(i as nat, n);
        }
    }
}

proof fn lemma_round_robin_goes_on(
    states: Seq<RoundRobinPolicy>,
    loads: Seq<Seq<u32>>,
    generators: Seq<Option<StdRng>>,
    picks: Seq<int>,
    n: nat,
    first: nat,
    k: int,
)
    requires
        0 <= k < n,
        loads.len() == n,
        picks.len() == n,
        states.len() == n + 1,
        generators.len() == n + 1,
        forall|i: int| 0 <= i < n ==> (#[trigger] loads[i]).len() == n,
        forall|i: int|
            0 <= i < n ==> #[trigger] states[i].may_select(
                loads[i],
                generators[i],
                picks[i],
                states[i + 1],
                generators[i + 1],
            ),
        first == if states[0].order().len() == n {
            states[0].next()
        } else {
            0
        },
        first < n,
    ensures
        picks[k] == turn(states[1].order(), first, k as nat),
        states[k + 1].order() == states[1].order(),
        states[k + 1].next() == (first + k + 1) % n as int,
        generators[k + 1] == generators[1],
    decreases k,
{
    assert(states[k].may_select(
        loads[k],
        generators[k],
        picks[k],
        states[k + 1],
        generators[k + 1],
    ));
    if k == 0 {
        vstd::arithmetic::div_mod::lemma_small_mod(first, n);
    } else {
        lemma_round_robin_goes_on(states, loads, generators, picks, n, first, k - 1);
        let z: int = 0;
        assert(states[z].may_select(
            loads[z],
            generators[z],
            picks[z],
            states[z + 1],
            generators[z + 1],
        ));
        assert(states[k].order().len() == n);
        vstd::arithmetic::div_mod::lemma_add_mod_noop(first + k, 1, n as int);
        vstd::arithmetic::div_mod::lemma_mod_twice(first + k, n as int);
        vstd::arithmetic::div_mod::lemma_add_mod_noop((first + k) % n as int, 1, n as int);
    }
}

proof fn lemma_turns_differ(order: Seq<usize>, next: nat, i: nat, j: nat)
    requires
        order.no_duplicates(),
        i < j < order.len(),
    ensures
        turn(order, next, i) != turn(order, next, j),
{
    let n = order.len();
    let a = (next + i) as int;
    let b = (next + j) as int;
    vstd::arithmetic::div_mod::lemma_mod_bound(a, n as int);
    vstd::arithmetic::div_mod::lemma_mod_bound(b, n as int);
    vstd::arithmetic::div_mod::lemma_fundamental_div_mod(a, n as int);
    vstd::arithmetic::div_mod::lemma_fundamental_div_mod(b, n as int);
    if a % n as int == b % n as int {
        let qa = a / n as int;
        let qb = b / n as int;
        assert(b - a == n as int * (qb - qa)) by (nonlinear_arith)
            requires
                b - a == n as int * qb - n as int * qa,
        ;
        assert(false) by (nonlinear_arith)
            requires
                b - a == n as int * (qb - qa),
                0 < b - a < n,
        ;
    }
}

/// What a policy flag stands for: the pick of a balancer that is built for it is a random
/// one, the lighter of two, a least loaded one or the next in turn, as its name says. Where
/// tasks are pulled or announced, users still enter by the lighter of two.
pub proof fn law_flags_mean_what_they_say(
    kind: LoadBalancePolicyKind,
    pull: PullPolicyKind,
    built: AnyPolicy,
    entry: AnyPolicy,
    shared: AnyPolicy,
    intents: AnyPolicy,
)
    requires
        kind.builds(built),
        kind.enters_by(entry),
        kind.pushes_downstream_by(shared),
        pull.builds(intents),
    ensures
        built is Random <==> kind == LoadBalancePolicyKind::Random,
        built is RoundRobin <==> kind == LoadBalancePolicyKind::RoundRobin,
        built is LeastRequest <==> kind == LoadBalancePolicyKind::LeastRequest,
        kind == LoadBalancePolicyKind::PowerOfTwo ==> built is PowerOfTwo,
        entry is Random <==> kind == LoadBalancePolicyKind::Random,
        entry is RoundRobin <==> kind == LoadBalancePolicyKind::RoundRobin,
        entry is LeastRequest <==> kind == LoadBalancePolicyKind::LeastRequest,
        entry is PowerOfTwo <==> kind != LoadBalancePolicyKind::Random && kind
            != LoadBalancePolicyKind::RoundRobin && kind != LoadBalancePolicyKind::LeastRequest,
        shared is LeastRequest <==> kind == LoadBalancePolicyKind::ClLr,
        shared is Random <==> kind == LoadBalancePolicyKind::ClR,
        shared is RoundRobin <==> kind == LoadBalancePolicyKind::ClRr,
        kind == LoadBalancePolicyKind::Cl ==> shared is PowerOfTwo,
        intents is Random <==> pull == PullPolicyKind::Random,
        intents is PowerOfTwo <==> pull == PullPolicyKind::PowerOfTwo,
        intents is RoundRobin <==> pull == PullPolicyKind::RoundRobin,
        intents is LeastRequest <==> pull == PullPolicyKind::LeastRequest,
        kind.pulls_centrally() <==> kind == LoadBalancePolicyKind::Centralized || kind
            == LoadBalancePolicyKind::Jbsq,
        kind.sends_intents() <==> kind == LoadBalancePolicyKind::Approx || kind
            == LoadBalancePolicyKind::ApproxShare,
{
}

/// Splitting the servers of a central pull queue is accepted where the subsets use all servers
/// up and as many clients come to each, with the deterministic policy only. Without a size, or
/// without a central pull queue, nothing is checked.
pub proof fn law_partition_is_accepted_where_it_comes_out_even(
    kind: LoadBalancePolicyKind,
    servers: u32,
    clients: u32,
    size: u32,
    policy: SubsetPolicyKind,
)
    requires
        servers > 0,
        clients > 0,
    ensures
        size == 0 ==> centralized_subset_error(kind, servers, clients, size, policy) is None,
        kind != LoadBalancePolicyKind::Centralized && kind != LoadBalancePolicyKind::Jbsq
            ==> centralized_subset_error(kind, servers, clients, size, policy) is None,
        (kind == LoadBalancePolicyKind::Centralized || kind == LoadBalancePolicyKind::Jbsq)
            && size > 0 && policy == SubsetPolicyKind::Random ==> centralized_subset_error(
            kind,
            servers,
            clients,
            size,
            policy,
        ) is Some,
        (kind == LoadBalancePolicyKind::Centralized || kind == LoadBalancePolicyKind::Jbsq) && 0
            < size <= servers && policy == SubsetPolicyKind::Deterministic ==> (
        centralized_subset_error(kind, servers, clients, size, policy) is None <==> servers as int
            % size as int == 0 && clients as int % (servers as int / size as int) == 0),
        size > servers && policy == SubsetPolicyKind::Deterministic ==> centralized_subset_error(
            kind,
            servers,
            clients,
            size,
            policy,
        ) is None,
{
    vstd::arithmetic::div_mod::lemma_mod_self_0(servers as int);
    vstd::arithmetic::div_mod::lemma_div_by_self(servers as int);
}

} // verus!
