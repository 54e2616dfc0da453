//! Probing balancing: a small pool of servers with the load each one reported last.

use crate::rng::{shuffle, shuffles, RunRng};
use rand::rngs::StdRng;
use vstd::prelude::*;

verus! {

/// Probes issued per request (async, off the critical path).
pub const R_PROBE: usize = 2;

/// Max times a candidate may be selected before removal from the pool.
pub const B_REUSE: u32 = 1;

/// Pool capacity: a quarter of the server count, rounded up, at least 1.
pub fn pool_cap(n_servers: usize) -> (r: usize)
    ensures
        n_servers == 0 ==> r == 1,
        n_servers > 0 ==> r >= 1 && 4 * (r - 1) < n_servers <= 4 * r,
{
    if n_servers == 0 {
        1
    } else {
        (n_servers - 1) / 4 + 1
    }
}

/// Probe request from a load balancer to a server.
#[derive(Clone, Copy, Debug, PartialEq, Eq, Structural)]
pub struct Probe {
    pub sender_id: usize,
}

/// Probe reply carrying server-local RIF (`queue.len + in_flight`).
#[derive(Clone, Copy, Debug, PartialEq, Eq, Structural)]
pub struct ProbeReply {
    pub server_idx: usize,
    pub rif: u32,
}

#[derive(Clone, Copy, Debug, PartialEq, Eq, Structural)]
pub struct Candidate {
    pub server_idx: usize,
    pub rif: u32,
    pub uses: u32,
}

/// Some candidate is for `server`.
pub open spec fn pooled(entries: Seq<Candidate>, server: usize) -> bool {
    exists|i: int| 0 <= i < entries.len() && (#[trigger] entries[i]).server_idx == server
}

/// Candidate `i` is for `server`.
pub open spec fn candidate_at(entries: Seq<Candidate>, server: usize, i: int) -> bool {
    0 <= i < entries.len() && entries[i].server_idx == server
}

/// The highest load, and the oldest candidate with it.
pub open spec fn is_worst(entries: Seq<Candidate>, i: int) -> bool {
    &&& 0 <= i < entries.len()
    &&& forall|j: int| 0 <= j < entries.len() ==> (#[trigger] entries[j]).rif <= entries[i].rif
    &&& forall|j: int| 0 <= j < i ==> (#[trigger] entries[j]).rif < entries[i].rif
}

/// The lowest load, and the oldest candidate with it.
pub open spec fn is_best(entries: Seq<Candidate>, i: int) -> bool {
    &&& 0 <= i < entries.len()
    &&& forall|j: int| 0 <= j < entries.len() ==> entries[i].rif <= (#[trigger] entries[j]).rif
    &&& forall|j: int| 0 <= j < i ==> entries[i].rif < (#[trigger] entries[j]).rif
}

/// The position of the worst candidate.
pub open spec fn worst(entries: Seq<Candidate>) -> int {
    choose|i: int| is_worst(entries, i)
}

/// The pool after its worst candidate was taken out `k` times, as long as there was one.
pub open spec fn without_worst(entries: Seq<Candidate>, k: nat) -> Seq<Candidate>
    decreases k,
{
    if k == 0 || entries.len() == 0 {
        entries
    } else {
        without_worst(entries.remove(worst(entries)), (k - 1) as nat)
    }
}

/// The first `m` candidates have a worst one among them.
pub proof fn lemma_worst_exists(entries: Seq<Candidate>, m: nat)
    requires
        0 < m <= entries.len(),
    ensures
        exists|i: int| is_worst(entries.take(m as int), i),
        m == entries.len() ==> is_worst(entries, worst(entries)),
    decreases m,
{
    let now = entries.take(m as int);
    if m == 1 {
        assert(is_worst(now, 0));
    } else {
        lemma_worst_exists(entries, (m - 1) as nat);
        let before = entries.take(m - 1);
        let i = choose|i: int| is_worst(before, i);
        if entries[m - 1].rif > before[i].rif {
            assert forall|j: int| 0 <= j < now.len() implies (#[trigger] now[j]).rif <= now[m
                - 1].rif by {
                if j < m - 1 {
                    assert(now[j] == before[j]);
                }
            }
            assert forall|j: int| 0 <= j < m - 1 implies (#[trigger] now[j]).rif < now[m
                - 1].rif by {
                assert(now[j] == before[j]);
            }
            assert(is_worst(now, m - 1));
        } else {
            assert forall|j: int| 0 <= j < now.len() implies (#[trigger] now[j]).rif
                <= now[i].rif by {
                if j < m - 1 {
                    assert(now[j] == before[j]);
                }
            }
            assert forall|j: int| 0 <= j < i implies (#[trigger] now[j]).rif < now[i].rif by {
                assert(now[j] == before[j]);
            }
            assert(is_worst(now, i));
        }
    }
    if m == entries.len() {
        assert(now =~= entries);
    }
}

/// `n` plus one, at most the largest `u32`.
pub open spec fn bumped(n: u32) -> u32 {
    if n == u32::MAX {
        n
    } else {
        (n + 1) as u32
    }
}

/// The servers below `n` that have no candidate in the pool, in ascending order.
pub open spec fn unpooled(n: nat, entries: Seq<Candidate>) -> Seq<usize>
    decreases n,
{
    if n == 0 {
        Seq::empty()
    } else {
        let before = unpooled((n - 1) as nat, entries);
        if pooled(entries, (n - 1) as usize) {
            before
        } else {
            before.push((n - 1) as usize)
        }
    }
}

/// Per-LB candidate pool ordered oldest -> newest.
pub struct CandidatePool {
    entries: Vec<Candidate>,
    cap: usize,
}

impl View for CandidatePool {
    type V = Seq<Candidate>;

    /// The candidates, oldest first.
    closed spec fn view(&self) -> Seq<Candidate> {
        self.entries@
    }
}

impl CandidatePool {
    /// How many candidates the pool holds at most.
    pub closed spec fn capacity(&self) -> nat {
        self.cap as nat
    }

    /// The pool is within its capacity and holds each server once.
    pub open spec fn wf(&self) -> bool {
        &&& self.capacity() >= 1
        &&& self@.len() <= self.capacity()
        &&& forall|i: int, j: int|
            #![trigger self@[i], self@[j]]
            0 <= i < j < self@.len() ==> self@[i].server_idx != self@[j].server_idx
    }

    pub fn new(cap: usize) -> (r: Self)
        ensures
            r.wf(),
            r@.len() == 0,
            r.capacity() == if cap == 0 {
                1
            } else {
                cap as nat
            },
    {
        CandidatePool {
            entries: Vec::new(),
            cap: if cap == 0 {
                1
            } else {
                cap
            },
        }
    }

    pub fn len(&self) -> (r: usize)
        ensures
            r == self@.len(),
    {
        self.entries.len()
    }

    pub fn is_empty(&self) -> (r: bool)
        ensures
            r == (self@.len() == 0),
    {
        self.entries.len() == 0
    }

    fn position(&self, server_idx: usize) -> (r: Option<usize>)
        ensures
            match r {
                Some(i) => candidate_at(self@, server_idx, i as int) && forall|j: int|
                    0 <= j < i ==> (#[trigger] self@[j]).server_idx != server_idx,
                None => !pooled(self@, server_idx),
            },
    {
        let mut i: usize = 0;
        while i < self.entries.len()
            invariant
                i <= self.entries@.len(),
                forall|j: int| 0 <= j < i ==> (#[trigger] self.entries@[j]).server_idx != server_idx,
            decreases self.entries@.len() - i,
        {
            if self.entries[i].server_idx == server_idx {
                return Some(i);
            }
            i += 1;
        }
        None
    }

    pub fn contains(&self, server_idx: usize) -> (r: bool)
        ensures
            r == pooled(self@, server_idx),
    {
        match self.position(server_idx) {
            Some(i) => {
                assert(self@[i as int].server_idx == server_idx);
                true
            },
            None => false,
        }
    }

    /// The servers in the pool, oldest candidate first.
    pub fn server_indices(&self) -> (r: Vec<usize>)
        ensures
            r@.len() == self@.len(),
            forall|i: int| 0 <= i < r@.len() ==> (#[trigger] r@[i]) == self@[i].server_idx,
    {
        let mut out: Vec<usize> = Vec::new();
        let mut i: usize = 0;
        while i < self.entries.len()
            invariant
                i == out@.len(),
                i <= self.entries@.len(),
                forall|j: int| 0 <= j < i ==> (#[trigger] out@[j]) == self.entries@[j].server_idx,
            decreases self.entries@.len() - i,
        {
            out.push(self.entries[i].server_idx);
            i += 1;
        }
        out
    }

    /// Remove the highest-RIF candidate; ties break to oldest.
    pub fn remove_worst(&mut self) -> (r: Option<Candidate>)
        requires
            old(self).wf(),
        ensures
            final(self).wf(),
            final(self).capacity() == old(self).capacity(),
            match r {
                None => old(self)@.len() == 0 && final(self)@ == old(self)@,
                Some(c) => {
                    &&& is_worst(old(self)@, worst(old(self)@))
                    &&& c == old(self)@[worst(old(self)@)]
                    &&& final(self)@ == old(self)@.remove(worst(old(self)@))
                },
            },
    {
        if self.entries.len() == 0 {
            return None;
        }
        let mut worst_i: usize = 0;
        let mut i: usize = 1;
        while i < self.entries.len()
            invariant
                worst_i < i <= self.entries@.len(),
                forall|j: int|
                    0 <= j < i ==> (#[trigger] self.entries@[j]).rif
                        <= self.entries@[worst_i as int].rif,
                forall|j: int|
                    0 <= j < worst_i ==> (#[trigger] self.entries@[j]).rif
                        < self.entries@[worst_i as int].rif,
            decreases self.entries@.len() - i,
        {
            if self.entries[i].rif > self.entries[worst_i].rif {
                worst_i = i;
            }
            i += 1;
        }
        proof {
            assert(is_worst(self@, worst_i as int));
            let chosen = worst(self@);
            if chosen < worst_i {
                assert(self@[chosen].rif < self@[worst_i as int].rif);
            } else if worst_i < chosen {
                assert(self@[worst_i as int].rif < self@[chosen].rif);
            }
        }
        Some(self.entries.remove(worst_i))
    }

    /// Select least-RIF candidate; ties break to oldest. Does not mutate.
    pub fn select_best(&self) -> (r: Option<usize>)
        ensures
            match r {
                None => self@.len() == 0,
                Some(server) => exists|i: int| #[trigger]
                    is_best(self@, i) && self@[i].server_idx == server,
            },
    {
        if self.entries.len() == 0 {
            return None;
        }
        let mut best_i: usize = 0;
        let mut i: usize = 1;
        while i < self.entries.len()
            invariant
                best_i < i <= self.entries@.len(),
                forall|j: int|
                    0 <= j < i ==> self.entries@[best_i as int].rif <= (
                    #[trigger] self.entries@[j]).rif,
                forall|j: int|
                    0 <= j < best_i ==> self.entries@[best_i as int].rif < (
                    #[trigger] self.entries@[j]).rif,
            decreases self.entries@.len() - i,
        {
            if self.entries[i].rif < self.entries[best_i].rif {
                best_i = i;
            }
            i += 1;
        }
        assert(is_best(self@, best_i as int));
        Some(self.entries[best_i].server_idx)
    }

    /// After dispatching to `server_idx` if it is in the pool: optimistic RIF++,
    /// increment uses, and remove when `uses >= b_reuse`.
    pub fn after_dispatch(&mut self, server_idx: usize, b_reuse: u32)
        requires
            old(self).wf(),
        ensures
            final(self).wf(),
            final(self).capacity() == old(self).capacity(),
            !pooled(old(self)@, server_idx) ==> final(self)@ == old(self)@,
            forall|i: int| #[trigger]
                candidate_at(old(self)@, server_idx, i) ==> final(self)@ == {
                    let c = old(self)@[i];
                    if bumped(c.uses) >= b_reuse {
                        old(self)@.remove(i)
                    } else {
                        old(self)@.update(
                            i,
                            Candidate { server_idx, rif: bumped(c.rif), uses: bumped(c.uses) },
                        )
                    }
                },
    {
        match self.position(server_idx) {
            None => {},
            Some(pos) => {
                let ghost before = self@;
                let c = self.entries[pos];
                let bumped_c = Candidate {
                    server_idx,
                    rif: c.rif.saturating_add(1),
                    uses: c.uses.saturating_add(1),
                };
                if bumped_c.uses >= b_reuse {
                    self.entries.remove(pos);
                } else {
                    self.entries.set(pos, bumped_c);
                }
                proof {
                    assert(before[pos as int].server_idx == server_idx);
                    assert forall|i: int| #[trigger] candidate_at(before, server_idx, i) implies i
                        == pos by {
                        if i < pos {
                            assert(before[i].server_idx != before[pos as int].server_idx);
                        } else if pos < i {
                            assert(before[pos as int].server_idx != before[i].server_idx);
                        }
                    }
                }
            },
        }
    }

    /// Insert or refresh a probe reply. Refresh resets uses and moves to newest.
    /// On insert at capacity, evict oldest first.
    pub fn ingest_reply(&mut self, server_idx: usize, rif: u32)
        requires
            old(self).wf(),
        ensures
            final(self).wf(),
            final(self).capacity() == old(self).capacity(),
            forall|i: int| #[trigger]
                candidate_at(old(self)@, server_idx, i) ==> final(self)@ == old(self)@.remove(
                    i,
                ).push(Candidate { server_idx, rif, uses: 0 }),
            !pooled(old(self)@, server_idx) && old(self)@.len() < old(self).capacity()
                ==> final(self)@ == old(self)@.push(Candidate { server_idx, rif, uses: 0 }),
            !pooled(old(self)@, server_idx) && old(self)@.len() == old(self).capacity()
                ==> final(self)@ == old(self)@.remove(0).push(Candidate { server_idx, rif, uses: 0 }),
    {
        let fresh = Candidate { server_idx, rif, uses: 0 };
        let ghost before = self@;
        match self.position(server_idx) {
            Some(pos) => {
                self.entries.remove(pos);
                self.entries.push(fresh);
                proof {
                    assert(before[pos as int].server_idx == server_idx);
                    assert forall|i: int| #[trigger] candidate_at(before, server_idx, i) implies i
                        == pos by {
                        if i < pos {
                            assert(before[i].server_idx != before[pos as int].server_idx);
                        } else if pos < i {
                            assert(before[pos as int].server_idx != before[i].server_idx);
                        }
                    }
                    assert forall|i: int, j: int|
                        #![trigger self@[i], self@[j]]
                        0 <= i < j < self@.len() implies self@[i].server_idx
                        != self@[j].server_idx by {
                        let a = if i < pos {
                            i
                        } else {
                            i + 1
                        };
                        let b = if j < pos {
                            j
                        } else {
                            j + 1
                        };
                        assert(self@[i] == before[a]);
                        if j < self@.len() - 1 {
                            assert(self@[j] == before[b]);
                        } else {
                            assert(!candidate_at(before, server_idx, a) || a == pos);
                            assert(candidate_at(before, server_idx, pos as int));
                        }
                    }
                }
            },
            None => {
                if self.entries.len() >= self.cap {
                    self.entries.remove(0);
                }
                let ghost kept = self@;
                self.entries.push(fresh);
                proof {
                    assert forall|i: int| 0 <= i < kept.len() implies (
                    #[trigger] kept[i]).server_idx != server_idx by {
                        let a = if kept.len() < before.len() {
                            i + 1
                        } else {
                            i
                        };
                        assert(kept[i] == before[a]);
                    }
                }
            },
        }
    }

    /// The candidates, oldest first.
    pub fn entries(&self) -> (r: &Vec<Candidate>)
        ensures
            r@ == self@,
    {
        &self.entries
    }
}

/// Removes the worst candidate as often as whole removals are `due`, while there is one,
/// and returns how many were removed.
pub fn apply_r_remove(pool: &mut CandidatePool, due: usize) -> (removed: usize)
    requires
        old(pool).wf(),
    ensures
        final(pool).wf(),
        final(pool).capacity() == old(pool).capacity(),
        final(pool)@ == without_worst(old(pool)@, due as nat),
        removed == if due <= old(pool)@.len() {
            due as nat
        } else {
            old(pool)@.len()
        },
{
    let mut removed: usize = 0;
    while removed < due && !pool.is_empty()
        invariant
            pool.wf(),
            pool.capacity() == old(pool).capacity(),
            removed <= due,
            pool@.len() + removed == old(pool)@.len(),
            without_worst(pool@, (due - removed) as nat) == without_worst(old(pool)@, due as nat),
        decreases due - removed,
    {
        pool.remove_worst();
        removed += 1;
    }
    removed
}

fn unpooled_servers(n_servers: usize, pool: &CandidatePool) -> (r: Vec<usize>)
    ensures
        r@ == unpooled(n_servers as nat, pool@),
{
    let mut out: Vec<usize> = Vec::new();
    let mut i: usize = 0;
    while i < n_servers
        invariant
            i <= n_servers,
            out@ == unpooled(i as nat, pool@),
        decreases n_servers - i,
    {
        if !pool.contains(i) {
            out.push(i);
        }
        i += 1;
    }
    out
}

proof fn lemma_unpooled(n: nat, entries: Seq<Candidate>)
    requires
        n <= usize::MAX,
    ensures
        unpooled(n, entries).no_duplicates(),
        forall|i: int|
            0 <= i < unpooled(n, entries).len() ==> {
                let server = #[trigger] unpooled(n, entries)[i];
                server < n && !pooled(entries, server)
            },
    decreases n,
{
    if n > 0 {
        lemma_unpooled((n - 1) as nat, entries);
    }
}

/// `probes` are drawn from the servers outside the pool, as many as `wanted` if there are so
/// many, by a run whose generator goes from `from` to `to`: the servers are shuffled, and the
/// first ones taken.
pub open spec fn draws_probes(
    n_servers: usize,
    pool: Seq<Candidate>,
    wanted: nat,
    from: Option<StdRng>,
    probes: Seq<usize>,
    to: Option<StdRng>,
) -> bool {
    let outside = unpooled(n_servers as nat, pool);
    if wanted == 0 || outside.len() == 0 {
        probes.len() == 0 && to == from
    } else {
        exists|order: Seq<usize>| #[trigger]
            shuffles(from, outside, order, to) && probes == order.take(
                if wanted <= outside.len() {
                    wanted as int
                } else {
                    outside.len() as int
                },
            )
    }
}

/// Sample up to `r_probe` servers uniformly without replacement from those not in the pool.
pub fn sample_probe_targets(
    n_servers: usize,
    pool: &CandidatePool,
    r_probe: usize,
    rng: &mut RunRng,
) -> (r: Vec<usize>)
    ensures
        r@.len() == if r_probe <= unpooled(n_servers as nat, pool@).len() {
            r_probe as nat
        } else {
            unpooled(n_servers as nat, pool@).len()
        },
        r@.no_duplicates(),
        forall|i: int|
            0 <= i < r@.len() ==> (#[trigger] r@[i]) < n_servers && !pooled(pool@, r@[i]),
        draws_probes(
            n_servers,
            pool@,
            r_probe as nat,
            old(rng).generator(),
            r@,
            final(rng).generator(),
        ),
{
    let mut candidates = unpooled_servers(n_servers, pool);
    if r_probe == 0 || candidates.len() == 0 {
        return Vec::new();
    }
    let ghost before = candidates@;
    shuffle(rng, &mut candidates);
    proof {
        lemma_unpooled(n_servers as nat, pool@);
        before.to_multiset_ensures();
        candidates@.to_multiset_ensures();
        before.lemma_multiset_has_no_duplicates();
        candidates@.lemma_multiset_has_no_duplicates_conv();
        assert forall|i: int| 0 <= i < candidates@.len() implies (#[trigger] candidates@[i])
            < n_servers && !pooled(pool@, candidates@[i]) by {
            assert(candidates@.contains(candidates@[i]));
            assert(before.to_multiset().count(candidates@[i]) > 0);
            let j = choose|j: int| 0 <= j < before.len() && before[j] == candidates@[i];
            assert(unpooled(n_servers as nat, pool@)[j] == candidates@[i]);
        }
    }
    let ghost order = candidates@;
    assert(shuffles(old(rng).generator(), before, order, rng.generator()));
    if r_probe < candidates.len() {
        candidates.truncate(r_probe);
    }
    assert(candidates@ =~= order.take(candidates@.len() as int));
    candidates
}

/// The best candidate reports no more load than any other, and the worst no less; of those
/// that are tied, both are the oldest.
pub proof fn law_best_and_worst_candidates(entries: Seq<Candidate>, best: int, j: int)
    requires
        entries.len() > 0,
        0 <= j < entries.len(),
    ensures
        is_best(entries, best) ==> 0 <= best < entries.len() && entries[best].rif <= entries[j].rif
            && (entries[best].rif == entries[j].rif ==> best <= j),
        0 <= worst(entries) < entries.len(),
        entries[worst(entries)].rif >= entries[j].rif,
        entries[worst(entries)].rif == entries[j].rif ==> worst(entries) <= j,
{
    lemma_worst_exists(entries, entries.len());
    let w = worst(entries);
    assert(is_worst(entries, w));
    if j < w {
        assert(entries[j].rif < entries[w].rif);
    }
    if is_best(entries, best) && j < best {
        assert(entries[best].rif < entries[j].rif);
    }
}

/// Removals that are due take away the candidates with the most load: as many as are due, or
/// all, and whatever is kept reports no more load than anything that was taken away.
pub proof fn law_removals_take_the_most_loaded(entries: Seq<Candidate>, due: nat)
    ensures
        without_worst(entries, due).len() == if due <= entries.len() {
            (entries.len() - due) as nat
        } else {
            0
        },
        forall|c: Candidate| #[trigger]
            without_worst(entries, due).contains(c) ==> entries.contains(c),
        forall|c: Candidate, d: Candidate|
            #![trigger without_worst(entries, due).contains(c), entries.contains(d)]
            without_worst(entries, due).contains(c) && entries.contains(d)
                && !without_worst(entries, due).contains(d) ==> c.rif <= d.rif,
    decreases due,
{
    if due > 0 && entries.len() > 0 {
        lemma_worst_exists(entries, entries.len());
        let at = worst(entries);
        assert(is_worst(entries, at));
        let rest = entries.remove(at);
        law_removals_take_the_most_loaded(rest, (due - 1) as nat);
        let kept = without_worst(entries, due);
        assert(kept == without_worst(rest, (due - 1) as nat));
        assert forall|c: Candidate| #[trigger] kept.contains(c) implies entries.contains(c) by {
            assert(rest.contains(c));
            let i = choose|i: int| 0 <= i < rest.len() && rest[i] == c;
            assert(entries[if i < at {
                i
            } else {
                i + 1
            }] == c);
        }
        assert forall|c: Candidate, d: Candidate|
            #![trigger kept.contains(c), entries.contains(d)]
            kept.contains(c) && entries.contains(d) && !kept.contains(d) implies c.rif
            <= d.rif by {
            let i = choose|i: int| 0 <= i < entries.len() && entries[i] == d;
            assert(entries.contains(c));
            let k = choose|k: int| 0 <= k < entries.len() && entries[k] == c;
            if i == at {
                assert(entries[k].rif <= entries[at].rif);
            } else {
                assert(rest[if i < at {
                    i
                } else {
                    i - 1
                }] == d);
                assert(rest.contains(d));
            }
        }
    }
}

/// The servers outside the pool are exactly those that no candidate stands for, each once and
/// in ascending order. What is probed is among them: at most as many as wanted, and all of
/// them where there are no more than that.
pub proof fn law_probes_go_outside_the_pool(
    n_servers: usize,
    pool: Seq<Candidate>,
    wanted: nat,
    from: Option<StdRng>,
    probes: Seq<usize>,
    to: Option<StdRng>,
)
    requires
        draws_probes(n_servers, pool, wanted, from, probes, to),
    ensures
        probes.len() <= wanted,
        probes.no_duplicates(),
        forall|i: int|
            0 <= i < probes.len() ==> (#[trigger] probes[i]) < n_servers && forall|j: int|
                0 <= j < pool.len() ==> (#[trigger] pool[j]).server_idx != probes[i],
        probes.len() < wanted ==> forall|server: usize|
            server < n_servers && !(#[trigger] probes.contains(server)) ==> exists|j: int|
                0 <= j < pool.len() && (#[trigger] pool[j]).server_idx == server,
{
    let outside = unpooled(n_servers as nat, pool);
    lemma_unpooled(n_servers as nat, pool);
    if wanted > 0 && outside.len() > 0 {
        let order = choose|order: Seq<usize>| #[trigger]
            shuffles(from, outside, order, to) && probes == order.take(
                if wanted <= outside.len() {
                    wanted as int
                } else {
                    outside.len() as int
                },
            );
        outside.to_multiset_ensures();
        order.to_multiset_ensures();
        outside.lemma_multiset_has_no_duplicates();
        order.lemma_multiset_has_no_duplicates_conv();
        assert forall|i: int| 0 <= i < probes.len() implies (#[trigger] probes[i]) < n_servers
            && forall|j: int|
            0 <= j < pool.len() ==> (#[trigger] pool[j]).server_idx != probes[i] by {
            assert(order[i] == probes[i]);
            assert(order.contains(order[i]));
            assert(outside.to_multiset().count(order[i]) > 0);
            let k = choose|k: int| 0 <= k < outside.len() && outside[k] == order[i];
            assert(!pooled(pool, outside[k]));
        }
        if probes.len() < wanted {
            assert(probes =~= order);
            assert forall|server: usize|
                server < n_servers && !(#[trigger] probes.contains(server)) implies exists|j: int|
                0 <= j < pool.len() && (#[trigger] pool[j]).server_idx == server by {
                if !pooled(pool, server) {
                    lemma_unpooled_are_all(n_servers as nat, pool, server);
                    assert(outside.contains(server));
                    assert(order.to_multiset().count(server) > 0);
                    assert(order.contains(server));
                }
            }
        }
    } else if wanted > 0 {
        assert forall|server: usize|
            server < n_servers && !(#[trigger] probes.contains(server)) implies exists|j: int|
            0 <= j < pool.len() && (#[trigger] pool[j]).server_idx == server by {
            if !pooled(pool, server) {
                lemma_unpooled_are_all(n_servers as nat, pool, server);
                assert(outside.contains(server));
            }
        }
    }
}

proof fn lemma_unpooled_are_all(n: nat, entries: Seq<Candidate>, server: usize)
    requires
        server < n,
        n <= usize::MAX,
        !pooled(entries, server),
    ensures
        unpooled(n, entries).contains(server),
    decreases n,
{
    let before = unpooled((n - 1) as nat, entries);
    let now = unpooled(n, entries);
    if server == n - 1 {
        assert(now[before.len() as int] == server);
    } else {
        lemma_unpooled_are_all((n - 1) as nat, entries, server);
        let i = choose|i: int| 0 <= i < before.len() && before[i] == server;
        assert(now[i] == server);
    }
}

} // verus!
