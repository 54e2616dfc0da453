//! The time average of a level that changes in steps.
//!
//! Points in time are nanoseconds since the start of the simulation.

use vstd::prelude::*;

verus! {

/// What an accumulator is made of.
#[derive(Clone, Copy, Debug, PartialEq, Eq, Structural)]
pub struct OccupancyState {
    pub last_sample_time: Option<u64>,
    pub last_level: u32,
    /// Level times nanoseconds up to the last sample.
    pub integral: u128,
}

impl OccupancyState {
    /// The area fits the time that has passed.
    pub open spec fn wf(self) -> bool {
        match self.last_sample_time {
            Some(t) => self.integral <= u32::MAX * t,
            None => self.integral == 0,
        }
    }

    /// The area up to `now`: the last level lasted until then. Before the first sample the
    /// level is 0.
    pub open spec fn area(self, now: u64) -> int {
        match self.last_sample_time {
            Some(t) => self.integral + self.last_level * (now - t),
            None => self.integral as int,
        }
    }

    /// No sample was taken after `now`.
    pub open spec fn is_before(self, now: u64) -> bool {
        self.last_sample_time matches Some(t) ==> t <= now
    }

    /// The state once `level` was sampled at `now`.
    pub open spec fn sampled(self, now: u64, level: u32) -> OccupancyState {
        OccupancyState {
            last_sample_time: Some(now),
            last_level: level,
            integral: self.area(now) as u128,
        }
    }
}

/// An area over the time in which it was gathered; their quotient is the average level.
#[derive(Clone, Copy, Debug, PartialEq, Eq, Structural)]
pub struct OccupancyAverage {
    pub area: u128,
    pub span: u64,
}

#[derive(Clone, Copy, Debug)]
pub struct OccupancyAccumulator {
    state: OccupancyState,
}

impl View for OccupancyAccumulator {
    type V = OccupancyState;

    closed spec fn view(&self) -> OccupancyState {
        self.state
    }
}

impl Default for OccupancyAccumulator {
    fn default() -> (r: OccupancyAccumulator)
        ensures
            r@ == (OccupancyState { last_sample_time: None, last_level: 0, integral: 0 }),
    {
        OccupancyAccumulator {
            state: OccupancyState { last_sample_time: None, last_level: 0, integral: 0 },
        }
    }
}

proof fn lemma_area_bound(state: OccupancyState, now: u64)
    requires
        state.wf(),
        state.is_before(now),
    ensures
        0 <= state.area(now) <= u32::MAX * now,
        u32::MAX * now <= u128::MAX,
{
    if let Some(t) = state.last_sample_time {
        let level = state.last_level;
        assert(0 <= level * (now - t)) by (nonlinear_arith)
            requires
                t <= now,
        ;
        assert(level * (now - t) <= u32::MAX * (now - t)) by (nonlinear_arith)
            requires
                t <= now,
                level <= u32::MAX,
        ;
        assert(u32::MAX * t + u32::MAX * (now - t) == u32::MAX * now) by (nonlinear_arith);
    }
}

impl OccupancyAccumulator {
    pub open spec fn wf(&self) -> bool {
        self@.wf()
    }

    fn area_at(&self, now: u64) -> (r: u128)
        requires
            self.wf(),
            self@.is_before(now),
        ensures
            r == self@.area(now),
    {
        proof {
            lemma_area_bound(self@, now);
        }
        match self.state.last_sample_time {
            Some(t) => {
                let dt: u64 = now - t;
                proof {
                    assert(self.state.last_level * dt >= 0) by (nonlinear_arith)
                        requires
                            dt >= 0,
                            self.state.last_level >= 0,
                    ;
                }
                let grown: u128 = (self.state.last_level as u128) * (dt as u128);
                self.state.integral + grown
            },
            None => self.state.integral,
        }
    }

    /// Samples `level` at `now`.
    pub fn record(&mut self, now: u64, level: u32)
        requires
            old(self).wf(),
            old(self)@.is_before(now),
        ensures
            final(self).wf(),
            final(self)@ == old(self)@.sampled(now, level),
    {
        proof {
            lemma_area_bound(self@, now);
        }
        let integral: u128 = self.area_at(now);
        self.state = OccupancyState { last_sample_time: Some(now), last_level: level, integral };
    }

    /// The area from `sim_start` to `end`, and how long that is. Where it is no time at all,
    /// the average is 0. The accumulator then holds that area, and is not used any more.
    pub fn finalize(&mut self, end: u64, sim_start: u64) -> (r: OccupancyAverage)
        requires
            old(self).wf(),
            old(self)@.is_before(end),
            sim_start <= end,
        ensures
            r.area == old(self)@.area(end),
            r.span == end - sim_start,
            final(self)@ == (OccupancyState { integral: r.area, ..old(self)@ }),
    {
        self.state.integral = self.area_at(end);
        OccupancyAverage { area: self.state.integral, span: end - sim_start }
    }
}

/// How many calls wait in queues of these lengths.
pub open spec fn total_waiting(waiting: Seq<usize>) -> nat
    decreases waiting.len(),
{
    if waiting.len() == 0 {
        0
    } else {
        total_waiting(waiting.drop_last()) + waiting.last() as nat
    }
}

proof fn lemma_some_wait_no_more(waiting: Seq<usize>, k: int)
    requires
        0 <= k <= waiting.len(),
    ensures
        total_waiting(waiting.take(k)) <= total_waiting(waiting),
    decreases waiting.len(),
{
    if k < waiting.len() {
        lemma_some_wait_no_more(waiting.drop_last(), k);
        assert(waiting.drop_last().take(k) =~= waiting.take(k));
    } else {
        assert(waiting.take(k) =~= waiting);
    }
}

/// The level of a server: the `own` items that it holds, and the calls that it has made and
/// that still wait in the queues of its balancer.
pub fn server_level(own: u32, waiting: &Vec<usize>) -> (r: u32)
    requires
        own + total_waiting(waiting@) <= u32::MAX,
    ensures
        r == own + total_waiting(waiting@),
{
    let mut level: u32 = own;
    let mut i: usize = 0;
    while i < waiting.len()
        invariant
            i <= waiting@.len(),
            own + total_waiting(waiting@) <= u32::MAX,
            level == own + total_waiting(waiting@.take(i as int)),
        decreases waiting@.len() - i,
    {
        proof {
            assert(waiting@.take(i + 1).drop_last() =~= waiting@.take(i as int));
            lemma_some_wait_no_more(waiting@, i + 1);
        }
        level = level + waiting[i] as u32;
        i += 1;
    }
    assert(waiting@.take(i as int) =~= waiting@);
    level
}

/// Of two samples at the same time only the second counts.
pub proof fn law_last_sample_of_an_instant_counts(
    state: OccupancyState,
    now: u64,
    first: u32,
    second: u32,
)
    requires
        state.wf(),
        state.is_before(now),
    ensures
        state.sampled(now, first).sampled(now, second) == state.sampled(now, second),
{
    lemma_area_bound(state, now);
    assert(first * (now - now) == 0) by (nonlinear_arith);
}

/// A sample of the level that is there already changes no area that is read later.
pub proof fn law_repeated_level_changes_nothing(state: OccupancyState, now: u64, end: u64)
    requires
        state.wf(),
        state.is_before(now),
        now <= end,
        state.last_sample_time is Some,
    ensures
        state.sampled(now, state.last_level).area(end) == state.area(end),
{
    lemma_area_bound(state, now);
    let t = state.last_sample_time->0;
    let level = state.last_level;
    assert(level * (now - t) + level * (end - now) == level * (end - t)) by (nonlinear_arith);
}

/// A level that never changes is its own average.
pub proof fn law_constant_level_is_the_average(start: u64, end: u64, level: u32)
    requires
        start <= end,
    ensures
        (OccupancyState {
            last_sample_time: Some(start),
            last_level: level,
            integral: 0,
        }).area(end) == level * (end - start),
{
}

/// A level counts from the moment it was sampled: between two points in time the area grows by
/// the level times the time that passed, and a sample itself adds nothing. Before the first
/// sample nothing is counted.
pub proof fn law_level_counts_from_its_sample(
    state: OccupancyState,
    now: u64,
    level: u32,
    end: u64,
)
    requires
        state.wf(),
        state.is_before(now),
        now <= end,
    ensures
        state.sampled(now, level).area(now) == state.area(now),
        state.sampled(now, level).area(end) == state.area(now) + level * (end - now),
        state.last_sample_time is None ==> state.area(now) == 0,
{
    lemma_area_bound(state, now);
    assert(level * (now - now) == 0) by (nonlinear_arith);
}

/// Every queue counts: one more queue adds what waits in it.
pub proof fn law_every_queue_counts(waiting: Seq<usize>, queue: usize)
    ensures
        total_waiting(Seq::empty()) == 0,
        total_waiting(waiting.push(queue)) == total_waiting(waiting) + queue,
{
    assert(waiting.push(queue).drop_last() =~= waiting);
}

} // verus!
