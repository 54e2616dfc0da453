//! Visits of requests to microservices, and what they add up to.
//!
//! A visit begins when a request arrives at a microservice and ends when the request
//! leaves it. All times are nanoseconds.

use super::callgraph::names_of;
use crate::key_map::{KeyMap, NameMap};
use crate::ledger::LaneKey;
use crate::samples::{consecutive_diffs, gaps, is_sorted_of, sorted};
use vstd::prelude::*;

verus! {

/// Nanoseconds in a millisecond.
pub const NANOS_PER_MS: u64 = 1_000_000;

/// A request at a microservice.
struct VisitKey {
    request_id: u64,
    microservice: String,
}

impl LaneKey for VisitKey {
    type Id = (u64, Seq<char>);

    closed spec fn id(&self) -> (u64, Seq<char>) {
        (self.request_id, self.microservice@)
    }

    fn same(&self, other: &VisitKey) -> (r: bool) {
        self.request_id == other.request_id && self.microservice == other.microservice
    }
}

/// A visit that has not ended.
#[derive(Clone, Copy, Debug, PartialEq, Eq, Structural)]
pub struct ActiveVisit {
    pub arrival: u64,
    pub deadline: u64,
    /// How long the calls that the visit made took.
    pub downstream_response: u64,
    /// How long the microservice itself worked on the request.
    pub local_processing: u64,
}

/// A visit that has ended.
#[derive(Clone, Copy, Debug, PartialEq, Eq, Structural)]
pub struct VisitSample {
    pub request_id: u64,
    pub arrival: u64,
    pub departure: u64,
    pub response: u64,
    pub queueing: u64,
    pub processing: u64,
    /// How much time was left until the deadline when the visit began.
    pub slack: i128,
}

/// What is left of `a` without `b`, but not below 0.
pub open spec fn less(a: u64, b: u64) -> u64 {
    if b <= a {
        (a - b) as u64
    } else {
        0
    }
}

/// `a` and `b` together, up to the largest number there is.
pub open spec fn capped_sum(a: u64, b: int) -> u64 {
    if a + b <= u64::MAX {
        (a + b) as u64
    } else {
        u64::MAX
    }
}

impl ActiveVisit {
    /// The visit when it ends at `departure`. It queued for as long as neither a call nor
    /// the microservice itself worked on the request.
    pub open spec fn ended(self, request_id: u64, departure: u64) -> VisitSample {
        let response = less(departure, self.arrival);
        VisitSample {
            request_id,
            arrival: self.arrival,
            departure,
            response,
            queueing: less(less(response, self.downstream_response), self.local_processing),
            processing: self.local_processing,
            slack: (self.deadline - self.arrival) as i128,
        }
    }
}

impl VisitSample {
    /// The visit ended after the deadline.
    pub open spec fn is_late(self) -> bool {
        self.response > self.slack
    }
}

/// How many of `samples` ended after their deadline.
pub open spec fn late_visits(samples: Seq<VisitSample>) -> nat
    decreases samples.len(),
{
    if samples.len() == 0 {
        0
    } else {
        late_visits(samples.drop_last()) + if samples.last().is_late() {
            1nat
        } else {
            0nat
        }
    }
}

/// The queueing of the last visit of `request`, if there was one.
pub open spec fn queueing_of(samples: Seq<VisitSample>, request: u64) -> Option<u64>
    decreases samples.len(),
{
    if samples.len() == 0 {
        None
    } else if samples.last().request_id == request {
        Some(samples.last().queueing)
    } else {
        queueing_of(samples.drop_last(), request)
    }
}

/// The running sum of a row; a gap stays a gap and adds nothing.
pub open spec fn prefix_sum(row: Seq<Option<u64>>, k: int) -> int
    decreases k,
{
    if k <= 0 {
        0
    } else {
        prefix_sum(row, k - 1) + match row[k - 1] {
            Some(q) => q as int,
            None => 0,
        }
    }
}

pub open spec fn cumulative_row(row: Seq<Option<u64>>) -> Seq<Option<u128>> {
    Seq::new(
        row.len(),
        |i: int|
            match row[i] {
                Some(_) => Some(prefix_sum(row, i + 1) as u128),
                None => None,
            },
    )
}

/// Ended visits of a microservice, with the queueing that each request had gathered by then.
pub struct MicroserviceSamples {
    pub visits: Vec<VisitSample>,
    pub cumulative: Vec<Option<u128>>,
}

/// What a tracker is made of.
#[verifier::ext_equal]
pub struct TrackerState {
    pub active: Map<(u64, Seq<char>), ActiveVisit>,
    pub visits: Map<Seq<char>, Seq<VisitSample>>,
    pub cumulative: Map<Seq<char>, Seq<Option<u128>>>,
    /// The microservices in the order in which queueing adds up.
    pub order: Seq<Seq<char>>,
}

impl TrackerState {
    /// Every active visit began at `now` or before.
    pub open spec fn started_by(self, now: u64) -> bool {
        forall|key: (u64, Seq<char>)| #[trigger]
            self.active.dom().contains(key) ==> self.active[key].arrival <= now
    }

    /// `duration` can still be added to the work on a visit.
    pub open spec fn can_add(self, key: (u64, Seq<char>), duration: u64) -> bool {
        self.active.dom().contains(key) ==> self.active[key].local_processing + duration <= u64::MAX
    }

    pub open spec fn with_arrival(
        self,
        key: (u64, Seq<char>),
        arrival: u64,
        deadline: u64,
    ) -> TrackerState {
        TrackerState {
            active: self.active.insert(
                key,
                ActiveVisit { arrival, deadline, downstream_response: 0, local_processing: 0 },
            ),
            ..self
        }
    }

    pub open spec fn with_downstream(self, key: (u64, Seq<char>), ms: u64) -> TrackerState {
        if self.active.dom().contains(key) {
            TrackerState {
                active: self.active.insert(
                    key,
                    ActiveVisit {
                        downstream_response: capped_sum(
                            self.active[key].downstream_response,
                            ms * NANOS_PER_MS,
                        ),
                        ..self.active[key]
                    },
                ),
                ..self
            }
        } else {
            self
        }
    }

    pub open spec fn with_processing(self, key: (u64, Seq<char>), duration: u64) -> TrackerState {
        if self.active.dom().contains(key) {
            TrackerState {
                active: self.active.insert(
                    key,
                    ActiveVisit {
                        local_processing: (self.active[key].local_processing + duration) as u64,
                        ..self.active[key]
                    },
                ),
                ..self
            }
        } else {
            self
        }
    }

    /// The ended visits of a microservice.
    pub open spec fn visits_of(self, id: Seq<char>) -> Seq<VisitSample> {
        if self.visits.dom().contains(id) {
            self.visits[id]
        } else {
            Seq::empty()
        }
    }

    pub open spec fn cumulative_of(self, id: Seq<char>) -> Seq<Option<u128>> {
        if self.cumulative.dom().contains(id) {
            self.cumulative[id]
        } else {
            Seq::empty()
        }
    }

    /// The state once the visit `key` ended.
    pub open spec fn with_departure(self, key: (u64, Seq<char>), departure: u64) -> TrackerState {
        if self.active.dom().contains(key) {
            TrackerState {
                active: self.active.remove(key),
                visits: self.visits.insert(
                    key.1,
                    self.visits_of(key.1).push(self.active[key].ended(key.0, departure)),
                ),
                cumulative: self.cumulative.insert(key.1, self.cumulative_of(key.1).push(None)),
                ..self
            }
        } else {
            self
        }
    }

    /// Where a microservice stands in the order; the last place counts.
    pub open spec fn is_place(self, i: int) -> bool {
        &&& 0 <= i < self.order.len()
        &&& forall|j: int| i < j < self.order.len() ==> (#[trigger] self.order[j]) != self.order[i]
    }

    /// How long `request` queued at each microservice.
    pub open spec fn row(self, request: u64) -> Seq<Option<u64>> {
        Seq::new(
            self.order.len(),
            |i: int|
                if self.is_place(i) {
                    queueing_of(self.visits_of(self.order[i]), request)
                } else {
                    None
                },
        )
    }

    /// `request` ended a visit of a microservice that has a place in the order.
    pub open spec fn has_row(self, request: u64) -> bool {
        exists|i: int| 0 <= i < self.order.len() && #[trigger] self.row(request)[i] is Some
    }

    /// The queueing that the visits of `id` had gathered.
    pub open spec fn gathered(self, id: Seq<char>, place: int) -> Seq<Option<u128>> {
        Seq::new(
            self.visits_of(id).len(),
            |k: int| cumulative_row(self.row(self.visits_of(id)[k].request_id))[place],
        )
    }
}

pub open spec fn arrivals_of(visits: Seq<VisitSample>) -> Seq<u64> {
    visits.map_values(|v: VisitSample| v.arrival)
}

pub open spec fn departures_of(visits: Seq<VisitSample>) -> Seq<u64> {
    visits.map_values(|v: VisitSample| v.departure)
}

pub open spec fn responses_of(visits: Seq<VisitSample>) -> Seq<u64> {
    visits.map_values(|v: VisitSample| v.response)
}

pub open spec fn queueings_of(visits: Seq<VisitSample>) -> Seq<u64> {
    visits.map_values(|v: VisitSample| v.queueing)
}

pub open spec fn processings_of(visits: Seq<VisitSample>) -> Seq<u64> {
    visits.map_values(|v: VisitSample| v.processing)
}

pub open spec fn slacks_of(visits: Seq<VisitSample>) -> Seq<i128> {
    visits.map_values(|v: VisitSample| v.slack)
}

/// What the visits of a microservice come to.
#[derive(Clone, Debug)]
pub struct MicroserviceStats {
    pub inter_arrival: Vec<u64>,
    pub inter_departure: Vec<u64>,
    pub response_time: Vec<u64>,
    pub queueing_delay: Vec<u64>,
    pub cumulative_queueing_delay: Vec<Option<u128>>,
    pub processing_time: Vec<u64>,
    pub slack_d: Vec<i128>,
    /// How many visits ended after the deadline; over the number of visits, the
    /// probability that a visit does.
    pub slo_violations: usize,
}

impl MicroserviceStats {
    /// These are the numbers of `visits`.
    pub open spec fn describes(
        self,
        visits: Seq<VisitSample>,
        cumulative: Seq<Option<u128>>,
    ) -> bool {
        &&& exists|order: Seq<u64>| #[trigger]
            is_sorted_of(arrivals_of(visits), order)
                && self.inter_arrival@ == gaps(order)
        &&& exists|order: Seq<u64>| #[trigger]
            is_sorted_of(departures_of(visits), order)
                && self.inter_departure@ == gaps(order)
        &&& self.response_time@ == responses_of(visits)
        &&& self.queueing_delay@ == queueings_of(visits)
        &&& self.cumulative_queueing_delay@ == cumulative
        &&& self.processing_time@ == processings_of(visits)
        &&& self.slack_d@ == slacks_of(visits)
        &&& self.slo_violations == late_visits(visits)
    }
}

/// Records visits.
pub struct MicroserviceVisitTracker {
    active: KeyMap<VisitKey, ActiveVisit>,
    samples: NameMap<MicroserviceSamples>,
    order: Vec<String>,
}

impl View for MicroserviceVisitTracker {
    type V = TrackerState;

    closed spec fn view(&self) -> TrackerState {
        TrackerState {
            active: self.active@,
            visits: self.samples@.map_values(|s: MicroserviceSamples| s.visits@),
            cumulative: self.samples@.map_values(|s: MicroserviceSamples| s.cumulative@),
            order: names_of(self.order@),
        }
    }
}

impl MicroserviceVisitTracker {
    pub closed spec fn wf(&self) -> bool {
        &&& self.active.wf()
        &&& self.samples.wf()
    }

    pub fn new(microservice_order: &Vec<String>) -> (r: MicroserviceVisitTracker)
        ensures
            r.wf(),
            r@ == (TrackerState {
                active: Map::empty(),
                visits: Map::empty(),
                cumulative: Map::empty(),
                order: names_of(microservice_order@),
            }),
    {
        let mut order: Vec<String> = Vec::new();
        let mut i: usize = 0;
        while i < microservice_order.len()
            invariant
                i <= microservice_order@.len(),
                order@ == microservice_order@.take(i as int),
            decreases microservice_order@.len() - i,
        {
            order.push(microservice_order[i].clone());
            i += 1;
        }
        assert(order@ =~= microservice_order@);
        let r = MicroserviceVisitTracker { active: KeyMap::new(), samples: KeyMap::new(), order };
        assert(r@ =~= (TrackerState {
            active: Map::empty(),
            visits: Map::empty(),
            cumulative: Map::empty(),
            order: names_of(microservice_order@),
        }));
        r
    }

    /// A request arrives at a microservice.
    pub fn record_arrival(
        &mut self,
        request_id: u64,
        microservice_id: &String,
        arrival: u64,
        deadline: u64,
    )
        requires
            old(self).wf(),
        ensures
            final(self).wf(),
            final(self)@ == old(self)@.with_arrival(
                (request_id, microservice_id@),
                arrival,
                deadline,
            ),
    {
        let key = VisitKey { request_id, microservice: microservice_id.clone() };
        self.active.insert(
            key,
            ActiveVisit { arrival, deadline, downstream_response: 0, local_processing: 0 },
        );
        assert(self@ =~= old(self)@.with_arrival(
            (request_id, microservice_id@),
            arrival,
            deadline,
        ));
    }

    /// A call that a visit made took `response_ms` milliseconds. Beyond the largest number
    /// there is, more makes no difference: the visit then never queued.
    pub fn add_downstream_response(
        &mut self,
        request_id: u64,
        microservice_id: &String,
        response_ms: u64,
    )
        requires
            old(self).wf(),
        ensures
            final(self).wf(),
            final(self)@ == old(self)@.with_downstream(
                (request_id, microservice_id@),
                response_ms,
            ),
    {
        let ghost k = (request_id, microservice_id@);
        let key = VisitKey { request_id, microservice: microservice_id.clone() };
        match self.active.find(&key) {
            Some(i) => {
                let visit = *self.active.value_at(i);
                let sum: u128 = visit.downstream_response as u128 + (response_ms as u128) * (
                NANOS_PER_MS as u128);
                let downstream_response: u64 = if sum <= u64::MAX as u128 {
                    sum as u64
                } else {
                    u64::MAX
                };
                *self.active.value_mut(i) = ActiveVisit { downstream_response, ..visit };
            },
            None => {},
        }
        assert(self@ =~= old(self)@.with_downstream(k, response_ms));
    }

    /// The microservice worked on a visit.
    pub fn add_local_processing(&mut self, request_id: u64, microservice_id: &String, duration: u64)
        requires
            old(self).wf(),
            old(self)@.can_add((request_id, microservice_id@), duration),
        ensures
            final(self).wf(),
            final(self)@ == old(self)@.with_processing((request_id, microservice_id@), duration),
    {
        let ghost k = (request_id, microservice_id@);
        let key = VisitKey { request_id, microservice: microservice_id.clone() };
        match self.active.find(&key) {
            Some(i) => {
                let visit = *self.active.value_at(i);
                let local_processing: u64 = visit.local_processing + duration;
                *self.active.value_mut(i) = ActiveVisit { local_processing, ..visit };
            },
            None => {},
        }
        assert(self@ =~= old(self)@.with_processing(k, duration));
    }

    /// Ends a visit and returns how long it took. Nothing happens where there is no visit.
    pub fn finalize_visit(&mut self, request_id: u64, microservice_id: &String, departure: u64) -> (r:
        Option<u64>)
        requires
            old(self).wf(),
            old(self)@.started_by(departure),
        ensures
            final(self).wf(),
            final(self)@ == old(self)@.with_departure((request_id, microservice_id@), departure),
            match r {
                Some(response) => old(self)@.active.dom().contains((request_id, microservice_id@))
                    && response == departure - old(self)@.active[(
                    request_id,
                    microservice_id@,
                )].arrival,
                None => !old(self)@.active.dom().contains((request_id, microservice_id@)),
            },
    {
        let ghost k = (request_id, microservice_id@);
        let ghost start = self@;
        let key = VisitKey { request_id, microservice: microservice_id.clone() };
        let visit = match self.active.remove(&key) {
            Some(visit) => visit,
            None => {
                assert(self@ =~= start);
                return None;
            },
        };
        assert(start.active.dom().contains(k));
        let response: u64 = departure - visit.arrival;
        let own: u64 = response.saturating_sub(visit.downstream_response);
        let sample = VisitSample {
            request_id,
            arrival: visit.arrival,
            departure,
            response,
            queueing: own.saturating_sub(visit.local_processing),
            processing: visit.local_processing,
            slack: visit.deadline as i128 - visit.arrival as i128,
        };
        assert(sample == start.active[k].ended(request_id, departure));
        match self.samples.find(microservice_id) {
            Some(i) => {
                let slot = self.samples.value_mut(i);
                slot.visits.push(sample);
                slot.cumulative.push(None);
            },
            None => {
                let mut visits: Vec<VisitSample> = Vec::new();
                visits.push(sample);
                let mut cumulative: Vec<Option<u128>> = Vec::new();
                cumulative.push(None);
                assert(visits@ =~= Seq::<VisitSample>::empty().push(sample));
                assert(cumulative@ =~= Seq::<Option<u128>>::empty().push(None));
                self.samples.insert(
                    microservice_id.clone(),
                    MicroserviceSamples { visits, cumulative },
                );
            },
        }
        assert(self@ =~= start.with_departure(k, departure));
        Some(response)
    }
}

/// The states differ in the gathered queueing only: each microservice with a place in the
/// order has what its visits had gathered there, any other what it had.
pub open spec fn gathers(before: TrackerState, after: TrackerState) -> bool {
    &&& after == (TrackerState { cumulative: after.cumulative, ..before })
    &&& after.cumulative.dom() == before.cumulative.dom()
    &&& forall|i: int|
        #[trigger] before.is_place(i) && before.visits.dom().contains(before.order[i])
            ==> after.cumulative[before.order[i]] == before.gathered(before.order[i], i)
    &&& forall|id: Seq<char>| #[trigger]
        before.cumulative.dom().contains(id) && !before.order.contains(id)
            ==> after.cumulative[id] == before.cumulative[id]
}

/// The request ids that have a row, each once, lowest first.
pub open spec fn are_row_ids(state: TrackerState, ids: Seq<u64>) -> bool {
    &&& forall|i: int, j: int|
        #![trigger ids[i], ids[j]]
        0 <= i < j < ids.len() ==> ids[i] < ids[j]
    &&& forall|request: u64| #[trigger] ids.contains(request) <==> state.has_row(request)
}

/// How long the last visit of `request` queued.
fn last_queueing(visits: &Vec<VisitSample>, request: u64) -> (r: Option<u64>)
    ensures
        r == queueing_of(visits@, request),
{
    let mut i: usize = visits.len();
    assert(visits@.take(i as int) =~= visits@);
    while i > 0
        invariant
            i <= visits@.len(),
            queueing_of(visits@, request) == queueing_of(visits@.take(i as int), request),
        decreases i,
    {
        assert(visits@.take(i as int).drop_last() =~= visits@.take(i - 1));
        assert(visits@.take(i as int).last() == visits@[i - 1]);
        if visits[i - 1].request_id == request {
            return Some(visits[i - 1].queueing);
        }
        i -= 1;
    }
    None
}

proof fn lemma_queueing_some(visits: Seq<VisitSample>, request: u64)
    ensures
        queueing_of(visits, request) is Some <==> exists|k: int|
            0 <= k < visits.len() && (#[trigger] visits[k]).request_id == request,
    decreases visits.len(),
{
    if visits.len() > 0 {
        let shorter = visits.drop_last();
        lemma_queueing_some(shorter, request);
        if visits.last().request_id == request {
            assert(visits[visits.len() - 1].request_id == request);
        } else {
            if exists|k: int| 0 <= k < visits.len() && (#[trigger] visits[k]).request_id == request {
                let k = choose|k: int|
                    0 <= k < visits.len() && (#[trigger] visits[k]).request_id == request;
                assert(shorter[k].request_id == request);
            }
            if exists|k: int|
                0 <= k < shorter.len() && (#[trigger] shorter[k]).request_id == request {
                let k = choose|k: int|
                    0 <= k < shorter.len() && (#[trigger] shorter[k]).request_id == request;
                assert(visits[k].request_id == request);
            }
        }
    }
}

proof fn lemma_prefix_bounds(row: Seq<Option<u64>>, k: int)
    requires
        0 <= k <= row.len(),
    ensures
        0 <= prefix_sum(row, k) <= k * u64::MAX,
    decreases k,
{
    if k > 0 {
        lemma_prefix_bounds(row, k - 1);
        assert((k - 1) * u64::MAX + u64::MAX == k * u64::MAX) by (nonlinear_arith);
    }
}

/// The running sum of the queueing along a row; a gap stays a gap.
pub fn cumulative_prefix(row: &Vec<Option<u64>>) -> (r: Vec<Option<u128>>)
    ensures
        r@ == cumulative_row(row@),
{
    let mut out: Vec<Option<u128>> = Vec::new();
    let mut prefix: u128 = 0;
    let n: usize = row.len();
    let mut i: usize = 0;
    while i < n
        invariant
            i <= n,
            n == row@.len(),
            prefix == prefix_sum(row@, i as int),
            out@.len() == i,
            forall|j: int| 0 <= j < i ==> (#[trigger] out@[j]) == cumulative_row(row@)[j],
        decreases n - i,
    {
        proof {
            lemma_prefix_bounds(row@, i + 1);
            assert((i + 1) * u64::MAX <= (usize::MAX + 1) * u64::MAX) by (nonlinear_arith)
                requires
                    i <= usize::MAX,
            ;
            assert((usize::MAX + 1) * u64::MAX <= u128::MAX) by (nonlinear_arith)
                requires
                    usize::MAX <= 0xffff_ffff_ffff_ffff,
            ;
        }
        match row[i] {
            Some(q) => {
                prefix = prefix + q as u128;
                out.push(Some(prefix));
            },
            None => {
                out.push(None);
            },
        }
        i += 1;
    }
    assert(out@ =~= cumulative_row(row@));
    out
}

impl MicroserviceVisitTracker {
    /// Whether `i` is the last place of its microservice in the order.
    fn has_place(&self, i: usize) -> (r: bool)
        requires
            i < self@.order.len(),
        ensures
            r == self@.is_place(i as int),
    {
        let n: usize = self.order.len();
        let mut j: usize = i + 1;
        while j < n
            invariant
                i < j <= n,
                n == self.order@.len(),
                self@.order == names_of(self.order@),
                forall|k: int| i < k < j ==> (#[trigger] self@.order[k]) != self@.order[i as int],
            decreases n - j,
        {
            if self.order[j] == self.order[i] {
                assert(self@.order[j as int] == self@.order[i as int]);
                return false;
            }
            j += 1;
        }
        true
    }

    /// How long `request` queued at each microservice.
    fn row_of(&self, request: u64) -> (r: Vec<Option<u64>>)
        requires
            self.wf(),
        ensures
            r@ == self@.row(request),
    {
        let mut out: Vec<Option<u64>> = Vec::new();
        let mut i: usize = 0;
        while i < self.order.len()
            invariant
                self.wf(),
                i <= self.order@.len(),
                self@.order == names_of(self.order@),
                out@.len() == i,
                forall|j: int| 0 <= j < i ==> (#[trigger] out@[j]) == self@.row(request)[j],
            decreases self.order@.len() - i,
        {
            let mut entry: Option<u64> = None;
            if self.has_place(i) {
                match self.samples.get(&self.order[i]) {
                    Some(samples) => {
                        entry = last_queueing(&samples.visits, request);
                    },
                    None => {},
                }
            }
            out.push(entry);
            i += 1;
        }
        assert(out@ =~= self@.row(request));
        out
    }

    /// Fills in, for every ended visit, how much queueing its request had gathered from the
    /// first microservice of the order up to this one.
    pub fn finalize_cumulative_metrics(&mut self)
        requires
            old(self).wf(),
        ensures
            final(self).wf(),
            gathers(old(self)@, final(self)@),
    {
        let ghost start = self@;
        let n: usize = self.order.len();
        let mut i: usize = 0;
        while i < n
            invariant
                self.wf(),
                start == old(self)@,
                n == start.order.len(),
                self@.order == names_of(self.order@),
                i <= n,
                self@ == (TrackerState { cumulative: self@.cumulative, ..start }),
                self@.cumulative.dom() == start.cumulative.dom(),
                start.cumulative.dom() == start.visits.dom(),
                forall|j: int|
                    0 <= j < i && #[trigger] start.is_place(j) && start.visits.dom().contains(
                        start.order[j],
                    ) ==> self@.cumulative[start.order[j]] == start.gathered(start.order[j], j),
                forall|id: Seq<char>| #[trigger]
                    start.cumulative.dom().contains(id) && !start.order.contains(id)
                        ==> self@.cumulative[id] == start.cumulative[id],
            decreases n - i,
        {
            assert(self@.is_place(i as int) == start.is_place(i as int));
            if self.has_place(i) {
                let found = self.samples.find(&self.order[i]);
                match found {
                    Some(at) => {
                        let ghost id = start.order[i as int];
                        let count: usize = self.samples.value_at(at).visits.len();
                        let mut gathered: Vec<Option<u128>> = Vec::new();
                        let mut k: usize = 0;
                        while k < count
                            invariant
                                self.wf(),
                                at < self.samples.ids().len(),
                                self.samples.ids()[at as int] == id,
                                self@.visits.dom().contains(id),
                                self@ == (TrackerState { cumulative: self@.cumulative, ..start }),
                                id == start.order[i as int],
                                i < start.order.len(),
                                count == start.visits_of(id).len(),
                                k <= count,
                                gathered@.len() == k,
                                forall|m: int|
                                    0 <= m < k ==> (#[trigger] gathered@[m]) == start.gathered(
                                        id,
                                        i as int,
                                    )[m],
                            decreases count - k,
                        {
                            let request: u64 = self.samples.value_at(at).visits[k].request_id;
                            let row = self.row_of(request);
                            assert(self@.row(request) =~= start.row(request));
                            let sums = cumulative_prefix(&row);
                            gathered.push(sums[i]);
                            k += 1;
                        }
                        assert(gathered@ =~= start.gathered(id, i as int));
                        let ghost before = *self;
                        self.samples.value_mut(at).cumulative = gathered;
                        proof {
                            assert(self@.visits =~= before@.visits);
                            assert(self@.cumulative =~= before@.cumulative.insert(
                                id,
                                gathered@,
                            ));
                            assert(self@.cumulative.dom() =~= start.cumulative.dom());
                            assert(self@ =~= (TrackerState {
                                cumulative: self@.cumulative,
                                ..start
                            }));
                            assert(start.order.contains(id));
                            assert forall|j: int|
                                0 <= j < i && #[trigger] start.is_place(j)
                                    && start.visits.dom().contains(start.order[j]) implies
                                self@.cumulative[start.order[j]] == start.gathered(
                                start.order[j],
                                j,
                            ) by {
                                assert(start.order[i as int] != start.order[j]);
                            }
                        }
                    },
                    None => {},
                }
            }
            i += 1;
        }
    }

    /// The ids of the requests that have a row, lowest first.
    pub fn row_ids(&self) -> (r: Vec<u64>)
        requires
            self.wf(),
        ensures
            are_row_ids(self@, r@),
    {
        let mut all: Vec<u64> = Vec::new();
        let mut i: usize = 0;
        while i < self.order.len()
            invariant
                self.wf(),
                i <= self.order@.len(),
                self@.order == names_of(self.order@),
                forall|request: u64| #[trigger]
                    all@.contains(request) <==> seen_before(self@, request, i as int),
            decreases self.order@.len() - i,
        {
            let ghost before = all@;
            if self.has_place(i) {
                match self.samples.get(&self.order[i]) {
                    Some(samples) => {
                        let ghost visits = self@.visits_of(self@.order[i as int]);
                        assert(visits == samples.visits@);
                        let mut k: usize = 0;
                        while k < samples.visits.len()
                            invariant
                                k <= samples.visits@.len(),
                                visits == samples.visits@,
                                forall|request: u64| #[trigger]
                                    all@.contains(request) <==> before.contains(request) || exists|
                                        m: int,
                                    | 0 <= m < k && (#[trigger] visits[m]).request_id == request,
                            decreases samples.visits@.len() - k,
                        {
                            let id: u64 = samples.visits[k].request_id;
                            let ghost shorter = all@;
                            all.push(id);
                            proof {
                                assert forall|request: u64| #[trigger]
                                    all@.contains(request) <==> before.contains(request) || exists|
                                        m: int,
                                    |
                                        0 <= m < k + 1 && (#[trigger] visits[m]).request_id
                                            == request by {
                                    lemma_push_contains(shorter, id, request);
                                    assert(visits[k as int].request_id == id);
                                }
                            }
                            k += 1;
                        }
                        proof {
                            assert forall|request: u64| #[trigger]
                                all@.contains(request) <==> seen_before(
                                self@,
                                request,
                                i + 1,
                            ) by {
                                lemma_queueing_some(visits, request);
                                lemma_seen_step(self@, request, i as int);
                                assert(before.contains(request) <==> seen_before(
                                    self@,
                                    request,
                                    i as int,
                                ));
                            }
                        }
                    },
                    None => {
                        proof {
                            assert forall|request: u64| #[trigger]
                                all@.contains(request) <==> seen_before(
                                self@,
                                request,
                                i + 1,
                            ) by {
                                lemma_seen_step(self@, request, i as int);
                            }
                        }
                    },
                }
            } else {
                proof {
                    assert forall|request: u64| #[trigger]
                        all@.contains(request) <==> seen_before(self@, request, i + 1) by {
                        lemma_seen_step(self@, request, i as int);
                    }
                }
            }
            i += 1;
        }
        let ordered = sorted(&all);
        proof {
            all@.to_multiset_ensures();
            ordered@.to_multiset_ensures();
        }
        let mut out: Vec<u64> = Vec::new();
        let mut k: usize = 0;
        while k < ordered.len()
            invariant
                k <= ordered@.len(),
                crate::samples::ascending(ordered@),
                forall|a: int, b: int|
                    #![trigger out@[a], out@[b]]
                    0 <= a < b < out@.len() ==> out@[a] < out@[b],
                forall|request: u64| #[trigger]
                    out@.contains(request) <==> exists|m: int|
                        0 <= m < k && (#[trigger] ordered@[m]) == request,
                k == 0 ==> out@.len() == 0,
                k > 0 ==> out@.len() > 0 && out@.last() == ordered@[k - 1],
            decreases ordered@.len() - k,
        {
            let id: u64 = ordered[k];
            let ghost shorter = out@;
            if out.len() == 0 || out[out.len() - 1] != id {
                assert(k > 0 ==> ordered@[k - 1] <= ordered@[k as int]);
                out.push(id);
                proof {
                    assert forall|a: int, b: int|
                        #![trigger out@[a], out@[b]]
                        0 <= a < b < out@.len() implies out@[a] < out@[b] by {
                        if b == out@.len() - 1 {
                            if a < shorter.len() - 1 {
                                assert(shorter[a] < shorter[shorter.len() - 1]);
                            }
                        } else {
                            assert(shorter[a] < shorter[b]);
                        }
                    }
                    assert forall|request: u64| #[trigger]
                        out@.contains(request) <==> exists|m: int|
                            0 <= m < k + 1 && (#[trigger] ordered@[m]) == request by {
                        lemma_push_contains(shorter, id, request);
                        assert(ordered@[k as int] == id);
                    }
                }
            } else {
                proof {
                    assert forall|request: u64| #[trigger]
                        out@.contains(request) <==> exists|m: int|
                            0 <= m < k + 1 && (#[trigger] ordered@[m]) == request by {
                        assert(out@[out@.len() - 1] == id);
                        assert(ordered@[k as int] == id);
                        if out@.contains(request) {
                            let m = choose|m: int|
                                0 <= m < k && (#[trigger] ordered@[m]) == request;
                            assert(ordered@[m] == request);
                        }
                    }
                }
            }
            k += 1;
        }
        proof {
            assert forall|request: u64| #[trigger]
                out@.contains(request) <==> self@.has_row(request) by {
                assert(all@.contains(request) <==> seen_before(
                    self@,
                    request,
                    self@.order.len() as int,
                ));
                assert(ordered@.contains(request) <==> all@.contains(request)) by {
                    assert(ordered@.to_multiset().count(request) == all@.to_multiset().count(
                        request,
                    ));
                }
                if ordered@.contains(request) {
                    let m = choose|m: int| 0 <= m < ordered@.len() && ordered@[m] == request;
                    assert(ordered@[m] == request);
                }
            }
        }
        out
    }

    /// For each request, lowest id first, the queueing that it had gathered at each
    /// microservice of the order.
    pub fn per_request_cumulative_queueing(&self) -> (r: Vec<Vec<Option<u128>>>)
        requires
            self.wf(),
        ensures
            exists|ids: Seq<u64>| #[trigger]
                are_row_ids(self@, ids) && r@.len() == ids.len() && forall|i: int|
                0 <= i < ids.len() ==> (#[trigger] r@[i])@ == cumulative_row(self@.row(ids[i])),
    {
        let ids = self.row_ids();
        let mut out: Vec<Vec<Option<u128>>> = Vec::new();
        let mut i: usize = 0;
        while i < ids.len()
            invariant
                self.wf(),
                i <= ids@.len(),
                out@.len() == i,
                forall|j: int|
                    0 <= j < i ==> (#[trigger] out@[j])@ == cumulative_row(self@.row(ids@[j])),
            decreases ids@.len() - i,
        {
            let row = self.row_of(ids[i]);
            out.push(cumulative_prefix(&row));
            i += 1;
        }
        out
    }

    /// What the visits of each microservice of `order` come to. One without an ended visit
    /// is left out.
    pub fn into_stats(&self, microservice_order: &Vec<String>) -> (r: NameMap<MicroserviceStats>)
        requires
            self.wf(),
        ensures
            r.wf(),
            forall|id: Seq<char>| #[trigger]
                r@.dom().contains(id) <==> names_of(microservice_order@).contains(id)
                    && self@.visits.dom().contains(id),
            forall|id: Seq<char>| #[trigger]
                r@.dom().contains(id) ==> r@[id].describes(
                    self@.visits[id],
                    self@.cumulative[id],
                ),
    {
        let ghost order = names_of(microservice_order@);
        let mut out: NameMap<MicroserviceStats> = KeyMap::new();
        let mut i: usize = 0;
        while i < microservice_order.len()
            invariant
                self.wf(),
                out.wf(),
                order == names_of(microservice_order@),
                i <= order.len(),
                forall|id: Seq<char>| #[trigger]
                    out@.dom().contains(id) <==> order.take(i as int).contains(id)
                        && self@.visits.dom().contains(id),
                forall|id: Seq<char>| #[trigger]
                    out@.dom().contains(id) ==> out@[id].describes(
                        self@.visits[id],
                        self@.cumulative[id],
                    ),
            decreases order.len() - i,
        {
            let id = &microservice_order[i];
            assert(order.take(i + 1) =~= order.take(i as int).push(id@));
            match self.samples.get(id) {
                Some(samples) => {
                    let stats = summarize(samples);
                    let ghost before = out@;
                    out.insert(id.clone(), stats);
                    proof {
                        assert forall|other: Seq<char>| #[trigger]
                            out@.dom().contains(other) <==> order.take(i + 1).contains(other)
                            && self@.visits.dom().contains(other) by {
                            lemma_push_name(order.take(i as int), id@, other);
                            assert(before.dom().contains(other) <==> order.take(
                                i as int,
                            ).contains(other) && self@.visits.dom().contains(other));
                        }
                    }
                },
                None => {
                    proof {
                        assert forall|other: Seq<char>| #[trigger]
                            out@.dom().contains(other) <==> order.take(i + 1).contains(other)
                            && self@.visits.dom().contains(other) by {
                            lemma_push_name(order.take(i as int), id@, other);
                        }
                    }
                },
            }
            i += 1;
        }
        assert(order.take(i as int) =~= order);
        out
    }
}

/// `request` has an entry in its row at one of the first `k` microservices.
spec fn seen_before(state: TrackerState, request: u64, k: int) -> bool {
    exists|i: int| 0 <= i < k && i < state.order.len() && #[trigger] state.row(request)[i] is Some
}

proof fn lemma_seen_step(state: TrackerState, request: u64, k: int)
    requires
        0 <= k < state.order.len(),
    ensures
        seen_before(state, request, k + 1) <==> seen_before(state, request, k) || (state.is_place(k)
            && queueing_of(state.visits_of(state.order[k]), request) is Some),
{
    let row = state.row(request);
    if seen_before(state, request, k + 1) {
        let i = choose|i: int|
            0 <= i < k + 1 && i < state.order.len() && #[trigger] state.row(request)[i] is Some;
        if i < k {
            assert(state.row(request)[i] is Some);
        }
    }
    if seen_before(state, request, k) {
        let i = choose|i: int|
            0 <= i < k && i < state.order.len() && #[trigger] state.row(request)[i] is Some;
        assert(state.row(request)[i] is Some);
    }
    if state.is_place(k) && queueing_of(state.visits_of(state.order[k]), request) is Some {
        assert(state.row(request)[k] is Some);
    }
}

proof fn lemma_push_contains(s: Seq<u64>, x: u64, y: u64)
    ensures
        s.push(x).contains(y) <==> s.contains(y) || x == y,
{
    let longer = s.push(x);
    if s.contains(y) {
        let i = choose|i: int| 0 <= i < s.len() && s[i] == y;
        assert(longer[i] == y);
    }
    if x == y {
        assert(longer[s.len() as int] == y);
    }
    if longer.contains(y) {
        let i = choose|i: int| 0 <= i < longer.len() && longer[i] == y;
        if i < s.len() {
            assert(s[i] == y);
        }
    }
}

proof fn lemma_push_name(s: Seq<Seq<char>>, x: Seq<char>, y: Seq<char>)
    ensures
        s.push(x).contains(y) <==> s.contains(y) || x == y,
{
    let longer = s.push(x);
    if s.contains(y) {
        let i = choose|i: int| 0 <= i < s.len() && s[i] == y;
        assert(longer[i] == y);
    }
    if x == y {
        assert(longer[s.len() as int] == y);
    }
    if longer.contains(y) {
        let i = choose|i: int| 0 <= i < longer.len() && longer[i] == y;
        if i < s.len() {
            assert(s[i] == y);
        }
    }
}

fn summarize(samples: &MicroserviceSamples) -> (r: MicroserviceStats)
    ensures
        r.describes(samples.visits@, samples.cumulative@),
{
    let ghost visits = samples.visits@;
    let mut arrivals: Vec<u64> = Vec::new();
    let mut departures: Vec<u64> = Vec::new();
    let mut response_time: Vec<u64> = Vec::new();
    let mut queueing_delay: Vec<u64> = Vec::new();
    let mut processing_time: Vec<u64> = Vec::new();
    let mut slack_d: Vec<i128> = Vec::new();
    let mut slo_violations: usize = 0;
    let mut i: usize = 0;
    while i < samples.visits.len()
        invariant
            visits == samples.visits@,
            i <= visits.len(),
            arrivals@ == arrivals_of(visits.take(i as int)),
            departures@ == departures_of(visits.take(i as int)),
            response_time@ == responses_of(visits.take(i as int)),
            queueing_delay@ == queueings_of(visits.take(i as int)),
            processing_time@ == processings_of(visits.take(i as int)),
            slack_d@ == slacks_of(visits.take(i as int)),
            slo_violations == late_visits(visits.take(i as int)),
            slo_violations <= i,
        decreases visits.len() - i,
    {
        let visit = samples.visits[i];
        proof {
            let longer = visits.take(i + 1);
            assert(longer =~= visits.take(i as int).push(visit));
            assert(longer.drop_last() =~= visits.take(i as int));
        }
        arrivals.push(visit.arrival);
        departures.push(visit.departure);
        response_time.push(visit.response);
        queueing_delay.push(visit.queueing);
        processing_time.push(visit.processing);
        slack_d.push(visit.slack);
        if visit.response as i128 > visit.slack {
            slo_violations += 1;
        }
        assert(arrivals@ =~= arrivals_of(visits.take(i + 1)));
        assert(departures@ =~= departures_of(visits.take(i + 1)));
        assert(response_time@ =~= responses_of(visits.take(i + 1)));
        assert(queueing_delay@ =~= queueings_of(visits.take(i + 1)));
        assert(processing_time@ =~= processings_of(visits.take(i + 1)));
        assert(slack_d@ =~= slacks_of(visits.take(i + 1)));
        i += 1;
    }
    assert(visits.take(i as int) =~= visits);
    let mut cumulative_queueing_delay: Vec<Option<u128>> = Vec::new();
    let mut k: usize = 0;
    while k < samples.cumulative.len()
        invariant
            k <= samples.cumulative@.len(),
            cumulative_queueing_delay@ == samples.cumulative@.take(k as int),
        decreases samples.cumulative@.len() - k,
    {
        cumulative_queueing_delay.push(samples.cumulative[k]);
        k += 1;
    }
    assert(cumulative_queueing_delay@ =~= samples.cumulative@);
    MicroserviceStats {
        inter_arrival: consecutive_diffs(&arrivals),
        inter_departure: consecutive_diffs(&departures),
        response_time,
        queueing_delay,
        cumulative_queueing_delay,
        processing_time,
        slack_d,
        slo_violations,
    }
}

/// Queueing, local work and calls account for the whole visit, as long as the two last did
/// not take longer than the visit itself.
pub proof fn law_visit_splits_response(visit: ActiveVisit, request_id: u64, departure: u64)
    requires
        visit.arrival <= departure,
        visit.downstream_response + visit.local_processing <= departure - visit.arrival,
    ensures
        ({
            let sample = visit.ended(request_id, departure);
            &&& sample.queueing + sample.processing + visit.downstream_response == sample.response
            &&& sample.response == departure - visit.arrival
        }),
{
}

/// A visit counts as late exactly where it ends after the deadline.
pub proof fn law_late_visit_ends_after_deadline(visit: ActiveVisit, request_id: u64, departure: u64)
    requires
        visit.arrival <= departure,
    ensures
        visit.ended(request_id, departure).is_late() <==> departure > visit.deadline,
{
}

/// Along the order of microservices the gathered queueing never falls, and at each
/// microservice it is at least what was queued there.
pub proof fn law_gathered_queueing_grows(row: Seq<Option<u64>>, i: int, j: int)
    requires
        0 <= i <= j < row.len(),
        row.len() <= usize::MAX,
        row[i] is Some,
        row[j] is Some,
    ensures
        ({
            let gathered = cumulative_row(row);
            &&& gathered[i] matches Some(a) && gathered[j] matches Some(b) && a <= b
            &&& gathered[j] matches Some(b) && b >= row[j]->0
        }),
{
    lemma_prefix_grows(row, i + 1, j + 1);
    lemma_prefix_bounds(row, i + 1);
    lemma_prefix_bounds(row, j + 1);
    lemma_prefix_bounds(row, j);
    assert((j + 1) * u64::MAX <= usize::MAX * u64::MAX) by (nonlinear_arith)
        requires
            j + 1 <= usize::MAX,
    ;
    assert((i + 1) * u64::MAX <= usize::MAX * u64::MAX) by (nonlinear_arith)
        requires
            i + 1 <= usize::MAX,
    ;
    assert(usize::MAX * u64::MAX <= u128::MAX) by (nonlinear_arith)
        requires
            usize::MAX <= 0xffff_ffff_ffff_ffff,
    ;
}

proof fn lemma_prefix_grows(row: Seq<Option<u64>>, a: int, b: int)
    requires
        0 <= a <= b <= row.len(),
    ensures
        prefix_sum(row, a) <= prefix_sum(row, b),
    decreases b - a,
{
    if a < b {
        lemma_prefix_grows(row, a, b - 1);
    }
}

/// A visit begins when the request arrives, with nothing done for it yet. Work at the
/// microservice and calls that come back are added to the visit that they belong to, as long as
/// it lasts, and to no other.
pub proof fn law_visit_gathers_its_own_work(
    state: TrackerState,
    key: (u64, Seq<char>),
    other: (u64, Seq<char>),
    arrival: u64,
    deadline: u64,
    ms: u64,
    duration: u64,
)
    ensures
        ({
            let begun = state.with_arrival(key, arrival, deadline).active;
            &&& begun.dom().contains(key)
            &&& begun[key].arrival == arrival && begun[key].deadline == deadline
            &&& begun[key].local_processing == 0 && begun[key].downstream_response == 0
            &&& other != key ==> (begun.dom().contains(other) <==> state.active.dom().contains(
                other,
            )) && (state.active.dom().contains(other) ==> begun[other] == state.active[other])
        }),
        state.active.dom().contains(key) ==> {
            let had = state.active[key];
            let worked = state.with_processing(key, duration).active[key];
            let called = state.with_downstream(key, ms).active[key];
            &&& had.local_processing + duration <= u64::MAX ==> worked.local_processing
                == had.local_processing + duration
            &&& worked.downstream_response == had.downstream_response
            &&& worked.arrival == had.arrival && worked.deadline == had.deadline
            &&& had.downstream_response + ms * 1_000_000 <= u64::MAX ==> called.downstream_response
                == had.downstream_response + ms * 1_000_000
            &&& called.local_processing == had.local_processing
            &&& called.arrival == had.arrival && called.deadline == had.deadline
        },
        !state.active.dom().contains(key) ==> state.with_processing(key, duration) == state
            && state.with_downstream(key, ms) == state,
        other != key && state.active.dom().contains(other) ==> state.with_processing(
            key,
            duration,
        ).active[other] == state.active[other] && state.with_downstream(key, ms).active[other]
            == state.active[other],
{
}

/// A visit that ends is recorded once, under its microservice and behind the visits that ended
/// there before: when it came and went, how long it took, how much of that was work here, how
/// much time it had been given, and what is left as queueing once work and calls are taken off.
pub proof fn law_ended_visit_is_recorded(
    state: TrackerState,
    key: (u64, Seq<char>),
    departure: u64,
    other: Seq<char>,
)
    requires
        state.active.dom().contains(key),
        state.active[key].arrival <= departure,
    ensures
        ({
            let visit = state.active[key];
            let after = state.with_departure(key, departure);
            let before = state.visits_of(key.1);
            let sample = after.visits_of(key.1).last();
            let took = departure - visit.arrival;
            &&& !after.active.dom().contains(key)
            &&& after.visits_of(key.1).len() == before.len() + 1
            &&& after.visits_of(key.1).drop_last() == before
            &&& sample.request_id == key.0
            &&& sample.arrival == visit.arrival && sample.departure == departure
            &&& sample.response == took
            &&& sample.processing == visit.local_processing
            &&& sample.slack == visit.deadline - visit.arrival
            &&& visit.downstream_response + visit.local_processing <= took ==> sample.queueing
                == took - visit.downstream_response - visit.local_processing
            &&& visit.downstream_response + visit.local_processing > took ==> sample.queueing == 0
            &&& other != key.1 ==> after.visits_of(other) == state.visits_of(other)
        }),
{
    let before = state.visits_of(key.1);
    let sample = state.active[key].ended(key.0, departure);
    assert(before.push(sample).drop_last() =~= before);
}

/// One more visit counts as a violation exactly where it took longer than it had time.
pub proof fn law_violations_are_late_visits(samples: Seq<VisitSample>, sample: VisitSample)
    ensures
        late_visits(Seq::empty()) == 0,
        sample.response > sample.slack ==> late_visits(samples.push(sample)) == late_visits(samples)
            + 1,
        sample.response <= sample.slack ==> late_visits(samples.push(sample)) == late_visits(
            samples,
        ),
{
    assert(samples.push(sample).drop_last() =~= samples);
}

/// Of several visits of one request the last one counts, and visits of other requests do not.
pub proof fn law_last_visit_of_a_request_counts(
    samples: Seq<VisitSample>,
    sample: VisitSample,
    request: u64,
)
    ensures
        queueing_of(Seq::empty(), request) is None,
        sample.request_id == request ==> queueing_of(samples.push(sample), request) == Some(
            sample.queueing,
        ),
        sample.request_id != request ==> queueing_of(samples.push(sample), request) == queueing_of(
            samples,
            request,
        ),
{
    assert(samples.push(sample).drop_last() =~= samples);
}

/// Gathered queueing is a running sum: the first place that a request visited has what it
/// queued there, and each later one has that of the place before it and what was queued there.
/// Places that it did not visit stay empty, and add nothing.
pub proof fn law_queueing_adds_up_along_the_order(row: Seq<Option<u64>>, i: int, j: int)
    requires
        0 <= j < row.len() <= usize::MAX,
    ensures
        cumulative_row(row).len() == row.len(),
        row[j] is None <==> cumulative_row(row)[j] is None,
        row[j] is Some && (forall|k: int| 0 <= k < j ==> (#[trigger] row[k]) is None)
            ==> cumulative_row(row)[j]->0 == row[j]->0,
        0 <= i < j && row[i] is Some && row[j] is Some && (forall|k: int|
            i < k < j ==> (#[trigger] row[k]) is None) ==> cumulative_row(row)[j]->0
            == cumulative_row(row)[i]->0 + row[j]->0,
{
    lemma_prefix_bounds(row, j + 1);
    assert((j + 1) * u64::MAX <= usize::MAX * u64::MAX) by (nonlinear_arith)
        requires
            j + 1 <= usize::MAX,
    ;
    assert(usize::MAX * u64::MAX <= u128::MAX) by (nonlinear_arith)
        requires
            usize::MAX <= 0xffff_ffff_ffff_ffff,
    ;
    if row[j] is Some && (forall|k: int| 0 <= k < j ==> (#[trigger] row[k]) is None) {
        lemma_prefix_over_gaps(row, 0, j);
    }
    if 0 <= i < j && row[i] is Some && row[j] is Some && (forall|k: int|
        i < k < j ==> (#[trigger] row[k]) is None) {
        lemma_prefix_bounds(row, i + 1);
        assert((i + 1) * u64::MAX <= usize::MAX * u64::MAX) by (nonlinear_arith)
            requires
                i + 1 <= usize::MAX,
        ;
        lemma_prefix_over_gaps(row, i + 1, j);
    }
}

proof fn lemma_prefix_over_gaps(row: Seq<Option<u64>>, a: int, b: int)
    requires
        0 <= a <= b <= row.len(),
        forall|k: int| a <= k < b ==> (#[trigger] row[k]) is None,
    ensures
        prefix_sum(row, a) == prefix_sum(row, b),
    decreases b - a,
{
    if a < b {
        lemma_prefix_over_gaps(row, a, b - 1);
        assert(row[b - 1] is None);
    }
}

/// The lists that are reported of a microservice hold, at each place, what its visit of that
/// place recorded.
pub proof fn law_reports_list_the_visits(
    stats: MicroserviceStats,
    visits: Seq<VisitSample>,
    cumulative: Seq<Option<u128>>,
    i: int,
)
    requires
        stats.describes(visits, cumulative),
        0 <= i < visits.len(),
    ensures
        stats.response_time@.len() == visits.len(),
        stats.response_time@[i] == visits[i].response,
        stats.queueing_delay@.len() == visits.len(),
        stats.queueing_delay@[i] == visits[i].queueing,
        stats.processing_time@.len() == visits.len(),
        stats.processing_time@[i] == visits[i].processing,
        stats.slack_d@.len() == visits.len(),
        stats.slack_d@[i] == visits[i].slack,
        stats.inter_arrival@.len() == visits.len() - 1,
        stats.inter_departure@.len() == visits.len() - 1,
        stats.cumulative_queueing_delay@ == cumulative,
{
    let arrivals = choose|order: Seq<u64>| #[trigger]
        is_sorted_of(arrivals_of(visits), order) && stats.inter_arrival@ == gaps(order);
    arrivals_of(visits).to_multiset_ensures();
    arrivals.to_multiset_ensures();
    let departures = choose|order: Seq<u64>| #[trigger]
        is_sorted_of(departures_of(visits), order) && stats.inter_departure@ == gaps(order);
    departures_of(visits).to_multiset_ensures();
    departures.to_multiset_ensures();
}

/// The gaps that are reported of a microservice are those between the arrivals, and between the
/// departures, of its visits.
pub proof fn law_visit_times_are_listed(visits: Seq<VisitSample>, i: int)
    ensures
        arrivals_of(visits).len() == visits.len(),
        departures_of(visits).len() == visits.len(),
        0 <= i < visits.len() ==> arrivals_of(visits)[i] == visits[i].arrival
            && departures_of(visits)[i] == visits[i].departure,
{
}

/// The row of a request has one place for each microservice in the order: it holds how long the
/// last visit of the request queued there, and nothing where it made none. A microservice that
/// comes twice in the order counts at its last place.
pub proof fn law_row_holds_the_last_visits(state: TrackerState, request: u64, i: int)
    requires
        0 <= i < state.order.len(),
    ensures
        state.row(request).len() == state.order.len(),
        (forall|j: int| i < j < state.order.len() ==> (#[trigger] state.order[j]) != state.order[i])
            ==> state.row(request)[i] == queueing_of(state.visits_of(state.order[i]), request),
        (exists|j: int| i < j < state.order.len() && (#[trigger] state.order[j]) == state.order[i])
            ==> state.row(request)[i] is None,
{
}

/// Gathered queueing is given visit by visit: each visit of a microservice with a place in the
/// order has what its request had gathered along the order up to that place. No visit changes.
pub proof fn law_visits_get_what_was_gathered(
    before: TrackerState,
    after: TrackerState,
    i: int,
    k: int,
)
    requires
        gathers(before, after),
        0 <= i < before.order.len(),
        forall|j: int|
            i < j < before.order.len() ==> (#[trigger] before.order[j]) != before.order[i],
        before.visits.dom().contains(before.order[i]),
        0 <= k < before.visits[before.order[i]].len(),
    ensures
        after.visits == before.visits,
        after.active == before.active,
        after.cumulative[before.order[i]].len() == before.visits[before.order[i]].len(),
        after.cumulative[before.order[i]][k] == cumulative_row(
            before.row(before.visits[before.order[i]][k].request_id),
        )[i],
{
    assert(before.is_place(i));
}

} // verus!
