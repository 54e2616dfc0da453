//! The way of a request through the call graph.
//!
//! A request stays at a server, goes on to the next call, comes back, and goes on from
//! there. Calls are nested: the way below an endpoint is walked child by child, in order,
//! and each child is over before the next one begins.

use super::callgraph::GraphModel;
use super::hop::{
    law_children_are_the_linked_endpoints, targets_for, CallModel, CallerModel, HopModel,
};
use super::microservice_stats::TrackerState;
use super::replica::{advanced, AdvanceModel};
use vstd::prelude::*;

verus! {

/// A request at a server, with the hop that the server goes on with.
#[verifier::ext_equal]
pub struct Stay {
    pub microservice: Seq<char>,
    pub server: usize,
    pub hop: HopModel,
}

/// `stay` is where a request that was sent on with `call` is served: at some server of the
/// called microservice, after some work there.
pub open spec fn reached(call: CallModel, stay: Stay) -> bool {
    let pushed = call.hop.pushed(stay.microservice, stay.server);
    &&& stay.microservice == call.target_microservice
    &&& {
        ||| stay.hop == (HopModel { duration: stay.hop.duration, ..call.hop }).served()
        ||| stay.hop == (HopModel { duration: stay.hop.duration, ..pushed }).served()
    }
}

/// A request that goes on with `next` stays at `stay` next.
pub open spec fn leads_to(next: AdvanceModel, stay: Stay) -> bool {
    match next {
        AdvanceModel::Call(call) => reached(call, stay),
        AdvanceModel::Return { microservice, server, back } => exists|response_ms: u64|
            stay == (Stay {
                microservice,
                server,
                hop: (#[trigger] back.reporting(response_ms)).resumed(),
            }),
        _ => false,
    }
}

impl Stay {
    /// How the request goes on.
    pub open spec fn next(self, graph: GraphModel, visits: TrackerState, now: u64) -> AdvanceModel {
        advanced(self.microservice, self.server, graph, visits, self.hop, now).next
    }

    /// The endpoints that are called from here, in order.
    pub open spec fn children(self, graph: GraphModel) -> Seq<Seq<char>> {
        graph.children_for(self.hop.endpoint, self.hop.api)
    }

    /// Within how many calls the request is.
    pub open spec fn nesting(self) -> nat {
        match self.hop.caller {
            Some(caller) => levels(caller),
            None => 0,
        }
    }

    /// Wherever the request returns to, it goes on behind a call.
    pub open spec fn comes_from_calls(self) -> bool {
        self.hop.caller matches Some(caller) ==> behind_calls(caller)
    }

    /// The same request at the same server and endpoint, within the same calls.
    pub open spec fn resumes(self, before: Stay) -> bool {
        &&& self.microservice == before.microservice
        &&& self.server == before.server
        &&& self.hop.endpoint == before.hop.endpoint
        &&& self.hop.caller == before.hop.caller
        &&& self.hop.request_id == before.hop.request_id
        &&& self.hop.trace == before.hop.trace
        &&& self.hop.api == before.hop.api
        &&& self.hop.start == before.hop.start
        &&& self.hop.deadline == before.hop.deadline
    }
}

/// How many calls a caller waits in, its own included.
pub open spec fn levels(caller: CallerModel) -> nat
    decreases caller,
{
    1 + match caller.resume_caller {
        Some(outer) => levels(*outer),
        None => 0,
    }
}

/// Each of the waiting callers has made a call.
pub open spec fn behind_calls(caller: CallerModel) -> bool
    decreases caller,
{
    &&& caller.resume_sibling_index > 0
    &&& caller.resume_caller matches Some(outer) ==> behind_calls(*outer)
}

/// `to` comes right after `from` on the way of a request.
pub open spec fn goes_on(graph: GraphModel, from: Stay, to: Stay) -> bool {
    exists|visits: TrackerState, now: u64|
        leads_to(#[trigger] from.next(graph, visits, now), to)
}

/// `stays` follow one another on the way of a request.
pub open spec fn is_journey(graph: GraphModel, stays: Seq<Stay>) -> bool {
    forall|i: int, k: int|
        0 <= i < k < stays.len() && k == i + 1 ==> #[trigger] goes_on(graph, stays[i], stays[k])
}

/// The calls below `endpoint` go to known endpoints, and are nested less than `depth` deep.
pub open spec fn ends_within(
    graph: GraphModel,
    api: Seq<char>,
    endpoint: Seq<char>,
    depth: nat,
) -> bool
    decreases depth,
{
    let children = graph.children_for(endpoint, api);
    &&& depth > 0
    &&& children.len() <= usize::MAX
    &&& forall|i: int|
        0 <= i < children.len() ==> graph.owners.dom().contains(#[trigger] children[i])
            && ends_within(graph, api, children[i], (depth - 1) as nat)
}

/// How many stays a request makes from the one at `endpoint` with the call `sibling` to make
/// next, up to the one with no call left to make there.
pub open spec fn stays_from(
    graph: GraphModel,
    api: Seq<char>,
    endpoint: Seq<char>,
    sibling: nat,
    depth: nat,
) -> nat
    decreases depth, graph.children_for(endpoint, api).len() - sibling,
{
    let children = graph.children_for(endpoint, api);
    if depth == 0 || sibling >= children.len() {
        1
    } else {
        1 + stays_from(graph, api, children[sibling as int], 0, (depth - 1) as nat) + stays_from(
            graph,
            api,
            endpoint,
            sibling + 1,
            depth,
        )
    }
}

/// The endpoints that work for a request below `endpoint`, from the call `sibling` on, in
/// the order they do: each called endpoint, then what is below it.
pub open spec fn tour_from(
    graph: GraphModel,
    api: Seq<char>,
    endpoint: Seq<char>,
    sibling: nat,
    depth: nat,
) -> Seq<Seq<char>>
    decreases depth, graph.children_for(endpoint, api).len() - sibling,
{
    let children = graph.children_for(endpoint, api);
    if depth == 0 || sibling >= children.len() {
        Seq::empty()
    } else {
        let child = children[sibling as int];
        seq![child] + tour_from(graph, api, child, 0, (depth - 1) as nat) + tour_from(
            graph,
            api,
            endpoint,
            sibling + 1,
            depth,
        )
    }
}

/// The endpoints of the stays at which a call arrived, in order.
pub open spec fn begun(stays: Seq<Stay>) -> Seq<Seq<char>>
    decreases stays.len(),
{
    if stays.len() == 0 {
        Seq::empty()
    } else {
        let before = begun(stays.drop_last());
        if stays.last().hop.sibling_index == 0 {
            before.push(stays.last().hop.endpoint)
        } else {
            before
        }
    }
}

proof fn lemma_begun_adds(a: Seq<Stay>, b: Seq<Stay>)
    ensures
        begun(a + b) == begun(a) + begun(b),
    decreases b.len(),
{
    if b.len() == 0 {
        assert(a + b == a);
    } else {
        lemma_begun_adds(a, b.drop_last());
        assert((a + b).drop_last() == a + b.drop_last());
    }
}

proof fn lemma_skipped_journey(graph: GraphModel, stays: Seq<Stay>, n: int)
    requires
        is_journey(graph, stays),
        0 <= n <= stays.len(),
    ensures
        is_journey(graph, stays.skip(n)),
{
    let rest = stays.skip(n);
    assert forall|i: int, k: int| 0 <= i < k < rest.len() && k == i + 1 implies #[trigger] goes_on(
        graph,
        rest[i],
        rest[k],
    ) by {
        assert(goes_on(graph, stays[i + n], stays[k + n]));
    }
}

/// How the next stay follows from one with a call left to make.
proof fn lemma_call_step(graph: GraphModel, from: Stay, to: Stay)
    requires
        goes_on(graph, from, to),
        from.hop.sibling_index < from.children(graph).len() <= usize::MAX,
        graph.owners.dom().contains(from.children(graph)[from.hop.sibling_index as int]),
    ensures
        to.hop.endpoint == from.children(graph)[from.hop.sibling_index as int],
        to.hop.sibling_index == 0,
        to.hop.request_id == from.hop.request_id,
        to.hop.trace == from.hop.trace,
        to.hop.api == from.hop.api,
        to.hop.start == from.hop.start,
        to.hop.deadline == from.hop.deadline,
        to.hop.caller matches Some(caller) && {
            &&& caller.microservice == from.microservice
            &&& caller.server == from.server
            &&& caller.resume_endpoint == from.hop.endpoint
            &&& caller.resume_sibling_index == from.hop.sibling_index + 1
            &&& caller.resume_caller == match from.hop.caller {
                Some(outer) => Some(Box::new(outer)),
                None => None,
            }
        },
        to.nesting() == from.nesting() + 1,
{
}

/// How the next stay follows from one with no call left to make.
proof fn lemma_return_step(graph: GraphModel, from: Stay, to: Stay)
    requires
        goes_on(graph, from, to),
        from.hop.sibling_index >= from.children(graph).len(),
    ensures
        from.hop.caller matches Some(caller) && {
            &&& to.microservice == caller.microservice
            &&& to.server == caller.server
            &&& to.hop.endpoint == caller.resume_endpoint
            &&& to.hop.sibling_index == caller.resume_sibling_index
            &&& to.hop.caller == match caller.resume_caller {
                Some(outer) => Some(*outer),
                None => None,
            }
        },
        to.hop.request_id == from.hop.request_id,
        to.hop.trace == from.hop.trace,
        to.hop.api == from.hop.api,
        to.hop.start == from.hop.start,
        to.hop.deadline == from.hop.deadline,
{
}

proof fn lemma_stays_at_all(
    graph: GraphModel,
    api: Seq<char>,
    endpoint: Seq<char>,
    sibling: nat,
    depth: nat,
)
    ensures
        stays_from(graph, api, endpoint, sibling, depth) >= 1,
{
}

/// The way from the first of `stays` through the calls left to make there.
proof fn lemma_subtree(graph: GraphModel, stays: Seq<Stay>, depth: nat)
    requires
        is_journey(graph, stays),
        stays.len() > 0,
        ends_within(graph, stays[0].hop.api, stays[0].hop.endpoint, depth),
        stays[0].hop.sibling_index <= stays[0].children(graph).len(),
    ensures
        ({
            let at = stays[0].hop;
            let n = stays_from(graph, at.api, at.endpoint, at.sibling_index as nat, depth) as int;
            &&& n >= 1
            &&& stays.len() >= n ==> {
                &&& stays[n - 1].resumes(stays[0])
                &&& stays[n - 1].hop.sibling_index == stays[0].children(graph).len()
                &&& forall|k: int|
                    0 <= k < n ==> (#[trigger] stays[k]).nesting() > stays[0].nesting()
                        || stays[k].resumes(stays[0])
                &&& begun(stays.subrange(1, n)) == tour_from(
                    graph,
                    at.api,
                    at.endpoint,
                    at.sibling_index as nat,
                    depth,
                )
            }
            &&& stays.len() < n ==> forall|visits: TrackerState, now: u64|
                {
                    let next = #[trigger] stays.last().next(graph, visits, now);
                    next is Call || next is Return
                }
        }),
    decreases depth, stays[0].children(graph).len() - stays[0].hop.sibling_index,
{
    let at = stays[0].hop;
    let children = stays[0].children(graph);
    let s = at.sibling_index as nat;
    let n = stays_from(graph, at.api, at.endpoint, s, depth) as int;
    if s >= children.len() {
        assert(stays.subrange(1, 1) == Seq::<Stay>::empty());
    } else {
        let child = children[s as int];
        let low = (depth - 1) as nat;
        let m = stays_from(graph, at.api, child, 0, low) as int;
        lemma_stays_at_all(graph, at.api, child, 0, low);
        lemma_stays_at_all(graph, at.api, at.endpoint, s + 1, depth);
        if stays.len() == 1 {
            assert(stays.last() == stays[0]);
        } else {
            assert(goes_on(graph, stays[0], stays[1]));
            lemma_call_step(graph, stays[0], stays[1]);
            let below = stays.skip(1);
            lemma_skipped_journey(graph, stays, 1);
            lemma_subtree(graph, below, low);
            assert(below.last() == stays.last());
            if below.len() >= m {
                assert(below[m - 1] == stays[m]);
                if stays.len() == m + 1 {
                    assert(stays.last() == below[m - 1]);
                } else {
                    assert(goes_on(graph, stays[m], stays[m + 1]));
                    lemma_return_step(graph, stays[m], stays[m + 1]);
                    assert(stays[m + 1].resumes(stays[0]));
                    let rest = stays.skip(m + 1);
                    lemma_skipped_journey(graph, stays, m + 1);
                    lemma_subtree(graph, rest, depth);
                    assert(rest.last() == stays.last());
                    if stays.len() >= n {
                        let r = n - m - 1;
                        assert(rest[r - 1] == stays[n - 1]);
                        assert forall|k: int| 0 <= k < n implies (#[trigger] stays[k]).nesting()
                            > stays[0].nesting() || stays[k].resumes(stays[0]) by {
                            if 1 <= k <= m {
                                assert(stays[k] == below[k - 1]);
                            } else if k > m {
                                assert(stays[k] == rest[k - m - 1]);
                            }
                        }
                        assert(stays.subrange(1, n) == seq![stays[1]] + below.subrange(1, m) + (seq![rest[0]] + rest.subrange(1, r)));
                        lemma_begun_adds(
                            seq![stays[1]] + below.subrange(1, m),
                            seq![rest[0]] + rest.subrange(1, r),
                        );
                        lemma_begun_adds(seq![stays[1]], below.subrange(1, m));
                        lemma_begun_adds(seq![rest[0]], rest.subrange(1, r));
                        assert(seq![stays[1]].drop_last() == Seq::<Stay>::empty());
                        assert(seq![rest[0]].drop_last() == Seq::<Stay>::empty());
                        assert(begun(seq![stays[1]]) == seq![child]) by {
                            reveal_with_fuel(begun, 2);
                        }
                        assert(begun(seq![rest[0]]) == Seq::<Seq<char>>::empty()) by {
                            reveal_with_fuel(begun, 2);
                        }
                    }
                }
            }
        }
    }
}

/// A call comes back to the server that made it, whatever it calls in turn: the request goes
/// on there behind the call, as the request that it was. Until then it is within the call.
pub proof fn law_call_returns_to_caller(graph: GraphModel, stays: Seq<Stay>, depth: nat)
    requires
        is_journey(graph, stays),
        stays.len() > 0,
        ends_within(graph, stays[0].hop.api, stays[0].hop.endpoint, depth),
        stays[0].hop.sibling_index < stays[0].children(graph).len(),
    ensures
        ({
            let child = stays[0].children(graph)[stays[0].hop.sibling_index as int];
            let n = stays_from(graph, stays[0].hop.api, child, 0, (depth - 1) as nat) as int;
            &&& stays.len() > n + 1 ==> {
                &&& stays[n + 1].resumes(stays[0])
                &&& stays[n + 1].hop.sibling_index == stays[0].hop.sibling_index + 1
            }
            &&& stays.len() > n ==> forall|k: int|
                1 <= k <= n ==> (#[trigger] stays[k]).nesting() > stays[0].nesting()
        }),
{
    let child = stays[0].children(graph)[stays[0].hop.sibling_index as int];
    let n = stays_from(graph, stays[0].hop.api, child, 0, (depth - 1) as nat) as int;
    if stays.len() > 1 {
        assert(goes_on(graph, stays[0], stays[1]));
        lemma_call_step(graph, stays[0], stays[1]);
        let below = stays.skip(1);
        lemma_skipped_journey(graph, stays, 1);
        lemma_subtree(graph, below, (depth - 1) as nat);
        if stays.len() > n {
            assert(below[n - 1] == stays[n]);
            assert forall|k: int| 1 <= k <= n implies (#[trigger] stays[k]).nesting()
                > stays[0].nesting() by {
                assert(stays[k] == below[k - 1]);
            }
            if stays.len() > n + 1 {
                assert(goes_on(graph, stays[n], stays[n + 1]));
                lemma_return_step(graph, stays[n], stays[n + 1]);
            }
        }
    }
}

/// A request that arrives at an endpoint walks the tree of calls below it, child by child in
/// their order, each with all that is below it: every endpoint of the tree works for the
/// request once, in that order. Then the request leaves: it returns to its caller, or is done
/// and gives back the slot of the server that it entered at. Before that it always goes on.
pub proof fn law_request_walks_its_tree(
    graph: GraphModel,
    stays: Seq<Stay>,
    depth: nat,
    visits: TrackerState,
    now: u64,
)
    requires
        is_journey(graph, stays),
        stays.len() > 0,
        stays[0].hop.sibling_index == 0,
        ends_within(graph, stays[0].hop.api, stays[0].hop.endpoint, depth),
    ensures
        ({
            let at = stays[0].hop;
            let n = stays_from(graph, at.api, at.endpoint, 0, depth);
            let next = stays.last().next(graph, visits, now);
            &&& stays.len() < n ==> next is Call || next is Return
            &&& stays.len() == n ==> {
                &&& begun(stays) == seq![at.endpoint] + tour_from(
                    graph,
                    at.api,
                    at.endpoint,
                    0,
                    depth,
                )
                &&& match at.caller {
                    Some(caller) => next matches AdvanceModel::Return { microservice, server, back }
                        && microservice == caller.microservice && server == caller.server
                        && back.hop.endpoint == caller.resume_endpoint && back.hop.sibling_index
                        == caller.resume_sibling_index,
                    None => next matches AdvanceModel::Complete { done, edge } && done.request_id
                        == at.request_id && done.api == at.api && done.start == at.start
                        && done.finish == now && edge.api == at.api && edge.server
                        == stays[0].server,
                }
            }
        }),
{
    let n = stays_from(graph, stays[0].hop.api, stays[0].hop.endpoint, 0, depth) as int;
    lemma_subtree(graph, stays, depth);
    if stays.len() == n {
        assert(stays.last() == stays[n - 1]);
        assert(stays == seq![stays[0]] + stays.subrange(1, n));
        lemma_begun_adds(seq![stays[0]], stays.subrange(1, n));
        assert(seq![stays[0]].drop_last() == Seq::<Stay>::empty());
        assert(begun(seq![stays[0]]) == seq![stays[0].hop.endpoint]) by {
            reveal_with_fuel(begun, 2);
        }
    }
}

proof fn lemma_no_more_children(graph: GraphModel, api: Seq<char>, endpoint: Seq<char>, k: nat)
    requires
        k <= graph.calls(endpoint).len(),
    ensures
        targets_for(graph.calls(endpoint), api, k).len() <= k,
    decreases k,
{
    if k > 0 {
        lemma_no_more_children(graph, api, endpoint, (k - 1) as nat);
    }
}

/// The calls below the end of a walk from `entry` end once every endpoint was gone through.
proof fn lemma_walk_ends(
    graph: GraphModel,
    api: Seq<char>,
    entry: Seq<char>,
    walk: Seq<Seq<char>>,
)
    requires
        graph.is_acyclic(api, entry),
        graph.owners.dom().finite(),
        forall|from: Seq<char>| #[trigger] graph.calls(from).len() <= usize::MAX,
        forall|from: Seq<char>, to: Seq<char>| #[trigger]
            graph.linked(api, from, to) ==> graph.owners.dom().contains(to),
        0 < walk.len() <= graph.owners.dom().len() + 1,
        walk[0] == entry,
        graph.is_walk(api, walk),
        forall|i: int| 0 < i < walk.len() ==> graph.owners.dom().contains(#[trigger] walk[i]),
    ensures
        ends_within(
            graph,
            api,
            walk.last(),
            (graph.owners.dom().len() + 2 - walk.len()) as nat,
        ),
    decreases graph.owners.dom().len() + 1 - walk.len(),
{
    let known = graph.owners.dom();
    let children = graph.children_for(walk.last(), api);
    lemma_no_more_children(graph, api, walk.last(), graph.calls(walk.last()).len());
    assert forall|i: int| 0 <= i < children.len() implies known.contains(#[trigger] children[i])
        && ends_within(graph, api, children[i], (known.len() + 1 - walk.len()) as nat) by {
        let child = children[i];
        law_children_are_the_linked_endpoints(graph, walk.last(), api, child);
        assert(children.contains(child));
        let longer = walk.push(child);
        assert forall|j: int| 0 <= j < longer.len() - 1 implies graph.linked(
            api,
            #[trigger] longer[j],
            longer[j + 1],
        ) by {
            if j < walk.len() - 1 {
                assert(graph.linked(api, walk[j], walk[j + 1]));
            }
        }
        assert(graph.is_walk(api, longer));
        assert(longer.no_duplicates());
        let tail = longer.skip(1);
        assert(tail.no_duplicates());
        tail.unique_seq_to_set();
        assert(tail.to_set().subset_of(known)) by {
            assert forall|e: Seq<char>| tail.to_set().contains(e) implies known.contains(e) by {
                let j = choose|j: int| 0 <= j < tail.len() && tail[j] == e;
                assert(longer[j + 1] == e);
            }
        }
        vstd::set_lib::lemma_len_subset(tail.to_set(), known);
        lemma_walk_ends(graph, api, entry, longer);
    }
}

/// Where no chain of calls comes back to an endpoint that it went through, and all calls go
/// to known endpoints, a request that enters has a tree of calls to walk that ends: no call
/// is nested deeper than there are endpoints.
pub proof fn law_acyclic_calls_end(graph: GraphModel, api: Seq<char>, entry: Seq<char>)
    requires
        graph.is_acyclic(api, entry),
        graph.owners.dom().finite(),
        forall|from: Seq<char>| #[trigger] graph.calls(from).len() <= usize::MAX,
        forall|from: Seq<char>, to: Seq<char>| #[trigger]
            graph.linked(api, from, to) ==> graph.owners.dom().contains(to),
    ensures
        ends_within(graph, api, entry, graph.owners.dom().len() + 1),
{
    lemma_walk_ends(graph, api, entry, seq![entry]);
}

/// The work that was done at the stays at which a call arrived, all together.
pub open spec fn work_done(stays: Seq<Stay>) -> nat
    decreases stays.len(),
{
    if stays.len() == 0 {
        0
    } else {
        work_done(stays.drop_last()) + if stays.last().hop.sibling_index == 0 {
            stays.last().hop.duration as nat
        } else {
            0
        }
    }
}

/// All along its way a request keeps its id, API, start and deadline, and its processing time
/// is the sum of the work that was done for it, as far as that can be counted.
pub proof fn law_processing_time_adds_up(graph: GraphModel, stays: Seq<Stay>)
    requires
        is_journey(graph, stays),
        stays.len() > 0,
        stays[0].comes_from_calls(),
        forall|endpoint: Seq<char>, api: Seq<char>| #[trigger]
            graph.children_for(endpoint, api).len() <= usize::MAX,
    ensures
        stays.last().comes_from_calls(),
        ({
            let first = stays[0].hop;
            let last = stays.last().hop;
            let total = first.processing_time + work_done(stays.skip(1));
            &&& last.request_id == first.request_id
            &&& last.api == first.api
            &&& last.start == first.start
            &&& last.deadline == first.deadline
            &&& total <= u64::MAX ==> last.processing_time == total
        }),
    decreases stays.len(),
{
    if stays.len() == 1 {
        assert(stays.skip(1) == Seq::<Stay>::empty());
    } else {
        let before = stays.drop_last();
        assert forall|i: int, k: int|
            0 <= i < k < before.len() && k == i + 1 implies #[trigger] goes_on(
            graph,
            before[i],
            before[k],
        ) by {
            assert(goes_on(graph, stays[i], stays[k]));
        }
        law_processing_time_adds_up(graph, before);
        assert(stays.skip(1).drop_last() == before.skip(1));
        let from = stays[stays.len() - 2];
        assert(before.last() == from);
        assert(graph.children_for(from.hop.endpoint, from.hop.api).len() <= usize::MAX);
        assert(goes_on(graph, from, stays[stays.len() - 1]));
    }
}

} // verus!
