//! A run of the microservice simulator: which flags go together, how the parts are laid
//! out, how requests enter, and what a run amounts to.

use super::callgraph::{names_of, CallGraph, GraphModel, MicroserviceSpec};
use super::hop::{
    law_children_are_the_linked_endpoints, microservice_for_endpoint, CompletedRequest, Hop,
    HopModel,
};
use super::microservice_stats::TrackerState;
use super::replica::{advanced, AdvanceModel, CentralPull};
use crate::key_map::{KeyMap, NameMap};
use crate::lb_flags::{flag_name, flag_name_of};
use crate::lb_simulate::is_p99;
use crate::policy::LoadBalancePolicyKind;
use crate::samples::{above, count_above, percentile_index, sorted};
use crate::text::Text;
use vstd::prelude::*;

verus! {

/// Why a policy cannot be simulated, with subsets of this size.
pub open spec fn run_fault(kind: LoadBalancePolicyKind, lb_subset_size: u32) -> Option<Seq<char>> {
    if kind is Prequal {
        Some("--lb-policy "@ + flag_name_of(kind) + " is not supported by the ms simulator"@)
    } else if (kind.is_cl_family() || kind is Corr) && lb_subset_size > 0 {
        Some("--lb-subset-size is not supported with --lb-policy cl, cl-lr, cl-r, cl-rr, or corr"@)
    } else {
        None
    }
}

/// Checks that a policy can be simulated: a shared balancer that pushes needs all servers.
/// Whether the subsets of a central pull queue fit a graph, `validate_subsets` checks.
pub fn validate_run(kind: LoadBalancePolicyKind, lb_subset_size: u32) -> (r: Result<(), String>)
    ensures
        match run_fault(kind, lb_subset_size) {
            None => r is Ok,
            Some(text) => r matches Err(e) && e@ == text,
        },
{
    if kind.is_prequal() {
        return Err(
            Text::of("--lb-policy ").lit(flag_name(kind)).lit(
                " is not supported by the ms simulator",
            ).done(),
        );
    }
    if kind.uses_shared_downstream() && !kind.uses_central_pull_queue() && lb_subset_size > 0 {
        return Err(
            "--lb-subset-size is not supported with --lb-policy cl, cl-lr, cl-r, cl-rr, or corr".to_owned(),
        );
    }
    Ok(())
}

impl GraphModel {
    /// An endpoint of `microservice` calls an endpoint of `target`.
    pub open spec fn call_at(
        self,
        microservice: Seq<char>,
        target: Seq<char>,
        endpoint: Seq<char>,
        i: int,
    ) -> bool {
        &&& self.owners.dom().contains(endpoint)
        &&& self.owners[endpoint] == microservice
        &&& 0 <= i < self.calls(endpoint).len()
        &&& self.owners.dom().contains(self.calls(endpoint)[i].target)
        &&& self.owners[self.calls(endpoint)[i].target] == target
    }

    /// `microservice` calls `target`.
    pub open spec fn reaches(self, microservice: Seq<char>, target: Seq<char>) -> bool {
        exists|endpoint: Seq<char>, i: int| #[trigger]
            self.call_at(microservice, target, endpoint, i)
    }
}

/// Whether `name` is in `list`.
pub(crate) fn listed(list: &Vec<String>, name: &String) -> (r: bool)
    ensures
        r == names_of(list@).contains(name@),
{
    let mut i: usize = 0;
    while i < list.len()
        invariant
            i <= list@.len(),
            forall|j: int| 0 <= j < i ==> (#[trigger] names_of(list@)[j]) != name@,
        decreases list@.len() - i,
    {
        if list[i] == *name {
            assert(names_of(list@)[i as int] == name@);
            return true;
        }
        i += 1;
    }
    false
}

proof fn lemma_pushed_name(list: Seq<String>, name: String, other: Seq<char>)
    ensures
        names_of(list.push(name)) == names_of(list).push(name@),
        names_of(list.push(name)).contains(other) <==> names_of(list).contains(other) || other
            == name@,
{
    let before = names_of(list);
    let after = names_of(list.push(name));
    assert(after =~= before.push(name@));
    if before.contains(other) {
        let i = choose|i: int| 0 <= i < before.len() && before[i] == other;
        assert(after[i] == other);
    }
    if other == name@ {
        assert(after[before.len() as int] == other);
    }
    if after.contains(other) {
        let i = choose|i: int| 0 <= i < after.len() && after[i] == other;
        if i < before.len() {
            assert(before[i] == other);
        }
    }
}

/// `targets` are the microservices reached by the first `k` calls of `endpoint`, on top of
/// those in `before`.
spec fn reached_by_calls(
    graph: GraphModel,
    microservice: Seq<char>,
    before: Seq<Seq<char>>,
    endpoint: Seq<char>,
    k: int,
    targets: Seq<Seq<char>>,
) -> bool {
    forall|t: Seq<char>| #[trigger]
        targets.contains(t) <==> before.contains(t) || exists|i: int|
            i < k && #[trigger] graph.call_at(microservice, t, endpoint, i)
}

/// The microservices that `microservice_id` calls, each once.
pub fn downstream_targets(graph: &CallGraph, microservice_id: &String) -> (r: Vec<String>)
    requires
        graph.wf(),
    ensures
        names_of(r@).no_duplicates(),
        forall|t: Seq<char>| #[trigger]
            names_of(r@).contains(t) <==> graph@.reaches(microservice_id@, t),
{
    let mut targets: Vec<String> = Vec::new();
    proof {
        graph.endpoint_microservice.lemma_ids();
    }
    let ghost endpoints = graph.endpoint_microservice.ids();
    let mut e: usize = 0;
    while e < graph.endpoint_microservice.len()
        invariant
            graph.wf(),
            endpoints == graph.endpoint_microservice.ids(),
            e <= endpoints.len(),
            forall|j: int|
                0 <= j < endpoints.len() ==> graph@.owners.dom().contains(#[trigger] endpoints[j]),
            names_of(targets@).no_duplicates(),
            forall|t: Seq<char>| #[trigger]
                names_of(targets@).contains(t) <==> exists|j: int, i: int|
                    0 <= j < e && #[trigger] graph@.call_at(
                        microservice_id@,
                        t,
                        endpoints[j],
                        i,
                    ),
        decreases endpoints.len() - e,
    {
        let ghost before = names_of(targets@);
        let endpoint = graph.endpoint_microservice.key_at(e);
        let owner = graph.endpoint_microservice.value_at(e);
        assert(graph@.owners.dom().contains(endpoint@));
        assert(graph@.owners[endpoint@] == owner@);
        if *owner == *microservice_id {
            match graph.children.get(endpoint) {
                Some(edges) => {
                    let ghost calls = graph@.calls(endpoint@);
                    assert(calls == super::callgraph::edges_of(edges@));
                    let mut k: usize = 0;
                    while k < edges.len()
                        invariant
                            graph.wf(),
                            k <= edges@.len(),
                            calls == super::callgraph::edges_of(edges@),
                            calls == graph@.calls(endpoint@),
                            graph@.owners.dom().contains(endpoint@),
                            graph@.owners[endpoint@] == microservice_id@,
                            names_of(targets@).no_duplicates(),
                            reached_by_calls(
                                graph@,
                                microservice_id@,
                                before,
                                endpoint@,
                                k as int,
                                names_of(targets@),
                            ),
                        decreases edges@.len() - k,
                    {
                        let ghost held = names_of(targets@);
                        assert(calls[k as int] == edges@[k as int].model());
                        match graph.endpoint_microservice.get(&edges[k].target) {
                            Some(downstream) => {
                                assert(graph@.owners[edges@[k as int].target@] == downstream@);
                                assert(graph@.call_at(
                                    microservice_id@,
                                    downstream@,
                                    endpoint@,
                                    k as int,
                                ));
                                let ghost shorter = targets@;
                                if !listed(&targets, downstream) {
                                    targets.push(downstream.clone());
                                    proof {
                                        lemma_pushed_name(shorter, *downstream, downstream@);
                                        assert(names_of(targets@) == held.push(downstream@));
                                    }
                                }
                                proof {
                                    assert forall|t: Seq<char>| #[trigger]
                                        names_of(targets@).contains(t) <==> before.contains(t)
                                        || exists|i: int|
                                        i < k + 1 && #[trigger] graph@.call_at(
                                            microservice_id@,
                                            t,
                                            endpoint@,
                                            i,
                                        ) by {
                                        lemma_pushed_name(shorter, *downstream, t);
                                        assert(held.contains(t) <==> before.contains(t)
                                            || exists|i: int|
                                            i < k && #[trigger] graph@.call_at(
                                                microservice_id@,
                                                t,
                                                endpoint@,
                                                i,
                                            ));
                                        if exists|i: int|
                                            i < k + 1 && #[trigger] graph@.call_at(
                                                microservice_id@,
                                                t,
                                                endpoint@,
                                                i,
                                            ) {
                                            let i = choose|i: int|
                                                i < k + 1 && #[trigger] graph@.call_at(
                                                    microservice_id@,
                                                    t,
                                                    endpoint@,
                                                    i,
                                                );
                                            if i < k {
                                                assert(held.contains(t));
                                            } else {
                                                assert(t == downstream@);
                                            }
                                        }
                                    }
                                }
                            },
                            None => {
                                proof {
                                    assert forall|t: Seq<char>| #[trigger]
                                        names_of(targets@).contains(t) <==> before.contains(t)
                                        || exists|i: int|
                                        i < k + 1 && #[trigger] graph@.call_at(
                                            microservice_id@,
                                            t,
                                            endpoint@,
                                            i,
                                        ) by {
                                        if exists|i: int|
                                            i < k + 1 && #[trigger] graph@.call_at(
                                                microservice_id@,
                                                t,
                                                endpoint@,
                                                i,
                                            ) {
                                            let i = choose|i: int|
                                                i < k + 1 && #[trigger] graph@.call_at(
                                                    microservice_id@,
                                                    t,
                                                    endpoint@,
                                                    i,
                                                );
                                            assert(i < k);
                                        }
                                    }
                                }
                            },
                        }
                        k += 1;
                    }
                    proof {
                        lemma_endpoint_done(
                            graph@,
                            microservice_id@,
                            endpoints,
                            e as int,
                            before,
                            names_of(targets@),
                            k as int,
                        );
                    }
                },
                None => {
                    proof {
                        assert(graph@.calls(endpoint@).len() == 0);
                        lemma_endpoint_done(
                            graph@,
                            microservice_id@,
                            endpoints,
                            e as int,
                            before,
                            before,
                            0,
                        );
                    }
                },
            }
        } else {
            proof {
                assert forall|t: Seq<char>| #[trigger] names_of(targets@).contains(t) <==> exists|
                    j: int,
                    i: int,
                |
                    0 <= j < e + 1 && #[trigger] graph@.call_at(
                        microservice_id@,
                        t,
                        endpoints[j],
                        i,
                    ) by {
                    if exists|j: int, i: int|
                        0 <= j < e + 1 && #[trigger] graph@.call_at(
                            microservice_id@,
                            t,
                            endpoints[j],
                            i,
                        ) {
                        let (j, i) = choose|j: int, i: int|
                            0 <= j < e + 1 && #[trigger] graph@.call_at(
                                microservice_id@,
                                t,
                                endpoints[j],
                                i,
                            );
                        assert(j < e);
                    }
                }
            }
        }
        e += 1;
    }
    proof {
        assert forall|t: Seq<char>| #[trigger] names_of(targets@).contains(t) <==> graph@.reaches(
            microservice_id@,
            t,
        ) by {
            if graph@.reaches(microservice_id@, t) {
                let (endpoint, i) = choose|endpoint: Seq<char>, i: int| #[trigger]
                    graph@.call_at(microservice_id@, t, endpoint, i);
                assert(graph.endpoint_microservice@.dom().contains(endpoint));
                assert(endpoints.contains(endpoint));
                let j = choose|j: int| 0 <= j < endpoints.len() && endpoints[j] == endpoint;
                assert(graph@.call_at(microservice_id@, t, endpoints[j], i));
            }
            if names_of(targets@).contains(t) {
                let (j, i) = choose|j: int, i: int|
                    0 <= j < e && #[trigger] graph@.call_at(
                        microservice_id@,
                        t,
                        endpoints[j],
                        i,
                    );
                assert(graph@.call_at(microservice_id@, t, endpoints[j], i));
            }
        }
    }
    targets
}

proof fn lemma_endpoint_done(
    graph: GraphModel,
    microservice: Seq<char>,
    endpoints: Seq<Seq<char>>,
    e: int,
    before: Seq<Seq<char>>,
    after: Seq<Seq<char>>,
    k: int,
)
    requires
        0 <= e < endpoints.len(),
        k == graph.calls(endpoints[e]).len(),
        forall|t: Seq<char>| #[trigger]
            before.contains(t) <==> exists|j: int, i: int|
                0 <= j < e && #[trigger] graph.call_at(microservice, t, endpoints[j], i),
        reached_by_calls(graph, microservice, before, endpoints[e], k, after),
    ensures
        forall|t: Seq<char>| #[trigger]
            after.contains(t) <==> exists|j: int, i: int|
                0 <= j < e + 1 && #[trigger] graph.call_at(microservice, t, endpoints[j], i),
{
    assert forall|t: Seq<char>| #[trigger] after.contains(t) <==> exists|j: int, i: int|
        0 <= j < e + 1 && #[trigger] graph.call_at(microservice, t, endpoints[j], i) by {
        assert(before.contains(t) <==> exists|j: int, i: int|
            0 <= j < e && #[trigger] graph.call_at(microservice, t, endpoints[j], i));
        if after.contains(t) {
            if before.contains(t) {
                let (j, i) = choose|j: int, i: int|
                    0 <= j < e && #[trigger] graph.call_at(microservice, t, endpoints[j], i);
                assert(graph.call_at(microservice, t, endpoints[j], i));
            } else {
                let i = choose|i: int|
                    i < k && #[trigger] graph.call_at(microservice, t, endpoints[e], i);
                assert(graph.call_at(microservice, t, endpoints[e], i));
            }
        }
        if exists|j: int, i: int|
            0 <= j < e + 1 && #[trigger] graph.call_at(microservice, t, endpoints[j], i) {
            let (j, i) = choose|j: int, i: int|
                0 <= j < e + 1 && #[trigger] graph.call_at(microservice, t, endpoints[j], i);
            if j < e {
                assert(before.contains(t));
            } else {
                assert(graph.call_at(microservice, t, endpoints[e], i));
            }
        }
    }
}

/// The microservices that any microservice of the graph calls, each once.
pub fn all_downstream_targets(graph: &CallGraph) -> (r: Vec<String>)
    requires
        graph.wf(),
    ensures
        names_of(r@).no_duplicates(),
        forall|t: Seq<char>| #[trigger]
            names_of(r@).contains(t) <==> exists|m: Seq<char>| #[trigger]
                graph@.order.contains(m) && graph@.reaches(m, t),
{
    let mut all: Vec<String> = Vec::new();
    let mut m: usize = 0;
    while m < graph.microservice_order.len()
        invariant
            graph.wf(),
            m <= graph@.order.len(),
            names_of(all@).no_duplicates(),
            forall|t: Seq<char>| #[trigger]
                names_of(all@).contains(t) <==> exists|j: int|
                    0 <= j < m && graph@.reaches(#[trigger] graph@.order[j], t),
        decreases graph@.order.len() - m,
    {
        let ghost before = names_of(all@);
        let id = &graph.microservice_order[m];
        assert(graph@.order[m as int] == id@);
        let targets = downstream_targets(graph, id);
        let ghost found = names_of(targets@);
        let mut k: usize = 0;
        while k < targets.len()
            invariant
                k <= targets@.len(),
                found == names_of(targets@),
                names_of(all@).no_duplicates(),
                forall|t: Seq<char>| #[trigger]
                    names_of(all@).contains(t) <==> before.contains(t) || found.take(
                        k as int,
                    ).contains(t),
            decreases targets@.len() - k,
        {
            let ghost shorter = all@;
            assert(found[k as int] == targets@[k as int]@);
            assert(found.take(k + 1) =~= found.take(k as int).push(targets@[k as int]@));
            if !listed(&all, &targets[k]) {
                all.push(targets[k].clone());
                proof {
                    lemma_pushed_name(shorter, targets@[k as int], found[k as int]);
                }
            }
            proof {
                assert forall|t: Seq<char>| #[trigger]
                    names_of(all@).contains(t) <==> before.contains(t) || found.take(
                    k + 1,
                ).contains(t) by {
                    lemma_pushed_name(shorter, targets@[k as int], t);
                    lemma_push_seq(found.take(k as int), targets@[k as int]@, t);
                    assert(names_of(shorter).contains(t) <==> before.contains(t) || found.take(
                        k as int,
                    ).contains(t));
                }
            }
            k += 1;
        }
        proof {
            assert(found.take(k as int) =~= found);
            assert forall|t: Seq<char>| #[trigger] names_of(all@).contains(t) <==> exists|j: int|
                0 <= j < m + 1 && graph@.reaches(#[trigger] graph@.order[j], t) by {
                assert(before.contains(t) <==> exists|j: int|
                    0 <= j < m && graph@.reaches(#[trigger] graph@.order[j], t));
                assert(found.contains(t) <==> graph@.reaches(graph@.order[m as int], t));
                if before.contains(t) {
                    let j = choose|j: int|
                        0 <= j < m && graph@.reaches(#[trigger] graph@.order[j], t);
                    assert(graph@.reaches(graph@.order[j], t));
                }
                if exists|j: int|
                    0 <= j < m + 1 && graph@.reaches(#[trigger] graph@.order[j], t) {
                    let j = choose|j: int|
                        0 <= j < m + 1 && graph@.reaches(#[trigger] graph@.order[j], t);
                    if j < m {
                        assert(graph@.reaches(graph@.order[j], t));
                    }
                }
            }
        }
        m += 1;
    }
    proof {
        assert forall|t: Seq<char>| #[trigger] names_of(all@).contains(t) <==> exists|
            id: Seq<char>,
        | #[trigger]
            graph@.order.contains(id) && graph@.reaches(id, t) by {
            if names_of(all@).contains(t) {
                let j = choose|j: int| 0 <= j < m && graph@.reaches(#[trigger] graph@.order[j], t);
                assert(graph@.order.contains(graph@.order[j]));
            }
            if exists|id: Seq<char>| #[trigger]
                graph@.order.contains(id) && graph@.reaches(id, t) {
                let id = choose|id: Seq<char>| #[trigger]
                    graph@.order.contains(id) && graph@.reaches(id, t);
                let j = choose|j: int| 0 <= j < graph@.order.len() && graph@.order[j] == id;
                assert(graph@.reaches(graph@.order[j], t));
            }
        }
    }
    all
}

pub proof fn lemma_push_seq(s: Seq<Seq<char>>, x: Seq<char>, y: Seq<char>)
    ensures
        s.push(x).contains(y) <==> s.contains(y) || x == y,
{
    let longer = s.push(x);
    if s.contains(y) {
        let i = choose|i: int| 0 <= i < s.len() && s[i] == y;
        assert(longer[i] == y);
    }
    if x == y {
        assert(longer[s.len() as int] == y);
    }
    if longer.contains(y) {
        let i = choose|i: int| 0 <= i < longer.len() && longer[i] == y;
        if i < s.len() {
            assert(s[i] == y);
        }
    }
}

/// A call that a request makes goes to a microservice that the balancers of its replica
/// know: whatever `advance` calls is among the downstream targets.
pub proof fn law_calls_go_to_downstream_targets(
    microservice: Seq<char>,
    server: usize,
    graph: GraphModel,
    visits: TrackerState,
    hop: HopModel,
    now: u64,
)
    requires
        graph.owners.dom().contains(hop.endpoint),
        graph.owners[hop.endpoint] == microservice,
    ensures
        advanced(microservice, server, graph, visits, hop, now).next matches AdvanceModel::Call(
            call,
        ) ==> graph.reaches(microservice, call.target_microservice),
{
    let next = advanced(microservice, server, graph, visits, hop, now).next;
    if next is Call {
        let children = graph.children_for(hop.endpoint, hop.api);
        let child = children[hop.sibling_index as int];
        assert(children.contains(child));
        law_children_are_the_linked_endpoints(graph, hop.endpoint, hop.api, child);
        let calls = graph.calls(hop.endpoint);
        let i = choose|i: int|
            0 <= i < calls.len() && calls[i] == (super::callgraph::EdgeModel {
                target: child,
                api: Some(hop.api),
            });
        assert(graph.call_at(microservice, graph.owners[child], hop.endpoint, i));
    }
}

/// The microservice that each API enters at. An API whose entry belongs to none is left out.
pub fn entry_microservices_by_api(graph: &CallGraph) -> (r: NameMap<String>)
    requires
        graph.wf(),
    ensures
        r.wf(),
        forall|api: Seq<char>| #[trigger]
            r@.dom().contains(api) <==> graph@.entries.dom().contains(api)
                && graph@.owners.dom().contains(graph@.entries[api]),
        forall|api: Seq<char>| #[trigger]
            r@.dom().contains(api) ==> r@[api]@ == graph@.owners[graph@.entries[api]],
{
    let mut out: NameMap<String> = KeyMap::new();
    proof {
        graph.entrypoints.lemma_ids();
    }
    let ghost apis = graph.entrypoints.ids();
    let mut i: usize = 0;
    while i < graph.entrypoints.len()
        invariant
            graph.wf(),
            out.wf(),
            apis == graph.entrypoints.ids(),
            i <= apis.len(),
            forall|j: int|
                0 <= j < apis.len() ==> graph@.entries.dom().contains(#[trigger] apis[j]),
            forall|api: Seq<char>| #[trigger]
                out@.dom().contains(api) <==> apis.take(i as int).contains(api)
                    && graph@.owners.dom().contains(graph@.entries[api]),
            forall|api: Seq<char>| #[trigger]
                out@.dom().contains(api) ==> out@[api]@ == graph@.owners[graph@.entries[api]],
        decreases apis.len() - i,
    {
        let api = graph.entrypoints.key_at(i);
        let entry = graph.entrypoints.value_at(i);
        assert(graph@.entries[api@] == entry@);
        assert(apis.take(i + 1) =~= apis.take(i as int).push(api@));
        let ghost before = out@;
        match microservice_for_endpoint(graph, entry) {
            Ok(id) => {
                out.insert(api.clone(), id);
            },
            Err(_) => {},
        }
        proof {
            assert forall|other: Seq<char>| #[trigger]
                out@.dom().contains(other) <==> apis.take(i + 1).contains(other)
                && graph@.owners.dom().contains(graph@.entries[other]) by {
                lemma_push_seq(apis.take(i as int), api@, other);
                assert(before.dom().contains(other) <==> apis.take(i as int).contains(other)
                    && graph@.owners.dom().contains(graph@.entries[other]));
            }
        }
        i += 1;
    }
    assert(apis.take(i as int) =~= apis);
    out
}

/// The sum of `counts`.
pub open spec fn total_of(counts: Seq<u32>) -> nat
    decreases counts.len(),
{
    if counts.len() == 0 {
        0
    } else {
        total_of(counts.drop_last()) + counts.last() as nat
    }
}

/// How many of `n` requests each of the first `k` APIs gets: its share, as far as there are
/// requests left. The last API gets all that are left.
pub open spec fn counts_of(n: u32, shares: Seq<u32>, k: nat) -> Seq<u32>
    decreases k,
{
    if k == 0 {
        Seq::empty()
    } else {
        let before = counts_of(n, shares, (k - 1) as nat);
        let left = n - total_of(before);
        before.push(
            if k == shares.len() || left < shares[k - 1] {
                left as u32
            } else {
                shares[k - 1]
            },
        )
    }
}

/// Splits `n` requests among APIs by their shares, which need not add up.
pub fn split_by_shares(n: u32, shares: &Vec<u32>) -> (r: Vec<u32>)
    ensures
        r@ == counts_of(n, shares@, shares@.len()),
        shares@.len() > 0 ==> total_of(r@) == n,
{
    let mut out: Vec<u32> = Vec::new();
    let mut left: u32 = n;
    let mut k: usize = 0;
    while k < shares.len()
        invariant
            k <= shares@.len(),
            out@ == counts_of(n, shares@, k as nat),
            left == n - total_of(out@),
            k > 0 && k == shares@.len() ==> left == 0,
        decreases shares@.len() - k,
    {
        let count: u32 = if k + 1 == shares.len() || left < shares[k] {
            left
        } else {
            shares[k]
        };
        let ghost before = out@;
        out.push(count);
        assert(out@.drop_last() =~= before);
        left = left - count;
        k += 1;
    }
    out
}

/// However the shares are rounded, every request goes to some API.
pub proof fn law_split_gives_out_every_request(n: u32, shares: Seq<u32>)
    requires
        shares.len() > 0,
    ensures
        total_of(counts_of(n, shares, shares.len())) == n,
        counts_of(n, shares, shares.len()).len() == shares.len(),
{
    lemma_counts_bounded(n, shares, shares.len());
    let before = counts_of(n, shares, (shares.len() - 1) as nat);
    let after = counts_of(n, shares, shares.len());
    lemma_counts_bounded(n, shares, (shares.len() - 1) as nat);
    assert(after.drop_last() =~= before);
}

proof fn lemma_counts_bounded(n: u32, shares: Seq<u32>, k: nat)
    requires
        k <= shares.len(),
    ensures
        total_of(counts_of(n, shares, k)) <= n,
        counts_of(n, shares, k).len() == k,
    decreases k,
{
    if k > 0 {
        lemma_counts_bounded(n, shares, (k - 1) as nat);
        let before = counts_of(n, shares, (k - 1) as nat);
        assert(counts_of(n, shares, k).drop_last() =~= before);
    }
}

/// How a replica is set up.
#[derive(Clone, Copy, Debug, PartialEq, Eq, Structural)]
pub struct ReplicaPlan {
    pub max_concurrency: u32,
    pub central: CentralPull,
    /// How often the replica is told to pull when the run starts.
    pub initial_pulls: u32,
}

/// The slots of each replica: the cores, spread evenly, but at least one.
pub open spec fn slots_of(spec: MicroserviceSpec) -> u32 {
    let even = spec.cpu / spec.replicas;
    if even == 0 {
        1
    } else {
        even
    }
}

/// How a replica of a microservice is set up.
pub open spec fn replica_plan(
    lb_policy: LoadBalancePolicyKind,
    jbsq_n: Option<u32>,
    spec: MicroserviceSpec,
    is_called: bool,
) -> ReplicaPlan {
    let bound = match jbsq_n {
        Some(n) => n,
        None => 1,
    };
    let (central, initial_pulls) = if is_called && lb_policy is Centralized {
        (CentralPull::WhenIdle, slots_of(spec))
    } else if is_called && lb_policy is Jbsq {
        (CentralPull::UpTo(bound), bound)
    } else {
        (CentralPull::Off, 0u32)
    };
    ReplicaPlan { max_concurrency: slots_of(spec), central, initial_pulls }
}

/// Sets up a replica of a microservice. It pulls from a shared queue where other
/// microservices call it and the policy has one.
pub fn plan_replica(
    lb_policy: LoadBalancePolicyKind,
    jbsq_n: Option<u32>,
    spec: MicroserviceSpec,
    is_called: bool,
) -> (r: ReplicaPlan)
    requires
        spec.replicas > 0,
    ensures
        r == replica_plan(lb_policy, jbsq_n, spec, is_called),
{
    let even: u32 = spec.cpu / spec.replicas;
    let slots: u32 = if even == 0 {
        1
    } else {
        even
    };
    if is_called && lb_policy.is_jbsq() {
        let n: u32 = match jbsq_n {
            Some(n) => n,
            None => 1,
        };
        ReplicaPlan { max_concurrency: slots, central: CentralPull::UpTo(n), initial_pulls: n }
    } else if is_called && lb_policy.is_centralized() {
        ReplicaPlan {
            max_concurrency: slots,
            central: CentralPull::WhenIdle,
            initial_pulls: slots,
        }
    } else {
        ReplicaPlan { max_concurrency: slots, central: CentralPull::Off, initial_pulls: 0 }
    }
}

/// Where requests come from. Requests are numbered from 1.
pub struct UserArrival {
    issued: u64,
    trace_limit: Option<u32>,
}

/// The request for `api` that enters at `now`, after `issued` others, and is due within `slo`.
pub open spec fn new_request(
    graph: GraphModel,
    issued: u64,
    trace_limit: Option<u32>,
    api: Seq<char>,
    slo: u64,
    now: u64,
) -> HopModel {
    HopModel {
        request_id: (issued + 1) as u64,
        trace: trace_limit matches Some(limit) && issued + 1 <= limit,
        api,
        endpoint: graph.entries[api],
        sibling_index: 0,
        start: now,
        deadline: (now + slo) as u64,
        duration: 0,
        processing_time: 0,
        caller: None,
        outbound_release: None,
        slot_release: None,
    }
}

impl UserArrival {
    /// How many requests were numbered.
    pub closed spec fn issued(&self) -> u64 {
        self.issued
    }

    /// Requests up to this number are traced.
    pub closed spec fn trace_limit(&self) -> Option<u32> {
        self.trace_limit
    }

    pub fn new(trace_limit: Option<u32>) -> (r: UserArrival)
        ensures
            r.issued() == 0,
            r.trace_limit() == trace_limit,
    {
        UserArrival { issued: 0, trace_limit }
    }

    /// A request for `api` enters at `now`, due within `slo` of now. `has_edge` says whether
    /// the API has an edge balancer. A request that gets no further than its number has used
    /// the number up.
    pub fn inject(
        &mut self,
        graph: &CallGraph,
        api: String,
        has_edge: bool,
        slo: Option<u64>,
        now: u64,
    ) -> (r: Result<Hop, String>)
        requires
            graph.wf(),
            old(self).issued() < u64::MAX,
            slo matches Some(slo) ==> now + slo <= u64::MAX,
        ensures
            final(self).trace_limit() == old(self).trace_limit(),
            ({
                let known = graph@.entries.dom().contains(api@);
                let numbered = known && has_edge;
                &&& final(self).issued() == if numbered {
                    old(self).issued() + 1
                } else {
                    old(self).issued() as int
                }
                &&& match r {
                    Ok(hop) => {
                        &&& numbered
                        &&& slo is Some
                        &&& hop.model() == new_request(
                            graph@,
                            old(self).issued(),
                            old(self).trace_limit(),
                            api@,
                            slo->0,
                            now,
                        )
                    },
                    Err(text) => text@ == if !known {
                        "arrival: unknown api "@ + api@
                    } else if !has_edge {
                        "arrival: no edge balancer for api "@ + api@
                    } else {
                        "arrival: no load spec for api "@ + api@
                    } && !(numbered && slo is Some),
                }
            }),
    {
        let endpoint = match graph.entrypoints.get(&api) {
            Some(endpoint) => endpoint.clone(),
            None => {
                return Err(Text::of("arrival: unknown api ").lit(&api).done());
            },
        };
        if !has_edge {
            return Err(Text::of("arrival: no edge balancer for api ").lit(&api).done());
        }
        self.issued = self.issued + 1;
        let trace = match self.trace_limit {
            Some(limit) => self.issued <= limit as u64,
            None => false,
        };
        match slo {
            Some(slo) => Ok(
                Hop {
                    request_id: self.issued,
                    trace,
                    api,
                    endpoint,
                    sibling_index: 0,
                    start: now,
                    deadline: now + slo,
                    duration: 0,
                    processing_time: 0,
                    caller: None,
                    outbound_release: None,
                    slot_release: None,
                },
            ),
            None => Err(Text::of("arrival: no load spec for api ").lit(&api).done()),
        }
    }
}

/// Times of the finished requests of one API.
#[verifier::ext_equal]
pub struct ApiTimes {
    /// From arrival to completion.
    pub e2e: Seq<u64>,
    /// Local work, all visits together.
    pub processing: Seq<u64>,
}

/// The times of the requests of `api` among `done`.
pub open spec fn times_of(done: Seq<CompletedRequest>, api: Seq<char>) -> ApiTimes
    decreases done.len(),
{
    if done.len() == 0 {
        ApiTimes { e2e: Seq::empty(), processing: Seq::empty() }
    } else {
        let before = times_of(done.drop_last(), api);
        let last = done.last();
        if last.api@ == api {
            ApiTimes {
                e2e: before.e2e.push((last.finish - last.start) as u64),
                processing: before.processing.push(last.processing_time),
            }
        } else {
            before
        }
    }
}

/// What the finished requests of one API come to.
#[derive(Clone, Debug)]
pub struct ApiSummary {
    pub e2e: Vec<u64>,
    pub processing: Vec<u64>,
    pub unloaded_latency_p99: u64,
    /// The latency bound of the API.
    pub slo: Option<u64>,
    /// How many requests took longer than the latency bound of the API; over all of them,
    /// the probability that one does. None where the API has no bound.
    pub violations: Option<usize>,
}

impl ApiSummary {
    pub open spec fn describes(self, times: ApiTimes, slo: Option<u64>) -> bool {
        &&& self.e2e@ == times.e2e
        &&& self.processing@ == times.processing
        &&& is_p99(times.processing, self.unloaded_latency_p99)
        &&& self.slo == slo
        &&& match slo {
            Some(slo) => self.violations matches Some(n) && n == above(times.e2e, slo),
            None => self.violations is None,
        }
    }
}

/// Work on each of `done`, in order.
pub open spec fn processing_of(done: Seq<CompletedRequest>) -> Seq<u64> {
    done.map_values(|d: CompletedRequest| d.processing_time)
}

/// What a run amounts to, API by API.
#[derive(Clone, Debug)]
pub struct MsSummary {
    pub by_api: NameMap<ApiSummary>,
    /// 99th percentile of the work on a request, all APIs together.
    pub total_processing_p99: u64,
}

fn percentile_99(times: &Vec<u64>) -> (r: u64)
    requires
        times@.len() > 0,
    ensures
        is_p99(times@, r),
{
    let ordered = sorted(times);
    ordered[percentile_index(ordered.len(), 99)]
}

/// The times of the requests of `api`.
fn gather_times(done: &Vec<CompletedRequest>, api: &String) -> (r: (Vec<u64>, Vec<u64>))
    requires
        forall|i: int|
            0 <= i < done@.len() ==> (#[trigger] done@[i]).start <= done@[i].finish,
    ensures
        r.0@ == times_of(done@, api@).e2e,
        r.1@ == times_of(done@, api@).processing,
        r.0@.len() == r.1@.len(),
        r.1@.len() > 0 <==> exists|i: int| 0 <= i < done@.len() && (#[trigger] done@[i]).api@
            == api@,
{
    let mut e2e: Vec<u64> = Vec::new();
    let mut processing: Vec<u64> = Vec::new();
    let mut i: usize = 0;
    while i < done.len()
        invariant
            i <= done@.len(),
            forall|j: int|
                0 <= j < done@.len() ==> (#[trigger] done@[j]).start <= done@[j].finish,
            e2e@ == times_of(done@.take(i as int), api@).e2e,
            processing@ == times_of(done@.take(i as int), api@).processing,
            e2e@.len() == processing@.len(),
            processing@.len() > 0 <==> exists|j: int|
                0 <= j < i && (#[trigger] done@[j]).api@ == api@,
        decreases done@.len() - i,
    {
        assert(done@.take(i + 1).drop_last() =~= done@.take(i as int));
        let item = &done[i];
        if item.api == *api {
            e2e.push(item.finish - item.start);
            processing.push(item.processing_time);
            assert(done@[i as int].api@ == api@);
        }
        i += 1;
    }
    assert(done@.take(i as int) =~= done@);
    (e2e, processing)
}

/// Sums a run up. There is nothing to report unless some request finished.
pub fn calculate_stats(done: &Vec<CompletedRequest>, slo_by_api: &NameMap<u64>) -> (r: Option<
    MsSummary,
>)
    requires
        slo_by_api.wf(),
        forall|i: int|
            0 <= i < done@.len() ==> (#[trigger] done@[i]).start <= done@[i].finish,
    ensures
        r is None <==> done@.len() == 0,
        r matches Some(summary) ==> {
            &&& summary.by_api.wf()
            &&& forall|api: Seq<char>| #[trigger]
                summary.by_api@.dom().contains(api) <==> exists|i: int|
                    0 <= i < done@.len() && (#[trigger] done@[i]).api@ == api
            &&& forall|api: Seq<char>| #[trigger]
                summary.by_api@.dom().contains(api) ==> summary.by_api@[api].describes(
                    times_of(done@, api),
                    if slo_by_api@.dom().contains(api) {
                        Some(slo_by_api@[api])
                    } else {
                        None
                    },
                )
            &&& is_p99(processing_of(done@), summary.total_processing_p99)
        },
{
    if done.len() == 0 {
        return None;
    }
    let mut by_api: NameMap<ApiSummary> = KeyMap::new();
    let mut all: Vec<u64> = Vec::new();
    let mut i: usize = 0;
    while i < done.len()
        invariant
            i <= done@.len(),
            slo_by_api.wf(),
            by_api.wf(),
            forall|j: int|
                0 <= j < done@.len() ==> (#[trigger] done@[j]).start <= done@[j].finish,
            all@ == processing_of(done@).take(i as int),
            forall|api: Seq<char>| #[trigger]
                by_api@.dom().contains(api) <==> exists|j: int|
                    0 <= j < i && (#[trigger] done@[j]).api@ == api,
            forall|api: Seq<char>| #[trigger]
                by_api@.dom().contains(api) ==> by_api@[api].describes(
                    times_of(done@, api),
                    if slo_by_api@.dom().contains(api) {
                        Some(slo_by_api@[api])
                    } else {
                        None
                    },
                ),
        decreases done@.len() - i,
    {
        let item = &done[i];
        all.push(item.processing_time);
        assert(all@ =~= processing_of(done@).take(i + 1));
        let ghost before = by_api@;
        if !by_api.contains(&item.api) {
            let (e2e, processing) = gather_times(done, &item.api);
            assert(done@[i as int].api@ == item.api@);
            let violations = match slo_by_api.get(&item.api) {
                Some(slo) => Some(count_above(&e2e, *slo)),
                None => None,
            };
            let unloaded_latency_p99: u64 = percentile_99(&processing);
            let slo = match slo_by_api.get(&item.api) {
                Some(slo) => Some(*slo),
                None => None,
            };
            let summary = ApiSummary { e2e, processing, unloaded_latency_p99, slo, violations };
            by_api.insert(item.api.clone(), summary);
        }
        proof {
            assert forall|api: Seq<char>| #[trigger] by_api@.dom().contains(api) <==> exists|
                j: int,
            |
                0 <= j < i + 1 && (#[trigger] done@[j]).api@ == api by {
                assert(before.dom().contains(api) <==> exists|j: int|
                    0 <= j < i && (#[trigger] done@[j]).api@ == api);
                if before.dom().contains(api) {
                    let j = choose|j: int| 0 <= j < i && (#[trigger] done@[j]).api@ == api;
                    assert(done@[j].api@ == api);
                }
                if api == item.api@ {
                    assert(done@[i as int].api@ == api);
                }
            }
        }
        i += 1;
    }
    assert(all@ =~= processing_of(done@));
    let total_processing_p99: u64 = percentile_99(&all);
    Some(MsSummary { by_api, total_processing_p99 })
}

/// Every finished request is counted under its own API, once: the requests of all APIs
/// that are not `api` leave its times alone.
pub proof fn law_requests_count_under_their_own_api(
    done: Seq<CompletedRequest>,
    next: CompletedRequest,
    api: Seq<char>,
)
    ensures
        next.api@ != api ==> times_of(done.push(next), api) == times_of(done, api),
        next.api@ == api ==> times_of(done.push(next), api) == (ApiTimes {
            e2e: times_of(done, api).e2e.push((next.finish - next.start) as u64),
            processing: times_of(done, api).processing.push(next.processing_time),
        }),
{
    assert(done.push(next).drop_last() =~= done);
}

/// A request enters at the entry of its API, with a number that no request before it had, its
/// whole time still to come and nothing done for it: it is due `slo` after it started. The
/// first requests are traced, as many as the limit says.
pub proof fn law_request_enters_fresh(
    graph: GraphModel,
    issued: u64,
    limit: u32,
    api: Seq<char>,
    slo: u64,
    now: u64,
)
    requires
        issued < u64::MAX,
        now + slo <= u64::MAX,
    ensures
        ({
            let hop = new_request(graph, issued, Some(limit), api, slo, now);
            &&& hop.request_id == issued + 1
            &&& hop.api == api
            &&& hop.endpoint == graph.entries[api]
            &&& hop.start == now
            &&& hop.deadline - hop.start == slo
            &&& hop.processing_time == 0
            &&& hop.sibling_index == 0
            &&& hop.caller is None
            &&& hop.slot_release is None && hop.outbound_release is None
            &&& hop.trace <==> hop.request_id <= limit
        }),
        !new_request(graph, issued, None, api, slo, now).trace,
{
}

/// The cores of a microservice are spread evenly over its replicas, whole cores only, and a
/// replica has at least one slot.
pub proof fn law_slots_spread_the_cores(spec: MicroserviceSpec)
    requires
        spec.replicas > 0,
    ensures
        spec.cpu >= spec.replicas ==> slots_of(spec) * spec.replicas <= spec.cpu < (slots_of(spec)
            + 1) * spec.replicas,
        spec.cpu < spec.replicas ==> slots_of(spec) == 1,
{
    vstd::arithmetic::div_mod::lemma_fundamental_div_mod(spec.cpu as int, spec.replicas as int);
    vstd::arithmetic::div_mod::lemma_mod_bound(spec.cpu as int, spec.replicas as int);
    let q = spec.cpu as int / spec.replicas as int;
    let r = spec.replicas as int;
    assert(r * q == q * r && (q + 1) * r == q * r + r) by (nonlinear_arith);
    if spec.cpu < spec.replicas {
        vstd::arithmetic::div_mod::lemma_basic_div(spec.cpu as int, spec.replicas as int);
    } else {
        vstd::arithmetic::div_mod::lemma_div_non_zero(spec.cpu as int, spec.replicas as int);
    }
}

/// Only a replica that others call pulls, and only from a central queue: with `centralized` when
/// it is idle, and it starts by asking for as many calls as it has slots; with `jbsq` up to its
/// bound, and it starts by asking for that many. All others ask for nothing.
pub proof fn law_pulls_fill_a_replica_at_the_start(
    kind: LoadBalancePolicyKind,
    n: u32,
    spec: MicroserviceSpec,
    is_called: bool,
)
    ensures
        ({
            let plan = replica_plan(kind, Some(n), spec, is_called);
            &&& plan.max_concurrency == slots_of(spec)
            &&& !is_called ==> plan.central == CentralPull::Off && plan.initial_pulls == 0
            &&& kind != LoadBalancePolicyKind::Centralized && kind != LoadBalancePolicyKind::Jbsq
                ==> plan.central == CentralPull::Off && plan.initial_pulls == 0
            &&& is_called && kind == LoadBalancePolicyKind::Centralized ==> plan.central
                == CentralPull::WhenIdle && plan.initial_pulls == plan.max_concurrency
            &&& is_called && kind == LoadBalancePolicyKind::Jbsq ==> plan.central
                == CentralPull::UpTo(n) && plan.initial_pulls == n
        }),
        is_called ==> replica_plan(LoadBalancePolicyKind::Jbsq, None, spec, is_called)
            == replica_plan(LoadBalancePolicyKind::Jbsq, Some(1), spec, is_called),
{
}

/// An API gets the number of requests that its share says, as long as so many are left, and
/// never more, save for the last one, which gets what is left.
pub proof fn law_split_follows_the_shares(n: u32, shares: Seq<u32>, k: nat)
    requires
        k < shares.len(),
    ensures
        ({
            let all = counts_of(n, shares, shares.len());
            let before = counts_of(n, shares, k);
            let left = n - total_of(before);
            &&& all.len() == shares.len()
            &&& before == all.take(k as int)
            &&& 0 <= left <= n
            &&& k + 1 < shares.len() && shares[k as int] <= left ==> all[k as int]
                == shares[k as int]
            &&& k + 1 < shares.len() && shares[k as int] > left ==> all[k as int] == left
            &&& k + 1 == shares.len() ==> all[k as int] == left
        }),
{
    lemma_counts_bounded(n, shares, k);
    lemma_counts_bounded(n, shares, shares.len());
    lemma_counts_prefix(n, shares, k, shares.len());
    lemma_counts_prefix(n, shares, k + 1, shares.len());
    assert(counts_of(n, shares, k + 1)[k as int] == counts_of(n, shares, shares.len())[k as int]);
}

proof fn lemma_counts_prefix(n: u32, shares: Seq<u32>, k: nat, m: nat)
    requires
        k <= m <= shares.len(),
    ensures
        counts_of(n, shares, k) == counts_of(n, shares, m).take(k as int),
    decreases m,
{
    lemma_counts_bounded(n, shares, m);
    if k < m {
        lemma_counts_prefix(n, shares, k, (m - 1) as nat);
        lemma_counts_bounded(n, shares, (m - 1) as nat);
        assert(counts_of(n, shares, m).take(k as int) =~= counts_of(
            n,
            shares,
            (m - 1) as nat,
        ).take(k as int));
    } else {
        assert(counts_of(n, shares, m).take(k as int) =~= counts_of(n, shares, m));
    }
}

/// What is reported of an API is what its finished requests show: one more request of it adds
/// the time from its start to its finish to its latencies, and the work done for it to its
/// processing times. A request counts as a violation where its latency is above the bound.
pub proof fn law_api_latency_runs_from_start_to_finish(
    done: Seq<CompletedRequest>,
    next: CompletedRequest,
    summary: ApiSummary,
    slo: Option<u64>,
)
    requires
        next.start <= next.finish,
        summary.describes(times_of(done.push(next), next.api@), slo),
    ensures
        ({
            let before = times_of(done, next.api@);
            &&& summary.e2e@.len() == before.e2e.len() + 1
            &&& next.start + summary.e2e@.last() == next.finish
            &&& summary.e2e@.drop_last() == before.e2e
            &&& summary.processing@.len() == before.processing.len() + 1
            &&& summary.processing@.last() == next.processing_time
            &&& summary.processing@.drop_last() == before.processing
            &&& summary.slo == slo
            &&& slo is None ==> summary.violations is None
            &&& slo matches Some(bound) ==> summary.violations is Some && summary.violations->0
                == above(before.e2e, bound) + if next.finish - next.start > bound {
                1int
            } else {
                0
            }
        }),
{
    let before = times_of(done, next.api@);
    law_requests_count_under_their_own_api(done, next, next.api@);
    let latency = (next.finish - next.start) as u64;
    assert(before.e2e.push(latency).drop_last() =~= before.e2e);
    assert(before.processing.push(next.processing_time).drop_last() =~= before.processing);
    if let Some(bound) = slo {
        crate::samples::law_violations_are_above_the_bound(before.e2e, latency, bound);
    }
}

/// Which policies a run takes: all but probing, and shared balancers that push only without
/// subsets.
pub proof fn law_run_takes_what_it_can_simulate(kind: LoadBalancePolicyKind, size: u32)
    ensures
        kind == LoadBalancePolicyKind::Prequal ==> run_fault(kind, size) is Some,
        kind != LoadBalancePolicyKind::Prequal && size == 0 ==> run_fault(kind, size) is None,
        size > 0 ==> (run_fault(kind, size) is Some <==> kind == LoadBalancePolicyKind::Prequal
            || kind == LoadBalancePolicyKind::Cl || kind == LoadBalancePolicyKind::ClLr || kind
            == LoadBalancePolicyKind::ClR || kind == LoadBalancePolicyKind::ClRr || kind
            == LoadBalancePolicyKind::Corr),
{
}

/// A microservice calls another exactly where an endpoint of the one has an edge to an endpoint
/// of the other.
pub proof fn law_callers_have_edges(
    graph: GraphModel,
    microservice: Seq<char>,
    target: Seq<char>,
    endpoint: Seq<char>,
    i: int,
)
    ensures
        graph.owners.dom().contains(endpoint) && graph.owners[endpoint] == microservice
            && graph.children.dom().contains(endpoint) && 0 <= i < graph.children[endpoint].len()
            && graph.owners.dom().contains(graph.children[endpoint][i].target)
            && graph.owners[graph.children[endpoint][i].target] == target ==> graph.reaches(
            microservice,
            target,
        ),
        graph.reaches(microservice, target) ==> exists|from: Seq<char>, to: Seq<char>|
            {
                &&& #[trigger] graph.owners.dom().contains(from)
                &&& #[trigger] graph.owners.dom().contains(to)
                &&& graph.owners[from] == microservice
                &&& graph.owners[to] == target
                &&& graph.children.dom().contains(from)
                &&& exists|k: int|
                    0 <= k < graph.children[from].len() && (
                    #[trigger] graph.children[from][k]).target == to
            },
{
    if graph.owners.dom().contains(endpoint) && graph.owners[endpoint] == microservice
        && graph.children.dom().contains(endpoint) && 0 <= i < graph.children[endpoint].len()
        && graph.owners.dom().contains(graph.children[endpoint][i].target)
        && graph.owners[graph.children[endpoint][i].target] == target {
        assert(graph.call_at(microservice, target, endpoint, i));
    }
    if graph.reaches(microservice, target) {
        let (from, k) = choose|from: Seq<char>, k: int| #[trigger]
            graph.call_at(microservice, target, from, k);
        let to = graph.calls(from)[k].target;
        assert(graph.owners.dom().contains(from));
        assert(graph.owners.dom().contains(to));
        assert(graph.children[from][k].target == to);
    }
}

/// The work that the percentile over all APIs is taken of is the work on each finished request.
pub proof fn law_total_work_counts_every_request(done: Seq<CompletedRequest>, i: int)
    ensures
        processing_of(done).len() == done.len(),
        0 <= i < done.len() ==> processing_of(done)[i] == done[i].processing_time,
{
}

} // verus!
