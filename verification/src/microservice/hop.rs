//! What travels between the parts of the microservice simulator.
//!
//! A hop is one request on its way through the call graph. Points in time and durations
//! are nanoseconds.

use super::callgraph::{edges_of, names_of, CallGraph, EdgeModel, GraphModel};
use crate::text::Text;
use vstd::prelude::*;

verus! {

/// The two modes of a bimodal service time, in tenths of the mean of the endpoint.
pub const BIMODAL_MODES_TENTHS: [u32; 2] = [5, 55];

/// How often each mode is taken, in tenths.
pub const BIMODAL_PROBS_TENTHS: [u32; 2] = [9, 1];

/// Where a call returns to, and where the request goes on from there.
#[derive(Debug)]
pub struct CallerRef {
    pub microservice: String,
    pub server: usize,
    pub resume_endpoint: String,
    pub resume_sibling_index: usize,
    pub resume_caller: Option<Box<CallerRef>>,
    pub outbound_target_microservice: String,
    pub outbound_target_server: usize,
}

/// A caller as a mathematical value.
#[verifier::ext_equal]
pub struct CallerModel {
    pub microservice: Seq<char>,
    pub server: usize,
    pub resume_endpoint: Seq<char>,
    pub resume_sibling_index: usize,
    pub resume_caller: Option<Box<CallerModel>>,
    pub outbound_target_microservice: Seq<char>,
    pub outbound_target_server: usize,
}

impl CallerRef {
    pub open spec fn model(self) -> CallerModel
        decreases self,
    {
        CallerModel {
            microservice: self.microservice@,
            server: self.server,
            resume_endpoint: self.resume_endpoint@,
            resume_sibling_index: self.resume_sibling_index,
            resume_caller: match self.resume_caller {
                Some(caller) => Some(Box::new((*caller).model())),
                None => None,
            },
            outbound_target_microservice: self.outbound_target_microservice@,
            outbound_target_server: self.outbound_target_server,
        }
    }
}

impl Clone for CallerRef {
    fn clone(&self) -> (r: CallerRef)
        ensures
            r.model() == self.model(),
        decreases self,
    {
        let resume_caller = match &self.resume_caller {
            Some(caller) => Some(Box::new((**caller).clone())),
            None => None,
        };
        CallerRef {
            microservice: self.microservice.clone(),
            server: self.server,
            resume_endpoint: self.resume_endpoint.clone(),
            resume_sibling_index: self.resume_sibling_index,
            resume_caller,
            outbound_target_microservice: self.outbound_target_microservice.clone(),
            outbound_target_server: self.outbound_target_server,
        }
    }
}

/// A slot at a server that is free again.
#[derive(Clone, Debug)]
pub struct OutboundRelease {
    pub target_microservice: String,
    pub target_server: usize,
    pub response_time_ms: u64,
}

/// A release as a mathematical value.
#[verifier::ext_equal]
pub struct ReleaseModel {
    pub target_microservice: Seq<char>,
    pub target_server: usize,
    pub response_time_ms: u64,
}

impl OutboundRelease {
    pub open spec fn model(self) -> ReleaseModel {
        ReleaseModel {
            target_microservice: self.target_microservice@,
            target_server: self.target_server,
            response_time_ms: self.response_time_ms,
        }
    }
}

/// A request on its way.
#[derive(Clone, Debug)]
pub struct Hop {
    pub request_id: u64,
    pub trace: bool,
    pub api: String,
    pub endpoint: String,
    /// The next call to make at `endpoint`.
    pub sibling_index: usize,
    pub start: u64,
    pub deadline: u64,
    pub duration: u64,
    pub processing_time: u64,
    pub caller: Option<CallerRef>,
    pub outbound_release: Option<OutboundRelease>,
    pub slot_release: Option<OutboundRelease>,
}

/// A hop as a mathematical value.
#[verifier::ext_equal]
pub struct HopModel {
    pub request_id: u64,
    pub trace: bool,
    pub api: Seq<char>,
    pub endpoint: Seq<char>,
    pub sibling_index: usize,
    pub start: u64,
    pub deadline: u64,
    pub duration: u64,
    pub processing_time: u64,
    pub caller: Option<CallerModel>,
    pub outbound_release: Option<ReleaseModel>,
    pub slot_release: Option<ReleaseModel>,
}

/// An optional caller as a mathematical value.
pub open spec fn opt_caller(caller: Option<CallerRef>) -> Option<CallerModel> {
    match caller {
        Some(c) => Some(c.model()),
        None => None,
    }
}

/// An optional release as a mathematical value.
pub open spec fn opt_release(release: Option<OutboundRelease>) -> Option<ReleaseModel> {
    match release {
        Some(r) => Some(r.model()),
        None => None,
    }
}

impl Hop {
    pub open spec fn model(self) -> HopModel {
        HopModel {
            request_id: self.request_id,
            trace: self.trace,
            api: self.api@,
            endpoint: self.endpoint@,
            sibling_index: self.sibling_index,
            start: self.start,
            deadline: self.deadline,
            duration: self.duration,
            processing_time: self.processing_time,
            caller: opt_caller(self.caller),
            outbound_release: opt_release(self.outbound_release),
            slot_release: opt_release(self.slot_release),
        }
    }
}

/// A request that is done.
#[derive(Clone, Debug)]
pub struct CompletedRequest {
    pub request_id: u64,
    pub trace: bool,
    pub api: String,
    pub start: u64,
    pub finish: u64,
    pub processing_time: u64,
}

/// A finished request as a mathematical value.
#[verifier::ext_equal]
pub struct CompletedModel {
    pub request_id: u64,
    pub trace: bool,
    pub api: Seq<char>,
    pub start: u64,
    pub finish: u64,
    pub processing_time: u64,
}

impl CompletedRequest {
    pub open spec fn model(self) -> CompletedModel {
        CompletedModel {
            request_id: self.request_id,
            trace: self.trace,
            api: self.api@,
            start: self.start,
            finish: self.finish,
            processing_time: self.processing_time,
        }
    }
}

/// A slot at the entry of an API that is free again: that of `server`.
#[derive(Clone, Debug)]
pub struct EdgeRelease {
    pub api: String,
    pub server: usize,
}

/// A release at the entry of an API as a mathematical value.
#[verifier::ext_equal]
pub struct EdgeReleaseModel {
    pub api: Seq<char>,
    pub server: usize,
}

impl EdgeRelease {
    pub open spec fn model(self) -> EdgeReleaseModel {
        EdgeReleaseModel { api: self.api@, server: self.server }
    }
}

/// A call to another microservice.
#[derive(Clone, Debug)]
pub struct OutboundCall {
    pub target_microservice: String,
    pub hop: Hop,
}

/// A call as a mathematical value.
#[verifier::ext_equal]
pub struct CallModel {
    pub target_microservice: Seq<char>,
    pub hop: HopModel,
}

impl OutboundCall {
    pub open spec fn model(self) -> CallModel {
        CallModel { target_microservice: self.target_microservice@, hop: self.hop.model() }
    }
}

/// What a replica receives.
#[derive(Clone, Debug)]
pub enum ReplicaInput {
    Upstream(Hop),
    DownstreamReturn(Hop),
}

/// What a replica receives, as a mathematical value.
#[verifier::ext_equal]
pub enum WorkModel {
    Upstream(HopModel),
    DownstreamReturn(HopModel),
}

impl ReplicaInput {
    pub open spec fn model(self) -> WorkModel {
        match self {
            ReplicaInput::Upstream(hop) => WorkModel::Upstream(hop.model()),
            ReplicaInput::DownstreamReturn(hop) => WorkModel::DownstreamReturn(hop.model()),
        }
    }
}

impl WorkModel {
    pub open spec fn hop(self) -> HopModel {
        match self {
            WorkModel::Upstream(hop) => hop,
            WorkModel::DownstreamReturn(hop) => hop,
        }
    }
}

/// Pull intent sent from a replica's balancer to a downstream replica or its sidecar.
#[derive(Clone, Copy, Debug, PartialEq, Eq, Structural)]
pub struct MsPullIntent {
    /// The balancer that holds the announced call.
    pub sender_id: usize,
    pub request_id: u64,
    pub deadline: u64,
}

/// The deadlines of `intents`, in order.
pub open spec fn intent_deadlines(intents: Seq<MsPullIntent>) -> Seq<u64> {
    intents.map_values(|intent: MsPullIntent| intent.deadline)
}

/// A pull sent to the balancer that announced a call.
#[derive(Clone, Debug)]
pub struct ReplicaPull {
    pub target_microservice: String,
    /// The replica that takes the call.
    pub server_idx: usize,
    /// Where the intent was sent to: the replica itself, or its sidecar.
    pub intent_target_idx: usize,
    pub request_id: u64,
}

/// A pull as a mathematical value.
#[verifier::ext_equal]
pub struct PullModel {
    pub target_microservice: Seq<char>,
    pub server_idx: usize,
    pub intent_target_idx: usize,
    pub request_id: u64,
}

impl ReplicaPull {
    pub open spec fn model(self) -> PullModel {
        PullModel {
            target_microservice: self.target_microservice@,
            server_idx: self.server_idx,
            intent_target_idx: self.intent_target_idx,
            request_id: self.request_id,
        }
    }
}

/// The targets of those of the first `k` calls that are made on behalf of `api`.
pub open spec fn targets_for(calls: Seq<EdgeModel>, api: Seq<char>, k: nat) -> Seq<Seq<char>>
    decreases k,
{
    if k == 0 {
        Seq::empty()
    } else {
        let before = targets_for(calls, api, (k - 1) as nat);
        if calls[k - 1].api == Some(api) {
            before.push(calls[k - 1].target)
        } else {
            before
        }
    }
}

impl GraphModel {
    /// The endpoints that `endpoint` calls on behalf of `api`, in order.
    pub open spec fn children_for(self, endpoint: Seq<char>, api: Seq<char>) -> Seq<Seq<char>> {
        targets_for(self.calls(endpoint), api, self.calls(endpoint).len())
    }
}

/// Lists the endpoints that `endpoint` calls on behalf of `api`, in order.
pub fn filtered_children(graph: &CallGraph, endpoint: &String, api: &String) -> (r: Vec<String>)
    requires
        graph.wf(),
    ensures
        names_of(r@) == graph@.children_for(endpoint@, api@),
{
    let mut out: Vec<String> = Vec::new();
    assert(names_of(out@) =~= Seq::<Seq<char>>::empty());
    match graph.children.get(endpoint) {
        None => out,
        Some(edges) => {
            let ghost calls = graph@.calls(endpoint@);
            assert(calls == edges_of(edges@));
            let mut k: usize = 0;
            while k < edges.len()
                invariant
                    k <= edges@.len(),
                    calls == edges_of(edges@),
                    names_of(out@) == targets_for(calls, api@, k as nat),
                decreases edges@.len() - k,
            {
                let edge = &edges[k];
                assert(calls[k as int] == edge.model());
                let follows = match &edge.api {
                    Some(name) => *name == *api,
                    None => false,
                };
                if follows {
                    let ghost before = out@;
                    out.push(edge.target.clone());
                    assert(names_of(out@) =~= names_of(before).push(edge.target@));
                }
                k += 1;
            }
            out
        },
    }
}

/// The microservice that `endpoint` belongs to.
pub fn microservice_for_endpoint(graph: &CallGraph, endpoint: &String) -> (r: Result<
    String,
    String,
>)
    requires
        graph.wf(),
    ensures
        match r {
            Ok(id) => graph@.owners.dom().contains(endpoint@) && id@ == graph@.owners[endpoint@],
            Err(text) => !graph@.owners.dom().contains(endpoint@) && text@ == "unknown endpoint "@
                + endpoint@,
        },
{
    match graph.endpoint_microservice.get(endpoint) {
        Some(id) => Ok(id.clone()),
        None => Err(Text::of("unknown endpoint ").lit(endpoint).done()),
    }
}

/// A replica lists exactly the calls that are made on behalf of the API, each in its
/// place: what it calls is linked in the graph, and whatever is linked is called.
pub proof fn law_children_are_the_linked_endpoints(
    graph: GraphModel,
    endpoint: Seq<char>,
    api: Seq<char>,
    child: Seq<char>,
)
    ensures
        graph.children_for(endpoint, api).contains(child) <==> graph.linked(api, endpoint, child),
{
    let calls = graph.calls(endpoint);
    lemma_targets(calls, api, calls.len(), child);
    let call = EdgeModel { target: child, api: Some(api) };
    if graph.linked(api, endpoint, child) {
        let i = choose|i: int| 0 <= i < calls.len() && calls[i] == call;
        assert(calls[i] == call);
    }
    if graph.children_for(endpoint, api).contains(child) {
        let i = choose|i: int|
            0 <= i < calls.len() && #[trigger] calls[i] == (EdgeModel {
                target: child,
                api: Some(api),
            });
        assert(calls[i] == call);
    }
}

proof fn lemma_targets(calls: Seq<EdgeModel>, api: Seq<char>, k: nat, child: Seq<char>)
    requires
        k <= calls.len(),
    ensures
        targets_for(calls, api, k).contains(child) <==> exists|i: int|
            0 <= i < k && #[trigger] calls[i] == (EdgeModel { target: child, api: Some(api) }),
    decreases k,
{
    if k > 0 {
        lemma_targets(calls, api, (k - 1) as nat, child);
        let before = targets_for(calls, api, (k - 1) as nat);
        let now = targets_for(calls, api, k);
        let last = calls[k - 1];
        if last.api == Some(api) {
            assert(now == before.push(last.target));
            if last.target == child {
                assert(now[before.len() as int] == child);
                assert(calls[k - 1] == (EdgeModel { target: child, api: Some(api) }));
            }
            if before.contains(child) {
                let j = choose|j: int| 0 <= j < before.len() && before[j] == child;
                assert(now[j] == child);
            }
            if now.contains(child) {
                let j = choose|j: int| 0 <= j < now.len() && now[j] == child;
                if j < before.len() {
                    assert(before[j] == child);
                }
            }
        }
    }
}

/// The calls of an endpoint are made in the order of the graph file: one more edge adds its
/// target behind the calls that its source makes on behalf of the API of the edge, and changes
/// the calls of no other API and no other endpoint.
pub proof fn law_calls_follow_the_file(
    graph: GraphModel,
    edge: super::callgraph::Edge,
    api: Seq<char>,
    other: Seq<char>,
)
    ensures
        (edge.api matches Some(named) && named@ == api) ==> graph.with_edge(edge).children_for(
            edge.source@,
            api,
        ) == graph.children_for(edge.source@, api).push(edge.target@),
        !(edge.api matches Some(named) && named@ == api) ==> graph.with_edge(edge).children_for(
            edge.source@,
            api,
        ) == graph.children_for(edge.source@, api),
        other != edge.source@ ==> graph.with_edge(edge).children_for(other, api)
            == graph.children_for(other, api),
        !graph.children.dom().contains(other) ==> graph.children_for(other, api).len() == 0,
{
    let before = graph.calls(edge.source@);
    let after = graph.with_edge(edge).calls(edge.source@);
    lemma_targets_alike(before, after, api, before.len());
    assert(graph.with_edge(edge).calls(other) == graph.calls(other) || other == edge.source@);
}

proof fn lemma_targets_alike(a: Seq<EdgeModel>, b: Seq<EdgeModel>, api: Seq<char>, k: nat)
    requires
        k <= a.len(),
        k <= b.len(),
        forall|i: int| 0 <= i < k ==> a[i] == b[i],
    ensures
        targets_for(a, api, k) == targets_for(b, api, k),
    decreases k,
{
    if k > 0 {
        lemma_targets_alike(a, b, api, (k - 1) as nat);
    }
}

} // verus!
