//! The call graph of an application: its microservices, their endpoints, and which
//! endpoint calls which.
//!
//! The mean service time of an endpoint is not kept here; the graph only knows which
//! endpoints have one.

use crate::key_map::NameMap;
use crate::text::Text;
use vstd::prelude::*;

verus! {

#[derive(Clone, Copy, Debug, PartialEq, Eq, Structural)]
pub enum MsServiceDistribution {
    Exp,
    Fixed,
    Bimodal,
}

impl Default for MsServiceDistribution {
    fn default() -> (r: MsServiceDistribution)
        ensures
            r == MsServiceDistribution::Exp,
    {
        MsServiceDistribution::Exp
    }
}

#[derive(Clone, Copy, Debug, PartialEq, Eq, Structural)]
pub struct MicroserviceSpec {
    pub cpu: u32,
    pub replicas: u32,
}

/// A call from one endpoint to another, made on behalf of `api`.
#[derive(Clone, Debug)]
pub struct ChildEdge {
    pub target: String,
    pub api: Option<String>,
}

/// A graph file as it was read.
#[derive(Clone, Debug)]
pub struct CallGraphFile {
    pub nodes: Vec<Node>,
    pub edges: Vec<Edge>,
}

#[derive(Clone, Debug)]
pub struct Node {
    pub id: String,
    pub interfaces: Vec<Interface>,
    pub cpu: Option<u32>,
    pub replicas: Option<u32>,
}

/// An interface of a microservice, with the forms in which its mean is given.
#[derive(Clone, Debug)]
pub struct Interface {
    pub name: String,
    pub has_avg_rt: bool,
    pub has_exponential: bool,
}

#[derive(Clone, Debug)]
pub struct Edge {
    pub source: String,
    pub target: String,
    pub api: Option<String>,
}

/// Where the mean service time of an interface is read from.
#[derive(Clone, Copy, Debug, PartialEq, Eq, Structural)]
pub enum MeanSource {
    AvgRt,
    Exponential,
}

/// A call edge as a mathematical value.
#[verifier::ext_equal]
pub struct EdgeModel {
    pub target: Seq<char>,
    pub api: Option<Seq<char>>,
}

/// An optional name as a mathematical value.
pub open spec fn opt_name(name: Option<String>) -> Option<Seq<char>> {
    match name {
        Some(s) => Some(s@),
        None => None,
    }
}

/// The names of `list`.
pub open spec fn names_of(list: Seq<String>) -> Seq<Seq<char>> {
    list.map_values(|s: String| s@)
}

impl ChildEdge {
    pub open spec fn model(self) -> EdgeModel {
        EdgeModel { target: self.target@, api: opt_name(self.api) }
    }
}

/// The edges of `list`.
pub open spec fn edges_of(list: Seq<ChildEdge>) -> Seq<EdgeModel> {
    list.map_values(|e: ChildEdge| e.model())
}

/// A call graph as a mathematical value.
#[verifier::ext_equal]
pub struct GraphModel {
    pub specs: Map<Seq<char>, MicroserviceSpec>,
    /// The microservices in the order of the file.
    pub order: Seq<Seq<char>>,
    /// The microservice that an endpoint belongs to.
    pub owners: Map<Seq<char>, Seq<char>>,
    /// The calls that an endpoint makes, in the order of the file.
    pub children: Map<Seq<char>, Seq<EdgeModel>>,
    /// The endpoint that requests of an API enter at.
    pub entries: Map<Seq<char>, Seq<char>>,
}

impl GraphModel {
    /// A graph without microservices.
    pub open spec fn empty() -> GraphModel {
        GraphModel {
            specs: Map::empty(),
            order: Seq::empty(),
            owners: Map::empty(),
            children: Map::empty(),
            entries: Map::empty(),
        }
    }

    /// The graph with microservice `node`, its interfaces left out.
    pub open spec fn with_microservice(self, node: Node) -> GraphModel {
        GraphModel {
            specs: self.specs.insert(
                node.id@,
                MicroserviceSpec { cpu: node.cpu->0, replicas: node.replicas->0 },
            ),
            order: self.order.push(node.id@),
            ..self
        }
    }

    /// The graph with the first `k` interfaces of `node`.
    pub open spec fn with_interfaces(self, node: Node, k: nat) -> GraphModel
        decreases k,
    {
        if k == 0 {
            self
        } else {
            let before = self.with_interfaces(node, (k - 1) as nat);
            GraphModel {
                owners: before.owners.insert(
                    endpoint_name(node.id@, node.interfaces@[k - 1].name@),
                    node.id@,
                ),
                ..before
            }
        }
    }

    /// The graph with `node`. The users' own node adds nothing.
    pub open spec fn with_node(self, node: Node) -> GraphModel {
        if node.id@ == "USER"@ {
            self
        } else {
            self.with_microservice(node).with_interfaces(node, node.interfaces@.len())
        }
    }

    /// The graph with the first `k` of `nodes`.
    pub open spec fn with_nodes(self, nodes: Seq<Node>, k: nat) -> GraphModel
        decreases k,
    {
        if k == 0 {
            self
        } else {
            self.with_nodes(nodes, (k - 1) as nat).with_node(nodes[k - 1])
        }
    }

    /// The calls of `endpoint`; none where it calls nothing.
    pub open spec fn calls(self, endpoint: Seq<char>) -> Seq<EdgeModel> {
        if self.children.dom().contains(endpoint) {
            self.children[endpoint]
        } else {
            Seq::empty()
        }
    }

    /// The graph with `edge`. An edge from the users makes its target the entry of an API.
    pub open spec fn with_edge(self, edge: Edge) -> GraphModel {
        let called = EdgeModel { target: edge.target@, api: opt_name(edge.api) };
        GraphModel {
            children: self.children.insert(
                edge.source@,
                self.calls(edge.source@).push(called),
            ),
            entries: if edge.source@ == "USER"@ {
                self.entries.insert(after_last_colon(edge.target@), edge.target@)
            } else {
                self.entries
            },
            ..self
        }
    }

    /// The graph with the first `k` of `edges`.
    pub open spec fn with_edges(self, edges: Seq<Edge>, k: nat) -> GraphModel
        decreases k,
    {
        if k == 0 {
            self
        } else {
            self.with_edges(edges, (k - 1) as nat).with_edge(edges[k - 1])
        }
    }

    /// Why `edge` cannot be added.
    pub open spec fn edge_fault(self, edge: Edge) -> Option<Seq<char>> {
        if !self.owners.dom().contains(edge.target@) && edge.target@ != "USER"@ {
            Some("unknown edge target "@ + edge.target@)
        } else if edge.source@ != "USER"@ && !self.owners.dom().contains(edge.source@) {
            Some("unknown edge source "@ + edge.source@)
        } else if edge.source@ == "USER"@ && self.entries.dom().contains(
            after_last_colon(edge.target@),
        ) {
            Some("duplicate entry API "@ + after_last_colon(edge.target@))
        } else {
            None
        }
    }

    /// The first of `edges` that cannot be added says why.
    pub open spec fn edges_fault(self, edges: Seq<Edge>, k: nat) -> Option<Seq<char>>
        decreases k,
    {
        if k == 0 {
            None
        } else {
            match self.edges_fault(edges, (k - 1) as nat) {
                Some(text) => Some(text),
                None => self.with_edges(edges, (k - 1) as nat).edge_fault(edges[k - 1]),
            }
        }
    }

    /// Endpoint `from` calls `to` on behalf of `api`.
    pub open spec fn linked(self, api: Seq<char>, from: Seq<char>, to: Seq<char>) -> bool {
        self.calls(from).contains(EdgeModel { target: to, api: Some(api) })
    }

    /// Each endpoint of `walk` calls the next one on behalf of `api`.
    pub open spec fn is_walk(self, api: Seq<char>, walk: Seq<Seq<char>>) -> bool {
        forall|i: int|
            0 <= i < walk.len() - 1 ==> self.linked(api, #[trigger] walk[i], walk[i + 1])
    }

    /// No chain of calls on behalf of `api` that starts at `endpoint` comes back to an
    /// endpoint that it went through.
    pub open spec fn is_acyclic(self, api: Seq<char>, endpoint: Seq<char>) -> bool {
        forall|walk: Seq<Seq<char>>|
            walk.len() > 0 && walk[0] == endpoint && #[trigger] self.is_walk(api, walk)
                ==> walk.no_duplicates()
    }

    /// Following the calls on behalf of `api` from `endpoint` leads back to `again`.
    pub open spec fn comes_back_to(
        self,
        api: Seq<char>,
        endpoint: Seq<char>,
        again: Seq<char>,
    ) -> bool {
        exists|walk: Seq<Seq<char>>|
            #![trigger self.is_walk(api, walk)]
            {
                &&& walk.len() > 1
                &&& walk[0] == endpoint
                &&& walk.last() == again
                &&& self.is_walk(api, walk)
                &&& walk.drop_last().no_duplicates()
                &&& walk.drop_last().contains(again)
            }
    }
}

impl GraphModel {
    /// No chain of calls from `endpoint`, which `above` led to, comes back to an endpoint.
    pub open spec fn stays_clear(
        self,
        api: Seq<char>,
        above: Seq<Seq<char>>,
        endpoint: Seq<char>,
    ) -> bool {
        forall|walk: Seq<Seq<char>>|
            walk.len() > 0 && walk[0] == endpoint && #[trigger] self.is_walk(api, walk) ==> (above
                + walk).no_duplicates()
    }

    proof fn lemma_leaf_clear(self, api: Seq<char>, above: Seq<Seq<char>>, endpoint: Seq<char>)
        requires
            self.calls(endpoint).len() == 0,
            above.push(endpoint).no_duplicates(),
        ensures
            self.stays_clear(api, above, endpoint),
    {
        assert forall|walk: Seq<Seq<char>>|
            walk.len() > 0 && walk[0] == endpoint && #[trigger] self.is_walk(api, walk) implies (
        above + walk).no_duplicates() by {
            if walk.len() > 1 {
                assert(self.linked(api, walk[0], walk[1]));
            }
            assert(above + walk =~= above.push(endpoint));
        }
    }

    proof fn lemma_branch_clear(self, api: Seq<char>, above: Seq<Seq<char>>, endpoint: Seq<char>)
        requires
            above.push(endpoint).no_duplicates(),
            forall|j: int|
                0 <= j < self.calls(endpoint).len() && (#[trigger] self.calls(endpoint)[j]).api
                    == Some(api) ==> self.stays_clear(
                    api,
                    above.push(endpoint),
                    self.calls(endpoint)[j].target,
                ),
        ensures
            self.stays_clear(api, above, endpoint),
    {
        let here = above.push(endpoint);
        let calls = self.calls(endpoint);
        assert forall|walk: Seq<Seq<char>>|
            walk.len() > 0 && walk[0] == endpoint && #[trigger] self.is_walk(api, walk) implies (
        above + walk).no_duplicates() by {
            if walk.len() == 1 {
                assert(above + walk =~= here);
            } else {
                let rest = walk.skip(1);
                assert(self.linked(api, walk[0], walk[1]));
                let call = EdgeModel { target: walk[1], api: Some(api) };
                let j = choose|j: int| 0 <= j < calls.len() && calls[j] == call;
                assert forall|m: int| 0 <= m < rest.len() - 1 implies self.linked(
                    api,
                    #[trigger] rest[m],
                    rest[m + 1],
                ) by {
                    assert(self.linked(api, walk[m + 1], walk[m + 2]));
                }
                assert(self.is_walk(api, rest));
                assert(self.stays_clear(api, here, calls[j].target));
                assert(here + rest =~= above + walk);
            }
        }
    }

    proof fn lemma_longer_walk(self, api: Seq<char>, walk: Seq<Seq<char>>, next: Seq<char>)
        requires
            walk.len() > 0,
            self.is_walk(api, walk),
            self.linked(api, walk.last(), next),
        ensures
            self.is_walk(api, walk.push(next)),
    {
        let longer = walk.push(next);
        assert forall|j: int| 0 <= j < longer.len() - 1 implies self.linked(
            api,
            #[trigger] longer[j],
            longer[j + 1],
        ) by {
            if j < walk.len() - 1 {
                assert(self.linked(api, walk[j], walk[j + 1]));
            }
        }
    }

    proof fn lemma_closes_shorter(
        self,
        api: Seq<char>,
        prefix: Seq<Seq<char>>,
        next: Seq<char>,
        walk: Seq<Seq<char>>,
    )
        requires
            self.closes(api, prefix.push(next), walk),
        ensures
            self.closes(api, prefix, walk),
    {
        let longer = prefix.push(next);
        assert(walk.take(prefix.len() as int) =~= walk.take(longer.len() as int).take(
            prefix.len() as int,
        ));
        assert(longer.take(prefix.len() as int) =~= prefix);
    }

    /// Every microservice has cores and replicas, every endpoint belongs to a microservice
    /// that is described, and the order names every microservice that is described and no
    /// other.
    pub open spec fn is_complete(self) -> bool {
        &&& forall|id: Seq<char>| #[trigger]
            self.specs.dom().contains(id) ==> self.specs[id].cpu > 0 && self.specs[id].replicas > 0
        &&& forall|endpoint: Seq<char>| #[trigger]
            self.owners.dom().contains(endpoint) ==> self.specs.dom().contains(
                self.owners[endpoint],
            )
        &&& forall|i: int|
            0 <= i < self.order.len() ==> self.specs.dom().contains(#[trigger] self.order[i])
        &&& forall|id: Seq<char>| #[trigger]
            self.specs.dom().contains(id) ==> self.order.contains(id)
    }

    /// `walk` starts with `prefix`, and its last endpoint is the first to come up twice.
    pub open spec fn closes(
        self,
        api: Seq<char>,
        prefix: Seq<Seq<char>>,
        walk: Seq<Seq<char>>,
    ) -> bool {
        &&& prefix.len() <= walk.len()
        &&& walk.len() > 1
        &&& walk.take(prefix.len() as int) == prefix
        &&& self.is_walk(api, walk)
        &&& walk.drop_last().no_duplicates()
        &&& walk.drop_last().contains(walk.last())
    }
}

/// The name of interface `name` of microservice `id`.
pub open spec fn endpoint_name(id: Seq<char>, name: Seq<char>) -> Seq<char> {
    id + ":"@ + name
}

/// What follows the last colon; all of `s` where there is none.
pub open spec fn after_last_colon(s: Seq<char>) -> Seq<char>
    decreases s.len(),
{
    if s.len() == 0 || s.last() == ':' {
        Seq::empty()
    } else {
        after_last_colon(s.drop_last()).push(s.last())
    }
}

/// Why an interface cannot be used.
pub open spec fn interface_fault(interface: Interface) -> Option<Seq<char>> {
    if interface.has_avg_rt || interface.has_exponential {
        None
    } else {
        Some("interface "@ + interface.name@ + " missing avg_rt or exponential"@)
    }
}

/// The first of the first `k` interfaces that cannot be used says why.
pub open spec fn interfaces_fault(interfaces: Seq<Interface>, k: nat) -> Option<Seq<char>>
    decreases k,
{
    if k == 0 {
        None
    } else {
        match interfaces_fault(interfaces, (k - 1) as nat) {
            Some(text) => Some(text),
            None => interface_fault(interfaces[k - 1]),
        }
    }
}

/// Why a node cannot be used.
pub open spec fn node_fault(node: Node) -> Option<Seq<char>> {
    if node.id@ == "USER"@ {
        None
    } else if node.cpu is None {
        Some("node "@ + node.id@ + " missing cpu"@)
    } else if node.replicas is None {
        Some("node "@ + node.id@ + " missing replicas"@)
    } else if node.cpu->0 == 0 || node.replicas->0 == 0 {
        Some("node "@ + node.id@ + " must have cpu > 0 and replicas > 0"@)
    } else {
        interfaces_fault(node.interfaces@, node.interfaces@.len())
    }
}

/// The first of the first `k` nodes that cannot be used says why.
pub open spec fn nodes_fault(nodes: Seq<Node>, k: nat) -> Option<Seq<char>>
    decreases k,
{
    if k == 0 {
        None
    } else {
        match nodes_fault(nodes, (k - 1) as nat) {
            Some(text) => Some(text),
            None => node_fault(nodes[k - 1]),
        }
    }
}

/// The microservices and endpoints that a file names.
pub open spec fn nodes_graph(file: CallGraphFile) -> GraphModel {
    GraphModel::empty().with_nodes(file.nodes@, file.nodes@.len())
}

/// The graph that a file describes.
pub open spec fn file_graph(file: CallGraphFile) -> GraphModel {
    nodes_graph(file).with_edges(file.edges@, file.edges@.len())
}

/// What is wrong with the nodes or edges of a file, the nodes first.
pub open spec fn file_fault(file: CallGraphFile) -> Option<Seq<char>> {
    match nodes_fault(file.nodes@, file.nodes@.len()) {
        Some(text) => Some(text),
        None => nodes_graph(file).edges_fault(file.edges@, file.edges@.len()),
    }
}

/// The message about a cycle.
pub open spec fn cycle_text(again: Seq<char>, api: Seq<char>) -> Seq<char> {
    "cycle detected at "@ + again + " for API "@ + api
}

/// A call graph.
#[derive(Clone, Debug)]
pub struct CallGraph {
    pub microservices: NameMap<MicroserviceSpec>,
    pub children: NameMap<Vec<ChildEdge>>,
    pub entrypoints: NameMap<String>,
    pub endpoint_microservice: NameMap<String>,
    pub microservice_order: Vec<String>,
    pub service_dist: MsServiceDistribution,
}

impl View for CallGraph {
    type V = GraphModel;

    open spec fn view(&self) -> GraphModel {
        GraphModel {
            specs: self.microservices@,
            order: names_of(self.microservice_order@),
            owners: self.endpoint_microservice@.map_values(|s: String| s@),
            children: self.children@.map_values(|v: Vec<ChildEdge>| edges_of(v@)),
            entries: self.entrypoints@.map_values(|s: String| s@),
        }
    }
}

impl CallGraph {
    /// Each name stands once in each table.
    pub open spec fn wf(&self) -> bool {
        &&& self.microservices.wf()
        &&& self.children.wf()
        &&& self.entrypoints.wf()
        &&& self.endpoint_microservice.wf()
    }

    fn empty() -> (r: CallGraph)
        ensures
            r.wf(),
            r@ == GraphModel::empty(),
            r.service_dist == MsServiceDistribution::Exp,
    {
        let r = CallGraph {
            microservices: NameMap::new(),
            children: NameMap::new(),
            entrypoints: NameMap::new(),
            endpoint_microservice: NameMap::new(),
            microservice_order: Vec::new(),
            service_dist: MsServiceDistribution::Exp,
        };
        assert(r@ =~= GraphModel::empty());
        r
    }

    /// Adds a node, unless something is missing in it.
    fn add_node(&mut self, node: &Node) -> (r: Result<(), String>)
        requires
            old(self).wf(),
        ensures
            final(self).wf(),
            final(self).service_dist == old(self).service_dist,
            match r {
                Ok(_) => node_fault(*node) is None && final(self)@ == old(self)@.with_node(*node),
                Err(text) => node_fault(*node) == Some(text@),
            },
    {
        if node.id == "USER".to_owned() {
            return Ok(());
        }
        let cpu: u32 = match node.cpu {
            Some(cpu) => cpu,
            None => {
                return Err(Text::of("node ").lit(&node.id).lit(" missing cpu").done());
            },
        };
        let replicas: u32 = match node.replicas {
            Some(replicas) => replicas,
            None => {
                return Err(Text::of("node ").lit(&node.id).lit(" missing replicas").done());
            },
        };
        if cpu == 0 || replicas == 0 {
            return Err(
                Text::of("node ").lit(&node.id).lit(" must have cpu > 0 and replicas > 0").done(),
            );
        }
        let ghost start = self@;
        self.microservices.insert(node.id.clone(), MicroserviceSpec { cpu, replicas });
        self.microservice_order.push(node.id.clone());
        let ghost begun = start.with_microservice(*node);
        assert(self@ =~= begun);
        let mut i: usize = 0;
        while i < node.interfaces.len()
            invariant
                self.wf(),
                self.service_dist == old(self).service_dist,
                i <= node.interfaces@.len(),
                interfaces_fault(node.interfaces@, i as nat) is None,
                self@ == begun.with_interfaces(*node, i as nat),
                node.id@ != "USER"@,
                node.cpu matches Some(c) && c > 0,
                node.replicas matches Some(n) && n > 0,
            decreases node.interfaces@.len() - i,
        {
            match mean_source(&node.interfaces[i]) {
                Ok(_) => {},
                Err(text) => {
                    proof {
                        lemma_interfaces_fault(
                            node.interfaces@,
                            (i + 1) as nat,
                            node.interfaces@.len(),
                        );
                    }
                    return Err(text);
                },
            }
            let endpoint = Text::of(&node.id).lit(":").lit(&node.interfaces[i].name).done();
            let ghost before = self@;
            self.endpoint_microservice.insert(endpoint, node.id.clone());
            assert(self@ =~= begun.with_interfaces(*node, (i + 1) as nat));
            i += 1;
        }
        Ok(())
    }

    /// Adds an edge, unless one of its ends is unknown or it opens an API twice.
    fn add_edge(&mut self, edge: &Edge) -> (r: Result<(), String>)
        requires
            old(self).wf(),
        ensures
            final(self).wf(),
            final(self).service_dist == old(self).service_dist,
            match r {
                Ok(_) => old(self)@.edge_fault(*edge) is None && final(self)@ == old(
                    self,
                )@.with_edge(*edge),
                Err(text) => old(self)@.edge_fault(*edge) == Some(text@),
            },
    {
        let user = "USER".to_owned();
        if !self.endpoint_microservice.contains(&edge.target) && edge.target != user {
            return Err(Text::of("unknown edge target ").lit(&edge.target).done());
        }
        let from_user = edge.source == user;
        if !from_user && !self.endpoint_microservice.contains(&edge.source) {
            return Err(Text::of("unknown edge source ").lit(&edge.source).done());
        }
        let ghost start = self@;
        let child = ChildEdge { target: edge.target.clone(), api: clone_name(&edge.api) };
        let ghost called = EdgeModel { target: edge.target@, api: opt_name(edge.api) };
        assert(child.model() == called);
        match self.children.find(&edge.source) {
            Some(i) => {
                let slot = self.children.value_mut(i);
                let ghost had = slot@;
                slot.push(child);
                assert(edges_of(slot@) =~= edges_of(had).push(called));
            },
            None => {
                let mut fresh: Vec<ChildEdge> = Vec::new();
                fresh.push(child);
                assert(edges_of(fresh@) =~= Seq::<EdgeModel>::empty().push(called));
                self.children.insert(edge.source.clone(), fresh);
            },
        }
        assert(self@.children =~= start.children.insert(
            edge.source@,
            start.calls(edge.source@).push(called),
        ));
        if from_user {
            let api = entry_api(&edge.target);
            match self.entrypoints.insert(api.clone(), edge.target.clone()) {
                Some(_) => {
                    return Err(Text::of("duplicate entry API ").lit(&api).done());
                },
                None => {},
            }
        }
        assert(self@ =~= start.with_edge(*edge));
        Ok(())
    }
}

impl CallGraph {
    /// Builds the graph that `file` describes. Fails on the first node or edge that cannot
    /// be used, and where the calls on behalf of an API lead back to where they were.
    pub fn from_file_data(file: &CallGraphFile) -> (r: Result<CallGraph, String>)
        ensures
            match r {
                Ok(graph) => {
                    &&& file_fault(*file) is None
                    &&& graph.wf()
                    &&& graph@ == file_graph(*file)
                    &&& graph@.is_complete()
                    &&& graph.service_dist == MsServiceDistribution::Exp
                    &&& forall|api: Seq<char>| #[trigger]
                        graph@.entries.dom().contains(api) ==> graph@.is_acyclic(
                            api,
                            graph@.entries[api],
                        )
                },
                Err(text) => match file_fault(*file) {
                    Some(fault) => text@ == fault,
                    None => exists|api: Seq<char>, again: Seq<char>| #[trigger]
                        file_graph(*file).entries.dom().contains(api) && #[trigger]
                        file_graph(*file).comes_back_to(
                            api,
                            file_graph(*file).entries[api],
                            again,
                        ) && text@ == cycle_text(again, api),
                },
            },
    {
        let mut graph = CallGraph::empty();
        let mut i: usize = 0;
        while i < file.nodes.len()
            invariant
                graph.wf(),
                graph.service_dist == MsServiceDistribution::Exp,
                i <= file.nodes@.len(),
                nodes_fault(file.nodes@, i as nat) is None,
                graph@ == GraphModel::empty().with_nodes(file.nodes@, i as nat),
            decreases file.nodes@.len() - i,
        {
            match graph.add_node(&file.nodes[i]) {
                Ok(_) => {},
                Err(text) => {
                    proof {
                        lemma_nodes_fault(file.nodes@, (i + 1) as nat, file.nodes@.len());
                    }
                    return Err(text);
                },
            }
            i += 1;
        }
        let ghost nodes = graph@;
        let mut k: usize = 0;
        while k < file.edges.len()
            invariant
                graph.wf(),
                graph.service_dist == MsServiceDistribution::Exp,
                k <= file.edges@.len(),
                nodes_fault(file.nodes@, file.nodes@.len()) is None,
                nodes == nodes_graph(*file),
                nodes.edges_fault(file.edges@, k as nat) is None,
                graph@ == nodes.with_edges(file.edges@, k as nat),
            decreases file.edges@.len() - k,
        {
            match graph.add_edge(&file.edges[k]) {
                Ok(_) => {},
                Err(text) => {
                    proof {
                        lemma_edges_fault(nodes, file.edges@, (k + 1) as nat, file.edges@.len());
                    }
                    return Err(text);
                },
            }
            k += 1;
        }
        let mut a: usize = 0;
        while a < graph.entrypoints.len()
            invariant
                graph.wf(),
                graph.service_dist == MsServiceDistribution::Exp,
                a <= graph.entrypoints.ids().len(),
                file_fault(*file) is None,
                graph@ == file_graph(*file),
                forall|b: int|
                    0 <= b < a ==> graph@.is_acyclic(
                        #[trigger] graph.entrypoints.ids()[b],
                        graph@.entries[graph.entrypoints.ids()[b]],
                    ),
            decreases graph.entrypoints.ids().len() - a,
        {
            let api = graph.entrypoints.key_at(a);
            let entry = graph.entrypoints.value_at(a);
            proof {
                graph.entrypoints.lemma_ids();
            }
            let mut stack: Vec<String> = Vec::new();
            assert(names_of(stack@) =~= Seq::<Seq<char>>::empty());
            assert(graph@.is_walk(api@, names_of(stack@).push(entry@)));
            match graph.build_path(api, entry, &mut stack) {
                Ok(_) => {
                    assert forall|walk: Seq<Seq<char>>|
                        walk.len() > 0 && walk[0] == entry@ && #[trigger] graph@.is_walk(
                            api@,
                            walk,
                        ) implies walk.no_duplicates() by {
                        assert(Seq::<Seq<char>>::empty() + walk =~= walk);
                    }
                },
                Err(text) => {
                    proof {
                        let walk = choose|walk: Seq<Seq<char>>|
                            graph@.closes(api@, Seq::<Seq<char>>::empty().push(entry@), walk)
                                && text@ == cycle_text(walk.last(), api@);
                        assert(walk.take(1)[0] == entry@);
                        assert(graph@.is_walk(api@, walk));
                        assert(graph@.comes_back_to(api@, entry@, walk.last()));
                        assert(graph@.entries.dom().contains(api@));
                        assert(graph@.entries[api@] == entry@);
                    }
                    return Err(text);
                },
            }
            a += 1;
        }
        proof {
            graph.entrypoints.lemma_ids();
            assert forall|api: Seq<char>| #[trigger]
                graph@.entries.dom().contains(api) implies graph@.is_acyclic(
                api,
                graph@.entries[api],
            ) by {
                assert(graph.entrypoints@.dom().contains(api));
                assert(graph.entrypoints.ids().contains(api));
                let b = choose|b: int|
                    0 <= b < graph.entrypoints.ids().len() && graph.entrypoints.ids()[b] == api;
                assert(graph@.is_acyclic(
                    graph.entrypoints.ids()[b],
                    graph@.entries[graph.entrypoints.ids()[b]],
                ));
            }
        }
        proof {
            lemma_nodes_complete(file.nodes@, file.nodes@.len());
            lemma_edges_complete(nodes_graph(*file), file.edges@, file.edges@.len());
        }
        Ok(graph)
    }

    /// Follows the calls on behalf of `api` from `endpoint`, which the calls from `stack`
    /// led to, and fails on the first endpoint that is reached twice.
    fn build_path(&self, api: &String, endpoint: &String, stack: &mut Vec<String>) -> (r: Result<
        (),
        String,
    >)
        requires
            self.wf(),
            names_of(old(stack)@).no_duplicates(),
            forall|i: int|
                0 <= i < old(stack)@.len() ==> self.children@.dom().contains(
                    (#[trigger] old(stack)@[i])@,
                ),
            self@.is_walk(api@, names_of(old(stack)@).push(endpoint@)),
        ensures
            match r {
                Ok(_) => {
                    &&& final(stack)@ == old(stack)@
                    &&& self@.stays_clear(api@, names_of(old(stack)@), endpoint@)
                },
                Err(text) => exists|walk: Seq<Seq<char>>| #[trigger]
                    self@.closes(api@, names_of(old(stack)@).push(endpoint@), walk) && text@
                        == cycle_text(walk.last(), api@),
            },
        decreases self.children.ids().len() - old(stack)@.len(),
    {
        let ghost above = names_of(stack@);
        let depth: usize = stack.len();
        let mut i: usize = 0;
        while i < depth
            invariant
                i <= depth,
                depth == stack@.len(),
                above == names_of(stack@),
                stack@ == old(stack)@,
                above.no_duplicates(),
                self@.is_walk(api@, above.push(endpoint@)),
                forall|j: int| 0 <= j < i ==> above[j] != endpoint@,
            decreases depth - i,
        {
            if stack[i] == *endpoint {
                proof {
                    let walk = above.push(endpoint@);
                    assert(walk.drop_last() =~= above);
                    assert(above[i as int] == endpoint@);
                    assert(walk.take(walk.len() as int) =~= walk);
                    assert(self@.closes(api@, walk, walk));
                }
                return Err(
                    Text::of("cycle detected at ").lit(endpoint).lit(" for API ").lit(api).done(),
                );
            }
            i += 1;
        }
        let ghost here = above.push(endpoint@);
        assert(here.no_duplicates());
        match self.children.get(endpoint) {
            None => {
                proof {
                    self@.lemma_leaf_clear(api@, above, endpoint@);
                }
                Ok(())
            },
            Some(edges) => {
                stack.push(endpoint.clone());
                assert(names_of(stack@) =~= here);
                proof {
                    self.lemma_room(here);
                }
                let ghost calls = self@.calls(endpoint@);
                assert(calls == edges_of(edges@));
                let mut k: usize = 0;
                while k < edges.len()
                    invariant
                        self.wf(),
                        k <= edges@.len(),
                        calls == edges_of(edges@),
                        calls == self@.calls(endpoint@),
                        here == above.push(endpoint@),
                        here.no_duplicates(),
                        names_of(stack@) == here,
                        stack@.len() > 0,
                        stack@.drop_last() == old(stack)@,
                        above == names_of(old(stack)@),
                        self@.is_walk(api@, here),
                        forall|j: int|
                            0 <= j < stack@.len() ==> self.children@.dom().contains(
                                (#[trigger] stack@[j])@,
                            ),
                        old(stack)@.len() < self.children.ids().len(),
                        forall|j: int|
                            0 <= j < k && (#[trigger] calls[j]).api == Some(api@)
                                ==> self@.stays_clear(api@, here, calls[j].target),
                    decreases edges@.len() - k,
                {
                    let edge = &edges[k];
                    let follows = match &edge.api {
                        Some(name) => *name == *api,
                        None => false,
                    };
                    assert(calls[k as int] == edge.model());
                    if follows {
                        proof {
                            assert(self@.linked(api@, endpoint@, edge.target@));
                            self@.lemma_longer_walk(api@, here, edge.target@);
                        }
                        match self.build_path(api, &edge.target, stack) {
                            Ok(_) => {},
                            Err(text) => {
                                proof {
                                    let walk = choose|walk: Seq<Seq<char>>|
                                        self@.closes(api@, here.push(edge.target@), walk) && text@
                                            == cycle_text(walk.last(), api@);
                                    self@.lemma_closes_shorter(api@, here, edge.target@, walk);
                                    assert(self@.closes(api@, here, walk));
                                }
                                return Err(text);
                            },
                        }
                    }
                    k += 1;
                }
                proof {
                    self@.lemma_branch_clear(api@, above, endpoint@);
                }
                stack.pop();
                assert(stack@ =~= old(stack)@);
                Ok(())
            },
        }
    }

    /// There are at least as many endpoints that call something as distinct names of such
    /// endpoints.
    proof fn lemma_room(&self, here: Seq<Seq<char>>)
        requires
            self.wf(),
            here.no_duplicates(),
            forall|i: int| 0 <= i < here.len() ==> self.children@.dom().contains(#[trigger] here[i]),
        ensures
            here.len() <= self.children.ids().len(),
    {
        let names = self.children.ids();
        self.children.lemma_ids();
        here.unique_seq_to_set();
        names.unique_seq_to_set();
        assert forall|name: Seq<char>| #[trigger] here.to_set().contains(name) implies
            names.to_set().contains(name) by {
            let i = choose|i: int| 0 <= i < here.len() && here[i] == name;
            assert(self.children@.dom().contains(here[i]));
        }
        vstd::set_lib::lemma_len_subset(here.to_set(), names.to_set());
    }
}

/// A copy of an optional name.
pub fn clone_name(name: &Option<String>) -> (r: Option<String>)
    ensures
        opt_name(r) == opt_name(*name),
{
    match name {
        Some(s) => Some(s.clone()),
        None => None,
    }
}

/// Where the mean of an interface is read from: `avg_rt` wins over `exponential`.
pub fn mean_source(interface: &Interface) -> (r: Result<MeanSource, String>)
    ensures
        match r {
            Ok(source) => interface_fault(*interface) is None && source == (
            if interface.has_avg_rt {
                MeanSource::AvgRt
            } else {
                MeanSource::Exponential
            }),
            Err(text) => interface_fault(*interface) == Some(text@),
        },
{
    if interface.has_avg_rt {
        Ok(MeanSource::AvgRt)
    } else if interface.has_exponential {
        Ok(MeanSource::Exponential)
    } else {
        Err(
            Text::of("interface ").lit(&interface.name).lit(
                " missing avg_rt or exponential",
            ).done(),
        )
    }
}

/// The API that an edge from the users to `target` opens.
pub fn entry_api(target: &String) -> (r: String)
    ensures
        r@ == after_last_colon(target@),
{
    let n: usize = target.as_str().unicode_len();
    let mut i: usize = n;
    assert(target@.take(n as int) =~= target@);
    assert(after_last_colon(target@) =~= after_last_colon(target@.take(i as int)) + target@.skip(
        i as int,
    ));
    while i > 0
        invariant_except_break
            after_last_colon(target@) == after_last_colon(target@.take(i as int))
                + target@.skip(i as int),
        invariant
            i <= n,
            n == target@.len(),
        ensures
            i <= n,
            after_last_colon(target@) == target@.skip(i as int),
        decreases i,
    {
        let c: char = target.as_str().get_char(i - 1);
        proof {
            let head = target@.take(i as int);
            assert(head.last() == c);
            assert(head.drop_last() =~= target@.take(i - 1));
        }
        if c == ':' {
            assert(after_last_colon(target@) =~= target@.skip(i as int));
            break;
        }
        proof {
            assert(after_last_colon(target@) =~= after_last_colon(target@.take(i - 1))
                + target@.skip(i - 1));
        }
        i -= 1;
    }
    let tail = target.as_str().substring_char(i, n);
    assert(tail@ =~= target@.skip(i as int));
    tail.to_owned()
}

/// The load on an API: whether its rate and its latency bound are acceptable numbers.
#[derive(Clone, Debug)]
pub struct LoadEntry {
    pub api: String,
    pub rps_ok: bool,
    pub slo_ok: bool,
}

/// Why a load cannot be put on the graph.
pub open spec fn load_fault(graph: GraphModel, entry: LoadEntry) -> Option<Seq<char>> {
    if !graph.entries.dom().contains(entry.api@) {
        Some("load.json API "@ + entry.api@ + " has no entrypoint in callgraph"@)
    } else if !entry.rps_ok {
        Some("load.json API "@ + entry.api@ + " must have rps > 0"@)
    } else if !entry.slo_ok {
        Some("load.json API "@ + entry.api@ + " must have slo_ms > 0"@)
    } else {
        None
    }
}

impl CallGraph {
    /// Checks the load on each API, in the order given.
    pub fn validate_load(&self, load: &Vec<LoadEntry>) -> (r: Result<(), String>)
        requires
            self.wf(),
        ensures
            match r {
                Ok(_) => forall|i: int|
                    0 <= i < load@.len() ==> load_fault(self@, #[trigger] load@[i]) is None,
                Err(text) => exists|i: int|
                    0 <= i < load@.len() && load_fault(self@, #[trigger] load@[i]) == Some(text@)
                        && forall|j: int|
                        0 <= j < i ==> load_fault(self@, #[trigger] load@[j]) is None,
            },
    {
        let mut i: usize = 0;
        while i < load.len()
            invariant
                self.wf(),
                i <= load@.len(),
                forall|j: int| 0 <= j < i ==> load_fault(self@, #[trigger] load@[j]) is None,
            decreases load@.len() - i,
        {
            let entry = &load[i];
            let text = if !self.entrypoints.contains(&entry.api) {
                Some(
                    Text::of("load.json API ").lit(&entry.api).lit(
                        " has no entrypoint in callgraph",
                    ).done(),
                )
            } else if !entry.rps_ok {
                Some(Text::of("load.json API ").lit(&entry.api).lit(" must have rps > 0").done())
            } else if !entry.slo_ok {
                Some(Text::of("load.json API ").lit(&entry.api).lit(" must have slo_ms > 0").done())
            } else {
                None
            };
            match text {
                Some(text) => {
                    assert(load_fault(self@, load@[i as int]) == Some(text@));
                    return Err(text);
                },
                None => {},
            }
            i += 1;
        }
        Ok(())
    }
}

proof fn lemma_interfaces_complete(graph: GraphModel, node: Node, k: nat)
    requires
        graph.is_complete(),
        graph.specs.dom().contains(node.id@),
    ensures
        graph.with_interfaces(node, k).is_complete(),
        graph.with_interfaces(node, k).specs == graph.specs,
    decreases k,
{
    if k > 0 {
        lemma_interfaces_complete(graph, node, (k - 1) as nat);
    }
}

proof fn lemma_nodes_complete(nodes: Seq<Node>, k: nat)
    requires
        nodes_fault(nodes, k) is None,
    ensures
        GraphModel::empty().with_nodes(nodes, k).is_complete(),
    decreases k,
{
    if k > 0 {
        lemma_nodes_complete(nodes, (k - 1) as nat);
        let before = GraphModel::empty().with_nodes(nodes, (k - 1) as nat);
        let node = nodes[k - 1];
        if node.id@ != "USER"@ {
            let grown = before.with_microservice(node);
            assert forall|id: Seq<char>| #[trigger]
                grown.specs.dom().contains(id) implies grown.order.contains(id) by {
                if id == node.id@ {
                    assert(grown.order[before.order.len() as int] == id);
                } else {
                    assert(before.order.contains(id));
                    let i = choose|i: int| 0 <= i < before.order.len() && before.order[i] == id;
                    assert(grown.order[i] == id);
                }
            }
            assert(grown.is_complete());
            lemma_interfaces_complete(
                before.with_microservice(node),
                node,
                node.interfaces@.len(),
            );
        }
    }
}

proof fn lemma_edges_complete(graph: GraphModel, edges: Seq<Edge>, k: nat)
    requires
        graph.is_complete(),
    ensures
        graph.with_edges(edges, k).is_complete(),
    decreases k,
{
    if k > 0 {
        lemma_edges_complete(graph, edges, (k - 1) as nat);
    }
}

proof fn lemma_interfaces_fault(interfaces: Seq<Interface>, k: nat, n: nat)
    requires
        k <= n,
        interfaces_fault(interfaces, k) is Some,
    ensures
        interfaces_fault(interfaces, n) == interfaces_fault(interfaces, k),
    decreases n - k,
{
    if k < n {
        lemma_interfaces_fault(interfaces, k, (n - 1) as nat);
    }
}

proof fn lemma_nodes_fault(nodes: Seq<Node>, k: nat, n: nat)
    requires
        k <= n,
        nodes_fault(nodes, k) is Some,
    ensures
        nodes_fault(nodes, n) == nodes_fault(nodes, k),
    decreases n - k,
{
    if k < n {
        lemma_nodes_fault(nodes, k, (n - 1) as nat);
    }
}

proof fn lemma_edges_fault(graph: GraphModel, edges: Seq<Edge>, k: nat, n: nat)
    requires
        k <= n,
        graph.edges_fault(edges, k) is Some,
    ensures
        graph.edges_fault(edges, n) == graph.edges_fault(edges, k),
    decreases n - k,
{
    if k < n {
        lemma_edges_fault(graph, edges, k, (n - 1) as nat);
    }
}

/// A node of a graph file becomes a microservice with the cores and replicas that it names, and
/// each of its interfaces an endpoint of it. It comes last in the order. Whatever was described
/// before under other names stays. The users' own node adds nothing.
pub proof fn law_node_describes_a_microservice(
    graph: GraphModel,
    node: Node,
    i: int,
    other: Seq<char>,
)
    requires
        node.cpu is Some,
        node.replicas is Some,
    ensures
        node.id@ != "USER"@ ==> {
            let after = graph.with_node(node);
            &&& after.specs.dom().contains(node.id@)
            &&& Some(after.specs[node.id@].cpu) == node.cpu
            &&& Some(after.specs[node.id@].replicas) == node.replicas
            &&& after.order.len() == graph.order.len() + 1
            &&& after.order.last() == node.id@
            &&& after.order.drop_last() == graph.order
            &&& 0 <= i < node.interfaces@.len() ==> {
                let endpoint = node.id@ + ":"@ + node.interfaces@[i].name@;
                after.owners.dom().contains(endpoint) && after.owners[endpoint] == node.id@
            }
            &&& other != node.id@ ==> (after.specs.dom().contains(other)
                <==> graph.specs.dom().contains(other)) && (graph.specs.dom().contains(other)
                ==> after.specs[other] == graph.specs[other])
            &&& after.children == graph.children && after.entries == graph.entries
        },
        node.id@ == "USER"@ ==> graph.with_node(node) == graph,
{
    let first = graph.with_microservice(node);
    lemma_interfaces_named(first, node, node.interfaces@.len(), i);
    assert(graph.order.push(node.id@).drop_last() =~= graph.order);
}

proof fn lemma_interfaces_named(graph: GraphModel, node: Node, k: nat, i: int)
    requires
        k <= node.interfaces@.len(),
    ensures
        ({
            let after = graph.with_interfaces(node, k);
            &&& after.specs == graph.specs && after.order == graph.order
            &&& after.children == graph.children && after.entries == graph.entries
            &&& 0 <= i < k ==> {
                let endpoint = node.id@ + ":"@ + node.interfaces@[i].name@;
                after.owners.dom().contains(endpoint) && after.owners[endpoint] == node.id@
            }
        }),
    decreases k,
{
    if k > 0 {
        lemma_interfaces_named(graph, node, (k - 1) as nat, i);
    }
}

/// An edge is a call of its source, made behind all calls that the source had before, to its
/// target and on behalf of its API. An edge from the users makes its target the entry of the
/// API that the target is named after; no other edge changes an entry.
pub proof fn law_edge_is_the_last_call_of_its_source(graph: GraphModel, edge: Edge, other: Seq<char>)
    ensures
        ({
            let after = graph.with_edge(edge);
            let calls = after.calls(edge.source@);
            &&& calls.len() == graph.calls(edge.source@).len() + 1
            &&& calls.last().target == edge.target@
            &&& edge.api is None ==> calls.last().api is None
            &&& edge.api matches Some(api) ==> calls.last().api == Some(api@)
            &&& calls.drop_last() == graph.calls(edge.source@)
            &&& other != edge.source@ ==> after.calls(other) == graph.calls(other)
            &&& after.specs == graph.specs && after.owners == graph.owners
            &&& edge.source@ != "USER"@ ==> after.entries == graph.entries
            &&& edge.source@ == "USER"@ ==> {
                let api = after_last_colon(edge.target@);
                &&& after.entries.dom().contains(api)
                &&& after.entries[api] == edge.target@
                &&& other != api ==> (after.entries.dom().contains(other)
                    <==> graph.entries.dom().contains(other)) && (graph.entries.dom().contains(other)
                    ==> after.entries[other] == graph.entries[other])
            }
        }),
{
    let called = EdgeModel { target: edge.target@, api: opt_name(edge.api) };
    assert(graph.calls(edge.source@).push(called).drop_last() =~= graph.calls(edge.source@));
}

/// What an endpoint is called on behalf of is the end of its name: what follows its last colon.
pub proof fn law_api_is_the_end_of_the_name(head: Seq<char>, tail: Seq<char>)
    requires
        !tail.contains(':'),
    ensures
        after_last_colon(head.push(':') + tail) == tail,
        after_last_colon(tail) == tail,
    decreases tail.len(),
{
    if tail.len() == 0 {
        assert(head.push(':') + tail =~= head.push(':'));
        assert(after_last_colon(tail) =~= tail);
        assert(after_last_colon(head.push(':')) =~= tail);
    } else {
        let shorter = tail.drop_last();
        assert(tail[tail.len() - 1] != ':') by {
            assert(tail.contains(tail[tail.len() - 1]));
        }
        assert(!shorter.contains(':')) by {
            if shorter.contains(':') {
                let i = choose|i: int| 0 <= i < shorter.len() && shorter[i] == ':';
                assert(tail[i] == ':');
            }
        }
        law_api_is_the_end_of_the_name(head, shorter);
        let all = head.push(':') + tail;
        assert(all.drop_last() =~= head.push(':') + shorter);
        assert(shorter.push(tail.last()) =~= tail);
    }
}

/// A file whose nodes and edges are accepted is sound: every microservice has cores and
/// replicas, every interface a mean, and every edge leads from the users or a known endpoint to
/// a known endpoint or the users.
pub proof fn law_accepted_file_is_sound(file: CallGraphFile, i: int, j: int)
    requires
        file_fault(file) is None,
    ensures
        0 <= i < file.nodes@.len() && file.nodes@[i].id@ != "USER"@ ==> {
            let node = file.nodes@[i];
            &&& node.cpu is Some && node.cpu->0 > 0
            &&& node.replicas is Some && node.replicas->0 > 0
            &&& 0 <= j < node.interfaces@.len() ==> node.interfaces@[j].has_avg_rt
                || node.interfaces@[j].has_exponential
        },
        0 <= i < file.edges@.len() ==> {
            let edge = file.edges@[i];
            let known = nodes_graph(file).owners.dom();
            &&& edge.source@ == "USER"@ || known.contains(edge.source@)
            &&& edge.target@ == "USER"@ || known.contains(edge.target@)
        },
{
    if 0 <= i < file.nodes@.len() {
        lemma_no_node_fault(file.nodes@, file.nodes@.len(), i);
        let node = file.nodes@[i];
        if node.id@ != "USER"@ && 0 <= j < node.interfaces@.len() {
            lemma_no_interface_fault(node.interfaces@, node.interfaces@.len(), j);
        }
    }
    if 0 <= i < file.edges@.len() {
        lemma_no_edge_fault(nodes_graph(file), file.edges@, file.edges@.len(), i);
    }
}

proof fn lemma_no_node_fault(nodes: Seq<Node>, k: nat, i: int)
    requires
        0 <= i < k <= nodes.len(),
        nodes_fault(nodes, k) is None,
    ensures
        node_fault(nodes[i]) is None,
    decreases k,
{
    if i < k - 1 {
        lemma_no_node_fault(nodes, (k - 1) as nat, i);
    }
}

proof fn lemma_no_interface_fault(interfaces: Seq<Interface>, k: nat, i: int)
    requires
        0 <= i < k <= interfaces.len(),
        interfaces_fault(interfaces, k) is None,
    ensures
        interface_fault(interfaces[i]) is None,
    decreases k,
{
    if i < k - 1 {
        lemma_no_interface_fault(interfaces, (k - 1) as nat, i);
    }
}

proof fn lemma_no_edge_fault(graph: GraphModel, edges: Seq<Edge>, k: nat, i: int)
    requires
        0 <= i < k <= edges.len(),
        graph.edges_fault(edges, k) is None,
    ensures
        edges[i].source@ == "USER"@ || graph.owners.dom().contains(edges[i].source@),
        edges[i].target@ == "USER"@ || graph.owners.dom().contains(edges[i].target@),
    decreases k,
{
    if i < k - 1 {
        lemma_no_edge_fault(graph, edges, (k - 1) as nat, i);
    } else {
        lemma_edges_keep_owners(graph, edges, (k - 1) as nat);
    }
}

proof fn lemma_edges_keep_owners(graph: GraphModel, edges: Seq<Edge>, k: nat)
    ensures
        graph.with_edges(edges, k).owners == graph.owners,
    decreases k,
{
    if k > 0 {
        lemma_edges_keep_owners(graph, edges, (k - 1) as nat);
    }
}

/// Calls that come back are a cycle: an endpoint that calls itself on behalf of an API, or one
/// that calls another which calls it in turn, is not free of cycles for that API. An endpoint
/// that calls nothing is.
pub proof fn law_calls_that_come_back_are_a_cycle(
    graph: GraphModel,
    api: Seq<char>,
    a: Seq<char>,
    b: Seq<char>,
)
    ensures
        graph.calls(a).contains(EdgeModel { target: b, api: Some(api) }) && graph.calls(b).contains(
            EdgeModel { target: a, api: Some(api) },
        ) ==> !graph.is_acyclic(api, a),
        graph.calls(a).len() == 0 ==> graph.is_acyclic(api, a),
{
    if graph.calls(a).contains(EdgeModel { target: b, api: Some(api) }) && graph.calls(b).contains(
        EdgeModel { target: a, api: Some(api) },
    ) {
        let walk = seq![a, b, a];
        assert forall|i: int| 0 <= i < walk.len() - 1 implies graph.linked(
            api,
            #[trigger] walk[i],
            walk[i + 1],
        ) by {}
        assert(graph.is_walk(api, walk));
        assert(walk[0] == walk[2]);
        assert(!walk.no_duplicates());
    }
    if graph.calls(a).len() == 0 {
        assert forall|walk: Seq<Seq<char>>|
            walk.len() > 0 && walk[0] == a && #[trigger] graph.is_walk(
                api,
                walk,
            ) implies walk.no_duplicates() by {
            if walk.len() > 1 {
                assert(graph.linked(api, walk[0], walk[1]));
            }
        }
    }
}

/// A load is accepted where its API has an entry and both its numbers are in order, and
/// refused otherwise.
pub proof fn law_load_needs_an_entry(graph: GraphModel, entry: LoadEntry)
    ensures
        load_fault(graph, entry) is None <==> graph.entries.dom().contains(entry.api@)
            && entry.rps_ok && entry.slo_ok,
{
}

} // verus!
