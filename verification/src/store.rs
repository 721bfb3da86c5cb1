//! The graph container and what is taken on trust about it.
//!
//! The container is `petgraph`'s `StableGraph`. Nothing inside it is visible
//! to the verifier: its contents are named by [`graph_nodes`] and
//! [`graph_edges`], and each method the library calls is wrapped in a
//! function whose contract says, over those two names, what the method does.
use vstd::prelude::*;
use petgraph::stable_graph::StableGraph;
use petgraph::stable_graph::NodeIndex;
use petgraph::stable_graph::EdgeIndex;
use petgraph::visit::EdgeRef;
use petgraph::Direction;
use petgraph::Directed;
use crate::node::Node;
use crate::node::Edge;

verus! {

/// `petgraph::Directed`: the marker for graphs with directed edges.
#[verifier::external_type_specification]
#[verifier::external_body]
pub struct ExDirected(Directed);

/// `petgraph::stable_graph::StableGraph`: nothing inside it is visible.
#[verifier::external_type_specification]
#[verifier::external_body]
#[verifier::reject_recursive_types(N)]
#[verifier::reject_recursive_types(E)]
#[verifier::reject_recursive_types(Ty)]
#[verifier::reject_recursive_types(Ix)]
pub struct ExStableGraph<N, E, Ty, Ix>(StableGraph<N, E, Ty, Ix>);

/// The container: a directed multigraph whose indices survive deletions of
/// other nodes and edges.
pub type Store = StableGraph<Node, Edge>;

/// An edge as the container holds it.
pub struct Link {
    pub source: u32,
    pub target: u32,
    pub label: Edge,
}

/// An edge together with its index, as the container lists it.
#[derive(Clone, Copy)]
pub struct EdgeRecord {
    pub id: u32,
    pub source: u32,
    pub target: u32,
    pub label: Edge,
}

impl EdgeRecord {
    pub open spec fn link(self) -> Link {
        Link { source: self.source, target: self.target, label: self.label }
    }
}

/// The live nodes of a graph, by index.
pub uninterp spec fn graph_nodes(g: Store) -> Map<u32, Node>;

/// The live edges of a graph, by index.
pub uninterp spec fn graph_edges(g: Store) -> Map<u32, Link>;

/// The edges that do not touch node `a`.
pub open spec fn edges_without_node(edges: Map<u32, Link>, a: u32) -> Map<u32, Link> {
    Map::new(
        |e: u32| edges.contains_key(e) && edges[e].source != a && edges[e].target != a,
        |e: u32| edges[e],
    )
}

/// `records` lists, each once, exactly the edges of `edges` that leave `a`.
pub open spec fn lists_outgoing(records: Seq<EdgeRecord>, edges: Map<u32, Link>, a: u32) -> bool {
    &&& forall|i: int|
        0 <= i < records.len() ==> edges.contains_key(#[trigger] records[i].id)
            && edges[records[i].id] == records[i].link() && records[i].source == a
    &&& forall|i: int, j: int|
        0 <= i < j < records.len() ==> (#[trigger] records[i]).id != (#[trigger] records[j]).id
    &&& forall|e: u32| #[trigger]
        edges.contains_key(e) && edges[e].source == a ==> exists|i: int|
            0 <= i < records.len() && (#[trigger] records[i]).id == e
}

/// `records` lists, each once, exactly the edges of `edges` that enter `a`.
pub open spec fn lists_incoming(records: Seq<EdgeRecord>, edges: Map<u32, Link>, a: u32) -> bool {
    &&& forall|i: int|
        0 <= i < records.len() ==> edges.contains_key(#[trigger] records[i].id)
            && edges[records[i].id] == records[i].link() && records[i].target == a
    &&& forall|i: int, j: int|
        0 <= i < j < records.len() ==> (#[trigger] records[i]).id != (#[trigger] records[j]).id
    &&& forall|e: u32| #[trigger]
        edges.contains_key(e) && edges[e].target == a ==> exists|i: int|
            0 <= i < records.len() && (#[trigger] records[i]).id == e
}

/// `ids` lists, in increasing order, exactly the keys of `nodes`.
pub open spec fn lists_nodes(ids: Seq<u32>, nodes: Map<u32, Node>) -> bool {
    &&& forall|i: int| 0 <= i < ids.len() ==> nodes.contains_key(#[trigger] ids[i])
    &&& forall|i: int, j: int| 0 <= i < j < ids.len() ==> ids[i] < ids[j]
    &&& forall|a: u32| #[trigger]
        nodes.contains_key(a) ==> exists|i: int| 0 <= i < ids.len() && ids[i] == a
}

/// `indices` is finite and has `n` members.
pub open spec fn counts(indices: Set<u32>, n: usize) -> bool {
    indices.finite() && indices.len() == n
}

/// `StableGraph::new`: a graph without nodes or edges.
#[verifier::external_body]
pub(crate) fn graph_new() -> (g: Store)
    ensures
        graph_nodes(g).dom() == Set::<u32>::empty(),
        graph_edges(g).dom() == Set::<u32>::empty(),
{
    StableGraph::new()
}

/// `StableGraph::node_count`: the number of live nodes, which is finite.
#[verifier::external_body]
pub(crate) fn graph_node_count(g: &Store) -> (r: usize)
    ensures
        counts(graph_nodes(*g).dom(), r),
{
    g.node_count()
}

/// `StableGraph::edge_count`: the number of live edges, which is finite.
#[verifier::external_body]
pub(crate) fn graph_edge_count(g: &Store) -> (r: usize)
    ensures
        counts(graph_edges(*g).dom(), r),
{
    g.edge_count()
}

/// `StableGraph::node_weight`: the weight of a live node, `None` for any
/// other index.
#[verifier::external_body]
pub(crate) fn graph_node_weight(g: &Store, a: u32) -> (r: Option<&Node>)
    ensures
        r == if graph_nodes(*g).contains_key(a) {
            Some(&graph_nodes(*g)[a])
        } else {
            None
        },
{
    g.node_weight(NodeIndex::new(a as usize))
}

/// `StableGraph::add_node`: the new node gets an index that no live node
/// has; no other node and no edge changes. The method panics when every
/// index of the index type is taken, which the precondition rules out.
#[verifier::external_body]
pub(crate) fn graph_add_node(g: &mut Store, weight: Node) -> (r: u32)
    requires
        graph_nodes(*old(g)).dom().finite(),
        graph_nodes(*old(g)).dom().len() < u32::MAX,
    ensures
        !graph_nodes(*old(g)).contains_key(r),
        graph_nodes(*final(g)) == graph_nodes(*old(g)).insert(r, weight),
        graph_edges(*final(g)) == graph_edges(*old(g)),
{
    g.add_node(weight).index() as u32
}

/// `IndexMut` on a node index: replaces the weight of a live node and
/// changes nothing else. It panics on an index that is not live.
#[verifier::external_body]
pub(crate) fn graph_set_node_weight(g: &mut Store, a: u32, weight: Node)
    requires
        graph_nodes(*old(g)).contains_key(a),
    ensures
        graph_nodes(*final(g)) == graph_nodes(*old(g)).insert(a, weight),
        graph_edges(*final(g)) == graph_edges(*old(g)),
{
    g[NodeIndex::new(a as usize)] = weight;
}

/// `StableGraph::remove_node`: removes a live node together with every edge
/// that touches it and returns its weight; on any other index it returns
/// `None` and changes nothing.
#[verifier::external_body]
pub(crate) fn graph_remove_node(g: &mut Store, a: u32) -> (r: Option<Node>)
    ensures
        r == if graph_nodes(*old(g)).contains_key(a) {
            Some(graph_nodes(*old(g))[a])
        } else {
            None
        },
        graph_nodes(*final(g)) == graph_nodes(*old(g)).remove(a),
        graph_edges(*final(g)) == edges_without_node(graph_edges(*old(g)), a),
{
    g.remove_node(NodeIndex::new(a as usize))
}

/// `StableGraph::add_edge`: the new edge gets an index that no live edge
/// has; parallel edges are allowed; nothing else changes. The method panics
/// when an endpoint is not live or every edge index is taken, which the
/// precondition rules out.
#[verifier::external_body]
pub(crate) fn graph_add_edge(g: &mut Store, a: u32, b: u32, label: Edge) -> (r: u32)
    requires
        graph_nodes(*old(g)).contains_key(a),
        graph_nodes(*old(g)).contains_key(b),
        graph_edges(*old(g)).dom().finite(),
        graph_edges(*old(g)).dom().len() < u32::MAX,
    ensures
        !graph_edges(*old(g)).contains_key(r),
        graph_edges(*final(g)) == graph_edges(*old(g)).insert(
            r,
            Link { source: a, target: b, label: label },
        ),
        graph_nodes(*final(g)) == graph_nodes(*old(g)),
{
    g.add_edge(NodeIndex::new(a as usize), NodeIndex::new(b as usize), label).index() as u32
}

/// `StableGraph::remove_edge`: removes a live edge and returns its label;
/// on any other index it returns `None` and changes nothing.
#[verifier::external_body]
pub(crate) fn graph_remove_edge(g: &mut Store, e: u32) -> (r: Option<Edge>)
    ensures
        r == if graph_edges(*old(g)).contains_key(e) {
            Some(graph_edges(*old(g))[e].label)
        } else {
            None
        },
        graph_edges(*final(g)) == graph_edges(*old(g)).remove(e),
        graph_nodes(*final(g)) == graph_nodes(*old(g)),
{
    g.remove_edge(EdgeIndex::new(e as usize))
}

/// `StableGraph::edges`: the edges that leave a node, each once, in the
/// container's order; none for an index that is not live.
#[verifier::external_body]
pub(crate) fn graph_outgoing(g: &Store, a: u32) -> (r: Vec<EdgeRecord>)
    ensures
        lists_outgoing(r@, graph_edges(*g), a),
{
    g.edges(NodeIndex::new(a as usize)).map(
        |e| EdgeRecord {
            id: e.id().index() as u32,
            source: e.source().index() as u32,
            target: e.target().index() as u32,
            label: *e.weight(),
        },
    ).collect()
}

/// `StableGraph::edges_directed` with `Direction::Incoming`: the edges that
/// enter a node, each once, in the container's order; none for an index
/// that is not live. Every endpoint of a listed edge is a live node.
#[verifier::external_body]
pub(crate) fn graph_incoming(g: &Store, a: u32) -> (r: Vec<EdgeRecord>)
    ensures
        lists_incoming(r@, graph_edges(*g), a),
{
    g.edges_directed(NodeIndex::new(a as usize), Direction::Incoming).map(
        |e| EdgeRecord {
            id: e.id().index() as u32,
            source: e.source().index() as u32,
            target: e.target().index() as u32,
            label: *e.weight(),
        },
    ).collect()
}

/// `StableGraph::node_indices`: the indices of the live nodes, in
/// increasing order.
#[verifier::external_body]
pub(crate) fn graph_node_indices(g: &Store) -> (r: Vec<u32>)
    ensures
        lists_nodes(r@, graph_nodes(*g)),
{
    g.node_indices().map(|a| a.index() as u32).collect()
}

} // verus!
