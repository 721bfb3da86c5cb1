//! The expression graph: nodes, labelled edges and a designated root.
//!
//! Every node has at most one outgoing edge per label, so the edges are a
//! map from (source, label) to target. The operations below are stated
//! over that map and over the map from node index to node.
use vstd::prelude::*;
use crate::node::Edge;
use crate::node::Node;
use crate::node::NodeView;
use crate::store::graph_add_edge;
use crate::store::graph_add_node;
use crate::store::graph_edge_count;
use crate::store::graph_edges;
use crate::store::graph_incoming;
use crate::store::graph_new;
use crate::store::graph_node_count;
use crate::store::graph_node_indices;
use crate::store::graph_node_weight;
use crate::store::graph_nodes;
use crate::store::graph_outgoing;
use crate::store::graph_remove_edge;
use crate::store::graph_remove_node;
use crate::store::graph_set_node_weight;
use crate::store::lists_outgoing;
use crate::store::EdgeRecord;
use crate::store::Link;
use crate::store::Store;

verus! {

/// The index of a node. It stays valid while other nodes come and go.
pub type NodeId = u32;

/// What can go wrong in the graph and in the reducer.
#[derive(Debug)]
pub enum ASTError {
    /// The node has no outgoing edge with this label.
    EdgeNotFound(NodeId, Edge),
    /// The node has no owner, or more than one.
    ParentError(NodeId),
    /// A rewrite met a closure chain that it cannot restructure.
    InvalidClosureChain,
    /// A domain error at a node.
    Custom(NodeId, &'static str),
    /// The container has no index left for a node or an edge.
    Full,
    /// The step budget of a bounded operation ran out.
    Exhausted,
    /// The source text is no expression: the token at this index is not
    /// what the grammar expects there.
    Syntax(usize, &'static str),
}

/// The graph as contracts see it.
pub struct GraphView {
    /// The live nodes.
    pub nodes: Map<NodeId, NodeView>,
    /// The edges: (source, label) to target.
    pub children: Map<(NodeId, Edge), NodeId>,
    pub root: NodeId,
    /// A second designated node, which follows replacements as the root
    /// does: whoever wants to know what ends up in the place of a node
    /// puts the focus on it.
    pub focus: NodeId,
    /// The next identifier for a user-defined constructor.
    pub next_uid: usize,
}

impl GraphView {
    /// Every edge joins two live nodes, and the nodes are finitely many.
    pub open spec fn linked(self) -> bool {
        &&& self.nodes.dom().finite()
        &&& forall|k: (NodeId, Edge)| #[trigger]
            self.children.contains_key(k) ==> self.nodes.contains_key(k.0)
                && self.nodes.contains_key(self.children[k])
    }

    /// The target of the edge `label` out of `source`, if there is one.
    pub open spec fn child(self, source: NodeId, label: Edge) -> Option<NodeId> {
        if self.children.contains_key((source, label)) {
            Some(self.children[(source, label)])
        } else {
            None
        }
    }

    /// The edge `k` points at `node` and owns it: it is neither a binder
    /// edge nor a debug edge.
    pub open spec fn owns(self, k: (NodeId, Edge), node: NodeId) -> bool {
        self.children.contains_key(k) && self.children[k] == node && (k.1 is Body || k.1
            is Parameter || k.1 is Function)
    }

    /// The edges after node `n` has gone: none leaves it, none enters it.
    pub open spec fn children_without(self, n: NodeId) -> Map<(NodeId, Edge), NodeId> {
        Map::new(
            |k: (NodeId, Edge)|
                self.children.contains_key(k) && k.0 != n && self.children[k] != n,
            |k: (NodeId, Edge)| self.children[k],
        )
    }

    /// The edges after those into `from` have been pointed at `to`: the
    /// binder edges if `binders` is set, the other edges if it is not.
    pub open spec fn children_retargeted(self, from: NodeId, to: NodeId, binders: bool) -> Map<
        (NodeId, Edge),
        NodeId,
    > {
        Map::new(
            |k: (NodeId, Edge)| self.children.contains_key(k),
            |k: (NodeId, Edge)|
                if self.children[k] == from && k.1.is_binder() == binders {
                    to
                } else {
                    self.children[k]
                },
        )
    }

    /// The graph with `node` added or replaced.
    pub open spec fn with_node(self, node: NodeId, weight: NodeView) -> GraphView {
        GraphView { nodes: self.nodes.insert(node, weight), ..self }
    }

    /// The graph without `node` and without the edges that touch it.
    pub open spec fn without_node(self, node: NodeId) -> GraphView {
        GraphView {
            nodes: self.nodes.remove(node),
            children: self.children_without(node),
            ..self
        }
    }

    /// The graph with the edge `label` out of `source` pointing at `target`.
    pub open spec fn with_edge(self, source: NodeId, label: Edge, target: NodeId) -> GraphView {
        GraphView { children: self.children.insert((source, label), target), ..self }
    }

    /// The graph without the edge `label` out of `source`.
    pub open spec fn without_edge(self, source: NodeId, label: Edge) -> GraphView {
        GraphView { children: self.children.remove((source, label)), ..self }
    }

    /// The graph after every owner of `from` has been handed `to`: each
    /// edge into `from` that is not a binder edge points at `to`, and `to`
    /// is the root if `from` was, and the focus if `from` was.
    pub open spec fn migrated(self, from: NodeId, to: NodeId) -> GraphView {
        GraphView {
            children: self.children_retargeted(from, to, false),
            root: if self.root == from {
                to
            } else {
                self.root
            },
            focus: if self.focus == from {
                to
            } else {
                self.focus
            },
            ..self
        }
    }

    /// The edges that leave `node`.
    pub open spec fn out_keys(self, node: NodeId) -> Set<(NodeId, Edge)> {
        Set::new(|k: (NodeId, Edge)| self.children.contains_key(k) && k.0 == node)
    }

    /// How many edges leave `node`.
    pub open spec fn out_degree(self, node: NodeId) -> nat {
        self.out_keys(node).len()
    }

    /// The same graph with the focus on `node`.
    pub open spec fn focused_on(self, node: NodeId) -> GraphView {
        GraphView { focus: node, ..self }
    }

    /// The graph after every reference to `from` has been pointed at `to`:
    /// each binder edge into `from` points at `to`.
    pub open spec fn rebound(self, from: NodeId, to: NodeId) -> GraphView {
        GraphView { children: self.children_retargeted(from, to, true), ..self }
    }

    /// Some edge touches `node`.
    pub open spec fn touched(self, node: NodeId) -> bool {
        exists|k: (NodeId, Edge)| #[trigger]
            self.children.contains_key(k) && (k.0 == node || self.children[k] == node)
    }

    /// Two different binder edges point at `node`: more than one variable
    /// or data node refers to it.
    pub open spec fn shared(self, node: NodeId) -> bool {
        exists|a: (NodeId, Edge), b: (NodeId, Edge)|
            #![trigger self.children.contains_key(a), self.children.contains_key(b)]
            a != b && self.refers(a, node) && self.refers(b, node)
    }

    /// The edge `k` is a binder edge that points at `node`.
    pub open spec fn refers(self, k: (NodeId, Edge), node: NodeId) -> bool {
        self.children.contains_key(k) && self.children[k] == node && k.1.is_binder()
    }

    /// Some binder edge points at `node`.
    pub open spec fn referenced(self, node: NodeId) -> bool {
        exists|k: (NodeId, Edge)| #[trigger] self.children.contains_key(k) && self.refers(k, node)
    }
}

pub open spec fn is_edge(edges: Map<u32, Link>, e: u32, source: NodeId, label: Edge) -> bool {
    edges.contains_key(e) && edges[e].source == source && edges[e].label == label
}

/// No two edges leave the same node under the same label.
pub open spec fn functional(edges: Map<u32, Link>) -> bool {
    forall|e1: u32, e2: u32|
        #![trigger edges.contains_key(e1), edges.contains_key(e2)]
        edges.contains_key(e1) && edges.contains_key(e2) && edges[e1].source == edges[e2].source
            && edges[e1].label == edges[e2].label ==> e1 == e2
}

pub open spec fn closed_under(nodes: Map<u32, Node>, edges: Map<u32, Link>) -> bool {
    forall|e: u32| #[trigger]
        edges.contains_key(e) ==> nodes.contains_key(edges[e].source) && nodes.contains_key(
            edges[e].target,
        )
}

pub open spec fn children_of(edges: Map<u32, Link>) -> Map<(NodeId, Edge), NodeId> {
    Map::new(
        |k: (NodeId, Edge)| exists|e: u32| is_edge(edges, e, k.0, k.1),
        |k: (NodeId, Edge)| edges[choose|e: u32| is_edge(edges, e, k.0, k.1)].target,
    )
}

pub open spec fn views_of(nodes: Map<u32, Node>) -> Map<NodeId, NodeView> {
    Map::new(|n: NodeId| nodes.contains_key(n), |n: NodeId| nodes[n]@)
}

proof fn lemma_child(edges: Map<u32, Link>, e: u32)
    requires
        functional(edges),
        edges.contains_key(e),
    ensures
        children_of(edges).contains_key((edges[e].source, edges[e].label)),
        children_of(edges)[(edges[e].source, edges[e].label)] == edges[e].target,
{
    let s = edges[e].source;
    let l = edges[e].label;
    assert(is_edge(edges, e, s, l));
    let k = (s, l);
    assert(is_edge(edges, e, k.0, k.1));
    assert(exists|x: u32| is_edge(edges, x, k.0, k.1));
    assert(children_of(edges).contains_key(k));
    let w = choose|w: u32| is_edge(edges, w, k.0, k.1);
    assert(is_edge(edges, w, s, l));
    assert(edges.contains_key(e) && edges.contains_key(w));
}

/// The expression graph.
pub struct AST {
    graph: Store,
    root: NodeId,
    focus: NodeId,
    next_uid: usize,
}

impl View for AST {
    type V = GraphView;

    closed spec fn view(&self) -> GraphView {
        GraphView {
            nodes: views_of(graph_nodes(self.graph)),
            children: children_of(graph_edges(self.graph)),
            root: self.root,
            focus: self.focus,
            next_uid: self.next_uid,
        }
    }
}

impl AST {
    /// The representation is sound: edges join live nodes and no node has
    /// two outgoing edges with one label.
    pub closed spec fn wf(&self) -> bool {
        &&& graph_nodes(self.graph).dom().finite()
        &&& graph_edges(self.graph).dom().finite()
        &&& graph_edges(self.graph).dom().len() <= u32::MAX
        &&& closed_under(graph_nodes(self.graph), graph_edges(self.graph))
        &&& functional(graph_edges(self.graph))
    }

    /// The number of edges in the graph.
    pub closed spec fn edge_total(&self) -> nat {
        graph_edges(self.graph).dom().len()
    }

    /// In a sound graph every edge of the view joins two live nodes, and
    /// the edges fit the index space.
    pub proof fn lemma_linked(&self)
        requires
            self.wf(),
        ensures
            self@.linked(),
            self.edge_total() <= u32::MAX,
    {
        let edges = graph_edges(self.graph);
        assert(self@.nodes.dom() =~= graph_nodes(self.graph).dom());
        assert forall|k: (NodeId, Edge)| #[trigger] self@.children.contains_key(k) implies (
        self@.nodes.contains_key(k.0) && self@.nodes.contains_key(self@.children[k])) by {
            let e = choose|e: u32| is_edge(edges, e, k.0, k.1);
            assert(edges.contains_key(e));
        }
    }

    /// Each edge is one entry among the children of the view: there are
    /// as many of the one as of the other.
    pub proof fn lemma_edge_total(&self)
        requires
            self.wf(),
        ensures
            self@.children.dom().finite(),
            self@.nodes.dom().finite(),
            self.edge_total() == self@.children.dom().len(),
    {
        let edges = graph_edges(self.graph);
        let key = |e: u32| (edges[e].source, edges[e].label);
        assert(self@.nodes.dom() =~= graph_nodes(self.graph).dom());
        assert(vstd::relations::injective_on(key, edges.dom())) by {
            assert forall|a: u32, b: u32|
                edges.dom().contains(a) && edges.dom().contains(b) && #[trigger] key(a)
                    == #[trigger] key(b) implies a == b by {
                assert(edges.contains_key(a) && edges.contains_key(b));
            }
        }
        assert(edges.dom().map(key) =~= self@.children.dom()) by {
            assert forall|k: (NodeId, Edge)| edges.dom().map(key).contains(k)
                <==> self@.children.dom().contains(k) by {
                if edges.dom().map(key).contains(k) {
                    let e = choose|e: u32| edges.dom().contains(e) && k == key(e);
                    assert(is_edge(edges, e, k.0, k.1));
                }
                if self@.children.dom().contains(k) {
                    let e = choose|e: u32| is_edge(edges, e, k.0, k.1);
                    assert(edges.dom().contains(e) && k == key(e));
                }
            }
        }
        vstd::set_lib::lemma_map_size(edges.dom(), self@.children.dom(), key);
    }

    /// An empty graph. Its root is index 0, which names no node yet.
    pub fn new() -> (r: Self)
        ensures
            r.wf(),
            r@.nodes == Map::<NodeId, NodeView>::empty(),
            r@.children == Map::<(NodeId, Edge), NodeId>::empty(),
            r@.root == 0,
            r@.focus == 0,
            r@.next_uid == 0,
            r.edge_total() == 0,
    {
        let r = AST { graph: graph_new(), root: 0, focus: 0, next_uid: 0 };
        proof {
            assert(graph_nodes(r.graph).dom() =~= Set::<u32>::empty());
            assert(graph_edges(r.graph).dom() =~= Set::<u32>::empty());
            assert(r@.nodes =~= Map::<NodeId, NodeView>::empty());
            assert(r@.children =~= Map::<(NodeId, Edge), NodeId>::empty());
        }
        r
    }

    /// The designated root.
    pub fn root(&self) -> (r: NodeId)
        ensures
            r == self@.root,
    {
        self.root
    }

    /// Makes `node` the root.
    pub fn set_root(&mut self, node: NodeId)
        requires
            old(self).wf(),
        ensures
            final(self).wf(),
            final(self)@ == (GraphView { root: node, ..old(self)@ }),
            final(self).edge_total() == old(self).edge_total(),
    {
        self.root = node;
    }

    /// The focus.
    pub fn focus(&self) -> (r: NodeId)
        ensures
            r == self@.focus,
    {
        self.focus
    }

    /// Puts the focus on `node`.
    pub fn set_focus(&mut self, node: NodeId)
        requires
            old(self).wf(),
        ensures
            final(self).wf(),
            final(self)@ == old(self)@.focused_on(node),
            final(self).edge_total() == old(self).edge_total(),
    {
        self.focus = node;
    }

    /// The number of live nodes.
    pub fn node_count(&self) -> (r: usize)
        requires
            self.wf(),
        ensures
            r == self@.nodes.dom().len(),
    {
        proof {
            assert(self@.nodes.dom() =~= graph_nodes(self.graph).dom());
        }
        graph_node_count(&self.graph)
    }

    /// The number of edges.
    pub fn edge_count(&self) -> (r: usize)
        requires
            self.wf(),
        ensures
            r == self.edge_total(),
    {
        graph_edge_count(&self.graph)
    }

    /// Whether `node` is live.
    pub fn contains_node(&self, node: NodeId) -> (r: bool)
        ensures
            r == self@.nodes.contains_key(node),
    {
        graph_node_weight(&self.graph, node).is_some()
    }

    /// The node at `node`, if it is live.
    pub fn node(&self, node: NodeId) -> (r: Option<&Node>)
        ensures
            r is Some == self@.nodes.contains_key(node),
            r is Some ==> r->Some_0@ == self@.nodes[node],
    {
        graph_node_weight(&self.graph, node)
    }

    /// Adds a node and returns its index, which no live node had. Fails
    /// with `Full` when the index space is used up.
    pub fn add_node(&mut self, node: Node) -> (r: Result<NodeId, ASTError>)
        requires
            old(self).wf(),
        ensures
            final(self).wf(),
            final(self).edge_total() == old(self).edge_total(),
            match r {
                Ok(id) => !old(self)@.nodes.contains_key(id) && final(self)@ == old(
                    self,
                )@.with_node(id, node@),
                Err(e) => e is Full && old(self)@.nodes.dom().len() >= u32::MAX && final(self)@
                    == old(self)@,
            },
            r is Ok <==> old(self)@.nodes.dom().len() < u32::MAX,
            r is Ok ==> final(self)@.nodes.dom().len() == old(self)@.nodes.dom().len() + 1,
    {
        proof {
            assert(self@.nodes.dom() =~= graph_nodes(self.graph).dom());
        }
        if graph_node_count(&self.graph) >= u32::MAX as usize {
            return Err(ASTError::Full);
        }
        let ghost before = graph_nodes(self.graph);
        let id = graph_add_node(&mut self.graph, node);
        proof {
            assert(self@.nodes =~= old(self)@.nodes.insert(id, node@));
            assert(self@.nodes.dom() =~= old(self)@.nodes.dom().insert(id));
        }
        Ok(id)
    }

    /// The target of the edge `label` out of `node`.
    pub fn follow_edge(&self, node: NodeId, label: Edge) -> (r: Result<NodeId, ASTError>)
        requires
            self.wf(),
        ensures
            match r {
                Ok(target) => self@.child(node, label) == Some(target),
                Err(e) => self@.child(node, label) is None && e == ASTError::EdgeNotFound(
                    node,
                    label,
                ),
            },
    {
        match self.find_edge(node, label) {
            Some(record) => Ok(record.target),
            None => Err(ASTError::EdgeNotFound(node, label)),
        }
    }

    /// The edge `label` out of `node` as the container holds it.
    fn find_edge(&self, node: NodeId, label: Edge) -> (r: Option<EdgeRecord>)
        requires
            self.wf(),
        ensures
            match r {
                Some(record) => is_edge(graph_edges(self.graph), record.id, node, label)
                    && graph_edges(self.graph)[record.id] == record.link() && self@.child(
                    node,
                    label,
                ) == Some(record.target),
                None => self@.child(node, label) is None && forall|e: u32|
                    !is_edge(graph_edges(self.graph), e, node, label),
            },
    {
        let records = graph_outgoing(&self.graph, node);
        let ghost edges = graph_edges(self.graph);
        let mut i: usize = 0;
        while i < records.len()
            invariant
                0 <= i <= records.len(),
                self.wf(),
                edges == graph_edges(self.graph),
                lists_outgoing(records@, edges, node),
                forall|j: int| 0 <= j < i ==> records@[j].label != label,
            decreases records.len() - i,
        {
            let record = records[i];
            if record.label == label {
                proof {
                    assert(edges.contains_key(records@[i as int].id));
                    lemma_child(edges, record.id);
                }
                return Some(record);
            }
            i += 1;
        }
        proof {
            assert forall|e: u32| !is_edge(edges, e, node, label) by {
                if is_edge(edges, e, node, label) {
                    assert(edges.contains_key(e));
                    let j = choose|j: int| 0 <= j < records@.len()
                        && (#[trigger] records@[j]).id == e;
                    assert(edges.contains_key(records@[j].id));
                }
            }
        }
        None
    }

    /// Adds the edge `label` from `source` to `target`. Both must be live
    /// and `source` must not have an edge with that label yet.
    pub fn add_edge(&mut self, source: NodeId, target: NodeId, label: Edge) -> (r: Result<
        (),
        ASTError,
    >)
        requires
            old(self).wf(),
        ensures
            final(self).wf(),
            r is Ok <==> old(self)@.nodes.contains_key(source) && old(self)@.nodes.contains_key(
                target,
            ) && old(self)@.child(source, label) is None && old(self).edge_total() < u32::MAX,
            r is Ok ==> final(self)@ == old(self)@.with_edge(source, label, target)
                && final(self).edge_total() == old(self).edge_total() + 1,
            r is Err ==> final(self)@ == old(self)@ && final(self).edge_total() == old(
                self,
            ).edge_total(),
            match r {
                Ok(_) => true,
                Err(e) => if !old(self)@.nodes.contains_key(source) {
                    e == ASTError::Custom(source, "no such node")
                } else if !old(self)@.nodes.contains_key(target) {
                    e == ASTError::Custom(target, "no such node")
                } else if old(self)@.child(source, label) is Some {
                    e == ASTError::Custom(source, "edge already present")
                } else {
                    e is Full
                },
            },
    {
        if !self.contains_node(source) {
            return Err(ASTError::Custom(source, "no such node"));
        }
        if !self.contains_node(target) {
            return Err(ASTError::Custom(target, "no such node"));
        }
        if self.find_edge(source, label).is_some() {
            return Err(ASTError::Custom(source, "edge already present"));
        }
        if graph_edge_count(&self.graph) >= u32::MAX as usize {
            return Err(ASTError::Full);
        }
        let ghost edges = graph_edges(self.graph);
        let id = graph_add_edge(&mut self.graph, source, target, label);
        proof {
            let after = graph_edges(self.graph);
            assert(functional(after)) by {
                assert forall|e1: u32, e2: u32|
                    after.contains_key(e1) && after.contains_key(e2) && after[e1].source
                        == after[e2].source && after[e1].label == after[e2].label implies e1
                    == e2 by {
                    if e1 == id && e2 != id {
                        assert(is_edge(edges, e2, source, label));
                    }
                    if e2 == id && e1 != id {
                        assert(is_edge(edges, e1, source, label));
                    }
                    if e1 != id && e2 != id {
                        assert(edges.contains_key(e1) && edges.contains_key(e2));
                    }
                }
            }
            lemma_insert_edge(edges, id, Link { source, target, label });
        }
        Ok(())
    }
}

/// An edge of the graph.
#[derive(Clone, Copy, Debug, PartialEq, Eq, Structural)]
pub struct Arrow {
    pub source: NodeId,
    pub label: Edge,
    pub target: NodeId,
}

impl Arrow {
    pub open spec fn key(self) -> (NodeId, Edge) {
        (self.source, self.label)
    }
}

/// `arrows` are edges of `children`, each listed once.
pub open spec fn lists_arrows(arrows: Seq<Arrow>, children: Map<(NodeId, Edge), NodeId>) -> bool {
    &&& forall|i: int|
        0 <= i < arrows.len() ==> children.contains_key(#[trigger] arrows[i].key())
            && children[arrows[i].key()] == arrows[i].target
    &&& forall|i: int, j: int|
        0 <= i < j < arrows.len() ==> (#[trigger] arrows[i]).key() != (#[trigger] arrows[j]).key()
}

/// Some arrow of the list has key `k`.
pub open spec fn lists_key(arrows: Seq<Arrow>, k: (NodeId, Edge)) -> bool {
    exists|i: int| 0 <= i < arrows.len() && (#[trigger] arrows[i]).key() == k
}

/// `arrows` lists, each once, exactly the edges that leave `node`.
pub open spec fn lists_children_of(
    arrows: Seq<Arrow>,
    children: Map<(NodeId, Edge), NodeId>,
    node: NodeId,
) -> bool {
    &&& lists_arrows(arrows, children)
    &&& forall|i: int| 0 <= i < arrows.len() ==> (#[trigger] arrows[i]).source == node
    &&& forall|k: (NodeId, Edge)| #[trigger]
        children.contains_key(k) && k.0 == node ==> lists_key(arrows, k)
}

/// A list of the edges that leave a node is as long as there are such
/// edges.
pub proof fn lemma_out_degree(v: GraphView, arrows: Seq<Arrow>, node: NodeId)
    requires
        lists_children_of(arrows, v.children, node),
    ensures
        v.out_keys(node).finite(),
        arrows.len() == v.out_degree(node),
{
    let indices = vstd::set_lib::set_int_range(0, arrows.len() as int);
    let key = |i: int| arrows[i].key();
    vstd::set_lib::lemma_int_range(0, arrows.len() as int);
    assert(vstd::relations::injective_on(key, indices)) by {
        assert forall|a: int, b: int|
            indices.contains(a) && indices.contains(b) && #[trigger] key(a) == #[trigger] key(
                b,
            ) implies a == b by {
            if a < b {
                assert(arrows[a].key() != arrows[b].key());
            }
            if b < a {
                assert(arrows[b].key() != arrows[a].key());
            }
        }
    }
    assert(indices.map(key) =~= v.out_keys(node)) by {
        assert forall|k: (NodeId, Edge)| indices.map(key).contains(k) <==> v.out_keys(
            node,
        ).contains(k) by {
            if indices.map(key).contains(k) {
                let i = choose|i: int| indices.contains(i) && k == key(i);
                assert(v.children.contains_key(arrows[i].key()));
                assert(arrows[i].source == node);
            }
            if v.out_keys(node).contains(k) {
                assert(lists_key(arrows, k));
                let i = choose|i: int| 0 <= i < arrows.len() && (#[trigger] arrows[i]).key() == k;
                assert(indices.contains(i) && k == key(i));
            }
        }
    }
    vstd::set_lib::lemma_map_size(indices, v.out_keys(node), key);
}

/// `arrows` lists, each once, exactly the edges that enter `node`.
pub open spec fn lists_parents_of(
    arrows: Seq<Arrow>,
    children: Map<(NodeId, Edge), NodeId>,
    node: NodeId,
) -> bool {
    &&& lists_arrows(arrows, children)
    &&& forall|i: int| 0 <= i < arrows.len() ==> (#[trigger] arrows[i]).target == node
    &&& forall|k: (NodeId, Edge)| #[trigger]
        children.contains_key(k) && children[k] == node ==> lists_key(arrows, k)
}

/// `arrows` lists, each once, exactly the binder edges that enter `node`.
pub open spec fn lists_references_to(
    arrows: Seq<Arrow>,
    children: Map<(NodeId, Edge), NodeId>,
    node: NodeId,
) -> bool {
    &&& lists_arrows(arrows, children)
    &&& forall|i: int|
        0 <= i < arrows.len() ==> (#[trigger] arrows[i]).target == node
            && arrows[i].label.is_binder()
    &&& forall|k: (NodeId, Edge)| #[trigger]
        children.contains_key(k) && children[k] == node && k.1.is_binder() ==> lists_key(
            arrows,
            k,
        )
}

fn arrows_of(records: &Vec<EdgeRecord>) -> (r: Vec<Arrow>)
    ensures
        r@.len() == records@.len(),
        forall|i: int|
            0 <= i < r@.len() ==> (#[trigger] r@[i]) == (Arrow {
                source: records@[i].source,
                label: records@[i].label,
                target: records@[i].target,
            }),
{
    let mut arrows: Vec<Arrow> = Vec::new();
    let mut i: usize = 0;
    while i < records.len()
        invariant
            0 <= i <= records.len(),
            arrows@.len() == i,
            forall|j: int|
                0 <= j < i ==> (#[trigger] arrows@[j]) == (Arrow {
                    source: records@[j].source,
                    label: records@[j].label,
                    target: records@[j].target,
                }),
        decreases records.len() - i,
    {
        let record = records[i];
        arrows.push(Arrow { source: record.source, label: record.label, target: record.target });
        i += 1;
    }
    arrows
}

proof fn lemma_arrows(edges: Map<u32, Link>, records: Seq<EdgeRecord>, arrows: Seq<Arrow>)
    requires
        functional(edges),
        arrows.len() == records.len(),
        forall|i: int|
            0 <= i < arrows.len() ==> (#[trigger] arrows[i]) == (Arrow {
                source: records[i].source,
                label: records[i].label,
                target: records[i].target,
            }),
        forall|i: int|
            0 <= i < records.len() ==> edges.contains_key(#[trigger] records[i].id)
                && edges[records[i].id] == records[i].link(),
        forall|i: int, j: int|
            0 <= i < j < records.len() ==> (#[trigger] records[i]).id != (
            #[trigger] records[j]).id,
    ensures
        lists_arrows(arrows, children_of(edges)),
{
    assert forall|i: int| 0 <= i < arrows.len() implies children_of(edges).contains_key(
        #[trigger] arrows[i].key(),
    ) && children_of(edges)[arrows[i].key()] == arrows[i].target by {
        assert(edges.contains_key(records[i].id));
        lemma_child(edges, records[i].id);
    }
    assert forall|i: int, j: int| 0 <= i < j < arrows.len() implies (#[trigger] arrows[i]).key()
        != (#[trigger] arrows[j]).key() by {
        assert(edges.contains_key(records[i].id));
        assert(edges.contains_key(records[j].id));
        assert(records[i].id != records[j].id);
    }
}

impl AST {
    /// The edges that leave `node`, each once.
    pub fn outgoing(&self, node: NodeId) -> (r: Vec<Arrow>)
        requires
            self.wf(),
        ensures
            lists_children_of(r@, self@.children, node),
            r@.len() == self@.out_degree(node),
    {
        let records = graph_outgoing(&self.graph, node);
        let arrows = arrows_of(&records);
        proof {
            let edges = graph_edges(self.graph);
            lemma_arrows(edges, records@, arrows@);
            assert forall|k: (NodeId, Edge)| #[trigger]
                self@.children.contains_key(k) && k.0 == node implies lists_key(arrows@, k) by {
                let e = choose|e: u32| is_edge(edges, e, k.0, k.1);
                assert(edges.contains_key(e));
                let i = choose|i: int| 0 <= i < records@.len() && (#[trigger] records@[i]).id == e;
                assert(edges.contains_key(records@[i].id));
                assert(arrows@[i].key() == k);
            }
            assert forall|i: int| 0 <= i < arrows@.len() implies (#[trigger] arrows@[i]).source
                == node by {
                assert(edges.contains_key(records@[i].id));
            }
            lemma_out_degree(self@, arrows@, node);
        }
        arrows
    }

    /// The edges that enter `node`, each once.
    pub fn incoming(&self, node: NodeId) -> (r: Vec<Arrow>)
        requires
            self.wf(),
        ensures
            lists_parents_of(r@, self@.children, node),
    {
        let records = graph_incoming(&self.graph, node);
        let arrows = arrows_of(&records);
        proof {
            let edges = graph_edges(self.graph);
            lemma_arrows(edges, records@, arrows@);
            assert forall|k: (NodeId, Edge)| #[trigger]
                self@.children.contains_key(k) && self@.children[k] == node implies lists_key(
                arrows@,
                k,
            ) by {
                let e = choose|e: u32| is_edge(edges, e, k.0, k.1);
                assert(edges.contains_key(e));
                lemma_child(edges, e);
                let i = choose|i: int| 0 <= i < records@.len() && (#[trigger] records@[i]).id == e;
                assert(edges.contains_key(records@[i].id));
                assert(arrows@[i].key() == k);
            }
            assert forall|i: int| 0 <= i < arrows@.len() implies (#[trigger] arrows@[i]).target
                == node by {
                assert(edges.contains_key(records@[i].id));
            }
        }
        arrows
    }

    /// The binder edges that enter `node`, each once: the references to it.
    pub fn binder_references(&self, node: NodeId) -> (r: Vec<Arrow>)
        requires
            self.wf(),
        ensures
            lists_references_to(r@, self@.children, node),
    {
        let all = self.incoming(node);
        let mut references: Vec<Arrow> = Vec::new();
        let ghost mut origin: Seq<int> = Seq::empty();
        let mut i: usize = 0;
        while i < all.len()
            invariant
                0 <= i <= all.len(),
                lists_parents_of(all@, self@.children, node),
                origin.len() == references@.len(),
                forall|j: int|
                    0 <= j < references@.len() ==> 0 <= #[trigger] origin[j] < i
                        && references@[j] == all@[origin[j]] && references@[j].label.is_binder(),
                forall|j: int, k: int|
                    0 <= j < k < references@.len() ==> #[trigger] origin[j] < #[trigger] origin[k],
                forall|m: int|
                    0 <= m < i && (#[trigger] all@[m]).label.is_binder() ==> lists_key(
                        references@,
                        all@[m].key(),
                    ),
            decreases all.len() - i,
        {
            let arrow = all[i];
            if arrow.label.is_reference() {
                let ghost before = references@;
                references.push(arrow);
                proof {
                    origin = origin.push(i as int);
                    assert forall|m: int|
                        0 <= m < i + 1 && (#[trigger] all@[m]).label.is_binder() implies lists_key(
                        references@,
                        all@[m].key(),
                    ) by {
                        if m < i {
                            let w = choose|w: int|
                                0 <= w < before.len() && (#[trigger] before[w]).key()
                                    == all@[m].key();
                            assert(references@[w].key() == all@[m].key());
                        } else {
                            assert(references@[references@.len() - 1].key() == all@[m].key());
                        }
                    }
                }
            }
            i += 1;
        }
        proof {
            assert forall|k: (NodeId, Edge)| #[trigger]
                self@.children.contains_key(k) && self@.children[k] == node
                    && k.1.is_binder() implies lists_key(references@, k) by {
                assert(lists_key(all@, k));
                let m = choose|m: int| 0 <= m < all@.len() && (#[trigger] all@[m]).key() == k;
                assert(all@[m].label.is_binder());
            }
            assert forall|j: int, k: int| 0 <= j < k < references@.len() implies (
            #[trigger] references@[j]).key() != (#[trigger] references@[k]).key() by {
                assert(origin[j] < origin[k]);
            }
            assert forall|j: int| 0 <= j < references@.len() implies self@.children.contains_key(
                #[trigger] references@[j].key(),
            ) && self@.children[references@[j].key()] == references@[j].target by {
                assert(references@[j] == all@[origin[j]]);
                assert(self@.children.contains_key(all@[origin[j]].key()));
            }
            assert forall|j: int| 0 <= j < references@.len() implies (
            #[trigger] references@[j]).target == node && references@[j].label.is_binder() by {
                assert(references@[j] == all@[origin[j]]);
            }
        }
        references
    }

    /// Removes the edge `label` out of `source` and returns its target.
    pub fn remove_edge(&mut self, source: NodeId, label: Edge) -> (r: Option<NodeId>)
        requires
            old(self).wf(),
        ensures
            final(self).wf(),
            r == old(self)@.child(source, label),
            final(self)@ == old(self)@.without_edge(source, label),
            final(self).edge_total() == old(self).edge_total() - (if r is Some {
                1int
            } else {
                0
            }),
    {
        match self.find_edge(source, label) {
            None => {
                proof {
                    assert(self@.children.remove((source, label)) =~= self@.children);
                }
                None
            },
            Some(record) => {
                let ghost edges = graph_edges(self.graph);
                let _ = graph_remove_edge(&mut self.graph, record.id);
                proof {
                    lemma_remove_edge(edges, record.id);
                }
                Some(record.target)
            },
        }
    }

    /// Removes `node` with every edge that leaves or enters it, and returns
    /// what it held.
    pub fn remove_node(&mut self, node: NodeId) -> (r: Option<Node>)
        requires
            old(self).wf(),
        ensures
            final(self).wf(),
            r is Some == old(self)@.nodes.contains_key(node),
            r is Some ==> r->Some_0@ == old(self)@.nodes[node],
            final(self)@ == old(self)@.without_node(node),
            final(self).edge_total() <= old(self).edge_total(),
            old(self)@.touched(node) ==> final(self).edge_total() < old(self).edge_total(),
    {
        let ghost edges = graph_edges(self.graph);
        let removed = graph_remove_node(&mut self.graph, node);
        proof {
            let after = graph_edges(self.graph);
            assert(after.dom().subset_of(edges.dom()));
            vstd::set_lib::lemma_len_subset(after.dom(), edges.dom());
            if old(self)@.touched(node) {
                let k = choose|k: (NodeId, Edge)| #[trigger]
                    old(self)@.children.contains_key(k) && (k.0 == node || old(
                        self,
                    )@.children[k] == node);
                let e = choose|e: u32| is_edge(edges, e, k.0, k.1);
                lemma_child(edges, e);
                assert(edges.dom().contains(e));
                assert(after.dom().subset_of(edges.dom().remove(e)));
                vstd::set_lib::lemma_len_subset(after.dom(), edges.dom().remove(e));
            }
            assert(self@.nodes =~= old(self)@.nodes.remove(node));
            assert(functional(after)) by {
                assert forall|e1: u32, e2: u32|
                    after.contains_key(e1) && after.contains_key(e2) && after[e1].source
                        == after[e2].source && after[e1].label == after[e2].label implies e1
                    == e2 by {
                    assert(edges.contains_key(e1) && edges.contains_key(e2));
                }
            }
            assert(closed_under(graph_nodes(self.graph), after)) by {
                assert forall|e: u32| #[trigger] after.contains_key(e) implies graph_nodes(
                    self.graph,
                ).contains_key(after[e].source) && graph_nodes(self.graph).contains_key(
                    after[e].target,
                ) by {
                    assert(edges.contains_key(e));
                }
            }
            let lhs = children_of(after);
            let rhs = old(self)@.children_without(node);
            assert forall|k: (NodeId, Edge)| lhs.contains_key(k) == rhs.contains_key(k) by {
                if lhs.contains_key(k) {
                    let e = choose|e: u32| is_edge(after, e, k.0, k.1);
                    assert(is_edge(edges, e, k.0, k.1));
                    lemma_child(edges, e);
                }
                if rhs.contains_key(k) {
                    let e = choose|e: u32| is_edge(edges, e, k.0, k.1);
                    lemma_child(edges, e);
                    assert(is_edge(after, e, k.0, k.1));
                }
            }
            assert forall|k: (NodeId, Edge)| lhs.contains_key(k) implies lhs[k] == rhs[k] by {
                let e = choose|e: u32| is_edge(after, e, k.0, k.1);
                lemma_child(after, e);
                assert(is_edge(edges, e, k.0, k.1));
                lemma_child(edges, e);
            }
            assert(lhs =~= rhs);
        }
        removed
    }

    /// Puts `weight` in place of what `node` holds; the edges stay. Fails
    /// when `node` is not live.
    pub fn replace_node(&mut self, node: NodeId, weight: Node) -> (r: Result<(), ASTError>)
        requires
            old(self).wf(),
        ensures
            final(self).wf(),
            final(self).edge_total() == old(self).edge_total(),
            r is Ok == old(self)@.nodes.contains_key(node),
            r is Ok ==> final(self)@ == old(self)@.with_node(node, weight@),
            r is Err ==> final(self)@ == old(self)@ && r->Err_0 == ASTError::Custom(
                node,
                "no such node",
            ),
    {
        if !self.contains_node(node) {
            return Err(ASTError::Custom(node, "no such node"));
        }
        graph_set_node_weight(&mut self.graph, node, weight);
        proof {
            assert(self@.nodes =~= old(self)@.nodes.insert(node, weight@));
            assert(graph_nodes(self.graph).dom() =~= graph_nodes(old(self).graph).dom());
        }
        Ok(())
    }

    /// Makes the edge `label` out of `source` point at `target`.
    pub fn redirect_edge(&mut self, source: NodeId, label: Edge, target: NodeId) -> (r: Result<
        (),
        ASTError,
    >)
        requires
            old(self).wf(),
        ensures
            final(self).wf(),
            final(self).edge_total() == old(self).edge_total(),
            r is Ok <==> old(self)@.child(source, label) is Some && old(self)@.nodes.contains_key(
                target,
            ),
            r is Ok ==> final(self)@ == old(self)@.with_edge(source, label, target),
            r is Err ==> final(self)@ == old(self)@,
            r is Err ==> r->Err_0 == (if old(self)@.child(source, label) is None {
                ASTError::EdgeNotFound(source, label)
            } else {
                ASTError::Custom(target, "no such node")
            }),
    {
        let record = match self.find_edge(source, label) {
            None => {
                return Err(ASTError::EdgeNotFound(source, label));
            },
            Some(record) => record,
        };
        if !self.contains_node(target) {
            return Err(ASTError::Custom(target, "no such node"));
        }
        let ghost edges = graph_edges(self.graph);
        let _ = graph_remove_edge(&mut self.graph, record.id);
        let ghost middle = graph_edges(self.graph);
        proof {
            lemma_remove_edge(edges, record.id);
            assert(closed_under(graph_nodes(self.graph), edges));
            assert(edges.contains_key(record.id));
            assert(edges.dom().contains(record.id));
            assert(middle.dom() =~= edges.dom().remove(record.id));
        }
        let id = graph_add_edge(&mut self.graph, source, target, label);
        proof {
            let after = graph_edges(self.graph);
            assert forall|e: u32| !is_edge(middle, e, source, label) by {
                if is_edge(middle, e, source, label) {
                    assert(edges.contains_key(e) && edges.contains_key(record.id));
                }
            }
            assert(functional(after)) by {
                assert forall|e1: u32, e2: u32|
                    after.contains_key(e1) && after.contains_key(e2) && after[e1].source
                        == after[e2].source && after[e1].label == after[e2].label implies e1
                    == e2 by {
                    if e1 == id && e2 != id {
                        assert(is_edge(middle, e2, source, label));
                    }
                    if e2 == id && e1 != id {
                        assert(is_edge(middle, e1, source, label));
                    }
                    if e1 != id && e2 != id {
                        assert(middle.contains_key(e1) && middle.contains_key(e2));
                    }
                }
            }
            lemma_insert_edge(middle, id, Link { source, target, label });
            assert(old(self)@.children.remove((source, label)).insert((source, label), target)
                =~= old(self)@.children.insert((source, label), target));
        }
        Ok(())
    }

    /// Redirects to `to` the edges into `from`: the binder edges if
    /// `binders` is set, the other edges if it is not.
    fn retarget(&mut self, from: NodeId, to: NodeId, binders: bool)
        requires
            old(self).wf(),
            old(self)@.nodes.contains_key(to),
        ensures
            final(self).wf(),
            final(self).edge_total() == old(self).edge_total(),
            final(self)@ == (GraphView {
                children: old(self)@.children_retargeted(from, to, binders),
                ..old(self)@
            }),
    {
        let parents = self.incoming(from);
        let ghost before = self@;
        let mut i: usize = 0;
        while i < parents.len()
            invariant
                0 <= i <= parents.len(),
                self.wf(),
                before == old(self)@,
                before.nodes.contains_key(to),
                lists_parents_of(parents@, before.children, from),
                self.edge_total() == old(self).edge_total(),
                self@.nodes == before.nodes,
                self@.root == before.root,
                self@.focus == before.focus,
                self@.next_uid == before.next_uid,
                self@.children.dom() == before.children.dom(),
                forall|k: (NodeId, Edge)| #[trigger]
                    before.children.contains_key(k) ==> self@.children[k] == (if (exists|j: int|
                        0 <= j < i && (#[trigger] parents@[j]).key() == k)
                            && k.1.is_binder() == binders {
                        to
                    } else {
                        before.children[k]
                    }),
            decreases parents.len() - i,
        {
            let arrow = parents[i];
            if arrow.label.is_reference() == binders {
                let ghost prior = self@.children;
                proof {
                    assert(before.children.contains_key(parents@[i as int].key()));
                    assert(self@.children.dom().contains(arrow.key()));
                }
                let step = self.redirect_edge(arrow.source, arrow.label, to);
                proof {
                    assert(step is Ok);
                    assert(self@.children.dom() =~= before.children.dom());
                    assert forall|k: (NodeId, Edge)| #[trigger]
                        before.children.contains_key(k) implies self@.children[k] == (if (exists|
                        j: int,
                    |
                        0 <= j < i + 1 && (#[trigger] parents@[j]).key() == k)
                        && k.1.is_binder() == binders {
                        to
                    } else {
                        before.children[k]
                    }) by {
                        if k == arrow.key() {
                            assert(parents@[i as int].key() == k);
                        } else {
                            assert(self@.children[k] == prior[k]);
                            if exists|j: int| 0 <= j < i + 1
                                && (#[trigger] parents@[j]).key() == k {
                                let j = choose|j: int|
                                    0 <= j < i + 1 && (#[trigger] parents@[j]).key() == k;
                                assert(j < i);
                            }
                        }
                    }
                }
            } else {
                proof {
                    assert forall|k: (NodeId, Edge)| #[trigger]
                        before.children.contains_key(k) implies self@.children[k] == (if (exists|
                        j: int,
                    |
                        0 <= j < i + 1 && (#[trigger] parents@[j]).key() == k)
                        && k.1.is_binder() == binders {
                        to
                    } else {
                        before.children[k]
                    }) by {
                        if exists|j: int| 0 <= j < i + 1 && (#[trigger] parents@[j]).key() == k {
                            let j = choose|j: int|
                                0 <= j < i + 1 && (#[trigger] parents@[j]).key() == k;
                            if j == i {
                                assert(k.1.is_binder() != binders);
                            } else {
                                assert(j < i);
                            }
                        }
                    }
                }
            }
            i += 1;
        }
        proof {
            let target = before.children_retargeted(from, to, binders);
            assert forall|k: (NodeId, Edge)| target.contains_key(k) implies self@.children[k]
                == target[k] by {
                assert(before.children.contains_key(k));
                if before.children[k] == from {
                    assert(lists_key(parents@, k));
                    let j = choose|j: int|
                        0 <= j < parents@.len() && (#[trigger] parents@[j]).key() == k;
                    assert(0 <= j < i && parents@[j].key() == k);
                } else {
                    if exists|j: int| 0 <= j < i && (#[trigger] parents@[j]).key() == k {
                        let j = choose|j: int| 0 <= j < i && (#[trigger] parents@[j]).key() == k;
                        assert(before.children[parents@[j].key()] == parents@[j].target);
                        assert(parents@[j].target == from);
                    }
                }
            }
            assert(self@.children =~= target);
        }
    }

    /// Hands every owner of `from` the node `to`: each edge into `from`
    /// that is not a binder edge is redirected to `to`, and if `from` was
    /// the root or the focus, `to` becomes that. Fails when `to` is not
    /// live.
    pub fn migrate_node(&mut self, from: NodeId, to: NodeId) -> (r: Result<(), ASTError>)
        requires
            old(self).wf(),
        ensures
            final(self).wf(),
            final(self).edge_total() == old(self).edge_total(),
            r is Ok == old(self)@.nodes.contains_key(to),
            r is Ok ==> final(self)@ == old(self)@.migrated(from, to),
            r is Err ==> final(self)@ == old(self)@ && r->Err_0 == ASTError::Custom(
                to,
                "no such node",
            ),
    {
        if !self.contains_node(to) {
            return Err(ASTError::Custom(to, "no such node"));
        }
        self.retarget(from, to, false);
        if self.root == from {
            self.root = to;
        }
        if self.focus == from {
            self.focus = to;
        }
        Ok(())
    }

    /// Points every reference to `from` at `to`: each binder edge into
    /// `from` is redirected to `to`. Fails when `to` is not live.
    pub fn rebind(&mut self, from: NodeId, to: NodeId) -> (r: Result<(), ASTError>)
        requires
            old(self).wf(),
        ensures
            final(self).wf(),
            final(self).edge_total() == old(self).edge_total(),
            r is Ok == old(self)@.nodes.contains_key(to),
            r is Ok ==> final(self)@ == old(self)@.rebound(from, to),
            r is Err ==> final(self)@ == old(self)@ && r->Err_0 == ASTError::Custom(
                to,
                "no such node",
            ),
    {
        if !self.contains_node(to) {
            return Err(ASTError::Custom(to, "no such node"));
        }
        self.retarget(from, to, true);
        Ok(())
    }

    /// The owner of `node`: the one edge into it that is neither a binder
    /// edge nor a debug edge. Fails when there is none or more than one.
    pub fn get_parent(&self, node: NodeId) -> (r: Result<(NodeId, Edge), ASTError>)
        requires
            self.wf(),
        ensures
            match r {
                Ok(k) => self@.owns(k, node) && forall|other: (NodeId, Edge)|
                    self@.owns(other, node) ==> other == k,
                Err(e) => e == ASTError::ParentError(node) && !exists|k: (NodeId, Edge)|
                    self@.owns(k, node) && forall|other: (NodeId, Edge)| #[trigger]
                        self@.owns(other, node) ==> other == k,
            },
    {
        let parents = self.incoming(node);
        let mut found: Option<(NodeId, Edge)> = None;
        let ghost mut at: int = 0;
        let mut i: usize = 0;
        while i < parents.len()
            invariant
                0 <= i <= parents.len(),
                lists_parents_of(parents@, self@.children, node),
                match found {
                    Some(k) => 0 <= at < i && parents@[at].key() == k && self@.owns(k, node)
                        && forall|j: int|
                        0 <= j < i && self@.owns((#[trigger] parents@[j]).key(), node) ==> j
                            == at,
                    None => forall|j: int|
                        0 <= j < i ==> !self@.owns((#[trigger] parents@[j]).key(), node),
                },
            decreases parents.len() - i,
        {
            let arrow = parents[i];
            proof {
                assert(self@.children.contains_key(parents@[i as int].key()));
            }
            let owning = match arrow.label {
                Edge::Body | Edge::Parameter | Edge::Function => true,
                _ => false,
            };
            if owning {
                match found {
                    Some(k) => {
                        proof {
                            assert(self@.owns(k, node) && self@.owns(arrow.key(), node));
                            assert(parents@[at].key() != parents@[i as int].key());
                            assert forall|c: (NodeId, Edge)|
                                !(self@.owns(c, node) && forall|other: (NodeId, Edge)| #[trigger]
                                    self@.owns(other, node) ==> other == c) by {
                                if c == k {
                                    assert(self@.owns(arrow.key(), node));
                                } else {
                                    assert(self@.owns(k, node));
                                }
                            }
                        }
                        return Err(ASTError::ParentError(node));
                    },
                    None => {
                        found = Some((arrow.source, arrow.label));
                        proof {
                            at = i as int;
                        }
                    },
                }
            }
            i += 1;
        }
        match found {
            Some(k) => {
                proof {
                    assert forall|other: (NodeId, Edge)| self@.owns(other, node) implies other
                        == k by {
                        assert(lists_key(parents@, other));
                        let j = choose|j: int|
                            0 <= j < parents@.len() && (#[trigger] parents@[j]).key() == other;
                        assert(self@.owns(parents@[j].key(), node));
                    }
                }
                Ok(k)
            },
            None => {
                proof {
                    assert forall|c: (NodeId, Edge)| !self@.owns(c, node) by {
                        if self@.owns(c, node) {
                            assert(lists_key(parents@, c));
                            let j = choose|j: int|
                                0 <= j < parents@.len() && (#[trigger] parents@[j]).key() == c;
                            assert(!self@.owns(parents@[j].key(), node));
                        }
                    }
                }
                Err(ASTError::ParentError(node))
            },
        }
    }

    /// Hands out a constructor identifier that was never handed out before
    /// and advances the counter. Fails with `Full` when none is left.
    pub fn next_uid(&mut self) -> (r: Result<usize, ASTError>)
        requires
            old(self).wf(),
        ensures
            final(self).wf(),
            final(self).edge_total() == old(self).edge_total(),
            match r {
                Ok(uid) => uid == old(self)@.next_uid && uid < usize::MAX && final(self)@ == (
                GraphView { next_uid: (uid + 1) as usize, ..old(self)@ }),
                Err(e) => e is Full && old(self)@.next_uid == usize::MAX && final(self)@ == old(
                    self,
                )@,
            },
    {
        if self.next_uid == usize::MAX {
            return Err(ASTError::Full);
        }
        let uid = self.next_uid;
        self.next_uid = uid + 1;
        Ok(uid)
    }

    /// The indices of the live nodes, in increasing order.
    pub fn node_ids(&self) -> (r: Vec<NodeId>)
        requires
            self.wf(),
        ensures
            forall|i: int| 0 <= i < r@.len() ==> self@.nodes.contains_key(#[trigger] r@[i]),
            forall|i: int, j: int| 0 <= i < j < r@.len() ==> r@[i] < r@[j],
            forall|n: NodeId| #[trigger]
                self@.nodes.contains_key(n) ==> exists|i: int| 0 <= i < r@.len() && r@[i] == n,
    {
        let ids = graph_node_indices(&self.graph);
        proof {
            let nodes = graph_nodes(self.graph);
            assert forall|n: NodeId| #[trigger] self@.nodes.contains_key(n) implies exists|i: int|
                0 <= i < ids@.len() && ids@[i] == n by {
                assert(nodes.contains_key(n));
            }
        }
        ids
    }
}

/// Removing an edge removes its entry from the map.
proof fn lemma_remove_edge(edges: Map<u32, Link>, id: u32)
    requires
        functional(edges),
        edges.contains_key(id),
    ensures
        functional(edges.remove(id)),
        children_of(edges.remove(id)) == children_of(edges).remove(
            (edges[id].source, edges[id].label),
        ),
{
    let after = edges.remove(id);
    let gone = (edges[id].source, edges[id].label);
    assert(functional(after)) by {
        assert forall|e1: u32, e2: u32|
            after.contains_key(e1) && after.contains_key(e2) && after[e1].source
                == after[e2].source && after[e1].label == after[e2].label implies e1 == e2 by {
            assert(edges.contains_key(e1) && edges.contains_key(e2));
        }
    }
    let lhs = children_of(after);
    let rhs = children_of(edges).remove(gone);
    assert forall|k: (NodeId, Edge)| lhs.contains_key(k) == rhs.contains_key(k) by {
        if lhs.contains_key(k) {
            let e = choose|e: u32| is_edge(after, e, k.0, k.1);
            assert(is_edge(edges, e, k.0, k.1));
            if k == gone {
                assert(edges.contains_key(e) && edges.contains_key(id));
            }
        }
        if rhs.contains_key(k) {
            let e = choose|e: u32| is_edge(edges, e, k.0, k.1);
            assert(is_edge(after, e, k.0, k.1));
        }
    }
    assert forall|k: (NodeId, Edge)| lhs.contains_key(k) implies lhs[k] == rhs[k] by {
        let e = choose|e: u32| is_edge(after, e, k.0, k.1);
        lemma_child(after, e);
        assert(is_edge(edges, e, k.0, k.1));
        lemma_child(edges, e);
    }
    assert(lhs =~= rhs);
}

/// Adding an edge under a fresh (source, label) adds one entry to the map.
proof fn lemma_insert_edge(edges: Map<u32, Link>, id: u32, link: Link)
    requires
        functional(edges),
        functional(edges.insert(id, link)),
        !edges.contains_key(id),
        forall|e: u32| !is_edge(edges, e, link.source, link.label),
    ensures
        children_of(edges.insert(id, link)) == children_of(edges).insert(
            (link.source, link.label),
            link.target,
        ),
{
    let after = edges.insert(id, link);
    let lhs = children_of(after);
    let rhs = children_of(edges).insert((link.source, link.label), link.target);
    assert forall|k: (NodeId, Edge)| lhs.contains_key(k) == rhs.contains_key(k) by {
        if lhs.contains_key(k) {
            let e = choose|e: u32| is_edge(after, e, k.0, k.1);
            if e != id {
                assert(is_edge(edges, e, k.0, k.1));
            }
        }
        if rhs.contains_key(k) {
            if k == (link.source, link.label) {
                assert(is_edge(after, id, k.0, k.1));
            } else {
                let e = choose|e: u32| is_edge(edges, e, k.0, k.1);
                assert(is_edge(after, e, k.0, k.1));
            }
        }
    }
    assert forall|k: (NodeId, Edge)| lhs.contains_key(k) implies lhs[k] == rhs[k] by {
        let e = choose|e: u32| is_edge(after, e, k.0, k.1);
        lemma_child(after, e);
        if e != id {
            assert(is_edge(edges, e, k.0, k.1));
            lemma_child(edges, e);
        }
    }
    assert(lhs =~= rhs);
}

} // verus!
