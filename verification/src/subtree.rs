//! Whole subtrees: deleting one and copying one.
//!
//! The subtree of a node is what can be reached from it along edges that
//! are not binder edges. Binder edges are references and are never
//! followed.
use vstd::prelude::*;
use std::collections::HashMap;
use crate::ast::lists_children_of;
use crate::ast::lists_key;
use crate::ast::ASTError;
use crate::ast::Arrow;
use crate::ast::GraphView;
use crate::ast::NodeId;
use crate::ast::AST;
use crate::integrity::lemma_bound_extended;
use crate::integrity::lemma_bound_with_edge;
use crate::node::Edge;
use crate::node::NodeView;

verus! {

/// Every key of `remap` is a node of the graph, and a lambda or closure
/// among them is mapped to a lambda or closure.
pub open spec fn remap_sound(remap: Map<NodeId, NodeId>, v: GraphView) -> bool {
    forall|k: NodeId| #[trigger]
        remap.contains_key(k) ==> v.nodes.contains_key(k) && (v.is_binder(k) ==> v.is_binder(
            remap[k],
        ))
}

/// A sound map stays sound as a copy extends it.
pub proof fn lemma_remap_sound(
    later: Map<NodeId, NodeId>,
    initial: Map<NodeId, NodeId>,
    before: GraphView,
    now: GraphView,
    root: NodeId,
)
    requires
        tracks(later, initial, before, now, root),
        remap_sound(initial, before),
        before.extended_by(now),
    ensures
        remap_sound(later, now),
{
    assert forall|k: NodeId| #[trigger] later.contains_key(k) implies now.nodes.contains_key(k)
        && (now.is_binder(k) ==> now.is_binder(later[k])) by {
        if initial.contains_key(k) && later[k] == initial[k] {
            assert(before.nodes.contains_key(k));
            if before.is_binder(k) {
                assert(before.nodes.contains_key(initial[k]));
            }
        } else {
            assert(before.nodes.contains_key(k));
        }
    }
}

/// Where a copied binder edge points: at the copy of its target if
/// `remap` knows one, and at the target itself if not.
pub open spec fn resolved(remap: Map<NodeId, NodeId>, binder: NodeId) -> NodeId {
    if remap.contains_key(binder) {
        remap[binder]
    } else {
        binder
    }
}

/// `later` is `initial` with more nodes mapped to copies: every key of
/// `initial` is still a key, and each entry is either the one of `initial`
/// or maps a node in the subtree that `root` has in `before` to a node
/// that `before` did not have and that holds in `now` what the key holds
/// in `before`.
pub open spec fn tracks(
    later: Map<NodeId, NodeId>,
    initial: Map<NodeId, NodeId>,
    before: GraphView,
    now: GraphView,
    root: NodeId,
) -> bool {
    &&& forall|k: NodeId| #[trigger] initial.contains_key(k) ==> later.contains_key(k)
    &&& forall|k: NodeId| #[trigger]
        later.contains_key(k) ==> (initial.contains_key(k) && later[k] == initial[k]) || (
        before.nodes.contains_key(k) && before.reaches(root, k) && !before.nodes.contains_key(
            later[k],
        ) && now.nodes.contains_key(later[k]) && now.nodes[later[k]] == before.nodes[k])
}

/// Every node that `remap` maps to is a node of the graph.
pub open spec fn remap_live(remap: Map<NodeId, NodeId>, v: GraphView) -> bool {
    forall|k: NodeId| #[trigger] remap.contains_key(k) ==> v.nodes.contains_key(remap[k])
}

/// `later` is `base` with more nodes mapped to copies: every key of
/// `base` is still a key, and each entry is either the one of `base` or
/// maps a node below `parent`, in a subtree that `parent` owns in
/// `before`, to a node that `before` did not have and that holds in `now`
/// what the key holds in `before`.
pub open spec fn tracks_below(
    later: Map<NodeId, NodeId>,
    base: Map<NodeId, NodeId>,
    before: GraphView,
    now: GraphView,
    parent: NodeId,
) -> bool {
    &&& forall|k: NodeId| #[trigger] base.contains_key(k) ==> later.contains_key(k)
    &&& forall|k: NodeId| #[trigger]
        later.contains_key(k) ==> (base.contains_key(k) && later[k] == base[k]) || (
        before.nodes.contains_key(k) && before.descends(parent, k) && !before.nodes.contains_key(
            later[k],
        ) && now.nodes.contains_key(later[k]) && now.nodes[later[k]] == before.nodes[k])
}

/// The binder edges among the first `i` of `arrows`.
pub open spec fn binders_in(arrows: Seq<Arrow>, i: int) -> nat
    decreases i,
{
    if i <= 0 {
        0
    } else {
        binders_in(arrows, i - 1) + (if arrows[i - 1].label.is_binder() {
            1nat
        } else {
            0nat
        })
    }
}

/// One of the first `i` of `arrows` has the label `label`.
pub open spec fn seen(arrows: Seq<Arrow>, i: int, label: Edge) -> bool {
    exists|j: int| 0 <= j < i && (#[trigger] arrows[j]).label == label
}

impl GraphView {
    /// The subtree of `node` is at most `fuel` levels deep: `node` is
    /// live, and each node that an owning edge of it leads to has a
    /// subtree that is at most `fuel - 1` levels deep.
    pub open spec fn within(self, node: NodeId, fuel: nat) -> bool
        decreases fuel,
    {
        fuel > 0 && self.nodes.contains_key(node) && forall|label: Edge|
            !label.is_binder() && #[trigger] self.children.contains_key((node, label))
                ==> self.within(self.children[(node, label)], (fuel - 1) as nat)
    }

    /// The nodes that a copy of the subtree below the edge `label` of
    /// `node` takes, down to `depth` levels.
    pub open spec fn nodes_below(self, node: NodeId, label: Edge, depth: nat) -> nat
        decreases depth, 1nat,
    {
        if self.children.contains_key((node, label)) {
            self.copy_nodes(self.children[(node, label)], depth)
        } else {
            0
        }
    }

    /// The nodes that a copy of the subtree of `node` takes, down to
    /// `depth` levels: one for `node` and those of the subtrees that it
    /// owns.
    pub open spec fn copy_nodes(self, node: NodeId, depth: nat) -> nat
        decreases depth, 0nat,
    {
        if depth == 0 {
            0
        } else {
            1 + self.nodes_below(node, Edge::Body, (depth - 1) as nat) + self.nodes_below(
                node,
                Edge::Parameter,
                (depth - 1) as nat,
            ) + self.nodes_below(node, Edge::Function, (depth - 1) as nat) + self.nodes_below(
                node,
                Edge::Debug,
                (depth - 1) as nat,
            )
        }
    }

    /// The edges that a copy of the subtree below the edge `label` of
    /// `node` takes, down to `depth` levels.
    pub open spec fn edges_below(self, node: NodeId, label: Edge, depth: nat) -> nat
        decreases depth, 1nat,
    {
        if self.children.contains_key((node, label)) {
            self.copy_edges(self.children[(node, label)], depth)
        } else {
            0
        }
    }

    /// The edges that a copy of the subtree of `node` takes, down to
    /// `depth` levels: as many as leave `node`, and those of the subtrees
    /// that it owns.
    pub open spec fn copy_edges(self, node: NodeId, depth: nat) -> nat
        decreases depth, 0nat,
    {
        if depth == 0 {
            0
        } else {
            self.out_degree(node) + self.edges_below(node, Edge::Body, (depth - 1) as nat)
                + self.edges_below(node, Edge::Parameter, (depth - 1) as nat) + self.edges_below(
                node,
                Edge::Function,
                (depth - 1) as nat,
            ) + self.edges_below(node, Edge::Debug, (depth - 1) as nat)
        }
    }

    /// The nodes that the copies below the first `i` of `arrows` took,
    /// for the label `label`.
    pub open spec fn nodes_done(
        self,
        arrows: Seq<Arrow>,
        i: int,
        node: NodeId,
        label: Edge,
        depth: nat,
    ) -> nat {
        if seen(arrows, i, label) {
            self.nodes_below(node, label, depth)
        } else {
            0
        }
    }

    /// The edges that the copies below the first `i` of `arrows` took,
    /// for the label `label`.
    pub open spec fn edges_done(
        self,
        arrows: Seq<Arrow>,
        i: int,
        node: NodeId,
        label: Edge,
        depth: nat,
    ) -> nat {
        if seen(arrows, i, label) {
            self.edges_below(node, label, depth)
        } else {
            0
        }
    }

    /// Copying the subtree of `node` fails with `e`: the subtree is
    /// deeper than the fuel allows; or there is no room for its nodes and
    /// edges; or `node` is not live. Where `remap` maps to a node that is
    /// not live, an edge of the copy may find no target.
    pub open spec fn copy_fails(
        self,
        remap: Map<NodeId, NodeId>,
        node: NodeId,
        fuel: nat,
        e: ASTError,
    ) -> bool {
        ||| e == ASTError::Exhausted && !self.within(node, fuel)
        ||| e == ASTError::Full && !self.room(
            self.copy_nodes(node, fuel),
            self.copy_edges(node, fuel),
        )
        ||| e == ASTError::Custom(node, "no such node") && !self.nodes.contains_key(node)
        ||| e is Custom && !remap_live(remap, self)
    }

    /// `node` is a live node without outgoing edges.
    pub open spec fn is_leaf(self, node: NodeId) -> bool {
        self.nodes.contains_key(node) && forall|label: Edge|
            !#[trigger] self.children.contains_key((node, label))
    }

    /// An edge that is no binder edge leads from `a` to `b`.
    pub open spec fn steps_to(self, a: NodeId, b: NodeId) -> bool {
        exists|label: Edge|
            !label.is_binder() && #[trigger] self.children.contains_key((a, label))
                && self.children[(a, label)] == b
    }

    /// Each node of `path` is joined to the next by an edge that is no
    /// binder edge.
    pub open spec fn is_path(self, path: Seq<NodeId>) -> bool {
        path.len() > 0 && forall|i: int|
            0 <= i < path.len() - 1 ==> self.steps_to(#[trigger] path[i], path[i + 1])
    }

    /// `to` lies below `from`: in the subtree of a node that `from` has an
    /// edge to that is no binder edge.
    pub open spec fn descends(self, from: NodeId, to: NodeId) -> bool {
        exists|next: NodeId| #[trigger] self.steps_to(from, next) && self.reaches(next, to)
    }

    /// The node at the end of `path`, a list of labels of edges that are
    /// no binder edges, from `node` on.
    pub open spec fn follow(self, node: NodeId, path: Seq<Edge>) -> Option<NodeId>
        decreases path.len(),
    {
        if path.len() == 0 {
            Some(node)
        } else if path[0].is_binder() || !self.children.contains_key((node, path[0])) {
            None
        } else {
            self.follow(self.children[(node, path[0])], path.drop_first())
        }
    }

    /// `to` lies in the subtree of `from`.
    pub open spec fn reaches(self, from: NodeId, to: NodeId) -> bool {
        exists|path: Seq<NodeId>| #[trigger]
            self.is_path(path) && path[0] == from && path.last() == to
    }

    /// The graph cut down to the nodes `nodes` and the edges between them.
    pub open spec fn restricted_to(self, nodes: Map<NodeId, NodeView>) -> GraphView {
        GraphView {
            nodes,
            children: Map::new(
                |k: (NodeId, Edge)|
                    self.children.contains_key(k) && nodes.contains_key(k.0)
                        && nodes.contains_key(self.children[k]),
                |k: (NodeId, Edge)| self.children[k],
            ),
            ..self
        }
    }

    /// The nodes outside the subtree of `node`.
    pub open spec fn nodes_outside(self, node: NodeId) -> Map<NodeId, NodeView> {
        Map::new(
            |n: NodeId|
                self.nodes.contains_key(n) && !(self.nodes.contains_key(node) && self.reaches(
                    node,
                    n,
                )),
            |n: NodeId| self.nodes[n],
        )
    }

    /// The graph without the subtree of `node`: every node in the subtree
    /// is gone, and with it every edge that touched it.
    pub open spec fn without_subtree(self, node: NodeId) -> GraphView {
        self.restricted_to(self.nodes_outside(node))
    }

    /// `image` may stand for `target` at the end of a copied binder edge:
    /// it is `target` itself, or what `initial` maps it to, or a node that
    /// `before` did not have and that holds what `target` holds.
    pub open spec fn referent(
        self,
        before: GraphView,
        initial: Map<NodeId, NodeId>,
        target: NodeId,
        image: NodeId,
    ) -> bool {
        ||| image == target
        ||| initial.contains_key(target) && image == initial[target]
        ||| !before.nodes.contains_key(image) && self.nodes.contains_key(image)
            && self.nodes[image] == before.nodes[target]
    }

    /// In `self`, `copy` is a copy of the subtree that `template` has in
    /// `before`, down to `depth` levels of owning edges: it is a node that
    /// `floor` did not have, it holds what `template` holds, and it has an
    /// edge for each label for which `template` has one and for no other.
    /// Where the edge of `template` is a binder edge, the copy's edge points
    /// at a [`Self::referent`] of its target; where it owns its target,
    /// the copy's edge points at a copy of that target.
    pub open spec fn copied(
        self,
        before: GraphView,
        floor: GraphView,
        initial: Map<NodeId, NodeId>,
        template: NodeId,
        copy: NodeId,
        depth: nat,
    ) -> bool
        decreases depth,
    {
        &&& before.nodes.contains_key(template)
        &&& !floor.nodes.contains_key(copy)
        &&& self.nodes.contains_key(copy)
        &&& self.nodes[copy] == before.nodes[template]
        &&& forall|label: Edge|
            #![trigger self.children.contains_key((copy, label))]
            #![trigger before.children.contains_key((template, label))]
            self.children.contains_key((copy, label)) <==> before.children.contains_key(
                (template, label),
            )
        &&& forall|label: Edge| #[trigger]
            before.children.contains_key((template, label)) ==> if label.is_binder() {
                self.referent(
                    before,
                    initial,
                    before.children[(template, label)],
                    self.children[(copy, label)],
                )
            } else {
                depth > 0 && self.copied(
                    before,
                    floor,
                    initial,
                    before.children[(template, label)],
                    self.children[(copy, label)],
                    (depth - 1) as nat,
                )
            }
    }

    /// In `self`, the binder edges of the copy `copy` of the subtree that
    /// `template` has in `before` point where the map of copies said when
    /// each node was copied. `entry` is that map as it was when `template`
    /// was about to be copied. A binder edge of `copy` points at the copy
    /// that `entry` knows for its target, at `copy` itself if the target
    /// is `template`, and at the target if `entry` knows none. For the
    /// subtrees that `template` owns the same holds, each with the map as
    /// it was by then, see [`Self::bound_below`].
    ///
    /// So an edge to a binder on the way from the root of the copy down to
    /// its source points at the copy of that binder, see
    /// [`lemma_copy_binds_to_copies`], and an edge to a binder outside of
    /// what is copied stays where it was, see
    /// [`lemma_copy_keeps_outer_binders`]. Only an edge that crosses from
    /// one owned subtree into another, or to a node that lies below
    /// itself, depends on the order in which the subtrees were copied.
    pub open spec fn binds_as(
        self,
        before: GraphView,
        entry: Map<NodeId, NodeId>,
        template: NodeId,
        copy: NodeId,
        depth: nat,
    ) -> bool
        decreases depth, 0nat,
    {
        forall|label: Edge| #[trigger]
            before.children.contains_key((template, label)) ==> self.children.contains_key(
                (copy, label),
            ) && (if label.is_binder() {
                self.children[(copy, label)] == resolved(
                    entry.insert(template, copy),
                    before.children[(template, label)],
                )
            } else {
                depth > 0 && self.bound_below(
                    before,
                    entry.insert(template, copy),
                    template,
                    before.children[(template, label)],
                    self.children[(copy, label)],
                    (depth - 1) as nat,
                )
            })
    }

    /// The copy `copy` of the subtree of `template`, which `parent` owns,
    /// is bound as [`Self::binds_as`] says, with a map that `base`, the
    /// map when `parent` had been copied, has grown into: it knows in
    /// addition the copies of nodes in the subtree of `parent` that were
    /// made before `template` was copied.
    pub open spec fn bound_below(
        self,
        before: GraphView,
        base: Map<NodeId, NodeId>,
        parent: NodeId,
        template: NodeId,
        copy: NodeId,
        depth: nat,
    ) -> bool
        decreases depth, 1nat,
    {
        exists|next: Map<NodeId, NodeId>| #[trigger]
            tracks_below(next, base, before, self, parent) && self.binds_as(
                before,
                next,
                template,
                copy,
                depth,
            )
    }

    /// `later` holds every node and edge of `self` unchanged, and among
    /// the nodes of `self` only those of `floor` have new edges.
    pub open spec fn framed_by(self, later: GraphView, floor: GraphView) -> bool {
        &&& forall|n: NodeId| #[trigger]
            self.nodes.contains_key(n) ==> later.nodes.contains_key(n) && later.nodes[n]
                == self.nodes[n]
        &&& forall|k: (NodeId, Edge)| #[trigger]
            self.children.contains_key(k) ==> later.children.contains_key(k)
                && later.children[k] == self.children[k]
        &&& forall|k: (NodeId, Edge)| #[trigger]
            later.children.contains_key(k) && self.nodes.contains_key(k.0)
                && !self.children.contains_key(k) ==> floor.nodes.contains_key(k.0)
    }

    /// `nodes` is a part of the nodes of `self`.
    pub open spec fn keeps(self, nodes: Map<NodeId, NodeView>) -> bool {
        forall|n: NodeId| #[trigger]
            nodes.contains_key(n) ==> self.nodes.contains_key(n) && nodes[n] == self.nodes[n]
    }
}

/// What a copy takes is the same in a graph that has grown: the subtree
/// of a node that was there has not changed.
pub proof fn lemma_copy_size_frame(before: GraphView, now: GraphView, node: NodeId, depth: nat)
    requires
        before.extended_by(now),
        before.linked(),
        before.nodes.contains_key(node),
    ensures
        now.copy_nodes(node, depth) == before.copy_nodes(node, depth),
        now.copy_edges(node, depth) == before.copy_edges(node, depth),
        now.within(node, depth) == before.within(node, depth),
    decreases depth,
{
    if depth > 0 {
        let below = (depth - 1) as nat;
        assert(now.out_keys(node) =~= before.out_keys(node)) by {
            assert forall|k: (NodeId, Edge)| now.out_keys(node).contains(k)
                <==> before.out_keys(node).contains(k) by {
                if now.children.contains_key(k) && k.0 == node {
                    assert(before.nodes.contains_key(k.0));
                }
            }
        }
        assert forall|label: Edge| #[trigger]
            now.children.contains_key((node, label)) == before.children.contains_key(
                (node, label),
            ) && (before.children.contains_key((node, label)) ==> now.children[(node, label)]
                == before.children[(node, label)]) by {
            let k = (node, label);
            if now.children.contains_key(k) {
                assert(before.nodes.contains_key(k.0));
            }
        }
        assert forall|label: Edge| #[trigger]
            before.children.contains_key((node, label)) implies now.copy_nodes(
            before.children[(node, label)],
            below,
        ) == before.copy_nodes(before.children[(node, label)], below) && now.copy_edges(
            before.children[(node, label)],
            below,
        ) == before.copy_edges(before.children[(node, label)], below) && now.within(
            before.children[(node, label)],
            below,
        ) == before.within(before.children[(node, label)], below) by {
            lemma_copy_size_frame(before, now, before.children[(node, label)], below);
        }
        assert(now.children.contains_key((node, Edge::Body)) == before.children.contains_key(
            (node, Edge::Body),
        ));
        assert(now.children.contains_key((node, Edge::Parameter))
            == before.children.contains_key((node, Edge::Parameter)));
        assert(now.children.contains_key((node, Edge::Function))
            == before.children.contains_key((node, Edge::Function)));
        assert(now.children.contains_key((node, Edge::Debug)) == before.children.contains_key(
            (node, Edge::Debug),
        ));
        assert(now.nodes_below(node, Edge::Body, below) == before.nodes_below(
            node,
            Edge::Body,
            below,
        ));
        assert(now.nodes_below(node, Edge::Parameter, below) == before.nodes_below(
            node,
            Edge::Parameter,
            below,
        ));
        assert(now.nodes_below(node, Edge::Function, below) == before.nodes_below(
            node,
            Edge::Function,
            below,
        ));
        assert(now.nodes_below(node, Edge::Debug, below) == before.nodes_below(
            node,
            Edge::Debug,
            below,
        ));
        assert(now.edges_below(node, Edge::Body, below) == before.edges_below(
            node,
            Edge::Body,
            below,
        ));
        assert(now.edges_below(node, Edge::Parameter, below) == before.edges_below(
            node,
            Edge::Parameter,
            below,
        ));
        assert(now.edges_below(node, Edge::Function, below) == before.edges_below(
            node,
            Edge::Function,
            below,
        ));
        assert(now.edges_below(node, Edge::Debug, below) == before.edges_below(
            node,
            Edge::Debug,
            below,
        ));
        assert(now.nodes.contains_key(node));
    }
}

/// Among more arrows there are no fewer binder edges, and no more new
/// ones than there are more arrows.
pub proof fn lemma_binders_bound(arrows: Seq<Arrow>, i: int, j: int)
    requires
        0 <= i <= j,
    ensures
        binders_in(arrows, i) <= binders_in(arrows, j),
        binders_in(arrows, j) - binders_in(arrows, i) <= j - i,
    decreases j - i,
{
    if i < j {
        lemma_binders_bound(arrows, i, j - 1);
    }
}

/// One more arrow adds its own label to those seen.
pub proof fn lemma_seen_step(arrows: Seq<Arrow>, i: int, label: Edge)
    requires
        0 <= i < arrows.len(),
    ensures
        seen(arrows, i + 1, label) == (seen(arrows, i, label) || arrows[i].label == label),
{
    if seen(arrows, i, label) {
        let j = choose|j: int| 0 <= j < i && (#[trigger] arrows[j]).label == label;
        assert(0 <= j < i + 1 && arrows[j].label == label);
    }
    if arrows[i].label == label {
        assert(0 <= i < i + 1 && arrows[i].label == label);
    }
    if seen(arrows, i + 1, label) {
        let j = choose|j: int| 0 <= j < i + 1 && (#[trigger] arrows[j]).label == label;
        if j < i {
            assert(0 <= j < i && arrows[j].label == label);
        }
    }
}

/// In a list of the edges that leave a node, no label comes twice.
pub proof fn lemma_not_seen(
    arrows: Seq<Arrow>,
    children: Map<(NodeId, Edge), NodeId>,
    node: NodeId,
    i: int,
)
    requires
        lists_children_of(arrows, children, node),
        0 <= i < arrows.len(),
    ensures
        !seen(arrows, i, arrows[i].label),
{
    if seen(arrows, i, arrows[i].label) {
        let j = choose|j: int| 0 <= j < i && (#[trigger] arrows[j]).label == arrows[i].label;
        assert(arrows[j].source == node && arrows[i].source == node);
        assert(arrows[j].key() == arrows[i].key());
    }
}

/// A list of the edges that leave a node shows each label that the node
/// has an edge for.
pub proof fn lemma_seen_all(
    arrows: Seq<Arrow>,
    children: Map<(NodeId, Edge), NodeId>,
    node: NodeId,
    label: Edge,
)
    requires
        lists_children_of(arrows, children, node),
    ensures
        seen(arrows, arrows.len() as int, label) == children.contains_key((node, label)),
{
    if seen(arrows, arrows.len() as int, label) {
        let j = choose|j: int| 0 <= j < arrows.len() && (#[trigger] arrows[j]).label == label;
        assert(children.contains_key(arrows[j].key()));
        assert(arrows[j].source == node);
    }
    if children.contains_key((node, label)) {
        assert(lists_key(arrows, (node, label)));
        let j = choose|j: int| 0 <= j < arrows.len() && (#[trigger] arrows[j]).key() == (
            node,
            label,
        );
        assert(arrows[j].label == label);
    }
}

/// A node reaches itself.
pub proof fn lemma_reaches_self(v: GraphView, a: NodeId)
    ensures
        v.reaches(a, a),
{
    let path = seq![a];
    assert(v.is_path(path) && path[0] == a && path.last() == a);
}

/// A step in front of a path makes a path.
pub proof fn lemma_reaches_after_step(v: GraphView, a: NodeId, b: NodeId, c: NodeId)
    requires
        v.steps_to(a, b),
        v.reaches(b, c),
    ensures
        v.reaches(a, c),
{
    let tail = choose|path: Seq<NodeId>| #[trigger]
        v.is_path(path) && path[0] == b && path.last() == c;
    let path = seq![a] + tail;
    assert forall|i: int| 0 <= i < path.len() - 1 implies v.steps_to(
        #[trigger] path[i],
        path[i + 1],
    ) by {
        if i > 0 {
            assert(path[i] == tail[i - 1]);
            assert(path[i + 1] == tail[i]);
        } else {
            assert(path[1] == tail[0]);
        }
    }
    assert(v.is_path(path) && path[0] == a && path.last() == c);
}

/// A step behind a path makes a path.
pub proof fn lemma_reaches_then_step(v: GraphView, a: NodeId, b: NodeId, c: NodeId)
    requires
        v.reaches(a, b),
        v.steps_to(b, c),
    ensures
        v.reaches(a, c),
{
    let front = choose|path: Seq<NodeId>| #[trigger]
        v.is_path(path) && path[0] == a && path.last() == b;
    let path = front.push(c);
    assert forall|i: int| 0 <= i < path.len() - 1 implies v.steps_to(
        #[trigger] path[i],
        path[i + 1],
    ) by {
        if i < front.len() - 1 {
            assert(path[i] == front[i]);
            assert(path[i + 1] == front[i + 1]);
        } else {
            assert(path[i] == b);
        }
    }
    assert(v.is_path(path) && path[0] == a && path.last() == c);
}

/// What is reached in a part of a graph is reached in the graph.
pub proof fn lemma_reaches_in_part(v: GraphView, nodes: Map<NodeId, NodeView>, a: NodeId, b: NodeId)
    requires
        v.restricted_to(nodes).reaches(a, b),
    ensures
        v.reaches(a, b),
{
    let part = v.restricted_to(nodes);
    let path = choose|path: Seq<NodeId>| #[trigger]
        part.is_path(path) && path[0] == a && path.last() == b;
    assert forall|i: int| 0 <= i < path.len() - 1 implies v.steps_to(
        #[trigger] path[i],
        path[i + 1],
    ) by {
        assert(part.steps_to(path[i], path[i + 1]));
        let label = choose|label: Edge|
            !label.is_binder() && #[trigger] part.children.contains_key((path[i], label))
                && part.children[(path[i], label)] == path[i + 1];
        assert(v.children.contains_key((path[i], label)));
    }
    assert(v.is_path(path) && path[0] == a && path.last() == b);
}

/// A set of nodes that holds `a` and is closed under steps holds whatever
/// `a` reaches.
pub proof fn lemma_closed_holds_reached(v: GraphView, inside: Set<NodeId>, a: NodeId, b: NodeId)
    requires
        inside.contains(a),
        forall|x: NodeId, y: NodeId|
            inside.contains(x) && #[trigger] v.steps_to(x, y) ==> inside.contains(y),
        v.reaches(a, b),
    ensures
        inside.contains(b),
{
    let path = choose|path: Seq<NodeId>| #[trigger]
        v.is_path(path) && path[0] == a && path.last() == b;
    lemma_closed_holds_path(v, inside, path, path.len() - 1);
}

proof fn lemma_closed_holds_path(v: GraphView, inside: Set<NodeId>, path: Seq<NodeId>, i: int)
    requires
        v.is_path(path),
        inside.contains(path[0]),
        forall|x: NodeId, y: NodeId|
            inside.contains(x) && #[trigger] v.steps_to(x, y) ==> inside.contains(y),
        0 <= i < path.len(),
    ensures
        inside.contains(path[i]),
    decreases i,
{
    if i > 0 {
        lemma_closed_holds_path(v, inside, path, i - 1);
        assert(v.steps_to(path[i - 1], path[i - 1 + 1]));
    }
}

/// Cutting a part down further is cutting the whole down.
pub proof fn lemma_restricted_twice(
    v: GraphView,
    outer: Map<NodeId, NodeView>,
    inner: Map<NodeId, NodeView>,
)
    requires
        forall|n: NodeId| #[trigger] inner.contains_key(n) ==> outer.contains_key(n),
    ensures
        v.restricted_to(outer).restricted_to(inner) == v.restricted_to(inner),
{
    assert(v.restricted_to(outer).restricted_to(inner).children =~= v.restricted_to(
        inner,
    ).children);
}

/// What a map tracks stays tracked when the graph keeps its nodes.
pub proof fn lemma_tracks_frame(
    later: Map<NodeId, NodeId>,
    base: Map<NodeId, NodeId>,
    before: GraphView,
    mid: GraphView,
    now: GraphView,
    parent: NodeId,
)
    requires
        tracks_below(later, base, before, mid, parent),
        forall|n: NodeId| #[trigger]
            mid.nodes.contains_key(n) ==> now.nodes.contains_key(n) && now.nodes[n]
                == mid.nodes[n],
    ensures
        tracks_below(later, base, before, now, parent),
{
    assert forall|k: NodeId| #[trigger] later.contains_key(k) implies (base.contains_key(k)
        && later[k] == base[k]) || (before.nodes.contains_key(k) && before.descends(parent, k)
        && !before.nodes.contains_key(later[k]) && now.nodes.contains_key(later[k])
        && now.nodes[later[k]] == before.nodes[k]) by {
        if !(base.contains_key(k) && later[k] == base[k]) {
            assert(mid.nodes.contains_key(later[k]));
        }
    }
}

/// What lies below a node in a grown graph lay below it in the graph as
/// it was, where the node was there.
pub proof fn lemma_descends_before(before: GraphView, prior: GraphView, a: NodeId, b: NodeId)
    requires
        before.linked(),
        before.extended_by(prior),
        before.nodes.contains_key(a),
        prior.descends(a, b),
    ensures
        before.descends(a, b),
        before.nodes.contains_key(b),
{
    let next = choose|next: NodeId| #[trigger] prior.steps_to(a, next) && prior.reaches(next, b);
    let label = choose|label: Edge|
        !label.is_binder() && #[trigger] prior.children.contains_key((a, label))
            && prior.children[(a, label)] == next;
    let k = (a, label);
    assert(prior.children.contains_key(k) && before.nodes.contains_key(k.0));
    assert(before.children.contains_key(k));
    assert(before.steps_to(a, next));
    lemma_reaches_before(before, prior, next, b);
}

/// What a map tracks of a grown graph, it tracks of the graph as it was,
/// where the parent lies in the graph as it was.
pub proof fn lemma_tracks_rebase(
    later: Map<NodeId, NodeId>,
    base: Map<NodeId, NodeId>,
    before: GraphView,
    prior: GraphView,
    now: GraphView,
    parent: NodeId,
)
    requires
        before.linked(),
        before.extended_by(prior),
        before.nodes.contains_key(parent),
        tracks_below(later, base, prior, now, parent),
    ensures
        tracks_below(later, base, before, now, parent),
{
    assert forall|k: NodeId| #[trigger] later.contains_key(k) implies (base.contains_key(k)
        && later[k] == base[k]) || (before.nodes.contains_key(k) && before.descends(parent, k)
        && !before.nodes.contains_key(later[k]) && now.nodes.contains_key(later[k])
        && now.nodes[later[k]] == before.nodes[k]) by {
        if !(base.contains_key(k) && later[k] == base[k]) {
            lemma_descends_before(before, prior, parent, k);
            if before.nodes.contains_key(later[k]) {
                assert(prior.nodes.contains_key(later[k]));
            }
        }
    }
}

/// Tracking goes on: what the copy of the subtree of `child`, which
/// `parent` owns, added to the map lies below `parent`.
pub proof fn lemma_tracks_step(
    latest: Map<NodeId, NodeId>,
    recent: Map<NodeId, NodeId>,
    base: Map<NodeId, NodeId>,
    before: GraphView,
    prior: GraphView,
    now: GraphView,
    parent: NodeId,
    child: NodeId,
)
    requires
        before.linked(),
        before.extended_by(prior),
        prior.extended_by(now),
        before.steps_to(parent, child),
        before.nodes.contains_key(child),
        tracks_below(recent, base, before, prior, parent),
        tracks(latest, recent, prior, now, child),
    ensures
        tracks_below(latest, base, before, now, parent),
{
    assert forall|k: NodeId| #[trigger] latest.contains_key(k) implies (base.contains_key(k)
        && latest[k] == base[k]) || (before.nodes.contains_key(k) && before.descends(parent, k)
        && !before.nodes.contains_key(latest[k]) && now.nodes.contains_key(latest[k])
        && now.nodes[latest[k]] == before.nodes[k]) by {
        if recent.contains_key(k) && latest[k] == recent[k] {
            if !(base.contains_key(k) && recent[k] == base[k]) {
                assert(prior.nodes.contains_key(recent[k]));
            }
        } else {
            assert(prior.reaches(child, k));
            lemma_reaches_before(before, prior, child, k);
            assert(before.steps_to(parent, child) && before.reaches(child, k));
        }
    }
}

/// The binder edges of a copy stay as they are when the graph grows
/// around it.
pub proof fn lemma_binds_frame(
    mid: GraphView,
    later: GraphView,
    before: GraphView,
    floor: GraphView,
    entry: Map<NodeId, NodeId>,
    template: NodeId,
    copy: NodeId,
    depth: nat,
)
    requires
        mid.binds_as(before, entry, template, copy, depth),
        mid.framed_by(later, floor),
    ensures
        later.binds_as(before, entry, template, copy, depth),
    decreases depth, 0nat,
{
    assert forall|label: Edge| #[trigger]
        before.children.contains_key((template, label)) implies later.children.contains_key(
        (copy, label),
    ) && (if label.is_binder() {
        later.children[(copy, label)] == resolved(
            entry.insert(template, copy),
            before.children[(template, label)],
        )
    } else {
        depth > 0 && later.bound_below(
            before,
            entry.insert(template, copy),
            template,
            before.children[(template, label)],
            later.children[(copy, label)],
            (depth - 1) as nat,
        )
    }) by {
        assert(mid.children.contains_key((copy, label)));
        if !label.is_binder() {
            lemma_below_frame(
                mid,
                later,
                before,
                floor,
                entry.insert(template, copy),
                template,
                before.children[(template, label)],
                mid.children[(copy, label)],
                (depth - 1) as nat,
            );
        }
    }
}

/// As [`lemma_binds_frame`], for a subtree below its parent.
pub proof fn lemma_below_frame(
    mid: GraphView,
    later: GraphView,
    before: GraphView,
    floor: GraphView,
    base: Map<NodeId, NodeId>,
    parent: NodeId,
    template: NodeId,
    copy: NodeId,
    depth: nat,
)
    requires
        mid.bound_below(before, base, parent, template, copy, depth),
        mid.framed_by(later, floor),
    ensures
        later.bound_below(before, base, parent, template, copy, depth),
    decreases depth, 1nat,
{
    let next = choose|next: Map<NodeId, NodeId>| #[trigger]
        tracks_below(next, base, before, mid, parent) && mid.binds_as(
            before,
            next,
            template,
            copy,
            depth,
        );
    lemma_tracks_frame(next, base, before, mid, later, parent);
    lemma_binds_frame(mid, later, before, floor, next, template, copy, depth);
    assert(tracks_below(next, base, before, later, parent) && later.binds_as(
        before,
        next,
        template,
        copy,
        depth,
    ));
}

/// The binder edges of a copy made of a grown graph are those of a copy
/// of the graph as it was, where what was copied lies in the graph as it
/// was.
pub proof fn lemma_binds_rebase(
    now: GraphView,
    prior: GraphView,
    before: GraphView,
    entry: Map<NodeId, NodeId>,
    template: NodeId,
    copy: NodeId,
    depth: nat,
)
    requires
        before.linked(),
        before.extended_by(prior),
        before.nodes.contains_key(template),
        now.binds_as(prior, entry, template, copy, depth),
    ensures
        now.binds_as(before, entry, template, copy, depth),
    decreases depth,
{
    assert forall|label: Edge| #[trigger]
        before.children.contains_key((template, label)) implies now.children.contains_key(
        (copy, label),
    ) && (if label.is_binder() {
        now.children[(copy, label)] == resolved(
            entry.insert(template, copy),
            before.children[(template, label)],
        )
    } else {
        depth > 0 && now.bound_below(
            before,
            entry.insert(template, copy),
            template,
            before.children[(template, label)],
            now.children[(copy, label)],
            (depth - 1) as nat,
        )
    }) by {
        assert(prior.children.contains_key((template, label)));
        assert(prior.children[(template, label)] == before.children[(template, label)]);
        let target = before.children[(template, label)];
        assert(before.nodes.contains_key(target));
        if !label.is_binder() {
            let inner = entry.insert(template, copy);
            let image = now.children[(copy, label)];
            let next = choose|next: Map<NodeId, NodeId>| #[trigger]
                tracks_below(next, inner, prior, now, template) && now.binds_as(
                    prior,
                    next,
                    target,
                    image,
                    (depth - 1) as nat,
                );
            lemma_tracks_rebase(next, inner, before, prior, now, template);
            lemma_binds_rebase(now, prior, before, next, target, image, (depth - 1) as nat);
            assert(tracks_below(next, inner, before, now, template) && now.binds_as(
                before,
                next,
                target,
                image,
                (depth - 1) as nat,
            ));
        }
    }
}

/// What lies below the node after a step lies below the node before it.
pub proof fn lemma_descends_step(v: GraphView, a: NodeId, b: NodeId, c: NodeId)
    requires
        v.steps_to(a, b),
        v.descends(b, c),
    ensures
        v.descends(a, c),
{
    let next = choose|next: NodeId| #[trigger] v.steps_to(b, next) && v.reaches(next, c);
    lemma_reaches_after_step(v, b, next, c);
    assert(v.steps_to(a, b) && v.reaches(b, c));
}

/// In a copy, a binder edge to a node that does not lie below the root
/// of what was copied points where the map of copies said before the
/// copy was made: at the copy that the map knew for the target, at the
/// root of the copy if the target is the root of what was copied, and
/// else at the target itself. `path` leads from the root to the source of
/// the edge.
pub proof fn lemma_copy_keeps_outer_binders(
    now: GraphView,
    before: GraphView,
    entry: Map<NodeId, NodeId>,
    template: NodeId,
    copy: NodeId,
    depth: nat,
    path: Seq<Edge>,
    label: Edge,
)
    requires
        now.binds_as(before, entry, template, copy, depth),
        before.follow(template, path) is Some,
        label.is_binder(),
        before.children.contains_key((before.follow(template, path)->Some_0, label)),
        !before.descends(
            template,
            before.children[(before.follow(template, path)->Some_0, label)],
        ),
    ensures
        now.follow(copy, path) is Some,
        now.children.contains_key((now.follow(copy, path)->Some_0, label)),
        now.children[(now.follow(copy, path)->Some_0, label)] == resolved(
            entry.insert(template, copy),
            before.children[(before.follow(template, path)->Some_0, label)],
        ),
    decreases path.len(),
{
    let source = before.follow(template, path)->Some_0;
    let target = before.children[(source, label)];
    let inner = entry.insert(template, copy);
    if path.len() == 0 {
        assert(before.children.contains_key((template, label)));
    } else {
        let step = path[0];
        let below = before.children[(template, step)];
        assert(before.children.contains_key((template, step)));
        assert(before.steps_to(template, below));
        let image = now.children[(copy, step)];
        let next = choose|next: Map<NodeId, NodeId>| #[trigger]
            tracks_below(next, inner, before, now, template) && now.binds_as(
                before,
                next,
                below,
                image,
                (depth - 1) as nat,
            );
        if before.descends(below, target) {
            lemma_descends_step(before, template, below, target);
        }
        lemma_copy_keeps_outer_binders(
            now,
            before,
            next,
            below,
            image,
            (depth - 1) as nat,
            path.drop_first(),
            label,
        );
        if target == below {
            lemma_reaches_self(before, below);
            assert(before.steps_to(template, below) && before.reaches(below, target));
        }
        if next.contains_key(target) {
            assert((inner.contains_key(target) && next[target] == inner[target])
                || before.descends(template, target));
        }
        if inner.contains_key(target) {
            assert(next.contains_key(target));
        }
        assert(resolved(next.insert(below, image), target) == resolved(inner, target));
    }
}

/// In a copy, a binder edge to a node on the way from the root of what
/// was copied down to the source of the edge points at the copy of that
/// node, provided that the node does not lie below itself. `path` leads
/// from the root to the source of the edge, and its first `upto` steps
/// lead to the target.
pub proof fn lemma_copy_binds_to_copies(
    now: GraphView,
    before: GraphView,
    entry: Map<NodeId, NodeId>,
    template: NodeId,
    copy: NodeId,
    depth: nat,
    path: Seq<Edge>,
    upto: int,
    label: Edge,
)
    requires
        now.binds_as(before, entry, template, copy, depth),
        0 <= upto <= path.len(),
        before.follow(template, path) is Some,
        before.follow(template, path.take(upto)) is Some,
        label.is_binder(),
        before.children.contains_key((before.follow(template, path)->Some_0, label)),
        before.children[(before.follow(template, path)->Some_0, label)] == before.follow(
            template,
            path.take(upto),
        )->Some_0,
        !before.descends(
            before.follow(template, path.take(upto))->Some_0,
            before.follow(template, path.take(upto))->Some_0,
        ),
    ensures
        now.follow(copy, path) is Some,
        now.follow(copy, path.take(upto)) is Some,
        now.children.contains_key((now.follow(copy, path)->Some_0, label)),
        now.children[(now.follow(copy, path)->Some_0, label)] == now.follow(
            copy,
            path.take(upto),
        )->Some_0,
    decreases upto,
{
    if upto == 0 {
        assert(path.take(0).len() == 0);
        lemma_copy_keeps_outer_binders(now, before, entry, template, copy, depth, path, label);
    } else {
        let inner = entry.insert(template, copy);
        let step = path[0];
        let below = before.children[(template, step)];
        assert(before.children.contains_key((template, step)));
        let image = now.children[(copy, step)];
        let next = choose|next: Map<NodeId, NodeId>| #[trigger]
            tracks_below(next, inner, before, now, template) && now.binds_as(
                before,
                next,
                below,
                image,
                (depth - 1) as nat,
            );
        let short = path.take(upto);
        assert(short[0] == step);
        assert(short.drop_first() =~= path.drop_first().take(upto - 1));
        lemma_copy_binds_to_copies(
            now,
            before,
            next,
            below,
            image,
            (depth - 1) as nat,
            path.drop_first(),
            upto - 1,
            label,
        );
    }
}

/// A copy stays a copy when the graph grows around it.
pub proof fn lemma_copied_frame(
    mid: GraphView,
    later: GraphView,
    before: GraphView,
    floor: GraphView,
    initial: Map<NodeId, NodeId>,
    template: NodeId,
    copy: NodeId,
    depth: nat,
)
    requires
        mid.linked(),
        mid.copied(before, floor, initial, template, copy, depth),
        mid.framed_by(later, floor),
    ensures
        later.copied(before, floor, initial, template, copy, depth),
    decreases depth,
{
    assert forall|label: Edge|
        #![trigger later.children.contains_key((copy, label))]
        #![trigger before.children.contains_key((template, label))]
        later.children.contains_key((copy, label)) <==> before.children.contains_key(
            (template, label),
        ) by {
        if later.children.contains_key((copy, label)) {
            if !mid.children.contains_key((copy, label)) {
                assert(floor.nodes.contains_key(copy));
            }
        }
        if before.children.contains_key((template, label)) {
            assert(mid.children.contains_key((copy, label)));
        }
    }
    assert forall|label: Edge| #[trigger]
        before.children.contains_key((template, label)) implies if label.is_binder() {
        later.referent(
            before,
            initial,
            before.children[(template, label)],
            later.children[(copy, label)],
        )
    } else {
        depth > 0 && later.copied(
            before,
            floor,
            initial,
            before.children[(template, label)],
            later.children[(copy, label)],
            (depth - 1) as nat,
        )
    } by {
        assert(mid.children.contains_key((copy, label)));
        if !label.is_binder() {
            lemma_copied_frame(
                mid,
                later,
                before,
                floor,
                initial,
                before.children[(template, label)],
                mid.children[(copy, label)],
                (depth - 1) as nat,
            );
        }
    }
}

/// A copy is a copy over any lower floor.
pub proof fn lemma_copied_floor(
    now: GraphView,
    before: GraphView,
    floor: GraphView,
    lower: GraphView,
    initial: Map<NodeId, NodeId>,
    template: NodeId,
    copy: NodeId,
    depth: nat,
)
    requires
        now.copied(before, floor, initial, template, copy, depth),
        forall|n: NodeId| #[trigger] lower.nodes.contains_key(n) ==> floor.nodes.contains_key(n),
    ensures
        now.copied(before, lower, initial, template, copy, depth),
    decreases depth,
{
    assert forall|label: Edge| #[trigger]
        before.children.contains_key((template, label)) implies if label.is_binder() {
        now.referent(
            before,
            initial,
            before.children[(template, label)],
            now.children[(copy, label)],
        )
    } else {
        depth > 0 && now.copied(
            before,
            lower,
            initial,
            before.children[(template, label)],
            now.children[(copy, label)],
            (depth - 1) as nat,
        )
    } by {
        if !label.is_binder() {
            lemma_copied_floor(
                now,
                before,
                floor,
                lower,
                initial,
                before.children[(template, label)],
                now.children[(copy, label)],
                (depth - 1) as nat,
            );
        }
    }
}

/// A copy made of a grown graph is a copy of the graph as it was,
/// where what was copied lies in the graph as it was.
pub proof fn lemma_copied_rebase(
    now: GraphView,
    prior: GraphView,
    before: GraphView,
    floor: GraphView,
    recent: Map<NodeId, NodeId>,
    initial: Map<NodeId, NodeId>,
    root: NodeId,
    template: NodeId,
    copy: NodeId,
    depth: nat,
)
    requires
        before.linked(),
        before.extended_by(prior),
        prior.extended_by(now),
        tracks(recent, initial, before, prior, root),
        before.nodes.contains_key(template),
        now.copied(prior, floor, recent, template, copy, depth),
    ensures
        now.copied(before, floor, initial, template, copy, depth),
    decreases depth,
{
    assert forall|label: Edge|
        #![trigger now.children.contains_key((copy, label))]
        #![trigger before.children.contains_key((template, label))]
        now.children.contains_key((copy, label)) <==> before.children.contains_key(
            (template, label),
        ) by {
        if prior.children.contains_key((template, label)) {
            assert(before.children.contains_key((template, label)));
        }
        if before.children.contains_key((template, label)) {
            assert(prior.children.contains_key((template, label)));
        }
    }
    assert forall|label: Edge| #[trigger]
        before.children.contains_key((template, label)) implies if label.is_binder() {
        now.referent(
            before,
            initial,
            before.children[(template, label)],
            now.children[(copy, label)],
        )
    } else {
        depth > 0 && now.copied(
            before,
            floor,
            initial,
            before.children[(template, label)],
            now.children[(copy, label)],
            (depth - 1) as nat,
        )
    } by {
        let target = before.children[(template, label)];
        let image = now.children[(copy, label)];
        assert(prior.children.contains_key((template, label)));
        assert(prior.children[(template, label)] == target);
        assert(before.nodes.contains_key(target));
        if label.is_binder() {
            assert(now.referent(prior, recent, target, image));
            if image == target {
            } else if recent.contains_key(target) && image == recent[target] {
                if initial.contains_key(target) && recent[target] == initial[target] {
                } else {
                    assert(prior.nodes.contains_key(image));
                    assert(now.nodes.contains_key(image));
                }
            } else {
                assert(prior.nodes[target] == before.nodes[target]);
            }
        } else {
            lemma_copied_rebase(
                now,
                prior,
                before,
                floor,
                recent,
                initial,
                root,
                target,
                image,
                (depth - 1) as nat,
            );
        }
    }
}

/// What a node of a graph reaches in an extension of the graph, it
/// reaches in the graph itself.
pub proof fn lemma_reaches_before(before: GraphView, prior: GraphView, a: NodeId, b: NodeId)
    requires
        before.linked(),
        before.extended_by(prior),
        before.nodes.contains_key(a),
        prior.reaches(a, b),
    ensures
        before.reaches(a, b),
        before.nodes.contains_key(b),
{
    let path = choose|path: Seq<NodeId>| #[trigger]
        prior.is_path(path) && path[0] == a && path.last() == b;
    lemma_path_before(before, prior, path, path.len() - 1);
    assert forall|i: int| 0 <= i < path.len() - 1 implies before.steps_to(
        #[trigger] path[i],
        path[i + 1],
    ) by {
        lemma_path_before(before, prior, path, i + 1);
    }
    assert(before.is_path(path) && path[0] == a && path.last() == b);
}

proof fn lemma_path_before(before: GraphView, prior: GraphView, path: Seq<NodeId>, i: int)
    requires
        before.linked(),
        before.extended_by(prior),
        prior.is_path(path),
        before.nodes.contains_key(path[0]),
        0 <= i < path.len(),
    ensures
        before.nodes.contains_key(path[i]),
        i > 0 ==> before.steps_to(path[i - 1], path[i]),
    decreases i,
{
    if i > 0 {
        lemma_path_before(before, prior, path, i - 1);
        assert(prior.steps_to(path[i - 1], path[i - 1 + 1]));
        let label = choose|label: Edge|
            !label.is_binder() && #[trigger] prior.children.contains_key((path[i - 1], label))
                && prior.children[(path[i - 1], label)] == path[i];
        assert(before.children.contains_key((path[i - 1], label)));
    }
}

/// Tracking composes: what a copy of a child's subtree added to the map
/// is added to the map of the copy of the parent's subtree.
pub proof fn lemma_tracks_trans(
    latest: Map<NodeId, NodeId>,
    recent: Map<NodeId, NodeId>,
    initial: Map<NodeId, NodeId>,
    before: GraphView,
    prior: GraphView,
    now: GraphView,
    root: NodeId,
    child: NodeId,
)
    requires
        before.linked(),
        before.extended_by(prior),
        prior.extended_by(now),
        before.steps_to(root, child),
        before.nodes.contains_key(child),
        tracks(recent, initial, before, prior, root),
        tracks(latest, recent, prior, now, child),
    ensures
        tracks(latest, initial, before, now, root),
{
    assert forall|k: NodeId| #[trigger] latest.contains_key(k) implies (initial.contains_key(k)
        && latest[k] == initial[k]) || (before.nodes.contains_key(k) && before.reaches(root, k)
        && !before.nodes.contains_key(latest[k]) && now.nodes.contains_key(latest[k])
        && now.nodes[latest[k]] == before.nodes[k]) by {
        if recent.contains_key(k) && latest[k] == recent[k] {
            if !(initial.contains_key(k) && recent[k] == initial[k]) {
                assert(prior.nodes.contains_key(recent[k]));
            }
        } else {
            assert(prior.reaches(child, k));
            lemma_reaches_before(before, prior, child, k);
            lemma_reaches_after_step(before, root, child, k);
        }
    }
}

/// The copy that `remap` knows for `key`, or `key` itself.
fn lookup(remap: &HashMap<NodeId, NodeId>, key: NodeId) -> (r: NodeId)
    ensures
        r == resolved(remap@, key),
{
    match remap.get(&key) {
        Some(copy) => *copy,
        None => key,
    }
}

impl AST {
    /// Deletes `node` and every node in its subtree, with every edge that
    /// touches one of them. A node that is not live has no subtree.
    pub fn remove_subtree(&mut self, node: NodeId)
        requires
            old(self).wf(),
        ensures
            final(self).wf(),
            final(self)@ == old(self)@.without_subtree(node),
            final(self).edge_total() <= old(self).edge_total(),
    {
        let mut witnesses: Vec<NodeId> = Vec::new();
        self.remove_subtree_noting(node, &mut witnesses);
    }

    /// Deletes the subtree of `node` as [`Self::remove_subtree`] does, and
    /// then makes sure that no bound variable that is left has lost its
    /// binder. Where one has, a reference led into the subtree from
    /// outside of it, and the result is `InvalidClosureChain`.
    pub fn remove_subtree_checked(&mut self, node: NodeId) -> (r: Result<(), ASTError>)
        requires
            old(self).wf(),
        ensures
            final(self).wf(),
            final(self)@ == old(self)@.without_subtree(node),
            final(self).edge_total() <= old(self).edge_total(),
            r is Ok && old(self)@.well_bound() ==> final(self)@.well_bound(),
            r is Err ==> r->Err_0 == ASTError::InvalidClosureChain && !final(self)@.well_bound(),
    {
        let mut witnesses: Vec<NodeId> = Vec::new();
        proof {
            self.lemma_linked();
        }
        self.remove_subtree_noting(node, &mut witnesses);
        let mut i: usize = 0;
        while i < witnesses.len()
            invariant
                0 <= i <= witnesses.len(),
                self.wf(),
                self@ == old(self)@.without_subtree(node),
                self.edge_total() <= old(self).edge_total(),
                old(self)@.linked(),
                forall|k: (NodeId, Edge)| #[trigger]
                    old(self)@.children.contains_key(k) && k.1.is_binder()
                        && !self@.nodes.contains_key(old(self)@.children[k])
                        && self@.nodes.contains_key(k.0) ==> witnesses@.contains(k.0),
                forall|j: int|
                    0 <= j < i ==> (self@.is_bound_variable(#[trigger] witnesses@[j])
                        ==> self@.binds(witnesses@[j])) && (self@.is_data(witnesses@[j])
                        ==> self@.kept_at(witnesses@[j])),
            decreases witnesses.len() - i,
        {
            if !self.check_variable_integrity(witnesses[i]) {
                return Err(ASTError::InvalidClosureChain);
            }
            if !self.check_constructor(witnesses[i]) {
                return Err(ASTError::InvalidClosureChain);
            }
            i += 1;
        }
        proof {
            let before = old(self)@;
            let now = self@;
            if before.well_bound() {
                assert forall|variable: NodeId| #[trigger]
                    now.is_bound_variable(variable) implies now.binds(variable) by {
                    assert(before.is_bound_variable(variable));
                    assert(before.binds(variable));
                    let k = (variable, Edge::Binder(0));
                    let target = before.children[k];
                    assert(before.children.contains_key(k));
                    assert(before.nodes.contains_key(target));
                    if !now.nodes.contains_key(target) {
                        assert(witnesses@.contains(variable));
                        let j = choose|j: int|
                            0 <= j < witnesses@.len() && witnesses@[j] == variable;
                        assert(self@.is_bound_variable(witnesses@[j]) ==> self@.binds(
                            witnesses@[j],
                        ));
                    } else {
                        assert(now.children.contains_key(k));
                        assert forall|label: Edge| #[trigger]
                            now.children.contains_key((variable, label)) implies label
                            == Edge::Binder(0) by {
                            assert(before.children.contains_key((variable, label)));
                        }
                    }
                }
                assert forall|data: NodeId| #[trigger] now.is_data(data) implies now.kept_at(
                    data,
                ) by {
                    assert(before.is_data(data));
                    assert(before.kept_at(data));
                    assert forall|label: Edge| #[trigger]
                        now.children.contains_key((data, label)) implies (label is Binder
                        && label->Binder_0 < now.nodes[data]->Data_tag.spec_arity()
                        && now.is_binder(now.children[(data, label)])) by {
                        assert(before.children.contains_key((data, label)));
                    }
                    if now.is_constructor(data) {
                        assert forall|i: usize|
                            i < now.nodes[data]->Data_tag.spec_arity() implies #[trigger] now.children.contains_key(
                            (data, Edge::Binder(i)),
                        ) by {
                            let k = (data, Edge::Binder(i));
                            assert(before.children.contains_key(k));
                            let target = before.children[k];
                            assert(before.nodes.contains_key(target));
                            if !now.nodes.contains_key(target) {
                                assert(witnesses@.contains(data));
                                let j = choose|j: int|
                                    0 <= j < witnesses@.len() && witnesses@[j] == data;
                                assert(self@.is_data(witnesses@[j]) ==> self@.kept_at(
                                    witnesses@[j],
                                ));
                            }
                        }
                    }
                }
            }
        }
        Ok(())
    }

    /// Deletes the subtree of `node` and notes in `witnesses` every node
    /// that referred to a node of the subtree when that node was deleted.
    /// Whatever is left and had a binder edge into the subtree is among
    /// the witnesses.
    pub fn remove_subtree_noting(&mut self, node: NodeId, witnesses: &mut Vec<NodeId>)
        requires
            old(self).wf(),
        ensures
            final(self).wf(),
            final(self)@ == old(self)@.without_subtree(node),
            final(self).edge_total() <= old(self).edge_total(),
            forall|w: NodeId| old(witnesses)@.contains(w) ==> final(witnesses)@.contains(w),
            forall|k: (NodeId, Edge)| #[trigger]
                old(self)@.children.contains_key(k) && k.1.is_binder()
                    && !final(self)@.nodes.contains_key(old(self)@.children[k])
                        && final(self)@.nodes.contains_key(
                    k.0,
                ) ==> final(witnesses)@.contains(k.0),
        decreases old(self)@.nodes.dom().len(),
    {
        let ghost before = self@;
        proof {
            self.lemma_linked();
        }
        if !self.contains_node(node) {
            proof {
                assert(before.nodes_outside(node) =~= before.nodes);
                assert(before.without_subtree(node).children =~= before.children);
            }
            return ;
        }
        let references = self.binder_references(node);
        let mut r: usize = 0;
        while r < references.len()
            invariant
                0 <= r <= references.len(),
                forall|w: NodeId| old(witnesses)@.contains(w) ==> witnesses@.contains(w),
                forall|j: int| 0 <= j < r
                    ==> witnesses@.contains((#[trigger] references@[j]).source),
            decreases references.len() - r,
        {
            let ghost noted = witnesses@;
            witnesses.push(references[r].source);
            proof {
                assert(witnesses@.last() == references@[r as int].source);
                assert forall|w: NodeId| noted.contains(w) implies witnesses@.contains(w) by {
                    let j = choose|j: int| 0 <= j < noted.len() && noted[j] == w;
                    assert(witnesses@[j] == w);
                }
            }
            r += 1;
        }
        proof {
            assert forall|k: (NodeId, Edge)| #[trigger]
                before.children.contains_key(k)
                    && before.refers(k, node) implies witnesses@.contains(
                k.0,
            ) by {
                assert(lists_key(references@, k));
                let j = choose|j: int|
                    0 <= j < references@.len() && (#[trigger] references@[j]).key() == k;
                assert(witnesses@.contains(references@[j].source));
            }
        }
        let arrows = self.outgoing(node);
        let _ = self.remove_node(node);
        proof {
            assert(self@.children =~= before.restricted_to(self@.nodes).children);
            assert(self@.nodes.dom().subset_of(before.nodes.dom().remove(node)));
            vstd::set_lib::lemma_len_subset(self@.nodes.dom(), before.nodes.dom().remove(node));
            lemma_reaches_self(before, node);
        }
        let mut i: usize = 0;
        while i < arrows.len()
            invariant
                0 <= i <= arrows.len(),
                self.wf(),
                before == old(self)@,
                before.linked(),
                before.nodes.contains_key(node),
                lists_children_of(arrows@, before.children, node),
                self.edge_total() <= old(self).edge_total(),
                before.keeps(self@.nodes),
                self@ == before.restricted_to(self@.nodes),
                !self@.nodes.contains_key(node),
                self@.nodes.dom().len() < before.nodes.dom().len(),
                forall|w: NodeId| old(witnesses)@.contains(w) ==> witnesses@.contains(w),
                forall|k: (NodeId, Edge)| #[trigger]
                    before.children.contains_key(k) && k.1.is_binder()
                        && !self@.nodes.contains_key(before.children[k])
                        && self@.nodes.contains_key(k.0) ==> witnesses@.contains(k.0),
                forall|x: NodeId|
                    before.nodes.contains_key(x) && !self@.nodes.contains_key(x)
                        ==> #[trigger] before.reaches(node, x),
                forall|k: (NodeId, Edge)| #[trigger]
                    before.children.contains_key(k) && !k.1.is_binder()
                        && !self@.nodes.contains_key(k.0) && self@.nodes.contains_key(
                        before.children[k],
                    ) ==> k.0 == node && exists|j: int|
                        i <= j < arrows@.len() && (#[trigger] arrows@[j]).key() == k,
            decreases arrows.len() - i,
        {
            let arrow = arrows[i];
            let ghost prior = self@;
            let ghost noted = witnesses@;
            proof {
                assert(before.children.contains_key(arrows@[i as int].key()));
            }
            if !arrow.label.is_reference() {
                self.remove_subtree_noting(arrow.target, witnesses);
                proof {
                    let now = self@;
                    assert forall|k: (NodeId, Edge)| #[trigger]
                        before.children.contains_key(k) && k.1.is_binder()
                            && !now.nodes.contains_key(before.children[k])
                            && now.nodes.contains_key(k.0) implies witnesses@.contains(k.0) by {
                        assert(prior.nodes.contains_key(k.0));
                        if prior.nodes.contains_key(before.children[k]) {
                            assert(prior.children.contains_key(k));
                        } else {
                            assert(noted.contains(k.0));
                        }
                    }
                    assert(now == prior.without_subtree(arrow.target));
                    let kept = prior.nodes_outside(arrow.target);
                    assert(now.nodes == kept);
                    lemma_restricted_twice(before, prior.nodes, kept);
                    assert(now.nodes.dom().subset_of(prior.nodes.dom()));
                    prior_finite(prior, before);
                    vstd::set_lib::lemma_len_subset(now.nodes.dom(), prior.nodes.dom());
                    assert(before.steps_to(node, arrow.target)) by {
                        assert(before.children.contains_key((node, arrow.label)));
                    }
                    assert forall|x: NodeId|
                        before.nodes.contains_key(x) && !now.nodes.contains_key(
                            x,
                        ) implies #[trigger] before.reaches(node, x) by {
                        if prior.nodes.contains_key(x) {
                            assert(prior.reaches(arrow.target, x));
                            lemma_reaches_in_part(before, prior.nodes, arrow.target, x);
                            lemma_reaches_after_step(before, node, arrow.target, x);
                        }
                    }
                    assert forall|k: (NodeId, Edge)| #[trigger]
                        before.children.contains_key(k) && !k.1.is_binder()
                            && !now.nodes.contains_key(k.0) && now.nodes.contains_key(
                            before.children[k],
                        ) implies k.0 == node && exists|j: int|
                        i + 1 <= j < arrows@.len() && (#[trigger] arrows@[j]).key() == k by {
                        let y = before.children[k];
                        assert(prior.nodes.contains_key(y));
                        if prior.nodes.contains_key(k.0) {
                            // the source went in this step, so the target went with it
                            assert(prior.children.contains_key(k));
                            assert(prior.reaches(arrow.target, k.0));
                            assert(prior.steps_to(k.0, y));
                            lemma_reaches_then_step(prior, arrow.target, k.0, y);
                            assert(false);
                        } else {
                            let j = choose|j: int|
                                i <= j < arrows@.len() && (#[trigger] arrows@[j]).key() == k;
                            if j == i {
                                assert(y == arrow.target);
                                lemma_reaches_self(prior, arrow.target);
                                assert(false);
                            }
                        }
                    }
                }
            } else {
                proof {
                    assert forall|k: (NodeId, Edge)| #[trigger]
                        before.children.contains_key(k) && !k.1.is_binder()
                            && !self@.nodes.contains_key(k.0) && self@.nodes.contains_key(
                            before.children[k],
                        ) implies k.0 == node && exists|j: int|
                        i + 1 <= j < arrows@.len() && (#[trigger] arrows@[j]).key() == k by {
                        let j = choose|j: int|
                            i <= j < arrows@.len() && (#[trigger] arrows@[j]).key() == k;
                        assert(j != i);
                    }
                }
            }
            i += 1;
        }
        proof {
            let now = self@;
            let gone = Set::new(
                |x: NodeId| before.nodes.contains_key(x) && !now.nodes.contains_key(x),
            );
            assert forall|x: NodeId, y: NodeId|
                gone.contains(x) && #[trigger] before.steps_to(x, y) implies gone.contains(y) by {
                let label = choose|label: Edge|
                    !label.is_binder() && #[trigger] before.children.contains_key((x, label))
                        && before.children[(x, label)] == y;
                assert(before.children.contains_key((x, label)));
                if now.nodes.contains_key(y) {
                    let k = (x, label);
                    assert(before.children.contains_key(k) && !k.1.is_binder());
                    assert(false);
                }
            }
            assert forall|x: NodeId| before.nodes.contains_key(x) && before.reaches(
                node,
                x,
            ) implies !now.nodes.contains_key(x) by {
                assert(gone.contains(node));
                lemma_closed_holds_reached(before, gone, node, x);
            }
            assert(now.nodes =~= before.nodes_outside(node));
        }
    }

    /// Copies the subtree of `node` and returns the copy's root. Every
    /// node of the subtree and every edge that is no binder edge is
    /// duplicated. A binder edge of a copy points where `remap` says: at
    /// the copy of its target if the target was copied before the edge's
    /// source, and at the target itself if it lies outside of what is
    /// copied. `remap` is extended by each node that is copied.
    ///
    /// The copy goes at most `fuel` levels deep and fails with `Exhausted`
    /// if the subtree is deeper. On any failure the graph holds what it
    /// held before, plus the unfinished copy.
    ///
    /// Below the root of the copy too, each binder edge points where
    /// `remap` said when its source was copied, see
    /// [`GraphView::binds_as`].
    ///
    /// With a `remap` that maps to live nodes, the copy succeeds exactly
    /// when the subtree is at most `fuel` levels deep and there is room
    /// for its nodes and edges, see [`GraphView::within`],
    /// [`GraphView::copy_nodes`] and [`GraphView::copy_edges`]; the graph
    /// then grows by exactly that many. It fails only as
    /// [`GraphView::copy_fails`] says.
    #[verifier::rlimit(100)]
    pub fn clone_subtree(
        &mut self,
        node: NodeId,
        remap: &mut HashMap<NodeId, NodeId>,
        fuel: u64,
    ) -> (r: Result<NodeId, ASTError>)
        requires
            old(self).wf(),
        ensures
            final(self).wf(),
            old(self)@.extended_by(final(self)@),
            tracks(final(remap)@, old(remap)@, old(self)@, final(self)@, node),
            match r {
                Ok(copy) => fuel > 0 && final(self)@.copied(
                    old(self)@,
                    old(self)@,
                    old(remap)@,
                    node,
                    copy,
                    (fuel - 1) as nat,
                ) && forall|label: Edge| #[trigger]
                    old(self)@.children.contains_key((node, label)) && label.is_binder()
                        ==> final(self)@.children[(copy, label)] == resolved(
                        old(remap)@.insert(node, copy),
                        old(self)@.children[(node, label)],
                    ),
                Err(e) => e is Full || e is Exhausted || e is Custom,
            },
            r is Ok && old(self)@.well_bound() && remap_sound(old(remap)@, old(self)@)
                ==> final(self)@.well_bound(),
            r is Ok ==> !old(self)@.nodes.contains_key(r->Ok_0),
            r is Ok ==> old(self)@.within(node, fuel as nat) && final(self).grown(
                *old(self),
                old(self)@.copy_nodes(node, fuel as nat),
                old(self)@.copy_edges(node, fuel as nat),
            ),
            r is Err ==> old(self)@.copy_fails(old(remap)@, node, fuel as nat, r->Err_0),
            remap_live(old(remap)@, old(self)@) ==> remap_live(final(remap)@, final(self)@),
            r is Ok ==> final(self)@.binds_as(
                old(self)@,
                old(remap)@,
                node,
                r->Ok_0,
                (fuel - 1) as nat,
            ),
            old(self)@.is_leaf(node) ==> (match r {
                Ok(copy) => fuel > 0 && old(self)@.nodes.dom().len() < u32::MAX && final(self)@
                    == old(self)@.with_node(copy, old(self)@.nodes[node]),
                Err(e) => final(self)@ == old(self)@ && if fuel == 0 {
                    e == ASTError::Exhausted
                } else {
                    e == ASTError::Full && old(self)@.nodes.dom().len() >= u32::MAX
                },
            }),
        decreases fuel,
    {
        let ghost sound = self@.well_bound() && remap_sound(remap@, self@);
        let ghost leaf = self@.is_leaf(node);
        let ghost live = remap_live(remap@, self@);
        let ghost total_nodes = self@.copy_nodes(node, fuel as nat);
        let ghost total_edges = self@.copy_edges(node, fuel as nat);
        let ghost start_nodes = self@.nodes.dom().len();
        let ghost start_edges = self.edge_total();
        let ghost roomy = self@.room(total_nodes, total_edges);
        proof {
            self.lemma_room(total_nodes, total_edges);
        }
        if fuel == 0 {
            return Err(ASTError::Exhausted);
        }
        let weight = match self.node(node) {
            Some(weight) => weight.duplicate(),
            None => {
                return Err(ASTError::Custom(node, "no such node"));
            },
        };
        let arrows = self.outgoing(node);
        let ghost before = self@;
        let ghost initial = remap@;
        proof {
            self.lemma_linked();
        }
        let copy = match self.add_node(weight) {
            Ok(copy) => copy,
            Err(e) => {
                return Err(ASTError::Full);
            },
        };
        let ghost ground = self@;
        let _ = remap.insert(node, copy);
        let ghost base = initial.insert(node, copy);
        proof {
            lemma_reaches_self(before, node);
            assert(tracks(base, initial, before, ground, node));
            assert(live ==> remap_live(base, ground));
            assert(tracks_below(base, base, before, ground, node));
            if leaf && arrows@.len() > 0 {
                assert(before.children.contains_key(arrows@[0].key()));
                assert(arrows@[0].source == node);
            }
        }
        let mut i: usize = 0;
        while i < arrows.len()
            invariant
                0 <= i <= arrows.len(),
                self.wf(),
                before == old(self)@,
                initial == old(remap)@,
                before.linked(),
                before.nodes.contains_key(node),
                !before.nodes.contains_key(copy),
                ground == before.with_node(copy, before.nodes[node]),
                base == initial.insert(node, copy),
                fuel > 0,
                live == remap_live(initial, before),
                live ==> remap_live(remap@, self@),
                start_nodes == before.nodes.dom().len(),
                start_edges == old(self).edge_total(),
                total_nodes == before.copy_nodes(node, fuel as nat),
                total_edges == before.copy_edges(node, fuel as nat),
                roomy == before.room(total_nodes, total_edges),
                roomy == (start_nodes + total_nodes <= u32::MAX && start_edges + total_edges
                    <= u32::MAX),
                arrows@.len() == before.out_degree(node),
                self@.nodes.dom().len() == start_nodes + 1,
                self.edge_total() == start_edges + binders_in(arrows@, i as int),
                lists_children_of(arrows@, before.children, node),
                leaf == before.is_leaf(node),
                leaf ==> arrows@.len() == 0 && self@ == ground,
                remap@ == base,
                self@.nodes == ground.nodes,
                before.extended_by(self@),
                tracks(remap@, initial, before, self@, node),
                tracks_below(remap@, base, before, self@, node),
                forall|k: (NodeId, Edge)| #[trigger]
                    self@.children.contains_key(k) && !before.children.contains_key(k) ==> k.0
                        == copy && k.1.is_binder() && exists|j: int|
                        0 <= j < i && (#[trigger] arrows@[j]).label == k.1,
                forall|j: int|
                    0 <= j < i && (#[trigger] arrows@[j]).label.is_binder()
                        ==> self@.children.contains_key((copy, arrows@[j].label))
                        && self@.children[(copy, arrows@[j].label)] == resolved(
                        base,
                        arrows@[j].target,
                    ),
            decreases arrows.len() - i,
        {
            let arrow = arrows[i];
            if arrow.label.is_reference() {
                let target = lookup(remap, arrow.target);
                let ghost prior = self@;
                proof {
                    if prior.children.contains_key((copy, arrow.label)) {
                        assert(before.children.contains_key((copy, arrow.label)) || exists|j: int|
                            0 <= j < i && (#[trigger] arrows@[j]).label == arrow.label);
                        if before.children.contains_key((copy, arrow.label)) {
                            assert(before.nodes.contains_key(copy));
                        } else {
                            let j = choose|j: int|
                                0 <= j < i && (#[trigger] arrows@[j]).label == arrow.label;
                            assert(arrows@[j].key() == arrows@[i as int].key());
                        }
                    }
                }
                proof {
                    lemma_binders_bound(arrows@, i + 1, arrows@.len() as int);
                    lemma_binders_bound(arrows@, 0, i + 1);
                    assert(before.children.contains_key(arrows@[i as int].key()));
                    assert(before.nodes.contains_key(arrow.target));
                    assert(prior.nodes.contains_key(copy));
                    assert(live ==> prior.nodes.contains_key(target));
                }
                match self.add_edge(copy, target, arrow.label) {
                    Ok(_) => {},
                    Err(e) => {
                        return Err(e);
                    },
                }
                proof {
                    assert forall|k: (NodeId, Edge)| #[trigger]
                        self@.children.contains_key(k) && !before.children.contains_key(
                            k,
                        ) implies k.0 == copy && k.1.is_binder() && exists|j: int|
                        0 <= j < i + 1 && (#[trigger] arrows@[j]).label == k.1 by {
                        if k == (copy, arrow.label) {
                            assert(arrows@[i as int].label == k.1);
                        } else {
                            assert(prior.children.contains_key(k));
                            let j = choose|j: int|
                                0 <= j < i && (#[trigger] arrows@[j]).label == k.1;
                            assert(0 <= j < i + 1 && arrows@[j].label == k.1);
                        }
                    }
                    assert forall|j: int|
                        0 <= j < i + 1 && (#[trigger] arrows@[j]).label.is_binder() implies self@.children.contains_key(
                        (copy, arrows@[j].label)) && self@.children[(copy, arrows@[j].label)]
                        == resolved(base, arrows@[j].target) by {
                        if j < i {
                            assert(arrows@[j].key() != arrows@[i as int].key());
                        }
                    }
                    assert(before.extended_by(self@)) by {
                        assert forall|k: (NodeId, Edge)| #[trigger]
                            before.children.contains_key(k) implies self@.children.contains_key(k)
                            && self@.children[k] == before.children[k] by {
                            assert(prior.children.contains_key(k));
                            assert(before.nodes.contains_key(k.0));
                        }
                    }
                }
            }
            i += 1;
        }
        proof {
            if sound {
                lemma_remap_sound(base, initial, before, self@, node);
                if self@.is_bound_variable(copy) {
                    assert(before.is_bound_variable(node));
                    assert(before.binds(node));
                    assert(lists_key(arrows@, (node, Edge::Binder(0))));
                    let j = choose|j: int|
                        0 <= j < arrows@.len() && (#[trigger] arrows@[j]).key() == (
                        node,
                        Edge::Binder(0),
                    );
                    assert(arrows@[j].label == Edge::Binder(0));
                    assert(before.children.contains_key(arrows@[j].key()));
                    let target = arrows@[j].target;
                    assert(before.is_binder(target));
                    assert(self@.children[(copy, Edge::Binder(0))] == resolved(base, target));
                    if base.contains_key(target) {
                        assert(self@.is_binder(base[target]));
                    } else {
                        assert(self@.nodes.contains_key(target));
                    }
                    assert forall|label: Edge| #[trigger]
                        self@.children.contains_key((copy, label)) implies label == Edge::Binder(
                        0,
                    ) by {
                        if before.children.contains_key((copy, label)) {
                            assert(before.nodes.contains_key(copy));
                        } else {
                            let x = choose|x: int|
                                0 <= x < arrows@.len() && (#[trigger] arrows@[x]).label == label;
                            assert(before.children.contains_key(arrows@[x].key()));
                            assert(before.children.contains_key((node, label)));
                        }
                    }
                    assert(self@.binds(copy));
                }
                if self@.is_data(copy) {
                    assert(before.is_data(node));
                    assert(before.kept_at(node));
                    assert forall|label: Edge| #[trigger]
                        self@.children.contains_key((copy, label)) implies (label is Binder
                        && label->Binder_0 < self@.nodes[copy]->Data_tag.spec_arity()
                        && self@.is_binder(self@.children[(copy, label)])) by {
                        if before.children.contains_key((copy, label)) {
                            assert(before.nodes.contains_key(copy));
                        } else {
                            let x = choose|x: int|
                                0 <= x < arrows@.len() && (#[trigger] arrows@[x]).label == label;
                            assert(before.children.contains_key(arrows@[x].key()));
                            assert(before.children.contains_key((node, label)));
                            let target = arrows@[x].target;
                            assert(before.is_binder(target));
                            assert(self@.children[(copy, label)] == resolved(base, target));
                            if base.contains_key(target) {
                                assert(self@.is_binder(base[target]));
                            } else {
                                assert(self@.nodes.contains_key(target));
                            }
                        }
                    }
                    if self@.is_constructor(copy) {
                        assert forall|i: usize|
                            i < self@.nodes[copy]->Data_tag.spec_arity() implies #[trigger] self@.children.contains_key(
                            (copy, Edge::Binder(i)),
                        ) by {
                            let k = (node, Edge::Binder(i));
                            assert(before.children.contains_key(k));
                            assert(lists_key(arrows@, k));
                            let x = choose|x: int|
                                0 <= x < arrows@.len() && (#[trigger] arrows@[x]).key() == k;
                            assert(arrows@[x].label == Edge::Binder(i));
                        }
                    }
                    assert(self@.kept_at(copy));
                }
                lemma_bound_extended(before, self@);
            }
        }
        let mut i: usize = 0;
        while i < arrows.len()
            invariant
                0 <= i <= arrows.len(),
                fuel > 0,
                sound == (before.well_bound() && remap_sound(initial, before)),
                sound ==> self@.well_bound(),
                leaf == before.is_leaf(node),
                leaf ==> arrows@.len() == 0 && self@ == ground,
                self.wf(),
                before == old(self)@,
                initial == old(remap)@,
                before.linked(),
                before.nodes.contains_key(node),
                !before.nodes.contains_key(copy),
                ground == before.with_node(copy, before.nodes[node]),
                base == initial.insert(node, copy),
                live == remap_live(initial, before),
                live ==> remap_live(remap@, self@),
                start_nodes == before.nodes.dom().len(),
                start_edges == old(self).edge_total(),
                total_nodes == before.copy_nodes(node, fuel as nat),
                total_edges == before.copy_edges(node, fuel as nat),
                roomy == before.room(total_nodes, total_edges),
                roomy == (start_nodes + total_nodes <= u32::MAX && start_edges + total_edges
                    <= u32::MAX),
                arrows@.len() == before.out_degree(node),
                self@.nodes.dom().len() == start_nodes + 1 + before.nodes_done(
                    arrows@,
                    i as int,
                    node,
                    Edge::Body,
                    (fuel - 1) as nat,
                ) + before.nodes_done(arrows@, i as int, node, Edge::Parameter, (fuel - 1) as nat)
                    + before.nodes_done(arrows@, i as int, node, Edge::Function, (fuel - 1) as nat)
                    + before.nodes_done(arrows@, i as int, node, Edge::Debug, (fuel - 1) as nat),
                self.edge_total() == start_edges + binders_in(arrows@, arrows@.len() as int) + (i
                    - binders_in(arrows@, i as int)) + before.edges_done(
                    arrows@,
                    i as int,
                    node,
                    Edge::Body,
                    (fuel - 1) as nat,
                ) + before.edges_done(arrows@, i as int, node, Edge::Parameter, (fuel - 1) as nat)
                    + before.edges_done(arrows@, i as int, node, Edge::Function, (fuel - 1) as nat)
                    + before.edges_done(arrows@, i as int, node, Edge::Debug, (fuel - 1) as nat),
                forall|j: int|
                    0 <= j < i && !(#[trigger] arrows@[j]).label.is_binder() ==> before.within(
                        arrows@[j].target,
                        (fuel - 1) as nat,
                    ),
                lists_children_of(arrows@, before.children, node),
                before.extended_by(self@),
                tracks(remap@, initial, before, self@, node),
                tracks_below(remap@, base, before, self@, node),
                forall|j: int|
                    0 <= j < i && !(#[trigger] arrows@[j]).label.is_binder()
                        ==> self@.bound_below(
                        before,
                        base,
                        node,
                        arrows@[j].target,
                        self@.children[(copy, arrows@[j].label)],
                        (fuel - 2) as nat,
                    ),
                forall|n: NodeId| #[trigger]
                    ground.nodes.contains_key(n) ==> self@.nodes.contains_key(n) && self@.nodes[n]
                        == ground.nodes[n],
                forall|label: Edge| #[trigger]
                    self@.children.contains_key((copy, label)) ==> exists|j: int|
                        0 <= j < arrows@.len() && (#[trigger] arrows@[j]).label == label && (
                        label.is_binder() || j < i),
                forall|j: int|
                    0 <= j < arrows@.len() && (#[trigger] arrows@[j]).label.is_binder()
                        ==> self@.children.contains_key((copy, arrows@[j].label))
                        && self@.children[(copy, arrows@[j].label)] == resolved(
                        base,
                        arrows@[j].target,
                    ),
                forall|j: int|
                    0 <= j < i && !(#[trigger] arrows@[j]).label.is_binder() ==> fuel > 1
                        && self@.children.contains_key((copy, arrows@[j].label)) && self@.copied(
                        before,
                        ground,
                        initial,
                        arrows@[j].target,
                        self@.children[(copy, arrows@[j].label)],
                        (fuel - 2) as nat,
                    ),
            decreases arrows.len() - i,
        {
            let arrow = arrows[i];
            proof {
                if arrow.label.is_binder() {
                    lemma_seen_step(arrows@, i as int, Edge::Body);
                    lemma_seen_step(arrows@, i as int, Edge::Parameter);
                    lemma_seen_step(arrows@, i as int, Edge::Function);
                    lemma_seen_step(arrows@, i as int, Edge::Debug);
                }
            }
            if !arrow.label.is_reference() {
                let ghost prior = self@;
                let ghost recent = remap@;
                proof {
                    self.lemma_linked();
                    assert(before.children.contains_key(arrows@[i as int].key()));
                    assert(before.children.contains_key((node, arrow.label)));
                    assert(before.steps_to(node, arrow.target));
                    if sound {
                        lemma_remap_sound(recent, initial, before, prior, node);
                    }
                    self.lemma_room(
                        prior.copy_nodes(arrow.target, (fuel - 1) as nat),
                        prior.copy_edges(arrow.target, (fuel - 1) as nat),
                    );
                    lemma_copy_size_frame(before, prior, arrow.target, (fuel - 1) as nat);
                    lemma_not_seen(arrows@, before.children, node, i as int);
                    lemma_seen_step(arrows@, i as int, Edge::Body);
                    lemma_seen_step(arrows@, i as int, Edge::Parameter);
                    lemma_seen_step(arrows@, i as int, Edge::Function);
                    lemma_seen_step(arrows@, i as int, Edge::Debug);
                    lemma_seen_all(arrows@, before.children, node, Edge::Body);
                    lemma_seen_all(arrows@, before.children, node, Edge::Parameter);
                    lemma_seen_all(arrows@, before.children, node, Edge::Function);
                    lemma_seen_all(arrows@, before.children, node, Edge::Debug);
                    lemma_binders_bound(arrows@, i + 1, arrows@.len() as int);
                    lemma_binders_bound(arrows@, 0, i as int);
                    assert(arrow.label == Edge::Body || arrow.label == Edge::Parameter
                        || arrow.label == Edge::Function || arrow.label == Edge::Debug);
                    assert(before.children[(node, arrow.label)] == arrow.target);
                    assert(!before.within(arrow.target, (fuel - 1) as nat) ==> !before.within(
                        node,
                        fuel as nat,
                    ));
                }
                let child = match self.clone_subtree(arrow.target, remap, fuel - 1) {
                    Ok(child) => child,
                    Err(e) => {
                        proof {
                            crate::builder::lemma_extended_trans(before, prior, self@);
                            lemma_tracks_trans(
                                remap@,
                                recent,
                                initial,
                                before,
                                prior,
                                self@,
                                node,
                                arrow.target,
                            );
                        }
                        return Err(e);
                    },
                };
                let ghost now = self@;
                proof {
                    self.lemma_linked();
                    crate::builder::lemma_extended_trans(before, prior, now);
                    lemma_tracks_trans(
                        remap@,
                        recent,
                        initial,
                        before,
                        prior,
                        now,
                        node,
                        arrow.target,
                    );
                    lemma_tracks_step(
                        remap@,
                        recent,
                        base,
                        before,
                        prior,
                        now,
                        node,
                        arrow.target,
                    );
                    assert(ground.nodes.contains_key(copy));
                    assert(prior.nodes.contains_key(copy));
                    assert(!now.children.contains_key((copy, arrow.label))) by {
                        if now.children.contains_key((copy, arrow.label)) {
                            assert(prior.children.contains_key((copy, arrow.label)));
                            let j = choose|j: int|
                                0 <= j < arrows@.len() && (#[trigger] arrows@[j]).label
                                    == arrow.label && (arrow.label.is_binder() || j < i);
                            assert(arrows@[j].key() == arrows@[i as int].key());
                        }
                    }
                    assert(now.nodes.contains_key(child));
                    assert(now.nodes.contains_key(copy));
                }
                match self.add_edge(copy, child, arrow.label) {
                    Ok(_) => {},
                    Err(e) => {
                        return Err(e);
                    },
                }
                proof {
                    let after = self@;
                    if sound {
                        if now.is_bound_variable(copy) {
                            assert(ground.nodes.contains_key(copy));
                            assert(before.is_bound_variable(node));
                            assert(before.binds(node));
                            assert(before.children.contains_key((node, arrow.label)));
                        }
                        if now.is_data(copy) {
                            assert(ground.nodes.contains_key(copy));
                            assert(before.is_data(node));
                            assert(before.kept_at(node));
                            assert(before.children.contains_key((node, arrow.label)));
                        }
                        lemma_bound_with_edge(now, copy, arrow.label, child);
                    }
                    assert(prior.framed_by(now, ground));
                    assert(now.framed_by(after, ground)) by {
                        assert(ground.nodes.contains_key(copy));
                    }
                    assert(before.extended_by(after)) by {
                        assert forall|k: (NodeId, Edge)| #[trigger]
                            before.children.contains_key(k) implies after.children.contains_key(k)
                            && after.children[k] == before.children[k] by {
                            assert(now.children.contains_key(k));
                            assert(before.nodes.contains_key(k.0));
                        }
                    }
                    lemma_copied_rebase(
                        now,
                        prior,
                        before,
                        prior,
                        recent,
                        initial,
                        node,
                        arrow.target,
                        child,
                        (fuel - 2) as nat,
                    );
                    lemma_copied_floor(
                        now,
                        before,
                        prior,
                        ground,
                        initial,
                        arrow.target,
                        child,
                        (fuel - 2) as nat,
                    );
                    lemma_copied_frame(
                        now,
                        after,
                        before,
                        ground,
                        initial,
                        arrow.target,
                        child,
                        (fuel - 2) as nat,
                    );
                    lemma_binds_rebase(
                        now,
                        prior,
                        before,
                        recent,
                        arrow.target,
                        child,
                        (fuel - 2) as nat,
                    );
                    lemma_tracks_frame(recent, base, before, prior, now, node);
                    assert(tracks_below(recent, base, before, now, node) && now.binds_as(
                        before,
                        recent,
                        arrow.target,
                        child,
                        (fuel - 2) as nat,
                    ));
                    assert(now.bound_below(
                        before,
                        base,
                        node,
                        arrow.target,
                        child,
                        (fuel - 2) as nat,
                    ));
                    lemma_below_frame(
                        now,
                        after,
                        before,
                        ground,
                        base,
                        node,
                        arrow.target,
                        child,
                        (fuel - 2) as nat,
                    );
                    assert forall|j: int|
                        0 <= j < i + 1 && !(#[trigger] arrows@[j]).label.is_binder() implies after.bound_below(
                        before,
                        base,
                        node,
                        arrows@[j].target,
                        after.children[(copy, arrows@[j].label)],
                        (fuel - 2) as nat,
                    ) by {
                        if j < i {
                            assert(arrows@[j].key() != arrows@[i as int].key());
                            let image = prior.children[(copy, arrows@[j].label)];
                            assert(prior.children.contains_key((copy, arrows@[j].label)));
                            lemma_below_frame(
                                prior,
                                now,
                                before,
                                ground,
                                base,
                                node,
                                arrows@[j].target,
                                image,
                                (fuel - 2) as nat,
                            );
                            lemma_below_frame(
                                now,
                                after,
                                before,
                                ground,
                                base,
                                node,
                                arrows@[j].target,
                                image,
                                (fuel - 2) as nat,
                            );
                        }
                    }
                    assert forall|j: int|
                        0 <= j < i + 1 && !(#[trigger] arrows@[j]).label.is_binder() implies fuel
                        > 1 && after.children.contains_key((copy, arrows@[j].label))
                        && after.copied(
                        before,
                        ground,
                        initial,
                        arrows@[j].target,
                        after.children[(copy, arrows@[j].label)],
                        (fuel - 2) as nat,
                    ) by {
                        if j < i {
                            assert(arrows@[j].key() != arrows@[i as int].key());
                            let image = prior.children[(copy, arrows@[j].label)];
                            lemma_copied_frame(
                                prior,
                                now,
                                before,
                                ground,
                                initial,
                                arrows@[j].target,
                                image,
                                (fuel - 2) as nat,
                            );
                            lemma_copied_frame(
                                now,
                                after,
                                before,
                                ground,
                                initial,
                                arrows@[j].target,
                                image,
                                (fuel - 2) as nat,
                            );
                        }
                    }
                    assert forall|j: int|
                        0 <= j < arrows@.len()
                            && (#[trigger] arrows@[j]).label.is_binder() implies after.children.contains_key(
                        (copy, arrows@[j].label)) && after.children[(copy, arrows@[j].label)]
                        == resolved(base, arrows@[j].target) by {
                        assert(prior.children.contains_key((copy, arrows@[j].label)));
                        assert(arrows@[j].key() != arrows@[i as int].key());
                    }
                    assert forall|label: Edge| #[trigger]
                        after.children.contains_key((copy, label)) implies exists|j: int|
                        0 <= j < arrows@.len() && (#[trigger] arrows@[j]).label == label && (
                        label.is_binder() || j < i + 1) by {
                        if label == arrow.label {
                            assert(arrows@[i as int].label == label);
                        } else {
                            assert(now.children.contains_key((copy, label)));
                            assert(prior.children.contains_key((copy, label)));
                            let j = choose|j: int|
                                0 <= j < arrows@.len() && (#[trigger] arrows@[j]).label == label
                                    && (label.is_binder() || j < i);
                            assert(arrows@[j].label == label && (label.is_binder() || j < i + 1));
                        }
                    }
                }
            }
            i += 1;
        }
        proof {
            let now = self@;
            assert(ground.nodes.contains_key(copy));
            assert(now.nodes.contains_key(copy) && now.nodes[copy] == before.nodes[node]);
            assert forall|label: Edge|
                #![trigger now.children.contains_key((copy, label))]
                #![trigger before.children.contains_key((node, label))]
                now.children.contains_key((copy, label)) <==> before.children.contains_key(
                    (node, label),
                ) by {
                if now.children.contains_key((copy, label)) {
                    let j = choose|j: int|
                        0 <= j < arrows@.len() && (#[trigger] arrows@[j]).label == label && (
                        label.is_binder() || j < i);
                    assert(before.children.contains_key(arrows@[j].key()));
                }
                if before.children.contains_key((node, label)) {
                    assert(lists_key(arrows@, (node, label)));
                    let j = choose|j: int|
                        0 <= j < arrows@.len() && (#[trigger] arrows@[j]).key() == (node, label);
                    assert(arrows@[j].label == label);
                }
            }
            assert forall|label: Edge| #[trigger]
                before.children.contains_key((node, label)) implies if label.is_binder() {
                now.referent(
                    before,
                    initial,
                    before.children[(node, label)],
                    now.children[(copy, label)],
                ) && now.children[(copy, label)] == resolved(base, before.children[(node, label)])
            } else {
                fuel - 1 > 0 && now.copied(
                    before,
                    before,
                    initial,
                    before.children[(node, label)],
                    now.children[(copy, label)],
                    (fuel - 2) as nat,
                )
            } by {
                assert(lists_key(arrows@, (node, label)));
                let j = choose|j: int|
                    0 <= j < arrows@.len() && (#[trigger] arrows@[j]).key() == (node, label);
                assert(arrows@[j].label == label);
                assert(before.children.contains_key(arrows@[j].key()));
                assert(arrows@[j].target == before.children[(node, label)]);
                if !label.is_binder() {
                    lemma_copied_floor(
                        now,
                        before,
                        ground,
                        before,
                        initial,
                        arrows@[j].target,
                        now.children[(copy, label)],
                        (fuel - 2) as nat,
                    );
                }
            }
            assert(now.copied(before, before, initial, node, copy, (fuel - 1) as nat));
            assert forall|label: Edge| #[trigger]
                before.children.contains_key((node, label)) implies now.children.contains_key(
                (copy, label),
            ) && (if label.is_binder() {
                now.children[(copy, label)] == resolved(base, before.children[(node, label)])
            } else {
                fuel - 1 > 0 && now.bound_below(
                    before,
                    base,
                    node,
                    before.children[(node, label)],
                    now.children[(copy, label)],
                    (fuel - 2) as nat,
                )
            }) by {
                assert(lists_key(arrows@, (node, label)));
                let j = choose|j: int|
                    0 <= j < arrows@.len() && (#[trigger] arrows@[j]).key() == (node, label);
                assert(arrows@[j].label == label);
                assert(before.children.contains_key(arrows@[j].key()));
                assert(arrows@[j].target == before.children[(node, label)]);
            }
            assert(now.binds_as(before, initial, node, copy, (fuel - 1) as nat));
        }
        Ok(copy)
    }
}

proof fn prior_finite(prior: GraphView, before: GraphView)
    requires
        before.linked(),
        before.keeps(prior.nodes),
    ensures
        prior.nodes.dom().finite(),
{
    assert(prior.nodes.dom().subset_of(before.nodes.dom()));
    vstd::set_lib::lemma_len_subset(prior.nodes.dom(), before.nodes.dom());
}

} // verus!
