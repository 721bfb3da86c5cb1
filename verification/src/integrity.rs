//! The invariants of the data model, and a check that decides them.
//!
//! - Every bound variable has exactly one outgoing edge, `Binder(0)`, and
//!   it points at a lambda or a closure.
//! - Every data node whose tag takes k arguments has exactly the outgoing
//!   edges `Binder(0)` to `Binder(k - 1)`; each points at a lambda or a
//!   closure, and no two at the same one. (A data node under the lambdas
//!   that collect its arguments refers to those lambdas; each becomes a
//!   closure when it is applied.)
use vstd::prelude::*;
use crate::ast::lists_children_of;
use crate::ast::lists_key;
use crate::ast::GraphView;
use crate::ast::NodeId;
use crate::ast::AST;
use crate::node::Edge;
use crate::node::Node;
use crate::node::NodeView;
use crate::reduce::Kind;
use crate::tags::ConstructorTag;

verus! {

impl GraphView {
    /// A lambda or a closure: what a binder edge may point at.
    pub open spec fn is_binder(self, node: NodeId) -> bool {
        self.is_lambda(node) || self.is_closure(node)
    }

    pub open spec fn is_data(self, node: NodeId) -> bool {
        self.nodes.contains_key(node) && self.nodes[node] is Data
    }

    /// The one outgoing edge of `variable` is `Binder(0)`, and it points
    /// at a lambda or a closure.
    pub open spec fn binds(self, variable: NodeId) -> bool {
        &&& self.children.contains_key((variable, Edge::Binder(0)))
        &&& self.is_binder(self.children[(variable, Edge::Binder(0))])
        &&& forall|label: Edge| #[trigger]
            self.children.contains_key((variable, label)) ==> label == Edge::Binder(0)
    }

    /// Binder uniqueness: every bound variable binds.
    pub open spec fn binders_unique(self) -> bool {
        forall|variable: NodeId| #[trigger]
            self.is_bound_variable(variable) ==> self.binds(variable)
    }

    /// The outgoing edges of the data node `data` are `Binder(0)` to
    /// `Binder(k - 1)`, where its tag takes k arguments; each points at a
    /// lambda or a closure, and no two at the same one.
    pub open spec fn saturated(self, data: NodeId) -> bool {
        let arity = self.nodes[data]->Data_tag.spec_arity();
        &&& forall|label: Edge| #[trigger]
            self.children.contains_key((data, label)) <==> (label is Binder && label->Binder_0
                < arity)
        &&& forall|i: usize|
            i < arity ==> self.is_binder(#[trigger] self.children[(data, Edge::Binder(i))])
        &&& forall|i: usize, j: usize|
            i < j < arity ==> #[trigger] self.children[(data, Edge::Binder(i))]
                != #[trigger] self.children[(data, Edge::Binder(j))]
    }

    /// Data arity: every data node is saturated.
    pub open spec fn data_arity(self) -> bool {
        forall|data: NodeId| #[trigger] self.is_data(data) ==> self.saturated(data)
    }

    /// Both invariants hold.
    pub open spec fn integral(self) -> bool {
        self.binders_unique() && self.data_arity()
    }

    /// Every edge of the data node `data` is `Binder(i)` for an argument i
    /// of its tag, and points at a lambda or a closure.
    pub open spec fn fits(self, data: NodeId) -> bool {
        forall|label: Edge| #[trigger]
            self.children.contains_key((data, label)) ==> label is Binder && label->Binder_0
                < self.nodes[data]->Data_tag.spec_arity() && self.is_binder(
                self.children[(data, label)],
            )
    }

    /// The data node `data` has an edge `Binder(i)` for every argument i
    /// of its tag.
    pub open spec fn complete(self, data: NodeId) -> bool {
        forall|i: usize|
            i < self.nodes[data]->Data_tag.spec_arity() ==> #[trigger] self.children.contains_key(
                (data, Edge::Binder(i)),
            )
    }

    /// A data node with an inert tag: a value.
    pub open spec fn is_constructor(self, node: NodeId) -> bool {
        self.is_data(node) && self.nodes[node]->Data_tag.is_inert()
    }

    /// The data node `node` has no edge but binder edges for its
    /// arguments, and all of them if it is a value.
    pub open spec fn kept_at(self, node: NodeId) -> bool {
        self.fits(node) && (self.is_constructor(node) ==> self.complete(node))
    }

    /// Every data node has binder edges for arguments of its tag only,
    /// each to a lambda or a closure; and a data node that is a value has
    /// one for every argument. (A data node whose tag computes gives up
    /// the binding of an argument when it has read it.)
    pub open spec fn constructors_saturated(self) -> bool {
        forall|data: NodeId| #[trigger] self.is_data(data) ==> self.kept_at(data)
    }

    /// Every bound variable has its binder and every data node its
    /// arguments: [`Self::binders_unique`] and
    /// [`Self::constructors_saturated`].
    pub open spec fn well_bound(self) -> bool {
        self.binders_unique() && self.constructors_saturated()
    }

    /// As [`Self::well_bound`], but for the bound variable `except`, which
    /// may have lost its binder.
    pub open spec fn bound_except(self, except: NodeId) -> bool {
        self.unique_except(except) && self.constructors_saturated()
    }

    /// Every bound variable but `except` binds.
    pub open spec fn unique_except(self, except: NodeId) -> bool {
        forall|variable: NodeId| #[trigger]
            self.is_bound_variable(variable) && variable != except ==> self.binds(variable)
    }

    /// Every binder edge into `node` leaves `referrer`.
    pub open spec fn referred_only_by(self, node: NodeId, referrer: NodeId) -> bool {
        forall|k: (NodeId, Edge)| #[trigger]
            self.children.contains_key(k) && self.refers(k, node) ==> k.0 == referrer
    }

    /// `node` keeps the invariants where it is concerned by them.
    pub open spec fn sound_at(self, node: NodeId) -> bool {
        (self.is_bound_variable(node) ==> self.binds(node)) && (self.is_data(node)
            ==> self.saturated(node))
    }
}

/// The invariants speak of nodes and edges only.
pub proof fn lemma_integral_same_graph(a: GraphView, b: GraphView)
    requires
        a.integral(),
        a.nodes == b.nodes,
        a.children == b.children,
    ensures
        b.integral(),
{
    assert forall|variable: NodeId| #[trigger] b.is_bound_variable(variable) implies b.binds(
        variable,
    ) by {
        assert(a.is_bound_variable(variable));
        assert(a.binds(variable));
    }
    assert forall|data: NodeId| #[trigger] b.is_data(data) implies b.saturated(data) by {
        assert(a.is_data(data));
        assert(a.saturated(data));
    }
}

/// Handing the owners of a node to another node leaves every bound
/// variable with its binder.
pub proof fn lemma_unique_migrated(v: GraphView, from: NodeId, to: NodeId)
    requires
        v.binders_unique(),
    ensures
        v.migrated(from, to).binders_unique(),
{
    let now = v.migrated(from, to);
    assert forall|variable: NodeId| #[trigger] now.is_bound_variable(variable) implies now.binds(
        variable,
    ) by {
        assert(v.is_bound_variable(variable));
        assert(v.binds(variable));
        assert forall|label: Edge| #[trigger]
            now.children.contains_key((variable, label)) implies label == Edge::Binder(0) by {
            assert(v.children.contains_key((variable, label)));
        }
    }
}

/// An edge out of a node that is no bound variable leaves every bound
/// variable with its binder.
pub proof fn lemma_unique_with_edge(v: GraphView, source: NodeId, label: Edge, target: NodeId)
    requires
        v.binders_unique(),
        !v.is_bound_variable(source),
    ensures
        v.with_edge(source, label, target).binders_unique(),
{
    let now = v.with_edge(source, label, target);
    assert forall|variable: NodeId| #[trigger] now.is_bound_variable(variable) implies now.binds(
        variable,
    ) by {
        assert(v.is_bound_variable(variable));
        assert(v.binds(variable));
    }
}

/// Taking an edge away from a node that is no bound variable leaves
/// every bound variable with its binder.
pub proof fn lemma_unique_without_edge(v: GraphView, source: NodeId, label: Edge)
    requires
        v.binders_unique(),
        !v.is_bound_variable(source),
    ensures
        v.without_edge(source, label).binders_unique(),
{
    let now = v.without_edge(source, label);
    assert forall|variable: NodeId| #[trigger] now.is_bound_variable(variable) implies now.binds(
        variable,
    ) by {
        assert(v.is_bound_variable(variable));
        assert(v.binds(variable));
    }
}

/// Deleting a node that no variable refers to, or that is neither a
/// lambda nor a closure, leaves every bound variable with its binder.
pub proof fn lemma_unique_without_node(v: GraphView, node: NodeId)
    requires
        v.binders_unique(),
        !v.is_binder(node) || !v.referenced(node),
    ensures
        v.without_node(node).binders_unique(),
{
    let now = v.without_node(node);
    assert forall|variable: NodeId| #[trigger] now.is_bound_variable(variable) implies now.binds(
        variable,
    ) by {
        assert(v.is_bound_variable(variable));
        assert(v.binds(variable));
        let k = (variable, Edge::Binder(0));
        let target = v.children[k];
        if target == node {
            assert(v.children.contains_key(k) && v.refers(k, node));
        }
        assert(now.children.contains_key(k));
        assert forall|label: Edge| #[trigger]
            now.children.contains_key((variable, label)) implies label == Edge::Binder(0) by {
            assert(v.children.contains_key((variable, label)));
        }
    }
}

/// Pointing the references to a node at a lambda or a closure leaves
/// every bound variable with its binder, and the node without reference.
pub proof fn lemma_unique_rebound(v: GraphView, from: NodeId, to: NodeId)
    requires
        v.binders_unique(),
        v.is_binder(to),
        from != to,
    ensures
        v.rebound(from, to).binders_unique(),
        !v.rebound(from, to).referenced(from),
{
    let now = v.rebound(from, to);
    assert forall|variable: NodeId| #[trigger] now.is_bound_variable(variable) implies now.binds(
        variable,
    ) by {
        assert(v.is_bound_variable(variable));
        assert(v.binds(variable));
        assert forall|label: Edge| #[trigger]
            now.children.contains_key((variable, label)) implies label == Edge::Binder(0) by {
            assert(v.children.contains_key((variable, label)));
        }
    }
    assert forall|k: (NodeId, Edge)| #[trigger] now.children.contains_key(k) implies !now.refers(
        k,
        from,
    ) by {
        assert(v.children.contains_key(k));
    }
}

/// Turning a lambda into a closure leaves every bound variable with its
/// binder.
pub proof fn lemma_unique_closed(v: GraphView, node: NodeId, weight: NodeView)
    requires
        v.binders_unique(),
        v.is_lambda(node),
        weight is Closure,
    ensures
        v.with_node(node, weight).binders_unique(),
{
    let now = v.with_node(node, weight);
    assert forall|variable: NodeId| #[trigger] now.is_bound_variable(variable) implies now.binds(
        variable,
    ) by {
        assert(v.is_bound_variable(variable));
        assert(v.binds(variable));
    }
}

/// A graph that extends a graph in which every bound variable binds is
/// such a graph if its new bound variables bind.
pub proof fn lemma_unique_extended(before: GraphView, now: GraphView)
    requires
        before.binders_unique(),
        before.linked(),
        before.extended_by(now),
        forall|n: NodeId|
            #![trigger now.is_bound_variable(n)]
            now.is_bound_variable(n) && !before.nodes.contains_key(n) ==> now.binds(n),
    ensures
        now.binders_unique(),
{
    assert forall|variable: NodeId| #[trigger] now.is_bound_variable(variable) implies now.binds(
        variable,
    ) by {
        if before.nodes.contains_key(variable) {
            assert(before.is_bound_variable(variable));
            assert(before.binds(variable));
            assert(before.children.contains_key((variable, Edge::Binder(0))));
            assert(before.nodes.contains_key(before.children[(variable, Edge::Binder(0))]));
        }
    }
}

/// Stripping a closure that only `referrer` refers to leaves every other
/// bound variable with its binder.
pub proof fn lemma_unique_stripped(v: GraphView, closure: NodeId, referrer: NodeId)
    requires
        v.binders_unique(),
        v.referred_only_by(closure, referrer),
    ensures
        v.stripped(closure).unique_except(referrer),
{
    let body = v.children[(closure, Edge::Body)];
    let first = v.migrated(closure, body);
    lemma_unique_migrated(v, closure, body);
    let now = first.without_node(closure);
    assert forall|variable: NodeId| #[trigger]
        now.is_bound_variable(variable) && variable != referrer implies now.binds(variable) by {
        assert(first.is_bound_variable(variable));
        assert(first.binds(variable));
        let k = (variable, Edge::Binder(0));
        if first.children[k] == closure {
            assert(v.children.contains_key(k) && v.refers(k, closure));
        }
        assert(now.children.contains_key(k));
        assert forall|label: Edge| #[trigger]
            now.children.contains_key((variable, label)) implies label == Edge::Binder(0) by {
            assert(first.children.contains_key((variable, label)));
        }
    }
}

/// Putting a node in the place of a node that alone may fail to bind, and
/// that no variable refers to or that is neither a lambda nor a closure,
/// leaves every bound variable with its binder.
pub proof fn lemma_unique_replaced(v: GraphView, node: NodeId, by: NodeId)
    requires
        v.unique_except(node),
        !v.is_binder(node) || !v.referenced(node),
    ensures
        v.replaced(node, by).binders_unique(),
{
    let first = v.migrated(node, by);
    let now = first.without_node(node);
    assert forall|variable: NodeId| #[trigger] now.is_bound_variable(variable) implies now.binds(
        variable,
    ) by {
        assert(v.is_bound_variable(variable));
        assert(variable != node);
        assert(v.binds(variable));
        let k = (variable, Edge::Binder(0));
        assert(first.children.contains_key(k));
        assert(first.children[k] == v.children[k]);
        if v.children[k] == node {
            assert(v.children.contains_key(k) && v.refers(k, node));
        }
        assert(now.children.contains_key(k));
        assert forall|label: Edge| #[trigger]
            now.children.contains_key((variable, label)) implies label == Edge::Binder(0) by {
            assert(v.children.contains_key((variable, label)));
        }
    }
}

/// Whether every bound variable binds depends on nodes and edges only.
pub proof fn lemma_unique_same_graph(a: GraphView, b: GraphView)
    requires
        a.binders_unique(),
        a.nodes == b.nodes,
        a.children == b.children,
    ensures
        b.binders_unique(),
{
    assert forall|variable: NodeId| #[trigger] b.is_bound_variable(variable) implies b.binds(
        variable,
    ) by {
        assert(a.is_bound_variable(variable));
        assert(a.binds(variable));
    }
}

/// Where every bound variable but one node binds, and that node is no
/// bound variable, every bound variable binds.
pub proof fn lemma_unique_from_except(v: GraphView, except: NodeId)
    requires
        v.unique_except(except),
        !v.is_bound_variable(except),
    ensures
        v.binders_unique(),
{
}

/// Lifting one closure and then the others is lifting them all.
pub proof fn lemma_lift_first(v: GraphView, node: NodeId, edge: Edge, n: nat)
    ensures
        v.lifted(node, edge).lifted_times(node, edge, n) == v.lifted_times(
            node,
            edge,
            n + 1,
        ),
    decreases n,
{
    if n > 0 {
        lemma_lift_first(v, node, edge, (n - 1) as nat);
        assert(v.lifted_times(node, edge, n + 1) == v.lifted_times(node, edge, n).lifted(
            node,
            edge,
        ));
    } else {
        assert(v.lifted_times(node, edge, 1) == v.lifted_times(node, edge, 0).lifted(node, edge));
    }
}

/// Lifting at an edge that is no binder edge leaves every bound variable
/// with its binder.
pub proof fn lemma_unique_lifted(v: GraphView, node: NodeId, edge: Edge)
    requires
        v.binders_unique(),
        v.can_lift(node, edge),
        !edge.is_binder(),
    ensures
        v.lifted(node, edge).binders_unique(),
{
    let closure = v.children[(node, edge)];
    let under = v.children[(closure, Edge::Body)];
    let first = v.migrated(node, closure);
    lemma_unique_migrated(v, node, closure);
    lemma_unique_with_edge(first, closure, Edge::Body, node);
    let second = first.with_edge(closure, Edge::Body, node);
    if second.is_bound_variable(node) {
        assert(v.is_bound_variable(node));
        assert(v.binds(node));
        assert(v.children.contains_key((node, edge)));
    }
    lemma_unique_with_edge(second, node, edge, under);
}

/// Firing a rule at an application leaves every bound variable with its
/// binder.
pub proof fn lemma_unique_fired(v: GraphView, application: NodeId)
    requires
        v.binders_unique(),
        v.linked(),
    ensures
        v.fired(application).binders_unique(),
{
    let head = v.head(application);
    let body = v.head_body(application);
    match v.firing(application) {
        Ok(crate::closure::Firing::Dead { .. }) => {
            let first = v.migrated(application, body);
            lemma_unique_migrated(v, application, body);
            assert(!first.referenced(head)) by {
                if first.referenced(head) {
                    let k = choose|k: (NodeId, Edge)| #[trigger]
                        first.children.contains_key(k) && first.refers(k, head);
                    assert(v.children.contains_key(k) && v.refers(k, head));
                }
            }
            lemma_unique_without_node(first, head);
            let second = first.without_node(head);
            assert(!second.is_binder(application));
            lemma_unique_without_node(second, application);
        },
        Ok(crate::closure::Firing::Alias { .. }) => {
            let binder = v.argument_binder(application);
            let argument = v.argument(application);
            assert(v.is_bound_variable(argument));
            assert(v.binds(argument));
            lemma_unique_rebound(v, head, binder);
            let zero = v.rebound(head, binder);
            let first = zero.migrated(application, body);
            lemma_unique_migrated(zero, application, body);
            assert(!first.referenced(head)) by {
                if first.referenced(head) {
                    let k = choose|k: (NodeId, Edge)| #[trigger]
                        first.children.contains_key(k) && first.refers(k, head);
                    assert(zero.children.contains_key(k) && zero.refers(k, head));
                }
            }
            lemma_unique_without_node(first, head);
            let second = first.without_node(head);
            assert(!second.is_binder(application));
            lemma_unique_without_node(second, application);
        },
        Ok(crate::closure::Firing::Bound { .. }) => {
            let weight = NodeView::Closure {
                argument_name: v.nodes[head]->Lambda_argument_name,
            };
            lemma_unique_closed(v, head, weight);
            let zero = v.with_node(head, weight);
            lemma_unique_migrated(zero, application, head);
            let first = zero.migrated(application, head);
            assert(!first.is_bound_variable(application));
            lemma_unique_without_edge(first, application, Edge::Parameter);
            let second = first.without_edge(application, Edge::Parameter);
            lemma_unique_with_edge(second, head, Edge::Parameter, v.argument(application));
            let third = second.with_edge(head, Edge::Parameter, v.argument(application));
            assert(!third.is_binder(application));
            lemma_unique_without_node(third, application);
        },
        _ => {},
    }
}

/// A graph that extends an integral graph is integral if its new nodes
/// keep the invariants.
pub proof fn lemma_integral_extended(before: GraphView, now: GraphView)
    requires
        before.integral(),
        before.linked(),
        before.extended_by(now),
        forall|n: NodeId|
            now.nodes.contains_key(n) && !before.nodes.contains_key(n) ==> #[trigger] now.sound_at(
                n,
            ),
    ensures
        now.integral(),
{
    assert forall|variable: NodeId| #[trigger] now.is_bound_variable(variable) implies now.binds(
        variable,
    ) by {
        if before.nodes.contains_key(variable) {
            assert(before.is_bound_variable(variable));
            assert(before.binds(variable));
            assert(before.children.contains_key((variable, Edge::Binder(0))));
            assert(before.nodes.contains_key(before.children[(variable, Edge::Binder(0))]));
        } else {
            assert(now.sound_at(variable));
        }
    }
    assert forall|data: NodeId| #[trigger] now.is_data(data) implies now.saturated(data) by {
        if before.nodes.contains_key(data) {
            assert(before.is_data(data));
            assert(before.saturated(data));
            let arity = before.nodes[data]->Data_tag.spec_arity();
            assert forall|label: Edge| #[trigger]
                now.children.contains_key((data, label)) <==> (label is Binder && label->Binder_0
                    < arity) by {
                if now.children.contains_key((data, label)) {
                    assert(before.children.contains_key((data, label)));
                }
                if label is Binder && label->Binder_0 < arity {
                    assert(before.children.contains_key((data, label)));
                }
            }
            assert forall|i: usize| i < arity implies now.is_binder(
                #[trigger] now.children[(data, Edge::Binder(i))],
            ) by {
                assert(before.children.contains_key((data, Edge::Binder(i))));
                assert(before.is_binder(before.children[(data, Edge::Binder(i))]));
            }
            assert forall|i: usize, j: usize| i < j < arity implies #[trigger] now.children[(
                data,
                Edge::Binder(i),
            )] != #[trigger] now.children[(data, Edge::Binder(j))] by {
                assert(before.children.contains_key((data, Edge::Binder(i))));
                assert(before.children.contains_key((data, Edge::Binder(j))));
                assert(before.children[(data, Edge::Binder(i))] != before.children[(
                    data,
                    Edge::Binder(j),
                )]);
            }
        } else {
            assert(now.sound_at(data));
        }
    }
}

/// An edge out of a node that is neither a bound variable nor a data
/// node keeps an integral graph integral.
pub proof fn lemma_integral_with_edge(v: GraphView, source: NodeId, label: Edge, target: NodeId)
    requires
        v.integral(),
        !v.is_bound_variable(source),
        !v.is_data(source),
    ensures
        v.with_edge(source, label, target).integral(),
{
    let now = v.with_edge(source, label, target);
    assert forall|variable: NodeId| #[trigger] now.is_bound_variable(variable) implies now.binds(
        variable,
    ) by {
        assert(v.is_bound_variable(variable));
        assert(v.binds(variable));
    }
    assert forall|data: NodeId| #[trigger] now.is_data(data) implies now.saturated(data) by {
        assert(v.is_data(data));
        assert(v.saturated(data));
        let arity = v.nodes[data]->Data_tag.spec_arity();
        assert forall|label: Edge| #[trigger]
            now.children.contains_key((data, label)) <==> (label is Binder && label->Binder_0
                < arity) by {
            assert(now.children.contains_key((data, label)) == v.children.contains_key(
                (data, label),
            ));
        }
        assert forall|i: usize| i < arity implies now.is_binder(
            #[trigger] now.children[(data, Edge::Binder(i))],
        ) by {
            assert(v.is_binder(v.children[(data, Edge::Binder(i))]));
        }
        assert forall|i: usize, j: usize| i < j < arity implies #[trigger] now.children[(
            data,
            Edge::Binder(i),
        )] != #[trigger] now.children[(data, Edge::Binder(j))] by {
            assert(v.children[(data, Edge::Binder(i))] != v.children[(data, Edge::Binder(j))]);
        }
    }
}

/// A constructor that was built keeps an integral graph integral.
pub proof fn lemma_integral_built(
    before: GraphView,
    now: GraphView,
    tag: ConstructorTag,
    data: NodeId,
    lambdas: Seq<NodeId>,
)
    requires
        before.integral(),
        before.linked(),
        now.built(before, tag, data, lambdas, 0),
    ensures
        now.integral(),
{
    assert forall|n: NodeId|
        now.nodes.contains_key(n) && !before.nodes.contains_key(n) implies #[trigger] now.sound_at(
        n,
    ) by {
        if n == data {
            let arity = tag.spec_arity();
            assert forall|label: Edge| #[trigger]
                now.children.contains_key((data, label)) <==> (label is Binder && label->Binder_0
                    < arity) by {
                if now.children.contains_key((data, label)) {
                    if before.children.contains_key((data, label)) {
                        assert(before.nodes.contains_key(data));
                    }
                    if label == Edge::Body && lambdas.contains(data) {
                        let m = choose|m: int| 0 <= m < lambdas.len() && lambdas[m] == data;
                        assert(lambdas[m] != data);
                    }
                }
                if label is Binder && label->Binder_0 < arity {
                    let m = label->Binder_0 as int;
                    assert(now.child(data, Edge::Binder((0 + m) as usize)) == Some(lambdas[m]));
                }
            }
            assert forall|i: usize| i < arity implies now.is_binder(
                #[trigger] now.children[(data, Edge::Binder(i))],
            ) by {
                let m = i as int;
                assert(now.child(data, Edge::Binder((0 + m) as usize)) == Some(lambdas[m]));
                assert(now.nodes.contains_key(lambdas[m]));
            }
            assert forall|i: usize, j: usize| i < j < arity implies #[trigger] now.children[(
                data,
                Edge::Binder(i),
            )] != #[trigger] now.children[(data, Edge::Binder(j))] by {
                let a = i as int;
                let b = j as int;
                assert(now.child(data, Edge::Binder((0 + a) as usize)) == Some(lambdas[a]));
                assert(now.child(data, Edge::Binder((0 + b) as usize)) == Some(lambdas[b]));
                assert(lambdas[a] != lambdas[b]);
            }
        } else {
            assert(lambdas.contains(n));
            let m = choose|m: int| 0 <= m < lambdas.len() && lambdas[m] == n;
            assert(now.nodes[lambdas[m]] is Lambda);
        }
    }
    lemma_integral_extended(before, now);
}

/// The invariants of the data model give every data node its arguments.
pub proof fn lemma_integral_bound(v: GraphView)
    requires
        v.integral(),
    ensures
        v.well_bound(),
{
    assert forall|data: NodeId| #[trigger] v.is_data(data) implies v.kept_at(data) by {
        assert(v.saturated(data));
        assert forall|label: Edge| #[trigger] v.children.contains_key((data, label)) implies (
        label is Binder && label->Binder_0 < v.nodes[data]->Data_tag.spec_arity() && v.is_binder(
            v.children[(data, label)],
        )) by {
            assert(label == Edge::Binder(label->Binder_0));
        }
    }
}

/// Whether every data node has its arguments depends on nodes and edges
/// only.
pub proof fn lemma_saturated_same_graph(a: GraphView, b: GraphView)
    requires
        a.constructors_saturated(),
        a.nodes == b.nodes,
        a.children == b.children,
    ensures
        b.constructors_saturated(),
{
    assert forall|data: NodeId| #[trigger] b.is_data(data) implies b.kept_at(data) by {
        assert(a.is_data(data));
        assert(a.kept_at(data));
    }
}

/// Handing the owners of a node to another node leaves every data node
/// with its arguments.
pub proof fn lemma_saturated_migrated(v: GraphView, from: NodeId, to: NodeId)
    requires
        v.constructors_saturated(),
    ensures
        v.migrated(from, to).constructors_saturated(),
{
    let now = v.migrated(from, to);
    assert forall|data: NodeId| #[trigger] now.is_data(data) implies now.kept_at(data) by {
        assert(v.is_data(data));
        assert(v.kept_at(data));
        assert forall|label: Edge| #[trigger] now.children.contains_key((data, label)) implies (
        label is Binder && label->Binder_0 < now.nodes[data]->Data_tag.spec_arity()
            && now.is_binder(now.children[(data, label)])) by {
            assert(v.children.contains_key((data, label)));
        }
        if now.is_constructor(data) {
            assert forall|i: usize|
                i < now.nodes[data]->Data_tag.spec_arity() implies #[trigger] now.children.contains_key(
                (data, Edge::Binder(i)),
            ) by {
                assert(v.children.contains_key((data, Edge::Binder(i))));
            }
        }
    }
}

/// An edge out of a node that is no data node leaves every data node
/// with its arguments.
pub proof fn lemma_saturated_with_edge(v: GraphView, source: NodeId, label: Edge, target: NodeId)
    requires
        v.constructors_saturated(),
        !v.is_data(source),
    ensures
        v.with_edge(source, label, target).constructors_saturated(),
{
    let now = v.with_edge(source, label, target);
    assert forall|data: NodeId| #[trigger] now.is_data(data) implies now.kept_at(data) by {
        assert(v.is_data(data));
        assert(v.kept_at(data));
        assert forall|l: Edge| #[trigger] now.children.contains_key((data, l)) implies (l
            is Binder && l->Binder_0 < now.nodes[data]->Data_tag.spec_arity() && now.is_binder(
            now.children[(data, l)],
        )) by {
            assert(v.children.contains_key((data, l)));
        }
        if now.is_constructor(data) {
            assert forall|i: usize|
                i < now.nodes[data]->Data_tag.spec_arity() implies #[trigger] now.children.contains_key(
                (data, Edge::Binder(i)),
            ) by {
                assert(v.children.contains_key((data, Edge::Binder(i))));
            }
        }
    }
}

/// Taking an edge away from a node that is no data node leaves every
/// data node with its arguments.
pub proof fn lemma_saturated_without_edge(v: GraphView, source: NodeId, label: Edge)
    requires
        v.constructors_saturated(),
        !v.is_data(source),
    ensures
        v.without_edge(source, label).constructors_saturated(),
{
    let now = v.without_edge(source, label);
    assert forall|data: NodeId| #[trigger] now.is_data(data) implies now.kept_at(data) by {
        assert(v.is_data(data));
        assert(v.kept_at(data));
        assert forall|l: Edge| #[trigger] now.children.contains_key((data, l)) implies (l
            is Binder && l->Binder_0 < now.nodes[data]->Data_tag.spec_arity() && now.is_binder(
            now.children[(data, l)],
        )) by {
            assert(v.children.contains_key((data, l)));
        }
        if now.is_constructor(data) {
            assert forall|i: usize|
                i < now.nodes[data]->Data_tag.spec_arity() implies #[trigger] now.children.contains_key(
                (data, Edge::Binder(i)),
            ) by {
                assert(v.children.contains_key((data, Edge::Binder(i))));
            }
        }
    }
}

/// Deleting a node that no value refers to leaves every data node with
/// its arguments.
pub proof fn lemma_saturated_without_node(v: GraphView, node: NodeId)
    requires
        v.constructors_saturated(),
        forall|k: (NodeId, Edge)| #[trigger]
            v.children.contains_key(k) && v.refers(k, node) ==> !v.is_constructor(k.0),
    ensures
        v.without_node(node).constructors_saturated(),
{
    let now = v.without_node(node);
    assert forall|data: NodeId| #[trigger] now.is_data(data) implies now.kept_at(data) by {
        assert(v.is_data(data));
        assert(v.kept_at(data));
        assert forall|label: Edge| #[trigger] now.children.contains_key((data, label)) implies (
        label is Binder && label->Binder_0 < now.nodes[data]->Data_tag.spec_arity()
            && now.is_binder(now.children[(data, label)])) by {
            assert(v.children.contains_key((data, label)));
        }
        if now.is_constructor(data) {
            assert forall|i: usize|
                i < now.nodes[data]->Data_tag.spec_arity() implies #[trigger] now.children.contains_key(
                (data, Edge::Binder(i)),
            ) by {
                let k = (data, Edge::Binder(i));
                assert(v.children.contains_key(k));
                if v.children[k] == node {
                    assert(v.refers(k, node));
                }
            }
        }
    }
}

/// In a graph in which the edges of data nodes fit, a node that is no
/// lambda and no closure, or that nothing refers to, has no value that
/// refers to it.
pub proof fn lemma_no_constructor_refers(v: GraphView, node: NodeId)
    requires
        v.constructors_saturated(),
        !v.is_binder(node) || !v.referenced(node),
    ensures
        forall|k: (NodeId, Edge)| #[trigger]
            v.children.contains_key(k) && v.refers(k, node) ==> !v.is_constructor(k.0),
{
    assert forall|k: (NodeId, Edge)| #[trigger]
        v.children.contains_key(k) && v.refers(k, node) implies !v.is_constructor(k.0) by {
        if v.is_constructor(k.0) {
            assert(v.is_data(k.0));
            assert(v.kept_at(k.0));
            assert(v.children.contains_key((k.0, k.1)));
        }
    }
}

/// Pointing the references to a node at a lambda or a closure leaves
/// every data node with its arguments.
pub proof fn lemma_saturated_rebound(v: GraphView, from: NodeId, to: NodeId)
    requires
        v.constructors_saturated(),
        v.is_binder(to),
    ensures
        v.rebound(from, to).constructors_saturated(),
{
    let now = v.rebound(from, to);
    assert forall|data: NodeId| #[trigger] now.is_data(data) implies now.kept_at(data) by {
        assert(v.is_data(data));
        assert(v.kept_at(data));
        assert forall|label: Edge| #[trigger] now.children.contains_key((data, label)) implies (
        label is Binder && label->Binder_0 < now.nodes[data]->Data_tag.spec_arity()
            && now.is_binder(now.children[(data, label)])) by {
            assert(v.children.contains_key((data, label)));
        }
        if now.is_constructor(data) {
            assert forall|i: usize|
                i < now.nodes[data]->Data_tag.spec_arity() implies #[trigger] now.children.contains_key(
                (data, Edge::Binder(i)),
            ) by {
                assert(v.children.contains_key((data, Edge::Binder(i))));
            }
        }
    }
}

/// Turning a lambda into a closure leaves every data node with its
/// arguments.
pub proof fn lemma_saturated_closed(v: GraphView, node: NodeId, weight: NodeView)
    requires
        v.constructors_saturated(),
        v.is_lambda(node),
        weight is Closure,
    ensures
        v.with_node(node, weight).constructors_saturated(),
{
    let now = v.with_node(node, weight);
    assert forall|data: NodeId| #[trigger] now.is_data(data) implies now.kept_at(data) by {
        assert(v.is_data(data));
        assert(v.kept_at(data));
        assert forall|label: Edge| #[trigger] now.children.contains_key((data, label)) implies (
        label is Binder && label->Binder_0 < now.nodes[data]->Data_tag.spec_arity()
            && now.is_binder(now.children[(data, label)])) by {
            assert(v.children.contains_key((data, label)));
        }
        if now.is_constructor(data) {
            assert forall|i: usize|
                i < now.nodes[data]->Data_tag.spec_arity() implies #[trigger] now.children.contains_key(
                (data, Edge::Binder(i)),
            ) by {
                assert(v.children.contains_key((data, Edge::Binder(i))));
            }
        }
    }
}

/// A graph that extends a graph in which every data node has its
/// arguments is such a graph if its new data nodes have theirs.
pub proof fn lemma_saturated_extended(before: GraphView, now: GraphView)
    requires
        before.constructors_saturated(),
        before.linked(),
        before.extended_by(now),
        forall|n: NodeId|
            #![trigger now.is_data(n)]
            now.is_data(n) && !before.nodes.contains_key(n) ==> now.kept_at(n),
    ensures
        now.constructors_saturated(),
{
    assert forall|data: NodeId| #[trigger] now.is_data(data) implies now.kept_at(data) by {
        if before.nodes.contains_key(data) {
            assert(before.is_data(data));
            assert(before.kept_at(data));
            assert forall|label: Edge| #[trigger]
                now.children.contains_key((data, label)) implies (label is Binder
                && label->Binder_0 < now.nodes[data]->Data_tag.spec_arity() && now.is_binder(
                now.children[(data, label)],
            )) by {
                assert(before.children.contains_key((data, label)));
                assert(before.nodes.contains_key(before.children[(data, label)]));
            }
            if now.is_constructor(data) {
                assert forall|i: usize|
                    i < now.nodes[data]->Data_tag.spec_arity() implies #[trigger] now.children.contains_key(
                    (data, Edge::Binder(i)),
                ) by {
                    assert(before.children.contains_key((data, Edge::Binder(i))));
                }
            }
        }
    }
}

/// The data node of a constructor that was built has its arguments.
pub proof fn lemma_built_kept(
    before: GraphView,
    now: GraphView,
    tag: ConstructorTag,
    data: NodeId,
    lambdas: Seq<NodeId>,
)
    requires
        before.linked(),
        now.built(before, tag, data, lambdas, 0),
    ensures
        now.kept_at(data),
        forall|n: NodeId|
            now.nodes.contains_key(n) && !before.nodes.contains_key(n) && n != data
                ==> #[trigger] now.is_lambda(n),
{
    let arity = tag.spec_arity();
    assert forall|label: Edge| #[trigger] now.children.contains_key((data, label)) implies (label
        is Binder && label->Binder_0 < arity && now.is_binder(now.children[(data, label)])) by {
        if before.children.contains_key((data, label)) {
            assert(before.nodes.contains_key(data));
        }
        if label == Edge::Body && lambdas.contains(data) {
            let m = choose|m: int| 0 <= m < lambdas.len() && lambdas[m] == data;
            assert(lambdas[m] != data);
        }
        let m = label->Binder_0 as int;
        assert(label == Edge::Binder(label->Binder_0));
        assert(now.child(data, Edge::Binder((0 + m) as usize)) == Some(lambdas[m]));
        assert(now.nodes.contains_key(lambdas[m]));
    }
    assert forall|i: usize| i < arity implies #[trigger] now.children.contains_key(
        (data, Edge::Binder(i)),
    ) by {
        let m = i as int;
        assert(now.child(data, Edge::Binder((0 + m) as usize)) == Some(lambdas[m]));
    }
    assert forall|n: NodeId|
        now.nodes.contains_key(n) && !before.nodes.contains_key(n)
            && n != data implies #[trigger] now.is_lambda(
        n,
    ) by {
        assert(lambdas.contains(n));
        let m = choose|m: int| 0 <= m < lambdas.len() && lambdas[m] == n;
        assert(now.nodes[lambdas[m]] is Lambda);
    }
}

/// In a well-bound graph that extends to another whose new nodes are
/// well bound, the other is well bound.
pub proof fn lemma_bound_extended(before: GraphView, now: GraphView)
    requires
        before.well_bound(),
        before.linked(),
        before.extended_by(now),
        forall|n: NodeId|
            #![trigger now.is_bound_variable(n)]
            now.is_bound_variable(n) && !before.nodes.contains_key(n) ==> now.binds(n),
        forall|n: NodeId|
            #![trigger now.is_data(n)]
            now.is_data(n) && !before.nodes.contains_key(n) ==> now.kept_at(n),
    ensures
        now.well_bound(),
{
    lemma_unique_extended(before, now);
    lemma_saturated_extended(before, now);
}

pub proof fn lemma_bound_same_graph(a: GraphView, b: GraphView)
    requires
        a.well_bound(),
        a.nodes == b.nodes,
        a.children == b.children,
    ensures
        b.well_bound(),
{
    lemma_unique_same_graph(a, b);
    lemma_saturated_same_graph(a, b);
}

pub proof fn lemma_bound_from_except(v: GraphView, except: NodeId)
    requires
        v.bound_except(except),
        !v.is_bound_variable(except),
    ensures
        v.well_bound(),
{
    lemma_unique_from_except(v, except);
}

pub proof fn lemma_bound_with_edge(v: GraphView, source: NodeId, label: Edge, target: NodeId)
    requires
        v.well_bound(),
        !v.is_bound_variable(source),
        !v.is_data(source),
    ensures
        v.with_edge(source, label, target).well_bound(),
{
    lemma_unique_with_edge(v, source, label, target);
    lemma_saturated_with_edge(v, source, label, target);
}

pub proof fn lemma_bound_without_node(v: GraphView, node: NodeId)
    requires
        v.well_bound(),
        !v.is_binder(node) || !v.referenced(node),
    ensures
        v.without_node(node).well_bound(),
{
    lemma_unique_without_node(v, node);
    lemma_no_constructor_refers(v, node);
    lemma_saturated_without_node(v, node);
}

/// Stripping a closure that only `referrer` refers to, where `referrer`
/// is no value, leaves every data node with its arguments and every
/// bound variable but `referrer` with its binder.
pub proof fn lemma_bound_stripped(v: GraphView, closure: NodeId, referrer: NodeId)
    requires
        v.well_bound(),
        v.referred_only_by(closure, referrer),
        !v.is_constructor(referrer),
    ensures
        v.stripped(closure).bound_except(referrer),
{
    lemma_unique_stripped(v, closure, referrer);
    let body = v.children[(closure, Edge::Body)];
    let first = v.migrated(closure, body);
    lemma_saturated_migrated(v, closure, body);
    assert forall|k: (NodeId, Edge)| #[trigger]
        first.children.contains_key(k) && first.refers(k, closure) implies !first.is_constructor(
        k.0,
    ) by {
        assert(v.children.contains_key(k) && v.refers(k, closure));
    }
    lemma_saturated_without_node(first, closure);
}

/// Putting a node in the place of a node that alone may fail to bind, and
/// that no variable refers to or that is neither a lambda nor a closure,
/// leaves the graph well bound.
pub proof fn lemma_bound_replaced(v: GraphView, node: NodeId, by: NodeId)
    requires
        v.bound_except(node),
        !v.is_binder(node) || !v.referenced(node),
    ensures
        v.replaced(node, by).well_bound(),
{
    lemma_unique_replaced(v, node, by);
    let first = v.migrated(node, by);
    lemma_saturated_migrated(v, node, by);
    assert(!first.is_binder(node) || !first.referenced(node)) by {
        if first.referenced(node) {
            let k = choose|k: (NodeId, Edge)| #[trigger]
                first.children.contains_key(k) && first.refers(k, node);
            assert(v.children.contains_key(k) && v.refers(k, node));
        }
    }
    lemma_no_constructor_refers(first, node);
    lemma_saturated_without_node(first, node);
}

/// Lifting at an edge that is no binder edge leaves the graph well bound.
pub proof fn lemma_bound_lifted(v: GraphView, node: NodeId, edge: Edge)
    requires
        v.well_bound(),
        v.can_lift(node, edge),
        !edge.is_binder(),
    ensures
        v.lifted(node, edge).well_bound(),
{
    lemma_unique_lifted(v, node, edge);
    let closure = v.children[(node, edge)];
    let under = v.children[(closure, Edge::Body)];
    let first = v.migrated(node, closure);
    lemma_saturated_migrated(v, node, closure);
    lemma_saturated_with_edge(first, closure, Edge::Body, node);
    let second = first.with_edge(closure, Edge::Body, node);
    if second.is_data(node) {
        assert(v.is_data(node));
        assert(v.kept_at(node));
        assert(v.children.contains_key((node, edge)));
    }
    lemma_saturated_with_edge(second, node, edge, under);
}

/// Firing a rule at an application leaves the graph well bound.
pub proof fn lemma_bound_fired(v: GraphView, application: NodeId)
    requires
        v.well_bound(),
        v.linked(),
    ensures
        v.fired(application).well_bound(),
{
    lemma_unique_fired(v, application);
    let head = v.head(application);
    let body = v.head_body(application);
    match v.firing(application) {
        Ok(crate::closure::Firing::Dead { .. }) => {
            let first = v.migrated(application, body);
            lemma_saturated_migrated(v, application, body);
            assert(!first.referenced(head)) by {
                if first.referenced(head) {
                    let k = choose|k: (NodeId, Edge)| #[trigger]
                        first.children.contains_key(k) && first.refers(k, head);
                    assert(v.children.contains_key(k) && v.refers(k, head));
                }
            }
            lemma_no_constructor_refers(first, head);
            lemma_saturated_without_node(first, head);
            let second = first.without_node(head);
            assert(!second.is_binder(application));
            lemma_no_constructor_refers(second, application);
            lemma_saturated_without_node(second, application);
        },
        Ok(crate::closure::Firing::Alias { .. }) => {
            let binder = v.argument_binder(application);
            let argument = v.argument(application);
            assert(v.is_bound_variable(argument));
            assert(v.binds(argument));
            lemma_unique_rebound(v, head, binder);
            lemma_saturated_rebound(v, head, binder);
            let zero = v.rebound(head, binder);
            let first = zero.migrated(application, body);
            lemma_saturated_migrated(zero, application, body);
            assert(!first.referenced(head)) by {
                if first.referenced(head) {
                    let k = choose|k: (NodeId, Edge)| #[trigger]
                        first.children.contains_key(k) && first.refers(k, head);
                    assert(zero.children.contains_key(k) && zero.refers(k, head));
                }
            }
            lemma_no_constructor_refers(first, head);
            lemma_saturated_without_node(first, head);
            let second = first.without_node(head);
            assert(!second.is_binder(application));
            lemma_no_constructor_refers(second, application);
            lemma_saturated_without_node(second, application);
        },
        Ok(crate::closure::Firing::Bound { .. }) => {
            let weight = NodeView::Closure {
                argument_name: v.nodes[head]->Lambda_argument_name,
            };
            lemma_saturated_closed(v, head, weight);
            let zero = v.with_node(head, weight);
            lemma_saturated_migrated(zero, application, head);
            let first = zero.migrated(application, head);
            assert(!first.is_data(application));
            lemma_saturated_without_edge(first, application, Edge::Parameter);
            let second = first.without_edge(application, Edge::Parameter);
            lemma_saturated_with_edge(second, head, Edge::Parameter, v.argument(application));
            let third = second.with_edge(head, Edge::Parameter, v.argument(application));
            assert(!third.is_binder(application));
            lemma_no_constructor_refers(third, application);
            lemma_saturated_without_node(third, application);
        },
        _ => {},
    }
}

impl AST {
    /// Whether `node` is a lambda or a closure.
    pub fn is_binder_node(&self, node: NodeId) -> (r: bool)
        ensures
            r == self@.is_binder(node),
    {
        match self.node(node) {
            Some(Node::Lambda { .. }) => true,
            Some(Node::Closure { .. }) => true,
            _ => false,
        }
    }

    /// Whether `node`, if it is a bound variable, has its one binder edge.
    pub fn check_variable_integrity(&self, node: NodeId) -> (r: bool)
        requires
            self.wf(),
        ensures
            r == (self@.is_bound_variable(node) ==> self@.binds(node)),
    {
        if self.classify(node) != Kind::BoundVariable {
            return true;
        }
        let arrows = self.outgoing(node);
        if arrows.len() != 1 {
            proof {
                if self@.binds(node) {
                    assert(lists_key(arrows@, (node, Edge::Binder(0))));
                    assert(arrows@.len() >= 2);
                    assert(self@.children.contains_key(arrows@[0].key()));
                    assert(self@.children.contains_key(arrows@[1].key()));
                    assert(arrows@[0].key() != arrows@[1].key());
                }
            }
            return false;
        }
        let arrow = arrows[0];
        proof {
            assert(self@.children.contains_key(arrows@[0].key()));
            if arrow.label == Edge::Binder(0) && self@.is_binder(arrow.target) {
                assert forall|label: Edge| #[trigger]
                    self@.children.contains_key((node, label)) implies label == Edge::Binder(
                    0,
                ) by {
                    assert(lists_key(arrows@, (node, label)));
                }
            }
        }
        arrow.label == Edge::Binder(0) && self.is_binder_node(arrow.target)
    }

    /// Whether `node`, if it is a data node, has exactly the binder edges
    /// of its arity, to lambdas or closures that are all different.
    pub fn check_data_integrity(&self, node: NodeId) -> (r: bool)
        requires
            self.wf(),
        ensures
            r == (self@.is_data(node) ==> self@.saturated(node)),
    {
        let arity = match self.node(node) {
            Some(Node::Data { tag }) => tag.arity(),
            _ => {
                return true;
            },
        };
        let arrows = self.outgoing(node);
        let mut p: usize = 0;
        while p < arrows.len()
            invariant
                0 <= p <= arrows.len(),
                self.wf(),
                self@.is_data(node),
                arity == self@.nodes[node]->Data_tag.spec_arity(),
                lists_children_of(arrows@, self@.children, node),
                forall|q: int|
                    0 <= q < p ==> (#[trigger] arrows@[q]).label is Binder
                        && arrows@[q].label->Binder_0 < arity && self@.is_binder(
                        arrows@[q].target,
                    ),
            decreases arrows.len() - p,
        {
            let arrow = arrows[p];
            proof {
                assert(self@.children.contains_key(arrows@[p as int].key()));
            }
            let fits = match arrow.label {
                Edge::Binder(index) => index < arity,
                _ => false,
            };
            if !fits || !self.is_binder_node(arrow.target) {
                proof {
                    if self@.saturated(node) {
                        assert(self@.children.contains_key((node, arrow.label)));
                        if fits {
                            let index = arrow.label->Binder_0;
                            assert(self@.is_binder(self@.children[(node, Edge::Binder(index))]));
                        }
                    }
                }
                return false;
            }
            p += 1;
        }
        let mut i: usize = 0;
        while i < arity
            invariant
                0 <= i <= arity,
                self.wf(),
                self@.is_data(node),
                arity == self@.nodes[node]->Data_tag.spec_arity(),
                forall|j: usize| j < i ==> #[trigger] self@.children.contains_key(
                    (node, Edge::Binder(j)),
                ),
            decreases arity - i,
        {
            if self.follow_edge(node, Edge::Binder(i)).is_err() {
                proof {
                    if self@.saturated(node) {
                        assert(self@.children.contains_key((node, Edge::Binder(i))));
                    }
                }
                return false;
            }
            i += 1;
        }
        let mut p: usize = 0;
        while p < arrows.len()
            invariant
                0 <= p <= arrows.len(),
                self.wf(),
                self@.is_data(node),
                arity == self@.nodes[node]->Data_tag.spec_arity(),
                lists_children_of(arrows@, self@.children, node),
                forall|q: int|
                    0 <= q < arrows@.len() ==> (#[trigger] arrows@[q]).label is Binder
                        && arrows@[q].label->Binder_0 < arity && self@.is_binder(
                        arrows@[q].target,
                    ),
                forall|a: int, b: int|
                    0 <= a < p && a < b < arrows@.len() ==> (#[trigger] arrows@[a]).target != (
                    #[trigger] arrows@[b]).target,
            decreases arrows.len() - p,
        {
            let mut q: usize = p + 1;
            while q < arrows.len()
                invariant
                    p < q <= arrows.len(),
                    self.wf(),
                    self@.is_data(node),
                    arity == self@.nodes[node]->Data_tag.spec_arity(),
                    lists_children_of(arrows@, self@.children, node),
                    forall|x: int|
                        0 <= x < arrows@.len() ==> (#[trigger] arrows@[x]).label is Binder
                            && arrows@[x].label->Binder_0 < arity && self@.is_binder(
                            arrows@[x].target,
                        ),
                    forall|b: int|
                        p < b < q ==> arrows@[p as int].target != (#[trigger] arrows@[b]).target,
                decreases arrows.len() - q,
            {
                if arrows[p].target == arrows[q].target {
                    proof {
                        if self@.saturated(node) {
                            let first = arrows@[p as int];
                            let second = arrows@[q as int];
                            assert(self@.children.contains_key(first.key()));
                            assert(self@.children.contains_key(second.key()));
                            assert(first.key() != second.key());
                            let i = first.label->Binder_0;
                            let j = second.label->Binder_0;
                            assert(first.label == Edge::Binder(i));
                            assert(second.label == Edge::Binder(j));
                            if i < j {
                                assert(self@.children[(node, Edge::Binder(i))]
                                    != self@.children[(node, Edge::Binder(j))]);
                            } else {
                                assert(self@.children[(node, Edge::Binder(j))]
                                    != self@.children[(node, Edge::Binder(i))]);
                            }
                        }
                    }
                    return false;
                }
                q += 1;
            }
            p += 1;
        }
        proof {
            assert forall|label: Edge| #[trigger]
                self@.children.contains_key((node, label)) <==> (label is Binder
                    && label->Binder_0 < arity) by {
                if self@.children.contains_key((node, label)) {
                    assert(lists_key(arrows@, (node, label)));
                }
                if label is Binder && label->Binder_0 < arity {
                    assert(label == Edge::Binder(label->Binder_0));
                }
            }
            assert forall|i: usize| i < arity implies self@.is_binder(
                #[trigger] self@.children[(node, Edge::Binder(i))],
            ) by {
                assert(self@.children.contains_key((node, Edge::Binder(i))));
                assert(lists_key(arrows@, (node, Edge::Binder(i))));
                let x = choose|x: int|
                    0 <= x < arrows@.len() && (#[trigger] arrows@[x]).key() == (
                    node,
                    Edge::Binder(i),
                );
                assert(self@.children.contains_key(arrows@[x].key()));
            }
            assert forall|i: usize, j: usize| i < j < arity implies #[trigger] self@.children[(
                node,
                Edge::Binder(i),
            )] != #[trigger] self@.children[(node, Edge::Binder(j))] by {
                assert(self@.children.contains_key((node, Edge::Binder(i))));
                assert(self@.children.contains_key((node, Edge::Binder(j))));
                assert(lists_key(arrows@, (node, Edge::Binder(i))));
                assert(lists_key(arrows@, (node, Edge::Binder(j))));
                let x = choose|x: int|
                    0 <= x < arrows@.len() && (#[trigger] arrows@[x]).key() == (
                    node,
                    Edge::Binder(i),
                );
                let y = choose|y: int|
                    0 <= y < arrows@.len() && (#[trigger] arrows@[y]).key() == (
                    node,
                    Edge::Binder(j),
                );
                assert(self@.children.contains_key(arrows@[x].key()));
                assert(self@.children.contains_key(arrows@[y].key()));
                assert(x != y);
                if x < y {
                    assert(arrows@[x].target != arrows@[y].target);
                } else {
                    assert(arrows@[y].target != arrows@[x].target);
                }
            }
        }
        true
    }

    /// Whether `node`, if it is a data node, has no edge but binder edges
    /// for its arguments, each to a lambda or a closure, and all of them if
    /// it is a value.
    pub fn check_constructor(&self, node: NodeId) -> (r: bool)
        requires
            self.wf(),
        ensures
            r == (self@.is_data(node) ==> self@.kept_at(node)),
    {
        let (arity, inert) = match self.node(node) {
            Some(Node::Data { tag }) => (tag.arity(), tag.is_value()),
            _ => {
                return true;
            },
        };
        let arrows = self.outgoing(node);
        let mut p: usize = 0;
        while p < arrows.len()
            invariant
                0 <= p <= arrows.len(),
                self.wf(),
                self@.is_data(node),
                arity == self@.nodes[node]->Data_tag.spec_arity(),
                lists_children_of(arrows@, self@.children, node),
                forall|q: int|
                    0 <= q < p ==> (#[trigger] arrows@[q]).label is Binder
                        && arrows@[q].label->Binder_0 < arity && self@.is_binder(
                        arrows@[q].target,
                    ),
            decreases arrows.len() - p,
        {
            let arrow = arrows[p];
            proof {
                assert(self@.children.contains_key(arrows@[p as int].key()));
            }
            let fits = match arrow.label {
                Edge::Binder(index) => index < arity,
                _ => false,
            };
            if !fits || !self.is_binder_node(arrow.target) {
                proof {
                    if self@.fits(node) {
                        assert(self@.children.contains_key((node, arrow.label)));
                    }
                }
                return false;
            }
            p += 1;
        }
        proof {
            assert forall|label: Edge| #[trigger]
                self@.children.contains_key((node, label)) implies (label is Binder
                && label->Binder_0 < arity && self@.is_binder(self@.children[(node, label)])) by {
                assert(lists_key(arrows@, (node, label)));
                let x = choose|x: int|
                    0 <= x < arrows@.len() && (#[trigger] arrows@[x]).key() == (node, label);
                assert(self@.children.contains_key(arrows@[x].key()));
            }
            assert(self@.fits(node));
        }
        if !inert {
            return true;
        }
        let mut i: usize = 0;
        while i < arity
            invariant
                0 <= i <= arity,
                self.wf(),
                self@.is_data(node),
                self@.fits(node),
                self@.is_constructor(node),
                arity == self@.nodes[node]->Data_tag.spec_arity(),
                forall|j: usize| j < i ==> #[trigger] self@.children.contains_key(
                    (node, Edge::Binder(j)),
                ),
            decreases arity - i,
        {
            if self.follow_edge(node, Edge::Binder(i)).is_err() {
                proof {
                    if self@.complete(node) {
                        assert(self@.children.contains_key((node, Edge::Binder(i))));
                    }
                }
                return false;
            }
            i += 1;
        }
        true
    }

    /// Decides the two invariants of the data model over the whole graph.
    pub fn integrity_check(&self) -> (r: bool)
        requires
            self.wf(),
        ensures
            r == self@.integral(),
    {
        let ids = self.node_ids();
        let mut i: usize = 0;
        while i < ids.len()
            invariant
                0 <= i <= ids.len(),
                self.wf(),
                forall|n: NodeId| #[trigger]
                    self@.nodes.contains_key(n) ==> exists|j: int|
                        0 <= j < ids@.len() && ids@[j] == n,
                forall|j: int| 0 <= j < i ==> self@.sound_at(#[trigger] ids@[j]),
            decreases ids.len() - i,
        {
            let id = ids[i];
            if !self.check_variable_integrity(id) {
                proof {
                    assert(self@.is_bound_variable(id) && !self@.binds(id));
                }
                return false;
            }
            if !self.check_data_integrity(id) {
                proof {
                    assert(self@.is_data(id) && !self@.saturated(id));
                }
                return false;
            }
            i += 1;
        }
        proof {
            assert forall|variable: NodeId| #[trigger]
                self@.is_bound_variable(variable) implies self@.binds(variable) by {
                let j = choose|j: int| 0 <= j < ids@.len() && ids@[j] == variable;
                assert(self@.sound_at(ids@[j]));
            }
            assert forall|data: NodeId| #[trigger] self@.is_data(data) implies self@.saturated(
                data,
            ) by {
                let j = choose|j: int| 0 <= j < ids@.len() && ids@[j] == data;
                assert(self@.sound_at(ids@[j]));
            }
        }
        true
    }
}

} // verus!
