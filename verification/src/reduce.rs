//! The reducer: call-by-need evaluation to weak-head normal form by
//! rewriting the graph in place.
//!
//! Evaluation may not end, so every entry point takes a budget, `fuel`,
//! that bounds how deep the rules may nest, and fails with `Exhausted`
//! when it is spent. [`AST::evaluate`] hands out the largest budget.
use vstd::prelude::*;
use std::collections::HashMap;
use crate::ast::ASTError;
use crate::ast::GraphView;
use crate::ast::NodeId;
use crate::ast::AST;
use crate::closure::Firing;
use crate::integrity::lemma_bound_from_except;
use crate::integrity::lemma_bound_replaced;
use crate::integrity::lemma_bound_same_graph;
use crate::integrity::lemma_bound_stripped;
use crate::integrity::lemma_bound_without_node;
use crate::rules::hands;
use crate::rules::passes;
use crate::rules::passes_two;
use crate::subtree::remap_sound;
use crate::node::Edge;
use crate::node::Node;
use crate::node::NodeView;
use crate::node::Primitive;
use crate::node::PrimitiveView;
use crate::node::VariableKind;
use crate::node::VariableKindView;
use crate::tags::ArithmeticTag;
use crate::tags::ArithmeticValue;
use crate::tags::ConstructorTag;
use crate::tags::HelperFunctionTag;

verus! {

/// What the reducer has to do at a node.
#[derive(Debug, Clone, Copy, PartialEq, Eq, Structural)]
pub enum Kind {
    /// No live node.
    Missing,
    /// A primitive, a free variable, a lambda, a data node with an inert
    /// tag, or an annotation: nothing to do.
    Value,
    Closure,
    Application,
    BoundVariable,
    /// A data node whose tag computes.
    Active(ConstructorTag),
}

impl GraphView {
    pub open spec fn kind(self, node: NodeId) -> Kind {
        if !self.nodes.contains_key(node) {
            Kind::Missing
        } else {
            match self.nodes[node] {
                NodeView::Closure { .. } => Kind::Closure,
                NodeView::Application => Kind::Application,
                NodeView::Variable(VariableKindView::Bound) => Kind::BoundVariable,
                NodeView::Data { tag } => if tag.is_inert() {
                    Kind::Value
                } else {
                    Kind::Active(tag)
                },
                _ => Kind::Value,
            }
        }
    }

    /// `node` is in weak-head normal form, with at most `depth` closures
    /// and applications on the way to its head: it is a value, or a closure
    /// whose body is in that form, or an application whose head is in that
    /// form and is neither a lambda nor a closure.
    pub open spec fn is_whnf(self, node: NodeId, depth: nat) -> bool
        decreases depth,
    {
        match self.kind(node) {
            Kind::Value => true,
            Kind::Closure => depth > 0 && self.child(node, Edge::Body) is Some && self.is_whnf(
                self.children[(node, Edge::Body)],
                (depth - 1) as nat,
            ),
            Kind::Application => depth > 0 && self.child(node, Edge::Function) is Some
                && !self.is_lambda(self.head(node)) && !self.is_closure(self.head(node))
                && self.is_whnf(self.head(node), (depth - 1) as nat),
            _ => false,
        }
    }

    /// No rule applies at `node` itself: it is a value, or an application
    /// whose head is a live node that is neither a lambda nor a closure, or
    /// one of these under at most `depth` closures.
    pub open spec fn settled(self, node: NodeId, depth: nat) -> bool
        decreases depth,
    {
        match self.kind(node) {
            Kind::Value => true,
            Kind::Closure => depth > 0 && self.child(node, Edge::Body) is Some && self.settled(
                self.children[(node, Edge::Body)],
                (depth - 1) as nat,
            ),
            Kind::Application => self.child(node, Edge::Function) is Some
                && self.nodes.contains_key(self.head(node)) && !self.is_lambda(self.head(node))
                && !self.is_closure(self.head(node)),
            _ => false,
        }
    }

    /// The node under the closures that start at `node`: the walk goes
    /// through the body of each closure, at most `depth` of them.
    pub open spec fn chain_end(self, node: NodeId, depth: nat) -> NodeId
        decreases depth,
    {
        if depth > 0 && self.is_closure(node) && self.child(node, Edge::Body) is Some {
            self.chain_end(self.children[(node, Edge::Body)], (depth - 1) as nat)
        } else {
            node
        }
    }

    /// The graph after its counter has handed out one identifier.
    pub open spec fn counted(self) -> GraphView {
        GraphView { next_uid: (self.next_uid + 1) as usize, ..self }
    }

    /// The graph after `by` has taken the place of `node`: the owners of
    /// `node` own `by`, and `node` is gone.
    pub open spec fn replaced(self, node: NodeId, by: NodeId) -> GraphView {
        self.migrated(node, by).without_node(node)
    }
}

/// A form that holds within some depth holds within any greater depth.
pub proof fn lemma_whnf_deeper(v: GraphView, node: NodeId, depth: nat, deeper: nat)
    requires
        v.is_whnf(node, depth),
        depth <= deeper,
    ensures
        v.is_whnf(node, deeper),
    decreases depth,
{
    match v.kind(node) {
        Kind::Closure => {
            lemma_whnf_deeper(
                v,
                v.children[(node, Edge::Body)],
                (depth - 1) as nat,
                (deeper - 1) as nat,
            );
        },
        Kind::Application => {
            lemma_whnf_deeper(v, v.head(node), (depth - 1) as nat, (deeper - 1) as nat);
        },
        _ => {},
    }
}

/// What is settled within some depth is settled within any greater depth.
pub proof fn lemma_settled_deeper(v: GraphView, node: NodeId, depth: nat, deeper: nat)
    requires
        v.settled(node, depth),
        depth <= deeper,
    ensures
        v.settled(node, deeper),
    decreases depth,
{
    match v.kind(node) {
        Kind::Closure => {
            lemma_settled_deeper(
                v,
                v.children[(node, Edge::Body)],
                (depth - 1) as nat,
                (deeper - 1) as nat,
            );
        },
        _ => {},
    }
}

/// Weak-head normal form does not depend on where the focus is.
pub proof fn lemma_whnf_focus(v: GraphView, focus: NodeId, node: NodeId, depth: nat)
    requires
        v.is_whnf(node, depth),
    ensures
        v.focused_on(focus).is_whnf(node, depth),
    decreases depth,
{
    match v.kind(node) {
        Kind::Closure => {
            lemma_whnf_focus(v, focus, v.children[(node, Edge::Body)], (depth - 1) as nat);
        },
        Kind::Application => {
            lemma_whnf_focus(v, focus, v.head(node), (depth - 1) as nat);
        },
        _ => {},
    }
}

/// Where a node is in weak-head normal form, the closures that start at
/// it end at a node that is no closure, and a longer walk ends there too.
pub proof fn lemma_whnf_chain(v: GraphView, node: NodeId, depth: nat, deeper: nat)
    requires
        v.is_whnf(node, depth),
        depth <= deeper,
    ensures
        v.chain_end(node, deeper) == v.chain_end(node, depth),
        v.kind(v.chain_end(node, depth)) != Kind::Closure,
    decreases depth,
{
    match v.kind(node) {
        Kind::Closure => {
            lemma_whnf_chain(
                v,
                v.children[(node, Edge::Body)],
                (depth - 1) as nat,
                (deeper - 1) as nat,
            );
        },
        _ => {},
    }
}

/// Where the closures that start at a node end at a settled node, the
/// node is settled.
pub proof fn lemma_chain_settled(v: GraphView, node: NodeId, depth: nat)
    requires
        v.settled(v.chain_end(node, depth), 0),
    ensures
        v.settled(node, depth),
    decreases depth,
{
    if depth > 0 && v.is_closure(node) && v.child(node, Edge::Body) is Some {
        lemma_chain_settled(v, v.children[(node, Edge::Body)], (depth - 1) as nat);
    } else {
        lemma_settled_deeper(v, node, 0, depth);
    }
}

/// In a graph whose edges join live nodes, weak-head normal form is
/// settled.
pub proof fn lemma_whnf_settled(v: GraphView, node: NodeId, depth: nat)
    requires
        v.linked(),
        v.is_whnf(node, depth),
    ensures
        v.settled(node, depth),
    decreases depth,
{
    match v.kind(node) {
        Kind::Closure => {
            lemma_whnf_settled(v, v.children[(node, Edge::Body)], (depth - 1) as nat);
        },
        Kind::Application => {
            assert(v.children.contains_key((node, Edge::Function)));
        },
        _ => {},
    }
}

impl AST {
    /// Tells what the reducer has to do at `node`.
    pub fn classify(&self, node: NodeId) -> (r: Kind)
        ensures
            r == self@.kind(node),
    {
        match self.node(node) {
            None => Kind::Missing,
            Some(Node::Closure { .. }) => Kind::Closure,
            Some(Node::Application) => Kind::Application,
            Some(Node::Variable(VariableKind::Bound)) => Kind::BoundVariable,
            Some(Node::Data { tag }) => if tag.is_value() {
                Kind::Value
            } else {
                Kind::Active(*tag)
            },
            Some(_) => Kind::Value,
        }
    }

    /// The node under the closures that wrap `expr`: where a reduced
    /// expression is a value under bindings that are still in use, this is
    /// the value. The walk passes at most as many closures as the graph has
    /// nodes.
    pub fn unwrap_closure_chain(&self, expr: NodeId) -> (r: NodeId)
        requires
            self.wf(),
        ensures
            r == self@.chain_end(expr, self@.nodes.dom().len()),
    {
        let mut current = expr;
        let mut left: usize = self.node_count();
        while left > 0
            invariant
                self.wf(),
                self@.chain_end(current, left as nat) == self@.chain_end(
                    expr,
                    self@.nodes.dom().len(),
                ),
            decreases left,
        {
            if self.classify(current) != Kind::Closure {
                return current;
            }
            match self.follow_edge(current, Edge::Body) {
                Ok(body) => {
                    current = body;
                },
                Err(_) => {
                    return current;
                },
            }
            left -= 1;
        }
        current
    }

    /// Puts `by` in the place of `node`: hands the owners of `node` to
    /// `by` and deletes `node`. Fails when `by` is not live or is `node`.
    pub fn replace_by(&mut self, node: NodeId, by: NodeId) -> (r: Result<(), ASTError>)
        requires
            old(self).wf(),
        ensures
            final(self).wf(),
            final(self).edge_total() <= old(self).edge_total(),
            r is Ok <==> old(self)@.nodes.contains_key(by) && by != node,
            r is Ok ==> final(self)@ == old(self)@.replaced(node, by),
            r is Err ==> final(self)@ == old(self)@ && r->Err_0 == ASTError::InvalidClosureChain,
            r is Ok && old(self)@.bound_except(node) && (!old(self)@.is_binder(node) || !old(
                self,
            )@.referenced(node)) ==> final(self)@.well_bound(),
    {
        proof {
            if old(self)@.bound_except(node) && (!old(self)@.is_binder(node) || !old(
                self,
            )@.referenced(node)) {
                lemma_bound_replaced(old(self)@, node, by);
            }
        }
        if by == node || !self.contains_node(by) {
            return Err(ASTError::InvalidClosureChain);
        }
        let migrated = self.migrate_node(node, by);
        assert(migrated is Ok);
        let _ = self.remove_node(node);
        Ok(())
    }

    /// Puts the value of its binding in the place of a bound variable
    /// whose binding has been forced, and returns what stands there.
    ///
    /// Where the variable is the last reference to the binding, the
    /// closure is stripped and the value itself takes the variable's
    /// place: nothing is copied, and the graph has two nodes less. Where
    /// the binding is shared, a copy of the value takes the variable's
    /// place.
    ///
    /// It fails and changes nothing where `variable` is no bound variable,
    /// has no binding, or the binding cannot be let go. The last reference
    /// succeeds exactly when the value is neither the variable nor the
    /// binding; where it is, the closure is stripped and the variable
    /// stays. A shared value is copied exactly when its subtree is no
    /// deeper than `fuel` and there is room for the nodes and edges of the
    /// copy.
    ///
    /// On every failure [`GraphView::dereference_fails`] holds of the error.
    pub fn dereference(&mut self, variable: NodeId, fuel: u64) -> (r: Result<NodeId, ASTError>)
        requires
            old(self).wf(),
        ensures
            final(self).wf(),
            final(self)@.next_uid == old(self)@.next_uid,
            r is Ok ==> old(self)@.dereferenced(variable, fuel as nat, final(self)@, r->Ok_0),
            r is Ok && !old(self)@.shared(old(self)@.children[(variable, Edge::Binder(0))])
                ==> final(self)@.nodes.dom().subset_of(old(self)@.nodes.dom()),
            r is Ok ==> old(self)@.is_bound_variable(variable),
            r is Ok && old(self)@.well_bound() ==> final(self)@.well_bound(),
            !old(self)@.is_bound_variable(variable) ==> r == Err::<NodeId, ASTError>(
                ASTError::Custom(variable, "no bound variable"),
            ) && final(self)@ == old(self)@,
            old(self)@.is_bound_variable(variable) && old(self)@.child(
                variable,
                Edge::Binder(0),
            ) is None ==> r == Err::<NodeId, ASTError>(
                ASTError::EdgeNotFound(variable, Edge::Binder(0)),
            ) && final(self)@ == old(self)@,
            old(self)@.is_bound_variable(variable) && old(self)@.child(
                variable,
                Edge::Binder(0),
            ) is Some && !old(self)@.releasable(old(self)@.binder_of(variable)) ==> r == Err::<
                NodeId,
                ASTError,
            >(old(self)@.release_error(old(self)@.binder_of(variable))) && final(self)@ == old(
                self,
            )@,
            old(self)@.is_bound_variable(variable) && old(self)@.child(
                variable,
                Edge::Binder(0),
            ) is Some && old(self)@.releasable(old(self)@.binder_of(variable)) && !old(
                self,
            )@.shared(old(self)@.binder_of(variable)) ==> (if old(self)@.movable(variable) {
                r == Ok::<NodeId, ASTError>(old(self)@.value_of(variable)) && final(self)@ == old(
                    self,
                )@.moved(variable)
            } else {
                r == Err::<NodeId, ASTError>(ASTError::InvalidClosureChain) && final(self)@ == old(
                    self,
                )@.stripped(old(self)@.binder_of(variable))
            }),
            old(self)@.is_bound_variable(variable) && old(self)@.child(
                variable,
                Edge::Binder(0),
            ) is Some && old(self)@.releasable(old(self)@.binder_of(variable)) && old(
                self,
            )@.shared(old(self)@.binder_of(variable)) && old(self)@.is_leaf(
                old(self)@.value_of(variable),
            ) ==> old(self)@.copy_outcome(
                variable,
                old(self)@.value_of(variable),
                fuel as nat,
                final(self)@,
                r,
            ),
            r is Err ==> old(self)@.dereference_fails(variable, fuel as nat, r->Err_0),
            r is Ok && old(self)@.root == old(self)@.focus ==> final(self)@.root == final(self)@.focus,
    {
        if self.classify(variable) != Kind::BoundVariable {
            return Err(ASTError::Custom(variable, "no bound variable"));
        }
        let binder = self.follow_edge(variable, Edge::Binder(0))?;
        let (parameter, dangling) = self.release_closure(binder)?;
        proof {
            let before = old(self)@;
            if before.well_bound() {
                assert(before.children.contains_key((variable, Edge::Binder(0))));
                if dangling {
                    assert forall|k: (NodeId, Edge)| #[trigger]
                        before.children.contains_key(k) && before.refers(
                            k,
                            binder,
                        ) implies k.0 == variable by {
                        let mine = (variable, Edge::Binder(0));
                        assert(before.children.contains_key(mine) && before.refers(
                            mine,
                            binder,
                        ));
                        if k != mine {
                            assert(before.children.contains_key(k) && before.children.contains_key(
                                mine,
                            ));
                            assert(before.shared(binder));
                        }
                    }
                    lemma_bound_stripped(before, binder, variable);
                }
            }
        }
        let ghost released = self@;
        proof {
            old(self).lemma_linked();
            assert(old(self)@.children.contains_key((binder, Edge::Parameter)));
            assert(old(self)@.nodes.contains_key(parameter));
            if dangling {
                assert(released.nodes.contains_key(parameter) <==> parameter != binder);
            }
        }
        let r = self.substitute(variable, parameter, dangling, fuel);
        proof {
            if r is Ok {
                if !dangling {
                    let copied = choose|copied: GraphView| #[trigger]
                        released.extended_by(copied) && copied.copied(
                            released,
                            released,
                            Map::empty(),
                            parameter,
                            r->Ok_0,
                            (fuel - 1) as nat,
                        ) && copied.binds_as(
                            released,
                            Map::empty(),
                            parameter,
                            r->Ok_0,
                            (fuel - 1) as nat,
                        ) && self@ == copied.replaced(variable, r->Ok_0);
                    assert(passes(copied, r->Ok_0, fuel as nat));
                }
                assert(old(self)@.dereferenced(variable, fuel as nat, self@, r->Ok_0));
            }
        }
        r
    }

    /// Puts the value of a binding in the place of a variable. A
    /// parameter that was handed over (`dangling`) goes there itself; a
    /// shared one is copied, at most `fuel` levels deep, and the copy goes
    /// there. Returns what stands in the variable's place.
    ///
    /// A parameter that was handed over takes the place exactly when it
    /// is live and is not the variable. A shared parameter is copied
    /// exactly when it is live, its subtree is no deeper than `fuel` and
    /// there is room for the nodes and edges of the copy, see
    /// [`GraphView::copy_fails`].
    pub fn substitute(&mut self, variable: NodeId, parameter: NodeId, dangling: bool,
        fuel: u64) -> (r:
        Result<NodeId, ASTError>)
        requires
            old(self).wf(),
        ensures
            final(self).wf(),
            final(self)@.next_uid == old(self)@.next_uid,
            dangling ==> (r is Ok <==> old(self)@.nodes.contains_key(parameter) && parameter
                != variable),
            dangling && r is Ok ==> r == Ok::<NodeId, ASTError>(parameter) && final(self)@ == old(
                self,
            )@.replaced(variable, parameter),
            dangling && r is Err ==> final(self)@ == old(self)@ && r->Err_0
                == ASTError::InvalidClosureChain,
            !dangling && r is Ok ==> fuel > 0 && !old(self)@.nodes.contains_key(r->Ok_0)
                && exists|copied: GraphView| #[trigger]
                old(self)@.extended_by(copied) && copied.copied(
                    old(self)@,
                    old(self)@,
                    Map::empty(),
                    parameter,
                    r->Ok_0,
                    (fuel - 1) as nat,
                ) && copied.binds_as(
                    old(self)@,
                    Map::empty(),
                    parameter,
                    r->Ok_0,
                    (fuel - 1) as nat,
                ) && final(self)@ == copied.replaced(variable, r->Ok_0),
            !dangling && r is Err ==> old(self)@.extended_by(final(self)@),
            !dangling && r is Err && old(self)@.nodes.contains_key(variable) ==> old(
                self,
            )@.copy_fails(Map::empty(), parameter, fuel as nat, r->Err_0),
            !dangling && old(self)@.is_leaf(parameter) && old(self)@.nodes.contains_key(variable)
                ==> old(self)@.copy_outcome(variable, parameter, fuel as nat, final(self)@, r),
            r is Ok && old(self)@.nodes.contains_key(variable) && !old(self)@.is_binder(variable)
                && (if dangling {
                old(self)@.bound_except(variable)
            } else {
                old(self)@.well_bound()
            }) ==> final(self)@.well_bound(),
            r is Ok && old(self)@.root == old(self)@.focus ==> final(self)@.root == final(self)@.focus,
    {
        proof {
            self.lemma_room(1, 0);
            self.lemma_linked();
        }
        if dangling {
            match self.replace_by(variable, parameter) {
                Ok(_) => Ok(parameter),
                Err(e) => Err(e),
            }
        } else {
            let mut remap: HashMap<NodeId, NodeId> = HashMap::new();
            proof {
                assert(remap_sound(remap@, self@));
            }
            let copy = self.clone_subtree(parameter, &mut remap, fuel)?;
            let ghost copied = self@;
            proof {
                assert(copied.nodes.contains_key(copy));
                if old(self)@.nodes.contains_key(variable) && !old(self)@.is_binder(variable) {
                    assert(copied.nodes.contains_key(variable));
                    assert(!copied.is_binder(variable));
                }
            }
            let replaced = self.replace_by(variable, copy);
            proof {
                if copy == variable {
                    assert(old(self)@.nodes.contains_key(variable) || !old(self)@.nodes.contains_key(
                        variable,
                    ));
                }
            }
            match replaced {
                Ok(_) => Ok(copy),
                Err(e) => Err(e),
            }
        }
    }

    /// Reduces the subtree of `node` to weak-head normal form and returns
    /// the node that stands in its place. The budget is the largest there
    /// is. Where `node` is the root, what is returned is the root of the
    /// graph that is left. It fails only as [`GraphView::evaluate_fails`]
    /// says.
    pub fn evaluate(&mut self, node: NodeId) -> (r: Result<NodeId, ASTError>)
        requires
            old(self).wf(),
        ensures
            final(self).wf(),
            final(self)@.next_uid >= old(self)@.next_uid,
            r is Ok ==> final(self)@.settled(r->Ok_0, u64::MAX as nat),
            old(self)@.is_whnf(node, (u64::MAX - 1) as nat) ==> r == Ok::<NodeId, ASTError>(node)
                && final(self)@ == old(self)@.focused_on(node),
            r is Ok && old(self)@.well_bound() ==> final(self)@.well_bound(),
            r is Ok ==> old(self)@.evaluates(node, u64::MAX as nat, final(self)@, r->Ok_0),
            r is Err ==> old(self)@.evaluate_fails(node, u64::MAX as nat, r->Err_0),
            r is Ok && node == old(self)@.root ==> final(self)@.root == r->Ok_0,
    {
        self.evaluate_bounded(node, u64::MAX)
    }

    /// Reduces the graph from its root and returns the root, which is a
    /// live node at which no rule applies. It fails only as
    /// [`GraphView::root_fails`] says.
    pub fn evaluate_root(&mut self) -> (r: Result<NodeId, ASTError>)
        requires
            old(self).wf(),
        ensures
            final(self).wf(),
            final(self)@.next_uid >= old(self)@.next_uid,
            r is Ok ==> final(self)@.root == r->Ok_0 && final(self)@.nodes.contains_key(
                final(self)@.root,
            ) && final(self)@.settled(final(self)@.root, u64::MAX as nat),
            old(self)@.is_whnf(old(self)@.root, (u64::MAX - 1) as nat) ==> r == Ok::<
                NodeId,
                ASTError,
            >(old(self)@.root) && final(self)@ == old(self)@,
            r is Ok && old(self)@.well_bound() ==> final(self)@.well_bound(),
            r is Ok ==> old(self)@.reduces(
                old(self)@.root,
                u64::MAX as nat,
                final(self)@,
                final(self)@.chain_end(final(self)@.root, u64::MAX as nat),
            ),
            r is Err ==> old(self)@.root_fails(u64::MAX as nat, r->Err_0),
    {
        let start = self.root();
        let head = self.reduce(start, u64::MAX)?;
        let root = self.root();
        proof {
            assert(passes(self@, head, u64::MAX as nat));
        }
        proof {
            if old(self)@.is_whnf(start, (u64::MAX - 1) as nat) {
                lemma_whnf_chain(old(self)@, start, (u64::MAX - 1) as nat, u64::MAX as nat);
            }
        }
        if self.chain_head(root, u64::MAX) != head {
            return Err(ASTError::InvalidClosureChain);
        }
        proof {
            lemma_chain_settled(self@, root, u64::MAX as nat);
        }
        Ok(root)
    }

    /// Reduces the subtree of `node` to weak-head normal form, nesting the
    /// rules at most `fuel` deep, and returns the node that stands in its
    /// place: the value, or the outermost of the closures that the
    /// reduction left around it.
    ///
    /// The focus is put on `node` and follows it through every
    /// replacement. At the end the value that the reduction arrived at
    /// must lie under the closures at the focus; where it does not, the
    /// graph was not the tree of owners that the rules take it for, and
    /// the result is `InvalidClosureChain`.
    ///
    /// It fails only as [`GraphView::evaluate_fails`] says.
    pub fn evaluate_bounded(&mut self, node: NodeId, fuel: u64) -> (r: Result<NodeId, ASTError>)
        requires
            old(self).wf(),
        ensures
            final(self).wf(),
            final(self)@.next_uid >= old(self)@.next_uid,
            r is Ok ==> final(self)@.settled(r->Ok_0, fuel as nat),
            fuel > 0 && old(self)@.is_whnf(node, (fuel - 1) as nat) ==> r == Ok::<
                NodeId,
                ASTError,
            >(node) && final(self)@ == old(self)@.focused_on(node),
            r is Ok && old(self)@.well_bound() ==> final(self)@.well_bound(),
            r is Ok ==> old(self)@.evaluates(node, fuel as nat, final(self)@, r->Ok_0),
            r is Err ==> old(self)@.evaluate_fails(node, fuel as nat, r->Err_0),
            r is Ok && node == old(self)@.root ==> final(self)@.root == r->Ok_0,
    {
        self.set_focus(node);
        let ghost focused = self@;
        proof {
            if old(self)@.well_bound() {
                lemma_bound_same_graph(old(self)@, focused);
            }
            if fuel > 0 && old(self)@.is_whnf(node, (fuel - 1) as nat) {
                lemma_whnf_focus(old(self)@, node, node, (fuel - 1) as nat);
            }
        }
        let head = self.reduce(node, fuel)?;
        let focus = self.focus();
        proof {
            if fuel > 0 && focused.is_whnf(node, (fuel - 1) as nat) {
                lemma_whnf_chain(focused, node, (fuel - 1) as nat, fuel as nat);
            }
        }
        proof {
            assert(passes(self@, head, fuel as nat));
        }
        if self.chain_head(focus, fuel) != head {
            return Err(ASTError::InvalidClosureChain);
        }
        proof {
            lemma_chain_settled(self@, focus, fuel as nat);
        }
        Ok(focus)
    }

    /// The node under the closures that start at `node`, passing at most
    /// `fuel` of them.
    pub fn chain_head(&self, node: NodeId, fuel: u64) -> (r: NodeId)
        requires
            self.wf(),
        ensures
            r == self@.chain_end(node, fuel as nat),
    {
        let mut current = node;
        let mut left: u64 = fuel;
        while left > 0
            invariant
                self.wf(),
                self@.chain_end(current, left as nat) == self@.chain_end(node, fuel as nat),
            decreases left,
        {
            if self.classify(current) != Kind::Closure {
                return current;
            }
            match self.follow_edge(current, Edge::Body) {
                Ok(body) => {
                    current = body;
                },
                Err(_) => {
                    return current;
                },
            }
            left -= 1;
        }
        current
    }

    /// Reduces the subtree of `node` to weak-head normal form, nesting the
    /// rules at most `fuel` deep, and returns the head that the reduction
    /// arrived at: a value, or an application that is a value as it
    /// stands. Closures that the reduction left around the head are not
    /// returned: the head is what lies under them.
    ///
    /// - A closure is transparent: its body is reduced.
    /// - An application has its head reduced and the closures above the
    ///   head lifted; then the rule for the head fires, see [`Self::fire`].
    /// - A bound variable has its binding forced and the value put in its
    ///   place, see [`Self::force_closure_parameter`] and
    ///   [`Self::dereference`]; what then stands there is reduced in turn,
    ///   which changes nothing where it is a value already.
    /// - A data node with an active tag is replaced by what the tag
    ///   computes.
    /// - Everything else is returned as it is.
    ///
    /// What the rules do to the graph is the relation
    /// [`GraphView::reduces`]. Before a subtree is deleted or a binding is
    /// given up, the reducer makes sure that nothing outside refers into
    /// it; where something does, the result is `InvalidClosureChain`.
    ///
    /// It fails only where one of the rules does, see
    /// [`GraphView::reduce_fails`]; a value never fails.
    pub fn reduce(&mut self, node: NodeId, fuel: u64) -> (r: Result<NodeId, ASTError>)
        requires
            old(self).wf(),
        ensures
            final(self).wf(),
            final(self)@.next_uid >= old(self)@.next_uid,
            r is Ok ==> final(self)@.settled(r->Ok_0, 0),
            fuel > 0 && old(self)@.is_whnf(node, (fuel - 1) as nat) ==> r == Ok::<
                NodeId,
                ASTError,
            >(old(self)@.chain_end(node, (fuel - 1) as nat)) && final(self)@ == old(self)@,
            r is Ok && old(self)@.well_bound() ==> final(self)@.well_bound(),
            r is Ok ==> old(self)@.reduces(node, fuel as nat, final(self)@, r->Ok_0),
            r is Err ==> old(self)@.reduce_fails(node, fuel as nat, r->Err_0),
            r is Ok && old(self)@.root == old(self)@.focus ==> final(self)@.root == final(self)@.focus,
        decreases fuel, 5nat,
    {
        if fuel == 0 {
            return Err(ASTError::Exhausted);
        }
        match self.classify(node) {
            Kind::Missing => Err(ASTError::Custom(node, "no such node")),
            Kind::Value => Ok(node),
            Kind::Closure => self.evaluate_closure(node, fuel),
            Kind::Application => self.evaluate_application(node, fuel),
            Kind::BoundVariable => self.evaluate_variable(node, fuel),
            Kind::Active(tag) => self.evaluate_data(node, tag, fuel),
        }
    }

    fn evaluate_closure(&mut self, node: NodeId, fuel: u64) -> (r: Result<NodeId, ASTError>)
        requires
            old(self).wf(),
            fuel > 0,
            old(self)@.kind(node) == Kind::Closure,
        ensures
            final(self).wf(),
            final(self)@.next_uid >= old(self)@.next_uid,
            r is Ok ==> final(self)@.settled(r->Ok_0, 0),
            old(self)@.is_whnf(node, (fuel - 1) as nat) ==> r == Ok::<NodeId, ASTError>(
                old(self)@.chain_end(node, (fuel - 1) as nat),
            ) && final(self)@ == old(self)@,
            r is Ok && old(self)@.well_bound() ==> final(self)@.well_bound(),
            r is Ok ==> old(self)@.reduces(node, fuel as nat, final(self)@, r->Ok_0),
            r is Err ==> old(self)@.reduce_fails(node, fuel as nat, r->Err_0),
            r is Ok && old(self)@.root == old(self)@.focus ==> final(self)@.root == final(self)@.focus,
        decreases fuel, 1nat,
    {
        let body = self.follow_edge(node, Edge::Body)?;
        self.reduce(body, fuel - 1)
    }

    /// The rule for an application, see [`GraphView::applies`]; it fails only
    /// as [`GraphView::apply_fails`] says.
    fn evaluate_application(&mut self, node: NodeId, fuel: u64) -> (r: Result<NodeId, ASTError>)
        requires
            old(self).wf(),
            fuel > 0,
            old(self)@.kind(node) == Kind::Application,
        ensures
            final(self).wf(),
            final(self)@.next_uid >= old(self)@.next_uid,
            r is Ok ==> final(self)@.settled(r->Ok_0, 0),
            old(self)@.is_whnf(node, (fuel - 1) as nat) ==> r == Ok::<NodeId, ASTError>(
                old(self)@.chain_end(node, (fuel - 1) as nat),
            ) && final(self)@ == old(self)@,
            r is Ok && old(self)@.well_bound() ==> final(self)@.well_bound(),
            r is Ok ==> old(self)@.applies(node, fuel as nat, final(self)@, r->Ok_0),
            r is Err ==> old(self)@.apply_fails(node, fuel as nat, r->Err_0),
            r is Ok && old(self)@.root == old(self)@.focus ==> final(self)@.root == final(self)@.focus,
        decreases fuel, 1nat,
    {
        let ghost whnf = old(self)@.is_whnf(node, (fuel - 1) as nat);
        let head = self.follow_edge(node, Edge::Function)?;
        let inner = self.reduce(head, fuel - 1)?;
        let ghost reduced = self@;
        proof {
            assert(whnf ==> self@ == old(self)@);
        }
        let count = match self.lift_closure_chain(node, Edge::Function, fuel) {
            Ok(count) => count,
            Err(e) => {
                proof {
                    assert(passes(reduced, inner, 0));
                }
                return Err(e);
            },
        };
        proof {
            assert(whnf ==> self@ == old(self)@);
            self.lemma_linked();
            assert(passes(reduced, inner, count as nat));
        }
        let ghost lifted = self@;
        let next = match self.fire(node)? {
            Firing::Stuck => {
                proof {
                    assert(lifted.children.contains_key((node, Edge::Function)));
                    assert(passes(reduced, inner, count as nat));
                    assert(lifted.fires(node, fuel as nat, self@, node));
                }
                return Ok(node);
            },
            Firing::Dead { body, parameter } => {
                self.remove_subtree_checked(parameter)?;
                body
            },
            Firing::Alias { body, parameter } => {
                self.remove_subtree_checked(parameter)?;
                body
            },
            Firing::Bound { closure } => closure,
        };
        let r = self.reduce(next, fuel - 1);
        proof {
            if r is Ok {
                assert(passes(reduced, inner, count as nat));
                assert(lifted.fires(node, fuel as nat, self@, r->Ok_0));
            }
        }
        r
    }

    /// The rule for a bound variable. Where the variable is the last
    /// reference to a binding that already holds a value, nothing is
    /// reduced or copied: the value takes the variable's place and is
    /// returned. Where the binding is shared and holds a value without
    /// edges, a copy of it takes the variable's place, exactly when there
    /// is room for one node.
    /// It fails only as [`GraphView::lookup_fails`] says.
    fn evaluate_variable(&mut self, node: NodeId, fuel: u64) -> (r: Result<NodeId, ASTError>)
        requires
            old(self).wf(),
            fuel > 0,
            old(self)@.kind(node) == Kind::BoundVariable,
        ensures
            final(self).wf(),
            final(self)@.next_uid >= old(self)@.next_uid,
            r is Ok ==> final(self)@.settled(r->Ok_0, 0),
            r is Ok && old(self)@.well_bound() ==> final(self)@.well_bound(),
            r is Ok ==> old(self)@.looks_up(node, fuel as nat, final(self)@, r->Ok_0),
            old(self)@.child(node, Edge::Binder(0)) is None ==> r == Err::<NodeId, ASTError>(
                ASTError::EdgeNotFound(node, Edge::Binder(0)),
            ) && final(self)@ == old(self)@,
            fuel > 2 && old(self)@.child(node, Edge::Binder(0)) is Some && old(self)@.holds_value(
                old(self)@.binder_of(node),
                (fuel - 3) as nat,
            ) && !old(self)@.releasable(old(self)@.binder_of(node)) ==> r == Err::<
                NodeId,
                ASTError,
            >(old(self)@.release_error(old(self)@.binder_of(node))) && final(self)@ == old(
                self,
            )@,
            fuel > 2 && old(self)@.child(node, Edge::Binder(0)) is Some && old(self)@.releasable(
                old(self)@.binder_of(node),
            ) && !old(self)@.shared(old(self)@.binder_of(node)) && old(self)@.kind(
                old(self)@.value_of(node),
            ) == Kind::Value ==> r == Ok::<NodeId, ASTError>(old(self)@.value_of(node)) && final(self)@ == old(self)@.moved(node),
            fuel > 2 && old(self)@.child(node, Edge::Binder(0)) is Some && old(self)@.releasable(
                old(self)@.binder_of(node),
            ) && old(self)@.shared(old(self)@.binder_of(node)) && old(self)@.kind(
                old(self)@.value_of(node),
            ) == Kind::Value && old(self)@.is_leaf(old(self)@.value_of(node)) ==> old(
                self,
            )@.copy_outcome(node, old(self)@.value_of(node), fuel as nat, final(self)@, r),
            r is Err ==> old(self)@.lookup_fails(node, fuel as nat, r->Err_0),
            r is Ok && old(self)@.root == old(self)@.focus ==> final(self)@.root == final(self)@.focus,
        decreases fuel, 1nat,
    {
        let binder = self.follow_edge(node, Edge::Binder(0))?;
        self.force_closure_parameter(binder, fuel - 1)?;
        let ghost forced = self@;
        let replacement = match self.dereference(node, fuel) {
            Ok(replacement) => replacement,
            Err(e) => {
                proof {
                    assert(passes_two(forced, forced, node));
                }
                return Err(e);
            },
        };
        let ghost replaced = self@;
        let r = self.reduce(replacement, fuel - 1);
        proof {
            assert(passes_two(forced, replaced, replacement));
        }
        r
    }

    /// Forces the value of a binding and lets go of one reference to it.
    ///
    /// The parameter of `closure` is reduced; closures that the reduction
    /// left above the value are lifted above `closure`, so that the
    /// parameter edge points at the value itself; then the reference is
    /// released, see [`Self::release_closure`]. Returns the value and
    /// whether it was handed over (`true`: the closure is gone and the
    /// value has no owner) or is still shared.
    ///
    /// Where the binding already holds a value, nothing is reduced: the
    /// result and the graph are those of the release alone, which succeeds
    /// exactly when the binding is shared or is a closure with a body.
    /// It fails only where forcing fails or the forced binding cannot be let
    /// go, see [`GraphView::release_fails`].
    pub fn evaluate_closure_parameter(&mut self, closure: NodeId, fuel: u64) -> (r: Result<
        (NodeId, bool),
        ASTError,
    >)
        requires
            old(self).wf(),
        ensures
            final(self).wf(),
            final(self)@.next_uid >= old(self)@.next_uid,
            r is Ok ==> final(self)@.nodes.contains_key(r->Ok_0.0) && !final(self)@.is_closure(
                r->Ok_0.0,
            ),
            r is Ok && r->Ok_0.1 ==> !final(self)@.nodes.contains_key(closure),
            r is Ok && !r->Ok_0.1 ==> final(self)@.child(closure, Edge::Parameter) == Some(
                r->Ok_0.0,
            ) && final(self)@.shared(closure),
            r is Ok ==> old(self)@.releases(
                closure,
                fuel as nat,
                final(self)@,
                r->Ok_0.0,
                r->Ok_0.1,
            ),
            fuel == 0 ==> r == Err::<(NodeId, bool), ASTError>(ASTError::Exhausted) && final(self)@ == old(self)@,
            fuel > 0 && old(self)@.child(closure, Edge::Parameter) is None ==> r == Err::<
                (NodeId, bool),
                ASTError,
            >(ASTError::EdgeNotFound(closure, Edge::Parameter)) && final(self)@ == old(self)@,
            fuel > 1 && old(self)@.holds_value(closure, (fuel - 2) as nat) ==> r == old(
                self,
            )@.release_outcome(closure) && final(self)@ == (if r is Ok {
                old(self)@.released(closure)
            } else {
                old(self)@
            }),
            r is Err ==> old(self)@.release_fails(closure, fuel as nat, r->Err_0),
        decreases fuel, 1nat,
    {
        self.force_closure_parameter(closure, fuel)?;
        let ghost forced = self@;
        proof {
            self.lemma_linked();
            assert(self@.children.contains_key((closure, Edge::Parameter)));
        }
        proof {
            assert(hands(forced, closure, true));
        }
        let released = self.release_closure(closure)?;
        proof {
            assert(hands(forced, released.0, released.1));
        }
        Ok(released)
    }

    /// Forces the value of a binding: reduces the parameter of `closure`
    /// and lifts the closures that the reduction left above the value, so
    /// that the parameter edge points at the value itself.
    ///
    /// A binding is forced once: where it already holds a value, this
    /// succeeds and changes nothing. With no fuel, or with no parameter at
    /// `closure`, it fails and changes nothing.
    /// It fails only where the reduction of the parameter fails or the
    /// closures above the value cannot be lifted, see
    /// [`GraphView::force_fails`].
    pub fn force_closure_parameter(&mut self, closure: NodeId, fuel: u64) -> (r: Result<
        (),
        ASTError,
    >)
        requires
            old(self).wf(),
        ensures
            final(self).wf(),
            final(self)@.next_uid >= old(self)@.next_uid,
            r is Ok ==> final(self)@.child(closure, Edge::Parameter) is Some
                && !final(self)@.is_closure(final(self)@.children[(closure, Edge::Parameter)]),
            r is Ok && old(self)@.well_bound() ==> final(self)@.well_bound(),
            r is Ok ==> old(self)@.forces(closure, fuel as nat, final(self)@),
            fuel == 0 ==> r == Err::<(), ASTError>(ASTError::Exhausted) && final(self)@ == old(
                self,
            )@,
            fuel > 0 && old(self)@.child(closure, Edge::Parameter) is None ==> r == Err::<
                (),
                ASTError,
            >(ASTError::EdgeNotFound(closure, Edge::Parameter)) && final(self)@ == old(self)@,
            fuel > 1 && old(self)@.holds_value(closure, (fuel - 2) as nat) ==> r is Ok && final(self)@ == old(self)@,
            r is Err ==> old(self)@.force_fails(closure, fuel as nat, r->Err_0),
            r is Ok && old(self)@.root == old(self)@.focus ==> final(self)@.root == final(self)@.focus,
        decreases fuel, 0nat,
    {
        if fuel == 0 {
            return Err(ASTError::Exhausted);
        }
        let parameter = self.follow_edge(closure, Edge::Parameter)?;
        let inner = self.reduce(parameter, fuel - 1)?;
        let ghost reduced = self@;
        let count = match self.lift_closure_chain(closure, Edge::Parameter, fuel) {
            Ok(count) => count,
            Err(e) => {
                proof {
                    assert(passes(reduced, inner, fuel as nat));
                }
                return Err(e);
            },
        };
        proof {
            assert(passes(reduced, inner, count as nat));
        }
        Ok(())
    }

    /// Forces the value of a binding, see
    /// [`Self::evaluate_closure_parameter`], and returns it if it is a
    /// primitive. A value that was handed over is deleted once it is read.
    ///
    /// Where the binding already holds a value, it succeeds exactly when
    /// the reference can be let go and the value is a primitive.
    /// It fails only as [`GraphView::extract_fails`] says.
    pub fn extract_primitive_from_environment(&mut self, closure: NodeId, fuel: u64) -> (r: Result<
        Primitive,
        ASTError,
    >)
        requires
            old(self).wf(),
        ensures
            final(self).wf(),
            final(self)@.next_uid >= old(self)@.next_uid,
            r is Ok ==> old(self)@.extracts(closure, fuel as nat, final(self)@, r->Ok_0@),
            fuel == 0 ==> r is Err && r->Err_0 == ASTError::Exhausted && final(self)@ == old(
                self,
            )@,
            fuel > 1 && old(self)@.holds_value(closure, (fuel - 2) as nat) ==> final(self)@
                == old(self)@.read_or_kept(closure) && (match r {
                Ok(primitive) => old(self)@.releasable(closure) && old(self)@.held(closure)
                    == Some(primitive@),
                Err(e) => e == (if old(self)@.releasable(closure) {
                    ASTError::Custom(closure, "Not a primitive")
                } else {
                    old(self)@.release_error(closure)
                }) && !(old(self)@.releasable(closure) && old(self)@.held(closure) is Some),
            }),
            r is Err ==> old(self)@.extract_fails(closure, fuel as nat, r->Err_0),
        decreases fuel, 2nat,
    {
        let (parameter, dangling) = self.evaluate_closure_parameter(closure, fuel)?;
        let ghost released = self@;
        let primitive = match self.node(parameter) {
            Some(Node::Primitive(primitive)) => Some(primitive.duplicate()),
            _ => None,
        };
        if dangling {
            let _ = self.remove_node(parameter);
        }
        proof {
            assert(hands(released, parameter, dangling));
        }
        match primitive {
            Some(primitive) => Ok(primitive),
            None => Err(ASTError::Custom(closure, "Not a primitive")),
        }
    }

    /// Forces the value of a binding and returns it if it is a number.
    /// Where the binding already holds a value, it succeeds exactly when
    /// the reference can be let go and the value is a number.
    /// It fails only as [`GraphView::extract_number_fails`] says.
    pub fn extract_number(&mut self, closure: NodeId, fuel: u64) -> (r: Result<usize, ASTError>)
        requires
            old(self).wf(),
        ensures
            final(self).wf(),
            final(self)@.next_uid >= old(self)@.next_uid,
            r is Ok ==> old(self)@.extracts(
                closure,
                fuel as nat,
                final(self)@,
                PrimitiveView::Number(r->Ok_0),
            ),
            fuel == 0 ==> r == Err::<usize, ASTError>(ASTError::Exhausted) && final(self)@ == old(
                self,
            )@,
            fuel > 1 && old(self)@.holds_value(closure, (fuel - 2) as nat) ==> final(self)@
                == old(self)@.read_or_kept(closure) && r == old(self)@.number_outcome(
                closure,
                closure,
            ),
            r is Err ==> old(self)@.extract_number_fails(closure, fuel as nat, r->Err_0),
        decreases fuel, 3nat,
    {
        match self.extract_primitive_from_environment(closure, fuel)? {
            Primitive::Number(number) => Ok(number),
            Primitive::Bytes(bytes) => {
                proof {
                    assert(old(self)@.extracts(
                        closure,
                        fuel as nat,
                        self@,
                        PrimitiveView::Bytes(bytes@),
                    ));
                }
                Err(ASTError::Custom(closure, "NaN"))
            },
        }
    }

    /// Forces the binding of the argument `index` of the data node `data`
    /// and lets go of the data node's reference to it, as
    /// [`Self::evaluate_closure_parameter`] does. Once the binding is
    /// forced, `data` must still be a data node whose tag computes and must
    /// still refer to the binding; where it does not, the result is
    /// `InvalidClosureChain`.
    ///
    /// Where the argument is already a value, nothing is reduced: the
    /// result and the graph are those of the release alone.
    /// It fails only as [`GraphView::argue_fails`] says.
    pub fn argument_parameter(&mut self, data: NodeId, index: usize, fuel: u64) -> (r: Result<
        (NodeId, bool),
        ASTError,
    >)
        requires
            old(self).wf(),
        ensures
            final(self).wf(),
            final(self)@.next_uid >= old(self)@.next_uid,
            r is Ok ==> final(self)@.nodes.contains_key(r->Ok_0.0) && !final(self)@.is_closure(
                r->Ok_0.0,
            ) && final(self)@.is_data(data),
            r is Ok && old(self)@.well_bound() ==> final(self)@.well_bound(),
            r is Ok ==> old(self)@.argues(
                data,
                index,
                fuel as nat,
                final(self)@,
                r->Ok_0.0,
                r->Ok_0.1,
            ),
            old(self)@.child(data, Edge::Binder(index)) is None ==> r == Err::<
                (NodeId, bool),
                ASTError,
            >(ASTError::EdgeNotFound(data, Edge::Binder(index))) && final(self)@ == old(self)@,
            fuel == 0 && old(self)@.child(data, Edge::Binder(index)) is Some ==> r == Err::<
                (NodeId, bool),
                ASTError,
            >(ASTError::Exhausted) && final(self)@ == old(self)@,
            fuel > 1 && old(self)@.argument_ready(data, index, (fuel - 2) as nat) ==> r == old(
                self,
            )@.release_outcome(old(self)@.binding(data, index)) && final(self)@ == (if r is Ok {
                old(self)@.released(old(self)@.binding(data, index))
            } else {
                old(self)@
            }),
            r is Err ==> old(self)@.argue_fails(data, index, fuel as nat, r->Err_0),
            r is Ok && old(self)@.root == old(self)@.focus ==> final(self)@.root == final(self)@.focus,
        decreases fuel, 1nat,
    {
        let closure = self.follow_edge(data, Edge::Binder(index))?;
        self.force_closure_parameter(closure, fuel)?;
        let ghost forced = self@;
        proof {
            assert(hands(forced, closure, true));
        }
        let computes = match self.classify(data) {
            Kind::Active(_) => true,
            _ => false,
        };
        if !computes {
            return Err(ASTError::InvalidClosureChain);
        }
        match self.follow_edge(data, Edge::Binder(index)) {
            Ok(current) => {
                if current != closure {
                    return Err(ASTError::InvalidClosureChain);
                }
            },
            Err(_) => {
                return Err(ASTError::InvalidClosureChain);
            },
        }
        proof {
            self.lemma_linked();
            assert(forced.children.contains_key((closure, Edge::Parameter)));
        }
        let released = self.release_closure(closure)?;
        proof {
            if old(self)@.well_bound() && released.1 {
                let mine = (data, Edge::Binder(index));
                assert(forced.children.contains_key(mine) && forced.refers(mine, closure));
                assert forall|k: (NodeId, Edge)| #[trigger]
                    forced.children.contains_key(k) && forced.refers(k, closure) implies k.0
                    == data by {
                    if k != mine {
                        assert(forced.children.contains_key(k) && forced.children.contains_key(
                            mine,
                        ));
                        assert(forced.shared(closure));
                    }
                }
                lemma_bound_stripped(forced, closure, data);
                lemma_bound_from_except(self@, data);
            }
            assert(hands(forced, released.0, released.1));
        }
        Ok(released)
    }

    /// Forces the argument `index` of the data node `data`, see
    /// [`Self::argument_parameter`], and returns it if it is a primitive.
    /// A value that was handed over is deleted once it is read.
    ///
    /// Where the argument is already a value, it succeeds exactly when the
    /// reference can be let go and the value is a primitive.
    /// It fails only as [`GraphView::read_fails`] says.
    pub fn extract_argument(&mut self, data: NodeId, index: usize, fuel: u64) -> (r: Result<
        Primitive,
        ASTError,
    >)
        requires
            old(self).wf(),
        ensures
            final(self).wf(),
            final(self)@.next_uid >= old(self)@.next_uid,
            r is Ok ==> final(self)@.is_data(data),
            r is Ok && old(self)@.well_bound() ==> final(self)@.well_bound(),
            r is Ok ==> old(self)@.reads(data, index, fuel as nat, final(self)@, r->Ok_0@),
            old(self)@.child(data, Edge::Binder(index)) is None ==> r is Err && r->Err_0
                == ASTError::EdgeNotFound(data, Edge::Binder(index)) && final(self)@ == old(
                self,
            )@,
            fuel > 1 && old(self)@.argument_ready(data, index, (fuel - 2) as nat) ==> final(self)@ == old(self)@.argument_read(old(self)@.binding(data, index)) && (match r {
                Ok(primitive) => old(self)@.releasable(old(self)@.binding(data, index)) && old(
                    self,
                )@.held(old(self)@.binding(data, index)) == Some(primitive@),
                Err(e) => e == (if old(self)@.releasable(old(self)@.binding(data, index)) {
                    ASTError::Custom(data, "Not a primitive")
                } else {
                    old(self)@.release_error(old(self)@.binding(data, index))
                }) && !(old(self)@.releasable(old(self)@.binding(data, index)) && old(
                    self,
                )@.held(old(self)@.binding(data, index)) is Some),
            }),
            r is Err ==> old(self)@.read_fails(data, index, fuel as nat, r->Err_0),
            r is Ok && old(self)@.root == old(self)@.focus ==> final(self)@.root == final(self)@.focus,
        decreases fuel, 2nat,
    {
        let (parameter, dangling) = self.argument_parameter(data, index, fuel)?;
        let ghost forced = self@;
        proof {
            assert(hands(forced, parameter, dangling));
        }
        let primitive = match self.node(parameter) {
            Some(Node::Primitive(primitive)) => primitive.duplicate(),
            _ => {
                return Err(ASTError::Custom(data, "Not a primitive"));
            },
        };
        proof {
            assert(hands(forced, parameter, dangling));
        }
        if dangling {
            proof {
                if self@.well_bound() {
                    lemma_bound_without_node(self@, parameter);
                }
            }
            let _ = self.remove_node(parameter);
        }
        Ok(primitive)
    }

    /// Forces the argument `index` of the data node `data` and returns it
    /// if it is a number. Where the argument is already a value, it
    /// succeeds exactly when the reference can be let go and the value is
    /// a number.
    /// It fails only as [`GraphView::number_fails`] says.
    pub fn number_argument(&mut self, data: NodeId, index: usize, fuel: u64) -> (r: Result<
        usize,
        ASTError,
    >)
        requires
            old(self).wf(),
        ensures
            final(self).wf(),
            final(self)@.next_uid >= old(self)@.next_uid,
            r is Ok ==> final(self)@.is_data(data),
            r is Ok && old(self)@.well_bound() ==> final(self)@.well_bound(),
            r is Ok ==> old(self)@.reads(
                data,
                index,
                fuel as nat,
                final(self)@,
                PrimitiveView::Number(r->Ok_0),
            ),
            old(self)@.child(data, Edge::Binder(index)) is None ==> r == Err::<usize, ASTError>(
                ASTError::EdgeNotFound(data, Edge::Binder(index)),
            ) && final(self)@ == old(self)@,
            fuel > 1 && old(self)@.argument_ready(data, index, (fuel - 2) as nat) ==> final(self)@ == old(self)@.argument_read(old(self)@.binding(data, index)) && r == old(
                self,
            )@.number_outcome(old(self)@.binding(data, index), data),
            r is Err ==> old(self)@.number_fails(data, index, fuel as nat, r->Err_0),
            r is Ok && old(self)@.root == old(self)@.focus ==> final(self)@.root == final(self)@.focus,
        decreases fuel, 3nat,
    {
        match self.extract_argument(data, index, fuel)? {
            Primitive::Number(number) => Ok(number),
            Primitive::Bytes(bytes) => {
                proof {
                    assert(old(self)@.reads(
                        data,
                        index,
                        fuel as nat,
                        self@,
                        PrimitiveView::Bytes(bytes@),
                    ));
                }
                Err(ASTError::Custom(data, "NaN"))
            },
        }
    }

    /// The rule for a data node whose tag computes. Where the arguments
    /// that the tag reads already are values, nothing is reduced and the
    /// outcome is [`GraphView::value_outcome`].
    /// It fails only as [`GraphView::compute_fails`] says.
    fn evaluate_data(&mut self, node: NodeId, tag: ConstructorTag, fuel: u64) -> (r: Result<
        NodeId,
        ASTError,
    >)
        requires
            old(self).wf(),
            fuel > 0,
            old(self)@.kind(node) == Kind::Active(tag),
        ensures
            final(self).wf(),
            final(self)@.next_uid >= old(self)@.next_uid,
            r is Ok ==> final(self)@.settled(r->Ok_0, 0),
            r is Ok && old(self)@.well_bound() ==> final(self)@.well_bound(),
            r is Ok ==> old(self)@.computes(node, tag, fuel as nat, final(self)@, r->Ok_0),
            old(self)@.child(node, GraphView::first_edge(tag)) is None ==> r == Err::<
                NodeId,
                ASTError,
            >(ASTError::EdgeNotFound(node, GraphView::first_edge(tag))) && final(self)@ == old(
                self,
            )@,
            fuel > 2 && old(self)@.values_ready(node, tag, (fuel - 3) as nat) ==> old(
                self,
            )@.value_outcome(node, tag, fuel as nat, final(self)@, r),
            r is Err ==> old(self)@.compute_fails(node, tag, fuel as nat, r->Err_0),
            r is Ok && old(self)@.root == old(self)@.focus ==> final(self)@.root == final(self)@.focus,
        decreases fuel, 4nat,
    {
        match tag {
            ConstructorTag::Arithmetic(operation) => self.evaluate_arithmetic(
                node,
                operation,
                fuel,
            ),
            ConstructorTag::HelperFunction(HelperFunctionTag::CreateConstructor) => {
                self.evaluate_constructor(node, fuel)
            },
            ConstructorTag::HelperFunction(HelperFunctionTag::Match) => self.evaluate_match(
                node,
                fuel,
            ),
            _ => {
                assert(tag.is_inert());
                Ok(node)
            },
        }
    }

    /// The rule for an arithmetic tag: both arguments are read as numbers
    /// and the result takes the place of the node. Where both already are
    /// numbers, the outcome is [`GraphView::arithmetic_outcome`].
    /// It fails only as [`GraphView::compute_fails`] says: where reading a
    /// number fails, or the result cannot be put in place.
    fn evaluate_arithmetic(&mut self, node: NodeId, operation: ArithmeticTag, fuel: u64) -> (r:
        Result<NodeId, ASTError>)
        requires
            old(self).wf(),
            fuel > 0,
            old(self)@.is_data(node),
        ensures
            final(self).wf(),
            final(self)@.next_uid >= old(self)@.next_uid,
            r is Ok ==> final(self)@.settled(r->Ok_0, 0),
            r is Ok && old(self)@.well_bound() ==> final(self)@.well_bound(),
            r is Ok ==> old(self)@.computes(
                node,
                ConstructorTag::Arithmetic(operation),
                fuel as nat,
                final(self)@,
                r->Ok_0,
            ),
            old(self)@.child(node, Edge::Binder(0)) is None ==> r == Err::<NodeId, ASTError>(
                ASTError::EdgeNotFound(node, Edge::Binder(0)),
            ) && final(self)@ == old(self)@,
            fuel > 2 && old(self)@.numbers_ready(node, (fuel - 3) as nat) ==> old(
                self,
            )@.arithmetic_outcome(node, operation, final(self)@, r),
            r is Err ==> old(self)@.compute_fails(
                node,
                ConstructorTag::Arithmetic(operation),
                fuel as nat,
                r->Err_0,
            ),
            r is Ok && old(self)@.root == old(self)@.focus ==> final(self)@.root == final(self)@.focus,
        decreases fuel, 1nat,
    {
        let what = self.number_argument(node, 0, fuel - 1)?;
        let ghost first = self@;
        proof {
            assert(passes(first, node, what as nat));
        }
        let to = self.number_argument(node, 1, fuel - 1)?;
        let ghost second = self@;
        let r = self.finish_arithmetic(node, operation, what, to);
        proof {
            assert(passes(second, node, to as nat));
            if r is Ok {
                assert(passes_two(first, second, r->Ok_0));
                assert(passes(first, r->Ok_0, what as nat));
                assert(passes(second, r->Ok_0, to as nat));
            }
        }
        r
    }

    /// Puts the result of an arithmetic tag on two numbers in the place
    /// of the data node `node`: a number for the tags that compute one, a
    /// Church boolean for `Eq`. Where the tag computes nothing on these
    /// numbers (a division by zero, a result beyond the machine word), it
    /// fails with a domain error at `node` and changes nothing. It succeeds
    /// exactly when `node` is live, the tag computes something and there is
    /// room for it.
    pub fn finish_arithmetic(
        &mut self,
        node: NodeId,
        operation: ArithmeticTag,
        what: usize,
        to: usize,
    ) -> (r: Result<NodeId, ASTError>)
        requires
            old(self).wf(),
        ensures
            final(self).wf(),
            final(self)@.next_uid == old(self)@.next_uid,
            r is Ok ==> final(self)@.kind(r->Ok_0) == Kind::Value && !old(
                self,
            )@.nodes.contains_key(r->Ok_0),
            !old(self)@.nodes.contains_key(node) ==> r == Err::<NodeId, ASTError>(
                ASTError::Custom(node, "no such node"),
            ) && final(self)@ == old(self)@,
            old(self)@.nodes.contains_key(node) && operation != ArithmeticTag::Eq ==> (
            match operation.number(what as nat, to as nat) {
                Some(v) => if v <= usize::MAX {
                    match r {
                        Ok(result) => final(self)@ == old(self)@.with_node(
                            result,
                            NodeView::Primitive(PrimitiveView::Number(v as usize)),
                        ).replaced(node, result),
                        Err(e) => e is Full && final(self)@ == old(self)@,
                    }
                } else {
                    r is Err && r->Err_0 is Custom && final(self)@ == old(self)@
                },
                None => r is Err && r->Err_0 is Custom && final(self)@ == old(self)@,
            }),
            old(self)@.nodes.contains_key(node) && operation == ArithmeticTag::Eq ==> (match r {
                Ok(result) => exists|inserted: GraphView|
                    final(self)@ == #[trigger] inserted.replaced(node, result)
                        && inserted.has_boolean(old(self)@, what == to, result),
                Err(e) => e is Full && old(self)@.extended_by(final(self)@),
            }),
            r is Ok && old(self)@.well_bound()
                && old(self)@.is_data(node) ==> final(self)@.well_bound(),
            r is Ok ==> old(self)@.arithmetic_done(
                node,
                operation,
                what,
                to,
                final(self)@,
                r->Ok_0,
            ),
            r is Ok <==> old(self)@.nodes.contains_key(node) && operation.defined(what, to) && old(
                self,
            )@.arithmetic_room(operation),
            old(self)@.nodes.contains_key(node) && !operation.defined(what, to) ==> r is Err
                && r->Err_0 is Custom && r->Err_0->Custom_0 == node && final(self)@ == old(self)@,
            r is Err ==> old(self)@.arithmetic_fails(node, operation, what, to, r->Err_0),
            r is Ok && old(self)@.root == old(self)@.focus ==> final(self)@.root == final(self)@.focus,
    {
        proof {
            self.lemma_room(3, 3);
            self.lemma_room(1, 0);
        }
        if !self.contains_node(node) {
            return Err(ASTError::Custom(node, "no such node"));
        }
        let value = match operation.compute(what, to) {
            Ok(value) => value,
            Err(message) => {
                return Err(ASTError::Custom(node, message));
            },
        };
        match value {
            ArithmeticValue::Number(number) => {
                proof {
                    self.lemma_linked();
                }
                let result = self.add_node(Node::Primitive(Primitive::Number(number)))?;
                proof {
                    if old(self)@.well_bound() {
                        crate::integrity::lemma_bound_extended(old(self)@, self@);
                    }
                }
                let replaced = self.replace_by(node, result);
                assert(replaced is Ok);
                Ok(result)
            },
            ArithmeticValue::Boolean(answer) => {
                let result = self.insert_boolean(answer)?;
                let ghost inserted = self@;
                proof {
                    let (inner, variable) = choose|inner: NodeId, variable: NodeId|
                        #![trigger old(self)@.with_boolean(answer, result, inner, variable)]
                        !old(self)@.nodes.contains_key(result) && !old(
                            self,
                        )@.nodes.contains_key(inner) && !old(self)@.nodes.contains_key(variable)
                            && result != inner && result != variable && inner != variable
                            && inserted == old(self)@.with_boolean(
                            answer,
                            result,
                            inner,
                            variable,
                        );
                    assert(inserted.nodes.contains_key(result));
                    assert(inserted.nodes[result] is Lambda);
                }
                let replaced = self.replace_by(node, result);
                proof {
                    if node == result {
                        assert(!old(self)@.nodes.contains_key(node));
                    }
                }
                match replaced {
                    Ok(_) => Ok(result),
                    Err(_) => Err(ASTError::Full),
                }
            },
        }
    }

    /// The rule for `#constructor`: the arity is read as a number and a
    /// fresh constructor takes the place of the node. Where the arity
    /// already is a number, the outcome is
    /// [`GraphView::constructor_outcome`].
    /// It fails only as [`GraphView::compute_fails`] says.
    fn evaluate_constructor(&mut self, node: NodeId, fuel: u64) -> (r: Result<NodeId, ASTError>)
        requires
            old(self).wf(),
            fuel > 0,
            old(self)@.is_data(node),
        ensures
            final(self).wf(),
            final(self)@.next_uid >= old(self)@.next_uid,
            r is Ok ==> final(self)@.settled(r->Ok_0, 0),
            r is Ok && old(self)@.well_bound() ==> final(self)@.well_bound(),
            r is Ok ==> old(self)@.computes(
                node,
                ConstructorTag::HelperFunction(HelperFunctionTag::CreateConstructor),
                fuel as nat,
                final(self)@,
                r->Ok_0,
            ),
            old(self)@.child(node, Edge::Binder(0)) is None ==> r == Err::<NodeId, ASTError>(
                ASTError::EdgeNotFound(node, Edge::Binder(0)),
            ) && final(self)@ == old(self)@,
            fuel > 2 && old(self)@.number_ready(node, 0, (fuel - 3) as nat) ==> old(
                self,
            )@.constructor_outcome(node, final(self)@, r),
            r is Err ==> old(self)@.compute_fails(
                node,
                ConstructorTag::HelperFunction(HelperFunctionTag::CreateConstructor),
                fuel as nat,
                r->Err_0,
            ),
            r is Ok && old(self)@.root == old(self)@.focus ==> final(self)@.root == final(self)@.focus,
        decreases fuel, 1nat,
    {
        let arity = self.number_argument(node, 0, fuel - 1)?;
        let ghost first = self@;
        let r = self.finish_constructor(node, arity);
        proof {
            assert(passes(first, node, arity as nat));
            if r is Ok {
                assert(passes(first, r->Ok_0, arity as nat));
            }
        }
        r
    }

    /// Puts a fresh constructor with `arity` arguments in the place of the
    /// data node `node`. The constructor's identifier is the graph's
    /// counter, which advances by one. It succeeds exactly when `node` is
    /// live, an identifier is left, and there is room for the data node,
    /// one lambda per argument and two edges per argument.
    #[verifier::rlimit(50)]
    pub fn finish_constructor(&mut self, node: NodeId, arity: usize) -> (r: Result<
        NodeId,
        ASTError,
    >)
        requires
            old(self).wf(),
        ensures
            final(self).wf(),
            !old(self)@.nodes.contains_key(node) ==> r == Err::<NodeId, ASTError>(
                ASTError::Custom(node, "no such node"),
            ) && final(self)@ == old(self)@,
            match r {
                Ok(head) => old(self)@.nodes.contains_key(node) && old(self)@.next_uid
                    < usize::MAX && final(self)@.next_uid == old(self)@.next_uid + 1
                        && final(self)@.kind(head) == Kind::Value && exists|
                    added: GraphView,
                |
                    final(self)@ == #[trigger] added.replaced(node, head)
                        && added.has_constructor(
                        old(self)@.counted(),
                        ConstructorTag::CustomTag { uid: old(self)@.next_uid, arity },
                        head,
                    ),
                Err(e) => (e is Full || !old(self)@.nodes.contains_key(node))
                    && final(self)@.next_uid >= old(self)@.next_uid,
            },
            r is Ok && old(self)@.well_bound()
                && old(self)@.is_data(node) ==> final(self)@.well_bound(),
            r is Ok ==> old(self)@.constructor_done(node, arity, final(self)@, r->Ok_0),
            r is Ok <==> old(self)@.nodes.contains_key(node) && old(self)@.next_uid < usize::MAX
                && old(self)@.room(arity as nat + 1, 2 * (arity as nat)),
            r is Err ==> old(self)@.constructor_fails(node, arity, r->Err_0),
            r is Ok && old(self)@.root == old(self)@.focus ==> final(self)@.root == final(self)@.focus,
    {
        proof {
            self.lemma_room(arity as nat + 1, 2 * (arity as nat));
        }
        if !self.contains_node(node) {
            return Err(ASTError::Custom(node, "no such node"));
        }
        let uid = self.next_uid()?;
        let ghost counted = self@;
        proof {
            if old(self)@.well_bound() {
                lemma_bound_same_graph(old(self)@, counted);
            }
        }
        let tag = ConstructorTag::CustomTag { uid, arity };
        let head = self.add_constructor(tag)?;
        let ghost added = self@;
        proof {
            let (data, lambdas) = choose|data: NodeId, lambdas: Seq<NodeId>|
                #![trigger added.built(counted, tag, data, lambdas, 0)]
                added.built(counted, tag, data, lambdas, 0) && head == (if lambdas.len() == 0 {
                    data
                } else {
                    lambdas[0]
                });
            assert(added.nodes.contains_key(head));
            assert(!counted.nodes.contains_key(head));
            assert(added.kind(head) == Kind::Value);
        }
        let replaced = self.replace_by(node, head);
        proof {
            if node == head {
                assert(!counted.nodes.contains_key(node));
            }
        }
        match replaced {
            Ok(_) => Ok(head),
            Err(_) => Err(ASTError::Full),
        }
    }

    /// The rule for `#match`: the constructor and the value are forced,
    /// the transform or the fallback is applied, and what stands in the
    /// place of the node is reduced. It fails and changes nothing where one
    /// of the edges that it follows is missing; where the constructor and
    /// the value already are values and the match cannot be decided, it
    /// fails as [`GraphView::match_refusals`] says.
    /// On every failure [`GraphView::match_fails`] holds of the error.
    fn evaluate_match(&mut self, node: NodeId, fuel: u64) -> (r: Result<NodeId, ASTError>)
        requires
            old(self).wf(),
            fuel > 0,
            old(self)@.is_data(node),
        ensures
            final(self).wf(),
            final(self)@.next_uid >= old(self)@.next_uid,
            r is Ok ==> final(self)@.settled(r->Ok_0, 0),
            r is Ok && old(self)@.well_bound() ==> final(self)@.well_bound(),
            r is Ok ==> old(self)@.matches(node, fuel as nat, final(self)@, r->Ok_0),
            old(self)@.child(node, Edge::Binder(1)) is None ==> r == Err::<NodeId, ASTError>(
                ASTError::EdgeNotFound(node, Edge::Binder(1)),
            ) && final(self)@ == old(self)@,
            old(self)@.child(node, Edge::Binder(1)) is Some && old(self)@.child(
                node,
                Edge::Binder(2),
            ) is None ==> r == Err::<NodeId, ASTError>(
                ASTError::EdgeNotFound(node, Edge::Binder(2)),
            ) && final(self)@ == old(self)@,
            old(self)@.child(node, Edge::Binder(1)) is Some && old(self)@.child(
                node,
                Edge::Binder(2),
            ) is Some && old(self)@.child(node, Edge::Binder(3)) is None ==> r == Err::<
                NodeId,
                ASTError,
            >(ASTError::EdgeNotFound(node, Edge::Binder(3))) && final(self)@ == old(self)@,
            fuel > 2 && old(self)@.match_ready(node, (fuel - 3) as nat) ==> old(
                self,
            )@.match_refusals(node, fuel as nat, final(self)@, r),
            r is Err ==> old(self)@.match_fails(node, fuel as nat, r->Err_0),
            r is Ok && old(self)@.root == old(self)@.focus ==> final(self)@.root == final(self)@.focus,
        decreases fuel, 1nat,
    {
        let transform = self.follow_edge(node, Edge::Binder(1))?;
        let fallback = self.follow_edge(node, Edge::Binder(2))?;
        let value_binder = self.follow_edge(node, Edge::Binder(3))?;
        // Matching is strict in the constructor and in the value only.
        let (constructor, constructor_dangling) = self.argument_parameter(node, 0, fuel - 1)?;
        let ghost first = self@;
        proof {
            assert(hands(first, constructor, constructor_dangling));
        }
        let (value, value_dangling) = self.argument_parameter(node, 3, fuel - 1)?;
        let ghost second = self@;
        proof {
            assert(hands(second, value, value_dangling));
        }
        let head = self.finish_match(
            node,
            constructor,
            constructor_dangling,
            transform,
            fallback,
            value_binder,
            value,
            value_dangling,
            fuel,
        )?;
        let ghost built = self@;
        let r = self.reduce(head, fuel - 1);
        proof {
            assert(passes(built, head, fuel as nat));
        }
        r
    }
}

impl ConstructorTag {
    /// Reduces the data node `id`, which carries this tag: an inert tag
    /// leaves it as it is; a tag that computes replaces it by its result,
    /// see [`AST::reduce`]. Fails where `id` is no data node with this tag.
    pub fn evaluate(&self, ast: &mut AST, id: NodeId, fuel: u64) -> (r: Result<NodeId, ASTError>)
        requires
            old(ast).wf(),
        ensures
            final(ast).wf(),
            final(ast)@.next_uid >= old(ast)@.next_uid,
            self.is_inert() ==> r == Ok::<NodeId, ASTError>(id) && final(ast)@ == old(ast)@,
            !self.is_inert() && r is Ok ==> old(ast)@.kind(id) == Kind::Active(*self) && old(
                ast,
            )@.computes(id, *self, fuel as nat, final(ast)@, r->Ok_0) && final(ast)@.settled(
                r->Ok_0,
                0,
            ),
            r is Ok && old(ast)@.well_bound() ==> final(ast)@.well_bound(),
            !self.is_inert() && fuel == 0 ==> r == Err::<NodeId, ASTError>(ASTError::Exhausted)
                && final(ast)@ == old(ast)@,
            !self.is_inert() && fuel > 0 && old(ast)@.kind(id) != Kind::Active(*self) ==> r
                == Err::<NodeId, ASTError>(ASTError::Custom(id, "no data node with this tag"))
                && final(ast)@ == old(ast)@,
            fuel > 2 && old(ast)@.kind(id) == Kind::Active(*self) && old(ast)@.values_ready(
                id,
                *self,
                (fuel - 3) as nat,
            ) ==> old(ast)@.value_outcome(id, *self, fuel as nat, final(ast)@, r),
            r is Err ==> old(ast)@.tag_fails(id, *self, fuel as nat, r->Err_0),
    {
        if self.is_value() {
            return Ok(id);
        }
        if fuel == 0 {
            return Err(ASTError::Exhausted);
        }
        if ast.classify(id) != Kind::Active(*self) {
            return Err(ASTError::Custom(id, "no data node with this tag"));
        }
        ast.evaluate_data(id, *self, fuel)
    }
}

impl ArithmeticTag {
    /// Reduces the data node `id`, which carries this tag: both arguments
    /// are read as numbers and the result takes the place of the node.
    ///
    /// It fails and changes nothing with no fuel and where `id` is no data
    /// node with this tag. Where both arguments already are numbers, it
    /// succeeds exactly when the tag computes something on them and there
    /// is room for the result, see [`GraphView::arithmetic_outcome`].
    /// It fails only as [`GraphView::tag_fails`] says.
    pub fn evaluate(&self, ast: &mut AST, id: NodeId, fuel: u64) -> (r: Result<NodeId, ASTError>)
        requires
            old(ast).wf(),
        ensures
            final(ast).wf(),
            final(ast)@.next_uid >= old(ast)@.next_uid,
            r is Ok ==> old(ast)@.computes(
                id,
                ConstructorTag::Arithmetic(*self),
                fuel as nat,
                final(ast)@,
                r->Ok_0,
            ),
            r is Ok && old(ast)@.well_bound() ==> final(ast)@.well_bound(),
            fuel == 0 ==> r == Err::<NodeId, ASTError>(ASTError::Exhausted) && final(ast)@ == old(
                ast,
            )@,
            fuel > 0 && old(ast)@.kind(id) != Kind::Active(ConstructorTag::Arithmetic(*self))
                ==> r == Err::<NodeId, ASTError>(
                ASTError::Custom(id, "no data node with this tag"),
            ) && final(ast)@ == old(ast)@,
            fuel > 2 && old(ast)@.kind(id) == Kind::Active(ConstructorTag::Arithmetic(*self))
                && old(ast)@.numbers_ready(id, (fuel - 3) as nat) ==> old(
                ast,
            )@.arithmetic_outcome(id, *self, final(ast)@, r),
            r is Err ==> old(ast)@.tag_fails(
                id,
                ConstructorTag::Arithmetic(*self),
                fuel as nat,
                r->Err_0,
            ),
    {
        ConstructorTag::Arithmetic(*self).evaluate(ast, id, fuel)
    }
}

impl HelperFunctionTag {
    /// Reduces the data node `id`, which carries this tag: a fresh
    /// constructor for `CreateConstructor`, what `Match` builds, reduced,
    /// for `Match`.
    ///
    /// It fails and changes nothing with no fuel and where `id` is no data
    /// node with this tag. Where the arguments that the tag reads already
    /// are values, the outcome is [`GraphView::value_outcome`]: for
    /// `CreateConstructor` it succeeds exactly when an identifier is left
    /// and there is room for the constructor.
    /// It fails only as [`GraphView::tag_fails`] says.
    pub fn evaluate(&self, ast: &mut AST, id: NodeId, fuel: u64) -> (r: Result<NodeId, ASTError>)
        requires
            old(ast).wf(),
        ensures
            final(ast).wf(),
            final(ast)@.next_uid >= old(ast)@.next_uid,
            r is Ok ==> old(ast)@.computes(
                id,
                ConstructorTag::HelperFunction(*self),
                fuel as nat,
                final(ast)@,
                r->Ok_0,
            ),
            r is Ok && old(ast)@.well_bound() ==> final(ast)@.well_bound(),
            ConstructorTag::HelperFunction(*self).is_inert() ==> r == Ok::<NodeId, ASTError>(id)
                && final(ast)@ == old(ast)@,
            !ConstructorTag::HelperFunction(*self).is_inert() && fuel == 0 ==> r == Err::<
                NodeId,
                ASTError,
            >(ASTError::Exhausted) && final(ast)@ == old(ast)@,
            !ConstructorTag::HelperFunction(*self).is_inert() && fuel > 0 && old(ast)@.kind(id)
                != Kind::Active(ConstructorTag::HelperFunction(*self)) ==> r == Err::<
                NodeId,
                ASTError,
            >(ASTError::Custom(id, "no data node with this tag")) && final(ast)@ == old(ast)@,
            fuel > 2 && old(ast)@.kind(id) == Kind::Active(ConstructorTag::HelperFunction(*self))
                && old(ast)@.values_ready(
                id,
                ConstructorTag::HelperFunction(*self),
                (fuel - 3) as nat,
            ) ==> old(ast)@.value_outcome(
                id,
                ConstructorTag::HelperFunction(*self),
                fuel as nat,
                final(ast)@,
                r,
            ),
            r is Err ==> old(ast)@.tag_fails(
                id,
                ConstructorTag::HelperFunction(*self),
                fuel as nat,
                r->Err_0,
            ),
    {
        ConstructorTag::HelperFunction(*self).evaluate(ast, id, fuel)
    }
}

} // verus!
