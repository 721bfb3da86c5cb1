//! The environment model: closures, and the rewrites that form, move and
//! dissolve them.
//!
//! A closure is a let-binding in the graph: its `Body` is the expression
//! in whose scope the binding holds, its `Parameter` the bound value.
//! Variables refer to it through binder edges. Every rewrite below checks
//! what it needs before it changes anything, so a rewrite that fails
//! leaves the graph as it was.
use vstd::prelude::*;
use crate::ast::ASTError;
use crate::ast::GraphView;
use crate::ast::NodeId;
use crate::ast::AST;
use crate::ast::lists_key;
use crate::integrity::lemma_bound_fired;
use crate::integrity::lemma_bound_lifted;
use crate::node::Edge;
use crate::node::Node;
use crate::node::NodeView;
use crate::node::VariableKind;
use crate::node::VariableKindView;

verus! {

/// Which rule fired at an application.
#[derive(Debug, Clone, Copy, PartialEq, Eq, Structural)]
pub enum Firing {
    /// The head is no lambda: the application is a value as it stands.
    Stuck,
    /// The lambda did not use its argument. The body stands where the
    /// application stood; the parameter subtree is left without an owner.
    Dead { body: NodeId, parameter: NodeId },
    /// The parameter was a bound variable. Every use of the argument now
    /// refers to that variable's binder; the body stands where the
    /// application stood; the variable is left without an owner.
    Alias { body: NodeId, parameter: NodeId },
    /// The lambda has become a closure over the parameter and stands where
    /// the application stood.
    Bound { closure: NodeId },
}

impl GraphView {
    pub open spec fn is_closure(self, node: NodeId) -> bool {
        self.nodes.contains_key(node) && self.nodes[node] is Closure
    }

    pub open spec fn is_lambda(self, node: NodeId) -> bool {
        self.nodes.contains_key(node) && self.nodes[node] is Lambda
    }

    pub open spec fn is_application(self, node: NodeId) -> bool {
        self.nodes.contains_key(node) && self.nodes[node] is Application
    }

    pub open spec fn is_bound_variable(self, node: NodeId) -> bool {
        self.nodes.contains_key(node) && self.nodes[node] == NodeView::Variable(
            VariableKindView::Bound,
        )
    }

    /// `closure` is a closure with a body and a parameter.
    pub open spec fn strippable(self, closure: NodeId) -> bool {
        self.is_closure(closure) && self.child(closure, Edge::Body) is Some && self.child(
            closure,
            Edge::Parameter,
        ) is Some
    }

    /// The graph after `closure` has been stripped: its owners own its
    /// body, and the closure is gone. Its parameter has no owner left.
    pub open spec fn stripped(self, closure: NodeId) -> GraphView {
        self.migrated(closure, self.children[(closure, Edge::Body)]).without_node(closure)
    }

    /// The error that stripping `closure` meets.
    pub open spec fn strip_error(self, closure: NodeId) -> ASTError {
        if !self.is_closure(closure) {
            ASTError::InvalidClosureChain
        } else if self.child(closure, Edge::Body) is None {
            ASTError::EdgeNotFound(closure, Edge::Body)
        } else {
            ASTError::EdgeNotFound(closure, Edge::Parameter)
        }
    }

    /// The edge `edge` out of `node` points at a closure that has a body.
    pub open spec fn can_lift(self, node: NodeId, edge: Edge) -> bool {
        self.child(node, edge) is Some && self.is_closure(self.children[(node, edge)])
            && self.child(self.children[(node, edge)], Edge::Body) is Some
    }

    /// The error that a lift at `edge` meets, if it meets one: the edge
    /// is missing, or the closure at its end has no body.
    pub open spec fn lift_error(self, node: NodeId, edge: Edge) -> Option<ASTError> {
        if self.child(node, edge) is None {
            Some(ASTError::EdgeNotFound(node, edge))
        } else if self.is_closure(self.children[(node, edge)]) && self.child(
            self.children[(node, edge)],
            Edge::Body,
        ) is None {
            Some(ASTError::EdgeNotFound(self.children[(node, edge)], Edge::Body))
        } else {
            None
        }
    }

    /// The graph after the closure at the end of `edge` has been lifted
    /// above `node`: the closure takes the owners of `node`, `node` is its
    /// body, and `edge` points at what was the closure's body.
    pub open spec fn lifted(self, node: NodeId, edge: Edge) -> GraphView {
        let closure = self.children[(node, edge)];
        let under = self.children[(closure, Edge::Body)];
        self.migrated(node, closure).with_edge(closure, Edge::Body, node).with_edge(
            node,
            edge,
            under,
        )
    }

    /// The graph after `n` lifts at the same edge.
    pub open spec fn lifted_times(self, node: NodeId, edge: Edge, n: nat) -> GraphView
        decreases n,
    {
        if n == 0 {
            self
        } else {
            self.lifted_times(node, edge, (n - 1) as nat).lifted(node, edge)
        }
    }

    /// The head of an application: the target of its `Function` edge.
    pub open spec fn head(self, application: NodeId) -> NodeId {
        self.children[(application, Edge::Function)]
    }

    /// The argument of an application: the target of its `Parameter` edge.
    pub open spec fn argument(self, application: NodeId) -> NodeId {
        self.children[(application, Edge::Parameter)]
    }

    /// The body under the head of an application.
    pub open spec fn head_body(self, application: NodeId) -> NodeId {
        self.children[(self.head(application), Edge::Body)]
    }

    /// The binder that the argument of an application refers to.
    pub open spec fn argument_binder(self, application: NodeId) -> NodeId {
        self.children[(self.argument(application), Edge::Binder(0))]
    }

    /// What firing at `application` decides, before anything is changed.
    pub open spec fn firing(self, application: NodeId) -> Result<Firing, ASTError> {
        let head = self.head(application);
        let argument = self.argument(application);
        if !self.is_application(application) {
            Err(ASTError::Custom(application, "not an application"))
        } else if self.child(application, Edge::Function) is None {
            Err(ASTError::EdgeNotFound(application, Edge::Function))
        } else if !self.is_lambda(head) {
            Ok(Firing::Stuck)
        } else if self.child(application, Edge::Parameter) is None {
            Err(ASTError::EdgeNotFound(application, Edge::Parameter))
        } else if self.child(head, Edge::Body) is None {
            Err(ASTError::EdgeNotFound(head, Edge::Body))
        } else if !self.referenced(head) {
            Ok(Firing::Dead { body: self.head_body(application), parameter: argument })
        } else if self.is_bound_variable(argument) {
            if self.child(argument, Edge::Binder(0)) is None {
                Err(ASTError::EdgeNotFound(argument, Edge::Binder(0)))
            } else if self.argument_binder(application) == head {
                Err(ASTError::InvalidClosureChain)
            } else {
                Ok(Firing::Alias { body: self.head_body(application), parameter: argument })
            }
        } else if self.child(head, Edge::Parameter) is Some {
            Err(ASTError::Custom(head, "lambda with a parameter"))
        } else {
            Ok(Firing::Bound { closure: head })
        }
    }

    /// The graph after the rule that `firing` names has fired.
    pub open spec fn fired(self, application: NodeId) -> GraphView {
        let head = self.head(application);
        let body = self.head_body(application);
        match self.firing(application) {
            Ok(Firing::Dead { .. }) => self.migrated(application, body).without_node(
                head,
            ).without_node(application),
            Ok(Firing::Alias { .. }) => self.rebound(
                head,
                self.argument_binder(application),
            ).migrated(application, body).without_node(head).without_node(application),
            Ok(Firing::Bound { .. }) => self.with_node(
                head,
                NodeView::Closure { argument_name: self.nodes[head]->Lambda_argument_name },
            ).migrated(application, head).without_edge(application, Edge::Parameter).with_edge(
                head,
                Edge::Parameter,
                self.argument(application),
            ).without_node(application),
            _ => self,
        }
    }
}

/// Lifting leaves the nodes and the constructor counter alone.
pub proof fn lemma_lifted_times_nodes(v: GraphView, node: NodeId, edge: Edge, n: nat)
    ensures
        v.lifted_times(node, edge, n).nodes == v.nodes,
        v.lifted_times(node, edge, n).next_uid == v.next_uid,
    decreases n,
{
    if n > 0 {
        lemma_lifted_times_nodes(v, node, edge, (n - 1) as nat);
    }
}

impl AST {
    /// Strips a closure: hands its owners its body and deletes it. Returns
    /// the parameter, which is left without an owner.
    pub fn remove_closure(&mut self, closure: NodeId) -> (r: Result<NodeId, ASTError>)
        requires
            old(self).wf(),
        ensures
            final(self).wf(),
            final(self).edge_total() <= old(self).edge_total(),
            match r {
                Ok(parameter) => old(self)@.strippable(closure) && old(self)@.child(
                    closure,
                    Edge::Parameter,
                ) == Some(parameter) && final(self)@ == old(self)@.stripped(closure),
                Err(e) => !old(self)@.strippable(closure) && final(self)@ == old(self)@ && e
                    == old(self)@.strip_error(closure),
            },
    {
        let is_closure = match self.node(closure) {
            Some(Node::Closure { .. }) => true,
            _ => false,
        };
        if !is_closure {
            return Err(ASTError::InvalidClosureChain);
        }
        let body = self.follow_edge(closure, Edge::Body)?;
        let parameter = self.follow_edge(closure, Edge::Parameter)?;
        proof {
            self.lemma_linked();
            assert(self@.children.contains_key((closure, Edge::Body)));
        }
        let migrated = self.migrate_node(closure, body);
        assert(migrated is Ok);
        let _ = self.remove_node(closure);
        Ok(parameter)
    }

    /// One lift: if the edge `edge` out of `node` points at a closure, the
    /// closure is moved above `node`. Tells whether it did so.
    pub fn lift_closure(&mut self, node: NodeId, edge: Edge) -> (r: Result<bool, ASTError>)
        requires
            old(self).wf(),
        ensures
            final(self).wf(),
            final(self).edge_total() == old(self).edge_total(),
            match r {
                Ok(lifted) => lifted == old(self)@.can_lift(node, edge) && old(self)@.child(
                    node,
                    edge,
                ) is Some && lifted == old(self)@.is_closure(old(self)@.children[(node, edge)])
                    && final(self)@ == (if lifted {
                    old(self)@.lifted(node, edge)
                } else {
                    old(self)@
                }),
                Err(e) => final(self)@ == old(self)@ && !old(self)@.can_lift(node, edge) && (old(
                    self,
                )@.child(node, edge) is Some ==> old(self)@.is_closure(
                    old(self)@.children[(node, edge)],
                )) && e == (if old(self)@.child(node, edge) is None {
                    ASTError::EdgeNotFound(node, edge)
                } else {
                    ASTError::EdgeNotFound(old(self)@.children[(node, edge)], Edge::Body)
                }),
            },
            old(self)@.well_bound() && !edge.is_binder() ==> final(self)@.well_bound(),
    {
        proof {
            if old(self)@.well_bound() && !edge.is_binder() && old(self)@.can_lift(node, edge) {
                lemma_bound_lifted(old(self)@, node, edge);
            }
        }
        let closure = self.follow_edge(node, edge)?;
        let is_closure = match self.node(closure) {
            Some(Node::Closure { .. }) => true,
            _ => false,
        };
        if !is_closure {
            return Ok(false);
        }
        let under = self.follow_edge(closure, Edge::Body)?;
        proof {
            self.lemma_linked();
            assert(self@.children.contains_key((node, edge)));
            assert(self@.children.contains_key((closure, Edge::Body)));
        }
        let migrated = self.migrate_node(node, closure);
        assert(migrated is Ok);
        let first = self.redirect_edge(closure, Edge::Body, node);
        assert(first is Ok);
        let second = self.redirect_edge(node, edge, under);
        assert(second is Ok);
        Ok(true)
    }

    /// Lifts closures above `node` until the edge `edge` out of it points
    /// at something that is no closure, and returns how many it lifted. It
    /// makes at most `fuel` lifts and fails with `Exhausted` if that does
    /// not suffice.
    pub fn lift_closure_chain(&mut self, node: NodeId, edge: Edge, fuel: u64) -> (r: Result<
        u64,
        ASTError,
    >)
        requires
            old(self).wf(),
        ensures
            final(self).wf(),
            final(self).edge_total() == old(self).edge_total(),
            final(self)@.nodes == old(self)@.nodes,
            final(self)@.next_uid == old(self)@.next_uid,
            match r {
                Ok(count) => count <= fuel && old(self)@.lifts_to(
                    node,
                    edge,
                    count as nat,
                    final(self)@,
                ),
                Err(e) => (e is Exhausted || e is EdgeNotFound) && exists|n: nat|
                    n <= fuel && final(self)@ == old(self)@.lifted_times(node, edge, n),
            },
            fuel > 0 && old(self)@.child(node, edge) is Some && !old(self)@.is_closure(
                old(self)@.children[(node, edge)],
            ) ==> r == Ok::<u64, ASTError>(0),
            r is Err ==> old(self)@.lift_fails(node, edge, fuel as nat, r->Err_0),
            old(self)@.root == old(self)@.focus ==> final(self)@.root == final(self)@.focus,
            old(self)@.well_bound() && !edge.is_binder() ==> final(self)@.well_bound(),
    {
        let mut count: u64 = 0;
        while count < fuel
            invariant
                self.wf(),
                count <= fuel,
                old(self)@.well_bound() && !edge.is_binder() ==> self@.well_bound(),
                self.edge_total() == old(self).edge_total(),
                self@ == old(self)@.lifted_times(node, edge, count as nat),
                old(self)@.root == old(self)@.focus ==> self@.root == self@.focus,
                old(self)@.liftable(node, edge, count as nat),
                count > 0 ==> old(self)@.child(node, edge) is Some && old(self)@.is_closure(
                    old(self)@.children[(node, edge)],
                ),
            decreases fuel - count,
        {
            proof {
                lemma_lifted_times_nodes(old(self)@, node, edge, count as nat);
            }
            match self.lift_closure(node, edge) {
                Ok(true) => {
                    count += 1;
                },
                Ok(false) => {
                    return Ok(count);
                },
                Err(e) => {
                    return Err(e);
                },
            }
        }
        proof {
            lemma_lifted_times_nodes(old(self)@, node, edge, count as nat);
        }
        Err(ASTError::Exhausted)
    }

    /// Lets go of one reference to a closure. If more than one variable or
    /// data node refers to it, the binding stays and the parameter is
    /// handed out as shared (`false`). Otherwise this is the last use: the
    /// closure is stripped and the parameter handed over (`true`), so that
    /// whoever takes it need not copy it.
    pub fn release_closure(&mut self, closure: NodeId) -> (r: Result<(NodeId, bool), ASTError>)
        requires
            old(self).wf(),
        ensures
            final(self).wf(),
            final(self).edge_total() <= old(self).edge_total(),
            match r {
                Ok((parameter, dangling)) => old(self)@.child(closure, Edge::Parameter) == Some(
                    parameter,
                ) && dangling == !old(self)@.shared(closure) && final(self)@ == (if dangling {
                    old(self)@.stripped(closure)
                } else {
                    old(self)@
                }) && (dangling ==> old(self)@.strippable(closure)),
                Err(e) => final(self)@ == old(self)@ && e == (if old(self)@.child(
                    closure,
                    Edge::Parameter,
                ) is None {
                    ASTError::EdgeNotFound(closure, Edge::Parameter)
                } else {
                    old(self)@.strip_error(closure)
                }) && (old(self)@.shared(closure) ==> old(self)@.child(
                    closure,
                    Edge::Parameter,
                ) is None),
            },
            r == old(self)@.release_outcome(closure),
            final(self)@ == (if r is Ok {
                old(self)@.released(closure)
            } else {
                old(self)@
            }),
    {
        let parameter = self.follow_edge(closure, Edge::Parameter)?;
        let references = self.binder_references(closure);
        if references.len() >= 2 {
            proof {
                let a = references@[0].key();
                let b = references@[1].key();
                assert(self@.children.contains_key(a) && self@.children.contains_key(b));
                assert(self@.refers(a, closure) && self@.refers(b, closure));
            }
            return Ok((parameter, false));
        }
        proof {
            if self@.shared(closure) {
                let (a, b) = choose|a: (NodeId, Edge), b: (NodeId, Edge)|
                    #![trigger self@.children.contains_key(a), self@.children.contains_key(b)]
                    a != b && self@.refers(a, closure) && self@.refers(b, closure);
                assert(lists_key(references@, a));
                assert(lists_key(references@, b));
            }
        }
        let stripped = self.remove_closure(closure)?;
        Ok((parameter, true))
    }

    /// Whether any variable or data node refers to `node`.
    pub fn is_referenced(&self, node: NodeId) -> (r: bool)
        requires
            self.wf(),
        ensures
            r == self@.referenced(node),
    {
        let references = self.binder_references(node);
        proof {
            if references@.len() > 0 {
                let k = references@[0].key();
                assert(self@.children.contains_key(k) && self@.refers(k, node));
            }
            if self@.referenced(node) {
                let k = choose|k: (NodeId, Edge)| #[trigger]
                    self@.children.contains_key(k) && self@.refers(k, node);
                assert(lists_key(references@, k));
            }
        }
        references.len() > 0
    }

    /// Fires the rule that applies at an application whose head has been
    /// reduced, and tells which one it was.
    ///
    /// - The head is no lambda: nothing happens.
    /// - No variable refers to the lambda: the body replaces the
    ///   application, and lambda and application are deleted.
    /// - The parameter is a bound variable: what referred to the lambda
    ///   refers to that variable's binder instead, then as before.
    /// - Otherwise the lambda becomes a closure in place, takes the
    ///   application's owners and parameter, and the application is deleted.
    pub fn fire(&mut self, application: NodeId) -> (r: Result<Firing, ASTError>)
        requires
            old(self).wf(),
        ensures
            final(self).wf(),
            final(self).edge_total() <= old(self).edge_total(),
            r == old(self)@.firing(application),
            final(self)@ == old(self)@.fired(application),
            old(self)@.well_bound() ==> final(self)@.well_bound(),
    {
        proof {
            if old(self)@.well_bound() {
                self.lemma_linked();
                lemma_bound_fired(old(self)@, application);
            }
        }
        let is_application = match self.node(application) {
            Some(Node::Application) => true,
            _ => false,
        };
        if !is_application {
            return Err(ASTError::Custom(application, "not an application"));
        }
        let head = self.follow_edge(application, Edge::Function)?;
        let name = match self.node(head) {
            Some(Node::Lambda { argument_name }) => argument_name.clone(),
            _ => {
                return Ok(Firing::Stuck);
            },
        };
        let parameter = self.follow_edge(application, Edge::Parameter)?;
        let body = self.follow_edge(head, Edge::Body)?;
        proof {
            self.lemma_linked();
            assert(self@.children.contains_key((application, Edge::Function)));
            assert(self@.children.contains_key((application, Edge::Parameter)));
            assert(self@.children.contains_key((head, Edge::Body)));
        }
        if !self.is_referenced(head) {
            let migrated = self.migrate_node(application, body);
            assert(migrated is Ok);
            let _ = self.remove_node(head);
            let _ = self.remove_node(application);
            return Ok(Firing::Dead { body, parameter });
        }
        let is_variable = match self.node(parameter) {
            Some(Node::Variable(VariableKind::Bound)) => true,
            _ => false,
        };
        if is_variable {
            let binder = self.follow_edge(parameter, Edge::Binder(0))?;
            if binder == head {
                return Err(ASTError::InvalidClosureChain);
            }
            proof {
                assert(self@.children.contains_key((parameter, Edge::Binder(0))));
            }
            let rebound = self.rebind(head, binder);
            assert(rebound is Ok);
            let migrated = self.migrate_node(application, body);
            assert(migrated is Ok);
            let _ = self.remove_node(head);
            let _ = self.remove_node(application);
            return Ok(Firing::Alias { body, parameter });
        }
        if self.follow_edge(head, Edge::Parameter).is_ok() {
            return Err(ASTError::Custom(head, "lambda with a parameter"));
        }
        let replaced = self.replace_node(head, Node::Closure { argument_name: name });
        assert(replaced is Ok);
        let migrated = self.migrate_node(application, head);
        assert(migrated is Ok);
        let ghost middle = self@;
        let moved = self.remove_edge(application, Edge::Parameter);
        proof {
            assert(middle.children.contains_key((application, Edge::Parameter)));
            assert(moved is Some);
            assert(!self@.children.contains_key((head, Edge::Parameter)));
            self.lemma_linked();
            assert(self@.nodes.contains_key(head));
            assert(self@.nodes.contains_key(parameter));
        }
        let added = self.add_edge(head, parameter, Edge::Parameter);
        assert(added is Ok);
        let _ = self.remove_node(application);
        Ok(Firing::Bound { closure: head })
    }
}

} // verus!
