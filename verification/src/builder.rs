//! Building blocks that the parser and the built-ins put into the graph:
//! saturated constructors and Church booleans.
use vstd::prelude::*;
use crate::ast::ASTError;
use crate::ast::GraphView;
use crate::ast::NodeId;
use crate::ast::AST;
use crate::node::Edge;
use crate::node::Node;
use crate::node::NodeView;
use crate::node::VariableKind;
use crate::node::VariableKindView;
use crate::integrity::lemma_integral_built;
use crate::integrity::lemma_integral_extended;
use crate::integrity::lemma_bound_extended;
use crate::tags::texts;
use crate::tags::ConstructorTag;

verus! {

impl GraphView {
    /// `later` holds every node and edge of `self` unchanged, and no new
    /// edge leaves a node of `self`; root, focus and counter are the same.
    pub open spec fn extended_by(self, later: GraphView) -> bool {
        &&& forall|n: NodeId| #[trigger]
            self.nodes.contains_key(n) ==> later.nodes.contains_key(n) && later.nodes[n]
                == self.nodes[n]
        &&& forall|k: (NodeId, Edge)| #[trigger]
            self.children.contains_key(k) ==> later.children.contains_key(k)
                && later.children[k] == self.children[k]
        &&& forall|k: (NodeId, Edge)| #[trigger]
            later.children.contains_key(k) && self.nodes.contains_key(k.0)
                ==> self.children.contains_key(k)
        &&& later.root == self.root
        &&& later.focus == self.focus
        &&& later.next_uid == self.next_uid
    }

    /// `self` is `before` plus a constructor under construction: the data
    /// node `data` with tag `tag` and, for each argument from index `from`
    /// on, a lambda. The lambda of argument `from + m` is `lambdas[m]`; its
    /// body is the next lambda, the last one's body is the data node; the
    /// data node's edge `Binder(from + m)` points at it.
    pub open spec fn built(
        self,
        before: GraphView,
        tag: ConstructorTag,
        data: NodeId,
        lambdas: Seq<NodeId>,
        from: nat,
    ) -> bool {
        &&& from + lambdas.len() == tag.spec_arity()
        &&& !before.nodes.contains_key(data)
        &&& self.nodes.contains_key(data)
        &&& self.nodes[data] == (NodeView::Data { tag })
        &&& forall|m: int|
            0 <= m < lambdas.len() ==> !before.nodes.contains_key(#[trigger] lambdas[m])
                && lambdas[m] != data && self.nodes.contains_key(lambdas[m])
                && self.nodes[lambdas[m]] == (NodeView::Lambda {
                argument_name: tag.names()[from + m],
            })
        &&& forall|a: int, b: int|
            0 <= a < b < lambdas.len() ==> #[trigger] lambdas[a] != #[trigger] lambdas[b]
        &&& forall|n: NodeId| #[trigger]
            self.nodes.contains_key(n) ==> before.nodes.contains_key(n) || n == data
                || lambdas.contains(n)
        &&& forall|m: int|
            0 <= m < lambdas.len() ==> self.child(data, Edge::Binder((from + m) as usize))
                == Some(#[trigger] lambdas[m]) && self.child(lambdas[m], Edge::Body) == Some(
                if m + 1 < lambdas.len() {
                    lambdas[m + 1]
                } else {
                    data
                },
            )
        &&& forall|k: (NodeId, Edge)| #[trigger]
            self.children.contains_key(k) ==> before.children.contains_key(k) || (k.0 == data
                && k.1 is Binder && from <= k.1->Binder_0 < tag.spec_arity()) || (k.1
                == Edge::Body && lambdas.contains(k.0))
        &&& before.extended_by(self)
    }

    /// `self` is `before` plus a saturated constructor for `tag` that
    /// starts at `head`: a chain of one lambda per argument over a data
    /// node whose i-th binder edge points at the i-th lambda. With no
    /// argument the head is the data node itself.
    pub open spec fn has_constructor(
        self,
        before: GraphView,
        tag: ConstructorTag,
        head: NodeId,
    ) -> bool {
        exists|data: NodeId, lambdas: Seq<NodeId>|
            #![trigger self.built(before, tag, data, lambdas, 0)]
            self.built(before, tag, data, lambdas, 0) && head == (if lambdas.len() == 0 {
                data
            } else {
                lambdas[0]
            })
    }

    /// `before` plus the Church boolean `value` on three fresh nodes:
    /// `λx.λy.x` for true, `λx.λy.y` for false.
    pub open spec fn with_boolean(
        self,
        value: bool,
        outer: NodeId,
        inner: NodeId,
        variable: NodeId,
    ) -> GraphView {
        self.with_node(outer, NodeView::Lambda { argument_name: "x"@ }).with_node(
            inner,
            NodeView::Lambda { argument_name: "y"@ },
        ).with_node(variable, NodeView::Variable(VariableKindView::Bound)).with_edge(
            outer,
            Edge::Body,
            inner,
        ).with_edge(inner, Edge::Body, variable).with_edge(
            variable,
            Edge::Binder(0),
            if value {
                outer
            } else {
                inner
            },
        )
    }

    /// `self` is `before` plus the Church boolean `value` at `head`.
    pub open spec fn has_boolean(self, before: GraphView, value: bool, head: NodeId) -> bool {
        exists|inner: NodeId, variable: NodeId|
            #![trigger before.with_boolean(value, head, inner, variable)]
            !before.nodes.contains_key(head) && !before.nodes.contains_key(inner)
                && !before.nodes.contains_key(variable) && head != inner && head != variable
                && inner != variable && self == before.with_boolean(
                value,
                head,
                inner,
                variable,
            )
    }
}

impl GraphView {
    /// The graph can take `nodes` more nodes and `edges` more edges.
    pub open spec fn room(self, nodes: nat, edges: nat) -> bool {
        self.nodes.dom().len() + nodes <= u32::MAX && self.children.dom().len() + edges
            <= u32::MAX
    }

    /// Adding the application of `function` to `parameter` fails: one of
    /// the two is not live, or there is no room for a node and two edges.
    pub open spec fn application_fails(
        self,
        function: NodeId,
        parameter: NodeId,
        e: ASTError,
    ) -> bool {
        if !self.nodes.contains_key(function) {
            e == ASTError::Custom(function, "no such node")
        } else if !self.nodes.contains_key(parameter) {
            e == ASTError::Custom(parameter, "no such node")
        } else {
            e == ASTError::Full && !self.room(1, 2)
        }
    }
}

impl AST {
    /// The graph can take `nodes` more nodes and `edges` more edges.
    pub open spec fn has_room(&self, nodes: nat, edges: nat) -> bool {
        self@.nodes.dom().len() + nodes <= u32::MAX && self.edge_total() + edges <= u32::MAX
    }

    /// The graph holds at most `nodes` nodes and `edges` edges more than
    /// `before`.
    pub open spec fn grown_at_most(&self, before: AST, nodes: int, edges: int) -> bool {
        self@.nodes.dom().len() <= before@.nodes.dom().len() + nodes && self.edge_total()
            <= before.edge_total() + edges
    }

    /// Room is a matter of the view alone.
    pub proof fn lemma_room(&self, nodes: nat, edges: nat)
        requires
            self.wf(),
        ensures
            self.has_room(nodes, edges) == self@.room(nodes, edges),
    {
        self.lemma_edge_total();
    }

    /// The graph holds `nodes` nodes and `edges` edges more than `before`.
    pub open spec fn grown(&self, before: AST, nodes: nat, edges: nat) -> bool {
        self@.nodes.dom().len() == before@.nodes.dom().len() + nodes && self.edge_total()
            == before.edge_total() + edges
    }

    /// Adds a fresh node with an edge `label` to `target`. It succeeds
    /// exactly when there is room for one node and one edge.
    fn add_node_over(&mut self, node: Node, label: Edge, target: NodeId) -> (r: Result<
        NodeId,
        ASTError,
    >)
        requires
            old(self).wf(),
            old(self)@.nodes.contains_key(target),
        ensures
            final(self).wf(),
            old(self)@.extended_by(final(self)@),
            match r {
                Ok(id) => !old(self)@.nodes.contains_key(id) && final(self)@ == old(
                    self,
                )@.with_node(id, node@).with_edge(id, label, target),
                Err(e) => e is Full,
            },
            r is Ok <==> old(self).has_room(1, 1),
            r is Ok ==> final(self).grown(*old(self), 1, 1),
    {
        proof {
            self.lemma_linked();
        }
        let id = self.add_node(node)?;
        proof {
            assert(!self@.children.contains_key((id, label)));
            assert(self@.nodes.dom() =~= old(self)@.nodes.dom().insert(id));
        }
        match self.add_edge(id, target, label) {
            Ok(_) => Ok(id),
            Err(e) => Err(ASTError::Full),
        }
    }

    /// Adds a bound variable that refers to `binder` and returns it.
    /// Fails when `binder` is no lambda and no closure, or the graph has no
    /// room; what was there before is untouched either way.
    pub fn add_reference(&mut self, binder: NodeId) -> (r: Result<NodeId, ASTError>)
        requires
            old(self).wf(),
        ensures
            final(self).wf(),
            old(self)@.extended_by(final(self)@),
            match r {
                Ok(variable) => old(self)@.is_binder(binder) && !old(self)@.nodes.contains_key(
                    variable,
                ) && final(self)@ == old(self)@.with_node(
                    variable,
                    NodeView::Variable(VariableKindView::Bound),
                ).with_edge(variable, Edge::Binder(0), binder),
                Err(e) => if old(self)@.is_binder(binder) {
                    e is Full
                } else {
                    e == ASTError::Custom(binder, "no binder") && final(self)@ == old(self)@
                },
            },
            r is Ok <==> old(self)@.is_binder(binder) && old(self).has_room(1, 1),
            r is Ok ==> final(self).grown(*old(self), 1, 1),
            r is Ok && old(self)@.integral() ==> final(self)@.integral(),
            r is Ok && old(self)@.well_bound() ==> final(self)@.well_bound(),
    {
        if !self.is_binder_node(binder) {
            return Err(ASTError::Custom(binder, "no binder"));
        }
        let r = self.add_node_over(Node::Variable(VariableKind::Bound), Edge::Binder(0), binder);
        proof {
            if r is Ok && old(self)@.well_bound() {
                old(self).lemma_linked();
                let variable = r->Ok_0;
                assert forall|label: Edge| #[trigger]
                    self@.children.contains_key((variable, label)) implies label == Edge::Binder(
                    0,
                ) by {
                    if label != Edge::Binder(0) {
                        assert(old(self)@.children.contains_key((variable, label)));
                    }
                }
                assert(self@.binds(variable));
                lemma_bound_extended(old(self)@, self@);
            }
            if r is Ok && old(self)@.integral() {
                old(self).lemma_linked();
                let variable = r->Ok_0;
                assert forall|label: Edge| #[trigger]
                    self@.children.contains_key((variable, label)) implies label == Edge::Binder(
                    0,
                ) by {
                    if label != Edge::Binder(0) {
                        assert(old(self)@.children.contains_key((variable, label)));
                    }
                }
                assert(self@.binds(variable));
                assert(self@.sound_at(variable));
                lemma_integral_extended(old(self)@, self@);
            }
        }
        r
    }

    /// Adds the application of `function` to `parameter` and returns it.
    /// Fails when one of the two is not live or the graph has no room;
    /// what was there before is untouched either way.
    pub fn add_application(&mut self, function: NodeId, parameter: NodeId) -> (r: Result<
        NodeId,
        ASTError,
    >)
        requires
            old(self).wf(),
        ensures
            final(self).wf(),
            old(self)@.extended_by(final(self)@),
            match r {
                Ok(application) => old(self)@.nodes.contains_key(function) && old(
                    self,
                )@.nodes.contains_key(parameter) && !old(self)@.nodes.contains_key(application)
                    && final(self)@ == old(self)@.with_node(
                    application,
                    NodeView::Application,
                ).with_edge(application, Edge::Function, function).with_edge(
                    application,
                    Edge::Parameter,
                    parameter,
                ),
                Err(e) => if !old(self)@.nodes.contains_key(function) {
                    e == ASTError::Custom(function, "no such node") && final(self)@ == old(self)@
                } else if !old(self)@.nodes.contains_key(parameter) {
                    e == ASTError::Custom(parameter, "no such node") && final(self)@ == old(
                        self,
                    )@
                } else {
                    e is Full
                },
            },
            r is Ok <==> old(self)@.nodes.contains_key(function) && old(
                self,
            )@.nodes.contains_key(parameter) && old(self).has_room(1, 2),
            r is Ok ==> final(self).grown(*old(self), 1, 2),
            r is Err ==> old(self)@.application_fails(function, parameter, r->Err_0),
            r is Ok && old(self)@.integral() ==> final(self)@.integral(),
            r is Ok && old(self)@.well_bound() ==> final(self)@.well_bound(),
    {
        proof {
            self.lemma_room(1, 2);
        }
        if !self.contains_node(function) {
            return Err(ASTError::Custom(function, "no such node"));
        }
        if !self.contains_node(parameter) {
            return Err(ASTError::Custom(parameter, "no such node"));
        }
        proof {
            self.lemma_linked();
        }
        let application = self.add_node_over(Node::Application, Edge::Function, function)?;
        let ghost middle = self@;
        proof {
            if middle.children.contains_key((application, Edge::Parameter)) {
                assert(old(self)@.children.contains_key((application, Edge::Parameter)));
            }
        }
        match self.add_edge(application, parameter, Edge::Parameter) {
            Ok(_) => {
                proof {
                    if old(self)@.integral() {
                        assert(self@.sound_at(application));
                        lemma_integral_extended(old(self)@, self@);
                    }
                    if old(self)@.well_bound() {
                        lemma_bound_extended(old(self)@, self@);
                    }
                }
                Ok(application)
            },
            Err(e) => {
                proof {
                    assert(old(self)@.extended_by(self@));
                }
                Err(ASTError::Full)
            },
        }
    }

    /// Adds a saturated constructor for `tag` and returns its head: one
    /// lambda per argument, outermost first, over a data node that refers
    /// to each of them. Fails with `Full` when the graph has no room; what
    /// was there before is untouched either way.
    pub fn add_constructor(&mut self, tag: ConstructorTag) -> (r: Result<NodeId, ASTError>)
        requires
            old(self).wf(),
        ensures
            final(self).wf(),
            old(self)@.extended_by(final(self)@),
            match r {
                Ok(head) => final(self)@.has_constructor(old(self)@, tag, head),
                Err(e) => e is Full,
            },
            r is Ok <==> old(self).has_room(tag.spec_arity() + 1, 2 * tag.spec_arity()),
            r is Ok ==> final(self).grown(*old(self), tag.spec_arity() + 1, 2 * tag.spec_arity()),
            r is Ok && old(self)@.integral() ==> final(self)@.integral(),
            r is Ok && old(self)@.well_bound() ==> final(self)@.well_bound(),
    {
        let names = tag.argument_names();
        let arity: usize = names.len();
        let ghost before = self@;
        proof {
            self.lemma_linked();
            assert(texts(names@).len() == names@.len());
        }
        let data = self.add_node(Node::Data { tag })?;
        proof {
            assert(self@.nodes.dom() =~= before.nodes.dom().insert(data));
        }
        let mut below = data;
        let mut i: usize = arity;
        let ghost mut lambdas: Seq<NodeId> = Seq::empty();
        proof {
            assert forall|k: (NodeId, Edge)| #[trigger] self@.children.contains_key(k) implies (
            before.children.contains_key(k)) by {}
        }
        while i > 0
            invariant
                self.wf(),
                0 <= i <= arity,
                arity == tag.spec_arity(),
                names@.len() == arity,
                texts(names@) == tag.names(),
                before == old(self)@,
                before.linked(),
                self.grown(*old(self), (1 + arity - i) as nat, (2 * (arity - i)) as nat),
                self.has_room(0, 0),
                self@.built(before, tag, data, lambdas, i as nat),
                below == (if lambdas.len() == 0 {
                    data
                } else {
                    lambdas[0]
                }),
            decreases i,
        {
            i -= 1;
            let ghost prior = self@;
            let ghost prior_lambdas = lambdas;
            proof {
                self.lemma_linked();
                assert(texts(names@)[i as int] == names@[i as int]@);
            }
            let lambda = match self.add_node_over(
                Node::Lambda { argument_name: names[i].to_owned() },
                Edge::Body,
                below,
            ) {
                Ok(lambda) => lambda,
                Err(e) => {
                    proof {
                        lemma_extended_trans(before, prior, self@);
                    }
                    return Err(ASTError::Full);
                },
            };
            let ghost middle = self@;
            proof {
                self.lemma_linked();
                assert(!prior.nodes.contains_key(lambda));
                assert(!middle.children.contains_key((data, Edge::Binder(i)))) by {
                    if middle.children.contains_key((data, Edge::Binder(i))) {
                        assert(prior.children.contains_key((data, Edge::Binder(i))));
                        assert(!before.children.contains_key((data, Edge::Binder(i))));
                    }
                }
            }
            match self.add_edge(data, lambda, Edge::Binder(i)) {
                Ok(_) => {},
                Err(e) => {
                    proof {
                        lemma_extended_trans(before, prior, middle);
                    }
                    return Err(ASTError::Full);
                },
            }
            proof {
                lambdas = seq![lambda] + prior_lambdas;
                let now = self@;
                assert(lambdas[0] == lambda);
                assert forall|m: int| 1 <= m < lambdas.len() implies lambdas[m]
                    == prior_lambdas[m - 1] by {}
                assert forall|n: NodeId| prior_lambdas.contains(n) implies lambdas.contains(n) by {
                    let m = choose|m: int| 0 <= m < prior_lambdas.len() && prior_lambdas[m] == n;
                    assert(lambdas[m + 1] == n);
                }
                assert(lambdas.contains(lambda));
                assert forall|m: int| 0 <= m < lambdas.len() implies !before.nodes.contains_key(
                    #[trigger] lambdas[m],
                ) && lambdas[m] != data && now.nodes.contains_key(lambdas[m])
                    && now.nodes[lambdas[m]] == (NodeView::Lambda {
                    argument_name: tag.names()[i + m],
                }) by {
                    if m > 0 {
                        assert(lambdas[m] == prior_lambdas[m - 1]);
                    }
                }
                assert forall|a: int, b: int| 0 <= a < b < lambdas.len() implies #[trigger] lambdas[a]
                    != #[trigger] lambdas[b] by {
                    assert(lambdas[b] == prior_lambdas[b - 1]);
                    if a > 0 {
                        assert(lambdas[a] == prior_lambdas[a - 1]);
                    } else {
                        assert(prior.nodes.contains_key(prior_lambdas[b - 1]));
                    }
                }
                assert forall|m: int| 0 <= m < lambdas.len() implies now.child(
                    data,
                    Edge::Binder((i + m) as usize),
                ) == Some(#[trigger] lambdas[m]) && now.child(lambdas[m], Edge::Body) == Some(
                    if m + 1 < lambdas.len() {
                        lambdas[m + 1]
                    } else {
                        data
                    },
                ) by {
                    if m > 0 {
                        assert(lambdas[m] == prior_lambdas[m - 1]);
                        assert(prior.child(data, Edge::Binder((i + 1 + (m - 1)) as usize)) == Some(
                            prior_lambdas[m - 1],
                        ));
                        assert(prior.nodes.contains_key(prior_lambdas[m - 1]));
                        if m + 1 < lambdas.len() {
                            assert(lambdas[m + 1] == prior_lambdas[m]);
                        }
                    } else {
                        if lambdas.len() > 1 {
                            assert(lambdas[1] == prior_lambdas[0]);
                        }
                    }
                }
                assert forall|k: (NodeId, Edge)| #[trigger]
                    now.children.contains_key(k) implies before.children.contains_key(k) || (k.0
                    == data && k.1 is Binder && i <= k.1->Binder_0 < tag.spec_arity()) || (k.1
                    == Edge::Body && lambdas.contains(k.0)) by {
                    if k == (data, Edge::Binder(i)) {
                    } else if k == (lambda, Edge::Body) {
                    } else {
                        assert(prior.children.contains_key(k));
                        if k.1 == Edge::Body && prior_lambdas.contains(k.0) {
                            assert(lambdas.contains(k.0));
                        }
                    }
                }
                assert forall|n: NodeId| #[trigger]
                    now.nodes.contains_key(n) implies before.nodes.contains_key(n) || n == data
                    || lambdas.contains(n) by {
                    if n != lambda {
                        assert(prior.nodes.contains_key(n));
                        if prior_lambdas.contains(n) {
                            assert(lambdas.contains(n));
                        }
                    }
                }
                assert(before.extended_by(now)) by {
                    assert forall|k: (NodeId, Edge)| #[trigger]
                        now.children.contains_key(k) && before.nodes.contains_key(
                            k.0,
                        ) implies before.children.contains_key(k) by {
                        if k != (data, Edge::Binder(i)) && k != (lambda, Edge::Body) {
                            assert(prior.children.contains_key(k));
                        }
                    }
                    assert forall|k: (NodeId, Edge)| #[trigger]
                        before.children.contains_key(k) implies now.children.contains_key(k)
                        && now.children[k] == before.children[k] by {
                        assert(prior.children.contains_key(k));
                        assert(before.nodes.contains_key(k.0));
                    }
                }
            }
            below = lambda;
        }
        proof {
            if before.integral() {
                lemma_integral_built(before, self@, tag, data, lambdas);
            }
            if before.well_bound() {
                crate::integrity::lemma_built_kept(before, self@, tag, data, lambdas);
                assert forall|n: NodeId|
                    #![trigger self@.is_bound_variable(n)]
                    self@.is_bound_variable(n) && !before.nodes.contains_key(
                        n,
                    ) implies self@.binds(n) by {
                    if n != data {
                        assert(self@.is_lambda(n));
                    }
                }
                assert forall|n: NodeId|
                    #![trigger self@.is_data(n)]
                    self@.is_data(n) && !before.nodes.contains_key(n) implies self@.kept_at(
                    n,
                ) by {
                    if n != data {
                        assert(self@.is_lambda(n));
                    }
                }
                lemma_bound_extended(before, self@);
            }
        }
        Ok(below)
    }

    /// Adds the Church boolean `value` and returns its head. Fails with
    /// `Full` when the graph has no room; what was there before is
    /// untouched either way.
    pub fn insert_boolean(&mut self, value: bool) -> (r: Result<NodeId, ASTError>)
        requires
            old(self).wf(),
        ensures
            final(self).wf(),
            old(self)@.extended_by(final(self)@),
            match r {
                Ok(head) => final(self)@.has_boolean(old(self)@, value, head),
                Err(e) => e is Full,
            },
            r is Ok <==> old(self).has_room(3, 3),
            r is Ok ==> final(self).grown(*old(self), 3, 3),
            r is Ok && old(self)@.integral() ==> final(self)@.integral(),
            r is Ok && old(self)@.well_bound() ==> final(self)@.well_bound(),
    {
        let ghost before = self@;
        proof {
            self.lemma_linked();
        }
        let outer = self.add_node(Node::Lambda { argument_name: "x".to_owned() })?;
        let ghost first = self@;
        let inner = self.add_node(Node::Lambda { argument_name: "y".to_owned() })?;
        let ghost second = self@;
        let variable = self.add_node(Node::Variable(VariableKind::Bound))?;
        let ghost nodes_done = self@;
        proof {
            assert(first.nodes.dom() =~= before.nodes.dom().insert(outer));
            assert(second.nodes.dom() =~= first.nodes.dom().insert(inner));
            assert(nodes_done.nodes.dom() =~= second.nodes.dom().insert(variable));
            assert(before.extended_by(nodes_done));
        }
        match self.add_edge(outer, inner, Edge::Body) {
            Ok(_) => {},
            Err(e) => {
                return Err(ASTError::Full);
            },
        }
        let ghost one = self@;
        proof {
            assert(before.extended_by(one));
        }
        match self.add_edge(inner, variable, Edge::Body) {
            Ok(_) => {},
            Err(e) => {
                return Err(ASTError::Full);
            },
        }
        let ghost two = self@;
        proof {
            assert(before.extended_by(two));
        }
        let binder = if value {
            outer
        } else {
            inner
        };
        match self.add_edge(variable, binder, Edge::Binder(0)) {
            Ok(_) => {},
            Err(e) => {
                return Err(ASTError::Full);
            },
        }
        proof {
            assert(self@ == before.with_boolean(value, outer, inner, variable));
            assert(before.extended_by(self@));
            if before.well_bound() {
                assert forall|label: Edge| #[trigger]
                    self@.children.contains_key((variable, label)) implies label == Edge::Binder(
                    0,
                ) by {
                    if label != Edge::Binder(0) {
                        assert(before.children.contains_key((variable, label)));
                    }
                }
                assert(self@.binds(variable));
                lemma_bound_extended(before, self@);
            }
            if before.integral() {
                assert(self@.sound_at(variable));
                assert(self@.sound_at(outer));
                assert(self@.sound_at(inner));
                lemma_integral_extended(before, self@);
            }
        }
        Ok(outer)
    }
}

/// Extension composes.
pub proof fn lemma_extended_trans(a: GraphView, b: GraphView, c: GraphView)
    requires
        a.extended_by(b),
        b.extended_by(c),
    ensures
        a.extended_by(c),
{
    assert forall|k: (NodeId, Edge)| #[trigger]
        c.children.contains_key(k) && a.nodes.contains_key(k.0) implies a.children.contains_key(
        k,
    ) by {
        assert(b.nodes.contains_key(k.0));
        assert(b.children.contains_key(k));
    }
}

} // verus!
