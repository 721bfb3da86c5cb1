//! Taking data apart: the `match` helper.
//!
//! `match constructor transform fallback value` compares the constructor
//! at the head of its first argument with the constructor of the value.
//! Where they are the same, `transform` is applied to the arguments of
//! the value, left to right; otherwise `fallback` is applied to the value.
use vstd::prelude::*;
use crate::rules::passes;
use crate::ast::ASTError;
use crate::ast::GraphView;
use crate::ast::NodeId;
use crate::ast::AST;
use crate::integrity::lemma_bound_without_node;
use crate::node::Edge;
use crate::node::Node;
use crate::node::NodeView;
use crate::node::VariableKindView;
use crate::tags::ConstructorTag;

verus! {

impl GraphView {
    /// The identifier of the user-defined constructor at the head of
    /// `node`: the walk goes through the bodies of closures and lambdas and
    /// through the function edges of applications, at most `depth` steps,
    /// until it meets a data node.
    pub open spec fn head_uid(self, node: NodeId, depth: nat) -> Result<usize, ASTError>
        decreases depth,
    {
        if !self.nodes.contains_key(node) {
            Err(ASTError::Custom(node, "no such node"))
        } else {
            match self.nodes[node] {
                NodeView::Data { tag: ConstructorTag::CustomTag { uid, .. } } => Ok(uid),
                NodeView::Closure { .. } | NodeView::Lambda { .. } => if depth == 0 {
                    Err(ASTError::Exhausted)
                } else if self.child(node, Edge::Body) is None {
                    Err(ASTError::EdgeNotFound(node, Edge::Body))
                } else {
                    self.head_uid(self.children[(node, Edge::Body)], (depth - 1) as nat)
                },
                NodeView::Application => if depth == 0 {
                    Err(ASTError::Exhausted)
                } else if self.child(node, Edge::Function) is None {
                    Err(ASTError::EdgeNotFound(node, Edge::Function))
                } else {
                    self.head_uid(self.children[(node, Edge::Function)], (depth - 1) as nat)
                },
                _ => Err(ASTError::Custom(node, "Not a data constructor")),
            }
        }
    }

    /// The identifier of `node` if it is a data node with a user-defined
    /// constructor.
    pub open spec fn custom_uid(self, node: NodeId) -> Option<usize> {
        if self.nodes.contains_key(node) {
            match self.nodes[node] {
                NodeView::Data { tag: ConstructorTag::CustomTag { uid, .. } } => Some(uid),
                _ => None,
            }
        } else {
            None
        }
    }

    /// `binders` are the targets of the edges `Binder(0)`, `Binder(1)`, ...
    /// of `node`, up to the first index that `node` has no edge for.
    pub open spec fn lists_binders(self, node: NodeId, binders: Seq<NodeId>) -> bool {
        &&& forall|i: int|
            0 <= i < binders.len() ==> self.child(node, Edge::Binder(i as usize)) == Some(
                #[trigger] binders[i],
            )
        &&& binders.len() <= usize::MAX
        &&& binders.len() < usize::MAX ==> self.child(node, Edge::Binder(binders.len() as usize))
            is None
    }

    /// `self` is `before` plus the bound variable `variable`, a node that
    /// `before` did not have, which refers to `binder`.
    pub open spec fn has_reference(
        self,
        before: GraphView,
        binder: NodeId,
        variable: NodeId,
    ) -> bool {
        !before.nodes.contains_key(variable) && before.nodes.contains_key(binder) && self
            == before.with_node(variable, NodeView::Variable(VariableKindView::Bound)).with_edge(
            variable,
            Edge::Binder(0),
            binder,
        )
    }

    /// `self` is `before` plus the application `application`, a node that
    /// `before` did not have, of `function` to `parameter`.
    pub open spec fn has_application(
        self,
        before: GraphView,
        function: NodeId,
        parameter: NodeId,
        application: NodeId,
    ) -> bool {
        !before.nodes.contains_key(application) && before.nodes.contains_key(function)
            && before.nodes.contains_key(parameter) && self == before.with_node(
            application,
            NodeView::Application,
        ).with_edge(application, Edge::Function, function).with_edge(
            application,
            Edge::Parameter,
            parameter,
        )
    }

    /// `self` is `before` plus the application `application` of `function`
    /// to a new variable that refers to `binder`.
    pub open spec fn has_call(
        self,
        before: GraphView,
        function: NodeId,
        binder: NodeId,
        application: NodeId,
    ) -> bool {
        exists|referred: GraphView, variable: NodeId|
            #![trigger referred.has_reference(before, binder, variable)]
            referred.has_reference(before, binder, variable) && self.has_application(
                referred,
                function,
                variable,
                application,
            )
    }

    /// `self` is `before` plus the application of `function` to one new
    /// variable for each of `binders`, left to right; `head` is the
    /// outermost application, or `function` itself where there is no
    /// binder.
    pub open spec fn has_calls(
        self,
        before: GraphView,
        function: NodeId,
        binders: Seq<NodeId>,
        head: NodeId,
    ) -> bool
        decreases binders.len(),
    {
        if binders.len() == 0 {
            self == before && head == function
        } else {
            exists|inner: GraphView, previous: NodeId|
                #![trigger self.has_call(inner, previous, binders.last(), head)]
                inner.has_calls(before, function, binders.drop_last(), previous) && self.has_call(
                    inner,
                    previous,
                    binders.last(),
                    head,
                )
        }
    }

    /// The graph after what `match` consumed has been cleared away: the
    /// value node if it was handed over, and the subtree of the
    /// constructor if that was handed over.
    pub open spec fn cleared(
        self,
        constructor: NodeId,
        constructor_dangling: bool,
        value: NodeId,
        value_dangling: bool,
    ) -> GraphView {
        let first = if value_dangling {
            self.without_node(value)
        } else {
            self
        };
        if constructor_dangling {
            first.without_subtree(constructor)
        } else {
            first
        }
    }

    /// `self` is `before` plus what `match` builds where the constructors
    /// are the same: a variable that refers to `transform`, applied to one
    /// new variable for each of `binders`; `head` is the outermost
    /// application.
    pub open spec fn has_transform(
        self,
        before: GraphView,
        transform: NodeId,
        binders: Seq<NodeId>,
        head: NodeId,
    ) -> bool {
        exists|referred: GraphView, variable: NodeId|
            #![trigger referred.has_reference(before, transform, variable)]
            referred.has_reference(before, transform, variable) && self.has_calls(
                referred,
                variable,
                binders,
                head,
            )
    }

    /// `self` is `before` plus what `match` builds where the constructors
    /// differ: a variable that refers to `fallback`, applied to the value.
    /// The value is `value` itself where it was handed over, and a new
    /// variable that refers to `value_binder` where it is shared.
    pub open spec fn has_fallback(
        self,
        before: GraphView,
        fallback: NodeId,
        value_binder: NodeId,
        value: NodeId,
        value_dangling: bool,
        head: NodeId,
    ) -> bool {
        exists|referred: GraphView, variable: NodeId|
            #![trigger referred.has_reference(before, fallback, variable)]
            referred.has_reference(before, fallback, variable) && if value_dangling {
                self.has_application(referred, variable, value, head)
            } else {
                self.has_call(referred, variable, value_binder, head)
            }
    }
}

/// A node has one list of binders.
pub proof fn lemma_binders_unique(v: GraphView, node: NodeId, a: Seq<NodeId>, b: Seq<NodeId>)
    requires
        v.lists_binders(node, a),
        v.lists_binders(node, b),
    ensures
        a == b,
{
    if a.len() < b.len() {
        assert(v.child(node, Edge::Binder(a.len() as usize)) == Some(b[a.len() as int]));
    }
    if b.len() < a.len() {
        assert(v.child(node, Edge::Binder(b.len() as usize)) == Some(a[b.len() as int]));
    }
    assert forall|i: int| 0 <= i < a.len() implies a[i] == b[i] by {
        assert(v.child(node, Edge::Binder(i as usize)) == Some(a[i]));
        assert(v.child(node, Edge::Binder(i as usize)) == Some(b[i]));
    }
    assert(a =~= b);
}

impl ConstructorTag {
    /// The binders of a data node, in the order of its arguments.
    pub fn get_binders(ast: &AST, id: NodeId) -> (r: Vec<NodeId>)
        requires
            ast.wf(),
        ensures
            ast@.lists_binders(id, r@),
    {
        let mut binders: Vec<NodeId> = Vec::new();
        let mut i: usize = 0;
        while i < usize::MAX
            invariant
                ast.wf(),
                binders@.len() == i,
                forall|j: int|
                    0 <= j < i ==> ast@.child(id, Edge::Binder(j as usize)) == Some(
                        #[trigger] binders@[j],
                    ),
            decreases usize::MAX - i,
        {
            match ast.follow_edge(id, Edge::Binder(i)) {
                Ok(binder) => {
                    binders.push(binder);
                },
                Err(_) => {
                    return binders;
                },
            }
            i += 1;
        }
        binders
    }
}

impl AST {
    /// The identifier of the user-defined constructor at the head of
    /// `node`, found in at most `fuel` steps.
    pub fn constructor_uid(&self, node: NodeId, fuel: u64) -> (r: Result<usize, ASTError>)
        requires
            self.wf(),
        ensures
            r == self@.head_uid(node, fuel as nat),
    {
        let mut current = node;
        let mut left: u64 = fuel;
        loop
            invariant
                self.wf(),
                self@.head_uid(current, left as nat) == self@.head_uid(node, fuel as nat),
            decreases left,
        {
            let edge = match self.node(current) {
                None => {
                    return Err(ASTError::Custom(current, "no such node"));
                },
                Some(Node::Data { tag: ConstructorTag::CustomTag { uid, .. } }) => {
                    return Ok(*uid);
                },
                Some(Node::Closure { .. }) => Edge::Body,
                Some(Node::Lambda { .. }) => Edge::Body,
                Some(Node::Application) => Edge::Function,
                Some(_) => {
                    return Err(ASTError::Custom(current, "Not a data constructor"));
                },
            };
            if left == 0 {
                return Err(ASTError::Exhausted);
            }
            current = self.follow_edge(current, edge)?;
            left = left - 1;
        }
    }

    /// The identifier of `node` if it is a data node with a user-defined
    /// constructor.
    pub fn value_uid(&self, node: NodeId) -> (r: Option<usize>)
        ensures
            r == self@.custom_uid(node),
    {
        match self.node(node) {
            Some(Node::Data { tag: ConstructorTag::CustomTag { uid, .. } }) => Some(*uid),
            _ => None,
        }
    }

    /// Adds the application of `function` to a new variable that refers
    /// to `binder`, and returns the application. For a live `function` it
    /// succeeds exactly when `binder` is a lambda or a closure and there is
    /// room for two nodes and three edges. No binder is among what it adds.
    pub fn add_call(&mut self, function: NodeId, binder: NodeId) -> (r: Result<NodeId, ASTError>)
        requires
            old(self).wf(),
        ensures
            final(self).wf(),
            old(self)@.extended_by(final(self)@),
            r is Ok ==> final(self)@.has_call(old(self)@, function, binder, r->Ok_0),
            r is Ok && old(self)@.well_bound() ==> final(self)@.well_bound(),
            old(self)@.nodes.contains_key(function) ==> (r is Ok <==> old(self)@.is_binder(binder)
                && old(self).has_room(2, 3)),
            r is Ok ==> old(self)@.is_binder(binder) && old(self).has_room(2, 3) && final(self).grown(*old(self), 2, 3),
            !old(self)@.is_binder(binder) ==> r == Err::<NodeId, ASTError>(
                ASTError::Custom(binder, "no binder"),
            ) && final(self)@ == old(self)@,
            r is Ok ==> forall|n: NodeId| #[trigger]
                final(self)@.is_binder(n) ==> old(self)@.is_binder(n),
            r is Err ==> r->Err_0 is Full || r->Err_0 is Custom,
    {
        let variable = self.add_reference(binder)?;
        let ghost referred = self@;
        let application = match self.add_application(function, variable) {
            Ok(application) => application,
            Err(e) => {
                proof {
                    crate::builder::lemma_extended_trans(old(self)@, referred, self@);
                }
                return Err(e);
            },
        };
        proof {
            crate::builder::lemma_extended_trans(old(self)@, referred, self@);
            assert(referred.has_reference(old(self)@, binder, variable));
        }
        Ok(application)
    }

    /// Decides a `match` whose constructor and value have been reduced,
    /// and puts the application that it builds in the place of the data
    /// node `node`. Returns that application, which is yet to be reduced.
    ///
    /// `value` must be a data node with a user-defined constructor, and the
    /// head of `constructor` too. Where either is not, the graph is left as
    /// it was.
    /// It fails only as [`GraphView::decide_fails`] says.
    pub fn finish_match(
        &mut self,
        node: NodeId,
        constructor: NodeId,
        constructor_dangling: bool,
        transform: NodeId,
        fallback: NodeId,
        value_binder: NodeId,
        value: NodeId,
        value_dangling: bool,
        fuel: u64,
    ) -> (r: Result<NodeId, ASTError>)
        requires
            old(self).wf(),
        ensures
            final(self).wf(),
            final(self)@.next_uid == old(self)@.next_uid,
            !old(self)@.nodes.contains_key(node) ==> r == Err::<NodeId, ASTError>(
                ASTError::Custom(node, "no such node"),
            ) && final(self)@ == old(self)@,
            old(self)@.nodes.contains_key(node) && old(self)@.custom_uid(value) is None ==> r
                == Err::<NodeId, ASTError>(ASTError::Custom(value, "Not a data constructor"))
                && final(self)@ == old(self)@,
            old(self)@.nodes.contains_key(node) && old(self)@.custom_uid(value) is Some && old(
                self,
            )@.head_uid(constructor, fuel as nat) is Err ==> r == Err::<NodeId, ASTError>(
                old(self)@.head_uid(constructor, fuel as nat)->Err_0,
            ) && final(self)@ == old(self)@,
            r is Ok ==> old(self)@.match_done(
                node,
                constructor,
                constructor_dangling,
                transform,
                fallback,
                value_binder,
                value,
                value_dangling,
                fuel as nat,
                final(self)@,
                r->Ok_0,
            ),
            r is Ok && old(self)@.well_bound()
                && old(self)@.is_data(node) ==> final(self)@.well_bound(),
            r is Err ==> old(self)@.decide_fails(
                node,
                constructor,
                constructor_dangling,
                transform,
                fallback,
                value_binder,
                value,
                value_dangling,
                fuel as nat,
                r->Err_0,
            ),
            r is Ok && old(self)@.root == old(self)@.focus ==> final(self)@.root == final(self)@.focus,
    {
        if !self.contains_node(node) {
            return Err(ASTError::Custom(node, "no such node"));
        }
        let value_uid = match self.value_uid(value) {
            Some(uid) => uid,
            None => {
                return Err(ASTError::Custom(value, "Not a data constructor"));
            },
        };
        let constructor_uid = self.constructor_uid(constructor, fuel)?;
        let binders = ConstructorTag::get_binders(self, value);
        let same = constructor_uid == value_uid;
        proof {
            self.lemma_room(1 + 2 * binders@.len(), 1 + 3 * binders@.len());
            self.lemma_room(2, 3);
            self.lemma_room(3, 4);
            assert forall|other: Seq<NodeId>| #[trigger]
                self@.lists_binders(value, other) implies other == binders@ by {
                lemma_binders_unique(self@, value, other, binders@);
            }
        }
        let head = if same {
            self.build_transform(transform, &binders)?
        } else {
            self.build_fallback(fallback, value_binder, value, value_dangling)?
        };
        let ghost built = self@;
        let ghost sound = old(self)@.well_bound() && old(self)@.is_data(node);
        proof {
            assert(passes(built, head, fuel as nat));
            assert(old(self)@.match_built(
                constructor,
                transform,
                fallback,
                value_binder,
                value,
                value_dangling,
                fuel as nat,
                built,
                head,
            ));
        }
        proof {
            assert(built.nodes.contains_key(node) && built.nodes[node] == old(self)@.nodes[node]);
            assert(built.nodes.contains_key(value) && built.nodes[value] == old(
                self,
            )@.nodes[value]);
        }
        if value_dangling && same {
            proof {
                if sound {
                    lemma_bound_without_node(built, value);
                }
            }
            let _ = self.remove_node(value);
        }
        let ghost cleared = self@;
        if constructor_dangling {
            self.remove_subtree_checked(constructor)?;
        }
        proof {
            if sound {
                assert(!self@.is_binder(node));
            }
        }
        self.replace_by(node, head)?;
        Ok(head)
    }

    /// Builds `transform` applied to one new variable per binder. It
    /// succeeds exactly when `transform` and each of `binders` is a lambda
    /// or a closure and there is room for what it adds: a variable, and a
    /// variable and an application for each binder.
    fn build_transform(&mut self, transform: NodeId, binders: &Vec<NodeId>) -> (r: Result<
        NodeId,
        ASTError,
    >)
        requires
            old(self).wf(),
        ensures
            final(self).wf(),
            old(self)@.extended_by(final(self)@),
            r is Ok ==> final(self)@.has_transform(old(self)@, transform, binders@, r->Ok_0),
            r is Ok && old(self)@.well_bound() ==> final(self)@.well_bound(),
            r is Ok <==> old(self)@.is_binder(transform) && (forall|j: int|
                0 <= j < binders@.len() ==> old(self)@.is_binder(#[trigger] binders@[j])) && old(
                self,
            ).has_room(1 + 2 * binders@.len(), 1 + 3 * binders@.len()),
            r is Ok ==> final(self).grown(
                *old(self),
                1 + 2 * binders@.len(),
                1 + 3 * binders@.len(),
            ),
            r is Err ==> r->Err_0 is Full || r->Err_0 is Custom,
    {
        let variable = self.add_reference(transform)?;
        let ghost referred = self@;
        let mut head = variable;
        let mut i: usize = 0;
        proof {
            assert(binders@.take(0) =~= Seq::<NodeId>::empty());
        }
        while i < binders.len()
            invariant
                0 <= i <= binders.len(),
                self.wf(),
                old(self)@.is_binder(transform),
                self@.nodes.contains_key(head),
                self.grown(*old(self), (1 + 2 * i) as nat, (1 + 3 * i) as nat),
                self.has_room(0, 0),
                forall|n: NodeId| #[trigger] self@.is_binder(n) ==> old(self)@.is_binder(n),
                forall|j: int| 0 <= j < i ==> old(self)@.is_binder(#[trigger] binders@[j]),
                old(self)@.extended_by(referred),
                referred.extended_by(self@),
                referred.has_reference(old(self)@, transform, variable),
                self@.has_calls(referred, variable, binders@.take(i as int), head),
                old(self)@.well_bound() ==> self@.well_bound(),
            decreases binders.len() - i,
        {
            let ghost inner = self@;
            let ghost previous = head;
            let application = match self.add_call(head, binders[i]) {
                Ok(application) => application,
                Err(e) => {
                    proof {
                        crate::builder::lemma_extended_trans(referred, inner, self@);
                        crate::builder::lemma_extended_trans(old(self)@, referred, self@);
                    }
                    return Err(e);
                },
            };
            proof {
                crate::builder::lemma_extended_trans(referred, inner, self@);
                let longer = binders@.take(i + 1);
                assert(longer.drop_last() =~= binders@.take(i as int));
                assert(longer.last() == binders@[i as int]);
                assert(inner.has_calls(referred, variable, longer.drop_last(), previous));
                assert(self@.has_call(inner, previous, longer.last(), application));
                assert(longer.len() > 0);
                assert(self@.has_calls(referred, variable, longer, application));
            }
            head = application;
            i += 1;
        }
        proof {
            assert(binders@.take(binders@.len() as int) =~= binders@);
            crate::builder::lemma_extended_trans(old(self)@, referred, self@);
        }
        Ok(head)
    }

    /// Builds `fallback` applied to the value: to the value node itself
    /// where it was handed over, else to a new variable that refers to
    /// `value_binder`. It succeeds exactly when `fallback` is a lambda or a
    /// closure, the value node is live or `value_binder` is a lambda or a
    /// closure, and there is room for what it adds.
    fn build_fallback(
        &mut self,
        fallback: NodeId,
        value_binder: NodeId,
        value: NodeId,
        value_dangling: bool,
    ) -> (r: Result<NodeId, ASTError>)
        requires
            old(self).wf(),
        ensures
            final(self).wf(),
            old(self)@.extended_by(final(self)@),
            r is Ok ==> final(self)@.has_fallback(
                old(self)@,
                fallback,
                value_binder,
                value,
                value_dangling,
                r->Ok_0,
            ),
            r is Ok && old(self)@.well_bound() ==> final(self)@.well_bound(),
            value_dangling && old(self)@.nodes.contains_key(value) ==> (r is Ok <==> old(
                self,
            )@.is_binder(fallback) && old(self).has_room(2, 3)),
            !value_dangling ==> (r is Ok <==> old(self)@.is_binder(fallback) && old(
                self,
            )@.is_binder(value_binder) && old(self).has_room(3, 4)),
            r is Ok ==> old(self)@.is_binder(fallback) && final(self).grown(
                *old(self),
                if value_dangling {
                    2
                } else {
                    3
                },
                if value_dangling {
                    3
                } else {
                    4
                },
            ),
            r is Err ==> r->Err_0 is Full || r->Err_0 is Custom,
    {
        let variable = self.add_reference(fallback)?;
        let ghost referred = self@;
        let built = if value_dangling {
            self.add_application(variable, value)
        } else {
            self.add_call(variable, value_binder)
        };
        proof {
            crate::builder::lemma_extended_trans(old(self)@, referred, self@);
            assert(referred.has_reference(old(self)@, fallback, variable));
        }
        built
    }
}

} // verus!
