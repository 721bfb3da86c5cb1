//! The rules of the reducer, as a relation between the graph before and
//! the graph after.
//!
//! `v.reduces(node, fuel, w, head)` says that reducing `node` in the graph
//! `v`, with the rules nested at most `fuel` deep, ends in the graph `w`
//! with the head `head`. The relation follows the rules one by one; where
//! a rule adds nodes, it leaves open which indices they get.
//!
//! `v.reduce_fails(node, fuel, e)` says that the reduction gives up with
//! the error `e`: one of its steps fails. A reduction fails only where
//! that relation holds, so where no step can fail it succeeds.
//!
//! Where a binding already holds a value, nothing has to be reduced and
//! the outcome of a step is a function of the graph: the last part of
//! this file says which steps then succeed, what they return and which
//! graph they leave.
use vstd::prelude::*;
use crate::ast::ASTError;
use crate::ast::GraphView;
use crate::ast::NodeId;
use crate::closure::Firing;
use crate::node::Edge;
use crate::node::NodeView;
use crate::node::PrimitiveView;
use crate::reduce::Kind;
use crate::tags::ArithmeticTag;
use crate::tags::ConstructorTag;
use crate::tags::HelperFunctionTag;

verus! {

/// Marks the graphs and nodes that a rule passes through.
pub open spec fn passes(graph: GraphView, node: NodeId, count: nat) -> bool {
    true
}

/// Marks a graph and a value that was handed over or is still shared.
pub open spec fn hands(graph: GraphView, node: NodeId, dangling: bool) -> bool {
    true
}

/// Marks the bytes that a rule reads.
pub open spec fn carries(bytes: Seq<u8>) -> bool {
    true
}

/// Marks the two graphs that a rule passes through.
pub open spec fn passes_two(first: GraphView, second: GraphView, node: NodeId) -> bool {
    true
}

impl GraphView {
    /// Each of the first `count` lifts at `edge` finds a closure to lift.
    pub open spec fn liftable(self, node: NodeId, edge: Edge, count: nat) -> bool
        decreases count,
    {
        count == 0 || (self.liftable(node, edge, (count - 1) as nat) && self.lifted_times(
            node,
            edge,
            (count - 1) as nat,
        ).can_lift(node, edge))
    }

    /// `lifted` is the graph after `count` lifts at `edge`, and no closure
    /// is left at the end of `edge`.
    pub open spec fn lifts_to(self, node: NodeId, edge: Edge, count: nat,
        lifted: GraphView) -> bool {
        lifted == self.lifted_times(node, edge, count) && self.liftable(node, edge, count)
            && lifted.child(node, edge) is Some && !lifted.is_closure(
            lifted.children[(node, edge)],
        )
    }

    /// The rule for everything: a value is its own head; a closure is
    /// transparent; applications, bound variables and data nodes that
    /// compute have their own rules.
    pub open spec fn reduces(self, node: NodeId, fuel: nat, to: GraphView, head: NodeId) -> bool
        decreases fuel, 5nat,
    {
        fuel > 0 && match self.kind(node) {
            Kind::Missing => false,
            Kind::Value => to == self && head == node,
            Kind::Closure => self.child(node, Edge::Body) is Some && self.reduces(
                self.children[(node, Edge::Body)],
                (fuel - 1) as nat,
                to,
                head,
            ),
            Kind::Application => self.applies(node, fuel, to, head),
            Kind::BoundVariable => self.looks_up(node, fuel, to, head),
            Kind::Active(tag) => self.computes(node, tag, fuel, to, head),
        }
    }

    /// The rule for an application: the head is reduced, the closures
    /// above it are lifted, and the rule for the head fires. Where the
    /// head is no lambda, the application is the result. Where a lambda
    /// ignores its argument or the argument is a variable, the parameter
    /// subtree goes and the body is reduced. Otherwise the lambda has
    /// become a closure, which is reduced.
    pub open spec fn applies(self, node: NodeId, fuel: nat, to: GraphView, head: NodeId) -> bool
        decreases fuel, 4nat,
    {
        fuel > 0 && self.child(node, Edge::Function) is Some && exists|
            reduced: GraphView,
            inner: NodeId,
            count: nat,
        |
            #![trigger passes(reduced, inner, count)]
            passes(reduced, inner, count)
                && self.reduces(self.head(node), (fuel - 1) as nat, reduced, inner)
                    && reduced.liftable(
                node,
                Edge::Function,
                count,
            ) && reduced.lifted_times(node, Edge::Function, count).fires(node, fuel, to, head)
    }

    /// The rule that fires at an application whose head is reduced and
    /// free of closures.
    pub open spec fn fires(self, node: NodeId, fuel: nat, to: GraphView, head: NodeId) -> bool
        decreases fuel, 3nat,
    {
        fuel > 0 && self.child(node, Edge::Function) is Some && !self.is_closure(self.head(node))
            && match self.firing(node) {
            Ok(Firing::Stuck) => to == self && head == node,
            Ok(Firing::Dead { body, parameter }) => self.fired(node).without_subtree(
                parameter,
            ).reduces(body, (fuel - 1) as nat, to, head),
            Ok(Firing::Alias { body, parameter }) => self.fired(node).without_subtree(
                parameter,
            ).reduces(body, (fuel - 1) as nat, to, head),
            Ok(Firing::Bound { closure }) => self.fired(node).reduces(
                closure,
                (fuel - 1) as nat,
                to,
                head,
            ),
            Err(_) => false,
        }
    }

    /// Forcing a binding: the parameter of `closure` is reduced, and the
    /// closures that the reduction left above the value are lifted above
    /// `closure`.
    pub open spec fn forces(self, closure: NodeId, fuel: nat, to: GraphView) -> bool
        decreases fuel, 0nat,
    {
        fuel > 0 && self.child(closure, Edge::Parameter) is Some && exists|
            reduced: GraphView,
            inner: NodeId,
            count: nat,
        |
            #![trigger passes(reduced, inner, count)]
            passes(reduced, inner, count) && self.reduces(
                self.children[(closure, Edge::Parameter)],
                (fuel - 1) as nat,
                reduced,
                inner,
            ) && reduced.lifts_to(closure, Edge::Parameter, count, to)
    }

    /// Putting the value of its binding in the place of a variable whose
    /// binding is forced. The last reference takes the value along: the
    /// closure is stripped and nothing is copied. A shared binding stays,
    /// and a copy of the value takes the variable's place.
    pub open spec fn dereferenced(
        self,
        variable: NodeId,
        fuel: nat,
        to: GraphView,
        replacement: NodeId,
    ) -> bool {
        let binder = self.children[(variable, Edge::Binder(0))];
        let parameter = self.children[(binder, Edge::Parameter)];
        &&& self.is_bound_variable(variable)
        &&& self.child(variable, Edge::Binder(0)) is Some
        &&& self.child(binder, Edge::Parameter) is Some
        &&& if self.shared(binder) {
            fuel > 0 && !self.nodes.contains_key(replacement) && exists|copied: GraphView|
                #![trigger passes(copied, replacement, fuel)]
                passes(copied, replacement, fuel) && self.extended_by(copied) && copied.copied(
                    self,
                    self,
                    Map::empty(),
                    parameter,
                    replacement,
                    (fuel - 1) as nat,
                ) && copied.binds_as(self, Map::empty(), parameter, replacement, (fuel - 1) as nat)
                    && to == copied.replaced(variable, replacement)
        } else {
            replacement == parameter && self.strippable(binder) && to == self.stripped(
                binder,
            ).replaced(variable, replacement)
        }
    }

    /// The rule for a bound variable: its binding is forced, the value is
    /// put in its place, and what stands there is reduced.
    pub open spec fn looks_up(self, node: NodeId, fuel: nat, to: GraphView, head: NodeId) -> bool
        decreases fuel, 4nat,
    {
        fuel > 0 && self.child(node, Edge::Binder(0)) is Some && exists|
            forced: GraphView,
            replaced: GraphView,
            replacement: NodeId,
        |
            #![trigger passes_two(forced, replaced, replacement)]
            passes_two(forced, replaced, replacement)
                && self.forces(self.children[(node, Edge::Binder(0))], (fuel - 1) as nat, forced)
                && forced.dereferenced(node, fuel, replaced, replacement) && replaced.reduces(
                replacement,
                (fuel - 1) as nat,
                to,
                head,
            )
    }

    /// Forcing a binding and letting go of one reference to it: the
    /// binding is forced; if at most one variable or data node refers to
    /// it, the closure is stripped and the value handed over (`dangling`),
    /// else the binding stays.
    pub open spec fn releases(
        self,
        closure: NodeId,
        fuel: nat,
        to: GraphView,
        parameter: NodeId,
        dangling: bool,
    ) -> bool {
        exists|forced: GraphView|
            #![trigger hands(forced, parameter, dangling)]
            hands(forced, parameter, dangling) && self.forces(closure, fuel, forced)
                && forced.child(closure, Edge::Parameter) == Some(parameter) && dangling
                == !forced.shared(closure) && (dangling ==> forced.strippable(closure)) && to == (
            if dangling {
                forced.stripped(closure)
            } else {
                forced
            })
    }

    /// Forcing a binding, letting go of one reference to it and reading
    /// its value, which must be the primitive `value`; if the value was
    /// handed over, its node goes.
    pub open spec fn extracts(
        self,
        closure: NodeId,
        fuel: nat,
        to: GraphView,
        value: PrimitiveView,
    ) -> bool {
        exists|released: GraphView, parameter: NodeId, dangling: bool|
            #![trigger hands(released, parameter, dangling)]
            hands(released, parameter, dangling) && self.releases(
                closure,
                fuel,
                released,
                parameter,
                dangling,
            ) && released.nodes.contains_key(parameter) && released.nodes[parameter]
                == NodeView::Primitive(value) && to == (if dangling {
                released.without_node(parameter)
            } else {
                released
            })
    }

    /// Forcing the argument `index` of the data node `data` and letting go
    /// of the data node's reference to it: the binding is forced; if the
    /// data node is the only one to refer to it, the closure is stripped
    /// and the value handed over (`dangling`), else the binding stays.
    pub open spec fn argues(
        self,
        data: NodeId,
        index: usize,
        fuel: nat,
        to: GraphView,
        parameter: NodeId,
        dangling: bool,
    ) -> bool
        decreases fuel, 1nat,
    {
        let closure = self.children[(data, Edge::Binder(index))];
        self.child(data, Edge::Binder(index)) is Some && exists|forced: GraphView|
            #![trigger hands(forced, parameter, dangling)]
            hands(forced, parameter, dangling) && self.forces(closure, fuel, forced)
                && forced.kind(data) is Active && forced.child(
                data,
                Edge::Binder(index),
            ) == Some(closure) && forced.child(closure, Edge::Parameter) == Some(parameter)
                && dangling == !forced.shared(closure) && (dangling ==> forced.strippable(
                closure,
            )) && to == (if dangling {
                forced.stripped(closure)
            } else {
                forced
            })
    }

    /// Reading the argument `index` of the data node `data`: the argument
    /// is forced and must be the primitive `value`; if it was handed over,
    /// its node goes.
    pub open spec fn reads(
        self,
        data: NodeId,
        index: usize,
        fuel: nat,
        to: GraphView,
        value: PrimitiveView,
    ) -> bool
        decreases fuel, 2nat,
    {
        exists|forced: GraphView, parameter: NodeId, dangling: bool|
            #![trigger hands(forced, parameter, dangling)]
            hands(forced, parameter, dangling) && self.argues(
                data,
                index,
                fuel,
                forced,
                parameter,
                dangling,
            ) && forced.nodes.contains_key(parameter) && forced.nodes[parameter]
                == NodeView::Primitive(value) && to == (if dangling {
                forced.without_node(parameter)
            } else {
                forced
            })
    }

    /// The result of an arithmetic tag on two numbers stands in the place
    /// of the data node: a number, or a Church boolean for `Eq`.
    pub open spec fn arithmetic_done(
        self,
        node: NodeId,
        operation: ArithmeticTag,
        what: usize,
        to: usize,
        done: GraphView,
        result: NodeId,
    ) -> bool {
        self.nodes.contains_key(node) && !self.nodes.contains_key(result) && if operation
            == ArithmeticTag::Eq {
            exists|inserted: GraphView|
                done == #[trigger] inserted.replaced(node, result) && inserted.has_boolean(
                    self,
                    what == to,
                    result,
                )
        } else {
            operation.number(what as nat, to as nat) is Some && operation.number(
                what as nat,
                to as nat,
            )->Some_0 <= usize::MAX && done == self.with_node(
                result,
                NodeView::Primitive(
                    PrimitiveView::Number(
                        operation.number(what as nat, to as nat)->Some_0 as usize,
                    ),
                ),
            ).replaced(node, result)
        }
    }

    /// A fresh constructor with `arity` arguments stands in the place of
    /// the data node; its identifier is the counter of `self`, which has
    /// advanced by one.
    pub open spec fn constructor_done(
        self,
        node: NodeId,
        arity: usize,
        done: GraphView,
        head: NodeId,
    ) -> bool {
        self.nodes.contains_key(node) && self.next_uid < usize::MAX && exists|added: GraphView|
            done == #[trigger] added.replaced(node, head) && added.has_constructor(
                self.counted(),
                ConstructorTag::CustomTag { uid: self.next_uid, arity },
                head,
            )
    }

    /// What `match` builds stands in the place of the data node: where the
    /// constructor at the head of `constructor` is the one of `value`, the
    /// transform applied to the arguments of the value; else the fallback
    /// applied to the value. What was handed over and is no longer needed
    /// is cleared away.
    pub open spec fn match_done(
        self,
        node: NodeId,
        constructor: NodeId,
        constructor_dangling: bool,
        transform: NodeId,
        fallback: NodeId,
        value_binder: NodeId,
        value: NodeId,
        value_dangling: bool,
        fuel: nat,
        done: GraphView,
        head: NodeId,
    ) -> bool {
        let same = self.custom_uid(value) == Some(self.head_uid(constructor, fuel)->Ok_0);
        self.nodes.contains_key(node) && self.custom_uid(value) is Some && self.head_uid(
            constructor,
            fuel,
        ) is Ok && exists|built: GraphView, binders: Seq<NodeId>|
            #![trigger built.has_transform(self, transform, binders, head)]
            #![trigger built.has_fallback(self, fallback, value_binder, value, value_dangling, head), self.lists_binders(value, binders)]
            self.lists_binders(value, binders) && (if same {
                built.has_transform(self, transform, binders, head)
            } else {
                built.has_fallback(self, fallback, value_binder, value, value_dangling, head)
            }) && done == built.cleared(
                constructor,
                constructor_dangling,
                value,
                value_dangling && same,
            ).replaced(node, head)
    }

    /// The rule for a data node that computes: the arguments that the tag
    /// is strict in are read, and the result stands in the place of the
    /// node. What `match` builds is reduced in turn.
    pub open spec fn computes(
        self,
        node: NodeId,
        tag: ConstructorTag,
        fuel: nat,
        to: GraphView,
        head: NodeId,
    ) -> bool
        decreases fuel, 4nat,
    {
        fuel > 0 && match tag {
            ConstructorTag::Arithmetic(operation) => exists|
                first: GraphView,
                second: GraphView,
                what: usize,
                other: usize,
            |
                #![trigger passes_two(first, second, head), passes(first, head, what as nat), passes(second, head, other as nat)]
                passes_two(first, second, head) && passes(first, head, what as nat)
                    && passes(second, head, other as nat)
                        && self.reads(node, 0, (fuel - 1) as nat, first,
                            PrimitiveView::Number(what))
                    && first.reads(node, 1, (fuel - 1) as nat, second, PrimitiveView::Number(other))
                    && second.arithmetic_done(node, operation, what, other, to, head),
            ConstructorTag::HelperFunction(HelperFunctionTag::CreateConstructor) => exists|
                first: GraphView,
                arity: usize,
            |
                #![trigger passes(first, head, arity as nat)]
                passes(first, head, arity as nat)
                    && self.reads(node, 0, (fuel - 1) as nat, first, PrimitiveView::Number(arity))
                    && first.constructor_done(node, arity, to, head),
            ConstructorTag::HelperFunction(HelperFunctionTag::Match) => self.matches(
                node,
                fuel,
                to,
                head,
            ),
            _ => false,
        }
    }

    /// The rule for `match`: constructor and value are forced, what
    /// `match` builds takes the place of the data node and is reduced.
    pub open spec fn matches(self, node: NodeId, fuel: nat, to: GraphView, head: NodeId) -> bool
        decreases fuel, 3nat,
    {
        let transform = self.children[(node, Edge::Binder(1))];
        let fallback = self.children[(node, Edge::Binder(2))];
        let value_binder = self.children[(node, Edge::Binder(3))];
        fuel > 0 && self.child(node, Edge::Binder(1)) is Some && self.child(node, Edge::Binder(2))
            is Some && self.child(node, Edge::Binder(3)) is Some && exists|
            first: GraphView,
            second: GraphView,
            built: GraphView,
            constructor: NodeId,
            value: NodeId,
            start: NodeId,
            constructor_dangling: bool,
            value_dangling: bool,
        |
            #![trigger hands(first, constructor, constructor_dangling), hands(second, value, value_dangling), passes(built, start, fuel)]
            hands(first, constructor, constructor_dangling) && hands(second, value, value_dangling)
                && passes(built, start, fuel) && self.argues(
                node,
                0,
                (fuel - 1) as nat,
                first,
                constructor,
                constructor_dangling,
            ) && first.argues(node, 3, (fuel - 1) as nat, second, value, value_dangling)
                && second.match_done(
                node,
                constructor,
                constructor_dangling,
                transform,
                fallback,
                value_binder,
                value,
                value_dangling,
                fuel,
                built,
                start,
            ) && built.reduces(start, (fuel - 1) as nat, to, head)
    }

    /// Reducing `node` with the focus on it: the rules end in `to`; what
    /// stands in the place of `node` is the focus of `to`, and the head of
    /// the reduction lies under the closures at the focus.
    pub open spec fn evaluates(self, node: NodeId, fuel: nat, to: GraphView,
        result: NodeId) -> bool {
        result == to.focus && self.focused_on(node).reduces(
            node,
            fuel,
            to,
            to.chain_end(result, fuel),
        )
    }
}

impl GraphView {
    /// Lifting the closures at `edge`, at most `fuel` of them, fails with
    /// `e`: there are more than `fuel` of them; or after some lifts the
    /// edge is missing, or the closure at its end has no body.
    pub open spec fn lift_fails(self, node: NodeId, edge: Edge, fuel: nat, e: ASTError) -> bool {
        (e == ASTError::Exhausted && self.liftable(node, edge, fuel)) || exists|n: nat|
            #![trigger self.lifted_times(node, edge, n)]
            n < fuel && self.liftable(node, edge, n) && self.lifted_times(
                node,
                edge,
                n,
            ).lift_error(node, edge) == Some(e)
    }

    /// The rules give up at `node` with the error `e`: the reduction of
    /// `node`, nested at most `fuel` deep, meets a step that fails. A value
    /// never fails. Where a step adds nodes or copies a subtree, it may
    /// fail for want of room or fuel; where it deletes one, because
    /// something outside refers into it.
    pub open spec fn reduce_fails(self, node: NodeId, fuel: nat, e: ASTError) -> bool
        decreases fuel, 5nat,
    {
        if fuel == 0 {
            e == ASTError::Exhausted
        } else {
            match self.kind(node) {
                Kind::Missing => e == ASTError::Custom(node, "no such node"),
                Kind::Value => false,
                Kind::Closure => if self.child(node, Edge::Body) is None {
                    e == ASTError::EdgeNotFound(node, Edge::Body)
                } else {
                    self.reduce_fails(self.children[(node, Edge::Body)], (fuel - 1) as nat, e)
                },
                Kind::Application => self.apply_fails(node, fuel, e),
                Kind::BoundVariable => self.lookup_fails(node, fuel, e),
                Kind::Active(tag) => self.compute_fails(node, tag, fuel, e),
            }
        }
    }

    /// The rule for an application fails: it has no function; or the
    /// reduction of its head fails; or the closures above the head cannot
    /// be lifted; or the rule that then fires fails.
    pub open spec fn apply_fails(self, node: NodeId, fuel: nat, e: ASTError) -> bool
        decreases fuel, 4nat,
    {
        fuel > 0 && if self.child(node, Edge::Function) is None {
            e == ASTError::EdgeNotFound(node, Edge::Function)
        } else {
            self.reduce_fails(self.head(node), (fuel - 1) as nat, e) || exists|
                reduced: GraphView,
                inner: NodeId,
                count: nat,
            |
                #![trigger passes(reduced, inner, count)]
                passes(reduced, inner, count) && self.reduces(
                    self.head(node),
                    (fuel - 1) as nat,
                    reduced,
                    inner,
                ) && (reduced.lift_fails(node, Edge::Function, fuel, e) || (reduced.liftable(
                    node,
                    Edge::Function,
                    count,
                ) && reduced.lifted_times(node, Edge::Function, count).fire_fails(node, fuel, e)))
        }
    }

    /// The rule that fires at an application fails: the application
    /// cannot fire; or the argument that goes is referred to from outside;
    /// or the reduction of what is left fails.
    pub open spec fn fire_fails(self, node: NodeId, fuel: nat, e: ASTError) -> bool
        decreases fuel, 3nat,
    {
        fuel > 0 && match self.firing(node) {
            Ok(Firing::Stuck) => false,
            Ok(Firing::Dead { body, parameter }) => (e == ASTError::InvalidClosureChain
                && !self.fired(node).without_subtree(parameter).well_bound()) || self.fired(
                node,
            ).without_subtree(parameter).reduce_fails(body, (fuel - 1) as nat, e),
            Ok(Firing::Alias { body, parameter }) => (e == ASTError::InvalidClosureChain
                && !self.fired(node).without_subtree(parameter).well_bound()) || self.fired(
                node,
            ).without_subtree(parameter).reduce_fails(body, (fuel - 1) as nat, e),
            Ok(Firing::Bound { closure }) => self.fired(node).reduce_fails(
                closure,
                (fuel - 1) as nat,
                e,
            ),
            Err(x) => e == x,
        }
    }

    /// Forcing a binding fails: there is no fuel; or `closure` has no
    /// parameter; or the reduction of the parameter fails; or the closures
    /// above the value cannot be lifted.
    pub open spec fn force_fails(self, closure: NodeId, fuel: nat, e: ASTError) -> bool
        decreases fuel, 0nat,
    {
        if fuel == 0 {
            e == ASTError::Exhausted
        } else if self.child(closure, Edge::Parameter) is None {
            e == ASTError::EdgeNotFound(closure, Edge::Parameter)
        } else {
            self.reduce_fails(self.children[(closure, Edge::Parameter)], (fuel - 1) as nat, e)
                || exists|reduced: GraphView, inner: NodeId|
                #![trigger passes(reduced, inner, fuel)]
                passes(reduced, inner, fuel) && self.reduces(
                    self.children[(closure, Edge::Parameter)],
                    (fuel - 1) as nat,
                    reduced,
                    inner,
                ) && reduced.lift_fails(closure, Edge::Parameter, fuel, e)
        }
    }

    /// Putting the value of its binding in the place of `variable`
    /// fails: it is no bound variable; or it has no binding; or the
    /// binding cannot be let go; or the value that the last reference
    /// would take along is the variable or the binding itself; or the copy
    /// of a shared value fails, because the value is deeper than the fuel
    /// allows or there is no room for its nodes and edges.
    pub open spec fn dereference_fails(self, variable: NodeId, fuel: nat, e: ASTError) -> bool {
        let binder = self.binder_of(variable);
        if !self.is_bound_variable(variable) {
            e == ASTError::Custom(variable, "no bound variable")
        } else if self.child(variable, Edge::Binder(0)) is None {
            e == ASTError::EdgeNotFound(variable, Edge::Binder(0))
        } else if !self.releasable(binder) {
            e == self.release_error(binder)
        } else if !self.shared(binder) {
            !self.movable(variable) && e == ASTError::InvalidClosureChain
        } else {
            self.copy_fails(Map::empty(), self.value_of(variable), fuel, e)
        }
    }

    /// The rule for a bound variable fails: it has no binding; or forcing
    /// the binding fails; or the value cannot be put in its place; or the
    /// reduction of what then stands there fails.
    pub open spec fn lookup_fails(self, node: NodeId, fuel: nat, e: ASTError) -> bool
        decreases fuel, 4nat,
    {
        fuel > 0 && if self.child(node, Edge::Binder(0)) is None {
            e == ASTError::EdgeNotFound(node, Edge::Binder(0))
        } else {
            self.force_fails(self.binder_of(node), (fuel - 1) as nat, e) || exists|
                forced: GraphView,
                replaced: GraphView,
                replacement: NodeId,
            |
                #![trigger passes_two(forced, replaced, replacement)]
                passes_two(forced, replaced, replacement) && self.forces(
                    self.binder_of(node),
                    (fuel - 1) as nat,
                    forced,
                ) && (forced.dereference_fails(node, fuel, e) || (forced.dereferenced(
                    node,
                    fuel,
                    replaced,
                    replacement,
                ) && replaced.reduce_fails(replacement, (fuel - 1) as nat, e)))
        }
    }

    /// Forcing a binding and letting go of one reference to it fails:
    /// forcing fails; or the forced binding cannot be let go.
    pub open spec fn release_fails(self, closure: NodeId, fuel: nat, e: ASTError) -> bool {
        self.force_fails(closure, fuel, e) || exists|forced: GraphView|
            #![trigger hands(forced, closure, true)]
            hands(forced, closure, true) && self.forces(closure, fuel, forced)
                && !forced.releasable(closure) && e == forced.release_error(closure)
    }

    /// Reading a primitive from a binding fails: forcing or releasing it
    /// fails; or its value is no primitive.
    pub open spec fn extract_fails(self, closure: NodeId, fuel: nat, e: ASTError) -> bool {
        self.release_fails(closure, fuel, e) || exists|
            released: GraphView,
            parameter: NodeId,
            dangling: bool,
        |
            #![trigger hands(released, parameter, dangling)]
            hands(released, parameter, dangling) && self.releases(
                closure,
                fuel,
                released,
                parameter,
                dangling,
            ) && !(released.nodes.contains_key(parameter)
                && released.nodes[parameter] is Primitive) && e == ASTError::Custom(
                closure,
                "Not a primitive",
            )
    }

    /// Reading a number from a binding fails: reading a primitive fails;
    /// or the primitive is no number.
    pub open spec fn extract_number_fails(self, closure: NodeId, fuel: nat, e: ASTError) -> bool {
        self.extract_fails(closure, fuel, e) || exists|read: GraphView, bytes: Seq<u8>|
            #![trigger self.extracts(closure, fuel, read, PrimitiveView::Bytes(bytes))]
            self.extracts(closure, fuel, read, PrimitiveView::Bytes(bytes)) && e
                == ASTError::Custom(closure, "NaN")
    }

    /// Forcing an argument of a data node and letting go of the node's
    /// reference to it fails: the node has no such argument; or forcing
    /// its binding fails; or the node is no longer a data node that
    /// refers to the binding; or the forced binding cannot be let go.
    pub open spec fn argue_fails(self, data: NodeId, index: usize, fuel: nat, e: ASTError) -> bool
        decreases fuel, 1nat,
    {
        let closure = self.binding(data, index);
        if self.child(data, Edge::Binder(index)) is None {
            e == ASTError::EdgeNotFound(data, Edge::Binder(index))
        } else {
            self.force_fails(closure, fuel, e) || exists|forced: GraphView|
                #![trigger hands(forced, closure, true)]
                hands(forced, closure, true) && self.forces(closure, fuel, forced) && (
                if forced.kind(data) is Active && forced.child(data, Edge::Binder(index)) == Some(
                    closure,
                ) {
                    !forced.releasable(closure) && e == forced.release_error(closure)
                } else {
                    e == ASTError::InvalidClosureChain
                })
        }
    }

    /// Reading a primitive from an argument of a data node fails: forcing
    /// or releasing it fails; or its value is no primitive.
    pub open spec fn read_fails(self, data: NodeId, index: usize, fuel: nat, e: ASTError) -> bool
        decreases fuel, 2nat,
    {
        self.argue_fails(data, index, fuel, e) || exists|
            forced: GraphView,
            parameter: NodeId,
            dangling: bool,
        |
            #![trigger hands(forced, parameter, dangling)]
            hands(forced, parameter, dangling) && self.argues(
                data,
                index,
                fuel,
                forced,
                parameter,
                dangling,
            ) && !(forced.nodes.contains_key(parameter) && forced.nodes[parameter] is Primitive)
                && e == ASTError::Custom(data, "Not a primitive")
    }

    /// Reading a number from an argument of a data node fails: reading a
    /// primitive fails; or the primitive is no number.
    pub open spec fn number_fails(self, data: NodeId, index: usize, fuel: nat, e: ASTError) -> bool
        decreases fuel, 3nat,
    {
        self.read_fails(data, index, fuel, e) || exists|read: GraphView, bytes: Seq<u8>|
            #![trigger self.reads(data, index, fuel, read, PrimitiveView::Bytes(bytes))]
            self.reads(data, index, fuel, read, PrimitiveView::Bytes(bytes)) && e
                == ASTError::Custom(data, "NaN")
    }

    /// Putting the result of an arithmetic tag in the place of `node`
    /// fails: the node is gone; or the tag computes nothing on these
    /// numbers, a domain error at the node; or there is no room.
    pub open spec fn arithmetic_fails(
        self,
        node: NodeId,
        operation: ArithmeticTag,
        what: usize,
        to: usize,
        e: ASTError,
    ) -> bool {
        if !self.nodes.contains_key(node) {
            e == ASTError::Custom(node, "no such node")
        } else if !operation.defined(what, to) {
            e is Custom && e->Custom_0 == node
        } else {
            e is Full && !self.arithmetic_room(operation)
        }
    }

    /// Putting a fresh constructor in the place of `node` fails: the
    /// node is gone; or no identifier or no room is left.
    pub open spec fn constructor_fails(self, node: NodeId, arity: usize, e: ASTError) -> bool {
        if !self.nodes.contains_key(node) {
            e == ASTError::Custom(node, "no such node")
        } else {
            e is Full && !(self.next_uid < usize::MAX && self.room(
                arity as nat + 1,
                2 * (arity as nat),
            ))
        }
    }

    /// What a decided `match` builds can be built: the transform and the
    /// binders of the value's arguments, or the fallback and the binder of
    /// the value, are lambdas or closures, and there is room for the
    /// variables and applications.
    pub open spec fn builds(
        self,
        constructor: NodeId,
        transform: NodeId,
        fallback: NodeId,
        value_binder: NodeId,
        value: NodeId,
        value_dangling: bool,
        fuel: nat,
    ) -> bool {
        if self.custom_uid(value) == Some(self.head_uid(constructor, fuel)->Ok_0) {
            self.is_binder(transform) && exists|binders: Seq<NodeId>|
                #![trigger self.lists_binders(value, binders)]
                self.lists_binders(value, binders) && (forall|j: int|
                    0 <= j < binders.len() ==> self.is_binder(#[trigger] binders[j]))
                    && self.room(1 + 2 * binders.len(), 1 + 3 * binders.len())
        } else if value_dangling {
            self.is_binder(fallback) && self.room(2, 3)
        } else {
            self.is_binder(fallback) && self.is_binder(value_binder) && self.room(3, 4)
        }
    }

    /// `built` is `self` plus what a decided `match` builds, with the
    /// application `head` on top: the transform applied to the arguments of
    /// the value where the constructors are the same, else the fallback
    /// applied to the value.
    pub open spec fn match_built(
        self,
        constructor: NodeId,
        transform: NodeId,
        fallback: NodeId,
        value_binder: NodeId,
        value: NodeId,
        value_dangling: bool,
        fuel: nat,
        built: GraphView,
        head: NodeId,
    ) -> bool {
        exists|binders: Seq<NodeId>|
            #![trigger built.has_transform(self, transform, binders, head)]
            #![trigger self.lists_binders(value, binders)]
            self.lists_binders(value, binders) && (if self.custom_uid(value) == Some(
                self.head_uid(constructor, fuel)->Ok_0,
            ) {
                built.has_transform(self, transform, binders, head)
            } else {
                built.has_fallback(self, fallback, value_binder, value, value_dangling, head)
            })
    }

    /// Deciding a `match` whose constructor and value are forced fails:
    /// the node is gone; or the value is no data node of a user-defined
    /// constructor; or the constructor has no such head; or what it builds
    /// cannot be built, see [`Self::builds`]; or, once that is built,
    /// something outside refers into the constructor that is cleared away,
    /// or the application cannot take the place of the node.
    pub open spec fn decide_fails(
        self,
        node: NodeId,
        constructor: NodeId,
        constructor_dangling: bool,
        transform: NodeId,
        fallback: NodeId,
        value_binder: NodeId,
        value: NodeId,
        value_dangling: bool,
        fuel: nat,
        e: ASTError,
    ) -> bool {
        if !self.nodes.contains_key(node) {
            e == ASTError::Custom(node, "no such node")
        } else if self.custom_uid(value) is None {
            e == ASTError::Custom(value, "Not a data constructor")
        } else if self.head_uid(constructor, fuel) is Err {
            e == self.head_uid(constructor, fuel)->Err_0
        } else {
            ((e is Full || e is Custom) && !self.builds(
                constructor,
                transform,
                fallback,
                value_binder,
                value,
                value_dangling,
                fuel,
            )) || (e == ASTError::InvalidClosureChain && exists|built: GraphView, head: NodeId|
                #![trigger passes(built, head, fuel)]
                passes(built, head, fuel) && self.match_built(
                    constructor,
                    transform,
                    fallback,
                    value_binder,
                    value,
                    value_dangling,
                    fuel,
                    built,
                    head,
                ) && ({
                    let cleared = built.cleared(
                        constructor,
                        constructor_dangling,
                        value,
                        value_dangling && self.custom_uid(value) == Some(
                            self.head_uid(constructor, fuel)->Ok_0,
                        ),
                    );
                    (constructor_dangling && !cleared.well_bound()) || !cleared.nodes.contains_key(
                        head,
                    ) || head == node
                }))
        }
    }

    /// The rule for `match` fails: one of the edges that it follows is
    /// missing; or forcing the constructor or the value fails; or the
    /// match cannot be decided; or the reduction of what it builds fails.
    pub open spec fn match_fails(self, node: NodeId, fuel: nat, e: ASTError) -> bool
        decreases fuel, 3nat,
    {
        let transform = self.children[(node, Edge::Binder(1))];
        let fallback = self.children[(node, Edge::Binder(2))];
        let value_binder = self.children[(node, Edge::Binder(3))];
        fuel > 0 && if self.child(node, Edge::Binder(1)) is None {
            e == ASTError::EdgeNotFound(node, Edge::Binder(1))
        } else if self.child(node, Edge::Binder(2)) is None {
            e == ASTError::EdgeNotFound(node, Edge::Binder(2))
        } else if self.child(node, Edge::Binder(3)) is None {
            e == ASTError::EdgeNotFound(node, Edge::Binder(3))
        } else {
            self.argue_fails(node, 0, (fuel - 1) as nat, e) || exists|
                first: GraphView,
                constructor: NodeId,
                constructor_dangling: bool,
            |
                #![trigger hands(first, constructor, constructor_dangling)]
                hands(first, constructor, constructor_dangling) && self.argues(
                    node,
                    0,
                    (fuel - 1) as nat,
                    first,
                    constructor,
                    constructor_dangling,
                ) && (first.argue_fails(node, 3, (fuel - 1) as nat, e) || exists|
                    second: GraphView,
                    value: NodeId,
                    value_dangling: bool,
                |
                    #![trigger hands(second, value, value_dangling)]
                    hands(second, value, value_dangling) && first.argues(
                        node,
                        3,
                        (fuel - 1) as nat,
                        second,
                        value,
                        value_dangling,
                    ) && (second.decide_fails(
                        node,
                        constructor,
                        constructor_dangling,
                        transform,
                        fallback,
                        value_binder,
                        value,
                        value_dangling,
                        fuel,
                        e,
                    ) || exists|
                        built: GraphView,
                        start: NodeId,
                    |
                        #![trigger passes(built, start, fuel)]
                        passes(built, start, fuel) && second.match_done(
                            node,
                            constructor,
                            constructor_dangling,
                            transform,
                            fallback,
                            value_binder,
                            value,
                            value_dangling,
                            fuel,
                            built,
                            start,
                        ) && built.reduce_fails(start, (fuel - 1) as nat, e)))
        }
    }

    /// The rule for a data node whose tag computes fails: reading an
    /// argument fails; or the result cannot be put in the place of the
    /// node; for `match`, see [`Self::match_fails`].
    pub open spec fn compute_fails(
        self,
        node: NodeId,
        tag: ConstructorTag,
        fuel: nat,
        e: ASTError,
    ) -> bool
        decreases fuel, 4nat,
    {
        fuel > 0 && match tag {
            ConstructorTag::Arithmetic(operation) => self.number_fails(
                node,
                0,
                (fuel - 1) as nat,
                e,
            ) || exists|first: GraphView, what: usize|
                #![trigger passes(first, node, what as nat)]
                passes(first, node, what as nat) && self.reads(
                    node,
                    0,
                    (fuel - 1) as nat,
                    first,
                    PrimitiveView::Number(what),
                ) && (first.number_fails(node, 1, (fuel - 1) as nat, e) || exists|
                    second: GraphView,
                    other: usize,
                |
                    #![trigger passes(second, node, other as nat)]
                    passes(second, node, other as nat) && first.reads(
                        node,
                        1,
                        (fuel - 1) as nat,
                        second,
                        PrimitiveView::Number(other),
                    ) && second.arithmetic_fails(node, operation, what, other, e)),
            ConstructorTag::HelperFunction(
                HelperFunctionTag::CreateConstructor,
            ) => self.number_fails(node, 0, (fuel - 1) as nat, e) || exists|
                first: GraphView,
                arity: usize,
            |
                #![trigger passes(first, node, arity as nat)]
                passes(first, node, arity as nat) && self.reads(
                    node,
                    0,
                    (fuel - 1) as nat,
                    first,
                    PrimitiveView::Number(arity),
                ) && first.constructor_fails(node, arity, e),
            ConstructorTag::HelperFunction(HelperFunctionTag::Match) => self.match_fails(
                node,
                fuel,
                e,
            ),
            _ => false,
        }
    }

    /// Reducing `node` with the focus on it fails: the rules give up; or
    /// they end, and the head that they arrive at does not lie under the
    /// closures at the focus.
    pub open spec fn evaluate_fails(self, node: NodeId, fuel: nat, e: ASTError) -> bool {
        self.focused_on(node).reduce_fails(node, fuel, e) || (e == ASTError::InvalidClosureChain
            && exists|to: GraphView, head: NodeId|
            #![trigger passes(to, head, fuel)]
            passes(to, head, fuel) && self.focused_on(node).reduces(node, fuel, to, head)
                && to.chain_end(to.focus, fuel) != head)
    }

    /// Reducing the graph from its root fails: the rules give up; or they
    /// end, and the head that they arrive at does not lie under the
    /// closures at the root.
    pub open spec fn root_fails(self, fuel: nat, e: ASTError) -> bool {
        self.reduce_fails(self.root, fuel, e) || (e == ASTError::InvalidClosureChain && exists|
            to: GraphView,
            head: NodeId,
        |
            #![trigger passes(to, head, fuel)]
            passes(to, head, fuel) && self.reduces(self.root, fuel, to, head) && to.chain_end(
                to.root,
                fuel,
            ) != head)
    }

    /// What a tag's own entry point does with the data node `id`: with no
    /// fuel it gives up; a node that is no data node with this tag is
    /// refused; else the rule for the tag fails.
    pub open spec fn tag_fails(self, id: NodeId, tag: ConstructorTag, fuel: nat, e: ASTError) -> bool {
        !tag.is_inert() && if fuel == 0 {
            e == ASTError::Exhausted
        } else if self.kind(id) != Kind::Active(tag) {
            e == ASTError::Custom(id, "no data node with this tag")
        } else {
            self.compute_fails(id, tag, fuel, e)
        }
    }
}

impl GraphView {
    /// The binding `closure` holds a value that needs no reduction: its
    /// parameter is in weak-head normal form within `depth` and is no
    /// closure.
    pub open spec fn holds_value(self, closure: NodeId, depth: nat) -> bool {
        let parameter = self.children[(closure, Edge::Parameter)];
        self.child(closure, Edge::Parameter) is Some && self.is_whnf(parameter, depth)
            && !self.is_closure(parameter)
    }

    /// One reference to the binding `closure` can be let go: it has a
    /// parameter, and where nothing else refers to it, it is a closure
    /// with a body, which can be stripped.
    pub open spec fn releasable(self, closure: NodeId) -> bool {
        self.child(closure, Edge::Parameter) is Some && (self.shared(closure) || self.strippable(
            closure,
        ))
    }

    /// The error of letting go of a reference to a binding that is not
    /// [`Self::releasable`].
    pub open spec fn release_error(self, closure: NodeId) -> ASTError {
        if self.child(closure, Edge::Parameter) is None {
            ASTError::EdgeNotFound(closure, Edge::Parameter)
        } else {
            self.strip_error(closure)
        }
    }

    /// The graph after one reference to the binding `closure` has been let
    /// go: a shared binding stays, the last reference strips the closure.
    pub open spec fn released(self, closure: NodeId) -> GraphView {
        if self.shared(closure) {
            self
        } else {
            self.stripped(closure)
        }
    }

    /// What letting go of one reference to the binding `closure` returns:
    /// its parameter and whether that was handed over.
    pub open spec fn release_outcome(self, closure: NodeId) -> Result<(NodeId, bool), ASTError> {
        if self.releasable(closure) {
            Ok((self.children[(closure, Edge::Parameter)], !self.shared(closure)))
        } else {
            Err(self.release_error(closure))
        }
    }

    /// The primitive that the binding `closure` holds, if it holds one.
    pub open spec fn held(self, closure: NodeId) -> Option<PrimitiveView> {
        let parameter = self.children[(closure, Edge::Parameter)];
        if self.child(closure, Edge::Parameter) is Some && self.nodes.contains_key(parameter) {
            match self.nodes[parameter] {
                NodeView::Primitive(value) => Some(value),
                _ => None,
            }
        } else {
            None
        }
    }

    /// What reading a number from the binding `closure` returns where the
    /// binding holds a value; a failure to read is reported at `at`.
    pub open spec fn number_outcome(self, closure: NodeId, at: NodeId) -> Result<usize, ASTError> {
        if !self.releasable(closure) {
            Err(self.release_error(closure))
        } else {
            match self.held(closure) {
                Some(PrimitiveView::Number(number)) => Ok(number),
                Some(_) => Err(ASTError::Custom(at, "NaN")),
                None => Err(ASTError::Custom(at, "Not a primitive")),
            }
        }
    }

    /// The graph after the value of the binding `closure` has been read
    /// and one reference to it let go: a shared binding stays; the last
    /// reference strips the closure and takes the value's node away.
    pub open spec fn read(self, closure: NodeId) -> GraphView {
        if self.shared(closure) {
            self
        } else {
            self.stripped(closure).without_node(self.children[(closure, Edge::Parameter)])
        }
    }

    /// The graph that a failed or finished step on the binding `closure`
    /// leaves: as it was where no reference can be let go, else
    /// [`Self::read`].
    pub open spec fn read_or_kept(self, closure: NodeId) -> GraphView {
        if self.releasable(closure) {
            self.read(closure)
        } else {
            self
        }
    }

    /// The graph after an argument of a data node, bound by `closure`, has
    /// been read where the binding holds a value: as it was where no
    /// reference can be let go; after the release where the value is no
    /// primitive; else [`Self::read`].
    pub open spec fn argument_read(self, closure: NodeId) -> GraphView {
        if !self.releasable(closure) {
            self
        } else if self.held(closure) is None {
            self.released(closure)
        } else {
            self.read(closure)
        }
    }

    /// There is room for what an arithmetic tag puts into the graph: a
    /// number, or the three nodes and edges of a Church boolean for `Eq`.
    pub open spec fn arithmetic_room(self, operation: ArithmeticTag) -> bool {
        if operation == ArithmeticTag::Eq {
            self.room(3, 3)
        } else {
            self.room(1, 0)
        }
    }

    /// The argument `index` of the data node `data` is a number that needs
    /// no reduction and can be read.
    pub open spec fn number_ready(self, data: NodeId, index: usize, depth: nat) -> bool {
        self.argument_ready(data, index, depth) && self.number_outcome(
            self.binding(data, index),
            data,
        ) is Ok
    }

    /// The number that the argument `index` of `data` holds.
    pub open spec fn number_at(self, data: NodeId, index: usize) -> usize {
        self.number_outcome(self.binding(data, index), data)->Ok_0
    }

    /// The graph after the argument `index` of `data` has been read.
    pub open spec fn after_argument(self, data: NodeId, index: usize) -> GraphView {
        self.argument_read(self.binding(data, index))
    }

    /// Both arguments of the arithmetic node `node` are numbers that need
    /// no reduction and can be read, the first and then the second.
    pub open spec fn numbers_ready(self, node: NodeId, depth: nat) -> bool {
        self.number_ready(node, 0, depth) && self.after_argument(node, 0).number_ready(
            node,
            1,
            depth,
        )
    }

    /// What an arithmetic tag at `node` does where its arguments are
    /// [`Self::numbers_ready`]: it reads them and succeeds exactly when
    /// the node is still there, the tag computes something on the two
    /// numbers and there is room for it; the result then stands in the
    /// place of the node. Where the tag computes nothing, it fails with a
    /// domain error at the node once the arguments are read.
    pub open spec fn arithmetic_outcome(
        self,
        node: NodeId,
        operation: ArithmeticTag,
        to: GraphView,
        r: Result<NodeId, ASTError>,
    ) -> bool {
        let between = self.after_argument(node, 0);
        let read = between.after_argument(node, 1);
        let what = self.number_at(node, 0);
        let with = between.number_at(node, 1);
        &&& r is Ok <==> read.nodes.contains_key(node) && operation.defined(what, with)
            && read.arithmetic_room(operation)
        &&& r is Ok ==> read.arithmetic_done(node, operation, what, with, to, r->Ok_0)
        &&& read.nodes.contains_key(node) && !operation.defined(what, with) ==> r is Err
            && r->Err_0 is Custom && r->Err_0->Custom_0 == node && to == read
    }

    /// What `#constructor` at `node` does where its argument is a number
    /// that needs no reduction and can be read: it reads the arity and
    /// succeeds exactly when the node is still there, an identifier is
    /// left and there is room for the constructor, which then stands in
    /// the place of the node.
    pub open spec fn constructor_outcome(
        self,
        node: NodeId,
        to: GraphView,
        r: Result<NodeId, ASTError>,
    ) -> bool {
        let read = self.after_argument(node, 0);
        let arity = self.number_at(node, 0);
        &&& r is Ok <==> read.nodes.contains_key(node) && read.next_uid < usize::MAX && read.room(
            arity as nat + 1,
            2 * (arity as nat),
        )
        &&& r is Ok ==> read.constructor_done(node, arity, to, r->Ok_0)
    }

    /// The edges that `match` follows at `node` are there, and its
    /// constructor and its value are bound to values that need no
    /// reduction and whose bindings can be let go, the constructor's first.
    pub open spec fn match_ready(self, node: NodeId, depth: nat) -> bool {
        let first = self.released(self.binding(node, 0));
        &&& self.child(node, Edge::Binder(1)) is Some
        &&& self.child(node, Edge::Binder(2)) is Some
        &&& self.child(node, Edge::Binder(3)) is Some
        &&& self.argument_ready(node, 0, depth) && self.releasable(self.binding(node, 0))
        &&& first.argument_ready(node, 3, depth) && first.releasable(first.binding(node, 3))
    }

    /// The graph after `match` at `node` has let go of the bindings of its
    /// constructor and of its value.
    pub open spec fn match_forced(self, node: NodeId) -> GraphView {
        let first = self.released(self.binding(node, 0));
        first.released(first.binding(node, 3))
    }

    /// Where `match` at `node` is [`Self::match_ready`] and cannot decide,
    /// it fails once the two bindings are let go and builds nothing: at
    /// the node if that is gone, at the value if it is no data node of a
    /// user-defined constructor, and with the error of
    /// [`Self::head_uid`] if the constructor has no such head.
    pub open spec fn match_refusals(
        self,
        node: NodeId,
        fuel: nat,
        to: GraphView,
        r: Result<NodeId, ASTError>,
    ) -> bool {
        let first = self.released(self.binding(node, 0));
        let forced = self.match_forced(node);
        let constructor = self.children[(self.binding(node, 0), Edge::Parameter)];
        let value = first.children[(first.binding(node, 3), Edge::Parameter)];
        &&& !forced.nodes.contains_key(node) ==> r == Err::<NodeId, ASTError>(
            ASTError::Custom(node, "no such node"),
        ) && to == forced
        &&& forced.nodes.contains_key(node) && forced.custom_uid(value) is None ==> r == Err::<
            NodeId,
            ASTError,
        >(ASTError::Custom(value, "Not a data constructor")) && to == forced
        &&& forced.nodes.contains_key(node) && forced.custom_uid(value) is Some && forced.head_uid(
            constructor,
            fuel,
        ) is Err ==> r == Err::<NodeId, ASTError>(forced.head_uid(constructor, fuel)->Err_0)
            && to == forced
    }

    /// The arguments that the tag `tag` reads at `node` need no reduction.
    pub open spec fn values_ready(self, node: NodeId, tag: ConstructorTag, depth: nat) -> bool {
        match tag {
            ConstructorTag::Arithmetic(_) => self.numbers_ready(node, depth),
            ConstructorTag::HelperFunction(HelperFunctionTag::CreateConstructor) => self.number_ready(
                node,
                0,
                depth,
            ),
            ConstructorTag::HelperFunction(HelperFunctionTag::Match) => self.match_ready(
                node,
                depth,
            ),
            _ => false,
        }
    }

    /// What the tag `tag` does at `node` where its arguments are
    /// [`Self::values_ready`].
    pub open spec fn value_outcome(
        self,
        node: NodeId,
        tag: ConstructorTag,
        fuel: nat,
        to: GraphView,
        r: Result<NodeId, ASTError>,
    ) -> bool {
        match tag {
            ConstructorTag::Arithmetic(operation) => self.arithmetic_outcome(
                node,
                operation,
                to,
                r,
            ),
            ConstructorTag::HelperFunction(
                HelperFunctionTag::CreateConstructor,
            ) => self.constructor_outcome(node, to, r),
            ConstructorTag::HelperFunction(HelperFunctionTag::Match) => self.match_refusals(
                node,
                fuel,
                to,
                r,
            ),
            _ => true,
        }
    }

    /// The first edge that the tag `tag` follows at its data node.
    pub open spec fn first_edge(tag: ConstructorTag) -> Edge {
        if tag == ConstructorTag::HelperFunction(HelperFunctionTag::Match) {
            Edge::Binder(1)
        } else {
            Edge::Binder(0)
        }
    }

    /// The binding of `variable`.
    pub open spec fn binder_of(self, variable: NodeId) -> NodeId {
        self.children[(variable, Edge::Binder(0))]
    }

    /// The value that the binding of `variable` holds.
    pub open spec fn value_of(self, variable: NodeId) -> NodeId {
        self.children[(self.binder_of(variable), Edge::Parameter)]
    }

    /// The value of the binding of `variable` can take the variable's
    /// place: it is neither the variable nor the binding itself.
    pub open spec fn movable(self, variable: NodeId) -> bool {
        self.value_of(variable) != variable && self.value_of(variable) != self.binder_of(variable)
    }

    /// The graph after the last reference `variable` has taken the value
    /// of its binding along: the closure is stripped and the value stands
    /// in the variable's place.
    pub open spec fn moved(self, variable: NodeId) -> GraphView {
        self.stripped(self.binder_of(variable)).replaced(variable, self.value_of(variable))
    }

    /// What putting a copy of the node `value`, which has no edges, in the
    /// place of `variable` does: it succeeds exactly when there is fuel
    /// and room for one node; the copy is a new node that holds what
    /// `value` holds and stands in the place of `variable`. Where it
    /// fails, nothing changes.
    pub open spec fn copy_outcome(
        self,
        variable: NodeId,
        value: NodeId,
        fuel: nat,
        to: GraphView,
        r: Result<NodeId, ASTError>,
    ) -> bool {
        match r {
            Ok(copy) => fuel > 0 && self.room(1, 0) && !self.nodes.contains_key(copy) && to
                == self.with_node(copy, self.nodes[value]).replaced(variable, copy),
            Err(e) => to == self && !(fuel > 0 && self.room(1, 0)) && e == (if fuel == 0 {
                ASTError::Exhausted
            } else {
                ASTError::Full
            }),
        }
    }

    /// The argument `index` of the data node `data`, whose tag computes,
    /// is bound to a value that needs no reduction.
    pub open spec fn argument_ready(self, data: NodeId, index: usize, depth: nat) -> bool {
        self.kind(data) is Active && self.child(data, Edge::Binder(index)) is Some
            && self.holds_value(self.children[(data, Edge::Binder(index))], depth)
    }

    /// The binding of the argument `index` of `data`.
    pub open spec fn binding(self, data: NodeId, index: usize) -> NodeId {
        self.children[(data, Edge::Binder(index))]
    }
}

/// Where some lifts find a closure each, the first one does.
pub proof fn lemma_liftable_first(v: GraphView, node: NodeId, edge: Edge, count: nat)
    requires
        v.liftable(node, edge, count),
        count > 0,
    ensures
        v.can_lift(node, edge),
    decreases count,
{
    if count > 1 {
        lemma_liftable_first(v, node, edge, (count - 1) as nat);
    }
}

/// Reducing what is in weak-head normal form changes nothing: the rules
/// end in the same graph, with the node under the closures as the head.
pub proof fn lemma_value_is_fixed(
    v: GraphView,
    node: NodeId,
    depth: nat,
    fuel: nat,
    to: GraphView,
    head: NodeId,
)
    requires
        v.is_whnf(node, depth),
        v.reduces(node, fuel, to, head),
    ensures
        to == v,
        head == v.chain_end(node, depth),
    decreases depth,
{
    reveal_with_fuel(GraphView::reduces, 2);
    reveal_with_fuel(GraphView::applies, 2);
    reveal_with_fuel(GraphView::fires, 2);
    match v.kind(node) {
        Kind::Closure => {
            lemma_value_is_fixed(
                v,
                v.children[(node, Edge::Body)],
                (depth - 1) as nat,
                (fuel - 1) as nat,
                to,
                head,
            );
        },
        Kind::Application => {
            let (reduced, inner, count) = choose|reduced: GraphView, inner: NodeId, count: nat|
                #![trigger passes(reduced, inner, count)]
                passes(reduced, inner, count) && v.reduces(
                    v.head(node),
                    (fuel - 1) as nat,
                    reduced,
                    inner,
                ) && reduced.liftable(node, Edge::Function, count) && reduced.lifted_times(
                    node,
                    Edge::Function,
                    count,
                ).fires(node, fuel, to, head);
            lemma_value_is_fixed(
                v,
                v.head(node),
                (depth - 1) as nat,
                (fuel - 1) as nat,
                reduced,
                inner,
            );
            if count > 0 {
                lemma_liftable_first(reduced, node, Edge::Function, count);
            }
            assert(reduced.lifted_times(node, Edge::Function, 0) == reduced);
            assert(v.fires(node, fuel, to, head));
        },
        _ => {},
    }
}

/// What is in weak-head normal form never fails, given fuel for its
/// depth: no step of the rules can fail there.
pub proof fn lemma_value_never_fails(
    v: GraphView,
    node: NodeId,
    depth: nat,
    fuel: nat,
    e: ASTError,
)
    requires
        v.is_whnf(node, depth),
        depth < fuel,
    ensures
        !v.reduce_fails(node, fuel, e),
    decreases depth,
{
    reveal_with_fuel(GraphView::reduce_fails, 2);
    reveal_with_fuel(GraphView::apply_fails, 2);
    reveal_with_fuel(GraphView::fire_fails, 2);
    match v.kind(node) {
        Kind::Closure => {
            lemma_value_never_fails(
                v,
                v.children[(node, Edge::Body)],
                (depth - 1) as nat,
                (fuel - 1) as nat,
                e,
            );
        },
        Kind::Application => {
            lemma_value_never_fails(v, v.head(node), (depth - 1) as nat, (fuel - 1) as nat, e);
            if v.apply_fails(node, fuel, e) {
                let (reduced, inner, count) = choose|reduced: GraphView, inner: NodeId, count: nat|
                    #![trigger passes(reduced, inner, count)]
                    passes(reduced, inner, count) && v.reduces(
                        v.head(node),
                        (fuel - 1) as nat,
                        reduced,
                        inner,
                    ) && (reduced.lift_fails(node, Edge::Function, fuel, e) || (reduced.liftable(
                        node,
                        Edge::Function,
                        count,
                    ) && reduced.lifted_times(node, Edge::Function, count).fire_fails(
                        node,
                        fuel,
                        e,
                    )));
                lemma_value_is_fixed(
                    v,
                    v.head(node),
                    (depth - 1) as nat,
                    (fuel - 1) as nat,
                    reduced,
                    inner,
                );
                assert(v.lifted_times(node, Edge::Function, 0) == v);
                assert(!v.can_lift(node, Edge::Function));
                assert forall|n: nat| n > 0 implies !v.liftable(node, Edge::Function, n) by {
                    if v.liftable(node, Edge::Function, n) {
                        lemma_liftable_first(v, node, Edge::Function, n);
                    }
                }
                if v.lift_fails(node, Edge::Function, fuel, e) {
                    let n = choose|n: nat|
                        #![trigger v.lifted_times(node, Edge::Function, n)]
                        n < fuel && v.liftable(node, Edge::Function, n) && v.lifted_times(
                            node,
                            Edge::Function,
                            n,
                        ).lift_error(node, Edge::Function) == Some(e);
                    assert(n == 0);
                    assert(false);
                }
                assert(count == 0);
                assert(false);
            }
        },
        _ => {},
    }
}

} // verus!
