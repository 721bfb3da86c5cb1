//! The grammar of the surface syntax, and what it means for a node of
//! the graph to hold an expression.
use vstd::prelude::*;
use crate::ast::GraphView;
use crate::ast::NodeId;
use crate::lexer::TokenView;
use crate::node::Edge;
use crate::node::NodeView;
use crate::node::PrimitiveView;
use crate::node::VariableKindView;
use crate::parser::number_of;
use crate::tags::tag_named;
use crate::tags::ConstructorTag;

verus! {

/// An expression of the surface syntax.
pub enum Term {
    /// A symbol: a variable, a built-in tag or a number.
    Name(Seq<char>),
    /// `λx.body`
    Lambda(Seq<char>, Box<Term>),
    /// `with x value in body`
    With(Seq<char>, Box<Term>, Box<Term>),
    /// `function parameter`
    Apply(Box<Term>, Box<Term>),
}

/// The binders in scope, innermost last: names and the nodes that bind
/// them.
pub type Scope = Seq<(Seq<char>, NodeId)>;

/// A closing bracket, `in` or the end of the text: what ends an
/// expression.
pub open spec fn ends(token: TokenView) -> bool {
    token is Eof || token is CloseParen || token is In
}

/// How strongly an operator binds what stands to its left.
pub open spec fn left_power(token: TokenView) -> nat {
    if token is Pipe {
        10
    } else {
        100
    }
}

/// How strongly an operator binds what stands to its right.
pub open spec fn right_power(token: TokenView) -> nat {
    if token is Pipe {
        11
    } else {
        101
    }
}

/// The position behind the type that a lambda may name for its variable:
/// behind `: type` where a colon stands at `position`, else `position`.
pub open spec fn behind_type(tokens: Seq<TokenView>, position: nat) -> Option<nat> {
    if position < tokens.len() && tokens[position as int] is Colon {
        if position + 1 < tokens.len() && tokens[(position + 1) as int] is Symbol {
            Some(position + 2)
        } else {
            None
        }
    } else {
        Some(position)
    }
}

/// The expression that starts at `position`, without what is applied to
/// it, and the position behind it: a symbol, a lambda, a bracketed
/// expression or a binding.
pub open spec fn parse_head(tokens: Seq<TokenView>, position: nat) -> Option<(Term, nat)>
    decreases tokens.len() - position, 1nat,
{
    if position >= tokens.len() {
        None
    } else {
        match tokens[position as int] {
            TokenView::Symbol(name) => Some((Term::Name(name), position + 1)),
            TokenView::Lambda => if position + 1 < tokens.len() && tokens[(position + 1) as int]
                is Symbol {
                match behind_type(tokens, position + 2) {
                    Some(dot) => if position + 2 <= dot < tokens.len() && tokens[dot as int]
                        is Dot {
                        match parse_term(tokens, dot + 1, 0) {
                            Some((body, end)) => Some(
                                (
                                    Term::Lambda(
                                        tokens[(position + 1) as int]->Symbol_0,
                                        Box::new(body),
                                    ),
                                    end,
                                ),
                            ),
                            None => None,
                        }
                    } else {
                        None
                    },
                    None => None,
                }
            } else {
                None
            },
            TokenView::OpenParen => match parse_term(tokens, position + 1, 0) {
                Some((inner, end)) => if end < tokens.len() && tokens[end as int]
                    is CloseParen {
                    Some((inner, end + 1))
                } else {
                    None
                },
                None => None,
            },
            TokenView::With => if position + 1 < tokens.len() && tokens[(position + 1) as int]
                is Symbol {
                match parse_term(tokens, position + 2, 0) {
                    Some((value, middle)) => if position + 2 < middle < tokens.len()
                        && tokens[middle as int] is In {
                        match parse_term(tokens, middle + 1, 0) {
                            Some((body, end)) => Some(
                                (
                                    Term::With(
                                        tokens[(position + 1) as int]->Symbol_0,
                                        Box::new(value),
                                        Box::new(body),
                                    ),
                                    end,
                                ),
                            ),
                            None => None,
                        }
                    } else {
                        None
                    },
                    None => None,
                }
            } else {
                None
            },
            _ => None,
        }
    }
}

/// The expression that starts at `position` and the position behind it.
/// Operators that bind less than `min_binding_power` end it.
pub open spec fn parse_term(tokens: Seq<TokenView>, position: nat, min_binding_power: nat) -> Option<
    (Term, nat),
>
    decreases tokens.len() - position, 2nat,
{
    if position >= tokens.len() {
        None
    } else {
        match parse_head(tokens, position) {
            Some((head, behind)) => if position < behind <= tokens.len() {
                parse_tail(tokens, behind, min_binding_power, head)
            } else {
                None
            },
            None => None,
        }
    }
}

/// What follows the expression `left`, whose end is `position`:
/// applications, left to right, until something ends the expression. A
/// bar swaps the two sides of the application that it writes.
pub open spec fn parse_tail(
    tokens: Seq<TokenView>,
    position: nat,
    min_binding_power: nat,
    left: Term,
) -> Option<(Term, nat)>
    decreases tokens.len() - position, 3nat,
{
    if position >= tokens.len() {
        None
    } else {
        let token = tokens[position as int];
        if ends(token) || left_power(token) < min_binding_power {
            Some((left, position))
        } else {
            let start = if token is Pipe || token is Colon {
                position + 1
            } else {
                position
            };
            match parse_term(tokens, start, right_power(token)) {
                Some((right, behind)) => if position < behind <= tokens.len() {
                    parse_tail(
                        tokens,
                        behind,
                        min_binding_power,
                        if token is Pipe {
                            Term::Apply(Box::new(right), Box::new(left))
                        } else {
                            Term::Apply(Box::new(left), Box::new(right))
                        },
                    )
                } else {
                    None
                },
                None => None,
            }
        }
    }
}

/// The expression that a text writes, if it writes one: the expression
/// that its tokens start with.
pub open spec fn parse_text(text: Seq<char>) -> Option<Term> {
    match parse_term(crate::lexer::tokens_of(text), 0, 0) {
        Some((term, _)) => Some(term),
        None => None,
    }
}

/// The innermost binder of `name` in scope.
pub open spec fn scope_find(scope: Scope, name: Seq<char>) -> Option<NodeId>
    decreases scope.len(),
{
    if scope.len() == 0 {
        None
    } else if scope.last().0 == name {
        Some(scope.last().1)
    } else {
        scope_find(scope.drop_last(), name)
    }
}

impl GraphView {
    /// Every edge that leaves `node` has the label `a` or the label `b`.
    pub open spec fn only(self, node: NodeId, a: Edge, b: Edge) -> bool {
        forall|label: Edge| #[trigger]
            self.children.contains_key((node, label)) ==> label == a || label == b
    }

    /// No edge leaves `node`.
    pub open spec fn bare(self, node: NodeId) -> bool {
        forall|label: Edge| !#[trigger] self.children.contains_key((node, label))
    }

    /// `node` and the `count` nodes that follow it along body edges.
    pub open spec fn chain_set(self, node: NodeId, count: nat) -> Set<NodeId>
        decreases count,
    {
        if count == 0 {
            set![node]
        } else {
            self.chain_set(self.children[(node, Edge::Body)], (count - 1) as nat).insert(node)
        }
    }

    /// The nodes that hold the expression `term` at `node`: the node
    /// itself and the nodes of the expressions below it; for a built-in
    /// tag, the lambdas and the data node of its constructor.
    pub open spec fn footprint(self, node: NodeId, term: Term, scope: Scope) -> Set<NodeId>
        decreases term,
    {
        match term {
            Term::Name(name) => if scope_find(scope, name) is None && tag_named(name) is Some {
                self.chain_set(node, tag_named(name)->Some_0.spec_arity())
            } else {
                set![node]
            },
            Term::Lambda(name, body) => self.footprint(
                self.children[(node, Edge::Body)],
                *body,
                scope.push((name, node)),
            ).insert(node),
            Term::With(name, value, body) => self.footprint(
                self.children[(node, Edge::Parameter)],
                *value,
                scope,
            ).union(
                self.footprint(
                    self.children[(node, Edge::Body)],
                    *body,
                    scope.push((name, node)),
                ),
            ).insert(node),
            Term::Apply(function, parameter) => self.footprint(
                self.children[(node, Edge::Function)],
                *function,
                scope,
            ).union(self.footprint(self.children[(node, Edge::Parameter)], *parameter, scope)).insert(
                node,
            ),
        }
    }

    /// `head` starts a saturated constructor for `tag` on nodes that
    /// `floor` did not have: one lambda per argument, each the body of the
    /// one before, over a data node whose i-th binder edge points at the
    /// i-th lambda.
    pub open spec fn heads_constructor(self, floor: GraphView, head: NodeId, tag: ConstructorTag) -> bool {
        exists|data: NodeId, lambdas: Seq<NodeId>|
            #![trigger self.is_chain(floor, tag, data, lambdas)]
            self.is_chain(floor, tag, data, lambdas) && head == (if lambdas.len() == 0 {
                data
            } else {
                lambdas[0]
            })
    }

    /// `lambdas` and `data` are the nodes of a saturated constructor for
    /// `tag`, none of them a node of `floor`, no two of them the same. A
    /// lambda has its body edge and no other edge; the data node has its
    /// binder edges and no other edge.
    pub open spec fn is_chain(
        self,
        floor: GraphView,
        tag: ConstructorTag,
        data: NodeId,
        lambdas: Seq<NodeId>,
    ) -> bool {
        &&& lambdas.len() == tag.spec_arity()
        &&& !floor.nodes.contains_key(data)
        &&& self.nodes.contains_key(data)
        &&& self.nodes[data] == (NodeView::Data { tag })
        &&& forall|label: Edge| #[trigger]
            self.children.contains_key((data, label)) ==> label is Binder && label->Binder_0
                < tag.spec_arity()
        &&& forall|m: int|
            0 <= m < lambdas.len() ==> !floor.nodes.contains_key(#[trigger] lambdas[m])
                && self.nodes.contains_key(lambdas[m]) && self.nodes[lambdas[m]]
                == (NodeView::Lambda { argument_name: tag.names()[m] }) && self.child(
                data,
                Edge::Binder(m as usize),
            ) == Some(lambdas[m]) && self.child(lambdas[m], Edge::Body) == Some(
                if m + 1 < lambdas.len() {
                    lambdas[m + 1]
                } else {
                    data
                },
            ) && lambdas[m] != data && self.only(lambdas[m], Edge::Body, Edge::Body)
        &&& forall|a: int, b: int|
            0 <= a < b < lambdas.len() ==> #[trigger] lambdas[a] != #[trigger] lambdas[b]
    }

    /// What a symbol stands for is at `node`: a variable bound to the
    /// innermost binder of that name in scope, with no edge but the one to
    /// its binder; else a saturated constructor for the built-in tag of
    /// that name; else the number that the name writes; else a free
    /// variable of that name; the last two without an edge.
    pub open spec fn holds_name(self, floor: GraphView, node: NodeId, name: Seq<char>, scope: Scope) -> bool {
        match scope_find(scope, name) {
            Some(binder) => self.is_bound_variable(node) && self.child(node, Edge::Binder(0))
                == Some(binder) && self.only(node, Edge::Binder(0), Edge::Binder(0)),
            None => match tag_named(name) {
                Some(tag) => self.heads_constructor(floor, node, tag),
                None => self.nodes.contains_key(node) && self.nodes[node] == (match number_of(
                    name,
                ) {
                    Some(value) => if value <= usize::MAX {
                        NodeView::Primitive(PrimitiveView::Number(value as usize))
                    } else {
                        NodeView::Variable(VariableKindView::Free(name))
                    },
                    None => NodeView::Variable(VariableKindView::Free(name)),
                }) && self.bare(node),
            },
        }
    }

    /// The node `node` holds the expression `term`, on nodes that `floor`
    /// did not have, with the binders of `scope` in scope: a lambda node
    /// for a lambda, whose body holds the body with the lambda in scope; a
    /// closure for a binding, whose parameter holds the value and whose
    /// body holds the body with the closure in scope; an application for
    /// an application; and for a symbol what [`Self::holds_name`] says.
    ///
    /// The expression is a tree of its own: each of its nodes has the
    /// edges of its kind and no other, and the expressions below a node
    /// share no node, neither with one another nor with the node, see
    /// [`Self::footprint`]. So each of its nodes is owned by its parent
    /// and by nothing else, see [`lemma_expression_tree`] and
    /// [`lemma_expression_owned`].
    pub open spec fn represents(self, floor: GraphView, node: NodeId, term: Term, scope: Scope) -> bool
        decreases term,
    {
        !floor.nodes.contains_key(node) && self.nodes.contains_key(node) && match term {
            Term::Name(name) => self.holds_name(floor, node, name, scope),
            Term::Lambda(name, body) => self.nodes[node] == (NodeView::Lambda {
                argument_name: name,
            }) && self.child(node, Edge::Body) is Some && self.represents(
                floor,
                self.children[(node, Edge::Body)],
                *body,
                scope.push((name, node)),
            ) && self.only(node, Edge::Body, Edge::Body) && !self.footprint(
                self.children[(node, Edge::Body)],
                *body,
                scope.push((name, node)),
            ).contains(node),
            Term::With(name, value, body) => self.nodes[node] == (NodeView::Closure {
                argument_name: name,
            }) && self.child(node, Edge::Parameter) is Some && self.represents(
                floor,
                self.children[(node, Edge::Parameter)],
                *value,
                scope,
            ) && self.child(node, Edge::Body) is Some && self.represents(
                floor,
                self.children[(node, Edge::Body)],
                *body,
                scope.push((name, node)),
            ) && self.only(node, Edge::Parameter, Edge::Body) && !self.footprint(
                self.children[(node, Edge::Parameter)],
                *value,
                scope,
            ).contains(node) && !self.footprint(
                self.children[(node, Edge::Body)],
                *body,
                scope.push((name, node)),
            ).contains(node) && self.footprint(
                self.children[(node, Edge::Parameter)],
                *value,
                scope,
            ).disjoint(
                self.footprint(
                    self.children[(node, Edge::Body)],
                    *body,
                    scope.push((name, node)),
                ),
            ),
            Term::Apply(function, parameter) => self.nodes[node] is Application && self.child(
                node,
                Edge::Function,
            ) is Some && self.represents(
                floor,
                self.children[(node, Edge::Function)],
                *function,
                scope,
            ) && self.child(node, Edge::Parameter) is Some && self.represents(
                floor,
                self.children[(node, Edge::Parameter)],
                *parameter,
                scope,
            ) && self.only(node, Edge::Function, Edge::Parameter) && !self.footprint(
                self.children[(node, Edge::Function)],
                *function,
                scope,
            ).contains(node) && !self.footprint(
                self.children[(node, Edge::Parameter)],
                *parameter,
                scope,
            ).contains(node) && self.footprint(
                self.children[(node, Edge::Function)],
                *function,
                scope,
            ).disjoint(self.footprint(self.children[(node, Edge::Parameter)], *parameter, scope)),
        }
    }
}

/// The data node of a constructor and its lambdas from the `from`-th on.
pub open spec fn chain_part(data: NodeId, lambdas: Seq<NodeId>, from: int) -> Set<NodeId>
    decreases lambdas.len() - from,
{
    if 0 <= from < lambdas.len() {
        chain_part(data, lambdas, from + 1).insert(lambdas[from])
    } else {
        set![data]
    }
}

/// What is part of a constructor is its data node or one of its lambdas.
pub proof fn lemma_chain_part_in(data: NodeId, lambdas: Seq<NodeId>, from: int, n: NodeId)
    requires
        0 <= from <= lambdas.len(),
        chain_part(data, lambdas, from).contains(n),
    ensures
        n == data || exists|j: int| from <= j < lambdas.len() && #[trigger] lambdas[j] == n,
    decreases lambdas.len() - from,
{
    if from < lambdas.len() {
        if n == lambdas[from] {
            assert(from <= from < lambdas.len() && lambdas[from] == n);
        } else {
            lemma_chain_part_in(data, lambdas, from + 1, n);
            if n != data {
                let j = choose|j: int| from + 1 <= j < lambdas.len() && #[trigger] lambdas[j] == n;
                assert(from <= j < lambdas.len() && lambdas[j] == n);
            }
        }
    }
}

/// The data node of a constructor and each of its lambdas is part of it.
pub proof fn lemma_chain_part_has(data: NodeId, lambdas: Seq<NodeId>, from: int, j: int)
    requires
        0 <= from <= lambdas.len(),
    ensures
        chain_part(data, lambdas, from).contains(data),
        from <= j < lambdas.len() ==> chain_part(data, lambdas, from).contains(lambdas[j]),
    decreases lambdas.len() - from,
{
    if from < lambdas.len() {
        lemma_chain_part_has(data, lambdas, from + 1, j);
    }
}

/// The nodes along the body edges of a constructor are its lambdas and
/// its data node.
pub proof fn lemma_chain_set(
    v: GraphView,
    floor: GraphView,
    tag: ConstructorTag,
    data: NodeId,
    lambdas: Seq<NodeId>,
    from: int,
)
    requires
        v.is_chain(floor, tag, data, lambdas),
        0 <= from <= lambdas.len(),
    ensures
        v.chain_set(
            if from < lambdas.len() {
                lambdas[from]
            } else {
                data
            },
            (lambdas.len() - from) as nat,
        ) == chain_part(data, lambdas, from),
    decreases lambdas.len() - from,
{
    if from < lambdas.len() {
        lemma_chain_set(v, floor, tag, data, lambdas, from + 1);
        assert(v.child(lambdas[from], Edge::Body) == Some(
            if from + 1 < lambdas.len() {
                lambdas[from + 1]
            } else {
                data
            },
        ));
    }
}

/// The nodes that hold an expression are nodes of the graph, and none of
/// them is a node of the floor.
pub proof fn lemma_footprint_fresh(
    now: GraphView,
    floor: GraphView,
    node: NodeId,
    term: Term,
    scope: Scope,
)
    requires
        now.represents(floor, node, term, scope),
    ensures
        forall|n: NodeId| #[trigger]
            now.footprint(node, term, scope).contains(n) ==> now.nodes.contains_key(n)
                && !floor.nodes.contains_key(n),
        now.footprint(node, term, scope).contains(node),
    decreases term,
{
    match term {
        Term::Name(name) => {
            if scope_find(scope, name) is None && tag_named(name) is Some {
                let tag = tag_named(name)->Some_0;
                let (data, lambdas) = choose|data: NodeId, lambdas: Seq<NodeId>|
                    #![trigger now.is_chain(floor, tag, data, lambdas)]
                    now.is_chain(floor, tag, data, lambdas) && node == (if lambdas.len() == 0 {
                        data
                    } else {
                        lambdas[0]
                    });
                lemma_chain_set(now, floor, tag, data, lambdas, 0);
                lemma_chain_part_has(data, lambdas, 0, 0);
                assert forall|n: NodeId| #[trigger]
                    now.footprint(node, term, scope).contains(n) implies now.nodes.contains_key(n)
                    && !floor.nodes.contains_key(n) by {
                    lemma_chain_part_in(data, lambdas, 0, n);
                    if n != data {
                        let j = choose|j: int| 0 <= j < lambdas.len() && #[trigger] lambdas[j] == n;
                        assert(now.nodes.contains_key(lambdas[j]));
                    }
                }
            }
        },
        Term::Lambda(name, body) => {
            lemma_footprint_fresh(
                now,
                floor,
                now.children[(node, Edge::Body)],
                *body,
                scope.push((name, node)),
            );
        },
        Term::With(name, value, body) => {
            lemma_footprint_fresh(now, floor, now.children[(node, Edge::Parameter)], *value, scope);
            lemma_footprint_fresh(
                now,
                floor,
                now.children[(node, Edge::Body)],
                *body,
                scope.push((name, node)),
            );
        },
        Term::Apply(function, parameter) => {
            lemma_footprint_fresh(
                now,
                floor,
                now.children[(node, Edge::Function)],
                *function,
                scope,
            );
            lemma_footprint_fresh(
                now,
                floor,
                now.children[(node, Edge::Parameter)],
                *parameter,
                scope,
            );
        },
    }
}

/// An edge that leaves a node above the floor was there before the graph
/// grew.
pub proof fn lemma_edges_framed(before: GraphView, later: GraphView, floor: GraphView, node: NodeId)
    requires
        before.framed_by(later, floor),
        before.nodes.contains_key(node),
        !floor.nodes.contains_key(node),
    ensures
        forall|label: Edge| #[trigger]
            later.children.contains_key((node, label)) ==> before.children.contains_key(
                (node, label),
            ),
{
    assert forall|label: Edge| #[trigger]
        later.children.contains_key((node, label)) implies before.children.contains_key(
        (node, label),
    ) by {
        let k = (node, label);
        if !before.children.contains_key(k) {
            assert(later.children.contains_key(k) && before.nodes.contains_key(k.0));
        }
    }
}

/// A constructor stays a constructor in a graph that has grown around
/// it.
pub proof fn lemma_chain_frame(
    before: GraphView,
    later: GraphView,
    floor: GraphView,
    tag: ConstructorTag,
    data: NodeId,
    lambdas: Seq<NodeId>,
)
    requires
        before.is_chain(floor, tag, data, lambdas),
        before.framed_by(later, floor),
    ensures
        later.is_chain(floor, tag, data, lambdas),
{
    lemma_edges_framed(before, later, floor, data);
    assert forall|m: int| 0 <= m < lambdas.len() implies !floor.nodes.contains_key(
        #[trigger] lambdas[m],
    ) && later.nodes.contains_key(lambdas[m]) && later.nodes[lambdas[m]] == (NodeView::Lambda {
        argument_name: tag.names()[m],
    }) && later.child(data, Edge::Binder(m as usize)) == Some(lambdas[m]) && later.child(
        lambdas[m],
        Edge::Body,
    ) == Some(
        if m + 1 < lambdas.len() {
            lambdas[m + 1]
        } else {
            data
        },
    ) && lambdas[m] != data && later.only(lambdas[m], Edge::Body, Edge::Body) by {
        assert(before.children.contains_key((data, Edge::Binder(m as usize))));
        assert(before.children.contains_key((lambdas[m], Edge::Body)));
        lemma_edges_framed(before, later, floor, lambdas[m]);
    }
}

/// What a symbol stands for at a node, it stands for in a graph that has
/// grown around it, on the same nodes.
pub proof fn lemma_name_frame(
    before: GraphView,
    later: GraphView,
    floor: GraphView,
    node: NodeId,
    name: Seq<char>,
    scope: Scope,
)
    requires
        before.represents(floor, node, Term::Name(name), scope),
        before.framed_by(later, floor),
    ensures
        later.represents(floor, node, Term::Name(name), scope),
        later.footprint(node, Term::Name(name), scope) == before.footprint(
            node,
            Term::Name(name),
            scope,
        ),
{
    lemma_edges_framed(before, later, floor, node);
    if scope_find(scope, name) is None && tag_named(name) is Some {
        let tag = tag_named(name)->Some_0;
        let (data, lambdas) = choose|data: NodeId, lambdas: Seq<NodeId>|
            #![trigger before.is_chain(floor, tag, data, lambdas)]
            before.is_chain(floor, tag, data, lambdas) && node == (if lambdas.len() == 0 {
                data
            } else {
                lambdas[0]
            });
        lemma_chain_frame(before, later, floor, tag, data, lambdas);
        lemma_chain_set(before, floor, tag, data, lambdas, 0);
        lemma_chain_set(later, floor, tag, data, lambdas, 0);
        assert(later.heads_constructor(floor, node, tag));
    } else if scope_find(scope, name) is Some {
        assert(before.children.contains_key((node, Edge::Binder(0))));
    }
}

/// What a node holds, it holds in a graph that has grown around it, on
/// the same nodes.
pub proof fn lemma_represents_frame(
    before: GraphView,
    later: GraphView,
    floor: GraphView,
    node: NodeId,
    term: Term,
    scope: Scope,
)
    requires
        before.represents(floor, node, term, scope),
        before.framed_by(later, floor),
    ensures
        later.represents(floor, node, term, scope),
        later.footprint(node, term, scope) == before.footprint(node, term, scope),
    decreases term,
{
    lemma_edges_framed(before, later, floor, node);
    match term {
        Term::Name(name) => {
            lemma_name_frame(before, later, floor, node, name, scope);
        },
        Term::Lambda(name, body) => {
            assert(before.children.contains_key((node, Edge::Body)));
            lemma_represents_frame(
                before,
                later,
                floor,
                before.children[(node, Edge::Body)],
                *body,
                scope.push((name, node)),
            );
        },
        Term::With(name, value, body) => {
            assert(before.children.contains_key((node, Edge::Body)));
            assert(before.children.contains_key((node, Edge::Parameter)));
            lemma_represents_frame(
                before,
                later,
                floor,
                before.children[(node, Edge::Parameter)],
                *value,
                scope,
            );
            lemma_represents_frame(
                before,
                later,
                floor,
                before.children[(node, Edge::Body)],
                *body,
                scope.push((name, node)),
            );
        },
        Term::Apply(function, parameter) => {
            assert(before.children.contains_key((node, Edge::Function)));
            assert(before.children.contains_key((node, Edge::Parameter)));
            lemma_represents_frame(
                before,
                later,
                floor,
                before.children[(node, Edge::Function)],
                *function,
                scope,
            );
            lemma_represents_frame(
                before,
                later,
                floor,
                before.children[(node, Edge::Parameter)],
                *parameter,
                scope,
            );
        },
    }
}

/// What a node holds over a floor, it holds over any floor that has no
/// node of the graph but those of the first floor.
pub proof fn lemma_represents_floor(
    now: GraphView,
    floor: GraphView,
    lower: GraphView,
    node: NodeId,
    term: Term,
    scope: Scope,
)
    requires
        now.represents(floor, node, term, scope),
        forall|n: NodeId| #[trigger]
            lower.nodes.contains_key(n) ==> floor.nodes.contains_key(n)
                || !now.nodes.contains_key(n),
    ensures
        now.represents(lower, node, term, scope),
    decreases term,
{
    match term {
        Term::Name(name) => {
            if scope_find(scope, name) is None && tag_named(name) is Some {
                let tag = tag_named(name)->Some_0;
                let (data, lambdas) = choose|data: NodeId, lambdas: Seq<NodeId>|
                    #![trigger now.is_chain(floor, tag, data, lambdas)]
                    now.is_chain(floor, tag, data, lambdas) && node == (if lambdas.len() == 0 {
                        data
                    } else {
                        lambdas[0]
                    });
                assert(now.is_chain(lower, tag, data, lambdas));
            }
        },
        Term::Lambda(name, body) => {
            lemma_represents_floor(
                now,
                floor,
                lower,
                now.children[(node, Edge::Body)],
                *body,
                scope.push((name, node)),
            );
        },
        Term::With(name, value, body) => {
            lemma_represents_floor(
                now,
                floor,
                lower,
                now.children[(node, Edge::Parameter)],
                *value,
                scope,
            );
            lemma_represents_floor(
                now,
                floor,
                lower,
                now.children[(node, Edge::Body)],
                *body,
                scope.push((name, node)),
            );
        },
        Term::Apply(function, parameter) => {
            lemma_represents_floor(
                now,
                floor,
                lower,
                now.children[(node, Edge::Function)],
                *function,
                scope,
            );
            lemma_represents_floor(
                now,
                floor,
                lower,
                now.children[(node, Edge::Parameter)],
                *parameter,
                scope,
            );
        },
    }
}

/// A constructor that was built is a chain over the graph that it was
/// added to, and the graph holds nothing else that is new.
pub proof fn lemma_built_chain(
    before: GraphView,
    now: GraphView,
    tag: ConstructorTag,
    head: NodeId,
)
    requires
        before.linked(),
        now.has_constructor(before, tag, head),
    ensures
        now.heads_constructor(before, head, tag),
        now.nodes.dom() == before.nodes.dom().union(now.chain_set(head, tag.spec_arity())),
{
    let (data, lambdas) = choose|data: NodeId, lambdas: Seq<NodeId>|
        #![trigger now.built(before, tag, data, lambdas, 0)]
        now.built(before, tag, data, lambdas, 0) && head == (if lambdas.len() == 0 {
            data
        } else {
            lambdas[0]
        });
    assert forall|label: Edge| #[trigger]
        now.children.contains_key((data, label)) implies label is Binder && label->Binder_0
        < tag.spec_arity() by {
        let k = (data, label);
        if before.children.contains_key(k) {
            assert(before.nodes.contains_key(k.0));
        }
        if k.1 == Edge::Body && lambdas.contains(k.0) {
            let m = choose|m: int| 0 <= m < lambdas.len() && lambdas[m] == data;
            assert(lambdas[m] != data);
        }
    }
    assert forall|m: int| 0 <= m < lambdas.len() implies !before.nodes.contains_key(
        #[trigger] lambdas[m],
    ) && now.nodes.contains_key(lambdas[m]) && now.nodes[lambdas[m]] == (NodeView::Lambda {
        argument_name: tag.names()[m],
    }) && now.child(data, Edge::Binder(m as usize)) == Some(lambdas[m]) && now.child(
        lambdas[m],
        Edge::Body,
    ) == Some(
        if m + 1 < lambdas.len() {
            lambdas[m + 1]
        } else {
            data
        },
    ) && lambdas[m] != data && now.only(lambdas[m], Edge::Body, Edge::Body) by {
        assert(now.child(data, Edge::Binder((0 + m) as usize)) == Some(lambdas[m]));
        assert forall|label: Edge| #[trigger]
            now.children.contains_key((lambdas[m], label)) implies label == Edge::Body by {
            let k = (lambdas[m], label);
            if before.children.contains_key(k) {
                assert(before.nodes.contains_key(k.0));
            }
        }
    }
    assert(now.is_chain(before, tag, data, lambdas));
    lemma_chain_set(now, before, tag, data, lambdas, 0);
    assert(now.nodes.dom() =~= before.nodes.dom().union(chain_part(data, lambdas, 0))) by {
        assert forall|n: NodeId| now.nodes.dom().contains(n) <==> before.nodes.dom().union(
            chain_part(data, lambdas, 0),
        ).contains(n) by {
            lemma_chain_part_has(data, lambdas, 0, 0);
            if now.nodes.contains_key(n) && !before.nodes.contains_key(n) && n != data {
                assert(lambdas.contains(n));
                let j = choose|j: int| 0 <= j < lambdas.len() && lambdas[j] == n;
                lemma_chain_part_has(data, lambdas, 0, j);
            }
            if chain_part(data, lambdas, 0).contains(n) {
                lemma_chain_part_in(data, lambdas, 0, n);
                if n != data {
                    let j = choose|j: int| 0 <= j < lambdas.len() && #[trigger] lambdas[j] == n;
                    assert(now.nodes.contains_key(lambdas[j]));
                }
            }
            if before.nodes.contains_key(n) {
                assert(now.nodes.contains_key(n));
            }
        }
    }
}

/// A node that a graph did not have has no edge in a graph that the
/// first has grown into by a node with that index, and in what that has
/// grown into.
pub proof fn lemma_new_node_bare(
    before: GraphView,
    opened: GraphView,
    later: GraphView,
    node: NodeId,
    weight: NodeView,
)
    requires
        before.linked(),
        !before.nodes.contains_key(node),
        opened == before.with_node(node, weight),
        opened.extended_by(later),
    ensures
        later.bare(node),
        before.extended_by(opened),
{
    assert forall|label: Edge| !#[trigger] later.children.contains_key((node, label)) by {
        let k = (node, label);
        if later.children.contains_key(k) {
            assert(opened.nodes.contains_key(k.0));
            assert(opened.children.contains_key(k));
            assert(before.children.contains_key(k));
            assert(before.nodes.contains_key(k.0));
        }
    }
}

/// A lambda over an expression holds the lambda expression: `opened` is
/// `before` plus the lambda node, `parsed` is `opened` plus the body, and
/// `now` is `parsed` plus the body edge of the lambda.
pub proof fn lemma_lambda_holds(
    before: GraphView,
    opened: GraphView,
    parsed: GraphView,
    now: GraphView,
    lambda: NodeId,
    body: NodeId,
    name: Seq<char>,
    inner: Term,
    scope: Scope,
)
    requires
        before.linked(),
        !before.nodes.contains_key(lambda),
        opened == before.with_node(lambda, NodeView::Lambda { argument_name: name }),
        opened.extended_by(parsed),
        parsed.represents(opened, body, inner, scope.push((name, lambda))),
        parsed.nodes.dom() == opened.nodes.dom().union(
            parsed.footprint(body, inner, scope.push((name, lambda))),
        ),
        now == parsed.with_edge(lambda, Edge::Body, body),
    ensures
        now.represents(before, lambda, Term::Lambda(name, Box::new(inner)), scope),
        now.nodes.dom() == before.nodes.dom().union(
            now.footprint(lambda, Term::Lambda(name, Box::new(inner)), scope),
        ),
{
    let deeper = scope.push((name, lambda));
    lemma_new_node_bare(before, opened, parsed, lambda, NodeView::Lambda { argument_name: name });
    assert(parsed.framed_by(now, opened));
    lemma_represents_frame(parsed, now, opened, body, inner, deeper);
    lemma_footprint_fresh(now, opened, body, inner, deeper);
    lemma_represents_floor(now, opened, before, body, inner, deeper);
    assert(now.children[(lambda, Edge::Body)] == body);
    assert(now.only(lambda, Edge::Body, Edge::Body)) by {
        assert forall|label: Edge| #[trigger]
            now.children.contains_key((lambda, label)) implies label == Edge::Body by {
            if label != Edge::Body {
                assert(parsed.children.contains_key((lambda, label)));
            }
        }
    }
    assert(parsed.nodes.contains_key(lambda));
    assert(now.nodes[lambda] == opened.nodes[lambda]);
    let part = now.footprint(body, inner, deeper);
    assert(now.footprint(lambda, Term::Lambda(name, Box::new(inner)), scope) == part.insert(
        lambda,
    ));
    assert(now.nodes.dom() =~= before.nodes.dom().union(part.insert(lambda)));
}

/// A closure over a value and a body holds the binding: `valued` is
/// `before` plus the value, `opened` is `valued` plus the closure node,
/// `parsed` is `opened` plus the body, and `now` is `parsed` plus the
/// body edge and the parameter edge of the closure.
pub proof fn lemma_with_holds(
    before: GraphView,
    valued: GraphView,
    opened: GraphView,
    parsed: GraphView,
    now: GraphView,
    closure: NodeId,
    value: NodeId,
    body: NodeId,
    name: Seq<char>,
    bound: Term,
    inner: Term,
    scope: Scope,
)
    requires
        before.linked(),
        valued.linked(),
        before.extended_by(valued),
        valued.represents(before, value, bound, scope),
        valued.nodes.dom() == before.nodes.dom().union(valued.footprint(value, bound, scope)),
        !valued.nodes.contains_key(closure),
        opened == valued.with_node(closure, NodeView::Closure { argument_name: name }),
        opened.extended_by(parsed),
        parsed.represents(opened, body, inner, scope.push((name, closure))),
        parsed.nodes.dom() == opened.nodes.dom().union(
            parsed.footprint(body, inner, scope.push((name, closure))),
        ),
        now == parsed.with_edge(closure, Edge::Body, body).with_edge(
            closure,
            Edge::Parameter,
            value,
        ),
    ensures
        now.represents(
            before,
            closure,
            Term::With(name, Box::new(bound), Box::new(inner)),
            scope,
        ),
        now.nodes.dom() == before.nodes.dom().union(
            now.footprint(closure, Term::With(name, Box::new(bound), Box::new(inner)), scope),
        ),
{
    let deeper = scope.push((name, closure));
    lemma_new_node_bare(valued, opened, parsed, closure, NodeView::Closure { argument_name: name });
    lemma_footprint_fresh(valued, before, value, bound, scope);
    assert(valued.framed_by(now, before)) by {
        assert forall|k: (NodeId, Edge)| #[trigger]
            now.children.contains_key(k) && valued.nodes.contains_key(k.0)
                && !valued.children.contains_key(k) implies before.nodes.contains_key(k.0) by {
            assert(parsed.children.contains_key(k));
            assert(opened.nodes.contains_key(k.0));
            assert(opened.children.contains_key(k));
        }
        assert forall|k: (NodeId, Edge)| #[trigger]
            valued.children.contains_key(k) implies now.children.contains_key(k)
            && now.children[k] == valued.children[k] by {
            assert(opened.children.contains_key(k));
            assert(valued.nodes.contains_key(k.0));
        }
    }
    lemma_represents_frame(valued, now, before, value, bound, scope);
    assert(parsed.framed_by(now, opened));
    lemma_represents_frame(parsed, now, opened, body, inner, deeper);
    lemma_footprint_fresh(now, opened, body, inner, deeper);
    lemma_represents_floor(now, opened, before, body, inner, deeper);
    assert(now.children[(closure, Edge::Body)] == body);
    assert(now.children[(closure, Edge::Parameter)] == value);
    assert(now.only(closure, Edge::Parameter, Edge::Body)) by {
        assert forall|label: Edge| #[trigger]
            now.children.contains_key((closure, label)) implies label == Edge::Parameter || label
            == Edge::Body by {
            if label != Edge::Body && label != Edge::Parameter {
                assert(parsed.children.contains_key((closure, label)));
            }
        }
    }
    assert(parsed.nodes.contains_key(closure));
    assert(now.nodes[closure] == opened.nodes[closure]);
    let first = now.footprint(value, bound, scope);
    let second = now.footprint(body, inner, deeper);
    assert(first.disjoint(second)) by {
        assert forall|n: NodeId| !(first.contains(n) && second.contains(n)) by {
            if first.contains(n) && second.contains(n) {
                assert(valued.nodes.contains_key(n));
                assert(opened.nodes.contains_key(n));
            }
        }
    }
    assert(!first.contains(closure));
    assert(!second.contains(closure));
    assert(now.footprint(closure, Term::With(name, Box::new(bound), Box::new(inner)), scope)
        == first.union(second).insert(closure));
    assert(now.nodes.dom() =~= before.nodes.dom().union(first.union(second).insert(closure)));
}

/// An application node over two expressions holds the application:
/// `prior` is `before` plus the first expression, `parsed` is `prior` plus
/// the second, and `now` is `parsed` plus the application node with its
/// two edges. `swapped` tells that the second is the function.
pub proof fn lemma_apply_holds(
    before: GraphView,
    prior: GraphView,
    parsed: GraphView,
    now: GraphView,
    application: NodeId,
    lhs: NodeId,
    rhs: NodeId,
    left: Term,
    right: Term,
    scope: Scope,
    swapped: bool,
)
    requires
        before.linked(),
        prior.linked(),
        before.extended_by(prior),
        prior.represents(before, lhs, left, scope),
        prior.nodes.dom() == before.nodes.dom().union(prior.footprint(lhs, left, scope)),
        prior.extended_by(parsed),
        parsed.linked(),
        parsed.represents(prior, rhs, right, scope),
        parsed.nodes.dom() == prior.nodes.dom().union(parsed.footprint(rhs, right, scope)),
        !parsed.nodes.contains_key(application),
        now == parsed.with_node(application, NodeView::Application).with_edge(
            application,
            Edge::Function,
            if swapped {
                rhs
            } else {
                lhs
            },
        ).with_edge(
            application,
            Edge::Parameter,
            if swapped {
                lhs
            } else {
                rhs
            },
        ),
    ensures
        now.represents(
            before,
            application,
            if swapped {
                Term::Apply(Box::new(right), Box::new(left))
            } else {
                Term::Apply(Box::new(left), Box::new(right))
            },
            scope,
        ),
        now.nodes.dom() == before.nodes.dom().union(
            now.footprint(
                application,
                if swapped {
                    Term::Apply(Box::new(right), Box::new(left))
                } else {
                    Term::Apply(Box::new(left), Box::new(right))
                },
                scope,
            ),
        ),
{
    lemma_footprint_fresh(prior, before, lhs, left, scope);
    assert forall|label: Edge| !#[trigger] parsed.children.contains_key((application, label)) by {
        let k = (application, label);
        if parsed.children.contains_key(k) {
            assert(parsed.nodes.contains_key(k.0));
        }
    }
    assert(prior.framed_by(now, before)) by {
        assert forall|k: (NodeId, Edge)| #[trigger]
            now.children.contains_key(k) && prior.nodes.contains_key(k.0)
                && !prior.children.contains_key(k) implies before.nodes.contains_key(k.0) by {
            assert(parsed.nodes.contains_key(k.0));
            assert(parsed.children.contains_key(k));
        }
        assert forall|k: (NodeId, Edge)| #[trigger]
            prior.children.contains_key(k) implies now.children.contains_key(k)
            && now.children[k] == prior.children[k] by {
            assert(parsed.children.contains_key(k));
            assert(prior.nodes.contains_key(k.0));
        }
    }
    lemma_represents_frame(prior, now, before, lhs, left, scope);
    assert(parsed.framed_by(now, prior)) by {
        assert forall|k: (NodeId, Edge)| #[trigger]
            parsed.children.contains_key(k) implies now.children.contains_key(k)
            && now.children[k] == parsed.children[k] by {
            assert(parsed.nodes.contains_key(k.0));
        }
    }
    lemma_represents_frame(parsed, now, prior, rhs, right, scope);
    lemma_footprint_fresh(now, prior, rhs, right, scope);
    lemma_represents_floor(now, prior, before, rhs, right, scope);
    let first = now.footprint(lhs, left, scope);
    let second = now.footprint(rhs, right, scope);
    assert(first.disjoint(second)) by {
        assert forall|n: NodeId| !(first.contains(n) && second.contains(n)) by {
            if first.contains(n) && second.contains(n) {
                assert(prior.nodes.contains_key(n));
            }
        }
    }
    assert(!first.contains(application)) by {
        if first.contains(application) {
            assert(prior.nodes.contains_key(application));
        }
    }
    assert(!second.contains(application)) by {
        if second.contains(application) {
            assert(parsed.nodes.dom().contains(application));
        }
    }
    assert(now.only(application, Edge::Function, Edge::Parameter)) by {
        assert forall|label: Edge| #[trigger]
            now.children.contains_key((application, label)) implies label == Edge::Function
            || label == Edge::Parameter by {
            if label != Edge::Function && label != Edge::Parameter {
                assert(parsed.children.contains_key((application, label)));
            }
        }
    }
    assert(now.nodes[application] is Application);
    if swapped {
        assert(now.children[(application, Edge::Function)] == rhs);
        assert(now.children[(application, Edge::Parameter)] == lhs);
        assert(now.footprint(
            application,
            Term::Apply(Box::new(right), Box::new(left)),
            scope,
        ) == second.union(first).insert(application));
        assert(second.disjoint(first));
        assert(now.nodes.dom() =~= before.nodes.dom().union(
            second.union(first).insert(application),
        ));
    } else {
        assert(now.children[(application, Edge::Function)] == lhs);
        assert(now.children[(application, Edge::Parameter)] == rhs);
        assert(now.footprint(
            application,
            Term::Apply(Box::new(left), Box::new(right)),
            scope,
        ) == first.union(second).insert(application));
        assert(now.nodes.dom() =~= before.nodes.dom().union(
            first.union(second).insert(application),
        ));
    }
}

/// A constructor is a chain of its own: the body edge of each lambda
/// ends at the next lambda or at the data node, never at the head, and
/// no two body edges end at the same node.
pub proof fn lemma_chain_tree(
    now: GraphView,
    floor: GraphView,
    tag: ConstructorTag,
    data: NodeId,
    lambdas: Seq<NodeId>,
)
    requires
        now.is_chain(floor, tag, data, lambdas),
    ensures
        forall|k: (NodeId, Edge), n: NodeId|
            chain_part(data, lambdas, 0).contains(k.0) && #[trigger] now.owns(k, n)
                ==> chain_part(data, lambdas, 0).contains(n) && n != (if lambdas.len() == 0 {
                data
            } else {
                lambdas[0]
            }),
        forall|a: (NodeId, Edge), b: (NodeId, Edge), n: NodeId|
            chain_part(data, lambdas, 0).contains(a.0) && chain_part(data, lambdas, 0).contains(
                b.0,
            ) && #[trigger] now.owns(a, n) && #[trigger] now.owns(b, n) ==> a == b,
{
    assert forall|k: (NodeId, Edge), n: NodeId|
        chain_part(data, lambdas, 0).contains(k.0) && #[trigger] now.owns(k, n) implies exists|
        m: int,
    |
        0 <= m < lambdas.len() && #[trigger] lambdas[m] == k.0 && k.1 == Edge::Body && n == (
        if m + 1 < lambdas.len() {
            lambdas[m + 1]
        } else {
            data
        }) by {
        lemma_chain_part_in(data, lambdas, 0, k.0);
        if k.0 == data {
            assert(now.children.contains_key((data, k.1)));
        } else {
            let m = choose|m: int| 0 <= m < lambdas.len() && #[trigger] lambdas[m] == k.0;
            assert(now.children.contains_key((lambdas[m], k.1)));
            assert(now.child(lambdas[m], Edge::Body) == Some(
                if m + 1 < lambdas.len() {
                    lambdas[m + 1]
                } else {
                    data
                },
            ));
        }
    }
    assert forall|k: (NodeId, Edge), n: NodeId|
        chain_part(data, lambdas, 0).contains(k.0) && #[trigger] now.owns(
            k,
            n,
        ) implies chain_part(data, lambdas, 0).contains(n) && n != (if lambdas.len() == 0 {
        data
    } else {
        lambdas[0]
    }) by {
        let m = choose|m: int|
            0 <= m < lambdas.len() && #[trigger] lambdas[m] == k.0 && k.1 == Edge::Body && n
                == (if m + 1 < lambdas.len() {
                lambdas[m + 1]
            } else {
                data
            });
        lemma_chain_part_has(data, lambdas, 0, m + 1);
        if m + 1 < lambdas.len() {
            assert(lambdas[0] != lambdas[m + 1]);
        } else {
            assert(lambdas[0] != data);
        }
    }
    assert forall|a: (NodeId, Edge), b: (NodeId, Edge), n: NodeId|
        chain_part(data, lambdas, 0).contains(a.0) && chain_part(data, lambdas, 0).contains(b.0)
            && #[trigger] now.owns(a, n) && #[trigger] now.owns(b, n) implies a == b by {
        let i = choose|m: int|
            0 <= m < lambdas.len() && #[trigger] lambdas[m] == a.0 && a.1 == Edge::Body && n
                == (if m + 1 < lambdas.len() {
                lambdas[m + 1]
            } else {
                data
            });
        let j = choose|m: int|
            0 <= m < lambdas.len() && #[trigger] lambdas[m] == b.0 && b.1 == Edge::Body && n
                == (if m + 1 < lambdas.len() {
                lambdas[m + 1]
            } else {
                data
            });
        if i < j {
            if j + 1 < lambdas.len() {
                assert(lambdas[i + 1] != lambdas[j + 1]);
            } else {
                assert(lambdas[i + 1] != data);
            }
        }
        if j < i {
            if i + 1 < lambdas.len() {
                assert(lambdas[j + 1] != lambdas[i + 1]);
            } else {
                assert(lambdas[j + 1] != data);
            }
        }
    }
}

/// The expression at a node is a tree of its own. An edge that owns its
/// target and leaves a node of the expression ends at a node of the
/// expression, never at `node`; and no node of the expression has two
/// owners among its nodes.
pub proof fn lemma_expression_tree(
    now: GraphView,
    floor: GraphView,
    node: NodeId,
    term: Term,
    scope: Scope,
)
    requires
        now.represents(floor, node, term, scope),
    ensures
        forall|k: (NodeId, Edge), n: NodeId|
            now.footprint(node, term, scope).contains(k.0) && #[trigger] now.owns(k, n)
                ==> now.footprint(node, term, scope).contains(n) && n != node,
        forall|a: (NodeId, Edge), b: (NodeId, Edge), n: NodeId|
            now.footprint(node, term, scope).contains(a.0) && now.footprint(
                node,
                term,
                scope,
            ).contains(b.0) && #[trigger] now.owns(a, n) && #[trigger] now.owns(b, n) ==> a == b,
    decreases term,
{
    match term {
        Term::Name(name) => {
            if scope_find(scope, name) is None && tag_named(name) is Some {
                let tag = tag_named(name)->Some_0;
                let (data, lambdas) = choose|data: NodeId, lambdas: Seq<NodeId>|
                    #![trigger now.is_chain(floor, tag, data, lambdas)]
                    now.is_chain(floor, tag, data, lambdas) && node == (if lambdas.len() == 0 {
                        data
                    } else {
                        lambdas[0]
                    });
                lemma_chain_set(now, floor, tag, data, lambdas, 0);
                lemma_chain_tree(now, floor, tag, data, lambdas);
            } else {
                assert forall|k: (NodeId, Edge), n: NodeId|
                    now.footprint(node, term, scope).contains(k.0) && #[trigger] now.owns(
                        k,
                        n,
                    ) implies false by {
                    assert(now.children.contains_key((node, k.1)));
                }
            }
        },
        Term::Lambda(name, body) => {
            let deeper = scope.push((name, node));
            let below = now.children[(node, Edge::Body)];
            let part = now.footprint(below, *body, deeper);
            lemma_expression_tree(now, floor, below, *body, deeper);
            lemma_footprint_fresh(now, floor, below, *body, deeper);
            assert forall|k: (NodeId, Edge), n: NodeId|
                now.footprint(node, term, scope).contains(k.0) && #[trigger] now.owns(
                    k,
                    n,
                ) implies (if k.0 == node {
                k.1 == Edge::Body && n == below
            } else {
                part.contains(k.0) && part.contains(n) && n != below
            }) by {
                if k.0 == node {
                    assert(now.children.contains_key((node, k.1)));
                }
            }
        },
        Term::With(name, value, body) => {
            let deeper = scope.push((name, node));
            let held = now.children[(node, Edge::Parameter)];
            let below = now.children[(node, Edge::Body)];
            let first = now.footprint(held, *value, scope);
            let second = now.footprint(below, *body, deeper);
            lemma_expression_tree(now, floor, held, *value, scope);
            lemma_expression_tree(now, floor, below, *body, deeper);
            lemma_footprint_fresh(now, floor, held, *value, scope);
            lemma_footprint_fresh(now, floor, below, *body, deeper);
            assert forall|k: (NodeId, Edge), n: NodeId|
                now.footprint(node, term, scope).contains(k.0) && #[trigger] now.owns(
                    k,
                    n,
                ) implies (if k.0 == node {
                (k.1 == Edge::Body && n == below) || (k.1 == Edge::Parameter && n == held)
            } else if first.contains(k.0) {
                first.contains(n) && n != held
            } else {
                second.contains(k.0) && second.contains(n) && n != below
            }) by {
                if k.0 == node {
                    assert(now.children.contains_key((node, k.1)));
                }
            }
            assert(!(first.contains(held) && second.contains(held)));
            assert(!(first.contains(below) && second.contains(below)));
        },
        Term::Apply(function, parameter) => {
            let called = now.children[(node, Edge::Function)];
            let given = now.children[(node, Edge::Parameter)];
            let first = now.footprint(called, *function, scope);
            let second = now.footprint(given, *parameter, scope);
            lemma_expression_tree(now, floor, called, *function, scope);
            lemma_expression_tree(now, floor, given, *parameter, scope);
            lemma_footprint_fresh(now, floor, called, *function, scope);
            lemma_footprint_fresh(now, floor, given, *parameter, scope);
            assert forall|k: (NodeId, Edge), n: NodeId|
                now.footprint(node, term, scope).contains(k.0) && #[trigger] now.owns(
                    k,
                    n,
                ) implies (if k.0 == node {
                (k.1 == Edge::Function && n == called) || (k.1 == Edge::Parameter && n == given)
            } else if first.contains(k.0) {
                first.contains(n) && n != called
            } else {
                second.contains(k.0) && second.contains(n) && n != given
            }) by {
                if k.0 == node {
                    assert(now.children.contains_key((node, k.1)));
                }
            }
            assert(!(first.contains(called) && second.contains(called)));
            assert(!(first.contains(given) && second.contains(given)));
        },
    }
}

/// Each node of an expression that was added to a graph is owned by its
/// parent in the expression and by nothing else, and the node that holds
/// the whole expression has no owner: an edge that owns a node of the
/// expression leaves a node of the expression, and does not end at
/// `node`.
pub proof fn lemma_expression_owned(
    now: GraphView,
    before: GraphView,
    node: NodeId,
    term: Term,
    scope: Scope,
)
    requires
        before.linked(),
        now.linked(),
        before.extended_by(now),
        now.represents(before, node, term, scope),
        now.nodes.dom() == before.nodes.dom().union(now.footprint(node, term, scope)),
    ensures
        forall|k: (NodeId, Edge), n: NodeId|
            now.footprint(node, term, scope).contains(n) && #[trigger] now.owns(k, n)
                ==> now.footprint(node, term, scope).contains(k.0) && n != node,
        forall|a: (NodeId, Edge), b: (NodeId, Edge), n: NodeId|
            now.footprint(node, term, scope).contains(n) && #[trigger] now.owns(a, n)
                && #[trigger] now.owns(b, n) ==> a == b,
        forall|k: (NodeId, Edge)|
            #[trigger] now.children.contains_key(k) && k.1.is_binder() && now.footprint(
                node,
                term,
                scope,
            ).contains(now.children[k]) ==> now.footprint(node, term, scope).contains(k.0),
{
    lemma_expression_tree(now, before, node, term, scope);
    lemma_footprint_fresh(now, before, node, term, scope);
    let part = now.footprint(node, term, scope);
    assert forall|k: (NodeId, Edge)| #[trigger]
        now.children.contains_key(k) && part.contains(now.children[k]) implies part.contains(
        k.0,
    ) by {
        assert(now.nodes.dom().contains(k.0));
        if before.nodes.contains_key(k.0) {
            assert(before.children.contains_key(k));
            assert(before.nodes.contains_key(before.children[k]));
        }
    }
}

} // verus!
