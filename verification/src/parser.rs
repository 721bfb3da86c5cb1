//! From tokens to a graph.
//!
//! The grammar is juxtaposition for application (left-associative), `λx.e`
//! for abstraction, `with x v in e` for a binding, brackets, and `v | f`
//! for `f v` with a low binding power. A symbol is a bound variable where a
//! binder of that name is in scope, else a built-in tag, else a number,
//! else a free variable.
use vstd::prelude::*;
use crate::ast::ASTError;
use crate::ast::GraphView;
use crate::ast::NodeId;
use crate::ast::AST;
use crate::builder::lemma_extended_trans;
use crate::grammar::ends;
use crate::grammar::left_power;
use crate::grammar::lemma_built_chain;
use crate::grammar::lemma_represents_floor;
use crate::grammar::lemma_represents_frame;
use crate::grammar::parse_head;
use crate::grammar::parse_tail;
use crate::grammar::parse_term;
use crate::grammar::parse_text;
use crate::grammar::right_power;
use crate::grammar::scope_find;
use crate::grammar::behind_type;
use crate::grammar::Scope;
use crate::grammar::Term;
use crate::lexer::token_views;
use crate::lexer::TokenView;
use crate::integrity::lemma_integral_extended;
use crate::integrity::lemma_integral_with_edge;
use crate::lexer::characters;
use crate::lexer::lexer;
use crate::lexer::Token;
use crate::node::Edge;
use crate::node::Node;
use crate::node::NodeView;
use crate::node::Primitive;
use crate::node::VariableKind;
use crate::tags::ConstructorTag;
use crate::text::same_text;

verus! {

/// How strongly an operator binds what stands to its left and to its
/// right.
pub fn binding_power(token: &Token) -> (r: (usize, usize))
    ensures
        r == (if token@ is Pipe {
            (10usize, 11usize)
        } else {
            (100usize, 101usize)
        }),
{
    match token {
        Token::Pipe => (10, 11),
        _ => (100, 101),
    }
}

pub open spec fn is_digit(c: char) -> bool {
    '0' <= c <= '9'
}

/// The number that a sequence of decimal digits writes.
pub open spec fn digits_value(digits: Seq<char>) -> nat
    decreases digits.len(),
{
    if digits.len() == 0 {
        0
    } else {
        digits_value(digits.drop_last()) * 10 + (digits.last() as nat - '0' as nat) as nat
    }
}

/// The digits of a number as it is written: the text itself, or the text
/// behind a plus sign.
pub open spec fn digits_of(text: Seq<char>) -> Seq<char> {
    if text.len() > 0 && text[0] == '+' {
        text.skip(1)
    } else {
        text
    }
}

/// The number that a text writes, if it writes one: at least one decimal
/// digit, with or without a plus sign in front.
pub open spec fn number_of(text: Seq<char>) -> Option<nat> {
    let digits = digits_of(text);
    if digits.len() > 0 && forall|i: int| 0 <= i < digits.len() ==> is_digit(#[trigger] digits[i]) {
        Some(digits_value(digits))
    } else {
        None
    }
}

/// More digits do not write a smaller number.
pub proof fn lemma_digits_grow(digits: Seq<char>, i: int)
    requires
        0 <= i <= digits.len(),
    ensures
        digits_value(digits.take(i)) <= digits_value(digits),
    decreases digits.len() - i,
{
    if i < digits.len() {
        lemma_digits_grow(digits, i + 1);
        let longer = digits.take(i + 1);
        assert(longer.drop_last() =~= digits.take(i));
        assert(digits_value(longer) >= digits_value(digits.take(i))) by (nonlinear_arith)
            requires
                digits_value(longer) == digits_value(digits.take(i)) * 10 + (longer.last() as nat
                    - '0' as nat) as nat,
        ;
    } else {
        assert(digits.take(i) =~= digits);
    }
}

/// Reads a number as [`number_of`] defines it. A number beyond the
/// machine word is no number.
pub fn parse_number(text: &str) -> (r: Option<usize>)
    ensures
        r == (match number_of(text@) {
            Some(v) => if v <= usize::MAX {
                Some(v as usize)
            } else {
                None
            },
            None => None,
        }),
{
    let all = characters(text);
    let start: usize = if all.len() > 0 && all[0] == '+' {
        1
    } else {
        0
    };
    let ghost digits = digits_of(text@);
    proof {
        assert(digits =~= all@.skip(start as int));
    }
    if all.len() == start {
        return None;
    }
    let mut value: usize = 0;
    let mut i: usize = start;
    proof {
        assert(digits.take(0) =~= Seq::<char>::empty());
    }
    while i < all.len()
        invariant
            start <= i <= all.len(),
            all@ == text@,
            digits == digits_of(text@),
            digits == all@.skip(start as int),
            digits.len() == all@.len() - start,
            forall|j: int| 0 <= j < i - start ==> is_digit(#[trigger] digits[j]),
            value == digits_value(digits.take(i - start)),
        decreases all.len() - i,
    {
        let c = all[i];
        proof {
            assert(digits[i - start] == c);
        }
        if !(c >= '0' && c <= '9') {
            proof {
                assert(!is_digit(digits[i - start]));
            }
            return None;
        }
        let digit: usize = (c as u32 - '0' as u32) as usize;
        proof {
            let longer = digits.take(i - start + 1);
            assert(longer.drop_last() =~= digits.take(i - start));
            assert(longer.last() == c);
            assert(digits_value(longer) == value * 10 + digit);
            lemma_digits_grow(digits, i - start + 1);
        }
        value = match value.checked_mul(10) {
            Some(v) => match v.checked_add(digit) {
                Some(v) => v,
                None => {
                    return None;
                },
            },
            None => {
                return None;
            },
        };
        i += 1;
    }
    proof {
        assert(digits.take(digits.len() as int) =~= digits);
    }
    Some(value)
}

/// Every binder in scope is a lambda or a closure of the graph.
pub open spec fn scoped(v: GraphView, lambda_ctx: Seq<(String, NodeId)>) -> bool {
    forall|i: int| 0 <= i < lambda_ctx.len() ==> v.is_binder((#[trigger] lambda_ctx[i]).1)
}

/// What is in scope stays in scope when the graph grows.
pub proof fn lemma_scoped_extended(
    before: GraphView,
    now: GraphView,
    lambda_ctx: Seq<(String, NodeId)>,
)
    requires
        before.extended_by(now),
        scoped(before, lambda_ctx),
    ensures
        scoped(now, lambda_ctx),
{
    assert forall|i: int| 0 <= i < lambda_ctx.len() implies now.is_binder(
        (#[trigger] lambda_ctx[i]).1,
    ) by {
        assert(before.is_binder(lambda_ctx[i].1));
        assert(before.nodes.contains_key(lambda_ctx[i].1));
    }
}

/// The scope as the grammar sees it.
pub open spec fn scope_view(lambda_ctx: Seq<(String, NodeId)>) -> Scope {
    Seq::new(lambda_ctx.len(), |i: int| (lambda_ctx[i].0@, lambda_ctx[i].1))
}

/// The innermost binder in scope with this name.
fn find_binder(lambda_ctx: &Vec<(String, NodeId)>, name: &str) -> (r: Option<NodeId>)
    ensures
        r == scope_find(scope_view(lambda_ctx@), name@),
        r is Some ==> exists|i: int|
            0 <= i < lambda_ctx@.len() && (#[trigger] lambda_ctx@[i]).1 == r->Some_0,
{
    let mut i: usize = lambda_ctx.len();
    let ghost scope = scope_view(lambda_ctx@);
    proof {
        assert(scope.take(i as int) =~= scope);
    }
    while i > 0
        invariant
            0 <= i <= lambda_ctx.len(),
            scope == scope_view(lambda_ctx@),
            scope_find(scope, name@) == scope_find(scope.take(i as int), name@),
        decreases i,
    {
        i -= 1;
        proof {
            let prefix = scope.take(i + 1);
            assert(prefix.last() == scope[i as int]);
            assert(prefix.drop_last() =~= scope.take(i as int));
        }
        if same_text(lambda_ctx[i].0.as_str(), name) {
            return Some(lambda_ctx[i].1);
        }
    }
    proof {
        assert(scope.take(0).len() == 0);
    }
    None
}

/// A syntax error unless the token at `position` is a symbol; its name
/// otherwise, with `position` behind it.
fn expect_symbol(tokens: &Vec<Token>, position: &mut usize, message: &'static str) -> (r: Result<
    String,
    ASTError,
>)
    requires
        *old(position) <= tokens.len(),
    ensures
        *old(position) <= *final(position) <= tokens.len(),
        match r {
            Ok(name) => *old(position) < tokens.len() && tokens@[*old(position) as int]@
                == TokenView::Symbol(name@) && *final(position) == *old(position) + 1,
            Err(e) => e is Syntax && !(*old(position) < tokens.len() && tokens@[*old(
                position,
            ) as int]@ is Symbol) && *final(position) == *old(position),
        },
{
    if *position < tokens.len() {
        match &tokens[*position] {
            Token::Symbol(name) => {
                let name = name.clone();
                *position = *position + 1;
                return Ok(name);
            },
            _ => {},
        }
    }
    Err(ASTError::Syntax(*position, message))
}

/// What a token is, for the parser.
#[derive(Clone, Copy, PartialEq, Eq, Structural)]
pub enum Shape {
    Symbol,
    OpenParen,
    CloseParen,
    Lambda,
    Dot,
    Pipe,
    With,
    In,
    Colon,
    Eof,
}

/// The shape of a token as the grammar sees it.
pub open spec fn shape_view(token: TokenView) -> Shape {
    match token {
        TokenView::Symbol(_) => Shape::Symbol,
        TokenView::OpenParen => Shape::OpenParen,
        TokenView::CloseParen => Shape::CloseParen,
        TokenView::Lambda => Shape::Lambda,
        TokenView::Dot => Shape::Dot,
        TokenView::Pipe => Shape::Pipe,
        TokenView::With => Shape::With,
        TokenView::In => Shape::In,
        TokenView::Colon => Shape::Colon,
        TokenView::Eof => Shape::Eof,
    }
}

fn shape_of(token: &Token) -> (r: Shape)
    ensures
        r == shape_view(token@),
{
    match token {
        Token::Symbol(_) => Shape::Symbol,
        Token::OpenParen => Shape::OpenParen,
        Token::CloseParen => Shape::CloseParen,
        Token::Lambda => Shape::Lambda,
        Token::Dot => Shape::Dot,
        Token::Pipe => Shape::Pipe,
        Token::With => Shape::With,
        Token::In => Shape::In,
        Token::Colon => Shape::Colon,
        Token::Eof => Shape::Eof,
    }
}

/// A syntax error unless the token at `position` has the shape `shape`;
/// otherwise `position` moves behind it.
fn expect(tokens: &Vec<Token>, position: &mut usize, shape: Shape, message: &'static str) -> (r:
    Result<(), ASTError>)
    requires
        *old(position) <= tokens.len(),
    ensures
        *old(position) <= *final(position) <= tokens.len(),
        match r {
            Ok(_) => *old(position) < tokens.len() && shape_view(
                tokens@[*old(position) as int]@,
            ) == shape && *final(position) == *old(position) + 1,
            Err(e) => e is Syntax && !(*old(position) < tokens.len() && shape_view(
                tokens@[*old(position) as int]@,
            ) == shape) && *final(position) == *old(position),
        },
{
    if *position < tokens.len() && shape_of(&tokens[*position]) == shape {
        *position = *position + 1;
        Ok(())
    } else {
        Err(ASTError::Syntax(*position, message))
    }
}

/// Adding an edge out of a node that a graph did not have keeps a later
/// graph an extension of it.
pub proof fn lemma_extended_with_edge(
    before: GraphView,
    later: GraphView,
    source: NodeId,
    label: Edge,
    target: NodeId,
)
    requires
        before.linked(),
        before.extended_by(later),
        !before.nodes.contains_key(source),
    ensures
        before.extended_by(later.with_edge(source, label, target)),
{
    let now = later.with_edge(source, label, target);
    assert forall|k: (NodeId, Edge)| #[trigger] before.children.contains_key(k) implies (
    now.children.contains_key(k) && now.children[k] == before.children[k]) by {
        assert(before.nodes.contains_key(k.0));
    }
}

/// Adding a node that a later graph did not have keeps it an extension.
pub proof fn lemma_extended_with_node(
    before: GraphView,
    later: GraphView,
    node: NodeId,
    weight: NodeView,
)
    requires
        before.extended_by(later),
        !later.nodes.contains_key(node),
    ensures
        before.extended_by(later.with_node(node, weight)),
{
}

/// No built-in tag takes more than four arguments.
pub proof fn lemma_builtin_arity(name: Seq<char>)
    ensures
        crate::tags::tag_named(name) is Some ==> crate::tags::tag_named(name)->Some_0.spec_arity()
            <= 4,
{
}

impl AST {
    /// Adds what a symbol stands for: a variable bound to the innermost
    /// binder of that name in scope, else a saturated constructor for the
    /// built-in tag of that name, else a number, else a free variable.
    /// That takes at most five nodes and eight edges; with room for them,
    /// and with lambdas and closures in scope, it succeeds. Nothing else
    /// is added.
    pub fn add_symbol(&mut self, name: &String, lambda_ctx: &Vec<(String, NodeId)>) -> (r: Result<
        NodeId,
        ASTError,
    >)
        requires
            old(self).wf(),
        ensures
            final(self).wf(),
            old(self)@.extended_by(final(self)@),
            r is Ok ==> final(self)@.nodes.contains_key(r->Ok_0) && !old(self)@.nodes.contains_key(
                r->Ok_0,
            ) && final(self)@.holds_name(old(self)@, r->Ok_0, name@, scope_view(lambda_ctx@)),
            r is Err ==> !(r->Err_0 is Syntax),
            r is Ok && old(self)@.integral() && scoped(old(self)@, lambda_ctx@) ==> final(self)@.integral(),
            r is Ok ==> final(self)@.nodes.dom() == old(self)@.nodes.dom().union(
                final(self)@.footprint(r->Ok_0, Term::Name(name@), scope_view(lambda_ctx@)),
            ),
            r is Ok ==> final(self).grown_at_most(*old(self), 5, 8),
            scoped(old(self)@, lambda_ctx@) && old(self).has_room(5, 8) ==> r is Ok,
            scoped(old(self)@, lambda_ctx@) && r is Err ==> r->Err_0 is Full,
    {
        proof {
            self.lemma_linked();
            lemma_builtin_arity(name@);
        }
        match find_binder(lambda_ctx, name.as_str()) {
            Some(binder) => self.add_reference(binder),
            None => match ConstructorTag::from_str(name.as_str()) {
                Some(tag) => {
                    let head = self.add_constructor(tag)?;
                    proof {
                        lemma_built_chain(old(self)@, self@, tag, head);
                        let (data, lambdas) = choose|data: NodeId, lambdas: Seq<NodeId>|
                            #![trigger self@.is_chain(old(self)@, tag, data, lambdas)]
                            self@.is_chain(old(self)@, tag, data, lambdas) && head == (
                            if lambdas.len() == 0 {
                                data
                            } else {
                                lambdas[0]
                            });
                    }
                    Ok(head)
                },
                None => {
                    let added = match parse_number(name.as_str()) {
                        Some(number) => self.add_node(Node::Primitive(Primitive::Number(number))),
                        None => self.add_node(Node::Variable(VariableKind::Free(name.clone()))),
                    };
                    proof {
                        if added is Ok && old(self)@.integral() {
                            assert(self@.sound_at(added->Ok_0));
                            lemma_integral_extended(old(self)@, self@);
                        }
                    }
                    added
                },
            },
        }
    }

    /// A graph without nodes.
    pub open spec fn blank() -> GraphView {
        GraphView {
            nodes: Map::empty(),
            children: Map::empty(),
            root: 0,
            focus: 0,
            next_uid: 0,
        }
    }

    /// Parses a whole text into a fresh graph whose root is the
    /// expression. The graph holds the expression and nothing else: its
    /// nodes are those of [`GraphView::footprint`], each with the edges of
    /// its kind and no other, see [`GraphView::represents`]. A text whose expression fits the graph for certain, at
    /// ten edges for each token, is parsed exactly when the grammar reads
    /// an expression at its start.
    /// It fails with a syntax error only where the grammar reads none.
    pub fn from_str(s: &str) -> (r: Result<Self, ASTError>)
        ensures
            r is Ok ==> r->Ok_0.wf() && r->Ok_0@.nodes.contains_key(r->Ok_0@.root)
                && r->Ok_0@.integral() && r->Ok_0@.well_bound(),
            r is Ok ==> parse_text(s@) is Some && r->Ok_0@.represents(
                AST::blank(),
                r->Ok_0@.root,
                parse_text(s@)->Some_0,
                Seq::empty(),
            ),
            parse_text(s@) is None ==> r is Err,
            r is Ok ==> r->Ok_0@.nodes.dom() == r->Ok_0@.footprint(
                r->Ok_0@.root,
                parse_text(s@)->Some_0,
                Seq::empty(),
            ) && r->Ok_0@.next_uid == 0 && r->Ok_0@.focus == 0,
            10 * crate::lexer::tokens_of(s@).len() <= u32::MAX ==> (r is Ok <==> parse_text(s@)
                is Some),
            r is Err ==> (r->Err_0 is Syntax && parse_text(s@) is None) || (r->Err_0 is Full && 10
                * crate::lexer::tokens_of(s@).len() > u32::MAX),
    {
        let mut ast = AST::new();
        let ghost empty = ast@;
        proof {
            assert(ast@.integral());
        }
        let root = ast.add_expr_from_str(s)?;
        let ghost parsed = ast@;
        ast.set_root(root);
        proof {
            crate::integrity::lemma_integral_same_graph(parsed, ast@);
            crate::integrity::lemma_integral_bound(ast@);
            assert(parsed.framed_by(ast@, empty));
            lemma_represents_frame(
                parsed,
                ast@,
                empty,
                root,
                parse_text(s@)->Some_0,
                Seq::empty(),
            );
            lemma_represents_floor(
                ast@,
                empty,
                AST::blank(),
                root,
                parse_text(s@)->Some_0,
                Seq::empty(),
            );
        }
        Ok(ast)
    }

    /// Parses a text and adds the expression to the graph. What was there
    /// before is untouched, and nothing is added but the nodes of the
    /// expression, see [`GraphView::footprint`], each with the edges of
    /// its kind and no other.
    ///
    /// An expression takes at most six nodes and ten edges for each token
    /// of the text. With room for that many, the text is parsed exactly
    /// when the grammar reads an expression at its start.
    /// It fails with a syntax error only where the grammar reads none, and
    /// otherwise only for want of room.
    pub fn add_expr_from_str(&mut self, s: &str) -> (r: Result<NodeId, ASTError>)
        requires
            old(self).wf(),
        ensures
            final(self).wf(),
            old(self)@.extended_by(final(self)@),
            r is Ok ==> final(self)@.nodes.contains_key(r->Ok_0),
            r is Ok && old(self)@.integral() ==> final(self)@.integral(),
            r is Ok ==> parse_text(s@) is Some && final(self)@.represents(
                old(self)@,
                r->Ok_0,
                parse_text(s@)->Some_0,
                Seq::empty(),
            ),
            parse_text(s@) is None ==> r is Err,
            r is Ok ==> final(self)@.nodes.dom() == old(self)@.nodes.dom().union(
                final(self)@.footprint(r->Ok_0, parse_text(s@)->Some_0, Seq::empty()),
            ),
            old(self).has_room(
                6 * crate::lexer::tokens_of(s@).len(),
                10 * crate::lexer::tokens_of(s@).len(),
            ) ==> (r is Ok <==> parse_text(s@) is Some),
            r is Err ==> (r->Err_0 is Syntax && parse_text(s@) is None) || (r->Err_0 is Full && !old(
                self,
            ).has_room(
                6 * crate::lexer::tokens_of(s@).len(),
                10 * crate::lexer::tokens_of(s@).len(),
            )),
    {
        let tokens = lexer(s);
        let mut position: usize = 0;
        let mut lambda_ctx: Vec<(String, NodeId)> = Vec::new();
        proof {
            assert(scope_view(lambda_ctx@) =~= Seq::empty());
            assert(token_views(tokens@).len() == tokens@.len());
        }
        parse_expr(self, &tokens, &mut position, 0, &mut lambda_ctx)
    }
}

/// Parses one expression from `position` on and adds it to the graph.
/// Operators that bind less than `min_binding_power` end it, as do a
/// closing bracket, `in` and the end of the text. `lambda_ctx` holds the
/// binders in scope, innermost last.
///
/// The expression is the one that the grammar reads there, see
/// [`parse_term`], and the node that is returned holds it, see
/// [`GraphView::represents`]. The nodes that are added are those of the
/// expression and no other, see [`GraphView::footprint`].
///
/// It takes at most six nodes and ten edges for each token that it reads.
/// With the binders in scope being lambdas or closures, it fails only with
/// a syntax error or for want of room; with room for six nodes and ten
/// edges for each token that is left, only with a syntax error.
#[verifier::rlimit(60)]
pub fn parse_expr(
    ast: &mut AST,
    tokens: &Vec<Token>,
    position: &mut usize,
    min_binding_power: usize,
    lambda_ctx: &mut Vec<(String, NodeId)>,
) -> (r: Result<NodeId, ASTError>)
    requires
        old(ast).wf(),
        *old(position) <= tokens.len(),
    ensures
        final(ast).wf(),
        old(ast)@.extended_by(final(ast)@),
        *old(position) <= *final(position) <= tokens.len(),
        final(lambda_ctx)@ == old(lambda_ctx)@,
        r is Ok ==> final(ast)@.nodes.contains_key(r->Ok_0) && *old(position) < *final(position),
        r is Ok && old(ast)@.integral() && scoped(old(ast)@, old(lambda_ctx)@) ==> final(ast)@.integral(),
        r is Ok ==> parse_term(
            token_views(tokens@),
            *old(position) as nat,
            min_binding_power as nat,
        ) is Some && parse_term(
            token_views(tokens@),
            *old(position) as nat,
            min_binding_power as nat,
        )->Some_0.1 == *final(position) && final(ast)@.represents(
            old(ast)@,
            r->Ok_0,
            parse_term(
                token_views(tokens@),
                *old(position) as nat,
                min_binding_power as nat,
            )->Some_0.0,
            scope_view(old(lambda_ctx)@),
        ),
        r is Err && r->Err_0 is Syntax ==> parse_term(
            token_views(tokens@),
            *old(position) as nat,
            min_binding_power as nat,
        ) is None,
        r is Ok ==> final(ast)@.nodes.dom() == old(ast)@.nodes.dom().union(
            final(ast)@.footprint(
                r->Ok_0,
                parse_term(
                    token_views(tokens@),
                    *old(position) as nat,
                    min_binding_power as nat,
                )->Some_0.0,
                scope_view(old(lambda_ctx)@),
            ),
        ),
        r is Ok ==> final(ast).grown_at_most(
            *old(ast),
            6 * (*final(position) - *old(position)) - 1,
            10 * (*final(position) - *old(position)) - 2,
        ),
        scoped(old(ast)@, old(lambda_ctx)@) && old(ast).has_room(
            (6 * (tokens.len() - *old(position))) as nat,
            (10 * (tokens.len() - *old(position))) as nat,
        ) && r is Err ==> r->Err_0 is Syntax,
        scoped(old(ast)@, old(lambda_ctx)@) && r is Err ==> r->Err_0 is Syntax || r->Err_0 is Full,
    decreases tokens.len() - *old(position),
{
    let start: usize = *position;
    let ghost before = ast@;
    let ghost sound = ast@.integral() && scoped(ast@, lambda_ctx@);
    let ghost in_scope = scoped(ast@, lambda_ctx@);
    let ghost roomy = scoped(ast@, lambda_ctx@) && ast.has_room(
        (6 * (tokens.len() - start)) as nat,
        (10 * (tokens.len() - start)) as nat,
    );
    let ghost views = token_views(tokens@);
    let ghost scope = scope_view(lambda_ctx@);
    let ghost mut left: Term = Term::Name(Seq::empty());
    proof {
        ast.lemma_linked();
        assert(views.len() == tokens@.len());
        assert forall|i: int| 0 <= i < views.len() implies #[trigger] views[i] == tokens@[i]@ by {}
    }
    if start >= tokens.len() {
        return Err(ASTError::Syntax(start, "unexpected end of input"));
    }
    let mut lhs = match &tokens[start] {
        Token::Symbol(name) => {
            *position = start + 1;
            let node = ast.add_symbol(name, lambda_ctx)?;
            proof {
                left = Term::Name(name@);
            }
            node
        },
        Token::Lambda => {
            *position = start + 1;
            let name = expect_symbol(tokens, position, "expected a variable name")?;
            if *position < tokens.len() && shape_of(&tokens[*position]) == Shape::Colon {
                *position = *position + 1;
                let _ = expect_symbol(tokens, position, "expected a type")?;
            }
            let ghost dot = *position;
            proof {
                assert(behind_type(views, (start + 2) as nat) == Some(dot as nat));
            }
            expect(tokens, position, Shape::Dot, "expected a dot")?;
            let ghost spelled = name@;
            let lambda = match ast.add_node(Node::Lambda { argument_name: name.clone() }) {
                Ok(lambda) => lambda,
                Err(e) => {
                    return Err(ASTError::Full);
                },
            };
            let ghost opened = ast@;
            proof {
                if sound {
                    assert(opened.sound_at(lambda));
                    lemma_integral_extended(before, opened);
                }
                if sound || in_scope {
                    lemma_scoped_extended(before, opened, lambda_ctx@);
                }
            }
            lambda_ctx.push((name, lambda));
            proof {
                assert(lambda_ctx@.drop_last() =~= old(lambda_ctx)@);
                assert(scope_view(lambda_ctx@) =~= scope.push((spelled, lambda)));
                if sound || in_scope {
                    assert forall|i: int| 0 <= i < lambda_ctx@.len() implies opened.is_binder(
                        (#[trigger] lambda_ctx@[i]).1,
                    ) by {
                        if i < lambda_ctx@.len() - 1 {
                            assert(lambda_ctx@[i] == old(lambda_ctx)@[i]);
                        }
                    }
                }
            }
            let body = parse_expr(ast, tokens, position, 0, lambda_ctx);
            let _ = lambda_ctx.pop();
            proof {
                lemma_extended_trans(before, opened, ast@);
                assert(lambda_ctx@ =~= old(lambda_ctx)@);
            }
            let body = body?;
            let ghost parsed = ast@;
            let ghost inner = parse_term(views, (dot + 1) as nat, 0)->Some_0.0;
            proof {
                ast.lemma_linked();
                assert(opened.nodes.contains_key(lambda));
                assert(parsed.nodes.contains_key(lambda));
            }
            match ast.add_edge(lambda, body, Edge::Body) {
                Ok(_) => {
                    proof {
                        lemma_extended_with_edge(before, parsed, lambda, Edge::Body, body);
                        if sound {
                            lemma_integral_with_edge(parsed, lambda, Edge::Body, body);
                        }
                        crate::grammar::lemma_lambda_holds(
                            before,
                            opened,
                            parsed,
                            ast@,
                            lambda,
                            body,
                            spelled,
                            inner,
                            scope,
                        );
                        left = Term::Lambda(spelled, Box::new(inner));
                    }
                },
                Err(e) => {
                    return Err(ASTError::Full);
                },
            }
            lambda
        },
        Token::OpenParen => {
            *position = start + 1;
            let inner = parse_expr(ast, tokens, position, 0, lambda_ctx)?;
            expect(tokens, position, Shape::CloseParen, "expected a closing bracket")?;
            proof {
                left = parse_term(views, (start + 1) as nat, 0)->Some_0.0;
            }
            inner
        },
        Token::With => {
            *position = start + 1;
            let name = expect_symbol(tokens, position, "expected a variable name")?;
            let ghost spelled = name@;
            let value = parse_expr(ast, tokens, position, 0, lambda_ctx)?;
            let ghost valued = ast@;
            let ghost middle = *position;
            let ghost bound = parse_term(views, (start + 2) as nat, 0)->Some_0.0;
            proof {
                ast.lemma_linked();
            }
            match expect(tokens, position, Shape::In, "expected `in`") {
                Ok(_) => {},
                Err(e) => {
                    return Err(e);
                },
            }
            let closure = match ast.add_node(Node::Closure { argument_name: name.clone() }) {
                Ok(closure) => closure,
                Err(e) => {
                    return Err(ASTError::Full);
                },
            };
            let ghost opened = ast@;
            let ghost raised = before.with_node(closure, opened.nodes[closure]);
            proof {
                lemma_extended_with_node(before, valued, closure, opened.nodes[closure]);
                if sound {
                    assert(opened.sound_at(closure));
                    lemma_integral_extended(valued, opened);
                }
                if sound || in_scope {
                    lemma_scoped_extended(before, opened, lambda_ctx@);
                }
            }
            lambda_ctx.push((name, closure));
            proof {
                assert(lambda_ctx@.drop_last() =~= old(lambda_ctx)@);
                assert(scope_view(lambda_ctx@) =~= scope.push((spelled, closure)));
                if sound || in_scope {
                    assert forall|i: int| 0 <= i < lambda_ctx@.len() implies opened.is_binder(
                        (#[trigger] lambda_ctx@[i]).1,
                    ) by {
                        if i < lambda_ctx@.len() - 1 {
                            assert(lambda_ctx@[i] == old(lambda_ctx)@[i]);
                        }
                    }
                }
            }
            let body = parse_expr(ast, tokens, position, 0, lambda_ctx);
            let _ = lambda_ctx.pop();
            proof {
                lemma_extended_trans(before, opened, ast@);
                assert(lambda_ctx@ =~= old(lambda_ctx)@);
            }
            let body = body?;
            let ghost parsed = ast@;
            let ghost inner = parse_term(views, (middle + 1) as nat, 0)->Some_0.0;
            proof {
                ast.lemma_linked();
                assert(valued.nodes.contains_key(value));
                assert(opened.nodes.contains_key(value));
                assert(opened.nodes.contains_key(closure));
                assert(parsed.nodes.contains_key(closure));
                assert(parsed.nodes.contains_key(value));
            }
            match ast.add_edge(closure, body, Edge::Body) {
                Ok(_) => {},
                Err(e) => {
                    return Err(ASTError::Full);
                },
            }
            let ghost bodied = ast@;
            proof {
                lemma_extended_with_edge(before, parsed, closure, Edge::Body, body);
                if sound {
                    lemma_integral_with_edge(parsed, closure, Edge::Body, body);
                }
            }
            match ast.add_edge(closure, value, Edge::Parameter) {
                Ok(_) => {},
                Err(e) => {
                    return Err(ASTError::Full);
                },
            }
            proof {
                lemma_extended_with_edge(before, bodied, closure, Edge::Parameter, value);
                if sound {
                    lemma_integral_with_edge(bodied, closure, Edge::Parameter, value);
                }
                crate::grammar::lemma_with_holds(
                    before,
                    valued,
                    opened,
                    parsed,
                    ast@,
                    closure,
                    value,
                    body,
                    spelled,
                    bound,
                    inner,
                    scope,
                );
                left = Term::With(spelled, Box::new(bound), Box::new(inner));
            }
            closure
        },
        _ => {
            return Err(ASTError::Syntax(start, "unexpected token"));
        },
    };
    proof {
        assert(parse_head(views, start as nat) == Some((left, *position as nat)));
    }
    loop
        invariant
            ast.wf(),
            before == old(ast)@,
            before.linked(),
            before.extended_by(ast@),
            start == *old(position),
            start < *position <= tokens.len(),
            lambda_ctx@ == old(lambda_ctx)@,
            ast@.nodes.contains_key(lhs),
            sound == (before.integral() && scoped(before, old(lambda_ctx)@)),
            sound ==> ast@.integral(),
            in_scope == scoped(before, old(lambda_ctx)@),
            roomy == (scoped(before, old(lambda_ctx)@) && old(ast).has_room(
                (6 * (tokens.len() - start)) as nat,
                (10 * (tokens.len() - start)) as nat,
            )),
            ast.grown_at_most(*old(ast), 6 * (*position - start) - 1, 10 * (*position - start) - 2),
            views == token_views(tokens@),
            scope == scope_view(old(lambda_ctx)@),
            ast@.represents(before, lhs, left, scope),
            ast@.nodes.dom() == before.nodes.dom().union(ast@.footprint(lhs, left, scope)),
            parse_term(views, start as nat, min_binding_power as nat) == parse_tail(
                views,
                *position as nat,
                min_binding_power as nat,
                left,
            ),
        decreases tokens.len() - *position,
    {
        if *position >= tokens.len() {
            return Err(ASTError::Syntax(*position, "unexpected end of input"));
        }
        let here: usize = *position;
        let next = &tokens[here];
        let shape = shape_of(next);
        proof {
            assert(views[here as int] == tokens@[here as int]@);
        }
        if shape == Shape::Eof || shape == Shape::CloseParen || shape == Shape::In {
            return Ok(lhs);
        }
        let (left_binding, right_binding) = binding_power(next);
        if left_binding < min_binding_power {
            return Ok(lhs);
        }
        // Some tokens we have to consume
        if shape == Shape::Pipe || shape == Shape::Colon {
            *position = *position + 1;
        }
        let ghost prior = ast@;
        proof {
            ast.lemma_linked();
            if sound || in_scope {
                lemma_scoped_extended(before, prior, lambda_ctx@);
            }
        }
        let rhs = match parse_expr(ast, tokens, position, right_binding, lambda_ctx) {
            Ok(rhs) => rhs,
            Err(e) => {
                proof {
                    lemma_extended_trans(before, prior, ast@);
                }
                return Err(e);
            },
        };
        let ghost parsed = ast@;
        let ghost right = parse_term(
            views,
            (if shape == Shape::Pipe || shape == Shape::Colon {
                here + 1
            } else {
                here as int
            }) as nat,
            right_binding as nat,
        )->Some_0.0;
        proof {
            lemma_extended_trans(before, prior, parsed);
            ast.lemma_linked();
            assert(parsed.nodes.contains_key(lhs));
        }
        // A bar swaps the two sides: `value | f` is `f value`.
        let application = if shape == Shape::Pipe {
            ast.add_application(rhs, lhs)
        } else {
            ast.add_application(lhs, rhs)
        };
        proof {
            lemma_extended_trans(before, parsed, ast@);
        }
        let application = match application {
            Ok(application) => application,
            Err(e) => {
                return Err(ASTError::Full);
            },
        };
        proof {
            crate::grammar::lemma_apply_holds(
                before,
                prior,
                parsed,
                ast@,
                application,
                lhs,
                rhs,
                left,
                right,
                scope,
                shape == Shape::Pipe,
            );
            left = if shape == Shape::Pipe {
                Term::Apply(Box::new(right), Box::new(left))
            } else {
                Term::Apply(Box::new(left), Box::new(right))
            };
        }
        lhs = application;
    }
}

} // verus!
