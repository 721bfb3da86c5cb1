//! Writing a graph down as an expression.
use vstd::prelude::*;
use vstd::string::StringExecFns;
use crate::ast::ASTError;
use crate::ast::GraphView;
use crate::ast::NodeId;
use crate::ast::AST;
use crate::node::Edge;
use crate::node::Node;
use crate::node::NodeView;
use crate::node::Primitive;
use crate::node::PrimitiveView;
use crate::node::VariableKind;
use crate::node::VariableKindView;
use crate::parser::digits_of;
use crate::parser::digits_value;
use crate::parser::is_digit;
use crate::parser::number_of;
use crate::tags::tag_named;
use crate::tags::ArithmeticTag;
use crate::tags::ConstructorTag;
use crate::tags::HelperFunctionTag;
use crate::tags::IOTag;

verus! {

/// The decimal digit for a number below ten.
pub open spec fn digit_of(d: nat) -> Seq<char> {
    if d == 0 {
        "0"@
    } else if d == 1 {
        "1"@
    } else if d == 2 {
        "2"@
    } else if d == 3 {
        "3"@
    } else if d == 4 {
        "4"@
    } else if d == 5 {
        "5"@
    } else if d == 6 {
        "6"@
    } else if d == 7 {
        "7"@
    } else if d == 8 {
        "8"@
    } else {
        "9"@
    }
}

/// A number in decimal digits, without leading zeros.
pub open spec fn decimal_of(n: nat) -> Seq<char>
    decreases n,
{
    if n < 10 {
        digit_of(n)
    } else {
        decimal_of(n / 10) + digit_of(n % 10)
    }
}

/// `count` times two blanks.
pub open spec fn indent_of(count: nat) -> Seq<char>
    decreases count,
{
    if count == 0 {
        Seq::empty()
    } else {
        indent_of((count - 1) as nat) + "  "@
    }
}

/// One level of indentation more; the machine word bounds the levels.
pub open spec fn deeper(tab_index: nat) -> nat {
    if tab_index < usize::MAX {
        tab_index + 1
    } else {
        tab_index
    }
}

/// Bytes as decimal numbers, each with a blank in front.
pub open spec fn bytes_shown(bytes: Seq<u8>) -> Seq<char>
    decreases bytes.len(),
{
    if bytes.len() == 0 {
        Seq::empty()
    } else {
        bytes_shown(bytes.drop_last()) + " "@ + decimal_of(bytes.last() as nat)
    }
}

/// The name of a tag: the name of the surface syntax for a built-in tag,
/// `CustomTag` and the identifier for a user-defined one.
pub open spec fn tag_name(tag: ConstructorTag) -> Seq<char> {
    match tag {
        ConstructorTag::CustomTag { uid, .. } => "CustomTag"@ + decimal_of(uid as nat),
        ConstructorTag::HelperFunction(HelperFunctionTag::CreateConstructor) => "#constructor"@,
        ConstructorTag::HelperFunction(HelperFunctionTag::Match) => "#match"@,
        ConstructorTag::Arithmetic(ArithmeticTag::Eq) => "=num"@,
        ConstructorTag::Arithmetic(ArithmeticTag::Add) => "+"@,
        ConstructorTag::Arithmetic(ArithmeticTag::Sub) => "-"@,
        ConstructorTag::Arithmetic(ArithmeticTag::Mul) => "*"@,
        ConstructorTag::Arithmetic(ArithmeticTag::Div) => "/"@,
        ConstructorTag::Arithmetic(ArithmeticTag::Pow) => "^"@,
        ConstructorTag::IO(IOTag::ReadLine) => "#io_readline"@,
        ConstructorTag::IO(IOTag::Print) => "#io_print"@,
        ConstructorTag::IO(IOTag::Flatmap) => "#io_flatmap"@,
    }
}

/// A decimal digit is one character, which stands for the digit.
pub proof fn lemma_digit(d: nat)
    requires
        d < 10,
    ensures
        digit_of(d).len() == 1,
        is_digit(digit_of(d)[0]),
        digit_of(d)[0] as nat - '0' as nat == d,
{
    reveal_strlit("0");
    reveal_strlit("1");
    reveal_strlit("2");
    reveal_strlit("3");
    reveal_strlit("4");
    reveal_strlit("5");
    reveal_strlit("6");
    reveal_strlit("7");
    reveal_strlit("8");
    reveal_strlit("9");
}

/// The decimal digits of a number are digits, at least one, and write
/// the number.
pub proof fn lemma_decimal_digits(n: nat)
    ensures
        decimal_of(n).len() >= 1,
        forall|i: int| 0 <= i < decimal_of(n).len() ==> is_digit(#[trigger] decimal_of(n)[i]),
        digits_value(decimal_of(n)) == n,
    decreases n,
{
    let text = decimal_of(n);
    if n < 10 {
        lemma_digit(n);
        assert(text.drop_last() =~= Seq::<char>::empty());
        assert(digits_value(text.drop_last()) == 0);
    } else {
        lemma_decimal_digits(n / 10);
        lemma_digit(n % 10);
        let front = decimal_of(n / 10);
        let last = digit_of(n % 10);
        assert(text.drop_last() =~= front);
        assert(text.last() == last[0]);
        assert forall|i: int| 0 <= i < text.len() implies is_digit(#[trigger] text[i]) by {
            if i < front.len() {
                assert(text[i] == front[i]);
            } else {
                assert(text[i] == last[0]);
            }
        }
    }
}

/// What is written as a number reads as the same number.
pub proof fn lemma_decimal_reads_back(n: nat)
    ensures
        number_of(decimal_of(n)) == Some(n),
{
    lemma_decimal_digits(n);
    let text = decimal_of(n);
    assert(is_digit(text[0]));
    assert(digits_of(text) == text);
}

/// The name of a built-in tag is the name that the surface syntax reads
/// as that tag.
pub proof fn lemma_tag_name_reads_back(tag: ConstructorTag)
    requires
        !(tag is CustomTag),
    ensures
        tag_named(tag_name(tag)) == Some(tag),
{
    reveal_strlit("#match");
    reveal_strlit("#constructor");
    reveal_strlit("#io_readline");
    reveal_strlit("#io_print");
    reveal_strlit("#io_flatmap");
    reveal_strlit("=num");
    reveal_strlit("+");
    reveal_strlit("-");
    reveal_strlit("*");
    reveal_strlit("/");
    reveal_strlit("^");
    let name = tag_name(tag);
    assert("#match"@.len() == 6 && "#constructor"@.len() == 12 && "#io_readline"@.len() == 12
        && "#io_print"@.len() == 9 && "#io_flatmap"@.len() == 11 && "=num"@.len() == 4);
    assert("#constructor"@[1] == 'c' && "#io_readline"@[1] == 'i');
    assert("+"@[0] == '+' && "-"@[0] == '-' && "*"@[0] == '*' && "/"@[0] == '/' && "^"@[0]
        == '^');
}

impl GraphView {
    /// The name that the binder `node` gives its argument; `?` where it
    /// is no lambda and no closure.
    pub open spec fn binder_name(self, node: NodeId) -> Seq<char> {
        if self.nodes.contains_key(node) {
            match self.nodes[node] {
                NodeView::Lambda { argument_name } => argument_name,
                NodeView::Closure { argument_name } => argument_name,
                _ => "?"@,
            }
        } else {
            "?"@
        }
    }

    /// The names of the binders of the arguments `from`, `from + 1`, ...
    /// of the data node `node`, each with a blank in front, up to the first
    /// argument that has no binder edge.
    pub open spec fn arguments_shown(self, node: NodeId, from: nat, count: nat) -> Seq<char>
        decreases count,
    {
        if count == 0 || from > usize::MAX || self.child(node, Edge::Binder(from as usize)) is None {
            Seq::empty()
        } else {
            " "@ + self.binder_name(self.children[(node, Edge::Binder(from as usize))])
                + self.arguments_shown(node, from + 1, (count - 1) as nat)
        }
    }

    /// The expression at `node`, written down at most `depth` levels
    /// deep; `None` where an edge is missing or the graph is deeper.
    ///
    /// A variable is its name, a bound one the name of its binder; a
    /// lambda is `λx.` and its body; an application is its two sides in
    /// brackets; a number is its decimal digits; bytes are their numbers
    /// in square brackets; a closure is `let x`, its parameter on a line of
    /// its own, `in` and its body; a data node is the name of its tag and
    /// the names of its arguments' binders, in brackets.
    pub open spec fn shown(self, node: NodeId, tab_index: nat, depth: nat) -> Option<Seq<char>>
        decreases depth,
    {
        if depth == 0 || !self.nodes.contains_key(node) {
            None
        } else {
            match self.nodes[node] {
                NodeView::Variable(VariableKindView::Free(name)) => Some(name),
                NodeView::Variable(VariableKindView::Bound) => if self.child(
                    node,
                    Edge::Binder(0),
                ) is Some {
                    Some(self.binder_name(self.children[(node, Edge::Binder(0))]))
                } else {
                    None
                },
                NodeView::Lambda { argument_name } => if self.child(node, Edge::Body) is Some {
                    match self.shown(
                        self.children[(node, Edge::Body)],
                        tab_index,
                        (depth - 1) as nat,
                    ) {
                        Some(body) => Some("λ"@ + argument_name + "."@ + body),
                        None => None,
                    }
                } else {
                    None
                },
                NodeView::Application => if self.child(node, Edge::Function) is Some && self.child(
                    node,
                    Edge::Parameter,
                ) is Some {
                    match (
                        self.shown(
                            self.children[(node, Edge::Function)],
                            tab_index,
                            (depth - 1) as nat,
                        ),
                        self.shown(
                            self.children[(node, Edge::Parameter)],
                            tab_index,
                            (depth - 1) as nat,
                        ),
                    ) {
                        (Some(function), Some(parameter)) => Some(
                            "("@ + function + " "@ + parameter + ")"@,
                        ),
                        _ => None,
                    }
                } else {
                    None
                },
                NodeView::Primitive(PrimitiveView::Number(number)) => Some(
                    decimal_of(number as nat),
                ),
                NodeView::Primitive(PrimitiveView::Bytes(bytes)) => Some(
                    "["@ + bytes_shown(bytes) + " ]"@,
                ),
                NodeView::Closure { argument_name } => if self.child(node, Edge::Parameter)
                    is Some && self.child(node, Edge::Body) is Some {
                    match (
                        self.shown(
                            self.children[(node, Edge::Parameter)],
                            deeper(tab_index),
                            (depth - 1) as nat,
                        ),
                        self.shown(
                            self.children[(node, Edge::Body)],
                            tab_index,
                            (depth - 1) as nat,
                        ),
                    ) {
                        (Some(parameter), Some(body)) => Some(
                            indent_of(tab_index) + "let "@ + argument_name + " \n"@ + indent_of(
                                tab_index,
                            ) + parameter + " in\n"@ + indent_of(tab_index) + body,
                        ),
                        _ => None,
                    }
                } else {
                    None
                },
                NodeView::Debug { .. } => Some(Seq::empty()),
                NodeView::Data { tag } => Some(
                    "("@ + tag_name(tag) + self.arguments_shown(node, 0, tag.spec_arity()) + ")"@,
                ),
            }
        }
    }
}

/// One decimal digit.
fn digit(d: usize) -> (r: &'static str)
    requires
        d < 10,
    ensures
        r@ == digit_of(d as nat),
{
    if d == 0 {
        "0"
    } else if d == 1 {
        "1"
    } else if d == 2 {
        "2"
    } else if d == 3 {
        "3"
    } else if d == 4 {
        "4"
    } else if d == 5 {
        "5"
    } else if d == 6 {
        "6"
    } else if d == 7 {
        "7"
    } else if d == 8 {
        "8"
    } else {
        "9"
    }
}

/// A number in decimal digits.
pub fn decimal(n: usize) -> (r: String)
    ensures
        r@ == decimal_of(n as nat),
    decreases n,
{
    if n < 10 {
        String::from_str(digit(n))
    } else {
        let mut text = decimal(n / 10);
        text.append(digit(n % 10));
        text
    }
}

/// `count` times two blanks.
pub fn indent(count: usize) -> (r: String)
    ensures
        r@ == indent_of(count as nat),
{
    let mut text = String::new();
    let mut i: usize = 0;
    while i < count
        invariant
            0 <= i <= count,
            text@ == indent_of(i as nat),
        decreases count - i,
    {
        text.append("  ");
        i += 1;
    }
    text
}

/// Bytes as decimal numbers, each with a blank in front.
pub fn show_bytes(bytes: &Vec<u8>) -> (r: String)
    ensures
        r@ == bytes_shown(bytes@),
{
    let mut text = String::new();
    let mut i: usize = 0;
    proof {
        assert(bytes@.take(0) =~= Seq::<u8>::empty());
    }
    while i < bytes.len()
        invariant
            0 <= i <= bytes.len(),
            text@ == bytes_shown(bytes@.take(i as int)),
        decreases bytes.len() - i,
    {
        proof {
            let longer = bytes@.take(i + 1);
            assert(longer.drop_last() =~= bytes@.take(i as int));
            assert(longer.last() == bytes@[i as int]);
        }
        text.append(" ");
        text.append(decimal(bytes[i] as usize).as_str());
        i += 1;
    }
    proof {
        assert(bytes@.take(bytes@.len() as int) =~= bytes@);
    }
    text
}

impl ConstructorTag {
    /// The name of the tag, see [`tag_name`].
    pub fn name(&self) -> (r: String)
        ensures
            r@ == tag_name(*self),
    {
        match self {
            ConstructorTag::CustomTag { uid, .. } => {
                let mut text = String::from_str("CustomTag");
                text.append(decimal(*uid).as_str());
                text
            },
            ConstructorTag::HelperFunction(HelperFunctionTag::CreateConstructor) => {
                String::from_str("#constructor")
            },
            ConstructorTag::HelperFunction(HelperFunctionTag::Match) => String::from_str("#match"),
            ConstructorTag::Arithmetic(ArithmeticTag::Eq) => String::from_str("=num"),
            ConstructorTag::Arithmetic(ArithmeticTag::Add) => String::from_str("+"),
            ConstructorTag::Arithmetic(ArithmeticTag::Sub) => String::from_str("-"),
            ConstructorTag::Arithmetic(ArithmeticTag::Mul) => String::from_str("*"),
            ConstructorTag::Arithmetic(ArithmeticTag::Div) => String::from_str("/"),
            ConstructorTag::Arithmetic(ArithmeticTag::Pow) => String::from_str("^"),
            ConstructorTag::IO(IOTag::ReadLine) => String::from_str("#io_readline"),
            ConstructorTag::IO(IOTag::Print) => String::from_str("#io_print"),
            ConstructorTag::IO(IOTag::Flatmap) => String::from_str("#io_flatmap"),
        }
    }
}

impl AST {
    /// The name that the binder `node` gives its argument.
    pub fn get_variable_name(&self, node: NodeId) -> (r: String)
        ensures
            r@ == self@.binder_name(node),
    {
        match self.node(node) {
            Some(Node::Lambda { argument_name }) => argument_name.clone(),
            Some(Node::Closure { argument_name }) => argument_name.clone(),
            _ => String::from_str("?"),
        }
    }

    /// The names of the binders of the arguments of the data node `node`,
    /// from the argument `from` on, `count` of them at most.
    fn show_arguments(&self, node: NodeId, from: usize, count: usize) -> (r: String)
        requires
            self.wf(),
        ensures
            r@ == self@.arguments_shown(node, from as nat, count as nat),
    {
        let mut text = String::new();
        let mut i: usize = 0;
        let mut at: usize = from;
        let ghost mut prefix: Seq<char> = Seq::empty();
        loop
            invariant
                self.wf(),
                0 <= i <= count,
                at == from + i,
                text@ == prefix,
                self@.arguments_shown(node, from as nat, count as nat) == prefix
                    + self@.arguments_shown(node, at as nat, (count - i) as nat),
            decreases count - i,
        {
            if i >= count {
                proof {
                    assert(prefix + Seq::<char>::empty() =~= prefix);
                }
                return text;
            }
            let binder = match self.follow_edge(node, Edge::Binder(at)) {
                Ok(binder) => binder,
                Err(_) => {
                    proof {
                        assert(prefix + Seq::<char>::empty() =~= prefix);
                    }
                    return text;
                },
            };
            let name = self.get_variable_name(binder);
            text.append(" ");
            text.append(name.as_str());
            if at == usize::MAX {
                proof {
                    let rest = self@.arguments_shown(node, (at + 1) as nat, (count - i - 1) as nat);
                    assert(rest =~= Seq::<char>::empty());
                    assert(prefix + (" "@ + name@ + rest) =~= prefix + " "@ + name@);
                }
                return text;
            }
            proof {
                let rest = self@.arguments_shown(node, (at + 1) as nat, (count - i - 1) as nat);
                assert(prefix + (" "@ + name@ + rest) =~= (prefix + " "@ + name@) + rest);
                prefix = prefix + " "@ + name@;
            }
            at = at + 1;
            i = i + 1;
        }
    }

    /// Writes the expression at `expr` down, at most `fuel` levels deep.
    /// Bindings are indented by `tab_index` levels.
    pub fn fmt_expr(&self, expr: NodeId, tab_index: usize, fuel: u64) -> (r: Result<
        String,
        ASTError,
    >)
        requires
            self.wf(),
        ensures
            match r {
                Ok(text) => self@.shown(expr, tab_index as nat, fuel as nat) == Some(text@),
                Err(_) => self@.shown(expr, tab_index as nat, fuel as nat) is None,
            },
        decreases fuel,
    {
        if fuel == 0 {
            return Err(ASTError::Exhausted);
        }
        let node = match self.node(expr) {
            Some(node) => node,
            None => {
                return Err(ASTError::Custom(expr, "no such node"));
            },
        };
        match node {
            Node::Variable(VariableKind::Free(name)) => Ok(name.clone()),
            Node::Variable(VariableKind::Bound) => {
                let binder = self.follow_edge(expr, Edge::Binder(0))?;
                Ok(self.get_variable_name(binder))
            },
            Node::Lambda { argument_name } => {
                let body = self.follow_edge(expr, Edge::Body)?;
                let inner = self.fmt_expr(body, tab_index, fuel - 1)?;
                let mut text = String::from_str("λ");
                text.append(argument_name.as_str());
                text.append(".");
                text.append(inner.as_str());
                Ok(text)
            },
            Node::Application => {
                let function = self.follow_edge(expr, Edge::Function)?;
                let parameter = self.follow_edge(expr, Edge::Parameter)?;
                let left = self.fmt_expr(function, tab_index, fuel - 1)?;
                let right = self.fmt_expr(parameter, tab_index, fuel - 1)?;
                let mut text = String::from_str("(");
                text.append(left.as_str());
                text.append(" ");
                text.append(right.as_str());
                text.append(")");
                Ok(text)
            },
            Node::Primitive(Primitive::Number(number)) => Ok(decimal(*number)),
            Node::Primitive(Primitive::Bytes(bytes)) => {
                let mut text = String::from_str("[");
                text.append(show_bytes(bytes).as_str());
                text.append(" ]");
                Ok(text)
            },
            Node::Closure { argument_name } => {
                let parameter = self.follow_edge(expr, Edge::Parameter)?;
                let body = self.follow_edge(expr, Edge::Body)?;
                let next = if tab_index < usize::MAX {
                    tab_index + 1
                } else {
                    tab_index
                };
                let bound = self.fmt_expr(parameter, next, fuel - 1)?;
                let inner = self.fmt_expr(body, tab_index, fuel - 1)?;
                let margin = indent(tab_index);
                let mut text = indent(tab_index);
                text.append("let ");
                text.append(argument_name.as_str());
                text.append(" \n");
                text.append(margin.as_str());
                text.append(bound.as_str());
                text.append(" in\n");
                text.append(margin.as_str());
                text.append(inner.as_str());
                Ok(text)
            },
            Node::Debug(_) => Ok(String::new()),
            Node::Data { tag } => {
                let mut text = String::from_str("(");
                text.append(tag.name().as_str());
                text.append(self.show_arguments(expr, 0, tag.arity()).as_str());
                text.append(")");
                Ok(text)
            },
        }
    }
}

} // verus!
