//! Nodes and edge labels of the expression graph, and their views.
use vstd::prelude::*;
use crate::tags::ConstructorTag;

verus! {

/// Numbers are machine words; arithmetic that leaves the range is reported
/// as a domain error rather than wrapped.
pub type Number = usize;

/// How a variable finds its meaning.
#[derive(Debug, Clone)]
pub enum VariableKind {
    /// A name with no binder in the graph.
    Free(String),
    /// A reference to a binder, carried by the variable's `Binder(0)` edge.
    Bound,
}

/// An immediate value.
#[derive(Debug, Clone)]
pub enum Primitive {
    Number(Number),
    Bytes(Vec<u8>),
}

/// A node that only labels a snapshot of the graph.
#[derive(Debug, Clone)]
pub enum DebugNode {
    Annotation { text: String },
}

/// The label of an edge.
#[derive(Debug, PartialEq, Eq, Clone, Copy, Structural)]
pub enum Edge {
    Body,
    Parameter,
    Function,
    Debug,
    /// From a variable or a data node to the binder of its i-th argument.
    Binder(usize),
}

/// An expression constructor.
#[derive(Debug, Clone)]
pub enum Node {
    Lambda { argument_name: String },
    Application,
    Variable(VariableKind),
    Primitive(Primitive),
    Closure { argument_name: String },
    Data { tag: ConstructorTag },
    Debug(DebugNode),
}

pub enum VariableKindView {
    Free(Seq<char>),
    Bound,
}

pub enum PrimitiveView {
    Number(Number),
    Bytes(Seq<u8>),
}

pub enum NodeView {
    Lambda { argument_name: Seq<char> },
    Application,
    Variable(VariableKindView),
    Primitive(PrimitiveView),
    Closure { argument_name: Seq<char> },
    Data { tag: ConstructorTag },
    Debug { text: Seq<char> },
}

impl View for VariableKind {
    type V = VariableKindView;

    open spec fn view(&self) -> VariableKindView {
        match self {
            VariableKind::Free(name) => VariableKindView::Free(name@),
            VariableKind::Bound => VariableKindView::Bound,
        }
    }
}

impl View for Primitive {
    type V = PrimitiveView;

    open spec fn view(&self) -> PrimitiveView {
        match self {
            Primitive::Number(n) => PrimitiveView::Number(*n),
            Primitive::Bytes(bytes) => PrimitiveView::Bytes(bytes@),
        }
    }
}

impl View for Node {
    type V = NodeView;

    open spec fn view(&self) -> NodeView {
        match self {
            Node::Lambda { argument_name } => NodeView::Lambda { argument_name: argument_name@ },
            Node::Application => NodeView::Application,
            Node::Variable(kind) => NodeView::Variable(kind@),
            Node::Primitive(p) => NodeView::Primitive(p@),
            Node::Closure { argument_name } => NodeView::Closure { argument_name: argument_name@ },
            Node::Data { tag } => NodeView::Data { tag: *tag },
            Node::Debug(DebugNode::Annotation { text }) => NodeView::Debug { text: text@ },
        }
    }
}

impl Edge {
    /// Binder edges are references; every other edge owns its target.
    pub open spec fn is_binder(self) -> bool {
        self is Binder
    }

    pub fn is_reference(&self) -> (r: bool)
        ensures
            r == self.is_binder(),
    {
        match self {
            Edge::Binder(_) => true,
            _ => false,
        }
    }
}

impl NodeView {
    /// A lambda or a closure: what a `Binder` edge may point at.
    pub open spec fn is_binder_node(self) -> bool {
        self is Lambda || self is Closure
    }

    pub open spec fn is_bound_variable(self) -> bool {
        self == NodeView::Variable(VariableKindView::Bound)
    }
}

impl Primitive {
    /// A copy of the value.
    pub fn duplicate(&self) -> (r: Primitive)
        ensures
            r@ == self@,
    {
        match self {
            Primitive::Number(n) => Primitive::Number(*n),
            Primitive::Bytes(bytes) => Primitive::Bytes(bytes.clone()),
        }
    }
}

impl Node {
    /// A copy of the node.
    pub fn duplicate(&self) -> (r: Node)
        ensures
            r@ == self@,
    {
        match self {
            Node::Lambda { argument_name } => Node::Lambda { argument_name: argument_name.clone() },
            Node::Application => Node::Application,
            Node::Variable(VariableKind::Free(name)) => Node::Variable(
                VariableKind::Free(name.clone()),
            ),
            Node::Variable(VariableKind::Bound) => Node::Variable(VariableKind::Bound),
            Node::Primitive(Primitive::Number(n)) => Node::Primitive(Primitive::Number(*n)),
            Node::Primitive(Primitive::Bytes(bytes)) => Node::Primitive(
                Primitive::Bytes(bytes.clone()),
            ),
            Node::Closure { argument_name } => Node::Closure {
                argument_name: argument_name.clone(),
            },
            Node::Data { tag } => Node::Data { tag: *tag },
            Node::Debug(DebugNode::Annotation { text }) => Node::Debug(
                DebugNode::Annotation { text: text.clone() },
            ),
        }
    }
}

} // verus!
