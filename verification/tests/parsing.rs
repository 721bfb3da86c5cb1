use lambo::ast::ASTError;
use lambo::ast::AST;
use lambo::lexer::lexer;
use lambo::node::Edge;
use lambo::node::Node;
use lambo::node::Primitive;
use lambo::node::VariableKind;
use lambo::parser::parse_expr;
use lambo::tags::ArithmeticTag;
use lambo::tags::ConstructorTag;

#[test]
fn a_number_is_a_primitive() {
    let ast = AST::from_str("42").unwrap();
    assert_eq!(ast.node_count(), 1);
    assert!(matches!(ast.node(ast.root()), Some(Node::Primitive(Primitive::Number(42)))));
}

#[test]
fn an_unknown_name_is_a_free_variable() {
    let ast = AST::from_str("foo").unwrap();
    assert!(matches!(
        ast.node(ast.root()),
        Some(Node::Variable(VariableKind::Free(name))) if name == "foo"
    ));
}

#[test]
fn application_associates_to_the_left() {
    let ast = AST::from_str("f a b").unwrap();
    let outer = ast.root();
    let inner = ast.follow_edge(outer, Edge::Function).unwrap();
    let b = ast.follow_edge(outer, Edge::Parameter).unwrap();
    let f = ast.follow_edge(inner, Edge::Function).unwrap();
    let a = ast.follow_edge(inner, Edge::Parameter).unwrap();
    assert!(matches!(ast.node(f), Some(Node::Variable(VariableKind::Free(name))) if name == "f"));
    assert!(matches!(ast.node(a), Some(Node::Variable(VariableKind::Free(name))) if name == "a"));
    assert!(matches!(ast.node(b), Some(Node::Variable(VariableKind::Free(name))) if name == "b"));
    assert_eq!(ast.node_count(), 5);
}

#[test]
fn brackets_group() {
    let ast = AST::from_str("f (a b)").unwrap();
    let outer = ast.root();
    let f = ast.follow_edge(outer, Edge::Function).unwrap();
    let inner = ast.follow_edge(outer, Edge::Parameter).unwrap();
    assert!(matches!(ast.node(f), Some(Node::Variable(_))));
    assert!(matches!(ast.node(inner), Some(Node::Application)));
}

#[test]
fn a_lambda_binds_its_variable() {
    let ast = AST::from_str("λx.x").unwrap();
    let lambda = ast.root();
    assert!(matches!(ast.node(lambda), Some(Node::Lambda { argument_name }) if argument_name == "x"));
    let variable = ast.follow_edge(lambda, Edge::Body).unwrap();
    assert!(matches!(ast.node(variable), Some(Node::Variable(VariableKind::Bound))));
    assert_eq!(ast.follow_edge(variable, Edge::Binder(0)).unwrap(), lambda);
}

#[test]
fn the_innermost_binder_wins() {
    let ast = AST::from_str("λx.λx.x").unwrap();
    let outer = ast.root();
    let inner = ast.follow_edge(outer, Edge::Body).unwrap();
    let variable = ast.follow_edge(inner, Edge::Body).unwrap();
    assert_eq!(ast.follow_edge(variable, Edge::Binder(0)).unwrap(), inner);
}

#[test]
fn a_lambda_may_name_a_type() {
    let ast = AST::from_str("λx:int.x").unwrap();
    let lambda = ast.root();
    let variable = ast.follow_edge(lambda, Edge::Body).unwrap();
    assert_eq!(ast.follow_edge(variable, Edge::Binder(0)).unwrap(), lambda);
    assert_eq!(ast.node_count(), 2);
}

#[test]
fn with_makes_a_closure() {
    let ast = AST::from_str("with x 1 in x").unwrap();
    let closure = ast.root();
    assert!(matches!(ast.node(closure), Some(Node::Closure { argument_name }) if argument_name == "x"));
    let body = ast.follow_edge(closure, Edge::Body).unwrap();
    let parameter = ast.follow_edge(closure, Edge::Parameter).unwrap();
    assert_eq!(ast.follow_edge(body, Edge::Binder(0)).unwrap(), closure);
    assert!(matches!(ast.node(parameter), Some(Node::Primitive(Primitive::Number(1)))));
}

#[test]
fn the_bound_name_is_not_in_scope_in_the_value() {
    let ast = AST::from_str("with x x in 1").unwrap();
    let closure = ast.root();
    let parameter = ast.follow_edge(closure, Edge::Parameter).unwrap();
    assert!(matches!(ast.node(parameter), Some(Node::Variable(VariableKind::Free(_)))));
}

#[test]
fn a_built_in_name_is_a_saturated_constructor() {
    let ast = AST::from_str("+").unwrap();
    let what = ast.root();
    let to = ast.follow_edge(what, Edge::Body).unwrap();
    let data = ast.follow_edge(to, Edge::Body).unwrap();
    assert!(matches!(
        ast.node(data),
        Some(Node::Data { tag: ConstructorTag::Arithmetic(ArithmeticTag::Add) })
    ));
    assert_eq!(ast.follow_edge(data, Edge::Binder(0)).unwrap(), what);
    assert_eq!(ast.follow_edge(data, Edge::Binder(1)).unwrap(), to);
}

#[test]
fn a_bound_name_hides_a_built_in() {
    let ast = AST::from_str("λ+.+").unwrap();
    let lambda = ast.root();
    let variable = ast.follow_edge(lambda, Edge::Body).unwrap();
    assert_eq!(ast.follow_edge(variable, Edge::Binder(0)).unwrap(), lambda);
}

#[test]
fn the_bar_swaps_its_sides() {
    let ast = AST::from_str("v | f").unwrap();
    let application = ast.root();
    let function = ast.follow_edge(application, Edge::Function).unwrap();
    let parameter = ast.follow_edge(application, Edge::Parameter).unwrap();
    assert!(matches!(ast.node(function), Some(Node::Variable(VariableKind::Free(name))) if name == "f"));
    assert!(matches!(ast.node(parameter), Some(Node::Variable(VariableKind::Free(name))) if name == "v"));
}

#[test]
fn the_bar_binds_less_than_juxtaposition() {
    let ast = AST::from_str("a b | f c").unwrap();
    let application = ast.root();
    let function = ast.follow_edge(application, Edge::Function).unwrap();
    let parameter = ast.follow_edge(application, Edge::Parameter).unwrap();
    // (f c) (a b)
    assert!(matches!(ast.node(function), Some(Node::Application)));
    assert!(matches!(ast.node(parameter), Some(Node::Application)));
    let f = ast.follow_edge(function, Edge::Function).unwrap();
    assert!(matches!(ast.node(f), Some(Node::Variable(VariableKind::Free(name))) if name == "f"));
}

#[test]
fn what_is_no_expression_is_a_syntax_error() {
    for source in ["", ")", "(a", "λ.x", "λx x", "with 1 in 2", "with x 1 2", ". a", "a . b", "in"] {
        assert!(
            matches!(AST::from_str(source), Err(ASTError::Syntax(_, _))),
            "{:?}",
            source
        );
    }
}

#[test]
fn a_syntax_error_names_the_token() {
    assert!(matches!(AST::from_str("(a b"), Err(ASTError::Syntax(3, _))));
    assert!(matches!(AST::from_str("λ 1"), Err(ASTError::Syntax(2, _))));
}

#[test]
fn what_a_text_parses_to_keeps_the_invariants() {
    for source in [
        "+ 2 3",
        "λx.λy.x y",
        "with pair λa.λb.λs.s a b in (pair 3 5) (λa.λb. + a b)",
        "with two (#constructor 2) in #match two (λa.λb.+ a b) (λv.0) (two 10 20)",
        "#io_print x",
    ] {
        let ast = AST::from_str(source).unwrap();
        assert!(ast.integrity_check(), "{}", source);
        assert!(ast.contains_node(ast.root()));
    }
}

#[test]
fn add_expr_from_str_leaves_the_graph_as_it_was() {
    let mut ast = AST::from_str("with x 1 in x").unwrap();
    let root = ast.root();
    let before = ast.node_count();
    let added = ast.add_expr_from_str("λx.λy.x").unwrap();
    assert_eq!(ast.root(), root);
    assert_eq!(ast.node_count(), before + 3);
    assert!(matches!(ast.node(added), Some(Node::Lambda { .. })));
    assert!(ast.add_expr_from_str("(").is_err());
}

#[test]
fn parse_expr_stops_at_a_closing_bracket() {
    let tokens = lexer("a b) c");
    let mut ast = AST::new();
    let mut position = 0;
    let mut scope = Vec::new();
    let node = parse_expr(&mut ast, &tokens, &mut position, 0, &mut scope).unwrap();
    assert_eq!(position, 2);
    assert!(matches!(ast.node(node), Some(Node::Application)));
    assert!(scope.is_empty());
}

#[test]
fn parse_expr_resolves_names_in_scope() {
    let mut ast = AST::new();
    let binder = ast.add_node(Node::Lambda { argument_name: "x".to_string() }).unwrap();
    let tokens = lexer("x");
    let mut position = 0;
    let mut scope = vec![("x".to_string(), binder)];
    let node = parse_expr(&mut ast, &tokens, &mut position, 0, &mut scope).unwrap();
    assert_eq!(ast.follow_edge(node, Edge::Binder(0)).unwrap(), binder);
    assert_eq!(scope.len(), 1);
}
