use lambo::ast::ASTError;
use lambo::ast::AST;
use lambo::node::Edge;
use lambo::node::Node;
use lambo::node::Primitive;

fn number_under(ast: &AST, node: u32) -> Option<usize> {
    match ast.node(ast.unwrap_closure_chain(node)) {
        Some(Node::Primitive(Primitive::Number(number))) => Some(*number),
        _ => None,
    }
}

#[test]
fn an_unused_binding_is_collected() {
    let mut ast = AST::from_str("with unused (+ 1 2) in 5").unwrap();
    assert_eq!(ast.garbage_collect().unwrap(), 1);
    assert_eq!(ast.node_count(), 1);
    assert!(matches!(ast.node(ast.root()), Some(Node::Primitive(Primitive::Number(5)))));
}

#[test]
fn a_used_binding_stays() {
    let mut ast = AST::from_str("with x 1 in + x x").unwrap();
    let before = ast.node_count();
    assert_eq!(ast.garbage_collect().unwrap(), 0);
    assert_eq!(ast.node_count(), before);
}

#[test]
fn collecting_goes_on_until_nothing_is_left_to_collect() {
    // b is used only by a, and a by nothing
    let mut ast = AST::from_str("with b 1 in with a (+ b b) in 7").unwrap();
    assert_eq!(ast.garbage_collect().unwrap(), 2);
    assert_eq!(ast.node_count(), 1);
    assert!(matches!(ast.node(ast.root()), Some(Node::Primitive(Primitive::Number(7)))));
    for id in ast.node_ids() {
        assert!(!matches!(ast.node(id), Some(Node::Closure { .. })) || ast.is_referenced(id));
    }
}

#[test]
fn collecting_does_not_change_the_result() {
    for (source, expected) in [
        ("with unused 5 in + 2 3", 5),
        ("with a 1 in with b 2 in with c 3 in + a c", 4),
        ("with id λx.x in with k λx.λy.x in id 9", 9),
        ("with fix λf.(λx.f (x x)) (λx.f (x x)) in with fact fix (λrec.λn.=num n 0 1 (* n (rec (- 1 n)))) in with unused fact in fact 4", 24),
    ] {
        let mut plain = AST::from_str(source).unwrap();
        let root = plain.evaluate_root().unwrap();
        let mut collected = AST::from_str(source).unwrap();
        collected.garbage_collect().unwrap();
        assert!(collected.integrity_check());
        let other = collected.evaluate_root().unwrap();
        assert_eq!(number_under(&plain, root), Some(expected));
        assert_eq!(number_under(&collected, other), Some(expected));
    }
}

#[test]
fn a_closure_without_a_parameter_stops_the_collector() {
    let mut ast = AST::new();
    let closure = ast.add_node(Node::Closure { argument_name: "x".to_string() }).unwrap();
    let body = ast.add_node(Node::Primitive(Primitive::Number(1))).unwrap();
    ast.add_edge(closure, body, Edge::Body).unwrap();
    assert!(matches!(
        ast.garbage_collect(),
        Err(ASTError::EdgeNotFound(node, Edge::Parameter)) if node == closure
    ));
}
