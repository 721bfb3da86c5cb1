use lambo::ast::ASTError;
use lambo::ast::Arrow;
use lambo::ast::AST;
use lambo::node::Edge;
use lambo::node::Node;
use lambo::node::Primitive;
use lambo::node::VariableKind;

fn graph_number(ast: &mut AST, value: usize) -> u32 {
    ast.add_node(Node::Primitive(Primitive::Number(value))).unwrap()
}

fn graph_lambda(ast: &mut AST, name: &str) -> u32 {
    ast.add_node(Node::Lambda { argument_name: name.to_string() }).unwrap()
}

#[test]
fn new_graph_is_empty() {
    let ast = AST::new();
    assert_eq!(ast.node_count(), 0);
    assert_eq!(ast.edge_count(), 0);
    assert_eq!(ast.root(), 0);
    assert!(!ast.contains_node(0));
    assert!(ast.node(0).is_none());
}

#[test]
fn add_node_gives_fresh_indices() {
    let mut ast = AST::new();
    let a = graph_number(&mut ast, 1);
    let b = graph_number(&mut ast, 2);
    assert_ne!(a, b);
    assert_eq!(ast.node_count(), 2);
    assert!(matches!(ast.node(a), Some(Node::Primitive(Primitive::Number(1)))));
    assert!(matches!(ast.node(b), Some(Node::Primitive(Primitive::Number(2)))));
}

#[test]
fn follow_edge_finds_the_target() {
    let mut ast = AST::new();
    let lambda = graph_lambda(&mut ast, "x");
    let body = graph_number(&mut ast, 7);
    ast.add_edge(lambda, body, Edge::Body).unwrap();
    assert_eq!(ast.follow_edge(lambda, Edge::Body).unwrap(), body);
    assert_eq!(ast.edge_count(), 1);
}

#[test]
fn follow_edge_reports_the_missing_edge() {
    let mut ast = AST::new();
    let lambda = graph_lambda(&mut ast, "x");
    match ast.follow_edge(lambda, Edge::Parameter) {
        Err(ASTError::EdgeNotFound(node, Edge::Parameter)) => assert_eq!(node, lambda),
        other => panic!("unexpected {:?}", other),
    }
}

#[test]
fn add_edge_refuses_a_second_edge_with_the_same_label() {
    let mut ast = AST::new();
    let lambda = graph_lambda(&mut ast, "x");
    let one = graph_number(&mut ast, 1);
    let two = graph_number(&mut ast, 2);
    ast.add_edge(lambda, one, Edge::Body).unwrap();
    assert!(matches!(
        ast.add_edge(lambda, two, Edge::Body),
        Err(ASTError::Custom(node, _)) if node == lambda
    ));
    assert_eq!(ast.follow_edge(lambda, Edge::Body).unwrap(), one);
}

#[test]
fn add_edge_refuses_a_missing_endpoint() {
    let mut ast = AST::new();
    let lambda = graph_lambda(&mut ast, "x");
    assert!(matches!(
        ast.add_edge(lambda, 99, Edge::Body),
        Err(ASTError::Custom(99, _))
    ));
    assert!(matches!(
        ast.add_edge(98, lambda, Edge::Body),
        Err(ASTError::Custom(98, _))
    ));
    assert_eq!(ast.edge_count(), 0);
}

#[test]
fn remove_edge_returns_the_target() {
    let mut ast = AST::new();
    let lambda = graph_lambda(&mut ast, "x");
    let body = graph_number(&mut ast, 7);
    ast.add_edge(lambda, body, Edge::Body).unwrap();
    assert_eq!(ast.remove_edge(lambda, Edge::Body), Some(body));
    assert_eq!(ast.remove_edge(lambda, Edge::Body), None);
    assert!(ast.follow_edge(lambda, Edge::Body).is_err());
    assert!(ast.contains_node(body));
}

#[test]
fn remove_node_takes_its_edges_along() {
    let mut ast = AST::new();
    let application = ast.add_node(Node::Application).unwrap();
    let function = graph_lambda(&mut ast, "x");
    let parameter = graph_number(&mut ast, 3);
    ast.add_edge(application, function, Edge::Function).unwrap();
    ast.add_edge(application, parameter, Edge::Parameter).unwrap();
    let removed = ast.remove_node(function);
    assert!(matches!(removed, Some(Node::Lambda { .. })));
    assert!(!ast.contains_node(function));
    assert!(ast.follow_edge(application, Edge::Function).is_err());
    assert_eq!(ast.follow_edge(application, Edge::Parameter).unwrap(), parameter);
    assert_eq!(ast.edge_count(), 1);
    assert!(ast.remove_node(function).is_none());
}

#[test]
fn replace_node_keeps_the_edges() {
    let mut ast = AST::new();
    let lambda = graph_lambda(&mut ast, "x");
    let body = graph_number(&mut ast, 7);
    ast.add_edge(lambda, body, Edge::Body).unwrap();
    ast.replace_node(lambda, Node::Closure { argument_name: "x".to_string() }).unwrap();
    assert!(matches!(ast.node(lambda), Some(Node::Closure { .. })));
    assert_eq!(ast.follow_edge(lambda, Edge::Body).unwrap(), body);
    assert!(ast.replace_node(77, Node::Application).is_err());
}

#[test]
fn redirect_edge_changes_the_target() {
    let mut ast = AST::new();
    let lambda = graph_lambda(&mut ast, "x");
    let one = graph_number(&mut ast, 1);
    let two = graph_number(&mut ast, 2);
    ast.add_edge(lambda, one, Edge::Body).unwrap();
    ast.redirect_edge(lambda, Edge::Body, two).unwrap();
    assert_eq!(ast.follow_edge(lambda, Edge::Body).unwrap(), two);
    assert_eq!(ast.edge_count(), 1);
    assert!(matches!(
        ast.redirect_edge(lambda, Edge::Parameter, two),
        Err(ASTError::EdgeNotFound(_, Edge::Parameter))
    ));
    assert!(matches!(
        ast.redirect_edge(lambda, Edge::Body, 55),
        Err(ASTError::Custom(55, _))
    ));
}

#[test]
fn migrate_node_moves_owners_and_root_but_not_references() {
    let mut ast = AST::new();
    let lambda = graph_lambda(&mut ast, "x");
    let variable = ast.add_node(Node::Variable(VariableKind::Bound)).unwrap();
    let owner = ast.add_node(Node::Application).unwrap();
    let other = graph_lambda(&mut ast, "y");
    ast.add_edge(owner, lambda, Edge::Function).unwrap();
    ast.add_edge(variable, lambda, Edge::Binder(0)).unwrap();
    ast.set_root(lambda);
    ast.migrate_node(lambda, other).unwrap();
    assert_eq!(ast.follow_edge(owner, Edge::Function).unwrap(), other);
    assert_eq!(ast.follow_edge(variable, Edge::Binder(0)).unwrap(), lambda);
    assert_eq!(ast.root(), other);
    assert!(ast.migrate_node(other, 1234).is_err());
}

#[test]
fn rebind_moves_references_but_not_owners() {
    let mut ast = AST::new();
    let lambda = graph_lambda(&mut ast, "x");
    let variable = ast.add_node(Node::Variable(VariableKind::Bound)).unwrap();
    let owner = ast.add_node(Node::Application).unwrap();
    let other = graph_lambda(&mut ast, "y");
    ast.add_edge(owner, lambda, Edge::Function).unwrap();
    ast.add_edge(variable, lambda, Edge::Binder(0)).unwrap();
    ast.rebind(lambda, other).unwrap();
    assert_eq!(ast.follow_edge(owner, Edge::Function).unwrap(), lambda);
    assert_eq!(ast.follow_edge(variable, Edge::Binder(0)).unwrap(), other);
}

#[test]
fn outgoing_and_incoming_list_every_edge_once() {
    let mut ast = AST::new();
    let application = ast.add_node(Node::Application).unwrap();
    let function = graph_lambda(&mut ast, "x");
    let parameter = graph_number(&mut ast, 3);
    ast.add_edge(application, function, Edge::Function).unwrap();
    ast.add_edge(application, parameter, Edge::Parameter).unwrap();
    let mut out = ast.outgoing(application);
    out.sort_by_key(|arrow| arrow.target);
    assert_eq!(
        out,
        vec![
            Arrow { source: application, label: Edge::Function, target: function },
            Arrow { source: application, label: Edge::Parameter, target: parameter },
        ]
    );
    assert_eq!(
        ast.incoming(parameter),
        vec![Arrow { source: application, label: Edge::Parameter, target: parameter }]
    );
    assert!(ast.incoming(application).is_empty());
    assert!(ast.outgoing(4242).is_empty());
}

#[test]
fn binder_references_counts_only_binder_edges() {
    let mut ast = AST::new();
    let lambda = graph_lambda(&mut ast, "x");
    let first = ast.add_node(Node::Variable(VariableKind::Bound)).unwrap();
    let second = ast.add_node(Node::Variable(VariableKind::Bound)).unwrap();
    let owner = ast.add_node(Node::Application).unwrap();
    ast.add_edge(first, lambda, Edge::Binder(0)).unwrap();
    ast.add_edge(second, lambda, Edge::Binder(0)).unwrap();
    ast.add_edge(owner, lambda, Edge::Function).unwrap();
    assert_eq!(ast.binder_references(lambda).len(), 2);
    assert!(ast.is_referenced(lambda));
    assert!(!ast.is_referenced(owner));
}

#[test]
fn get_parent_wants_exactly_one_owner() {
    let mut ast = AST::new();
    let child = graph_number(&mut ast, 1);
    assert!(matches!(ast.get_parent(child), Err(ASTError::ParentError(node)) if node == child));
    let first = ast.add_node(Node::Application).unwrap();
    ast.add_edge(first, child, Edge::Parameter).unwrap();
    assert_eq!(ast.get_parent(child).unwrap(), (first, Edge::Parameter));
    let second = graph_lambda(&mut ast, "x");
    ast.add_edge(second, child, Edge::Body).unwrap();
    assert!(matches!(ast.get_parent(child), Err(ASTError::ParentError(node)) if node == child));
}

#[test]
fn get_parent_ignores_references() {
    let mut ast = AST::new();
    let lambda = graph_lambda(&mut ast, "x");
    let variable = ast.add_node(Node::Variable(VariableKind::Bound)).unwrap();
    ast.add_edge(variable, lambda, Edge::Binder(0)).unwrap();
    assert!(matches!(ast.get_parent(lambda), Err(ASTError::ParentError(_))));
}

#[test]
fn next_uid_counts_up() {
    let mut ast = AST::new();
    assert_eq!(ast.next_uid().unwrap(), 0);
    assert_eq!(ast.next_uid().unwrap(), 1);
    assert_eq!(ast.next_uid().unwrap(), 2);
}

#[test]
fn node_ids_are_listed_in_increasing_order() {
    let mut ast = AST::new();
    let a = graph_number(&mut ast, 1);
    let b = graph_number(&mut ast, 2);
    let c = graph_number(&mut ast, 3);
    ast.remove_node(b);
    assert_eq!(ast.node_ids(), vec![a, c]);
}

#[test]
fn indices_stay_valid_when_other_nodes_go() {
    let mut ast = AST::new();
    let a = graph_number(&mut ast, 10);
    let b = graph_number(&mut ast, 20);
    let c = graph_number(&mut ast, 30);
    ast.remove_node(a);
    assert!(matches!(ast.node(b), Some(Node::Primitive(Primitive::Number(20)))));
    assert!(matches!(ast.node(c), Some(Node::Primitive(Primitive::Number(30)))));
}

#[test]
fn duplicate_copies_a_node() {
    let node = Node::Primitive(Primitive::Bytes(vec![1, 2, 3]));
    match node.duplicate() {
        Node::Primitive(Primitive::Bytes(bytes)) => assert_eq!(bytes, vec![1, 2, 3]),
        other => panic!("unexpected {:?}", other),
    }
    assert!(Edge::Binder(3).is_reference());
    assert!(!Edge::Body.is_reference());
}
