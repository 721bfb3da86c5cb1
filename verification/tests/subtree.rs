use std::collections::HashMap;

use lambo::ast::ASTError;
use lambo::ast::AST;
use lambo::node::Edge;
use lambo::node::Node;
use lambo::node::Primitive;
use lambo::node::VariableKind;

// λx. (x 5), with the variable bound to the lambda
fn lambda_applying_its_argument(ast: &mut AST) -> (u32, u32, u32, u32) {
    let lambda = ast.add_node(Node::Lambda { argument_name: "x".to_string() }).unwrap();
    let application = ast.add_node(Node::Application).unwrap();
    let variable = ast.add_reference(lambda).unwrap();
    let five = ast.add_node(Node::Primitive(Primitive::Number(5))).unwrap();
    ast.add_edge(lambda, application, Edge::Body).unwrap();
    ast.add_edge(application, variable, Edge::Function).unwrap();
    ast.add_edge(application, five, Edge::Parameter).unwrap();
    (lambda, application, variable, five)
}

#[test]
fn remove_subtree_deletes_what_the_node_owns() {
    let mut ast = AST::new();
    let (lambda, application, variable, five) = lambda_applying_its_argument(&mut ast);
    let bystander = ast.add_node(Node::Primitive(Primitive::Number(1))).unwrap();
    ast.remove_subtree(lambda);
    assert!(!ast.contains_node(lambda));
    assert!(!ast.contains_node(application));
    assert!(!ast.contains_node(variable));
    assert!(!ast.contains_node(five));
    assert!(ast.contains_node(bystander));
    assert_eq!(ast.node_count(), 1);
    assert_eq!(ast.edge_count(), 0);
}

#[test]
fn remove_subtree_does_not_follow_binder_edges() {
    let mut ast = AST::new();
    let (lambda, application, variable, five) = lambda_applying_its_argument(&mut ast);
    ast.remove_subtree(application);
    assert!(ast.contains_node(lambda));
    assert!(!ast.contains_node(application));
    assert!(!ast.contains_node(variable));
    assert!(!ast.contains_node(five));
    assert!(ast.follow_edge(lambda, Edge::Body).is_err());
}

#[test]
fn remove_subtree_of_a_missing_node_changes_nothing() {
    let mut ast = AST::new();
    lambda_applying_its_argument(&mut ast);
    ast.remove_subtree(1000);
    assert_eq!(ast.node_count(), 4);
    assert_eq!(ast.edge_count(), 4);
}

#[test]
fn remove_subtree_ends_on_a_cycle() {
    let mut ast = AST::new();
    let a = ast.add_node(Node::Lambda { argument_name: "a".to_string() }).unwrap();
    let b = ast.add_node(Node::Lambda { argument_name: "b".to_string() }).unwrap();
    ast.add_edge(a, b, Edge::Body).unwrap();
    ast.add_edge(b, a, Edge::Body).unwrap();
    ast.remove_subtree(a);
    assert_eq!(ast.node_count(), 0);
}

#[test]
fn clone_subtree_copies_nodes_and_owning_edges() {
    let mut ast = AST::new();
    let (lambda, application, variable, five) = lambda_applying_its_argument(&mut ast);
    let mut remap = HashMap::new();
    let copy = ast.clone_subtree(lambda, &mut remap, 10).unwrap();
    assert_eq!(ast.node_count(), 8);
    assert_eq!(ast.edge_count(), 8);
    assert!(![lambda, application, variable, five].contains(&copy));
    assert!(matches!(ast.node(copy), Some(Node::Lambda { argument_name }) if argument_name == "x"));
    let body = ast.follow_edge(copy, Edge::Body).unwrap();
    assert_ne!(body, application);
    assert!(matches!(ast.node(body), Some(Node::Application)));
    let function = ast.follow_edge(body, Edge::Function).unwrap();
    let parameter = ast.follow_edge(body, Edge::Parameter).unwrap();
    assert_ne!(function, variable);
    assert_ne!(parameter, five);
    assert!(matches!(ast.node(function), Some(Node::Variable(VariableKind::Bound))));
    assert!(matches!(ast.node(parameter), Some(Node::Primitive(Primitive::Number(5)))));
    // what was copied is untouched
    assert_eq!(ast.follow_edge(lambda, Edge::Body).unwrap(), application);
    assert_eq!(ast.follow_edge(variable, Edge::Binder(0)).unwrap(), lambda);
}

#[test]
fn clone_subtree_points_inner_references_at_the_copy() {
    let mut ast = AST::new();
    let (lambda, _, _, _) = lambda_applying_its_argument(&mut ast);
    let mut remap = HashMap::new();
    let copy = ast.clone_subtree(lambda, &mut remap, 10).unwrap();
    let body = ast.follow_edge(copy, Edge::Body).unwrap();
    let function = ast.follow_edge(body, Edge::Function).unwrap();
    assert_eq!(ast.follow_edge(function, Edge::Binder(0)).unwrap(), copy);
    assert_eq!(remap.get(&lambda), Some(&copy));
    assert_eq!(remap.len(), 4);
}

#[test]
fn clone_subtree_leaves_outer_references_where_they_point() {
    let mut ast = AST::new();
    let (lambda, application, _, _) = lambda_applying_its_argument(&mut ast);
    let mut remap = HashMap::new();
    let copy = ast.clone_subtree(application, &mut remap, 10).unwrap();
    let function = ast.follow_edge(copy, Edge::Function).unwrap();
    assert_eq!(ast.follow_edge(function, Edge::Binder(0)).unwrap(), lambda);
    assert_eq!(ast.binder_references(lambda).len(), 2);
}

#[test]
fn clone_subtree_stops_when_the_fuel_is_spent() {
    let mut ast = AST::new();
    let (lambda, _, _, _) = lambda_applying_its_argument(&mut ast);
    let mut remap = HashMap::new();
    assert!(matches!(
        ast.clone_subtree(lambda, &mut remap, 2),
        Err(ASTError::Exhausted)
    ));
    assert!(matches!(
        ast.clone_subtree(lambda, &mut remap, 0),
        Err(ASTError::Exhausted)
    ));
    // what was there is still there
    assert!(ast.contains_node(lambda));
}

#[test]
fn clone_subtree_of_a_missing_node_fails() {
    let mut ast = AST::new();
    let mut remap = HashMap::new();
    assert!(matches!(
        ast.clone_subtree(3, &mut remap, 10),
        Err(ASTError::Custom(3, _))
    ));
}

#[test]
fn clone_subtree_of_a_leaf_needs_one_unit_of_fuel() {
    let mut ast = AST::new();
    let five = ast.add_node(Node::Primitive(Primitive::Number(5))).unwrap();
    let mut remap = HashMap::new();
    let copy = ast.clone_subtree(five, &mut remap, 1).unwrap();
    assert_ne!(copy, five);
    assert!(matches!(ast.node(copy), Some(Node::Primitive(Primitive::Number(5)))));
}

#[test]
fn checked_removal_refuses_to_orphan_a_variable() {
    let mut ast = AST::new();
    let (lambda, application, _, _) = lambda_applying_its_argument(&mut ast);
    let outside = ast.add_reference(lambda).unwrap();
    assert!(matches!(
        ast.remove_subtree_checked(lambda),
        Err(ASTError::InvalidClosureChain)
    ));
    // the subtree is gone all the same, and the variable has lost its binder
    assert!(!ast.contains_node(lambda));
    assert!(!ast.contains_node(application));
    assert!(ast.contains_node(outside));
    assert!(!ast.check_variable_integrity(outside));
}

#[test]
fn checked_removal_of_a_closed_subtree_succeeds() {
    let mut ast = AST::new();
    let (lambda, _, _, _) = lambda_applying_its_argument(&mut ast);
    let bystander = ast.add_node(Node::Primitive(Primitive::Number(1))).unwrap();
    ast.remove_subtree_checked(lambda).unwrap();
    assert_eq!(ast.node_ids(), vec![bystander]);
    assert!(ast.integrity_check());
}

#[test]
fn removal_notes_who_referred_into_the_subtree() {
    let mut ast = AST::new();
    let (lambda, _, variable, _) = lambda_applying_its_argument(&mut ast);
    let outside = ast.add_reference(lambda).unwrap();
    let mut witnesses = Vec::new();
    ast.remove_subtree_noting(lambda, &mut witnesses);
    witnesses.sort();
    let mut expected = vec![variable, outside];
    expected.sort();
    assert_eq!(witnesses, expected);
}
