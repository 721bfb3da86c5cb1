use lambo::ast::AST;
use lambo::node::Edge;
use lambo::node::Node;
use lambo::node::Primitive;
use lambo::node::VariableKind;
use lambo::tags::ArithmeticTag;
use lambo::tags::ConstructorTag;

#[test]
fn an_empty_graph_keeps_the_invariants() {
    assert!(AST::new().integrity_check());
}

#[test]
fn a_bound_variable_without_binder_breaks_them() {
    let mut ast = AST::new();
    let variable = ast.add_node(Node::Variable(VariableKind::Bound)).unwrap();
    assert!(!ast.check_variable_integrity(variable));
    assert!(!ast.integrity_check());
}

#[test]
fn a_bound_variable_must_point_at_a_binder() {
    let mut ast = AST::new();
    let number = ast.add_node(Node::Primitive(Primitive::Number(1))).unwrap();
    let variable = ast.add_node(Node::Variable(VariableKind::Bound)).unwrap();
    ast.add_edge(variable, number, Edge::Binder(0)).unwrap();
    assert!(!ast.check_variable_integrity(variable));
    assert!(ast.check_variable_integrity(number));
    assert!(!ast.integrity_check());
}

#[test]
fn a_bound_variable_has_no_other_edge() {
    let mut ast = AST::new();
    let lambda = ast.add_node(Node::Lambda { argument_name: "x".to_string() }).unwrap();
    let variable = ast.add_reference(lambda).unwrap();
    assert!(ast.check_variable_integrity(variable));
    assert!(ast.integrity_check());
    ast.add_edge(variable, lambda, Edge::Body).unwrap();
    assert!(!ast.check_variable_integrity(variable));
    let mut other = AST::new();
    let lambda = other.add_node(Node::Lambda { argument_name: "x".to_string() }).unwrap();
    let variable = other.add_node(Node::Variable(VariableKind::Bound)).unwrap();
    other.add_edge(variable, lambda, Edge::Binder(1)).unwrap();
    assert!(!other.check_variable_integrity(variable));
}

#[test]
fn a_data_node_has_one_binder_per_argument() {
    let mut ast = AST::new();
    let tag = ConstructorTag::Arithmetic(ArithmeticTag::Add);
    let head = ast.add_constructor(tag).unwrap();
    let second = ast.follow_edge(head, Edge::Body).unwrap();
    let data = ast.follow_edge(second, Edge::Body).unwrap();
    assert!(ast.check_data_integrity(data));
    assert!(ast.check_data_integrity(head));
    assert!(ast.integrity_check());
    ast.remove_edge(data, Edge::Binder(1));
    assert!(!ast.check_data_integrity(data));
    assert!(!ast.integrity_check());
}

#[test]
fn the_binders_of_a_data_node_are_all_different() {
    let mut ast = AST::new();
    let tag = ConstructorTag::Arithmetic(ArithmeticTag::Add);
    let head = ast.add_constructor(tag).unwrap();
    let second = ast.follow_edge(head, Edge::Body).unwrap();
    let data = ast.follow_edge(second, Edge::Body).unwrap();
    ast.redirect_edge(data, Edge::Binder(1), head).unwrap();
    assert!(!ast.check_data_integrity(data));
}

#[test]
fn a_data_node_has_no_edge_beyond_its_arity() {
    let mut ast = AST::new();
    let tag = ConstructorTag::CustomTag { uid: 0, arity: 1 };
    let head = ast.add_constructor(tag).unwrap();
    let data = ast.follow_edge(head, Edge::Body).unwrap();
    assert!(ast.check_data_integrity(data));
    let extra = ast.add_node(Node::Lambda { argument_name: "y".to_string() }).unwrap();
    ast.add_edge(data, extra, Edge::Binder(1)).unwrap();
    assert!(!ast.check_data_integrity(data));
    let mut other = AST::new();
    let data = other.add_node(Node::Data { tag }).unwrap();
    let number = other.add_node(Node::Primitive(Primitive::Number(1))).unwrap();
    other.add_edge(data, number, Edge::Binder(0)).unwrap();
    assert!(!other.check_data_integrity(data));
    assert!(!other.is_binder_node(number));
}

#[test]
fn the_same_variable_twice_gives_a_data_node_one_binder_twice() {
    // the shortcut for a variable as argument points both binder edges of
    // the sum at the one binding of x
    let mut ast = AST::from_str("with x 2 in + x x").unwrap();
    assert!(ast.integrity_check());
    let closure = ast.root();
    let outer = ast.follow_edge(closure, Edge::Body).unwrap();
    let inner = ast.follow_edge(outer, Edge::Function).unwrap();
    ast.fire(inner).unwrap();
    ast.fire(outer).unwrap();
    let data = ast.follow_edge(closure, Edge::Body).unwrap();
    assert_eq!(ast.follow_edge(data, Edge::Binder(0)).unwrap(), closure);
    assert_eq!(ast.follow_edge(data, Edge::Binder(1)).unwrap(), closure);
    assert!(!ast.check_data_integrity(data));
    for id in ast.node_ids() {
        assert!(ast.check_variable_integrity(id));
    }
}

#[test]
fn a_value_has_all_its_arguments_and_a_computation_at_most_its_own() {
    let mut ast = AST::new();
    let tag = ConstructorTag::CustomTag { uid: 0, arity: 2 };
    let head = ast.add_constructor(tag).unwrap();
    let second = ast.follow_edge(head, Edge::Body).unwrap();
    let data = ast.follow_edge(second, Edge::Body).unwrap();
    assert!(ast.check_constructor(data));
    assert!(ast.check_constructor(head));
    ast.remove_edge(data, Edge::Binder(1));
    assert!(!ast.check_constructor(data));
    let sum = ConstructorTag::Arithmetic(ArithmeticTag::Add);
    let head = ast.add_constructor(sum).unwrap();
    let second = ast.follow_edge(head, Edge::Body).unwrap();
    let data = ast.follow_edge(second, Edge::Body).unwrap();
    ast.remove_edge(data, Edge::Binder(0));
    assert!(ast.check_constructor(data));
    let number = ast.add_node(Node::Primitive(Primitive::Number(1))).unwrap();
    ast.redirect_edge(data, Edge::Binder(1), number).unwrap();
    assert!(!ast.check_constructor(data));
}
