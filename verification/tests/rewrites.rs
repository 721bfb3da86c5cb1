use lambo::ast::ASTError;
use lambo::ast::AST;
use lambo::closure::Firing;
use lambo::node::Edge;
use lambo::node::Node;
use lambo::node::Primitive;
use lambo::node::VariableKind;
use lambo::tags::ArithmeticTag;
use lambo::tags::ConstructorTag;

fn a_number(ast: &mut AST, value: usize) -> u32 {
    ast.add_node(Node::Primitive(Primitive::Number(value))).unwrap()
}

fn a_closure(ast: &mut AST, name: &str, body: u32, parameter: u32) -> u32 {
    let closure = ast.add_node(Node::Closure { argument_name: name.to_string() }).unwrap();
    ast.add_edge(closure, body, Edge::Body).unwrap();
    ast.add_edge(closure, parameter, Edge::Parameter).unwrap();
    closure
}

fn a_lambda(ast: &mut AST, name: &str) -> u32 {
    ast.add_node(Node::Lambda { argument_name: name.to_string() }).unwrap()
}

#[test]
fn remove_closure_hands_the_owners_the_body() {
    let mut ast = AST::new();
    let body = a_number(&mut ast, 1);
    let parameter = a_number(&mut ast, 2);
    let closure = a_closure(&mut ast, "x", body, parameter);
    let owner = a_lambda(&mut ast, "y");
    ast.add_edge(owner, closure, Edge::Body).unwrap();
    ast.set_root(closure);
    assert_eq!(ast.remove_closure(closure).unwrap(), parameter);
    assert!(!ast.contains_node(closure));
    assert_eq!(ast.follow_edge(owner, Edge::Body).unwrap(), body);
    assert_eq!(ast.root(), body);
    assert!(ast.contains_node(parameter));
    assert!(ast.get_parent(parameter).is_err());
}

#[test]
fn remove_closure_wants_a_whole_closure() {
    let mut ast = AST::new();
    let lambda = a_lambda(&mut ast, "x");
    assert!(matches!(ast.remove_closure(lambda), Err(ASTError::InvalidClosureChain)));
    let bare = ast.add_node(Node::Closure { argument_name: "x".to_string() }).unwrap();
    assert!(matches!(
        ast.remove_closure(bare),
        Err(ASTError::EdgeNotFound(node, Edge::Body)) if node == bare
    ));
    let body = a_number(&mut ast, 1);
    ast.add_edge(bare, body, Edge::Body).unwrap();
    assert!(matches!(
        ast.remove_closure(bare),
        Err(ASTError::EdgeNotFound(node, Edge::Parameter)) if node == bare
    ));
    assert!(ast.contains_node(bare));
}

#[test]
fn lift_moves_the_closure_above_the_application() {
    // owner -> application -(function)-> closure -(body)-> head
    let mut ast = AST::new();
    let head = a_lambda(&mut ast, "y");
    let bound = a_number(&mut ast, 1);
    let closure = a_closure(&mut ast, "x", head, bound);
    let argument = a_number(&mut ast, 2);
    let application = ast.add_application(closure, argument).unwrap();
    let owner = a_lambda(&mut ast, "o");
    ast.add_edge(owner, application, Edge::Body).unwrap();
    assert!(ast.lift_closure(application, Edge::Function).unwrap());
    assert_eq!(ast.follow_edge(owner, Edge::Body).unwrap(), closure);
    assert_eq!(ast.follow_edge(closure, Edge::Body).unwrap(), application);
    assert_eq!(ast.follow_edge(closure, Edge::Parameter).unwrap(), bound);
    assert_eq!(ast.follow_edge(application, Edge::Function).unwrap(), head);
    assert_eq!(ast.follow_edge(application, Edge::Parameter).unwrap(), argument);
    assert_eq!(ast.node_count(), 6);
    // nothing left to lift
    assert!(!ast.lift_closure(application, Edge::Function).unwrap());
}

#[test]
fn lift_closure_chain_lifts_every_closure_in_order() {
    let mut ast = AST::new();
    let head = a_lambda(&mut ast, "y");
    let one = a_number(&mut ast, 1);
    let two = a_number(&mut ast, 2);
    let inner = a_closure(&mut ast, "b", head, two);
    let outer = a_closure(&mut ast, "a", inner, one);
    let argument = a_number(&mut ast, 3);
    let application = ast.add_application(outer, argument).unwrap();
    ast.set_root(application);
    assert_eq!(ast.lift_closure_chain(application, Edge::Function, 10).unwrap(), 2);
    assert_eq!(ast.root(), outer);
    assert_eq!(ast.follow_edge(outer, Edge::Body).unwrap(), inner);
    assert_eq!(ast.follow_edge(inner, Edge::Body).unwrap(), application);
    assert_eq!(ast.follow_edge(application, Edge::Function).unwrap(), head);
}

#[test]
fn lift_closure_chain_stops_when_the_fuel_is_spent() {
    let mut ast = AST::new();
    let head = a_lambda(&mut ast, "y");
    let one = a_number(&mut ast, 1);
    let two = a_number(&mut ast, 2);
    let inner = a_closure(&mut ast, "b", head, two);
    let outer = a_closure(&mut ast, "a", inner, one);
    let argument = a_number(&mut ast, 3);
    let application = ast.add_application(outer, argument).unwrap();
    assert!(matches!(
        ast.lift_closure_chain(application, Edge::Function, 1),
        Err(ASTError::Exhausted)
    ));
    assert!(matches!(
        ast.lift_closure_chain(application, Edge::Body, 5),
        Err(ASTError::EdgeNotFound(_, Edge::Body))
    ));
}

#[test]
fn an_application_of_a_number_is_stuck() {
    let mut ast = AST::new();
    let function = a_number(&mut ast, 1);
    let argument = a_number(&mut ast, 2);
    let application = ast.add_application(function, argument).unwrap();
    assert_eq!(ast.fire(application).unwrap(), Firing::Stuck);
    assert_eq!(ast.node_count(), 3);
    assert_eq!(ast.edge_count(), 2);
}

#[test]
fn a_lambda_that_ignores_its_argument_drops_it() {
    let mut ast = AST::new();
    let lambda = a_lambda(&mut ast, "x");
    let body = a_number(&mut ast, 7);
    ast.add_edge(lambda, body, Edge::Body).unwrap();
    let argument = a_number(&mut ast, 99);
    let application = ast.add_application(lambda, argument).unwrap();
    ast.set_root(application);
    assert_eq!(
        ast.fire(application).unwrap(),
        Firing::Dead { body, parameter: argument }
    );
    assert!(!ast.contains_node(lambda));
    assert!(!ast.contains_node(application));
    assert_eq!(ast.root(), body);
    // the parameter is left for the caller to delete
    assert!(ast.contains_node(argument));
}

#[test]
fn a_variable_as_argument_is_aliased() {
    // with y 5 in (λx.x) y
    let mut ast = AST::new();
    let lambda = a_lambda(&mut ast, "x");
    let use_of_x = ast.add_reference(lambda).unwrap();
    ast.add_edge(lambda, use_of_x, Edge::Body).unwrap();
    let five = a_number(&mut ast, 5);
    let closure = ast.add_node(Node::Closure { argument_name: "y".to_string() }).unwrap();
    let use_of_y = ast.add_reference(closure).unwrap();
    let application = ast.add_application(lambda, use_of_y).unwrap();
    ast.add_edge(closure, application, Edge::Body).unwrap();
    ast.add_edge(closure, five, Edge::Parameter).unwrap();
    assert_eq!(
        ast.fire(application).unwrap(),
        Firing::Alias { body: use_of_x, parameter: use_of_y }
    );
    assert_eq!(ast.follow_edge(use_of_x, Edge::Binder(0)).unwrap(), closure);
    assert_eq!(ast.follow_edge(closure, Edge::Body).unwrap(), use_of_x);
    assert!(!ast.contains_node(lambda));
    assert!(!ast.contains_node(application));
}

#[test]
fn a_lambda_becomes_a_closure_over_its_argument() {
    let mut ast = AST::new();
    let lambda = a_lambda(&mut ast, "x");
    let use_of_x = ast.add_reference(lambda).unwrap();
    ast.add_edge(lambda, use_of_x, Edge::Body).unwrap();
    let argument = a_number(&mut ast, 4);
    let application = ast.add_application(lambda, argument).unwrap();
    ast.set_root(application);
    assert_eq!(ast.fire(application).unwrap(), Firing::Bound { closure: lambda });
    assert!(matches!(ast.node(lambda), Some(Node::Closure { argument_name }) if argument_name == "x"));
    assert_eq!(ast.follow_edge(lambda, Edge::Body).unwrap(), use_of_x);
    assert_eq!(ast.follow_edge(lambda, Edge::Parameter).unwrap(), argument);
    assert_eq!(ast.follow_edge(use_of_x, Edge::Binder(0)).unwrap(), lambda);
    assert!(!ast.contains_node(application));
    assert_eq!(ast.root(), lambda);
}

#[test]
fn fire_checks_before_it_changes_anything() {
    let mut ast = AST::new();
    let number = a_number(&mut ast, 1);
    assert!(matches!(ast.fire(number), Err(ASTError::Custom(node, _)) if node == number));
    let application = ast.add_node(Node::Application).unwrap();
    assert!(matches!(
        ast.fire(application),
        Err(ASTError::EdgeNotFound(node, Edge::Function)) if node == application
    ));
    let lambda = a_lambda(&mut ast, "x");
    ast.add_edge(application, lambda, Edge::Function).unwrap();
    assert!(matches!(
        ast.fire(application),
        Err(ASTError::EdgeNotFound(node, Edge::Parameter)) if node == application
    ));
    ast.add_edge(application, number, Edge::Parameter).unwrap();
    assert!(matches!(
        ast.fire(application),
        Err(ASTError::EdgeNotFound(node, Edge::Body)) if node == lambda
    ));
    assert_eq!(ast.node_count(), 3);
}

#[test]
fn a_variable_bound_to_the_lambda_it_is_applied_to_is_refused() {
    let mut ast = AST::new();
    let lambda = a_lambda(&mut ast, "x");
    let body = ast.add_reference(lambda).unwrap();
    ast.add_edge(lambda, body, Edge::Body).unwrap();
    let argument = ast.add_reference(lambda).unwrap();
    let application = ast.add_application(lambda, argument).unwrap();
    assert!(matches!(ast.fire(application), Err(ASTError::InvalidClosureChain)));
    assert!(ast.contains_node(application));
}

#[test]
fn the_last_reference_takes_the_parameter_along() {
    let mut ast = AST::new();
    let parameter = a_number(&mut ast, 5);
    let closure = ast.add_node(Node::Closure { argument_name: "x".to_string() }).unwrap();
    let variable = ast.add_reference(closure).unwrap();
    ast.add_edge(closure, variable, Edge::Body).unwrap();
    ast.add_edge(closure, parameter, Edge::Parameter).unwrap();
    ast.set_root(closure);
    assert_eq!(ast.release_closure(closure).unwrap(), (parameter, true));
    assert!(!ast.contains_node(closure));
    assert_eq!(ast.root(), variable);
}

#[test]
fn a_shared_binding_stays() {
    let mut ast = AST::new();
    let parameter = a_number(&mut ast, 5);
    let closure = ast.add_node(Node::Closure { argument_name: "x".to_string() }).unwrap();
    let first = ast.add_reference(closure).unwrap();
    let second = ast.add_reference(closure).unwrap();
    let body = ast.add_application(first, second).unwrap();
    ast.add_edge(closure, body, Edge::Body).unwrap();
    ast.add_edge(closure, parameter, Edge::Parameter).unwrap();
    assert_eq!(ast.release_closure(closure).unwrap(), (parameter, false));
    assert!(ast.contains_node(closure));
    assert_eq!(ast.node_count(), 5);
}

#[test]
fn the_only_occurrence_of_a_variable_is_never_copied() {
    // with x (λy.y) in x
    let mut ast = AST::new();
    let value = a_lambda(&mut ast, "y");
    let use_of_y = ast.add_reference(value).unwrap();
    ast.add_edge(value, use_of_y, Edge::Body).unwrap();
    let closure = ast.add_node(Node::Closure { argument_name: "x".to_string() }).unwrap();
    let variable = ast.add_reference(closure).unwrap();
    ast.add_edge(closure, variable, Edge::Body).unwrap();
    ast.add_edge(closure, value, Edge::Parameter).unwrap();
    ast.set_root(closure);
    let before = ast.node_count();
    assert_eq!(ast.dereference(variable, 10).unwrap(), value);
    assert_eq!(ast.node_count(), before - 2);
    assert!(!ast.contains_node(variable));
    assert!(!ast.contains_node(closure));
    assert_eq!(ast.root(), value);
    assert_eq!(ast.follow_edge(value, Edge::Body).unwrap(), use_of_y);
}

#[test]
fn a_shared_variable_gets_a_copy() {
    // with x (λy.y) in x x
    let mut ast = AST::new();
    let value = a_lambda(&mut ast, "y");
    let use_of_y = ast.add_reference(value).unwrap();
    ast.add_edge(value, use_of_y, Edge::Body).unwrap();
    let closure = ast.add_node(Node::Closure { argument_name: "x".to_string() }).unwrap();
    let first = ast.add_reference(closure).unwrap();
    let second = ast.add_reference(closure).unwrap();
    let body = ast.add_application(first, second).unwrap();
    ast.add_edge(closure, body, Edge::Body).unwrap();
    ast.add_edge(closure, value, Edge::Parameter).unwrap();
    let before = ast.node_count();
    let copy = ast.dereference(first, 10).unwrap();
    assert_ne!(copy, value);
    // two nodes copied, one variable gone
    assert_eq!(ast.node_count(), before + 1);
    assert_eq!(ast.follow_edge(body, Edge::Function).unwrap(), copy);
    assert_eq!(ast.follow_edge(closure, Edge::Parameter).unwrap(), value);
    let inner = ast.follow_edge(copy, Edge::Body).unwrap();
    assert_eq!(ast.follow_edge(inner, Edge::Binder(0)).unwrap(), copy);
    // now the second use is the last one
    assert_eq!(ast.dereference(second, 10).unwrap(), value);
    assert!(!ast.contains_node(closure));
}

#[test]
fn substitute_moves_or_copies() {
    let mut ast = AST::new();
    let owner = a_lambda(&mut ast, "o");
    let variable = ast.add_node(Node::Variable(VariableKind::Free("v".to_string()))).unwrap();
    ast.add_edge(owner, variable, Edge::Body).unwrap();
    let value = a_number(&mut ast, 9);
    assert_eq!(ast.substitute(variable, value, true, 5).unwrap(), value);
    assert_eq!(ast.follow_edge(owner, Edge::Body).unwrap(), value);
    assert!(matches!(
        ast.substitute(value, value, true, 5),
        Err(ASTError::InvalidClosureChain)
    ));
    let other = a_number(&mut ast, 3);
    let copy = ast.substitute(value, other, false, 5).unwrap();
    assert_ne!(copy, other);
    assert!(ast.contains_node(other));
    assert_eq!(ast.follow_edge(owner, Edge::Body).unwrap(), copy);
}

#[test]
fn add_constructor_builds_one_lambda_per_argument() {
    let mut ast = AST::new();
    let tag = ConstructorTag::Arithmetic(ArithmeticTag::Add);
    let head = ast.add_constructor(tag).unwrap();
    assert_eq!(ast.node_count(), 3);
    assert!(matches!(ast.node(head), Some(Node::Lambda { argument_name }) if argument_name == "what"));
    let second = ast.follow_edge(head, Edge::Body).unwrap();
    assert!(matches!(ast.node(second), Some(Node::Lambda { argument_name }) if argument_name == "to"));
    let data = ast.follow_edge(second, Edge::Body).unwrap();
    assert!(matches!(ast.node(data), Some(Node::Data { tag: found }) if *found == tag));
    assert_eq!(ast.follow_edge(data, Edge::Binder(0)).unwrap(), head);
    assert_eq!(ast.follow_edge(data, Edge::Binder(1)).unwrap(), second);
    assert!(ast.follow_edge(data, Edge::Binder(2)).is_err());
    assert_eq!(ConstructorTag::get_binders(&ast, data), vec![head, second]);
}

#[test]
fn a_constructor_without_arguments_is_a_data_node() {
    let mut ast = AST::new();
    let tag = ConstructorTag::CustomTag { uid: 7, arity: 0 };
    let head = ast.add_constructor(tag).unwrap();
    assert_eq!(ast.node_count(), 1);
    assert!(matches!(ast.node(head), Some(Node::Data { .. })));
    assert!(ConstructorTag::get_binders(&ast, head).is_empty());
}

#[test]
fn church_booleans_select_an_argument() {
    let mut ast = AST::new();
    let yes = ast.insert_boolean(true).unwrap();
    let inner = ast.follow_edge(yes, Edge::Body).unwrap();
    let variable = ast.follow_edge(inner, Edge::Body).unwrap();
    assert_eq!(ast.follow_edge(variable, Edge::Binder(0)).unwrap(), yes);
    let no = ast.insert_boolean(false).unwrap();
    let inner = ast.follow_edge(no, Edge::Body).unwrap();
    let variable = ast.follow_edge(inner, Edge::Body).unwrap();
    assert_eq!(ast.follow_edge(variable, Edge::Binder(0)).unwrap(), inner);
    assert_eq!(ast.node_count(), 6);
}

#[test]
fn add_reference_wants_a_live_binder() {
    let mut ast = AST::new();
    assert!(matches!(ast.add_reference(5), Err(ASTError::Custom(5, _))));
    assert_eq!(ast.node_count(), 0);
    assert!(matches!(ast.add_application(1, 2), Err(ASTError::Custom(1, _))));
}

#[test]
fn replace_by_puts_a_node_in_the_place_of_another() {
    let mut ast = AST::new();
    let owner = a_lambda(&mut ast, "o");
    let old = a_number(&mut ast, 1);
    let new = a_number(&mut ast, 2);
    ast.add_edge(owner, old, Edge::Body).unwrap();
    ast.replace_by(old, new).unwrap();
    assert_eq!(ast.follow_edge(owner, Edge::Body).unwrap(), new);
    assert!(!ast.contains_node(old));
    assert!(matches!(ast.replace_by(new, new), Err(ASTError::InvalidClosureChain)));
    assert!(matches!(ast.replace_by(new, 400), Err(ASTError::InvalidClosureChain)));
}
