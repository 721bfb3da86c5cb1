use std::collections::HashMap;

use lambo::ast::ASTError;
use lambo::ast::AST;
use lambo::effects::Pending;
use lambo::node::Edge;
use lambo::node::Node;
use lambo::node::Primitive;
use lambo::node::VariableKind;
use lambo::tags::ArithmeticTag;

fn picture(ast: &AST) -> Vec<(u32, String, Vec<(String, u32)>)> {
    ast.node_ids()
        .into_iter()
        .map(|id| {
            let mut edges: Vec<(String, u32)> = ast
                .outgoing(id)
                .into_iter()
                .map(|arrow| (format!("{:?}", arrow.label), arrow.target))
                .collect();
            edges.sort();
            (id, format!("{:?}", ast.node(id)), edges)
        })
        .collect()
}

/// The data node of `source`, an operator applied to two numbers, with
/// both bindings in place.
fn applied(source: &str) -> (AST, u32) {
    let mut ast = AST::from_str(source).unwrap();
    let outer = ast.root();
    let inner = ast.follow_edge(outer, Edge::Function).unwrap();
    ast.fire(inner).unwrap();
    assert!(ast.lift_closure(outer, Edge::Function).unwrap());
    ast.fire(outer).unwrap();
    let data = ast.unwrap_closure_chain(ast.root());
    (ast, data)
}

#[test]
fn a_call_wants_a_binder_and_adds_two_nodes() {
    let mut ast = AST::new();
    let function = ast.add_node(Node::Variable(VariableKind::Free("f".to_string()))).unwrap();
    assert!(matches!(
        ast.add_call(function, function),
        Err(ASTError::Custom(node, "no binder")) if node == function
    ));
    assert_eq!(ast.node_count(), 1);
    let lambda = ast.add_node(Node::Lambda { argument_name: "x".to_string() }).unwrap();
    let call = ast.add_call(function, lambda).unwrap();
    assert_eq!(ast.node_count(), 4);
    assert_eq!(ast.edge_count(), 3);
    assert_eq!(ast.follow_edge(call, Edge::Function).unwrap(), function);
    let variable = ast.follow_edge(call, Edge::Parameter).unwrap();
    assert_eq!(ast.follow_edge(variable, Edge::Binder(0)).unwrap(), lambda);
}

#[test]
fn forcing_a_binding_that_holds_a_value_changes_nothing() {
    let mut ast = AST::from_str("with x 3 in x x").unwrap();
    let closure = ast.root();
    let before = picture(&ast);
    assert!(ast.force_closure_parameter(closure, 2).is_ok());
    assert_eq!(picture(&ast), before);
    assert!(matches!(ast.force_closure_parameter(closure, 0), Err(ASTError::Exhausted)));
    assert!(matches!(ast.force_closure_parameter(closure, 1), Err(ASTError::Exhausted)));
    assert_eq!(picture(&ast), before);
}

#[test]
fn forcing_wants_a_parameter() {
    let mut ast = AST::from_str("λx.x").unwrap();
    let lambda = ast.root();
    let before = picture(&ast);
    assert!(matches!(
        ast.force_closure_parameter(lambda, 5),
        Err(ASTError::EdgeNotFound(node, Edge::Parameter)) if node == lambda
    ));
    assert!(matches!(
        ast.evaluate_closure_parameter(lambda, 5),
        Err(ASTError::EdgeNotFound(node, Edge::Parameter)) if node == lambda
    ));
    assert_eq!(picture(&ast), before);
}

#[test]
fn a_binding_that_holds_a_value_is_released_as_it_is() {
    let mut ast = AST::from_str("with x 3 in x").unwrap();
    let closure = ast.root();
    let value = ast.follow_edge(closure, Edge::Parameter).unwrap();
    assert!(matches!(
        ast.evaluate_closure_parameter(closure, 2),
        Ok((node, true)) if node == value
    ));
    assert!(!ast.contains_node(closure));
    assert!(ast.contains_node(value));

    let mut ast = AST::from_str("with x 3 in x x").unwrap();
    let closure = ast.root();
    let value = ast.follow_edge(closure, Edge::Parameter).unwrap();
    let before = picture(&ast);
    assert!(matches!(
        ast.evaluate_closure_parameter(closure, 2),
        Ok((node, false)) if node == value
    ));
    assert_eq!(picture(&ast), before);
}

#[test]
fn a_number_is_read_from_a_binding_that_holds_one() {
    let mut ast = AST::from_str("with x 3 in x").unwrap();
    let closure = ast.root();
    let value = ast.follow_edge(closure, Edge::Parameter).unwrap();
    assert!(matches!(ast.extract_number(closure, 2), Ok(3)));
    assert!(!ast.contains_node(closure));
    assert!(!ast.contains_node(value));
    assert_eq!(ast.node_count(), 1);

    let mut ast = AST::from_str("with x y in x").unwrap();
    let closure = ast.root();
    assert!(matches!(
        ast.extract_number(closure, 2),
        Err(ASTError::Custom(node, "Not a primitive")) if node == closure
    ));
    assert_eq!(ast.node_count(), 1);
}

#[test]
fn bytes_are_no_number() {
    let mut ast = AST::new();
    let closure = ast.add_node(Node::Closure { argument_name: "x".to_string() }).unwrap();
    let bytes = ast.add_node(Node::Primitive(Primitive::Bytes(vec![1, 2]))).unwrap();
    let body = ast.add_node(Node::Variable(VariableKind::Free("y".to_string()))).unwrap();
    ast.add_edge(closure, bytes, Edge::Parameter).unwrap();
    ast.add_edge(closure, body, Edge::Body).unwrap();
    ast.set_root(closure);
    assert!(matches!(
        ast.extract_number(closure, 2),
        Err(ASTError::Custom(node, "NaN")) if node == closure
    ));
    assert_eq!(ast.node_count(), 1);
    assert_eq!(ast.root(), body);
}

#[test]
fn an_argument_that_holds_a_number_is_read_in_place() {
    let (mut ast, data) = applied("+ 2 3");
    assert!(matches!(
        ast.number_argument(data, 7, 2),
        Err(ASTError::EdgeNotFound(node, Edge::Binder(7))) if node == data
    ));
    assert!(matches!(
        ast.argument_parameter(data, 7, 2),
        Err(ASTError::EdgeNotFound(node, Edge::Binder(7))) if node == data
    ));
    let count = ast.node_count();
    assert!(matches!(ast.number_argument(data, 0, 2), Ok(2)));
    assert_eq!(ast.node_count(), count - 2);
    assert!(matches!(ast.number_argument(data, 1, 2), Ok(3)));
    assert_eq!(ast.node_count(), count - 4);
    assert!(ast.contains_node(data));
}

#[test]
fn the_last_reference_takes_the_value_along() {
    let mut ast = AST::from_str("with x 3 in x").unwrap();
    let closure = ast.root();
    let value = ast.follow_edge(closure, Edge::Parameter).unwrap();
    let variable = ast.follow_edge(closure, Edge::Body).unwrap();
    assert!(matches!(
        ast.dereference(closure, 1),
        Err(ASTError::Custom(node, "no bound variable")) if node == closure
    ));
    assert!(matches!(ast.dereference(variable, 0), Ok(node) if node == value));
    assert_eq!(ast.node_count(), 1);
    assert_eq!(ast.root(), value);
}

#[test]
fn a_shared_number_is_copied() {
    let mut ast = AST::from_str("with x 3 in x x").unwrap();
    let closure = ast.root();
    let value = ast.follow_edge(closure, Edge::Parameter).unwrap();
    let application = ast.follow_edge(closure, Edge::Body).unwrap();
    let variable = ast.follow_edge(application, Edge::Function).unwrap();
    let before = picture(&ast);
    assert!(matches!(ast.dereference(variable, 0), Err(ASTError::Exhausted)));
    assert_eq!(picture(&ast), before);
    let copy = ast.dereference(variable, 1).unwrap();
    assert_ne!(copy, value);
    assert!(matches!(ast.node(copy), Some(Node::Primitive(Primitive::Number(3)))));
    assert_eq!(ast.follow_edge(application, Edge::Function).unwrap(), copy);
    assert!(!ast.contains_node(variable));
    assert!(ast.contains_node(value));
    assert_eq!(ast.node_count(), before.len());
}

#[test]
fn arithmetic_on_numbers_in_place_needs_three_levels() {
    let (mut ast, data) = applied("+ 2 3");
    let before = picture(&ast);
    assert!(matches!(ArithmeticTag::Add.evaluate(&mut ast, data, 0), Err(ASTError::Exhausted)));
    assert!(matches!(ArithmeticTag::Add.evaluate(&mut ast, data, 2), Err(ASTError::Exhausted)));
    assert_eq!(picture(&ast), before);
    let result = ArithmeticTag::Add.evaluate(&mut ast, data, 3).unwrap();
    assert!(matches!(ast.node(result), Some(Node::Primitive(Primitive::Number(5)))));
    assert_eq!(ast.node_count(), 1);
}

#[test]
fn an_undefined_result_leaves_the_node_without_its_arguments() {
    let (mut ast, data) = applied("/ 0 5");
    assert!(matches!(
        ArithmeticTag::Div.evaluate(&mut ast, data, 3),
        Err(ASTError::Custom(node, _)) if node == data
    ));
    assert!(ast.contains_node(data));
    assert_eq!(ast.node_count(), 1);
    assert_eq!(ast.edge_count(), 0);
}

#[test]
fn an_effect_at_the_root_wants_its_node() {
    let mut ast = AST::new();
    let pending = Pending { at: 9, dangling: false, flatmap: None };
    assert!(matches!(ast.complete_print(pending, 5), Err(ASTError::Custom(9, "no such node"))));
    assert!(matches!(
        ast.complete_read(pending, vec![7], 5),
        Err(ASTError::Custom(9, "no such node"))
    ));
    assert_eq!(ast.node_count(), 0);
}

#[test]
fn a_text_is_parsed_where_the_grammar_reads_an_expression() {
    assert!(AST::from_str("λx.x").is_ok());
    assert!(AST::from_str("with x 1 in x | f").is_ok());
    assert!(matches!(AST::from_str("(λx.x"), Err(ASTError::Syntax(_, _))));
    assert!(matches!(AST::from_str(""), Err(ASTError::Syntax(_, _))));
    assert!(matches!(AST::from_str("λ.x"), Err(ASTError::Syntax(_, _))));
}

#[test]
fn a_symbol_takes_at_most_five_nodes_and_eight_edges() {
    let mut ast = AST::new();
    ast.add_expr_from_str("#match").unwrap();
    assert_eq!(ast.node_count(), 5);
    assert_eq!(ast.edge_count(), 8);
    ast.add_expr_from_str("x y").unwrap();
    assert_eq!(ast.node_count(), 8);
    assert_eq!(ast.edge_count(), 10);
}

#[test]
fn a_node_without_edges_is_copied_alone() {
    let mut ast = AST::new();
    let number = ast.add_node(Node::Primitive(Primitive::Number(4))).unwrap();
    let mut remap: HashMap<u32, u32> = HashMap::new();
    assert!(matches!(ast.clone_subtree(number, &mut remap, 0), Err(ASTError::Exhausted)));
    assert_eq!(ast.node_count(), 1);
    let copy = ast.clone_subtree(number, &mut remap, 1).unwrap();
    assert_ne!(copy, number);
    assert!(matches!(ast.node(copy), Some(Node::Primitive(Primitive::Number(4)))));
    assert_eq!(ast.node_count(), 2);
    assert_eq!(ast.edge_count(), 0);
}

#[test]
fn what_stands_in_the_place_of_the_root_is_the_root() {
    let mut ast = AST::from_str("+ 2 3").unwrap();
    let root = ast.root();
    let result = ast.evaluate(root).unwrap();
    assert_eq!(ast.root(), result);
    assert!(ast.contains_node(result));
    let mut ast = AST::from_str("with id λx.x in id (id 42)").unwrap();
    let root = ast.root();
    let result = ast.evaluate(root).unwrap();
    assert_eq!(ast.root(), result);
    let value = ast.unwrap_closure_chain(result);
    assert!(matches!(ast.node(value), Some(Node::Primitive(Primitive::Number(42)))));
}

#[test]
fn a_copy_binds_its_variables_to_its_own_binders() {
    let mut ast = AST::from_str("λx.x").unwrap();
    let lambda = ast.root();
    let mut remap: HashMap<u32, u32> = HashMap::new();
    let copy = ast.clone_subtree(lambda, &mut remap, 2).unwrap();
    let variable = ast.follow_edge(copy, Edge::Body).unwrap();
    assert_ne!(variable, ast.follow_edge(lambda, Edge::Body).unwrap());
    assert_eq!(ast.follow_edge(variable, Edge::Binder(0)).unwrap(), copy);
    assert_eq!(ast.node_count(), 4);
    assert_eq!(ast.edge_count(), 4);
    assert_eq!(remap.get(&lambda), Some(&copy));
}

#[test]
fn a_copy_leaves_outer_binders_where_they_are() {
    let mut ast = AST::from_str("λy.λx.y").unwrap();
    let outer = ast.root();
    let inner = ast.follow_edge(outer, Edge::Body).unwrap();
    let mut remap: HashMap<u32, u32> = HashMap::new();
    let copy = ast.clone_subtree(inner, &mut remap, 5).unwrap();
    let variable = ast.follow_edge(copy, Edge::Body).unwrap();
    assert_eq!(ast.follow_edge(variable, Edge::Binder(0)).unwrap(), outer);
}

#[test]
fn a_copy_needs_fuel_for_the_depth_of_the_subtree() {
    let mut ast = AST::from_str("λx.x").unwrap();
    let lambda = ast.root();
    let mut remap: HashMap<u32, u32> = HashMap::new();
    assert!(matches!(ast.clone_subtree(lambda, &mut remap, 1), Err(ASTError::Exhausted)));
    let mut remap: HashMap<u32, u32> = HashMap::new();
    assert!(ast.clone_subtree(lambda, &mut remap, 2).is_ok());
}

#[test]
fn collecting_twice_is_collecting_once() {
    let mut ast = AST::from_str("with x 1 in with y x in 2").unwrap();
    assert!(matches!(ast.garbage_collect(), Ok(2)));
    assert_eq!(ast.node_count(), 1);
    assert!(matches!(ast.node(ast.root()), Some(Node::Primitive(Primitive::Number(2)))));
    let before = picture(&ast);
    assert!(matches!(ast.garbage_collect(), Ok(0)));
    assert_eq!(picture(&ast), before);
}

#[test]
fn a_value_built_from_one_variable_twice_refers_to_one_binding_twice() {
    let mut ast = AST::from_str("with pair (#constructor 2) in with x 1 in pair x x").unwrap();
    assert!(ast.integrity_check());
    let root = ast.evaluate_root().unwrap();
    let data = ast.unwrap_closure_chain(root);
    assert!(matches!(ast.node(data), Some(Node::Data { .. })));
    let first = ast.follow_edge(data, Edge::Binder(0)).unwrap();
    let second = ast.follow_edge(data, Edge::Binder(1)).unwrap();
    assert_eq!(first, second);
    assert!(ast.check_constructor(data));
    assert!(!ast.check_data_integrity(data));
}

#[test]
fn a_text_gives_its_expression_and_nothing_else() {
    let sizes = [
        ("5", 1, 0),
        ("x", 1, 0),
        ("λx.x", 2, 2),
        ("with x 1 in x", 3, 3),
        ("+ 2 3", 7, 8),
        ("#match", 5, 8),
        ("f x | g", 5, 4),
    ];
    for (text, nodes, edges) in sizes {
        let ast = AST::from_str(text).unwrap();
        assert_eq!(ast.node_count(), nodes, "{}", text);
        assert_eq!(ast.edge_count(), edges, "{}", text);
        for id in ast.node_ids() {
            let owners = ast
                .incoming(id)
                .into_iter()
                .filter(|arrow| {
                    matches!(arrow.label, Edge::Body | Edge::Parameter | Edge::Function)
                })
                .count();
            if id == ast.root() {
                assert_eq!(owners, 0, "{}", text);
            } else {
                assert_eq!(owners, 1, "{}", text);
            }
        }
    }
}
