use lambo::ast::ASTError;
use lambo::ast::AST;
use lambo::node::Edge;
use lambo::node::Node;
use lambo::node::Primitive;
use lambo::node::VariableKind;
use lambo::reduce::Kind;
use lambo::tags::ArithmeticTag;
use lambo::tags::ConstructorTag;
use lambo::tags::HelperFunctionTag;

fn value_of(ast: &AST, node: u32) -> Option<usize> {
    match ast.node(ast.unwrap_closure_chain(node)) {
        Some(Node::Primitive(Primitive::Number(number))) => Some(*number),
        _ => None,
    }
}

fn run(source: &str) -> (AST, u32) {
    let mut ast = AST::from_str(source).unwrap();
    let root = ast.evaluate_root().unwrap();
    (ast, root)
}

fn shape(ast: &AST) -> Vec<(u32, String, Vec<(String, u32)>)> {
    ast.node_ids()
        .into_iter()
        .map(|id| {
            let mut edges: Vec<(String, u32)> = ast
                .outgoing(id)
                .into_iter()
                .map(|arrow| (format!("{:?}", arrow.label), arrow.target))
                .collect();
            edges.sort();
            (id, format!("{:?}", ast.node(id)), edges)
        })
        .collect()
}

#[test]
fn subtraction_stops_at_zero() {
    let (ast, root) = run("- 5 3");
    assert_eq!(value_of(&ast, root), Some(0));
    let (ast, root) = run("- 3 5");
    assert_eq!(value_of(&ast, root), Some(2));
}

#[test]
fn division_divides_the_second_by_the_first() {
    let (ast, root) = run("/ 3 7");
    assert_eq!(value_of(&ast, root), Some(2));
}

#[test]
fn power_raises_the_second_to_the_first() {
    let (ast, root) = run("^ 3 2");
    assert_eq!(value_of(&ast, root), Some(8));
}

#[test]
fn division_by_zero_is_a_domain_error() {
    let mut ast = AST::from_str("/ 0 7").unwrap();
    assert!(matches!(ast.evaluate_root(), Err(ASTError::Custom(_, _))));
}

#[test]
fn overflow_is_a_domain_error() {
    let mut ast = AST::from_str("* 18446744073709551615 2").unwrap();
    assert!(matches!(ast.evaluate_root(), Err(ASTError::Custom(_, _))));
}

#[test]
fn arithmetic_on_what_is_no_number_is_a_domain_error() {
    let mut ast = AST::from_str("+ x 1").unwrap();
    assert!(matches!(ast.evaluate_root(), Err(ASTError::Custom(_, _))));
}

#[test]
fn equality_answers_with_a_church_boolean() {
    let (ast, root) = run("=num 4 4 10 20");
    assert_eq!(value_of(&ast, root), Some(10));
    let (ast, root) = run("=num 4 5 10 20");
    assert_eq!(value_of(&ast, root), Some(20));
}

#[test]
fn the_bar_applies_the_right_to_the_left() {
    let (ast, root) = run("3 | + 4");
    assert_eq!(value_of(&ast, root), Some(7));
    let (ast, root) = run("3 | - 1 | * 5");
    assert_eq!(value_of(&ast, root), Some(10));
}

#[test]
fn a_binding_is_shared_by_its_uses() {
    let (ast, root) = run("with x (+ 1 2) in * x x");
    assert_eq!(value_of(&ast, root), Some(9));
}

#[test]
fn an_unused_argument_is_never_reduced() {
    // the argument would not end if it were reduced
    let (ast, root) = run("(λx.5) ((λy.y y) (λy.y y))");
    assert_eq!(value_of(&ast, root), Some(5));
    assert_eq!(ast.node_count(), 1);
}

#[test]
fn a_value_reduces_to_itself_and_nothing_changes() {
    for source in ["42", "x", "λx.x", "x 1 2", "with y 1 in λx.y"] {
        let mut ast = AST::from_str(source).unwrap();
        let root = ast.root();
        let before = shape(&ast);
        assert_eq!(ast.evaluate_root().unwrap(), root);
        assert_eq!(ast.root(), root);
        assert_eq!(shape(&ast), before);
        assert_eq!(ast.evaluate(root).unwrap(), root);
        assert_eq!(shape(&ast), before);
    }
}

#[test]
fn reducing_twice_is_reducing_once() {
    let (mut ast, root) = run("with pair λa.λb.λs.s a b in pair 3 5");
    let before = shape(&ast);
    assert_eq!(ast.evaluate_root().unwrap(), root);
    assert_eq!(shape(&ast), before);
}

#[test]
fn the_root_is_live_after_reduction() {
    for source in [
        "+ 2 3",
        "(λx.λy.x) 7 99",
        "with id λx.x in id (id 42)",
        "with two (#constructor 2) in #match two (λa.λb.+ a b) (λv.0) (two 10 20)",
    ] {
        let (ast, root) = run(source);
        assert_eq!(ast.root(), root);
        assert!(ast.contains_node(root));
        assert_ne!(ast.classify(root), Kind::Missing);
        assert!(ast.check_variable_integrity(root));
    }
}

#[test]
fn every_data_node_has_its_arguments_after_reduction() {
    for source in [
        "+ 2 3",
        "with two (#constructor 2) in two 1 2",
        "with two (#constructor 2) in #match two (λa.λb.+ a b) (λv.0) (two 10 20)",
        "with x 2 in with f (λy. + x y) in f",
        "λa.λb.+ a b",
    ] {
        let mut ast = AST::from_str(source).unwrap();
        ast.garbage_collect().unwrap();
        ast.evaluate_root().unwrap();
        for id in ast.node_ids() {
            assert!(ast.check_constructor(id), "{}", source);
            assert!(ast.check_variable_integrity(id), "{}", source);
        }
    }
}

#[test]
fn the_arguments_of_a_data_node_are_forced_through_its_binder_edges() {
    // (+ 2) 3 with the sum's bindings in place
    let mut ast = AST::from_str("+ (* 2 2) 3").unwrap();
    let outer = ast.root();
    let inner = ast.follow_edge(outer, Edge::Function).unwrap();
    ast.fire(inner).unwrap();
    assert!(ast.lift_closure(outer, Edge::Function).unwrap());
    ast.fire(outer).unwrap();
    let first = ast.root();
    let second = ast.follow_edge(first, Edge::Body).unwrap();
    let data = ast.follow_edge(second, Edge::Body).unwrap();
    assert_eq!(ast.number_argument(data, 0, 100).unwrap(), 4);
    assert!(!ast.contains_node(first));
    assert_eq!(ast.root(), second);
    let (value, dangling) = ast.argument_parameter(data, 1, 100).unwrap();
    assert!(dangling);
    assert!(matches!(ast.node(value), Some(Node::Primitive(Primitive::Number(3)))));
    assert_eq!(ast.root(), data);
    assert!(matches!(
        ast.argument_parameter(data, 1, 100),
        Err(ASTError::EdgeNotFound(node, Edge::Binder(1))) if node == data
    ));
}

#[test]
fn only_a_data_node_that_computes_gives_up_its_bindings() {
    // a value keeps its arguments
    let mut ast = AST::from_str("with two (#constructor 2) in two 1 2").unwrap();
    let root = ast.evaluate_root().unwrap();
    let data = ast.unwrap_closure_chain(root);
    assert!(matches!(
        ast.argument_parameter(data, 0, 100),
        Err(ASTError::InvalidClosureChain)
    ));
    assert!(ast.check_constructor(data));
    assert!(matches!(
        ast.extract_argument(root, 0, 100),
        Err(ASTError::EdgeNotFound(_, Edge::Binder(0)))
    ));
}

#[test]
fn every_variable_has_its_binder_after_reduction() {
    for source in [
        "+ 2 3",
        "(λx.λy.x) 7 99",
        "with id λx.x in id (id 42)",
        "with pair λa.λb.λs.s a b in (pair 3 5) (λa.λb. + a b)",
        "with two (#constructor 2) in #match two (λa.λb.+ a b) (λv.0) (two 10 20)",
        "with k λx.λy.x in k",
    ] {
        let (ast, _) = run(source);
        for id in ast.node_ids() {
            assert!(ast.check_variable_integrity(id), "{}", source);
        }
    }
}

#[test]
fn evaluate_returns_what_stands_in_the_place_of_the_node() {
    // (λx. + x 1) 2, reduced at the application inside a lambda body
    let mut ast = AST::from_str("λz. (λx. + x 1) 2").unwrap();
    let outer = ast.root();
    let application = ast.follow_edge(outer, Edge::Body).unwrap();
    let result = ast.evaluate(application).unwrap();
    assert_eq!(ast.follow_edge(outer, Edge::Body).unwrap(), result);
    assert_eq!(value_of(&ast, result), Some(3));
    assert_eq!(ast.root(), outer);
    assert_eq!(ast.focus(), result);
}

#[test]
fn the_budget_bounds_the_depth() {
    let mut ast = AST::from_str("(λx.x x) (λx.x x)").unwrap();
    let root = ast.root();
    assert!(matches!(ast.evaluate_bounded(root, 200), Err(ASTError::Exhausted)));
    let mut ast = AST::from_str("+ 2 3").unwrap();
    let root = ast.root();
    assert!(matches!(ast.evaluate_bounded(root, 0), Err(ASTError::Exhausted)));
    assert!(matches!(ast.evaluate_bounded(root, 2), Err(ASTError::Exhausted)));
    let mut ast = AST::from_str("+ 2 3").unwrap();
    let root = ast.root();
    assert!(ast.evaluate_bounded(root, 50).is_ok());
}

#[test]
fn a_missing_node_is_reported() {
    let mut ast = AST::new();
    assert!(matches!(ast.evaluate(17), Err(ASTError::Custom(17, _))));
}

#[test]
fn an_unbound_variable_is_reported() {
    let mut ast = AST::new();
    let variable = ast.add_node(Node::Variable(VariableKind::Bound)).unwrap();
    assert!(matches!(
        ast.evaluate(variable),
        Err(ASTError::EdgeNotFound(node, Edge::Binder(0))) if node == variable
    ));
}

#[test]
fn a_variable_under_its_lambda_cannot_be_reduced() {
    let mut ast = AST::from_str("λx.x").unwrap();
    let lambda = ast.root();
    let variable = ast.follow_edge(lambda, Edge::Body).unwrap();
    assert!(matches!(
        ast.evaluate(variable),
        Err(ASTError::EdgeNotFound(node, Edge::Parameter)) if node == lambda
    ));
}

#[test]
fn evaluate_closure_parameter_forces_and_releases() {
    // with x (+ 1 2) in x
    let mut ast = AST::from_str("with x (+ 1 2) in x").unwrap();
    let closure = ast.root();
    let variable = ast.follow_edge(closure, Edge::Body).unwrap();
    let (value, dangling) = ast.evaluate_closure_parameter(closure, 100).unwrap();
    assert!(dangling);
    assert!(matches!(ast.node(value), Some(Node::Primitive(Primitive::Number(3)))));
    assert!(!ast.contains_node(closure));
    assert_eq!(ast.root(), variable);
}

#[test]
fn evaluate_closure_parameter_keeps_a_shared_binding() {
    let mut ast = AST::from_str("with x (+ 1 2) in x x").unwrap();
    let closure = ast.root();
    let (value, dangling) = ast.evaluate_closure_parameter(closure, 100).unwrap();
    assert!(!dangling);
    assert!(matches!(ast.node(value), Some(Node::Primitive(Primitive::Number(3)))));
    assert_eq!(ast.follow_edge(closure, Edge::Parameter).unwrap(), value);
}

#[test]
fn closures_above_a_forced_value_are_lifted_above_the_binding() {
    // with f (with y 1 in λz.y) in f f
    let mut ast = AST::from_str("with f (with y 1 in λz.y) in f f").unwrap();
    let outer = ast.root();
    let inner = ast.follow_edge(outer, Edge::Parameter).unwrap();
    ast.force_closure_parameter(outer, 100).unwrap();
    assert_eq!(ast.root(), inner);
    assert_eq!(ast.follow_edge(inner, Edge::Body).unwrap(), outer);
    let value = ast.follow_edge(outer, Edge::Parameter).unwrap();
    assert!(matches!(ast.node(value), Some(Node::Lambda { .. })));
}

#[test]
fn extract_primitive_reads_and_deletes_a_value_that_was_handed_over() {
    let mut ast = AST::new();
    let head = ast.add_constructor(ConstructorTag::Arithmetic(ArithmeticTag::Add)).unwrap();
    let two = ast.add_node(Node::Primitive(Primitive::Number(2))).unwrap();
    let first = ast.add_application(head, two).unwrap();
    let three = ast.add_node(Node::Primitive(Primitive::Number(3))).unwrap();
    let second = ast.add_application(first, three).unwrap();
    ast.set_root(second);
    assert_eq!(ast.evaluate_root().map(|root| value_of(&ast, root)).unwrap(), Some(5));
    assert_eq!(ast.node_count(), 1);
}

#[test]
fn extract_primitive_wants_a_primitive() {
    let mut ast = AST::from_str("with x (λy.y) in x").unwrap();
    let closure = ast.root();
    assert!(matches!(
        ast.extract_primitive_from_environment(closure, 100),
        Err(ASTError::Custom(node, "Not a primitive")) if node == closure
    ));
}

#[test]
fn finish_arithmetic_puts_the_result_in_place() {
    let mut ast = AST::new();
    let owner = ast.add_node(Node::Lambda { argument_name: "o".to_string() }).unwrap();
    let data = ast
        .add_node(Node::Data { tag: ConstructorTag::Arithmetic(ArithmeticTag::Mul) })
        .unwrap();
    ast.add_edge(owner, data, Edge::Body).unwrap();
    let result = ast.finish_arithmetic(data, ArithmeticTag::Mul, 6, 7).unwrap();
    assert!(!ast.contains_node(data));
    assert_eq!(ast.follow_edge(owner, Edge::Body).unwrap(), result);
    assert!(matches!(ast.node(result), Some(Node::Primitive(Primitive::Number(42)))));
    assert!(matches!(
        ast.finish_arithmetic(result, ArithmeticTag::Div, 0, 1),
        Err(ASTError::Custom(node, _)) if node == result
    ));
    assert!(matches!(
        ast.finish_arithmetic(999, ArithmeticTag::Add, 1, 1),
        Err(ASTError::Custom(999, _))
    ));
    let truth = ast.finish_arithmetic(result, ArithmeticTag::Eq, 3, 3).unwrap();
    assert!(matches!(ast.node(truth), Some(Node::Lambda { .. })));
    assert_eq!(ast.follow_edge(owner, Edge::Body).unwrap(), truth);
}

#[test]
fn constructors_get_fresh_identifiers() {
    let (ast, root) = run("#constructor 2");
    let first = ast.follow_edge(root, Edge::Body).unwrap();
    let data = ast.follow_edge(first, Edge::Body).unwrap();
    assert!(matches!(
        ast.node(data),
        Some(Node::Data { tag: ConstructorTag::CustomTag { uid: 0, arity: 2 } })
    ));
    let mut ast = AST::from_str("with a (#constructor 1) in with b (#constructor 1) in #match a (λx.1) (λv.2) (b 5)").unwrap();
    let root = ast.evaluate_root().unwrap();
    assert_eq!(value_of(&ast, root), Some(2));
    assert_eq!(ast.next_uid().unwrap(), 2);
}

#[test]
fn match_falls_back_and_chains() {
    let source = "with a (#constructor 1) in with b (#constructor 1) in \
                  #match a (λx.+ x 100) (#match b (λx.+ x 200) (λv.0)) (b 5)";
    let (ast, root) = run(source);
    assert_eq!(value_of(&ast, root), Some(205));
    let source = "with a (#constructor 1) in with b (#constructor 1) in \
                  #match a (λx.+ x 100) (#match b (λx.+ x 200) (λv.0)) (a 5)";
    let (ast, root) = run(source);
    assert_eq!(value_of(&ast, root), Some(105));
}

#[test]
fn match_wants_data_with_a_user_constructor() {
    let mut ast = AST::from_str("with a (#constructor 1) in #match a (λx.x) (λv.0) 5").unwrap();
    assert!(matches!(
        ast.evaluate_root(),
        Err(ASTError::Custom(_, "Not a data constructor"))
    ));
    let mut ast = AST::from_str("with a (#constructor 1) in #match 5 (λx.x) (λv.0) (a 1)").unwrap();
    assert!(matches!(
        ast.evaluate_root(),
        Err(ASTError::Custom(_, "Not a data constructor"))
    ));
}

#[test]
fn the_head_of_a_constructor_is_found_under_lambdas_and_closures() {
    let (ast, root) = run("#constructor 2");
    assert_eq!(ast.constructor_uid(root, 10).unwrap(), 0);
    assert!(matches!(ast.constructor_uid(root, 1), Err(ASTError::Exhausted)));
    let mut other = AST::new();
    let number = other.add_node(Node::Primitive(Primitive::Number(1))).unwrap();
    assert!(matches!(other.constructor_uid(number, 10), Err(ASTError::Custom(_, _))));
    assert_eq!(other.value_uid(number), None);
}

#[test]
fn lifting_first_gives_the_same_result() {
    // (with x 1 in λy. + x y) 2
    let source = "(with x 1 in λy. + x y) 2";
    let (plain, root) = run(source);
    let mut lifted = AST::from_str(source).unwrap();
    let application = lifted.root();
    assert!(lifted.lift_closure(application, Edge::Function).unwrap());
    let other = lifted.evaluate_root().unwrap();
    assert_eq!(value_of(&plain, root), Some(3));
    assert_eq!(value_of(&lifted, other), Some(3));
    assert_eq!(plain.node_count(), lifted.node_count());
}

#[test]
fn unwrap_closure_chain_finds_the_value_under_the_bindings() {
    let ast = AST::from_str("with x 1 in with y 2 in 3").unwrap();
    let root = ast.root();
    let value = ast.unwrap_closure_chain(root);
    assert!(matches!(ast.node(value), Some(Node::Primitive(Primitive::Number(3)))));
    assert_eq!(ast.chain_head(root, 1), ast.follow_edge(root, Edge::Body).unwrap());
    assert_eq!(ast.chain_head(root, 0), root);
    assert_eq!(ast.unwrap_closure_chain(value), value);
}

#[test]
fn classify_tells_the_kinds_apart() {
    let mut ast = AST::from_str("with x 1 in x (+ 1)").unwrap();
    let closure = ast.root();
    let application = ast.follow_edge(closure, Edge::Body).unwrap();
    let variable = ast.follow_edge(application, Edge::Function).unwrap();
    let number = ast.follow_edge(closure, Edge::Parameter).unwrap();
    assert_eq!(ast.classify(closure), Kind::Closure);
    assert_eq!(ast.classify(application), Kind::Application);
    assert_eq!(ast.classify(variable), Kind::BoundVariable);
    assert_eq!(ast.classify(number), Kind::Value);
    assert_eq!(ast.classify(12345), Kind::Missing);
    let data = ast
        .add_node(Node::Data { tag: ConstructorTag::Arithmetic(ArithmeticTag::Add) })
        .unwrap();
    assert_eq!(
        ast.classify(data),
        Kind::Active(ConstructorTag::Arithmetic(ArithmeticTag::Add))
    );
    let inert = ast
        .add_node(Node::Data { tag: ConstructorTag::CustomTag { uid: 1, arity: 0 } })
        .unwrap();
    assert_eq!(ast.classify(inert), Kind::Value);
}

#[test]
fn a_tag_reduces_its_data_node() {
    // (+ 2) 3 with the sum's bindings in place
    let mut ast = AST::from_str("+ 2 3").unwrap();
    let outer = ast.root();
    let inner = ast.follow_edge(outer, Edge::Function).unwrap();
    ast.fire(inner).unwrap();
    assert!(ast.lift_closure(outer, Edge::Function).unwrap());
    ast.fire(outer).unwrap();
    let data = ast.unwrap_closure_chain(ast.root());
    let result = ArithmeticTag::Add.evaluate(&mut ast, data, 100).unwrap();
    assert!(matches!(ast.node(result), Some(Node::Primitive(Primitive::Number(5)))));
    assert_eq!(ast.root(), result);
    assert_eq!(ast.node_count(), 1);
}

#[test]
fn a_tag_reduces_only_a_data_node_of_its_own() {
    let mut ast = AST::from_str("+ 2 3").unwrap();
    let root = ast.root();
    assert!(matches!(
        ArithmeticTag::Add.evaluate(&mut ast, root, 100),
        Err(ASTError::Custom(node, _)) if node == root
    ));
    let data = ast
        .add_node(Node::Data { tag: ConstructorTag::Arithmetic(ArithmeticTag::Mul) })
        .unwrap();
    assert!(matches!(
        ArithmeticTag::Add.evaluate(&mut ast, data, 100),
        Err(ASTError::Custom(node, _)) if node == data
    ));
    assert!(matches!(
        HelperFunctionTag::Match.evaluate(&mut ast, data, 100),
        Err(ASTError::Custom(node, _)) if node == data
    ));
    assert!(matches!(
        ConstructorTag::Arithmetic(ArithmeticTag::Mul).evaluate(&mut ast, data, 0),
        Err(ASTError::Exhausted)
    ));
}

#[test]
fn an_inert_tag_leaves_its_data_node_alone() {
    let mut ast = AST::new();
    let tag = ConstructorTag::CustomTag { uid: 3, arity: 0 };
    let data = ast.add_constructor(tag).unwrap();
    assert_eq!(tag.evaluate(&mut ast, data, 0).unwrap(), data);
    assert_eq!(ast.node_count(), 1);
}
