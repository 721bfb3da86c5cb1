use lambo::ast::ASTError;
use lambo::ast::AST;
use lambo::bytes::byte_at;
use lambo::bytes::with_byte;
use lambo::bytes::zeroes;
use lambo::node::Edge;
use lambo::node::Node;
use lambo::node::Primitive;
use lambo::tags::BytesOpTag;
use lambo::tags::ConstructorTag;

// A data node under one closure per argument, as the reducer meets it.
fn data_with_arguments(arguments: Vec<Primitive>) -> (AST, u32) {
    let mut ast = AST::new();
    let arity = arguments.len();
    let data = ast
        .add_node(Node::Data { tag: ConstructorTag::CustomTag { uid: 0, arity } })
        .unwrap();
    let mut below = data;
    for (index, argument) in arguments.into_iter().enumerate().rev() {
        let closure = ast.add_node(Node::Closure { argument_name: "a".to_string() }).unwrap();
        let value = ast.add_node(Node::Primitive(argument)).unwrap();
        ast.add_edge(closure, below, Edge::Body).unwrap();
        ast.add_edge(closure, value, Edge::Parameter).unwrap();
        ast.add_edge(data, closure, Edge::Binder(index)).unwrap();
        below = closure;
    }
    ast.set_root(below);
    (ast, data)
}

#[test]
fn zeroes_are_zero() {
    assert_eq!(zeroes(3), vec![0, 0, 0]);
    assert!(zeroes(0).is_empty());
}

#[test]
fn byte_at_reads_within_the_sequence() {
    let bytes = vec![10, 20, 30];
    assert_eq!(byte_at(&bytes, 0), Ok(10));
    assert_eq!(byte_at(&bytes, 2), Ok(30));
    assert!(byte_at(&bytes, 3).is_err());
}

#[test]
fn with_byte_appends_a_byte() {
    assert_eq!(with_byte(vec![1], 7), Ok(vec![1, 7]));
    assert_eq!(with_byte(vec![], 255), Ok(vec![255]));
    assert_eq!(with_byte(vec![1], 256), Err("Value larger than byte"));
}

#[test]
fn new_makes_zero_bytes() {
    let (mut ast, data) = data_with_arguments(vec![Primitive::Number(3)]);
    let result = BytesOpTag::New.evaluate(&mut ast, data, 100).unwrap();
    assert!(matches!(ast.node(result), Some(Node::Primitive(Primitive::Bytes(bytes))) if *bytes == vec![0, 0, 0]));
    assert_eq!(ast.root(), result);
    assert_eq!(ast.node_count(), 1);
}

#[test]
fn get_reads_a_byte() {
    let (mut ast, data) =
        data_with_arguments(vec![Primitive::Number(1), Primitive::Bytes(vec![10, 20, 30])]);
    let result = BytesOpTag::Get.evaluate(&mut ast, data, 100).unwrap();
    assert!(matches!(ast.node(result), Some(Node::Primitive(Primitive::Number(20)))));
    assert_eq!(ast.node_count(), 1);
}

#[test]
fn get_beyond_the_end_is_a_domain_error() {
    let (mut ast, data) =
        data_with_arguments(vec![Primitive::Number(3), Primitive::Bytes(vec![10, 20, 30])]);
    assert!(matches!(
        BytesOpTag::Get.evaluate(&mut ast, data, 100),
        Err(ASTError::Custom(node, _)) if node == data
    ));
}

#[test]
fn length_counts_the_bytes() {
    let (mut ast, data) = data_with_arguments(vec![Primitive::Bytes(vec![1, 2, 3, 4])]);
    let result = BytesOpTag::Length.evaluate(&mut ast, data, 100).unwrap();
    assert!(matches!(ast.node(result), Some(Node::Primitive(Primitive::Number(4)))));
}

#[test]
fn push_appends_a_byte() {
    let (mut ast, data) =
        data_with_arguments(vec![Primitive::Number(7), Primitive::Bytes(vec![1])]);
    let result = BytesOpTag::Push.evaluate(&mut ast, data, 100).unwrap();
    assert!(matches!(ast.node(result), Some(Node::Primitive(Primitive::Bytes(bytes))) if *bytes == vec![1, 7]));
}

#[test]
fn push_of_what_is_no_byte_is_a_domain_error() {
    let (mut ast, data) =
        data_with_arguments(vec![Primitive::Number(300), Primitive::Bytes(vec![1])]);
    assert!(matches!(
        BytesOpTag::Push.evaluate(&mut ast, data, 100),
        Err(ASTError::Custom(_, "Value larger than byte"))
    ));
}

#[test]
fn byte_operations_check_their_arguments() {
    let (mut ast, data) = data_with_arguments(vec![Primitive::Number(1), Primitive::Number(2)]);
    assert!(matches!(
        BytesOpTag::Get.evaluate(&mut ast, data, 100),
        Err(ASTError::Custom(_, "Expected Bytes"))
    ));
    let (mut ast, data) = data_with_arguments(vec![Primitive::Number(1)]);
    assert!(matches!(
        BytesOpTag::Get.evaluate(&mut ast, data, 100),
        Err(ASTError::Custom(_, "Incorrect argument count"))
    ));
    let (mut ast, data) = data_with_arguments(vec![Primitive::Bytes(vec![1])]);
    assert!(matches!(
        BytesOpTag::New.evaluate(&mut ast, data, 100),
        Err(ASTError::Custom(_, "NaN"))
    ));
}

#[test]
fn store_and_pop_have_no_rule() {
    let (mut ast, data) = data_with_arguments(vec![Primitive::Bytes(vec![1])]);
    assert!(matches!(
        BytesOpTag::Pop.evaluate(&mut ast, data, 100),
        Err(ASTError::Custom(_, _))
    ));
    assert!(matches!(
        BytesOpTag::Store.evaluate(&mut ast, data, 100),
        Err(ASTError::Custom(_, _))
    ));
}

#[test]
fn finish_primitive_wants_a_live_node() {
    let mut ast = AST::new();
    assert!(matches!(
        ast.finish_primitive(9, Primitive::Number(1)),
        Err(ASTError::Custom(9, _))
    ));
    assert_eq!(ast.node_count(), 0);
}
