use lambo::ast::ASTError;
use lambo::ast::AST;
use lambo::effects::Effect;
use lambo::node::Node;
use lambo::node::Primitive;
use lambo::node::VariableKind;
use lambo::tags::IOTag;

#[test]
fn a_value_asks_for_nothing() {
    let mut ast = AST::from_str("+ 1 2").unwrap();
    ast.evaluate_root().unwrap();
    assert!(matches!(ast.begin_effect(100), Ok(Effect::Done)));
    assert_eq!(ast.node_count(), 1);
}

#[test]
fn reading_a_line_puts_the_bytes_at_the_root() {
    let mut ast = AST::from_str("#io_readline").unwrap();
    ast.evaluate_root().unwrap();
    assert_eq!(ast.io_tag(ast.root()), Some(IOTag::ReadLine));
    let pending = match ast.begin_effect(100).unwrap() {
        Effect::ReadLine(pending) => pending,
        other => panic!("unexpected {:?}", other),
    };
    assert_eq!(pending.at, ast.root());
    assert!(pending.flatmap.is_none());
    let result = ast.complete_read(pending, b"hello\n".to_vec(), 100).unwrap();
    assert_eq!(ast.root(), result);
    assert!(matches!(ast.node(result), Some(Node::Primitive(Primitive::Bytes(bytes))) if bytes == b"hello\n"));
    assert!(matches!(ast.begin_effect(100), Ok(Effect::Done)));
}

#[test]
fn a_flatmap_reads_then_prints() {
    let mut ast = AST::from_str("#io_flatmap (λline. #io_print line) #io_readline").unwrap();
    ast.evaluate_root().unwrap();
    let pending = match ast.begin_effect(1000).unwrap() {
        Effect::ReadLine(pending) => pending,
        other => panic!("unexpected {:?}", other),
    };
    assert!(pending.flatmap.is_some());
    ast.complete_read(pending, b"hi".to_vec(), 1000).unwrap();
    let (pending, bytes) = match ast.begin_effect(1000).unwrap() {
        Effect::Print(pending, bytes) => (pending, bytes),
        other => panic!("unexpected {:?}", other),
    };
    assert_eq!(bytes, b"hi".to_vec());
    let result = ast.complete_print(pending, 1000).unwrap();
    assert!(matches!(
        ast.node(result),
        Some(Node::Variable(VariableKind::Free(name))) if name == "#io_print finished"
    ));
    assert!(matches!(ast.begin_effect(1000), Ok(Effect::Done)));
    assert!(ast.contains_node(ast.root()));
}

#[test]
fn printing_wants_bytes() {
    let mut ast = AST::from_str("#io_print 5").unwrap();
    ast.evaluate_root().unwrap();
    assert!(matches!(
        ast.begin_effect(100),
        Err(ASTError::Custom(_, "Expected Bytes"))
    ));
}

#[test]
fn a_flatmap_wants_an_effect() {
    let mut ast = AST::from_str("#io_flatmap (λx.x) 5").unwrap();
    ast.evaluate_root().unwrap();
    assert!(matches!(
        ast.begin_effect(100),
        Err(ASTError::Custom(_, "Expected IO"))
    ));
}

#[test]
fn what_is_no_effect_has_no_io_tag() {
    let ast = AST::from_str("+").unwrap();
    assert_eq!(ast.io_tag(ast.root()), None);
    assert_eq!(ast.io_tag(1000), None);
}
