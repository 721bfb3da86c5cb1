use lambo::ast::ASTError;
use lambo::ast::AST;
use lambo::node::Node;
use lambo::node::Primitive;
use lambo::show::decimal;
use lambo::show::indent;
use lambo::show::show_bytes;
use lambo::tags::ArithmeticTag;
use lambo::tags::ConstructorTag;
use lambo::tags::HelperFunctionTag;
use lambo::tags::IOTag;

fn written(source: &str) -> String {
    let ast = AST::from_str(source).unwrap();
    ast.fmt_expr(ast.root(), 0, 1000).unwrap()
}

#[test]
fn numbers_are_written_in_decimal() {
    assert_eq!(decimal(0), "0");
    assert_eq!(decimal(7), "7");
    assert_eq!(decimal(10), "10");
    assert_eq!(decimal(1234567890), "1234567890");
    assert_eq!(decimal(usize::MAX), usize::MAX.to_string());
}

#[test]
fn indentation_is_two_blanks_a_level() {
    assert_eq!(indent(0), "");
    assert_eq!(indent(3), "      ");
}

#[test]
fn bytes_are_written_as_numbers() {
    assert_eq!(show_bytes(&vec![]), "");
    assert_eq!(show_bytes(&vec![1, 20, 255]), " 1 20 255");
}

#[test]
fn tags_have_names() {
    assert_eq!(ConstructorTag::CustomTag { uid: 7, arity: 2 }.name(), "CustomTag7");
    assert_eq!(ConstructorTag::Arithmetic(ArithmeticTag::Add).name(), "+");
    assert_eq!(ConstructorTag::Arithmetic(ArithmeticTag::Eq).name(), "=num");
    assert_eq!(ConstructorTag::HelperFunction(HelperFunctionTag::Match).name(), "#match");
    assert_eq!(ConstructorTag::IO(IOTag::Print).name(), "#io_print");
}

#[test]
fn the_name_of_a_built_in_tag_reads_back() {
    let tags = [
        ConstructorTag::IO(IOTag::ReadLine),
        ConstructorTag::IO(IOTag::Print),
        ConstructorTag::IO(IOTag::Flatmap),
        ConstructorTag::Arithmetic(ArithmeticTag::Add),
        ConstructorTag::Arithmetic(ArithmeticTag::Sub),
        ConstructorTag::Arithmetic(ArithmeticTag::Mul),
        ConstructorTag::Arithmetic(ArithmeticTag::Div),
        ConstructorTag::Arithmetic(ArithmeticTag::Pow),
        ConstructorTag::Arithmetic(ArithmeticTag::Eq),
        ConstructorTag::HelperFunction(HelperFunctionTag::CreateConstructor),
        ConstructorTag::HelperFunction(HelperFunctionTag::Match),
    ];
    for tag in tags {
        assert_eq!(ConstructorTag::from_str(&tag.name()), Some(tag));
    }
}

#[test]
fn expressions_are_written_as_they_are_read() {
    assert_eq!(written("42"), "42");
    assert_eq!(written("x"), "x");
    assert_eq!(written("λx.x"), "λx.x");
    assert_eq!(written("λx.λy.x y"), "λx.λy.(x y)");
    assert_eq!(written("f a b"), "((f a) b)");
    assert_eq!(written("f (a b)"), "(f (a b))");
}

#[test]
fn a_binding_is_written_as_let() {
    assert_eq!(written("with x 1 in x"), "let x \n1 in\nx");
    assert_eq!(
        written("with x (with y 2 in y) in x"),
        "let x \n  let y \n  2 in\n  y in\nx"
    );
}

#[test]
fn a_data_node_is_written_with_the_names_of_its_binders() {
    assert_eq!(written("+"), "λwhat.λto.(+ what to)");
    assert_eq!(written("#io_readline"), "(#io_readline)");
}

#[test]
fn bytes_are_written_in_brackets() {
    let mut ast = AST::new();
    let bytes = ast.add_node(Node::Primitive(Primitive::Bytes(vec![104, 105]))).unwrap();
    assert_eq!(ast.fmt_expr(bytes, 0, 10).unwrap(), "[ 104 105 ]");
    let empty = ast.add_node(Node::Primitive(Primitive::Bytes(vec![]))).unwrap();
    assert_eq!(ast.fmt_expr(empty, 0, 10).unwrap(), "[ ]");
}

#[test]
fn what_cannot_be_written_is_an_error() {
    let mut ast = AST::from_str("λx.λy.x").unwrap();
    let root = ast.root();
    assert!(matches!(ast.fmt_expr(root, 0, 2), Err(ASTError::Exhausted)));
    assert!(matches!(ast.fmt_expr(999, 0, 10), Err(ASTError::Custom(999, _))));
    let lambda = ast.add_node(Node::Lambda { argument_name: "z".to_string() }).unwrap();
    assert!(matches!(ast.fmt_expr(lambda, 0, 10), Err(ASTError::EdgeNotFound(_, _))));
    assert_eq!(ast.get_variable_name(lambda), "z");
    assert_eq!(ast.get_variable_name(999), "?");
}

#[test]
fn a_reduced_program_is_written_down() {
    let mut ast = AST::from_str("with k λx.λy.x in k 1").unwrap();
    let root = ast.evaluate_root().unwrap();
    assert_eq!(ast.fmt_expr(root, 0, 100).unwrap(), "let x \n1 in\nλy.x");
}
