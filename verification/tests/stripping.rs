use lambo::ast::AST;
use lambo::comments::strip_comments;

fn by_lines(input: &str) -> String {
    input
        .lines()
        .map(|line| line.split("//").next().unwrap_or(""))
        .collect::<Vec<_>>()
        .join("\n")
}

#[test]
fn a_comment_runs_to_the_end_of_its_line() {
    assert_eq!(strip_comments("+ 1 2 // the sum"), "+ 1 2 ");
    assert_eq!(strip_comments("a // b\nc"), "a \nc");
    assert_eq!(strip_comments("// only a comment"), "");
    assert_eq!(strip_comments("a / b"), "a / b");
    assert_eq!(strip_comments("a /"), "a /");
    assert_eq!(strip_comments("///"), "");
}

#[test]
fn lines_are_joined_by_line_feeds() {
    assert_eq!(strip_comments(""), "");
    assert_eq!(strip_comments("\n"), "");
    assert_eq!(strip_comments("a\n"), "a");
    assert_eq!(strip_comments("a\n\nb"), "a\n\nb");
    assert_eq!(strip_comments("a\n\n"), "a\n");
    assert_eq!(strip_comments("a\r\nb\r\n"), "a\nb");
    assert_eq!(strip_comments("a\r"), "a\r");
    assert_eq!(strip_comments("a\r//b\nc"), "a\r\nc");
    assert_eq!(strip_comments("\r\n"), "");
}

#[test]
fn stripping_agrees_with_cutting_each_line() {
    let texts = [
        "",
        "\n",
        "\n\n",
        "a",
        "a\n",
        "a\nb",
        "a // x\nb // y\n",
        "//\n//\n",
        "a\r\nb",
        "a\r\n",
        "a\r",
        "\r",
        "\r\n\r\n",
        "a /\n/ b",
        "a/ /b",
        "λx.x // identity\nwith y 1 in y",
        "x //// y\r\n// z\r\n\r\nw",
        "a\r//b\r\nc//\r",
    ];
    for text in texts {
        assert_eq!(strip_comments(text), by_lines(text), "{:?}", text);
    }
}

#[test]
fn a_program_with_comments_parses_as_without_them() {
    let text = "with x 2 in // the binding\n+ x 3 // the sum\n";
    let mut ast = AST::from_str(&strip_comments(text)).unwrap();
    let mut plain = AST::from_str("with x 2 in + x 3").unwrap();
    assert_eq!(
        ast.fmt_expr(ast.root(), 0, 100).unwrap(),
        plain.fmt_expr(plain.root(), 0, 100).unwrap()
    );
    let root = ast.evaluate_root().unwrap();
    let value = ast.unwrap_closure_chain(root);
    assert!(matches!(
        ast.node(value),
        Some(lambo::node::Node::Primitive(lambo::node::Primitive::Number(5)))
    ));
    assert!(plain.evaluate_root().is_ok());
}
