use lambo::ast::AST;
use lambo::node::Node;
use lambo::node::Primitive;

fn reduce_to_number(source: &str) -> usize {
    let mut ast = AST::from_str(source).unwrap();
    let root = ast.evaluate_root().unwrap();
    assert_eq!(root, ast.root());
    let value = ast.unwrap_closure_chain(root);
    match ast.node(value) {
        Some(Node::Primitive(Primitive::Number(number))) => *number,
        other => panic!("expected a number, found {:?}", other),
    }
}

#[test]
fn addition_of_two_numbers() {
    assert_eq!(reduce_to_number("+ 2 3"), 5);
}

#[test]
fn nested_arithmetic() {
    assert_eq!(reduce_to_number("* (+ 1 2) (+ 3 4)"), 21);
}

#[test]
fn first_of_two_arguments() {
    assert_eq!(reduce_to_number("(λx.λy.x) 7 99"), 7);
}

#[test]
fn identity_applied_twice() {
    assert_eq!(reduce_to_number("with id λx.x in id (id 42)"), 42);
}

#[test]
fn church_pair() {
    assert_eq!(
        reduce_to_number("with pair λa.λb.λs.s a b in (pair 3 5) (λa.λb. + a b)"),
        8
    );
}

#[test]
fn match_on_user_constructor() {
    assert_eq!(
        reduce_to_number(
            "with two (#constructor 2) in #match two (λa.λb.+ a b) (λv.0) (two 10 20)"
        ),
        30
    );
}

#[test]
fn factorial_by_fixed_point() {
    assert_eq!(
        reduce_to_number(
            "with fix λf.(λx.f (x x)) (λx.f (x x)) in with fact fix (λrec.λn.=num n 0 1 (* n (rec (- 1 n)))) in fact 5"
        ),
        120
    );
}

#[test]
fn a_binding_of_a_binding_is_shared() {
    assert_eq!(reduce_to_number("with x (+ 1 2) in with y (* x x) in + y y"), 18);
}

#[test]
fn church_numerals_count() {
    assert_eq!(reduce_to_number("with two λf.λx.f (f x) in two (λn. + 1 n) 0"), 2);
    assert_eq!(
        reduce_to_number(
            "with two λf.λx.f (f x) in with four (two two) in four (λn. * 2 n) 1"
        ),
        16
    );
}

#[test]
fn factorial_of_ten() {
    assert_eq!(
        reduce_to_number(
            "with fix λf.(λx.f (x x)) (λx.f (x x)) in with fact fix (λrec.λn.=num n 0 1 (* n (rec (- 1 n)))) in fact 10"
        ),
        3628800
    );
}

#[test]
fn fibonacci_by_fixed_point() {
    assert_eq!(
        reduce_to_number(
            "with fix λf.(λx.f (x x)) (λx.f (x x)) in \
             with fib fix (λrec.λn. =num n 0 0 (=num n 1 1 (+ (rec (- 1 n)) (rec (- 2 n))))) in \
             fib 10"
        ),
        55
    );
}

#[test]
fn an_endless_list_is_read_lazily() {
    assert_eq!(
        reduce_to_number(
            "with fix λf.(λx.f (x x)) (λx.f (x x)) in \
             with cons (#constructor 2) in \
             with from fix (λrec.λn. cons n (rec (+ 1 n))) in \
             with nth fix (λrec.λlist.λi. #match cons (λhead.λtail. =num i 0 head (rec tail (- 1 i))) (λv.0) list) in \
             nth (from 10) 3"
        ),
        13
    );
}

#[test]
fn match_chains_over_two_constructors() {
    let list = "with fix λf.(λx.f (x x)) (λx.f (x x)) in \
                with cons (#constructor 2) in \
                with nil (#constructor 0) in \
                with sum fix (λrec.λlist. #match cons (λhead.λtail. + head (rec tail)) (#match nil 0 (λv.999)) list) in ";
    assert_eq!(reduce_to_number(&format!("{list} sum nil")), 0);
    assert_eq!(reduce_to_number(&format!("{list} sum (cons 1 (cons 2 (cons 3 nil)))")), 6);
}

#[test]
fn the_bar_feeds_a_value_through_functions() {
    assert_eq!(
        reduce_to_number("with inc λn. + 1 n in with double λn. * 2 n in 5 | inc | double"),
        12
    );
}
