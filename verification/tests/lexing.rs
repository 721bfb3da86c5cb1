use lambo::lexer::characters;
use lambo::lexer::lexer;
use lambo::lexer::match_single_char_token;
use lambo::lexer::Token;
use lambo::parser::binding_power;
use lambo::parser::parse_number;

fn spell(tokens: &Vec<Token>) -> Vec<String> {
    tokens
        .iter()
        .map(|token| match token {
            Token::Symbol(name) => format!("sym:{}", name),
            Token::OpenParen => "(".to_string(),
            Token::CloseParen => ")".to_string(),
            Token::Lambda => "lambda".to_string(),
            Token::Dot => ".".to_string(),
            Token::Pipe => "|".to_string(),
            Token::With => "with".to_string(),
            Token::In => "in".to_string(),
            Token::Colon => ":".to_string(),
            Token::Eof => "eof".to_string(),
        })
        .collect()
}

#[test]
fn empty_text_is_just_the_end() {
    assert_eq!(spell(&lexer("")), vec!["eof"]);
    assert_eq!(spell(&lexer(" \t\n\r ")), vec!["eof"]);
}

#[test]
fn symbols_are_split_at_blanks_and_signs() {
    assert_eq!(
        spell(&lexer("(foo bar)")),
        vec!["(", "sym:foo", "sym:bar", ")", "eof"]
    );
    assert_eq!(spell(&lexer("a.b")), vec!["sym:a", ".", "sym:b", "eof"]);
    assert_eq!(spell(&lexer("x|f")), vec!["sym:x", "|", "sym:f", "eof"]);
    assert_eq!(spell(&lexer("x:t")), vec!["sym:x", ":", "sym:t", "eof"]);
}

#[test]
fn three_signs_write_a_lambda() {
    assert_eq!(
        spell(&lexer("λx.x")),
        vec!["lambda", "sym:x", ".", "sym:x", "eof"]
    );
    assert_eq!(
        spell(&lexer("@x.x")),
        vec!["lambda", "sym:x", ".", "sym:x", "eof"]
    );
    assert_eq!(
        spell(&lexer("\\x.x")),
        vec!["lambda", "sym:x", ".", "sym:x", "eof"]
    );
}

#[test]
fn with_and_in_are_keywords() {
    assert_eq!(
        spell(&lexer("with x 1 in x")),
        vec!["with", "sym:x", "sym:1", "in", "sym:x", "eof"]
    );
    assert_eq!(
        spell(&lexer("within inn")),
        vec!["sym:within", "sym:inn", "eof"]
    );
}

#[test]
fn operators_are_symbols() {
    assert_eq!(
        spell(&lexer("λa.λb.+ a b")),
        vec!["lambda", "sym:a", ".", "lambda", "sym:b", ".", "sym:+", "sym:a", "sym:b", "eof"]
    );
    assert_eq!(spell(&lexer("#match =num")), vec!["sym:#match", "sym:=num", "eof"]);
}

#[test]
fn single_character_tokens() {
    assert!(matches!(match_single_char_token('('), Some(Token::OpenParen)));
    assert!(matches!(match_single_char_token(')'), Some(Token::CloseParen)));
    assert!(matches!(match_single_char_token('λ'), Some(Token::Lambda)));
    assert!(matches!(match_single_char_token('@'), Some(Token::Lambda)));
    assert!(matches!(match_single_char_token('\\'), Some(Token::Lambda)));
    assert!(matches!(match_single_char_token('.'), Some(Token::Dot)));
    assert!(matches!(match_single_char_token('|'), Some(Token::Pipe)));
    assert!(matches!(match_single_char_token(':'), Some(Token::Colon)));
    assert!(match_single_char_token('x').is_none());
    assert!(match_single_char_token(' ').is_none());
}

#[test]
fn characters_are_read_one_by_one() {
    assert_eq!(characters("aλb"), vec!['a', 'λ', 'b']);
    assert!(characters("").is_empty());
}

#[test]
fn the_bar_binds_less_than_application() {
    assert_eq!(binding_power(&Token::Pipe), (10, 11));
    assert_eq!(binding_power(&Token::Symbol("x".to_string())), (100, 101));
    assert_eq!(binding_power(&Token::OpenParen), (100, 101));
}

#[test]
fn numbers_are_decimal_digits() {
    assert_eq!(parse_number("0"), Some(0));
    assert_eq!(parse_number("42"), Some(42));
    assert_eq!(parse_number("007"), Some(7));
    assert_eq!(parse_number("+5"), Some(5));
    assert_eq!(parse_number("18446744073709551615"), Some(18446744073709551615));
}

#[test]
fn what_is_no_number() {
    assert_eq!(parse_number(""), None);
    assert_eq!(parse_number("+"), None);
    assert_eq!(parse_number("-1"), None);
    assert_eq!(parse_number("12a"), None);
    assert_eq!(parse_number("1 2"), None);
    assert_eq!(parse_number("++1"), None);
    assert_eq!(parse_number("18446744073709551616"), None);
    assert_eq!(parse_number("99999999999999999999999"), None);
}
