//! From source text to tokens.
//!
//! Blanks separate tokens. Brackets, the lambda sign, dot, bar and colon
//! are tokens of one character; every other run of characters is a symbol,
//! and the symbols `with` and `in` are keywords.
use vstd::prelude::*;
use vstd::string::StrSliceExecFns;
use crate::text::same_text;

verus! {

#[derive(Debug, Clone)]
pub enum Token {
    Symbol(String),
    OpenParen,
    CloseParen,
    Lambda,
    Dot,
    Pipe,
    With,
    In,
    Colon,
    Eof,
}

pub enum TokenView {
    Symbol(Seq<char>),
    OpenParen,
    CloseParen,
    Lambda,
    Dot,
    Pipe,
    With,
    In,
    Colon,
    Eof,
}

impl View for Token {
    type V = TokenView;

    open spec fn view(&self) -> TokenView {
        match self {
            Token::Symbol(name) => TokenView::Symbol(name@),
            Token::OpenParen => TokenView::OpenParen,
            Token::CloseParen => TokenView::CloseParen,
            Token::Lambda => TokenView::Lambda,
            Token::Dot => TokenView::Dot,
            Token::Pipe => TokenView::Pipe,
            Token::With => TokenView::With,
            Token::In => TokenView::In,
            Token::Colon => TokenView::Colon,
            Token::Eof => TokenView::Eof,
        }
    }
}

/// The views of a list of tokens.
pub open spec fn token_views(tokens: Seq<Token>) -> Seq<TokenView> {
    Seq::new(tokens.len(), |i: int| tokens[i]@)
}

/// An ASCII blank: space, tab, line feed, form feed or carriage return.
pub open spec fn is_blank(c: char) -> bool {
    c == ' ' || c == '\t' || c == '\n' || c == '\x0C' || c == '\r'
}

/// The token that a character is by itself, if it is one.
pub open spec fn single(c: char) -> Option<TokenView> {
    if c == '(' {
        Some(TokenView::OpenParen)
    } else if c == ')' {
        Some(TokenView::CloseParen)
    } else if c == '\u{3bb}' || c == '@' || c == '\\' {
        Some(TokenView::Lambda)
    } else if c == '.' {
        Some(TokenView::Dot)
    } else if c == '|' {
        Some(TokenView::Pipe)
    } else if c == ':' {
        Some(TokenView::Colon)
    } else {
        None
    }
}

/// The length of the longest run of symbol characters that `text` starts
/// with.
pub open spec fn symbol_len(text: Seq<char>) -> nat
    decreases text.len(),
{
    if text.len() > 0 && !is_blank(text[0]) && single(text[0]) is None {
        1 + symbol_len(text.skip(1))
    } else {
        0
    }
}

/// The token that a run of symbol characters is.
pub open spec fn word(text: Seq<char>) -> TokenView {
    if text == "with"@ {
        TokenView::With
    } else if text == "in"@ {
        TokenView::In
    } else {
        TokenView::Symbol(text)
    }
}

/// The tokens of a text, with `Eof` at the end.
pub open spec fn tokens_of(text: Seq<char>) -> Seq<TokenView>
    decreases text.len(),
    via tokens_of_decreases
{
    if text.len() == 0 {
        seq![TokenView::Eof]
    } else if is_blank(text[0]) {
        tokens_of(text.skip(1))
    } else if single(text[0]) is Some {
        seq![single(text[0])->Some_0] + tokens_of(text.skip(1))
    } else {
        seq![word(text.take(symbol_len(text) as int))] + tokens_of(
            text.skip(symbol_len(text) as int),
        )
    }
}

#[via_fn]
proof fn tokens_of_decreases(text: Seq<char>) {
    lemma_symbol_len_bound(text);
    if text.len() > 0 && !is_blank(text[0]) && single(text[0]) is None {
        assert(symbol_len(text) >= 1);
        assert(text.skip(symbol_len(text) as int).len() < text.len());
    }
}

/// A run of symbol characters is never longer than the text.
pub proof fn lemma_symbol_len_bound(text: Seq<char>)
    ensures
        symbol_len(text) <= text.len(),
    decreases text.len(),
{
    if text.len() > 0 && !is_blank(text[0]) && single(text[0]) is None {
        lemma_symbol_len_bound(text.skip(1));
    }
}

pub fn match_single_char_token(c: char) -> (r: Option<Token>)
    ensures
        match r {
            Some(token) => single(c) == Some(token@),
            None => single(c) is None,
        },
{
    if c == '(' {
        Some(Token::OpenParen)
    } else if c == ')' {
        Some(Token::CloseParen)
    } else if c == '\u{3bb}' || c == '@' || c == '\\' {
        Some(Token::Lambda)
    } else if c == '.' {
        Some(Token::Dot)
    } else if c == '|' {
        Some(Token::Pipe)
    } else if c == ':' {
        Some(Token::Colon)
    } else {
        None
    }
}

fn blank(c: char) -> (r: bool)
    ensures
        r == is_blank(c),
{
    c == ' ' || c == '\t' || c == '\n' || c == '\x0C' || c == '\r'
}

/// The characters of a text.
pub fn characters(input: &str) -> (r: Vec<char>)
    ensures
        r@ == input@,
{
    let n: usize = input.unicode_len();
    let mut all: Vec<char> = Vec::new();
    let mut i: usize = 0;
    while i < n
        invariant
            0 <= i <= n,
            n == input@.len(),
            all@ == input@.take(i as int),
        decreases n - i,
    {
        let c = input.get_char(i);
        all.push(c);
        proof {
            assert(all@ =~= input@.take(i + 1));
        }
        i += 1;
    }
    proof {
        assert(input@.take(n as int) =~= input@);
    }
    all
}

/// Splits a text into its tokens.
pub fn lexer(input: &str) -> (r: Vec<Token>)
    ensures
        token_views(r@) == tokens_of(input@),
{
    let text = characters(input);
    let n: usize = text.len();
    let mut tokens: Vec<Token> = Vec::new();
    let mut i: usize = 0;
    proof {
        assert(text@.skip(0) =~= text@);
        assert(token_views(tokens@) =~= Seq::<TokenView>::empty());
    }
    while i < n
        invariant
            0 <= i <= n,
            n == text@.len(),
            text@ == input@,
            token_views(tokens@) + tokens_of(text@.skip(i as int)) == tokens_of(text@),
        decreases n - i,
    {
        let c = text[i];
        let ghost rest = text@.skip(i as int);
        let ghost before = token_views(tokens@);
        proof {
            assert(rest[0] == c);
            assert(rest.skip(1) =~= text@.skip(i + 1));
        }
        if blank(c) {
            i += 1;
        } else {
            match match_single_char_token(c) {
                Some(token) => {
                    tokens.push(token);
                    proof {
                        assert(token_views(tokens@) =~= before + seq![token@]);
                        assert(token_views(tokens@) + tokens_of(text@.skip(i + 1)) =~= before
                            + tokens_of(rest));
                    }
                    i += 1;
                },
                None => {
                    let start = i;
                    let mut j: usize = i;
                    while j < n && !blank(text[j]) && match_single_char_token(text[j]).is_none()
                        invariant
                            start <= j <= n,
                            n == text@.len(),
                            symbol_len(text@.skip(start as int)) == (j - start) + symbol_len(
                                text@.skip(j as int),
                            ),
                        decreases n - j,
                    {
                        proof {
                            let tail = text@.skip(j as int);
                            assert(tail[0] == text@[j as int]);
                            assert(tail.skip(1) =~= text@.skip(j + 1));
                        }
                        j += 1;
                    }
                    proof {
                        let tail = text@.skip(j as int);
                        if j < n {
                            assert(tail[0] == text@[j as int]);
                        }
                        assert(symbol_len(tail) == 0);
                        assert(symbol_len(rest) == j - start);
                        assert(rest.take((j - start) as int) =~= text@.subrange(
                            start as int,
                            j as int,
                        ));
                        assert(rest.skip((j - start) as int) =~= text@.skip(j as int));
                    }
                    let name = input.substring_char(start, j);
                    let token = if same_text(name, "with") {
                        Token::With
                    } else if same_text(name, "in") {
                        Token::In
                    } else {
                        Token::Symbol(name.to_owned())
                    };
                    tokens.push(token);
                    proof {
                        assert(token@ == word(rest.take(symbol_len(rest) as int)));
                        assert(token_views(tokens@) =~= before + seq![token@]);
                        assert(token_views(tokens@) + tokens_of(text@.skip(j as int)) =~= before
                            + tokens_of(rest));
                    }
                    i = j;
                },
            }
        }
    }
    tokens.push(Token::Eof);
    proof {
        assert(text@.skip(n as int).len() == 0);
        assert(token_views(tokens@) =~= token_views(tokens@.drop_last()) + seq![TokenView::Eof]);
    }
    tokens
}

} // verus!
