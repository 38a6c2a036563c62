use tcod_config::lexer::{Lexer, Token};

#[test]
fn char_hex() {
    let sut = Lexer::new("'\\x9F' ");

    assert_eq!(sut.token, Token::Char);
    assert_eq!(sut.slice(), "'\\x9F'");
}

#[test]
fn char_oct() {
    let sut = Lexer::new("'\\200' ");

    assert_eq!(sut.token, Token::Char);
    assert_eq!(sut.slice(), "'\\200'");
}

#[test]
fn char_special() {
    let mut sut = Lexer::new("'\\n' '\\t' '\\r' '\\\\' '\\\"' '\\''");

    assert_eq!(sut.token, Token::Char);
    assert_eq!(sut.slice(), "'\\n'");

    sut.advance();

    assert_eq!(sut.token, Token::Char);
    assert_eq!(sut.slice(), "'\\t'");

    sut.advance();

    assert_eq!(sut.token, Token::Char);
    assert_eq!(sut.slice(), "'\\r'");

    sut.advance();

    assert_eq!(sut.token, Token::Char);
    assert_eq!(sut.slice(), "'\\\\'");

    sut.advance();

    assert_eq!(sut.token, Token::Char);
    assert_eq!(sut.slice(), "'\\\"'");

    sut.advance();

    assert_eq!(sut.token, Token::Char);
    assert_eq!(sut.slice(), "'\\''");

    sut.advance();
}

fn kinds_and_texts(source: &str) -> Vec<(Token, String)> {
    let mut lexer = Lexer::new(source);
    let mut out = Vec::new();
    while lexer.token != Token::EndOfInput {
        out.push((lexer.token, lexer.slice()));
        if lexer.token == Token::Unexpected || lexer.token == Token::UnclosedComment {
            break;
        }
        lexer.advance();
    }
    out
}

#[test]
fn classifies_each_kind() {
    let got = kinds_and_texts("\"t\" 'c' 1.5 -0x1F 42 name_1 #a0B1c2 { } = , [ ]");
    let kinds: Vec<Token> = got.iter().map(|(k, _)| *k).collect();
    assert_eq!(
        kinds,
        vec![
            Token::Text,
            Token::Char,
            Token::Float,
            Token::Hex,
            Token::Integer,
            Token::Identifier,
            Token::Color,
            Token::BraceOpen,
            Token::BraceClose,
            Token::Assign,
            Token::Comma,
            Token::BracketOpen,
            Token::BracketClose,
        ]
    );
    assert_eq!(got[2].1, "1.5");
    assert_eq!(got[3].1, "-0x1F");
    assert_eq!(got[5].1, "name_1");
}

#[test]
fn floats_of_every_form() {
    for text in ["3.5", ".5", "5.", "-2.5e10", "+1.0E-3"] {
        let l = Lexer::new(text);
        assert_eq!(l.token, Token::Float, "{}", text);
        assert_eq!(l.slice(), text);
    }
    let l = Lexer::new("1e5");
    assert_eq!(l.token, Token::Integer);
    assert_eq!(l.slice(), "1");
}

#[test]
fn unexpected_character() {
    let l = Lexer::new("  @");
    assert_eq!(l.token, Token::Unexpected);
    assert_eq!(l.range(), (2, 3));
}

#[test]
fn end_of_input_is_sticky() {
    let mut l = Lexer::new("x");
    l.advance();
    assert_eq!(l.token, Token::EndOfInput);
    l.advance();
    assert_eq!(l.token, Token::EndOfInput);
    assert_eq!(l.range(), (1, 1));
}

#[test]
fn unclosed_comment_is_reported() {
    let l = Lexer::new("/* never closed");
    assert_eq!(l.token, Token::UnclosedComment);
    assert_eq!(l.range(), (0, 15));
    let l = Lexer::new("a /* /* */");
    let mut l2 = l;
    l2.advance();
    assert_eq!(l2.token, Token::UnclosedComment);
}

#[test]
fn comments_are_transparent_to_the_lexemes() {
    let plain = kinds_and_texts("a { b = 1 }");
    let commented = kinds_and_texts(
        "// head\na /* one /* nested */ still */ { // tail\n b /**/ = 1 /* x */ }",
    );
    assert_eq!(plain, commented);
}
