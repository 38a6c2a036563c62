use tcod_config::de::{Deserializer, Error, Expected, InvalidCharError, Sequence};
use tcod_config::decode::{IntKind, Shape, Value};
use tcod_config::lexer::Token;

fn record(block_type: &str, fields: Vec<(&str, Shape)>) -> Shape {
    Shape::Record {
        block_type: block_type.to_string(),
        fields: fields.into_iter().map(|(n, s)| (n.to_string(), s)).collect(),
    }
}

fn widget() -> Shape {
    record("widget", vec![("instance_name", Shape::Str), ("weight", Shape::Int(IntKind::I32))])
}

fn field<'a>(v: &'a Value, name: &str) -> &'a Value {
    match v {
        Value::Record { fields } => &fields.iter().find(|(n, _)| n == name).unwrap().1,
        _ => panic!("not a record"),
    }
}

#[test]
fn signed_integer() {
    let mut de = Deserializer::new("42");
    assert_eq!(de.deserialize_i32().unwrap(), 42);
    assert_eq!(de.lexer.token, Token::EndOfInput);
    let mut de = Deserializer::new("-17");
    assert_eq!(de.deserialize_i8().unwrap(), -17);
}

#[test]
fn integer_out_of_range() {
    let mut de = Deserializer::new("300");
    match de.deserialize_i8() {
        Err(Error::IntegerOutOfRange { value, start, end }) => {
            assert_eq!(value, "300");
            assert_eq!((start, end), (0, 3));
        }
        other => panic!("{:?}", other),
    }
    assert_eq!(de.deserialize_u16().unwrap(), 300);
    let mut de = Deserializer::new("-1");
    assert!(de.deserialize_u64().is_err());
    let mut de = Deserializer::new("18446744073709551615");
    assert_eq!(de.deserialize_u64().unwrap(), u64::MAX);
    let mut de = Deserializer::new("-9223372036854775808");
    assert_eq!(de.deserialize_i64().unwrap(), i64::MIN);
}

#[test]
fn hex_integer() {
    let mut de = Deserializer::new("-0x1F");
    assert_eq!(de.deserialize_hex(i64::MIN as i128, i64::MAX as i128).unwrap(), -31);
    let mut de = Deserializer::new("0xff");
    assert_eq!(de.deserialize_hex(0, 255).unwrap(), 255);
    let mut de = Deserializer::new("0x100");
    assert!(matches!(de.deserialize_hex(0, 255), Err(Error::IntegerOutOfRange { .. })));
}

#[test]
fn floats_keep_their_text() {
    for text in ["3.5", ".5", "5."] {
        let mut de = Deserializer::new(text);
        assert_eq!(de.deserialize_float().unwrap(), text);
    }
    let mut de = Deserializer::new("3");
    assert!(matches!(
        de.deserialize_float(),
        Err(Error::UnexpectedToken { token: Token::Integer, .. })
    ));
}

#[test]
fn flag_is_any_identifier() {
    let mut de = Deserializer::new("enabled");
    assert_eq!(de.deserialize_bool().unwrap(), true);
    let mut de = Deserializer::new("1");
    assert!(de.deserialize_bool().is_err());
}

#[test]
fn chars_of_every_form() {
    let cases = [("'\\n'", '\n'), ("'\\x41'", 'A'), ("'\\101'", 'A'), ("'z'", 'z'), ("65", 'A'),
        ("0x42", 'B'), ("'\\\\'", '\\'), ("'\\''", '\''), ("'\\200'", '\u{80}')];
    for (text, want) in cases {
        let mut de = Deserializer::new(text);
        assert_eq!(de.deserialize_char().unwrap(), want, "{}", text);
        assert_eq!(de.lexer.token, Token::EndOfInput);
    }
}

#[test]
fn char_number_too_large() {
    let mut de = Deserializer::new("256");
    match de.deserialize_char() {
        Err(Error::InvalidChar { source: InvalidCharError::ParseInt { value } }) => {
            assert_eq!(value, "256")
        }
        other => panic!("{:?}", other),
    }
    let mut de = Deserializer::new("'\\777'");
    assert!(matches!(
        de.deserialize_char(),
        Err(Error::InvalidChar { source: InvalidCharError::ParseInt { .. } })
    ));
}

#[test]
fn borrowed_string() {
    let mut de = Deserializer::new("\"abc\"");
    assert_eq!(de.deserialize_str().unwrap(), "abc");
}

#[test]
fn multi_segment_string() {
    let mut de = Deserializer::new("\"ab\" \"cd\"");
    assert_eq!(de.deserialize_string().unwrap(), "abcd");
    assert_eq!(de.lexer.token, Token::EndOfInput);
    let mut de = Deserializer::new("\"ab\" \"cd\"");
    match de.deserialize_str() {
        Err(Error::MultiLineStringOnBorrowedStr { value, start, end }) => {
            assert_eq!(value, "\"cd\"");
            assert_eq!((start, end), (5, 9));
        }
        other => panic!("{:?}", other),
    }
}

#[test]
fn record_identity() {
    let mut de = Deserializer::new("widget \"lamp\" { weight = 3 }");
    let v = de.decode(&widget()).unwrap();
    assert_eq!(field(&v, "instance_name"), &Value::Str("lamp".to_string()));
    assert_eq!(field(&v, "weight"), &Value::Int(3));
    assert_eq!(de.lexer.token, Token::EndOfInput);

    let mut de = Deserializer::new("widget \"lamp\" { weight = 3 }");
    let gadget = record("gadget", vec![("instance_name", Shape::Str), ("weight", Shape::Int(IntKind::I32))]);
    match de.decode(&gadget) {
        Err(Error::UnexpectedStruct { name, expected }) => {
            assert_eq!(name, "widget");
            assert_eq!(expected, "gadget");
        }
        other => panic!("{:?}", other),
    }
}

#[test]
fn record_without_instance_name() {
    let mut de = Deserializer::new("widget { }");
    let v = de.decode(&widget()).unwrap();
    assert_eq!(field(&v, "instance_name"), &Value::Str(String::new()));
}

#[test]
fn missing_name_field() {
    for text in ["widget \"lamp\" { weight = 3 }", "", "}"] {
        let mut de = Deserializer::new(text);
        let before = (de.lexer.pos, de.lexer.token, de.lexer.start, de.lexer.end);
        let r = de.deserialize_struct("widget", &["name", "weight"]);
        assert!(matches!(r, Err(Error::MissingInstanceName)));
        assert_eq!(before, (de.lexer.pos, de.lexer.token, de.lexer.start, de.lexer.end));
    }
}

#[test]
fn grouped_sibling_boundary() {
    let a = Shape::List(Box::new(record("a", vec![("instance_name", Shape::Str)])));
    let mut de = Deserializer::new("a { } a { } b { }");
    match de.decode(&a).unwrap() {
        Value::List(items) => assert_eq!(items.len(), 2),
        other => panic!("{:?}", other),
    }
    assert_eq!(de.lexer.token, Token::Identifier);
    assert_eq!(de.lexer.slice(), "b");
    assert_eq!(de.lexer.range(), (12, 13));

    let mut de = Deserializer::new("a { } b { } a { }");
    match de.decode(&a).unwrap() {
        Value::List(items) => assert_eq!(items.len(), 1),
        other => panic!("{:?}", other),
    }
    assert_eq!(de.lexer.slice(), "b");
    assert_eq!(de.lexer.range(), (6, 7));
}

#[test]
fn array_boundary() {
    let ints = Shape::List(Box::new(Shape::Int(IntKind::I64)));
    let mut de = Deserializer::new("[]");
    assert_eq!(de.decode(&ints).unwrap(), Value::List(vec![]));
    let mut de = Deserializer::new("[1, 2, 3]");
    assert_eq!(
        de.decode(&ints).unwrap(),
        Value::List(vec![Value::Int(1), Value::Int(2), Value::Int(3)])
    );
    // A trailing comma is accepted.
    let mut de = Deserializer::new("[1, 2,]");
    assert_eq!(de.decode(&ints).unwrap(), Value::List(vec![Value::Int(1), Value::Int(2)]));
    let mut de = Deserializer::new("[0x1F, 2]");
    assert!(de.decode(&Shape::List(Box::new(Shape::Char))).is_ok());
    let mut de = Deserializer::new("[1 2]");
    assert!(matches!(
        de.decode(&ints),
        Err(Error::UnexpectedToken { token: Token::Integer, .. })
    ));
}

#[test]
fn sequence_kinds() {
    let mut de = Deserializer::new("[1]");
    assert!(matches!(de.deserialize_seq(), Ok(Sequence::Primitives(_))));
    let mut de = Deserializer::new("a { }");
    assert!(matches!(de.deserialize_seq(), Ok(Sequence::Structs(_))));
    let mut de = Deserializer::new("= 1");
    assert!(matches!(de.deserialize_seq(), Err(Error::UnexpectedToken { token: Token::Assign, .. })));
}

#[test]
fn unclosed_comment_fails() {
    let mut de = Deserializer::new("/* never closed");
    assert!(matches!(de.decode(&widget()), Err(Error::UnclosedComment { start: 0, end: 15 })));
    let mut de = Deserializer::new("x = /* /* */");
    assert!(matches!(de.deserialize_bool(), Ok(true)));
    assert!(matches!(de.deserialize_i32(), Err(Error::UnexpectedToken { token: Token::Assign, expecting: Expected::Number, .. })));
}

fn outer() -> Shape {
    record(
        "outer",
        vec![
            ("instance_name", Shape::Str),
            ("inner", Shape::List(Box::new(record("inner", vec![("instance_name", Shape::Str), ("x", Shape::Int(IntKind::U8))])))),
            ("title", Shape::String),
            ("letter", Shape::Char),
            ("sizes", Shape::List(Box::new(Shape::Float))),
            ("on", Shape::Bool),
        ],
    )
}

#[test]
fn nested_blocks() {
    let text = "outer \"o\" {\n  inner \"i1\" { x = 1 }\n  inner { x = 2 }\n  title = \"a\" \"b\"\n  letter = 'q'\n  sizes = [1.5, .5]\n  on\n}";
    let mut de = Deserializer::new(text);
    let v = de.decode(&outer()).unwrap();
    assert_eq!(field(&v, "instance_name"), &Value::Str("o".to_string()));
    match field(&v, "inner") {
        Value::List(items) => {
            assert_eq!(items.len(), 2);
            assert_eq!(field(&items[0], "instance_name"), &Value::Str("i1".to_string()));
            assert_eq!(field(&items[1], "x"), &Value::Int(2));
        }
        other => panic!("{:?}", other),
    }
    assert_eq!(field(&v, "title"), &Value::Str("ab".to_string()));
    assert_eq!(field(&v, "letter"), &Value::Char('q'));
    assert_eq!(
        field(&v, "sizes"),
        &Value::List(vec![Value::Float("1.5".to_string()), Value::Float(".5".to_string())])
    );
    assert_eq!(field(&v, "on"), &Value::Bool(true));
    assert_eq!(de.lexer.token, Token::EndOfInput);
}

#[test]
fn comments_do_not_change_the_result() {
    let plain = "outer \"o\" { inner { x = 1 } title = \"t\" }";
    let commented = "// top\nouter /* a */ \"o\" /* b /* nested */ */ { // c\n inner { x /**/ = 1 } title = \"t\" /* d */ }";
    let a = Deserializer::new(plain).decode(&outer()).unwrap();
    let b = Deserializer::new(commented).decode(&outer()).unwrap();
    assert_eq!(a, b);
}

#[test]
fn unknown_field_is_rejected() {
    let mut de = Deserializer::new("widget { color = 1 }");
    match de.decode(&widget()) {
        Err(Error::UnknownField { name }) => assert_eq!(name, "color"),
        other => panic!("{:?}", other),
    }
}

#[test]
fn value_expected_after_assign() {
    let mut de = Deserializer::new("widget { weight = }");
    assert!(matches!(
        de.decode(&widget()),
        Err(Error::UnexpectedToken { token: Token::BraceClose, .. })
    ));
}

#[test]
fn identifier_that_cannot_be_a_field_ends_the_block() {
    let mut de = Deserializer::new("widget { weight = 3 next , }");
    let v = de.decode(&widget()).unwrap();
    assert_eq!(field(&v, "weight"), &Value::Int(3));
    assert_eq!(de.lexer.slice(), "next");
}

#[test]
fn empty_input() {
    let mut de = Deserializer::new("");
    assert!(matches!(
        de.decode(&widget()),
        Err(Error::UnexpectedToken { token: Token::EndOfInput, start: 0, end: 0, .. })
    ));
    let mut de = Deserializer::new("   // only a comment\n");
    assert!(matches!(
        de.decode(&Shape::Int(IntKind::U8)),
        Err(Error::UnexpectedToken { token: Token::EndOfInput, .. })
    ));
}

#[test]
fn run_of_blocks_needs_a_closing_brace_or_another_block() {
    let a = Shape::List(Box::new(record("a", vec![("instance_name", Shape::Str)])));
    let mut de = Deserializer::new("a { } a { }");
    assert!(matches!(
        de.decode(&a),
        Err(Error::UnexpectedToken { token: Token::EndOfInput, .. })
    ));
}

#[test]
fn color_is_not_a_value() {
    let mut de = Deserializer::new("widget { weight = #ff0000 }");
    assert!(matches!(
        de.decode(&widget()),
        Err(Error::UnexpectedToken { token: Token::Color, .. })
    ));
}

#[test]
fn expectation_is_reported() {
    let mut de = Deserializer::new("3.5");
    match de.deserialize_i32() {
        Err(Error::UnexpectedToken { value, token, start, end, expecting }) => {
            assert_eq!(value, "3.5");
            assert_eq!(token, Token::Float);
            assert_eq!((start, end), (0, 3));
            assert_eq!(expecting, Expected::Number);
        }
        other => panic!("{:?}", other),
    }
    let mut de = Deserializer::new("#ff00ff");
    assert!(matches!(
        de.deserialize_char(),
        Err(Error::UnexpectedToken { token: Token::Color, expecting: Expected::Char, .. })
    ));
}
