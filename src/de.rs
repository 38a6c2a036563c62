use vstd::prelude::*;
use crate::lexer::{Lexer, Token, chars_of, chars_to_string, lex_at, push_chars, text_is};
use crate::number::{all_digits, digit_value, digit_value_of, digits_value, integer_value, parse_digits, parse_u8};

verus! {

/// What can go wrong while a char value is read.
#[derive(Debug, PartialEq)]
pub enum InvalidCharError {
    /// A char written as a number is no number, or does not fit a byte.
    ParseInt { value: String },
    /// A backslash escape that the format does not know.
    InvalidEscapeSequence { value: String },
    /// A char literal whose body is not a single character.
    InvalidCharValue { value: String },
}

/// What can go wrong while a configuration text is decoded.
#[derive(Debug, PartialEq)]
pub enum Error {
    /// The code that builds values rejected one.
    Custom { msg: String },
    /// A lexeme that cannot stand where it was found.
    UnexpectedToken { value: String, token: Token, start: usize, end: usize, expecting: Expected },
    /// A block comment still open at the end of the text.
    UnclosedComment { start: usize, end: usize },
    /// A block of another type than the one asked for.
    UnexpectedStruct { name: String, expected: String },
    /// A record type that declares no `instance_name` field.
    MissingInstanceName,
    /// An invalid char value.
    InvalidChar { source: InvalidCharError },
    /// A text in several pieces where a single piece is required.
    MultiLineStringOnBorrowedStr { value: String, start: usize, end: usize },
    /// An integer lexeme whose value does not fit the requested type.
    IntegerOutOfRange { value: String, start: usize, end: usize },
    /// A field that the record type does not declare.
    UnknownField { name: String },
}

/// What a char lexeme stands for, or why it stands for none.
pub enum CharOutcome {
    Value(char),
    BadNumber(Seq<char>),
    BadEscape(Seq<char>),
    BadValue(Seq<char>),
}

/// The name of the field that holds a block's instance name.
pub open spec fn name_field() -> Seq<char> {
    seq!['i', 'n', 's', 't', 'a', 'n', 'c', 'e', '_', 'n', 'a', 'm', 'e']
}

/// The text between the first and the last character of `t`.
pub open spec fn strip(t: Seq<char>) -> Seq<char> {
    t.subrange(1, t.len() - 1)
}

/// What was expected where an unexpected lexeme was found.
#[derive(Debug, PartialEq, Eq, Structural, Clone, Copy)]
pub enum Expected {
    Identifier,
    Number,
    HexNumber,
    Char,
    Text,
    BracketOrIdentifier,
    BracketClose,
    TypeName,
    NameOrBraceOpen,
    BraceOpen,
    Field,
    Value,
    AssignOrName,
    ValueOrClose,
    BlockOrClose,
}

/// Whether `e` reports the current lexeme of `l` as unexpected where `x` was
/// expected; an unclosed comment is reported as such.
pub open spec fn unexpected_at(e: Error, l: Lexer, x: Expected) -> bool {
    if l.token == Token::UnclosedComment {
        e matches Error::UnclosedComment { start, end } && start == l.start && end == l.end
    } else {
        e matches Error::UnexpectedToken { value, token, start, end, expecting } && value@
            == l.text() && token == l.token && start == l.start && end == l.end && expecting == x
    }
}

/// What is expected where a block's header goes wrong, scanning from `p`
/// after its type name: a brace after an instance name, else either.
pub open spec fn header_expectation(s: Seq<char>, p: int) -> Expected {
    if lex_at(s, p).0 == Token::Text {
        Expected::BraceOpen
    } else {
        Expected::NameOrBraceOpen
    }
}

/// The char whose code is the byte `b`, or why there is none.
pub open spec fn byte_char(b: Option<u8>, digits: Seq<char>) -> CharOutcome {
    match b {
        Some(v) => CharOutcome::Value(v as char),
        None => CharOutcome::BadNumber(digits),
    }
}

/// The char that a backslash followed by `c` stands for, if any.
pub open spec fn named_escape(c: char) -> Option<char> {
    if c == 'n' {
        Some('\n')
    } else if c == 't' {
        Some('\t')
    } else if c == 'r' {
        Some('\r')
    } else if c == '\\' {
        Some('\\')
    } else if c == '"' {
        Some('"')
    } else if c == '\'' {
        Some('\'')
    } else {
        None
    }
}

/// The char that the body `c` of a char literal (its text between the quotes)
/// stands for: a hex escape `\xHH`, an octal escape `\NNN`, a named escape, or
/// a single character.
pub open spec fn char_body(c: Seq<char>) -> CharOutcome {
    let hex = c.subrange(2, c.len() as int);
    let oct = c.subrange(1, c.len() as int);
    if c.len() >= 2 && c[0] == '\\' && c[1] == 'x' {
        byte_char(parse_u8(hex, 16), hex)
    } else if c.len() > 1 && all_digits(oct, 8) {
        byte_char(parse_u8(oct, 8), oct)
    } else if c.len() == 2 && c[0] == '\\' {
        match named_escape(c[1]) {
            Some(x) => CharOutcome::Value(x),
            None => CharOutcome::BadEscape(oct),
        }
    } else if c.len() == 1 {
        CharOutcome::Value(c[0])
    } else {
        CharOutcome::BadValue(c)
    }
}

/// The char that a lexeme of class `k` and text `t` stands for: a decimal
/// byte, a hex byte after its `0x`, or a char literal.
pub open spec fn char_value(k: Token, t: Seq<char>) -> CharOutcome {
    if k == Token::Integer {
        byte_char(parse_u8(t, 10), t)
    } else if k == Token::Hex {
        byte_char(parse_u8(t.subrange(2, t.len() as int), 16), t.subrange(2, t.len() as int))
    } else {
        char_body(strip(t))
    }
}

/// Whether `e` is the error that `o` calls for.
pub open spec fn char_error(e: Error, o: CharOutcome) -> bool {
    match (e, o) {
        (Error::InvalidChar { source: InvalidCharError::ParseInt { value } }, CharOutcome::BadNumber(
            d,
        )) => value@ == d,
        (
            Error::InvalidChar { source: InvalidCharError::InvalidEscapeSequence { value } },
            CharOutcome::BadEscape(d),
        ) => value@ == d,
        (
            Error::InvalidChar { source: InvalidCharError::InvalidCharValue { value } },
            CharOutcome::BadValue(d),
        ) => value@ == d,
        _ => false,
    }
}

/// The decimal integer that a lexeme text holds, if it is `-?[0-9]+`.
pub open spec fn integer_literal(t: Seq<char>) -> Option<int> {
    let d = if t.len() > 0 && t[0] == '-' {
        t.drop_first()
    } else {
        t
    };
    if d.len() > 0 && all_digits(d, 10) {
        Some(integer_value(t))
    } else {
        None
    }
}

/// The texts of the run of consecutive `Text` lexemes found by scanning `s`
/// from `p`, without their quotes and joined, and the position after the run.
pub open spec fn text_run(s: Seq<char>, p: int) -> (Seq<char>, int)
    decreases s.len() - p,
{
    let t = lex_at(s, p);
    if t.0 == Token::Text && p < t.2 <= s.len() {
        let more = text_run(s, t.2);
        (strip(s.subrange(t.1, t.2)) + more.0, more.1)
    } else {
        (Seq::empty(), p)
    }
}

/// Lexemes that may be read as a char.
pub open spec fn is_char_token(t: Token) -> bool {
    t == Token::Integer || t == Token::Hex || t == Token::Char
}

/// The integer that a lexeme text holds, if it is `-?0[xX][0-9a-fA-F]+`.
pub open spec fn hex_literal(t: Seq<char>) -> Option<int> {
    let n: int = if t.len() > 0 && t[0] == '-' {
        1
    } else {
        0
    };
    let d = t.subrange(n + 2, t.len() as int);
    if t.len() >= n + 3 && t[n] == '0' && (t[n + 1] == 'x' || t[n + 1] == 'X') && all_digits(
        d,
        16,
    ) {
        Some(
            if n == 1 {
                -digits_value(d, 16)
            } else {
                digits_value(d, 16)
            },
        )
    } else {
        None
    }
}

/// The value of the current lexeme of `l` when it is a decimal integer from
/// `min` to `max`.
pub open spec fn integer_read(l: Lexer, min: int, max: int) -> Option<int> {
    if l.token == Token::Integer && integer_literal(l.text()) is Some && min
        <= integer_literal(l.text())->0 <= max {
        integer_literal(l.text())
    } else {
        None
    }
}

/// Whether `r` is what the outcome `o` of reading a char calls for.
pub open spec fn char_result(r: Result<char, Error>, o: CharOutcome) -> bool {
    match r {
        Ok(c) => o == CharOutcome::Value(c),
        Err(e) => char_error(e, o),
    }
}

fn all_digits_at(src: &Vec<char>, from: usize, to: usize, radix: u32) -> (b: bool)
    requires
        from <= to <= src.len(),
    ensures
        b == all_digits(src@.subrange(from as int, to as int), radix as int),
{
    let ghost d = src@.subrange(from as int, to as int);
    let mut i: usize = from;
    while i < to
        invariant
            from <= i <= to <= src.len(),
            d == src@.subrange(from as int, to as int),
            forall|j: int| 0 <= j < i - from ==> #[trigger] digit_value(d[j]) < radix,
        decreases to - i,
    {
        if digit_value_of(src[i]) >= radix {
            assert(digit_value(d[i - from]) >= radix);
            return false;
        }
        i = i + 1;
    }
    true
}

/// Reads `src[from..to]` as a byte in base `radix`, as the standard library does.
fn parse_u8_at(src: &Vec<char>, from: usize, to: usize, radix: u32) -> (r: Option<u8>)
    requires
        from <= to <= src.len(),
        2 <= radix <= 16,
    ensures
        r == parse_u8(src@.subrange(from as int, to as int), radix as int),
{
    let ghost d = src@.subrange(from as int, to as int);
    let f = if from < to && src[from] == '+' {
        from + 1
    } else {
        from
    };
    assert(src@.subrange(f as int, to as int) =~= (if d.len() > 0 && d[0] == '+' {
        d.drop_first()
    } else {
        d
    }));
    match parse_digits(src, f, to, radix, 255) {
        Some(v) => Some(v as u8),
        None => None,
    }
}

/// The char whose code is the byte written in `src[from..to]` in base `radix`.
fn byte_char_at(src: &Vec<char>, from: usize, to: usize, radix: u32) -> (r: Result<char, Error>)
    requires
        from <= to <= src.len(),
        2 <= radix <= 16,
    ensures
        char_result(
            r,
            byte_char(
                parse_u8(src@.subrange(from as int, to as int), radix as int),
                src@.subrange(from as int, to as int),
            ),
        ),
{
    match parse_u8_at(src, from, to, radix) {
        Some(b) => Ok(b as char),
        None => Err(
            Error::InvalidChar {
                source: InvalidCharError::ParseInt { value: chars_to_string(src, from, to) },
            },
        ),
    }
}

fn named_escape_of(c: char) -> (r: Option<char>)
    ensures
        r == named_escape(c),
{
    if c == 'n' {
        Some('\n')
    } else if c == 't' {
        Some('\t')
    } else if c == 'r' {
        Some('\r')
    } else if c == '\\' {
        Some('\\')
    } else if c == '"' {
        Some('"')
    } else if c == '\'' {
        Some('\'')
    } else {
        None
    }
}

/// The char that the body `src[a..b]` of a char literal stands for.
fn char_body_at(src: &Vec<char>, a: usize, b: usize) -> (r: Result<char, Error>)
    requires
        a <= b <= src.len(),
    ensures
        char_result(r, char_body(src@.subrange(a as int, b as int))),
{
    let ghost c = src@.subrange(a as int, b as int);
    if b - a >= 2 && src[a] == '\\' && src[a + 1] == 'x' {
        assert(c.subrange(2, c.len() as int) =~= src@.subrange(a + 2, b as int));
        return byte_char_at(src, a + 2, b, 16);
    }
    if b - a > 1 {
        assert(c.subrange(1, c.len() as int) =~= src@.subrange(a + 1, b as int));
        if all_digits_at(src, a + 1, b, 8) {
            return byte_char_at(src, a + 1, b, 8);
        }
    }
    if b - a == 2 && src[a] == '\\' {
        assert(c.subrange(1, c.len() as int) =~= src@.subrange(a + 1, b as int));
        match named_escape_of(src[a + 1]) {
            Some(x) => Ok(x),
            None => Err(
                Error::InvalidChar {
                    source: InvalidCharError::InvalidEscapeSequence {
                        value: chars_to_string(src, a + 1, b),
                    },
                },
            ),
        }
    } else if b - a == 1 {
        Ok(src[a])
    } else {
        Err(
            Error::InvalidChar {
                source: InvalidCharError::InvalidCharValue { value: chars_to_string(src, a, b) },
            },
        )
    }
}

/// Lexemes that may begin an element of a bracketed list.
pub open spec fn is_element_token(t: Token) -> bool {
    t == Token::Text || t == Token::Integer || t == Token::Hex || t == Token::Float || t
        == Token::Char || t == Token::BracketOpen
}

/// Lexemes that may follow an identifier for it to be taken as a field name.
pub open spec fn follows_key(t: Token) -> bool {
    t == Token::Assign || t == Token::Text || t == Token::BraceOpen || t == Token::Identifier || t
        == Token::BraceClose
}

/// Lexemes that may stand after `=`.
pub open spec fn is_value_token(t: Token) -> bool {
    t == Token::Text || t == Token::Char || t == Token::Integer || t == Token::Hex || t
        == Token::Float || t == Token::BracketOpen
}

/// Lexemes after a field name that make the field a nested block.
pub open spec fn is_nesting_token(t: Token) -> bool {
    t == Token::Text || t == Token::BraceOpen || t == Token::Identifier || t == Token::BraceClose
}

/// Whether `fields` holds the name of the instance-name field.
pub open spec fn has_name_field(fields: Seq<&str>) -> bool {
    exists|i: int| 0 <= i < fields.len() && #[trigger] fields[i]@ == name_field()
}

/// What follows a block's type name, scanning `s` from `p`: an optional quoted
/// instance name and an opening brace. Gives whether they are there, the
/// instance name (empty when absent) and the position after the brace; or, when
/// they are not, the position from which the offending lexeme is scanned.
pub open spec fn header(s: Seq<char>, p: int) -> (bool, Seq<char>, int) {
    let t1 = lex_at(s, p);
    let t2 = lex_at(s, t1.2);
    if t1.0 == Token::Text {
        if t2.0 == Token::BraceOpen {
            (true, strip(s.subrange(t1.1, t1.2)), t2.2)
        } else {
            (false, Seq::empty(), t1.2)
        }
    } else if t1.0 == Token::BraceOpen {
        (true, Seq::empty(), t1.2)
    } else {
        (false, Seq::empty(), p)
    }
}

/// How a bracketed list or a run of blocks is read, element by element.
#[derive(Debug)]
pub enum Sequence {
    Structs(StructSeqAccess),
    Primitives(PrimitiveSeqAccess),
}

/// Reads the elements of a bracketed list.
#[derive(Debug)]
pub struct PrimitiveSeqAccess {}

/// Reads a run of blocks of one type; the first block fixes the type.
#[derive(Debug)]
pub struct StructSeqAccess {
    pub block_type: Option<Vec<char>>,
}

/// Reads the fields of a block. The instance name comes first; `park` holds
/// the position from which the last field name was scanned.
#[derive(Debug)]
pub struct StructInternalAccess {
    pub instance_name: Option<Vec<char>>,
    pub park: Option<usize>,
}

/// What a field's value is, once its name is read.
#[derive(Debug, PartialEq)]
pub enum FieldValue {
    /// The block's instance name.
    InstanceName(String),
    /// A value after `=`, at the decoder's current lexeme.
    Value,
    /// A nested block, whose type name is the field name, at the decoder's
    /// current lexeme.
    Nested,
}

fn name_field_chars() -> (r: Vec<char>)
    ensures
        r@ == name_field(),
{
    let r = vec!['i', 'n', 's', 't', 'a', 'n', 'c', 'e', '_', 'n', 'a', 'm', 'e'];
    assert(r@ =~= name_field());
    r
}

fn chars_eq(a: &Vec<char>, b: &Vec<char>) -> (r: bool)
    ensures
        r == (a@ == b@),
{
    if a.len() != b.len() {
        return false;
    }
    let mut i: usize = 0;
    while i < a.len()
        invariant
            a.len() == b.len(),
            i <= a.len(),
            forall|j: int| 0 <= j < i ==> a@[j] == b@[j],
        decreases a.len() - i,
    {
        if a[i] != b[i] {
            return false;
        }
        i = i + 1;
    }
    assert(a@ =~= b@);
    true
}

fn contains_name_field(fields: &[&str]) -> (r: bool)
    ensures
        r == has_name_field(fields@),
{
    let name = name_field_chars();
    let mut i: usize = 0;
    while i < fields.len()
        invariant
            i <= fields@.len(),
            name@ == name_field(),
            forall|j: int| 0 <= j < i ==> #[trigger] fields@[j]@ != name_field(),
        decreases fields.len() - i,
    {
        let f = chars_of(fields[i]);
        if chars_eq(&f, &name) {
            return true;
        }
        i = i + 1;
    }
    false
}

impl PrimitiveSeqAccess {
    pub fn new() -> (a: PrimitiveSeqAccess) {
        PrimitiveSeqAccess {  }
    }

    /// Whether another element follows; the caller then reads it and calls
    /// `element_done`.
    pub fn next_element(&mut self, de: &Deserializer) -> (r: Result<bool, Error>)
        requires
            de.wf(),
        ensures
            is_element_token(de.lexer.token) ==> r == Ok::<bool, Error>(true),
            de.lexer.token == Token::BracketClose ==> r == Ok::<bool, Error>(false),
            !is_element_token(de.lexer.token) && de.lexer.token != Token::BracketClose ==> r is Err
                && unexpected_at(r->Err_0, de.lexer, Expected::ValueOrClose),
    {
        let t = de.lexer.token;
        if t == Token::Text || t == Token::Integer || t == Token::Hex || t == Token::Float || t
            == Token::Char || t == Token::BracketOpen {
            Ok(true)
        } else if t == Token::BracketClose {
            Ok(false)
        } else {
            Err(de.unexpected(Expected::ValueOrClose))
        }
    }

    /// After an element: a comma is passed over, a closing bracket is left.
    pub fn element_done(&mut self, de: &mut Deserializer) -> (r: Result<(), Error>)
        requires
            old(de).wf(),
        ensures
            final(de).wf(),
            old(de).lexer.token == Token::Comma ==> r is Ok && final(de).advanced(old(de)),
            old(de).lexer.token == Token::BracketClose ==> r is Ok && *final(de) == *old(de),
            old(de).lexer.token != Token::Comma && old(de).lexer.token != Token::BracketClose ==> r is Err
                && unexpected_at(r->Err_0, old(de).lexer, Expected::ValueOrClose) && *final(de) == *old(de),
    {
        if de.lexer.token == Token::Comma {
            de.lexer.advance();
            Ok(())
        } else if de.lexer.token == Token::BracketClose {
            Ok(())
        } else {
            Err(de.unexpected(Expected::ValueOrClose))
        }
    }
}

impl StructSeqAccess {
    pub fn new() -> (a: StructSeqAccess)
        ensures
            a.block_type is None,
    {
        StructSeqAccess { block_type: None }
    }

    /// Whether another block of the run follows; the caller then reads it.
    /// A block of another type, or a closing brace, ends the run.
    pub fn next_element(&mut self, de: &Deserializer) -> (r: Result<bool, Error>)
        requires
            de.wf(),
        ensures
            de.lexer.token == Token::Identifier ==> match old(self).block_type {
                Some(n) => r == Ok::<bool, Error>(n@ == de.lexer.text()) && *final(self) == *old(self),
                None => r == Ok::<bool, Error>(true) && (final(self).block_type matches Some(n) && n@
                    == de.lexer.text()),
            },
            de.lexer.token == Token::BraceClose ==> r == Ok::<bool, Error>(false) && *final(self)
                == *old(self),
            de.lexer.token != Token::Identifier && de.lexer.token != Token::BraceClose ==> r is Err
                && unexpected_at(r->Err_0, de.lexer, Expected::BlockOrClose) && *final(self) == *old(self),
    {
        if de.lexer.token == Token::Identifier {
            match &self.block_type {
                Some(n) => Ok(text_is(&de.lexer, n)),
                None => {
                    proof {
                        de.lexer.lemma_bounds();
                    }
                    let mut n: Vec<char> = Vec::new();
                    let mut i: usize = de.lexer.start;
                    while i < de.lexer.end
                        invariant
                            de.wf(),
                            de.lexer.start <= i <= de.lexer.end <= de.lexer.source.len(),
                            n@ == de.lexer.source@.subrange(de.lexer.start as int, i as int),
                        decreases de.lexer.end - i,
                    {
                        n.push(de.lexer.source[i]);
                        assert(de.lexer.source@.subrange(de.lexer.start as int, i + 1)
                            =~= n@);
                        i = i + 1;
                    }
                    self.block_type = Some(n);
                    Ok(true)
                },
            }
        } else if de.lexer.token == Token::BraceClose {
            Ok(false)
        } else {
            Err(de.unexpected(Expected::BlockOrClose))
        }
    }
}

impl StructInternalAccess {
    pub fn new(instance_name: Vec<char>) -> (a: StructInternalAccess)
        ensures
            a.instance_name == Some(instance_name),
            a.park is None,
    {
        StructInternalAccess { instance_name: Some(instance_name), park: None }
    }

    /// The next field name, or `None` at the end of the block. The instance
    /// name comes first, under the name `instance_name`. An identifier that
    /// cannot begin a field ends the block too, and is left unread.
    pub fn next_key(&mut self, de: &mut Deserializer) -> (r: Result<Option<String>, Error>)
        requires
            old(de).wf(),
        ensures
            final(de).wf(),
            final(de).lexer.source@ == old(de).lexer.source@,
            final(self).instance_name == old(self).instance_name,
            old(self).instance_name is Some ==> (r matches Ok(Some(k)) && k@ == name_field())
                && *final(self) == *old(self) && *final(de) == *old(de),
            old(self).instance_name is None ==> {
                let l = old(de).lexer;
                let next = lex_at(l.source@, l.end as int);
                &&& l.token == Token::BraceClose ==> (r matches Ok(None)) && final(de).advanced(old(de))
                    && *final(self) == *old(self)
                &&& l.token != Token::BraceClose && l.token != Token::Identifier ==> r is Err
                    && unexpected_at(r->Err_0, l, Expected::Field) && *final(de) == *old(de) && *final(self) == *old(self)
                &&& l.token == Token::Identifier && follows_key(next.0) ==> (r matches Ok(Some(k))
                    && k@ == l.text()) && final(de).advanced(old(de)) && final(self).park == Some(
                    l.pos,
                )
                &&& l.token == Token::Identifier && !follows_key(next.0) ==> (r matches Ok(None))
                    && final(de).lexer.is_at(&l, l.pos as int) && final(self).park is None
            },
    {
        if self.instance_name.is_some() {
            let k = chars_to_string(&name_field_chars(), 0, 13);
            assert(name_field().subrange(0, 13) =~= name_field());
            return Ok(Some(k));
        }
        if de.lexer.token == Token::BraceClose {
            de.lexer.advance();
            return Ok(None);
        }
        if de.lexer.token != Token::Identifier {
            return Err(de.unexpected(Expected::Field));
        }
        let field = de.lexer.slice();
        let p = de.lexer.pos;
        de.lexer.advance();
        let t = de.lexer.token;
        if t == Token::Assign || t == Token::Text || t == Token::BraceOpen || t == Token::Identifier
            || t == Token::BraceClose {
            self.park = Some(p);
            Ok(Some(field))
        } else {
            self.park = None;
            de.lexer.seek(p);
            Ok(None)
        }
    }

    /// Says what the value of the field just named is. After `=` the value is
    /// left at the current lexeme; a nested block is read from its field name
    /// again, which also names its type.
    pub fn next_value(&mut self, de: &mut Deserializer) -> (r: Result<FieldValue, Error>)
        requires
            old(de).wf(),
        ensures
            final(de).wf(),
            final(de).lexer.source@ == old(de).lexer.source@,
            old(self).instance_name matches Some(n) ==> (r matches Ok(FieldValue::InstanceName(v))
                && v@ == n@) && final(self).instance_name is None && final(self).park == old(self).park
                && *final(de) == *old(de),
            old(self).instance_name is None ==> {
                let l = old(de).lexer;
                let next = lex_at(l.source@, l.end as int);
                &&& final(self).instance_name is None
                &&& l.token == Token::Assign ==> final(de).advanced(old(de)) && final(self).park is None
                    && (is_value_token(next.0) ==> (r matches Ok(FieldValue::Value))) && (
                    !is_value_token(next.0) ==> r is Err && unexpected_at(r->Err_0, final(de).lexer, Expected::Value))
                &&& is_nesting_token(l.token) && (old(self).park matches Some(p) && p <= l.source.len())
                    ==> (r matches Ok(FieldValue::Nested)) && final(de).lexer.is_at(&l, old(self).park->0 as int)
                    && final(self).park is None
                &&& l.token != Token::Assign && !(is_nesting_token(l.token) && (old(self).park matches Some(p)
                    && p <= l.source.len())) ==> r is Err && unexpected_at(r->Err_0, l, Expected::AssignOrName) && *final(de)
                    == *old(de) && *final(self) == *old(self)
            },
    {
        if let Some(n) = self.instance_name.take() {
            let v = chars_to_string(&n, 0, n.len());
            assert(n@.subrange(0, n@.len() as int) =~= n@);
            return Ok(FieldValue::InstanceName(v));
        }
        let t = de.lexer.token;
        if t == Token::Assign {
            self.park = None;
            de.lexer.advance();
            let v = de.lexer.token;
            if v == Token::Text || v == Token::Char || v == Token::Integer || v == Token::Hex || v
                == Token::Float || v == Token::BracketOpen {
                Ok(FieldValue::Value)
            } else {
                Err(de.unexpected(Expected::Value))
            }
        } else if t == Token::Text || t == Token::BraceOpen || t == Token::Identifier || t
            == Token::BraceClose {
            if let Some(p) = self.park {
                if p <= de.lexer.source.len() {
                    self.park = None;
                    de.lexer.seek(p);
                    return Ok(FieldValue::Nested);
                }
            }
            Err(de.unexpected(Expected::AssignOrName))
        } else {
            Err(de.unexpected(Expected::AssignOrName))
        }
    }
}

/// A decoder over a configuration text: a cursor over its lexemes.
#[derive(Debug)]
pub struct Deserializer {
    pub lexer: Lexer,
}

impl Deserializer {
    /// The decoder's lexer is at the lexeme scanned from its position.
    pub open spec fn wf(&self) -> bool {
        self.lexer.wf()
    }

    /// Whether this decoder is `old` moved past its current lexeme.
    pub open spec fn advanced(&self, old: &Deserializer) -> bool {
        self.lexer.is_at(&old.lexer, old.lexer.end as int)
    }

    /// A decoder at the first lexeme of `source`.
    pub fn new(source: &str) -> (d: Deserializer)
        requires
            source@.len() <= isize::MAX,
        ensures
            d.wf(),
            d.lexer.source@ == source@,
            d.lexer.pos == 0,
    {
        Deserializer { lexer: Lexer::new(source) }
    }

    /// The error that reports the current lexeme as unexpected.
    fn unexpected(&self, expected: Expected) -> (e: Error)
        requires
            self.wf(),
        ensures
            unexpected_at(e, self.lexer, expected),
    {
        if self.lexer.token == Token::UnclosedComment {
            Error::UnclosedComment { start: self.lexer.start, end: self.lexer.end }
        } else {
            Error::UnexpectedToken {
                value: self.lexer.slice(),
                token: self.lexer.token,
                start: self.lexer.start,
                end: self.lexer.end,
                expecting: expected,
            }
        }
    }

    /// Reads a flag: any identifier means `true`.
    pub fn deserialize_bool(&mut self) -> (r: Result<bool, Error>)
        requires
            old(self).wf(),
        ensures
            final(self).wf(),
            old(self).lexer.token == Token::Identifier ==> r == Ok::<bool, Error>(true) && final(self).advanced(old(self)),
            old(self).lexer.token != Token::Identifier ==> r is Err && unexpected_at(r->Err_0, old(self).lexer, Expected::Identifier) && *final(self) == *old(self),
    {
        if self.lexer.token == Token::Identifier {
            self.lexer.advance();
            Ok(true)
        } else {
            Err(self.unexpected(Expected::Identifier))
        }
    }

    /// Reads a decimal integer lexeme whose value lies from `min` to `max`.
    pub fn deserialize_integer(&mut self, min: i128, max: i128) -> (r: Result<i128, Error>)
        requires
            old(self).wf(),
            i64::MIN <= min <= 0 <= max <= u64::MAX,
        ensures
            final(self).wf(),
            old(self).lexer.token != Token::Integer ==> r is Err && unexpected_at(r->Err_0, old(self).lexer, Expected::Number) && *final(self) == *old(self),
            old(self).lexer.token == Token::Integer ==> {
                let v = integer_literal(old(self).lexer.text());
                if v is Some && min <= v->0 <= max {
                    r == Ok::<i128, Error>(v->0 as i128) && final(self).advanced(old(self))
                } else {
                    &&& r matches Err(Error::IntegerOutOfRange { value, start, end })
                    &&& value@ == old(self).lexer.text()
                    &&& start == old(self).lexer.start && end == old(self).lexer.end
                    &&& *final(self) == *old(self)
                }
            },
    {
        if self.lexer.token != Token::Integer {
            return Err(self.unexpected(Expected::Number));
        }
        proof {
            self.lexer.lemma_bounds();
        }
        let ghost t = self.lexer.text();
        let s = self.lexer.start;
        let e = self.lexer.end;
        let neg = self.lexer.source[s] == '-';
        let from = if neg {
            s + 1
        } else {
            s
        };
        let bound: u128 = if neg {
            (0 - min) as u128
        } else {
            max as u128
        };
        let ghost d = self.lexer.source@.subrange(from as int, e as int);
        assert(d =~= (if t.len() > 0 && t[0] == '-' {
            t.drop_first()
        } else {
            t
        }));
        match parse_digits(&self.lexer.source, from, e, 10, bound) {
            Some(v) => {
                let value: i128 = if neg {
                    0 - (v as i128)
                } else {
                    v as i128
                };
                self.lexer.advance();
                Ok(value)
            },
            None => {
                Err(Error::IntegerOutOfRange { value: self.lexer.slice(), start: s, end: e })
            },
        }
    }

    /// Reads a hexadecimal integer lexeme whose value lies from `min` to `max`.
    pub fn deserialize_hex(&mut self, min: i128, max: i128) -> (r: Result<i128, Error>)
        requires
            old(self).wf(),
            i64::MIN <= min <= 0 <= max <= u64::MAX,
        ensures
            final(self).wf(),
            old(self).lexer.token != Token::Hex ==> r is Err && unexpected_at(r->Err_0, old(self).lexer, Expected::HexNumber)
                && *final(self) == *old(self),
            old(self).lexer.token == Token::Hex ==> {
                let v = hex_literal(old(self).lexer.text());
                if v is Some && min <= v->0 <= max {
                    r == Ok::<i128, Error>(v->0 as i128) && final(self).advanced(old(self))
                } else {
                    &&& r matches Err(Error::IntegerOutOfRange { value, start, end })
                    &&& value@ == old(self).lexer.text()
                    &&& start == old(self).lexer.start && end == old(self).lexer.end
                    &&& *final(self) == *old(self)
                }
            },
    {
        if self.lexer.token != Token::Hex {
            return Err(self.unexpected(Expected::HexNumber));
        }
        proof {
            self.lexer.lemma_bounds();
        }
        let ghost t = self.lexer.text();
        let s = self.lexer.start;
        let e = self.lexer.end;
        let neg = self.lexer.source[s] == '-';
        let n: usize = if neg {
            1
        } else {
            0
        };
        let x = if s + n + 1 < e {
            self.lexer.source[s + n + 1]
        } else {
            ' '
        };
        if s + n + 3 > e || self.lexer.source[s + n] != '0' || (x != 'x' && x != 'X') {
            return Err(Error::IntegerOutOfRange { value: self.lexer.slice(), start: s, end: e });
        }
        let bound: u128 = if neg {
            (0 - min) as u128
        } else {
            max as u128
        };
        assert(t.subrange(n + 2, t.len() as int) =~= self.lexer.source@.subrange(
            s + n + 2,
            e as int,
        ));
        match parse_digits(&self.lexer.source, s + n + 2, e, 16, bound) {
            Some(v) => {
                let value: i128 = if neg {
                    0 - (v as i128)
                } else {
                    v as i128
                };
                self.lexer.advance();
                Ok(value)
            },
            None => {
                Err(Error::IntegerOutOfRange { value: self.lexer.slice(), start: s, end: e })
            },
        }
    }

    /// Reads a decimal integer lexeme as a `i8`.
    pub fn deserialize_i8(&mut self) -> (r: Result<i8, Error>)
        requires
            old(self).wf(),
        ensures
            final(self).wf(),
            integer_read(old(self).lexer, i8::MIN as int, i8::MAX as int) matches Some(v) ==> r
                == Ok::<i8, Error>(v as i8) && final(self).advanced(old(self)),
            integer_read(old(self).lexer, i8::MIN as int, i8::MAX as int) is None ==> r is Err
                && *final(self) == *old(self),
            old(self).lexer.token != Token::Integer ==> r is Err && unexpected_at(
                r->Err_0,
                old(self).lexer,
                Expected::Number,
            ),
            old(self).lexer.token == Token::Integer && integer_read(
                old(self).lexer,
                i8::MIN as int,
                i8::MAX as int,
            ) is None ==> (r matches Err(Error::IntegerOutOfRange { value, start, end }) && value@
                == old(self).lexer.text() && start == old(self).lexer.start && end
                == old(self).lexer.end),
    {
        match self.deserialize_integer(i8::MIN as i128, i8::MAX as i128) {
            Ok(v) => Ok(v as i8),
            Err(e) => Err(e),
        }
    }

    /// Reads a decimal integer lexeme as a `i16`.
    pub fn deserialize_i16(&mut self) -> (r: Result<i16, Error>)
        requires
            old(self).wf(),
        ensures
            final(self).wf(),
            integer_read(old(self).lexer, i16::MIN as int, i16::MAX as int) matches Some(v) ==> r
                == Ok::<i16, Error>(v as i16) && final(self).advanced(old(self)),
            integer_read(old(self).lexer, i16::MIN as int, i16::MAX as int) is None ==> r is Err
                && *final(self) == *old(self),
            old(self).lexer.token != Token::Integer ==> r is Err && unexpected_at(
                r->Err_0,
                old(self).lexer,
                Expected::Number,
            ),
            old(self).lexer.token == Token::Integer && integer_read(
                old(self).lexer,
                i16::MIN as int,
                i16::MAX as int,
            ) is None ==> (r matches Err(Error::IntegerOutOfRange { value, start, end }) && value@
                == old(self).lexer.text() && start == old(self).lexer.start && end
                == old(self).lexer.end),
    {
        match self.deserialize_integer(i16::MIN as i128, i16::MAX as i128) {
            Ok(v) => Ok(v as i16),
            Err(e) => Err(e),
        }
    }

    /// Reads a decimal integer lexeme as a `i32`.
    pub fn deserialize_i32(&mut self) -> (r: Result<i32, Error>)
        requires
            old(self).wf(),
        ensures
            final(self).wf(),
            integer_read(old(self).lexer, i32::MIN as int, i32::MAX as int) matches Some(v) ==> r
                == Ok::<i32, Error>(v as i32) && final(self).advanced(old(self)),
            integer_read(old(self).lexer, i32::MIN as int, i32::MAX as int) is None ==> r is Err
                && *final(self) == *old(self),
            old(self).lexer.token != Token::Integer ==> r is Err && unexpected_at(
                r->Err_0,
                old(self).lexer,
                Expected::Number,
            ),
            old(self).lexer.token == Token::Integer && integer_read(
                old(self).lexer,
                i32::MIN as int,
                i32::MAX as int,
            ) is None ==> (r matches Err(Error::IntegerOutOfRange { value, start, end }) && value@
                == old(self).lexer.text() && start == old(self).lexer.start && end
                == old(self).lexer.end),
    {
        match self.deserialize_integer(i32::MIN as i128, i32::MAX as i128) {
            Ok(v) => Ok(v as i32),
            Err(e) => Err(e),
        }
    }

    /// Reads a decimal integer lexeme as a `i64`.
    pub fn deserialize_i64(&mut self) -> (r: Result<i64, Error>)
        requires
            old(self).wf(),
        ensures
            final(self).wf(),
            integer_read(old(self).lexer, i64::MIN as int, i64::MAX as int) matches Some(v) ==> r
                == Ok::<i64, Error>(v as i64) && final(self).advanced(old(self)),
            integer_read(old(self).lexer, i64::MIN as int, i64::MAX as int) is None ==> r is Err
                && *final(self) == *old(self),
            old(self).lexer.token != Token::Integer ==> r is Err && unexpected_at(
                r->Err_0,
                old(self).lexer,
                Expected::Number,
            ),
            old(self).lexer.token == Token::Integer && integer_read(
                old(self).lexer,
                i64::MIN as int,
                i64::MAX as int,
            ) is None ==> (r matches Err(Error::IntegerOutOfRange { value, start, end }) && value@
                == old(self).lexer.text() && start == old(self).lexer.start && end
                == old(self).lexer.end),
    {
        match self.deserialize_integer(i64::MIN as i128, i64::MAX as i128) {
            Ok(v) => Ok(v as i64),
            Err(e) => Err(e),
        }
    }

    /// Reads a decimal integer lexeme as a `u8`.
    pub fn deserialize_u8(&mut self) -> (r: Result<u8, Error>)
        requires
            old(self).wf(),
        ensures
            final(self).wf(),
            integer_read(old(self).lexer, u8::MIN as int, u8::MAX as int) matches Some(v) ==> r
                == Ok::<u8, Error>(v as u8) && final(self).advanced(old(self)),
            integer_read(old(self).lexer, u8::MIN as int, u8::MAX as int) is None ==> r is Err
                && *final(self) == *old(self),
            old(self).lexer.token != Token::Integer ==> r is Err && unexpected_at(
                r->Err_0,
                old(self).lexer,
                Expected::Number,
            ),
            old(self).lexer.token == Token::Integer && integer_read(
                old(self).lexer,
                u8::MIN as int,
                u8::MAX as int,
            ) is None ==> (r matches Err(Error::IntegerOutOfRange { value, start, end }) && value@
                == old(self).lexer.text() && start == old(self).lexer.start && end
                == old(self).lexer.end),
    {
        match self.deserialize_integer(u8::MIN as i128, u8::MAX as i128) {
            Ok(v) => Ok(v as u8),
            Err(e) => Err(e),
        }
    }

    /// Reads a decimal integer lexeme as a `u16`.
    pub fn deserialize_u16(&mut self) -> (r: Result<u16, Error>)
        requires
            old(self).wf(),
        ensures
            final(self).wf(),
            integer_read(old(self).lexer, u16::MIN as int, u16::MAX as int) matches Some(v) ==> r
                == Ok::<u16, Error>(v as u16) && final(self).advanced(old(self)),
            integer_read(old(self).lexer, u16::MIN as int, u16::MAX as int) is None ==> r is Err
                && *final(self) == *old(self),
            old(self).lexer.token != Token::Integer ==> r is Err && unexpected_at(
                r->Err_0,
                old(self).lexer,
                Expected::Number,
            ),
            old(self).lexer.token == Token::Integer && integer_read(
                old(self).lexer,
                u16::MIN as int,
                u16::MAX as int,
            ) is None ==> (r matches Err(Error::IntegerOutOfRange { value, start, end }) && value@
                == old(self).lexer.text() && start == old(self).lexer.start && end
                == old(self).lexer.end),
    {
        match self.deserialize_integer(u16::MIN as i128, u16::MAX as i128) {
            Ok(v) => Ok(v as u16),
            Err(e) => Err(e),
        }
    }

    /// Reads a decimal integer lexeme as a `u32`.
    pub fn deserialize_u32(&mut self) -> (r: Result<u32, Error>)
        requires
            old(self).wf(),
        ensures
            final(self).wf(),
            integer_read(old(self).lexer, u32::MIN as int, u32::MAX as int) matches Some(v) ==> r
                == Ok::<u32, Error>(v as u32) && final(self).advanced(old(self)),
            integer_read(old(self).lexer, u32::MIN as int, u32::MAX as int) is None ==> r is Err
                && *final(self) == *old(self),
            old(self).lexer.token != Token::Integer ==> r is Err && unexpected_at(
                r->Err_0,
                old(self).lexer,
                Expected::Number,
            ),
            old(self).lexer.token == Token::Integer && integer_read(
                old(self).lexer,
                u32::MIN as int,
                u32::MAX as int,
            ) is None ==> (r matches Err(Error::IntegerOutOfRange { value, start, end }) && value@
                == old(self).lexer.text() && start == old(self).lexer.start && end
                == old(self).lexer.end),
    {
        match self.deserialize_integer(u32::MIN as i128, u32::MAX as i128) {
            Ok(v) => Ok(v as u32),
            Err(e) => Err(e),
        }
    }

    /// Reads a decimal integer lexeme as a `u64`.
    pub fn deserialize_u64(&mut self) -> (r: Result<u64, Error>)
        requires
            old(self).wf(),
        ensures
            final(self).wf(),
            integer_read(old(self).lexer, u64::MIN as int, u64::MAX as int) matches Some(v) ==> r
                == Ok::<u64, Error>(v as u64) && final(self).advanced(old(self)),
            integer_read(old(self).lexer, u64::MIN as int, u64::MAX as int) is None ==> r is Err
                && *final(self) == *old(self),
            old(self).lexer.token != Token::Integer ==> r is Err && unexpected_at(
                r->Err_0,
                old(self).lexer,
                Expected::Number,
            ),
            old(self).lexer.token == Token::Integer && integer_read(
                old(self).lexer,
                u64::MIN as int,
                u64::MAX as int,
            ) is None ==> (r matches Err(Error::IntegerOutOfRange { value, start, end }) && value@
                == old(self).lexer.text() && start == old(self).lexer.start && end
                == old(self).lexer.end),
    {
        match self.deserialize_integer(u64::MIN as i128, u64::MAX as i128) {
            Ok(v) => Ok(v as u64),
            Err(e) => Err(e),
        }
    }

    /// Reads a float lexeme; its text is handed back as it stands.
    pub fn deserialize_float(&mut self) -> (r: Result<String, Error>)
        requires
            old(self).wf(),
        ensures
            final(self).wf(),
            old(self).lexer.token == Token::Float ==> (r matches Ok(t) && t@ == old(self).lexer.text())
                && final(self).advanced(old(self)),
            old(self).lexer.token != Token::Float ==> r is Err && unexpected_at(r->Err_0, old(self).lexer, Expected::Number)
                && *final(self) == *old(self),
    {
        if self.lexer.token == Token::Float {
            let t = self.lexer.slice();
            self.lexer.advance();
            Ok(t)
        } else {
            Err(self.unexpected(Expected::Number))
        }
    }

    /// Reads a char: a decimal byte, a hex byte, or a char literal.
    pub fn deserialize_char(&mut self) -> (r: Result<char, Error>)
        requires
            old(self).wf(),
        ensures
            final(self).wf(),
            is_char_token(old(self).lexer.token) ==> char_result(
                r,
                char_value(old(self).lexer.token, old(self).lexer.text()),
            ),
            is_char_token(old(self).lexer.token) && r is Ok ==> final(self).advanced(old(self)),
            !is_char_token(old(self).lexer.token) ==> r is Err && unexpected_at(r->Err_0, old(self).lexer, Expected::Char),
            r is Err ==> *final(self) == *old(self),
    {
        proof {
            self.lexer.lemma_bounds();
        }
        let s = self.lexer.start;
        let e = self.lexer.end;
        let ghost t = self.lexer.text();
        let r = if self.lexer.token == Token::Integer {
            byte_char_at(&self.lexer.source, s, e, 10)
        } else if self.lexer.token == Token::Hex {
            assert(t.subrange(2, t.len() as int) =~= self.lexer.source@.subrange(s + 2, e as int));
            byte_char_at(&self.lexer.source, s + 2, e, 16)
        } else if self.lexer.token == Token::Char {
            assert(strip(t) =~= self.lexer.source@.subrange(s + 1, e - 1));
            char_body_at(&self.lexer.source, s + 1, e - 1)
        } else {
            return Err(self.unexpected(Expected::Char));
        };
        if r.is_ok() {
            self.lexer.advance();
        }
        r
    }

    /// Reads a single text lexeme without its quotes; a text lexeme right
    /// after it is refused.
    pub fn deserialize_str(&mut self) -> (r: Result<String, Error>)
        requires
            old(self).wf(),
        ensures
            final(self).wf(),
            old(self).lexer.token != Token::Text ==> r is Err && unexpected_at(r->Err_0, old(self).lexer, Expected::Text)
                && *final(self) == *old(self),
            old(self).lexer.token == Token::Text ==> final(self).advanced(old(self)),
            old(self).lexer.token == Token::Text && final(self).lexer.token != Token::Text ==> (r matches Ok(v)
                && v@ == strip(old(self).lexer.text())),
            old(self).lexer.token == Token::Text && final(self).lexer.token == Token::Text ==> (r matches Err(
                Error::MultiLineStringOnBorrowedStr { value, start, end },
            ) && value@ == final(self).lexer.text() && start == final(self).lexer.start && end
                == final(self).lexer.end),
    {
        if self.lexer.token != Token::Text {
            return Err(self.unexpected(Expected::Text));
        }
        proof {
            self.lexer.lemma_bounds();
        }
        let ghost t = self.lexer.text();
        assert(strip(t) =~= self.lexer.source@.subrange(self.lexer.start + 1, self.lexer.end - 1));
        let v = chars_to_string(&self.lexer.source, self.lexer.start + 1, self.lexer.end - 1);
        self.lexer.advance();
        if self.lexer.token == Token::Text {
            return Err(
                Error::MultiLineStringOnBorrowedStr {
                    value: self.lexer.slice(),
                    start: self.lexer.start,
                    end: self.lexer.end,
                },
            );
        }
        Ok(v)
    }

    /// Reads a run of consecutive text lexemes, joined without their quotes.
    pub fn deserialize_string(&mut self) -> (r: Result<String, Error>)
        requires
            old(self).wf(),
        ensures
            final(self).wf(),
            old(self).lexer.token != Token::Text ==> r is Err && unexpected_at(r->Err_0, old(self).lexer, Expected::Text)
                && *final(self) == *old(self),
            old(self).lexer.token == Token::Text ==> (r matches Ok(v) && v@ == text_run(
                old(self).lexer.source@,
                old(self).lexer.pos as int,
            ).0) && final(self).lexer.is_at(
                &old(self).lexer,
                text_run(old(self).lexer.source@, old(self).lexer.pos as int).1,
            ) && final(self).lexer.pos > old(self).lexer.pos,
    {
        if self.lexer.token != Token::Text {
            return Err(self.unexpected(Expected::Text));
        }
        let ghost s = self.lexer.source@;
        let ghost p0 = self.lexer.pos as int;
        let mut out = String::new();
        while self.lexer.token == Token::Text
            invariant
                self.wf(),
                self.lexer.source@ == s,
                self.lexer.pos >= p0,
                self.lexer.pos == p0 ==> self.lexer.token == Token::Text,
                text_run(s, p0) == (out@ + text_run(s, self.lexer.pos as int).0, text_run(
                    s,
                    self.lexer.pos as int,
                ).1),
            decreases s.len() - self.lexer.pos,
        {
            proof {
                self.lexer.lemma_bounds();
            }
            let ghost p = self.lexer.pos as int;
            let ghost piece = strip(s.subrange(self.lexer.start as int, self.lexer.end as int));
            assert(piece =~= s.subrange(self.lexer.start + 1, self.lexer.end - 1));
            push_chars(&mut out, &self.lexer.source, self.lexer.start + 1, self.lexer.end - 1);
            self.lexer.advance();
            assert(text_run(s, p).0 == piece + text_run(s, self.lexer.pos as int).0);
            assert(text_run(s, p0).0 =~= out@ + text_run(s, self.lexer.pos as int).0);
        }
        assert(text_run(s, self.lexer.pos as int).0 =~= Seq::<char>::empty());
        assert(out@ =~= text_run(s, p0).0);
        Ok(out)
    }

    /// Begins a sequence: a run of blocks at an identifier, or a bracketed
    /// list at `[`, which is passed over.
    pub fn deserialize_seq(&mut self) -> (r: Result<Sequence, Error>)
        requires
            old(self).wf(),
        ensures
            final(self).wf(),
            old(self).lexer.token == Token::Identifier ==> (r matches Ok(Sequence::Structs(a))
                && a.block_type is None) && *final(self) == *old(self),
            old(self).lexer.token == Token::BracketOpen ==> (r matches Ok(Sequence::Primitives(_)))
                && final(self).advanced(old(self)),
            old(self).lexer.token != Token::Identifier && old(self).lexer.token != Token::BracketOpen
                ==> r is Err && unexpected_at(r->Err_0, old(self).lexer, Expected::BracketOrIdentifier) && *final(self) == *old(self),
    {
        if self.lexer.token == Token::Identifier {
            Ok(Sequence::Structs(StructSeqAccess::new()))
        } else if self.lexer.token == Token::BracketOpen {
            self.lexer.advance();
            Ok(Sequence::Primitives(PrimitiveSeqAccess::new()))
        } else {
            Err(self.unexpected(Expected::BracketOrIdentifier))
        }
    }

    /// Ends a bracketed list at its `]`, which is passed over.
    pub fn end_primitive_seq(&mut self) -> (r: Result<(), Error>)
        requires
            old(self).wf(),
        ensures
            final(self).wf(),
            old(self).lexer.token == Token::BracketClose ==> r is Ok && final(self).advanced(old(self)),
            old(self).lexer.token != Token::BracketClose ==> r is Err && unexpected_at(r->Err_0, old(self).lexer, Expected::BracketClose)
                && *final(self) == *old(self),
    {
        if self.lexer.token == Token::BracketClose {
            self.lexer.advance();
            Ok(())
        } else {
            Err(self.unexpected(Expected::BracketClose))
        }
    }

    /// Begins a block of type `block_type` whose record declares `fields`: its
    /// type name, optional quoted instance name and opening brace are read.
    pub fn deserialize_struct(&mut self, block_type: &str, fields: &[&str]) -> (r: Result<
        StructInternalAccess,
        Error,
    >)
        requires
            old(self).wf(),
        ensures
            final(self).wf(),
            final(self).lexer.source@ == old(self).lexer.source@,
            !has_name_field(fields@) ==> (r matches Err(Error::MissingInstanceName)) && *final(self)
                == *old(self),
            has_name_field(fields@) && old(self).lexer.token != Token::Identifier ==> r is Err
                && unexpected_at(r->Err_0, old(self).lexer, Expected::TypeName) && *final(self) == *old(self),
            has_name_field(fields@) && old(self).lexer.token == Token::Identifier
                && old(self).lexer.text() != block_type@ ==> (r matches Err(
                Error::UnexpectedStruct { name, expected },
            ) && name@ == old(self).lexer.text() && expected@ == block_type@) && *final(self)
                == *old(self),
            has_name_field(fields@) && old(self).lexer.token == Token::Identifier
                && old(self).lexer.text() == block_type@ ==> {
                let h = header(old(self).lexer.source@, old(self).lexer.end as int);
                &&& final(self).lexer.is_at(&old(self).lexer, h.2)
                &&& h.0 ==> (r matches Ok(a) && a.park is None && (a.instance_name matches Some(n)
                    && n@ == h.1)) && final(self).lexer.pos > old(self).lexer.pos
                &&& !h.0 ==> r is Err && unexpected_at(r->Err_0, final(self).lexer, header_expectation(old(self).lexer.source@, old(self).lexer.end as int))
            },
    {
        if !contains_name_field(fields) {
            return Err(Error::MissingInstanceName);
        }
        if self.lexer.token != Token::Identifier {
            return Err(self.unexpected(Expected::TypeName));
        }
        let expected = chars_of(block_type);
        if !text_is(&self.lexer, &expected) {
            return Err(
                Error::UnexpectedStruct {
                    name: self.lexer.slice(),
                    expected: chars_to_string(&expected, 0, expected.len()),
                },
            );
        }
        proof {
            assert(expected@.subrange(0, expected@.len() as int) =~= block_type@);
            self.lexer.lemma_bounds();
        }
        self.lexer.advance();
        let mut name: Vec<char> = Vec::new();
        if self.lexer.token == Token::Text {
            proof {
                self.lexer.lemma_bounds();
            }
            let mut i: usize = self.lexer.start + 1;
            while i < self.lexer.end - 1
                invariant
                    self.wf(),
                    self.lexer.start + 1 <= i <= self.lexer.end - 1,
                    self.lexer.end <= self.lexer.source.len(),
                    name@ == self.lexer.source@.subrange(self.lexer.start + 1, i as int),
                decreases self.lexer.end - 1 - i,
            {
                name.push(self.lexer.source[i]);
                assert(self.lexer.source@.subrange(self.lexer.start + 1, i + 1) =~= name@);
                i = i + 1;
            }
            assert(name@ =~= strip(self.lexer.text()));
            self.lexer.advance();
            proof {
                self.lexer.lemma_bounds();
            }
            if self.lexer.token != Token::BraceOpen {
                return Err(self.unexpected(Expected::BraceOpen));
            }
        } else if self.lexer.token != Token::BraceOpen {
            return Err(self.unexpected(Expected::NameOrBraceOpen));
        }
        assert(name@ =~= header(old(self).lexer.source@, old(self).lexer.end as int).1);
        proof {
            self.lexer.lemma_bounds();
        }
        self.lexer.advance();
        Ok(StructInternalAccess { instance_name: Some(name), park: None })
    }
}

} // verus!
