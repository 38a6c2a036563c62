use vstd::prelude::*;
use vstd::std_specs::iter::IteratorSpec;

verus! {

/// The classes of lexemes of the configuration format.
#[derive(Debug, PartialEq, Eq, Structural, Clone, Copy)]
pub enum Token {
    EndOfInput,
    Text,
    Char,
    Float,
    Hex,
    Integer,
    Identifier,
    Color,
    BraceOpen,
    BraceClose,
    Assign,
    Comma,
    BracketOpen,
    BracketClose,
    Unexpected,
    UnclosedComment,
}

/// Character classes used by the lexeme patterns.
#[derive(PartialEq, Eq, Structural, Clone, Copy)]
pub enum CharClass {
    Digit,
    HexDigit,
    OctDigit,
    IdentTail,
    NotQuote,
    NotNewline,
}

/// Character classes of the lexeme patterns.
pub open spec fn is_digit(c: char) -> bool {
    '0' <= c && c <= '9'
}

pub open spec fn is_hex_digit(c: char) -> bool {
    is_digit(c) || ('a' <= c && c <= 'f') || ('A' <= c && c <= 'F')
}

pub open spec fn is_oct_digit(c: char) -> bool {
    '0' <= c && c <= '7'
}

pub open spec fn is_letter(c: char) -> bool {
    ('a' <= c && c <= 'z') || ('A' <= c && c <= 'Z')
}

pub open spec fn is_space(c: char) -> bool {
    c == ' ' || c == '\t' || c == '\n' || c == '\r' || c == '\x0C'
}

pub open spec fn in_class(c: char, cl: CharClass) -> bool {
    match cl {
        CharClass::Digit => is_digit(c),
        CharClass::HexDigit => is_hex_digit(c),
        CharClass::OctDigit => is_oct_digit(c),
        CharClass::IdentTail => is_letter(c) || is_digit(c) || c == '_',
        CharClass::NotQuote => c != '"',
        CharClass::NotNewline => c != '\n',
    }
}

/// The character at offset `k` of `r`, or NUL past either end.
pub open spec fn ch(r: Seq<char>, k: int) -> char {
    if 0 <= k < r.len() {
        r[k]
    } else {
        '\0'
    }
}

/// Number of consecutive characters of class `cl` in `r` from offset `k` on.
pub open spec fn run(r: Seq<char>, k: int, cl: CharClass) -> nat
    decreases r.len() - k,
{
    if 0 <= k < r.len() && in_class(r[k], cl) {
        1 + run(r, k + 1, cl)
    } else {
        0
    }
}

/// Length of a quoted text `"..."` at the start of `r`, 0 if none.
pub open spec fn text_len(r: Seq<char>) -> nat {
    if ch(r, 0) == '"' && 1 + run(r, 1, CharClass::NotQuote) < r.len() {
        2 + run(r, 1, CharClass::NotQuote)
    } else {
        0
    }
}

pub open spec fn is_named_escape(c: char) -> bool {
    c == 'n' || c == 't' || c == 'r' || c == '\\' || c == '"' || c == '\''
}

/// Length of a character literal at the start of `r`, 0 if none: a hex escape,
/// an octal escape, a named escape, or one character other than a newline,
/// between single quotes.
pub open spec fn char_len(r: Seq<char>) -> nat {
    let h = run(r, 3, CharClass::HexDigit);
    let o = run(r, 2, CharClass::OctDigit);
    if ch(r, 0) != '\'' {
        0
    } else if ch(r, 1) == '\\' && ch(r, 2) == 'x' && h >= 1 && ch(r, 3 + h as int) == '\'' {
        4 + h
    } else if ch(r, 1) == '\\' && o >= 1 && ch(r, 2 + o as int) == '\'' {
        3 + o
    } else if ch(r, 1) == '\\' && is_named_escape(ch(r, 2)) && ch(r, 3) == '\'' {
        4
    } else if 1 < r.len() && ch(r, 1) != '\n' && ch(r, 2) == '\'' {
        3
    } else {
        0
    }
}

pub open spec fn is_sign(c: char) -> bool {
    c == '-' || c == '+'
}

/// Length of the mantissa of a float at the start of `r` (sign, digits, a
/// point, digits, with a digit on at least one side of the point), 0 if none.
pub open spec fn mantissa_len(r: Seq<char>) -> nat {
    let s: int = if is_sign(ch(r, 0)) { 1 } else { 0 };
    let d1 = run(r, s, CharClass::Digit);
    let d2 = run(r, s + d1 + 1, CharClass::Digit);
    if ch(r, s + d1) == '.' && d1 + d2 >= 1 {
        (s + d1 + 1 + d2) as nat
    } else {
        0
    }
}

/// Length of a float at the start of `r`, with its optional exponent, 0 if none.
pub open spec fn float_len(r: Seq<char>) -> nat {
    let m = mantissa_len(r) as int;
    let es: int = if is_sign(ch(r, m + 1)) { 1 } else { 0 };
    let ed = run(r, m + 1 + es, CharClass::Digit);
    if m == 0 {
        0
    } else if (ch(r, m) == 'e' || ch(r, m) == 'E') && ed >= 1 {
        (m + 1 + es + ed) as nat
    } else {
        m as nat
    }
}

/// Length of a hexadecimal integer `-?0x...` at the start of `r`, 0 if none.
pub open spec fn hex_len(r: Seq<char>) -> nat {
    let n: int = if ch(r, 0) == '-' { 1 } else { 0 };
    let h = run(r, n + 2, CharClass::HexDigit);
    if ch(r, n) == '0' && (ch(r, n + 1) == 'x' || ch(r, n + 1) == 'X') && h >= 1 {
        (n + 2 + h) as nat
    } else {
        0
    }
}

/// Length of a decimal integer `-?[0-9]+` at the start of `r`, 0 if none.
pub open spec fn int_len(r: Seq<char>) -> nat {
    let n: int = if ch(r, 0) == '-' { 1 } else { 0 };
    let d = run(r, n, CharClass::Digit);
    if d >= 1 {
        (n + d) as nat
    } else {
        0
    }
}

/// Length of an identifier at the start of `r`, 0 if none.
pub open spec fn ident_len(r: Seq<char>) -> nat {
    if is_letter(ch(r, 0)) {
        1 + run(r, 1, CharClass::IdentTail)
    } else {
        0
    }
}

/// Length of a color `#RRGGBB` at the start of `r`, 0 if none.
pub open spec fn color_len(r: Seq<char>) -> nat {
    if ch(r, 0) == '#' && run(r, 1, CharClass::HexDigit) >= 6 {
        7
    } else {
        0
    }
}

/// The one-character lexeme that `c` is, if any.
pub open spec fn single_token(c: char) -> Option<Token> {
    if c == '{' {
        Some(Token::BraceOpen)
    } else if c == '}' {
        Some(Token::BraceClose)
    } else if c == '=' {
        Some(Token::Assign)
    } else if c == ',' {
        Some(Token::Comma)
    } else if c == '[' {
        Some(Token::BracketOpen)
    } else if c == ']' {
        Some(Token::BracketClose)
    } else {
        None
    }
}

/// The class and length of the lexeme at the start of a non-empty `r` that
/// starts with neither blank nor comment: the longest match, and a single
/// unexpected character where nothing matches.
pub open spec fn classify(r: Seq<char>) -> (Token, nat) {
    let f = float_len(r);
    let h = hex_len(r);
    let i = int_len(r);
    if text_len(r) > 0 {
        (Token::Text, text_len(r))
    } else if char_len(r) > 0 {
        (Token::Char, char_len(r))
    } else if ident_len(r) > 0 {
        (Token::Identifier, ident_len(r))
    } else if color_len(r) > 0 {
        (Token::Color, color_len(r))
    } else if single_token(ch(r, 0)) is Some {
        (single_token(ch(r, 0))->0, 1)
    } else if f > 0 && f >= h && f >= i {
        (Token::Float, f)
    } else if h > 0 && h >= i {
        (Token::Hex, h)
    } else if i > 0 {
        (Token::Integer, i)
    } else {
        (Token::Unexpected, 1)
    }
}

/// Where a block comment whose opening is already read ends in `r`, scanning
/// from offset `k` with `depth` comments open: the offset just past the
/// closing `*/` that brings the depth to zero, or -1 if `r` ends first.
pub open spec fn block_end(r: Seq<char>, k: int, depth: nat) -> int
    decreases r.len() - k,
{
    if k < 0 || k >= r.len() || depth == 0 {
        -1
    } else if r[k] == '*' && ch(r, k + 1) == '/' {
        if depth == 1 {
            k + 2
        } else {
            block_end(r, k + 2, (depth - 1) as nat)
        }
    } else if r[k] == '/' && ch(r, k + 1) == '*' {
        block_end(r, k + 2, depth + 1)
    } else {
        block_end(r, k + 1, depth)
    }
}

pub open spec fn is_line_comment_start(r: Seq<char>) -> bool {
    ch(r, 0) == '/' && ch(r, 1) == '/'
}

pub open spec fn is_block_comment_start(r: Seq<char>) -> bool {
    ch(r, 0) == '/' && ch(r, 1) == '*'
}

/// Offset just past the line comment at the start of `r` (its newline is left).
pub open spec fn line_comment_end(r: Seq<char>) -> int {
    2 + run(r, 2, CharClass::NotNewline) as int
}

/// A lexeme: its class and the offsets of its first and one-past-last character.
pub open spec fn shift(t: (Token, int, int), d: int) -> (Token, int, int) {
    (t.0, t.1 + d, t.2 + d)
}

/// The next lexeme of `r`, with offsets relative to `r`: blanks and comments
/// before it are skipped, and the end of input is an empty `EndOfInput`.
pub open spec fn lex(r: Seq<char>) -> (Token, int, int)
    decreases r.len(),
{
    if r.len() == 0 {
        (Token::EndOfInput, 0, 0)
    } else if is_space(r[0]) {
        shift(lex(r.subrange(1, r.len() as int)), 1)
    } else if is_line_comment_start(r) {
        let e = line_comment_end(r);
        if 0 < e <= r.len() {
            shift(lex(r.subrange(e, r.len() as int)), e)
        } else {
            (Token::Unexpected, 0, 1)
        }
    } else if is_block_comment_start(r) {
        let e = block_end(r, 2, 1);
        if e < 0 {
            (Token::UnclosedComment, 0, r.len() as int)
        } else if 0 < e <= r.len() {
            shift(lex(r.subrange(e, r.len() as int)), e)
        } else {
            (Token::Unexpected, 0, 1)
        }
    } else {
        let (t, n) = classify(r);
        (t, 0, n as int)
    }
}

/// The text of `s` from position `p` on.
pub open spec fn rest(s: Seq<char>, p: int) -> Seq<char> {
    s.subrange(p, s.len() as int)
}

/// The lexeme found in `s` by scanning from position `p`, in positions of `s`.
pub open spec fn lex_at(s: Seq<char>, p: int) -> (Token, int, int) {
    shift(lex(rest(s, p)), p)
}

/// A run stays within the text.
pub proof fn lemma_run_bound(r: Seq<char>, k: int, cl: CharClass)
    ensures
        0 <= k <= r.len() ==> k + run(r, k, cl) <= r.len(),
        !(0 <= k < r.len()) ==> run(r, k, cl) == 0,
    decreases r.len() - k,
{
    if 0 <= k < r.len() && in_class(r[k], cl) {
        lemma_run_bound(r, k + 1, cl);
    }
}

/// A block comment ends past its scanning point and within the text.
pub proof fn lemma_block_end_bound(r: Seq<char>, k: int, depth: nat)
    ensures
        block_end(r, k, depth) == -1 || (k + 2 <= block_end(r, k, depth) <= r.len()),
    decreases r.len() - k,
{
    if k < 0 || k >= r.len() || depth == 0 {
    } else if r[k] == '*' && ch(r, k + 1) == '/' {
        if depth != 1 {
            lemma_block_end_bound(r, k + 2, (depth - 1) as nat);
        }
    } else if r[k] == '/' && ch(r, k + 1) == '*' {
        lemma_block_end_bound(r, k + 2, depth + 1);
    } else {
        lemma_block_end_bound(r, k + 1, depth);
    }
}

proof fn lemma_classify_bound(r: Seq<char>)
    requires
        r.len() > 0,
    ensures
        1 <= classify(r).1 <= r.len(),
        classify(r).0 == Token::Text ==> classify(r).1 >= 2,
        classify(r).0 == Token::Char ==> classify(r).1 >= 3,
        classify(r).0 == Token::Hex ==> classify(r).1 >= 3,
{
    let s: int = if is_sign(ch(r, 0)) { 1 } else { 0 };
    let d1 = run(r, s, CharClass::Digit);
    let m = mantissa_len(r) as int;
    let es: int = if is_sign(ch(r, m + 1)) { 1 } else { 0 };
    let n: int = if ch(r, 0) == '-' { 1 } else { 0 };
    lemma_run_bound(r, 1, CharClass::NotQuote);
    lemma_run_bound(r, 3, CharClass::HexDigit);
    lemma_run_bound(r, 2, CharClass::OctDigit);
    lemma_run_bound(r, s, CharClass::Digit);
    lemma_run_bound(r, s + d1 + 1, CharClass::Digit);
    lemma_run_bound(r, m + 1 + es, CharClass::Digit);
    lemma_run_bound(r, n + 2, CharClass::HexDigit);
    lemma_run_bound(r, n, CharClass::Digit);
    lemma_run_bound(r, 1, CharClass::IdentTail);
    lemma_run_bound(r, 1, CharClass::HexDigit);
}

/// The lexeme that `lex` finds lies within the text, is empty only at the end
/// of input, and ends there when it is `EndOfInput` or `UnclosedComment`.
pub proof fn lemma_lex_bounds(r: Seq<char>)
    ensures
        0 <= lex(r).1 <= lex(r).2 <= r.len(),
        lex(r).0 != Token::EndOfInput ==> lex(r).1 < lex(r).2,
        lex(r).0 == Token::EndOfInput ==> lex(r).1 == r.len() && lex(r).2 == r.len(),
        lex(r).0 == Token::UnclosedComment ==> lex(r).2 == r.len(),
        lex(r).0 == Token::Text ==> lex(r).2 - lex(r).1 >= 2,
        lex(r).0 == Token::Char || lex(r).0 == Token::Hex ==> lex(r).2 - lex(r).1 >= 3,
    decreases r.len(),
{
    if r.len() == 0 {
    } else if is_space(r[0]) {
        lemma_lex_bounds(r.subrange(1, r.len() as int));
    } else if is_line_comment_start(r) {
        lemma_run_bound(r, 2, CharClass::NotNewline);
        let e = line_comment_end(r);
        lemma_lex_bounds(r.subrange(e, r.len() as int));
    } else if is_block_comment_start(r) {
        lemma_block_end_bound(r, 2, 1);
        let e = block_end(r, 2, 1);
        if e >= 0 {
            lemma_lex_bounds(r.subrange(e, r.len() as int));
        }
    } else {
        lemma_classify_bound(r);
    }
}

/// A line comment: `//`, characters other than a newline, and a newline.
pub open spec fn is_line_comment(c: Seq<char>) -> bool {
    &&& c.len() >= 3
    &&& c[0] == '/' && c[1] == '/'
    &&& c[c.len() - 1] == '\n'
    &&& forall|i: int| 2 <= i < c.len() - 1 ==> c[i] != '\n'
}

/// A block comment, with the comments nested in it: `/*` up to the `*/` that
/// closes it, at its end.
pub open spec fn is_block_comment(c: Seq<char>) -> bool {
    &&& c.len() >= 4
    &&& c[0] == '/' && c[1] == '*'
    &&& block_end(c, 2, 1) == c.len()
}

proof fn lemma_line_run(c: Seq<char>, r: Seq<char>, k: int)
    requires
        is_line_comment(c),
        2 <= k <= c.len() - 1,
    ensures
        run(c + r, k, CharClass::NotNewline) == c.len() - 1 - k,
    decreases c.len() - k,
{
    if k < c.len() - 1 {
        lemma_line_run(c, r, k + 1);
    }
}

pub(crate) proof fn lemma_block_end_prefix(c: Seq<char>, r: Seq<char>, k: int, depth: nat)
    requires
        block_end(c, k, depth) != -1,
    ensures
        block_end(c + r, k, depth) == block_end(c, k, depth),
    decreases c.len() - k,
{
    let cr = c + r;
    if k < 0 || k >= c.len() || depth == 0 {
    } else if k + 1 == c.len() {
        assert(ch(c, k + 1) == '\0');
        assert(block_end(c, k + 1, depth) == -1);
    } else {
        assert(cr[k] == c[k]);
        assert(ch(cr, k + 1) == ch(c, k + 1));
        if c[k] == '*' && ch(c, k + 1) == '/' {
            if depth != 1 {
                lemma_block_end_prefix(c, r, k + 2, (depth - 1) as nat);
            }
        } else if c[k] == '/' && ch(c, k + 1) == '*' {
            lemma_block_end_prefix(c, r, k + 2, depth + 1);
        } else {
            lemma_block_end_prefix(c, r, k + 1, depth);
        }
    }
}

/// A comment is passed over: the lexeme after a comment is the lexeme of
/// the text that follows it, moved by the comment's length.
pub proof fn lemma_comment_transparent(c: Seq<char>, r: Seq<char>)
    requires
        is_line_comment(c) || is_block_comment(c),
    ensures
        lex(c + r) == shift(lex(r), c.len() as int),
{
    let cr = c + r;
    assert(cr[0] == '/' && ch(cr, 1) == c[1]);
    if is_line_comment(c) {
        lemma_line_run(c, r, 2);
        let e = line_comment_end(cr);
        assert(e == c.len() - 1);
        let after = cr.subrange(e, cr.len() as int);
        assert(after[0] == '\n');
        assert(after.subrange(1, after.len() as int) =~= r);
        assert(lex(after) == shift(lex(r), 1));
        assert(lex(cr) == shift(lex(after), e));
    } else {
        lemma_block_end_prefix(c, r, 2, 1);
        assert(block_end(cr, 2, 1) == c.len());
        assert(!is_line_comment_start(cr));
        assert(is_block_comment_start(cr));
        assert(cr.subrange(c.len() as int, cr.len() as int) =~= r);
        assert(lex(cr) == shift(lex(r), c.len() as int));
    }
}

/// Inserting a comment at a position of a text leaves the lexeme scanned
/// from that position as it was, moved by the comment's length.
pub proof fn lemma_comment_insertion(s: Seq<char>, p: int, c: Seq<char>)
    requires
        0 <= p <= s.len(),
        is_line_comment(c) || is_block_comment(c),
    ensures
        lex_at(s.subrange(0, p) + c + s.subrange(p, s.len() as int), p) == shift(
            lex_at(s, p),
            c.len() as int,
        ),
{
    let t = s.subrange(0, p) + c + s.subrange(p, s.len() as int);
    assert(rest(t, p) =~= c + rest(s, p));
    lemma_comment_transparent(c, rest(s, p));
}

fn class_has(c: char, cl: CharClass) -> (b: bool)
    ensures
        b == in_class(c, cl),
{
    match cl {
        CharClass::Digit => '0' <= c && c <= '9',
        CharClass::HexDigit => ('0' <= c && c <= '9') || ('a' <= c && c <= 'f') || ('A' <= c
            && c <= 'F'),
        CharClass::OctDigit => '0' <= c && c <= '7',
        CharClass::IdentTail => ('a' <= c && c <= 'z') || ('A' <= c && c <= 'Z') || ('0' <= c
            && c <= '9') || c == '_',
        CharClass::NotQuote => c != '"',
        CharClass::NotNewline => c != '\n',
    }
}

/// The character at offset `k` from position `p`, or NUL past the end.
fn ch_at(src: &Vec<char>, p: usize, k: usize) -> (c: char)
    requires
        p <= src.len(),
    ensures
        c == ch(rest(src@, p as int), k as int),
{
    if k < src.len() - p {
        src[p + k]
    } else {
        '\0'
    }
}

fn run_at(src: &Vec<char>, p: usize, k: usize, cl: CharClass) -> (n: usize)
    requires
        p <= src.len(),
        k <= src.len() + 8,
    ensures
        n == run(rest(src@, p as int), k as int, cl),
        n <= src.len() - p,
{
    let ghost r = rest(src@, p as int);
    proof {
        lemma_run_bound(r, k as int, cl);
    }
    if k >= src.len() - p {
        return 0;
    }
    let mut j: usize = k;
    while j < src.len() - p && class_has(src[p + j], cl)
        invariant
            p <= src.len(),
            k <= j <= src.len() - p,
            r == rest(src@, p as int),
            run(r, k as int, cl) == (j - k) + run(r, j as int, cl),
        decreases src.len() - p - j,
    {
        j = j + 1;
    }
    j - k
}

fn is_sign_char(c: char) -> (b: bool)
    ensures
        b == is_sign(c),
{
    c == '-' || c == '+'
}

fn char_len_at(src: &Vec<char>, p: usize) -> (n: usize)
    requires
        p <= src.len(),
        src.len() <= isize::MAX,
    ensures
        n == char_len(rest(src@, p as int)),
{
    let ghost r = rest(src@, p as int);
    if ch_at(src, p, 0) != '\'' {
        return 0;
    }
    let c1 = ch_at(src, p, 1);
    let c2 = ch_at(src, p, 2);
    if c1 == '\\' {
        let h = run_at(src, p, 3, CharClass::HexDigit);
        proof {
            lemma_run_bound(r, 3, CharClass::HexDigit);
        }
        if c2 == 'x' && h >= 1 && ch_at(src, p, 3 + h) == '\'' {
            return 4 + h;
        }
        let o = run_at(src, p, 2, CharClass::OctDigit);
        proof {
            lemma_run_bound(r, 2, CharClass::OctDigit);
        }
        if o >= 1 && ch_at(src, p, 2 + o) == '\'' {
            return 3 + o;
        }
        if (c2 == 'n' || c2 == 't' || c2 == 'r' || c2 == '\\' || c2 == '"' || c2 == '\'')
            && ch_at(src, p, 3) == '\'' {
            return 4;
        }
    }
    if 1 < src.len() - p && c1 != '\n' && c2 == '\'' {
        3
    } else {
        0
    }
}

fn float_len_at(src: &Vec<char>, p: usize) -> (n: usize)
    requires
        p <= src.len(),
        src.len() <= isize::MAX,
    ensures
        n == float_len(rest(src@, p as int)),
{
    let ghost r = rest(src@, p as int);
    let s: usize = if is_sign_char(ch_at(src, p, 0)) {
        1
    } else {
        0
    };
    let d1 = run_at(src, p, s, CharClass::Digit);
    proof {
        lemma_run_bound(r, s as int, CharClass::Digit);
    }
    if ch_at(src, p, s + d1) != '.' {
        return 0;
    }
    let d2 = run_at(src, p, s + d1 + 1, CharClass::Digit);
    proof {
        lemma_run_bound(r, s + d1 + 1, CharClass::Digit);
    }
    if d1 + d2 < 1 {
        return 0;
    }
    let m = s + d1 + 1 + d2;
    assert(m == mantissa_len(r));
    let es: usize = if is_sign_char(ch_at(src, p, m + 1)) {
        1
    } else {
        0
    };
    let ed = run_at(src, p, m + 1 + es, CharClass::Digit);
    proof {
        lemma_run_bound(r, m + 1 + es, CharClass::Digit);
    }
    let e = ch_at(src, p, m);
    if (e == 'e' || e == 'E') && ed >= 1 {
        m + 1 + es + ed
    } else {
        m
    }
}

fn hex_len_at(src: &Vec<char>, p: usize) -> (n: usize)
    requires
        p <= src.len(),
        src.len() <= isize::MAX,
    ensures
        n == hex_len(rest(src@, p as int)),
{
    let ghost r = rest(src@, p as int);
    let s: usize = if ch_at(src, p, 0) == '-' {
        1
    } else {
        0
    };
    let h = run_at(src, p, s + 2, CharClass::HexDigit);
    proof {
        lemma_run_bound(r, s + 2, CharClass::HexDigit);
    }
    let x = ch_at(src, p, s + 1);
    if ch_at(src, p, s) == '0' && (x == 'x' || x == 'X') && h >= 1 {
        s + 2 + h
    } else {
        0
    }
}

fn int_len_at(src: &Vec<char>, p: usize) -> (n: usize)
    requires
        p <= src.len(),
        src.len() <= isize::MAX,
    ensures
        n == int_len(rest(src@, p as int)),
{
    let ghost r = rest(src@, p as int);
    let s: usize = if ch_at(src, p, 0) == '-' {
        1
    } else {
        0
    };
    let d = run_at(src, p, s, CharClass::Digit);
    proof {
        lemma_run_bound(r, s as int, CharClass::Digit);
    }
    if d >= 1 {
        s + d
    } else {
        0
    }
}

fn single_token_of(c: char) -> (t: Option<Token>)
    ensures
        t == single_token(c),
{
    if c == '{' {
        Some(Token::BraceOpen)
    } else if c == '}' {
        Some(Token::BraceClose)
    } else if c == '=' {
        Some(Token::Assign)
    } else if c == ',' {
        Some(Token::Comma)
    } else if c == '[' {
        Some(Token::BracketOpen)
    } else if c == ']' {
        Some(Token::BracketClose)
    } else {
        None
    }
}

fn classify_at(src: &Vec<char>, p: usize) -> (res: (Token, usize))
    requires
        p < src.len(),
        src.len() <= isize::MAX,
    ensures
        (res.0, res.1 as nat) == classify(rest(src@, p as int)),
{
    let ghost r = rest(src@, p as int);
    let c0 = src[p];
    if c0 == '"' {
        let q = run_at(src, p, 1, CharClass::NotQuote);
        proof {
            lemma_run_bound(r, 1, CharClass::NotQuote);
        }
        if 1 + q < src.len() - p {
            return (Token::Text, 2 + q);
        }
    }
    let c = char_len_at(src, p);
    if c > 0 {
        return (Token::Char, c);
    }
    if ('a' <= c0 && c0 <= 'z') || ('A' <= c0 && c0 <= 'Z') {
        let t = run_at(src, p, 1, CharClass::IdentTail);
        proof {
            lemma_run_bound(r, 1, CharClass::IdentTail);
        }
        return (Token::Identifier, 1 + t);
    }
    if c0 == '#' && run_at(src, p, 1, CharClass::HexDigit) >= 6 {
        return (Token::Color, 7);
    }
    if let Some(t) = single_token_of(c0) {
        return (t, 1);
    }
    let f = float_len_at(src, p);
    let h = hex_len_at(src, p);
    let i = int_len_at(src, p);
    if f > 0 && f >= h && f >= i {
        (Token::Float, f)
    } else if h > 0 && h >= i {
        (Token::Hex, h)
    } else if i > 0 {
        (Token::Integer, i)
    } else {
        (Token::Unexpected, 1)
    }
}

/// Offset from `p` just past the block comment that opens at `p`, if it closes.
fn block_end_at(src: &Vec<char>, p: usize) -> (e: Option<usize>)
    requires
        p <= src.len(),
        src.len() <= isize::MAX,
    ensures
        e is None <==> block_end(rest(src@, p as int), 2, 1) == -1,
        e matches Some(n) ==> n == block_end(rest(src@, p as int), 2, 1),
{
    let ghost r = rest(src@, p as int);
    let len = src.len() - p;
    let mut k: usize = 2;
    let mut depth: usize = 1;
    while k < len
        invariant
            p <= src.len(),
            len == src.len() - p,
            r == rest(src@, p as int),
            2 <= k,
            1 <= depth <= k,
            k <= len + 2,
            block_end(r, 2, 1) == block_end(r, k as int, depth as nat),
        decreases len - k,
    {
        let c = src[p + k];
        let d = ch_at(src, p, k + 1);
        if c == '*' && d == '/' {
            if depth == 1 {
                return Some(k + 2);
            }
            depth = depth - 1;
            k = k + 2;
        } else if c == '/' && d == '*' {
            depth = depth + 1;
            k = k + 2;
        } else {
            k = k + 1;
        }
    }
    None
}

/// Scans `src` from position `p` for its next lexeme, skipping blanks and
/// comments; returns its class and its first and one-past-last positions.
pub fn next_token(src: &Vec<char>, p: usize) -> (res: (Token, usize, usize))
    requires
        p <= src.len(),
        src.len() <= isize::MAX,
    ensures
        (res.0, res.1 as int, res.2 as int) == lex_at(src@, p as int),
{
    let ghost s = src@;
    let len = src.len();
    let mut i: usize = p;
    loop
        invariant
            p <= i <= len,
            len == src.len(),
            s == src@,
            len <= isize::MAX,
            lex_at(s, p as int) == lex_at(s, i as int),
        decreases len - i,
    {
        let ghost r = rest(s, i as int);
        if i == len {
            return (Token::EndOfInput, i, i);
        }
        let c = src[i];
        if c == ' ' || c == '\t' || c == '\n' || c == '\r' || c == '\x0C' {
            assert(r.subrange(1, r.len() as int) =~= rest(s, i + 1));
            i = i + 1;
        } else if c == '/' && ch_at(src, i, 1) == '/' {
            let e = 2 + run_at(src, i, 2, CharClass::NotNewline);
            proof {
                lemma_run_bound(r, 2, CharClass::NotNewline);
                assert(r.subrange(e as int, r.len() as int) =~= rest(s, i + e));
            }
            i = i + e;
        } else if c == '/' && ch_at(src, i, 1) == '*' {
            proof {
                lemma_block_end_bound(r, 2, 1);
            }
            match block_end_at(src, i) {
                None => {
                    return (Token::UnclosedComment, i, len);
                },
                Some(e) => {
                    assert(r.subrange(e as int, r.len() as int) =~= rest(s, i + e));
                    i = i + e;
                },
            }
        } else {
            let (t, n) = classify_at(src, i);
            proof {
                lemma_classify_bound(r);
            }
            return (t, i, i + n);
        }
    }
}

/// Relies on `String::push`: the character is appended at the end.
#[verifier::external_body]
pub(crate) fn push_char(s: &mut String, c: char)
    ensures
        final(s)@ == old(s)@.push(c),
{
    s.push(c);
}

/// The characters of `src` from `from` up to `to`, as a `String`.
pub fn chars_to_string(src: &Vec<char>, from: usize, to: usize) -> (r: String)
    requires
        from <= to <= src.len(),
    ensures
        r@ == src@.subrange(from as int, to as int),
{
    let mut r = String::new();
    push_chars(&mut r, src, from, to);
    assert(r@ =~= src@.subrange(from as int, to as int));
    r
}

/// The characters of `s`, in order.
pub fn chars_of(s: &str) -> (chars: Vec<char>)
    ensures
        chars@ == s@,
{
    let mut chars: Vec<char> = Vec::new();
    let mut it = s.chars();
    loop
        invariant
            chars@ + it.remaining() == s@,
            it.obeys_prophetic_iter_laws(),
            it.decrease() is Some,
        ensures
            chars@ == s@,
        decreases it.decrease()->0,
    {
        match it.next() {
            Some(c) => {
                chars.push(c);
            },
            None => {
                assert(chars@ =~= s@);
                break;
            },
        }
    }
    chars
}

/// Appends the characters of `src` from `from` up to `to` to `r`.
pub fn push_chars(r: &mut String, src: &Vec<char>, from: usize, to: usize)
    requires
        from <= to <= src.len(),
    ensures
        final(r)@ == old(r)@ + src@.subrange(from as int, to as int),
{
    let mut i: usize = from;
    while i < to
        invariant
            from <= i <= to <= src.len(),
            r@ == old(r)@ + src@.subrange(from as int, i as int),
        decreases to - i,
    {
        push_char(r, src[i]);
        assert(src@.subrange(from as int, i + 1) =~= src@.subrange(from as int, i as int).push(
            src@[i as int],
        ));
        assert(old(r)@ + src@.subrange(from as int, i + 1) =~= (old(r)@ + src@.subrange(
            from as int,
            i as int,
        )).push(src@[i as int]));
        i = i + 1;
    }
}

/// Whether the current lexeme of `l` is the text `name`.
pub fn text_is(l: &Lexer, name: &Vec<char>) -> (b: bool)
    requires
        l.wf(),
    ensures
        b == (l.text() == name@),
{
    proof {
        l.lemma_bounds();
    }
    if l.end - l.start != name.len() {
        return false;
    }
    let mut i: usize = 0;
    while i < name.len()
        invariant
            l.wf(),
            l.start <= l.end <= l.source.len(),
            l.end - l.start == name.len(),
            i <= name.len(),
            forall|j: int| 0 <= j < i ==> l.source@[l.start + j] == name@[j],
        decreases name.len() - i,
    {
        if l.source[l.start + i] != name[i] {
            assert(l.text()[i as int] != name@[i as int]);
            return false;
        }
        i = i + 1;
    }
    assert(l.text() =~= name@);
    true
}

/// A cursor over the lexemes of a source text. It holds the current lexeme,
/// found by scanning from `pos`, which lies from `start` up to `end`.
#[derive(Debug)]
pub struct Lexer {
    pub source: Vec<char>,
    pub pos: usize,
    pub token: Token,
    pub start: usize,
    pub end: usize,
}

impl Lexer {
    /// The current lexeme is the one scanned from `pos`.
    pub open spec fn wf(&self) -> bool {
        &&& self.source.len() <= isize::MAX
        &&& self.pos <= self.source.len()
        &&& (self.token, self.start as int, self.end as int) == lex_at(self.source@, self.pos as int)
    }

    /// The text of the current lexeme.
    pub open spec fn text(&self) -> Seq<char> {
        self.source@.subrange(self.start as int, self.end as int)
    }

    /// Whether this lexer is `old` moved to scan from position `p`.
    pub open spec fn is_at(&self, old: &Lexer, p: int) -> bool {
        &&& self.wf()
        &&& self.source@ == old.source@
        &&& self.pos == p
    }

    pub proof fn lemma_bounds(&self)
        requires
            self.wf(),
        ensures
            self.pos <= self.start <= self.end <= self.source.len(),
            self.token != Token::EndOfInput ==> self.start < self.end,
            self.token == Token::EndOfInput ==> self.start == self.end == self.source.len(),
            self.token == Token::Text ==> self.end - self.start >= 2,
            self.token == Token::Char || self.token == Token::Hex ==> self.end - self.start >= 3,
    {
        lemma_lex_bounds(rest(self.source@, self.pos as int));
    }

    /// A lexer over the characters of `source`, at its first lexeme.
    pub fn new(source: &str) -> (l: Lexer)
        requires
            source@.len() <= isize::MAX,
        ensures
            l.wf(),
            l.source@ == source@,
            l.pos == 0,
    {
        Lexer::at(chars_of(source), 0)
    }

    /// A lexer over `source`, scanning from position `p`.
    pub fn at(source: Vec<char>, p: usize) -> (l: Lexer)
        requires
            source.len() <= isize::MAX,
            p <= source.len(),
        ensures
            l.wf(),
            l.source@ == source@,
            l.pos == p,
    {
        let (token, start, end) = next_token(&source, p);
        Lexer { source, pos: p, token, start, end }
    }

    /// Moves to scan from position `p`.
    pub fn seek(&mut self, p: usize)
        requires
            old(self).wf(),
            p <= old(self).source.len(),
        ensures
            final(self).is_at(old(self), p as int),
    {
        let (token, start, end) = next_token(&self.source, p);
        self.pos = p;
        self.token = token;
        self.start = start;
        self.end = end;
    }

    /// Moves past the current lexeme; at the end of input it stays there.
    pub fn advance(&mut self)
        requires
            old(self).wf(),
        ensures
            final(self).is_at(old(self), old(self).end as int),
    {
        proof {
            self.lemma_bounds();
        }
        let e = self.end;
        self.seek(e);
    }

    /// The text of the current lexeme.
    pub fn slice(&self) -> (r: String)
        requires
            self.wf(),
        ensures
            r@ == self.text(),
    {
        proof {
            self.lemma_bounds();
        }
        chars_to_string(&self.source, self.start, self.end)
    }

    /// The positions of the first and one-past-last characters of the current lexeme.
    pub fn range(&self) -> (r: (usize, usize))
        ensures
            r == (self.start, self.end),
    {
        (self.start, self.end)
    }
}

} // verus!
