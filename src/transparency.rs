use vstd::prelude::*;
use crate::lexer::{
    CharClass, Token, block_end, ch, classify, in_class, is_block_comment, is_block_comment_start,
    is_line_comment, is_line_comment_start, is_space, lemma_block_end_bound, lemma_block_end_prefix,
    lemma_comment_insertion, lemma_lex_bounds, lemma_run_bound, lex, lex_at, line_comment_end, rest,
    run,
};

verus! {

/// A run scanned from inside `a` is the same whatever follows `a`, unless it
/// reaches the end of `a`; then, when what follows starts outside the class,
/// it stops there.
proof fn lemma_run_cut(a: Seq<char>, x: Seq<char>, y: Seq<char>, k: int, cl: CharClass)
    requires
        0 <= k <= a.len(),
    ensures
        k + run(a + x, k, cl) < a.len() ==> run(a + y, k, cl) == run(a + x, k, cl),
        k + run(a + x, k, cl) >= a.len() && y.len() > 0 && !in_class(y[0], cl) ==> run(a + y, k, cl)
            == a.len() - k,
    decreases a.len() - k,
{
    if k < a.len() {
        assert((a + x)[k] == a[k] && (a + y)[k] == a[k]);
        if in_class(a[k], cl) {
            lemma_run_cut(a, x, y, k + 1, cl);
        }
    } else {
        if y.len() > 0 {
            assert((a + y)[k] == y[0]);
        }
    }
}

/// A block comment that closes within `a` closes there whatever follows `a`.
proof fn lemma_block_end_cut(a: Seq<char>, x: Seq<char>, k: int, depth: nat)
    requires
        block_end(a + x, k, depth) != -1,
        block_end(a + x, k, depth) <= a.len(),
    ensures
        block_end(a, k, depth) == block_end(a + x, k, depth),
    decreases (a + x).len() - k,
{
    let r = a + x;
    lemma_block_end_bound(r, k, depth);
    if k < 0 || k >= r.len() || depth == 0 {
    } else if k + 1 >= a.len() {
        lemma_block_end_bound(r, k + 1, depth);
        lemma_block_end_bound(r, k + 2, depth + 1);
        if depth > 1 {
            lemma_block_end_bound(r, k + 2, (depth - 1) as nat);
        }
    } else {
        assert(r[k] == a[k]);
        assert(ch(r, k + 1) == ch(a, k + 1));
        if r[k] == '*' && ch(r, k + 1) == '/' {
            if depth != 1 {
                lemma_block_end_cut(a, x, k + 2, (depth - 1) as nat);
            }
        } else if r[k] == '/' && ch(r, k + 1) == '*' {
            lemma_block_end_cut(a, x, k + 2, depth + 1);
        } else {
            lemma_block_end_cut(a, x, k + 1, depth);
        }
    }
}

/// A lexeme that ends within `a` is classified the same when `a` is followed
/// by a `/` instead.
#[verifier::rlimit(100)]
proof fn lemma_classify_cut(a: Seq<char>, x: Seq<char>, y: Seq<char>)
    requires
        a.len() >= 1,
        y.len() > 0,
        y[0] == '/',
        classify(a + x).1 <= a.len(),
        classify(a + x).0 != Token::Unexpected,
    ensures
        classify(a + y) == classify(a + x),
{
    let r = a + x;
    let r2 = a + y;
    assert forall|k: int| k < a.len() implies #[trigger] ch(r2, k) == ch(r, k) by {
        if 0 <= k {
            assert(r2[k] == a[k] && r[k] == a[k]);
        }
    }
    assert(ch(r2, a.len() as int) == '/');
    let s: int = if ch(r, 0) == '-' || ch(r, 0) == '+' { 1 } else { 0 };
    let n: int = if ch(r, 0) == '-' { 1 } else { 0 };
    let d1 = run(r, s, CharClass::Digit) as int;
    let m = crate::lexer::mantissa_len(r) as int;
    let es: int = if ch(r, m + 1) == '-' || ch(r, m + 1) == '+' { 1 } else { 0 };
    lemma_run_cut(a, x, y, 1, CharClass::NotQuote);
    lemma_run_cut(a, x, y, 1, CharClass::IdentTail);
    lemma_run_cut(a, x, y, 1, CharClass::HexDigit);
    if a.len() >= 2 {
        lemma_run_cut(a, x, y, 2, CharClass::OctDigit);
    }
    if a.len() >= 3 {
        lemma_run_cut(a, x, y, 3, CharClass::HexDigit);
    }
    lemma_run_cut(a, x, y, s, CharClass::Digit);
    if s + d1 + 1 <= a.len() {
        lemma_run_cut(a, x, y, s + d1 + 1, CharClass::Digit);
    }
    if 0 <= m + 1 + es <= a.len() {
        lemma_run_cut(a, x, y, m + 1 + es, CharClass::Digit);
    }
    if n + 2 <= a.len() {
        lemma_run_cut(a, x, y, n + 2, CharClass::HexDigit);
    }
    lemma_run_cut(a, x, y, n, CharClass::Digit);
    lemma_run_bound(r, 1, CharClass::NotQuote);
    lemma_run_bound(r, 3, CharClass::HexDigit);
    lemma_run_bound(r, 2, CharClass::OctDigit);
    lemma_run_bound(r, s, CharClass::Digit);
    lemma_run_bound(r, s + d1 + 1, CharClass::Digit);
    lemma_run_bound(r, m + 1 + es, CharClass::Digit);
    lemma_run_bound(r, n + 2, CharClass::HexDigit);
    lemma_run_bound(r, n, CharClass::Digit);
    lemma_run_bound(r, 1, CharClass::IdentTail);
    lemma_run_bound(r, 1, CharClass::HexDigit);
}

/// The lexeme scanned from the start of `a + x`, when it ends within `a`, is
/// scanned the same from the start of `a + y` when `y` starts with `/`.
proof fn lemma_lex_cut(a: Seq<char>, x: Seq<char>, y: Seq<char>)
    requires
        lex(a + x).2 <= a.len(),
        lex(a + x).0 != Token::EndOfInput,
        lex(a + x).0 != Token::Unexpected,
        lex(a + x).0 != Token::UnclosedComment,
        y.len() > 0,
        y[0] == '/',
    ensures
        lex(a + y) == lex(a + x),
    decreases a.len(),
{
    let r = a + x;
    let r2 = a + y;
    lemma_lex_bounds(r);
    assert(r[0] == a[0] && r2[0] == a[0]);
    if is_space(r[0]) {
        let t = r.subrange(1, r.len() as int);
        lemma_lex_bounds(t);
        assert(t =~= a.subrange(1, a.len() as int) + x);
        assert(r2.subrange(1, r2.len() as int) =~= a.subrange(1, a.len() as int) + y);
        lemma_lex_cut(a.subrange(1, a.len() as int), x, y);
    } else if is_line_comment_start(r) {
        lemma_run_bound(r, 2, CharClass::NotNewline);
        let e = line_comment_end(r);
        let t = r.subrange(e, r.len() as int);
        lemma_lex_bounds(t);
        assert(e < a.len());
        assert(ch(r2, 1) == ch(r, 1));
        lemma_run_cut(a, x, y, 2, CharClass::NotNewline);
        assert(line_comment_end(r2) == e);
        assert(t =~= a.subrange(e, a.len() as int) + x);
        assert(r2.subrange(e, r2.len() as int) =~= a.subrange(e, a.len() as int) + y);
        lemma_lex_cut(a.subrange(e, a.len() as int), x, y);
    } else if is_block_comment_start(r) {
        lemma_block_end_bound(r, 2, 1);
        let e = block_end(r, 2, 1);
        let t = r.subrange(e, r.len() as int);
        lemma_lex_bounds(t);
        assert(e < a.len());
        assert(ch(r2, 1) == ch(r, 1));
        lemma_block_end_cut(a, x, 2, 1);
        lemma_block_end_prefix(a, y, 2, 1);
        assert(t =~= a.subrange(e, a.len() as int) + x);
        assert(r2.subrange(e, r2.len() as int) =~= a.subrange(e, a.len() as int) + y);
        lemma_lex_cut(a.subrange(e, a.len() as int), x, y);
    } else {
        if a.len() >= 2 {
            assert(ch(r2, 1) == ch(r, 1));
        } else {
            assert(ch(r2, 1) == '/');
            assert(classify(r).1 == 1);
            assert(ch(r, 0) != '/' || classify(r).0 == Token::Unexpected);
        }
        lemma_classify_cut(a, x, y);
    }
}

/// Inserting a comment at position `p` leaves as it was each lexeme (other
/// than the end of input, an unexpected character or an unclosed comment)
/// that is scanned from a position before `p` and ends by `p`.
pub proof fn lemma_comment_keeps_lexeme(s: Seq<char>, q: int, p: int, c: Seq<char>)
    requires
        0 <= q <= p <= s.len(),
        is_line_comment(c) || is_block_comment(c),
        lex_at(s, q).2 <= p,
        lex_at(s, q).0 != Token::EndOfInput,
        lex_at(s, q).0 != Token::Unexpected,
        lex_at(s, q).0 != Token::UnclosedComment,
    ensures
        lex_at(s.subrange(0, p) + c + s.subrange(p, s.len() as int), q) == lex_at(s, q),
{
    let t = s.subrange(0, p) + c + s.subrange(p, s.len() as int);
    let a = s.subrange(q, p);
    let x = s.subrange(p, s.len() as int);
    let y = c + x;
    assert(rest(s, q) =~= a + x);
    assert(rest(t, q) =~= a + y);
    lemma_lex_cut(a, x, y);
}

/// Comments are transparent: a comment inserted right after a lexeme (other
/// than the end of input, an unexpected character or an unclosed comment)
/// leaves that lexeme as it was, and the lexeme after the comment is the one
/// that followed, moved by the comment's length.
pub proof fn lemma_comment_after_lexeme(s: Seq<char>, q: int, c: Seq<char>)
    requires
        0 <= q <= s.len(),
        is_line_comment(c) || is_block_comment(c),
        lex_at(s, q).0 != Token::EndOfInput,
        lex_at(s, q).0 != Token::Unexpected,
        lex_at(s, q).0 != Token::UnclosedComment,
    ensures
        ({
            let p = lex_at(s, q).2;
            let t = s.subrange(0, p) + c + s.subrange(p, s.len() as int);
            &&& lex_at(t, q) == lex_at(s, q)
            &&& lex_at(t, p) == crate::lexer::shift(lex_at(s, p), c.len() as int)
        }),
{
    lemma_lex_bounds(rest(s, q));
    let p = lex_at(s, q).2;
    lemma_comment_keeps_lexeme(s, q, p, c);
    lemma_comment_insertion(s, p, c);
}

} // verus!
