use vstd::prelude::*;

verus! {

/// The value of a digit character in bases up to 16, and 16 for any other character.
pub open spec fn digit_value(c: char) -> int {
    if '0' <= c && c <= '9' {
        c as int - '0' as int
    } else if 'a' <= c && c <= 'f' {
        c as int - 'a' as int + 10
    } else if 'A' <= c && c <= 'F' {
        c as int - 'A' as int + 10
    } else {
        16
    }
}

pub open spec fn all_digits(d: Seq<char>, radix: int) -> bool {
    forall|i: int| 0 <= i < d.len() ==> #[trigger] digit_value(d[i]) < radix
}

/// The value of the digit string `d` in base `radix`, most significant first.
pub open spec fn digits_value(d: Seq<char>, radix: int) -> int
    decreases d.len(),
{
    if d.len() == 0 {
        0
    } else {
        digits_value(d.drop_last(), radix) * radix + digit_value(d.last())
    }
}

/// A byte written in base `radix` with an optional leading `+`, as the standard
/// library reads one: `None` when a digit is missing or invalid, or the value
/// exceeds 255.
pub open spec fn parse_u8(d: Seq<char>, radix: int) -> Option<u8> {
    let ds = if d.len() > 0 && d[0] == '+' {
        d.drop_first()
    } else {
        d
    };
    if ds.len() > 0 && all_digits(ds, radix) && digits_value(ds, radix) <= 255 {
        Some(digits_value(ds, radix) as u8)
    } else {
        None
    }
}

/// The value of a decimal integer lexeme `-?[0-9]+`.
pub open spec fn integer_value(t: Seq<char>) -> int {
    if t.len() > 0 && t[0] == '-' {
        -digits_value(t.drop_first(), 10)
    } else {
        digits_value(t, 10)
    }
}

pub proof fn lemma_digits_value_nonneg(d: Seq<char>, radix: int)
    requires
        all_digits(d, radix),
        radix >= 1,
    ensures
        digits_value(d, radix) >= 0,
    decreases d.len(),
{
    if d.len() > 0 {
        assert(all_digits(d.drop_last(), radix)) by {
            assert forall|i: int| 0 <= i < d.drop_last().len() implies #[trigger] digit_value(
                d.drop_last()[i],
            ) < radix by {
                assert(d.drop_last()[i] == d[i]);
            }
        }
        lemma_digits_value_nonneg(d.drop_last(), radix);
        assert(digit_value(d[d.len() - 1]) < radix);
        let x = digits_value(d.drop_last(), radix);
        assert(x * radix >= 0) by (nonlinear_arith)
            requires
                x >= 0,
                radix >= 1,
        ;
    }
}

/// A prefix of a digit string is worth no more than the whole string.
pub proof fn lemma_prefix_value_le(d: Seq<char>, k: int, radix: int)
    requires
        all_digits(d, radix),
        radix >= 1,
        0 <= k <= d.len(),
    ensures
        digits_value(d.subrange(0, k), radix) <= digits_value(d, radix),
    decreases d.len(),
{
    if k == d.len() {
        assert(d.subrange(0, k) =~= d);
    } else {
        let p = d.drop_last();
        assert(all_digits(p, radix)) by {
            assert forall|i: int| 0 <= i < p.len() implies #[trigger] digit_value(p[i]) < radix by {
                assert(p[i] == d[i]);
            }
        }
        lemma_prefix_value_le(p, k, radix);
        assert(p.subrange(0, k) =~= d.subrange(0, k));
        lemma_digits_value_nonneg(p, radix);
        let x = digits_value(p, radix);
        assert(digit_value(d[d.len() - 1]) >= 0);
        assert(x * radix >= x) by (nonlinear_arith)
            requires
                x >= 0,
                radix >= 1,
        ;
    }
}

pub fn digit_value_of(c: char) -> (v: u32)
    ensures
        v == digit_value(c),
{
    if '0' <= c && c <= '9' {
        (c as u32) - ('0' as u32)
    } else if 'a' <= c && c <= 'f' {
        (c as u32) - ('a' as u32) + 10
    } else if 'A' <= c && c <= 'F' {
        (c as u32) - ('A' as u32) + 10
    } else {
        16
    }
}

/// Reads `src[from..to]` as a digit string in base `radix`; `None` when it is
/// empty, holds a character that is no digit, or is worth more than `bound`.
pub fn parse_digits(src: &Vec<char>, from: usize, to: usize, radix: u32, bound: u128) -> (r:
    Option<u128>)
    requires
        from <= to <= src.len(),
        2 <= radix <= 16,
        bound <= u64::MAX as u128 + 1,
    ensures
        ({
            let d = src@.subrange(from as int, to as int);
            match r {
                Some(v) => d.len() > 0 && all_digits(d, radix as int) && v == digits_value(
                    d,
                    radix as int,
                ) && v <= bound,
                None => !(d.len() > 0 && all_digits(d, radix as int) && digits_value(
                    d,
                    radix as int,
                ) <= bound),
            }
        }),
{
    let ghost d = src@.subrange(from as int, to as int);
    if from == to {
        return None;
    }
    let mut acc: u128 = 0;
    let mut i: usize = from;
    while i < to
        invariant
            from <= i <= to <= src.len(),
            2 <= radix <= 16,
            bound <= u64::MAX as u128 + 1,
            d == src@.subrange(from as int, to as int),
            all_digits(src@.subrange(from as int, i as int), radix as int),
            acc == digits_value(src@.subrange(from as int, i as int), radix as int),
            acc <= bound,
        decreases to - i,
    {
        let ghost pre = src@.subrange(from as int, i as int);
        let ghost next = src@.subrange(from as int, i + 1);
        let v = digit_value_of(src[i]);
        if v >= radix {
            proof {
                assert(d[i - from] == src@[i as int]);
            }
            return None;
        }
        assert(next.drop_last() =~= pre);
        assert(all_digits(next, radix as int)) by {
            assert forall|j: int| 0 <= j < next.len() implies #[trigger] digit_value(next[j])
                < radix as int by {
                if j < pre.len() {
                    assert(next[j] == pre[j]);
                }
            }
        }
        assert(acc * (radix as u128) <= (u64::MAX as u128 + 1) * 16) by (nonlinear_arith)
            requires
                acc <= u64::MAX as u128 + 1,
                radix <= 16,
        ;
        acc = acc * (radix as u128) + (v as u128);
        i = i + 1;
        if acc > bound {
            proof {
                assert(all_digits(d, radix as int) ==> digits_value(d, radix as int) > bound) by {
                    if all_digits(d, radix as int) {
                        lemma_prefix_value_le(d, i - from, radix as int);
                        assert(d.subrange(0, i - from) =~= next);
                    }
                }
            }
            return None;
        }
    }
    assert(src@.subrange(from as int, i as int) =~= d);
    Some(acc)
}

} // verus!
