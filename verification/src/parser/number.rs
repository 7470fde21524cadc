use crate::lexer::text::is_digit;
use vstd::prelude::*;

verus! {

/// The number that a sequence of decimal digits writes.
pub open spec fn decimal(s: Seq<char>) -> int
    decreases s.len(),
{
    if s.len() == 0 {
        0
    } else {
        decimal(s.drop_last()) * 10 + (s.last() as int - '0' as int)
    }
}

/// Whether every character of `s` is a decimal digit.
pub open spec fn all_digits(s: Seq<char>) -> bool {
    forall|i: int| 0 <= i < s.len() ==> is_digit(#[trigger] s[i])
}

/// The value of a numeric literal: the number that its text writes, where
/// the text is one or more decimal digits and the number fits in 64 bits
/// with a sign. Every other text, one with a fractional separator among
/// them, has no value.
pub open spec fn literal_value(s: Seq<char>) -> Option<int> {
    if s.len() > 0 && all_digits(s) && decimal(s) <= i64::MAX {
        Some(decimal(s))
    } else {
        None
    }
}

/// A longer sequence of digits writes no smaller number than its prefix.
proof fn lemma_decimal_grows(s: Seq<char>, n: int)
    requires
        all_digits(s),
        0 <= n <= s.len(),
    ensures
        0 <= decimal(s.take(n)) <= decimal(s),
    decreases s.len() - n,
{
    if n == s.len() {
        assert(s.take(n) == s);
        lemma_decimal_nonnegative(s);
    } else {
        lemma_decimal_grows(s, n + 1);
        let t = s.take(n + 1);
        assert(t.drop_last() == s.take(n));
        assert(t.last() == s[n]);
        assert(is_digit(s[n]));
        lemma_decimal_nonnegative(s.take(n));
    }
}

/// A sequence of digits writes no negative number.
proof fn lemma_decimal_nonnegative(s: Seq<char>)
    requires
        all_digits(s),
    ensures
        0 <= decimal(s),
    decreases s.len(),
{
    if s.len() > 0 {
        assert(is_digit(s.last()));
        assert(forall|i: int| 0 <= i < s.drop_last().len() ==> s.drop_last()[i] == s[i]);
        lemma_decimal_nonnegative(s.drop_last());
    }
}

/// The digit that a decimal digit character writes.
fn digit_of(c: char) -> (d: i64)
    requires
        is_digit(c),
    ensures
        d == c as int - '0' as int,
        0 <= d <= 9,
{
    (c as u32 - '0' as u32) as i64
}

/// The value of the numeric literal `text`, if it has one.
pub fn parse_literal(text: &String) -> (r: Option<i64>)
    ensures
        match literal_value(text@) {
            Some(v) => r == Some(v as i64) && v as i64 == v,
            None => r is None,
        },
{
    let mut acc: i64 = 0;
    let mut empty = true;
    let ghost s = text@;
    for c in it: text.as_str().chars()
        invariant
            it.seq() == s,
            s == text@,
            empty == (it.index() == 0),
            all_digits(s.take(it.index() as int)),
            acc == decimal(s.take(it.index() as int)),
            0 <= acc,
    {
        let ghost i = it.index() as int;
        proof {
            assert(s.take(i + 1).drop_last() == s.take(i));
            assert(s.take(i + 1).last() == s[i]);
        }
        if !('0' <= c && c <= '9') {
            assert(!all_digits(s));
            return None;
        }
        let d = digit_of(c);
        assert(all_digits(s.take(i + 1))) by {
            assert forall|j: int| 0 <= j < i + 1 implies is_digit(#[trigger] s.take(i + 1)[j]) by {
                if j < i {
                    assert(s.take(i)[j] == s[j]);
                }
            }
        }
        if acc > (i64::MAX - d) / 10 {
            proof {
                assert(decimal(s.take(i + 1)) > i64::MAX);
                if all_digits(s) {
                    lemma_decimal_grows(s, i + 1);
                }
            }
            return None;
        }
        acc = acc * 10 + d;
        empty = false;
    }
    assert(s.take(s.len() as int) == s);
    if empty {
        None
    } else {
        Some(acc)
    }
}

} // verus!
