use vstd::prelude::*;

verus! {

/// Whether a character is Unicode whitespace (`White_Space`), as std's
/// `char::is_whitespace` tells it. The set is a table of the Unicode
/// standard; nothing but this name is stated of it.
pub uninterp spec fn unicode_whitespace(c: char) -> bool;

/// Whether a character is a Unicode letter or number, as std's
/// `char::is_alphanumeric` tells it. The set is a table of the Unicode
/// standard; nothing but this name is stated of it.
pub uninterp spec fn unicode_alphanumeric(c: char) -> bool;

/// Trusted: std's `char::is_whitespace`. Its answer depends on the
/// character alone, and is what `unicode_whitespace` names.
pub assume_specification[ char::is_whitespace ](c: char) -> (r: bool)
    ensures
        r == unicode_whitespace(c),
;

/// Trusted: std's `char::is_alphanumeric`. Its answer depends on the
/// character alone, and is what `unicode_alphanumeric` names.
pub assume_specification[ char::is_alphanumeric ](c: char) -> (r: bool)
    ensures
        r == unicode_alphanumeric(c),
;

/// Trusted: std's `String::push`, which appends the character to the end of
/// the string and leaves the rest as it is.
pub assume_specification[ String::push ](s: &mut String, c: char)
    ensures
        final(s)@ == old(s)@.push(c),
;

/// Trusted: std's `==` on string slices, which holds exactly when the two
/// slices hold the same characters in the same order.
pub assume_specification[ <str as PartialEq>::eq ](a: &str, b: &str) -> (r: bool)
    ensures
        r == (a@ == b@),
;

/// Whether `c` is one of the ten ASCII decimal digits.
pub open spec fn is_digit(c: char) -> bool {
    '0' <= c && c <= '9'
}

/// Tests for an ASCII decimal digit.
pub fn is_ascii_digit(c: char) -> (r: bool)
    ensures
        r == is_digit(c),
{
    '0' <= c && c <= '9'
}

/// The first index in `from..to` that holds no whitespace, or `to`.
pub open spec fn trim_start(src: Seq<char>, from: int, to: int) -> int
    decreases to - from,
{
    if 0 <= from < to && to <= src.len() && unicode_whitespace(src[from]) {
        trim_start(src, from + 1, to)
    } else {
        from
    }
}

/// One past the last index in `from..to` that holds no whitespace, or `from`.
pub open spec fn trim_stop(src: Seq<char>, from: int, to: int) -> int
    decreases to - from,
{
    if 0 <= from < to && to <= src.len() && unicode_whitespace(src[to - 1]) {
        trim_stop(src, from, to - 1)
    } else {
        to
    }
}

/// The text `src[from..to]` without its leading and trailing whitespace.
pub open spec fn trimmed(src: Seq<char>, from: int, to: int) -> Seq<char> {
    let a = trim_start(src, from, to);
    src.subrange(a, trim_stop(src, a, to))
}

/// The text `src[from..to]` as an owned string.
pub fn collect_range(src: &Vec<char>, from: usize, to: usize) -> (out: String)
    requires
        from <= to <= src@.len(),
    ensures
        out@ == src@.subrange(from as int, to as int),
{
    let mut out = String::new();
    let mut i: usize = from;
    while i < to
        invariant
            from <= i <= to <= src@.len(),
            out@ == src@.subrange(from as int, i as int),
        decreases to - i,
    {
        out.push(src[i]);
        i += 1;
        assert(src@.subrange(from as int, i as int) == src@.subrange(from as int, i - 1).push(src@[i - 1]));
    }
    out
}

/// The text `src[from..to]` without its leading and trailing whitespace, as
/// an owned string.
pub fn trimmed_text(src: &Vec<char>, from: usize, to: usize) -> (out: String)
    requires
        from <= to <= src@.len(),
    ensures
        out@ == trimmed(src@, from as int, to as int),
{
    let mut a: usize = from;
    while a < to && src[a].is_whitespace()
        invariant
            from <= a <= to <= src@.len(),
            trim_start(src@, a as int, to as int) == trim_start(src@, from as int, to as int),
        decreases to - a,
    {
        a += 1;
    }
    let mut b: usize = to;
    while a < b && src[b - 1].is_whitespace()
        invariant
            a <= b <= to <= src@.len(),
            trim_stop(src@, a as int, b as int) == trim_stop(src@, a as int, to as int),
        decreases b - a,
    {
        b -= 1;
    }
    collect_range(src, a, b)
}

} // verus!
