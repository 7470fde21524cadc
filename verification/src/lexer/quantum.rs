use super::model::{run_end, CharClass};
use super::text::is_ascii_digit;
use super::token::{Tok, Token};
use super::Lexer;
use vstd::prelude::*;

verus! {

/// The views of a sequence of tokens, in order.
pub open spec fn views(s: Seq<Token>) -> Seq<Tok> {
    s.map_values(|t: Token| t@)
}

/// The gates whose double application to one qubit is the identity: the
/// four single-qubit gates `H`, `X`, `Y` and `Z`.
pub open spec fn self_inverse(gate: Seq<char>) -> bool {
    gate == "H"@ || gate == "X"@ || gate == "Y"@ || gate == "Z"@
}

/// Two neighbouring buffer entries cancel when both are the same quantum
/// operation (same gate, same target) and that gate is self-inverse.
pub open spec fn cancels(a: Tok, b: Tok) -> bool {
    a is QOp && a == b && self_inverse(a->gate)
}

/// Appends `t` to an already reduced sequence: `t` either cancels against the
/// last entry or is added behind it.
pub open spec fn absorb(r: Seq<Tok>, t: Tok) -> Seq<Tok> {
    if r.len() > 0 && cancels(r.last(), t) {
        r.drop_last()
    } else {
        r.push(t)
    }
}

/// The sequence that is left when neighbouring cancelling pairs are removed
/// until none is left.
pub open spec fn reduced(s: Seq<Tok>) -> Seq<Tok>
    decreases s.len(),
{
    if s.len() == 0 {
        Seq::empty()
    } else {
        absorb(reduced(s.drop_last()), s.last())
    }
}

/// No two neighbours among the first `n` entries of `s` cancel.
pub open spec fn irreducible_upto(s: Seq<Tok>, n: int) -> bool {
    forall|j: int| 0 <= j && j + 1 < n && j + 1 < s.len() ==> !cancels(#[trigger] s[j], s[j + 1])
}

/// No two neighbours in `s` cancel.
pub open spec fn irreducible(s: Seq<Tok>) -> bool {
    irreducible_upto(s, s.len() as int)
}

/// `k` copies of `op`.
pub open spec fn run_of(op: Tok, k: nat) -> Seq<Tok> {
    Seq::new(k, |i: int| op)
}

/// What `reduced` returns holds no cancelling pair.
pub proof fn lemma_reduced_is_irreducible(s: Seq<Tok>)
    ensures
        irreducible(reduced(s)),
    decreases s.len(),
{
    if s.len() > 0 {
        lemma_reduced_is_irreducible(s.drop_last());
    }
}

/// A sequence without a cancelling pair is its own reduction.
pub proof fn lemma_irreducible_is_fixed(s: Seq<Tok>)
    requires
        irreducible(s),
    ensures
        reduced(s) == s,
    decreases s.len(),
{
    if s.len() > 0 {
        let p = s.drop_last();
        assert(irreducible(p)) by {
            assert forall|j: int| 0 <= j && j + 1 < p.len() implies !cancels(
                #[trigger] p[j],
                p[j + 1],
            ) by {
                assert(!cancels(s[j], s[j + 1]));
            }
        }
        lemma_irreducible_is_fixed(p);
        if p.len() > 0 {
            assert(!cancels(s[p.len() - 1], s[p.len() - 1 + 1]));
            assert(p.last() == s[p.len() - 1]);
        }
        assert(p.push(s.last()) == s);
    }
}

/// Reducing twice gives what reducing once gives.
pub proof fn lemma_reduced_idempotent(s: Seq<Tok>)
    ensures
        reduced(reduced(s)) == reduced(s),
{
    lemma_reduced_is_irreducible(s);
    lemma_irreducible_is_fixed(reduced(s));
}

/// Reducing the front part of a sequence first does not change what the
/// whole reduces to.
pub proof fn lemma_reduced_in_parts(a: Seq<Tok>, b: Seq<Tok>)
    ensures
        reduced(reduced(a) + b) == reduced(a + b),
    decreases b.len(),
{
    if b.len() == 0 {
        assert(reduced(a) + b == reduced(a));
        assert(a + b == a);
        lemma_reduced_idempotent(a);
    } else {
        lemma_reduced_in_parts(a, b.drop_last());
        assert((reduced(a) + b).drop_last() == reduced(a) + b.drop_last());
        assert((a + b).drop_last() == a + b.drop_last());
        assert((reduced(a) + b).last() == b.last());
        assert((a + b).last() == b.last());
    }
}

/// Absorbing one self-inverse operation twice into a sequence without a
/// cancelling pair gives that sequence back.
proof fn lemma_absorb_twice(r: Seq<Tok>, a: Tok)
    requires
        irreducible(r),
        cancels(a, a),
    ensures
        absorb(absorb(r, a), a) == r,
{
    if r.len() > 0 && cancels(r.last(), a) {
        let q = r.drop_last();
        if q.len() > 0 {
            assert(!cancels(r[q.len() - 1], r[q.len() - 1 + 1]));
            assert(q.last() == r[q.len() - 1]);
        }
        assert(q.push(a) == r);
    } else {
        assert(r.push(a).drop_last() == r);
    }
}

/// Removing a cancelling pair anywhere in a sequence does not change what
/// the sequence reduces to.
pub proof fn lemma_removing_a_pair_keeps_reduction(s: Seq<Tok>, i: int)
    requires
        0 <= i,
        i + 1 < s.len(),
        cancels(s[i], s[i + 1]),
    ensures
        reduced(s) == reduced(s.remove(i + 1).remove(i)),
    decreases s.len(),
{
    let t = s.remove(i + 1).remove(i);
    let p = s.drop_last();
    if i + 1 == s.len() - 1 {
        assert(p.drop_last() == t);
        assert(p.last() == s[i]);
        assert(s.last() == s[i]);
        lemma_reduced_is_irreducible(t);
        lemma_absorb_twice(reduced(t), s[i]);
        assert(reduced(p) == absorb(reduced(t), s[i]));
        assert(reduced(s) == absorb(reduced(p), s[i]));
    } else {
        lemma_removing_a_pair_keeps_reduction(p, i);
        assert(t.drop_last() == p.remove(i + 1).remove(i));
        assert(t.last() == s.last());
        assert(reduced(t) == absorb(reduced(t.drop_last()), t.last()));
        assert(reduced(s) == absorb(reduced(p), s.last()));
    }
}

/// A run of `k` copies of one self-inverse operation, arriving behind a
/// reduced sequence `r` that does not end in that operation, leaves nothing
/// of itself when `k` is even and exactly one copy when `k` is odd.
pub proof fn lemma_run_parity(r: Seq<Tok>, op: Tok, k: nat)
    requires
        irreducible(r),
        cancels(op, op),
        r.len() == 0 || r.last() != op,
    ensures
        reduced(r + run_of(op, k)) == (if k % 2 == 0 {
            r
        } else {
            r.push(op)
        }),
    decreases k,
{
    let s = r + run_of(op, k);
    if k == 0 {
        assert(s == r);
        lemma_irreducible_is_fixed(r);
    } else {
        let km = (k - 1) as nat;
        lemma_run_parity(r, op, km);
        assert(s.drop_last() == r + run_of(op, km));
        assert(s.last() == op);
        if km % 2 == 0 {
        } else {
            assert(r.push(op).drop_last() == r);
        }
    }
}

/// A run of `k` copies of one self-inverse operation on its own reduces to
/// nothing when `k` is even and to a single copy when `k` is odd.
pub proof fn lemma_even_runs_vanish(op: Tok, k: nat)
    requires
        cancels(op, op),
    ensures
        reduced(run_of(op, k)) == (if k % 2 == 0 {
            Seq::<Tok>::empty()
        } else {
            seq![op]
        }),
{
    let e = Seq::<Tok>::empty();
    lemma_run_parity(e, op, k);
    assert(e + run_of(op, k) == run_of(op, k));
    assert(e.push(op) == seq![op]);
}

/// Operations that differ in gate or in target never cancel: a sequence in
/// which every entry differs from its right neighbour is left as it is.
pub proof fn lemma_distinct_neighbours_survive(s: Seq<Tok>)
    requires
        forall|j: int| 0 <= j && j + 1 < s.len() ==> #[trigger] s[j] != s[j + 1],
    ensures
        reduced(s) == s,
{
    lemma_irreducible_is_fixed(s);
}

/// Operations whose gate is not self-inverse, the multi-qubit gates among
/// them, never cancel, however often they are repeated.
pub proof fn lemma_other_gates_survive(s: Seq<Tok>)
    requires
        forall|j: int| 0 <= j < s.len() && #[trigger] s[j] is QOp ==> !self_inverse(s[j]->gate),
    ensures
        reduced(s) == s,
{
    lemma_irreducible_is_fixed(s);
}

/// Scans the rest of a numeric literal whose first character `first` has
/// been read: the longest run of digits and fractional separators `.` under
/// the cursor. The literal keeps its text as written.
pub fn lex_number(lex: &mut Lexer, first: char) -> (t: Token)
    requires
        old(lex)@.in_bounds(),
    ensures
        t@ == Tok::Number(
            seq![first] + old(lex)@.src.subrange(
                old(lex)@.pos,
                run_end(old(lex)@.src, old(lex)@.pos, CharClass::NumberPart),
            ),
        ),
        final(lex)@ == old(lex)@.at(run_end(old(lex)@.src, old(lex)@.pos, CharClass::NumberPart)),
        final(lex)@.in_bounds(),
{
    let mut s = String::new();
    s.push(first);
    let ghost s0 = lex@;
    loop
        invariant
            s0 == old(lex)@,
            lex@.in_bounds(),
            s0.pos <= lex@.pos,
            lex@ == s0.at(lex@.pos),
            s@ == seq![first] + s0.src.subrange(s0.pos, lex@.pos),
            run_end(s0.src, lex@.pos, CharClass::NumberPart) == run_end(
                s0.src,
                s0.pos,
                CharClass::NumberPart,
            ),
        ensures
            lex@ == s0.at(run_end(s0.src, s0.pos, CharClass::NumberPart)),
            lex@.in_bounds(),
            s@ == seq![first] + s0.src.subrange(s0.pos, lex@.pos),
        decreases lex@.src.len() - lex@.pos,
    {
        match lex.peek() {
            Some(c) => {
                if is_ascii_digit(c) || c == '.' {
                    lex.next_char();
                    s.push(c);
                    assert(s0.src.subrange(s0.pos, lex@.pos) == s0.src.subrange(
                        s0.pos,
                        lex@.pos - 1,
                    ).push(c));
                } else {
                    break;
                }
            },
            None => {
                break;
            },
        }
    }
    Token::Number(s)
}

/// Tests a gate name for membership in the self-inverse set.
pub fn is_self_inverse(gate: &String) -> (r: bool)
    ensures
        r == self_inverse(gate@),
{
    let g = gate.as_str();
    *g == *"H" || *g == *"X" || *g == *"Y" || *g == *"Z"
}

/// Tests whether two neighbouring buffer entries cancel.
pub fn pair_cancels(a: &Token, b: &Token) -> (r: bool)
    ensures
        r == cancels(a@, b@),
{
    match (a, b) {
        (Token::QOp { gate: g1, target: q1 }, Token::QOp { gate: g2, target: q2 }) => {
            *q1 == *q2 && *g1 == *g2 && is_self_inverse(g1)
        },
        _ => false,
    }
}

/// Cancels neighbouring pairs of identical self-inverse quantum operations
/// in `buf` until none is left. After each removal the scan steps back one
/// position, since the removal may have brought a new pair together.
pub fn quantum_reduce(buf: &mut Vec<Token>)
    ensures
        views(final(buf)@) == reduced(views(old(buf)@)),
        irreducible(views(final(buf)@)),
{
    loop
        invariant
            reduced(views(buf@)) == reduced(views(old(buf)@)),
        ensures
            views(buf@) == reduced(views(old(buf)@)),
            irreducible(views(buf@)),
        decreases buf.len(),
    {
        let mut changed = false;
        let mut i: usize = 0;
        let ghost len_before = buf.len();
        while i < buf.len() && i + 1 < buf.len()
            invariant
                i <= buf.len(),
                reduced(views(buf@)) == reduced(views(old(buf)@)),
                irreducible_upto(views(buf@), i + 1),
                changed ==> buf.len() < len_before,
                !changed ==> buf.len() == len_before,
            decreases 2 * buf.len() - i,
        {
            if pair_cancels(&buf[i], &buf[i + 1]) {
                let ghost before = views(buf@);
                proof {
                    lemma_removing_a_pair_keeps_reduction(before, i as int);
                }
                buf.remove(i + 1);
                buf.remove(i);
                assert(views(buf@) == before.remove(i + 1).remove(i as int));
                changed = true;
                if i > 0 {
                    i -= 1;
                }
                assert(irreducible_upto(views(buf@), i + 1)) by {
                    assert forall|j: int| 0 <= j && j + 1 < i + 1 && j + 1 < buf@.len() implies !cancels(
                        #[trigger] views(buf@)[j],
                        views(buf@)[j + 1],
                    ) by {
                        assert(!cancels(before[j], before[j + 1]));
                    }
                }
            } else {
                i += 1;
            }
        }
        proof {
            if !changed {
                assert(irreducible(views(buf@)));
                lemma_irreducible_is_fixed(views(buf@));
            }
        }
        if !changed {
            break;
        }
    }
}

} // verus!
