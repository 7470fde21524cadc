use super::annotate::annotation_of;
use super::model::{raw_next, LexState};
use super::quantum::{
    cancels, lemma_irreducible_is_fixed, lemma_reduced_in_parts, lemma_run_parity, reduced,
    run_of, self_inverse,
};
use super::stream::{
    is_call_pattern, lemma_buffered, lemma_live_bounds, lemma_popped, lemma_raw_next,
    lemma_raw_or_qop, lemma_session, lemma_speculate, lemma_unread, next_token, produce,
    raw_or_qop, session, speculate,
};
use super::token::Tok;
use vstd::prelude::*;

verus! {

/// A pragma whose name is not recognised is passed over: the next token is
/// the one that would be handed out if the pragma were not there, and the
/// mode is not touched.
pub proof fn lemma_unrecognised_pragma_is_passed_over(s: LexState)
    requires
        s.wf(),
        s.pending.len() == 0,
        raw_next(s).0 is Attr,
        annotation_of(raw_next(s).0->Attr_0) is None,
    ensures
        next_token(s) == next_token(raw_next(s).1),
        raw_next(s).1.pe == s.pe,
{
    lemma_raw_next(s);
    let (t0, s1) = raw_next(s);
    assert(s1.with_pragma(t0->Attr_0) == s1);
}

/// While partial evaluation is on, a quantum operation that arrives in a
/// buffering session joins the pending buffer, where it cancels against an
/// identical self-inverse operation before it.
pub proof fn lemma_mode_on_buffers(s: LexState)
    requires
        s.wf(),
        s.pe,
        raw_or_qop(s).0 is QOp,
    ensures
        session(s) == session(raw_or_qop(s).1.buffered(raw_or_qop(s).0)),
{
    lemma_raw_or_qop(s);
    let (t, s1) = raw_or_qop(s);
    assert(s1.pe);
    lemma_buffered(s1, t);
}

/// While partial evaluation is off, a gate call is handed out at once and
/// as it is: it does not enter the pending buffer and meets no other
/// operation.
pub proof fn lemma_mode_off_hands_out_verbatim(s: LexState)
    requires
        s.wf(),
        s.pending.len() == 0,
        !s.pe,
        raw_or_qop(s).0 is QOp,
        raw_next(s).0 is Gate,
    ensures
        next_token(s) == raw_or_qop(s),
        next_token(s).1.pending.len() == 0,
{
    lemma_raw_next(s);
    lemma_speculate(raw_next(s).1, raw_next(s).0->Gate_0);
}

/// A quantum operation that arrives in a buffering session while partial
/// evaluation is off ends the session: the pending buffer stays as it was,
/// so nothing in it cancels against that operation, and the operation is
/// put back to be handed out behind the buffer.
pub proof fn lemma_mode_off_ends_session(s: LexState)
    requires
        s.wf(),
        !s.pe,
        raw_or_qop(s).0 is QOp,
    ensures
        session(s) == raw_or_qop(s).1.unread(raw_or_qop(s).0),
        session(s).pending == s.pending,
{
    lemma_raw_or_qop(s);
}

/// An operation that was put back is handed out as it is once the pending
/// buffer is empty.
pub proof fn lemma_operation_put_back_is_handed_out(s: LexState)
    requires
        s.wf(),
        s.pending.len() == 0,
        s.pushback.len() > 0,
        s.pushback[0] is QOp,
    ensures
        next_token(s) == raw_next(s),
        next_token(s).0 == s.pushback[0],
{
}

/// The first `n` tokens that a lexer in state `s` hands out.
pub open spec fn handed_out(s: LexState, n: nat) -> Seq<Tok>
    decreases n,
{
    if n == 0 {
        Seq::empty()
    } else {
        seq![next_token(s).0] + handed_out(next_token(s).1, (n - 1) as nat)
    }
}

/// The pending operations are handed out first, in their order and as they
/// are.
pub proof fn lemma_pending_is_handed_out_first(s: LexState, m: nat)
    ensures
        handed_out(s, s.pending.len() + m) == s.pending + handed_out(
            s.with_pending(Seq::empty()),
            m,
        ),
    decreases s.pending.len(),
{
    if s.pending.len() == 0 {
        assert(s.pending =~= Seq::empty());
        assert(s.with_pending(Seq::empty()) == s);
        assert(s.pending + handed_out(s, m) =~= handed_out(s, m));
    } else {
        let q = s.popped();
        lemma_pending_is_handed_out_first(q, m);
        assert(q.with_pending(Seq::empty()) == s.with_pending(Seq::empty()));
        assert(seq![s.pending[0]] + (q.pending + handed_out(q.with_pending(Seq::empty()), m))
            =~= s.pending + handed_out(s.with_pending(Seq::empty()), m));
    }
}

/// The mode boundary. When a quantum operation arrives in a buffering
/// session while partial evaluation is off, the tokens handed out next are
/// the pending operations, as they were, and then that operation: what came
/// before the boundary and what comes after it do not cancel against each
/// other.
pub proof fn lemma_mode_boundary(s: LexState)
    requires
        s.wf(),
        !s.pe,
        raw_or_qop(s).0 is QOp,
    ensures
        handed_out(session(s), s.pending.len() + 1) == s.pending.push(raw_or_qop(s).0),
{
    let (op, s1) = raw_or_qop(s);
    lemma_raw_or_qop(s);
    lemma_mode_off_ends_session(s);
    lemma_unread(s1, op);
    let e = session(s);
    lemma_pending_is_handed_out_first(e, 1);
    let e0 = e.with_pending(Seq::empty());
    assert(e0.wf());
    lemma_operation_put_back_is_handed_out(e0);
    assert(handed_out(next_token(e0).1, 0) =~= Seq::empty());
    assert(handed_out(e0, 1) =~= seq![op]);
    assert(s.pending + seq![op] =~= s.pending.push(op));
}

/// The state after `k` reads of a raw token, each with a gate call
/// attempted.
pub open spec fn after_reads(s: LexState, k: nat) -> LexState
    decreases k,
{
    if k == 0 {
        s
    } else {
        after_reads(raw_or_qop(s).1, (k - 1) as nat)
    }
}

/// Whether the next `k` reads of a raw token, each with a gate call
/// attempted, all give the operation `op`: the source goes on with a run of
/// `k` calls of one gate on one target.
pub open spec fn reads_run(s: LexState, op: Tok, k: nat) -> bool
    decreases k,
{
    k == 0 || (raw_or_qop(s).0 == op && reads_run(raw_or_qop(s).1, op, (k - 1) as nat))
}

/// What is read does not depend on the pending buffer, and reading leaves
/// the buffer as it is.
pub proof fn lemma_reads_ignore_pending(s: LexState, p: Seq<Tok>)
    ensures
        raw_next(s.with_pending(p)) == (raw_next(s).0, raw_next(s).1.with_pending(p)),
        raw_or_qop(s.with_pending(p)) == (raw_or_qop(s).0, raw_or_qop(s).1.with_pending(p)),
{
    let (t0, s0) = raw_next(s);
    assert(raw_next(s.with_pending(p)) == (t0, s0.with_pending(p)));
    if t0 is Gate {
        let (t1, s1) = raw_next(s0);
        let (t2, s2) = raw_next(s1);
        let (t3, s3) = raw_next(s2);
        let (t4, s4) = raw_next(s3);
        assert(raw_next(s0.with_pending(p)) == (t1, s1.with_pending(p)));
        assert(raw_next(s1.with_pending(p)) == (t2, s2.with_pending(p)));
        assert(raw_next(s2.with_pending(p)) == (t3, s3.with_pending(p)));
        assert(raw_next(s3.with_pending(p)) == (t4, s4.with_pending(p)));
        assert(s4.with_pending(p).unread(t4).unread(t3).unread(t2).unread(t1) == s4.unread(
            t4,
        ).unread(t3).unread(t2).unread(t1).with_pending(p));
    }
}

/// A run that the source goes on with does not depend on the pending
/// buffer.
pub proof fn lemma_run_ignores_pending(s: LexState, p: Seq<Tok>, op: Tok, k: nat)
    ensures
        reads_run(s.with_pending(p), op, k) == reads_run(s, op, k),
        after_reads(s.with_pending(p), k) == after_reads(s, k).with_pending(p),
    decreases k,
{
    if k > 0 {
        lemma_reads_ignore_pending(s, p);
        lemma_run_ignores_pending(raw_or_qop(s).1, p, op, (k - 1) as nat);
    }
}

/// A buffering session, while partial evaluation is on, takes a run of `k`
/// calls of one gate on one target into the pending buffer: it goes on
/// behind the run with the reduction of the buffer and the run together.
pub proof fn lemma_session_takes_run(s: LexState, op: Tok, k: nat)
    requires
        s.wf(),
        s.pe,
        op is QOp,
        reads_run(s, op, k),
    ensures
        after_reads(s, k).with_pending(reduced(s.pending + run_of(op, k))).wf(),
        session(s) == session(after_reads(s, k).with_pending(reduced(s.pending + run_of(op, k)))),
    decreases k,
{
    if k == 0 {
        assert(s.pending + run_of(op, 0) == s.pending);
        lemma_irreducible_is_fixed(s.pending);
        assert(s.with_pending(s.pending) == s);
    } else {
        let km = (k - 1) as nat;
        let (t, s1) = raw_or_qop(s);
        lemma_raw_or_qop(s);
        lemma_mode_on_buffers(s);
        lemma_buffered(s1, op);
        let b = s1.buffered(op);
        assert(b == s1.with_pending(b.pending));
        lemma_run_ignores_pending(s1, b.pending, op, km);
        lemma_session_takes_run(b, op, km);
        lemma_reduced_in_parts(s.pending.push(op), run_of(op, km));
        assert(s.pending.push(op) + run_of(op, km) == s.pending + run_of(op, k));
        let r = reduced(s.pending + run_of(op, k));
        assert(after_reads(b, km).with_pending(r) == after_reads(s, k).with_pending(r));
    }
}

/// A run of `k` calls of one self-inverse gate on one target, met in a
/// buffering session while partial evaluation is on and behind a pending
/// buffer that does not end in that operation, leaves nothing of itself in
/// the buffer when `k` is even and exactly one operation when `k` is odd.
pub proof fn lemma_session_run_parity(s: LexState, op: Tok, k: nat)
    requires
        s.wf(),
        s.pe,
        cancels(op, op),
        reads_run(s, op, k),
        s.pending.len() == 0 || s.pending.last() != op,
    ensures
        session(s) == session(
            after_reads(s, k).with_pending(
                if k % 2 == 0 {
                    s.pending
                } else {
                    s.pending.push(op)
                },
            ),
        ),
{
    lemma_session_takes_run(s, op, k);
    lemma_run_parity(s.pending, op, k);
}

/// A run of `k` calls of one gate that is not self-inverse, a multi-qubit
/// gate for one, met in a buffering session while partial evaluation is on,
/// joins the pending buffer whole: every one of the `k` operations stays.
pub proof fn lemma_session_keeps_other_runs(s: LexState, op: Tok, k: nat)
    requires
        s.wf(),
        s.pe,
        op is QOp,
        !self_inverse(op->gate),
        reads_run(s, op, k),
    ensures
        session(s) == session(after_reads(s, k).with_pending(s.pending + run_of(op, k))),
{
    lemma_session_takes_run(s, op, k);
    let q = s.pending + run_of(op, k);
    assert forall|j: int| 0 <= j && j + 1 < q.len() implies !cancels(#[trigger] q[j], q[j + 1]) by {
        if j + 1 < s.pending.len() {
            assert(!cancels(s.pending[j], s.pending[j + 1]));
        }
    }
    lemma_irreducible_is_fixed(q);
}

/// The next `n` raw tokens that are read in state `s`.
pub open spec fn raw_tokens(s: LexState, n: nat) -> Seq<Tok>
    decreases n,
{
    if n == 0 {
        Seq::empty()
    } else {
        seq![raw_next(s).0] + raw_tokens(raw_next(s).1, (n - 1) as nat)
    }
}

/// A raw read behind a token that was put back gives that token and the
/// state it was put back into.
pub proof fn lemma_read_after_unread(u: LexState, t: Tok)
    ensures
        raw_next(u.unread(t)) == (t, u),
{
    assert(u.unread(t).pushback.drop_first() =~= u.pushback);
}

/// A gate name that the call pattern does not follow is handed out as a
/// bare gate name, and the raw tokens behind it are those that would have
/// been read had no lookahead been attempted: the same tokens in the same
/// order, however many are read.
pub proof fn lemma_failed_lookahead_is_undone(s: LexState, gate: Seq<char>, n: nat)
    requires
        s.wf(),
        !(speculate(s, gate).0 is QOp),
    ensures
        speculate(s, gate).0 == Tok::Gate(gate),
        raw_tokens(speculate(s, gate).1, n) == raw_tokens(s, n),
        speculate(s, gate).1.same_frame(s),
{
    let (t1, s1) = raw_next(s);
    let (t2, s2) = raw_next(s1);
    let (t3, s3) = raw_next(s2);
    let (t4, s4) = raw_next(s3);
    let u3 = s4.unread(t4);
    let u2 = u3.unread(t3);
    let u1 = u2.unread(t2);
    let r = u1.unread(t1);
    lemma_speculate(s, gate);
    lemma_read_after_unread(s4, t4);
    lemma_read_after_unread(u3, t3);
    lemma_read_after_unread(u2, t2);
    lemma_read_after_unread(u1, t1);
    assert(speculate(s, gate).1 == r);
    if n >= 1 {
        assert(raw_tokens(r, n) == seq![t1] + raw_tokens(u1, (n - 1) as nat));
        assert(raw_tokens(s, n) == seq![t1] + raw_tokens(s1, (n - 1) as nat));
        if n >= 2 {
            assert(raw_tokens(u1, (n - 1) as nat) == seq![t2] + raw_tokens(u2, (n - 2) as nat));
            assert(raw_tokens(s1, (n - 1) as nat) == seq![t2] + raw_tokens(s2, (n - 2) as nat));
            if n >= 3 {
                assert(raw_tokens(u2, (n - 2) as nat) == seq![t3] + raw_tokens(
                    u3,
                    (n - 3) as nat,
                ));
                assert(raw_tokens(s2, (n - 2) as nat) == seq![t3] + raw_tokens(
                    s3,
                    (n - 3) as nat,
                ));
                if n >= 4 {
                    assert(raw_tokens(u3, (n - 3) as nat) == seq![t4] + raw_tokens(
                        s4,
                        (n - 4) as nat,
                    ));
                    assert(raw_tokens(s3, (n - 3) as nat) == seq![t4] + raw_tokens(
                        s4,
                        (n - 4) as nat,
                    ));
                }
            }
        }
    }
}

/// Two states are read alike when the same raw tokens are read from both,
/// however many, and both hold the same mode and the same pending buffer.
/// Cursor, source text and pushback queue may differ.
pub open spec fn reads_alike(a: LexState, b: LexState) -> bool {
    &&& a.wf()
    &&& b.wf()
    &&& a.pe == b.pe
    &&& a.pending == b.pending
    &&& forall|n: nat| #[trigger] raw_tokens(a, n) == raw_tokens(b, n)
}

/// This state with another mode and another pending buffer.
pub open spec fn reframed(s: LexState, pe: bool, pending: Seq<Tok>) -> LexState {
    LexState { pe, pending, ..s }
}

/// The raw tokens that are read depend neither on the mode nor on the
/// pending buffer.
proof fn lemma_raw_tokens_ignore_frame(s: LexState, pe: bool, pending: Seq<Tok>, n: nat)
    ensures
        raw_tokens(reframed(s, pe, pending), n) == raw_tokens(s, n),
    decreases n,
{
    if n > 0 {
        assert(raw_next(reframed(s, pe, pending)) == (
            raw_next(s).0,
            reframed(raw_next(s).1, pe, pending),
        ));
        lemma_raw_tokens_ignore_frame(raw_next(s).1, pe, pending, (n - 1) as nat);
    }
}

/// States that are read alike stay so under a common change of mode and
/// pending buffer.
proof fn lemma_reframed_alike(a: LexState, b: LexState, pe: bool, pending: Seq<Tok>)
    requires
        reads_alike(a, b),
        reframed(a, pe, pending).wf(),
    ensures
        reads_alike(reframed(a, pe, pending), reframed(b, pe, pending)),
{
    assert forall|n: nat| #[trigger]
        raw_tokens(reframed(a, pe, pending), n) == raw_tokens(reframed(b, pe, pending), n) by {
        lemma_raw_tokens_ignore_frame(a, pe, pending, n);
        lemma_raw_tokens_ignore_frame(b, pe, pending, n);
        assert(raw_tokens(a, n) == raw_tokens(b, n));
    }
}

/// One raw read from states that are read alike gives the same token and
/// states that are read alike.
proof fn lemma_raw_next_alike(a: LexState, b: LexState)
    requires
        reads_alike(a, b),
    ensures
        raw_next(a).0 == raw_next(b).0,
        reads_alike(raw_next(a).1, raw_next(b).1),
{
    lemma_raw_next(a);
    lemma_raw_next(b);
    let (ta, a1) = raw_next(a);
    let (tb, b1) = raw_next(b);
    assert(raw_tokens(a, 1) == raw_tokens(b, 1));
    assert(raw_tokens(a, 1)[0] == ta);
    assert(raw_tokens(b, 1)[0] == tb);
    assert forall|n: nat| #[trigger] raw_tokens(a1, n) == raw_tokens(b1, n) by {
        let m = (n + 1) as nat;
        assert(raw_tokens(a, m) == raw_tokens(b, m));
        assert(raw_tokens(a, m).drop_first() =~= raw_tokens(a1, n));
        assert(raw_tokens(b, m).drop_first() =~= raw_tokens(b1, n));
    }
}

/// Putting one token back into states that are read alike leaves them so.
proof fn lemma_unread_alike(a: LexState, b: LexState, t: Tok)
    requires
        reads_alike(a, b),
        a.pushback.len() <= 4,
        b.pushback.len() <= 4,
        !(t is EOF),
    ensures
        reads_alike(a.unread(t), b.unread(t)),
{
    lemma_unread(a, t);
    lemma_unread(b, t);
    lemma_read_after_unread(a, t);
    lemma_read_after_unread(b, t);
    assert forall|n: nat| #[trigger] raw_tokens(a.unread(t), n) == raw_tokens(b.unread(t), n) by {
        if n > 0 {
            assert(raw_tokens(a, (n - 1) as nat) == raw_tokens(b, (n - 1) as nat));
        }
    }
}

/// Speculative recognition in states that are read alike gives the same
/// token and states that are read alike.
proof fn lemma_speculate_alike(a: LexState, b: LexState, gate: Seq<char>)
    requires
        reads_alike(a, b),
    ensures
        speculate(a, gate).0 == speculate(b, gate).0,
        reads_alike(speculate(a, gate).1, speculate(b, gate).1),
{
    lemma_speculate(a, gate);
    lemma_speculate(b, gate);
    let (t1, a1) = raw_next(a);
    let (t2, a2) = raw_next(a1);
    let (t3, a3) = raw_next(a2);
    let (t4, a4) = raw_next(a3);
    let b1 = raw_next(b).1;
    let b2 = raw_next(b1).1;
    let b3 = raw_next(b2).1;
    lemma_raw_next_alike(a, b);
    lemma_raw_next_alike(a1, b1);
    lemma_raw_next_alike(a2, b2);
    lemma_raw_next_alike(a3, b3);
    if !is_call_pattern(t1, t2, t3, t4) {
        let ra = speculate(a, gate).1;
        let rb = speculate(b, gate).1;
        assert forall|n: nat| #[trigger] raw_tokens(ra, n) == raw_tokens(rb, n) by {
            lemma_failed_lookahead_is_undone(a, gate, n);
            lemma_failed_lookahead_is_undone(b, gate, n);
            assert(raw_tokens(a, n) == raw_tokens(b, n));
        }
    }
}

/// A raw read with a gate call attempted, in states that are read alike,
/// gives the same token and states that are read alike.
proof fn lemma_raw_or_qop_alike(a: LexState, b: LexState)
    requires
        reads_alike(a, b),
    ensures
        raw_or_qop(a).0 == raw_or_qop(b).0,
        reads_alike(raw_or_qop(a).1, raw_or_qop(b).1),
{
    lemma_raw_next_alike(a, b);
    let (t, a1) = raw_next(a);
    if t is Gate {
        lemma_speculate_alike(a1, raw_next(b).1, t->Gate_0);
    }
}

/// A buffering session in states that are read alike ends in states that
/// are read alike.
proof fn lemma_session_alike(a: LexState, b: LexState)
    requires
        reads_alike(a, b),
    ensures
        reads_alike(session(a), session(b)),
    decreases a.weight(),
{
    lemma_raw_or_qop(a);
    lemma_raw_or_qop(b);
    lemma_raw_or_qop_alike(a, b);
    lemma_live_bounds(a.pushback);
    let (t, a1) = raw_or_qop(a);
    let b1 = raw_or_qop(b).1;
    lemma_live_bounds(a1.pushback);
    if t is QOp && a1.pe {
        lemma_buffered(a1, t);
        lemma_reframed_alike(a1, b1, a1.pe, a1.buffered(t).pending);
        assert(reframed(a1, a1.pe, a1.buffered(t).pending) == a1.buffered(t));
        assert(reframed(b1, a1.pe, a1.buffered(t).pending) == b1.buffered(t));
        lemma_session_alike(a1.buffered(t), b1.buffered(t));
    } else if t is Attr {
        let m = a1.with_pragma(t->Attr_0);
        assert(reframed(a1, m.pe, a1.pending) == m);
        assert(reframed(b1, m.pe, a1.pending) == b1.with_pragma(t->Attr_0));
        lemma_reframed_alike(a1, b1, m.pe, a1.pending);
        lemma_session_alike(m, b1.with_pragma(t->Attr_0));
    } else if t is EOF {
    } else {
        lemma_unread_alike(a1, b1, t);
    }
}

/// Production in states that are read alike gives the same token and
/// states that are read alike.
proof fn lemma_produce_alike(a: LexState, b: LexState)
    requires
        reads_alike(a, b),
        a.pending.len() == 0,
    ensures
        produce(a).0 == produce(b).0,
        reads_alike(produce(a).1, produce(b).1),
    decreases a.weight(),
{
    lemma_raw_next(a);
    lemma_raw_next(b);
    lemma_raw_next_alike(a, b);
    lemma_live_bounds(a.pushback);
    let (t0, a1) = raw_next(a);
    let b1 = raw_next(b).1;
    lemma_live_bounds(a1.pushback);
    if t0 is Attr {
        let m = a1.with_pragma(t0->Attr_0);
        assert(reframed(a1, m.pe, a1.pending) == m);
        assert(reframed(b1, m.pe, a1.pending) == b1.with_pragma(t0->Attr_0));
        lemma_reframed_alike(a1, b1, m.pe, a1.pending);
        lemma_produce_alike(m, b1.with_pragma(t0->Attr_0));
    } else if t0 is Gate {
        lemma_speculate(a1, t0->Gate_0);
        lemma_speculate(b1, t0->Gate_0);
        lemma_speculate_alike(a1, b1, t0->Gate_0);
        let (first, a2) = speculate(a1, t0->Gate_0);
        let b2 = speculate(b1, t0->Gate_0).1;
        if first is QOp && a2.pe {
            lemma_buffered(a2, first);
            lemma_reframed_alike(a2, b2, a2.pe, a2.buffered(first).pending);
            assert(reframed(a2, a2.pe, a2.buffered(first).pending) == a2.buffered(first));
            assert(reframed(b2, a2.pe, a2.buffered(first).pending) == b2.buffered(first));
            lemma_session(a2.buffered(first));
            lemma_session(b2.buffered(first));
            lemma_session_alike(a2.buffered(first), b2.buffered(first));
            let a3 = session(a2.buffered(first));
            let b3 = session(b2.buffered(first));
            lemma_live_bounds(a3.pushback);
            if a3.pending.len() > 0 {
                lemma_popped_alike(a3, b3);
            } else {
                lemma_produce_alike(a3, b3);
            }
        }
    }
}

/// Handing out the oldest pending operation leaves states that are read
/// alike so.
proof fn lemma_popped_alike(a: LexState, b: LexState)
    requires
        reads_alike(a, b),
        a.pending.len() > 0,
    ensures
        reads_alike(a.popped(), b.popped()),
{
    lemma_popped(a);
    assert(reframed(a, a.pe, a.popped().pending) == a.popped());
    assert(reframed(b, a.pe, a.popped().pending) == b.popped());
    lemma_reframed_alike(a, b, a.pe, a.popped().pending);
}

/// What a lexer hands out depends on its source only through the raw tokens
/// that are read: lexers in states that are read alike hand out the same
/// tokens, however many.
pub proof fn lemma_alike_states_hand_out_alike(a: LexState, b: LexState, n: nat)
    requires
        reads_alike(a, b),
    ensures
        handed_out(a, n) == handed_out(b, n),
    decreases n,
{
    if n > 0 {
        if a.pending.len() > 0 {
            lemma_popped_alike(a, b);
        } else {
            lemma_produce_alike(a, b);
        }
        lemma_alike_states_hand_out_alike(next_token(a).1, next_token(b).1, (n - 1) as nat);
    }
}

/// Lookahead that fails leaves no trace. Behind a gate name that the call
/// pattern does not follow, the lexer hands out the tokens that it would
/// hand out had the four tokens of the lookahead never been read: the same
/// tokens in the same order, however many.
pub proof fn lemma_failed_lookahead_leaves_no_trace(s: LexState, gate: Seq<char>, n: nat)
    requires
        s.wf(),
        !(speculate(s, gate).0 is QOp),
    ensures
        speculate(s, gate).0 == Tok::Gate(gate),
        handed_out(speculate(s, gate).1, n) == handed_out(s, n),
{
    lemma_speculate(s, gate);
    let r = speculate(s, gate).1;
    assert forall|m: nat| #[trigger] raw_tokens(r, m) == raw_tokens(s, m) by {
        lemma_failed_lookahead_is_undone(s, gate, m);
    }
    lemma_alike_states_hand_out_alike(r, s, n);
}

} // verus!
