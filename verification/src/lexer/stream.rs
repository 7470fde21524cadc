use super::annotate::mode_after;
use super::model::{lemma_run_end_bounds, lemma_scan_advances, raw_next, CharClass, LexState};
use super::quantum::{cancels, lemma_reduced_is_irreducible, reduced};
use super::token::Tok;
use vstd::prelude::*;

verus! {

/// The number of tokens in `q` other than end-of-stream sentinels.
pub open spec fn live(q: Seq<Tok>) -> int
    decreases q.len(),
{
    if q.len() == 0 {
        0
    } else {
        live(q.drop_first()) + if q[0] is EOF {
            0int
        } else {
            1int
        }
    }
}

impl LexState {
    /// A bound on the raw tokens, other than end-of-stream sentinels, that
    /// can still be read.
    pub open spec fn weight(self) -> int {
        self.src.len() - self.pos + live(self.pushback)
    }

    /// A bound on the tokens, other than end-of-stream sentinels, that can
    /// still be handed out.
    pub open spec fn total(self) -> int {
        self.weight() + self.pending.len()
    }

    /// No raw token is left: every further raw read gives the end-of-stream
    /// sentinel.
    pub open spec fn drained(self) -> bool {
        &&& self.source_spent()
        &&& forall|i: int| 0 <= i < self.pushback.len() ==> #[trigger] self.pushback[i] is EOF
    }

    /// No token is left: every further request gives the end-of-stream
    /// sentinel.
    pub open spec fn finished(self) -> bool {
        self.drained() && self.pending.len() == 0
    }

    /// This state with `t` added to the pending buffer and the buffer
    /// reduced.
    pub open spec fn buffered(self, t: Tok) -> LexState {
        LexState { pending: reduced(self.pending.push(t)), ..self }
    }

    /// This state after a pragma named `name` has been applied.
    pub open spec fn with_pragma(self, name: Seq<char>) -> LexState {
        LexState { pe: mode_after(self.pe, name), ..self }
    }

    /// This state without the first entry of its pending buffer.
    pub open spec fn popped(self) -> LexState {
        LexState { pending: self.pending.drop_first(), ..self }
    }

    /// This state with `p` for its pending buffer.
    pub open spec fn with_pending(self, p: Seq<Tok>) -> LexState {
        LexState { pending: p, ..self }
    }

    /// Two states differ at most in cursor and pushback queue.
    pub open spec fn same_frame(self, other: LexState) -> bool {
        self.src == other.src && self.pe == other.pe && self.pending == other.pending
    }
}

/// Whether four raw tokens are the call pattern `(` identifier `)` `;`.
pub open spec fn is_call_pattern(t1: Tok, t2: Tok, t3: Tok, t4: Tok) -> bool {
    t1 is LParen && t2 is Ident && t3 is RParen && t4 is Semicolon
}

/// Speculative recognition of a gate call behind a gate name, `gate`. The
/// next four raw tokens are read. If they are the call pattern, the result
/// is one quantum operation with that gate and the target identifier. If not,
/// the four tokens are put back in their order and the result is the bare
/// gate name.
pub open spec fn speculate(s: LexState, gate: Seq<char>) -> (Tok, LexState) {
    let (t1, s1) = raw_next(s);
    let (t2, s2) = raw_next(s1);
    let (t3, s3) = raw_next(s2);
    let (t4, s4) = raw_next(s3);
    if is_call_pattern(t1, t2, t3, t4) {
        (Tok::QOp { gate, target: t2->Ident_0 }, s4)
    } else {
        (Tok::Gate(gate), s4.unread(t4).unread(t3).unread(t2).unread(t1))
    }
}

/// Reads one raw token and, behind a gate name, attempts a gate call.
pub open spec fn raw_or_qop(s: LexState) -> (Tok, LexState) {
    let (t, s1) = raw_next(s);
    if t is Gate {
        speculate(s1, t->Gate_0)
    } else {
        (t, s1)
    }
}

/// The rest of a buffering session. Quantum operations that arrive while
/// partial evaluation is on join the pending buffer, which is reduced after
/// each; pragmas are applied on the way. The first token that is neither
/// ends the session and is put back, unless it is the end-of-stream
/// sentinel.
pub open spec fn session(s: LexState) -> LexState
    decreases s.weight(),
    when s.wf()
    via session_decreases
{
    let (t, s1) = raw_or_qop(s);
    if t is QOp && s1.pe {
        session(s1.buffered(t))
    } else if t is Attr {
        session(s1.with_pragma(t->Attr_0))
    } else if t is EOF {
        s1
    } else {
        s1.unread(t)
    }
}

/// The next token when the pending buffer is empty, and the state behind
/// it. Pragmas are applied and passed over. A gate call met while partial
/// evaluation is on opens a buffering session, after which the oldest
/// pending operation is handed out; if the session left none, production
/// goes on. Every other token is handed out as it is.
pub open spec fn produce(s: LexState) -> (Tok, LexState)
    decreases s.weight(),
    when s.wf()
    via produce_decreases
{
    let (t0, s1) = raw_next(s);
    if t0 is Attr {
        produce(s1.with_pragma(t0->Attr_0))
    } else if t0 is Gate {
        let (first, s2) = speculate(s1, t0->Gate_0);
        if first is QOp && s2.pe {
            let s3 = session(s2.buffered(first));
            if s3.pending.len() > 0 {
                (s3.pending[0], s3.popped())
            } else {
                produce(s3)
            }
        } else {
            (first, s2)
        }
    } else {
        (t0, s1)
    }
}

/// The next token and the state behind it: the oldest pending operation if
/// there is one, else what production gives.
pub open spec fn next_token(s: LexState) -> (Tok, LexState) {
    if s.pending.len() > 0 {
        (s.pending[0], s.popped())
    } else {
        produce(s)
    }
}

/// A queue holds no more live tokens than tokens, and none if it holds
/// end-of-stream sentinels only.
pub proof fn lemma_live_bounds(q: Seq<Tok>)
    ensures
        0 <= live(q) <= q.len(),
        (forall|i: int| 0 <= i < q.len() ==> #[trigger] q[i] is EOF) ==> live(q) == 0,
    decreases q.len(),
{
    if q.len() > 0 {
        lemma_live_bounds(q.drop_first());
        assert(forall|i: int| 0 <= i < q.drop_first().len() ==> q.drop_first()[i] == q[i + 1]);
    }
}

/// What one raw read does to a well-formed state.
pub proof fn lemma_raw_next(s: LexState)
    requires
        s.wf(),
    ensures
        raw_next(s).1.wf(),
        raw_next(s).1.same_frame(s),
        raw_next(s).1.weight() <= s.weight(),
        !(raw_next(s).0 is EOF) ==> raw_next(s).1.weight() < s.weight(),
        raw_next(s).0 is EOF ==> raw_next(s).1.drained(),
        s.drained() ==> raw_next(s).0 is EOF,
        raw_next(s).1.pushback.len() == if s.pushback.len() > 0 {
            s.pushback.len() - 1
        } else {
            0
        },
{
    let (t, s1) = raw_next(s);
    if s.pushback.len() > 0 {
        assert(forall|i: int| 0 <= i < s1.pushback.len() ==> s1.pushback[i] == s.pushback[i + 1]);
        if t is EOF {
            assert(s.pushback[0] is EOF);
        }
    } else {
        lemma_scan_advances(s.src, s.pos);
        lemma_run_end_bounds(s.src, s1.pos, CharClass::Blank);
    }
}

/// What putting a token back does to a well-formed state.
pub proof fn lemma_unread(u: LexState, t: Tok)
    requires
        u.wf(),
        u.pushback.len() <= 4,
        t is EOF ==> u.drained(),
    ensures
        u.unread(t).wf(),
        u.unread(t).same_frame(u),
        u.unread(t).pos == u.pos,
        u.unread(t).pushback.len() == u.pushback.len() + 1,
        u.unread(t).weight() == u.weight() + if t is EOF {
            0int
        } else {
            1int
        },
        t is EOF ==> u.unread(t).drained(),
{
    let v = u.unread(t);
    assert(v.pushback.drop_first() =~= u.pushback);
    assert(forall|i: int| 1 <= i < v.pushback.len() ==> v.pushback[i] == u.pushback[i - 1]);
    assert forall|i: int, j: int|
        0 <= i <= j < v.pushback.len() && #[trigger] v.pushback[i] is EOF implies #[trigger] v.pushback[j] is EOF by {
        if i == 0 {
            if j > 0 {
                assert(u.pushback[j - 1] is EOF);
            }
        } else {
            assert(u.pushback[i - 1] is EOF);
            assert(u.pushback[j - 1] is EOF);
        }
    }
    assert forall|i: int| 0 <= i < v.pushback.len() && #[trigger] v.pushback[i] is EOF implies v.source_spent() by {
        if i > 0 {
            assert(u.pushback[i - 1] is EOF);
        }
    }
    if t is EOF {
        assert forall|i: int| 0 <= i < v.pushback.len() implies #[trigger] v.pushback[i] is EOF by {
            if i > 0 {
                assert(u.pushback[i - 1] is EOF);
            }
        }
    }
}

/// What speculative recognition does to a well-formed state.
pub proof fn lemma_speculate(s: LexState, gate: Seq<char>)
    requires
        s.wf(),
    ensures
        speculate(s, gate).1.wf(),
        speculate(s, gate).1.same_frame(s),
        speculate(s, gate).1.weight() <= s.weight(),
        speculate(s, gate).0 is QOp || speculate(s, gate).0 == Tok::Gate(gate),
        speculate(s, gate).0 is QOp ==> speculate(s, gate).1.weight() < s.weight()
            && speculate(s, gate).0->gate == gate && speculate(s, gate).1.pushback.len() <= 1,
        !(speculate(s, gate).0 is QOp) ==> speculate(s, gate).1.pushback.len() == if s.pushback.len()
            > 4 {
            s.pushback.len()
        } else {
            4
        },
{
    let (t1, s1) = raw_next(s);
    let (t2, s2) = raw_next(s1);
    let (t3, s3) = raw_next(s2);
    let (t4, s4) = raw_next(s3);
    lemma_raw_next(s);
    lemma_raw_next(s1);
    lemma_raw_next(s2);
    lemma_raw_next(s3);
    if !is_call_pattern(t1, t2, t3, t4) {
        lemma_raw_next(s4);
        let u3 = s4.unread(t4);
        lemma_unread(s4, t4);
        let u2 = u3.unread(t3);
        lemma_unread(u3, t3);
        let u1 = u2.unread(t2);
        lemma_unread(u2, t2);
        lemma_unread(u1, t1);
    }
}

/// What reading a raw token, with a gate call attempted, does to a
/// well-formed state.
pub proof fn lemma_raw_or_qop(s: LexState)
    requires
        s.wf(),
    ensures
        raw_or_qop(s).1.wf(),
        raw_or_qop(s).1.same_frame(s),
        raw_or_qop(s).1.weight() <= s.weight(),
        !(raw_or_qop(s).0 is EOF) ==> raw_or_qop(s).1.weight() < s.weight(),
        raw_or_qop(s).0 is EOF ==> raw_or_qop(s).1.drained(),
        raw_or_qop(s).1.pushback.len() <= 4,
{
    let (t, s1) = raw_next(s);
    lemma_raw_next(s);
    if t is Gate {
        lemma_speculate(s1, t->Gate_0);
    }
}

/// Every entry of a reduction is a quantum operation if every entry of the
/// sequence is, and a reduction is no longer than the sequence.
pub proof fn lemma_reduced_keeps_kind(q: Seq<Tok>)
    ensures
        reduced(q).len() <= q.len(),
        (forall|i: int| 0 <= i < q.len() ==> #[trigger] q[i] is QOp) ==> (forall|i: int|
            0 <= i < reduced(q).len() ==> #[trigger] reduced(q)[i] is QOp),
    decreases q.len(),
{
    if q.len() > 0 {
        lemma_reduced_keeps_kind(q.drop_last());
        if forall|i: int| 0 <= i < q.len() ==> #[trigger] q[i] is QOp {
            assert(forall|i: int| 0 <= i < q.drop_last().len() ==> q.drop_last()[i] == q[i]);
            assert(q.last() is QOp);
        }
    }
}

/// What buffering a quantum operation does to a well-formed state.
pub proof fn lemma_buffered(s: LexState, t: Tok)
    requires
        s.wf(),
        t is QOp,
    ensures
        s.buffered(t).wf(),
        s.buffered(t).weight() == s.weight(),
        s.buffered(t).pending.len() <= s.pending.len() + 1,
        s.buffered(t).drained() == s.drained(),
{
    lemma_reduced_keeps_kind(s.pending.push(t));
    lemma_reduced_is_irreducible(s.pending.push(t));
}

/// What handing out the oldest pending operation does to a well-formed
/// state.
pub proof fn lemma_popped(s: LexState)
    requires
        s.wf(),
        s.pending.len() > 0,
    ensures
        s.popped().wf(),
        s.pending[0] is QOp,
        s.popped().total() == s.total() - 1,
        s.popped().src == s.src,
{
    let q = s.popped().pending;
    assert(forall|i: int| 0 <= i < q.len() ==> q[i] == s.pending[i + 1]);
    assert forall|j: int| 0 <= j && j + 1 < q.len() implies !cancels(#[trigger] q[j], q[j + 1]) by {
        assert(!cancels(s.pending[j + 1], s.pending[j + 1 + 1]));
    }
}

/// Each step of a buffering session reads a token, so the weight falls.
#[via_fn]
proof fn session_decreases(s: LexState) {
    lemma_raw_or_qop(s);
    let (t, s1) = raw_or_qop(s);
    if t is QOp && s1.pe {
        lemma_buffered(s1, t);
    }
    lemma_live_bounds(s.pushback);
    lemma_live_bounds(s1.pushback);
}

/// What a buffering session does to a well-formed state.
pub proof fn lemma_session(s: LexState)
    requires
        s.wf(),
    ensures
        session(s).wf(),
        session(s).src == s.src,
        session(s).weight() <= s.weight(),
        session(s).total() <= s.total(),
    decreases s.weight(),
{
    lemma_raw_or_qop(s);
    lemma_live_bounds(s.pushback);
    let (t, s1) = raw_or_qop(s);
    lemma_live_bounds(s1.pushback);
    if t is QOp && s1.pe {
        lemma_buffered(s1, t);
        lemma_session(s1.buffered(t));
    } else if t is Attr {
        lemma_session(s1.with_pragma(t->Attr_0));
    } else if t is EOF {
    } else {
        lemma_unread(s1, t);
    }
}

/// Production goes on only behind a pragma or a session that read tokens,
/// so the weight falls.
#[via_fn]
proof fn produce_decreases(s: LexState) {
    lemma_raw_next(s);
    lemma_live_bounds(s.pushback);
    let (t0, s1) = raw_next(s);
    lemma_live_bounds(s1.pushback);
    if t0 is Gate {
        lemma_speculate(s1, t0->Gate_0);
        let (first, s2) = speculate(s1, t0->Gate_0);
        if first is QOp && s2.pe {
            lemma_buffered(s2, first);
            lemma_session(s2.buffered(first));
            lemma_live_bounds(session(s2.buffered(first)).pushback);
        }
    }
}

/// What production does to a well-formed state with an empty pending
/// buffer. The token is never a pragma; it is the end-of-stream sentinel
/// exactly when nothing is left.
pub proof fn lemma_produce(s: LexState)
    requires
        s.wf(),
        s.pending.len() == 0,
    ensures
        produce(s).1.wf(),
        produce(s).1.src == s.src,
        produce(s).1.total() <= s.total(),
        !(produce(s).0 is EOF) ==> produce(s).1.total() < s.total(),
        produce(s).0 is EOF ==> produce(s).1.finished(),
        s.finished() ==> produce(s).0 is EOF,
        !(produce(s).0 is Attr),
    decreases s.weight(),
{
    lemma_raw_next(s);
    lemma_live_bounds(s.pushback);
    let (t0, s1) = raw_next(s);
    lemma_live_bounds(s1.pushback);
    if t0 is Attr {
        lemma_produce(s1.with_pragma(t0->Attr_0));
    } else if t0 is Gate {
        lemma_speculate(s1, t0->Gate_0);
        let (first, s2) = speculate(s1, t0->Gate_0);
        if first is QOp && s2.pe {
            lemma_buffered(s2, first);
            let s3 = session(s2.buffered(first));
            lemma_session(s2.buffered(first));
            lemma_live_bounds(s3.pushback);
            if s3.pending.len() > 0 {
                lemma_popped(s3);
            } else {
                lemma_produce(s3);
            }
        }
    }
}

/// What handing out one token does to a well-formed state. The token is
/// never a pragma; it is the end-of-stream sentinel exactly when nothing is
/// left, and then nothing is left afterwards either.
pub proof fn lemma_next_token(s: LexState)
    requires
        s.wf(),
    ensures
        next_token(s).1.wf(),
        next_token(s).1.src == s.src,
        next_token(s).1.total() <= s.total(),
        !(next_token(s).0 is EOF) ==> next_token(s).1.total() < s.total(),
        next_token(s).0 is EOF ==> next_token(s).1.finished(),
        s.finished() ==> next_token(s).0 is EOF,
        !(next_token(s).0 is Attr),
{
    if s.pending.len() > 0 {
        lemma_popped(s);
    } else {
        lemma_produce(s);
    }
}

/// Once the end-of-stream sentinel has been handed out, every further
/// request gives it again.
pub proof fn lemma_end_of_stream_repeats(s: LexState)
    requires
        s.wf(),
        next_token(s).0 is EOF,
    ensures
        next_token(next_token(s).1).0 is EOF,
{
    lemma_next_token(s);
    lemma_next_token(next_token(s).1);
}

/// A token as a lexer hands it out, with the partial-evaluation mode that
/// the lexer is in once it has handed the token out.
pub struct Lexeme {
    pub tok: Tok,
    pub pe: bool,
}

/// The tokens that a lexer in state `s` hands out before the end-of-stream
/// sentinel.
#[verifier::opaque]
pub open spec fn stream(s: LexState) -> Seq<Lexeme>
    decreases s.total(),
    when s.wf()
    via stream_decreases
{
    let (t, s1) = next_token(s);
    if t is EOF {
        Seq::empty()
    } else {
        seq![Lexeme { tok: t, pe: s1.pe }] + stream(s1)
    }
}

/// Each token that is handed out leaves fewer to come.
#[via_fn]
proof fn stream_decreases(s: LexState) {
    lemma_next_token(s);
    lemma_live_bounds(s.pushback);
    lemma_live_bounds(next_token(s).1.pushback);
}

/// The stream is empty behind the end-of-stream sentinel; else it is the
/// next token, with the mode behind it, and the stream of the state behind
/// that token.
pub proof fn lemma_stream_unfolds(s: LexState)
    requires
        s.wf(),
    ensures
        stream(s) == if next_token(s).0 is EOF {
            Seq::<Lexeme>::empty()
        } else {
            seq![Lexeme { tok: next_token(s).0, pe: next_token(s).1.pe }] + stream(next_token(s).1)
        },
{
    reveal_with_fuel(stream, 1);
    lemma_next_token(s);
}

/// No pragma and no end-of-stream sentinel stands in the stream of tokens
/// that a lexer hands out.
pub proof fn lemma_stream_holds_no_pragma(s: LexState)
    requires
        s.wf(),
    ensures
        forall|i: int|
            0 <= i < stream(s).len() ==> !((#[trigger] stream(s)[i]).tok is Attr) && !(stream(
                s,
            )[i].tok is EOF),
    decreases s.total(),
{
    reveal(stream);
    lemma_next_token(s);
    let (t, s1) = next_token(s);
    lemma_live_bounds(s.pushback);
    lemma_live_bounds(s1.pushback);
    if !(t is EOF) {
        lemma_stream_holds_no_pragma(s1);
    }
}

} // verus!
