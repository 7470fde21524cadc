pub mod annotate;
pub mod classical;
pub mod laws;
pub mod model;
pub mod quantum;
pub mod stream;
pub mod text;
pub mod token;

pub use token::Token;

use annotate::Annotation;
use model::{lead_of, punct_token, raw_next, run_end, scan_at, CharClass, Lead, LexState};
use quantum::{quantum_reduce, views};
use stream::{next_token, produce, raw_or_qop, session, speculate};
use token::Tok;
use vstd::prelude::*;

verus! {

/// A lexer over one source text. It hands out tokens one at a time, applies
/// pragmas as it meets them, and buffers and cancels quantum operations
/// while partial evaluation is switched on.
pub struct Lexer {
    src: Vec<char>,
    pos: usize,
    /// Whether partial evaluation is switched on.
    pub pe_enabled: bool,
    gate_buffer: Vec<Token>,
    unread: Vec<Token>,
}

impl View for Lexer {
    type V = LexState;

    closed spec fn view(&self) -> LexState {
        LexState {
            src: self.src@,
            pos: self.pos as int,
            pe: self.pe_enabled,
            pending: views(self.gate_buffer@),
            pushback: views(self.unread@),
        }
    }
}

/// What the character `c` announces at the start of a token, where
/// `alphanumeric` says whether `c` is a letter or a number.
pub fn classify_lead(c: char, alphanumeric: bool) -> (k: Lead)
    ensures
        k == lead_of(c, alphanumeric),
{
    if c == '#' {
        Lead::Pragma
    } else if text::is_ascii_digit(c) {
        Lead::Number
    } else if alphanumeric || c == '_' {
        Lead::Word
    } else {
        Lead::Punct
    }
}

/// The token that a single character outside words, numbers and pragmas
/// stands for, where `next_is_gt` says whether `>` follows it.
pub fn punctuation(c: char, next_is_gt: bool) -> (t: Token)
    ensures
        t@ == punct_token(c, next_is_gt),
{
    if c == '(' {
        Token::LParen
    } else if c == ')' {
        Token::RParen
    } else if c == '{' {
        Token::LBrace
    } else if c == '}' {
        Token::RBrace
    } else if c == '+' {
        Token::Plus
    } else if c == '*' {
        Token::Star
    } else if c == '/' {
        Token::Slash
    } else if c == ',' {
        Token::Comma
    } else if c == ';' {
        Token::Semicolon
    } else if c == '-' {
        if next_is_gt {
            Token::Arrow
        } else {
            Token::Minus
        }
    } else if c == '=' {
        Token::Assign
    } else {
        let mut s = String::new();
        s.push(c);
        assert(s@ == seq![c]);
        Token::Unknown(s)
    }
}

impl Lexer {
    /// A lexer at the start of `input`, with partial evaluation switched on
    /// and nothing buffered.
    pub fn new(input: &str) -> (lex: Lexer)
        ensures
            lex@ == (LexState {
                src: input@,
                pos: 0,
                pe: true,
                pending: Seq::empty(),
                pushback: Seq::empty(),
            }),
            lex@.wf(),
    {
        let mut src: Vec<char> = Vec::new();
        for c in it: input.chars()
            invariant
                src@ == it.seq().take(it.index()),
                it.seq() == input@,
        {
            src.push(c);
        }
        let lex = Lexer {
            src,
            pos: 0,
            pe_enabled: true,
            gate_buffer: Vec::new(),
            unread: Vec::new(),
        };
        assert(lex@.src == input@);
        assert(lex@.pending =~= Seq::<Tok>::empty());
        assert(lex@.pushback =~= Seq::<Tok>::empty());
        lex
    }

    /// Whether partial evaluation is switched on.
    pub fn pe(&self) -> (r: bool)
        ensures
            r == self@.pe,
    {
        self.pe_enabled
    }

    /// The character under the cursor, if any is left.
    pub fn peek(&self) -> (r: Option<char>)
        ensures
            r == self@.peek(),
    {
        if self.pos < self.src.len() {
            Some(self.src[self.pos])
        } else {
            None
        }
    }

    /// Hands out the character under the cursor and moves the cursor over
    /// it; at the end of the text nothing changes.
    pub fn next_char(&mut self) -> (r: Option<char>)
        ensures
            r == old(self)@.peek(),
            final(self)@ == old(self)@.advanced(),
    {
        if self.pos < self.src.len() {
            let ch = self.src[self.pos];
            self.pos += 1;
            Some(ch)
        } else {
            None
        }
    }

    /// Moves the cursor over the whitespace in front of it.
    fn skip_ws(&mut self)
        requires
            old(self)@.in_bounds(),
        ensures
            final(self)@ == old(self)@.at(run_end(old(self)@.src, old(self)@.pos, CharClass::Blank)),
            final(self)@.in_bounds(),
    {
        while self.pos < self.src.len() && self.src[self.pos].is_whitespace()
            invariant
                self@.in_bounds(),
                self@ == old(self)@.at(self@.pos),
                run_end(self@.src, self@.pos, CharClass::Blank) == run_end(
                    old(self)@.src,
                    old(self)@.pos,
                    CharClass::Blank,
                ),
            decreases self@.src.len() - self@.pos,
        {
            self.pos += 1;
        }
    }

    /// Puts `t` back in front of the raw tokens to come.
    fn unread_token(&mut self, t: Token)
        ensures
            final(self)@ == old(self)@.unread(t@),
    {
        self.unread.insert(0, t);
        assert(views(self.unread@) =~= seq![t@] + views(old(self).unread@));
    }

    /// Scans a pragma whose `#` has been read: `[`, the name up to `]`, and
    /// the `]` itself if the text holds one. A `#` that no `[` follows is a
    /// token of its own.
    fn scan_pragma(&mut self) -> (t: Token)
        requires
            old(self)@.in_bounds(),
            1 <= old(self)@.pos,
            old(self)@.src[old(self)@.pos - 1] == '#',
        ensures
            (t@, final(self)@) == (
                scan_at(old(self)@.src, old(self)@.pos - 1).0,
                old(self)@.at(scan_at(old(self)@.src, old(self)@.pos - 1).1),
            ),
            final(self)@.in_bounds(),
    {
        if self.pos < self.src.len() && self.src[self.pos] == '[' {
            self.pos += 1;
            let start = self.pos;
            while self.pos < self.src.len() && self.src[self.pos] != ']'
                invariant
                    start <= self.pos <= self.src.len(),
                    self@ == old(self)@.at(self@.pos),
                    run_end(self@.src, self@.pos, CharClass::PragmaPart) == run_end(
                        old(self)@.src,
                        start as int,
                        CharClass::PragmaPart,
                    ),
                decreases self@.src.len() - self@.pos,
            {
                self.pos += 1;
            }
            let end = self.pos;
            if self.pos < self.src.len() {
                self.pos += 1;
            }
            Token::Attr(text::trimmed_text(&self.src, start, end))
        } else {
            let mut s = String::new();
            s.push('#');
            assert(s@ == seq!['#']);
            Token::Unknown(s)
        }
    }

    /// Reads one raw token: the first of the tokens that were put back, if
    /// any, else the next token of the source text.
    fn next_raw_token(&mut self) -> (t: Token)
        requires
            old(self)@.wf(),
        ensures
            (t@, final(self)@) == raw_next(old(self)@),
            final(self)@.wf(),
    {
        if self.unread.len() > 0 {
            let t = self.unread.remove(0);
            assert(views(self.unread@) =~= views(old(self).unread@).drop_first());
            return t;
        }
        self.skip_ws();
        proof {
            model::lemma_scan_advances(old(self)@.src, old(self)@.pos);
        }
        let c = match self.next_char() {
            Some(c) => c,
            None => {
                return Token::EOF;
            },
        };
        match classify_lead(c, c.is_alphanumeric()) {
            Lead::Pragma => self.scan_pragma(),
            Lead::Number => quantum::lex_number(self, c),
            Lead::Word => classical::lex_identifier(self, c),
            Lead::Punct => {
                let next_is_gt = self.peek() == Some('>');
                if next_is_gt && c == '-' {
                    self.next_char();
                }
                punctuation(c, next_is_gt)
            },
        }
    }

    /// Applies the pragma named `name`: a recognised name switches partial
    /// evaluation on or off, any other name changes nothing.
    fn apply_pragma(&mut self, name: &String)
        ensures
            final(self)@ == old(self)@.with_pragma(name@),
    {
        match Annotation::from_str(name.as_str()) {
            Some(a) => {
                self.pe_enabled = a.enables_pe();
            },
            None => {},
        }
    }

    /// Adds the quantum operation `t` to the pending buffer and reduces the
    /// buffer.
    fn buffer_operation(&mut self, t: Token)
        ensures
            final(self)@ == old(self)@.buffered(t@),
    {
        self.gate_buffer.push(t);
        assert(views(self.gate_buffer@) =~= views(old(self).gate_buffer@).push(t@));
        quantum_reduce(&mut self.gate_buffer);
    }

    /// Hands out the oldest entry of the pending buffer.
    fn pop_pending(&mut self) -> (t: Token)
        requires
            old(self)@.pending.len() > 0,
        ensures
            t@ == old(self)@.pending[0],
            final(self)@ == old(self)@.popped(),
    {
        let t = self.gate_buffer.remove(0);
        assert(views(self.gate_buffer@) =~= views(old(self).gate_buffer@).drop_first());
        t
    }

    /// Attempts a gate call behind a gate name, `gname`: reads four raw
    /// tokens and, if they are `(` identifier `)` `;`, gives the quantum
    /// operation; if not, puts the four back in their order and gives the
    /// bare gate name.
    fn read_gate_call_or_gate(&mut self, gname: String) -> (t: Token)
        requires
            old(self)@.wf(),
        ensures
            (t@, final(self)@) == speculate(old(self)@, gname@),
            final(self)@.wf(),
    {
        proof {
            stream::lemma_speculate(self@, gname@);
        }
        let t1 = self.next_raw_token();
        let t2 = self.next_raw_token();
        let t3 = self.next_raw_token();
        let t4 = self.next_raw_token();
        match (t1, t2, t3, t4) {
            (Token::LParen, Token::Ident(qname), Token::RParen, Token::Semicolon) => Token::QOp {
                gate: gname,
                target: qname,
            },
            (t1, t2, t3, t4) => {
                self.unread_token(t4);
                self.unread_token(t3);
                self.unread_token(t2);
                self.unread_token(t1);
                Token::Gate(gname)
            },
        }
    }

    /// Reads one raw token and, behind a gate name, attempts a gate call.
    fn next_raw_or_qop(&mut self) -> (t: Token)
        requires
            old(self)@.wf(),
        ensures
            (t@, final(self)@) == raw_or_qop(old(self)@),
            final(self)@.wf(),
    {
        proof {
            stream::lemma_raw_or_qop(self@);
        }
        let t = self.next_raw_token();
        match t {
            Token::Gate(gname) => self.read_gate_call_or_gate(gname),
            other => other,
        }
    }

    /// Runs a buffering session to its end: quantum operations that arrive
    /// while partial evaluation is on join the pending buffer, pragmas are
    /// applied on the way, and the first token that is neither is put back.
    fn fill_buffer(&mut self)
        requires
            old(self)@.wf(),
        ensures
            final(self)@ == session(old(self)@),
            final(self)@.wf(),
    {
        loop
            invariant_except_break
                self@.wf(),
                session(self@) == session(old(self)@),
            ensures
                self@ == session(old(self)@),
                self@.wf(),
            decreases self@.weight(),
        {
            let ghost before = self@;
            proof {
                stream::lemma_raw_or_qop(before);
                stream::lemma_live_bounds(before.pushback);
            }
            let t = self.next_raw_or_qop();
            proof {
                stream::lemma_live_bounds(self@.pushback);
            }
            match t {
                Token::QOp { gate, target } => {
                    let op = Token::QOp { gate, target };
                    if self.pe_enabled {
                        proof {
                            stream::lemma_buffered(self@, op@);
                        }
                        self.buffer_operation(op);
                    } else {
                        proof {
                            stream::lemma_unread(self@, op@);
                        }
                        self.unread_token(op);
                        break;
                    }
                },
                Token::Attr(name) => {
                    self.apply_pragma(&name);
                },
                Token::EOF => {
                    break;
                },
                other => {
                    proof {
                        stream::lemma_unread(self@, other@);
                    }
                    self.unread_token(other);
                    break;
                },
            }
        }
    }

    /// Hands out the next token. Pending quantum operations come first,
    /// oldest first. Otherwise tokens are read from the source: pragmas are
    /// applied and never handed out; a gate call met while partial
    /// evaluation is on opens a buffering session, in which neighbouring
    /// identical self-inverse operations cancel. At the end of the text the
    /// end-of-stream sentinel is handed out, again on every further request.
    pub fn next_token(&mut self) -> (t: Token)
        requires
            old(self)@.wf(),
        ensures
            (t@, final(self)@) == next_token(old(self)@),
            final(self)@.wf(),
            !(t@ is Attr),
            t@ is EOF ==> final(self)@.finished(),
            old(self)@.finished() ==> t@ is EOF,
    {
        proof {
            stream::lemma_next_token(self@);
        }
        if self.gate_buffer.len() > 0 {
            return self.pop_pending();
        }
        loop
            invariant
                old(self)@.wf(),
                old(self)@.pending.len() == 0,
                self@.wf(),
                self@.pending.len() == 0,
                produce(self@) == produce(old(self)@),
            decreases self@.weight(),
        {
            let ghost before = self@;
            proof {
                stream::lemma_next_token(old(self)@);
                stream::lemma_raw_next(before);
                stream::lemma_live_bounds(before.pushback);
            }
            let t0 = self.next_raw_token();
            proof {
                stream::lemma_live_bounds(self@.pushback);
            }
            match t0 {
                Token::Attr(name) => {
                    self.apply_pragma(&name);
                },
                Token::Gate(gname) => {
                    proof {
                        stream::lemma_speculate(self@, gname@);
                    }
                    let first = self.read_gate_call_or_gate(gname);
                    match first {
                        Token::QOp { gate, target } => {
                            let op = Token::QOp { gate, target };
                            if self.pe_enabled {
                                proof {
                                    stream::lemma_buffered(self@, op@);
                                    stream::lemma_session(self@.buffered(op@));
                                }
                                self.buffer_operation(op);
                                self.fill_buffer();
                                proof {
                                    stream::lemma_live_bounds(self@.pushback);
                                }
                                if self.gate_buffer.len() > 0 {
                                    return self.pop_pending();
                                }
                            } else {
                                return op;
                            }
                        },
                        other => {
                            return other;
                        },
                    }
                },
                other => {
                    return other;
                },
            }
        }
    }
}

} // verus!
