use super::quantum::irreducible;
use super::text::{is_digit, trimmed, unicode_alphanumeric, unicode_whitespace};
use super::token::Tok;
use vstd::prelude::*;

verus! {

/// The state of a lexer as a mathematical value.
pub struct LexState {
    /// The source text.
    pub src: Seq<char>,
    /// The scan cursor: the index in `src` of the next unread character.
    pub pos: int,
    /// Whether partial evaluation is switched on.
    pub pe: bool,
    /// Quantum operations that wait to be handed out, oldest first.
    pub pending: Seq<Tok>,
    /// Raw tokens that were read ahead and put back, next first.
    pub pushback: Seq<Tok>,
}

impl LexState {
    /// The cursor lies within the text or at its end.
    pub open spec fn in_bounds(self) -> bool {
        0 <= self.pos <= self.src.len()
    }

    /// The character under the cursor, if any.
    pub open spec fn peek(self) -> Option<char> {
        if 0 <= self.pos < self.src.len() {
            Some(self.src[self.pos])
        } else {
            None
        }
    }

    /// This state with the cursor moved to `pos`.
    pub open spec fn at(self, pos: int) -> LexState {
        LexState { pos, ..self }
    }

    /// This state with the cursor moved over one character, if there is one.
    pub open spec fn advanced(self) -> LexState {
        if 0 <= self.pos < self.src.len() {
            self.at(self.pos + 1)
        } else {
            self
        }
    }

    /// This state with `t` put back in front of the raw tokens to come.
    pub open spec fn unread(self, t: Tok) -> LexState {
        LexState { pushback: seq![t] + self.pushback, ..self }
    }

    /// Only whitespace is left of the source text.
    pub open spec fn source_spent(self) -> bool {
        run_end(self.src, self.pos, CharClass::Blank) >= self.src.len()
    }

    /// The state is one that a lexer can be in. The cursor lies within the
    /// text. The pushback queue holds at most five tokens (the four of a
    /// lookahead that failed, and in front of them the token that ended a
    /// buffering session), and behind an end-of-stream sentinel only further
    /// sentinels, over a spent source. The pending buffer holds quantum
    /// operations only, and no two neighbours in it cancel.
    pub open spec fn wf(self) -> bool {
        &&& self.in_bounds()
        &&& self.pushback.len() <= 5
        &&& forall|i: int| 0 <= i < self.pending.len() ==> #[trigger] self.pending[i] is QOp
        &&& irreducible(self.pending)
        &&& forall|i: int, j: int|
            0 <= i <= j < self.pushback.len() && #[trigger] self.pushback[i] is EOF
                ==> #[trigger] self.pushback[j] is EOF
        &&& forall|i: int|
            0 <= i < self.pushback.len() && #[trigger] self.pushback[i] is EOF
                ==> self.source_spent()
    }
}

/// The classes of characters that the scanner reads in runs.
#[derive(Clone, Copy, PartialEq, Eq, Structural)]
pub enum CharClass {
    /// Whitespace between tokens.
    Blank,
    /// What a numeric literal continues with: a digit or the fractional
    /// separator `.`.
    NumberPart,
    /// What an identifier continues with: a letter, a digit or `_`.
    WordPart,
    /// What a pragma's name is made of: everything up to `]`.
    PragmaPart,
}

/// Whether the character `c` belongs to the class `k`.
pub open spec fn in_class(k: CharClass, c: char) -> bool {
    match k {
        CharClass::Blank => unicode_whitespace(c),
        CharClass::NumberPart => is_digit(c) || c == '.',
        CharClass::WordPart => unicode_alphanumeric(c) || c == '_',
        CharClass::PragmaPart => c != ']',
    }
}

/// The end of the longest run of characters of class `k` that starts at
/// `pos`: the first index at or after `pos` that holds no such character, or
/// the end of the text.
pub open spec fn run_end(src: Seq<char>, pos: int, k: CharClass) -> int
    decreases src.len() - pos,
{
    if 0 <= pos < src.len() && in_class(k, src[pos]) {
        run_end(src, pos + 1, k)
    } else {
        pos
    }
}

/// The token that a word spells: a keyword, a gate name, or else an
/// identifier.
pub open spec fn word_token(w: Seq<char>) -> Tok {
    if w == "let"@ {
        Tok::Let
    } else if w == "fn"@ {
        Tok::Fn
    } else if w == "return"@ {
        Tok::Return
    } else if w == "qbit"@ {
        Tok::Qbit
    } else if w == "measure"@ {
        Tok::Measure
    } else if is_gate_name(w) {
        Tok::Gate(w)
    } else {
        Tok::Ident(w)
    }
}

/// The recognised gate names, single- and multi-qubit.
pub open spec fn is_gate_name(w: Seq<char>) -> bool {
    w == "H"@ || w == "X"@ || w == "Y"@ || w == "Z"@ || w == "CX"@ || w == "CNOT"@ || w == "CCX"@
}

/// The token that a single character outside words, numbers and pragmas
/// stands for, where `next_is_gt` says whether `>` follows it.
pub open spec fn punct_token(c: char, next_is_gt: bool) -> Tok {
    if c == '(' {
        Tok::LParen
    } else if c == ')' {
        Tok::RParen
    } else if c == '{' {
        Tok::LBrace
    } else if c == '}' {
        Tok::RBrace
    } else if c == '+' {
        Tok::Plus
    } else if c == '*' {
        Tok::Star
    } else if c == '/' {
        Tok::Slash
    } else if c == ',' {
        Tok::Comma
    } else if c == ';' {
        Tok::Semicolon
    } else if c == '-' {
        if next_is_gt {
            Tok::Arrow
        } else {
            Tok::Minus
        }
    } else if c == '=' {
        Tok::Assign
    } else {
        Tok::Unknown(seq![c])
    }
}

/// What the first character of a token announces.
#[derive(Debug, Clone, Copy, PartialEq, Eq, Structural)]
pub enum Lead {
    /// `#`: a pragma, or a `#` on its own.
    Pragma,
    /// A decimal digit: a numeric literal.
    Number,
    /// A letter, a digit of another script or `_`: a word.
    Word,
    /// Anything else: punctuation or an unknown character.
    Punct,
}

/// What the character `c` announces at the start of a token, where
/// `alphanumeric` says whether `c` is a letter or a number. `#` and the
/// decimal digits are looked for first.
pub open spec fn lead_of(c: char, alphanumeric: bool) -> Lead {
    if c == '#' {
        Lead::Pragma
    } else if is_digit(c) {
        Lead::Number
    } else if alphanumeric || c == '_' {
        Lead::Word
    } else {
        Lead::Punct
    }
}

/// Whether `src` holds the character `c` at index `i`.
pub open spec fn has_char_at(src: Seq<char>, i: int, c: char) -> bool {
    0 <= i < src.len() && src[i] == c
}

/// The token that starts at index `p` of `src`, where `p` holds a character
/// that is no whitespace, and the index behind that token.
pub open spec fn scan_at(src: Seq<char>, p: int) -> (Tok, int) {
    let c = src[p];
    match lead_of(c, unicode_alphanumeric(c)) {
        Lead::Pragma => if has_char_at(src, p + 1, '[') {
            let e = run_end(src, p + 2, CharClass::PragmaPart);
            (Tok::Attr(trimmed(src, p + 2, e)), if e < src.len() {
                e + 1
            } else {
                e
            })
        } else {
            (Tok::Unknown(seq!['#']), p + 1)
        },
        Lead::Number => {
            let e = run_end(src, p + 1, CharClass::NumberPart);
            (Tok::Number(seq![c] + src.subrange(p + 1, e)), e)
        },
        Lead::Word => {
            let e = run_end(src, p + 1, CharClass::WordPart);
            (word_token(seq![c] + src.subrange(p + 1, e)), e)
        },
        Lead::Punct => if has_char_at(src, p + 1, '>') {
            (punct_token(c, true), p + if c == '-' {
                2int
            } else {
                1int
            })
        } else {
            (punct_token(c, false), p + 1)
        },
    }
}

/// The next token of `src` at or after index `pos`, and the index behind it.
/// Whitespace is skipped; at the end of the text the token is the
/// end-of-stream sentinel.
pub open spec fn scan(src: Seq<char>, pos: int) -> (Tok, int) {
    let p = run_end(src, pos, CharClass::Blank);
    if 0 <= p < src.len() {
        scan_at(src, p)
    } else {
        (Tok::EOF, p)
    }
}

/// Reads one raw token: the first token of the pushback queue if there is
/// one, else the next token of the source text.
pub open spec fn raw_next(s: LexState) -> (Tok, LexState) {
    if s.pushback.len() > 0 {
        (s.pushback[0], LexState { pushback: s.pushback.drop_first(), ..s })
    } else {
        let (t, p) = scan(s.src, s.pos);
        (t, s.at(p))
    }
}

/// A run ends at or after its start and within the text.
pub proof fn lemma_run_end_bounds(src: Seq<char>, pos: int, k: CharClass)
    requires
        0 <= pos <= src.len(),
    ensures
        pos <= run_end(src, pos, k) <= src.len(),
    decreases src.len() - pos,
{
    if pos < src.len() && in_class(k, src[pos]) {
        lemma_run_end_bounds(src, pos + 1, k);
    }
}

/// Scanning a token other than the end-of-stream sentinel moves the cursor
/// forward; scanning never moves it back or beyond the text.
pub proof fn lemma_scan_advances(src: Seq<char>, pos: int)
    requires
        0 <= pos <= src.len(),
    ensures
        pos <= scan(src, pos).1 <= src.len(),
        !(scan(src, pos).0 is EOF) ==> pos < scan(src, pos).1,
        scan(src, pos).0 is EOF ==> scan(src, pos).1 == src.len(),
{
    let p = run_end(src, pos, CharClass::Blank);
    lemma_run_end_bounds(src, pos, CharClass::Blank);
    if p < src.len() {
        lemma_run_end_bounds(src, p + 1, CharClass::NumberPart);
        lemma_run_end_bounds(src, p + 1, CharClass::WordPart);
        if has_char_at(src, p + 1, '[') {
            lemma_run_end_bounds(src, p + 2, CharClass::PragmaPart);
        }
    }
}

} // verus!
