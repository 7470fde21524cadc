use super::model::{run_end, word_token, CharClass};
use super::token::Token;
use super::Lexer;
use vstd::prelude::*;

verus! {

/// The token that the word `w` spells: a keyword, a gate name, or else an
/// identifier.
pub fn classify_word(w: String) -> (t: Token)
    ensures
        t@ == word_token(w@),
{
    let s = w.as_str();
    if *s == *"let" {
        Token::Let
    } else if *s == *"fn" {
        Token::Fn
    } else if *s == *"return" {
        Token::Return
    } else if *s == *"qbit" {
        Token::Qbit
    } else if *s == *"measure" {
        Token::Measure
    } else if *s == *"H" || *s == *"X" || *s == *"Y" || *s == *"Z" || *s == *"CX" || *s == *"CNOT"
        || *s == *"CCX" {
        Token::Gate(w)
    } else {
        Token::Ident(w)
    }
}

/// Scans the rest of a word whose first character `first` has been read:
/// the longest run of letters, digits and `_` under the cursor. The word is
/// a keyword, a gate name, or else an identifier.
pub fn lex_identifier(lex: &mut Lexer, first: char) -> (t: Token)
    requires
        old(lex)@.in_bounds(),
    ensures
        t@ == word_token(
            seq![first] + old(lex)@.src.subrange(
                old(lex)@.pos,
                run_end(old(lex)@.src, old(lex)@.pos, CharClass::WordPart),
            ),
        ),
        final(lex)@ == old(lex)@.at(run_end(old(lex)@.src, old(lex)@.pos, CharClass::WordPart)),
        final(lex)@.in_bounds(),
{
    let mut s = String::new();
    s.push(first);
    let ghost s0 = lex@;
    loop
        invariant
            s0 == old(lex)@,
            lex@.in_bounds(),
            s0.pos <= lex@.pos,
            lex@ == s0.at(lex@.pos),
            s@ == seq![first] + s0.src.subrange(s0.pos, lex@.pos),
            run_end(s0.src, lex@.pos, CharClass::WordPart) == run_end(
                s0.src,
                s0.pos,
                CharClass::WordPart,
            ),
        ensures
            lex@ == s0.at(run_end(s0.src, s0.pos, CharClass::WordPart)),
            lex@.in_bounds(),
            s@ == seq![first] + s0.src.subrange(s0.pos, lex@.pos),
        decreases lex@.src.len() - lex@.pos,
    {
        match lex.peek() {
            Some(c) => {
                if c.is_alphanumeric() || c == '_' {
                    lex.next_char();
                    s.push(c);
                    assert(s0.src.subrange(s0.pos, lex@.pos) == s0.src.subrange(
                        s0.pos,
                        lex@.pos - 1,
                    ).push(c));
                } else {
                    break;
                }
            },
            None => {
                break;
            },
        }
    }
    classify_word(s)
}

} // verus!
