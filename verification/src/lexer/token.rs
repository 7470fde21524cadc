use vstd::prelude::*;

verus! {

/// A lexical unit of the hybrid classical/quantum language.
#[derive(Debug, Clone, PartialEq, Eq)]
pub enum Token {
    Ident(String),
    Number(String),
    Let,
    Fn,
    Return,
    Qbit,
    Measure,
    Gate(String),
    QOp { gate: String, target: String },
    Attr(String),
    LParen,
    RParen,
    LBrace,
    RBrace,
    Plus,
    Minus,
    Star,
    Slash,
    Comma,
    Semicolon,
    Arrow,
    Assign,
    EOF,
    Unknown(String),
}

/// The mathematical value of a token: the same variants, with text as a
/// sequence of characters.
pub enum Tok {
    Ident(Seq<char>),
    Number(Seq<char>),
    Let,
    Fn,
    Return,
    Qbit,
    Measure,
    Gate(Seq<char>),
    QOp { gate: Seq<char>, target: Seq<char> },
    Attr(Seq<char>),
    LParen,
    RParen,
    LBrace,
    RBrace,
    Plus,
    Minus,
    Star,
    Slash,
    Comma,
    Semicolon,
    Arrow,
    Assign,
    EOF,
    Unknown(Seq<char>),
}

impl View for Token {
    type V = Tok;

    open spec fn view(&self) -> Tok {
        match self {
            Token::Ident(s) => Tok::Ident(s@),
            Token::Number(s) => Tok::Number(s@),
            Token::Let => Tok::Let,
            Token::Fn => Tok::Fn,
            Token::Return => Tok::Return,
            Token::Qbit => Tok::Qbit,
            Token::Measure => Tok::Measure,
            Token::Gate(s) => Tok::Gate(s@),
            Token::QOp { gate, target } => Tok::QOp { gate: gate@, target: target@ },
            Token::Attr(s) => Tok::Attr(s@),
            Token::LParen => Tok::LParen,
            Token::RParen => Tok::RParen,
            Token::LBrace => Tok::LBrace,
            Token::RBrace => Tok::RBrace,
            Token::Plus => Tok::Plus,
            Token::Minus => Tok::Minus,
            Token::Star => Tok::Star,
            Token::Slash => Tok::Slash,
            Token::Comma => Tok::Comma,
            Token::Semicolon => Tok::Semicolon,
            Token::Arrow => Tok::Arrow,
            Token::Assign => Tok::Assign,
            Token::EOF => Tok::EOF,
            Token::Unknown(s) => Tok::Unknown(s@),
        }
    }
}

} // verus!
