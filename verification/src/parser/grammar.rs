use super::number::literal_value;
use crate::ast::{BinOp, ExprV, FunctionV, ProgramV, StmtV};
use crate::lexer::stream::Lexeme;
use crate::lexer::token::Tok;
use vstd::prelude::*;

verus! {

/// What the parser can ask for at a place in the token stream.
#[derive(Debug, Clone, Copy, PartialEq, Eq, Structural)]
pub enum Expected {
    Fn,
    Identifier,
    Number,
    QuantumOp,
    Expression,
    LParen,
    RParen,
    LBrace,
    RBrace,
    Assign,
    Semicolon,
}

/// The mathematical value of a parse error.
pub enum ParseErrorV {
    UnexpectedToken { expected: Expected, found: Tok },
    InvalidNumericLiteral { text: Seq<char> },
    UnexpectedEndOfInput { expected: Expected },
}

/// What a grammar rule gives on a token stream: a value together with the
/// number of tokens that the rule used behind the first one, or the first
/// error.
pub type Parsed<T> = Result<(T, nat), ParseErrorV>;

/// The error for a token `found` where `expected` was asked for.
pub open spec fn unexpected(expected: Expected, found: Tok) -> ParseErrorV {
    if found is EOF {
        ParseErrorV::UnexpectedEndOfInput { expected }
    } else {
        ParseErrorV::UnexpectedToken { expected, found }
    }
}

/// The first token of the stream; behind its end, the end-of-stream
/// sentinel.
pub open spec fn head(ts: Seq<Lexeme>) -> Tok {
    if ts.len() > 0 {
        ts[0].tok
    } else {
        Tok::EOF
    }
}

/// The stream behind its first `n` tokens.
pub open spec fn rest(ts: Seq<Lexeme>, n: nat) -> Seq<Lexeme> {
    if n <= ts.len() {
        ts.skip(n as int)
    } else {
        Seq::empty()
    }
}

/// The token at index `i` of the stream.
pub open spec fn token_at(ts: Seq<Lexeme>, i: nat) -> Tok {
    head(rest(ts, i))
}

/// Whether the token `t` is of the kind `want`.
pub open spec fn meets(want: Expected, t: Tok) -> bool {
    match want {
        Expected::Fn => t is Fn,
        Expected::Identifier => t is Ident,
        Expected::Number => t is Number,
        Expected::QuantumOp => t is QOp,
        Expected::Expression => t is Number || t is Ident || t is LParen,
        Expected::LParen => t is LParen,
        Expected::RParen => t is RParen,
        Expected::LBrace => t is LBrace,
        Expected::RBrace => t is RBrace,
        Expected::Assign => t is Assign,
        Expected::Semicolon => t is Semicolon,
    }
}

/// The arithmetic operator that a token writes at the additive level.
pub open spec fn additive(t: Tok) -> Option<BinOp> {
    match t {
        Tok::Plus => Some(BinOp::Add),
        Tok::Minus => Some(BinOp::Sub),
        _ => None,
    }
}

/// The arithmetic operator that a token writes at the multiplicative level.
pub open spec fn multiplicative(t: Tok) -> Option<BinOp> {
    match t {
        Tok::Star => Some(BinOp::Mul),
        Tok::Slash => Some(BinOp::Div),
        _ => None,
    }
}

/// The value of `left op right`.
pub open spec fn binary(op: BinOp, left: ExprV, right: ExprV) -> ExprV {
    ExprV::Binary { op, left: Box::new(left), right: Box::new(right) }
}

/// A primary expression: a numeric literal, an identifier, a call (an
/// identifier with an argument list in parentheses), or an expression in
/// parentheses.
#[verifier::opaque]
pub open spec fn primary(ts: Seq<Lexeme>) -> Parsed<ExprV>
    decreases ts.len(), 0nat,
{
    match head(ts) {
        Tok::Number(text) => match literal_value(text) {
            Some(v) => Ok((ExprV::NumberLiteral(v), 0)),
            None => Err(ParseErrorV::InvalidNumericLiteral { text }),
        },
        Tok::Ident(name) => if token_at(ts, 1) is LParen {
            if token_at(ts, 2) is RParen {
                Ok((ExprV::Call { callee: name, args: Seq::empty() }, 2))
            } else {
                match arguments(rest(ts, 2)) {
                    Ok((args, k)) => if token_at(ts, 3 + k) is RParen {
                        Ok((ExprV::Call { callee: name, args }, 3 + k))
                    } else {
                        Err(unexpected(Expected::RParen, token_at(ts, 3 + k)))
                    },
                    Err(e) => Err(e),
                }
            }
        } else {
            Ok((ExprV::VarRef(name), 0))
        },
        Tok::LParen => match expression(rest(ts, 1)) {
            Ok((inner, k)) => if token_at(ts, 2 + k) is RParen {
                Ok((inner, 2 + k))
            } else {
                Err(unexpected(Expected::RParen, token_at(ts, 2 + k)))
            },
            Err(e) => Err(e),
        },
        other => Err(unexpected(Expected::Expression, other)),
    }
}

/// What follows the left operand `left` at the multiplicative level: any
/// number of `*` or `/` with a primary expression each, grouped to the
/// left. The count is that of all tokens used.
#[verifier::opaque]
pub open spec fn product_tail(left: ExprV, ts: Seq<Lexeme>) -> Parsed<ExprV>
    decreases ts.len(), 1nat,
{
    match multiplicative(head(ts)) {
        Some(op) => match primary(rest(ts, 1)) {
            Ok((right, k)) => match product_tail(binary(op, left, right), rest(ts, 2 + k)) {
                Ok((e, m)) => Ok((e, 2 + k + m)),
                Err(e) => Err(e),
            },
            Err(e) => Err(e),
        },
        None => Ok((left, 0)),
    }
}

/// A product: primary expressions joined by `*` and `/`.
#[verifier::opaque]
pub open spec fn product(ts: Seq<Lexeme>) -> Parsed<ExprV>
    decreases ts.len(), 2nat,
{
    match primary(ts) {
        Ok((left, k)) => match product_tail(left, rest(ts, 1 + k)) {
            Ok((e, m)) => Ok((e, k + m)),
            Err(e) => Err(e),
        },
        Err(e) => Err(e),
    }
}

/// What follows the left operand `left` at the additive level: any number
/// of `+` or `-` with a product each, grouped to the left. The count is that
/// of all tokens used.
#[verifier::opaque]
pub open spec fn sum_tail(left: ExprV, ts: Seq<Lexeme>) -> Parsed<ExprV>
    decreases ts.len(), 3nat,
{
    match additive(head(ts)) {
        Some(op) => match product(rest(ts, 1)) {
            Ok((right, k)) => match sum_tail(binary(op, left, right), rest(ts, 2 + k)) {
                Ok((e, m)) => Ok((e, 2 + k + m)),
                Err(e) => Err(e),
            },
            Err(e) => Err(e),
        },
        None => Ok((left, 0)),
    }
}

/// A sum: products joined by `+` and `-`.
#[verifier::opaque]
pub open spec fn sum(ts: Seq<Lexeme>) -> Parsed<ExprV>
    decreases ts.len(), 4nat,
{
    match product(ts) {
        Ok((left, k)) => match sum_tail(left, rest(ts, 1 + k)) {
            Ok((e, m)) => Ok((e, k + m)),
            Err(e) => Err(e),
        },
        Err(e) => Err(e),
    }
}

/// An expression.
#[verifier::opaque]
pub open spec fn expression(ts: Seq<Lexeme>) -> Parsed<ExprV>
    decreases ts.len(), 5nat,
{
    sum(ts)
}

/// One or more expressions separated by commas.
#[verifier::opaque]
pub open spec fn arguments(ts: Seq<Lexeme>) -> Parsed<Seq<ExprV>>
    decreases ts.len(), 6nat,
{
    match expression(ts) {
        Ok((first, k)) => if token_at(ts, 1 + k) is Comma {
            match arguments(rest(ts, 2 + k)) {
                Ok((more, m)) => Ok((seq![first] + more, 2 + k + m)),
                Err(e) => Err(e),
            }
        } else {
            Ok((seq![first], k))
        },
        Err(e) => Err(e),
    }
}

/// The identifier at index `i` of the stream.
pub open spec fn identifier_at(ts: Seq<Lexeme>, i: nat) -> Result<Seq<char>, ParseErrorV> {
    match token_at(ts, i) {
        Tok::Ident(name) => Ok(name),
        other => Err(unexpected(Expected::Identifier, other)),
    }
}

/// The error, if any, of asking for a token of the kind `want` at index `i`.
pub open spec fn demand(ts: Seq<Lexeme>, i: nat, want: Expected) -> Option<ParseErrorV> {
    if meets(want, token_at(ts, i)) {
        None
    } else {
        Some(unexpected(want, token_at(ts, i)))
    }
}

/// A binding behind its keyword: name, `=`, initialiser, `;`.
pub open spec fn let_stmt(ts: Seq<Lexeme>) -> Parsed<StmtV> {
    match identifier_at(ts, 1) {
        Ok(name) => match demand(ts, 2, Expected::Assign) {
            None => match expression(rest(ts, 3)) {
                Ok((init, k)) => match demand(ts, 4 + k, Expected::Semicolon) {
                    None => Ok((StmtV::Let { name, init }, 4 + k)),
                    Some(e) => Err(e),
                },
                Err(e) => Err(e),
            },
            Some(e) => Err(e),
        },
        Err(e) => Err(e),
    }
}

/// A qubit declaration behind its keyword: name, `;`.
pub open spec fn qbit_decl(ts: Seq<Lexeme>) -> Parsed<StmtV> {
    match identifier_at(ts, 1) {
        Ok(name) => match demand(ts, 2, Expected::Semicolon) {
            None => Ok((StmtV::QbitDecl { name }, 2)),
            Some(e) => Err(e),
        },
        Err(e) => Err(e),
    }
}

/// A quantum operation: the one token that the lexer made of a gate call.
pub open spec fn qop_stmt(ts: Seq<Lexeme>) -> Parsed<StmtV> {
    match head(ts) {
        Tok::QOp { gate, target } => Ok((StmtV::QuantumOp { gate, target }, 0)),
        other => Err(unexpected(Expected::QuantumOp, other)),
    }
}

/// A measurement behind its keyword: target, optionally `->` and a
/// classical name, `;`.
pub open spec fn measure_stmt(ts: Seq<Lexeme>) -> Parsed<StmtV> {
    match identifier_at(ts, 1) {
        Ok(target) => if token_at(ts, 2) is Arrow {
            match identifier_at(ts, 3) {
                Ok(c) => match demand(ts, 4, Expected::Semicolon) {
                    None => Ok((StmtV::Measure { target, classical: Some(c) }, 4)),
                    Some(e) => Err(e),
                },
                Err(e) => Err(e),
            }
        } else {
            match demand(ts, 2, Expected::Semicolon) {
                None => Ok((StmtV::Measure { target, classical: None }, 2)),
                Some(e) => Err(e),
            }
        },
        Err(e) => Err(e),
    }
}

/// A return behind its keyword: `;`, or an expression and `;`.
pub open spec fn return_stmt(ts: Seq<Lexeme>) -> Parsed<StmtV> {
    if token_at(ts, 1) is Semicolon {
        Ok((StmtV::Return(None), 1))
    } else {
        match expression(rest(ts, 1)) {
            Ok((e, k)) => match demand(ts, 2 + k, Expected::Semicolon) {
                None => Ok((StmtV::Return(Some(e)), 2 + k)),
                Some(e) => Err(e),
            },
            Err(e) => Err(e),
        }
    }
}

/// An expression statement: an expression and `;`.
pub open spec fn expr_stmt(ts: Seq<Lexeme>) -> Parsed<StmtV> {
    match expression(ts) {
        Ok((e, k)) => match demand(ts, 1 + k, Expected::Semicolon) {
            None => Ok((StmtV::ExprStmt(e), 1 + k)),
            Some(e) => Err(e),
        },
        Err(e) => Err(e),
    }
}

/// A statement, chosen by its first token.
pub open spec fn statement(ts: Seq<Lexeme>) -> Parsed<StmtV> {
    match head(ts) {
        Tok::Let => let_stmt(ts),
        Tok::Qbit => qbit_decl(ts),
        Tok::Return => return_stmt(ts),
        Tok::Measure => measure_stmt(ts),
        Tok::QOp { .. } => qop_stmt(ts),
        _ => expr_stmt(ts),
    }
}

/// The statements up to a `}` or the end of the stream. The count is that
/// of all tokens used.
#[verifier::opaque]
pub open spec fn statements(ts: Seq<Lexeme>) -> Parsed<Seq<StmtV>>
    decreases ts.len(),
{
    if head(ts) is RBrace || head(ts) is EOF {
        Ok((Seq::empty(), 0))
    } else {
        match statement(ts) {
            Ok((first, k)) => match statements(rest(ts, 1 + k)) {
                Ok((more, m)) => Ok((seq![first] + more, 1 + k + m)),
                Err(e) => Err(e),
            },
            Err(e) => Err(e),
        }
    }
}

/// A block: `{`, statements, `}`.
pub open spec fn block(ts: Seq<Lexeme>) -> Parsed<Seq<StmtV>> {
    match demand(ts, 0, Expected::LBrace) {
        None => match statements(rest(ts, 1)) {
            Ok((body, m)) => match demand(ts, 1 + m, Expected::RBrace) {
                None => Ok((body, 1 + m)),
                Some(e) => Err(e),
            },
            Err(e) => Err(e),
        },
        Some(e) => Err(e),
    }
}

/// One or more parameter names separated by commas.
#[verifier::opaque]
pub open spec fn parameters(ts: Seq<Lexeme>) -> Parsed<Seq<Seq<char>>>
    decreases ts.len(),
{
    match identifier_at(ts, 0) {
        Ok(name) => if token_at(ts, 1) is Comma {
            match parameters(rest(ts, 2)) {
                Ok((more, m)) => Ok((seq![name] + more, 2 + m)),
                Err(e) => Err(e),
            }
        } else {
            Ok((seq![name], 0))
        },
        Err(e) => Err(e),
    }
}

/// A parameter list behind its `(`: nothing or parameters, then `)`. The
/// count is that of all tokens used, the `)` among them.
pub open spec fn parameter_list(ts: Seq<Lexeme>) -> Parsed<Seq<Seq<char>>> {
    if head(ts) is RParen {
        Ok((Seq::empty(), 1))
    } else {
        match parameters(ts) {
            Ok((names, m)) => match demand(ts, 1 + m, Expected::RParen) {
                None => Ok((names, 2 + m)),
                Some(e) => Err(e),
            },
            Err(e) => Err(e),
        }
    }
}

/// The partial-evaluation mode that the lexer is in once it has handed out
/// the first token of the stream.
pub open spec fn mode_at(ts: Seq<Lexeme>) -> bool {
    ts[0].pe
}

/// A function: `fn`, name, parameter list in parentheses, block. Its mode is
/// the one that the lexer is in when the parameter list has been closed,
/// that is when it has handed out the token behind the `)`.
pub open spec fn function(ts: Seq<Lexeme>) -> Parsed<FunctionV> {
    match demand(ts, 0, Expected::Fn) {
        None => match identifier_at(ts, 1) {
            Ok(name) => match demand(ts, 2, Expected::LParen) {
                None => match parameter_list(rest(ts, 3)) {
                    Ok((params, c)) => match block(rest(ts, 3 + c)) {
                        Ok((body, m)) => Ok(
                            (
                                FunctionV {
                                    name,
                                    params,
                                    body,
                                    pe_enabled: mode_at(rest(ts, 3 + c)),
                                },
                                3 + c + m,
                            ),
                        ),
                        Err(e) => Err(e),
                    },
                    Err(e) => Err(e),
                },
                Some(e) => Err(e),
            },
            Err(e) => Err(e),
        },
        Some(e) => Err(e),
    }
}

/// The functions up to the end of the stream.
#[verifier::opaque]
pub open spec fn functions(ts: Seq<Lexeme>) -> Result<Seq<FunctionV>, ParseErrorV>
    decreases ts.len(),
{
    if head(ts) is EOF {
        Ok(Seq::empty())
    } else {
        match function(ts) {
            Ok((first, k)) => match functions(rest(ts, 1 + k)) {
                Ok(more) => Ok(seq![first] + more),
                Err(e) => Err(e),
            },
            Err(e) => Err(e),
        }
    }
}

/// A program: functions up to the end of the stream.
pub open spec fn program(ts: Seq<Lexeme>) -> Result<ProgramV, ParseErrorV> {
    match functions(ts) {
        Ok(fs) => Ok(ProgramV { functions: fs }),
        Err(e) => Err(e),
    }
}

/// The definition of `expression`, for use where it is not revealed.
pub proof fn lemma_expression(ts: Seq<Lexeme>)
    ensures
        expression(ts) == sum(ts),
{
    reveal(expression);
    reveal(sum);
}

/// The definition of `product_tail`, for use where it is not revealed.
pub proof fn lemma_product_tail(left: ExprV, ts: Seq<Lexeme>)
    ensures
        product_tail(left, ts) == match multiplicative(head(ts)) {
            Some(op) => match primary(rest(ts, 1)) {
                Ok((right, k)) => match product_tail(binary(op, left, right), rest(ts, 2 + k)) {
                    Ok((e, m)) => Ok((e, 2 + k + m)),
                    Err(e) => Err(e),
                },
                Err(e) => Err(e),
            },
            None => Ok((left, 0)),
        },
{
    reveal(product_tail);
    reveal(primary);
}

/// The definition of `product`, for use where it is not revealed.
pub proof fn lemma_product(ts: Seq<Lexeme>)
    ensures
        product(ts) == match primary(ts) {
            Ok((left, k)) => match product_tail(left, rest(ts, 1 + k)) {
                Ok((e, m)) => Ok((e, k + m)),
                Err(e) => Err(e),
            },
            Err(e) => Err(e),
        },
{
    reveal(product);
    reveal(product_tail);
    reveal(primary);
}

/// The definition of `arguments`, for use where it is not revealed.
pub proof fn lemma_arguments(ts: Seq<Lexeme>)
    ensures
        arguments(ts) == match expression(ts) {
            Ok((first, k)) => if token_at(ts, 1 + k) is Comma {
                match arguments(rest(ts, 2 + k)) {
                    Ok((more, m)) => Ok((seq![first] + more, 2 + k + m)),
                    Err(e) => Err(e),
                }
            } else {
                Ok((seq![first], k))
            },
            Err(e) => Err(e),
        },
{
    reveal(arguments);
    reveal(expression);
}

/// The definition of `primary`, for use where it is not revealed.
pub proof fn lemma_primary(ts: Seq<Lexeme>)
    ensures
        primary(ts) == match head(ts) {
            Tok::Number(text) => match literal_value(text) {
                Some(v) => Ok((ExprV::NumberLiteral(v), 0)),
                None => Err(ParseErrorV::InvalidNumericLiteral { text }),
            },
            Tok::Ident(name) => if token_at(ts, 1) is LParen {
                if token_at(ts, 2) is RParen {
                    Ok((ExprV::Call { callee: name, args: Seq::empty() }, 2))
                } else {
                    match arguments(rest(ts, 2)) {
                        Ok((args, k)) => if token_at(ts, 3 + k) is RParen {
                            Ok((ExprV::Call { callee: name, args }, 3 + k))
                        } else {
                            Err(unexpected(Expected::RParen, token_at(ts, 3 + k)))
                        },
                        Err(e) => Err(e),
                    }
                }
            } else {
                Ok((ExprV::VarRef(name), 0))
            },
            Tok::LParen => match expression(rest(ts, 1)) {
                Ok((inner, k)) => if token_at(ts, 2 + k) is RParen {
                    Ok((inner, 2 + k))
                } else {
                    Err(unexpected(Expected::RParen, token_at(ts, 2 + k)))
                },
                Err(e) => Err(e),
            },
            other => Err(unexpected(Expected::Expression, other)),
        },
{
    reveal(primary);
    reveal(expression);
    reveal(arguments);
}

/// The definition of `sum_tail`, for use where it is not revealed.
pub proof fn lemma_sum_tail(left: ExprV, ts: Seq<Lexeme>)
    ensures
        sum_tail(left, ts) == match additive(head(ts)) {
            Some(op) => match product(rest(ts, 1)) {
                Ok((right, k)) => match sum_tail(binary(op, left, right), rest(ts, 2 + k)) {
                    Ok((e, m)) => Ok((e, 2 + k + m)),
                    Err(e) => Err(e),
                },
                Err(e) => Err(e),
            },
            None => Ok((left, 0)),
        },
{
    reveal(sum_tail);
    reveal(product);
}

/// The definition of `sum`, for use where it is not revealed.
pub proof fn lemma_sum(ts: Seq<Lexeme>)
    ensures
        sum(ts) == match product(ts) {
            Ok((left, k)) => match sum_tail(left, rest(ts, 1 + k)) {
                Ok((e, m)) => Ok((e, k + m)),
                Err(e) => Err(e),
            },
            Err(e) => Err(e),
        },
{
    reveal(sum);
    reveal(sum_tail);
    reveal(product);
}

/// Leaving out `a` tokens and then `b` more leaves out `a + b`.
pub proof fn lemma_rest_of_rest(ts: Seq<Lexeme>, a: nat, b: nat)
    ensures
        rest(rest(ts, a), b) == rest(ts, a + b),
        token_at(rest(ts, a), b) == token_at(ts, a + b),
        rest(ts, 0) == ts,
{
    assert(rest(rest(ts, a), b) =~= rest(ts, a + b));
    assert(rest(ts, 0) =~= ts);
}

/// Leaving out `a` tokens and then more leaves out the sum of the two.
pub proof fn lemma_rest_shift(ts: Seq<Lexeme>, a: nat)
    ensures
        forall|b: nat| #[trigger] rest(rest(ts, a), b) == rest(ts, a + b),
{
    assert forall|b: nat| #[trigger] rest(rest(ts, a), b) == rest(ts, a + b) by {
        lemma_rest_of_rest(ts, a, b);
    }
}

} // verus!
