pub mod grammar;
pub mod number;

use crate::ast::{
    expr_views, function_views, lemma_call_view, name_views, stmt_views, BinOp, Expr, ExprV,
    Function, FunctionV, Program, Stmt, StmtV,
};
use crate::lexer::stream::{stream, Lexeme};
use crate::lexer::token::Tok;
use crate::lexer::{Lexer, Token};
use grammar::{
    additive, arguments, block, demand, expr_stmt, expression, function, functions, head,
    identifier_at, lemma_rest_of_rest, lemma_rest_shift, let_stmt, measure_stmt, meets,
    multiplicative, parameter_list, parameters, primary, product, product_tail, program,
    qbit_decl, qop_stmt, rest, return_stmt, statement, statements, sum, sum_tail, token_at,
    unexpected, Expected, ParseErrorV,
};
use vstd::prelude::*;

verus! {

/// Why a parse failed. The first mismatch ends the parse.
#[derive(Debug, Clone, PartialEq, Eq)]
pub enum ParseError {
    /// A token stood where another kind was asked for.
    UnexpectedToken { expected: Expected, found: Token },
    /// The text of a numeric literal has no value.
    InvalidNumericLiteral { text: String },
    /// The stream ended where a token was asked for.
    UnexpectedEndOfInput { expected: Expected },
}

impl View for ParseError {
    type V = ParseErrorV;

    open spec fn view(&self) -> ParseErrorV {
        match self {
            ParseError::UnexpectedToken { expected, found } => ParseErrorV::UnexpectedToken {
                expected: *expected,
                found: found@,
            },
            ParseError::InvalidNumericLiteral { text } => ParseErrorV::InvalidNumericLiteral {
                text: text@,
            },
            ParseError::UnexpectedEndOfInput { expected } => ParseErrorV::UnexpectedEndOfInput {
                expected: *expected,
            },
        }
    }
}

/// The error for a token `found` where `expected` was asked for.
fn mismatch(expected: Expected, found: Token) -> (e: ParseError)
    ensures
        e@ == unexpected(expected, found@),
{
    match found {
        Token::EOF => ParseError::UnexpectedEndOfInput { expected },
        found => ParseError::UnexpectedToken { expected, found },
    }
}

/// Tests whether the token `t` is of the kind `want`.
fn token_meets(want: Expected, t: &Token) -> (r: bool)
    ensures
        r == meets(want, t@),
{
    match (want, t) {
        (Expected::Fn, Token::Fn) => true,
        (Expected::Identifier, Token::Ident(_)) => true,
        (Expected::Number, Token::Number(_)) => true,
        (Expected::QuantumOp, Token::QOp { .. }) => true,
        (Expected::Expression, Token::Number(_)) => true,
        (Expected::Expression, Token::Ident(_)) => true,
        (Expected::Expression, Token::LParen) => true,
        (Expected::LParen, Token::LParen) => true,
        (Expected::RParen, Token::RParen) => true,
        (Expected::LBrace, Token::LBrace) => true,
        (Expected::RBrace, Token::RBrace) => true,
        (Expected::Assign, Token::Assign) => true,
        (Expected::Semicolon, Token::Semicolon) => true,
        _ => false,
    }
}

/// A recursive-descent parser over the tokens of a lexer, with one token of
/// lookahead.
pub struct Parser<'a> {
    lexer: &'a mut Lexer,
    lookahead: Token,
}

impl<'a> Parser<'a> {
    /// The tokens that are left to parse: the lookahead token and those that
    /// the lexer has yet to hand out.
    #[verifier::opaque]
    pub closed spec fn remaining(&self) -> Seq<Lexeme> {
        if self.lookahead@ is EOF {
            Seq::empty()
        } else {
            seq![Lexeme { tok: self.lookahead@, pe: self.lexer@.pe }] + stream(self.lexer@)
        }
    }

    /// The lexer is in a state that a lexer can be in, and behind an
    /// end-of-stream sentinel it has nothing left.
    #[verifier::opaque]
    pub closed spec fn wf(&self) -> bool {
        &&& self.lexer@.wf()
        &&& self.lookahead@ is EOF ==> self.lexer@.finished()
    }

    /// A parser over the tokens of `lexer`.
    pub fn new(lexer: &'a mut Lexer) -> (p: Parser<'a>)
        requires
            old(lexer)@.wf(),
        ensures
            p.wf(),
            p.remaining() == stream(old(lexer)@),
    {
        proof {
            crate::lexer::stream::lemma_stream_unfolds(lexer@);
        }
        let first = lexer.next_token();
        let p = Parser { lexer, lookahead: first };
        proof {
            reveal(Parser::remaining);
            reveal(Parser::wf);
        }
        p
    }

    /// Hands out the lookahead token and reads the next one.
    fn bump(&mut self) -> (t: Token)
        requires
            old(self).wf(),
        ensures
            final(self).wf(),
            t@ == head(old(self).remaining()),
            final(self).remaining() == rest(old(self).remaining(), 1),
    {
        proof {
            reveal(Parser::remaining);
            reveal(Parser::wf);
            crate::lexer::stream::lemma_stream_unfolds(self.lexer@);
        }
        let mut t = self.lexer.next_token();
        std::mem::swap(&mut self.lookahead, &mut t);
        assert(final(self).remaining() =~= rest(old(self).remaining(), 1));
        t
    }

    /// The partial-evaluation mode that the lexer is in, having handed out
    /// the lookahead token.
    fn mode(&self) -> (pe: bool)
        ensures
            self.remaining().len() > 0 ==> pe == grammar::mode_at(self.remaining()),
    {
        proof {
            reveal(Parser::remaining);
        }
        self.lexer.pe()
    }

    /// The lookahead token.
    fn current(&self) -> (t: &Token)
        ensures
            t@ == head(self.remaining()),
    {
        proof {
            reveal(Parser::remaining);
        }
        &self.lookahead
    }

    /// Tests whether the lookahead token is of the kind `want`.
    fn at(&self, want: Expected) -> (r: bool)
        ensures
            r == meets(want, head(self.remaining())),
    {
        token_meets(want, self.current())
    }

    /// Takes the lookahead token, which must be of the kind `want`.
    fn expect_token(&mut self, want: Expected) -> (r: Result<Token, ParseError>)
        requires
            old(self).wf(),
        ensures
            final(self).wf(),
            final(self).remaining() == rest(old(self).remaining(), 1),
            match demand(old(self).remaining(), 0, want) {
                None => r is Ok && r->Ok_0@ == head(old(self).remaining()),
                Some(e) => r is Err && r->Err_0@ == e,
            },
    {
        proof {
            grammar::lemma_rest_of_rest(self.remaining(), 0, 0);
        }
        let tok = self.bump();
        if token_meets(want, &tok) {
            Ok(tok)
        } else {
            Err(mismatch(want, tok))
        }
    }

    /// Takes the lookahead token, which must be an identifier, and gives its
    /// name.
    fn expect_ident(&mut self) -> (r: Result<String, ParseError>)
        requires
            old(self).wf(),
        ensures
            final(self).wf(),
            final(self).remaining() == rest(old(self).remaining(), 1),
            match identifier_at(old(self).remaining(), 0) {
                Ok(name) => r is Ok && r->Ok_0@ == name,
                Err(e) => r is Err && r->Err_0@ == e,
            },
    {
        proof {
            grammar::lemma_rest_of_rest(self.remaining(), 0, 0);
        }
        let tok = self.bump();
        match tok {
            Token::Ident(name) => Ok(name),
            other => Err(mismatch(Expected::Identifier, other)),
        }
    }

    /// Takes the lookahead token, which must be a numeric literal, and gives
    /// its text.
    #[allow(dead_code)]
    fn expect_number(&mut self) -> (r: Result<String, ParseError>)
        requires
            old(self).wf(),
        ensures
            final(self).wf(),
            final(self).remaining() == rest(old(self).remaining(), 1),
            match head(old(self).remaining()) {
                Tok::Number(text) => r is Ok && r->Ok_0@ == text,
                other => r is Err && r->Err_0@ == unexpected(Expected::Number, other),
            },
    {
        let tok = self.bump();
        match tok {
            Token::Number(text) => Ok(text),
            other => Err(mismatch(Expected::Number, other)),
        }
    }

    /// Parses an expression.
    fn parse_expr(&mut self) -> (r: Result<Expr, ParseError>)
        requires
            old(self).wf(),
        ensures
            final(self).wf(),
            match expression(old(self).remaining()) {
                Ok((e, k)) => r is Ok && r->Ok_0@ == e && final(self).remaining() == rest(
                    old(self).remaining(),
                    1 + k,
                ),
                Err(e) => r is Err && r->Err_0@ == e,
            },
        decreases old(self).remaining().len(), 5nat,
    {
        proof {
            grammar::lemma_expression(self.remaining());
        }
        self.parse_add_sub()
    }

    /// Parses a sum: products joined by `+` and `-`, grouped to the left.
    fn parse_add_sub(&mut self) -> (r: Result<Expr, ParseError>)
        requires
            old(self).wf(),
        ensures
            final(self).wf(),
            match sum(old(self).remaining()) {
                Ok((e, k)) => r is Ok && r->Ok_0@ == e && final(self).remaining() == rest(
                    old(self).remaining(),
                    1 + k,
                ),
                Err(e) => r is Err && r->Err_0@ == e,
            },
        decreases old(self).remaining().len(), 4nat,
    {
        proof {
            grammar::lemma_sum(self.remaining());
        }
        let ghost ts0 = self.remaining();
        let mut expr = match self.parse_mul_div() {
            Ok(e) => e,
            Err(e) => {
                return Err(e);
            },
        };
        let ghost left0 = expr@;
        let ghost ts1 = self.remaining();
        let ghost n: nat = 0;
        proof {
            lemma_rest_of_rest(ts1, 0, 0);
        }
        loop
            invariant
                self.wf(),
                ts0 == old(self).remaining(),
                product(ts0) is Ok,
                product(ts0)->Ok_0.0 == left0,
                ts1 == rest(ts0, 1 + product(ts0)->Ok_0.1),
                self.remaining() == rest(ts1, n),
                match sum_tail(expr@, self.remaining()) {
                    Ok((e, m)) => sum_tail(left0, ts1) == Ok::<_, ParseErrorV>((e, n + m)),
                    Err(e) => sum_tail(left0, ts1) == Err::<(ExprV, nat), _>(e),
                },
            ensures
                self.wf(),
                self.remaining() == rest(ts1, n),
                sum_tail(left0, ts1) == Ok::<_, ParseErrorV>((expr@, n)),
            decreases self.remaining().len(),
        {
            proof {
                grammar::lemma_sum(ts0);
                grammar::lemma_sum_tail(expr@, self.remaining());
            }
            let ghost ts = self.remaining();
            let op = match self.current() {
                Token::Plus => BinOp::Add,
                Token::Minus => BinOp::Sub,
                _ => {
                    break ;
                },
            };
            assert(additive(head(ts)) == Some(op));
            self.bump();
            let rhs = match self.parse_mul_div() {
                Ok(e) => e,
                Err(e) => {
                    return Err(e);
                },
            };
            proof {
                let k = product(rest(ts, 1))->Ok_0.1;
                lemma_rest_of_rest(ts, 1, 1 + k);
                lemma_rest_of_rest(ts1, n, 2 + k);
                n = n + 2 + k;
            }
            expr = Expr::Binary { op, left: Box::new(expr), right: Box::new(rhs) };
        }
        proof {
            let k = product(ts0)->Ok_0.1;
            lemma_rest_of_rest(ts0, 1 + k, n);
        }
        Ok(expr)
    }

    /// Parses a product: primary expressions joined by `*` and `/`, grouped
    /// to the left.
    fn parse_mul_div(&mut self) -> (r: Result<Expr, ParseError>)
        requires
            old(self).wf(),
        ensures
            final(self).wf(),
            match product(old(self).remaining()) {
                Ok((e, k)) => r is Ok && r->Ok_0@ == e && final(self).remaining() == rest(
                    old(self).remaining(),
                    1 + k,
                ),
                Err(e) => r is Err && r->Err_0@ == e,
            },
        decreases old(self).remaining().len(), 2nat,
    {
        proof {
            grammar::lemma_product(self.remaining());
        }
        let ghost ts0 = self.remaining();
        let mut expr = match self.parse_primary() {
            Ok(e) => e,
            Err(e) => {
                return Err(e);
            },
        };
        let ghost left0 = expr@;
        let ghost ts1 = self.remaining();
        let ghost n: nat = 0;
        proof {
            lemma_rest_of_rest(ts1, 0, 0);
        }
        loop
            invariant
                self.wf(),
                ts0 == old(self).remaining(),
                primary(ts0) is Ok,
                primary(ts0)->Ok_0.0 == left0,
                ts1 == rest(ts0, 1 + primary(ts0)->Ok_0.1),
                self.remaining() == rest(ts1, n),
                match product_tail(expr@, self.remaining()) {
                    Ok((e, m)) => product_tail(left0, ts1) == Ok::<_, ParseErrorV>((e, n + m)),
                    Err(e) => product_tail(left0, ts1) == Err::<(ExprV, nat), _>(e),
                },
            ensures
                self.wf(),
                self.remaining() == rest(ts1, n),
                product_tail(left0, ts1) == Ok::<_, ParseErrorV>((expr@, n)),
            decreases self.remaining().len(),
        {
            proof {
                grammar::lemma_product(ts0);
                grammar::lemma_product_tail(expr@, self.remaining());
            }
            let ghost ts = self.remaining();
            let op = match self.current() {
                Token::Star => BinOp::Mul,
                Token::Slash => BinOp::Div,
                _ => {
                    break ;
                },
            };
            assert(multiplicative(head(ts)) == Some(op));
            self.bump();
            let rhs = match self.parse_primary() {
                Ok(e) => e,
                Err(e) => {
                    return Err(e);
                },
            };
            proof {
                let k = primary(rest(ts, 1))->Ok_0.1;
                lemma_rest_of_rest(ts, 1, 1 + k);
                lemma_rest_of_rest(ts1, n, 2 + k);
                n = n + 2 + k;
            }
            expr = Expr::Binary { op, left: Box::new(expr), right: Box::new(rhs) };
        }
        proof {
            let k = primary(ts0)->Ok_0.1;
            lemma_rest_of_rest(ts0, 1 + k, n);
        }
        Ok(expr)
    }

    /// Parses one or more call arguments separated by commas.
    fn parse_arguments(&mut self) -> (r: Result<Vec<Expr>, ParseError>)
        requires
            old(self).wf(),
        ensures
            final(self).wf(),
            match arguments(old(self).remaining()) {
                Ok((a, k)) => r is Ok && expr_views(r->Ok_0@) == a && final(self).remaining()
                    == rest(old(self).remaining(), 1 + k),
                Err(e) => r is Err && r->Err_0@ == e,
            },
        decreases old(self).remaining().len(), 6nat,
    {
        proof {
            grammar::lemma_arguments(self.remaining());
        }
        let ghost ts0 = self.remaining();
        let mut args: Vec<Expr> = Vec::new();
        let ghost n: nat = 0;
        let ghost last: nat = 0;
        proof {
            lemma_rest_of_rest(ts0, 0, 0);
            assert(expr_views(args@) + arguments(ts0)->Ok_0.0 =~= arguments(ts0)->Ok_0.0);
        }
        loop
            invariant_except_break
                self.wf(),
                ts0 == old(self).remaining(),
                self.remaining() == rest(ts0, n),
                match arguments(self.remaining()) {
                    Ok((more, m)) => arguments(ts0) == Ok::<_, ParseErrorV>(
                        (expr_views(args@) + more, n + m),
                    ),
                    Err(e) => arguments(ts0) == Err::<(Seq<ExprV>, nat), _>(e),
                },
            ensures
                self.wf(),
                self.remaining() == rest(ts0, 1 + last),
                arguments(ts0) == Ok::<_, ParseErrorV>((expr_views(args@), last)),
            decreases self.remaining().len(),
        {
            proof {
                grammar::lemma_arguments(self.remaining());
            }
            let ghost ts = self.remaining();
            let ghost before = expr_views(args@);
            let arg = match self.parse_expr() {
                Ok(e) => e,
                Err(e) => {
                    return Err(e);
                },
            };
            let ghost k = expression(ts)->Ok_0.1;
            args.push(arg);
            proof {
                assert(expr_views(args@) =~= before + seq![arg@]);
                lemma_rest_of_rest(ts, 1 + k, 0);
                lemma_rest_of_rest(ts, 1 + k, 1);
                lemma_rest_of_rest(ts0, n, 1 + k);
                lemma_rest_of_rest(ts0, n, 2 + k);
            }
            if self.at_comma() {
                self.bump();
                proof {
                    match arguments(rest(ts, 2 + k)) {
                        Ok((more, m)) => {
                            assert(before + (seq![arg@] + more) =~= expr_views(args@) + more);
                        },
                        Err(e) => {},
                    }
                    n = n + 2 + k;
                }
            } else {
                proof {
                    last = n + k;
                }
                break ;
            }
        }
        Ok(args)
    }

    /// Tests whether the lookahead token is a comma.
    fn at_comma(&self) -> (r: bool)
        ensures
            r == (head(self.remaining()) is Comma),
    {
        match self.current() {
            Token::Comma => true,
            _ => false,
        }
    }

    /// Parses a primary expression: a numeric literal, an identifier, a
    /// call, or an expression in parentheses.
    fn parse_primary(&mut self) -> (r: Result<Expr, ParseError>)
        requires
            old(self).wf(),
        ensures
            final(self).wf(),
            match primary(old(self).remaining()) {
                Ok((e, k)) => r is Ok && r->Ok_0@ == e && final(self).remaining() == rest(
                    old(self).remaining(),
                    1 + k,
                ),
                Err(e) => r is Err && r->Err_0@ == e,
            },
        decreases old(self).remaining().len(), 0nat,
    {
        proof {
            grammar::lemma_primary(self.remaining());
        }
        let ghost ts0 = self.remaining();
        proof {
            lemma_rest_of_rest(ts0, 1, 0);
            lemma_rest_of_rest(ts0, 1, 1);
            lemma_rest_of_rest(ts0, 2, 0);
        }
        let tok = self.bump();
        match tok {
            Token::Number(text) => {
                match number::parse_literal(&text) {
                    Some(v) => Ok(Expr::NumberLiteral(v)),
                    None => Err(ParseError::InvalidNumericLiteral { text }),
                }
            },
            Token::Ident(name) => {
                if self.at(Expected::LParen) {
                    self.bump();
                    let args = if self.at(Expected::RParen) {
                        Vec::new()
                    } else {
                        match self.parse_arguments() {
                            Ok(a) => a,
                            Err(e) => {
                                return Err(e);
                            },
                        }
                    };
                    let ghost used: nat = if token_at(ts0, 2) is RParen {
                        2
                    } else {
                        3 + arguments(rest(ts0, 2))->Ok_0.1
                    };
                    proof {
                        lemma_rest_of_rest(ts0, 2, (used - 2) as nat);
                        lemma_rest_of_rest(ts0, used, 0);
                        lemma_rest_of_rest(ts0, used, 1);
                        lemma_call_view(name, args);
                        if token_at(ts0, 2) is RParen {
                            assert(expr_views(args@) =~= Seq::empty());
                        }
                    }
                    match self.expect_token(Expected::RParen) {
                        Ok(_) => Ok(Expr::Call { callee: name, args }),
                        Err(e) => Err(e),
                    }
                } else {
                    Ok(Expr::VarRef(name))
                }
            },
            Token::LParen => {
                let inner = match self.parse_expr() {
                    Ok(e) => e,
                    Err(e) => {
                        return Err(e);
                    },
                };
                proof {
                    let k = expression(rest(ts0, 1))->Ok_0.1;
                    lemma_rest_of_rest(ts0, 1, 1 + k);
                    lemma_rest_of_rest(ts0, 2 + k, 0);
                    lemma_rest_of_rest(ts0, 2 + k, 1);
                }
                match self.expect_token(Expected::RParen) {
                    Ok(_) => Ok(inner),
                    Err(e) => Err(e),
                }
            },
            other => Err(mismatch(Expected::Expression, other)),
        }
    }

    /// Parses a binding: `let`, name, `=`, initialiser, `;`.
    fn parse_let_stmt(&mut self) -> (r: Result<Stmt, ParseError>)
        requires
            old(self).wf(),
        ensures
            final(self).wf(),
            match let_stmt(old(self).remaining()) {
                Ok((s, k)) => r is Ok && r->Ok_0@ == s && final(self).remaining() == rest(
                    old(self).remaining(),
                    1 + k,
                ),
                Err(e) => r is Err && r->Err_0@ == e,
            },
    {
        let ghost ts0 = self.remaining();
        proof {
            lemma_rest_shift(ts0, 1);
            lemma_rest_shift(ts0, 2);
            lemma_rest_shift(ts0, 3);
        }
        self.bump();
        let name = match self.expect_ident() {
            Ok(n) => n,
            Err(e) => {
                return Err(e);
            },
        };
        match self.expect_token(Expected::Assign) {
            Ok(_) => {},
            Err(e) => {
                return Err(e);
            },
        }
        let init = match self.parse_expr() {
            Ok(x) => x,
            Err(e) => {
                return Err(e);
            },
        };
        proof {
            lemma_rest_shift(ts0, 4 + expression(rest(ts0, 3))->Ok_0.1);
        }
        match self.expect_token(Expected::Semicolon) {
            Ok(_) => Ok(Stmt::Let { name, init }),
            Err(e) => Err(e),
        }
    }

    /// Parses a qubit declaration: `qbit`, name, `;`.
    fn parse_qbit_decl(&mut self) -> (r: Result<Stmt, ParseError>)
        requires
            old(self).wf(),
        ensures
            final(self).wf(),
            match qbit_decl(old(self).remaining()) {
                Ok((s, k)) => r is Ok && r->Ok_0@ == s && final(self).remaining() == rest(
                    old(self).remaining(),
                    1 + k,
                ),
                Err(e) => r is Err && r->Err_0@ == e,
            },
    {
        let ghost ts0 = self.remaining();
        proof {
            lemma_rest_shift(ts0, 1);
            lemma_rest_shift(ts0, 2);
        }
        self.bump();
        let name = match self.expect_ident() {
            Ok(n) => n,
            Err(e) => {
                return Err(e);
            },
        };
        match self.expect_token(Expected::Semicolon) {
            Ok(_) => Ok(Stmt::QbitDecl { name }),
            Err(e) => Err(e),
        }
    }

    /// Parses a quantum operation: the one token that the lexer made of a
    /// gate call.
    fn parse_qop_stmt(&mut self) -> (r: Result<Stmt, ParseError>)
        requires
            old(self).wf(),
        ensures
            final(self).wf(),
            match qop_stmt(old(self).remaining()) {
                Ok((s, k)) => r is Ok && r->Ok_0@ == s && final(self).remaining() == rest(
                    old(self).remaining(),
                    1 + k,
                ),
                Err(e) => r is Err && r->Err_0@ == e,
            },
    {
        let tok = self.bump();
        match tok {
            Token::QOp { gate, target } => Ok(Stmt::QuantumOp { gate, target }),
            other => Err(mismatch(Expected::QuantumOp, other)),
        }
    }

    /// Parses a measurement: `measure`, target, optionally `->` and a
    /// classical name, `;`.
    fn parse_measure_stmt(&mut self) -> (r: Result<Stmt, ParseError>)
        requires
            old(self).wf(),
        ensures
            final(self).wf(),
            match measure_stmt(old(self).remaining()) {
                Ok((s, k)) => r is Ok && r->Ok_0@ == s && final(self).remaining() == rest(
                    old(self).remaining(),
                    1 + k,
                ),
                Err(e) => r is Err && r->Err_0@ == e,
            },
    {
        let ghost ts0 = self.remaining();
        proof {
            lemma_rest_shift(ts0, 1);
            lemma_rest_shift(ts0, 2);
            lemma_rest_shift(ts0, 3);
            lemma_rest_shift(ts0, 4);
        }
        self.bump();
        let target = match self.expect_ident() {
            Ok(n) => n,
            Err(e) => {
                return Err(e);
            },
        };
        let mut classical: Option<String> = None;
        let at_arrow = match self.current() {
            Token::Arrow => true,
            _ => false,
        };
        if at_arrow {
            self.bump();
            let cname = match self.expect_ident() {
                Ok(n) => n,
                Err(e) => {
                    return Err(e);
                },
            };
            classical = Some(cname);
        }
        match self.expect_token(Expected::Semicolon) {
            Ok(_) => Ok(Stmt::Measure { target, classical }),
            Err(e) => Err(e),
        }
    }

    /// Parses a return: `return`, then `;` or an expression and `;`.
    fn parse_return_stmt(&mut self) -> (r: Result<Stmt, ParseError>)
        requires
            old(self).wf(),
        ensures
            final(self).wf(),
            match return_stmt(old(self).remaining()) {
                Ok((s, k)) => r is Ok && r->Ok_0@ == s && final(self).remaining() == rest(
                    old(self).remaining(),
                    1 + k,
                ),
                Err(e) => r is Err && r->Err_0@ == e,
            },
    {
        let ghost ts0 = self.remaining();
        proof {
            lemma_rest_shift(ts0, 1);
        }
        self.bump();
        if self.at(Expected::Semicolon) {
            self.bump();
            Ok(Stmt::Return(None))
        } else {
            let expr = match self.parse_expr() {
                Ok(x) => x,
                Err(e) => {
                    return Err(e);
                },
            };
            proof {
                lemma_rest_shift(ts0, 2 + expression(rest(ts0, 1))->Ok_0.1);
            }
            match self.expect_token(Expected::Semicolon) {
                Ok(_) => Ok(Stmt::Return(Some(expr))),
                Err(e) => Err(e),
            }
        }
    }

    /// Parses an expression statement: an expression and `;`.
    fn parse_expr_stmt(&mut self) -> (r: Result<Stmt, ParseError>)
        requires
            old(self).wf(),
        ensures
            final(self).wf(),
            match expr_stmt(old(self).remaining()) {
                Ok((s, k)) => r is Ok && r->Ok_0@ == s && final(self).remaining() == rest(
                    old(self).remaining(),
                    1 + k,
                ),
                Err(e) => r is Err && r->Err_0@ == e,
            },
    {
        let ghost ts0 = self.remaining();
        let expr = match self.parse_expr() {
            Ok(x) => x,
            Err(e) => {
                return Err(e);
            },
        };
        proof {
            lemma_rest_shift(ts0, 1 + expression(ts0)->Ok_0.1);
        }
        match self.expect_token(Expected::Semicolon) {
            Ok(_) => Ok(Stmt::ExprStmt(expr)),
            Err(e) => Err(e),
        }
    }

    /// Parses a statement, chosen by the lookahead token.
    fn parse_stmt(&mut self) -> (r: Result<Stmt, ParseError>)
        requires
            old(self).wf(),
        ensures
            final(self).wf(),
            match statement(old(self).remaining()) {
                Ok((s, k)) => r is Ok && r->Ok_0@ == s && final(self).remaining() == rest(
                    old(self).remaining(),
                    1 + k,
                ),
                Err(e) => r is Err && r->Err_0@ == e,
            },
    {
        match self.current() {
            Token::Let => self.parse_let_stmt(),
            Token::Qbit => self.parse_qbit_decl(),
            Token::Return => self.parse_return_stmt(),
            Token::Measure => self.parse_measure_stmt(),
            Token::QOp { .. } => self.parse_qop_stmt(),
            _ => self.parse_expr_stmt(),
        }
    }

    /// Tests whether the lookahead token ends a block's statements: a `}`
    /// or the end of the stream.
    fn at_block_end(&self) -> (r: bool)
        ensures
            r == (head(self.remaining()) is RBrace || head(self.remaining()) is EOF),
    {
        match self.current() {
            Token::RBrace => true,
            Token::EOF => true,
            _ => false,
        }
    }

    /// Parses a block: `{`, statements, `}`.
    fn parse_block(&mut self) -> (r: Result<Vec<Stmt>, ParseError>)
        requires
            old(self).wf(),
        ensures
            final(self).wf(),
            match block(old(self).remaining()) {
                Ok((b, k)) => r is Ok && stmt_views(r->Ok_0@) == b && final(self).remaining()
                    == rest(old(self).remaining(), 1 + k),
                Err(e) => r is Err && r->Err_0@ == e,
            },
    {
        proof {
            reveal(statements);
        }
        let ghost ts0 = self.remaining();
        proof {
            lemma_rest_shift(ts0, 0);
            lemma_rest_shift(ts0, 1);
        }
        match self.expect_token(Expected::LBrace) {
            Ok(_) => {},
            Err(e) => {
                return Err(e);
            },
        }
        let ghost ts1 = self.remaining();
        let mut stmts: Vec<Stmt> = Vec::new();
        let ghost n: nat = 0;
        proof {
            assert(stmt_views(stmts@) + statements(ts1)->Ok_0.0 =~= statements(ts1)->Ok_0.0);
        }
        while !self.at_block_end()
            invariant
                self.wf(),
                ts0 == old(self).remaining(),
                ts1 == rest(ts0, 1),
                demand(ts0, 0, Expected::LBrace) is None,
                self.remaining() == rest(ts1, n),
                match statements(self.remaining()) {
                    Ok((more, m)) => statements(ts1) == Ok::<_, ParseErrorV>(
                        (stmt_views(stmts@) + more, n + m),
                    ),
                    Err(e) => statements(ts1) == Err::<(Seq<StmtV>, nat), _>(e),
                },
            decreases self.remaining().len(),
        {
            proof {
                reveal(statements);
            }
            let ghost ts = self.remaining();
            let ghost before = stmt_views(stmts@);
            let stmt = match self.parse_stmt() {
                Ok(s) => s,
                Err(e) => {
                    return Err(e);
                },
            };
            let ghost k = statement(ts)->Ok_0.1;
            stmts.push(stmt);
            proof {
                assert(stmt_views(stmts@) =~= before + seq![stmt@]);
                lemma_rest_shift(ts1, n);
                match statements(rest(ts, 1 + k)) {
                    Ok((more, m)) => {
                        assert(before + (seq![stmt@] + more) =~= stmt_views(stmts@) + more);
                    },
                    Err(e) => {},
                }
                n = n + 1 + k;
            }
        }
        proof {
            assert(stmt_views(stmts@) + Seq::empty() =~= stmt_views(stmts@));
            lemma_rest_shift(ts0, 1 + n);
        }
        match self.expect_token(Expected::RBrace) {
            Ok(_) => Ok(stmts),
            Err(e) => Err(e),
        }
    }

    /// Parses one or more parameter names separated by commas.
    fn parse_parameters(&mut self) -> (r: Result<Vec<String>, ParseError>)
        requires
            old(self).wf(),
        ensures
            final(self).wf(),
            match parameters(old(self).remaining()) {
                Ok((p, k)) => r is Ok && name_views(r->Ok_0@) == p && final(self).remaining()
                    == rest(old(self).remaining(), 1 + k),
                Err(e) => r is Err && r->Err_0@ == e,
            },
    {
        proof {
            reveal(parameters);
        }
        let ghost ts0 = self.remaining();
        let mut params: Vec<String> = Vec::new();
        let ghost n: nat = 0;
        let ghost last: nat = 0;
        proof {
            lemma_rest_shift(ts0, 0);
            assert(name_views(params@) + parameters(ts0)->Ok_0.0 =~= parameters(ts0)->Ok_0.0);
        }
        loop
            invariant_except_break
                self.wf(),
                ts0 == old(self).remaining(),
                self.remaining() == rest(ts0, n),
                match parameters(self.remaining()) {
                    Ok((more, m)) => parameters(ts0) == Ok::<_, ParseErrorV>(
                        (name_views(params@) + more, n + m),
                    ),
                    Err(e) => parameters(ts0) == Err::<(Seq<Seq<char>>, nat), _>(e),
                },
            ensures
                self.wf(),
                self.remaining() == rest(ts0, 1 + last),
                parameters(ts0) == Ok::<_, ParseErrorV>((name_views(params@), last)),
            decreases self.remaining().len(),
        {
            proof {
                reveal(parameters);
            }
            let ghost ts = self.remaining();
            let ghost before = name_views(params@);
            proof {
                lemma_rest_shift(ts, 0);
                lemma_rest_shift(ts, 1);
                lemma_rest_shift(ts0, n);
            }
            let p = match self.expect_ident() {
                Ok(p) => p,
                Err(e) => {
                    return Err(e);
                },
            };
            params.push(p);
            proof {
                assert(name_views(params@) =~= before + seq![p@]);
            }
            if self.at_comma() {
                self.bump();
                proof {
                    match parameters(rest(ts, 2)) {
                        Ok((more, m)) => {
                            assert(before + (seq![p@] + more) =~= name_views(params@) + more);
                        },
                        Err(e) => {},
                    }
                    n = n + 2;
                }
            } else {
                proof {
                    last = n;
                }
                break ;
            }
        }
        Ok(params)
    }

    /// Parses a parameter list behind its `(`: nothing or parameters, then
    /// `)`.
    fn parse_parameter_list(&mut self) -> (r: Result<Vec<String>, ParseError>)
        requires
            old(self).wf(),
        ensures
            final(self).wf(),
            match parameter_list(old(self).remaining()) {
                Ok((p, c)) => r is Ok && name_views(r->Ok_0@) == p && final(self).remaining()
                    == rest(old(self).remaining(), c),
                Err(e) => r is Err && r->Err_0@ == e,
            },
    {
        let ghost ts0 = self.remaining();
        proof {
            lemma_rest_of_rest(ts0, 0, 0);
        }
        let params = if self.at(Expected::RParen) {
            let empty: Vec<String> = Vec::new();
            assert(name_views(empty@) =~= Seq::empty());
            empty
        } else {
            match self.parse_parameters() {
                Ok(p) => p,
                Err(e) => {
                    return Err(e);
                },
            }
        };
        proof {
            if !(head(ts0) is RParen) {
                let m = parameters(ts0)->Ok_0.1;
                lemma_rest_of_rest(ts0, 1 + m, 0);
                lemma_rest_of_rest(ts0, 1 + m, 1);
            }
        }
        match self.expect_token(Expected::RParen) {
            Ok(_) => Ok(params),
            Err(e) => Err(e),
        }
    }

    /// Parses a function: `fn`, name, parameter list in parentheses, block.
    /// The function keeps the partial-evaluation mode that the lexer is in
    /// when the parameter list has been closed.
    fn parse_function(&mut self) -> (r: Result<Function, ParseError>)
        requires
            old(self).wf(),
        ensures
            final(self).wf(),
            match function(old(self).remaining()) {
                Ok((f, k)) => r is Ok && r->Ok_0@ == f && final(self).remaining() == rest(
                    old(self).remaining(),
                    1 + k,
                ),
                Err(e) => r is Err && r->Err_0@ == e,
            },
    {
        let ghost ts0 = self.remaining();
        proof {
            lemma_rest_of_rest(ts0, 0, 0);
            lemma_rest_of_rest(ts0, 1, 0);
            lemma_rest_of_rest(ts0, 1, 1);
            lemma_rest_of_rest(ts0, 2, 0);
            lemma_rest_of_rest(ts0, 2, 1);
        }
        match self.expect_token(Expected::Fn) {
            Ok(_) => {},
            Err(e) => {
                return Err(e);
            },
        }
        let name = match self.expect_ident() {
            Ok(n) => n,
            Err(e) => {
                return Err(e);
            },
        };
        match self.expect_token(Expected::LParen) {
            Ok(_) => {},
            Err(e) => {
                return Err(e);
            },
        }
        assert(self.remaining() == rest(ts0, 3));
        let params = match self.parse_parameter_list() {
            Ok(p) => p,
            Err(e) => {
                return Err(e);
            },
        };
        let ghost c = parameter_list(rest(ts0, 3))->Ok_0.1;
        proof {
            lemma_rest_of_rest(ts0, 3, c);
        }
        assert(self.remaining() == rest(ts0, 3 + c));
        let pe_enabled = self.mode();
        let body = match self.parse_block() {
            Ok(b) => b,
            Err(e) => {
                return Err(e);
            },
        };
        proof {
            let m = block(rest(ts0, 3 + c))->Ok_0.1;
            lemma_rest_of_rest(ts0, 3 + c, 1 + m);
            assert(rest(ts0, 3 + c).len() > 0) by {
                lemma_rest_of_rest(rest(ts0, 3 + c), 0, 0);
            }
        }
        Ok(Function { name, params, body, pe_enabled })
    }

    /// Parses a program: functions up to the end of the stream. The first
    /// mismatch between the grammar and the tokens ends the parse with its
    /// error.
    pub fn parse_program(&mut self) -> (r: Result<Program, ParseError>)
        requires
            old(self).wf(),
        ensures
            final(self).wf(),
            match program(old(self).remaining()) {
                Ok(p) => r is Ok && r->Ok_0@ == p && final(self).remaining().len() == 0,
                Err(e) => r is Err && r->Err_0@ == e,
            },
    {
        proof {
            reveal(functions);
        }
        let ghost ts0 = self.remaining();
        let mut fns: Vec<Function> = Vec::new();
        proof {
            assert(function_views(fns@) + functions(ts0)->Ok_0 =~= functions(ts0)->Ok_0);
        }
        while !self.at_end()
            invariant
                self.wf(),
                ts0 == old(self).remaining(),
                match functions(self.remaining()) {
                    Ok(more) => functions(ts0) == Ok::<_, ParseErrorV>(
                        function_views(fns@) + more,
                    ),
                    Err(e) => functions(ts0) == Err::<Seq<FunctionV>, _>(e),
                },
            decreases self.remaining().len(),
        {
            proof {
                reveal(functions);
            }
            let ghost ts = self.remaining();
            let ghost before = function_views(fns@);
            let f = match self.parse_function() {
                Ok(f) => f,
                Err(e) => {
                    return Err(e);
                },
            };
            fns.push(f);
            proof {
                assert(function_views(fns@) =~= before + seq![f@]);
                match functions(self.remaining()) {
                    Ok(more) => {
                        assert(before + (seq![f@] + more) =~= function_views(fns@) + more);
                    },
                    Err(e) => {},
                }
            }
        }
        proof {
            assert(function_views(fns@) + Seq::empty() =~= function_views(fns@));
        }
        Ok(Program { functions: fns })
    }

    /// Tests whether the lookahead token is the end-of-stream sentinel.
    fn at_end(&self) -> (r: bool)
        ensures
            r == (head(self.remaining()) is EOF),
            r == (self.remaining().len() == 0),
    {
        proof {
            reveal(Parser::remaining);
        }
        match self.current() {
            Token::EOF => true,
            _ => false,
        }
    }
}

} // verus!
