use qxad::ast::{BinOp, Expr, Function, Program, Stmt};
use qxad::lexer::{Lexer, Token};
use qxad::parser::grammar::Expected;
use qxad::parser::number::parse_literal;
use qxad::parser::{ParseError, Parser};

fn parse(src: &str) -> Result<Program, ParseError> {
    let mut lexer = Lexer::new(src);
    let mut parser = Parser::new(&mut lexer);
    parser.parse_program()
}

fn body_of(src: &str) -> Vec<Stmt> {
    let mut p = parse(src).unwrap();
    assert_eq!(p.functions.len(), 1);
    p.functions.remove(0).body
}

fn expr_of(text: &str) -> Expr {
    let mut body = body_of(&format!("fn f() {{ return {}; }}", text));
    assert_eq!(body.len(), 1);
    match body.remove(0) {
        Stmt::Return(Some(e)) => e,
        other => panic!("not a return: {:?}", other),
    }
}

fn var(s: &str) -> Expr {
    Expr::VarRef(s.to_string())
}

fn bin(op: BinOp, l: Expr, r: Expr) -> Expr {
    Expr::Binary { op, left: Box::new(l), right: Box::new(r) }
}

fn call(name: &str, args: Vec<Expr>) -> Expr {
    Expr::Call { callee: name.to_string(), args }
}

#[test]
fn empty_input_is_an_empty_program() {
    assert_eq!(parse(""), Ok(Program { functions: vec![] }));
    assert_eq!(parse("   #[nope]  "), Ok(Program { functions: vec![] }));
}

#[test]
fn parses_a_simple_function() {
    let p = parse("fn add(x, y) { return x + y; }").unwrap();
    assert_eq!(
        p,
        Program {
            functions: vec![Function {
                name: "add".into(),
                params: vec!["x".into(), "y".into()],
                body: vec![Stmt::Return(Some(bin(BinOp::Add, var("x"), var("y"))))],
                pe_enabled: true,
            }]
        }
    );
}

#[test]
fn parses_several_functions_in_order() {
    let p = parse("fn a() { } fn b(x) { } fn c(x, y, z) { }").unwrap();
    let names: Vec<&str> = p.functions.iter().map(|f| f.name.as_str()).collect();
    assert_eq!(names, vec!["a", "b", "c"]);
    assert_eq!(p.functions[0].params.len(), 0);
    assert_eq!(p.functions[1].params, vec!["x".to_string()]);
    assert_eq!(p.functions[2].params, vec!["x".to_string(), "y".to_string(), "z".to_string()]);
}

#[test]
fn multiplication_binds_tighter_than_addition() {
    assert_eq!(
        expr_of("1 + 2 * 3"),
        bin(BinOp::Add, Expr::NumberLiteral(1), bin(BinOp::Mul, Expr::NumberLiteral(2), Expr::NumberLiteral(3)))
    );
    assert_eq!(
        expr_of("1 * 2 + 3"),
        bin(BinOp::Add, bin(BinOp::Mul, Expr::NumberLiteral(1), Expr::NumberLiteral(2)), Expr::NumberLiteral(3))
    );
    assert_eq!(
        expr_of("a / b - c"),
        bin(BinOp::Sub, bin(BinOp::Div, var("a"), var("b")), var("c"))
    );
}

#[test]
fn operators_group_to_the_left() {
    assert_eq!(
        expr_of("1 - 2 - 3"),
        bin(BinOp::Sub, bin(BinOp::Sub, Expr::NumberLiteral(1), Expr::NumberLiteral(2)), Expr::NumberLiteral(3))
    );
    assert_eq!(
        expr_of("8 / 4 / 2"),
        bin(BinOp::Div, bin(BinOp::Div, Expr::NumberLiteral(8), Expr::NumberLiteral(4)), Expr::NumberLiteral(2))
    );
}

#[test]
fn parentheses_group() {
    assert_eq!(
        expr_of("(1 + 2) * 3"),
        bin(BinOp::Mul, bin(BinOp::Add, Expr::NumberLiteral(1), Expr::NumberLiteral(2)), Expr::NumberLiteral(3))
    );
    assert_eq!(expr_of("((x))"), var("x"));
}

#[test]
fn calls_take_argument_lists() {
    assert_eq!(expr_of("f()"), call("f", vec![]));
    assert_eq!(expr_of("f(1)"), call("f", vec![Expr::NumberLiteral(1)]));
    assert_eq!(
        expr_of("f(a, g(1, 2), b + 1)"),
        call(
            "f",
            vec![
                var("a"),
                call("g", vec![Expr::NumberLiteral(1), Expr::NumberLiteral(2)]),
                bin(BinOp::Add, var("b"), Expr::NumberLiteral(1)),
            ]
        )
    );
}

#[test]
fn parses_every_statement_kind() {
    let body = body_of(
        "fn f() { let x = 1 + y; qbit q; X(q); measure q; measure q -> c; return; return x; g(x); }",
    );
    assert_eq!(
        body,
        vec![
            Stmt::Let { name: "x".into(), init: bin(BinOp::Add, Expr::NumberLiteral(1), var("y")) },
            Stmt::QbitDecl { name: "q".into() },
            Stmt::QuantumOp { gate: "X".into(), target: "q".into() },
            Stmt::Measure { target: "q".into(), classical: None },
            Stmt::Measure { target: "q".into(), classical: Some("c".into()) },
            Stmt::Return(None),
            Stmt::Return(Some(var("x"))),
            Stmt::ExprStmt(call("g", vec![var("x")])),
        ]
    );
}

#[test]
fn cancelled_operations_never_reach_the_tree() {
    let body = body_of("fn f() { qbit q; H(q); H(q); X(q); }");
    assert_eq!(
        body,
        vec![
            Stmt::QbitDecl { name: "q".into() },
            Stmt::QuantumOp { gate: "X".into(), target: "q".into() },
        ]
    );
}

#[test]
fn function_keeps_the_mode_at_the_start_of_its_body() {
    let p = parse("#[nope] fn f() { } #[pe] fn g() { } fn h() #[dynamic] { }").unwrap();
    assert!(!p.functions[0].pe_enabled);
    assert!(p.functions[1].pe_enabled);
    assert!(!p.functions[2].pe_enabled);
}

#[test]
fn pragma_inside_the_body_does_not_change_the_kept_mode() {
    let p = parse("fn f() { #[nope] x; } fn g() { }").unwrap();
    assert!(p.functions[0].pe_enabled);
    assert!(!p.functions[1].pe_enabled);
}

#[test]
fn top_level_must_be_a_function() {
    assert_eq!(
        parse("let x = 1;"),
        Err(ParseError::UnexpectedToken { expected: Expected::Fn, found: Token::Let })
    );
}

#[test]
fn missing_parameter_name_is_reported() {
    assert_eq!(
        parse("fn f( { }"),
        Err(ParseError::UnexpectedToken { expected: Expected::Identifier, found: Token::LBrace })
    );
    assert_eq!(
        parse("fn f(a,) { }"),
        Err(ParseError::UnexpectedToken { expected: Expected::Identifier, found: Token::RParen })
    );
    assert_eq!(
        parse("fn (a) { }"),
        Err(ParseError::UnexpectedToken { expected: Expected::Identifier, found: Token::LParen })
    );
}

#[test]
fn missing_punctuation_is_reported() {
    assert_eq!(
        parse("fn f a) { }"),
        Err(ParseError::UnexpectedToken {
            expected: Expected::LParen,
            found: Token::Ident("a".into())
        })
    );
    assert_eq!(
        parse("fn f(a b) { }"),
        Err(ParseError::UnexpectedToken {
            expected: Expected::RParen,
            found: Token::Ident("b".into())
        })
    );
    assert_eq!(
        parse("fn f() return; }"),
        Err(ParseError::UnexpectedToken { expected: Expected::LBrace, found: Token::Return })
    );
    assert_eq!(
        parse("fn f() { let x 1; }"),
        Err(ParseError::UnexpectedToken {
            expected: Expected::Assign,
            found: Token::Number("1".into())
        })
    );
    assert_eq!(
        parse("fn f() { let x = 1 }"),
        Err(ParseError::UnexpectedToken { expected: Expected::Semicolon, found: Token::RBrace })
    );
    assert_eq!(
        parse("fn f() { return (1 + 2; }"),
        Err(ParseError::UnexpectedToken { expected: Expected::RParen, found: Token::Semicolon })
    );
    assert_eq!(
        parse("fn f() { g(1; }"),
        Err(ParseError::UnexpectedToken { expected: Expected::RParen, found: Token::Semicolon })
    );
}

#[test]
fn end_of_input_is_reported() {
    assert_eq!(
        parse("fn f() {"),
        Err(ParseError::UnexpectedEndOfInput { expected: Expected::RBrace })
    );
    assert_eq!(parse("fn"), Err(ParseError::UnexpectedEndOfInput { expected: Expected::Identifier }));
    assert_eq!(parse("fn f"), Err(ParseError::UnexpectedEndOfInput { expected: Expected::LParen }));
    assert_eq!(
        parse("fn f()"),
        Err(ParseError::UnexpectedEndOfInput { expected: Expected::LBrace })
    );
    assert_eq!(
        parse("fn f() { return 1 +"),
        Err(ParseError::UnexpectedEndOfInput { expected: Expected::Expression })
    );
    assert_eq!(
        parse("fn f() { let x = 1"),
        Err(ParseError::UnexpectedEndOfInput { expected: Expected::Semicolon })
    );
}

#[test]
fn literal_without_a_value_is_reported() {
    assert_eq!(
        parse("fn f() { return 3.14; }"),
        Err(ParseError::InvalidNumericLiteral { text: "3.14".into() })
    );
    assert_eq!(
        parse("fn f() { return 9223372036854775808; }"),
        Err(ParseError::InvalidNumericLiteral { text: "9223372036854775808".into() })
    );
    assert_eq!(expr_of("9223372036854775807"), Expr::NumberLiteral(i64::MAX));
}

#[test]
fn bare_gate_name_is_no_statement() {
    assert_eq!(
        parse("fn f() { H; }"),
        Err(ParseError::UnexpectedToken {
            expected: Expected::Expression,
            found: Token::Gate("H".into())
        })
    );
    assert_eq!(
        parse("fn f() { CNOT(a, b); }"),
        Err(ParseError::UnexpectedToken {
            expected: Expected::Expression,
            found: Token::Gate("CNOT".into())
        })
    );
}

#[test]
fn first_error_wins() {
    assert_eq!(
        parse("fn f() { let = ; } fn 3"),
        Err(ParseError::UnexpectedToken { expected: Expected::Identifier, found: Token::Assign })
    );
}

#[test]
fn measure_needs_a_target() {
    assert_eq!(
        parse("fn f() { measure ; }"),
        Err(ParseError::UnexpectedToken { expected: Expected::Identifier, found: Token::Semicolon })
    );
    assert_eq!(
        parse("fn f() { measure q -> ; }"),
        Err(ParseError::UnexpectedToken { expected: Expected::Identifier, found: Token::Semicolon })
    );
}

#[test]
fn literal_values() {
    assert_eq!(parse_literal(&"42".to_string()), Some(42));
    assert_eq!(parse_literal(&"0".to_string()), Some(0));
    assert_eq!(parse_literal(&"007".to_string()), Some(7));
    assert_eq!(parse_literal(&"9223372036854775807".to_string()), Some(i64::MAX));
    assert_eq!(parse_literal(&"9223372036854775808".to_string()), None);
    assert_eq!(parse_literal(&"99999999999999999999999".to_string()), None);
    assert_eq!(parse_literal(&"".to_string()), None);
    assert_eq!(parse_literal(&"4a".to_string()), None);
    assert_eq!(parse_literal(&"1.5".to_string()), None);
    assert_eq!(parse_literal(&"-1".to_string()), None);
    assert_eq!(parse_literal(&"\u{0663}".to_string()), None);
}
