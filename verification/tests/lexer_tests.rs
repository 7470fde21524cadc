use qxad::lexer::annotate::Annotation;
use qxad::lexer::classical::{classify_word, lex_identifier};
use qxad::lexer::quantum::{is_self_inverse, lex_number, pair_cancels, quantum_reduce};
use qxad::lexer::model::Lead;
use qxad::lexer::text::{collect_range, is_ascii_digit, trimmed_text};
use qxad::lexer::{classify_lead, punctuation, Lexer, Token};

fn collect_tokens(mut lex: Lexer) -> Vec<Token> {
    let mut toks = Vec::new();
    loop {
        let t = lex.next_token();
        let is_eof = t == Token::EOF;
        toks.push(t);
        if is_eof {
            break;
        }
    }
    toks
}

fn lex(src: &str) -> Vec<Token> {
    collect_tokens(Lexer::new(src))
}

fn ident(s: &str) -> Token {
    Token::Ident(s.to_string())
}

fn gate(s: &str) -> Token {
    Token::Gate(s.to_string())
}

fn qop(g: &str, t: &str) -> Token {
    Token::QOp { gate: g.to_string(), target: t.to_string() }
}

fn count_qops(toks: &[Token]) -> usize {
    toks.iter().filter(|t| matches!(t, Token::QOp { .. })).count()
}

#[test]
fn test_let_binding_lexing() {
    let src = "let x = 42;";
    let lex = Lexer::new(src);
    let toks = collect_tokens(lex);

    assert_eq!(toks[0], Token::Let);
    assert_eq!(toks[1], Token::Ident("x".into()));
    assert_eq!(toks[2], Token::Assign);
    assert_eq!(toks[3], Token::Number("42".into()));
    assert_eq!(toks[4], Token::Semicolon);
    assert_eq!(toks[5], Token::EOF);
}

#[test]
fn test_simple_fn_like_rust() {
    let src = "fn add(x, y) { return x + y; }";
    let lex = Lexer::new(src);
    let toks = collect_tokens(lex);

    assert!(toks.contains(&Token::Fn));
    assert!(toks.contains(&Token::Ident("add".into())));
    assert!(toks.contains(&Token::Return));
    assert!(toks.contains(&Token::Plus));
    assert!(toks.contains(&Token::LBrace));
    assert!(toks.contains(&Token::RBrace));
    assert!(toks.contains(&Token::EOF));
}

#[test]
fn test_hybrid_classical_and_quantum() {
    let src = r#"
        let steps = 2;
        qbit q;
        #[pe]
        H(q);
        H(q);
        X(q);
        X(q);
        #[nope]
        X(q);
    "#;

    let lex = Lexer::new(src);
    let toks = collect_tokens(lex);

    assert!(toks.contains(&Token::Let));
    assert!(toks.contains(&Token::Ident("steps".into())));
    assert!(toks.contains(&Token::Qbit));

    let qops: Vec<_> = toks
        .iter()
        .filter_map(|t| {
            if let Token::QOp { gate, target } = t {
                Some((gate.clone(), target.clone()))
            } else {
                None
            }
        })
        .collect();

    assert_eq!(qops.len(), 1);
    assert_eq!(qops[0].0, "X");
    assert_eq!(qops[0].1, "q");
}

#[test]
fn let_binding_gives_exactly_six_tokens() {
    assert_eq!(
        lex("let x = 42;"),
        vec![
            Token::Let,
            ident("x"),
            Token::Assign,
            Token::Number("42".into()),
            Token::Semicolon,
            Token::EOF
        ]
    );
}

#[test]
fn pair_of_hadamards_vanishes() {
    let toks = lex("#[pe] H(q); H(q);");
    assert_eq!(toks, vec![Token::EOF]);
}

#[test]
fn mixed_run_leaves_the_operation_behind_the_disabling_pragma() {
    let toks = lex("#[pe] H(q); H(q); X(q); X(q); #[nope] X(q);");
    assert_eq!(toks, vec![qop("X", "q"), Token::EOF]);
}

#[test]
fn two_operand_gate_calls_stay_as_they_are() {
    let toks = lex("CNOT(a,b); CNOT(a,b);");
    let one = vec![
        gate("CNOT"),
        Token::LParen,
        ident("a"),
        Token::Comma,
        ident("b"),
        Token::RParen,
        Token::Semicolon,
    ];
    let mut expected = one.clone();
    expected.extend(one);
    expected.push(Token::EOF);
    assert_eq!(toks, expected);
}

#[test]
fn repeated_multi_qubit_operation_on_one_target_survives() {
    assert_eq!(
        lex("CNOT(a); CNOT(a);"),
        vec![qop("CNOT", "a"), qop("CNOT", "a"), Token::EOF]
    );
    assert_eq!(lex("CX(a); CX(a);"), vec![qop("CX", "a"), qop("CX", "a"), Token::EOF]);
    assert_eq!(
        lex("CCX(a); CCX(a); CCX(a);"),
        vec![qop("CCX", "a"), qop("CCX", "a"), qop("CCX", "a"), Token::EOF]
    );
}

#[test]
fn odd_run_leaves_one_and_even_run_leaves_none() {
    for g in ["H", "X", "Y", "Z"] {
        for k in 0..7usize {
            let src = format!("{}(q);", g).repeat(k);
            let toks = lex(&src);
            if k % 2 == 0 {
                assert_eq!(toks, vec![Token::EOF]);
            } else {
                assert_eq!(toks, vec![qop(g, "q"), Token::EOF]);
            }
        }
    }
}

#[test]
fn different_gate_or_target_never_cancels() {
    assert_eq!(lex("H(q); X(q);"), vec![qop("H", "q"), qop("X", "q"), Token::EOF]);
    assert_eq!(lex("H(q); H(r);"), vec![qop("H", "q"), qop("H", "r"), Token::EOF]);
    assert_eq!(
        lex("H(q); X(q); H(q);"),
        vec![qop("H", "q"), qop("X", "q"), qop("H", "q"), Token::EOF]
    );
}

#[test]
fn cancellation_exposes_an_earlier_pair() {
    assert_eq!(lex("H(q); X(q); X(q); H(q);"), vec![Token::EOF]);
    assert_eq!(lex("Z(a); H(q); X(q); X(q); H(q);"), vec![qop("Z", "a"), Token::EOF]);
}

#[test]
fn operations_across_a_disabling_pragma_do_not_cancel() {
    let mut l = Lexer::new("H(q); #[nope] H(q); H(q);");
    assert_eq!(l.next_token(), qop("H", "q"));
    assert_eq!(l.next_token(), qop("H", "q"));
    assert_eq!(l.next_token(), qop("H", "q"));
    assert_eq!(l.next_token(), Token::EOF);
    assert!(!l.pe_enabled);
}

#[test]
fn disabled_mode_hands_out_every_operation() {
    assert_eq!(
        lex("#[dynamic] X(q); X(q);"),
        vec![qop("X", "q"), qop("X", "q"), Token::EOF]
    );
}

#[test]
fn enabling_again_starts_cancelling_again() {
    assert_eq!(
        lex("#[nope] X(q); X(q); #[static] X(q); X(q); Y(q);"),
        vec![qop("X", "q"), qop("X", "q"), qop("Y", "q"), Token::EOF]
    );
}

#[test]
fn unknown_pragma_inside_a_session_changes_nothing() {
    let mut l = Lexer::new("H(q); #[inline] H(q); x");
    assert_eq!(l.next_token(), ident("x"));
    assert!(l.pe_enabled);
    assert_eq!(l.next_token(), Token::EOF);
}

#[test]
fn pragmas_are_never_handed_out() {
    let mut l = Lexer::new("#[pe] #[nope] #[weird] x #[static]");
    assert_eq!(l.next_token(), ident("x"));
    assert!(!l.pe_enabled);
    assert_eq!(l.next_token(), Token::EOF);
    assert!(l.pe_enabled);
}

#[test]
fn pragma_names_are_case_sensitive_and_trimmed() {
    let mut l = Lexer::new("#[NOPE] a #[  nope  ] b");
    assert_eq!(l.next_token(), ident("a"));
    assert!(l.pe_enabled);
    assert_eq!(l.next_token(), ident("b"));
    assert!(!l.pe_enabled);
}

#[test]
fn hash_without_bracket_is_an_unknown_token() {
    assert_eq!(lex("# x"), vec![Token::Unknown("#".into()), ident("x"), Token::EOF]);
    assert_eq!(lex("#"), vec![Token::Unknown("#".into()), Token::EOF]);
}

#[test]
fn unterminated_pragma_runs_to_the_end() {
    let mut l = Lexer::new("#[nope");
    assert_eq!(l.next_token(), Token::EOF);
    assert!(!l.pe_enabled);
}

#[test]
fn gate_name_without_call_is_a_bare_gate() {
    assert_eq!(lex("H x"), vec![gate("H"), ident("x"), Token::EOF]);
    assert_eq!(lex("H"), vec![gate("H"), Token::EOF]);
    assert_eq!(
        lex("H(q)"),
        vec![gate("H"), Token::LParen, ident("q"), Token::RParen, Token::EOF]
    );
    assert_eq!(
        lex("H(3);"),
        vec![
            gate("H"),
            Token::LParen,
            Token::Number("3".into()),
            Token::RParen,
            Token::Semicolon,
            Token::EOF
        ]
    );
}

#[test]
fn failed_lookahead_restores_tokens_in_order() {
    assert_eq!(
        lex("X + a * ( b )"),
        vec![
            gate("X"),
            Token::Plus,
            ident("a"),
            Token::Star,
            Token::LParen,
            ident("b"),
            Token::RParen,
            Token::EOF
        ]
    );
}

#[test]
fn gate_names_in_a_row_each_try_the_call() {
    assert_eq!(
        lex("H H H H H H(q);"),
        vec![gate("H"), gate("H"), gate("H"), gate("H"), gate("H"), qop("H", "q"), Token::EOF]
    );
    assert_eq!(lex("X Y(q);"), vec![gate("X"), qop("Y", "q"), Token::EOF]);
}

#[test]
fn bare_gate_behind_a_session_is_handed_out_behind_the_buffer() {
    assert_eq!(
        lex("H(q); CX(a,b); H(q);"),
        vec![
            qop("H", "q"),
            gate("CX"),
            Token::LParen,
            ident("a"),
            Token::Comma,
            ident("b"),
            Token::RParen,
            Token::Semicolon,
            qop("H", "q"),
            Token::EOF
        ]
    );
}

#[test]
fn other_token_ends_the_session() {
    assert_eq!(
        lex("H(q); x H(q);"),
        vec![qop("H", "q"), ident("x"), qop("H", "q"), Token::EOF]
    );
}

#[test]
fn pragma_between_gate_name_and_call_breaks_the_pattern() {
    let mut l = Lexer::new("H #[nope] (q);");
    assert_eq!(l.next_token(), gate("H"));
    assert!(l.pe_enabled);
    assert_eq!(l.next_token(), Token::LParen);
    assert!(!l.pe_enabled);
    assert_eq!(l.next_token(), ident("q"));
    assert_eq!(l.next_token(), Token::RParen);
    assert_eq!(l.next_token(), Token::Semicolon);
    assert_eq!(l.next_token(), Token::EOF);
}

#[test]
fn end_of_stream_repeats() {
    let mut l = Lexer::new("x");
    assert_eq!(l.next_token(), ident("x"));
    for _ in 0..5 {
        assert_eq!(l.next_token(), Token::EOF);
    }
    let mut l = Lexer::new("H");
    assert_eq!(l.next_token(), gate("H"));
    for _ in 0..7 {
        assert_eq!(l.next_token(), Token::EOF);
    }
    let mut l = Lexer::new("");
    for _ in 0..3 {
        assert_eq!(l.next_token(), Token::EOF);
    }
}

#[test]
fn punctuation_and_arrow() {
    assert_eq!(
        lex("( ) { } + - * / , ; -> = ->- -"),
        vec![
            Token::LParen,
            Token::RParen,
            Token::LBrace,
            Token::RBrace,
            Token::Plus,
            Token::Minus,
            Token::Star,
            Token::Slash,
            Token::Comma,
            Token::Semicolon,
            Token::Arrow,
            Token::Assign,
            Token::Arrow,
            Token::Minus,
            Token::Minus,
            Token::EOF
        ]
    );
}

#[test]
fn keywords_gates_and_identifiers() {
    assert_eq!(
        lex("let fn return qbit measure lets Fn _a1 b_2 h"),
        vec![
            Token::Let,
            Token::Fn,
            Token::Return,
            Token::Qbit,
            Token::Measure,
            ident("lets"),
            ident("Fn"),
            ident("_a1"),
            ident("b_2"),
            ident("h"),
            Token::EOF
        ]
    );
    for g in ["H", "X", "Y", "Z", "CX", "CNOT", "CCX"] {
        assert_eq!(lex(g), vec![gate(g), Token::EOF]);
    }
    assert_eq!(lex("HX"), vec![ident("HX"), Token::EOF]);
}

#[test]
fn numbers_keep_their_text() {
    assert_eq!(lex("42"), vec![Token::Number("42".into()), Token::EOF]);
    assert_eq!(lex("3.14"), vec![Token::Number("3.14".into()), Token::EOF]);
    assert_eq!(lex("1..2."), vec![Token::Number("1..2.".into()), Token::EOF]);
    assert_eq!(lex("7x"), vec![Token::Number("7".into()), ident("x"), Token::EOF]);
    assert_eq!(
        lex(".5"),
        vec![Token::Unknown(".".into()), Token::Number("5".into()), Token::EOF]
    );
}

#[test]
fn unknown_characters_become_tokens() {
    assert_eq!(
        lex("@ $x"),
        vec![Token::Unknown("@".into()), Token::Unknown("$".into()), ident("x"), Token::EOF]
    );
}

#[test]
fn unicode_letters_and_spaces() {
    assert_eq!(lex("\u{00e9}t\u{00e9}\u{2003}q"), vec![ident("\u{00e9}t\u{00e9}"), ident("q"), Token::EOF]);
}

#[test]
fn new_lexer_starts_with_mode_on() {
    let l = Lexer::new("abc");
    assert!(l.pe_enabled);
    assert!(l.pe());
    assert_eq!(l.peek(), Some('a'));
}

#[test]
fn peek_and_next_char() {
    let mut l = Lexer::new("ab");
    assert_eq!(l.peek(), Some('a'));
    assert_eq!(l.peek(), Some('a'));
    assert_eq!(l.next_char(), Some('a'));
    assert_eq!(l.next_char(), Some('b'));
    assert_eq!(l.peek(), None);
    assert_eq!(l.next_char(), None);
    assert_eq!(l.next_char(), None);
}

#[test]
fn lex_identifier_takes_the_rest_of_the_word() {
    let mut l = Lexer::new("bc_1 de");
    assert_eq!(lex_identifier(&mut l, 'a'), ident("abc_1"));
    assert_eq!(l.peek(), Some(' '));
    let mut l = Lexer::new("et x");
    assert_eq!(lex_identifier(&mut l, 'l'), Token::Let);
    let mut l = Lexer::new("NOT(");
    assert_eq!(lex_identifier(&mut l, 'C'), gate("CNOT"));
    assert_eq!(l.peek(), Some('('));
    let mut l = Lexer::new("");
    assert_eq!(lex_identifier(&mut l, 'q'), ident("q"));
}

#[test]
fn lex_number_takes_digits_and_dots() {
    let mut l = Lexer::new("23.5x");
    assert_eq!(lex_number(&mut l, '1'), Token::Number("123.5".into()));
    assert_eq!(l.peek(), Some('x'));
    let mut l = Lexer::new(" 2");
    assert_eq!(lex_number(&mut l, '9'), Token::Number("9".into()));
    assert_eq!(l.peek(), Some(' '));
}

#[test]
fn annotation_names() {
    assert_eq!(Annotation::from_str("pe"), Some(Annotation::PartialEval));
    assert_eq!(Annotation::from_str("nope"), Some(Annotation::NoPartialEval));
    assert_eq!(Annotation::from_str("static"), Some(Annotation::Static));
    assert_eq!(Annotation::from_str("dynamic"), Some(Annotation::Dynamic));
    assert_eq!(Annotation::from_str("PE"), None);
    assert_eq!(Annotation::from_str(""), None);
    assert_eq!(Annotation::from_str(" pe"), None);
    assert!(Annotation::PartialEval.enables_pe());
    assert!(Annotation::Static.enables_pe());
    assert!(!Annotation::NoPartialEval.enables_pe());
    assert!(!Annotation::Dynamic.enables_pe());
}

#[test]
fn reduce_cancels_to_a_fixpoint() {
    let mut buf = vec![qop("H", "q"), qop("X", "q"), qop("X", "q"), qop("H", "q"), qop("Z", "r")];
    quantum_reduce(&mut buf);
    assert_eq!(buf, vec![qop("Z", "r")]);
}

#[test]
fn reduce_is_idempotent() {
    let mut buf = vec![
        qop("H", "q"),
        qop("H", "q"),
        qop("H", "q"),
        qop("CX", "a"),
        qop("CX", "a"),
        qop("Y", "q"),
        qop("Y", "r"),
    ];
    quantum_reduce(&mut buf);
    let once = buf.clone();
    assert_eq!(
        once,
        vec![qop("H", "q"), qop("CX", "a"), qop("CX", "a"), qop("Y", "q"), qop("Y", "r")]
    );
    quantum_reduce(&mut buf);
    assert_eq!(buf, once);
}

#[test]
fn reduce_leaves_other_tokens_alone() {
    let mut buf = vec![gate("H"), gate("H"), ident("x"), ident("x"), Token::Semicolon, Token::Semicolon];
    let before = buf.clone();
    quantum_reduce(&mut buf);
    assert_eq!(buf, before);
    let mut empty: Vec<Token> = Vec::new();
    quantum_reduce(&mut empty);
    assert!(empty.is_empty());
    let mut single = vec![qop("H", "q")];
    quantum_reduce(&mut single);
    assert_eq!(single, vec![qop("H", "q")]);
}

#[test]
fn reduce_handles_long_nested_runs() {
    let mut buf = Vec::new();
    for g in ["H", "X", "Y", "Z", "H", "X"] {
        buf.push(qop(g, "q"));
    }
    for g in ["X", "H", "Z", "Y", "X", "H"] {
        buf.push(qop(g, "q"));
    }
    quantum_reduce(&mut buf);
    assert!(buf.is_empty());
}

#[test]
fn every_operation_counts_in_a_mixed_program() {
    let toks = lex("qbit q; H(q); H(q); measure q -> c; X(q);");
    assert_eq!(count_qops(&toks), 1);
    assert_eq!(
        toks,
        vec![
            Token::Qbit,
            ident("q"),
            Token::Semicolon,
            Token::Measure,
            ident("q"),
            Token::Arrow,
            ident("c"),
            Token::Semicolon,
            qop("X", "q"),
            Token::EOF
        ]
    );
}

#[test]
fn first_character_announces_the_token() {
    assert_eq!(classify_lead('#', false), Lead::Pragma);
    assert_eq!(classify_lead('7', true), Lead::Number);
    assert_eq!(classify_lead('0', true), Lead::Number);
    assert_eq!(classify_lead('x', true), Lead::Word);
    assert_eq!(classify_lead('_', false), Lead::Word);
    assert_eq!(classify_lead('\u{0663}', true), Lead::Word);
    assert_eq!(classify_lead('+', false), Lead::Punct);
    assert_eq!(classify_lead('.', false), Lead::Punct);
}

#[test]
fn single_characters_stand_for_punctuation() {
    assert_eq!(punctuation('-', true), Token::Arrow);
    assert_eq!(punctuation('-', false), Token::Minus);
    assert_eq!(punctuation('(', true), Token::LParen);
    assert_eq!(punctuation('=', false), Token::Assign);
    assert_eq!(punctuation('>', false), Token::Unknown(">".into()));
    assert_eq!(punctuation('@', false), Token::Unknown("@".into()));
}

#[test]
fn ascii_digits_only() {
    for c in '0'..='9' {
        assert!(is_ascii_digit(c));
    }
    assert!(!is_ascii_digit('a'));
    assert!(!is_ascii_digit('/'));
    assert!(!is_ascii_digit(':'));
    assert!(!is_ascii_digit('\u{0663}'));
}

#[test]
fn digit_of_another_script_starts_a_word() {
    assert_eq!(lex("\u{0663}x"), vec![ident("\u{0663}x"), Token::EOF]);
}

#[test]
fn arrow_needs_the_minus() {
    assert_eq!(
        lex("+> ->"),
        vec![Token::Plus, Token::Unknown(">".into()), Token::Arrow, Token::EOF]
    );
}

#[test]
fn pragmas_inside_a_session_do_not_end_it() {
    let mut l = Lexer::new("H(q); #[nope] #[pe] H(q); x");
    assert_eq!(l.next_token(), ident("x"));
    assert!(l.pe_enabled);
    assert_eq!(l.next_token(), Token::EOF);
}

#[test]
fn operation_behind_a_disabling_pragma_follows_the_buffer() {
    let mut l = Lexer::new("H(q); X(q); #[nope] X(q); #[pe] X(q);");
    assert_eq!(l.next_token(), qop("H", "q"));
    assert!(!l.pe_enabled);
    assert_eq!(l.next_token(), qop("X", "q"));
    assert_eq!(l.next_token(), qop("X", "q"));
    assert!(!l.pe_enabled);
    assert_eq!(l.next_token(), qop("X", "q"));
    assert!(l.pe_enabled);
    assert_eq!(l.next_token(), Token::EOF);
}

#[test]
fn words_are_keywords_gates_or_identifiers() {
    assert_eq!(classify_word("let".to_string()), Token::Let);
    assert_eq!(classify_word("fn".to_string()), Token::Fn);
    assert_eq!(classify_word("return".to_string()), Token::Return);
    assert_eq!(classify_word("qbit".to_string()), Token::Qbit);
    assert_eq!(classify_word("measure".to_string()), Token::Measure);
    assert_eq!(classify_word("CCX".to_string()), gate("CCX"));
    assert_eq!(classify_word("ccx".to_string()), ident("ccx"));
    assert_eq!(classify_word("Let".to_string()), ident("Let"));
    assert_eq!(classify_word("".to_string()), ident(""));
}

#[test]
fn only_the_four_single_qubit_gates_are_self_inverse() {
    for g in ["H", "X", "Y", "Z"] {
        assert!(is_self_inverse(&g.to_string()));
    }
    for g in ["CX", "CNOT", "CCX", "h", "", "HH"] {
        assert!(!is_self_inverse(&g.to_string()));
    }
}

#[test]
fn pairs_cancel_only_when_identical_and_self_inverse() {
    assert!(pair_cancels(&qop("H", "q"), &qop("H", "q")));
    assert!(!pair_cancels(&qop("H", "q"), &qop("H", "r")));
    assert!(!pair_cancels(&qop("H", "q"), &qop("X", "q")));
    assert!(!pair_cancels(&qop("CX", "q"), &qop("CX", "q")));
    assert!(!pair_cancels(&gate("H"), &gate("H")));
    assert!(!pair_cancels(&qop("H", "q"), &gate("H")));
}

#[test]
fn ranges_of_text() {
    let src: Vec<char> = "  ab c \t".chars().collect();
    assert_eq!(collect_range(&src, 2, 6), "ab c");
    assert_eq!(collect_range(&src, 3, 3), "");
    assert_eq!(trimmed_text(&src, 0, src.len()), "ab c");
    assert_eq!(trimmed_text(&src, 2, 4), "ab");
    assert_eq!(trimmed_text(&src, 0, 2), "");
    assert_eq!(trimmed_text(&src, 4, 8), "c");
    assert_eq!(trimmed_text(&src, 5, 5), "");
}
