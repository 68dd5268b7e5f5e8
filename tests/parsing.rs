use snoot::diagnostic::DiagnosticLevel;
use snoot::parse::{parse, ParseDiagnostic, StartEnd};
use snoot::sexpr::SexprKind;
use snoot::token::{tokenize, ListType, TokenInfo, TokenType};
use snoot::{simple_parse, Result, Sexpr};

#[derive(PartialEq, Eq, Debug)]
enum SimpleSexpr {
    List {
        opening: String,
        closing: String,
        entire: String,
        children: Vec<SimpleSexpr>,
    },
    String(String),
    Ident(String),
}

fn simplify(sexpr: &Sexpr) -> SimpleSexpr {
    match sexpr {
        Sexpr::List {
            list_type,
            children,
            span,
            ..
        } => SimpleSexpr::List {
            opening: list_type.to_string(true),
            closing: list_type.to_string(false),
            entire: span.text(),
            children: children.iter().map(simplify).collect(),
        },
        Sexpr::String(_, span) => SimpleSexpr::String(span.text()),
        Sexpr::Terminal(_, span) => SimpleSexpr::Ident(span.text()),
    }
}

fn parse_simple_err(string: &str, expected: Vec<SimpleSexpr>, _error: &str) {
    let Result { roots, .. } = parse(string, tokenize(string, &[]), None);
    for (actual, expected) in roots.iter().map(simplify).zip(expected) {
        assert_eq!(actual, expected);
    }
}

fn parse_simple_ok(string: &str, expected: Vec<SimpleSexpr>) {
    parse_simple_ok_split(string, expected, &[]);
}

fn parse_simple_ok_split(string: &str, expected: Vec<SimpleSexpr>, splits: &[&str]) {
    let Result { roots, diagnostics } = parse(string, tokenize(string, splits), None);
    assert!(diagnostics.is_empty());
    for (actual, expected) in roots.iter().map(simplify).zip(expected) {
        assert_eq!(actual, expected);
    }
}

fn list(open: &str, close: &str, entire: &str, children: Vec<SimpleSexpr>) -> SimpleSexpr {
    SimpleSexpr::List {
        opening: open.into(),
        closing: close.into(),
        entire: entire.into(),
        children,
    }
}

fn ident(s: &str) -> SimpleSexpr {
    SimpleSexpr::Ident(s.into())
}

#[test]
fn simplified_test_ident() {
    parse_simple_ok("foo", vec![SimpleSexpr::Ident("foo".into())]);
    parse_simple_ok(
        "foo bar",
        vec![SimpleSexpr::Ident("foo".into()), SimpleSexpr::Ident("bar".into())],
    );
}

#[test]
fn simplified_test_list() {
    parse_simple_ok("()", vec![list("(", ")", "()", vec![])]);
    parse_simple_ok(
        "(())",
        vec![list("(", ")", "(())", vec![list("(", ")", "()", vec![])])],
    );
}

#[test]
fn multiple_top_level_lists() {
    parse_simple_ok(
        "() ()",
        vec![list("(", ")", "()", vec![]), list("(", ")", "()", vec![])],
    );
    parse_simple_ok(
        "()()",
        vec![list("(", ")", "()", vec![]), list("(", ")", "()", vec![])],
    );
}

#[test]
fn prop_regression() {
    parse_simple_ok(
        "{a: 5 b : 10}",
        vec![list(
            "{",
            "}",
            "{a: 5 b : 10}",
            vec![ident("a:"), ident("5"), ident("b"), ident(":"), ident("10")],
        )],
    );
    parse_simple_ok_split(
        "{a: 5 b : 10}",
        vec![list(
            "{",
            "}",
            "{a: 5 b : 10}",
            vec![ident("a"), ident(":"), ident("5"), ident("b"), ident(":"), ident("10")],
        )],
        &[":"],
    );
}

#[test]
fn mismatched_list_recovery() {
    parse_simple_err(
        "(a b { c d)",
        vec![list(
            "(",
            ")",
            "(a b { c d)",
            vec![
                ident("a"),
                ident("b"),
                list("{", "}", "{ c d)", vec![ident("c"), ident("d")]),
            ],
        )],
        "",
    );
}

#[test]
fn test_single_ident() {
    let Result { roots, diagnostics } = parse("foo", tokenize("foo", &[]), None);
    assert!(diagnostics.is_empty());
    assert_eq!(roots.len(), 1);
    match &roots[0] {
        Sexpr::Terminal(token, span) => {
            assert_eq!(
                *token,
                TokenInfo {
                    line_number: 1,
                    column_number: 1,
                    byte_offset: 0,
                    typ: TokenType::Atom,
                    length: 3,
                }
            );
            assert!(span.file.is_none());
            assert_eq!(span.text_bytes, StartEnd { start: 0, end: 3 });
            assert_eq!(span.lines_bytes, StartEnd { start: 0, end: 3 });
            assert_eq!(span.lines_covered, StartEnd { start: 1, end: 1 });
            assert_eq!(span.columns, StartEnd { start: 1, end: 4 });
        }
        _ => panic!("expected a terminal"),
    }
}

#[test]
fn test_two_idents() {
    let Result { roots, diagnostics } = parse("foo bar", tokenize("foo bar", &[]), None);
    assert!(diagnostics.is_empty());
    assert_eq!(roots.len(), 2);
    match (&roots[0], &roots[1]) {
        (Sexpr::Terminal(t1, s1), Sexpr::Terminal(t2, s2)) => {
            assert_eq!(
                *t1,
                TokenInfo {
                    line_number: 1,
                    column_number: 1,
                    byte_offset: 0,
                    typ: TokenType::Atom,
                    length: 3,
                }
            );
            assert_eq!(s1.text_bytes, StartEnd { start: 0, end: 3 });
            assert_eq!(s1.lines_bytes, StartEnd { start: 0, end: 7 });
            assert_eq!(s1.lines_covered, StartEnd { start: 1, end: 1 });
            assert_eq!(s1.columns, StartEnd { start: 1, end: 4 });
            assert_eq!(
                *t2,
                TokenInfo {
                    line_number: 1,
                    column_number: 5,
                    byte_offset: 4,
                    typ: TokenType::Atom,
                    length: 3,
                }
            );
            assert_eq!(s2.text_bytes, StartEnd { start: 4, end: 7 });
            assert_eq!(s2.lines_bytes, StartEnd { start: 0, end: 7 });
            assert_eq!(s2.lines_covered, StartEnd { start: 1, end: 1 });
            assert_eq!(s2.columns, StartEnd { start: 5, end: 8 });
        }
        _ => panic!("expected two terminals"),
    }
}

fn check_empty_list(text: &str, typ: ListType) {
    let Result { roots, diagnostics } = parse(text, tokenize(text, &[]), None);
    assert!(diagnostics.is_empty());
    assert_eq!(roots.len(), 1);
    match &roots[0] {
        Sexpr::List {
            list_type,
            opening_token,
            closing_token,
            children,
            span,
        } => {
            assert_eq!(*list_type, typ);
            assert_eq!(
                *opening_token,
                TokenInfo {
                    line_number: 1,
                    column_number: 1,
                    byte_offset: 0,
                    typ: TokenType::ListOpening(typ),
                    length: 1,
                }
            );
            assert_eq!(
                *closing_token,
                TokenInfo {
                    line_number: 1,
                    column_number: 2,
                    byte_offset: 1,
                    typ: TokenType::ListClosing(typ),
                    length: 1,
                }
            );
            assert!(children.is_empty());
            assert!(span.file.is_none());
            assert_eq!(span.text_bytes, StartEnd { start: 0, end: 2 });
            assert_eq!(span.lines_bytes, StartEnd { start: 0, end: 2 });
            assert_eq!(span.lines_covered, StartEnd { start: 1, end: 1 });
            assert_eq!(span.columns, StartEnd { start: 1, end: 3 });
        }
        _ => panic!("expected a list"),
    }
}

#[test]
fn test_parens() {
    check_empty_list("()", ListType::Paren);
    check_empty_list("{}", ListType::Brace);
    check_empty_list("[]", ListType::Bracket);
}

#[test]
fn balanced_scenario() {
    let Result { roots, diagnostics } = simple_parse("()", &[], None);
    assert!(diagnostics.is_empty());
    assert_eq!(roots.len(), 1);
    assert_eq!(roots[0].kind(), SexprKind::List);
    match &roots[0] {
        Sexpr::List {
            list_type, children, ..
        } => {
            assert_eq!(*list_type, ListType::Paren);
            assert!(children.is_empty());
        }
        _ => panic!("expected a list"),
    }
}

#[test]
fn unclosed_scenario() {
    let Result { roots, diagnostics } = simple_parse("(", &[], None);
    assert_eq!(roots.len(), 1);
    assert_eq!(roots[0].text(), "(");
    assert_eq!(diagnostics.len(), 1);
    let d = &diagnostics.iter()[0];
    assert_eq!(d.message, "unclosed list");
    assert_eq!(d.global_span.text(), "(");
    assert!(d.error_level == DiagnosticLevel::Error);
}

#[test]
fn unclosed_list_ends_at_last_child() {
    let Result { roots, diagnostics } = simple_parse("(a (b c", &[], None);
    assert_eq!(roots.len(), 1);
    assert_eq!(roots[0].text(), "(a (b c");
    assert_eq!(diagnostics.len(), 2);
    assert_eq!(diagnostics.iter()[0].global_span.text(), "(b c");
    assert_eq!(diagnostics.iter()[1].global_span.text(), "(a (b c");
}

#[test]
fn extra_closer_scenario() {
    let Result { roots, diagnostics } = simple_parse(")", &[], None);
    assert_eq!(roots.len(), 0);
    assert_eq!(diagnostics.len(), 1);
    let d = &diagnostics.iter()[0];
    assert_eq!(d.message, "extra list closing");
    assert_eq!(d.global_span.text(), ")");
}

#[test]
fn mismatched_scenario_reports_once() {
    let Result { roots, diagnostics } = simple_parse("(a b { c d)", &[], None);
    assert_eq!(diagnostics.len(), 1);
    let d = &diagnostics.iter()[0];
    assert_eq!(d.message, "Expected } but found )");
    assert_eq!(d.global_span.text(), "{ c d)");
    assert_eq!(roots.len(), 1);
    assert_eq!(roots[0].text(), "(a b { c d)");
}

#[test]
fn mismatch_events_carry_kinds() {
    let text = "[x)";
    let tokens = tokenize(text, &[]);
    let Result { diagnostics, .. } = parse(text, tokens, Some("f".to_string()));
    assert_eq!(diagnostics.len(), 2);
    assert_eq!(diagnostics.iter()[0].message, "Expected ] but found )");
    assert_eq!(diagnostics.iter()[1].message, "extra list closing");
    assert!(diagnostics.contains_errors());
    assert!(!diagnostics.contains_warnings());
}

#[test]
fn tokenization_error_becomes_diagnostic() {
    let text = "(a)";
    let Result { diagnostics: first, roots } = simple_parse(text, &[], None);
    assert!(first.is_empty());
    let span = roots[0].span().copy();
    let mut tokens = tokenize(text, &[]);
    tokens.push(Err(snoot::token::TokError::UnclosedString(span)));
    let Result { roots, diagnostics } = parse(text, tokens, None);
    assert_eq!(roots.len(), 1);
    assert_eq!(diagnostics.len(), 1);
    assert_eq!(diagnostics.iter()[0].message, "unclosed string");
}

#[test]
fn into_diagnostic_of_extra_closing() {
    let Result { roots, .. } = simple_parse("x", &[], None);
    let d = ParseDiagnostic::ExtraClosing(roots[0].span().copy()).into_diagnostic();
    assert_eq!(d.message, "extra list closing");
    assert_eq!(d.padding, 2);
    assert!(d.min_gap.is_none());
}

#[test]
fn round_trip_span_text() {
    let Result { roots, .. } = simple_parse("(())", &[], None);
    assert_eq!(roots[0].text(), "(())");
    match &roots[0] {
        Sexpr::List { children, .. } => assert_eq!(children[0].text(), "()"),
        _ => panic!("expected a list"),
    }
}

#[test]
fn node_tokens() {
    let Result { roots, .. } = simple_parse("(a b)", &[], None);
    assert_eq!(roots[0].first_token().byte_offset, 0);
    assert_eq!(roots[0].last_token().byte_offset, 4);
    match &roots[0] {
        Sexpr::List { children, .. } => {
            assert_eq!(children.len(), 2);
            assert_eq!(children[1].kind(), SexprKind::Terminal);
            assert_eq!(children[1].text(), "b");
        }
        _ => panic!("expected a list"),
    }
}

#[test]
fn file_name_reaches_spans() {
    let Result { roots, .. } = simple_parse("a", &[], Some("x.lisp"));
    assert_eq!(roots[0].span().file, Some("x.lisp".to_string()));
}

#[test]
fn expect_list_and_terminals() {
    let Result { roots, .. } = simple_parse("(foo 1 2) bar -17 +4 9x", &[], None);
    let mut bag = snoot::diagnostic_bag::DiagnosticBag::new();
    let rest = roots[0].expect_list_with_symbol("foo", &mut bag).unwrap();
    assert_eq!(rest.len(), 2);
    assert_eq!(rest[0].expect_int(&mut bag), Some(1));
    assert!(bag.is_empty());
    assert!(roots[0].expect_list_with_symbol("baz", &mut bag).is_none());
    assert_eq!(bag.len(), 1);
    assert_eq!(bag.iter()[0].message, "Expected terminal `baz` found `foo`");
    assert!(roots[1].expect_list(&mut bag).is_none());
    assert_eq!(bag.iter()[1].message, "Expected to find a list, but found Terminal instead");
    assert_eq!(roots[1].expect_terminal("bar", &mut bag), Some(()));
    assert_eq!(roots[2].expect_int(&mut bag), Some(-17));
    assert_eq!(roots[3].expect_int(&mut bag), Some(4));
    assert_eq!(roots[4].expect_int(&mut bag), None);
    assert_eq!(bag.iter()[2].message, "Expected integer, failed to parse `9x`");
    assert_eq!(roots[0].expect_int(&mut bag), None);
    assert_eq!(bag.iter()[3].message, "Expected to find an integer, but found List instead");
    assert_eq!(roots[0].expect_terminal("x", &mut bag), None);
    assert_eq!(bag.iter()[4].message, "Expected terminal `x`");
    assert_eq!(roots[0].expect_list(&mut bag).map(|c| c.len()), Some(3));
}

#[test]
fn expect_list_with_symbol_on_empty_list() {
    let Result { roots, .. } = simple_parse("()", &[], None);
    let mut bag = snoot::diagnostic_bag::DiagnosticBag::new();
    assert!(roots[0].expect_list_with_symbol("foo", &mut bag).is_none());
    assert_eq!(
        bag.iter()[0].message,
        "Expected a list with symbol `foo` but found an empty list"
    );
}

#[test]
fn expect_int_out_of_range() {
    let Result { roots, .. } = simple_parse("9223372036854775807 9223372036854775808 -9223372036854775808", &[], None);
    let mut bag = snoot::diagnostic_bag::DiagnosticBag::new();
    assert_eq!(roots[0].expect_int(&mut bag), Some(i64::MAX));
    assert_eq!(roots[1].expect_int(&mut bag), None);
    assert_eq!(roots[2].expect_int(&mut bag), Some(i64::MIN));
    assert_eq!(bag.len(), 1);
}

#[test]
fn expect_int_follows_integer_syntax() {
    let Result { roots, .. } = simple_parse("007 - + --1 1_0 +0 -0 ٣", &[], None);
    let mut bag = snoot::diagnostic_bag::DiagnosticBag::new();
    let got: Vec<Option<i64>> = roots.iter().map(|r| r.expect_int(&mut bag)).collect();
    assert_eq!(got, vec![Some(7), None, None, None, None, Some(0), Some(0), None]);
    for r in &roots {
        assert_eq!(r.expect_int(&mut snoot::diagnostic_bag::DiagnosticBag::new()), r.text().parse::<i64>().ok());
    }
}
