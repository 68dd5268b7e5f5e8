use snoot::diagnostic::{base_10_length, Diagnostic, DiagnosticAnnotation, DiagnosticLevel};
use snoot::diagnostic_bag::DiagnosticBag;
use snoot::{simple_parse, Result};

const SOURCE: &str = "(define map (lambda (xs f)
  (if (nil xs) xs
      (cons (f (car xs))
            (map (cdr xs) f)))))
";

#[test]
fn mod_test_base_10_length() {
    assert_eq!(base_10_length(0), 1);
    assert_eq!(base_10_length(5), 1);
    assert_eq!(base_10_length(10), 2);
    assert_eq!(base_10_length(100), 3);
}

#[test]
fn error_test_base_10_length() {
    assert_eq!(base_10_length(0), 1);
    assert_eq!(base_10_length(5), 1);
    assert_eq!(base_10_length(10), 2);
    assert_eq!(base_10_length(100), 3);
}

#[test]
fn builder_test_base_10_length() {
    assert_eq!(base_10_length(0), 1);
    assert_eq!(base_10_length(5), 1);
    assert_eq!(base_10_length(10), 2);
    assert_eq!(base_10_length(100), 3);
}

#[test]
fn base_10_length_edges() {
    assert_eq!(base_10_length(9), 1);
    assert_eq!(base_10_length(99), 2);
    assert_eq!(base_10_length(usize::MAX), 20);
}

#[test]
fn mod_test_basic_error() {
    let Result { roots, diagnostics } = simple_parse(SOURCE, &[], Some("<anon>"));
    assert!(diagnostics.is_empty());

    let error = Diagnostic::new("this is the message".to_string(), roots[0].span())
        .with_error_level(DiagnosticLevel::Info);

    assert_eq!(
        error.render().trim(),
        r#"info: this is the message
 --> <anon>:1:1
1 | (define map (lambda (xs f)
2 |   (if (nil xs) xs
3 |       (cons (f (car xs))
4 |             (map (cdr xs) f)))))"#
    );
}

#[test]
fn builder_test_basic_error() {
    let Result { roots, diagnostics } = simple_parse(SOURCE, &[], Some("<anon>"));
    assert!(diagnostics.is_empty());
    let error = Diagnostic::new("this is the message".to_string(), roots[0].span())
        .with_error_level(DiagnosticLevel::Info);
    assert_eq!(
        error.render().trim(),
        r#"info: this is the message
 --> <anon>:1:1
1 | (define map (lambda (xs f)
2 |   (if (nil xs) xs
3 |       (cons (f (car xs))
4 |             (map (cdr xs) f)))))"#
    );
}

#[test]
fn error_test_basic_error() {
    let Result { roots, diagnostics } = simple_parse(SOURCE, &[], Some("<anon>"));
    assert!(diagnostics.is_empty());
    let error = Diagnostic::new("this is the message".to_string(), roots[0].span())
        .with_error_level(DiagnosticLevel::Info);
    assert_eq!(
        error.render().trim(),
        r#"info: this is the message
 --> <anon>:1:1
1 | (define map (lambda (xs f)
2 |   (if (nil xs) xs
3 |       (cons (f (car xs))
4 |             (map (cdr xs) f)))))"#
    );
}

#[test]
fn render_without_file() {
    let Result { roots, .. } = simple_parse("  (a\nb)", &[], None);
    let d = Diagnostic::new("oops".to_string(), roots[0].span());
    assert_eq!(d.render(), "error: oops\n --> 1:3\n1 |   (a\n2 | b)\n");
}

#[test]
fn render_is_repeatable() {
    let Result { roots, .. } = simple_parse(SOURCE, &[], Some("<anon>"));
    let d = Diagnostic::new("m".to_string(), roots[0].span());
    assert_eq!(d.render(), d.render());
}

#[test]
fn render_custom_level() {
    let Result { roots, .. } = simple_parse("x", &[], None);
    let d = Diagnostic::new("hi".to_string(), roots[0].span())
        .with_error_level(DiagnosticLevel::Custom("lint".to_string()));
    assert_eq!(d.render(), "lint: hi\n --> 1:1\n1 | x\n");
    let w = Diagnostic::new("hi".to_string(), roots[0].span())
        .with_error_level(DiagnosticLevel::Warn);
    assert_eq!(w.render(), "warn: hi\n --> 1:1\n1 | x\n");
}

fn tall_source() -> String {
    let mut s = String::from("(\n");
    for i in 0..10 {
        s.push_str(&format!("l{}\n", i));
    }
    s.push(')');
    s
}

#[test]
fn render_skips_long_far_runs() {
    let text = tall_source();
    let Result { roots, .. } = simple_parse(&text, &[], None);
    let d = Diagnostic::new("m".to_string(), roots[0].span()).with_min_gap(3);
    let out = d.render();
    assert_eq!(
        out,
        "error: m\n --> 1:1\n 1 | (\n 2 | l0\n 3 | l1\n ~ | skipped <4> through <9>\n10 | l8\n11 | l9\n12 | )\n"
    );
}

#[test]
fn render_keeps_short_far_runs() {
    let text = tall_source();
    let Result { roots, .. } = simple_parse(&text, &[], None);
    let d = Diagnostic::new("m".to_string(), roots[0].span()).with_min_gap(7);
    assert!(!d.render().contains("skipped"));
    let none = Diagnostic::new("m".to_string(), roots[0].span());
    assert!(!none.render().contains("skipped"));
}

#[test]
fn annotations_keep_nearby_lines() {
    let text = tall_source();
    let Result { roots, .. } = simple_parse(&text, &[], None);
    let children = match &roots[0] {
        snoot::Sexpr::List { children, .. } => children,
        _ => panic!("expected a list"),
    };
    let note = DiagnosticAnnotation::new("here".to_string(), children[5].span().copy());
    let d = Diagnostic::new("m".to_string(), roots[0].span())
        .with_min_gap(1)
        .with_garunteed_padding(1)
        .add_annotation(note);
    assert_eq!(
        d.render(),
        "error: m\n --> 1:1\n 1 | (\n 2 | l0\n ~ | skipped <3> through <5>\n 6 | l4\n 7 | l5\n 8 | l6\n ~ | skipped <9> through <10>\n11 | l9\n12 | )\n"
    );
}

#[test]
fn bag_queries() {
    let Result { roots, .. } = simple_parse("x", &[], None);
    let span = roots[0].span();
    let mut bag = DiagnosticBag::new();
    assert!(bag.is_empty());
    bag.add(Diagnostic::new("w".to_string(), span).with_error_level(DiagnosticLevel::Warn));
    assert!(bag.contains_warnings());
    assert!(!bag.contains_errors());
    assert!(!bag.contains_info());
    assert!(!bag.contains_any_custom());
    let mut other = DiagnosticBag::new();
    other.add(
        Diagnostic::new("c".to_string(), span)
            .with_error_level(DiagnosticLevel::Custom("style".to_string())),
    );
    other.add(Diagnostic::new("i".to_string(), span).with_error_level(DiagnosticLevel::Info));
    bag.append(other);
    assert_eq!(bag.len(), 3);
    assert!(bag.contains_any_custom());
    assert!(bag.contains_custom("style"));
    assert!(!bag.contains_custom("other"));
    assert!(bag.contains_info());
    assert_eq!(bag.iter()[1].message, "c");
    let from = DiagnosticBag::from_vec(vec![Diagnostic::new("e".to_string(), span)]);
    assert!(from.contains_errors());
}

#[test]
fn level_names() {
    assert_eq!(DiagnosticLevel::Info.as_str(), "info");
    assert_eq!(DiagnosticLevel::Warn.as_str(), "warn");
    assert_eq!(DiagnosticLevel::Error.as_str(), "error");
    assert_eq!(DiagnosticLevel::Custom("x".to_string()).as_str(), "x");
}

#[test]
fn editor_entries_are_zero_based() {
    let Result { diagnostics, .. } = simple_parse("a\n  )", &[], None);
    let entries = diagnostics.lsp_entries();
    assert_eq!(entries.len(), 1);
    assert_eq!(entries[0].severity, 0);
    assert_eq!(entries[0].message, "extra list closing");
    assert_eq!(entries[0].start_line, 1);
    assert_eq!(entries[0].start_character, 2);
    assert_eq!(entries[0].end_line, 1);
    assert_eq!(entries[0].end_character, 3);
}

#[test]
fn span_validity() {
    let Result { roots, .. } = simple_parse("ab", &[], None);
    assert!(roots[0].span().is_valid());
    let mut bad = roots[0].span().copy();
    bad.lines_bytes.end = 1;
    assert!(!bad.is_valid());
}

#[test]
fn sort_orders_by_file_then_position() {
    let Result { roots: a, .. } = simple_parse("x y", &[], Some("b.lisp"));
    let Result { roots: b, .. } = simple_parse("z", &[], Some("a.lisp"));
    let Result { roots: c, .. } = simple_parse("w", &[], None);
    let mut bag = DiagnosticBag::new();
    bag.add(Diagnostic::new("y".to_string(), a[1].span()));
    bag.add(Diagnostic::new("x".to_string(), a[0].span()));
    bag.add(Diagnostic::new("z".to_string(), b[0].span()));
    bag.add(Diagnostic::new("w".to_string(), c[0].span()));
    bag.sort();
    let order: Vec<String> = bag.iter().iter().map(|d| d.message.clone()).collect();
    assert_eq!(order, vec!["w", "z", "x", "y"]);
}

#[test]
fn render_drops_carriage_returns_before_newlines() {
    let Result { roots, .. } = simple_parse("(a\r\nb)\r\n", &[], None);
    let d = Diagnostic::new("m".to_string(), roots[0].span());
    assert_eq!(d.render(), "error: m\n --> 1:1\n1 | (a\n2 | b)\r\n");
    let Result { roots, .. } = simple_parse("(a\r\nb)", &[], None);
    let d = Diagnostic::new("m".to_string(), roots[0].span());
    assert_eq!(d.render(), "error: m\n --> 1:1\n1 | (a\n2 | b)\n");
}

#[test]
fn sort_keeps_equal_diagnostics_in_order() {
    let Result { roots, .. } = simple_parse("x", &[], None);
    let mut bag = DiagnosticBag::new();
    for m in ["first", "second", "third"] {
        bag.add(Diagnostic::new(m.to_string(), roots[0].span()));
    }
    bag.sort();
    let order: Vec<String> = bag.iter().iter().map(|d| d.message.clone()).collect();
    assert_eq!(order, vec!["first", "second", "third"]);
}

#[test]
fn sort_breaks_position_ties_by_source_text() {
    let Result { roots: later, .. } = simple_parse("b", &[], Some("f"));
    let Result { roots: earlier, .. } = simple_parse("a", &[], Some("f"));
    let mut bag = DiagnosticBag::new();
    bag.add(Diagnostic::new("from b".to_string(), later[0].span()));
    bag.add(Diagnostic::new("from a".to_string(), earlier[0].span()));
    bag.sort();
    let order: Vec<String> = bag.iter().iter().map(|d| d.message.clone()).collect();
    assert_eq!(order, vec!["from a", "from b"]);
}
