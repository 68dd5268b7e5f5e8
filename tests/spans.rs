use snoot::parse::StartEnd;
use snoot::span::{find_newline, Span};
use snoot::{simple_parse, Result};

#[test]
fn find_newline_test() {
    let string = b"abc\n123\nxyz";
    {
        let st = find_newline(string, 5, -1) as usize;
        let en = find_newline(string, 5, 1) as usize;
        assert_eq!(st, 4);
        assert_eq!(en, 7);
        assert_eq!(&string[st..en], b"123");
    }
    {
        let st = find_newline(string, 1, -1) as usize;
        let en = find_newline(string, 1, 1) as usize;
        assert_eq!(st, 0);
        assert_eq!(en, 3);
        assert_eq!(&string[st..en], b"abc");
    }
    {
        let st = find_newline(string, 9, -1) as usize;
        let en = find_newline(string, 9, 1) as usize;
        assert_eq!(st, 8);
        assert_eq!(en, 11);
        assert_eq!(&string[st..en], b"xyz");
    }
}

#[test]
fn find_newline_at_a_newline() {
    let string = b"ab\ncd";
    assert_eq!(find_newline(string, 2, 1), 2);
    assert_eq!(find_newline(string, 3, -1), 3);
    assert_eq!(find_newline(string, 5, 1), 5);
    assert_eq!(find_newline(b"", 0, -1), 0);
}

fn spans_of(text: &str) -> Vec<Span> {
    let Result { roots, .. } = simple_parse(text, &[], Some("f"));
    roots.iter().map(|r| r.span().copy()).collect()
}

#[test]
fn merge_covers_both_in_either_order() {
    let s = spans_of("ab cd\nef");
    let ab = Span::from_spans(&s[0], &s[1]);
    let ba = Span::from_spans(&s[1], &s[0]);
    assert_eq!(ab.text_bytes, StartEnd { start: 0, end: 5 });
    assert_eq!(ba.text_bytes, ab.text_bytes);
    assert_eq!(ab.lines_bytes, StartEnd { start: 0, end: 5 });
    assert_eq!(ab.text(), "ab cd");
    let across = Span::from_spans(&s[2], &s[0]);
    assert_eq!(across.text(), "ab cd\nef");
    assert_eq!(across.lines_covered, StartEnd { start: 1, end: 2 });
    assert_eq!(across.columns, StartEnd { start: 1, end: 3 });
    assert_eq!(across.lines_bytes, StartEnd { start: 0, end: 8 });
    assert_eq!(across.lines(), "ab cd\nef");
}

#[test]
fn merge_associates_left_to_right() {
    let s = spans_of("a b c");
    let left = Span::from_spans(&Span::from_spans(&s[0], &s[1]), &s[2]);
    let right = Span::from_spans(&s[0], &Span::from_spans(&s[1], &s[2]));
    assert_eq!(left.text_bytes, right.text_bytes);
    assert_eq!(left.lines_bytes, right.lines_bytes);
    assert_eq!(left.lines_covered, right.lines_covered);
    assert_eq!(left.columns, right.columns);
    assert_eq!(left.text(), "a b c");
}

#[test]
fn merge_of_nested_spans_keeps_the_outer_end() {
    let s = spans_of("(a b)");
    let outer = &s[0];
    let inner = spans_of("(a b)");
    let merged = Span::from_spans(outer, &inner[0]);
    assert_eq!(merged.text_bytes, StartEnd { start: 0, end: 5 });
}

#[test]
fn span_lines_are_whole_lines() {
    let s = spans_of("x\n  (a\n b)  \ny");
    assert_eq!(s[1].text(), "(a\n b)");
    assert_eq!(s[1].lines(), "  (a\n b)  ");
    assert_eq!(s[1].lines_covered, StartEnd { start: 2, end: 3 });
}

#[test]
fn empty_span() {
    let e = Span::empty();
    assert_eq!(e.text(), "");
    assert_eq!(e.lines(), "");
    assert_eq!(e.text_bytes, StartEnd { start: 0, end: 0 });
    assert!(e.file.is_none());
}

#[test]
fn merge_all_spans() {
    let s = spans_of("a b\nc");
    let all = Span::merge_all(&s);
    assert_eq!(all.text(), "a b\nc");
    let none = Span::merge_all(&Vec::new());
    assert_eq!(none.text(), "");
}

#[test]
fn end_column_counts_characters() {
    let Result { roots, .. } = simple_parse("é(", &[], None);
    assert_eq!(roots[0].span().columns, StartEnd { start: 1, end: 2 });
    let Result { roots, .. } = simple_parse("片仮名 x", &[], None);
    assert_eq!(roots[0].span().columns, StartEnd { start: 1, end: 4 });
    assert_eq!(roots[1].span().columns, StartEnd { start: 5, end: 6 });
}

#[test]
fn merge_unions_lines_and_columns() {
    let s = spans_of("ab\n  cd");
    let m = Span::from_spans(&s[1], &s[0]);
    assert_eq!(m.lines_covered, StartEnd { start: 1, end: 2 });
    assert_eq!(m.columns, StartEnd { start: 1, end: 5 });
    let t = spans_of("  ab\ncd");
    let u = Span::from_spans(&t[0], &t[1]);
    assert_eq!(u.columns, StartEnd { start: 3, end: 3 });
    assert_eq!(u.lines_covered, StartEnd { start: 1, end: 2 });
    let n = Span::from_spans(&s[0], &s[1]);
    assert_eq!(n.lines_covered, m.lines_covered);
    assert_eq!(n.columns, m.columns);
    assert_eq!(n.text_bytes, m.text_bytes);
}
