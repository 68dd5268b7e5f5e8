use snoot::token::{tokenize, ListType, TokenInfo, TokenType};

fn all_ok(string: &str) -> Vec<TokenInfo> {
    all_ok_split(string, &[])
}

fn all_ok_split(string: &str, sp: &[&str]) -> Vec<TokenInfo> {
    tokenize(string, sp)
        .into_iter()
        .map(|r| match r {
            Ok(t) => t,
            Err(_) => panic!("tokenization error"),
        })
        .collect()
}

fn tok(line: usize, col: usize, byte: usize, typ: TokenType, length: u32) -> TokenInfo {
    TokenInfo {
        line_number: line,
        column_number: col,
        byte_offset: byte,
        typ,
        length,
    }
}

#[test]
fn empty() {
    assert_eq!(all_ok(""), vec![]);
}

#[test]
fn single_open_paren() {
    assert_eq!(
        all_ok("("),
        vec![TokenInfo {
            line_number: 1,
            column_number: 1,
            byte_offset: 0,
            typ: TokenType::ListOpening(ListType::Paren),
            length: 1,
        }]
    );
}

#[test]
fn single_closing_paren() {
    assert_eq!(
        all_ok(")"),
        vec![TokenInfo {
            line_number: 1,
            column_number: 1,
            byte_offset: 0,
            typ: TokenType::ListClosing(ListType::Paren),
            length: 1,
        }]
    );
}

#[test]
fn paired_parens() {
    assert_eq!(
        all_ok("()"),
        vec![
            tok(1, 1, 0, TokenType::ListOpening(ListType::Paren), 1),
            tok(1, 2, 1, TokenType::ListClosing(ListType::Paren), 1),
        ]
    );
}

#[test]
fn nested_parens() {
    assert_eq!(
        all_ok("(())"),
        vec![
            tok(1, 1, 0, TokenType::ListOpening(ListType::Paren), 1),
            tok(1, 2, 1, TokenType::ListOpening(ListType::Paren), 1),
            tok(1, 3, 2, TokenType::ListClosing(ListType::Paren), 1),
            tok(1, 4, 3, TokenType::ListClosing(ListType::Paren), 1),
        ]
    );
}

#[test]
fn double_parens() {
    assert_eq!(
        all_ok("(("),
        vec![
            tok(1, 1, 0, TokenType::ListOpening(ListType::Paren), 1),
            tok(1, 2, 1, TokenType::ListOpening(ListType::Paren), 1),
        ]
    );
}

#[test]
fn unary_literal() {
    assert_eq!(all_ok("@"), vec![tok(1, 1, 0, TokenType::Atom, 1)]);
}

#[test]
fn numbers() {
    assert_eq!(all_ok("123"), vec![tok(1, 1, 0, TokenType::Atom, 3)]);
    assert_eq!(all_ok("-123"), vec![tok(1, 1, 0, TokenType::Atom, 4)]);
    assert_eq!(all_ok("123.456"), vec![tok(1, 1, 0, TokenType::Atom, 7)]);
    assert_eq!(all_ok("+123.456"), vec![tok(1, 1, 0, TokenType::Atom, 8)]);
}

#[test]
fn identifier() {
    assert_eq!(all_ok("hello-world"), vec![tok(1, 1, 0, TokenType::Atom, 11)]);
    assert_eq!(all_ok("a"), vec![tok(1, 1, 0, TokenType::Atom, 1)]);
    assert_eq!(
        all_ok("片仮名"),
        vec![tok(1, 1, 0, TokenType::Atom, "片仮名".len() as u32)]
    );
    assert_eq!(all_ok("-"), vec![tok(1, 1, 0, TokenType::Atom, 1)]);
}

#[test]
fn ident_white_ident() {
    assert_eq!(
        all_ok("hello world"),
        vec![
            tok(1, 1, 0, TokenType::Atom, 5),
            tok(1, 6, 5, TokenType::Whitespace, 1),
            tok(1, 7, 6, TokenType::Atom, 5),
        ]
    );
}

#[test]
fn split() {
    assert_eq!(
        all_ok_split("hello-world", &["-"]),
        vec![
            tok(1, 1, 0, TokenType::Atom, 5),
            tok(1, 6, 5, TokenType::Atom, 1),
            tok(1, 7, 6, TokenType::Atom, 5),
        ]
    );
    assert_eq!(
        all_ok_split("a:b", &[":"]),
        vec![
            tok(1, 1, 0, TokenType::Atom, 1),
            tok(1, 2, 1, TokenType::Atom, 1),
            tok(1, 3, 2, TokenType::Atom, 1),
        ]
    );
}

#[test]
fn splitter_absent_keeps_one_atom() {
    assert_eq!(all_ok("a:b"), vec![tok(1, 1, 0, TokenType::Atom, 3)]);
}

#[test]
fn leading_splitter_takes_its_own_length() {
    assert_eq!(
        all_ok_split("::x", &[":", "::"]),
        vec![
            tok(1, 1, 0, TokenType::Atom, 1),
            tok(1, 2, 1, TokenType::Atom, 1),
            tok(1, 3, 2, TokenType::Atom, 1),
        ]
    );
    assert_eq!(
        all_ok_split("::x", &["::", ":"]),
        vec![
            tok(1, 1, 0, TokenType::Atom, 2),
            tok(1, 3, 2, TokenType::Atom, 1),
        ]
    );
}

#[test]
fn earliest_splitter_wins() {
    assert_eq!(
        all_ok_split("ab-c:d", &[":", "-"]),
        vec![
            tok(1, 1, 0, TokenType::Atom, 2),
            tok(1, 3, 2, TokenType::Atom, 1),
            tok(1, 4, 3, TokenType::Atom, 1),
            tok(1, 5, 4, TokenType::Atom, 1),
            tok(1, 6, 5, TokenType::Atom, 1),
        ]
    );
}

#[test]
fn empty_splitter_is_ignored() {
    assert_eq!(all_ok_split("ab", &[""]), vec![tok(1, 1, 0, TokenType::Atom, 2)]);
}

#[test]
fn lines_and_columns_across_newlines() {
    assert_eq!(
        all_ok("a\n bc\t[]"),
        vec![
            tok(1, 1, 0, TokenType::Atom, 1),
            tok(1, 2, 1, TokenType::Whitespace, 2),
            tok(2, 2, 3, TokenType::Atom, 2),
            tok(2, 4, 5, TokenType::Whitespace, 1),
            tok(2, 5, 6, TokenType::ListOpening(ListType::Bracket), 1),
            tok(2, 6, 7, TokenType::ListClosing(ListType::Bracket), 1),
        ]
    );
}

#[test]
fn multibyte_columns_count_characters() {
    assert_eq!(
        all_ok("é x"),
        vec![
            tok(1, 1, 0, TokenType::Atom, 2),
            tok(1, 2, 2, TokenType::Whitespace, 1),
            tok(1, 3, 3, TokenType::Atom, 1),
        ]
    );
}

#[test]
fn unicode_whitespace_separates_atoms() {
    assert_eq!(
        all_ok("a\u{3000}b"),
        vec![
            tok(1, 1, 0, TokenType::Atom, 1),
            tok(1, 2, 1, TokenType::Whitespace, 3),
            tok(1, 3, 4, TokenType::Atom, 1),
        ]
    );
}

#[test]
fn braces_and_brackets_are_single_tokens() {
    assert_eq!(
        all_ok("{x}"),
        vec![
            tok(1, 1, 0, TokenType::ListOpening(ListType::Brace), 1),
            tok(1, 2, 1, TokenType::Atom, 1),
            tok(1, 3, 2, TokenType::ListClosing(ListType::Brace), 1),
        ]
    );
}

#[test]
fn bracket_strings() {
    assert_eq!(ListType::Paren.to_string(true), "(");
    assert_eq!(ListType::Bracket.to_string(false), "]");
    assert_eq!(ListType::Brace.to_string(true), "{");
}

#[test]
fn white_space_agrees_with_std() {
    for c in (0u32..=0x10ffff).filter_map(char::from_u32) {
        assert_eq!(snoot::token::is_white(c), c.is_whitespace(), "{:?}", c);
    }
}
