//! Tokens and the tokenizer.
use vstd::prelude::*;
use vstd::utf8::*;
use crate::span::Span;
use crate::text::{utf8_width, lemma_encode_push, lemma_char_index_boundary};

verus! {

/// The three kinds of bracket.
#[derive(Copy, Clone, PartialEq, Eq, Debug, Structural)]
pub enum ListType {
    /// `(` and `)`
    Paren,
    /// `[` and `]`
    Bracket,
    /// `{` and `}`
    Brace,
}

/// What a token is.
#[derive(Copy, Clone, PartialEq, Eq, Debug, Structural)]
pub enum TokenType {
    ListOpening(ListType),
    ListClosing(ListType),
    Whitespace,
    String,
    Atom,
}

/// A lexical error; the builtin tokenizer never produces one, stricter ones may.
pub enum TokError {
    UnclosedString(Span),
}

/// The outcome of reading one token.
pub type TokResult<T> = core::result::Result<T, TokError>;

/// One token: where it starts (1-based line and column, 0-based byte offset),
/// its length in bytes, and its kind.
#[derive(Copy, Clone, PartialEq, Eq, Debug, Structural)]
pub struct TokenInfo {
    pub line_number: usize,
    pub column_number: usize,
    pub byte_offset: usize,
    pub length: u32,
    pub typ: TokenType,
}

/// The bracket character of a list type, opening or closing.
pub open spec fn bracket_char(t: ListType, open: bool) -> char {
    match (t, open) {
        (ListType::Paren, true) => '(',
        (ListType::Brace, true) => '{',
        (ListType::Bracket, true) => '[',
        (ListType::Paren, false) => ')',
        (ListType::Brace, false) => '}',
        (ListType::Bracket, false) => ']',
    }
}

impl ListType {
    /// The bracket of this type as a one-character string.
    pub fn to_string(&self, open: bool) -> (r: String)
        ensures
            r@ == seq![bracket_char(*self, open)],
    {
        let s = match (*self, open) {
            (ListType::Paren, true) => "(",
            (ListType::Brace, true) => "{",
            (ListType::Bracket, true) => "[",
            (ListType::Paren, false) => ")",
            (ListType::Brace, false) => "}",
            (ListType::Bracket, false) => "]",
        };
        proof {
            reveal_strlit("(");
            reveal_strlit("{");
            reveal_strlit("[");
            reveal_strlit(")");
            reveal_strlit("}");
            reveal_strlit("]");
        }
        let r = s.to_string();
        proof {
            assert(r@ =~= seq![bracket_char(*self, open)]);
        }
        r
    }
}

/// A token fits a text when its byte range lies on character boundaries of
/// the text's encoding and its positions fit the span fields.
pub open spec fn token_fits(t: TokenInfo, text: Seq<char>) -> bool {
    let b = encode_utf8(text);
    &&& b.len() <= u32::MAX
    &&& t.byte_offset + t.length <= b.len()
    &&& is_char_boundary(b, t.byte_offset as int)
    &&& is_char_boundary(b, t.byte_offset + t.length)
    &&& t.line_number <= u32::MAX
    &&& t.column_number + t.length <= u32::MAX
}


/// Whether `c` has the Unicode White_Space property: tab through carriage
/// return, space, next line, no-break space, ogham space mark, the spaces
/// from en quad to hair space, line and paragraph separators, narrow
/// no-break space, medium mathematical space and ideographic space.
pub open spec fn white_space(c: char) -> bool {
    let v = c as u32;
    ||| 0x09 <= v <= 0x0d
    ||| v == 0x20
    ||| v == 0x85
    ||| v == 0xa0
    ||| v == 0x1680
    ||| 0x2000 <= v <= 0x200a
    ||| v == 0x2028
    ||| v == 0x2029
    ||| v == 0x202f
    ||| v == 0x205f
    ||| v == 0x3000
}

/// Whether `c` is white space, as `char::is_whitespace` decides.
pub fn is_white(c: char) -> (r: bool)
    ensures
        r == white_space(c),
{
    let v = c as u32;
    (0x09 <= v && v <= 0x0d) || v == 0x20 || v == 0x85 || v == 0xa0 || v == 0x1680 || (0x2000
        <= v && v <= 0x200a) || v == 0x2028 || v == 0x2029 || v == 0x202f || v == 0x205f || v
        == 0x3000
}

pub open spec fn is_bracket(c: char) -> bool {
    c == '(' || c == ')' || c == '[' || c == ']' || c == '{' || c == '}'
}

/// A character that may stand in an atom.
pub open spec fn atom_char(c: char) -> bool {
    !white_space(c) && !is_bracket(c)
}

/// The token kind of a bracket character.
pub open spec fn bracket_token(c: char) -> TokenType {
    if c == '(' {
        TokenType::ListOpening(ListType::Paren)
    } else if c == '[' {
        TokenType::ListOpening(ListType::Bracket)
    } else if c == '{' {
        TokenType::ListOpening(ListType::Brace)
    } else if c == ')' {
        TokenType::ListClosing(ListType::Paren)
    } else if c == ']' {
        TokenType::ListClosing(ListType::Bracket)
    } else {
        TokenType::ListClosing(ListType::Brace)
    }
}

/// A whitespace character; brackets never count as one.
pub open spec fn white_char(c: char) -> bool {
    white_space(c) && !is_bracket(c)
}

/// The length of the run of whitespace that starts `s`.
pub open spec fn white_run(s: Seq<char>) -> nat
    decreases s.len(),
{
    if s.len() > 0 && white_char(s[0]) {
        1 + white_run(s.drop_first())
    } else {
        0
    }
}

/// The length of the run of atom characters that starts `s`.
pub open spec fn atom_run(s: Seq<char>) -> nat
    decreases s.len(),
{
    if s.len() > 0 && atom_char(s[0]) {
        1 + atom_run(s.drop_first())
    } else {
        0
    }
}

/// Whether the non-empty pattern `p` occurs in `c` at position `i`.
pub open spec fn occurs_at(c: Seq<char>, p: Seq<char>, i: int) -> bool {
    &&& p.len() > 0
    &&& 0 <= i
    &&& i + p.len() <= c.len()
    &&& c.subrange(i, i + p.len()) == p
}

/// The length of the first splitter, in order, that occurs at the start of `c`.
pub open spec fn leading_splitter(c: Seq<char>, sp: Seq<Seq<char>>) -> Option<nat>
    decreases sp.len(),
{
    if sp.len() == 0 {
        None
    } else if occurs_at(c, sp[0], 0) {
        Some(sp[0].len())
    } else {
        leading_splitter(c, sp.drop_first())
    }
}

/// The first position at or after `i` where `p` occurs in `c`.
pub open spec fn find_from(c: Seq<char>, p: Seq<char>, i: int) -> Option<nat>
    decreases c.len() - i,
{
    if p.len() == 0 || i < 0 || i + p.len() > c.len() {
        None
    } else if occurs_at(c, p, i) {
        Some(i as nat)
    } else {
        find_from(c, p, i + 1)
    }
}

pub open spec fn min_opt(a: Option<nat>, b: Option<nat>) -> Option<nat> {
    match (a, b) {
        (None, y) => y,
        (x, None) => x,
        (Some(x), Some(y)) => Some(if x <= y { x } else { y }),
    }
}

/// The earliest position after the start of `c` where any splitter occurs.
pub open spec fn later_split(c: Seq<char>, sp: Seq<Seq<char>>) -> Option<nat>
    decreases sp.len(),
{
    if sp.len() == 0 {
        None
    } else {
        min_opt(later_split(c, sp.drop_last()), find_from(c, sp.last(), 1))
    }
}

/// How much of a candidate atom `c` the next token takes: a splitter that
/// starts it, else everything before the earliest splitter, else all of it.
pub open spec fn atom_len(c: Seq<char>, sp: Seq<Seq<char>>) -> nat {
    match leading_splitter(c, sp) {
        Some(n) => n,
        None => match later_split(c, sp) {
            Some(i) => i,
            None => c.len(),
        },
    }
}

/// The kind and length in characters of the token that starts `rest`.
pub open spec fn next_token(rest: Seq<char>, sp: Seq<Seq<char>>) -> (TokenType, nat) {
    let c = rest[0];
    if is_bracket(c) {
        (bracket_token(c), 1)
    } else if white_space(c) {
        (TokenType::Whitespace, white_run(rest))
    } else {
        (TokenType::Atom, atom_len(rest.subrange(0, atom_run(rest) as int), sp))
    }
}

/// The line and column reached after reading `s` from `line` and `col`.
pub open spec fn advance(s: Seq<char>, line: nat, col: nat) -> (nat, nat)
    decreases s.len(),
{
    if s.len() == 0 {
        (line, col)
    } else {
        let (l, c) = advance(s.drop_last(), line, col);
        if s.last() == '\n' {
            (l + 1, 1)
        } else {
            (l, c + 1)
        }
    }
}

/// The tokens of `rest`, the first of which starts at the given line, column
/// and byte offset.
pub open spec fn tokens_from(
    rest: Seq<char>,
    sp: Seq<Seq<char>>,
    line: nat,
    col: nat,
    byte: nat,
) -> Seq<TokenInfo>
    decreases rest.len(),
    via tokens_from_decreases
{
    if rest.len() == 0 {
        Seq::empty()
    } else {
        let (typ, n) = next_token(rest, sp);
        let piece = rest.subrange(0, n as int);
        let (l2, c2) = advance(piece, line, col);
        let blen = encode_utf8(piece).len();
        seq![
            TokenInfo {
                line_number: line as usize,
                column_number: col as usize,
                byte_offset: byte as usize,
                length: blen as u32,
                typ,
            },
        ] + tokens_from(rest.subrange(n as int, rest.len() as int), sp, l2, c2, byte + blen)
    }
}

#[via_fn]
proof fn tokens_from_decreases(
    rest: Seq<char>,
    sp: Seq<Seq<char>>,
    line: nat,
    col: nat,
    byte: nat,
) {
    if rest.len() > 0 {
        lemma_next_token_len(rest, sp);
    }
}

/// The tokens of a whole text.
pub open spec fn tokens_of(text: Seq<char>, sp: Seq<Seq<char>>) -> Seq<TokenInfo> {
    tokens_from(text, sp, 1, 1, 0)
}

/// The splitters as character sequences.
pub open spec fn splitter_view(sp: Seq<&str>) -> Seq<Seq<char>> {
    sp.map_values(|s: &str| s@)
}

pub open spec fn chars_view(sp: Seq<Vec<char>>) -> Seq<Seq<char>> {
    sp.map_values(|v: Vec<char>| v@)
}

proof fn lemma_white_run(s: Seq<char>)
    ensures
        white_run(s) <= s.len(),
        s.len() > 0 && white_char(s[0]) ==> white_run(s) >= 1,
    decreases s.len(),
{
    if s.len() > 0 && white_char(s[0]) {
        lemma_white_run(s.drop_first());
    }
}

proof fn lemma_atom_run(s: Seq<char>)
    ensures
        atom_run(s) <= s.len(),
        s.len() > 0 && atom_char(s[0]) ==> atom_run(s) >= 1,
    decreases s.len(),
{
    if s.len() > 0 && atom_char(s[0]) {
        lemma_atom_run(s.drop_first());
    }
}

proof fn lemma_leading_splitter(c: Seq<char>, sp: Seq<Seq<char>>)
    ensures
        leading_splitter(c, sp) matches Some(n) ==> 1 <= n <= c.len(),
    decreases sp.len(),
{
    if sp.len() > 0 && !occurs_at(c, sp[0], 0) {
        lemma_leading_splitter(c, sp.drop_first());
    }
}

proof fn lemma_find_from(c: Seq<char>, p: Seq<char>, i: int)
    ensures
        find_from(c, p, i) matches Some(j) ==> i <= j && j + p.len() <= c.len() && p.len() > 0,
    decreases c.len() - i,
{
    if !(p.len() == 0 || i < 0 || i + p.len() > c.len()) && !occurs_at(c, p, i) {
        lemma_find_from(c, p, i + 1);
    }
}

proof fn lemma_later_split(c: Seq<char>, sp: Seq<Seq<char>>)
    ensures
        later_split(c, sp) matches Some(i) ==> 1 <= i < c.len(),
    decreases sp.len(),
{
    if sp.len() > 0 {
        lemma_later_split(c, sp.drop_last());
        lemma_find_from(c, sp.last(), 1);
    }
}

pub(crate) proof fn lemma_next_token_len(rest: Seq<char>, sp: Seq<Seq<char>>)
    requires
        rest.len() > 0,
    ensures
        1 <= next_token(rest, sp).1 <= rest.len(),
{
    lemma_white_run(rest);
    lemma_atom_run(rest);
    let c = rest.subrange(0, atom_run(rest) as int);
    lemma_leading_splitter(c, sp);
    lemma_later_split(c, sp);
}

/// The characters of `s`.
pub(crate) fn chars_of(s: &str) -> (r: Vec<char>)
    ensures
        r@ == s@,
{
    let n = s.unicode_len();
    let mut r: Vec<char> = Vec::new();
    let mut i: usize = 0;
    while i < n
        invariant
            n == s@.len(),
            i <= n,
            r@ == s@.subrange(0, i as int),
        decreases n - i,
    {
        r.push(s.get_char(i));
        i = i + 1;
        proof {
            assert(r@ =~= s@.subrange(0, i as int));
        }
    }
    proof {
        assert(r@ =~= s@);
    }
    r
}

/// The splitters, each as its characters.
fn splitter_chars(sp: &[&str]) -> (r: Vec<Vec<char>>)
    ensures
        chars_view(r@) == splitter_view(sp@),
{
    let mut r: Vec<Vec<char>> = Vec::new();
    let mut i: usize = 0;
    while i < sp.len()
        invariant
            i <= sp@.len(),
            r@.len() == i,
            forall|j: int| 0 <= j < i ==> (#[trigger] r@[j])@ == sp@[j]@,
        decreases sp@.len() - i,
    {
        r.push(chars_of(sp[i]));
        i = i + 1;
    }
    proof {
        assert(chars_view(r@) =~= splitter_view(sp@));
    }
    r
}

fn is_bracket_char(c: char) -> (r: bool)
    ensures
        r == is_bracket(c),
{
    c == '(' || c == ')' || c == '[' || c == ']' || c == '{' || c == '}'
}

fn bracket_kind(c: char) -> (r: TokenType)
    ensures
        r == bracket_token(c),
{
    if c == '(' {
        TokenType::ListOpening(ListType::Paren)
    } else if c == '[' {
        TokenType::ListOpening(ListType::Bracket)
    } else if c == '{' {
        TokenType::ListOpening(ListType::Brace)
    } else if c == ')' {
        TokenType::ListClosing(ListType::Paren)
    } else if c == ']' {
        TokenType::ListClosing(ListType::Bracket)
    } else {
        TokenType::ListClosing(ListType::Brace)
    }
}

/// Whether `p` occurs at position `k` of `chars[from..to]`.
fn occurs(chars: &Vec<char>, from: usize, to: usize, p: &Vec<char>, k: usize) -> (r: bool)
    requires
        from <= to <= chars@.len(),
    ensures
        r == occurs_at(chars@.subrange(from as int, to as int), p@, k as int),
{
    let ghost c = chars@.subrange(from as int, to as int);
    if p.len() == 0 || k > to - from || p.len() > to - from - k {
        return false;
    }
    let mut m: usize = 0;
    while m < p.len()
        invariant
            m <= p@.len(),
            from + k + p@.len() <= to <= chars@.len(),
            c == chars@.subrange(from as int, to as int),
            forall|q: int| 0 <= q < m ==> c[k + q] == p@[q],
        decreases p@.len() - m,
    {
        if chars[from + k + m] != p[m] {
            proof {
                assert(c.subrange(k as int, k + p@.len())[m as int] != p@[m as int]);
            }
            return false;
        }
        m = m + 1;
    }
    proof {
        assert(c.subrange(k as int, k + p@.len()) =~= p@);
    }
    true
}

pub open spec fn opt_nat(o: Option<usize>) -> Option<nat> {
    match o {
        Some(i) => Some(i as nat),
        None => None,
    }
}

/// The first position at or after `start` where `p` occurs in `chars[from..to]`.
fn find_first(chars: &Vec<char>, from: usize, to: usize, p: &Vec<char>, start: usize) -> (r: Option<
    usize,
>)
    requires
        from <= to <= chars@.len(),
    ensures
        opt_nat(r) == find_from(chars@.subrange(from as int, to as int), p@, start as int),
{
    let ghost c = chars@.subrange(from as int, to as int);
    if p.len() == 0 {
        return None;
    }
    let mut k = start;
    while k <= to - from && p.len() <= to - from - k
        invariant
            start <= k,
            from <= to <= chars@.len(),
            c == chars@.subrange(from as int, to as int),
            p@.len() > 0,
            find_from(c, p@, start as int) == find_from(c, p@, k as int),
        decreases to - from - k,
    {
        if occurs(chars, from, to, p, k) {
            return Some(k);
        }
        k = k + 1;
    }
    None
}

/// How much of the candidate atom `chars[from..to]` the next token takes.
fn split_atom(chars: &Vec<char>, from: usize, to: usize, seps: &Vec<Vec<char>>) -> (r: usize)
    requires
        from <= to <= chars@.len(),
    ensures
        r == atom_len(chars@.subrange(from as int, to as int), chars_view(seps@)),
{
    let ghost c = chars@.subrange(from as int, to as int);
    let ghost sp = chars_view(seps@);
    let mut k: usize = 0;
    proof {
        assert(sp.subrange(0, sp.len() as int) =~= sp);
    }
    while k < seps.len()
        invariant
            k <= seps@.len(),
            sp == chars_view(seps@),
            from <= to <= chars@.len(),
            c == chars@.subrange(from as int, to as int),
            leading_splitter(c, sp) == leading_splitter(c, sp.subrange(k as int, sp.len() as int)),
        decreases seps@.len() - k,
    {
        proof {
            assert(sp.subrange(k as int, sp.len() as int).drop_first() =~= sp.subrange(
                k + 1,
                sp.len() as int,
            ));
            assert(sp.subrange(k as int, sp.len() as int)[0] == seps@[k as int]@);
        }
        if occurs(chars, from, to, &seps[k], 0) {
            return seps[k].len();
        }
        k = k + 1;
    }
    proof {
        assert(sp.subrange(sp.len() as int, sp.len() as int) =~= Seq::<Seq<char>>::empty());
    }
    let mut lowest: Option<usize> = None;
    let mut k: usize = 0;
    while k < seps.len()
        invariant
            k <= seps@.len(),
            sp == chars_view(seps@),
            from <= to <= chars@.len(),
            c == chars@.subrange(from as int, to as int),
            opt_nat(lowest) == later_split(c, sp.subrange(0, k as int)),
        decreases seps@.len() - k,
    {
        let found = find_first(chars, from, to, &seps[k], 1);
        proof {
            assert(sp.subrange(0, k + 1).drop_last() =~= sp.subrange(0, k as int));
            assert(sp.subrange(0, k + 1).last() == seps@[k as int]@);
        }
        lowest = match (lowest, found) {
            (None, y) => y,
            (x, None) => x,
            (Some(x), Some(y)) => Some(if x <= y { x } else { y }),
        };
        k = k + 1;
    }
    proof {
        assert(sp.subrange(0, sp.len() as int) =~= sp);
    }
    match lowest {
        Some(i) => i,
        None => to - from,
    }
}

/// The kind and length in characters of the token at `chars[pos..]`.
fn read_token(chars: &Vec<char>, pos: usize, seps: &Vec<Vec<char>>) -> (r: (TokenType, usize))
    requires
        pos < chars@.len(),
    ensures
        r.0 == next_token(chars@.subrange(pos as int, chars@.len() as int), chars_view(seps@)).0,
        r.1 == next_token(chars@.subrange(pos as int, chars@.len() as int), chars_view(seps@)).1,
        1 <= r.1 <= chars@.len() - pos,
{
    let n = chars.len();
    let ghost rest = chars@.subrange(pos as int, n as int);
    proof {
        lemma_next_token_len(rest, chars_view(seps@));
    }
    let c = chars[pos];
    if is_bracket_char(c) {
        (bracket_kind(c), 1)
    } else if is_white(c) {
        let mut j = pos;
        while j < n && is_white(chars[j]) && !is_bracket_char(chars[j])
            invariant
                pos <= j <= n == chars@.len(),
                rest == chars@.subrange(pos as int, n as int),
                white_run(rest) == (j - pos) + white_run(chars@.subrange(j as int, n as int)),
            decreases n - j,
        {
            proof {
                assert(chars@.subrange(j as int, n as int).drop_first() =~= chars@.subrange(
                    j + 1,
                    n as int,
                ));
            }
            j = j + 1;
        }
        (TokenType::Whitespace, j - pos)
    } else {
        let mut j = pos;
        while j < n && !is_white(chars[j]) && !is_bracket_char(chars[j])
            invariant
                pos <= j <= n == chars@.len(),
                rest == chars@.subrange(pos as int, n as int),
                atom_run(rest) == (j - pos) + atom_run(chars@.subrange(j as int, n as int)),
            decreases n - j,
        {
            proof {
                assert(chars@.subrange(j as int, n as int).drop_first() =~= chars@.subrange(
                    j + 1,
                    n as int,
                ));
            }
            j = j + 1;
        }
        proof {
            assert(rest.subrange(0, atom_run(rest) as int) =~= chars@.subrange(pos as int, j as int));
        }
        (TokenType::Atom, split_atom(chars, pos, j, seps))
    }
}

/// Splits `text` into tokens: runs of whitespace, single brackets, and atoms,
/// an atom being cut at the splitters it holds. Each token carries its line,
/// column and byte offset.
pub fn tokenize(text: &str, splitters: &[&str]) -> (r: Vec<TokResult<TokenInfo>>)
    requires
        encode_utf8(text@).len() < u32::MAX,
    ensures
        r@.len() == tokens_of(text@, splitter_view(splitters@)).len(),
        forall|i: int|
            0 <= i < r@.len() ==> r@[i] == Ok::<TokenInfo, TokError>(
                #[trigger] tokens_of(text@, splitter_view(splitters@))[i],
            ),
        forall|i: int|
            0 <= i < r@.len() ==> token_fits(
                #[trigger] tokens_of(text@, splitter_view(splitters@))[i],
                text@,
            ),
{
    let chars = chars_of(text);
    let seps = splitter_chars(splitters);
    let ghost sp = splitter_view(splitters@);
    let ghost t = text@;
    let n = chars.len();
    let mut out: Vec<TokResult<TokenInfo>> = Vec::new();
    let ghost mut toks: Seq<TokenInfo> = Seq::empty();
    let mut pos: usize = 0;
    let mut byte: usize = 0;
    let mut line: usize = 1;
    let mut col: usize = 1;
    proof {
        assert(t.subrange(0, 0) =~= Seq::<char>::empty());
        assert(t.subrange(0, n as int) =~= t);
        assert(toks + tokens_from(t, sp, 1, 1, 0) =~= tokens_of(t, sp));
    }
    while pos < n
        invariant
            chars@ == t,
            t == text@,
            n == t.len(),
            sp == chars_view(seps@),
            pos <= n,
            byte == encode_utf8(t.subrange(0, pos as int)).len(),
            encode_utf8(t).len() < u32::MAX,
            1 <= line <= pos + 1,
            1 <= col <= pos + 1,
            pos <= byte,
            tokens_of(t, sp) == toks + tokens_from(
                t.subrange(pos as int, n as int),
                sp,
                line as nat,
                col as nat,
                byte as nat,
            ),
            out@.len() == toks.len(),
            forall|i: int| 0 <= i < toks.len() ==> out@[i] == Ok::<TokenInfo, TokError>(toks[i]),
            forall|i: int| 0 <= i < toks.len() ==> token_fits(#[trigger] toks[i], t),
        decreases n - pos,
    {
        let (typ, len) = read_token(&chars, pos, &seps);
        let ghost rest = t.subrange(pos as int, n as int);
        let ghost piece = t.subrange(pos as int, pos + len);
        let mut l = line;
        let mut c = col;
        let mut blen: usize = 0;
        let mut m = pos;
        proof {
            assert(t.subrange(pos as int, pos as int) =~= Seq::<char>::empty());
            lemma_char_index_boundary(t, pos as int);
            lemma_char_index_boundary(t, (pos + len) as int);
        }
        while m < pos + len
            invariant
                pos <= m <= pos + len <= n,
                chars@ == t,
                n == t.len(),
                1 <= l <= line + (m - pos),
                1 <= c <= col + (m - pos),
                (l as nat, c as nat) == advance(t.subrange(pos as int, m as int), line as nat, col as nat),
                blen == encode_utf8(t.subrange(pos as int, m as int)).len(),
                byte == encode_utf8(t.subrange(0, pos as int)).len(),
                byte + blen == encode_utf8(t.subrange(0, m as int)).len(),
                m - pos <= blen,
                pos <= byte,
                1 <= line <= pos + 1,
                1 <= col <= pos + 1,
                encode_utf8(t).len() < u32::MAX,
            decreases pos + len - m,
        {
            let ch = chars[m];
            proof {
                assert(t.subrange(pos as int, m + 1) =~= t.subrange(pos as int, m as int).push(ch));
                assert(t.subrange(0, m + 1) =~= t.subrange(0, m as int).push(ch));
                lemma_encode_push(t.subrange(pos as int, m as int), ch);
                lemma_encode_push(t.subrange(0, m as int), ch);
                lemma_char_index_boundary(t, m + 1);
                assert(t.subrange(pos as int, m + 1).drop_last() =~= t.subrange(pos as int, m as int));
                assert(t.subrange(pos as int, m + 1).last() == ch);
            }
            blen = blen + utf8_width(ch) as usize;
            if ch == '\n' {
                l = l + 1;
                c = 1;
            } else {
                c = c + 1;
            }
            m = m + 1;
        }
        let tok = TokenInfo {
            line_number: line,
            column_number: col,
            byte_offset: byte,
            length: blen as u32,
            typ,
        };
        proof {
            assert(rest.subrange(0, len as int) =~= piece);
            assert(rest.subrange(len as int, rest.len() as int) =~= t.subrange(pos + len, n as int));
            assert(tokens_from(rest, sp, line as nat, col as nat, byte as nat) =~= seq![tok]
                + tokens_from(t.subrange(pos + len, n as int), sp, l as nat, c as nat, (byte + blen) as nat));
            toks = toks.push(tok);
            assert(tokens_of(t, sp) =~= toks + tokens_from(
                t.subrange(pos + len, n as int),
                sp,
                l as nat,
                c as nat,
                (byte + blen) as nat,
            ));
        }
        out.push(Ok(tok));
        pos = pos + len;
        byte = byte + blen;
        line = l;
        col = c;
    }
    proof {
        assert(t.subrange(n as int, n as int) =~= Seq::<char>::empty());
        assert(toks =~= tokens_of(t, sp));
    }
    out
}

} // verus!
