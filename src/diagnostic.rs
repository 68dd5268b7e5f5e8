//! Diagnostics and their rendering as annotated source excerpts.
use vstd::prelude::*;
use vstd::string::StringExecFns;
use vstd::utf8::*;
use crate::span::{Span, SpanView, span_wf, bytes_of, find_newline};
use crate::text::{line_end, lemma_line_start, lemma_line_end, lemma_line_window_boundaries, lemma_ascii_boundaries};

verus! {

/// How serious a diagnostic is.
#[derive(Clone, PartialEq, Eq, PartialOrd, Ord, Debug)]
pub enum DiagnosticLevel {
    Info,
    Warn,
    Error,
    Custom(String),
}

pub ghost enum Level {
    Info,
    Warn,
    Error,
    Custom(Seq<char>),
}

impl View for DiagnosticLevel {
    type V = Level;

    open spec fn view(&self) -> Level {
        match self {
            DiagnosticLevel::Info => Level::Info,
            DiagnosticLevel::Warn => Level::Warn,
            DiagnosticLevel::Error => Level::Error,
            DiagnosticLevel::Custom(s) => Level::Custom(s@),
        }
    }
}

/// The name of a level as the header shows it.
pub open spec fn level_name(l: Level) -> Seq<char> {
    match l {
        Level::Info => seq!['i', 'n', 'f', 'o'],
        Level::Warn => seq!['w', 'a', 'r', 'n'],
        Level::Error => seq!['e', 'r', 'r', 'o', 'r'],
        Level::Custom(s) => s,
    }
}

impl DiagnosticLevel {
    /// The name of the level.
    pub fn as_str(&self) -> (r: &str)
        ensures
            r@ == level_name(self@),
    {
        proof {
            reveal_strlit("info");
            reveal_strlit("warn");
            reveal_strlit("error");
        }
        match self {
            DiagnosticLevel::Info => "info",
            DiagnosticLevel::Warn => "warn",
            DiagnosticLevel::Error => "error",
            DiagnosticLevel::Custom(s) => s.as_str(),
        }
    }
}

/// A secondary note on a diagnostic.
pub struct DiagnosticAnnotation {
    pub message: String,
    pub span: Span,
}

impl DiagnosticAnnotation {
    pub fn new(message: String, span: Span) -> (r: DiagnosticAnnotation)
        ensures
            r.message@ == message@,
            r.span@ == span@,
    {
        DiagnosticAnnotation { message, span }
    }
}

/// A report about a span of source, rendered on demand.
pub struct Diagnostic {
    pub message: String,
    pub annotations: Vec<DiagnosticAnnotation>,
    pub global_span: Span,
    /// Lines this close to a span are never skipped.
    pub padding: usize,
    pub error_level: DiagnosticLevel,
    /// Runs of at least this many far-away lines are skipped; none without it.
    pub min_gap: Option<usize>,
}

/// What a diagnostic denotes.
pub ghost struct DiagnosticView {
    pub message: Seq<char>,
    pub annotations: Seq<(Seq<char>, SpanView)>,
    pub span: SpanView,
    pub padding: nat,
    pub level: Level,
    pub min_gap: Option<nat>,
}

impl View for Diagnostic {
    type V = DiagnosticView;

    open spec fn view(&self) -> DiagnosticView {
        DiagnosticView {
            message: self.message@,
            annotations: Seq::new(
                self.annotations@.len(),
                |i: int| (self.annotations@[i].message@, self.annotations@[i].span@),
            ),
            span: self.global_span@,
            padding: self.padding as nat,
            level: self.error_level@,
            min_gap: match self.min_gap {
                Some(g) => Some(g as nat),
                None => None,
            },
        }
    }
}

impl Diagnostic {
    /// An error-level diagnostic over `span`, with the default padding of 2
    /// and no skipping.
    pub fn new(message: String, span: &Span) -> (r: Diagnostic)
        ensures
            r@ == (DiagnosticView {
                message: message@,
                annotations: Seq::empty(),
                span: span@,
                padding: 2,
                level: Level::Error,
                min_gap: None,
            }),
    {
        let r = Diagnostic {
            message,
            annotations: Vec::new(),
            global_span: span.copy(),
            padding: 2,
            min_gap: None,
            error_level: DiagnosticLevel::Error,
        };
        proof {
            assert(r@.annotations =~= Seq::empty());
        }
        r
    }

    pub fn with_error_level(self, level: DiagnosticLevel) -> (r: Diagnostic)
        ensures
            r@ == (DiagnosticView { level: level@, ..self@ }),
    {
        let mut s = self;
        s.error_level = level;
        s
    }

    pub fn with_min_gap(self, gap: usize) -> (r: Diagnostic)
        ensures
            r@ == (DiagnosticView { min_gap: Some(gap as nat), ..self@ }),
    {
        let mut s = self;
        s.min_gap = Some(gap);
        s
    }

    pub fn with_garunteed_padding(self, padding: usize) -> (r: Diagnostic)
        ensures
            r@ == (DiagnosticView { padding: padding as nat, ..self@ }),
    {
        let mut s = self;
        s.padding = padding;
        s
    }

    pub fn add_annotation(self, annotation: DiagnosticAnnotation) -> (r: Diagnostic)
        ensures
            r@ == (DiagnosticView {
                annotations: self@.annotations.push((annotation.message@, annotation.span@)),
                ..self@
            }),
    {
        let mut s = self;
        let ghost a = (annotation.message@, annotation.span@);
        s.annotations.push(annotation);
        proof {
            assert(s@.annotations =~= self@.annotations.push(a));
        }
        s
    }
}

/// The number of decimal digits of `x`.
pub open spec fn digits(x: nat) -> nat
    decreases x,
{
    if x < 10 {
        1
    } else {
        1 + digits(x / 10)
    }
}

proof fn lemma_digits(x: nat)
    ensures
        digits(x) >= 1,
        x >= 1 ==> digits(x) <= x,
    decreases x,
{
    if x >= 10 {
        lemma_digits(x / 10);
    }
}

/// The number of decimal digits of `x`.
fn decimal_width(x: u64) -> (r: u64)
    ensures
        r == digits(x as nat),
        1 <= r <= 20,
{
    let ghost x0 = x as nat;
    let mut v = x;
    let mut r: u64 = 1;
    proof {
        lemma_digits(x0);
    }
    while v >= 10
        invariant
            r >= 1,
            r - 1 + digits(v as nat) == digits(x0),
            x0 >= 1 ==> digits(x0) <= x0,
            v <= x0,
            x0 <= u64::MAX,
        decreases v,
    {
        proof {
            lemma_digits(v as nat / 10);
        }
        r = r + 1;
        v = v / 10;
    }
    proof {
        lemma_digits_bound(x0);
    }
    r
}

/// A `u64` has at most twenty decimal digits.
proof fn lemma_digits_bound(x: nat)
    requires
        x <= u64::MAX,
    ensures
        digits(x) <= 20,
{
    reveal_with_fuel(digits, 21);
}

/// The number of decimal digits of `x`.
pub fn base_10_length(x: usize) -> (r: usize)
    ensures
        r == digits(x as nat),
{
    decimal_width(x as u64) as usize
}

/// The character of a decimal digit.
pub open spec fn digit_char(d: nat) -> char {
    if d == 0 {
        '0'
    } else if d == 1 {
        '1'
    } else if d == 2 {
        '2'
    } else if d == 3 {
        '3'
    } else if d == 4 {
        '4'
    } else if d == 5 {
        '5'
    } else if d == 6 {
        '6'
    } else if d == 7 {
        '7'
    } else if d == 8 {
        '8'
    } else {
        '9'
    }
}

/// The decimal representation of `n`.
pub open spec fn decimal(n: nat) -> Seq<char>
    decreases n,
{
    if n < 10 {
        seq![digit_char(n)]
    } else {
        decimal(n / 10).push(digit_char(n % 10))
    }
}

pub open spec fn spaces(k: nat) -> Seq<char> {
    Seq::new(k, |i: int| ' ')
}

/// `s` right-aligned in a field of width `w`.
pub open spec fn right_aligned(s: Seq<char>, w: nat) -> Seq<char> {
    if s.len() < w {
        spaces((w - s.len()) as nat) + s
    } else {
        s
    }
}

pub open spec fn gutter() -> Seq<char> {
    seq![' ', '|', ' ']
}

pub open spec fn newline() -> Seq<char> {
    seq!['\n']
}

/// How far line `line` is from the nearer end of a span's lines.
pub open spec fn line_distance(line: int, s: SpanView) -> int {
    let a = if line >= s.lines_covered.start { line - s.lines_covered.start } else { s.lines_covered.start - line };
    let b = if line >= s.lines_covered.end { line - s.lines_covered.end } else { s.lines_covered.end - line };
    if a <= b { a } else { b }
}

/// A line may be skipped when it is farther than the padding from the
/// primary span and from every annotation.
pub open spec fn far_line(d: DiagnosticView, line: int) -> bool {
    &&& line_distance(line, d.span) > d.padding
    &&& forall|k: int| 0 <= k < d.annotations.len() ==> line_distance(line, #[trigger] d.annotations[k].1) > d.padding
}

/// The length of the run of far lines that starts at printed line `i` of `n`.
pub open spec fn far_run(d: DiagnosticView, first: int, n: int, i: int) -> nat
    decreases n - i,
{
    if 0 <= i < n && far_line(d, first + i) {
        1 + far_run(d, first, n, i + 1)
    } else {
        0
    }
}

/// The carriage return byte.
pub const CARRIAGE_RETURN: u8 = 13;

/// The end of a line that a newline at `k` ends: a carriage return just
/// before the newline belongs to the line ending, not to the line.
pub open spec fn trim_return(b: Seq<u8>, s: int, k: int) -> int {
    if k > s && b[k - 1] == CARRIAGE_RETURN {
        k - 1
    } else {
        k
    }
}

/// The byte ranges of the lines of `b[s..e]`, split at newlines as
/// `str::lines` splits them: a line ended by `\r\n` loses the `\r`, and a
/// final newline opens no further line.
pub open spec fn split_lines(b: Seq<u8>, s: int, e: int) -> Seq<(int, int)>
    decreases e - s,
    via split_lines_decreases
{
    if s < 0 || e > b.len() || s >= e {
        Seq::empty()
    } else {
        let k = line_end(b, s);
        if k >= e {
            seq![(s, e)]
        } else {
            seq![(s, trim_return(b, s, k))] + split_lines(b, k + 1, e)
        }
    }
}

#[via_fn]
proof fn split_lines_decreases(b: Seq<u8>, s: int, e: int) {
    if !(s < 0 || e > b.len() || s >= e) {
        lemma_line_end(b, s);
    }
}

/// The printed lines of a span: the lines of its window.
pub open spec fn window_lines(v: SpanView) -> Seq<Seq<char>> {
    let b = bytes_of(v);
    let r = split_lines(b, v.lines_bytes.start as int, v.lines_bytes.end as int);
    Seq::new(r.len(), |i: int| decode_utf8(b.subrange(r[i].0, r[i].1)))
}

/// One numbered source line.
pub open spec fn numbered_line(pad: nat, line: nat, text: Seq<char>) -> Seq<char> {
    right_aligned(decimal(line), pad) + gutter() + text + newline()
}

/// The line that stands for the skipped lines `first` through `last`.
pub open spec fn skip_marker(pad: nat, first: nat, last: nat) -> Seq<char> {
    right_aligned(seq!['~'], pad) + gutter() + seq!['s', 'k', 'i', 'p', 'p', 'e', 'd', ' ', '<']
        + decimal(first) + seq!['>', ' ', 't', 'h', 'r', 'o', 'u', 'g', 'h', ' ', '<'] + decimal(
        last,
    ) + seq!['>'] + newline()
}

/// The body from printed line `i` on: a run of far lines at least `min_gap`
/// long becomes one marker line, every other line is printed.
pub open spec fn body_from(d: DiagnosticView, texts: Seq<Seq<char>>, pad: nat, i: int) -> Seq<char>
    decreases texts.len() - i,
    via body_from_decreases
{
    if i < 0 || i >= texts.len() {
        Seq::empty()
    } else {
        let first = d.span.lines_covered.start as int;
        let run = far_run(d, first, texts.len() as int, i);
        if d.min_gap is Some && run >= 1 && run >= d.min_gap->0 {
            skip_marker(pad, (first + i) as nat, (first + i + run - 1) as nat) + body_from(
                d,
                texts,
                pad,
                i + run,
            )
        } else {
            numbered_line(pad, (first + i) as nat, texts[i]) + body_from(d, texts, pad, i + 1)
        }
    }
}

proof fn lemma_far_run(d: DiagnosticView, first: int, n: int, i: int)
    ensures
        0 <= i <= n ==> far_run(d, first, n, i) <= n - i,
    decreases n - i,
{
    if 0 <= i < n && far_line(d, first + i) {
        lemma_far_run(d, first, n, i + 1);
    }
}

#[via_fn]
proof fn body_from_decreases(d: DiagnosticView, texts: Seq<Seq<char>>, pad: nat, i: int) {
    lemma_far_run(d, d.span.lines_covered.start as int, texts.len() as int, i);
}

/// The rendering of a diagnostic: a header, the location, and the source
/// lines of the primary span with a gutter of line numbers.
pub open spec fn rendered(d: DiagnosticView) -> Seq<char> {
    let header = level_name(d.level) + seq![':', ' '] + d.message + newline();
    let at = decimal(d.span.lines_covered.start as nat) + seq![':'] + decimal(
        d.span.columns.start as nat,
    );
    let location = match d.span.file {
        Some(f) => seq![' ', '-', '-', '>', ' '] + f + seq![':'] + at + newline(),
        None => seq![' ', '-', '-', '>', ' '] + at + newline(),
    };
    let texts = window_lines(d.span);
    let pad = digits((d.span.lines_covered.end + texts.len()) as nat);
    header + location + body_from(d, texts, pad, 0)
}

/// Rendering is a function of the diagnostic alone: two renderings of the
/// same diagnostic are identical, character for character and so byte for
/// byte.
pub proof fn render_is_repeatable(d: &Diagnostic, first: Seq<char>, second: Seq<char>)
    requires
        first == rendered(d@),
        second == rendered(d@),
    ensures
        first == second,
        encode_utf8(first) == encode_utf8(second),
{
}

/// Appends the decimal representation of `n`.
fn append_decimal(out: &mut String, n: u64)
    ensures
        final(out)@ == old(out)@ + decimal(n as nat),
    decreases n,
{
    if n >= 10 {
        append_decimal(out, n / 10);
    }
    let d = n % 10;
    proof {
        reveal_strlit("0");
        reveal_strlit("1");
        reveal_strlit("2");
        reveal_strlit("3");
        reveal_strlit("4");
        reveal_strlit("5");
        reveal_strlit("6");
        reveal_strlit("7");
        reveal_strlit("8");
        reveal_strlit("9");
    }
    let digit = if d == 0 {
        "0"
    } else if d == 1 {
        "1"
    } else if d == 2 {
        "2"
    } else if d == 3 {
        "3"
    } else if d == 4 {
        "4"
    } else if d == 5 {
        "5"
    } else if d == 6 {
        "6"
    } else if d == 7 {
        "7"
    } else if d == 8 {
        "8"
    } else {
        "9"
    };
    out.append(digit);
    proof {
        assert(digit@ =~= seq![digit_char(d as nat)]);
        assert(final(out)@ =~= old(out)@ + decimal(n as nat));
    }
}

/// The number of decimal digits of `n`, as the length of its representation.
proof fn lemma_decimal_len(n: nat)
    ensures
        decimal(n).len() == digits(n),
    decreases n,
{
    if n >= 10 {
        lemma_decimal_len(n / 10);
    }
}

/// Appends `k` spaces.
fn append_spaces(out: &mut String, k: u64)
    ensures
        final(out)@ == old(out)@ + spaces(k as nat),
{
    let ghost start = out@;
    let mut i: u64 = 0;
    proof {
        reveal_strlit(" ");
        assert(start + spaces(0) =~= start);
    }
    while i < k
        invariant
            i <= k,
            out@ == start + spaces(i as nat),
        decreases k - i,
    {
        out.append(" ");
        i = i + 1;
        proof {
            reveal_strlit(" ");
            assert(out@ =~= start + spaces(i as nat));
        }
    }
}

/// Appends `n` right-aligned in a field of width `w`.
fn append_aligned(out: &mut String, n: u64, w: u64)
    ensures
        final(out)@ == old(out)@ + right_aligned(decimal(n as nat), w as nat),
{
    let len = decimal_width(n);
    proof {
        lemma_decimal_len(n as nat);
    }
    let ghost start = out@;
    if len < w {
        append_spaces(out, w - len);
    }
    append_decimal(out, n);
    proof {
        assert(out@ =~= start + right_aligned(decimal(n as nat), w as nat));
    }
}

/// Splits the window `b[s..e]` into the byte ranges of its lines.
fn split_window(bytes: &[u8], s: u32, e: u32) -> (r: Vec<(u32, u32)>)
    requires
        valid_utf8(bytes@),
        s <= e <= bytes@.len() <= u32::MAX,
        is_char_boundary(bytes@, s as int),
        is_char_boundary(bytes@, e as int),
    ensures
        r@.len() == split_lines(bytes@, s as int, e as int).len(),
        forall|i: int|
            0 <= i < r@.len() ==> (#[trigger] r@[i]).0 as int == split_lines(
                bytes@,
                s as int,
                e as int,
            )[i].0 && r@[i].1 as int == split_lines(bytes@, s as int, e as int)[i].1,
        forall|i: int|
            0 <= i < r@.len() ==> (#[trigger] r@[i]).0 <= r@[i].1 <= bytes@.len()
                && is_char_boundary(bytes@, r@[i].0 as int) && is_char_boundary(
                bytes@,
                r@[i].1 as int,
            ),
{
    let ghost b = bytes@;
    let ghost whole = split_lines(b, s as int, e as int);
    let mut out: Vec<(u32, u32)> = Vec::new();
    let ghost mut done: Seq<(int, int)> = Seq::empty();
    let mut p = s;
    while p < e
        invariant
            s <= p <= e <= b.len() <= u32::MAX,
            b == bytes@,
            valid_utf8(b),
            is_char_boundary(b, p as int),
            is_char_boundary(b, e as int),
            whole == done + split_lines(b, p as int, e as int),
            out@.len() == done.len(),
            forall|i: int|
                0 <= i < out@.len() ==> (#[trigger] out@[i]).0 as int == done[i].0 && out@[i].1 as int
                    == done[i].1,
            forall|i: int|
                0 <= i < out@.len() ==> (#[trigger] out@[i]).0 <= out@[i].1 <= b.len()
                    && is_char_boundary(b, out@[i].0 as int) && is_char_boundary(b, out@[i].1 as int),
        decreases e - p,
    {
        let k = find_newline(bytes, p, 1);
        proof {
            lemma_line_end(b, p as int);
            if k < b.len() {
                lemma_ascii_boundaries(b, k as int);
            }
        }
        if k >= e {
            out.push((p, e));
            proof {
                assert(split_lines(b, p as int, e as int) == seq![(p as int, e as int)]);
                assert(split_lines(b, e as int, e as int) =~= Seq::<(int, int)>::empty());
                done = done.push((p as int, e as int));
                assert(whole =~= done + split_lines(b, e as int, e as int));
            }
            p = e;
        } else {
            let end = if k > p && bytes[(k - 1) as usize] == CARRIAGE_RETURN {
                k - 1
            } else {
                k
            };
            proof {
                if end < k {
                    lemma_ascii_boundaries(b, end as int);
                }
            }
            out.push((p, end));
            proof {
                done = done.push((p as int, end as int));
                assert(whole =~= done + split_lines(b, k + 1, e as int));
            }
            p = k + 1;
        }
    }
    proof {
        assert(split_lines(b, p as int, e as int) =~= Seq::<(int, int)>::empty());
        assert(done =~= whole);
    }
    out
}

/// Whether `line` is farther than `padding` from both ends of a span's lines.
fn far_from(line: u64, s: &Span, padding: usize) -> (r: bool)
    requires
        line <= u32::MAX as u64 * 3,
    ensures
        r == (line_distance(line as int, s@) > padding as int),
{
    let start = s.lines_covered.start as u64;
    let end = s.lines_covered.end as u64;
    let a = if line >= start {
        line - start
    } else {
        start - line
    };
    let b = if line >= end {
        line - end
    } else {
        end - line
    };
    let dist = if a <= b {
        a
    } else {
        b
    };
    dist > padding as u64
}

impl Diagnostic {
    /// Whether a line is far from the primary span and from every annotation.
    fn is_far(&self, line: u64) -> (r: bool)
        requires
            line <= u32::MAX as u64 * 3,
        ensures
            r == far_line(self@, line as int),
    {
        if !far_from(line, &self.global_span, self.padding) {
            return false;
        }
        let mut k: usize = 0;
        while k < self.annotations.len()
            invariant
                k <= self.annotations@.len(),
                line <= u32::MAX as u64 * 3,
                forall|q: int|
                    0 <= q < k ==> line_distance(line as int, #[trigger] self@.annotations[q].1)
                        > self.padding,
            decreases self.annotations@.len() - k,
        {
            if !far_from(line, &self.annotations[k].span, self.padding) {
                proof {
                    assert(self@.annotations[k as int].1 == self.annotations@[k as int].span@);
                }
                return false;
            }
            k = k + 1;
        }
        true
    }

    /// The diagnostic as text: the header, the location, and the numbered
    /// source lines of the primary span, long runs of far lines skipped.
    pub fn render(&self) -> (r: String)
        requires
            span_wf(self.global_span@),
        ensures
            r@ == rendered(self@),
    {
        let ghost d = self@;
        let span = &self.global_span;
        let mut out = String::new();
        proof {
            reveal_strlit(": ");
            reveal_strlit("\n");
            reveal_strlit(" --> ");
            reveal_strlit(":");
            reveal_strlit(" | ");
            reveal_strlit("~");
            reveal_strlit(" | skipped <");
            reveal_strlit("> through <");
            reveal_strlit(">\n");
        }
        out.append(self.error_level.as_str());
        out.append(": ");
        out.append(self.message.as_str());
        out.append("\n");
        out.append(" --> ");
        match &span.file {
            Some(f) => {
                out.append(f.as_str());
                out.append(":");
            },
            None => {},
        }
        append_decimal(&mut out, span.lines_covered.start as u64);
        out.append(":");
        append_decimal(&mut out, span.columns.start as u64);
        out.append("\n");
        let ghost head = out@;
        proof {
            let header = level_name(d.level) + seq![':', ' '] + d.message + newline();
            let at = decimal(d.span.lines_covered.start as nat) + seq![':'] + decimal(
                d.span.columns.start as nat,
            );
            let location = match d.span.file {
                Some(f) => seq![' ', '-', '-', '>', ' '] + f + seq![':'] + at + newline(),
                None => seq![' ', '-', '-', '>', ' '] + at + newline(),
            };
            assert(head =~= header + location);
        }
        let bytes = span.full_text.as_str().as_bytes();
        let ghost b = bytes@;
        proof {
            encode_utf8_valid_utf8(span@.text);
            lemma_line_start(b, span.text_bytes.start as int);
            lemma_line_end(b, span.text_bytes.end as int);
            lemma_line_window_boundaries(b, span.text_bytes.start as int);
            lemma_line_window_boundaries(b, span.text_bytes.end as int);
        }
        let ranges = split_window(bytes, span.lines_bytes.start, span.lines_bytes.end);
        let n = ranges.len();
        let ghost texts = window_lines(d.span);
        proof {
            assert(n <= u32::MAX) by {
                lemma_split_len(b, span.lines_bytes.start as int, span.lines_bytes.end as int);
            }
        }
        let pad = decimal_width(span.lines_covered.end as u64 + n as u64);
        let first = span.lines_covered.start as u64;
        let mut i: usize = 0;
        while i < n
            invariant
                i <= n == ranges@.len() == texts.len(),
                n <= u32::MAX,
                first == d.span.lines_covered.start,
                pad == digits((d.span.lines_covered.end + texts.len()) as nat),
                d == self@,
                b == bytes_of(d.span),
                b == encode_utf8(span.full_text@),
                texts == window_lines(d.span),
                forall|q: int|
                    0 <= q < n ==> (#[trigger] ranges@[q]).0 <= ranges@[q].1 <= b.len()
                        && is_char_boundary(b, ranges@[q].0 as int) && is_char_boundary(
                        b,
                        ranges@[q].1 as int,
                    ) && texts[q] == decode_utf8(b.subrange(ranges@[q].0 as int, ranges@[q].1 as int)),
                rendered(d) == out@ + body_from(d, texts, pad as nat, i as int),
            decreases n - i,
        {
            let ghost before = out@;
            let mut skipped = false;
            if let Some(g) = self.min_gap {
                let run = self.far_run_len(first, n, i);
                if run >= 1 && run >= g {
                    append_marker(&mut out, pad, first + i as u64, first + (i + run) as u64 - 1);
                    i = i + run;
                    skipped = true;
                }
            }
            if !skipped {
                proof {
                    assert(ranges@[i as int].0 <= ranges@[i as int].1 <= b.len());
                }
                let part = span.full_text.subtext(ranges[i].0, ranges[i].1 - ranges[i].0);
                proof {
                    encode_utf8_decode_utf8(part@);
                }
                append_numbered(&mut out, pad, first + i as u64, part.as_str());
                i = i + 1;
            }
        }
        out
    }
}

/// Appends the marker line for the skipped lines `a` through `b`.
fn append_marker(out: &mut String, pad: u64, a: u64, b: u64)
    ensures
        final(out)@ == old(out)@ + skip_marker(pad as nat, a as nat, b as nat),
{
    let ghost start = out@;
    if pad > 1 {
        append_spaces(out, pad - 1);
    }
    out.append("~");
    out.append(" | skipped <");
    append_decimal(out, a);
    out.append("> through <");
    append_decimal(out, b);
    out.append(">\n");
    proof {
        reveal_strlit("~");
        reveal_strlit(" | skipped <");
        reveal_strlit("> through <");
        reveal_strlit(">\n");
        assert(out@ =~= start + skip_marker(pad as nat, a as nat, b as nat));
    }
}

/// Appends source line `line`, numbered in a gutter of width `pad`.
fn append_numbered(out: &mut String, pad: u64, line: u64, text: &str)
    ensures
        final(out)@ == old(out)@ + numbered_line(pad as nat, line as nat, text@),
{
    let ghost start = out@;
    append_aligned(out, line, pad);
    out.append(" | ");
    out.append(text);
    out.append("\n");
    proof {
        reveal_strlit(" | ");
        reveal_strlit("\n");
        assert(out@ =~= start + numbered_line(pad as nat, line as nat, text@));
    }
}

impl Diagnostic {
    /// The length of the run of far lines from printed line `i` of `n`.
    fn far_run_len(&self, first: u64, n: usize, i: usize) -> (r: usize)
        requires
            i < n <= u32::MAX,
            first <= u32::MAX,
        ensures
            r == far_run(self@, first as int, n as int, i as int),
            r <= n - i,
    {
        let mut j = i;
        while j < n && self.is_far(first + j as u64)
            invariant
                i <= j <= n,
                n <= u32::MAX,
                first <= u32::MAX,
                far_run(self@, first as int, n as int, i as int) == (j - i) + far_run(
                    self@,
                    first as int,
                    n as int,
                    j as int,
                ),
            decreases n - j,
        {
            j = j + 1;
        }
        j - i
    }
}

proof fn lemma_split_len(b: Seq<u8>, s: int, e: int)
    requires
        0 <= s <= e <= b.len(),
    ensures
        split_lines(b, s, e).len() <= e - s,
    decreases e - s,
{
    if s < e {
        lemma_line_end(b, s);
        let k = line_end(b, s);
        if k < e {
            lemma_split_len(b, k + 1, e);
        }
    }
}

} // verus!
