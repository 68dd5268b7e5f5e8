//! Source spans: byte ranges over a shared buffer together with their line window.
use vstd::prelude::*;
use vstd::utf8::*;
use crate::text::{SourceText, NEWLINE, line_start, line_end, lemma_line_start, lemma_line_end, lemma_line_window_boundaries, lemma_chars_le_bytes};
use crate::token::{TokenInfo, token_fits};

verus! {

/// A half-open pair of positions.
#[derive(Copy, Clone, PartialEq, Eq, Debug, PartialOrd, Ord, Structural)]
pub struct StartEnd {
    pub start: u32,
    pub end: u32,
}

/// A contiguous range of a source text, the whole lines around it, and where
/// it lies in lines and columns.
pub struct Span {
    /// The bytes that the span covers.
    pub text_bytes: StartEnd,
    /// The bytes of the whole lines around `text_bytes`.
    pub lines_bytes: StartEnd,
    /// The first and last line (1-based).
    pub lines_covered: StartEnd,
    /// The column of the start, and the column just past the end.
    pub columns: StartEnd,
    pub full_text: SourceText,
    pub file: Option<String>,
}

/// What a span denotes.
pub ghost struct SpanView {
    pub text: Seq<char>,
    pub file: Option<Seq<char>>,
    pub text_bytes: StartEnd,
    pub lines_bytes: StartEnd,
    pub lines_covered: StartEnd,
    pub columns: StartEnd,
}

pub open spec fn file_view(f: Option<String>) -> Option<Seq<char>> {
    match f {
        Some(s) => Some(s@),
        None => None,
    }
}

impl View for Span {
    type V = SpanView;

    open spec fn view(&self) -> SpanView {
        SpanView {
            text: self.full_text@,
            file: file_view(self.file),
            text_bytes: self.text_bytes,
            lines_bytes: self.lines_bytes,
            lines_covered: self.lines_covered,
            columns: self.columns,
        }
    }
}

/// The encoded bytes of a span's text.
pub open spec fn bytes_of(v: SpanView) -> Seq<u8> {
    encode_utf8(v.text)
}

/// A span is well formed when its byte range lies on character boundaries of
/// its text and its line window is the whole lines around that range.
pub open spec fn span_wf(v: SpanView) -> bool {
    let b = bytes_of(v);
    &&& b.len() <= u32::MAX
    &&& v.text_bytes.start <= v.text_bytes.end <= b.len()
    &&& is_char_boundary(b, v.text_bytes.start as int)
    &&& is_char_boundary(b, v.text_bytes.end as int)
    &&& v.lines_bytes.start == line_start(b, v.text_bytes.start as int)
    &&& v.lines_bytes.end == line_end(b, v.text_bytes.end as int)
}

/// The characters that a span covers.
pub open spec fn span_text(v: SpanView) -> Seq<char> {
    decode_utf8(bytes_of(v).subrange(v.text_bytes.start as int, v.text_bytes.end as int))
}

/// The whole lines around a span.
pub open spec fn span_lines(v: SpanView) -> Seq<char> {
    decode_utf8(bytes_of(v).subrange(v.lines_bytes.start as int, v.lines_bytes.end as int))
}

/// The number of characters in the bytes `start..end` of `text`.
pub open spec fn chars_between(text: Seq<char>, start: int, end: int) -> nat {
    decode_utf8(encode_utf8(text).subrange(start, end)).len()
}

/// The span of a single token: its columns run from its first character to
/// just past its last.
pub open spec fn token_span(t: TokenInfo, text: Seq<char>, file: Option<Seq<char>>) -> SpanView {
    let b = encode_utf8(text);
    let start = t.byte_offset as int;
    let end = t.byte_offset + t.length;
    SpanView {
        text,
        file,
        text_bytes: StartEnd { start: start as u32, end: end as u32 },
        lines_bytes: StartEnd { start: line_start(b, start) as u32, end: line_end(b, end) as u32 },
        lines_covered: StartEnd { start: t.line_number as u32, end: t.line_number as u32 },
        columns: StartEnd {
            start: t.column_number as u32,
            end: (t.column_number + chars_between(text, start, end)) as u32,
        },
    }
}

pub open spec fn min_u32(x: u32, y: u32) -> u32 {
    if x <= y {
        x
    } else {
        y
    }
}

pub open spec fn max_u32(x: u32, y: u32) -> u32 {
    if x >= y {
        x
    } else {
        y
    }
}

/// The union of two ranges: from the smaller start to the larger end.
pub open spec fn union(x: StartEnd, y: StartEnd) -> StartEnd {
    StartEnd { start: min_u32(x.start, y.start), end: max_u32(x.end, y.end) }
}

/// The column where a merge of `a` and `b` starts: that of the span that
/// starts first, the smaller one when both start at the same byte.
pub open spec fn start_column(a: SpanView, b: SpanView) -> u32 {
    if a.text_bytes.start < b.text_bytes.start {
        a.columns.start
    } else if b.text_bytes.start < a.text_bytes.start {
        b.columns.start
    } else {
        min_u32(a.columns.start, b.columns.start)
    }
}

/// The column where a merge of `a` and `b` ends: that of the span that ends
/// last, the larger one when both end at the same byte.
pub open spec fn end_column(a: SpanView, b: SpanView) -> u32 {
    if a.text_bytes.end > b.text_bytes.end {
        a.columns.end
    } else if b.text_bytes.end > a.text_bytes.end {
        b.columns.end
    } else {
        max_u32(a.columns.end, b.columns.end)
    }
}

/// The bounding span of two spans over one text: the union of their byte
/// ranges and of their line ranges, with the line window recomputed over the
/// whole byte range. Columns count within a line, so the merged columns are
/// those at the merged range's first and last byte.
pub open spec fn merge_view(a: SpanView, b: SpanView) -> SpanView {
    let range = union(a.text_bytes, b.text_bytes);
    let bytes = bytes_of(a);
    SpanView {
        text: a.text,
        file: a.file,
        text_bytes: range,
        lines_bytes: StartEnd {
            start: line_start(bytes, range.start as int) as u32,
            end: line_end(bytes, range.end as int) as u32,
        },
        lines_covered: union(a.lines_covered, b.lines_covered),
        columns: StartEnd { start: start_column(a, b), end: end_column(a, b) },
    }
}

/// The span of nothing: an empty text, every position zero.
pub open spec fn empty_view() -> SpanView {
    SpanView {
        text: Seq::empty(),
        file: None,
        text_bytes: StartEnd { start: 0, end: 0 },
        lines_bytes: StartEnd { start: 0, end: 0 },
        lines_covered: StartEnd { start: 0, end: 0 },
        columns: StartEnd { start: 0, end: 0 },
    }
}

/// The bounding span of a sequence of spans, merged from the left; the
/// empty span for none.
pub open spec fn merge_seq(s: Seq<SpanView>) -> SpanView
    decreases s.len(),
{
    if s.len() == 0 {
        empty_view()
    } else if s.len() == 1 {
        s[0]
    } else {
        merge_view(merge_seq(s.drop_last()), s.last())
    }
}

/// Merging two spans of one text gives the same span whichever of them comes
/// first.
pub proof fn merge_commutes(a: SpanView, b: SpanView)
    requires
        span_wf(a),
        span_wf(b),
        a.text == b.text,
        a.file == b.file,
    ensures
        merge_view(a, b) == merge_view(b, a),
{
}

/// Merging spans of one document is associative: grouping a chain of merges
/// either way gives the same span.
pub proof fn merge_associates(a: SpanView, b: SpanView, c: SpanView)
    requires
        span_wf(a),
        span_wf(b),
        span_wf(c),
        a.text == b.text,
        b.text == c.text,
        a.file == b.file,
        b.file == c.file,
    ensures
        merge_view(merge_view(a, b), c) == merge_view(a, merge_view(b, c)),
{
}

/// Scans `t` from `pos` for a line boundary: backwards (negative `direction`)
/// to just after the nearest newline before `pos`, or forwards to the nearest
/// newline at or after `pos`; the buffer's ends bound both scans.
pub fn find_newline(t: &[u8], pos: u32, direction: isize) -> (r: u32)
    requires
        pos <= t@.len(),
        t@.len() <= u32::MAX,
    ensures
        direction < 0 ==> r == line_start(t@, pos as int),
        direction >= 0 ==> r == line_end(t@, pos as int),
{
    let mut p = pos;
    if direction < 0 {
        while p > 0 && t[(p - 1) as usize] != NEWLINE
            invariant
                p <= pos <= t@.len(),
                line_start(t@, p as int) == line_start(t@, pos as int),
            decreases p,
        {
            p = p - 1;
        }
    } else {
        while (p as usize) < t.len() && t[p as usize] != NEWLINE
            invariant
                pos <= p <= t@.len(),
                t@.len() <= u32::MAX,
                line_end(t@, p as int) == line_end(t@, pos as int),
            decreases t@.len() - p,
        {
            p = p + 1;
        }
    }
    p
}

/// The union of two ranges.
fn union_of(x: StartEnd, y: StartEnd) -> (r: StartEnd)
    ensures
        r == union(x, y),
{
    StartEnd {
        start: if x.start <= y.start {
            x.start
        } else {
            y.start
        },
        end: if x.end >= y.end {
            x.end
        } else {
            y.end
        },
    }
}

/// A copy of an optional file name.
fn copy_file(f: &Option<String>) -> (r: Option<String>)
    ensures
        file_view(r) == file_view(*f),
{
    match f {
        Some(s) => Some(s.clone()),
        None => None,
    }
}

impl Span {
    /// The span of nothing, over an empty text.
    pub fn empty() -> (r: Span)
        ensures
            r@ == empty_view(),
            span_wf(r@),
    {
        proof {
            reveal_strlit("");
            assert(""@ =~= Seq::<char>::empty());
            assert(encode_utf8(""@) =~= Seq::<u8>::empty());
        }
        let text = SourceText::from_str("");
        Span {
            full_text: text,
            file: None,
            text_bytes: StartEnd { start: 0, end: 0 },
            lines_bytes: StartEnd { start: 0, end: 0 },
            lines_covered: StartEnd { start: 0, end: 0 },
            columns: StartEnd { start: 0, end: 0 },
        }
    }

    /// A span with the same contents.
    pub fn copy(&self) -> (r: Span)
        ensures
            r@ == self@,
    {
        Span {
            full_text: self.full_text.share(),
            file: copy_file(&self.file),
            text_bytes: self.text_bytes,
            lines_bytes: self.lines_bytes,
            lines_covered: self.lines_covered,
            columns: self.columns,
        }
    }

    /// The characters that the span covers.
    pub fn text(&self) -> (r: String)
        requires
            span_wf(self@),
        ensures
            r@ == span_text(self@),
    {
        let part = self.full_text.subtext(
            self.text_bytes.start,
            self.text_bytes.end - self.text_bytes.start,
        );
        let r = part.as_str().to_owned();
        proof {
            encode_utf8_decode_utf8(part@);
        }
        r
    }

    /// The whole lines around the span.
    pub fn lines(&self) -> (r: String)
        requires
            span_wf(self@),
        ensures
            r@ == span_lines(self@),
    {
        let b = Ghost(bytes_of(self@));
        proof {
            encode_utf8_valid_utf8(self@.text);
            lemma_line_start(b@, self.text_bytes.start as int);
            lemma_line_end(b@, self.text_bytes.end as int);
            lemma_line_window_boundaries(b@, self.text_bytes.start as int);
            lemma_line_window_boundaries(b@, self.text_bytes.end as int);
        }
        let part = self.full_text.subtext(
            self.lines_bytes.start,
            self.lines_bytes.end - self.lines_bytes.start,
        );
        let r = part.as_str().to_owned();
        proof {
            encode_utf8_decode_utf8(part@);
        }
        r
    }

    /// The span of one token of `string`.
    pub fn from_token(token: &TokenInfo, string: &SourceText, file: &Option<String>) -> (r: Span)
        requires
            token_fits(*token, string@),
        ensures
            r@ == token_span(*token, string@, file_view(*file)),
            span_wf(r@),
    {
        let bytes = string.as_str().as_bytes();
        let start = token.byte_offset as u32;
        let end = start + token.length;
        let start_line_pos = find_newline(bytes, start, -1);
        let end_line_pos = find_newline(bytes, end, 1);
        let part = string.subtext(start, token.length);
        let chars = part.as_str().unicode_len();
        proof {
            encode_utf8_decode_utf8(part@);
            lemma_chars_le_bytes(part@);
        }
        Span {
            file: copy_file(file),
            full_text: string.share(),
            text_bytes: StartEnd { start, end },
            lines_bytes: StartEnd { start: start_line_pos, end: end_line_pos },
            lines_covered: StartEnd {
                start: token.line_number as u32,
                end: token.line_number as u32,
            },
            columns: StartEnd {
                start: token.column_number as u32,
                end: token.column_number as u32 + chars as u32,
            },
        }
    }

    /// The bounding span of two spans of the same text and file; the two may
    /// come in either order.
    pub fn from_spans(start: &Span, end: &Span) -> (r: Span)
        requires
            span_wf(start@),
            span_wf(end@),
            start@.text == end@.text,
            start@.file == end@.file,
        ensures
            r@ == merge_view(start@, end@),
            span_wf(r@),
    {
        let range = union_of(start.text_bytes, end.text_bytes);
        let bytes = start.full_text.as_str().as_bytes();
        let start_line_pos = find_newline(bytes, range.start, -1);
        let end_line_pos = find_newline(bytes, range.end, 1);
        Span {
            full_text: start.full_text.share(),
            file: copy_file(&start.file),
            text_bytes: range,
            lines_bytes: StartEnd { start: start_line_pos, end: end_line_pos },
            lines_covered: union_of(start.lines_covered, end.lines_covered),
            columns: StartEnd {
                start: if start.text_bytes.start < end.text_bytes.start {
                    start.columns.start
                } else if end.text_bytes.start < start.text_bytes.start {
                    end.columns.start
                } else if start.columns.start <= end.columns.start {
                    start.columns.start
                } else {
                    end.columns.start
                },
                end: if start.text_bytes.end > end.text_bytes.end {
                    start.columns.end
                } else if end.text_bytes.end > start.text_bytes.end {
                    end.columns.end
                } else if start.columns.end >= end.columns.end {
                    start.columns.end
                } else {
                    end.columns.end
                },
            },
        }
    }

    /// The bounding span of a sequence of spans of one text and file, merged
    /// from the left; the empty span when there are none.
    pub fn merge_all(spans: &Vec<Span>) -> (r: Span)
        requires
            forall|i: int| 0 <= i < spans@.len() ==> span_wf(#[trigger] spans@[i]@),
            forall|i: int|
                0 <= i < spans@.len() ==> (#[trigger] spans@[i])@.text == spans@[0]@.text
                    && spans@[i]@.file == spans@[0]@.file,
        ensures
            r@ == merge_seq(Seq::new(spans@.len(), |i: int| spans@[i]@)),
    {
        let ghost views = Seq::new(spans@.len(), |i: int| spans@[i]@);
        if spans.len() == 0 {
            return Span::empty();
        }
        let mut acc = spans[0].copy();
        let mut i: usize = 1;
        proof {
            assert(views.subrange(0, 1).drop_last() =~= Seq::<SpanView>::empty());
        }
        while i < spans.len()
            invariant
                1 <= i <= spans@.len(),
                views == Seq::new(spans@.len(), |i: int| spans@[i]@),
                acc@ == merge_seq(views.subrange(0, i as int)),
                span_wf(acc@),
                acc@.text == spans@[0]@.text,
                acc@.file == spans@[0]@.file,
                forall|i: int| 0 <= i < spans@.len() ==> span_wf(#[trigger] spans@[i]@),
                forall|i: int|
                    0 <= i < spans@.len() ==> (#[trigger] spans@[i])@.text == spans@[0]@.text
                        && spans@[i]@.file == spans@[0]@.file,
            decreases spans@.len() - i,
        {
            acc = Span::from_spans(&acc, &spans[i]);
            proof {
                assert(views.subrange(0, i + 1).drop_last() =~= views.subrange(0, i as int));
            }
            i = i + 1;
        }
        proof {
            assert(views.subrange(0, spans@.len() as int) =~= views);
        }
        acc
    }

    /// Whether the span is well formed: its range lies on character
    /// boundaries of its text and its line window is the lines around it.
    pub fn is_valid(&self) -> (r: bool)
        ensures
            r == span_wf(self@),
    {
        let s = self.full_text.as_str();
        let b = s.as_bytes();
        if b.len() > u32::MAX as usize {
            return false;
        }
        let start = self.text_bytes.start;
        let end = self.text_bytes.end;
        if start > end || end as usize > b.len() {
            return false;
        }
        if !s.is_char_boundary(start as usize) || !s.is_char_boundary(end as usize) {
            return false;
        }
        self.lines_bytes.start == find_newline(b, start, -1) && self.lines_bytes.end == find_newline(
            b,
            end,
            1,
        )
    }
}

} // verus!
