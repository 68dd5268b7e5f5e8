//! The shared source buffer and the byte-level facts about it that spans rely on.
use vstd::prelude::*;
use vstd::utf8::*;

verus! {

/// A read-only source buffer, shared cheaply between every span cut from it.
#[verifier::external_body]
pub struct SourceText {
    buf: tendril::StrTendril,
}

/// The characters that a source buffer holds.
pub uninterp spec fn source_chars(t: SourceText) -> Seq<char>;

impl View for SourceText {
    type V = Seq<char>;

    open spec fn view(&self) -> Seq<char> {
        source_chars(*self)
    }
}

impl SourceText {
    /// Relies on `StrTendril::from_slice`: the buffer holds a copy of `s`; it
    /// panics on more than `u32::MAX` bytes.
    #[verifier::external_body]
    pub(crate) fn from_str(s: &str) -> (r: SourceText)
        requires
            encode_utf8(s@).len() <= u32::MAX,
        ensures
            source_chars(r) == s@,
    {
        SourceText { buf: tendril::StrTendril::from_slice(s) }
    }

    /// Relies on the `Deref` of `StrTendril` to `str`: it shows the held characters.
    #[verifier::external_body]
    pub(crate) fn as_str(&self) -> (r: &str)
        ensures
            r@ == source_chars(*self),
    {
        &self.buf
    }

    /// Relies on `Tendril::clone`: a second handle on the same characters.
    #[verifier::external_body]
    pub(crate) fn share(&self) -> (r: SourceText)
        ensures
            source_chars(r) == source_chars(*self),
    {
        SourceText { buf: self.buf.clone() }
    }

    /// Relies on `Tendril::subtendril`: the bytes from `offset` on, `length` of
    /// them; it panics unless both ends are character boundaries in the buffer.
    #[verifier::external_body]
    pub(crate) fn subtext(&self, offset: u32, length: u32) -> (r: SourceText)
        requires
            offset + length <= encode_utf8(source_chars(*self)).len(),
            is_char_boundary(encode_utf8(source_chars(*self)), offset as int),
            is_char_boundary(encode_utf8(source_chars(*self)), offset + length),
        ensures
            encode_utf8(source_chars(r)) == encode_utf8(source_chars(*self)).subrange(
                offset as int,
                offset + length,
            ),
    {
        SourceText { buf: self.buf.subtendril(offset, length) }
    }
}

/// The newline byte.
pub const NEWLINE: u8 = 10;

/// The start of the line that holds byte position `p`: just after the nearest
/// newline before `p`, or the start of the buffer.
pub open spec fn line_start(b: Seq<u8>, p: int) -> int
    decreases p,
{
    if p <= 0 {
        0
    } else if b[p - 1] == NEWLINE {
        p
    } else {
        line_start(b, p - 1)
    }
}

/// The end of the line that holds byte position `p`: the nearest newline at or
/// after `p`, or the end of the buffer.
pub open spec fn line_end(b: Seq<u8>, p: int) -> int
    decreases b.len() - p,
{
    if p >= b.len() {
        b.len() as int
    } else if b[p] == NEWLINE {
        p
    } else {
        line_end(b, p + 1)
    }
}

pub proof fn lemma_line_start(b: Seq<u8>, p: int)
    requires
        0 <= p <= b.len(),
    ensures
        0 <= line_start(b, p) <= p,
        line_start(b, p) == 0 || b[line_start(b, p) - 1] == NEWLINE,
        forall|i: int| line_start(b, p) <= i < p ==> b[i] != NEWLINE,
    decreases p,
{
    if p > 0 && b[p - 1] != NEWLINE {
        lemma_line_start(b, p - 1);
    }
}

pub proof fn lemma_line_end(b: Seq<u8>, p: int)
    requires
        0 <= p <= b.len(),
    ensures
        p <= line_end(b, p) <= b.len(),
        line_end(b, p) == b.len() || b[line_end(b, p)] == NEWLINE,
        forall|i: int| p <= i < line_end(b, p) ==> b[i] != NEWLINE,
    decreases b.len() - p,
{
    if p < b.len() && b[p] != NEWLINE {
        lemma_line_end(b, p + 1);
    }
}

/// An ASCII byte in valid UTF-8, such as a newline, is a whole character:
/// both of its sides are character boundaries.
pub proof fn lemma_ascii_boundaries(b: Seq<u8>, k: int)
    requires
        valid_utf8(b),
        0 <= k < b.len(),
        b[k] < 0x80,
    ensures
        is_char_boundary(b, k),
        is_char_boundary(b, k + 1),
    decreases b.len(),
{
    let w = length_of_first_scalar(b);
    let rest = pop_first_scalar(b);
    assert(valid_first_scalar(b) && valid_utf8(rest));
    if k < w {
        assert(w == 1 && k == 0);
        assert(is_char_boundary(rest, 0));
    } else {
        assert(rest[k - w] == b[k]);
        lemma_ascii_boundaries(rest, k - w);
    }
}

/// The line window of a character boundary is bounded by character boundaries.
pub proof fn lemma_line_window_boundaries(b: Seq<u8>, p: int)
    requires
        valid_utf8(b),
        0 <= p <= b.len(),
    ensures
        is_char_boundary(b, line_start(b, p)),
        is_char_boundary(b, line_end(b, p)),
{
    lemma_line_start(b, p);
    lemma_line_end(b, p);
    is_char_boundary_start_end_of_seq(b);
    let s = line_start(b, p);
    let e = line_end(b, p);
    if s > 0 {
        lemma_ascii_boundaries(b, s - 1);
    }
    if e < b.len() {
        lemma_ascii_boundaries(b, e);
    }
}

/// The encoding of a concatenation is the concatenation of the encodings.
pub proof fn lemma_encode_concat(a: Seq<char>, c: Seq<char>)
    ensures
        encode_utf8(a + c) == encode_utf8(a) + encode_utf8(c),
    decreases a.len(),
{
    if a.len() == 0 {
        assert(a + c =~= c);
        assert(encode_utf8(a) + encode_utf8(c) =~= encode_utf8(c));
    } else {
        assert((a + c).drop_first() =~= a.drop_first() + c);
        lemma_encode_concat(a.drop_first(), c);
        assert(encode_utf8(a + c) =~= encode_utf8(a) + encode_utf8(c));
    }
}

/// The end of an encoded prefix is a character boundary of the whole encoding.
pub proof fn lemma_encode_prefix_boundary(a: Seq<char>, c: Seq<char>)
    ensures
        is_char_boundary(encode_utf8(a + c), encode_utf8(a).len() as int),
    decreases a.len(),
{
    encode_utf8_valid_utf8(a + c);
    if a.len() > 0 {
        let whole = encode_utf8(a + c);
        encode_utf8_first_scalar(a + c);
        assert((a + c).drop_first() =~= a.drop_first() + c);
        assert(pop_first_scalar(whole) =~= encode_utf8(a.drop_first() + c));
        lemma_encode_prefix_boundary(a.drop_first(), c);
        encode_utf8_first_scalar(a);
        assert(encode_utf8(a).len() == encode_scalar(a[0] as u32).len() + encode_utf8(
            a.drop_first(),
        ).len());
        assert((a + c)[0] == a[0]);
    }
}

/// Every character index of a text gives a character boundary of its encoding.
pub proof fn lemma_char_index_boundary(t: Seq<char>, i: int)
    requires
        0 <= i <= t.len(),
    ensures
        is_char_boundary(encode_utf8(t), encode_utf8(t.subrange(0, i)).len() as int),
        encode_utf8(t) == encode_utf8(t.subrange(0, i)) + encode_utf8(t.subrange(i, t.len() as int)),
{
    assert(t =~= t.subrange(0, i) + t.subrange(i, t.len() as int));
    lemma_encode_prefix_boundary(t.subrange(0, i), t.subrange(i, t.len() as int));
    lemma_encode_concat(t.subrange(0, i), t.subrange(i, t.len() as int));
}

/// A text has no more characters than its encoding has bytes.
pub proof fn lemma_chars_le_bytes(s: Seq<char>)
    ensures
        s.len() <= encode_utf8(s).len(),
    decreases s.len(),
{
    if s.len() > 0 {
        lemma_chars_le_bytes(s.drop_first());
        assert(encode_utf8(s) == encode_scalar(s[0] as u32) + encode_utf8(s.drop_first()));
    }
}

/// The byte width of one character.
pub open spec fn char_width(c: char) -> nat {
    encode_scalar(c as u32).len()
}

/// The byte width of `c` in UTF-8, as `char::len_utf8` gives it.
pub fn utf8_width(c: char) -> (r: u32)
    ensures
        r == char_width(c),
        1 <= r <= 4,
{
    let v = c as u32;
    proof {
        char_is_scalar(c);
    }
    if v <= 0x7f {
        1
    } else if v <= 0x7ff {
        2
    } else if v <= 0xffff {
        3
    } else {
        4
    }
}

/// Encoding one more character adds its width.
pub proof fn lemma_encode_push(s: Seq<char>, c: char)
    ensures
        encode_utf8(s.push(c)).len() == encode_utf8(s).len() + char_width(c),
{
    assert(s.push(c) =~= s + seq![c]);
    lemma_encode_concat(s, seq![c]);
    assert(seq![c].drop_first() =~= Seq::<char>::empty());
    assert(encode_utf8(seq![c]) =~= encode_scalar(c as u32) + encode_utf8(Seq::<char>::empty()));
}

} // verus!
