//! An ordered collection of diagnostics.
use vstd::prelude::*;
use vstd::utf8::encode_utf8;
use crate::diagnostic::{Diagnostic, DiagnosticLevel, DiagnosticView, Level};

verus! {

/// An ordered collection of diagnostics with severity queries.
pub struct DiagnosticBag {
    diagnostics: Vec<Diagnostic>,
}

impl View for DiagnosticBag {
    type V = Seq<DiagnosticView>;

    closed spec fn view(&self) -> Seq<DiagnosticView> {
        Seq::new(self.diagnostics@.len(), |i: int| self.diagnostics@[i]@)
    }
}

/// A diagnostic in the shape that editors take: a severity code, the
/// message, and the zero-based start and end of the primary span.
pub struct LspEntry {
    pub severity: u8,
    pub message: String,
    pub start_line: i64,
    pub start_character: i64,
    pub end_line: i64,
    pub end_character: i64,
}

/// The editor code of a level: error 0, warning 1, information 2, custom 3.
pub open spec fn severity_code(l: Level) -> u8 {
    match l {
        Level::Error => 0,
        Level::Warn => 1,
        Level::Info => 2,
        Level::Custom(_) => 3,
    }
}

/// The entry of a diagnostic.
pub open spec fn entry_matches(e: LspEntry, d: DiagnosticView) -> bool {
    &&& e.severity == severity_code(d.level)
    &&& e.message@ == d.message
    &&& e.start_line == d.span.lines_covered.start - 1
    &&& e.start_character == d.span.columns.start - 1
    &&& e.end_line == d.span.lines_covered.end - 1
    &&& e.end_character == d.span.columns.end - 1
}

/// `after` holds the items of `before` rearranged by `perm` (the item at
/// position `i` came from position `perm[i]`), and items that compare equal
/// keep their relative order.
pub open spec fn stable_arrangement(perm: Seq<int>, before: Seq<DiagnosticView>, after: Seq<DiagnosticView>) -> bool {
    &&& perm.len() == after.len() == before.len()
    &&& forall|i: int| 0 <= i < after.len() ==> 0 <= #[trigger] perm[i] < before.len() && after[i] == before[perm[i]]
    &&& forall|i: int, j: int| 0 <= i < j < after.len() ==> #[trigger] perm[i] != #[trigger] perm[j]
    &&& forall|i: int, j: int|
        0 <= i < j < after.len() && diag_cmp(#[trigger] after[i], #[trigger] after[j]) == 0 ==> perm[i] < perm[j]
}

/// Lexicographic comparison of integer sequences: negative, zero or
/// positive as `x` sorts before, with or after `y`.
pub open spec fn ints_cmp(x: Seq<int>, y: Seq<int>) -> int
    decreases x.len(),
{
    if x.len() == 0 && y.len() == 0 {
        0
    } else if x.len() == 0 {
        -1
    } else if y.len() == 0 {
        1
    } else if x[0] < y[0] {
        -1
    } else if x[0] > y[0] {
        1
    } else {
        ints_cmp(x.drop_first(), y.drop_first())
    }
}

pub open spec fn byte_ints(x: Seq<u8>) -> Seq<int> {
    x.map_values(|b: u8| b as int)
}

/// File names sort absent first, then by their UTF-8 bytes.
pub open spec fn file_cmp(a: Option<Seq<char>>, b: Option<Seq<char>>) -> int {
    match (a, b) {
        (None, None) => 0,
        (None, Some(_)) => -1,
        (Some(_), None) => 1,
        (Some(x), Some(y)) => ints_cmp(byte_ints(encode_utf8(x)), byte_ints(encode_utf8(y))),
    }
}

/// The positions of a diagnostic's primary span, in sort order.
pub open spec fn position_key(d: DiagnosticView) -> Seq<int> {
    seq![
        d.span.text_bytes.start as int,
        d.span.text_bytes.end as int,
        d.span.lines_covered.start as int,
        d.span.lines_covered.end as int,
        d.span.columns.start as int,
        d.span.columns.end as int,
    ]
}

/// Diagnostics sort by file name, then by where their primary span lies,
/// then by the UTF-8 bytes of the source text that the span is over.
pub open spec fn diag_cmp(a: DiagnosticView, b: DiagnosticView) -> int {
    let f = file_cmp(a.span.file, b.span.file);
    let p = ints_cmp(position_key(a), position_key(b));
    if f != 0 {
        f
    } else if p != 0 {
        p
    } else {
        ints_cmp(byte_ints(encode_utf8(a.span.text)), byte_ints(encode_utf8(b.span.text)))
    }
}

pub open spec fn sorted(v: Seq<DiagnosticView>) -> bool {
    forall|i: int, j: int| 0 <= i < j < v.len() ==> diag_cmp(#[trigger] v[i], #[trigger] v[j]) <= 0
}

proof fn lemma_ints_cmp(x: Seq<int>, y: Seq<int>, z: Seq<int>)
    ensures
        ints_cmp(x, y) == -ints_cmp(y, x),
        -1 <= ints_cmp(x, y) <= 1,
        ints_cmp(x, y) == 0 ==> x == y,
        ints_cmp(x, y) <= 0 && ints_cmp(y, z) <= 0 ==> ints_cmp(x, z) <= 0,
    decreases x.len(),
{
    if x.len() > 0 && y.len() > 0 && z.len() > 0 {
        lemma_ints_cmp(x.drop_first(), y.drop_first(), z.drop_first());
    } else if x.len() > 0 && y.len() > 0 {
        lemma_ints_cmp(x.drop_first(), y.drop_first(), z);
    }
    if ints_cmp(x, y) == 0 && x.len() > 0 {
        assert(x =~= y) by {
            assert forall|i: int| 0 <= i < x.len() implies x[i] == y[i] by {
                if i > 0 {
                    assert(x[i] == x.drop_first()[i - 1]);
                    assert(y[i] == y.drop_first()[i - 1]);
                }
            }
        }
    }
}

proof fn lemma_file_cmp(a: Option<Seq<char>>, b: Option<Seq<char>>, c: Option<Seq<char>>)
    ensures
        file_cmp(a, b) == -file_cmp(b, a),
        -1 <= file_cmp(a, b) <= 1,
        file_cmp(a, b) <= 0 && file_cmp(b, c) <= 0 ==> file_cmp(a, c) <= 0,
        file_cmp(a, c) == 0 ==> file_cmp(a, b) == file_cmp(c, b),
{
    let k = |f: Option<Seq<char>>|
        match f {
            Some(x) => byte_ints(encode_utf8(x)),
            None => Seq::<int>::empty(),
        };
    lemma_ints_cmp(k(a), k(b), k(c));
    lemma_ints_cmp(k(b), k(c), k(a));
    lemma_ints_cmp(k(a), k(c), k(b));
    lemma_ints_cmp(k(c), k(b), k(a));
}

proof fn lemma_diag_cmp(a: DiagnosticView, b: DiagnosticView, c: DiagnosticView)
    ensures
        diag_cmp(a, b) == -diag_cmp(b, a),
        diag_cmp(a, b) <= 0 && diag_cmp(b, c) <= 0 ==> diag_cmp(a, c) <= 0,
{
    lemma_ints_cmp(position_key(a), position_key(b), position_key(c));
    lemma_ints_cmp(position_key(b), position_key(c), position_key(a));
    lemma_ints_cmp(position_key(a), position_key(c), position_key(b));
    lemma_ints_cmp(position_key(c), position_key(b), position_key(a));
    let ta = byte_ints(encode_utf8(a.span.text));
    let tb = byte_ints(encode_utf8(b.span.text));
    let tc = byte_ints(encode_utf8(c.span.text));
    lemma_ints_cmp(ta, tb, tc);
    lemma_ints_cmp(tb, tc, ta);
    lemma_file_cmp(a.span.file, b.span.file, c.span.file);
    lemma_file_cmp(b.span.file, c.span.file, a.span.file);
    lemma_file_cmp(c.span.file, b.span.file, a.span.file);
}

/// Compares two byte strings lexicographically.
fn compare_bytes(x: &[u8], y: &[u8]) -> (r: i8)
    ensures
        r as int == ints_cmp(byte_ints(x@), byte_ints(y@)),
{
    let ghost bx = byte_ints(x@);
    let ghost by = byte_ints(y@);
    let mut i: usize = 0;
    proof {
        assert(bx.subrange(0, bx.len() as int) =~= bx);
        assert(by.subrange(0, by.len() as int) =~= by);
    }
    while i < x.len() && i < y.len() && x[i] == y[i]
        invariant
            i <= x@.len(),
            i <= y@.len(),
            bx == byte_ints(x@),
            by == byte_ints(y@),
            ints_cmp(bx, by) == ints_cmp(bx.subrange(i as int, bx.len() as int), by.subrange(i as int, by.len() as int)),
        decreases x@.len() - i,
    {
        proof {
            assert(bx.subrange(i as int, bx.len() as int).drop_first() =~= bx.subrange(i + 1, bx.len() as int));
            assert(by.subrange(i as int, by.len() as int).drop_first() =~= by.subrange(i + 1, by.len() as int));
        }
        i = i + 1;
    }
    if i == x.len() && i == y.len() {
        0
    } else if i == x.len() {
        -1
    } else if i == y.len() {
        1
    } else if x[i] < y[i] {
        -1
    } else {
        1
    }
}

fn compare_u32(a: u32, b: u32) -> (r: i8)
    ensures
        r as int == (if a < b { -1int } else if a > b { 1int } else { 0int }),
{
    if a < b {
        -1
    } else if a > b {
        1
    } else {
        0
    }
}

/// Compares two diagnostics in sort order.
fn compare_diagnostics(a: &Diagnostic, b: &Diagnostic) -> (r: i8)
    ensures
        r as int == diag_cmp(a@, b@),
{
    let f: i8 = match (&a.global_span.file, &b.global_span.file) {
        (None, None) => 0,
        (None, Some(_)) => -1,
        (Some(_), None) => 1,
        (Some(x), Some(y)) => compare_bytes(x.as_str().as_bytes(), y.as_str().as_bytes()),
    };
    if f != 0 {
        return f;
    }
    let sa = &a.global_span;
    let sb = &b.global_span;
    let ghost ka = position_key(a@);
    let ghost kb = position_key(b@);
    proof {
        reveal_with_fuel(ints_cmp, 7);
        assert(ka.drop_first() =~= seq![ka[1], ka[2], ka[3], ka[4], ka[5]]);
        assert(kb.drop_first() =~= seq![kb[1], kb[2], kb[3], kb[4], kb[5]]);
        assert(ka.drop_first().drop_first() =~= seq![ka[2], ka[3], ka[4], ka[5]]);
        assert(kb.drop_first().drop_first() =~= seq![kb[2], kb[3], kb[4], kb[5]]);
        assert(ka.drop_first().drop_first().drop_first() =~= seq![ka[3], ka[4], ka[5]]);
        assert(kb.drop_first().drop_first().drop_first() =~= seq![kb[3], kb[4], kb[5]]);
        assert(ka.drop_first().drop_first().drop_first().drop_first() =~= seq![ka[4], ka[5]]);
        assert(kb.drop_first().drop_first().drop_first().drop_first() =~= seq![kb[4], kb[5]]);
        assert(ka.drop_first().drop_first().drop_first().drop_first().drop_first() =~= seq![ka[5]]);
        assert(kb.drop_first().drop_first().drop_first().drop_first().drop_first() =~= seq![kb[5]]);
        assert(seq![ka[5]].drop_first() =~= Seq::<int>::empty());
        assert(seq![kb[5]].drop_first() =~= Seq::<int>::empty());
    }
    let c = compare_u32(sa.text_bytes.start, sb.text_bytes.start);
    if c != 0 {
        return c;
    }
    let c = compare_u32(sa.text_bytes.end, sb.text_bytes.end);
    if c != 0 {
        return c;
    }
    let c = compare_u32(sa.lines_covered.start, sb.lines_covered.start);
    if c != 0 {
        return c;
    }
    let c = compare_u32(sa.lines_covered.end, sb.lines_covered.end);
    if c != 0 {
        return c;
    }
    let c = compare_u32(sa.columns.start, sb.columns.start);
    if c != 0 {
        return c;
    }
    let c = compare_u32(sa.columns.end, sb.columns.end);
    if c != 0 {
        return c;
    }
    compare_bytes(sa.full_text.as_str().as_bytes(), sb.full_text.as_str().as_bytes())
}

/// Whether some diagnostic has level `l`.
pub open spec fn has_level(v: Seq<DiagnosticView>, l: Level) -> bool {
    exists|i: int| 0 <= i < v.len() && (#[trigger] v[i]).level == l
}

/// Whether two levels are the same.
fn same_level(a: &DiagnosticLevel, b: &DiagnosticLevel) -> (r: bool)
    ensures
        r == (a@ == b@),
{
    match (a, b) {
        (DiagnosticLevel::Info, DiagnosticLevel::Info) => true,
        (DiagnosticLevel::Warn, DiagnosticLevel::Warn) => true,
        (DiagnosticLevel::Error, DiagnosticLevel::Error) => true,
        (DiagnosticLevel::Custom(x), DiagnosticLevel::Custom(y)) => x.eq(y),
        _ => false,
    }
}

impl DiagnosticBag {
    /// An empty bag.
    pub fn new() -> (r: DiagnosticBag)
        ensures
            r@ == Seq::<DiagnosticView>::empty(),
    {
        let r = DiagnosticBag { diagnostics: Vec::new() };
        proof {
            assert(r@ =~= Seq::<DiagnosticView>::empty());
        }
        r
    }

    /// A bag holding `v`, in order.
    pub fn from_vec(v: Vec<Diagnostic>) -> (r: DiagnosticBag)
        ensures
            r@ == Seq::new(v@.len(), |i: int| v@[i]@),
    {
        let r = DiagnosticBag { diagnostics: v };
        proof {
            assert(r@ =~= Seq::new(v@.len(), |i: int| v@[i]@));
        }
        r
    }

    pub fn len(&self) -> (r: usize)
        ensures
            r == self@.len(),
    {
        self.diagnostics.len()
    }

    pub fn is_empty(&self) -> (r: bool)
        ensures
            r == (self@.len() == 0),
    {
        self.diagnostics.len() == 0
    }

    /// Adds a diagnostic at the end.
    pub fn add(&mut self, error: Diagnostic)
        ensures
            final(self)@ == old(self)@.push(error@),
    {
        let ghost e = error@;
        self.diagnostics.push(error);
        proof {
            assert(self@ =~= old(self)@.push(e));
        }
    }

    /// Moves every diagnostic of `other` to the end of this bag.
    pub fn append(&mut self, other: DiagnosticBag)
        ensures
            final(self)@ == old(self)@ + other@,
    {
        let mut other = other;
        let ghost o = other@;
        self.diagnostics.append(&mut other.diagnostics);
        proof {
            assert(self@ =~= old(self)@ + o);
        }
    }

    /// The diagnostics, in order.
    pub fn iter(&self) -> (r: &[Diagnostic])
        ensures
            r@.len() == self@.len(),
            forall|i: int| 0 <= i < r@.len() ==> (#[trigger] r@[i])@ == self@[i],
    {
        self.diagnostics.as_slice()
    }

    /// Whether any diagnostic has level `target`.
    fn contains_level(&self, target: &DiagnosticLevel) -> (r: bool)
        ensures
            r == has_level(self@, target@),
    {
        let mut i: usize = 0;
        while i < self.diagnostics.len()
            invariant
                i <= self@.len(),
                forall|k: int| 0 <= k < i ==> (#[trigger] self@[k]).level != target@,
            decreases self@.len() - i,
        {
            if same_level(&self.diagnostics[i].error_level, target) {
                proof {
                    assert(self@[i as int].level == target@);
                }
                return true;
            }
            i = i + 1;
        }
        false
    }

    /// Whether any diagnostic has level `Error`.
    pub fn contains_errors(&self) -> (r: bool)
        ensures
            r == has_level(self@, Level::Error),
    {
        self.contains_level(&DiagnosticLevel::Error)
    }

    /// Whether any diagnostic has level `Warn`.
    pub fn contains_warnings(&self) -> (r: bool)
        ensures
            r == has_level(self@, Level::Warn),
    {
        self.contains_level(&DiagnosticLevel::Warn)
    }

    /// Whether any diagnostic has level `Info`.
    pub fn contains_info(&self) -> (r: bool)
        ensures
            r == has_level(self@, Level::Info),
    {
        self.contains_level(&DiagnosticLevel::Info)
    }

    /// Whether any diagnostic has the custom level `custom`.
    pub fn contains_custom(&self, custom: &str) -> (r: bool)
        ensures
            r == has_level(self@, Level::Custom(custom@)),
    {
        self.contains_level(&DiagnosticLevel::Custom(custom.to_owned()))
    }

    /// Whether any diagnostic has a custom level.
    pub fn contains_any_custom(&self) -> (r: bool)
        ensures
            r == exists|i: int| 0 <= i < self@.len() && (#[trigger] self@[i]).level is Custom,
    {
        let mut i: usize = 0;
        while i < self.diagnostics.len()
            invariant
                i <= self@.len(),
                forall|k: int| 0 <= k < i ==> !((#[trigger] self@[k]).level is Custom),
            decreases self@.len() - i,
        {
            if let DiagnosticLevel::Custom(_) = self.diagnostics[i].error_level {
                proof {
                    assert(self@[i as int].level is Custom);
                }
                return true;
            }
            i = i + 1;
        }
        false
    }

    /// One editor entry per diagnostic, in order.
    pub fn lsp_entries(&self) -> (r: Vec<LspEntry>)
        ensures
            r@.len() == self@.len(),
            forall|i: int| 0 <= i < r@.len() ==> entry_matches(#[trigger] r@[i], self@[i]),
    {
        let mut out: Vec<LspEntry> = Vec::new();
        let mut i: usize = 0;
        while i < self.diagnostics.len()
            invariant
                i <= self@.len(),
                out@.len() == i,
                forall|k: int| 0 <= k < i ==> entry_matches(#[trigger] out@[k], self@[k]),
            decreases self@.len() - i,
        {
            let d = &self.diagnostics[i];
            let severity: u8 = match &d.error_level {
                DiagnosticLevel::Error => 0,
                DiagnosticLevel::Warn => 1,
                DiagnosticLevel::Info => 2,
                DiagnosticLevel::Custom(_) => 3,
            };
            let span = &d.global_span;
            out.push(
                LspEntry {
                    severity,
                    message: d.message.clone(),
                    start_line: span.lines_covered.start as i64 - 1,
                    start_character: span.columns.start as i64 - 1,
                    end_line: span.lines_covered.end as i64 - 1,
                    end_character: span.columns.end as i64 - 1,
                },
            );
            i = i + 1;
        }
        out
    }

    /// Sorts the diagnostics by file name, then by where their primary span
    /// lies; diagnostics that compare equal keep their order.
    pub fn sort(&mut self)
        ensures
            final(self)@.to_multiset() == old(self)@.to_multiset(),
            sorted(final(self)@),
            exists|perm: Seq<int>| stable_arrangement(perm, old(self)@, final(self)@),
    {
        let mut rest = Vec::new();
        std::mem::swap(&mut rest, &mut self.diagnostics);
        let ghost orig = Seq::new(rest@.len(), |i: int| rest@[i]@);
        proof {
            assert(orig =~= old(self)@);
        }
        let mut out: Vec<Diagnostic> = Vec::new();
        let ghost mut done: Seq<DiagnosticView> = Seq::empty();
        let ghost mut left: Seq<DiagnosticView> = orig;
        let ghost mut perm: Seq<int> = Seq::empty();
        let ghost mut taken: int = 0;
        proof {
            assert(left =~= orig.subrange(0, orig.len() as int));
            done.to_multiset_ensures();
            vstd::multiset::lemma_multiset_empty_len(done.to_multiset());
            assert(done.to_multiset().add(left.to_multiset()) =~= orig.to_multiset());
        }
        while rest.len() > 0
            invariant
                done == Seq::new(out@.len(), |i: int| out@[i]@),
                left == Seq::new(rest@.len(), |i: int| rest@[i]@),
                done.to_multiset().add(left.to_multiset()) == orig.to_multiset(),
                sorted(done),
                0 <= taken <= orig.len(),
                left == orig.subrange(taken, orig.len() as int),
                perm.len() == done.len(),
                forall|i: int| 0 <= i < done.len() ==> 0 <= #[trigger] perm[i] < taken && done[i] == orig[perm[i]],
                forall|i: int, j: int| 0 <= i < j < done.len() ==> #[trigger] perm[i] != #[trigger] perm[j],
                forall|i: int, j: int|
                    0 <= i < j < done.len() && diag_cmp(#[trigger] done[i], #[trigger] done[j]) == 0 ==> perm[i] < perm[j],
            decreases rest@.len(),
        {
            let d = rest.remove(0);
            let ghost dv = d@;
            proof {
                assert(left[0] == dv);
                let l2 = Seq::new(rest@.len(), |i: int| rest@[i]@);
                assert(l2 =~= left.remove(0));
                vstd::seq_lib::to_multiset_remove(left, 0);
                left.to_multiset_ensures();
                assert(left.contains(dv));
            }
            let mut p: usize = 0;
            while p < out.len() && compare_diagnostics(&d, &out[p]) >= 0
                invariant
                    p <= out@.len(),
                    done == Seq::new(out@.len(), |i: int| out@[i]@),
                    dv == d@,
                    forall|i: int| 0 <= i < p ==> diag_cmp(dv, #[trigger] done[i]) >= 0,
                decreases out@.len() - p,
            {
                p = p + 1;
            }
            proof {
                if p < done.len() {
                    assert(diag_cmp(dv, done[p as int]) < 0);
                }
            }
            out.insert(p, d);
            proof {
                let nd = done.insert(p as int, dv);
                let np = perm.insert(p as int, taken);
                assert(dv == orig[taken]);
                assert forall|i: int| 0 <= i < nd.len() implies 0 <= #[trigger] np[i] < taken + 1 && nd[i] == orig[np[i]] by {
                    if i > p {
                        assert(np[i] == perm[i - 1] && nd[i] == done[i - 1]);
                    } else if i < p {
                        assert(np[i] == perm[i] && nd[i] == done[i]);
                    }
                }
                assert forall|i: int, j: int| 0 <= i < j < nd.len() implies #[trigger] np[i] != #[trigger] np[j] by {
                    if i < p {
                        assert(np[i] == perm[i]);
                    } else if i > p {
                        assert(np[i] == perm[i - 1]);
                    }
                    if j < p {
                        assert(np[j] == perm[j]);
                    } else if j > p {
                        assert(np[j] == perm[j - 1]);
                    }
                }
                assert forall|i: int, j: int|
                    0 <= i < j < nd.len() && diag_cmp(#[trigger] nd[i], #[trigger] nd[j]) == 0 implies np[i] < np[j] by {
                    if i < p {
                        assert(np[i] == perm[i] && nd[i] == done[i]);
                    } else if i > p {
                        assert(np[i] == perm[i - 1] && nd[i] == done[i - 1]);
                    }
                    if j < p {
                        assert(np[j] == perm[j] && nd[j] == done[j]);
                    } else if j > p {
                        assert(np[j] == perm[j - 1] && nd[j] == done[j - 1]);
                    }
                    if i == p {
                        let x = done[j - 1];
                        lemma_diag_cmp(done[p as int], x, dv);
                        lemma_diag_cmp(dv, done[p as int], x);
                        lemma_diag_cmp(x, dv, done[p as int]);
                        lemma_diag_cmp(dv, x, done[p as int]);
                        if j - 1 > p {
                            assert(diag_cmp(done[p as int], x) <= 0);
                        }
                    }
                }
                perm = np;
                taken = taken + 1;
                assert(left.remove(0) =~= orig.subrange(taken, orig.len() as int));
                assert(Seq::new(out@.len(), |i: int| out@[i]@) =~= nd);
                vstd::seq_lib::to_multiset_insert(done, p as int, dv);
                assert forall|i: int, j: int| 0 <= i < j < nd.len() implies diag_cmp(#[trigger] nd[i], #[trigger] nd[j]) <= 0 by {
                    if i < p && j == p {
                        lemma_diag_cmp(dv, done[i], dv);
                    } else if i == p && j > p {
                        lemma_diag_cmp(dv, done[p as int], done[j - 1]);
                        lemma_diag_cmp(done[p as int], dv, done[j - 1]);
                        if j - 1 > p {
                            assert(diag_cmp(done[p as int], done[j - 1]) <= 0);
                        }
                    } else if i < p && j > p {
                        assert(nd[i] == done[i]);
                        assert(nd[j] == done[j - 1]);
                    } else if i > p {
                        assert(nd[i] == done[i - 1]);
                        assert(nd[j] == done[j - 1]);
                    }
                }
                let m = done.to_multiset();
                let n = left.to_multiset();
                assert(nd.to_multiset().add(left.remove(0).to_multiset()) =~= m.add(n));
                done = nd;
                left = left.remove(0);
            }
        }
        proof {
            left.to_multiset_ensures();
            vstd::multiset::lemma_multiset_empty_len(left.to_multiset());
            assert(done.to_multiset() =~= orig.to_multiset());
        }
        self.diagnostics = out;
        proof {
            assert(self@ =~= done);
            done.to_multiset_ensures();
            orig.to_multiset_ensures();
            assert(done.len() == orig.len());
            assert(taken == orig.len());
            assert(stable_arrangement(perm, orig, done));
            assert(stable_arrangement(perm, old(self)@, self@));
        }
    }
}

} // verus!
