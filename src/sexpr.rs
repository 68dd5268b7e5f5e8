//! The tree of nodes that a parse builds.
use vstd::prelude::*;
use vstd::string::StringExecFns;
use crate::diagnostic::{Diagnostic, DiagnosticLevel, DiagnosticView, Level};
use crate::diagnostic_bag::DiagnosticBag;
use crate::span::{Span, SpanView, span_wf, span_text};
use crate::token::{ListType, TokenInfo, chars_of};

verus! {

/// A node of the tree.
pub enum Sexpr {
    /// A bracketed list: `(...)`, `[...]` or `{...}`.
    List {
        list_type: ListType,
        opening_token: TokenInfo,
        closing_token: TokenInfo,
        children: Vec<Sexpr>,
        span: Span,
    },
    /// An unquoted atom such as `5.0` or `foo`.
    Terminal(TokenInfo, Span),
    /// A quoted string.
    String(TokenInfo, Span),
}

/// The kind of a node, without its contents.
#[derive(Clone, Copy, PartialEq, Eq, Debug, Structural)]
pub enum SexprKind {
    List,
    Terminal,
    String,
}

/// What a node denotes.
pub ghost enum Node {
    List {
        list_type: ListType,
        opening_token: TokenInfo,
        closing_token: TokenInfo,
        children: Seq<Node>,
        span: SpanView,
    },
    Terminal(TokenInfo, SpanView),
    Str(TokenInfo, SpanView),
}

pub open spec fn sexpr_view(s: Sexpr) -> Node
    decreases s,
{
    match s {
        Sexpr::List { list_type, opening_token, closing_token, children, span } => Node::List {
            list_type,
            opening_token,
            closing_token,
            children: Seq::new(
                children@.len(),
                |i: int|
                    if 0 <= i < children@.len() {
                        sexpr_view(children@[i])
                    } else {
                        Node::Str(opening_token, span@)
                    },
            ),
            span: span@,
        },
        Sexpr::Terminal(t, span) => Node::Terminal(t, span@),
        Sexpr::String(t, span) => Node::Str(t, span@),
    }
}

impl View for Sexpr {
    type V = Node;

    open spec fn view(&self) -> Node {
        sexpr_view(*self)
    }
}

/// The views of a sequence of nodes.
pub open spec fn nodes_view(v: Seq<Sexpr>) -> Seq<Node> {
    Seq::new(v.len(), |i: int| sexpr_view(v[i]))
}

/// A node and every node below it have well-formed spans.
pub open spec fn node_wf(n: Node) -> bool
    decreases n,
{
    &&& span_wf(node_span(n))
    &&& match n {
        Node::List { children, .. } => forall|i: int|
            0 <= i < children.len() ==> node_wf(#[trigger] children[i]),
        _ => true,
    }
}

pub open spec fn node_span(n: Node) -> SpanView {
    match n {
        Node::List { span, .. } => span,
        Node::Terminal(_, span) => span,
        Node::Str(_, span) => span,
    }
}

pub open spec fn node_kind(n: Node) -> SexprKind {
    match n {
        Node::List { .. } => SexprKind::List,
        Node::Terminal(..) => SexprKind::Terminal,
        Node::Str(..) => SexprKind::String,
    }
}

/// The first token that went into a node.
pub open spec fn node_first_token(n: Node) -> TokenInfo {
    match n {
        Node::List { opening_token, .. } => opening_token,
        Node::Terminal(t, _) => t,
        Node::Str(t, _) => t,
    }
}

/// The last token that went into a node.
pub open spec fn node_last_token(n: Node) -> TokenInfo {
    match n {
        Node::List { closing_token, .. } => closing_token,
        Node::Terminal(t, _) => t,
        Node::Str(t, _) => t,
    }
}

/// The name of a node kind, as reports show it.
pub open spec fn kind_name(k: SexprKind) -> Seq<char> {
    match k {
        SexprKind::List => "List"@,
        SexprKind::Terminal => "Terminal"@,
        SexprKind::String => "String"@,
    }
}

fn kind_str(k: SexprKind) -> (r: &'static str)
    ensures
        r@ == kind_name(k),
{
    match k {
        SexprKind::List => "List",
        SexprKind::Terminal => "Terminal",
        SexprKind::String => "String",
    }
}

/// An error-level diagnostic with the given message over a span.
pub open spec fn error_at(message: Seq<char>, span: SpanView) -> DiagnosticView {
    DiagnosticView {
        message,
        annotations: Seq::empty(),
        span,
        padding: 2,
        level: Level::Error,
        min_gap: None,
    }
}

/// The report for a node that should have been a list.
pub open spec fn not_a_list(n: Node) -> DiagnosticView {
    error_at("Expected to find a list, but found "@ + kind_name(node_kind(n)) + " instead"@, node_span(n))
}

/// The report for a node that should have been the terminal `symbol`.
pub open spec fn not_the_terminal(n: Node, symbol: Seq<char>) -> DiagnosticView {
    match n {
        Node::Terminal(_, span) => error_at(
            "Expected terminal `"@ + symbol + "` found `"@ + span_text(span) + "`"@,
            span,
        ),
        _ => error_at("Expected terminal `"@ + symbol + "`"@, node_span(n)),
    }
}

/// The report for a list without the leading symbol `symbol`.
pub open spec fn empty_list_for(n: Node, symbol: Seq<char>) -> DiagnosticView {
    error_at(
        "Expected a list with symbol `"@ + symbol + "` but found an empty list"@,
        node_span(n),
    )
}

/// The report for a node that should have been an integer.
pub open spec fn not_an_int(n: Node) -> DiagnosticView {
    match n {
        Node::Terminal(_, span) => error_at(
            "Expected integer, failed to parse `"@ + span_text(span) + "`"@,
            span,
        ),
        _ => error_at(
            "Expected to find an integer, but found "@ + kind_name(node_kind(n)) + " instead"@,
            node_span(n),
        ),
    }
}

/// Whether `c` is an ASCII decimal digit.
pub open spec fn is_digit(c: char) -> bool {
    '0' <= c <= '9'
}

/// The value of a run of decimal digits.
pub open spec fn digits_value(s: Seq<char>) -> int
    decreases s.len(),
{
    if s.len() == 0 {
        0
    } else {
        digits_value(s.drop_last()) * 10 + (s.last() as int - '0' as int)
    }
}

/// Whether `s` starts with a sign.
pub open spec fn signed(s: Seq<char>) -> bool {
    s.len() > 0 && (s[0] == '-' || s[0] == '+')
}

/// The digits part of `s`: everything after a leading sign.
pub open spec fn int_body(s: Seq<char>) -> Seq<char> {
    if signed(s) {
        s.drop_first()
    } else {
        s
    }
}

pub open spec fn all_digits(t: Seq<char>) -> bool {
    forall|i: int| 0 <= i < t.len() ==> is_digit(#[trigger] t[i])
}

/// The integer that `s` spells: an optional sign, then one or more decimal
/// digits and nothing else, within the range of `i64`.
pub open spec fn int_value(s: Seq<char>) -> Option<int> {
    let body = int_body(s);
    let v = if s.len() > 0 && s[0] == '-' {
        -digits_value(body)
    } else {
        digits_value(body)
    };
    if body.len() == 0 || !all_digits(body) {
        None
    } else if i64::MIN <= v <= i64::MAX {
        Some(v)
    } else {
        None
    }
}

/// Text whose digits part holds a non-digit, or is worth more than `i64`
/// can hold, spells no integer.
proof fn lemma_no_int(s: Seq<char>, k: int)
    requires
        0 <= k < int_body(s).len(),
        !is_digit(int_body(s)[k]) || digits_value(int_body(s)) > 9223372036854775808,
    ensures
        int_value(s) is None,
{
}

/// A run of digits is worth at least any of its prefixes.
proof fn lemma_digits_prefix(s: Seq<char>, k: int)
    requires
        0 <= k <= s.len(),
        forall|i: int| 0 <= i < s.len() ==> is_digit(#[trigger] s[i]),
    ensures
        digits_value(s.subrange(0, k)) <= digits_value(s),
        0 <= digits_value(s),
    decreases s.len(),
{
    if s.len() > 0 {
        if k == s.len() {
            assert(s.subrange(0, k) =~= s);
        } else {
            assert(s.drop_last().subrange(0, k) =~= s.subrange(0, k));
        }
        lemma_digits_prefix(s.drop_last(), if k == s.len() { k - 1 } else { k });
    } else {
        assert(s.subrange(0, k) =~= s);
    }
}

/// The integer that `s` spells, as `i64::from_str` reads it: an optional
/// sign, then one or more decimal digits, within range.
fn parse_i64(s: &str) -> (r: Option<i64>)
    ensures
        match r {
            Some(v) => int_value(s@) == Some(v as int),
            None => int_value(s@) is None,
        },
{
    let cs = chars_of(s);
    let n = cs.len();
    let signed = n > 0 && (cs[0] == '-' || cs[0] == '+');
    let neg = n > 0 && cs[0] == '-';
    let start: usize = if signed {
        1
    } else {
        0
    };
    let ghost body = if signed {
        s@.drop_first()
    } else {
        s@
    };
    proof {
        assert(body =~= s@.subrange(start as int, n as int));
        assert(signed == (s@.len() > 0 && (s@[0] == '-' || s@[0] == '+')));
        assert(neg == (s@.len() > 0 && s@[0] == '-'));
    }
    if start == n {
        return None;
    }
    let limit: u128 = 9223372036854775808;
    let mut acc: u128 = 0;
    let mut i = start;
    proof {
        assert(body.subrange(0, 0) =~= Seq::<char>::empty());
    }
    while i < n
        invariant
            start <= i <= n == cs@.len(),
            cs@ == s@,
            body == s@.subrange(start as int, n as int),
            body == int_body(s@),
            acc as int == digits_value(body.subrange(0, i - start)),
            acc <= limit,
            limit == 9223372036854775808,
            forall|k: int| 0 <= k < i - start ==> is_digit(#[trigger] body[k]),
        decreases n - i,
    {
        let c = cs[i];
        proof {
            assert(body[i - start] == c);
            assert(body.subrange(0, i - start + 1).drop_last() =~= body.subrange(0, i - start));
        }
        if !('0' <= c && c <= '9') {
            proof {
                lemma_no_int(s@, i - start);
            }
            return None;
        }
        let next = acc * 10 + (c as u32 - '0' as u32) as u128;
        proof {
            assert(body.subrange(0, i - start + 1).last() == c);
            assert(next as int == digits_value(body.subrange(0, i - start + 1)));
        }
        if next > limit {
            proof {
                if forall|k: int| 0 <= k < body.len() ==> is_digit(#[trigger] body[k]) {
                    lemma_digits_prefix(body, i - start + 1);
                    assert(digits_value(body) > limit);
                    lemma_no_int(s@, i - start);
                } else {
                    let k = choose|k: int| 0 <= k < body.len() && !is_digit(#[trigger] body[k]);
                    lemma_no_int(s@, k);
                }
            }
            return None;
        }
        acc = next;
        i = i + 1;
    }
    proof {
        assert(body.subrange(0, n - start) =~= body);
    }
    if neg {
        if acc == limit {
            Some(i64::MIN)
        } else {
            Some(-(acc as i64))
        }
    } else if acc > 9223372036854775807 {
        None
    } else {
        Some(acc as i64)
    }
}

proof fn lemma_children_view(s: Sexpr)
    ensures
        s matches Sexpr::List { children, .. } ==> (sexpr_view(s) matches Node::List { children: c, .. }
            && c == nodes_view(children@)),
{
    if let Sexpr::List { children, .. } = s {
        if let Node::List { children: c, .. } = sexpr_view(s) {
            assert(c =~= nodes_view(children@));
        }
    }
}

/// The children of a list whose spans are all well formed have well-formed
/// spans too, at every depth.
pub proof fn children_wf(n: Sexpr)
    requires
        node_wf(n@),
    ensures
        n matches Sexpr::List { children, .. } ==> forall|i: int|
            0 <= i < children@.len() ==> node_wf(#[trigger] children@[i]@),
{
    lemma_children_view(n);
    if let Sexpr::List { children, .. } = n {
        assert forall|i: int| 0 <= i < children@.len() implies node_wf(#[trigger] children@[i]@) by {
            assert(nodes_view(children@)[i] == children@[i]@);
        }
    }
}

impl Sexpr {
    /// The span of source that the node covers.
    pub fn span(&self) -> (r: &Span)
        ensures
            r@ == node_span(self@),
    {
        match self {
            Sexpr::List { span, .. } => span,
            Sexpr::Terminal(_, span) => span,
            Sexpr::String(_, span) => span,
        }
    }

    /// The text that built the node.
    pub fn text(&self) -> (r: String)
        requires
            span_wf(node_span(self@)),
        ensures
            r@ == span_text(node_span(self@)),
    {
        self.span().text()
    }

    /// The kind of the node.
    pub fn kind(&self) -> (r: SexprKind)
        ensures
            r == node_kind(self@),
    {
        match self {
            Sexpr::List { .. } => SexprKind::List,
            Sexpr::Terminal(..) => SexprKind::Terminal,
            Sexpr::String(..) => SexprKind::String,
        }
    }

    /// The last token that went into the node.
    pub fn last_token(&self) -> (r: &TokenInfo)
        ensures
            *r == node_last_token(self@),
    {
        match self {
            Sexpr::List { closing_token, .. } => closing_token,
            Sexpr::Terminal(t, _) => t,
            Sexpr::String(t, _) => t,
        }
    }

    /// The first token that went into the node.
    pub fn first_token(&self) -> (r: &TokenInfo)
        ensures
            *r == node_first_token(self@),
    {
        match self {
            Sexpr::List { opening_token, .. } => opening_token,
            Sexpr::Terminal(t, _) => t,
            Sexpr::String(t, _) => t,
        }
    }

    /// The children of a list; anything else is reported.
    pub fn expect_list(&self, diagnostics: &mut DiagnosticBag) -> (r: Option<&[Sexpr]>)
        ensures
            match self@ {
                Node::List { children, .. } => r matches Some(c) && nodes_view(c@) == children
                    && final(diagnostics)@ == old(diagnostics)@,
                _ => r is None && final(diagnostics)@ == old(diagnostics)@.push(not_a_list(self@)),
            },
    {
        match self {
            Sexpr::List { children, .. } => {
                let r = children.as_slice();
                proof {
                    assert(nodes_view(r@) =~= nodes_view(children@));
                    lemma_children_view(*self);
                }
                Some(r)
            },
            _ => {
                diagnostics.add(self.list_report());
                None
            },
        }
    }

    fn list_report(&self) -> (r: Diagnostic)
        ensures
            r@ == not_a_list(self@),
    {
        let mut message = "Expected to find a list, but found ".to_string();
        message.append(kind_str(self.kind()));
        message.append(" instead");
        Diagnostic::new(message, self.span()).with_error_level(DiagnosticLevel::Error)
    }

    /// Whether the node is the terminal `symbol`; anything else is reported.
    pub fn expect_terminal(&self, symbol: &str, diagnostics: &mut DiagnosticBag) -> (r: Option<()>)
        requires
            span_wf(node_span(self@)),
        ensures
            ({
                let ok = self@ matches Node::Terminal(_, span) && span_text(span) == symbol@;
                &&& (r is Some <==> ok)
                &&& ok ==> final(diagnostics)@ == old(diagnostics)@
                &&& !ok ==> final(diagnostics)@ == old(diagnostics)@.push(not_the_terminal(self@, symbol@))
            }),
    {
        match self {
            Sexpr::Terminal(_, span) => {
                let text = span.text();
                if text.eq(&symbol.to_owned()) {
                    Some(())
                } else {
                    let mut message = "Expected terminal `".to_string();
                    message.append(symbol);
                    message.append("` found `");
                    message.append(text.as_str());
                    message.append("`");
                    diagnostics.add(Diagnostic::new(message, span).with_error_level(DiagnosticLevel::Error));
                    None
                }
            },
            _ => {
                let mut message = "Expected terminal `".to_string();
                message.append(symbol);
                message.append("`");
                diagnostics.add(Diagnostic::new(message, self.span()).with_error_level(DiagnosticLevel::Error));
                None
            },
        }
    }

    /// The children after the first of a list that starts with the terminal
    /// `symbol`; anything else is reported.
    pub fn expect_list_with_symbol(&self, symbol: &str, diagnostics: &mut DiagnosticBag) -> (r: Option<&[Sexpr]>)
        requires
            match self@ {
                Node::List { children, .. } => children.len() > 0 ==> span_wf(node_span(children[0])),
                _ => true,
            },
        ensures
            match self@ {
                Node::List { children, .. } => if children.len() == 0 {
                    r is None && final(diagnostics)@ == old(diagnostics)@.push(empty_list_for(self@, symbol@))
                } else if children[0] matches Node::Terminal(_, span) && span_text(span) == symbol@ {
                    r matches Some(c) && nodes_view(c@) == children.drop_first() && final(diagnostics)@ == old(diagnostics)@
                } else {
                    r is None && final(diagnostics)@ == old(diagnostics)@.push(not_the_terminal(children[0], symbol@))
                },
                _ => r is None && final(diagnostics)@ == old(diagnostics)@.push(not_a_list(self@)),
            },
    {
        match self {
            Sexpr::List { children, .. } => {
                proof {
                    lemma_children_view(*self);
                }
                if children.len() == 0 {
                    let mut message = "Expected a list with symbol `".to_string();
                    message.append(symbol);
                    message.append("` but found an empty list");
                    diagnostics.add(Diagnostic::new(message, self.span()).with_error_level(DiagnosticLevel::Error));
                    None
                } else {
                    match children[0].expect_terminal(symbol, diagnostics) {
                        Some(()) => {
                            let rest = vstd::slice::slice_subrange(children.as_slice(), 1, children.len());
                            proof {
                                assert(nodes_view(rest@) =~= nodes_view(children@).drop_first());
                            }
                            Some(rest)
                        },
                        None => None,
                    }
                }
            },
            _ => {
                diagnostics.add(self.list_report());
                None
            },
        }
    }

    /// The integer that a terminal spells; anything else is reported.
    pub fn expect_int(&self, diagnostics: &mut DiagnosticBag) -> (r: Option<i64>)
        requires
            span_wf(node_span(self@)),
        ensures
            match self@ {
                Node::Terminal(_, span) => match int_value(span_text(span)) {
                    Some(v) => r == Some(v as i64) && final(diagnostics)@ == old(diagnostics)@,
                    None => r is None && final(diagnostics)@ == old(diagnostics)@.push(not_an_int(self@)),
                },
                _ => r is None && final(diagnostics)@ == old(diagnostics)@.push(not_an_int(self@)),
            },
    {
        match self {
            Sexpr::Terminal(_, span) => {
                let text = span.text();
                match parse_i64(text.as_str()) {
                    Some(v) => Some(v),
                    None => {
                        let mut message = "Expected integer, failed to parse `".to_string();
                        message.append(text.as_str());
                        message.append("`");
                        diagnostics.add(Diagnostic::new(message, span).with_error_level(DiagnosticLevel::Error));
                        None
                    },
                }
            },
            _ => {
                let mut message = "Expected to find an integer, but found ".to_string();
                message.append(kind_str(self.kind()));
                message.append(" instead");
                diagnostics.add(Diagnostic::new(message, self.span()).with_error_level(DiagnosticLevel::Error));
                None
            },
        }
    }
}

} // verus!
