//! The parse automaton: an explicit stack of open brackets that turns tokens
//! into a tree, recovering from every structural error.
use vstd::prelude::*;
use vstd::utf8::encode_utf8;
use crate::sexpr::{Sexpr, Node, sexpr_view, nodes_view, node_last_token, node_wf};
use crate::span::{Span, SpanView, token_span, merge_view, span_wf, file_view};
use crate::text::SourceText;
use crate::token::{ListType, TokenInfo, TokenType, TokError, TokResult, token_fits, bracket_char};
use crate::diagnostic::{Diagnostic, DiagnosticLevel, DiagnosticView, Level};
use crate::diagnostic_bag::DiagnosticBag;

pub use crate::span::StartEnd;

verus! {

/// What the automaton reports while it repairs the tree.
pub enum ParseDiagnostic {
    TokenizationError(TokError),
    UnclosedList(Span),
    ExtraClosing(Span),
    WrongClosing {
        opening_span: Span,
        closing_span: Span,
        expected_list_type: ListType,
        actual_list_type: ListType,
    },
}

/// What a report denotes.
pub ghost enum Event {
    TokenizationError(SpanView),
    UnclosedList(SpanView),
    ExtraClosing(SpanView),
    WrongClosing {
        opening_span: SpanView,
        closing_span: SpanView,
        expected_list_type: ListType,
        actual_list_type: ListType,
    },
}

impl View for ParseDiagnostic {
    type V = Event;

    open spec fn view(&self) -> Event {
        match self {
            ParseDiagnostic::TokenizationError(TokError::UnclosedString(s)) => Event::TokenizationError(s@),
            ParseDiagnostic::UnclosedList(s) => Event::UnclosedList(s@),
            ParseDiagnostic::ExtraClosing(s) => Event::ExtraClosing(s@),
            ParseDiagnostic::WrongClosing {
                opening_span,
                closing_span,
                expected_list_type,
                actual_list_type,
            } => Event::WrongClosing {
                opening_span: opening_span@,
                closing_span: closing_span@,
                expected_list_type: *expected_list_type,
                actual_list_type: *actual_list_type,
            },
        }
    }
}

pub open spec fn events_view(v: Seq<ParseDiagnostic>) -> Seq<Event> {
    Seq::new(v.len(), |i: int| v[i]@)
}

/// The two spans of a mismatch report lie over one text and file.
pub open spec fn event_wf(e: Event) -> bool {
    match e {
        Event::WrongClosing { opening_span, closing_span, .. } => {
            &&& span_wf(opening_span)
            &&& span_wf(closing_span)
            &&& opening_span.text == closing_span.text
            &&& opening_span.file == closing_span.file
        },
        Event::TokenizationError(s) => span_wf(s),
        Event::UnclosedList(s) => span_wf(s),
        Event::ExtraClosing(s) => span_wf(s),
    }
}

pub open spec fn events_wf(v: Seq<ParseDiagnostic>) -> bool {
    forall|i: int| 0 <= i < v.len() ==> event_wf(#[trigger] v[i]@)
}

/// A frame of the automaton's stack.
pub ghost enum Frame {
    Global { children: Seq<Node> },
    Open { opening: TokenInfo, typ: ListType, children: Seq<Node> },
}

pub open spec fn frame_children(f: Frame) -> Seq<Node> {
    match f {
        Frame::Global { children } => children,
        Frame::Open { children, .. } => children,
    }
}

pub open spec fn with_children(f: Frame, children: Seq<Node>) -> Frame {
    match f {
        Frame::Global { .. } => Frame::Global { children },
        Frame::Open { opening, typ, .. } => Frame::Open { opening, typ, children },
    }
}

/// The automaton's state: the stack of frames and the reports so far.
pub ghost struct State {
    pub stack: Seq<Frame>,
    pub events: Seq<Event>,
}

/// The state before any token.
pub open spec fn initial_state() -> State {
    State { stack: seq![Frame::Global { children: Seq::empty() }], events: Seq::empty() }
}

/// Appends a node to the children of the top frame.
pub open spec fn attach(stack: Seq<Frame>, n: Node) -> Seq<Frame> {
    if stack.len() == 0 {
        stack
    } else {
        stack.update(
            stack.len() - 1,
            with_children(stack.last(), frame_children(stack.last()).push(n)),
        )
    }
}

/// The list node that an open frame becomes when `closer` ends it.
pub open spec fn closed_list(
    opening: TokenInfo,
    typ: ListType,
    children: Seq<Node>,
    closer: TokenInfo,
    text: Seq<char>,
    file: Option<Seq<char>>,
) -> Node {
    Node::List {
        list_type: typ,
        opening_token: opening,
        closing_token: closer,
        children,
        span: merge_view(token_span(opening, text, file), token_span(closer, text, file)),
    }
}

/// A closing bracket of kind `typ` read as `tok`: with no frame open it is a
/// stray closer; otherwise it closes the top frame, and if the kinds differ
/// it is reported and offered again to the frame below.
pub open spec fn close_with(
    s: State,
    typ: ListType,
    tok: TokenInfo,
    text: Seq<char>,
    file: Option<Seq<char>>,
) -> State
    decreases s.stack.len(),
{
    if s.stack.len() == 0 {
        s
    } else {
        match s.stack.last() {
            Frame::Global { .. } => State {
                stack: s.stack,
                events: s.events.push(Event::ExtraClosing(token_span(tok, text, file))),
            },
            Frame::Open { opening, typ: open_typ, children } => {
                let stack = attach(
                    s.stack.drop_last(),
                    closed_list(opening, open_typ, children, tok, text, file),
                );
                if open_typ == typ {
                    State { stack, events: s.events }
                } else {
                    close_with(
                        State {
                            stack,
                            events: s.events.push(
                                Event::WrongClosing {
                                    opening_span: token_span(opening, text, file),
                                    closing_span: token_span(tok, text, file),
                                    expected_list_type: open_typ,
                                    actual_list_type: typ,
                                },
                            ),
                        },
                        typ,
                        tok,
                        text,
                        file,
                    )
                }
            },
        }
    }
}

/// Closes the top frame at the end of input: the list ends with the last
/// token of its last child, or with its opening bracket when it has none.
pub open spec fn close_unclosed(s: State, text: Seq<char>, file: Option<Seq<char>>) -> State {
    match s.stack.last() {
        Frame::Open { opening, typ, children } => {
            let closer = if children.len() > 0 {
                node_last_token(children.last())
            } else {
                opening
            };
            let n = closed_list(opening, typ, children, closer, text, file);
            State {
                stack: attach(s.stack.drop_last(), n),
                events: s.events.push(
                    Event::UnclosedList(
                        merge_view(token_span(opening, text, file), token_span(closer, text, file)),
                    ),
                ),
            }
        },
        Frame::Global { .. } => s,
    }
}

/// Closes every open frame, innermost first.
pub open spec fn finish(s: State, text: Seq<char>, file: Option<Seq<char>>) -> State
    decreases s.stack.len(),
{
    if s.stack.len() <= 1 || s.stack.last() is Global {
        s
    } else {
        finish(close_unclosed(s, text, file), text, file)
    }
}

/// One step of the automaton.
pub open spec fn step(s: State, r: TokResult<TokenInfo>, text: Seq<char>, file: Option<Seq<char>>) -> State {
    match r {
        Err(TokError::UnclosedString(span)) => State {
            stack: s.stack,
            events: s.events.push(Event::TokenizationError(span@)),
        },
        Ok(t) => match t.typ {
            TokenType::String => State {
                stack: attach(s.stack, Node::Str(t, token_span(t, text, file))),
                events: s.events,
            },
            TokenType::Atom => State {
                stack: attach(s.stack, Node::Terminal(t, token_span(t, text, file))),
                events: s.events,
            },
            TokenType::Whitespace => s,
            TokenType::ListOpening(k) => State {
                stack: s.stack.push(Frame::Open { opening: t, typ: k, children: Seq::empty() }),
                events: s.events,
            },
            TokenType::ListClosing(k) => close_with(s, k, t, text, file),
        },
    }
}

/// The state after reading every token.
pub open spec fn run(tokens: Seq<TokResult<TokenInfo>>, text: Seq<char>, file: Option<Seq<char>>) -> State
    decreases tokens.len(),
{
    if tokens.len() == 0 {
        initial_state()
    } else {
        step(run(tokens.drop_last(), text, file), tokens.last(), text, file)
    }
}

/// The outcome of a parse: the root nodes and the reports, in order.
pub open spec fn parse_outcome(
    tokens: Seq<TokResult<TokenInfo>>,
    text: Seq<char>,
    file: Option<Seq<char>>,
) -> (Seq<Node>, Seq<Event>) {
    let s = finish(run(tokens, text, file), text, file);
    (frame_children(s.stack[0]), s.events)
}

/// Every token of the stream that was read fits the text.
pub open spec fn tokens_fit(tokens: Seq<TokResult<TokenInfo>>, text: Seq<char>) -> bool {
    forall|i: int|
        0 <= i < tokens.len() ==> match #[trigger] tokens[i] {
            Ok(t) => token_fits(t, text),
            Err(TokError::UnclosedString(s)) => span_wf(s@),
        }
}

/// A stack has the global frame at the bottom only, and every token in it fits the text.
pub open spec fn stack_wf(st: Seq<Frame>, text: Seq<char>) -> bool {
    &&& st.len() >= 1
    &&& st[0] is Global
    &&& forall|i: int| 1 <= i < st.len() ==> (#[trigger] st[i]) is Open
    &&& forall|i: int| 0 <= i < st.len() ==> (#[trigger] st[i] matches Frame::Open { opening, .. } ==> token_fits(opening, text))
    &&& forall|i: int, j: int|
        0 <= i < st.len() && 0 <= j < frame_children(st[i]).len() ==> token_fits(
            node_last_token(#[trigger] frame_children(st[i])[j]),
            text,
        ) && node_wf(frame_children(st[i])[j])
}

proof fn lemma_list_view(list: Sexpr)
    ensures
        list matches Sexpr::List { list_type, opening_token, closing_token, children, span }
            ==> sexpr_view(list) == (Node::List {
            list_type,
            opening_token,
            closing_token,
            children: nodes_view(children@),
            span: span@,
        }),
{
    if let Sexpr::List { list_type, opening_token, closing_token, children, span } = list {
        if let Node::List { children: c, .. } = sexpr_view(list) {
            assert(c =~= nodes_view(children@));
        }
    }
}

enum ParseStackItem {
    Global { children: Vec<Sexpr> },
    ListOpening { opening: TokenInfo, typ: ListType, children: Vec<Sexpr> },
}

spec fn item_view(f: ParseStackItem) -> Frame {
    match f {
        ParseStackItem::Global { children } => Frame::Global { children: nodes_view(children@) },
        ParseStackItem::ListOpening { opening, typ, children } => Frame::Open {
            opening,
            typ,
            children: nodes_view(children@),
        },
    }
}

/// The explicit stack of open brackets.
pub struct ScopeStack {
    stack: Vec<ParseStackItem>,
    string: SourceText,
    file: Option<String>,
}

impl ScopeStack {
    pub closed spec fn frames(&self) -> Seq<Frame> {
        Seq::new(self.stack@.len(), |i: int| item_view(self.stack@[i]))
    }

    pub closed spec fn text(&self) -> Seq<char> {
        self.string@
    }

    pub closed spec fn file_name(&self) -> Option<Seq<char>> {
        file_view(self.file)
    }

    pub open spec fn wf(&self) -> bool {
        stack_wf(self.frames(), self.text()) && encode_utf8(self.text()).len() <= u32::MAX
    }

    /// A stack with only the global frame.
    pub fn new(string: &SourceText, file: &Option<String>) -> (r: ScopeStack)
        requires
            encode_utf8(string@).len() <= u32::MAX,
        ensures
            r.wf(),
            r.frames() == initial_state().stack,
            r.text() == string@,
            r.file_name() == file_view(*file),
    {
        let mut stack = Vec::new();
        stack.push(ParseStackItem::Global { children: Vec::new() });
        let r = ScopeStack {
            stack,
            string: string.share(),
            file: match file {
                Some(f) => Some(f.clone()),
                None => None,
            },
        };
        proof {
            assert(nodes_view(Seq::<Sexpr>::empty()) =~= Seq::<Node>::empty());
            assert(r.frames() =~= initial_state().stack);
        }
        r
    }

    /// Opens a list.
    pub fn open_list(&mut self, typ: ListType, token: TokenInfo)
        requires
            old(self).wf(),
            token_fits(token, old(self).text()),
        ensures
            final(self).wf(),
            final(self).frames() == old(self).frames().push(
                Frame::Open { opening: token, typ, children: Seq::empty() },
            ),
            final(self).text() == old(self).text(),
            final(self).file_name() == old(self).file_name(),
    {
        self.stack.push(ParseStackItem::ListOpening { opening: token, typ, children: Vec::new() });
        proof {
            assert(nodes_view(Seq::<Sexpr>::empty()) =~= Seq::<Node>::empty());
            assert(self.frames() =~= old(self).frames().push(
                Frame::Open { opening: token, typ, children: Seq::empty() },
            ));
        }
    }

    /// Appends a node to the top frame.
    pub fn put(&mut self, expr: Sexpr)
        requires
            old(self).wf(),
            token_fits(node_last_token(expr@), old(self).text()),
            node_wf(expr@),
        ensures
            final(self).wf(),
            final(self).frames() == attach(old(self).frames(), expr@),
            final(self).text() == old(self).text(),
            final(self).file_name() == old(self).file_name(),
    {
        let ghost old_frames = self.frames();
        let ghost n = expr@;
        let top = self.stack.pop().unwrap();
        let item = match top {
            ParseStackItem::Global { mut children } => {
                let ghost before = children@;
                children.push(expr);
                proof {
                    assert(nodes_view(children@) =~= nodes_view(before).push(n));
                }
                ParseStackItem::Global { children }
            },
            ParseStackItem::ListOpening { opening, typ, mut children } => {
                let ghost before = children@;
                children.push(expr);
                proof {
                    assert(nodes_view(children@) =~= nodes_view(before).push(n));
                }
                ParseStackItem::ListOpening { opening, typ, children }
            },
        };
        self.stack.push(item);
        proof {
            assert(self.frames() =~= attach(old_frames, n));
            let st = self.frames();
            assert forall|i: int, j: int|
                0 <= i < st.len() && 0 <= j < frame_children(st[i]).len() implies token_fits(
                node_last_token(#[trigger] frame_children(st[i])[j]),
                self.text(),
            ) && node_wf(frame_children(st[i])[j]) by {
                if i < st.len() - 1 || j < frame_children(old_frames[i]).len() {
                    assert(frame_children(st[i])[j] == frame_children(old_frames[i])[j]);
                }
            }
        }
    }

    /// Closes the top frame. With a closing token, this is `close_with`: a
    /// stray closer is reported, a mismatched one closes the frame, is
    /// reported, and is offered to the frame below. Without one (end of
    /// input), the frame is closed as unclosed.
    pub fn close(
        &mut self,
        closed_by: Option<(ListType, TokenInfo)>,
        diagnostics: &mut Vec<ParseDiagnostic>,
    )
        requires
            old(self).wf(),
            closed_by matches Some((_, t)) ==> token_fits(t, old(self).text()),
            closed_by is None ==> old(self).frames().len() > 1,
            events_wf(old(diagnostics)@),
        ensures
            final(self).wf(),
            events_wf(final(diagnostics)@),
            final(self).text() == old(self).text(),
            final(self).file_name() == old(self).file_name(),
            ({
                let s = State { stack: old(self).frames(), events: events_view(old(diagnostics)@) };
                let s2 = match closed_by {
                    Some((k, t)) => close_with(s, k, t, old(self).text(), old(self).file_name()),
                    None => close_unclosed(s, old(self).text(), old(self).file_name()),
                };
                final(self).frames() == s2.stack && events_view(final(diagnostics)@) == s2.events
            }),
        decreases old(self).frames().len(),
    {
        let ghost text = self.text();
        let ghost file = self.file_name();
        let ghost frames0 = self.frames();
        let ghost events0 = events_view(diagnostics@);
        let top = self.stack.pop().unwrap();
        proof {
            assert(self.frames() =~= frames0.drop_last());
            assert(item_view(top) == frames0.last());
        }
        match top {
            ParseStackItem::Global { children } => {
                self.stack.push(ParseStackItem::Global { children });
                proof {
                    assert(self.frames() =~= frames0);
                }
                match closed_by {
                    Some((_, tok)) => {
                        let span = Span::from_token(&tok, &self.string, &self.file);
                        diagnostics.push(ParseDiagnostic::ExtraClosing(span));
                        proof {
                            assert(events_view(diagnostics@) =~= events0.push(
                                Event::ExtraClosing(token_span(tok, text, file)),
                            ));
                        }
                    },
                    None => {
                        proof {
                            assert(frames0[frames0.len() - 1] is Open);
                        }
                    },
                }
            },
            ParseStackItem::ListOpening { opening, typ, children } => {
                let ghost ch = nodes_view(children@);
                proof {
                    assert(frames0[frames0.len() - 1] == Frame::Open { opening, typ, children: ch });
                    assert(token_fits(opening, text));
                }
                match closed_by {
                    Some((k, tok)) => {
                        let open_span = Span::from_token(&opening, &self.string, &self.file);
                        let close_span = Span::from_token(&tok, &self.string, &self.file);
                        let span = Span::from_spans(&open_span, &close_span);
                        let list = Sexpr::List {
                            list_type: typ,
                            opening_token: opening,
                            closing_token: tok,
                            children,
                            span,
                        };
                        proof {
                            lemma_list_view(list);
                        }
                        if typ == k {
                            self.put(list);
                        } else {
                            diagnostics.push(
                                ParseDiagnostic::WrongClosing {
                                    opening_span: open_span,
                                    closing_span: close_span,
                                    expected_list_type: typ,
                                    actual_list_type: k,
                                },
                            );
                            self.put(list);
                            proof {
                                assert(events_view(diagnostics@) =~= events0.push(
                                    Event::WrongClosing {
                                        opening_span: token_span(opening, text, file),
                                        closing_span: token_span(tok, text, file),
                                        expected_list_type: typ,
                                        actual_list_type: k,
                                    },
                                ));
                            }
                            self.close(Some((k, tok)), diagnostics);
                        }
                    },
                    None => {
                        let closed_token = if children.len() > 0 {
                            *children[children.len() - 1].last_token()
                        } else {
                            opening
                        };
                        proof {
                            if children.len() > 0 {
                                assert(ch.last() == sexpr_view(children@[children.len() - 1]));
                                assert(token_fits(node_last_token(frame_children(frames0[frames0.len() - 1])[ch.len() - 1]), text));
                            }
                        }
                        let open_span = Span::from_token(&opening, &self.string, &self.file);
                        let close_span = Span::from_token(&closed_token, &self.string, &self.file);
                        let span = Span::from_spans(&open_span, &close_span);
                        let report = span.copy();
                        let list = Sexpr::List {
                            opening_token: opening,
                            list_type: typ,
                            closing_token: closed_token,
                            children,
                            span,
                        };
                        proof {
                            lemma_list_view(list);
                        }
                        self.put(list);
                        diagnostics.push(ParseDiagnostic::UnclosedList(report));
                        proof {
                            assert(events_view(diagnostics@) =~= events0.push(
                                Event::UnclosedList(
                                    merge_view(token_span(opening, text, file), token_span(closed_token, text, file)),
                                ),
                            ));
                        }
                    },
                }
            },
        }
    }

    /// Closes every open frame as unclosed and hands back the roots.
    pub fn end(self, diagnostics: &mut Vec<ParseDiagnostic>) -> (r: Vec<Sexpr>)
        requires
            self.wf(),
            events_wf(old(diagnostics)@),
        ensures
            events_wf(final(diagnostics)@),
            forall|i: int| 0 <= i < r@.len() ==> node_wf(#[trigger] nodes_view(r@)[i]),
            ({
                let s = finish(
                    State { stack: self.frames(), events: events_view(old(diagnostics)@) },
                    self.text(),
                    self.file_name(),
                );
                nodes_view(r@) == frame_children(s.stack[0]) && events_view(final(diagnostics)@)
                    == s.events
            }),
    {
        let ghost text = self.text();
        let ghost file = self.file_name();
        let ghost target = finish(
            State { stack: self.frames(), events: events_view(diagnostics@) },
            text,
            file,
        );
        let mut st = self;
        while st.stack.len() != 1
            invariant
                st.wf(),
                st.text() == text,
                st.file_name() == file,
                events_wf(diagnostics@),
                target == finish(State { stack: st.frames(), events: events_view(diagnostics@) }, text, file),
            decreases st.frames().len(),
        {
            proof {
                assert(st.frames()[st.frames().len() - 1] is Open);
            }
            st.close(None, diagnostics);
        }
        let ghost first = st.frames()[0];
        proof {
            assert forall|j: int| 0 <= j < frame_children(first).len() implies node_wf(
                #[trigger] frame_children(first)[j],
            ) by {
                assert(frame_children(st.frames()[0])[j] == frame_children(first)[j]);
            }
        }
        let global = st.stack.pop().unwrap();
        proof {
            assert(item_view(global) == first);
        }
        match global {
            ParseStackItem::Global { children } => children,
            ParseStackItem::ListOpening { children, .. } => children,
        }
    }
}

/// Runs the automaton over a token stream: the root nodes and the reports,
/// in the order in which the frames were resolved.
pub fn parse_events(
    string: &SourceText,
    tokens: &Vec<TokResult<TokenInfo>>,
    file: &Option<String>,
) -> (r: (Vec<Sexpr>, Vec<ParseDiagnostic>))
    requires
        encode_utf8(string@).len() <= u32::MAX,
        tokens_fit(tokens@, string@),
    ensures
        nodes_view(r.0@) == parse_outcome(tokens@, string@, file_view(*file)).0,
        events_view(r.1@) == parse_outcome(tokens@, string@, file_view(*file)).1,
        events_wf(r.1@),
        forall|i: int| 0 <= i < r.0@.len() ==> node_wf(#[trigger] nodes_view(r.0@)[i]),
{
    let ghost text = string@;
    let ghost f = file_view(*file);
    let mut ss = ScopeStack::new(string, file);
    let mut diagnostics: Vec<ParseDiagnostic> = Vec::new();
    let mut i: usize = 0;
    proof {
        assert(tokens@.subrange(0, 0) =~= Seq::<TokResult<TokenInfo>>::empty());
        assert(events_view(diagnostics@) =~= Seq::<Event>::empty());
    }
    while i < tokens.len()
        invariant
            i <= tokens@.len(),
            ss.wf(),
            ss.text() == text,
            text == string@,
            ss.file_name() == f,
            f == file_view(*file),
            tokens_fit(tokens@, text),
            events_wf(diagnostics@),
            run(tokens@.subrange(0, i as int), text, f) == (State {
                stack: ss.frames(),
                events: events_view(diagnostics@),
            }),
        decreases tokens@.len() - i,
    {
        proof {
            assert(tokens@.subrange(0, i + 1).drop_last() =~= tokens@.subrange(0, i as int));
            assert(tokens@.subrange(0, i + 1).last() == tokens@[i as int]);
        }
        let ghost before = events_view(diagnostics@);
        match &tokens[i] {
            Ok(t) => {
                let t = *t;
                match t.typ {
                    TokenType::String => {
                        let span = Span::from_token(&t, string, file);
                        ss.put(Sexpr::String(t, span));
                    },
                    TokenType::Atom => {
                        let span = Span::from_token(&t, string, file);
                        ss.put(Sexpr::Terminal(t, span));
                    },
                    TokenType::Whitespace => {},
                    TokenType::ListOpening(k) => {
                        ss.open_list(k, t);
                    },
                    TokenType::ListClosing(k) => {
                        ss.close(Some((k, t)), &mut diagnostics);
                    },
                }
            },
            Err(TokError::UnclosedString(span)) => {
                diagnostics.push(ParseDiagnostic::TokenizationError(TokError::UnclosedString(span.copy())));
                proof {
                    assert(events_view(diagnostics@) =~= before.push(Event::TokenizationError(span@)));
                }
            },
        }
        i = i + 1;
    }
    proof {
        assert(tokens@.subrange(0, tokens@.len() as int) =~= tokens@);
    }
    let roots = ss.end(&mut diagnostics);
    (roots, diagnostics)
}

/// The message of the diagnostic that a report becomes.
pub open spec fn event_message(e: Event) -> Seq<char> {
    match e {
        Event::TokenizationError(_) => "unclosed string"@,
        Event::UnclosedList(_) => "unclosed list"@,
        Event::ExtraClosing(_) => "extra list closing"@,
        Event::WrongClosing { expected_list_type, actual_list_type, .. } => "Expected "@ + seq![
            bracket_char(expected_list_type, false),
        ] + " but found "@ + seq![bracket_char(actual_list_type, false)],
    }
}

/// The span that the diagnostic of a report covers.
pub open spec fn event_span(e: Event) -> SpanView {
    match e {
        Event::TokenizationError(s) => s,
        Event::UnclosedList(s) => s,
        Event::ExtraClosing(s) => s,
        Event::WrongClosing { opening_span, closing_span, .. } => merge_view(opening_span, closing_span),
    }
}

/// The error-level diagnostic that a report becomes.
pub open spec fn event_diagnostic(e: Event) -> DiagnosticView {
    DiagnosticView {
        message: event_message(e),
        annotations: Seq::empty(),
        span: event_span(e),
        padding: 2,
        level: Level::Error,
        min_gap: None,
    }
}

impl ParseDiagnostic {
    /// The error-level diagnostic that explains this report.
    pub fn into_diagnostic(self) -> (r: Diagnostic)
        requires
            event_wf(self@),
        ensures
            r@ == event_diagnostic(self@),
            span_wf(r@.span),
    {
        match self {
            ParseDiagnostic::TokenizationError(TokError::UnclosedString(span)) => {
                Diagnostic::new("unclosed string".to_string(), &span).with_error_level(
                    DiagnosticLevel::Error,
                )
            },
            ParseDiagnostic::ExtraClosing(span) => {
                Diagnostic::new("extra list closing".to_string(), &span).with_error_level(
                    DiagnosticLevel::Error,
                )
            },
            ParseDiagnostic::UnclosedList(span) => {
                Diagnostic::new("unclosed list".to_string(), &span).with_error_level(
                    DiagnosticLevel::Error,
                )
            },
            ParseDiagnostic::WrongClosing {
                opening_span,
                closing_span,
                expected_list_type,
                actual_list_type,
            } => {
                let mut text = "Expected ".to_string();
                text.append(expected_list_type.to_string(false).as_str());
                text.append(" but found ");
                text.append(actual_list_type.to_string(false).as_str());
                let span = Span::from_spans(&opening_span, &closing_span);
                Diagnostic::new(text, &span).with_error_level(DiagnosticLevel::Error)
            },
        }
    }
}

/// The diagnostics of a parse outcome's reports.
pub open spec fn outcome_diagnostics(events: Seq<Event>) -> Seq<DiagnosticView> {
    Seq::new(events.len(), |i: int| event_diagnostic(events[i]))
}

/// Parses a token stream of `string`: the root nodes, and one error-level
/// diagnostic for each report of the automaton.
pub fn parse(string: &str, tokens: Vec<TokResult<TokenInfo>>, file: Option<String>) -> (r: crate::Result)
    requires
        encode_utf8(string@).len() <= u32::MAX,
        tokens_fit(tokens@, string@),
    ensures
        nodes_view(r.roots@) == parse_outcome(tokens@, string@, file_view(file)).0,
        r.diagnostics@ == outcome_diagnostics(parse_outcome(tokens@, string@, file_view(file)).1),
        forall|i: int| 0 <= i < r.roots@.len() ==> node_wf(#[trigger] r.roots@[i]@),
        forall|i: int| 0 <= i < r.diagnostics@.len() ==> span_wf((#[trigger] r.diagnostics@[i]).span),
{
    let text = SourceText::from_str(string);
    let (roots, events) = parse_events(&text, &tokens, &file);
    let ghost target = events_view(events@);
    let mut rest = events;
    let mut bag = DiagnosticBag::new();
    let ghost mut k: int = 0;
    while rest.len() > 0
        invariant
            0 <= k <= target.len(),
            rest@.len() == target.len() - k,
            forall|i: int| 0 <= i < rest@.len() ==> (#[trigger] rest@[i])@ == target[k + i],
            events_wf(rest@),
            bag@ == outcome_diagnostics(target.subrange(0, k)),
            forall|i: int| 0 <= i < k ==> span_wf(#[trigger] event_span(target[i])),
        decreases rest@.len(),
    {
        let ghost before = rest@;
        let e = rest.remove(0);
        proof {
            assert(e@ == target[k]);
            assert(event_wf(before[0]@));
        }
        bag.add(e.into_diagnostic());
        proof {
            assert forall|i: int| 0 <= i < rest@.len() implies (#[trigger] rest@[i])@ == target[k + 1 + i] by {
                assert(rest@[i] == before[i + 1]);
            }
            assert forall|i: int| 0 <= i < rest@.len() implies event_wf(#[trigger] rest@[i]@) by {
                assert(rest@[i] == before[i + 1]);
            }
            k = k + 1;
            assert(bag@ =~= outcome_diagnostics(target.subrange(0, k)));
        }
    }
    proof {
        assert(target.subrange(0, k) =~= target);
        assert forall|i: int| 0 <= i < roots@.len() implies node_wf(#[trigger] roots@[i]@) by {
            assert(nodes_view(roots@)[i] == roots@[i]@);
        }
    }
    crate::Result { roots, diagnostics: bag }
}

} // verus!
