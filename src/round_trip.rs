//! Every node that a parse of tokenized text builds covers exactly the
//! source it was built from.
use vstd::prelude::*;
use vstd::utf8::encode_utf8;
use crate::parse::{
    Frame, State, attach, closed_list, close_with, close_unclosed, finish, frame_children, run,
    step, parse_outcome, initial_state,
};
use crate::sexpr::{Node, node_first_token, node_last_token, node_span};
use crate::span::{span_text, token_span, merge_view};
use crate::text::lemma_encode_concat;
use crate::token::{TokenInfo, TokenType, TokError, TokResult, ListType, tokens_from, tokens_of, next_token, advance, lemma_next_token_len};

verus! {

/// Where a token ends.
pub open spec fn tok_end(t: TokenInfo) -> int {
    t.byte_offset + t.length
}

/// The document text that a node was built from: from the start of its first
/// token to the end of its last.
pub open spec fn source_of(n: Node, text: Seq<char>) -> Seq<char> {
    vstd::utf8::decode_utf8(
        encode_utf8(text).subrange(node_first_token(n).byte_offset as int, tok_end(node_last_token(n))),
    )
}

/// A node, and every node below it, spans exactly the bytes from the start
/// of its first token to the end of its last, over the document `text`.
pub open spec fn covers_source(n: Node, text: Seq<char>) -> bool
    decreases n,
{
    &&& node_span(n).text == text
    &&& node_span(n).text_bytes.start as int == node_first_token(n).byte_offset as int
    &&& node_span(n).text_bytes.end as int == tok_end(node_last_token(n))
    &&& node_first_token(n).byte_offset <= node_last_token(n).byte_offset
    &&& match n {
        Node::List { children, .. } => forall|i: int|
            0 <= i < children.len() ==> covers_source(#[trigger] children[i], text),
        _ => true,
    }
}

/// A node that covers its source has exactly that source as its text.
pub proof fn covered_text(n: Node, text: Seq<char>)
    requires
        covers_source(n, text),
    ensures
        span_text(node_span(n)) == source_of(n, text),
{
}

/// Tokens laid end to end: none empty, each starting where the one before
/// it ends, all within `u32` offsets.
pub open spec fn contiguous(toks: Seq<TokenInfo>) -> bool {
    &&& forall|i: int| 0 <= i < toks.len() ==> (#[trigger] toks[i]).length >= 1
    &&& forall|i: int| 0 <= i < toks.len() ==> tok_end(#[trigger] toks[i]) <= u32::MAX
    &&& forall|i: int| 1 <= i < toks.len() ==> (#[trigger] toks[i]).byte_offset == tok_end(toks[i - 1])
}

proof fn lemma_encode_nonempty(s: Seq<char>)
    requires
        s.len() > 0,
    ensures
        encode_utf8(s).len() >= 1,
{
    assert(encode_utf8(s) == vstd::utf8::encode_scalar(s[0] as u32) + encode_utf8(s.drop_first()));
}

/// The tokens of the rest of a text start at the given byte and are laid end
/// to end up to the end of the text.
proof fn lemma_tokens_contiguous(
    rest: Seq<char>,
    sp: Seq<Seq<char>>,
    line: nat,
    col: nat,
    byte: nat,
)
    requires
        byte + encode_utf8(rest).len() <= u32::MAX,
    ensures
        contiguous(tokens_from(rest, sp, line, col, byte)),
        tokens_from(rest, sp, line, col, byte).len() > 0 ==> tokens_from(rest, sp, line, col, byte)[0].byte_offset == byte,
        forall|i: int|
            0 <= i < tokens_from(rest, sp, line, col, byte).len() ==> byte <= (#[trigger] tokens_from(
                rest,
                sp,
                line,
                col,
                byte,
            )[i]).byte_offset,
    decreases rest.len(),
{
    if rest.len() > 0 {
        lemma_next_token_len(rest, sp);
        let (typ, n) = next_token(rest, sp);
        let piece = rest.subrange(0, n as int);
        let tail = rest.subrange(n as int, rest.len() as int);
        let (l2, c2) = advance(piece, line, col);
        let blen = encode_utf8(piece).len();
        assert(rest =~= piece + tail);
        lemma_encode_concat(piece, tail);
        lemma_encode_nonempty(piece);
        lemma_tokens_contiguous(tail, sp, l2, c2, byte + blen);
        let ts = tokens_from(rest, sp, line, col, byte);
        let tt = tokens_from(tail, sp, l2, c2, byte + blen);
        assert(ts == seq![
            TokenInfo {
                line_number: line as usize,
                column_number: col as usize,
                byte_offset: byte as usize,
                length: blen as u32,
                typ,
            },
        ] + tt);
        assert forall|i: int| 1 <= i < ts.len() implies (#[trigger] ts[i]).byte_offset == tok_end(
            ts[i - 1],
        ) by {
            assert(ts[i] == tt[i - 1]);
            if i > 1 {
                assert(ts[i - 1] == tt[i - 2]);
            } else {
                assert(ts[0].byte_offset == byte && ts[0].length == blen);
            }
        }
        assert forall|i: int| 0 <= i < ts.len() implies (#[trigger] ts[i]).length >= 1 && tok_end(ts[i])
            <= u32::MAX && byte <= ts[i].byte_offset by {
            if i > 0 {
                assert(ts[i] == tt[i - 1]);
            }
        }
    }
}

/// The automaton's stack keeps every node covering its source: openings end
/// by `o`, nodes by `b`, each child after its frame's opening, each opening
/// after the ones below it.
pub open spec fn stack_covers(st: Seq<Frame>, text: Seq<char>, o: int, b: int) -> bool {
    &&& st.len() >= 1
    &&& st[0] is Global
    &&& forall|i: int| 1 <= i < st.len() ==> (#[trigger] st[i]) is Open
    &&& o <= b <= u32::MAX
    &&& forall|i: int|
        0 <= i < st.len() ==> (#[trigger] st[i] matches Frame::Open { opening, .. } ==> opening.length
            >= 1 && tok_end(opening) <= o)
    &&& forall|i: int, j: int|
        0 <= i < st.len() && 0 <= j < frame_children(st[i]).len() ==> covers_source(
            #[trigger] frame_children(st[i])[j],
            text,
        ) && tok_end(node_last_token(frame_children(st[i])[j])) <= b
    &&& forall|i: int, j: int|
        0 <= i < st.len() && 0 <= j < frame_children(st[i]).len() ==> (st[i] matches Frame::Open {
            opening,
            ..
        } ==> node_first_token(#[trigger] frame_children(st[i])[j]).byte_offset >= tok_end(opening))
    &&& forall|i: int, k: int|
        0 <= i < k < st.len() ==> (#[trigger] st[i] matches Frame::Open { opening: o1, .. } ==> (
        #[trigger] st[k] matches Frame::Open { opening: o2, .. } ==> o2.byte_offset >= tok_end(o1)))
}

proof fn lemma_raise(st: Seq<Frame>, text: Seq<char>, o: int, b: int, o2: int, b2: int)
    requires
        stack_covers(st, text, o, b),
        o <= o2 <= b2 <= u32::MAX,
        b <= b2,
    ensures
        stack_covers(st, text, o2, b2),
{
}

/// Attaching a covering node that comes after the top frame's opening keeps
/// the stack covering.
proof fn lemma_attach(st: Seq<Frame>, text: Seq<char>, o: int, b: int, n: Node)
    requires
        stack_covers(st, text, o, b),
        covers_source(n, text),
        tok_end(node_last_token(n)) <= b,
        st.last() matches Frame::Open { opening, .. } ==> node_first_token(n).byte_offset >= tok_end(
            opening,
        ),
    ensures
        stack_covers(attach(st, n), text, o, b),
{
    let st2 = attach(st, n);
    let top = st.len() - 1;
    assert forall|i: int, j: int|
        0 <= i < st2.len() && 0 <= j < frame_children(st2[i]).len() implies covers_source(
        #[trigger] frame_children(st2[i])[j],
        text,
    ) && tok_end(node_last_token(frame_children(st2[i])[j])) <= b && (st2[i] matches Frame::Open {
        opening,
        ..
    } ==> node_first_token(frame_children(st2[i])[j]).byte_offset >= tok_end(opening)) by {
        if i != top || j < frame_children(st[i]).len() {
            assert(frame_children(st2[i])[j] == frame_children(st[i])[j]);
        }
    }
    assert forall|i: int, k: int|
        0 <= i < k < st2.len() implies (#[trigger] st2[i] matches Frame::Open { opening: o1, .. } ==> (
    #[trigger] st2[k] matches Frame::Open { opening: o2, .. } ==> o2.byte_offset >= tok_end(o1))) by {
        assert(st2[i] matches Frame::Open { opening: o1, .. } ==> st[i] matches Frame::Open { opening: p1, .. } && p1 == o1);
    }
}

/// The list that an opening and a later closer make covers its source.
proof fn lemma_list_covers(
    opening: TokenInfo,
    typ: ListType,
    children: Seq<Node>,
    closer: TokenInfo,
    text: Seq<char>,
    file: Option<Seq<char>>,
)
    requires
        forall|j: int| 0 <= j < children.len() ==> covers_source(#[trigger] children[j], text),
        opening.length >= 1,
        tok_end(opening) <= u32::MAX,
        tok_end(closer) <= u32::MAX,
        closer == opening || tok_end(opening) <= closer.byte_offset,
    ensures
        covers_source(closed_list(opening, typ, children, closer, text, file), text),
{
    let n = closed_list(opening, typ, children, closer, text, file);
    let a = token_span(opening, text, file);
    let c = token_span(closer, text, file);
    assert(node_span(n) == merge_view(a, c));
    if let Node::List { children: ch, .. } = n {
        assert(ch == children);
    }
}

proof fn lemma_close_with(s: State, k: ListType, tok: TokenInfo, text: Seq<char>, file: Option<Seq<char>>)
    requires
        stack_covers(s.stack, text, tok.byte_offset as int, tok_end(tok)),
        tok.length >= 1,
    ensures
        stack_covers(close_with(s, k, tok, text, file).stack, text, tok.byte_offset as int, tok_end(tok)),
    decreases s.stack.len(),
{
    let st = s.stack;
    let top = st.len() - 1;
    if let Frame::Open { opening, typ, children } = st.last() {
        assert(st[top] is Open);
        assert forall|j: int| 0 <= j < children.len() implies covers_source(#[trigger] children[j], text) by {
            assert(children[j] == frame_children(st[top])[j]);
        }
        lemma_list_covers(opening, typ, children, tok, text, file);
        let n = closed_list(opening, typ, children, tok, text, file);
        let rest = st.drop_last();
        assert(top >= 1);
        assert(stack_covers(rest, text, tok.byte_offset as int, tok_end(tok))) by {
            assert forall|i: int, j: int|
                0 <= i < rest.len() && 0 <= j < frame_children(rest[i]).len() implies covers_source(
                #[trigger] frame_children(rest[i])[j],
                text,
            ) && tok_end(node_last_token(frame_children(rest[i])[j])) <= tok_end(tok) by {
                assert(rest[i] == st[i]);
            }
        }
        if let Frame::Open { opening: below, .. } = rest.last() {
            assert(st[top - 1] == rest.last());
            assert(opening.byte_offset >= tok_end(below));
        }
        lemma_attach(rest, text, tok.byte_offset as int, tok_end(tok), n);
        if typ != k {
            let next = State {
                stack: attach(rest, n),
                events: s.events.push(
                    crate::parse::Event::WrongClosing {
                        opening_span: token_span(opening, text, file),
                        closing_span: token_span(tok, text, file),
                        expected_list_type: typ,
                        actual_list_type: k,
                    },
                ),
            };
            lemma_close_with(next, k, tok, text, file);
        }
    }
}

proof fn lemma_close_unclosed(s: State, text: Seq<char>, file: Option<Seq<char>>, b: int)
    requires
        stack_covers(s.stack, text, b, b),
        s.stack.len() > 1,
    ensures
        stack_covers(close_unclosed(s, text, file).stack, text, b, b),
        close_unclosed(s, text, file).stack.len() == s.stack.len() - 1,
{
    let st = s.stack;
    let top = st.len() - 1;
    assert(st[top] is Open);
    if let Frame::Open { opening, typ, children } = st.last() {
        assert forall|j: int| 0 <= j < children.len() implies covers_source(#[trigger] children[j], text)
            && tok_end(node_last_token(children[j])) <= b && node_first_token(children[j]).byte_offset
            >= tok_end(opening) by {
            assert(children[j] == frame_children(st[top])[j]);
        }
        let closer = if children.len() > 0 {
            node_last_token(children.last())
        } else {
            opening
        };
        if children.len() > 0 {
            assert(covers_source(children[children.len() - 1], text));
        }
        lemma_list_covers(opening, typ, children, closer, text, file);
        let n = closed_list(opening, typ, children, closer, text, file);
        let rest = st.drop_last();
        assert(stack_covers(rest, text, b, b)) by {
            assert forall|i: int, j: int|
                0 <= i < rest.len() && 0 <= j < frame_children(rest[i]).len() implies covers_source(
                #[trigger] frame_children(rest[i])[j],
                text,
            ) && tok_end(node_last_token(frame_children(rest[i])[j])) <= b by {
                assert(rest[i] == st[i]);
            }
        }
        if let Frame::Open { opening: below, .. } = rest.last() {
            assert(st[top - 1] == rest.last());
            assert(opening.byte_offset >= tok_end(below));
        }
        lemma_attach(rest, text, b, b, n);
    }
}

proof fn lemma_finish(s: State, text: Seq<char>, file: Option<Seq<char>>, b: int)
    requires
        stack_covers(s.stack, text, b, b),
    ensures
        stack_covers(finish(s, text, file).stack, text, b, b),
    decreases s.stack.len(),
{
    if s.stack.len() > 1 {
        assert(s.stack[s.stack.len() - 1] is Open);
        lemma_close_unclosed(s, text, file, b);
        lemma_finish(close_unclosed(s, text, file), text, file, b);
    }
}

/// The end of the last of `toks`, or 0.
pub open spec fn reached(toks: Seq<TokenInfo>) -> int {
    if toks.len() == 0 {
        0
    } else {
        tok_end(toks.last())
    }
}

pub open spec fn all_ok(toks: Seq<TokenInfo>) -> Seq<TokResult<TokenInfo>> {
    toks.map_values(|t: TokenInfo| Ok::<TokenInfo, TokError>(t))
}

proof fn lemma_run(toks: Seq<TokenInfo>, text: Seq<char>, file: Option<Seq<char>>)
    requires
        contiguous(toks),
        toks.len() > 0 ==> toks[0].byte_offset >= 0,
    ensures
        stack_covers(run(all_ok(toks), text, file).stack, text, reached(toks), reached(toks)),
    decreases toks.len(),
{
    if toks.len() == 0 {
        assert(all_ok(toks) =~= Seq::<TokResult<TokenInfo>>::empty());
        assert(run(all_ok(toks), text, file) == initial_state());
    } else {
        let prev = toks.drop_last();
        let t = toks.last();
        assert(contiguous(prev)) by {
            assert forall|i: int| 1 <= i < prev.len() implies (#[trigger] prev[i]).byte_offset == tok_end(
                prev[i - 1],
            ) by {
                assert(prev[i] == toks[i]);
                assert(prev[i - 1] == toks[i - 1]);
            }
        }
        lemma_run(prev, text, file);
        assert(all_ok(toks).drop_last() =~= all_ok(prev));
        assert(all_ok(toks).last() == Ok::<TokenInfo, TokError>(t));
        let s = run(all_ok(prev), text, file);
        assert(run(all_ok(toks), text, file) == step(s, Ok(t), text, file));
        let b = reached(prev);
        assert(b <= t.byte_offset) by {
            if prev.len() > 0 {
                assert(toks[toks.len() - 1] == t);
                assert(toks[toks.len() - 2] == prev.last());
            }
        }
        assert(t.length >= 1 && tok_end(t) <= u32::MAX) by {
            assert(toks[toks.len() - 1] == t);
        }
        lemma_raise(s.stack, text, b, b, t.byte_offset as int, tok_end(t));
        match t.typ {
            TokenType::String => {
                if let Frame::Open { opening, .. } = s.stack.last() {
                    assert(s.stack[s.stack.len() - 1] == s.stack.last());
                }
                lemma_attach(s.stack, text, t.byte_offset as int, tok_end(t), Node::Str(t, token_span(t, text, file)));
                lemma_raise(attach(s.stack, Node::Str(t, token_span(t, text, file))), text, t.byte_offset as int, tok_end(t), tok_end(t), tok_end(t));
            },
            TokenType::Atom => {
                if let Frame::Open { opening, .. } = s.stack.last() {
                    assert(s.stack[s.stack.len() - 1] == s.stack.last());
                }
                lemma_attach(s.stack, text, t.byte_offset as int, tok_end(t), Node::Terminal(t, token_span(t, text, file)));
                lemma_raise(attach(s.stack, Node::Terminal(t, token_span(t, text, file))), text, t.byte_offset as int, tok_end(t), tok_end(t), tok_end(t));
            },
            TokenType::Whitespace => {
                lemma_raise(s.stack, text, t.byte_offset as int, tok_end(t), tok_end(t), tok_end(t));
            },
            TokenType::ListOpening(k) => {
                let st2 = s.stack.push(Frame::Open { opening: t, typ: k, children: Seq::empty() });
                assert(stack_covers(st2, text, tok_end(t), tok_end(t))) by {
                    assert forall|i: int, j: int|
                        0 <= i < st2.len() && 0 <= j < frame_children(st2[i]).len() implies covers_source(
                        #[trigger] frame_children(st2[i])[j],
                        text,
                    ) && tok_end(node_last_token(frame_children(st2[i])[j])) <= tok_end(t) && (st2[i] matches Frame::Open {
                        opening,
                        ..
                    } ==> node_first_token(frame_children(st2[i])[j]).byte_offset >= tok_end(opening)) by {
                        assert(st2[i] == s.stack[i]);
                    }
                    assert forall|i: int, k2: int|
                        0 <= i < k2 < st2.len() implies (#[trigger] st2[i] matches Frame::Open { opening: o1, .. } ==> (
                    #[trigger] st2[k2] matches Frame::Open { opening: o2, .. } ==> o2.byte_offset >= tok_end(o1))) by {
                        assert(st2[i] == s.stack[i]);
                    }
                }
            },
            TokenType::ListClosing(k) => {
                lemma_close_with(s, k, t, text, file);
                lemma_raise(close_with(s, k, t, text, file).stack, text, t.byte_offset as int, tok_end(t), tok_end(t), tok_end(t));
            },
        }
    }
}

/// Round trip: parsing tokenized text yields nodes that each cover exactly
/// the source they were built from, at every depth; so each root's span text
/// is the substring of the document between its first and last token.
pub proof fn parse_covers_source(text: Seq<char>, sp: Seq<Seq<char>>, file: Option<Seq<char>>)
    requires
        encode_utf8(text).len() < u32::MAX,
    ensures
        forall|i: int|
            0 <= i < parse_outcome(all_ok(tokens_of(text, sp)), text, file).0.len() ==> covers_source(
                #[trigger] parse_outcome(all_ok(tokens_of(text, sp)), text, file).0[i],
                text,
            ),
        forall|i: int|
            0 <= i < parse_outcome(all_ok(tokens_of(text, sp)), text, file).0.len() ==> span_text(
                node_span(#[trigger] parse_outcome(all_ok(tokens_of(text, sp)), text, file).0[i]),
            ) == source_of(parse_outcome(all_ok(tokens_of(text, sp)), text, file).0[i], text),
{
    let toks = tokens_of(text, sp);
    lemma_tokens_contiguous(text, sp, 1, 1, 0);
    lemma_run(toks, text, file);
    let b = reached(toks);
    lemma_finish(run(all_ok(toks), text, file), text, file, b);
    let st = finish(run(all_ok(toks), text, file), text, file).stack;
    let roots = parse_outcome(all_ok(toks), text, file).0;
    assert forall|i: int| 0 <= i < roots.len() implies covers_source(#[trigger] roots[i], text) by {
        assert(roots[i] == frame_children(st[0])[i]);
    }
    assert forall|i: int| 0 <= i < roots.len() implies span_text(node_span(#[trigger] roots[i])) == source_of(roots[i], text) by {
        assert(roots[i] == frame_children(st[0])[i]);
        covered_text(roots[i], text);
    }
}

} // verus!
