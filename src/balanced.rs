//! Text made only of well-nested, matching brackets parses without a single
//! report, into a tree that has exactly the nesting of the brackets.
use vstd::prelude::*;
use crate::parse::{Frame, State, step, run, initial_state, attach, closed_list, frame_children, with_children, parse_outcome, finish};
use crate::round_trip::all_ok;
use crate::sexpr::Node;
use crate::token::{ListType, TokenInfo, TokenType, TokError, TokResult, tokens_from, tokens_of, bracket_token, bracket_char, is_bracket, next_token, advance};

verus! {

/// A bracketed list and the lists nested in it.
pub ghost struct Nest {
    pub kind: ListType,
    pub children: Seq<Nest>,
}

/// The brackets of one list: its opening bracket, its children, its closing
/// bracket.
pub open spec fn nest_text(t: Nest) -> Seq<char>
    decreases t,
{
    seq![bracket_char(t.kind, true)] + forest_text(t.children) + seq![bracket_char(t.kind, false)]
}

/// The brackets of a sequence of lists, one after another.
pub open spec fn forest_text(f: Seq<Nest>) -> Seq<char>
    decreases f,
{
    if f.len() == 0 {
        Seq::empty()
    } else {
        forest_text(f.subrange(0, f.len() - 1)) + nest_text(f[f.len() - 1])
    }
}

/// A node is the list `t` whose opening bracket is at byte `pos`: it has
/// the kind of `t`, its brackets are the pair at `pos` and at the end of
/// `t`'s text, and its children are `t`'s lists, each at its own place.
pub open spec fn node_matches(n: Node, t: Nest, pos: int) -> bool
    decreases t,
{
    match n {
        Node::List { list_type, opening_token, closing_token, children, .. } => {
            &&& list_type == t.kind
            &&& opening_token.byte_offset == pos
            &&& closing_token.byte_offset == pos + 1 + forest_text(t.children).len()
            &&& children.len() == t.children.len()
            &&& forall|i: int|
                0 <= i < t.children.len() ==> node_matches(
                    #[trigger] children[i],
                    t.children[i],
                    pos + 1 + forest_text(t.children.subrange(0, i)).len(),
                )
        },
        _ => false,
    }
}

/// Nodes that are, one for one, the lists of `f` laid out from byte `pos`.
pub open spec fn nodes_match(ns: Seq<Node>, f: Seq<Nest>, pos: int) -> bool {
    &&& ns.len() == f.len()
    &&& forall|i: int|
        0 <= i < f.len() ==> node_matches(#[trigger] ns[i], f[i], pos + forest_text(f.subrange(0, i)).len())
}

/// The automaton's state after reading `toks` from `s`.
pub open spec fn steps(
    s: State,
    toks: Seq<TokResult<TokenInfo>>,
    text: Seq<char>,
    file: Option<Seq<char>>,
) -> State
    decreases toks.len(),
{
    if toks.len() == 0 {
        s
    } else {
        step(steps(s, toks.drop_last(), text, file), toks.last(), text, file)
    }
}

proof fn lemma_run_steps(toks: Seq<TokResult<TokenInfo>>, text: Seq<char>, file: Option<Seq<char>>)
    ensures
        run(toks, text, file) == steps(initial_state(), toks, text, file),
    decreases toks.len(),
{
    if toks.len() > 0 {
        lemma_run_steps(toks.drop_last(), text, file);
    }
}

proof fn lemma_steps_concat(
    s: State,
    a: Seq<TokResult<TokenInfo>>,
    b: Seq<TokResult<TokenInfo>>,
    text: Seq<char>,
    file: Option<Seq<char>>,
)
    ensures
        steps(s, a + b, text, file) == steps(steps(s, a, text, file), b, text, file),
    decreases b.len(),
{
    if b.len() == 0 {
        assert(a + b =~= a);
    } else {
        assert((a + b).drop_last() =~= a + b.drop_last());
        assert((a + b).last() == b.last());
        lemma_steps_concat(s, a, b.drop_last(), text, file);
    }
}

pub open spec fn brackets_only(t: Seq<char>) -> bool {
    forall|i: int| 0 <= i < t.len() ==> is_bracket(#[trigger] t[i])
}

proof fn lemma_nest_brackets(t: Nest)
    ensures
        brackets_only(nest_text(t)),
    decreases t,
{
    lemma_forest_brackets(t.children);
    let k = t.kind;
    assert(is_bracket(bracket_char(k, true)) && is_bracket(bracket_char(k, false)));
}

proof fn lemma_forest_brackets(f: Seq<Nest>)
    ensures
        brackets_only(forest_text(f)),
    decreases f,
{
    if f.len() > 0 {
        lemma_forest_brackets(f.subrange(0, f.len() - 1));
        lemma_nest_brackets(f[f.len() - 1]);
    }
}

/// Text of brackets alone is read one bracket per token.
proof fn lemma_bracket_tokens(rest: Seq<char>, sp: Seq<Seq<char>>, line: nat, col: nat, byte: nat)
    requires
        brackets_only(rest),
        byte + rest.len() <= u32::MAX,
    ensures
        tokens_from(rest, sp, line, col, byte).len() == rest.len(),
        forall|i: int|
            0 <= i < rest.len() ==> (#[trigger] tokens_from(rest, sp, line, col, byte)[i]).typ
                == bracket_token(rest[i]) && tokens_from(rest, sp, line, col, byte)[i].byte_offset
                == byte + i,
    decreases rest.len(),
{
    if rest.len() > 0 {
        assert(is_bracket(rest[0]));
        assert(next_token(rest, sp) == (bracket_token(rest[0]), 1nat));
        let piece = rest.subrange(0, 1);
        let tail = rest.subrange(1, rest.len() as int);
        let (l2, c2) = advance(piece, line, col);
        let blen = vstd::utf8::encode_utf8(piece).len();
        assert(piece.drop_first() =~= Seq::<char>::empty());
        assert(vstd::utf8::encode_utf8(piece) == vstd::utf8::encode_scalar(piece[0] as u32)
            + vstd::utf8::encode_utf8(piece.drop_first()));
        assert(blen == 1);
        lemma_bracket_tokens(tail, sp, l2, c2, byte + blen);
        let ts = tokens_from(rest, sp, line, col, byte);
        let tt = tokens_from(tail, sp, l2, c2, byte + blen);
        assert(ts == seq![
            TokenInfo {
                line_number: line as usize,
                column_number: col as usize,
                byte_offset: byte as usize,
                length: blen as u32,
                typ: bracket_token(rest[0]),
            },
        ] + tt);
        assert forall|i: int| 0 <= i < rest.len() implies (#[trigger] ts[i]).typ == bracket_token(rest[i])
            && ts[i].byte_offset == byte + i by {
            if i > 0 {
                assert(ts[i] == tt[i - 1]);
                assert(tail[i - 1] == rest[i]);
            }
        }
    }
}

proof fn lemma_bracket_kinds(k: ListType)
    ensures
        bracket_token(bracket_char(k, true)) == TokenType::ListOpening(k),
        bracket_token(bracket_char(k, false)) == TokenType::ListClosing(k),
{
}

/// Reading the tokens of a balanced forest from any state attaches one list
/// per tree to the top frame, each matching its tree, and reports nothing.
#[verifier::rlimit(60)]
proof fn lemma_forest_steps(
    s: State,
    toks: Seq<TokenInfo>,
    f: Seq<Nest>,
    text: Seq<char>,
    file: Option<Seq<char>>,
    base: int,
)
    requires
        s.stack.len() >= 1,
        toks.len() == forest_text(f).len(),
        forall|i: int| 0 <= i < toks.len() ==> (#[trigger] toks[i]).typ == bracket_token(forest_text(f)[i]),
        forall|i: int| 0 <= i < toks.len() ==> (#[trigger] toks[i]).byte_offset == base + i,
    ensures
        ({
            let s2 = steps(s, all_ok(toks), text, file);
            let old_children = frame_children(s.stack.last());
            let new_children = frame_children(s2.stack.last());
            &&& s2.events == s.events
            &&& s2.stack.len() == s.stack.len()
            &&& s2.stack.drop_last() == s.stack.drop_last()
            &&& s2.stack.last() == with_children(s.stack.last(), new_children)
            &&& new_children.len() == old_children.len() + f.len()
            &&& new_children.subrange(0, old_children.len() as int) == old_children
            &&& nodes_match(
                new_children.subrange(old_children.len() as int, new_children.len() as int),
                f,
                base,
            )
        }),
    decreases toks.len(),
{
    let old_children = frame_children(s.stack.last());
    if f.len() == 0 {
        assert(all_ok(toks) =~= Seq::<TokResult<TokenInfo>>::empty());
        assert(old_children.subrange(0, old_children.len() as int) =~= old_children);
        assert(with_children(s.stack.last(), old_children) == s.stack.last());
    } else {
        let fp = f.subrange(0, f.len() - 1);
        let t = f[f.len() - 1];
        let k = t.kind;
        let a: int = forest_text(fp).len() as int;
        let m: int = forest_text(t.children).len() as int;
        assert(forest_text(f) == forest_text(fp) + nest_text(t));
        let whole = forest_text(f);
        assert(whole =~= forest_text(fp) + (seq![bracket_char(k, true)] + forest_text(t.children) + seq![bracket_char(k, false)]));
        let ta = toks.subrange(0, a as int);
        let o = toks[a as int];
        let tb = toks.subrange(a + 1, a + 1 + m);
        let c = toks[a + 1 + m];
        assert(all_ok(toks) =~= all_ok(ta) + seq![Ok::<TokenInfo, TokError>(o)] + all_ok(tb) + seq![Ok::<TokenInfo, TokError>(c)]);
        lemma_bracket_kinds(k);
        assert(o.typ == TokenType::ListOpening(k)) by {
            assert(whole[a as int] == bracket_char(k, true));
        }
        assert(c.typ == TokenType::ListClosing(k)) by {
            assert(whole[a + 1 + m] == bracket_char(k, false));
        }
        assert forall|i: int| 0 <= i < ta.len() implies (#[trigger] ta[i]).typ == bracket_token(forest_text(fp)[i])
            && ta[i].byte_offset == base + i by {
            assert(ta[i] == toks[i]);
            assert(whole[i] == forest_text(fp)[i]);
        }
        assert forall|i: int| 0 <= i < tb.len() implies (#[trigger] tb[i]).typ == bracket_token(forest_text(t.children)[i])
            && tb[i].byte_offset == (base + a + 1) + i by {
            assert(tb[i] == toks[a + 1 + i]);
            assert(whole[a + 1 + i] == forest_text(t.children)[i]);
        }
        let pa = all_ok(ta);
        let po = seq![Ok::<TokenInfo, TokError>(o)];
        let pb = all_ok(tb);
        let pc = seq![Ok::<TokenInfo, TokError>(c)];
        lemma_steps_concat(s, pa + po + pb, pc, text, file);
        lemma_steps_concat(s, pa + po, pb, text, file);
        lemma_steps_concat(s, pa, po, text, file);
        lemma_forest_steps(s, ta, fp, text, file, base);
        let s1 = steps(s, pa, text, file);
        assert(po.drop_last() =~= Seq::<TokResult<TokenInfo>>::empty());
        let s2 = steps(s1, po, text, file);
        assert(steps(s1, po.drop_last(), text, file) == s1);
        assert(po.last() == Ok::<TokenInfo, TokError>(o));
        assert(s2 == step(s1, Ok(o), text, file));
        assert(s2.stack == s1.stack.push(Frame::Open { opening: o, typ: k, children: Seq::empty() }));
        lemma_forest_steps(s2, tb, t.children, text, file, base + a + 1);
        let s3 = steps(s2, pb, text, file);
        assert(pc.drop_last() =~= Seq::<TokResult<TokenInfo>>::empty());
        let s4 = steps(s3, pc, text, file);
        assert(steps(s3, pc.drop_last(), text, file) == s3);
        assert(pc.last() == Ok::<TokenInfo, TokError>(c));
        assert(s4 == step(s3, Ok(c), text, file));
        let ch3 = frame_children(s3.stack.last());
        assert(ch3.subrange(0, 0) =~= Seq::<Node>::empty());
        assert(ch3.subrange(0, ch3.len() as int) =~= ch3);
        assert(s3.stack.last() == Frame::Open { opening: o, typ: k, children: ch3 });
        let n = closed_list(o, k, ch3, c, text, file);
        assert(s3.stack.drop_last() =~= s1.stack);
        assert(s4.stack == attach(s1.stack, n));
        assert(s4.events == s.events);
        assert(o.byte_offset == base + a && c.byte_offset == base + a + 1 + m);
        assert(node_matches(n, t, base + a));
        let ch1 = frame_children(s1.stack.last());
        let ch4 = frame_children(s4.stack.last());
        assert(ch4 == ch1.push(n));
        assert(s4.stack.drop_last() =~= s1.stack.drop_last());
        assert(ch4.subrange(0, old_children.len() as int) =~= ch1.subrange(0, old_children.len() as int));
        let added = ch4.subrange(old_children.len() as int, ch4.len() as int);
        let added1 = ch1.subrange(old_children.len() as int, ch1.len() as int);
        assert(added =~= added1.push(n));
        assert forall|i: int| 0 <= i < f.len() implies node_matches(
            #[trigger] added[i],
            f[i],
            base + forest_text(f.subrange(0, i)).len(),
        ) by {
            if i < f.len() - 1 {
                assert(added[i] == added1[i]);
                assert(f[i] == fp[i]);
                assert(f.subrange(0, i) =~= fp.subrange(0, i));
            } else {
                assert(f.subrange(0, i) =~= fp);
            }
        }
    }
}

/// Well-nested, matching brackets parse with no report at all, into roots
/// that repeat the nesting of the brackets exactly: one list per bracket
/// pair, of the pair's kind, opened and closed by the tokens of that pair,
/// holding the lists of the pairs directly inside it, in order.
pub proof fn balanced_parse(f: Seq<Nest>, sp: Seq<Seq<char>>, file: Option<Seq<char>>)
    requires
        forest_text(f).len() <= u32::MAX,
    ensures
        parse_outcome(all_ok(tokens_of(forest_text(f), sp)), forest_text(f), file).1.len() == 0,
        nodes_match(parse_outcome(all_ok(tokens_of(forest_text(f), sp)), forest_text(f), file).0, f, 0),
{
    let text = forest_text(f);
    lemma_forest_brackets(f);
    let toks = tokens_of(text, sp);
    lemma_bracket_tokens(text, sp, 1, 1, 0);
    lemma_run_steps(all_ok(toks), text, file);
    lemma_forest_steps(initial_state(), toks, f, text, file, 0);
    let s2 = run(all_ok(toks), text, file);
    assert(finish(s2, text, file) == s2);
    let ch = frame_children(s2.stack[0]);
    assert(s2.stack[0] == s2.stack.last());
    assert(ch.subrange(0, ch.len() as int) =~= ch);
}

} // verus!
