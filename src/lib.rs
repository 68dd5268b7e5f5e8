//! A tolerant reader for bracketed, S-expression-like text.
//!
//! Text is split into tokens, the tokens are built into a tree of lists,
//! atoms and strings by an explicit stack of open brackets that repairs
//! unclosed lists, stray closers and mismatched brackets, and every node and
//! report carries a span of the source that diagnostics render as annotated
//! excerpts.
use vstd::prelude::*;

pub mod text;
pub mod token;
pub mod span;
pub mod sexpr;
pub mod parse;
pub mod diagnostic;
pub mod diagnostic_bag;
pub mod round_trip;
pub mod balanced;

pub use sexpr::Sexpr;

use vstd::utf8::encode_utf8;
use diagnostic_bag::DiagnosticBag;
use parse::{parse, parse_outcome, outcome_diagnostics};
use sexpr::{nodes_view, node_wf};
use span::span_wf;
use span::file_view;
use token::{tokenize, tokens_of, splitter_view};

verus! {

/// The outcome of a parse: the tree, and everything that was wrong with the
/// text. Recovery means that both can be non-empty at once.
pub struct Result {
    /// The roots of the tree.
    pub roots: Vec<Sexpr>,
    /// One error-level diagnostic per problem found.
    pub diagnostics: DiagnosticBag,
}

/// The file name, as an owned string.
pub open spec fn name_view(file: Option<&str>) -> Option<Seq<char>> {
    match file {
        Some(f) => Some(f@),
        None => None,
    }
}

/// Tokenizes `string` with the builtin tokenizer, splitting atoms at
/// `splitters`, and parses the tokens.
pub fn simple_parse(string: &str, splitters: &[&str], file: Option<&str>) -> (r: Result)
    requires
        encode_utf8(string@).len() < u32::MAX,
    ensures
        nodes_view(r.roots@) == parse_outcome(
            tokens_of(string@, splitter_view(splitters@)).map_values(|t| Ok(t)),
            string@,
            name_view(file),
        ).0,
        r.diagnostics@ == outcome_diagnostics(
            parse_outcome(
                tokens_of(string@, splitter_view(splitters@)).map_values(|t| Ok(t)),
                string@,
                name_view(file),
            ).1,
        ),
        forall|i: int| 0 <= i < r.roots@.len() ==> node_wf(#[trigger] r.roots@[i]@),
        forall|i: int| 0 <= i < r.diagnostics@.len() ==> span_wf((#[trigger] r.diagnostics@[i]).span),
{
    let tokens = tokenize(string, splitters);
    let name = match file {
        Some(f) => Some(f.to_owned()),
        None => None,
    };
    proof {
        let want = tokens_of(string@, splitter_view(splitters@)).map_values(
            |t| Ok::<token::TokenInfo, token::TokError>(t),
        );
        assert(tokens@ =~= want);
        assert(file_view(name) == name_view(file));
    }
    parse(string, tokens, name)
}

} // verus!
