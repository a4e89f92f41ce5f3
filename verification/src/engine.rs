//! The boundary to the structural pattern engine (the `tree_sitter` crate).
//!
//! The engine's values are opaque here. What a compiled query or a parsed tree
//! holds, and what running a query returns, are named by uninterpreted spec
//! functions: the engine is deterministic for a fixed grammar, pattern and
//! source, but its traversal order is otherwise its own. Every contract of the
//! library above this module speaks through these names.

use crate::diag::{Capture, CaptureModel, Match, SrcRange, matches_view};
use tree_sitter::StreamingIterator;
use vstd::prelude::*;

verus! {

#[verifier::external_type_specification]
#[verifier::external_body]
pub struct ExLanguage(tree_sitter::Language);

#[verifier::external_type_specification]
#[verifier::external_body]
pub struct ExQuery(tree_sitter::Query);

#[verifier::external_type_specification]
#[verifier::external_body]
pub struct ExTree(tree_sitter::Tree);

/// What a compiled query holds: the grammar it was compiled for, and the
/// pattern text it was compiled from.
pub ghost struct QueryModel {
    pub lang: tree_sitter::Language,
    pub pattern: Seq<u8>,
}

/// What a parsed tree holds: the grammar it was parsed with, and the source
/// text it was parsed from.
pub ghost struct TreeModel {
    pub lang: tree_sitter::Language,
    pub source: Seq<u8>,
}

pub uninterp spec fn query_model(q: tree_sitter::Query) -> QueryModel;

/// Whether the parser accepts the grammar: its ABI version pairs with the
/// engine and it is parseable.
pub uninterp spec fn lang_compatible(lang: tree_sitter::Language) -> bool;

pub uninterp spec fn tree_model(t: tree_sitter::Tree) -> TreeModel;

/// Whether the engine accepts the pattern text as a query of the grammar.
pub uninterp spec fn compile_ok(lang: tree_sitter::Language, pattern: Seq<u8>) -> bool;

/// The capture index that a compiled pattern assigns to a capture name, or
/// `None` where the pattern exposes no capture of that name.
pub uninterp spec fn capture_index_of(
    lang: tree_sitter::Language,
    pattern: Seq<u8>,
    name: Seq<u8>,
) -> Option<u32>;

/// The matches that running the compiled pattern over the parsed source
/// yields, in the engine's own (deterministic) order: for each match, its
/// captures in capture order.
pub uninterp spec fn engine_matches(
    lang: tree_sitter::Language,
    pattern: Seq<u8>,
    source: Seq<u8>,
) -> Seq<Seq<CaptureModel>>;

/// A capture points into the source it was matched over, and its span does
/// not run backwards.
pub open spec fn wf_capture(c: CaptureModel, source_len: nat) -> bool {
    &&& c.range.start_byte <= c.range.end_byte
    &&& c.range.end_byte <= source_len
    &&& c.range.start_row <= c.range.end_row
}

/// Every capture of every match is well formed for the source.
pub open spec fn wf_matches(ms: Seq<Seq<CaptureModel>>, source_len: nat) -> bool {
    forall|i: int, j: int|
        0 <= i < ms.len() && 0 <= j < ms[i].len() ==> wf_capture(#[trigger] ms[i][j], source_len)
}

/// Relies on `tree_sitter::Query::new`: compiling pattern text against a
/// grammar is deterministic, and fails exactly on invalid pattern syntax.
/// Pattern bytes that are not valid text are treated as a failed compile.
#[verifier::external_body]
pub fn compile_query(lang: &tree_sitter::Language, pattern: &Vec<u8>) -> (r: Option<
    tree_sitter::Query,
>)
    ensures
        r is Some <==> compile_ok(*lang, pattern@),
        r matches Some(q) ==> query_model(q) == (QueryModel { lang: *lang, pattern: pattern@ }),
{
    let text = match core::str::from_utf8(pattern) {
        Ok(t) => t,
        Err(_) => return None,
    };
    tree_sitter::Query::new(lang, text).ok()
}

/// Relies on `tree_sitter::Query::capture_index_for_name`: the index a query
/// assigns to a capture name depends on the compiled pattern alone. A name
/// that is not valid text is no capture name.
#[verifier::external_body]
pub fn query_capture_index(q: &tree_sitter::Query, name: &Vec<u8>) -> (r: Option<u32>)
    ensures
        r == capture_index_of(query_model(*q).lang, query_model(*q).pattern, name@),
{
    let text = match core::str::from_utf8(name) {
        Ok(t) => t,
        Err(_) => return None,
    };
    q.capture_index_for_name(text)
}

/// Relies on `tree_sitter::Parser::set_language`: it accepts a grammar
/// exactly when the grammar's ABI version pairs with the engine and the
/// grammar is parseable, a deterministic property of the grammar value alone.
#[verifier::external_body]
pub fn language_ok(lang: &tree_sitter::Language) -> (r: bool)
    ensures
        r == lang_compatible(*lang),
{
    tree_sitter::Parser::new().set_language(lang).is_ok()
}

/// Relies on `tree_sitter::Parser::parse`: parsing is deterministic, and by
/// its documentation it returns a tree whenever a language is set and neither
/// a cancellation flag nor a timeout is configured. A grammar the parser
/// rejects would panic here, so it is required out; callers test with
/// `language_ok` first.
#[verifier::external_body]
pub fn parse_source(lang: &tree_sitter::Language, source: &Vec<u8>) -> (t: tree_sitter::Tree)
    requires
        lang_compatible(*lang),
    ensures
        tree_model(t) == (TreeModel { lang: *lang, source: source@ }),
{
    let mut parser = tree_sitter::Parser::new();
    parser.set_language(lang).expect("the grammar does not pair with the engine version");
    parser.parse(source, None).expect("a parser with a language set always returns a tree")
}

/// Relies on `tree_sitter::QueryCursor::matches`: it yields every match of
/// the query in the engine's deterministic order, each with its captures; a
/// captured node's byte span lies within the parsed source and does not run
/// backwards, and its points do not either.
#[verifier::external_body]
pub fn run_query(q: &tree_sitter::Query, tree: &tree_sitter::Tree, source: &Vec<u8>) -> (r: Vec<
    Match,
>)
    requires
        query_model(*q).lang == tree_model(*tree).lang,
        tree_model(*tree).source == source@,
    ensures
        matches_view(r@) == engine_matches(query_model(*q).lang, query_model(*q).pattern, source@),
        wf_matches(matches_view(r@), source@.len()),
{
    let mut cursor = tree_sitter::QueryCursor::new();
    let mut ms = cursor.matches(q, tree.root_node(), source.as_slice());
    let mut out = Vec::new();
    while let Some(m) = ms.next() {
        out.push(Match { captures: m.captures().iter().map(|c| {
            let r = c.node.range();
            Capture {
                name: q.capture_names()[c.index as usize].as_bytes().to_vec(),
                range: SrcRange { start_byte: r.start_byte, end_byte: r.end_byte,
                    start_row: r.start_point.row, start_col: r.start_point.column, end_row: r.end_point.row, end_col: r.end_point.column },
                has_next_named_sibling: c.node.next_named_sibling().is_some(),
            }
        }).collect() });
    }
    out
}

} // verus!
