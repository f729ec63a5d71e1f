//! The tree-sitter grammars and query engine, behind small trusted wrappers.
//! Everything done with their results is verified in `inspector`.
use vstd::prelude::*;
use crate::inspector::Grammar;

verus! {

#[verifier::external_type_specification]
#[verifier::external_body]
pub struct ExTree(tree_sitter::Tree);

#[verifier::external_type_specification]
#[verifier::external_body]
pub struct ExQuery(tree_sitter::Query);

#[verifier::external_type_specification]
#[verifier::external_body]
pub struct ExQueryError(tree_sitter::QueryError);

/// One captured node of a query match, as plain values.
pub struct Capture {
    /// Name of the capture in the query (`name`, `def`, ...).
    pub name: String,
    /// Source text of the captured node.
    pub text: String,
    /// Line of the node's first character, counted from 0.
    pub start_row: usize,
    /// Line of the node's end, counted from 0.
    pub end_row: usize,
}

/// A capture as plain values: name, text, start line, end line.
pub type CaptureView = (Seq<char>, Seq<char>, usize, usize);

/// The view of one capture.
pub open spec fn capture_view(c: Capture) -> CaptureView {
    (c.name@, c.text@, c.start_row, c.end_row)
}

/// The views of the captures of each match.
pub open spec fn match_views(ms: Seq<Vec<Capture>>) -> Seq<Seq<CaptureView>> {
    ms.map_values(|m: Vec<Capture>| m@.map_values(|c: Capture| capture_view(c)))
}

/// Whether a query compiles against a grammar.
pub uninterp spec fn query_compiles(g: Grammar, query: Seq<char>) -> bool;

/// The matches of a query in the syntax tree of `source` under a grammar,
/// each as its captures.
pub uninterp spec fn captures_of(g: Grammar, query: Seq<char>, source: Seq<char>) -> Seq<Seq<CaptureView>>;

/// A syntax tree together with the grammar and the text it was parsed from.
pub struct ParsedSource {
    tree: tree_sitter::Tree,
    grammar: Grammar,
    text: String,
}

impl ParsedSource {
    /// The grammar the text was parsed with.
    pub closed spec fn grammar(&self) -> Grammar {
        self.grammar
    }

    /// The text that was parsed.
    pub closed spec fn text(&self) -> Seq<char> {
        self.text@
    }
}

/// A compiled query together with its grammar and its text.
pub struct CompiledQuery {
    query: tree_sitter::Query,
    grammar: Grammar,
    text: String,
}

impl CompiledQuery {
    /// The grammar the query was compiled for.
    pub closed spec fn grammar(&self) -> Grammar {
        self.grammar
    }

    /// The query's text.
    pub closed spec fn text(&self) -> Seq<char> {
        self.text@
    }
}

/// Relies on the grammar crates' language functions
/// (`tree_sitter_rust::language`, `tree_sitter_typescript::language_typescript`
/// and `language_tsx`, `tree_sitter_python::language`) and on
/// `tree_sitter::Parser` (`new`, `set_language`, `parse`). All four grammars
/// are of an ABI version that `set_language` accepts, and `parse` gives no
/// tree only when no language is set, a timeout expires or parsing is
/// cancelled; none of these applies here, so a tree always comes back.
#[verifier::external_body]
pub(crate) fn parse_source(grammar: Grammar, source: &str) -> (r: Option<ParsedSource>)
    ensures
        r is Some,
        r matches Some(p) ==> p.grammar() == grammar && p.text() == source@,
{
    let language = match grammar {
        Grammar::Rust => tree_sitter_rust::language(),
        Grammar::TypeScript | Grammar::JavaScript => tree_sitter_typescript::language_typescript(),
        Grammar::Tsx => tree_sitter_typescript::language_tsx(),
        Grammar::Python => tree_sitter_python::language(),
    };
    let mut parser = tree_sitter::Parser::new();
    parser.set_language(language).ok()?;
    let tree = parser.parse(source, None)?;
    Some(ParsedSource { tree, grammar, text: source.to_string() })
}

/// Relies on `tree_sitter::Query::new` (with `Tree::language`): compiles a
/// query for the grammar of a parsed text; whether it compiles depends on
/// the grammar and the query alone.
#[verifier::external_body]
pub(crate) fn compile_query(parsed: &ParsedSource, query: &str) -> (r: Result<CompiledQuery, tree_sitter::QueryError>)
    ensures
        r is Ok <==> query_compiles(parsed.grammar(), query@),
        r matches Ok(c) ==> c.grammar() == parsed.grammar() && c.text() == query@,
{
    let q = tree_sitter::Query::new(parsed.tree.language(), query)?;
    Ok(CompiledQuery { query: q, grammar: parsed.grammar, text: query.to_string() })
}

/// Relies on `tree_sitter::QueryCursor::matches`, `Node::utf8_text` and
/// `Node::start_position`/`end_position`: the matches of the query in the
/// tree, each as its captures. The tree is sliced only by the text it was
/// parsed from, and the query was compiled for the same grammar.
#[verifier::external_body]
pub(crate) fn query_captures(query: &CompiledQuery, parsed: &ParsedSource) -> (r: Vec<Vec<Capture>>)
    requires
        query.grammar() == parsed.grammar(),
    ensures
        match_views(r@) == captures_of(parsed.grammar(), query.text(), parsed.text()),
{
    let bytes = parsed.text.as_bytes();
    let names = query.query.capture_names();
    let mut cursor = tree_sitter::QueryCursor::new();
    cursor.matches(&query.query, parsed.tree.root_node(), bytes).map(|m| {
        m.captures.iter().map(|c| Capture {
            name: names[c.index as usize].clone(),
            text: c.node.utf8_text(bytes).unwrap_or("").to_string(),
            start_row: c.node.start_position().row,
            end_row: c.node.end_position().row,
        }).collect()
    }).collect()
}

} // verus!
