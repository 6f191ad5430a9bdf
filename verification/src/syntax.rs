//! The syntax provider: the only place where the library touches the
//! tree-sitter parser and the beancount grammar.
//!
//! Everything the rest of the pipeline needs from the syntax tree is
//! extracted here as plain values: the line spans of the constructs that
//! carry a date field, the text of those date fields, and the start rows of
//! the constructs that lack one. Parsing and query matching are
//! deterministic — the same content always yields the same tree and the
//! same matches, in document order — so each extraction is named by an
//! uninterpreted function of the content alone, and the verified pipeline
//! is proved against those names.

use vstd::prelude::*;

use tree_sitter::StreamingIterator;

use crate::directive::groups_view;
use crate::extract::RawSpan;
use crate::extract::check_spans;
use crate::extract::extract_directives;
use crate::extract::extract_spec;
use crate::extract::lemma_extract_ordered;
use crate::extract::spans_wf;
use crate::grouping::group_spec;
use crate::grouping::identify_sortable_groups;
use crate::grouping::lemma_groups_flatten;
use crate::grouping::lemma_groups_nonempty;
use crate::order::all_groups_sorted;
use crate::order::all_sorted;
use crate::rebuild::groups_wf;
use crate::rebuild::reconstruct_file;
use crate::rebuild::reconstruct_spec;
use crate::text::seqs_view;
use crate::text::split_lines_spec;

verus! {

#[verifier::external_type_specification]
#[verifier::external_body]
pub struct ExLanguage(tree_sitter::Language);

#[verifier::external_type_specification]
#[verifier::external_body]
pub struct ExQuery(tree_sitter::Query);

/// The line spans of the top-level constructs that carry a date field, in
/// document order: what the dated-directive query matches on `s`.
pub uninterp spec fn dated_spans_of(s: Seq<char>) -> Seq<RawSpan>;

/// The date-field texts of those same constructs, in the same order.
pub uninterp spec fn date_keys_of(s: Seq<char>) -> Seq<Seq<char>>;

/// The start rows of the constructs that lack a date field: the boundary
/// lines that reordering may never cross.
pub uninterp spec fn boundary_rows_of(s: Seq<char>) -> Seq<usize>;

/// Holds the compiled queries of the beancount grammar. Built once, never
/// mutated afterwards, so one instance may serve many calls.
pub struct Formatter {
    language: tree_sitter::Language,
    dated_directive_query: tree_sitter::Query,
    boundary_query: tree_sitter::Query,
}

/// What the whole operation returns, as a function of the content and of
/// the three extractions: the input itself when the extractions are
/// malformed (the provider never hands such), when no dated directive
/// exists, or when every group is already sorted; otherwise the
/// reconstruction of the sorted groups.
pub open spec fn sort_core_spec(
    content: Seq<char>,
    spans: Seq<RawSpan>,
    dates: Seq<Seq<char>>,
    bounds: Seq<usize>,
) -> Seq<char> {
    let lines = split_lines_spec(content);
    if !spans_wf(spans, dates, lines.len() as int) {
        content
    } else if spans.len() == 0 {
        content
    } else {
        let groups = group_spec(extract_spec(lines, spans, dates), bounds);
        if all_sorted(groups) {
            content
        } else {
            reconstruct_spec(content, groups)
        }
    }
}

/// The operation on the content alone, through the named extractions.
pub open spec fn sort_spec(content: Seq<char>) -> Seq<char> {
    sort_core_spec(
        content,
        dated_spans_of(content),
        date_keys_of(content),
        boundary_rows_of(content),
    )
}

impl Formatter {
    /// Relies on `tree_sitter_beancount::language` and
    /// `tree_sitter::Query::new`: compiles, against the beancount grammar,
    /// the fixed query for constructs with a date field and the fixed query
    /// for constructs without one. Both query sources are valid for this
    /// grammar, so neither call fails.
    #[verifier::external_body]
    pub fn new() -> Formatter {
        let language = tree_sitter_beancount::language();
        let dated_directive_query = tree_sitter::Query::new(
            &language,
            r#"(_ date: (date) @date) @directive"#,
        ).expect("Failed to create dated directive query");
        let boundary_query = tree_sitter::Query::new(&language, r#"(_ !date) @directive"#).expect(
            "Failed to create boundary query",
        );
        Formatter { language, dated_directive_query, boundary_query }
    }

    /// Relies on `tree_sitter::Parser::parse` and `QueryCursor::matches`
    /// with the beancount grammar: parsing is deterministic and total on any
    /// `&str`, the matches of the dated-directive query come in document
    /// order, and capture 1 of that query is the construct node itself. The
    /// reported rows and columns are therefore a function of the content
    /// alone.
    #[verifier::external_body]
    fn query_dated_spans(&self, content: &str) -> (r: Vec<RawSpan>)
        ensures
            r@ == dated_spans_of(content@),
    {
        let mut parser = tree_sitter::Parser::new();
        parser.set_language(&self.language).unwrap();
        let tree = parser.parse(content, None).unwrap();
        let mut cursor = tree_sitter::QueryCursor::new();
        let mut matches = cursor.matches(&self.dated_directive_query, tree.root_node(), content.as_bytes());
        let mut out: Vec<RawSpan> = Vec::new();
        loop {
            match matches.next() {
                None => break,
                Some(m) => { let n = m.captures.iter().find(|c| c.index == 1).unwrap().node; out.push(RawSpan { start_row: n.start_position().row, end_row: n.end_position().row, end_col: n.end_position().column }); },
            }
        }
        out
    }

    /// Relies on the same parse and query as `query_dated_spans`, reading
    /// capture 0 — the date field — of each match: `Node::utf8_text` returns
    /// exactly the node's text, a function of the content alone, in the
    /// same document order as the spans.
    #[verifier::external_body]
    fn query_date_keys(&self, content: &str) -> (r: Vec<Vec<char>>)
        ensures
            seqs_view(r) == date_keys_of(content@),
    {
        let mut parser = tree_sitter::Parser::new();
        parser.set_language(&self.language).unwrap();
        let tree = parser.parse(content, None).unwrap();
        let mut cursor = tree_sitter::QueryCursor::new();
        let mut matches = cursor.matches(&self.dated_directive_query, tree.root_node(), content.as_bytes());
        let mut out: Vec<Vec<char>> = Vec::new();
        loop {
            match matches.next() {
                None => break,
                Some(m) => { let n = m.captures.iter().find(|c| c.index == 0).unwrap().node; out.push(n.utf8_text(content.as_bytes()).unwrap().chars().collect()); },
            }
        }
        out
    }

    /// Relies on the same parse with the boundary query, whose single
    /// capture is the construct node: the start rows of every construct
    /// without a date field, a function of the content alone.
    #[verifier::external_body]
    fn query_boundaries(&self, content: &str) -> (r: Vec<usize>)
        ensures
            r@ == boundary_rows_of(content@),
    {
        let mut parser = tree_sitter::Parser::new();
        parser.set_language(&self.language).unwrap();
        let tree = parser.parse(content, None).unwrap();
        let mut cursor = tree_sitter::QueryCursor::new();
        let mut matches = cursor.matches(&self.boundary_query, tree.root_node(), content.as_bytes());
        let mut out: Vec<usize> = Vec::new();
        loop {
            match matches.next() {
                None => break,
                Some(m) => out.push(m.captures[0].node.start_position().row),
            }
        }
        out
    }

    /// Sorts the dated directives of `content` by date within sortable
    /// groups, leaving everything else untouched; an input that needs no
    /// change is returned byte for byte.
    pub fn sort(&self, content: &str) -> (r: String)
        ensures
            r@ == sort_spec(content@),
    {
        let chars = crate::text::chars_of(content);
        let lines = crate::text::split_lines(&chars);
        let spans = self.query_dated_spans(content);
        let dates = self.query_date_keys(content);
        let bounds = self.query_boundaries(content);
        if !check_spans(&spans, &dates, lines.len()) {
            return content.to_owned();
        }
        if spans.len() == 0 {
            return content.to_owned();
        }
        let directives = extract_directives(&lines, &spans, &dates);
        let groups = identify_sortable_groups(&directives, &bounds);
        if all_groups_sorted(&groups) {
            return content.to_owned();
        }
        proof {
            let lv = split_lines_spec(content@);
            let dv = extract_spec(lv, spans@, seqs_view(dates));
            lemma_extract_ordered(lv, spans@, seqs_view(dates));
            lemma_groups_flatten(dv, bounds@, 0);
            lemma_groups_nonempty(dv, bounds@, 0);
            assert(dv.skip(0) =~= dv);
            assert(groups_view(groups) == group_spec(dv, bounds@));
            assert(groups_wf(groups_view(groups), lv.len() as int));
        }
        reconstruct_file(content, &groups)
    }
}

} // verus!
