use sff_formatter::syntax::{ParsedNode, SyntaxTree};
use sff_formatter::visit::{apply_edits, edits_fit_source, run_pass_on, sort_edits, Edit};
use sff_formatter::visit::column::ColumnVisitor;
use sff_formatter::visit::debug::DebugVisitor;
use sff_formatter::visit::first_column::AlignmentVisitor as FirstColumnAlignment;
use sff_formatter::visit::parens::ParensVisitor;
use sff_formatter::visit::quotes::QuotesVisitor;

fn node(kind: &str, named: bool, start: usize, end: usize, depth: usize) -> ParsedNode {
    ParsedNode {
        kind: kind.to_string(),
        is_named: named,
        is_extra: false,
        start_byte: start,
        end_byte: end,
        start_row: 0,
        start_column: start,
        end_row: 0,
        end_column: end,
        depth,
    }
}

/// `f(a)` as the Python grammar parses it.
fn call_tree(source: &str) -> SyntaxTree {
    let nodes = vec![
        node("module", true, 0, 4, 0),
        node("expression_statement", true, 0, 4, 1),
        node("call", true, 0, 4, 2),
        node("identifier", true, 0, 1, 3),
        node("argument_list", true, 1, 4, 3),
        node("(", false, 1, 2, 4),
        node("identifier", true, 2, 3, 4),
        node(")", false, 3, 4, 4),
    ];
    SyntaxTree::from_parsed(source, &nodes).unwrap()
}

#[test]
fn parens_get_inner_spaces() {
    let source = "f(a)";
    let tree = call_tree(source);
    assert_eq!(run_pass_on(source, &tree, ParensVisitor::default()).unwrap(), "f( a )");
}

#[test]
fn debug_pass_changes_nothing() {
    let source = "f(a)";
    let tree = call_tree(source);
    assert_eq!(run_pass_on(source, &tree, DebugVisitor).unwrap(), source);
}

#[test]
fn tree_with_bad_depths_is_refused() {
    let nodes = vec![node("module", true, 0, 1, 0), node("x", true, 0, 1, 2)];
    assert!(SyntaxTree::from_parsed("a", &nodes).is_none());
    let nodes = vec![node("module", true, 0, 1, 1)];
    assert!(SyntaxTree::from_parsed("a", &nodes).is_none());
    assert!(SyntaxTree::from_parsed("a", &Vec::new()).is_none());
}

#[test]
fn tree_with_span_outside_text_is_refused() {
    let nodes = vec![node("module", true, 0, 5, 0)];
    assert!(SyntaxTree::from_parsed("abc", &nodes).is_none());
}

#[test]
fn tree_with_span_inside_a_character_is_refused() {
    let nodes = vec![node("module", true, 0, 1, 0)];
    assert!(SyntaxTree::from_parsed("é", &nodes).is_none());
}

#[test]
fn navigation_follows_depths() {
    let tree = call_tree("f(a)");
    assert_eq!(tree.parent(6), Some(4));
    assert_eq!(tree.parent(0), None);
    assert_eq!(tree.next_sibling(3), Some(4));
    assert_eq!(tree.next_sibling(4), None);
    assert_eq!(tree.prev_sibling(7), Some(6));
    assert_eq!(tree.prev_sibling(5), None);
    assert_eq!(tree.children_where(4, sff_formatter::syntax::ChildFilter::All), vec![5, 6, 7]);
    assert_eq!(tree.children_where(4, sff_formatter::syntax::ChildFilter::Named), vec![6]);
}

/// `"a"` as the Python grammar parses it.
#[test]
fn quotes_visitor_swaps_delimiters() {
    let source = "\"a\"";
    let nodes = vec![
        node("module", true, 0, 3, 0),
        node("expression_statement", true, 0, 3, 1),
        node("string", true, 0, 3, 2),
        node("string_start", true, 0, 1, 3),
        node("string_content", true, 1, 2, 3),
        node("string_end", true, 2, 3, 3),
    ];
    let tree = SyntaxTree::from_parsed(source, &nodes).unwrap();
    assert_eq!(run_pass_on(source, &tree, QuotesVisitor::default()).unwrap(), "'a'");
}

#[test]
fn first_column_alignment_breaks_long_lists() {
    // `f(a,b)` with a threshold of 88 is not broken; the list ends at column 6.
    let source = "f(a,b)";
    let nodes = vec![
        node("module", true, 0, 6, 0),
        node("expression_statement", true, 0, 6, 1),
        node("call", true, 0, 6, 2),
        node("identifier", true, 0, 1, 3),
        node("argument_list", true, 1, 6, 3),
        node("(", false, 1, 2, 4),
        node("identifier", true, 2, 3, 4),
        node(",", false, 3, 4, 4),
        node("identifier", true, 4, 5, 4),
        node(")", false, 5, 6, 4),
    ];
    let tree = SyntaxTree::from_parsed(source, &nodes).unwrap();
    assert_eq!(run_pass_on(source, &tree, FirstColumnAlignment::default()).unwrap(), source);
}

#[test]
fn column_visitor_leaves_non_tables() {
    let source = "f(a)";
    let tree = call_tree(source);
    assert_eq!(run_pass_on(source, &tree, ColumnVisitor::default()).unwrap(), source);
}

#[test]
fn edits_apply_in_start_order() {
    let edits = vec![
        Edit { start: 3, end: 4, new_text: "D".to_string() },
        Edit { start: 0, end: 1, new_text: "A".to_string() },
        Edit { start: 2, end: 2, new_text: "+".to_string() },
        Edit { start: 2, end: 2, new_text: "-".to_string() },
    ];
    assert!(edits_fit_source("abcd", &sort_edits_of(&edits)));
    assert_eq!(apply_edits("abcd", edits), "Ab+-cD");
}

#[test]
fn overlapping_edits_are_refused() {
    let edits = vec![
        Edit { start: 0, end: 3, new_text: "x".to_string() },
        Edit { start: 2, end: 4, new_text: "y".to_string() },
    ];
    assert!(!edits_fit_source("abcd", &edits));
}

#[test]
fn edit_inside_a_character_is_refused() {
    let edits = vec![Edit { start: 1, end: 1, new_text: "x".to_string() }];
    assert!(!edits_fit_source("é", &edits));
}

#[test]
fn edit_past_the_end_is_refused() {
    let edits = vec![Edit { start: 5, end: 6, new_text: "x".to_string() }];
    assert!(!edits_fit_source("abc", &edits));
}

fn edit(start: usize, end: usize, text: &str) -> Edit {
    Edit { start, end, new_text: text.to_string() }
}

#[test]
fn edits_apply_in_two_steps() {
    let source = "f(a,b) + g(c)";
    let all = apply_edits(source, vec![edit(2, 2, " "), edit(4, 4, " "), edit(11, 12, "x, y")]);
    let later = apply_edits(source, vec![edit(11, 12, "x, y")]);
    let both = apply_edits(&later, vec![edit(4, 4, " "), edit(2, 2, " ")]);
    assert_eq!(both, all);
    assert_eq!(all, "f( a, b) + g(x, y)");
}

fn sort_edits_of(edits: &[Edit]) -> Vec<Edit> {
    sort_edits(edits.iter().map(|e| edit(e.start, e.end, &e.new_text)).collect())
}

#[test]
fn edit_ending_before_its_start_repeats_the_text_between() {
    let edits = vec![edit(3, 1, "X")];
    assert!(edits_fit_source("abcd", &edits));
    assert_eq!(apply_edits("abcd", edits), "abcXbcd");
}

#[test]
fn edit_ending_past_the_end_does_not_fit() {
    assert!(!edits_fit_source("ab", &vec![edit(0, 3, "x")]));
}
