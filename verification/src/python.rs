//! Parsing Python source with tree-sitter and its Python grammar.
use vstd::prelude::*;
use vstd::utf8::encode_utf8;
use crate::syntax::{ParsedNode, ParsedNodeView, SyntaxNode, SyntaxTree, nodes_of, tree_of_text};

verus! {

#[verifier::external_type_specification]
#[verifier::external_body]
pub struct ExTree(tree_sitter::Tree);

/// What tree-sitter, with the grammar of `tree_sitter_python`, makes of a
/// source text: the nodes of its syntax tree by descendant index of the root
/// (the root first), or `None` where it gives no tree. The parse depends on
/// the text alone.
pub uninterp spec fn python_parse(source: Seq<char>) -> Option<Seq<ParsedNodeView>>;

/// The nodes of a tree-sitter tree, by descendant index of its root: the
/// node with index `i` is the one that `TreeCursor::goto_descendant(i)`
/// reaches from a cursor at the root.
pub uninterp spec fn tree_nodes(tree: tree_sitter::Tree) -> Seq<ParsedNodeView>;

/// Makes a `tree_sitter::Parser`, gives it the grammar of `tree_sitter_python`
/// with `Parser::set_language`, and runs `Parser::parse` on the source text.
/// `None` where the grammar is refused or the parser returns no tree. The
/// contract claims that the tree's nodes are what `python_parse` names for
/// the text, and that there is no tree where it names none.
#[verifier::external_body]
fn parse_python(source: &str) -> (tree: Option<tree_sitter::Tree>)
    ensures
        match tree {
            Some(t) => python_parse(source@) == Some(tree_nodes(t)),
            None => python_parse(source@) is None,
        },
{
    let mut parser = tree_sitter::Parser::new();
    parser.set_language(&tree_sitter_python::LANGUAGE.into()).ok()?;
    parser.parse(source, None)
}

/// `Node::descendant_count` of the tree's root node. The contract claims it
/// is the number of nodes of the tree, the root included.
#[verifier::external_body]
fn descendant_count(tree: &tree_sitter::Tree) -> (n: usize)
    ensures
        n == tree_nodes(*tree).len(),
{
    tree.root_node().descendant_count()
}

/// The node with descendant index `index` of the tree's root: a cursor made
/// by `Tree::walk` is moved there with `TreeCursor::goto_descendant`, and
/// its node (`TreeCursor::node`) is read with `Node::kind`, `Node::is_named`,
/// `Node::is_extra`, `Node::start_byte`, `Node::end_byte`,
/// `Node::start_position`, `Node::end_position`, with `TreeCursor::depth`.
/// The contract claims it is node `index` of `tree_nodes`.
#[verifier::external_body]
fn node_at(tree: &tree_sitter::Tree, index: usize) -> (node: ParsedNode)
    requires
        index < tree_nodes(*tree).len(),
    ensures
        node@ == tree_nodes(*tree)[index as int],
{
    let mut cursor = tree.walk();
    cursor.goto_descendant(index);
    let n = cursor.node();
    let (start, end) = (n.start_position(), n.end_position());
    ParsedNode {
        kind: n.kind().to_string(), is_named: n.is_named(), is_extra: n.is_extra(),
        start_byte: n.start_byte(), end_byte: n.end_byte(),
        start_row: start.row, start_column: start.column, end_row: end.row, end_column: end.column,
        depth: cursor.depth() as usize,
    }
}

/// Parses `source` as Python and lists the nodes of its syntax tree by
/// descendant index, each with its depth. `None` where the parser gives no
/// tree.
pub fn parse_nodes(source: &str) -> (nodes: Option<Vec<ParsedNode>>)
    ensures
        match nodes {
            Some(ns) => python_parse(source@) == Some(ns@.map_values(|p: ParsedNode| p@)),
            None => python_parse(source@) is None,
        },
{
    let tree = match parse_python(source) {
        Some(t) => t,
        None => return None,
    };
    let count = descendant_count(&tree);
    let mut nodes: Vec<ParsedNode> = Vec::new();
    let mut i: usize = 0;
    while i < count
        invariant
            count == tree_nodes(tree).len(),
            i <= count,
            nodes@.map_values(|p: ParsedNode| p@) == tree_nodes(tree).take(i as int),
        decreases count - i,
    {
        let node = node_at(&tree, i);
        let ghost before = nodes@;
        nodes.push(node);
        assert(nodes@.map_values(|p: ParsedNode| p@) =~= before.map_values(|p: ParsedNode| p@).push(node@));
        assert(tree_nodes(tree).take(i + 1) =~= tree_nodes(tree).take(i as int).push(tree_nodes(tree)[i as int]));
        i = i + 1;
    }
    assert(tree_nodes(tree).take(count as int) =~= tree_nodes(tree));
    Some(nodes)
}

/// The syntax tree of a source text: the parse, where its nodes form a tree
/// of the text.
pub open spec fn python_tree(source: Seq<char>) -> Option<Seq<SyntaxNode>> {
    match python_parse(source) {
        Some(ns) => if tree_of_text(nodes_of(ns), encode_utf8(source)) {
            Some(nodes_of(ns))
        } else {
            None
        },
        None => None,
    }
}

/// Parses `source` as Python into a syntax tree of it. `None` where the
/// parser gives no tree, or one whose nodes do not form a tree of `source`.
pub fn parse_tree(source: &str) -> (tree: Option<SyntaxTree>)
    ensures
        match python_tree(source@) {
            Some(t) => tree matches Some(x) && x@ == t,
            None => tree is None,
        },
        tree matches Some(t) ==> t.fits(source),
{
    match parse_nodes(source) {
        Some(nodes) => SyntaxTree::from_parsed(source, &nodes),
        None => None,
    }
}

} // verus!
