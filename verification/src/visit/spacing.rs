//! One space inside brackets that hold something, and after each comma.
use vstd::prelude::*;
use crate::syntax::{NodeKind, SyntaxNode, SyntaxTree, ChildFilter, next_sibling_of, prev_sibling_of, parent_of, children_of};
use crate::text::one_space;
use super::{Edit, EditModel, Visit, Visitor, edit_models};
use super::parens::space_edit;

verus! {

/// Puts one space after each opening bracket, before each closing bracket
/// (unless the brackets are empty, or the closing bracket follows a comma or
/// a comment, which would swallow it) and after each comma. The braces that open and close an interpolation in a
/// formatted string are left alone.
pub struct SpacingVisitor {
    edits: Vec<Edit>,
}

impl View for SpacingVisitor {
    type V = Seq<EditModel>;

    closed spec fn view(&self) -> Seq<EditModel> {
        edit_models(self.edits@)
    }
}

impl Default for SpacingVisitor {
    fn default() -> (v: Self)
        ensures
            v@ == Seq::<EditModel>::empty(),
    {
        SpacingVisitor { edits: Vec::new() }
    }
}

pub open spec fn is_opening(k: NodeKind) -> bool {
    k == NodeKind::OpenParen || k == NodeKind::OpenBracket || k == NodeKind::OpenBrace
}

pub open spec fn is_closing(k: NodeKind) -> bool {
    k == NodeKind::CloseParen || k == NodeKind::CloseBracket || k == NodeKind::CloseBrace
}

/// Node `node` is the first or the last child of an interpolation.
pub open spec fn interpolation_edge(t: Seq<SyntaxNode>, node: int) -> bool {
    match parent_of(t, node) {
        None => false,
        Some(p) => {
            let c = children_of(t, p as int);
            &&& t[p as int].kind == NodeKind::Interpolation
            &&& c.len() > 0
            &&& (c[0] == node || c.last() == node)
        },
    }
}

/// The edits that node `node` adds to `edits`.
pub open spec fn spacing_edits(edits: Seq<EditModel>, t: Seq<SyntaxNode>, node: int) -> Seq<EditModel> {
    let n = t[node];
    if interpolation_edge(t, node) {
        edits
    } else if is_opening(n.kind) {
        match next_sibling_of(t, node) {
            None => edits,
            Some(next) => if is_closing(t[next as int].kind) {
                edits
            } else {
                edits.push(space_edit(n.end_byte, t[next as int].start_byte))
            },
        }
    } else if is_closing(n.kind) {
        match prev_sibling_of(t, node) {
            None => edits,
            Some(prev) => if is_opening(t[prev as int].kind) || t[prev as int].kind == NodeKind::Comma
                || t[prev as int].is_extra {
                edits
            } else {
                edits.push(space_edit(t[prev as int].end_byte, n.start_byte))
            },
        }
    } else if n.kind == NodeKind::Comma {
        match next_sibling_of(t, node) {
            None => edits,
            Some(next) => edits.push(space_edit(n.end_byte, t[next as int].start_byte)),
        }
    } else {
        edits
    }
}

fn opening(k: NodeKind) -> (b: bool)
    ensures
        b == is_opening(k),
{
    k == NodeKind::OpenParen || k == NodeKind::OpenBracket || k == NodeKind::OpenBrace
}

fn closing(k: NodeKind) -> (b: bool)
    ensures
        b == is_closing(k),
{
    k == NodeKind::CloseParen || k == NodeKind::CloseBracket || k == NodeKind::CloseBrace
}

fn at_interpolation_edge(tree: &SyntaxTree, node: usize) -> (b: bool)
    requires
        node < tree@.len(),
        tree@.len() < usize::MAX,
    ensures
        b == interpolation_edge(tree@, node as int),
{
    match tree.parent(node) {
        None => false,
        Some(p) => {
            proof {
                crate::syntax::lemma_above_depth_bounds(tree@, tree@[node as int].depth, node - 1);
            }
            if tree.nodes[p].kind != NodeKind::Interpolation {
                return false;
            }
            let c = tree.children_where(p, ChildFilter::All);
            if c.len() == 0 {
                return false;
            }
            c[0] == node || c[c.len() - 1] == node
        },
    }
}

impl Visitor for SpacingVisitor {
    open spec fn step(model: Seq<EditModel>, tree: Seq<SyntaxNode>, bytes: Seq<u8>, node: int) -> Option<(Seq<EditModel>, Visit)> {
        Some((spacing_edits(model, tree, node), Visit::Continue))
    }

    open spec fn edits_of(model: Seq<EditModel>) -> Seq<EditModel> {
        model
    }

    fn visit(&mut self, tree: &SyntaxTree, source: &str, node: usize) -> (flow: Option<Visit>) {
        let n = tree.nodes[node];
        if at_interpolation_edge(tree, node) {
            return Some(Visit::Continue);
        }
        if opening(n.kind) {
            if let Some(next) = tree.next_sibling(node) {
                proof {
                    crate::syntax::lemma_next_at_depth_bounds(tree@, n.depth, node + 1);
                }
                if !closing(tree.nodes[next].kind) {
                    self.edits.push(Edit { start: n.end_byte, end: tree.nodes[next].start_byte, new_text: one_space() });
                    assert(self@ =~= spacing_edits(old(self)@, tree@, node as int));
                }
            }
        } else if closing(n.kind) {
            if let Some(prev) = tree.prev_sibling(node) {
                proof {
                    crate::syntax::lemma_prev_at_depth_bounds(tree@, n.depth, node - 1);
                }
                let pk = tree.nodes[prev].kind;
                if !(opening(pk) || pk == NodeKind::Comma || tree.nodes[prev].is_extra) {
                    self.edits.push(Edit { start: tree.nodes[prev].end_byte, end: n.start_byte, new_text: one_space() });
                    assert(self@ =~= spacing_edits(old(self)@, tree@, node as int));
                }
            }
        } else if n.kind == NodeKind::Comma {
            if let Some(next) = tree.next_sibling(node) {
                proof {
                    crate::syntax::lemma_next_at_depth_bounds(tree@, n.depth, node + 1);
                }
                self.edits.push(Edit { start: n.end_byte, end: tree.nodes[next].start_byte, new_text: one_space() });
                assert(self@ =~= spacing_edits(old(self)@, tree@, node as int));
            }
        }
        Some(Visit::Continue)
    }

    fn edits(self) -> (edits: Vec<Edit>) {
        self.edits
    }
}

} // verus!
