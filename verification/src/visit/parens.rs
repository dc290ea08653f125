//! One space inside each pair of parentheses that holds something.
use vstd::prelude::*;
use crate::syntax::{NodeKind, SyntaxNode, SyntaxTree, next_sibling_of, prev_sibling_of};
use crate::text::one_space;
use super::{Edit, EditModel, Visit, Visitor, edit_models};

verus! {

/// Puts one space after each `(` and before each `)`, unless the pair is
/// empty: the gap between the bracket and its neighbour becomes one space.
pub struct ParensVisitor {
    edits: Vec<Edit>,
}

impl View for ParensVisitor {
    type V = Seq<EditModel>;

    closed spec fn view(&self) -> Seq<EditModel> {
        edit_models(self.edits@)
    }
}

impl Default for ParensVisitor {
    fn default() -> (v: Self)
        ensures
            v@ == Seq::<EditModel>::empty(),
    {
        ParensVisitor { edits: Vec::new() }
    }
}

/// The edit that turns the gap from byte `start` to byte `end` into one space.
pub open spec fn space_edit(start: usize, end: usize) -> EditModel {
    EditModel { start, end, text: seq![' '] }
}

/// The edits that node `node` adds to `edits`.
pub open spec fn parens_edits(edits: Seq<EditModel>, t: Seq<SyntaxNode>, node: int) -> Seq<EditModel> {
    let n = t[node];
    if n.kind == NodeKind::OpenParen {
        match next_sibling_of(t, node) {
            None => edits,
            Some(next) => if t[next as int].kind == NodeKind::CloseParen {
                edits
            } else {
                edits.push(space_edit(n.end_byte, t[next as int].start_byte))
            },
        }
    } else if n.kind == NodeKind::CloseParen {
        match prev_sibling_of(t, node) {
            None => edits,
            Some(prev) => if t[prev as int].kind == NodeKind::OpenParen {
                edits
            } else {
                edits.push(space_edit(t[prev as int].end_byte, n.start_byte))
            },
        }
    } else {
        edits
    }
}

impl Visitor for ParensVisitor {
    open spec fn step(model: Seq<EditModel>, tree: Seq<SyntaxNode>, bytes: Seq<u8>, node: int) -> Option<(Seq<EditModel>, Visit)> {
        Some((parens_edits(model, tree, node), Visit::Continue))
    }

    open spec fn edits_of(model: Seq<EditModel>) -> Seq<EditModel> {
        model
    }

    fn visit(&mut self, tree: &SyntaxTree, source: &str, node: usize) -> (flow: Option<Visit>) {
        let n = tree.nodes[node];
        if n.kind == NodeKind::OpenParen {
            if let Some(next) = tree.next_sibling(node) {
                proof {
                    crate::syntax::lemma_next_at_depth_bounds(tree@, n.depth, node + 1);
                }
                if tree.nodes[next].kind != NodeKind::CloseParen {
                    let e = Edit { start: n.end_byte, end: tree.nodes[next].start_byte, new_text: one_space() };
                    self.edits.push(e);
                    assert(self@ =~= parens_edits(old(self)@, tree@, node as int));
                }
            }
        } else if n.kind == NodeKind::CloseParen {
            if let Some(prev) = tree.prev_sibling(node) {
                proof {
                    crate::syntax::lemma_prev_at_depth_bounds(tree@, n.depth, node - 1);
                }
                if tree.nodes[prev].kind != NodeKind::OpenParen {
                    let e = Edit { start: tree.nodes[prev].end_byte, end: n.start_byte, new_text: one_space() };
                    self.edits.push(e);
                    assert(self@ =~= parens_edits(old(self)@, tree@, node as int));
                }
            }
        }
        Some(Visit::Continue)
    }

    fn edits(self) -> (edits: Vec<Edit>) {
        self.edits
    }
}

} // verus!
