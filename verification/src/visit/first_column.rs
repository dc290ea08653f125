//! Long bracketed lists broken over lines, aligned under their first element.
use vstd::prelude::*;
use crate::syntax::{NodeKind, SyntaxNode, SyntaxTree, ChildFilter, named_children_of};
use crate::text::{newline_indent, spaces};
use super::{Edit, EditModel, Visit, Visitor, edit_models};

verus! {

/// The line length beyond which a list is broken over lines.
pub const DEFAULT_LINE_LENGTH: usize = 88;

/// Breaks every argument list, parameter list, dictionary, list, set or tuple
/// that ends beyond the line length: each named element after the first goes
/// on a line of its own, indented to the column of the first element.
pub struct AlignmentVisitor {
    line_length_threshold: usize,
    edits: Vec<Edit>,
}

/// The state of an `AlignmentVisitor`.
pub struct FirstColumnModel {
    pub threshold: usize,
    pub edits: Seq<EditModel>,
}

impl View for AlignmentVisitor {
    type V = FirstColumnModel;

    closed spec fn view(&self) -> FirstColumnModel {
        FirstColumnModel { threshold: self.line_length_threshold, edits: edit_models(self.edits@) }
    }
}

impl Default for AlignmentVisitor {
    fn default() -> (v: Self)
        ensures
            v@ == (FirstColumnModel { threshold: DEFAULT_LINE_LENGTH, edits: Seq::empty() }),
    {
        let v = AlignmentVisitor { line_length_threshold: DEFAULT_LINE_LENGTH, edits: Vec::new() };
        assert(edit_models(v.edits@) =~= Seq::<EditModel>::empty());
        v
    }
}

/// Kinds of bracketed lists whose elements can be put on lines of their own.
pub open spec fn is_list_like(k: NodeKind) -> bool {
    ||| k == NodeKind::ArgumentList
    ||| k == NodeKind::Parameters
    ||| k == NodeKind::Dictionary
    ||| k == NodeKind::List
    ||| k == NodeKind::SetLiteral
    ||| k == NodeKind::Tuple
}

pub fn list_like(k: NodeKind) -> (b: bool)
    ensures
        b == is_list_like(k),
{
    k == NodeKind::ArgumentList || k == NodeKind::Parameters || k == NodeKind::Dictionary
        || k == NodeKind::List || k == NodeKind::SetLiteral || k == NodeKind::Tuple
}

/// Insertions of `text` at the start of each of the nodes `cs`.
pub open spec fn insertions(t: Seq<SyntaxNode>, cs: Seq<usize>, text: Seq<char>) -> Seq<EditModel> {
    cs.map_values(|c: usize| EditModel { start: t[c as int].start_byte, end: t[c as int].start_byte, text })
}

/// What the visitor does at node `node`: a list-like node with named
/// elements that ends beyond the threshold column gets a line break and an
/// indentation to its first element's column before each later element;
/// list-like nodes without named elements or within the threshold are
/// skipped.
pub open spec fn first_column_step(m: FirstColumnModel, t: Seq<SyntaxNode>, node: int) -> (FirstColumnModel, Visit) {
    let n = t[node];
    let named = named_children_of(t, node);
    if !is_list_like(n.kind) {
        (m, Visit::Continue)
    } else if named.len() == 0 || n.end_column <= m.threshold {
        (m, Visit::Skip)
    } else {
        let text = seq!['\n'] + spaces(t[named[0] as int].start_column as nat);
        (
            FirstColumnModel {
                threshold: m.threshold,
                edits: m.edits + insertions(t, named.subrange(1, named.len() as int), text),
            },
            Visit::Continue,
        )
    }
}

impl Visitor for AlignmentVisitor {
    open spec fn step(model: FirstColumnModel, tree: Seq<SyntaxNode>, bytes: Seq<u8>, node: int) -> Option<(FirstColumnModel, Visit)> {
        Some(first_column_step(model, tree, node))
    }

    open spec fn edits_of(model: FirstColumnModel) -> Seq<EditModel> {
        model.edits
    }

    fn visit(&mut self, tree: &SyntaxTree, source: &str, node: usize) -> (flow: Option<Visit>) {
        let n = tree.nodes[node];
        if !list_like(n.kind) {
            return Some(Visit::Continue);
        }
        let named = tree.children_where(node, ChildFilter::Named);
        if named.len() == 0 || n.end_column <= self.line_length_threshold {
            return Some(Visit::Skip);
        }
        proof {
            crate::syntax::lemma_children_from_bounds(tree@, n.depth, node + 1, ChildFilter::Named);
        }
        let indent = newline_indent(tree.nodes[named[0]].start_column);
        let ghost t = tree@;
        let ghost old_edits = edit_models(self.edits@);
        let mut k: usize = 1;
        while k < named.len()
            invariant
                t == tree@,
                named@ == named_children_of(t, node as int),
                forall|i: int| 0 <= i < named@.len() ==> (#[trigger] named@[i]) < t.len(),
                1 <= k <= named@.len(),
                self.line_length_threshold == old(self).line_length_threshold,
                edit_models(self.edits@) == old_edits + insertions(t, named@.subrange(1, k as int), indent@),
            decreases named@.len() - k,
        {
            let c = tree.nodes[named[k]];
            let ghost prev = edit_models(self.edits@);
            let e = Edit { start: c.start_byte, end: c.start_byte, new_text: indent.clone() };
            self.edits.push(e);
            assert(edit_models(self.edits@) =~= prev.push(e@));
            assert(named@.subrange(1, k + 1) =~= named@.subrange(1, k as int).push(named@[k as int]));
            assert(insertions(t, named@.subrange(1, k + 1), indent@) =~= insertions(t, named@.subrange(1, k as int), indent@).push(
                EditModel { start: c.start_byte, end: c.start_byte, text: indent@ },
            ));
            assert(edit_models(self.edits@) =~= old_edits + insertions(t, named@.subrange(1, k + 1), indent@));
            k = k + 1;
        }
        Some(Visit::Continue)
    }

    fn edits(self) -> (edits: Vec<Edit>) {
        self.edits
    }
}

} // verus!
