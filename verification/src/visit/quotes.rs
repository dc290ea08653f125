//! Single quotes for string literals.
use vstd::prelude::*;
use vstd::string::StringSliceAdditionalSpecFns;
use crate::syntax::{NodeKind, SyntaxNode, SyntaxTree, ChildFilter, named_children_of, span_bytes, span_fits};
use crate::text::single_quote;
use super::{Edit, EditModel, Visit, Visitor, edit_models};

verus! {

/// Turns the double quotes that delimit a string literal into single quotes,
/// except in docstrings (triple quotes) and in strings that hold a single
/// quote. The walk does not go into string literals.
pub struct QuotesVisitor {
    edits: Vec<Edit>,
}

impl View for QuotesVisitor {
    type V = Seq<EditModel>;

    closed spec fn view(&self) -> Seq<EditModel> {
        edit_models(self.edits@)
    }
}

impl Default for QuotesVisitor {
    fn default() -> (v: Self)
        ensures
            v@ == Seq::<EditModel>::empty(),
    {
        QuotesVisitor { edits: Vec::new() }
    }
}

/// The text ends with three double quotes. (The texts here are spans of a
/// UTF-8 text between characters, so this is the same as for characters.)
pub open spec fn ends_with_triple_quote(b: Seq<u8>) -> bool {
    &&& b.len() >= 3
    &&& b[b.len() - 1] == 0x22u8
    &&& b[b.len() - 2] == 0x22u8
    &&& b[b.len() - 3] == 0x22u8
}

/// The text holds a single quote.
pub open spec fn has_single_quote(b: Seq<u8>) -> bool {
    exists|k: int| 0 <= k < b.len() && b[k] == 0x27u8
}

/// The edit that turns bytes `start..end` into one single quote.
pub open spec fn quote_edit(start: usize, end: usize) -> EditModel {
    EditModel { start, end, text: seq!['\''] }
}

/// What the visitor does at node `node`: for a string literal whose first
/// named child (its opening delimiter) does not end with three double quotes
/// and whose text holds no single quote, the last byte of the opening
/// delimiter and the whole closing delimiter (its last named child) become
/// single quotes. Fails where the opening delimiter is empty and ends at 0.
pub open spec fn quotes_step(edits: Seq<EditModel>, t: Seq<SyntaxNode>, bytes: Seq<u8>, node: int) -> Option<(Seq<EditModel>, Visit)> {
    let n = t[node];
    let named = named_children_of(t, node);
    if n.kind != NodeKind::StringLiteral || named.len() == 0 {
        Some((edits, Visit::Continue))
    } else {
        let open = t[named[0] as int];
        let close = t[named.last() as int];
        if ends_with_triple_quote(span_bytes(bytes, open)) || has_single_quote(span_bytes(bytes, n)) {
            Some((edits, Visit::Skip))
        } else if open.end_byte == 0 {
            None
        } else {
            Some((
                edits.push(quote_edit((open.end_byte - 1) as usize, open.end_byte)).push(
                    quote_edit(close.start_byte, close.end_byte),
                ),
                Visit::Skip,
            ))
        }
    }
}

fn triple_quote_end(b: &[u8], start: usize, end: usize) -> (r: bool)
    requires
        start <= end <= b@.len(),
    ensures
        r == ends_with_triple_quote(b@.subrange(start as int, end as int)),
{
    end - start >= 3 && b[end - 1] == 0x22u8 && b[end - 2] == 0x22u8 && b[end - 3] == 0x22u8
}

fn single_quote_in(b: &[u8], start: usize, end: usize) -> (r: bool)
    requires
        start <= end <= b@.len(),
    ensures
        r == has_single_quote(b@.subrange(start as int, end as int)),
{
    let ghost s = b@.subrange(start as int, end as int);
    let mut k = start;
    while k < end
        invariant
            start <= k <= end <= b@.len(),
            s == b@.subrange(start as int, end as int),
            forall|j: int| 0 <= j < k - start ==> s[j] != 0x27u8,
        decreases end - k,
    {
        if b[k] == 0x27u8 {
            assert(s[k - start] == 0x27u8);
            return true;
        }
        k = k + 1;
    }
    false
}

impl Visitor for QuotesVisitor {
    open spec fn step(model: Seq<EditModel>, tree: Seq<SyntaxNode>, bytes: Seq<u8>, node: int) -> Option<(Seq<EditModel>, Visit)> {
        quotes_step(model, tree, bytes, node)
    }

    open spec fn edits_of(model: Seq<EditModel>) -> Seq<EditModel> {
        model
    }

    fn visit(&mut self, tree: &SyntaxTree, source: &str, node: usize) -> (flow: Option<Visit>) {
        let n = tree.nodes[node];
        if n.kind != NodeKind::StringLiteral {
            return Some(Visit::Continue);
        }
        let named = tree.children_where(node, ChildFilter::Named);
        if named.len() == 0 {
            return Some(Visit::Continue);
        }
        proof {
            crate::syntax::lemma_children_from_bounds(tree@, n.depth, node + 1, ChildFilter::Named);
        }
        let open = tree.nodes[named[0]];
        let close = tree.nodes[named[named.len() - 1]];
        let bytes = source.as_bytes();
        assert(span_fits(tree@, source.spec_bytes(), named@[0] as int));
        assert(span_fits(tree@, source.spec_bytes(), node as int));
        if triple_quote_end(bytes, open.start_byte, open.end_byte) || single_quote_in(bytes, n.start_byte, n.end_byte) {
            return Some(Visit::Skip);
        }
        if open.end_byte == 0 {
            return None;
        }
        self.edits.push(Edit { start: open.end_byte - 1, end: open.end_byte, new_text: single_quote() });
        self.edits.push(Edit { start: close.start_byte, end: close.end_byte, new_text: single_quote() });
        assert(self@ =~= quotes_step(old(self)@, tree@, source.spec_bytes(), node as int).unwrap().0);
        Some(Visit::Skip)
    }

    fn edits(self) -> (edits: Vec<Edit>) {
        self.edits
    }
}

} // verus!
