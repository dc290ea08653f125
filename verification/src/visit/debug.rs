//! A pass that walks the whole tree and changes nothing.
use vstd::prelude::*;
use crate::syntax::{SyntaxNode, SyntaxTree};
use super::{Edit, EditModel, Visit, Visitor};

verus! {

/// Sees every node and asks for no edit: a pass with it gives back its
/// input.
pub struct DebugVisitor;

impl View for DebugVisitor {
    type V = ();

    open spec fn view(&self) -> () {
        ()
    }
}

impl Default for DebugVisitor {
    fn default() -> (v: Self) {
        DebugVisitor
    }
}

impl Visitor for DebugVisitor {
    open spec fn step(model: (), tree: Seq<SyntaxNode>, bytes: Seq<u8>, node: int) -> Option<((), Visit)> {
        Some(((), Visit::Continue))
    }

    open spec fn edits_of(model: ()) -> Seq<EditModel> {
        Seq::empty()
    }

    fn visit(&mut self, tree: &SyntaxTree, source: &str, node: usize) -> (flow: Option<Visit>) {
        Some(Visit::Continue)
    }

    fn edits(self) -> (edits: Vec<Edit>) {
        let e: Vec<Edit> = Vec::new();
        assert(super::edit_models(e@) =~= Seq::<EditModel>::empty());
        e
    }
}

} // verus!
