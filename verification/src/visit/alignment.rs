//! Long bracketed lists broken over lines, with nested lists indented
//! relative to the lines their enclosing lists are broken into.
use vstd::prelude::*;
use crate::Config;
use crate::syntax::{NodeKind, SyntaxNode, SyntaxTree, ChildFilter, named_children_of, children_of, parent_of,
    prev_sibling_of};
use crate::text::{newline_indent, spaces};
use super::{Edit, EditModel, Visit, Visitor, edit_models};
use super::first_column::{DEFAULT_LINE_LENGTH, is_list_like, list_like};

verus! {

/// How the elements of a broken list are placed.
#[derive(Clone, Copy)]
pub struct ListState {
    /// The column at which the list's elements start once it is broken.
    pub indent_width: usize,
    /// The column, in the source as it was parsed, of the element of this
    /// list that the walk is in; nested lists are indented relative to it.
    pub owning_orig_col: usize,
}

/// A node on the path from the root to the node being visited.
#[derive(Clone, Copy)]
pub struct NodeInfo {
    pub node_id: usize,
    /// Set where the node is a list that was broken over lines.
    pub list_state: Option<ListState>,
}

/// Breaks every argument list, parameter list, dictionary, list, set or tuple
/// that spans several lines or would end beyond the line length once its
/// enclosing lists are broken: each named element after the first goes on a
/// line of its own, indented to where the first element lands. A comment
/// before the closing bracket puts the bracket on a line of its own, at the
/// indentation of the list's opening.
pub struct AlignmentVisitor {
    line_length_threshold: usize,
    edits: Vec<Edit>,
    stack: Vec<NodeInfo>,
}

/// The state of an `AlignmentVisitor`.
pub struct AlignmentModel {
    pub threshold: usize,
    pub edits: Seq<EditModel>,
    pub stack: Seq<NodeInfo>,
}

impl View for AlignmentVisitor {
    type V = AlignmentModel;

    closed spec fn view(&self) -> AlignmentModel {
        AlignmentModel { threshold: self.line_length_threshold, edits: edit_models(self.edits@), stack: self.stack@ }
    }
}

impl Default for AlignmentVisitor {
    fn default() -> (v: Self)
        ensures
            v@ == (AlignmentModel { threshold: DEFAULT_LINE_LENGTH, edits: Seq::empty(), stack: Seq::empty() }),
    {
        let v = AlignmentVisitor { line_length_threshold: DEFAULT_LINE_LENGTH, edits: Vec::new(), stack: Vec::new() };
        assert(edit_models(v.edits@) =~= Seq::<EditModel>::empty());
        v
    }
}

impl AlignmentVisitor {
    /// A visitor with the configured line length, or the default one.
    pub fn new(config: &Config) -> (v: Self)
        ensures
            v@ == (AlignmentModel {
                threshold: match config.line_length {
                    Some(l) => l,
                    None => DEFAULT_LINE_LENGTH,
                },
                edits: Seq::empty(),
                stack: Seq::empty(),
            }),
    {
        let threshold = match config.line_length {
            Some(l) => l,
            None => DEFAULT_LINE_LENGTH,
        };
        let v = AlignmentVisitor { line_length_threshold: threshold, edits: Vec::new(), stack: Vec::new() };
        assert(edit_models(v.edits@) =~= Seq::<EditModel>::empty());
        v
    }
}

/// The path with its deepest entries dropped until its last entry is
/// `parent` (or it is empty).
pub open spec fn pop_to_parent(stack: Seq<NodeInfo>, parent: Option<usize>) -> Seq<NodeInfo>
    decreases stack.len(),
{
    if stack.len() == 0 {
        stack
    } else if parent == Some(stack.last().node_id) {
        stack
    } else {
        pop_to_parent(stack.drop_last(), parent)
    }
}

/// The deepest of the first `k` entries that is a broken list.
pub open spec fn nearest_list(stack: Seq<NodeInfo>, k: int) -> Option<int>
    decreases k,
{
    if k <= 0 || k > stack.len() {
        None
    } else if stack[k - 1].list_state is Some {
        Some(k - 1)
    } else {
        nearest_list(stack, k - 1)
    }
}

/// Where a named node is a direct child of the nearest broken list on the
/// path, that list now anchors nested lists at the node's column `col`.
pub open spec fn note_named_child(stack: Seq<NodeInfo>, parent: Option<usize>, col: usize) -> Seq<NodeInfo> {
    match nearest_list(stack, stack.len() as int) {
        None => stack,
        Some(k) => if parent == Some(stack[k].node_id) {
            stack.update(
                k,
                NodeInfo {
                    node_id: stack[k].node_id,
                    list_state: Some(
                        ListState { indent_width: stack[k].list_state.unwrap().indent_width, owning_orig_col: col },
                    ),
                },
            )
        } else {
            stack
        },
    }
}

/// The column at which the elements of a list whose first element is at
/// column `fcol` land: that column, or, inside a broken list, the list's
/// indentation plus the distance from the element it is in. `None` where the
/// first element lies left of that element or the sum does not fit.
pub open spec fn list_indent(stack: Seq<NodeInfo>, fcol: usize) -> Option<usize> {
    match nearest_list(stack, stack.len() as int) {
        None => Some(fcol),
        Some(k) => {
            let ls = stack[k].list_state.unwrap();
            if fcol < ls.owning_orig_col || ls.indent_width + (fcol - ls.owning_orig_col) > usize::MAX {
                None
            } else {
                Some((ls.indent_width + (fcol - ls.owning_orig_col)) as usize)
            }
        },
    }
}

pub open spec fn sat_sub(a: usize, b: usize) -> usize {
    if a >= b {
        (a - b) as usize
    } else {
        0
    }
}

/// For each of the nodes `cs` that has a previous sibling: the gap between
/// them becomes `text`.
pub open spec fn child_breaks(t: Seq<SyntaxNode>, cs: Seq<usize>, text: Seq<char>) -> Seq<EditModel>
    decreases cs.len(),
{
    if cs.len() == 0 {
        Seq::empty()
    } else {
        let r = child_breaks(t, cs.drop_last(), text);
        match prev_sibling_of(t, cs.last() as int) {
            Some(p) => r.push(EditModel { start: t[p as int].end_byte, end: t[cs.last() as int].start_byte, text }),
            None => r,
        }
    }
}

/// What the visitor does at node `node` (see `AlignmentVisitor`). `None`
/// where the indentation cannot be computed or the line length overflows.
pub open spec fn alignment_step(m: AlignmentModel, t: Seq<SyntaxNode>, node: int) -> Option<(AlignmentModel, Visit)> {
    let n = t[node];
    let par = parent_of(t, node);
    let s1 = pop_to_parent(m.stack, par);
    let s2 = if n.is_named {
        note_named_child(s1, par, n.start_column)
    } else {
        s1
    };
    let named = named_children_of(t, node);
    if !is_list_like(n.kind) {
        Some((
            AlignmentModel {
                threshold: m.threshold,
                edits: m.edits,
                stack: s2.push(NodeInfo { node_id: node as usize, list_state: None }),
            },
            Visit::Continue,
        ))
    } else if named.len() == 0 {
        Some((AlignmentModel { threshold: m.threshold, edits: m.edits, stack: s2 }, Visit::Skip))
    } else {
        let fcol = t[named[0] as int].start_column;
        match list_indent(s2, fcol) {
            None => None,
            Some(w) => {
                let effective = w + sat_sub(n.end_column, fcol);
                if effective > usize::MAX {
                    None
                } else if effective <= m.threshold && n.start_row == n.end_row {
                    Some((AlignmentModel { threshold: m.threshold, edits: m.edits, stack: s2 }, Visit::Skip))
                } else {
                    let text = seq!['\n'] + spaces(w as nat);
                    let e1 = m.edits + child_breaks(t, named.subrange(1, named.len() as int), text);
                    let closing = children_of(t, node).last();
                    let e2 = match prev_sibling_of(t, closing as int) {
                        Some(p) => if t[p as int].is_extra {
                            e1.push(
                                EditModel {
                                    start: t[p as int].end_byte,
                                    end: t[closing as int].start_byte,
                                    text: seq!['\n'] + spaces(sat_sub(w, sat_sub(fcol, n.start_column)) as nat),
                                },
                            )
                        } else {
                            e1
                        },
                        None => e1,
                    };
                    Some((
                        AlignmentModel {
                            threshold: m.threshold,
                            edits: e2,
                            stack: s2.push(
                                NodeInfo {
                                    node_id: node as usize,
                                    list_state: Some(ListState { indent_width: w, owning_orig_col: fcol }),
                                },
                            ),
                        },
                        Visit::Continue,
                    ))
                }
            },
        }
    }
}

proof fn lemma_nearest_list_bounds(stack: Seq<NodeInfo>, k: int)
    ensures
        nearest_list(stack, k) matches Some(j) ==> 0 <= j < k && stack[j].list_state is Some,
    decreases k,
{
    if 0 < k <= stack.len() && stack[k - 1].list_state is None {
        lemma_nearest_list_bounds(stack, k - 1);
    }
}

fn is_parent(parent: Option<usize>, id: usize) -> (b: bool)
    ensures
        b == (parent == Some(id)),
{
    match parent {
        Some(p) => p == id,
        None => false,
    }
}

fn find_nearest_list(stack: &Vec<NodeInfo>) -> (found: Option<usize>)
    ensures
        found is None <==> nearest_list(stack@, stack@.len() as int) is None,
        found matches Some(j) ==> nearest_list(stack@, stack@.len() as int) == Some(j as int),
        found matches Some(j) ==> j < stack@.len() && stack@[j as int].list_state is Some,
        nearest_list(stack@, stack@.len() as int) matches Some(j) ==> 0 <= j < stack@.len(),
{
    proof {
        lemma_nearest_list_bounds(stack@, stack@.len() as int);
    }
    let mut k = stack.len();
    while k > 0
        invariant
            k <= stack@.len(),
            nearest_list(stack@, stack@.len() as int) == nearest_list(stack@, k as int),
        decreases k,
    {
        if stack[k - 1].list_state.is_some() {
            return Some(k - 1);
        }
        k = k - 1;
    }
    None
}

impl AlignmentVisitor {
    fn pop_to(&mut self, parent: Option<usize>)
        ensures
            final(self)@ == (AlignmentModel { stack: pop_to_parent(old(self)@.stack, parent), ..old(self)@ }),
    {
        while self.stack.len() > 0 && !is_parent(parent, self.stack[self.stack.len() - 1].node_id)
            invariant
                pop_to_parent(old(self)@.stack, parent) == pop_to_parent(self@.stack, parent),
                self@.threshold == old(self)@.threshold,
                self@.edits == old(self)@.edits,
            decreases self.stack@.len(),
        {
            self.stack.pop();
        }
    }

    fn note_child(&mut self, parent: Option<usize>, col: usize)
        ensures
            final(self)@ == (AlignmentModel { stack: note_named_child(old(self)@.stack, parent, col), ..old(self)@ }),
    {
        match find_nearest_list(&self.stack) {
            None => {},
            Some(k) => {
                let frame = self.stack[k];
                if is_parent(parent, frame.node_id) {
                    let ls = frame.list_state.unwrap();
                    let updated = NodeInfo {
                        node_id: frame.node_id,
                        list_state: Some(ListState { indent_width: ls.indent_width, owning_orig_col: col }),
                    };
                    self.stack.set(k, updated);
                }
            },
        }
    }

    fn indent_for(&self, fcol: usize) -> (w: Option<usize>)
        ensures
            w == list_indent(self@.stack, fcol),
    {
        match find_nearest_list(&self.stack) {
            None => Some(fcol),
            Some(k) => {
                let ls = self.stack[k].list_state.unwrap();
                if fcol < ls.owning_orig_col {
                    None
                } else {
                    ls.indent_width.checked_add(fcol - ls.owning_orig_col)
                }
            },
        }
    }
}

impl Visitor for AlignmentVisitor {
    open spec fn step(model: AlignmentModel, tree: Seq<SyntaxNode>, bytes: Seq<u8>, node: int) -> Option<(AlignmentModel, Visit)> {
        alignment_step(model, tree, node)
    }

    open spec fn edits_of(model: AlignmentModel) -> Seq<EditModel> {
        model.edits
    }

    fn visit(&mut self, tree: &SyntaxTree, source: &str, node: usize) -> (flow: Option<Visit>) {
        let ghost t = tree@;
        let n = tree.nodes[node];
        let parent = tree.parent(node);
        self.pop_to(parent);
        if n.is_named {
            self.note_child(parent, n.start_column);
        }
        if !list_like(n.kind) {
            self.stack.push(NodeInfo { node_id: node, list_state: None });
            return Some(Visit::Continue);
        }
        let named = tree.children_where(node, ChildFilter::Named);
        if named.len() == 0 {
            return Some(Visit::Skip);
        }
        proof {
            crate::syntax::lemma_children_from_bounds(t, n.depth, node + 1, ChildFilter::Named);
        }
        let fcol = tree.nodes[named[0]].start_column;
        let w = match self.indent_for(fcol) {
            None => return None,
            Some(w) => w,
        };
        let tail = if n.end_column >= fcol { n.end_column - fcol } else { 0 };
        let effective = match w.checked_add(tail) {
            None => return None,
            Some(e) => e,
        };
        if effective <= self.line_length_threshold && n.start_row == n.end_row {
            return Some(Visit::Skip);
        }
        let indent = newline_indent(w);
        let ghost old_edits = edit_models(self.edits@);
        let mut k: usize = 1;
        while k < named.len()
            invariant
                t == tree@,
                t.len() < usize::MAX,
                named@ == named_children_of(t, node as int),
                forall|i: int| 0 <= i < named@.len() ==> (#[trigger] named@[i]) < t.len(),
                1 <= k <= named@.len(),
                self.line_length_threshold == old(self).line_length_threshold,
                self.stack@ == pre_stack(old(self)@, t, node as int),
                edit_models(self.edits@) == old_edits + child_breaks(t, named@.subrange(1, k as int), indent@),
            decreases named@.len() - k,
        {
            let c = named[k];
            assert(named@.subrange(1, k + 1).drop_last() =~= named@.subrange(1, k as int));
            assert(named@.subrange(1, k + 1).last() == c);
            match tree.prev_sibling(c) {
                None => {},
                Some(p) => {
                    proof {
                        crate::syntax::lemma_prev_at_depth_bounds(t, t[c as int].depth, c - 1);
                    }
                    let ghost prev = edit_models(self.edits@);
                    let e = Edit { start: tree.nodes[p].end_byte, end: tree.nodes[c].start_byte, new_text: indent.clone() };
                    self.edits.push(e);
                    assert(edit_models(self.edits@) =~= prev.push(e@));
                },
            }
            k = k + 1;
        }
        let kids = tree.children_where(node, ChildFilter::All);
        proof {
            crate::syntax::lemma_named_children_nonempty(t, n.depth, node + 1, ChildFilter::Named);
            crate::syntax::lemma_children_from_bounds(t, n.depth, node + 1, ChildFilter::All);
        }
        let closing = kids[kids.len() - 1];
        match tree.prev_sibling(closing) {
            None => {},
            Some(p) => {
                proof {
                    crate::syntax::lemma_prev_at_depth_bounds(t, t[closing as int].depth, closing - 1);
                }
                if tree.nodes[p].is_extra {
                    let distance = if fcol >= n.start_column { fcol - n.start_column } else { 0 };
                    let base = if w >= distance { w - distance } else { 0 };
                    let ghost prev = edit_models(self.edits@);
                    let e = Edit { start: tree.nodes[p].end_byte, end: tree.nodes[closing].start_byte, new_text: newline_indent(base) };
                    self.edits.push(e);
                    assert(edit_models(self.edits@) =~= prev.push(e@));
                }
            },
        }
        self.stack.push(NodeInfo { node_id: node, list_state: Some(ListState { indent_width: w, owning_orig_col: fcol }) });
        Some(Visit::Continue)
    }

    fn edits(self) -> (edits: Vec<Edit>) {
        self.edits
    }
}

/// The path after the visitor has seen node `node`, before the node itself
/// is pushed.
pub open spec fn pre_stack(m: AlignmentModel, t: Seq<SyntaxNode>, node: int) -> Seq<NodeInfo> {
    let par = parent_of(t, node);
    let s1 = pop_to_parent(m.stack, par);
    if t[node].is_named {
        note_named_child(s1, par, t[node].start_column)
    } else {
        s1
    }
}

} // verus!
