//! What each formatting pass does at a node, stated over the node, its
//! neighbours in the tree and the source bytes.
use vstd::prelude::*;
use crate::syntax::{NodeKind, SyntaxNode, ChildFilter, named_children_of, next_sibling_of, prev_sibling_of, parent_of,
    tree_of_text, span_fits, lemma_children_from_bounds};
use crate::visit::{EditModel, Visit, Visitor};
use crate::visit::spacing::SpacingVisitor;
use crate::visit::quotes::QuotesVisitor;
use crate::visit::parens::ParensVisitor;
use crate::visit::column::{Column, ColumnAlignment, RowModel, columns_of, span_len, max_width, padded_text};
use crate::visit::alignment::{AlignmentModel, AlignmentVisitor, ListState, NodeInfo, child_breaks, nearest_list,
    pop_to_parent};
use crate::text::spaces;

verus! {

/// The node is an opening bracket: `(`, `[` or `{`.
pub open spec fn opens(k: NodeKind) -> bool {
    k == NodeKind::OpenParen || k == NodeKind::OpenBracket || k == NodeKind::OpenBrace
}

/// The node is a closing bracket: `)`, `]` or `}`.
pub open spec fn closes(k: NodeKind) -> bool {
    k == NodeKind::CloseParen || k == NodeKind::CloseBracket || k == NodeKind::CloseBrace
}

/// The node's parent is not an interpolation of a formatted string.
pub open spec fn outside_interpolation(t: Seq<SyntaxNode>, node: int) -> bool {
    match parent_of(t, node) {
        None => true,
        Some(p) => t[p as int].kind != NodeKind::Interpolation,
    }
}

/// One space between the bytes `start` and `end`.
pub open spec fn one_space_between(start: usize, end: usize) -> EditModel {
    EditModel { start, end, text: seq![' '] }
}

/// An opening bracket of any kind, outside an interpolation, that is
/// followed by something other than a closing bracket gets exactly one
/// space after it.
pub proof fn law_space_after_opening_bracket(m: Seq<EditModel>, t: Seq<SyntaxNode>, bytes: Seq<u8>, node: int, next: usize)
    requires
        0 <= node < t.len(),
        opens(t[node].kind),
        outside_interpolation(t, node),
        next_sibling_of(t, node) == Some(next),
        !closes(t[next as int].kind),
    ensures
        SpacingVisitor::step(m, t, bytes, node) == Some(
            (m.push(one_space_between(t[node].end_byte, t[next as int].start_byte)), Visit::Continue),
        ),
{
}

/// A closing bracket of any kind, outside an interpolation, after something
/// other than an opening bracket, a comma or a comment gets exactly one space
/// before it.
pub proof fn law_space_before_closing_bracket(m: Seq<EditModel>, t: Seq<SyntaxNode>, bytes: Seq<u8>, node: int, prev: usize)
    requires
        0 <= node < t.len(),
        closes(t[node].kind),
        outside_interpolation(t, node),
        prev_sibling_of(t, node) == Some(prev),
        !opens(t[prev as int].kind),
        t[prev as int].kind != NodeKind::Comma,
        !t[prev as int].is_extra,
    ensures
        SpacingVisitor::step(m, t, bytes, node) == Some(
            (m.push(one_space_between(t[prev as int].end_byte, t[node].start_byte)), Visit::Continue),
        ),
{
}

/// A closing bracket after an opening bracket, a comma or a comment gets no
/// edit: empty brackets stay empty, and a bracket stays off a comment's line.
pub proof fn law_no_space_before_closing_bracket(m: Seq<EditModel>, t: Seq<SyntaxNode>, bytes: Seq<u8>, node: int, prev: usize)
    requires
        0 <= node < t.len(),
        closes(t[node].kind),
        prev_sibling_of(t, node) == Some(prev),
        opens(t[prev as int].kind) || t[prev as int].kind == NodeKind::Comma || t[prev as int].is_extra,
    ensures
        SpacingVisitor::step(m, t, bytes, node) == Some((m, Visit::Continue)),
{
}

/// A comma outside an interpolation that has something after it gets
/// exactly one space after it.
pub proof fn law_space_after_comma(m: Seq<EditModel>, t: Seq<SyntaxNode>, bytes: Seq<u8>, node: int, next: usize)
    requires
        0 <= node < t.len(),
        t[node].kind == NodeKind::Comma,
        outside_interpolation(t, node),
        next_sibling_of(t, node) == Some(next),
    ensures
        SpacingVisitor::step(m, t, bytes, node) == Some(
            (m.push(one_space_between(t[node].end_byte, t[next as int].start_byte)), Visit::Continue),
        ),
{
}

/// A node that is neither a bracket nor a comma gets no edit, and the walk
/// goes on into it.
pub proof fn law_spacing_leaves_other_nodes(m: Seq<EditModel>, t: Seq<SyntaxNode>, bytes: Seq<u8>, node: int)
    requires
        0 <= node < t.len(),
        !opens(t[node].kind),
        !closes(t[node].kind),
        t[node].kind != NodeKind::Comma,
    ensures
        SpacingVisitor::step(m, t, bytes, node) == Some((m, Visit::Continue)),
{
}

/// One single quote in place of the bytes `start..end`.
pub open spec fn single_quote_over(start: usize, end: usize) -> EditModel {
    EditModel { start, end, text: seq!['\''] }
}

/// A string literal, whatever its prefix, whose opening delimiter does not
/// end with three double quotes and whose text holds no single quote: the
/// last byte of its opening delimiter and its closing delimiter each become a
/// single quote, and the walk does not go into it.
pub proof fn law_quotes_become_single(m: Seq<EditModel>, t: Seq<SyntaxNode>, bytes: Seq<u8>, node: int)
    requires
        tree_of_text(t, bytes),
        0 <= node < t.len(),
        t[node].kind == NodeKind::StringLiteral,
        named_children_of(t, node).len() > 0,
        ({
            let open = t[named_children_of(t, node)[0] as int];
            &&& open.end_byte > 0
            &&& !(open.end_byte >= open.start_byte + 3 && bytes[open.end_byte - 1] == 0x22u8
                && bytes[open.end_byte - 2] == 0x22u8 && bytes[open.end_byte - 3] == 0x22u8)
        }),
        forall|k: int| t[node].start_byte <= k < t[node].end_byte ==> bytes[k] != 0x27u8,
    ensures
        ({
            let open = t[named_children_of(t, node)[0] as int];
            let close = t[named_children_of(t, node).last() as int];
            QuotesVisitor::step(m, t, bytes, node) == Some(
                (
                    m.push(single_quote_over((open.end_byte - 1) as usize, open.end_byte)).push(
                        single_quote_over(close.start_byte, close.end_byte),
                    ),
                    Visit::Skip,
                ),
            )
        }),
{
    let named = named_children_of(t, node);
    lemma_children_from_bounds(t, t[node].depth, node + 1, ChildFilter::Named);
    let oi = named[0] as int;
    assert(named[0] == named[0]);
    assert(span_fits(t, bytes, oi));
    assert(span_fits(t, bytes, node));
    let open = t[oi];
    let ob = bytes.subrange(open.start_byte as int, open.end_byte as int);
    if ob.len() >= 3 {
        assert(ob[ob.len() - 1] == bytes[open.end_byte - 1]);
        assert(ob[ob.len() - 2] == bytes[open.end_byte - 2]);
        assert(ob[ob.len() - 3] == bytes[open.end_byte - 3]);
    }
    let nb = bytes.subrange(t[node].start_byte as int, t[node].end_byte as int);
    assert forall|k: int| 0 <= k < nb.len() implies nb[k] != 0x27u8 by {
        assert(nb[k] == bytes[t[node].start_byte + k]);
    }
}

/// A string literal whose text holds a single quote gets no edit, and the
/// walk does not go into it.
pub proof fn law_quotes_kept_around_single_quote(m: Seq<EditModel>, t: Seq<SyntaxNode>, bytes: Seq<u8>, node: int, k: int)
    requires
        tree_of_text(t, bytes),
        0 <= node < t.len(),
        t[node].kind == NodeKind::StringLiteral,
        named_children_of(t, node).len() > 0,
        t[node].start_byte <= k < t[node].end_byte,
        bytes[k] == 0x27u8,
    ensures
        QuotesVisitor::step(m, t, bytes, node) == Some((m, Visit::Skip)),
{
    assert(span_fits(t, bytes, node));
    let nb = bytes.subrange(t[node].start_byte as int, t[node].end_byte as int);
    assert(nb[k - t[node].start_byte] == 0x27u8);
}

proof fn lemma_max_width(t: Seq<SyntaxNode>, rows: Seq<RowModel>, col: int, k: int)
    requires
        0 <= k <= rows.len(),
    ensures
        forall|r: int| 0 <= r < k ==> span_len(t, (#[trigger] rows[r]).elements[col]) <= max_width(t, rows, col, k),
        max_width(t, rows, col, k) > 0 ==> exists|r: int| 0 <= r < k && span_len(t, (#[trigger] rows[r]).elements[col]) == max_width(t, rows, col, k),
    decreases k,
{
    if k > 0 {
        lemma_max_width(t, rows, col, k - 1);
        let w = span_len(t, rows[k - 1].elements[col]);
        if w > max_width(t, rows, col, k - 1) {
            assert(w == max_width(t, rows, col, k));
        } else if max_width(t, rows, col, k - 1) > 0 {
            let r = choose|r: int| 0 <= r < k - 1 && span_len(t, (#[trigger] rows[r]).elements[col]) == max_width(t, rows, col, k - 1);
            assert(0 <= r < k && span_len(t, rows[r].elements[col]) == max_width(t, rows, col, k));
        }
    }
}

/// Each column of a table is as wide as the widest of its cells over all the
/// rows, the first one included, and at least one byte wide: no cell is
/// wider than its column, and a column wider than one byte has a cell of its
/// width.
pub proof fn law_columns_fit_their_widest_cells(t: Seq<SyntaxNode>, rows: Seq<RowModel>)
    requires
        rows.len() > 0,
        forall|r: int| 0 <= r < rows.len() ==> (#[trigger] rows[r]).elements.len() == rows[0].elements.len(),
        forall|r: int, c: int| 0 <= r < rows.len() && 0 <= c < rows[0].elements.len()
            ==> #[trigger] span_len(t, rows[r].elements[c]) <= usize::MAX,
    ensures
        columns_of(t, rows).len() == rows[0].elements.len(),
        forall|c: int| 0 <= c < rows[0].elements.len() ==> {
            let w = (#[trigger] columns_of(t, rows)[c]).width;
            &&& w >= 1
            &&& forall|r: int| 0 <= r < rows.len() ==> span_len(t, (#[trigger] rows[r]).elements[c]) <= w
            &&& w > 1 ==> exists|r: int| 0 <= r < rows.len() && span_len(t, (#[trigger] rows[r]).elements[c]) == w
        },
{
    assert forall|c: int| 0 <= c < rows[0].elements.len() implies {
        let w = (#[trigger] columns_of(t, rows)[c]).width;
        &&& w >= 1
        &&& forall|r: int| 0 <= r < rows.len() ==> span_len(t, (#[trigger] rows[r]).elements[c]) <= w
        &&& w > 1 ==> exists|r: int| 0 <= r < rows.len() && span_len(t, (#[trigger] rows[r]).elements[c]) == w
    } by {
        lemma_max_width(t, rows, c, rows.len() as int);
        let mw = max_width(t, rows, c, rows.len() as int);
        if mw > 0 {
            let r0 = choose|r: int| 0 <= r < rows.len() && span_len(t, (#[trigger] rows[r]).elements[c]) == mw;
            assert(span_len(t, rows[r0].elements[c]) <= usize::MAX);
        }
    }
}


proof fn lemma_child_breaks_has(t: Seq<SyntaxNode>, cs: Seq<usize>, text: Seq<char>, j: int)
    requires
        0 <= j < cs.len(),
        prev_sibling_of(t, cs[j] as int) is Some,
    ensures
        child_breaks(t, cs, text).contains(
            EditModel {
                start: t[prev_sibling_of(t, cs[j] as int)->0 as int].end_byte,
                end: t[cs[j] as int].start_byte,
                text,
            },
        ),
    decreases cs.len(),
{
    let r = child_breaks(t, cs.drop_last(), text);
    if j < cs.len() - 1 {
        assert(cs.drop_last()[j] == cs[j]);
        lemma_child_breaks_has(t, cs.drop_last(), text, j);
        let e = choose|i: int| 0 <= i < r.len() && r[i] == EditModel {
            start: t[prev_sibling_of(t, cs[j] as int)->0 as int].end_byte,
            end: t[cs[j] as int].start_byte,
            text,
        };
        match prev_sibling_of(t, cs.last() as int) {
            Some(p) => {
                assert(child_breaks(t, cs, text)[e] == r[e]);
            },
            None => {},
        }
    } else {
        let out = child_breaks(t, cs, text);
        assert(out[out.len() - 1] == out.last());
    }
}

/// A list that the alignment pass breaks over lines: its elements after the
/// first each go on a line of their own, indented by the same number of
/// spaces, the column where the first element lands. Outside any broken list
/// that is the first element's own column; inside one, it is the enclosing
/// list's indentation plus the distance from the column of the enclosing
/// list's element to the first element's column. The list records that
/// indentation and its first element's column for the lists nested in it.
pub proof fn law_broken_list_indent(m: AlignmentModel, t: Seq<SyntaxNode>, bytes: Seq<u8>, node: int, m2: AlignmentModel)
    requires
        0 <= node < t.len(),
        AlignmentVisitor::step(m, t, bytes, node) == Some((m2, Visit::Continue)),
        m2.stack.len() > 0,
        m2.stack.last().list_state is Some,
    ensures
        named_children_of(t, node).len() > 0,
        ({
            let named = named_children_of(t, node);
            let fcol = t[named[0] as int].start_column;
            let ls = m2.stack.last().list_state->0;
            let below = m2.stack.drop_last();
            &&& m2.stack.last().node_id == node as usize
            &&& ls.owning_orig_col == fcol
            &&& ls.indent_width == match nearest_list(below, below.len() as int) {
                None => fcol as int,
                Some(k) => below[k].list_state->0.indent_width + (fcol - below[k].list_state->0.owning_orig_col),
            }
            &&& forall|j: int| 1 <= j < named.len() && prev_sibling_of(t, named[j] as int) is Some
                ==> m2.edits.contains(
                    EditModel {
                        start: t[prev_sibling_of(t, #[trigger] named[j] as int)->0 as int].end_byte,
                        end: t[named[j] as int].start_byte,
                        text: seq!['\n'] + spaces(ls.indent_width as nat),
                    },
                )
        }),
{
    let named = named_children_of(t, node);
    let fcol = t[named[0] as int].start_column;
    let ls = m2.stack.last().list_state->0;
    let w = ls.indent_width;
    let n = t[node];
    let par = parent_of(t, node);
    let s1 = pop_to_parent(m.stack, par);
    let s2 = if n.is_named {
        crate::visit::alignment::note_named_child(s1, par, n.start_column)
    } else {
        s1
    };
    assert(crate::visit::first_column::is_list_like(n.kind));
    assert(named.len() > 0);
    assert(crate::visit::alignment::list_indent(s2, fcol) == Some(w));
    assert(m2.stack.drop_last() =~= s2);
    assert(m2.stack.last().node_id == node as usize);
    assert(ls.owning_orig_col == fcol);
    let text = seq!['\n'] + spaces(w as nat);
    let cs = named.subrange(1, named.len() as int);
    let e1 = m.edits + child_breaks(t, cs, text);
    assert forall|j: int| 1 <= j < named.len() && prev_sibling_of(t, named[j] as int) is Some implies m2.edits.contains(
        EditModel {
            start: t[prev_sibling_of(t, #[trigger] named[j] as int)->0 as int].end_byte,
            end: t[named[j] as int].start_byte,
            text,
        },
    ) by {
        assert(cs[j - 1] == named[j]);
        lemma_child_breaks_has(t, cs, text, j - 1);
        let r = child_breaks(t, cs, text);
        let i = choose|i: int| 0 <= i < r.len() && r[i] == EditModel {
            start: t[prev_sibling_of(t, named[j] as int)->0 as int].end_byte,
            end: t[named[j] as int].start_byte,
            text,
        };
        assert(e1[m.edits.len() + i] == r[i]);
        if m2.edits != e1 {
            assert(m2.edits[m.edits.len() + i] == e1[m.edits.len() + i]);
        }
    }
}


proof fn lemma_pop_to(stack: Seq<NodeInfo>, p: usize, k: int)
    requires
        0 <= k < stack.len(),
        stack[k].node_id == p,
        forall|j: int| k < j < stack.len() ==> (#[trigger] stack[j]).node_id != p,
    ensures
        pop_to_parent(stack, Some(p)) == stack.take(k + 1),
    decreases stack.len(),
{
    if stack.len() == k + 1 {
        assert(stack.take(k + 1) =~= stack);
    } else {
        assert(stack.last() == stack[stack.len() - 1]);
        lemma_pop_to(stack.drop_last(), p, k);
        assert(stack.drop_last().take(k + 1) =~= stack.take(k + 1));
    }
}

/// When the walk reaches a named element of a broken list, whatever it walked
/// through before, that list's indentation stays and the column it anchors
/// nested lists at becomes the element's column.
pub proof fn law_element_anchors_its_list(m: AlignmentModel, t: Seq<SyntaxNode>, bytes: Seq<u8>, node: int, k: int)
    requires
        0 <= node < t.len(),
        t[node].is_named,
        parent_of(t, node) matches Some(p) && 0 <= k < m.stack.len() && m.stack[k].node_id == p
            && m.stack[k].list_state is Some
            && forall|j: int| k < j < m.stack.len() ==> (#[trigger] m.stack[j]).node_id != p,
    ensures
        AlignmentVisitor::step(m, t, bytes, node) matches Some((m2, _)) ==> {
            &&& k < m2.stack.len()
            &&& m2.stack[k] == NodeInfo {
                node_id: m.stack[k].node_id,
                list_state: Some(
                    ListState {
                        indent_width: m.stack[k].list_state->0.indent_width,
                        owning_orig_col: t[node].start_column,
                    },
                ),
            }
        },
{
    let p = parent_of(t, node)->0;
    lemma_pop_to(m.stack, p, k);
    let s1 = m.stack.take(k + 1);
    assert(s1[k] == m.stack[k]);
    assert(nearest_list(s1, s1.len() as int) == Some(k));
}


/// A cell no wider than its column fills it exactly: after one space, the
/// cell's text stands at the left of the column (or at its right, for a
/// right-aligned column) and spaces fill the rest; the last cell of a row
/// gets one more space.
pub proof fn law_padded_cell_fills_its_column(text: Seq<char>, col: Column, last: bool)
    requires
        text.len() <= col.width,
    ensures
        ({
            let p = padded_text(text, col, last);
            let start = match col.alignment {
                ColumnAlignment::Left => 1int,
                ColumnAlignment::Right => 1 + col.width - text.len(),
            };
            &&& p.len() == 1 + col.width + if last { 1int } else { 0int }
            &&& p.subrange(start, start + text.len()) == text
            &&& forall|i: int| 0 <= i < p.len() && !(start <= i < start + text.len()) ==> p[i] == ' '
        }),
{
    let p = padded_text(text, col, last);
    let start = match col.alignment {
        ColumnAlignment::Left => 1int,
        ColumnAlignment::Right => 1 + col.width - text.len(),
    };
    assert(p.subrange(start, start + text.len()) =~= text);
}


proof fn lemma_pop_prefix(stack: Seq<NodeInfo>, par: Option<usize>)
    ensures
        pop_to_parent(stack, par).len() <= stack.len(),
        forall|j: int| 0 <= j < pop_to_parent(stack, par).len() ==> #[trigger] pop_to_parent(stack, par)[j] == stack[j],
    decreases stack.len(),
{
    if stack.len() > 0 && par != Some(stack.last().node_id) {
        lemma_pop_prefix(stack.drop_last(), par);
    }
}

proof fn lemma_no_list_nearest(stack: Seq<NodeInfo>, k: int)
    requires
        forall|j: int| 0 <= j < stack.len() ==> (#[trigger] stack[j]).list_state is None,
    ensures
        nearest_list(stack, k) is None,
    decreases k,
{
    if 0 < k <= stack.len() {
        lemma_no_list_nearest(stack, k - 1);
    }
}

/// A bracketed list outside any broken list stays as it is exactly when it
/// lies on one line and ends within the line length; otherwise it is broken,
/// with its elements aligned under its first one.
pub proof fn law_top_level_list_breaks_when_too_long(m: AlignmentModel, t: Seq<SyntaxNode>, bytes: Seq<u8>, node: int)
    requires
        0 <= node < t.len(),
        crate::visit::first_column::is_list_like(t[node].kind),
        named_children_of(t, node).len() > 0,
        forall|j: int| 0 <= j < m.stack.len() ==> (#[trigger] m.stack[j]).list_state is None,
        t[named_children_of(t, node)[0] as int].start_column <= t[node].end_column,
    ensures
        ({
            let fcol = t[named_children_of(t, node)[0] as int].start_column;
            let keep = t[node].start_row == t[node].end_row && t[node].end_column <= m.threshold;
            &&& AlignmentVisitor::step(m, t, bytes, node) is Some
            &&& AlignmentVisitor::step(m, t, bytes, node) matches Some((m2, f)) && {
                &&& keep ==> f == Visit::Skip && m2.edits == m.edits
                &&& !keep ==> f == Visit::Continue && m2.stack.last().list_state == Some(
                    ListState { indent_width: fcol, owning_orig_col: fcol },
                )
            }
        }),
{
    let n = t[node];
    let par = parent_of(t, node);
    let s1 = pop_to_parent(m.stack, par);
    lemma_pop_prefix(m.stack, par);
    assert forall|j: int| 0 <= j < s1.len() implies (#[trigger] s1[j]).list_state is None by {
        assert(s1[j] == m.stack[j]);
    }
    lemma_no_list_nearest(s1, s1.len() as int);
    let s2 = if n.is_named {
        crate::visit::alignment::note_named_child(s1, par, n.start_column)
    } else {
        s1
    };
    assert(s2 == s1);
    lemma_no_list_nearest(s2, s2.len() as int);
}


/// In the parenthesis pass, a `(` followed by something other than `)` gets
/// exactly one space after it, and a `)` after something other than `(` gets
/// exactly one space before it; every other node gets no edit.
pub proof fn law_parens_are_spaced(m: Seq<EditModel>, t: Seq<SyntaxNode>, bytes: Seq<u8>, node: int)
    requires
        0 <= node < t.len(),
    ensures
        ParensVisitor::step(m, t, bytes, node) == Some(
            (
                if t[node].kind == NodeKind::OpenParen && next_sibling_of(t, node) is Some
                    && t[next_sibling_of(t, node)->0 as int].kind != NodeKind::CloseParen {
                    m.push(one_space_between(t[node].end_byte, t[next_sibling_of(t, node)->0 as int].start_byte))
                } else if t[node].kind == NodeKind::CloseParen && prev_sibling_of(t, node) is Some
                    && t[prev_sibling_of(t, node)->0 as int].kind != NodeKind::OpenParen {
                    m.push(one_space_between(t[prev_sibling_of(t, node)->0 as int].end_byte, t[node].start_byte))
                } else {
                    m
                },
                Visit::Continue,
            ),
        ),
{
}

} // verus!
