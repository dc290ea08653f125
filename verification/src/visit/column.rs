//! Lists of rows (tuples or lists of equal length) laid out as a table.
use vstd::prelude::*;
use vstd::string::StringSliceAdditionalSpecFns;
use vstd::utf8::decode_utf8;
use crate::syntax::{NodeKind, SyntaxNode, SyntaxTree, ChildFilter, children_from, named_children_of,
    children_of, prev_sibling_of, next_sibling_of, span_bytes, span_fits};
use crate::text::{spaces, repeat_space, one_space};
use super::{Edit, EditModel, Visit, Visitor, edit_models};
use super::alignment::sat_sub;

verus! {

broadcast use vstd::utf8::encode_utf8_decode_utf8;

/// A row of a table: its elements, and the comment that follows it.
pub struct Row {
    pub elements: Vec<usize>,
    pub trailing_comment: Option<usize>,
}

pub struct RowModel {
    pub elements: Seq<usize>,
    pub trailing_comment: Option<usize>,
}

impl View for Row {
    type V = RowModel;

    open spec fn view(&self) -> RowModel {
        RowModel { elements: self.elements@, trailing_comment: self.trailing_comment }
    }
}

pub open spec fn row_models(rows: Seq<Row>) -> Seq<RowModel> {
    rows.map_values(|r: Row| r@)
}

/// The rows of a table are all tuples or all lists, with the same number of
/// named elements, and at least one.
pub open spec fn rows_uniform(t: Seq<SyntaxNode>, rs: Seq<usize>) -> bool {
    let kind = t[rs[0] as int].kind;
    let ncols = named_children_of(t, rs[0] as int).len();
    &&& kind == NodeKind::Tuple || kind == NodeKind::List
    &&& forall|k: int| 0 <= k < rs.len() ==> t[#[trigger] rs[k] as int].kind == kind
    &&& forall|k: int| 0 <= k < rs.len() ==> named_children_of(t, #[trigger] rs[k] as int).len() == ncols
    &&& ncols > 0
}

/// The comment that follows a row: scanning the row's later siblings (those
/// at depth `dr`) from position `j` up to the next row, the one extra node
/// among them. `None` where there are two.
pub open spec fn trailing_comment_from(t: Seq<SyntaxNode>, rows: Seq<usize>, dr: usize, j: int, found: Option<usize>) -> Option<Option<usize>>
    decreases t.len() - j,
{
    if j < 0 || j >= t.len() || t[j].depth < dr {
        Some(found)
    } else if t[j].depth > dr {
        trailing_comment_from(t, rows, dr, j + 1, found)
    } else if rows.contains(j as usize) {
        Some(found)
    } else if t[j].is_extra {
        if found is Some {
            None
        } else {
            trailing_comment_from(t, rows, dr, j + 1, Some(j as usize))
        }
    } else {
        trailing_comment_from(t, rows, dr, j + 1, found)
    }
}

/// The comment after row `r` of the rows `rows`.
pub open spec fn trailing_comment_of(t: Seq<SyntaxNode>, rows: Seq<usize>, r: usize) -> Option<Option<usize>> {
    trailing_comment_from(t, rows, t[r as int].depth, r + 1, None)
}

/// The rows of node `node` as a table: its named children that are not
/// comments, each with its named elements and trailing comment. `None` where
/// they do not form a table or a row has two trailing comments.
pub open spec fn rows_of(t: Seq<SyntaxNode>, node: int) -> Option<Seq<RowModel>> {
    let rs = children_from(t, t[node].depth, node + 1, ChildFilter::NamedNotExtra);
    if rs.len() == 0 || !rows_uniform(t, rs) {
        None
    } else if exists|k: int| 0 <= k < rs.len() && (#[trigger] trailing_comment_of(t, rs, rs[k])) is None {
        None
    } else {
        Some(
            Seq::new(
                rs.len(),
                |k: int|
                    RowModel {
                        elements: named_children_of(t, rs[k] as int),
                        trailing_comment: trailing_comment_of(t, rs, rs[k]).unwrap(),
                    },
            ),
        )
    }
}

fn contains(v: &Vec<usize>, x: usize) -> (b: bool)
    ensures
        b == v@.contains(x),
{
    let mut i: usize = 0;
    while i < v.len()
        invariant
            i <= v@.len(),
            forall|k: int| 0 <= k < i ==> v@[k] != x,
        decreases v@.len() - i,
    {
        if v[i] == x {
            assert(v@[i as int] == x);
            return true;
        }
        i = i + 1;
    }
    false
}

fn find_trailing_comment(tree: &SyntaxTree, rows: &Vec<usize>, r: usize) -> (c: Option<Option<usize>>)
    requires
        r < tree@.len(),
        tree@.len() < usize::MAX,
    ensures
        c == trailing_comment_of(tree@, rows@, r),
{
    let dr = tree.nodes[r].depth;
    let n = tree.nodes.len();
    let mut found: Option<usize> = None;
    let mut j = r + 1;
    while j < n
        invariant
            r < j <= n == tree@.len(),
            dr == tree@[r as int].depth,
            trailing_comment_of(tree@, rows@, r) == trailing_comment_from(tree@, rows@, dr, j as int, found),
        decreases n - j,
    {
        let node = tree.nodes[j];
        if node.depth < dr {
            return Some(found);
        }
        if node.depth == dr {
            if contains(rows, j) {
                return Some(found);
            }
            if node.is_extra {
                if found.is_some() {
                    return None;
                }
                found = Some(j);
            }
        }
        j = j + 1;
    }
    Some(found)
}

fn uniform_rows(tree: &SyntaxTree, rs: &Vec<usize>) -> (ok: bool)
    requires
        rs@.len() > 0,
        forall|k: int| 0 <= k < rs@.len() ==> (#[trigger] rs@[k]) < tree@.len(),
        tree@.len() < usize::MAX,
    ensures
        ok == rows_uniform(tree@, rs@),
{
    let kind = tree.nodes[rs[0]].kind;
    if !(kind == NodeKind::Tuple || kind == NodeKind::List) {
        return false;
    }
    let ncols = tree.children_where(rs[0], ChildFilter::Named).len();
    let mut k: usize = 0;
    while k < rs.len()
        invariant
            k <= rs@.len(),
            forall|i: int| 0 <= i < rs@.len() ==> (#[trigger] rs@[i]) < tree@.len(),
            kind == tree@[rs@[0] as int].kind,
            ncols == named_children_of(tree@, rs@[0] as int).len(),
            forall|i: int| 0 <= i < k ==> tree@[#[trigger] rs@[i] as int].kind == kind,
            forall|i: int| 0 <= i < k ==> named_children_of(tree@, #[trigger] rs@[i] as int).len() == ncols,
        decreases rs@.len() - k,
    {
        let r = rs[k];
        if tree.nodes[r].kind != kind {
            assert(tree@[rs@[k as int] as int].kind != kind);
            return false;
        }
        if tree.children_where(r, ChildFilter::Named).len() != ncols {
            assert(named_children_of(tree@, rs@[k as int] as int).len() != ncols);
            return false;
        }
        k = k + 1;
    }
    ncols > 0
}

/// The rows of node `node` as a table (see `rows_of`).
pub fn collect_rows(tree: &SyntaxTree, node: usize) -> (rows: Option<Vec<Row>>)
    requires
        node < tree@.len(),
        tree@.len() < usize::MAX,
    ensures
        match rows_of(tree@, node as int) {
            None => rows is None,
            Some(rm) => rows matches Some(r) && row_models(r@) == rm,
        },
{
    let ghost t = tree@;
    let rs = tree.children_where(node, ChildFilter::NamedNotExtra);
    proof {
        crate::syntax::lemma_children_from_bounds(t, t[node as int].depth, node + 1, ChildFilter::NamedNotExtra);
    }
    if rs.len() == 0 {
        return None;
    }
    if !uniform_rows(tree, &rs) {
        return None;
    }
    let mut rows: Vec<Row> = Vec::new();
    let mut k: usize = 0;
    while k < rs.len()
        invariant
            t == tree@,
            t.len() < usize::MAX,
            rs@ == children_from(t, t[node as int].depth, node + 1, ChildFilter::NamedNotExtra),
            forall|i: int| 0 <= i < rs@.len() ==> (#[trigger] rs@[i]) < t.len(),
            k <= rs@.len(),
            rows@.len() == k,
            forall|i: int| 0 <= i < k ==> (#[trigger] trailing_comment_of(t, rs@, rs@[i])) is Some,
            forall|i: int| 0 <= i < k ==> (#[trigger] rows@[i])@ == (RowModel {
                elements: named_children_of(t, rs@[i] as int),
                trailing_comment: trailing_comment_of(t, rs@, rs@[i]).unwrap(),
            }),
        decreases rs@.len() - k,
    {
        let r = rs[k];
        let comment = match find_trailing_comment(tree, &rs, r) {
            None => {
                assert(trailing_comment_of(t, rs@, rs@[k as int]) is None);
                return None;
            },
            Some(c) => c,
        };
        let elements = tree.children_where(r, ChildFilter::Named);
        rows.push(Row { elements, trailing_comment: comment });
        k = k + 1;
    }
    assert(row_models(rows@) =~= rows_of(t, node as int).unwrap());
    Some(rows)
}


proof fn lemma_trailing_bounds(t: Seq<SyntaxNode>, rows: Seq<usize>, dr: usize, j: int, found: Option<usize>)
    requires
        t.len() < usize::MAX,
        found matches Some(c) ==> c < t.len(),
    ensures
        trailing_comment_from(t, rows, dr, j, found) matches Some(Some(c)) ==> c < t.len(),
    decreases t.len() - j,
{
    if j < 0 || j >= t.len() || t[j].depth < dr {
    } else if t[j].depth > dr {
        lemma_trailing_bounds(t, rows, dr, j + 1, found);
    } else if rows.contains(j as usize) {
    } else if t[j].is_extra {
        if found is None {
            lemma_trailing_bounds(t, rows, dr, j + 1, Some(j as usize));
        }
    } else {
        lemma_trailing_bounds(t, rows, dr, j + 1, found);
    }
}

/// The rows of a table lie in the tree and have the same number of
/// elements, at least one.
pub proof fn lemma_rows_shape(t: Seq<SyntaxNode>, node: int)
    requires
        0 <= node < t.len() < usize::MAX,
    ensures
        rows_of(t, node) matches Some(rows) ==> {
            &&& rows.len() > 0
            &&& rows[0].elements.len() > 0
            &&& forall|k: int| 0 <= k < rows.len() ==> (#[trigger] rows[k]).elements.len() == rows[0].elements.len()
            &&& forall|k: int, i: int| 0 <= k < rows.len() && 0 <= i < rows[k].elements.len() ==> (#[trigger] rows[k].elements[i]) < t.len()
            &&& forall|k: int| 0 <= k < rows.len() ==> ((#[trigger] rows[k]).trailing_comment matches Some(c) ==> c < t.len())
        },
{
    let rs = children_from(t, t[node].depth, node + 1, ChildFilter::NamedNotExtra);
    crate::syntax::lemma_children_from_bounds(t, t[node].depth, node + 1, ChildFilter::NamedNotExtra);
    if let Some(rows) = rows_of(t, node) {
        assert(rows_uniform(t, rs));
        assert forall|k: int, i: int| 0 <= k < rows.len() && 0 <= i < rows[k].elements.len() implies (#[trigger] rows[k].elements[i]) < t.len() by {
            let r = rs[k];
            crate::syntax::lemma_children_from_bounds(t, t[r as int].depth, r + 1, ChildFilter::Named);
        }
        assert forall|k: int| 0 <= k < rows.len() implies ((#[trigger] rows[k]).trailing_comment matches Some(c) ==> c < t.len()) by {
            lemma_trailing_bounds(t, rs, t[rs[k] as int].depth, rs[k] + 1, None);
        }
        assert forall|k: int| 0 <= k < rows.len() implies (#[trigger] rows[k]).elements.len() == rows[0].elements.len() by {
            assert(named_children_of(t, rs[k] as int).len() == named_children_of(t, rs[0] as int).len());
        }
    }
}

/// How a cell's text is placed in its column.
#[derive(Clone, Copy, PartialEq, Eq, Structural, Debug)]
pub enum ColumnAlignment {
    Left,
    Right,
}

/// A column of a table: its width in bytes, and how cells are placed in it.
#[derive(Clone, Copy)]
pub struct Column {
    pub width: usize,
    pub alignment: ColumnAlignment,
}

/// The byte length of node `e`'s text.
pub open spec fn span_len(t: Seq<SyntaxNode>, e: usize) -> int {
    t[e as int].end_byte - t[e as int].start_byte
}

/// The widest cell of column `col` among the first `k` rows, in bytes.
pub open spec fn max_width(t: Seq<SyntaxNode>, rows: Seq<RowModel>, col: int, k: int) -> int
    decreases k,
{
    if k <= 0 {
        0
    } else {
        let w = span_len(t, rows[k - 1].elements[col]);
        let m = max_width(t, rows, col, k - 1);
        if w > m {
            w
        } else {
            m
        }
    }
}

/// The columns of a table: as wide as their widest cell, and at least one
/// byte; all left-aligned.
pub open spec fn columns_of(t: Seq<SyntaxNode>, rows: Seq<RowModel>) -> Seq<Column> {
    Seq::new(
        rows[0].elements.len(),
        |c: int|
            Column {
                width: if max_width(t, rows, c, rows.len() as int) > 1 {
                    max_width(t, rows, c, rows.len() as int) as usize
                } else {
                    1
                },
                alignment: ColumnAlignment::Left,
            },
    )
}

proof fn lemma_max_width_bound(t: Seq<SyntaxNode>, bytes: Seq<u8>, rows: Seq<RowModel>, col: int, k: int)
    requires
        bytes.len() <= usize::MAX,
        0 <= k <= rows.len(),
        forall|i: int| 0 <= i < t.len() ==> #[trigger] span_fits(t, bytes, i),
        forall|r: int| 0 <= r < rows.len() ==> 0 <= col < (#[trigger] rows[r]).elements.len() && rows[r].elements[col] < t.len(),
    ensures
        0 <= max_width(t, rows, col, k) <= usize::MAX,
    decreases k,
{
    if k > 0 {
        lemma_max_width_bound(t, bytes, rows, col, k - 1);
        let e = rows[k - 1].elements[col];
        assert(span_fits(t, bytes, e as int));
    }
}

/// A cell's text padded to the column's width in characters, after one
/// space; the last cell of a row gets one more space.
pub open spec fn padded_text(text: Seq<char>, col: Column, last: bool) -> Seq<char> {
    let fill = spaces(if col.width > text.len() { (col.width - text.len()) as nat } else { 0 });
    let end = if last { seq![' '] } else { Seq::empty() };
    match col.alignment {
        ColumnAlignment::Left => seq![' '] + text + fill + end,
        ColumnAlignment::Right => seq![' '] + fill + text + end,
    }
}

/// The text of node `e`.
pub open spec fn node_chars(t: Seq<SyntaxNode>, bytes: Seq<u8>, e: usize) -> Seq<char> {
    decode_utf8(span_bytes(bytes, t[e as int]))
}

/// The edits for the first `k` cells of a row: the gap from each cell's
/// previous sibling to its next sibling becomes the padded cell. `None` where
/// a cell lacks a sibling.
pub open spec fn cell_edits(t: Seq<SyntaxNode>, bytes: Seq<u8>, elems: Seq<usize>, cols: Seq<Column>, k: int) -> Option<Seq<EditModel>>
    decreases k,
{
    if k <= 0 {
        Some(Seq::empty())
    } else {
        match cell_edits(t, bytes, elems, cols, k - 1) {
            None => None,
            Some(r) => {
                let e = elems[k - 1];
                match (prev_sibling_of(t, e as int), next_sibling_of(t, e as int)) {
                    (Some(p), Some(nx)) => Some(
                        r.push(
                            EditModel {
                                start: t[p as int].end_byte,
                                end: t[nx as int].start_byte,
                                text: padded_text(node_chars(t, bytes, e), cols[k - 1], k - 1 == cols.len() - 1),
                            },
                        ),
                    ),
                    _ => None,
                }
            },
        }
    }
}

/// The edits for one row: its cells, then, unless it is the last row, the
/// gap before its trailing comment becomes `spacing` spaces.
pub open spec fn row_edits(t: Seq<SyntaxNode>, bytes: Seq<u8>, row: RowModel, cols: Seq<Column>, last: bool, spacing: usize) -> Option<Seq<EditModel>> {
    match cell_edits(t, bytes, row.elements, cols, row.elements.len() as int) {
        None => None,
        Some(es) => match row.trailing_comment {
            Some(c) => if last {
                Some(es)
            } else {
                match prev_sibling_of(t, c as int) {
                    None => None,
                    Some(p) => Some(
                        es.push(EditModel { start: t[p as int].end_byte, end: t[c as int].start_byte, text: spaces(spacing as nat) }),
                    ),
                }
            },
            None => Some(es),
        },
    }
}

/// The edits for the first `k` rows.
pub open spec fn rows_edits(t: Seq<SyntaxNode>, bytes: Seq<u8>, rows: Seq<RowModel>, cols: Seq<Column>, spacing: usize, k: int) -> Option<Seq<EditModel>>
    decreases k,
{
    if k <= 0 {
        Some(Seq::empty())
    } else {
        match rows_edits(t, bytes, rows, cols, spacing, k - 1) {
            None => None,
            Some(r) => match row_edits(t, bytes, rows[k - 1], cols, k - 1 == rows.len() - 1, spacing) {
                None => None,
                Some(e) => Some(r + e),
            },
        }
    }
}

/// A comment after the last row moves behind the closing bracket: the gap
/// from the last element to the bracket becomes one space, and the comment
/// follows the table after `spacing` spaces less the one or two characters
/// (`,` and `]`, or only `]`) that now stand before it.
pub open spec fn last_row_edits(t: Seq<SyntaxNode>, bytes: Seq<u8>, node: int, row: RowModel, spacing: usize) -> Option<Seq<EditModel>> {
    match row.trailing_comment {
        None => Some(Seq::empty()),
        Some(c) => {
            let closing = children_of(t, node).last();
            match prev_sibling_of(t, c as int) {
                None => None,
                Some(le) => {
                    let extra: usize = if t[le as int].kind == NodeKind::Comma { 2 } else { 1 };
                    Some(
                        seq![
                            EditModel { start: t[le as int].end_byte, end: t[closing as int].start_byte, text: seq![' '] },
                            EditModel {
                                start: t[node].end_byte,
                                end: t[node].end_byte,
                                text: spaces(sat_sub(spacing, extra) as nat) + node_chars(t, bytes, c),
                            },
                        ],
                    )
                },
            }
        },
    }
}

/// The rows lie in the tree and all have the same number of elements, at
/// least one.
pub open spec fn table_shape(t: Seq<SyntaxNode>, rows: Seq<RowModel>) -> bool {
    &&& rows.len() > 0
    &&& rows[0].elements.len() > 0
    &&& forall|k: int| 0 <= k < rows.len() ==> (#[trigger] rows[k]).elements.len() == rows[0].elements.len()
    &&& forall|k: int, i: int| 0 <= k < rows.len() && 0 <= i < rows[k].elements.len() ==> (#[trigger] rows[k].elements[i]) < t.len()
    &&& forall|k: int| 0 <= k < rows.len() ==> ((#[trigger] rows[k]).trailing_comment matches Some(c) ==> c < t.len())
}

fn compute_columns(tree: &SyntaxTree, source: &str, rows: &Vec<Row>) -> (cols: Vec<Column>)
    requires
        tree.fits(source),
        table_shape(tree@, row_models(rows@)),
    ensures
        cols@ == columns_of(tree@, row_models(rows@)),
{
    let ghost t = tree@;
    let ghost rm = row_models(rows@);
    let ncols = rows[0].elements.len();
    assert(rm[0].elements.len() == ncols);
    let mut cols: Vec<Column> = Vec::new();
    let mut c: usize = 0;
    while c < ncols
        invariant
            tree.fits(source),
            t == tree@,
            rm == row_models(rows@),
            table_shape(t, rm),
            ncols == rm[0].elements.len(),
            c <= ncols,
            cols@.len() == c,
            forall|i: int| 0 <= i < c ==> #[trigger] cols@[i] == columns_of(t, rm)[i],
        decreases ncols - c,
    {
        let mut w: usize = 0;
        let mut k: usize = 0;
        while k < rows.len()
            invariant
                tree.fits(source),
                t == tree@,
                rm == row_models(rows@),
                table_shape(t, rm),
                ncols == rm[0].elements.len(),
                c < ncols,
                k <= rows@.len(),
                w == max_width(t, rm, c as int, k as int),
            decreases rows@.len() - k,
        {
            assert(rm[k as int] == rows@[k as int]@);
            assert(rm[k as int].elements.len() == ncols);
            let e = rows[k].elements[c];
            assert(rm[k as int].elements[c as int] == e);
            assert(span_fits(t, source.spec_bytes(), e as int));
            let node = tree.nodes[e];
            let len = node.end_byte - node.start_byte;
            if len > w {
                w = len;
            }
            k = k + 1;
        }
        let width = if w > 1 { w } else { 1 };
        cols.push(Column { width, alignment: ColumnAlignment::Left });
        c = c + 1;
    }
    assert(cols@ =~= columns_of(t, rm));
    cols
}

fn padded(text: &str, col: Column, last: bool) -> (s: String)
    ensures
        s@ == padded_text(text@, col, last),
{
    let n = text.unicode_len();
    let fill = repeat_space(if col.width > n { col.width - n } else { 0 });
    let mut s = one_space();
    match col.alignment {
        ColumnAlignment::Left => {
            s.append(text);
            s.append(fill.as_str());
        },
        ColumnAlignment::Right => {
            s.append(fill.as_str());
            s.append(text);
        },
    }
    if last {
        let sp = one_space();
        s.append(sp.as_str());
    }
    assert(s@ =~= padded_text(text@, col, last));
    s
}

/// Lays out a list whose rows (tuples or lists of equal length) form a
/// table: each cell is padded to its column's width, a trailing comment of
/// a row stands `column_spacing` spaces after it, and a comment after the
/// last row moves behind the closing bracket.
pub struct ColumnVisitor {
    column_spacing: usize,
    edits: Vec<Edit>,
}

pub struct ColumnModel {
    pub spacing: usize,
    pub edits: Seq<EditModel>,
}

impl View for ColumnVisitor {
    type V = ColumnModel;

    closed spec fn view(&self) -> ColumnModel {
        ColumnModel { spacing: self.column_spacing, edits: edit_models(self.edits@) }
    }
}

/// The gap between a row and its trailing comment.
pub const DEFAULT_COLUMN_SPACING: usize = 10;

impl Default for ColumnVisitor {
    fn default() -> (v: Self)
        ensures
            v@ == (ColumnModel { spacing: DEFAULT_COLUMN_SPACING, edits: Seq::empty() }),
    {
        let v = ColumnVisitor { column_spacing: DEFAULT_COLUMN_SPACING, edits: Vec::new() };
        assert(edit_models(v.edits@) =~= Seq::<EditModel>::empty());
        v
    }
}

/// What the visitor does at node `node`: a list whose rows form a table is
/// laid out as one (see `ColumnVisitor`); `None` where a cell or comment
/// lacks a sibling that the layout needs.
pub open spec fn column_step(m: ColumnModel, t: Seq<SyntaxNode>, bytes: Seq<u8>, node: int) -> Option<(ColumnModel, Visit)> {
    if t[node].kind != NodeKind::List {
        Some((m, Visit::Continue))
    } else {
        match rows_of(t, node) {
            None => Some((m, Visit::Continue)),
            Some(rows) => {
                let cols = columns_of(t, rows);
                match rows_edits(t, bytes, rows, cols, m.spacing, rows.len() as int) {
                    None => None,
                    Some(e1) => match last_row_edits(t, bytes, node, rows.last(), m.spacing) {
                        None => None,
                        Some(e2) => Some((ColumnModel { spacing: m.spacing, edits: m.edits + e1 + e2 }, Visit::Continue)),
                    },
                }
            },
        }
    }
}


proof fn lemma_cell_edits_stuck(t: Seq<SyntaxNode>, bytes: Seq<u8>, elems: Seq<usize>, cols: Seq<Column>, k: int, m: int)
    requires
        0 <= k <= m,
        cell_edits(t, bytes, elems, cols, k) is None,
    ensures
        cell_edits(t, bytes, elems, cols, m) is None,
    decreases m - k,
{
    if k < m {
        lemma_cell_edits_stuck(t, bytes, elems, cols, k, m - 1);
    }
}

proof fn lemma_rows_edits_stuck(t: Seq<SyntaxNode>, bytes: Seq<u8>, rows: Seq<RowModel>, cols: Seq<Column>, spacing: usize, k: int, m: int)
    requires
        0 <= k <= m,
        rows_edits(t, bytes, rows, cols, spacing, k) is None,
    ensures
        rows_edits(t, bytes, rows, cols, spacing, m) is None,
    decreases m - k,
{
    if k < m {
        lemma_rows_edits_stuck(t, bytes, rows, cols, spacing, k, m - 1);
    }
}

impl ColumnVisitor {
    fn push_edit(&mut self, start: usize, end: usize, new_text: String)
        ensures
            final(self)@ == (ColumnModel {
                spacing: old(self)@.spacing,
                edits: old(self)@.edits.push(EditModel { start, end, text: new_text@ }),
            }),
    {
        let e = Edit { start, end, new_text };
        self.edits.push(e);
        assert(edit_models(self.edits@) =~= edit_models(old(self).edits@).push(e@));
    }

    fn format_row(&mut self, tree: &SyntaxTree, source: &str, row: &Row, cols: &Vec<Column>, last: bool) -> (ok: bool)
        requires
            tree.fits(source),
            row.elements@.len() == cols@.len() > 0,
            forall|i: int| 0 <= i < row.elements@.len() ==> (#[trigger] row.elements@[i]) < tree@.len(),
            row.trailing_comment matches Some(c) ==> c < tree@.len(),
        ensures
            ok == (row_edits(tree@, source.spec_bytes(), row@, cols@, last, old(self)@.spacing) is Some),
            ok ==> final(self)@ == (ColumnModel {
                spacing: old(self)@.spacing,
                edits: old(self)@.edits + row_edits(tree@, source.spec_bytes(), row@, cols@, last, old(self)@.spacing).unwrap(),
            }),
    {
        let ghost t = tree@;
        let ghost bytes = source.spec_bytes();
        let ghost start_edits = self@.edits;
        let mut k: usize = 0;
        while k < row.elements.len()
            invariant
                tree.fits(source),
                t == tree@,
                bytes == source.spec_bytes(),
                row.elements@.len() == cols@.len() > 0,
                forall|i: int| 0 <= i < row.elements@.len() ==> (#[trigger] row.elements@[i]) < t.len(),
                k <= row.elements@.len(),
                self@.spacing == old(self)@.spacing,
                start_edits == old(self)@.edits,
                cell_edits(t, bytes, row.elements@, cols@, k as int) matches Some(es) && self@.edits == start_edits + es,
            decreases row.elements@.len() - k,
        {
            let e = row.elements[k];
            let prev = tree.prev_sibling(e);
            let next = tree.next_sibling(e);
            let (p, nx) = match (prev, next) {
                (Some(p), Some(nx)) => (p, nx),
                _ => {
                    proof {
                        assert(cell_edits(t, bytes, row.elements@, cols@, k + 1) is None);
                        lemma_cell_edits_stuck(t, bytes, row.elements@, cols@, k + 1, row.elements@.len() as int);
                    }
                    return false;
                },
            };
            proof {
                crate::syntax::lemma_prev_at_depth_bounds(t, t[e as int].depth, e - 1);
                crate::syntax::lemma_next_at_depth_bounds(t, t[e as int].depth, e + 1);
            }
            let text = tree.node_text(source, e);
            let cell = padded(text, cols[k], k == cols.len() - 1);
            let ghost before = self@.edits;
            self.push_edit(tree.nodes[p].end_byte, tree.nodes[nx].start_byte, cell);
            proof {
                let es = cell_edits(t, bytes, row.elements@, cols@, k as int).unwrap();
                assert(before == start_edits + es);
                assert(self@.edits =~= start_edits + cell_edits(t, bytes, row.elements@, cols@, k + 1).unwrap());
            }
            k = k + 1;
        }
        let ghost es = cell_edits(t, bytes, row.elements@, cols@, k as int).unwrap();
        match row.trailing_comment {
            Some(c) => {
                if !last {
                    match tree.prev_sibling(c) {
                        None => return false,
                        Some(p) => {
                            proof {
                                crate::syntax::lemma_prev_at_depth_bounds(t, t[c as int].depth, c - 1);
                            }
                            let pad = repeat_space(self.column_spacing);
                            self.push_edit(tree.nodes[p].end_byte, tree.nodes[c].start_byte, pad);
                            assert(self@.edits =~= start_edits + es.push(
                                EditModel { start: t[p as int].end_byte, end: t[c as int].start_byte, text: spaces(self@.spacing as nat) },
                            ));
                        },
                    }
                }
            },
            None => {},
        }
        true
    }

    fn format_last_row(&mut self, tree: &SyntaxTree, source: &str, node: usize, row: &Row) -> (ok: bool)
        requires
            tree.fits(source),
            node < tree@.len(),
            children_of(tree@, node as int).len() > 0,
            row.trailing_comment matches Some(c) ==> c < tree@.len(),
        ensures
            ok == (last_row_edits(tree@, source.spec_bytes(), node as int, row@, old(self)@.spacing) is Some),
            ok ==> final(self)@ == (ColumnModel {
                spacing: old(self)@.spacing,
                edits: old(self)@.edits + last_row_edits(tree@, source.spec_bytes(), node as int, row@, old(self)@.spacing).unwrap(),
            }),
    {
        let ghost t = tree@;
        match row.trailing_comment {
            None => {
                assert(self@.edits =~= old(self)@.edits + Seq::<EditModel>::empty());
                true
            },
            Some(c) => {
                let kids = tree.children_where(node, ChildFilter::All);
                proof {
                    crate::syntax::lemma_children_from_bounds(t, t[node as int].depth, node + 1, ChildFilter::All);
                }
                let closing = kids[kids.len() - 1];
                match tree.prev_sibling(c) {
                    None => false,
                    Some(le) => {
                        proof {
                            crate::syntax::lemma_prev_at_depth_bounds(t, t[c as int].depth, c - 1);
                        }
                        let extra: usize = if tree.nodes[le].kind == NodeKind::Comma { 2 } else { 1 };
                        let padding = if self.column_spacing >= extra { self.column_spacing - extra } else { 0 };
                        let n = tree.nodes[node];
                        self.push_edit(tree.nodes[le].end_byte, tree.nodes[closing].start_byte, one_space());
                        let mut tail = repeat_space(padding);
                        let comment = tree.node_text(source, c);
                        tail.append(comment);
                        self.push_edit(n.end_byte, n.end_byte, tail);
                        assert(self@.edits =~= old(self)@.edits + last_row_edits(t, source.spec_bytes(), node as int, row@, old(self)@.spacing).unwrap());
                        true
                    },
                }
            },
        }
    }
}

impl Visitor for ColumnVisitor {
    open spec fn step(model: ColumnModel, tree: Seq<SyntaxNode>, bytes: Seq<u8>, node: int) -> Option<(ColumnModel, Visit)> {
        column_step(model, tree, bytes, node)
    }

    open spec fn edits_of(model: ColumnModel) -> Seq<EditModel> {
        model.edits
    }

    fn visit(&mut self, tree: &SyntaxTree, source: &str, node: usize) -> (flow: Option<Visit>) {
        let ghost t = tree@;
        let ghost bytes = source.spec_bytes();
        if tree.nodes[node].kind != NodeKind::List {
            return Some(Visit::Continue);
        }
        let rows = match collect_rows(tree, node) {
            None => return Some(Visit::Continue),
            Some(r) => r,
        };
        let ghost rm = row_models(rows@);
        proof {
            lemma_rows_shape(t, node as int);
        }
        let cols = compute_columns(tree, source, &rows);
        let ghost start_edits = self@.edits;
        let mut k: usize = 0;
        while k < rows.len()
            invariant
                tree.fits(source),
                t == tree@,
                bytes == source.spec_bytes(),
                node < t.len(),
                rm == row_models(rows@),
                rows_of(t, node as int) == Some(rm),
                t[node as int].kind == NodeKind::List,
                table_shape(t, rm),
                cols@ == columns_of(t, rm),
                k <= rows@.len(),
                self@.spacing == old(self)@.spacing,
                start_edits == old(self)@.edits,
                rows_edits(t, bytes, rm, cols@, self@.spacing, k as int) matches Some(es) && self@.edits == start_edits + es,
            decreases rows@.len() - k,
        {
            assert(rm[k as int] == rows@[k as int]@);
            assert(rm[k as int].elements.len() == rm[0].elements.len());
            assert(forall|i: int| 0 <= i < rows@[k as int].elements@.len() ==> (#[trigger] rows@[k as int].elements@[i]) < t.len()) by {
                assert forall|i: int| 0 <= i < rows@[k as int].elements@.len() implies (#[trigger] rows@[k as int].elements@[i]) < t.len() by {
                    assert(rm[k as int].elements[i] == rows@[k as int].elements@[i]);
                }
            }
            let ghost before = self@.edits;
            let ok = self.format_row(tree, source, &rows[k], &cols, k == rows.len() - 1);
            if !ok {
                assert(rows_edits(t, bytes, rm, cols@, old(self)@.spacing, k + 1) is None);
                proof {
                    lemma_rows_edits_stuck(t, bytes, rm, cols@, old(self)@.spacing, k + 1, rm.len() as int);
                    assert(rows_edits(t, bytes, rm, columns_of(t, rm), old(self)@.spacing, rm.len() as int) is None);
                    assert(column_step(old(self)@, t, bytes, node as int) is None);
                }
                return None;
            }
            assert(self@.edits =~= start_edits + rows_edits(t, bytes, rm, cols@, self@.spacing, k + 1).unwrap());
            k = k + 1;
        }
        assert(rm.last() == rows@[rows@.len() - 1]@);
        proof {
            crate::syntax::lemma_named_children_nonempty(t, t[node as int].depth, node + 1, ChildFilter::NamedNotExtra);
        }
        let ghost mid = self@.edits;
        let ok = self.format_last_row(tree, source, node, &rows[rows.len() - 1]);
        if !ok {
            return None;
        }
        assert(self@.edits =~= old(self)@.edits + rows_edits(t, bytes, rm, cols@, self@.spacing, rm.len() as int).unwrap()
            + last_row_edits(t, bytes, node as int, rm.last(), self@.spacing).unwrap());
        Some(Visit::Continue)
    }

    fn edits(self) -> (edits: Vec<Edit>) {
        self.edits
    }
}

} // verus!
