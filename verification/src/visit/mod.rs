//! Passes over a syntax tree that collect edits of the source, and the
//! application of those edits.
use vstd::prelude::*;
use vstd::string::StringSliceAdditionalSpecFns;
use vstd::utf8::{encode_utf8, is_char_boundary};
use crate::syntax::{SyntaxNode, SyntaxTree, text_between, tree_of_text};
use crate::python::{parse_tree, python_tree};

pub mod debug;
pub mod parens;
pub mod spacing;
pub mod quotes;
pub mod first_column;
pub mod alignment;
pub mod column;

verus! {

broadcast use vstd::utf8::encode_utf8_decode_utf8;

/// What a visitor asks of the walk after it has seen a node.
#[derive(Clone, Copy, PartialEq, Eq, Structural, Debug)]
pub enum Visit {
    /// Go on into the node's children.
    Continue,
    /// Leave the node's children out.
    Skip,
}

/// Replace the source bytes `start..end` with `new_text`.
pub struct Edit {
    pub start: usize,
    pub end: usize,
    pub new_text: String,
}

/// An edit as a mathematical value.
pub struct EditModel {
    pub start: usize,
    pub end: usize,
    pub text: Seq<char>,
}

impl View for Edit {
    type V = EditModel;

    open spec fn view(&self) -> EditModel {
        EditModel { start: self.start, end: self.end, text: self.new_text@ }
    }
}

/// The models of a list of edits.
pub open spec fn edit_models(edits: Seq<Edit>) -> Seq<EditModel> {
    edits.map_values(|e: Edit| e@)
}

/// A pass over a syntax tree. `step` says what the pass does at one node: its
/// new state and whether the walk goes into the node's children, or `None`
/// where the pass cannot go on.
pub trait Visitor: View + Sized {
    spec fn step(model: Self::V, tree: Seq<SyntaxNode>, bytes: Seq<u8>, node: int) -> Option<(Self::V, Visit)>;

    /// The edits that a pass in this state has collected.
    spec fn edits_of(model: Self::V) -> Seq<EditModel>;

    fn visit(&mut self, tree: &SyntaxTree, source: &str, node: usize) -> (flow: Option<Visit>)
        requires
            tree.fits(source),
            node < tree@.len(),
        ensures
            match Self::step(old(self)@, tree@, source.spec_bytes(), node as int) {
                Some((m, f)) => flow == Some(f) && final(self)@ == m,
                None => flow is None,
            },
    ;

    fn edits(self) -> (edits: Vec<Edit>)
        ensures
            edit_models(edits@) == Self::edits_of(self@),
    ;
}

/// A pre-order walk from `node`: the visitor sees the node, then, unless it
/// asks to skip them, the walks from each of the node's children in turn.
pub open spec fn walk_node<V: Visitor>(t: Seq<SyntaxNode>, bytes: Seq<u8>, node: int, m: V::V) -> Option<V::V>
    decreases t.len() - node, 0int,
{
    if node < 0 || node >= t.len() {
        Some(m)
    } else {
        match V::step(m, t, bytes, node) {
            None => None,
            Some((m2, Visit::Skip)) => Some(m2),
            Some((m2, Visit::Continue)) => walk_children::<V>(t, bytes, t[node].depth, node + 1, m2),
        }
    }
}

/// The walks from the nodes of depth `d + 1` from position `j` on, until a
/// node of depth at most `d` ends them.
pub open spec fn walk_children<V: Visitor>(t: Seq<SyntaxNode>, bytes: Seq<u8>, d: usize, j: int, m: V::V) -> Option<V::V>
    decreases t.len() - j, 1int,
{
    if j < 0 || j >= t.len() {
        Some(m)
    } else if t[j].depth <= d {
        Some(m)
    } else if t[j].depth == d + 1 {
        match walk_node::<V>(t, bytes, j, m) {
            None => None,
            Some(m2) => walk_children::<V>(t, bytes, d, j + 1, m2),
        }
    } else {
        walk_children::<V>(t, bytes, d, j + 1, m)
    }
}

fn walk_from<V: Visitor>(tree: &SyntaxTree, source: &str, node: usize, visitor: &mut V) -> (ok: bool)
    requires
        tree.fits(source),
        node < tree@.len(),
    ensures
        ok == (walk_node::<V>(tree@, source.spec_bytes(), node as int, old(visitor)@) is Some),
        ok ==> walk_node::<V>(tree@, source.spec_bytes(), node as int, old(visitor)@) == Some(final(visitor)@),
    decreases tree@.len() - node,
{
    let ghost t = tree@;
    let ghost bytes = source.spec_bytes();
    let ghost m0 = visitor@;
    let flow = visitor.visit(tree, source, node);
    match flow {
        None => false,
        Some(Visit::Skip) => true,
        Some(Visit::Continue) => {
            let ghost m1 = visitor@;
            assert(walk_node::<V>(t, bytes, node as int, m0) == walk_children::<V>(t, bytes, t[node as int].depth, node + 1, m1));
            let d = tree.nodes[node].depth;
            let n = tree.nodes.len();
            let mut j: usize = node + 1;
            while j < n && tree.nodes[j].depth > d
                invariant
                    tree.fits(source),
                    t == tree@,
                    bytes == source.spec_bytes(),
                    n == t.len(),
                    node < j <= n,
                    d == t[node as int].depth,
                    walk_children::<V>(t, bytes, d, node + 1, m1) == walk_children::<V>(t, bytes, d, j as int, visitor@),
                    walk_node::<V>(t, bytes, node as int, m0) == walk_children::<V>(t, bytes, d, node + 1, m1),
                    m0 == old(visitor)@,
                decreases n - j,
            {
                if tree.nodes[j].depth - 1 == d {
                    let ghost before = visitor@;
                    let ok = walk_from(tree, source, j, visitor);
                    if !ok {
                        assert(t[j as int].depth == d + 1);
                        assert(walk_children::<V>(t, bytes, d, j as int, before) is None);
                        return false;
                    }
                    assert(walk_children::<V>(t, bytes, d, j as int, before) == walk_children::<V>(t, bytes, d, j + 1, visitor@));
                }
                j = j + 1;
            }
            true
        },
    }
}

/// Walks the whole tree with `visitor` in pre-order. `false` where the
/// visitor could not go on.
pub fn walk<V: Visitor>(tree: &SyntaxTree, source: &str, visitor: &mut V) -> (ok: bool)
    requires
        tree.fits(source),
    ensures
        ok == (walk_node::<V>(tree@, source.spec_bytes(), 0, old(visitor)@) is Some),
        ok ==> walk_node::<V>(tree@, source.spec_bytes(), 0, old(visitor)@) == Some(final(visitor)@),
{
    walk_from(tree, source, 0, visitor)
}


/// `sorted` with `e` put after every edit that starts no later than `e`.
pub open spec fn insert_by_start(sorted: Seq<EditModel>, e: EditModel) -> Seq<EditModel>
    decreases sorted.len(),
{
    if sorted.len() == 0 {
        seq![e]
    } else if sorted.last().start > e.start {
        insert_by_start(sorted.drop_last(), e).push(sorted.last())
    } else {
        sorted.push(e)
    }
}

/// The edits ordered by start offset; edits with the same start keep their
/// order (a stable sort).
pub open spec fn sort_by_start(edits: Seq<EditModel>) -> Seq<EditModel>
    decreases edits.len(),
{
    if edits.len() == 0 {
        edits
    } else {
        insert_by_start(sort_by_start(edits.drop_last()), edits.last())
    }
}

proof fn lemma_insert_at(s: Seq<EditModel>, e: EditModel, j: int)
    requires
        0 <= j <= s.len(),
        forall|k: int| j <= k < s.len() ==> #[trigger] s[k].start > e.start,
        j == 0 || s[j - 1].start <= e.start,
    ensures
        insert_by_start(s, e) == s.insert(j, e),
    decreases s.len(),
{
    if s.len() == 0 {
        assert(s.insert(j, e) =~= seq![e]);
    } else if j == s.len() {
        assert(s.insert(j, e) =~= s.push(e));
    } else {
        assert(s.last().start > e.start);
        lemma_insert_at(s.drop_last(), e, j);
        assert(s.drop_last().insert(j, e).push(s.last()) =~= s.insert(j, e));
    }
}

/// Orders the edits by start offset, keeping the order of edits that start
/// at the same offset.
pub fn sort_edits(edits: Vec<Edit>) -> (sorted: Vec<Edit>)
    ensures
        edit_models(sorted@) == sort_by_start(edit_models(edits@)),
{
    let ghost all = edit_models(edits@);
    let mut rest = edits;
    let mut out: Vec<Edit> = Vec::new();
    let ghost mut done: int = 0;
    while rest.len() > 0
        invariant
            0 <= done <= all.len(),
            edit_models(rest@) == all.skip(done),
            edit_models(out@) == sort_by_start(all.take(done)),
        decreases rest.len(),
    {
        let ghost r0 = rest@;
        assert(edit_models(r0).len() == r0.len());
        assert(edit_models(r0)[0] == r0[0]@);
        let e = rest.remove(0);
        let ghost em = e@;
        assert(all.skip(done)[0] == all[done]);
        assert(em == all[done]);
        let mut j = out.len();
        while j > 0 && out[j - 1].start > e.start
            invariant
                j <= out@.len(),
                forall|k: int| j <= k < out@.len() ==> #[trigger] out@[k].start > e.start,
            decreases j,
        {
            j = j - 1;
        }
        let ghost before = edit_models(out@);
        proof {
            lemma_insert_at(before, em, j as int);
            assert(all.take(done + 1).drop_last() =~= all.take(done));
        }
        out.insert(j, e);
        assert(edit_models(out@) =~= before.insert(j as int, em));
        assert(rest@ =~= r0.drop_first());
        assert(edit_models(rest@) =~= edit_models(r0).drop_first());
        assert(all.skip(done).drop_first() =~= all.skip(done + 1));
        assert(edit_models(rest@) =~= all.skip(done + 1));
        proof {
            done = done + 1;
        }
    }
    assert(all.take(done) =~= all);
    out
}

/// Whether the edits, in this order, can be applied to the text whose UTF-8
/// encoding is `bytes`, the text before them ending at `last`: each edit
/// starts no earlier than the one before it ends, and every offset at which
/// the text is cut lies in it between characters. An edit may end before it
/// starts: the text from its end on then follows its new text again.
pub open spec fn edits_fit(bytes: Seq<u8>, edits: Seq<EditModel>, last: int) -> bool
    decreases edits.len(),
{
    if edits.len() == 0 {
        last <= bytes.len() && is_char_boundary(bytes, last)
    } else {
        let e = edits[0];
        &&& last <= e.start <= bytes.len()
        &&& is_char_boundary(bytes, last)
        &&& is_char_boundary(bytes, e.start as int)
        &&& edits_fit(bytes, edits.drop_first(), e.end as int)
    }
}

/// The bytes from `last` on with the edits applied: each edit's range is
/// replaced by the UTF-8 encoding of its text.
pub open spec fn spliced(bytes: Seq<u8>, edits: Seq<EditModel>, last: int) -> Seq<u8>
    decreases edits.len(),
{
    if edits.len() == 0 {
        bytes.subrange(last, bytes.len() as int)
    } else {
        let e = edits[0];
        bytes.subrange(last, e.start as int) + encode_utf8(e.text) + spliced(bytes, edits.drop_first(), e.end as int)
    }
}

/// The UTF-8 encoding of two strings one after the other is the encoding of
/// the first followed by that of the second.
pub proof fn lemma_encode_concat(a: Seq<char>, b: Seq<char>)
    ensures
        encode_utf8(a + b) == encode_utf8(a) + encode_utf8(b),
    decreases a.len(),
{
    if a.len() == 0 {
        assert(a + b =~= b);
        assert(encode_utf8(a) + encode_utf8(b) =~= encode_utf8(b));
    } else {
        lemma_encode_concat(a.drop_first(), b);
        assert((a + b).drop_first() =~= a.drop_first() + b);
        assert((a + b)[0] == a[0]);
        assert(encode_utf8(a + b) =~= encode_utf8(a) + encode_utf8(b));
    }
}

/// Appends `text` to `out`; the encoding of `out` grows by that of `text`.
pub fn append_text(out: &mut String, text: &str)
    ensures
        final(out)@ == old(out)@ + text@,
        encode_utf8(final(out)@) == encode_utf8(old(out)@) + text.spec_bytes(),
{
    proof {
        lemma_encode_concat(old(out)@, text@);
    }
    out.append(text);
}

/// Whether the edits, in the order given, can be applied to `source` (see
/// `edits_fit`).
pub fn edits_fit_source(source: &str, edits: &Vec<Edit>) -> (fit: bool)
    ensures
        fit == edits_fit(source.spec_bytes(), edit_models(edits@), 0),
{
    let ghost bytes = source.spec_bytes();
    let ghost es = edit_models(edits@);
    let len = source.as_bytes().len();
    let mut last: usize = 0;
    let mut k: usize = 0;
    proof {
        vstd::utf8::encode_utf8_valid_utf8(source@);
        vstd::utf8::is_char_boundary_start_end_of_seq(bytes);
        assert(es.skip(0) =~= es);
    }
    while k < edits.len()
        invariant
            bytes == source.spec_bytes(),
            len == bytes.len(),
            es == edit_models(edits@),
            k <= edits@.len(),
            last <= len,
            is_char_boundary(bytes, last as int),
            edits_fit(bytes, es, 0) == edits_fit(bytes, es.skip(k as int), last as int),
        decreases edits@.len() - k,
    {
        let e = &edits[k];
        assert(es.skip(k as int)[0] == e@);
        assert(es.skip(k as int).drop_first() =~= es.skip(k + 1));
        if !(last <= e.start && e.start <= len && source.is_char_boundary(e.start)) {
            return false;
        }
        if !(e.end <= len && source.is_char_boundary(e.end)) {
            proof {
                if edits_fit(bytes, es.skip(k as int), last as int) {
                    lemma_edits_fit_end(bytes, es.skip(k + 1), e.end as int);
                }
            }
            return false;
        }
        last = e.end;
        k = k + 1;
    }
    assert(es.skip(k as int) =~= Seq::<EditModel>::empty());
    true
}

/// Applies the edits to `source`, in order of their start offsets (edits with
/// the same start keep their order). The edits, in that order, must fit the
/// source (see `edits_fit`): none overlaps the one before it, and none reaches
/// past the end of the source or cuts a character in two.
pub fn apply_edits(source: &str, edits: Vec<Edit>) -> (out: String)
    requires
        edits_fit(source.spec_bytes(), sort_by_start(edit_models(edits@)), 0),
    ensures
        encode_utf8(out@) == spliced(source.spec_bytes(), sort_by_start(edit_models(edits@)), 0),
{
    let ghost bytes = source.spec_bytes();
    let sorted = sort_edits(edits);
    let ghost es = edit_models(sorted@);
    let len = source.as_bytes().len();
    let mut out = String::new();
    let mut last: usize = 0;
    let mut k: usize = 0;
    proof {
        vstd::utf8::encode_utf8_valid_utf8(source@);
        vstd::utf8::is_char_boundary_start_end_of_seq(bytes);
        assert(es.skip(0) =~= es);
        assert(encode_utf8(out@) =~= Seq::<u8>::empty());
    }
    while k < sorted.len()
        invariant
            bytes == source.spec_bytes(),
            len == bytes.len(),
            es == edit_models(sorted@),
            k <= sorted@.len(),
            edits_fit(bytes, es.skip(k as int), last as int),
            spliced(bytes, es, 0) == encode_utf8(out@) + spliced(bytes, es.skip(k as int), last as int),
        decreases sorted@.len() - k,
    {
        let e = &sorted[k];
        assert(es.skip(k as int)[0] == e@);
        assert(es.skip(k as int).drop_first() =~= es.skip(k + 1));
        proof {
            lemma_edits_fit_end(bytes, es.skip(k + 1), e.end as int);
        }
        let piece = text_between(source, last, e.start);
        let ghost before = encode_utf8(out@);
        append_text(&mut out, piece);
        append_text(&mut out, e.new_text.as_str());
        assert(encode_utf8(out@) =~= before + bytes.subrange(last as int, e.start as int) + encode_utf8(e.new_text@));
        last = e.end;
        k = k + 1;
    }
    assert(es.skip(k as int) =~= Seq::<EditModel>::empty());
    let piece = text_between(source, last, len);
    append_text(&mut out, piece);
    out
}

/// Edits already in order of their start offsets stay as they are when
/// sorted.
proof fn lemma_sorted_stays(es: Seq<EditModel>)
    requires
        forall|i: int, j: int| 0 <= i < j < es.len() ==> es[i].start <= es[j].start,
    ensures
        sort_by_start(es) == es,
    decreases es.len(),
{
    if es.len() > 0 {
        lemma_sorted_stays(es.drop_last());
        assert(es =~= es.drop_last().push(es.last()));
        if es.len() > 1 {
            assert(es.drop_last().last() == es[es.len() - 2]);
        } else {
            assert(es.drop_last() =~= Seq::<EditModel>::empty());
        }
    }
}

/// Edits that fit after `last` need `last` to be an offset of the text that
/// lies between characters.
proof fn lemma_edits_fit_end(bytes: Seq<u8>, edits: Seq<EditModel>, last: int)
    requires
        edits_fit(bytes, edits, last),
    ensures
        last <= bytes.len(),
        is_char_boundary(bytes, last),
{
    if edits.len() > 0 {
    }
}

/// What a pass with a visitor in state `visitor` makes of the text whose
/// encoding is `bytes`, given its tree `t`: the visitor walks the tree, and
/// the edits it collected are applied. `None` where the visitor cannot go on
/// or its edits do not fit.
pub open spec fn pass_result<V: Visitor>(t: Seq<SyntaxNode>, bytes: Seq<u8>, visitor: V::V) -> Option<Seq<u8>> {
    match walk_node::<V>(t, bytes, 0, visitor) {
        None => None,
        Some(m) => {
            let es = sort_by_start(V::edits_of(m));
            if edits_fit(bytes, es, 0) {
                Some(spliced(bytes, es, 0))
            } else {
                None
            }
        },
    }
}

/// Runs a pass over `source` with its syntax tree `tree`.
pub fn run_pass_on<V: Visitor>(source: &str, tree: &SyntaxTree, visitor: V) -> (out: Option<String>)
    requires
        tree.fits(source),
    ensures
        match pass_result::<V>(tree@, source.spec_bytes(), visitor@) {
            None => out is None,
            Some(b) => out matches Some(o) && encode_utf8(o@) == b,
        },
{
    let mut v = visitor;
    if !walk(tree, source, &mut v) {
        return None;
    }
    let raw = v.edits();
    let ghost models = edit_models(raw@);
    let edits = sort_edits(raw);
    if !edits_fit_source(source, &edits) {
        return None;
    }
    proof {
        crate::laws::law_sorted_edits_are_ordered(models);
        lemma_sorted_stays(edit_models(edits@));
    }
    Some(apply_edits(source, edits))
}

/// What a pass makes of the text `text` given its tree `t`, as text.
pub open spec fn pass_output<V: Visitor>(text: Seq<char>, t: Seq<SyntaxNode>, visitor: V::V) -> Option<Seq<char>> {
    match pass_result::<V>(t, encode_utf8(text), visitor) {
        None => None,
        Some(b) => Some(vstd::utf8::decode_utf8(b)),
    }
}

/// What a pass with `visitor` makes of `text`, over the syntax tree that the
/// parser gives of it. `None` where there is no such tree, or the pass gives
/// no result on it.
pub open spec fn pass_over<V: Visitor>(text: Seq<char>, visitor: V::V) -> Option<Seq<char>> {
    match python_tree(text) {
        None => None,
        Some(t) => pass_output::<V>(text, t, visitor),
    }
}

/// Parses `source` and runs a pass over it with `visitor`. `None` where the
/// parser gives no tree of `source`, or the pass gives no result on it.
pub fn run_pass<V: Visitor>(source: &str, visitor: V) -> (out: Option<String>)
    ensures
        match pass_over::<V>(source@, visitor@) {
            None => out is None,
            Some(o) => out matches Some(x) && x@ == o,
        },
{
    match parse_tree(source) {
        None => None,
        Some(tree) => run_pass_on(source, &tree, visitor),
    }
}

} // verus!
