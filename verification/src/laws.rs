//! Properties of the library that relate its functions.
use vstd::prelude::*;
use vstd::utf8::{encode_utf8, is_char_boundary, length_of_first_scalar, pop_first_scalar, valid_utf8, valid_utf8_concat, valid_utf8_split};
use crate::syntax::{SyntaxNode, tree_of_text};
use crate::python::python_tree;
use crate::formatted;
use crate::diff::{HunkText, changed_in, changed_lines_of, hunk_of, hunks_after, hunks_applied, hunks_of, new_lines_of, patched_lines};
use crate::visit::{EditModel, Visitor, edits_fit, insert_by_start, pass_output, pass_over, sort_by_start, spliced, walk_children,
    walk_node};
use crate::visit::debug::DebugVisitor;
use crate::lines::{
    clean_parts, ends_clean, is_line_break, join, lemma_lines_have_no_newline, lemma_lines_of_joined, lemma_trim_end,
    lines_of, no_newline, trim_end, without_trailing_white, line_spans, has_crlf, crlf_at, line_ending_of, is_white,
    lemma_next_newline, next_newline, lemma_join_front, lemma_lines_shift, lines_from,
};

verus! {

broadcast use vstd::utf8::encode_utf8_decode_utf8;

proof fn lemma_quiet_walk(t: Seq<SyntaxNode>, bytes: Seq<u8>, node: int)
    ensures
        walk_node::<DebugVisitor>(t, bytes, node, ()) == Some(()),
    decreases t.len() - node, 0int,
{
    if 0 <= node < t.len() {
        lemma_quiet_walk_children(t, bytes, t[node].depth, node + 1);
    }
}

proof fn lemma_quiet_walk_children(t: Seq<SyntaxNode>, bytes: Seq<u8>, d: usize, j: int)
    ensures
        walk_children::<DebugVisitor>(t, bytes, d, j, ()) == Some(()),
    decreases t.len() - j, 1int,
{
    if 0 <= j < t.len() && t[j].depth > d {
        if t[j].depth == d + 1 {
            lemma_quiet_walk(t, bytes, j);
        }
        lemma_quiet_walk_children(t, bytes, d, j + 1);
    }
}

/// Applying no edits to a text gives back the text.
pub proof fn law_no_edits_keep_text(text: Seq<char>)
    ensures
        edits_fit(encode_utf8(text), Seq::empty(), 0),
        spliced(encode_utf8(text), Seq::empty(), 0) == encode_utf8(text),
{
    let bytes = encode_utf8(text);
    vstd::utf8::encode_utf8_valid_utf8(text);
    vstd::utf8::is_char_boundary_start_end_of_seq(bytes);
    assert(bytes.subrange(0, bytes.len() as int) =~= bytes);
}

/// A pass whose visitor asks for no edit gives back its input, whatever the
/// syntax tree of the input.
pub proof fn law_quiet_pass_returns_input(text: Seq<char>, t: Seq<SyntaxNode>)
    requires
        tree_of_text(t, encode_utf8(text)),
    ensures
        pass_output::<DebugVisitor>(text, t, ()) == Some(text),
{
    lemma_quiet_walk(t, encode_utf8(text), 0);
    law_no_edits_keep_text(text);
    assert(sort_by_start(Seq::<EditModel>::empty()) =~= Seq::<EditModel>::empty());
}

/// A pass whose visitor asks for no edit gives back any text that the
/// parser gives a syntax tree of.
pub proof fn law_quiet_pass_over_parsed_text(text: Seq<char>)
    requires
        python_tree(text) is Some,
    ensures
        pass_over::<DebugVisitor>(text, ()) == Some(text),
{
    law_quiet_pass_returns_input(text, python_tree(text)->0);
}

/// The edits are in order of their start offsets.
pub open spec fn ordered_by_start(es: Seq<EditModel>) -> bool {
    forall|i: int, j: int| 0 <= i < j < es.len() ==> es[i].start <= es[j].start
}

proof fn lemma_insert_ordered(s: Seq<EditModel>, e: EditModel)
    requires
        ordered_by_start(s),
    ensures
        ordered_by_start(insert_by_start(s, e)),
        insert_by_start(s, e).to_multiset() == s.to_multiset().insert(e),
        forall|k: int| 0 <= k < insert_by_start(s, e).len() ==>
            (#[trigger] insert_by_start(s, e)[k] == e || s.contains(insert_by_start(s, e)[k])),
    decreases s.len(),
{
    broadcast use vstd::seq_lib::group_to_multiset_ensures;

    if s.len() == 0 {
        assert(insert_by_start(s, e) =~= seq![e]);
        assert(s =~= Seq::<EditModel>::empty());
    } else if s.last().start > e.start {
        let r = insert_by_start(s.drop_last(), e);
        lemma_insert_ordered(s.drop_last(), e);
        assert forall|k: int| 0 <= k < r.len() implies #[trigger] r[k].start <= s.last().start by {
            if r[k] == e {
            } else {
                assert(s.drop_last().contains(r[k]));
                let m = choose|m: int| 0 <= m < s.drop_last().len() && s.drop_last()[m] == r[k];
                assert(s[m] == r[k]);
            }
        }
        assert forall|k: int| 0 <= k < r.push(s.last()).len() implies (#[trigger] r.push(s.last())[k] == e || s.contains(
            r.push(s.last())[k],
        )) by {
            if k < r.len() && r[k] != e {
                let m = choose|m: int| 0 <= m < s.drop_last().len() && s.drop_last()[m] == r[k];
                assert(s[m] == r[k]);
            } else if k == r.len() {
                assert(s[s.len() - 1] == s.last());
            }
        }
        assert(s =~= s.drop_last().push(s.last()));
    } else {
        assert forall|k: int| 0 <= k < s.push(e).len() implies (#[trigger] s.push(e)[k] == e || s.contains(s.push(e)[k])) by {
            if k < s.len() {
                assert(s[k] == s.push(e)[k]);
            }
        }
    }
}

/// Sorting edits puts them in order of their start offsets and keeps every
/// edit, each as often as it was there.
pub proof fn law_sorted_edits_are_ordered(es: Seq<EditModel>)
    ensures
        ordered_by_start(sort_by_start(es)),
        sort_by_start(es).to_multiset() == es.to_multiset(),
    decreases es.len(),
{
    broadcast use vstd::seq_lib::group_to_multiset_ensures;

    if es.len() > 0 {
        law_sorted_edits_are_ordered(es.drop_last());
        lemma_insert_ordered(sort_by_start(es.drop_last()), es.last());
        assert(es =~= es.drop_last().push(es.last()));
    }
}


/// The trimmed lines of a text.
pub open spec fn trimmed_lines(s: Seq<char>) -> Seq<Seq<char>> {
    lines_of(s).map_values(|l: Seq<char>| trim_end(l))
}

proof fn lemma_trimmed_clean(s: Seq<char>)
    ensures
        clean_parts(trimmed_lines(s)),
{
    lemma_lines_have_no_newline(s);
    let t = trimmed_lines(s);
    assert forall|k: int| 0 <= k < t.len() implies no_newline(#[trigger] t[k]) && ends_clean(t[k]) by {
        let l = lines_of(s)[k];
        lemma_trim_end(l);
        assert(no_newline(l));
        assert(t[k] == trim_end(l));
        assert forall|i: int| 0 <= i < t[k].len() implies t[k][i] != '\n' by {
            assert(t[k][i] == l[i]);
        }
    }
}

/// The lines of a text with its trailing white space removed: its trimmed
/// lines, less the last one where that is empty and the text does not end
/// with a line feed.
pub proof fn lemma_output_lines(s: Seq<char>, sep: Seq<char>)
    requires
        is_line_break(sep),
    ensures
        ({
            let t = trimmed_lines(s);
            let out = lines_of(without_trailing_white(s, sep));
            if t.len() > 0 && t.last().len() == 0 && !(s.len() > 0 && s.last() == '\n') {
                out == t.drop_last()
            } else {
                out == t
            }
        }),
{
    let t = trimmed_lines(s);
    lemma_trimmed_clean(s);
    lemma_lines_of_joined(t, sep);
    if s.len() > 0 && s.last() == '\n' {
        assert(line_spans(s, 0).len() > 0);
        assert(t.len() > 0);
    } else if t.len() > 0 && t.last().len() == 0 {
        let front = t.drop_last();
        assert(clean_parts(front)) by {
            assert forall|k: int| 0 <= k < front.len() implies no_newline(#[trigger] front[k]) && ends_clean(front[k]) by {
                assert(front[k] == t[k]);
            }
        }
        lemma_lines_of_joined(front, sep);
        if t.len() == 1 {
            assert(join(t, sep) == t[0]);
            assert(lines_of(join(t, sep)) =~= Seq::<Seq<char>>::empty());
            assert(front =~= Seq::<Seq<char>>::empty());
        } else {
            assert(join(t, sep) =~= join(front, sep) + sep);
        }
    }
}

/// Once trailing white space is removed, no line of the text ends in white
/// space.
pub proof fn law_no_line_ends_in_white(s: Seq<char>, sep: Seq<char>)
    requires
        is_line_break(sep),
    ensures
        forall|k: int| 0 <= k < lines_of(without_trailing_white(s, sep)).len() ==>
            ends_clean(#[trigger] lines_of(without_trailing_white(s, sep))[k]),
{
    lemma_output_lines(s, sep);
    lemma_trimmed_clean(s);
    let t = trimmed_lines(s);
    let out = lines_of(without_trailing_white(s, sep));
    assert forall|k: int| 0 <= k < out.len() implies ends_clean(#[trigger] out[k]) by {
        assert(out[k] == t[k]);
        assert(no_newline(t[k]) && ends_clean(t[k]));
    }
}


proof fn lemma_crlf_concat(a: Seq<char>, b: Seq<char>)
    ensures
        has_crlf(a + b) ==> has_crlf(a) || has_crlf(b) || (a.len() > 0 && b.len() > 0 && a.last() == '\r' && b[0] == '\n'),
{
    if has_crlf(a + b) {
        let x = a + b;
        let i = choose|i: int| #[trigger] crlf_at(x, i);
        if i + 1 < a.len() {
            assert(crlf_at(a, i));
        } else if i >= a.len() {
            assert(crlf_at(b, i - a.len()));
        } else {
            assert(i == a.len() - 1);
        }
    }
}

/// Clean parts joined with line feeds hold no CRLF and do not end with a
/// carriage return.
proof fn lemma_lf_join_has_no_crlf(parts: Seq<Seq<char>>)
    requires
        clean_parts(parts),
    ensures
        !has_crlf(join(parts, seq!['\n'])),
        join(parts, seq!['\n']).len() > 0 ==> join(parts, seq!['\n']).last() != '\r',
    decreases parts.len(),
{
    let sep = seq!['\n'];
    if parts.len() == 0 {
    } else if parts.len() == 1 {
        assert(no_newline(parts[0]) && ends_clean(parts[0]));
        lemma_no_crlf_without_newline(parts[0]);
        if parts[0].len() > 0 {
            assert(is_white('\r'));
        }
    } else {
        let front = parts.drop_last();
        assert(clean_parts(front)) by {
            assert forall|k: int| 0 <= k < front.len() implies no_newline(#[trigger] front[k]) && ends_clean(front[k]) by {
                assert(front[k] == parts[k]);
            }
        }
        lemma_lf_join_has_no_crlf(front);
        let a = join(front, sep);
        let p = parts.last();
        assert(no_newline(parts[parts.len() - 1]) && ends_clean(parts[parts.len() - 1]));
        lemma_no_crlf_without_newline(p);
        lemma_no_crlf_without_newline(sep);
        lemma_crlf_concat(a, sep);
        lemma_crlf_concat(a + sep, p);
        if p.len() > 0 {
            assert(is_white('\r'));
            assert((a + sep + p).last() == p.last());
        }
    }
}

proof fn lemma_no_crlf_without_newline(p: Seq<char>)
    requires
        forall|i: int| 0 <= i < p.len() && p[i] == '\n' ==> i == 0,
    ensures
        !has_crlf(p),
{
    if has_crlf(p) {
        let i = choose|i: int| #[trigger] crlf_at(p, i);
        assert(p[i + 1] == '\n');
    }
}

/// A text with a line feed before its end has at least two lines.
proof fn lemma_inner_newline_two_lines(s: Seq<char>, i: int)
    requires
        0 <= i < s.len() - 1,
        s[i] == '\n',
    ensures
        lines_of(s).len() >= 2,
{
    let nl = next_newline(s, 0);
    lemma_next_newline(s, 0);
    assert(nl <= i);
    assert(line_spans(s, nl + 1).len() > 0);
    assert(line_spans(s, 0) == seq![line_spans(s, 0)[0]] + line_spans(s, nl + 1));
}

/// The line ending that the removal picks for its own output is the one it
/// picked for the input.
proof fn lemma_line_ending_kept(s: Seq<char>)
    ensures
        line_ending_of(without_trailing_white(s, line_ending_of(s))) == line_ending_of(s),
{
    let sep = line_ending_of(s);
    let t = trimmed_lines(s);
    let w = without_trailing_white(s, sep);
    lemma_trimmed_clean(s);
    let ends_nl = s.len() > 0 && s.last() == '\n';
    if has_crlf(s) {
        let i = choose|i: int| #[trigger] crlf_at(s, i);
        if !ends_nl {
            lemma_inner_newline_two_lines(s, i + 1);
        }
        if ends_nl {
            assert(crlf_at(w, w.len() - 2));
        } else {
            assert(t.len() >= 2);
            let front = t.drop_last();
            let a = join(front, sep);
            assert(join(t, sep) == a + sep + t.last());
            assert(crlf_at(w, a.len() as int));
        }
    } else {
        lemma_lf_join_has_no_crlf(t);
        if ends_nl {
            lemma_crlf_concat(join(t, sep), sep);
            lemma_no_crlf_without_newline(sep);
        }
    }
}

proof fn lemma_join_last(parts: Seq<Seq<char>>, sep: Seq<char>)
    requires
        parts.len() > 0,
        parts.last().len() > 0,
    ensures
        join(parts, sep).len() > 0,
        join(parts, sep).last() == parts.last().last(),
{
    if parts.len() == 1 {
    } else {
        assert(join(parts, sep) == join(parts.drop_last(), sep) + sep + parts.last());
    }
}

proof fn lemma_clean_trimmed_is_itself(parts: Seq<Seq<char>>)
    requires
        clean_parts(parts),
    ensures
        parts.map_values(|l: Seq<char>| trim_end(l)) == parts,
{
    assert forall|k: int| 0 <= k < parts.len() implies #[trigger] trim_end(parts[k]) == parts[k] by {
        assert(no_newline(parts[k]) && ends_clean(parts[k]));
    }
    assert(parts.map_values(|l: Seq<char>| trim_end(l)) =~= parts);
}

/// Removing trailing white space a second time changes nothing.
pub proof fn law_removing_twice_is_removing_once(s: Seq<char>)
    ensures
        ({
            let once = without_trailing_white(s, line_ending_of(s));
            without_trailing_white(once, line_ending_of(once)) == once
        }),
{
    let sep = line_ending_of(s);
    let t = trimmed_lines(s);
    let w = without_trailing_white(s, sep);
    lemma_line_ending_kept(s);
    assert(is_line_break(sep));
    lemma_output_lines(s, sep);
    lemma_trimmed_clean(s);
    let l = lines_of(w);
    let ends_nl = s.len() > 0 && s.last() == '\n';
    if ends_nl {
        assert(l == t);
        lemma_clean_trimmed_is_itself(t);
        assert(w.last() == '\n');
    } else if t.len() > 0 && t.last().len() == 0 {
        let front = t.drop_last();
        assert(l == front);
        assert(clean_parts(front)) by {
            assert forall|k: int| 0 <= k < front.len() implies no_newline(#[trigger] front[k]) && ends_clean(front[k]) by {
                assert(front[k] == t[k]);
            }
        }
        lemma_clean_trimmed_is_itself(front);
        if t.len() == 1 {
            assert(w == t[0]);
            assert(w.len() == 0);
            assert(l =~= Seq::<Seq<char>>::empty());
        } else {
            assert(w =~= join(front, sep) + sep);
            assert(w.last() == '\n');
        }
    } else {
        assert(l == t);
        lemma_clean_trimmed_is_itself(t);
        if t.len() > 0 {
            lemma_join_last(t, sep);
            assert(no_newline(t[t.len() - 1]));
            assert(w.last() != '\n');
        }
    }
}

/// The lines of the new text that some hunk of `hs` spans.
pub open spec fn new_lines_spanned(hs: Seq<HunkText>) -> Set<usize> {
    Set::new(|l: usize| exists|i: int| 0 <= i < hs.len() && #[trigger] hs[i].0.2 <= l && l < hs[i].0.3)
}

spec fn hunks_so_far(p: (Seq<HunkText>, Option<HunkText>)) -> Seq<HunkText> {
    match p.1 {
        Some(c) => p.0.push(c),
        None => p.0,
    }
}

proof fn lemma_changed_in_spanned(lines: Seq<Seq<char>>, k: int)
    requires
        0 <= k <= lines.len(),
    ensures
        changed_in(lines, k) == new_lines_spanned(hunks_so_far(hunks_after(lines, k))),
    decreases k,
{
    if k == 0 {
        assert(new_lines_spanned(Seq::empty()) =~= Set::<usize>::empty());
    } else {
        lemma_changed_in_spanned(lines, k - 1);
        let prev = hunks_so_far(hunks_after(lines, k - 1));
        let next = hunks_so_far(hunks_after(lines, k));
        let line = lines[k - 1];
        match hunk_of(line) {
            Some(h) => {
                assert(next =~= prev.push((h, Seq::empty())));
                assert(changed_in(lines, k) == changed_in(lines, k - 1).union(new_lines_of(line)));
                assert forall|l: usize| #[trigger] new_lines_spanned(next).contains(l)
                    == changed_in(lines, k).contains(l) by {
                    assert(new_lines_of(line).contains(l) == (h.2 <= l && l < h.3));
                    if new_lines_spanned(next).contains(l) {
                        let i = choose|i: int| 0 <= i < next.len() && #[trigger] next[i].0.2 <= l && l < next[i].0.3;
                        if i < prev.len() {
                            assert(prev[i] == next[i]);
                            assert(new_lines_spanned(prev).contains(l));
                        } else {
                            assert(next[i] == (h, Seq::<Seq<char>>::empty()));
                            assert(new_lines_of(line).contains(l));
                        }
                        assert(changed_in(lines, k).contains(l));
                    }
                    if changed_in(lines, k).contains(l) {
                        if new_lines_spanned(prev).contains(l) {
                            let i = choose|i: int| 0 <= i < prev.len() && #[trigger] prev[i].0.2 <= l && l < prev[i].0.3;
                            assert(next[i] == prev[i]);
                        } else {
                            assert(next[prev.len() as int] == (h, Seq::<Seq<char>>::empty()));
                            assert(next[prev.len() as int].0.2 <= l && l < next[prev.len() as int].0.3);
                        }
                        assert(new_lines_spanned(next).contains(l));
                    }
                }
                assert(new_lines_spanned(next) =~= changed_in(lines, k));
            },
            None => {
                assert(new_lines_of(line) =~= Set::<usize>::empty());
                assert(changed_in(lines, k) =~= changed_in(lines, k - 1));
                assert(next.len() == prev.len());
                assert(forall|i: int| 0 <= i < next.len() ==> (#[trigger] next[i]).0 == prev[i].0);
                assert forall|l: usize| #[trigger] new_lines_spanned(next).contains(l)
                    == new_lines_spanned(prev).contains(l) by {
                    if new_lines_spanned(next).contains(l) {
                        let i = choose|i: int| 0 <= i < next.len() && #[trigger] next[i].0.2 <= l && l < next[i].0.3;
                        assert(prev[i].0 == next[i].0);
                    }
                    if new_lines_spanned(prev).contains(l) {
                        let i = choose|i: int| 0 <= i < prev.len() && #[trigger] prev[i].0.2 <= l && l < prev[i].0.3;
                        assert(prev[i].0 == next[i].0);
                    }
                }
                assert(new_lines_spanned(next) =~= new_lines_spanned(prev));
            },
        }
    }
}

/// The lines that a diff changes are exactly the new lines of its hunks:
/// what `parse_changed_lines` gives is what the hunks of `parse_hunks` span.
pub proof fn law_changed_lines_are_hunk_lines(diff: Seq<char>)
    ensures
        changed_lines_of(diff) == new_lines_spanned(hunks_of(diff)),
{
    let lines = crate::lines::lines_of(diff);
    lemma_changed_in_spanned(lines, lines.len() as int);
}

/// The text's lines joined again with line feeds, with a final line feed
/// where the text ends with one.
spec fn rejoined(s: Seq<char>) -> Seq<char> {
    let body = join(lines_of(s), seq!['\n']);
    if s.len() > 0 && s.last() == '\n' {
        body.push('\n')
    } else {
        body
    }
}

proof fn lemma_rejoined(s: Seq<char>)
    requires
        !has_crlf(s),
    ensures
        rejoined(s) == s,
    decreases s.len(),
{
    lemma_next_newline(s, 0);
    let nl = next_newline(s, 0);
    if s.len() == 0 {
        assert(lines_of(s) =~= Seq::<Seq<char>>::empty());
    } else if nl >= s.len() {
        assert(no_newline(s));
        crate::lines::lemma_lines_of_one(s);
    } else {
        let p = s.subrange(0, nl);
        let rest = s.skip(nl + 1);
        if nl > 0 {
            assert(!crlf_at(s, nl - 1));
        }
        lemma_lines_shift(s, nl + 1);
        assert(lines_of(s) =~= seq![p] + lines_of(rest));
        assert(forall|i: int| #[trigger] crlf_at(rest, i) ==> crlf_at(s, i + nl + 1));
        if rest.len() == 0 {
            assert(lines_of(rest) =~= Seq::<Seq<char>>::empty());
            assert(lines_of(s) =~= seq![p]);
            assert(s =~= p.push('\n'));
        } else {
            lemma_rejoined(rest);
            lemma_next_newline(rest, 0);
            assert(lines_of(rest).len() > 0);
            let parts = seq![p] + lines_of(rest);
            lemma_join_front(parts, seq!['\n']);
            assert(parts.drop_first() =~= lines_of(rest));
            assert(rest.last() == s.last());
            if s.last() == '\n' {
                assert(s =~= p + seq!['\n'] + join(lines_of(rest), seq!['\n']).push('\n'));
            } else {
                assert(s =~= p + seq!['\n'] + join(lines_of(rest), seq!['\n']));
            }
        }
    }
}

/// Applying no hunks to a text without CRLF line endings gives the text
/// back.
pub proof fn law_no_hunks_keep_text(source: Seq<char>)
    requires
        !has_crlf(source),
    ensures
        hunks_applied(source, Seq::empty()) == source,
{
    let src = lines_of(source);
    assert(patched_lines(src, Seq::empty(), 0) =~= src);
    lemma_rejoined(source);
}

/// No line of what `format` gives ends in white space.
pub proof fn law_formatted_lines_end_clean(input: Seq<char>, line_length: Option<usize>)
    ensures
        formatted(input, line_length) matches Some(o) ==>
            forall|k: int| 0 <= k < lines_of(o).len() ==> ends_clean(#[trigger] lines_of(o)[k]),
{
    if let Some(o) = formatted(input, line_length) {
        assert(exists|s5: Seq<char>| o == without_trailing_white(s5, line_ending_of(s5)));
        let s5 = choose|s5: Seq<char>| o == without_trailing_white(s5, line_ending_of(s5));
        law_no_line_ends_in_white(s5, line_ending_of(s5));
    }
}

proof fn lemma_next_newline_prefix(a: Seq<char>, b: Seq<char>, j: int)
    requires
        0 <= j < a.len(),
        a.last() == '\n',
    ensures
        next_newline(a + b, j) == next_newline(a, j),
        next_newline(a, j) < a.len(),
    decreases a.len() - j,
{
    assert((a + b)[j] == a[j]);
    if a[j] != '\n' {
        lemma_next_newline_prefix(a, b, j + 1);
    }
}

proof fn lemma_lines_from_concat(a: Seq<char>, b: Seq<char>, from: int)
    requires
        0 <= from <= a.len(),
        a.len() == 0 || a.last() == '\n',
    ensures
        lines_from(a + b, from) == lines_from(a, from) + lines_of(b),
    decreases a.len() - from,
{
    let s = a + b;
    if from == a.len() {
        lemma_lines_shift(s, from);
        assert(s.skip(from) =~= b);
        assert(lines_from(a, from) =~= Seq::<Seq<char>>::empty());
        assert(lines_from(s, from) =~= lines_from(a, from) + lines_of(b));
    } else {
        lemma_next_newline_prefix(a, b, from);
        lemma_next_newline(a, from);
        let nl = next_newline(a, from);
        let end = if nl > from && a[nl - 1] == '\r' { nl - 1 } else { nl };
        if nl > from {
            assert(s[nl - 1] == a[nl - 1]);
        }
        lemma_lines_from_concat(a, b, nl + 1);
        assert(s.subrange(from, end) =~= a.subrange(from, end));
        assert(lines_from(s, from) =~= seq![s.subrange(from, end)] + lines_from(s, nl + 1));
        assert(lines_from(a, from) =~= seq![a.subrange(from, end)] + lines_from(a, nl + 1));
        assert(lines_from(s, from) =~= lines_from(a, from) + lines_of(b));
    }
}

/// The lines of a text that ends with a line feed, followed by another text,
/// are the lines of the one followed by the lines of the other.
pub proof fn lemma_lines_of_concat(a: Seq<char>, b: Seq<char>)
    requires
        a.len() == 0 || a.last() == '\n',
    ensures
        lines_of(a + b) == lines_of(a) + lines_of(b),
{
    lemma_lines_from_concat(a, b, 0);
}

proof fn lemma_hunks_after_prefix(la: Seq<Seq<char>>, lb: Seq<Seq<char>>, k: int)
    requires
        0 <= k <= la.len(),
    ensures
        hunks_after(la + lb, k) == hunks_after(la, k),
    decreases k,
{
    if k > 0 {
        lemma_hunks_after_prefix(la, lb, k - 1);
        assert((la + lb)[k - 1] == la[k - 1]);
    }
}

proof fn lemma_hunks_after_suffix(la: Seq<Seq<char>>, lb: Seq<Seq<char>>, k: int)
    requires
        1 <= k <= lb.len(),
        hunk_of(lb[0]) is Some,
    ensures
        ({
            let (done, cur) = hunks_after(lb, k);
            hunks_after(la + lb, la.len() + k) == (hunks_so_far(hunks_after(la, la.len() as int)) + done, cur)
        }),
    decreases k,
{
    let l = la + lb;
    assert(l[la.len() + k - 1] == lb[k - 1]);
    if k == 1 {
        lemma_hunks_after_prefix(la, lb, la.len() as int);
        assert(hunks_after(lb, 0) == (Seq::<HunkText>::empty(), Option::<HunkText>::None));
        let all_a = hunks_so_far(hunks_after(la, la.len() as int));
        assert(all_a + Seq::<HunkText>::empty() =~= all_a);
    } else {
        lemma_hunks_after_suffix(la, lb, k - 1);
        let all_a = hunks_so_far(hunks_after(la, la.len() as int));
        let (done, cur) = hunks_after(lb, k - 1);
        match cur {
            Some(c) => {
                assert((all_a + done).push(c) =~= all_a + done.push(c));
            },
            None => {},
        }
    }
}

/// The hunks of two diffs one after the other are the hunks of the first
/// followed by those of the second, where the first ends with a line feed and
/// the second starts with a hunk header.
pub proof fn law_hunks_of_concat(a: Seq<char>, b: Seq<char>)
    requires
        a.len() == 0 || a.last() == '\n',
        b.len() == 0 || hunk_of(lines_of(b)[0]) is Some,
    ensures
        hunks_of(a + b) == hunks_of(a) + hunks_of(b),
{
    lemma_lines_of_concat(a, b);
    let la = lines_of(a);
    let lb = lines_of(b);
    assert(lines_of(a + b) == la + lb);
    if b.len() == 0 {
        assert(lb =~= Seq::<Seq<char>>::empty());
        assert(la + lb =~= la);
        assert(hunks_of(b) =~= Seq::<HunkText>::empty());
        assert(hunks_of(a) + hunks_of(b) =~= hunks_of(a));
    } else {
        lemma_next_newline(b, 0);
        assert(lb.len() > 0);
        lemma_hunks_after_suffix(la, lb, lb.len() as int);
        let all_a = hunks_so_far(hunks_after(la, la.len() as int));
        let (done, cur) = hunks_after(lb, lb.len() as int);
        assert(hunks_of(a) == all_a);
        match cur {
            Some(c) => {
                assert((all_a + done).push(c) =~= all_a + done.push(c));
            },
            None => {},
        }
    }
}

proof fn lemma_boundary_concat(a: Seq<u8>, b: Seq<u8>, p: int)
    requires
        valid_utf8(a),
        valid_utf8(b),
        p <= a.len(),
    ensures
        valid_utf8(a + b),
        is_char_boundary(a + b, p) == is_char_boundary(a, p),
    decreases a.len(),
{
    valid_utf8_concat(a, b);
    if p > 0 {
        let l = length_of_first_scalar(a);
        assert((a + b)[0] == a[0]);
        assert(length_of_first_scalar(a + b) == l);
        assert(pop_first_scalar(a + b) =~= pop_first_scalar(a) + b);
        valid_utf8_concat(pop_first_scalar(a), b);
        assert(is_char_boundary(a + b, p) == is_char_boundary(pop_first_scalar(a) + b, p - l));
        assert(is_char_boundary(a, p) == is_char_boundary(pop_first_scalar(a), p - l));
        if p - l >= 0 {
            lemma_boundary_concat(pop_first_scalar(a), b, p - l);
        }
    }
}

proof fn lemma_subrange_valid(bytes: Seq<u8>, i: int, j: int)
    requires
        valid_utf8(bytes),
        0 <= i <= j <= bytes.len(),
        is_char_boundary(bytes, i),
        is_char_boundary(bytes, j),
    ensures
        valid_utf8(bytes.subrange(i, j)),
{
    valid_utf8_split(bytes, j);
    let pre = bytes.subrange(0, j);
    let post = bytes.subrange(j, bytes.len() as int);
    valid_utf8_split(bytes, j);
    assert(pre + post =~= bytes);
    lemma_boundary_concat(pre, post, i);
    valid_utf8_split(pre, i);
    assert(pre.subrange(i, pre.len() as int) =~= bytes.subrange(i, j));
}

proof fn lemma_spliced_valid(bytes: Seq<u8>, es: Seq<EditModel>, last: int)
    requires
        valid_utf8(bytes),
        edits_fit(bytes, es, last),
    ensures
        valid_utf8(spliced(bytes, es, last)),
    decreases es.len(),
{
    vstd::utf8::is_char_boundary_start_end_of_seq(bytes);
    if es.len() == 0 {
        lemma_subrange_valid(bytes, last, bytes.len() as int);
    } else {
        let e = es[0];
        lemma_subrange_valid(bytes, last, e.start as int);
        lemma_spliced_valid(bytes, es.drop_first(), e.end as int);
        vstd::utf8::encode_utf8_valid_utf8(e.text);
        valid_utf8_concat(bytes.subrange(last, e.start as int), encode_utf8(e.text));
        valid_utf8_concat(
            bytes.subrange(last, e.start as int) + encode_utf8(e.text),
            spliced(bytes, es.drop_first(), e.end as int),
        );
    }
}

proof fn lemma_fit_suffix(bytes: Seq<u8>, s1: Seq<EditModel>, s2: Seq<EditModel>, last: int)
    requires
        valid_utf8(bytes),
        edits_fit(bytes, s1 + s2, last),
        s2.len() > 0,
    ensures
        edits_fit(bytes, s2, 0),
    decreases s1.len(),
{
    vstd::utf8::is_char_boundary_start_end_of_seq(bytes);
    if s1.len() == 0 {
        assert(s1 + s2 =~= s2);
    } else {
        assert((s1 + s2).drop_first() =~= s1.drop_first() + s2);
        lemma_fit_suffix(bytes, s1.drop_first(), s2, s1[0].end as int);
    }
}

proof fn lemma_splice_before(bytes: Seq<u8>, s1: Seq<EditModel>, s2: Seq<EditModel>, last: int)
    requires
        valid_utf8(bytes),
        edits_fit(bytes, s1 + s2, last),
        s2.len() > 0,
        forall|i: int| 0 <= i < s1.len() ==> (#[trigger] s1[i]).start <= s1[i].end <= s2[0].start,
    ensures
        edits_fit(spliced(bytes, s2, 0), s1, last),
        spliced(spliced(bytes, s2, 0), s1, last) == spliced(bytes, s1 + s2, last),
    decreases s1.len(),
{
    let big = s1 + s2;
    let cut = s2[0].start as int;
    lemma_fit_suffix(bytes, s1, s2, last);
    let mid = spliced(bytes, s2, 0);
    let e0 = s2[0];
    let r = encode_utf8(e0.text) + spliced(bytes, s2.drop_first(), e0.end as int);
    let pre = bytes.subrange(0, cut);
    vstd::utf8::is_char_boundary_start_end_of_seq(bytes);
    assert(mid == bytes.subrange(0, cut) + r);
    lemma_subrange_valid(bytes, 0, cut);
    lemma_subrange_valid(bytes, cut, bytes.len() as int);
    lemma_spliced_valid(bytes, s2.drop_first(), e0.end as int);
    vstd::utf8::encode_utf8_valid_utf8(e0.text);
    valid_utf8_concat(encode_utf8(e0.text), spliced(bytes, s2.drop_first(), e0.end as int));
    assert(pre + bytes.subrange(cut, bytes.len() as int) =~= bytes);
    assert(mid =~= pre + r);
    lemma_boundary_concat(pre, r, 0);
    if s1.len() == 0 {
        assert(big =~= s2);
        lemma_boundary_concat(pre, bytes.subrange(cut, bytes.len() as int), last);
        lemma_boundary_concat(pre, r, last);
        assert(mid.subrange(last, mid.len() as int) =~= bytes.subrange(last, cut) + r);
    } else {
        let e = s1[0];
        assert(big[0] == e);
        assert(big.drop_first() =~= s1.drop_first() + s2);
        assert(e.end <= cut);
        assert forall|i: int| 0 <= i < s1.drop_first().len() implies (#[trigger] s1.drop_first()[i]).start <= s1.drop_first()[i].end <= s2[0].start by {
            assert(s1.drop_first()[i] == s1[i + 1]);
        }
        lemma_splice_before(bytes, s1.drop_first(), s2, e.end as int);
        lemma_boundary_concat(pre, bytes.subrange(cut, bytes.len() as int), last);
        lemma_boundary_concat(pre, r, last);
        lemma_boundary_concat(pre, bytes.subrange(cut, bytes.len() as int), e.start as int);
        lemma_boundary_concat(pre, r, e.start as int);
        assert(mid.subrange(last, e.start as int) =~= bytes.subrange(last, e.start as int));
    }
}

proof fn lemma_sorted_members(es: Seq<EditModel>)
    ensures
        forall|k: int| 0 <= k < sort_by_start(es).len() ==> es.contains(#[trigger] sort_by_start(es)[k]),
    decreases es.len(),
{
    if es.len() > 0 {
        let rest = es.drop_last();
        lemma_sorted_members(rest);
        law_sorted_edits_are_ordered(rest);
        lemma_insert_ordered(sort_by_start(rest), es.last());
        let s = sort_by_start(es);
        assert forall|k: int| 0 <= k < s.len() implies es.contains(#[trigger] s[k]) by {
            if s[k] == es.last() {
                assert(es[es.len() - 1] == es.last());
            } else {
                assert(sort_by_start(rest).contains(s[k]));
                let m = choose|m: int| 0 <= m < sort_by_start(rest).len() && sort_by_start(rest)[m] == s[k];
                assert(rest.contains(sort_by_start(rest)[m]));
                let n = choose|n: int| 0 <= n < rest.len() && rest[n] == s[k];
                assert(es[n] == s[k]);
            }
        }
    }
}

proof fn lemma_insert_after(a: Seq<EditModel>, b: Seq<EditModel>, x: EditModel)
    requires
        forall|i: int| 0 <= i < a.len() ==> (#[trigger] a[i]).start <= x.start,
    ensures
        insert_by_start(a + b, x) == a + insert_by_start(b, x),
    decreases b.len(),
{
    if b.len() == 0 {
        assert(a + b =~= a);
        assert(insert_by_start(b, x) =~= seq![x]);
        if a.len() > 0 {
            assert(a[a.len() - 1] == a.last());
            assert(a.push(x) =~= a + seq![x]);
        } else {
            assert(a + seq![x] =~= seq![x]);
        }
    } else {
        assert((a + b).last() == b.last());
        assert((a + b).drop_last() =~= a + b.drop_last());
        if b.last().start > x.start {
            lemma_insert_after(a, b.drop_last(), x);
            assert((a + insert_by_start(b.drop_last(), x)).push(b.last()) =~= a + insert_by_start(b.drop_last(), x).push(b.last()));
        } else {
            assert((a + b).push(x) =~= a + b.push(x));
        }
    }
}

proof fn lemma_sort_concat(a: Seq<EditModel>, b: Seq<EditModel>)
    requires
        forall|i: int, j: int| 0 <= i < a.len() && 0 <= j < b.len() ==> (#[trigger] a[i]).start <= (#[trigger] b[j]).start,
    ensures
        sort_by_start(a + b) == sort_by_start(a) + sort_by_start(b),
    decreases b.len(),
{
    if b.len() == 0 {
        assert(a + b =~= a);
        assert(sort_by_start(a) + sort_by_start(b) =~= sort_by_start(a));
    } else {
        let x = b.last();
        assert((a + b).last() == x);
        assert((a + b).drop_last() =~= a + b.drop_last());
        assert forall|i: int, j: int| 0 <= i < a.len() && 0 <= j < b.drop_last().len() implies (#[trigger] a[i]).start <= (#[trigger] b.drop_last()[j]).start by {
            assert(b.drop_last()[j] == b[j]);
        }
        lemma_sort_concat(a, b.drop_last());
        lemma_sorted_members(a);
        let sa = sort_by_start(a);
        assert forall|i: int| 0 <= i < sa.len() implies (#[trigger] sa[i]).start <= x.start by {
            assert(a.contains(sa[i]));
            let m = choose|m: int| 0 <= m < a.len() && a[m] == sa[i];
            assert(b[b.len() - 1] == x);
        }
        lemma_insert_after(sa, sort_by_start(b.drop_last()), x);
    }
}

/// Edits whose ranges all end before those of other edits start can be
/// applied in two steps: the later ones first, then the earlier ones on the
/// result. That gives what applying them all at once gives.
pub proof fn law_edits_apply_in_two_steps(text: Seq<char>, first: Seq<EditModel>, second: Seq<EditModel>)
    requires
        forall|i: int, j: int| 0 <= i < first.len() && 0 <= j < second.len() ==>
            (#[trigger] first[i]).start <= first[i].end && first[i].end <= (#[trigger] second[j]).start,
        edits_fit(encode_utf8(text), sort_by_start(first + second), 0),
    ensures
        edits_fit(encode_utf8(text), sort_by_start(second), 0),
        edits_fit(spliced(encode_utf8(text), sort_by_start(second), 0), sort_by_start(first), 0),
        spliced(spliced(encode_utf8(text), sort_by_start(second), 0), sort_by_start(first), 0)
            == spliced(encode_utf8(text), sort_by_start(first + second), 0),
{
    let bytes = encode_utf8(text);
    vstd::utf8::encode_utf8_valid_utf8(text);
    vstd::utf8::is_char_boundary_start_end_of_seq(bytes);
    lemma_sort_concat(first, second);
    let s1 = sort_by_start(first);
    let s2 = sort_by_start(second);
    if s2.len() == 0 {
        assert(s1 + s2 =~= s1);
        assert(spliced(bytes, s2, 0) =~= bytes);
    } else {
        lemma_sorted_members(first);
        lemma_sorted_members(second);
        assert forall|i: int| 0 <= i < s1.len() implies (#[trigger] s1[i]).start <= s1[i].end <= s2[0].start by {
            let m = choose|m: int| 0 <= m < first.len() && first[m] == s1[i];
            let n = choose|n: int| 0 <= n < second.len() && second[n] == s2[0];
            assert(first[m].end <= second[n].start);
        }
        lemma_fit_suffix(bytes, s1, s2, 0);
        lemma_splice_before(bytes, s1, s2, 0);
    }
}


/// The lines of a diff that start with `+`, each without its `+`, in order.
pub open spec fn plus_lines(lines: Seq<Seq<char>>) -> Seq<Seq<char>>
    decreases lines.len(),
{
    if lines.len() == 0 {
        Seq::empty()
    } else {
        let rest = plus_lines(lines.drop_last());
        let l = lines.last();
        if l.len() > 0 && l[0] == '+' {
            rest.push(l.drop_first())
        } else {
            rest
        }
    }
}

proof fn lemma_one_hunk_after(lines: Seq<Seq<char>>, k: int)
    requires
        1 <= k <= lines.len(),
        hunk_of(lines[0]) is Some,
        forall|i: int| 1 <= i < lines.len() ==> hunk_of(#[trigger] lines[i]) is None,
    ensures
        hunks_after(lines, k) == (Seq::<HunkText>::empty(), Some((hunk_of(lines[0])->0, plus_lines(lines.subrange(1, k))))),
    decreases k,
{
    if k == 1 {
        assert(hunks_after(lines, 0) == (Seq::<HunkText>::empty(), Option::<HunkText>::None));
        assert(lines.subrange(1, 1) =~= Seq::<Seq<char>>::empty());
    } else {
        lemma_one_hunk_after(lines, k - 1);
        assert(hunk_of(lines[k - 1]) is None);
        assert(lines.subrange(1, k).drop_last() =~= lines.subrange(1, k - 1));
        assert(lines.subrange(1, k).last() == lines[k - 1]);
    }
}

/// A diff whose first line is a hunk header and whose other lines are not
/// has one hunk: that header's, adding the lines that start with `+`, each
/// without its `+` (an empty one too), in order.
pub proof fn law_hunk_takes_its_plus_lines(diff: Seq<char>)
    requires
        lines_of(diff).len() > 0,
        hunk_of(lines_of(diff)[0]) is Some,
        forall|i: int| 1 <= i < lines_of(diff).len() ==> hunk_of(#[trigger] lines_of(diff)[i]) is None,
    ensures
        hunks_of(diff) == seq![(hunk_of(lines_of(diff)[0])->0, plus_lines(lines_of(diff).drop_first()))],
{
    let l = lines_of(diff);
    lemma_one_hunk_after(l, l.len() as int);
    assert(l.subrange(1, l.len() as int) =~= l.drop_first());
    assert(Seq::<HunkText>::empty().push((hunk_of(l[0])->0, plus_lines(l.drop_first())))
        =~= seq![(hunk_of(l[0])->0, plus_lines(l.drop_first()))]);
}

proof fn lemma_no_hunk_after(lines: Seq<Seq<char>>, k: int)
    requires
        0 <= k <= lines.len(),
        forall|i: int| 0 <= i < lines.len() ==> hunk_of(#[trigger] lines[i]) is None,
    ensures
        hunks_after(lines, k) == (Seq::<HunkText>::empty(), Option::<HunkText>::None),
    decreases k,
{
    if k > 0 {
        lemma_no_hunk_after(lines, k - 1);
        assert(hunk_of(lines[k - 1]) is None);
    }
}

/// A diff without hunk headers has no hunks, whatever lines it holds.
pub proof fn law_no_header_no_hunks(diff: Seq<char>)
    requires
        forall|i: int| 0 <= i < lines_of(diff).len() ==> hunk_of(#[trigger] lines_of(diff)[i]) is None,
    ensures
        hunks_of(diff) == Seq::<HunkText>::empty(),
{
    lemma_no_hunk_after(lines_of(diff), lines_of(diff).len() as int);
}

} // verus!
