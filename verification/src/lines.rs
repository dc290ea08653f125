//! Lines of text, as `str::lines` splits them, and trailing whitespace.
use vstd::prelude::*;
use vstd::std_specs::iter::IteratorSpec;

verus! {

broadcast use vstd::string::group_string_axioms;

/// Whether `c` is white space in the sense of Unicode's `White_Space`
/// property, as `char::is_whitespace` has it.
pub open spec fn is_white(c: char) -> bool {
    ||| '\t' <= c <= '\r'
    ||| c == ' '
    ||| c == '\u{85}'
    ||| c == '\u{a0}'
    ||| c == '\u{1680}'
    ||| '\u{2000}' <= c <= '\u{200a}'
    ||| c == '\u{2028}'
    ||| c == '\u{2029}'
    ||| c == '\u{202f}'
    ||| c == '\u{205f}'
    ||| c == '\u{3000}'
}

pub fn white(c: char) -> (b: bool)
    ensures
        b == is_white(c),
{
    ('\t' <= c && c <= '\r') || c == ' ' || c == '\u{85}' || c == '\u{a0}' || c == '\u{1680}'
        || ('\u{2000}' <= c && c <= '\u{200a}') || c == '\u{2028}' || c == '\u{2029}' || c == '\u{202f}'
        || c == '\u{205f}' || c == '\u{3000}'
}

/// The characters of `s`.
pub fn chars_of(s: &str) -> (v: Vec<char>)
    ensures
        v@ == s@,
{
    let mut it = s.chars();
    let mut v: Vec<char> = Vec::new();
    loop
        invariant_except_break
            it.obeys_prophetic_iter_laws(),
            it.decrease() is Some,
            v@ + it.remaining() == s@,
        ensures
            v@ == s@,
        decreases it.decrease()->0,
    {
        let ghost before = it.remaining();
        match it.next() {
            Some(c) => {
                v.push(c);
                assert(v@ + it.remaining() =~= s@);
            },
            None => {
                assert(v@ =~= s@);
                break;
            },
        }
    }
    v
}

/// `String::push`: appends one character.
#[verifier::external_body]
pub(crate) fn push_char(s: &mut String, c: char)
    ensures
        final(s)@ == old(s)@.push(c),
{
    s.push(c)
}

/// The characters `from..to` of `chars` appended to `out`.
pub fn push_chars(out: &mut String, chars: &Vec<char>, from: usize, to: usize)
    requires
        from <= to <= chars@.len(),
    ensures
        final(out)@ == old(out)@ + chars@.subrange(from as int, to as int),
{
    let mut i = from;
    while i < to
        invariant
            from <= i <= to <= chars@.len(),
            out@ == old(out)@ + chars@.subrange(from as int, i as int),
        decreases to - i,
    {
        push_char(out, chars[i]);
        assert(out@ =~= old(out)@ + chars@.subrange(from as int, i + 1));
        i = i + 1;
    }
}

/// The first line feed at or after position `j`, or the length.
pub open spec fn next_newline(s: Seq<char>, j: int) -> int
    decreases s.len() - j,
{
    if j < 0 || j >= s.len() {
        s.len() as int
    } else if s[j] == '\n' {
        j
    } else {
        next_newline(s, j + 1)
    }
}

pub proof fn lemma_next_newline(s: Seq<char>, j: int)
    requires
        0 <= j,
    ensures
        j <= next_newline(s, j) <= s.len() || (j > s.len() && next_newline(s, j) == s.len()),
        next_newline(s, j) < s.len() ==> s[next_newline(s, j)] == '\n',
        forall|k: int| j <= k < next_newline(s, j) ==> s[k] != '\n',
    decreases s.len() - j,
{
    if j < s.len() && s[j] != '\n' {
        lemma_next_newline(s, j + 1);
    }
}

/// Where the lines from position `from` on start and end: each line runs up
/// to the next line feed, without it and without a carriage return just
/// before it; the text after the last line feed is a line if it is not empty.
pub open spec fn line_spans(s: Seq<char>, from: int) -> Seq<(int, int)>
    decreases s.len() - from,
{
    if from < 0 || from >= s.len() {
        Seq::empty()
    } else {
        let nl = next_newline(s, from);
        proof {
            lemma_next_newline(s, from);
        }
        if nl >= s.len() {
            seq![(from, s.len() as int)]
        } else {
            let end = if nl > from && s[nl - 1] == '\r' { nl - 1 } else { nl };
            seq![(from, end)] + line_spans(s, nl + 1)
        }
    }
}

/// The lines of `s`, as `str::lines` gives them.
pub open spec fn lines_of(s: Seq<char>) -> Seq<Seq<char>> {
    line_spans(s, 0).map_values(|p: (int, int)| s.subrange(p.0, p.1))
}

pub proof fn lemma_line_spans_bounds(s: Seq<char>, from: int)
    requires
        0 <= from,
    ensures
        forall|k: int| 0 <= k < line_spans(s, from).len() ==> from <= (#[trigger] line_spans(s, from)[k]).0 <= line_spans(s, from)[k].1 <= s.len(),
    decreases s.len() - from,
{
    if from < s.len() {
        let nl = next_newline(s, from);
        lemma_next_newline(s, from);
        if nl < s.len() {
            lemma_line_spans_bounds(s, nl + 1);
            let rest = line_spans(s, nl + 1);
            assert forall|k: int| 1 <= k < line_spans(s, from).len() implies line_spans(s, from)[k] == rest[k - 1] by {}
        }
    }
}

/// The lines of `s` from position `from` on.
pub open spec fn lines_from(s: Seq<char>, from: int) -> Seq<Seq<char>> {
    line_spans(s, from).map_values(|p: (int, int)| s.subrange(p.0, p.1))
}

proof fn lemma_next_newline_skip(s: Seq<char>, f: int, j: int)
    requires
        0 <= f <= s.len(),
        0 <= j,
    ensures
        next_newline(s.skip(f), j) == next_newline(s, f + j) - f,
    decreases s.len() - f - j,
{
    if f + j < s.len() && s[f + j] != '\n' {
        lemma_next_newline_skip(s, f, j + 1);
    }
}

/// The lines of a text from a position on are the lines of the rest of the
/// text.
pub proof fn lemma_lines_shift(s: Seq<char>, from: int)
    requires
        0 <= from <= s.len(),
    ensures
        lines_from(s, from) == lines_of(s.skip(from)),
    decreases s.len() - from, 0int,
{
    let r = s.skip(from);
    if from == s.len() {
        assert(lines_from(s, from) =~= Seq::<Seq<char>>::empty());
        assert(r.len() == 0);
        assert(lines_of(r) =~= Seq::<Seq<char>>::empty());
    } else {
        let nl = next_newline(s, from);
        lemma_next_newline(s, from);
        lemma_next_newline_skip(s, from, 0);
        lemma_next_newline(r, 0);
        assert(next_newline(r, 0) == nl - from);
        if nl >= s.len() {
            assert(lines_from(s, from) =~= seq![s.subrange(from, s.len() as int)]);
            assert(lines_of(r) =~= seq![r.subrange(0, r.len() as int)]);
            assert(r.subrange(0, r.len() as int) =~= s.subrange(from, s.len() as int));
        } else {
            let end = if nl > from && s[nl - 1] == '\r' { nl - 1 } else { nl };
            let end_r = if nl - from > 0 && r[nl - from - 1] == '\r' { nl - from - 1 } else { nl - from };
            if nl > from {
                assert(r[nl - from - 1] == s[nl - 1]);
            }
            assert(end_r == end - from);
            lemma_lines_shift(s, nl + 1);
            lemma_lines_shift(r, nl - from + 1);
            assert(r.skip(nl - from + 1) =~= s.skip(nl + 1));
            assert(lines_from(s, from) =~= seq![s.subrange(from, end)] + lines_from(s, nl + 1));
            assert(lines_of(r) =~= seq![r.subrange(0, end - from)] + lines_from(r, nl - from + 1));
            assert(r.subrange(0, end - from) =~= s.subrange(from, end));
        }
    }
}

/// The text holds no line feed.
pub open spec fn no_newline(p: Seq<char>) -> bool {
    forall|i: int| 0 <= i < p.len() ==> p[i] != '\n'
}

/// A line break: LF or CRLF.
pub open spec fn is_line_break(sep: Seq<char>) -> bool {
    sep == seq!['\n'] || sep == seq!['\r', '\n']
}

/// The text does not end with white space.
pub open spec fn ends_clean(p: Seq<char>) -> bool {
    p.len() == 0 || !is_white(p.last())
}

/// A line without line feed or trailing white space, followed by a line
/// break, is the first line of what it starts.
pub proof fn lemma_lines_of_cons(p: Seq<char>, sep: Seq<char>, rest: Seq<char>)
    requires
        no_newline(p),
        ends_clean(p),
        is_line_break(sep),
    ensures
        lines_of(p + sep + rest) == seq![p] + lines_of(rest),
{
    let s = p + sep + rest;
    let nl = p.len() + sep.len() - 1;
    assert(s[nl] == '\n');
    assert forall|k: int| 0 <= k < nl implies s[k] != '\n' by {
        if k < p.len() {
            assert(s[k] == p[k]);
        } else {
            assert(s[k] == '\r');
        }
    }
    lemma_next_newline(s, 0);
    lemma_first_newline(s, 0, nl);
    if sep == seq!['\n'] && p.len() > 0 {
        assert(s[nl - 1] == p.last());
        assert(p.last() != '\r');
    }
    lemma_lines_shift(s, nl + 1);
    assert(s.skip(nl + 1) =~= rest);
    assert(s.subrange(0, p.len() as int) =~= p);
    assert(lines_of(s) =~= seq![p] + lines_from(s, nl + 1));
}

proof fn lemma_first_newline(s: Seq<char>, j: int, nl: int)
    requires
        0 <= j <= nl < s.len(),
        s[nl] == '\n',
        forall|k: int| j <= k < nl ==> s[k] != '\n',
    ensures
        next_newline(s, j) == nl,
    decreases nl - j,
{
    if j < nl {
        lemma_first_newline(s, j + 1, nl);
    }
}

/// A non-empty line without line feed is the one line of itself.
pub proof fn lemma_lines_of_one(p: Seq<char>)
    requires
        no_newline(p),
    ensures
        p.len() > 0 ==> lines_of(p) == seq![p],
        p.len() == 0 ==> lines_of(p) == Seq::<Seq<char>>::empty(),
{
    if p.len() > 0 {
        lemma_next_newline(p, 0);
        assert(p.subrange(0, p.len() as int) =~= p);
        assert(lines_of(p) =~= seq![p]);
    } else {
        assert(lines_of(p) =~= Seq::<Seq<char>>::empty());
    }
}

/// Joining parts is the first part, a separator, and the rest joined.
pub proof fn lemma_join_front(parts: Seq<Seq<char>>, sep: Seq<char>)
    requires
        parts.len() >= 2,
    ensures
        join(parts, sep) == parts[0] + sep + join(parts.drop_first(), sep),
    decreases parts.len(),
{
    if parts.len() == 2 {
        assert(parts.drop_first().len() == 1);
        assert(join(parts.drop_last(), sep) == parts.drop_last()[0]);
        assert(parts.drop_last()[0] == parts[0]);
        assert(join(parts.drop_first(), sep) == parts.drop_first()[0]);
        assert(parts.drop_first()[0] == parts.last());
    } else {
        lemma_join_front(parts.drop_last(), sep);
        assert(parts.drop_last().drop_first() =~= parts.drop_first().drop_last());
        assert(parts.drop_first().last() == parts.last());
        assert(parts.drop_last()[0] == parts[0]);
        assert(join(parts.drop_first(), sep) == join(parts.drop_first().drop_last(), sep) + sep + parts.drop_first().last());
        assert(join(parts, sep) =~= parts[0] + sep + join(parts.drop_first(), sep));
    }
}

/// Every part is a line without line feed or trailing white space.
pub open spec fn clean_parts(parts: Seq<Seq<char>>) -> bool {
    forall|k: int| 0 <= k < parts.len() ==> no_newline(#[trigger] parts[k]) && ends_clean(parts[k])
}

/// Clean parts joined and followed by a line break are, line by line, the
/// parts again.
pub proof fn lemma_lines_of_joined(parts: Seq<Seq<char>>, sep: Seq<char>)
    requires
        clean_parts(parts),
        is_line_break(sep),
    ensures
        parts.len() > 0 ==> lines_of(join(parts, sep) + sep) == parts,
        parts.len() == 0 || parts.last().len() > 0 ==> lines_of(join(parts, sep)) == parts,
    decreases parts.len(),
{
    if parts.len() == 0 {
        assert(lines_of(join(parts, sep)) =~= parts);
    } else if parts.len() == 1 {
        assert(no_newline(parts[0]) && ends_clean(parts[0]));
        lemma_lines_of_cons(parts[0], sep, Seq::empty());
        lemma_lines_of_one(Seq::<char>::empty());
        assert(parts[0] + sep + Seq::<char>::empty() =~= join(parts, sep) + sep);
        assert(lines_of(join(parts, sep) + sep) =~= parts);
        lemma_lines_of_one(parts[0]);
        if parts[0].len() > 0 {
            assert(lines_of(join(parts, sep)) =~= parts);
        }
    } else {
        let rest = parts.drop_first();
        assert(clean_parts(rest)) by {
            assert forall|k: int| 0 <= k < rest.len() implies no_newline(#[trigger] rest[k]) && ends_clean(rest[k]) by {
                assert(rest[k] == parts[k + 1]);
            }
        }
        assert(no_newline(parts[0]) && ends_clean(parts[0]));
        lemma_lines_of_joined(rest, sep);
        lemma_join_front(parts, sep);
        lemma_lines_of_cons(parts[0], sep, join(rest, sep) + sep);
        assert(parts[0] + sep + (join(rest, sep) + sep) =~= join(parts, sep) + sep);
        assert(seq![parts[0]] + rest =~= parts);
        if parts.last().len() > 0 {
            assert(rest.last() == parts.last());
            lemma_lines_of_cons(parts[0], sep, join(rest, sep));
        }
    }
}

/// The lines of a text hold no line feed.
pub proof fn lemma_lines_have_no_newline(s: Seq<char>)
    ensures
        forall|k: int| 0 <= k < lines_of(s).len() ==> no_newline(#[trigger] lines_of(s)[k]),
{
    lemma_line_spans_no_newline(s, 0);
}

proof fn lemma_line_spans_no_newline(s: Seq<char>, from: int)
    requires
        0 <= from,
    ensures
        forall|k: int| 0 <= k < line_spans(s, from).len() ==> no_newline(
            #[trigger] s.subrange(line_spans(s, from)[k].0, line_spans(s, from)[k].1),
        ),
        forall|k: int| 0 <= k < line_spans(s, from).len() ==> from <= (#[trigger] line_spans(s, from)[k]).0 <= line_spans(s, from)[k].1 <= s.len(),
    decreases s.len() - from,
{
    lemma_line_spans_bounds(s, from);
    if from < s.len() {
        let nl = next_newline(s, from);
        lemma_next_newline(s, from);
        if nl < s.len() {
            lemma_line_spans_no_newline(s, nl + 1);
            let rest = line_spans(s, nl + 1);
            assert forall|k: int| 0 <= k < line_spans(s, from).len() implies no_newline(
                #[trigger] s.subrange(line_spans(s, from)[k].0, line_spans(s, from)[k].1),
            ) by {
                if k > 0 {
                    assert(line_spans(s, from)[k] == rest[k - 1]);
                }
            }
        }
    }
}

/// Trimming leaves a line that does not end in white space, and trimming it
/// again changes nothing.
pub proof fn lemma_trim_end(l: Seq<char>)
    ensures
        ends_clean(trim_end(l)),
        trim_end(trim_end(l)) == trim_end(l),
        trim_end(l).len() <= l.len(),
        trim_end(l) == l.take(trim_end(l).len() as int),
    decreases l.len(),
{
    if l.len() > 0 && is_white(l.last()) {
        lemma_trim_end(l.drop_last());
        assert(l.drop_last().take(trim_end(l).len() as int) =~= l.take(trim_end(l).len() as int));
    } else {
        assert(l.take(l.len() as int) =~= l);
    }
}

/// The spans of the lines of `chars` (see `line_spans`).
pub fn find_line_spans(chars: &Vec<char>) -> (spans: Vec<(usize, usize)>)
    ensures
        spans@.map_values(|p: (usize, usize)| (p.0 as int, p.1 as int)) == line_spans(chars@, 0),
        forall|k: int| 0 <= k < spans@.len() ==> (#[trigger] spans@[k]).0 <= spans@[k].1 <= chars@.len(),
{
    let ghost s = chars@;
    let n = chars.len();
    let mut spans: Vec<(usize, usize)> = Vec::new();
    let mut from: usize = 0;
    while from < n
        invariant
            s == chars@,
            n == s.len(),
            from <= n,
            line_spans(s, 0) == spans@.map_values(|p: (usize, usize)| (p.0 as int, p.1 as int)) + line_spans(s, from as int),
            forall|k: int| 0 <= k < spans@.len() ==> (#[trigger] spans@[k]).0 <= spans@[k].1 <= n,
        decreases n - from,
    {
        let mut nl = from;
        while nl < n && chars[nl] != '\n'
            invariant
                s == chars@,
                from <= nl <= n == s.len(),
                next_newline(s, from as int) == next_newline(s, nl as int),
            decreases n - nl,
        {
            nl = nl + 1;
        }
        proof {
            lemma_next_newline(s, from as int);
        }
        let ghost prev = spans@.map_values(|p: (usize, usize)| (p.0 as int, p.1 as int));
        if nl >= n {
            spans.push((from, n));
            assert(spans@.map_values(|p: (usize, usize)| (p.0 as int, p.1 as int)) =~= prev.push((from as int, n as int)));
            assert(line_spans(s, n as int) =~= Seq::<(int, int)>::empty());
            assert(prev + line_spans(s, from as int) =~= spans@.map_values(|p: (usize, usize)| (p.0 as int, p.1 as int)) + line_spans(s, n as int));
            from = n;
        } else {
            let end = if nl > from && chars[nl - 1] == '\r' { nl - 1 } else { nl };
            spans.push((from, end));
            assert(spans@.map_values(|p: (usize, usize)| (p.0 as int, p.1 as int)) =~= prev.push((from as int, end as int)));
            assert(prev + line_spans(s, from as int) =~= spans@.map_values(|p: (usize, usize)| (p.0 as int, p.1 as int)) + line_spans(s, nl + 1));
            from = nl + 1;
        }
    }
    assert(line_spans(s, from as int) =~= Seq::<(int, int)>::empty());
    assert(line_spans(s, 0) =~= spans@.map_values(|p: (usize, usize)| (p.0 as int, p.1 as int)));
    spans
}

/// `l` without its trailing white space, as `str::trim_end` gives it.
pub open spec fn trim_end(l: Seq<char>) -> Seq<char>
    decreases l.len(),
{
    if l.len() > 0 && is_white(l.last()) {
        trim_end(l.drop_last())
    } else {
        l
    }
}

/// Where the characters `from..to` of `chars` end once their trailing white
/// space is trimmed.
pub fn trimmed_end(chars: &Vec<char>, from: usize, to: usize) -> (end: usize)
    requires
        from <= to <= chars@.len(),
    ensures
        from <= end <= to,
        chars@.subrange(from as int, end as int) == trim_end(chars@.subrange(from as int, to as int)),
{
    let mut end = to;
    while end > from && white(chars[end - 1])
        invariant
            from <= end <= to <= chars@.len(),
            trim_end(chars@.subrange(from as int, to as int)) == trim_end(chars@.subrange(from as int, end as int)),
        decreases end,
    {
        assert(chars@.subrange(from as int, end as int).drop_last() =~= chars@.subrange(from as int, end - 1));
        end = end - 1;
    }
    end
}

/// The parts one after the other with `sep` between them.
pub open spec fn join(parts: Seq<Seq<char>>, sep: Seq<char>) -> Seq<char>
    decreases parts.len(),
{
    if parts.len() == 0 {
        Seq::empty()
    } else if parts.len() == 1 {
        parts[0]
    } else {
        join(parts.drop_last(), sep) + sep + parts.last()
    }
}

/// The text with every line's trailing white space removed and the lines
/// joined by `sep`; a text that ends with a line feed ends with `sep`.
pub open spec fn without_trailing_white(s: Seq<char>, sep: Seq<char>) -> Seq<char> {
    let body = join(lines_of(s).map_values(|l: Seq<char>| trim_end(l)), sep);
    if s.len() > 0 && s.last() == '\n' {
        body + sep
    } else {
        body
    }
}

/// Whether the text holds a carriage return followed by a line feed.
pub open spec fn has_crlf(s: Seq<char>) -> bool {
    exists|i: int| #[trigger] crlf_at(s, i)
}

/// A carriage return at position `i`, followed by a line feed.
pub open spec fn crlf_at(s: Seq<char>, i: int) -> bool {
    0 <= i < s.len() - 1 && s[i] == '\r' && s[i + 1] == '\n'
}

/// The line ending of a text: CRLF where it holds one, else LF.
pub open spec fn line_ending_of(s: Seq<char>) -> Seq<char> {
    if has_crlf(s) {
        seq!['\r', '\n']
    } else {
        seq!['\n']
    }
}

/// Removes the white space at the end of each line of `source` and joins the
/// lines with `sep` (a line feed at the very end is kept as `sep`).
pub fn strip_trailing_white(source: &str, sep: &str) -> (out: String)
    ensures
        out@ == without_trailing_white(source@, sep@),
{
    let chars = chars_of(source);
    let ghost s = chars@;
    let spans = find_line_spans(&chars);
    let ghost lines = lines_of(s).map_values(|l: Seq<char>| trim_end(l));
    let mut out = String::new();
    let mut k: usize = 0;
    while k < spans.len()
        invariant
            s == chars@,
            spans@.map_values(|p: (usize, usize)| (p.0 as int, p.1 as int)) == line_spans(s, 0),
            forall|i: int| 0 <= i < spans@.len() ==> (#[trigger] spans@[i]).0 <= spans@[i].1 <= s.len(),
            lines == lines_of(s).map_values(|l: Seq<char>| trim_end(l)),
            lines.len() == spans@.len(),
            k <= spans@.len(),
            out@ == join(lines.take(k as int), sep@),
        decreases spans@.len() - k,
    {
        let (a, b) = spans[k];
        assert(line_spans(s, 0)[k as int] == (a as int, b as int));
        assert(lines[k as int] == trim_end(s.subrange(a as int, b as int)));
        let e = trimmed_end(&chars, a, b);
        if k > 0 {
            out.append(sep);
        }
        push_chars(&mut out, &chars, a, e);
        assert(lines.take(k + 1).drop_last() =~= lines.take(k as int));
        if k == 0 {
            assert(out@ =~= join(lines.take(1), sep@));
        }
        k = k + 1;
    }
    assert(lines.take(k as int) =~= lines);
    let n = chars.len();
    if n > 0 && chars[n - 1] == '\n' {
        out.append(sep);
    }
    out
}

/// Whether the characters hold a CRLF.
pub fn holds_crlf(chars: &Vec<char>) -> (b: bool)
    ensures
        b == has_crlf(chars@),
{
    let n = chars.len();
    let mut i: usize = 0;
    while n > 0 && i < n - 1
        invariant
            n == chars@.len(),
            forall|j: int| 0 <= j < i ==> !#[trigger] crlf_at(chars@, j),
        decreases n - i,
    {
        if chars[i] == '\r' && chars[i + 1] == '\n' {
            assert(crlf_at(chars@, i as int));
            return true;
        }
        i = i + 1;
    }
    false
}

/// Removes the white space at the end of each line of `source`: a line of
/// white space only becomes empty, and is kept. The lines are joined with the
/// text's line ending (CRLF where it holds one, else LF).
pub fn remove_trailing_whitespace(source: &str) -> (out: String)
    ensures
        out@ == without_trailing_white(source@, line_ending_of(source@)),
{
    let chars = chars_of(source);
    let crlf = holds_crlf(&chars);
    proof {
        reveal_strlit("\r\n");
        reveal_strlit("\n");
        assert("\r\n"@ =~= seq!['\r', '\n']);
        assert("\n"@ =~= seq!['\n']);
    }
    if crlf {
        strip_trailing_white(source, "\r\n")
    } else {
        strip_trailing_white(source, "\n")
    }
}

} // verus!
