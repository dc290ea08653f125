//! Unified diffs: hunk headers, changed lines, and applying hunks to a text.
use vstd::prelude::*;
use std::ops::Range;
use std::collections::BTreeSet;
use crate::lines::{chars_of, push_chars, push_char, find_line_spans, lines_of, line_spans, join};

verus! {

/// A hunk of a unified diff: the lines it replaces in the old text and the
/// lines it holds in the new one, counted from zero.
pub struct Hunk {
    pub old_lines: Range<usize>,
    pub new_lines: Range<usize>,
}

/// The value of a string of decimal digits.
pub open spec fn digits_value(s: Seq<char>) -> int
    decreases s.len(),
{
    if s.len() == 0 {
        0
    } else {
        10 * digits_value(s.drop_last()) + (s.last() as int - '0' as int)
    }
}

pub open spec fn is_digit(c: char) -> bool {
    '0' <= c <= '9'
}

/// The number that `usize::from_str` reads from `s`: an optional `+`
/// followed by one or more decimal digits, whose value fits a `usize`.
pub open spec fn parse_usize(s: Seq<char>) -> Option<usize> {
    let d = unsigned_digits(s);
    if d.len() > 0 && all_digits(d) && digits_value(d) <= usize::MAX {
        Some(digits_value(d) as usize)
    } else {
        None
    }
}

/// `s` without a leading `+`.
pub open spec fn unsigned_digits(s: Seq<char>) -> Seq<char> {
    if s.len() > 0 && s[0] == '+' {
        s.drop_first()
    } else {
        s
    }
}

pub open spec fn all_digits(d: Seq<char>) -> bool {
    forall|i: int| 0 <= i < d.len() ==> #[trigger] is_digit(d[i])
}

proof fn lemma_digits_value_grows(s: Seq<char>, k: int)
    requires
        0 <= k <= s.len(),
        forall|i: int| 0 <= i < s.len() ==> #[trigger] is_digit(s[i]),
    ensures
        0 <= digits_value(s.take(k)) <= digits_value(s),
    decreases s.len() - k,
{
    assert forall|i: int| 0 <= i < s.take(k).len() implies #[trigger] is_digit(s.take(k)[i]) by {
        assert(is_digit(s[i]));
    }
    lemma_digits_nonneg(s.take(k));
    if k < s.len() {
        lemma_digits_value_grows(s, k + 1);
        assert(s.take(k + 1).drop_last() =~= s.take(k));
        assert(is_digit(s[k]));
        assert(s.take(k + 1).last() == s[k]);
    } else {
        assert(s.take(k) =~= s);
    }
}

proof fn lemma_digits_nonneg(s: Seq<char>)
    requires
        forall|i: int| 0 <= i < s.len() ==> #[trigger] is_digit(s[i]),
    ensures
        digits_value(s) >= 0,
    decreases s.len(),
{
    if s.len() > 0 {
        assert forall|i: int| 0 <= i < s.drop_last().len() implies #[trigger] is_digit(s.drop_last()[i]) by {
            assert(is_digit(s[i]));
        }
        assert(is_digit(s[s.len() - 1]));
        lemma_digits_nonneg(s.drop_last());
    }
}

/// Reads a number from the characters `from..to` of `c`, as `usize::from_str`.
pub fn read_usize(c: &Vec<char>, from: usize, to: usize) -> (n: Option<usize>)
    requires
        from <= to <= c@.len(),
    ensures
        n == parse_usize(c@.subrange(from as int, to as int)),
{
    let ghost s = c@.subrange(from as int, to as int);
    let mut i = from;
    if i < to && c[i] == '+' {
        i = i + 1;
    }
    let ghost d = c@.subrange(i as int, to as int);
    assert(d =~= unsigned_digits(s));
    if i == to {
        return None;
    }
    let start = i;
    let mut value: usize = 0;
    while i < to
        invariant
            start <= i <= to <= c@.len(),
            s == c@.subrange(from as int, to as int),
            d == unsigned_digits(s),
            d == c@.subrange(start as int, to as int),
            d.len() > 0,
            forall|k: int| 0 <= k < i - start ==> #[trigger] is_digit(d[k]),
            value == digits_value(d.take(i - start)),
        decreases to - i,
    {
        let ch = c[i];
        assert(d[i - start] == ch);
        if !('0' <= ch && ch <= '9') {
            assert(!is_digit(d[i - start]));
            assert(!all_digits(d));
            return None;
        }
        assert(is_digit(d[i - start]));
        let ghost k1 = i - start + 1;
        assert(d.take(k1).drop_last() =~= d.take(i - start));
        assert(d.take(k1).last() == ch);
        let digit = (ch as u32 - '0' as u32) as u128;
        let wide: u128 = (value as u128) * 10 + digit;
        assert(wide == digits_value(d.take(k1)));
        if wide > usize::MAX as u128 {
            proof {
                lemma_overflow_sticks(d, k1);
            }
            return None;
        }
        let next = wide as usize;
        value = next;
        i = i + 1;
    }
    assert(d.take(d.len() as int) =~= d);
    Some(value)
}

/// Once a prefix of the digits overflows, so does the whole number (or a
/// later character is not a digit).
proof fn lemma_overflow_sticks(d: Seq<char>, k: int)
    requires
        0 < k <= d.len(),
        forall|i: int| 0 <= i < k ==> #[trigger] is_digit(d[i]),
        digits_value(d.take(k)) > usize::MAX,
    ensures
        !(all_digits(d) && digits_value(d) <= usize::MAX),
{
    if all_digits(d) {
        lemma_digits_value_grows(d, k);
    }
}

/// Whether `pat` occurs in `s` at position `i`.
pub open spec fn occurs_at(s: Seq<char>, pat: Seq<char>, i: int) -> bool {
    0 <= i && i + pat.len() <= s.len() && s.subrange(i, i + pat.len()) == pat
}

/// The first position at or after `i` where `pat` occurs in `s`.
pub open spec fn find_from(s: Seq<char>, pat: Seq<char>, i: int) -> Option<int>
    decreases s.len() + 1 - i,
{
    if i < 0 || i + pat.len() > s.len() {
        None
    } else if occurs_at(s, pat, i) {
        Some(i)
    } else {
        find_from(s, pat, i + 1)
    }
}

/// `s` cut at the first occurrence of `pat`, as `str::split_once` gives it.
pub open spec fn split_once(s: Seq<char>, pat: Seq<char>) -> Option<(Seq<char>, Seq<char>)> {
    match find_from(s, pat, 0) {
        None => None,
        Some(i) => Some((s.take(i), s.skip(i + pat.len()))),
    }
}

proof fn lemma_find_from_bounds(s: Seq<char>, pat: Seq<char>, i: int)
    ensures
        find_from(s, pat, i) matches Some(j) ==> i <= j && j + pat.len() <= s.len() && occurs_at(s, pat, j),
    decreases s.len() + 1 - i,
{
    if !(i < 0 || i + pat.len() > s.len()) && !occurs_at(s, pat, i) {
        lemma_find_from_bounds(s, pat, i + 1);
    }
}

/// The first occurrence of `pat` in the characters `from..to` of `c`, as a
/// position in `c`.
fn find_in(c: &Vec<char>, from: usize, to: usize, pat: &Vec<char>) -> (r: Option<usize>)
    requires
        from <= to <= c@.len(),
    ensures
        match find_from(c@.subrange(from as int, to as int), pat@, 0) {
            None => r is None,
            Some(j) => r == Some((from + j) as usize),
        },
{
    let ghost s = c@.subrange(from as int, to as int);
    let m = pat.len();
    if m > to - from {
        return None;
    }
    let mut i = from;
    while i <= to - m
        invariant
            from <= i <= to - m + 1,
            m == pat@.len(),
            m <= to - from,
            to <= c@.len(),
            s == c@.subrange(from as int, to as int),
            find_from(s, pat@, 0) == find_from(s, pat@, i - from),
        decreases to - m + 1 - i,
    {
        let mut k: usize = 0;
        while k < m && c[i + k] == pat[k]
            invariant
                k <= m == pat@.len(),
                from <= i <= to - m,
                to <= c@.len(),
                forall|j: int| 0 <= j < k ==> c@[i + j] == pat@[j],
            decreases m - k,
        {
            k = k + 1;
        }
        if k == m {
            assert(s.subrange(i - from, i - from + m) =~= pat@);
            return Some(i);
        }
        assert(s.subrange(i - from, i - from + m)[k as int] != pat@[k as int]);
        i = i + 1;
    }
    None
}

/// A hunk's lines, from a header's `start[,count]`: `start - 1` up to
/// `start - 1 + count` (the count is 1 where it is left out), as integers.
/// In the old range (`old`), a count of 0 names no line: the range is empty
/// and lies after old line `start`, where the new lines go in, so it reads as
/// `start..start` (`-0,0` for lines added at the top of a file reads as
/// `0..0`). `None` where the numbers do not read.
pub open spec fn range_numbers(s: Seq<char>, old: bool) -> Option<(int, int)> {
    match split_once(s, seq![',']) {
        Some((a, c)) => match (parse_usize(a), parse_usize(c)) {
            (Some(x), Some(y)) => if old && y == 0 {
                Some((x as int, x as int))
            } else {
                Some((x - 1, x - 1 + y))
            },
            _ => None,
        },
        None => match parse_usize(s) {
            Some(x) => Some((x - 1, x as int)),
            None => None,
        },
    }
}

/// The range fits a `Range<usize>`: the start is not negative and the end does
/// not overflow.
pub open spec fn range_fits(r: (int, int)) -> bool {
    0 <= r.0 && r.1 <= usize::MAX
}

/// The two ranges of a hunk header `@@ -old +new @@...`.
pub open spec fn header_parts(line: Seq<char>) -> Option<(Seq<char>, Seq<char>)> {
    let prefix = seq!['@', '@', ' ', '-'];
    if line.len() >= 4 && line.take(4) == prefix {
        let rest = line.skip(4);
        match split_once(rest, seq![' ', '+']) {
            None => None,
            Some((old_part, rest2)) => match split_once(rest2, seq![' ', '@', '@']) {
                None => None,
                Some((new_part, _)) => Some((old_part, new_part)),
            },
        }
    } else {
        None
    }
}

/// Reading the header computes `start - 1` or `start - 1 + count` outside the
/// range of `usize` (a start of 0, as in `@@ -0 +1 @@` or `@@ -1 +0,0 @@`,
/// except an old range `-0,0`): the old range is read first, and the new one
/// only where the old one reads.
pub open spec fn header_overflows(line: Seq<char>) -> bool {
    match header_parts(line) {
        None => false,
        Some((o, n)) => match range_numbers(o, true) {
            None => false,
            Some(r) => !range_fits(r) || match range_numbers(n, false) {
                None => false,
                Some(r2) => !range_fits(r2),
            },
        },
    }
}

/// The hunk that a line of a diff is the header of, as start and end of the
/// old lines and of the new lines.
pub open spec fn hunk_of(line: Seq<char>) -> Option<(int, int, int, int)> {
    match header_parts(line) {
        None => None,
        Some((o, n)) => match (range_numbers(o, true), range_numbers(n, false)) {
            (Some(a), Some(b)) => Some((a.0, a.1, b.0, b.1)),
            _ => None,
        },
    }
}

/// The hunk as numbers.
pub open spec fn hunk_numbers(h: Hunk) -> (int, int, int, int) {
    (h.old_lines.start as int, h.old_lines.end as int, h.new_lines.start as int, h.new_lines.end as int)
}

/// Where the two ranges of a hunk header lie in the characters `from..to`
/// of `c` (see `header_parts`).
fn header_bounds(c: &Vec<char>, from: usize, to: usize) -> (r: Option<(usize, usize, usize, usize)>)
    requires
        from <= to <= c@.len(),
    ensures
        match header_parts(c@.subrange(from as int, to as int)) {
            None => r is None,
            Some((o, n)) => r matches Some((a, b, d, e)) && a <= b <= to && d <= e <= to && o == c@.subrange(
                a as int,
                b as int,
            ) && n == c@.subrange(d as int, e as int),
        },
{
    let ghost line = c@.subrange(from as int, to as int);
    if to - from < 4 || !(c[from] == '@' && c[from + 1] == '@' && c[from + 2] == ' ' && c[from + 3] == '-') {
        proof {
            if line.len() >= 4 {
                assert(line.take(4)[0] == c@[from as int]);
                assert(line.take(4)[1] == c@[from + 1]);
                assert(line.take(4)[2] == c@[from + 2]);
                assert(line.take(4)[3] == c@[from + 3]);
            }
        }
        return None;
    }
    assert(line.take(4) =~= seq!['@', '@', ' ', '-']);
    let rest_from = from + 4;
    let ghost rest = line.skip(4);
    assert(rest =~= c@.subrange(rest_from as int, to as int));
    let plus = vec![' ', '+'];
    assert(plus@ =~= seq![' ', '+']);
    let i = match find_in(c, rest_from, to, &plus) {
        None => return None,
        Some(i) => i,
    };
    proof {
        lemma_find_from_bounds(rest, plus@, 0);
        assert(rest.take(i - rest_from) =~= c@.subrange(rest_from as int, i as int));
        assert(rest.skip(i - rest_from + 2) =~= c@.subrange(i + 2, to as int));
    }
    let ats = vec![' ', '@', '@'];
    assert(ats@ =~= seq![' ', '@', '@']);
    let j = match find_in(c, i + 2, to, &ats) {
        None => return None,
        Some(j) => j,
    };
    proof {
        let rest2 = c@.subrange(i + 2, to as int);
        lemma_find_from_bounds(rest2, ats@, 0);
        assert(rest2.take(j - (i + 2)) =~= c@.subrange(i + 2, j as int));
    }
    Some((rest_from, i, i + 2, j))
}

/// The numbers of a header range `start[,count]`: `start - 1` and
/// `start - 1 + count`, or `start` twice for a count of 0 in an old range
/// (see `range_numbers`).
fn range_values(c: &Vec<char>, from: usize, to: usize, old: bool) -> (r: Option<(i128, i128)>)
    requires
        from <= to <= c@.len(),
    ensures
        match range_numbers(c@.subrange(from as int, to as int), old) {
            None => r is None,
            Some(p) => r == Some((p.0 as i128, p.1 as i128)) && p.0 == r.unwrap().0 && p.1 == r.unwrap().1,
        },
{
    let ghost s = c@.subrange(from as int, to as int);
    let comma = vec![','];
    assert(comma@ =~= seq![',']);
    match find_in(c, from, to, &comma) {
        Some(i) => {
            proof {
                lemma_find_from_bounds(s, comma@, 0);
                assert(s.take(i - from) =~= c@.subrange(from as int, i as int));
                assert(s.skip(i - from + 1) =~= c@.subrange(i + 1, to as int));
            }
            let start = match read_usize(c, from, i) {
                Some(x) => x,
                None => return None,
            };
            let count = match read_usize(c, i + 1, to) {
                Some(y) => y,
                None => return None,
            };
            if old && count == 0 {
                Some((start as i128, start as i128))
            } else {
                Some((start as i128 - 1, start as i128 - 1 + count as i128))
            }
        },
        None => {
            let start = match read_usize(c, from, to) {
                Some(x) => x,
                None => return None,
            };
            Some((start as i128 - 1, start as i128))
        },
    }
}

fn read_range(c: &Vec<char>, from: usize, to: usize, old: bool) -> (r: Option<Range<usize>>)
    requires
        from <= to <= c@.len(),
        range_numbers(c@.subrange(from as int, to as int), old) matches Some(p) ==> range_fits(p),
    ensures
        match range_numbers(c@.subrange(from as int, to as int), old) {
            None => r is None,
            Some(p) => r matches Some(rr) && rr.start == p.0 && rr.end == p.1,
        },
{
    match range_values(c, from, to, old) {
        None => None,
        Some((a, b)) => Some((a as usize)..(b as usize)),
    }
}

fn fits_usize(v: (i128, i128)) -> (b: bool)
    ensures
        b == range_fits((v.0 as int, v.1 as int)),
{
    0 <= v.0 && v.1 <= usize::MAX as i128
}

/// Whether reading the header in the characters `from..to` of `c`
/// overflows (see `header_overflows`).
fn header_overflows_in(c: &Vec<char>, from: usize, to: usize) -> (b: bool)
    requires
        from <= to <= c@.len(),
    ensures
        b == header_overflows(c@.subrange(from as int, to as int)),
{
    match header_bounds(c, from, to) {
        None => false,
        Some((a, b, d, e)) => match range_values(c, a, b, true) {
            None => false,
            Some(r) => {
                if !fits_usize(r) {
                    return true;
                }
                match range_values(c, d, e, false) {
                    None => false,
                    Some(r2) => !fits_usize(r2),
                }
            },
        },
    }
}

/// Whether no line of `diff` is a hunk header whose reading overflows (see
/// `headers_fit`).
pub fn headers_readable(diff: &str) -> (b: bool)
    ensures
        b == headers_fit(diff@),
{
    let chars = chars_of(diff);
    let ghost s = chars@;
    let spans = find_line_spans(&chars);
    proof {
        lemma_spans_count(s, spans@);
    }
    let mut k: usize = 0;
    while k < spans.len()
        invariant
            s == chars@,
            s == diff@,
            spans@.map_values(|p: (usize, usize)| (p.0 as int, p.1 as int)) == line_spans(s, 0),
            forall|i: int| 0 <= i < spans@.len() ==> (#[trigger] spans@[i]).0 <= spans@[i].1 <= s.len(),
            lines_of(s).len() == spans@.len(),
            k <= spans@.len(),
            forall|i: int| 0 <= i < k ==> !header_overflows(#[trigger] lines_of(s)[i]),
        decreases spans@.len() - k,
    {
        let (a, b) = spans[k];
        proof {
            lemma_line_at(s, spans@, k as int);
        }
        if header_overflows_in(&chars, a, b) {
            return false;
        }
        k = k + 1;
    }
    true
}

/// The hunk whose header is the characters `from..to` of `c`.
pub fn hunk_in(c: &Vec<char>, from: usize, to: usize) -> (h: Option<Hunk>)
    requires
        from <= to <= c@.len(),
        !header_overflows(c@.subrange(from as int, to as int)),
    ensures
        match hunk_of(c@.subrange(from as int, to as int)) {
            None => h is None,
            Some(p) => h matches Some(hh) && hunk_numbers(hh) == p,
        },
{
    let (a, b, d, e) = match header_bounds(c, from, to) {
        None => return None,
        Some(q) => q,
    };
    let old_lines = match read_range(c, a, b, true) {
        None => return None,
        Some(r) => r,
    };
    let new_lines = match read_range(c, d, e, false) {
        None => return None,
        Some(r) => r,
    };
    Some(Hunk { old_lines, new_lines })
}

/// The hunk whose header is `line`, if it is one.
pub fn parse_hunk(line: &str) -> (h: Option<Hunk>)
    requires
        !header_overflows(line@),
    ensures
        match hunk_of(line@) {
            None => h is None,
            Some(p) => h matches Some(hh) && hunk_numbers(hh) == p,
        },
{
    let c = chars_of(line);
    assert(c@.subrange(0, c@.len() as int) =~= line@);
    hunk_in(&c, 0, c.len())
}


/// No line of the text is a hunk header whose reading overflows.
pub open spec fn headers_fit(s: Seq<char>) -> bool {
    forall|k: int| 0 <= k < lines_of(s).len() ==> !header_overflows(#[trigger] lines_of(s)[k])
}

/// The new lines of a hunk header, as a set.
pub open spec fn new_lines_of(line: Seq<char>) -> Set<usize> {
    match hunk_of(line) {
        None => Set::empty(),
        Some(h) => Set::new(|l: usize| h.2 <= l < h.3),
    }
}

/// The new lines of the hunks whose headers are among the first `k` lines.
pub open spec fn changed_in(lines: Seq<Seq<char>>, k: int) -> Set<usize>
    decreases k,
{
    if k <= 0 {
        Set::empty()
    } else {
        changed_in(lines, k - 1).union(new_lines_of(lines[k - 1]))
    }
}

/// The lines of the new text that the hunks of a diff change.
pub open spec fn changed_lines_of(s: Seq<char>) -> Set<usize> {
    changed_in(lines_of(s), lines_of(s).len() as int)
}

proof fn lemma_line_at(s: Seq<char>, spans: Seq<(usize, usize)>, k: int)
    requires
        spans.map_values(|p: (usize, usize)| (p.0 as int, p.1 as int)) == line_spans(s, 0),
        0 <= k < spans.len(),
    ensures
        lines_of(s).len() == spans.len(),
        lines_of(s)[k] == s.subrange(spans[k].0 as int, spans[k].1 as int),
{
    assert(line_spans(s, 0)[k] == (spans[k].0 as int, spans[k].1 as int));
}

/// The lines of the new text that the hunks of the diff `diff` change: the
/// new lines of each hunk header.
pub fn parse_changed_lines(diff: &str) -> (changed: BTreeSet<usize>)
    requires
        headers_fit(diff@),
    ensures
        changed@ == changed_lines_of(diff@),
{
    let chars = chars_of(diff);
    let ghost s = chars@;
    let spans = find_line_spans(&chars);
    let mut changed: BTreeSet<usize> = BTreeSet::new();
    let mut k: usize = 0;
    proof {
        lemma_spans_count(s, spans@);
    }
    while k < spans.len()
        invariant
            s == chars@,
            s == diff@,
            headers_fit(s),
            spans@.map_values(|p: (usize, usize)| (p.0 as int, p.1 as int)) == line_spans(s, 0),
            forall|i: int| 0 <= i < spans@.len() ==> (#[trigger] spans@[i]).0 <= spans@[i].1 <= s.len(),
            lines_of(s).len() == spans@.len(),
            k <= spans@.len(),
            changed@ == changed_in(lines_of(s), k as int),
        decreases spans@.len() - k,
    {
        let (a, b) = spans[k];
        proof {
            lemma_line_at(s, spans@, k as int);
        }
        let ghost line = lines_of(s)[k as int];
        assert(!header_overflows(line));
        match hunk_in(&chars, a, b) {
            None => {
                assert(new_lines_of(line) =~= Set::<usize>::empty());
                assert(changed@ =~= changed_in(lines_of(s), k + 1));
            },
            Some(h) => {
                let ghost before = changed@;
                let mut l = h.new_lines.start;
                while l < h.new_lines.end
                    invariant
                        l == h.new_lines.start || l <= h.new_lines.end,
                        l >= h.new_lines.start,
                        changed@ == before.union(Set::new(|x: usize| h.new_lines.start <= x < l)),
                    decreases h.new_lines.end - l,
                {
                    changed.insert(l);
                    assert(changed@ =~= before.union(Set::new(|x: usize| h.new_lines.start <= x < l + 1)));
                    l = l + 1;
                }
                assert(new_lines_of(line) =~= Set::new(|x: usize| h.new_lines.start <= x < l));
                assert(changed@ =~= changed_in(lines_of(s), k + 1));
            },
        }
        k = k + 1;
    }
    changed
}

proof fn lemma_spans_count(s: Seq<char>, spans: Seq<(usize, usize)>)
    requires
        spans.map_values(|p: (usize, usize)| (p.0 as int, p.1 as int)) == line_spans(s, 0),
    ensures
        lines_of(s).len() == spans.len(),
{
    assert(spans.map_values(|p: (usize, usize)| (p.0 as int, p.1 as int)).len() == spans.len());
}


/// A hunk as numbers, with its added lines.
pub type HunkText = ((int, int, int, int), Seq<Seq<char>>);

/// A parsed hunk with its added lines, as numbers and texts.
pub open spec fn hunk_text(p: (Hunk, Vec<String>)) -> HunkText {
    (hunk_numbers(p.0), p.1@.map_values(|l: String| l@))
}

pub open spec fn hunk_texts(v: Seq<(Hunk, Vec<String>)>) -> Seq<HunkText> {
    v.map_values(|p: (Hunk, Vec<String>)| hunk_text(p))
}

/// After the first `k` lines of a diff: the hunks that are complete, and
/// the hunk being read. A hunk header starts a new hunk; a line that starts
/// with `+` adds the rest of the line to the hunk being read; other lines
/// are passed over.
pub open spec fn hunks_after(lines: Seq<Seq<char>>, k: int) -> (Seq<HunkText>, Option<HunkText>)
    decreases k,
{
    if k <= 0 {
        (Seq::empty(), None)
    } else {
        let (done, cur) = hunks_after(lines, k - 1);
        let line = lines[k - 1];
        match hunk_of(line) {
            Some(h) => (
                match cur {
                    Some(c) => done.push(c),
                    None => done,
                },
                Some((h, Seq::empty())),
            ),
            None => match cur {
                Some(c) => if line.len() > 0 && line[0] == '+' {
                    (done, Some((c.0, c.1.push(line.drop_first()))))
                } else {
                    (done, Some(c))
                },
                None => (done, None),
            },
        }
    }
}

/// The hunks of a diff, each with the lines that it adds.
pub open spec fn hunks_of(s: Seq<char>) -> Seq<HunkText> {
    let (done, cur) = hunks_after(lines_of(s), lines_of(s).len() as int);
    match cur {
        Some(c) => done.push(c),
        None => done,
    }
}

/// The hunks of the diff `diff`, each with the lines that it adds (without
/// their leading `+`).
pub fn parse_hunks(diff: &str) -> (hunks: Vec<(Hunk, Vec<String>)>)
    requires
        headers_fit(diff@),
    ensures
        hunk_texts(hunks@) == hunks_of(diff@),
{
    let chars = chars_of(diff);
    let ghost s = chars@;
    let spans = find_line_spans(&chars);
    let mut hunks: Vec<(Hunk, Vec<String>)> = Vec::new();
    let mut current: Option<(Hunk, Vec<String>)> = None;
    let mut k: usize = 0;
    proof {
        lemma_spans_count(s, spans@);
    }
    while k < spans.len()
        invariant
            s == chars@,
            s == diff@,
            headers_fit(s),
            spans@.map_values(|p: (usize, usize)| (p.0 as int, p.1 as int)) == line_spans(s, 0),
            forall|i: int| 0 <= i < spans@.len() ==> (#[trigger] spans@[i]).0 <= spans@[i].1 <= s.len(),
            lines_of(s).len() == spans@.len(),
            k <= spans@.len(),
            hunks_after(lines_of(s), k as int) == (hunk_texts(hunks@), match current {
                Some(c) => Some(hunk_text(c)),
                None => None::<HunkText>,
            }),
        decreases spans@.len() - k,
    {
        let (a, b) = spans[k];
        proof {
            lemma_line_at(s, spans@, k as int);
        }
        let ghost line = lines_of(s)[k as int];
        assert(!header_overflows(line));
        match hunk_in(&chars, a, b) {
            Some(h) => {
                let ghost prev = hunk_texts(hunks@);
                match current.take() {
                    Some(c) => {
                        let ghost ct = hunk_text(c);
                        hunks.push(c);
                        assert(hunk_texts(hunks@) =~= prev.push(ct));
                    },
                    None => {},
                }
                let fresh: Vec<String> = Vec::new();
                assert(fresh@.map_values(|l: String| l@) =~= Seq::<Seq<char>>::empty());
                current = Some((h, fresh));
            },
            None => {
                match current.take() {
                    Some((h, mut added)) => {
                        if b > a && chars[a] == '+' {
                            let ghost before = added@.map_values(|l: String| l@);
                            let mut text = String::new();
                            push_chars(&mut text, &chars, a + 1, b);
                            assert(text@ =~= line.drop_first());
                            added.push(text);
                            assert(added@.map_values(|l: String| l@) =~= before.push(line.drop_first()));
                        }
                        current = Some((h, added));
                    },
                    None => {},
                }
            },
        }
        k = k + 1;
    }
    match current.take() {
        Some(c) => {
            let ghost prev = hunk_texts(hunks@);
            let ghost ct = hunk_text(c);
            hunks.push(c);
            assert(hunk_texts(hunks@) =~= prev.push(ct));
        },
        None => {},
    }
    hunks
}


/// The hunks can be applied, in order, to a text of `n` lines, the lines
/// before them ending at `last`: each hunk's old lines start at or after the
/// end of the hunk before it, and within the text, and the end of the last
/// hunk lies within the text.
pub open spec fn hunks_fit(n: int, hs: Seq<HunkText>, last: int) -> bool
    decreases hs.len(),
{
    if hs.len() == 0 {
        last <= n
    } else {
        &&& last <= hs[0].0.0 <= n
        &&& hunks_fit(n, hs.drop_first(), hs[0].0.1)
    }
}

/// The lines from `last` on with each hunk's old lines replaced by its
/// added lines.
pub open spec fn patched_lines(src: Seq<Seq<char>>, hs: Seq<HunkText>, last: int) -> Seq<Seq<char>>
    decreases hs.len(),
{
    if hs.len() == 0 {
        src.subrange(last, src.len() as int)
    } else {
        src.subrange(last, hs[0].0.0) + hs[0].1 + patched_lines(src, hs.drop_first(), hs[0].0.1)
    }
}

/// The text with the hunks applied: its lines patched and joined with line
/// feeds, with a final line feed where the text has one.
pub open spec fn hunks_applied(source: Seq<char>, hs: Seq<HunkText>) -> Seq<char> {
    let out = join(patched_lines(lines_of(source), hs, 0), seq!['\n']);
    if source.len() > 0 && source.last() == '\n' {
        out.push('\n')
    } else {
        out
    }
}

/// Whether the hunks can be applied to `source` (see `hunks_fit`).
pub fn hunks_fit_text(source: &str, hunks: &Vec<(Hunk, Vec<String>)>) -> (fit: bool)
    ensures
        fit == hunks_fit(lines_of(source@).len() as int, hunk_texts(hunks@), 0),
{
    let chars = chars_of(source);
    let spans = find_line_spans(&chars);
    proof {
        lemma_spans_count(chars@, spans@);
    }
    let n = spans.len();
    let ghost hs = hunk_texts(hunks@);
    let mut last: usize = 0;
    let mut k: usize = 0;
    assert(hs.skip(0) =~= hs);
    while k < hunks.len()
        invariant
            n == lines_of(source@).len(),
            hs == hunk_texts(hunks@),
            k <= hunks@.len(),
            hunks_fit(n as int, hs, 0) == hunks_fit(n as int, hs.skip(k as int), last as int),
        decreases hunks@.len() - k,
    {
        let h = &hunks[k].0;
        assert(hs.skip(k as int)[0] == hs[k as int]);
        assert(hs.skip(k as int).drop_first() =~= hs.skip(k + 1));
        if !(last <= h.old_lines.start && h.old_lines.start <= n) {
            return false;
        }
        last = h.old_lines.end;
        k = k + 1;
    }
    last <= n
}

/// Appends `item` to a text that joins items with line feeds.
fn push_item(out: &mut String, nonempty: bool, item_chars: &Vec<char>, from: usize, to: usize, Ghost(items): Ghost<Seq<Seq<char>>>)
    requires
        from <= to <= item_chars@.len(),
        old(out)@ == join(items, seq!['\n']),
        nonempty == (items.len() > 0),
    ensures
        final(out)@ == join(items.push(item_chars@.subrange(from as int, to as int)), seq!['\n']),
{
    let ghost item = item_chars@.subrange(from as int, to as int);
    assert(items.push(item).drop_last() =~= items);
    if nonempty {
        push_char(out, '\n');
    }
    push_chars(out, item_chars, from, to);
}

/// The text `source` with the hunks applied in order: the old lines of each
/// hunk are replaced by its added lines, and the lines are joined with line
/// feeds (a line feed at the end of `source` is kept).
pub fn apply_hunks(source: &str, hunks: Vec<(Hunk, Vec<String>)>) -> (out: String)
    requires
        hunks_fit(lines_of(source@).len() as int, hunk_texts(hunks@), 0),
    ensures
        out@ == hunks_applied(source@, hunk_texts(hunks@)),
{
    let chars = chars_of(source);
    let ghost s = chars@;
    let spans = find_line_spans(&chars);
    proof {
        lemma_spans_count(s, spans@);
    }
    let ghost src = lines_of(s);
    let ghost hs = hunk_texts(hunks@);
    let n = spans.len();
    let mut out = String::new();
    let ghost mut emitted: Seq<Seq<char>> = Seq::empty();
    let mut nonempty = false;
    let mut last: usize = 0;
    let mut k: usize = 0;
    assert(hs.skip(0) =~= hs);
    assert(patched_lines(src, hs, 0) =~= emitted + patched_lines(src, hs.skip(0), 0));
    while k < hunks.len()
        invariant
            s == chars@,
            s == source@,
            src == lines_of(s),
            spans@.map_values(|p: (usize, usize)| (p.0 as int, p.1 as int)) == line_spans(s, 0),
            forall|i: int| 0 <= i < spans@.len() ==> (#[trigger] spans@[i]).0 <= spans@[i].1 <= s.len(),
            n == spans@.len() == src.len(),
            hs == hunk_texts(hunks@),
            k <= hunks@.len(),
            hunks_fit(n as int, hs.skip(k as int), last as int),
            patched_lines(src, hs, 0) == emitted + patched_lines(src, hs.skip(k as int), last as int),
            out@ == join(emitted, seq!['\n']),
            nonempty == (emitted.len() > 0),
        decreases hunks@.len() - k,
    {
        assert(hs.skip(k as int)[0] == hs[k as int]);
        assert(hs.skip(k as int).drop_first() =~= hs.skip(k + 1));
        let start = hunks[k].0.old_lines.start;
        let ghost e0 = emitted;
        let mut i = last;
        while i < start
            invariant
                s == chars@,
                src == lines_of(s),
                spans@.map_values(|p: (usize, usize)| (p.0 as int, p.1 as int)) == line_spans(s, 0),
                forall|j: int| 0 <= j < spans@.len() ==> (#[trigger] spans@[j]).0 <= spans@[j].1 <= s.len(),
                n == spans@.len() == src.len(),
                last <= i <= start <= n,
                emitted == e0 + src.subrange(last as int, i as int),
                out@ == join(emitted, seq!['\n']),
                nonempty == (emitted.len() > 0),
            decreases start - i,
        {
            proof {
                lemma_line_at(s, spans@, i as int);
            }
            let (a, b) = spans[i];
            push_item(&mut out, nonempty, &chars, a, b, Ghost(emitted));
            proof {
                emitted = emitted.push(s.subrange(a as int, b as int));
                assert(emitted =~= e0 + src.subrange(last as int, i + 1));
            }
            nonempty = true;
            i = i + 1;
        }
        let ghost e1 = emitted;
        let added = &hunks[k].1;
        let ghost added_t = hs[k as int].1;
        let mut j: usize = 0;
        while j < added.len()
            invariant
                added_t == added@.map_values(|l: String| l@),
                j <= added@.len(),
                emitted == e1 + added_t.take(j as int),
                out@ == join(emitted, seq!['\n']),
                nonempty == (emitted.len() > 0),
            decreases added@.len() - j,
        {
            let line_chars = chars_of(added[j].as_str());
            push_item(&mut out, nonempty, &line_chars, 0, line_chars.len(), Ghost(emitted));
            proof {
                assert(line_chars@.subrange(0, line_chars@.len() as int) =~= added_t[j as int]);
                emitted = emitted.push(added_t[j as int]);
                assert(emitted =~= e1 + added_t.take(j + 1));
            }
            nonempty = true;
            j = j + 1;
        }
        assert(added_t.take(j as int) =~= added_t);
        last = hunks[k].0.old_lines.end;
        assert(patched_lines(src, hs, 0) =~= emitted + patched_lines(src, hs.skip(k + 1), last as int));
        k = k + 1;
    }
    let ghost e2 = emitted;
    let mut i = last;
    assert(hs.skip(k as int) =~= Seq::<HunkText>::empty());
    while i < n
        invariant
            s == chars@,
            src == lines_of(s),
            spans@.map_values(|p: (usize, usize)| (p.0 as int, p.1 as int)) == line_spans(s, 0),
            forall|j: int| 0 <= j < spans@.len() ==> (#[trigger] spans@[j]).0 <= spans@[j].1 <= s.len(),
            n == spans@.len() == src.len(),
            last <= i <= n,
            emitted == e2 + src.subrange(last as int, i as int),
            out@ == join(emitted, seq!['\n']),
            nonempty == (emitted.len() > 0),
        decreases n - i,
    {
        proof {
            lemma_line_at(s, spans@, i as int);
        }
        let (a, b) = spans[i];
        push_item(&mut out, nonempty, &chars, a, b, Ghost(emitted));
        proof {
            emitted = emitted.push(s.subrange(a as int, b as int));
            assert(emitted =~= e2 + src.subrange(last as int, i + 1));
        }
        nonempty = true;
        i = i + 1;
    }
    assert(emitted =~= patched_lines(src, hs, 0));
    let len = chars.len();
    if len > 0 && chars[len - 1] == '\n' {
        push_char(&mut out, '\n');
    }
    out
}

/// The hunks whose old lines hold one of the lines `changed`.
pub open spec fn touches(h: HunkText, changed: Set<usize>) -> bool {
    exists|l: usize| #[trigger] changed.contains(l) && h.0.0 <= l < h.0.1
}

/// The hunks, in order, that touch one of the lines `changed`.
pub open spec fn hunks_touching(hs: Seq<HunkText>, changed: Set<usize>) -> Seq<HunkText>
    decreases hs.len(),
{
    if hs.len() == 0 {
        hs
    } else if touches(hs.last(), changed) {
        hunks_touching(hs.drop_last(), changed).push(hs.last())
    } else {
        hunks_touching(hs.drop_last(), changed)
    }
}

/// Keeps the hunks whose old lines hold one of the lines in `changed`, in
/// their order.
pub fn select_hunks(hunks: Vec<(Hunk, Vec<String>)>, changed: &BTreeSet<usize>) -> (kept: Vec<(Hunk, Vec<String>)>)
    ensures
        hunk_texts(kept@) == hunks_touching(hunk_texts(hunks@), changed@),
{
    let ghost all = hunk_texts(hunks@);
    let mut rest = hunks;
    let mut kept: Vec<(Hunk, Vec<String>)> = Vec::new();
    let ghost mut done: int = 0;
    while rest.len() > 0
        invariant
            0 <= done <= all.len(),
            hunk_texts(rest@) == all.skip(done),
            hunk_texts(kept@) == hunks_touching(all.take(done), changed@),
        decreases rest.len(),
    {
        let ghost r0 = rest@;
        assert(hunk_texts(r0).len() == r0.len());
        assert(hunk_texts(r0)[0] == hunk_text(r0[0]));
        let item = rest.remove(0);
        assert(all.skip(done)[0] == all[done]);
        let ghost it = hunk_text(item);
        assert(it == all[done]);
        let start = item.0.old_lines.start;
        let end = item.0.old_lines.end;
        let mut l = start;
        let mut hit = false;
        while l < end && !hit
            invariant
                start <= l,
                l == start || l <= end,
                hit ==> changed@.contains((l - 1) as usize) && start <= l - 1 < end,
                !hit ==> forall|x: usize| start <= x < l ==> !changed@.contains(x),
            decreases end - l,
        {
            if changed.contains(&l) {
                hit = true;
            }
            l = l + 1;
        }
        proof {
            if hit {
                let w = (l - 1) as usize;
                assert(changed@.contains(w));
                assert(touches(it, changed@));
            }
            assert(all.take(done + 1).drop_last() =~= all.take(done));
            assert(all.take(done + 1).last() == it);
        }
        if hit {
            let ghost prev = hunk_texts(kept@);
            kept.push(item);
            assert(hunk_texts(kept@) =~= prev.push(it));
        }
        assert(rest@ =~= r0.drop_first());
        assert(hunk_texts(rest@) =~= hunk_texts(r0).drop_first());
        assert(all.skip(done).drop_first() =~= all.skip(done + 1));
        assert(hunk_texts(rest@) =~= all.skip(done + 1));
        proof {
            done = done + 1;
        }
    }
    assert(all.take(done) =~= all);
    kept
}

} // verus!
