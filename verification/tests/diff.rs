use std::collections::BTreeSet;
use sff_formatter::diff::{
    apply_hunks, headers_readable, hunks_fit_text, parse_changed_lines, parse_hunk, parse_hunks, select_hunks,
};

#[test]
fn hunk_header_with_counts() {
    let h = parse_hunk("@@ -1,2 +3,4 @@ fn main").unwrap();
    assert_eq!(h.old_lines, 0..2);
    assert_eq!(h.new_lines, 2..6);
}

#[test]
fn hunk_header_without_counts() {
    let h = parse_hunk("@@ -5 +7 @@").unwrap();
    assert_eq!(h.old_lines, 4..5);
    assert_eq!(h.new_lines, 6..7);
}

#[test]
fn hunk_header_with_plus_sign_in_number() {
    let h = parse_hunk("@@ -+3 +1,0 @@").unwrap();
    assert_eq!(h.old_lines, 2..3);
    assert_eq!(h.new_lines, 0..0);
}

#[test]
fn not_a_hunk_header() {
    assert!(parse_hunk("+++ b/file.py").is_none());
    assert!(parse_hunk("@@ -a +1 @@").is_none());
    assert!(parse_hunk("@@ -1 +2").is_none());
    assert!(parse_hunk("@@ -1,x +2 @@").is_none());
    assert!(parse_hunk("@@ -99999999999999999999999 +1 @@").is_none());
}

#[test]
fn zero_start_with_lines_is_refused_before_reading() {
    assert!(!headers_readable("@@ -0 +1,2 @@\n+a\n+b\n"));
    assert!(headers_readable("@@ -1 +1 @@\n"));
}

#[test]
fn lines_added_at_the_top_of_a_file() {
    let diff = "@@ -0,0 +1,2 @@\n+x\n+y\n";
    assert!(headers_readable(diff));
    let expected: BTreeSet<usize> = [0, 1].into_iter().collect();
    assert_eq!(parse_changed_lines(diff), expected);
    let hunks = parse_hunks(diff);
    assert_eq!(hunks[0].0.old_lines, 0..0);
    assert!(hunks_fit_text("a\n", &hunks));
    assert_eq!(apply_hunks("a\n", hunks), "x\ny\na\n");
}

#[test]
fn inserted_lines_go_after_their_old_line() {
    let hunks = parse_hunks("@@ -1,0 +2 @@\n+X\n");
    assert_eq!(hunks[0].0.old_lines, 1..1);
    assert_eq!(hunks[0].0.new_lines, 1..2);
    assert!(hunks_fit_text("a\nb\n", &hunks));
    assert_eq!(apply_hunks("a\nb\n", hunks), "a\nX\nb\n");
}

#[test]
fn removed_lines_leave_an_empty_new_range() {
    let h = parse_hunk("@@ -2 +1,0 @@").unwrap();
    assert_eq!(h.old_lines, 1..2);
    assert_eq!(h.new_lines, 0..0);
    assert_eq!(apply_hunks("a\nb\nc\n", parse_hunks("@@ -2 +1,0 @@\n-b\n")), "a\nc\n");
}

const DIFF: &str = "diff --git a/x.py b/x.py\n--- a/x.py\n+++ b/x.py\n@@ -1,2 +1,2 @@\n-a\n-b\n+A\n+B\n@@ -10 +10,3 @@\n-c\n+C\n+D\n+E\n";

#[test]
fn changed_lines_are_the_new_lines_of_hunks() {
    let changed = parse_changed_lines(DIFF);
    let expected: BTreeSet<usize> = [0, 1, 9, 10, 11].into_iter().collect();
    assert_eq!(changed, expected);
}

#[test]
fn hunks_hold_their_added_lines() {
    let hunks = parse_hunks(DIFF);
    assert_eq!(hunks.len(), 2);
    assert_eq!(hunks[0].0.old_lines, 0..2);
    assert_eq!(hunks[0].1, vec!["A".to_string(), "B".to_string()]);
    assert_eq!(hunks[1].0.old_lines, 9..10);
    assert_eq!(hunks[1].1, vec!["C".to_string(), "D".to_string(), "E".to_string()]);
}

#[test]
fn plus_lines_before_any_hunk_are_ignored() {
    let hunks = parse_hunks("+++ b/x\n+stray\n@@ -1 +1 @@\n+new\n");
    assert_eq!(hunks.len(), 1);
    assert_eq!(hunks[0].1, vec!["new".to_string()]);
}

#[test]
fn applying_hunks_replaces_old_lines() {
    let source = "a\nb\nc\nd\n";
    let hunks = parse_hunks("@@ -2 +2 @@\n-b\n+B\n@@ -4 +4,2 @@\n-d\n+D\n+E\n");
    assert!(hunks_fit_text(source, &hunks));
    assert_eq!(apply_hunks(source, hunks), "a\nB\nc\nD\nE\n");
}

#[test]
fn applying_no_hunks_keeps_the_text() {
    assert_eq!(apply_hunks("a\nb", Vec::new()), "a\nb");
}

#[test]
fn overlapping_hunks_do_not_fit() {
    let hunks = parse_hunks("@@ -2,2 +2 @@\n+x\n@@ -2 +2 @@\n+y\n");
    assert!(!hunks_fit_text("a\nb\nc\n", &hunks));
}

#[test]
fn only_hunks_touching_changed_lines_are_kept() {
    let hunks = parse_hunks("@@ -1 +1 @@\n+x\n@@ -5,2 +5,2 @@\n+y\n+z\n@@ -9,0 +9 @@\n+w\n");
    let changed: BTreeSet<usize> = [5].into_iter().collect();
    let kept = select_hunks(hunks, &changed);
    assert_eq!(kept.len(), 1);
    assert_eq!(kept[0].0.old_lines, 4..6);
}

#[test]
fn changed_lines_equal_the_lines_spanned_by_parsed_hunks() {
    let changed = parse_changed_lines(DIFF);
    let mut spanned: BTreeSet<usize> = BTreeSet::new();
    for (h, _) in parse_hunks(DIFF) {
        for l in h.new_lines {
            spanned.insert(l);
        }
    }
    assert_eq!(changed, spanned);
}

#[test]
fn applying_no_hunks_keeps_blank_lines_and_final_newline() {
    assert_eq!(apply_hunks("a\n\nb\n\n", Vec::new()), "a\n\nb\n\n");
    assert_eq!(apply_hunks("", Vec::new()), "");
}

#[test]
fn applying_hunks_writes_line_feeds() {
    assert_eq!(apply_hunks("a\r\nb\r\n", Vec::new()), "a\nb\n");
}

#[test]
fn hunks_of_joined_diffs_are_joined() {
    let a = "@@ -1 +1 @@\n-a\n+A\n";
    let b = "@@ -3,0 +4,2 @@\n+x\n+y\n";
    let joined = parse_hunks(&format!("{}{}", a, b));
    let mut parts = parse_hunks(a);
    parts.extend(parse_hunks(b));
    assert_eq!(joined.len(), parts.len());
    for (j, p) in joined.iter().zip(parts.iter()) {
        assert_eq!(j.0.old_lines, p.0.old_lines);
        assert_eq!(j.0.new_lines, p.0.new_lines);
        assert_eq!(j.1, p.1);
    }
}

#[test]
fn plus_line_before_a_header_and_header_without_added_lines() {
    let hunks = parse_hunks("+orphan\n@@ -2 +1,0 @@\n-b\n");
    assert_eq!(hunks.len(), 1);
    assert_eq!(hunks[0].0.old_lines, 1..2);
    assert_eq!(hunks[0].0.new_lines, 0..0);
    assert!(hunks[0].1.is_empty());
}

#[test]
fn new_range_of_whole_file_removal_is_refused_before_reading() {
    assert!(!headers_readable("@@ -1 +0,0 @@\n-a\n"));
}
