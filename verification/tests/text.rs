use sff_formatter::lines::{remove_trailing_whitespace, strip_trailing_white};

#[test]
fn spaces_and_tabs_at_line_ends_go() {
    assert_eq!(remove_trailing_whitespace("a  \nb\t\n"), "a\nb\n");
}

#[test]
fn crlf_is_kept() {
    assert_eq!(remove_trailing_whitespace("a \r\nb \r\n"), "a\r\nb\r\n");
}

#[test]
fn empty_text_stays_empty() {
    assert_eq!(remove_trailing_whitespace(""), "");
}

#[test]
fn blank_lines_are_emptied_but_kept() {
    assert_eq!(remove_trailing_whitespace("a\n\n  \n"), "a\n\n\n");
}

#[test]
fn no_final_newline_stays_without() {
    assert_eq!(remove_trailing_whitespace("a \nb "), "a\nb");
}

#[test]
fn unicode_white_space_is_trimmed() {
    assert_eq!(remove_trailing_whitespace("a\u{a0}\u{3000}\n"), "a\n");
}

#[test]
fn lone_carriage_return_in_last_line_is_white_space() {
    assert_eq!(remove_trailing_whitespace("a\nb\r"), "a\nb");
}

#[test]
fn mixed_endings_become_crlf() {
    assert_eq!(remove_trailing_whitespace("a\nb\r\nc\n"), "a\r\nb\r\nc\r\n");
}

#[test]
fn joining_with_line_feeds_only() {
    assert_eq!(strip_trailing_white("a \r\nb\r\n", "\n"), "a\nb\n");
}

#[test]
fn removing_twice_is_removing_once() {
    let once = remove_trailing_whitespace(" x \r\n\t\r\n y");
    assert_eq!(remove_trailing_whitespace(&once), once);
}
