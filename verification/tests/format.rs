use sff_formatter::Config;

fn fmt(input: &str) -> String {
    sff_formatter::format(input, Config::default()).expect("formatting failed")
}

#[test]
fn double_quotes_become_single() {
    assert_eq!(fmt("x = \"a\"\n"), "x = 'a'\n");
}

#[test]
fn string_with_single_quote_is_kept() {
    assert_eq!(fmt("x = \"it's\"\n"), "x = \"it's\"\n");
}

#[test]
fn docstring_is_kept() {
    assert_eq!(fmt("\"\"\"doc\"\"\"\n"), "\"\"\"doc\"\"\"\n");
}

#[test]
fn call_arguments_are_spaced() {
    assert_eq!(fmt("foo(a,b)\n"), "foo( a, b )\n");
}

#[test]
fn empty_call_is_kept() {
    assert_eq!(fmt("f()\n"), "f()\n");
}

#[test]
fn trailing_comma_before_bracket() {
    assert_eq!(fmt("x = [1,2,]\n"), "x = [ 1, 2, ]\n");
}

#[test]
fn trailing_whitespace_is_removed() {
    assert_eq!(fmt("x = 1   \ny = 2\t\n"), "x = 1\ny = 2\n");
}

#[test]
fn long_call_is_broken_and_aligned() {
    let args: Vec<String> = (0..8).map(|i| format!("argument_{:02}", i)).collect();
    let input = format!("foo({})\n", args.join(","));
    let mut expected = String::from("foo( ");
    for (i, a) in args.iter().enumerate() {
        if i > 0 {
            expected.push_str(",\n     ");
        }
        expected.push_str(a);
    }
    expected.push_str(" )\n");
    assert_eq!(fmt(&input), expected);
}

#[test]
fn short_call_within_line_length_stays_on_one_line() {
    let config = Config { line_length: Some(200) };
    let args: Vec<String> = (0..8).map(|i| format!("argument_{:02}", i)).collect();
    let input = format!("foo({})\n", args.join(","));
    let expected = format!("foo( {} )\n", args.join(", "));
    assert_eq!(sff_formatter::format(&input, config).unwrap(), expected);
}

#[test]
fn rows_of_a_list_form_a_table() {
    assert_eq!(fmt("x = [(1, 2), (10, 20)]\n"), "x = [ ( 1 , 2  ), ( 10, 20 ) ]\n");
}

#[test]
fn formatting_keeps_crlf_line_endings() {
    assert_eq!(fmt("x = 1  \r\ny = 2\r\n"), "x = 1\r\ny = 2\r\n");
}

#[test]
fn parsed_nodes_start_at_the_module_root() {
    let nodes = sff_formatter::python::parse_nodes("f(a)\n").expect("no tree");
    assert_eq!(nodes[0].kind, "module");
    assert_eq!(nodes[0].depth, 0);
    assert_eq!((nodes[0].start_byte, nodes[0].end_byte), (0, 5));
    let kinds: Vec<&str> = nodes.iter().map(|n| n.kind.as_str()).collect();
    assert!(kinds.contains(&"argument_list"));
    assert!(kinds.contains(&"("));
    let open = nodes.iter().find(|n| n.kind == "(").unwrap();
    assert_eq!((open.start_byte, open.end_byte), (1, 2));
    assert!(!open.is_named);
}

#[test]
fn parse_tree_fits_the_source() {
    let tree = sff_formatter::python::parse_tree("x = [1, 2]\n").expect("no tree");
    assert!(tree.len() > 5);
    assert_eq!(tree.parent(0), None);
}

#[test]
fn quiet_pass_gives_back_its_input() {
    let out = sff_formatter::visit::run_pass("x  =  1\n", sff_formatter::visit::debug::DebugVisitor::default());
    assert_eq!(out.as_deref(), Some("x  =  1\n"));
}

#[test]
fn closing_bracket_after_a_comment_stays_on_its_line() {
    let out = sff_formatter::visit::run_pass(
        "x = [\n    1,  # one\n]\n",
        sff_formatter::visit::spacing::SpacingVisitor::default(),
    );
    assert_eq!(out.as_deref(), Some("x = [ 1, # one\n]\n"));
}
