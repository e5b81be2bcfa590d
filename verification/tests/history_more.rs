use tweaker::history::entries_from_text;
use tweaker::history::parse_line;

#[test]
fn parse_line_edge_cases() {
    assert_eq!(parse_line("  cargo test \\\\"), "cargo test");
    assert_eq!(parse_line(": 1:0;"), "");
    assert_eq!(parse_line(":a;b;c"), "b;c");
    assert_eq!(parse_line(""), "");
    assert_eq!(parse_line("\tls\r"), "ls");
}

#[test]
fn entries_skip_empty_and_handle_crlf() {
    let raw = "ls\r\n\r\n: 1:0;\nls\npwd\r\nls";
    assert_eq!(entries_from_text(raw, 10), vec!["ls", "pwd", "ls"]);
    assert_eq!(entries_from_text(raw, 0), Vec::<String>::new());
    assert_eq!(entries_from_text("", 5), Vec::<String>::new());
}

#[test]
fn entries_keep_nonconsecutive_duplicates() {
    assert_eq!(entries_from_text("a\nb\na\n", 5), vec!["a", "b", "a"]);
}
