use tweaker::history::entries_from_text;
use tweaker::history::parse_line;

#[test]
fn parse_plain_line() {
    assert_eq!(parse_line("ls -la"), "ls -la");
}

#[test]
fn parse_zsh_extended_prefix() {
    assert_eq!(parse_line(": 1700000000:0;git status"), "git status");
}

#[test]
fn parse_zsh_extended_with_whitespace() {
    assert_eq!(parse_line(": 1700000000:0;  cargo build  "), "cargo build");
}

#[test]
fn parse_line_malformed_prefix_returned_verbatim() {
    // A leading colon with no semicolon is not the zsh extended format.
    assert_eq!(parse_line(":no-semi-here"), ":no-semi-here");
}

#[test]
fn load_dedupes_consecutive_and_reverses() {
    let mut raw = String::new();
    raw.push_str("ls\n");
    raw.push_str("ls\n"); // duplicate of previous
    raw.push_str("pwd\n");
    raw.push_str(": 1700000000:0;git status\n");
    let entries = entries_from_text(&raw, 100);
    // Newest first, consecutive dupes collapsed.
    assert_eq!(entries, vec!["git status", "pwd", "ls"]);
}

#[test]
fn load_respects_limit() {
    let mut raw = String::new();
    for i in 0..10 {
        raw.push_str(&format!("cmd{i}\n"));
    }
    let entries = entries_from_text(&raw, 3);
    assert_eq!(entries, vec!["cmd9", "cmd8", "cmd7"]);
}
