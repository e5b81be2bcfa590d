use tweaker::suggestions::from_tldr_pages;
use tweaker::suggestions::parse_man_options;
use tweaker::suggestions::parse_tldr;
use tweaker::suggestions::split_flag_line;
use tweaker::suggestions::strip_backspace;
use tweaker::suggestions::SuggestionKind;

const TLDR_GIT_COMMIT: &str = r#"# git commit

> Create a commit with a message.

- Commit staged files with a message:
`git commit -m "{{message}}"`

- Commit staged files with a long message:
`git commit -m "{{title}}" -m "{{body}}"`

- Amend the last commit:
`git commit --amend`
"#;

#[test]
fn parse_tldr_extracts_examples() {
    let s = parse_tldr(TLDR_GIT_COMMIT);
    assert_eq!(s.len(), 3);
    assert_eq!(s[0].example, r#"git commit -m "{{message}}""#);
    assert_eq!(s[0].description, "Commit staged files with a message");
    assert!(s.iter().all(|s| s.kind == SuggestionKind::Example));
}

#[test]
fn parse_tldr_skips_summary_lines() {
    let s = parse_tldr(TLDR_GIT_COMMIT);
    // Lines starting with `>` are summaries, not examples.
    assert!(s.iter().all(|s| !s.example.starts_with('>')));
}

#[test]
fn load_tldr_returns_none_for_missing_page() {
    // No page was found for the command.
    assert!(from_tldr_pages(&vec![]).is_none());
}

#[test]
fn load_tldr_reads_from_tmpdir() {
    // The page the loader found, as it was read from the cache.
    let s = from_tldr_pages(&vec![TLDR_GIT_COMMIT.to_string()]);
    assert!(s.is_some());
    assert_eq!(s.unwrap().len(), 3);
}

#[test]
fn strip_backspace_removes_overstrike() {
    // Bold in man: 'a\x08a' → 'a'
    let bold = "a\x08ab\x08b";
    assert_eq!(strip_backspace(bold), "ab");
    // Underline: '_\x08a' → 'a'
    let ul = "_\x08a_\x08b";
    assert_eq!(strip_backspace(ul), "ab");
}

const MAN_OPTIONS: &str = "
NAME
       ls - list directory contents

OPTIONS
       -a, --all
              do not ignore entries starting with .

       -A     do not list implied . and ..

       -l     use a long listing format

OTHER
       not an option
";

#[test]
fn parse_man_options_extracts_flags() {
    let s = parse_man_options(MAN_OPTIONS);
    assert!(!s.is_empty());
    assert!(s.iter().all(|s| s.kind == SuggestionKind::Flag));
    let flags: Vec<&str> = s.iter().map(|s| s.example.as_str()).collect();
    assert!(flags.contains(&"-a"), "expected -a in {flags:?}");
    assert!(flags.contains(&"-A"), "expected -A in {flags:?}");
    assert!(flags.contains(&"-l"), "expected -l in {flags:?}");
}

#[test]
fn parse_man_options_stops_at_next_section() {
    let s = parse_man_options(MAN_OPTIONS);
    assert!(s.iter().all(|s| s.example != "not"));
}

#[test]
fn split_flag_line_handles_alternate_form() {
    let (flag, desc) = split_flag_line("-a, --all  do not ignore entries");
    assert_eq!(flag, "-a");
    assert_eq!(desc, "do not ignore entries");
}

#[test]
fn split_flag_line_no_desc() {
    let (flag, desc) = split_flag_line("-v");
    assert_eq!(flag, "-v");
    assert!(desc.is_empty());
}
