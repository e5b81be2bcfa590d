use tweaker::suggestions::from_man_output;
use tweaker::suggestions::from_tldr_pages;
use tweaker::suggestions::load;
use tweaker::suggestions::platform_subdirs;
use tweaker::suggestions::Platform;
use tweaker::suggestions::parse_man_options;
use tweaker::suggestions::parse_tldr;
use tweaker::suggestions::split_flag_line;
use tweaker::suggestions::strip_backspace;
use tweaker::suggestions::SuggestionKind;

#[test]
fn tldr_descriptions_and_examples() {
    let page = "- First::\n`a`\n``\n`b`\n- Second\n  `c d`  \n";
    let s = parse_tldr(page);
    assert_eq!(s.len(), 3);
    assert_eq!((s[0].description.as_str(), s[0].example.as_str()), ("First", "a"));
    assert_eq!((s[1].description.as_str(), s[1].example.as_str()), ("", "b"));
    assert_eq!((s[2].description.as_str(), s[2].example.as_str()), ("Second", "c d"));
}

#[test]
fn first_page_with_examples_wins() {
    let pages = vec!["# empty\n".to_string(), "`x`\n".to_string(), "`y`\n".to_string()];
    let s = from_tldr_pages(&pages).unwrap();
    assert_eq!(s.len(), 1);
    assert_eq!(s[0].example, "x");
    assert!(from_tldr_pages(&vec!["nothing".to_string()]).is_none());
}

#[test]
fn strip_backspace_at_start() {
    assert_eq!(strip_backspace("\x08a"), "a");
    assert_eq!(strip_backspace("é\x08x"), "x");
}

#[test]
fn man_flags_with_pending_descriptions() {
    let text = "SYNOPSIS\n  -x ignored\nGeneral Options\n   -v\n        be verbose\n   --long-only, -L  long\n              -x  too deep\n    -9  not a letter\nEXIT STATUS\n  -z after\n";
    let s = parse_man_options(text);
    let got: Vec<(&str, &str)> =
        s.iter().map(|s| (s.example.as_str(), s.description.as_str())).collect();
    assert_eq!(got, vec![("-v", "be verbose"), ("--long-only", "long")]);
    assert!(s.iter().all(|s| s.kind == SuggestionKind::Flag));
}

#[test]
fn man_output_with_overstrike() {
    let raw = "O\x08OP\x08PT\x08TI\x08IO\x08ON\x08NS\x08S\n  -\x08-a\x08a  all\n";
    let s = from_man_output(raw);
    assert_eq!(s.len(), 1);
    assert_eq!(s[0].example, "-a");
    assert_eq!(s[0].description, "all");
}

#[test]
fn split_flag_line_more_forms() {
    assert_eq!(split_flag_line("-o, --output=FILE, -O write here"), ("-o".to_string(), "write here".to_string()));
    assert_eq!(split_flag_line(""), (String::new(), String::new()));
    assert_eq!(split_flag_line("-a,, b"), ("-a".to_string(), "b".to_string()));
}

#[test]
fn load_prefers_tldr_then_man() {
    let pages = vec!["no examples\n".to_string(), "- List:\n`ls -l`\n".to_string()];
    let man = "OPTIONS\n  -a  all\n";
    let s = load(&pages, Some(man));
    assert_eq!(s.len(), 1);
    assert_eq!(s[0].example, "ls -l");
    assert_eq!(s[0].kind, SuggestionKind::Example);

    let s = load(&vec!["no examples\n".to_string()], Some(man));
    assert_eq!(s.len(), 1);
    assert_eq!((s[0].example.as_str(), s[0].description.as_str()), ("-a", "all"));
    assert_eq!(s[0].kind, SuggestionKind::Flag);

    assert!(load(&Vec::new(), None).is_empty());
    assert!(load(&vec!["nothing".to_string()], Some("no options here\n")).is_empty());
}

#[test]
fn platform_subdirs_per_platform() {
    assert_eq!(platform_subdirs(Platform::MacOs), vec!["common", "osx"]);
    assert_eq!(platform_subdirs(Platform::Linux), vec!["common", "linux"]);
    assert_eq!(platform_subdirs(Platform::Other), vec!["common"]);
}

#[test]
fn man_flag_indent_counts_leading_whitespace_only() {
    let text = "OPTIONS\n       -v      \n              be verbose\n";
    let s = parse_man_options(text);
    assert_eq!(s.len(), 1);
    assert_eq!((s[0].example.as_str(), s[0].description.as_str()), ("-v", "be verbose"));
    assert_eq!(s[0].kind, SuggestionKind::Flag);
    // Thirteen spaces of indent is too deep for a flag line.
    assert!(parse_man_options("OPTIONS\n             -v  x\n").is_empty());
}
