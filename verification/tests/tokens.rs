use tweaker::tokens::index_for;
use tweaker::tokens::label;
use tweaker::tokens::quote_for_render;
use tweaker::tokens::render;
use tweaker::tokens::render_with_spans;
use tweaker::tokens::split;
use tweaker::tokens::Token;

fn texts(tokens: &[Token]) -> Vec<&str> {
    tokens.iter().map(|t| t.text.as_str()).collect()
}

#[test]
fn split_plain() {
    let t = split("git commit -m hello").unwrap();
    assert_eq!(texts(&t), ["git", "commit", "-m", "hello"]);
    // No quoting — original equals text.
    assert!(t.iter().all(|tok| tok.original == tok.text));
}

#[test]
fn split_preserves_double_quoted_original() {
    let t = split(r#"git commit -m "hi there""#).unwrap();
    assert_eq!(texts(&t), ["git", "commit", "-m", "hi there"]);
    assert_eq!(t[3].original, r#""hi there""#, "original must include the quotes");
}

#[test]
fn split_preserves_single_quoted_original() {
    let t = split("bindkey '^g' tweaker-widget").unwrap();
    assert_eq!(t[1].text, "^g");
    assert_eq!(t[1].original, "'^g'", "original must keep the single quotes");
}

#[test]
fn render_roundtrips_plain() {
    let cmd = "ls -la /tmp";
    assert_eq!(render(&split(cmd).unwrap()), cmd);
}

#[test]
fn render_preserves_original_quoting() {
    // The whole command must round-trip character-for-character.
    for cmd in [
        "bindkey '^g' tweaker-widget",
        r#"git commit -m "fix: typo""#,
        "echo '*.rs'",
        r"echo \$HOME",
    ] {
        assert_eq!(render(&split(cmd).unwrap()), cmd, "render did not roundtrip: {cmd}");
    }
}

#[test]
fn spans_line_up_with_rendered_string() {
    let cmd = "git commit -m 'hi there'";
    let tokens = split(cmd).unwrap();
    let (rendered, spans) = render_with_spans(&tokens);
    for (i, (start, len)) in spans.iter().enumerate() {
        let slice: String = rendered.chars().skip(*start).take(*len).collect();
        // Each span in the rendered string re-parses to the original token text.
        assert_eq!(split(&slice).unwrap()[0].text, tokens[i].text, "span {i}");
    }
}

#[test]
fn edited_token_gets_requoted_for_render() {
    // After an edit, original is recomputed. A token with whitespace must be quoted.
    let text = "hi there".to_string();
    let original = quote_for_render(&text);
    let reparsed = split(&original).unwrap();
    assert_eq!(reparsed[0].text, "hi there");
}

#[test]
fn label_index_roundtrip() {
    for i in 0..35 {
        let lbl = label(i).expect("label in range");
        assert_eq!(index_for(lbl), Some(i), "roundtrip for index {i}");
    }
    assert_eq!(label(35), None);
}

#[test]
fn digits_and_uppercase_only() {
    assert_eq!(index_for('0'), None);
    assert_eq!(index_for('a'), None, "lowercase is for commands");
    assert_eq!(index_for('d'), None);
    assert_eq!(index_for('1'), Some(0));
    assert_eq!(index_for('A'), Some(9));
}
