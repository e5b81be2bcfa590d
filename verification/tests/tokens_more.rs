use tweaker::tokens::label;
use tweaker::tokens::quote_for_render;
use tweaker::tokens::render;
use tweaker::tokens::render_with_spans;
use tweaker::tokens::split;
use tweaker::tokens::QuoteStyle;
use tweaker::tokens::SplitError;
use tweaker::tokens::Token;

fn tok(text: &str, original: &str) -> Token {
    Token { text: text.to_string(), original: original.to_string() }
}

#[test]
fn split_reports_each_error() {
    assert_eq!(split("echo 'x"), Err(SplitError::UnterminatedSingleQuote));
    assert_eq!(split("echo \"x"), Err(SplitError::UnterminatedDoubleQuote));
    assert_eq!(split("echo \"x\\"), Err(SplitError::TrailingBackslash));
    assert_eq!(
        SplitError::UnterminatedSingleQuote.message("echo 'x"),
        "unterminated single quote in: echo 'x"
    );
    assert_eq!(SplitError::TrailingBackslash.description(), "trailing backslash");
}

#[test]
fn split_empty_and_blank() {
    assert_eq!(split("").unwrap(), vec![]);
    assert_eq!(split(" \t  ").unwrap(), vec![]);
}

#[test]
fn split_backslashes_outside_quotes() {
    // A trailing backslash is kept in the source form only.
    assert_eq!(split("ls \\").unwrap(), vec![tok("ls", "ls"), tok("", "\\")]);
    // A backslash escapes the next character, even a space.
    assert_eq!(split("a\\ b").unwrap(), vec![tok("a b", "a\\ b")]);
    // A backslash-newline continues the line: the newline leaves both forms,
    // the backslash stays in the source form only.
    assert_eq!(split("a\\\nb").unwrap(), vec![tok("ab", "a\\b")]);
}

#[test]
fn split_backslashes_inside_double_quotes() {
    assert_eq!(split("\"a\\nb\"").unwrap(), vec![tok("a\\nb", "\"a\\nb\"")]);
    assert_eq!(split("\"\\$x\\\"\"").unwrap(), vec![tok("$x\"", "\"\\$x\\\"\"")]);
}

#[test]
fn split_joins_adjacent_segments() {
    assert_eq!(split("foo'bar'\"baz\"").unwrap(), vec![tok("foobarbaz", "foo'bar'\"baz\"")]);
}

#[test]
fn split_separates_on_unicode_whitespace() {
    assert_eq!(split("a\u{a0}b").unwrap(), vec![tok("a", "a"), tok("b", "b")]);
}

#[test]
fn render_with_spans_exact_columns() {
    let tokens = vec![tok("é", "é"), tok("hi there", "'hi there'"), tok("x", "x")];
    let (out, spans) = render_with_spans(&tokens);
    assert_eq!(out, "é 'hi there' x");
    assert_eq!(spans, vec![(0, 1), (2, 10), (13, 1)]);
    assert_eq!(render(&[]), "");
}

#[test]
fn quote_for_render_quotes_only_when_needed() {
    assert_eq!(quote_for_render("bye"), "bye");
    assert_eq!(quote_for_render("hi there"), "'hi there'");
    assert_eq!(quote_for_render(""), "''");
    assert_eq!(quote_for_render("it's"), "'it'\\''s'");
    assert_eq!(quote_for_render("a\nb"), "'a\nb'");
}

#[test]
fn quoted_texts_split_back() {
    for text in ["hi there", "", "it's", "a\"b$c`d\\e", "line\nbreak", "plain"] {
        for style in [QuoteStyle::Unquoted, QuoteStyle::Single, QuoteStyle::Double] {
            let shell = style.apply(text);
            let back = split(&shell).unwrap();
            assert_eq!(back, vec![tok(text, &shell)], "style {style:?} text {text:?}");
        }
    }
}

#[test]
fn bare_quote_with_carriage_return_does_not_split_back() {
    // shell_words leaves a carriage return bare; the splitter treats it as whitespace.
    assert_eq!(quote_for_render("a\rb"), "a\rb");
    assert_eq!(split("a\rb").unwrap().len(), 2);
}

#[test]
fn quote_style_apply_forms() {
    assert_eq!(QuoteStyle::Single.apply("it's"), "'it'\\''s'");
    assert_eq!(QuoteStyle::Double.apply("a\"$b`\\"), "\"a\\\"\\$b\\`\\\\\"");
    assert_eq!(QuoteStyle::Unquoted.apply("x y"), "'x y'");
    assert_eq!(QuoteStyle::Unquoted.apply("xy"), "xy");
}

#[test]
fn quote_style_detection_and_cycle() {
    assert_eq!(QuoteStyle::from_original("'^g'"), QuoteStyle::Single);
    assert_eq!(QuoteStyle::from_original("\"x\""), QuoteStyle::Double);
    assert_eq!(QuoteStyle::from_original("foo'bar'"), QuoteStyle::Unquoted);
    assert_eq!(QuoteStyle::from_original(""), QuoteStyle::Unquoted);
    for style in [QuoteStyle::Unquoted, QuoteStyle::Single, QuoteStyle::Double] {
        assert_eq!(style.cycle().cycle().cycle(), style);
        assert_eq!(QuoteStyle::from_original(&style.apply("a b")) == QuoteStyle::Unquoted, false);
    }
    assert_eq!(QuoteStyle::Unquoted.cycle(), QuoteStyle::Single);
    assert_eq!(QuoteStyle::Single.prefix_len(), 1);
    assert_eq!(QuoteStyle::Unquoted.prefix_len(), 0);
    assert_eq!(QuoteStyle::Double.label(), "double \"");
    assert_eq!(QuoteStyle::Unquoted.label(), "no quote");
}

#[test]
fn labels_cover_digits_then_letters() {
    assert_eq!(label(0), Some('1'));
    assert_eq!(label(8), Some('9'));
    assert_eq!(label(9), Some('A'));
    assert_eq!(label(34), Some('Z'));
    assert_eq!(label(usize::MAX), None);
}

#[test]
fn split_render_split_is_stable() {
    for cmd in [
        "  git   commit -m   'a  b'  ",
        "echo \"x y\"z 'q'\\ r",
        "ls \\",
        "a\u{3000}b\tc",
    ] {
        let first = split(cmd).unwrap();
        let again = split(&render(&first)).unwrap();
        assert_eq!(again, first, "{cmd:?}");
        // Each token's source form splits into that token alone.
        for t in &first {
            assert_eq!(split(&t.original).unwrap(), vec![t.clone()]);
        }
    }
}

#[test]
fn line_continuation_can_break_the_roundtrip() {
    let first = split("a\\\n'x'").unwrap();
    assert_eq!(first, vec![tok("ax", "a\\'x'")]);
    assert_eq!(split(&render(&first)), Err(SplitError::UnterminatedSingleQuote));
}
