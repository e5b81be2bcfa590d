use tweaker::text::decimal_string;
use tweaker::text::is_whitespace;
use tweaker::text::join_from;
use tweaker::text::lines_of;
use tweaker::text::words_in;

#[test]
fn whitespace_matches_std() {
    for u in 0u32..=0x10FFFF {
        if let Some(c) = char::from_u32(u) {
            assert_eq!(is_whitespace(c), c.is_whitespace(), "U+{u:04X}");
        }
    }
}

#[test]
fn lines_match_std() {
    for s in ["", "a", "a\n", "a\r\nb", "a\n\nb\r", "\n", "x\r", "a\rb\n"] {
        let mine: Vec<String> = lines_of(s).iter().map(|l| l.iter().collect()).collect();
        let std: Vec<String> = s.lines().map(|l| l.to_string()).collect();
        assert_eq!(mine, std, "{s:?}");
    }
}

#[test]
fn words_match_std() {
    for s in ["", "  a  b\tc\n", "-a, --all  x", "\u{2003}x\u{2003}"] {
        let v: Vec<char> = s.chars().collect();
        let ws = words_in(&v, 0, v.len());
        let mine: Vec<String> = ws.iter().map(|w| w.iter().collect()).collect();
        let std: Vec<String> = s.split_whitespace().map(|w| w.to_string()).collect();
        assert_eq!(mine, std, "{s:?}");
        assert_eq!(join_from(&ws, 0), std.join(" "));
    }
}

#[test]
fn decimal_strings() {
    assert_eq!(decimal_string(0), "0");
    assert_eq!(decimal_string(7), "7");
    assert_eq!(decimal_string(1234), "1234");
    assert_eq!(decimal_string(usize::MAX), usize::MAX.to_string());
}
