use painpkg::text::{contains_text, sort_texts, split_lines, starts_with, strip_prefix, text_lt, trim};

#[test]
fn trims_whitespace() {
    assert_eq!(trim("  ^1.0 \t\n"), "^1.0");
    assert_eq!(trim("   "), "");
    assert_eq!(trim("x"), "x");
}

#[test]
fn splits_lines_like_std() {
    for s in ["a\nb", "a\r\nb\n", "a\n\nb", "", "\n", "a\r", "x\r\r\n"] {
        let expected: Vec<String> = s.lines().map(|l| l.to_string()).collect();
        assert_eq!(split_lines(s), expected, "input {:?}", s);
    }
}

#[test]
fn prefixes_and_infixes() {
    assert!(starts_with("file://x", "file://"));
    assert!(!starts_with("fil", "file://"));
    assert_eq!(strip_prefix("git+abc", "git+"), Some("abc".to_string()));
    assert_eq!(strip_prefix("abc", "git+"), None);
    assert!(contains_text("pain-math", "math"));
    assert!(contains_text("abc", ""));
    assert!(!contains_text("abc", "abcd"));
}

#[test]
fn sorts_like_std() {
    let v: Vec<String> = ["b", "a", "10", "1", "ä", "B", "a"].iter().map(|s| s.to_string()).collect();
    let mut expected = v.clone();
    expected.sort();
    assert_eq!(sort_texts(v), expected);
    assert!(text_lt("a", "b"));
    assert!(text_lt("a", "ab"));
    assert!(!text_lt("b", "a"));
    assert!(!text_lt("a", "a"));
}
