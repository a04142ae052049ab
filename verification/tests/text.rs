use gist_summary::text::{after_prefix, begins_with, is_whitespace, lines_of, to_decimal, trimmed};

#[test]
fn decimal_rendering() {
    assert_eq!(to_decimal(0), "0");
    assert_eq!(to_decimal(7), "7");
    assert_eq!(to_decimal(11434), "11434");
    assert_eq!(to_decimal(u64::MAX), u64::MAX.to_string());
}

#[test]
fn trimming_matches_str_trim() {
    let samples = [
        "  a b \t\n",
        "\u{3000}x\u{a0}",
        "   ",
        "",
        "\r\nline\r\n",
        "\u{2028}mid dle\u{205f}",
        "no-space",
    ];
    for s in samples {
        assert_eq!(trimmed(s), s.trim(), "sample {:?}", s);
    }
    assert_eq!(trimmed("  a b \t\n"), "a b");
}

#[test]
fn whitespace_matches_char_is_whitespace() {
    for n in 0u32..0x3100 {
        if let Some(c) = char::from_u32(n) {
            assert_eq!(is_whitespace(c), c.is_whitespace(), "char {:#x}", n);
        }
    }
}

#[test]
fn lines_match_str_lines() {
    let samples = ["a\nb\r\nc", "a\n", "a\n\n", "", "a\r", "\n", "x\r\r\ny", "\r\n", "one"];
    for s in samples {
        let expected: Vec<String> = s.lines().map(String::from).collect();
        assert_eq!(lines_of(s), expected, "sample {:?}", s);
    }
    assert_eq!(lines_of("a\nb\r\nc"), vec!["a", "b", "c"]);
    assert_eq!(lines_of("a\n\n"), vec!["a", ""]);
}

#[test]
fn prefixes() {
    assert!(begins_with("GITHUB_TOKEN=x", "GITHUB_TOKEN="));
    assert!(!begins_with("GITHUB", "GITHUB_TOKEN="));
    assert!(begins_with("abc", ""));
    assert_eq!(after_prefix("GITHUB_TOKEN=x", "GITHUB_TOKEN="), Some("x".to_string()));
    assert_eq!(after_prefix("OTHER=x", "GITHUB_TOKEN="), None);
}
