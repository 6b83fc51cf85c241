use xlsx2csv::trim::trim_str;
use xlsx2csv::whitespace::is_whitespace;

#[test]
fn trim_removes_leading_and_trailing_whitespace() {
    assert_eq!(trim_str("  abc  "), "abc");
    assert_eq!(trim_str("\t\n abc"), "abc");
    assert_eq!(trim_str("abc \r\n"), "abc");
    assert_eq!(trim_str("abc"), "abc");
}

#[test]
fn trim_keeps_inner_whitespace() {
    assert_eq!(trim_str(" a  b "), "a  b");
    assert_eq!(trim_str("a\tb"), "a\tb");
}

#[test]
fn trim_of_whitespace_only_is_empty() {
    assert_eq!(trim_str(""), "");
    assert_eq!(trim_str("   "), "");
    assert_eq!(trim_str("\t\r\n"), "");
    assert_eq!(trim_str("\u{00A0}\u{2003}\u{3000}"), "");
}

#[test]
fn trim_handles_unicode_whitespace() {
    assert_eq!(trim_str("\u{00A0}x\u{00A0}"), "x");
    assert_eq!(trim_str("\u{2028}x\u{2029}"), "x");
    assert_eq!(trim_str("\u{1680}\u{205F}x"), "x");
}

#[test]
fn trim_agrees_with_std() {
    let samples = [
        "", " ", "a", " a ", "  a  b  ", "\u{3000}ab\u{85}", "\u{200A}x",
        "x\u{202F}", "\r\nline\r\n", "no-ws",
    ];
    for s in samples {
        assert_eq!(trim_str(s), s.trim());
    }
}

#[test]
fn whitespace_predicate_agrees_with_std() {
    for u in 0u32..0x3100u32 {
        if let Some(c) = char::from_u32(u) {
            assert_eq!(is_whitespace(c), c.is_whitespace(), "{:#x}", u);
        }
    }
}
