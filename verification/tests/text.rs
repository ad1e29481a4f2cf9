use config_core::text::{is_whitespace, trim};

#[test]
fn trim_strips_unicode_whitespace_both_ends() {
    assert_eq!(trim("  Dev  "), "Dev");
    assert_eq!(trim("\t\n x y \r"), "x y");
    assert_eq!(trim("\u{3000}名前\u{a0}"), "名前");
    assert_eq!(trim("   "), "");
    assert_eq!(trim(""), "");
    assert_eq!(trim("a"), "a");
}

#[test]
fn whitespace_matches_std() {
    for c in ['\t', '\n', ' ', '\u{85}', '\u{a0}', '\u{2003}', '\u{3000}', 'a', '_', '\u{200b}', '~'] {
        assert_eq!(is_whitespace(c), c.is_whitespace(), "{:?}", c);
    }
}
