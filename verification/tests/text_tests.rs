use tron_vanity::text::{decimal_string, strip_prefix, trim, white_space};

#[test]
fn trim_removes_unicode_white_space() {
    assert_eq!(trim("  ab c \t\n"), "ab c");
    assert_eq!(trim("\u{3000}\u{00A0}x\u{2028}"), "x");
    assert_eq!(trim("   "), "");
    assert_eq!(trim(""), "");
    assert_eq!(trim("\u{200B}x"), "\u{200B}x");
}

#[test]
fn white_space_agrees_with_std() {
    for c in ['\t', '\n', '\u{0B}', '\u{0C}', '\r', ' ', '\u{85}', '\u{A0}', '\u{1680}', '\u{2005}', '\u{2028}', '\u{2029}', '\u{202F}', '\u{205F}', '\u{3000}', 'a', '\u{200B}', '\u{FEFF}', '0'] {
        assert_eq!(white_space(c), c.is_whitespace());
    }
}

#[test]
fn strip_prefix_and_decimal() {
    assert_eq!(strip_prefix("shape:ab", "shape:"), Some("ab"));
    assert_eq!(strip_prefix("shap", "shape:"), None);
    assert_eq!(decimal_string(0), "0");
    assert_eq!(decimal_string(10), "10");
    assert_eq!(decimal_string(1234567), "1234567");
}
