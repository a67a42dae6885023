use race_arb::text::{chars_of, decimal_text, is_ascii_alphanumeric, is_white_space, to_uppercase, trim};

#[test]
fn whitespace_is_unicode_white_space() {
    for c in [' ', '\t', '\n', '\u{b}', '\u{c}', '\r', '\u{85}', '\u{a0}', '\u{2003}', '\u{3000}'] {
        assert!(is_white_space(c), "{:?}", c);
    }
    for c in ['a', '0', '-', '.', '\'', '\u{200b}', '\u{0}'] {
        assert!(!is_white_space(c), "{:?}", c);
    }
}

#[test]
fn ascii_alphanumeric_is_letters_and_digits() {
    for c in ['a', 'z', 'A', 'Z', '0', '9'] {
        assert!(is_ascii_alphanumeric(c));
    }
    for c in [' ', '@', '[', '`', '{', '/', ':', '\u{e9}', '\u{ff10}'] {
        assert!(!is_ascii_alphanumeric(c));
    }
}

#[test]
fn trim_drops_only_outer_whitespace() {
    assert_eq!(trim("  a b \t"), "a b");
    assert_eq!(trim("\u{a0}x\u{3000}"), "x");
    assert_eq!(trim("   "), "");
    assert_eq!(trim(""), "");
    assert_eq!(trim("x"), "x");
}

#[test]
fn uppercase_is_unicode_uppercase() {
    assert_eq!(to_uppercase("Sea Biscuit"), "SEA BISCUIT");
    assert_eq!(to_uppercase("stra\u{df}e"), "STRASSE");
    assert_eq!(to_uppercase("caf\u{e9}"), "CAF\u{c9}");
}

#[test]
fn chars_and_decimals() {
    assert_eq!(chars_of("a\u{e9}b"), vec!['a', '\u{e9}', 'b']);
    assert_eq!(decimal_text(0), "0");
    assert_eq!(decimal_text(907), "907");
    assert_eq!(decimal_text(u32::MAX), "4294967295");
}

#[test]
fn whitespace_agrees_with_std_on_every_char() {
    for v in 0u32..=0x10ffff {
        if let Some(c) = char::from_u32(v) {
            assert_eq!(is_white_space(c), c.is_whitespace(), "{:?}", c);
        }
    }
}

#[test]
fn decimal_text_agrees_with_std() {
    let mut n: u32 = 0;
    while n < 100_000 {
        assert_eq!(decimal_text(n), n.to_string());
        n += 1;
    }
    for n in [999_999u32, 1_000_000, 123_456_789, 4_000_000_000, u32::MAX - 1] {
        assert_eq!(decimal_text(n), n.to_string());
    }
}
