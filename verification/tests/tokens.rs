use sl_interp::tokens::is_space_char;

#[test]
fn white_space_is_that_of_unicode() {
    for code in 0..=0x10ffffu32 {
        if let Some(c) = char::from_u32(code) {
            assert_eq!(is_space_char(c), c.is_whitespace(), "{:x}", code);
        }
    }
}

#[test]
fn common_blanks_are_white_space() {
    for c in [' ', '\t', '\n', '\r', '\u{a0}', '\u{3000}'] {
        assert!(is_space_char(c));
    }
    for c in ['a', '(', ')', '0', '\u{200b}', '_'] {
        assert!(!is_space_char(c));
    }
}
