use pegaflow::text::{decimal_text, signed_text, starts_with, trim, white_space};

#[test]
fn white_space_is_what_the_standard_library_trims() {
    for code in 0..=0x10_ffff_u32 {
        if let Some(c) = char::from_u32(code) {
            assert_eq!(white_space(c), c.is_whitespace(), "{code:x}");
        }
    }
    for s in ["", " ", " a b\t", "\u{2003}x\u{a0}", "x"] {
        assert_eq!(trim(s), s.trim());
    }
}

#[test]
fn numbers_are_written_in_decimal() {
    for n in [0, 9, 10, 12345, u64::MAX] {
        assert_eq!(decimal_text(n), n.to_string());
    }
    for n in [i64::MIN, -10, -1, 0, 7, i64::MAX] {
        assert_eq!(signed_text(n), n.to_string());
    }
    assert!(starts_with("abc", "ab"));
    assert!(!starts_with("a", "ab"));
}
