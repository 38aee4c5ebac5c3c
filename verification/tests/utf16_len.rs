use rspack_sources::utf16_length_from_utf8;

/// Reference implementation for verification.
fn utf16_len_ref(s: &str) -> usize {
    s.encode_utf16().count()
}

#[test]
fn empty() {
    assert_eq!(utf16_length_from_utf8(b""), 0);
}

#[test]
fn ascii() {
    let s = "Hello, world!";
    assert_eq!(utf16_length_from_utf8(s.as_bytes()), utf16_len_ref(s));
}

#[test]
fn two_byte_utf8() {
    // Latin-extended, Cyrillic (2-byte UTF-8 → 1 UTF-16 code unit each)
    let s = "àáâãäåæçèé Привет";
    assert_eq!(utf16_length_from_utf8(s.as_bytes()), utf16_len_ref(s));
}

#[test]
fn three_byte_utf8() {
    // CJK characters (3-byte UTF-8 → 1 UTF-16 code unit each)
    let s = "你好世界こんにちは안녕하세요";
    assert_eq!(utf16_length_from_utf8(s.as_bytes()), utf16_len_ref(s));
}

#[test]
fn four_byte_utf8() {
    // Emoji (4-byte UTF-8 → 2 UTF-16 code units / surrogate pair)
    let s = "🌍🌎🌏🎉🎊🎈";
    assert_eq!(utf16_length_from_utf8(s.as_bytes()), utf16_len_ref(s));
}

#[test]
fn mixed() {
    let s = "Hello, 世界! 🌍 Привет мир! こんにちは世界！";
    assert_eq!(utf16_length_from_utf8(s.as_bytes()), utf16_len_ref(s));
}

#[test]
fn single_characters() {
    // 1-byte
    assert_eq!(utf16_length_from_utf8("a".as_bytes()), 1);
    // 2-byte
    assert_eq!(utf16_length_from_utf8("é".as_bytes()), 1);
    // 3-byte
    assert_eq!(utf16_length_from_utf8("中".as_bytes()), 1);
    // 4-byte → surrogate pair
    assert_eq!(utf16_length_from_utf8("🎉".as_bytes()), 2);
}

#[test]
fn longer_than_simd_register() {
    // >32 bytes, past the width of a vector register.
    let s = "The quick brown fox jumps over the lazy dog. 你好世界！🎉🎊";
    assert_eq!(utf16_length_from_utf8(s.as_bytes()), utf16_len_ref(s));
}

#[test]
fn large_input() {
    // >255×32 bytes.
    let base = "Hello, 世界! 🌍 こんにちは！";
    let s = base.repeat(500);
    assert_eq!(utf16_length_from_utf8(s.as_bytes()), utf16_len_ref(&s));
}

#[test]
fn boundary_lengths() {
    // Lengths around the boundaries of 16 and 32 bytes (15, 16, 17, 31, 32, 33).
    let base = "abcdefghijklmnopqrstuvwxyz0123456789";
    for len in [1, 15, 16, 17, 31, 32, 33, 48, 64, 255, 256] {
        let s = &base.repeat(10)[..len];
        assert_eq!(
            utf16_length_from_utf8(s.as_bytes()),
            utf16_len_ref(s),
            "failed for len={len}"
        );
    }
}

#[test]
fn utf16_len_of_str_matches_encode_utf16() {
    for s in ["", "a\nb", "é中🎉", "🌍🌎🌏🎉🎊🎈 x"] {
        assert_eq!(rspack_sources::utf16_len(s), utf16_len_ref(s));
    }
}

#[test]
fn formula_counts_continuation_and_four_byte_leaders() {
    // Not UTF-8: two four-byte leaders and no continuation bytes.
    assert_eq!(utf16_length_from_utf8(&[0xF0, 0xF0, 0x41]), 5);
    // Lone continuation bytes count for nothing.
    assert_eq!(utf16_length_from_utf8(&[0x80, 0xBF, 0x41]), 1);
}

#[test]
fn counts_add_up_over_blocks() {
    let a = "héllo 🎉".as_bytes();
    let b = "世界!".as_bytes();
    let whole = [a, b].concat();
    assert_eq!(utf16_length_from_utf8(&whole), utf16_length_from_utf8(a) + utf16_length_from_utf8(b));
}
