use flux::text::{
    char_index_at, chars_of, contains_chars, decimal_string, from_utf16_lossy, starts_with_text,
    text_less, to_lowercase, trim_zeros,
};

#[test]
fn decimal_string_writes_integers() {
    assert_eq!(decimal_string(0), "0");
    assert_eq!(decimal_string(7), "7");
    assert_eq!(decimal_string(10), "10");
    assert_eq!(decimal_string(4096), "4096");
    assert_eq!(decimal_string(u32::MAX), "4294967295");
}

#[test]
fn text_less_is_string_order() {
    assert!(text_less("2024-03-01", "2024-03-02"));
    assert!(!text_less("2024-03-02", "2024-03-01"));
    assert!(!text_less("abc", "abc"));
    assert!(text_less("ab", "abc"));
    assert!(!text_less("abc", "ab"));
    assert!(text_less("", "a"));
    assert!(text_less("z", "\u{e9}"));
    assert_eq!(text_less("\u{e9}t\u{e9}", "\u{e9}te"), "\u{e9}t\u{e9}" < "\u{e9}te");
}

#[test]
fn starts_with_text_matches_str_starts_with() {
    assert!(starts_with_text("2024-03-15", "2024-03"));
    assert!(!starts_with_text("2024-04-15", "2024-03"));
    assert!(starts_with_text("abc", ""));
    assert!(!starts_with_text("ab", "abc"));
}

#[test]
fn contains_chars_finds_substrings() {
    let hay = chars_of("intel wi-fi direct adapter");
    assert!(contains_chars(&hay, &chars_of("wi-fi direct")));
    assert!(contains_chars(&hay, &chars_of("adapter")));
    assert!(contains_chars(&hay, &chars_of("")));
    assert!(!contains_chars(&hay, &chars_of("wifi direct")));
    assert!(!contains_chars(&chars_of("ab"), &chars_of("abc")));
}

#[test]
fn char_index_at_follows_utf8_boundaries() {
    assert_eq!(char_index_at("2024-03-15", 7), Some(7));
    assert_eq!(char_index_at("2024-03", 7), Some(7));
    assert_eq!(char_index_at("2024-3", 7), None);
    assert_eq!(char_index_at("\u{e9}\u{e9}\u{e9}x", 7), Some(4));
    assert_eq!(char_index_at("\u{e9}\u{e9}\u{e9}\u{e9}", 7), None);
    assert_eq!(char_index_at("", 0), Some(0));
}

#[test]
fn trim_zeros_strips_leading_zeros() {
    assert_eq!(trim_zeros("03"), "3");
    assert_eq!(trim_zeros("10"), "10");
    assert_eq!(trim_zeros("00"), "");
    assert_eq!(trim_zeros("x0"), "x0");
}

#[test]
fn lowercase_and_utf16_call_std() {
    assert_eq!(to_lowercase("Intel(R) WAN Miniport"), "intel(r) wan miniport");
    let units: Vec<u16> = "Ethernet".encode_utf16().collect();
    assert_eq!(from_utf16_lossy(&units), "Ethernet");
    assert_eq!(from_utf16_lossy(&[0x45, 0xD800, 0x46]), "E\u{FFFD}F");
}

#[test]
fn utf16_decoding_pairs_and_replaces() {
    assert_eq!(from_utf16_lossy(&[0xD83D, 0xDE00]), "\u{1F600}");
    assert_eq!(from_utf16_lossy(&[0xDE00, 0xD83D]), "\u{FFFD}\u{FFFD}");
    assert_eq!(from_utf16_lossy(&[0xD83D, 0x41]), "\u{FFFD}A");
    assert_eq!(from_utf16_lossy(&[0x41]), "A");
    assert_eq!(from_utf16_lossy(&[]), "");
}
