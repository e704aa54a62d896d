use mcp_search::hashing::{hash_content, hash_text};
use mcp_search::text::{
    contains_part, decimal_text, equal_ignoring_case, is_blank, join_texts, replace_part,
    split_once, split_text, trim, trim_trailing,
};

#[test]
fn white_space_is_trimmed() {
    assert_eq!(trim(" \t\u{a0}a b\u{3000}\n"), "a b");
    assert_eq!(trim("   "), "");
    assert!(is_blank(" \u{2003}\r\n"));
    assert!(!is_blank(" x "));
    for code in 0..0x11000u32 {
        if let Some(c) = char::from_u32(code) {
            assert_eq!(is_blank(&c.to_string()), c.is_whitespace());
        }
    }
}

#[test]
fn trailing_characters_go() {
    assert_eq!(trim_trailing("http://x//", '/'), "http://x");
    assert_eq!(trim_trailing("///", '/'), "");
}

#[test]
fn parts_are_found_and_replaced() {
    assert!(contains_part("abcabc", "ca"));
    assert!(contains_part("abc", ""));
    assert!(!contains_part("abc", "ac"));
    assert_eq!(replace_part("aaa", "aa", "b"), "ba");
    assert_eq!(replace_part("a-b-c", "-", "_"), "a_b_c");
    assert_eq!(split_once("a\n\nb\n\nc", "\n\n"), Some(("a".to_string(), "b\n\nc".to_string())));
    assert_eq!(split_once("abc", "\n\n"), None);
}

#[test]
fn texts_are_split_and_joined() {
    assert_eq!(split_text("a//b/", '/'), vec!["a", "", "b", ""]);
    assert_eq!(split_text("", '/'), vec![""]);
    assert_eq!(join_texts(&vec!["a".to_string(), "".to_string(), "b".to_string()], ", "), "a, , b");
    assert_eq!(join_texts(&Vec::new(), ", "), "");
}

#[test]
fn numbers_are_written() {
    assert_eq!(decimal_text(0), "0");
    assert_eq!(decimal_text(907), "907");
    assert_eq!(decimal_text(u64::MAX), u64::MAX.to_string());
}

#[test]
fn case_of_ascii_letters_is_ignored() {
    assert!(equal_ignoring_case("JavaScript", "javascript"));
    assert!(!equal_ignoring_case("Ä", "ä"));
    assert!(!equal_ignoring_case("a", "ab"));
}

#[test]
fn hash_is_the_128_bit_xxh3() {
    assert_eq!(hash_text(""), "99aa06d3014798d86001c324468d497f");
    let text = "fn main() {}\n";
    assert_eq!(hash_text(text), format!("{:032x}", xxhash_rust::xxh3::xxh3_128(text.as_bytes())));
}

#[test]
fn content_hash_covers_language_and_metadata() {
    assert_eq!(hash_content("body", "rust", &None), hash_text("rust\nbody"));
    assert_eq!(hash_content("body", "rust", &Some("{}".to_string())), hash_text("rust\nbody\n{}"));
    assert_ne!(hash_content("body", "rust", &None), hash_content("body", "java", &None));
}
