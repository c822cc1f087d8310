use volume_controller::codec::text_from_bytes;
use volume_controller::text::{
    contains, decimal_text, find, is_whitespace, parse_u32, replace, strip_suffix_ci,
    to_lowercase, trim, trim_start, TextMap, TextSet,
};

#[test]
fn white_space_is_that_of_unicode() {
    for v in 0..=0x10ffffu32 {
        if let Some(c) = char::from_u32(v) {
            assert_eq!(is_whitespace(c), c.is_whitespace(), "{v:x}");
        }
    }
}

#[test]
fn lowering_goes_beyond_ascii() {
    assert_eq!(to_lowercase("AbC-9"), "abc-9");
    assert_eq!(to_lowercase("ÀÉ"), "àé");
    assert_eq!(to_lowercase("ΟΔΥΣΣΕΥΣ"), "οδυσσευς");
}

#[test]
fn broken_text_is_repaired() {
    assert_eq!(text_from_bytes("grün".as_bytes()), "grün");
    assert_eq!(text_from_bytes(b"a\xffb"), "a\u{fffd}b");
}

#[test]
fn trimming_leaves_the_inside_alone() {
    assert_eq!(trim(" \t a b \n"), "a b");
    assert_eq!(trim("   "), "");
    assert_eq!(trim_start("  a "), "a ");
}

#[test]
fn suffixes_are_stripped_by_character() {
    assert_eq!(strip_suffix_ci("Tab - KICK", " - Kick"), Some("Tab"));
    assert_eq!(strip_suffix_ci("Kick", " - Kick"), None);
    assert_eq!(strip_suffix_ci("aé", "É"), None);
    assert_eq!(strip_suffix_ci("x", ""), Some("x"));
}

#[test]
fn searching_finds_the_first() {
    assert_eq!(find("éabab", "ab"), Some(1));
    assert_eq!(find("abc", "d"), None);
    assert_eq!(find("", ""), Some(0));
    assert!(contains("abc", "bc") && !contains("abc", "cb"));
    assert_eq!(replace("a//b///", "//", "/"), "a/b//");
}

#[test]
fn numbers_are_written_and_read() {
    assert_eq!(decimal_text(0), "0");
    assert_eq!(decimal_text(4294967295), "4294967295");
    for s in ["0", "+7", "0042", "4294967295", "4294967296", "-1", "", "+", "1 ", "٣"] {
        assert_eq!(parse_u32(s), s.parse::<u32>().ok(), "{s:?}");
    }
}

#[test]
fn sets_and_maps_of_texts() {
    let mut set = TextSet::new();
    set.insert("a".to_string());
    set.insert("a".to_string());
    assert!(set.contains("a") && !set.contains("b"));
    set.remove("a");
    assert!(!set.contains("a"));
    let mut map = TextMap::new();
    map.insert("k".to_string(), 1);
    map.insert("l".to_string(), 2);
    map.insert("k".to_string(), 3);
    assert_eq!((map.get("k"), map.get("l"), map.get("m")), (Some(&3), Some(&2), None));
}
