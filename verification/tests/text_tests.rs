use kabuto::text::{
    collapse_white_space, contains, ends_with, push_int, replace_str, same_text, starts_with, trim,
    white_space,
};

#[test]
fn substring_tests() {
    assert!(contains("株式会社INPEX", "INPEX"));
    assert!(contains("abc", ""));
    assert!(!contains("ab", "abc"));
    assert!(starts_with("jpcrp030000", "jpcrp"));
    assert!(!starts_with("jpaud", "jpcrp"));
    assert!(ends_with("a.xbrl", ".xbrl"));
    assert!(!ends_with("xbrl", ".xbrl"));
    assert!(same_text("日本", "日本"));
    assert!(!same_text("日本", "日本語"));
}

#[test]
fn replace_is_leftmost_and_non_overlapping() {
    assert_eq!(replace_str("aaa", "aa", "b"), "ba");
    assert_eq!(replace_str("&amp;lt;", "&amp;", "&"), "&lt;");
    assert_eq!(replace_str("none here", "xyz", "q"), "none here");
    assert_eq!(replace_str("プライム（内国株式）", "（内国株式）", ""), "プライム");
}

#[test]
fn white_space_handling() {
    assert!(white_space('\u{3000}'));
    assert!(white_space('\n'));
    assert!(!white_space('a'));
    assert_eq!(trim("  a b \u{3000}"), "a b");
    assert_eq!(trim(" \t "), "");
    assert_eq!(collapse_white_space("  a   b\n\nc "), "a b c");
    assert_eq!(collapse_white_space(""), "");
    assert_eq!(collapse_white_space(&collapse_white_space(" x  y ")), "x y");
}

#[test]
fn decimal_text() {
    let mut s = String::from("y=");
    push_int(&mut s, -2024);
    assert_eq!(s, "y=-2024");
    let mut t = String::new();
    push_int(&mut t, i32::MAX);
    assert_eq!(t, "2147483647");
}
