use sekigae_rs::classroom::normalize_tag_symbol;
use sekigae_rs::fetch::{parse_targets, SeatPreferences, SeatRange};
use sekigae_rs::sorted::{insert_sorted, sorted_unique, sorted_unique_u16};
use sekigae_rs::text::{
    chars_eq, chars_of, decimal_chars, is_white_space_char, parse_unsigned, push_chars,
    split_chars, split_once_chars, string_from_chars, trim_chars,
};

fn chars(s: &str) -> Vec<char> {
    s.chars().collect()
}

#[test]
fn white_space_is_the_unicode_set() {
    for c in [' ', '\t', '\n', '\r', '\u{0B}', '\u{0C}', '\u{85}', '\u{A0}', '\u{1680}', '\u{2000}', '\u{200A}', '\u{2028}', '\u{2029}', '\u{202F}', '\u{205F}', '\u{3000}'] {
        assert!(is_white_space_char(c), "{:?}", c);
        assert!(c.is_whitespace());
    }
    for c in ['a', '前', '\u{200B}', '\u{FEFF}', '_', '0'] {
        assert!(!is_white_space_char(c), "{:?}", c);
        assert!(!c.is_whitespace());
    }
}

#[test]
fn trimming_matches_str_trim() {
    for s in ["", "   ", " a b ", "\u{3000}前\u{3000}", "x", "\t1-2\n"] {
        assert_eq!(string_from_chars(&trim_chars(&chars(s))), s.trim());
    }
}

#[test]
fn splitting_matches_str_split() {
    for s in ["", "a", "a,b", ",a,,b,", "1-2,2-3"] {
        let parts: Vec<String> = split_chars(&chars(s), ',').iter().map(|p| p.iter().collect()).collect();
        let expected: Vec<String> = s.split(',').map(|p| p.to_string()).collect();
        assert_eq!(parts, expected);
    }
    let (a, b) = split_once_chars(&chars("3-4-5"), '-').unwrap();
    assert_eq!((string_from_chars(&a), string_from_chars(&b)), ("3".to_string(), "4-5".to_string()));
    assert!(split_once_chars(&chars("345"), '-').is_none());
}

#[test]
fn unsigned_parsing_matches_from_str() {
    assert_eq!(parse_unsigned(&chars("65535"), 65535), Some(65535));
    assert_eq!(parse_unsigned(&chars("65536"), 65535), None);
    assert_eq!(parse_unsigned(&chars("+12"), 65535), Some(12));
    assert_eq!(parse_unsigned(&chars("007"), 65535), Some(7));
    assert_eq!(parse_unsigned(&chars(""), 65535), None);
    assert_eq!(parse_unsigned(&chars("+"), 65535), None);
    assert_eq!(parse_unsigned(&chars("-1"), 65535), None);
    assert_eq!(parse_unsigned(&chars(" 1"), 65535), None);
    assert_eq!(parse_unsigned(&chars("18446744073709551615"), u64::MAX), Some(u64::MAX));
    assert_eq!(parse_unsigned(&chars("18446744073709551616"), u64::MAX), None);
    assert_eq!("+12".parse::<u16>().ok(), Some(12));
}

#[test]
fn decimal_and_chars() {
    assert_eq!(string_from_chars(&decimal_chars(0)), "0");
    assert_eq!(string_from_chars(&decimal_chars(2654435763)), "2654435763");
    assert!(chars_eq(&chars_of("前列"), &chars("前列")));
    assert!(!chars_eq(&chars_of("前"), &chars("前列")));
    let mut s = String::from("ab");
    push_chars(&mut s, &chars("cd"));
    assert_eq!(s, "abcd");
}

#[test]
fn sorted_lists_without_repeats() {
    let mut v = vec![1, 5];
    insert_sorted(&mut v, 3);
    insert_sorted(&mut v, 5);
    assert_eq!(v, vec![1, 3, 5]);
    assert_eq!(sorted_unique(&vec![4, 1, 4, 0, 9, 1]), vec![0, 1, 4, 9]);
    assert_eq!(sorted_unique_u16(&vec![7, 7, 2]), vec![2, 7]);
}

#[test]
fn full_width_spaces_are_trimmed_from_wishes_and_tags() {
    let mut prefs = SeatPreferences::new();
    prefs.insert("前".to_string(), SeatRange { start_row: Some(0), end_row: Some(0), start_col: Some(0), end_col: Some(1) });
    assert_eq!(parse_targets("\u{3000}前\u{3000}", 4, 5, &prefs), vec![0, 1]);
    assert_eq!(normalize_tag_symbol("\u{3000}A\u{3000}B"), "AB");
}
