use teacher::text::{
    byte_len, contains, font_class, is_blank, last_segment_of, less, sort_texts, trimmed,
    unicode_hex, white_space,
};

#[test]
fn trimmed_drops_outer_white_space() {
    assert_eq!(trimmed("  床前明月光 \t\n"), "床前明月光");
    assert_eq!(trimmed("\u{3000}静夜思\u{3000}"), "静夜思");
    assert_eq!(trimmed("   "), "");
    assert_eq!(trimmed("a b"), "a b");
}

#[test]
fn blank_lines_are_only_white_space() {
    assert!(is_blank(""));
    assert!(is_blank(" \t\r"));
    assert!(is_blank("\u{3000}"));
    assert!(!is_blank(" 字 "));
}

#[test]
fn white_space_follows_unicode() {
    assert!(white_space(' '));
    assert!(white_space('\u{2028}'));
    assert!(!white_space('a'));
    assert!(!white_space('\u{200b}'));
}

#[test]
fn last_segment_is_after_the_last_dash() {
    assert_eq!(last_segment_of("12-静夜思李白"), "静夜思李白");
    assert_eq!(last_segment_of("1-2-3"), "3");
    assert_eq!(last_segment_of("无"), "无");
    assert_eq!(last_segment_of("abc-"), "");
}

#[test]
fn contains_finds_a_piece_of_text() {
    assert!(contains("静夜思李白", "夜思"));
    assert!(contains("静夜思", ""));
    assert!(!contains("静夜思", "李白"));
    assert!(!contains("", "a"));
}

#[test]
fn less_orders_texts_by_code_point() {
    assert!(less(&vec!['0', '1', '0'], &vec!['1', '0', '0']));
    assert!(less(&vec!['0', '1'], &vec!['0', '1', '2']));
    assert!(!less(&vec!['1'], &vec!['1']));
    assert!(!less(&vec!['b'], &vec!['a', 'z']));
}

#[test]
fn sort_texts_sorts_as_str_sort() {
    let v = vec![String::from("010"), String::from("100"), String::from("012")];
    let r = sort_texts(&v);
    assert_eq!(r, vec![String::from("010"), String::from("012"), String::from("100")]);
}

#[test]
fn unicode_hex_spells_the_code_point() {
    assert_eq!(unicode_hex('a'), "61");
    assert_eq!(unicode_hex('\u{0}'), "0");
    assert_eq!(unicode_hex('字'), format!("{:x}", '字' as u32));
    assert_eq!(unicode_hex('字'), "5b57");
    assert_eq!(unicode_hex('\u{10ffff}'), "10ffff");
}

#[test]
fn font_class_splits_at_the_first_font_bound() {
    assert_eq!(font_class('\u{6f0f}'), "KaiTi_GB2312_0");
    assert_eq!(font_class('\u{6f10}'), "KaiTi_GB2312_1");
    assert_eq!(font_class('一'), "KaiTi_GB2312_0");
    assert_eq!(font_class('鼠'), "KaiTi_GB2312_1");
}

#[test]
fn byte_len_counts_utf8_bytes() {
    assert_eq!(byte_len("abc"), 3);
    assert_eq!(byte_len("字"), 3);
    assert_eq!(byte_len(""), 0);
}
