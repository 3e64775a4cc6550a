use std::collections::HashMap;
use std::io::Read;
use teacher::dictionary::{
    build_dictionary, dictionary_archive, grouped_dictionary_archive, load_dictionary,
    missing_characters, missing_word_template, pinyin_archive, WordEntry,
};

fn entry(word: &str, strokes: &str, pinyin: &str) -> WordEntry {
    WordEntry {
        word: String::from(word),
        strokes: String::from(strokes),
        pinyin: String::from(pinyin),
        radicals: String::from("部"),
        explanation: format!("{}的解释", word),
    }
}

fn entries() -> Vec<WordEntry> {
    vec![
        entry("一", "1", "yī"),
        entry("人", "2", "rén"),
        entry("入", "2", "rù"),
        entry("一", "1", "yí"),
        entry("大人", "5", "dà rén"),
    ]
}

fn unpack(bytes: &[u8]) -> Vec<u8> {
    let mut out = Vec::new();
    bzip2::read::BzDecoder::new(bytes).read_to_end(&mut out).unwrap();
    out
}

#[test]
fn dictionary_keeps_the_last_record_of_a_word() {
    let d = build_dictionary(&entries());
    assert_eq!(d.len(), 4);
    let w = d.get("一").unwrap();
    assert_eq!(w.pinyin, "yí");
    assert_eq!(w.strokes, "1");
    assert_eq!(w.radicals, "部");
    assert_eq!(w.explanation, "一的解释");
    assert!(d.get("大人").is_some());
    assert!(d.get("大").is_none());
}

#[test]
fn dictionary_archive_is_a_bincode_map_of_entries() {
    let bytes = dictionary_archive(&entries());
    let m: HashMap<String, (String, String, String, String)> = bincode::deserialize(&bytes).unwrap();
    assert_eq!(m.len(), 4);
    assert_eq!(m["人"], (String::from("2"), String::from("rén"), String::from("部"), String::from("人的解释")));
}

#[test]
fn dictionary_archive_loads_back() {
    let bytes = dictionary_archive(&entries());
    let d = load_dictionary(&bytes).unwrap();
    assert_eq!(d.len(), 4);
    assert_eq!(d.get("入").unwrap().pinyin, "rù");
    assert_eq!(d.get("一").unwrap().pinyin, "yí");
    assert!(load_dictionary(&bytes[..bytes.len() - 3]).is_none());
    assert!(load_dictionary(&[]).is_none());
}

#[test]
fn pinyin_archive_maps_first_characters() {
    let bytes = pinyin_archive(&entries());
    let m: HashMap<char, String> = bincode::deserialize(&unpack(&bytes)).unwrap();
    assert_eq!(m.len(), 4);
    assert_eq!(m[&'一'], "yí");
    assert_eq!(m[&'大'], "dà rén");
}

#[test]
fn grouped_archive_groups_by_stroke_count() {
    let bytes = grouped_dictionary_archive(&entries());
    let groups: HashMap<String, Vec<u8>> = bincode::deserialize(&bytes).unwrap();
    assert_eq!(groups.len(), 3);
    let two: HashMap<char, (String, String, String, String)> =
        bincode::deserialize(&unpack(&groups["2"])).unwrap();
    assert_eq!(two.len(), 2);
    assert_eq!(two[&'入'].1, "rù");
    let one: HashMap<char, (String, String, String, String)> =
        bincode::deserialize(&unpack(&groups["1"])).unwrap();
    assert_eq!(one.len(), 1);
    assert_eq!(one[&'一'].1, "yí");
}

#[test]
fn missing_characters_are_those_without_a_single_character_word() {
    let r = missing_characters(&vec!['一', '大', '口', '人'], &entries());
    assert_eq!(r, vec!['大', '口']);
    assert_eq!(missing_characters(&vec![], &entries()), Vec::<char>::new());
}

#[test]
fn missing_word_template_text() {
    let expected = r#"    {
                    "word": "_word_",
                    "oldword": "",
                    "strokes": "",
                    "pinyin": "",
                    "radicals": "",
                    "explanation": "",
                    "more": ""
                },"#
        .replace("_word_", "鼎");
    assert_eq!(missing_word_template('鼎'), expected);
}
