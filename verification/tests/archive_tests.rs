use std::collections::HashMap;
use std::io::Read;
use teacher::archive::{
    article_archive, line_type, pack_font, pack_strokes, parse_titled_texts, poem_archive,
    split_lines, title_key_of, LineType,
};
use teacher::catalog::Catalog;
use teacher::strokes::load_strokes;

const SOURCE: &str = "1静夜思 李白\n床前明月光，\n疑是地上霜。\n\n2春晓\r\n春眠不觉晓，\r\n\r\n3未完\n未完的诗";

fn expected_texts() -> HashMap<String, String> {
    let mut m = HashMap::new();
    m.insert(String::from("1-静夜思 李白"), String::from("床前明月光，疑是地上霜。"));
    m.insert(String::from("2-春晓"), String::from("春眠不觉晓，"));
    m
}

#[test]
fn split_lines_matches_str_lines() {
    for s in ["a\r\nb\n", "a\n\n", "abc\r", "", "\n", "x\ny", "\r\n\r\n", "a\rb\n"] {
        let expected: Vec<String> = s.lines().map(String::from).collect();
        assert_eq!(split_lines(s), expected, "input {:?}", s);
    }
}

#[test]
fn line_types() {
    assert!(matches!(line_type("12静夜思"), LineType::Start));
    assert!(matches!(line_type("床前明月光"), LineType::Normal));
    assert!(matches!(line_type(" 1 indented"), LineType::Normal));
    assert!(matches!(line_type("  \t"), LineType::Blank));
    assert!(matches!(line_type(""), LineType::Blank));
}

#[test]
fn title_key_puts_digits_first() {
    assert_eq!(title_key_of("12三月"), "12-三月");
    assert_eq!(title_key_of("1李2白"), "12-李白");
    assert_eq!(title_key_of("7"), "7-");
}

#[test]
fn parser_keeps_texts_that_end_with_a_blank_line() {
    let t = parse_titled_texts(SOURCE);
    assert_eq!(t.len(), 2);
    assert_eq!(t.get("1-静夜思 李白").map(|s| s.as_str()), Some("床前明月光，疑是地上霜。"));
    assert_eq!(t.get("2-春晓").map(|s| s.as_str()), Some("春眠不觉晓，"));
    assert!(t.get("3-未完").is_none());
}

#[test]
fn parser_stores_a_text_when_the_next_heading_comes() {
    let t = parse_titled_texts("1a\n2b\nx\n\nstray line\n\n");
    assert_eq!(t.len(), 2);
    assert_eq!(t.get("1-a").map(|s| s.as_str()), Some(""));
    assert_eq!(t.get("2-b").map(|s| s.as_str()), Some("x"));
}

#[test]
fn parser_on_empty_text() {
    assert_eq!(parse_titled_texts("").len(), 0);
    assert_eq!(parse_titled_texts("no heading\n\n").len(), 0);
}

#[test]
fn poem_archive_is_a_bincode_map() {
    let bytes = poem_archive(SOURCE);
    let decoded: HashMap<String, String> = bincode::deserialize(&bytes).unwrap();
    assert_eq!(decoded, expected_texts());
}

#[test]
fn article_archive_is_a_compressed_bincode_map() {
    let bytes = article_archive(SOURCE);
    let mut raw = Vec::new();
    bzip2::read::BzDecoder::new(bytes.as_slice()).read_to_end(&mut raw).unwrap();
    let decoded: HashMap<String, String> = bincode::deserialize(&raw).unwrap();
    assert_eq!(decoded, expected_texts());
}

#[test]
fn archives_read_back_into_a_catalog() {
    let poems = poem_archive(SOURCE);
    let articls = article_archive("5课文\n第一行\n第二行\n\n");
    let c = Catalog::from_archives(&poems, &articls).unwrap();
    assert_eq!(c.get_choose_names(1), vec![String::from("静夜思 李白"), String::from("春晓")]);
    assert_eq!(c.get_choose_names(0), vec![String::from("课文")]);
    assert_eq!(c.choose_homework(0, 0), "第一行第二行");
    assert_eq!(c.choose_homework(1, 1), "春眠不觉晓，");
}

#[test]
fn damaged_archives_are_refused() {
    let poems = poem_archive(SOURCE);
    assert!(Catalog::from_archives(&poems, b"not bzip2").is_none());
    assert!(Catalog::from_archives(&[1, 2, 3], &article_archive(SOURCE)).is_none());
    let articls = article_archive(SOURCE);
    assert!(Catalog::from_archives(&poems, &articls[..articls.len() / 2]).is_none());
}

fn stroke_record() -> Vec<u8> {
    let mut m: HashMap<char, Vec<Vec<(u16, u16)>>> = HashMap::new();
    m.insert('一', vec![vec![(100, 500), (900, 500)]]);
    m.insert('二', vec![vec![(200, 300), (800, 300)], vec![(100, 700), (900, 700)]]);
    bincode::serialize(&m).unwrap()
}

#[test]
fn packed_strokes_load_back() {
    let raw = stroke_record();
    let text = pack_strokes(&raw).unwrap();
    let mut packed = base64::decode(&text).unwrap();
    let mut unpacked = Vec::new();
    bzip2::read::BzDecoder::new(packed.as_slice()).read_to_end(&mut unpacked).unwrap();
    assert_eq!(unpacked, raw);
    let table = load_strokes(&text).unwrap();
    assert!(table.contains('一'));
    assert!(table.contains('二'));
    assert!(!table.contains('三'));
    assert_eq!(table.get('二').unwrap().len(), 2);
    packed.truncate(packed.len() / 2);
    assert!(load_strokes(&base64::encode(&packed)).is_none());
    assert!(load_strokes("!!not base64!!").is_none());
}

#[test]
fn font_is_cut_after_six_sevenths() {
    let raw: Vec<u8> = (0..5000u32).map(|i| (i * 7 % 251) as u8).collect();
    let whole = pack_strokes(&raw).unwrap();
    let (first, second) = pack_font(&raw).unwrap();
    assert_eq!(first.len(), whole.len() / 7 * 6);
    assert_eq!(format!("{}{}", first, second), whole);
}
