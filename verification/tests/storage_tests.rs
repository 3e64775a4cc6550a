use teacher::catalog::Homework;
use teacher::storage::{
    decode_homework, encode_choice, encode_homework, encode_input, get_choose_index,
    history_date, stored_input,
};

#[test]
fn choice_defaults_to_the_first_lesson() {
    assert_eq!(get_choose_index(None), vec![0, 0]);
    assert_eq!(get_choose_index(Some(vec![1, 2])), vec![0, 0]);
}

#[test]
fn choice_reads_back() {
    assert_eq!(get_choose_index(Some(encode_choice(1, 17))), vec![1, 17]);
    assert_eq!(encode_choice(1, 17), bincode::serialize(&vec![1i32, 17]).unwrap());
    assert_eq!(encode_choice(-1, 2), vec![2, 0, 0, 0, 0, 0, 0, 0, 255, 255, 255, 255, 2, 0, 0, 0]);
    assert_eq!(encode_input("字"), vec![3, 0, 0, 0, 0, 0, 0, 0, 0xe5, 0xad, 0x97]);
}

#[test]
fn typed_in_text_reads_back() {
    assert_eq!(stored_input(None), Some(String::new()));
    assert_eq!(stored_input(Some(encode_input("春眠不觉晓"))), Some(String::from("春眠不觉晓")));
    assert_eq!(stored_input(Some(vec![9, 0, 0])), None);
}

#[test]
fn homework_reads_back() {
    let h = Homework {
        group: 0,
        title: String::from("自定义"),
        content: String::from("床前明月光"),
        progress: 3,
    };
    let bytes = encode_homework(&h);
    assert_eq!(
        bytes,
        bincode::serialize(&(0i32, String::from("自定义"), String::from("床前明月光"), 3u64)).unwrap()
    );
    let back = decode_homework(&bytes).unwrap();
    assert_eq!(back.group, 0);
    assert_eq!(back.title, "自定义");
    assert_eq!(back.content, "床前明月光");
    assert_eq!(back.progress, 3);
    assert!(decode_homework(&bytes[..5]).is_none());
}

#[test]
fn history_date_in_a_time_zone() {
    assert_eq!(history_date(0, 0).unwrap(), "1970-01-01 00:00");
    assert_eq!(history_date(1_600_000_000_000, -8).unwrap(), "2020-09-13 20:26");
    assert_eq!(history_date(1_600_000_000_999, 5).unwrap(), "2020-09-13 07:26");
}

#[test]
fn history_date_rounds_toward_zero() {
    assert_eq!(history_date(-1, 0).unwrap(), "1970-01-01 00:00");
    assert_eq!(history_date(-1_000, 0).unwrap(), "1969-12-31 23:59");
    assert_eq!(history_date(-61_001, 0).unwrap(), "1969-12-31 23:58");
}

#[test]
fn history_date_out_of_range() {
    assert!(history_date(i64::MAX, 0).is_none());
}
