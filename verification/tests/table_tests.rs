use teacher::table::{str_eq, table_from_pairs, Table};

#[test]
fn insert_then_get_gives_the_value() {
    let mut t: Table<i32> = Table::new();
    t.insert(String::from("a"), 1);
    t.insert(String::from("b"), 2);
    assert_eq!(t.get("a"), Some(&1));
    assert_eq!(t.get("b"), Some(&2));
    assert_eq!(t.get("c"), None);
    assert_eq!(t.len(), 2);
}

#[test]
fn insert_replaces_and_keeps_order() {
    let mut t: Table<i32> = Table::new();
    t.insert(String::from("x"), 1);
    t.insert(String::from("y"), 2);
    t.insert(String::from("x"), 3);
    assert_eq!(t.get("x"), Some(&3));
    assert_eq!(t.len(), 2);
    assert_eq!(t.keys(), vec![String::from("x"), String::from("y")]);
    assert!(t.contains_key("y"));
    assert!(!t.contains_key("z"));
}

#[test]
fn table_from_pairs_keeps_the_later_value() {
    let t = table_from_pairs(vec![
        (String::from("k"), String::from("first")),
        (String::from("j"), String::from("other")),
        (String::from("k"), String::from("second")),
    ]);
    assert_eq!(t.len(), 2);
    assert_eq!(t.get("k").map(|s| s.as_str()), Some("second"));
    let pairs = t.to_pairs();
    assert_eq!(pairs.len(), 2);
}

#[test]
fn str_eq_compares_text() {
    assert!(str_eq("字", "字"));
    assert!(!str_eq("字", "字字"));
    assert!(!str_eq("a", "b"));
}
