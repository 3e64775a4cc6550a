use teacher::catalog::Catalog;

fn pairs(v: &[(&str, &str)]) -> Vec<(String, String)> {
    v.iter().map(|(k, t)| (String::from(*k), String::from(*t))).collect()
}

fn catalog() -> Catalog {
    Catalog::new(
        pairs(&[("2-春晓", "春眠不觉晓"), ("1-静夜思", "床前明月光"), ("10-登鹳雀楼", "白日依山尽")]),
        pairs(&[("3-小池", "泉眼无声惜细流"), ("1-画", "远看山有色")]),
    )
}

#[test]
fn names_are_sorted_by_key() {
    let c = catalog();
    assert_eq!(
        c.get_choose_names(1),
        vec![String::from("静夜思"), String::from("登鹳雀楼"), String::from("春晓")]
    );
    assert_eq!(c.get_choose_names(0), vec![String::from("画"), String::from("小池")]);
    assert_eq!(c.get_choose_names(7), c.get_choose_names(1));
}

#[test]
fn chosen_texts() {
    let c = catalog();
    assert_eq!(c.choose_homework(1, 0), "床前明月光");
    assert_eq!(c.choose_homework(1, 2), "春眠不觉晓");
    assert_eq!(c.choose_homework(0, 1), "泉眼无声惜细流");
}

#[test]
fn default_homework_is_the_first_lesson() {
    let h = catalog().default_homework();
    assert_eq!(h.group, 2);
    assert_eq!(h.title, "1-画");
    assert_eq!(h.content, "远看山有色");
    assert_eq!(h.progress, 0);
}

#[test]
fn search_picks_the_first_matching_name() {
    let c = catalog();
    assert_eq!(c.search_title(vec![1, 0], "春"), vec![1, 2]);
    assert_eq!(c.search_title(vec![1, 2], "思"), vec![1, 0]);
    assert_eq!(c.search_title(vec![1, 1], "没有"), vec![1, 1]);
    assert_eq!(c.search_title(vec![0, 0], "池"), vec![0, 1]);
}

#[test]
fn names_change_only_with_the_group() {
    let c = catalog();
    assert_eq!(c.choose_change(0, 0), None);
    assert_eq!(c.choose_change(0, 1), Some(c.get_choose_names(1)));
    assert_eq!(c.choose_change(1, 0), Some(vec![String::from("画"), String::from("小池")]));
}

#[test]
fn later_text_with_the_same_key_wins() {
    let c = Catalog::new(pairs(&[("1-a", "old"), ("1-a", "new")]), pairs(&[("1-b", "x")]));
    assert_eq!(c.get_choose_names(1), vec![String::from("a")]);
    assert_eq!(c.choose_homework(1, 0), "new");
}
