use teacher::catalog::{Catalog, Homework, Word};
use teacher::controller::{
    check_dict, Controller, DictStep, Effect, Notice, Verdict, ANIM_ERROR, ANIM_WHOLE, DELAY_ANIM,
    DELAY_IDLE,
};
use teacher::strokes::StrokeTable;
use teacher::table::Table;

type P = (u16, u16, usize);

fn resample(pts: &Vec<(u16, u16)>, id: usize, _n: usize) -> Vec<P> {
    pts.iter().map(|p| (p.0, p.1, id)).collect()
}

fn catalog() -> Catalog {
    Catalog::new(
        vec![
            (String::from("1-静夜思"), String::from("床前明月光")),
            (String::from("2-山"), String::from("看山")),
        ],
        vec![(String::from("1-画"), String::from("远看山有色"))],
    )
}

fn table() -> StrokeTable {
    StrokeTable::from_entries(vec![
        ('远', vec![vec![(0, 0), (10, 10), (20, 20)]]),
        ('看', vec![vec![(0, 0), (5, 0), (9, 0), (12, 0)], vec![(0, 9), (0, 12)]]),
        ('山', vec![vec![(1, 1), (2, 2)]]),
    ])
}

fn loaded() -> Controller<P, f64> {
    let mut c: Controller<P, f64> = Controller::new(catalog(), 0.0);
    c.install_strokes(table());
    assert!(c.can_load_homework(&None));
    let e = c.load_homework(None, &resample);
    assert!(matches!(e.last(), Some(Effect::HideLoading)));
    c
}

fn write_stroke(c: &mut Controller<P, f64>, points: &[(u16, u16)]) {
    let first = points[0];
    assert!(c.can_press());
    c.on_pointer_down(&|id| (first.0, first.1, id));
    for p in &points[1..] {
        let q = *p;
        assert!(c.can_move(false));
        c.on_pointer_move(false, &|id| (q.0, q.1, id));
    }
}

#[test]
fn load_starts_the_first_lesson() {
    let mut c: Controller<P, f64> = Controller::new(catalog(), 0.0);
    c.install_strokes(table());
    let e = c.load_homework(None, &resample);
    assert_eq!(c.char_at_current(), '远');
    assert_eq!(c.position(), 0);
    assert_eq!(c.homework_string(), "远看山有色");
    assert!(matches!(e[0], Effect::SetCharacter('远')));
    assert!(e.iter().any(|x| matches!(x, Effect::SaveHomework(h) if h.group == 0 && h.title == "自定义" && h.content == "远看山有色" && h.progress == 0)));
}

#[test]
fn load_saved_homework_skips_unpractisable_characters() {
    let mut c: Controller<P, f64> = Controller::new(catalog(), 0.0);
    c.install_strokes(table());
    let saved = Some(Homework { group: 0, title: String::from("自定义"), content: String::from("  有山 "), progress: 0 });
    assert!(c.can_load_homework(&saved));
    c.load_homework(saved, &resample);
    assert_eq!(c.homework_string(), "有山");
    assert_eq!(c.position(), 1);
    assert_eq!(c.char_at_current(), '山');
}

#[test]
fn set_homework_without_practisable_characters_keeps_the_session() {
    let mut c = loaded();
    let e = c.set_homework("有色", &resample);
    assert_eq!(e.len(), 1);
    assert!(matches!(&e[0], Effect::SaveHomework(h) if h.content == "远看山有色"));
    assert_eq!(c.homework_string(), "远看山有色");
    let e = c.set_homework("   ", &resample);
    assert_eq!(e.len(), 2);
    assert!(matches!(e[0], Effect::Notify(Notice::EmptyHomework)));
}

#[test]
fn set_homework_starts_at_the_first_practisable_character() {
    let mut c = loaded();
    let e = c.set_homework(" 有山看 ", &resample);
    assert_eq!(e.len(), 3);
    assert!(matches!(e[0], Effect::SetCharacter('山')));
    assert!(matches!(e[1], Effect::UpdateHomework(1)));
    assert!(matches!(&e[2], Effect::SaveHomework(h) if h.content == "有山看"));
    assert_eq!(c.position(), 1);
}

#[test]
fn a_written_character_moves_on() {
    let mut c = loaded();
    write_stroke(&mut c, &[(5, 5), (6, 6), (7, 7)]);
    assert!(c.can_release());
    let r = c.on_pointer_up();
    let (t, d) = r.compare.unwrap();
    assert_eq!(t, vec![(0, 0, 1), (10, 10, 1), (20, 20, 1)]);
    assert_eq!(d, vec![(5, 5, 1), (6, 6, 1), (7, 7, 1)]);
    assert!(c.can_score_stroke(1.0, true));
    let r = c.on_stroke_scored(1.0, true);
    let (t, d) = r.compare.unwrap();
    assert_eq!(t.len(), 3);
    assert_eq!(d.len(), 3);
    assert!(c.can_accept_character());
    let e = c.on_character_scored(Verdict::Accept { score: 9.5, stars: 3 }, &resample);
    assert_eq!(e.len(), 4);
    assert!(matches!(e[0], Effect::SetCharacter('看')));
    assert!(matches!(e[1], Effect::Render));
    assert!(matches!(e[2], Effect::UpdateHomework(1)));
    assert!(matches!(e[3], Effect::ScoreToast { score, stars: 3 } if score == 9.5));
    assert_eq!(c.position(), 1);
}

#[test]
fn an_ugly_character_is_written_again() {
    let mut c = loaded();
    write_stroke(&mut c, &[(5, 5), (6, 6), (7, 7)]);
    c.on_pointer_up();
    c.on_stroke_scored(1.0, true);
    let e = c.on_character_scored(Verdict::Rewrite, &resample);
    assert!(matches!(e[0], Effect::Notify(Notice::UglyCharacter)));
    assert_eq!(c.position(), 0);
    let e = c.rewrite();
    assert_eq!(e.len(), 1);
    assert!(c.user_points().is_empty());
    assert_eq!(c.frame_delay(), DELAY_IDLE);
}

#[test]
fn a_short_stroke_is_pointed_at() {
    let mut c = loaded();
    write_stroke(&mut c, &[(5, 5), (6, 6)]);
    let r = c.on_pointer_up();
    assert!(r.compare.is_none());
    assert_eq!(c.error_marker(), Some((0, 0, 1)));
    assert_eq!(c.animation(), Some(ANIM_ERROR));
    assert!(c.user_points().is_empty());
    assert_eq!(c.frame_delay(), DELAY_ANIM);
}

#[test]
fn a_bad_stroke_is_dropped() {
    let mut c = loaded();
    write_stroke(&mut c, &[(5, 5), (6, 6), (7, 7)]);
    c.on_pointer_up();
    let r = c.on_stroke_scored(7.0, false);
    assert!(r.compare.is_none());
    assert_eq!(c.animation(), Some(ANIM_ERROR));
    assert!(c.user_points().is_empty());
}

#[test]
fn demonstration_toggles() {
    let mut c = loaded();
    write_stroke(&mut c, &[(5, 5), (6, 6), (7, 7)]);
    let e = c.stroke_anim();
    assert!(matches!(e[0], Effect::StartBrushBlink));
    assert_eq!(c.animation(), Some(ANIM_WHOLE));
    assert_eq!(c.frame_delay(), DELAY_ANIM);
    let e = c.stroke_anim();
    assert_eq!(e.len(), 2);
    assert!(matches!(e[0], Effect::StopBrushBlink));
    assert!(matches!(e[1], Effect::Render));
    assert_eq!(c.animation(), None);
    assert_eq!(c.frame_delay(), DELAY_IDLE);
    assert!(c.user_points().is_empty());
}

#[test]
fn demonstration_ignored_while_pointing_at_a_wrong_stroke() {
    let mut c = loaded();
    write_stroke(&mut c, &[(5, 5)]);
    c.on_pointer_up();
    assert_eq!(c.animation(), Some(ANIM_ERROR));
    let e = c.stroke_anim();
    assert!(e.is_empty());
    assert_eq!(c.animation(), Some(ANIM_ERROR));
}

#[test]
fn animation_frames_advance_two_points() {
    let mut c = loaded();
    c.next_character(1, &resample);
    assert_eq!(c.char_at_current(), '看');
    c.stroke_anim();
    assert!(c.can_update());
    c.update();
    assert_eq!(c.animation_points().len(), 1);
    c.update();
    c.update();
    c.update();
    assert_eq!(c.animation_points().len(), 4);
    c.update();
    assert_eq!(c.animation_points().len(), 0);
    c.update();
    assert_eq!(c.animation_points().len(), 1);
    c.update();
    assert_eq!(c.animation_points().len(), 2);
    c.update();
    assert_eq!(c.animation(), None);
}

#[test]
fn eraser_needs_written_strokes() {
    let mut c = loaded();
    let e = c.eraser();
    assert!(matches!(e[0], Effect::EraserHint));
    write_stroke(&mut c, &[(5, 5), (6, 6), (7, 7)]);
    let e = c.eraser();
    assert!(matches!(e[0], Effect::Render));
    assert!(c.user_points().is_empty());
}

#[test]
fn stepping_through_the_text() {
    let mut c = loaded();
    let (end, e) = c.next_character(0, &resample);
    assert!(!end);
    assert!(e.is_empty());
    let (end, _) = c.next_character(1, &resample);
    assert!(!end);
    assert_eq!(c.char_at_current(), '看');
    let (end, _) = c.next_character(1, &resample);
    assert!(!end);
    assert_eq!(c.char_at_current(), '山');
    let (end, _) = c.next_character(1, &resample);
    assert!(end);
    let e = c.previous(&resample);
    assert!(!e.is_empty());
}

#[test]
fn previous_at_the_start_is_reported() {
    let mut c = loaded();
    let e = c.previous(&resample);
    assert!(e.iter().any(|x| matches!(x, Effect::Notify(Notice::FirstCharacter))));
    assert_eq!(c.position(), 0);
}

#[test]
fn completing_the_text_saves_the_practice() {
    let mut c = loaded();
    c.set_homework("远", &resample);
    write_stroke(&mut c, &[(5, 5), (6, 6), (7, 7)]);
    c.on_pointer_up();
    c.on_stroke_scored(1.0, true);
    let e = c.on_character_scored(Verdict::Accept { score: 8.0, stars: 2 }, &resample);
    let n = e.len();
    assert!(matches!(e[0], Effect::ShowLoading));
    assert!(matches!(e[1], Effect::UpdateHomework(1)));
    assert!(matches!(&e[2], Effect::SaveHistory { text, strokes, scores } if text == "远" && strokes.len() == 1 && scores.len() == 1 && scores[0] == 8.0));
    assert!(matches!(e[n - 1], Effect::Notify(Notice::Completed)));
    assert_eq!(n, 9);
    assert!(matches!(e[3], Effect::SetCharacter('远')));
    assert!(matches!(e[4], Effect::UpdateHomework(0)));
    assert!(matches!(&e[5], Effect::SaveHomework(h) if h.content == "远"));
    assert_eq!(c.position(), 0);
}

#[test]
fn selecting_a_poem() {
    let mut c = loaded();
    let e = c.select_homework(1, 0, &resample);
    assert_eq!(e.len(), 1);
    assert!(matches!(&e[0], Effect::SaveHomework(h) if h.content == "远看山有色"));
    assert_eq!(c.homework_string(), "远看山有色");
    let e = c.select_homework(1, 1, &resample);
    assert!(matches!(e[0], Effect::SetCharacter('看')));
    assert!(matches!(&e[e.len() - 1], Effect::SaveHomework(h) if h.content == "看山"));
    assert_eq!(c.homework_string(), "看山");
}

#[test]
fn dictionary_lookups() {
    let mut c = loaded();
    assert!(matches!(check_dict(&c), DictStep::Load));
    let mut d: Table<Word> = Table::new();
    d.insert(
        String::from("远"),
        Word {
            strokes: String::from("7"),
            pinyin: String::from("yuǎn"),
            radicals: String::from("辶"),
            explanation: String::from("距离长"),
        },
    );
    c.install_dictionary(d);
    match check_dict(&c) {
        DictStep::Show { title, content } => {
            assert_eq!(title, "“远”的字意");
            assert_eq!(content, "yuǎn\r\n笔画:7 部首:辶\r\n距离长");
        }
        _ => panic!("expected an entry"),
    }
    c.next_character(1, &resample);
    assert!(matches!(check_dict(&c), DictStep::Missing));
}

#[test]
fn notices_read_as_the_page_shows_them() {
    assert_eq!(Notice::UglyCharacter.title(), "哎呦");
    assert_eq!(Notice::UglyCharacter.message(), "字写得太丑了，重新写吧！");
    assert_eq!(Notice::Completed.message(), "完成任务了！");
    assert_eq!(Notice::FirstCharacter.message(), "已经到第一个字了");
}

#[test]
fn stepping_forward_and_back_returns() {
    let mut c = loaded();
    c.set_homework("远有看色山", &resample);
    let (_, _) = c.next_character(1, &resample);
    assert_eq!(c.position(), 2);
    let (_, _) = c.next_character(1, &resample);
    assert_eq!(c.position(), 4);
    let (end, _) = c.next_character(-1, &resample);
    assert!(!end);
    assert_eq!(c.position(), 2);
    let (end, _) = c.next_character(-1, &resample);
    assert!(!end);
    assert_eq!(c.position(), 0);
}

#[test]
fn step_two_goes_back() {
    let mut c = loaded();
    c.next_character(1, &resample);
    c.next_character(1, &resample);
    assert_eq!(c.position(), 2);
    let (end, e) = c.next_character(2, &resample);
    assert!(!end);
    assert!(matches!(e[0], Effect::SetCharacter('看')));
    assert_eq!(c.position(), 1);
}

#[test]
fn previous_without_an_earlier_practisable_character() {
    let mut c = loaded();
    c.set_homework("有色山", &resample);
    assert_eq!(c.position(), 2);
    let e = c.previous(&resample);
    assert_eq!(e.len(), 1);
    assert!(matches!(e[0], Effect::Notify(Notice::FirstCharacter)));
    assert_eq!(c.position(), 2);
}

#[test]
fn slots_are_one_per_character() {
    let mut c = loaded();
    c.set_homework("远看", &resample);
    c.next_character(1, &resample);
    write_stroke(&mut c, &[(5, 5), (6, 6), (7, 7)]);
    c.on_pointer_up();
    c.on_stroke_scored(1.0, true);
    write_stroke(&mut c, &[(5, 5), (6, 6), (7, 7)]);
    c.on_pointer_up();
    c.on_stroke_scored(1.0, true);
    let e = c.on_character_scored(Verdict::Accept { score: 9.0, stars: 3 }, &resample);
    assert!(e.iter().any(|x| matches!(x, Effect::SaveHistory { strokes, scores, .. } if strokes.len() == 2 && scores.len() == 2 && scores[0] == 0.0 && scores[1] == 9.0)));
}

#[test]
fn moving_on_forgets_the_stroke_scores() {
    let mut c = loaded();
    c.next_character(1, &resample);
    assert_eq!(c.char_at_current(), '看');
    write_stroke(&mut c, &[(5, 5), (6, 6), (7, 7)]);
    c.on_pointer_up();
    c.on_stroke_scored(1.0, true);
    c.next_character(1, &resample);
    assert_eq!(c.char_at_current(), '山');
    write_stroke(&mut c, &[(5, 5), (6, 6), (7, 7)]);
    c.on_pointer_up();
    assert!(c.can_score_stroke(7.0, false));
    let r = c.on_stroke_scored(7.0, false);
    assert!(r.compare.is_none());
    assert_eq!(c.animation(), Some(ANIM_ERROR));
}

#[test]
fn demonstration_forgets_the_stroke_scores() {
    let mut c = loaded();
    c.next_character(1, &resample);
    write_stroke(&mut c, &[(5, 5), (6, 6), (7, 7)]);
    c.on_pointer_up();
    c.on_stroke_scored(1.0, true);
    c.stroke_anim();
    c.stroke_anim();
    write_stroke(&mut c, &[(5, 5), (6, 6), (7, 7)]);
    c.on_pointer_up();
    let r = c.on_stroke_scored(7.0, false);
    assert!(r.compare.is_none());
    assert_eq!(c.animation(), Some(ANIM_ERROR));
}

#[test]
fn homework_text_follows_the_session() {
    let c: Controller<P, f64> = Controller::new(catalog(), 0.0);
    assert_eq!(c.homework_string(), "");
}

#[test]
fn saved_text_is_restored_in_a_new_session() {
    let mut c = loaded();
    let e = c.set_homework("  看山 ", &resample);
    let saved = match e.last() {
        Some(Effect::SaveHomework(h)) => teacher::storage::encode_homework(h),
        _ => panic!("expected the assignment to be saved"),
    };
    let h = teacher::storage::decode_homework(&saved).unwrap();
    let mut d: Controller<P, f64> = Controller::new(catalog(), 0.0);
    d.install_strokes(table());
    let h = Some(h);
    assert!(d.can_load_homework(&h));
    d.load_homework(h, &resample);
    assert_eq!(d.homework_string(), "看山");
    assert_eq!(d.char_at_current(), '看');
}
