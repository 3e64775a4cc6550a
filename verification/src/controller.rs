use crate::catalog::{Catalog, Homework, Word};
use crate::strokes::{StrokeTable, Strokes};
use crate::table::Table;
use vstd::prelude::*;

verus! {

/// Frame interval while something moves on the canvas (milliseconds).
pub const DELAY_ANIM: u32 = 30;

/// Frame interval while nothing moves (milliseconds).
pub const DELAY_IDLE: u32 = 9000;

/// Frame interval of a fresh session (milliseconds).
pub const DELAY_START: u32 = 1000;

/// Number of points a template stroke is resampled to.
pub const RESAMPLE_POINTS: usize = 50;

/// Stroke animation that points at a wrongly written stroke.
pub const ANIM_ERROR: i32 = 0;

/// Stroke animation that demonstrates the whole character.
pub const ANIM_WHOLE: i32 = 1;

/// A message box shown to the user.
#[derive(PartialEq, Eq, Structural, Clone, Copy, Debug)]
pub enum Notice {
    /// The text to practise is empty.
    EmptyHomework,
    /// The written character is too far from the template; when the box is
    /// closed the character is written again (`rewrite`).
    UglyCharacter,
    /// Every character of the text has been written.
    Completed,
    /// Stepping back from the first character.
    FirstCharacter,
    /// The dictionary has no entry for the character.
    NoSuchCharacter,
}

impl Notice {
    /// The title of the message box.
    pub fn title(&self) -> (r: &'static str)
        ensures
            *self == Notice::EmptyHomework ==> r@ == "提示"@,
            *self == Notice::UglyCharacter ==> r@ == "哎呦"@,
            *self == Notice::Completed ==> r@ == "恭喜"@,
            *self == Notice::FirstCharacter ==> r@ == "提示"@,
            *self == Notice::NoSuchCharacter ==> r@ == "提示"@,
    {
        match self {
            Notice::EmptyHomework => "提示",
            Notice::UglyCharacter => "哎呦",
            Notice::Completed => "恭喜",
            Notice::FirstCharacter => "提示",
            Notice::NoSuchCharacter => "提示",
        }
    }

    /// The text of the message box.
    pub fn message(&self) -> (r: &'static str)
        ensures
            *self == Notice::EmptyHomework ==> r@ == "请输入要练习的文字！"@,
            *self == Notice::UglyCharacter ==> r@ == "字写得太丑了，重新写吧！"@,
            *self == Notice::Completed ==> r@ == "完成任务了！"@,
            *self == Notice::FirstCharacter ==> r@ == "已经到第一个字了"@,
            *self == Notice::NoSuchCharacter ==> r@ == "没有这个字"@,
    {
        match self {
            Notice::EmptyHomework => "请输入要练习的文字！",
            Notice::UglyCharacter => "字写得太丑了，重新写吧！",
            Notice::Completed => "完成任务了！",
            Notice::FirstCharacter => "已经到第一个字了",
            Notice::NoSuchCharacter => "没有这个字",
        }
    }
}

/// What the page has to do after a call, in order.
pub enum Effect<P, S> {
    /// Stop the pending frame timer, draw the canvas now and schedule the
    /// next frame after the current frame interval.
    Render,
    /// Show character `c` as the one to write.
    SetCharacter(char),
    /// Show the progress through the text: characters before the given
    /// position are done.
    UpdateHomework(usize),
    /// Start the blinking of the brush button.
    StartBrushBlink,
    /// Stop the blinking of the brush button.
    StopBrushBlink,
    /// Show a message box.
    Notify(Notice),
    /// Show the "橡皮擦" toast for one second.
    EraserHint,
    /// Show the "保存记录" loading indicator.
    ShowLoading,
    /// Hide the loading indicator.
    HideLoading,
    /// Save the assignment under the "homework" storage key.
    SaveHomework(Homework),
    /// Save a finished practice under the "history" file: the text, the
    /// strokes of each character and the score of each character.
    SaveHistory { text: String, strokes: Vec<Vec<Vec<P>>>, scores: Vec<S> },
    /// Show the score of the character just written, with 1 to 3 stars.
    ScoreToast { score: S, stars: u8 },
}

/// The state of a practice session, as the contracts speak of it.
pub ghost struct Session<P, S> {
    /// The characters of the text being practised.
    pub homework: Seq<char>,
    /// The position of the character being written.
    pub character: int,
    /// The character whose templates are loaded.
    pub drawing_ch: Option<char>,
    /// The resampled template strokes of that character.
    pub strokes: Seq<Seq<P>>,
    /// The stroke being written or demonstrated.
    pub stroke_index: int,
    /// The points of the stroke demonstration shown so far.
    pub stroke_anim: Seq<P>,
    /// The strokes the user wrote for the current character.
    pub user_strokes: Seq<Seq<P>>,
    /// The distance of each written stroke to its template, with whether it
    /// was close enough.
    pub stroke_scores: Seq<(S, bool)>,
    /// The strokes kept for each position of the text.
    pub all_user_strokes: Seq<Seq<Seq<P>>>,
    /// The score kept for each position of the text.
    pub all_user_strokes_score: Seq<S>,
    /// A stroke is being written.
    pub writing: bool,
    /// The text is done.
    pub complete: bool,
    /// Where the "wrong stroke" marker is drawn.
    pub error_icon: Option<P>,
    /// The last point added by a move.
    pub last_point: Option<P>,
    /// The frame interval.
    pub delay: u32,
    /// The running stroke animation, `ANIM_ERROR` or `ANIM_WHOLE`.
    pub stroke_animation: Option<i32>,
}

/// The contents of a list of point lists.
pub open spec fn seq2<P>(v: Seq<Vec<P>>) -> Seq<Seq<P>> {
    v.map_values(|x: Vec<P>| x@)
}

/// The contents of a list of lists of point lists.
pub open spec fn seq3<P>(v: Seq<Vec<Vec<P>>>) -> Seq<Seq<Seq<P>>> {
    v.map_values(|x: Vec<Vec<P>>| seq2(x@))
}


/// `n` empty stroke lists.
fn empty_slots<P>(n: usize) -> (r: Vec<Vec<Vec<P>>>)
    ensures
        r@.len() == n,
        seq3(r@) == Seq::new(n as nat, |k: int| Seq::<Seq<P>>::empty()),
{
    let mut r: Vec<Vec<Vec<P>>> = Vec::new();
    for i in 0..n
        invariant
            r@.len() == i,
            seq3(r@) == Seq::new(i as nat, |k: int| Seq::<Seq<P>>::empty()),
    {
        let v: Vec<Vec<P>> = Vec::new();
        let ghost prev = r@;
        let ghost gv = v;
        r.push(v);
        proof {
            assert(seq2(gv@) =~= Seq::<Seq<P>>::empty());
            assert(seq3(r@) =~= seq3(prev).push(seq2(gv@)));
            assert(seq3(r@) =~= Seq::new((i + 1) as nat, |k: int| Seq::<Seq<P>>::empty()));
        }
    }
    r
}

/// `n` copies of `s`.
fn repeat_score<S: Copy>(s: S, n: usize) -> (r: Vec<S>)
    ensures
        r@ == Seq::new(n as nat, |k: int| s),
{
    let mut r: Vec<S> = Vec::new();
    for i in 0..n
        invariant
            r@ == Seq::new(i as nat, |k: int| s),
    {
        r.push(s);
        assert(r@ =~= Seq::new((i + 1) as nat, |k: int| s));
    }
    r
}

/// A one-element sequence with one more element pushed.
proof fn lemma_push_one<T>(s: Seq<T>, x: T, u: T)
    requires
        s == seq![x],
    ensures
        s.push(u) == seq![x, u],
{
    assert(s.push(u) =~= seq![x, u]);
}


/// `prev_supported` never goes past its starting point.
proof fn lemma_prev_supported_le(t: StrokeTable, s: Seq<char>, j: int)
    requires
        j >= -1,
    ensures
        prev_supported(t, s, j) <= j,
        prev_supported(t, s, j) >= -1,
        prev_supported(t, s, j) >= 0 ==> prev_supported(t, s, j) < s.len() && t.supports(
            s[prev_supported(t, s, j)],
        ),
    decreases j + 1,
{
    if j >= 0 {
        lemma_prev_supported_le(t, s, j - 1);
    }
}

/// `next_supported` never goes before its starting point.
proof fn lemma_next_supported_ge(t: StrokeTable, s: Seq<char>, j: int)
    requires
        0 <= j,
    ensures
        j <= next_supported(t, s, j) <= s.len() || (j > s.len() && next_supported(t, s, j)
            == s.len()),
        next_supported(t, s, j) < s.len() ==> t.supports(s[next_supported(t, s, j)]),
    decreases s.len() - j,
{
    if j < s.len() && !t.supports(s[j]) {
        lemma_next_supported_ge(t, s, j + 1);
    }
}

/// Every position strictly between `j0` and the next practisable position
/// at or after it is not practisable.
proof fn lemma_next_supported_skips(t: StrokeTable, s: Seq<char>, j0: int)
    requires
        0 <= j0,
    ensures
        forall|k: int| j0 <= k < next_supported(t, s, j0) && k < s.len() ==> !t.supports(#[trigger] s[k]),
    decreases s.len() - j0,
{
    if j0 < s.len() && !t.supports(s[j0]) {
        lemma_next_supported_skips(t, s, j0 + 1);
    }
}

/// Walking back from `j` over positions that are not practisable reaches
/// `c`, when `c` is practisable.
proof fn lemma_prev_supported_walk(t: StrokeTable, s: Seq<char>, c: int, j: int)
    requires
        0 <= c <= j < s.len(),
        t.supports(s[c]),
        forall|k: int| c < k <= j ==> !t.supports(#[trigger] s[k]),
    ensures
        prev_supported(t, s, j) == c,
    decreases j - c,
{
    if j > c {
        lemma_prev_supported_walk(t, s, c, j - 1);
    }
}

/// The next practisable position at or after `j` is practisable (or the
/// end of the text), and none before it from `j` on is; the previous one
/// at or before `j` is practisable (or -1), and none after it up to `j` is.
pub proof fn law_supported_search(t: StrokeTable, s: Seq<char>, j: int)
    requires
        -1 <= j < s.len(),
    ensures
        j >= 0 ==> j <= next_supported(t, s, j) <= s.len(),
        j >= 0 && next_supported(t, s, j) < s.len() ==> t.supports(s[next_supported(t, s, j)]),
        j >= 0 ==> forall|k: int| j <= k < next_supported(t, s, j) ==> !t.supports(#[trigger] s[k]),
        -1 <= prev_supported(t, s, j) <= j,
        prev_supported(t, s, j) >= 0 ==> t.supports(s[prev_supported(t, s, j)]),
        forall|k: int| prev_supported(t, s, j) < k <= j ==> !t.supports(#[trigger] s[k]),
{
    if j >= 0 {
        lemma_next_supported_ge(t, s, j);
        lemma_next_supported_skips(t, s, j);
    }
    lemma_prev_supported_le(t, s, j);
    lemma_prev_supported_skipped(t, s, j);
}

/// Stepping to the next practisable character and back returns to where
/// the step started, and so does stepping back and forward again: from a
/// practisable position `c`, the next practisable position after it has
/// `c` as its previous one, and the previous one before it has `c` as its
/// next one.
pub proof fn law_step_round_trip(t: StrokeTable, s: Seq<char>, c: int)
    requires
        0 <= c < s.len(),
        t.supports(s[c]),
    ensures
        next_supported(t, s, c + 1) < s.len() ==> prev_supported(
            t,
            s,
            next_supported(t, s, c + 1) - 1,
        ) == c,
        prev_supported(t, s, c - 1) >= 0 ==> next_supported(t, s, prev_supported(t, s, c - 1) + 1)
            == c,
{
    lemma_next_supported_skips(t, s, c + 1);
    lemma_next_supported_ge(t, s, c + 1);
    if next_supported(t, s, c + 1) < s.len() {
        lemma_prev_supported_walk(t, s, c, next_supported(t, s, c + 1) - 1);
    }
    lemma_prev_supported_le(t, s, c - 1);
    let p = prev_supported(t, s, c - 1);
    if p >= 0 {
        lemma_prev_supported_skipped(t, s, c - 1);
        lemma_next_supported_walk(t, s, p + 1, c);
    }
}

/// Every position after the previous practisable one, up to `j`, is not
/// practisable.
proof fn lemma_prev_supported_skipped(t: StrokeTable, s: Seq<char>, j: int)
    requires
        j >= -1,
        j < s.len(),
    ensures
        forall|k: int| prev_supported(t, s, j) < k <= j ==> !t.supports(#[trigger] s[k]),
    decreases j + 1,
{
    if j >= 0 && !t.supports(s[j]) {
        lemma_prev_supported_skipped(t, s, j - 1);
    }
}

/// Walking forward from `j` over positions that are not practisable
/// reaches `c`, when `c` is practisable.
proof fn lemma_next_supported_walk(t: StrokeTable, s: Seq<char>, j: int, c: int)
    requires
        0 <= j <= c < s.len(),
        t.supports(s[c]),
        forall|k: int| j <= k < c ==> !t.supports(#[trigger] s[k]),
    ensures
        next_supported(t, s, j) == c,
    decreases c - j,
{
    if j < c {
        lemma_next_supported_walk(t, s, j + 1, c);
    }
}

/// The session after `stroke_anim`: a demonstration of the whole character
/// starts from the first stroke with the written strokes and their scores
/// cleared, or the
/// running one stops and goes back to the first stroke; nothing changes
/// while a wrong stroke is pointed at.
pub open spec fn anim_toggled<P, S>(s: Session<P, S>) -> Session<P, S> {
    match s.stroke_animation {
        Some(t) => if t == ANIM_ERROR {
            s
        } else {
            Session {
                stroke_anim: Seq::empty(),
                stroke_animation: None,
                delay: DELAY_IDLE,
                stroke_index: 0,
                ..s
            }
        },
        None => Session {
            user_strokes: Seq::empty(),
            stroke_scores: Seq::empty(),
            stroke_animation: Some(ANIM_WHOLE),
            stroke_index: 0,
            stroke_anim: Seq::empty(),
            delay: DELAY_ANIM,
            ..s
        },
    }
}

/// Turning the demonstration on and off again leaves the session as it was,
/// but for the strokes written so far and their scores, which are cleared,
/// and the idle frame interval; it stands at the first stroke.
pub proof fn law_stroke_anim_toggle<P, S>(s: Session<P, S>)
    requires
        s.stroke_animation is None,
    ensures
        anim_toggled(s).stroke_animation == Some(ANIM_WHOLE),
        anim_toggled(anim_toggled(s)) == (Session {
            user_strokes: Seq::empty(),
            stroke_scores: Seq::empty(),
            stroke_anim: Seq::empty(),
            stroke_index: 0,
            delay: DELAY_IDLE,
            ..s
        }),
{
}

/// The session after moving to the character at position `j`: its
/// templates are loaded, nothing is written or scored yet and the frame
/// interval is idle.
pub open spec fn moved_to<P, S>(old: Session<P, S>, new: Session<P, S>, j: int) -> bool {
    new == Session {
        character: j,
        stroke_index: 0,
        drawing_ch: Some(old.homework[j]),
        strokes: new.strokes,
        user_strokes: Seq::empty(),
        stroke_scores: Seq::empty(),
        error_icon: None,
        stroke_animation: None,
        delay: DELAY_IDLE,
        ..old
    }
}

/// Loading an assignment saved with a trimmed text `trim(c)` takes up
/// that same text: what `load_homework` trims is `trim(c)` again, and
/// trimming it changes nothing. With `set_homework(c)` saving `trim(c)`
/// and `decode_homework` reading back what `encode_homework` wrote, the
/// next session restarts the text that was being practised.
pub proof fn law_saved_text_restored(catalog: Catalog, h: Homework, c: Seq<char>)
    requires
        h.content@ == crate::text::trim(c),
    ensures
        crate::text::trim(loaded_content(catalog, Some(h))) == crate::text::trim(c),
{
    crate::text::law_trim_idempotent(c);
}

/// Three effects pushed one after another.
proof fn lemma_push_two<T>(s: Seq<T>, x: T, u: T, w: T)
    requires
        s == seq![x],
    ensures
        s.push(u).push(w) == seq![x, u, w],
        (s + seq![u]).push(w) == seq![x, u, w],
{
    assert(s.push(u).push(w) =~= seq![x, u, w]);
    assert((s + seq![u]).push(w) =~= seq![x, u, w]);
}


/// The text of the assignment to load: the saved one, or else the lesson
/// text with the smallest key.
pub open spec fn loaded_content(catalog: Catalog, saved: Option<Homework>) -> Seq<char> {
    match saved {
        Some(h) => h.content@,
        None => catalog.articls()[catalog.article_index()[0].1@]@,
    }
}


/// A text with a practisable character has a first one.
proof fn lemma_first_supported_exists(t: StrokeTable, s: Seq<char>, k: int)
    requires
        0 <= k < s.len(),
        t.supports(s[k]),
    ensures
        exists|i: int| #[trigger] first_supported(t, s, i),
    decreases k,
{
    if forall|j: int| 0 <= j < k ==> !t.supports(#[trigger] s[j]) {
        assert(first_supported(t, s, k));
    } else {
        let j = choose|j: int| 0 <= j < k && t.supports(#[trigger] s[j]);
        lemma_first_supported_exists(t, s, j);
    }
}


/// A non-empty sequence with one element appended and one pushed.
proof fn lemma_tail_two<T>(s: Seq<T>, x: T, y: T)
    requires
        s.len() > 0,
    ensures
        ({
            let r = (s + seq![x]).push(y);
            let n = r.len();
            &&& n == s.len() + 2
            &&& r[n - 1] == y
            &&& r[n - 2] == x
            &&& r[n - 3] == s.last()
            &&& r.subrange(0, n - 3) == s.drop_last()
        }),
{
    let r = (s + seq![x]).push(y);
    assert(r.subrange(0, r.len() - 3) =~= s.drop_last());
}


/// What the page has to do when a pointer gesture ends or a score comes
/// back: compare `template` with `drawn` and report the distance, when
/// `compare` holds them; then carry out `effects`.
pub struct Scoring<P, S> {
    pub compare: Option<(Vec<P>, Vec<P>)>,
    pub effects: Vec<Effect<P, S>>,
}

/// The page's judgement of a whole written character.
pub enum Verdict<S> {
    /// Too far from the template: the user is asked to write it again.
    Rewrite,
    /// Close enough, with its score and the number of stars (1 to 3).
    Accept { score: S, stars: u8 },
}

/// All points of `strokes`, stroke after stroke.
pub open spec fn flat<P>(strokes: Seq<Seq<P>>) -> Seq<P>
    decreases strokes.len(),
{
    if strokes.len() == 0 {
        Seq::empty()
    } else {
        flat(strokes.drop_last()) + strokes.last()
    }
}

/// The points of strokes taken together are the points of a first part of
/// them followed by those of the rest: each stroke contributes all its
/// points, in order, and a single stroke its own points.
pub proof fn law_flat_concat<P>(a: Seq<Seq<P>>, b: Seq<Seq<P>>)
    ensures
        flat(a + b) == flat(a) + flat(b),
        flat(Seq::<Seq<P>>::empty()) == Seq::<P>::empty(),
        forall|x: Seq<P>| #[trigger] flat(seq![x]) == x,
    decreases b.len(),
{
    assert(flat(Seq::<Seq<P>>::empty()) == Seq::<P>::empty());
    assert forall|x: Seq<P>| #[trigger] flat(seq![x]) == x by {
        let one = seq![x];
        assert(one.len() == 1);
        assert(one.drop_last() =~= Seq::<Seq<P>>::empty());
        assert(one.last() == x);
        assert(flat(one) == flat(one.drop_last()) + one.last());
        assert(Seq::<P>::empty() + x =~= x);
    }
    if b.len() == 0 {
        assert(a + b =~= a);
        assert(flat(a) + flat(b) =~= flat(a));
    } else {
        law_flat_concat(a, b.drop_last());
        assert((a + b).drop_last() =~= a + b.drop_last());
        assert((a + b).last() == b.last());
        assert(flat(a + b) =~= flat(a) + flat(b));
    }
}

/// The points of strokes number the sum of their strokes' lengths.
pub proof fn law_flat_len<P>(strokes: Seq<Seq<P>>)
    ensures
        flat(strokes).len() == strokes.fold_left(0nat, |n: nat, x: Seq<P>| n + x.len()),
    decreases strokes.len(),
{
    if strokes.len() > 0 {
        law_flat_len(strokes.drop_last());
    }
}

/// A call that changes the frame interval, or asks for a drawing, draws at
/// once (which also schedules the next frame at the new interval); one that
/// does neither draws nothing.
pub proof fn law_interval_change_draws<P, S>(current: u32, delay: u32, render: bool)
    ensures
        current != delay ==> reset_effects::<P, S>(current, delay, render) == seq![
            Effect::<P, S>::Render,
        ],
        render ==> reset_effects::<P, S>(current, delay, render) == seq![Effect::<P, S>::Render],
        current == delay && !render ==> reset_effects::<P, S>(current, delay, render).len() == 0,
{
}

/// A copy of a point list.
fn copy_points<P: Copy>(v: &Vec<P>) -> (r: Vec<P>)
    ensures
        r@ == v@,
{
    let mut r: Vec<P> = Vec::new();
    for i in 0..v.len()
        invariant
            r@ == v@.subrange(0, i as int),
    {
        r.push(v[i]);
        assert(r@ =~= v@.subrange(0, i + 1));
    }
    assert(v@.subrange(0, v@.len() as int) =~= v@);
    r
}

/// A copy of a list of point lists.
fn copy_strokes<P: Copy>(v: &Vec<Vec<P>>) -> (r: Vec<Vec<P>>)
    ensures
        seq2(r@) == seq2(v@),
{
    let mut r: Vec<Vec<P>> = Vec::new();
    for i in 0..v.len()
        invariant
            seq2(r@) == seq2(v@.subrange(0, i as int)),
    {
        let c = copy_points(&v[i]);
        let ghost prev = r@;
        r.push(c);
        assert(seq2(r@) =~= seq2(v@.subrange(0, i + 1))) by {
            assert(r@ == prev.push(c));
            assert(seq2(r@) =~= seq2(prev).push(c@));
        }
    }
    assert(v@.subrange(0, v@.len() as int) =~= v@);
    r
}

/// A copy of a list of lists of point lists.
fn copy_slots<P: Copy>(v: &Vec<Vec<Vec<P>>>) -> (r: Vec<Vec<Vec<P>>>)
    ensures
        seq3(r@) == seq3(v@),
{
    let mut r: Vec<Vec<Vec<P>>> = Vec::new();
    for i in 0..v.len()
        invariant
            seq3(r@) == seq3(v@.subrange(0, i as int)),
    {
        let c = copy_strokes(&v[i]);
        let ghost prev = r@;
        r.push(c);
        assert(seq3(r@) =~= seq3(v@.subrange(0, i + 1))) by {
            assert(r@ == prev.push(c));
            assert(seq3(r@) =~= seq3(prev).push(seq2(c@)));
        }
    }
    assert(v@.subrange(0, v@.len() as int) =~= v@);
    r
}

/// A copy of a score list.
fn copy_scores<S: Copy>(v: &Vec<S>) -> (r: Vec<S>)
    ensures
        r@ == v@,
{
    let mut r: Vec<S> = Vec::new();
    for i in 0..v.len()
        invariant
            r@ == v@.subrange(0, i as int),
    {
        r.push(v[i]);
        assert(r@ =~= v@.subrange(0, i + 1));
    }
    assert(v@.subrange(0, v@.len() as int) =~= v@);
    r
}

/// All points of a list of point lists, in order.
fn flatten<P: Copy>(v: &Vec<Vec<P>>) -> (r: Vec<P>)
    ensures
        r@ == flat(seq2(v@)),
{
    let mut r: Vec<P> = Vec::new();
    for i in 0..v.len()
        invariant
            r@ == flat(seq2(v@.subrange(0, i as int))),
    {
        let mut c = copy_points(&v[i]);
        let ghost cv = c@;
        r.append(&mut c);
        proof {
            let pre = seq2(v@.subrange(0, i + 1));
            assert(pre.drop_last() =~= seq2(v@.subrange(0, i as int)));
            assert(pre.last() == cv);
        }
    }
    assert(v@.subrange(0, v@.len() as int) =~= v@);
    r
}


/// `f` can be called with any stroke number.
pub open spec fn make_total<P, M: Fn(usize) -> P>(f: &M) -> bool {
    forall|id: usize| #[trigger] f.requires((id,))
}

/// The session after the stroke at `stroke_index` was dropped as wrong:
/// the user is pointed at the start of its template.
pub open spec fn stroke_rejected<P, S>(old: Session<P, S>, new: Session<P, S>, remove_score: bool) -> bool {
    new == Session {
        stroke_scores: if remove_score {
            old.stroke_scores.remove(old.stroke_index)
        } else {
            old.stroke_scores
        },
        user_strokes: old.user_strokes.remove(old.stroke_index),
        error_icon: Some(old.strokes[old.stroke_index][0]),
        stroke_animation: Some(ANIM_ERROR),
        delay: DELAY_ANIM,
        ..old
    }
}


/// The layout of the effects of finishing a text: three first effects, the
/// effects of starting the text over, and three last effects.
proof fn lemma_completion_effects<T>(a: Seq<T>, h: Seq<T>, x: T, y: T, z: T, e: Seq<T>)
    requires
        a.len() == 3,
        h.len() >= 1,
        e == (((a + h).push(x) + seq![y]).push(z) + Seq::<T>::empty()),
    ensures
        e.len() == h.len() + 6,
        e[0] == a[0],
        e[1] == a[1],
        e[2] == a[2],
        e[e.len() - 4] == h.last(),
        e[e.len() - 3] == x,
        e[e.len() - 2] == y,
        e[e.len() - 1] == z,
        e.subrange(3, e.len() - 4) == h.drop_last(),
{
    let n = e.len();
    assert(e =~= a + h + seq![x, y, z]);
    assert(e.subrange(3, e.len() - 4) =~= h.drop_last());
    assert(e[n - 4] == (a + h)[(a + h).len() - 1]);
}


/// Three elements with a fourth pushed.
proof fn lemma_push_after_three<T>(s: Seq<T>, a: T, b: T, c: T, d: T)
    requires
        s == seq![a, b, c],
    ensures
        s.push(d) + Seq::<T>::empty() == seq![a, b, c, d],
{
    assert(s.push(d) + Seq::<T>::empty() =~= seq![a, b, c, d]);
}

/// The practice session: the text being written, its templates, what the
/// user wrote, and the data it draws on.
pub struct Controller<P, S> {
    catalog: Catalog,
    strokes_map: StrokeTable,
    dict: Option<Table<Word>>,
    stroke_anim: Vec<P>,
    character: usize,
    drawing_ch: Option<char>,
    strokes: Vec<Vec<P>>,
    stroke_index: usize,
    all_user_strokes: Vec<Vec<Vec<P>>>,
    all_user_strokes_score: Vec<S>,
    user_strokes: Vec<Vec<P>>,
    stroke_scores: Vec<(S, bool)>,
    writing: bool,
    complete: bool,
    homework: Vec<char>,
    homework_str: String,
    error_icon: Option<P>,
    last_point: Option<P>,
    delay: u32,
    stroke_animation: Option<i32>,
    blank_score: S,
}

impl<P, S> View for Controller<P, S> {
    type V = Session<P, S>;

    closed spec fn view(&self) -> Session<P, S> {
        Session {
            homework: self.homework@,
            character: self.character as int,
            drawing_ch: self.drawing_ch,
            strokes: seq2(self.strokes@),
            stroke_index: self.stroke_index as int,
            stroke_anim: self.stroke_anim@,
            user_strokes: seq2(self.user_strokes@),
            stroke_scores: self.stroke_scores@,
            all_user_strokes: seq3(self.all_user_strokes@),
            all_user_strokes_score: self.all_user_strokes_score@,
            writing: self.writing,
            complete: self.complete,
            error_icon: self.error_icon,
            last_point: self.last_point,
            delay: self.delay,
            stroke_animation: self.stroke_animation,
        }
    }
}

/// The effects of `reset_delay(delay, render)` with the frame interval at
/// `current`: draw now when the interval changes or a drawing is asked for.
pub open spec fn reset_effects<P, S>(current: u32, delay: u32, render: bool) -> Seq<Effect<P, S>> {
    if current != delay || render {
        seq![Effect::Render]
    } else {
        seq![]
    }
}

/// The effects of ending a pointer gesture when the session is in state `s`:
/// with no stroke animation running the frame interval drops to idle.
pub open spec fn finish_effects<P, S>(s: Session<P, S>) -> Seq<Effect<P, S>> {
    if s.stroke_animation is None {
        reset_effects(s.delay, DELAY_IDLE, false)
    } else {
        seq![]
    }
}


/// `f` can be called on any template stroke, stroke number and point count.
pub open spec fn resample_total<P, F: Fn(&Vec<(u16, u16)>, usize, usize) -> Vec<P>>(f: &F) -> bool {
    forall|t: &Vec<(u16, u16)>, id: usize, n: usize| #[trigger] f.requires((t, id, n))
}

/// `out` is a possible result of `f` on template stroke `t` numbered `id`,
/// resampled to `RESAMPLE_POINTS` points.
pub open spec fn resampled_stroke<P, F: Fn(&Vec<(u16, u16)>, usize, usize) -> Vec<P>>(
    f: &F,
    t: Vec<(u16, u16)>,
    id: usize,
    out: Seq<P>,
) -> bool {
    exists|v: Vec<P>| #[trigger] f.ensures((&t, id, RESAMPLE_POINTS), v) && v@ == out
}

/// `out` is what `f` gives for each template stroke of `templates`, numbered
/// from 1 and resampled to `RESAMPLE_POINTS` points.
pub open spec fn resampled<P, F: Fn(&Vec<(u16, u16)>, usize, usize) -> Vec<P>>(
    f: &F,
    templates: Seq<Vec<(u16, u16)>>,
    out: Seq<Seq<P>>,
) -> bool {
    &&& out.len() == templates.len()
    &&& forall|i: int|
        0 <= i < templates.len() ==> #[trigger] resampled_stroke::<P, F>(
            f,
            templates[i],
            (i + 1) as usize,
            out[i],
        )
}

/// `i` is the first position of `s` whose character has templates in `t`.
pub open spec fn first_supported(t: StrokeTable, s: Seq<char>, i: int) -> bool {
    &&& 0 <= i < s.len()
    &&& t.supports(s[i])
    &&& forall|j: int| 0 <= j < i ==> !t.supports(#[trigger] s[j])
}

/// No character of `s` has templates in `t`.
pub open spec fn none_supported(t: StrokeTable, s: Seq<char>) -> bool {
    forall|j: int| 0 <= j < s.len() ==> !t.supports(#[trigger] s[j])
}

/// The first position at or after `j` whose character has templates, or the
/// length of `s` when there is none.
pub open spec fn next_supported(t: StrokeTable, s: Seq<char>, j: int) -> int
    decreases s.len() - j,
{
    if j >= s.len() || j < 0 {
        s.len() as int
    } else if t.supports(s[j]) {
        j
    } else {
        next_supported(t, s, j + 1)
    }
}

/// The last position at or before `j` whose character has templates, or -1
/// when there is none.
pub open spec fn prev_supported(t: StrokeTable, s: Seq<char>, j: int) -> int
    decreases j + 1,
{
    if j < 0 {
        -1
    } else if j < s.len() && t.supports(s[j]) {
        j
    } else {
        prev_supported(t, s, j - 1)
    }
}

/// The session after a new text `c` was taken with its first practisable
/// character at `i`: everything written is dropped and one blank result
/// slot is kept for each character of `c`; the templates are not part of
/// this relation.
pub open spec fn started<P, S>(
    old: Session<P, S>,
    new: Session<P, S>,
    c: Seq<char>,
    i: int,
    blank: S,
) -> bool {
    new == Session {
        homework: c,
        character: i,
        drawing_ch: Some(c[i]),
        strokes: new.strokes,
        complete: false,
        stroke_index: 0,
        stroke_anim: Seq::empty(),
        stroke_scores: Seq::empty(),
        user_strokes: Seq::empty(),
        all_user_strokes: Seq::new(c.len(), |k: int| Seq::<Seq<P>>::empty()),
        all_user_strokes_score: Seq::new(c.len(), |k: int| blank),
        stroke_animation: None,
        ..old
    }
}

/// The saved assignment of a text typed in by the user.
pub open spec fn saved_homework<P, S>(e: Effect<P, S>, c: Seq<char>) -> bool {
    e matches Effect::SaveHomework(h) && h.group == 0 && h.title@ == "自定义"@ && h.content@ == c
        && h.progress == 0
}


impl<P: Copy, S: Copy> Controller<P, S> {
    /// The texts that can be chosen.
    pub closed spec fn catalog(&self) -> Catalog {
        self.catalog
    }

    /// The stroke templates.
    pub closed spec fn strokes_map(&self) -> StrokeTable {
        self.strokes_map
    }

    /// The dictionary, once loaded.
    pub closed spec fn dict(&self) -> Option<Table<Word>> {
        self.dict
    }

    /// The text being practised.
    pub closed spec fn homework_text(&self) -> String {
        self.homework_str
    }

    /// The score a position of the text holds before it is written.
    pub closed spec fn blank_score(&self) -> S {
        self.blank_score
    }

    /// Everything but the session is the same in `self` and `other`.
    pub open spec fn same_data(&self, other: &Self) -> bool {
        &&& self.catalog() == other.catalog()
        &&& self.strokes_map() == other.strokes_map()
        &&& self.dict() == other.dict()
        &&& self.blank_score() == other.blank_score()
    }

    /// The session is consistent with its data.
    pub closed spec fn wf(&self) -> bool {
        &&& self.catalog.wf()
        &&& (self.dict matches Some(d) ==> d.wf())
        &&& self.character <= self.homework@.len()
        &&& self.homework_str@ == self.homework@
        &&& self.all_user_strokes@.len() == self.all_user_strokes_score@.len()
    }

    /// What a well-formed session guarantees its callers: the position lies
    /// within the text (or just past its end), the text matches its string,
    /// there is a result score for each result slot, and the catalog and a
    /// loaded dictionary are well-formed.
    pub proof fn lemma_wf(&self)
        requires
            self.wf(),
        ensures
            0 <= self@.character <= self@.homework.len(),
            0 <= self@.stroke_index,
            self.homework_text()@ == self@.homework,
            self@.all_user_strokes.len() == self@.all_user_strokes_score.len(),
            self.catalog().wf(),
            self.dict() matches Some(d) ==> d.wf(),
    {
    }

    /// The character at the current position has templates.
    pub open spec fn strokes_ready(&self) -> bool {
        &&& 0 <= self@.character < self@.homework.len()
        &&& self.strokes_map().supports(self@.homework[self@.character])
    }

    /// A new session over `catalog`, with no templates and no text yet;
    /// `blank_score` is the score of a position not yet written.
    pub fn new(catalog: Catalog, blank_score: S) -> (c: Self)
        requires
            catalog.wf(),
        ensures
            c.wf(),
            c.catalog() == catalog,
            c.strokes_map()@ == Map::<u32, Strokes>::empty(),
            c.dict() is None,
            c.blank_score() == blank_score,
            c.homework_text()@ == Seq::<char>::empty(),
            c@ == (Session::<P, S> {
                homework: Seq::empty(),
                character: 0,
                drawing_ch: None,
                strokes: Seq::empty(),
                stroke_index: 0,
                stroke_anim: Seq::empty(),
                user_strokes: Seq::empty(),
                stroke_scores: Seq::empty(),
                all_user_strokes: Seq::empty(),
                all_user_strokes_score: Seq::empty(),
                writing: false,
                complete: false,
                error_icon: None,
                last_point: None,
                delay: DELAY_START,
                stroke_animation: None,
            }),
    {
        let c = Controller {
            catalog,
            strokes_map: StrokeTable::new(),
            dict: None,
            stroke_anim: Vec::new(),
            character: 0,
            drawing_ch: None,
            strokes: Vec::new(),
            stroke_index: 0,
            all_user_strokes: Vec::new(),
            all_user_strokes_score: Vec::new(),
            user_strokes: Vec::new(),
            stroke_scores: Vec::new(),
            writing: false,
            complete: false,
            homework: Vec::new(),
            homework_str: String::new(),
            error_icon: None,
            last_point: None,
            delay: DELAY_START,
            stroke_animation: None,
            blank_score,
        };
        assert(c@.strokes =~= Seq::<Seq<P>>::empty());
        assert(c@.user_strokes =~= Seq::<Seq<P>>::empty());
        assert(c@.all_user_strokes =~= Seq::<Seq<Seq<P>>>::empty());
        assert(c.homework@ =~= c.homework_str@);
        c
    }

    /// Restarts the frame timer at interval `delay`, drawing at once when the
    /// interval changes or `render` asks for it.
    fn reset_delay(&mut self, delay: u32, render: bool) -> (e: Vec<Effect<P, S>>)
        ensures
            final(self)@ == (Session { delay, ..old(self)@ }),
            final(self).same_data(old(self)),
            final(self).homework_str == old(self).homework_str,
            old(self).wf() ==> final(self).wf(),
            e@ == reset_effects::<P, S>(old(self)@.delay, delay, render),
    {
        let mut e: Vec<Effect<P, S>> = Vec::new();
        if self.delay != delay || render {
            self.delay = delay;
            e.push(Effect::Render);
        }
        proof {
            assert(e@ =~= reset_effects::<P, S>(old(self)@.delay, delay, render));
        }
        e
    }

    /// Clears what the user wrote for the current character and starts over
    /// from its first stroke.
    pub fn rewrite(&mut self) -> (e: Vec<Effect<P, S>>)
        requires
            old(self).wf(),
        ensures
            final(self).wf(),
            final(self).homework_text()@ == final(self)@.homework,
            final(self).same_data(old(self)),
            final(self)@ == (Session {
                stroke_index: 0,
                stroke_anim: Seq::empty(),
                stroke_scores: Seq::empty(),
                user_strokes: Seq::empty(),
                delay: DELAY_IDLE,
                ..old(self)@
            }),
            e@ == seq![Effect::<P, S>::Render],
    {
        self.stroke_index = 0;
        self.stroke_anim.clear();
        self.stroke_scores.clear();
        self.user_strokes.clear();
        let e = self.reset_delay(DELAY_IDLE, true);
        assert(self@.user_strokes =~= Seq::<Seq<P>>::empty());
        e
    }

    /// Starts the demonstration of the whole character, or stops the one that
    /// runs; does nothing while a wrong stroke is being pointed at.
    pub fn stroke_anim(&mut self) -> (e: Vec<Effect<P, S>>)
        requires
            old(self).wf(),
        ensures
            final(self).wf(),
            final(self).homework_text()@ == final(self)@.homework,
            final(self).same_data(old(self)),
            final(self)@ == anim_toggled(old(self)@),
            final(self)@.delay != old(self)@.delay ==> e@.len() > 0 && e@.last()
                == Effect::<P, S>::Render,
            old(self)@.stroke_animation == Some(ANIM_ERROR) ==> final(self)@ == old(self)@
                && e@.len() == 0,
            old(self)@.stroke_animation matches Some(t) && t != ANIM_ERROR ==> final(self)@ == (
            Session {
                stroke_anim: Seq::empty(),
                stroke_animation: None,
                delay: DELAY_IDLE,
                stroke_index: 0,
                ..old(self)@
            }) && e@ == seq![Effect::<P, S>::StopBrushBlink, Effect::Render],
            old(self)@.stroke_animation is None ==> final(self)@ == (Session {
                user_strokes: Seq::empty(),
                stroke_scores: Seq::empty(),
                stroke_animation: Some(ANIM_WHOLE),
                stroke_index: 0,
                stroke_anim: Seq::empty(),
                delay: DELAY_ANIM,
                ..old(self)@
            }) && e@ == seq![Effect::<P, S>::StartBrushBlink] + reset_effects::<P, S>(
                old(self)@.delay,
                DELAY_ANIM,
                false,
            ),
    {
        let mut e: Vec<Effect<P, S>> = Vec::new();
        if let Some(anim_type) = self.stroke_animation {
            if anim_type == ANIM_ERROR {
                return e;
            }
            e.push(Effect::StopBrushBlink);
            self.stroke_anim.clear();
            self.stroke_animation = None;
            let mut r = self.reset_delay(DELAY_IDLE, true);
            e.append(&mut r);
            self.stroke_index = 0;
        } else {
            e.push(Effect::StartBrushBlink);
            self.user_strokes.clear();
            self.stroke_scores.clear();
            self.stroke_animation = Some(ANIM_WHOLE);
            self.stroke_index = 0;
            self.stroke_anim.clear();
            let mut r = self.reset_delay(DELAY_ANIM, false);
            e.append(&mut r);
            assert(self@.user_strokes =~= Seq::<Seq<P>>::empty());
        }
        e
    }

    /// Drops the stroke just written (and its score when `remove_score`),
    /// marks where the stroke should start and points at it.
    fn clear_error_stroke(&mut self, remove_score: bool) -> (e: Vec<Effect<P, S>>)
        requires
            old(self).wf(),
            0 <= old(self)@.stroke_index < old(self)@.user_strokes.len(),
            remove_score ==> old(self)@.stroke_index < old(self)@.stroke_scores.len(),
            old(self)@.stroke_index < old(self)@.strokes.len(),
            old(self)@.strokes[old(self)@.stroke_index].len() > 0,
        ensures
            final(self).wf(),
            final(self).homework_text()@ == final(self)@.homework,
            final(self).same_data(old(self)),
            final(self)@ == (Session {
                stroke_scores: if remove_score {
                    old(self)@.stroke_scores.remove(old(self)@.stroke_index)
                } else {
                    old(self)@.stroke_scores
                },
                user_strokes: old(self)@.user_strokes.remove(old(self)@.stroke_index),
                error_icon: Some(old(self)@.strokes[old(self)@.stroke_index][0]),
                stroke_animation: Some(ANIM_ERROR),
                delay: DELAY_ANIM,
                ..old(self)@
            }),
            e@ == reset_effects::<P, S>(old(self)@.delay, DELAY_ANIM, false),
    {
        if remove_score {
            self.stroke_scores.remove(self.stroke_index);
        }
        self.user_strokes.remove(self.stroke_index);
        self.error_icon = Some(self.strokes[self.stroke_index][0]);
        self.stroke_animation = Some(ANIM_ERROR);
        proof {
            assert(seq2(self.user_strokes@) =~= seq2(old(self).user_strokes@).remove(
                old(self).stroke_index as int,
            ));
        }
        self.reset_delay(DELAY_ANIM, false)
    }


    /// Loads the resampled templates of the current character and shows it.
    pub fn create_strokes<F: Fn(&Vec<(u16, u16)>, usize, usize) -> Vec<P>>(&mut self, resample: &F) -> (e: Vec<Effect<P, S>>)
        requires
            old(self).wf(),
            old(self).strokes_ready(),
            resample_total::<P, F>(resample),
        ensures
            final(self).wf(),
            final(self).homework_text()@ == final(self)@.homework,
            final(self).same_data(old(self)),
            final(self).homework_text() == old(self).homework_text(),
            final(self)@ == (Session {
                drawing_ch: Some(old(self)@.homework[old(self)@.character]),
                strokes: final(self)@.strokes,
                ..old(self)@
            }),
            resampled::<P, F>(
                resample,
                old(self).strokes_map()@[old(self)@.homework[old(self)@.character] as u32]@,
                final(self)@.strokes,
            ),
            e@ == seq![Effect::<P, S>::SetCharacter(old(self)@.homework[old(self)@.character])],
    {
        let ch = self.current_char();
        let templates = match self.strokes_map.get(ch) {
            Some(t) => t,
            None => {
                return Vec::new();
            },
        };
        let ghost tv = templates@;
        let n = templates.len();
        let mut out: Vec<Vec<P>> = Vec::new();
        let mut i: usize = 0;
        while i < n
            invariant
                i <= n,
                n == tv.len(),
                tv == templates@,
                resample_total::<P, F>(resample),
                out@.len() == i,
                forall|j: int|
                    0 <= j < i ==> #[trigger] resampled_stroke::<P, F>(
                        resample,
                        tv[j],
                        (j + 1) as usize,
                        out@[j]@,
                    ),
            decreases n - i,
        {
            let v = resample(&templates[i], i + 1, RESAMPLE_POINTS);
            let ghost gv = v;
            let ghost prev = out@;
            out.push(v);
            proof {
                assert(resampled_stroke::<P, F>(resample, tv[i as int], (i + 1) as usize, gv@));
                assert forall|j: int| 0 <= j < i + 1 implies #[trigger] resampled_stroke::<P, F>(
                    resample,
                    tv[j],
                    (j + 1) as usize,
                    out@[j]@,
                ) by {
                    if j < i {
                        assert(out@[j] == prev[j]);
                    }
                }
            }
            i = i + 1;
        }
        self.drawing_ch = Some(ch);
        self.strokes = out;
        proof {
            assert forall|j: int| 0 <= j < tv.len() implies #[trigger] resampled_stroke::<P, F>(
                resample,
                tv[j],
                (j + 1) as usize,
                seq2(self.strokes@)[j],
            ) by {
                assert(seq2(self.strokes@)[j] == out@[j]@);
            }
        }
        let mut e: Vec<Effect<P, S>> = Vec::new();
        e.push(Effect::SetCharacter(ch));
        e
    }


    /// The character at the current position.
    fn current_char(&self) -> (c: char)
        requires
            0 <= self@.character < self@.homework.len(),
        ensures
            c == self@.homework[self@.character],
    {
        self.homework[self.character]
    }


    /// Takes `chars` (the text `text`) as the text to practise, at position
    /// `i`, dropping everything written so far.
    fn start_homework<F: Fn(&Vec<(u16, u16)>, usize, usize) -> Vec<P>>(
        &mut self,
        chars: Vec<char>,
        text: String,
        i: usize,
        resample: &F,
    ) -> (e: Vec<Effect<P, S>>)
        requires
            old(self).wf(),
            resample_total::<P, F>(resample),
            text@ == chars@,
            first_supported(old(self).strokes_map(), chars@, i as int),
        ensures
            final(self).wf(),
            final(self).homework_text()@ == final(self)@.homework,
            final(self).same_data(old(self)),
            started(
                old(self)@,
                final(self)@,
                chars@,
                i as int,
                old(self).blank_score(),
            ),
            resampled::<P, F>(resample, old(self).strokes_map()@[chars@[i as int] as u32]@, final(self)@.strokes),
            e@ == seq![Effect::<P, S>::SetCharacter(chars@[i as int]), Effect::UpdateHomework(i)],
    {
        let ghost cv = chars@;
        let nb = chars.len();
        self.complete = false;
        self.character = i;
        self.stroke_index = 0;
        self.stroke_anim.clear();
        self.stroke_scores.clear();
        self.user_strokes.clear();
        self.all_user_strokes = empty_slots(nb);
        self.all_user_strokes_score = repeat_score(self.blank_score, nb);
        self.homework = chars;
        self.homework_str = text;
        self.stroke_animation = None;
        let ghost mid = self@;
        let mut e = self.create_strokes(resample);
        assert(e@ == seq![Effect::<P, S>::SetCharacter(mid.homework[mid.character])]);
        assert(mid.homework[mid.character] == cv[i as int]);
        let ghost e1 = e@;
        e.push(Effect::UpdateHomework(i));
        proof {
            lemma_push_one(e1, Effect::<P, S>::SetCharacter(cv[i as int]), Effect::UpdateHomework(i));
        }
        proof {
            assert(seq2(self.user_strokes@) =~= Seq::<Seq<P>>::empty());
        }
        e
    }

    /// The first position of `chars` whose character has templates.
    fn find_supported(&self, chars: &Vec<char>) -> (r: Option<usize>)
        ensures
            match r {
                Some(i) => first_supported(self.strokes_map(), chars@, i as int),
                None => none_supported(self.strokes_map(), chars@),
            },
    {
        let n = chars.len();
        let mut i: usize = 0;
        while i < n
            invariant
                n == chars@.len(),
                i <= n,
                forall|j: int| 0 <= j < i ==> !self.strokes_map().supports(#[trigger] chars@[j]),
            decreases n - i,
        {
            if self.strokes_map.contains(chars[i]) {
                return Some(i);
            }
            i = i + 1;
        }
        None
    }

    /// What `set_homework(content, resample)` does to a session `self`,
    /// giving `new` and effects `e`.
    pub open spec fn homework_set<F: Fn(&Vec<(u16, u16)>, usize, usize) -> Vec<P>>(
        &self,
        new: Self,
        content: Seq<char>,
        e: Seq<Effect<P, S>>,
        resample: &F,
    ) -> bool {
        &&& new.same_data(self)
        &&& new.homework_text()@ == new@.homework
        &&& {
            let c = crate::text::trim(content);
            let t = self.strokes_map();
            &&& e.len() > 0
            &&& saved_homework(e.last(), new@.homework)
            &&& none_supported(t, c) ==> {
                &&& new@ == self@
                &&& e.drop_last() == if c.len() == 0 {
                    seq![Effect::<P, S>::Notify(Notice::EmptyHomework)]
                } else {
                    Seq::<Effect<P, S>>::empty()
                }
            }
            &&& forall|i: int|
                #[trigger] first_supported(t, c, i) ==> {
                    &&& started(self@, new@, c, i, self.blank_score())
                    &&& resampled::<P, F>(resample, t@[c[i] as u32]@, new@.strokes)
                    &&& e.drop_last() == seq![
                        Effect::<P, S>::SetCharacter(c[i]),
                        Effect::UpdateHomework(i as usize),
                    ]
                }
        }
    }

    /// Takes `content` (without its surrounding white space) as the text to
    /// practise, starting at its first character that has templates, and
    /// saves it as the assignment. Without such a character the session
    /// stays, and an empty text is reported.
    pub fn set_homework<F: Fn(&Vec<(u16, u16)>, usize, usize) -> Vec<P>>(&mut self, content: &str, resample: &F) -> (e: Vec<Effect<P, S>>)
        requires
            old(self).wf(),
            resample_total::<P, F>(resample),
        ensures
            final(self).wf(),
            final(self).homework_text()@ == final(self)@.homework,
            final(self).same_data(old(self)),
            old(self).homework_set(*final(self), content@, e@, resample),
    {
        let text = crate::text::trimmed(content);
        let chars = crate::text::chars_of(text.as_str());
        let found = self.find_supported(&chars);
        let mut e: Vec<Effect<P, S>>;
        match found {
            None => {
                e = Vec::new();
                if chars.len() == 0 {
                    e.push(Effect::Notify(Notice::EmptyHomework));
                }
            },
            Some(i) => {
                e = self.start_homework(chars, text, i, resample);
            },
        }
        let ghost before = e@;
        let title = String::from_str("自定义");
        e.push(
            Effect::SaveHomework(
                Homework { group: 0, title, content: self.homework_str.clone(), progress: 0 },
            ),
        );
        proof {
            assert(e@.drop_last() =~= before);
            let c = crate::text::trim(content@);
            assert forall|i: int| #[trigger] first_supported(self.strokes_map(), c, i) implies found
                == Some(i as usize) by {
                match found {
                    Some(k) => {
                        if (k as int) < i {
                            assert(!self.strokes_map().supports(c[k as int]));
                        }
                    },
                    None => {
                        assert(!self.strokes_map().supports(c[i]));
                    },
                }
            }
            if found is Some {
                assert(!none_supported(self.strokes_map(), c));
            }
        }
        e
    }


    /// The first position at or after `j` whose character has templates, or
    /// the length of the text.
    fn next_from(&self, j: usize) -> (r: usize)
        requires
            j <= self@.homework.len(),
        ensures
            r == next_supported(self.strokes_map(), self@.homework, j as int),
    {
        let n = self.homework.len();
        let mut k = j;
        while k < n && !self.strokes_map.contains(self.homework[k])
            invariant
                n == self@.homework.len(),
                j <= k <= n,
                next_supported(self.strokes_map(), self@.homework, k as int) == next_supported(
                    self.strokes_map(),
                    self@.homework,
                    j as int,
                ),
            decreases n - k,
        {
            k = k + 1;
        }
        k
    }

    /// The last position at or before `j` whose character has templates;
    /// there must be one.
    fn prev_from(&self, j: usize) -> (r: usize)
        requires
            j < self@.homework.len(),
            prev_supported(self.strokes_map(), self@.homework, j as int) >= 0,
        ensures
            r == prev_supported(self.strokes_map(), self@.homework, j as int),
    {
        let mut k = j;
        proof {
            lemma_prev_supported_le(self.strokes_map(), self@.homework, j as int);
        }
        while !self.strokes_map.contains(self.homework[k])
            invariant
                k <= j < self@.homework.len(),
                prev_supported(self.strokes_map(), self@.homework, k as int) == prev_supported(
                    self.strokes_map(),
                    self@.homework,
                    j as int,
                ),
                prev_supported(self.strokes_map(), self@.homework, k as int) >= 0,
            decreases k,
        {
            proof {
                lemma_prev_supported_le(self.strokes_map(), self@.homework, k - 1);
            }
            k = k - 1;
        }
        k
    }

    /// The last position before `c` whose character has templates, if any.
    fn prev_before(&self, c: usize) -> (r: Option<usize>)
        requires
            0 < c <= self@.homework.len(),
        ensures
            match r {
                Some(k) => k as int == prev_supported(self.strokes_map(), self@.homework, c - 1),
                None => prev_supported(self.strokes_map(), self@.homework, c - 1) < 0,
            },
    {
        let mut k = c;
        while k > 0 && !self.strokes_map.contains(self.homework[k - 1])
            invariant
                k <= c <= self@.homework.len(),
                prev_supported(self.strokes_map(), self@.homework, k - 1) == prev_supported(
                    self.strokes_map(),
                    self@.homework,
                    c - 1,
                ),
            decreases k,
        {
            k = k - 1;
        }
        if k == 0 {
            None
        } else {
            Some(k - 1)
        }
    }

    /// Moves through the text by `step` (0: stay, 1: next character, 2:
    /// previous character): a step of 2, or a negative one, goes to the
    /// previous character that has templates, any other positive step to the
    /// next such character. Returns whether the end (or, going back, the
    /// start) of the text was reached instead.
    pub fn next_character<F: Fn(&Vec<(u16, u16)>, usize, usize) -> Vec<P>>(
        &mut self,
        step: i32,
        resample: &F,
    ) -> (r: (bool, Vec<Effect<P, S>>))
        requires
            old(self).wf(),
            resample_total::<P, F>(resample),
        ensures
            final(self).wf(),
            final(self).same_data(old(self)),
            final(self).homework_text()@ == final(self)@.homework,
            ({
                let s = old(self)@;
                let t = old(self).strokes_map();
                let hw = s.homework;
                let c = s.character;
                let back = step < 0 || step == 2;
                let j = if back {
                    prev_supported(t, hw, c - 1)
                } else {
                    next_supported(t, hw, c + 1)
                };
                if step == 0 {
                    final(self)@ == s && !r.0 && r.1@.len() == 0
                } else if !back && c >= hw.len() {
                    final(self)@ == (Session { complete: true, ..s }) && r.0 && r.1@.len() == 0
                } else if back && (c == 0 || j < 0) {
                    final(self)@ == (Session { complete: false, ..s }) && r.0 && r.1@.len() == 0
                } else if j >= hw.len() {
                    final(self)@ == (Session { character: j, complete: true, ..s }) && r.0
                        && r.1@.len() == 0
                } else {
                    &&& moved_to(s, final(self)@, j)
                    &&& resampled::<P, F>(resample, t@[hw[j] as u32]@, final(self)@.strokes)
                    &&& !r.0
                    &&& r.1@ == seq![
                        Effect::<P, S>::SetCharacter(hw[j]),
                        Effect::Render,
                        Effect::UpdateHomework(j as usize),
                    ]
                }
            }),
    {
        if step == 0 {
            return (false, Vec::new());
        }
        let back = step < 0 || step == 2;
        let len = self.homework.len();
        if !back && self.character >= len {
            self.complete = true;
            return (true, Vec::new());
        }
        if back && self.character == 0 {
            self.complete = false;
            return (true, Vec::new());
        }
        let target = if back {
            match self.prev_before(self.character) {
                Some(k) => k,
                None => {
                    self.complete = false;
                    return (true, Vec::new());
                },
            }
        } else {
            self.next_from(self.character + 1)
        };
        proof {
            lemma_next_supported_ge(self.strokes_map(), self@.homework, self@.character + 1);
            lemma_prev_supported_le(self.strokes_map(), self@.homework, self@.character - 1);
        }
        if target >= len {
            self.character = target;
            self.complete = true;
            return (true, Vec::new());
        }
    let ghost s0 = self@;
        self.character = target;
        self.stroke_index = 0;
        let ghost mid = self@;
        let mut e = self.create_strokes(resample);
        assert(e@ == seq![Effect::<P, S>::SetCharacter(mid.homework[mid.character])]);
        self.user_strokes.clear();
        self.stroke_scores.clear();
        self.error_icon = None;
        if self.stroke_animation.is_some() {
            self.stroke_animation = None;
        }
        let mut r = self.reset_delay(DELAY_IDLE, true);
        assert(r@ == seq![Effect::<P, S>::Render]);
        let ghost e1 = e@;
        e.append(&mut r);
        e.push(Effect::UpdateHomework(target));
        proof {
            lemma_push_two(
                e1,
                Effect::<P, S>::SetCharacter(mid.homework[mid.character]),
                Effect::Render,
                Effect::UpdateHomework(target),
            );
            assert(seq2(self.user_strokes@) =~= Seq::<Seq<P>>::empty());
        }
        (false, e)
    }


    /// Whether `load_homework(saved, _)` can load templates at the end: the
    /// loaded text has a character with templates, or the current one has.
    pub open spec fn can_load(&self, saved: Option<Homework>) -> bool {
        &&& (saved is None ==> self.catalog().article_index().len() > 0)
        &&& (!none_supported(
            self.strokes_map(),
            crate::text::trim(loaded_content(self.catalog(), saved)),
        ) || self.strokes_ready())
    }

    /// Starts the practice of the saved assignment, or of the first lesson
    /// text when none was saved, then loads the templates of the current
    /// character again and hides the loading indicator.
    pub fn load_homework<F: Fn(&Vec<(u16, u16)>, usize, usize) -> Vec<P>>(
        &mut self,
        saved: Option<Homework>,
        resample: &F,
    ) -> (e: Vec<Effect<P, S>>)
        requires
            old(self).wf(),
            resample_total::<P, F>(resample),
            old(self).can_load(saved),
        ensures
            final(self).wf(),
            final(self).homework_text()@ == final(self)@.homework,
            final(self).same_data(old(self)),
            ({
                let c = crate::text::trim(loaded_content(old(self).catalog(), saved));
                let t = old(self).strokes_map();
                    let n = e@.len();
                let f = final(self)@;
                &&& n >= 3
                &&& e@[n - 1] == Effect::<P, S>::HideLoading
                &&& e@[n - 2] == Effect::<P, S>::SetCharacter(f.homework[f.character])
                &&& saved_homework(e@[n - 3], f.homework)
                &&& 0 <= f.character < f.homework.len()
                &&& resampled::<P, F>(resample, t@[f.homework[f.character] as u32]@, f.strokes)
                &&& none_supported(t, c) ==> {
                    &&& f == (Session {
                        drawing_ch: Some(f.homework[f.character]),
                        strokes: f.strokes,
                        ..old(self)@
                    })
                    &&& e@.subrange(0, n - 3) == if c.len() == 0 {
                        seq![Effect::<P, S>::Notify(Notice::EmptyHomework)]
                    } else {
                        Seq::<Effect<P, S>>::empty()
                    }
                }
                &&& forall|i: int|
                    #[trigger] first_supported(t, c, i) ==> {
                        &&& started(old(self)@, f, c, i, old(self).blank_score())
                        &&& e@.subrange(0, n - 3) == seq![
                            Effect::<P, S>::SetCharacter(c[i]),
                            Effect::UpdateHomework(i as usize),
                        ]
                    }
            }),
    {
        let homework = match saved {
            Some(h) => h,
            None => self.catalog.default_homework(),
        };
        let mut e = self.set_homework(homework.content.as_str(), resample);
        let ghost e1 = e@;
        let ghost mid = self@;
        proof {
            let c = crate::text::trim(homework.content@);
            if !none_supported(self.strokes_map(), c) {
                let i = choose|i: int| 0 <= i < c.len() && self.strokes_map().supports(#[trigger] c[i]);
                lemma_first_supported_exists(self.strokes_map(), c, i);
            }
        }
        let mut r = self.create_strokes(resample);
        assert(r@ == seq![Effect::<P, S>::SetCharacter(mid.homework[mid.character])]);
        e.append(&mut r);
        e.push(Effect::HideLoading);
        proof {
            lemma_tail_two(
                e1,
                Effect::<P, S>::SetCharacter(mid.homework[mid.character]),
                Effect::HideLoading,
            );
        }
        e
    }


    /// Starts a new stroke at the point that `make` builds for it (with the
    /// stroke's number), unless a stroke animation runs or the text is done.
    pub fn on_pointer_down<M: Fn(usize) -> P>(&mut self, make: &M)
        requires
            old(self).wf(),
            make_total::<P, M>(make),
            old(self)@.stroke_index < usize::MAX,
        ensures
            final(self).wf(),
            final(self).homework_text()@ == final(self)@.homework,
            final(self).same_data(old(self)),
            old(self)@.stroke_animation is Some || old(self)@.complete
                ==> final(self)@ == old(self)@,
            old(self)@.stroke_animation is None && !old(self)@.complete ==> exists|p: P|
                #[trigger] make.ensures(((old(self)@.stroke_index + 1) as usize,), p)
                    && final(self)@ == (Session {
                    user_strokes: old(self)@.user_strokes.push(seq![p]),
                    writing: true,
                    ..old(self)@
                }),
    {
        if self.stroke_animation.is_some() {
            return;
        }
        if self.complete {
            return;
        }
        let p = make(self.stroke_index + 1);
        let mut stroke: Vec<P> = Vec::new();
        stroke.push(p);
        let ghost prev = self.user_strokes@;
        self.user_strokes.push(stroke);
        self.writing = true;
        proof {
            assert(seq2(self.user_strokes@) =~= seq2(prev).push(seq![p]));
            assert(make.ensures(((old(self)@.stroke_index + 1) as usize,), p));
        }
    }

    /// Whether `on_pointer_move(near_last, _)` can run: a near point needs a
    /// last point, and a stroke being written must exist.
    pub open spec fn move_ready(&self, near_last: bool) -> bool {
        &&& (near_last ==> self@.last_point is Some)
        &&& (self@.writing && !near_last ==> {
            &&& 0 <= self@.stroke_index < self@.user_strokes.len()
            &&& self@.stroke_index < usize::MAX
        })
    }

    /// Adds the point that `make` builds (with the stroke's number) to the
    /// stroke being written, unless the pointer is still within reach of the
    /// last point (`near_last`, judged by the page) or no stroke is being
    /// written.
    pub fn on_pointer_move<M: Fn(usize) -> P>(&mut self, near_last: bool, make: &M) -> (e: Vec<Effect<P, S>>)
        requires
            old(self).wf(),
            make_total::<P, M>(make),
            old(self).move_ready(near_last),
        ensures
            final(self).wf(),
            final(self).homework_text()@ == final(self)@.homework,
            final(self).same_data(old(self)),
            near_last || !old(self)@.writing ==> final(self)@ == old(self)@ && e@.len() == 0,
            !near_last && old(self)@.writing ==> exists|p: P|
                #[trigger] make.ensures(((old(self)@.stroke_index + 1) as usize,), p)
                    && final(self)@ == (Session {
                    last_point: Some(p),
                    user_strokes: old(self)@.user_strokes.update(
                        old(self)@.stroke_index,
                        old(self)@.user_strokes[old(self)@.stroke_index].push(p),
                    ),
                    delay: DELAY_ANIM,
                    ..old(self)@
                }) && e@ == reset_effects::<P, S>(old(self)@.delay, DELAY_ANIM, false),
            final(self)@.delay != old(self)@.delay ==> e@.len() > 0 && e@.last()
                == Effect::<P, S>::Render,
    {
        if near_last {
            return Vec::new();
        }
        if !self.writing {
            return Vec::new();
        }
        let p = make(self.stroke_index + 1);
        self.last_point = Some(p);
        let ghost prev = self.user_strokes@;
        let si = self.stroke_index;
        self.user_strokes[si].push(p);
        proof {
            assert(seq2(self.user_strokes@) =~= seq2(prev).update(si as int, prev[si as int]@.push(p)));
            assert(make.ensures(((old(self)@.stroke_index + 1) as usize,), p));
        }
        self.reset_delay(DELAY_ANIM, false)
    }

    /// Ends the gesture part of a pointer release: with no stroke animation
    /// running the frame interval drops to idle.
    fn finish_pointer_up(&mut self) -> (e: Vec<Effect<P, S>>)
        requires
            old(self).wf(),
        ensures
            final(self).wf(),
            final(self).homework_text()@ == final(self)@.homework,
            final(self).same_data(old(self)),
            final(self).homework_text() == old(self).homework_text(),
            final(self)@ == (Session {
                delay: if old(self)@.stroke_animation is None {
                    DELAY_IDLE
                } else {
                    old(self)@.delay
                },
                ..old(self)@
            }),
            e@ == finish_effects::<P, S>(old(self)@),
    {
        if self.stroke_animation.is_none() {
            self.reset_delay(DELAY_IDLE, false)
        } else {
            Vec::new()
        }
    }

    /// Whether `on_pointer_up` can run: a stroke being written has its
    /// template, and a too short one can be pointed at.
    pub open spec fn pointer_up_ready(&self) -> bool {
        self@.writing ==> {
            let si = self@.stroke_index;
            &&& 0 <= si < self@.user_strokes.len()
            &&& si < self@.strokes.len()
            &&& (self@.user_strokes[si].len() <= 2 ==> self@.strokes[si].len() > 0)
        }
    }

    /// The pointer is released. A stroke of more than two points is handed
    /// out with its template for comparison (`on_stroke_scored` takes the
    /// result); a shorter one is dropped as wrong.
    pub fn on_pointer_up(&mut self) -> (r: Scoring<P, S>)
        requires
            old(self).wf(),
            old(self).pointer_up_ready(),
        ensures
            final(self).wf(),
            final(self).homework_text()@ == final(self)@.homework,
            final(self).same_data(old(self)),
            ({
                let s = old(self)@;
                let si = s.stroke_index;
                if !s.writing {
                    &&& r.compare is None
                    &&& final(self)@ == (Session {
                        delay: if s.stroke_animation is None {
                            DELAY_IDLE
                        } else {
                            s.delay
                        },
                        ..s
                    })
                    &&& r.effects@ == finish_effects::<P, S>(s)
                } else if s.user_strokes[si].len() > 2 {
                    &&& r.compare matches Some((t, d)) && t@ == s.strokes[si] && d@
                        == s.user_strokes[si]
                    &&& final(self)@ == (Session { writing: false, ..s })
                    &&& r.effects@.len() == 0
                } else {
                    &&& r.compare is None
                    &&& stroke_rejected(Session { writing: false, ..s }, final(self)@, false)
                    &&& r.effects@ == reset_effects::<P, S>(s.delay, DELAY_ANIM, false)
                }
            }),
    {
        if self.writing {
            self.writing = false;
            let si = self.stroke_index;
            if self.user_strokes[si].len() > 2 {
                let template = copy_points(&self.strokes[si]);
                let drawn = copy_points(&self.user_strokes[si]);
                return Scoring { compare: Some((template, drawn)), effects: Vec::new() };
            }
            let e = self.clear_error_stroke(false);
            let ghost e0 = e@;
            let mut e = e;
            let mut f = self.finish_pointer_up();
            e.append(&mut f);
            assert(e@ =~= e0);
            return Scoring { compare: None, effects: e };
        }
        let e = self.finish_pointer_up();
        Scoring { compare: None, effects: e }
    }


    /// Takes the distance of the stroke just written from its template, with
    /// whether the page judged it close enough, and keeps it. The judgement
    /// that counts is the one kept at the current stroke's position. A good
    /// stroke moves on to the next one; when all strokes are written the
    /// whole character is handed out for comparison (`on_character_scored`
    /// takes the result). A bad stroke is dropped.
    pub fn on_stroke_scored(&mut self, score: S, accepted: bool) -> (r: Scoring<P, S>)
        requires
            old(self).wf(),
            ({
                let s = old(self)@;
                let si = s.stroke_index;
                let scores = s.stroke_scores.push((score, accepted));
                &&& 0 <= si <= s.stroke_scores.len()
                &&& (!scores[si].1 ==> si < s.user_strokes.len() && si < s.strokes.len()
                    && s.strokes[si].len() > 0)
            }),
        ensures
            final(self).wf(),
            final(self).homework_text()@ == final(self)@.homework,
            final(self).same_data(old(self)),
            ({
                let s = old(self)@;
                let si = s.stroke_index;
                let scores = s.stroke_scores.push((score, accepted));
                if scores[si].1 {
                    if s.user_strokes.len() == s.strokes.len() {
                        &&& r.compare matches Some((t, d)) && t@ == flat(s.strokes) && d@ == flat(
                            s.user_strokes,
                        )
                        &&& final(self)@ == (Session {
                            stroke_scores: Seq::empty(),
                            stroke_index: si + 1,
                            error_icon: None,
                            delay: DELAY_IDLE,
                            ..s
                        })
                        &&& r.effects@ == reset_effects::<P, S>(s.delay, DELAY_IDLE, false)
                    } else {
                        &&& r.compare is None
                        &&& final(self)@ == (Session {
                            stroke_scores: scores,
                            stroke_index: si + 1,
                            error_icon: None,
                            delay: DELAY_IDLE,
                            ..s
                        })
                        &&& r.effects@ == reset_effects::<P, S>(s.delay, DELAY_IDLE, false)
                    }
                } else {
                    &&& r.compare is None
                    &&& stroke_rejected(Session { stroke_scores: scores, ..s }, final(self)@, true)
                    &&& r.effects@ == reset_effects::<P, S>(s.delay, DELAY_ANIM, false)
                }
            }),
    {
        self.stroke_scores.push((score, accepted));
        let si = self.stroke_index;
        let n = self.stroke_scores.len();
        assert(si < n);
        if self.stroke_scores[si].1 {
            self.stroke_index = si + 1;
            if self.error_icon.is_some() {
                self.error_icon = None;
            }
            if self.user_strokes.len() == self.strokes.len() {
                let template = flatten(&self.strokes);
                let drawn = flatten(&self.user_strokes);
                self.stroke_scores.clear();
                let e = self.reset_delay(DELAY_IDLE, false);
                return Scoring { compare: Some((template, drawn)), effects: e };
            }
            let e = self.reset_delay(DELAY_IDLE, false);
            let ghost e0 = e@;
            let mut e = e;
            let mut f = self.finish_pointer_up();
            assert(f@.len() == 0);
            e.append(&mut f);
            assert(e@ =~= e0);
            Scoring { compare: None, effects: e }
        } else {
            let e = self.clear_error_stroke(true);
            let ghost e0 = e@;
            let mut e = e;
            let mut f = self.finish_pointer_up();
            e.append(&mut f);
            assert(e@ =~= e0);
            Scoring { compare: None, effects: e }
        }
    }


    /// Takes the page's judgement of the whole character just written. A
    /// rejected character is to be written again once the user closes the
    /// message. An accepted one is kept with its score and the practice moves
    /// on to the next character; past the last one the practice is saved and
    /// starts over on the same text.
    pub fn on_character_scored<F: Fn(&Vec<(u16, u16)>, usize, usize) -> Vec<P>>(
        &mut self,
        verdict: Verdict<S>,
        resample: &F,
    ) -> (e: Vec<Effect<P, S>>)
        requires
            old(self).wf(),
            resample_total::<P, F>(resample),
            verdict is Accept ==> 0 <= old(self)@.character < old(self)@.all_user_strokes.len(),
        ensures
            final(self).wf(),
            final(self).homework_text()@ == final(self)@.homework,
            final(self).same_data(old(self)),
            ({
                let s = old(self)@;
                let t = old(self).strokes_map();
                let c = s.character;
                let hw = s.homework;
                let j = next_supported(t, hw, c + 1);
                match verdict {
                    Verdict::Rewrite => {
                        &&& final(self)@ == (Session {
                            delay: if s.stroke_animation is None {
                                DELAY_IDLE
                            } else {
                                s.delay
                            },
                            ..s
                        })
                        &&& e@ == seq![Effect::<P, S>::Notify(Notice::UglyCharacter)]
                            + finish_effects::<P, S>(s)
                    },
                    Verdict::Accept { score, stars } => {
                        let kept = Session {
                            all_user_strokes: s.all_user_strokes.update(c, s.user_strokes),
                            all_user_strokes_score: s.all_user_strokes_score.update(c, score),
                            ..s
                        };
                        if j < hw.len() {
                            &&& moved_to(kept, final(self)@, j)
                            &&& resampled::<P, F>(resample, t@[hw[j] as u32]@, final(self)@.strokes)
                            &&& e@ == seq![
                                Effect::<P, S>::SetCharacter(hw[j]),
                                Effect::Render,
                                Effect::UpdateHomework(j as usize),
                                Effect::ScoreToast { score, stars },
                            ]
                        } else {
                            let w = crate::text::trim(hw);
                            let n = e@.len();
                            &&& n >= 7
                            &&& e@[0] == Effect::<P, S>::ShowLoading
                            &&& e@[1] == Effect::<P, S>::UpdateHomework(hw.len() as usize)
                            &&& (e@[2] matches Effect::SaveHistory { text, strokes, scores }
                                && text@ == hw && seq3(strokes@) == kept.all_user_strokes
                                && scores@ == kept.all_user_strokes_score)
                            &&& e@[n - 3] == Effect::<P, S>::HideLoading
                            &&& e@[n - 2] == Effect::<P, S>::Render
                            &&& e@[n - 1] == Effect::<P, S>::Notify(Notice::Completed)
                            &&& saved_homework(e@[n - 4], final(self)@.homework)
                            &&& none_supported(t, w) ==> e@.subrange(3, n - 4) == if w.len() == 0 {
                                seq![Effect::<P, S>::Notify(Notice::EmptyHomework)]
                            } else {
                                Seq::<Effect<P, S>>::empty()
                            }
                            &&& forall|i: int|
                                #[trigger] first_supported(t, w, i) ==> e@.subrange(3, n - 4)
                                    == seq![
                                    Effect::<P, S>::SetCharacter(w[i]),
                                    Effect::UpdateHomework(i as usize),
                                ]
                            &&& none_supported(t, w) ==> final(self)@ == (Session {
                                character: hw.len() as int,
                                complete: true,
                                delay: DELAY_IDLE,
                                ..kept
                            })
                            &&& forall|i: int|
                                #[trigger] first_supported(t, w, i) ==> started(
                                    Session { delay: DELAY_IDLE, ..kept },
                                    final(self)@,
                                    w,
                                    i,
                                    old(self).blank_score(),
                                )
                        }
                    },
                }
            }),
    {
        match verdict {
            Verdict::Rewrite => {
                let mut e: Vec<Effect<P, S>> = Vec::new();
                e.push(Effect::Notify(Notice::UglyCharacter));
                let mut f = self.finish_pointer_up();
                e.append(&mut f);
                e
            },
            Verdict::Accept { score, stars } => {
                let c = self.character;
                let kept = copy_strokes(&self.user_strokes);
                let ghost prev_all = self.all_user_strokes@;
                self.all_user_strokes.set(c, kept);
                self.all_user_strokes_score.set(c, score);
                proof {
                    assert(seq3(self.all_user_strokes@) =~= seq3(prev_all).update(
                        c as int,
                        seq2(self.user_strokes@),
                    ));
                }
                let ghost kept_state = self@;
                let (last, e1) = self.next_character(1, resample);
                proof {
                    lemma_next_supported_ge(self.strokes_map(), kept_state.homework, c + 1);
                }
                if last {
                    let ghost at_end = self@;
                    let mut e: Vec<Effect<P, S>> = Vec::new();
                    e.push(Effect::ShowLoading);
                    e.push(Effect::UpdateHomework(self.character));
                    let text = self.homework_str.clone();
                    let strokes = copy_slots(&self.all_user_strokes);
                    let scores = copy_scores(&self.all_user_strokes_score);
                    e.push(Effect::SaveHistory { text, strokes, scores });
                    let again = self.homework_str.clone();
                    let ghost e1 = e@;
                    let mut h = self.set_homework(again.as_str(), resample);
                    let ghost h0 = h@;
                    e.append(&mut h);
                    e.push(Effect::HideLoading);
                    let ghost e2 = e@;
                    let mut r = self.reset_delay(DELAY_IDLE, true);
                    assert(r@ == seq![Effect::<P, S>::Render]);
                    e.append(&mut r);
                    e.push(Effect::Notify(Notice::Completed));
                    let ghost e3 = e@;
                    let mut f = self.finish_pointer_up();
                    assert(f@ == Seq::<Effect<P, S>>::empty());
                    e.append(&mut f);
                    proof {
                        assert(e2 == (e1 + h0).push(Effect::<P, S>::HideLoading));
                        assert(e3 == (e2 + seq![Effect::<P, S>::Render]).push(
                            Effect::Notify(Notice::Completed),
                        ));
                        assert(e@ == e3 + Seq::<Effect<P, S>>::empty());
                        lemma_completion_effects(
                            e1,
                            h0,
                            Effect::<P, S>::HideLoading,
                            Effect::Render,
                            Effect::Notify(Notice::Completed),
                            e@,
                        );
                    }
                    e
                } else {
                    let ghost j = next_supported(self.strokes_map(), kept_state.homework, c + 1);
                    let ghost g1 = e1@;
                    assert(g1 == seq![
                        Effect::<P, S>::SetCharacter(kept_state.homework[j]),
                        Effect::Render,
                        Effect::UpdateHomework(j as usize),
                    ]);
                    let mut e = e1;
                    e.push(Effect::ScoreToast { score, stars });
                    let mut f = self.finish_pointer_up();
                    assert(f@ == Seq::<Effect<P, S>>::empty());
                    e.append(&mut f);
                    proof {
                        lemma_push_after_three(
                            g1,
                            Effect::<P, S>::SetCharacter(kept_state.homework[j]),
                            Effect::Render,
                            Effect::UpdateHomework(j as usize),
                            Effect::ScoreToast { score, stars },
                        );
                    }
                    e
                }
            },
        }
    }


    /// The eraser: with a stroke animation running or nothing written it only
    /// shows its name; otherwise the character is written again.
    pub fn eraser(&mut self) -> (e: Vec<Effect<P, S>>)
        requires
            old(self).wf(),
        ensures
            final(self).wf(),
            final(self).homework_text()@ == final(self)@.homework,
            final(self).same_data(old(self)),
            old(self)@.stroke_animation is Some || old(self)@.user_strokes.len() == 0
                ==> final(self)@ == old(self)@ && e@ == seq![Effect::<P, S>::EraserHint],
            !(old(self)@.stroke_animation is Some || old(self)@.user_strokes.len() == 0)
                ==> final(self)@ == (Session {
                stroke_index: 0,
                stroke_anim: Seq::empty(),
                stroke_scores: Seq::empty(),
                user_strokes: Seq::empty(),
                delay: DELAY_IDLE,
                ..old(self)@
            }) && e@ == seq![Effect::<P, S>::Render],
    {
        if self.stroke_animation.is_some() || self.user_strokes.len() == 0 {
            let mut e: Vec<Effect<P, S>> = Vec::new();
            e.push(Effect::EraserHint);
            e
        } else {
            self.rewrite()
        }
    }

    /// Steps back to the previous character that has templates; when there
    /// is none before, the user is told this is the first character.
    pub fn previous<F: Fn(&Vec<(u16, u16)>, usize, usize) -> Vec<P>>(&mut self, resample: &F) -> (e: Vec<
        Effect<P, S>,
    >)
        requires
            old(self).wf(),
            resample_total::<P, F>(resample),
        ensures
            final(self).wf(),
            final(self).same_data(old(self)),
            final(self).homework_text()@ == final(self)@.homework,
            ({
                let s = old(self)@;
                let t = old(self).strokes_map();
                let j = prev_supported(t, s.homework, s.character - 1);
                if s.character == 0 || j < 0 {
                    &&& final(self)@ == (Session { complete: false, ..s })
                    &&& e@ == seq![Effect::<P, S>::Notify(Notice::FirstCharacter)]
                } else {
                    &&& moved_to(s, final(self)@, j)
                    &&& resampled::<P, F>(resample, t@[s.homework[j] as u32]@, final(self)@.strokes)
                    &&& e@ == seq![
                        Effect::<P, S>::SetCharacter(s.homework[j]),
                        Effect::Render,
                        Effect::UpdateHomework(j as usize),
                    ]
                }
            }),
    {
        proof {
            if old(self)@.character > 0 {
                lemma_prev_supported_le(
                    old(self).strokes_map(),
                    old(self)@.homework,
                    old(self)@.character - 1,
                );
            }
        }
        let (is_first, e) = self.next_character(-1, resample);
        let ghost g = e@;
        let mut e = e;
        if is_first {
            e.push(Effect::Notify(Notice::FirstCharacter));
            assert(e@ =~= seq![Effect::<P, S>::Notify(Notice::FirstCharacter)]);
        }
        e
    }

    /// Takes the text at position `name_id` of the index of group
    /// `group_id` (0: lesson texts, otherwise poems) as the text to practise.
    pub fn select_homework<F: Fn(&Vec<(u16, u16)>, usize, usize) -> Vec<P>>(
        &mut self,
        group_id: i32,
        name_id: i32,
        resample: &F,
    ) -> (e: Vec<Effect<P, S>>)
        requires
            old(self).wf(),
            resample_total::<P, F>(resample),
            0 <= name_id < old(self).catalog().group_index(group_id).len(),
        ensures
            final(self).wf(),
            final(self).homework_text()@ == final(self)@.homework,
            old(self).homework_set(
                *final(self),
                old(self).catalog().group_texts(group_id)[old(self).catalog().group_index(
                    group_id,
                )[name_id as int].1@]@,
                e@,
                resample,
            ),
    {
        let text = self.catalog.choose_homework(group_id, name_id);
        self.set_homework(text.as_str(), resample)
    }

    /// Installs the stroke templates.
    pub fn install_strokes(&mut self, table: StrokeTable)
        requires
            old(self).wf(),
        ensures
            final(self).wf(),
            final(self).homework_text()@ == final(self)@.homework,
            final(self)@ == old(self)@,
            final(self).strokes_map() == table,
            final(self).catalog() == old(self).catalog(),
            final(self).dict() == old(self).dict(),
            final(self).blank_score() == old(self).blank_score(),
    {
        self.strokes_map = table;
    }

    /// Installs the dictionary.
    pub fn install_dictionary(&mut self, dict: Table<Word>)
        requires
            old(self).wf(),
            dict.wf(),
        ensures
            final(self).wf(),
            final(self).homework_text()@ == final(self)@.homework,
            final(self)@ == old(self)@,
            final(self).dict() == Some(dict),
            final(self).catalog() == old(self).catalog(),
            final(self).strokes_map() == old(self).strokes_map(),
            final(self).blank_score() == old(self).blank_score(),
    {
        self.dict = Some(dict);
    }


    /// The character at the current position.
    pub fn char_at_current(&self) -> (c: char)
        requires
            0 <= self@.character < self@.homework.len(),
        ensures
            c == self@.homework[self@.character],
    {
        self.current_char()
    }

    /// Whether the dictionary is loaded.
    pub fn has_dictionary(&self) -> (r: bool)
        ensures
            r == self.dict() is Some,
    {
        self.dict.is_some()
    }

    /// The loaded dictionary.
    pub fn dictionary(&self) -> (d: &Table<Word>)
        requires
            self.wf(),
            self.dict() is Some,
        ensures
            d.wf(),
            Some(*d) == self.dict(),
    {
        self.dict.as_ref().unwrap()
    }

    /// Whether `update` can run: the demonstrated stroke exists.
    pub open spec fn update_ready(&self) -> bool {
        self@.stroke_animation is Some ==> 0 <= self@.stroke_index < self@.strokes.len()
    }

    /// Advances the stroke animation by one frame: one more point of the
    /// stroke, or on to the next stroke, or the end of the animation.
    pub fn update(&mut self) -> (e: Vec<Effect<P, S>>)
        requires
            old(self).wf(),
            old(self).update_ready(),
        ensures
            final(self).wf(),
            final(self).homework_text()@ == final(self)@.homework,
            final(self).same_data(old(self)),
            ({
                let s = old(self)@;
                match s.stroke_animation {
                    None => final(self)@ == s && e@.len() == 0,
                    Some(t) => {
                        let stroke = s.strokes[s.stroke_index];
                        let n = s.stroke_anim.len();
                        if n < stroke.len() {
                            &&& final(self)@ == (Session {
                                stroke_anim: s.stroke_anim.push(stroke[n as int]),
                                ..s
                            })
                            &&& e@.len() == 0
                        } else if t == ANIM_WHOLE && s.stroke_index < s.strokes.len() - 1 {
                            &&& final(self)@ == (Session {
                                stroke_anim: Seq::empty(),
                                stroke_index: s.stroke_index + 1,
                                ..s
                            })
                            &&& e@.len() == 0
                        } else {
                            &&& final(self)@ == (Session {
                                stroke_anim: Seq::empty(),
                                stroke_index: if t == ANIM_WHOLE {
                                    0
                                } else {
                                    s.stroke_index
                                },
                                stroke_animation: None,
                                delay: if s.writing {
                                    s.delay
                                } else {
                                    DELAY_IDLE
                                },
                                ..s
                            })
                            &&& e@ == (if t == ANIM_WHOLE {
                                seq![Effect::<P, S>::StopBrushBlink]
                            } else {
                                Seq::<Effect<P, S>>::empty()
                            }) + (if s.writing {
                                Seq::<Effect<P, S>>::empty()
                            } else {
                                seq![Effect::<P, S>::Render]
                            })
                        }
                    },
                }
            }),
    {
        let mut e: Vec<Effect<P, S>> = Vec::new();
        if let Some(anim_type) = self.stroke_animation {
            let anim_len = self.stroke_anim.len();
            if anim_len < self.strokes[self.stroke_index].len() {
                let a = self.strokes[self.stroke_index][anim_len];
                self.stroke_anim.push(a);
            } else {
                self.stroke_anim.clear();
                if anim_type == ANIM_WHOLE && self.stroke_index < self.strokes.len() - 1 {
                    self.stroke_index += 1;
                } else {
                    if anim_type == ANIM_WHOLE {
                        e.push(Effect::StopBrushBlink);
                        self.stroke_index = 0;
                    }
                    self.stroke_animation = None;
                    if !self.writing {
                        let mut r = self.reset_delay(DELAY_IDLE, true);
                        e.append(&mut r);
                    }
                    proof {
                        let s = old(self)@;
                        assert(e@ =~= (if anim_type == ANIM_WHOLE {
                            seq![Effect::<P, S>::StopBrushBlink]
                        } else {
                            Seq::<Effect<P, S>>::empty()
                        }) + (if s.writing {
                            Seq::<Effect<P, S>>::empty()
                        } else {
                            seq![Effect::<P, S>::Render]
                        }));
                    }
                }
            }
        }
        e
    }
}

impl<P: Copy, S: Copy> Controller<P, S> {
    /// The texts that can be chosen.
    pub fn texts(&self) -> (r: &Catalog)
        ensures
            *r == self.catalog(),
    {
        &self.catalog
    }

    /// The text being practised.
    pub fn homework_string(&self) -> (r: &String)
        ensures
            *r == self.homework_text(),
    {
        &self.homework_str
    }

    /// The position of the character being written.
    pub fn position(&self) -> (r: usize)
        ensures
            r == self@.character,
    {
        self.character
    }

    /// The strokes the user wrote for the current character.
    pub fn user_points(&self) -> (r: &Vec<Vec<P>>)
        ensures
            seq2(r@) == self@.user_strokes,
    {
        &self.user_strokes
    }

    /// Where the "wrong stroke" marker is drawn, if anywhere.
    pub fn error_marker(&self) -> (r: Option<P>)
        ensures
            r == self@.error_icon,
    {
        self.error_icon
    }

    /// The running stroke animation.
    pub fn animation(&self) -> (r: Option<i32>)
        ensures
            r == self@.stroke_animation,
    {
        self.stroke_animation
    }

    /// The points of the stroke demonstration shown so far.
    pub fn animation_points(&self) -> (r: &Vec<P>)
        ensures
            r@ == self@.stroke_anim,
    {
        &self.stroke_anim
    }

    /// The frame interval.
    pub fn frame_delay(&self) -> (r: u32)
        ensures
            r == self@.delay,
    {
        self.delay
    }

    /// The last point a move added.
    pub fn last_move_point(&self) -> (r: Option<P>)
        ensures
            r == self@.last_point,
    {
        self.last_point
    }

    /// Whether the position is at a character of the text.
    pub fn at_character(&self) -> (r: bool)
        ensures
            r == (0 <= self@.character < self@.homework.len()),
    {
        self.character < self.homework.len()
    }

    /// Whether `load_homework(saved, ..)` can run: the page tests this
    /// first.
    pub fn can_load_homework(&self, saved: &Option<Homework>) -> (r: bool)
        requires
            self.wf(),
            self.catalog().wf(),
        ensures
            r == self.can_load(*saved),
    {
        let content = match saved {
            Some(h) => h.content.clone(),
            None => {
                let names = self.catalog.get_choose_names(0);
                if names.len() == 0 {
                    return false;
                }
                self.catalog.default_homework().content
            },
        };
        let text = crate::text::trimmed(content.as_str());
        let chars = crate::text::chars_of(text.as_str());
        if self.find_supported(&chars).is_some() {
            return true;
        }
        self.character < self.homework.len() && self.strokes_map.contains(
            self.homework[self.character],
        )
    }

    /// Whether `on_pointer_down` can run: the page tests this first.
    pub fn can_press(&self) -> (r: bool)
        ensures
            r == (self@.stroke_index < usize::MAX),
    {
        self.stroke_index < usize::MAX
    }

    /// Whether `on_pointer_move(near_last, ..)` can run: the page tests this
    /// first.
    pub fn can_move(&self, near_last: bool) -> (r: bool)
        requires
            self.wf(),
        ensures
            r == self.move_ready(near_last),
    {
        (!near_last || self.last_point.is_some()) && (!(self.writing && !near_last) || (
        self.stroke_index < self.user_strokes.len() && self.stroke_index < usize::MAX))
    }

    /// Whether `on_pointer_up` can run: the page tests this first.
    pub fn can_release(&self) -> (r: bool)
        requires
            self.wf(),
        ensures
            r == self.pointer_up_ready(),
    {
        if !self.writing {
            return true;
        }
        let si = self.stroke_index;
        si < self.user_strokes.len() && si < self.strokes.len() && (self.user_strokes[si].len() > 2
            || self.strokes[si].len() > 0)
    }

    /// Whether `on_stroke_scored(score, accepted)` can run: the page tests
    /// this first.
    pub fn can_score_stroke(&self, score: S, accepted: bool) -> (r: bool)
        requires
            self.wf(),
        ensures
            r == ({
                let s = self@;
                let si = s.stroke_index;
                let scores = s.stroke_scores.push((score, accepted));
                &&& 0 <= si <= s.stroke_scores.len()
                &&& (!scores[si].1 ==> si < s.user_strokes.len() && si < s.strokes.len()
                    && s.strokes[si].len() > 0)
            }),
    {
        let si = self.stroke_index;
        let n = self.stroke_scores.len();
        if si > n {
            return false;
        }
        let ok = if si == n {
            accepted
        } else {
            self.stroke_scores[si].1
        };
        ok || (si < self.user_strokes.len() && si < self.strokes.len() && self.strokes[si].len()
            > 0)
    }

    /// Whether the current position has a slot for the result of a written
    /// character.
    pub fn can_accept_character(&self) -> (r: bool)
        requires
            self.wf(),
        ensures
            r == (0 <= self@.character < self@.all_user_strokes.len()),
    {
        self.character < self.all_user_strokes.len()
    }

    /// Whether `update` can run: the page tests this first.
    pub fn can_update(&self) -> (r: bool)
        requires
            self.wf(),
        ensures
            r == self.update_ready(),
    {
        self.stroke_animation.is_none() || self.stroke_index < self.strokes.len()
    }
}

/// What the dictionary button leads to.
pub enum DictStep {
    /// The dictionary is not loaded yet: load it, then look up again.
    Load,
    /// Show the entry of the current character.
    Show { title: String, content: String },
    /// The dictionary has no entry for the current character.
    Missing,
}

/// The title of the dictionary entry of `ch`.
pub open spec fn entry_title(ch: char) -> Seq<char> {
    "“"@ + seq![ch] + "”的字意"@
}

/// The text of dictionary entry `w`.
pub open spec fn entry_content(w: Word) -> Seq<char> {
    w.pinyin@ + "\r\n笔画:"@ + w.strokes@ + " 部首:"@ + w.radicals@ + "\r\n"@ + w.explanation@
}

/// The dictionary entry of the current character, in a loaded dictionary.
pub fn search_dict<P: Copy, S: Copy>(ctrl: &Controller<P, S>) -> (r: DictStep)
    requires
        ctrl.wf(),
        ctrl.dict() is Some,
        0 <= ctrl@.character < ctrl@.homework.len(),
    ensures
        ({
            let d = ctrl.dict().unwrap()@;
            let ch = ctrl@.homework[ctrl@.character];
            if d.contains_key(seq![ch]) {
                r matches DictStep::Show { title, content } && title@ == entry_title(ch)
                    && content@ == entry_content(d[seq![ch]])
            } else {
                r is Missing
            }
        }),
{
    let ch = ctrl.char_at_current();
    let mut one: Vec<char> = Vec::new();
    one.push(ch);
    let key = crate::text::string_from_chars(one.as_slice());
    assert(key@ =~= seq![ch]);
    let dict = ctrl.dictionary();
    match dict.get(key.as_str()) {
        Some(w) => {
            let mut title = String::new();
            title.append("“");
            title.append(key.as_str());
            title.append("”的字意");
            let mut content = String::new();
            content.append(w.pinyin.as_str());
            content.append("\r\n笔画:");
            content.append(w.strokes.as_str());
            content.append(" 部首:");
            content.append(w.radicals.as_str());
            content.append("\r\n");
            content.append(w.explanation.as_str());
            proof {
                assert(title@ =~= entry_title(ch));
                assert(content@ =~= entry_content(*w));
            }
            DictStep::Show { title, content }
        },
        None => DictStep::Missing,
    }
}

/// The dictionary button: look up the current character once the
/// dictionary is loaded, or else load it first.
pub fn check_dict<P: Copy, S: Copy>(ctrl: &Controller<P, S>) -> (r: DictStep)
    requires
        ctrl.wf(),
        ctrl.dict() is Some ==> 0 <= ctrl@.character < ctrl@.homework.len(),
    ensures
        ctrl.dict() is None ==> r is Load,
        ctrl.dict() is Some ==> ({
            let d = ctrl.dict().unwrap()@;
            let ch = ctrl@.homework[ctrl@.character];
            if d.contains_key(seq![ch]) {
                r matches DictStep::Show { title, content } && title@ == entry_title(ch)
                    && content@ == entry_content(d[seq![ch]])
            } else {
                r is Missing
            }
        }),
{
    if ctrl.has_dictionary() {
        search_dict(ctrl)
    } else {
        DictStep::Load
    }
}

} // verus!
