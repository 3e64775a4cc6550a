//! What the teacher keeps between sessions: the chosen text, the last
//! typed-in text and the current assignment, each as a bincode record; and
//! the date stamp of a practice record.
use crate::catalog::Homework;
use crate::codec::{
    bincode_homework, bincode_i32s, bincode_of_homework, bincode_of_i32s, bincode_of_text,
    bincode_text, chrono_minutes_text, decode_homework_fields, decode_i32s, decode_text,
    encode_homework_fields, encode_i32s, encode_text, format_minutes, HomeworkText,
};
use vstd::prelude::*;

verus! {

/// The bytes of a storage read that succeeded.
pub open spec fn stored_bytes(stored: Option<Vec<u8>>) -> Option<Seq<u8>> {
    match stored {
        Some(b) => Some(b@),
        None => None,
    }
}

/// The saved choice `[group, name]`: what the stored record holds, or
/// `[0, 0]` where nothing is stored or the record does not decode.
pub open spec fn stored_choice(stored: Option<Seq<u8>>) -> Seq<i32> {
    match stored {
        Some(b) => match bincode_i32s(b) {
            Some(v) => v,
            None => seq![0i32, 0i32],
        },
        None => seq![0i32, 0i32],
    }
}

/// The saved choice, from the result of reading it from storage (`None`
/// where the read failed).  The record of a choice reads back as that
/// choice.
pub fn get_choose_index(stored: Option<Vec<u8>>) -> (r: Vec<i32>)
    ensures
        r@ == stored_choice(stored_bytes(stored)),
        forall|v: Seq<i32>|
            stored.is_some() && #[trigger] bincode_of_i32s(v) == stored.unwrap()@ ==> r@ == v,
{
    match stored {
        Some(bytes) => match decode_i32s(bytes.as_slice()) {
            Some(v) => v,
            None => vec![0, 0],
        },
        None => vec![0, 0],
    }
}

/// The record of a choice `[group, name]`.
pub fn encode_choice(group: i32, name: i32) -> (bytes: Vec<u8>)
    ensures
        bytes@ == bincode_of_i32s(seq![group, name]),
{
    let v = vec![group, name];
    proof {
        assert(v@ =~= seq![group, name]);
    }
    encode_i32s(&v)
}

/// The last typed-in text, from the result of reading it from storage:
/// the empty text where the read failed, `None` where the record does not
/// decode.  The record of a text reads back as that text.
pub fn stored_input(stored: Option<Vec<u8>>) -> (r: Option<String>)
    ensures
        match stored {
            None => r.is_some() && r.unwrap()@ == Seq::<char>::empty(),
            Some(b) => match r {
                Some(t) => bincode_text(b@) == Some(t@),
                None => bincode_text(b@) is None,
            },
        },
        forall|text: Seq<char>|
            stored.is_some() && #[trigger] bincode_of_text(text) == stored.unwrap()@ ==> r.is_some()
                && r.unwrap()@ == text,
{
    match stored {
        Some(bytes) => decode_text(bytes.as_slice()),
        None => Some(String::new()),
    }
}

/// The record of a typed-in text.
pub fn encode_input(text: &str) -> (bytes: Vec<u8>)
    ensures
        bytes@ == bincode_of_text(text@),
{
    encode_text(text)
}

/// The fields of an assignment as its record holds them.
pub open spec fn homework_fields(h: Homework) -> HomeworkText {
    (h.group, h.title@, h.content@, h.progress as u64)
}

/// The record of an assignment.
pub fn encode_homework(h: &Homework) -> (bytes: Vec<u8>)
    ensures
        bytes@ == bincode_of_homework(homework_fields(*h)),
{
    let fields = (h.group, h.title.clone(), h.content.clone(), h.progress as u64);
    encode_homework_fields(&fields)
}

/// The assignment a record holds: `None` where the record does not decode,
/// or its progress does not fit in a `usize`.  The record of an assignment
/// reads back as that assignment.
pub fn decode_homework(bytes: &[u8]) -> (r: Option<Homework>)
    ensures
        match r {
            Some(h) => bincode_homework(bytes@) == Some(homework_fields(h)),
            None => bincode_homework(bytes@) matches Some(f) ==> f.3 > usize::MAX,
        },
        forall|h: Homework| #[trigger]
            bincode_of_homework(homework_fields(h)) == bytes@ ==> r.is_some() && homework_fields(
                r.unwrap(),
            ) == homework_fields(h),
{
    match decode_homework_fields(bytes) {
        Some((group, title, content, progress)) => {
            if progress > usize::MAX as u64 {
                None
            } else {
                Some(Homework { group, title, content, progress: progress as usize })
            }
        },
        None => None,
    }
}

/// Seconds from milliseconds, rounded toward zero as integer division
/// does.
pub open spec fn whole_seconds(millis: int) -> int {
    if millis >= 0 {
        millis / 1000
    } else {
        -((-millis) / 1000)
    }
}

/// The date stamp of a practice record: the minute of `timestamp_ms`
/// (milliseconds since the Unix epoch) in the time zone that lies
/// `timezone_offset_hours` hours west of UTC, as `%Y-%m-%d %H:%M`.  `None`
/// where the instant is outside the calendar's range.
pub fn history_date(timestamp_ms: i64, timezone_offset_hours: i32) -> (r: Option<String>)
    requires
        -24 < timezone_offset_hours < 24,
    ensures
        match r {
            Some(t) => chrono_minutes_text(
                whole_seconds(timestamp_ms as int) as i64,
                (timezone_offset_hours * 3600) as i32,
            ) == Some(t@),
            None => chrono_minutes_text(
                whole_seconds(timestamp_ms as int) as i64,
                (timezone_offset_hours * 3600) as i32,
            ) is None,
        },
{
    let secs: i64 = if timestamp_ms >= 0 {
        timestamp_ms / 1000
    } else {
        let back: i64 = (-(timestamp_ms + 1)) / 1000;
        let rem: i64 = (-(timestamp_ms + 1)) % 1000;
        if rem == 999 {
            -(back + 1)
        } else {
            -back
        }
    };
    proof {
        if timestamp_ms < 0 {
            let m = -(timestamp_ms as int);
            let k = -(timestamp_ms as int + 1);
            assert(m == k + 1);
            assert(k == (k / 1000) * 1000 + k % 1000);
            if k % 1000 == 999 {
                assert(m / 1000 == k / 1000 + 1);
            } else {
                assert(m / 1000 == k / 1000);
            }
        }
    }
    format_minutes(secs, timezone_offset_hours * 3600)
}

} // verus!
