//! The byte formats the teacher reads and writes: base64 text, bzip2
//! streams and bincode records.  Every item here calls an outside crate;
//! what the library proves about its data rests on these contracts.
use crate::strokes::Strokes;
use crate::table::text_pairs;
use vstd::prelude::*;

verus! {

// ---------------------------------------------------------------- base64

/// The symbol for the 6-bit value `v` in the standard base64 alphabet.
pub open spec fn base64_symbol(v: int) -> char {
    if v < 26 {
        (65 + v) as char
    } else if v < 52 {
        (97 + v - 26) as char
    } else if v < 62 {
        (48 + v - 52) as char
    } else if v == 62 {
        '+'
    } else {
        '/'
    }
}

/// Standard base64 with `=` padding (RFC 4648): each group of three bytes
/// becomes four symbols, and a last group of one or two bytes is padded.
pub open spec fn base64_text(data: Seq<u8>) -> Seq<char>
    decreases data.len(),
{
    if data.len() == 0 {
        seq![]
    } else if data.len() == 1 {
        let b0 = data[0] as int;
        seq![base64_symbol(b0 / 4), base64_symbol((b0 % 4) * 16), '=', '=']
    } else if data.len() == 2 {
        let b0 = data[0] as int;
        let b1 = data[1] as int;
        seq![
            base64_symbol(b0 / 4),
            base64_symbol((b0 % 4) * 16 + b1 / 16),
            base64_symbol((b1 % 16) * 4),
            '=',
        ]
    } else {
        let b0 = data[0] as int;
        let b1 = data[1] as int;
        let b2 = data[2] as int;
        seq![
            base64_symbol(b0 / 4),
            base64_symbol((b0 % 4) * 16 + b1 / 16),
            base64_symbol((b1 % 16) * 4 + b2 / 64),
            base64_symbol(b2 % 64),
        ] + base64_text(data.subrange(3, data.len() as int))
    }
}

/// What `base64::decode` gives for a text: the bytes, or `None` where the
/// text is not valid padded standard base64.
pub uninterp spec fn base64_decoded(text: Seq<char>) -> Option<Seq<u8>>;

/// `base64::encode`: standard alphabet with padding.  The contract states
/// the encoding itself; the input length bound keeps the crate's size
/// computation from overflowing (it panics there).
#[verifier::external_body]
pub(crate) fn base64_encode(data: &[u8]) -> (text: String)
    requires
        data@.len() <= usize::MAX / 2,
    ensures
        text@ == base64_text(data@),
{
    base64::encode(data)
}

/// `base64::decode` with the standard configuration.  Its result is named
/// (`base64_decoded`); stated besides is only that the padded encoding of
/// some bytes decodes to those bytes.  The length bound keeps the crate's
/// size estimate from overflowing (it panics there).
#[verifier::external_body]
pub(crate) fn base64_decode(text: &str) -> (r: Option<Vec<u8>>)
    requires
        vstd::utf8::encode_utf8(text@).len() + 3 <= usize::MAX,
    ensures
        match r {
            Some(v) => base64_decoded(text@) == Some(v@),
            None => base64_decoded(text@) is None,
        },
        forall|data: Seq<u8>| #[trigger] base64_text(data) == text@ ==> r.is_some() && r.unwrap()@ == data,
{
    base64::decode(text).ok()
}

// ----------------------------------------------------------------- bzip2

/// The bzip2 stream that `bzip2::write::BzEncoder` writes for `data` at
/// compression `level`.
pub uninterp spec fn bzip2_compressed(data: Seq<u8>, level: u32) -> Seq<u8>;

/// What a bzip2 decoder gives for a stream: its content, or `None` where
/// the stream is damaged or cut short.
pub uninterp spec fn bzip2_decompressed(data: Seq<u8>) -> Option<Seq<u8>>;

/// `bzip2::write::BzEncoder::new(.., Compression::new(level))`, fed all of
/// `data` and finished.  The result is named (`bzip2_compressed`).  Levels
/// outside 1 to 9 make the crate's initialisation assert, so they are left
/// out; writing into a vector does not fail.
#[verifier::external_body]
pub(crate) fn bzip2_compress(data: &[u8], level: u32) -> (packed: Vec<u8>)
    requires
        1 <= level <= 9,
    ensures
        packed@ == bzip2_compressed(data@, level),
{
    let mut encoder = bzip2::write::BzEncoder::new(Vec::new(), bzip2::Compression::new(level));
    std::io::Write::write_all(&mut encoder, data).unwrap();
    encoder.finish().unwrap()
}

/// `bzip2::read::BzDecoder` read to the end.  The reading decoder is used
/// because it reports a stream that is cut short as an error, where the
/// writing one keeps waiting for more input.  The result is named
/// (`bzip2_decompressed`); stated besides is only that a stream that the
/// encoder wrote decodes to what was written.
#[verifier::external_body]
pub(crate) fn bzip2_decompress(data: &[u8]) -> (r: Option<Vec<u8>>)
    ensures
        match r {
            Some(v) => bzip2_decompressed(data@) == Some(v@),
            None => bzip2_decompressed(data@) is None,
        },
        forall|content: Seq<u8>, level: u32|
            1 <= level <= 9 && #[trigger] bzip2_compressed(content, level) == data@ ==> r.is_some() && r.unwrap()@ == content,
{
    let mut out = Vec::new();
    match std::io::Read::read_to_end(&mut bzip2::read::BzDecoder::new(data), &mut out) {
        Ok(_) => Some(out),
        Err(_) => None,
    }
}

/// Data packed for shipping as text: compressed at the best bzip2 level,
/// then base64.
pub open spec fn packed_text(data: Seq<u8>) -> Seq<char> {
    base64_text(bzip2_compressed(data, 9))
}

// --------------------------------------------------------------- bincode

/// The bytes of each element of `s`, one after another.
pub open spec fn concat_map<A>(s: Seq<A>, f: spec_fn(A) -> Seq<u8>) -> Seq<u8>
    decreases s.len(),
{
    if s.len() == 0 {
        seq![]
    } else {
        concat_map(s.drop_last(), f) + f(s.last())
    }
}

/// A character as bincode writes it: its UTF-8 bytes.
pub open spec fn bincode_char(c: char) -> Seq<u8> {
    vstd::utf8::encode_utf8(seq![c])
}

/// The bincode bytes of a list of text pairs (a map of texts is written the
/// same way): the length, then each key and value.
pub open spec fn bincode_of_text_pairs(pairs: Seq<(Seq<char>, Seq<char>)>) -> Seq<u8> {
    bincode_u64(pairs.len()) + concat_map(
        pairs,
        |p: (Seq<char>, Seq<char>)| bincode_of_text(p.0) + bincode_of_text(p.1),
    )
}

/// What bincode reads from bytes as a list of text pairs.
pub uninterp spec fn bincode_text_pairs(bytes: Seq<u8>) -> Option<Seq<(Seq<char>, Seq<char>)>>;

/// `bincode::serialize` of a list of text pairs.  Serialising a vector of
/// strings does not fail; the contract states the default layout
/// (`bincode_of_text_pairs`).
#[verifier::external_body]
pub(crate) fn encode_text_pairs(pairs: &Vec<(String, String)>) -> (bytes: Vec<u8>)
    ensures
        bytes@ == bincode_of_text_pairs(text_pairs(pairs@)),
{
    bincode::serialize(pairs).unwrap_or_default()
}

/// `bincode::deserialize` into a list of text pairs.  The result is named
/// (`bincode_text_pairs`); stated besides is only that the bytes that
/// `bincode::serialize` wrote for a list read back as that list.
#[verifier::external_body]
pub(crate) fn decode_text_pairs(bytes: &[u8]) -> (r: Option<Vec<(String, String)>>)
    ensures
        match r {
            Some(v) => bincode_text_pairs(bytes@) == Some(text_pairs(v@)),
            None => bincode_text_pairs(bytes@) is None,
        },
        forall|pairs: Seq<(Seq<char>, Seq<char>)>| #[trigger] bincode_of_text_pairs(pairs) == bytes@ ==> r.is_some() && text_pairs(r.unwrap()@) == pairs,
{
    bincode::deserialize(bytes).ok()
}

/// The points of each stroke of a character.
pub type StrokePoints = Seq<Seq<(u16, u16)>>;

/// The contents of a list of characters with their strokes.
pub open spec fn stroke_entry_points(v: Seq<(char, Strokes)>) -> Seq<(char, StrokePoints)> {
    Seq::new(v.len(), |i: int| (v[i].0, v[i].1.deep_view()))
}

/// What bincode reads from bytes as a list of characters with their stroke
/// templates (a map from character to strokes is written the same way).
pub uninterp spec fn bincode_stroke_entries(bytes: Seq<u8>) -> Option<Seq<(char, StrokePoints)>>;

/// `bincode::deserialize` into a list of characters with their strokes.
/// The result is named (`bincode_stroke_entries`).
#[verifier::external_body]
pub(crate) fn decode_stroke_entries(bytes: &[u8]) -> (r: Option<Vec<(char, Strokes)>>)
    ensures
        match r {
            Some(v) => bincode_stroke_entries(bytes@) == Some(stroke_entry_points(v@)),
            None => bincode_stroke_entries(bytes@) is None,
        },
{
    bincode::deserialize(bytes).ok()
}

/// The four texts of a dictionary entry: strokes, pinyin, radicals and
/// explanation.
pub type WordText = (Seq<char>, Seq<char>, Seq<char>, Seq<char>);

/// The texts of a list of (word, entry) records.
pub open spec fn word_records_text(v: Seq<(String, (String, String, String, String))>) -> Seq<
    (Seq<char>, WordText),
> {
    Seq::new(v.len(), |i: int| (v[i].0@, (v[i].1.0@, v[i].1.1@, v[i].1.2@, v[i].1.3@)))
}

/// The bincode bytes of the four texts of an entry, one after another (a
/// struct is written as its fields in order).
pub open spec fn bincode_word_text(w: WordText) -> Seq<u8> {
    bincode_of_text(w.0) + bincode_of_text(w.1) + bincode_of_text(w.2) + bincode_of_text(w.3)
}

/// The bincode bytes of a list of (word, entry) records (a map from word to
/// entry is written the same way): the length, then each word and entry.
pub open spec fn bincode_of_word_records(records: Seq<(Seq<char>, WordText)>) -> Seq<u8> {
    bincode_u64(records.len()) + concat_map(
        records,
        |r: (Seq<char>, WordText)| bincode_of_text(r.0) + bincode_word_text(r.1),
    )
}

/// What bincode reads from bytes as a list of (word, entry) records.
pub uninterp spec fn bincode_word_records(bytes: Seq<u8>) -> Option<Seq<(Seq<char>, WordText)>>;

/// `bincode::serialize` of a list of (word, entry) records.  Serialising
/// strings does not fail; the contract states the default layout
/// (`bincode_of_word_records`).
#[verifier::external_body]
pub(crate) fn encode_word_records(records: &Vec<(String, (String, String, String, String))>) -> (bytes: Vec<u8>)
    ensures
        bytes@ == bincode_of_word_records(word_records_text(records@)),
{
    bincode::serialize(records).unwrap_or_default()
}

/// `bincode::deserialize` into a list of (word, entry) records.  The result
/// is named (`bincode_word_records`); stated besides is only that the bytes
/// that `bincode::serialize` wrote for a list read back as that list.
#[verifier::external_body]
pub(crate) fn decode_word_records(bytes: &[u8]) -> (r: Option<Vec<(String, (String, String, String, String))>>)
    ensures
        match r {
            Some(v) => bincode_word_records(bytes@) == Some(word_records_text(v@)),
            None => bincode_word_records(bytes@) is None,
        },
        forall|records: Seq<(Seq<char>, WordText)>| #[trigger] bincode_of_word_records(records) == bytes@ ==> r.is_some() && word_records_text(r.unwrap()@) == records,
{
    bincode::deserialize(bytes).ok()
}

/// The texts of a list of (character, entry) records.
pub open spec fn char_words_text(v: Seq<(char, (String, String, String, String))>) -> Seq<
    (char, WordText),
> {
    Seq::new(v.len(), |i: int| (v[i].0, (v[i].1.0@, v[i].1.1@, v[i].1.2@, v[i].1.3@)))
}

/// The bincode bytes of a list of (character, entry) records (a map from
/// character to entry is written the same way): the length, then each
/// character and entry.
pub open spec fn bincode_of_char_words(records: Seq<(char, WordText)>) -> Seq<u8> {
    bincode_u64(records.len()) + concat_map(
        records,
        |r: (char, WordText)| bincode_char(r.0) + bincode_word_text(r.1),
    )
}

/// `bincode::serialize` of a list of (character, entry) records.  It does
/// not fail; the contract states the default layout
/// (`bincode_of_char_words`).
#[verifier::external_body]
pub(crate) fn encode_char_words(records: &Vec<(char, (String, String, String, String))>) -> (bytes: Vec<u8>)
    ensures
        bytes@ == bincode_of_char_words(char_words_text(records@)),
{
    bincode::serialize(records).unwrap_or_default()
}

/// The contents of a list of (key, bytes) pairs.
pub open spec fn packed_groups_text(v: Seq<(String, Vec<u8>)>) -> Seq<(Seq<char>, Seq<u8>)> {
    Seq::new(v.len(), |i: int| (v[i].0@, v[i].1@))
}

/// The bincode bytes of a list of (key, bytes) pairs (a map from text to
/// bytes is written the same way): the length, then each key, and each
/// byte list as its length and its bytes.
pub open spec fn bincode_of_packed_groups(groups: Seq<(Seq<char>, Seq<u8>)>) -> Seq<u8> {
    bincode_u64(groups.len()) + concat_map(
        groups,
        |g: (Seq<char>, Seq<u8>)| bincode_of_text(g.0) + bincode_u64(g.1.len()) + g.1,
    )
}

/// `bincode::serialize` of a list of (key, bytes) pairs.  It does not
/// fail; the contract states the default layout
/// (`bincode_of_packed_groups`).
#[verifier::external_body]
pub(crate) fn encode_packed_groups(groups: &Vec<(String, Vec<u8>)>) -> (bytes: Vec<u8>)
    ensures
        bytes@ == bincode_of_packed_groups(packed_groups_text(groups@)),
{
    bincode::serialize(groups).unwrap_or_default()
}

/// The texts of a list of (character, text) pairs.
pub open spec fn char_texts(v: Seq<(char, String)>) -> Seq<(char, Seq<char>)> {
    Seq::new(v.len(), |i: int| (v[i].0, v[i].1@))
}

/// The bincode bytes of a list of (character, text) pairs (a map from
/// character to text is written the same way): the length, then each
/// character and text.
pub open spec fn bincode_of_char_texts(pairs: Seq<(char, Seq<char>)>) -> Seq<u8> {
    bincode_u64(pairs.len()) + concat_map(
        pairs,
        |p: (char, Seq<char>)| bincode_char(p.0) + bincode_of_text(p.1),
    )
}

/// `bincode::serialize` of a list of (character, text) pairs.  Serialising
/// characters and strings does not fail; the contract states the default
/// layout (`bincode_of_char_texts`).
#[verifier::external_body]
pub(crate) fn encode_char_texts(pairs: &Vec<(char, String)>) -> (bytes: Vec<u8>)
    ensures
        bytes@ == bincode_of_char_texts(char_texts(pairs@)),
{
    bincode::serialize(pairs).unwrap_or_default()
}

/// The `n` bytes of `v`, least significant first.
pub open spec fn le_bytes(v: nat, n: nat) -> Seq<u8>
    decreases n,
{
    if n == 0 {
        seq![]
    } else {
        seq![(v % 256) as u8] + le_bytes(v / 256, (n - 1) as nat)
    }
}

/// A length or a 64-bit integer as bincode writes it by default: 8 bytes,
/// little-endian.
pub open spec fn bincode_u64(n: nat) -> Seq<u8> {
    le_bytes(n, 8)
}

/// A 32-bit integer as bincode writes it: its two's complement in 4 bytes,
/// little-endian.
pub open spec fn bincode_i32(v: i32) -> Seq<u8> {
    le_bytes((if v < 0 { v + 0x1_0000_0000 } else { v as int }) as nat, 4)
}

/// The integers of a list, one after another.
pub open spec fn i32s_bytes(values: Seq<i32>) -> Seq<u8>
    decreases values.len(),
{
    if values.len() == 0 {
        seq![]
    } else {
        i32s_bytes(values.drop_last()) + bincode_i32(values.last())
    }
}

/// The bincode bytes of a list of 32-bit integers: its length, then each
/// integer.
pub open spec fn bincode_of_i32s(values: Seq<i32>) -> Seq<u8> {
    bincode_u64(values.len()) + i32s_bytes(values)
}

/// What bincode reads from bytes as a list of 32-bit integers.
pub uninterp spec fn bincode_i32s(bytes: Seq<u8>) -> Option<Seq<i32>>;

/// `bincode::serialize` of a list of 32-bit integers.  It does not fail;
/// the contract states the default fixed-width layout (`bincode_of_i32s`).
#[verifier::external_body]
pub(crate) fn encode_i32s(values: &Vec<i32>) -> (bytes: Vec<u8>)
    ensures
        bytes@ == bincode_of_i32s(values@),
{
    bincode::serialize(values).unwrap_or_default()
}

/// `bincode::deserialize` into a list of 32-bit integers.  The result is
/// named (`bincode_i32s`); stated besides is only that the bytes that
/// `bincode::serialize` wrote for a list read back as that list.
#[verifier::external_body]
pub(crate) fn decode_i32s(bytes: &[u8]) -> (r: Option<Vec<i32>>)
    ensures
        match r {
            Some(v) => bincode_i32s(bytes@) == Some(v@),
            None => bincode_i32s(bytes@) is None,
        },
        forall|values: Seq<i32>| #[trigger] bincode_of_i32s(values) == bytes@ ==> r.is_some() && r.unwrap()@ == values,
{
    bincode::deserialize(bytes).ok()
}

/// The bincode bytes of a text: its UTF-8 length, then its UTF-8 bytes.
pub open spec fn bincode_of_text(text: Seq<char>) -> Seq<u8> {
    bincode_u64(vstd::utf8::encode_utf8(text).len()) + vstd::utf8::encode_utf8(text)
}

/// What bincode reads from bytes as a text.
pub uninterp spec fn bincode_text(bytes: Seq<u8>) -> Option<Seq<char>>;

/// `bincode::serialize` of a text.  It does not fail; the contract states
/// the default layout (`bincode_of_text`).
#[verifier::external_body]
pub(crate) fn encode_text(text: &str) -> (bytes: Vec<u8>)
    ensures
        bytes@ == bincode_of_text(text@),
{
    bincode::serialize(text).unwrap_or_default()
}

/// `bincode::deserialize` into a text.  The result is named
/// (`bincode_text`); stated besides is only that the bytes that
/// `bincode::serialize` wrote for a text read back as that text.
#[verifier::external_body]
pub(crate) fn decode_text(bytes: &[u8]) -> (r: Option<String>)
    ensures
        match r {
            Some(t) => bincode_text(bytes@) == Some(t@),
            None => bincode_text(bytes@) is None,
        },
        forall|text: Seq<char>| #[trigger] bincode_of_text(text) == bytes@ ==> r.is_some() && r.unwrap()@ == text,
{
    bincode::deserialize(bytes).ok()
}

/// The fields of a saved assignment: group, title, content and progress.
pub type HomeworkText = (i32, Seq<char>, Seq<char>, u64);

/// The bincode bytes of a saved assignment's fields (a struct is written as
/// its fields in order, a `usize` as 64 bits).
pub open spec fn bincode_of_homework(fields: HomeworkText) -> Seq<u8> {
    bincode_i32(fields.0) + bincode_of_text(fields.1) + bincode_of_text(fields.2) + bincode_u64(
        fields.3 as nat,
    )
}

/// What bincode reads from bytes as a saved assignment's fields.
pub uninterp spec fn bincode_homework(bytes: Seq<u8>) -> Option<HomeworkText>;

/// `bincode::serialize` of a saved assignment's fields.  It does not fail;
/// the contract states the default layout (`bincode_of_homework`).
#[verifier::external_body]
pub(crate) fn encode_homework_fields(fields: &(i32, String, String, u64)) -> (bytes: Vec<u8>)
    ensures
        bytes@ == bincode_of_homework((fields.0, fields.1@, fields.2@, fields.3)),
{
    bincode::serialize(fields).unwrap_or_default()
}

/// `bincode::deserialize` into a saved assignment's fields.  The result is
/// named (`bincode_homework`); stated besides is only that the bytes that
/// `bincode::serialize` wrote for fields read back as those fields.
#[verifier::external_body]
pub(crate) fn decode_homework_fields(bytes: &[u8]) -> (r: Option<(i32, String, String, u64)>)
    ensures
        match r {
            Some(f) => bincode_homework(bytes@) == Some((f.0, f.1@, f.2@, f.3)),
            None => bincode_homework(bytes@) is None,
        },
        forall|fields: HomeworkText| #[trigger] bincode_of_homework(fields) == bytes@ ==> r.is_some() && (r.unwrap().0, r.unwrap().1@, r.unwrap().2@, r.unwrap().3) == fields,
{
    bincode::deserialize(bytes).ok()
}

// ---------------------------------------------------------------- chrono

/// The `%Y-%m-%d %H:%M` text that chrono gives for the instant `secs`
/// seconds after the Unix epoch, seen `west` seconds west of UTC; `None`
/// where the instant is outside chrono's range of dates.
pub uninterp spec fn chrono_minutes_text(secs: i64, west: i32) -> Option<Seq<char>>;

/// `DateTime::from_timestamp(secs, 0)` seen through
/// `FixedOffset::west_opt(west)` and formatted as `%Y-%m-%d %H:%M`.  The
/// result is named (`chrono_minutes_text`).  An offset of a day or more is
/// left out: `FixedOffset` refuses it.
#[verifier::external_body]
pub(crate) fn format_minutes(secs: i64, west: i32) -> (r: Option<String>)
    requires
        -86_400 < west < 86_400,
    ensures
        match r {
            Some(t) => chrono_minutes_text(secs, west) == Some(t@),
            None => chrono_minutes_text(secs, west) is None,
        },
{
    let offset = chrono::FixedOffset::west_opt(west)?;
    let utc = chrono::DateTime::from_timestamp(secs, 0)?;
    Some(utc.with_timezone(&offset).format("%Y-%m-%d %H:%M").to_string())
}

} // verus!
