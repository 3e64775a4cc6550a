use crate::codec::{
    stroke_entry_points, StrokePoints,
    base64_decode, base64_decoded, base64_text, packed_text, bincode_stroke_entries, bzip2_compressed,
    bzip2_decompress, bzip2_decompressed, decode_stroke_entries,
};
use crate::table::{assoc_map, law_assoc_map};
use std::collections::HashMap;
use vstd::prelude::*;

verus! {

broadcast use vstd::std_specs::hash::group_hash_axioms;

/// The template strokes of one character: each stroke is the list of its
/// points on a 1000 x 1000 grid.
pub type Strokes = Vec<Vec<(u16, u16)>>;

/// The map that inserting `entries` one after another gives, keyed by code
/// point: a later entry replaces an earlier one for the same character.
pub open spec fn stroke_entries_map(entries: Seq<(char, Strokes)>) -> Map<u32, Strokes>
    decreases entries.len(),
{
    if entries.len() == 0 {
        Map::empty()
    } else {
        stroke_entries_map(entries.drop_last()).insert(
            entries.last().0 as u32,
            entries.last().1,
        )
    }
}

/// The stroke templates of the characters that can be practised.
pub struct StrokeTable {
    map: HashMap<u32, Strokes>,
}

impl View for StrokeTable {
    type V = Map<u32, Strokes>;

    closed spec fn view(&self) -> Map<u32, Strokes> {
        self.map@
    }
}

impl StrokeTable {
    /// Whether character `c` has templates.
    pub open spec fn supports(&self, c: char) -> bool {
        self@.contains_key(c as u32)
    }

    /// A table with no characters.
    pub fn new() -> (t: Self)
        ensures
            t@ == Map::<u32, Strokes>::empty(),
    {
        StrokeTable { map: HashMap::new() }
    }

    /// A table of `entries`, inserted in order.
    pub fn from_entries(entries: Vec<(char, Strokes)>) -> (t: Self)
        ensures
            t@ == stroke_entries_map(entries@),
    {
        let mut map: HashMap<u32, Strokes> = HashMap::new();
        let ghost all = entries@;
        for e in it: entries.into_iter()
            invariant
                it.seq() == all,
                map@ == stroke_entries_map(all.subrange(0, it.index() as int)),
        {
            let (c, s) = e;
            proof {
                let i = it.index();
                let pre = all.subrange(0, i + 1);
                assert(pre.drop_last() =~= all.subrange(0, i as int));
                assert(pre.last() == all[i as int]);
            }
            map.insert(c as u32, s);
        }
        assert(all.subrange(0, all.len() as int) =~= all);
        StrokeTable { map }
    }

    /// Whether character `c` has templates.
    pub fn contains(&self, c: char) -> (r: bool)
        ensures
            r == self.supports(c),
    {
        self.map.contains_key(&(c as u32))
    }

    /// The templates of character `c`.
    pub fn get(&self, c: char) -> (r: Option<&Strokes>)
        ensures
            match r {
                Some(s) => self.supports(c) && *s == self@[c as u32],
                None => !self.supports(c),
            },
    {
        self.map.get(&(c as u32))
    }
}

/// Whether a text is short enough for the base64 decoder's size estimate:
/// its UTF-8 length plus 3 fits in a `usize`.
pub open spec fn decodable_length(text: Seq<char>) -> bool {
    vstd::utf8::encode_utf8(text).len() + 3 <= usize::MAX
}

/// The map that inserting `entries` one after another gives, keyed by code
/// point: a later entry replaces an earlier one for the same character.
pub open spec fn point_entries_map(entries: Seq<(char, StrokePoints)>) -> Map<u32, StrokePoints>
    decreases entries.len(),
{
    if entries.len() == 0 {
        Map::empty()
    } else {
        point_entries_map(entries.drop_last()).insert(entries.last().0 as u32, entries.last().1)
    }
}

/// The points of the strokes of a stroke map.
pub open spec fn stroke_points(m: Map<u32, Strokes>) -> Map<u32, StrokePoints> {
    m.map_values(|s: Strokes| s.deep_view())
}

/// Inserting entries and taking the points gives the map of their points.
pub proof fn lemma_stroke_points(entries: Seq<(char, Strokes)>)
    ensures
        stroke_points(stroke_entries_map(entries)) == point_entries_map(stroke_entry_points(entries)),
    decreases entries.len(),
{
    if entries.len() > 0 {
        lemma_stroke_points(entries.drop_last());
        assert(stroke_entry_points(entries).drop_last() =~= stroke_entry_points(entries.drop_last()));
    }
    assert(stroke_points(stroke_entries_map(entries)) =~= point_entries_map(stroke_entry_points(entries)));
}

/// The stroke map that a stroke text holds: base64 text of a bzip2 stream
/// of the bincode record of all characters with their strokes.
pub open spec fn stroke_text_map(text: Seq<char>) -> Option<Map<u32, StrokePoints>> {
    match base64_decoded(text) {
        None => None,
        Some(packed) => match bzip2_decompressed(packed) {
            None => None,
            Some(raw) => raw_stroke_map(raw),
        },
    }
}

/// The stroke map of a bincode record of characters with their strokes.
pub open spec fn raw_stroke_map(raw: Seq<u8>) -> Option<Map<u32, StrokePoints>> {
    match bincode_stroke_entries(raw) {
        None => None,
        Some(entries) => Some(point_entries_map(entries)),
    }
}

/// Reads the stroke templates from the text the application ships them
/// in.  `None` where the text does not decode, or is too long for the
/// decoder.  Reading the text that packing a stroke record gave yields
/// the map of that record.
pub fn load_strokes(text: &str) -> (r: Option<StrokeTable>)
    ensures
        match r {
            Some(t) => decodable_length(text@) && stroke_text_map(text@) == Some(stroke_points(t@)),
            None => !decodable_length(text@) || stroke_text_map(text@) is None,
        },
        forall|raw: Seq<u8>|
            #[trigger] packed_text(raw) == text@ && decodable_length(text@)
                ==> stroke_text_map(text@) == raw_stroke_map(raw),
{
    let n = text.as_bytes().len();
    if n > usize::MAX - 3 {
        return None;
    }
    let packed = base64_decode(text);
    proof {
        assert forall|raw: Seq<u8>| #[trigger] packed_text(raw) == text@ implies
            base64_decoded(text@) == Some(bzip2_compressed(raw, 9)) by {
            assert(base64_text(bzip2_compressed(raw, 9)) == text@);
        }
    }
    let packed = match packed {
        Some(p) => p,
        None => {
            return None;
        },
    };
    let raw = bzip2_decompress(&packed);
    proof {
        assert forall|raw0: Seq<u8>| #[trigger] packed_text(raw0) == text@ implies
            bzip2_decompressed(packed@) == Some(raw0) by {
            assert(base64_decoded(text@) == Some(bzip2_compressed(raw0, 9)));
            assert(bzip2_compressed(raw0, 9) == packed@);
        }
    }
    let raw = match raw {
        Some(v) => v,
        None => {
            return None;
        },
    };
    let entries = match decode_stroke_entries(&raw) {
        Some(e) => e,
        None => {
            return None;
        },
    };
    proof {
        lemma_stroke_points(entries@);
    }
    Some(StrokeTable::from_entries(entries))
}

/// The characters of a list of stroke entries, in order.
pub open spec fn entry_chars(entries: Seq<(char, StrokePoints)>) -> Seq<char> {
    Seq::new(entries.len(), |i: int| entries[i].0)
}

/// The characters a bincode record of strokes lists, in the record's order
/// (a record written from a map lists each character once).  `None` where
/// the record does not decode.
pub fn stroke_characters(raw: &[u8]) -> (r: Option<Vec<char>>)
    ensures
        match r {
            Some(v) => bincode_stroke_entries(raw@) matches Some(e) && v@ == entry_chars(e),
            None => bincode_stroke_entries(raw@) is None,
        },
{
    let entries = match decode_stroke_entries(raw) {
        Some(e) => e,
        None => {
            return None;
        },
    };
    let n = entries.len();
    let mut chars: Vec<char> = Vec::new();
    for i in 0..n
        invariant
            n == entries@.len(),
            chars@ == entry_chars(stroke_entry_points(entries@)).subrange(0, i as int),
    {
        chars.push(entries[i].0);
        proof {
            assert(chars@ =~= entry_chars(stroke_entry_points(entries@)).subrange(0, i + 1));
        }
    }
    proof {
        assert(chars@ =~= entry_chars(stroke_entry_points(entries@)));
    }
    Some(chars)
}

/// The (code point, strokes) pairs of a list of stroke entries.
pub open spec fn coded_entries(entries: Seq<(char, Strokes)>) -> Seq<(u32, Strokes)> {
    Seq::new(entries.len(), |i: int| (entries[i].0 as u32, entries[i].1))
}

/// The stroke map is the map of the (code point, strokes) pairs.
proof fn lemma_stroke_entries_assoc(entries: Seq<(char, Strokes)>)
    ensures
        stroke_entries_map(entries) == assoc_map(coded_entries(entries)),
    decreases entries.len(),
{
    if entries.len() > 0 {
        lemma_stroke_entries_assoc(entries.drop_last());
        assert(coded_entries(entries).drop_last() =~= coded_entries(entries.drop_last()));
    }
}

/// The stroke map of a list of entries holds exactly their characters, each
/// (by code point) with the strokes of the last entry for it.
pub proof fn law_stroke_entries_map(entries: Seq<(char, Strokes)>)
    ensures
        forall|i: int|
            0 <= i < entries.len() ==> #[trigger] stroke_entries_map(entries).contains_key(
                entries[i].0 as u32,
            ),
        forall|i: int|
            0 <= i < entries.len() && (forall|j: int|
                i < j < entries.len() ==> entries[j].0 as u32 != entries[i].0 as u32)
                ==> #[trigger] stroke_entries_map(entries)[entries[i].0 as u32] == entries[i].1,
        forall|k: u32|
            #[trigger] stroke_entries_map(entries).contains_key(k) ==> exists|i: int|
                0 <= i < entries.len() && entries[i].0 as u32 == k,
{
    lemma_stroke_entries_assoc(entries);
    let q = coded_entries(entries);
    law_assoc_map(q);
    assert forall|i: int| 0 <= i < entries.len() implies #[trigger] stroke_entries_map(
        entries,
    ).contains_key(entries[i].0 as u32) by {
        assert(q[i].0 == entries[i].0 as u32);
    }
    assert forall|i: int|
        0 <= i < entries.len() && (forall|j: int|
                i < j < entries.len() ==> entries[j].0 as u32 != entries[i].0 as u32)
            implies #[trigger] stroke_entries_map(entries)[entries[i].0 as u32] == entries[i].1 by {
        assert(q[i] == (entries[i].0 as u32, entries[i].1));
        assert forall|j: int| i < j < q.len() implies q[j].0 != q[i].0 by {
            assert(q[j].0 == entries[j].0 as u32);
        }
    }
    assert forall|k: u32| #[trigger] stroke_entries_map(entries).contains_key(k) implies exists|i: int|
        0 <= i < entries.len() && entries[i].0 as u32 == k by {
        let i = choose|i: int| 0 <= i < q.len() && q[i].0 == k;
        assert(q[i].0 == entries[i].0 as u32);
    }
}

} // verus!
