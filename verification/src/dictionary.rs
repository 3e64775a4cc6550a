//! The character dictionary: building it from word records, its archive,
//! the pinyin archive, and the characters that lack an entry.
use crate::catalog::Word;
use crate::codec::{
    bincode_of_char_texts, bincode_of_char_words, bincode_of_packed_groups, bincode_of_word_records,
    char_words_text, encode_char_words, encode_packed_groups, packed_groups_text, bincode_word_records, bzip2_compress,
    bzip2_compressed, char_texts, decode_word_records, encode_char_texts, encode_word_records,
    word_records_text, WordText,
};
use crate::text::string_from_chars;
use crate::table::{
    law_assoc_map, assoc_distinct, assoc_map, lemma_assoc_push, lemma_assoc_update, lemma_assoc_update_distinct,
    lemma_assoc_key_at, lemma_assoc_keys, lemma_assoc_map_values, lemma_pairs_map_unique, pairs_map,
    str_eq, table_from_pairs, Table,
};
use vstd::prelude::*;

verus! {

/// One record of the word list the dictionary is built from.
pub struct WordEntry {
    pub word: String,
    pub strokes: String,
    pub pinyin: String,
    pub radicals: String,
    pub explanation: String,
}

/// The texts of a dictionary entry.
pub open spec fn word_text(w: Word) -> WordText {
    (w.strokes@, w.pinyin@, w.radicals@, w.explanation@)
}

/// The texts of the dictionary entry a word record gives.
pub open spec fn entry_text(e: WordEntry) -> WordText {
    (e.strokes@, e.pinyin@, e.radicals@, e.explanation@)
}

/// The texts of a map of dictionary entries.
pub open spec fn word_texts(m: Map<Seq<char>, Word>) -> Map<Seq<char>, WordText> {
    m.map_values(|w: Word| word_text(w))
}

/// The map that inserting `records` one after another gives: a later
/// record replaces an earlier one for the same word.
pub open spec fn record_map(records: Seq<(Seq<char>, WordText)>) -> Map<Seq<char>, WordText>
    decreases records.len(),
{
    if records.len() == 0 {
        Map::empty()
    } else {
        record_map(records.drop_last()).insert(records.last().0, records.last().1)
    }
}

/// The dictionary a list of word records gives: each word to its entry, a
/// later record replacing an earlier one for the same word.
pub open spec fn dictionary_of(entries: Seq<WordEntry>) -> Map<Seq<char>, WordText>
    decreases entries.len(),
{
    if entries.len() == 0 {
        Map::empty()
    } else {
        dictionary_of(entries.drop_last()).insert(
            entries.last().word@,
            entry_text(entries.last()),
        )
    }
}

/// The dictionary of a list of word records holds exactly the words of the
/// records: each record's word is a key, with the entry of the last record
/// that carries that word, and every key is the word of some record.
pub proof fn law_dictionary_of(entries: Seq<WordEntry>)
    ensures
        forall|i: int|
            0 <= i < entries.len() ==> #[trigger] dictionary_of(entries).contains_key(
                entries[i].word@,
            ),
        forall|i: int|
            0 <= i < entries.len() && (forall|j: int|
                i < j < entries.len() ==> entries[j].word@ != entries[i].word@)
                ==> #[trigger] dictionary_of(entries)[entries[i].word@] == entry_text(entries[i]),
        forall|k: Seq<char>|
            #[trigger] dictionary_of(entries).contains_key(k) ==> exists|i: int|
                0 <= i < entries.len() && entries[i].word@ == k,
    decreases entries.len(),
{
    if entries.len() > 0 {
        let rest = entries.drop_last();
        law_dictionary_of(rest);
        let n = entries.len();
        assert forall|i: int| 0 <= i < n implies #[trigger] dictionary_of(entries).contains_key(
            entries[i].word@,
        ) by {
            if i < n - 1 {
                assert(rest[i] == entries[i]);
                assert(dictionary_of(rest).contains_key(rest[i].word@));
            }
        }
        assert forall|i: int|
            0 <= i < n && (forall|j: int| i < j < n ==> entries[j].word@ != entries[i].word@)
                implies #[trigger] dictionary_of(entries)[entries[i].word@] == entry_text(
            entries[i],
        ) by {
            if i < n - 1 {
                assert(rest[i] == entries[i]);
                assert(entries[n - 1].word@ != entries[i].word@);
                assert forall|j: int| i < j < rest.len() implies rest[j].word@ != rest[i].word@ by {
                    assert(rest[j] == entries[j]);
                }
                assert(dictionary_of(rest)[rest[i].word@] == entry_text(rest[i]));
            }
        }
        assert forall|k: Seq<char>| #[trigger]
            dictionary_of(entries).contains_key(k) implies exists|i: int|
            0 <= i < entries.len() && entries[i].word@ == k by {
            if k == entries.last().word@ {
                assert(entries[n - 1].word@ == k);
            } else {
                assert(dictionary_of(rest).contains_key(k));
                let i = choose|i: int| 0 <= i < rest.len() && rest[i].word@ == k;
                assert(rest[i] == entries[i]);
            }
        }
    }
}

/// The dictionary a bincode record holds.
pub open spec fn dictionary_texts(bytes: Seq<u8>) -> Option<Map<Seq<char>, WordText>> {
    match bincode_word_records(bytes) {
        Some(records) => Some(record_map(records)),
        None => None,
    }
}

/// The texts of a list of (word, entry) pairs.
pub open spec fn word_pairs_text(ws: Seq<(String, Word)>) -> Seq<(Seq<char>, WordText)> {
    Seq::new(ws.len(), |i: int| (ws[i].0@, word_text(ws[i].1)))
}

/// Inserting (word, entry) pairs and taking the texts gives the map of
/// their texts.
pub proof fn lemma_record_map(ws: Seq<(String, Word)>)
    ensures
        record_map(word_pairs_text(ws)) == word_texts(pairs_map(ws)),
    decreases ws.len(),
{
    if ws.len() > 0 {
        lemma_record_map(ws.drop_last());
        assert(word_pairs_text(ws).drop_last() =~= word_pairs_text(ws.drop_last()));
    }
    assert(record_map(word_pairs_text(ws)) =~= word_texts(pairs_map(ws)));
}

/// The dictionary entry of a word record.
fn word_of(e: &WordEntry) -> (w: Word)
    ensures
        word_text(w) == entry_text(*e),
{
    Word {
        strokes: e.strokes.clone(),
        pinyin: e.pinyin.clone(),
        radicals: e.radicals.clone(),
        explanation: e.explanation.clone(),
    }
}

/// The dictionary of a list of word records.
pub fn build_dictionary(entries: &Vec<WordEntry>) -> (t: Table<Word>)
    ensures
        t.wf(),
        word_texts(t@) == dictionary_of(entries@),
{
    let mut t: Table<Word> = Table::new();
    let n = entries.len();
    proof {
        assert(entries@.subrange(0, 0) =~= Seq::<WordEntry>::empty());
        assert(word_texts(t@) =~= Map::<Seq<char>, WordText>::empty());
    }
    for i in 0..n
        invariant
            n == entries@.len(),
            t.wf(),
            word_texts(t@) == dictionary_of(entries@.subrange(0, i as int)),
    {
        proof {
            let pre = entries@.subrange(0, i + 1);
            assert(pre.drop_last() =~= entries@.subrange(0, i as int));
            assert(pre.last() == entries@[i as int]);
        }
        let e = &entries[i];
        let w = word_of(e);
        let ghost before = t@;
        t.insert(e.word.clone(), w);
        proof {
            assert(word_texts(t@) =~= word_texts(before).insert(e.word@, entry_text(*e)));
        }
    }
    proof {
        assert(entries@.subrange(0, n as int) =~= entries@);
    }
    t
}

/// The dictionary archive of a list of word records: the bincode record of
/// each word with its entry, each word once (in some order, as a map is
/// written).
pub fn dictionary_archive(entries: &Vec<WordEntry>) -> (bytes: Vec<u8>)
    ensures
        exists|records: Seq<(Seq<char>, WordText)>|
            #[trigger] bincode_of_word_records(records) == bytes@ && assoc_distinct(records)
                && record_map(records) == dictionary_of(entries@),
{
    let t = build_dictionary(entries);
    let n = t.len();
    let mut records: Vec<(String, (String, String, String, String))> = Vec::new();
    for i in 0..n
        invariant
            t.wf(),
            n == t.entries().len(),
            word_records_text(records@) == word_pairs_text(t.entries()).subrange(0, i as int),
    {
        let (k, w) = t.entry_at(i);
        let ghost before = records@;
        records.push(
            (
                k.clone(),
                (w.strokes.clone(), w.pinyin.clone(), w.radicals.clone(), w.explanation.clone()),
            ),
        );
        proof {
            assert(word_records_text(before).len() == i);
            assert(before.len() == i);
            assert(records@ == before.push(records@[i as int]));
            assert(word_records_text(records@) =~= word_pairs_text(t.entries()).subrange(
                0,
                i + 1,
            )) by {
                assert forall|j: int| 0 <= j < i implies #[trigger] word_records_text(records@)[j]
                    == word_records_text(before)[j] by {
                    assert(records@[j] == before[j]);
                }
            }
        }
    }
    let bytes = encode_word_records(&records);
    proof {
        assert(word_records_text(records@) =~= word_pairs_text(t.entries()));
        t.lemma_view();
        t.lemma_keys_unique();
        lemma_pairs_map_unique(t.entries());
        lemma_record_map(t.entries());
        let rt = word_records_text(records@);
        assert forall|a: int, b: int|
            0 <= a < rt.len() && 0 <= b < rt.len() && a != b implies #[trigger] rt[a].0
            != #[trigger] rt[b].0 by {
            assert(rt[a].0 == t.entries()[a].0@);
            assert(rt[b].0 == t.entries()[b].0@);
        }
        assert(bincode_of_word_records(word_records_text(records@)) == bytes@);
    }
    bytes
}

/// The dictionary that a bincode record of words with their entries holds
/// (`None` where it does not decode).  The record that the dictionary
/// archive wrote reads back as the map of its records.
pub fn load_dictionary(bytes: &[u8]) -> (r: Option<Table<Word>>)
    ensures
        match r {
            Some(t) => t.wf() && dictionary_texts(bytes@) == Some(word_texts(t@)),
            None => dictionary_texts(bytes@) is None,
        },
        forall|records: Seq<(Seq<char>, WordText)>| #[trigger]
            bincode_of_word_records(records) == bytes@ ==> r.is_some() && word_texts(
                r.unwrap()@,
            ) == record_map(records),
{
    let records = match decode_word_records(bytes) {
        Some(v) => v,
        None => {
            return None;
        },
    };
    let ghost all = records@;
    let mut ws: Vec<(String, Word)> = Vec::new();
    for rec in it: records.into_iter()
        invariant
            it.seq() == all,
            word_pairs_text(ws@) == word_records_text(all).subrange(0, it.index() as int),
    {
        let (k, (strokes, pinyin, radicals, explanation)) = rec;
        let ghost before = ws@;
        ws.push((k, Word { strokes, pinyin, radicals, explanation }));
        proof {
            let i = it.index();
            assert(word_pairs_text(before).len() == i);
            assert(before.len() == i);
            assert(ws@ == before.push(ws@[i as int]));
            assert(word_pairs_text(ws@) =~= word_records_text(all).subrange(0, i + 1)) by {
                assert forall|j: int| 0 <= j < i implies #[trigger] word_pairs_text(ws@)[j]
                    == word_pairs_text(before)[j] by {
                    assert(ws@[j] == before[j]);
                }
            }
        }
    }
    proof {
        assert(word_pairs_text(ws@) =~= word_records_text(all));
        lemma_record_map(ws@);
    }
    Some(table_from_pairs(ws))
}

// ---------------------------------------------------------------- pinyin

/// The pinyin of each character, from the first character of each word
/// record: a later record replaces an earlier one for the same character.
pub open spec fn pinyin_of(entries: Seq<WordEntry>) -> Map<char, Seq<char>>
    decreases entries.len(),
{
    if entries.len() == 0 {
        Map::empty()
    } else {
        pinyin_of(entries.drop_last()).insert(entries.last().word@[0], entries.last().pinyin@)
    }
}

/// The position of character `c` among the pairs.
fn find_char(pairs: &Vec<(char, String)>, c: char) -> (r: Option<usize>)
    ensures
        match r {
            Some(j) => j < pairs@.len() && pairs@[j as int].0 == c,
            None => forall|j: int| 0 <= j < pairs@.len() ==> #[trigger] pairs@[j].0 != c,
        },
{
    let n = pairs.len();
    for j in 0..n
        invariant
            n == pairs@.len(),
            forall|k: int| 0 <= k < j ==> #[trigger] pairs@[k].0 != c,
    {
        if pairs[j].0 == c {
            return Some(j);
        }
    }
    None
}

/// The pinyin archive of a list of word records: the bincode record of each
/// character with its pinyin, each character once (in some order, as a
/// map is written),
/// compressed at the best bzip2 level.  Every word must have a character.
pub fn pinyin_archive(entries: &Vec<WordEntry>) -> (bytes: Vec<u8>)
    requires
        forall|i: int| 0 <= i < entries@.len() ==> #[trigger] entries@[i].word@.len() > 0,
    ensures
        exists|pairs: Seq<(char, Seq<char>)>|
            #[trigger] bzip2_compressed(bincode_of_char_texts(pairs), 9) == bytes@
                && assoc_distinct(pairs) && assoc_map(pairs) == pinyin_of(entries@),
{
    let mut pairs: Vec<(char, String)> = Vec::new();
    let n = entries.len();
    proof {
        assert(entries@.subrange(0, 0) =~= Seq::<WordEntry>::empty());
        assert(char_texts(pairs@) =~= Seq::<(char, Seq<char>)>::empty());
    }
    for i in 0..n
        invariant
            n == entries@.len(),
            forall|k: int| 0 <= k < entries@.len() ==> #[trigger] entries@[k].word@.len() > 0,
            assoc_distinct(char_texts(pairs@)),
            assoc_map(char_texts(pairs@)) == pinyin_of(entries@.subrange(0, i as int)),
    {
        proof {
            let pre = entries@.subrange(0, i + 1);
            assert(pre.drop_last() =~= entries@.subrange(0, i as int));
            assert(pre.last() == entries@[i as int]);
        }
        let e = &entries[i];
        assert(e.word@.len() > 0);
        let c = e.word.as_str().get_char(0);
        let ghost before = char_texts(pairs@);
        match find_char(&pairs, c) {
            Some(j) => {
                pairs.set(j, (c, e.pinyin.clone()));
                proof {
                    assert(before[j as int].0 == c);
                    assert(char_texts(pairs@) =~= before.update(j as int, (c, e.pinyin@)));
                    lemma_assoc_update(before, j as int, e.pinyin@);
                    lemma_assoc_update_distinct(before, j as int, e.pinyin@);
                }
            },
            None => {
                pairs.push((c, e.pinyin.clone()));
                proof {
                    assert forall|j: int| 0 <= j < before.len() implies #[trigger] before[j].0 != c by {
                        assert(before[j].0 == pairs@[j].0);
                    }
                    assert(char_texts(pairs@) =~= before.push((c, e.pinyin@)));
                    lemma_assoc_push(before, c, e.pinyin@);
                }
            },
        }
    }
    proof {
        assert(entries@.subrange(0, n as int) =~= entries@);
    }
    let raw = encode_char_texts(&pairs);
    let bytes = bzip2_compress(&raw, 9);
    proof {
        assert(bzip2_compressed(bincode_of_char_texts(char_texts(pairs@)), 9) == bytes@);
    }
    bytes
}

// -------------------------------------------------------- missing entries

/// Whether some word record is the single character `c`.
pub open spec fn has_word(entries: Seq<WordEntry>, c: char) -> bool {
    exists|i: int| 0 <= i < entries.len() && #[trigger] entries[i].word@ == seq![c]
}

/// The characters of `chars` that no word record is, in order.
pub open spec fn missing_of(chars: Seq<char>, entries: Seq<WordEntry>) -> Seq<char>
    decreases chars.len(),
{
    if chars.len() == 0 {
        seq![]
    } else if has_word(entries, chars.last()) {
        missing_of(chars.drop_last(), entries)
    } else {
        missing_of(chars.drop_last(), entries).push(chars.last())
    }
}

/// The characters reported as lacking an entry are exactly those of
/// `chars` that no word record is: a character that is the whole word of
/// some record (any of them, the last one included) is never reported, and
/// one that is the word of no record always is.
pub proof fn law_missing_of(chars: Seq<char>, entries: Seq<WordEntry>)
    ensures
        forall|c: char|
            #[trigger] missing_of(chars, entries).contains(c) <==> (chars.contains(c) && forall|
                i: int,
            | 0 <= i < entries.len() ==> entries[i].word@ != seq![c]),
    decreases chars.len(),
{
    if chars.len() > 0 {
        let rest = chars.drop_last();
        law_missing_of(rest, entries);
        let last = chars.last();
        let m = missing_of(chars, entries);
        let r = missing_of(rest, entries);
        assert forall|c: char| chars.contains(c) <==> (rest.contains(c) || c == last) by {
            if chars.contains(c) {
                let k = choose|k: int| 0 <= k < chars.len() && chars[k] == c;
                if k < chars.len() - 1 {
                    assert(rest[k] == c);
                }
            }
            if rest.contains(c) {
                let k = choose|k: int| 0 <= k < rest.len() && rest[k] == c;
                assert(chars[k] == c);
            }
            if c == last {
                assert(chars[chars.len() - 1] == c);
            }
        }
        if has_word(entries, last) {
            assert(m == r);
            let w = choose|i: int| 0 <= i < entries.len() && #[trigger] entries[i].word@ == seq![
                last,
            ];
            assert(entries[w].word@ == seq![last]);
        } else {
            assert(m == r.push(last));
            assert forall|i: int| 0 <= i < entries.len() implies entries[i].word@ != seq![last] by {
                if entries[i].word@ == seq![last] {
                    assert(has_word(entries, last));
                }
            }
            assert forall|c: char| #[trigger] m.contains(c) <==> (r.contains(c) || c == last) by {
                if m.contains(c) {
                    let k = choose|k: int| 0 <= k < m.len() && m[k] == c;
                    if k < r.len() {
                        assert(r[k] == c);
                    }
                }
                if r.contains(c) {
                    let k = choose|k: int| 0 <= k < r.len() && r[k] == c;
                    assert(m[k] == c);
                }
                if c == last {
                    assert(m[m.len() - 1] == c);
                }
            }
        }
    }
}

/// Whether some word record is the single character `c`.
fn word_listed(entries: &Vec<WordEntry>, c: char) -> (r: bool)
    ensures
        r == has_word(entries@, c),
{
    let n = entries.len();
    for i in 0..n
        invariant
            n == entries@.len(),
            forall|k: int| 0 <= k < i ==> #[trigger] entries@[k].word@ != seq![c],
    {
        let w = entries[i].word.as_str();
        if w.unicode_len() == 1 && w.get_char(0) == c {
            assert(w@ =~= seq![c]);
            return true;
        }
    }
    false
}

/// The characters with stroke templates that the word records leave
/// without a dictionary entry, in the order given.
pub fn missing_characters(chars: &Vec<char>, entries: &Vec<WordEntry>) -> (r: Vec<char>)
    ensures
        r@ == missing_of(chars@, entries@),
{
    let mut r: Vec<char> = Vec::new();
    let n = chars.len();
    for i in 0..n
        invariant
            n == chars@.len(),
            r@ == missing_of(chars@.subrange(0, i as int), entries@),
    {
        proof {
            let pre = chars@.subrange(0, i + 1);
            assert(pre.drop_last() =~= chars@.subrange(0, i as int));
            assert(pre.last() == chars@[i as int]);
        }
        if !word_listed(entries, chars[i]) {
            r.push(chars[i]);
        }
    }
    proof {
        assert(chars@.subrange(0, n as int) =~= chars@);
    }
    r
}

/// The blank word-list record to fill in for character `c`.
pub fn missing_word_template(c: char) -> (r: String)
    ensures
        r@ == "    {\n                    \"word\": \""@ + seq![c] + "\",\n                    \"oldword\": \"\",\n                    \"strokes\": \"\",\n                    \"pinyin\": \"\",\n                    \"radicals\": \"\",\n                    \"explanation\": \"\",\n                    \"more\": \"\"\n                },"@,
{
    let head = "    {\n                    \"word\": \"";
    let tail = "\",\n                    \"oldword\": \"\",\n                    \"strokes\": \"\",\n                    \"pinyin\": \"\",\n                    \"radicals\": \"\",\n                    \"explanation\": \"\",\n                    \"more\": \"\"\n                },";
    let one = vec![c];
    let mut r = String::from_str(head);
    let middle = string_from_chars(one.as_slice());
    r.append(middle.as_str());
    r.append(tail);
    r
}

// ------------------------------------------------- grouped by stroke count

/// The dictionary grouped by stroke count: for each stroke-count text, the
/// entries of the characters with that count, keyed by the first character
/// of the word; a later record replaces an earlier one.
pub open spec fn grouped_of(entries: Seq<WordEntry>) -> Map<Seq<char>, Map<char, WordText>>
    decreases entries.len(),
{
    if entries.len() == 0 {
        Map::empty()
    } else {
        let m = grouped_of(entries.drop_last());
        let e = entries.last();
        let inner = if m.contains_key(e.strokes@) {
            m[e.strokes@]
        } else {
            Map::empty()
        };
        m.insert(e.strokes@, inner.insert(e.word@[0], entry_text(e)))
    }
}

/// The texts of a list of groups of (character, entry) records.
pub open spec fn groups_text(v: Seq<(String, Vec<(char, (String, String, String, String))>)>) -> Seq<
    (Seq<char>, Seq<(char, WordText)>),
> {
    Seq::new(v.len(), |i: int| (v[i].0@, char_words_text(v[i].1@)))
}

/// Each group's records as a map.
pub open spec fn group_maps(m: Map<Seq<char>, Seq<(char, WordText)>>) -> Map<
    Seq<char>,
    Map<char, WordText>,
> {
    m.map_values(|s: Seq<(char, WordText)>| assoc_map(s))
}

/// Whether packed groups hold the grouped dictionary: the same stroke-count
/// keys, each once, each with a bzip2 stream (fastest level) of a bincode
/// record of that group's entries, each character once.
pub open spec fn packed_groups_hold(
    packed: Seq<(Seq<char>, Seq<u8>)>,
    groups: Map<Seq<char>, Map<char, WordText>>,
) -> bool {
    &&& assoc_distinct(packed)
    &&& assoc_map(packed).dom() == groups.dom()
    &&& forall|g: Seq<char>| #[trigger]
        groups.contains_key(g) ==> exists|inner: Seq<(char, WordText)>|
            #[trigger] bzip2_compressed(bincode_of_char_words(inner), 1) == assoc_map(packed)[g]
                && assoc_distinct(inner) && assoc_map(inner) == groups[g]
}

/// The position of the group with key `key`.
fn find_group(groups: &Vec<(String, Vec<(char, (String, String, String, String))>)>, key: &str) -> (r: Option<usize>)
    ensures
        match r {
            Some(j) => j < groups@.len() && groups@[j as int].0@ == key@,
            None => forall|j: int| 0 <= j < groups@.len() ==> #[trigger] groups@[j].0@ != key@,
        },
{
    let n = groups.len();
    for j in 0..n
        invariant
            n == groups@.len(),
            forall|k: int| 0 <= k < j ==> #[trigger] groups@[k].0@ != key@,
    {
        if str_eq(groups[j].0.as_str(), key) {
            return Some(j);
        }
    }
    None
}

/// The position of character `c` among (character, entry) records.
fn find_char_word(records: &Vec<(char, (String, String, String, String))>, c: char) -> (r: Option<usize>)
    ensures
        match r {
            Some(j) => j < records@.len() && records@[j as int].0 == c,
            None => forall|j: int| 0 <= j < records@.len() ==> #[trigger] records@[j].0 != c,
        },
{
    let n = records.len();
    for j in 0..n
        invariant
            n == records@.len(),
            forall|k: int| 0 <= k < j ==> #[trigger] records@[k].0 != c,
    {
        if records[j].0 == c {
            return Some(j);
        }
    }
    None
}

/// Stores entry `w` of character `c` in a group's records.
fn put_char_word(
    records: &mut Vec<(char, (String, String, String, String))>,
    c: char,
    w: (String, String, String, String),
)
    requires
        assoc_distinct(char_words_text(old(records)@)),
    ensures
        assoc_distinct(char_words_text(final(records)@)),
        assoc_map(char_words_text(final(records)@)) == assoc_map(char_words_text(old(records)@)).insert(c, (w.0@, w.1@, w.2@, w.3@)),
{
    let ghost before = char_words_text(records@);
    let ghost wt = (w.0@, w.1@, w.2@, w.3@);
    match find_char_word(records, c) {
        Some(j) => {
            records.set(j, (c, w));
            proof {
                assert(before[j as int].0 == c);
                assert(char_words_text(records@) =~= before.update(j as int, (c, wt)));
                lemma_assoc_update(before, j as int, wt);
                lemma_assoc_update_distinct(before, j as int, wt);
            }
        },
        None => {
            records.push((c, w));
            proof {
                assert forall|j: int| 0 <= j < before.len() implies #[trigger] before[j].0 != c by {
                    assert(before[j].0 == records@[j].0);
                }
                assert(char_words_text(records@) =~= before.push((c, wt)));
                lemma_assoc_push(before, c, wt);
            }
        },
    }
}

/// The dictionary archive grouped by stroke count: for each stroke-count
/// text, the bincode record of its characters' entries compressed at the
/// fastest bzip2 level; then the bincode record of all groups (in some
/// order, as a map is written).  Every word must have a character.
pub fn grouped_dictionary_archive(entries: &Vec<WordEntry>) -> (bytes: Vec<u8>)
    requires
        forall|i: int| 0 <= i < entries@.len() ==> #[trigger] entries@[i].word@.len() > 0,
    ensures
        exists|packed: Seq<(Seq<char>, Seq<u8>)>|
            #[trigger] bincode_of_packed_groups(packed) == bytes@ && packed_groups_hold(
                packed,
                grouped_of(entries@),
            ),
{
    let mut groups: Vec<(String, Vec<(char, (String, String, String, String))>)> = Vec::new();
    let n = entries.len();
    proof {
        assert(entries@.subrange(0, 0) =~= Seq::<WordEntry>::empty());
        assert(group_maps(assoc_map(groups_text(groups@))) =~= Map::<
            Seq<char>,
            Map<char, WordText>,
        >::empty());
    }
    for i in 0..n
        invariant
            n == entries@.len(),
            forall|k: int| 0 <= k < entries@.len() ==> #[trigger] entries@[k].word@.len() > 0,
            assoc_distinct(groups_text(groups@)),
            forall|j: int|
                0 <= j < groups@.len() ==> assoc_distinct(#[trigger] char_words_text(groups@[j].1@)),
            group_maps(assoc_map(groups_text(groups@))) == grouped_of(
                entries@.subrange(0, i as int),
            ),
    {
        proof {
            let pre = entries@.subrange(0, i + 1);
            assert(pre.drop_last() =~= entries@.subrange(0, i as int));
            assert(pre.last() == entries@[i as int]);
        }
        let e = &entries[i];
        assert(e.word@.len() > 0);
        let c = e.word.as_str().get_char(0);
        let w = (e.strokes.clone(), e.pinyin.clone(), e.radicals.clone(), e.explanation.clone());
        let ghost wt = entry_text(*e);
        let ghost before = groups_text(groups@);
        let ghost before_groups = groups@;
        match find_group(&groups, e.strokes.as_str()) {
            Some(j) => {
                let (k, mut records) = groups.remove(j);
                proof {
                    assert(before_groups[j as int] == (k, records));
                    assert(assoc_distinct(char_words_text(records@)));
                }
                let ghost old_records = char_words_text(records@);
                put_char_word(&mut records, c, w);
                groups.insert(j, (k, records));
                proof {
                    assert(groups@ =~= before_groups.update(j as int, (k, records)));
                    assert(groups_text(groups@) =~= before.update(
                        j as int,
                        (before[j as int].0, char_words_text(records@)),
                    ));
                    lemma_assoc_update(before, j as int, char_words_text(records@));
                    lemma_assoc_update_distinct(before, j as int, char_words_text(records@));
                    assert(assoc_map(before).contains_key(e.strokes@)) by {
                        lemma_assoc_key_at(before, j as int);
                    }
                    assert(assoc_map(before)[e.strokes@] == old_records) by {
                        lemma_assoc_key_at(before, j as int);
                    }
                    assert forall|q: int| 0 <= q < groups@.len() implies assoc_distinct(
                        #[trigger] char_words_text(groups@[q].1@),
                    ) by {
                        if q != j {
                            assert(groups@[q] == before_groups[q]);
                        }
                    }
                    assert(group_maps(assoc_map(groups_text(groups@))) =~= group_maps(
                        assoc_map(before),
                    ).insert(e.strokes@, assoc_map(old_records).insert(c, wt)));
                }
            },
            None => {
                let mut records: Vec<(char, (String, String, String, String))> = Vec::new();
                proof {
                    assert(char_words_text(records@) =~= Seq::<(char, WordText)>::empty());
                }
                put_char_word(&mut records, c, w);
                groups.push((e.strokes.clone(), records));
                proof {
                    assert forall|j: int| 0 <= j < before.len() implies #[trigger] before[j].0
                        != e.strokes@ by {
                        assert(before[j].0 == before_groups[j].0@);
                    }
                    assert(groups_text(groups@) =~= before.push(
                        (e.strokes@, char_words_text(records@)),
                    ));
                    lemma_assoc_push(before, e.strokes@, char_words_text(records@));
                    assert(!assoc_map(before).contains_key(e.strokes@)) by {
                        lemma_assoc_keys(before);
                    }
                    assert forall|q: int| 0 <= q < groups@.len() implies assoc_distinct(
                        #[trigger] char_words_text(groups@[q].1@),
                    ) by {
                        if q < before_groups.len() {
                            assert(groups@[q] == before_groups[q]);
                        }
                    }
                    assert(group_maps(assoc_map(groups_text(groups@))) =~= group_maps(
                        assoc_map(before),
                    ).insert(e.strokes@, Map::<char, WordText>::empty().insert(c, wt)));
                }
            },
        }
    }
    proof {
        assert(entries@.subrange(0, n as int) =~= entries@);
    }
    let m = groups.len();
    let mut packed: Vec<(String, Vec<u8>)> = Vec::new();
    for j in 0..m
        invariant
            m == groups@.len(),
            packed@.len() == j,
            forall|q: int|
                0 <= q < j ==> #[trigger] packed_groups_text(packed@)[q] == (
                    groups_text(groups@)[q].0,
                    bzip2_compressed(bincode_of_char_words(groups_text(groups@)[q].1), 1),
                ),
    {
        let raw = encode_char_words(&groups[j].1);
        let stream = bzip2_compress(&raw, 1);
        let ghost before = packed@;
        packed.push((groups[j].0.clone(), stream));
        proof {
            assert forall|q: int| 0 <= q < j + 1 implies #[trigger] packed_groups_text(packed@)[q]
                == (
                groups_text(groups@)[q].0,
                bzip2_compressed(bincode_of_char_words(groups_text(groups@)[q].1), 1),
            ) by {
                if q < j {
                    assert(packed@[q] == before[q]);
                    assert(packed_groups_text(before)[q] == packed_groups_text(packed@)[q]);
                }
            }
        }
    }
    let bytes = encode_packed_groups(&packed);
    proof {
        let gv = groups_text(groups@);
        let pv = packed_groups_text(packed@);
        let f = |s: Seq<(char, WordText)>| bzip2_compressed(bincode_of_char_words(s), 1);
        assert forall|q: int| 0 <= q < gv.len() implies #[trigger] pv[q] == (gv[q].0, f(gv[q].1)) by {
        }
        lemma_assoc_map_values(gv, pv, f);
        let groups_map = grouped_of(entries@);
        assert(assoc_map(pv).dom() =~= groups_map.dom());
        assert forall|a: int, b: int|
            0 <= a < pv.len() && 0 <= b < pv.len() && a != b implies #[trigger] pv[a].0
            != #[trigger] pv[b].0 by {
            assert(pv[a].0 == gv[a].0);
            assert(pv[b].0 == gv[b].0);
        }
        lemma_assoc_keys(gv);
        assert forall|g: Seq<char>| #[trigger] groups_map.contains_key(g) implies exists|
            inner: Seq<(char, WordText)>,
        | #[trigger] bzip2_compressed(bincode_of_char_words(inner), 1) == assoc_map(pv)[g]
            && assoc_distinct(inner) && assoc_map(inner) == groups_map[g] by {
            let inner = assoc_map(gv)[g];
            assert(assoc_map(gv).contains_key(g));
            let j = choose|j: int| 0 <= j < gv.len() && #[trigger] gv[j].0 == g;
            lemma_assoc_key_at(gv, j);
            assert(inner == gv[j].1);
            assert(gv[j].1 == char_words_text(groups@[j].1@));
            assert(assoc_distinct(char_words_text(groups@[j].1@)));
            assert(bzip2_compressed(bincode_of_char_words(inner), 1) == assoc_map(pv)[g]);
        }
        assert(bincode_of_packed_groups(pv) == bytes@);
    }
    bytes
}

// ------------------------------------------------------------------ laws

/// Inserting records one after another is the map of the records.
proof fn lemma_record_map_assoc(r: Seq<(Seq<char>, WordText)>)
    ensures
        record_map(r) == assoc_map(r),
    decreases r.len(),
{
    if r.len() > 0 {
        lemma_record_map_assoc(r.drop_last());
    }
}

/// The map of (word, entry) records holds exactly their words, each with the
/// entry of the last record that carries it.
pub proof fn law_record_map(r: Seq<(Seq<char>, WordText)>)
    ensures
        forall|i: int| 0 <= i < r.len() ==> #[trigger] record_map(r).contains_key(r[i].0),
        forall|i: int|
            0 <= i < r.len() && (forall|j: int| i < j < r.len() ==> r[j].0 != r[i].0)
                ==> #[trigger] record_map(r)[r[i].0] == r[i].1,
        forall|k: Seq<char>|
            #[trigger] record_map(r).contains_key(k) ==> exists|i: int| 0 <= i < r.len() && r[i].0 == k,
{
    lemma_record_map_assoc(r);
    law_assoc_map(r);
}

/// The (first character, pinyin) pairs of a word list.
pub open spec fn pinyin_pairs(entries: Seq<WordEntry>) -> Seq<(char, Seq<char>)> {
    Seq::new(entries.len(), |i: int| (entries[i].word@[0], entries[i].pinyin@))
}

/// The pinyin map is the map of the (first character, pinyin) pairs.
proof fn lemma_pinyin_assoc(entries: Seq<WordEntry>)
    ensures
        pinyin_of(entries) == assoc_map(pinyin_pairs(entries)),
    decreases entries.len(),
{
    if entries.len() > 0 {
        lemma_pinyin_assoc(entries.drop_last());
        assert(pinyin_pairs(entries).drop_last() =~= pinyin_pairs(entries.drop_last()));
    }
}

/// The pinyin map holds exactly the first characters of the records' words:
/// each with the pinyin of the last record whose word starts with it.
pub proof fn law_pinyin_of(entries: Seq<WordEntry>)
    ensures
        forall|i: int|
            0 <= i < entries.len() ==> #[trigger] pinyin_of(entries).contains_key(
                entries[i].word@[0],
            ),
        forall|i: int|
            0 <= i < entries.len() && (forall|j: int|
                i < j < entries.len() ==> entries[j].word@[0] != entries[i].word@[0])
                ==> #[trigger] pinyin_of(entries)[entries[i].word@[0]] == entries[i].pinyin@,
        forall|c: char|
            #[trigger] pinyin_of(entries).contains_key(c) ==> exists|i: int|
                0 <= i < entries.len() && entries[i].word@[0] == c,
{
    lemma_pinyin_assoc(entries);
    let q = pinyin_pairs(entries);
    law_assoc_map(q);
    assert forall|i: int| 0 <= i < entries.len() implies #[trigger] pinyin_of(entries).contains_key(
        entries[i].word@[0],
    ) by {
        assert(q[i].0 == entries[i].word@[0]);
    }
    assert forall|i: int|
        0 <= i < entries.len() && (forall|j: int|
            i < j < entries.len() ==> entries[j].word@[0] != entries[i].word@[0]) implies #[trigger] pinyin_of(
        entries,
    )[entries[i].word@[0]] == entries[i].pinyin@ by {
        assert(q[i] == (entries[i].word@[0], entries[i].pinyin@));
        assert forall|j: int| i < j < q.len() implies q[j].0 != q[i].0 by {
            assert(q[j].0 == entries[j].word@[0]);
        }
    }
    assert forall|c: char| #[trigger] pinyin_of(entries).contains_key(c) implies exists|i: int|
        0 <= i < entries.len() && entries[i].word@[0] == c by {
        let i = choose|i: int| 0 <= i < q.len() && q[i].0 == c;
        assert(q[i].0 == entries[i].word@[0]);
    }
}

/// The groups of the dictionary are exactly the stroke counts of the
/// records, and each record's first character is in the group of its stroke
/// count, with the entry of the last record of that count that starts with
/// it.
pub proof fn law_grouped_of(entries: Seq<WordEntry>)
    ensures
        forall|i: int|
            0 <= i < entries.len() ==> #[trigger] grouped_of(entries).contains_key(
                entries[i].strokes@,
            ) && grouped_of(entries)[entries[i].strokes@].contains_key(entries[i].word@[0]),
        forall|i: int|
            0 <= i < entries.len() && (forall|j: int|
                i < j < entries.len() ==> !(entries[j].strokes@ == entries[i].strokes@
                    && entries[j].word@[0] == entries[i].word@[0]))
                ==> #[trigger] grouped_of(entries)[entries[i].strokes@][entries[i].word@[0]]
                == entry_text(entries[i]),
        forall|g: Seq<char>|
            #[trigger] grouped_of(entries).contains_key(g) ==> exists|i: int|
                0 <= i < entries.len() && entries[i].strokes@ == g,
    decreases entries.len(),
{
    if entries.len() > 0 {
        let rest = entries.drop_last();
        let n = entries.len();
        let e = entries.last();
        law_grouped_of(rest);
        assert forall|i: int| 0 <= i < n implies #[trigger] grouped_of(entries).contains_key(
            entries[i].strokes@,
        ) && grouped_of(entries)[entries[i].strokes@].contains_key(entries[i].word@[0]) by {
            if i < n - 1 {
                assert(rest[i] == entries[i]);
                assert(grouped_of(rest).contains_key(rest[i].strokes@));
            }
        }
        assert forall|i: int|
            0 <= i < n && (forall|j: int|
                i < j < n ==> !(entries[j].strokes@ == entries[i].strokes@ && entries[j].word@[0]
                    == entries[i].word@[0])) implies #[trigger] grouped_of(
            entries,
        )[entries[i].strokes@][entries[i].word@[0]] == entry_text(entries[i]) by {
            if i < n - 1 {
                assert(rest[i] == entries[i]);
                assert(!(entries[n - 1].strokes@ == entries[i].strokes@ && entries[n - 1].word@[0]
                    == entries[i].word@[0]));
                assert forall|j: int| i < j < rest.len() implies !(rest[j].strokes@
                    == rest[i].strokes@ && rest[j].word@[0] == rest[i].word@[0]) by {
                    assert(rest[j] == entries[j]);
                }
                assert(grouped_of(rest)[rest[i].strokes@][rest[i].word@[0]] == entry_text(rest[i]));
            }
        }
        assert forall|g: Seq<char>| #[trigger] grouped_of(entries).contains_key(g) implies exists|
            i: int,
        | 0 <= i < entries.len() && entries[i].strokes@ == g by {
            if g == e.strokes@ {
                assert(entries[n - 1].strokes@ == g);
            } else {
                assert(grouped_of(rest).contains_key(g));
                let i = choose|i: int| 0 <= i < rest.len() && rest[i].strokes@ == g;
                assert(rest[i] == entries[i]);
            }
        }
    }
}

} // verus!
