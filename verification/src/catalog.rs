use crate::codec::{
    bincode_of_text_pairs, bincode_text_pairs, bzip2_compressed, bzip2_decompress,
    bzip2_decompressed, decode_text_pairs,
};
use crate::table::{
    lemma_text_map, pairs_map, table_from_pairs, text_map, texts_of_map, Table,
};
use crate::text::{
    contains, contains_text, last_segment, last_segment_of, sort_texts, strictly_sorted, texts_of,
};
use vstd::prelude::*;

verus! {

/// A dictionary entry for one character.
pub struct Word {
    pub strokes: String,
    pub pinyin: String,
    pub radicals: String,
    pub explanation: String,
}

/// A practice assignment as it is saved between sessions.
pub struct Homework {
    /// 0: typed in by the user, 1: a poem, 2: a lesson text.
    pub group: i32,
    /// The key of the poem or lesson text.
    pub title: String,
    /// The text to practise.
    pub content: String,
    /// How far the practice went.
    pub progress: usize,
}

/// The keys of a title index.
pub open spec fn index_keys(index: Seq<(String, String)>) -> Seq<Seq<char>> {
    index.map_values(|e: (String, String)| e.1@)
}

/// `index` lists the keys of `m` in increasing order, each beside its name:
/// the part of the key after its last `'-'`.
pub open spec fn index_of_map(index: Seq<(String, String)>, m: Map<Seq<char>, String>) -> bool {
    &&& strictly_sorted(index_keys(index))
    &&& forall|k: Seq<char>| m.contains_key(k) <==> index_keys(index).contains(k)
    &&& forall|i: int|
        0 <= i < index.len() ==> (#[trigger] index[i]).0@ == last_segment(index[i].1@)
}

/// The sorted title index of a table of texts.
fn build_index(t: &Table<String>) -> (r: Vec<(String, String)>)
    requires
        t.wf(),
    ensures
        index_of_map(r@, t@),
        r@.len() == t@.len(),
{
    let keys = t.keys();
    let sorted = sort_texts(&keys);
    let n = sorted.len();
    let mut r: Vec<(String, String)> = Vec::new();
    for i in 0..n
        invariant
            n == sorted@.len(),
            r@.len() == i,
            forall|j: int| 0 <= j < i ==> (#[trigger] r@[j]).1@ == sorted@[j]@,
            forall|j: int| 0 <= j < i ==> (#[trigger] r@[j]).0@ == last_segment(r@[j].1@),
    {
        let k = sorted[i].clone();
        let name = last_segment_of(k.as_str());
        r.push((name, k));
    }
    proof {
        assert(index_keys(r@) =~= texts_of(sorted@));
        t.lemma_view();
        assert forall|k: Seq<char>| t@.contains_key(k) <==> index_keys(r@).contains(k) by {
            if t@.contains_key(k) {
                let i = choose|i: int| 0 <= i < t.entries().len() && #[trigger] t.entries()[i].0@ == k;
                assert(texts_of(keys@)[i] == k);
                assert(texts_of(keys@).contains(k));
            }
            if index_keys(r@).contains(k) {
                assert(texts_of(keys@).contains(k));
                let i = choose|i: int| 0 <= i < keys@.len() && #[trigger] texts_of(keys@)[i] == k;
                assert(keys@[i]@ == t.entries()[i].0@);
            }
        }
    }
    r
}

/// The texts that a bincode record of text pairs holds, by key.
pub open spec fn archive_texts(bytes: Seq<u8>) -> Option<Map<Seq<char>, Seq<char>>> {
    match bincode_text_pairs(bytes) {
        Some(pairs) => Some(text_map(pairs)),
        None => None,
    }
}

/// The texts that a bzip2 stream of a bincode record of text pairs holds.
pub open spec fn packed_archive_texts(bytes: Seq<u8>) -> Option<Map<Seq<char>, Seq<char>>> {
    match bzip2_decompressed(bytes) {
        Some(raw) => archive_texts(raw),
        None => None,
    }
}

/// The poems and lesson texts that can be chosen for practice, each with a
/// title index sorted by key.
pub struct Catalog {
    poems: Table<String>,
    poems_map: Vec<(String, String)>,
    articls: Table<String>,
    articls_map: Vec<(String, String)>,
}

impl Catalog {
    /// Poems by key.
    pub closed spec fn poems(&self) -> Map<Seq<char>, String> {
        self.poems@
    }

    /// Lesson texts by key.
    pub closed spec fn articls(&self) -> Map<Seq<char>, String> {
        self.articls@
    }

    /// The title index of the poems: (name, key), sorted by key.
    pub closed spec fn poem_index(&self) -> Seq<(String, String)> {
        self.poems_map@
    }

    /// The title index of the lesson texts: (name, key), sorted by key.
    pub closed spec fn article_index(&self) -> Seq<(String, String)> {
        self.articls_map@
    }

    /// The tables keep distinct keys and each index lists its table.
    pub closed spec fn wf(&self) -> bool {
        &&& self.poems.wf()
        &&& self.articls.wf()
        &&& index_of_map(self.poems_map@, self.poems@)
        &&& index_of_map(self.articls_map@, self.articls@)
    }

    /// The index of group `group_index`: 0 for lesson texts, poems otherwise.
    pub open spec fn group_index(&self, group_index: i32) -> Seq<(String, String)> {
        if group_index == 0 {
            self.article_index()
        } else {
            self.poem_index()
        }
    }

    /// The texts of group `group_index`: 0 for lesson texts, poems otherwise.
    pub open spec fn group_texts(&self, group_index: i32) -> Map<Seq<char>, String> {
        if group_index == 0 {
            self.articls()
        } else {
            self.poems()
        }
    }

    /// The poems by key, as texts.
    pub open spec fn poem_texts(&self) -> Map<Seq<char>, Seq<char>> {
        texts_of_map(self.poems())
    }

    /// The lesson texts by key, as texts.
    pub open spec fn articl_texts(&self) -> Map<Seq<char>, Seq<char>> {
        texts_of_map(self.articls())
    }

    /// The catalog that the shipped archives hold: `poems` is a bincode
    /// record of (key, poem) pairs, `articls` a bzip2 stream of such a record
    /// of lesson texts.  `None` where either does not decode.  Archives
    /// written from two lists of pairs give back the texts of those lists.
    pub fn from_archives(poems: &[u8], articls: &[u8]) -> (r: Option<Catalog>)
        ensures
            match r {
                Some(c) => c.wf() && archive_texts(poems@) == Some(c.poem_texts())
                    && packed_archive_texts(articls@) == Some(c.articl_texts()),
                None => archive_texts(poems@) is None || packed_archive_texts(articls@) is None,
            },
            forall|p: Seq<(Seq<char>, Seq<char>)>, a: Seq<(Seq<char>, Seq<char>)>, level: u32|
                #![trigger bincode_of_text_pairs(p), bzip2_compressed(bincode_of_text_pairs(a), level)]
                poems@ == bincode_of_text_pairs(p) && 1 <= level <= 9 && articls@
                    == bzip2_compressed(bincode_of_text_pairs(a), level) ==> r.is_some()
                    && r.unwrap().poem_texts() == text_map(p) && r.unwrap().articl_texts()
                    == text_map(a),
    {
        let poem_pairs = decode_text_pairs(poems);
        let raw = bzip2_decompress(articls);
        let raw = match raw {
            Some(v) => v,
            None => {
                return None;
            },
        };
        let articl_pairs = decode_text_pairs(&raw);
        match (poem_pairs, articl_pairs) {
            (Some(p), Some(a)) => {
                proof {
                    lemma_text_map(p@);
                    lemma_text_map(a@);
                }
                Some(Catalog::new(p, a))
            },
            _ => None,
        }
    }

    /// A catalog of the given poems and lesson texts, each list inserted in
    /// order (a later text replaces an earlier one with the same key).
    pub fn new(poems: Vec<(String, String)>, articls: Vec<(String, String)>) -> (c: Self)
        ensures
            c.wf(),
            c.poems() == pairs_map(poems@),
            c.articls() == pairs_map(articls@),
    {
        let poems = table_from_pairs(poems);
        let poems_map = build_index(&poems);
        let articls = table_from_pairs(articls);
        let articls_map = build_index(&articls);
        Catalog { poems, poems_map, articls, articls_map }
    }

    /// An index lists each key of its texts once.
    pub proof fn lemma_index(&self, group_index: i32)
        requires
            self.wf(),
        ensures
            index_of_map(self.group_index(group_index), self.group_texts(group_index)),
            self.group_index(group_index).len() == self.group_texts(group_index).len(),
            forall|i: int|
                0 <= i < self.group_index(group_index).len() ==> #[trigger] self.group_texts(
                    group_index,
                ).contains_key(self.group_index(group_index)[i].1@),
    {
        let t = if group_index == 0 { self.articls } else { self.poems };
        let ix = self.group_index(group_index);
        t.lemma_view();
        lemma_sorted_index_len(ix, t@);
        assert forall|i: int| 0 <= i < ix.len() implies #[trigger] t@.contains_key(ix[i].1@) by {
            assert(index_keys(ix)[i] == ix[i].1@);
        }
    }

    /// The names of the texts of a group, in index order.
    pub fn get_choose_names(&self, group_index: i32) -> (r: Vec<String>)
        requires
            self.wf(),
        ensures
            r@.len() == self.group_index(group_index).len(),
            forall|i: int|
                0 <= i < r@.len() ==> #[trigger] r@[i]@ == self.group_index(group_index)[i].0@,
    {
        let index = if group_index == 0 {
            &self.articls_map
        } else {
            &self.poems_map
        };
        let n = index.len();
        let mut r: Vec<String> = Vec::new();
        for i in 0..n
            invariant
                n == index@.len(),
                index@ == self.group_index(group_index),
                r@.len() == i,
                forall|j: int| 0 <= j < i ==> #[trigger] r@[j]@ == index@[j].0@,
        {
            r.push(index[i].0.clone());
        }
        r
    }

    /// The names to show after the group picker moved from `old_group` to
    /// `new_group`: none when the group stayed, else those of the new group.
    pub fn choose_change(&self, old_group: i32, new_group: i32) -> (r: Option<Vec<String>>)
        requires
            self.wf(),
        ensures
            old_group == new_group ==> r is None,
            old_group != new_group ==> (r matches Some(names) && names@.len() == self.group_index(
                new_group,
            ).len() && forall|i: int|
                0 <= i < names@.len() ==> #[trigger] names@[i]@ == self.group_index(new_group)[i].0@),
    {
        if old_group == new_group {
            None
        } else {
            Some(self.get_choose_names(new_group))
        }
    }

    /// The text at position `name_id` of the index of group `group_id`.
    pub fn choose_homework(&self, group_id: i32, name_id: i32) -> (r: String)
        requires
            self.wf(),
            0 <= name_id < self.group_index(group_id).len(),
        ensures
            r@ == self.group_texts(group_id)[self.group_index(group_id)[name_id as int].1@]@,
    {
        proof {
            self.lemma_index(group_id);
        }
        let (table, index) = if group_id == 0 {
            (&self.articls, &self.articls_map)
        } else {
            (&self.poems, &self.poems_map)
        };
        let key = &index[name_id as usize].1;
        match table.get(key.as_str()) {
            Some(text) => text.clone(),
            None => String::new(),
        }
    }

    /// The assignment to start with when none was saved: the lesson text with
    /// the smallest key.
    pub fn default_homework(&self) -> (h: Homework)
        requires
            self.wf(),
            self.article_index().len() > 0,
        ensures
            h.group == 2,
            h.progress == 0,
            h.title@ == self.article_index()[0].1@,
            self.articls().contains_key(h.title@),
            h.content@ == self.articls()[h.title@]@,
            forall|k: Seq<char>|
                #[trigger] self.articls().contains_key(k) && k != h.title@
                    ==> crate::text::text_less(h.title@, k),
    {
        proof {
            self.lemma_index(0);
            let ix = self.articls_map@;
            assert forall|k: Seq<char>| #[trigger]
                self.articls().contains_key(k) && k != ix[0].1@ implies crate::text::text_less(
                ix[0].1@,
                k,
            ) by {
                assert(index_keys(ix).contains(k));
                let j = choose|j: int| 0 <= j < index_keys(ix).len() && index_keys(ix)[j] == k;
                assert(index_keys(ix)[0] == ix[0].1@);
                assert(j != 0);
            }
        }
        let title = self.articls_map[0].1.clone();
        let content = match self.articls.get(title.as_str()) {
            Some(text) => text.clone(),
            None => String::new(),
        };
        Homework { group: 2, title, content, progress: 0 }
    }

    /// The choice `[group, name]` after searching the names of the chosen
    /// group for `text`: the first name that contains it becomes the chosen
    /// one; with no such name the choice stays.
    pub fn search_title(&self, chosen: Vec<i32>, text: &str) -> (r: Vec<i32>)
        requires
            self.wf(),
            chosen@.len() >= 2,
        ensures
            r@.len() == chosen@.len(),
            r@[0] == chosen@[0],
            forall|k: int| 2 <= k < r@.len() ==> r@[k] == chosen@[k],
            (forall|j: int|
                0 <= j < self.group_index(chosen@[0]).len() ==> !contains_text(
                    #[trigger] self.group_index(chosen@[0])[j].0@,
                    text@,
                )) ==> r@[1] == chosen@[1],
            forall|j: int|
                0 <= j < self.group_index(chosen@[0]).len() && contains_text(
                    #[trigger] self.group_index(chosen@[0])[j].0@,
                    text@,
                ) && (forall|k: int|
                    0 <= k < j ==> !contains_text(self.group_index(chosen@[0])[k].0@, text@))
                    ==> r@[1] == j as i32,
    {
        let ghost c0 = chosen@;
        let mut picked = chosen;
        let names = self.get_choose_names(picked[0]);
        let ghost ix = self.group_index(c0[0]);
        let n = names.len();
        let mut j: usize = 0;
        while j < n
            invariant
                n == names@.len(),
                n == ix.len(),
                forall|i: int| 0 <= i < n ==> #[trigger] names@[i]@ == ix[i].0@,
                j <= n,
                forall|k: int| 0 <= k < j ==> !contains_text(#[trigger] ix[k].0@, text@),
                picked@ == c0,
                c0.len() >= 2,
                c0 == chosen@,
                ix == self.group_index(c0[0]),
            decreases n - j,
        {
            if contains(names[j].as_str(), text) {
                picked.set(1, j as i32);
                proof {
                    assert(picked@ =~= c0.update(1, j as i32));
                    assert forall|m: int|
                        0 <= m < ix.len() && contains_text(#[trigger] ix[m].0@, text@) && (forall|
                            k: int,
                        | 0 <= k < m ==> !contains_text(ix[k].0@, text@)) implies picked@[1] == m
                        as i32 by {
                        if m > j {
                            assert(contains_text(ix[j as int].0@, text@));
                        }
                    }
                }
                return picked;
            }
            j = j + 1;
        }
        picked
    }
}

/// A strictly sorted index of a map has as many entries as the map.
proof fn lemma_sorted_index_len(ix: Seq<(String, String)>, m: Map<Seq<char>, String>)
    requires
        index_of_map(ix, m),
        m.dom().finite(),
    ensures
        ix.len() == m.len(),
{
    let ks = index_keys(ix);
    assert(ks.no_duplicates()) by {
        assert forall|i: int, j: int| 0 <= i < ks.len() && 0 <= j < ks.len() && i != j implies ks[i]
            != ks[j] by {
            if i < j {
                crate::text::lemma_text_less_total(ks[i], ks[j]);
            } else {
                crate::text::lemma_text_less_total(ks[j], ks[i]);
            }
        }
    }
    assert(ks.to_set() =~= m.dom()) by {
        assert forall|k: Seq<char>| ks.to_set().contains(k) <==> m.dom().contains(k) by {}
    }
    ks.unique_seq_to_set();
}

} // verus!
