use vstd::prelude::*;

verus! {

/// Whether no two entries carry the same key.
pub open spec fn keys_unique<V>(entries: Seq<(String, V)>) -> bool {
    forall|i: int, j: int|
        0 <= i < entries.len() && 0 <= j < entries.len() && i != j ==> #[trigger] entries[i].0@
            != #[trigger] entries[j].0@
}

/// Whether some entry carries key `k`.
pub open spec fn has_key<V>(entries: Seq<(String, V)>, k: Seq<char>) -> bool {
    exists|i: int| 0 <= i < entries.len() && #[trigger] entries[i].0@ == k
}

/// The position of the entry that carries key `k`.
pub open spec fn key_index<V>(entries: Seq<(String, V)>, k: Seq<char>) -> int {
    choose|i: int| 0 <= i < entries.len() && #[trigger] entries[i].0@ == k
}

/// The map that a list of entries with distinct keys stands for.
pub open spec fn entries_map<V>(entries: Seq<(String, V)>) -> Map<Seq<char>, V> {
    Map::new(|k: Seq<char>| has_key(entries, k), |k: Seq<char>| entries[key_index(entries, k)].1)
}

/// A map from text keys to values, kept as a list of entries in the order in
/// which their keys first arrived.
pub struct Table<V> {
    entries: Vec<(String, V)>,
}

impl<V> View for Table<V> {
    type V = Map<Seq<char>, V>;

    closed spec fn view(&self) -> Map<Seq<char>, V> {
        entries_map(self.entries@)
    }
}

impl<V> Table<V> {
    /// The entries, in arrival order.
    pub closed spec fn entries(&self) -> Seq<(String, V)> {
        self.entries@
    }

    /// Keys are distinct.
    pub closed spec fn wf(&self) -> bool {
        keys_unique(self.entries@)
    }

    /// The map agrees with the entry list.
    pub proof fn lemma_view(&self)
        requires
            self.wf(),
        ensures
            self@ == entries_map(self.entries()),
            forall|i: int|
                0 <= i < self.entries().len() ==> #[trigger] self@.contains_key(
                    self.entries()[i].0@,
                ) && self@[self.entries()[i].0@] == self.entries()[i].1,
            forall|k: Seq<char>|
                #[trigger] self@.contains_key(k) ==> exists|i: int|
                    0 <= i < self.entries().len() && #[trigger] self.entries()[i].0@ == k,
            self@.dom().finite(),
            self@.len() == self.entries().len(),
    {
        lemma_entries_map_facts(self.entries@);
        assert forall|k: Seq<char>| #[trigger] self@.contains_key(k) implies exists|i: int|
            0 <= i < self.entries().len() && #[trigger] self.entries()[i].0@ == k by {
            assert(entries_map(self.entries@).contains_key(k));
            assert(has_key(self.entries@, k));
            let i = choose|i: int| 0 <= i < self.entries@.len() && #[trigger] self.entries@[i].0@ == k;
            assert(self.entries()[i].0@ == k);
        }
    }

    /// A well-formed table keeps distinct keys.
    pub proof fn lemma_keys_unique(&self)
        requires
            self.wf(),
        ensures
            keys_unique(self.entries()),
    {
    }

    /// An empty table.
    pub fn new() -> (t: Self)
        ensures
            t.wf(),
            t@ == Map::<Seq<char>, V>::empty(),
            t.entries().len() == 0,
    {
        let t = Table { entries: Vec::new() };
        assert(t@ =~= Map::<Seq<char>, V>::empty());
        t
    }

    /// The number of keys.
    pub fn len(&self) -> (n: usize)
        requires
            self.wf(),
        ensures
            n == self@.len(),
            n == self.entries().len(),
    {
        proof {
            lemma_entries_map_facts(self.entries@);
        }
        self.entries.len()
    }

    /// The entry at position `i` of the entry list.
    pub fn entry_at(&self, i: usize) -> (r: &(String, V))
        requires
            i < self.entries().len(),
        ensures
            *r == self.entries()[i as int],
    {
        &self.entries[i]
    }

    /// The position of key `k` in the entry list.
    fn find(&self, k: &str) -> (r: Option<usize>)
        requires
            self.wf(),
        ensures
            match r {
                Some(i) => i < self.entries@.len() && self.entries@[i as int].0@ == k@,
                None => !has_key(self.entries@, k@),
            },
    {
        let n = self.entries.len();
        let mut i: usize = 0;
        while i < n
            invariant
                n == self.entries@.len(),
                i <= n,
                forall|j: int| 0 <= j < i ==> #[trigger] self.entries@[j].0@ != k@,
            decreases n - i,
        {
            if str_eq(self.entries[i].0.as_str(), k) {
                return Some(i);
            }
            i = i + 1;
        }
        None
    }

    /// The value stored under `k`.
    pub fn get(&self, k: &str) -> (r: Option<&V>)
        requires
            self.wf(),
        ensures
            match r {
                Some(v) => self@.contains_key(k@) && *v == self@[k@],
                None => !self@.contains_key(k@),
            },
    {
        proof {
            lemma_entries_map_facts(self.entries@);
        }
        match self.find(k) {
            Some(i) => Some(&self.entries[i].1),
            None => None,
        }
    }

    /// Whether `k` is a key.
    pub fn contains_key(&self, k: &str) -> (r: bool)
        requires
            self.wf(),
        ensures
            r == self@.contains_key(k@),
    {
        proof {
            lemma_entries_map_facts(self.entries@);
        }
        self.find(k).is_some()
    }

    /// Stores `v` under `k`, replacing what `k` held; a new key goes last.
    pub fn insert(&mut self, k: String, v: V)
        requires
            old(self).wf(),
        ensures
            final(self).wf(),
            final(self)@ == old(self)@.insert(k@, v),
            old(self)@.contains_key(k@) ==> final(self).entries().len() == old(self).entries().len()
                && forall|i: int|
                0 <= i < old(self).entries().len() ==> #[trigger] final(self).entries()[i].0@
                    == old(self).entries()[i].0@,
            !old(self)@.contains_key(k@) ==> final(self).entries().len() == old(self).entries().len()
                + 1 && final(self).entries().drop_last() == old(self).entries()
                && final(self).entries().last() == (k, v),
    {
        proof {
            lemma_entries_map_facts(self.entries@);
        }
        let ghost old_entries = self.entries@;
        match self.find(k.as_str()) {
            Some(i) => {
                self.entries.set(i, (k, v));
                proof {
                    let e = self.entries@;
                    assert forall|a: int, b: int|
                        0 <= a < e.len() && 0 <= b < e.len() && a != b implies #[trigger] e[a].0@
                        != #[trigger] e[b].0@ by {
                        assert(old_entries[a].0@ == e[a].0@);
                        assert(old_entries[b].0@ == e[b].0@);
                    }
                    lemma_entries_map_facts(e);
                    assert forall|q: Seq<char>| #[trigger] has_key(e, q) == has_key(old_entries, q)
                        by {
                        if has_key(e, q) {
                            let j = choose|j: int| 0 <= j < e.len() && #[trigger] e[j].0@ == q;
                            assert(old_entries[j].0@ == q);
                        }
                        if has_key(old_entries, q) {
                            let j = choose|j: int|
                                0 <= j < old_entries.len() && #[trigger] old_entries[j].0@ == q;
                            assert(e[j].0@ == q);
                        }
                    }
                    assert(entries_map(e) =~= entries_map(old_entries).insert(k@, v));
                }
            },
            None => {
                self.entries.push((k, v));
                proof {
                    let e = self.entries@;
                    assert forall|a: int, b: int|
                        0 <= a < e.len() && 0 <= b < e.len() && a != b implies #[trigger] e[a].0@
                        != #[trigger] e[b].0@ by {
                        if a < old_entries.len() && b < old_entries.len() {
                            assert(old_entries[a] == e[a]);
                            assert(old_entries[b] == e[b]);
                        } else if a < old_entries.len() {
                            assert(old_entries[a] == e[a]);
                        } else {
                            assert(old_entries[b] == e[b]);
                        }
                    }
                    lemma_entries_map_facts(e);
                    assert forall|q: Seq<char>|
                        #[trigger] has_key(e, q) == (has_key(old_entries, q) || q == k@) by {
                        if has_key(e, q) {
                            let j = choose|j: int| 0 <= j < e.len() && #[trigger] e[j].0@ == q;
                            if j < old_entries.len() {
                                assert(old_entries[j] == e[j]);
                            }
                        }
                        if has_key(old_entries, q) {
                            let j = choose|j: int|
                                0 <= j < old_entries.len() && #[trigger] old_entries[j].0@ == q;
                            assert(old_entries[j] == e[j]);
                        }
                        if q == k@ {
                            assert(e[e.len() - 1].0@ == q);
                        }
                    }
                    assert forall|q: Seq<char>| #[trigger] has_key(old_entries, q) implies entries_map(
                        e,
                    )[q] == entries_map(old_entries)[q] by {
                        let j = choose|j: int|
                            0 <= j < old_entries.len() && #[trigger] old_entries[j].0@ == q;
                        assert(old_entries[j] == e[j]);
                    }
                    assert(entries_map(e) =~= entries_map(old_entries).insert(k@, v));
                    assert(e.drop_last() =~= old_entries);
                }
            },
        }
    }
}

/// Facts about `entries_map` on a list with distinct keys.
pub proof fn lemma_entries_map_facts<V>(entries: Seq<(String, V)>)
    requires
        keys_unique(entries),
    ensures
        forall|i: int|
            0 <= i < entries.len() ==> #[trigger] entries_map(entries).contains_key(entries[i].0@)
                && entries_map(entries)[entries[i].0@] == entries[i].1,
        forall|k: Seq<char>| #[trigger]
            entries_map(entries).contains_key(k) == has_key(entries, k),
        entries_map(entries).dom().finite(),
        entries_map(entries).len() == entries.len(),
    decreases entries.len(),
{
    let m = entries_map(entries);
    assert forall|i: int| 0 <= i < entries.len() implies #[trigger] m.contains_key(entries[i].0@)
        && m[entries[i].0@] == entries[i].1 by {
        let k = entries[i].0@;
        assert(has_key(entries, k));
        let j = key_index(entries, k);
        assert(entries[j].0@ == k);
    }
    if entries.len() == 0 {
        assert(m.dom() =~= Set::empty());
    } else {
        let rest = entries.drop_last();
        assert(keys_unique(rest)) by {
            assert forall|a: int, b: int|
                0 <= a < rest.len() && 0 <= b < rest.len() && a != b implies #[trigger] rest[a].0@
                != #[trigger] rest[b].0@ by {
                assert(rest[a] == entries[a]);
                assert(rest[b] == entries[b]);
            }
        }
        lemma_entries_map_facts(rest);
        let last = entries.last().0@;
        assert(m.dom() =~= entries_map(rest).dom().insert(last)) by {
            assert forall|q: Seq<char>| m.dom().contains(q) <==> entries_map(rest).dom().insert(
                last,
            ).contains(q) by {
                if has_key(entries, q) {
                    let j = choose|j: int| 0 <= j < entries.len() && #[trigger] entries[j].0@ == q;
                    if j < rest.len() {
                        assert(rest[j] == entries[j]);
                    }
                }
                if has_key(rest, q) {
                    let j = choose|j: int| 0 <= j < rest.len() && #[trigger] rest[j].0@ == q;
                    assert(rest[j] == entries[j]);
                }
                if q == last {
                    assert(entries[entries.len() - 1].0@ == q);
                }
            }
        }
        assert(!entries_map(rest).dom().contains(last)) by {
            if has_key(rest, last) {
                let j = choose|j: int| 0 <= j < rest.len() && #[trigger] rest[j].0@ == last;
                assert(rest[j] == entries[j]);
            }
        }
    }
}

/// Whether two texts are equal.
pub fn str_eq(a: &str, b: &str) -> (r: bool)
    ensures
        r == (a@ == b@),
{
    let n = a.unicode_len();
    let m = b.unicode_len();
    if n != m {
        return false;
    }
    let av = crate::text::chars_of(a);
    let bv = crate::text::chars_of(b);
    let mut i: usize = 0;
    while i < n
        invariant
            n == av@.len(),
            n == bv@.len(),
            av@ == a@,
            bv@ == b@,
            i <= n,
            forall|j: int| 0 <= j < i ==> av@[j] == bv@[j],
        decreases n - i,
    {
        if av[i] != bv[i] {
            return false;
        }
        i = i + 1;
    }
    assert(a@ =~= b@);
    true
}

impl<V> Table<V> {
    /// The keys, in arrival order.
    pub fn keys(&self) -> (r: Vec<String>)
        requires
            self.wf(),
        ensures
            r@.len() == self.entries().len(),
            forall|i: int| 0 <= i < r@.len() ==> #[trigger] r@[i]@ == self.entries()[i].0@,
            crate::text::texts_distinct(r@),
    {
        let n = self.entries.len();
        let mut r: Vec<String> = Vec::new();
        for i in 0..n
            invariant
                n == self.entries@.len(),
                r@.len() == i,
                forall|j: int| 0 <= j < i ==> #[trigger] r@[j]@ == self.entries@[j].0@,
        {
            r.push(self.entries[i].0.clone());
        }
        r
    }
}

/// The map that inserting `pairs` one after another into an empty table
/// gives: a later pair replaces an earlier one with the same key.
pub open spec fn pairs_map<V>(pairs: Seq<(String, V)>) -> Map<Seq<char>, V>
    decreases pairs.len(),
{
    if pairs.len() == 0 {
        Map::empty()
    } else {
        pairs_map(pairs.drop_last()).insert(pairs.last().0@, pairs.last().1)
    }
}

/// A table holding `pairs`, inserted in order.
pub fn table_from_pairs<V>(pairs: Vec<(String, V)>) -> (t: Table<V>)
    ensures
        t.wf(),
        t@ == pairs_map(pairs@),
{
    let mut t: Table<V> = Table::new();
    let ghost all = pairs@;
    for pr in it: pairs.into_iter()
        invariant
            it.seq() == all,
            t.wf(),
            t@ == pairs_map(all.subrange(0, it.index() as int)),
    {
        let (k, v) = pr;
        proof {
            let i = it.index();
            let pre = all.subrange(0, i + 1);
            assert(pre.drop_last() =~= all.subrange(0, i as int));
            assert(pre.last() == all[i as int]);
        }
        t.insert(k, v);
    }
    let ghost n = all.len();
    assert(all.subrange(0, n as int) =~= all);
    t
}

/// The texts of a list of text pairs.
pub open spec fn text_pairs(pairs: Seq<(String, String)>) -> Seq<(Seq<char>, Seq<char>)> {
    Seq::new(pairs.len(), |i: int| (pairs[i].0@, pairs[i].1@))
}

/// The map from text to text that inserting `pairs` one after another
/// gives: a later pair replaces an earlier one with the same key.
pub open spec fn text_map(pairs: Seq<(Seq<char>, Seq<char>)>) -> Map<Seq<char>, Seq<char>>
    decreases pairs.len(),
{
    if pairs.len() == 0 {
        Map::empty()
    } else {
        text_map(pairs.drop_last()).insert(pairs.last().0, pairs.last().1)
    }
}

/// The texts that a map of strings holds.
pub open spec fn texts_of_map(m: Map<Seq<char>, String>) -> Map<Seq<char>, Seq<char>> {
    m.map_values(|s: String| s@)
}

/// Inserting string pairs and taking the texts gives the map of their texts.
pub proof fn lemma_text_map(pairs: Seq<(String, String)>)
    ensures
        text_map(text_pairs(pairs)) == texts_of_map(pairs_map(pairs)),
    decreases pairs.len(),
{
    if pairs.len() > 0 {
        let rest = pairs.drop_last();
        lemma_text_map(rest);
        assert(text_pairs(pairs).drop_last() =~= text_pairs(rest));
        assert(text_map(text_pairs(pairs)) =~= texts_of_map(pairs_map(pairs)));
    } else {
        assert(text_map(text_pairs(pairs)) =~= texts_of_map(pairs_map(pairs)));
    }
}

/// With distinct keys, inserting the entries in order gives the map they
/// stand for.
pub proof fn lemma_pairs_map_unique<V>(entries: Seq<(String, V)>)
    requires
        keys_unique(entries),
    ensures
        pairs_map(entries) == entries_map(entries),
    decreases entries.len(),
{
    if entries.len() == 0 {
        assert(entries_map(entries) =~= Map::<Seq<char>, V>::empty());
    } else {
        let rest = entries.drop_last();
        assert(keys_unique(rest)) by {
            assert forall|a: int, b: int|
                0 <= a < rest.len() && 0 <= b < rest.len() && a != b implies #[trigger] rest[a].0@
                != #[trigger] rest[b].0@ by {
                assert(rest[a] == entries[a]);
                assert(rest[b] == entries[b]);
            }
        }
        lemma_pairs_map_unique(rest);
        lemma_entries_map_facts(entries);
        lemma_entries_map_facts(rest);
        let last = entries.last();
        assert forall|k: Seq<char>| #[trigger] has_key(entries, k) == (has_key(rest, k) || k == last.0@) by {
            if has_key(entries, k) {
                let j = choose|j: int| 0 <= j < entries.len() && #[trigger] entries[j].0@ == k;
                if j < rest.len() {
                    assert(rest[j] == entries[j]);
                }
            }
            if has_key(rest, k) {
                let j = choose|j: int| 0 <= j < rest.len() && #[trigger] rest[j].0@ == k;
                assert(rest[j] == entries[j]);
            }
            if k == last.0@ {
                assert(entries[entries.len() - 1].0@ == k);
            }
        }
        assert forall|k: Seq<char>| #[trigger] has_key(rest, k) implies entries_map(entries)[k]
            == entries_map(rest)[k] by {
            let j = choose|j: int| 0 <= j < rest.len() && #[trigger] rest[j].0@ == k;
            assert(rest[j] == entries[j]);
        }
        assert(entries_map(entries)[last.0@] == last.1) by {
            assert(entries[entries.len() - 1] == last);
        }
        assert(entries_map(entries) =~= entries_map(rest).insert(last.0@, last.1));
    }
}

impl Table<String> {
    /// The entries as a list of pairs, in order.
    pub fn to_pairs(&self) -> (r: Vec<(String, String)>)
        requires
            self.wf(),
        ensures
            r@ == self.entries(),
            keys_unique(r@),
            text_map(text_pairs(r@)) == texts_of_map(self@),
    {
        let n = self.entries.len();
        let mut r: Vec<(String, String)> = Vec::new();
        for i in 0..n
            invariant
                n == self.entries@.len(),
                r@ == self.entries@.subrange(0, i as int),
        {
            let (k, v) = &self.entries[i];
            r.push((k.clone(), v.clone()));
            proof {
                assert(r@ =~= self.entries@.subrange(0, i + 1));
            }
        }
        proof {
            assert(r@ =~= self.entries@);
            lemma_pairs_map_unique(r@);
            lemma_text_map(r@);
        }
        r
    }
}

/// The map that inserting `pairs` one after another gives: a later pair
/// replaces an earlier one with the same key.
pub open spec fn assoc_map<K, V>(pairs: Seq<(K, V)>) -> Map<K, V>
    decreases pairs.len(),
{
    if pairs.len() == 0 {
        Map::empty()
    } else {
        assoc_map(pairs.drop_last()).insert(pairs.last().0, pairs.last().1)
    }
}

/// Whether no two pairs carry the same key.
pub open spec fn assoc_distinct<K, V>(pairs: Seq<(K, V)>) -> bool {
    forall|a: int, b: int|
        0 <= a < pairs.len() && 0 <= b < pairs.len() && a != b ==> #[trigger] pairs[a].0
            != #[trigger] pairs[b].0
}

/// Replacing the value of a key that occurs once replaces it in the map.
pub proof fn lemma_assoc_update<K, V>(p: Seq<(K, V)>, j: int, v: V)
    requires
        0 <= j < p.len(),
        assoc_distinct(p),
    ensures
        assoc_map(p.update(j, (p[j].0, v))) == assoc_map(p).insert(p[j].0, v),
    decreases p.len(),
{
    let c = p[j].0;
    let u = p.update(j, (c, v));
    if j == p.len() - 1 {
        assert(u.drop_last() =~= p.drop_last());
        assert(assoc_map(u) =~= assoc_map(p).insert(c, v));
    } else {
        let q = p.drop_last();
        assert(assoc_distinct(q)) by {
            assert forall|a: int, b: int|
                0 <= a < q.len() && 0 <= b < q.len() && a != b implies #[trigger] q[a].0
                != #[trigger] q[b].0 by {
                assert(q[a] == p[a]);
                assert(q[b] == p[b]);
            }
        }
        assert(q[j] == p[j]);
        lemma_assoc_update(q, j, v);
        assert(u.drop_last() =~= q.update(j, (c, v)));
        assert(u.last() == p.last());
        assert(p.last().0 != c) by {
            assert(p[p.len() - 1] == p.last());
        }
        assert(assoc_map(u) =~= assoc_map(p).insert(c, v));
    }
}

/// Pushing a pair with a new key keeps the keys distinct and inserts it in
/// the map.
pub proof fn lemma_assoc_push<K, V>(p: Seq<(K, V)>, k: K, v: V)
    requires
        assoc_distinct(p),
        forall|j: int| 0 <= j < p.len() ==> #[trigger] p[j].0 != k,
    ensures
        assoc_distinct(p.push((k, v))),
        assoc_map(p.push((k, v))) == assoc_map(p).insert(k, v),
{
    let u = p.push((k, v));
    assert(u.drop_last() =~= p);
    assert forall|a: int, b: int|
        0 <= a < u.len() && 0 <= b < u.len() && a != b implies #[trigger] u[a].0
        != #[trigger] u[b].0 by {
        if a < p.len() {
            assert(u[a] == p[a]);
        }
        if b < p.len() {
            assert(u[b] == p[b]);
        }
    }
}

/// Replacing the value at a position keeps the keys distinct.
pub proof fn lemma_assoc_update_distinct<K, V>(p: Seq<(K, V)>, j: int, v: V)
    requires
        0 <= j < p.len(),
        assoc_distinct(p),
    ensures
        assoc_distinct(p.update(j, (p[j].0, v))),
{
    let u = p.update(j, (p[j].0, v));
    assert forall|a: int, b: int|
        0 <= a < u.len() && 0 <= b < u.len() && a != b implies #[trigger] u[a].0
        != #[trigger] u[b].0 by {
        assert(u[a].0 == p[a].0);
        assert(u[b].0 == p[b].0);
    }
}

/// Pairs with the same keys, position by position, and values mapped by
/// `f` give the map with its values mapped by `f`.
pub proof fn lemma_assoc_map_values<K, V, W>(p: Seq<(K, V)>, q: Seq<(K, W)>, f: spec_fn(V) -> W)
    requires
        p.len() == q.len(),
        forall|i: int| 0 <= i < p.len() ==> #[trigger] q[i] == (p[i].0, f(p[i].1)),
    ensures
        assoc_map(q) == assoc_map(p).map_values(f),
    decreases p.len(),
{
    if p.len() > 0 {
        let p1 = p.drop_last();
        let q1 = q.drop_last();
        assert forall|i: int| 0 <= i < p1.len() implies #[trigger] q1[i] == (p1[i].0, f(p1[i].1)) by {
            assert(q1[i] == q[i]);
            assert(p1[i] == p[i]);
        }
        lemma_assoc_map_values(p1, q1, f);
        assert(q.last() == (p.last().0, f(p.last().1))) by {
            assert(q[q.len() - 1] == (p[p.len() - 1].0, f(p[p.len() - 1].1)));
        }
    }
    assert(assoc_map(q) =~= assoc_map(p).map_values(f));
}

/// The keys of the map are the keys of the pairs.
pub proof fn lemma_assoc_keys<K, V>(p: Seq<(K, V)>)
    ensures
        forall|k: K|
            #[trigger] assoc_map(p).contains_key(k) <==> exists|j: int|
                0 <= j < p.len() && #[trigger] p[j].0 == k,
    decreases p.len(),
{
    if p.len() > 0 {
        let q = p.drop_last();
        lemma_assoc_keys(q);
        assert forall|k: K| #[trigger] assoc_map(p).contains_key(k) <==> exists|j: int|
            0 <= j < p.len() && #[trigger] p[j].0 == k by {
            if assoc_map(p).contains_key(k) {
                if k == p.last().0 {
                    assert(p[p.len() - 1].0 == k);
                } else {
                    assert(assoc_map(q).contains_key(k));
                    let j = choose|j: int| 0 <= j < q.len() && #[trigger] q[j].0 == k;
                    assert(p[j] == q[j]);
                }
            }
            if exists|j: int| 0 <= j < p.len() && #[trigger] p[j].0 == k {
                let j = choose|j: int| 0 <= j < p.len() && #[trigger] p[j].0 == k;
                if j < q.len() {
                    assert(q[j] == p[j]);
                    assert(assoc_map(q).contains_key(k));
                }
            }
        }
    }
}

/// With distinct keys, the map holds each pair.
pub proof fn lemma_assoc_key_at<K, V>(p: Seq<(K, V)>, j: int)
    requires
        0 <= j < p.len(),
        assoc_distinct(p),
    ensures
        assoc_map(p).contains_key(p[j].0),
        assoc_map(p)[p[j].0] == p[j].1,
    decreases p.len(),
{
    if j < p.len() - 1 {
        let q = p.drop_last();
        assert(assoc_distinct(q)) by {
            assert forall|a: int, b: int|
                0 <= a < q.len() && 0 <= b < q.len() && a != b implies #[trigger] q[a].0
                != #[trigger] q[b].0 by {
                assert(q[a] == p[a]);
                assert(q[b] == p[b]);
            }
        }
        assert(q[j] == p[j]);
        lemma_assoc_key_at(q, j);
        assert(p.last().0 != p[j].0) by {
            assert(p[p.len() - 1] == p.last());
        }
    }
}

/// Pairs with distinct keys have distinct key texts.
pub proof fn lemma_text_pairs_distinct(pairs: Seq<(String, String)>)
    requires
        keys_unique(pairs),
    ensures
        assoc_distinct(text_pairs(pairs)),
{
    let t = text_pairs(pairs);
    assert forall|a: int, b: int|
        0 <= a < t.len() && 0 <= b < t.len() && a != b implies #[trigger] t[a].0
        != #[trigger] t[b].0 by {
        assert(t[a].0 == pairs[a].0@);
        assert(t[b].0 == pairs[b].0@);
    }
}

/// The map of a list of pairs holds exactly their keys: each pair's key
/// is a key of the map, with the value of the last pair that carries it,
/// and every key of the map is the key of some pair.
pub proof fn law_assoc_map<K, V>(p: Seq<(K, V)>)
    ensures
        forall|i: int| 0 <= i < p.len() ==> #[trigger] assoc_map(p).contains_key(p[i].0),
        forall|i: int|
            0 <= i < p.len() && (forall|j: int| i < j < p.len() ==> p[j].0 != p[i].0)
                ==> #[trigger] assoc_map(p)[p[i].0] == p[i].1,
        forall|k: K|
            #[trigger] assoc_map(p).contains_key(k) ==> exists|i: int| 0 <= i < p.len() && p[i].0 == k,
    decreases p.len(),
{
    if p.len() > 0 {
        let q = p.drop_last();
        let n = p.len();
        law_assoc_map(q);
        assert forall|i: int| 0 <= i < n implies #[trigger] assoc_map(p).contains_key(p[i].0) by {
            if i < n - 1 {
                assert(q[i] == p[i]);
                assert(assoc_map(q).contains_key(q[i].0));
            }
        }
        assert forall|i: int|
            0 <= i < n && (forall|j: int| i < j < n ==> p[j].0 != p[i].0) implies #[trigger] assoc_map(
            p,
        )[p[i].0] == p[i].1 by {
            if i < n - 1 {
                assert(q[i] == p[i]);
                assert(p[n - 1].0 != p[i].0);
                assert forall|j: int| i < j < q.len() implies q[j].0 != q[i].0 by {
                    assert(q[j] == p[j]);
                }
                assert(assoc_map(q)[q[i].0] == q[i].1);
            }
        }
        assert forall|k: K| #[trigger] assoc_map(p).contains_key(k) implies exists|i: int|
            0 <= i < p.len() && p[i].0 == k by {
            if k == p.last().0 {
                assert(p[n - 1].0 == k);
            } else {
                assert(assoc_map(q).contains_key(k));
                let i = choose|i: int| 0 <= i < q.len() && q[i].0 == k;
                assert(q[i] == p[i]);
            }
        }
    }
}

/// Inserting text pairs one after another is the map of the pairs.
proof fn lemma_text_map_assoc(p: Seq<(Seq<char>, Seq<char>)>)
    ensures
        text_map(p) == assoc_map(p),
    decreases p.len(),
{
    if p.len() > 0 {
        lemma_text_map_assoc(p.drop_last());
    }
}

/// The map of text pairs holds exactly their keys, each with the text of
/// the last pair that carries it.
pub proof fn law_text_map(p: Seq<(Seq<char>, Seq<char>)>)
    ensures
        forall|i: int| 0 <= i < p.len() ==> #[trigger] text_map(p).contains_key(p[i].0),
        forall|i: int|
            0 <= i < p.len() && (forall|j: int| i < j < p.len() ==> p[j].0 != p[i].0)
                ==> #[trigger] text_map(p)[p[i].0] == p[i].1,
        forall|k: Seq<char>|
            #[trigger] text_map(p).contains_key(k) ==> exists|i: int| 0 <= i < p.len() && p[i].0 == k,
{
    lemma_text_map_assoc(p);
    law_assoc_map(p);
}

/// The keys and values of string pairs, as texts.
pub open spec fn keyed_pairs<V>(pairs: Seq<(String, V)>) -> Seq<(Seq<char>, V)> {
    Seq::new(pairs.len(), |i: int| (pairs[i].0@, pairs[i].1))
}

/// Inserting string pairs one after another is the map of their texts.
proof fn lemma_pairs_map_assoc<V>(p: Seq<(String, V)>)
    ensures
        pairs_map(p) == assoc_map(keyed_pairs(p)),
    decreases p.len(),
{
    if p.len() > 0 {
        lemma_pairs_map_assoc(p.drop_last());
        assert(keyed_pairs(p).drop_last() =~= keyed_pairs(p.drop_last()));
    }
}

/// The map of string pairs holds exactly their keys, each with the value of
/// the last pair that carries it.
pub proof fn law_pairs_map<V>(p: Seq<(String, V)>)
    ensures
        forall|i: int| 0 <= i < p.len() ==> #[trigger] pairs_map(p).contains_key(p[i].0@),
        forall|i: int|
            0 <= i < p.len() && (forall|j: int| i < j < p.len() ==> p[j].0@ != p[i].0@)
                ==> #[trigger] pairs_map(p)[p[i].0@] == p[i].1,
        forall|k: Seq<char>|
            #[trigger] pairs_map(p).contains_key(k) ==> exists|i: int| 0 <= i < p.len() && p[i].0@ == k,
{
    lemma_pairs_map_assoc(p);
    let q = keyed_pairs(p);
    law_assoc_map(q);
    assert forall|i: int| 0 <= i < p.len() implies #[trigger] pairs_map(p).contains_key(p[i].0@) by {
        assert(q[i].0 == p[i].0@);
    }
    assert forall|i: int|
        0 <= i < p.len() && (forall|j: int| i < j < p.len() ==> p[j].0@ != p[i].0@) implies #[trigger] pairs_map(
        p,
    )[p[i].0@] == p[i].1 by {
        assert(q[i].0 == p[i].0@);
        assert forall|j: int| i < j < q.len() implies q[j].0 != q[i].0 by {
            assert(q[j].0 == p[j].0@);
        }
    }
    assert forall|k: Seq<char>| #[trigger] pairs_map(p).contains_key(k) implies exists|i: int|
        0 <= i < p.len() && p[i].0@ == k by {
        let i = choose|i: int| 0 <= i < q.len() && q[i].0 == k;
        assert(q[i].0 == p[i].0@);
    }
}

} // verus!
