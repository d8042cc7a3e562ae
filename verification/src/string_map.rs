//! A text-to-text map kept sorted by key, so that two maps with the same contents
//! are stored, compared and listed identically whatever order they were filled in.
use vstd::prelude::*;
use crate::text::{
    compare_text, lemma_text_lt_irreflexive, lemma_text_lt_total, lemma_text_lt_transitive, text_eq,
    text_lt, TextOrder,
};

verus! {

/// Key-value pairs of texts whose keys strictly increase in code-point order.
pub open spec fn keys_increasing(ps: Seq<(Seq<char>, Seq<char>)>) -> bool {
    forall|i: int, j: int|
        0 <= i < j < ps.len() ==> text_lt(#[trigger] ps[i].0, #[trigger] ps[j].0)
}

/// Whether some pair of `ps` has key `k`.
pub open spec fn has_key(ps: Seq<(Seq<char>, Seq<char>)>, k: Seq<char>) -> bool {
    exists|i: int| 0 <= i < ps.len() && ps[i].0 == k
}

/// A position of `ps` whose key is `k`, when there is one.
pub open spec fn key_index(ps: Seq<(Seq<char>, Seq<char>)>, k: Seq<char>) -> int {
    choose|i: int| 0 <= i < ps.len() && ps[i].0 == k
}

/// The map that a list of pairs with distinct keys stands for.
pub open spec fn pairs_to_map(ps: Seq<(Seq<char>, Seq<char>)>) -> Map<Seq<char>, Seq<char>> {
    Map::new(|k: Seq<char>| has_key(ps, k), |k: Seq<char>| ps[key_index(ps, k)].1)
}

/// In a key-increasing list, different positions hold different keys.
pub proof fn lemma_distinct_keys(ps: Seq<(Seq<char>, Seq<char>)>, i: int, j: int)
    requires
        keys_increasing(ps),
        0 <= i < ps.len(),
        0 <= j < ps.len(),
        i != j,
    ensures
        ps[i].0 != ps[j].0,
{
    lemma_text_lt_irreflexive(ps[i].0);
    if i < j {
        assert(text_lt(ps[i].0, ps[j].0));
    } else {
        assert(text_lt(ps[j].0, ps[i].0));
    }
}

/// Each pair of a key-increasing list is an entry of its map.
pub proof fn lemma_map_at(ps: Seq<(Seq<char>, Seq<char>)>, idx: int)
    requires
        keys_increasing(ps),
        0 <= idx < ps.len(),
    ensures
        pairs_to_map(ps).contains_key(ps[idx].0),
        pairs_to_map(ps)[ps[idx].0] == ps[idx].1,
{
    let k = ps[idx].0;
    assert(has_key(ps, k));
    let c = key_index(ps, k);
    if c != idx {
        lemma_distinct_keys(ps, c, idx);
    }
}

/// Replacing the value at a position updates that key in the map.
proof fn lemma_update_map(ps: Seq<(Seq<char>, Seq<char>)>, i: int, v: Seq<char>)
    requires
        keys_increasing(ps),
        0 <= i < ps.len(),
    ensures
        keys_increasing(ps.update(i, (ps[i].0, v))),
        pairs_to_map(ps.update(i, (ps[i].0, v))) == pairs_to_map(ps).insert(ps[i].0, v),
{
    let k = ps[i].0;
    let qs = ps.update(i, (k, v));
    assert(keys_increasing(qs)) by {
        assert forall|a: int, b: int| 0 <= a < b < qs.len() implies text_lt(
            #[trigger] qs[a].0,
            #[trigger] qs[b].0,
        ) by {
            assert(qs[a].0 == ps[a].0);
            assert(qs[b].0 == ps[b].0);
        }
    }
    let m = pairs_to_map(ps).insert(k, v);
    assert forall|key: Seq<char>| #[trigger] pairs_to_map(qs).contains_key(key) == m.contains_key(key) by {
        if has_key(qs, key) {
            let j = choose|j: int| 0 <= j < qs.len() && qs[j].0 == key;
            assert(ps[j].0 == key);
        }
        if has_key(ps, key) {
            let j = choose|j: int| 0 <= j < ps.len() && ps[j].0 == key;
            assert(qs[j].0 == key);
        }
    }
    assert forall|key: Seq<char>| #[trigger] m.contains_key(key) implies pairs_to_map(qs)[key] == m[key] by {
        if key == k {
            lemma_map_at(qs, i);
        } else {
            let j = choose|j: int| 0 <= j < ps.len() && ps[j].0 == key;
            lemma_map_at(ps, j);
            lemma_map_at(qs, j);
        }
    }
    assert(pairs_to_map(qs) =~= m);
}

/// Inserting a new key at its sorted position adds it to the map.
proof fn lemma_insert_map(ps: Seq<(Seq<char>, Seq<char>)>, i: int, k: Seq<char>, v: Seq<char>)
    requires
        keys_increasing(ps),
        0 <= i <= ps.len(),
        forall|j: int| 0 <= j < i ==> text_lt(#[trigger] ps[j].0, k),
        forall|j: int| i <= j < ps.len() ==> text_lt(k, #[trigger] ps[j].0),
    ensures
        keys_increasing(ps.insert(i, (k, v))),
        pairs_to_map(ps.insert(i, (k, v))) == pairs_to_map(ps).insert(k, v),
{
    let qs = ps.insert(i, (k, v));
    assert(keys_increasing(qs)) by {
        assert forall|a: int, b: int| 0 <= a < b < qs.len() implies text_lt(
            #[trigger] qs[a].0,
            #[trigger] qs[b].0,
        ) by {
            if b < i {
                assert(qs[a] == ps[a] && qs[b] == ps[b]);
            } else if b == i {
                assert(qs[a] == ps[a]);
            } else if a < i {
                assert(qs[a] == ps[a] && qs[b] == ps[b - 1]);
                lemma_text_lt_transitive(ps[a].0, k, ps[b - 1].0);
            } else if a == i {
                assert(qs[b] == ps[b - 1]);
            } else {
                assert(qs[a] == ps[a - 1] && qs[b] == ps[b - 1]);
            }
        }
    }
    let m = pairs_to_map(ps).insert(k, v);
    assert forall|key: Seq<char>| #[trigger] pairs_to_map(qs).contains_key(key) == m.contains_key(key) by {
        if has_key(qs, key) {
            let j = choose|j: int| 0 <= j < qs.len() && qs[j].0 == key;
            if j < i {
                assert(ps[j].0 == key);
            } else if j > i {
                assert(ps[j - 1].0 == key);
            }
        }
        if has_key(ps, key) {
            let j = choose|j: int| 0 <= j < ps.len() && ps[j].0 == key;
            if j < i {
                assert(qs[j].0 == key);
            } else {
                assert(qs[j + 1].0 == key);
            }
        }
        if key == k {
            assert(qs[i].0 == key);
        }
    }
    assert forall|key: Seq<char>| #[trigger] m.contains_key(key) implies pairs_to_map(qs)[key] == m[key] by {
        if key == k {
            lemma_map_at(qs, i);
        } else {
            let j = choose|j: int| 0 <= j < ps.len() && ps[j].0 == key;
            lemma_map_at(ps, j);
            if j < i {
                assert(qs[j] == ps[j]);
                lemma_map_at(qs, j);
            } else {
                assert(qs[j + 1] == ps[j]);
                lemma_map_at(qs, j + 1);
            }
        }
    }
    assert(pairs_to_map(qs) =~= m);
}

/// Dropping the first pair of a key-increasing list removes its key from the map.
proof fn lemma_drop_first_map(ps: Seq<(Seq<char>, Seq<char>)>)
    requires
        keys_increasing(ps),
        ps.len() > 0,
    ensures
        keys_increasing(ps.drop_first()),
        pairs_to_map(ps.drop_first()) == pairs_to_map(ps).remove(ps[0].0),
{
    let qs = ps.drop_first();
    assert(keys_increasing(qs)) by {
        assert forall|a: int, b: int| 0 <= a < b < qs.len() implies text_lt(
            #[trigger] qs[a].0,
            #[trigger] qs[b].0,
        ) by {
            assert(qs[a] == ps[a + 1] && qs[b] == ps[b + 1]);
        }
    }
    let m = pairs_to_map(ps).remove(ps[0].0);
    assert forall|key: Seq<char>| #[trigger] pairs_to_map(qs).contains_key(key) == m.contains_key(key) by {
        if has_key(qs, key) {
            let j = choose|j: int| 0 <= j < qs.len() && qs[j].0 == key;
            assert(ps[j + 1].0 == key);
            lemma_distinct_keys(ps, 0, j + 1);
        }
        if has_key(ps, key) && key != ps[0].0 {
            let j = choose|j: int| 0 <= j < ps.len() && ps[j].0 == key;
            assert(qs[j - 1].0 == key);
        }
    }
    assert forall|key: Seq<char>| #[trigger] m.contains_key(key) implies pairs_to_map(qs)[key] == m[key] by {
        let j = choose|j: int| 0 <= j < ps.len() && ps[j].0 == key;
        lemma_map_at(ps, j);
        assert(qs[j - 1] == ps[j]);
        lemma_map_at(qs, j - 1);
    }
    assert(pairs_to_map(qs) =~= m);
}

/// Two key-increasing lists that stand for the same map are the same list.
pub proof fn lemma_sorted_pairs_unique(
    ps: Seq<(Seq<char>, Seq<char>)>,
    qs: Seq<(Seq<char>, Seq<char>)>,
)
    requires
        keys_increasing(ps),
        keys_increasing(qs),
        pairs_to_map(ps) == pairs_to_map(qs),
    ensures
        ps == qs,
    decreases ps.len(),
{
    if ps.len() == 0 {
        if qs.len() > 0 {
            lemma_map_at(qs, 0);
        }
        assert(ps =~= qs);
    } else {
        lemma_map_at(ps, 0);
        assert(has_key(qs, ps[0].0));
        let i = choose|i: int| 0 <= i < qs.len() && qs[i].0 == ps[0].0;
        lemma_map_at(qs, 0);
        assert(has_key(ps, qs[0].0));
        let j = choose|j: int| 0 <= j < ps.len() && ps[j].0 == qs[0].0;
        lemma_text_lt_total(ps[0].0, qs[0].0);
        if i != 0 && j != 0 {
            assert(text_lt(qs[0].0, qs[i].0));
            assert(text_lt(ps[0].0, ps[j].0));
        } else if i != 0 {
            lemma_distinct_keys(qs, 0, i);
        } else if j != 0 {
            lemma_distinct_keys(ps, 0, j);
        }
        assert(ps[0].0 == qs[0].0);
        lemma_map_at(qs, 0);
        assert(ps[0] == qs[0]);
        lemma_drop_first_map(ps);
        lemma_drop_first_map(qs);
        lemma_sorted_pairs_unique(ps.drop_first(), qs.drop_first());
        assert(ps =~= seq![ps[0]] + ps.drop_first());
        assert(qs =~= seq![qs[0]] + qs.drop_first());
    }
}

/// A map from texts to texts, stored sorted by key.
#[derive(Debug, PartialEq, Eq)]
pub struct StringMap {
    entries: Vec<(String, String)>,
}

/// The texts of stored pairs.
spec fn stored_pairs(entries: Seq<(String, String)>) -> Seq<(Seq<char>, Seq<char>)> {
    entries.map_values(|e: (String, String)| (e.0@, e.1@))
}

impl StringMap {
    /// The stored pairs, in key order.
    pub closed spec fn pairs(self) -> Seq<(Seq<char>, Seq<char>)> {
        stored_pairs(self.entries@)
    }

    /// The keys, in increasing order.
    pub open spec fn keys(self) -> Seq<Seq<char>> {
        self.pairs().map_values(|p: (Seq<char>, Seq<char>)| p.0)
    }

    /// The stored pairs are sorted by strictly increasing key; every `StringMap`
    /// keeps this invariant.
    #[verifier::type_invariant]
    pub open spec fn wf(self) -> bool {
        keys_increasing(self.pairs())
    }
}

impl View for StringMap {
    type V = Map<Seq<char>, Seq<char>>;

    open spec fn view(&self) -> Map<Seq<char>, Seq<char>> {
        pairs_to_map(self.pairs())
    }
}

impl StringMap {
    /// An empty map.
    pub fn new() -> (m: StringMap)
        ensures
            m.wf(),
            m@ == Map::<Seq<char>, Seq<char>>::empty(),
            m.pairs().len() == 0,
    {
        let m = StringMap { entries: Vec::new() };
        assert(m.pairs() =~= Seq::<(Seq<char>, Seq<char>)>::empty());
        assert(m@ =~= Map::<Seq<char>, Seq<char>>::empty());
        m
    }

    /// Number of keys.
    pub fn len(&self) -> (n: usize)
        ensures
            n == self.pairs().len(),
    {
        self.entries.len()
    }

    /// Whether the map holds no key.
    pub fn is_empty(&self) -> (r: bool)
        ensures
            r == (self@ == Map::<Seq<char>, Seq<char>>::empty()),
            r == (self.pairs().len() == 0),
    {
        proof {
            use_type_invariant(self);
        }
        if self.entries.len() == 0 {
            assert(self@ =~= Map::<Seq<char>, Seq<char>>::empty());
            true
        } else {
            proof {
                lemma_map_at(self.pairs(), 0);
            }
            false
        }
    }

    /// The key at position `i` in key order.
    pub fn key_at(&self, i: usize) -> (k: &str)
        requires
            i < self.pairs().len(),
        ensures
            k@ == self.pairs()[i as int].0,
    {
        self.entries[i].0.as_str()
    }

    /// The value at position `i` in key order.
    pub fn value_at(&self, i: usize) -> (v: &str)
        requires
            i < self.pairs().len(),
        ensures
            v@ == self.pairs()[i as int].1,
    {
        self.entries[i].1.as_str()
    }

    /// The value stored under `key`.
    pub fn get(&self, key: &str) -> (r: Option<&String>)
        ensures
            match r {
                Some(v) => self@.contains_key(key@) && self@[key@] == v@,
                None => !self@.contains_key(key@),
            },
    {
        proof {
            use_type_invariant(self);
        }
        let mut i: usize = 0;
        while i < self.entries.len()
            invariant
                self.wf(),
                i <= self.pairs().len(),
                forall|j: int| 0 <= j < i ==> self.pairs()[j].0 != key@,
            decreases self.entries.len() - i,
        {
            if text_eq(self.entries[i].0.as_str(), key) {
                proof {
                    lemma_map_at(self.pairs(), i as int);
                }
                return Some(&self.entries[i].1);
            }
            i = i + 1;
        }
        None
    }

    /// Sets `key` to `value`, replacing what `key` held before.
    pub fn insert(&mut self, key: String, value: String)
        ensures
            final(self).wf(),
            final(self)@ == old(self)@.insert(key@, value@),
    {
        proof {
            use_type_invariant(&*self);
        }
        let mut entries: Vec<(String, String)> = Vec::new();
        std::mem::swap(&mut entries, &mut self.entries);
        let ghost ps = stored_pairs(entries@);
        assert(ps == old(self).pairs());
        let n = entries.len();
        let mut i: usize = 0;
        while i < n && compare_text(entries[i].0.as_str(), key.as_str()) == TextOrder::Less
            invariant
                n == entries@.len(),
                ps == stored_pairs(entries@),
                i <= n,
                forall|j: int| 0 <= j < i ==> text_lt(#[trigger] ps[j].0, key@),
            decreases n - i,
        {
            i = i + 1;
        }
        if i < n && text_eq(entries[i].0.as_str(), key.as_str()) {
            proof {
                lemma_update_map(ps, i as int, value@);
            }
            entries[i] = (key, value);
            assert(stored_pairs(entries@) =~= ps.update(i as int, (ps[i as int].0, value@)));
        } else {
            proof {
                if i < n {
                    lemma_text_lt_total(ps[i as int].0, key@);
                }
                assert forall|j: int| i <= j < ps.len() implies text_lt(key@, #[trigger] ps[j].0) by {
                    if j > i {
                        lemma_text_lt_transitive(key@, ps[i as int].0, ps[j].0);
                    }
                }
                lemma_insert_map(ps, i as int, key@, value@);
            }
            let ghost kv = (key@, value@);
            entries.insert(i, (key, value));
            assert(stored_pairs(entries@) =~= ps.insert(i as int, kv));
        }
        self.entries = entries;
        proof {
            use_type_invariant(&*self);
        }
    }
}

impl Clone for StringMap {
    /// A copy holding the same pairs in the same order.
    fn clone(&self) -> (copy: Self)
        ensures
            copy.pairs() == self.pairs(),
    {
        proof {
            use_type_invariant(self);
        }
        let mut entries: Vec<(String, String)> = Vec::new();
        let mut i: usize = 0;
        while i < self.entries.len()
            invariant
                i <= self.entries@.len(),
                entries@.len() == i,
                stored_pairs(entries@) == stored_pairs(self.entries@).take(i as int),
            decreases self.entries.len() - i,
        {
            let ghost before = entries@;
            entries.push((self.entries[i].0.clone(), self.entries[i].1.clone()));
            assert forall|j: int| 0 <= j <= i implies #[trigger] stored_pairs(entries@)[j]
                == stored_pairs(self.entries@)[j] by {
                if j < i {
                    assert(entries@[j] == before[j]);
                    assert(stored_pairs(before)[j] == stored_pairs(self.entries@).take(i as int)[j]);
                }
            }
            assert(stored_pairs(entries@) =~= stored_pairs(self.entries@).take(i + 1));
            i = i + 1;
        }
        assert(stored_pairs(self.entries@).take(self.entries@.len() as int) =~= stored_pairs(
            self.entries@,
        ));
        StringMap { entries }
    }
}

/// Maps with the same contents are stored in the same order: how a map was filled
/// in leaves no trace, so comparing two maps compares their contents.
pub proof fn lemma_same_contents_same_order(a: StringMap, b: StringMap)
    requires
        a.wf(),
        b.wf(),
        a@ == b@,
    ensures
        a.pairs() == b.pairs(),
        a.keys() == b.keys(),
{
    lemma_sorted_pairs_unique(a.pairs(), b.pairs());
}

} // verus!
