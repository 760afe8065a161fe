//! Maps whose keys are texts.

use crate::text;
use vstd::hash_map::StringHashMap;
use vstd::prelude::*;

verus! {

/// The keys of a sequence of entries.
pub open spec fn keys_of<V>(entries: Seq<(String, V)>) -> Seq<Seq<char>> {
    Seq::new(entries.len(), |i: int| entries[i].0@)
}

/// The map that a sequence of entries without a repeated key stands for.
pub open spec fn map_of<V>(entries: Seq<(String, V)>) -> Map<Seq<char>, V> {
    Map::new(
        |key: Seq<char>| keys_of(entries).contains(key),
        |key: Seq<char>| entries[keys_of(entries).index_of(key)].1,
    )
}

/// Whether every key comes before all that follow it.
pub open spec fn ascending(keys: Seq<Seq<char>>) -> bool {
    forall|i: int, j: int|
        #![trigger keys[i], keys[j]]
        0 <= i < j < keys.len() ==> text::text_precedes(keys[i], keys[j])
}

proof fn lemma_ascending_is_unique(keys: Seq<Seq<char>>)
    requires
        ascending(keys),
    ensures
        keys.no_duplicates(),
{
    assert forall|i: int, j: int| 0 <= i < keys.len() && 0 <= j < keys.len() && i != j implies keys[i]
        != keys[j] by {
        if i < j {
            text::lemma_precedes_irreflexive(keys[i]);
        } else {
            text::lemma_precedes_irreflexive(keys[j]);
        }
    }
}

proof fn lemma_lookup<V>(entries: Seq<(String, V)>, i: int)
    requires
        keys_of(entries).no_duplicates(),
        0 <= i < entries.len(),
    ensures
        map_of(entries).contains_key(entries[i].0@),
        map_of(entries)[entries[i].0@] == entries[i].1,
{
    let keys = keys_of(entries);
    assert(keys[i] == entries[i].0@);
    assert(keys.contains(keys[i]));
    let k = keys.index_of(keys[i]);
    assert(keys[k] == keys[i]);
}

proof fn lemma_replace<V>(before: Seq<(String, V)>, i: int, value: V)
    requires
        keys_of(before).no_duplicates(),
        0 <= i < before.len(),
    ensures
        keys_of(before.update(i, (before[i].0, value))) == keys_of(before),
        map_of(before.update(i, (before[i].0, value))) == map_of(before).insert(
            before[i].0@,
            value,
        ),
{
    let after = before.update(i, (before[i].0, value));
    let keys = keys_of(before);
    assert(keys_of(after) =~= keys);
    lemma_lookup(after, i);
    assert(map_of(after) =~= map_of(before).insert(before[i].0@, value)) by {
        assert forall|key: Seq<char>| keys.contains(key) implies map_of(after)[key] == map_of(
            before,
        ).insert(before[i].0@, value)[key] by {
            let k = keys.index_of(key);
            assert(keys[k] == key);
            lemma_lookup(before, k);
            lemma_lookup(after, k);
        }
    }
}

proof fn lemma_add<V>(before: Seq<(String, V)>, i: int, entry: (String, V))
    requires
        keys_of(before).no_duplicates(),
        !keys_of(before).contains(entry.0@),
        0 <= i <= before.len(),
    ensures
        keys_of(before.insert(i, entry)) == keys_of(before).insert(i, entry.0@),
        keys_of(before.insert(i, entry)).no_duplicates(),
        map_of(before.insert(i, entry)) == map_of(before).insert(entry.0@, entry.1),
{
    let after = before.insert(i, entry);
    let keys = keys_of(before);
    assert(keys_of(after) =~= keys.insert(i, entry.0@));
    assert forall|a: int, b: int| 0 <= a < b < after.len() implies keys_of(after)[a] != keys_of(
        after,
    )[b] by {
        let x = if a < i { a } else { a - 1 };
        let y = if b < i { b } else { b - 1 };
        if a != i && b != i {
            assert(keys[x] != keys[y]);
        } else if a == i {
            assert(keys.contains(keys[y]));
        } else {
            assert(keys.contains(keys[x]));
        }
    }
    assert(keys_of(after).no_duplicates());
    lemma_lookup(after, i);
    assert(map_of(after) =~= map_of(before).insert(entry.0@, entry.1)) by {
        assert forall|key: Seq<char>| keys_of(after).contains(key) == (keys.contains(key) || key
            == entry.0@) by {
            if keys.contains(key) {
                let k = keys.index_of(key);
                assert(keys_of(after)[if k < i { k } else { k + 1 }] == key);
            }
            if keys_of(after).contains(key) {
                let k = keys_of(after).index_of(key);
                if k != i {
                    assert(keys[if k < i { k } else { k - 1 }] == key);
                }
            }
            assert(keys_of(after)[i] == entry.0@);
        }
        assert forall|key: Seq<char>| keys.contains(key) implies map_of(after)[key] == map_of(
            before,
        )[key] by {
            let k = keys.index_of(key);
            assert(keys[k] == key);
            lemma_lookup(before, k);
            lemma_lookup(after, if k < i { k } else { k + 1 });
        }
    }
}

/// A map with its keys in ascending order.
#[derive(Debug)]
pub struct SortedMap<V> {
    entries: Vec<(String, V)>,
}

impl<V> View for SortedMap<V> {
    type V = Map<Seq<char>, V>;

    closed spec fn view(&self) -> Map<Seq<char>, V> {
        map_of(self.entries@)
    }
}

impl<V> SortedMap<V> {
    /// The keys in ascending order.
    pub closed spec fn keys(&self) -> Seq<Seq<char>> {
        keys_of(self.entries@)
    }

    /// Whether `keys` are all the keys, each once and in ascending order. Every map has them so.
    pub open spec fn lists_its_keys(&self) -> bool {
        &&& ascending(self.keys())
        &&& self.keys().no_duplicates()
        &&& self.keys().to_set() == self@.dom()
    }

    #[verifier::type_invariant]
    spec fn well_formed(&self) -> bool {
        ascending(keys_of(self.entries@))
    }

    /// An empty map.
    pub fn new() -> (map: Self)
        ensures
            map@ == Map::<Seq<char>, V>::empty(),
            map.keys() == Seq::<Seq<char>>::empty(),
    {
        let map = SortedMap { entries: Vec::new() };
        assert(map@ =~= Map::<Seq<char>, V>::empty());
        assert(map.keys() =~= Seq::<Seq<char>>::empty());
        map
    }

    /// Where a key stands, or where it would have to be put.
    fn position(&self, key: &str) -> (at: usize)
        ensures
            at <= self.entries@.len(),
            forall|i: int| 0 <= i < at ==> text::text_precedes(self.keys()[i], key@),
            at < self.entries@.len() ==> !text::text_precedes(self.keys()[at as int], key@),
    {
        let mut low: usize = 0;
        let mut high: usize = self.entries.len();
        proof {
            use_type_invariant(self);
        }
        while low < high
            invariant
                ascending(keys_of(self.entries@)),
                low <= high <= self.entries@.len(),
                forall|i: int| 0 <= i < low ==> text::text_precedes(self.keys()[i], key@),
                high < self.entries@.len() ==> !text::text_precedes(self.keys()[high as int], key@),
            decreases high - low,
        {
            let middle: usize = low + (high - low) / 2;
            assert(self.keys()[middle as int] == self.entries@[middle as int].0@);
            if text::precedes(self.entries[middle].0.as_str(), key) {
                assert forall|i: int| 0 <= i < middle + 1 implies text::text_precedes(
                    self.keys()[i],
                    key@,
                ) by {
                    if i < middle {
                        text::lemma_precedes_transitive(
                            self.keys()[i],
                            self.keys()[middle as int],
                            key@,
                        );
                    }
                }
                low = middle + 1;
            } else {
                high = middle;
            }
        }
        low
    }

    /// The value of a key.
    pub fn get(&self, key: &str) -> (value: Option<&V>)
        ensures
            match value {
                Some(value) => self@.contains_key(key@) && *value == self@[key@],
                None => !self@.contains_key(key@),
            },
    {
        let at = self.position(key);
        proof {
            use_type_invariant(self);
            lemma_ascending_is_unique(self.keys());
        }
        if at < self.entries.len() && text::same_text(self.entries[at].0.as_str(), key) {
            proof {
                lemma_lookup(self.entries@, at as int);
            }
            Some(&self.entries[at].1)
        } else {
            proof {
                self.lemma_absent(key@, at as int);
            }
            None
        }
    }

    proof fn lemma_absent(&self, key: Seq<char>, at: int)
        requires
            ascending(self.keys()),
            0 <= at <= self.keys().len(),
            forall|i: int| 0 <= i < at ==> text::text_precedes(self.keys()[i], key),
            at < self.keys().len() ==> text::text_precedes(key, self.keys()[at]) || (
            !text::text_precedes(self.keys()[at], key) && self.keys()[at] != key),
        ensures
            !self.keys().contains(key),
            forall|i: int| at <= i < self.keys().len() ==> text::text_precedes(key, self.keys()[i]),
    {
        let keys = self.keys();
        if at < keys.len() {
            text::lemma_precedes_total(keys[at], key);
        }
        assert forall|i: int| at <= i < keys.len() implies text::text_precedes(key, keys[i]) by {
            if at < i {
                text::lemma_precedes_transitive(key, keys[at], keys[i]);
            }
        }
        text::lemma_precedes_irreflexive(key);
        assert forall|i: int| 0 <= i < keys.len() implies keys[i] != key by {
            if i < at {
                assert(text::text_precedes(keys[i], key));
            } else {
                assert(text::text_precedes(key, keys[i]));
            }
        }
    }

    /// Whether there is a value for a key.
    pub fn contains_key(&self, key: &str) -> (has: bool)
        ensures
            has == self@.contains_key(key@),
    {
        self.get(key).is_some()
    }

    /// Gives a key a value, in place of any that it had.
    pub fn insert(&mut self, key: String, value: V)
        ensures
            final(self)@ == old(self)@.insert(key@, value),
    {
        let at = self.position(key.as_str());
        proof {
            use_type_invariant(&*self);
            lemma_ascending_is_unique(self.keys());
        }
        let ghost before = self.entries@;
        let ghost absent: bool = !self.keys().contains(key@);
        let there = at < self.entries.len() && text::same_text(
            self.entries[at].0.as_str(),
            key.as_str(),
        );
        proof {
            if !there {
                self.lemma_absent(key@, at as int);
            }
        }
        let mut entries: Vec<(String, V)> = Vec::new();
        std::mem::swap(&mut self.entries, &mut entries);
        if there {
            proof {
                lemma_replace(before, at as int, value);
            }
            let same = entries[at].0.clone();
            entries.set(at, (same, value));
            assert(entries@ == before.update(at as int, (before[at as int].0, value)));
        } else {
            proof {
                lemma_add(before, at as int, (key, value));
                let keys = keys_of(before);
                assert forall|i: int, j: int| 0 <= i < j < keys.len() + 1 implies text::text_precedes(
                    #[trigger] keys.insert(at as int, key@)[i],
                    #[trigger] keys.insert(at as int, key@)[j],
                ) by {
                    let x = if i < at { i } else { i - 1 };
                    let y = if j < at { j } else { j - 1 };
                    if i != at && j != at {
                        assert(text::text_precedes(keys[x], keys[y]));
                    } else if i == at {
                        assert(text::text_precedes(key@, keys[y]));
                    } else {
                        assert(text::text_precedes(keys[x], key@));
                    }
                }
            }
            entries.insert(at, (key, value));
        }
        self.entries = entries;
    }

    /// The number of keys.
    pub fn len(&self) -> (n: usize)
        ensures
            n == self.keys().len(),
            n == self@.dom().len(),
            self.lists_its_keys(),
    {
        proof {
            use_type_invariant(self);
            lemma_ascending_is_unique(self.keys());
            assert(self.keys().to_set() =~= self@.dom());
            self.keys().unique_seq_to_set();
        }
        self.entries.len()
    }

    /// The key at a place in the order.
    pub fn key_at(&self, i: usize) -> (key: &str)
        requires
            i < self.keys().len(),
        ensures
            key@ == self.keys()[i as int],
    {
        self.entries[i].0.as_str()
    }

    /// The value of the key at a place in the order.
    pub fn value_at(&self, i: usize) -> (value: &V)
        requires
            i < self.keys().len(),
        ensures
            self@.contains_key(self.keys()[i as int]),
            *value == self@[self.keys()[i as int]],
    {
        proof {
            use_type_invariant(self);
            lemma_ascending_is_unique(self.keys());
            lemma_lookup(self.entries@, i as int);
        }
        &self.entries[i].1
    }
}

impl<V: Clone> Clone for SortedMap<V> {
    fn clone(&self) -> (copy: Self)
        ensures
            copy.keys() == self.keys(),
            copy@.dom() == self@.dom(),
            forall|key: Seq<char>| #[trigger]
                copy@.contains_key(key) ==> cloned(self@[key], copy@[key]),
    {
        let mut entries: Vec<(String, V)> = Vec::new();
        proof {
            use_type_invariant(self);
            lemma_ascending_is_unique(self.keys());
        }
        for i in 0..self.entries.len()
            invariant
                entries@.len() == i,
                forall|j: int|
                    0 <= j < i ==> (#[trigger] entries@[j]).0 == self.entries@[j].0 && cloned(
                        self.entries@[j].1,
                        entries@[j].1,
                    ),
        {
            let value = self.entries[i].1.clone();
            entries.push((self.entries[i].0.clone(), value));
        }
        proof {
            assert(keys_of(entries@) =~= keys_of(self.entries@));
        }
        let copy = SortedMap { entries };
        proof {
            assert(copy@.dom() =~= self@.dom());
            assert forall|key: Seq<char>| #[trigger] copy@.contains_key(key) implies cloned(
                self@[key],
                copy@[key],
            ) by {
                let k = copy.keys().index_of(key);
                assert(copy.keys()[k] == key);
                lemma_lookup(self.entries@, k);
                lemma_lookup(copy.entries@, k);
                assert(copy.entries@[k].0 == self.entries@[k].0);
            }
        }
        copy
    }
}

/// A map that finds its keys by their hash and keeps them in the order in which they came.
pub struct TextMap<V> {
    entries: Vec<(String, V)>,
    index: StringHashMap<usize>,
}

impl<V> View for TextMap<V> {
    type V = Map<Seq<char>, V>;

    closed spec fn view(&self) -> Map<Seq<char>, V> {
        map_of(self.entries@)
    }
}

/// Whether `index` holds for each entry its key and its place, and nothing else.
spec fn indexes<V>(index: Map<Seq<char>, usize>, entries: Seq<(String, V)>) -> bool {
    &&& forall|i: int|
        0 <= i < entries.len() ==> index.contains_key((#[trigger] entries[i]).0@)
            && index[entries[i].0@] == i
    &&& forall|key: Seq<char>| #[trigger]
        index.contains_key(key) ==> index[key] < entries.len() && entries[index[key] as int].0@
            == key
}

proof fn lemma_indexed<V>(index: Map<Seq<char>, usize>, entries: Seq<(String, V)>)
    requires
        indexes(index, entries),
    ensures
        keys_of(entries).no_duplicates(),
        index.dom() == keys_of(entries).to_set(),
        index.dom() == map_of(entries).dom(),
{
    let keys = keys_of(entries);
    assert forall|i: int, j: int| 0 <= i < keys.len() && 0 <= j < keys.len() && i != j implies keys[i]
        != keys[j] by {
        assert(index[entries[i].0@] == i);
        assert(index[entries[j].0@] == j);
    }
    assert forall|key: Seq<char>| index.contains_key(key) == keys.contains(key) by {
        if index.contains_key(key) {
            assert(keys[index[key] as int] == key);
        }
        if keys.contains(key) {
            let k = keys.index_of(key);
            assert(entries[k].0@ == key);
        }
    }
    assert(index.dom() =~= keys.to_set());
    assert(index.dom() =~= map_of(entries).dom());
}

impl<V> TextMap<V> {
    /// The keys in the order in which they came.
    pub closed spec fn keys(&self) -> Seq<Seq<char>> {
        keys_of(self.entries@)
    }

    #[verifier::type_invariant]
    spec fn well_formed(&self) -> bool {
        indexes(self.index@, self.entries@)
    }

    /// An empty map.
    pub fn new() -> (map: Self)
        ensures
            map@ == Map::<Seq<char>, V>::empty(),
            map.keys() == Seq::<Seq<char>>::empty(),
    {
        let map = TextMap { entries: Vec::new(), index: StringHashMap::new() };
        assert(map@ =~= Map::<Seq<char>, V>::empty());
        assert(map.keys() =~= Seq::<Seq<char>>::empty());
        map
    }

    /// The value of a key.
    pub fn get(&self, key: &str) -> (value: Option<&V>)
        ensures
            match value {
                Some(value) => self@.contains_key(key@) && *value == self@[key@],
                None => !self@.contains_key(key@),
            },
    {
        proof {
            use_type_invariant(self);
            lemma_indexed(self.index@, self.entries@);
        }
        match self.index.get(key) {
            Some(at) => {
                proof {
                    lemma_lookup(self.entries@, *at as int);
                }
                Some(&self.entries[*at].1)
            },
            None => None,
        }
    }

    /// Whether there is a value for a key.
    pub fn contains_key(&self, key: &str) -> (has: bool)
        ensures
            has == self@.contains_key(key@),
    {
        self.get(key).is_some()
    }

    /// Gives a key a value, in place of any that it had. A new key comes last.
    pub fn insert(&mut self, key: String, value: V)
        ensures
            final(self)@ == old(self)@.insert(key@, value),
            final(self).keys() == if old(self)@.contains_key(key@) {
                old(self).keys()
            } else {
                old(self).keys().push(key@)
            },
    {
        proof {
            use_type_invariant(&*self);
            lemma_indexed(self.index@, self.entries@);
        }
        let ghost before = self.entries@;
        let there: Option<usize> = match self.index.get(key.as_str()) {
            Some(at) => Some(*at),
            None => None,
        };
        let mut fresh = TextMap { entries: Vec::new(), index: StringHashMap::new() };
        std::mem::swap(self, &mut fresh);
        let TextMap { mut entries, mut index } = fresh;
        match there {
            Some(at) => {
                proof {
                    lemma_replace(before, at as int, value);
                }
                let same = entries[at].0.clone();
                entries.set(at, (same, value));
                assert(entries@ == before.update(at as int, (before[at as int].0, value)));
            },
            None => {
                let at: usize = entries.len();
                proof {
                    lemma_add(before, at as int, (key, value));
                    assert(before.insert(at as int, (key, value)) =~= before.push((key, value)));
                    assert(keys_of(before).insert(at as int, key@) =~= keys_of(before).push(key@));
                }
                index.insert(key.clone(), at);
                entries.push((key, value));
            },
        }
        *self = TextMap { entries, index };
    }

    /// The number of keys. No key is repeated, and there are no others.
    pub fn len(&self) -> (n: usize)
        ensures
            n == self.keys().len(),
            n == self@.dom().len(),
            self.keys().no_duplicates(),
            self.keys().to_set() == self@.dom(),
    {
        proof {
            use_type_invariant(self);
            lemma_indexed(self.index@, self.entries@);
            self.keys().unique_seq_to_set();
        }
        self.entries.len()
    }

    /// The key at a place in the order.
    pub fn key_at(&self, i: usize) -> (key: &str)
        requires
            i < self.keys().len(),
        ensures
            key@ == self.keys()[i as int],
    {
        self.entries[i].0.as_str()
    }

    /// The value of the key at a place in the order.
    pub fn value_at(&self, i: usize) -> (value: &V)
        requires
            i < self.keys().len(),
        ensures
            self@.contains_key(self.keys()[i as int]),
            *value == self@[self.keys()[i as int]],
    {
        proof {
            use_type_invariant(self);
            lemma_indexed(self.index@, self.entries@);
            lemma_lookup(self.entries@, i as int);
        }
        &self.entries[i].1
    }
}

} // verus!
