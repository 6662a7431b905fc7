//! A map keyed by strings that remembers the order its keys came in.

use crate::text::same;
use vstd::prelude::*;

verus! {

/// A map from strings to values. A key occurs once, and the keys keep the
/// order in which they first came.
#[derive(Debug)]
pub struct StrMap<V> {
    entries: Vec<(String, V)>,
}

/// No key occurs twice.
pub open spec fn distinct_keys(keys: Seq<Seq<char>>) -> bool {
    forall|i: int, j: int|
        0 <= i < j < keys.len() ==> #[trigger] keys[i] != #[trigger] keys[j]
}

/// The keys of a list of entries.
spec fn keys_of<V>(entries: Seq<(String, V)>) -> Seq<Seq<char>> {
    Seq::new(entries.len(), |i: int| entries[i].0@)
}

/// The values of a list of entries.
spec fn values_of<V>(entries: Seq<(String, V)>) -> Seq<V> {
    Seq::new(entries.len(), |i: int| entries[i].1)
}

/// The map that pairs each key with the value that stands at its place.
pub open spec fn paired<V>(keys: Seq<Seq<char>>, values: Seq<V>) -> Map<Seq<char>, V> {
    Map::new(|k: Seq<char>| keys.contains(k), |k: Seq<char>| values[keys.index_of(k)])
}

impl<V> View for StrMap<V> {
    type V = Map<Seq<char>, V>;

    open spec fn view(&self) -> Map<Seq<char>, V> {
        paired(self.keys(), self.values())
    }
}

proof fn lemma_at<V>(keys: Seq<Seq<char>>, values: Seq<V>, i: int)
    requires
        0 <= i < keys.len(),
        keys.len() == values.len(),
        distinct_keys(keys),
    ensures
        paired(keys, values).contains_key(keys[i]),
        paired(keys, values)[keys[i]] == values[i],
{
    assert(keys.contains(keys[i]));
    let j = keys.index_of(keys[i]);
    assert(keys[j] == keys[i]);
}

impl<V> StrMap<V> {
    /// The keys, in the order they came.
    pub closed spec fn keys(&self) -> Seq<Seq<char>> {
        keys_of(self.entries@)
    }

    /// The values, each at the place of its key.
    pub closed spec fn values(&self) -> Seq<V> {
        values_of(self.entries@)
    }

    #[verifier::type_invariant]
    spec fn wf(self) -> bool {
        distinct_keys(keys_of(self.entries@))
    }

    pub fn new() -> (m: Self)
        ensures
            m@ == Map::<Seq<char>, V>::empty(),
            m.keys().len() == 0,
            m.values().len() == 0,
    {
        let m = StrMap { entries: Vec::new() };
        assert(m@ =~= Map::<Seq<char>, V>::empty());
        m
    }

    pub fn len(&self) -> (n: usize)
        ensures
            n == self.keys().len(),
            n == self.values().len(),
            distinct_keys(self.keys()),
    {
        proof {
            use_type_invariant(self);
        }
        self.entries.len()
    }

    /// The key that came at place `i`.
    pub fn key_at(&self, i: usize) -> (key: &String)
        requires
            i < self.keys().len(),
        ensures
            key@ == self.keys()[i as int],
            self@.contains_key(key@),
            self@[key@] == self.values()[i as int],
    {
        proof {
            use_type_invariant(self);
            lemma_at(self.keys(), self.values(), i as int);
        }
        &self.entries[i].0
    }

    /// The value of the key that came at place `i`.
    pub fn value_at(&self, i: usize) -> (value: &V)
        requires
            i < self.keys().len(),
        ensures
            *value == self.values()[i as int],
            self@.contains_key(self.keys()[i as int]),
            self@[self.keys()[i as int]] == *value,
    {
        proof {
            use_type_invariant(self);
            lemma_at(self.keys(), self.values(), i as int);
        }
        &self.entries[i].1
    }

    fn find(&self, key: &str) -> (at: Option<usize>)
        ensures
            match at {
                Some(i) => i < self.keys().len() && self.keys()[i as int] == key@
                    && self@.contains_key(key@) && self@[key@] == self.values()[i as int],
                None => !self@.contains_key(key@) && forall|i: int|
                    0 <= i < self.keys().len() ==> #[trigger] self.keys()[i] != key@,
            },
    {
        proof {
            use_type_invariant(self);
        }
        let mut i: usize = 0;
        while i < self.entries.len()
            invariant
                distinct_keys(self.keys()),
                i <= self.entries.len(),
                forall|j: int| 0 <= j < i ==> #[trigger] self.keys()[j] != key@,
            decreases self.entries.len() - i,
        {
            if same(self.entries[i].0.as_str(), key) {
                proof {
                    lemma_at(self.keys(), self.values(), i as int);
                }
                return Some(i);
            }
            i = i + 1;
        }
        None
    }

    /// The value of `key`.
    pub fn get(&self, key: &str) -> (value: Option<&V>)
        ensures
            match value {
                Some(v) => self@.contains_key(key@) && *v == self@[key@],
                None => !self@.contains_key(key@),
            },
    {
        match self.find(key) {
            Some(i) => Some(&self.entries[i].1),
            None => None,
        }
    }

    pub fn contains_key(&self, key: &str) -> (r: bool)
        ensures
            r == self@.contains_key(key@),
    {
        self.find(key).is_some()
    }

    /// Gives `key` the value `value`. A key that the map already has keeps its
    /// place; a new one comes last.
    pub fn insert(&mut self, key: String, value: V)
        ensures
            final(self)@ == old(self)@.insert(key@, value),
            final(self).keys() == (if old(self)@.contains_key(key@) {
                old(self).keys()
            } else {
                old(self).keys().push(key@)
            }),
            !old(self)@.contains_key(key@) ==> final(self).values() == old(self).values().push(
                value,
            ),
    {
        proof {
            use_type_invariant(&*self);
        }
        let found = self.find(key.as_str());
        let ghost before = self.keys();
        let ghost held = self.values();
        let ghost was = self@;
        let mut entries: Vec<(String, V)> = Vec::new();
        std::mem::swap(&mut entries, &mut self.entries);
        assert(keys_of(entries@) == before && values_of(entries@) == held);
        match found {
            Some(i) => {
                entries.set(i, (key, value));
                assert(keys_of(entries@) =~= before);
                proof {
                    let after = paired(before, values_of(entries@));
                    assert forall|k: Seq<char>| #[trigger] after.contains_key(k) implies after[k]
                        == was.insert(key@, value)[k] by {
                        let j = before.index_of(k);
                        assert(before[j] == k);
                        assert(before.index_of(key@) == i) by {
                            assert(before[before.index_of(key@)] == before[i as int]);
                        }
                    }
                    assert(after =~= was.insert(key@, value));
                }
            },
            None => {
                entries.push((key, value));
                assert(keys_of(entries@) =~= before.push(key@));
                assert(values_of(entries@) =~= held.push(value));
                proof {
                    let after = paired(keys_of(entries@), values_of(entries@));
                    let keys = keys_of(entries@);
                    assert(distinct_keys(keys));
                    assert forall|k: Seq<char>| keys.contains(k) == (before.contains(k) || k
                        == key@) by {
                        if before.contains(k) {
                            let j = choose|j: int| 0 <= j < before.len() && before[j] == k;
                            assert(keys[j] == k);
                        }
                        assert(keys[before.len() as int] == key@);
                        if keys.contains(k) {
                            let j = choose|j: int| 0 <= j < keys.len() && keys[j] == k;
                            if j < before.len() {
                                assert(before[j] == k);
                            }
                        }
                    }
                    assert forall|k: Seq<char>| #[trigger] after.contains_key(k) implies after[k]
                        == was.insert(key@, value)[k] by {
                        let j = keys.index_of(k);
                        assert(keys[j] == k);
                        if k != key@ {
                            assert(before[j] == k);
                            lemma_at(before, held, j);
                        }
                    }
                    assert(after =~= was.insert(key@, value));
                }
            },
        }
        self.entries = entries;
    }

    /// Takes `key` out of the map. The other keys keep their order.
    pub fn remove(&mut self, key: &str) -> (value: Option<V>)
        ensures
            final(self)@ == old(self)@.remove(key@),
            match value {
                Some(v) => old(self)@.contains_key(key@) && v == old(self)@[key@] && exists|i: int|
                    0 <= i < old(self).keys().len() && #[trigger] old(self).keys()[i] == key@
                        && final(self).keys() == old(self).keys().remove(i),
                None => !old(self)@.contains_key(key@) && final(self).keys() == old(self).keys(),
            },
    {
        proof {
            use_type_invariant(&*self);
        }
        let found = self.find(key);
        let ghost before = self.keys();
        let ghost held = self.values();
        let ghost was = self@;
        match found {
            Some(i) => {
                let mut entries: Vec<(String, V)> = Vec::new();
                std::mem::swap(&mut entries, &mut self.entries);
                assert(keys_of(entries@) == before && values_of(entries@) == held);
                let entry = entries.remove(i);
                proof {
                    let keys = keys_of(entries@);
                    assert(keys =~= before.remove(i as int));
                    assert(values_of(entries@) =~= held.remove(i as int));
                    assert(distinct_keys(keys));
                    let after = paired(keys, values_of(entries@));
                    assert forall|k: Seq<char>| keys.contains(k) == (before.contains(k) && k
                        != key@) by {
                        if before.contains(k) && k != key@ {
                            let j = choose|j: int| 0 <= j < before.len() && before[j] == k;
                            if j < i {
                                assert(keys[j] == k);
                            } else {
                                assert(keys[j - 1] == k);
                            }
                        }
                        if keys.contains(k) {
                            let j = choose|j: int| 0 <= j < keys.len() && keys[j] == k;
                            if j < i {
                                assert(before[j] == k);
                            } else {
                                assert(before[j + 1] == k);
                            }
                        }
                    }
                    assert forall|k: Seq<char>| #[trigger] after.contains_key(k) implies after[k]
                        == was.remove(key@)[k] by {
                        let j = keys.index_of(k);
                        assert(keys[j] == k);
                        if j < i {
                            lemma_at(before, held, j);
                        } else {
                            lemma_at(before, held, j + 1);
                        }
                    }
                    assert(after =~= was.remove(key@));
                    assert(before[i as int] == key@);
                }
                self.entries = entries;
                Some(entry.1)
            },
            None => {
                assert(was =~= was.remove(key@));
                None
            },
        }
    }
}

impl<V: Clone> Clone for StrMap<V> {
    fn clone(&self) -> (c: Self)
        ensures
            c.keys() == self.keys(),
            c.values().len() == self.values().len(),
            forall|i: int|
                0 <= i < self.values().len() ==> cloned(self.values()[i], #[trigger] c.values()[i]),
    {
        proof {
            use_type_invariant(self);
        }
        let mut entries: Vec<(String, V)> = Vec::new();
        let mut i: usize = 0;
        while i < self.entries.len()
            invariant
                i <= self.entries.len(),
                entries@.len() == i,
                forall|j: int| 0 <= j < i ==> (#[trigger] entries@[j]).0@ == self.entries@[j].0@,
                forall|j: int|
                    0 <= j < i ==> cloned(self.entries@[j].1, (#[trigger] entries@[j]).1),
            decreases self.entries.len() - i,
        {
            let value = self.entries[i].1.clone();
            entries.push((self.entries[i].0.clone(), value));
            i = i + 1;
        }
        assert(keys_of(entries@) =~= keys_of(self.entries@));
        StrMap { entries }
    }
}

} // verus!
