//! A map keyed by paths, in which two spellings of one path are one key.

use crate::paths::{components, same_path};
use vstd::prelude::*;

verus! {

/// A map from paths to values. Paths with the same components are the same
/// key, spelled the way it first came.
#[derive(Debug)]
pub struct PathMap<V> {
    entries: Vec<(String, V)>,
}

/// The components of each of a list of paths.
pub open spec fn all_components(paths: Seq<Seq<char>>) -> Seq<Seq<Seq<char>>> {
    Seq::new(paths.len(), |i: int| components(paths[i]))
}

/// No path of the list occurs twice, however it is spelled.
pub open spec fn distinct_paths(paths: Seq<Seq<char>>) -> bool {
    forall|i: int, j: int|
        0 <= i < j < paths.len() ==> components(#[trigger] paths[i]) != components(
            #[trigger] paths[j],
        )
}

/// The paths of a list of entries, as they are spelled.
spec fn paths_of<V>(entries: Seq<(String, V)>) -> Seq<Seq<char>> {
    Seq::new(entries.len(), |i: int| entries[i].0@)
}

/// The values of a list of entries.
spec fn values_of<V>(entries: Seq<(String, V)>) -> Seq<V> {
    Seq::new(entries.len(), |i: int| entries[i].1)
}

/// The map that pairs each path, by its components, with the value that stands
/// at its place.
pub open spec fn paired<V>(paths: Seq<Seq<char>>, values: Seq<V>) -> Map<Seq<Seq<char>>, V> {
    Map::new(
        |k: Seq<Seq<char>>| all_components(paths).contains(k),
        |k: Seq<Seq<char>>| values[all_components(paths).index_of(k)],
    )
}

impl<V> View for PathMap<V> {
    type V = Map<Seq<Seq<char>>, V>;

    open spec fn view(&self) -> Map<Seq<Seq<char>>, V> {
        paired(self.paths(), self.values())
    }
}

proof fn lemma_at<V>(paths: Seq<Seq<char>>, values: Seq<V>, i: int)
    requires
        0 <= i < paths.len(),
        paths.len() == values.len(),
        distinct_paths(paths),
    ensures
        paired(paths, values).contains_key(components(paths[i])),
        paired(paths, values)[components(paths[i])] == values[i],
        all_components(paths).index_of(components(paths[i])) == i,
{
    let keys = all_components(paths);
    assert(keys[i] == components(paths[i]));
    assert(keys.contains(keys[i]));
    let j = keys.index_of(keys[i]);
    assert(keys[j] == keys[i]);
    assert(components(paths[j]) == components(paths[i]));
}

impl<V> PathMap<V> {
    /// The paths as they are spelled, in the order they came.
    pub closed spec fn paths(&self) -> Seq<Seq<char>> {
        paths_of(self.entries@)
    }

    /// The values, each at the place of its path.
    pub closed spec fn values(&self) -> Seq<V> {
        values_of(self.entries@)
    }

    #[verifier::type_invariant]
    spec fn wf(self) -> bool {
        distinct_paths(paths_of(self.entries@))
    }

    pub fn new() -> (m: Self)
        ensures
            m@ == Map::<Seq<Seq<char>>, V>::empty(),
            m.paths().len() == 0,
            m.values().len() == 0,
    {
        let m = PathMap { entries: Vec::new() };
        assert(m@ =~= Map::<Seq<Seq<char>>, V>::empty());
        m
    }

    pub fn len(&self) -> (n: usize)
        ensures
            n == self.paths().len(),
            n == self.values().len(),
            distinct_paths(self.paths()),
    {
        proof {
            use_type_invariant(self);
        }
        self.entries.len()
    }

    /// The path that came at place `i`.
    pub fn path_at(&self, i: usize) -> (path: &String)
        requires
            i < self.paths().len(),
        ensures
            path@ == self.paths()[i as int],
            self@.contains_key(components(path@)),
            self@[components(path@)] == self.values()[i as int],
    {
        proof {
            use_type_invariant(self);
            lemma_at(self.paths(), self.values(), i as int);
        }
        &self.entries[i].0
    }

    /// The value of the path that came at place `i`.
    pub fn value_at(&self, i: usize) -> (value: &V)
        requires
            i < self.paths().len(),
        ensures
            *value == self.values()[i as int],
            self@.contains_key(components(self.paths()[i as int])),
            self@[components(self.paths()[i as int])] == *value,
    {
        proof {
            use_type_invariant(self);
            lemma_at(self.paths(), self.values(), i as int);
        }
        &self.entries[i].1
    }

    fn find(&self, path: &str) -> (at: Option<usize>)
        ensures
            match at {
                Some(i) => i < self.paths().len() && components(self.paths()[i as int])
                    == components(path@) && self@.contains_key(components(path@))
                    && self@[components(path@)] == self.values()[i as int],
                None => !self@.contains_key(components(path@)) && forall|i: int|
                    0 <= i < self.paths().len() ==> components(#[trigger] self.paths()[i])
                        != components(path@),
            },
    {
        proof {
            use_type_invariant(self);
        }
        let mut i: usize = 0;
        while i < self.entries.len()
            invariant
                distinct_paths(self.paths()),
                i <= self.entries.len(),
                forall|j: int|
                    0 <= j < i ==> components(#[trigger] self.paths()[j]) != components(path@),
            decreases self.entries.len() - i,
        {
            if same_path(self.entries[i].0.as_str(), path) {
                proof {
                    lemma_at(self.paths(), self.values(), i as int);
                }
                return Some(i);
            }
            i = i + 1;
        }
        assert(!self@.contains_key(components(path@))) by {
            let keys = all_components(self.paths());
            if keys.contains(components(path@)) {
                let j = choose|j: int| 0 <= j < keys.len() && keys[j] == components(path@);
                assert(components(self.paths()[j]) == components(path@));
            }
        }
        None
    }

    /// The value of `path`.
    pub fn get(&self, path: &str) -> (value: Option<&V>)
        ensures
            match value {
                Some(v) => self@.contains_key(components(path@)) && *v == self@[components(path@)],
                None => !self@.contains_key(components(path@)),
            },
    {
        match self.find(path) {
            Some(i) => Some(&self.entries[i].1),
            None => None,
        }
    }

    /// Gives `path`, which the map does not have yet, the value `value`.
    pub fn add_path(&mut self, path: String, value: V)
        requires
            !old(self)@.contains_key(components(path@)),
        ensures
            final(self)@ == old(self)@.insert(components(path@), value),
            final(self).paths() == old(self).paths().push(path@),
    {
        proof {
            use_type_invariant(&*self);
        }
        let ghost before = self.paths();
        let ghost held = self.values();
        let ghost was = self@;
        let ghost added = components(path@);
        let mut entries: Vec<(String, V)> = Vec::new();
        std::mem::swap(&mut entries, &mut self.entries);
        assert(paths_of(entries@) == before && values_of(entries@) == held);
        entries.push((path, value));
        proof {
            let paths = paths_of(entries@);
            assert(paths =~= before.push(path@));
            assert(values_of(entries@) =~= held.push(value));
            assert forall|i: int, j: int| 0 <= i < j < paths.len() implies components(
                #[trigger] paths[i],
            ) != components(#[trigger] paths[j]) by {
                assert(paths[i] == before[i]);
                if j < before.len() {
                    assert(paths[j] == before[j]);
                } else {
                    lemma_at(before, held, i);
                }
            }
            let after = paired(paths, values_of(entries@));
            let wanted = was.insert(added, value);
            assert forall|k: Seq<Seq<char>>|
                #![trigger after.dom().contains(k)]
                #![trigger wanted.dom().contains(k)]
                after.dom().contains(k) == wanted.dom().contains(k) && (after.dom().contains(k)
                    ==> after[k] == wanted[k]) by {
                let keys = all_components(paths);
                let old_keys = all_components(before);
                if keys.contains(k) {
                    let j = keys.index_of(k);
                    assert(keys[j] == k);
                    if j < before.len() {
                        assert(paths[j] == before[j]);
                        lemma_at(before, held, j);
                        assert(old_keys[j] == k);
                    }
                }
                if old_keys.contains(k) {
                    let j = choose|j: int| 0 <= j < old_keys.len() && old_keys[j] == k;
                    assert(paths[j] == before[j]);
                    assert(keys[j] == k);
                }
                assert(keys[before.len() as int] == added);
            }
            assert(after =~= wanted);
        }
        self.entries = entries;
    }

    /// Takes `path` out of the map, with the way it was spelled there. The
    /// others keep their order.
    pub fn remove(&mut self, path: &str) -> (entry: Option<(String, V)>)
        ensures
            final(self)@ == old(self)@.remove(components(path@)),
            match entry {
                Some((spelled, v)) => old(self)@.contains_key(components(path@)) && v
                    == old(self)@[components(path@)] && components(spelled@) == components(path@)
                    && exists|i: int|
                    0 <= i < old(self).paths().len() && #[trigger] old(self).paths()[i] == spelled@
                        && final(self).paths() == old(self).paths().remove(i),
                None => !old(self)@.contains_key(components(path@)) && final(self).paths()
                    == old(self).paths(),
            },
    {
        proof {
            use_type_invariant(&*self);
        }
        let found = self.find(path);
        let ghost before = self.paths();
        let ghost held = self.values();
        let ghost was = self@;
        let ghost gone = components(path@);
        match found {
            Some(i) => {
                let mut entries: Vec<(String, V)> = Vec::new();
                std::mem::swap(&mut entries, &mut self.entries);
                assert(paths_of(entries@) == before && values_of(entries@) == held);
                let entry = entries.remove(i);
                proof {
                    let paths = paths_of(entries@);
                    assert(paths =~= before.remove(i as int));
                    assert(values_of(entries@) =~= held.remove(i as int));
                    assert(distinct_paths(paths));
                    let after = paired(paths, values_of(entries@));
                    let wanted = was.remove(gone);
                    assert forall|k: Seq<Seq<char>>|
                        #![trigger after.dom().contains(k)]
                        #![trigger wanted.dom().contains(k)]
                        after.dom().contains(k) == wanted.dom().contains(k) && (
                        after.dom().contains(k) ==> after[k] == wanted[k]) by {
                        let keys = all_components(paths);
                        let old_keys = all_components(before);
                        if keys.contains(k) {
                            let j = keys.index_of(k);
                            assert(keys[j] == k);
                            let b = if j < i { j } else { j + 1 };
                            assert(paths[j] == before[b]);
                            assert(components(before[i as int]) == gone);
                            lemma_at(before, held, b);
                            assert(old_keys[b] == k);
                        }
                        if old_keys.contains(k) && k != gone {
                            let j = choose|j: int| 0 <= j < old_keys.len() && old_keys[j] == k;
                            assert(components(before[j]) == k);
                            assert(j != i);
                            let a = if j < i { j } else { j - 1 };
                            assert(paths[a] == before[j]);
                            assert(keys[a] == k);
                        }
                    }
                    assert(after =~= wanted);
                    assert(before[i as int] == entry.0@);
                }
                self.entries = entries;
                Some(entry)
            },
            None => {
                assert(was =~= was.remove(gone));
                None
            },
        }
    }
}

impl<V: Clone> Clone for PathMap<V> {
    fn clone(&self) -> (c: Self)
        ensures
            c.paths() == self.paths(),
            c.values().len() == self.values().len(),
            forall|i: int|
                0 <= i < self.values().len() ==> cloned(self.values()[i], #[trigger] c.values()[i]),
            self.values().len() == self.paths().len(),
            distinct_paths(self.paths()),
    {
        proof {
            use_type_invariant(self);
        }
        let mut entries: Vec<(String, V)> = Vec::new();
        let mut i: usize = 0;
        while i < self.entries.len()
            invariant
                i <= self.entries.len(),
                entries@.len() == i,
                forall|j: int| 0 <= j < i ==> (#[trigger] entries@[j]).0@ == self.entries@[j].0@,
                forall|j: int|
                    0 <= j < i ==> cloned(self.entries@[j].1, (#[trigger] entries@[j]).1),
            decreases self.entries.len() - i,
        {
            let value = self.entries[i].1.clone();
            entries.push((self.entries[i].0.clone(), value));
            i = i + 1;
        }
        assert(paths_of(entries@) =~= paths_of(self.entries@));
        PathMap { entries }
    }
}

} // verus!
