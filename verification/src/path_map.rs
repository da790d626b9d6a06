//! Maps whose keys are paths.

use vstd::prelude::*;

use crate::path::{components_of, same_path, Step, TreePath};

verus! {

/// A map from paths to values. Paths with the same components are one key.
#[derive(Debug)]
pub struct PathMap<V> {
    entries: Vec<(TreePath, V)>,
}

/// Whether position `i` of a list of entries holds the key `k`.
pub open spec fn holds_key<V>(entries: Seq<(TreePath, V)>, i: int, k: Seq<Step>) -> bool {
    0 <= i < entries.len() && components_of(entries[i].0@) == k
}

/// Whether no two entries have the same key.
pub open spec fn keys_distinct<V>(entries: Seq<(TreePath, V)>) -> bool {
    forall|i: int, j: int|
        0 <= i < j < entries.len() ==> !same_path(#[trigger] entries[i].0@, #[trigger] entries[j].0@)
}

/// The map that a list of entries stands for.
pub open spec fn entries_map<V>(entries: Seq<(TreePath, V)>) -> Map<Seq<Step>, V> {
    Map::new(
        |k: Seq<Step>| exists|i: int| holds_key(entries, i, k),
        |k: Seq<Step>| entries[choose|i: int| holds_key(entries, i, k)].1,
    )
}

/// Where keys are distinct, each entry is what the map holds for its key.
pub proof fn lemma_entry<V>(entries: Seq<(TreePath, V)>, i: int)
    requires
        keys_distinct(entries),
        0 <= i < entries.len(),
    ensures
        entries_map(entries).contains_key(components_of(entries[i].0@)),
        entries_map(entries)[components_of(entries[i].0@)] == entries[i].1,
{
    let k = components_of(entries[i].0@);
    assert(holds_key(entries, i, k));
    let j = choose|j: int| holds_key(entries, j, k);
    assert(same_path(entries[i].0@, entries[j].0@));
    assert(same_path(entries[j].0@, entries[i].0@));
}

/// Entries after a path was given a value: a key that is there keeps its path and its
/// place, and a new one goes to the end.
pub open spec fn entries_with<V>(entries: Seq<(TreePath, V)>, path: TreePath, value: V) -> Seq<
    (TreePath, V),
> {
    let key = components_of(path@);
    if exists|i: int| holds_key(entries, i, key) {
        let i = choose|i: int| holds_key(entries, i, key);
        entries.update(i, (entries[i].0, value))
    } else {
        entries.push((path, value))
    }
}

impl<V> PathMap<V> {
    pub closed spec fn entries(&self) -> Seq<(TreePath, V)> {
        self.entries@
    }

    pub open spec fn view(&self) -> Map<Seq<Step>, V> {
        entries_map(self.entries())
    }

    #[verifier::type_invariant]
    pub open spec fn distinct(&self) -> bool {
        keys_distinct(self.entries())
    }

    /// The empty map.
    pub fn new() -> (map: PathMap<V>)
        ensures
            map@ == Map::<Seq<Step>, V>::empty(),
            map.entries().len() == 0,
    {
        let map = PathMap { entries: Vec::new() };
        assert(map@ =~= Map::<Seq<Step>, V>::empty());
        map
    }

    /// How many entries the map has.
    pub fn len(&self) -> (n: usize)
        ensures
            n == self.entries().len(),
    {
        self.entries.len()
    }

    /// The entry at a position.
    pub fn entry(&self, i: usize) -> (entry: &(TreePath, V))
        requires
            i < self.entries().len(),
        ensures
            *entry == self.entries()[i as int],
            self@.contains_key(components_of(entry.0@)),
            self@[components_of(entry.0@)] == entry.1,
    {
        proof {
            use_type_invariant(self);
            lemma_entry(self.entries@, i as int);
        }
        &self.entries[i]
    }

    fn position(entries: &Vec<(TreePath, V)>, path: &TreePath) -> (r: Option<usize>)
        ensures
            match r {
                Some(i) => i < entries@.len() && same_path(entries@[i as int].0@, path@),
                None => forall|j: int|
                    0 <= j < entries@.len() ==> !same_path(#[trigger] entries@[j].0@, path@),
            },
    {
        let mut i: usize = 0;
        while i < entries.len()
            invariant
                i <= entries@.len(),
                forall|j: int| 0 <= j < i ==> !same_path(#[trigger] entries@[j].0@, path@),
            decreases entries@.len() - i,
        {
            if entries[i].0.same(path) {
                return Some(i);
            }
            i = i + 1;
        }
        None
    }

    /// The value of a path, if it has one.
    pub fn get(&self, path: &TreePath) -> (r: Option<&V>)
        ensures
            match r {
                Some(v) => self@.contains_key(components_of(path@))
                    && self@[components_of(path@)] == *v,
                None => !self@.contains_key(components_of(path@)),
            },
    {
        match Self::position(&self.entries, path) {
            Some(i) => {
                proof {
                    use_type_invariant(self);
                    lemma_entry(self.entries@, i as int);
                }
                Some(&self.entries[i].1)
            },
            None => None,
        }
    }

    /// Gives a path a value, in place of the one it may have had. If the path was there
    /// under other bytes, it keeps those.
    pub fn insert(&mut self, path: TreePath, value: V)
        ensures
            final(self)@ == old(self)@.insert(components_of(path@), value),
            final(self).entries() == entries_with(old(self).entries(), path, value),
    {
        proof {
            use_type_invariant(&*self);
        }
        let mut entries: Vec<(TreePath, V)> = Vec::new();
        std::mem::swap(&mut entries, &mut self.entries);
        let ghost before = entries@;
        let ghost key = components_of(path@);
        let ghost mut at = 0int;
        match Self::position(&entries, &path) {
            Some(i) => {
                entries[i].1 = value;
                proof {
                    at = i as int;
                    assert(holds_key(before, at, key));
                    let other = choose|j: int| holds_key(before, j, key);
                    assert(other == at) by {
                        assert(same_path(before[other].0@, before[at].0@));
                        assert(same_path(before[at].0@, before[other].0@));
                    }
                    assert(entries@ =~= before.update(at, (before[at].0, value)));
                    assert forall|a: int, b: int| 0 <= a < b < entries@.len() implies !same_path(
                        #[trigger] entries@[a].0@,
                        #[trigger] entries@[b].0@,
                    ) by {
                        assert(!same_path(before[a].0@, before[b].0@));
                    }
                }
            },
            None => {
                entries.push((path, value));
                proof {
                    at = before.len() as int;
                    assert forall|j: int| !holds_key(before, j, key) by {
                        if holds_key(before, j, key) {
                            assert(same_path(before[j].0@, path@));
                        }
                    }
                    assert forall|a: int, b: int| 0 <= a < b < entries@.len() implies !same_path(
                        #[trigger] entries@[a].0@,
                        #[trigger] entries@[b].0@,
                    ) by {
                        if b < before.len() {
                            assert(!same_path(before[a].0@, before[b].0@));
                        } else {
                            assert(!same_path(before[a].0@, path@));
                        }
                    }
                }
            },
        }
        proof {
            let was = entries_map(before);
            let now = entries_map(entries@);
            assert forall|k: Seq<Step>| now.contains_key(k) == was.insert(key, value).contains_key(
                k,
            ) by {
                if now.contains_key(k) {
                    let i = choose|i: int| holds_key(entries@, i, k);
                    if k != key {
                        assert(holds_key(before, i, k));
                    }
                }
                if was.contains_key(k) {
                    let i = choose|i: int| holds_key(before, i, k);
                    assert(holds_key(entries@, i, k));
                }
                if k == key {
                    assert(holds_key(entries@, at, k));
                }
            }
            assert forall|k: Seq<Step>| now.contains_key(k) implies now[k] == was.insert(key, value)[k] by {
                let i = choose|i: int| holds_key(entries@, i, k);
                lemma_entry(entries@, i);
                if k == key {
                    lemma_entry(entries@, at);
                } else {
                    assert(before[i] == entries@[i]);
                    lemma_entry(before, i);
                }
            }
            assert(now =~= was.insert(key, value));
        }
        std::mem::swap(&mut entries, &mut self.entries);
    }
}

}
