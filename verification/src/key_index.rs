//! An inverted index from text keys to sets of product ids.
//!
//! Each distinct key owns one slot of `sets`; `slots` maps the key to it, so
//! that adding an id to a key's set changes that set in place.
use std::collections::HashSet;
use vstd::hash_map::StringHashMap;
use vstd::prelude::*;

verus! {

broadcast use {vstd::std_specs::hash::group_hash_axioms, vstd::hash_map::group_hash_map_axioms};

/// The ids filed under each key.
pub struct KeyIndex {
    slots: StringHashMap<usize>,
    sets: Vec<HashSet<u64>>,
}

/// The ids filed under `k` in `m`; none where `k` is not a key of `m`.
pub open spec fn ids_under(m: Map<Seq<char>, Set<u64>>, k: Seq<char>) -> Set<u64> {
    if m.contains_key(k) {
        m[k]
    } else {
        Set::empty()
    }
}

impl View for KeyIndex {
    type V = Map<Seq<char>, Set<u64>>;

    closed spec fn view(&self) -> Map<Seq<char>, Set<u64>> {
        Map::new(
            |k: Seq<char>| self.slots@.contains_key(k),
            |k: Seq<char>| self.sets@[self.slots@[k] as int]@,
        )
    }
}

impl KeyIndex {
    /// Every key has a slot of its own.
    pub closed spec fn wf(&self) -> bool {
        &&& forall|k: Seq<char>|
            #[trigger] self.slots@.contains_key(k) ==> self.slots@[k] < self.sets@.len()
        &&& forall|k1: Seq<char>, k2: Seq<char>|
            #![trigger self.slots@[k1], self.slots@[k2]]
            self.slots@.contains_key(k1) && self.slots@.contains_key(k2) && k1 != k2
                ==> self.slots@[k1] != self.slots@[k2]
    }

    /// An index with no key.
    pub fn new() -> (r: KeyIndex)
        ensures
            r.wf(),
            r@ == Map::<Seq<char>, Set<u64>>::empty(),
    {
        let r = KeyIndex { slots: StringHashMap::new(), sets: Vec::new() };
        assert(r@ =~= Map::<Seq<char>, Set<u64>>::empty());
        r
    }

    /// Files `id` under `key`, creating the key where it is new.
    pub fn add(&mut self, key: String, id: u64)
        requires
            old(self).wf(),
        ensures
            final(self).wf(),
            final(self)@ == old(self)@.insert(key@, ids_under(old(self)@, key@).insert(id)),
    {
        match self.slots.get(key.as_str()) {
            Some(slot) => {
                let slot = *slot;
                self.sets[slot].insert(id);
                assert(self@ =~= old(self)@.insert(key@, ids_under(old(self)@, key@).insert(id)))
                    by {
                    assert forall|k: Seq<char>| self.slots@.contains_key(k) && k != key@ implies
                        self.sets@[self.slots@[k] as int] == old(self).sets@[self.slots@[
                        k] as int] by {
                        assert(self.slots@[k] != self.slots@[key@]);
                    }
                }
            },
            None => {
                let slot = self.sets.len();
                let mut set = HashSet::new();
                set.insert(id);
                self.sets.push(set);
                self.slots.insert(key, slot);
                assert(self@ =~= old(self)@.insert(key@, ids_under(old(self)@, key@).insert(id)))
                    by {
                    assert forall|k: Seq<char>| self.slots@.contains_key(k) && k != key@ implies
                        self.sets@[self.slots@[k] as int] == old(self).sets@[self.slots@[
                        k] as int] by {
                        assert(old(self).slots@.contains_key(k));
                    }
                }
            },
        }
    }

    /// Takes `id` out of the set filed under `key`; the key stays, even
    /// where its set becomes empty.
    pub fn remove(&mut self, key: &str, id: u64)
        requires
            old(self).wf(),
        ensures
            final(self).wf(),
            final(self)@ == (if old(self)@.contains_key(key@) {
                old(self)@.insert(key@, old(self)@[key@].remove(id))
            } else {
                old(self)@
            }),
    {
        match self.slots.get(key) {
            Some(slot) => {
                let slot = *slot;
                self.sets[slot].remove(&id);
                assert(self@ =~= old(self)@.insert(key@, old(self)@[key@].remove(id))) by {
                    assert forall|k: Seq<char>| self.slots@.contains_key(k) && k != key@ implies
                        self.sets@[self.slots@[k] as int] == old(self).sets@[self.slots@[
                        k] as int] by {
                        assert(self.slots@[k] != self.slots@[key@]);
                    }
                }
            },
            None => {},
        }
    }

    /// The set filed under `key`, if `key` is a key.
    pub fn get(&self, key: &str) -> (r: Option<&HashSet<u64>>)
        requires
            self.wf(),
        ensures
            match r {
                Some(s) => self@.contains_key(key@) && s@ == self@[key@],
                None => !self@.contains_key(key@),
            },
    {
        match self.slots.get(key) {
            Some(slot) => Some(&self.sets[*slot]),
            None => None,
        }
    }
}

} // verus!
