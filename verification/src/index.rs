//! The index: for each key the offset of its latest entry, and for each such
//! offset the key that points at it.

use crate::value::{Key, KeyView};
use std::collections::HashMap;
use vstd::hash_map::StringHashMap;
use vstd::prelude::*;

verus! {

broadcast use vstd::std_specs::hash::group_hash_axioms;

/// A map from keys to offsets that can also be read from offset to key.
pub struct Index {
    texts: StringHashMap<usize>,
    integers: HashMap<i64, usize>,
    owners: HashMap<usize, Key>,
}

impl Index {
    /// The offset of each key. The map from offsets to keys is not part of
    /// the view: in a well-formed index it is this map read backwards.
    pub closed spec fn view(&self) -> Map<KeyView, nat> {
        Map::new(
            |k: KeyView|
                match k {
                    KeyView::Text(s) => self.texts@.contains_key(s),
                    KeyView::Integer(i) => self.integers@.contains_key(i),
                },
            |k: KeyView|
                match k {
                    KeyView::Text(s) => self.texts@[s] as nat,
                    KeyView::Integer(i) => self.integers@[i] as nat,
                },
        )
    }

    /// The two directions agree: an offset has an owner exactly where some
    /// key points at it, and that key is the owner.
    pub closed spec fn wf(&self) -> bool {
        &&& forall|k: KeyView| #[trigger]
            self@.contains_key(k) ==> self.owners@.contains_key(self@[k] as usize)
                && self.owners@[self@[k] as usize]@ == k
        &&& forall|off: usize| #[trigger]
            self.owners@.contains_key(off) ==> self@.contains_key(self.owners@[off]@)
                && self@[self.owners@[off]@] == off
    }

    /// In a well-formed index no two keys share an offset.
    pub proof fn lemma_injective(&self)
        requires
            self.wf(),
        ensures
            forall|j: KeyView, k: KeyView|
                #![trigger self@[j], self@[k]]
                self@.contains_key(j) && self@.contains_key(k) && self@[j] == self@[k] ==> j == k,
            forall|k: KeyView| #[trigger] self@.contains_key(k) ==> self@[k] <= usize::MAX,
    {
    }

    /// An index without keys.
    pub fn new() -> (index: Index)
        ensures
            index.wf(),
            index@ == Map::<KeyView, nat>::empty(),
    {
        let index = Index {
            texts: StringHashMap::new(),
            integers: HashMap::new(),
            owners: HashMap::new(),
        };
        assert(index@ =~= Map::<KeyView, nat>::empty());
        index
    }

    /// The offset that `key` points at.
    pub fn offset_of(&self, key: &Key) -> (found: Option<usize>)
        requires
            self.wf(),
        ensures
            match found {
                Some(off) => self@.contains_key(key@) && self@[key@] == off,
                None => !self@.contains_key(key@),
            },
    {
        match key {
            Key::Text(s) => match self.texts.get(s.as_str()) {
                Some(off) => Some(*off),
                None => None,
            },
            Key::Integer(i) => match self.integers.get(i) {
                Some(off) => Some(*off),
                None => None,
            },
        }
    }

    /// The key that points at `off`.
    pub fn key_at(&self, off: usize) -> (found: Option<&Key>)
        requires
            self.wf(),
        ensures
            match found {
                Some(key) => self@.contains_key(key@) && self@[key@] == off,
                None => forall|k: KeyView| self@.contains_key(k) ==> self@[k] != off,
            },
    {
        self.owners.get(&off)
    }

    /// Drops `key` from the index, if it is there.
    pub fn remove(&mut self, key: &Key)
        requires
            old(self).wf(),
        ensures
            final(self).wf(),
            final(self)@ == old(self)@.remove(key@),
    {
        match self.offset_of(key) {
            Some(off) => {
                self.owners.remove(&off);
                match key {
                    Key::Text(s) => {
                        self.texts.remove(s.as_str());
                    },
                    Key::Integer(i) => {
                        self.integers.remove(i);
                    },
                }
            },
            None => {},
        }
        assert(self@ =~= old(self)@.remove(key@));
    }

    /// Points `key` at `off`, an offset that no key points at yet.
    pub fn put(&mut self, key: Key, off: usize)
        requires
            old(self).wf(),
            forall|k: KeyView| old(self)@.contains_key(k) ==> old(self)@[k] != off,
        ensures
            final(self).wf(),
            final(self)@ == old(self)@.insert(key@, off as nat),
    {
        match self.offset_of(&key) {
            Some(prev) => {
                self.owners.remove(&prev);
            },
            None => {},
        }
        self.owners.insert(off, key.duplicate());
        match key {
            Key::Text(s) => {
                self.texts.insert(s, off);
            },
            Key::Integer(i) => {
                self.integers.insert(i, off);
            },
        }
        assert(self@ =~= old(self)@.insert(key@, off as nat));
    }
}

} // verus!
