//! The store: an append-only log of entries and an index into it.

use crate::entry::{
    deserialize_borrowed, encodable, lemma_decode_entry, parse_entry, serialize_value,
};
use crate::error::{KvError, KvResult};
use crate::index::Index;
use crate::laws::{law_insert, law_remove};
use crate::model::{without, Pair, StoreView};
use crate::value::{BorrowedValue, Key, KeyView, OwnedValue, ValueView};
use vstd::prelude::*;
use vstd::slice::slice_subrange;

verus! {

/// An in-memory key-value store. Values are appended to a log as
/// checksummed entries; the index holds, for each key, the offset of the
/// entry that was written last under it.
pub struct KvStore {
    data: Vec<u8>,
    index: Index,
}

impl View for KvStore {
    type V = StoreView;

    /// The log and the index of the store. The type's invariant holds of
    /// every store in memory; a value of which it did not hold would count as
    /// the empty store, so that every view is well-formed.
    closed spec fn view(&self) -> StoreView {
        if self.inv() {
            StoreView { log: self.data@, index: self.index@ }
        } else {
            StoreView::empty()
        }
    }
}

impl KvStore {
    #[verifier::type_invariant]
    spec fn inv(self) -> bool {
        &&& self.index.wf()
        &&& forall|k: KeyView| #[trigger]
            self.index@.contains_key(k) ==> self.index@[k] < self.data@.len()
    }

    /// A store with nothing in it.
    pub fn new() -> (store: KvStore)
        ensures
            store@ == StoreView::empty(),
    {
        KvStore { data: Vec::new(), index: Index::new() }
    }

    /// Every store is well-formed: each offset of its index lies inside the
    /// log, and no two keys share one.
    pub proof fn lemma_wf(&self)
        ensures
            self@.wf(),
    {
        if self.inv() {
            self.index.lemma_injective();
        }
    }

    /// Takes the log and the index out of the store, which is left empty.
    /// A change is made on the two parts and a store built of them again, so
    /// that no store is ever seen between two steps of the change.
    fn take_parts(&mut self) -> (parts: (Vec<u8>, Index))
        ensures
            parts.0@ == old(self)@.log,
            parts.1@ == old(self)@.index,
            parts.1.wf(),
            forall|k: KeyView| #[trigger] parts.1@.contains_key(k) ==> parts.1@[k] < parts.0@.len(),
            final(self)@ == StoreView::empty(),
    {
        proof {
            use_type_invariant(&*self);
        }
        let mut taken = KvStore::new();
        std::mem::swap(self, &mut taken);
        let KvStore { data, index } = taken;
        (data, index)
    }

    /// Writes `value` under `key`. The log grows by one entry, also where the
    /// key was there before: the earlier entry stays in the log, and nothing
    /// points at it any more.
    pub fn insert(&mut self, key: Key, value: OwnedValue)
        ensures
            final(self)@ == old(self)@.insert(key@, value@),
            final(self)@.wf(),
            encodable(value@),
            old(self)@.intact() ==> final(self)@.intact() && final(self)@.live() == without(
                old(self)@.live(),
                key@,
            ).push((key@, value@)),
    {
        let (mut data, mut index) = self.take_parts();
        let offset = data.len();
        serialize_value(&value, &mut data);
        proof {
            index.lemma_injective();
            lemma_decode_entry(value@, Seq::empty());
            if old(self)@.intact() {
                law_insert(old(self)@, key@, value@);
            }
        }
        index.put(key, offset);
        proof {
            index.lemma_injective();
        }
        *self = KvStore { data, index };
    }

    /// Looks `key` up and decodes its entry in place.
    pub fn get_borrowed(&self, key: &Key) -> (r: KvResult<Option<BorrowedValue<'_>>>)
        ensures
            match r {
                Ok(Some(v)) => self@.get(key@) == Ok::<Option<ValueView>, KvError>(Some(v@)),
                Ok(None) => self@.get(key@) == Ok::<Option<ValueView>, KvError>(None),
                Err(e) => self@.get(key@) == Err::<Option<ValueView>, KvError>(e),
            },
    {
        proof {
            use_type_invariant(self);
        }
        match self.index.offset_of(key) {
            Some(off) => {
                let tail = slice_subrange(self.data.as_slice(), off, self.data.len());
                assert(tail@ =~= self@.log.skip(off as int));
                match deserialize_borrowed(tail) {
                    Ok(v) => Ok(Some(v)),
                    Err(e) => Err(KvError::Corrupted(e)),
                }
            },
            None => Ok(None),
        }
    }

    /// As `get_borrowed`, with the value copied out of the log.
    pub fn get_owned(&self, key: &Key) -> (r: KvResult<Option<OwnedValue>>)
        ensures
            match r {
                Ok(Some(v)) => self@.get(key@) == Ok::<Option<ValueView>, KvError>(Some(v@)),
                Ok(None) => self@.get(key@) == Ok::<Option<ValueView>, KvError>(None),
                Err(e) => self@.get(key@) == Err::<Option<ValueView>, KvError>(e),
            },
    {
        match self.get_borrowed(key) {
            Ok(Some(borrowed)) => Ok(Some(borrowed.to_owned())),
            Ok(None) => Ok(None),
            Err(e) => Err(e),
        }
    }

    /// The number of bytes in the log, dead entries included.
    pub fn storage_len(&self) -> (len: usize)
        ensures
            len == self@.log.len(),
    {
        proof {
            use_type_invariant(self);
        }
        self.data.len()
    }

    /// Removes `key` from the index. The log is not touched.
    pub fn delete(&mut self, key: &Key)
        ensures
            final(self)@ == old(self)@.remove(key@),
            final(self)@.wf(),
            final(self)@.live() == without(old(self)@.live(), key@),
            old(self)@.intact() ==> final(self)@.intact(),
    {
        let (data, mut index) = self.take_parts();
        proof {
            index.lemma_injective();
            law_remove(old(self)@, key@);
        }
        index.remove(key);
        proof {
            index.lemma_injective();
        }
        *self = KvStore { data, index };
    }

    /// A scan of the live entries that starts at the front of the log.
    pub fn iter(&self) -> (it: StoreIter<'_>)
        ensures
            it.store() == *self,
            it.rest() == self@.live(),
    {
        proof {
            use_type_invariant(self);
        }
        StoreIter { store: self, pos: 0 }
    }

    /// The keys of the live entries, in the order in which they were written.
    pub fn keys(&self) -> (keys: Vec<&Key>)
        ensures
            keys@.len() == self@.live().len(),
            forall|i: int| 0 <= i < keys@.len() ==> (#[trigger] keys@[i])@ == self@.live()[i].0,
    {
        let mut keys: Vec<&Key> = Vec::new();
        let mut it = self.iter();
        let ghost mut seen: Seq<Pair> = Seq::empty();
        loop
            invariant
                seen + it.rest() =~= self@.live(),
                keys@.len() == seen.len(),
                forall|i: int| 0 <= i < keys@.len() ==> (#[trigger] keys@[i])@ == seen[i].0,
            decreases it.rest().len(),
        {
            match it.next() {
                Some(entry) => {
                    proof {
                        seen = seen.push((entry.key@, entry.value@));
                    }
                    keys.push(entry.key);
                },
                None => {
                    return keys;
                },
            }
        }
    }

    /// The values of the live entries, in the order in which they were
    /// written.
    pub fn values(&self) -> (values: Vec<BorrowedValue<'_>>)
        ensures
            values@.len() == self@.live().len(),
            forall|i: int|
                0 <= i < values@.len() ==> (#[trigger] values@[i])@ == self@.live()[i].1,
    {
        let mut values: Vec<BorrowedValue<'_>> = Vec::new();
        let mut it = self.iter();
        let ghost mut seen: Seq<Pair> = Seq::empty();
        loop
            invariant
                seen + it.rest() =~= self@.live(),
                values@.len() == seen.len(),
                forall|i: int| 0 <= i < values@.len() ==> (#[trigger] values@[i])@ == seen[i].1,
            decreases it.rest().len(),
        {
            match it.next() {
                Some(entry) => {
                    proof {
                        seen = seen.push((entry.key@, entry.value@));
                    }
                    values.push(entry.value);
                },
                None => {
                    return values;
                },
            }
        }
    }

    /// The offset that `key` points at. With `test_corrupt_byte` it serves
    /// to try out what the store does with a damaged log.
    pub fn test_get_offset(&self, key: &Key) -> (off: usize)
        requires
            self@.index.contains_key(key@),
        ensures
            off == self@.index[key@],
    {
        proof {
            use_type_invariant(self);
        }
        match self.index.offset_of(key) {
            Some(off) => off,
            None => 0,
        }
    }

    /// Flips every bit of the byte at `offset` of the log. This is the one
    /// way to a store that is not intact.
    pub fn test_corrupt_byte(&mut self, offset: usize)
        requires
            offset < old(self)@.log.len(),
        ensures
            final(self)@.index == old(self)@.index,
            final(self)@.log == old(self)@.log.update(
                offset as int,
                old(self)@.log[offset as int] ^ 0xFF,
            ),
            final(self)@.wf(),
    {
        let (mut data, index) = self.take_parts();
        let flipped = data[offset] ^ 0xFF;
        data.set(offset, flipped);
        proof {
            index.lemma_injective();
        }
        *self = KvStore { data, index };
    }
}

/// A live entry, as a scan hands it out: the key in the index, the value in
/// the log.
#[derive(Debug, PartialEq)]
pub struct BorrowedEntry<'a> {
    pub key: &'a Key,
    pub value: BorrowedValue<'a>,
}

/// A scan over the log that hands out the live entries one by one.
pub struct StoreIter<'a> {
    store: &'a KvStore,
    pos: usize,
}

impl<'a> StoreIter<'a> {
    #[verifier::type_invariant]
    spec fn inv(self) -> bool {
        self.pos <= self.store.data@.len()
    }

    /// The store that is scanned.
    pub closed spec fn store(&self) -> KvStore {
        *self.store
    }

    /// The live pairs that the scan has yet to hand out. They are all that
    /// can be seen of where the scan stands.
    pub closed spec fn rest(&self) -> Seq<Pair> {
        self.store@.live_from(self.pos as int)
    }

    /// The next live entry, or nothing when the scan has ended. A scan that
    /// has ended stays ended.
    pub fn next(&mut self) -> (r: Option<BorrowedEntry<'a>>)
        ensures
            final(self).store() == old(self).store(),
            match r {
                Some(e) => old(self).rest() == seq![(e.key@, e.value@)] + final(self).rest(),
                None => old(self).rest() == Seq::<Pair>::empty() && final(self).rest()
                    == Seq::<Pair>::empty(),
            },
    {
        proof {
            use_type_invariant(&*self);
            use_type_invariant(self.store);
        }
        let store: &'a KvStore = self.store;
        let len = store.data.len();
        loop
            invariant
                self.store == store,
                store == old(self).store,
                len == store.data@.len(),
                self.pos <= len,
                store.inv(),
                store@.live_from(self.pos as int) == store@.live_from(old(self).pos as int),
            decreases len - self.pos,
        {
            if self.pos >= len {
                return None;
            }
            let tail = slice_subrange(store.data.as_slice(), self.pos, len);
            assert(tail@ =~= store@.log.skip(self.pos as int));
            let (value, used) = match parse_entry(tail) {
                Ok(Some(pair)) => pair,
                Ok(None) => {
                    return None;
                },
                Err(_) => {
                    return None;
                },
            };
            let current = self.pos;
            self.pos = current + used;
            match store.index.key_at(current) {
                Some(key) => {
                    proof {
                        store.index.lemma_injective();
                        assert(store@.owned(current as int));
                        let chosen = store@.owner(current as int);
                        assert(store@.index[chosen] == store@.index[key@]);
                    }
                    return Some(BorrowedEntry { key, value });
                },
                None => {
                    assert(!store@.owned(current as int));
                },
            }
        }
    }
}

} // verus!
