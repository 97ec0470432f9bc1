//! The store as mathematics: a log of bytes and a map from keys to offsets.

use crate::entry::{decode, entry_bytes, parse};
use crate::error::KvError;
use crate::value::{KeyView, ValueView};
use vstd::prelude::*;

verus! {

/// A key and the value stored under it.
pub type Pair = (KeyView, ValueView);

/// Whether `log` from `pos` on is whole entries and nothing else.
pub open spec fn framed(log: Seq<u8>, pos: int) -> bool
    decreases log.len() - pos,
{
    if 0 <= pos < log.len() {
        match parse(log.skip(pos)) {
            Ok(Some((v, used))) => framed(log, pos + used),
            _ => false,
        }
    } else {
        pos == log.len()
    }
}

/// The pairs of `pairs` whose key is not `key`, in their order.
pub open spec fn without(pairs: Seq<Pair>, key: KeyView) -> Seq<Pair> {
    pairs.filter(|p: Pair| p.0 != key)
}

/// Whether some pair of `pairs` has the key `key`.
pub open spec fn has_key(pairs: Seq<Pair>, key: KeyView) -> bool {
    exists|i: int| 0 <= i < pairs.len() && (#[trigger] pairs[i]).0 == key
}

/// What a store holds: every entry ever written, in write order, and for
/// each key the offset at which its latest entry starts.
pub struct StoreView {
    pub log: Seq<u8>,
    pub index: Map<KeyView, nat>,
}

impl StoreView {
    /// The store with nothing in it.
    pub open spec fn empty() -> StoreView {
        StoreView { log: Seq::empty(), index: Map::empty() }
    }

    /// Every offset lies inside the log, and no two keys share one.
    pub open spec fn wf(self) -> bool {
        &&& forall|k: KeyView| #[trigger]
            self.index.contains_key(k) ==> self.index[k] < self.log.len()
        &&& forall|j: KeyView, k: KeyView|
            #![trigger self.index[j], self.index[k]]
            self.index.contains_key(j) && self.index.contains_key(k) && self.index[j]
                == self.index[k] ==> j == k
    }

    /// The store after `value` was written under `key`: the log has grown by
    /// one entry, and the key points at it.
    pub open spec fn insert(self, key: KeyView, value: ValueView) -> StoreView {
        StoreView {
            log: self.log + entry_bytes(value),
            index: self.index.insert(key, self.log.len()),
        }
    }

    /// The store after `key` was deleted: the key is gone from the index, and
    /// the log is as it was.
    pub open spec fn remove(self, key: KeyView) -> StoreView {
        StoreView { log: self.log, index: self.index.remove(key) }
    }

    /// What a lookup of `key` gives: nothing where the index has no such key,
    /// else what the bytes at its offset decode to.
    pub open spec fn get(self, key: KeyView) -> Result<Option<ValueView>, KvError> {
        if self.index.contains_key(key) {
            match decode(self.log.skip(self.index[key] as int)) {
                Ok(v) => Ok(Some(v)),
                Err(e) => Err(KvError::Corrupted(e)),
            }
        } else {
            Ok(None)
        }
    }

    /// Whether some key points at `pos`.
    pub open spec fn owned(self, pos: int) -> bool {
        exists|k: KeyView| self.index.contains_key(k) && #[trigger] self.index[k] == pos
    }

    /// The key that points at `pos`, where there is one.
    pub open spec fn owner(self, pos: int) -> KeyView {
        choose|k: KeyView| self.index.contains_key(k) && #[trigger] self.index[k] == pos
    }

    /// The live pairs that a scan from `pos` hands out, in the order of the
    /// log. Entries that no key points at are passed over; the scan ends at
    /// the end of the log, and also at bytes that do not parse.
    pub open spec fn live_from(self, pos: int) -> Seq<Pair>
        decreases self.log.len() - pos,
    {
        if 0 <= pos < self.log.len() {
            match parse(self.log.skip(pos)) {
                Ok(Some((v, used))) => if self.owned(pos) {
                    seq![(self.owner(pos), v)] + self.live_from(pos + used)
                } else {
                    self.live_from(pos + used)
                },
                _ => Seq::empty(),
            }
        } else {
            Seq::empty()
        }
    }

    /// The live pairs of the store, in the order in which they were written.
    pub open spec fn live(self) -> Seq<Pair> {
        self.live_from(0)
    }

    /// Whether the store is as its own writes leave it: well-formed, the log
    /// whole entries from its first byte to its last, and every key of the
    /// index met by a scan.
    pub open spec fn intact(self) -> bool {
        &&& self.wf()
        &&& framed(self.log, 0)
        &&& forall|k: KeyView| #[trigger] self.index.contains_key(k) ==> has_key(self.live(), k)
    }
}

} // verus!
