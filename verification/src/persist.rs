//! The file image of a store: the live pairs in order, each as the entry of
//! its key followed by the entry of its value, with nothing between, before
//! or after them.

use crate::entry::{
    encodable, entry_bytes, lemma_decode_entry, lemma_parsed, parse, parse_entry, serialize_value,
};
use crate::error::{KvError, KvResult};
use crate::laws::{law_empty, law_insert, law_live_keys_distinct, lemma_without_absent};
use crate::model::{has_key, Pair, StoreView};
use crate::store::KvStore;
use crate::value::{BorrowedValue, Key, KeyView, OwnedValue, ValueView};
use vstd::prelude::*;
use vstd::slice::slice_subrange;

verus! {

/// The value that stands for a key in a file image.
pub open spec fn key_value(key: KeyView) -> ValueView {
    match key {
        KeyView::Text(s) => ValueView::Text(s),
        KeyView::Integer(i) => ValueView::Integer(i),
    }
}

/// The key that a value stands for. Booleans and byte sequences stand for
/// none.
pub open spec fn value_key(value: ValueView) -> Option<KeyView> {
    match value {
        ValueView::Text(s) => Some(KeyView::Text(s)),
        ValueView::Integer(i) => Some(KeyView::Integer(i)),
        _ => None,
    }
}

/// The bytes of one pair: the entry of the key, then the entry of the value.
pub open spec fn pair_bytes(pair: Pair) -> Seq<u8> {
    entry_bytes(key_value(pair.0)) + entry_bytes(pair.1)
}

/// The file image of a run of pairs.
pub open spec fn image(pairs: Seq<Pair>) -> Seq<u8>
    decreases pairs.len(),
{
    if pairs.len() == 0 {
        Seq::empty()
    } else {
        image(pairs.drop_last()) + pair_bytes(pairs.last())
    }
}

/// The store that comes of reading pairs off the front of `bytes`, one after
/// the other, and writing each into `store`; or the first error on the way.
/// The entry of a key is looked at as soon as it is read: where it holds a
/// boolean or a byte sequence, that is reported, whatever follows. Only then
/// is the entry of the value looked for.
pub open spec fn replay(bytes: Seq<u8>, store: StoreView) -> Result<StoreView, KvError>
    decreases bytes.len(),
{
    if bytes.len() == 0 {
        Ok(store)
    } else {
        match parse(bytes) {
            Err(e) => Err(KvError::Corrupted(e)),
            Ok(None) => Err(KvError::UnexpectedEof),
            Ok(Some((key_entry, key_used))) => match value_key(key_entry) {
                None => Err(KvError::InvalidKeyType),
                Some(key) => {
                    let behind_key = bytes.skip(key_used);
                    if behind_key.len() == 0 {
                        Err(KvError::UnexpectedEof)
                    } else {
                        match parse(behind_key) {
                            Err(e) => Err(KvError::Corrupted(e)),
                            Ok(None) => Err(KvError::UnexpectedEof),
                            Ok(Some((value, value_used))) => replay(
                                behind_key.skip(value_used),
                                store.insert(key, value),
                            ),
                        }
                    }
                },
            },
        }
    }
}

/// The store that a file image spells.
pub open spec fn load(bytes: Seq<u8>) -> Result<StoreView, KvError> {
    replay(bytes, StoreView::empty())
}

/// The store after every pair of `pairs` was written into `store`, first to
/// last.
pub open spec fn written(store: StoreView, pairs: Seq<Pair>) -> StoreView
    decreases pairs.len(),
{
    if pairs.len() == 0 {
        store
    } else {
        written(store, pairs.drop_last()).insert(pairs.last().0, pairs.last().1)
    }
}

/// Whether every key and every value of `pairs` can be encoded. The pairs
/// of a store in memory can.
pub open spec fn savable(pairs: Seq<Pair>) -> bool {
    forall|i: int|
        0 <= i < pairs.len() ==> encodable(key_value((#[trigger] pairs[i]).0)) && encodable(
            pairs[i].1,
        )
}

impl KvStore {
    /// The file image of the store: its live pairs, in the order of a scan.
    pub fn persist_to_bytes(&self) -> (bytes: Vec<u8>)
        ensures
            bytes@ == image(self@.live()),
            savable(self@.live()),
    {
        let mut out: Vec<u8> = Vec::new();
        let mut it = self.iter();
        let ghost mut seen: Seq<Pair> = Seq::empty();
        loop
            invariant
                seen + it.rest() =~= self@.live(),
                out@ == image(seen),
                savable(seen),
            decreases it.rest().len(),
        {
            match it.next() {
                Some(entry) => {
                    let key_entry = match entry.key {
                        Key::Text(s) => OwnedValue::Text(s.clone()),
                        Key::Integer(i) => OwnedValue::Integer(*i),
                    };
                    let value = entry.value.to_owned();
                    serialize_value(&key_entry, &mut out);
                    serialize_value(&value, &mut out);
                    proof {
                        let pair = (entry.key@, entry.value@);
                        assert(seen.push(pair).drop_last() =~= seen);
                        seen = seen.push(pair);
                    }
                },
                None => {
                    assert(seen =~= self@.live());
                    return out;
                },
            }
        }
    }

    /// Builds a store from a file image by writing every pair of the image,
    /// in order, into an empty store. Nothing is built where the image is
    /// damaged, cut short, or holds a key that is neither text nor integer;
    /// the first of these that is met on the way is reported.
    pub fn load_from_bytes(bytes: &[u8]) -> (r: KvResult<KvStore>)
        ensures
            match r {
                Ok(store) => load(bytes@) == Ok::<StoreView, KvError>(store@) && store@.intact(),
                Err(e) => load(bytes@) == Err::<StoreView, KvError>(e),
            },
    {
        proof {
            law_load_intact(bytes@);
        }
        let mut store = KvStore::new();
        let mut pos: usize = 0;
        assert(bytes@.skip(0) =~= bytes@);
        while pos < bytes.len()
            invariant
                pos <= bytes.len(),
                load(bytes@) == replay(bytes@.skip(pos as int), store@),
            decreases bytes.len() - pos,
        {
            let key_slice = slice_subrange(bytes, pos, bytes.len());
            assert(key_slice@ =~= bytes@.skip(pos as int));
            let (key_entry, key_used) = match parse_entry(key_slice) {
                Ok(Some(pair)) => pair,
                Ok(None) => {
                    return Err(KvError::UnexpectedEof);
                },
                Err(e) => {
                    return Err(KvError::Corrupted(e));
                },
            };
            let key = match key_entry {
                BorrowedValue::Text(s) => Key::Text(s.to_owned()),
                BorrowedValue::Integer(i) => Key::Integer(i),
                _ => {
                    return Err(KvError::InvalidKeyType);
                },
            };
            let mid = pos + key_used;
            if mid >= bytes.len() {
                return Err(KvError::UnexpectedEof);
            }
            let value_slice = slice_subrange(bytes, mid, bytes.len());
            assert(value_slice@ =~= key_slice@.skip(key_used as int));
            let (value, value_used) = match parse_entry(value_slice) {
                Ok(Some(pair)) => pair,
                Ok(None) => {
                    return Err(KvError::UnexpectedEof);
                },
                Err(e) => {
                    return Err(KvError::Corrupted(e));
                },
            };
            assert(bytes@.skip(mid + value_used) =~= value_slice@.skip(value_used as int));
            pos = mid + value_used;
            store.insert(key, value.to_owned());
        }
        assert(bytes@.skip(pos as int) =~= Seq::<u8>::empty());
        Ok(store)
    }
}

/// The image of a run of pairs is the bytes of the first pair and the image
/// of the others.
pub proof fn lemma_image_front(first: Pair, rest: Seq<Pair>)
    ensures
        image(seq![first] + rest) == pair_bytes(first) + image(rest),
    decreases rest.len(),
{
    let all = seq![first] + rest;
    if rest.len() == 0 {
        assert(all.drop_last() =~= Seq::<Pair>::empty());
        assert(image(all.drop_last()) =~= Seq::<u8>::empty());
        assert(image(rest) =~= Seq::<u8>::empty());
        assert(image(all) =~= pair_bytes(first) + image(rest));
    } else {
        lemma_image_front(first, rest.drop_last());
        assert(all.drop_last() =~= seq![first] + rest.drop_last());
        assert(all.last() == rest.last());
        assert(image(all) =~= pair_bytes(first) + image(rest));
    }
}

/// Writing a run of pairs is writing the first and then the others.
pub proof fn lemma_written_front(store: StoreView, first: Pair, rest: Seq<Pair>)
    ensures
        written(store, seq![first] + rest) == written(store.insert(first.0, first.1), rest),
    decreases rest.len(),
{
    let all = seq![first] + rest;
    if rest.len() == 0 {
        assert(all.drop_last() =~= Seq::<Pair>::empty());
        assert(written(store, all.drop_last()) == store);
    } else {
        lemma_written_front(store, first, rest.drop_last());
        assert(all.drop_last() =~= seq![first] + rest.drop_last());
        assert(all.last() == rest.last());
    }
}

/// Reading an image that has more bytes behind it writes the pairs of the
/// image and goes on with those bytes.
pub proof fn lemma_replay_image(pairs: Seq<Pair>, more: Seq<u8>, store: StoreView)
    requires
        savable(pairs),
    ensures
        replay(image(pairs) + more, store) == replay(more, written(store, pairs)),
    decreases pairs.len(),
{
    if pairs.len() == 0 {
        assert(image(pairs) + more =~= more);
    } else {
        let first = pairs[0];
        let rest = pairs.skip(1);
        assert(pairs =~= seq![first] + rest);
        lemma_image_front(first, rest);
        lemma_written_front(store, first, rest);
        let key_entry = entry_bytes(key_value(first.0));
        let value_entry = entry_bytes(first.1);
        let bytes = image(pairs) + more;
        let behind_key = value_entry + (image(rest) + more);
        assert(bytes =~= key_entry + behind_key);
        lemma_decode_entry(key_value(first.0), behind_key);
        lemma_decode_entry(first.1, image(rest) + more);
        assert(bytes.skip(key_entry.len() as int) =~= behind_key);
        assert(behind_key.skip(value_entry.len() as int) =~= image(rest) + more);
        assert forall|i: int| 0 <= i < rest.len() implies encodable(
            key_value((#[trigger] rest[i]).0),
        ) && encodable(rest[i].1) by {
            assert(rest[i] == pairs[i + 1]);
        }
        lemma_replay_image(rest, more, store.insert(first.0, first.1));
    }
}

/// Pairs with keys that differ, written into an empty store, are the live
/// pairs of that store, in their order.
pub proof fn lemma_written_live(pairs: Seq<Pair>)
    requires
        savable(pairs),
        forall|i: int, j: int|
            0 <= i < j < pairs.len() ==> (#[trigger] pairs[i]).0 != (#[trigger] pairs[j]).0,
    ensures
        written(StoreView::empty(), pairs).intact(),
        written(StoreView::empty(), pairs).live() == pairs,
    decreases pairs.len(),
{
    if pairs.len() == 0 {
        law_empty();
    } else {
        let front = pairs.drop_last();
        let last = pairs.last();
        assert forall|i: int| 0 <= i < front.len() implies encodable(
            key_value((#[trigger] front[i]).0),
        ) && encodable(front[i].1) by {
            assert(front[i] == pairs[i]);
        }
        assert forall|i: int, j: int| 0 <= i < j < front.len() implies (#[trigger] front[i]).0
            != (#[trigger] front[j]).0 by {
            assert(front[i] == pairs[i]);
            assert(front[j] == pairs[j]);
        }
        lemma_written_live(front);
        let before = written(StoreView::empty(), front);
        assert(encodable(pairs[pairs.len() - 1].1));
        law_insert(before, last.0, last.1);
        assert(!has_key(front, last.0)) by {
            if has_key(front, last.0) {
                let i = choose|i: int| 0 <= i < front.len() && (#[trigger] front[i]).0 == last.0;
                assert(front[i] == pairs[i]);
                assert(pairs[i].0 != pairs[pairs.len() - 1].0);
            }
        }
        lemma_without_absent(front, last.0);
        assert(front.push(last) =~= pairs);
    }
}

/// Saving a store and loading the image gives a store with the same live
/// pairs in the same order, and that store is intact.
pub proof fn law_save_load(s: StoreView)
    requires
        savable(s.live()),
    ensures
        load(image(s.live())) matches Ok(t) && t.live() == s.live() && t.intact(),
{
    let pairs = s.live();
    law_live_keys_distinct(s);
    lemma_replay_image(pairs, Seq::empty(), StoreView::empty());
    assert(image(pairs) + Seq::<u8>::empty() =~= image(pairs));
    lemma_written_live(pairs);
}

/// An image that is cut off behind the entry of a key is reported as cut
/// short.
pub proof fn law_cut_behind_key(pairs: Seq<Pair>, key: KeyView)
    requires
        savable(pairs),
        encodable(key_value(key)),
    ensures
        load(image(pairs) + entry_bytes(key_value(key))) == Err::<StoreView, KvError>(
            KvError::UnexpectedEof,
        ),
{
    let entry = entry_bytes(key_value(key));
    lemma_replay_image(pairs, entry, StoreView::empty());
    lemma_decode_entry(key_value(key), Seq::empty());
    assert(entry + Seq::<u8>::empty() =~= entry);
    assert(entry.skip(entry.len() as int) =~= Seq::<u8>::empty());
}

/// An image with a boolean or a byte sequence where a key is due is
/// reported as holding a key of the wrong type, whatever follows that
/// entry, and also where nothing follows it.
pub proof fn law_key_of_wrong_type(pairs: Seq<Pair>, entry: ValueView, more: Seq<u8>)
    requires
        savable(pairs),
        encodable(entry),
        value_key(entry) is None,
    ensures
        load(image(pairs) + (entry_bytes(entry) + more)) == Err::<StoreView, KvError>(
            KvError::InvalidKeyType,
        ),
{
    lemma_replay_image(pairs, entry_bytes(entry) + more, StoreView::empty());
    lemma_decode_entry(entry, more);
}

/// Reading pairs into an intact store leaves an intact store.
pub proof fn lemma_replay_intact(bytes: Seq<u8>, store: StoreView)
    requires
        store.intact(),
    ensures
        replay(bytes, store) matches Ok(t) ==> t.intact(),
    decreases bytes.len(),
{
    if bytes.len() > 0 {
        if let Ok(Some((key_entry, key_used))) = parse(bytes) {
            lemma_parsed(bytes);
            let behind_key = bytes.skip(key_used);
            if let Some(key) = value_key(key_entry) {
                if behind_key.len() > 0 {
                    if let Ok(Some((value, value_used))) = parse(behind_key) {
                        lemma_parsed(behind_key);
                        law_insert(store, key, value);
                        lemma_replay_intact(behind_key.skip(value_used), store.insert(key, value));
                    }
                }
            }
        }
    }
}

/// No bytes at all are the image of the empty store.
pub proof fn law_load_nothing()
    ensures
        load(Seq::empty()) == Ok::<StoreView, KvError>(StoreView::empty()),
{
}

/// A store that was loaded is intact.
pub proof fn law_load_intact(bytes: Seq<u8>)
    ensures
        load(bytes) matches Ok(t) ==> t.intact(),
{
    law_empty();
    lemma_replay_intact(bytes, StoreView::empty());
}

} // verus!
