//! What holds of every store: how writes and deletes change the live pairs,
//! and what a lookup and a scan then give.

use crate::checksum::crc32;
use crate::entry::{
    decode, decode_payload, encodable, entry_bytes, entry_span, lemma_decode_entry,
    lemma_parse_ignores_rest, lemma_parsed, parse, HEADER_SIZE,
};
use crate::error::{DecodeError, KvError};
use crate::model::{framed, has_key, without, Pair, StoreView};
use crate::value::{KeyView, ValueView};
use vstd::prelude::*;

verus! {

/// Nothing is left of nothing.
pub proof fn lemma_without_empty(key: KeyView)
    ensures
        without(Seq::empty(), key) == Seq::<Pair>::empty(),
{
    reveal(Seq::filter);
}

/// Leaving a key out of a run of pairs goes pair by pair, from the front.
pub proof fn lemma_without_front(first: Pair, rest: Seq<Pair>, key: KeyView)
    ensures
        without(seq![first] + rest, key) == if first.0 == key {
            without(rest, key)
        } else {
            seq![first] + without(rest, key)
        },
{
    let pred = |p: Pair| p.0 != key;
    Seq::filter_distributes_over_add(seq![first], rest, pred);
    reveal_with_fuel(Seq::filter, 2);
    assert(seq![first].drop_last() =~= Seq::<Pair>::empty());
    if first.0 == key {
        assert(seq![first].filter(pred) =~= Seq::<Pair>::empty());
        assert(Seq::<Pair>::empty() + rest.filter(pred) =~= rest.filter(pred));
    } else {
        assert(seq![first].filter(pred) =~= seq![first]);
    }
}

/// Leaving a key out of a run of pairs goes pair by pair, from the back.
pub proof fn lemma_without_back(pairs: Seq<Pair>, last: Pair, key: KeyView)
    ensures
        without(pairs.push(last), key) == if last.0 == key {
            without(pairs, key)
        } else {
            without(pairs, key).push(last)
        },
{
    reveal(Seq::filter);
    assert(pairs.push(last).drop_last() =~= pairs);
}

/// What is left holds no pair of the key that was left out.
pub proof fn lemma_without_clean(pairs: Seq<Pair>, key: KeyView)
    ensures
        !has_key(without(pairs, key), key),
    decreases pairs.len(),
{
    reveal(Seq::filter);
    if pairs.len() > 0 {
        lemma_without_clean(pairs.drop_last(), key);
    }
}

/// Leaving out a key that no pair has changes nothing.
pub proof fn lemma_without_absent(pairs: Seq<Pair>, key: KeyView)
    requires
        !has_key(pairs, key),
    ensures
        without(pairs, key) == pairs,
    decreases pairs.len(),
{
    reveal(Seq::filter);
    if pairs.len() > 0 {
        let front = pairs.drop_last();
        assert forall|i: int| 0 <= i < front.len() implies (#[trigger] front[i]).0 != key by {
            assert(front[i] == pairs[i]);
        }
        lemma_without_absent(front, key);
        assert(pairs.last() == pairs[pairs.len() - 1]);
        assert(front.push(pairs.last()) =~= pairs);
    }
}

/// Leaving out one key keeps every pair of another key.
pub proof fn lemma_without_keeps(pairs: Seq<Pair>, key: KeyView, other: KeyView)
    requires
        has_key(pairs, other),
        other != key,
    ensures
        has_key(without(pairs, key), other),
    decreases pairs.len(),
{
    reveal(Seq::filter);
    let i = choose|i: int| 0 <= i < pairs.len() && (#[trigger] pairs[i]).0 == other;
    let front = pairs.drop_last();
    let kept = without(pairs, key);
    if i == pairs.len() - 1 {
        assert(kept[kept.len() - 1] == pairs[i]);
    } else {
        assert(front[i] == pairs[i]);
        lemma_without_keeps(front, key, other);
        let j = choose|j: int|
            0 <= j < without(front, key).len() && (#[trigger] without(front, key)[j]).0 == other;
        assert(kept[j] == without(front, key)[j]);
    }
}

/// In a well-formed store the key that points at an offset is the owner of
/// that offset.
pub proof fn lemma_owner(s: StoreView, pos: int, key: KeyView)
    requires
        s.wf(),
        s.index.contains_key(key),
        s.index[key] == pos,
    ensures
        s.owned(pos),
        s.owner(pos) == key,
{
    let chosen = s.owner(pos);
    assert(s.index[chosen] == s.index[key]);
}

/// Every key that a scan hands out is in the index.
pub proof fn lemma_live_keys_indexed(s: StoreView, key: KeyView)
    requires
        has_key(s.live(), key),
    ensures
        s.index.contains_key(key),
{
    let i = choose|i: int| 0 <= i < s.live().len() && (#[trigger] s.live()[i]).0 == key;
    lemma_live_sound(s, 0, i);
}

/// A write keeps a well-formed store well-formed.
pub proof fn lemma_insert_wf(s: StoreView, key: KeyView, value: ValueView)
    requires
        s.wf(),
        encodable(value),
    ensures
        s.insert(key, value).wf(),
{
    lemma_decode_entry(value, Seq::empty());
}

/// From an entry boundary on, the scan of the store after a write hands out
/// what the scan of the store before it did, less the pair of the key, and
/// then the new pair.
proof fn lemma_insert_from(s: StoreView, key: KeyView, value: ValueView, pos: int)
    requires
        s.wf(),
        encodable(value),
        0 <= pos <= s.log.len(),
        framed(s.log, pos),
    ensures
        framed(s.insert(key, value).log, pos),
        s.insert(key, value).live_from(pos) == without(s.live_from(pos), key).push((key, value)),
    decreases s.log.len() - pos,
{
    let t = s.insert(key, value);
    let entry = entry_bytes(value);
    let end = s.log.len() as int;
    lemma_insert_wf(s, key, value);
    lemma_decode_entry(value, Seq::empty());
    assert(entry + Seq::<u8>::empty() =~= entry);
    if pos == end {
        assert(t.log.skip(pos) =~= entry);
        lemma_owner(t, pos, key);
        lemma_without_empty(key);
        assert(framed(t.log, pos + entry.len()));
        assert(t.live_from(pos + entry.len()) =~= Seq::<Pair>::empty());
        assert(t.live_from(pos) =~= seq![(key, value)]);
        assert(s.live_from(pos) =~= Seq::<Pair>::empty());
        assert(Seq::<Pair>::empty().push((key, value)) =~= seq![(key, value)]);
    } else {
        let tail = s.log.skip(pos);
        assert(t.log.skip(pos) =~= tail + entry);
        match parse(tail) {
            Ok(Some((v, used))) => {
                lemma_parse_ignores_rest(tail, entry);
                lemma_insert_from(s, key, value, pos + used);
                let rest = s.live_from(pos + used);
                let grown = without(rest, key).push((key, value));
                if s.owned(pos) {
                    let holder = s.owner(pos);
                    if holder == key {
                        assert(!t.owned(pos)) by {
                            if t.owned(pos) {
                                let j = t.owner(pos);
                                assert(s.index[j] == s.index[holder]);
                            }
                        }
                    } else {
                        lemma_owner(t, pos, holder);
                        assert(seq![(holder, v)] + grown =~= (seq![(holder, v)] + without(
                            rest,
                            key,
                        )).push((key, value)));
                    }
                    lemma_without_front((holder, v), rest, key);
                } else {
                    assert(!t.owned(pos)) by {
                        if t.owned(pos) {
                            let j = t.owner(pos);
                            assert(s.index.contains_key(j) && s.index[j] == pos);
                        }
                    }
                }
            },
            _ => {},
        }
    }
}

/// From any offset on, the scan of the store after a delete hands out what
/// the scan of the store before it did, less the pair of the key.
proof fn lemma_remove_from(s: StoreView, key: KeyView, pos: int)
    requires
        s.wf(),
    ensures
        s.remove(key).live_from(pos) == without(s.live_from(pos), key),
    decreases s.log.len() - pos,
{
    let t = s.remove(key);
    lemma_without_empty(key);
    if 0 <= pos < s.log.len() {
        match parse(s.log.skip(pos)) {
            Ok(Some((v, used))) => {
                lemma_remove_from(s, key, pos + used);
                let rest = s.live_from(pos + used);
                if s.owned(pos) {
                    let holder = s.owner(pos);
                    if holder == key {
                        assert(!t.owned(pos)) by {
                            if t.owned(pos) {
                                let j = t.owner(pos);
                                assert(s.index[j] == s.index[holder]);
                            }
                        }
                    } else {
                        lemma_owner(t, pos, holder);
                    }
                    lemma_without_front((holder, v), rest, key);
                } else {
                    assert(!t.owned(pos)) by {
                        if t.owned(pos) {
                            let j = t.owner(pos);
                            assert(s.index.contains_key(j) && s.index[j] == pos);
                        }
                    }
                }
            },
            _ => {},
        }
    }
}

/// A write puts its pair behind the live pairs and takes out the pair that
/// the key had before. The store stays intact.
pub proof fn law_insert(s: StoreView, key: KeyView, value: ValueView)
    requires
        s.intact(),
        encodable(value),
    ensures
        s.insert(key, value).intact(),
        s.insert(key, value).live() == without(s.live(), key).push((key, value)),
{
    let t = s.insert(key, value);
    lemma_insert_wf(s, key, value);
    lemma_insert_from(s, key, value, 0);
    let kept = without(s.live(), key);
    assert forall|k: KeyView| #[trigger] t.index.contains_key(k) implies has_key(t.live(), k) by {
        if k == key {
            assert(t.live()[kept.len() as int].0 == key);
        } else {
            lemma_without_keeps(s.live(), key, k);
            let i = choose|i: int| 0 <= i < kept.len() && (#[trigger] kept[i]).0 == k;
            assert(t.live()[i] == kept[i]);
        }
    }
}

/// A delete takes the pair of its key out of the live pairs and leaves the
/// others as they stand. The log is not touched, and the store stays
/// intact.
pub proof fn law_remove(s: StoreView, key: KeyView)
    requires
        s.wf(),
    ensures
        s.remove(key).wf(),
        s.remove(key).log == s.log,
        s.remove(key).live() == without(s.live(), key),
        s.intact() ==> s.remove(key).intact(),
{
    let t = s.remove(key);
    lemma_remove_from(s, key, 0);
    if s.intact() {
        assert forall|k: KeyView| #[trigger] t.index.contains_key(k) implies has_key(
            t.live(),
            k,
        ) by {
            lemma_without_keeps(s.live(), key, k);
        }
    }
}

/// The empty store is intact and has no live pair.
pub proof fn law_empty()
    ensures
        StoreView::empty().intact(),
        StoreView::empty().live() == Seq::<Pair>::empty(),
{
}

/// After a key was written twice, a lookup gives the second value, and a
/// scan hands out one pair for the key, the last of all, with the second
/// value.
pub proof fn law_overwrite(s: StoreView, key: KeyView, first: ValueView, second: ValueView)
    requires
        s.intact(),
        encodable(first),
        encodable(second),
    ensures
        ({
            let t = s.insert(key, first).insert(key, second);
            &&& t.get(key) == Ok::<Option<ValueView>, KvError>(Some(second))
            &&& t.live() == without(s.live(), key).push((key, second))
            &&& !has_key(t.live().drop_last(), key)
            &&& t.live().last() == (key, second)
        }),
{
    let mid = s.insert(key, first);
    let t = mid.insert(key, second);
    law_insert(s, key, first);
    law_insert(mid, key, second);
    lemma_decode_entry(second, Seq::empty());
    assert(entry_bytes(second) + Seq::<u8>::empty() =~= entry_bytes(second));
    assert(t.log.skip(mid.log.len() as int) =~= entry_bytes(second));
    let kept = without(s.live(), key);
    lemma_without_back(kept, (key, first), key);
    lemma_without_clean(s.live(), key);
    lemma_without_absent(kept, key);
    assert(t.live().drop_last() =~= kept);
}

/// After a delete a lookup of the key finds nothing and a scan hands out no
/// pair for it, while the bytes of its last entry are still in the log.
pub proof fn law_delete(s: StoreView, key: KeyView)
    requires
        s.wf(),
    ensures
        s.remove(key).get(key) == Ok::<Option<ValueView>, KvError>(None),
        !has_key(s.remove(key).live(), key),
        s.remove(key).log == s.log,
{
    law_remove(s, key);
    lemma_without_clean(s.live(), key);
}

/// Keys that are written one after the other, none of them in the store
/// before, come out of a scan in the order in which they were written,
/// behind what was live before.
pub proof fn law_insertion_order(
    s: StoreView,
    x: Pair,
    y: Pair,
    z: Pair,
)
    requires
        s.intact(),
        encodable(x.1),
        encodable(y.1),
        encodable(z.1),
        x.0 != y.0,
        y.0 != z.0,
        x.0 != z.0,
        !s.index.contains_key(x.0),
        !s.index.contains_key(y.0),
        !s.index.contains_key(z.0),
    ensures
        s.insert(x.0, x.1).insert(y.0, y.1).insert(z.0, z.1).live() == s.live() + seq![x, y, z],
{
    let a = s.insert(x.0, x.1);
    let b = a.insert(y.0, y.1);
    let c = b.insert(z.0, z.1);
    law_insert(s, x.0, x.1);
    law_insert(a, y.0, y.1);
    law_insert(b, z.0, z.1);
    if has_key(s.live(), x.0) {
        lemma_live_keys_indexed(s, x.0);
    }
    lemma_without_absent(s.live(), x.0);
    if has_key(a.live(), y.0) {
        lemma_live_keys_indexed(a, y.0);
    }
    lemma_without_absent(a.live(), y.0);
    if has_key(b.live(), z.0) {
        lemma_live_keys_indexed(b, z.0);
    }
    lemma_without_absent(b.live(), z.0);
    assert(c.live() =~= s.live() + seq![x, y, z]);
}

/// A pair that a scan from `pos` hands out has its key in the index, at an
/// offset not before `pos`, and its value is what the bytes at that offset
/// decode to, and can be encoded.
pub proof fn lemma_live_sound(s: StoreView, pos: int, i: int)
    requires
        0 <= pos,
        0 <= i < s.live_from(pos).len(),
    ensures
        ({
            let (key, value) = s.live_from(pos)[i];
            &&& s.index.contains_key(key)
            &&& pos <= s.index[key]
            &&& decode(s.log.skip(s.index[key] as int)) == Ok::<ValueView, DecodeError>(value)
            &&& encodable(value)
        }),
    decreases s.log.len() - pos,
{
    let pairs = s.live_from(pos);
    if 0 <= pos < s.log.len() {
        let tail = s.log.skip(pos);
        match parse(tail) {
            Ok(Some((v, used))) => {
                lemma_parsed(tail);
                let rest = s.live_from(pos + used);
                if s.owned(pos) {
                    if i > 0 {
                        assert(rest[i - 1] == pairs[i]);
                        lemma_live_sound(s, pos + used, i - 1);
                    }
                } else {
                    lemma_live_sound(s, pos + used, i);
                }
            },
            _ => {},
        }
    }
}

/// The pairs of a scan stand in the order of their offsets.
pub proof fn lemma_live_ascending(s: StoreView, pos: int, i: int, j: int)
    requires
        0 <= pos,
        0 <= i < j < s.live_from(pos).len(),
    ensures
        s.index[s.live_from(pos)[i].0] < s.index[s.live_from(pos)[j].0],
    decreases s.log.len() - pos,
{
    let pairs = s.live_from(pos);
    if 0 <= pos < s.log.len() {
        let tail = s.log.skip(pos);
        match parse(tail) {
            Ok(Some((v, used))) => {
                lemma_parsed(tail);
                let rest = s.live_from(pos + used);
                if s.owned(pos) {
                    assert(rest[j - 1] == pairs[j]);
                    if i > 0 {
                        assert(rest[i - 1] == pairs[i]);
                        lemma_live_ascending(s, pos + used, i - 1, j - 1);
                    } else {
                        lemma_live_sound(s, pos + used, j - 1);
                    }
                } else {
                    lemma_live_ascending(s, pos + used, i, j);
                }
            },
            _ => {},
        }
    }
}

/// A scan hands out no key twice.
pub proof fn law_live_keys_distinct(s: StoreView)
    ensures
        forall|i: int, j: int|
            0 <= i < j < s.live().len() ==> (#[trigger] s.live()[i]).0 != (
            #[trigger] s.live()[j]).0,
{
    assert forall|i: int, j: int| 0 <= i < j < s.live().len() implies (#[trigger] s.live()[i]).0
        != (#[trigger] s.live()[j]).0 by {
        lemma_live_ascending(s, 0, i, j);
    }
}

/// In an intact store a lookup and a scan agree: a key of the index is
/// looked up without error, and its value is the one that the scan hands
/// out with it; a key that is not in the index is found by neither.
pub proof fn law_lookup_agrees_with_scan(s: StoreView, key: KeyView)
    requires
        s.intact(),
    ensures
        match s.get(key) {
            Ok(Some(value)) => s.index.contains_key(key) && s.live().contains((key, value)),
            Ok(None) => !s.index.contains_key(key) && !has_key(s.live(), key),
            Err(_) => false,
        },
{
    if s.index.contains_key(key) {
        let i = choose|i: int| 0 <= i < s.live().len() && (#[trigger] s.live()[i]).0 == key;
        lemma_live_sound(s, 0, i);
    } else if has_key(s.live(), key) {
        lemma_live_keys_indexed(s, key);
    }
}

/// The payload of the entry that starts at `off` of `log`.
pub open spec fn payload_at(log: Seq<u8>, off: int) -> Seq<u8> {
    log.subrange(off + HEADER_SIZE, off + entry_span(log.skip(off)))
}

/// What a lookup gives after a byte in the payload of the key's entry was
/// changed. Where the checksum of the changed payload is not the stored
/// one, the lookup reports a checksum mismatch that carries both, and hands
/// out neither the stored value nor another one. Only a changed payload
/// with the very checksum of the payload that was written is decoded; that
/// CRC-32 has no two such payloads a single byte apart is a property of the
/// checksum, which this library names and does not define.
pub proof fn law_corruption_detected(s: StoreView, key: KeyView, at: int, byte: u8)
    requires
        s.wf(),
        s.index.contains_key(key),
        s.get(key) is Ok,
        s.index[key] + HEADER_SIZE <= at < s.index[key] + entry_span(
            s.log.skip(s.index[key] as int),
        ),
    ensures
        ({
            let off = s.index[key] as int;
            let damaged = StoreView { log: s.log.update(at, byte), index: s.index };
            let computed = crc32(payload_at(damaged.log, off));
            let stored = crc32(payload_at(s.log, off));
            damaged.get(key) == if computed != stored {
                Err::<Option<ValueView>, KvError>(
                    KvError::Corrupted(DecodeError::ChecksumMismatch { computed, stored }),
                )
            } else {
                match decode_payload(s.log[off + HEADER_SIZE - 1], payload_at(damaged.log, off)) {
                    Ok(value) => Ok(Some(value)),
                    Err(e) => Err(KvError::Corrupted(e)),
                }
            }
        }),
{
    let off = s.index[key] as int;
    let tail = s.log.skip(off);
    let changed = s.log.update(at, byte).skip(off);
    let span = entry_span(tail);
    assert(changed.subrange(0, 8) =~= tail.subrange(0, 8));
    assert(changed.subrange(8, 12) =~= tail.subrange(8, 12));
    assert(tail.subrange(HEADER_SIZE as int, span) =~= payload_at(s.log, off));
    assert(changed.subrange(HEADER_SIZE as int, span) =~= payload_at(s.log.update(at, byte), off));
}

} // verus!
