//! A store of notes on top of the key-value store. A note is kept as a byte
//! sequence under its numeric id; a counter under a text key hands out the
//! ids.

use crate::entry::{entry_bytes, lemma_decode_entry};
use crate::error::KvError;
use crate::model::{Pair, StoreView};
use crate::persist::{image, load};
use crate::store::KvStore;
use crate::value::{BorrowedValue, Key, KeyView, OwnedValue, ValueView};
use vstd::bytes::spec_u64_to_le_bytes;
use vstd::prelude::*;
use vstd::utf8::encode_utf8;
use vstd::wrapping::u64_specs::wrapping_add;

verus! {

/// A note.
#[derive(Debug, Clone, PartialEq, Eq)]
pub struct Note {
    pub id: u64,
    pub title: String,
    pub body: String,
    pub tags: Vec<String>,
    pub updated_at: u64,
}

/// What a list of notes shows of each.
#[derive(Debug, Clone, PartialEq, Eq)]
pub struct NoteMeta {
    pub id: u64,
    pub title: String,
    pub updated_at: u64,
    pub tags: Vec<String>,
}

/// What the note store reports to its caller.
#[derive(Debug, Clone, Copy, PartialEq, Eq)]
pub enum NoteError {
    /// The key-value store below reported an error, or holds under a note's
    /// key, or under the counter's, a value of the wrong type.
    Store(KvError),
    /// The bytes kept under a note's key are not a note.
    NoteDecodeFailed,
    /// The note could not be turned into bytes.
    NoteEncodeFailed,
}

/// The content of a note.
pub struct NoteView {
    pub id: u64,
    pub title: Seq<char>,
    pub body: Seq<char>,
    pub tags: Seq<Seq<char>>,
    pub updated_at: u64,
}

/// The content of a list line.
pub struct MetaView {
    pub id: u64,
    pub title: Seq<char>,
    pub updated_at: u64,
    pub tags: Seq<Seq<char>>,
}

impl View for Note {
    type V = NoteView;

    open spec fn view(&self) -> NoteView {
        NoteView {
            id: self.id,
            title: self.title@,
            body: self.body@,
            tags: self.tags.deep_view(),
            updated_at: self.updated_at,
        }
    }
}

impl View for NoteMeta {
    type V = MetaView;

    open spec fn view(&self) -> MetaView {
        MetaView {
            id: self.id,
            title: self.title@,
            updated_at: self.updated_at,
            tags: self.tags.deep_view(),
        }
    }
}

/// The bytes that `bincode::serialize` makes of the five fields of a note,
/// taken in the order id, title, body, tags, time of the last change; or
/// nothing where it reports an error.
pub uninterp spec fn note_encoding(
    id: u64,
    title: Seq<char>,
    body: Seq<char>,
    tags: Seq<Seq<char>>,
    updated_at: u64,
) -> Option<Seq<u8>>;

/// The five fields that `bincode::deserialize` reads out of bytes, in the
/// same order; or nothing where it reports an error.
pub uninterp spec fn note_decoding(bytes: Seq<u8>) -> Option<
    (u64, Seq<char>, Seq<char>, Seq<Seq<char>>, u64),
>;

/// A text as it stands among the bytes of a note: the number of its UTF-8
/// bytes in eight bytes, little-endian, and then those bytes.
pub open spec fn text_bytes(text: Seq<char>) -> Seq<u8> {
    spec_u64_to_le_bytes(encode_utf8(text).len() as u64) + encode_utf8(text)
}

/// A run of texts, one behind the other.
pub open spec fn texts_bytes(texts: Seq<Seq<char>>) -> Seq<u8>
    decreases texts.len(),
{
    if texts.len() == 0 {
        Seq::empty()
    } else {
        texts_bytes(texts.drop_last()) + text_bytes(texts.last())
    }
}

/// The layout of a note: the id in eight bytes, little-endian; the title;
/// the body; the number of tags in eight bytes and the tags; the time of
/// the last change in eight bytes.
pub open spec fn note_bytes(note: NoteView) -> Seq<u8> {
    spec_u64_to_le_bytes(note.id) + text_bytes(note.title) + text_bytes(note.body)
        + spec_u64_to_le_bytes(note.tags.len() as u64) + texts_bytes(note.tags)
        + spec_u64_to_le_bytes(note.updated_at)
}

/// The bytes of a note.
pub open spec fn encoded(note: NoteView) -> Option<Seq<u8>> {
    note_encoding(note.id, note.title, note.body, note.tags, note.updated_at)
}

/// The note that bytes spell.
pub open spec fn decoded(bytes: Seq<u8>) -> Option<NoteView> {
    match note_decoding(bytes) {
        Some((id, title, body, tags, updated_at)) => Some(
            NoteView { id, title, body, tags, updated_at },
        ),
        None => None,
    }
}

/// Calls `bincode::serialize` on the tuple of the note's fields.
///
/// Trusted, of the call with its fixed-width little-endian integers: what
/// comes back depends on the five fields alone, and `note_encoding` is its
/// name; bytes that come back have the layout of `note_bytes`, each field
/// written in turn, a text or a run behind its length; and
/// `bincode::deserialize`, which reads the fields in the same turn and the
/// same widths, makes of those bytes the five fields again.
#[verifier::external_body]
fn serialize_fields(note: &Note) -> (bytes: Option<Vec<u8>>)
    ensures
        note_encoding(
            note.id,
            note.title@,
            note.body@,
            note.tags.deep_view(),
            note.updated_at,
        ) == match bytes {
            Some(b) => Some(b@),
            None => None,
        },
        bytes matches Some(b) ==> b@ == note_bytes(note@),
        bytes matches Some(b) ==> note_decoding(b@) == Some(
            (note.id, note.title@, note.body@, note.tags.deep_view(), note.updated_at),
        ),
{
    bincode::serialize(&(note.id, &note.title, &note.body, &note.tags, note.updated_at)).ok()
}

/// Calls `bincode::deserialize` for a tuple of the five fields and moves
/// them into a note.
///
/// Trusted: what comes back depends on the bytes alone; `note_decoding` is
/// its name. Nothing is claimed of the fields.
#[verifier::external_body]
fn deserialize_fields(bytes: &[u8]) -> (note: Option<Note>)
    ensures
        note_decoding(bytes@) == match note {
            Some(n) => Some((n.id, n.title@, n.body@, n.tags.deep_view(), n.updated_at)),
            None => None,
        },
{
    match bincode::deserialize::<(u64, String, String, Vec<String>, u64)>(bytes) {
        Ok((id, title, body, tags, updated_at)) => Some(Note { id, title, body, tags, updated_at }),
        Err(_) => None,
    }
}

/// The bytes under which a note is kept. They have the layout of
/// `note_bytes`, and `note_from_bytes` makes the note of them again.
pub fn note_to_bytes(note: &Note) -> (r: Result<Vec<u8>, NoteError>)
    ensures
        match r {
            Ok(bytes) => {
                &&& encoded(note@) == Some(bytes@)
                &&& bytes@ == note_bytes(note@)
                &&& decoded(bytes@) == Some(note@)
            },
            Err(e) => encoded(note@) is None && e == NoteError::NoteEncodeFailed,
        },
{
    match serialize_fields(note) {
        Some(bytes) => Ok(bytes),
        None => Err(NoteError::NoteEncodeFailed),
    }
}

/// The note that is kept as `bytes`.
pub fn note_from_bytes(bytes: &[u8]) -> (r: Result<Note, NoteError>)
    ensures
        match r {
            Ok(note) => decoded(bytes@) == Some(note@),
            Err(e) => decoded(bytes@) is None && e == NoteError::NoteDecodeFailed,
        },
{
    match deserialize_fields(bytes) {
        Some(note) => Ok(note),
        None => Err(NoteError::NoteDecodeFailed),
    }
}

/// The key under which the note with this id is kept.
pub open spec fn note_key(id: u64) -> KeyView {
    KeyView::Integer(id as i64)
}

/// The key of the counter that holds the next free id.
pub open spec fn counter_key() -> KeyView {
    KeyView::Text("__meta_next_id"@)
}

/// The note that a store holds under an id, if any.
pub open spec fn note_in(store: StoreView, id: u64) -> Result<Option<NoteView>, NoteError> {
    match store.get(note_key(id)) {
        Err(e) => Err(NoteError::Store(e)),
        Ok(None) => Ok(None),
        Ok(Some(ValueView::Blob(bytes))) => match decoded(bytes) {
            Some(note) => Ok(Some(note)),
            None => Err(NoteError::NoteDecodeFailed),
        },
        Ok(Some(_)) => Err(NoteError::Store(KvError::InvalidKeyType)),
    }
}

/// The id that the next new note gets: what the counter holds, and 1 where
/// there is no counter yet.
pub open spec fn next_id(store: StoreView) -> Result<u64, NoteError> {
    match store.get(counter_key()) {
        Err(e) => Err(NoteError::Store(e)),
        Ok(None) => Ok(1),
        Ok(Some(ValueView::Integer(i))) => Ok(i as u64),
        Ok(Some(_)) => Err(NoteError::Store(KvError::InvalidKeyType)),
    }
}

/// The store after `note` was written under its id.
pub open spec fn with_note(store: StoreView, note: NoteView) -> Result<StoreView, NoteError> {
    match encoded(note) {
        Some(bytes) => Ok(store.insert(note_key(note.id), ValueView::Blob(bytes))),
        None => Err(NoteError::NoteEncodeFailed),
    }
}

/// The note that `create` makes of a title and a body under an id.
pub open spec fn fresh_note(id: u64, title: Seq<char>, body: Seq<char>) -> NoteView {
    NoteView { id, title, body, tags: Seq::empty(), updated_at: 0 }
}

/// The id of a new note and the store that holds it: the note is written
/// under the next free id, and the counter then holds the id behind it.
pub open spec fn created(store: StoreView, title: Seq<char>, body: Seq<char>) -> Result<
    (u64, StoreView),
    NoteError,
> {
    match next_id(store) {
        Err(e) => Err(e),
        Ok(id) => match with_note(store, fresh_note(id, title, body)) {
            Err(e) => Err(e),
            Ok(grown) => Ok(
                (id, grown.insert(counter_key(), ValueView::Integer(wrapping_add(id, 1) as i64))),
            ),
        },
    }
}

/// The list line of a note.
pub open spec fn meta_of(note: NoteView) -> MetaView {
    MetaView { id: note.id, title: note.title, updated_at: note.updated_at, tags: note.tags }
}

/// The list lines of the notes among `pairs`, in the order of the pairs, or
/// the error of the first pair that has an integer key and holds no note.
/// Pairs with text keys are not notes and are passed over.
pub open spec fn listed(pairs: Seq<Pair>) -> Result<Seq<MetaView>, NoteError>
    decreases pairs.len(),
{
    if pairs.len() == 0 {
        Ok(Seq::empty())
    } else {
        match listed(pairs.drop_last()) {
            Err(e) => Err(e),
            Ok(lines) => match pairs.last() {
                (KeyView::Text(_), _) => Ok(lines),
                (KeyView::Integer(_), ValueView::Blob(bytes)) => match decoded(bytes) {
                    Some(note) => Ok(lines.push(meta_of(note))),
                    None => Err(NoteError::NoteDecodeFailed),
                },
                (KeyView::Integer(_), _) => Err(NoteError::Store(KvError::InvalidKeyType)),
            },
        }
    }
}

/// `lines`, which are in the order of their ids, with `line` put in behind
/// every line whose id is not greater.
pub open spec fn placed(lines: Seq<MetaView>, line: MetaView) -> Seq<MetaView>
    decreases lines.len(),
{
    if lines.len() == 0 {
        seq![line]
    } else if lines.last().id <= line.id {
        lines.push(line)
    } else {
        placed(lines.drop_last(), line).push(lines.last())
    }
}

/// `lines` in the order of their ids; lines with the same id keep the order
/// they came in.
pub open spec fn ordered(lines: Seq<MetaView>) -> Seq<MetaView>
    decreases lines.len(),
{
    if lines.len() == 0 {
        Seq::empty()
    } else {
        placed(ordered(lines.drop_last()), lines.last())
    }
}

/// The contents of a run of list lines.
pub open spec fn lines_of(metas: Seq<NoteMeta>) -> Seq<MetaView> {
    metas.map_values(|m: NoteMeta| m@)
}

/// Whether the ids never fall from one line to the next.
pub open spec fn ascending(lines: Seq<MetaView>) -> bool {
    forall|i: int, j: int| 0 <= i <= j < lines.len() ==> lines[i].id <= lines[j].id
}

/// Once a pair fails, the pairs behind it change nothing.
pub proof fn lemma_listed_stops(front: Seq<Pair>, back: Seq<Pair>)
    requires
        listed(front) is Err,
    ensures
        listed(front + back) == listed(front),
    decreases back.len(),
{
    if back.len() == 0 {
        assert(front + back =~= front);
    } else {
        lemma_listed_stops(front, back.drop_last());
        assert((front + back).drop_last() =~= front + back.drop_last());
    }
}

/// A line is put in front of the lines with greater ids that end the run.
proof fn lemma_placed_at(lines: Seq<MetaView>, line: MetaView, at: int)
    requires
        0 <= at <= lines.len(),
        forall|j: int| at <= j < lines.len() ==> lines[j].id > line.id,
    ensures
        placed(lines, line) == placed(lines.take(at), line) + lines.skip(at),
    decreases lines.len() - at,
{
    if at == lines.len() {
        assert(lines.take(at) =~= lines);
        assert(placed(lines, line) + lines.skip(at) =~= placed(lines, line));
    } else {
        let front = lines.drop_last();
        lemma_placed_at(front, line, at);
        assert(front.take(at) =~= lines.take(at));
        assert(front.skip(at).push(lines.last()) =~= lines.skip(at));
        assert((placed(front.take(at), line) + front.skip(at)).push(lines.last()) =~= placed(
            lines.take(at),
            line,
        ) + lines.skip(at));
    }
}

/// Putting a line into ascending lines leaves them ascending.
pub proof fn lemma_placed_ascending(lines: Seq<MetaView>, line: MetaView)
    requires
        ascending(lines),
    ensures
        ascending(placed(lines, line)),
        placed(lines, line).len() == lines.len() + 1,
        placed(lines, line).to_multiset() == lines.to_multiset().insert(line),
    decreases lines.len(),
{
    broadcast use vstd::seq_lib::group_to_multiset_ensures;

    if lines.len() == 0 {
        assert(placed(lines, line) =~= Seq::<MetaView>::empty().push(line));
        assert(lines =~= Seq::<MetaView>::empty());
    } else if lines.last().id <= line.id {
    } else {
        let front = lines.drop_last();
        lemma_placed_ascending(front, line);
        let inner = placed(front, line);
        let all = inner.push(lines.last());
        assert(front.push(lines.last()) =~= lines);
        assert forall|i: int, j: int| 0 <= i <= j < all.len() implies all[i].id <= all[j].id by {
            if j == all.len() - 1 && i < j {
                // Every line of `inner` is `line` or a line of `front`.
                assert(inner.to_multiset().count(inner[i]) > 0);
                if inner[i] != line {
                    assert(front.to_multiset().count(inner[i]) > 0);
                    let k = choose|k: int| 0 <= k < front.len() && front[k] == inner[i];
                    assert(lines[k] == front[k]);
                }
            }
        }
    }
}

/// The ordered lines ascend by id and are the lines that came in, each as
/// often as it came.
pub proof fn law_ordered(lines: Seq<MetaView>)
    ensures
        ascending(ordered(lines)),
        ordered(lines).len() == lines.len(),
        ordered(lines).to_multiset() == lines.to_multiset(),
    decreases lines.len(),
{
    broadcast use vstd::seq_lib::group_to_multiset_ensures;

    if lines.len() == 0 {
        assert(lines =~= Seq::<MetaView>::empty());
    } else {
        law_ordered(lines.drop_last());
        lemma_placed_ascending(ordered(lines.drop_last()), lines.last());
        assert(lines.drop_last().push(lines.last()) =~= lines);
    }
}

/// Puts `meta` into `metas` behind every line whose id is not greater.
fn place(metas: &mut Vec<NoteMeta>, meta: NoteMeta)
    ensures
        lines_of(final(metas)@) == placed(lines_of(old(metas)@), meta@),
{
    let ghost lines = lines_of(metas@);
    let mut at = metas.len();
    while at > 0 && metas[at - 1].id > meta.id
        invariant
            at <= metas.len(),
            metas@ == old(metas)@,
            lines == lines_of(metas@),
            forall|j: int| at <= j < lines.len() ==> lines[j].id > meta.id,
        decreases at,
    {
        at = at - 1;
    }
    proof {
        lemma_placed_at(lines, meta@, at as int);
        let front = lines.take(at as int);
        if at > 0 {
            assert(front.last() == lines[at - 1]);
        }
        assert(placed(front, meta@) =~= front.push(meta@));
    }
    metas.insert(at, meta);
    assert(lines_of(metas@) =~= lines.take(at as int).push(meta@) + lines.skip(at as int));
}

/// A store of notes.
pub struct NoteStore {
    kv: KvStore,
}

impl View for NoteStore {
    type V = StoreView;

    closed spec fn view(&self) -> StoreView {
        self.kv@
    }
}

impl NoteStore {
    /// Opens the note store that a file image spells. No bytes at all are
    /// the image of an empty store.
    pub fn open(bytes: &[u8]) -> (r: Result<NoteStore, NoteError>)
        ensures
            match r {
                Ok(store) => load(bytes@) == Ok::<StoreView, KvError>(store@),
                Err(e) => load(bytes@) matches Err(inner) && e == NoteError::Store(inner),
            },
    {
        match KvStore::load_from_bytes(bytes) {
            Ok(kv) => Ok(NoteStore { kv }),
            Err(e) => Err(NoteError::Store(e)),
        }
    }

    /// The file image of the store.
    pub fn save(&self) -> (bytes: Vec<u8>)
        ensures
            bytes@ == image(self@.live()),
    {
        self.kv.persist_to_bytes()
    }

    /// The note with this id, if there is one.
    pub fn get(&self, id: u64) -> (r: Result<Option<Note>, NoteError>)
        ensures
            match r {
                Ok(Some(note)) => note_in(self@, id) == Ok::<Option<NoteView>, NoteError>(
                    Some(note@),
                ),
                Ok(None) => note_in(self@, id) == Ok::<Option<NoteView>, NoteError>(None),
                Err(e) => note_in(self@, id) == Err::<Option<NoteView>, NoteError>(e),
            },
    {
        let key = Key::Integer(id as i64);
        match self.kv.get_borrowed(&key) {
            Err(e) => Err(NoteError::Store(e)),
            Ok(None) => Ok(None),
            Ok(Some(BorrowedValue::Blob(bytes))) => match note_from_bytes(bytes) {
                Ok(note) => Ok(Some(note)),
                Err(e) => Err(e),
            },
            Ok(Some(_)) => Err(NoteError::Store(KvError::InvalidKeyType)),
        }
    }

    /// Makes a note of a title and a body, without tags, under the next free
    /// id, and hands out that id; `get` then finds that note under the id.
    /// Nothing is written where an error is reported.
    pub fn create(&mut self, title: String, body: String) -> (r: Result<u64, NoteError>)
        ensures
            match r {
                Ok(id) => {
                    &&& created(old(self)@, title@, body@) == Ok::<(u64, StoreView), NoteError>(
                        (id, final(self)@),
                    )
                    &&& note_in(final(self)@, id) == Ok::<Option<NoteView>, NoteError>(
                        Some(fresh_note(id, title@, body@)),
                    )
                },
                Err(e) => created(old(self)@, title@, body@) == Err::<(u64, StoreView), NoteError>(
                    e,
                ) && final(self)@ == old(self)@,
            },
    {
        let counter = Key::Text("__meta_next_id".to_owned());
        let id = match self.kv.get_owned(&counter) {
            Err(e) => {
                return Err(NoteError::Store(e));
            },
            Ok(None) => 1,
            Ok(Some(OwnedValue::Integer(i))) => i as u64,
            Ok(Some(_)) => {
                return Err(NoteError::Store(KvError::InvalidKeyType));
            },
        };
        let note = Note { id, title, body, tags: Vec::new(), updated_at: 0 };
        assert(note@.tags =~= Seq::<Seq<char>>::empty());
        let bytes = match note_to_bytes(&note) {
            Ok(bytes) => bytes,
            Err(e) => {
                return Err(e);
            },
        };
        let ghost before = self.kv@;
        let ghost kept = bytes@;
        self.kv.insert(Key::Integer(id as i64), OwnedValue::Blob(bytes));
        self.kv.insert(counter, OwnedValue::Integer(id.wrapping_add(1) as i64));
        proof {
            let behind = entry_bytes(ValueView::Integer(wrapping_add(id, 1) as i64));
            lemma_decode_entry(ValueView::Blob(kept), behind);
            assert(self.kv@.log.skip(before.log.len() as int) =~= entry_bytes(
                ValueView::Blob(kept),
            ) + behind);
        }
        Ok(id)
    }

    /// Writes `note` under its id, over what was there; `get` then finds it
    /// under that id. Nothing is written where an error is reported.
    pub fn update(&mut self, note: Note) -> (r: Result<(), NoteError>)
        ensures
            match r {
                Ok(_) => {
                    &&& with_note(old(self)@, note@) == Ok::<StoreView, NoteError>(final(self)@)
                    &&& note_in(final(self)@, note.id) == Ok::<Option<NoteView>, NoteError>(
                        Some(note@),
                    )
                },
                Err(e) => final(self)@ == old(self)@ && with_note(old(self)@, note@) == Err::<
                    StoreView,
                    NoteError,
                >(e),
            },
    {
        let bytes = match note_to_bytes(&note) {
            Ok(bytes) => bytes,
            Err(e) => {
                return Err(e);
            },
        };
        let ghost before = self.kv@;
        let ghost kept = bytes@;
        self.kv.insert(Key::Integer(note.id as i64), OwnedValue::Blob(bytes));
        proof {
            lemma_decode_entry(ValueView::Blob(kept), Seq::empty());
            assert(self.kv@.log.skip(before.log.len() as int) =~= entry_bytes(
                ValueView::Blob(kept),
            ) + Seq::<u8>::empty());
        }
        Ok(())
    }

    /// Deletes the note with this id, if there is one.
    pub fn delete(&mut self, id: u64) -> (r: Result<(), NoteError>)
        ensures
            r is Ok,
            final(self)@ == old(self)@.remove(note_key(id)),
    {
        self.kv.delete(&Key::Integer(id as i64));
        Ok(())
    }

    /// The list lines of all notes, in the order of their ids.
    pub fn list_meta(&self) -> (r: Result<Vec<NoteMeta>, NoteError>)
        ensures
            match r {
                Ok(metas) => listed(self@.live()) matches Ok(lines) && lines_of(metas@) == ordered(
                    lines,
                ),
                Err(e) => listed(self@.live()) == Err::<Seq<MetaView>, NoteError>(e),
            },
    {
        let mut metas: Vec<NoteMeta> = Vec::new();
        let mut it = self.kv.iter();
        let ghost mut seen: Seq<Pair> = Seq::empty();
        let ghost mut lines: Seq<MetaView> = Seq::empty();
        assert(lines_of(metas@) =~= ordered(lines));
        loop
            invariant
                seen + it.rest() =~= self@.live(),
                listed(seen) == Ok::<Seq<MetaView>, NoteError>(lines),
                lines_of(metas@) == ordered(lines),
            decreases it.rest().len(),
        {
            match it.next() {
                None => {
                    assert(seen =~= self@.live());
                    return Ok(metas);
                },
                Some(entry) => {
                    let ghost pair = (entry.key@, entry.value@);
                    let ghost grown = seen.push(pair);
                    proof {
                        assert(grown.drop_last() =~= seen);
                        let behind = it.rest();
                        assert(grown + behind =~= self@.live());
                        if listed(grown) is Err {
                            lemma_listed_stops(grown, behind);
                        }
                    }
                    match entry.key {
                        Key::Text(_) => {},
                        Key::Integer(_) => match entry.value {
                            BorrowedValue::Blob(bytes) => {
                                let note = match note_from_bytes(bytes) {
                                    Ok(note) => note,
                                    Err(e) => {
                                        return Err(e);
                                    },
                                };
                                let meta = NoteMeta {
                                    id: note.id,
                                    title: note.title,
                                    updated_at: note.updated_at,
                                    tags: note.tags,
                                };
                                proof {
                                    assert(lines.push(meta@).drop_last() =~= lines);
                                    lines = lines.push(meta@);
                                }
                                place(&mut metas, meta);
                            },
                            _ => {
                                return Err(NoteError::Store(KvError::InvalidKeyType));
                            },
                        },
                    }
                    proof {
                        seen = grown;
                    }
                },
            }
        }
    }
}

} // verus!
