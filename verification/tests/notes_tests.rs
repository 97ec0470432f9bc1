use kv_store::notes::{note_from_bytes, note_to_bytes, Note, NoteError, NoteMeta, NoteStore};
use kv_store::{Key, KvError, KvStore, OwnedValue};

fn store_with(pairs: Vec<(Key, OwnedValue)>) -> NoteStore {
    let mut kv = KvStore::new();
    for (k, v) in pairs {
        kv.insert(k, v);
    }
    NoteStore::open(&kv.persist_to_bytes()).unwrap()
}

#[test]
fn test_create_and_get() {
    let mut store = NoteStore::open(&[]).expect("Failed to open store");

    let id = store
        .create("A".to_string(), "Hello".to_string())
        .expect("Failed to create note");

    let note = store
        .get(id)
        .expect("Failed to get note")
        .expect("Note should exist");

    assert_eq!(note.id, id);
    assert_eq!(note.title, "A");
    assert_eq!(note.body, "Hello");
}

#[test]
fn test_update_and_get() {
    let mut store = NoteStore::open(&[]).expect("Failed to open store");

    let id = store
        .create("Original Title".to_string(), "Original Body".to_string())
        .expect("Failed to create note");

    let mut note = store
        .get(id)
        .expect("Failed to get note")
        .expect("Note should exist");

    note.title = "Updated Title".to_string();
    note.body = "Updated Body".to_string();

    store.update(note).expect("Failed to update note");

    let updated_note = store
        .get(id)
        .expect("Failed to get updated note")
        .expect("Updated note should exist");

    assert_eq!(updated_note.id, id);
    assert_eq!(updated_note.title, "Updated Title");
    assert_eq!(updated_note.body, "Updated Body");
}

#[test]
fn test_delete() {
    let mut store = NoteStore::open(&[]).expect("Failed to open store");

    let id = store
        .create("To Delete".to_string(), "This will be deleted".to_string())
        .expect("Failed to create note");

    let note = store.get(id).expect("Failed to get note");
    assert!(note.is_some());

    store.delete(id).expect("Failed to delete note");

    let deleted_note = store.get(id).expect("Failed to get deleted note");
    assert!(deleted_note.is_none());
}

#[test]
fn test_persist_and_load() {
    let id;
    let image;
    {
        let mut store = NoteStore::open(&[]).expect("Failed to open store");

        id = store
            .create("Persistent Note".to_string(), "This should persist".to_string())
            .expect("Failed to create note");

        image = store.save();
    }

    let store = NoteStore::open(&image).expect("Failed to open persisted store");

    let loaded_note = store
        .get(id)
        .expect("Failed to get loaded note")
        .expect("Persisted note should exist");

    assert_eq!(loaded_note.id, id);
    assert_eq!(loaded_note.title, "Persistent Note");
    assert_eq!(loaded_note.body, "This should persist");
}

#[test]
fn note_bytes_are_the_fields_in_order() {
    let note = Note {
        id: 1,
        title: "A".into(),
        body: "Hello".into(),
        tags: vec!["x".into(), "yz".into()],
        updated_at: 258,
    };
    let mut expected: Vec<u8> = Vec::new();
    expected.extend_from_slice(&[1, 0, 0, 0, 0, 0, 0, 0]);
    expected.extend_from_slice(&[1, 0, 0, 0, 0, 0, 0, 0]);
    expected.extend_from_slice(b"A");
    expected.extend_from_slice(&[5, 0, 0, 0, 0, 0, 0, 0]);
    expected.extend_from_slice(b"Hello");
    expected.extend_from_slice(&[2, 0, 0, 0, 0, 0, 0, 0]);
    expected.extend_from_slice(&[1, 0, 0, 0, 0, 0, 0, 0]);
    expected.extend_from_slice(b"x");
    expected.extend_from_slice(&[2, 0, 0, 0, 0, 0, 0, 0]);
    expected.extend_from_slice(b"yz");
    expected.extend_from_slice(&[2, 1, 0, 0, 0, 0, 0, 0]);
    let bytes = note_to_bytes(&note).unwrap();
    assert_eq!(bytes, expected);
    assert_eq!(note_from_bytes(&bytes), Ok(note));
}

#[test]
fn bytes_that_are_no_note() {
    assert_eq!(note_from_bytes(&[]), Err(NoteError::NoteDecodeFailed));
    assert_eq!(note_from_bytes(&[1, 2, 3]), Err(NoteError::NoteDecodeFailed));
    // A title that claims more bytes than there are.
    let mut bytes = vec![1, 0, 0, 0, 0, 0, 0, 0];
    bytes.extend_from_slice(&[9, 0, 0, 0, 0, 0, 0, 0]);
    bytes.extend_from_slice(b"abc");
    assert_eq!(note_from_bytes(&bytes), Err(NoteError::NoteDecodeFailed));
}

#[test]
fn ids_count_up_from_one() {
    let mut store = NoteStore::open(&[]).unwrap();
    assert_eq!(store.create("a".into(), "1".into()), Ok(1));
    assert_eq!(store.create("b".into(), "2".into()), Ok(2));
    assert_eq!(store.create("c".into(), "3".into()), Ok(3));
    let note = store.get(2).unwrap().unwrap();
    assert_eq!(
        note,
        Note { id: 2, title: "b".into(), body: "2".into(), tags: vec![], updated_at: 0 }
    );
    assert_eq!(store.get(4), Ok(None));
}

#[test]
fn counter_survives_save_and_open() {
    let mut store = NoteStore::open(&[]).unwrap();
    store.create("a".into(), "1".into()).unwrap();
    store.create("b".into(), "2".into()).unwrap();
    let mut again = NoteStore::open(&store.save()).unwrap();
    assert_eq!(again.create("c".into(), "3".into()), Ok(3));
}

#[test]
fn counter_is_kept_under_its_text_key() {
    let mut store = store_with(vec![(Key::Text("__meta_next_id".into()), OwnedValue::Integer(41))]);
    assert_eq!(store.create("t".into(), "b".into()), Ok(41));
    assert_eq!(store.create("t".into(), "b".into()), Ok(42));
}

#[test]
fn counter_wraps_at_the_end_of_its_range() {
    let mut store = store_with(vec![(Key::Text("__meta_next_id".into()), OwnedValue::Integer(-1))]);
    assert_eq!(store.create("t".into(), "b".into()), Ok(u64::MAX));
    assert_eq!(store.get(u64::MAX).unwrap().unwrap().id, u64::MAX);
    assert_eq!(store.create("t".into(), "b".into()), Ok(0));
}

#[test]
fn counter_of_the_wrong_type() {
    let mut store =
        store_with(vec![(Key::Text("__meta_next_id".into()), OwnedValue::Text("7".into()))]);
    let before = store.save();
    assert_eq!(
        store.create("t".into(), "b".into()),
        Err(NoteError::Store(KvError::InvalidKeyType))
    );
    assert_eq!(store.save(), before);
}

#[test]
fn get_of_a_value_that_is_no_byte_sequence() {
    let store = store_with(vec![(Key::Integer(5), OwnedValue::Integer(1))]);
    assert_eq!(store.get(5), Err(NoteError::Store(KvError::InvalidKeyType)));
}

#[test]
fn get_of_bytes_that_are_no_note() {
    let store = store_with(vec![(Key::Integer(5), OwnedValue::Blob(vec![1, 2, 3]))]);
    assert_eq!(store.get(5), Err(NoteError::NoteDecodeFailed));
}

#[test]
fn open_reports_what_the_store_reports() {
    assert!(matches!(
        NoteStore::open(&[0u8; 13]),
        Err(NoteError::Store(KvError::Corrupted(_)))
    ));
    assert!(matches!(NoteStore::open(&[1, 2, 3]), Err(NoteError::Store(KvError::UnexpectedEof))));
}

#[test]
fn update_writes_under_the_notes_own_id() {
    let mut store = NoteStore::open(&[]).unwrap();
    let note = Note {
        id: 77,
        title: "seventy-seven".into(),
        body: "b".into(),
        tags: vec!["t".into()],
        updated_at: 9,
    };
    assert_eq!(store.update(note.clone()), Ok(()));
    assert_eq!(store.get(77), Ok(Some(note)));
    // The counter is not touched.
    assert_eq!(store.create("n".into(), "b".into()), Ok(1));
}

#[test]
fn delete_of_a_note_that_is_not_there() {
    let mut store = NoteStore::open(&[]).unwrap();
    assert_eq!(store.delete(3), Ok(()));
    assert_eq!(store.get(3), Ok(None));
}

fn meta(id: u64, title: &str) -> NoteMeta {
    NoteMeta { id, title: title.into(), updated_at: 0, tags: vec![] }
}

#[test]
fn list_is_in_the_order_of_the_ids() {
    let mut store = NoteStore::open(&[]).unwrap();
    for (id, title) in [(30u64, "thirty"), (10, "ten"), (20, "twenty")] {
        store
            .update(Note { id, title: title.into(), body: "".into(), tags: vec![], updated_at: 0 })
            .unwrap();
    }
    store.create("one".into(), "".into()).unwrap();
    assert_eq!(
        store.list_meta(),
        Ok(vec![meta(1, "one"), meta(10, "ten"), meta(20, "twenty"), meta(30, "thirty")])
    );
}

#[test]
fn list_shows_title_tags_and_time() {
    let mut store = NoteStore::open(&[]).unwrap();
    store
        .update(Note {
            id: 3,
            title: "t".into(),
            body: "not shown".into(),
            tags: vec!["a".into(), "b".into()],
            updated_at: 99,
        })
        .unwrap();
    assert_eq!(
        store.list_meta(),
        Ok(vec![NoteMeta {
            id: 3,
            title: "t".into(),
            updated_at: 99,
            tags: vec!["a".into(), "b".into()]
        }])
    );
}

#[test]
fn list_keeps_the_order_of_lines_with_one_id() {
    // Two keys whose notes claim the same id: the line written first comes first.
    let first = note_to_bytes(&Note {
        id: 5,
        title: "first".into(),
        body: "".into(),
        tags: vec![],
        updated_at: 0,
    })
    .unwrap();
    let second = note_to_bytes(&Note {
        id: 5,
        title: "second".into(),
        body: "".into(),
        tags: vec![],
        updated_at: 0,
    })
    .unwrap();
    let low = note_to_bytes(&Note {
        id: 2,
        title: "low".into(),
        body: "".into(),
        tags: vec![],
        updated_at: 0,
    })
    .unwrap();
    let store = store_with(vec![
        (Key::Integer(100), OwnedValue::Blob(first)),
        (Key::Integer(50), OwnedValue::Blob(second)),
        (Key::Integer(70), OwnedValue::Blob(low)),
    ]);
    assert_eq!(
        store.list_meta(),
        Ok(vec![meta(2, "low"), meta(5, "first"), meta(5, "second")])
    );
}

#[test]
fn list_of_an_empty_store() {
    let store = NoteStore::open(&[]).unwrap();
    assert_eq!(store.list_meta(), Ok(vec![]));
}

#[test]
fn list_passes_over_text_keys() {
    let store = store_with(vec![
        (Key::Text("anything".into()), OwnedValue::Bool(true)),
        (Key::Text("__meta_next_id".into()), OwnedValue::Integer(9)),
    ]);
    assert_eq!(store.list_meta(), Ok(vec![]));
}

#[test]
fn list_reports_the_first_pair_that_is_no_note() {
    let good = note_to_bytes(&Note {
        id: 1,
        title: "ok".into(),
        body: "".into(),
        tags: vec![],
        updated_at: 0,
    })
    .unwrap();
    let store = store_with(vec![
        (Key::Integer(1), OwnedValue::Blob(good.clone())),
        (Key::Integer(2), OwnedValue::Bool(true)),
        (Key::Integer(3), OwnedValue::Blob(vec![1])),
    ]);
    assert_eq!(store.list_meta(), Err(NoteError::Store(KvError::InvalidKeyType)));
    let store = store_with(vec![
        (Key::Integer(1), OwnedValue::Blob(good)),
        (Key::Integer(3), OwnedValue::Blob(vec![1])),
        (Key::Integer(2), OwnedValue::Bool(true)),
    ]);
    assert_eq!(store.list_meta(), Err(NoteError::NoteDecodeFailed));
}
