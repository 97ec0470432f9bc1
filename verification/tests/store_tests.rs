use kv_store::{
    BorrowedValue, DecodeError, Key, KvError, KvStore, OwnedValue, HEADER_SIZE,
};

fn ktxt(s: &str) -> Key {
    Key::Text(s.to_string())
}

fn kint(i: i64) -> Key {
    Key::Integer(i)
}

fn pairs(kv: &KvStore) -> Vec<(Key, OwnedValue)> {
    let mut out = Vec::new();
    let mut it = kv.iter();
    while let Some(e) = it.next() {
        out.push((e.key.clone(), e.value.to_owned()));
    }
    out
}

#[test]
fn new_store_is_empty() {
    let kv = KvStore::new();
    assert_eq!(kv.storage_len(), 0);
    assert_eq!(kv.keys().len(), 0);
    assert_eq!(kv.values().len(), 0);
    assert_eq!(kv.get_borrowed(&ktxt("a")), Ok(None));
    assert_eq!(kv.get_owned(&kint(0)), Ok(None));
    assert_eq!(kv.iter().next(), None);
    assert_eq!(kv.persist_to_bytes(), Vec::<u8>::new());
}

#[test]
fn text_and_integer_keys_are_apart() {
    let mut kv = KvStore::new();
    kv.insert(ktxt("1"), OwnedValue::Integer(10));
    kv.insert(kint(1), OwnedValue::Integer(20));
    assert_eq!(kv.get_owned(&ktxt("1")), Ok(Some(OwnedValue::Integer(10))));
    assert_eq!(kv.get_owned(&kint(1)), Ok(Some(OwnedValue::Integer(20))));
    assert_eq!(kv.get_owned(&kint(2)), Ok(None));
    assert_eq!(kv.keys(), vec![&ktxt("1"), &kint(1)]);
}

#[test]
fn log_grows_by_the_entry_also_on_overwrite() {
    let mut kv = KvStore::new();
    kv.insert(ktxt("k"), OwnedValue::Integer(1));
    assert_eq!(kv.storage_len(), 21);
    assert_eq!(kv.test_get_offset(&ktxt("k")), 0);
    kv.insert(ktxt("k"), OwnedValue::Text("ab".into()));
    assert_eq!(kv.storage_len(), 21 + 23);
    assert_eq!(kv.test_get_offset(&ktxt("k")), 21);
    kv.insert(ktxt("other"), OwnedValue::Bool(true));
    assert_eq!(kv.storage_len(), 21 + 23 + 14);
    assert_eq!(kv.test_get_offset(&ktxt("other")), 44);
    assert_eq!(kv.test_get_offset(&ktxt("k")), 21);
}

#[test]
fn overwrite_leaves_one_entry_with_the_second_value() {
    let mut kv = KvStore::new();
    kv.insert(ktxt("other"), OwnedValue::Bool(false));
    kv.insert(ktxt("k"), OwnedValue::Text("A".into()));
    kv.insert(ktxt("k"), OwnedValue::Text("B".into()));
    assert_eq!(kv.get_owned(&ktxt("k")), Ok(Some(OwnedValue::Text("B".into()))));
    assert_eq!(
        pairs(&kv),
        vec![
            (ktxt("other"), OwnedValue::Bool(false)),
            (ktxt("k"), OwnedValue::Text("B".into()))
        ]
    );
}

#[test]
fn overwrite_moves_the_key_behind_the_others() {
    let mut kv = KvStore::new();
    kv.insert(ktxt("a"), OwnedValue::Integer(1));
    kv.insert(ktxt("b"), OwnedValue::Integer(2));
    kv.insert(ktxt("a"), OwnedValue::Integer(3));
    assert_eq!(
        pairs(&kv),
        vec![(ktxt("b"), OwnedValue::Integer(2)), (ktxt("a"), OwnedValue::Integer(3))]
    );
    assert_eq!(kv.values(), vec![BorrowedValue::Integer(2), BorrowedValue::Integer(3)]);
}

#[test]
fn delete_hides_the_key_and_keeps_the_bytes() {
    let mut kv = KvStore::new();
    kv.insert(ktxt("a"), OwnedValue::Integer(1));
    kv.insert(ktxt("k"), OwnedValue::Text("gone".into()));
    kv.insert(ktxt("z"), OwnedValue::Integer(2));
    let image_of_log = kv.storage_len();
    kv.delete(&ktxt("k"));
    assert_eq!(kv.get_borrowed(&ktxt("k")), Ok(None));
    assert_eq!(kv.get_owned(&ktxt("k")), Ok(None));
    assert_eq!(kv.keys(), vec![&ktxt("a"), &ktxt("z")]);
    assert_eq!(kv.storage_len(), image_of_log);
    // The dead entry is passed over, not taken for the end.
    assert_eq!(
        pairs(&kv),
        vec![(ktxt("a"), OwnedValue::Integer(1)), (ktxt("z"), OwnedValue::Integer(2))]
    );
}

#[test]
fn delete_of_an_absent_key_does_nothing() {
    let mut kv = KvStore::new();
    kv.insert(kint(1), OwnedValue::Integer(1));
    kv.delete(&kint(2));
    kv.delete(&ktxt("1"));
    assert_eq!(kv.storage_len(), 21);
    assert_eq!(pairs(&kv), vec![(kint(1), OwnedValue::Integer(1))]);
}

#[test]
fn insert_after_delete_brings_the_key_back() {
    let mut kv = KvStore::new();
    kv.insert(ktxt("k"), OwnedValue::Integer(1));
    kv.delete(&ktxt("k"));
    kv.insert(ktxt("k"), OwnedValue::Integer(2));
    assert_eq!(kv.get_owned(&ktxt("k")), Ok(Some(OwnedValue::Integer(2))));
    assert_eq!(pairs(&kv), vec![(ktxt("k"), OwnedValue::Integer(2))]);
}

#[test]
fn keys_come_out_in_the_order_they_went_in() {
    let mut kv = KvStore::new();
    kv.insert(ktxt("X"), OwnedValue::Integer(1));
    kv.insert(kint(-7), OwnedValue::Blob(vec![1]));
    kv.insert(ktxt("Z"), OwnedValue::Bool(true));
    assert_eq!(kv.keys(), vec![&ktxt("X"), &kint(-7), &ktxt("Z")]);
    assert_eq!(
        pairs(&kv),
        vec![
            (ktxt("X"), OwnedValue::Integer(1)),
            (kint(-7), OwnedValue::Blob(vec![1])),
            (ktxt("Z"), OwnedValue::Bool(true))
        ]
    );
}

#[test]
fn a_fresh_scan_starts_over() {
    let mut kv = KvStore::new();
    kv.insert(ktxt("a"), OwnedValue::Integer(1));
    let mut first = kv.iter();
    assert!(first.next().is_some());
    assert!(first.next().is_none());
    let mut second = kv.iter();
    assert!(second.next().is_some());
}

#[test]
fn every_flipped_payload_byte_is_a_checksum_mismatch() {
    let values = vec![
        OwnedValue::Integer(123),
        OwnedValue::Bool(true),
        OwnedValue::Text("hello".into()),
        OwnedValue::Blob(vec![1, 2, 3, 4]),
    ];
    for value in values {
        let mut probe = KvStore::new();
        probe.insert(ktxt("pad"), OwnedValue::Integer(0));
        probe.insert(ktxt("x"), value.clone());
        let off = probe.test_get_offset(&ktxt("x"));
        let end = probe.storage_len();
        for at in off + HEADER_SIZE..end {
            let mut kv = KvStore::new();
            kv.insert(ktxt("pad"), OwnedValue::Integer(0));
            kv.insert(ktxt("x"), value.clone());
            kv.test_corrupt_byte(at);
            assert!(matches!(
                kv.get_borrowed(&ktxt("x")),
                Err(KvError::Corrupted(DecodeError::ChecksumMismatch { .. }))
            ));
            assert!(matches!(
                kv.get_owned(&ktxt("x")),
                Err(KvError::Corrupted(DecodeError::ChecksumMismatch { .. }))
            ));
            // The other key is not harmed.
            assert_eq!(kv.get_owned(&ktxt("pad")), Ok(Some(OwnedValue::Integer(0))));
        }
    }
}

#[test]
fn corrupt_byte_flips_all_bits_and_back() {
    let mut kv = KvStore::new();
    kv.insert(ktxt("x"), OwnedValue::Integer(1));
    kv.test_corrupt_byte(13);
    assert!(kv.get_borrowed(&ktxt("x")).is_err());
    kv.test_corrupt_byte(13);
    assert_eq!(kv.get_borrowed(&ktxt("x")), Ok(Some(BorrowedValue::Integer(1))));
    assert_eq!(kv.storage_len(), 21);
    assert_eq!(kv.test_get_offset(&ktxt("x")), 0);
}

#[test]
fn a_scan_ends_at_bytes_that_do_not_parse() {
    let mut kv = KvStore::new();
    kv.insert(ktxt("a"), OwnedValue::Integer(1));
    kv.insert(ktxt("b"), OwnedValue::Integer(2));
    kv.insert(ktxt("c"), OwnedValue::Integer(3));
    let off_b = kv.test_get_offset(&ktxt("b"));
    kv.test_corrupt_byte(off_b + HEADER_SIZE);
    assert_eq!(kv.keys(), vec![&ktxt("a")]);
    let mut it = kv.iter();
    assert!(it.next().is_some());
    assert_eq!(it.next(), None);
    assert_eq!(it.next(), None);
    // A lookup still finds what lies behind the damage.
    assert_eq!(kv.get_owned(&ktxt("c")), Ok(Some(OwnedValue::Integer(3))));
}

#[test]
fn damage_in_a_length_field_is_reported_by_lookup() {
    let mut kv = KvStore::new();
    kv.insert(ktxt("a"), OwnedValue::Integer(1));
    kv.test_corrupt_byte(7);
    assert_eq!(
        kv.get_borrowed(&ktxt("a")),
        Err(KvError::Corrupted(DecodeError::EntryTruncated))
    );
    assert_eq!(kv.keys().len(), 0);
}

#[test]
fn image_is_key_entry_then_value_entry() {
    let mut kv = KvStore::new();
    kv.insert(kint(1), OwnedValue::Bool(true));
    let mut expected = vec![13, 0, 0, 0, 0, 0, 0, 0, 247, 223, 136, 169, 0, 1, 0, 0, 0, 0, 0, 0, 0];
    expected.extend_from_slice(&[6, 0, 0, 0, 0, 0, 0, 0, 27, 223, 5, 165, 2, 1]);
    assert_eq!(kv.persist_to_bytes(), expected);
    kv.insert(ktxt("hi"), OwnedValue::Blob(vec![9, 8, 7]));
    expected.extend_from_slice(&[
        15, 0, 0, 0, 0, 0, 0, 0, 24, 128, 53, 126, 1, 2, 0, 0, 0, 0, 0, 0, 0, 104, 105,
    ]);
    expected.extend_from_slice(&[
        16, 0, 0, 0, 0, 0, 0, 0, 201, 243, 9, 171, 3, 3, 0, 0, 0, 0, 0, 0, 0, 9, 8, 7,
    ]);
    assert_eq!(kv.persist_to_bytes(), expected);
}

#[test]
fn image_holds_live_pairs_only() {
    let mut kv = KvStore::new();
    kv.insert(ktxt("a"), OwnedValue::Integer(1));
    kv.insert(ktxt("b"), OwnedValue::Integer(2));
    kv.insert(ktxt("a"), OwnedValue::Integer(3));
    kv.delete(&ktxt("b"));
    let mut only = KvStore::new();
    only.insert(ktxt("a"), OwnedValue::Integer(3));
    assert_eq!(kv.persist_to_bytes(), only.persist_to_bytes());
}

#[test]
fn save_and_load_keep_pairs_and_order() {
    let mut kv = KvStore::new();
    kv.insert(ktxt("a"), OwnedValue::Integer(1));
    kv.insert(kint(9), OwnedValue::Text("hello".into()));
    kv.insert(ktxt("gone"), OwnedValue::Bool(true));
    kv.insert(ktxt("b"), OwnedValue::Blob(vec![0, 1]));
    kv.insert(ktxt("a"), OwnedValue::Bool(false));
    kv.delete(&ktxt("gone"));
    let image = kv.persist_to_bytes();
    let loaded = KvStore::load_from_bytes(&image).unwrap();
    assert_eq!(pairs(&loaded), pairs(&kv));
    assert_eq!(loaded.persist_to_bytes(), image);
    assert_eq!(loaded.get_owned(&ktxt("gone")), Ok(None));
    assert_eq!(loaded.get_owned(&kint(9)), Ok(Some(OwnedValue::Text("hello".into()))));
}

#[test]
fn load_cut_behind_the_first_key_entry() {
    let mut kv = KvStore::new();
    kv.insert(ktxt("a"), OwnedValue::Integer(1));
    kv.insert(ktxt("b"), OwnedValue::Text("hello".into()));
    let image = kv.persist_to_bytes();
    // The entry of the key "a": a header, a length prefix and one byte.
    let key_entry_len = HEADER_SIZE + 8 + 1;
    assert!(matches!(
        KvStore::load_from_bytes(&image[..key_entry_len]),
        Err(KvError::UnexpectedEof)
    ));
}

#[test]
fn load_cut_behind_a_later_key_entry() {
    let mut kv = KvStore::new();
    kv.insert(ktxt("a"), OwnedValue::Integer(1));
    let first_pair = kv.persist_to_bytes().len();
    kv.insert(ktxt("b"), OwnedValue::Text("hello".into()));
    let image = kv.persist_to_bytes();
    let cut = first_pair + HEADER_SIZE + 8 + 1;
    assert!(matches!(KvStore::load_from_bytes(&image[..cut]), Err(KvError::UnexpectedEof)));
}

#[test]
fn load_cut_inside_an_entry() {
    let mut kv = KvStore::new();
    kv.insert(ktxt("a"), OwnedValue::Integer(1));
    let image = kv.persist_to_bytes();
    for cut in 1..image.len() {
        assert!(matches!(KvStore::load_from_bytes(&image[..cut]), Err(KvError::UnexpectedEof)));
    }
    assert!(KvStore::load_from_bytes(&image).is_ok());
}

#[test]
fn load_with_a_key_that_is_no_key() {
    let mut image = Vec::new();
    kv_store::serialize_value(&OwnedValue::Bool(true), &mut image);
    kv_store::serialize_value(&OwnedValue::Integer(1), &mut image);
    assert!(matches!(KvStore::load_from_bytes(&image), Err(KvError::InvalidKeyType)));
    let mut image = Vec::new();
    kv_store::serialize_value(&OwnedValue::Blob(vec![1]), &mut image);
    kv_store::serialize_value(&OwnedValue::Integer(1), &mut image);
    assert!(matches!(KvStore::load_from_bytes(&image), Err(KvError::InvalidKeyType)));
}

#[test]
fn load_with_a_key_that_is_no_key_and_nothing_behind_it() {
    // One whole entry that holds `true`, where a key is due.
    let image = [0x06, 0, 0, 0, 0, 0, 0, 0, 0x1B, 0xDF, 0x05, 0xA5, 0x02, 0x01];
    assert!(matches!(KvStore::load_from_bytes(&image), Err(KvError::InvalidKeyType)));
    let mut image = Vec::new();
    kv_store::serialize_value(&OwnedValue::Blob(vec![7, 7]), &mut image);
    assert!(matches!(KvStore::load_from_bytes(&image), Err(KvError::InvalidKeyType)));
}

#[test]
fn load_looks_at_the_key_before_the_value() {
    // A key that is no key, and a value that is damaged or cut off.
    let mut image = Vec::new();
    kv_store::serialize_value(&OwnedValue::Bool(true), &mut image);
    kv_store::serialize_value(&OwnedValue::Integer(1), &mut image);
    let last = image.len() - 1;
    image[last] ^= 0xFF;
    assert!(matches!(KvStore::load_from_bytes(&image), Err(KvError::InvalidKeyType)));
    assert!(matches!(KvStore::load_from_bytes(&image[..last]), Err(KvError::InvalidKeyType)));
    // Behind a good pair as well.
    let mut kv = KvStore::new();
    kv.insert(ktxt("a"), OwnedValue::Integer(1));
    let mut image = kv.persist_to_bytes();
    kv_store::serialize_value(&OwnedValue::Bool(false), &mut image);
    assert!(matches!(KvStore::load_from_bytes(&image), Err(KvError::InvalidKeyType)));
    // A key entry that is itself damaged is reported as damage.
    let mut image = Vec::new();
    kv_store::serialize_value(&OwnedValue::Bool(true), &mut image);
    image[13] ^= 0xFF;
    assert!(matches!(
        KvStore::load_from_bytes(&image),
        Err(KvError::Corrupted(DecodeError::ChecksumMismatch { .. }))
    ));
}

#[test]
fn load_with_a_damaged_value() {
    let mut kv = KvStore::new();
    kv.insert(ktxt("a"), OwnedValue::Integer(1));
    let mut image = kv.persist_to_bytes();
    let last = image.len() - 1;
    image[last] ^= 0xFF;
    assert!(matches!(
        KvStore::load_from_bytes(&image),
        Err(KvError::Corrupted(DecodeError::ChecksumMismatch { .. }))
    ));
}

#[test]
fn load_keeps_the_last_of_a_key_written_twice() {
    let mut image = Vec::new();
    for v in [1i64, 2] {
        kv_store::serialize_value(&OwnedValue::Text("k".into()), &mut image);
        kv_store::serialize_value(&OwnedValue::Integer(v), &mut image);
    }
    let kv = KvStore::load_from_bytes(&image).unwrap();
    assert_eq!(pairs(&kv), vec![(ktxt("k"), OwnedValue::Integer(2))]);
}
