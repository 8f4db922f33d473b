//! The store: round trips, content addressing, and the error paths.

use minigit::objects::{GitObject, Kind, ObjectError};
use minigit::store::{is_metadata_dir_name, object_path_parts, Store};

#[test]
fn submit_then_fetch_round_trips() {
    let mut store = Store::new();
    let body = b"some file content\n".to_vec();
    let digest = store.submit(Kind::Blob, body.len() as u64, &body).unwrap();
    let obj = store.fetch(&digest).unwrap();
    assert_eq!(obj.kind, Kind::Blob);
    assert_eq!(obj.expected_size, body.len() as u64);
    assert_eq!(obj.body_bytes().unwrap(), body);
}

#[test]
fn round_trip_all_kinds() {
    let mut store = Store::new();
    for kind in [Kind::Blob, Kind::Tree, Kind::Commit] {
        let body = b"payload".to_vec();
        let digest = store.submit(kind, 7, &body).unwrap();
        let obj = store.fetch(&digest).unwrap();
        assert_eq!(obj.kind, kind);
        assert_eq!(obj.body_bytes().unwrap(), body);
    }
}

#[test]
fn second_submit_is_a_no_op() {
    let mut store = Store::new();
    let body = b"duplicated".to_vec();
    let d1 = store.submit(Kind::Blob, 10, &body).unwrap();
    assert_eq!(store.count(), 1);
    let d2 = store.submit(Kind::Blob, 10, &body).unwrap();
    assert_eq!(d1, d2);
    assert_eq!(store.count(), 1);
}

#[test]
fn distinct_content_distinct_digests() {
    let mut store = Store::new();
    let d1 = store.submit(Kind::Blob, 1, &b"a".to_vec()).unwrap();
    let d2 = store.submit(Kind::Blob, 1, &b"b".to_vec()).unwrap();
    let d3 = store.submit(Kind::Tree, 1, &b"a".to_vec()).unwrap();
    assert_ne!(d1, d2);
    // the kind is framed into the hashed bytes, so it changes the digest
    assert_ne!(d1, d3);
    assert_eq!(store.count(), 3);
}

#[test]
fn size_mismatch_leaves_no_object_behind() {
    let mut store = Store::new();
    let err = store.submit(Kind::Blob, 5, &b"abc".to_vec()).unwrap_err();
    assert_eq!(err, ObjectError::SizeMismatch);
    assert_eq!(store.count(), 0);
    // the digest the correct submission would get is absent
    let mut probe = Store::new();
    let would_be = probe.submit(Kind::Blob, 3, &b"abc".to_vec()).unwrap();
    assert_eq!(store.fetch(&would_be).unwrap_err(), ObjectError::ObjectNotFound);
}

#[test]
fn abandoned_encode_leaves_canonical_path_absent() {
    // a write interrupted after encoding but before filing leaves nothing
    // visible under the object's digest
    let store = Store::new();
    let obj = GitObject { kind: Kind::Blob, expected_size: 5, body: b"abcde".to_vec() };
    let enc = obj.write().unwrap();
    assert_eq!(store.fetch(&enc.digest).unwrap_err(), ObjectError::ObjectNotFound);
}

#[test]
fn fetch_unknown_digest_is_not_found() {
    let store = Store::new();
    let digest = vec![0u8; 20];
    assert_eq!(store.fetch(&digest).unwrap_err(), ObjectError::ObjectNotFound);
}

#[test]
fn known_digest_of_hello_blob() {
    let mut store = Store::new();
    let digest = store.submit(Kind::Blob, 6, &b"hello\n".to_vec()).unwrap();
    assert_eq!(hex::encode(&digest), "ce013625030ba8dba906f756967f9e9ca394464a");
}

#[test]
fn loose_object_path_splits_after_two_hex_chars() {
    let mut store = Store::new();
    let digest = store.submit(Kind::Blob, 6, &b"hello\n".to_vec()).unwrap();
    let (dir, file) = object_path_parts(&digest);
    assert_eq!(dir, b"ce".to_vec());
    assert_eq!(file, b"013625030ba8dba906f756967f9e9ca394464a".to_vec());
}

#[test]
fn metadata_dir_name_is_recognised() {
    assert!(is_metadata_dir_name(&b".git".to_vec()));
    assert!(!is_metadata_dir_name(&b".gitignore".to_vec()));
    assert!(!is_metadata_dir_name(&b"src".to_vec()));
}
