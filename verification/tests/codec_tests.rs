//! The object codec: framing, hashing, compression, and their failure modes.

use minigit::objects::{decode_object, parse_frame, GitObject, Kind, ObjectError};
use std::io::Write;

fn encode(kind: Kind, size: u64, body: &[u8]) -> Result<(Vec<u8>, Vec<u8>), ObjectError> {
    let obj = GitObject { kind, expected_size: size, body: body.to_vec() };
    let enc = obj.write()?;
    Ok((enc.digest, enc.data))
}

#[test]
fn known_blob_digest() {
    // storing b"hello\n" as a blob must hash the framed bytes, before compression
    let (digest, _) = encode(Kind::Blob, 6, b"hello\n").unwrap();
    assert_eq!(hex::encode(&digest), "ce013625030ba8dba906f756967f9e9ca394464a");
}

#[test]
fn encode_then_decode_round_trips() {
    let (_, data) = encode(Kind::Blob, 11, b"hello world").unwrap();
    let obj = decode_object(&data).unwrap();
    assert_eq!(obj.kind, Kind::Blob);
    assert_eq!(obj.expected_size, 11);
    assert_eq!(obj.body_bytes().unwrap(), b"hello world".to_vec());
}

#[test]
fn encode_empty_body() {
    let (digest, data) = encode(Kind::Blob, 0, b"").unwrap();
    // the well-known digest of an empty blob
    assert_eq!(hex::encode(&digest), "e69de29bb2d1d6434b8b29ae775ad8c2e48c5391");
    let obj = decode_object(&data).unwrap();
    assert_eq!(obj.expected_size, 0);
    assert_eq!(obj.body_bytes().unwrap(), Vec::<u8>::new());
}

#[test]
fn size_mismatch_short_body() {
    let err = encode(Kind::Blob, 5, b"abc").unwrap_err();
    assert_eq!(err, ObjectError::SizeMismatch);
}

#[test]
fn size_mismatch_long_body() {
    let err = encode(Kind::Blob, 5, b"abcdefg").unwrap_err();
    assert_eq!(err, ObjectError::SizeMismatch);
}

fn zlib(bytes: &[u8]) -> Vec<u8> {
    let mut enc = flate2::write::ZlibEncoder::new(Vec::new(), flate2::Compression::default());
    enc.write_all(bytes).unwrap();
    enc.finish().unwrap()
}

#[test]
fn truncated_object_fails_only_at_body_read() {
    // the header declares ten bytes; only three follow
    let data = zlib(b"blob 10\0abc");
    let obj = decode_object(&data).unwrap();
    assert_eq!(obj.kind, Kind::Blob);
    assert_eq!(obj.expected_size, 10);
    assert_eq!(obj.body_bytes().unwrap_err(), ObjectError::TruncatedObject);
}

#[test]
fn trailing_garbage_never_surfaces() {
    let data = zlib(b"blob 3\0abcEXTRA");
    let obj = decode_object(&data).unwrap();
    assert_eq!(obj.expected_size, 3);
    assert_eq!(obj.body_bytes().unwrap(), b"abc".to_vec());
}

#[test]
fn unknown_kind_is_rejected() {
    let data = zlib(b"blub 3\0abc");
    assert_eq!(decode_object(&data).unwrap_err(), ObjectError::UnknownKind);
}

#[test]
fn header_without_nul_is_malformed() {
    let r = parse_frame(&b"blob 3".to_vec());
    assert_eq!(r.unwrap_err(), ObjectError::MalformedHeader);
}

#[test]
fn header_without_space_is_malformed() {
    let r = parse_frame(&b"blob3\0abc".to_vec());
    assert_eq!(r.unwrap_err(), ObjectError::MalformedHeader);
}

#[test]
fn header_with_bad_size_is_malformed() {
    let r = parse_frame(&b"blob x\0abc".to_vec());
    assert_eq!(r.unwrap_err(), ObjectError::MalformedHeader);
    let r = parse_frame(&b"blob \0abc".to_vec());
    assert_eq!(r.unwrap_err(), ObjectError::MalformedHeader);
}

#[test]
fn header_with_leading_zeros_still_reads() {
    let r = parse_frame(&b"blob 003\0abc".to_vec()).unwrap();
    assert_eq!(r.expected_size, 3);
}

#[test]
fn not_a_zlib_stream_is_an_io_error() {
    let r = decode_object(&b"certainly not compressed".to_vec());
    assert_eq!(r.unwrap_err(), ObjectError::IoError);
}

#[test]
fn commit_and_tree_kinds_frame_correctly() {
    let (_, data) = encode(Kind::Commit, 4, b"text").unwrap();
    let obj = decode_object(&data).unwrap();
    assert_eq!(obj.kind, Kind::Commit);
    let (_, data) = encode(Kind::Tree, 4, b"tree").unwrap();
    let obj = decode_object(&data).unwrap();
    assert_eq!(obj.kind, Kind::Tree);
}
