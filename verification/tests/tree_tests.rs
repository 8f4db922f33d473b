//! The canonical tree ordering and the tree body codec.

use minigit::objects::ObjectError;
use minigit::tree::{
    entry_order, parse_tree, serialize_tree, sort_entries, tree_body, EntryMode, TreeEntry,
};

fn entry(mode: EntryMode, name: &[u8], fill: u8) -> TreeEntry {
    TreeEntry { mode, name: name.to_vec(), digest: vec![fill; 20] }
}

fn names_of(entries: &[TreeEntry]) -> Vec<Vec<u8>> {
    entries.iter().map(|e| e.name.clone()).collect()
}

#[test]
fn plain_names_sort_bytewise() {
    let v = vec![
        entry(EntryMode::Regular, b"zeta", 1),
        entry(EntryMode::Regular, b"alpha", 2),
        entry(EntryMode::Regular, b"beta", 3),
    ];
    let sorted = sort_entries(v);
    assert_eq!(names_of(&sorted), vec![b"alpha".to_vec(), b"beta".to_vec(), b"zeta".to_vec()]);
}

#[test]
fn file_before_longer_directory_name() {
    // file "b" against directory "b0": the file has no deciding byte and
    // sorts first
    let file_b = entry(EntryMode::Regular, b"b", 1);
    let dir_b0 = entry(EntryMode::Directory, b"b0", 2);
    assert_eq!(entry_order(&file_b, &dir_b0), -1);
    assert_eq!(entry_order(&dir_b0, &file_b), 1);
    let sorted = sort_entries(vec![dir_b0, file_b]);
    assert_eq!(names_of(&sorted), vec![b"b".to_vec(), b"b0".to_vec()]);
}

#[test]
fn synthetic_separator_overrides_raw_byte_order() {
    // raw bytes would put "a" before "a-", but the directory "a" orders as
    // "a/", and '-' (0x2d) sorts before '/' (0x2f)
    let dir_a = entry(EntryMode::Directory, b"a", 1);
    let file_a_dash = entry(EntryMode::Regular, b"a-", 2);
    assert_eq!(entry_order(&file_a_dash, &dir_a), -1);
    assert_eq!(entry_order(&dir_a, &file_a_dash), 1);
    let sorted = sort_entries(vec![dir_a, file_a_dash]);
    assert_eq!(names_of(&sorted), vec![b"a-".to_vec(), b"a".to_vec()]);
}

#[test]
fn directory_orders_as_if_slash_suffixed() {
    // "a0" (0x30 after the prefix) sorts after the directory "a" ("a/")
    let dir_a = entry(EntryMode::Directory, b"a", 1);
    let file_a0 = entry(EntryMode::Regular, b"a0", 2);
    assert_eq!(entry_order(&dir_a, &file_a0), -1);
    let sorted = sort_entries(vec![clone_entry(&file_a0), clone_entry(&dir_a)]);
    assert_eq!(names_of(&sorted), vec![b"a".to_vec(), b"a0".to_vec()]);
}

fn clone_entry(e: &TreeEntry) -> TreeEntry {
    TreeEntry { mode: e.mode, name: e.name.clone(), digest: e.digest.clone() }
}

#[test]
fn serialization_is_order_insensitive() {
    let a = entry(EntryMode::Regular, b"b", 1);
    let b = entry(EntryMode::Directory, b"b0", 2);
    let c = entry(EntryMode::Executable, b"run.sh", 3);
    let d = entry(EntryMode::Symlink, b"link", 4);
    let one = serialize_tree(vec![
        clone_entry(&a),
        clone_entry(&b),
        clone_entry(&c),
        clone_entry(&d),
    ])
    .unwrap();
    let two = serialize_tree(vec![d, c, b, a]).unwrap();
    assert_eq!(one, two);
}

#[test]
fn empty_directory_yields_no_object() {
    assert!(serialize_tree(Vec::new()).is_none());
}

#[test]
fn entry_bytes_layout_is_exact() {
    let e = entry(EntryMode::Regular, b"f", 0xab);
    let body = tree_body(&vec![e]);
    let mut expected = Vec::new();
    expected.extend_from_slice(b"100644 f\0");
    expected.extend_from_slice(&[0xab; 20]);
    assert_eq!(body, expected);
}

#[test]
fn mode_strings_are_exact() {
    let cases = [
        (EntryMode::Regular, &b"100644"[..]),
        (EntryMode::Executable, &b"100755"[..]),
        (EntryMode::Symlink, &b"120000"[..]),
        (EntryMode::Directory, &b"40000"[..]),
    ];
    for (mode, token) in cases {
        let body = tree_body(&vec![entry(mode, b"x", 1)]);
        let mut expected = token.to_vec();
        expected.push(b' ');
        expected.push(b'x');
        expected.push(0);
        expected.extend_from_slice(&[1; 20]);
        assert_eq!(body, expected);
    }
}

#[test]
fn parse_inverts_serialization() {
    let entries = vec![
        entry(EntryMode::Regular, b"a.txt", 1),
        entry(EntryMode::Directory, b"lib", 2),
        entry(EntryMode::Symlink, b"ln", 3),
    ];
    let body = tree_body(&entries);
    let parsed = parse_tree(&body).unwrap();
    assert_eq!(parsed.len(), entries.len());
    for (p, e) in parsed.iter().zip(entries.iter()) {
        assert_eq!(p.mode, e.mode);
        assert_eq!(p.name, e.name);
        assert_eq!(p.digest, e.digest);
    }
}

#[test]
fn parse_rejects_broken_framing() {
    // no space at all
    assert_eq!(parse_tree(&b"100644".to_vec()).unwrap_err(), ObjectError::InvalidTreeEntry);
    // an unknown mode token
    assert_eq!(parse_tree(&b"999999 f\0aaaaaaaaaaaaaaaaaaaa".to_vec()).unwrap_err(),
        ObjectError::InvalidTreeEntry);
    // no NUL after the name
    assert_eq!(parse_tree(&b"100644 f".to_vec()).unwrap_err(), ObjectError::InvalidTreeEntry);
    // a digest cut short
    assert_eq!(parse_tree(&b"100644 f\0tooshort".to_vec()).unwrap_err(),
        ObjectError::InvalidTreeEntry);
}

#[test]
fn parse_empty_body_is_no_entries() {
    assert_eq!(parse_tree(&Vec::new()).unwrap().len(), 0);
}

#[test]
fn equal_length_distinct_names_ignore_modes() {
    // equal-length names decide on bytes alone, whatever the modes
    let dir_aa = entry(EntryMode::Directory, b"aa", 1);
    let file_ab = entry(EntryMode::Regular, b"ab", 2);
    assert_eq!(entry_order(&dir_aa, &file_ab), -1);
    assert_eq!(entry_order(&file_ab, &dir_aa), 1);
}
