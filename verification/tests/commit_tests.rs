//! The commit composer and the decimal helpers it leans on.

use minigit::commit::commit_body;
use minigit::digits::{parse_dec, u64_to_dec};
use minigit::objects::Kind;
use minigit::store::Store;

fn body(
    tree_hex: &str,
    parent_hex: Option<&str>,
    timestamp: u64,
    message: &str,
) -> Vec<u8> {
    let tree = tree_hex.as_bytes().to_vec();
    let parent = parent_hex.map(|p| p.as_bytes().to_vec());
    let name = b"Firstname Lastname".to_vec();
    let email = b"first@last.com".to_vec();
    let zone = b"+0000".to_vec();
    let msg = message.as_bytes().to_vec();
    commit_body(&tree, parent.as_ref(), &name, &email, timestamp, &zone, &msg)
}

#[test]
fn commit_without_parent_is_exact() {
    let tree = "aaaaaaaaaaaaaaaaaaaaaaaaaaaaaaaaaaaaaaaa";
    let got = body(tree, None, 1700000000, "initial commit");
    let expected = format!(
        "tree {tree}\nauthor Firstname Lastname <first@last.com> 1700000000 +0000\ncommitter Firstname Lastname <first@last.com> 1700000000 +0000\n\ninitial commit\n"
    );
    assert_eq!(got, expected.into_bytes());
}

#[test]
fn commit_with_parent_is_exact() {
    let tree = "aaaaaaaaaaaaaaaaaaaaaaaaaaaaaaaaaaaaaaaa";
    let parent = "bbbbbbbbbbbbbbbbbbbbbbbbbbbbbbbbbbbbbbbb";
    let got = body(tree, Some(parent), 0, "second");
    let expected = format!(
        "tree {tree}\nparent {parent}\nauthor Firstname Lastname <first@last.com> 0 +0000\ncommitter Firstname Lastname <first@last.com> 0 +0000\n\nsecond\n"
    );
    assert_eq!(got, expected.into_bytes());
}

#[test]
fn commit_body_submits_as_a_commit_object() {
    let mut store = Store::new();
    let b = body("cccccccccccccccccccccccccccccccccccccccc", None, 42, "msg");
    let digest = store.submit(Kind::Commit, b.len() as u64, &b).unwrap();
    let obj = store.fetch(&digest).unwrap();
    assert_eq!(obj.kind, Kind::Commit);
    assert_eq!(obj.body_bytes().unwrap(), b);
}

#[test]
fn decimal_rendering_is_exact() {
    assert_eq!(u64_to_dec(0), b"0".to_vec());
    assert_eq!(u64_to_dec(7), b"7".to_vec());
    assert_eq!(u64_to_dec(1234567890), b"1234567890".to_vec());
    assert_eq!(u64_to_dec(u64::MAX), b"18446744073709551615".to_vec());
}

#[test]
fn decimal_parsing_is_exact() {
    assert_eq!(parse_dec(&b"0".to_vec()), Some(0));
    assert_eq!(parse_dec(&b"007".to_vec()), Some(7));
    assert_eq!(parse_dec(&b"18446744073709551615".to_vec()), Some(u64::MAX));
    assert_eq!(parse_dec(&b"18446744073709551616".to_vec()), None);
    assert_eq!(parse_dec(&b"".to_vec()), None);
    assert_eq!(parse_dec(&b"12x".to_vec()), None);
    assert_eq!(parse_dec(&b"-1".to_vec()), None);
}
