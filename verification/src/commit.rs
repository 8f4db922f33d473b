//! The commit composer: the line-oriented text body of a checkpoint record.
//!
//! Field order is the one invariant enforced here: a `tree` line, an
//! optional `parent` line, the `author` and `committer` lines, a blank
//! line, then the message. The referenced digests are not validated; a
//! wrong one surfaces later as `ObjectNotFound` on the read path.

use vstd::prelude::*;

use crate::digits::{dec_digits, u64_to_dec};
use crate::objects::push_all;

verus! {

/// `author`/`committer` line: `<label><name> <<email>> <seconds> <zone>\n`.
pub open spec fn ident_line_spec(
    label: Seq<u8>,
    name: Seq<u8>,
    email: Seq<u8>,
    timestamp: nat,
    zone: Seq<u8>,
) -> Seq<u8> {
    label + name + seq![32u8, 60u8] + email + seq![62u8, 32u8] + dec_digits(timestamp) + seq![32u8]
        + zone + seq![10u8]
}

pub open spec fn tree_label() -> Seq<u8> {
    seq![116u8, 114u8, 101u8, 101u8, 32u8]
}

pub open spec fn parent_label() -> Seq<u8> {
    seq![112u8, 97u8, 114u8, 101u8, 110u8, 116u8, 32u8]
}

pub open spec fn author_label() -> Seq<u8> {
    seq![97u8, 117u8, 116u8, 104u8, 111u8, 114u8, 32u8]
}

pub open spec fn committer_label() -> Seq<u8> {
    seq![99u8, 111u8, 109u8, 109u8, 105u8, 116u8, 116u8, 101u8, 114u8, 32u8]
}

/// The whole commit body the composer produces.
pub open spec fn commit_body_spec(
    tree_hex: Seq<u8>,
    parent_hex: Option<Seq<u8>>,
    name: Seq<u8>,
    email: Seq<u8>,
    timestamp: nat,
    zone: Seq<u8>,
    message: Seq<u8>,
) -> Seq<u8> {
    tree_label() + tree_hex + seq![10u8] + (match parent_hex {
        Some(p) => parent_label() + p + seq![10u8],
        None => Seq::<u8>::empty(),
    }) + ident_line_spec(author_label(), name, email, timestamp, zone) + ident_line_spec(
        committer_label(),
        name,
        email,
        timestamp,
        zone,
    ) + seq![10u8] + message + seq![10u8]
}

fn push_ident_line(
    out: &mut Vec<u8>,
    label: &Vec<u8>,
    name: &Vec<u8>,
    email: &Vec<u8>,
    timestamp: u64,
    zone: &Vec<u8>,
)
    ensures
        final(out)@ == old(out)@ + ident_line_spec(
            label@,
            name@,
            email@,
            timestamp as nat,
            zone@,
        ),
{
    let ghost start = out@;
    push_all(out, label);
    push_all(out, name);
    out.push(32);
    out.push(60);
    push_all(out, email);
    out.push(62);
    out.push(32);
    let seconds = u64_to_dec(timestamp);
    push_all(out, &seconds);
    out.push(32);
    push_all(out, zone);
    out.push(10);
    proof {
        assert(out@ =~= start + ident_line_spec(
            label@,
            name@,
            email@,
            timestamp as nat,
            zone@,
        ));
    }
}

/// Compose a commit body: tree reference, optional parent reference,
/// identity lines with the caller's clock reading and time zone, a blank
/// line, and the message followed by a newline.
pub fn commit_body(
    tree_hex: &Vec<u8>,
    parent_hex: Option<&Vec<u8>>,
    name: &Vec<u8>,
    email: &Vec<u8>,
    timestamp: u64,
    zone: &Vec<u8>,
    message: &Vec<u8>,
) -> (r: Vec<u8>)
    ensures
        parent_hex matches Some(p) ==> r@ == commit_body_spec(
            tree_hex@,
            Some(p@),
            name@,
            email@,
            timestamp as nat,
            zone@,
            message@,
        ),
        parent_hex is None ==> r@ == commit_body_spec(
            tree_hex@,
            None,
            name@,
            email@,
            timestamp as nat,
            zone@,
            message@,
        ),
{
    let mut out: Vec<u8> = Vec::new();
    let tree_lab = label_bytes_tree();
    push_all(&mut out, &tree_lab);
    push_all(&mut out, tree_hex);
    out.push(10);
    match parent_hex {
        Some(p) => {
            let parent_lab = label_bytes_parent();
            push_all(&mut out, &parent_lab);
            push_all(&mut out, p);
            out.push(10);
        },
        None => {},
    }
    let author_lab = label_bytes_author();
    push_ident_line(&mut out, &author_lab, name, email, timestamp, zone);
    let committer_lab = label_bytes_committer();
    push_ident_line(&mut out, &committer_lab, name, email, timestamp, zone);
    out.push(10);
    push_all(&mut out, message);
    out.push(10);
    proof {
        if parent_hex is Some {
            let p = parent_hex->0;
            assert(out@ =~= commit_body_spec(
                tree_hex@,
                Some(p@),
                name@,
                email@,
                timestamp as nat,
                zone@,
                message@,
            ));
        } else {
            assert(out@ =~= commit_body_spec(
                tree_hex@,
                None,
                name@,
                email@,
                timestamp as nat,
                zone@,
                message@,
            ));
        }
    }
    out
}

fn label_bytes_tree() -> (r: Vec<u8>)
    ensures
        r@ == tree_label(),
{
    let mut r: Vec<u8> = Vec::new();
    r.push(116);
    r.push(114);
    r.push(101);
    r.push(101);
    r.push(32);
    assert(r@ =~= tree_label());
    r
}

fn label_bytes_parent() -> (r: Vec<u8>)
    ensures
        r@ == parent_label(),
{
    let mut r: Vec<u8> = Vec::new();
    r.push(112);
    r.push(97);
    r.push(114);
    r.push(101);
    r.push(110);
    r.push(116);
    r.push(32);
    assert(r@ =~= parent_label());
    r
}

fn label_bytes_author() -> (r: Vec<u8>)
    ensures
        r@ == author_label(),
{
    let mut r: Vec<u8> = Vec::new();
    r.push(97);
    r.push(117);
    r.push(116);
    r.push(104);
    r.push(111);
    r.push(114);
    r.push(32);
    assert(r@ =~= author_label());
    r
}

fn label_bytes_committer() -> (r: Vec<u8>)
    ensures
        r@ == committer_label(),
{
    let mut r: Vec<u8> = Vec::new();
    r.push(99);
    r.push(111);
    r.push(109);
    r.push(109);
    r.push(105);
    r.push(116);
    r.push(116);
    r.push(101);
    r.push(114);
    r.push(32);
    assert(r@ =~= committer_label());
    r
}

} // verus!
