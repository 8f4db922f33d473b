//! The object store: digests map to compressed framed bytes.
//!
//! The store is an append-only table keyed by digest. A submission encodes
//! the object, then files the compressed bytes under the digest; a second
//! submission of the same content maps to the same digest and is a no-op.
//! The digest-derived path of a loose object on disk is also computed here.

use vstd::prelude::*;

use crate::digits::dec_value;
use crate::objects::{
    copy_range, decode_object, deflate_of, frame_bytes, frame_ok, inflate_of, kind_tok_of,
    lemma_frame_round_trip, object_digest, payload_of, size_tok_of, spec_kind_of_token,
    EncodedObject, GitObject, Kind, ObjectError,
};

verus! {

/// The lowercase hex digit of a value below 16.
pub open spec fn hex_digit(n: u8) -> u8 {
    if n < 10 {
        (48 + n) as u8
    } else {
        (87 + n) as u8
    }
}

/// Lowercase hex encoding, high nibble of each byte first.
pub open spec fn hex_of(s: Seq<u8>) -> Seq<u8>
    decreases s.len(),
{
    if s.len() == 0 {
        Seq::empty()
    } else {
        seq![hex_digit(s[0] / 16), hex_digit(s[0] % 16)] + hex_of(s.drop_first())
    }
}

pub proof fn lemma_hex_len(s: Seq<u8>)
    ensures
        hex_of(s).len() == 2 * s.len(),
    decreases s.len(),
{
    if s.len() > 0 {
        lemma_hex_len(s.drop_first());
    }
}

/// Relies on hex::encode: lowercase hexadecimal, two digits per byte, the
/// high nibble first.
#[verifier::external_body]
pub fn hex_encode(bytes: &Vec<u8>) -> (r: Vec<u8>)
    ensures
        r@ == hex_of(bytes@),
{
    hex::encode(bytes.as_slice()).into_bytes()
}

/// The two path components of a loose object: the first two hex characters
/// name the subdirectory, the remaining 38 name the file.
pub fn object_path_parts(digest: &Vec<u8>) -> (r: (Vec<u8>, Vec<u8>))
    requires
        digest@.len() == 20,
    ensures
        r.0@ == hex_of(digest@).take(2),
        r.1@ == hex_of(digest@).skip(2),
        r.0@.len() == 2,
        r.1@.len() == 38,
{
    proof {
        lemma_hex_len(digest@);
    }
    let h = hex_encode(digest);
    let dir = copy_range(&h, 0, 2);
    let file = copy_range(&h, 2, h.len());
    (dir, file)
}

/// Compare two byte strings.
pub fn bytes_eq(a: &Vec<u8>, b: &Vec<u8>) -> (r: bool)
    ensures
        r <==> a@ == b@,
{
    if a.len() != b.len() {
        return false;
    }
    let mut i: usize = 0;
    while i < a.len()
        invariant
            a@.len() == b@.len(),
            i <= a@.len(),
            forall|k: int| 0 <= k < i ==> a@[k] == b@[k],
        decreases a@.len() - i,
    {
        if a[i] != b[i] {
            return false;
        }
        i = i + 1;
    }
    proof {
        assert(a@ =~= b@);
    }
    true
}

struct StoredSlot {
    digest: Vec<u8>,
    data: Vec<u8>,
}

/// One stored object table: each digest maps to the compressed framed bytes
/// filed under it.
pub struct Store {
    slots: Vec<StoredSlot>,
}

spec fn slot_map(s: Seq<StoredSlot>) -> Map<Seq<u8>, Seq<u8>>
    decreases s.len(),
{
    if s.len() == 0 {
        Map::empty()
    } else {
        slot_map(s.drop_last()).insert(s.last().digest@, s.last().data@)
    }
}

impl View for Store {
    type V = Map<Seq<u8>, Seq<u8>>;

    closed spec fn view(&self) -> Map<Seq<u8>, Seq<u8>> {
        slot_map(self.slots@)
    }
}

proof fn lemma_slot_map_contains(s: Seq<StoredSlot>, d: Seq<u8>)
    ensures
        slot_map(s).contains_key(d) <==> exists|i: int| 0 <= i < s.len() && s[i].digest@ == d,
    decreases s.len(),
{
    if s.len() > 0 {
        lemma_slot_map_contains(s.drop_last(), d);
        if slot_map(s).contains_key(d) {
            if s.last().digest@ == d {
                assert(s[s.len() - 1].digest@ == d);
            } else {
                let i = choose|i: int| 0 <= i < s.drop_last().len() && s.drop_last()[i].digest@
                    == d;
                assert(s[i].digest@ == d);
            }
        }
        if exists|i: int| 0 <= i < s.len() && s[i].digest@ == d {
            let i = choose|i: int| 0 <= i < s.len() && s[i].digest@ == d;
            if i < s.len() - 1 {
                assert(s.drop_last()[i].digest@ == d);
            }
        }
    }
}

proof fn lemma_slot_map_lookup(s: Seq<StoredSlot>, i: int)
    requires
        0 <= i < s.len(),
        forall|p: int, q: int| 0 <= p < q < s.len() ==> s[p].digest@ != s[q].digest@,
    ensures
        slot_map(s).contains_key(s[i].digest@),
        slot_map(s)[s[i].digest@] == s[i].data@,
    decreases s.len(),
{
    if i == s.len() - 1 {
    } else {
        assert(s[i].digest@ != s[s.len() - 1].digest@);
        assert forall|p: int, q: int|
            0 <= p < q < s.drop_last().len() implies s.drop_last()[p].digest@
            != s.drop_last()[q].digest@ by {
            assert(s.drop_last()[p] == s[p] && s.drop_last()[q] == s[q]);
        }
        lemma_slot_map_lookup(s.drop_last(), i);
        assert(s.drop_last()[i] == s[i]);
    }
}

/// The name of the store's own metadata directory, which a tree traversal
/// must skip.
pub open spec fn metadata_dir_name() -> Seq<u8> {
    seq![46u8, 103u8, 105u8, 116u8]
}

/// Whether a child name is the store's metadata directory (".git").
pub fn is_metadata_dir_name(name: &Vec<u8>) -> (r: bool)
    ensures
        r <==> name@ == metadata_dir_name(),
{
    let r = name.len() == 4 && name[0] == 46 && name[1] == 103 && name[2] == 105 && name[3]
        == 116;
    proof {
        if r {
            assert(name@ =~= metadata_dir_name());
        }
        if name@ == metadata_dir_name() {
            assert(name@.len() == 4);
        }
    }
    r
}

proof fn lemma_slot_map_len(s: Seq<StoredSlot>)
    requires
        forall|p: int, q: int| 0 <= p < q < s.len() ==> s[p].digest@ != s[q].digest@,
    ensures
        slot_map(s).dom().finite(),
        slot_map(s).dom().len() == s.len(),
    decreases s.len(),
{
    if s.len() == 0 {
        assert(slot_map(s).dom() =~= Set::<Seq<u8>>::empty());
    } else {
        let pre = s.drop_last();
        assert forall|p: int, q: int| 0 <= p < q < pre.len() implies pre[p].digest@
            != pre[q].digest@ by {
            assert(pre[p] == s[p] && pre[q] == s[q]);
        }
        lemma_slot_map_len(pre);
        lemma_slot_map_contains(pre, s.last().digest@);
        assert(!slot_map(pre).contains_key(s.last().digest@)) by {
            if exists|i: int| 0 <= i < pre.len() && pre[i].digest@ == s.last().digest@ {
                let i = choose|i: int| 0 <= i < pre.len() && pre[i].digest@ == s.last().digest@;
                assert(s[i].digest@ != s[s.len() - 1].digest@);
            }
        }
        assert(slot_map(s).dom() =~= slot_map(pre).dom().insert(s.last().digest@));
    }
}

impl Store {
    /// Each digest is filed at most once.
    pub closed spec fn wf(&self) -> bool {
        forall|p: int, q: int|
            0 <= p < q < self.slots@.len() ==> self.slots@[p].digest@ != self.slots@[q].digest@
    }

    /// An empty store.
    pub fn new() -> (r: Store)
        ensures
            r.wf(),
            r@ == Map::<Seq<u8>, Seq<u8>>::empty(),
    {
        Store { slots: Vec::new() }
    }

    /// How many objects the store holds: one per filed digest.
    pub fn count(&self) -> (r: usize)
        requires
            self.wf(),
        ensures
            r == self@.dom().len(),
    {
        proof {
            lemma_slot_map_len(self.slots@);
        }
        self.slots.len()
    }

    fn find_slot(&self, digest: &Vec<u8>) -> (r: Option<usize>)
        requires
            self.wf(),
        ensures
            r matches Some(i) ==> i < self.slots@.len() && self.slots@[i as int].digest@
                == digest@,
            r is Some <==> self@.contains_key(digest@),
    {
        let mut i: usize = 0;
        while i < self.slots.len()
            invariant
                i <= self.slots@.len(),
                forall|k: int| 0 <= k < i ==> self.slots@[k].digest@ != digest@,
            decreases self.slots@.len() - i,
        {
            if bytes_eq(&self.slots[i].digest, digest) {
                proof {
                    lemma_slot_map_contains(self.slots@, digest@);
                }
                return Some(i);
            }
            i = i + 1;
        }
        proof {
            lemma_slot_map_contains(self.slots@, digest@);
        }
        None
    }

    /// Whether an object is filed under this digest.
    pub fn contains(&self, digest: &Vec<u8>) -> (r: bool)
        requires
            self.wf(),
        ensures
            r <==> self@.contains_key(digest@),
    {
        self.find_slot(digest).is_some()
    }

    /// Write an object: encode `(kind, declared_size, body)` and file the
    /// compressed bytes under their digest.
    ///
    /// Fails with `SizeMismatch`, filing nothing, exactly when the declared
    /// size is not the body's length. A digest already present is left as it
    /// is — content addressing makes the second write a no-op — and the
    /// store never holds two entries for one digest.
    pub fn submit(&mut self, kind: Kind, declared_size: u64, body: &Vec<u8>) -> (r: Result<
        Vec<u8>,
        ObjectError,
    >)
        requires
            old(self).wf(),
        ensures
            final(self).wf(),
            r is Ok <==> declared_size == body@.len(),
            r is Err ==> r == Err::<Vec<u8>, ObjectError>(ObjectError::SizeMismatch) && final(self)@
                == old(self)@,
            r matches Ok(d) ==> ({
                &&& d@ == object_digest(kind, body@)
                &&& d@.len() == 20
                &&& final(self)@.contains_key(d@)
                &&& !old(self)@.contains_key(d@) ==> final(self)@ == old(self)@.insert(
                    d@,
                    deflate_of(frame_bytes(kind, body@)),
                ) && final(self)@[d@] == deflate_of(frame_bytes(kind, body@))
                &&& old(self)@.contains_key(d@) ==> final(self)@ == old(self)@
            }),
    {
        let body_copy = copy_range(body, 0, body.len());
        proof {
            assert(body_copy@ =~= body@);
        }
        let obj = GitObject { kind, expected_size: declared_size, body: body_copy };
        let enc = match obj.write() {
            Ok(enc) => enc,
            Err(e) => {
                return Err(e);
            },
        };
        let EncodedObject { digest, data } = enc;
        match self.find_slot(&digest) {
            Some(_) => Ok(digest),
            None => {
                let digest_copy = copy_range(&digest, 0, digest.len());
                proof {
                    assert(digest_copy@ =~= digest@);
                }
                let ghost before = self.slots@;
                self.slots.push(StoredSlot { digest: digest_copy, data });
                proof {
                    assert(self.slots@.drop_last() =~= before);
                    assert(self.slots@.last() == self.slots@[before.len() as int]);
                    assert(self.slots@.last().digest@ == digest@);
                    assert(self.slots@.last().data@ == deflate_of(frame_bytes(kind, body@)));
                    assert(self@ == slot_map(before).insert(
                        digest@,
                        deflate_of(frame_bytes(kind, body@)),
                    ));
                    lemma_slot_map_contains(before, digest@);
                    assert forall|p: int, q: int|
                        0 <= p < q < self.slots@.len() implies self.slots@[p].digest@
                        != self.slots@[q].digest@ by {
                        if q < before.len() {
                            assert(self.slots@[p] == before[p] && self.slots@[q] == before[q]);
                        } else {
                            assert(self.slots@[p] == before[p]);
                            assert(self.slots@[q].digest@ == digest@);
                        }
                    }
                }
                Ok(digest)
            },
        }
    }

    /// Read the object filed under a digest: `ObjectNotFound` exactly when
    /// the digest is absent; otherwise the stored bytes are decoded as
    /// `decode_object` does, and anything the write path stored comes back
    /// as exactly the kind and body it was submitted with.
    ///
    /// The digest is not re-verified against the content on read: the store
    /// trusts its own writes, which is sound only while nothing else writes
    /// to it.
    pub fn fetch(&self, digest: &Vec<u8>) -> (r: Result<GitObject, ObjectError>)
        requires
            self.wf(),
        ensures
            r == Err::<GitObject, ObjectError>(ObjectError::ObjectNotFound) <==> !self@.contains_key(
                digest@,
            ),
            r matches Ok(o) ==> self@.contains_key(digest@) && ({
                let c = self@[digest@];
                &&& frame_ok(inflate_of(c))
                &&& Some(o.kind) == spec_kind_of_token(kind_tok_of(inflate_of(c)))
                &&& o.expected_size as nat == dec_value(size_tok_of(inflate_of(c)))
                &&& o.body@ == payload_of(inflate_of(c))
            }),
            forall|k: Kind, b: Seq<u8>|
                self@.contains_key(digest@) && self@[digest@] == deflate_of(frame_bytes(k, b))
                    && b.len() <= u64::MAX ==> (r matches Ok(o) && o.kind == k && o.expected_size
                    as nat == b.len() && o.body@ == b),
    {
        match self.find_slot(digest) {
            None => Err(ObjectError::ObjectNotFound),
            Some(i) => {
                proof {
                    lemma_slot_map_lookup(self.slots@, i as int);
                }
                let r = decode_object(&self.slots[i].data);
                proof {
                    assert(self@[digest@] == self.slots@[i as int].data@);
                }
                r
            },
        }
    }
}

/// Round-trip: a fresh submission files `deflate(frame(kind, body))` under
/// `object_digest(kind, body)`, and that frame parses back to exactly the
/// kind, the body's length and the body — so the fetch path, whose contract
/// keys on that stored shape, returns the submitted object unchanged.
pub proof fn lemma_round_trip(m: Map<Seq<u8>, Seq<u8>>, k: Kind, body: Seq<u8>)
    requires
        body.len() <= u64::MAX,
    ensures
        ({
            let d = object_digest(k, body);
            let m2 = m.insert(d, deflate_of(frame_bytes(k, body)));
            &&& m2.contains_key(d)
            &&& m2[d] == deflate_of(frame_bytes(k, body))
            &&& frame_ok(frame_bytes(k, body))
            &&& spec_kind_of_token(kind_tok_of(frame_bytes(k, body))) == Some(k)
            &&& dec_value(size_tok_of(frame_bytes(k, body))) == body.len()
            &&& payload_of(frame_bytes(k, body)) == body
        }),
{
    lemma_frame_round_trip(k, body);
}

/// Content addressing makes writes idempotent: a digest is a function of
/// kind and body alone, and filing the same compressed bytes under it a
/// second time leaves the store's table exactly as it was.
pub proof fn lemma_submit_idempotent(m: Map<Seq<u8>, Seq<u8>>, k: Kind, body: Seq<u8>)
    ensures
        ({
            let d = object_digest(k, body);
            let c = deflate_of(frame_bytes(k, body));
            let m1 = m.insert(d, c);
            &&& m1.insert(d, c) == m1
            &&& m1.contains_key(d)
            &&& m1[d] == c
        }),
{
    let d = object_digest(k, body);
    let c = deflate_of(frame_bytes(k, body));
    let m1 = m.insert(d, c);
    assert(m1.insert(d, c) =~= m1);
}

} // verus!
