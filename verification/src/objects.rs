//! The object codec: framing, hashing and compression of loose objects.
//!
//! An object is framed as `"<kind> <size>\0" ++ body`; its digest is the
//! SHA-1 hash of those framed bytes, and the stored form is the zlib
//! compression of them. Hashing happens over the uncompressed framed bytes.

use vstd::prelude::*;

use crate::digits::{all_dec_digits, dec_digits, dec_value, is_dec_digit, lemma_dec_digits_are_digits,
    lemma_dec_round_trip, parse_dec, u64_to_dec};

verus! {

/// What an object's digest is a function of and how long it is.
pub uninterp spec fn sha1_of(bytes: Seq<u8>) -> Seq<u8>;

/// The zlib compression of a byte sequence, at the codec's fixed level.
pub uninterp spec fn deflate_of(bytes: Seq<u8>) -> Seq<u8>;

/// The bytes a successful zlib decompression yields.
pub uninterp spec fn inflate_of(bytes: Seq<u8>) -> Seq<u8>;

/// Relies on sha1::Sha1 (SHA-1 as in RFC 3174): the digest is a pure
/// function of the input bytes and is exactly 20 bytes long.
#[verifier::external_body]
pub fn sha1_digest(bytes: &Vec<u8>) -> (r: Vec<u8>)
    ensures
        r@ == sha1_of(bytes@),
        r@.len() == 20,
{
    let mut h = <sha1::Sha1 as sha1::Digest>::new();
    sha1::Digest::update(&mut h, bytes.as_slice());
    sha1::Digest::finalize(h).to_vec()
}

/// Relies on flate2::write::ZlibEncoder at the default level: the output is a
/// pure function of the input bytes, writing into a Vec cannot fail, and
/// decompressing the output yields the input again (stated via the universal
/// clause of `zlib_inflate`).
#[verifier::external_body]
pub fn zlib_deflate(bytes: &Vec<u8>) -> (r: Vec<u8>)
    ensures
        r@ == deflate_of(bytes@),
{
    let mut enc = flate2::write::ZlibEncoder::new(Vec::new(), flate2::Compression::default());
    std::io::Write::write_all(&mut enc, bytes.as_slice()).unwrap();
    enc.finish().unwrap()
}

/// Relies on flate2::read::ZlibDecoder: decompression is a pure function of
/// the compressed input; it fails on input that is not a zlib stream; on the
/// output of ZlibEncoder it succeeds and returns exactly the bytes that were
/// compressed.
#[verifier::external_body]
pub fn zlib_inflate(data: &Vec<u8>) -> (r: Option<Vec<u8>>)
    ensures
        r matches Some(v) ==> v@ == inflate_of(data@),
        r is None ==> forall|x: Seq<u8>| data@ != deflate_of(x),
        r is Some ==> forall|x: Seq<u8>| data@ == deflate_of(x) ==> inflate_of(data@) == x,
{
    let mut out = Vec::new();
    let mut dec = flate2::read::ZlibDecoder::new(data.as_slice());
    match std::io::Read::read_to_end(&mut dec, &mut out) {
        Ok(_) => Some(out),
        Err(_) => None,
    }
}

/// The three kinds of record the store holds.
#[derive(Clone, Copy, Debug, PartialEq, Eq, Structural)]
pub enum Kind {
    Blob,
    Tree,
    Commit,
}

/// How a write or read of an object can fail.
#[derive(Clone, Copy, Debug, PartialEq, Eq, Structural)]
pub enum ObjectError {
    /// A compression-stream or storage failure.
    IoError,
    /// The declared size and the actual body length disagree.
    SizeMismatch,
    /// The header of a stored object could not be parsed.
    MalformedHeader,
    /// The header names a kind outside {blob, tree, commit}.
    UnknownKind,
    /// The body ends before its declared size is reached.
    TruncatedObject,
    /// No object is stored under the requested digest.
    ObjectNotFound,
    /// A tree body's entry framing is broken.
    InvalidTreeEntry,
}

/// The header token naming a kind.
pub open spec fn kind_token(k: Kind) -> Seq<u8> {
    match k {
        Kind::Blob => seq![98u8, 108u8, 111u8, 98u8],
        Kind::Tree => seq![116u8, 114u8, 101u8, 101u8],
        Kind::Commit => seq![99u8, 111u8, 109u8, 109u8, 105u8, 116u8],
    }
}

pub open spec fn spec_kind_of_token(t: Seq<u8>) -> Option<Kind> {
    if t == kind_token(Kind::Blob) {
        Some(Kind::Blob)
    } else if t == kind_token(Kind::Tree) {
        Some(Kind::Tree)
    } else if t == kind_token(Kind::Commit) {
        Some(Kind::Commit)
    } else {
        None
    }
}

/// The framed header: `<kind> <size>\0`.
pub open spec fn header_bytes(k: Kind, size: nat) -> Seq<u8> {
    kind_token(k) + seq![32u8] + dec_digits(size) + seq![0u8]
}

/// The full framed object: header, then body; the size is the body's length.
pub open spec fn frame_bytes(k: Kind, body: Seq<u8>) -> Seq<u8> {
    header_bytes(k, body.len()) + body
}

/// The digest an object is addressed by: the hash of its framed bytes.
pub open spec fn object_digest(k: Kind, body: Seq<u8>) -> Seq<u8> {
    sha1_of(frame_bytes(k, body))
}

/// Index of the first occurrence of `b` in `s`, or `s.len()` if absent.
pub open spec fn find_byte(s: Seq<u8>, b: u8) -> int
    decreases s.len(),
{
    if s.len() == 0 {
        0
    } else if s[0] == b {
        0
    } else {
        1 + find_byte(s.drop_first(), b)
    }
}

/// The first occurrence is pinned by exhibiting it.
pub proof fn lemma_find_byte_pins(s: Seq<u8>, b: u8, i: int)
    requires
        0 <= i <= s.len(),
        forall|k: int| 0 <= k < i ==> s[k] != b,
        i < s.len() ==> s[i] == b,
    ensures
        find_byte(s, b) == i,
    decreases s.len(),
{
    if s.len() == 0 {
    } else if i == 0 {
    } else {
        assert(s[0] != b);
        lemma_find_byte_pins(s.drop_first(), b, i - 1);
    }
}

/// Position of the header's terminating NUL, or the whole length if absent.
pub open spec fn hdr_end(s: Seq<u8>) -> int {
    find_byte(s, 0)
}

/// The header bytes before the NUL.
pub open spec fn header_of(s: Seq<u8>) -> Seq<u8> {
    s.take(hdr_end(s))
}

/// Position of the first space inside the header.
pub open spec fn sp_pos(s: Seq<u8>) -> int {
    find_byte(header_of(s), 32)
}

pub open spec fn kind_tok_of(s: Seq<u8>) -> Seq<u8> {
    header_of(s).take(sp_pos(s))
}

pub open spec fn size_tok_of(s: Seq<u8>) -> Seq<u8> {
    header_of(s).skip(sp_pos(s) + 1)
}

/// Everything after the header's NUL.
pub open spec fn payload_of(s: Seq<u8>) -> Seq<u8> {
    s.skip(hdr_end(s) + 1)
}

/// The decompressed bytes carry a NUL-terminated header with a space in it.
pub open spec fn frame_has_header(s: Seq<u8>) -> bool {
    hdr_end(s) < s.len() && sp_pos(s) < header_of(s).len()
}

pub open spec fn frame_kind_known(s: Seq<u8>) -> bool {
    spec_kind_of_token(kind_tok_of(s)) is Some
}

pub open spec fn size_tok_valid(t: Seq<u8>) -> bool {
    t.len() > 0 && all_dec_digits(t) && dec_value(t) <= u64::MAX
}

/// The decompressed bytes parse as an object frame.
pub open spec fn frame_ok(s: Seq<u8>) -> bool {
    frame_has_header(s) && frame_kind_known(s) && size_tok_valid(size_tok_of(s))
}

/// An object as handed to or read from the store: a kind, the size its
/// header declares, and body bytes. On the write path the two must agree;
/// on the read path the body may prove shorter (truncation) or longer
/// (trailing garbage, never surfaced) than the declared size.
#[derive(Debug)]
pub struct GitObject {
    pub kind: Kind,
    pub expected_size: u64,
    pub body: Vec<u8>,
}

/// The two stored artefacts of an encoded object.
#[derive(Debug)]
pub struct EncodedObject {
    /// The 20-byte digest of the framed (uncompressed) bytes.
    pub digest: Vec<u8>,
    /// The compressed framed bytes, as they go to disk.
    pub data: Vec<u8>,
}

pub fn kind_label(k: Kind) -> (r: Vec<u8>)
    ensures
        r@ == kind_token(k),
{
    let mut r: Vec<u8> = Vec::new();
    match k {
        Kind::Blob => {
            r.push(98);
            r.push(108);
            r.push(111);
            r.push(98);
        },
        Kind::Tree => {
            r.push(116);
            r.push(114);
            r.push(101);
            r.push(101);
        },
        Kind::Commit => {
            r.push(99);
            r.push(111);
            r.push(109);
            r.push(109);
            r.push(105);
            r.push(116);
        },
    }
    assert(r@ =~= kind_token(k));
    r
}

/// Append all of `src` to `dst`.
pub fn push_all(dst: &mut Vec<u8>, src: &Vec<u8>)
    ensures
        final(dst)@ == old(dst)@ + src@,
{
    let mut i: usize = 0;
    while i < src.len()
        invariant
            i <= src@.len(),
            dst@ == old(dst)@ + src@.take(i as int),
        decreases src@.len() - i,
    {
        let ghost prev = dst@;
        dst.push(src[i]);
        proof {
            assert(prev.push(src@[i as int]) =~= old(dst)@ + src@.take(i + 1));
        }
        i = i + 1;
    }
    assert(src@.take(src@.len() as int) =~= src@);
}

/// Copy the bytes of `s` in `[from, to)` into a fresh vector.
pub fn copy_range(s: &Vec<u8>, from: usize, to: usize) -> (r: Vec<u8>)
    requires
        from <= to <= s@.len(),
    ensures
        r@ == s@.subrange(from as int, to as int),
{
    let mut r: Vec<u8> = Vec::new();
    let mut i: usize = from;
    while i < to
        invariant
            from <= i <= to <= s@.len(),
            r@ == s@.subrange(from as int, i as int),
        decreases to - i,
    {
        let ghost prev = r@;
        r.push(s[i]);
        proof {
            assert(prev.push(s@[i as int]) =~= s@.subrange(from as int, i + 1));
        }
        i = i + 1;
    }
    r
}

impl GitObject {
    /// Whether the declared size matches the body actually held.
    pub open spec fn size_ok(&self) -> bool {
        self.expected_size == self.body@.len()
    }

    /// Encode this object: frame it, hash the framed bytes, compress them.
    ///
    /// Fails with `SizeMismatch` exactly when the declared size does not
    /// equal the body's length; nothing is produced in that case.
    pub fn write(&self) -> (r: Result<EncodedObject, ObjectError>)
        ensures
            r is Ok <==> self.size_ok(),
            !self.size_ok() ==> r == Err::<EncodedObject, ObjectError>(ObjectError::SizeMismatch),
            r matches Ok(enc) ==> enc.digest@ == object_digest(self.kind, self.body@)
                && enc.digest@.len() == 20
                && enc.data@ == deflate_of(frame_bytes(self.kind, self.body@)),
    {
        if self.expected_size != self.body.len() as u64 {
            return Err(ObjectError::SizeMismatch);
        }
        let mut framed: Vec<u8> = Vec::new();
        let label = kind_label(self.kind);
        push_all(&mut framed, &label);
        framed.push(32);
        let size_digits = u64_to_dec(self.expected_size);
        push_all(&mut framed, &size_digits);
        framed.push(0);
        push_all(&mut framed, &self.body);
        assert(framed@ =~= frame_bytes(self.kind, self.body@));
        let digest = sha1_digest(&framed);
        let data = zlib_deflate(&framed);
        Ok(EncodedObject { digest, data })
    }

    /// The body as the declared size bounds it: exactly `expected_size`
    /// bytes, trailing bytes beyond the declared size never surfacing.
    /// Fails with `TruncatedObject` exactly when the held bytes end early;
    /// the failure arises here, at the read of the body, not at header parse.
    pub fn body_bytes(&self) -> (r: Result<Vec<u8>, ObjectError>)
        ensures
            r is Ok <==> self.body@.len() >= self.expected_size,
            self.body@.len() < self.expected_size ==> r == Err::<Vec<u8>, ObjectError>(
                ObjectError::TruncatedObject,
            ),
            r matches Ok(b) ==> b@ == self.body@.take(self.expected_size as int),
    {
        if (self.body.len() as u64) < self.expected_size {
            return Err(ObjectError::TruncatedObject);
        }
        let n = self.expected_size as usize;
        let r = copy_range(&self.body, 0, n);
        assert(r@ =~= self.body@.take(self.expected_size as int));
        Ok(r)
    }
}

/// Recognise a kind token held in `s[..p]`.
fn token_kind(s: &Vec<u8>, p: usize) -> (r: Option<Kind>)
    requires
        p <= s@.len(),
    ensures
        r == spec_kind_of_token(s@.take(p as int)),
{
    let ghost t = s@.take(p as int);
    if p == 4 && s[0] == 98 && s[1] == 108 && s[2] == 111 && s[3] == 98 {
        proof {
            assert(t =~= kind_token(Kind::Blob));
        }
        Some(Kind::Blob)
    } else if p == 4 && s[0] == 116 && s[1] == 114 && s[2] == 101 && s[3] == 101 {
        proof {
            assert(t =~= kind_token(Kind::Tree));
            assert(t != kind_token(Kind::Blob));
        }
        Some(Kind::Tree)
    } else if p == 6 && s[0] == 99 && s[1] == 111 && s[2] == 109 && s[3] == 109 && s[4] == 105
        && s[5] == 116 {
        proof {
            assert(t =~= kind_token(Kind::Commit));
            assert(t != kind_token(Kind::Blob));
            assert(t != kind_token(Kind::Tree));
        }
        Some(Kind::Commit)
    } else {
        proof {
            if t == kind_token(Kind::Blob) {
                assert(t.len() == 4 && t[0] == 98 && t[1] == 108 && t[2] == 111 && t[3] == 98);
                assert(false);
            }
            if t == kind_token(Kind::Tree) {
                assert(t.len() == 4 && t[0] == 116 && t[1] == 114 && t[2] == 101 && t[3] == 101);
                assert(false);
            }
            if t == kind_token(Kind::Commit) {
                assert(t.len() == 6 && t[0] == 99 && t[1] == 111 && t[2] == 109 && t[3] == 109
                    && t[4] == 105 && t[5] == 116);
                assert(false);
            }
        }
        None
    }
}

/// Parse decompressed framed bytes into an object.
///
/// The errors come in header order: no NUL terminator or no space yields
/// `MalformedHeader`; a kind token outside the closed set yields
/// `UnknownKind`; an unreadable size token yields `MalformedHeader`.
/// The body is everything after the NUL, not yet checked against the size.
pub fn parse_frame(s: &Vec<u8>) -> (r: Result<GitObject, ObjectError>)
    ensures
        r is Ok <==> frame_ok(s@),
        !frame_has_header(s@) ==> r == Err::<GitObject, ObjectError>(ObjectError::MalformedHeader),
        frame_has_header(s@) && !frame_kind_known(s@) ==> r == Err::<GitObject, ObjectError>(
            ObjectError::UnknownKind,
        ),
        frame_has_header(s@) && frame_kind_known(s@) && !size_tok_valid(size_tok_of(s@)) ==> r
            == Err::<GitObject, ObjectError>(ObjectError::MalformedHeader),
        r matches Ok(o) ==> Some(o.kind) == spec_kind_of_token(kind_tok_of(s@))
            && o.expected_size as nat == dec_value(size_tok_of(s@)) && o.body@ == payload_of(s@),
{
    let n = s.len();
    let mut e: usize = 0;
    while e < n && s[e] != 0
        invariant
            n == s@.len(),
            e <= n,
            forall|k: int| 0 <= k < e ==> s@[k] != 0,
        decreases n - e,
    {
        e = e + 1;
    }
    proof {
        lemma_find_byte_pins(s@, 0, e as int);
    }
    if e == n {
        return Err(ObjectError::MalformedHeader);
    }
    // the header is s[..e]; find the space inside it
    let ghost h = header_of(s@);
    proof {
        assert(h =~= s@.take(e as int));
    }
    let mut p: usize = 0;
    while p < e && s[p] != 32
        invariant
            e <= n == s@.len(),
            p <= e,
            forall|k: int| 0 <= k < p ==> s@[k] != 32,
        decreases e - p,
    {
        p = p + 1;
    }
    proof {
        assert forall|k: int| 0 <= k < p implies h[k] != 32 by {
            assert(h[k] == s@[k]);
        }
        lemma_find_byte_pins(h, 32, p as int);
    }
    if p == e {
        return Err(ObjectError::MalformedHeader);
    }
    let kind = match token_kind(s, p) {
        Some(k) => {
            proof {
                assert(kind_tok_of(s@) =~= s@.take(p as int));
            }
            k
        },
        None => {
            proof {
                assert(kind_tok_of(s@) =~= s@.take(p as int));
            }
            return Err(ObjectError::UnknownKind);
        },
    };
    let size_tok = copy_range(s, p + 1, e);
    proof {
        assert(size_tok_of(s@) =~= s@.subrange(p + 1, e as int));
    }
    let size = match parse_dec(&size_tok) {
        Some(v) => v,
        None => {
            return Err(ObjectError::MalformedHeader);
        },
    };
    let body = copy_range(s, e + 1, n);
    proof {
        assert(payload_of(s@) =~= s@.subrange(e + 1, n as int));
    }
    Ok(GitObject { kind, expected_size: size, body })
}

/// Decode a stored object: decompress, then parse the frame.
///
/// A zlib failure is an `IoError`; the other errors classify the
/// decompressed bytes as `parse_frame` does. On any compression of a
/// well-formed frame — in particular on everything the write path stores —
/// decoding is total and returns the framed object exactly.
pub fn decode_object(data: &Vec<u8>) -> (r: Result<GitObject, ObjectError>)
    ensures
        r matches Ok(o) ==> frame_ok(inflate_of(data@)) && Some(o.kind) == spec_kind_of_token(
            kind_tok_of(inflate_of(data@)),
        ) && o.expected_size as nat == dec_value(size_tok_of(inflate_of(data@))) && o.body@
            == payload_of(inflate_of(data@)),
        r matches Err(e) ==> e == ObjectError::IoError || e == ObjectError::MalformedHeader || e
            == ObjectError::UnknownKind,
        r matches Err(e) && e != ObjectError::IoError ==> !frame_ok(inflate_of(data@)),
        forall|k: Kind, b: Seq<u8>|
            data@ == deflate_of(frame_bytes(k, b)) && b.len() <= u64::MAX ==> (r matches Ok(o)
                && o.kind == k && o.expected_size as nat == b.len() && o.body@ == b),
{
    match zlib_inflate(data) {
        Some(v) => {
            let r = parse_frame(&v);
            proof {
                assert forall|k: Kind, b: Seq<u8>|
                    data@ == deflate_of(frame_bytes(k, b)) && b.len()
                        <= u64::MAX implies r matches Ok(o) && o.kind == k && o.expected_size
                    as nat == b.len() && o.body@ == b by {
                    assert(v@ == frame_bytes(k, b));
                    lemma_frame_round_trip(k, b);
                }
            }
            r
        },
        None => {
            proof {
                assert forall|k: Kind, b: Seq<u8>|
                    data@ == deflate_of(frame_bytes(k, b)) && b.len() <= u64::MAX implies false by {
                    assert(data@ != deflate_of(frame_bytes(k, b)));
                }
            }
            Err(ObjectError::IoError)
        },
    }
}

pub proof fn lemma_kind_token_bytes(k: Kind)
    ensures
        1 <= kind_token(k).len() <= 6,
        forall|i: int|
            0 <= i < kind_token(k).len() ==> #[trigger] kind_token(k)[i] != 0 && kind_token(k)[i]
                != 32,
{
    let t = kind_token(k);
    match k {
        Kind::Blob => {
            assert forall|i: int| 0 <= i < t.len() implies #[trigger] t[i] != 0 && t[i] != 32 by {
                assert(t =~= seq![98u8, 108u8, 111u8, 98u8]);
            }
        },
        Kind::Tree => {
            assert forall|i: int| 0 <= i < t.len() implies #[trigger] t[i] != 0 && t[i] != 32 by {
                assert(t =~= seq![116u8, 114u8, 101u8, 101u8]);
            }
        },
        Kind::Commit => {
            assert forall|i: int| 0 <= i < t.len() implies #[trigger] t[i] != 0 && t[i] != 32 by {
                assert(t =~= seq![99u8, 111u8, 109u8, 109u8, 105u8, 116u8]);
            }
        },
    }
}

/// Round-trip of the framing layer: a well-formed frame parses back to the
/// kind, size and body it was built from.
pub proof fn lemma_frame_round_trip(k: Kind, body: Seq<u8>)
    requires
        body.len() <= u64::MAX,
    ensures
        frame_ok(frame_bytes(k, body)),
        spec_kind_of_token(kind_tok_of(frame_bytes(k, body))) == Some(k),
        dec_value(size_tok_of(frame_bytes(k, body))) == body.len(),
        payload_of(frame_bytes(k, body)) == body,
{
    let kt = kind_token(k);
    let dd = dec_digits(body.len());
    let s = frame_bytes(k, body);
    let hlen = kt.len() + 1 + dd.len();
    lemma_kind_token_bytes(k);
    lemma_dec_digits_are_digits(body.len());
    lemma_dec_round_trip(body.len());
    assert(s =~= kt + seq![32u8] + dd + seq![0u8] + body);
    assert(s.len() == hlen + 1 + body.len());
    // pin the NUL position
    assert forall|i: int| 0 <= i < hlen implies s[i] != 0 by {
        if i < kt.len() {
            assert(s[i] == kt[i]);
        } else if i == kt.len() {
            assert(s[i] == 32);
        } else {
            assert(s[i] == dd[i - kt.len() - 1]);
            assert(is_dec_digit(dd[i - kt.len() - 1]));
        }
    }
    assert(s[hlen as int] == 0);
    lemma_find_byte_pins(s, 0, hlen as int);
    assert(hdr_end(s) == hlen);
    let h = header_of(s);
    assert(h =~= kt + seq![32u8] + dd);
    // pin the space position
    assert forall|i: int| 0 <= i < kt.len() implies h[i] != 32 by {
        assert(h[i] == kt[i]);
    }
    assert(h[kt.len() as int] == 32);
    lemma_find_byte_pins(h, 32, kt.len() as int);
    assert(sp_pos(s) == kt.len());
    assert(kind_tok_of(s) =~= kt);
    match k {
        Kind::Blob => {
            assert(spec_kind_of_token(kt) == Some(Kind::Blob));
        },
        Kind::Tree => {
            assert(kt[0] == 116 && kind_token(Kind::Blob)[0] == 98);
            assert(kt != kind_token(Kind::Blob));
            assert(spec_kind_of_token(kt) == Some(Kind::Tree));
        },
        Kind::Commit => {
            assert(kt.len() == 6);
            assert(kt != kind_token(Kind::Blob));
            assert(kt != kind_token(Kind::Tree));
            assert(spec_kind_of_token(kt) == Some(Kind::Commit));
        },
    }
    assert(size_tok_of(s) =~= dd);
    assert(payload_of(s) =~= body);
}

} // verus!
