//! Tree snapshots: the canonical entry ordering and the tree body codec.
//!
//! The ordering is hash-determining: entries compare by raw name bytes, and
//! when one name is a strict prefix of the other, the shorter entry's
//! deciding byte is a synthetic `'/'` if it is a directory — directory names
//! order as if suffixed with a path separator that is never stored.

use vstd::prelude::*;

use crate::objects::{find_byte, lemma_find_byte_pins, copy_range, push_all, ObjectError};

verus! {

/// The kind of a directory child, as its mode string records it.
#[derive(Clone, Copy, Debug, PartialEq, Eq, Structural)]
pub enum EntryMode {
    Regular,
    Executable,
    Symlink,
    Directory,
}

/// One child of a directory: a mode, raw name bytes, and the 20-byte digest
/// of the object the entry references.
#[derive(Debug)]
pub struct TreeEntry {
    pub mode: EntryMode,
    pub name: Vec<u8>,
    pub digest: Vec<u8>,
}

pub open spec fn is_dir(m: EntryMode) -> bool {
    m is Directory
}

/// The deciding byte of a name already compared equal through `i` bytes:
/// its next literal byte, a synthetic '/' for a just-exhausted directory
/// name, or nothing — and nothing sorts first.
pub open spec fn head_byte(n: Seq<u8>, dir: bool) -> Option<u8> {
    if n.len() > 0 {
        Some(n[0])
    } else if dir {
        Some(47u8)
    } else {
        None
    }
}

pub open spec fn opt_cmp(a: Option<u8>, b: Option<u8>) -> int {
    match (a, b) {
        (None, None) => 0,
        (None, Some(_)) => -1,
        (Some(_), None) => 1,
        (Some(x), Some(y)) => if x < y {
            -1
        } else if x > y {
            1
        } else {
            0
        },
    }
}

/// The canonical comparator: compare names bytewise; two exhausted names are
/// equal-order; otherwise the deciding bytes settle it.
pub open spec fn entry_cmp(a: Seq<u8>, ad: bool, b: Seq<u8>, bd: bool) -> int
    decreases a.len() + b.len(),
{
    if a.len() == 0 && b.len() == 0 {
        0
    } else if a.len() > 0 && b.len() > 0 {
        if a[0] < b[0] {
            -1
        } else if a[0] > b[0] {
            1
        } else {
            entry_cmp(a.drop_first(), ad, b.drop_first(), bd)
        }
    } else {
        opt_cmp(head_byte(a, ad), head_byte(b, bd))
    }
}

pub open spec fn te_cmp(x: TreeEntry, y: TreeEntry) -> int {
    entry_cmp(x.name@, is_dir(x.mode), y.name@, is_dir(y.mode))
}

pub open spec fn te_le(x: TreeEntry, y: TreeEntry) -> bool {
    te_cmp(x, y) <= 0
}

/// Sortedness as the sorting pass establishes it: over adjacent pairs.
pub open spec fn adjacent_sorted(s: Seq<TreeEntry>) -> bool {
    forall|i: int| 0 <= i < s.len() - 1 ==> #[trigger] te_le(s[i], s[i + 1])
}

/// Sortedness over all pairs; equivalent on well-formed entry lists.
pub open spec fn pairwise_sorted(s: Seq<TreeEntry>) -> bool {
    forall|i: int, j: int| 0 <= i < j < s.len() ==> te_le(s[i], s[j])
}

/// A usable child name: non-empty, free of NUL (the entry terminator) and of
/// '/' (a path separator never occurs inside one name).
pub open spec fn valid_name(n: Seq<u8>) -> bool {
    n.len() > 0 && forall|i: int| 0 <= i < n.len() ==> n[i] != 0 && #[trigger] n[i] != 47
}

pub open spec fn wf_entry(e: TreeEntry) -> bool {
    valid_name(e.name@) && e.digest@.len() == 20
}

pub open spec fn wf_entries(s: Seq<TreeEntry>) -> bool {
    forall|i: int| 0 <= i < s.len() ==> #[trigger] wf_entry(s[i])
}

/// No two children of one directory share a name.
pub open spec fn distinct_names(s: Seq<TreeEntry>) -> bool {
    forall|i: int, j: int| 0 <= i < j < s.len() ==> s[i].name@ != s[j].name@
}

/// Swapping the arguments flips the comparator's sign.
pub proof fn lemma_cmp_sign(a: Seq<u8>, ad: bool, b: Seq<u8>, bd: bool)
    ensures
        entry_cmp(b, bd, a, ad) == -entry_cmp(a, ad, b, bd),
    decreases a.len() + b.len(),
{
    if a.len() > 0 && b.len() > 0 && a[0] == b[0] {
        lemma_cmp_sign(a.drop_first(), ad, b.drop_first(), bd);
    }
}

/// The comparator only looks at the names and the directory flags.
pub proof fn lemma_cmp_skip(a: Seq<u8>, ad: bool, b: Seq<u8>, bd: bool, i: int)
    requires
        0 <= i <= a.len(),
        i <= b.len(),
        forall|k: int| 0 <= k < i ==> a[k] == b[k],
    ensures
        entry_cmp(a, ad, b, bd) == entry_cmp(a.skip(i), ad, b.skip(i), bd),
    decreases i,
{
    if i > 0 {
        assert(a[0] == b[0]);
        assert(a.len() > 0 && b.len() > 0);
        lemma_cmp_skip(a.drop_first(), ad, b.drop_first(), bd, i - 1);
        assert(a.drop_first().skip(i - 1) =~= a.skip(i));
        assert(b.drop_first().skip(i - 1) =~= b.skip(i));
    } else {
        assert(a.skip(0) =~= a);
        assert(b.skip(0) =~= b);
    }
}

/// The canonical comparator, executable. Returns -1, 0 or 1.
pub fn entry_order(a: &TreeEntry, b: &TreeEntry) -> (r: i8)
    ensures
        r as int == te_cmp(*a, *b),
{
    let an = a.name.len();
    let bn = b.name.len();
    let n = if an < bn {
        an
    } else {
        bn
    };
    let mut i: usize = 0;
    while i < n
        invariant
            n <= a.name@.len(),
            n <= b.name@.len(),
            i <= n,
            forall|k: int| 0 <= k < i ==> a.name@[k] == b.name@[k],
        decreases n - i,
    {
        let x = a.name[i];
        let y = b.name[i];
        if x != y {
            proof {
                lemma_cmp_skip(a.name@, is_dir(a.mode), b.name@, is_dir(b.mode), i as int);
                assert(a.name@.skip(i as int)[0] == a.name@[i as int]);
                assert(b.name@.skip(i as int)[0] == b.name@[i as int]);
            }
            if x < y {
                return -1;
            } else {
                return 1;
            }
        }
        i = i + 1;
    }
    proof {
        lemma_cmp_skip(a.name@, is_dir(a.mode), b.name@, is_dir(b.mode), n as int);
    }
    if an == bn {
        proof {
            assert(a.name@.skip(n as int).len() == 0);
            assert(b.name@.skip(n as int).len() == 0);
        }
        return 0;
    }
    let a_dir = matches!(a.mode, EntryMode::Directory);
    let b_dir = matches!(b.mode, EntryMode::Directory);
    if an < bn {
        // a's name is exhausted; its deciding byte is '/' only for a directory
        let y: u8 = b.name[n];
        proof {
            assert(b.name@.skip(n as int)[0] == b.name@[n as int]);
        }
        if a_dir {
            if 47 < y {
                return -1;
            } else if 47 > y {
                return 1;
            } else {
                return 0;
            }
        } else {
            return -1;
        }
    } else {
        let x: u8 = a.name[n];
        proof {
            assert(a.name@.skip(n as int)[0] == a.name@[n as int]);
        }
        if b_dir {
            if x < 47 {
                return -1;
            } else if x > 47 {
                return 1;
            } else {
                return 0;
            }
        } else {
            return 1;
        }
    }
}

/// Where `e` belongs inside the sorted prefix `v[..i]`.
fn insertion_point(v: &Vec<TreeEntry>, e: &TreeEntry, i: usize) -> (j: usize)
    requires
        i <= v@.len(),
    ensures
        j <= i,
        forall|k: int| j <= k < i ==> te_cmp(*e, v@[k]) <= 0,
        j > 0 ==> te_cmp(v@[j - 1], *e) <= 0,
{
    let mut j: usize = i;
    while j > 0
        invariant
            j <= i <= v@.len(),
            forall|k: int| j <= k < i ==> te_cmp(*e, v@[k]) <= 0,
        decreases j,
    {
        let c = entry_order(&v[j - 1], e);
        if c <= 0 {
            return j;
        }
        proof {
            lemma_cmp_sign(
                v@[j - 1].name@,
                is_dir(v@[j - 1].mode),
                e.name@,
                is_dir(e.mode),
            );
        }
        j = j - 1;
    }
    j
}

/// Sort a directory's children into the canonical order. The result is a
/// rearrangement of the input (same multiset of entries), sorted under the
/// canonical comparator.
pub fn sort_entries(entries: Vec<TreeEntry>) -> (r: Vec<TreeEntry>)
    ensures
        r@.to_multiset() == entries@.to_multiset(),
        adjacent_sorted(r@),
        r@.len() == entries@.len(),
{
    let mut v = entries;
    if v.len() == 0 {
        return v;
    }
    let ghost orig = v@;
    let mut i: usize = 1;
    while i < v.len()
        invariant
            1 <= i <= v@.len(),
            v@.len() == orig.len(),
            v@.to_multiset() == orig.to_multiset(),
            adjacent_sorted(v@.take(i as int)),
        decreases v@.len() - i,
    {
        let ghost before = v@;
        let e = v.remove(i);
        let ghost w = v@;
        let j = insertion_point(&v, &e, i);
        v.insert(j, e);
        proof {
            broadcast use vstd::seq_lib::group_to_multiset_ensures;

            // the multiset is unchanged: we removed e and put it back
            assert(before.contains(e)) by {
                assert(before[i as int] == e);
            }
            assert(w.to_multiset() =~= before.to_multiset().remove(e));
            assert(v@.to_multiset() =~= before.to_multiset());
            // the widened prefix is sorted around the insertion point
            assert forall|m: int| 0 <= m < i implies #[trigger] te_le(
                v@.take(i + 1)[m],
                v@.take(i + 1)[m + 1],
            ) by {
                let t = v@.take(i + 1);
                if m + 1 < j {
                    assert(t[m] == before[m] && t[m + 1] == before[m + 1]);
                    assert(te_le(before.take(i as int)[m], before.take(i as int)[m + 1]));
                } else if m + 1 == j {
                    assert(t[m] == w[m] && t[m + 1] == e);
                    assert(te_cmp(w[j - 1], e) <= 0);
                } else if m == j {
                    assert(t[m] == e && t[m + 1] == w[m]);
                    assert(te_cmp(e, w[m]) <= 0);
                    lemma_cmp_sign(e.name@, is_dir(e.mode), w[m].name@, is_dir(w[m].mode));
                } else {
                    assert(t[m] == w[m - 1] && t[m + 1] == w[m]);
                    assert(w[m - 1] == before[m - 1] && w[m] == before[m]);
                    assert(te_le(before.take(i as int)[m - 1], before.take(i as int)[(m - 1) + 1]));
                }
            }
            assert(adjacent_sorted(v@.take(i + 1)));
        }
        i = i + 1;
    }
    proof {
        assert(v@.take(i as int) =~= v@);
    }
    v
}

/// The mode string stored for each kind of entry.
pub open spec fn mode_token(m: EntryMode) -> Seq<u8> {
    match m {
        EntryMode::Directory => seq![52u8, 48u8, 48u8, 48u8, 48u8],
        EntryMode::Symlink => seq![49u8, 50u8, 48u8, 48u8, 48u8, 48u8],
        EntryMode::Executable => seq![49u8, 48u8, 48u8, 55u8, 53u8, 53u8],
        EntryMode::Regular => seq![49u8, 48u8, 48u8, 54u8, 52u8, 52u8],
    }
}

pub open spec fn spec_mode_of_token(t: Seq<u8>) -> Option<EntryMode> {
    if t == mode_token(EntryMode::Directory) {
        Some(EntryMode::Directory)
    } else if t == mode_token(EntryMode::Symlink) {
        Some(EntryMode::Symlink)
    } else if t == mode_token(EntryMode::Executable) {
        Some(EntryMode::Executable)
    } else if t == mode_token(EntryMode::Regular) {
        Some(EntryMode::Regular)
    } else {
        None
    }
}

pub fn mode_label(m: EntryMode) -> (r: Vec<u8>)
    ensures
        r@ == mode_token(m),
{
    let mut r: Vec<u8> = Vec::new();
    match m {
        EntryMode::Directory => {
            r.push(52);
            r.push(48);
            r.push(48);
            r.push(48);
            r.push(48);
        },
        EntryMode::Symlink => {
            r.push(49);
            r.push(50);
            r.push(48);
            r.push(48);
            r.push(48);
            r.push(48);
        },
        EntryMode::Executable => {
            r.push(49);
            r.push(48);
            r.push(48);
            r.push(55);
            r.push(53);
            r.push(53);
        },
        EntryMode::Regular => {
            r.push(49);
            r.push(48);
            r.push(48);
            r.push(54);
            r.push(52);
            r.push(52);
        },
    }
    assert(r@ =~= mode_token(m));
    r
}

/// One entry's bytes: `<mode> ' ' <name> '\0' <20-byte digest>`.
pub open spec fn entry_bytes(e: TreeEntry) -> Seq<u8> {
    mode_token(e.mode) + seq![32u8] + e.name@ + seq![0u8] + e.digest@
}

/// A tree body: the entries' bytes, in the order given.
pub open spec fn tree_body_spec(s: Seq<TreeEntry>) -> Seq<u8>
    decreases s.len(),
{
    if s.len() == 0 {
        Seq::empty()
    } else {
        entry_bytes(s[0]) + tree_body_spec(s.drop_first())
    }
}

pub proof fn lemma_tree_body_snoc(s: Seq<TreeEntry>, e: TreeEntry)
    ensures
        tree_body_spec(s.push(e)) == tree_body_spec(s) + entry_bytes(e),
    decreases s.len(),
{
    if s.len() == 0 {
        let t = s.push(e);
        assert(t.len() == 1);
        assert(t[0] == e);
        assert(t.drop_first() =~= s);
        assert(tree_body_spec(t) == entry_bytes(e) + tree_body_spec(s));
        assert(tree_body_spec(s) == Seq::<u8>::empty());
        assert(entry_bytes(e) + Seq::<u8>::empty() =~= entry_bytes(e));
        assert(Seq::<u8>::empty() + entry_bytes(e) =~= entry_bytes(e));
    } else {
        assert(s.push(e)[0] == s[0]);
        assert(s.push(e).drop_first() =~= s.drop_first().push(e));
        lemma_tree_body_snoc(s.drop_first(), e);
        assert(entry_bytes(s[0]) + (tree_body_spec(s.drop_first()) + entry_bytes(e)) =~= (
        entry_bytes(s[0]) + tree_body_spec(s.drop_first())) + entry_bytes(e));
    }
}

/// Serialize entries in the order given, without sorting.
pub fn tree_body(entries: &Vec<TreeEntry>) -> (r: Vec<u8>)
    ensures
        r@ == tree_body_spec(entries@),
{
    let mut r: Vec<u8> = Vec::new();
    let mut i: usize = 0;
    while i < entries.len()
        invariant
            i <= entries@.len(),
            r@ == tree_body_spec(entries@.take(i as int)),
        decreases entries@.len() - i,
    {
        let ghost prev = r@;
        let label = mode_label(entries[i].mode);
        push_all(&mut r, &label);
        r.push(32);
        push_all(&mut r, &entries[i].name);
        r.push(0);
        push_all(&mut r, &entries[i].digest);
        proof {
            let e = entries@[i as int];
            assert(r@ =~= prev + entry_bytes(e));
            lemma_tree_body_snoc(entries@.take(i as int), e);
            assert(entries@.take(i as int).push(e) =~= entries@.take(i + 1));
        }
        i = i + 1;
    }
    proof {
        assert(entries@.take(entries@.len() as int) =~= entries@);
    }
    r
}

/// Serialize a directory's children canonically: sort, then encode.
/// An empty directory yields no object at all, never an empty tree body.
pub fn serialize_tree(entries: Vec<TreeEntry>) -> (r: Option<Vec<u8>>)
    ensures
        r is None <==> entries@.len() == 0,
        r matches Some(b) ==> exists|t: Seq<TreeEntry>|
            {
                &&& t.to_multiset() == entries@.to_multiset()
                &&& #[trigger] adjacent_sorted(t)
                &&& b@ == tree_body_spec(t)
                &&& b@.len() > 0
            },
{
    if entries.len() == 0 {
        return None;
    }
    let sorted = sort_entries(entries);
    let b = tree_body(&sorted);
    proof {
        assert(sorted@.len() > 0);
        assert(tree_body_spec(sorted@).len() >= entry_bytes(sorted@[0]).len());
    }
    Some(b)
}

/// The body bytes parse as a whole sequence of well-framed entries.
pub open spec fn tree_body_wf(s: Seq<u8>) -> bool
    decreases s.len(),
{
    if s.len() == 0 {
        true
    } else {
        let sp = find_byte(s, 32);
        &&& 0 <= sp < s.len()
        &&& spec_mode_of_token(s.take(sp)) is Some
        &&& {
            let rest = s.skip(sp + 1);
            let nl = find_byte(rest, 0);
            &&& 0 <= nl < rest.len()
            &&& rest.len() - nl - 1 >= 20
            &&& tree_body_wf(rest.skip(nl + 21))
        }
    }
}

/// Recognise a mode token held in `s[from..to]`.
fn token_mode(s: &Vec<u8>, from: usize, to: usize) -> (r: Option<EntryMode>)
    requires
        from <= to <= s@.len(),
    ensures
        r == spec_mode_of_token(s@.subrange(from as int, to as int)),
{
    let ghost t = s@.subrange(from as int, to as int);
    let n = to - from;
    if n == 5 && s[from] == 52 && s[from + 1] == 48 && s[from + 2] == 48 && s[from + 3] == 48
        && s[from + 4] == 48 {
        proof {
            assert(t =~= mode_token(EntryMode::Directory));
        }
        Some(EntryMode::Directory)
    } else if n == 6 && s[from] == 49 && s[from + 1] == 50 && s[from + 2] == 48 && s[from + 3]
        == 48 && s[from + 4] == 48 && s[from + 5] == 48 {
        proof {
            assert(t =~= mode_token(EntryMode::Symlink));
            assert(t != mode_token(EntryMode::Directory));
        }
        Some(EntryMode::Symlink)
    } else if n == 6 && s[from] == 49 && s[from + 1] == 48 && s[from + 2] == 48 && s[from + 3]
        == 55 && s[from + 4] == 53 && s[from + 5] == 53 {
        proof {
            assert(t =~= mode_token(EntryMode::Executable));
            assert(t != mode_token(EntryMode::Directory));
            assert(t != mode_token(EntryMode::Symlink));
        }
        Some(EntryMode::Executable)
    } else if n == 6 && s[from] == 49 && s[from + 1] == 48 && s[from + 2] == 48 && s[from + 3]
        == 54 && s[from + 4] == 52 && s[from + 5] == 52 {
        proof {
            assert(t =~= mode_token(EntryMode::Regular));
            assert(t != mode_token(EntryMode::Directory));
            assert(t != mode_token(EntryMode::Symlink));
            assert(t != mode_token(EntryMode::Executable));
        }
        Some(EntryMode::Regular)
    } else {
        proof {
            if t == mode_token(EntryMode::Directory) {
                assert(t.len() == 5 && t[0] == 52 && t[1] == 48 && t[2] == 48 && t[3] == 48
                    && t[4] == 48);
                assert(false);
            }
            if t == mode_token(EntryMode::Symlink) {
                assert(t.len() == 6 && t[0] == 49 && t[1] == 50 && t[2] == 48 && t[3] == 48
                    && t[4] == 48 && t[5] == 48);
                assert(false);
            }
            if t == mode_token(EntryMode::Executable) {
                assert(t.len() == 6 && t[0] == 49 && t[1] == 48 && t[2] == 48 && t[3] == 55
                    && t[4] == 53 && t[5] == 53);
                assert(false);
            }
            if t == mode_token(EntryMode::Regular) {
                assert(t.len() == 6 && t[0] == 49 && t[1] == 48 && t[2] == 48 && t[3] == 54
                    && t[4] == 52 && t[5] == 52);
                assert(false);
            }
        }
        None
    }
}

/// Parse a tree body back into its entries.
///
/// Succeeds exactly on well-framed bodies, and what it returns re-serializes
/// to the input bytes; any framing fault is an `InvalidTreeEntry`.
pub fn parse_tree(body: &Vec<u8>) -> (r: Result<Vec<TreeEntry>, ObjectError>)
    ensures
        r is Ok <==> tree_body_wf(body@),
        !tree_body_wf(body@) ==> r == Err::<Vec<TreeEntry>, ObjectError>(
            ObjectError::InvalidTreeEntry,
        ),
        r matches Ok(es) ==> tree_body_spec(es@) == body@ && forall|i: int|
            0 <= i < es@.len() ==> (#[trigger] es@[i]).digest@.len() == 20,
{
    let n = body.len();
    let mut pos: usize = 0;
    let mut es: Vec<TreeEntry> = Vec::new();
    proof {
        assert(body@.skip(0) =~= body@);
    }
    while pos < n
        invariant
            pos <= n == body@.len(),
            tree_body_spec(es@) == body@.take(pos as int),
            tree_body_wf(body@) <==> tree_body_wf(body@.skip(pos as int)),
            forall|i: int| 0 <= i < es@.len() ==> (#[trigger] es@[i]).digest@.len() == 20,
        decreases n - pos,
    {
        let ghost rem = body@.skip(pos as int);
        // the mode token runs to the first space
        let mut q: usize = pos;
        while q < n && body[q] != 32
            invariant
                pos <= q <= n == body@.len(),
                forall|k: int| pos <= k < q ==> body@[k] != 32,
            decreases n - q,
        {
            q = q + 1;
        }
        proof {
            assert forall|k: int| 0 <= k < q - pos implies rem[k] != 32 by {
                assert(rem[k] == body@[pos + k]);
            }
            lemma_find_byte_pins(rem, 32, q - pos);
        }
        if q == n {
            return Err(ObjectError::InvalidTreeEntry);
        }
        let mode = match token_mode(body, pos, q) {
            Some(m) => {
                proof {
                    assert(rem.take(q - pos) =~= body@.subrange(pos as int, q as int));
                }
                m
            },
            None => {
                proof {
                    assert(rem.take(q - pos) =~= body@.subrange(pos as int, q as int));
                }
                return Err(ObjectError::InvalidTreeEntry);
            },
        };
        proof {
            assert(rem.take(q - pos) =~= body@.subrange(pos as int, q as int));
        }
        // the name runs to the first NUL after the space
        let ghost rest = rem.skip(q - pos + 1);
        proof {
            assert(rest =~= body@.skip(q + 1));
        }
        let mut u: usize = q + 1;
        while u < n && body[u] != 0
            invariant
                q < u <= n == body@.len(),
                forall|k: int| q < k < u ==> body@[k] != 0,
            decreases n - u,
        {
            u = u + 1;
        }
        proof {
            assert forall|k: int| 0 <= k < u - q - 1 implies rest[k] != 0 by {
                assert(rest[k] == body@[q + 1 + k]);
            }
            lemma_find_byte_pins(rest, 0, u - q - 1);
        }
        if u == n {
            return Err(ObjectError::InvalidTreeEntry);
        }
        if n - (u + 1) < 20 {
            return Err(ObjectError::InvalidTreeEntry);
        }
        let name = copy_range(body, q + 1, u);
        let digest = copy_range(body, u + 1, u + 21);
        let ghost prev = es@;
        let entry = TreeEntry { mode, name, digest };
        let ghost eg = entry;
        es.push(entry);
        proof {
            // this entry's bytes are exactly body[pos .. u + 21]
            assert(mode_token(eg.mode) =~= body@.subrange(pos as int, q as int));
            assert(entry_bytes(eg) =~= body@.subrange(pos as int, u + 21)) by {
                assert(entry_bytes(eg) == mode_token(eg.mode) + seq![32u8] + eg.name@ + seq![0u8]
                    + eg.digest@);
            }
            lemma_tree_body_snoc(prev, eg);
            assert(tree_body_spec(es@) =~= body@.take(u + 21)) by {
                assert(body@.take(pos as int) + body@.subrange(pos as int, u + 21) =~= body@.take(
                    u + 21,
                ));
            }
            // well-formedness peels off one entry at a time
            assert(tree_body_wf(rem) <==> tree_body_wf(body@.skip(u + 21))) by {
                assert(rem.len() > 0);
                assert(find_byte(rem, 32) == q - pos);
                assert(rem.take(q - pos) == body@.subrange(pos as int, q as int));
                assert(find_byte(rest, 0) == u - q - 1);
                assert(rest.len() - (u - q - 1) - 1 >= 20);
                assert(rest.skip(u - q - 1 + 21) =~= body@.skip(u + 21));
            }
        }
        pos = u + 21;
    }
    proof {
        assert(body@.take(pos as int) =~= body@);
        assert(body@.skip(pos as int) =~= Seq::<u8>::empty());
    }
    Ok(es)
}

proof fn lemma_mode_token_bytes(m: EntryMode)
    ensures
        5 <= mode_token(m).len() <= 6,
        forall|i: int|
            0 <= i < mode_token(m).len() ==> #[trigger] mode_token(m)[i] != 0 && mode_token(m)[i]
                != 32,
{
    let t = mode_token(m);
    match m {
        EntryMode::Directory => {
            assert forall|i: int| 0 <= i < t.len() implies #[trigger] t[i] != 0 && t[i] != 32 by {
                assert(t =~= seq![52u8, 48u8, 48u8, 48u8, 48u8]);
            }
        },
        EntryMode::Symlink => {
            assert forall|i: int| 0 <= i < t.len() implies #[trigger] t[i] != 0 && t[i] != 32 by {
                assert(t =~= seq![49u8, 50u8, 48u8, 48u8, 48u8, 48u8]);
            }
        },
        EntryMode::Executable => {
            assert forall|i: int| 0 <= i < t.len() implies #[trigger] t[i] != 0 && t[i] != 32 by {
                assert(t =~= seq![49u8, 48u8, 48u8, 55u8, 53u8, 53u8]);
            }
        },
        EntryMode::Regular => {
            assert forall|i: int| 0 <= i < t.len() implies #[trigger] t[i] != 0 && t[i] != 32 by {
                assert(t =~= seq![49u8, 48u8, 48u8, 54u8, 52u8, 52u8]);
            }
        },
    }
}

proof fn lemma_mode_token_recognised(m: EntryMode)
    ensures
        spec_mode_of_token(mode_token(m)) == Some(m),
{
    let t = mode_token(m);
    match m {
        EntryMode::Directory => {
        },
        EntryMode::Symlink => {
            assert(t.len() == 6 && mode_token(EntryMode::Directory).len() == 5);
        },
        EntryMode::Executable => {
            assert(mode_token(EntryMode::Directory).len() == 5);
            assert(t[1] == 48 && mode_token(EntryMode::Symlink)[1] == 50);
            assert(t != mode_token(EntryMode::Symlink));
        },
        EntryMode::Regular => {
            assert(mode_token(EntryMode::Directory).len() == 5);
            assert(t[1] == 48 && mode_token(EntryMode::Symlink)[1] == 50);
            assert(t != mode_token(EntryMode::Symlink));
            assert(t[3] == 54 && mode_token(EntryMode::Executable)[3] == 55);
            assert(t != mode_token(EntryMode::Executable));
        },
    }
}

/// The write side of the tree body codec only produces what the read side
/// accepts: a serialization of well-formed entries always parses.
pub proof fn lemma_tree_body_parses(s: Seq<TreeEntry>)
    requires
        wf_entries(s),
    ensures
        tree_body_wf(tree_body_spec(s)),
    decreases s.len(),
{
    if s.len() > 0 {
        let e = s[0];
        assert(wf_entry(e));
        let b = tree_body_spec(s);
        let mt = mode_token(e.mode);
        let rest_body = tree_body_spec(s.drop_first());
        lemma_mode_token_bytes(e.mode);
        lemma_mode_token_recognised(e.mode);
        let ml = mt.len() as int;
        let nl = e.name@.len() as int;
        assert(b =~= mt + seq![32u8] + e.name@ + seq![0u8] + e.digest@ + rest_body);
        assert(b.len() == ml + 1 + nl + 1 + 20 + rest_body.len());
        assert forall|k: int| 0 <= k < ml implies b[k] != 32 by {
            assert(b[k] == mt[k]);
        }
        assert(b[ml] == 32);
        lemma_find_byte_pins(b, 32, ml);
        assert(b.take(ml) =~= mt);
        let rest = b.skip(ml + 1);
        assert(rest =~= e.name@ + seq![0u8] + e.digest@ + rest_body);
        assert forall|k: int| 0 <= k < nl implies rest[k] != 0 by {
            assert(rest[k] == e.name@[k]);
            assert(e.name@[k] != 47);
            assert(e.name@[k] != 0);
        }
        assert(rest[nl] == 0);
        lemma_find_byte_pins(rest, 0, nl);
        assert(rest.len() - nl - 1 >= 20);
        assert(rest.skip(nl + 21) =~= rest_body);
        assert forall|i: int| 0 <= i < s.drop_first().len() implies #[trigger] wf_entry(
            s.drop_first()[i],
        ) by {
            assert(s.drop_first()[i] == s[i + 1]);
            assert(wf_entry(s[i + 1]));
        }
        lemma_tree_body_parses(s.drop_first());
        assert(tree_body_wf(rest.skip(nl + 21)));
    }
}

/// A name free of path separators.
pub open spec fn slash_free(n: Seq<u8>) -> bool {
    forall|i: int| 0 <= i < n.len() ==> #[trigger] n[i] != 47
}

/// The ordering key an entry conceptually sorts under: its name, with a
/// trailing '/' appended for a directory.
pub open spec fn key_of(n: Seq<u8>, dir: bool) -> Seq<u8> {
    if dir {
        n + seq![47u8]
    } else {
        n
    }
}

/// Three-way lexicographic comparison, the shorter sequence first.
pub open spec fn lex3(a: Seq<u8>, b: Seq<u8>) -> int
    decreases a.len() + b.len(),
{
    if a.len() == 0 && b.len() == 0 {
        0
    } else if a.len() == 0 {
        -1
    } else if b.len() == 0 {
        1
    } else if a[0] < b[0] {
        -1
    } else if a[0] > b[0] {
        1
    } else {
        lex3(a.drop_first(), b.drop_first())
    }
}

proof fn lemma_lex3_trans(a: Seq<u8>, b: Seq<u8>, c: Seq<u8>)
    requires
        lex3(a, b) <= 0,
        lex3(b, c) <= 0,
    ensures
        lex3(a, c) <= 0,
    decreases a.len() + b.len() + c.len(),
{
    if a.len() == 0 {
    } else {
        assert(b.len() > 0);
        assert(c.len() > 0);
        if a[0] == b[0] && b[0] == c[0] {
            lemma_lex3_trans(a.drop_first(), b.drop_first(), c.drop_first());
        }
    }
}

proof fn lemma_lex3_zero(a: Seq<u8>, b: Seq<u8>)
    requires
        lex3(a, b) == 0,
    ensures
        a == b,
    decreases a.len() + b.len(),
{
    if a.len() == 0 && b.len() == 0 {
        assert(a =~= b);
    } else {
        assert(a.len() > 0 && b.len() > 0);
        assert(a[0] == b[0]);
        lemma_lex3_zero(a.drop_first(), b.drop_first());
        assert(a =~= b) by {
            assert(forall|k: int|
                1 <= k < a.len() ==> a[k] == a.drop_first()[k - 1] && b[k] == b.drop_first()[k
                    - 1]);
        }
    }
}

/// On slash-free names the canonical comparator is exactly the
/// lexicographic order of the entries' keys — except for a directory and a
/// non-directory of one same name, which cannot both be children of one
/// directory.
proof fn lemma_cmp_is_key_lex(a: Seq<u8>, ad: bool, b: Seq<u8>, bd: bool)
    requires
        slash_free(a),
        slash_free(b),
        !(a == b && ad != bd),
    ensures
        entry_cmp(a, ad, b, bd) == lex3(key_of(a, ad), key_of(b, bd)),
    decreases a.len() + b.len(),
{
    let ka = key_of(a, ad);
    let kb = key_of(b, bd);
    if a.len() == 0 && b.len() == 0 {
        assert(a =~= b);
        assert(ad == bd);
        if ad {
            assert(ka =~= seq![47u8]);
            assert(kb =~= seq![47u8]);
            assert(ka.drop_first() =~= Seq::<u8>::empty());
            assert(kb.drop_first() =~= Seq::<u8>::empty());
            assert(lex3(Seq::<u8>::empty(), Seq::<u8>::empty()) == 0);
        }
    } else if a.len() == 0 {
        assert(kb.len() > 0 && kb[0] == b[0]);
        if ad {
            assert(ka =~= seq![47u8]);
            assert(ka[0] == 47);
            assert(b[0] != 47);
        } else {
            assert(ka.len() == 0);
        }
    } else if b.len() == 0 {
        assert(ka.len() > 0 && ka[0] == a[0]);
        if bd {
            assert(kb =~= seq![47u8]);
            assert(kb[0] == 47);
            assert(a[0] != 47);
        } else {
            assert(kb.len() == 0);
        }
    } else {
        assert(ka[0] == a[0] && kb[0] == b[0]);
        if a[0] == b[0] {
            assert(!(a.drop_first() == b.drop_first() && ad != bd)) by {
                if a.drop_first() == b.drop_first() && ad != bd {
                    assert(a.len() == b.len());
                    assert forall|k: int| 0 <= k < a.len() implies a[k] == b[k] by {
                        if k > 0 {
                            assert(a[k] == a.drop_first()[k - 1]);
                            assert(b[k] == b.drop_first()[k - 1]);
                        }
                    }
                    assert(a =~= b);
                }
            }
            assert forall|k: int| 0 <= k < a.drop_first().len() implies #[trigger] a.drop_first()[k]
                != 47 by {
                assert(a.drop_first()[k] == a[k + 1]);
            }
            assert forall|k: int| 0 <= k < b.drop_first().len() implies #[trigger] b.drop_first()[k]
                != 47 by {
                assert(b.drop_first()[k] == b[k + 1]);
            }
            lemma_cmp_is_key_lex(a.drop_first(), ad, b.drop_first(), bd);
            assert(ka.drop_first() =~= key_of(a.drop_first(), ad));
            assert(kb.drop_first() =~= key_of(b.drop_first(), bd));
        }
    }
}

/// Equal keys of slash-free names can only come from equal names.
proof fn lemma_key_injective(a: Seq<u8>, ad: bool, b: Seq<u8>, bd: bool)
    requires
        slash_free(a),
        slash_free(b),
        key_of(a, ad) == key_of(b, bd),
    ensures
        a == b,
{
    let ka = key_of(a, ad);
    if ad == bd {
        if ad {
            let kb = key_of(b, bd);
            assert(ka.len() == a.len() + 1 && kb.len() == b.len() + 1);
            assert(a.len() == b.len());
            assert forall|k: int| 0 <= k < a.len() implies a[k] == b[k] by {
                assert(a[k] == ka[k]);
                assert(b[k] == kb[k]);
            }
            assert(a =~= b);
        }
    } else if ad {
        // a ++ '/' == b, so b would hold a '/'
        assert(ka[a.len() as int] == 47);
        assert(b[a.len() as int] == 47);
        assert(false);
    } else {
        assert(key_of(b, bd)[b.len() as int] == 47);
        assert(a[b.len() as int] == 47);
        assert(false);
    }
}

/// Entries with distinct slash-free names never compare equal: the
/// canonical order is strict on a well-formed directory's children.
pub proof fn lemma_te_strict(x: TreeEntry, y: TreeEntry)
    requires
        slash_free(x.name@),
        slash_free(y.name@),
        x.name@ != y.name@,
    ensures
        te_cmp(x, y) != 0,
{
    lemma_cmp_is_key_lex(x.name@, is_dir(x.mode), y.name@, is_dir(y.mode));
    if te_cmp(x, y) == 0 {
        lemma_lex3_zero(key_of(x.name@, is_dir(x.mode)), key_of(y.name@, is_dir(y.mode)));
        lemma_key_injective(x.name@, is_dir(x.mode), y.name@, is_dir(y.mode));
    }
}

/// The canonical order is transitive across entries with pairwise distinct
/// slash-free names.
pub proof fn lemma_te_trans(x: TreeEntry, y: TreeEntry, z: TreeEntry)
    requires
        slash_free(x.name@),
        slash_free(y.name@),
        slash_free(z.name@),
        x.name@ != y.name@,
        y.name@ != z.name@,
        x.name@ != z.name@,
        te_le(x, y),
        te_le(y, z),
    ensures
        te_le(x, z),
{
    lemma_cmp_is_key_lex(x.name@, is_dir(x.mode), y.name@, is_dir(y.mode));
    lemma_cmp_is_key_lex(y.name@, is_dir(y.mode), z.name@, is_dir(z.mode));
    lemma_cmp_is_key_lex(x.name@, is_dir(x.mode), z.name@, is_dir(z.mode));
    lemma_lex3_trans(
        key_of(x.name@, is_dir(x.mode)),
        key_of(y.name@, is_dir(y.mode)),
        key_of(z.name@, is_dir(z.mode)),
    );
}

proof fn lemma_le_chain(s: Seq<TreeEntry>, i: int, j: int)
    requires
        adjacent_sorted(s),
        wf_entries(s),
        distinct_names(s),
        0 <= i < j < s.len(),
    ensures
        te_le(s[i], s[j]),
    decreases j - i,
{
    assert(wf_entry(s[i]) && wf_entry(s[j]));
    if j == i + 1 {
        assert(te_le(s[i], s[i + 1]));
    } else {
        lemma_le_chain(s, i, j - 1);
        assert(te_le(s[j - 1], s[(j - 1) + 1]));
        assert(wf_entry(s[j - 1]));
        lemma_te_trans(s[i], s[j - 1], s[j]);
    }
}

/// On a well-formed children list, adjacent sortedness is full sortedness.
pub proof fn lemma_adjacent_pairwise(s: Seq<TreeEntry>)
    requires
        adjacent_sorted(s),
        wf_entries(s),
        distinct_names(s),
    ensures
        pairwise_sorted(s),
{
    assert forall|i: int, j: int| 0 <= i < j < s.len() implies te_le(s[i], s[j]) by {
        lemma_le_chain(s, i, j);
    }
}

/// Well-formedness and name distinctness carry across a rearrangement.
pub proof fn lemma_names_transfer(x: Seq<TreeEntry>, y: Seq<TreeEntry>)
    requires
        x.to_multiset() == y.to_multiset(),
        wf_entries(x),
        distinct_names(x),
    ensures
        wf_entries(y),
        distinct_names(y),
{
    broadcast use vstd::seq_lib::group_to_multiset_ensures;

    assert forall|i: int| 0 <= i < y.len() implies #[trigger] wf_entry(y[i]) by {
        assert(y.contains(y[i]));
        assert(y.to_multiset().count(y[i]) > 0);
        assert(x.to_multiset().count(y[i]) > 0);
        assert(x.contains(y[i]));
        let p = choose|p: int| 0 <= p < x.len() && x[p] == y[i];
        assert(wf_entry(x[p]));
    }
    assert(x.no_duplicates()) by {
        assert forall|i: int, j: int|
            0 <= i < x.len() && 0 <= j < x.len() && i != j implies x[i] != x[j] by {
            if i < j {
                assert(x[i].name@ != x[j].name@);
            } else {
                assert(x[j].name@ != x[i].name@);
            }
        }
    }
    x.lemma_multiset_has_no_duplicates();
    y.lemma_multiset_has_no_duplicates_conv();
    assert forall|i: int, j: int| 0 <= i < j < y.len() implies y[i].name@ != y[j].name@ by {
        if y[i].name@ == y[j].name@ {
            assert(y[i] != y[j]);
            assert(y.contains(y[i]) && y.contains(y[j]));
            assert(y.to_multiset().count(y[i]) > 0 && y.to_multiset().count(y[j]) > 0);
            assert(x.to_multiset().count(y[i]) > 0 && x.to_multiset().count(y[j]) > 0);
            assert(x.contains(y[i]) && x.contains(y[j]));
            let p = choose|p: int| 0 <= p < x.len() && x[p] == y[i];
            let q = choose|q: int| 0 <= q < x.len() && x[q] == y[j];
            assert(p != q);
            if p < q {
                assert(x[p].name@ != x[q].name@);
            } else {
                assert(x[q].name@ != x[p].name@);
            }
            assert(false);
        }
    }
}

/// Two sorted arrangements of one well-formed children multiset are the
/// same sequence.
pub proof fn lemma_sorted_unique_entries(x: Seq<TreeEntry>, y: Seq<TreeEntry>)
    requires
        x.to_multiset() == y.to_multiset(),
        pairwise_sorted(x),
        pairwise_sorted(y),
        wf_entries(x),
        distinct_names(x),
    ensures
        x =~= y,
    decreases x.len(),
{
    broadcast use vstd::seq_lib::group_to_multiset_ensures;

    if x.len() == 0 {
        assert(y.to_multiset().len() == 0);
    } else {
        assert(x.to_multiset().len() > 0);
        assert(y.len() > 0);
        assert(x[0] == y[0]) by {
            if x[0] != y[0] {
                assert(y.contains(y[0]));
                assert(y.to_multiset().count(y[0]) > 0);
                assert(x.to_multiset().count(y[0]) > 0);
                assert(x.contains(y[0]));
                let i = choose|i: int| 0 <= i < x.len() && x[i] == y[0];
                assert(x.contains(x[0]));
                assert(x.to_multiset().count(x[0]) > 0);
                assert(y.to_multiset().count(x[0]) > 0);
                assert(y.contains(x[0]));
                let j = choose|j: int| 0 <= j < y.len() && y[j] == x[0];
                assert(i != 0);
                assert(j != 0);
                assert(te_le(x[0], x[i]));
                assert(te_le(y[0], y[j]));
                assert(te_cmp(x[i], x[0]) <= 0);
                lemma_cmp_sign(
                    x[0].name@,
                    is_dir(x[0].mode),
                    x[i].name@,
                    is_dir(x[i].mode),
                );
                assert(te_cmp(x[0], x[i]) == 0);
                assert(wf_entry(x[0]) && wf_entry(x[i]));
                assert(x[0].name@ != x[i].name@);
                lemma_te_strict(x[0], x[i]);
                assert(false);
            }
        }
        let xt = x.drop_first();
        let yt = y.drop_first();
        assert(xt =~= x.remove(0));
        assert(yt =~= y.remove(0));
        assert(xt.to_multiset() == x.to_multiset().remove(x[0])) by {
            assert(x.remove(0).to_multiset() == x.to_multiset().remove(x[0]));
        }
        assert(yt.to_multiset() == y.to_multiset().remove(y[0])) by {
            assert(y.remove(0).to_multiset() == y.to_multiset().remove(y[0]));
        }
        assert forall|i: int, j: int| 0 <= i < j < xt.len() implies te_le(xt[i], xt[j]) by {
            assert(xt[i] == x[i + 1] && xt[j] == x[j + 1]);
            assert(te_le(x[i + 1], x[j + 1]));
        }
        assert forall|i: int, j: int| 0 <= i < j < yt.len() implies te_le(yt[i], yt[j]) by {
            assert(yt[i] == y[i + 1] && yt[j] == y[j + 1]);
            assert(te_le(y[i + 1], y[j + 1]));
        }
        assert forall|i: int| 0 <= i < xt.len() implies #[trigger] wf_entry(xt[i]) by {
            assert(xt[i] == x[i + 1]);
            assert(wf_entry(x[i + 1]));
        }
        assert forall|i: int, j: int| 0 <= i < j < xt.len() implies xt[i].name@ != xt[j].name@ by {
            assert(xt[i] == x[i + 1] && xt[j] == x[j + 1]);
        }
        lemma_sorted_unique_entries(xt, yt);
        assert(x.len() == y.len());
        assert forall|k: int| 0 <= k < x.len() implies x[k] == y[k] by {
            if k > 0 {
                assert(x[k] == xt[k - 1] && y[k] == yt[k - 1]);
            }
        }
    }
}

/// Canonical-ordering determinism: a well-formed set of children has exactly
/// one canonically sorted arrangement, so the serialized tree body — and
/// with it the tree's digest — does not depend on the order the children
/// were presented in.
pub proof fn lemma_canonical_tree_bytes(t1: Seq<TreeEntry>, t2: Seq<TreeEntry>)
    requires
        t1.to_multiset() == t2.to_multiset(),
        adjacent_sorted(t1),
        adjacent_sorted(t2),
        wf_entries(t1),
        distinct_names(t1),
    ensures
        t1 =~= t2,
        tree_body_spec(t1) == tree_body_spec(t2),
{
    lemma_names_transfer(t1, t2);
    lemma_adjacent_pairwise(t1);
    lemma_adjacent_pairwise(t2);
    lemma_sorted_unique_entries(t1, t2);
}

} // verus!
