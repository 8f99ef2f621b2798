//! Tagged SHA-256 hashing of canonical byte sequences.
use sha2::Digest;
use vstd::prelude::*;
use vstd::string::StringSliceAdditionalSpecFns;

use crate::types::bytes::{be_bytes, bytes_to_vec, extend_bytes, u64_be};

verus! {

/// A 32-byte digest.
#[derive(Clone, Copy, Debug, PartialEq, Eq, PartialOrd, Ord, Hash)]
pub struct Hash(pub [u8; 32]);

/// The SHA-256 digest of a byte sequence.
pub uninterp spec fn sha256(data: Seq<u8>) -> Seq<u8>;

/// Calls `sha2::Sha256::digest` on `data` and copies the 32-byte digest out.
/// Trusted: the bytes returned are the SHA-256 digest of `data`, whatever it is.
#[verifier::external_body]
fn sha256_digest(data: &[u8]) -> (out: [u8; 32])
    ensures
        out@ == sha256(data@),
{
    let digest = sha2::Sha256::digest(data);
    let mut out = [0u8; 32];
    out.copy_from_slice(&digest);
    out
}

/// The SHA-256 of `bytes`, as a `Hash`.
pub fn hash_bytes(bytes: &[u8]) -> (h: Hash)
    ensures
        h.0@ == sha256(bytes@),
{
    Hash(sha256_digest(bytes))
}

/// What `hash_tagged` hashes: both parts length-prefixed with eight big-endian bytes.
pub open spec fn tagged_message(tag: Seq<u8>, bytes: Seq<u8>) -> Seq<u8> {
    be_bytes(tag.len(), 8) + tag + be_bytes(bytes.len(), 8) + bytes
}

pub open spec fn spec_hash_tagged(tag: Seq<u8>, bytes: Seq<u8>) -> Seq<u8> {
    sha256(tagged_message(tag, bytes))
}

/// SHA-256 of the tag and the payload, each prefixed with its length.
pub fn hash_tagged(tag: &str, bytes: &[u8]) -> (h: Hash)
    ensures
        h.0@ == spec_hash_tagged(tag.spec_bytes(), bytes@),
{
    let tag_bytes = tag.as_bytes();
    let mut message = u64_be(tag_bytes.len() as u64);
    extend_bytes(&mut message, tag_bytes);
    let len_bytes = u64_be(bytes.len() as u64);
    extend_bytes(&mut message, len_bytes.as_slice());
    extend_bytes(&mut message, bytes);
    Hash(sha256_digest(message.as_slice()))
}

/// The framing of a chunk list: each chunk prefixed with its eight-byte length.
pub open spec fn frame_chunks(chunks: Seq<Seq<u8>>) -> Seq<u8>
    decreases chunks.len(),
{
    if chunks.len() == 0 {
        Seq::empty()
    } else {
        frame_chunks(chunks.drop_last()) + be_bytes(chunks.last().len(), 8) + chunks.last()
    }
}

pub open spec fn chunk_views(chunks: Seq<Vec<u8>>) -> Seq<Seq<u8>> {
    chunks.map_values(|c: Vec<u8>| c@)
}

pub open spec fn sequence_payload(chunks: Seq<Seq<u8>>) -> Seq<u8> {
    be_bytes(chunks.len(), 8) + frame_chunks(chunks)
}

/// The digest of a chunk list under a tag.
pub open spec fn spec_hash_sequence(tag: Seq<u8>, chunks: Seq<Seq<u8>>) -> Seq<u8> {
    spec_hash_tagged(tag, sequence_payload(chunks))
}

/// Hashes a list of byte chunks under a tag: the chunk count, then each
/// chunk with its length, all eight-byte big-endian prefixes.
pub fn hash_sequence(tag: &str, chunks: &[Vec<u8>]) -> (h: Hash)
    ensures
        h.0@ == spec_hash_sequence(tag.spec_bytes(), chunk_views(chunks@)),
{
    let n = chunks.len();
    let mut bytes = u64_be(n as u64);
    let ghost views = chunk_views(chunks@);
    for i in 0..n
        invariant
            n == chunks@.len(),
            views == chunk_views(chunks@),
            bytes@ == be_bytes(n as nat, 8) + frame_chunks(views.subrange(0, i as int)),
    {
        let chunk = &chunks[i];
        let len_bytes = u64_be(chunk.len() as u64);
        extend_bytes(&mut bytes, len_bytes.as_slice());
        extend_bytes(&mut bytes, chunk.as_slice());
        proof {
            let sub = views.subrange(0, i + 1);
            assert(sub.drop_last() == views.subrange(0, i as int));
            assert(sub.last() == chunk@);
        }
    }
    assert(views.subrange(0, n as int) == views);
    hash_tagged(tag, bytes.as_slice())
}

/// The 32 digest bytes as a vector.
pub fn hash_to_vec(h: &Hash) -> (out: Vec<u8>)
    ensures
        out@ == h.0@,
{
    bytes_to_vec(h.0.as_slice())
}

/// Byte-wise equality of two digests.
pub fn hash_eq(a: &Hash, b: &Hash) -> (r: bool)
    ensures
        r == (a.0@ == b.0@),
{
    let mut i: usize = 0;
    while i < 32
        invariant
            0 <= i <= 32,
            a.0@.len() == 32,
            b.0@.len() == 32,
            forall|j: int| 0 <= j < i ==> a.0@[j] == b.0@[j],
        decreases 32 - i,
    {
        if a.0[i] != b.0[i] {
            return false;
        }
        i += 1;
    }
    assert(a.0@ =~= b.0@);
    true
}

/// Lexicographic order of byte strings: -1, 0 or 1.
pub open spec fn lex_order(a: Seq<u8>, b: Seq<u8>) -> int
    decreases a.len(),
{
    if a.len() == 0 {
        if b.len() == 0 {
            0
        } else {
            -1
        }
    } else if b.len() == 0 {
        1
    } else if a[0] < b[0] {
        -1
    } else if a[0] > b[0] {
        1
    } else {
        lex_order(a.drop_first(), b.drop_first())
    }
}

/// Compares two digests byte by byte (the order of the derived `Ord` on `Hash`).
pub fn hash_order(a: &Hash, b: &Hash) -> (r: i8)
    ensures
        r == lex_order(a.0@, b.0@),
{
    let mut i: usize = 0;
    assert(a.0@.skip(0) == a.0@);
    assert(b.0@.skip(0) == b.0@);
    while i < 32
        invariant
            0 <= i <= 32,
            a.0@.len() == 32,
            b.0@.len() == 32,
            lex_order(a.0@, b.0@) == lex_order(a.0@.skip(i as int), b.0@.skip(i as int)),
        decreases 32 - i,
    {
        let x = a.0[i];
        let y = b.0[i];
        proof {
            assert(a.0@.skip(i as int)[0] == x);
            assert(b.0@.skip(i as int)[0] == y);
            assert(a.0@.skip(i as int).drop_first() == a.0@.skip(i + 1));
            assert(b.0@.skip(i as int).drop_first() == b.0@.skip(i + 1));
        }
        if x < y {
            return -1;
        }
        if x > y {
            return 1;
        }
        i += 1;
    }
    assert(a.0@.skip(32).len() == 0);
    assert(b.0@.skip(32).len() == 0);
    0
}

pub proof fn lemma_lex_refl(a: Seq<u8>)
    ensures
        lex_order(a, a) == 0,
    decreases a.len(),
{
    if a.len() > 0 {
        lemma_lex_refl(a.drop_first());
    }
}

pub proof fn lemma_lex_zero(a: Seq<u8>, b: Seq<u8>)
    requires
        lex_order(a, b) == 0,
    ensures
        a == b,
    decreases a.len(),
{
    if a.len() == 0 {
        assert(b.len() == 0);
        assert(a =~= b);
    } else {
        assert(b.len() > 0);
        assert(a[0] == b[0]);
        assert(lex_order(a.drop_first(), b.drop_first()) == 0);
        lemma_lex_zero(a.drop_first(), b.drop_first());
        assert(a.drop_first().len() == b.drop_first().len());
        assert(a.len() == b.len());
        assert(a =~= b) by {
            assert forall|i: int| 0 <= i < a.len() implies a[i] == b[i] by {
                if i > 0 {
                    assert(a[i] == a.drop_first()[i - 1]);
                    assert(b[i] == b.drop_first()[i - 1]);
                }
            }
        }
    }
}

pub proof fn lemma_lex_antisym(a: Seq<u8>, b: Seq<u8>)
    ensures
        lex_order(a, b) == -lex_order(b, a),
    decreases a.len(),
{
    if a.len() > 0 && b.len() > 0 {
        lemma_lex_antisym(a.drop_first(), b.drop_first());
    }
}

pub proof fn lemma_lex_trans(a: Seq<u8>, b: Seq<u8>, c: Seq<u8>)
    requires
        lex_order(a, b) < 0,
        lex_order(b, c) < 0,
    ensures
        lex_order(a, c) < 0,
    decreases a.len(),
{
    if a.len() > 0 && b.len() > 0 && c.len() > 0 && a[0] == b[0] && b[0] == c[0] {
        lemma_lex_trans(a.drop_first(), b.drop_first(), c.drop_first());
    }
}

/// The digests' byte strings.
pub open spec fn hash_views(s: Seq<Hash>) -> Seq<Seq<u8>> {
    s.map_values(|h: Hash| h.0@)
}

/// Strictly increasing in the byte-wise order (so without repetition).
pub open spec fn strictly_sorted(s: Seq<Seq<u8>>) -> bool {
    forall|i: int, j: int| 0 <= i < j < s.len() ==> lex_order(#[trigger] s[i], #[trigger] s[j]) < 0
}

/// Two strictly sorted lists with the same elements are the same list.
pub proof fn lemma_sorted_unique(a: Seq<Seq<u8>>, b: Seq<Seq<u8>>)
    requires
        strictly_sorted(a),
        strictly_sorted(b),
        forall|x: Seq<u8>| a.contains(x) <==> b.contains(x),
    ensures
        a == b,
    decreases a.len(),
{
    if a.len() == 0 {
        if b.len() > 0 {
            assert(b.contains(b[0]));
        }
        assert(a =~= b);
    } else {
        assert(a.contains(a[0]));
        assert(b.len() > 0);
        assert(b.contains(b[0]));
        let ia = choose|i: int| 0 <= i < a.len() && a[i] == b[0];
        let ib = choose|i: int| 0 <= i < b.len() && b[i] == a[0];
        if ib > 0 {
            assert(lex_order(b[0], b[ib]) < 0);
        }
        if ia > 0 {
            assert(lex_order(a[0], a[ia]) < 0);
            if ib > 0 {
                lemma_lex_trans(a[0], b[0], a[0]);
                lemma_lex_refl(a[0]);
            }
        }
        if ib == 0 {
        } else if ia == 0 {
        } else {
            lemma_lex_antisym(a[0], b[0]);
        }
        assert(a[0] == b[0]) by {
            if ib != 0 && ia != 0 {
                lemma_lex_antisym(a[0], a[ia]);
            } else if ib == 0 {
            } else {
            }
        }
        let a1 = a.drop_first();
        let b1 = b.drop_first();
        assert(strictly_sorted(a1)) by {
            assert forall|i: int, j: int| 0 <= i < j < a1.len() implies lex_order(#[trigger] a1[i], #[trigger] a1[j]) < 0 by {
                assert(a1[i] == a[i + 1] && a1[j] == a[j + 1]);
            }
        }
        assert(strictly_sorted(b1)) by {
            assert forall|i: int, j: int| 0 <= i < j < b1.len() implies lex_order(#[trigger] b1[i], #[trigger] b1[j]) < 0 by {
                assert(b1[i] == b[i + 1] && b1[j] == b[j + 1]);
            }
        }
        assert forall|x: Seq<u8>| a1.contains(x) <==> b1.contains(x) by {
            if a1.contains(x) {
                let i = choose|i: int| 0 <= i < a1.len() && a1[i] == x;
                assert(a[i + 1] == x);
                assert(lex_order(a[0], a[i + 1]) < 0);
                lemma_lex_refl(x);
                assert(x != a[0]);
                assert(b.contains(x));
                let k = choose|k: int| 0 <= k < b.len() && b[k] == x;
                assert(k != 0);
                assert(b1[k - 1] == x);
            }
            if b1.contains(x) {
                let i = choose|i: int| 0 <= i < b1.len() && b1[i] == x;
                assert(b[i + 1] == x);
                assert(lex_order(b[0], b[i + 1]) < 0);
                lemma_lex_refl(x);
                assert(x != b[0]);
                assert(a.contains(x));
                let k = choose|k: int| 0 <= k < a.len() && a[k] == x;
                assert(k != 0);
                assert(a1[k - 1] == x);
            }
        }
        lemma_sorted_unique(a1, b1);
        assert(a =~= b) by {
            assert forall|i: int| 0 <= i < a.len() implies a[i] == b[i] by {
                if i > 0 {
                    assert(a[i] == a1[i - 1]);
                    assert(b[i] == b1[i - 1]);
                }
            }
        }
    }
}

proof fn lemma_sorted_insert(v: Seq<Seq<u8>>, i: int, x: Seq<u8>)
    requires
        strictly_sorted(v),
        0 <= i <= v.len(),
        forall|j: int| 0 <= j < i ==> lex_order(v[j], x) < 0,
        i < v.len() ==> lex_order(x, v[i]) < 0,
    ensures
        strictly_sorted(v.insert(i, x)),
        forall|y: Seq<u8>| #[trigger] v.insert(i, x).contains(y) <==> v.contains(y) || y == x,
{
    let w = v.insert(i, x);
    assert forall|a: int, b: int| 0 <= a < b < w.len() implies lex_order(#[trigger] w[a], #[trigger] w[b]) < 0 by {
        if b < i {
            assert(lex_order(v[a], v[b]) < 0);
        } else if b == i {
            assert(w[b] == x);
            assert(w[a] == v[a]);
        } else if a == i {
            assert(w[b] == v[b - 1]);
            if b - 1 > i {
                assert(lex_order(v[i], v[b - 1]) < 0);
                lemma_lex_trans(x, v[i], v[b - 1]);
            }
        } else if a < i {
            assert(w[b] == v[b - 1]);
            assert(lex_order(v[a], v[b - 1]) < 0);
        } else {
            assert(w[a] == v[a - 1]);
            assert(w[b] == v[b - 1]);
            assert(lex_order(v[a - 1], v[b - 1]) < 0);
        }
    }
    assert forall|y: Seq<u8>| #[trigger] w.contains(y) <==> v.contains(y) || y == x by {
        if w.contains(y) {
            let k = choose|k: int| 0 <= k < w.len() && w[k] == y;
            if k < i {
                assert(v[k] == y);
            } else if k > i {
                assert(v[k - 1] == y);
            }
        }
        if v.contains(y) {
            let k = choose|k: int| 0 <= k < v.len() && v[k] == y;
            if k < i {
                assert(w[k] == y);
            } else {
                assert(w[k + 1] == y);
            }
        }
        if y == x {
            assert(w[i] == y);
        }
    }
}

/// Adds a digest to a strictly sorted list unless an equal one is already there.
pub fn insert_hash_sorted(s: &mut Vec<Hash>, h: Hash)
    requires
        strictly_sorted(hash_views(old(s)@)),
    ensures
        strictly_sorted(hash_views(final(s)@)),
        forall|y: Seq<u8>| #[trigger] hash_views(final(s)@).contains(y) <==> hash_views(old(s)@).contains(y) || y == h.0@,
{
    let ghost v = hash_views(s@);
    let mut i: usize = 0;
    while i < s.len() && hash_order(&s[i], &h) < 0
        invariant
            i <= s@.len(),
            v == hash_views(s@),
            strictly_sorted(v),
            forall|j: int| 0 <= j < i ==> lex_order(v[j], h.0@) < 0,
        decreases s@.len() - i,
    {
        i += 1;
    }
    if i < s.len() {
        let c = hash_order(&s[i], &h);
        if c == 0 {
            proof {
                assert(v[i as int] == s@[i as int].0@);
                lemma_lex_zero(v[i as int], h.0@);
                assert forall|y: Seq<u8>| #[trigger] v.contains(y) <==> v.contains(y) || y == h.0@ by {
                    if y == h.0@ {
                        assert(v[i as int] == y);
                    }
                }
            }
            return;
        }
        proof {
            assert(v[i as int] == s@[i as int].0@);
            lemma_lex_antisym(v[i as int], h.0@);
        }
    }
    proof {
        lemma_sorted_insert(v, i as int, h.0@);
    }
    s.insert(i, h);
    assert(hash_views(s@) =~= v.insert(i as int, h.0@));
}

/// The distinct digests of a list, in increasing byte order.
pub fn sort_dedup_hashes(hs: &[Hash]) -> (out: Vec<Hash>)
    ensures
        strictly_sorted(hash_views(out@)),
        forall|y: Seq<u8>| #[trigger] hash_views(out@).contains(y) <==> hash_views(hs@).contains(y),
{
    let mut out: Vec<Hash> = Vec::new();
    let n = hs.len();
    assert(hash_views(out@) =~= Seq::<Seq<u8>>::empty());
    for i in 0..n
        invariant
            n == hs@.len(),
            strictly_sorted(hash_views(out@)),
            forall|y: Seq<u8>| #[trigger] hash_views(out@).contains(y) <==> hash_views(hs@.take(i as int)).contains(y),
    {
        insert_hash_sorted(&mut out, hs[i]);
        proof {
            assert(hash_views(hs@.take(i + 1)) =~= hash_views(hs@.take(i as int)).push(hs@[i as int].0@));
            assert forall|y: Seq<u8>| #[trigger] hash_views(hs@.take(i + 1)).contains(y) <==> hash_views(hs@.take(i as int)).contains(y) || y == hs@[i as int].0@ by {
                crate::types::id_set::lemma_contains_push(hash_views(hs@.take(i as int)), hs@[i as int].0@, y);
            }
        }
    }
    assert(hs@.take(n as int) == hs@);
    out
}

/// Equality of two digest lists, digest by digest.
pub fn hash_list_eq(a: &[Hash], b: &[Hash]) -> (r: bool)
    ensures
        r == (hash_views(a@) == hash_views(b@)),
{
    if a.len() != b.len() {
        proof {
            assert(hash_views(a@).len() != hash_views(b@).len());
        }
        return false;
    }
    let n = a.len();
    for i in 0..n
        invariant
            n == a@.len(),
            n == b@.len(),
            forall|j: int| 0 <= j < i ==> a@[j].0@ == b@[j].0@,
    {
        if !hash_eq(&a[i], &b[i]) {
            proof {
                assert(hash_views(a@)[i as int] != hash_views(b@)[i as int]);
            }
            return false;
        }
    }
    assert(hash_views(a@) =~= hash_views(b@));
    true
}

} // verus!
