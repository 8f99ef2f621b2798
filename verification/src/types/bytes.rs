//! Fixed-width big-endian encodings used by every canonical byte form.
use vstd::prelude::*;

verus! {

/// The `n`-byte big-endian encoding of `x` (the low `n` bytes of `x`).
pub open spec fn be_bytes(x: nat, n: nat) -> Seq<u8>
    decreases n,
{
    if n == 0 {
        Seq::empty()
    } else {
        be_bytes(x / 256, (n - 1) as nat).push((x % 256) as u8)
    }
}

pub proof fn lemma_be_bytes_len(x: nat, n: nat)
    ensures
        be_bytes(x, n).len() == n,
    decreases n,
{
    if n > 0 {
        lemma_be_bytes_len(x / 256, (n - 1) as nat);
    }
}

/// Big-endian encoding of `x` on `n` bytes.
pub fn be_bytes_u128(x: u128, n: usize) -> (out: Vec<u8>)
    ensures
        out@ == be_bytes(x as nat, n as nat),
        out@.len() == n,
    decreases n,
{
    proof {
        lemma_be_bytes_len(x as nat, n as nat);
    }
    if n == 0 {
        Vec::new()
    } else {
        let mut v = be_bytes_u128(x / 256, n - 1);
        v.push((x % 256) as u8);
        v
    }
}

/// `u32::to_be_bytes`.
pub fn u32_be(x: u32) -> (out: Vec<u8>)
    ensures
        out@ == be_bytes(x as nat, 4),
{
    be_bytes_u128(x as u128, 4)
}

/// `u64::to_be_bytes`.
pub fn u64_be(x: u64) -> (out: Vec<u8>)
    ensures
        out@ == be_bytes(x as nat, 8),
{
    be_bytes_u128(x as u128, 8)
}

/// `usize::to_be_bytes` on a 64-bit target: eight big-endian bytes.
pub fn usize_be(x: usize) -> (out: Vec<u8>)
    ensures
        out@ == be_bytes(x as nat, 8),
{
    be_bytes_u128(x as u128, 8)
}

/// `u128::to_be_bytes`.
pub fn u128_be(x: u128) -> (out: Vec<u8>)
    ensures
        out@ == be_bytes(x as nat, 16),
{
    be_bytes_u128(x, 16)
}

/// Appends `b` to `a`, byte by byte.
pub fn extend_bytes(a: &mut Vec<u8>, b: &[u8])
    ensures
        final(a)@ == old(a)@ + b@,
{
    let n = b.len();
    for i in 0..n
        invariant
            n == b@.len(),
            a@ == old(a)@ + b@.subrange(0, i as int),
    {
        a.push(b[i]);
        assert(b@.subrange(0, i + 1) == b@.subrange(0, i as int).push(b@[i as int]));
    }
    assert(b@.subrange(0, n as int) == b@);
}

/// A copy of a byte slice as a vector.
pub fn bytes_to_vec(b: &[u8]) -> (out: Vec<u8>)
    ensures
        out@ == b@,
{
    let mut v: Vec<u8> = Vec::new();
    extend_bytes(&mut v, b);
    v
}

} // verus!
