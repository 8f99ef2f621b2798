//! Decimal rendering of counts for diagnostic texts.
use vstd::prelude::*;
use vstd::string::{StringExecFns, StringSliceAdditionalSpecFns};

use crate::types::hash;

verus! {

pub open spec fn digit_char(d: nat) -> char {
    if d == 0 {
        '0'
    } else if d == 1 {
        '1'
    } else if d == 2 {
        '2'
    } else if d == 3 {
        '3'
    } else if d == 4 {
        '4'
    } else if d == 5 {
        '5'
    } else if d == 6 {
        '6'
    } else if d == 7 {
        '7'
    } else if d == 8 {
        '8'
    } else {
        '9'
    }
}

/// The decimal digits of `n`, most significant first, as `{}` prints an unsigned integer.
pub open spec fn decimal(n: nat) -> Seq<char>
    decreases n,
{
    if n < 10 {
        seq![digit_char(n)]
    } else {
        decimal(n / 10).push(digit_char(n % 10))
    }
}

fn digit_str(d: u128) -> (s: &'static str)
    requires
        d < 10,
    ensures
        s@ == seq![digit_char(d as nat)],
{
    if d == 0 {
        proof {
            reveal_strlit("0");
        }
        "0"
    } else if d == 1 {
        proof {
            reveal_strlit("1");
        }
        "1"
    } else if d == 2 {
        proof {
            reveal_strlit("2");
        }
        "2"
    } else if d == 3 {
        proof {
            reveal_strlit("3");
        }
        "3"
    } else if d == 4 {
        proof {
            reveal_strlit("4");
        }
        "4"
    } else if d == 5 {
        proof {
            reveal_strlit("5");
        }
        "5"
    } else if d == 6 {
        proof {
            reveal_strlit("6");
        }
        "6"
    } else if d == 7 {
        proof {
            reveal_strlit("7");
        }
        "7"
    } else if d == 8 {
        proof {
            reveal_strlit("8");
        }
        "8"
    } else {
        proof {
            reveal_strlit("9");
        }
        "9"
    }
}

/// Appends the decimal digits of `n`.
pub fn push_decimal(s: &mut String, n: u128)
    ensures
        final(s)@ == old(s)@ + decimal(n as nat),
    decreases n,
{
    if n < 10 {
        s.append(digit_str(n));
    } else {
        push_decimal(s, n / 10);
        s.append(digit_str(n % 10));
    }
}

/// `n.to_string()` for an unsigned integer.
pub fn decimal_string(n: u128) -> (s: String)
    ensures
        s@ == decimal(n as nat),
{
    let mut s = String::new();
    push_decimal(&mut s, n);
    s
}

/// The UTF-8 bytes of a string slice, as a vector.
pub fn str_bytes(s: &str) -> (v: Vec<u8>)
    ensures
        v@ == vstd::utf8::encode_utf8(s@),
{
    crate::types::bytes::bytes_to_vec(s.as_bytes())
}

/// Bytes as `{:?}` prints a byte array's contents: decimal values separated by `, `.
pub open spec fn byte_list_debug(bs: Seq<u8>) -> Seq<char>
    decreases bs.len(),
{
    if bs.len() == 0 {
        Seq::empty()
    } else if bs.len() == 1 {
        decimal(bs[0] as nat)
    } else {
        byte_list_debug(bs.drop_last()) + ", "@ + decimal(bs.last() as nat)
    }
}

/// A digest as `{:?}` prints it: `Hash([b0, b1, ...])`.
pub open spec fn hash_debug(h: hash::Hash) -> Seq<char> {
    "Hash(["@ + byte_list_debug(h.0@) + "])"@
}

/// Appends the `{:?}` rendering of a digest.
pub fn push_hash_debug(s: &mut String, h: &hash::Hash)
    ensures
        final(s)@ == old(s)@ + hash_debug(*h),
{
    let ghost start = s@;
    s.append("Hash([");
    let n: usize = 32;
    for i in 0..n
        invariant
            n == h.0@.len(),
            s@ == start + "Hash(["@ + byte_list_debug(h.0@.take(i as int)),
    {
        let ghost before = s@;
        if i > 0 {
            s.append(", ");
        }
        push_decimal(s, h.0[i] as u128);
        proof {
            let t = h.0@.take(i + 1);
            assert(t.drop_last() == h.0@.take(i as int));
            assert(t.last() == h.0@[i as int]);
            if i == 0 {
                assert(t.len() == 1);
                assert(t[0] == h.0@[0]);
                assert(h.0@.take(0) =~= Seq::<u8>::empty());
                assert(byte_list_debug(h.0@.take(0)) =~= Seq::<char>::empty());
            }
            assert(s@ =~= start + "Hash(["@ + byte_list_debug(t));
        }
    }
    assert(h.0@.take(32) == h.0@);
    s.append("])");
}

} // verus!
