//! Arbitrary-precision integers: sign and base-2^32 magnitude, with the
//! arithmetic itself delegated to `num_bigint`.
use num_integer::Integer;
use vstd::prelude::*;

verus! {

/// The value of little-endian base-2^32 digits.
pub open spec fn digits_value(s: Seq<u32>) -> nat
    decreases s.len(),
{
    if s.len() == 0 {
        0
    } else {
        s[0] as nat + 4294967296 * digits_value(s.drop_first())
    }
}

/// No most-significant zero digit (zero is the empty digit list).
pub open spec fn digits_normal(s: Seq<u32>) -> bool {
    s.len() == 0 || s.last() != 0
}

/// The greatest common divisor of two naturals (Euclid's recursion; `gcd(a, 0) == a`).
pub open spec fn spec_gcd(a: nat, b: nat) -> nat
    decreases b,
{
    if b == 0 {
        a
    } else {
        spec_gcd(b, a % b)
    }
}

pub open spec fn abs(x: int) -> nat {
    if x < 0 {
        (-x) as nat
    } else {
        x as nat
    }
}

/// Division rounding toward zero, as Rust's `/` on integers.
pub open spec fn trunc_div(a: int, b: int) -> int {
    let q = (abs(a) / abs(b)) as int;
    if (a < 0) != (b < 0) {
        -q
    } else {
        q
    }
}

/// The number of bits of a natural number (0 for 0).
pub open spec fn bit_length(n: nat) -> nat
    decreases n,
{
    if n == 0 {
        0
    } else {
        1 + bit_length(n / 2)
    }
}

/// The bytes read as an unsigned big-endian number.
pub open spec fn unsigned_be(s: Seq<u8>) -> int
    decreases s.len(),
{
    if s.len() == 0 {
        0
    } else {
        unsigned_be(s.drop_last()) * 256 + s.last()
    }
}

/// `256` to the power `k`.
pub open spec fn byte_power(k: nat) -> int
    decreases k,
{
    if k == 0 {
        1
    } else {
        256 * byte_power((k - 1) as nat)
    }
}

/// The bytes read as a two's-complement big-endian number.
pub open spec fn signed_be_value(s: Seq<u8>) -> int {
    if s.len() > 0 && s[0] >= 128 {
        unsigned_be(s) - byte_power(s.len())
    } else {
        unsigned_be(s)
    }
}

/// `s` is the shortest two's-complement big-endian encoding of `value`: at least one byte,
/// and no leading byte that only repeats the sign of the next one.
pub open spec fn is_minimal_signed_be(s: Seq<u8>, value: int) -> bool {
    &&& s.len() >= 1
    &&& signed_be_value(s) == value
    &&& s.len() == 1 || !((s[0] == 0 && s[1] < 128) || (s[0] == 255 && s[1] >= 128))
}

/// The shortest two's-complement big-endian bytes of an integer (`[0]` for zero).
pub open spec fn signed_bytes_be(value: int) -> Seq<u8> {
    choose|s: Seq<u8>| is_minimal_signed_be(s, value)
}

/// Least common multiple as `num_integer` computes it: `a / gcd(a, b) * b`, and 0 when both are 0.
pub open spec fn spec_lcm(a: nat, b: nat) -> nat {
    if a == 0 && b == 0 {
        0
    } else {
        (a / spec_gcd(a, b)) * b
    }
}

/// An integer of any size: a sign and a normalized magnitude.
#[derive(Debug, PartialEq, Eq, Hash)]
pub struct BigInt {
    negative: bool,
    magnitude: Vec<u32>,
}

impl BigInt {
    #[verifier::type_invariant]
    spec fn well_formed(self) -> bool {
        digits_normal(self.magnitude@) && (self.negative ==> self.magnitude@.len() > 0)
    }

    /// The integer this value denotes.
    pub closed spec fn value(self) -> int {
        if self.negative {
            -digits_value(self.magnitude@)
        } else {
            digits_value(self.magnitude@) as int
        }
    }
}

impl View for BigInt {
    type V = int;

    open spec fn view(&self) -> int {
        self.value()
    }
}

proof fn lemma_digits_positive(s: Seq<u32>)
    requires
        s.len() > 0,
        s.last() != 0,
    ensures
        digits_value(s) > 0,
    decreases s.len(),
{
    if s.len() > 1 {
        let t = s.drop_first();
        assert(t.last() == s.last());
        lemma_digits_positive(t);
    }
}

/// Builds a `num_bigint::BigInt` from this value's sign and digits, and reads the
/// sign and digits of `num_bigint::BigInt::from(n)` back.
/// Trusted: `num_bigint` returns normalized digits (`to_u32_digits`) and `Sign::Minus` only for
/// negative values, and the value is `n`.
#[verifier::external_body]
pub fn from_i64(n: i64) -> (r: BigInt)
    ensures
        r@ == n as int,
{
    let (sign, magnitude) = num_bigint::BigInt::from(n).to_u32_digits();
    BigInt { negative: matches!(sign, num_bigint::Sign::Minus), magnitude }
}

/// `num_bigint::BigInt::from(n)` for a `usize`.
#[verifier::external_body]
pub fn from_usize(n: usize) -> (r: BigInt)
    ensures
        r@ == n as int,
{
    let (sign, magnitude) = num_bigint::BigInt::from(n).to_u32_digits();
    BigInt { negative: matches!(sign, num_bigint::Sign::Minus), magnitude }
}

/// `&a + &b` on `num_bigint::BigInt`: the exact sum.
#[verifier::external_body]
pub fn big_add(a: &BigInt, b: &BigInt) -> (r: BigInt)
    ensures
        r@ == a@ + b@,
{
    let x = num_bigint::BigInt::from_slice(if a.negative { num_bigint::Sign::Minus } else { num_bigint::Sign::Plus }, &a.magnitude);
    let y = num_bigint::BigInt::from_slice(if b.negative { num_bigint::Sign::Minus } else { num_bigint::Sign::Plus }, &b.magnitude);
    let (sign, magnitude) = (x + y).to_u32_digits();
    BigInt { negative: matches!(sign, num_bigint::Sign::Minus), magnitude }
}

/// `&a - &b` on `num_bigint::BigInt`: the exact difference.
#[verifier::external_body]
pub fn big_sub(a: &BigInt, b: &BigInt) -> (r: BigInt)
    ensures
        r@ == a@ - b@,
{
    let x = num_bigint::BigInt::from_slice(if a.negative { num_bigint::Sign::Minus } else { num_bigint::Sign::Plus }, &a.magnitude);
    let y = num_bigint::BigInt::from_slice(if b.negative { num_bigint::Sign::Minus } else { num_bigint::Sign::Plus }, &b.magnitude);
    let (sign, magnitude) = (x - y).to_u32_digits();
    BigInt { negative: matches!(sign, num_bigint::Sign::Minus), magnitude }
}

/// `&a * &b` on `num_bigint::BigInt`: the exact product.
#[verifier::external_body]
pub fn big_mul(a: &BigInt, b: &BigInt) -> (r: BigInt)
    ensures
        r@ == a@ * b@,
{
    let x = num_bigint::BigInt::from_slice(if a.negative { num_bigint::Sign::Minus } else { num_bigint::Sign::Plus }, &a.magnitude);
    let y = num_bigint::BigInt::from_slice(if b.negative { num_bigint::Sign::Minus } else { num_bigint::Sign::Plus }, &b.magnitude);
    let (sign, magnitude) = (x * y).to_u32_digits();
    BigInt { negative: matches!(sign, num_bigint::Sign::Minus), magnitude }
}

/// `&a / &b` on `num_bigint::BigInt`, which rounds toward zero (it panics on a zero divisor).
#[verifier::external_body]
pub fn big_div(a: &BigInt, b: &BigInt) -> (r: BigInt)
    requires
        b@ != 0,
    ensures
        r@ == trunc_div(a@, b@),
{
    let x = num_bigint::BigInt::from_slice(if a.negative { num_bigint::Sign::Minus } else { num_bigint::Sign::Plus }, &a.magnitude);
    let y = num_bigint::BigInt::from_slice(if b.negative { num_bigint::Sign::Minus } else { num_bigint::Sign::Plus }, &b.magnitude);
    let (sign, magnitude) = (x / y).to_u32_digits();
    BigInt { negative: matches!(sign, num_bigint::Sign::Minus), magnitude }
}

/// `num_integer::Integer::gcd` on `num_bigint::BigInt`: the non-negative greatest common
/// divisor of the magnitudes (`gcd(0, x) == |x|`).
#[verifier::external_body]
pub fn big_gcd(a: &BigInt, b: &BigInt) -> (r: BigInt)
    ensures
        r@ == spec_gcd(abs(a@), abs(b@)) as int,
{
    let x = num_bigint::BigInt::from_slice(if a.negative { num_bigint::Sign::Minus } else { num_bigint::Sign::Plus }, &a.magnitude);
    let y = num_bigint::BigInt::from_slice(if b.negative { num_bigint::Sign::Minus } else { num_bigint::Sign::Plus }, &b.magnitude);
    let (sign, magnitude) = x.gcd(&y).to_u32_digits();
    BigInt { negative: matches!(sign, num_bigint::Sign::Minus), magnitude }
}

/// `num_integer::Integer::lcm` on `num_bigint::BigInt`: `|a| / gcd * |b|`, and 0 when both are 0.
#[verifier::external_body]
pub fn big_lcm(a: &BigInt, b: &BigInt) -> (r: BigInt)
    ensures
        r@ == spec_lcm(abs(a@), abs(b@)) as int,
{
    let x = num_bigint::BigInt::from_slice(if a.negative { num_bigint::Sign::Minus } else { num_bigint::Sign::Plus }, &a.magnitude);
    let y = num_bigint::BigInt::from_slice(if b.negative { num_bigint::Sign::Minus } else { num_bigint::Sign::Plus }, &b.magnitude);
    let (sign, magnitude) = x.lcm(&y).to_u32_digits();
    BigInt { negative: matches!(sign, num_bigint::Sign::Minus), magnitude }
}

/// `a < b` on `num_bigint::BigInt` (numeric order).
#[verifier::external_body]
pub fn big_lt(a: &BigInt, b: &BigInt) -> (r: bool)
    ensures
        r == (a@ < b@),
{
    let x = num_bigint::BigInt::from_slice(if a.negative { num_bigint::Sign::Minus } else { num_bigint::Sign::Plus }, &a.magnitude);
    let y = num_bigint::BigInt::from_slice(if b.negative { num_bigint::Sign::Minus } else { num_bigint::Sign::Plus }, &b.magnitude);
    x < y
}

/// `num_bigint::BigInt::bits`: the bit length of the magnitude.
#[verifier::external_body]
pub fn big_bits(a: &BigInt) -> (r: u64)
    ensures
        r == bit_length(abs(a@)),
{
    num_bigint::BigInt::from_slice(if a.negative { num_bigint::Sign::Minus } else { num_bigint::Sign::Plus }, &a.magnitude).bits()
}

/// `num_bigint::BigInt::to_signed_bytes_be`: the shortest two's-complement big-endian
/// encoding of the value (the magnitude's bytes, with a zero byte in front when their top bit
/// is set, complemented for a negative value), which is the one such encoding.
#[verifier::external_body]
pub fn big_to_signed_bytes_be(a: &BigInt) -> (r: Vec<u8>)
    ensures
        is_minimal_signed_be(r@, a@),
        r@ == signed_bytes_be(a@),
{
    num_bigint::BigInt::from_slice(if a.negative { num_bigint::Sign::Minus } else { num_bigint::Sign::Plus }, &a.magnitude).to_signed_bytes_be()
}

impl BigInt {
    pub fn zero() -> (r: BigInt)
        ensures
            r@ == 0,
    {
        BigInt { negative: false, magnitude: Vec::new() }
    }

    pub fn one() -> (r: BigInt)
        ensures
            r@ == 1,
    {
        let mut magnitude: Vec<u32> = Vec::new();
        magnitude.push(1);
        proof {
            assert(magnitude@.drop_first().len() == 0);
            assert(digits_value(magnitude@) == 1 + 4294967296 * digits_value(magnitude@.drop_first()));
        }
        BigInt { negative: false, magnitude }
    }

    pub fn is_zero(&self) -> (r: bool)
        ensures
            r == (self@ == 0),
    {
        proof {
            use_type_invariant(self);
            if self.magnitude@.len() > 0 {
                lemma_digits_positive(self.magnitude@);
            }
        }
        self.magnitude.len() == 0
    }

    pub fn is_negative(&self) -> (r: bool)
        ensures
            r == (self@ < 0),
    {
        proof {
            use_type_invariant(self);
            if self.magnitude@.len() > 0 {
                lemma_digits_positive(self.magnitude@);
            }
        }
        self.negative
    }

    /// -1, 0 or 1 by the sign.
    pub fn signum(&self) -> (r: i8)
        ensures
            r == if self@ < 0 {
                -1i8
            } else if self@ == 0 {
                0i8
            } else {
                1i8
            },
    {
        if self.is_zero() {
            0
        } else if self.is_negative() {
            -1
        } else {
            1
        }
    }

    /// The additive inverse.
    pub fn neg(&self) -> (r: BigInt)
        ensures
            r@ == -self@,
    {
        proof {
            use_type_invariant(self);
        }
        let magnitude = copy_digits(&self.magnitude);
        if magnitude.len() == 0 {
            BigInt { negative: false, magnitude }
        } else {
            BigInt { negative: !self.negative, magnitude }
        }
    }

    /// The absolute value.
    pub fn abs(&self) -> (r: BigInt)
        ensures
            r@ == abs(self@),
    {
        proof {
            use_type_invariant(self);
        }
        let magnitude = copy_digits(&self.magnitude);
        BigInt { negative: false, magnitude }
    }

    /// Numeric equality.
    pub fn equals(&self, other: &BigInt) -> (r: bool)
        ensures
            r == (self@ == other@),
    {
        !big_lt(self, other) && !big_lt(other, self)
    }

    /// A copy with the same value.
    pub fn copy(&self) -> (r: BigInt)
        ensures
            r@ == self@,
    {
        proof {
            use_type_invariant(self);
        }
        BigInt { negative: self.negative, magnitude: copy_digits(&self.magnitude) }
    }
}

impl Clone for BigInt {
    fn clone(&self) -> (r: Self)
        ensures
            r@ == self@,
    {
        self.copy()
    }
}

fn copy_digits(d: &Vec<u32>) -> (r: Vec<u32>)
    ensures
        r@ == d@,
{
    let mut r: Vec<u32> = Vec::new();
    let n = d.len();
    for i in 0..n
        invariant
            n == d@.len(),
            r@ == d@.subrange(0, i as int),
    {
        r.push(d[i]);
        assert(d@.subrange(0, i + 1) == d@.subrange(0, i as int).push(d@[i as int]));
    }
    assert(d@.subrange(0, n as int) == d@);
    r
}

} // verus!
