//! Exact rationals: a big-integer numerator over a big-integer denominator,
//! normalized to a positive denominator coprime to the numerator.
use vstd::arithmetic::div_mod::{lemma_fundamental_div_mod, lemma_fundamental_div_mod_converse};
use vstd::prelude::*;

use crate::types::bigint::{
    abs, big_add, big_bits, big_div, big_gcd, big_lcm, big_lt, big_mul, big_sub,
    big_to_signed_bytes_be, bit_length, from_i64, signed_bytes_be, spec_gcd, spec_lcm, trunc_div,
    BigInt,
};
use crate::types::bytes::{be_bytes, extend_bytes, u64_be};

verus! {

/// `num / den`.
#[derive(Debug, Clone, PartialEq, Eq, Hash)]
pub struct RationalQ {
    pub num: BigInt,
    pub den: BigInt,
}

/// The division by a zero rational.
#[derive(Debug, Clone, Copy, PartialEq, Eq, Structural)]
pub struct DivisionByZero;

/// Normal form: positive denominator, coprime to the numerator (so zero is `0/1`).
pub open spec fn is_canonical(q: RationalQ) -> bool {
    q.den@ > 0 && spec_gcd(abs(q.num@), abs(q.den@)) == 1
}

/// `n1/d1` and `n2/d2` denote the same number (cross-multiplication).
pub open spec fn same_ratio(n1: int, d1: int, n2: int, d2: int) -> bool {
    n1 * d2 == n2 * d1
}

// ----- number theory on the greatest common divisor -----

proof fn lemma_multiple_mod(x: int, g: int, k: int)
    requires
        g > 0,
        k >= 0,
        x == k * g,
    ensures
        x % g == 0,
        x / g == k,
{
    lemma_fundamental_div_mod_converse(x, g, k, 0);
}

proof fn lemma_mod_zero_multiple(x: int, g: int)
    requires
        g > 0,
        x >= 0,
        x % g == 0,
    ensures
        x == (x / g) * g,
        x / g >= 0,
{
    lemma_fundamental_div_mod(x, g);
    assert(g * (x / g) == (x / g) * g) by (nonlinear_arith);
    assert(x / g >= 0) by (nonlinear_arith)
        requires
            x >= 0,
            g > 0,
            x == g * (x / g),
    ;
}

pub proof fn lemma_gcd_positive(a: nat, b: nat)
    requires
        a > 0 || b > 0,
    ensures
        spec_gcd(a, b) > 0,
    decreases b,
{
    if b > 0 {
        lemma_gcd_positive(b, a % b);
    }
}

/// The gcd divides both arguments.
pub proof fn lemma_gcd_divides(a: nat, b: nat)
    requires
        a > 0 || b > 0,
    ensures
        a % spec_gcd(a, b) == 0,
        b % spec_gcd(a, b) == 0,
    decreases b,
{
    lemma_gcd_positive(a, b);
    let g = spec_gcd(a, b);
    if b == 0 {
        lemma_multiple_mod(a as int, a as int, 1);
        lemma_multiple_mod(0, a as int, 0);
    } else {
        let r = a % b;
        lemma_gcd_divides(b, r);
        lemma_mod_zero_multiple(b as int, g as int);
        lemma_mod_zero_multiple(r as int, g as int);
        lemma_fundamental_div_mod(a as int, b as int);
        let q = a / b;
        let kb = b / g;
        let kr = r / g;
        assert(a == (kb * q + kr) * g) by (nonlinear_arith)
            requires
                a == b * q + r,
                b == kb * g,
                r == kr * g,
        ;
        assert(kb * q + kr >= 0) by (nonlinear_arith)
            requires
                kb >= 0,
                q >= 0,
                kr >= 0,
        ;
        lemma_multiple_mod(a as int, g as int, (kb * q + kr) as int);
    }
}

proof fn lemma_mod_scale(g: nat, a: nat, b: nat)
    requires
        g > 0,
        b > 0,
    ensures
        (g * a) % (g * b) == g * (a % b),
{
    lemma_fundamental_div_mod(a as int, b as int);
    let q = a / b;
    let r = a % b;
    assert(g * a == q * (g * b) + g * r) by (nonlinear_arith)
        requires
            a == b * q + r,
    ;
    assert(0 <= g * r < g * b) by (nonlinear_arith)
        requires
            0 <= r < b,
            g > 0,
    ;
    lemma_fundamental_div_mod_converse((g * a) as int, (g * b) as int, q as int, (g * r) as int);
}

/// `gcd(g·a, g·b) = g·gcd(a, b)`.
pub proof fn lemma_gcd_scale(g: nat, a: nat, b: nat)
    requires
        g > 0,
    ensures
        spec_gcd(g * a, g * b) == g * spec_gcd(a, b),
    decreases b,
{
    if b == 0 {
        assert(g * b == 0);
    } else {
        assert(g * b > 0) by (nonlinear_arith)
            requires
                g > 0,
                b > 0,
        ;
        lemma_mod_scale(g, a, b);
        lemma_gcd_scale(g, b, a % b);
    }
}

/// Dividing two numbers by their gcd leaves coprime quotients.
pub proof fn lemma_gcd_quotients_coprime(a: nat, b: nat)
    requires
        a > 0 || b > 0,
    ensures
        spec_gcd(a / spec_gcd(a, b), b / spec_gcd(a, b)) == 1,
{
    let g = spec_gcd(a, b);
    lemma_gcd_positive(a, b);
    lemma_gcd_divides(a, b);
    lemma_mod_zero_multiple(a as int, g as int);
    lemma_mod_zero_multiple(b as int, g as int);
    let a1 = a / g;
    let b1 = b / g;
    assert(g * a1 == a && g * b1 == b) by (nonlinear_arith)
        requires
            a == a1 * g,
            b == b1 * g,
    ;
    lemma_gcd_scale(g, a1, b1);
    assert(spec_gcd(a1, b1) == 1) by (nonlinear_arith)
        requires
            g == g * spec_gcd(a1, b1),
            g > 0,
    ;
}

proof fn lemma_trunc_div_exact(x: int, g: int)
    requires
        g > 0,
        abs(x) % (g as nat) == 0,
    ensures
        trunc_div(x, g) * g == x,
{
    lemma_mod_zero_multiple(abs(x) as int, g);
    let k = abs(x) / (g as nat);
    assert(abs(x) == k * g);
    if x < 0 {
        assert(trunc_div(x, g) == -(k as int));
        assert(-(k as int) * g == -(k * g)) by (nonlinear_arith);
    } else {
        assert(trunc_div(x, g) == k as int);
    }
}

// ----- constructors -----

/// Brings `q` to normal form: positive denominator coprime to the numerator, same value.
/// The denominator must be nonzero (the original panics on a zero denominator).
pub fn normalize_q(q: RationalQ) -> (r: RationalQ)
    requires
        q.den@ != 0,
    ensures
        is_canonical(r),
        same_ratio(r.num@, r.den@, q.num@, q.den@),
        q.num@ == 0 ==> r.num@ == 0 && r.den@ == 1,
{
    if q.num.is_zero() {
        let r = RationalQ { num: BigInt::zero(), den: BigInt::one() };
        assert(spec_gcd(0, 1) == spec_gcd(1, 0));
        return r;
    }
    let neg = q.den.is_negative();
    let num = if neg {
        q.num.neg()
    } else {
        q.num.copy()
    };
    let den = if neg {
        q.den.neg()
    } else {
        q.den.copy()
    };
    let g = big_gcd(&num.abs(), &den);
    let ghost n = num@;
    let ghost d = den@;
    let ghost gg = g@;
    proof {
        assert(abs(abs(n) as int) == abs(n));
        lemma_gcd_positive(abs(n), abs(d));
        lemma_gcd_divides(abs(n), abs(d));
        lemma_gcd_quotients_coprime(abs(n), abs(d));
        lemma_trunc_div_exact(n, gg);
        lemma_trunc_div_exact(d, gg);
    }
    let r_num = big_div(&num, &g);
    let r_den = big_div(&den, &g);
    proof {
        let a = r_num@;
        let b = r_den@;
        assert(a * gg == n && b * gg == d);
        assert(b > 0) by (nonlinear_arith)
            requires
                b * gg == d,
                d > 0,
                gg > 0,
        ;
        assert(abs(n) / (gg as nat) == abs(a)) by {
            if n < 0 {
                assert(trunc_div(n, gg) == -((abs(n) / abs(gg)) as int));
            }
        }
        assert(abs(d) / (gg as nat) == abs(b));
        assert(same_ratio(a, b, q.num@, q.den@)) by (nonlinear_arith)
            requires
                a * gg == n,
                b * gg == d,
                (n == q.num@ && d == q.den@) || (n == -q.num@ && d == -q.den@),
        ;
    }
    RationalQ { num: r_num, den: r_den }
}

/// `num / den` in normal form. The denominator must be nonzero.
pub fn new_q(num: BigInt, den: BigInt) -> (r: RationalQ)
    requires
        den@ != 0,
    ensures
        is_canonical(r),
        same_ratio(r.num@, r.den@, num@, den@),
{
    normalize_q(RationalQ { num, den })
}

pub fn zero_q() -> (r: RationalQ)
    ensures
        r.num@ == 0,
        r.den@ == 1,
{
    RationalQ { num: BigInt::zero(), den: BigInt::one() }
}

pub fn one_q() -> (r: RationalQ)
    ensures
        r.num@ == 1,
        r.den@ == 1,
{
    RationalQ { num: BigInt::one(), den: BigInt::one() }
}

/// The integer `n` as `n/1`.
pub fn int_q(n: i64) -> (r: RationalQ)
    ensures
        r.num@ == n,
        r.den@ == 1,
{
    RationalQ { num: from_i64(n), den: BigInt::one() }
}

// ----- arithmetic -----

pub fn add_q(a: &RationalQ, b: &RationalQ) -> (r: RationalQ)
    requires
        a.den@ != 0,
        b.den@ != 0,
    ensures
        is_canonical(r),
        same_ratio(r.num@, r.den@, a.num@ * b.den@ + b.num@ * a.den@, a.den@ * b.den@),
{
    let n = big_add(&big_mul(&a.num, &b.den), &big_mul(&b.num, &a.den));
    let d = big_mul(&a.den, &b.den);
    assert(d@ != 0) by (nonlinear_arith)
        requires
            d@ == a.den@ * b.den@,
            a.den@ != 0,
            b.den@ != 0,
    ;
    new_q(n, d)
}

pub fn sub_q(a: &RationalQ, b: &RationalQ) -> (r: RationalQ)
    requires
        a.den@ != 0,
        b.den@ != 0,
    ensures
        is_canonical(r),
        same_ratio(r.num@, r.den@, a.num@ * b.den@ - b.num@ * a.den@, a.den@ * b.den@),
{
    let n = big_sub(&big_mul(&a.num, &b.den), &big_mul(&b.num, &a.den));
    let d = big_mul(&a.den, &b.den);
    assert(d@ != 0) by (nonlinear_arith)
        requires
            d@ == a.den@ * b.den@,
            a.den@ != 0,
            b.den@ != 0,
    ;
    new_q(n, d)
}

/// `-a`, not renormalized.
pub fn neg_q(a: &RationalQ) -> (r: RationalQ)
    ensures
        r.num@ == -a.num@,
        r.den@ == a.den@,
{
    RationalQ { num: a.num.neg(), den: a.den.copy() }
}

pub fn mul_q(a: &RationalQ, b: &RationalQ) -> (r: RationalQ)
    requires
        a.den@ != 0,
        b.den@ != 0,
    ensures
        is_canonical(r),
        same_ratio(r.num@, r.den@, a.num@ * b.num@, a.den@ * b.den@),
{
    let n = big_mul(&a.num, &b.num);
    let d = big_mul(&a.den, &b.den);
    assert(d@ != 0) by (nonlinear_arith)
        requires
            d@ == a.den@ * b.den@,
            a.den@ != 0,
            b.den@ != 0,
    ;
    new_q(n, d)
}

/// `a / b`; an error exactly when `b` is zero.
pub fn div_q(a: &RationalQ, b: &RationalQ) -> (r: Result<RationalQ, DivisionByZero>)
    requires
        a.den@ != 0,
        b.den@ != 0,
    ensures
        r is Err <==> b.num@ == 0,
        r matches Ok(q) ==> is_canonical(q) && same_ratio(
            q.num@,
            q.den@,
            a.num@ * b.den@,
            a.den@ * b.num@,
        ),
{
    if b.num.is_zero() {
        return Err(DivisionByZero);
    }
    let n = big_mul(&a.num, &b.den);
    let d = big_mul(&a.den, &b.num);
    assert(d@ != 0) by (nonlinear_arith)
        requires
            d@ == a.den@ * b.num@,
            a.den@ != 0,
            b.num@ != 0,
    ;
    Ok(new_q(n, d))
}

pub open spec fn spec_bit_height(q: RationalQ) -> nat {
    let n = bit_length(abs(q.num@));
    let d = bit_length(abs(q.den@));
    if n >= d {
        n
    } else {
        d
    }
}

/// The larger bit length of numerator and denominator magnitudes (clamped to `usize::MAX`,
/// which on a 64-bit target is never reached by a `u64` bit count).
pub fn bit_height_q(q: &RationalQ) -> (h: usize)
    ensures
        h == if spec_bit_height(*q) > usize::MAX {
            usize::MAX as nat
        } else {
            spec_bit_height(*q)
        },
{
    let n = big_bits(&q.num);
    let d = big_bits(&q.den);
    let m = if n >= d {
        n
    } else {
        d
    };
    if m as u128 > usize::MAX as u128 {
        usize::MAX
    } else {
        m as usize
    }
}

/// Canonical bytes: numerator and denominator two's-complement bytes, each length-prefixed.
pub open spec fn spec_rational_bytes(q: RationalQ) -> Seq<u8> {
    let n = signed_bytes_be(q.num@);
    let d = signed_bytes_be(q.den@);
    be_bytes(n.len(), 8) + n + be_bytes(d.len(), 8) + d
}

pub fn rational_to_bytes(q: &RationalQ) -> (out: Vec<u8>)
    ensures
        out@ == spec_rational_bytes(*q),
{
    let num = big_to_signed_bytes_be(&q.num);
    let den = big_to_signed_bytes_be(&q.den);
    let mut out = u64_be(num.len() as u64);
    extend_bytes(&mut out, num.as_slice());
    let dl = u64_be(den.len() as u64);
    extend_bytes(&mut out, dl.as_slice());
    extend_bytes(&mut out, den.as_slice());
    out
}

/// The least common multiple of the denominators, folded from 1 left to right.
pub open spec fn lcm_fold(values: Seq<RationalQ>) -> nat
    decreases values.len(),
{
    if values.len() == 0 {
        1
    } else {
        spec_lcm(lcm_fold(values.drop_last()), abs(values.last().den@))
    }
}

pub fn lcm_denominators(values: &[RationalQ]) -> (l: BigInt)
    ensures
        l@ == lcm_fold(values@),
{
    let mut acc = BigInt::one();
    let n = values.len();
    for i in 0..n
        invariant
            n == values@.len(),
            acc@ == lcm_fold(values@.take(i as int)),
    {
        proof {
            assert(values@.take(i + 1).drop_last() == values@.take(i as int));
            assert(abs(acc@) == acc@);
        }
        acc = big_lcm(&acc, &values[i].den);
    }
    assert(values@.take(n as int) == values@);
    acc
}

pub fn is_zero_q(q: &RationalQ) -> (r: bool)
    ensures
        r == (q.num@ == 0),
{
    q.num.is_zero()
}

/// The sign of the numerator: -1, 0 or 1.
pub fn sign_q(q: &RationalQ) -> (r: i8)
    ensures
        r == if q.num@ < 0 {
            -1i8
        } else if q.num@ == 0 {
            0i8
        } else {
            1i8
        },
{
    q.num.signum()
}

/// Field-wise equality (numerator, then denominator), as the derived `==`.
pub fn rational_eq(a: &RationalQ, b: &RationalQ) -> (r: bool)
    ensures
        r == (a.num@ == b.num@ && a.den@ == b.den@),
{
    a.num.equals(&b.num) && a.den.equals(&b.den)
}

/// The numeric order of the values `a.num / a.den < b.num / b.den`, for nonzero
/// denominators of either sign: the cross difference and the product of the denominators
/// have opposite signs.
pub open spec fn value_lt(a: RationalQ, b: RationalQ) -> bool {
    (a.num@ * b.den@ - b.num@ * a.den@) * (a.den@ * b.den@) < 0
}

/// Whether the value of `a` is below the value of `b`.
pub fn rational_lt(a: &RationalQ, b: &RationalQ) -> (r: bool)
    ensures
        r == value_lt(*a, *b),
{
    let cross = big_sub(&big_mul(&a.num, &b.den), &big_mul(&b.num, &a.den));
    let dens = big_mul(&a.den, &b.den);
    big_mul(&cross, &dens).is_negative()
}

/// Addition of rationals is exact: the sum denotes the sum of the values.
pub proof fn lemma_add_sub_roundtrip(a: RationalQ, b: RationalQ, s: RationalQ, d: RationalQ)
    requires
        a.den@ > 0,
        b.den@ > 0,
        s.den@ > 0,
        same_ratio(s.num@, s.den@, a.num@ * b.den@ + b.num@ * a.den@, a.den@ * b.den@),
        same_ratio(d.num@, d.den@, s.num@ * b.den@ - b.num@ * s.den@, s.den@ * b.den@),
    ensures
        same_ratio(d.num@, d.den@, a.num@, a.den@),
{
    let (an, ad, bn, bd, sn, sd, dn, dd) = (
        a.num@,
        a.den@,
        b.num@,
        b.den@,
        s.num@,
        s.den@,
        d.num@,
        d.den@,
    );
    let k = sd * bd;
    assert(sn * bd * ad == (an * bd + bn * ad) * sd) by (nonlinear_arith)
        requires
            sn * (ad * bd) == (an * bd + bn * ad) * sd,
    ;
    assert(dn * k * ad == (sn * bd * ad - bn * sd * ad) * dd) by (nonlinear_arith)
        requires
            dn * (sd * bd) == (sn * bd - bn * sd) * dd,
            k == sd * bd,
    ;
    assert(sn * bd * ad - bn * sd * ad == an * k) by (nonlinear_arith)
        requires
            sn * bd * ad == (an * bd + bn * ad) * sd,
            k == sd * bd,
    ;
    assert(k > 0) by (nonlinear_arith)
        requires
            sd > 0,
            bd > 0,
            k == sd * bd,
    ;
    assert((dn * ad) * k == (an * dd) * k) by (nonlinear_arith)
        requires
            dn * k * ad == (an * k) * dd,
    ;
    assert(dn * ad == an * dd) by (nonlinear_arith)
        requires
            (dn * ad) * k == (an * dd) * k,
            k > 0,
    ;
}

} // verus!
