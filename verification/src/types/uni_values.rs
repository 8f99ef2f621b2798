//! Rational values in lowest terms and univariate polynomials over them, as used to state
//! what the univariate algorithms compute.
use vstd::arithmetic::div_mod::lemma_fundamental_div_mod;
use vstd::prelude::*;

use crate::types::bigint::{abs, spec_gcd};
use crate::types::rational::{lemma_gcd_divides, lemma_gcd_positive, lemma_gcd_quotients_coprime, same_ratio};

verus! {

/// A value `(num, den)` in lowest terms with a positive denominator.
pub open spec fn is_reduced(c: (int, int)) -> bool {
    c.1 > 0 && spec_gcd(abs(c.0), abs(c.1)) == 1
}

/// The value `n / d` in lowest terms with a positive denominator.
pub open spec fn canon(n: int, d: int) -> (int, int) {
    choose|c: (int, int)| is_reduced(c) && same_ratio(c.0, c.1, n, d)
}

/// Bezout coefficients: `a * x + b * y` is the greatest common divisor.
pub proof fn lemma_bezout(a: nat, b: nat) -> (r: (int, int))
    ensures
        a * r.0 + b * r.1 == spec_gcd(a, b),
    decreases b,
{
    if b == 0 {
        (1, 0)
    } else {
        let (x, y) = lemma_bezout(b, a % b);
        lemma_fundamental_div_mod(a as int, b as int);
        let q = a / b;
        let m = a % b;
        assert(a == b * q + m);
        assert(b * x + m * y == spec_gcd(b, m));
        assert(b * x + m * y == a * y + b * (x - q * y)) by (nonlinear_arith)
            requires
                a == b * q + m,
        ;
        (y, x - q * y)
    }
}

/// A positive divisor of a positive number that it also divides is that number.
proof fn lemma_mutual_multiple(a: int, b: int, k1: int, k2: int)
    requires
        a > 0,
        b > 0,
        b == a * k1,
        a == b * k2,
    ensures
        a == b,
{
    assert(k1 > 0) by (nonlinear_arith)
        requires
            a > 0,
            b > 0,
            b == a * k1,
    ;
    assert(k2 > 0) by (nonlinear_arith)
        requires
            a > 0,
            b > 0,
            a == b * k2,
    ;
    assert(a == a * (k1 * k2)) by (nonlinear_arith)
        requires
            b == a * k1,
            a == b * k2,
    ;
    assert(k1 * k2 == 1) by (nonlinear_arith)
        requires
            a > 0,
            a == a * (k1 * k2),
    ;
    assert(k1 == 1) by (nonlinear_arith)
        requires
            k1 > 0,
            k2 > 0,
            k1 * k2 == 1,
    ;
}

/// The denominator of a value in lowest terms divides the denominator of any other
/// representation of the same value.
proof fn lemma_reduced_den_divides(x: (int, int), y: (int, int)) -> (k: int)
    requires
        is_reduced(x),
        y.1 > 0,
        same_ratio(x.0, x.1, y.0, y.1),
    ensures
        y.1 == x.1 * k,
{
    let (u, v) = lemma_bezout(abs(x.0), abs(x.1));
    let t: int = if x.0 < 0 {
        -u
    } else {
        u
    };
    assert(abs(x.0) * u == x.0 * t) by {
        if x.0 < 0 {
            assert(abs(x.0) == -x.0);
            assert((-x.0) * u == x.0 * (-u)) by (nonlinear_arith);
        }
    }
    assert(abs(x.1) == x.1);
    assert(x.0 * t + x.1 * v == 1);
    assert(y.1 == y.1 * (x.0 * t + x.1 * v)) by (nonlinear_arith)
        requires
            x.0 * t + x.1 * v == 1,
    ;
    assert(y.1 * (x.0 * t + x.1 * v) == (x.0 * y.1) * t + x.1 * (v * y.1)) by (nonlinear_arith);
    assert((x.0 * y.1) * t == (y.0 * x.1) * t);
    assert((y.0 * x.1) * t + x.1 * (v * y.1) == x.1 * (y.0 * t + v * y.1)) by (nonlinear_arith);
    y.0 * t + v * y.1
}

/// A value has one representation in lowest terms with a positive denominator.
pub proof fn lemma_reduced_unique(x: (int, int), y: (int, int))
    requires
        is_reduced(x),
        is_reduced(y),
        same_ratio(x.0, x.1, y.0, y.1),
    ensures
        x == y,
{
    let k1 = lemma_reduced_den_divides(x, y);
    let k2 = lemma_reduced_den_divides(y, x);
    lemma_mutual_multiple(x.1, y.1, k1, k2);
    assert(x.0 == y.0) by (nonlinear_arith)
        requires
            x.0 * y.1 == y.0 * x.1,
            x.1 == y.1,
            x.1 > 0,
    ;
}

/// Every value with a nonzero denominator has a form in lowest terms.
pub proof fn lemma_canon(n: int, d: int)
    requires
        d != 0,
    ensures
        is_reduced(canon(n, d)),
        same_ratio(canon(n, d).0, canon(n, d).1, n, d),
{
    let an = abs(n);
    let ad = abs(d);
    lemma_gcd_positive(an, ad);
    lemma_gcd_divides(an, ad);
    lemma_gcd_quotients_coprime(an, ad);
    let g = spec_gcd(an, ad);
    lemma_fundamental_div_mod(an as int, g as int);
    lemma_fundamental_div_mod(ad as int, g as int);
    let a: nat = an / g;
    let b: nat = ad / g;
    assert(an == g * a);
    assert(ad == g * b);
    assert(b > 0) by (nonlinear_arith)
        requires
            ad == g * b,
            ad > 0,
            g > 0,
    ;
    let sa: int = if (n < 0) != (d < 0) {
        -(a as int)
    } else {
        a as int
    };
    let c: (int, int) = (sa, b as int);
    assert(abs(c.0) == a);
    assert(n * b == sa * d) by {
        if n < 0 {
            assert(n == -(g * a));
        } else {
            assert(n == g * a);
        }
        if d < 0 {
            assert(d == -(g * b));
        } else {
            assert(d == g * b);
        }
        if (n < 0) != (d < 0) {
            assert(n * b == -(a as int) * d) by (nonlinear_arith)
                requires
                    (n == -(g * a) && d == g * b) || (n == g * a && d == -(g * b)),
            ;
        } else {
            assert(n * b == (a as int) * d) by (nonlinear_arith)
                requires
                    (n == -(g * a) && d == -(g * b)) || (n == g * a && d == g * b),
            ;
        }
    }
    assert(same_ratio(c.0, c.1, n, d));
    assert(is_reduced(c));
}

/// The lowest form of a value in lowest terms is itself.
pub proof fn lemma_canon_of_reduced(x: (int, int), n: int, d: int)
    requires
        is_reduced(x),
        d != 0,
        same_ratio(x.0, x.1, n, d),
    ensures
        canon(n, d) == x,
{
    lemma_canon(n, d);
    let c = canon(n, d);
    crate::types::univariate::lemma_ratio_trans(c.0, c.1, n, d, x.0, x.1);
    lemma_reduced_unique(c, x);
}

/// Representations of the same value have the same lowest form.
pub proof fn lemma_canon_congr(n: int, d: int, n2: int, d2: int)
    requires
        d != 0,
        d2 != 0,
        same_ratio(n, d, n2, d2),
    ensures
        canon(n, d) == canon(n2, d2),
{
    lemma_canon(n, d);
    let c = canon(n, d);
    crate::types::univariate::lemma_ratio_trans(c.0, c.1, n, d, n2, d2);
    lemma_canon_of_reduced(c, n2, d2);
}

// ----- values and polynomials over them -----

pub open spec fn qadd(x: (int, int), y: (int, int)) -> (int, int) {
    canon(x.0 * y.1 + y.0 * x.1, x.1 * y.1)
}

pub open spec fn qsub(x: (int, int), y: (int, int)) -> (int, int) {
    canon(x.0 * y.1 - y.0 * x.1, x.1 * y.1)
}

pub open spec fn qmul(x: (int, int), y: (int, int)) -> (int, int) {
    canon(x.0 * y.0, x.1 * y.1)
}

pub open spec fn qdiv(x: (int, int), y: (int, int)) -> (int, int) {
    canon(x.0 * y.1, x.1 * y.0)
}

/// The coefficients (lowest first) without trailing zeros.
pub open spec fn vstrip(s: Seq<(int, int)>) -> Seq<(int, int)>
    decreases s.len(),
{
    if s.len() > 0 && s.last().0 == 0 {
        vstrip(s.drop_last())
    } else {
        s
    }
}

/// One step of long division of `r` by `b`: subtract the multiple of `b` that cancels the
/// leading coefficient of `r`.
pub open spec fn vreduce(r: Seq<(int, int)>, b: Seq<(int, int)>) -> Seq<(int, int)> {
    let shift = r.len() - b.len();
    let s = qdiv(r.last(), b.last());
    vstrip(
        Seq::new(
            r.len(),
            |i: int|
                qsub(
                    r[i],
                    if i < shift {
                        (0int, 1int)
                    } else {
                        qmul(b[i - shift], s)
                    },
                ),
        ),
    )
}

/// Long-division steps while `r` is at least as long as `b`, at most `fuel` of them.
pub open spec fn vrem_fuel(r: Seq<(int, int)>, b: Seq<(int, int)>, fuel: nat) -> Seq<(int, int)>
    decreases fuel,
{
    if r.len() < b.len() || fuel == 0 {
        r
    } else {
        vrem_fuel(vreduce(r, b), b, (fuel - 1) as nat)
    }
}

/// The remainder of `r` divided by the nonzero stripped `b` (each step shortens `r`).
pub open spec fn vrem(r: Seq<(int, int)>, b: Seq<(int, int)>) -> Seq<(int, int)> {
    vrem_fuel(vstrip(r), b, r.len())
}

/// The quotient digits collected by long division of `r` by `b` into `q`.
pub open spec fn vquot_fuel(r: Seq<(int, int)>, b: Seq<(int, int)>, q: Seq<(int, int)>, fuel: nat) -> Seq<(int, int)>
    decreases fuel,
{
    if r.len() < b.len() || fuel == 0 {
        q
    } else {
        let shift = r.len() - b.len();
        vquot_fuel(
            vreduce(r, b),
            b,
            q.update(shift, qadd(q[shift], qdiv(r.last(), b.last()))),
            (fuel - 1) as nat,
        )
    }
}

/// The number of quotient digits kept for a dividend of length `rl` and divisor of length `bl`.
pub open spec fn vquot_len(rl: int, bl: int) -> int {
    if rl == 0 {
        0
    } else if rl >= bl {
        rl - bl + 1
    } else {
        1
    }
}

/// The quotient of `a` by the stripped `b` by long division (the remainder dropped); `a`
/// itself when `b` is zero.
pub open spec fn vdiv_exact(a: Seq<(int, int)>, b: Seq<(int, int)>) -> Seq<(int, int)> {
    let r = vstrip(a);
    if b.len() == 0 {
        r
    } else {
        vstrip(vquot_fuel(r, b, Seq::new(vquot_len(r.len() as int, b.len() as int) as nat, |i: int| (0int, 1int)), r.len()))
    }
}

/// Euclid's algorithm on stripped polynomials, at most `fuel` remainder steps.
pub open spec fn vgcd_fuel(a: Seq<(int, int)>, b: Seq<(int, int)>, fuel: nat) -> Seq<(int, int)>
    decreases fuel,
{
    if b.len() == 0 || fuel == 0 {
        a
    } else {
        vgcd_fuel(b, vrem(a, b), (fuel - 1) as nat)
    }
}

/// `p` divided by its leading coefficient.
pub open spec fn vmonic(p: Seq<(int, int)>) -> Seq<(int, int)> {
    if p.len() == 0 {
        p
    } else {
        vstrip(Seq::new(p.len(), |i: int| qdiv(p[i], p.last())))
    }
}

/// The monic greatest common divisor of `a` and `b` by Euclid's algorithm (each remainder is
/// shorter than the divisor, so `b.len() + 1` steps suffice); zero when both are zero.
pub open spec fn vgcd(a: Seq<(int, int)>, b: Seq<(int, int)>) -> Seq<(int, int)> {
    vmonic(vgcd_fuel(vstrip(a), vstrip(b), b.len() + 1))
}

/// The derivative of `p`.
pub open spec fn vderiv(p: Seq<(int, int)>) -> Seq<(int, int)> {
    vstrip(Seq::new(if p.len() > 0 { (p.len() - 1) as nat } else { 0 }, |i: int| canon(p[i + 1].0 * (i + 1), p[i + 1].1)))
}

/// The monic squarefree part of `p`: `p / gcd(p, p')` made monic; a nonzero constant gives
/// 1 and zero gives zero.
pub open spec fn vsquarefree(p: Seq<(int, int)>) -> Seq<(int, int)> {
    let q = vstrip(p);
    if q.len() == 0 {
        q
    } else if vderiv(q).len() == 0 {
        vmonic(q)
    } else {
        vmonic(vdiv_exact(q, vgcd(q, vderiv(q))))
    }
}

/// With a zero tail after position `k` and a nonzero entry just before it, stripping keeps
/// the first `k` entries.
pub proof fn lemma_vstrip_prefix(s: Seq<(int, int)>, k: int)
    requires
        0 <= k <= s.len(),
        k == 0 || s[k - 1].0 != 0,
        forall|i: int| k <= i < s.len() ==> (#[trigger] s[i]).0 == 0,
    ensures
        vstrip(s) == s.take(k),
    decreases s.len(),
{
    if s.len() > k {
        let d = s.drop_last();
        assert forall|i: int| k <= i < d.len() implies (#[trigger] d[i]).0 == 0 by {
            assert(d[i] == s[i]);
        }
        if k > 0 {
            assert(d[k - 1] == s[k - 1]);
        }
        lemma_vstrip_prefix(d, k);
        assert(d.take(k) == s.take(k));
    } else {
        assert(s.take(k) == s);
    }
}

/// `0/1` is in lowest terms.
pub proof fn lemma_zero_reduced()
    ensures
        is_reduced((0int, 1int)),
{
    assert(0nat % 1nat == 0);
    assert(spec_gcd(1, 0) == 1);
    assert(spec_gcd(0, 1) == spec_gcd(1, 0nat % 1nat));
    assert(abs(0) == 0 && abs(1) == 1);
}

/// The lowest form of a zero value is `0/1`.
pub proof fn lemma_canon_zero(n: int, d: int)
    requires
        d != 0,
        n == 0,
    ensures
        canon(n, d) == (0int, 1int),
{
    assert(0nat % 1nat == 0);
    assert(spec_gcd(1, 0) == 1);
    assert(spec_gcd(0, 1) == spec_gcd(1, 0nat % 1nat));
    assert(abs(0) == 0 && abs(1) == 1);
    lemma_canon_of_reduced((0int, 1int), n, d);
}

/// The lowest form of a nonzero value is nonzero.
pub proof fn lemma_canon_nonzero(n: int, d: int)
    requires
        d != 0,
    ensures
        (canon(n, d).0 == 0) == (n == 0),
{
    lemma_canon(n, d);
    let c = canon(n, d);
    if n == 0 {
        assert(c.0 * d == 0);
        assert(c.0 == 0) by (nonlinear_arith)
            requires
                c.0 * d == 0,
                d != 0,
        ;
    } else {
        if c.0 == 0 {
            assert(n * c.1 == 0);
            assert(false) by (nonlinear_arith)
                requires
                    n * c.1 == 0,
                    n != 0,
                    c.1 > 0,
            ;
        }
    }
}

/// `(a b ± c d) e f` distributes.
proof fn lemma_combine(a: int, b: int, c: int, d: int, e: int, f: int, plus: bool)
    ensures
        plus ==> (a * b + c * d) * (e * f) == (a * b) * (e * f) + (c * d) * (e * f),
        !plus ==> (a * b - c * d) * (e * f) == (a * b) * (e * f) - (c * d) * (e * f),
{
    vstd::arithmetic::mul::lemma_mul_is_distributive_add_other_way(e * f, a * b, c * d);
    vstd::arithmetic::mul::lemma_mul_is_distributive_sub_other_way(e * f, a * b, c * d);
}

proof fn lemma_sub_congr(x0: int, x1: int, y0: int, y1: int, u0: int, u1: int, w0: int, w1: int)
    requires
        x0 * u1 == u0 * x1,
        y0 * w1 == w0 * y1,
    ensures
        same_ratio(x0 * y1 - y0 * x1, x1 * y1, u0 * w1 - w0 * u1, u1 * w1),
{
    lemma_combine(x0, y1, y0, x1, u1, w1, false);
    lemma_combine(u0, w1, w0, u1, x1, y1, false);
    assert((x0 * y1) * (u1 * w1) == (x0 * u1) * (y1 * w1)) by (nonlinear_arith);
    assert((y0 * x1) * (u1 * w1) == (y0 * w1) * (x1 * u1)) by (nonlinear_arith);
    assert((u0 * w1) * (x1 * y1) == (u0 * x1) * (y1 * w1)) by (nonlinear_arith);
    assert((w0 * u1) * (x1 * y1) == (w0 * y1) * (x1 * u1)) by (nonlinear_arith);
}

proof fn lemma_add_congr(x0: int, x1: int, y0: int, y1: int, u0: int, u1: int, w0: int, w1: int)
    requires
        x0 * u1 == u0 * x1,
        y0 * w1 == w0 * y1,
    ensures
        same_ratio(x0 * y1 + y0 * x1, x1 * y1, u0 * w1 + w0 * u1, u1 * w1),
{
    lemma_combine(x0, y1, y0, x1, u1, w1, true);
    lemma_combine(u0, w1, w0, u1, x1, y1, true);
    assert((x0 * y1) * (u1 * w1) == (x0 * u1) * (y1 * w1)) by (nonlinear_arith);
    assert((y0 * x1) * (u1 * w1) == (y0 * w1) * (x1 * u1)) by (nonlinear_arith);
    assert((u0 * w1) * (x1 * y1) == (u0 * x1) * (y1 * w1)) by (nonlinear_arith);
    assert((w0 * u1) * (x1 * y1) == (w0 * y1) * (x1 * u1)) by (nonlinear_arith);
}

proof fn lemma_mul_congr(x0: int, x1: int, y0: int, y1: int, u0: int, u1: int, w0: int, w1: int)
    requires
        x0 * u1 == u0 * x1,
        y0 * w1 == w0 * y1,
    ensures
        same_ratio(x0 * y0, x1 * y1, u0 * w0, u1 * w1),
{
    assert((x0 * y0) * (u1 * w1) == (x0 * u1) * (y0 * w1)) by (nonlinear_arith);
    assert((u0 * w0) * (x1 * y1) == (u0 * x1) * (w0 * y1)) by (nonlinear_arith);
}

proof fn lemma_div_congr(x0: int, x1: int, y0: int, y1: int, u0: int, u1: int, w0: int, w1: int)
    requires
        x0 * u1 == u0 * x1,
        y0 * w1 == w0 * y1,
    ensures
        same_ratio(x0 * y1, x1 * y0, u0 * w1, u1 * w0),
{
    assert((x0 * y1) * (u1 * w0) == (x0 * u1) * (w0 * y1)) by (nonlinear_arith);
    assert((u0 * w1) * (x1 * y0) == (u0 * x1) * (y0 * w1)) by (nonlinear_arith);
}

proof fn lemma_nonzero_product(a: int, b: int)
    requires
        a != 0,
        b != 0,
    ensures
        a * b != 0,
{
    assert(a * b != 0) by (nonlinear_arith)
        requires
            a != 0,
            b != 0,
    ;
}

/// Subtraction of values may be done on any representations.
pub proof fn lemma_qsub_raw(x: (int, int), y: (int, int))
    requires
        x.1 != 0,
        y.1 != 0,
    ensures
        qsub(canon(x.0, x.1), canon(y.0, y.1)) == canon(x.0 * y.1 - y.0 * x.1, x.1 * y.1),
{
    lemma_canon(x.0, x.1);
    lemma_canon(y.0, y.1);
    let cx = canon(x.0, x.1);
    let cy = canon(y.0, y.1);
    lemma_sub_congr(cx.0, cx.1, cy.0, cy.1, x.0, x.1, y.0, y.1);
    lemma_nonzero_product(cx.1, cy.1);
    lemma_nonzero_product(x.1, y.1);
    lemma_canon_congr(cx.0 * cy.1 - cy.0 * cx.1, cx.1 * cy.1, x.0 * y.1 - y.0 * x.1, x.1 * y.1);
}

/// Addition of values may be done on any representations.
pub proof fn lemma_qadd_raw(x: (int, int), y: (int, int))
    requires
        x.1 != 0,
        y.1 != 0,
    ensures
        qadd(canon(x.0, x.1), canon(y.0, y.1)) == canon(x.0 * y.1 + y.0 * x.1, x.1 * y.1),
{
    lemma_canon(x.0, x.1);
    lemma_canon(y.0, y.1);
    let cx = canon(x.0, x.1);
    let cy = canon(y.0, y.1);
    lemma_add_congr(cx.0, cx.1, cy.0, cy.1, x.0, x.1, y.0, y.1);
    lemma_nonzero_product(cx.1, cy.1);
    lemma_nonzero_product(x.1, y.1);
    lemma_canon_congr(cx.0 * cy.1 + cy.0 * cx.1, cx.1 * cy.1, x.0 * y.1 + y.0 * x.1, x.1 * y.1);
}

/// Multiplication of values may be done on any representations.
pub proof fn lemma_qmul_raw(x: (int, int), y: (int, int))
    requires
        x.1 != 0,
        y.1 != 0,
    ensures
        qmul(canon(x.0, x.1), canon(y.0, y.1)) == canon(x.0 * y.0, x.1 * y.1),
{
    lemma_canon(x.0, x.1);
    lemma_canon(y.0, y.1);
    let cx = canon(x.0, x.1);
    let cy = canon(y.0, y.1);
    lemma_mul_congr(cx.0, cx.1, cy.0, cy.1, x.0, x.1, y.0, y.1);
    lemma_nonzero_product(cx.1, cy.1);
    lemma_nonzero_product(x.1, y.1);
    lemma_canon_congr(cx.0 * cy.0, cx.1 * cy.1, x.0 * y.0, x.1 * y.1);
}

/// Division of values by a nonzero value may be done on any representations.
pub proof fn lemma_qdiv_raw(x: (int, int), y: (int, int))
    requires
        x.1 != 0,
        y.1 != 0,
        y.0 != 0,
    ensures
        qdiv(canon(x.0, x.1), canon(y.0, y.1)) == canon(x.0 * y.1, x.1 * y.0),
{
    lemma_canon(x.0, x.1);
    lemma_canon(y.0, y.1);
    lemma_canon_nonzero(y.0, y.1);
    let cx = canon(x.0, x.1);
    let cy = canon(y.0, y.1);
    lemma_div_congr(cx.0, cx.1, cy.0, cy.1, x.0, x.1, y.0, y.1);
    lemma_nonzero_product(cx.1, cy.0);
    lemma_nonzero_product(x.1, y.0);
    lemma_canon_congr(cx.0 * cy.1, cx.1 * cy.0, x.0 * y.1, x.1 * y.0);
}

} // verus!
