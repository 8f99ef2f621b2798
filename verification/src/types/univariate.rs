//! Dense univariate polynomials over the rationals, coefficients from degree 0 upward.
use vstd::prelude::*;

use crate::types::uni_values::{
    canon, lemma_canon, lemma_canon_congr, lemma_canon_nonzero, lemma_canon_of_reduced, lemma_canon_zero,
    lemma_qadd_raw, lemma_qdiv_raw, lemma_qmul_raw, lemma_qsub_raw, lemma_vstrip_prefix, qadd, qdiv, qmul, qsub, vderiv, vdiv_exact, vgcd, vmonic, vquot_fuel, vquot_len,
    vreduce, vrem, vrem_fuel, vgcd_fuel, vsquarefree, vstrip,
};
use vstd::string::StringSliceAdditionalSpecFns;

use crate::types::bytes::{be_bytes, u32_be};
use crate::types::chunks::push_chunk;
use crate::types::hash::{self, chunk_views, hash_sequence, spec_hash_sequence};
use crate::types::ids::VariableId;
use crate::types::polynomial::copy_q;
use crate::types::bigint::{from_usize, spec_gcd, BigInt};
use crate::types::polynomial::{lemma_ratio_add, lemma_ratio_zero};
use vstd::arithmetic::mul::{lemma_mul_equality_converse, lemma_mul_nonzero};
use crate::types::rational::{
    add_q, div_q, is_canonical, mul_q, rational_to_bytes, same_ratio, spec_rational_bytes, sub_q, zero_q, RationalQ,
};

verus! {

#[derive(Debug, Clone, PartialEq, Eq)]
pub struct UniPolynomialQ {
    pub variable: VariableId,
    pub coeffs_low_to_high: Vec<RationalQ>,
    pub hash: hash::Hash,
}

/// Every coefficient has a nonzero denominator.
pub open spec fn uni_wf(cs: Seq<RationalQ>) -> bool {
    forall|i: int| 0 <= i < cs.len() ==> (#[trigger] cs[i]).den@ != 0
}

/// The coefficients without their trailing zeros.
pub open spec fn strip_zeros(cs: Seq<RationalQ>) -> Seq<RationalQ>
    decreases cs.len(),
{
    if cs.len() > 0 && cs.last().num@ == 0 {
        strip_zeros(cs.drop_last())
    } else {
        cs
    }
}

/// No trailing zero coefficient.
pub open spec fn is_stripped(cs: Seq<RationalQ>) -> bool {
    cs.len() == 0 || cs.last().num@ != 0
}

/// The chunks hashed for a univariate polynomial: the variable, then each coefficient.
pub open spec fn uni_chunks(variable: VariableId, cs: Seq<RationalQ>) -> Seq<Seq<u8>> {
    seq![be_bytes(variable.0 as nat, 4)] + cs.map_values(|c: RationalQ| spec_rational_bytes(c))
}

pub open spec fn spec_uni_hash(variable: VariableId, cs: Seq<RationalQ>) -> Seq<u8> {
    spec_hash_sequence("univariate".spec_bytes(), uni_chunks(variable, cs))
}

/// A normalized polynomial: no trailing zeros and the digest of its coefficients.
pub open spec fn uni_normalized(p: UniPolynomialQ) -> bool {
    &&& is_stripped(p.coeffs_low_to_high@)
    &&& p.hash.0@ == spec_uni_hash(p.variable, p.coeffs_low_to_high@)
}

/// `out` holds, without trailing zeros, the first `len` values of `f`, each in lowest terms.
pub open spec fn canonical_coeffs_of(out: Seq<RationalQ>, len: nat, f: spec_fn(int) -> (int, int)) -> bool {
    &&& out.len() <= len
    &&& is_stripped(out)
    &&& forall|i: int| 0 <= i < out.len() ==> is_canonical(#[trigger] out[i]) && same_ratio(out[i].num@, out[i].den@, f(i).0, f(i).1)
    &&& forall|i: int| out.len() <= i < len ==> (#[trigger] f(i)).0 == 0
}

proof fn lemma_strip_prefix(cs: Seq<RationalQ>)
    ensures
        strip_zeros(cs).len() <= cs.len(),
        strip_zeros(cs) == cs.take(strip_zeros(cs).len() as int),
        is_stripped(strip_zeros(cs)),
        forall|i: int| strip_zeros(cs).len() <= i < cs.len() ==> (#[trigger] cs[i]).num@ == 0,
    decreases cs.len(),
{
    if cs.len() > 0 && cs.last().num@ == 0 {
        let d = cs.drop_last();
        lemma_strip_prefix(d);
        assert(strip_zeros(cs) == strip_zeros(d));
        let s = strip_zeros(cs);
        assert(d.take(s.len() as int) =~= cs.take(s.len() as int));
        assert forall|i: int| s.len() <= i < cs.len() implies (#[trigger] cs[i]).num@ == 0 by {
            if i < d.len() {
                assert(cs[i] == d[i]);
            }
        }
    } else {
        assert(cs.take(cs.len() as int) == cs);
    }
}

/// The digest of a variable and its coefficients.
pub fn hash_univariate(variable: VariableId, coeffs: &[RationalQ]) -> (h: hash::Hash)
    ensures
        h.0@ == spec_uni_hash(variable, coeffs@),
{
    let mut chunks: Vec<Vec<u8>> = Vec::new();
    push_chunk(&mut chunks, u32_be(variable.0));
    let n = coeffs.len();
    for i in 0..n
        invariant
            n == coeffs@.len(),
            chunk_views(chunks@) == uni_chunks(variable, coeffs@.take(i as int)),
    {
        push_chunk(&mut chunks, rational_to_bytes(&coeffs[i]));
        proof {
            assert(coeffs@.take(i + 1) == coeffs@.take(i as int).push(coeffs@[i as int]));
            assert(uni_chunks(variable, coeffs@.take(i + 1)) =~= uni_chunks(variable, coeffs@.take(i as int)).push(
                spec_rational_bytes(coeffs@[i as int]),
            ));
        }
    }
    assert(coeffs@.take(n as int) == coeffs@);
    hash_sequence("univariate", chunks.as_slice())
}

/// Drops trailing zero coefficients and recomputes the digest.
pub fn normalize_univariate(p: UniPolynomialQ) -> (r: UniPolynomialQ)
    ensures
        r.variable == p.variable,
        r.coeffs_low_to_high@ == strip_zeros(p.coeffs_low_to_high@),
        uni_normalized(r),
{
    let mut coeffs = p.coeffs_low_to_high;
    let ghost orig = coeffs@;
    proof {
        lemma_strip_prefix(orig);
    }
    while coeffs.len() > 0 && coeffs[coeffs.len() - 1].num.is_zero()
        invariant
            strip_zeros(coeffs@) == strip_zeros(orig),
        decreases coeffs@.len(),
    {
        coeffs.pop();
    }
    proof {
        lemma_strip_prefix(coeffs@);
    }
    let hash = hash_univariate(p.variable, coeffs.as_slice());
    UniPolynomialQ { variable: p.variable, coeffs_low_to_high: coeffs, hash }
}

/// A copy of the coefficients.
pub fn copy_coeffs(cs: &[RationalQ]) -> (out: Vec<RationalQ>)
    ensures
        out@.len() == cs@.len(),
        forall|i: int| 0 <= i < cs@.len() ==> (#[trigger] out@[i]).num@ == cs@[i].num@ && out@[i].den@ == cs@[i].den@,
{
    let mut out: Vec<RationalQ> = Vec::new();
    let n = cs.len();
    for i in 0..n
        invariant
            n == cs@.len(),
            out@.len() == i,
            forall|j: int| 0 <= j < i ==> (#[trigger] out@[j]).num@ == cs@[j].num@ && out@[j].den@ == cs@[j].den@,
    {
        out.push(copy_q(&cs[i]));
    }
    out
}

/// The zero polynomial in `variable`.
pub fn zero_uni(variable: VariableId) -> (r: UniPolynomialQ)
    ensures
        r.variable == variable,
        r.coeffs_low_to_high@.len() == 0,
        uni_normalized(r),
{
    let coeffs: Vec<RationalQ> = Vec::new();
    let hash = hash_univariate(variable, coeffs.as_slice());
    normalize_univariate(UniPolynomialQ { variable, coeffs_low_to_high: coeffs, hash })
}

/// The constant `c` in `variable` (the zero polynomial when `c` is zero).
pub fn constant_uni(variable: VariableId, c: RationalQ) -> (r: UniPolynomialQ)
    ensures
        r.variable == variable,
        c.num@ == 0 ==> r.coeffs_low_to_high@.len() == 0,
        c.num@ != 0 ==> r.coeffs_low_to_high@ == seq![c],
        uni_normalized(r),
{
    let mut coeffs: Vec<RationalQ> = Vec::new();
    coeffs.push(c);
    let ghost cs = coeffs@;
    proof {
        assert(cs.drop_last() == Seq::<RationalQ>::empty());
        assert(strip_zeros(Seq::<RationalQ>::empty()) == Seq::<RationalQ>::empty());
    }
    let hash = hash_univariate(variable, coeffs.as_slice());
    normalize_univariate(UniPolynomialQ { variable, coeffs_low_to_high: coeffs, hash })
}

/// The degree: `None` for the empty coefficient list, else the last index.
pub fn degree_uni(p: &UniPolynomialQ) -> (d: Option<usize>)
    ensures
        p.coeffs_low_to_high@.len() == 0 <==> d is None,
        d matches Some(k) ==> k == p.coeffs_low_to_high@.len() - 1,
{
    if p.coeffs_low_to_high.len() == 0 {
        None
    } else {
        Some(p.coeffs_low_to_high.len() - 1)
    }
}

/// Coefficient `i` as a fraction, zero past the end.
pub open spec fn coeff_at(cs: Seq<RationalQ>, i: int) -> (int, int) {
    if 0 <= i < cs.len() {
        (cs[i].num@, cs[i].den@)
    } else {
        (0, 1)
    }
}

proof fn lemma_strip_canonical(d: Seq<RationalQ>, len: nat, f: spec_fn(int) -> (int, int))
    requires
        d.len() == len,
        forall|i: int| 0 <= i < len ==> is_canonical(#[trigger] d[i]) && same_ratio(d[i].num@, d[i].den@, f(i).0, f(i).1),
        forall|i: int| 0 <= i < len ==> (#[trigger] f(i)).1 != 0,
    ensures
        canonical_coeffs_of(strip_zeros(d), len, f),
{
    lemma_strip_prefix(d);
    let s = strip_zeros(d);
    assert forall|i: int| 0 <= i < s.len() implies is_canonical(#[trigger] s[i]) && same_ratio(s[i].num@, s[i].den@, f(i).0, f(i).1) by {
        assert(s[i] == d[i]);
    }
    assert forall|i: int| s.len() <= i < len implies (#[trigger] f(i)).0 == 0 by {
        assert(d[i].num@ == 0);
        assert(is_canonical(d[i]));
        lemma_ratio_zero(d[i].num@, d[i].den@, f(i).0, f(i).1);
    }
}

/// The derivative: coefficient `i` becomes `(i + 1)` times coefficient `i + 1`.
pub fn derivative_uni(p: &UniPolynomialQ) -> (r: UniPolynomialQ)
    requires
        uni_wf(p.coeffs_low_to_high@),
    ensures
        r.variable == p.variable,
        uni_normalized(r),
        canonical_coeffs_of(
            r.coeffs_low_to_high@,
            (if p.coeffs_low_to_high@.len() > 0 { p.coeffs_low_to_high@.len() - 1 } else { 0 }) as nat,
            |i: int| (p.coeffs_low_to_high@[i + 1].num@ * (i + 1), p.coeffs_low_to_high@[i + 1].den@),
        ),
        forall|i: int| r.coeffs_low_to_high@.len() + 1 <= i < p.coeffs_low_to_high@.len() ==> (#[trigger] p.coeffs_low_to_high@[i]).num@ == 0,
        values_of(r.coeffs_low_to_high@) == vderiv(values_of(p.coeffs_low_to_high@)),
        forall|i: int| 0 <= i < r.coeffs_low_to_high@.len() ==> is_canonical(#[trigger] r.coeffs_low_to_high@[i]),
{
    let ghost cs = p.coeffs_low_to_high@;
    let ghost f = |i: int| (cs[i + 1].num@ * (i + 1), cs[i + 1].den@);
    let mut coeffs: Vec<RationalQ> = Vec::new();
    let n = p.coeffs_low_to_high.len();
    let mut i: usize = 1;
    while i < n
        invariant
            1 <= i,
            n > 0 ==> i <= n,
            n == 0 ==> i == 1,
            n == cs.len(),
            cs == p.coeffs_low_to_high@,
            uni_wf(cs),
            coeffs@.len() == i - 1,
            forall|j: int| 0 <= j < coeffs@.len() ==> is_canonical(#[trigger] coeffs@[j]) && same_ratio(coeffs@[j].num@, coeffs@[j].den@, cs[j + 1].num@ * (j + 1), cs[j + 1].den@),
        decreases n - i,
    {
        let k = RationalQ { num: from_usize(i), den: BigInt::one() };
        let c = mul_q(&p.coeffs_low_to_high[i], &k);
        coeffs.push(c);
        i += 1;
    }
    let ghost len: nat = (if cs.len() > 0 { cs.len() - 1 } else { 0 }) as nat;
    proof {
        assert forall|j: int| 0 <= j < len implies (#[trigger] f(j)).1 != 0 by {
            assert(cs[j + 1].den@ != 0);
        }
        lemma_strip_canonical(coeffs@, len, f);
        let s = strip_zeros(coeffs@);
        assert forall|k: int| s.len() + 1 <= k < cs.len() implies (#[trigger] cs[k]).num@ == 0 by {
            assert(f(k - 1).0 == 0);
            lemma_mul_nonzero(cs[k].num@, k);
        }
    }
    let hash = hash_sequence("univariate", &[]);
    let r = normalize_univariate(UniPolynomialQ { variable: p.variable, coeffs_low_to_high: coeffs, hash });
    proof {
        lemma_deriv_values(cs, r.coeffs_low_to_high@);
    }
    r
}

/// The values of the derivative's coefficients are those of `vderiv`.
proof fn lemma_deriv_values(p: Seq<RationalQ>, r: Seq<RationalQ>)
    requires
        uni_wf(p),
        canonical_coeffs_of(
            r,
            (if p.len() > 0 { p.len() - 1 } else { 0 }) as nat,
            |i: int| (p[i + 1].num@ * (i + 1), p[i + 1].den@),
        ),
    ensures
        values_of(r) == vderiv(values_of(p)),
        forall|i: int| 0 <= i < r.len() ==> is_canonical(#[trigger] r[i]),
{
    let len: nat = (if p.len() > 0 { p.len() - 1 } else { 0 }) as nat;
    let f = |i: int| (p[i + 1].num@ * (i + 1), p[i + 1].den@);
    assert forall|i: int| 0 <= i < len implies (#[trigger] f(i)).1 != 0 by {
        assert(p[i + 1].den@ != 0);
    }
    lemma_coeffs_values(r, len, f);
    let v = values_of(p);
    assert forall|i: int| 0 <= i < len implies canon(f(i).0, f(i).1) == #[trigger] canon(v[i + 1].0 * (i + 1), v[i + 1].1) by {
        let n = p[i + 1].num@;
        let d = p[i + 1].den@;
        assert(d != 0);
        lemma_canon(n, d);
        let c = canon(n, d);
        assert(v[i + 1] == c);
        assert((n * (i + 1)) * c.1 == (c.0 * (i + 1)) * d) by (nonlinear_arith)
            requires
                c.0 * d == n * c.1,
        ;
        lemma_canon_congr(n * (i + 1), d, c.0 * (i + 1), c.1);
    }
    assert(Seq::new(len, |i: int| canon(f(i).0, f(i).1)) =~= Seq::new(len, |i: int| canon(v[i + 1].0 * (i + 1), v[i + 1].1)));
}

/// `a - b`, coefficient by coefficient.
fn sub_uni(a: &UniPolynomialQ, b: &UniPolynomialQ) -> (r: UniPolynomialQ)
    requires
        uni_wf(a.coeffs_low_to_high@),
        uni_wf(b.coeffs_low_to_high@),
    ensures
        r.variable == a.variable,
        uni_normalized(r),
        canonical_coeffs_of(
            r.coeffs_low_to_high@,
            (if a.coeffs_low_to_high@.len() >= b.coeffs_low_to_high@.len() { a.coeffs_low_to_high@.len() } else { b.coeffs_low_to_high@.len() }) as nat,
            |i: int| {
                let x = coeff_at(a.coeffs_low_to_high@, i);
                let y = coeff_at(b.coeffs_low_to_high@, i);
                (x.0 * y.1 - y.0 * x.1, x.1 * y.1)
            },
        ),
{
    let ghost ac = a.coeffs_low_to_high@;
    let ghost bc = b.coeffs_low_to_high@;
    let ghost f = |i: int| {
        let x = coeff_at(ac, i);
        let y = coeff_at(bc, i);
        (x.0 * y.1 - y.0 * x.1, x.1 * y.1)
    };
    let na = a.coeffs_low_to_high.len();
    let nb = b.coeffs_low_to_high.len();
    let n = if na >= nb { na } else { nb };
    let mut coeffs: Vec<RationalQ> = Vec::new();
    for i in 0..n
        invariant
            na == ac.len(),
            nb == bc.len(),
            ac == a.coeffs_low_to_high@,
            bc == b.coeffs_low_to_high@,
            uni_wf(ac),
            uni_wf(bc),
            coeffs@.len() == i,
            forall|j: int| 0 <= j < coeffs@.len() ==> is_canonical(#[trigger] coeffs@[j]) && same_ratio(
                coeffs@[j].num@,
                coeffs@[j].den@,
                coeff_at(ac, j).0 * coeff_at(bc, j).1 - coeff_at(bc, j).0 * coeff_at(ac, j).1,
                coeff_at(ac, j).1 * coeff_at(bc, j).1,
            ),
    {
        let z1 = zero_q();
        let z2 = zero_q();
        let ai = if i < na { &a.coeffs_low_to_high[i] } else { &z1 };
        let bi = if i < nb { &b.coeffs_low_to_high[i] } else { &z2 };
        let c = sub_q(ai, bi);
        coeffs.push(c);
    }
    proof {
        assert forall|j: int| 0 <= j < n implies (#[trigger] f(j)).1 != 0 by {
            let x = coeff_at(ac, j);
            let y = coeff_at(bc, j);
            assert(x.1 != 0 && y.1 != 0);
            assert(x.1 * y.1 != 0) by (nonlinear_arith)
                requires
                    x.1 != 0,
                    y.1 != 0,
            ;
        }
        lemma_strip_canonical(coeffs@, n as nat, f);
    }
    let hash = hash_sequence("univariate", &[]);
    normalize_univariate(UniPolynomialQ { variable: a.variable, coeffs_low_to_high: coeffs, hash })
}

proof fn lemma_canonical_one(q: RationalQ)
    requires
        is_canonical(q),
        q.num@ == q.den@,
    ensures
        q.num@ == 1,
        q.den@ == 1,
{
    let n = q.num@;
    assert(n > 0);
    assert(spec_gcd(n as nat, n as nat) == spec_gcd(n as nat, (n % n) as nat));
    assert(n % n == 0) by (nonlinear_arith)
        requires
            n > 0,
    ;
    assert(spec_gcd(n as nat, 0) == n);
}

/// Every coefficient divided by the leading one; the zero polynomial stays zero.
fn make_monic(p: &UniPolynomialQ) -> (r: UniPolynomialQ)
    requires
        uni_wf(p.coeffs_low_to_high@),
        is_stripped(p.coeffs_low_to_high@),
    ensures
        r.variable == p.variable,
        uni_normalized(r),
        r.coeffs_low_to_high@.len() == p.coeffs_low_to_high@.len(),
        uni_wf(r.coeffs_low_to_high@),
        p.coeffs_low_to_high@.len() > 0 ==> canonical_coeffs_of(
            r.coeffs_low_to_high@,
            p.coeffs_low_to_high@.len(),
            |i: int| (
                p.coeffs_low_to_high@[i].num@ * p.coeffs_low_to_high@.last().den@,
                p.coeffs_low_to_high@[i].den@ * p.coeffs_low_to_high@.last().num@,
            ),
        ),
        p.coeffs_low_to_high@.len() > 0 ==> r.coeffs_low_to_high@.last().num@ == 1 && r.coeffs_low_to_high@.last().den@ == 1,
        p.coeffs_low_to_high@.len() == 0 ==> r.coeffs_low_to_high@.len() == 0,
        values_of(r.coeffs_low_to_high@) == vmonic(values_of(p.coeffs_low_to_high@)),
        forall|i: int| 0 <= i < r.coeffs_low_to_high@.len() ==> is_canonical(#[trigger] r.coeffs_low_to_high@[i]),
{
    let ghost cs = p.coeffs_low_to_high@;
    let n = p.coeffs_low_to_high.len();
    if n == 0 {
        let hash = hash_sequence("univariate", &[]);
        let empty: Vec<RationalQ> = Vec::new();
        proof {
            assert(strip_zeros(empty@) == empty@);
        }
        return normalize_univariate(UniPolynomialQ { variable: p.variable, coeffs_low_to_high: empty, hash });
    }
    let lc = &p.coeffs_low_to_high[n - 1];
    let ghost f = |i: int| (cs[i].num@ * cs.last().den@, cs[i].den@ * cs.last().num@);
    let mut coeffs: Vec<RationalQ> = Vec::new();
    for i in 0..n
        invariant
            n == cs.len(),
            n > 0,
            cs == p.coeffs_low_to_high@,
            *lc == cs.last(),
            uni_wf(cs),
            is_stripped(cs),
            coeffs@.len() == i,
            forall|j: int| 0 <= j < coeffs@.len() ==> is_canonical(#[trigger] coeffs@[j]) && same_ratio(
                coeffs@[j].num@,
                coeffs@[j].den@,
                cs[j].num@ * cs.last().den@,
                cs[j].den@ * cs.last().num@,
            ),
    {
        let q = div_q(&p.coeffs_low_to_high[i], lc).unwrap();
        coeffs.push(q);
    }
    proof {
        assert forall|j: int| 0 <= j < n implies (#[trigger] f(j)).1 != 0 by {
            assert(cs[j].den@ != 0);
            assert(cs[j].den@ * cs.last().num@ != 0) by (nonlinear_arith)
                requires
                    cs[j].den@ != 0,
                    cs.last().num@ != 0,
            ;
        }
        let last = coeffs@[n - 1];
        let a = cs.last().num@;
        let b = cs.last().den@;
        assert(last.num@ * (b * a) == (a * b) * last.den@);
        assert(last.num@ == last.den@) by (nonlinear_arith)
            requires
                last.num@ * (b * a) == (a * b) * last.den@,
                a != 0,
                b != 0,
        ;
        lemma_canonical_one(last);
        assert(coeffs@.drop_last() == coeffs@.take(n - 1));
        assert(strip_zeros(coeffs@) == coeffs@);
        lemma_strip_canonical(coeffs@, n as nat, f);
    }
    let hash = hash_sequence("univariate", &[]);
    let r = normalize_univariate(UniPolynomialQ { variable: p.variable, coeffs_low_to_high: coeffs, hash });
    proof {
        lemma_monic_values(cs, r.coeffs_low_to_high@);
    }
    r
}

/// The values of a monic copy are the values divided by the leading one.
proof fn lemma_monic_values(p: Seq<RationalQ>, r: Seq<RationalQ>)
    requires
        uni_wf(p),
        is_stripped(p),
        p.len() > 0,
        canonical_coeffs_of(r, p.len(), |i: int| (p[i].num@ * p.last().den@, p[i].den@ * p.last().num@)),
    ensures
        values_of(r) == vmonic(values_of(p)),
{
    let f = |i: int| (p[i].num@ * p.last().den@, p[i].den@ * p.last().num@);
    assert forall|i: int| 0 <= i < p.len() implies (#[trigger] f(i)).1 != 0 by {
        assert(p[i].den@ * p.last().num@ != 0) by (nonlinear_arith)
            requires
                p[i].den@ != 0,
                p.last().num@ != 0,
        ;
    }
    lemma_coeffs_values(r, p.len(), f);
    let v = values_of(p);
    assert(Seq::new(p.len(), |i: int| canon(f(i).0, f(i).1)) =~= Seq::new(p.len(), |i: int| qdiv(v[i], v.last()))) by {
        assert forall|i: int| 0 <= i < p.len() implies canon(f(i).0, f(i).1) == qdiv(v[i], v.last()) by {
            lemma_qdiv_raw((p[i].num@, p[i].den@), (p.last().num@, p.last().den@));
        }
    }
}

// ----- evaluation -----

/// The value at `xn / xd` by Horner's rule: `c0 + x * (c1 + x * (...))`, as a fraction.
pub open spec fn horner(cs: Seq<RationalQ>, xn: int, xd: int) -> (int, int)
    decreases cs.len(),
{
    if cs.len() == 0 {
        (0, 1)
    } else {
        let h = horner(cs.drop_first(), xn, xd);
        let c = cs[0];
        (c.num@ * (xd * h.1) + xn * h.0 * c.den@, c.den@ * (xd * h.1))
    }
}

proof fn lemma_horner_den(cs: Seq<RationalQ>, xn: int, xd: int)
    requires
        uni_wf(cs),
        xd != 0,
    ensures
        horner(cs, xn, xd).1 != 0,
    decreases cs.len(),
{
    if cs.len() > 0 {
        let d = cs.drop_first();
        assert(uni_wf(d)) by {
            assert forall|i: int| 0 <= i < d.len() implies (#[trigger] d[i]).den@ != 0 by {
                assert(d[i] == cs[i + 1]);
            }
        }
        lemma_horner_den(d, xn, xd);
        let h = horner(d, xn, xd);
        assert(cs[0].den@ != 0);
        assert(cs[0].den@ * (xd * h.1) != 0) by (nonlinear_arith)
            requires
                cs[0].den@ != 0,
                xd != 0,
                h.1 != 0,
        ;
    }
}

/// Cross-multiplication is transitive through a middle fraction with a nonzero denominator.
pub proof fn lemma_ratio_trans(a0: int, a1: int, b0: int, b1: int, c0: int, c1: int)
    requires
        b1 != 0,
        a0 * b1 == b0 * a1,
        b0 * c1 == c0 * b1,
    ensures
        a0 * c1 == c0 * a1,
{
    assert((a0 * c1) * b1 == (a0 * b1) * c1) by (nonlinear_arith);
    assert((b0 * a1) * c1 == a1 * (b0 * c1)) by (nonlinear_arith);
    assert(a1 * (c0 * b1) == (c0 * a1) * b1) by (nonlinear_arith);
    assert(b1 * (a0 * c1) == (a0 * c1) * b1) by (nonlinear_arith);
    assert(b1 * (c0 * a1) == (c0 * a1) * b1) by (nonlinear_arith);
    lemma_mul_equality_converse(b1, a0 * c1, c0 * a1);
}

proof fn lemma_ratio_mul(a0: int, a1: int, h0: int, h1: int, x0: int, x1: int)
    requires
        a0 * h1 == h0 * a1,
    ensures
        (a0 * x0) * (h1 * x1) == (h0 * x0) * (a1 * x1),
{
    assert((a0 * x0) * (h1 * x1) == (a0 * h1) * (x0 * x1)) by (nonlinear_arith);
    assert((h0 * x0) * (a1 * x1) == (h0 * a1) * (x0 * x1)) by (nonlinear_arith);
}

proof fn lemma_horner_step(
    an: int,
    ad: int,
    h0: int,
    h1: int,
    xn: int,
    xd: int,
    mn: int,
    md: int,
    cn: int,
    cd: int,
    rn: int,
    rd: int,
)
    requires
        ad != 0,
        h1 != 0,
        xd != 0,
        md != 0,
        cd != 0,
        rd != 0,
        same_ratio(an, ad, h0, h1),
        same_ratio(mn, md, an * xn, ad * xd),
        same_ratio(rn, rd, mn * cd + cn * md, md * cd),
    ensures
        same_ratio(rn, rd, cn * (xd * h1) + xn * h0 * cd, cd * (xd * h1)),
{
    lemma_ratio_mul(an, ad, h0, h1, xn, xd);
    lemma_mul_nonzero(ad, xd);
    lemma_mul_nonzero(h1, xd);
    lemma_ratio_trans(mn, md, an * xn, ad * xd, h0 * xn, h1 * xd);
    lemma_ratio_add(rn, rd, mn, md, h0 * xn, h1 * xd, cn, cd);
    assert((h1 * xd) * cd == cd * (xd * h1)) by (nonlinear_arith);
    assert((h0 * xn) * cd + cn * (h1 * xd) == cn * (xd * h1) + xn * h0 * cd) by (nonlinear_arith);
}

/// The value at `x`, in lowest terms.
pub fn eval_uni_q(p: &UniPolynomialQ, x: &RationalQ) -> (r: RationalQ)
    requires
        uni_wf(p.coeffs_low_to_high@),
        x.den@ != 0,
    ensures
        is_canonical(r),
        same_ratio(r.num@, r.den@, horner(p.coeffs_low_to_high@, x.num@, x.den@).0, horner(p.coeffs_low_to_high@, x.num@, x.den@).1),
{
    let ghost cs = p.coeffs_low_to_high@;
    let n = p.coeffs_low_to_high.len();
    let mut acc = zero_q();
    let mut i: usize = n;
    proof {
        assert(cs.subrange(n as int, n as int) == Seq::<RationalQ>::empty());
    }
    while i > 0
        invariant
            i <= n,
            n == cs.len(),
            cs == p.coeffs_low_to_high@,
            uni_wf(cs),
            x.den@ != 0,
            acc.den@ != 0,
            i == n ==> is_canonical(acc) || (acc.num@ == 0 && acc.den@ == 1),
            i < n ==> is_canonical(acc),
            same_ratio(acc.num@, acc.den@, horner(cs.subrange(i as int, n as int), x.num@, x.den@).0, horner(cs.subrange(i as int, n as int), x.num@, x.den@).1),
        decreases i,
    {
        let ghost tail = cs.subrange(i as int, n as int);
        let ghost next = cs.subrange(i - 1, n as int);
        proof {
            assert(next.drop_first() == tail);
            assert(next[0] == cs[i - 1]);
            assert(uni_wf(tail)) by {
                assert forall|k: int| 0 <= k < tail.len() implies (#[trigger] tail[k]).den@ != 0 by {
                    assert(tail[k] == cs[i + k]);
                }
            }
            lemma_horner_den(tail, x.num@, x.den@);
        }
        let m = mul_q(&acc, x);
        let c = &p.coeffs_low_to_high[i - 1];
        let r = add_q(&m, c);
        proof {
            let h = horner(tail, x.num@, x.den@);
            lemma_horner_step(acc.num@, acc.den@, h.0, h.1, x.num@, x.den@, m.num@, m.den@, c.num@, c.den@, r.num@, r.den@);
        }
        acc = r;
        i -= 1;
    }
    proof {
        assert(cs.subrange(0, n as int) == cs);
    }
    if n == 0 {
        proof {
            assert(spec_gcd(0, 1) == spec_gcd(1, 0));
        }
    }
    acc
}

// ----- division -----

proof fn lemma_quotient_cancel(rtn: int, rtd: int, bn: int, bd: int, sn: int, sd: int, yn: int, yd: int)
    requires
        rtd != 0,
        bn != 0,
        bd != 0,
        sd != 0,
        yd != 0,
        same_ratio(sn, sd, rtn * bd, rtd * bn),
        same_ratio(yn, yd, bn * sn, bd * sd),
    ensures
        same_ratio(yn, yd, rtn, rtd),
{
    assert((bn * sn) * rtd == rtn * (bd * sd)) by (nonlinear_arith)
        requires
            sn * (rtd * bn) == (rtn * bd) * sd,
    ;
    lemma_mul_nonzero(bd, sd);
    lemma_ratio_trans(yn, yd, bn * sn, bd * sd, rtn, rtd);
}

proof fn lemma_stripped_is_fixed(cs: Seq<RationalQ>)
    requires
        is_stripped(cs),
    ensures
        strip_zeros(cs) == cs,
{
}

/// The values of the coefficients, each in lowest terms.
pub open spec fn values_of(cs: Seq<RationalQ>) -> Seq<(int, int)> {
    cs.map_values(|c: RationalQ| canon(c.num@, c.den@))
}

/// A coefficient in lowest terms is its own value.
pub proof fn lemma_canonical_value(c: RationalQ)
    requires
        is_canonical(c),
    ensures
        canon(c.num@, c.den@) == (c.num@, c.den@),
{
    lemma_canon_of_reduced((c.num@, c.den@), c.num@, c.den@);
}

/// Stripping zero coefficients commutes with taking values.
pub proof fn lemma_strip_values(cs: Seq<RationalQ>)
    requires
        uni_wf(cs),
    ensures
        values_of(strip_zeros(cs)) == vstrip(values_of(cs)),
    decreases cs.len(),
{
    let v = values_of(cs);
    if cs.len() > 0 {
        lemma_canon_nonzero(cs.last().num@, cs.last().den@);
        assert(v.last() == canon(cs.last().num@, cs.last().den@));
        if cs.last().num@ == 0 {
            let d = cs.drop_last();
            assert(values_of(d) =~= v.drop_last());
            lemma_strip_values(d);
        }
    } else {
        assert(v.len() == 0);
    }
}

/// Coefficients with the same numerators and denominators have the same values.
pub proof fn lemma_same_values(x: Seq<RationalQ>, y: Seq<RationalQ>)
    requires
        x.len() == y.len(),
        forall|i: int| 0 <= i < x.len() ==> (#[trigger] x[i]).num@ == y[i].num@ && x[i].den@ == y[i].den@,
    ensures
        values_of(x) == values_of(y),
{
    assert(values_of(x) =~= values_of(y));
}

/// Coefficients given by `canonical_coeffs_of` have the values of `f`, stripped.
pub proof fn lemma_coeffs_values(out: Seq<RationalQ>, len: nat, f: spec_fn(int) -> (int, int))
    requires
        canonical_coeffs_of(out, len, f),
        forall|i: int| 0 <= i < len ==> (#[trigger] f(i)).1 != 0,
    ensures
        values_of(out) == vstrip(Seq::new(len, |i: int| canon(f(i).0, f(i).1))),
{
    let g = Seq::new(len, |i: int| canon(f(i).0, f(i).1));
    let k = out.len() as int;
    assert forall|i: int| 0 <= i < k implies #[trigger] values_of(out)[i] == g[i] by {
        let c = out[i];
        lemma_canonical_value(c);
        lemma_canon_of_reduced((c.num@, c.den@), f(i).0, f(i).1);
    }
    assert forall|i: int| k <= i < g.len() implies (#[trigger] g[i]).0 == 0 by {
        lemma_canon_zero(f(i).0, f(i).1);
    }
    if k > 0 {
        assert(g[k - 1] == values_of(out)[k - 1]);
        lemma_canonical_value(out[k - 1]);
    }
    lemma_vstrip_prefix(g, k);
    assert(values_of(out) =~= g.take(k));
}

/// `b` scaled by `scale` and shifted up by `shift` positions.
fn shifted_multiple(b: &Vec<RationalQ>, scale: &RationalQ, shift: usize) -> (out: Vec<RationalQ>)
    requires
        uni_wf(b@),
        scale.den@ != 0,
    ensures
        out@.len() == shift + b@.len(),
        uni_wf(out@),
        forall|k: int| 0 <= k < shift ==> (#[trigger] out@[k]).num@ == 0,
        forall|k: int|
            0 <= k < b@.len() ==> is_canonical(#[trigger] out@[shift + k]) && same_ratio(
                out@[shift + k].num@,
                out@[shift + k].den@,
                b@[k].num@ * scale.num@,
                b@[k].den@ * scale.den@,
            ),
{
    let mut out: Vec<RationalQ> = Vec::new();
    for k in 0..shift
        invariant
            out@.len() == k,
            forall|j: int| 0 <= j < k ==> (#[trigger] out@[j]).num@ == 0 && out@[j].den@ == 1,
    {
        out.push(zero_q());
    }
    let n = b.len();
    for k in 0..n
        invariant
            n == b@.len(),
            uni_wf(b@),
            scale.den@ != 0,
            out@.len() == shift + k,
            forall|j: int| 0 <= j < shift ==> (#[trigger] out@[j]).num@ == 0 && out@[j].den@ == 1,
            forall|j: int|
                0 <= j < k ==> is_canonical(#[trigger] out@[shift + j]) && same_ratio(
                    out@[shift + j].num@,
                    out@[shift + j].den@,
                    b@[j].num@ * scale.num@,
                    b@[j].den@ * scale.den@,
                ),
    {
        let c = mul_q(&b[k], scale);
        out.push(c);
    }
    proof {
        assert forall|j: int| 0 <= j < out@.len() implies (#[trigger] out@[j]).den@ != 0 by {
            if j >= shift {
                assert(out@[shift + (j - shift)] == out@[j]);
            }
        }
    }
    out
}

/// One step of long division: cancels the leading coefficient of `r` with a multiple of `b`.
fn reduce_step(r: &UniPolynomialQ, b: &UniPolynomialQ) -> (res: (UniPolynomialQ, RationalQ))
    requires
        uni_wf(r.coeffs_low_to_high@),
        is_stripped(r.coeffs_low_to_high@),
        uni_wf(b.coeffs_low_to_high@),
        is_stripped(b.coeffs_low_to_high@),
        b.coeffs_low_to_high@.len() > 0,
        r.coeffs_low_to_high@.len() >= b.coeffs_low_to_high@.len(),
    ensures
        res.0.variable == r.variable,
        uni_normalized(res.0),
        uni_wf(res.0.coeffs_low_to_high@),
        res.0.coeffs_low_to_high@.len() < r.coeffs_low_to_high@.len(),
        is_canonical(res.1),
        same_ratio(
            res.1.num@,
            res.1.den@,
            r.coeffs_low_to_high@.last().num@ * b.coeffs_low_to_high@.last().den@,
            r.coeffs_low_to_high@.last().den@ * b.coeffs_low_to_high@.last().num@,
        ),
        values_of(res.0.coeffs_low_to_high@) == vreduce(values_of(r.coeffs_low_to_high@), values_of(b.coeffs_low_to_high@)),
        (res.1.num@, res.1.den@) == qdiv(values_of(r.coeffs_low_to_high@).last(), values_of(b.coeffs_low_to_high@).last()),
        forall|i: int| 0 <= i < res.0.coeffs_low_to_high@.len() ==> is_canonical(#[trigger] res.0.coeffs_low_to_high@[i]),
{
    let rl = r.coeffs_low_to_high.len();
    let bl = b.coeffs_low_to_high.len();
    let shift = rl - bl;
    let ghost rt = r.coeffs_low_to_high@[rl - 1];
    let ghost bt = b.coeffs_low_to_high@[bl - 1];
    let scale = div_q(&r.coeffs_low_to_high[rl - 1], &b.coeffs_low_to_high[bl - 1]).unwrap();
    let subtract = shifted_multiple(&b.coeffs_low_to_high, &scale, shift);
    proof {
        assert(rt.num@ * bt.den@ != 0) by (nonlinear_arith)
            requires
                rt.num@ != 0,
                bt.den@ != 0,
        ;
        assert(rt.den@ * bt.num@ != 0) by (nonlinear_arith)
            requires
                rt.den@ != 0,
                bt.num@ != 0,
        ;
        lemma_ratio_zero(scale.num@, scale.den@, rt.num@ * bt.den@, rt.den@ * bt.num@);
        let y = subtract@[shift + (bl - 1)];
        assert(subtract@[rl - 1] == y);
        assert(bt.num@ * scale.num@ != 0) by (nonlinear_arith)
            requires
                bt.num@ != 0,
                scale.num@ != 0,
        ;
        assert(bt.den@ * scale.den@ != 0) by (nonlinear_arith)
            requires
                bt.den@ != 0,
                scale.den@ != 0,
        ;
        lemma_ratio_zero(y.num@, y.den@, bt.num@ * scale.num@, bt.den@ * scale.den@);
        lemma_stripped_is_fixed(subtract@);
        lemma_quotient_cancel(rt.num@, rt.den@, bt.num@, bt.den@, scale.num@, scale.den@, y.num@, y.den@);
    }
    let hash = hash_sequence("univariate", &[]);
    let rhs = normalize_univariate(UniPolynomialQ { variable: r.variable, coeffs_low_to_high: subtract, hash });
    let next = sub_uni(r, &rhs);
    proof {
        let rc = r.coeffs_low_to_high@;
        let hc = rhs.coeffs_low_to_high@;
        let nc = next.coeffs_low_to_high@;
        assert(hc.len() == rl);
        let x = coeff_at(rc, rl - 1);
        let y = coeff_at(hc, rl - 1);
        assert(x.0 * y.1 - y.0 * x.1 == 0);
        if nc.len() == rl {
            let e = nc[rl - 1];
            assert(x.1 * y.1 != 0) by (nonlinear_arith)
                requires
                    x.1 != 0,
                    y.1 != 0,
            ;
            lemma_ratio_zero(e.num@, e.den@, x.0 * y.1 - y.0 * x.1, x.1 * y.1);
            assert(false);
        }
        assert forall|k: int| 0 <= k < nc.len() implies (#[trigger] nc[k]).den@ != 0 by {
            assert(is_canonical(nc[k]));
        }
        lemma_reduce_values(r.coeffs_low_to_high@, b.coeffs_low_to_high@, rhs.coeffs_low_to_high@, nc, scale, shift as int);
    }
    (next, scale)
}

/// The values computed by one long-division step are those of `vreduce`.
proof fn lemma_reduce_values(
    r: Seq<RationalQ>,
    b: Seq<RationalQ>,
    h: Seq<RationalQ>,
    next: Seq<RationalQ>,
    scale: RationalQ,
    shift: int,
)
    requires
        uni_wf(r),
        uni_wf(b),
        is_stripped(r),
        is_stripped(b),
        b.len() > 0,
        shift == r.len() - b.len(),
        shift >= 0,
        is_canonical(scale),
        same_ratio(scale.num@, scale.den@, r.last().num@ * b.last().den@, r.last().den@ * b.last().num@),
        h.len() == r.len(),
        uni_wf(h),
        forall|k: int| 0 <= k < shift ==> (#[trigger] h[k]).num@ == 0,
        forall|k: int|
            0 <= k < b.len() ==> is_canonical(#[trigger] h[shift + k]) && same_ratio(
                h[shift + k].num@,
                h[shift + k].den@,
                b[k].num@ * scale.num@,
                b[k].den@ * scale.den@,
            ),
        canonical_coeffs_of(
            next,
            r.len(),
            |i: int| {
                let x = coeff_at(r, i);
                let y = coeff_at(h, i);
                (x.0 * y.1 - y.0 * x.1, x.1 * y.1)
            },
        ),
    ensures
        values_of(next) == vreduce(values_of(r), values_of(b)),
        (scale.num@, scale.den@) == qdiv(values_of(r).last(), values_of(b).last()),
{
    let vr = values_of(r);
    let vb = values_of(b);
    lemma_canonical_value(scale);
    assert(r.last().den@ * b.last().num@ != 0) by (nonlinear_arith)
        requires
            r.last().den@ != 0,
            b.last().num@ != 0,
    ;
    lemma_canon_of_reduced(
        (scale.num@, scale.den@),
        r.last().num@ * b.last().den@,
        r.last().den@ * b.last().num@,
    );
    assert(vr.last() == canon(r.last().num@, r.last().den@));
    assert(vb.last() == canon(b.last().num@, b.last().den@));
    lemma_qdiv_raw((r.last().num@, r.last().den@), (b.last().num@, b.last().den@));
    let s = qdiv(vr.last(), vb.last());
    assert((scale.num@, scale.den@) == s);
    let f = |i: int| {
        let x = coeff_at(r, i);
        let y = coeff_at(h, i);
        (x.0 * y.1 - y.0 * x.1, x.1 * y.1)
    };
    assert forall|i: int| 0 <= i < r.len() implies (#[trigger] f(i)).1 != 0 by {
        assert(r[i].den@ * h[i].den@ != 0) by (nonlinear_arith)
            requires
                r[i].den@ != 0,
                h[i].den@ != 0,
        ;
    }
    lemma_coeffs_values(next, r.len(), f);
    let g = |i: int|
        qsub(
            vr[i],
            if i < shift {
                (0int, 1int)
            } else {
                qmul(vb[i - shift], s)
            },
        );
    assert forall|i: int| 0 <= i < r.len() implies canon(f(i).0, f(i).1) == #[trigger] g(i) by {
        lemma_qsub_raw((r[i].num@, r[i].den@), (h[i].num@, h[i].den@));
        if i < shift {
            lemma_canon_zero(h[i].num@, h[i].den@);
        } else {
            let k = i - shift;
            assert(h[shift + k] == h[i]);
            lemma_canonical_value(h[i]);
            assert(b[k].den@ != 0);
            assert(b[k].den@ * scale.den@ != 0) by (nonlinear_arith)
                requires
                    b[k].den@ != 0,
                    scale.den@ > 0,
            ;
            lemma_canon_of_reduced((h[i].num@, h[i].den@), b[k].num@ * scale.num@, b[k].den@ * scale.den@);
            lemma_qmul_raw((b[k].num@, b[k].den@), (scale.num@, scale.den@));
        }
    }
    assert(Seq::new(r.len(), |i: int| canon(f(i).0, f(i).1)) =~= Seq::new(r.len(), g));
}

/// The remainder of `a` divided by the nonzero `b`.
fn rem_uni(a: &UniPolynomialQ, b: &UniPolynomialQ) -> (r: UniPolynomialQ)
    requires
        uni_wf(a.coeffs_low_to_high@),
        uni_wf(b.coeffs_low_to_high@),
        is_stripped(b.coeffs_low_to_high@),
        b.coeffs_low_to_high@.len() > 0,
    ensures
        r.variable == a.variable,
        uni_normalized(r),
        uni_wf(r.coeffs_low_to_high@),
        r.coeffs_low_to_high@.len() < b.coeffs_low_to_high@.len(),
        r.coeffs_low_to_high@.len() <= strip_zeros(a.coeffs_low_to_high@).len(),
        strip_zeros(a.coeffs_low_to_high@).len() < b.coeffs_low_to_high@.len() ==> r.coeffs_low_to_high@.len()
            == strip_zeros(a.coeffs_low_to_high@).len(),
        values_of(r.coeffs_low_to_high@) == vrem(values_of(a.coeffs_low_to_high@), values_of(b.coeffs_low_to_high@)),
        forall|i: int| 0 <= i < r.coeffs_low_to_high@.len() && r.coeffs_low_to_high@.len() < strip_zeros(a.coeffs_low_to_high@).len()
            ==> is_canonical(#[trigger] r.coeffs_low_to_high@[i]),
{
    let mut r = normalized_copy(a);
    let ghost vb = values_of(b.coeffs_low_to_high@);
    let ghost r0 = values_of(r.coeffs_low_to_high@);
    let ghost mut fuel: nat = a.coeffs_low_to_high@.len();
    proof {
        lemma_strip_prefix(a.coeffs_low_to_high@);
    }
    let ghost la = strip_zeros(a.coeffs_low_to_high@).len();
    assert(r.coeffs_low_to_high@.len() == la);
    while r.coeffs_low_to_high.len() >= b.coeffs_low_to_high.len()
        invariant
            r.variable == a.variable,
            uni_normalized(r),
            uni_wf(r.coeffs_low_to_high@),
            uni_wf(b.coeffs_low_to_high@),
            is_stripped(b.coeffs_low_to_high@),
            b.coeffs_low_to_high@.len() > 0,
            la == strip_zeros(a.coeffs_low_to_high@).len(),
            r.coeffs_low_to_high@.len() <= la,
            la < b.coeffs_low_to_high@.len() ==> r.coeffs_low_to_high@.len() == la,
            vb == values_of(b.coeffs_low_to_high@),
            r0 == vstrip(values_of(a.coeffs_low_to_high@)),
            fuel >= r.coeffs_low_to_high@.len(),
            vrem_fuel(values_of(r.coeffs_low_to_high@), vb, fuel) == vrem_fuel(r0, vb, a.coeffs_low_to_high@.len()),
            forall|i: int| 0 <= i < r.coeffs_low_to_high@.len() && r.coeffs_low_to_high@.len() < la
                ==> is_canonical(#[trigger] r.coeffs_low_to_high@[i]),
        decreases r.coeffs_low_to_high@.len(),
    {
        let ghost vr = values_of(r.coeffs_low_to_high@);
        let (next, _scale) = reduce_step(&r, b);
        proof {
            assert(vr.len() >= vb.len());
            assert(vrem_fuel(vr, vb, fuel) == vrem_fuel(vreduce(vr, vb), vb, (fuel - 1) as nat));
            fuel = (fuel - 1) as nat;
        }
        r = next;
    }
    r
}

pub proof fn lemma_strip_len_congruent(x: Seq<RationalQ>, y: Seq<RationalQ>)
    requires
        x.len() == y.len(),
        forall|i: int| 0 <= i < x.len() ==> (#[trigger] x[i]).num@ == y[i].num@,
    ensures
        strip_zeros(x).len() == strip_zeros(y).len(),
    decreases x.len(),
{
    if x.len() > 0 {
        let dx = x.drop_last();
        let dy = y.drop_last();
        assert forall|i: int| 0 <= i < dx.len() implies (#[trigger] dx[i]).num@ == dy[i].num@ by {
            assert(dx[i] == x[i] && dy[i] == y[i]);
        }
        lemma_strip_len_congruent(dx, dy);
        assert(x.last().num@ == y.last().num@);
    }
}

/// A normalized copy of `p` whose coefficients have nonzero denominators.
fn normalized_copy(p: &UniPolynomialQ) -> (r: UniPolynomialQ)
    requires
        uni_wf(p.coeffs_low_to_high@),
    ensures
        r.variable == p.variable,
        uni_normalized(r),
        uni_wf(r.coeffs_low_to_high@),
        r.coeffs_low_to_high@.len() == strip_zeros(p.coeffs_low_to_high@).len(),
        forall|k: int|
            0 <= k < r.coeffs_low_to_high@.len() ==> (#[trigger] r.coeffs_low_to_high@[k]).num@
                == p.coeffs_low_to_high@[k].num@ && r.coeffs_low_to_high@[k].den@ == p.coeffs_low_to_high@[k].den@,
        values_of(r.coeffs_low_to_high@) == vstrip(values_of(p.coeffs_low_to_high@)),
{
    let copy = copy_coeffs(p.coeffs_low_to_high.as_slice());
    proof {
        lemma_strip_prefix(copy@);
        lemma_strip_len_congruent(copy@, p.coeffs_low_to_high@);
    }
    let r = normalize_univariate(UniPolynomialQ { variable: p.variable, coeffs_low_to_high: copy, hash: p.hash });
    proof {
        let s = r.coeffs_low_to_high@;
        assert forall|k: int| 0 <= k < s.len() implies (#[trigger] s[k]).den@ != 0 by {
            assert(s[k] == copy@[k]);
        }
        assert forall|k: int| 0 <= k < s.len() implies (#[trigger] s[k]).num@ == p.coeffs_low_to_high@[k].num@
            && s[k].den@ == p.coeffs_low_to_high@[k].den@ by {
            assert(s[k] == copy@[k]);
        }
        lemma_same_values(copy@, p.coeffs_low_to_high@);
        lemma_strip_values(copy@);
    }
    r
}

/// The monic greatest common divisor by Euclid's algorithm; zero when both are zero.
pub fn gcd_uni(a: &UniPolynomialQ, b: &UniPolynomialQ) -> (r: UniPolynomialQ)
    requires
        a.variable == b.variable,
        uni_wf(a.coeffs_low_to_high@),
        uni_wf(b.coeffs_low_to_high@),
    ensures
        r.variable == a.variable,
        uni_normalized(r),
        uni_wf(r.coeffs_low_to_high@),
        r.coeffs_low_to_high@.len() == 0 <==> strip_zeros(a.coeffs_low_to_high@).len() == 0 && strip_zeros(
            b.coeffs_low_to_high@,
        ).len() == 0,
        r.coeffs_low_to_high@.len() > 0 ==> r.coeffs_low_to_high@.last().num@ == 1 && r.coeffs_low_to_high@.last().den@ == 1,
        strip_zeros(a.coeffs_low_to_high@).len() > 0 && strip_zeros(b.coeffs_low_to_high@).len() > 0
            ==> r.coeffs_low_to_high@.len() <= strip_zeros(a.coeffs_low_to_high@).len()
            && r.coeffs_low_to_high@.len() <= strip_zeros(b.coeffs_low_to_high@).len(),
        strip_zeros(b.coeffs_low_to_high@).len() == 0 && strip_zeros(a.coeffs_low_to_high@).len() > 0 ==> canonical_coeffs_of(
            r.coeffs_low_to_high@,
            strip_zeros(a.coeffs_low_to_high@).len(),
            |i: int| (
                a.coeffs_low_to_high@[i].num@ * a.coeffs_low_to_high@[strip_zeros(a.coeffs_low_to_high@).len() - 1].den@,
                a.coeffs_low_to_high@[i].den@ * a.coeffs_low_to_high@[strip_zeros(a.coeffs_low_to_high@).len() - 1].num@,
            ),
        ),
        strip_zeros(a.coeffs_low_to_high@).len() == 0 && strip_zeros(b.coeffs_low_to_high@).len() > 0 ==> canonical_coeffs_of(
            r.coeffs_low_to_high@,
            strip_zeros(b.coeffs_low_to_high@).len(),
            |i: int| (
                b.coeffs_low_to_high@[i].num@ * b.coeffs_low_to_high@[strip_zeros(b.coeffs_low_to_high@).len() - 1].den@,
                b.coeffs_low_to_high@[i].den@ * b.coeffs_low_to_high@[strip_zeros(b.coeffs_low_to_high@).len() - 1].num@,
            ),
        ),
        values_of(r.coeffs_low_to_high@) == vgcd(values_of(a.coeffs_low_to_high@), values_of(b.coeffs_low_to_high@)),
        forall|i: int| 0 <= i < r.coeffs_low_to_high@.len() ==> is_canonical(#[trigger] r.coeffs_low_to_high@[i]),
{
    let ghost la = strip_zeros(a.coeffs_low_to_high@).len();
    let ghost lb = strip_zeros(b.coeffs_low_to_high@).len();
    let ghost both_zero = la == 0 && lb == 0;
    let mut r0 = normalized_copy(a);
    let mut r1 = normalized_copy(b);
    let ghost r0_start = r0;
    let ghost r1_start = r1;
    let ghost mut k: int = 0;
    let ghost g = crate::types::uni_values::vgcd_fuel(
        vstrip(values_of(a.coeffs_low_to_high@)),
        vstrip(values_of(b.coeffs_low_to_high@)),
        b.coeffs_low_to_high@.len() + 1,
    );
    let ghost mut fuel: nat = b.coeffs_low_to_high@.len() + 1;
    proof {
        lemma_strip_prefix(b.coeffs_low_to_high@);
    }
    while r1.coeffs_low_to_high.len() > 0
        invariant
            r0.variable == a.variable,
            r1.variable == a.variable,
            uni_normalized(r0),
            uni_wf(r0.coeffs_low_to_high@),
            uni_normalized(r1),
            uni_wf(r1.coeffs_low_to_high@),
            both_zero <==> r0.coeffs_low_to_high@.len() == 0 && r1.coeffs_low_to_high@.len() == 0,
            k >= 0,
            k == 0 ==> r0 == r0_start && r1 == r1_start && r0.coeffs_low_to_high@.len() == la && r1.coeffs_low_to_high@.len() == lb,
            k >= 1 ==> r0.coeffs_low_to_high@.len() <= lb && r1.coeffs_low_to_high@.len() < r0.coeffs_low_to_high@.len()
                && r1.coeffs_low_to_high@.len() <= la,
            k == 1 ==> r0.coeffs_low_to_high@.len() == lb && (la < lb ==> r1.coeffs_low_to_high@.len() == la),
            k >= 2 ==> r0.coeffs_low_to_high@.len() <= la,
            la == 0 && k >= 1 ==> k == 1 && r0 == r1_start && r1.coeffs_low_to_high@.len() == 0,
            fuel > r1.coeffs_low_to_high@.len(),
            vgcd_fuel(values_of(r0.coeffs_low_to_high@), values_of(r1.coeffs_low_to_high@), fuel) == g,
        decreases r1.coeffs_low_to_high@.len(),
    {
        proof {
            assert(values_of(r1.coeffs_low_to_high@).len() > 0);
        }
        let r = rem_uni(&r0, &r1);
        proof {
            lemma_stripped_is_fixed(r0.coeffs_low_to_high@);
        }
        r0 = r1;
        r1 = r;
        proof {
            k = k + 1;
            fuel = (fuel - 1) as nat;
        }
    }
    proof {
        if k == 0 {
            assert(lb == 0);
        }
    }
    make_monic(&r0)
}

/// The quotient of `a` by `b` by long division (the remainder is dropped).
fn div_exact_uni(a: &UniPolynomialQ, b: &UniPolynomialQ) -> (q: UniPolynomialQ)
    requires
        uni_wf(a.coeffs_low_to_high@),
        uni_wf(b.coeffs_low_to_high@),
        is_stripped(b.coeffs_low_to_high@),
    ensures
        q.variable == a.variable,
        uni_normalized(q),
        uni_wf(q.coeffs_low_to_high@),
        b.coeffs_low_to_high@.len() == 0 ==> q.coeffs_low_to_high@.len() == strip_zeros(a.coeffs_low_to_high@).len(),
        b.coeffs_low_to_high@.len() > 0 ==> q.coeffs_low_to_high@.len() == 0 || q.coeffs_low_to_high@.len()
            + b.coeffs_low_to_high@.len() <= strip_zeros(a.coeffs_low_to_high@).len() + 1,
        values_of(q.coeffs_low_to_high@) == vdiv_exact(values_of(a.coeffs_low_to_high@), values_of(b.coeffs_low_to_high@)),
{
    let bl = b.coeffs_low_to_high.len();
    if bl == 0 {
        return normalized_copy(a);
    }
    let mut r = normalized_copy(a);
    let rl0 = r.coeffs_low_to_high.len();
    let q_len: usize = if rl0 == 0 {
        0
    } else if rl0 >= bl {
        rl0 - bl + 1
    } else {
        1
    };
    let mut q: Vec<RationalQ> = Vec::new();
    for k in 0..q_len
        invariant
            q@.len() == k,
            forall|j: int| 0 <= j < k ==> (#[trigger] q@[j]).num@ == 0 && q@[j].den@ == 1,
    {
        q.push(zero_q());
    }
    let ghost vb = values_of(b.coeffs_low_to_high@);
    let ghost q0 = Seq::new(vquot_len(rl0 as int, bl as int) as nat, |i: int| (0int, 1int));
    let ghost qf = vquot_fuel(values_of(r.coeffs_low_to_high@), vb, q0, rl0 as nat);
    let ghost mut fuel: nat = rl0 as nat;
    proof {
        crate::types::uni_values::lemma_zero_reduced();
        assert forall|j: int| 0 <= j < q@.len() implies is_canonical(#[trigger] q@[j]) by {}
        assert(values_of(q@) =~= q0) by {
            assert forall|j: int| 0 <= j < q@.len() implies #[trigger] values_of(q@)[j] == q0[j] by {
                lemma_canon_zero(q@[j].num@, q@[j].den@);
            }
        }
    }
    while r.coeffs_low_to_high.len() >= bl
        invariant
            vb == values_of(b.coeffs_low_to_high@),
            fuel >= r.coeffs_low_to_high@.len(),
            forall|j: int| 0 <= j < q@.len() ==> is_canonical(#[trigger] q@[j]),
            vquot_fuel(values_of(r.coeffs_low_to_high@), vb, values_of(q@), fuel) == qf,
            bl == b.coeffs_low_to_high@.len(),
            bl > 0,
            r.variable == a.variable,
            uni_normalized(r),
            uni_wf(r.coeffs_low_to_high@),
            uni_wf(b.coeffs_low_to_high@),
            is_stripped(b.coeffs_low_to_high@),
            r.coeffs_low_to_high@.len() <= rl0,
            q@.len() == q_len,
            uni_wf(q@),
            rl0 < bl ==> forall|j: int| 0 <= j < q@.len() ==> (#[trigger] q@[j]).num@ == 0,
            q_len == (if rl0 == 0 { 0 } else if rl0 >= bl { rl0 - bl + 1 } else { 1 }),
        decreases r.coeffs_low_to_high@.len(),
    {
        let shift = r.coeffs_low_to_high.len() - bl;
        let ghost vr = values_of(r.coeffs_low_to_high@);
        let ghost vq = values_of(q@);
        let (next, scale) = reduce_step(&r, b);
        let sum = add_q(&q[shift], &scale);
        proof {
            lemma_canonical_value(q@[shift as int]);
            lemma_canonical_value(scale);
            lemma_canonical_value(sum);
            assert(q@[shift as int].den@ * scale.den@ != 0) by (nonlinear_arith)
                requires
                    q@[shift as int].den@ > 0,
                    scale.den@ > 0,
            ;
            lemma_canon_of_reduced(
                (sum.num@, sum.den@),
                q@[shift as int].num@ * scale.den@ + scale.num@ * q@[shift as int].den@,
                q@[shift as int].den@ * scale.den@,
            );
            lemma_qadd_raw((q@[shift as int].num@, q@[shift as int].den@), (scale.num@, scale.den@));
        }
        q.set(shift, sum);
        proof {
            assert(values_of(q@) =~= vq.update(shift as int, qadd(vq[shift as int], qdiv(vr.last(), vb.last()))));
            assert forall|j: int| 0 <= j < q@.len() implies is_canonical(#[trigger] q@[j]) by {}
            fuel = (fuel - 1) as nat;
        }
        r = next;
    }
    proof {
        lemma_strip_prefix(q@);
        if rl0 < bl && strip_zeros(q@).len() > 0 {
            let s = strip_zeros(q@);
            assert(s[s.len() - 1] == q@[s.len() - 1]);
        }
        let s = strip_zeros(q@);
        assert forall|k: int| 0 <= k < s.len() implies (#[trigger] s[k]).den@ != 0 by {
            assert(s[k] == q@[k]);
        }
    }
    let hash = hash_sequence("univariate", &[]);
    let ghost qv = q@;
    let result = normalize_univariate(UniPolynomialQ { variable: a.variable, coeffs_low_to_high: q, hash });
    proof {
        assert forall|j: int| 0 <= j < qv.len() implies (#[trigger] qv[j]).den@ != 0 by {}
        lemma_strip_values(qv);
    }
    result
}

/// The monic squarefree part: `p / gcd(p, p')` made monic; a nonzero constant becomes 1,
/// zero stays zero.
pub fn squarefree_part_uni(p: &UniPolynomialQ) -> (r: UniPolynomialQ)
    requires
        uni_wf(p.coeffs_low_to_high@),
    ensures
        r.variable == p.variable,
        uni_normalized(r),
        uni_wf(r.coeffs_low_to_high@),
        r.coeffs_low_to_high@.len() <= strip_zeros(p.coeffs_low_to_high@).len(),
        strip_zeros(p.coeffs_low_to_high@).len() == 0 ==> r.coeffs_low_to_high@.len() == 0,
        r.coeffs_low_to_high@.len() > 0 ==> r.coeffs_low_to_high@.last().num@ == 1 && r.coeffs_low_to_high@.last().den@ == 1,
        strip_zeros(p.coeffs_low_to_high@).len() == 1 ==> r.coeffs_low_to_high@.len() == 1
            && r.coeffs_low_to_high@[0].num@ == 1 && r.coeffs_low_to_high@[0].den@ == 1,
        values_of(r.coeffs_low_to_high@) == vsquarefree(values_of(p.coeffs_low_to_high@)),
        forall|i: int| 0 <= i < r.coeffs_low_to_high@.len() ==> is_canonical(#[trigger] r.coeffs_low_to_high@[i]),
{
    let normalized = normalized_copy(p);
    let n = normalized.coeffs_low_to_high.len();
    if n == 0 {
        return normalized;
    }
    let derivative = derivative_uni(&normalized);
    if derivative.coeffs_low_to_high.len() == 0 {
        proof {
            let cs = normalized.coeffs_low_to_high@;
            if n > 1 {
                assert(cs[n - 1].num@ != 0);
            }
        }
        return make_monic(&normalized);
    }
    let gcd = gcd_uni(&normalized, &derivative);
    proof {
        lemma_stripped_is_fixed(normalized.coeffs_low_to_high@);
        lemma_stripped_is_fixed(derivative.coeffs_low_to_high@);
    }
    let q = div_exact_uni(&normalized, &gcd);
    proof {
        if n == 1 {
            let d = derivative.coeffs_low_to_high@;
            assert(d.len() <= 0);
        }
    }
    make_monic(&q)
}

} // verus!
