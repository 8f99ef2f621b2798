//! Sparse multivariate polynomials with exact rational coefficients.
use vstd::prelude::*;
use vstd::string::StringSliceAdditionalSpecFns;

use crate::types::bigint::{abs, big_div, big_gcd, big_lcm, big_mul, from_i64, spec_gcd, spec_lcm, trunc_div, BigInt};
use crate::types::hash;
use crate::types::ids::VariableId;
use crate::types::monomial::{
    copy_entries, entries_order, entries_order_exec, exponent_sum, is_normal_entries,
    lemma_entries_order_antisym, lemma_entries_order_trans, lemma_entries_order_zero,
    lemma_exponent_at, lemma_normal_form_of, lemma_total_of_normal, exponent_of, saturate,
    total_exponent, monomial_to_bytes, normal_form, normalize_monomial, occurs,
    spec_monomial_bytes, Monomial, monomial_mul, lemma_total_concat,
};
use crate::types::rational::{
    add_q, int_q, is_zero_q, mul_q, neg_q, rational_to_bytes, same_ratio, spec_rational_bytes,
    RationalQ,
};

verus! {

#[derive(Debug, Clone, PartialEq, Eq)]
pub struct TermQ {
    pub coeff: RationalQ,
    pub monomial: Monomial,
}

#[derive(Debug, Clone, PartialEq, Eq)]
pub struct SparsePolynomialQ {
    pub terms: Vec<TermQ>,
    pub hash: hash::Hash,
}

/// The number of stored terms.
pub fn poly_monomial_count(a: &SparsePolynomialQ) -> (n: usize)
    ensures
        n == a.terms@.len(),
{
    a.terms.len()
}

/// The largest term degree (0 for no terms).
pub open spec fn spec_total_degree(terms: Seq<TermQ>) -> nat
    decreases terms.len(),
{
    if terms.len() == 0 {
        0
    } else {
        let d = exponent_sum(terms.last().monomial.exponents@);
        let rest = spec_total_degree(terms.drop_last());
        if d >= rest {
            d
        } else {
            rest
        }
    }
}

/// Every term's exponents sum within `u32` (the original sums them in `u32`).
pub open spec fn degrees_fit_u32(terms: Seq<TermQ>) -> bool {
    forall|i: int| 0 <= i < terms.len() ==> exponent_sum(#[trigger] terms[i].monomial.exponents@) <= u32::MAX
}

pub fn poly_total_degree(a: &SparsePolynomialQ) -> (d: u32)
    requires
        degrees_fit_u32(a.terms@),
    ensures
        d == spec_total_degree(a.terms@),
{
    let n = a.terms.len();
    let mut best: u32 = 0;
    for i in 0..n
        invariant
            n == a.terms@.len(),
            degrees_fit_u32(a.terms@),
            best == spec_total_degree(a.terms@.take(i as int)),
    {
        proof {
            assert(a.terms@.take(i + 1).drop_last() == a.terms@.take(i as int));
            assert(a.terms@.take(i + 1).last() == a.terms@[i as int]);
        }
        let d = crate::types::monomial::monomial_degree(&a.terms[i].monomial);
        if d >= best {
            best = d;
        }
    }
    assert(a.terms@.take(n as int) == a.terms@);
    best
}

/// Canonical bytes of one term: coefficient bytes, then monomial bytes.
pub open spec fn term_bytes(t: TermQ) -> Seq<u8> {
    spec_rational_bytes(t.coeff) + spec_monomial_bytes(t.monomial)
}

pub open spec fn term_chunks(terms: Seq<TermQ>) -> Seq<Seq<u8>> {
    terms.map_values(|t: TermQ| term_bytes(t))
}

pub open spec fn spec_hash_terms(terms: Seq<TermQ>) -> Seq<u8> {
    hash::spec_hash_sequence("poly-terms".spec_bytes(), term_chunks(terms))
}

/// Hash of a term list: one chunk per term.
pub fn hash_terms(terms: &[TermQ]) -> (h: hash::Hash)
    ensures
        h.0@ == spec_hash_terms(terms@),
{
    let mut chunks: Vec<Vec<u8>> = Vec::new();
    let n = terms.len();
    for i in 0..n
        invariant
            n == terms@.len(),
            hash::chunk_views(chunks@) == term_chunks(terms@.take(i as int)),
    {
        let mut bytes = rational_to_bytes(&terms[i].coeff);
        let mb = monomial_to_bytes(&terms[i].monomial);
        crate::types::bytes::extend_bytes(&mut bytes, mb.as_slice());
        let ghost before = chunks@;
        assert(bytes@ == term_bytes(terms@[i as int]));
        chunks.push(bytes);
        proof {
            assert(chunks@ == before.push(bytes));
            assert(hash::chunk_views(chunks@) =~= hash::chunk_views(before).push(bytes@));
            assert(terms@.take(i + 1) == terms@.take(i as int).push(terms@[i as int]));
            assert(term_chunks(terms@.take(i + 1)) =~= term_chunks(terms@.take(i as int)).push(
                term_bytes(terms@[i as int]),
            ));
        }
    }
    assert(terms@.take(n as int) == terms@);
    hash::hash_sequence("poly-terms", chunks.as_slice())
}

/// The variables of a polynomial, sorted and without repetition.
pub fn poly_variables(a: &SparsePolynomialQ) -> (vars: Vec<VariableId>)
    ensures
        crate::types::id_set::var_ids_increasing(vars@),
        forall|v: VariableId| #[trigger] vars@.contains(v) <==> exists|i: int|
            0 <= i < a.terms@.len() && occurs(a.terms@[i].monomial.exponents@, v),
{
    let mut out: Vec<VariableId> = Vec::new();
    let n = a.terms.len();
    for i in 0..n
        invariant
            n == a.terms@.len(),
            crate::types::id_set::var_ids_increasing(out@),
            forall|v: VariableId| #[trigger] out@.contains(v) <==> exists|k: int|
                0 <= k < i && occurs(a.terms@[k].monomial.exponents@, v),
    {
        let vars = crate::types::monomial::monomial_variables(&a.terms[i].monomial);
        let m = vars.len();
        let ghost before = out@;
        for j in 0..m
            invariant
                m == vars@.len(),
                crate::types::id_set::var_ids_increasing(out@),
                forall|v: VariableId| #[trigger] out@.contains(v) <==> before.contains(v)
                    || vars@.take(j as int).contains(v),
        {
            crate::types::id_set::insert_variable_sorted(&mut out, vars[j]);
            proof {
                assert forall|v: VariableId| #[trigger] vars@.take(j + 1).contains(v) <==> vars@.take(
                    j as int,
                ).contains(v) || v == vars@[j as int] by {
                    assert(vars@.take(j + 1) == vars@.take(j as int).push(vars@[j as int]));
                    crate::types::id_set::lemma_contains_push(vars@.take(j as int), vars@[j as int], v);
                }
            }
        }
        proof {
            assert(vars@.take(m as int) == vars@);
            assert forall|v: VariableId| #[trigger] out@.contains(v) <==> exists|k: int|
                0 <= k < i + 1 && occurs(a.terms@[k].monomial.exponents@, v) by {
                if occurs(a.terms@[i as int].monomial.exponents@, v) {
                    assert(vars@.contains(v));
                }
            }
        }
    }
    out
}

/// A copy of a rational with the same numerator and denominator.
pub fn copy_q(q: &RationalQ) -> (r: RationalQ)
    ensures
        r.num@ == q.num@,
        r.den@ == q.den@,
{
    RationalQ { num: q.num.copy(), den: q.den.copy() }
}

/// A term as plain values: numerator, denominator, monomial entries.
pub open spec fn term_view(t: TermQ) -> (int, int, Seq<(VariableId, u32)>) {
    (t.coeff.num@, t.coeff.den@, t.monomial.exponents@)
}

pub open spec fn terms_view(ts: Seq<TermQ>) -> Seq<(int, int, Seq<(VariableId, u32)>)> {
    ts.map_values(|t: TermQ| term_view(t))
}

/// Every coefficient has a nonzero denominator.
pub open spec fn coeffs_well_formed(terms: Seq<(int, int, Seq<(VariableId, u32)>)>) -> bool {
    forall|i: int| 0 <= i < terms.len() ==> (#[trigger] terms[i]).1 != 0
}

/// The sum of the nonzero coefficients of the terms whose monomial normalizes to `m`, as an
/// unreduced fraction (numerator, denominator); `(0, 1)` when there are none.
pub open spec fn coeff_sum(terms: Seq<(int, int, Seq<(VariableId, u32)>)>, m: Seq<(VariableId, u32)>) -> (int, int)
    decreases terms.len(),
{
    if terms.len() == 0 {
        (0, 1)
    } else {
        let prev = coeff_sum(terms.drop_last(), m);
        let t = terms.last();
        if t.0 != 0 && normal_form(t.2) == m {
            (prev.0 * t.1 + t.0 * prev.1, prev.1 * t.1)
        } else {
            prev
        }
    }
}

pub open spec fn term_monomial(t: TermQ) -> Seq<(VariableId, u32)> {
    t.monomial.exponents@
}

/// `out` is the normal form of `input`: one term per normal monomial whose coefficients in
/// `input` do not sum to zero, with that sum as its coefficient, in increasing monomial order.
pub open spec fn is_normalization(out: Seq<TermQ>, input: Seq<(int, int, Seq<(VariableId, u32)>)>) -> bool {
    &&& forall|i: int, j: int|
        0 <= i < j < out.len() ==> entries_order(term_monomial(#[trigger] out[i]), term_monomial(#[trigger] out[j])) < 0
    &&& forall|i: int|
        0 <= i < out.len() ==> {
            let t = #[trigger] out[i];
            let s = coeff_sum(input, term_monomial(t));
            &&& is_normal_entries(term_monomial(t))
            &&& t.coeff.num@ != 0
            &&& t.coeff.den@ != 0
            &&& same_ratio(t.coeff.num@, t.coeff.den@, s.0, s.1)
        }
    &&& forall|m: Seq<(VariableId, u32)>|
        is_normal_entries(m) && (#[trigger] coeff_sum(input, m)).0 != 0 ==> exists|i: int|
            0 <= i < out.len() && term_monomial(out[i]) == m
}

proof fn lemma_coeff_sum_den(terms: Seq<(int, int, Seq<(VariableId, u32)>)>, m: Seq<(VariableId, u32)>)
    requires
        coeffs_well_formed(terms),
    ensures
        coeff_sum(terms, m).1 != 0,
    decreases terms.len(),
{
    if terms.len() > 0 {
        let d = terms.drop_last();
        assert(coeffs_well_formed(d)) by {
            assert forall|i: int| 0 <= i < d.len() implies (#[trigger] d[i]).1 != 0 by {
                assert(d[i] == terms[i]);
            }
        }
        lemma_coeff_sum_den(d, m);
        let prev = coeff_sum(d, m);
        let t = terms.last();
        assert(t.1 != 0);
        assert(prev.1 * t.1 != 0) by (nonlinear_arith)
            requires
                prev.1 != 0,
                t.1 != 0,
        ;
    }
}

pub proof fn lemma_ratio_add(cn: int, cd: int, on: int, od: int, n: int, d: int, tn: int, td: int)
    requires
        cd != 0,
        od != 0,
        d != 0,
        td != 0,
        cn * (od * td) == (on * td + tn * od) * cd,
        on * d == n * od,
    ensures
        cn * (d * td) == (n * td + tn * d) * cd,
{
    assert(od * (cn * (d * td)) == d * (cn * (od * td))) by (nonlinear_arith);
    assert(d * (cn * (od * td)) == d * ((on * td + tn * od) * cd)) by (nonlinear_arith)
        requires
            cn * (od * td) == (on * td + tn * od) * cd,
    ;
    let a = on * td;
    let b = tn * od;
    vstd::arithmetic::mul::lemma_mul_is_distributive_add_other_way(cd, a, b);
    vstd::arithmetic::mul::lemma_mul_is_distributive_add(d, a * cd, b * cd);
    assert(d * (a * cd) == (on * d) * (td * cd)) by (nonlinear_arith)
        requires
            a == on * td,
    ;
    assert(d * (b * cd) == od * (tn * d * cd)) by (nonlinear_arith)
        requires
            b == tn * od,
    ;
    assert(d * ((on * td + tn * od) * cd) == (on * d) * (td * cd) + od * (tn * d * cd));
    assert((on * d) * (td * cd) == (n * od) * (td * cd)) by (nonlinear_arith)
        requires
            on * d == n * od,
    ;
    assert((n * od) * (td * cd) + od * (tn * d * cd) == od * ((n * td + tn * d) * cd)) by (nonlinear_arith);
    assert(cn * (d * td) == (n * td + tn * d) * cd) by (nonlinear_arith)
        requires
            od * (cn * (d * td)) == od * ((n * td + tn * d) * cd),
            od != 0,
    ;
}

pub proof fn lemma_ratio_zero(cn: int, cd: int, n: int, d: int)
    requires
        cd != 0,
        d != 0,
        same_ratio(cn, cd, n, d),
    ensures
        (cn == 0) == (n == 0),
{
    assert((cn == 0) == (n == 0)) by (nonlinear_arith)
        requires
            cd != 0,
            d != 0,
            cn * d == n * cd,
    ;
}

/// The position where monomial `m` belongs in a strictly increasing term list, and whether
/// it is already there.
fn find_monomial(out: &Vec<TermQ>, m: &Vec<(VariableId, u32)>) -> (r: (usize, bool))
    requires
        forall|i: int, j: int|
            0 <= i < j < out@.len() ==> entries_order(term_monomial(#[trigger] out@[i]), term_monomial(#[trigger] out@[j])) < 0,
    ensures
        r.0 <= out@.len(),
        forall|j: int| 0 <= j < r.0 ==> entries_order(term_monomial(#[trigger] out@[j]), m@) < 0,
        forall|j: int| r.0 < j < out@.len() ==> entries_order(term_monomial(#[trigger] out@[j]), m@) > 0,
        r.1 == (r.0 < out@.len() && term_monomial(out@[r.0 as int]) == m@),
        !r.1 && r.0 < out@.len() ==> entries_order(term_monomial(out@[r.0 as int]), m@) > 0,
{
    let mut i: usize = 0;
    while i < out.len() && entries_order_exec(&out[i].monomial.exponents, m) < 0
        invariant
            i <= out@.len(),
            forall|j: int| 0 <= j < i ==> entries_order(term_monomial(#[trigger] out@[j]), m@) < 0,
        decreases out@.len() - i,
    {
        i += 1;
    }
    if i < out.len() {
        let c = entries_order_exec(&out[i].monomial.exponents, m);
        proof {
            lemma_entries_order_zero(term_monomial(out@[i as int]), m@);
            assert forall|j: int| i < j < out@.len() implies entries_order(term_monomial(#[trigger] out@[j]), m@) > 0 by {
                lemma_entries_order_antisym(term_monomial(out@[j]), m@);
                lemma_entries_order_antisym(term_monomial(out@[i as int]), term_monomial(out@[j]));
                if entries_order(term_monomial(out@[j]), m@) < 0 {
                    lemma_entries_order_trans(term_monomial(out@[i as int]), term_monomial(out@[j]), m@);
                }
                if entries_order(term_monomial(out@[j]), m@) == 0 {
                    lemma_entries_order_zero(term_monomial(out@[j]), m@);
                }
            }
        }
        (i, c == 0)
    } else {
        (i, false)
    }
}

proof fn lemma_set_keeps(
    old: Seq<TermQ>,
    new: Seq<TermQ>,
    pos: int,
    before: Seq<(int, int, Seq<(VariableId, u32)>)>,
    after: Seq<(int, int, Seq<(VariableId, u32)>)>,
    k: Seq<(VariableId, u32)>,
)
    requires
        is_normalization(old, before),
        0 <= pos < old.len(),
        term_monomial(old[pos]) == k,
        new == old.update(pos, new[pos]),
        term_monomial(new[pos]) == k,
        new[pos].coeff.num@ != 0,
        new[pos].coeff.den@ != 0,
        same_ratio(new[pos].coeff.num@, new[pos].coeff.den@, coeff_sum(after, k).0, coeff_sum(after, k).1),
        forall|m: Seq<(VariableId, u32)>| m != k ==> #[trigger] coeff_sum(after, m) == coeff_sum(before, m),
    ensures
        is_normalization(new, after),
{
    assert forall|i: int, j: int| 0 <= i < j < new.len() implies entries_order(
        term_monomial(#[trigger] new[i]),
        term_monomial(#[trigger] new[j]),
    ) < 0 by {
        assert(term_monomial(new[i]) == term_monomial(old[i]));
        assert(term_monomial(new[j]) == term_monomial(old[j]));
        assert(entries_order(term_monomial(old[i]), term_monomial(old[j])) < 0);
    }
    assert forall|i: int| 0 <= i < new.len() implies {
        let t = #[trigger] new[i];
        let s = coeff_sum(after, term_monomial(t));
        &&& is_normal_entries(term_monomial(t))
        &&& t.coeff.num@ != 0
        &&& t.coeff.den@ != 0
        &&& same_ratio(t.coeff.num@, t.coeff.den@, s.0, s.1)
    } by {
        let t0 = old[i];
        assert(is_normal_entries(term_monomial(t0)));
        if i != pos {
            assert(new[i] == old[i]);
            if term_monomial(t0) == k {
                assert(entries_order(term_monomial(old[i]), term_monomial(old[pos])) != 0) by {
                    if i < pos {
                        assert(entries_order(term_monomial(old[i]), term_monomial(old[pos])) < 0);
                    } else {
                        assert(entries_order(term_monomial(old[pos]), term_monomial(old[i])) < 0);
                        lemma_entries_order_antisym(term_monomial(old[pos]), term_monomial(old[i]));
                    }
                }
                lemma_entries_order_zero(term_monomial(old[i]), term_monomial(old[pos]));
            }
        }
    }
    assert forall|m: Seq<(VariableId, u32)>| is_normal_entries(m) && (#[trigger] coeff_sum(after, m)).0 != 0 implies exists|i: int|
        0 <= i < new.len() && term_monomial(new[i]) == m by {
        if m == k {
            assert(term_monomial(new[pos]) == m);
        } else {
            assert(coeff_sum(before, m).0 != 0);
            let i = choose|i: int| 0 <= i < old.len() && term_monomial(old[i]) == m;
            assert(i != pos);
            assert(new[i] == old[i]);
        }
    }
}

proof fn lemma_remove_keeps(
    old: Seq<TermQ>,
    new: Seq<TermQ>,
    pos: int,
    before: Seq<(int, int, Seq<(VariableId, u32)>)>,
    after: Seq<(int, int, Seq<(VariableId, u32)>)>,
    k: Seq<(VariableId, u32)>,
)
    requires
        is_normalization(old, before),
        0 <= pos < old.len(),
        term_monomial(old[pos]) == k,
        new == old.remove(pos),
        coeff_sum(after, k).0 == 0,
        forall|m: Seq<(VariableId, u32)>| m != k ==> #[trigger] coeff_sum(after, m) == coeff_sum(before, m),
    ensures
        is_normalization(new, after),
{
    assert forall|i: int, j: int| 0 <= i < j < new.len() implies entries_order(
        term_monomial(#[trigger] new[i]),
        term_monomial(#[trigger] new[j]),
    ) < 0 by {
        let oi = if i < pos { i } else { i + 1 };
        let oj = if j < pos { j } else { j + 1 };
        assert(new[i] == old[oi]);
        assert(new[j] == old[oj]);
        assert(entries_order(term_monomial(old[oi]), term_monomial(old[oj])) < 0);
    }
    assert forall|i: int| 0 <= i < new.len() implies {
        let t = #[trigger] new[i];
        let s = coeff_sum(after, term_monomial(t));
        &&& is_normal_entries(term_monomial(t))
        &&& t.coeff.num@ != 0
        &&& t.coeff.den@ != 0
        &&& same_ratio(t.coeff.num@, t.coeff.den@, s.0, s.1)
    } by {
        let oi = if i < pos { i } else { i + 1 };
        assert(new[i] == old[oi]);
        let t0 = old[oi];
        assert(is_normal_entries(term_monomial(t0)));
        if term_monomial(t0) == k {
            assert(entries_order(term_monomial(old[oi]), term_monomial(old[pos])) != 0) by {
                if oi < pos {
                    assert(entries_order(term_monomial(old[oi]), term_monomial(old[pos])) < 0);
                } else {
                    assert(entries_order(term_monomial(old[pos]), term_monomial(old[oi])) < 0);
                    lemma_entries_order_antisym(term_monomial(old[pos]), term_monomial(old[oi]));
                }
            }
            lemma_entries_order_zero(term_monomial(old[oi]), term_monomial(old[pos]));
        }
    }
    assert forall|m: Seq<(VariableId, u32)>| is_normal_entries(m) && (#[trigger] coeff_sum(after, m)).0 != 0 implies exists|i: int|
        0 <= i < new.len() && term_monomial(new[i]) == m by {
        assert(m != k);
        assert(coeff_sum(before, m).0 != 0);
        let i = choose|i: int| 0 <= i < old.len() && term_monomial(old[i]) == m;
        assert(i != pos);
        if i < pos {
            assert(new[i] == old[i]);
        } else {
            assert(new[i - 1] == old[i]);
        }
    }
}

proof fn lemma_insert_keeps(
    old: Seq<TermQ>,
    new: Seq<TermQ>,
    pos: int,
    before: Seq<(int, int, Seq<(VariableId, u32)>)>,
    after: Seq<(int, int, Seq<(VariableId, u32)>)>,
    k: Seq<(VariableId, u32)>,
)
    requires
        is_normalization(old, before),
        0 <= pos <= old.len(),
        new == old.insert(pos, new[pos]),
        term_monomial(new[pos]) == k,
        is_normal_entries(k),
        new[pos].coeff.num@ != 0,
        new[pos].coeff.den@ != 0,
        same_ratio(new[pos].coeff.num@, new[pos].coeff.den@, coeff_sum(after, k).0, coeff_sum(after, k).1),
        forall|j: int| 0 <= j < pos ==> entries_order(term_monomial(#[trigger] old[j]), k) < 0,
        forall|j: int| pos <= j < old.len() ==> entries_order(term_monomial(#[trigger] old[j]), k) > 0,
        forall|m: Seq<(VariableId, u32)>| m != k ==> #[trigger] coeff_sum(after, m) == coeff_sum(before, m),
    ensures
        is_normalization(new, after),
{
    assert forall|i: int, j: int| 0 <= i < j < new.len() implies entries_order(
        term_monomial(#[trigger] new[i]),
        term_monomial(#[trigger] new[j]),
    ) < 0 by {
        if i < pos && j < pos {
            assert(new[i] == old[i] && new[j] == old[j]);
        } else if i < pos && j == pos {
            assert(new[i] == old[i]);
        } else if i < pos {
            assert(new[i] == old[i] && new[j] == old[j - 1]);
            assert(entries_order(term_monomial(old[j - 1]), k) > 0);
            lemma_entries_order_antisym(term_monomial(old[j - 1]), k);
            lemma_entries_order_trans(term_monomial(old[i]), k, term_monomial(old[j - 1]));
        } else if i == pos {
            assert(new[j] == old[j - 1]);
            lemma_entries_order_antisym(term_monomial(old[j - 1]), k);
        } else {
            assert(new[i] == old[i - 1] && new[j] == old[j - 1]);
        }
    }
    assert forall|i: int| 0 <= i < new.len() implies {
        let t = #[trigger] new[i];
        let s = coeff_sum(after, term_monomial(t));
        &&& is_normal_entries(term_monomial(t))
        &&& t.coeff.num@ != 0
        &&& t.coeff.den@ != 0
        &&& same_ratio(t.coeff.num@, t.coeff.den@, s.0, s.1)
    } by {
        if i != pos {
            let oi = if i < pos { i } else { i - 1 };
            assert(new[i] == old[oi]);
            assert(entries_order(term_monomial(old[oi]), k) != 0);
            lemma_entries_order_zero(term_monomial(old[oi]), k);
        }
    }
    assert forall|m: Seq<(VariableId, u32)>| is_normal_entries(m) && (#[trigger] coeff_sum(after, m)).0 != 0 implies exists|i: int|
        0 <= i < new.len() && term_monomial(new[i]) == m by {
        if m == k {
            assert(term_monomial(new[pos]) == m);
        } else {
            assert(coeff_sum(before, m).0 != 0);
            let i = choose|i: int| 0 <= i < old.len() && term_monomial(old[i]) == m;
            if i < pos {
                assert(new[i] == old[i]);
            } else {
                assert(new[i + 1] == old[i]);
            }
        }
    }
}

/// Adds the terms' coefficients by normalized monomial, drops zero sums, and orders the
/// terms by monomial; the digest is recomputed from the result.
pub fn normalize_poly(p: SparsePolynomialQ) -> (q: SparsePolynomialQ)
    requires
        coeffs_well_formed(terms_view(p.terms@)),
    ensures
        is_normalization(q.terms@, terms_view(p.terms@)),
        q.hash.0@ == spec_hash_terms(q.terms@),
{
    let q = normalize_terms(p.terms.as_slice());
    q
}

/// `normalize_poly` of a term slice.
fn normalize_terms(terms: &[TermQ]) -> (q: SparsePolynomialQ)
    requires
        coeffs_well_formed(terms_view(terms@)),
    ensures
        is_normalization(q.terms@, terms_view(terms@)),
        q.hash.0@ == spec_hash_terms(q.terms@),
{
    let ghost all = terms_view(terms@);
    let mut out: Vec<TermQ> = Vec::new();
    let n = terms.len();
    for i in 0..n
        invariant
            n == terms@.len(),
            all == terms_view(terms@),
            coeffs_well_formed(all),
            is_normalization(out@, all.take(i as int)),
    {
        let ghost before = all.take(i as int);
        let ghost after = all.take(i + 1);
        let t = &terms[i];
        proof {
            assert(after.drop_last() == before);
            assert(after.last() == term_view(*t));
            assert(coeffs_well_formed(before)) by {
                assert forall|k: int| 0 <= k < before.len() implies (#[trigger] before[k]).1 != 0 by {
                    assert(before[k] == all[k]);
                }
            }
            assert(coeffs_well_formed(after)) by {
                assert forall|k: int| 0 <= k < after.len() implies (#[trigger] after[k]).1 != 0 by {
                    assert(after[k] == all[k]);
                }
            }
            assert(all[i as int] == term_view(*t));
            assert(t.coeff.den@ != 0);
        }
        if is_zero_q(&t.coeff) {
            proof {
                assert forall|m: Seq<(VariableId, u32)>| #[trigger] coeff_sum(after, m) == coeff_sum(before, m) by {}
            }
        } else {
            let mono = normalize_monomial(copy_entries(&t.monomial.exponents));
            let ghost k = mono.exponents@;
            proof {
                lemma_normal_form_of(mono.exponents@, t.monomial.exponents@);
                lemma_coeff_sum_den(before, k);
                lemma_coeff_sum_den(after, k);
                assert forall|m: Seq<(VariableId, u32)>| m != k implies #[trigger] coeff_sum(after, m) == coeff_sum(before, m) by {}
            }
            let (pos, found) = find_monomial(&out, &mono.exponents);
            let ghost old_out = out@;
            if found {
                let sum = add_q(&out[pos].coeff, &t.coeff);
                proof {
                    let o = old_out[pos as int].coeff;
                    let s0 = coeff_sum(before, k);
                    lemma_ratio_add(
                        sum.num@, sum.den@, o.num@, o.den@, s0.0, s0.1, t.coeff.num@, t.coeff.den@,
                    );
                    lemma_ratio_zero(sum.num@, sum.den@, coeff_sum(after, k).0, coeff_sum(after, k).1);
                }
                if is_zero_q(&sum) {
                    out.remove(pos);
                    proof {
                        lemma_remove_keeps(old_out, out@, pos as int, before, after, k);
                    }
                } else {
                    out.set(pos, TermQ { coeff: sum, monomial: mono });
                    proof {
                        lemma_set_keeps(old_out, out@, pos as int, before, after, k);
                    }
                }
            } else {
                let c = copy_q(&t.coeff);
                proof {
                    let s0 = coeff_sum(before, k);
                    if s0.0 != 0 {
                        let j = choose|j: int| 0 <= j < old_out.len() && term_monomial(old_out[j]) == k;
                        if j < pos {
                            assert(entries_order(term_monomial(old_out[j]), k) < 0);
                        } else if j > pos {
                            assert(entries_order(term_monomial(old_out[j]), k) > 0);
                        }
                        lemma_entries_order_zero(k, k);
                    }
                    assert(s0.0 == 0);
                    assert(coeff_sum(after, k) == (s0.0 * t.coeff.den@ + t.coeff.num@ * s0.1, s0.1 * t.coeff.den@));
                    assert(same_ratio(c.num@, c.den@, coeff_sum(after, k).0, coeff_sum(after, k).1)) by (nonlinear_arith)
                        requires
                            s0.0 == 0,
                            c.num@ == t.coeff.num@,
                            c.den@ == t.coeff.den@,
                            coeff_sum(after, k) == (s0.0 * t.coeff.den@ + t.coeff.num@ * s0.1, s0.1 * t.coeff.den@),
                    ;
                    lemma_ratio_zero(c.num@, c.den@, coeff_sum(after, k).0, coeff_sum(after, k).1);
                }
                out.insert(pos, TermQ { coeff: c, monomial: mono });
                proof {
                    lemma_insert_keeps(old_out, out@, pos as int, before, after, k);
                }
            }
        }
    }
    assert(all.take(n as int) == all);
    let hash = hash_terms(out.as_slice());
    SparsePolynomialQ { terms: out, hash }
}

/// Two term views with the same normalized monomials and the same coefficient values, term
/// by term.
pub open spec fn views_equivalent(
    a: Seq<(int, int, Seq<(VariableId, u32)>)>,
    b: Seq<(int, int, Seq<(VariableId, u32)>)>,
) -> bool {
    &&& a.len() == b.len()
    &&& forall|i: int|
        0 <= i < a.len() ==> {
            &&& normal_form((#[trigger] a[i]).2) == normal_form(b[i].2)
            &&& a[i].1 != 0
            &&& b[i].1 != 0
            &&& same_ratio(a[i].0, a[i].1, b[i].0, b[i].1)
        }
}

proof fn lemma_ratio_sum_congruent(pn: int, pd: int, qn: int, qd: int, n1: int, d1: int, n2: int, d2: int)
    requires
        pn * qd == qn * pd,
        n1 * d2 == n2 * d1,
    ensures
        (pn * d1 + n1 * pd) * (qd * d2) == (qn * d2 + n2 * qd) * (pd * d1),
{
    vstd::arithmetic::mul::lemma_mul_is_distributive_add_other_way(qd * d2, pn * d1, n1 * pd);
    vstd::arithmetic::mul::lemma_mul_is_distributive_add_other_way(pd * d1, qn * d2, n2 * qd);
    assert((pn * d1) * (qd * d2) == (pn * qd) * (d1 * d2)) by (nonlinear_arith);
    assert((qn * d2) * (pd * d1) == (qn * pd) * (d1 * d2)) by (nonlinear_arith);
    assert((n1 * pd) * (qd * d2) == (n1 * d2) * (pd * qd)) by (nonlinear_arith);
    assert((n2 * qd) * (pd * d1) == (n2 * d1) * (pd * qd)) by (nonlinear_arith);
}

proof fn lemma_coeff_sum_congruent(
    a: Seq<(int, int, Seq<(VariableId, u32)>)>,
    b: Seq<(int, int, Seq<(VariableId, u32)>)>,
    m: Seq<(VariableId, u32)>,
)
    requires
        views_equivalent(a, b),
    ensures
        same_ratio(coeff_sum(a, m).0, coeff_sum(a, m).1, coeff_sum(b, m).0, coeff_sum(b, m).1),
        coeff_sum(a, m).1 != 0,
        coeff_sum(b, m).1 != 0,
    decreases a.len(),
{
    if a.len() > 0 {
        let da = a.drop_last();
        let db = b.drop_last();
        assert(views_equivalent(da, db)) by {
            assert forall|i: int| 0 <= i < da.len() implies {
                &&& normal_form((#[trigger] da[i]).2) == normal_form(db[i].2)
                &&& da[i].1 != 0
                &&& db[i].1 != 0
                &&& same_ratio(da[i].0, da[i].1, db[i].0, db[i].1)
            } by {
                assert(da[i] == a[i] && db[i] == b[i]);
            }
        }
        lemma_coeff_sum_congruent(da, db, m);
        let p = coeff_sum(da, m);
        let q = coeff_sum(db, m);
        let x = a.last();
        let y = b.last();
        assert(x == a[a.len() - 1] && y == b[b.len() - 1]);
        lemma_ratio_zero(x.0, x.1, y.0, y.1);
        if x.0 != 0 && normal_form(x.2) == m {
            lemma_ratio_sum_congruent(p.0, p.1, q.0, q.1, x.0, x.1, y.0, y.1);
            assert(p.1 * x.1 != 0) by (nonlinear_arith)
                requires
                    p.1 != 0,
                    x.1 != 0,
            ;
            assert(q.1 * y.1 != 0) by (nonlinear_arith)
                requires
                    q.1 != 0,
                    y.1 != 0,
            ;
        }
    }
}

proof fn lemma_ratio_trans(an: int, ad: int, bn: int, bd: int, cn: int, cd: int)
    requires
        bd != 0,
        same_ratio(an, ad, bn, bd),
        same_ratio(bn, bd, cn, cd),
    ensures
        same_ratio(an, ad, cn, cd),
{
    assert(an * cd * bd == cn * ad * bd) by (nonlinear_arith)
        requires
            an * bd == bn * ad,
            bn * cd == cn * bd,
    ;
    assert(an * cd == cn * ad) by (nonlinear_arith)
        requires
            an * cd * bd == cn * ad * bd,
            bd != 0,
    ;
}

/// A normalization of a term list is one of any equivalent term list.
pub proof fn lemma_normalization_equivalent(
    q: Seq<TermQ>,
    a: Seq<(int, int, Seq<(VariableId, u32)>)>,
    b: Seq<(int, int, Seq<(VariableId, u32)>)>,
)
    requires
        views_equivalent(a, b),
        is_normalization(q, a),
    ensures
        is_normalization(q, b),
{
    assert forall|i: int| 0 <= i < q.len() implies {
        let t = #[trigger] q[i];
        let s = coeff_sum(b, term_monomial(t));
        &&& is_normal_entries(term_monomial(t))
        &&& t.coeff.num@ != 0
        &&& t.coeff.den@ != 0
        &&& same_ratio(t.coeff.num@, t.coeff.den@, s.0, s.1)
    } by {
        let t = q[i];
        let m = term_monomial(t);
        lemma_coeff_sum_congruent(a, b, m);
        lemma_ratio_trans(
            t.coeff.num@, t.coeff.den@, coeff_sum(a, m).0, coeff_sum(a, m).1, coeff_sum(b, m).0, coeff_sum(b, m).1,
        );
    }
    assert forall|m: Seq<(VariableId, u32)>| is_normal_entries(m) && (#[trigger] coeff_sum(b, m)).0 != 0 implies exists|i: int|
        0 <= i < q.len() && term_monomial(q[i]) == m by {
        lemma_coeff_sum_congruent(a, b, m);
        lemma_ratio_zero(coeff_sum(a, m).0, coeff_sum(a, m).1, coeff_sum(b, m).0, coeff_sum(b, m).1);
        assert(coeff_sum(a, m).0 != 0);
    }
}

/// A copy of a term: the same coefficient values and monomial entries.
pub fn copy_term(t: &TermQ) -> (r: TermQ)
    ensures
        term_view(r) == term_view(*t),
{
    TermQ { coeff: copy_q(&t.coeff), monomial: Monomial { exponents: copy_entries(&t.monomial.exponents) } }
}

fn append_copies(out: &mut Vec<TermQ>, terms: &[TermQ])
    ensures
        terms_view(final(out)@) == terms_view(old(out)@) + terms_view(terms@),
{
    let ghost start = terms_view(out@);
    let n = terms.len();
    for i in 0..n
        invariant
            n == terms@.len(),
            terms_view(out@) == start + terms_view(terms@.take(i as int)),
    {
        let ghost prev = out@;
        out.push(copy_term(&terms[i]));
        assert(terms_view(out@) =~= terms_view(prev).push(term_view(terms@[i as int])));
        assert(terms_view(terms@.take(i + 1)) =~= terms_view(terms@.take(i as int)).push(term_view(terms@[i as int])));
    }
    assert(terms@.take(n as int) == terms@);
}

/// A polynomial as plain values: its term views and its digest.
pub open spec fn poly_view(p: SparsePolynomialQ) -> (Seq<(int, int, Seq<(VariableId, u32)>)>, hash::Hash) {
    (terms_view(p.terms@), p.hash)
}

/// A copy of a polynomial.
pub fn copy_poly(p: &SparsePolynomialQ) -> (r: SparsePolynomialQ)
    ensures
        poly_view(r) == poly_view(*p),
{
    let mut terms: Vec<TermQ> = Vec::new();
    append_copies(&mut terms, p.terms.as_slice());
    assert(terms_view(Seq::<TermQ>::empty()) + terms_view(p.terms@) =~= terms_view(p.terms@));
    SparsePolynomialQ { terms, hash: p.hash }
}

/// Normalization and digests read terms only through their views.
pub proof fn lemma_normalization_by_view(a: Seq<TermQ>, b: Seq<TermQ>, v: Seq<(int, int, Seq<(VariableId, u32)>)>)
    requires
        terms_view(a) == terms_view(b),
        is_normalization(a, v),
    ensures
        is_normalization(b, v),
        a.len() == b.len(),
{
    assert(a.len() == terms_view(a).len());
    assert forall|i: int| 0 <= i < b.len() implies term_view(#[trigger] b[i]) == term_view(a[i]) by {
        assert(terms_view(a)[i] == terms_view(b)[i]);
    }
    assert forall|i: int| 0 <= i < b.len() implies term_monomial(#[trigger] b[i]) == term_monomial(a[i]) && b[i].coeff.num@
        == a[i].coeff.num@ && b[i].coeff.den@ == a[i].coeff.den@ by {
        assert(term_view(b[i]) == term_view(a[i]));
    }
    assert forall|i: int, j: int| 0 <= i < j < b.len() implies entries_order(
        term_monomial(#[trigger] b[i]),
        term_monomial(#[trigger] b[j]),
    ) < 0 by {
        assert(term_monomial(b[i]) == term_monomial(a[i]));
        assert(term_monomial(b[j]) == term_monomial(a[j]));
    }
    assert forall|i: int| 0 <= i < b.len() implies {
        let t = #[trigger] b[i];
        let s = coeff_sum(v, term_monomial(t));
        &&& is_normal_entries(term_monomial(t))
        &&& t.coeff.num@ != 0
        &&& t.coeff.den@ != 0
        &&& same_ratio(t.coeff.num@, t.coeff.den@, s.0, s.1)
    } by {
        assert(term_monomial(b[i]) == term_monomial(a[i]));
    }
    assert forall|m: Seq<(VariableId, u32)>| is_normal_entries(m) && (#[trigger] coeff_sum(v, m)).0 != 0 implies exists|i: int|
        0 <= i < b.len() && term_monomial(b[i]) == m by {
        let i = choose|i: int| 0 <= i < a.len() && term_monomial(a[i]) == m;
        assert(term_monomial(b[i]) == term_monomial(a[i]));
    }
}

/// The empty term list normalizes to nothing.
proof fn lemma_normalization_of_zero(q: Seq<TermQ>, v: Seq<(int, int, Seq<(VariableId, u32)>)>)
    requires
        is_normalization(q, v),
        forall|i: int| 0 <= i < v.len() ==> (#[trigger] v[i]).0 == 0,
    ensures
        q.len() == 0,
{
    if q.len() > 0 {
        let t = q[0];
        let m = term_monomial(t);
        lemma_coeff_sum_zero(v, m);
        assert(same_ratio(t.coeff.num@, t.coeff.den@, coeff_sum(v, m).0, coeff_sum(v, m).1));
        assert(t.coeff.num@ * 1 == 0 * t.coeff.den@);
        assert(t.coeff.num@ == 0);
    }
}

proof fn lemma_coeff_sum_zero(v: Seq<(int, int, Seq<(VariableId, u32)>)>, m: Seq<(VariableId, u32)>)
    requires
        forall|i: int| 0 <= i < v.len() ==> (#[trigger] v[i]).0 == 0,
    ensures
        coeff_sum(v, m) == (0int, 1int),
    decreases v.len(),
{
    if v.len() > 0 {
        let d = v.drop_last();
        assert forall|i: int| 0 <= i < d.len() implies (#[trigger] d[i]).0 == 0 by {
            assert(d[i] == v[i]);
        }
        lemma_coeff_sum_zero(d, m);
        assert(v.last() == v[v.len() - 1]);
    }
}

/// The zero polynomial: no terms.
pub fn zero_poly() -> (q: SparsePolynomialQ)
    ensures
        q.terms@.len() == 0,
        q.hash.0@ == spec_hash_terms(Seq::empty()),
{
    let empty: Vec<TermQ> = Vec::new();
    let q = normalize_terms(empty.as_slice());
    proof {
        lemma_normalization_of_zero(q.terms@, terms_view(empty@));
        assert(q.terms@ =~= Seq::<TermQ>::empty());
    }
    q
}

/// The constant polynomial `c` (no terms when `c` is zero).
pub fn constant_poly(c: RationalQ) -> (q: SparsePolynomialQ)
    requires
        c.den@ != 0,
    ensures
        is_normalization(q.terms@, seq![(c.num@, c.den@, Seq::<(VariableId, u32)>::empty())]),
        q.hash.0@ == spec_hash_terms(q.terms@),
{
    let ghost v = seq![(c.num@, c.den@, Seq::<(VariableId, u32)>::empty())];
    if is_zero_q(&c) {
        let q = zero_poly();
        proof {
            lemma_coeff_sum_zero_all(v);
        }
        return q;
    }
    let mut terms: Vec<TermQ> = Vec::new();
    terms.push(TermQ { coeff: c, monomial: normalize_monomial(Vec::new()) });
    let q = normalize_terms(terms.as_slice());
    proof {
        let w = terms_view(terms@);
        assert(w.len() == 1);
        lemma_normal_form_of_normal(w[0].2);
        lemma_normal_form_of(w[0].2, Seq::empty());
        assert(views_equivalent(w, v));
        lemma_normalization_equivalent(q.terms@, w, v);
    }
    q
}

proof fn lemma_coeff_sum_zero_all(v: Seq<(int, int, Seq<(VariableId, u32)>)>)
    requires
        forall|i: int| 0 <= i < v.len() ==> (#[trigger] v[i]).0 == 0,
    ensures
        is_normalization(Seq::empty(), v),
{
    assert forall|m: Seq<(VariableId, u32)>| is_normal_entries(m) && (#[trigger] coeff_sum(v, m)).0 != 0 implies exists|i: int|
        0 <= i < Seq::<TermQ>::empty().len() && term_monomial(Seq::<TermQ>::empty()[i]) == m by {
        lemma_coeff_sum_zero(v, m);
    }
}

/// A normal entry list is its own normal form.
pub proof fn lemma_normal_form_of_normal(m: Seq<(VariableId, u32)>)
    requires
        is_normal_entries(m),
    ensures
        normal_form(m) == m,
{
    assert forall|v: VariableId| exponent_of(m, v) == saturate(#[trigger] total_exponent(m, v)) by {
        lemma_total_of_normal(m, v);
        if occurs(m, v) {
            let i = choose|i: int| 0 <= i < m.len() && #[trigger] m[i].0 == v;
            lemma_exponent_at(m, i);
        }
    }
    lemma_normal_form_of(m, m);
}

/// The variable `v` as a polynomial.
pub fn variable_poly(v: VariableId) -> (q: SparsePolynomialQ)
    ensures
        is_normalization(q.terms@, seq![(1int, 1int, seq![(v, 1u32)])]),
        q.hash.0@ == spec_hash_terms(q.terms@),
{
    let mut entries: Vec<(VariableId, u32)> = Vec::new();
    entries.push((v, 1));
    let ghost e = entries@;
    let mono = normalize_monomial(entries);
    let mut terms: Vec<TermQ> = Vec::new();
    terms.push(TermQ { coeff: int_q(1), monomial: mono });
    let q = normalize_terms(terms.as_slice());
    proof {
        let w = terms_view(terms@);
        let target = seq![(1int, 1int, seq![(v, 1u32)])];
        assert(e =~= seq![(v, 1u32)]);
        lemma_normal_form_of_normal(w[0].2);
        lemma_normal_form_of(w[0].2, e);
        assert(views_equivalent(w, target));
        lemma_normalization_equivalent(q.terms@, w, target);
    }
    q
}

proof fn lemma_well_formed_concat(
    a: Seq<(int, int, Seq<(VariableId, u32)>)>,
    b: Seq<(int, int, Seq<(VariableId, u32)>)>,
)
    requires
        coeffs_well_formed(a),
        coeffs_well_formed(b),
    ensures
        coeffs_well_formed(a + b),
{
    assert forall|i: int| 0 <= i < (a + b).len() implies (#[trigger] (a + b)[i]).1 != 0 by {
        if i < a.len() {
            assert((a + b)[i] == a[i]);
        } else {
            assert((a + b)[i] == b[i - a.len()]);
        }
    }
}

/// The sum: the normalization of both term lists together.
pub fn poly_add(a: &SparsePolynomialQ, b: &SparsePolynomialQ) -> (q: SparsePolynomialQ)
    requires
        coeffs_well_formed(terms_view(a.terms@)),
        coeffs_well_formed(terms_view(b.terms@)),
    ensures
        is_normalization(q.terms@, terms_view(a.terms@) + terms_view(b.terms@)),
        q.hash.0@ == spec_hash_terms(q.terms@),
{
    let mut terms: Vec<TermQ> = Vec::new();
    append_copies(&mut terms, a.terms.as_slice());
    append_copies(&mut terms, b.terms.as_slice());
    proof {
        assert(terms_view(Seq::<TermQ>::empty()) =~= Seq::empty());
        assert(terms_view(terms@) =~= terms_view(a.terms@) + terms_view(b.terms@));
        lemma_well_formed_concat(terms_view(a.terms@), terms_view(b.terms@));
    }
    normalize_terms(terms.as_slice())
}

/// Each coefficient negated.
pub open spec fn neg_view(v: Seq<(int, int, Seq<(VariableId, u32)>)>) -> Seq<(int, int, Seq<(VariableId, u32)>)> {
    v.map_values(|x: (int, int, Seq<(VariableId, u32)>)| (-x.0, x.1, x.2))
}

/// The difference: the normalization of `a`'s terms and `b`'s negated terms.
pub fn poly_sub(a: &SparsePolynomialQ, b: &SparsePolynomialQ) -> (q: SparsePolynomialQ)
    requires
        coeffs_well_formed(terms_view(a.terms@)),
        coeffs_well_formed(terms_view(b.terms@)),
    ensures
        is_normalization(q.terms@, terms_view(a.terms@) + neg_view(terms_view(b.terms@))),
        q.hash.0@ == spec_hash_terms(q.terms@),
{
    let mut terms: Vec<TermQ> = Vec::new();
    append_copies(&mut terms, a.terms.as_slice());
    let ghost start = terms_view(terms@);
    let n = b.terms.len();
    for i in 0..n
        invariant
            n == b.terms@.len(),
            terms_view(terms@) == start + neg_view(terms_view(b.terms@.take(i as int))),
    {
        let t = &b.terms[i];
        let ghost prev = terms@;
        terms.push(TermQ { coeff: neg_q(&t.coeff), monomial: Monomial { exponents: copy_entries(&t.monomial.exponents) } });
        assert(terms_view(terms@) =~= terms_view(prev).push((-t.coeff.num@, t.coeff.den@, t.monomial.exponents@)));
        assert(neg_view(terms_view(b.terms@.take(i + 1))) =~= neg_view(terms_view(b.terms@.take(i as int))).push(
            (-t.coeff.num@, t.coeff.den@, t.monomial.exponents@),
        ));
    }
    proof {
        assert(b.terms@.take(n as int) == b.terms@);
        assert(terms_view(Seq::<TermQ>::empty()) =~= Seq::empty());
        assert(coeffs_well_formed(neg_view(terms_view(b.terms@)))) by {
            let w = neg_view(terms_view(b.terms@));
            assert forall|i: int| 0 <= i < w.len() implies (#[trigger] w[i]).1 != 0 by {
                assert(w[i].1 == terms_view(b.terms@)[i].1);
            }
        }
        lemma_well_formed_concat(terms_view(a.terms@), neg_view(terms_view(b.terms@)));
    }
    normalize_terms(terms.as_slice())
}

/// Each coefficient multiplied by `c` (as an unreduced fraction).
pub open spec fn scale_view(v: Seq<(int, int, Seq<(VariableId, u32)>)>, cn: int, cd: int) -> Seq<(int, int, Seq<(VariableId, u32)>)> {
    v.map_values(|x: (int, int, Seq<(VariableId, u32)>)| (x.0 * cn, x.1 * cd, x.2))
}

/// `a` times the constant `c`.
pub fn poly_scale(a: &SparsePolynomialQ, c: &RationalQ) -> (q: SparsePolynomialQ)
    requires
        coeffs_well_formed(terms_view(a.terms@)),
        c.den@ != 0,
    ensures
        is_normalization(q.terms@, scale_view(terms_view(a.terms@), c.num@, c.den@)),
        q.hash.0@ == spec_hash_terms(q.terms@),
{
    let ghost target = scale_view(terms_view(a.terms@), c.num@, c.den@);
    if is_zero_q(c) {
        let q = zero_poly();
        proof {
            assert forall|i: int| 0 <= i < target.len() implies (#[trigger] target[i]).0 == 0 by {
                assert(target[i].0 == terms_view(a.terms@)[i].0 * c.num@);
            }
            lemma_coeff_sum_zero_all(target);
            assert(q.terms@ =~= Seq::<TermQ>::empty());
        }
        return q;
    }
    let mut terms: Vec<TermQ> = Vec::new();
    let n = a.terms.len();
    for i in 0..n
        invariant
            n == a.terms@.len(),
            c.den@ != 0,
            coeffs_well_formed(terms_view(a.terms@)),
            target == scale_view(terms_view(a.terms@), c.num@, c.den@),
            views_equivalent(terms_view(terms@), target.take(i as int)),
    {
        let t = &a.terms[i];
        proof {
            assert(terms_view(a.terms@)[i as int] == term_view(*t));
        }
        let r = mul_q(&t.coeff, c);
        let ghost prev = terms@;
        terms.push(TermQ { coeff: r, monomial: Monomial { exponents: copy_entries(&t.monomial.exponents) } });
        proof {
            let w = terms_view(terms@);
            let tt = target.take(i + 1);
            assert(w =~= terms_view(prev).push(term_view(terms@[i as int])));
            assert(tt[i as int] == (t.coeff.num@ * c.num@, t.coeff.den@ * c.den@, t.monomial.exponents@));
            assert(t.coeff.den@ * c.den@ != 0) by (nonlinear_arith)
                requires
                    t.coeff.den@ != 0,
                    c.den@ != 0,
            ;
            assert forall|k: int| 0 <= k < w.len() implies {
                &&& normal_form((#[trigger] w[k]).2) == normal_form(tt[k].2)
                &&& w[k].1 != 0
                &&& tt[k].1 != 0
                &&& same_ratio(w[k].0, w[k].1, tt[k].0, tt[k].1)
            } by {
                if k < i {
                    assert(w[k] == terms_view(prev)[k]);
                    assert(tt[k] == target.take(i as int)[k]);
                }
            }
        }
    }
    proof {
        assert(target.take(n as int) == target);
        assert(coeffs_well_formed(terms_view(terms@))) by {
            let w = terms_view(terms@);
            assert forall|k: int| 0 <= k < w.len() implies (#[trigger] w[k]).1 != 0 by {}
        }
    }
    let q = normalize_terms(terms.as_slice());
    proof {
        lemma_normalization_equivalent(q.terms@, terms_view(terms@), target);
    }
    q
}

/// One term times every term of a list, in order.
pub open spec fn row_view(
    x: (int, int, Seq<(VariableId, u32)>),
    v: Seq<(int, int, Seq<(VariableId, u32)>)>,
) -> Seq<(int, int, Seq<(VariableId, u32)>)> {
    v.map_values(|y: (int, int, Seq<(VariableId, u32)>)| (x.0 * y.0, x.1 * y.1, x.2 + y.2))
}

/// Every product of a term of `a` with a term of `b`, `a` in the outer order.
pub open spec fn product_view(
    a: Seq<(int, int, Seq<(VariableId, u32)>)>,
    b: Seq<(int, int, Seq<(VariableId, u32)>)>,
) -> Seq<(int, int, Seq<(VariableId, u32)>)>
    decreases a.len(),
{
    if a.len() == 0 {
        Seq::empty()
    } else {
        product_view(a.drop_last(), b) + row_view(a.last(), b)
    }
}

proof fn lemma_equivalent_push(
    w: Seq<(int, int, Seq<(VariableId, u32)>)>,
    t: Seq<(int, int, Seq<(VariableId, u32)>)>,
    x: (int, int, Seq<(VariableId, u32)>),
    y: (int, int, Seq<(VariableId, u32)>),
)
    requires
        views_equivalent(w, t),
        normal_form(x.2) == normal_form(y.2),
        x.1 != 0,
        y.1 != 0,
        same_ratio(x.0, x.1, y.0, y.1),
    ensures
        views_equivalent(w.push(x), t.push(y)),
{
    let w2 = w.push(x);
    let t2 = t.push(y);
    assert forall|k: int| 0 <= k < w2.len() implies {
        &&& normal_form((#[trigger] w2[k]).2) == normal_form(t2[k].2)
        &&& w2[k].1 != 0
        &&& t2[k].1 != 0
        &&& same_ratio(w2[k].0, w2[k].1, t2[k].0, t2[k].1)
    } by {
        if k < w.len() {
            assert(w2[k] == w[k] && t2[k] == t[k]);
        }
    }
}

/// The product: the normalization of every pairwise product of terms.
pub fn poly_mul(a: &SparsePolynomialQ, b: &SparsePolynomialQ) -> (q: SparsePolynomialQ)
    requires
        coeffs_well_formed(terms_view(a.terms@)),
        coeffs_well_formed(terms_view(b.terms@)),
    ensures
        is_normalization(q.terms@, product_view(terms_view(a.terms@), terms_view(b.terms@))),
        q.hash.0@ == spec_hash_terms(q.terms@),
{
    let ghost va = terms_view(a.terms@);
    let ghost vb = terms_view(b.terms@);
    let mut terms: Vec<TermQ> = Vec::new();
    let n = a.terms.len();
    let m = b.terms.len();
    for i in 0..n
        invariant
            n == a.terms@.len(),
            m == b.terms@.len(),
            va == terms_view(a.terms@),
            vb == terms_view(b.terms@),
            coeffs_well_formed(va),
            coeffs_well_formed(vb),
            views_equivalent(terms_view(terms@), product_view(va.take(i as int), vb)),
    {
        let ta = &a.terms[i];
        let ghost row_start = product_view(va.take(i as int), vb);
        proof {
            assert(va[i as int] == term_view(*ta));
            assert(va.take(i + 1).drop_last() == va.take(i as int));
            assert(va.take(i + 1).last() == va[i as int]);
        }
        for j in 0..m
            invariant
                n == a.terms@.len(),
                m == b.terms@.len(),
                i < n,
                va == terms_view(a.terms@),
                vb == terms_view(b.terms@),
                coeffs_well_formed(va),
                coeffs_well_formed(vb),
                va[i as int] == term_view(*ta),
                views_equivalent(terms_view(terms@), row_start + row_view(va[i as int], vb.take(j as int))),
        {
            let tb = &b.terms[j];
            proof {
                assert(vb[j as int] == term_view(*tb));
            }
            let coeff = mul_q(&ta.coeff, &tb.coeff);
            let mono = monomial_mul(&ta.monomial, &tb.monomial);
            let ghost prev = terms@;
            terms.push(TermQ { coeff, monomial: mono });
            proof {
                let x = term_view(terms@[prev.len() as int]);
                let y = (ta.coeff.num@ * tb.coeff.num@, ta.coeff.den@ * tb.coeff.den@, ta.monomial.exponents@ + tb.monomial.exponents@);
                assert forall|v: VariableId| exponent_of(mono.exponents@, v) == saturate(
                    #[trigger] total_exponent(ta.monomial.exponents@ + tb.monomial.exponents@, v),
                ) by {
                    lemma_total_concat(ta.monomial.exponents@, tb.monomial.exponents@, v);
                }
                lemma_normal_form_of(mono.exponents@, ta.monomial.exponents@ + tb.monomial.exponents@);
                lemma_normal_form_of_normal(mono.exponents@);
                assert(ta.coeff.den@ * tb.coeff.den@ != 0) by (nonlinear_arith)
                    requires
                        ta.coeff.den@ != 0,
                        tb.coeff.den@ != 0,
                ;
                assert(terms_view(terms@) =~= terms_view(prev).push(x));
                lemma_equivalent_push(
                    terms_view(prev),
                    row_start + row_view(va[i as int], vb.take(j as int)),
                    x,
                    y,
                );
                assert(row_view(va[i as int], vb.take(j + 1)) =~= row_view(va[i as int], vb.take(j as int)).push(y));
                assert(row_start + row_view(va[i as int], vb.take(j + 1)) =~= (row_start + row_view(
                    va[i as int],
                    vb.take(j as int),
                )).push(y));
            }
        }
        proof {
            assert(vb.take(m as int) == vb);
        }
    }
    proof {
        assert(va.take(n as int) == va);
        assert(coeffs_well_formed(terms_view(terms@))) by {
            let w = terms_view(terms@);
            assert forall|k: int| 0 <= k < w.len() implies (#[trigger] w[k]).1 != 0 by {}
        }
    }
    let q = normalize_terms(terms.as_slice());
    proof {
        lemma_normalization_equivalent(q.terms@, terms_view(terms@), product_view(va, vb));
    }
    q
}

/// The lcm of the denominators' absolute values (1 for none).
pub open spec fn den_lcm(v: Seq<(int, int, Seq<(VariableId, u32)>)>) -> nat
    decreases v.len(),
{
    if v.len() == 0 {
        1
    } else {
        spec_lcm(den_lcm(v.drop_last()), abs(v.last().1))
    }
}

/// Each coefficient brought over the common denominator `l`: `num * (l / den)`.
pub open spec fn integer_coeffs(v: Seq<(int, int, Seq<(VariableId, u32)>)>, l: int) -> Seq<int> {
    Seq::new(v.len(), |i: int| v[i].0 * trunc_div(l, v[i].1))
}

/// The gcd of the absolute values (0 for none).
pub open spec fn content_of(cs: Seq<int>) -> nat
    decreases cs.len(),
{
    if cs.len() == 0 {
        0
    } else {
        spec_gcd(content_of(cs.drop_last()), abs(cs.last()))
    }
}

/// The first nonzero value is negative.
pub open spec fn leading_negative(cs: Seq<int>) -> bool
    decreases cs.len(),
{
    if cs.len() == 0 {
        false
    } else if cs[0] != 0 {
        cs[0] < 0
    } else {
        leading_negative(cs.drop_first())
    }
}

/// The primitive integer coefficients: over the common denominator, divided by their content
/// (when it is neither 0 nor 1), and negated if the first nonzero one is negative.
pub open spec fn primitive_coeffs(v: Seq<(int, int, Seq<(VariableId, u32)>)>) -> Seq<int> {
    let cs = integer_coeffs(v, den_lcm(v) as int);
    let g = content_of(cs);
    let reduced = if g != 0 && g != 1 {
        Seq::new(cs.len(), |i: int| trunc_div(cs[i], g as int))
    } else {
        cs
    };
    if leading_negative(reduced) {
        Seq::new(reduced.len(), |i: int| -reduced[i])
    } else {
        reduced
    }
}

/// The terms with their primitive integer coefficients over denominator 1.
pub open spec fn cleared_view(v: Seq<(int, int, Seq<(VariableId, u32)>)>) -> Seq<(int, int, Seq<(VariableId, u32)>)> {
    Seq::new(v.len(), |i: int| (primitive_coeffs(v)[i], 1int, v[i].2))
}

fn leading_negative_exec(cs: &Vec<BigInt>) -> (r: bool)
    ensures
        r == leading_negative(cs@.map_values(|b: BigInt| b@)),
{
    let ghost vals = cs@.map_values(|b: BigInt| b@);
    let n = cs.len();
    let mut i: usize = 0;
    assert(vals.skip(0) == vals);
    while i < n
        invariant
            i <= n,
            n == cs@.len(),
            vals == cs@.map_values(|b: BigInt| b@),
            leading_negative(vals) == leading_negative(vals.skip(i as int)),
        decreases n - i,
    {
        proof {
            assert(vals.skip(i as int)[0] == cs@[i as int]@);
            assert(vals.skip(i as int).drop_first() == vals.skip(i + 1));
        }
        if !cs[i].is_zero() {
            return cs[i].is_negative();
        }
        i += 1;
    }
    assert(vals.skip(n as int).len() == 0);
    false
}

/// The primitive integer polynomial with the same roots: denominators cleared with their
/// lcm, the content divided out, and the sign fixed so the first nonzero coefficient is
/// positive.
pub fn clear_denominators_primitive(a: &SparsePolynomialQ) -> (q: SparsePolynomialQ)
    requires
        coeffs_well_formed(terms_view(a.terms@)),
    ensures
        is_normalization(q.terms@, cleared_view(terms_view(a.terms@))),
        q.hash.0@ == spec_hash_terms(q.terms@),
{
    let ghost v = terms_view(a.terms@);
    let n = a.terms.len();
    if n == 0 {
        let q = zero_poly();
        proof {
            assert(cleared_view(v).len() == 0);
            lemma_coeff_sum_zero_all(cleared_view(v));
            assert(q.terms@ =~= Seq::<TermQ>::empty());
        }
        return q;
    }
    let mut lcm = BigInt::one();
    for i in 0..n
        invariant
            n == a.terms@.len(),
            v == terms_view(a.terms@),
            lcm@ == den_lcm(v.take(i as int)),
    {
        proof {
            assert(v.take(i + 1).drop_last() == v.take(i as int));
            assert(v[i as int].1 == a.terms@[i as int].coeff.den@);
        }
        lcm = big_lcm(&lcm, &a.terms[i].coeff.den);
        proof {
            assert(abs(lcm@) == lcm@) by {
                assert(lcm@ >= 0);
            }
        }
    }
    assert(v.take(n as int) == v);
    let ghost l = lcm@;
    let ghost cs = integer_coeffs(v, l);
    let mut coeffs: Vec<BigInt> = Vec::new();
    for i in 0..n
        invariant
            n == a.terms@.len(),
            v == terms_view(a.terms@),
            coeffs_well_formed(v),
            l == lcm@,
            cs == integer_coeffs(v, l),
            coeffs@.map_values(|b: BigInt| b@) == cs.take(i as int),
    {
        proof {
            assert(v[i as int].1 == a.terms@[i as int].coeff.den@);
        }
        let share = big_div(&lcm, &a.terms[i].coeff.den);
        let c = big_mul(&a.terms[i].coeff.num, &share);
        let ghost prev = coeffs@;
        coeffs.push(c);
        assert(coeffs@.map_values(|b: BigInt| b@) =~= prev.map_values(|b: BigInt| b@).push(c@));
        assert(cs.take(i + 1) =~= cs.take(i as int).push(cs[i as int]));
    }
    assert(cs.take(n as int) == cs);
    let mut content = BigInt::zero();
    for i in 0..n
        invariant
            n == coeffs@.len(),
            coeffs@.map_values(|b: BigInt| b@) == cs,
            cs.len() == n,
            content@ == content_of(cs.take(i as int)),
    {
        proof {
            assert(cs.take(i + 1).drop_last() == cs.take(i as int));
            assert(cs[i as int] == coeffs@[i as int]@);
        }
        content = big_gcd(&content, &coeffs[i]);
        proof {
            assert(abs(content@) == content@) by {
                assert(content@ >= 0);
            }
        }
    }
    assert(cs.take(n as int) == cs);
    let ghost g = content_of(cs);
    let ghost reduced = if g != 0 && g != 1 {
        Seq::new(cs.len(), |i: int| trunc_div(cs[i], g as int))
    } else {
        cs
    };
    if !content.is_zero() && !content.equals(&BigInt::one()) {
        let mut divided: Vec<BigInt> = Vec::new();
        for i in 0..n
            invariant
                n == coeffs@.len(),
                coeffs@.map_values(|b: BigInt| b@) == cs,
                content@ == g,
                g != 0,
                divided@.len() == i,
                divided@.map_values(|b: BigInt| b@) == Seq::new(i as nat, |k: int| trunc_div(cs[k], g as int)),
        {
            proof {
                assert(cs[i as int] == coeffs@[i as int]@);
            }
            let c = big_div(&coeffs[i], &content);
            let ghost prev = divided@;
            divided.push(c);
            proof {
                let lhs = divided@.map_values(|b: BigInt| b@);
                let rhs = Seq::new((i + 1) as nat, |k: int| trunc_div(cs[k], g as int));
                assert forall|k: int| 0 <= k <= i implies lhs[k] == rhs[k] by {
                    if k < i {
                        assert(divided@[k] == prev[k]);
                        assert(prev.map_values(|b: BigInt| b@)[k] == prev[k]@);
                        assert(Seq::new(i as nat, |q: int| trunc_div(cs[q], g as int))[k] == rhs[k]);
                    } else {
                        assert(divided@[k] == c);
                    }
                }
                assert(lhs =~= rhs);
            }
        }
        coeffs = divided;
    }
    assert(coeffs@.map_values(|b: BigInt| b@) =~= reduced);
    let negate = leading_negative_exec(&coeffs);
    let ghost finals = primitive_coeffs(v);
    let mut terms: Vec<TermQ> = Vec::new();
    for i in 0..n
        invariant
            n == a.terms@.len(),
            n == coeffs@.len(),
            v == terms_view(a.terms@),
            coeffs@.map_values(|b: BigInt| b@) == reduced,
            reduced.len() == n,
            finals == primitive_coeffs(v),
            negate == leading_negative(reduced),
            finals == (if negate {
                Seq::new(reduced.len(), |k: int| -reduced[k])
            } else {
                reduced
            }),
            terms_view(terms@) == cleared_view(v).take(i as int),
    {
        let c = if negate {
            coeffs[i].neg()
        } else {
            coeffs[i].copy()
        };
        proof {
            assert(reduced[i as int] == coeffs@[i as int]@);
            assert(c@ == finals[i as int]);
            assert(v[i as int].2 == a.terms@[i as int].monomial.exponents@);
        }
        let ghost prev = terms@;
        let one = BigInt::one();
        let entries = copy_entries(&a.terms[i].monomial.exponents);
        let term = TermQ { coeff: RationalQ { num: c, den: one }, monomial: Monomial { exponents: entries } };
        proof {
            assert(term_view(term) == cleared_view(v)[i as int]);
        }
        terms.push(term);
        assert(terms_view(terms@) =~= terms_view(prev).push(term_view(term)));
        assert(cleared_view(v).take(i + 1) =~= cleared_view(v).take(i as int).push(cleared_view(v)[i as int]));
    }
    assert(cleared_view(v).take(n as int) == cleared_view(v));
    proof {
        assert(coeffs_well_formed(terms_view(terms@))) by {
            let w = terms_view(terms@);
            assert forall|k: int| 0 <= k < w.len() implies (#[trigger] w[k]).1 != 0 by {}
        }
    }
    normalize_terms(terms.as_slice())
}

/// The position of the first entry for `v`.
pub open spec fn first_var_index(e: Seq<(VariableId, u32)>, v: VariableId) -> Option<int>
    decreases e.len(),
{
    if e.len() == 0 {
        None
    } else if e[0].0 == v {
        Some(0)
    } else {
        match first_var_index(e.drop_first(), v) {
            Some(j) => Some(j + 1),
            None => None,
        }
    }
}

proof fn lemma_first_var_index(e: Seq<(VariableId, u32)>, v: VariableId)
    ensures
        first_var_index(e, v) matches Some(j) ==> 0 <= j < e.len() && e[j].0 == v && forall|k: int| 0 <= k < j ==> e[k].0 != v,
        first_var_index(e, v) is None ==> forall|k: int| 0 <= k < e.len() ==> e[k].0 != v,
    decreases e.len(),
{
    if e.len() > 0 && e[0].0 != v {
        lemma_first_var_index(e.drop_first(), v);
        if first_var_index(e, v) is None {
            assert forall|k: int| 0 <= k < e.len() implies e[k].0 != v by {
                if k > 0 {
                    assert(e[k] == e.drop_first()[k - 1]);
                }
            }
        } else {
            let j = first_var_index(e, v)->0;
            assert forall|k: int| 0 <= k < j implies e[k].0 != v by {
                if k > 0 {
                    assert(e[k] == e.drop_first()[k - 1]);
                }
            }
        }
    }
}

/// The derivative of each term in `v` (terms without `v` vanish): the coefficient times the
/// exponent of the first `v` entry, that entry's exponent lowered by one.
pub open spec fn derivative_view(ts: Seq<(int, int, Seq<(VariableId, u32)>)>, v: VariableId) -> Seq<(int, int, Seq<(VariableId, u32)>)>
    decreases ts.len(),
{
    if ts.len() == 0 {
        Seq::empty()
    } else {
        let prev = derivative_view(ts.drop_last(), v);
        let x = ts.last();
        match first_var_index(x.2, v) {
            Some(j) => prev.push((x.0 * x.2[j].1, x.1, x.2.update(j, (v, (x.2[j].1 - 1) as u32)))),
            None => prev,
        }
    }
}

/// The first entry for `v` in each term, if any, has a positive exponent (lowering it would
/// underflow otherwise).
pub open spec fn derivative_defined(ts: Seq<(int, int, Seq<(VariableId, u32)>)>, v: VariableId) -> bool {
    forall|i: int|
        0 <= i < ts.len() ==> match first_var_index((#[trigger] ts[i]).2, v) {
            Some(j) => ts[i].2[j].1 > 0,
            None => true,
        }
}

/// The partial derivative in `v`.
pub fn poly_derivative(a: &SparsePolynomialQ, v: VariableId) -> (q: SparsePolynomialQ)
    requires
        coeffs_well_formed(terms_view(a.terms@)),
        derivative_defined(terms_view(a.terms@), v),
    ensures
        is_normalization(q.terms@, derivative_view(terms_view(a.terms@), v)),
        q.hash.0@ == spec_hash_terms(q.terms@),
{
    let ghost va = terms_view(a.terms@);
    let mut terms: Vec<TermQ> = Vec::new();
    let n = a.terms.len();
    for i in 0..n
        invariant
            n == a.terms@.len(),
            va == terms_view(a.terms@),
            coeffs_well_formed(va),
            derivative_defined(va, v),
            views_equivalent(terms_view(terms@), derivative_view(va.take(i as int), v)),
    {
        let term = &a.terms[i];
        let ghost e = term.monomial.exponents@;
        proof {
            assert(va[i as int] == term_view(*term));
            assert(va.take(i + 1).drop_last() == va.take(i as int));
            assert(va.take(i + 1).last() == va[i as int]);
            lemma_first_var_index(e, v);
        }
        let mut entries = copy_entries(&term.monomial.exponents);
        let m = entries.len();
        let mut j: usize = 0;
        while j < m && entries[j].0.0 != v.0
            invariant
                j <= m,
                m == entries@.len(),
                entries@ == e,
                forall|k: int| 0 <= k < j ==> e[k].0 != v,
            decreases m - j,
        {
            j += 1;
        }
        if j < m {
            proof {
                assert(e[j as int].0 == v);
                assert(first_var_index(e, v) == Some(j as int)) by {
                    if first_var_index(e, v) is None {
                        assert(e[j as int].0 != v);
                    } else {
                        let f = first_var_index(e, v)->0;
                        if f < j {
                            assert(e[f].0 != v);
                        } else if f > j {
                            assert(e[j as int].0 != v);
                        }
                    }
                }
                assert(e[j as int].1 > 0);
            }
            let exp = entries[j].1;
            entries.set(j, (v, exp - 1));
            let ghost updated = entries@;
            let coeff = mul_q(&term.coeff, &int_q(exp as i64));
            let mono = normalize_monomial(entries);
            let ghost prev = terms@;
            terms.push(TermQ { coeff, monomial: mono });
            proof {
                let x = term_view(terms@[prev.len() as int]);
                let y = (term.coeff.num@ * exp, term.coeff.den@, e.update(j as int, (v, (exp - 1) as u32)));
                assert(updated == e.update(j as int, (v, (exp - 1) as u32)));
                lemma_normal_form_of(mono.exponents@, updated);
                lemma_normal_form_of_normal(mono.exponents@);
                assert(same_ratio(x.0, x.1, y.0, y.1)) by {
                    assert(term.coeff.den@ * 1 == term.coeff.den@);
                }
                assert(terms_view(terms@) =~= terms_view(prev).push(x));
                lemma_equivalent_push(terms_view(prev), derivative_view(va.take(i as int), v), x, y);
            }
        } else {
            proof {
                if first_var_index(e, v) is Some {
                    let f = first_var_index(e, v)->0;
                    assert(e[f].0 != v);
                }
            }
        }
    }
    proof {
        assert(va.take(n as int) == va);
        assert(coeffs_well_formed(terms_view(terms@))) by {
            let w = terms_view(terms@);
            assert forall|k: int| 0 <= k < w.len() implies (#[trigger] w[k]).1 != 0 by {}
        }
    }
    let q = normalize_terms(terms.as_slice());
    proof {
        lemma_normalization_equivalent(q.terms@, terms_view(terms@), derivative_view(va, v));
    }
    q
}

/// A term whose coefficient has the value of a sum is zero exactly when the sum is.
pub proof fn lemma_coeff_sum_den_pub(v: Seq<(int, int, Seq<(VariableId, u32)>)>, m: Seq<(VariableId, u32)>, n: int, d: int)
    requires
        d != 0,
        coeffs_well_formed(v),
        same_ratio(n, d, coeff_sum(v, m).0, coeff_sum(v, m).1),
    ensures
        (n == 0) == (coeff_sum(v, m).0 == 0),
{
    lemma_coeff_sum_den(v, m);
    lemma_ratio_zero(n, d, coeff_sum(v, m).0, coeff_sum(v, m).1);
}

pub open spec fn strictly_increasing_monomials(s: Seq<Seq<(VariableId, u32)>>) -> bool {
    forall|i: int, j: int| 0 <= i < j < s.len() ==> entries_order(#[trigger] s[i], #[trigger] s[j]) < 0
}

proof fn lemma_increasing_same_elements(a: Seq<Seq<(VariableId, u32)>>, b: Seq<Seq<(VariableId, u32)>>)
    requires
        strictly_increasing_monomials(a),
        strictly_increasing_monomials(b),
        forall|m: Seq<(VariableId, u32)>| #[trigger] a.contains(m) == b.contains(m),
    ensures
        a == b,
    decreases a.len() + b.len(),
{
    if a.len() == 0 || b.len() == 0 {
        if b.len() > 0 {
            assert(b.contains(b[0]));
            assert(a.contains(b[0]));
        }
        if a.len() > 0 {
            assert(a.contains(a[0]));
            assert(b.contains(a[0]));
        }
        assert(a =~= b);
    } else {
        assert(a.contains(a[0]));
        assert(b.contains(a[0]));
        let j = choose|j: int| 0 <= j < b.len() && b[j] == a[0];
        assert(b.contains(b[0]));
        assert(a.contains(b[0]));
        let i = choose|i: int| 0 <= i < a.len() && a[i] == b[0];
        if j > 0 {
            assert(entries_order(b[0], b[j]) < 0);
            lemma_entries_order_zero(b[0], b[0]);
            if i > 0 {
                assert(entries_order(a[0], a[i]) < 0);
                lemma_entries_order_trans(b[0], a[0], b[0]);
            }
        }
        assert(a[0] == b[0]);
        let ta = a.drop_first();
        let tb = b.drop_first();
        assert forall|m: Seq<(VariableId, u32)>| #[trigger] ta.contains(m) == tb.contains(m) by {
            if ta.contains(m) {
                let k = choose|k: int| 0 <= k < ta.len() && ta[k] == m;
                assert(a[k + 1] == m);
                assert(a.contains(m));
                assert(b.contains(m));
                let l = choose|l: int| 0 <= l < b.len() && b[l] == m;
                assert(entries_order(a[0], a[k + 1]) < 0);
                if l == 0 {
                    lemma_entries_order_zero(a[0], a[k + 1]);
                }
                assert(tb[l - 1] == m);
            }
            if tb.contains(m) {
                let k = choose|k: int| 0 <= k < tb.len() && tb[k] == m;
                assert(b[k + 1] == m);
                assert(b.contains(m));
                assert(a.contains(m));
                let l = choose|l: int| 0 <= l < a.len() && a[l] == m;
                assert(entries_order(b[0], b[k + 1]) < 0);
                if l == 0 {
                    lemma_entries_order_zero(b[0], b[k + 1]);
                }
                assert(ta[l - 1] == m);
            }
        }
        assert(strictly_increasing_monomials(ta)) by {
            assert forall|x: int, y: int| 0 <= x < y < ta.len() implies entries_order(#[trigger] ta[x], #[trigger] ta[y]) < 0 by {
                assert(ta[x] == a[x + 1] && ta[y] == a[y + 1]);
            }
        }
        assert(strictly_increasing_monomials(tb)) by {
            assert forall|x: int, y: int| 0 <= x < y < tb.len() implies entries_order(#[trigger] tb[x], #[trigger] tb[y]) < 0 by {
                assert(tb[x] == b[x + 1] && tb[y] == b[y + 1]);
            }
        }
        lemma_increasing_same_elements(ta, tb);
        assert(a =~= seq![a[0]] + ta);
        assert(b =~= seq![b[0]] + tb);
    }
}

pub open spec fn monomials_of(q: Seq<TermQ>) -> Seq<Seq<(VariableId, u32)>> {
    q.map_values(|t: TermQ| t.monomial.exponents@)
}

/// Normalization is determined by the terms it normalizes: two normalizations of the same
/// (well-formed) term list have the same monomials in the same order, with coefficients of
/// the same value.
pub proof fn lemma_normalization_unique(q1: Seq<TermQ>, q2: Seq<TermQ>, v: Seq<(int, int, Seq<(VariableId, u32)>)>)
    requires
        coeffs_well_formed(v),
        is_normalization(q1, v),
        is_normalization(q2, v),
    ensures
        monomials_of(q1) == monomials_of(q2),
        forall|i: int|
            0 <= i < q1.len() ==> same_ratio(
                (#[trigger] q1[i]).coeff.num@,
                q1[i].coeff.den@,
                q2[i].coeff.num@,
                q2[i].coeff.den@,
            ),
{
    let a = monomials_of(q1);
    let b = monomials_of(q2);
    assert forall|m: Seq<(VariableId, u32)>| #[trigger] a.contains(m) == b.contains(m) by {
        if a.contains(m) {
            let k = choose|k: int| 0 <= k < a.len() && a[k] == m;
            let t = q1[k];
            assert(term_monomial(t) == m);
            lemma_coeff_sum_den_pub(v, m, t.coeff.num@, t.coeff.den@);
            let l = choose|l: int| 0 <= l < q2.len() && term_monomial(q2[l]) == m;
            assert(b[l] == m);
        }
        if b.contains(m) {
            let k = choose|k: int| 0 <= k < b.len() && b[k] == m;
            let t = q2[k];
            assert(term_monomial(t) == m);
            lemma_coeff_sum_den_pub(v, m, t.coeff.num@, t.coeff.den@);
            let l = choose|l: int| 0 <= l < q1.len() && term_monomial(q1[l]) == m;
            assert(a[l] == m);
        }
    }
    assert(strictly_increasing_monomials(a)) by {
        assert forall|x: int, y: int| 0 <= x < y < a.len() implies entries_order(#[trigger] a[x], #[trigger] a[y]) < 0 by {
            assert(entries_order(term_monomial(q1[x]), term_monomial(q1[y])) < 0);
        }
    }
    assert(strictly_increasing_monomials(b)) by {
        assert forall|x: int, y: int| 0 <= x < y < b.len() implies entries_order(#[trigger] b[x], #[trigger] b[y]) < 0 by {
            assert(entries_order(term_monomial(q2[x]), term_monomial(q2[y])) < 0);
        }
    }
    lemma_increasing_same_elements(a, b);
    assert forall|i: int| 0 <= i < q1.len() implies same_ratio(
        (#[trigger] q1[i]).coeff.num@,
        q1[i].coeff.den@,
        q2[i].coeff.num@,
        q2[i].coeff.den@,
    ) by {
        assert(a[i] == b[i]);
        let m = a[i];
        let t1 = q1[i];
        let t2 = q2[i];
        assert(term_monomial(t2) == m);
        lemma_coeff_sum_den(v, m);
        let s = coeff_sum(v, m);
        assert(same_ratio(t2.coeff.num@, t2.coeff.den@, s.0, s.1));
        assert(same_ratio(s.0, s.1, t2.coeff.num@, t2.coeff.den@));
        lemma_ratio_trans(t1.coeff.num@, t1.coeff.den@, s.0, s.1, t2.coeff.num@, t2.coeff.den@);
    }
}

// ----- powers and substitution -----

/// A polynomial in normal form: strictly increasing normal monomials, nonzero coefficients
/// with nonzero denominators, and the digest of its terms.
pub open spec fn is_normal_poly(p: SparsePolynomialQ) -> bool {
    &&& forall|i: int, j: int|
        0 <= i < j < p.terms@.len() ==> entries_order(term_monomial(#[trigger] p.terms@[i]), term_monomial(#[trigger] p.terms@[j])) < 0
    &&& forall|i: int|
        0 <= i < p.terms@.len() ==> is_normal_entries(term_monomial(#[trigger] p.terms@[i])) && p.terms@[i].coeff.num@ != 0
            && p.terms@[i].coeff.den@ != 0
    &&& p.hash.0@ == spec_hash_terms(p.terms@)
}

pub proof fn lemma_normal_poly_of(q: SparsePolynomialQ, v: Seq<(int, int, Seq<(VariableId, u32)>)>)
    requires
        is_normalization(q.terms@, v),
        q.hash.0@ == spec_hash_terms(q.terms@),
    ensures
        is_normal_poly(q),
        coeffs_well_formed(terms_view(q.terms@)),
{
    assert forall|i: int| 0 <= i < terms_view(q.terms@).len() implies (#[trigger] terms_view(q.terms@)[i]).1 != 0 by {
        assert(terms_view(q.terms@)[i].1 == q.terms@[i].coeff.den@);
    }
}

pub proof fn lemma_normal_poly_well_formed(q: SparsePolynomialQ)
    requires
        is_normal_poly(q),
    ensures
        coeffs_well_formed(terms_view(q.terms@)),
{
    assert forall|i: int| 0 <= i < terms_view(q.terms@).len() implies (#[trigger] terms_view(q.terms@)[i]).1 != 0 by {
        assert(terms_view(q.terms@)[i].1 == q.terms@[i].coeff.den@);
    }
}

/// The single term 1.
pub open spec fn one_view() -> Seq<(int, int, Seq<(VariableId, u32)>)> {
    seq![(1int, 1int, Seq::<(VariableId, u32)>::empty())]
}

/// `r` is the normal form of `b` to the power `e`, taken as `e` successive multiplications of
/// the constant 1 by `b`, each brought to normal form.
pub open spec fn is_power_of(r: Seq<TermQ>, b: Seq<(int, int, Seq<(VariableId, u32)>)>, e: nat) -> bool
    decreases e,
{
    if e == 0 {
        is_normalization(r, one_view())
    } else {
        exists|p: Seq<TermQ>| is_power_of(p, b, (e - 1) as nat) && #[trigger] is_normalization(r, product_view(terms_view(p), b))
    }
}

/// `base` to the power `exp`, by repeated multiplication from the constant 1.
pub fn poly_pow(base: &SparsePolynomialQ, exp: u32) -> (r: SparsePolynomialQ)
    requires
        coeffs_well_formed(terms_view(base.terms@)),
    ensures
        is_normal_poly(r),
        is_power_of(r.terms@, terms_view(base.terms@), exp as nat),
{
    let mut result = constant_poly(int_q(1));
    proof {
        lemma_normal_poly_of(result, one_view());
    }
    for k in 0..exp
        invariant
            is_normal_poly(result),
            coeffs_well_formed(terms_view(base.terms@)),
            is_power_of(result.terms@, terms_view(base.terms@), k as nat),
    {
        proof {
            lemma_normal_poly_well_formed(result);
        }
        let next = poly_mul(&result, base);
        proof {
            lemma_normal_poly_of(next, product_view(terms_view(result.terms@), terms_view(base.terms@)));
            assert(is_power_of(next.terms@, terms_view(base.terms@), (k + 1) as nat));
        }
        result = next;
    }
    result
}

/// Variable-to-polynomial substitutions; the first entry for a variable applies.
pub type SubstitutionMap = Vec<(VariableId, SparsePolynomialQ)>;

pub open spec fn substitution_well_formed(subst: Seq<(VariableId, SparsePolynomialQ)>) -> bool {
    forall|i: int| 0 <= i < subst.len() ==> coeffs_well_formed(terms_view((#[trigger] subst[i]).1.terms@))
}

/// Entry `i` is the first entry for `v`.
pub open spec fn is_first_entry(subst: Seq<(VariableId, SparsePolynomialQ)>, v: VariableId, i: int) -> bool {
    0 <= i < subst.len() && subst[i].0 == v && forall|k: int| 0 <= k < i ==> (#[trigger] subst[k]).0 != v
}

/// What `v` is replaced by: the first entry for it, or `None` to keep the variable.
fn lookup_substitution(subst: &SubstitutionMap, v: VariableId) -> (r: Option<&SparsePolynomialQ>)
    ensures
        r matches Some(p) ==> exists|i: int| #[trigger] is_first_entry(subst@, v, i) && subst@[i].1 == *p,
        r is None ==> forall|i: int| 0 <= i < subst@.len() ==> (#[trigger] subst@[i]).0 != v,
{
    for i in 0..subst.len()
        invariant
            forall|k: int| 0 <= k < i ==> (#[trigger] subst@[k]).0 != v,
    {
        if subst[i].0 == v {
            proof {
                assert(is_first_entry(subst@, v, i as int));
            }
            return Some(&subst[i].1);
        }
    }
    None
}

/// The polynomial `v` stands for: its first entry, or `v` itself (in normal form, `bt`).
pub open spec fn is_image_base(bt: Seq<TermQ>, subst: Seq<(VariableId, SparsePolynomialQ)>, v: VariableId) -> bool {
    ||| exists|i: int| #[trigger] is_first_entry(subst, v, i) && bt == subst[i].1.terms@
    ||| (forall|i: int| 0 <= i < subst.len() ==> (#[trigger] subst[i]).0 != v) && is_normalization(bt, seq![(1int, 1int, seq![(v, 1u32)])])
}

/// `q` is the term `num/den · e` with each variable replaced, factor by factor from the first
/// entry, each product in normal form.
pub open spec fn is_term_image(q: Seq<TermQ>, num: int, den: int, e: Seq<(VariableId, u32)>, subst: Seq<(VariableId, SparsePolynomialQ)>) -> bool
    decreases e.len(),
{
    if e.len() == 0 {
        is_normalization(q, seq![(num, den, Seq::<(VariableId, u32)>::empty())])
    } else {
        exists|p: Seq<TermQ>, bt: Seq<TermQ>, w: Seq<TermQ>|
            #![trigger is_image_base(bt, subst, e.last().0), is_normalization(q, product_view(terms_view(p), terms_view(w)))]
            is_term_image(p, num, den, e.drop_last(), subst) && is_image_base(bt, subst, e.last().0) && is_power_of(
                w,
                terms_view(bt),
                e.last().1 as nat,
            ) && is_normalization(q, product_view(terms_view(p), terms_view(w)))
    }
}

/// `r` is the sum of the images of `ts`, term by term, each partial sum in normal form.
pub open spec fn is_substitution_image(r: Seq<TermQ>, ts: Seq<TermQ>, subst: Seq<(VariableId, SparsePolynomialQ)>) -> bool
    decreases ts.len(),
{
    if ts.len() == 0 {
        r.len() == 0
    } else {
        exists|p: Seq<TermQ>, q: Seq<TermQ>|
            is_substitution_image(p, ts.drop_last(), subst) && is_term_image(
                q,
                ts.last().coeff.num@,
                ts.last().coeff.den@,
                ts.last().monomial.exponents@,
                subst,
            ) && #[trigger] is_normalization(r, terms_view(p) + terms_view(q))
    }
}

/// Replaces each variable of `a` that `subst` maps by its polynomial, expanding the products
/// and powers and summing the terms.
pub fn substitute_poly(a: &SparsePolynomialQ, subst: &SubstitutionMap) -> (r: SparsePolynomialQ)
    requires
        coeffs_well_formed(terms_view(a.terms@)),
        substitution_well_formed(subst@),
    ensures
        is_normal_poly(r),
        is_substitution_image(r.terms@, a.terms@, subst@),
        a.terms@.len() == 0 ==> r.terms@.len() == 0,
{
    let mut acc = zero_poly();
    proof {
        lemma_normal_poly_of(acc, Seq::empty());
        assert(a.terms@.take(0).len() == 0);
    }
    let n = a.terms.len();
    for i in 0..n
        invariant
            n == a.terms@.len(),
            coeffs_well_formed(terms_view(a.terms@)),
            substitution_well_formed(subst@),
            is_normal_poly(acc),
            is_substitution_image(acc.terms@, a.terms@.take(i as int), subst@),
            i == 0 ==> acc.terms@.len() == 0,
    {
        let term = &a.terms[i];
        proof {
            assert(terms_view(a.terms@)[i as int].1 == term.coeff.den@);
        }
        let mut product = constant_poly(copy_q(&term.coeff));
        proof {
            lemma_normal_poly_of(product, seq![(term.coeff.num@, term.coeff.den@, Seq::<(VariableId, u32)>::empty())]);
            assert(term.monomial.exponents@.take(0).len() == 0);
        }
        let m = term.monomial.exponents.len();
        for k in 0..m
            invariant
                m == term.monomial.exponents@.len(),
                substitution_well_formed(subst@),
                is_normal_poly(product),
                is_term_image(product.terms@, term.coeff.num@, term.coeff.den@, term.monomial.exponents@.take(k as int), subst@),
        {
            let (var, exp) = term.monomial.exponents[k];
            let ghost bt: Seq<TermQ>;
            let power = match lookup_substitution(subst, var) {
                Some(base) => {
                    proof {
                        let j = choose|j: int| #[trigger] is_first_entry(subst@, var, j) && subst@[j].1 == *base;
                        assert(coeffs_well_formed(terms_view(subst@[j].1.terms@)));
                        bt = base.terms@;
                        assert(is_image_base(bt, subst@, var));
                    }
                    poly_pow(base, exp)
                },
                None => {
                    let v = variable_poly(var);
                    proof {
                        lemma_normal_poly_of(v, seq![(1int, 1int, seq![(var, 1u32)])]);
                        bt = v.terms@;
                        assert(is_image_base(bt, subst@, var));
                    }
                    poly_pow(&v, exp)
                },
            };
            proof {
                lemma_normal_poly_well_formed(product);
                lemma_normal_poly_well_formed(power);
            }
            let next = poly_mul(&product, &power);
            proof {
                lemma_normal_poly_of(next, product_view(terms_view(product.terms@), terms_view(power.terms@)));
                let e1 = term.monomial.exponents@.take(k + 1);
                assert(e1.drop_last() == term.monomial.exponents@.take(k as int));
                assert(e1.last() == (var, exp));
                assert(is_power_of(power.terms@, terms_view(bt), exp as nat));
                assert(is_term_image(next.terms@, term.coeff.num@, term.coeff.den@, e1, subst@));
            }
            product = next;
        }
        proof {
            lemma_normal_poly_well_formed(acc);
            lemma_normal_poly_well_formed(product);
            assert(term.monomial.exponents@.take(m as int) == term.monomial.exponents@);
        }
        let next = poly_add(&acc, &product);
        proof {
            lemma_normal_poly_of(next, terms_view(acc.terms@) + terms_view(product.terms@));
            let t1 = a.terms@.take(i + 1);
            assert(t1.drop_last() == a.terms@.take(i as int));
            assert(t1.last() == *term);
            assert(is_substitution_image(next.terms@, t1, subst@));
        }
        acc = next;
    }
    proof {
        assert(a.terms@.take(n as int) == a.terms@);
    }
    acc
}

} // verus!
