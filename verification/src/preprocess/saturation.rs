//! Explicit nonzero witnesses `f * s - 1 = 0` (or `f * s + 1 = 0`) and the saturations and
//! guards they justify.
use vstd::prelude::*;

use crate::preprocess::compression::{
    guard_index, is_guard_for, is_saturation_for, has_saturation_hash, relations_well_formed, CompressionState, GuardKind,
};
use crate::problem::canonicalize::{lemma_normalization_empty, view_is_zero, CanonicalRelationQ};
use crate::problem::context::SolverContext;
use crate::problem::semantic::RealConstraintEncoding;
use crate::result::status::SolverError;
use crate::types::hash::{self, hash_sequence, hash_order, lex_order};
use crate::types::id_set::var_ids_increasing;
use crate::types::ids::{RelationId, VariableId};
use crate::types::monomial::{exponent_of, lemma_normal_form_of, normal_form, normalize_monomial, occurs, saturate, total_exponent, Monomial};
use crate::types::polynomial::{
    coeffs_well_formed, copy_poly, copy_q, is_normalization, lemma_normal_poly_of, lemma_normalization_equivalent,
    neg_view, normalize_poly, poly_variables, poly_view, spec_hash_terms, term_monomial, terms_view, views_equivalent,
    SparsePolynomialQ, TermQ,
};
use crate::types::rational::{is_zero_q, neg_q};

verus! {

#[derive(Debug, Clone, PartialEq, Eq)]
pub struct ExplicitNonzeroWitness {
    pub factor: SparsePolynomialQ,
    pub witness_relation_id: RelationId,
    pub slack_variable: VariableId,
}

/// The exponent at the first entry naming `v` (0 when none does).
pub open spec fn first_exponent(e: Seq<(VariableId, u32)>, v: VariableId) -> nat
    decreases e.len(),
{
    if e.len() == 0 {
        0
    } else if e[0].0 == v {
        e[0].1 as nat
    } else {
        first_exponent(e.drop_first(), v)
    }
}

/// The entries not naming `v`, in order.
pub open spec fn entries_without(e: Seq<(VariableId, u32)>, v: VariableId) -> Seq<(VariableId, u32)>
    decreases e.len(),
{
    if e.len() == 0 {
        Seq::empty()
    } else if e.last().0 == v {
        entries_without(e.drop_last(), v)
    } else {
        entries_without(e.drop_last(), v).push(e.last())
    }
}

/// Every term is a constant or linear in `s`.
pub open spec fn witness_shape(ts: Seq<TermQ>, s: VariableId) -> bool {
    forall|i: int|
        0 <= i < ts.len() ==> first_exponent(term_monomial(#[trigger] ts[i]), s) <= 1 && (first_exponent(term_monomial(ts[i]), s)
            == 0 ==> term_monomial(ts[i]).len() == 0)
}

/// The terms linear in `s`, with `s` removed.
pub open spec fn linear_view(ts: Seq<TermQ>, s: VariableId) -> Seq<(int, int, Seq<(VariableId, u32)>)>
    decreases ts.len(),
{
    if ts.len() == 0 {
        Seq::empty()
    } else {
        let r = linear_view(ts.drop_last(), s);
        let t = ts.last();
        if first_exponent(term_monomial(t), s) == 1 {
            r.push((t.coeff.num@, t.coeff.den@, entries_without(term_monomial(t), s)))
        } else {
            r
        }
    }
}

/// The coefficient of the last term free of `s`, if any.
pub open spec fn constant_value(ts: Seq<TermQ>, s: VariableId) -> Option<(int, int)>
    decreases ts.len(),
{
    if ts.len() == 0 {
        None
    } else if first_exponent(term_monomial(ts.last()), s) == 0 {
        Some((ts.last().coeff.num@, ts.last().coeff.den@))
    } else {
        constant_value(ts.drop_last(), s)
    }
}

/// `ts` reads `f * s - 1` or `f * s + 1` with a nonzero `f` free of `s`.
pub open spec fn is_witness_slack(ts: Seq<TermQ>, s: VariableId) -> bool {
    &&& witness_shape(ts, s)
    &&& !view_is_zero(linear_view(ts, s))
    &&& (constant_value(ts, s) == Some((-1int, 1int)) || constant_value(ts, s) == Some((1int, 1int)))
}

/// `f` is the factor the witness `ts` gives for slack `s`: the linear part for `f * s - 1`,
/// its negation for `f * s + 1`.
pub open spec fn is_witness_factor(f: SparsePolynomialQ, ts: Seq<TermQ>, s: VariableId) -> bool {
    &&& f.hash.0@ == spec_hash_terms(f.terms@)
    &&& constant_value(ts, s) == Some((-1int, 1int)) ==> is_normalization(f.terms@, linear_view(ts, s))
    &&& constant_value(ts, s) == Some((1int, 1int)) ==> exists|g: Seq<TermQ>|
        is_normalization(g, linear_view(ts, s)) && is_normalization(f.terms@, neg_view(terms_view(g)))
}

pub fn first_exponent_exec(e: &Vec<(VariableId, u32)>, v: VariableId) -> (r: u32)
    ensures
        r == first_exponent(e@, v),
{
    let n = e.len();
    let mut i: usize = 0;
    assert(e@.skip(0) == e@);
    while i < n
        invariant
            i <= n,
            n == e@.len(),
            first_exponent(e@, v) == first_exponent(e@.skip(i as int), v),
        decreases n - i,
    {
        assert(e@.skip(i as int).drop_first() == e@.skip(i + 1));
        if e[i].0 == v {
            return e[i].1;
        }
        i += 1;
    }
    0
}

pub fn without_entries(e: &Vec<(VariableId, u32)>, v: VariableId) -> (r: Vec<(VariableId, u32)>)
    ensures
        r@ == entries_without(e@, v),
{
    let mut r: Vec<(VariableId, u32)> = Vec::new();
    for i in 0..e.len()
        invariant
            r@ == entries_without(e@.take(i as int), v),
    {
        assert(e@.take(i + 1).drop_last() == e@.take(i as int));
        if e[i].0 != v {
            r.push(e[i]);
        }
    }
    assert(e@.take(e@.len() as int) == e@);
    r
}

/// The witness reading of `poly` for slack `s`: `None` unless it has the shape and a nonzero
/// linear part; otherwise the factor (when the constant is -1 or 1) or `Some(None)`.
fn witness_for(poly: &SparsePolynomialQ, s: VariableId) -> (r: Option<SparsePolynomialQ>)
    requires
        coeffs_well_formed(terms_view(poly.terms@)),
    ensures
        r is Some <==> is_witness_slack(poly.terms@, s),
        r matches Some(f) ==> is_witness_factor(f, poly.terms@, s),
{
    let ts = &poly.terms;
    let n = ts.len();
    let mut valid = true;
    let mut constant: Option<usize> = None;
    let mut factor_terms: Vec<TermQ> = Vec::new();
    let mut i: usize = 0;
    while valid && i < n
        invariant
            i <= n,
            n == ts@.len(),
            coeffs_well_formed(terms_view(ts@)),
            valid ==> witness_shape(ts@.take(i as int), s),
            !valid ==> !witness_shape(ts@, s),
            valid ==> views_equivalent(terms_view(factor_terms@), linear_view(ts@.take(i as int), s)),
            valid ==> match constant {
                Some(k) => k < i && constant_value(ts@.take(i as int), s) == Some((ts@[k as int].coeff.num@, ts@[k as int].coeff.den@)),
                None => constant_value(ts@.take(i as int), s) is None,
            },
        decreases n - i + (if valid { 1int } else { 0int }),
    {
        let t = &ts[i];
        let e = first_exponent_exec(&t.monomial.exponents, s);
        let ghost pre = ts@.take(i as int);
        let ghost post = ts@.take(i + 1);
        proof {
            assert(post.drop_last() == pre);
            assert(post.last() == ts@[i as int]);
            assert(terms_view(ts@)[i as int].1 == t.coeff.den@);
        }
        if e == 0 {
            if t.monomial.exponents.len() > 0 {
                valid = false;
                proof {
                    assert(!witness_shape(ts@, s)) by {
                        assert(first_exponent(term_monomial(ts@[i as int]), s) == 0);
                    }
                }
            } else {
            constant = Some(i);
            proof {
                assert forall|j: int| 0 <= j < post.len() implies first_exponent(term_monomial(#[trigger] post[j]), s) <= 1
                    && (first_exponent(term_monomial(post[j]), s) == 0 ==> term_monomial(post[j]).len() == 0) by {
                    if j < pre.len() {
                        assert(post[j] == pre[j]);
                    }
                }
                assert(linear_view(post, s) == linear_view(pre, s));
            }
            i += 1;
            }
        } else if e == 1 {
            let without = without_entries(&t.monomial.exponents, s);
            let ghost w = without@;
            let mono = normalize_monomial(without);
            let ghost old_terms = factor_terms@;
            factor_terms.push(TermQ { coeff: copy_q(&t.coeff), monomial: mono });
            proof {
                lemma_normal_form_of(mono.exponents@, w);
                assert(crate::types::monomial::is_normal_entries(mono.exponents@));
                crate::types::polynomial::lemma_normal_form_of_normal(mono.exponents@);
                let a = terms_view(factor_terms@);
                let b = linear_view(post, s);
                assert(a == terms_view(old_terms).push(a[a.len() - 1]));
                assert(b == linear_view(pre, s).push((t.coeff.num@, t.coeff.den@, entries_without(term_monomial(*t), s))));
                assert forall|j: int| 0 <= j < a.len() implies {
                    &&& normal_form((#[trigger] a[j]).2) == normal_form(b[j].2)
                    &&& a[j].1 != 0
                    &&& b[j].1 != 0
                    &&& crate::types::rational::same_ratio(a[j].0, a[j].1, b[j].0, b[j].1)
                } by {
                    if j < a.len() - 1 {
                        assert(a[j] == terms_view(old_terms)[j]);
                        assert(b[j] == linear_view(pre, s)[j]);
                    }
                }
                assert forall|j: int| 0 <= j < post.len() implies first_exponent(term_monomial(#[trigger] post[j]), s) <= 1
                    && (first_exponent(term_monomial(post[j]), s) == 0 ==> term_monomial(post[j]).len() == 0) by {
                    if j < pre.len() {
                        assert(post[j] == pre[j]);
                    }
                }
            }
            i += 1;
        } else {
            valid = false;
            proof {
                assert(!witness_shape(ts@, s)) by {
                    assert(first_exponent(term_monomial(ts@[i as int]), s) > 1);
                }
            }
        }
    }
    if !valid {
        return None;
    }
    proof {
        assert(ts@.take(n as int) == ts@);
    }
    if factor_terms.len() == 0 {
        proof {
            assert(linear_view(ts@, s).len() == 0);
            assert(view_is_zero(linear_view(ts@, s)));
        }
        return None;
    }
    proof {
        assert forall|j: int| 0 <= j < terms_view(factor_terms@).len() implies (#[trigger] terms_view(factor_terms@)[j]).1 != 0 by {
            assert(views_equivalent(terms_view(factor_terms@), linear_view(ts@, s)));
        }
    }
    let hash = hash_sequence("poly", &[]);
    let factor = normalize_poly(SparsePolynomialQ { terms: factor_terms, hash });
    proof {
        lemma_normalization_equivalent(factor.terms@, terms_view(factor_terms@), linear_view(ts@, s));
        assert(coeffs_well_formed(linear_view(ts@, s))) by {
            assert forall|j: int| 0 <= j < linear_view(ts@, s).len() implies (#[trigger] linear_view(ts@, s)[j]).1 != 0 by {
                assert(views_equivalent(terms_view(factor_terms@), linear_view(ts@, s)));
                assert(terms_view(factor_terms@)[j].1 != 0);
            }
        }
        lemma_normalization_empty(factor.terms@, linear_view(ts@, s));
    }
    if factor.terms.len() == 0 {
        return None;
    }
    match constant {
        None => None,
        Some(k) => {
            let c = &ts[k].coeff;
            let is_minus_one = c.num.equals(&crate::types::bigint::from_i64(-1)) && c.den.equals(&crate::types::bigint::BigInt::one());
            let is_one = c.num.equals(&crate::types::bigint::BigInt::one()) && c.den.equals(&crate::types::bigint::BigInt::one());
            if is_minus_one {
                Some(factor)
            } else if is_one {
                let mut negated: Vec<TermQ> = Vec::new();
                let m = factor.terms.len();
                for j in 0..m
                    invariant
                        m == factor.terms@.len(),
                        negated@.len() == j,
                        terms_view(negated@) == neg_view(terms_view(factor.terms@.take(j as int))),
                {
                    let ft = &factor.terms[j];
                    let ghost old_neg = negated@;
                    negated.push(TermQ {
                        coeff: neg_q(&ft.coeff),
                        monomial: Monomial { exponents: crate::types::monomial::copy_entries(&ft.monomial.exponents) },
                    });
                    proof {
                        assert(factor.terms@.take(j + 1) == factor.terms@.take(j as int).push(factor.terms@[j as int]));
                        assert(negated@ == old_neg.push(negated@[j as int]));
                        assert(terms_view(negated@) =~= terms_view(old_neg).push(crate::types::polynomial::term_view(negated@[j as int])));
                        assert(terms_view(factor.terms@.take(j + 1)) =~= terms_view(factor.terms@.take(j as int)).push(
                            crate::types::polynomial::term_view(factor.terms@[j as int]),
                        ));
                        assert(terms_view(negated@) =~= neg_view(terms_view(factor.terms@.take(j + 1))));
                    }
                }
                proof {
                    assert(factor.terms@.take(m as int) == factor.terms@);
                    crate::types::polynomial::lemma_normal_poly_of(factor, linear_view(ts@, s));
                    assert forall|j: int| 0 <= j < terms_view(negated@).len() implies (#[trigger] terms_view(negated@)[j]).1 != 0 by {
                        assert(terms_view(negated@)[j].1 == terms_view(factor.terms@)[j].1);
                    }
                }
                let h2 = hash_sequence("poly", &[]);
                let neg = normalize_poly(SparsePolynomialQ { terms: negated, hash: h2 });
                Some(neg)
            } else {
                None
            }
        },
    }
}

/// The nonzero witness a relation polynomial gives: the largest slack variable, among its
/// variables, for which it reads `f * s - 1` or `f * s + 1`, with the factor for it.
fn extract_nonzero_witness(poly: &SparsePolynomialQ) -> (r: Option<(SparsePolynomialQ, VariableId)>)
    requires
        coeffs_well_formed(terms_view(poly.terms@)),
    ensures
        r matches Some((f, s)) ==> is_witness_slack(poly.terms@, s) && is_witness_factor(f, poly.terms@, s) && exists|i: int|
            0 <= i < poly.terms@.len() && occurs(poly.terms@[i].monomial.exponents@, s),
        r matches Some((f, s)) ==> forall|v: VariableId|
            v.0 > s.0 && (exists|i: int| 0 <= i < poly.terms@.len() && occurs(poly.terms@[i].monomial.exponents@, v))
                ==> !is_witness_slack(poly.terms@, v),
        r is None ==> forall|v: VariableId|
            (exists|i: int| 0 <= i < poly.terms@.len() && occurs(poly.terms@[i].monomial.exponents@, v)) ==> !is_witness_slack(
                poly.terms@,
                v,
            ),
{
    let vars = poly_variables(poly);
    let mut k = vars.len();
    while k > 0
        invariant
            k <= vars@.len(),
            coeffs_well_formed(terms_view(poly.terms@)),
            var_ids_increasing(vars@),
            forall|v: VariableId| #[trigger] vars@.contains(v) <==> exists|i: int|
                0 <= i < poly.terms@.len() && occurs(poly.terms@[i].monomial.exponents@, v),
            forall|j: int| k <= j < vars@.len() ==> !is_witness_slack(poly.terms@, #[trigger] vars@[j]),
        decreases k,
    {
        k -= 1;
        let s = vars[k];
        match witness_for(poly, s) {
            Some(f) => {
                proof {
                    assert(vars@.contains(s));
                    assert forall|v: VariableId|
                        v.0 > s.0 && (exists|i: int| 0 <= i < poly.terms@.len() && occurs(poly.terms@[i].monomial.exponents@, v))
                            implies !is_witness_slack(poly.terms@, v) by {
                        assert(vars@.contains(v));
                        let j = choose|j: int| 0 <= j < vars@.len() && vars@[j] == v;
                        if j <= k {
                            if j < k {
                                assert(vars@[j].0 < vars@[k as int].0);
                            }
                        }
                    }
                }
                return Some((f, s));
            },
            None => {},
        }
    }
    proof {
        assert forall|v: VariableId|
            (exists|i: int| 0 <= i < poly.terms@.len() && occurs(poly.terms@[i].monomial.exponents@, v)) implies !is_witness_slack(
            poly.terms@,
            v,
        ) by {
            assert(vars@.contains(v));
            let j = choose|j: int| 0 <= j < vars@.len() && vars@[j] == v;
        }
    }
    None
}

// ----- the witness list -----

/// `w` is the witness relation `r` gives: its largest slack variable with a witness reading,
/// and the factor for it.
pub open spec fn is_relation_witness(w: ExplicitNonzeroWitness, r: CanonicalRelationQ) -> bool {
    let ts = r.polynomial.terms@;
    &&& w.witness_relation_id == r.id
    &&& is_witness_slack(ts, w.slack_variable)
    &&& is_witness_factor(w.factor, ts, w.slack_variable)
    &&& exists|i: int| 0 <= i < ts.len() && occurs(ts[i].monomial.exponents@, w.slack_variable)
    &&& forall|v: VariableId|
        v.0 > w.slack_variable.0 && (exists|i: int| 0 <= i < ts.len() && occurs(ts[i].monomial.exponents@, v)) ==> !is_witness_slack(ts, v)
}

/// Relation `r` has a witness reading for some of its variables.
pub open spec fn has_witness(r: CanonicalRelationQ) -> bool {
    exists|v: VariableId|
        (exists|i: int| 0 <= i < r.polynomial.terms@.len() && occurs(r.polynomial.terms@[i].monomial.exponents@, v))
            && #[trigger] is_witness_slack(r.polynomial.terms@, v)
}

/// The order of witnesses: factor digest, then relation id, then slack variable.
pub open spec fn witness_precedence(a: ExplicitNonzeroWitness, b: ExplicitNonzeroWitness) -> int {
    let h = lex_order(a.factor.hash.0@, b.factor.hash.0@);
    if h != 0 {
        h
    } else if a.witness_relation_id.0 != b.witness_relation_id.0 {
        if a.witness_relation_id.0 < b.witness_relation_id.0 {
            -1
        } else {
            1
        }
    } else if a.slack_variable.0 != b.slack_variable.0 {
        if a.slack_variable.0 < b.slack_variable.0 {
            -1
        } else {
            1
        }
    } else {
        0
    }
}

proof fn lemma_witness_precedence(a: ExplicitNonzeroWitness, b: ExplicitNonzeroWitness, c: ExplicitNonzeroWitness)
    ensures
        witness_precedence(a, b) == -witness_precedence(b, a),
        witness_precedence(a, b) < 0 && witness_precedence(b, c) < 0 ==> witness_precedence(a, c) < 0,
{
    crate::types::hash::lemma_lex_antisym(a.factor.hash.0@, b.factor.hash.0@);
    crate::types::hash::lemma_lex_antisym(b.factor.hash.0@, c.factor.hash.0@);
    crate::types::hash::lemma_lex_antisym(a.factor.hash.0@, c.factor.hash.0@);
    if lex_order(a.factor.hash.0@, b.factor.hash.0@) == 0 {
        crate::types::hash::lemma_lex_zero(a.factor.hash.0@, b.factor.hash.0@);
    }
    if lex_order(b.factor.hash.0@, c.factor.hash.0@) == 0 {
        crate::types::hash::lemma_lex_zero(b.factor.hash.0@, c.factor.hash.0@);
    }
    if lex_order(a.factor.hash.0@, b.factor.hash.0@) < 0 && lex_order(b.factor.hash.0@, c.factor.hash.0@) < 0 {
        crate::types::hash::lemma_lex_trans(a.factor.hash.0@, b.factor.hash.0@, c.factor.hash.0@);
    }
}

/// The witnesses of the relations, each relation with a witness reading represented, in
/// strictly increasing witness order.
#[verifier::opaque]
pub open spec fn is_witness_list(ws: Seq<ExplicitNonzeroWitness>, rs: Seq<CanonicalRelationQ>) -> bool {
    witness_list_upto(ws, rs, rs.len() as int)
}

fn witness_order(a: &ExplicitNonzeroWitness, b: &ExplicitNonzeroWitness) -> (r: i8)
    ensures
        r == witness_precedence(*a, *b),
{
    let h = hash_order(&a.factor.hash, &b.factor.hash);
    if h != 0 {
        h
    } else if a.witness_relation_id.0 != b.witness_relation_id.0 {
        if a.witness_relation_id.0 < b.witness_relation_id.0 {
            -1
        } else {
            1
        }
    } else if a.slack_variable.0 != b.slack_variable.0 {
        if a.slack_variable.0 < b.slack_variable.0 {
            -1
        } else {
            1
        }
    } else {
        0
    }
}

/// The list invariant while the first `n` relations have been read.
pub open spec fn witness_list_upto(ws: Seq<ExplicitNonzeroWitness>, rs: Seq<CanonicalRelationQ>, n: int) -> bool {
    &&& forall|a: int, b: int| 0 <= a < b < ws.len() ==> witness_precedence(#[trigger] ws[a], #[trigger] ws[b]) < 0
    &&& forall|k: int| 0 <= k < ws.len() ==> exists|i: int| 0 <= i < rs.len() && is_relation_witness(#[trigger] ws[k], rs[i])
    &&& forall|i: int|
        0 <= i < n && has_witness(#[trigger] rs[i]) ==> exists|k: int| 0 <= k < ws.len() && ws[k].witness_relation_id == rs[i].id
}

proof fn lemma_no_witness_step(ws: Seq<ExplicitNonzeroWitness>, rs: Seq<CanonicalRelationQ>, n: int)
    requires
        0 <= n < rs.len(),
        witness_list_upto(ws, rs, n),
        !has_witness(rs[n]),
    ensures
        witness_list_upto(ws, rs, n + 1),
{
}

proof fn lemma_insert_witness_sorted(old_ws: Seq<ExplicitNonzeroWitness>, p: int, w: ExplicitNonzeroWitness)
    requires
        0 <= p <= old_ws.len(),
        forall|a: int, b: int| 0 <= a < b < old_ws.len() ==> witness_precedence(#[trigger] old_ws[a], #[trigger] old_ws[b]) < 0,
        forall|j: int| 0 <= j < p ==> witness_precedence(#[trigger] old_ws[j], w) < 0,
        p < old_ws.len() ==> witness_precedence(w, old_ws[p]) < 0,
    ensures
        forall|a: int, b: int|
            0 <= a < b < old_ws.insert(p, w).len() ==> witness_precedence(#[trigger] old_ws.insert(p, w)[a], #[trigger] old_ws.insert(p, w)[b]) < 0,
{
    let ws = old_ws.insert(p, w);
    assert forall|a: int, b: int| 0 <= a < b < ws.len() implies witness_precedence(#[trigger] ws[a], #[trigger] ws[b]) < 0 by {
        if a < p && b < p {
            assert(ws[a] == old_ws[a] && ws[b] == old_ws[b]);
        } else if a < p && b == p {
            assert(ws[a] == old_ws[a]);
        } else if a < p {
            assert(ws[a] == old_ws[a] && ws[b] == old_ws[b - 1]);
            lemma_witness_precedence(old_ws[a], w, old_ws[p]);
            if b - 1 > p {
                lemma_witness_precedence(old_ws[a], old_ws[p], old_ws[b - 1]);
            }
        } else if a == p {
            assert(ws[b] == old_ws[b - 1]);
            if b - 1 > p {
                lemma_witness_precedence(w, old_ws[p], old_ws[b - 1]);
            }
        } else {
            assert(ws[a] == old_ws[a - 1] && ws[b] == old_ws[b - 1]);
        }
    }
}

proof fn lemma_insert_witness_from(old_ws: Seq<ExplicitNonzeroWitness>, p: int, w: ExplicitNonzeroWitness, rs: Seq<CanonicalRelationQ>, i: int)
    requires
        0 <= p <= old_ws.len(),
        0 <= i < rs.len(),
        is_relation_witness(w, rs[i]),
        forall|k: int| 0 <= k < old_ws.len() ==> exists|q: int| 0 <= q < rs.len() && is_relation_witness(#[trigger] old_ws[k], rs[q]),
    ensures
        forall|k: int|
            0 <= k < old_ws.insert(p, w).len() ==> exists|q: int| 0 <= q < rs.len() && is_relation_witness(#[trigger] old_ws.insert(p, w)[k], rs[q]),
{
    let ws = old_ws.insert(p, w);
    assert forall|k: int| 0 <= k < ws.len() implies exists|q: int| 0 <= q < rs.len() && is_relation_witness(#[trigger] ws[k], rs[q]) by {
        if k < p {
            assert(ws[k] == old_ws[k]);
        } else if k == p {
            assert(ws[k] == w);
        } else {
            assert(ws[k] == old_ws[k - 1]);
        }
    }
}

proof fn lemma_insert_witness_cover(old_ws: Seq<ExplicitNonzeroWitness>, p: int, w: ExplicitNonzeroWitness, rs: Seq<CanonicalRelationQ>, i: int)
    requires
        0 <= p <= old_ws.len(),
        0 <= i < rs.len(),
        w.witness_relation_id == rs[i].id,
        forall|q: int| 0 <= q < i && has_witness(#[trigger] rs[q]) ==> exists|k: int| 0 <= k < old_ws.len() && old_ws[k].witness_relation_id == rs[q].id,
    ensures
        forall|q: int|
            0 <= q < i + 1 && has_witness(#[trigger] rs[q]) ==> exists|k: int| 0 <= k < old_ws.insert(p, w).len() && old_ws.insert(p, w)[k].witness_relation_id == rs[q].id,
{
    let ws = old_ws.insert(p, w);
    assert forall|q: int| 0 <= q < i + 1 && has_witness(#[trigger] rs[q]) implies exists|k: int| 0 <= k < ws.len() && ws[k].witness_relation_id == rs[q].id by {
        if q < i {
            let k = choose|k: int| 0 <= k < old_ws.len() && old_ws[k].witness_relation_id == rs[q].id;
            if k < p {
                assert(ws[k] == old_ws[k]);
            } else {
                assert(ws[k + 1] == old_ws[k]);
            }
        } else {
            assert(ws[p] == w);
        }
    }
}

proof fn lemma_witness_list_done(ws: Seq<ExplicitNonzeroWitness>, rs: Seq<CanonicalRelationQ>)
    requires
        witness_list_upto(ws, rs, rs.len() as int),
    ensures
        is_witness_list(ws, rs),
{
    reveal(is_witness_list);
}

/// Inserts the witness of relation `i` at its place unless an equal one is present.
fn insert_witness(ws: &mut Vec<ExplicitNonzeroWitness>, w: ExplicitNonzeroWitness, Ghost(rs): Ghost<Seq<CanonicalRelationQ>>, Ghost(i): Ghost<int>)
    requires
        0 <= i < rs.len(),
        witness_list_upto(old(ws)@, rs, i),
        is_relation_witness(w, rs[i]),
    ensures
        witness_list_upto(final(ws)@, rs, i + 1),
{
    let mut p: usize = 0;
    while p < ws.len() && witness_order(&ws[p], &w) < 0
        invariant
            p <= ws@.len(),
            forall|j: int| 0 <= j < p ==> witness_precedence(#[trigger] ws@[j], w) < 0,
        decreases ws@.len() - p,
    {
        p += 1;
    }
    let ghost old_ws = ws@;
    if p < ws.len() && witness_order(&ws[p], &w) == 0 {
        proof {
            let k = p as int;
            assert(ws@[k].witness_relation_id == w.witness_relation_id);
            assert forall|q: int| 0 <= q < i + 1 && has_witness(#[trigger] rs[q]) implies exists|k2: int|
                0 <= k2 < ws@.len() && ws@[k2].witness_relation_id == rs[q].id by {
                if q == i {
                    assert(ws@[k].witness_relation_id == rs[q].id);
                }
            }
        }
    } else {
        proof {
            if p < old_ws.len() {
                lemma_witness_precedence(old_ws[p as int], w, w);
            }
            lemma_insert_witness_sorted(old_ws, p as int, w);
            lemma_insert_witness_from(old_ws, p as int, w, rs, i);
            lemma_insert_witness_cover(old_ws, p as int, w, rs, i);
        }
        ws.insert(p, w);
    }
}

/// The explicit nonzero witnesses of the relations, ordered by factor digest, relation and
/// slack variable, without repeats.
pub fn explicit_nonzero_witnesses(state: &CompressionState) -> (ws: Vec<ExplicitNonzeroWitness>)
    requires
        relations_well_formed(state.relations@),
    ensures
        is_witness_list(ws@, state.relations@),
{
    let rs = &state.relations;
    let mut ws: Vec<ExplicitNonzeroWitness> = Vec::new();
    let n = rs.len();
    for i in 0..n
        invariant
            n == rs@.len(),
            relations_well_formed(rs@),
            witness_list_upto(ws@, rs@, i as int),
    {
        let relation = &rs[i];
        match extract_nonzero_witness(&relation.polynomial) {
            None => {
                proof {
                    if has_witness(rs@[i as int]) {
                        let v = choose|v: VariableId|
                            (exists|k: int| 0 <= k < relation.polynomial.terms@.len() && occurs(relation.polynomial.terms@[k].monomial.exponents@, v))
                                && #[trigger] is_witness_slack(relation.polynomial.terms@, v);
                    }
                    lemma_no_witness_step(ws@, rs@, i as int);
                }
            },
            Some((factor, slack_variable)) => {
                let w = ExplicitNonzeroWitness { factor, witness_relation_id: relation.id, slack_variable };
                insert_witness(&mut ws, w, Ghost(rs@), Ghost(i as int));
            },
        }
    }
    proof {
        lemma_witness_list_done(ws@, rs@);
    }
    ws
}

proof fn lemma_witness_factor_well_formed(ws: Seq<ExplicitNonzeroWitness>, rs: Seq<CanonicalRelationQ>, k: int)
    requires
        is_witness_list(ws, rs),
        0 <= k < ws.len(),
    ensures
        coeffs_well_formed(terms_view(ws[k].factor.terms@)),
{
    reveal(is_witness_list);
    let w = ws[k];
    let q = choose|q: int| 0 <= q < rs.len() && is_relation_witness(ws[k], rs[q]);
    let ts = rs[q].polynomial.terms@;
    if constant_value(ts, w.slack_variable) == Some((-1int, 1int)) {
        crate::problem::canonicalize::lemma_normalization_well_formed(w.factor.terms@, linear_view(ts, w.slack_variable));
    } else {
        let g = choose|g: Seq<TermQ>|
            is_normalization(g, linear_view(ts, w.slack_variable)) && is_normalization(w.factor.terms@, neg_view(terms_view(g)));
        crate::problem::canonicalize::lemma_normalization_well_formed(w.factor.terms@, neg_view(terms_view(g)));
    }
}

/// The guard on `w`'s factor and the saturation by it are recorded.
#[verifier::opaque]
pub open spec fn witness_recorded(guards: Seq<crate::preprocess::compression::GuardRecord>, saturations: Seq<crate::preprocess::compression::SaturationRecord>, w: ExplicitNonzeroWitness) -> bool {
    &&& exists|g: crate::preprocess::compression::GuardRecord|
        is_guard_for(g, w.factor, seq![w.witness_relation_id], GuardKind::ExplicitNonZeroWitness) && guard_index(guards, g.guard_hash.0@) >= 0
    &&& exists|x: crate::preprocess::compression::SaturationRecord|
        is_saturation_for(x, w.factor, w.witness_relation_id, w.slack_variable) && has_saturation_hash(saturations, x.saturation_hash.0@)
}

proof fn lemma_guard_index_extend(gs: Seq<crate::preprocess::compression::GuardRecord>, more: Seq<crate::preprocess::compression::GuardRecord>, h: Seq<u8>)
    requires
        more.len() >= gs.len(),
        more.take(gs.len() as int) == gs,
        guard_index(gs, h) >= 0,
    ensures
        guard_index(more, h) >= 0,
    decreases more.len(),
{
    if more.len() > gs.len() {
        assert(more.drop_last().take(gs.len() as int) == gs);
        lemma_guard_index_extend(gs, more.drop_last(), h);
    } else {
        assert(more == gs);
    }
}

proof fn lemma_recorded_extend(
    g1: Seq<crate::preprocess::compression::GuardRecord>,
    s1: Seq<crate::preprocess::compression::SaturationRecord>,
    g2: Seq<crate::preprocess::compression::GuardRecord>,
    s2: Seq<crate::preprocess::compression::SaturationRecord>,
    w: ExplicitNonzeroWitness,
)
    requires
        witness_recorded(g1, s1, w),
        g2.len() >= g1.len(),
        g2.take(g1.len() as int) == g1,
        s2.len() >= s1.len(),
        s2.take(s1.len() as int) == s1,
    ensures
        witness_recorded(g2, s2, w),
{
    reveal(witness_recorded);
    let g = choose|g: crate::preprocess::compression::GuardRecord|
        is_guard_for(g, w.factor, seq![w.witness_relation_id], GuardKind::ExplicitNonZeroWitness) && guard_index(g1, g.guard_hash.0@) >= 0;
    lemma_guard_index_extend(g1, g2, g.guard_hash.0@);
    let x = choose|x: crate::preprocess::compression::SaturationRecord|
        is_saturation_for(x, w.factor, w.witness_relation_id, w.slack_variable) && has_saturation_hash(s1, x.saturation_hash.0@);
    crate::preprocess::compression::lemma_has_saturation_extend(s1, s2, x.saturation_hash.0@);
}

proof fn lemma_guard_index_push(gs: Seq<crate::preprocess::compression::GuardRecord>, g: crate::preprocess::compression::GuardRecord)
    requires
        guard_index(gs, g.guard_hash.0@) == -1,
    ensures
        guard_index(gs.push(g), g.guard_hash.0@) >= 0,
{
    assert(gs.push(g).drop_last() == gs);
}

/// The guard on `w`'s factor is recorded.
pub open spec fn guard_recorded(guards: Seq<crate::preprocess::compression::GuardRecord>, w: ExplicitNonzeroWitness) -> bool {
    exists|g: crate::preprocess::compression::GuardRecord|
        is_guard_for(g, w.factor, seq![w.witness_relation_id], GuardKind::ExplicitNonZeroWitness) && guard_index(guards, g.guard_hash.0@) >= 0
}

/// The saturation by `w`'s factor is recorded.
pub open spec fn saturation_recorded(saturations: Seq<crate::preprocess::compression::SaturationRecord>, w: ExplicitNonzeroWitness) -> bool {
    exists|x: crate::preprocess::compression::SaturationRecord|
        is_saturation_for(x, w.factor, w.witness_relation_id, w.slack_variable) && has_saturation_hash(saturations, x.saturation_hash.0@)
}

fn record_guard(state: &mut CompressionState, w: &ExplicitNonzeroWitness)
    requires
        coeffs_well_formed(terms_view(w.factor.terms@)),
    ensures
        guard_recorded(final(state).guards@, *w),
        final(state).guards@.len() >= old(state).guards@.len(),
        final(state).guards@.take(old(state).guards@.len() as int) == old(state).guards@,
        final(state).saturations == old(state).saturations,
        final(state).relations == old(state).relations,
        final(state).variables == old(state).variables,
        final(state).target == old(state).target,
        final(state).semantic_encodings == old(state).semantic_encodings,
        final(state).substitutions == old(state).substitutions,
        final(state).feasibility_obligations == old(state).feasibility_obligations,
        final(state).trace == old(state).trace,
{
    let ghost before = *state;
    let mut sources: Vec<RelationId> = Vec::new();
    sources.push(w.witness_relation_id);
    let f1 = copy_poly(&w.factor);
    let ghost src = sources@;
    let guard = state.add_guard(f1, sources, GuardKind::ExplicitNonZeroWitness);
    proof {
        assert(src == seq![w.witness_relation_id]);
        let g = choose|g: crate::preprocess::compression::GuardRecord|
            is_guard_for(g, f1, src, GuardKind::ExplicitNonZeroWitness) && (if guard_index(before.guards@, g.guard_hash.0@) >= 0 {
                state.guards == before.guards && crate::preprocess::compression::same_guard(
                    guard,
                    before.guards@[guard_index(before.guards@, g.guard_hash.0@)],
                )
            } else {
                state.guards@ == before.guards@.push(g) && crate::preprocess::compression::same_guard(guard, g)
            });
        assert(terms_view(f1.terms@) == terms_view(w.factor.terms@));
        assert(is_guard_for(g, w.factor, seq![w.witness_relation_id], GuardKind::ExplicitNonZeroWitness));
        if guard_index(before.guards@, g.guard_hash.0@) < 0 {
            lemma_guard_index_push(before.guards@, g);
            assert(state.guards@.take(before.guards@.len() as int) == before.guards@);
        }
        assert(guard_index(state.guards@, g.guard_hash.0@) >= 0);
    }
}

fn record_saturation(state: &mut CompressionState, w: &ExplicitNonzeroWitness)
    requires
        coeffs_well_formed(terms_view(w.factor.terms@)),
    ensures
        saturation_recorded(final(state).saturations@, *w),
        final(state).saturations@.len() >= old(state).saturations@.len(),
        final(state).saturations@.take(old(state).saturations@.len() as int) == old(state).saturations@,
        final(state).guards == old(state).guards,
        final(state).relations == old(state).relations,
        final(state).variables == old(state).variables,
        final(state).target == old(state).target,
        final(state).semantic_encodings == old(state).semantic_encodings,
        final(state).substitutions == old(state).substitutions,
        final(state).feasibility_obligations == old(state).feasibility_obligations,
        final(state).trace == old(state).trace,
{
    let ghost mid = *state;
    let cleared = crate::types::polynomial::clear_denominators_primitive(&w.factor);
    let saturation_hash = crate::preprocess::compression::hash_saturation(&cleared, w.witness_relation_id, w.slack_variable);
    let x = crate::preprocess::compression::SaturationRecord {
        factor: cleared,
        witness_relation_id: w.witness_relation_id,
        slack_variable: w.slack_variable,
        saturation_hash,
    };
    let ghost xg = x;
    state.push_saturation(x);
    proof {
        assert(is_saturation_for(xg, w.factor, w.witness_relation_id, w.slack_variable));
        if !has_saturation_hash(mid.saturations@, xg.saturation_hash.0@) {
            assert(state.saturations@.drop_last() == mid.saturations@);
            assert(state.saturations@.take(mid.saturations@.len() as int) == mid.saturations@);
        }
        assert(has_saturation_hash(state.saturations@, xg.saturation_hash.0@));
    }
}

/// Records the guard and saturation of one witness; the lists only grow.
fn saturate_one(state: &mut CompressionState, w: &ExplicitNonzeroWitness)
    requires
        coeffs_well_formed(terms_view(w.factor.terms@)),
    ensures
        witness_recorded(final(state).guards@, final(state).saturations@, *w),
        final(state).guards@.len() >= old(state).guards@.len(),
        final(state).guards@.take(old(state).guards@.len() as int) == old(state).guards@,
        final(state).saturations@.len() >= old(state).saturations@.len(),
        final(state).saturations@.take(old(state).saturations@.len() as int) == old(state).saturations@,
        final(state).relations == old(state).relations,
        final(state).variables == old(state).variables,
        final(state).target == old(state).target,
        final(state).semantic_encodings == old(state).semantic_encodings,
        final(state).substitutions == old(state).substitutions,
        final(state).feasibility_obligations == old(state).feasibility_obligations,
        final(state).trace == old(state).trace,
{
    record_guard(state, w);
    let ghost mid = *state;
    record_saturation(state, w);
    proof {
        reveal(witness_recorded);
        let g = choose|g: crate::preprocess::compression::GuardRecord|
            is_guard_for(g, w.factor, seq![w.witness_relation_id], GuardKind::ExplicitNonZeroWitness) && guard_index(mid.guards@, g.guard_hash.0@) >= 0;
        assert(state.guards@ == mid.guards@);
    }
}

/// Records, for each explicit nonzero witness, the guard on its factor and the saturation by it.
pub fn apply_explicit_saturations(state: CompressionState, ctx: &mut SolverContext) -> (r: Result<CompressionState, SolverError>)
    requires
        relations_well_formed(state.relations@),
    ensures
        *final(ctx) == *old(ctx),
        r is Ok,
        r matches Ok(s) ==> s.relations == state.relations && s.variables == state.variables && s.target == state.target
            && s.semantic_encodings == state.semantic_encodings && s.substitutions == state.substitutions
            && s.feasibility_obligations == state.feasibility_obligations && s.trace == state.trace,
        r matches Ok(s) ==> state.guards@.len() <= s.guards@.len() && s.guards@.take(state.guards@.len() as int) == state.guards@,
        r matches Ok(s) ==> state.saturations@.len() <= s.saturations@.len() && s.saturations@.take(state.saturations@.len() as int)
            == state.saturations@,
        r matches Ok(s) ==> exists|ws: Seq<ExplicitNonzeroWitness>|
            is_witness_list(ws, state.relations@) && forall|k: int|
                0 <= k < ws.len() ==> witness_recorded(s.guards@, s.saturations@, #[trigger] ws[k]),
{
    let mut state = state;
    let witnesses = explicit_nonzero_witnesses(&state);
    let ghost ws = witnesses@;
    let ghost st0 = state;
    let n = witnesses.len();
    for k in 0..n
        invariant
            n == ws.len(),
            witnesses@ == ws,
            is_witness_list(ws, st0.relations@),
            state.relations == st0.relations,
            state.variables == st0.variables,
            state.target == st0.target,
            state.semantic_encodings == st0.semantic_encodings,
            state.substitutions == st0.substitutions,
            state.feasibility_obligations == st0.feasibility_obligations,
            state.trace == st0.trace,
            st0.guards@.len() <= state.guards@.len(),
            state.guards@.take(st0.guards@.len() as int) == st0.guards@,
            st0.saturations@.len() <= state.saturations@.len(),
            state.saturations@.take(st0.saturations@.len() as int) == st0.saturations@,
            forall|j: int| 0 <= j < k ==> witness_recorded(state.guards@, state.saturations@, #[trigger] ws[j]),
    {
        let w = &witnesses[k];
        proof {
            lemma_witness_factor_well_formed(ws, st0.relations@, k as int);
        }
        let ghost before = state;
        saturate_one(&mut state, w);
        proof {
            assert forall|j: int| 0 <= j < k + 1 implies witness_recorded(state.guards@, state.saturations@, #[trigger] ws[j]) by {
                if j < k {
                    lemma_recorded_extend(before.guards@, before.saturations@, state.guards@, state.saturations@, ws[j]);
                }
            }
            assert(state.guards@.take(st0.guards@.len() as int) == before.guards@.take(st0.guards@.len() as int));
            assert(state.saturations@.take(st0.saturations@.len() as int) == before.saturations@.take(st0.saturations@.len() as int));
        }
    }
    Ok(state)
}

// ----- lookups -----

/// A single nonzero constant term.
pub open spec fn is_nonzero_constant_poly(p: SparsePolynomialQ) -> bool {
    p.terms@.len() == 1 && p.terms@[0].monomial.exponents@.len() == 0 && p.terms@[0].coeff.num@ != 0
}

/// A factor is explicitly nonzero when it is a nonzero constant.
pub fn is_explicit_nonzero_factor(factor: &SparsePolynomialQ, _semantics: &[RealConstraintEncoding]) -> (r: bool)
    ensures
        r == is_nonzero_constant_poly(*factor),
{
    factor.terms.len() == 1 && factor.terms[0].monomial.exponents.len() == 0 && !is_zero_q(&factor.terms[0].coeff)
}

/// Same term values and the same digest.
pub open spec fn same_poly_value(a: SparsePolynomialQ, b: SparsePolynomialQ) -> bool {
    terms_view(a.terms@) == terms_view(b.terms@) && a.hash.0@ == b.hash.0@
}

fn entries_equal(a: &Vec<(VariableId, u32)>, b: &Vec<(VariableId, u32)>) -> (r: bool)
    ensures
        r == (a@ == b@),
{
    if a.len() != b.len() {
        return false;
    }
    for i in 0..a.len()
        invariant
            a@.len() == b@.len(),
            forall|k: int| 0 <= k < i ==> a@[k] == b@[k],
    {
        if a[i].0 != b[i].0 || a[i].1 != b[i].1 {
            return false;
        }
    }
    assert(a@ =~= b@);
    true
}

fn poly_value_eq(a: &SparsePolynomialQ, b: &SparsePolynomialQ) -> (r: bool)
    ensures
        r == same_poly_value(*a, *b),
{
    if !crate::types::hash::hash_eq(&a.hash, &b.hash) || a.terms.len() != b.terms.len() {
        proof {
            assert(terms_view(a.terms@).len() == a.terms@.len());
            assert(terms_view(b.terms@).len() == b.terms@.len());
        }
        return false;
    }
    for i in 0..a.terms.len()
        invariant
            a.terms@.len() == b.terms@.len(),
            forall|k: int| 0 <= k < i ==> crate::types::polynomial::term_view(#[trigger] a.terms@[k]) == crate::types::polynomial::term_view(b.terms@[k]),
    {
        let x = &a.terms[i];
        let y = &b.terms[i];
        if !x.coeff.num.equals(&y.coeff.num) || !x.coeff.den.equals(&y.coeff.den) || !entries_equal(&x.monomial.exponents, &y.monomial.exponents) {
            proof {
                assert(terms_view(a.terms@)[i as int] != terms_view(b.terms@)[i as int]);
            }
            return false;
        }
    }
    assert(terms_view(a.terms@) =~= terms_view(b.terms@));
    true
}

/// Witness `k` is the first whose factor has the value of `q`.
pub open spec fn is_first_match(ws: Seq<ExplicitNonzeroWitness>, q: SparsePolynomialQ, k: int) -> bool {
    &&& 0 <= k
    &&& k < ws.len()
    &&& same_poly_value(ws[k].factor, q)
    &&& forall|j: int| 0 <= j && j < k ==> !same_poly_value(#[trigger] ws[j].factor, q)
}

/// The first explicit nonzero witness whose factor equals the normal form of `factor`.
pub fn find_explicit_nonzero_witness(state: &CompressionState, factor: &SparsePolynomialQ) -> (r: Option<ExplicitNonzeroWitness>)
    requires
        relations_well_formed(state.relations@),
        coeffs_well_formed(terms_view(factor.terms@)),
    ensures
        exists|ws: Seq<ExplicitNonzeroWitness>, q: SparsePolynomialQ|
            is_witness_list(ws, state.relations@) && is_normalization(q.terms@, terms_view(factor.terms@)) && q.hash.0@
                == spec_hash_terms(q.terms@) && (match r {
                Some(w) => exists|k: int| is_first_match(ws, q, k) && ws[k] == w,
                None => forall|k: int| 0 <= k < ws.len() ==> !same_poly_value(#[trigger] ws[k].factor, q),
            }),
{
    let c = copy_poly(factor);
    proof {
        assert(terms_view(c.terms@) == terms_view(factor.terms@));
    }
    let normalized = normalize_poly(c);
    let mut ws = explicit_nonzero_witnesses(state);
    let ghost all = ws@;
    let n = ws.len();
    for k in 0..n
        invariant
            n == ws@.len(),
            ws@ == all,
            is_witness_list(all, state.relations@),
            is_normalization(normalized.terms@, terms_view(factor.terms@)),
            normalized.hash.0@ == spec_hash_terms(normalized.terms@),
            forall|j: int| 0 <= j < k ==> !same_poly_value(#[trigger] all[j].factor, normalized),
    {
        if poly_value_eq(&ws[k].factor, &normalized) {
            let w = ws.remove(k);
            proof {
                assert(w == all[k as int]);
                assert(same_poly_value(all[k as int].factor, normalized));
                let kk = k as int;
                assert(is_first_match(all, normalized, kk));
            }
            return Some(w);
        }
    }
    None
}

} // verus!
