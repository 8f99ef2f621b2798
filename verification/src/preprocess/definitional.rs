//! Definitional relations: a relation whose part in a variable is that variable times a
//! nonzero constant defines the variable by the rest, which is then substituted everywhere.
use vstd::prelude::*;

use crate::preprocess::compression::{affine_parts_in_variable, affine_shape, free_view};
use crate::preprocess::saturation::{entries_without, first_exponent, linear_view};
use crate::problem::canonicalize::{
    is_single_constant, lemma_normalization_constant, lemma_normalization_well_formed, view_is_nonzero_constant,
    view_is_zero, CanonicalRelationQ, CanonicalSystemQ,
};
use crate::preprocess::compression::{has_relation, relations_well_formed, same_relation, CompressionState, SubstitutionKind};
use crate::problem::context::SolverContext;
use crate::result::status::SolverError;
use crate::types::hash::{hash_order, lex_order, lemma_lex_trans};
use crate::types::id_set::contains_variable;
use crate::types::ids::{RelationId, VariableId};
use crate::types::monomial::{entries_order, is_normal_entries, occurs};
use crate::types::polynomial::{
    coeff_sum, coeffs_well_formed, copy_q, is_normalization, lemma_coeff_sum_den_pub, lemma_normal_form_of_normal,
    poly_scale, poly_variables, scale_view, spec_hash_terms, term_monomial, term_view, terms_view, SparsePolynomialQ,
    TermQ,
};
use crate::types::rational::{div_q, int_q, is_zero_q, same_ratio, RationalQ};

verus! {

#[derive(Debug, Clone, PartialEq, Eq)]
pub struct DefinitionalCandidate {
    pub variable: VariableId,
    pub source_relation_id: RelationId,
    pub coefficient: RationalQ,
    pub expression: SparsePolynomialQ,
    pub score: usize,
}

/// A term list as (numerator, denominator, monomial entries) triples.
pub type TermsView = Seq<(int, int, Seq<(VariableId, u32)>)>;

/// Every term has degree at most one in `v`.
pub open spec fn view_affine(tv: TermsView, v: VariableId) -> bool {
    forall|i: int| 0 <= i < tv.len() ==> first_exponent((#[trigger] tv[i]).2, v) <= 1
}

/// The terms linear in `v`, with `v` taken out of their monomials.
pub open spec fn view_linear(tv: TermsView, v: VariableId) -> TermsView
    decreases tv.len(),
{
    if tv.len() == 0 {
        Seq::empty()
    } else {
        let r = view_linear(tv.drop_last(), v);
        let t = tv.last();
        if first_exponent(t.2, v) == 1 {
            r.push((t.0, t.1, entries_without(t.2, v)))
        } else {
            r
        }
    }
}

/// The terms free of `v`.
pub open spec fn view_free(tv: TermsView, v: VariableId) -> TermsView
    decreases tv.len(),
{
    if tv.len() == 0 {
        Seq::empty()
    } else {
        let r = view_free(tv.drop_last(), v);
        let t = tv.last();
        if first_exponent(t.2, v) == 0 {
            r.push(t)
        } else {
            r
        }
    }
}

/// Some monomial naming `v` keeps a nonzero coefficient once like terms are summed.
pub open spec fn sums_mention(tv: TermsView, v: VariableId) -> bool {
    exists|m: Seq<(VariableId, u32)>| is_normal_entries(m) && occurs(m, v) && #[trigger] coeff_sum(tv, m).0 != 0
}

/// Some monomial of `tv` names `v`.
pub open spec fn view_occurs(tv: TermsView, v: VariableId) -> bool {
    exists|i: int| 0 <= i < tv.len() && occurs((#[trigger] tv[i]).2, v)
}

/// `v` is defined by the polynomial with terms `tv`, apart from occurring in it: it is not the
/// target, every term has degree at most one in it, its coefficient sums to a nonzero constant,
/// and the remaining terms do not name it once summed.
pub open spec fn definable_at(tv: TermsView, v: VariableId, target: VariableId) -> bool {
    &&& v != target
    &&& view_affine(tv, v)
    &&& view_is_nonzero_constant(view_linear(tv, v))
    &&& !sums_mention(view_free(tv, v), v)
}

/// `v` occurs in the polynomial with terms `tv` and is defined by it.
pub open spec fn definable(tv: TermsView, v: VariableId, target: VariableId) -> bool {
    view_occurs(tv, v) && definable_at(tv, v, target)
}

/// The variables that the polynomial with terms `tv` defines.
pub open spec fn definable_set(tv: TermsView, target: VariableId) -> Set<VariableId> {
    Set::new(|v: VariableId| definable(tv, v, target))
}

/// How many (relation, variable) definitions the relations hold.
pub open spec fn definable_count(rs: Seq<CanonicalRelationQ>, target: VariableId) -> nat
    decreases rs.len(),
{
    if rs.len() == 0 {
        0
    } else {
        definable_count(rs.drop_last(), target) + definable_set(terms_view(rs.last().polynomial.terms@), target).len()
    }
}

/// `c` defines its variable from relation `rel`: `variable = expression`, where `coefficient`
/// is the constant the variable's part sums to and `expression` is minus the free part divided
/// by it, in normal form; `score` is the relation's term count.
pub open spec fn is_candidate_of(rel: CanonicalRelationQ, target: VariableId, c: DefinitionalCandidate) -> bool {
    let tv = terms_view(rel.polynomial.terms@);
    let v = c.variable;
    let k = coeff_sum(view_linear(tv, v), Seq::empty());
    &&& c.source_relation_id == rel.id
    &&& definable(tv, v, target)
    &&& c.score == rel.polynomial.terms@.len()
    &&& c.coefficient.den@ != 0
    &&& same_ratio(c.coefficient.num@, c.coefficient.den@, k.0, k.1)
    &&& c.expression.hash.0@ == spec_hash_terms(c.expression.terms@)
    &&& exists|r: Seq<TermQ>, n: int, d: int|
        d != 0 && same_ratio(n, d, -c.coefficient.den@, c.coefficient.num@) && is_normalization(r, view_free(tv, v))
            && #[trigger] is_normalization(c.expression.terms@, scale_view(terms_view(r), n, d))
}

/// `a` sorts strictly before `b`: by score, then variable, source relation and expression digest.
pub open spec fn candidate_before(a: DefinitionalCandidate, b: DefinitionalCandidate) -> bool {
    ||| a.score < b.score
    ||| a.score == b.score && a.variable.0 < b.variable.0
    ||| a.score == b.score && a.variable.0 == b.variable.0 && a.source_relation_id.0 < b.source_relation_id.0
    ||| a.score == b.score && a.variable.0 == b.variable.0 && a.source_relation_id.0 == b.source_relation_id.0
        && lex_order(a.expression.hash.0@, b.expression.hash.0@) < 0
}

pub open spec fn candidates_sorted(s: Seq<DefinitionalCandidate>) -> bool {
    forall|i: int, j: int| 0 <= i < j < s.len() ==> !candidate_before(#[trigger] s[j], #[trigger] s[i])
}

// ----- lemmas -----

proof fn lemma_before_trans(a: DefinitionalCandidate, b: DefinitionalCandidate, c: DefinitionalCandidate)
    requires
        candidate_before(a, b),
        candidate_before(b, c),
    ensures
        candidate_before(a, c),
{
    if a.score == b.score && b.score == c.score && a.variable == b.variable && b.variable == c.variable
        && a.source_relation_id == b.source_relation_id && b.source_relation_id == c.source_relation_id {
        lemma_lex_trans(a.expression.hash.0@, b.expression.hash.0@, c.expression.hash.0@);
    }
}

proof fn lemma_parts_well_formed(tv: TermsView, v: VariableId)
    requires
        coeffs_well_formed(tv),
    ensures
        coeffs_well_formed(view_linear(tv, v)),
        coeffs_well_formed(view_free(tv, v)),
    decreases tv.len(),
{
    if tv.len() > 0 {
        let d = tv.drop_last();
        assert(coeffs_well_formed(d)) by {
            assert forall|i: int| 0 <= i < d.len() implies (#[trigger] d[i]).1 != 0 by {
                assert(d[i] == tv[i]);
            }
        }
        lemma_parts_well_formed(d, v);
        assert(tv.last().1 != 0);
        let l = view_linear(tv, v);
        let f = view_free(tv, v);
        assert forall|i: int| 0 <= i < l.len() implies (#[trigger] l[i]).1 != 0 by {
            if i < view_linear(d, v).len() {
                assert(l[i] == view_linear(d, v)[i]);
            }
        }
        assert forall|i: int| 0 <= i < f.len() implies (#[trigger] f[i]).1 != 0 by {
            if i < view_free(d, v).len() {
                assert(f[i] == view_free(d, v)[i]);
            }
        }
    }
}


proof fn lemma_views_of_terms(ts: Seq<TermQ>, v: VariableId)
    ensures
        linear_view(ts, v) == view_linear(terms_view(ts), v),
        free_view(ts, v) == view_free(terms_view(ts), v),
        affine_shape(ts, v) == view_affine(terms_view(ts), v),
    decreases ts.len(),
{
    let tv = terms_view(ts);
    if ts.len() > 0 {
        let d = ts.drop_last();
        assert(terms_view(d) =~= tv.drop_last());
        assert(tv.last() == term_view(ts.last()));
        lemma_views_of_terms(d, v);
    }
    assert(affine_shape(ts, v) == view_affine(tv, v)) by {
        if affine_shape(ts, v) {
            assert forall|i: int| 0 <= i < tv.len() implies first_exponent((#[trigger] tv[i]).2, v) <= 1 by {
                assert(tv[i].2 == term_monomial(ts[i]));
            }
        }
        if view_affine(tv, v) {
            assert forall|i: int| 0 <= i < ts.len() implies first_exponent(term_monomial(#[trigger] ts[i]), v) <= 1 by {
                assert(tv[i].2 == term_monomial(ts[i]));
            }
        }
    }
}

/// Scaling every term by `a / b` scales each monomial's sum by `a / b`.
proof fn lemma_scale_sum(x: TermsView, a: int, b: int, m: Seq<(VariableId, u32)>)
    requires
        coeffs_well_formed(x),
        a != 0,
        b != 0,
    ensures
        coeff_sum(scale_view(x, a, b), m).1 != 0,
        coeff_sum(x, m).1 != 0,
        coeff_sum(scale_view(x, a, b), m).0 * coeff_sum(x, m).1 * b == coeff_sum(scale_view(x, a, b), m).1 * coeff_sum(x, m).0 * a,
    decreases x.len(),
{
    if x.len() > 0 {
        let d = x.drop_last();
        let sx = scale_view(x, a, b);
        assert(scale_view(d, a, b) =~= sx.drop_last());
        assert(coeffs_well_formed(d)) by {
            assert forall|i: int| 0 <= i < d.len() implies (#[trigger] d[i]).1 != 0 by {
                assert(d[i] == x[i]);
            }
        }
        lemma_scale_sum(d, a, b, m);
        let t = x.last();
        let st = sx.last();
        assert(st == (t.0 * a, t.1 * b, t.2));
        assert(t.1 != 0);
        let s0 = coeff_sum(scale_view(d, a, b), m).0;
        let s1 = coeff_sum(scale_view(d, a, b), m).1;
        let p0 = coeff_sum(d, m).0;
        let p1 = coeff_sum(d, m).1;
        let t0 = t.0;
        let t1 = t.1;
        assert((t0 * a != 0) == (t0 != 0)) by (nonlinear_arith)
            requires
                a != 0,
        ;
        if t0 != 0 && crate::types::monomial::normal_form(t.2) == m {
            assert(coeff_sum(sx, m) == (s0 * (t1 * b) + (t0 * a) * s1, s1 * (t1 * b)));
            assert(coeff_sum(x, m) == (p0 * t1 + t0 * p1, p1 * t1));
            lemma_scale_step(s0, s1, p0, p1, t0, t1, a, b);
            assert(s1 * (t1 * b) != 0) by (nonlinear_arith)
                requires
                    s1 != 0,
                    t1 != 0,
                    b != 0,
            ;
            assert(p1 * t1 != 0) by (nonlinear_arith)
                requires
                    p1 != 0,
                    t1 != 0,
            ;
        } else {
            assert(coeff_sum(sx, m) == coeff_sum(scale_view(d, a, b), m));
            assert(coeff_sum(x, m) == coeff_sum(d, m));
        }
    } else {
        assert(coeff_sum(scale_view(x, a, b), m) == (0int, 1int));
        assert(coeff_sum(x, m) == (0int, 1int));
        assert(0 * 1 * b == 1 * 0 * a) by (nonlinear_arith);
    }
}

proof fn lemma_scale_step(s0: int, s1: int, p0: int, p1: int, t0: int, t1: int, a: int, b: int)
    requires
        s0 * p1 * b == s1 * p0 * a,
    ensures
        (s0 * (t1 * b) + (t0 * a) * s1) * (p1 * t1) * b == (s1 * (t1 * b)) * (p0 * t1 + t0 * p1) * a,
{
    let u = s0 * (t1 * b);
    let v = (t0 * a) * s1;
    let w = p1 * t1;
    vstd::arithmetic::mul::lemma_mul_is_distributive_add_other_way(w, u, v);
    vstd::arithmetic::mul::lemma_mul_is_distributive_add_other_way(b, u * w, v * w);
    assert(u * w * b == (s0 * p1 * b) * (t1 * t1 * b)) by (nonlinear_arith)
        requires
            u == s0 * (t1 * b),
            w == p1 * t1,
    ;
    assert(v * w * b == (t0 * a * s1) * (p1 * t1 * b)) by (nonlinear_arith)
        requires
            v == (t0 * a) * s1,
            w == p1 * t1,
    ;
    let y = s1 * (t1 * b);
    let z1 = p0 * t1;
    let z2 = t0 * p1;
    vstd::arithmetic::mul::lemma_mul_is_distributive_add(y, z1, z2);
    vstd::arithmetic::mul::lemma_mul_is_distributive_add_other_way(a, y * z1, y * z2);
    assert(y * z1 * a == (s1 * p0 * a) * (t1 * t1 * b)) by (nonlinear_arith)
        requires
            y == s1 * (t1 * b),
            z1 == p0 * t1,
    ;
    assert(y * z2 * a == (t0 * a * s1) * (p1 * t1 * b)) by (nonlinear_arith)
        requires
            y == s1 * (t1 * b),
            z2 == t0 * p1,
    ;
}

/// Scaling by a nonzero factor keeps a monomial's sum zero or nonzero.
proof fn lemma_scale_sum_zero(x: TermsView, a: int, b: int, m: Seq<(VariableId, u32)>)
    requires
        coeffs_well_formed(x),
        a != 0,
        b != 0,
    ensures
        (coeff_sum(scale_view(x, a, b), m).0 == 0) == (coeff_sum(x, m).0 == 0),
{
    lemma_scale_sum(x, a, b, m);
    let s0 = coeff_sum(scale_view(x, a, b), m).0;
    let s1 = coeff_sum(scale_view(x, a, b), m).1;
    let p0 = coeff_sum(x, m).0;
    let p1 = coeff_sum(x, m).1;
    assert((s0 == 0) == (p0 == 0)) by (nonlinear_arith)
        requires
            s0 * p1 * b == s1 * p0 * a,
            s1 != 0,
            p1 != 0,
            a != 0,
            b != 0,
    ;
}

#[verifier::spinoff_prover]
/// In a list of terms with distinct normal monomials and nonzero coefficients, a normal
/// monomial's sum is nonzero exactly when one of the terms carries it.
proof fn lemma_distinct_terms_sum(r: Seq<TermQ>, m: Seq<(VariableId, u32)>, k: int)
    requires
        forall|i: int, j: int| 0 <= i < j < r.len() ==> entries_order(term_monomial(#[trigger] r[i]), term_monomial(#[trigger] r[j])) < 0,
        forall|i: int| 0 <= i < r.len() ==> is_normal_entries(term_monomial(#[trigger] r[i])) && r[i].coeff.num@ != 0 && r[i].coeff.den@ != 0,
        0 <= k <= r.len(),
    ensures
        coeff_sum(terms_view(r.take(k)), m).1 != 0,
        (coeff_sum(terms_view(r.take(k)), m).0 != 0) == (exists|i: int| 0 <= i < k && term_monomial(#[trigger] r[i]) == m),
        !(exists|i: int| 0 <= i < k && term_monomial(#[trigger] r[i]) == m) ==> coeff_sum(terms_view(r.take(k)), m) == (0int, 1int),
    decreases k,
{
    if k > 0 {
        lemma_distinct_terms_sum(r, m, k - 1);
        let tv = terms_view(r.take(k));
        assert(terms_view(r.take(k - 1)) =~= tv.drop_last());
        let t = r[k - 1];
        assert(tv.last() == term_view(t));
        lemma_normal_form_of_normal(term_monomial(t));
        let prev = coeff_sum(terms_view(r.take(k - 1)), m);
        if term_monomial(t) == m {
            assert forall|i: int| 0 <= i < k - 1 implies term_monomial(#[trigger] r[i]) != m by {
                assert(entries_order(term_monomial(r[i]), term_monomial(r[k - 1])) < 0);
                crate::types::monomial::lemma_entries_order_zero(term_monomial(r[i]), term_monomial(r[k - 1]));
            }
            assert(prev == (0int, 1int));
            assert(tv.last().0 != 0);
            assert(coeff_sum(tv, m) == (prev.0 * t.coeff.den@ + t.coeff.num@ * prev.1, prev.1 * t.coeff.den@));
            assert(coeff_sum(tv, m) == (t.coeff.num@, t.coeff.den@));
            assert(term_monomial(r[k - 1]) == m);
        } else {
            assert(coeff_sum(tv, m) == prev);
            if exists|i: int| 0 <= i < k && term_monomial(#[trigger] r[i]) == m {
                let i = choose|i: int| 0 <= i < k && term_monomial(#[trigger] r[i]) == m;
                assert(i < k - 1);
            }
        }
    }
}

/// A normalization keeps exactly the monomials whose sums are nonzero.
proof fn lemma_normalization_sum_nonzero(r: Seq<TermQ>, x: TermsView, m: Seq<(VariableId, u32)>)
    requires
        is_normalization(r, x),
        coeffs_well_formed(x),
        is_normal_entries(m),
    ensures
        (coeff_sum(terms_view(r), m).0 != 0) == (coeff_sum(x, m).0 != 0),
{
    lemma_distinct_terms_sum(r, m, r.len() as int);
    assert(r.take(r.len() as int) =~= r);
    if exists|i: int| 0 <= i < r.len() && term_monomial(#[trigger] r[i]) == m {
        let i = choose|i: int| 0 <= i < r.len() && term_monomial(#[trigger] r[i]) == m;
        let t = r[i];
        lemma_coeff_sum_den_pub(x, m, t.coeff.num@, t.coeff.den@);
    }
}

/// A normalization names `v` exactly when some sum of a monomial naming `v` is nonzero.
proof fn lemma_normalization_mentions(q: Seq<TermQ>, y: TermsView, v: VariableId)
    requires
        is_normalization(q, y),
        coeffs_well_formed(y),
    ensures
        (exists|i: int| 0 <= i < q.len() && occurs(term_monomial(#[trigger] q[i]), v)) == sums_mention(y, v),
{
    if exists|i: int| 0 <= i < q.len() && occurs(term_monomial(#[trigger] q[i]), v) {
        let i = choose|i: int| 0 <= i < q.len() && occurs(term_monomial(#[trigger] q[i]), v);
        let t = q[i];
        let m = term_monomial(t);
        lemma_coeff_sum_den_pub(y, m, t.coeff.num@, t.coeff.den@);
        assert(is_normal_entries(m) && occurs(m, v) && coeff_sum(y, m).0 != 0);
    }
    if sums_mention(y, v) {
        let m = choose|m: Seq<(VariableId, u32)>| is_normal_entries(m) && occurs(m, v) && #[trigger] coeff_sum(y, m).0 != 0;
        let i = choose|i: int| 0 <= i < q.len() && term_monomial(q[i]) == m;
        assert(occurs(term_monomial(q[i]), v));
    }
}

/// The expression built from a normalized free part, scaled by a nonzero factor, names `v`
/// exactly when the free part's sums do.
proof fn lemma_expression_mentions(rest: Seq<TermQ>, fv: TermsView, q: Seq<TermQ>, n: int, d: int, v: VariableId)
    requires
        is_normalization(rest, fv),
        coeffs_well_formed(fv),
        n != 0,
        d != 0,
        is_normalization(q, scale_view(terms_view(rest), n, d)),
    ensures
        (exists|i: int| 0 <= i < q.len() && occurs(term_monomial(#[trigger] q[i]), v)) == sums_mention(fv, v),
{
    let rv = terms_view(rest);
    lemma_normalization_well_formed(rest, fv);
    let sv = scale_view(rv, n, d);
    assert(coeffs_well_formed(sv)) by {
        assert forall|i: int| 0 <= i < sv.len() implies (#[trigger] sv[i]).1 != 0 by {
            assert(sv[i].1 == rv[i].1 * d);
            assert(rv[i].1 != 0);
            assert(rv[i].1 * d != 0) by (nonlinear_arith)
                requires
                    rv[i].1 != 0,
                    d != 0,
            ;
        }
    }
    lemma_normalization_mentions(q, sv, v);
    if sums_mention(sv, v) {
        let m = choose|m: Seq<(VariableId, u32)>| is_normal_entries(m) && occurs(m, v) && #[trigger] coeff_sum(sv, m).0 != 0;
        lemma_scale_sum_zero(rv, n, d, m);
        lemma_normalization_sum_nonzero(rest, fv, m);
        assert(coeff_sum(fv, m).0 != 0);
    }
    if sums_mention(fv, v) {
        let m = choose|m: Seq<(VariableId, u32)>| is_normal_entries(m) && occurs(m, v) && #[trigger] coeff_sum(fv, m).0 != 0;
        lemma_scale_sum_zero(rv, n, d, m);
        lemma_normalization_sum_nonzero(rest, fv, m);
        assert(coeff_sum(sv, m).0 != 0);
    }
}

// ----- search -----

/// The coefficient of a polynomial made of one constant term.
fn constant_coefficient(poly: &SparsePolynomialQ) -> (r: Option<RationalQ>)
    ensures
        r is Some <==> poly.terms@.len() == 1 && poly.terms@[0].monomial.exponents@.len() == 0,
        r matches Some(c) ==> c.num@ == poly.terms@[0].coeff.num@ && c.den@ == poly.terms@[0].coeff.den@,
{
    if poly.terms.len() == 1 && poly.terms[0].monomial.exponents.len() == 0 {
        Some(copy_q(&poly.terms[0].coeff))
    } else {
        None
    }
}

/// The candidate that `relation` gives for `variable`, if it defines it.
fn definitional_candidate(relation: &CanonicalRelationQ, variable: VariableId, target: VariableId) -> (r: Option<
    DefinitionalCandidate,
>)
    requires
        coeffs_well_formed(terms_view(relation.polynomial.terms@)),
    ensures
        r is Some <==> definable_at(terms_view(relation.polynomial.terms@), variable, target),
        r matches Some(c) ==> c.variable == variable && (view_occurs(terms_view(relation.polynomial.terms@), variable)
            ==> is_candidate_of(*relation, target, c)),
{
    let ghost ts = relation.polynomial.terms@;
    let ghost tv = terms_view(ts);
    let ghost lv = view_linear(tv, variable);
    let ghost fv = view_free(tv, variable);
    let ghost e = Seq::<(VariableId, u32)>::empty();
    proof {
        lemma_views_of_terms(ts, variable);
        lemma_parts_well_formed(tv, variable);
        assert(is_normal_entries(e));
    }
    if variable.0 == target.0 {
        return None;
    }
    let parts = affine_parts_in_variable(&relation.polynomial, variable);
    let (coefficient_poly, rest) = match parts {
        Some(p) => p,
        None => {
            proof {
                if view_affine(tv, variable) {
                    assert(view_is_zero(lv));
                    assert(coeff_sum(lv, e).0 == 0);
                }
            }
            return None;
        },
    };
    proof {
        lemma_normalization_constant(coefficient_poly.terms@, lv);
    }
    let coefficient = match constant_coefficient(&coefficient_poly) {
        Some(c) => c,
        None => {
            return None;
        },
    };
    proof {
        let t = coefficient_poly.terms@[0];
        assert(term_monomial(t) =~= e);
        assert(is_single_constant(coefficient_poly.terms@));
    }
    if is_zero_q(&coefficient) {
        return None;
    }
    let minus_one = int_q(-1);
    let inverse = match div_q(&minus_one, &coefficient) {
        Ok(q) => q,
        Err(_) => {
            return None;
        },
    };
    proof {
        lemma_normalization_well_formed(rest.terms@, fv);
        assert(inverse.num@ * coefficient.num@ == -coefficient.den@ * inverse.den@);
        assert(inverse.num@ != 0) by (nonlinear_arith)
            requires
                inverse.num@ * coefficient.num@ == -coefficient.den@ * inverse.den@,
                coefficient.den@ != 0,
                inverse.den@ != 0,
        ;
    }
    let expression = poly_scale(&rest, &inverse);
    proof {
        lemma_expression_mentions(rest.terms@, fv, expression.terms@, inverse.num@, inverse.den@, variable);
    }
    let vars = poly_variables(&expression);
    if contains_variable(&vars, variable) {
        proof {
            let i = choose|i: int| 0 <= i < expression.terms@.len() && occurs(expression.terms@[i].monomial.exponents@, variable);
            assert(occurs(term_monomial(expression.terms@[i]), variable));
        }
        return None;
    }
    proof {
        if exists|i: int| 0 <= i < expression.terms@.len() && occurs(term_monomial(#[trigger] expression.terms@[i]), variable) {
            let i = choose|i: int| 0 <= i < expression.terms@.len() && occurs(term_monomial(#[trigger] expression.terms@[i]), variable);
            assert(vars@.contains(variable));
        }
    }
    let c = DefinitionalCandidate {
        variable,
        source_relation_id: relation.id,
        coefficient,
        expression,
        score: relation.polynomial.terms.len(),
    };
    proof {
        assert(is_normalization(c.expression.terms@, scale_view(terms_view(rest.terms@), inverse.num@, inverse.den@)));
    }
    Some(c)
}

fn candidate_before_exec(a: &DefinitionalCandidate, b: &DefinitionalCandidate) -> (r: bool)
    ensures
        r == candidate_before(*a, *b),
{
    if a.score != b.score {
        return a.score < b.score;
    }
    if a.variable.0 != b.variable.0 {
        return a.variable.0 < b.variable.0;
    }
    if a.source_relation_id.0 != b.source_relation_id.0 {
        return a.source_relation_id.0 < b.source_relation_id.0;
    }
    hash_order(&a.expression.hash, &b.expression.hash) < 0
}

/// Inserts `c` after every candidate that does not sort after it.
fn insert_candidate(out: &mut Vec<DefinitionalCandidate>, c: DefinitionalCandidate)
    requires
        candidates_sorted(old(out)@),
    ensures
        candidates_sorted(final(out)@),
        final(out)@.len() == old(out)@.len() + 1,
        forall|x: DefinitionalCandidate| #[trigger] final(out)@.contains(x) <==> (old(out)@.contains(x) || x == c),
{
    let n = out.len();
    let mut p: usize = 0;
    while p < n && !candidate_before_exec(&c, &out[p])
        invariant
            p <= n,
            n == out@.len(),
            forall|k: int| 0 <= k < p ==> !candidate_before(c, #[trigger] out@[k]),
        decreases n - p,
    {
        p += 1;
    }
    let ghost before = out@;
    out.insert(p, c);
    proof {
        let s = out@;
        assert(s == before.insert(p as int, c));
        assert forall|i: int, j: int| 0 <= i < j < s.len() implies !candidate_before(#[trigger] s[j], #[trigger] s[i]) by {
            if j < p {
                assert(s[i] == before[i] && s[j] == before[j]);
            } else if j == p {
                assert(s[i] == before[i]);
            } else if i == p {
                assert(s[j] == before[j - 1]);
                assert(candidate_before(c, before[p as int]));
                if candidate_before(before[j - 1], c) {
                    lemma_before_trans(before[j - 1], c, before[p as int]);
                    if p < j - 1 {
                        assert(!candidate_before(before[j - 1], before[p as int]));
                    } else {
                        crate::types::hash::lemma_lex_refl(before[p as int].expression.hash.0@);
                    }
                }
            } else if i < p {
                assert(s[i] == before[i] && s[j] == before[j - 1]);
            } else {
                assert(s[i] == before[i - 1] && s[j] == before[j - 1]);
            }
        }
        assert forall|x: DefinitionalCandidate| #[trigger] s.contains(x) <==> (before.contains(x) || x == c) by {
            if s.contains(x) {
                let i = choose|i: int| 0 <= i < s.len() && s[i] == x;
                if i < p {
                    assert(before[i] == x);
                } else if i > p {
                    assert(before[i - 1] == x);
                }
            }
            if before.contains(x) {
                let i = choose|i: int| 0 <= i < before.len() && before[i] == x;
                if i < p {
                    assert(s[i] == x);
                } else {
                    assert(s[i + 1] == x);
                }
            }
            if x == c {
                assert(s[p as int] == c);
            }
        }
    }
}

/// Adds, in order, the candidates that `relation` gives.
fn push_relation_candidates(relation: &CanonicalRelationQ, target: VariableId, out: &mut Vec<DefinitionalCandidate>)
    requires
        coeffs_well_formed(terms_view(relation.polynomial.terms@)),
        candidates_sorted(old(out)@),
    ensures
        candidates_sorted(final(out)@),
        final(out)@.len() == old(out)@.len() + definable_set(terms_view(relation.polynomial.terms@), target).len(),
        forall|x: DefinitionalCandidate| old(out)@.contains(x) ==> #[trigger] final(out)@.contains(x),
        forall|x: DefinitionalCandidate| #[trigger] final(out)@.contains(x) ==> old(out)@.contains(x) || is_candidate_of(
            *relation,
            target,
            x,
        ),
        forall|v: VariableId| #[trigger] definable(terms_view(relation.polynomial.terms@), v, target) ==> exists|x: DefinitionalCandidate|
            #[trigger] final(out)@.contains(x) && x.variable == v && is_candidate_of(*relation, target, x),
{
    let ghost tv = terms_view(relation.polynomial.terms@);
    let ghost start = out@;
    let vars = poly_variables(&relation.polynomial);
    let n = vars.len();
    let ghost mut found: Set<VariableId> = Set::empty();
    for j in 0..n
        invariant
            n == vars@.len(),
            tv == terms_view(relation.polynomial.terms@),
            coeffs_well_formed(tv),
            crate::types::id_set::var_ids_increasing(vars@),
            forall|v: VariableId| #[trigger] vars@.contains(v) <==> exists|i: int|
                0 <= i < relation.polynomial.terms@.len() && occurs(relation.polynomial.terms@[i].monomial.exponents@, v),
            candidates_sorted(out@),
            found.finite(),
            found == Set::new(|v: VariableId| definable(tv, v, target) && vars@.take(j as int).contains(v)),
            out@.len() == start.len() + found.len(),
            forall|x: DefinitionalCandidate| start.contains(x) ==> #[trigger] out@.contains(x),
            forall|x: DefinitionalCandidate| #[trigger] out@.contains(x) ==> start.contains(x) || is_candidate_of(*relation, target, x),
            forall|v: VariableId| #[trigger] found.contains(v) ==> exists|x: DefinitionalCandidate|
                #[trigger] out@.contains(x) && x.variable == v && is_candidate_of(*relation, target, x),
    {
        let v = vars[j];
        let ghost old_found = found;
        proof {
            assert(vars@.contains(v));
            let i = choose|i: int| 0 <= i < relation.polynomial.terms@.len() && occurs(relation.polynomial.terms@[i].monomial.exponents@, v);
            assert(tv[i].2 == relation.polynomial.terms@[i].monomial.exponents@);
            assert(view_occurs(tv, v));
            assert(!vars@.take(j as int).contains(v)) by {
                if vars@.take(j as int).contains(v) {
                    let k = choose|k: int| 0 <= k < j && vars@.take(j as int)[k] == v;
                    assert(vars@[k].0 < vars@[j as int].0);
                }
            }
            assert(vars@.take(j + 1) == vars@.take(j as int).push(v));
        }
        let candidate = definitional_candidate(relation, v, target);
        match candidate {
            Some(c) => {
                let ghost before = out@;
                insert_candidate(out, c);
                proof {
                    found = old_found.insert(v);
                    assert(definable(tv, v, target));
                    assert(vars@.take(j + 1)[j as int] == v);
                    assert forall|w: VariableId| #[trigger] found.contains(w) == (definable(tv, w, target) && vars@.take(j + 1).contains(w)) by {
                        if vars@.take(j + 1).contains(w) && w != v {
                            let k = choose|k: int| 0 <= k < j + 1 && #[trigger] vars@.take(j + 1)[k] == w;
                            assert(k < j);
                            assert(vars@.take(j as int)[k] == w);
                        }
                        if vars@.take(j as int).contains(w) {
                            let k = choose|k: int| 0 <= k < j && #[trigger] vars@.take(j as int)[k] == w;
                            assert(vars@.take(j + 1)[k] == w);
                        }
                    }
                    assert(found =~= Set::new(|w: VariableId| definable(tv, w, target) && vars@.take(j + 1).contains(w)));
                    assert(out@.contains(c));
                    assert forall|w: VariableId| #[trigger] found.contains(w) implies exists|x: DefinitionalCandidate|
                        #[trigger] out@.contains(x) && x.variable == w && is_candidate_of(*relation, target, x) by {
                        if w != v {
                            let x = choose|x: DefinitionalCandidate| #[trigger] before.contains(x) && x.variable == w && is_candidate_of(*relation, target, x);
                            assert(out@.contains(x));
                        }
                    }
                }
            },
            None => {
                proof {
                    assert(!definable(tv, v, target));
                    assert forall|w: VariableId| #[trigger] found.contains(w) == (definable(tv, w, target) && vars@.take(j + 1).contains(w)) by {
                        if vars@.take(j + 1).contains(w) && w != v {
                            let k = choose|k: int| 0 <= k < j + 1 && #[trigger] vars@.take(j + 1)[k] == w;
                            assert(k < j);
                            assert(vars@.take(j as int)[k] == w);
                        }
                        if vars@.take(j as int).contains(w) {
                            let k = choose|k: int| 0 <= k < j && #[trigger] vars@.take(j as int)[k] == w;
                            assert(vars@.take(j + 1)[k] == w);
                        }
                    }
                    assert(found =~= Set::new(|w: VariableId| definable(tv, w, target) && vars@.take(j + 1).contains(w)));
                }
            },
        }
    }
    proof {
        assert(vars@.take(n as int) == vars@);
        assert(found =~= definable_set(tv, target)) by {
            assert forall|v: VariableId| definable(tv, v, target) implies #[trigger] vars@.contains(v) by {
                let i = choose|i: int| 0 <= i < tv.len() && occurs((#[trigger] tv[i]).2, v);
                assert(tv[i].2 == relation.polynomial.terms@[i].monomial.exponents@);
            }
        }
        assert forall|v: VariableId| #[trigger] definable(tv, v, target) implies exists|x: DefinitionalCandidate|
            #[trigger] out@.contains(x) && x.variable == v && is_candidate_of(*relation, target, x) by {
            assert(found.contains(v));
        }
    }
}

/// Every (relation, variable) pair where the relation defines the variable by a constant
/// multiple of it, ordered by relation size, variable, relation id and expression digest.
pub fn find_definitional_relations(system: &CanonicalSystemQ) -> (out: Vec<DefinitionalCandidate>)
    requires
        relations_well_formed(system.relations@),
    ensures
        candidates_sorted(out@),
        out@.len() == definable_count(system.relations@, system.target),
        forall|x: DefinitionalCandidate| #[trigger] out@.contains(x) ==> exists|i: int|
            0 <= i < system.relations@.len() && is_candidate_of(#[trigger] system.relations@[i], system.target, x),
        forall|i: int, v: VariableId|
            0 <= i < system.relations@.len() && #[trigger] definable(terms_view(system.relations@[i].polynomial.terms@), v, system.target)
                ==> exists|x: DefinitionalCandidate| #[trigger] out@.contains(x) && x.variable == v && is_candidate_of(system.relations@[i], system.target, x),
{
    let mut out: Vec<DefinitionalCandidate> = Vec::new();
    let ghost rs = system.relations@;
    let n = system.relations.len();
    for i in 0..n
        invariant
            n == rs.len(),
            rs == system.relations@,
            relations_well_formed(rs),
            candidates_sorted(out@),
            out@.len() == definable_count(rs.take(i as int), system.target),
            forall|x: DefinitionalCandidate| #[trigger] out@.contains(x) ==> exists|k: int|
                0 <= k < i && is_candidate_of(#[trigger] rs[k], system.target, x),
            forall|k: int, v: VariableId|
                0 <= k < i && #[trigger] definable(terms_view(rs[k].polynomial.terms@), v, system.target)
                    ==> exists|x: DefinitionalCandidate| #[trigger] out@.contains(x) && x.variable == v && is_candidate_of(rs[k], system.target, x),
    {
        let relation = &system.relations[i];
        let ghost before = out@;
        push_relation_candidates(relation, system.target, &mut out);
        proof {
            assert(rs.take(i + 1).drop_last() == rs.take(i as int));
            assert(rs.take(i + 1).last() == rs[i as int]);
            assert forall|x: DefinitionalCandidate| #[trigger] out@.contains(x) implies exists|k: int|
                0 <= k < i + 1 && is_candidate_of(#[trigger] rs[k], system.target, x) by {
                if before.contains(x) {
                    let k = choose|k: int| 0 <= k < i && is_candidate_of(#[trigger] rs[k], system.target, x);
                } else {
                    assert(is_candidate_of(rs[i as int], system.target, x));
                }
            }
            assert forall|k: int, v: VariableId|
                0 <= k < i + 1 && #[trigger] definable(terms_view(rs[k].polynomial.terms@), v, system.target)
                    implies exists|x: DefinitionalCandidate| #[trigger] out@.contains(x) && x.variable == v && is_candidate_of(rs[k], system.target, x) by {
                if k < i {
                    let x = choose|x: DefinitionalCandidate| #[trigger] before.contains(x) && x.variable == v && is_candidate_of(rs[k], system.target, x);
                    assert(out@.contains(x));
                }
            }
        }
    }
    proof {
        assert(rs.take(n as int) == rs);
    }
    out
}

/// No relation of `s` defines a declared variable.
pub open spec fn definitions_exhausted(s: CompressionState) -> bool {
    forall|i: int, v: VariableId|
        0 <= i < s.relations@.len() && s.variables@.contains(v) ==> !#[trigger] definable(
            terms_view(s.relations@[i].polynomial.terms@),
            v,
            s.target,
        )
}

/// `c` may be used on `s`: its variable is declared and not the target, and its relation is
/// still there.
pub open spec fn usable_candidate(c: DefinitionalCandidate, s: CompressionState) -> bool {
    &&& c.variable != s.target
    &&& s.variables@.contains(c.variable)
    &&& has_relation(s.relations@, c.source_relation_id)
}

fn holds_relation(rs: &Vec<CanonicalRelationQ>, id: RelationId) -> (r: bool)
    ensures
        r == has_relation(rs@, id),
{
    let n = rs.len();
    for i in 0..n
        invariant
            n == rs@.len(),
            forall|k: int| 0 <= k < i ==> (#[trigger] rs@[k]).id != id,
    {
        if rs[i].id.0 == id.0 {
            return true;
        }
    }
    false
}

fn usable_candidate_exec(c: &DefinitionalCandidate, s: &CompressionState) -> (r: bool)
    ensures
        r == usable_candidate(*c, *s),
{
    c.variable.0 != s.target.0 && contains_variable(&s.variables, c.variable) && holds_relation(&s.relations, c.source_relation_id)
}

proof fn lemma_exhausted(state: CompressionState, current: CanonicalSystemQ, found: Seq<DefinitionalCandidate>)
    requires
        crate::preprocess::compression::same_relations(current.relations@, state.relations@),
        current.target == state.target,
        forall|i: int, v: VariableId|
            0 <= i < current.relations@.len() && #[trigger] definable(terms_view(current.relations@[i].polynomial.terms@), v, current.target)
                ==> exists|x: DefinitionalCandidate| #[trigger] found.contains(x) && x.variable == v && is_candidate_of(current.relations@[i], current.target, x),
        forall|j: int| 0 <= j < found.len() ==> !usable_candidate(#[trigger] found[j], state),
    ensures
        definitions_exhausted(state),
{
    assert forall|i: int, v: VariableId|
        0 <= i < state.relations@.len() && state.variables@.contains(v) implies !#[trigger] definable(
        terms_view(state.relations@[i].polynomial.terms@),
        v,
        state.target,
    ) by {
        assert(same_relation(current.relations@[i], state.relations@[i]));
        if definable(terms_view(state.relations@[i].polynomial.terms@), v, state.target) {
            assert(definable(terms_view(current.relations@[i].polynomial.terms@), v, current.target));
            let x = choose|x: DefinitionalCandidate| #[trigger] found.contains(x) && x.variable == v
                && is_candidate_of(current.relations@[i], current.target, x);
            let j = choose|j: int| 0 <= j < found.len() && found[j] == x;
            assert(has_relation(state.relations@, x.source_relation_id)) by {
                assert(state.relations@[i].id == x.source_relation_id);
            }
            assert(usable_candidate(found[j], state));
        }
    }
}

proof fn lemma_candidate_well_formed(rel: CanonicalRelationQ, target: VariableId, c: DefinitionalCandidate)
    requires
        is_candidate_of(rel, target, c),
    ensures
        coeffs_well_formed(terms_view(c.expression.terms@)),
{
    let (r, n, d) = choose|r: Seq<TermQ>, n: int, d: int|
        d != 0 && same_ratio(n, d, -c.coefficient.den@, c.coefficient.num@) && is_normalization(
            r,
            view_free(terms_view(rel.polynomial.terms@), c.variable),
        ) && #[trigger] is_normalization(c.expression.terms@, scale_view(terms_view(r), n, d));
    lemma_normalization_well_formed(c.expression.terms@, scale_view(terms_view(r), n, d));
}

/// The fields that definitional elimination leaves alone are those of `b`.
pub open spec fn same_frame(a: CompressionState, b: CompressionState) -> bool {
    &&& a.target == b.target
    &&& a.semantic_encodings == b.semantic_encodings
    &&& a.guards == b.guards
    &&& a.saturations == b.saturations
    &&& a.feasibility_obligations == b.feasibility_obligations
    &&& a.rational_affine_transformations == b.rational_affine_transformations
    &&& a.trace == b.trace
}

/// `b` is `a` followed by definitional substitutions without guard.
pub open spec fn definitional_extension(
    a: Seq<crate::preprocess::compression::CompressionSubstitution>,
    b: Seq<crate::preprocess::compression::CompressionSubstitution>,
) -> bool {
    &&& a.len() <= b.len()
    &&& b.take(a.len() as int) == a
    &&& forall|k: int|
        a.len() <= k < b.len() ==> (#[trigger] b[k]).kind == SubstitutionKind::Definitional && b[k].denominator_guard is None
}

proof fn lemma_extension_push(
    a: Seq<crate::preprocess::compression::CompressionSubstitution>,
    b: Seq<crate::preprocess::compression::CompressionSubstitution>,
    c: Seq<crate::preprocess::compression::CompressionSubstitution>,
)
    requires
        definitional_extension(a, b),
        c.len() == b.len() + 1,
        c.drop_last() == b,
        c.last().kind == SubstitutionKind::Definitional,
        c.last().denominator_guard is None,
    ensures
        definitional_extension(a, c),
{
    assert(c.take(a.len() as int) == b.take(a.len() as int));
    assert forall|k: int| a.len() <= k < c.len() implies (#[trigger] c[k]).kind == SubstitutionKind::Definitional
        && c[k].denominator_guard is None by {
        if k < c.len() - 1 {
            assert(c[k] == b[k]);
        }
    }
}

/// `e` records the substitution of candidate `c`: its variable := its expression, from its
/// relation.
pub open spec fn records_candidate(e: crate::preprocess::compression::CompressionSubstitution, c: DefinitionalCandidate) -> bool {
    &&& e.eliminated_variable == c.variable
    &&& e.source_relation_id == c.source_relation_id
    &&& e.expression == crate::preprocess::compression::CompressionExpression::Polynomial(c.expression)
    &&& e.kind == SubstitutionKind::Definitional
    &&& e.denominator_guard is None
}

/// One elimination step from `a` to `b` with candidate `c`: `c` defines a declared variable
/// other than the target by a relation of `a` (its relation is still there); `b` holds the
/// relations of `a` with `c.variable := c.expression` substituted, `c`'s relation dropped
/// and the zero results dropped; `b` records the substitution and no longer declares the
/// variable.
#[verifier::opaque]
pub open spec fn is_definitional_step(a: CompressionState, b: CompressionState, c: DefinitionalCandidate) -> bool {
    &&& usable_candidate(c, a)
    &&& exists|i: int, rel: CanonicalRelationQ|
        0 <= i < a.relations@.len() && #[trigger] same_relation(rel, a.relations@[i]) && is_candidate_of(rel, a.target, c)
    &&& crate::preprocess::compression::is_substitution_rewrite(
        b.relations@,
        a.relations@,
        c.source_relation_id,
        c.variable,
        terms_view(c.expression.terms@),
    )
    &&& b.substitutions@.len() == a.substitutions@.len() + 1
    &&& b.substitutions@.drop_last() == a.substitutions@
    &&& records_candidate(b.substitutions@.last(), c)
    &&& b.variables@ == crate::problem::canonicalize::without_variable(a.variables@, c.variable)
    &&& same_frame(b, a)
}

/// `states` runs from `states[0]` to its last entry by elimination steps with `cands`.
#[verifier::opaque]
pub open spec fn is_definitional_run(states: Seq<CompressionState>, cands: Seq<DefinitionalCandidate>) -> bool {
    &&& states.len() == cands.len() + 1
    &&& forall|k: int| 0 <= k < cands.len() ==> is_definitional_step(states[k], #[trigger] states[k + 1], cands[k])
}

/// `b` is reached from `a` by elimination steps.
#[verifier::opaque]
pub open spec fn definitional_reach(a: CompressionState, b: CompressionState) -> bool {
    exists|states: Seq<CompressionState>, cands: Seq<DefinitionalCandidate>|
        #[trigger] is_definitional_run(states, cands) && states[0] == a && states.last() == b
}

proof fn lemma_reach_start(a: CompressionState)
    ensures
        definitional_reach(a, a),
{
    reveal(is_definitional_run);
    reveal(definitional_reach);
    assert(is_definitional_run(seq![a], Seq::<DefinitionalCandidate>::empty()));
}

proof fn lemma_reach_step(a: CompressionState, b: CompressionState, d: CompressionState, c: DefinitionalCandidate)
    requires
        definitional_reach(a, b),
        is_definitional_step(b, d, c),
    ensures
        definitional_reach(a, d),
{
    reveal(definitional_reach);
    let (states, cands) = choose|states: Seq<CompressionState>, cands: Seq<DefinitionalCandidate>|
        #[trigger] is_definitional_run(states, cands) && states[0] == a && states.last() == b;
    lemma_run_push(states, cands, d, c);
    assert(states.len() >= 1) by {
        reveal(is_definitional_run);
    }
    assert(states.push(d)[0] == a);
    assert(states.push(d).last() == d);
}

proof fn lemma_run_push(
    states: Seq<CompressionState>,
    cands: Seq<DefinitionalCandidate>,
    b: CompressionState,
    c: DefinitionalCandidate,
)
    requires
        is_definitional_run(states, cands),
        is_definitional_step(states.last(), b, c),
    ensures
        is_definitional_run(states.push(b), cands.push(c)),
{
    reveal(is_definitional_run);
    let s2 = states.push(b);
    let c2 = cands.push(c);
    assert forall|k: int| 0 <= k < c2.len() implies is_definitional_step(s2[k], #[trigger] s2[k + 1], c2[k]) by {
        if k < cands.len() {
            assert(s2[k] == states[k]);
            assert(s2[k + 1] == states[k + 1]);
            assert(c2[k] == cands[k]);
        } else {
            assert(s2[k] == states.last());
        }
    }
}

proof fn lemma_step_intro(
    a: CompressionState,
    b: CompressionState,
    c: DefinitionalCandidate,
    current: crate::problem::canonicalize::CanonicalSystemQ,
)
    requires
        usable_candidate(c, a),
        crate::preprocess::compression::same_relations(current.relations@, a.relations@),
        current.target == a.target,
        exists|i: int| 0 <= i < current.relations@.len() && is_candidate_of(#[trigger] current.relations@[i], current.target, c),
        crate::preprocess::compression::is_substitution_rewrite(
            b.relations@,
            a.relations@,
            c.source_relation_id,
            c.variable,
            terms_view(c.expression.terms@),
        ),
        b.substitutions@.len() == a.substitutions@.len() + 1,
        b.substitutions@.drop_last() == a.substitutions@,
        records_candidate(b.substitutions@.last(), c),
        b.variables@ == crate::problem::canonicalize::without_variable(a.variables@, c.variable),
        same_frame(b, a),
    ensures
        is_definitional_step(a, b, c),
{
    reveal(is_definitional_step);
    let ci = choose|i: int| 0 <= i < current.relations@.len() && is_candidate_of(#[trigger] current.relations@[i], current.target, c);
    assert(same_relation(current.relations@[ci], a.relations@[ci]));
}

/// Substitutes the candidate's expression for its variable, drops its relation and records the
/// substitution.
fn eliminate_candidate(state: &mut CompressionState, candidate: DefinitionalCandidate)
    requires
        relations_well_formed(old(state).relations@),
        coeffs_well_formed(terms_view(candidate.expression.terms@)),
        has_relation(old(state).relations@, candidate.source_relation_id),
    ensures
        relations_well_formed(final(state).relations@),
        final(state).relations@.len() < old(state).relations@.len(),
        same_frame(*final(state), *old(state)),
        final(state).substitutions@.drop_last() == old(state).substitutions@,
        final(state).substitutions@.len() == old(state).substitutions@.len() + 1,
        final(state).substitutions@.last().kind == SubstitutionKind::Definitional,
        final(state).substitutions@.last().denominator_guard is None,
        records_candidate(final(state).substitutions@.last(), candidate),
        final(state).variables@ == crate::problem::canonicalize::without_variable(old(state).variables@, candidate.variable),
        crate::preprocess::compression::is_substitution_rewrite(
            final(state).relations@,
            old(state).relations@,
            candidate.source_relation_id,
            candidate.variable,
            terms_view(candidate.expression.terms@),
        ),
{
    state.apply_polynomial_substitution(candidate.variable, &candidate.expression, candidate.source_relation_id);
    state.add_substitution(
        candidate.variable,
        candidate.expression,
        None,
        candidate.source_relation_id,
        SubstitutionKind::Definitional,
    );
}

/// Repeatedly takes the first usable definition (in the order of
/// `find_definitional_relations` on the current relations), substitutes its expression for its
/// variable in the other relations, drops its relation and records the substitution, until no
/// relation defines a declared variable.
#[verifier::spinoff_prover]
#[verifier::rlimit(30)]
pub fn apply_definitional_elimination(
    state: CompressionState,
    _candidates: &[DefinitionalCandidate],
    _ctx: &mut SolverContext,
) -> (r: Result<CompressionState, SolverError>)
    requires
        relations_well_formed(state.relations@),
    ensures
        *final(_ctx) == *old(_ctx),
        r is Ok,
        r matches Ok(s) ==> {
            &&& definitions_exhausted(s)
            &&& relations_well_formed(s.relations@)
            &&& s.relations@.len() <= state.relations@.len()
            &&& same_frame(s, state)
            &&& definitional_extension(state.substitutions@, s.substitutions@)
            &&& definitional_reach(state, s)
        },
{
    let mut state = state;
    let ghost start = state;
    proof {
        lemma_reach_start(state);
    }
    proof {
        assert(state.substitutions@.take(state.substitutions@.len() as int) == state.substitutions@);
    }
    loop
        invariant_except_break
            relations_well_formed(state.relations@),
            state.relations@.len() <= start.relations@.len(),
            same_frame(state, start),
            definitional_extension(start.substitutions@, state.substitutions@),
            definitional_reach(start, state),
        ensures
            definitional_reach(start, state),
            definitions_exhausted(state),
            relations_well_formed(state.relations@),
            state.relations@.len() <= start.relations@.len(),
            same_frame(state, start),
            definitional_extension(start.substitutions@, state.substitutions@),
        decreases state.relations@.len(),
    {
        let current = state.to_canonical_system();
        proof {
            assert forall|i: int| 0 <= i < current.relations@.len() implies coeffs_well_formed(
                terms_view((#[trigger] current.relations@[i]).polynomial.terms@),
            ) by {
                assert(same_relation(current.relations@[i], state.relations@[i]));
            }
        }
        let mut found = find_definitional_relations(&current);
        let m = found.len();
        let mut k: usize = 0;
        while k < m && !usable_candidate_exec(&found[k], &state)
            invariant
                k <= m,
                m == found@.len(),
                forall|j: int| 0 <= j < k ==> !usable_candidate(#[trigger] found@[j], state),
            decreases m - k,
        {
            k += 1;
        }
        if k == m {
            proof {
                lemma_exhausted(state, current, found@);
            }
            break;
        }
        let ghost listed = found@;
        let ghost before = state;
        let candidate = found.remove(k);
        proof {
            assert(listed[k as int] == candidate);
            assert(listed.contains(candidate));
            let i = choose|i: int| 0 <= i < current.relations@.len() && is_candidate_of(#[trigger] current.relations@[i], current.target, candidate);
            lemma_candidate_well_formed(current.relations@[i], current.target, candidate);
        }
        let ghost c = candidate;
        eliminate_candidate(&mut state, candidate);
        proof {
            lemma_extension_push(start.substitutions@, before.substitutions@, state.substitutions@);
            lemma_step_intro(before, state, c, current);
            lemma_reach_step(start, before, state, c);
        }
    }
    Ok(state)
}

} // verus!
