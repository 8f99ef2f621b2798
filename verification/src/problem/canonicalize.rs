//! Canonical systems: each equation's primitive integer form, zero equations dropped,
//! relations ordered by content, and the variable order with the target first.
use vstd::prelude::*;
use vstd::string::StringSliceAdditionalSpecFns;

use crate::problem::semantic::{
    semantic_references_resolve, variable_id_bytes, variable_ids_to_bytes, verify_semantic_references,
    RealConstraintEncoding,
};
use crate::problem::validate::{is_invalid_input, ValidatedProblem};
use crate::result::diagnostics::DiagnosticRecord;
use crate::result::status::{SolverError, StageId};
use crate::types::bytes::{be_bytes, u32_be};
use crate::types::chunks::{push_chunk, push_relation_chunks, relation_chunks};
use crate::types::hash::{self, chunk_views, hash_order, hash_sequence, hash_to_vec, lex_order, spec_hash_sequence};
use crate::types::ids::{RelationId, VariableId};
use crate::types::monomial::is_normal_entries;
use crate::types::polynomial::{
    clear_denominators_primitive, cleared_view, coeff_sum, coeffs_well_formed, is_normalization,
    spec_hash_terms, term_monomial, terms_view, SparsePolynomialQ, TermQ,
};
use crate::types::rational::{is_zero_q, same_ratio};

verus! {

#[derive(Debug, Clone, PartialEq, Eq)]
pub struct VariableOrder {
    pub variables: Vec<VariableId>,
}

#[derive(Debug, Clone, Copy, PartialEq, Eq, Structural)]
pub enum RelationSource {
    InputEquation,
    SemanticEncoding,
}

#[derive(Debug, Clone, PartialEq, Eq)]
pub struct CanonicalRelationQ {
    pub id: RelationId,
    pub polynomial: SparsePolynomialQ,
    pub source: RelationSource,
    pub hash: hash::Hash,
}

#[derive(Debug, Clone, PartialEq, Eq)]
pub struct CanonicalSystemQ {
    pub variables: Vec<VariableId>,
    pub target: VariableId,
    pub relations: Vec<CanonicalRelationQ>,
    pub relation_order: Vec<RelationId>,
    pub variable_order: VariableOrder,
    pub semantic_encodings: Vec<RealConstraintEncoding>,
    pub canonical_hash: hash::Hash,
    pub diagnostics: Vec<DiagnosticRecord>,
}

/// The variables other than `t`, in order, repetitions kept.
pub open spec fn without_variable(vars: Seq<VariableId>, t: VariableId) -> Seq<VariableId>
    decreases vars.len(),
{
    if vars.len() == 0 {
        Seq::empty()
    } else if vars.last() == t {
        without_variable(vars.drop_last(), t)
    } else {
        without_variable(vars.drop_last(), t).push(vars.last())
    }
}

pub open spec fn ids_nondecreasing(s: Seq<VariableId>) -> bool {
    forall|i: int, j: int| 0 <= i < j < s.len() ==> #[trigger] s[i].0 <= #[trigger] s[j].0
}

/// The canonical variable order: the target, then the other variables sorted by id
/// (repetitions kept).
pub open spec fn is_canonical_order(order: Seq<VariableId>, vars: Seq<VariableId>, target: VariableId) -> bool {
    &&& order.len() >= 1
    &&& order[0] == target
    &&& ids_nondecreasing(order.drop_first())
    &&& order.drop_first().to_multiset() == without_variable(vars, target).to_multiset()
}

/// The target first, then the other variables in increasing id order.
pub fn canonical_variable_order(vars: &[VariableId], target: VariableId) -> (order: VariableOrder)
    ensures
        is_canonical_order(order.variables@, vars@, target),
{
    broadcast use vstd::seq_lib::to_multiset_build, vstd::seq_lib::to_multiset_insert;

    let mut rest: Vec<VariableId> = Vec::new();
    let n = vars.len();
    for i in 0..n
        invariant
            n == vars@.len(),
            ids_nondecreasing(rest@),
            rest@.to_multiset() == without_variable(vars@.take(i as int), target).to_multiset(),
    {
        proof {
            assert(vars@.take(i + 1).drop_last() == vars@.take(i as int));
            assert(vars@.take(i + 1).last() == vars@[i as int]);
        }
        let v = vars[i];
        if v != target {
            let mut k: usize = 0;
            while k < rest.len() && rest[k].0 <= v.0
                invariant
                    k <= rest@.len(),
                    ids_nondecreasing(rest@),
                    forall|j: int| 0 <= j < k ==> rest@[j].0 <= v.0,
                decreases rest@.len() - k,
            {
                k += 1;
            }
            let ghost old_rest = rest@;
            rest.insert(k, v);
            proof {
                assert forall|a: int, b: int| 0 <= a < b < rest@.len() implies #[trigger] rest@[a].0 <= #[trigger] rest@[b].0 by {
                    if b < k {
                        assert(rest@[a] == old_rest[a] && rest@[b] == old_rest[b]);
                    } else if b == k {
                        assert(rest@[a] == old_rest[a]);
                    } else if a < k {
                        assert(rest@[a] == old_rest[a] && rest@[b] == old_rest[b - 1]);
                        assert(old_rest[k as int].0 > v.0);
                        if b - 1 > k {
                            assert(old_rest[k as int].0 <= old_rest[b - 1].0);
                        }
                    } else if a == k {
                        assert(rest@[b] == old_rest[b - 1]);
                        assert(old_rest[k as int].0 > v.0);
                        if b - 1 > k {
                            assert(old_rest[k as int].0 <= old_rest[b - 1].0);
                        }
                    } else {
                        assert(rest@[a] == old_rest[a - 1] && rest@[b] == old_rest[b - 1]);
                    }
                }
                assert(rest@ == old_rest.insert(k as int, v));
                vstd::seq_lib::to_multiset_insert(old_rest, k as int, v);
                let w = without_variable(vars@.take(i as int), target);
                assert(without_variable(vars@.take(i + 1), target) == w.push(v));
                vstd::seq_lib::to_multiset_build(w, v);
            }
        } else {
            proof {
                assert(without_variable(vars@.take(i + 1), target) == without_variable(vars@.take(i as int), target));
            }
        }
    }
    assert(vars@.take(n as int) == vars@);
    let mut variables: Vec<VariableId> = Vec::new();
    variables.push(target);
    let ghost head = variables@;
    let m = rest.len();
    for i in 0..m
        invariant
            m == rest@.len(),
            variables@.len() == i + 1,
            variables@[0] == target,
            variables@.drop_first() == rest@.take(i as int),
    {
        let ghost prev = variables@;
        variables.push(rest[i]);
        assert(variables@.drop_first() =~= rest@.take(i + 1));
    }
    assert(rest@.take(m as int) == rest@);
    VariableOrder { variables }
}

pub open spec fn spec_relation_hash(id: RelationId, poly_hash: hash::Hash) -> Seq<u8> {
    spec_hash_sequence("canonical-relation".spec_bytes(), seq![be_bytes(id.0 as nat, 4), poly_hash.0@])
}

/// `r` is the canonical relation `id` of polynomial `p`: its primitive integer form.
pub open spec fn is_canonical_relation(r: CanonicalRelationQ, id: RelationId, p: SparsePolynomialQ) -> bool {
    &&& r.id == id
    &&& is_normalization(r.polynomial.terms@, cleared_view(terms_view(p.terms@)))
    &&& r.polynomial.hash.0@ == spec_hash_terms(r.polynomial.terms@)
    &&& r.source == RelationSource::InputEquation
    &&& r.hash.0@ == spec_relation_hash(id, r.polynomial.hash)
}

/// The canonical relation `id` of `p`.
pub fn canonicalize_relation(id: RelationId, p: SparsePolynomialQ) -> (r: CanonicalRelationQ)
    requires
        coeffs_well_formed(terms_view(p.terms@)),
    ensures
        is_canonical_relation(r, id, p),
{
    let polynomial = clear_denominators_primitive(&p);
    let mut chunks: Vec<Vec<u8>> = Vec::new();
    push_chunk(&mut chunks, u32_be(id.0));
    push_chunk(&mut chunks, hash_to_vec(&polynomial.hash));
    assert(chunk_views(chunks@) =~= seq![be_bytes(id.0 as nat, 4), polynomial.hash.0@]);
    let hash = hash_sequence("canonical-relation", chunks.as_slice());
    CanonicalRelationQ { id, polynomial, source: RelationSource::InputEquation, hash }
}

/// The terms of a normalization have nonzero denominators.
pub proof fn lemma_normalization_well_formed(q: Seq<TermQ>, v: Seq<(int, int, Seq<(VariableId, u32)>)>)
    requires
        is_normalization(q, v),
    ensures
        coeffs_well_formed(terms_view(q)),
{
    assert forall|i: int| 0 <= i < terms_view(q).len() implies (#[trigger] terms_view(q)[i]).1 != 0 by {
        assert(terms_view(q)[i].1 == q[i].coeff.den@);
    }
}

/// The view sums to zero on every monomial.
pub open spec fn view_is_zero(v: Seq<(int, int, Seq<(VariableId, u32)>)>) -> bool {
    forall|m: Seq<(VariableId, u32)>| is_normal_entries(m) ==> (#[trigger] coeff_sum(v, m)).0 == 0
}

/// The view sums to a nonzero constant: only the empty monomial survives.
pub open spec fn view_is_nonzero_constant(v: Seq<(int, int, Seq<(VariableId, u32)>)>) -> bool {
    &&& coeff_sum(v, Seq::empty()).0 != 0
    &&& forall|m: Seq<(VariableId, u32)>| is_normal_entries(m) && m != Seq::<(VariableId, u32)>::empty() ==> (#[trigger] coeff_sum(v, m)).0 == 0
}

pub proof fn lemma_normalization_empty(q: Seq<TermQ>, v: Seq<(int, int, Seq<(VariableId, u32)>)>)
    requires
        is_normalization(q, v),
        coeffs_well_formed(v),
    ensures
        (q.len() == 0) == view_is_zero(v),
{
    if q.len() == 0 {
        assert forall|m: Seq<(VariableId, u32)>| is_normal_entries(m) implies (#[trigger] coeff_sum(v, m)).0 == 0 by {
            if coeff_sum(v, m).0 != 0 {
                let i = choose|i: int| 0 <= i < q.len() && term_monomial(q[i]) == m;
            }
        }
    } else {
        let t = q[0];
        let m = term_monomial(t);
        assert(same_ratio(t.coeff.num@, t.coeff.den@, coeff_sum(v, m).0, coeff_sum(v, m).1));
        if coeff_sum(v, m).0 == 0 {
            assert(t.coeff.num@ * coeff_sum(v, m).1 == 0);
            crate::types::polynomial::lemma_coeff_sum_den_pub(v, m, t.coeff.num@, t.coeff.den@);
        }
    }
}

/// A single term, with no variables and a nonzero coefficient.
pub open spec fn is_single_constant(q: Seq<TermQ>) -> bool {
    q.len() == 1 && q[0].monomial.exponents@.len() == 0 && q[0].coeff.num@ != 0
}

pub proof fn lemma_normalization_constant(q: Seq<TermQ>, v: Seq<(int, int, Seq<(VariableId, u32)>)>)
    requires
        is_normalization(q, v),
        coeffs_well_formed(v),
    ensures
        is_single_constant(q) == view_is_nonzero_constant(v),
{
    let e = Seq::<(VariableId, u32)>::empty();
    if is_single_constant(q) {
        let t = q[0];
        assert(term_monomial(t) =~= e);
        crate::types::polynomial::lemma_coeff_sum_den_pub(v, e, t.coeff.num@, t.coeff.den@);
        assert forall|m: Seq<(VariableId, u32)>| is_normal_entries(m) && m != e implies (#[trigger] coeff_sum(v, m)).0 == 0 by {
            if coeff_sum(v, m).0 != 0 {
                let i = choose|i: int| 0 <= i < q.len() && term_monomial(q[i]) == m;
                assert(i == 0);
            }
        }
    } else if view_is_nonzero_constant(v) {
        assert(is_normal_entries(e));
        let i = choose|i: int| 0 <= i < q.len() && term_monomial(q[i]) == e;
        assert forall|j: int| 0 <= j < q.len() implies term_monomial(#[trigger] q[j]) == e by {
            let t = q[j];
            let m = term_monomial(t);
            assert(same_ratio(t.coeff.num@, t.coeff.den@, coeff_sum(v, m).0, coeff_sum(v, m).1));
            if m != e {
                assert(coeff_sum(v, m).0 == 0);
                crate::types::polynomial::lemma_coeff_sum_den_pub(v, m, t.coeff.num@, t.coeff.den@);
            }
        }
        if q.len() > 1 {
            let a = if i == 0 { 1int } else { 0int };
            assert(term_monomial(q[a]) == e);
            if a < i {
                assert(crate::types::monomial::entries_order(term_monomial(q[a]), term_monomial(q[i])) < 0);
            } else {
                assert(crate::types::monomial::entries_order(term_monomial(q[i]), term_monomial(q[a])) < 0);
            }
            crate::types::monomial::lemma_entries_order_zero(e, e);
        }
        assert(q[0].monomial.exponents@ == e);
    }
}

/// One term, no variables, nonzero coefficient.
fn is_nonzero_constant(p: &SparsePolynomialQ) -> (r: bool)
    ensures
        r == is_single_constant(p.terms@),
{
    p.terms.len() == 1 && p.terms[0].monomial.exponents.len() == 0 && !is_zero_q(&p.terms[0].coeff)
}

/// The primitive integer view an equation canonicalizes to.
pub open spec fn canon_view(p: SparsePolynomialQ) -> Seq<(int, int, Seq<(VariableId, u32)>)> {
    cleared_view(terms_view(p.terms@))
}

/// Every equation's coefficients have nonzero denominators.
pub open spec fn equations_well_formed(eqs: Seq<SparsePolynomialQ>) -> bool {
    forall|i: int| 0 <= i < eqs.len() ==> coeffs_well_formed(terms_view((#[trigger] eqs[i]).terms@))
}

/// The positions of the equations whose canonical form is not zero.
pub open spec fn kept_indices(eqs: Seq<SparsePolynomialQ>) -> Seq<int>
    decreases eqs.len(),
{
    if eqs.len() == 0 {
        Seq::empty()
    } else if view_is_zero(canon_view(eqs.last())) {
        kept_indices(eqs.drop_last())
    } else {
        kept_indices(eqs.drop_last()).push(eqs.len() - 1)
    }
}

/// How many equations canonicalize to zero.
pub open spec fn zero_count(eqs: Seq<SparsePolynomialQ>) -> nat
    decreases eqs.len(),
{
    if eqs.len() == 0 {
        0
    } else if view_is_zero(canon_view(eqs.last())) {
        zero_count(eqs.drop_last()) + 1
    } else {
        zero_count(eqs.drop_last())
    }
}

/// Some equation canonicalizes to a nonzero constant.
pub open spec fn has_contradiction(eqs: Seq<SparsePolynomialQ>) -> bool {
    exists|i: int| 0 <= i < eqs.len() && view_is_nonzero_constant(canon_view(#[trigger] eqs[i]))
}

/// The relation ids of positions.
pub open spec fn ids_of(kept: Seq<int>) -> Seq<RelationId> {
    kept.map_values(|i: int| RelationId(i as u32))
}

pub open spec fn relation_key(r: CanonicalRelationQ) -> Seq<u8> {
    r.polynomial.hash.0@
}

/// `x` inserted into `s` after every relation whose polynomial digest is not greater.
pub open spec fn insert_by_hash(s: Seq<CanonicalRelationQ>, x: CanonicalRelationQ) -> Seq<CanonicalRelationQ>
    decreases s.len(),
{
    if s.len() == 0 {
        seq![x]
    } else if lex_order(relation_key(s[0]), relation_key(x)) > 0 {
        seq![x] + s
    } else {
        seq![s[0]] + insert_by_hash(s.drop_first(), x)
    }
}

/// The stable sort of relations by polynomial digest.
pub open spec fn sort_by_hash(s: Seq<CanonicalRelationQ>) -> Seq<CanonicalRelationQ>
    decreases s.len(),
{
    if s.len() == 0 {
        s
    } else {
        insert_by_hash(sort_by_hash(s.drop_last()), s.last())
    }
}

proof fn lemma_insert_by_hash_at(s: Seq<CanonicalRelationQ>, x: CanonicalRelationQ, i: int)
    requires
        0 <= i <= s.len(),
        forall|j: int| 0 <= j < i ==> lex_order(relation_key(#[trigger] s[j]), relation_key(x)) <= 0,
        i < s.len() ==> lex_order(relation_key(s[i]), relation_key(x)) > 0,
    ensures
        insert_by_hash(s, x) == s.take(i).push(x) + s.skip(i),
    decreases i,
{
    if i == 0 {
        assert(s.take(0).push(x) + s.skip(0) =~= seq![x] + s);
    } else {
        let t = s.drop_first();
        assert forall|j: int| 0 <= j < i - 1 implies lex_order(relation_key(#[trigger] t[j]), relation_key(x)) <= 0 by {
            assert(t[j] == s[j + 1]);
        }
        if i - 1 < t.len() {
            assert(t[i - 1] == s[i]);
        }
        lemma_insert_by_hash_at(t, x, i - 1);
        assert(lex_order(relation_key(s[0]), relation_key(x)) <= 0);
        assert(seq![s[0]] + (t.take(i - 1).push(x) + t.skip(i - 1)) =~= s.take(i).push(x) + s.skip(i));
    }
}

proof fn lemma_insert_by_hash_contains(s: Seq<CanonicalRelationQ>, x: CanonicalRelationQ, y: CanonicalRelationQ)
    ensures
        insert_by_hash(s, x).contains(y) == (s.contains(y) || y == x),
        insert_by_hash(s, x).len() == s.len() + 1,
    decreases s.len(),
{
    if s.len() > 0 && lex_order(relation_key(s[0]), relation_key(x)) <= 0 {
        lemma_insert_by_hash_contains(s.drop_first(), x, y);
        let r = insert_by_hash(s, x);
        let t = insert_by_hash(s.drop_first(), x);
        assert(r == seq![s[0]] + t);
        if r.contains(y) {
            let k = choose|k: int| 0 <= k < r.len() && r[k] == y;
            if k > 0 {
                assert(t[k - 1] == y);
                if y != x {
                    assert(s.drop_first().contains(y));
                    let q = choose|q: int| 0 <= q < s.drop_first().len() && s.drop_first()[q] == y;
                    assert(s[q + 1] == y);
                }
            } else {
                assert(s[0] == y);
            }
        }
        if s.contains(y) {
            let k = choose|k: int| 0 <= k < s.len() && s[k] == y;
            if k == 0 {
                assert(r[0] == y);
            } else {
                assert(s.drop_first()[k - 1] == y);
                assert(t.contains(y));
                let q = choose|q: int| 0 <= q < t.len() && t[q] == y;
                assert(r[q + 1] == y);
            }
        }
        if y == x {
            assert(t.contains(y));
            let q = choose|q: int| 0 <= q < t.len() && t[q] == y;
            assert(r[q + 1] == y);
        }
    } else if s.len() > 0 {
        let r = insert_by_hash(s, x);
        assert(r == seq![x] + s);
        if r.contains(y) && y != x {
            let k = choose|k: int| 0 <= k < r.len() && r[k] == y;
            assert(s[k - 1] == y);
        }
        if s.contains(y) {
            let k = choose|k: int| 0 <= k < s.len() && s[k] == y;
            assert(r[k + 1] == y);
        }
        if y == x {
            assert(r[0] == y);
        }
    } else {
        let r = insert_by_hash(s, x);
        if r.contains(y) {
            assert(r[0] == y);
        }
        if y == x {
            assert(r[0] == y);
        }
    }
}

/// Sorting keeps exactly the relations it was given.
pub proof fn lemma_sort_by_hash_contains(s: Seq<CanonicalRelationQ>, y: CanonicalRelationQ)
    ensures
        sort_by_hash(s).contains(y) == s.contains(y),
        sort_by_hash(s).len() == s.len(),
    decreases s.len(),
{
    if s.len() > 0 {
        lemma_sort_by_hash_contains(s.drop_last(), y);
        lemma_insert_by_hash_contains(sort_by_hash(s.drop_last()), s.last(), y);
        if s.contains(y) {
            let k = choose|k: int| 0 <= k < s.len() && s[k] == y;
            if k < s.len() - 1 {
                assert(s.drop_last()[k] == y);
            }
        }
        if s.drop_last().contains(y) {
            let k = choose|k: int| 0 <= k < s.drop_last().len() && s.drop_last()[k] == y;
            assert(s[k] == y);
        }
    }
}

/// The chunks of the canonical system digest.
pub open spec fn system_chunks(
    order: Seq<VariableId>,
    relation_order: Seq<RelationId>,
    relations: Seq<CanonicalRelationQ>,
    encodings: Seq<RealConstraintEncoding>,
) -> Seq<Seq<u8>> {
    seq![variable_id_bytes(order)] + relation_chunks(relation_order) + relation_pair_chunks(relations)
        + encodings.map_values(|e: RealConstraintEncoding| e.semantic_hash.0@)
}

/// Per relation: its id, then its digest.
pub open spec fn relation_pair_chunks(relations: Seq<CanonicalRelationQ>) -> Seq<Seq<u8>>
    decreases relations.len(),
{
    if relations.len() == 0 {
        Seq::empty()
    } else {
        relation_pair_chunks(relations.drop_last()).push(be_bytes(relations.last().id.0 as nat, 4)).push(
            relations.last().hash.0@,
        )
    }
}

pub open spec fn spec_canonical_hash(
    order: Seq<VariableId>,
    relation_order: Seq<RelationId>,
    relations: Seq<CanonicalRelationQ>,
    encodings: Seq<RealConstraintEncoding>,
) -> Seq<u8> {
    spec_hash_sequence("canonical-system".spec_bytes(), system_chunks(order, relation_order, relations, encodings))
}

fn hash_canonical_system(
    variable_order: &VariableOrder,
    relation_order: &[RelationId],
    relations: &[CanonicalRelationQ],
    semantic_encodings: &[RealConstraintEncoding],
) -> (h: hash::Hash)
    ensures
        h.0@ == spec_canonical_hash(variable_order.variables@, relation_order@, relations@, semantic_encodings@),
{
    let mut chunks: Vec<Vec<u8>> = Vec::new();
    push_chunk(&mut chunks, variable_ids_to_bytes(variable_order.variables.as_slice()));
    push_relation_chunks(&mut chunks, relation_order);
    let ghost head = chunk_views(chunks@);
    let n = relations.len();
    for i in 0..n
        invariant
            n == relations@.len(),
            chunk_views(chunks@) == head + relation_pair_chunks(relations@.take(i as int)),
    {
        push_chunk(&mut chunks, u32_be(relations[i].id.0));
        push_chunk(&mut chunks, hash_to_vec(&relations[i].hash));
        proof {
            let t = relations@.take(i + 1);
            assert(t.drop_last() == relations@.take(i as int));
            assert(t.last() == relations@[i as int]);
        }
    }
    assert(relations@.take(n as int) == relations@);
    let ghost mid = chunk_views(chunks@);
    let k = semantic_encodings.len();
    for i in 0..k
        invariant
            k == semantic_encodings@.len(),
            chunk_views(chunks@) == mid + semantic_encodings@.take(i as int).map_values(
                |e: RealConstraintEncoding| e.semantic_hash.0@,
            ),
    {
        push_chunk(&mut chunks, hash_to_vec(&semantic_encodings[i].semantic_hash));
        assert(semantic_encodings@.take(i + 1).map_values(|e: RealConstraintEncoding| e.semantic_hash.0@)
            =~= semantic_encodings@.take(i as int).map_values(|e: RealConstraintEncoding| e.semantic_hash.0@).push(
            semantic_encodings@[i as int].semantic_hash.0@,
        ));
    }
    assert(semantic_encodings@.take(k as int) == semantic_encodings@);
    assert(chunk_views(chunks@) =~= system_chunks(
        variable_order.variables@,
        relation_order@,
        relations@,
        semantic_encodings@,
    ));
    hash_sequence("canonical-system", chunks.as_slice())
}

/// The diagnostic recorded for a dropped zero equation.
pub open spec fn is_zero_relation_diagnostic(d: DiagnosticRecord) -> bool {
    &&& d.name@ == "ZeroRelationRemoved"@
    &&& d.message@ == "zero relation removed during canonicalization"@
    &&& d.stage matches Some(st) && st.0@ == "CanonicalizeSystem"@
}

/// `pre[j]` is the canonical relation of the `j`-th kept equation, under that equation's id.
pub open spec fn is_kept_relations(pre: Seq<CanonicalRelationQ>, eqs: Seq<SparsePolynomialQ>) -> bool {
    let kept = kept_indices(eqs);
    &&& pre.len() == kept.len()
    &&& forall|j: int|
        0 <= j < pre.len() ==> is_canonical_relation(#[trigger] pre[j], RelationId(kept[j] as u32), eqs[kept[j]])
}

/// The output relations: the sorted ones, renumbered `0, 1, ...` (re-canonicalized) when
/// `renumber` holds.
pub open spec fn relations_follow(out: Seq<CanonicalRelationQ>, sorted: Seq<CanonicalRelationQ>, renumber: bool) -> bool {
    &&& out.len() == sorted.len()
    &&& forall|k: int|
        0 <= k < out.len() ==> if renumber {
            is_canonical_relation(#[trigger] out[k], RelationId(k as u32), sorted[k].polynomial)
        } else {
            out[k] == sorted[k]
        }
}

/// What the canonical system of a valid problem holds.
pub open spec fn is_canonical_system(sys: CanonicalSystemQ, problem: crate::problem::input::RationalTargetProblem) -> bool {
    let eqs = problem.equations@;
    &&& sys.variables@ == problem.variables@
    &&& sys.target == problem.target
    &&& sys.semantic_encodings@ == problem.semantic_encodings@
    &&& exists|pre: Seq<CanonicalRelationQ>|
        is_kept_relations(pre, eqs) && relations_follow(
            sys.relations@,
            sort_by_hash(pre),
            problem.semantic_encodings@.len() == 0,
        )
    &&& sys.relation_order@ == sys.relations@.map_values(|r: CanonicalRelationQ| r.id)
    &&& is_canonical_order(sys.variable_order.variables@, problem.variables@, problem.target)
    &&& sys.diagnostics@.len() == zero_count(eqs)
    &&& forall|i: int| 0 <= i < sys.diagnostics@.len() ==> is_zero_relation_diagnostic(#[trigger] sys.diagnostics@[i])
    &&& sys.canonical_hash.0@ == spec_canonical_hash(
        sys.variable_order.variables@,
        sys.relation_order@,
        sys.relations@,
        sys.semantic_encodings@,
    )
}

proof fn lemma_cleared_well_formed(v: Seq<(int, int, Seq<(VariableId, u32)>)>)
    ensures
        coeffs_well_formed(cleared_view(v)),
{
    assert forall|i: int| 0 <= i < cleared_view(v).len() implies (#[trigger] cleared_view(v)[i]).1 != 0 by {}
}

proof fn lemma_resolve_congruent(
    sem: Seq<RealConstraintEncoding>,
    r1: Seq<RelationId>,
    r2: Seq<RelationId>,
    vars: Seq<VariableId>,
)
    requires
        forall|x: RelationId| #[trigger] r1.contains(x) == r2.contains(x),
    ensures
        semantic_references_resolve(sem, r1, vars) == semantic_references_resolve(sem, r2, vars),
{
    if semantic_references_resolve(sem, r1, vars) {
        assert forall|i: int, j: int|
            0 <= i < sem.len() && 0 <= j < sem[i].encoded_relation_ids@.len() implies r2.contains(
            #[trigger] sem[i].encoded_relation_ids@[j],
        ) by {
            assert(r1.contains(sem[i].encoded_relation_ids@[j]));
        }
    }
    if semantic_references_resolve(sem, r2, vars) {
        assert forall|i: int, j: int|
            0 <= i < sem.len() && 0 <= j < sem[i].encoded_relation_ids@.len() implies r1.contains(
            #[trigger] sem[i].encoded_relation_ids@[j],
        ) by {
            assert(r2.contains(sem[i].encoded_relation_ids@[j]));
        }
    }
}

/// Canonicalizes a validated problem: each equation becomes its primitive integer form,
/// zero equations are dropped with a diagnostic, a nonzero constant equation is a
/// contradiction, the relations are ordered by their polynomial digests (and renumbered when
/// there are no semantic encodings), and the semantic encodings must still resolve.
pub fn canonicalize_system(validated: ValidatedProblem) -> (r: Result<CanonicalSystemQ, SolverError>)
    requires
        equations_well_formed(validated.problem.equations@),
    ensures
        has_contradiction(validated.problem.equations@) ==> (r matches Err(e) && is_invalid_input(
            e,
            validated.problem.target,
            "nonzero constant relation makes the algebraic system contradictory"@,
        )),
        !has_contradiction(validated.problem.equations@) && !semantic_references_resolve(
            validated.problem.semantic_encodings@,
            ids_of(kept_indices(validated.problem.equations@)),
            validated.problem.variables@,
        ) ==> (r matches Err(e) && is_invalid_input(
            e,
            validated.problem.target,
            "semantic encoding became inconsistent during canonicalization"@,
        )),
        r is Ok <==> !has_contradiction(validated.problem.equations@) && semantic_references_resolve(
            validated.problem.semantic_encodings@,
            ids_of(kept_indices(validated.problem.equations@)),
            validated.problem.variables@,
        ),
        r matches Ok(sys) ==> is_canonical_system(sys, validated.problem),
{
    let ghost problem = validated.problem;
    let ghost eqs = validated.problem.equations@;
    let total = validated.problem.equations.len();
    let ValidatedProblem { problem: p } = validated;
    let variables = p.variables;
    let target = p.target;
    let semantic_encodings = p.semantic_encodings;
    let mut rest = p.equations;
    let mut sorted: Vec<CanonicalRelationQ> = Vec::new();
    let mut diagnostics: Vec<DiagnosticRecord> = Vec::new();
    let ghost mut pre: Seq<CanonicalRelationQ> = Seq::empty();
    let mut idx: usize = 0;
    assert(eqs.len() == total);
    assert(eqs.skip(0) == eqs);
    assert(eqs.take(0) =~= Seq::<SparsePolynomialQ>::empty());
    while rest.len() > 0
        invariant
            idx <= eqs.len(),
            eqs.len() == total,
            problem == validated.problem,
            rest@ == eqs.skip(idx as int),
            eqs == problem.equations@,
            target == problem.target,
            equations_well_formed(eqs),
            is_kept_relations(pre, eqs.take(idx as int)),
            sorted@ == sort_by_hash(pre),
            diagnostics@.len() == zero_count(eqs.take(idx as int)),
            forall|i: int| 0 <= i < diagnostics@.len() ==> is_zero_relation_diagnostic(#[trigger] diagnostics@[i]),
            !has_contradiction(eqs.take(idx as int)),
        decreases rest@.len(),
    {
        let ghost before = eqs.take(idx as int);
        let ghost after = eqs.take(idx + 1);
        proof {
            assert(after.drop_last() == before);
            assert(eqs.skip(idx as int)[0] == eqs[idx as int]);
            assert(eqs.skip(idx as int).remove(0) == eqs.skip(idx + 1));
            assert(after.last() == eqs[idx as int]);
            assert(coeffs_well_formed(terms_view(eqs[idx as int].terms@)));
        }
        let poly = rest.remove(0);
        #[verifier::truncate]
        let id = RelationId(idx as u32);
        let relation = canonicalize_relation(id, poly);
        proof {
            lemma_cleared_well_formed(terms_view(poly.terms@));
            lemma_normalization_empty(relation.polynomial.terms@, canon_view(poly));
            lemma_normalization_constant(relation.polynomial.terms@, canon_view(poly));
        }
        if relation.polynomial.terms.len() == 0 {
            diagnostics.push(DiagnosticRecord::new(
                "ZeroRelationRemoved",
                "zero relation removed during canonicalization",
                Some(StageId(String::from_str("CanonicalizeSystem"))),
            ));
            proof {
                assert(kept_indices(after) == kept_indices(before));
                assert(zero_count(after) == zero_count(before) + 1);
                assert forall|j: int| 0 <= j < pre.len() implies is_canonical_relation(
                    #[trigger] pre[j],
                    RelationId(kept_indices(after)[j] as u32),
                    after[kept_indices(after)[j]],
                ) by {
                    lemma_kept_bounds(before);
                    assert(after[kept_indices(before)[j]] == before[kept_indices(before)[j]]);
                }
                assert forall|i: int| 0 <= i < after.len() implies !view_is_nonzero_constant(canon_view(#[trigger] after[i])) by {
                    if i < before.len() {
                        assert(after[i] == before[i]);
                    } else {
                        assert(view_is_zero(canon_view(after[i])));
                        assert(is_normal_entries(Seq::<(VariableId, u32)>::empty()));
                    }
                }
            }
        } else if is_nonzero_constant(&relation.polynomial) {
            proof {
                assert(has_contradiction(eqs)) by {
                    assert(eqs[idx as int] == poly);
                }
            }
            let e = SolverError::invalid_input(
                Some(target),
                "nonzero constant relation makes the algebraic system contradictory",
            );
            assert(is_invalid_input(e, problem.target, "nonzero constant relation makes the algebraic system contradictory"@));
            return Err(e);
        } else {
            let ghost rel = relation;
            let mut i: usize = 0;
            while i < sorted.len() && hash_order(&sorted[i].polynomial.hash, &relation.polynomial.hash) <= 0
                invariant
                    i <= sorted@.len(),
                    forall|j: int| 0 <= j < i ==> lex_order(relation_key(#[trigger] sorted@[j]), relation_key(relation)) <= 0,
                decreases sorted@.len() - i,
            {
                i += 1;
            }
            proof {
                lemma_insert_by_hash_at(sorted@, relation, i as int);
            }
            let ghost old_sorted = sorted@;
            sorted.insert(i, relation);
            proof {
                let old_pre = pre;
                pre = pre.push(rel);
                assert(pre.drop_last() == old_pre);
                assert(sorted@ =~= old_sorted.take(i as int).push(rel) + old_sorted.skip(i as int));
                assert(sort_by_hash(pre) == insert_by_hash(sort_by_hash(old_pre), rel));
                assert(kept_indices(after) == kept_indices(before).push(idx as int));
                assert(zero_count(after) == zero_count(before));
                lemma_kept_bounds(before);
                assert forall|j: int| 0 <= j < pre.len() implies is_canonical_relation(
                    #[trigger] pre[j],
                    RelationId(kept_indices(after)[j] as u32),
                    after[kept_indices(after)[j]],
                ) by {
                    if j < old_pre.len() {
                        assert(pre[j] == old_pre[j]);
                        assert(after[kept_indices(before)[j]] == before[kept_indices(before)[j]]);
                    } else {
                        assert(pre[j] == rel);
                        assert(after[idx as int] == poly);
                    }
                }
                assert forall|q: int| 0 <= q < after.len() implies !view_is_nonzero_constant(canon_view(#[trigger] after[q])) by {
                    if q < before.len() {
                        assert(after[q] == before[q]);
                    } else {
                        assert(after[q] == poly);
                    }
                }
            }
        }
        idx = idx + 1;
    }
    proof {
        assert(eqs.take(idx as int) == eqs);
    }
    let ghost sorted_view = sorted@;
    let renumber = semantic_encodings.len() == 0;
    let relations = if renumber {
        renumber_relations(sorted, Ghost(pre), Ghost(eqs))
    } else {
        sorted
    };
    let mut relation_order: Vec<RelationId> = Vec::new();
    let m = relations.len();
    for k in 0..m
        invariant
            m == relations@.len(),
            relation_order@ == relations@.take(k as int).map_values(|r: CanonicalRelationQ| r.id),
    {
        relation_order.push(relations[k].id);
        assert(relations@.take(k + 1).map_values(|r: CanonicalRelationQ| r.id) =~= relations@.take(k as int).map_values(
            |r: CanonicalRelationQ| r.id,
        ).push(relations@[k as int].id));
    }
    assert(relations@.take(m as int) == relations@);
    proof {
        if renumber {
            assert(semantic_references_resolve(semantic_encodings@, relation_order@, variables@));
            assert(semantic_references_resolve(semantic_encodings@, ids_of(kept_indices(eqs)), variables@));
        } else {
            assert forall|x: RelationId| #[trigger] relation_order@.contains(x) == ids_of(kept_indices(eqs)).contains(x) by {
                lemma_order_ids(relation_order@, relations@, pre, eqs, x);
            }
            lemma_resolve_congruent(semantic_encodings@, relation_order@, ids_of(kept_indices(eqs)), variables@);
        }
    }
    match verify_semantic_references(semantic_encodings.as_slice(), relation_order.as_slice(), variables.as_slice()) {
        Err(_) => {
            return Err(
                SolverError::invalid_input(
                    Some(target),
                    "semantic encoding became inconsistent during canonicalization",
                ),
            );
        },
        Ok(()) => {},
    }
    let variable_order = canonical_variable_order(variables.as_slice(), target);
    let canonical_hash = hash_canonical_system(
        &variable_order,
        relation_order.as_slice(),
        relations.as_slice(),
        semantic_encodings.as_slice(),
    );
    let sys = CanonicalSystemQ {
        variables,
        target,
        relations,
        relation_order,
        variable_order,
        semantic_encodings,
        canonical_hash,
        diagnostics,
    };
    proof {
        assert(is_kept_relations(pre, eqs) && relations_follow(sys.relations@, sort_by_hash(pre), renumber));
    }
    Ok(sys)
}

proof fn lemma_kept_bounds(eqs: Seq<SparsePolynomialQ>)
    ensures
        forall|j: int| 0 <= j < kept_indices(eqs).len() ==> 0 <= #[trigger] kept_indices(eqs)[j] < eqs.len(),
    decreases eqs.len(),
{
    if eqs.len() > 0 {
        let d = eqs.drop_last();
        lemma_kept_bounds(d);
        assert forall|j: int| 0 <= j < kept_indices(eqs).len() implies 0 <= #[trigger] kept_indices(eqs)[j] < eqs.len() by {
            if j < kept_indices(d).len() {
                assert(kept_indices(eqs)[j] == kept_indices(d)[j]);
            }
        }
    }
}

proof fn lemma_order_ids(
    order: Seq<RelationId>,
    relations: Seq<CanonicalRelationQ>,
    pre: Seq<CanonicalRelationQ>,
    eqs: Seq<SparsePolynomialQ>,
    x: RelationId,
)
    requires
        order == relations.map_values(|r: CanonicalRelationQ| r.id),
        relations == sort_by_hash(pre),
        is_kept_relations(pre, eqs),
    ensures
        order.contains(x) == ids_of(kept_indices(eqs)).contains(x),
{
    let kept = kept_indices(eqs);
    if order.contains(x) {
        let k = choose|k: int| 0 <= k < order.len() && order[k] == x;
        let y = relations[k];
        assert(relations.contains(y));
        lemma_sort_by_hash_contains(pre, y);
        let j = choose|j: int| 0 <= j < pre.len() && pre[j] == y;
        assert(is_canonical_relation(pre[j], RelationId(kept[j] as u32), eqs[kept[j]]));
        assert(ids_of(kept)[j] == x);
    }
    if ids_of(kept).contains(x) {
        let j = choose|j: int| 0 <= j < ids_of(kept).len() && ids_of(kept)[j] == x;
        let y = pre[j];
        assert(is_canonical_relation(pre[j], RelationId(kept[j] as u32), eqs[kept[j]]));
        assert(pre.contains(y));
        lemma_sort_by_hash_contains(pre, y);
        let k = choose|k: int| 0 <= k < relations.len() && relations[k] == y;
        assert(order[k] == x);
    }
}

/// Each sorted relation re-canonicalized under its position as id.
fn renumber_relations(
    sorted: Vec<CanonicalRelationQ>,
    Ghost(pre): Ghost<Seq<CanonicalRelationQ>>,
    Ghost(eqs): Ghost<Seq<SparsePolynomialQ>>,
) -> (out: Vec<CanonicalRelationQ>)
    requires
        sorted@ == sort_by_hash(pre),
        is_kept_relations(pre, eqs),
    ensures
        relations_follow(out@, sorted@, true),
{
    let ghost sv = sorted@;
    let total = sorted.len();
    assert(sv.len() == total);
    let mut src = sorted;
    let mut out: Vec<CanonicalRelationQ> = Vec::new();
    let mut k: usize = 0;
    assert(sv.skip(0) == sv);
    while src.len() > 0
        invariant
            k <= sv.len(),
            src@ == sv.skip(k as int),
            sv == sort_by_hash(pre),
            sv.len() == total,
            is_kept_relations(pre, eqs),
            out@.len() == k,
            forall|q: int| 0 <= q < k ==> is_canonical_relation(#[trigger] out@[q], RelationId(q as u32), sv[q].polynomial),
        decreases src@.len(),
    {
        proof {
            assert(sv.skip(k as int)[0] == sv[k as int]);
            assert(sv.skip(k as int).remove(0) == sv.skip(k + 1));
            let y = sv[k as int];
            assert(sv.contains(y));
            lemma_sort_by_hash_contains(pre, y);
            let j = choose|j: int| 0 <= j < pre.len() && pre[j] == y;
            assert(is_canonical_relation(pre[j], RelationId(kept_indices(eqs)[j] as u32), eqs[kept_indices(eqs)[j]]));
            lemma_normalization_well_formed(y.polynomial.terms@, cleared_view(terms_view(eqs[kept_indices(eqs)[j]].terms@)));
        }
        let r = src.remove(0);
        #[verifier::truncate]
        let id = RelationId(k as u32);
        let c = canonicalize_relation(id, r.polynomial);
        out.push(c);
        k = k + 1;
    }
    out
}

proof fn lemma_lex_le_trans(a: Seq<u8>, b: Seq<u8>, c: Seq<u8>)
    requires
        lex_order(a, b) <= 0,
        lex_order(b, c) <= 0,
    ensures
        lex_order(a, c) <= 0,
{
    if lex_order(a, b) == 0 {
        hash::lemma_lex_zero(a, b);
    } else if lex_order(b, c) == 0 {
        hash::lemma_lex_zero(b, c);
    } else {
        hash::lemma_lex_trans(a, b, c);
    }
}

pub open spec fn sorted_by_hash(s: Seq<CanonicalRelationQ>) -> bool {
    forall|i: int, j: int| 0 <= i < j < s.len() ==> lex_order(relation_key(#[trigger] s[i]), relation_key(#[trigger] s[j])) <= 0
}

proof fn lemma_insert_by_hash_sorted(s: Seq<CanonicalRelationQ>, x: CanonicalRelationQ)
    requires
        sorted_by_hash(s),
    ensures
        sorted_by_hash(insert_by_hash(s, x)),
        forall|i: int| 0 <= i < insert_by_hash(s, x).len() ==> (#[trigger] insert_by_hash(s, x)[i] == x || s.contains(insert_by_hash(s, x)[i])),
    decreases s.len(),
{
    let r = insert_by_hash(s, x);
    if s.len() == 0 {
    } else if lex_order(relation_key(s[0]), relation_key(x)) > 0 {
        assert(r == seq![x] + s);
        hash::lemma_lex_antisym(relation_key(s[0]), relation_key(x));
        assert forall|i: int, j: int| 0 <= i < j < r.len() implies lex_order(relation_key(#[trigger] r[i]), relation_key(#[trigger] r[j])) <= 0 by {
            if i == 0 {
                assert(r[j] == s[j - 1]);
                if j - 1 > 0 {
                    lemma_lex_le_trans(relation_key(x), relation_key(s[0]), relation_key(s[j - 1]));
                }
            } else {
                assert(r[i] == s[i - 1] && r[j] == s[j - 1]);
            }
        }
        assert forall|i: int| 0 <= i < r.len() implies (#[trigger] r[i] == x || s.contains(r[i])) by {
            if i > 0 {
                assert(r[i] == s[i - 1]);
            }
        }
    } else {
        let t = s.drop_first();
        assert(sorted_by_hash(t)) by {
            assert forall|i: int, j: int| 0 <= i < j < t.len() implies lex_order(relation_key(#[trigger] t[i]), relation_key(#[trigger] t[j])) <= 0 by {
                assert(t[i] == s[i + 1] && t[j] == s[j + 1]);
            }
        }
        lemma_insert_by_hash_sorted(t, x);
        let u = insert_by_hash(t, x);
        assert(r == seq![s[0]] + u);
        assert forall|i: int| 0 <= i < r.len() implies (#[trigger] r[i] == x || s.contains(r[i])) by {
            if i > 0 {
                assert(r[i] == u[i - 1]);
                if u[i - 1] != x {
                    assert(t.contains(u[i - 1]));
                    let k = choose|k: int| 0 <= k < t.len() && t[k] == u[i - 1];
                    assert(s[k + 1] == u[i - 1]);
                }
            } else {
                assert(s[0] == r[0]);
            }
        }
        assert forall|i: int, j: int| 0 <= i < j < r.len() implies lex_order(relation_key(#[trigger] r[i]), relation_key(#[trigger] r[j])) <= 0 by {
            if i == 0 {
                assert(r[j] == u[j - 1]);
                if u[j - 1] == x {
                } else {
                    assert(t.contains(u[j - 1]));
                    let k = choose|k: int| 0 <= k < t.len() && t[k] == u[j - 1];
                    assert(s[k + 1] == u[j - 1]);
                }
            } else {
                assert(r[i] == u[i - 1] && r[j] == u[j - 1]);
            }
        }
    }
}

/// Relations come out of the content sort in non-decreasing order of their polynomial
/// digests, whatever order the equations were given in.
pub proof fn lemma_sort_by_hash_sorted(s: Seq<CanonicalRelationQ>)
    ensures
        sorted_by_hash(sort_by_hash(s)),
    decreases s.len(),
{
    if s.len() > 0 {
        lemma_sort_by_hash_sorted(s.drop_last());
        lemma_insert_by_hash_sorted(sort_by_hash(s.drop_last()), s.last());
    }
}

} // verus!
