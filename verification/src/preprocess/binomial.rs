//! Binomial relations and the removal of relations that are scaled copies of one another.
use vstd::prelude::*;

use crate::preprocess::compression::{
    is_relation_of, relation_ids_of, relation_with_polynomial, relations_well_formed, CompressionState,
};
use crate::problem::canonicalize::CanonicalRelationQ;
use crate::problem::context::SolverContext;
use crate::problem::semantic::{encodes_relation, semantic_relations};
use crate::result::status::SolverError;
use crate::types::hash::hash_eq;
use crate::types::ids::RelationId;
use crate::types::polynomial::{
    clear_denominators_primitive, cleared_view, coeffs_well_formed, is_normal_poly, is_normalization,
    lemma_normal_poly_of, spec_hash_terms, terms_view, SparsePolynomialQ,
};

verus! {

#[derive(Debug, Clone, PartialEq, Eq)]
pub struct BinomialCandidate {
    pub source_relation_id: RelationId,
    pub relation: SparsePolynomialQ,
    pub term_count: usize,
}

/// `c` is the primitive integer form of relation `r`, which has one or two terms.
pub open spec fn is_binomial_candidate(c: BinomialCandidate, r: CanonicalRelationQ) -> bool {
    &&& c.source_relation_id == r.id
    &&& is_normalization(c.relation.terms@, cleared_view(terms_view(r.polynomial.terms@)))
    &&& c.relation.hash.0@ == spec_hash_terms(c.relation.terms@)
    &&& c.term_count == c.relation.terms@.len()
    &&& 1 <= c.term_count <= 2
}

pub open spec fn candidates_match(out: Seq<BinomialCandidate>, rs: Seq<CanonicalRelationQ>, idx: Seq<int>) -> bool {
    &&& forall|k: int| 0 <= k < idx.len() ==> 0 <= #[trigger] idx[k] < rs.len()
    &&& forall|k: int| 0 <= k < out.len() ==> is_binomial_candidate(#[trigger] out[k], rs[idx[k]])
}

proof fn lemma_candidates_push(
    out: Seq<BinomialCandidate>,
    rs: Seq<CanonicalRelationQ>,
    idx: Seq<int>,
    c: BinomialCandidate,
    i: int,
)
    requires
        candidates_match(out, rs, idx),
        idx.len() == out.len(),
        0 <= i < rs.len(),
        is_binomial_candidate(c, rs[i]),
    ensures
        candidates_match(out.push(c), rs, idx.push(i)),
{
    assert forall|k: int| 0 <= k < idx.push(i).len() implies 0 <= #[trigger] idx.push(i)[k] < rs.len() by {
        if k < idx.len() {
            assert(idx.push(i)[k] == idx[k]);
        }
    }
    assert forall|k: int| 0 <= k < out.push(c).len() implies is_binomial_candidate(#[trigger] out.push(c)[k], rs[idx.push(i)[k]]) by {
        if k < out.len() {
            assert(out.push(c)[k] == out[k]);
            assert(idx.push(i)[k] == idx[k]);
        }
    }
}

/// `out` holds, in order, the candidates of the relations at `idx`; every other relation has a
/// primitive form with no term or more than two.
pub open spec fn is_binomial_selection(out: Seq<BinomialCandidate>, rs: Seq<CanonicalRelationQ>, idx: Seq<int>) -> bool {
    &&& idx.len() == out.len()
    &&& forall|a: int, b: int| 0 <= a < b < idx.len() ==> idx[a] < idx[b]
    &&& candidates_match(out, rs, idx)
    &&& forall|i: int|
        0 <= i < rs.len() ==> (exists|k: int| 0 <= k < idx.len() && idx[k] == i) || exists|q: Seq<crate::types::polynomial::TermQ>|
            is_normalization(q, cleared_view(terms_view((#[trigger] rs[i]).polynomial.terms@))) && !(1 <= q.len() <= 2)
}

/// The relations whose primitive integer form has one or two terms, in order.
pub fn detect_binomial_relations(state: &CompressionState) -> (out: Vec<BinomialCandidate>)
    requires
        relations_well_formed(state.relations@),
    ensures
        exists|idx: Seq<int>| is_binomial_selection(out@, state.relations@, idx),
{
    let rs = &state.relations;
    let mut out: Vec<BinomialCandidate> = Vec::new();
    let ghost mut idx: Seq<int> = Seq::empty();
    let n = rs.len();
    let mut i: usize = 0;
    while i < n
        invariant
            i <= n,
            n == rs@.len(),
            relations_well_formed(rs@),
            idx.len() == out@.len(),
            forall|a: int, b: int| 0 <= a < b < idx.len() ==> idx[a] < idx[b],
            forall|k: int| 0 <= k < idx.len() ==> idx[k] < i,
            candidates_match(out@, rs@, idx),
            forall|j: int|
                0 <= j < i ==> (exists|k: int| 0 <= k < idx.len() && idx[k] == j) || exists|q: Seq<crate::types::polynomial::TermQ>|
                    is_normalization(q, cleared_view(terms_view((#[trigger] rs@[j]).polynomial.terms@))) && !(1 <= q.len() <= 2),
        decreases n - i,
    {
        let primitive = clear_denominators_primitive(&rs[i].polynomial);
        let term_count = primitive.terms.len();
        if 1 <= term_count && term_count <= 2 {
            let ghost old_out = out@;
            let ghost old_idx = idx;
            proof {
                idx = idx.push(i as int);
                assert(idx[idx.len() - 1] == i);
            }
            out.push(BinomialCandidate { source_relation_id: rs[i].id, relation: primitive, term_count });
            proof {
                lemma_candidates_push(old_out, rs@, old_idx, out@[out@.len() - 1], i as int);
                assert(out@ == old_out.push(out@[out@.len() - 1]));
                assert forall|j: int| 0 <= j <= i implies (exists|k: int| 0 <= k < idx.len() && idx[k] == j) || exists|
                    q: Seq<crate::types::polynomial::TermQ>,
                | is_normalization(q, cleared_view(terms_view((#[trigger] rs@[j]).polynomial.terms@))) && !(1 <= q.len() <= 2) by {
                    if j < i {
                        if exists|k: int| 0 <= k < old_idx.len() && old_idx[k] == j {
                            let k = choose|k: int| 0 <= k < old_idx.len() && old_idx[k] == j;
                            assert(idx[k] == j);
                        }
                    } else {
                        assert(idx[idx.len() - 1] == j);
                    }
                }
                assert(candidates_match(out@, rs@, idx));
            }
        } else {
            proof {
                assert(is_normalization(primitive.terms@, cleared_view(terms_view(rs@[i as int].polynomial.terms@))));
                assert(candidates_match(out@, rs@, idx));
            }
        }
        i += 1;
    }
    assert(is_binomial_selection(out@, state.relations@, idx));
    out
}

// ----- scaled duplicates -----

pub open spec fn same_group(a: CanonicalRelationQ, b: CanonicalRelationQ) -> bool {
    a.polynomial.hash.0@ == b.polynomial.hash.0@
}

/// Some relation with the same primitive form as relation `i` carries semantics.
pub open spec fn group_is_semantic(nrs: Seq<CanonicalRelationQ>, sem: Seq<crate::problem::semantic::RealConstraintEncoding>, i: int) -> bool {
    exists|j: int| 0 <= j < nrs.len() && same_group(#[trigger] nrs[j], nrs[i]) && encodes_relation(sem, nrs[j].id)
}

/// Relation `i` comes first in its group: smallest id, earliest among equal ids.
pub open spec fn is_group_first(nrs: Seq<CanonicalRelationQ>, i: int) -> bool {
    forall|j: int|
        0 <= j < nrs.len() && same_group(#[trigger] nrs[j], nrs[i]) ==> nrs[i].id.0 < nrs[j].id.0 || (nrs[i].id == nrs[j].id && i <= j)
}

/// Relation `i` stays: in a group where some relation carries semantics, those that carry it
/// stay; in any other group, the first stays.
pub open spec fn binomial_keeps(nrs: Seq<CanonicalRelationQ>, sem: Seq<crate::problem::semantic::RealConstraintEncoding>, i: int) -> bool {
    if group_is_semantic(nrs, sem, i) {
        encodes_relation(sem, nrs[i].id)
    } else {
        is_group_first(nrs, i)
    }
}

/// The relations among the first `n` that the simplification keeps, in order.
pub open spec fn kept_relations(nrs: Seq<CanonicalRelationQ>, sem: Seq<crate::problem::semantic::RealConstraintEncoding>, n: int) -> Seq<CanonicalRelationQ>
    decreases n,
{
    if n <= 0 {
        Seq::empty()
    } else if binomial_keeps(nrs, sem, n - 1) {
        kept_relations(nrs, sem, n - 1).push(nrs[n - 1])
    } else {
        kept_relations(nrs, sem, n - 1)
    }
}

/// `x` inserted into `s` after every relation whose id is not greater.
pub open spec fn insert_by_id(s: Seq<CanonicalRelationQ>, x: CanonicalRelationQ) -> Seq<CanonicalRelationQ>
    decreases s.len(),
{
    if s.len() == 0 {
        seq![x]
    } else if s[0].id.0 > x.id.0 {
        seq![x] + s
    } else {
        seq![s[0]] + insert_by_id(s.drop_first(), x)
    }
}

/// The stable sort of relations by id.
pub open spec fn sort_by_id(s: Seq<CanonicalRelationQ>) -> Seq<CanonicalRelationQ>
    decreases s.len(),
{
    if s.len() == 0 {
        s
    } else {
        insert_by_id(sort_by_id(s.drop_last()), s.last())
    }
}

proof fn lemma_insert_by_id_at(s: Seq<CanonicalRelationQ>, x: CanonicalRelationQ, i: int)
    requires
        0 <= i <= s.len(),
        forall|j: int| 0 <= j < i ==> (#[trigger] s[j]).id.0 <= x.id.0,
        i < s.len() ==> s[i].id.0 > x.id.0,
    ensures
        insert_by_id(s, x) == s.take(i).push(x) + s.skip(i),
    decreases i,
{
    if i == 0 {
        assert(s.take(0).push(x) + s.skip(0) =~= seq![x] + s);
    } else {
        let t = s.drop_first();
        assert forall|j: int| 0 <= j < i - 1 implies (#[trigger] t[j]).id.0 <= x.id.0 by {
            assert(t[j] == s[j + 1]);
        }
        if i - 1 < t.len() {
            assert(t[i - 1] == s[i]);
        }
        lemma_insert_by_id_at(t, x, i - 1);
        assert(seq![s[0]] + (t.take(i - 1).push(x) + t.skip(i - 1)) =~= s.take(i).push(x) + s.skip(i));
    }
}

/// `nr` is relation `r` rewritten over the primitive integer form of its polynomial.
pub open spec fn is_primitive_relation(nr: CanonicalRelationQ, r: CanonicalRelationQ) -> bool {
    exists|q: SparsePolynomialQ|
        is_normalization(q.terms@, cleared_view(terms_view(r.polynomial.terms@))) && q.hash.0@ == spec_hash_terms(q.terms@)
            && is_relation_of(nr, r.id, q, r.source)
}

fn contains_relation(ids: &Vec<RelationId>, r: RelationId) -> (b: bool)
    ensures
        b == ids@.contains(r),
{
    for i in 0..ids.len()
        invariant
            forall|k: int| 0 <= k < i ==> ids@[k] != r,
    {
        if ids[i] == r {
            return true;
        }
    }
    false
}

/// Relations with equal primitive forms are duplicates: when some of them carry semantics,
/// exactly those stay, otherwise the one with the smallest id stays. The result is sorted by id.
pub fn simplify_binomial_relations(state: CompressionState, ctx: &mut SolverContext) -> (r: Result<CompressionState, SolverError>)
    requires
        relations_well_formed(state.relations@),
    ensures
        *final(ctx) == *old(ctx),
        r is Ok,
        r matches Ok(s) ==> exists|nrs: Seq<CanonicalRelationQ>|
            nrs.len() == state.relations@.len() && (forall|i: int| 0 <= i < nrs.len() ==> is_primitive_relation(#[trigger] nrs[i], state.relations@[i]))
                && s.relations@ == sort_by_id(kept_relations(nrs, state.semantic_encodings@, nrs.len() as int)),
        r matches Ok(s) ==> relations_well_formed(s.relations@) && s.relation_order@ == relation_ids_of(s.relations@),
        r matches Ok(s) ==> s.variables == state.variables && s.target == state.target && s.semantic_encodings == state.semantic_encodings
            && s.substitutions == state.substitutions && s.guards == state.guards && s.saturations == state.saturations
            && s.feasibility_obligations == state.feasibility_obligations && s.trace == state.trace,
{
    let mut state = state;
    let semantic_ids = semantic_relations(state.semantic_encodings.as_slice());
    let ghost sem = state.semantic_encodings@;
    let n = state.relations.len();
    let mut normalized: Vec<CanonicalRelationQ> = Vec::new();
    for i in 0..n
        invariant
            n == state.relations@.len(),
            relations_well_formed(state.relations@),
            normalized@.len() == i,
            forall|k: int| 0 <= k < i ==> is_primitive_relation(#[trigger] normalized@[k], state.relations@[k]),
            forall|k: int| 0 <= k < i ==> is_normal_poly(#[trigger] normalized@[k].polynomial),
    {
        let relation = &state.relations[i];
        let primitive = clear_denominators_primitive(&relation.polynomial);
        proof {
            lemma_normal_poly_of(primitive, cleared_view(terms_view(relation.polynomial.terms@)));
        }
        let nr = relation_with_polynomial(relation.id, primitive, relation.source);
        proof {
            lemma_normal_poly_of(nr.polynomial, cleared_view(terms_view(primitive.terms@)));
            assert(is_primitive_relation(nr, state.relations@[i as int]));
        }
        normalized.push(nr);
    }
    let ghost nrs = normalized@;
    let mut kept: Vec<CanonicalRelationQ> = Vec::new();
    let mut rest = normalized;
    let mut flags: Vec<bool> = Vec::new();
    for i in 0..n
        invariant
            n == nrs.len(),
            rest@ == nrs,
            flags@.len() == i,
            forall|k: int| 0 <= k < i ==> flags@[k] == binomial_keeps(nrs, sem, k),
            forall|r: RelationId| #[trigger] semantic_ids@.contains(r) <==> encodes_relation(sem, r),
    {
        let mut semantic = false;
        let mut first = true;
        for j in 0..n
            invariant
                n == nrs.len(),
                rest@ == nrs,
                0 <= i < n,
                forall|r: RelationId| #[trigger] semantic_ids@.contains(r) <==> encodes_relation(sem, r),
                semantic <==> exists|q: int| 0 <= q < j && same_group(#[trigger] nrs[q], nrs[i as int]) && encodes_relation(sem, nrs[q].id),
                first <==> forall|q: int|
                    0 <= q < j && same_group(#[trigger] nrs[q], nrs[i as int]) ==> nrs[i as int].id.0 < nrs[q].id.0 || (nrs[i as int].id == nrs[q].id && i <= q),
        {
            if hash_eq(&rest[j].polynomial.hash, &rest[i].polynomial.hash) {
                if contains_relation(&semantic_ids, rest[j].id) {
                    semantic = true;
                }
                let lower = rest[j].id.0 < rest[i].id.0 || (rest[j].id.0 == rest[i].id.0 && j < i);
                if lower {
                    first = false;
                }
            }
        }
        let keep = if semantic {
            contains_relation(&semantic_ids, rest[i].id)
        } else {
            first
        };
        flags.push(keep);
    }
    let mut kept: Vec<CanonicalRelationQ> = Vec::new();
    for i in 0..n
        invariant
            n == nrs.len(),
            flags@.len() == n,
            forall|k: int| 0 <= k < n ==> flags@[k] == binomial_keeps(nrs, sem, k),
            rest@ == nrs.skip(i as int),
            kept@ == kept_relations(nrs, sem, i as int),
            forall|k: int| 0 <= k < nrs.len() ==> is_normal_poly(#[trigger] nrs[k].polynomial),
            forall|k: int| 0 <= k < kept@.len() ==> is_normal_poly(#[trigger] kept@[k].polynomial),
    {
        let x = rest.remove(0);
        proof {
            assert(x == nrs[i as int]);
            assert(nrs.skip(i as int).drop_first() == nrs.skip(i + 1));
        }
        if flags[i] {
            kept.push(x);
        }
    }
    let ghost all_kept = kept@;
    let mut sorted: Vec<CanonicalRelationQ> = Vec::new();
    let m = kept.len();
    for i in 0..m
        invariant
            m == all_kept.len(),
            kept@ == all_kept.skip(i as int),
            sorted@ == sort_by_id(all_kept.take(i as int)),
            forall|k: int| 0 <= k < all_kept.len() ==> is_normal_poly(#[trigger] all_kept[k].polynomial),
            forall|k: int| 0 <= k < sorted@.len() ==> is_normal_poly(#[trigger] sorted@[k].polynomial),
    {
        let x = kept.remove(0);
        proof {
            assert(x == all_kept[i as int]);
            assert(all_kept.skip(i as int).drop_first() == all_kept.skip(i + 1));
        }
        let mut p: usize = 0;
        while p < sorted.len() && sorted[p].id.0 <= x.id.0
            invariant
                p <= sorted@.len(),
                forall|j: int| 0 <= j < p ==> (#[trigger] sorted@[j]).id.0 <= x.id.0,
            decreases sorted@.len() - p,
        {
            p += 1;
        }
        proof {
            lemma_insert_by_id_at(sorted@, x, p as int);
            assert(all_kept.take(i + 1).drop_last() == all_kept.take(i as int));
        }
        let ghost old_sorted = sorted@;
        sorted.insert(p, x);
        proof {
            assert(sorted@ =~= old_sorted.take(p as int).push(x) + old_sorted.skip(p as int));
            assert forall|k: int| 0 <= k < sorted@.len() implies is_normal_poly(#[trigger] sorted@[k].polynomial) by {
                if k < p {
                    assert(sorted@[k] == old_sorted[k]);
                } else if k > p {
                    assert(sorted@[k] == old_sorted[k - 1]);
                }
            }
        }
    }
    proof {
        assert(all_kept.take(m as int) == all_kept);
        assert forall|k: int| 0 <= k < sorted@.len() implies coeffs_well_formed(terms_view((#[trigger] sorted@[k]).polynomial.terms@)) by {
            crate::types::polynomial::lemma_normal_poly_well_formed(sorted@[k].polynomial);
        }
    }
    state.replace_relations(sorted);
    Ok(state)
}

} // verus!
