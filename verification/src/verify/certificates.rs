//! Digests that bind target relation search certificates to their variables, supports,
//! multipliers and source relations.
use vstd::prelude::*;
use vstd::string::StringSliceAdditionalSpecFns;

use crate::planner::algebraic_cost::SaturatingCount;
use crate::planner::cost_model::RouteCostClass;
use crate::planner::kernel_plan::UniversalStrategy;
use crate::types::chunks::{hash_chunks, push_chunk, push_hash_chunks, push_variable_chunks, variable_chunks};
use crate::types::hash::{self, chunk_views, hash_sequence, hash_to_vec, spec_hash_sequence};
use crate::types::ids::VariableId;
use crate::types::monomial::{monomial_to_bytes, spec_monomial_bytes, Monomial};
use crate::types::polynomial::SparsePolynomialQ;

verus! {

/// One universal strategy of a trace: whether it ran, why not, and its cost figures.
#[derive(Debug, Clone, PartialEq, Eq)]
pub struct UniversalStrategyTraceRecord {
    pub strategy: UniversalStrategy,
    pub stage_hash: hash::Hash,
    pub enabled: bool,
    pub skip_reason: Option<String>,
    pub cost_class: RouteCostClass,
    pub algebraic_work_estimate_hash: hash::Hash,
    pub route_budget_hash: hash::Hash,
    pub predicted_work_units: SaturatingCount,
    pub route_budget_max_work_units: SaturatingCount,
    pub route_budget_max_elapsed_steps: usize,
}

/// The digest of a variable list under `tag`: one four-byte chunk per variable.
pub fn target_relation_variable_hash(tag: &str, variables: &[VariableId]) -> (h: hash::Hash)
    ensures
        h.0@ == spec_hash_sequence(tag.spec_bytes(), variable_chunks(variables@)),
{
    let mut chunks: Vec<Vec<u8>> = Vec::new();
    push_variable_chunks(&mut chunks, variables);
    assert(chunk_views(chunks@) =~= Seq::<Seq<u8>>::empty() + variable_chunks(variables@));
    hash_sequence(tag, chunks.as_slice())
}

/// The digest of a digest list under `tag`: one chunk per digest.
pub fn target_relation_hash_list(tag: &str, hashes: &[hash::Hash]) -> (h: hash::Hash)
    ensures
        h.0@ == spec_hash_sequence(tag.spec_bytes(), hash_chunks(hashes@)),
{
    let mut chunks: Vec<Vec<u8>> = Vec::new();
    push_hash_chunks(&mut chunks, hashes);
    assert(chunk_views(chunks@) =~= Seq::<Seq<u8>>::empty() + hash_chunks(hashes@));
    hash_sequence(tag, chunks.as_slice())
}

pub open spec fn monomial_chunks(ms: Seq<Monomial>) -> Seq<Seq<u8>> {
    ms.map_values(|m: Monomial| spec_monomial_bytes(m))
}

/// The digest of a monomial support under `tag`: one chunk per monomial's bytes.
pub fn target_relation_monomial_support_hash(tag: &str, monomials: &[Monomial]) -> (h: hash::Hash)
    ensures
        h.0@ == spec_hash_sequence(tag.spec_bytes(), monomial_chunks(monomials@)),
{
    let mut chunks: Vec<Vec<u8>> = Vec::new();
    let n = monomials.len();
    for i in 0..n
        invariant
            n == monomials@.len(),
            chunk_views(chunks@) == monomial_chunks(monomials@.take(i as int)),
    {
        push_chunk(&mut chunks, monomial_to_bytes(&monomials[i]));
        assert(monomial_chunks(monomials@.take(i + 1)) =~= monomial_chunks(monomials@.take(i as int)).push(
            spec_monomial_bytes(monomials@[i as int]),
        ));
    }
    assert(monomials@.take(n as int) == monomials@);
    hash_sequence(tag, chunks.as_slice())
}

/// The digests of a polynomial list, in order.
pub open spec fn poly_hashes(ps: Seq<SparsePolynomialQ>) -> Seq<hash::Hash> {
    ps.map_values(|p: SparsePolynomialQ| p.hash)
}

fn collect_poly_hashes(ps: &[SparsePolynomialQ]) -> (out: Vec<hash::Hash>)
    ensures
        out@ == poly_hashes(ps@),
{
    let mut out: Vec<hash::Hash> = Vec::new();
    let n = ps.len();
    for i in 0..n
        invariant
            n == ps@.len(),
            out@ == poly_hashes(ps@.take(i as int)),
    {
        out.push(ps[i].hash);
        assert(poly_hashes(ps@.take(i + 1)) =~= poly_hashes(ps@.take(i as int)).push(ps@[i as int].hash));
    }
    assert(ps@.take(n as int) == ps@);
    out
}

pub open spec fn spec_multipliers_hash(multipliers: Seq<SparsePolynomialQ>) -> Seq<u8> {
    spec_hash_sequence(
        "target-relation-search-multiplier-hashes".spec_bytes(),
        hash_chunks(poly_hashes(multipliers)),
    )
}

/// The digest of a multiplier list: its polynomials' digests.
pub fn target_relation_multipliers_hash(multipliers: &[SparsePolynomialQ]) -> (h: hash::Hash)
    ensures
        h.0@ == spec_multipliers_hash(multipliers@),
{
    let hashes = collect_poly_hashes(multipliers);
    target_relation_hash_list("target-relation-search-multiplier-hashes", hashes.as_slice())
}

pub open spec fn spec_exact_identity_hash(
    relation: SparsePolynomialQ,
    multipliers: Seq<SparsePolynomialQ>,
    sources: Seq<SparsePolynomialQ>,
) -> Seq<u8> {
    spec_hash_sequence(
        "target-relation-search-exact-q-identity".spec_bytes(),
        seq![
            relation.hash.0@,
            spec_multipliers_hash(multipliers),
            spec_hash_sequence(
                "target-relation-search-source-relation-hashes".spec_bytes(),
                hash_chunks(poly_hashes(sources)),
            ),
        ],
    )
}

/// The digest binding a relation to the multipliers and source relations of its identity.
pub fn target_relation_exact_identity_hash(
    relation: &SparsePolynomialQ,
    multipliers: &[SparsePolynomialQ],
    source_relations: &[SparsePolynomialQ],
) -> (h: hash::Hash)
    ensures
        h.0@ == spec_exact_identity_hash(*relation, multipliers@, source_relations@),
{
    let multiplier_hash = target_relation_multipliers_hash(multipliers);
    let sources = collect_poly_hashes(source_relations);
    let source_hash = target_relation_hash_list(
        "target-relation-search-source-relation-hashes",
        sources.as_slice(),
    );
    let mut chunks: Vec<Vec<u8>> = Vec::new();
    push_chunk(&mut chunks, hash_to_vec(&relation.hash));
    push_chunk(&mut chunks, hash_to_vec(&multiplier_hash));
    push_chunk(&mut chunks, hash_to_vec(&source_hash));
    assert(chunk_views(chunks@) =~= seq![
        relation.hash.0@,
        spec_multipliers_hash(multipliers@),
        spec_hash_sequence(
            "target-relation-search-source-relation-hashes".spec_bytes(),
            hash_chunks(poly_hashes(source_relations@)),
        ),
    ]);
    hash_sequence("target-relation-search-exact-q-identity", chunks.as_slice())
}

} // verus!
