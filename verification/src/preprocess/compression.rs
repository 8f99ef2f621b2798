//! Records of pre-kernel compression: the steps taken, substitutions, guards, saturations,
//! and the connected components of the relation graph with their feasibility obligations.
use vstd::prelude::*;
use vstd::string::StringSliceAdditionalSpecFns;

use crate::types::bytes::{be_bytes, usize_be};
use crate::problem::canonicalize::{
    canonical_variable_order, is_canonical_order, spec_relation_hash, without_variable, CanonicalRelationQ, CanonicalSystemQ,
    RelationSource,
};
use crate::problem::semantic::RealConstraintEncoding;
use crate::result::diagnostics::DiagnosticRecord;
use crate::types::chunks::{
    hash_chunks, push_chunk, push_hash_chunks, push_relation_chunks, push_variable_chunks, relation_chunks, variable_chunks,
};
use crate::types::hash::{self, chunk_views, hash_sequence, hash_to_vec, spec_hash_sequence};
use crate::types::ids::{RelationId, VariableId};
use crate::types::bytes::u32_be;
use crate::types::polynomial::{
    clear_denominators_primitive, cleared_view, coeffs_well_formed, copy_poly, is_normal_poly, is_normalization,
    lemma_normal_poly_of, lemma_normal_poly_well_formed, poly_view, spec_hash_terms, substitute_poly, terms_view,
    SparsePolynomialQ, SubstitutionMap,
};

verus! {

#[derive(Debug, Clone, PartialEq, Eq)]
pub struct CompressionTrace {
    pub step_count: usize,
    pub ordered_steps: Vec<CompressionStepKind>,
    pub substitution_count: usize,
    pub guarded_rational_affine_pivot_count: usize,
    pub guard_count: usize,
    pub saturation_count: usize,
    pub target_independent_component_count: usize,
    pub monomial_count_before: usize,
    pub monomial_count_after: usize,
    pub coefficient_height_before_bits: usize,
    pub coefficient_height_after_bits: usize,
    pub trace_hash: hash::Hash,
}

impl Default for CompressionTrace {
    /// An empty trace: no steps, all counts zero, the digest of the empty chunk list.
    fn default() -> (t: Self)
        ensures
            t.step_count == 0,
            t.ordered_steps@.len() == 0,
            t.substitution_count == 0,
            t.guarded_rational_affine_pivot_count == 0,
            t.guard_count == 0,
            t.saturation_count == 0,
            t.target_independent_component_count == 0,
            t.monomial_count_before == 0,
            t.monomial_count_after == 0,
            t.coefficient_height_before_bits == 0,
            t.coefficient_height_after_bits == 0,
            t.trace_hash.0@ == spec_hash_sequence("compression-trace".spec_bytes(), Seq::empty()),
    {
        let empty: Vec<Vec<u8>> = Vec::new();
        assert(chunk_views(empty@) =~= Seq::<Seq<u8>>::empty());
        CompressionTrace {
            step_count: 0,
            ordered_steps: Vec::new(),
            substitution_count: 0,
            guarded_rational_affine_pivot_count: 0,
            guard_count: 0,
            saturation_count: 0,
            target_independent_component_count: 0,
            monomial_count_before: 0,
            monomial_count_after: 0,
            coefficient_height_before_bits: 0,
            coefficient_height_after_bits: 0,
            trace_hash: hash_sequence("compression-trace", empty.as_slice()),
        }
    }
}

impl CompressionTrace {
    /// Appends a step and keeps the step count equal to the number of steps.
    pub fn record_step(&mut self, step: CompressionStepKind)
        ensures
            final(self).ordered_steps@ == old(self).ordered_steps@.push(step),
            final(self).step_count == final(self).ordered_steps@.len(),
            final(self).substitution_count == old(self).substitution_count,
            final(self).guard_count == old(self).guard_count,
            final(self).saturation_count == old(self).saturation_count,
            final(self).trace_hash == old(self).trace_hash,
    {
        self.ordered_steps.push(step);
        self.step_count = self.ordered_steps.len();
    }
}

#[derive(Debug, Clone, Copy, PartialEq, Eq, Structural)]
pub enum CompressionStepKind {
    DefinitionalElimination,
    LinearAffineElimination,
    BinomialSimplification,
    ExplicitSaturation,
    TargetIndependentComponentMarking,
}

#[derive(Debug, Clone, Copy, PartialEq, Eq, Structural)]
pub enum SubstitutionKind {
    Definitional,
    LinearAffineConstantPivot,
    LinearAffineGuardedPivot,
    Binomial,
}

#[derive(Debug, Clone, Copy, PartialEq, Eq, Structural)]
pub enum GuardKind {
    ConstantNonZeroPivot,
    ExplicitNonZeroWitness,
    AffineDenominator,
}

/// The variant's position, which is its byte in guard digests.
pub open spec fn guard_kind_index(k: GuardKind) -> u8 {
    match k {
        GuardKind::ConstantNonZeroPivot => 0,
        GuardKind::ExplicitNonZeroWitness => 1,
        GuardKind::AffineDenominator => 2,
    }
}

fn guard_kind_byte(k: GuardKind) -> (b: u8)
    ensures
        b == guard_kind_index(k),
{
    match k {
        GuardKind::ConstantNonZeroPivot => 0,
        GuardKind::ExplicitNonZeroWitness => 1,
        GuardKind::AffineDenominator => 2,
    }
}

#[derive(Debug, Clone, PartialEq, Eq)]
pub struct GuardRecord {
    pub factor: SparsePolynomialQ,
    pub source_relation_ids: Vec<RelationId>,
    pub guard_kind: GuardKind,
    pub guard_hash: hash::Hash,
}

#[derive(Debug, Clone, PartialEq, Eq)]
pub struct SaturationRecord {
    pub factor: SparsePolynomialQ,
    pub witness_relation_id: RelationId,
    pub slack_variable: VariableId,
    pub saturation_hash: hash::Hash,
}

/// A connected component of the relation graph (relations linked by shared variables).
#[derive(Debug, Clone, PartialEq, Eq)]
pub struct Component {
    pub component_id: usize,
    pub relation_ids: Vec<RelationId>,
    pub variables: Vec<VariableId>,
    pub contains_target: bool,
    pub component_hash: hash::Hash,
}

/// A component without the target: its relations must be feasible, but it cannot constrain
/// the target.
#[derive(Debug, Clone, PartialEq, Eq)]
pub struct FeasibilityObligation {
    pub component_id: usize,
    pub relation_ids: Vec<RelationId>,
    pub variables: Vec<VariableId>,
    pub obligation_hash: hash::Hash,
}

fn single_byte(b: u8) -> (v: Vec<u8>)
    ensures
        v@ == seq![b],
{
    let mut v: Vec<u8> = Vec::new();
    v.push(b);
    v
}

pub open spec fn spec_component_hash(
    component_id: usize,
    relation_ids: Seq<RelationId>,
    variables: Seq<VariableId>,
    contains_target: bool,
) -> Seq<u8> {
    spec_hash_sequence(
        "compression-component".spec_bytes(),
        seq![be_bytes(component_id as nat, 8), seq![if contains_target { 1u8 } else { 0u8 }]]
            + relation_chunks(relation_ids) + variable_chunks(variables),
    )
}

/// The digest of a component: its id, whether it holds the target, its relations and variables.
pub fn component_hash(
    component_id: usize,
    relation_ids: &[RelationId],
    variables: &[VariableId],
    contains_target: bool,
) -> (h: hash::Hash)
    ensures
        h.0@ == spec_component_hash(component_id, relation_ids@, variables@, contains_target),
{
    let mut chunks: Vec<Vec<u8>> = Vec::new();
    push_chunk(&mut chunks, usize_be(component_id));
    push_chunk(&mut chunks, single_byte(if contains_target {
        1u8
    } else {
        0u8
    }));
    push_relation_chunks(&mut chunks, relation_ids);
    push_variable_chunks(&mut chunks, variables);
    assert(chunk_views(chunks@) =~= seq![
        be_bytes(component_id as nat, 8),
        seq![if contains_target { 1u8 } else { 0u8 }],
    ] + relation_chunks(relation_ids@) + variable_chunks(variables@));
    hash_sequence("compression-component", chunks.as_slice())
}

pub open spec fn spec_obligation_hash(
    component_id: usize,
    relation_ids: Seq<RelationId>,
    variables: Seq<VariableId>,
) -> Seq<u8> {
    spec_hash_sequence(
        "feasibility-obligation".spec_bytes(),
        seq![be_bytes(component_id as nat, 8)] + relation_chunks(relation_ids) + variable_chunks(variables),
    )
}

/// The digest of a feasibility obligation: the component id, its relations and variables.
pub fn obligation_hash(component_id: usize, relation_ids: &[RelationId], variables: &[VariableId]) -> (h: hash::Hash)
    ensures
        h.0@ == spec_obligation_hash(component_id, relation_ids@, variables@),
{
    let mut chunks: Vec<Vec<u8>> = Vec::new();
    push_chunk(&mut chunks, usize_be(component_id));
    push_relation_chunks(&mut chunks, relation_ids);
    push_variable_chunks(&mut chunks, variables);
    assert(chunk_views(chunks@) =~= seq![be_bytes(component_id as nat, 8)] + relation_chunks(relation_ids@)
        + variable_chunks(variables@));
    hash_sequence("feasibility-obligation", chunks.as_slice())
}

pub open spec fn spec_guard_hash(factor: SparsePolynomialQ, sources: Seq<RelationId>, kind: GuardKind) -> Seq<u8> {
    spec_hash_sequence(
        "compression-guard".spec_bytes(),
        seq![seq![guard_kind_index(kind)], factor.hash.0@] + relation_chunks(sources),
    )
}

/// The digest of a guard: its kind, its factor's digest and the relations it came from.
pub fn hash_guard(factor: &SparsePolynomialQ, source_relation_ids: &[RelationId], guard_kind: GuardKind) -> (h: hash::Hash)
    ensures
        h.0@ == spec_guard_hash(*factor, source_relation_ids@, guard_kind),
{
    let mut chunks: Vec<Vec<u8>> = Vec::new();
    push_chunk(&mut chunks, single_byte(guard_kind_byte(guard_kind)));
    push_chunk(&mut chunks, hash_to_vec(&factor.hash));
    push_relation_chunks(&mut chunks, source_relation_ids);
    assert(chunk_views(chunks@) =~= seq![seq![guard_kind_index(guard_kind)], factor.hash.0@] + relation_chunks(
        source_relation_ids@,
    ));
    hash_sequence("compression-guard", chunks.as_slice())
}

pub open spec fn spec_saturation_hash(factor: SparsePolynomialQ, witness: RelationId, slack: VariableId) -> Seq<u8> {
    spec_hash_sequence(
        "compression-saturation".spec_bytes(),
        seq![factor.hash.0@, be_bytes(witness.0 as nat, 4), be_bytes(slack.0 as nat, 4)],
    )
}

/// The digest of a saturation: its factor, witness relation and slack variable.
pub fn hash_saturation(factor: &SparsePolynomialQ, witness_relation_id: RelationId, slack_variable: VariableId) -> (h: hash::Hash)
    ensures
        h.0@ == spec_saturation_hash(*factor, witness_relation_id, slack_variable),
{
    let mut chunks: Vec<Vec<u8>> = Vec::new();
    push_chunk(&mut chunks, hash_to_vec(&factor.hash));
    push_chunk(&mut chunks, crate::types::bytes::u32_be(witness_relation_id.0));
    push_chunk(&mut chunks, crate::types::bytes::u32_be(slack_variable.0));
    assert(chunk_views(chunks@) =~= seq![
        factor.hash.0@,
        be_bytes(witness_relation_id.0 as nat, 4),
        be_bytes(slack_variable.0 as nat, 4),
    ]);
    hash_sequence("compression-saturation", chunks.as_slice())
}

// ----- the compression state -----

#[derive(Debug, Clone, PartialEq, Eq)]
pub struct RationalExpressionQ {
    pub numerator: SparsePolynomialQ,
    pub denominator: SparsePolynomialQ,
    pub denominator_guard: GuardRecord,
    pub source_witness_relation_ids: Vec<RelationId>,
    pub expression_hash: hash::Hash,
}

#[derive(Debug, Clone, PartialEq, Eq)]
pub enum CompressionExpression {
    Polynomial(SparsePolynomialQ),
    Rational(RationalExpressionQ),
}

#[derive(Debug, Clone, PartialEq, Eq)]
pub struct CompressionSubstitution {
    pub eliminated_variable: VariableId,
    pub expression: CompressionExpression,
    pub denominator_guard: Option<SparsePolynomialQ>,
    pub source_relation_id: RelationId,
    pub kind: SubstitutionKind,
    pub substitution_hash: hash::Hash,
}

#[derive(Debug, Clone, PartialEq, Eq)]
pub struct RationalAffineTransformationCertificate {
    pub original_relation_id: RelationId,
    pub transformed_relation_id: RelationId,
    pub pivot_relation_id: RelationId,
    pub eliminated_variable: VariableId,
    pub numerator: SparsePolynomialQ,
    pub denominator: SparsePolynomialQ,
    pub denominator_clearing_power: u32,
    pub denominator_guard: GuardRecord,
    pub source_witness_relation_ids: Vec<RelationId>,
    pub original_relation_hash: hash::Hash,
    pub transformed_relation_hash: hash::Hash,
    pub transformation_hash: hash::Hash,
}

#[derive(Debug, Clone, PartialEq, Eq)]
pub struct CompressedSystemQ {
    pub variables: Vec<VariableId>,
    pub target: VariableId,
    pub relations: Vec<CanonicalRelationQ>,
    pub relation_order: Vec<RelationId>,
    pub semantic_encodings: Vec<RealConstraintEncoding>,
    pub substitutions: Vec<CompressionSubstitution>,
    pub guards: Vec<GuardRecord>,
    pub rational_affine_transformations: Vec<RationalAffineTransformationCertificate>,
    pub saturations: Vec<SaturationRecord>,
    pub feasibility_obligations: Vec<FeasibilityObligation>,
    pub diagnostics: Vec<DiagnosticRecord>,
    pub compression_trace: CompressionTrace,
    pub compressed_hash: hash::Hash,
}

/// The system as compression rewrites it, with everything recorded along the way.
#[derive(Debug, Clone, PartialEq, Eq)]
pub struct CompressionState {
    pub variables: Vec<VariableId>,
    pub target: VariableId,
    pub relations: Vec<CanonicalRelationQ>,
    pub relation_order: Vec<RelationId>,
    pub semantic_encodings: Vec<RealConstraintEncoding>,
    pub substitutions: Vec<CompressionSubstitution>,
    pub guards: Vec<GuardRecord>,
    pub rational_affine_transformations: Vec<RationalAffineTransformationCertificate>,
    pub saturations: Vec<SaturationRecord>,
    pub target_independent_components: Vec<Component>,
    pub feasibility_obligations: Vec<FeasibilityObligation>,
    pub diagnostics: Vec<DiagnosticRecord>,
    pub trace: CompressionTrace,
    /// The next fresh relation id.
    pub next_relation_id: u32,
}

impl CompressionExpression {
    /// The digest of the polynomial, or of the rational expression.
    pub fn expression_hash(&self) -> (h: hash::Hash)
        ensures
            h == spec_expression_hash(*self),
    {
        match self {
            CompressionExpression::Polynomial(poly) => poly.hash,
            CompressionExpression::Rational(expr) => expr.expression_hash,
        }
    }
}

pub open spec fn spec_expression_hash(e: CompressionExpression) -> hash::Hash {
    match e {
        CompressionExpression::Polynomial(poly) => poly.hash,
        CompressionExpression::Rational(expr) => expr.expression_hash,
    }
}

/// The largest relation id (0 for none).
pub open spec fn max_relation_id(rs: Seq<CanonicalRelationQ>) -> u32
    decreases rs.len(),
{
    if rs.len() == 0 {
        0
    } else {
        let m = max_relation_id(rs.drop_last());
        if rs.last().id.0 > m {
            rs.last().id.0
        } else {
            m
        }
    }
}

pub open spec fn relation_ids_of(rs: Seq<CanonicalRelationQ>) -> Seq<RelationId> {
    rs.map_values(|r: CanonicalRelationQ| r.id)
}

/// Every digest of the state, in the order the state digest takes them.
pub open spec fn state_chunks(s: CompressionState) -> Seq<Seq<u8>> {
    seq![be_bytes(s.target.0 as nat, 4)] + variable_chunks(s.variables@)
        + hash_chunks(s.relations@.map_values(|r: CanonicalRelationQ| r.hash))
        + hash_chunks(s.semantic_encodings@.map_values(|e: RealConstraintEncoding| e.semantic_hash))
        + hash_chunks(s.substitutions@.map_values(|x: CompressionSubstitution| x.substitution_hash))
        + hash_chunks(s.guards@.map_values(|g: GuardRecord| g.guard_hash))
        + hash_chunks(s.rational_affine_transformations@.map_values(|t: RationalAffineTransformationCertificate| t.transformation_hash))
        + hash_chunks(s.saturations@.map_values(|x: SaturationRecord| x.saturation_hash))
        + hash_chunks(s.feasibility_obligations@.map_values(|o: FeasibilityObligation| o.obligation_hash))
}

pub open spec fn spec_state_hash(s: CompressionState, tag: Seq<u8>) -> Seq<u8> {
    spec_hash_sequence(tag, state_chunks(s))
}

fn collect_relation_hashes(rs: &Vec<CanonicalRelationQ>) -> (out: Vec<hash::Hash>)
    ensures
        out@ == rs@.map_values(|r: CanonicalRelationQ| r.hash),
{
    let mut out: Vec<hash::Hash> = Vec::new();
    for i in 0..rs.len()
        invariant
            out@ == rs@.take(i as int).map_values(|r: CanonicalRelationQ| r.hash),
    {
        out.push(rs[i].hash);
        assert(rs@.take(i + 1).map_values(|r: CanonicalRelationQ| r.hash) =~= out@);
    }
    assert(rs@.take(rs@.len() as int) == rs@);
    out
}

fn collect_relation_ids(rs: &Vec<CanonicalRelationQ>) -> (out: Vec<RelationId>)
    ensures
        out@ == relation_ids_of(rs@),
{
    let mut out: Vec<RelationId> = Vec::new();
    for i in 0..rs.len()
        invariant
            out@ == relation_ids_of(rs@.take(i as int)),
    {
        out.push(rs[i].id);
        assert(relation_ids_of(rs@.take(i + 1)) =~= out@);
    }
    assert(rs@.take(rs@.len() as int) == rs@);
    out
}

impl CompressionState {
    /// Starts compression from a canonical system: nothing recorded yet, and fresh relation
    /// ids start one past the largest id in use (saturating).
    pub fn from_system(system: CanonicalSystemQ) -> (s: Self)
        ensures
            s.variables == system.variables,
            s.target == system.target,
            s.relations == system.relations,
            s.relation_order == system.relation_order,
            s.semantic_encodings == system.semantic_encodings,
            s.diagnostics == system.diagnostics,
            s.substitutions@.len() == 0,
            s.guards@.len() == 0,
            s.rational_affine_transformations@.len() == 0,
            s.saturations@.len() == 0,
            s.target_independent_components@.len() == 0,
            s.feasibility_obligations@.len() == 0,
            s.trace.ordered_steps@.len() == 0,
            s.trace.step_count == 0,
            s.next_relation_id == if max_relation_id(system.relations@) == u32::MAX {
                u32::MAX
            } else {
                (max_relation_id(system.relations@) + 1) as u32
            },
    {
        let mut m: u32 = 0;
        let n = system.relations.len();
        for i in 0..n
            invariant
                n == system.relations@.len(),
                m == max_relation_id(system.relations@.take(i as int)),
        {
            let id = system.relations[i].id.0;
            if id > m {
                m = id;
            }
            assert(system.relations@.take(i + 1).drop_last() == system.relations@.take(i as int));
        }
        assert(system.relations@.take(n as int) == system.relations@);
        let next_relation_id = if m == u32::MAX {
            u32::MAX
        } else {
            m + 1
        };
        CompressionState {
            variables: system.variables,
            target: system.target,
            relations: system.relations,
            relation_order: system.relation_order,
            semantic_encodings: system.semantic_encodings,
            substitutions: Vec::new(),
            guards: Vec::new(),
            rational_affine_transformations: Vec::new(),
            saturations: Vec::new(),
            target_independent_components: Vec::new(),
            feasibility_obligations: Vec::new(),
            diagnostics: system.diagnostics,
            trace: CompressionTrace::default(),
            next_relation_id,
        }
    }

    /// Appends a step to the trace.
    pub fn record_step(&mut self, step: CompressionStepKind)
        ensures
            final(self).trace.ordered_steps@ == old(self).trace.ordered_steps@.push(step),
            final(self).trace.step_count == final(self).trace.ordered_steps@.len(),
            final(self).relations == old(self).relations,
            final(self).variables == old(self).variables,
            final(self).substitutions == old(self).substitutions,
            final(self).guards == old(self).guards,
            final(self).saturations == old(self).saturations,
    {
        self.trace.record_step(step);
    }

    /// Replaces the relations; the relation order follows them.
    pub fn replace_relations(&mut self, relations: Vec<CanonicalRelationQ>)
        ensures
            final(self).relations == relations,
            final(self).relation_order@ == relation_ids_of(relations@),
            final(self).variables == old(self).variables,
            final(self).target == old(self).target,
            final(self).substitutions == old(self).substitutions,
            final(self).guards == old(self).guards,
            final(self).saturations == old(self).saturations,
            final(self).semantic_encodings == old(self).semantic_encodings,
            final(self).feasibility_obligations == old(self).feasibility_obligations,
            final(self).trace == old(self).trace,
    {
        self.relations = relations;
        self.relation_order = collect_relation_ids(&self.relations);
    }

    /// The digest of the state under `tag`: the target, the variables, then the digests of the
    /// relations, semantic encodings, substitutions, guards, transformations, saturations and
    /// feasibility obligations.
    pub fn state_hash(&self, tag: &str) -> (h: hash::Hash)
        ensures
            h.0@ == spec_state_hash(*self, tag.spec_bytes()),
    {
        let mut chunks: Vec<Vec<u8>> = Vec::new();
        push_chunk(&mut chunks, crate::types::bytes::u32_be(self.target.0));
        push_variable_chunks(&mut chunks, self.variables.as_slice());
        let rh = collect_relation_hashes(&self.relations);
        push_hash_chunks(&mut chunks, rh.as_slice());
        let mut eh: Vec<hash::Hash> = Vec::new();
        for i in 0..self.semantic_encodings.len()
            invariant
                eh@ == self.semantic_encodings@.take(i as int).map_values(|e: RealConstraintEncoding| e.semantic_hash),
        {
            eh.push(self.semantic_encodings[i].semantic_hash);
            assert(self.semantic_encodings@.take(i + 1).map_values(|e: RealConstraintEncoding| e.semantic_hash) =~= eh@);
        }
        assert(self.semantic_encodings@.take(self.semantic_encodings@.len() as int) == self.semantic_encodings@);
        push_hash_chunks(&mut chunks, eh.as_slice());
        let mut sh: Vec<hash::Hash> = Vec::new();
        for i in 0..self.substitutions.len()
            invariant
                sh@ == self.substitutions@.take(i as int).map_values(|x: CompressionSubstitution| x.substitution_hash),
        {
            sh.push(self.substitutions[i].substitution_hash);
            assert(self.substitutions@.take(i + 1).map_values(|x: CompressionSubstitution| x.substitution_hash) =~= sh@);
        }
        assert(self.substitutions@.take(self.substitutions@.len() as int) == self.substitutions@);
        push_hash_chunks(&mut chunks, sh.as_slice());
        let mut gh: Vec<hash::Hash> = Vec::new();
        for i in 0..self.guards.len()
            invariant
                gh@ == self.guards@.take(i as int).map_values(|g: GuardRecord| g.guard_hash),
        {
            gh.push(self.guards[i].guard_hash);
            assert(self.guards@.take(i + 1).map_values(|g: GuardRecord| g.guard_hash) =~= gh@);
        }
        assert(self.guards@.take(self.guards@.len() as int) == self.guards@);
        push_hash_chunks(&mut chunks, gh.as_slice());
        let mut th: Vec<hash::Hash> = Vec::new();
        for i in 0..self.rational_affine_transformations.len()
            invariant
                th@ == self.rational_affine_transformations@.take(i as int).map_values(
                    |t: RationalAffineTransformationCertificate| t.transformation_hash,
                ),
        {
            th.push(self.rational_affine_transformations[i].transformation_hash);
            assert(self.rational_affine_transformations@.take(i + 1).map_values(
                |t: RationalAffineTransformationCertificate| t.transformation_hash,
            ) =~= th@);
        }
        assert(self.rational_affine_transformations@.take(self.rational_affine_transformations@.len() as int)
            == self.rational_affine_transformations@);
        push_hash_chunks(&mut chunks, th.as_slice());
        let mut ah: Vec<hash::Hash> = Vec::new();
        for i in 0..self.saturations.len()
            invariant
                ah@ == self.saturations@.take(i as int).map_values(|x: SaturationRecord| x.saturation_hash),
        {
            ah.push(self.saturations[i].saturation_hash);
            assert(self.saturations@.take(i + 1).map_values(|x: SaturationRecord| x.saturation_hash) =~= ah@);
        }
        assert(self.saturations@.take(self.saturations@.len() as int) == self.saturations@);
        push_hash_chunks(&mut chunks, ah.as_slice());
        let mut oh: Vec<hash::Hash> = Vec::new();
        for i in 0..self.feasibility_obligations.len()
            invariant
                oh@ == self.feasibility_obligations@.take(i as int).map_values(|o: FeasibilityObligation| o.obligation_hash),
        {
            oh.push(self.feasibility_obligations[i].obligation_hash);
            assert(self.feasibility_obligations@.take(i + 1).map_values(|o: FeasibilityObligation| o.obligation_hash) =~= oh@);
        }
        assert(self.feasibility_obligations@.take(self.feasibility_obligations@.len() as int) == self.feasibility_obligations@);
        push_hash_chunks(&mut chunks, oh.as_slice());
        assert(chunk_views(chunks@) =~= state_chunks(*self));
        hash_sequence(tag, chunks.as_slice())
    }

    /// Sets the relation order from the relations and the trace digest from the state.
    pub fn rehash(&mut self)
        ensures
            final(self).relation_order@ == relation_ids_of(old(self).relations@),
            final(self).trace.trace_hash.0@ == spec_state_hash(*old(self), "compression-trace".spec_bytes()),
            final(self).relations == old(self).relations,
            final(self).variables == old(self).variables,
            final(self).target == old(self).target,
            final(self).semantic_encodings == old(self).semantic_encodings,
            final(self).substitutions == old(self).substitutions,
            final(self).guards == old(self).guards,
            final(self).rational_affine_transformations == old(self).rational_affine_transformations,
            final(self).saturations == old(self).saturations,
            final(self).feasibility_obligations == old(self).feasibility_obligations,
            final(self).diagnostics == old(self).diagnostics,
            final(self).trace.ordered_steps == old(self).trace.ordered_steps,
            final(self).trace.step_count == old(self).trace.step_count,
    {
        self.relation_order = collect_relation_ids(&self.relations);
        let h = self.state_hash("compression-trace");
        proof {
            assert(state_chunks(*self) == state_chunks(*old(self)));
        }
        self.trace.trace_hash = h;
    }

    /// The compressed system: the state after `rehash`, digested under "compressed-system".
    pub fn to_compressed_system(self) -> (c: CompressedSystemQ)
        ensures
            c.variables == self.variables,
            c.target == self.target,
            c.relations == self.relations,
            c.relation_order@ == relation_ids_of(self.relations@),
            c.semantic_encodings == self.semantic_encodings,
            c.substitutions == self.substitutions,
            c.guards == self.guards,
            c.rational_affine_transformations == self.rational_affine_transformations,
            c.saturations == self.saturations,
            c.feasibility_obligations == self.feasibility_obligations,
            c.diagnostics == self.diagnostics,
            c.compression_trace.ordered_steps == self.trace.ordered_steps,
            c.compression_trace.trace_hash.0@ == spec_state_hash(self, "compression-trace".spec_bytes()),
            c.compressed_hash.0@ == spec_state_hash(self, "compressed-system".spec_bytes()),
    {
        let mut s = self;
        s.rehash();
        let compressed_hash = s.state_hash("compressed-system");
        proof {
            assert(state_chunks(s) == state_chunks(self));
        }
        CompressedSystemQ {
            variables: s.variables,
            target: s.target,
            relations: s.relations,
            relation_order: s.relation_order,
            semantic_encodings: s.semantic_encodings,
            substitutions: s.substitutions,
            guards: s.guards,
            rational_affine_transformations: s.rational_affine_transformations,
            saturations: s.saturations,
            feasibility_obligations: s.feasibility_obligations,
            diagnostics: s.diagnostics,
            compression_trace: s.trace,
            compressed_hash,
        }
    }
}

// ----- records of substitutions, guards and transformations -----

pub open spec fn substitution_kind_index(k: SubstitutionKind) -> u8 {
    match k {
        SubstitutionKind::Definitional => 0,
        SubstitutionKind::LinearAffineConstantPivot => 1,
        SubstitutionKind::LinearAffineGuardedPivot => 2,
        SubstitutionKind::Binomial => 3,
    }
}

fn substitution_kind_byte(k: SubstitutionKind) -> (b: u8)
    ensures
        b == substitution_kind_index(k),
{
    match k {
        SubstitutionKind::Definitional => 0,
        SubstitutionKind::LinearAffineConstantPivot => 1,
        SubstitutionKind::LinearAffineGuardedPivot => 2,
        SubstitutionKind::Binomial => 3,
    }
}

pub open spec fn spec_substitution_hash(
    eliminated_variable: VariableId,
    expression: CompressionExpression,
    denominator_guard: Option<SparsePolynomialQ>,
    source_relation_id: RelationId,
    kind: SubstitutionKind,
) -> Seq<u8> {
    let base = seq![
        be_bytes(eliminated_variable.0 as nat, 4),
        be_bytes(source_relation_id.0 as nat, 4),
        seq![substitution_kind_index(kind)],
        spec_expression_hash(expression).0@,
    ];
    spec_hash_sequence(
        "compression-substitution".spec_bytes(),
        match denominator_guard {
            Some(g) => base.push(g.hash.0@),
            None => base,
        },
    )
}

fn hash_substitution(
    eliminated_variable: VariableId,
    expression: &CompressionExpression,
    denominator_guard: Option<&SparsePolynomialQ>,
    source_relation_id: RelationId,
    kind: SubstitutionKind,
) -> (h: hash::Hash)
    ensures
        h.0@ == spec_substitution_hash(
            eliminated_variable,
            *expression,
            match denominator_guard {
                Some(g) => Some(*g),
                None => None,
            },
            source_relation_id,
            kind,
        ),
{
    let mut chunks: Vec<Vec<u8>> = Vec::new();
    push_chunk(&mut chunks, u32_be(eliminated_variable.0));
    push_chunk(&mut chunks, u32_be(source_relation_id.0));
    push_chunk(&mut chunks, single_byte(substitution_kind_byte(kind)));
    push_chunk(&mut chunks, hash_to_vec(&expression.expression_hash()));
    match denominator_guard {
        Some(g) => {
            push_chunk(&mut chunks, hash_to_vec(&g.hash));
        },
        None => {},
    }
    assert(chunk_views(chunks@) =~= match denominator_guard {
        Some(g) => seq![
            be_bytes(eliminated_variable.0 as nat, 4),
            be_bytes(source_relation_id.0 as nat, 4),
            seq![substitution_kind_index(kind)],
            spec_expression_hash(*expression).0@,
        ].push(g.hash.0@),
        None => seq![
            be_bytes(eliminated_variable.0 as nat, 4),
            be_bytes(source_relation_id.0 as nat, 4),
            seq![substitution_kind_index(kind)],
            spec_expression_hash(*expression).0@,
        ],
    });
    hash_sequence("compression-substitution", chunks.as_slice())
}

pub open spec fn spec_rational_expression_hash(n: SparsePolynomialQ, d: SparsePolynomialQ, g: GuardRecord) -> Seq<u8> {
    spec_hash_sequence("rational-expression-q".spec_bytes(), seq![n.hash.0@, d.hash.0@, g.guard_hash.0@])
}

/// A rational expression `numerator / denominator` guarded by its denominator's guard.
pub fn rational_expression(
    numerator: SparsePolynomialQ,
    denominator: SparsePolynomialQ,
    denominator_guard: GuardRecord,
    source_witness_relation_ids: Vec<RelationId>,
) -> (e: RationalExpressionQ)
    ensures
        e.numerator == numerator,
        e.denominator == denominator,
        e.denominator_guard == denominator_guard,
        e.source_witness_relation_ids == source_witness_relation_ids,
        e.expression_hash.0@ == spec_rational_expression_hash(numerator, denominator, denominator_guard),
{
    let mut chunks: Vec<Vec<u8>> = Vec::new();
    push_chunk(&mut chunks, hash_to_vec(&numerator.hash));
    push_chunk(&mut chunks, hash_to_vec(&denominator.hash));
    push_chunk(&mut chunks, hash_to_vec(&denominator_guard.guard_hash));
    assert(chunk_views(chunks@) =~= seq![numerator.hash.0@, denominator.hash.0@, denominator_guard.guard_hash.0@]);
    let expression_hash = hash_sequence("rational-expression-q", chunks.as_slice());
    RationalExpressionQ { numerator, denominator, denominator_guard, source_witness_relation_ids, expression_hash }
}

pub open spec fn spec_transformation_hash(c: RationalAffineTransformationCertificate) -> Seq<u8> {
    spec_hash_sequence(
        "rational-affine-transformation-certificate".spec_bytes(),
        seq![
            be_bytes(c.original_relation_id.0 as nat, 4),
            be_bytes(c.transformed_relation_id.0 as nat, 4),
            be_bytes(c.pivot_relation_id.0 as nat, 4),
            be_bytes(c.eliminated_variable.0 as nat, 4),
            c.numerator.hash.0@,
            c.denominator.hash.0@,
            be_bytes(c.denominator_clearing_power as nat, 4),
            c.denominator_guard.guard_hash.0@,
            c.original_relation_hash.0@,
            c.transformed_relation_hash.0@,
        ],
    )
}

/// The certificate of one relation rewritten by a rational affine substitution, bound by a
/// digest of all its parts but the witness list.
pub fn rational_affine_transformation_certificate(
    original_relation_id: RelationId,
    transformed_relation_id: RelationId,
    pivot_relation_id: RelationId,
    eliminated_variable: VariableId,
    numerator: SparsePolynomialQ,
    denominator: SparsePolynomialQ,
    denominator_clearing_power: u32,
    denominator_guard: GuardRecord,
    source_witness_relation_ids: Vec<RelationId>,
    original_relation_hash: hash::Hash,
    transformed_relation_hash: hash::Hash,
) -> (c: RationalAffineTransformationCertificate)
    ensures
        c.original_relation_id == original_relation_id,
        c.transformed_relation_id == transformed_relation_id,
        c.pivot_relation_id == pivot_relation_id,
        c.eliminated_variable == eliminated_variable,
        c.numerator == numerator,
        c.denominator == denominator,
        c.denominator_clearing_power == denominator_clearing_power,
        c.denominator_guard == denominator_guard,
        c.source_witness_relation_ids == source_witness_relation_ids,
        c.original_relation_hash == original_relation_hash,
        c.transformed_relation_hash == transformed_relation_hash,
        c.transformation_hash.0@ == spec_transformation_hash(c),
{
    let mut chunks: Vec<Vec<u8>> = Vec::new();
    push_chunk(&mut chunks, u32_be(original_relation_id.0));
    push_chunk(&mut chunks, u32_be(transformed_relation_id.0));
    push_chunk(&mut chunks, u32_be(pivot_relation_id.0));
    push_chunk(&mut chunks, u32_be(eliminated_variable.0));
    push_chunk(&mut chunks, hash_to_vec(&numerator.hash));
    push_chunk(&mut chunks, hash_to_vec(&denominator.hash));
    push_chunk(&mut chunks, u32_be(denominator_clearing_power));
    push_chunk(&mut chunks, hash_to_vec(&denominator_guard.guard_hash));
    push_chunk(&mut chunks, hash_to_vec(&original_relation_hash));
    push_chunk(&mut chunks, hash_to_vec(&transformed_relation_hash));
    let transformation_hash = hash_sequence("rational-affine-transformation-certificate", chunks.as_slice());
    let c = RationalAffineTransformationCertificate {
        original_relation_id,
        transformed_relation_id,
        pivot_relation_id,
        eliminated_variable,
        numerator,
        denominator,
        denominator_clearing_power,
        denominator_guard,
        source_witness_relation_ids,
        original_relation_hash,
        transformed_relation_hash,
        transformation_hash,
    };
    assert(chunk_views(chunks@) =~= seq![
        be_bytes(c.original_relation_id.0 as nat, 4),
        be_bytes(c.transformed_relation_id.0 as nat, 4),
        be_bytes(c.pivot_relation_id.0 as nat, 4),
        be_bytes(c.eliminated_variable.0 as nat, 4),
        c.numerator.hash.0@,
        c.denominator.hash.0@,
        be_bytes(c.denominator_clearing_power as nat, 4),
        c.denominator_guard.guard_hash.0@,
        c.original_relation_hash.0@,
        c.transformed_relation_hash.0@,
    ]);
    c
}

/// `r` is relation `id` with source `source` and the primitive integer form of `p`.
pub open spec fn is_relation_of(r: CanonicalRelationQ, id: RelationId, p: SparsePolynomialQ, source: RelationSource) -> bool {
    &&& r.id == id
    &&& is_normalization(r.polynomial.terms@, cleared_view(terms_view(p.terms@)))
    &&& r.polynomial.hash.0@ == spec_hash_terms(r.polynomial.terms@)
    &&& r.source == source
    &&& r.hash.0@ == spec_relation_hash(id, r.polynomial.hash)
}

/// The relation `id` holding the primitive integer form of `polynomial`.
pub fn relation_with_polynomial(id: RelationId, polynomial: SparsePolynomialQ, source: RelationSource) -> (r: CanonicalRelationQ)
    requires
        coeffs_well_formed(terms_view(polynomial.terms@)),
    ensures
        is_relation_of(r, id, polynomial, source),
{
    let polynomial = clear_denominators_primitive(&polynomial);
    let mut chunks: Vec<Vec<u8>> = Vec::new();
    push_chunk(&mut chunks, u32_be(id.0));
    push_chunk(&mut chunks, hash_to_vec(&polynomial.hash));
    assert(chunk_views(chunks@) =~= seq![be_bytes(id.0 as nat, 4), polynomial.hash.0@]);
    let hash = hash_sequence("canonical-relation", chunks.as_slice());
    CanonicalRelationQ { id, polynomial, source, hash }
}

/// Same factor values and digest, sources, kind and guard digest.
pub open spec fn same_guard(a: GuardRecord, b: GuardRecord) -> bool {
    &&& poly_view(a.factor) == poly_view(b.factor)
    &&& a.source_relation_ids@ == b.source_relation_ids@
    &&& a.guard_kind == b.guard_kind
    &&& a.guard_hash == b.guard_hash
}

/// `g` guards the primitive integer form of `factor`, from `sources`, of kind `kind`.
pub open spec fn is_guard_for(g: GuardRecord, factor: SparsePolynomialQ, sources: Seq<RelationId>, kind: GuardKind) -> bool {
    &&& is_normalization(g.factor.terms@, cleared_view(terms_view(factor.terms@)))
    &&& g.factor.hash.0@ == spec_hash_terms(g.factor.terms@)
    &&& g.source_relation_ids@ == sources
    &&& g.guard_kind == kind
    &&& g.guard_hash.0@ == spec_guard_hash(g.factor, sources, kind)
}

/// The first guard with digest `h`, or -1.
pub open spec fn guard_index(gs: Seq<GuardRecord>, h: Seq<u8>) -> int
    decreases gs.len(),
{
    if gs.len() == 0 {
        -1
    } else {
        let k = guard_index(gs.drop_last(), h);
        if k >= 0 {
            k
        } else if gs.last().guard_hash.0@ == h {
            gs.len() - 1
        } else {
            -1
        }
    }
}

proof fn lemma_guard_index(gs: Seq<GuardRecord>, h: Seq<u8>)
    ensures
        -1 <= guard_index(gs, h) < gs.len(),
        guard_index(gs, h) >= 0 ==> gs[guard_index(gs, h)].guard_hash.0@ == h,
        guard_index(gs, h) == -1 ==> forall|j: int| 0 <= j < gs.len() ==> (#[trigger] gs[j]).guard_hash.0@ != h,
    decreases gs.len(),
{
    if gs.len() > 0 {
        let d = gs.drop_last();
        lemma_guard_index(d, h);
        if guard_index(d, h) >= 0 {
            assert(gs[guard_index(d, h)] == d[guard_index(d, h)]);
        }
        assert forall|j: int| 0 <= j < d.len() implies gs[j] == d[j] by {}
    }
}

fn copy_relation_ids(s: &Vec<RelationId>) -> (out: Vec<RelationId>)
    ensures
        out@ == s@,
{
    let mut out: Vec<RelationId> = Vec::new();
    for i in 0..s.len()
        invariant
            out@ == s@.take(i as int),
    {
        out.push(s[i]);
        assert(s@.take(i + 1) == s@.take(i as int).push(s@[i as int]));
    }
    assert(s@.take(s@.len() as int) == s@);
    out
}

fn copy_variable_ids(s: &Vec<VariableId>) -> (out: Vec<VariableId>)
    ensures
        out@ == s@,
{
    let mut out: Vec<VariableId> = Vec::new();
    for i in 0..s.len()
        invariant
            out@ == s@.take(i as int),
    {
        out.push(s[i]);
        assert(s@.take(i + 1) == s@.take(i as int).push(s@[i as int]));
    }
    assert(s@.take(s@.len() as int) == s@);
    out
}

fn copy_guard(g: &GuardRecord) -> (r: GuardRecord)
    ensures
        same_guard(r, *g),
{
    GuardRecord {
        factor: copy_poly(&g.factor),
        source_relation_ids: copy_relation_ids(&g.source_relation_ids),
        guard_kind: g.guard_kind,
        guard_hash: g.guard_hash,
    }
}

/// The guard at `pos`, or where a guard with digest `h` first occurs.
fn find_guard(gs: &Vec<GuardRecord>, h: &hash::Hash) -> (k: Option<usize>)
    ensures
        k is None <==> guard_index(gs@, h.0@) == -1,
        k matches Some(i) ==> i == guard_index(gs@, h.0@),
{
    let n = gs.len();
    for i in 0..n
        invariant
            n == gs@.len(),
            guard_index(gs@.take(i as int), h.0@) == -1,
    {
        let ghost before = gs@.take(i as int);
        assert(gs@.take(i + 1).drop_last() == before);
        if crate::types::hash::hash_eq(&gs[i].guard_hash, h) {
            assert(guard_index(gs@.take(i + 1), h.0@) == i);
            proof {
                lemma_guard_index_prefix(gs@, h.0@, i + 1);
            }
            return Some(i);
        }
    }
    assert(gs@.take(n as int) == gs@);
    None
}

/// A guard found in a prefix is found in the whole list.
proof fn lemma_guard_index_prefix(gs: Seq<GuardRecord>, h: Seq<u8>, n: int)
    requires
        0 <= n <= gs.len(),
        guard_index(gs.take(n), h) >= 0,
    ensures
        guard_index(gs, h) == guard_index(gs.take(n), h),
    decreases gs.len() - n,
{
    if n < gs.len() {
        assert(gs.take(n + 1).drop_last() == gs.take(n));
        lemma_guard_index_prefix(gs, h, n + 1);
    } else {
        assert(gs.take(n) == gs);
    }
}

/// Same factor values and digest, witness, slack variable and digest.
pub open spec fn same_saturation(a: SaturationRecord, b: SaturationRecord) -> bool {
    &&& poly_view(a.factor) == poly_view(b.factor)
    &&& a.witness_relation_id == b.witness_relation_id
    &&& a.slack_variable == b.slack_variable
    &&& a.saturation_hash == b.saturation_hash
}

/// `x` saturates by the primitive integer form of `factor`, witnessed by `witness` with `slack`.
pub open spec fn is_saturation_for(x: SaturationRecord, factor: SparsePolynomialQ, witness: RelationId, slack: VariableId) -> bool {
    &&& is_normalization(x.factor.terms@, cleared_view(terms_view(factor.terms@)))
    &&& x.factor.hash.0@ == spec_hash_terms(x.factor.terms@)
    &&& x.witness_relation_id == witness
    &&& x.slack_variable == slack
    &&& x.saturation_hash.0@ == spec_saturation_hash(x.factor, witness, slack)
}

/// Some saturation has digest `h`.
pub open spec fn has_saturation_hash(xs: Seq<SaturationRecord>, h: Seq<u8>) -> bool
    decreases xs.len(),
{
    xs.len() > 0 && (has_saturation_hash(xs.drop_last(), h) || xs.last().saturation_hash.0@ == h)
}

/// A digest found in a prefix is found in any extension.
pub proof fn lemma_has_saturation_extend(xs: Seq<SaturationRecord>, more: Seq<SaturationRecord>, h: Seq<u8>)
    requires
        more.len() >= xs.len(),
        more.take(xs.len() as int) == xs,
        has_saturation_hash(xs, h),
    ensures
        has_saturation_hash(more, h),
    decreases more.len(),
{
    if more.len() > xs.len() {
        assert(more.drop_last().take(xs.len() as int) == xs);
        lemma_has_saturation_extend(xs, more.drop_last(), h);
    } else {
        assert(more == xs);
    }
}

/// Same id, polynomial values and digest, source and digest.
pub open spec fn same_relation(a: CanonicalRelationQ, b: CanonicalRelationQ) -> bool {
    &&& a.id == b.id
    &&& poly_view(a.polynomial) == poly_view(b.polynomial)
    &&& a.source == b.source
    &&& a.hash == b.hash
}

pub open spec fn same_relations(a: Seq<CanonicalRelationQ>, b: Seq<CanonicalRelationQ>) -> bool {
    a.len() == b.len() && forall|i: int| 0 <= i < a.len() ==> same_relation(#[trigger] a[i], b[i])
}

pub open spec fn same_encoding(a: RealConstraintEncoding, b: RealConstraintEncoding) -> bool {
    &&& a.original_kind == b.original_kind
    &&& a.encoded_relation_ids@ == b.encoded_relation_ids@
    &&& a.slack_variables@ == b.slack_variables@
    &&& a.semantic_hash == b.semantic_hash
}

pub open spec fn same_encodings(a: Seq<RealConstraintEncoding>, b: Seq<RealConstraintEncoding>) -> bool {
    a.len() == b.len() && forall|i: int| 0 <= i < a.len() ==> same_encoding(#[trigger] a[i], b[i])
}

pub fn copy_relation(r: &CanonicalRelationQ) -> (out: CanonicalRelationQ)
    ensures
        same_relation(out, *r),
{
    CanonicalRelationQ { id: r.id, polynomial: copy_poly(&r.polynomial), source: r.source, hash: r.hash }
}

pub fn copy_relations(rs: &Vec<CanonicalRelationQ>) -> (out: Vec<CanonicalRelationQ>)
    ensures
        same_relations(out@, rs@),
{
    let mut out: Vec<CanonicalRelationQ> = Vec::new();
    for i in 0..rs.len()
        invariant
            out@.len() == i,
            forall|k: int| 0 <= k < i ==> same_relation(#[trigger] out@[k], rs@[k]),
    {
        out.push(copy_relation(&rs[i]));
    }
    out
}

fn copy_encodings(es: &Vec<RealConstraintEncoding>) -> (out: Vec<RealConstraintEncoding>)
    ensures
        same_encodings(out@, es@),
{
    let mut out: Vec<RealConstraintEncoding> = Vec::new();
    for i in 0..es.len()
        invariant
            out@.len() == i,
            forall|k: int| 0 <= k < i ==> same_encoding(#[trigger] out@[k], es@[k]),
    {
        let e = &es[i];
        out.push(RealConstraintEncoding {
            original_kind: e.original_kind,
            encoded_relation_ids: copy_relation_ids(&e.encoded_relation_ids),
            slack_variables: copy_variable_ids(&e.slack_variables),
            semantic_hash: e.semantic_hash,
        });
    }
    out
}

/// The variables other than `v`, in order.
fn without(vars: &Vec<VariableId>, v: VariableId) -> (out: Vec<VariableId>)
    ensures
        out@ == without_variable(vars@, v),
{
    let mut out: Vec<VariableId> = Vec::new();
    for i in 0..vars.len()
        invariant
            out@ == without_variable(vars@.take(i as int), v),
    {
        assert(vars@.take(i + 1).drop_last() == vars@.take(i as int));
        if vars[i] != v {
            out.push(vars[i]);
        }
    }
    assert(vars@.take(vars@.len() as int) == vars@);
    out
}

impl CompressionState {
    /// Records a polynomial substitution and drops the eliminated variable.
    pub fn add_substitution(
        &mut self,
        eliminated_variable: VariableId,
        expression: SparsePolynomialQ,
        denominator_guard: Option<SparsePolynomialQ>,
        source_relation_id: RelationId,
        kind: SubstitutionKind,
    )
        ensures
            final(self).substitutions@.drop_last() == old(self).substitutions@,
            final(self).substitutions@.len() == old(self).substitutions@.len() + 1,
            final(self).substitutions@.last().eliminated_variable == eliminated_variable,
            final(self).substitutions@.last().expression == CompressionExpression::Polynomial(expression),
            final(self).substitutions@.last().denominator_guard == denominator_guard,
            final(self).substitutions@.last().source_relation_id == source_relation_id,
            final(self).substitutions@.last().kind == kind,
            final(self).substitutions@.last().substitution_hash.0@ == spec_substitution_hash(
                eliminated_variable,
                CompressionExpression::Polynomial(expression),
                denominator_guard,
                source_relation_id,
                kind,
            ),
            final(self).variables@ == without_variable(old(self).variables@, eliminated_variable),
            final(self).relations == old(self).relations,
            final(self).relation_order == old(self).relation_order,
            final(self).target == old(self).target,
            final(self).semantic_encodings == old(self).semantic_encodings,
            final(self).guards == old(self).guards,
            final(self).saturations == old(self).saturations,
            final(self).feasibility_obligations == old(self).feasibility_obligations,
            final(self).rational_affine_transformations == old(self).rational_affine_transformations,
            final(self).trace == old(self).trace,
    {
        self.add_substitution_expression(
            eliminated_variable,
            CompressionExpression::Polynomial(expression),
            denominator_guard,
            source_relation_id,
            kind,
        );
    }

    /// Records a rational substitution and drops the eliminated variable.
    pub fn add_rational_substitution(
        &mut self,
        eliminated_variable: VariableId,
        expression: RationalExpressionQ,
        denominator_guard: Option<SparsePolynomialQ>,
        source_relation_id: RelationId,
        kind: SubstitutionKind,
    )
        ensures
            final(self).substitutions@.drop_last() == old(self).substitutions@,
            final(self).substitutions@.len() == old(self).substitutions@.len() + 1,
            final(self).substitutions@.last().eliminated_variable == eliminated_variable,
            final(self).substitutions@.last().expression == CompressionExpression::Rational(expression),
            final(self).substitutions@.last().denominator_guard == denominator_guard,
            final(self).substitutions@.last().source_relation_id == source_relation_id,
            final(self).substitutions@.last().kind == kind,
            final(self).substitutions@.last().substitution_hash.0@ == spec_substitution_hash(
                eliminated_variable,
                CompressionExpression::Rational(expression),
                denominator_guard,
                source_relation_id,
                kind,
            ),
            final(self).variables@ == without_variable(old(self).variables@, eliminated_variable),
            final(self).relations == old(self).relations,
            final(self).relation_order == old(self).relation_order,
            final(self).target == old(self).target,
            final(self).semantic_encodings == old(self).semantic_encodings,
            final(self).guards == old(self).guards,
            final(self).saturations == old(self).saturations,
            final(self).feasibility_obligations == old(self).feasibility_obligations,
            final(self).rational_affine_transformations == old(self).rational_affine_transformations,
            final(self).trace == old(self).trace,
    {
        self.add_substitution_expression(
            eliminated_variable,
            CompressionExpression::Rational(expression),
            denominator_guard,
            source_relation_id,
            kind,
        );
    }

    fn add_substitution_expression(
        &mut self,
        eliminated_variable: VariableId,
        expression: CompressionExpression,
        denominator_guard: Option<SparsePolynomialQ>,
        source_relation_id: RelationId,
        kind: SubstitutionKind,
    )
        ensures
            final(self).substitutions@.drop_last() == old(self).substitutions@,
            final(self).substitutions@.len() == old(self).substitutions@.len() + 1,
            final(self).substitutions@.last().eliminated_variable == eliminated_variable,
            final(self).substitutions@.last().expression == expression,
            final(self).substitutions@.last().denominator_guard == denominator_guard,
            final(self).substitutions@.last().source_relation_id == source_relation_id,
            final(self).substitutions@.last().kind == kind,
            final(self).substitutions@.last().substitution_hash.0@ == spec_substitution_hash(
                eliminated_variable,
                expression,
                denominator_guard,
                source_relation_id,
                kind,
            ),
            final(self).variables@ == without_variable(old(self).variables@, eliminated_variable),
            final(self).relations == old(self).relations,
            final(self).relation_order == old(self).relation_order,
            final(self).target == old(self).target,
            final(self).semantic_encodings == old(self).semantic_encodings,
            final(self).guards == old(self).guards,
            final(self).saturations == old(self).saturations,
            final(self).feasibility_obligations == old(self).feasibility_obligations,
            final(self).rational_affine_transformations == old(self).rational_affine_transformations,
            final(self).trace == old(self).trace,
    {
        let substitution_hash = hash_substitution(
            eliminated_variable,
            &expression,
            denominator_guard.as_ref(),
            source_relation_id,
            kind,
        );
        self.substitutions.push(
            CompressionSubstitution {
                eliminated_variable,
                expression,
                denominator_guard,
                source_relation_id,
                kind,
                substitution_hash,
            },
        );
        self.variables = without(&self.variables, eliminated_variable);
    }

    /// Records the guard on the primitive integer form of `factor`, unless a guard with the
    /// same digest is already recorded; returns the recorded guard.
    pub fn add_guard(&mut self, factor: SparsePolynomialQ, source_relation_ids: Vec<RelationId>, guard_kind: GuardKind) -> (r: GuardRecord)
        requires
            coeffs_well_formed(terms_view(factor.terms@)),
        ensures
            exists|g: GuardRecord|
                is_guard_for(g, factor, source_relation_ids@, guard_kind) && (if guard_index(old(self).guards@, g.guard_hash.0@) >= 0 {
                    final(self).guards == old(self).guards && same_guard(
                        r,
                        old(self).guards@[guard_index(old(self).guards@, g.guard_hash.0@)],
                    )
                } else {
                    final(self).guards@ == old(self).guards@.push(g) && same_guard(r, g)
                }),
            final(self).relations == old(self).relations,
            final(self).variables == old(self).variables,
            final(self).target == old(self).target,
            final(self).substitutions == old(self).substitutions,
            final(self).saturations == old(self).saturations,
            final(self).semantic_encodings == old(self).semantic_encodings,
            final(self).feasibility_obligations == old(self).feasibility_obligations,
            final(self).trace == old(self).trace,
    {
        let cleared = clear_denominators_primitive(&factor);
        let guard_hash = hash_guard(&cleared, source_relation_ids.as_slice(), guard_kind);
        let ghost g = GuardRecord { factor: cleared, source_relation_ids, guard_kind, guard_hash };
        proof {
            lemma_guard_index(self.guards@, guard_hash.0@);
            assert(is_guard_for(g, factor, source_relation_ids@, guard_kind));
        }
        match find_guard(&self.guards, &guard_hash) {
            Some(i) => {
                copy_guard(&self.guards[i])
            },
            None => {
                let record = GuardRecord { factor: cleared, source_relation_ids, guard_kind, guard_hash };
                let out = copy_guard(&record);
                self.guards.push(record);
                out
            },
        }
    }

    /// Records the saturation by the primitive integer form of `factor`, unless one with the
    /// same digest is already recorded.
    pub fn add_saturation(&mut self, factor: SparsePolynomialQ, witness_relation_id: RelationId, slack_variable: VariableId)
        requires
            coeffs_well_formed(terms_view(factor.terms@)),
        ensures
            exists|x: SaturationRecord|
                is_saturation_for(x, factor, witness_relation_id, slack_variable) && (if has_saturation_hash(
                    old(self).saturations@,
                    x.saturation_hash.0@,
                ) {
                    final(self).saturations == old(self).saturations
                } else {
                    final(self).saturations@ == old(self).saturations@.push(x)
                }),
            final(self).relations == old(self).relations,
            final(self).variables == old(self).variables,
            final(self).target == old(self).target,
            final(self).substitutions == old(self).substitutions,
            final(self).guards == old(self).guards,
            final(self).semantic_encodings == old(self).semantic_encodings,
            final(self).feasibility_obligations == old(self).feasibility_obligations,
            final(self).trace == old(self).trace,
    {
        let cleared = clear_denominators_primitive(&factor);
        let saturation_hash = hash_saturation(&cleared, witness_relation_id, slack_variable);
        let x = SaturationRecord { factor: cleared, witness_relation_id, slack_variable, saturation_hash };
        proof {
            assert(is_saturation_for(x, factor, witness_relation_id, slack_variable));
        }
        self.push_saturation(x);
    }

    /// Appends `x` unless a saturation with its digest is already recorded.
    pub fn push_saturation(&mut self, x: SaturationRecord)
        ensures
            if has_saturation_hash(old(self).saturations@, x.saturation_hash.0@) {
                final(self).saturations == old(self).saturations
            } else {
                final(self).saturations@ == old(self).saturations@.push(x)
            },
            final(self).relations == old(self).relations,
            final(self).variables == old(self).variables,
            final(self).target == old(self).target,
            final(self).substitutions == old(self).substitutions,
            final(self).guards == old(self).guards,
            final(self).semantic_encodings == old(self).semantic_encodings,
            final(self).feasibility_obligations == old(self).feasibility_obligations,
            final(self).trace == old(self).trace,
    {
        let mut found = false;
        let n = self.saturations.len();
        for i in 0..n
            invariant
                n == self.saturations@.len(),
                found == has_saturation_hash(self.saturations@.take(i as int), x.saturation_hash.0@),
        {
            assert(self.saturations@.take(i + 1).drop_last() == self.saturations@.take(i as int));
            if crate::types::hash::hash_eq(&self.saturations[i].saturation_hash, &x.saturation_hash) {
                found = true;
            }
        }
        assert(self.saturations@.take(n as int) == self.saturations@);
        if !found {
            self.saturations.push(x);
        }
    }

    /// The state as a canonical system, digested under "canonical-view".
    pub fn to_canonical_system(&self) -> (c: CanonicalSystemQ)
        ensures
            c.variables@ == self.variables@,
            c.target == self.target,
            same_relations(c.relations@, self.relations@),
            c.relation_order@ == self.relation_order@,
            is_canonical_order(c.variable_order.variables@, self.variables@, self.target),
            same_encodings(c.semantic_encodings@, self.semantic_encodings@),
            c.canonical_hash.0@ == spec_state_hash(*self, "canonical-view".spec_bytes()),
    {
        CanonicalSystemQ {
            variables: copy_variable_ids(&self.variables),
            target: self.target,
            relations: copy_relations(&self.relations),
            relation_order: copy_relation_ids(&self.relation_order),
            variable_order: canonical_variable_order(self.variables.as_slice(), self.target),
            semantic_encodings: copy_encodings(&self.semantic_encodings),
            canonical_hash: self.state_hash("canonical-view"),
            diagnostics: self.diagnostics.clone(),
        }
    }
}

// ----- rewriting the relations -----

/// Every relation polynomial has nonzero denominators.
pub open spec fn relations_well_formed(rs: Seq<CanonicalRelationQ>) -> bool {
    forall|i: int| 0 <= i < rs.len() ==> coeffs_well_formed(terms_view((#[trigger] rs[i]).polynomial.terms@))
}

/// `out` keeps, in order, some of the relations of `before` other than `skip`, each under its
/// id and source with a polynomial in normal form and the matching relation digest.
pub open spec fn is_rewrite_of(out: Seq<CanonicalRelationQ>, before: Seq<CanonicalRelationQ>, skip: RelationId) -> bool {
    exists|idx: Seq<int>| is_rewrite_map(out, before, skip, idx)
}

pub open spec fn is_rewrite_map(out: Seq<CanonicalRelationQ>, before: Seq<CanonicalRelationQ>, skip: RelationId, idx: Seq<int>) -> bool {
    &&& idx.len() == out.len()
    &&& forall|a: int, b: int| 0 <= a < b < idx.len() ==> idx[a] < idx[b]
    &&& forall|k: int|
        0 <= k < out.len() ==> {
            let r = #[trigger] out[k];
            &&& 0 <= idx[k] < before.len()
            &&& before[idx[k]].id == r.id
            &&& before[idx[k]].source == r.source
            &&& r.id != skip
            &&& is_normal_poly(r.polynomial)
            &&& r.hash.0@ == spec_relation_hash(r.id, r.polynomial.hash)
        }
}

pub open spec fn has_relation(rs: Seq<CanonicalRelationQ>, id: RelationId) -> bool {
    exists|i: int| 0 <= i < rs.len() && (#[trigger] rs[i]).id == id
}

proof fn lemma_rewrite_len(out: Seq<CanonicalRelationQ>, before: Seq<CanonicalRelationQ>, skip: RelationId, idx: Seq<int>)
    requires
        is_rewrite_map(out, before, skip, idx),
    ensures
        out.len() <= before.len(),
        has_relation(before, skip) ==> out.len() < before.len(),
    decreases out.len(),
{
    if out.len() > 0 {
        let k = out.len() - 1;
        let o2 = out.drop_last();
        let i2 = idx.drop_last();
        let rk = out[k];
        assert(0 <= idx[k] < before.len());
        assert(is_rewrite_map(o2, before.take(idx[k]), skip, i2)) by {
            assert forall|q: int| 0 <= q < o2.len() implies {
                let r = #[trigger] o2[q];
                &&& 0 <= i2[q] < before.take(idx[k]).len()
                &&& before.take(idx[k])[i2[q]].id == r.id
                &&& before.take(idx[k])[i2[q]].source == r.source
                &&& r.id != skip
                &&& is_normal_poly(r.polynomial)
                &&& r.hash.0@ == spec_relation_hash(r.id, r.polynomial.hash)
            } by {
                assert(o2[q] == out[q]);
                assert(i2[q] == idx[q]);
                assert(idx[q] < idx[k]);
                let rq = out[q];
                assert(before.take(idx[k])[idx[q]] == before[idx[q]]);
            }
        }
        lemma_rewrite_len(o2, before.take(idx[k]), skip, i2);
        if has_relation(before, skip) {
            let w = choose|w: int| 0 <= w < before.len() && (#[trigger] before[w]).id == skip;
            if w < idx[k] {
                assert(before.take(idx[k])[w] == before[w]);
                assert(has_relation(before.take(idx[k]), skip));
            } else {
                assert(w != idx[k]);
                assert(idx[k] + 1 < before.len());
            }
        }
    }
}

/// `p` is the primitive integer form of the primitive integer form of `ts` with `v`
/// replaced by the polynomial `e` (the substitution and the two clearings of the rewrite).
#[verifier::opaque]
pub open spec fn is_cleared_substitution(
    p: Seq<crate::types::polynomial::TermQ>,
    ts: Seq<crate::types::polynomial::TermQ>,
    v: VariableId,
    e: Seq<(int, int, Seq<(VariableId, u32)>)>,
) -> bool {
    exists|
        s: Seq<(VariableId, SparsePolynomialQ)>,
        raw: Seq<crate::types::polynomial::TermQ>,
        tr: Seq<crate::types::polynomial::TermQ>,
    |
        #![trigger crate::types::polynomial::is_substitution_image(raw, ts, s), is_normalization(tr, cleared_view(terms_view(raw)))]
        s.len() == 1 && s[0].0 == v && terms_view(s[0].1.terms@) == e
            && crate::types::polynomial::is_substitution_image(raw, ts, s) && is_normalization(tr, cleared_view(terms_view(raw)))
            && is_normalization(p, cleared_view(terms_view(tr)))
}

/// `ts` with `v` replaced by `e`, cleared, is the zero polynomial.
#[verifier::opaque]
pub open spec fn substitution_vanishes(
    ts: Seq<crate::types::polynomial::TermQ>,
    v: VariableId,
    e: Seq<(int, int, Seq<(VariableId, u32)>)>,
) -> bool {
    exists|
        s: Seq<(VariableId, SparsePolynomialQ)>,
        raw: Seq<crate::types::polynomial::TermQ>,
        tr: Seq<crate::types::polynomial::TermQ>,
    |
        #![trigger crate::types::polynomial::is_substitution_image(raw, ts, s), is_normalization(tr, cleared_view(terms_view(raw)))]
        s.len() == 1 && s[0].0 == v && terms_view(s[0].1.terms@) == e
            && crate::types::polynomial::is_substitution_image(raw, ts, s) && is_normalization(tr, cleared_view(terms_view(raw)))
            && tr.len() == 0
}

proof fn lemma_cleared_substitution_intro(
    p: Seq<crate::types::polynomial::TermQ>,
    s: Seq<(VariableId, SparsePolynomialQ)>,
    raw: Seq<crate::types::polynomial::TermQ>,
    tr: Seq<crate::types::polynomial::TermQ>,
    ts: Seq<crate::types::polynomial::TermQ>,
    v: VariableId,
    e: Seq<(int, int, Seq<(VariableId, u32)>)>,
)
    requires
        s.len() == 1,
        s[0].0 == v,
        terms_view(s[0].1.terms@) == e,
        crate::types::polynomial::is_substitution_image(raw, ts, s),
        is_normalization(tr, cleared_view(terms_view(raw))),
    ensures
        is_normalization(p, cleared_view(terms_view(tr))) ==> is_cleared_substitution(p, ts, v, e),
        tr.len() == 0 ==> substitution_vanishes(ts, v, e),
{
    reveal(is_cleared_substitution);
    reveal(substitution_vanishes);
}

/// `out` keeps, in order, the relations of `before` other than `skip` whose image under
/// `v := e` is nonzero, each holding the primitive form of that image; the others vanish.
#[verifier::opaque]
pub open spec fn is_substitution_rewrite(
    out: Seq<CanonicalRelationQ>,
    before: Seq<CanonicalRelationQ>,
    skip: RelationId,
    v: VariableId,
    e: Seq<(int, int, Seq<(VariableId, u32)>)>,
) -> bool {
    exists|idx: Seq<int>|
        #[trigger] is_rewrite_map(out, before, skip, idx) && (forall|k: int|
            0 <= k < out.len() ==> is_cleared_substitution(
                (#[trigger] out[k]).polynomial.terms@,
                before[idx[k]].polynomial.terms@,
                v,
                e,
            )) && forall|j: int|
            0 <= j < before.len() && before[j].id != skip && !index_listed(idx, j) ==> substitution_vanishes(
                #[trigger] before[j].polynomial.terms@,
                v,
                e,
            )
}

impl CompressionState {
    /// Replaces `eliminated_variable` by `expression` in every relation but the source one;
    /// each result is brought to primitive integer form and dropped when it is zero.
    #[verifier::spinoff_prover]
    #[verifier::rlimit(60)]
    pub fn apply_polynomial_substitution(&mut self, eliminated_variable: VariableId, expression: &SparsePolynomialQ, source_relation_id: RelationId)
        requires
            coeffs_well_formed(terms_view(expression.terms@)),
            relations_well_formed(old(self).relations@),
        ensures
            is_rewrite_of(final(self).relations@, old(self).relations@, source_relation_id),
            is_substitution_rewrite(
                final(self).relations@,
                old(self).relations@,
                source_relation_id,
                eliminated_variable,
                terms_view(expression.terms@),
            ),
            relations_well_formed(final(self).relations@),
            final(self).relations@.len() <= old(self).relations@.len(),
            has_relation(old(self).relations@, source_relation_id) ==> final(self).relations@.len() < old(self).relations@.len(),
            final(self).relation_order@ == relation_ids_of(final(self).relations@),
            final(self).variables == old(self).variables,
            final(self).target == old(self).target,
            final(self).semantic_encodings == old(self).semantic_encodings,
            final(self).substitutions == old(self).substitutions,
            final(self).guards == old(self).guards,
            final(self).saturations == old(self).saturations,
            final(self).rational_affine_transformations == old(self).rational_affine_transformations,
            final(self).feasibility_obligations == old(self).feasibility_obligations,
            final(self).trace == old(self).trace,
    {
        let mut subst: SubstitutionMap = Vec::new();
        let e = copy_poly(expression);
        subst.push((eliminated_variable, e));
        proof {
            assert(terms_view(subst@[0].1.terms@) == terms_view(expression.terms@));
        }
        let ghost before = self.relations@;
        let mut out: Vec<CanonicalRelationQ> = Vec::new();
        let ghost mut idx: Seq<int> = Seq::empty();
        let n = self.relations.len();
        for i in 0..n
            invariant
                n == before.len(),
                before == self.relations@,
                relations_well_formed(before),
                crate::types::polynomial::substitution_well_formed(subst@),
                is_rewrite_map(out@, before, source_relation_id, idx),
                forall|k: int| 0 <= k < idx.len() ==> idx[k] < i,
                relations_well_formed(out@),
                subst@.len() == 1,
                subst@[0].0 == eliminated_variable,
                terms_view(subst@[0].1.terms@) == terms_view(expression.terms@),
                forall|k: int|
                    0 <= k < out@.len() ==> is_cleared_substitution(
                        (#[trigger] out@[k]).polynomial.terms@,
                        before[idx[k]].polynomial.terms@,
                        eliminated_variable,
                        terms_view(expression.terms@),
                    ),
                forall|j: int|
                    0 <= j < i && before[j].id != source_relation_id && !index_listed(idx, j) ==> substitution_vanishes(
                        #[trigger] before[j].polynomial.terms@,
                        eliminated_variable,
                        terms_view(expression.terms@),
                    ),
        {
            let ghost idx0 = idx;
            let ghost out0 = out@;
            let relation = &self.relations[i];
            if relation.id != source_relation_id {
                let substituted = substitute_poly(&relation.polynomial, &subst);
                proof {
                    lemma_normal_poly_well_formed(substituted);
                }
                let cleared = clear_denominators_primitive(&substituted);
                if cleared.terms.len() > 0 {
                    proof {
                        lemma_normal_poly_of(cleared, cleared_view(terms_view(substituted.terms@)));
                    }
                    let r = relation_with_polynomial(relation.id, cleared, relation.source);
                    proof {
                        lemma_normal_poly_of(r.polynomial, cleared_view(terms_view(cleared.terms@)));
                        lemma_cleared_substitution_intro(
                            r.polynomial.terms@,
                            subst@,
                            substituted.terms@,
                            cleared.terms@,
                            relation.polynomial.terms@,
                            eliminated_variable,
                            terms_view(expression.terms@),
                        );
                        idx = idx.push(i as int);
                        assert(idx[idx.len() - 1] == i as int);
                        assert(index_listed(idx, i as int));
                    }
                    out.push(r);
                    proof {
                        assert forall|k: int| 0 <= k < out@.len() implies is_cleared_substitution(
                            (#[trigger] out@[k]).polynomial.terms@,
                            before[idx[k]].polynomial.terms@,
                            eliminated_variable,
                            terms_view(expression.terms@),
                        ) by {
                            if k < out0.len() {
                                assert(out@[k] == out0[k]);
                                assert(idx[k] == idx0[k]);
                            }
                        }
                    }
                } else {
                    proof {
                        lemma_cleared_substitution_intro(
                            cleared.terms@,
                            subst@,
                            substituted.terms@,
                            cleared.terms@,
                            relation.polynomial.terms@,
                            eliminated_variable,
                            terms_view(expression.terms@),
                        );
                    }
                }
            }
            proof {
                assert forall|j: int|
                    0 <= j < i + 1 && before[j].id != source_relation_id && !index_listed(idx, j) implies substitution_vanishes(
                    #[trigger] before[j].polynomial.terms@,
                    eliminated_variable,
                    terms_view(expression.terms@),
                ) by {
                    if j < i && index_listed(idx0, j) {
                        let k = choose|k: int| 0 <= k < idx0.len() && #[trigger] idx0[k] == j;
                        assert(idx[k] == j);
                    }
                }
            }
        }
        proof {
            lemma_rewrite_len(out@, before, source_relation_id, idx);
            reveal(is_substitution_rewrite);
            assert(is_rewrite_map(out@, before, source_relation_id, idx));
        }
        self.relations = out;
        self.relation_order = collect_relation_ids(&self.relations);
    }
}

// ----- variable occurrence map -----

/// The ids of the relations that name `v`, in relation order.
pub open spec fn relations_mentioning(rs: Seq<CanonicalRelationQ>, v: VariableId) -> Seq<RelationId>
    decreases rs.len(),
{
    if rs.len() == 0 {
        Seq::empty()
    } else if crate::preprocess::independent::relation_mentions(rs.last(), v) {
        relations_mentioning(rs.drop_last(), v).push(rs.last().id)
    } else {
        relations_mentioning(rs.drop_last(), v)
    }
}

/// Some relation names `v`.
pub open spec fn some_relation_mentions(rs: Seq<CanonicalRelationQ>, v: VariableId) -> bool {
    exists|j: int| 0 <= j < rs.len() && crate::preprocess::independent::relation_mentions(#[trigger] rs[j], v)
}

/// `map` has an entry for `v`.
pub open spec fn map_has_key(map: Seq<(VariableId, Vec<RelationId>)>, v: VariableId) -> bool {
    exists|k: int| 0 <= k < map.len() && (#[trigger] map[k]).0 == v
}

pub open spec fn keys_increasing(map: Seq<(VariableId, Vec<RelationId>)>) -> bool {
    forall|a: int, b: int| 0 <= a < b < map.len() ==> (#[trigger] map[a]).0.0 < (#[trigger] map[b]).0.0
}

/// `map` lists, by increasing variable, each variable that some relation names with the ids
/// of the relations naming it.
pub open spec fn is_variable_map(map: Seq<(VariableId, Vec<RelationId>)>, rs: Seq<CanonicalRelationQ>) -> bool {
    &&& keys_increasing(map)
    &&& forall|k: int| 0 <= k < map.len() ==> (#[trigger] map[k]).1@ == relations_mentioning(rs, map[k].0)
    &&& forall|v: VariableId| #[trigger] map_has_key(map, v) == some_relation_mentions(rs, v)
}

/// The entries while relation `id` is being added: those of the variables in `done` already
/// carry it.
pub open spec fn partial_map(
    map: Seq<(VariableId, Vec<RelationId>)>,
    pre: Seq<CanonicalRelationQ>,
    done: Seq<VariableId>,
    id: RelationId,
) -> bool {
    &&& keys_increasing(map)
    &&& forall|k: int| 0 <= k < map.len() ==> (#[trigger] map[k]).1@ == if done.contains(map[k].0) {
        relations_mentioning(pre, map[k].0).push(id)
    } else {
        relations_mentioning(pre, map[k].0)
    }
    &&& forall|v: VariableId| #[trigger] map_has_key(map, v) == (some_relation_mentions(pre, v) || done.contains(v))
}

proof fn lemma_mentioning_empty(rs: Seq<CanonicalRelationQ>, v: VariableId)
    requires
        !some_relation_mentions(rs, v),
    ensures
        relations_mentioning(rs, v) == Seq::<RelationId>::empty(),
    decreases rs.len(),
{
    if rs.len() > 0 {
        let d = rs.drop_last();
        assert(!some_relation_mentions(d, v)) by {
            if some_relation_mentions(d, v) {
                let j = choose|j: int| 0 <= j < d.len() && crate::preprocess::independent::relation_mentions(#[trigger] d[j], v);
                assert(rs[j] == d[j]);
            }
        }
        lemma_mentioning_empty(d, v);
        assert(!crate::preprocess::independent::relation_mentions(rs[rs.len() - 1], v));
    }
}

/// For each variable named by some relation, in increasing order, the ids of the relations
/// naming it, in relation order.
pub fn polynomial_variable_map(relations: &[CanonicalRelationQ]) -> (map: Vec<(VariableId, Vec<RelationId>)>)
    ensures
        is_variable_map(map@, relations@),
{
    let mut map: Vec<(VariableId, Vec<RelationId>)> = Vec::new();
    let n = relations.len();
    proof {
        assert forall|v: VariableId| #[trigger] map_has_key(map@, v) == some_relation_mentions(relations@.take(0), v) by {}
    }
    for i in 0..n
        invariant
            n == relations@.len(),
            is_variable_map(map@, relations@.take(i as int)),
    {
        let ghost pre = relations@.take(i as int);
        let ghost post = relations@.take(i + 1);
        let id = relations[i].id;
        proof {
            assert(post.drop_last() == pre);
            assert(post.last() == relations@[i as int]);
            assert(partial_map(map@, pre, Seq::<VariableId>::empty(), id)) by {
                assert forall|v: VariableId| #[trigger] map_has_key(map@, v) == (some_relation_mentions(pre, v) || Seq::<VariableId>::empty().contains(v)) by {}
            }
        }
        let vars = crate::types::polynomial::poly_variables(&relations[i].polynomial);
        let m = vars.len();
        proof {
            assert(vars@.take(0) == Seq::<VariableId>::empty());
        }
        for q in 0..m
            invariant
                m == vars@.len(),
                crate::types::id_set::var_ids_increasing(vars@),
                pre == relations@.take(i as int),
                partial_map(map@, pre, vars@.take(q as int), id),
        {
            let v = vars[q];
            proof {
                assert(vars@.take(q + 1) == vars@.take(q as int).push(v));
                assert(!vars@.take(q as int).contains(v)) by {
                    if vars@.take(q as int).contains(v) {
                        let j = choose|j: int| 0 <= j < q && #[trigger] vars@.take(q as int)[j] == v;
                        assert(vars@[j].0 < vars@[q as int].0);
                    }
                }
            }
            insert_into_map(&mut map, v, id, Ghost(pre), Ghost(vars@.take(q as int)));
        }
        proof {
            assert(vars@.take(m as int) == vars@);
            lemma_map_step(map@, relations@, i as int, vars@, id);
        }
    }
    proof {
        assert(relations@.take(n as int) == relations@);
    }
    map
}

proof fn lemma_map_step(map: Seq<(VariableId, Vec<RelationId>)>, rs: Seq<CanonicalRelationQ>, i: int, vars: Seq<VariableId>, id: RelationId)
    requires
        0 <= i < rs.len(),
        id == rs[i].id,
        forall|v: VariableId| #[trigger] vars.contains(v) <==> crate::preprocess::independent::relation_mentions(rs[i], v),
        partial_map(map, rs.take(i), vars, id),
    ensures
        is_variable_map(map, rs.take(i + 1)),
{
    let pre = rs.take(i);
    let post = rs.take(i + 1);
    assert(post.drop_last() == pre);
    assert(post.last() == rs[i]);
    assert forall|k: int| 0 <= k < map.len() implies (#[trigger] map[k]).1@ == relations_mentioning(post, map[k].0) by {
        let w = map[k].0;
        if vars.contains(w) {
            assert(crate::preprocess::independent::relation_mentions(rs[i], w));
        } else {
            assert(!crate::preprocess::independent::relation_mentions(rs[i], w));
        }
    }
    assert forall|w: VariableId| #[trigger] map_has_key(map, w) == some_relation_mentions(post, w) by {
        if some_relation_mentions(post, w) {
            let j = choose|j: int| 0 <= j < post.len() && crate::preprocess::independent::relation_mentions(#[trigger] post[j], w);
            if j < i {
                assert(pre[j] == post[j]);
                assert(some_relation_mentions(pre, w));
            } else {
                assert(vars.contains(w));
            }
        }
        if some_relation_mentions(pre, w) {
            let j = choose|j: int| 0 <= j < pre.len() && crate::preprocess::independent::relation_mentions(#[trigger] pre[j], w);
            assert(post[j] == pre[j]);
        }
        if vars.contains(w) {
            assert(post[i] == rs[i]);
        }
    }
}

/// Adds relation `id` to the entry of `v`, creating the entry at its place when missing.
fn insert_into_map(
    map: &mut Vec<(VariableId, Vec<RelationId>)>,
    v: VariableId,
    id: RelationId,
    Ghost(pre): Ghost<Seq<CanonicalRelationQ>>,
    Ghost(done): Ghost<Seq<VariableId>>,
)
    requires
        !done.contains(v),
        partial_map(old(map)@, pre, done, id),
    ensures
        partial_map(final(map)@, pre, done.push(v), id),
{
    let ghost m0 = map@;
    proof {
        assert forall|w: VariableId| #[trigger] done.push(v).contains(w) <==> done.contains(w) || w == v by {
            crate::types::id_set::lemma_contains_push(done, v, w);
        }
    }
    let mut p: usize = 0;
    while p < map.len() && map[p].0.0 < v.0
        invariant
            p <= map@.len(),
            map@ == m0,
            forall|k: int| 0 <= k < p ==> (#[trigger] m0[k]).0.0 < v.0,
        decreases map@.len() - p,
    {
        p += 1;
    }
    proof {
        assert forall|k: int| p <= k < m0.len() implies (#[trigger] m0[k]).0.0 >= v.0 by {
            if p < k {
                assert(m0[p as int].0.0 < m0[k].0.0);
            }
        }
    }
    if p < map.len() && map[p].0.0 == v.0 {
        extend_entry(map, p, v, id, Ghost(pre), Ghost(done));
    } else {
        proof {
            assert(!map_has_key(m0, v)) by {
                if map_has_key(m0, v) {
                    let k = choose|k: int| 0 <= k < m0.len() && (#[trigger] m0[k]).0 == v;
                    if k < p {
                        assert(m0[k].0.0 < v.0);
                    } else if k > p {
                        assert(m0[p as int].0.0 < m0[k].0.0);
                    }
                }
            }
            lemma_mentioning_empty(pre, v);
        }
        new_entry(map, p, v, id, Ghost(pre), Ghost(done));
    }
}

fn extend_entry(
    map: &mut Vec<(VariableId, Vec<RelationId>)>,
    p: usize,
    v: VariableId,
    id: RelationId,
    Ghost(pre): Ghost<Seq<CanonicalRelationQ>>,
    Ghost(done): Ghost<Seq<VariableId>>,
)
    requires
        !done.contains(v),
        partial_map(old(map)@, pre, done, id),
        p < old(map)@.len(),
        old(map)@[p as int].0 == v,
        forall|w: VariableId| #[trigger] done.push(v).contains(w) <==> done.contains(w) || w == v,
    ensures
        partial_map(final(map)@, pre, done.push(v), id),
{
    let ghost m0 = map@;
    let (key, mut ids) = map.remove(p);
    ids.push(id);
    map.insert(p, (key, ids));
    proof {
        let m1 = map@;
        assert forall|k: int| 0 <= k < m1.len() && k != p implies #[trigger] m1[k] == m0[k] by {}
        assert(m1[p as int].0 == v);
        assert forall|a: int, b: int| 0 <= a < b < m1.len() implies (#[trigger] m1[a]).0.0 < (#[trigger] m1[b]).0.0 by {
            assert(m1[a].0 == m0[a].0 && m1[b].0 == m0[b].0);
        }
        assert forall|k: int| 0 <= k < m1.len() implies (#[trigger] m1[k]).1@ == if done.push(v).contains(m1[k].0) {
            relations_mentioning(pre, m1[k].0).push(id)
        } else {
            relations_mentioning(pre, m1[k].0)
        } by {
            if k != p {
                assert(m1[k] == m0[k]);
                assert(m0[k].0 != v) by {
                    if k < p {
                        assert(m0[k].0.0 < m0[p as int].0.0);
                    } else {
                        assert(m0[p as int].0.0 < m0[k].0.0);
                    }
                }
            }
        }
        assert forall|w: VariableId| #[trigger] map_has_key(m1, w) == (some_relation_mentions(pre, w) || done.push(v).contains(w)) by {
            if map_has_key(m0, w) {
                let k = choose|k: int| 0 <= k < m0.len() && (#[trigger] m0[k]).0 == w;
                assert(m1[k].0 == w);
            }
            if map_has_key(m1, w) {
                let k = choose|k: int| 0 <= k < m1.len() && (#[trigger] m1[k]).0 == w;
                assert(m0[k].0 == w);
            }
            assert(map_has_key(m0, v)) by {
                assert(m0[p as int].0 == v);
            }
        }
    }
}

fn new_entry(
    map: &mut Vec<(VariableId, Vec<RelationId>)>,
    p: usize,
    v: VariableId,
    id: RelationId,
    Ghost(pre): Ghost<Seq<CanonicalRelationQ>>,
    Ghost(done): Ghost<Seq<VariableId>>,
)
    requires
        !done.contains(v),
        partial_map(old(map)@, pre, done, id),
        p <= old(map)@.len(),
        forall|k: int| 0 <= k < p ==> (#[trigger] old(map)@[k]).0.0 < v.0,
        forall|k: int| p <= k < old(map)@.len() ==> (#[trigger] old(map)@[k]).0.0 > v.0,
        !map_has_key(old(map)@, v),
        relations_mentioning(pre, v) == Seq::<RelationId>::empty(),
        forall|w: VariableId| #[trigger] done.push(v).contains(w) <==> done.contains(w) || w == v,
    ensures
        partial_map(final(map)@, pre, done.push(v), id),
{
    let ghost m0 = map@;
    let mut ids: Vec<RelationId> = Vec::new();
    ids.push(id);
    proof {
        assert(ids@ == relations_mentioning(pre, v).push(id));
    }
    map.insert(p, (v, ids));
    proof {
        let m1 = map@;
        assert(m1 == m0.insert(p as int, (v, ids)));
        assert forall|a: int, b: int| 0 <= a < b < m1.len() implies (#[trigger] m1[a]).0.0 < (#[trigger] m1[b]).0.0 by {
            if b < p {
                assert(m1[a] == m0[a] && m1[b] == m0[b]);
            } else if b == p {
                assert(m1[a] == m0[a]);
            } else if a == p {
                assert(m1[b] == m0[b - 1]);
            } else if a < p {
                assert(m1[a] == m0[a] && m1[b] == m0[b - 1]);
            } else {
                assert(m1[a] == m0[a - 1] && m1[b] == m0[b - 1]);
            }
        }
        assert forall|k: int| 0 <= k < m1.len() implies (#[trigger] m1[k]).1@ == if done.push(v).contains(m1[k].0) {
            relations_mentioning(pre, m1[k].0).push(id)
        } else {
            relations_mentioning(pre, m1[k].0)
        } by {
            if k < p {
                assert(m1[k] == m0[k]);
                assert(m0[k].0 != v);
            } else if k > p {
                assert(m1[k] == m0[k - 1]);
                assert(m0[k - 1].0 != v);
            }
        }
        assert forall|w: VariableId| #[trigger] map_has_key(m1, w) == (some_relation_mentions(pre, w) || done.push(v).contains(w)) by {
            if map_has_key(m0, w) {
                let k = choose|k: int| 0 <= k < m0.len() && (#[trigger] m0[k]).0 == w;
                if k < p {
                    assert(m1[k] == m0[k]);
                } else {
                    assert(m1[k + 1] == m0[k]);
                }
            }
            if map_has_key(m1, w) {
                let k = choose|k: int| 0 <= k < m1.len() && (#[trigger] m1[k]).0 == w;
                if k < p {
                    assert(m1[k] == m0[k]);
                } else if k > p {
                    assert(m1[k] == m0[k - 1]);
                }
            }
            if w == v {
                assert(m1[p as int].0 == v);
            }
        }
    }
}

// ----- rational substitution -----

/// The largest exponent of `v` over the terms (as read from each term's first entry for `v`).
pub open spec fn max_variable_exponent(ts: Seq<crate::types::polynomial::TermQ>, v: VariableId) -> nat
    decreases ts.len(),
{
    if ts.len() == 0 {
        0
    } else {
        let e = crate::preprocess::saturation::first_exponent(ts.last().monomial.exponents@, v);
        let rest = max_variable_exponent(ts.drop_last(), v);
        if e >= rest {
            e
        } else {
            rest
        }
    }
}

proof fn lemma_max_exponent_bound(ts: Seq<crate::types::polynomial::TermQ>, v: VariableId, i: int)
    requires
        0 <= i < ts.len(),
    ensures
        crate::preprocess::saturation::first_exponent(ts[i].monomial.exponents@, v) <= max_variable_exponent(ts, v),
    decreases ts.len(),
{
    if i < ts.len() - 1 {
        lemma_max_exponent_bound(ts.drop_last(), v, i);
        assert(ts.drop_last()[i] == ts[i]);
    }
}

proof fn lemma_first_exponent_u32(e: Seq<(VariableId, u32)>, v: VariableId)
    ensures
        crate::preprocess::saturation::first_exponent(e, v) <= u32::MAX,
    decreases e.len(),
{
    if e.len() > 0 && e[0].0 != v {
        lemma_first_exponent_u32(e.drop_first(), v);
    }
}

proof fn lemma_max_exponent_u32(ts: Seq<crate::types::polynomial::TermQ>, v: VariableId)
    ensures
        max_variable_exponent(ts, v) <= u32::MAX,
    decreases ts.len(),
{
    if ts.len() > 0 {
        lemma_max_exponent_u32(ts.drop_last(), v);
        lemma_first_exponent_u32(ts.last().monomial.exponents@, v);
    }
}

/// The exponent of the first entry naming `variable` (0 when there is none).
fn variable_exponent(term: &crate::types::polynomial::TermQ, variable: VariableId) -> (e: u32)
    ensures
        e == crate::preprocess::saturation::first_exponent(term.monomial.exponents@, variable),
{
    crate::preprocess::saturation::first_exponent_exec(&term.monomial.exponents, variable)
}

/// The term with every entry for `variable` taken out, as a polynomial in normal form.
fn term_without_variable(term: &crate::types::polynomial::TermQ, variable: VariableId) -> (p: SparsePolynomialQ)
    requires
        term.coeff.den@ != 0,
    ensures
        is_normalization(
            p.terms@,
            seq![(term.coeff.num@, term.coeff.den@, crate::preprocess::saturation::entries_without(term.monomial.exponents@, variable))],
        ),
        p.hash.0@ == spec_hash_terms(p.terms@),
{
    let without = crate::preprocess::saturation::without_entries(&term.monomial.exponents, variable);
    let ghost w = without@;
    let mono = crate::types::monomial::normalize_monomial(without);
    let mut terms: Vec<crate::types::polynomial::TermQ> = Vec::new();
    terms.push(crate::types::polynomial::TermQ { coeff: crate::types::polynomial::copy_q(&term.coeff), monomial: mono });
    let ghost a = terms_view(terms@);
    let ghost b = seq![(term.coeff.num@, term.coeff.den@, w)];
    proof {
        assert(a.len() == 1);
        assert(a[0] == (term.coeff.num@, term.coeff.den@, mono.exponents@));
        crate::types::monomial::lemma_normal_form_of(mono.exponents@, w);
        crate::types::polynomial::lemma_normal_form_of_normal(mono.exponents@);
        assert(crate::types::polynomial::views_equivalent(a, b));
    }
    let h = hash::hash_sequence("poly", &[]);
    let p = crate::types::polynomial::normalize_poly(SparsePolynomialQ { terms, hash: h });
    proof {
        crate::types::polynomial::lemma_normalization_equivalent(p.terms@, a, b);
    }
    p
}

/// `q` is the image of term `t` when `v` becomes `num/den` and the result is multiplied by
/// `den` to the power `maxe`: the term without `v`, times `num` to the power of `v` in it,
/// times `den` to the remaining power, each product in normal form.
#[verifier::opaque]
pub open spec fn is_rational_term_image(
    q: Seq<crate::types::polynomial::TermQ>,
    t: crate::types::polynomial::TermQ,
    v: VariableId,
    nv: Seq<(int, int, Seq<(VariableId, u32)>)>,
    dv: Seq<(int, int, Seq<(VariableId, u32)>)>,
    maxe: nat,
) -> bool {
    let e = crate::preprocess::saturation::first_exponent(t.monomial.exponents@, v);
    exists|
        tw: Seq<crate::types::polynomial::TermQ>,
        pn: Seq<crate::types::polynomial::TermQ>,
        pd: Seq<crate::types::polynomial::TermQ>,
        pr: Seq<crate::types::polynomial::TermQ>,
    |
        #![trigger is_normalization(tw, seq![(t.coeff.num@, t.coeff.den@, crate::preprocess::saturation::entries_without(t.monomial.exponents@, v))]), crate::types::polynomial::is_power_of(pn, nv, e), crate::types::polynomial::is_power_of(pd, dv, sat_nat_sub(maxe, e)), is_normalization(q, crate::types::polynomial::product_view(terms_view(pr), terms_view(pd)))]
        is_normalization(
            tw,
            seq![(t.coeff.num@, t.coeff.den@, crate::preprocess::saturation::entries_without(t.monomial.exponents@, v))],
        ) && crate::types::polynomial::is_power_of(pn, nv, e) && crate::types::polynomial::is_power_of(pd, dv, sat_nat_sub(maxe, e))
            && is_normalization(pr, crate::types::polynomial::product_view(terms_view(tw), terms_view(pn))) && is_normalization(
            q,
            crate::types::polynomial::product_view(terms_view(pr), terms_view(pd)),
        )
}

pub open spec fn sat_nat_sub(a: nat, b: nat) -> nat {
    if a >= b {
        (a - b) as nat
    } else {
        0
    }
}

/// `r` is the sum of the term images of `ts`, each partial sum in normal form.
#[verifier::opaque]
pub open spec fn is_rational_sum(
    r: Seq<crate::types::polynomial::TermQ>,
    ts: Seq<crate::types::polynomial::TermQ>,
    v: VariableId,
    nv: Seq<(int, int, Seq<(VariableId, u32)>)>,
    dv: Seq<(int, int, Seq<(VariableId, u32)>)>,
    maxe: nat,
) -> bool
    decreases ts.len(),
{
    if ts.len() == 0 {
        r.len() == 0
    } else {
        exists|p: Seq<crate::types::polynomial::TermQ>, q: Seq<crate::types::polynomial::TermQ>|
            is_rational_sum(p, ts.drop_last(), v, nv, dv, maxe) && is_rational_term_image(q, ts.last(), v, nv, dv, maxe)
                && #[trigger] is_normalization(r, terms_view(p) + terms_view(q))
    }
}

/// `r` is `den^k · poly[v := num/den]` in normal form, `k` the largest power of `v` in `ts`.
pub open spec fn is_rational_substitution(
    r: Seq<crate::types::polynomial::TermQ>,
    ts: Seq<crate::types::polynomial::TermQ>,
    v: VariableId,
    nv: Seq<(int, int, Seq<(VariableId, u32)>)>,
    dv: Seq<(int, int, Seq<(VariableId, u32)>)>,
) -> bool {
    exists|acc: Seq<crate::types::polynomial::TermQ>|
        is_rational_sum(acc, ts, v, nv, dv, max_variable_exponent(ts, v)) && #[trigger] is_normalization(r, terms_view(acc))
}

/// One more term image added to a partial sum gives the sum over one more term.
proof fn lemma_rational_sum_step(
    r: Seq<crate::types::polynomial::TermQ>,
    p: Seq<crate::types::polynomial::TermQ>,
    q: Seq<crate::types::polynomial::TermQ>,
    ts: Seq<crate::types::polynomial::TermQ>,
    v: VariableId,
    nv: Seq<(int, int, Seq<(VariableId, u32)>)>,
    dv: Seq<(int, int, Seq<(VariableId, u32)>)>,
    maxe: nat,
)
    requires
        ts.len() > 0,
        is_rational_sum(p, ts.drop_last(), v, nv, dv, maxe),
        is_rational_term_image(q, ts.last(), v, nv, dv, maxe),
        is_normalization(r, terms_view(p) + terms_view(q)),
    ensures
        is_rational_sum(r, ts, v, nv, dv, maxe),
{
    reveal(is_rational_sum);
}

/// The empty sum is the empty polynomial.
proof fn lemma_rational_sum_empty(
    r: Seq<crate::types::polynomial::TermQ>,
    ts: Seq<crate::types::polynomial::TermQ>,
    v: VariableId,
    nv: Seq<(int, int, Seq<(VariableId, u32)>)>,
    dv: Seq<(int, int, Seq<(VariableId, u32)>)>,
    maxe: nat,
)
    requires
        ts.len() == 0,
        r.len() == 0,
    ensures
        is_rational_sum(r, ts, v, nv, dv, maxe),
{
    reveal(is_rational_sum);
}

/// The pieces computed for one term make up its image.
proof fn lemma_rational_term_image_intro(
    q: Seq<crate::types::polynomial::TermQ>,
    t: crate::types::polynomial::TermQ,
    v: VariableId,
    nv: Seq<(int, int, Seq<(VariableId, u32)>)>,
    dv: Seq<(int, int, Seq<(VariableId, u32)>)>,
    maxe: nat,
    tw: Seq<crate::types::polynomial::TermQ>,
    pn: Seq<crate::types::polynomial::TermQ>,
    pd: Seq<crate::types::polynomial::TermQ>,
    pr: Seq<crate::types::polynomial::TermQ>,
)
    requires
        is_normalization(
            tw,
            seq![(t.coeff.num@, t.coeff.den@, crate::preprocess::saturation::entries_without(t.monomial.exponents@, v))],
        ),
        crate::types::polynomial::is_power_of(pn, nv, crate::preprocess::saturation::first_exponent(t.monomial.exponents@, v)),
        crate::types::polynomial::is_power_of(
            pd,
            dv,
            sat_nat_sub(maxe, crate::preprocess::saturation::first_exponent(t.monomial.exponents@, v)),
        ),
        is_normalization(pr, crate::types::polynomial::product_view(terms_view(tw), terms_view(pn))),
        is_normalization(q, crate::types::polynomial::product_view(terms_view(pr), terms_view(pd))),
    ensures
        is_rational_term_image(q, t, v, nv, dv, maxe),
{
    reveal(is_rational_term_image);
}

/// `poly` with `variable` replaced by `numerator / denominator`, multiplied through by
/// `denominator` to the largest power of `variable`, in normal form, with that power.
pub fn substitute_rational_and_clear_with_power(
    poly: &SparsePolynomialQ,
    variable: VariableId,
    numerator: &SparsePolynomialQ,
    denominator: &SparsePolynomialQ,
) -> (r: (SparsePolynomialQ, u32))
    requires
        coeffs_well_formed(terms_view(poly.terms@)),
        coeffs_well_formed(terms_view(numerator.terms@)),
        coeffs_well_formed(terms_view(denominator.terms@)),
    ensures
        r.1 == max_variable_exponent(poly.terms@, variable),
        is_normal_poly(r.0),
        is_rational_substitution(r.0.terms@, poly.terms@, variable, terms_view(numerator.terms@), terms_view(denominator.terms@)),
        poly.terms@.len() == 0 ==> r.0.terms@.len() == 0,
{
    let n = poly.terms.len();
    let mut max_exp: u32 = 0;
    for i in 0..n
        invariant
            n == poly.terms@.len(),
            max_exp == max_variable_exponent(poly.terms@.take(i as int), variable),
    {
        proof {
            assert(poly.terms@.take(i + 1).drop_last() == poly.terms@.take(i as int));
            assert(poly.terms@.take(i + 1).last() == poly.terms@[i as int]);
        }
        let e = variable_exponent(&poly.terms[i], variable);
        if e >= max_exp {
            max_exp = e;
        }
    }
    proof {
        assert(poly.terms@.take(n as int) == poly.terms@);
    }
    let mut acc = crate::types::polynomial::zero_poly();
    proof {
        lemma_rational_sum_empty(
            acc.terms@,
            poly.terms@.take(0),
            variable,
            terms_view(numerator.terms@),
            terms_view(denominator.terms@),
            max_exp as nat,
        );
    }
    for i in 0..n
        invariant
            n == poly.terms@.len(),
            coeffs_well_formed(terms_view(poly.terms@)),
            coeffs_well_formed(terms_view(numerator.terms@)),
            coeffs_well_formed(terms_view(denominator.terms@)),
            max_exp == max_variable_exponent(poly.terms@, variable),
            coeffs_well_formed(terms_view(acc.terms@)),
            is_rational_sum(acc.terms@, poly.terms@.take(i as int), variable, terms_view(numerator.terms@), terms_view(denominator.terms@), max_exp as nat),
            i == 0 ==> acc.terms@.len() == 0,
    {
        let term = &poly.terms[i];
        proof {
            assert(terms_view(poly.terms@)[i as int].1 == term.coeff.den@);
            lemma_max_exponent_bound(poly.terms@, variable, i as int);
        }
        let exp = variable_exponent(term, variable);
        let without_variable = term_without_variable(term, variable);
        let numerator_part = crate::types::polynomial::poly_pow(numerator, exp);
        let denominator_part = crate::types::polynomial::poly_pow(denominator, max_exp - exp);
        proof {
            lemma_normal_poly_well_formed(numerator_part);
            lemma_normal_poly_well_formed(denominator_part);
            crate::problem::canonicalize::lemma_normalization_well_formed(
                without_variable.terms@,
                seq![(term.coeff.num@, term.coeff.den@, crate::preprocess::saturation::entries_without(term.monomial.exponents@, variable))],
            );
        }
        let partial = crate::types::polynomial::poly_mul(&without_variable, &numerator_part);
        proof {
            crate::problem::canonicalize::lemma_normalization_well_formed(
                partial.terms@,
                crate::types::polynomial::product_view(terms_view(without_variable.terms@), terms_view(numerator_part.terms@)),
            );
        }
        let transformed_term = crate::types::polynomial::poly_mul(&partial, &denominator_part);
        proof {
            crate::problem::canonicalize::lemma_normalization_well_formed(
                transformed_term.terms@,
                crate::types::polynomial::product_view(terms_view(partial.terms@), terms_view(denominator_part.terms@)),
            );
        }
        let ghost prev = terms_view(acc.terms@);
        let ghost prev_terms = acc.terms@;
        acc = crate::types::polynomial::poly_add(&acc, &transformed_term);
        proof {
            crate::problem::canonicalize::lemma_normalization_well_formed(acc.terms@, prev + terms_view(transformed_term.terms@));
            let nv = terms_view(numerator.terms@);
            let dv = terms_view(denominator.terms@);
            let t1 = poly.terms@.take(i + 1);
            assert(t1.drop_last() == poly.terms@.take(i as int));
            assert(t1.last() == *term);
            assert(sat_nat_sub(max_exp as nat, exp as nat) == (max_exp - exp) as nat);
            lemma_rational_term_image_intro(
                transformed_term.terms@, *term, variable, nv, dv, max_exp as nat,
                without_variable.terms@, numerator_part.terms@, denominator_part.terms@, partial.terms@,
            );
            lemma_rational_sum_step(acc.terms@, prev_terms, transformed_term.terms@, t1, variable, nv, dv, max_exp as nat);
        }
    }
    let result = crate::types::polynomial::normalize_poly(acc);
    proof {
        assert(poly.terms@.take(n as int) == poly.terms@);
        assert(is_rational_substitution(result.terms@, poly.terms@, variable, terms_view(numerator.terms@), terms_view(denominator.terms@)));
        lemma_normal_poly_of(result, terms_view(acc.terms@));
        if n == 0 {
            crate::problem::canonicalize::lemma_normalization_empty(result.terms@, terms_view(acc.terms@));
        }
    }
    (result, max_exp)
}

/// `poly` with `variable` replaced by `numerator / denominator`, denominators cleared.
pub fn substitute_rational_and_clear(
    poly: &SparsePolynomialQ,
    variable: VariableId,
    numerator: &SparsePolynomialQ,
    denominator: &SparsePolynomialQ,
) -> (r: SparsePolynomialQ)
    requires
        coeffs_well_formed(terms_view(poly.terms@)),
        coeffs_well_formed(terms_view(numerator.terms@)),
        coeffs_well_formed(terms_view(denominator.terms@)),
    ensures
        is_normal_poly(r),
        is_rational_substitution(r.terms@, poly.terms@, variable, terms_view(numerator.terms@), terms_view(denominator.terms@)),
        poly.terms@.len() == 0 ==> r.terms@.len() == 0,
{
    substitute_rational_and_clear_with_power(poly, variable, numerator, denominator).0
}

/// `p` is the primitive integer form of the primitive integer form of
/// `den^k · ts[v := num/den]` (the substitution followed by the two clearings the rewrite makes).
pub open spec fn is_cleared_rational_image(
    p: Seq<crate::types::polynomial::TermQ>,
    ts: Seq<crate::types::polynomial::TermQ>,
    v: VariableId,
    nv: Seq<(int, int, Seq<(VariableId, u32)>)>,
    dv: Seq<(int, int, Seq<(VariableId, u32)>)>,
) -> bool {
    exists|raw: Seq<crate::types::polynomial::TermQ>, tr: Seq<crate::types::polynomial::TermQ>|
        #![trigger is_rational_substitution(raw, ts, v, nv, dv), is_normalization(tr, cleared_view(terms_view(raw)))]
        is_rational_substitution(raw, ts, v, nv, dv) && is_normalization(tr, cleared_view(terms_view(raw)))
            && is_normalization(p, cleared_view(terms_view(tr)))
}

/// The substitution of `v` by `num/den` in `ts`, cleared, is the zero polynomial.
#[verifier::opaque]
pub open spec fn rational_image_vanishes(
    ts: Seq<crate::types::polynomial::TermQ>,
    v: VariableId,
    nv: Seq<(int, int, Seq<(VariableId, u32)>)>,
    dv: Seq<(int, int, Seq<(VariableId, u32)>)>,
) -> bool {
    exists|raw: Seq<crate::types::polynomial::TermQ>, tr: Seq<crate::types::polynomial::TermQ>|
        #![trigger is_rational_substitution(raw, ts, v, nv, dv), is_normalization(tr, cleared_view(terms_view(raw)))]
        is_rational_substitution(raw, ts, v, nv, dv) && is_normalization(tr, cleared_view(terms_view(raw)))
            && tr.len() == 0
}

/// The computed substitution and clearings witness the cleared image.
proof fn lemma_cleared_image_intro(
    p: Seq<crate::types::polynomial::TermQ>,
    raw: Seq<crate::types::polynomial::TermQ>,
    tr: Seq<crate::types::polynomial::TermQ>,
    ts: Seq<crate::types::polynomial::TermQ>,
    v: VariableId,
    nv: Seq<(int, int, Seq<(VariableId, u32)>)>,
    dv: Seq<(int, int, Seq<(VariableId, u32)>)>,
)
    requires
        is_rational_substitution(raw, ts, v, nv, dv),
        is_normalization(tr, cleared_view(terms_view(raw))),
    ensures
        is_normalization(p, cleared_view(terms_view(tr))) ==> is_cleared_rational_image(p, ts, v, nv, dv),
        tr.len() == 0 ==> rational_image_vanishes(ts, v, nv, dv),
{
    reveal(is_cleared_rational_image);
    reveal(rational_image_vanishes);
}

/// Some entry of `idx` is `j`.
pub open spec fn index_listed(idx: Seq<int>, j: int) -> bool {
    exists|k: int| 0 <= k < idx.len() && #[trigger] idx[k] == j
}

/// `c` certifies that relation `r` is `before` under the rational substitution of `v`.
pub open spec fn is_transformation_of(
    c: RationalAffineTransformationCertificate,
    r: CanonicalRelationQ,
    before: CanonicalRelationQ,
    source: RelationId,
    v: VariableId,
    numerator: SparsePolynomialQ,
    denominator: SparsePolynomialQ,
    guard: GuardRecord,
    witnesses: Seq<RelationId>,
) -> bool {
    &&& c.original_relation_id == r.id
    &&& c.transformed_relation_id == r.id
    &&& c.pivot_relation_id == source
    &&& c.eliminated_variable == v
    &&& poly_view(c.numerator) == poly_view(numerator)
    &&& poly_view(c.denominator) == poly_view(denominator)
    &&& c.denominator_clearing_power == max_variable_exponent(before.polynomial.terms@, v)
    &&& same_guard(c.denominator_guard, guard)
    &&& c.source_witness_relation_ids@ == witnesses
    &&& c.original_relation_hash == before.hash
    &&& c.transformed_relation_hash == r.hash
    &&& c.transformation_hash.0@ == spec_transformation_hash(c)
    &&& is_cleared_rational_image(
        r.polynomial.terms@,
        before.polynomial.terms@,
        v,
        terms_view(numerator.terms@),
        terms_view(denominator.terms@),
    )
}

/// `out` keeps, in order, the relations of `before` other than `source` whose rewritten form
/// is nonzero, each rewritten, and `certs` holds one certificate per kept relation.
pub open spec fn is_rational_rewrite(
    out: Seq<CanonicalRelationQ>,
    certs: Seq<RationalAffineTransformationCertificate>,
    before: Seq<CanonicalRelationQ>,
    source: RelationId,
    v: VariableId,
    numerator: SparsePolynomialQ,
    denominator: SparsePolynomialQ,
    guard: GuardRecord,
    witnesses: Seq<RelationId>,
) -> bool {
    exists|idx: Seq<int>|
        #[trigger] is_rewrite_map(out, before, source, idx) && certs.len() == out.len() && forall|k: int|
            0 <= k < out.len() ==> is_transformation_of(
                #[trigger] certs[k],
                out[k],
                before[idx[k]],
                source,
                v,
                numerator,
                denominator,
                guard,
                witnesses,
            ) && forall|j: int|
            0 <= j < before.len() && before[j].id != source && !index_listed(idx, j) ==> rational_image_vanishes(
                #[trigger] before[j].polynomial.terms@,
                v,
                terms_view(numerator.terms@),
                terms_view(denominator.terms@),
            )
}

impl CompressionState {
    /// Replaces `eliminated_variable` by `numerator / denominator` in every relation but the
    /// source one, clearing the denominator; each nonzero result is kept in primitive integer
    /// form and certified.
    #[verifier::spinoff_prover]
    #[verifier::rlimit(60)]
    pub fn apply_rational_affine_substitution(
        &mut self,
        eliminated_variable: VariableId,
        numerator: &SparsePolynomialQ,
        denominator: &SparsePolynomialQ,
        source_relation_id: RelationId,
        denominator_guard: GuardRecord,
        source_witness_relation_ids: Vec<RelationId>,
    )
        requires
            coeffs_well_formed(terms_view(numerator.terms@)),
            coeffs_well_formed(terms_view(denominator.terms@)),
            relations_well_formed(old(self).relations@),
        ensures
            is_rational_rewrite(
                final(self).relations@,
                final(self).rational_affine_transformations@.skip(old(self).rational_affine_transformations@.len() as int),
                old(self).relations@,
                source_relation_id,
                eliminated_variable,
                *numerator,
                *denominator,
                denominator_guard,
                source_witness_relation_ids@,
            ),
            final(self).rational_affine_transformations@.take(old(self).rational_affine_transformations@.len() as int)
                == old(self).rational_affine_transformations@,
            old(self).rational_affine_transformations@.len() <= final(self).rational_affine_transformations@.len(),
            relations_well_formed(final(self).relations@),
            final(self).relations@.len() <= old(self).relations@.len(),
            final(self).relation_order@ == relation_ids_of(final(self).relations@),
            final(self).variables == old(self).variables,
            final(self).target == old(self).target,
            final(self).semantic_encodings == old(self).semantic_encodings,
            final(self).substitutions == old(self).substitutions,
            final(self).guards == old(self).guards,
            final(self).saturations == old(self).saturations,
            final(self).feasibility_obligations == old(self).feasibility_obligations,
            final(self).trace == old(self).trace,
    {
        let ghost before = self.relations@;
        let mut out: Vec<CanonicalRelationQ> = Vec::new();
        let mut certs: Vec<RationalAffineTransformationCertificate> = Vec::new();
        let ghost mut idx: Seq<int> = Seq::empty();
        let n = self.relations.len();
        for i in 0..n
            invariant
                n == before.len(),
                before == self.relations@,
                relations_well_formed(before),
                coeffs_well_formed(terms_view(numerator.terms@)),
                coeffs_well_formed(terms_view(denominator.terms@)),
                is_rewrite_map(out@, before, source_relation_id, idx),
                forall|k: int| 0 <= k < idx.len() ==> idx[k] < i,
                forall|j: int|
                    0 <= j < i && before[j].id != source_relation_id && !index_listed(idx, j) ==> rational_image_vanishes(
                        #[trigger] before[j].polynomial.terms@,
                        eliminated_variable,
                        terms_view(numerator.terms@),
                        terms_view(denominator.terms@),
                    ),
                relations_well_formed(out@),
                certs@.len() == out@.len(),
                forall|k: int|
                    0 <= k < out@.len() ==> is_transformation_of(
                        #[trigger] certs@[k],
                        out@[k],
                        before[idx[k]],
                        source_relation_id,
                        eliminated_variable,
                        *numerator,
                        *denominator,
                        denominator_guard,
                        source_witness_relation_ids@,
                    ),
        {
            let ghost idx0 = idx;
            let relation = &self.relations[i];
            if relation.id != source_relation_id {
                let (raw, power) = substitute_rational_and_clear_with_power(
                    &relation.polynomial,
                    eliminated_variable,
                    numerator,
                    denominator,
                );
                proof {
                    lemma_normal_poly_well_formed(raw);
                }
                let transformed = clear_denominators_primitive(&raw);
                if transformed.terms.len() > 0 {
                    proof {
                        lemma_normal_poly_of(transformed, cleared_view(terms_view(raw.terms@)));
                    }
                    let r = relation_with_polynomial(relation.id, transformed, relation.source);
                    let cert = rational_affine_transformation_certificate(
                        relation.id,
                        relation.id,
                        source_relation_id,
                        eliminated_variable,
                        copy_poly(numerator),
                        copy_poly(denominator),
                        power,
                        copy_guard(&denominator_guard),
                        copy_relation_ids(&source_witness_relation_ids),
                        relation.hash,
                        r.hash,
                    );
                    proof {
                        lemma_normal_poly_of(r.polynomial, cleared_view(terms_view(transformed.terms@)));
                        lemma_cleared_image_intro(
                            r.polynomial.terms@,
                            raw.terms@,
                            transformed.terms@,
                            relation.polynomial.terms@,
                            eliminated_variable,
                            terms_view(numerator.terms@),
                            terms_view(denominator.terms@),
                        );
                        idx = idx.push(i as int);
                        assert(idx[idx.len() - 1] == i as int);
                        assert(index_listed(idx, i as int));
                    }
                    let ghost old_certs = certs@;
                    let ghost old_out = out@;
                    out.push(r);
                    certs.push(cert);
                    proof {
                        assert forall|k: int|
                            0 <= k < out@.len() implies is_transformation_of(
                            #[trigger] certs@[k],
                            out@[k],
                            before[idx[k]],
                            source_relation_id,
                            eliminated_variable,
                            *numerator,
                            *denominator,
                            denominator_guard,
                            source_witness_relation_ids@,
                        ) by {
                            if k < old_out.len() {
                                assert(certs@[k] == old_certs[k]);
                                assert(out@[k] == old_out[k]);
                            }
                        }
                    }
                } else {
                    proof {
                        lemma_cleared_image_intro(
                            transformed.terms@,
                            raw.terms@,
                            transformed.terms@,
                            relation.polynomial.terms@,
                            eliminated_variable,
                            terms_view(numerator.terms@),
                            terms_view(denominator.terms@),
                        );
                    }
                }
            }
            proof {
                assert forall|j: int|
                    0 <= j < i + 1 && before[j].id != source_relation_id && !index_listed(idx, j) implies rational_image_vanishes(
                    #[trigger] before[j].polynomial.terms@,
                    eliminated_variable,
                    terms_view(numerator.terms@),
                    terms_view(denominator.terms@),
                ) by {
                    if j < i && index_listed(idx0, j) {
                        let k = choose|k: int| 0 <= k < idx0.len() && #[trigger] idx0[k] == j;
                        assert(idx[k] == j);
                    }
                }
            }
        }
        proof {
            lemma_rewrite_len(out@, before, source_relation_id, idx);
        }
        let ghost c0 = self.rational_affine_transformations@;
        self.relations = out;
        self.relation_order = collect_relation_ids(&self.relations);
        let ghost added = certs@;
        self.rational_affine_transformations.append(&mut certs);
        proof {
            assert(self.rational_affine_transformations@ == c0 + added);
            assert(self.rational_affine_transformations@.skip(c0.len() as int) == added);
            assert(self.rational_affine_transformations@.take(c0.len() as int) == c0);
            assert(is_rewrite_map(self.relations@, before, source_relation_id, idx));
        }
    }
}

// ----- size measures -----

/// The total number of terms over the relations.
pub open spec fn spec_total_monomial_count(rs: Seq<CanonicalRelationQ>) -> nat
    decreases rs.len(),
{
    if rs.len() == 0 {
        0
    } else {
        spec_total_monomial_count(rs.drop_last()) + rs.last().polynomial.terms@.len()
    }
}

/// The sum of the relations' term counts.
pub fn total_monomial_count(relations: &[CanonicalRelationQ]) -> (n: usize)
    requires
        spec_total_monomial_count(relations@) <= usize::MAX,
    ensures
        n == spec_total_monomial_count(relations@),
{
    let mut total: usize = 0;
    let k = relations.len();
    for i in 0..k
        invariant
            k == relations@.len(),
            spec_total_monomial_count(relations@) <= usize::MAX,
            total == spec_total_monomial_count(relations@.take(i as int)),
    {
        proof {
            assert(relations@.take(i + 1).drop_last() == relations@.take(i as int));
            assert(relations@.take(i + 1).last() == relations@[i as int]);
            lemma_total_count_prefix(relations@, i + 1);
        }
        total = total + crate::types::polynomial::poly_monomial_count(&relations[i].polynomial);
    }
    proof {
        assert(relations@.take(k as int) == relations@);
    }
    total
}

proof fn lemma_total_count_prefix(rs: Seq<CanonicalRelationQ>, k: int)
    requires
        0 <= k <= rs.len(),
    ensures
        spec_total_monomial_count(rs.take(k)) <= spec_total_monomial_count(rs),
    decreases rs.len() - k,
{
    if k < rs.len() {
        lemma_total_count_prefix(rs, k + 1);
        assert(rs.take(k + 1).drop_last() == rs.take(k));
    } else {
        assert(rs.take(k) == rs);
    }
}

/// The largest total degree over the relations (0 for none).
pub open spec fn spec_max_total_degree(rs: Seq<CanonicalRelationQ>) -> nat
    decreases rs.len(),
{
    if rs.len() == 0 {
        0
    } else {
        let d = crate::types::polynomial::spec_total_degree(rs.last().polynomial.terms@);
        let rest = spec_max_total_degree(rs.drop_last());
        if d >= rest {
            d
        } else {
            rest
        }
    }
}

/// The largest total degree of a relation.
pub fn max_total_degree(relations: &[CanonicalRelationQ]) -> (d: usize)
    requires
        forall|i: int| 0 <= i < relations@.len() ==> crate::types::polynomial::degrees_fit_u32(#[trigger] relations@[i].polynomial.terms@),
    ensures
        d == spec_max_total_degree(relations@),
{
    let mut best: usize = 0;
    let k = relations.len();
    for i in 0..k
        invariant
            k == relations@.len(),
            forall|j: int| 0 <= j < relations@.len() ==> crate::types::polynomial::degrees_fit_u32(#[trigger] relations@[j].polynomial.terms@),
            best == spec_max_total_degree(relations@.take(i as int)),
            best <= u32::MAX,
    {
        proof {
            assert(relations@.take(i + 1).drop_last() == relations@.take(i as int));
            assert(relations@.take(i + 1).last() == relations@[i as int]);
        }
        let d = crate::types::polynomial::poly_total_degree(&relations[i].polynomial) as usize;
        if d >= best {
            best = d;
        }
    }
    proof {
        assert(relations@.take(k as int) == relations@);
    }
    best
}

// ----- affine parts -----

/// Every term has exponent at most 1 in `v`.
pub open spec fn affine_shape(ts: Seq<crate::types::polynomial::TermQ>, v: VariableId) -> bool {
    forall|i: int| 0 <= i < ts.len() ==> crate::preprocess::saturation::first_exponent(
        crate::types::polynomial::term_monomial(#[trigger] ts[i]),
        v,
    ) <= 1
}

/// The terms free of `v`.
pub open spec fn free_view(ts: Seq<crate::types::polynomial::TermQ>, v: VariableId) -> Seq<(int, int, Seq<(VariableId, u32)>)>
    decreases ts.len(),
{
    if ts.len() == 0 {
        Seq::empty()
    } else {
        let r = free_view(ts.drop_last(), v);
        let t = ts.last();
        if crate::preprocess::saturation::first_exponent(crate::types::polynomial::term_monomial(t), v) == 0 {
            r.push(crate::types::polynomial::term_view(t))
        } else {
            r
        }
    }
}

/// Appending the coefficient of a term linear in `variable` keeps the coefficient list
/// equivalent to the linear part.
proof fn lemma_linear_view_step(
    old_terms: Seq<crate::types::polynomial::TermQ>,
    new_terms: Seq<crate::types::polynomial::TermQ>,
    pre: Seq<crate::types::polynomial::TermQ>,
    post: Seq<crate::types::polynomial::TermQ>,
    variable: VariableId,
)
    requires
        post.len() > 0,
        post.drop_last() == pre,
        new_terms.len() == old_terms.len() + 1,
        new_terms.drop_last() == old_terms,
        crate::types::polynomial::views_equivalent(
            terms_view(old_terms),
            crate::preprocess::saturation::linear_view(pre, variable),
        ),
        crate::preprocess::saturation::first_exponent(crate::types::polynomial::term_monomial(post.last()), variable) == 1,
        new_terms.last().coeff.num@ == post.last().coeff.num@,
        new_terms.last().coeff.den@ == post.last().coeff.den@,
        post.last().coeff.den@ != 0,
        crate::types::monomial::normal_form(new_terms.last().monomial.exponents@) == crate::types::monomial::normal_form(
            crate::preprocess::saturation::entries_without(crate::types::polynomial::term_monomial(post.last()), variable),
        ),
    ensures
        crate::types::polynomial::views_equivalent(
            terms_view(new_terms),
            crate::preprocess::saturation::linear_view(post, variable),
        ),
{
    let t = post.last();
    let a = terms_view(new_terms);
    let b = crate::preprocess::saturation::linear_view(post, variable);
    let lp = crate::preprocess::saturation::linear_view(pre, variable);
    assert(b == lp.push(
        (t.coeff.num@, t.coeff.den@, crate::preprocess::saturation::entries_without(crate::types::polynomial::term_monomial(t), variable)),
    ));
    assert forall|j: int| 0 <= j < a.len() implies {
        &&& crate::types::monomial::normal_form((#[trigger] a[j]).2) == crate::types::monomial::normal_form(b[j].2)
        &&& a[j].1 != 0
        &&& b[j].1 != 0
        &&& crate::types::rational::same_ratio(a[j].0, a[j].1, b[j].0, b[j].1)
    } by {
        if j < a.len() - 1 {
            assert(a[j] == terms_view(old_terms)[j]);
            assert(b[j] == lp[j]);
        } else {
            assert(a[j] == crate::types::polynomial::term_view(new_terms.last()));
        }
    }
}

/// `poly` as `coefficient * v + rest` with `coefficient` nonzero and both free of `v`; `None`
/// when some term has a higher power of `v`, or the coefficient is zero.
#[verifier::spinoff_prover]
pub fn affine_parts_in_variable(poly: &SparsePolynomialQ, variable: VariableId) -> (r: Option<(SparsePolynomialQ, SparsePolynomialQ)>)
    requires
        coeffs_well_formed(terms_view(poly.terms@)),
    ensures
        r is None <==> !affine_shape(poly.terms@, variable) || crate::problem::canonicalize::view_is_zero(
            crate::preprocess::saturation::linear_view(poly.terms@, variable),
        ),
        r matches Some((c, rest)) ==> is_normalization(c.terms@, crate::preprocess::saturation::linear_view(poly.terms@, variable))
            && c.hash.0@ == spec_hash_terms(c.terms@) && is_normalization(rest.terms@, free_view(poly.terms@, variable))
            && rest.hash.0@ == spec_hash_terms(rest.terms@),
{
    let ts = &poly.terms;
    let n = ts.len();
    let mut coefficient_terms: Vec<crate::types::polynomial::TermQ> = Vec::new();
    let mut rest_terms: Vec<crate::types::polynomial::TermQ> = Vec::new();
    for i in 0..n
        invariant
            n == ts@.len(),
            ts@ == poly.terms@,
            coeffs_well_formed(terms_view(ts@)),
            affine_shape(ts@.take(i as int), variable),
            crate::types::polynomial::views_equivalent(
                terms_view(coefficient_terms@),
                crate::preprocess::saturation::linear_view(ts@.take(i as int), variable),
            ),
            terms_view(rest_terms@) == free_view(ts@.take(i as int), variable),
    {
        let t = &ts[i];
        let e = crate::preprocess::saturation::first_exponent_exec(&t.monomial.exponents, variable);
        let ghost pre = ts@.take(i as int);
        let ghost post = ts@.take(i + 1);
        proof {
            assert(post.drop_last() == pre);
            assert(post.last() == ts@[i as int]);
            assert(terms_view(ts@)[i as int].1 == t.coeff.den@);
        }
        if e == 0 {
            let ghost old_rest = rest_terms@;
            rest_terms.push(crate::types::polynomial::copy_term(t));
            proof {
                assert(terms_view(rest_terms@) =~= terms_view(old_rest).push(crate::types::polynomial::term_view(*t)));
                assert(crate::preprocess::saturation::linear_view(post, variable) == crate::preprocess::saturation::linear_view(pre, variable));
                assert forall|j: int| 0 <= j < post.len() implies crate::preprocess::saturation::first_exponent(
                    crate::types::polynomial::term_monomial(#[trigger] post[j]),
                    variable,
                ) <= 1 by {
                    if j < pre.len() {
                        assert(post[j] == pre[j]);
                    }
                }
            }
        } else if e == 1 {
            let without = crate::preprocess::saturation::without_entries(&t.monomial.exponents, variable);
            let ghost w = without@;
            let mono = crate::types::monomial::normalize_monomial(without);
            let ghost old_terms = coefficient_terms@;
            coefficient_terms.push(crate::types::polynomial::TermQ { coeff: crate::types::polynomial::copy_q(&t.coeff), monomial: mono });
            proof {
                crate::types::monomial::lemma_normal_form_of(mono.exponents@, w);
                crate::types::polynomial::lemma_normal_form_of_normal(mono.exponents@);
                assert(coefficient_terms@.drop_last() == old_terms);
                lemma_linear_view_step(old_terms, coefficient_terms@, pre, post, variable);
                assert(free_view(post, variable) == free_view(pre, variable));
                assert forall|j: int| 0 <= j < post.len() implies crate::preprocess::saturation::first_exponent(
                    crate::types::polynomial::term_monomial(#[trigger] post[j]),
                    variable,
                ) <= 1 by {
                    if j < pre.len() {
                        assert(post[j] == pre[j]);
                    }
                }
            }
        } else {
            proof {
                assert(!affine_shape(ts@, variable)) by {
                    assert(crate::preprocess::saturation::first_exponent(crate::types::polynomial::term_monomial(ts@[i as int]), variable) > 1);
                }
            }
            return None;
        }
    }
    proof {
        assert(ts@.take(n as int) == ts@);
        assert forall|j: int| 0 <= j < terms_view(coefficient_terms@).len() implies (#[trigger] terms_view(coefficient_terms@)[j]).1 != 0 by {}
        assert forall|j: int| 0 <= j < crate::preprocess::saturation::linear_view(ts@, variable).len() implies (#[trigger] crate::preprocess::saturation::linear_view(ts@, variable)[j]).1 != 0 by {
            assert(terms_view(coefficient_terms@)[j].1 != 0);
        }
        assert forall|j: int| 0 <= j < terms_view(rest_terms@).len() implies (#[trigger] terms_view(rest_terms@)[j]).1 != 0 by {
            lemma_free_view_well_formed(ts@, variable, j);
        }
    }
    let h1 = hash_sequence("poly", &[]);
    let coefficient = crate::types::polynomial::normalize_poly(SparsePolynomialQ { terms: coefficient_terms, hash: h1 });
    proof {
        crate::types::polynomial::lemma_normalization_equivalent(
            coefficient.terms@,
            terms_view(coefficient_terms@),
            crate::preprocess::saturation::linear_view(ts@, variable),
        );
        crate::problem::canonicalize::lemma_normalization_empty(coefficient.terms@, crate::preprocess::saturation::linear_view(ts@, variable));
    }
    if coefficient.terms.len() == 0 {
        return None;
    }
    let h2 = hash_sequence("poly", &[]);
    let rest = crate::types::polynomial::normalize_poly(SparsePolynomialQ { terms: rest_terms, hash: h2 });
    Some((coefficient, rest))
}

proof fn lemma_free_view_well_formed(ts: Seq<crate::types::polynomial::TermQ>, v: VariableId, j: int)
    requires
        coeffs_well_formed(terms_view(ts)),
        0 <= j < free_view(ts, v).len(),
    ensures
        free_view(ts, v)[j].1 != 0,
    decreases ts.len(),
{
    let d = ts.drop_last();
    assert(coeffs_well_formed(terms_view(d))) by {
        assert forall|k: int| 0 <= k < terms_view(d).len() implies (#[trigger] terms_view(d)[k]).1 != 0 by {
            assert(terms_view(d)[k] == terms_view(ts)[k]);
        }
    }
    if j < free_view(d, v).len() {
        lemma_free_view_well_formed(d, v, j);
    } else {
        assert(terms_view(ts)[ts.len() - 1].1 != 0);
    }
}

} // verus!
