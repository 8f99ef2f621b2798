//! Declared kernel plans: the execution plans of a block's ladder and their hashes.
use vstd::prelude::*;
use vstd::string::StringSliceAdditionalSpecFns;
use vstd::utf8::encode_utf8;

use crate::planner::admission::KernelAdmission;
use crate::planner::algebraic_cost::{is_budget_for, is_conservative_shape, AlgebraicWorkEstimate, RouteBudget};
use crate::types::arith::clamp_usize;
use crate::planner::cost_model::KernelCostEstimate;
use crate::planner::kernel_kind::{kernel_kind_label, kernel_kind_name, KernelKind};
use crate::planner::relation_schedule::{
    hash_dense_relation_search_schedule, spec_hash_dense_relation_search_schedule,
    DenseRelationSearchSchedule,
};
use crate::result::status::{
    implementation_bug, solver_status_label, solver_status_name, spec_public_status, FailureKind, SolverError,
    SolverErrorKind, SolverStatus,
};
use crate::types::bytes::{be_bytes, u32_be, u64_be, usize_be};
use crate::types::chunks::{
    block_chunks, hash_chunks, push_block_chunks, push_chunk, push_hash_chunks,
    push_relation_chunks, push_variable_chunks, relation_chunks, variable_chunks,
};
use crate::types::hash::{self, chunk_views, hash_eq, hash_sequence, hash_to_vec, spec_hash_sequence};
use crate::types::ids::{BlockId, KernelPlanId, RelationId, VariableId};
use crate::types::text::str_bytes;

verus! {

#[derive(Debug, Clone, PartialEq, Eq)]
pub struct KernelPlan {
    pub block_id: BlockId,
    pub declared_ladder: Vec<KernelExecutionPlan>,
    pub selected_first: KernelKind,
    pub admissions: Vec<KernelAdmission>,
    pub cost_estimates: Vec<KernelCostEstimate>,
    pub plan_hash: hash::Hash,
}

#[derive(Debug, Clone, PartialEq, Eq)]
pub struct KernelExecutionPlan {
    pub plan_id: KernelPlanId,
    pub block_id: BlockId,
    pub kernel_kind: KernelKind,
    pub input_block_authorization_hash: hash::Hash,
    pub source_relation_ids: Vec<RelationId>,
    pub source_relation_hashes: Vec<hash::Hash>,
    pub child_block_ids: Vec<BlockId>,
    pub child_message_hashes: Vec<hash::Hash>,
    pub exported_variables: Vec<VariableId>,
    pub eliminated_variables: Vec<VariableId>,
    pub support_plan: KernelSupportPlan,
    pub resource_bounds: ResourceBounds,
    pub algebraic_work_estimate: AlgebraicWorkEstimate,
    pub route_budget: RouteBudget,
    pub certificate_route: CertificateRoute,
    pub failure_behavior: PlannedFailureBehavior,
    pub plan_work_classification: PlanWorkClassification,
    pub plan_hash: hash::Hash,
}

#[derive(Debug, Clone, PartialEq, Eq)]
pub enum PlanWorkClassification {
    PurePlan,
    CertifiedProbePlan(CertifiedProbePlan),
}

#[derive(Debug, Clone, PartialEq, Eq)]
pub struct CertifiedProbePlan {
    pub authorization_hash: hash::Hash,
    pub source_relation_hashes: Vec<hash::Hash>,
    pub probe_output_hashes: Vec<hash::Hash>,
    pub resource_trace_hash: hash::Hash,
    pub cost_trace_hash: hash::Hash,
    pub probe_certificate_hash: hash::Hash,
    pub execute_replay_required: bool,
    pub probe_hash: hash::Hash,
}

#[derive(Debug, Clone, PartialEq, Eq)]
pub struct KernelSupportPlan {
    pub dense_relation_search_schedule: Option<DenseRelationSearchSchedule>,
    pub affine_elimination_order: Option<AffineEliminationPlan>,
    pub template_plan: Option<TemplatePlan>,
    pub rank_plan: Option<RankPlan>,
    pub universal_strategy_sequence: Vec<UniversalStrategyPlanStep>,
    pub degree_bound: usize,
    pub support_hash: hash::Hash,
}

#[derive(Debug, Clone, PartialEq, Eq)]
pub struct AffineEliminationPlan {
    pub steps: Vec<AffineEliminationStep>,
    pub order_hash: hash::Hash,
}

#[derive(Debug, Clone, PartialEq, Eq)]
pub struct AffineEliminationStep {
    pub eliminated_variable: VariableId,
    pub source_relation_id: RelationId,
    pub pivot_hash: hash::Hash,
    pub denominator_guard_hash: Option<hash::Hash>,
    pub step_hash: hash::Hash,
}

#[derive(Debug, Clone, PartialEq, Eq)]
pub struct TemplatePlan {
    pub matrix_rows: usize,
    pub matrix_cols: usize,
    pub row_monomial_hash: hash::Hash,
    pub column_support_hash: hash::Hash,
}

#[derive(Debug, Clone, PartialEq, Eq)]
pub struct RankPlan {
    pub estimated_rank: usize,
    pub rank_plan_hash: hash::Hash,
}

#[derive(Debug, Clone, PartialEq, Eq)]
pub struct UniversalStrategyPlanStep {
    pub strategy: UniversalStrategy,
    pub enabled: bool,
    pub skip_reason: Option<String>,
    pub strategy_hash: hash::Hash,
}

#[derive(Debug, Clone, Copy, PartialEq, Eq, Structural)]
pub enum UniversalStrategy {
    TargetRelationSearchEscalated,
    SparseResultantIfSquareOrOverdetermined,
    SpecializeProjectInterpolateVerify,
    LocalGroebnerEliminationToKeepZ,
}

#[derive(Debug, Clone, PartialEq, Eq)]
pub struct ResourceBounds {
    pub max_matrix_rows: Option<usize>,
    pub max_matrix_cols: Option<usize>,
    pub max_export_degree: Option<usize>,
    pub max_multiplier_total_degree: Option<usize>,
    pub max_local_elimination_steps: Option<usize>,
    pub max_memory_bytes: Option<u64>,
    pub bounds_hash: hash::Hash,
}

#[derive(Debug, Clone, Copy, PartialEq, Eq, Structural)]
pub enum CertificateRoute {
    SourceMembershipCertificate,
    DenseRelationSearchMembership,
    GuardedAffineProjectionCertificate,
    SparseResultantExactVerification,
    VerifiedCharacteristicSupportCoverage,
    NormTraceExactVerification,
    RegularChainGuardedProjection,
    SpecializationInterpolationExactVerification,
    UniversalFixedLocalElimination,
}

#[derive(Debug, Clone, PartialEq, Eq)]
pub struct PlannedFailureBehavior {
    pub allowed_statuses: Vec<SolverStatus>,
    pub local_nonfinite_policy: LocalNonfinitePolicy,
    pub behavior_hash: hash::Hash,
}

#[derive(Debug, Clone, Copy, PartialEq, Eq, Structural)]
pub enum LocalNonfinitePolicy {
    NoLocalCertifiedNonFinite,
    NotApplicable,
}

// ----- variant names, as `{:?}` prints them -----

pub open spec fn route_label(r: CertificateRoute) -> Seq<char> {
    match r {
        CertificateRoute::SourceMembershipCertificate => "SourceMembershipCertificate"@,
        CertificateRoute::DenseRelationSearchMembership => "DenseRelationSearchMembership"@,
        CertificateRoute::GuardedAffineProjectionCertificate => "GuardedAffineProjectionCertificate"@,
        CertificateRoute::SparseResultantExactVerification => "SparseResultantExactVerification"@,
        CertificateRoute::VerifiedCharacteristicSupportCoverage => "VerifiedCharacteristicSupportCoverage"@,
        CertificateRoute::NormTraceExactVerification => "NormTraceExactVerification"@,
        CertificateRoute::RegularChainGuardedProjection => "RegularChainGuardedProjection"@,
        CertificateRoute::SpecializationInterpolationExactVerification => "SpecializationInterpolationExactVerification"@,
        CertificateRoute::UniversalFixedLocalElimination => "UniversalFixedLocalElimination"@,
    }
}

fn route_name(r: CertificateRoute) -> (s: &'static str)
    ensures
        s@ == route_label(r),
{
    match r {
        CertificateRoute::SourceMembershipCertificate => "SourceMembershipCertificate",
        CertificateRoute::DenseRelationSearchMembership => "DenseRelationSearchMembership",
        CertificateRoute::GuardedAffineProjectionCertificate => "GuardedAffineProjectionCertificate",
        CertificateRoute::SparseResultantExactVerification => "SparseResultantExactVerification",
        CertificateRoute::VerifiedCharacteristicSupportCoverage => "VerifiedCharacteristicSupportCoverage",
        CertificateRoute::NormTraceExactVerification => "NormTraceExactVerification",
        CertificateRoute::RegularChainGuardedProjection => "RegularChainGuardedProjection",
        CertificateRoute::SpecializationInterpolationExactVerification => "SpecializationInterpolationExactVerification",
        CertificateRoute::UniversalFixedLocalElimination => "UniversalFixedLocalElimination",
    }
}

pub open spec fn strategy_label(s: UniversalStrategy) -> Seq<char> {
    match s {
        UniversalStrategy::TargetRelationSearchEscalated => "TargetRelationSearchEscalated"@,
        UniversalStrategy::SparseResultantIfSquareOrOverdetermined => "SparseResultantIfSquareOrOverdetermined"@,
        UniversalStrategy::SpecializeProjectInterpolateVerify => "SpecializeProjectInterpolateVerify"@,
        UniversalStrategy::LocalGroebnerEliminationToKeepZ => "LocalGroebnerEliminationToKeepZ"@,
    }
}

fn strategy_name(s: UniversalStrategy) -> (r: &'static str)
    ensures
        r@ == strategy_label(s),
{
    match s {
        UniversalStrategy::TargetRelationSearchEscalated => "TargetRelationSearchEscalated",
        UniversalStrategy::SparseResultantIfSquareOrOverdetermined => "SparseResultantIfSquareOrOverdetermined",
        UniversalStrategy::SpecializeProjectInterpolateVerify => "SpecializeProjectInterpolateVerify",
        UniversalStrategy::LocalGroebnerEliminationToKeepZ => "LocalGroebnerEliminationToKeepZ",
    }
}

pub open spec fn policy_label(p: LocalNonfinitePolicy) -> Seq<char> {
    match p {
        LocalNonfinitePolicy::NoLocalCertifiedNonFinite => "NoLocalCertifiedNonFinite"@,
        LocalNonfinitePolicy::NotApplicable => "NotApplicable"@,
    }
}

fn policy_name(p: LocalNonfinitePolicy) -> (r: &'static str)
    ensures
        r@ == policy_label(p),
{
    match p {
        LocalNonfinitePolicy::NoLocalCertifiedNonFinite => "NoLocalCertifiedNonFinite",
        LocalNonfinitePolicy::NotApplicable => "NotApplicable",
    }
}

// ----- hashes of the plan parts -----

pub open spec fn optional_usize_chunk(value: Option<usize>) -> Seq<u8> {
    crate::planner::algebraic_cost::optional_usize_chunk(value)
}

pub open spec fn bounds_chunks(b: ResourceBounds) -> Seq<Seq<u8>> {
    seq![
        optional_usize_chunk(b.max_matrix_rows),
        optional_usize_chunk(b.max_matrix_cols),
        optional_usize_chunk(b.max_export_degree),
        optional_usize_chunk(b.max_multiplier_total_degree),
        optional_usize_chunk(b.max_local_elimination_steps),
        match b.max_memory_bytes {
            Some(m) => be_bytes(m as nat, 8),
            None => seq![0xffu8],
        },
    ]
}

pub open spec fn spec_resource_bounds_hash(b: ResourceBounds) -> Seq<u8> {
    spec_hash_sequence("planner-resource-bounds".spec_bytes(), bounds_chunks(b))
}

pub fn resource_bounds_hash(bounds: &ResourceBounds) -> (h: hash::Hash)
    ensures
        h.0@ == spec_resource_bounds_hash(*bounds),
{
    let mut chunks: Vec<Vec<u8>> = Vec::new();
    push_chunk(&mut chunks, crate::planner::algebraic_cost::optional_usize_bytes(bounds.max_matrix_rows));
    push_chunk(&mut chunks, crate::planner::algebraic_cost::optional_usize_bytes(bounds.max_matrix_cols));
    push_chunk(&mut chunks, crate::planner::algebraic_cost::optional_usize_bytes(bounds.max_export_degree));
    push_chunk(&mut chunks, crate::planner::algebraic_cost::optional_usize_bytes(bounds.max_multiplier_total_degree));
    push_chunk(&mut chunks, crate::planner::algebraic_cost::optional_usize_bytes(bounds.max_local_elimination_steps));
    let mem = match bounds.max_memory_bytes {
        Some(m) => u64_be(m),
        None => {
            let mut v: Vec<u8> = Vec::new();
            v.push(0xff);
            v
        },
    };
    push_chunk(&mut chunks, mem);
    assert(chunk_views(chunks@) =~= bounds_chunks(*bounds));
    hash_sequence("planner-resource-bounds", chunks.as_slice())
}

pub open spec fn spec_rank_plan_hash(estimated_rank: usize) -> Seq<u8> {
    spec_hash_sequence("rank-plan".spec_bytes(), seq![be_bytes(estimated_rank as nat, 8)])
}

fn rank_plan_hash(estimated_rank: usize) -> (h: hash::Hash)
    ensures
        h.0@ == spec_rank_plan_hash(estimated_rank),
{
    let mut chunks: Vec<Vec<u8>> = Vec::new();
    push_chunk(&mut chunks, usize_be(estimated_rank));
    assert(chunk_views(chunks@) =~= seq![be_bytes(estimated_rank as nat, 8)]);
    hash_sequence("rank-plan", chunks.as_slice())
}

pub open spec fn step_chunks(s: AffineEliminationStep) -> Seq<Seq<u8>> {
    seq![
        be_bytes(s.eliminated_variable.0 as nat, 4),
        be_bytes(s.source_relation_id.0 as nat, 4),
        s.pivot_hash.0@,
    ] + match s.denominator_guard_hash {
        Some(h) => seq![h.0@],
        None => Seq::<Seq<u8>>::empty(),
    }
}

pub open spec fn spec_affine_step_hash(s: AffineEliminationStep) -> Seq<u8> {
    spec_hash_sequence("affine-elimination-step".spec_bytes(), step_chunks(s))
}

fn hash_affine_elimination_step(step: &AffineEliminationStep) -> (h: hash::Hash)
    ensures
        h.0@ == spec_affine_step_hash(*step),
{
    let mut chunks: Vec<Vec<u8>> = Vec::new();
    push_chunk(&mut chunks, u32_be(step.eliminated_variable.0));
    push_chunk(&mut chunks, u32_be(step.source_relation_id.0));
    push_chunk(&mut chunks, hash_to_vec(&step.pivot_hash));
    match &step.denominator_guard_hash {
        Some(h) => push_chunk(&mut chunks, hash_to_vec(h)),
        None => {},
    }
    assert(chunk_views(chunks@) =~= step_chunks(*step));
    hash_sequence("affine-elimination-step", chunks.as_slice())
}

pub open spec fn affine_step_pairs(steps: Seq<AffineEliminationStep>) -> Seq<Seq<u8>>
    decreases steps.len(),
{
    if steps.len() == 0 {
        Seq::empty()
    } else {
        affine_step_pairs(steps.drop_last()) + seq![steps.last().step_hash.0@, spec_affine_step_hash(steps.last())]
    }
}

pub open spec fn spec_affine_plan_hash(p: AffineEliminationPlan) -> Seq<u8> {
    spec_hash_sequence("affine-elimination-plan".spec_bytes(), affine_step_pairs(p.steps@))
}

fn hash_affine_elimination_plan(plan: &AffineEliminationPlan) -> (h: hash::Hash)
    ensures
        h.0@ == spec_affine_plan_hash(*plan),
{
    let mut chunks: Vec<Vec<u8>> = Vec::new();
    let n = plan.steps.len();
    for i in 0..n
        invariant
            n == plan.steps@.len(),
            chunk_views(chunks@) == affine_step_pairs(plan.steps@.take(i as int)),
    {
        let step = &plan.steps[i];
        push_chunk(&mut chunks, hash_to_vec(&step.step_hash));
        let h = hash_affine_elimination_step(step);
        push_chunk(&mut chunks, hash_to_vec(&h));
        proof {
            let t = plan.steps@.take(i + 1);
            assert(t.drop_last() == plan.steps@.take(i as int));
            assert(t.last() == plan.steps@[i as int]);
        }
    }
    assert(plan.steps@.take(n as int) == plan.steps@);
    hash_sequence("affine-elimination-plan", chunks.as_slice())
}

pub open spec fn reason_bytes(r: Option<String>) -> Seq<u8> {
    match r {
        Some(s) => encode_utf8(s@),
        None => Seq::empty(),
    }
}

pub open spec fn strategy_step_chunks(s: UniversalStrategy, enabled: bool, reason: Seq<u8>) -> Seq<Seq<u8>> {
    seq![encode_utf8(strategy_label(s)), seq![if enabled { 1u8 } else { 0u8 }], reason]
}

pub open spec fn spec_strategy_step_hash(s: UniversalStrategy, enabled: bool, reason: Seq<u8>) -> Seq<u8> {
    spec_hash_sequence("universal-strategy-plan-step".spec_bytes(), strategy_step_chunks(s, enabled, reason))
}

fn universal_strategy_step_hash_from_parts(
    strategy: UniversalStrategy,
    enabled: bool,
    skip_reason: Option<&str>,
) -> (h: hash::Hash)
    ensures
        h.0@ == spec_strategy_step_hash(
            strategy,
            enabled,
            match skip_reason {
                Some(r) => encode_utf8(r@),
                None => Seq::empty(),
            },
        ),
{
    let mut chunks: Vec<Vec<u8>> = Vec::new();
    push_chunk(&mut chunks, str_bytes(strategy_name(strategy)));
    let mut flag: Vec<u8> = Vec::new();
    flag.push(if enabled {
        1u8
    } else {
        0u8
    });
    push_chunk(&mut chunks, flag);
    let reason = match skip_reason {
        Some(r) => str_bytes(r),
        None => Vec::new(),
    };
    push_chunk(&mut chunks, reason);
    assert(chunk_views(chunks@) =~= strategy_step_chunks(
        strategy,
        enabled,
        match skip_reason {
            Some(r) => encode_utf8(r@),
            None => Seq::empty(),
        },
    ));
    hash_sequence("universal-strategy-plan-step", chunks.as_slice())
}

pub open spec fn spec_universal_step_hash(step: UniversalStrategyPlanStep) -> Seq<u8> {
    spec_hash_strategy_of(step)
}

pub open spec fn spec_hash_strategy_of(step: UniversalStrategyPlanStep) -> Seq<u8> {
    spec_strategy_step_hash(step.strategy, step.enabled, reason_bytes(step.skip_reason))
}

fn universal_strategy_step_hash(step: &UniversalStrategyPlanStep) -> (h: hash::Hash)
    ensures
        h.0@ == spec_universal_step_hash(*step),
{
    match &step.skip_reason {
        Some(r) => universal_strategy_step_hash_from_parts(step.strategy, step.enabled, Some(r.as_str())),
        None => universal_strategy_step_hash_from_parts(step.strategy, step.enabled, None),
    }
}

pub open spec fn strategy_pairs(steps: Seq<UniversalStrategyPlanStep>) -> Seq<Seq<u8>>
    decreases steps.len(),
{
    if steps.len() == 0 {
        Seq::empty()
    } else {
        strategy_pairs(steps.drop_last()) + seq![steps.last().strategy_hash.0@, spec_universal_step_hash(steps.last())]
    }
}

pub open spec fn schedule_part(o: Option<DenseRelationSearchSchedule>) -> Seq<Seq<u8>> {
    match o {
        Some(s) => seq![s.schedule_hash.0@, spec_hash_dense_relation_search_schedule(s)],
        None => Seq::<Seq<u8>>::empty(),
    }
}

pub open spec fn affine_part(o: Option<AffineEliminationPlan>) -> Seq<Seq<u8>> {
    match o {
        Some(a) => seq![a.order_hash.0@, spec_affine_plan_hash(a)],
        None => Seq::<Seq<u8>>::empty(),
    }
}

pub open spec fn template_part(o: Option<TemplatePlan>) -> Seq<Seq<u8>> {
    match o {
        Some(t) => seq![
            t.row_monomial_hash.0@,
            t.column_support_hash.0@,
            be_bytes(t.matrix_rows as nat, 8),
            be_bytes(t.matrix_cols as nat, 8),
        ],
        None => Seq::<Seq<u8>>::empty(),
    }
}

pub open spec fn rank_part(o: Option<RankPlan>) -> Seq<Seq<u8>> {
    match o {
        Some(r) => seq![r.rank_plan_hash.0@, spec_rank_plan_hash(r.estimated_rank)],
        None => Seq::<Seq<u8>>::empty(),
    }
}

pub open spec fn support_chunks(p: KernelSupportPlan) -> Seq<Seq<u8>> {
    seq![be_bytes(p.degree_bound as nat, 8)] + schedule_part(p.dense_relation_search_schedule)
        + affine_part(p.affine_elimination_order) + template_part(p.template_plan) + rank_part(
        p.rank_plan,
    ) + strategy_pairs(p.universal_strategy_sequence@)
}

fn push_schedule_part(chunks: &mut Vec<Vec<u8>>, o: &Option<DenseRelationSearchSchedule>)
    ensures
        chunk_views(final(chunks)@) == chunk_views(old(chunks)@) + schedule_part(*o),
{
    let ghost start = chunk_views(chunks@);
    match o {
        Some(schedule) => {
            push_chunk(chunks, hash_to_vec(&schedule.schedule_hash));
            let h = hash_dense_relation_search_schedule(schedule);
            push_chunk(chunks, hash_to_vec(&h));
        },
        None => {},
    }
    assert(chunk_views(chunks@) =~= start + schedule_part(*o));
}

fn push_affine_part(chunks: &mut Vec<Vec<u8>>, o: &Option<AffineEliminationPlan>)
    ensures
        chunk_views(final(chunks)@) == chunk_views(old(chunks)@) + affine_part(*o),
{
    let ghost start = chunk_views(chunks@);
    match o {
        Some(order) => {
            push_chunk(chunks, hash_to_vec(&order.order_hash));
            let h = hash_affine_elimination_plan(order);
            push_chunk(chunks, hash_to_vec(&h));
        },
        None => {},
    }
    assert(chunk_views(chunks@) =~= start + affine_part(*o));
}

fn push_template_part(chunks: &mut Vec<Vec<u8>>, o: &Option<TemplatePlan>)
    ensures
        chunk_views(final(chunks)@) == chunk_views(old(chunks)@) + template_part(*o),
{
    let ghost start = chunk_views(chunks@);
    match o {
        Some(template) => {
            push_chunk(chunks, hash_to_vec(&template.row_monomial_hash));
            push_chunk(chunks, hash_to_vec(&template.column_support_hash));
            push_chunk(chunks, usize_be(template.matrix_rows));
            push_chunk(chunks, usize_be(template.matrix_cols));
        },
        None => {},
    }
    assert(chunk_views(chunks@) =~= start + template_part(*o));
}

fn push_rank_part(chunks: &mut Vec<Vec<u8>>, o: &Option<RankPlan>)
    ensures
        chunk_views(final(chunks)@) == chunk_views(old(chunks)@) + rank_part(*o),
{
    let ghost start = chunk_views(chunks@);
    match o {
        Some(rank) => {
            push_chunk(chunks, hash_to_vec(&rank.rank_plan_hash));
            let h = rank_plan_hash(rank.estimated_rank);
            push_chunk(chunks, hash_to_vec(&h));
        },
        None => {},
    }
    assert(chunk_views(chunks@) =~= start + rank_part(*o));
}

fn push_strategy_pairs(chunks: &mut Vec<Vec<u8>>, steps: &[UniversalStrategyPlanStep])
    ensures
        chunk_views(final(chunks)@) == chunk_views(old(chunks)@) + strategy_pairs(steps@),
{
    let ghost head = chunk_views(chunks@);
    let n = steps.len();
    for i in 0..n
        invariant
            n == steps@.len(),
            chunk_views(chunks@) == head + strategy_pairs(steps@.take(i as int)),
    {
        let step = &steps[i];
        push_chunk(chunks, hash_to_vec(&step.strategy_hash));
        let h = universal_strategy_step_hash(step);
        push_chunk(chunks, hash_to_vec(&h));
        proof {
            let t = steps@.take(i + 1);
            assert(t.drop_last() == steps@.take(i as int));
            assert(t.last() == steps@[i as int]);
        }
    }
    assert(steps@.take(n as int) == steps@);
}

pub open spec fn spec_support_plan_hash(p: KernelSupportPlan) -> Seq<u8> {
    spec_hash_sequence("kernel-support-plan".spec_bytes(), support_chunks(p))
}

pub fn support_plan_hash(plan: &KernelSupportPlan) -> (h: hash::Hash)
    ensures
        h.0@ == spec_support_plan_hash(*plan),
{
    let mut chunks: Vec<Vec<u8>> = Vec::new();
    push_chunk(&mut chunks, usize_be(plan.degree_bound));
    push_schedule_part(&mut chunks, &plan.dense_relation_search_schedule);
    push_affine_part(&mut chunks, &plan.affine_elimination_order);
    push_template_part(&mut chunks, &plan.template_plan);
    push_rank_part(&mut chunks, &plan.rank_plan);
    push_strategy_pairs(&mut chunks, plan.universal_strategy_sequence.as_slice());
    assert(chunk_views(chunks@) =~= support_chunks(*plan));
    hash_sequence("kernel-support-plan", chunks.as_slice())
}

pub open spec fn status_label_chunks(ss: Seq<SolverStatus>) -> Seq<Seq<u8>> {
    ss.map_values(|s: SolverStatus| encode_utf8(solver_status_label(s)))
}

pub open spec fn spec_failure_behavior_hash(statuses: Seq<SolverStatus>, policy: LocalNonfinitePolicy) -> Seq<u8> {
    spec_hash_sequence(
        "planned-failure-behavior".spec_bytes(),
        seq![encode_utf8(policy_label(policy))] + status_label_chunks(statuses),
    )
}

fn failure_behavior_hash_from_parts(
    allowed_statuses: &[SolverStatus],
    local_nonfinite_policy: LocalNonfinitePolicy,
) -> (h: hash::Hash)
    ensures
        h.0@ == spec_failure_behavior_hash(allowed_statuses@, local_nonfinite_policy),
{
    let mut chunks: Vec<Vec<u8>> = Vec::new();
    push_chunk(&mut chunks, str_bytes(policy_name(local_nonfinite_policy)));
    let ghost head = chunk_views(chunks@);
    let n = allowed_statuses.len();
    for i in 0..n
        invariant
            n == allowed_statuses@.len(),
            chunk_views(chunks@) == head + status_label_chunks(allowed_statuses@.take(i as int)),
    {
        push_chunk(&mut chunks, str_bytes(solver_status_name(allowed_statuses[i])));
        proof {
            let ss = allowed_statuses@;
            let l = encode_utf8(solver_status_label(ss[i as int]));
            assert(status_label_chunks(ss.take(i + 1)) =~= status_label_chunks(ss.take(i as int)).push(l));
            assert(head + status_label_chunks(ss.take(i + 1)) =~= (head + status_label_chunks(ss.take(i as int))).push(l));
        }
    }
    assert(allowed_statuses@.take(n as int) == allowed_statuses@);
    assert(chunk_views(chunks@) =~= seq![encode_utf8(policy_label(local_nonfinite_policy))]
        + status_label_chunks(allowed_statuses@));
    hash_sequence("planned-failure-behavior", chunks.as_slice())
}

fn failure_behavior_hash(behavior: &PlannedFailureBehavior) -> (h: hash::Hash)
    ensures
        h.0@ == spec_failure_behavior_hash(behavior.allowed_statuses@, behavior.local_nonfinite_policy),
{
    failure_behavior_hash_from_parts(behavior.allowed_statuses.as_slice(), behavior.local_nonfinite_policy)
}

pub open spec fn probe_chunks(p: CertifiedProbePlan) -> Seq<Seq<u8>> {
    seq![
        p.authorization_hash.0@,
        p.resource_trace_hash.0@,
        p.cost_trace_hash.0@,
        p.probe_certificate_hash.0@,
    ] + hash_chunks(p.source_relation_hashes@) + seq![Seq::<u8>::empty()] + hash_chunks(
        p.probe_output_hashes@,
    ) + seq![seq![if p.execute_replay_required { 1u8 } else { 0u8 }]]
}

pub open spec fn spec_probe_plan_hash(p: CertifiedProbePlan) -> Seq<u8> {
    spec_hash_sequence("certified-probe-plan".spec_bytes(), probe_chunks(p))
}

fn hash_certified_probe_plan(probe: &CertifiedProbePlan) -> (h: hash::Hash)
    ensures
        h.0@ == spec_probe_plan_hash(*probe),
{
    let mut chunks: Vec<Vec<u8>> = Vec::new();
    push_chunk(&mut chunks, hash_to_vec(&probe.authorization_hash));
    push_chunk(&mut chunks, hash_to_vec(&probe.resource_trace_hash));
    push_chunk(&mut chunks, hash_to_vec(&probe.cost_trace_hash));
    push_chunk(&mut chunks, hash_to_vec(&probe.probe_certificate_hash));
    push_hash_chunks(&mut chunks, probe.source_relation_hashes.as_slice());
    push_chunk(&mut chunks, Vec::new());
    push_hash_chunks(&mut chunks, probe.probe_output_hashes.as_slice());
    let mut flag: Vec<u8> = Vec::new();
    flag.push(if probe.execute_replay_required {
        1u8
    } else {
        0u8
    });
    push_chunk(&mut chunks, flag);
    assert(chunk_views(chunks@) =~= probe_chunks(*probe));
    hash_sequence("certified-probe-plan", chunks.as_slice())
}

pub open spec fn spec_classification_hash(c: PlanWorkClassification) -> Seq<u8> {
    match c {
        PlanWorkClassification::PurePlan => spec_hash_sequence(
            "plan-work-classification".spec_bytes(),
            seq![seq![0u8]],
        ),
        PlanWorkClassification::CertifiedProbePlan(p) => spec_hash_sequence(
            "plan-work-classification".spec_bytes(),
            seq![seq![1u8], spec_probe_plan_hash(p)],
        ),
    }
}

fn plan_work_classification_hash(classification: &PlanWorkClassification) -> (h: hash::Hash)
    ensures
        h.0@ == spec_classification_hash(*classification),
{
    let mut chunks: Vec<Vec<u8>> = Vec::new();
    match classification {
        PlanWorkClassification::PurePlan => {
            let mut tag: Vec<u8> = Vec::new();
            tag.push(0u8);
            push_chunk(&mut chunks, tag);
            assert(chunk_views(chunks@) =~= seq![seq![0u8]]);
        },
        PlanWorkClassification::CertifiedProbePlan(probe) => {
            let mut tag: Vec<u8> = Vec::new();
            tag.push(1u8);
            push_chunk(&mut chunks, tag);
            let h = hash_certified_probe_plan(probe);
            push_chunk(&mut chunks, hash_to_vec(&h));
            assert(chunk_views(chunks@) =~= seq![seq![1u8], spec_probe_plan_hash(*probe)]);
        },
    }
    hash_sequence("plan-work-classification", chunks.as_slice())
}

pub open spec fn execution_plan_chunks(p: KernelExecutionPlan) -> Seq<Seq<u8>> {
    seq![
        be_bytes(p.plan_id.0 as nat, 4),
        be_bytes(p.block_id.0 as nat, 4),
        encode_utf8(kernel_kind_label(p.kernel_kind)),
        p.input_block_authorization_hash.0@,
    ] + relation_chunks(p.source_relation_ids@) + seq![Seq::<u8>::empty()] + hash_chunks(
        p.source_relation_hashes@,
    ) + seq![Seq::<u8>::empty()] + block_chunks(p.child_block_ids@) + seq![Seq::<u8>::empty()]
        + hash_chunks(p.child_message_hashes@) + seq![Seq::<u8>::empty()] + variable_chunks(
        p.exported_variables@,
    ) + seq![Seq::<u8>::empty()] + variable_chunks(p.eliminated_variables@) + seq![
        p.support_plan.support_hash.0@,
        spec_support_plan_hash(p.support_plan),
        p.resource_bounds.bounds_hash.0@,
        spec_resource_bounds_hash(p.resource_bounds),
        encode_utf8(route_label(p.certificate_route)),
        p.failure_behavior.behavior_hash.0@,
        spec_failure_behavior_hash(
            p.failure_behavior.allowed_statuses@,
            p.failure_behavior.local_nonfinite_policy,
        ),
        spec_classification_hash(p.plan_work_classification),
    ]
}

pub open spec fn spec_hash_kernel_execution_plan(p: KernelExecutionPlan) -> Seq<u8> {
    spec_hash_sequence("kernel-execution-plan".spec_bytes(), execution_plan_chunks(p))
}

/// The plan digest does not read the stored plan digest: plans that differ only there have
/// the same digest.
pub proof fn lemma_plan_hash_ignores_stored_hash(p: KernelExecutionPlan, h: hash::Hash)
    ensures
        spec_hash_kernel_execution_plan((KernelExecutionPlan { plan_hash: h, ..p })) == spec_hash_kernel_execution_plan(p),
{
    assert(execution_plan_chunks((KernelExecutionPlan { plan_hash: h, ..p })) =~= execution_plan_chunks(p));
}

pub fn hash_kernel_execution_plan(plan: &KernelExecutionPlan) -> (h: hash::Hash)
    ensures
        h.0@ == spec_hash_kernel_execution_plan(*plan),
{
    let mut chunks: Vec<Vec<u8>> = Vec::new();
    push_chunk(&mut chunks, u32_be(plan.plan_id.0));
    push_chunk(&mut chunks, u32_be(plan.block_id.0));
    push_chunk(&mut chunks, str_bytes(kernel_kind_name(plan.kernel_kind)));
    push_chunk(&mut chunks, hash_to_vec(&plan.input_block_authorization_hash));
    push_relation_chunks(&mut chunks, plan.source_relation_ids.as_slice());
    push_chunk(&mut chunks, Vec::new());
    push_hash_chunks(&mut chunks, plan.source_relation_hashes.as_slice());
    push_chunk(&mut chunks, Vec::new());
    push_block_chunks(&mut chunks, plan.child_block_ids.as_slice());
    push_chunk(&mut chunks, Vec::new());
    push_hash_chunks(&mut chunks, plan.child_message_hashes.as_slice());
    push_chunk(&mut chunks, Vec::new());
    push_variable_chunks(&mut chunks, plan.exported_variables.as_slice());
    push_chunk(&mut chunks, Vec::new());
    push_variable_chunks(&mut chunks, plan.eliminated_variables.as_slice());
    push_chunk(&mut chunks, hash_to_vec(&plan.support_plan.support_hash));
    let sh = support_plan_hash(&plan.support_plan);
    push_chunk(&mut chunks, hash_to_vec(&sh));
    push_chunk(&mut chunks, hash_to_vec(&plan.resource_bounds.bounds_hash));
    let bh = resource_bounds_hash(&plan.resource_bounds);
    push_chunk(&mut chunks, hash_to_vec(&bh));
    push_chunk(&mut chunks, str_bytes(route_name(plan.certificate_route)));
    push_chunk(&mut chunks, hash_to_vec(&plan.failure_behavior.behavior_hash));
    let fh = failure_behavior_hash(&plan.failure_behavior);
    push_chunk(&mut chunks, hash_to_vec(&fh));
    let ch = plan_work_classification_hash(&plan.plan_work_classification);
    push_chunk(&mut chunks, hash_to_vec(&ch));
    assert(chunk_views(chunks@) =~= execution_plan_chunks(*plan));
    hash_sequence("kernel-execution-plan", chunks.as_slice())
}

impl KernelExecutionPlan {
    /// The plan's hash is the hash of its other fields.
    pub open spec fn hash_is_current(self) -> bool {
        self.plan_hash.0@ == spec_hash_kernel_execution_plan(self)
    }

    /// A pure plan whose algebraic work estimate is the conservative estimate of its shape
    /// (exported plus eliminated variables, source relations, exported variables, the matrix
    /// bounds, the rank plan and the degree bound) and whose budget is derived from it.
    #[allow(clippy::too_many_arguments)]
    pub fn new(
        plan_id: KernelPlanId,
        block_id: BlockId,
        kernel_kind: KernelKind,
        input_block_authorization_hash: hash::Hash,
        source_relation_ids: Vec<RelationId>,
        source_relation_hashes: Vec<hash::Hash>,
        child_block_ids: Vec<BlockId>,
        child_message_hashes: Vec<hash::Hash>,
        exported_variables: Vec<VariableId>,
        eliminated_variables: Vec<VariableId>,
        support_plan: KernelSupportPlan,
        resource_bounds: ResourceBounds,
        certificate_route: CertificateRoute,
        failure_behavior: PlannedFailureBehavior,
    ) -> (p: Self)
        ensures
            p.plan_id == plan_id,
            p.block_id == block_id,
            p.kernel_kind == kernel_kind,
            p.input_block_authorization_hash == input_block_authorization_hash,
            p.source_relation_ids == source_relation_ids,
            p.source_relation_hashes == source_relation_hashes,
            p.child_block_ids == child_block_ids,
            p.child_message_hashes == child_message_hashes,
            p.exported_variables == exported_variables,
            p.eliminated_variables == eliminated_variables,
            p.support_plan == support_plan,
            p.resource_bounds == resource_bounds,
            p.certificate_route == certificate_route,
            p.failure_behavior == failure_behavior,
            p.plan_work_classification == PlanWorkClassification::PurePlan,
            p.algebraic_work_estimate.hash_is_current(),
            p.route_budget.hash_is_current(),
            p.hash_is_current(),
            is_conservative_shape(
                p.algebraic_work_estimate,
                clamp_usize(exported_variables@.len() + eliminated_variables@.len() as int) as usize,
                source_relation_ids@.len() as usize,
                exported_variables@.len() as usize,
                resource_bounds.max_matrix_rows,
                resource_bounds.max_matrix_cols,
                match support_plan.rank_plan {
                    Some(r) => Some(r.estimated_rank),
                    None => None,
                },
                support_plan.degree_bound,
            ),
            is_budget_for(p.route_budget, p.algebraic_work_estimate),
    {
        Self::new_with_work_classification(
            plan_id,
            block_id,
            kernel_kind,
            input_block_authorization_hash,
            source_relation_ids,
            source_relation_hashes,
            child_block_ids,
            child_message_hashes,
            exported_variables,
            eliminated_variables,
            support_plan,
            resource_bounds,
            certificate_route,
            failure_behavior,
            PlanWorkClassification::PurePlan,
        )
    }

    /// As `new`, with the given work classification.
    #[allow(clippy::too_many_arguments)]
    pub fn new_with_work_classification(
        plan_id: KernelPlanId,
        block_id: BlockId,
        kernel_kind: KernelKind,
        input_block_authorization_hash: hash::Hash,
        source_relation_ids: Vec<RelationId>,
        source_relation_hashes: Vec<hash::Hash>,
        child_block_ids: Vec<BlockId>,
        child_message_hashes: Vec<hash::Hash>,
        exported_variables: Vec<VariableId>,
        eliminated_variables: Vec<VariableId>,
        support_plan: KernelSupportPlan,
        resource_bounds: ResourceBounds,
        certificate_route: CertificateRoute,
        failure_behavior: PlannedFailureBehavior,
        plan_work_classification: PlanWorkClassification,
    ) -> (p: Self)
        ensures
            p.plan_id == plan_id,
            p.block_id == block_id,
            p.kernel_kind == kernel_kind,
            p.input_block_authorization_hash == input_block_authorization_hash,
            p.source_relation_ids == source_relation_ids,
            p.source_relation_hashes == source_relation_hashes,
            p.child_block_ids == child_block_ids,
            p.child_message_hashes == child_message_hashes,
            p.exported_variables == exported_variables,
            p.eliminated_variables == eliminated_variables,
            p.support_plan == support_plan,
            p.resource_bounds == resource_bounds,
            p.certificate_route == certificate_route,
            p.failure_behavior == failure_behavior,
            p.plan_work_classification == plan_work_classification,
            p.algebraic_work_estimate.local_relation_count == source_relation_ids@.len(),
            p.algebraic_work_estimate.exported_variable_count == exported_variables@.len(),
            p.algebraic_work_estimate.matrix_rows == resource_bounds.max_matrix_rows,
            p.algebraic_work_estimate.matrix_cols == resource_bounds.max_matrix_cols,
            p.algebraic_work_estimate.max_total_degree == support_plan.degree_bound,
            p.algebraic_work_estimate.hash_is_current(),
            p.route_budget.hash_is_current(),
            p.hash_is_current(),
            is_conservative_shape(
                p.algebraic_work_estimate,
                clamp_usize(exported_variables@.len() + eliminated_variables@.len() as int) as usize,
                source_relation_ids@.len() as usize,
                exported_variables@.len() as usize,
                resource_bounds.max_matrix_rows,
                resource_bounds.max_matrix_cols,
                match support_plan.rank_plan {
                    Some(r) => Some(r.estimated_rank),
                    None => None,
                },
                support_plan.degree_bound,
            ),
            is_budget_for(p.route_budget, p.algebraic_work_estimate),
    {
        let local_variable_count = crate::types::arith::sat_add_usize(
            exported_variables.len(),
            eliminated_variables.len(),
        );
        let rank = match &support_plan.rank_plan {
            Some(r) => Some(r.estimated_rank),
            None => None,
        };
        let estimate = AlgebraicWorkEstimate::conservative_plan_shape(
            local_variable_count,
            source_relation_ids.len(),
            exported_variables.len(),
            resource_bounds.max_matrix_rows,
            resource_bounds.max_matrix_cols,
            rank,
            support_plan.degree_bound,
        );
        let budget = RouteBudget::from_estimate(&estimate);
        Self::new_with_algebraic_cost(
            plan_id,
            block_id,
            kernel_kind,
            input_block_authorization_hash,
            source_relation_ids,
            source_relation_hashes,
            child_block_ids,
            child_message_hashes,
            exported_variables,
            eliminated_variables,
            support_plan,
            resource_bounds,
            estimate,
            budget,
            certificate_route,
            failure_behavior,
            plan_work_classification,
        )
    }

    /// A plan with every field given, its hash bound to them.
    #[allow(clippy::too_many_arguments)]
    pub fn new_with_algebraic_cost(
        plan_id: KernelPlanId,
        block_id: BlockId,
        kernel_kind: KernelKind,
        input_block_authorization_hash: hash::Hash,
        source_relation_ids: Vec<RelationId>,
        source_relation_hashes: Vec<hash::Hash>,
        child_block_ids: Vec<BlockId>,
        child_message_hashes: Vec<hash::Hash>,
        exported_variables: Vec<VariableId>,
        eliminated_variables: Vec<VariableId>,
        support_plan: KernelSupportPlan,
        resource_bounds: ResourceBounds,
        algebraic_work_estimate: AlgebraicWorkEstimate,
        route_budget: RouteBudget,
        certificate_route: CertificateRoute,
        failure_behavior: PlannedFailureBehavior,
        plan_work_classification: PlanWorkClassification,
    ) -> (p: Self)
        ensures
            p.plan_id == plan_id,
            p.block_id == block_id,
            p.kernel_kind == kernel_kind,
            p.input_block_authorization_hash == input_block_authorization_hash,
            p.source_relation_ids == source_relation_ids,
            p.source_relation_hashes == source_relation_hashes,
            p.child_block_ids == child_block_ids,
            p.child_message_hashes == child_message_hashes,
            p.exported_variables == exported_variables,
            p.eliminated_variables == eliminated_variables,
            p.support_plan == support_plan,
            p.resource_bounds == resource_bounds,
            p.algebraic_work_estimate == algebraic_work_estimate,
            p.route_budget == route_budget,
            p.certificate_route == certificate_route,
            p.failure_behavior == failure_behavior,
            p.plan_work_classification == plan_work_classification,
            p.hash_is_current(),
    {
        let mut plan = Self {
            plan_id,
            block_id,
            kernel_kind,
            input_block_authorization_hash,
            source_relation_ids,
            source_relation_hashes,
            child_block_ids,
            child_message_hashes,
            exported_variables,
            eliminated_variables,
            support_plan,
            resource_bounds,
            algebraic_work_estimate,
            route_budget,
            certificate_route,
            failure_behavior,
            plan_work_classification,
            plan_hash: hash_sequence("kernel-execution-plan", &[]),
        };
        plan.plan_hash = hash_kernel_execution_plan(&plan);
        plan
    }
}

pub open spec fn ladder_hash_chunks(ladder: Seq<KernelExecutionPlan>) -> Seq<Seq<u8>> {
    ladder.map_values(|p: KernelExecutionPlan| spec_hash_kernel_execution_plan(p))
}

pub open spec fn admission_hash_chunks(a: Seq<KernelAdmission>) -> Seq<Seq<u8>> {
    a.map_values(|x: KernelAdmission| x.admission_hash.0@)
}

pub open spec fn cost_hash_chunks(c: Seq<KernelCostEstimate>) -> Seq<Seq<u8>> {
    c.map_values(|x: KernelCostEstimate| x.estimate_hash.0@)
}

pub open spec fn kernel_plan_chunks(p: KernelPlan) -> Seq<Seq<u8>> {
    seq![be_bytes(p.block_id.0 as nat, 4)] + ladder_hash_chunks(p.declared_ladder@) + seq![
        Seq::<u8>::empty(),
    ] + admission_hash_chunks(p.admissions@) + seq![Seq::<u8>::empty()] + cost_hash_chunks(
        p.cost_estimates@,
    )
}

pub open spec fn spec_hash_kernel_plan(p: KernelPlan) -> Seq<u8> {
    spec_hash_sequence("kernel-plan".spec_bytes(), kernel_plan_chunks(p))
}

pub fn hash_kernel_plan(plan: &KernelPlan) -> (h: hash::Hash)
    ensures
        h.0@ == spec_hash_kernel_plan(*plan),
{
    let mut chunks: Vec<Vec<u8>> = Vec::new();
    push_chunk(&mut chunks, u32_be(plan.block_id.0));
    let ghost h0 = chunk_views(chunks@);
    let n = plan.declared_ladder.len();
    for i in 0..n
        invariant
            n == plan.declared_ladder@.len(),
            chunk_views(chunks@) == h0 + ladder_hash_chunks(plan.declared_ladder@.take(i as int)),
    {
        let h = hash_kernel_execution_plan(&plan.declared_ladder[i]);
        push_chunk(&mut chunks, hash_to_vec(&h));
        proof {
            let l = plan.declared_ladder@;
            assert(ladder_hash_chunks(l.take(i + 1)) =~= ladder_hash_chunks(l.take(i as int)).push(spec_hash_kernel_execution_plan(l[i as int])));
            assert(h0 + ladder_hash_chunks(l.take(i + 1)) =~= (h0 + ladder_hash_chunks(l.take(i as int))).push(spec_hash_kernel_execution_plan(l[i as int])));
        }
    }
    assert(plan.declared_ladder@.take(n as int) == plan.declared_ladder@);
    push_chunk(&mut chunks, Vec::new());
    let ghost h1 = chunk_views(chunks@);
    let m = plan.admissions.len();
    for i in 0..m
        invariant
            m == plan.admissions@.len(),
            chunk_views(chunks@) == h1 + admission_hash_chunks(plan.admissions@.take(i as int)),
    {
        push_chunk(&mut chunks, hash_to_vec(&plan.admissions[i].admission_hash));
        proof {
            let l = plan.admissions@;
            assert(admission_hash_chunks(l.take(i + 1)) =~= admission_hash_chunks(l.take(i as int)).push(l[i as int].admission_hash.0@));
            assert(h1 + admission_hash_chunks(l.take(i + 1)) =~= (h1 + admission_hash_chunks(l.take(i as int))).push(l[i as int].admission_hash.0@));
        }
    }
    assert(plan.admissions@.take(m as int) == plan.admissions@);
    push_chunk(&mut chunks, Vec::new());
    let ghost h2 = chunk_views(chunks@);
    let k = plan.cost_estimates.len();
    for i in 0..k
        invariant
            k == plan.cost_estimates@.len(),
            chunk_views(chunks@) == h2 + cost_hash_chunks(plan.cost_estimates@.take(i as int)),
    {
        push_chunk(&mut chunks, hash_to_vec(&plan.cost_estimates[i].estimate_hash));
        proof {
            let l = plan.cost_estimates@;
            assert(cost_hash_chunks(l.take(i + 1)) =~= cost_hash_chunks(l.take(i as int)).push(l[i as int].estimate_hash.0@));
            assert(h2 + cost_hash_chunks(l.take(i + 1)) =~= (h2 + cost_hash_chunks(l.take(i as int))).push(l[i as int].estimate_hash.0@));
        }
    }
    assert(plan.cost_estimates@.take(k as int) == plan.cost_estimates@);
    assert(chunk_views(chunks@) =~= kernel_plan_chunks(*plan));
    hash_sequence("kernel-plan", chunks.as_slice())
}

impl KernelPlan {
    pub open spec fn hash_is_current(self) -> bool {
        self.plan_hash.0@ == spec_hash_kernel_plan(self)
    }

    /// A plan for a block whose first declared entry is the one selected; an
    /// implementation-bug error when the ladder is empty.
    pub fn new(
        block_id: BlockId,
        declared_ladder: Vec<KernelExecutionPlan>,
        admissions: Vec<KernelAdmission>,
        cost_estimates: Vec<KernelCostEstimate>,
    ) -> (r: Result<Self, SolverError>)
        ensures
            r is Err <==> declared_ladder@.len() == 0,
            r matches Err(e) ==> e.kind matches SolverErrorKind::Failure(FailureKind::ImplementationBug { invariant_violated: m }) && m@ == "declared ladder is empty"@,
            r matches Ok(p) ==> p.block_id == block_id && p.declared_ladder == declared_ladder
                && p.admissions == admissions && p.cost_estimates == cost_estimates
                && p.selected_first == declared_ladder@[0].kernel_kind && p.hash_is_current(),
    {
        if declared_ladder.len() == 0 {
            return Err(implementation_bug("declared ladder is empty"));
        }
        let selected_first = declared_ladder[0].kernel_kind;
        let mut plan = Self {
            block_id,
            declared_ladder,
            selected_first,
            admissions,
            cost_estimates,
            plan_hash: hash_sequence("kernel-plan", &[]),
        };
        plan.plan_hash = hash_kernel_plan(&plan);
        Ok(plan)
    }
}

/// The position of the first ladder entry for `kind`.
pub open spec fn first_entry_of_kind(ladder: Seq<KernelExecutionPlan>, kind: KernelKind) -> Option<int>
    decreases ladder.len(),
{
    if ladder.len() == 0 {
        None
    } else if ladder[0].kernel_kind == kind {
        Some(0)
    } else {
        match first_entry_of_kind(ladder.drop_first(), kind) {
            Some(i) => Some(i + 1),
            None => None,
        }
    }
}

pub proof fn lemma_first_entry_skip(ladder: Seq<KernelExecutionPlan>, kind: KernelKind, i: int)
    requires
        0 <= i < ladder.len(),
    ensures
        first_entry_of_kind(ladder.skip(i), kind) == if ladder[i].kernel_kind == kind {
            Some(0int)
        } else {
            match first_entry_of_kind(ladder.skip(i + 1), kind) {
                Some(k) => Some(k + 1),
                None => None,
            }
        },
{
    assert(ladder.skip(i)[0] == ladder[i]);
    assert(ladder.skip(i).drop_first() == ladder.skip(i + 1));
}

/// The declared entry for `kind`, after checking that the plan still hashes to
/// `expected_plan_hash`; implementation-bug errors otherwise.
pub fn require_declared_kernel_plan(
    plan: &KernelPlan,
    kernel_kind: KernelKind,
    expected_plan_hash: hash::Hash,
) -> (r: Result<&KernelExecutionPlan, SolverError>)
    ensures
        r is Ok <==> plan.plan_hash.0@ == expected_plan_hash.0@ && spec_hash_kernel_plan(*plan)
            == expected_plan_hash.0@ && first_entry_of_kind(plan.declared_ladder@, kernel_kind) is Some,
        r matches Ok(p) ==> *p == plan.declared_ladder@[first_entry_of_kind(plan.declared_ladder@, kernel_kind)->0],
        r matches Err(e) ==> e.kind is Failure && e.target is None && spec_public_status(e.kind) == SolverStatus::ImplementationBug,
{
    let recomputed = hash_kernel_plan(plan);
    if !hash_eq(&plan.plan_hash, &expected_plan_hash) || !hash_eq(&recomputed, &expected_plan_hash) {
        return Err(implementation_bug("declared ladder hash mismatch before execution"));
    }
    let n = plan.declared_ladder.len();
    let ghost ladder = plan.declared_ladder@;
    assert(ladder.skip(0) == ladder);
    for i in 0..n
        invariant
            n == ladder.len(),
            ladder == plan.declared_ladder@,
            plan.plan_hash.0@ == expected_plan_hash.0@,
            spec_hash_kernel_plan(*plan) == expected_plan_hash.0@,
            first_entry_of_kind(ladder, kernel_kind) == match first_entry_of_kind(ladder.skip(i as int), kernel_kind) {
                Some(k) => Some(k + i),
                None => None,
            },
    {
        proof {
            lemma_first_entry_skip(ladder, kernel_kind, i as int);
        }
        if plan.declared_ladder[i].kernel_kind == kernel_kind {
            return Ok(&plan.declared_ladder[i]);
        }
    }
    assert(ladder.skip(n as int).len() == 0);
    Err(implementation_bug("kernel absent from declared ladder"))
}

pub fn affine_elimination_plan(steps: Vec<AffineEliminationStep>) -> (p: AffineEliminationPlan)
    ensures
        p.steps == steps,
        p.order_hash.0@ == spec_affine_plan_hash(p),
{
    let mut plan = AffineEliminationPlan {
        steps,
        order_hash: hash_sequence("affine-elimination-plan", &[]),
    };
    plan.order_hash = hash_affine_elimination_plan(&plan);
    plan
}

pub fn affine_elimination_step(
    eliminated_variable: VariableId,
    source_relation_id: RelationId,
    pivot_hash: hash::Hash,
    denominator_guard_hash: Option<hash::Hash>,
) -> (s: AffineEliminationStep)
    ensures
        s.eliminated_variable == eliminated_variable,
        s.source_relation_id == source_relation_id,
        s.pivot_hash == pivot_hash,
        s.denominator_guard_hash == denominator_guard_hash,
        s.step_hash.0@ == spec_affine_step_hash(s),
{
    let mut step = AffineEliminationStep {
        eliminated_variable,
        source_relation_id,
        pivot_hash,
        denominator_guard_hash,
        step_hash: hash_sequence("affine-elimination-step", &[]),
    };
    step.step_hash = hash_affine_elimination_step(&step);
    step
}

pub fn planned_failure_behavior(
    allowed_statuses: Vec<SolverStatus>,
    local_nonfinite_policy: LocalNonfinitePolicy,
) -> (b: PlannedFailureBehavior)
    ensures
        b.allowed_statuses == allowed_statuses,
        b.local_nonfinite_policy == local_nonfinite_policy,
        b.behavior_hash.0@ == spec_failure_behavior_hash(allowed_statuses@, local_nonfinite_policy),
{
    let behavior_hash = failure_behavior_hash_from_parts(allowed_statuses.as_slice(), local_nonfinite_policy);
    PlannedFailureBehavior { allowed_statuses, local_nonfinite_policy, behavior_hash }
}

pub fn universal_strategy_step(
    strategy: UniversalStrategy,
    enabled: bool,
    skip_reason: Option<String>,
) -> (s: UniversalStrategyPlanStep)
    ensures
        s.strategy == strategy,
        s.enabled == enabled,
        s.skip_reason == skip_reason,
        s.strategy_hash.0@ == spec_universal_step_hash(s),
{
    let strategy_hash = match &skip_reason {
        Some(r) => universal_strategy_step_hash_from_parts(strategy, enabled, Some(r.as_str())),
        None => universal_strategy_step_hash_from_parts(strategy, enabled, None),
    };
    UniversalStrategyPlanStep { strategy, enabled, skip_reason, strategy_hash }
}

pub fn rank_plan(estimated_rank: usize) -> (r: RankPlan)
    ensures
        r.estimated_rank == estimated_rank,
        r.rank_plan_hash.0@ == spec_rank_plan_hash(estimated_rank),
{
    RankPlan { estimated_rank, rank_plan_hash: rank_plan_hash(estimated_rank) }
}

pub fn template_plan(
    matrix_rows: usize,
    matrix_cols: usize,
    row_monomial_hash: hash::Hash,
    column_support_hash: hash::Hash,
) -> (t: TemplatePlan)
    ensures
        t == (TemplatePlan { matrix_rows, matrix_cols, row_monomial_hash, column_support_hash }),
{
    TemplatePlan { matrix_rows, matrix_cols, row_monomial_hash, column_support_hash }
}

/// The digest strings of `out` are those of `input`, sorted and without repetition.
pub open spec fn sorted_dedup_of(out: Seq<hash::Hash>, input: Seq<hash::Hash>) -> bool {
    &&& hash::strictly_sorted(hash::hash_views(out))
    &&& forall|y: Seq<u8>| hash::hash_views(out).contains(y) <==> hash::hash_views(input).contains(y)
}

/// What a certified probe plan built from these parts holds.
pub open spec fn is_probe_plan_for(
    p: CertifiedProbePlan,
    authorization_hash: hash::Hash,
    source_relation_hashes: Seq<hash::Hash>,
    probe_output_hashes: Seq<hash::Hash>,
    resource_trace_hash: hash::Hash,
    cost_trace_hash: hash::Hash,
    probe_certificate_hash: hash::Hash,
) -> bool {
    &&& p.authorization_hash.0@ == authorization_hash.0@
    &&& sorted_dedup_of(p.source_relation_hashes@, source_relation_hashes)
    &&& sorted_dedup_of(p.probe_output_hashes@, probe_output_hashes)
    &&& p.resource_trace_hash.0@ == resource_trace_hash.0@
    &&& p.cost_trace_hash.0@ == cost_trace_hash.0@
    &&& p.probe_certificate_hash.0@ == probe_certificate_hash.0@
    &&& p.execute_replay_required
    &&& p.probe_hash.0@ == spec_probe_plan_hash(p)
}

/// Two lists of digests hold the same digests.
pub open spec fn same_hash_set(a: Seq<hash::Hash>, b: Seq<hash::Hash>) -> bool {
    forall|y: Seq<u8>| hash::hash_views(a).contains(y) <==> hash::hash_views(b).contains(y)
}

/// A certified probe plan depends on its digest lists only through the sets of digests in
/// them: a plan for some lists is a plan for any lists with the same sets, so its replay
/// succeeds for them.
pub proof fn lemma_probe_plan_for_same_sets(
    p: CertifiedProbePlan,
    authorization_hash: hash::Hash,
    s1: Seq<hash::Hash>,
    o1: Seq<hash::Hash>,
    s2: Seq<hash::Hash>,
    o2: Seq<hash::Hash>,
    resource_trace_hash: hash::Hash,
    cost_trace_hash: hash::Hash,
    probe_certificate_hash: hash::Hash,
)
    requires
        is_probe_plan_for(p, authorization_hash, s1, o1, resource_trace_hash, cost_trace_hash, probe_certificate_hash),
        same_hash_set(s1, s2),
        same_hash_set(o1, o2),
    ensures
        is_probe_plan_for(p, authorization_hash, s2, o2, resource_trace_hash, cost_trace_hash, probe_certificate_hash),
{
}

/// Certified probe plans built from lists with the same sets of digests are the same plan:
/// permuting or repeating entries changes nothing (as digests).
pub proof fn lemma_probe_plan_unique(
    p: CertifiedProbePlan,
    q: CertifiedProbePlan,
    authorization_hash: hash::Hash,
    s1: Seq<hash::Hash>,
    o1: Seq<hash::Hash>,
    s2: Seq<hash::Hash>,
    o2: Seq<hash::Hash>,
    resource_trace_hash: hash::Hash,
    cost_trace_hash: hash::Hash,
    probe_certificate_hash: hash::Hash,
)
    requires
        is_probe_plan_for(p, authorization_hash, s1, o1, resource_trace_hash, cost_trace_hash, probe_certificate_hash),
        is_probe_plan_for(q, authorization_hash, s2, o2, resource_trace_hash, cost_trace_hash, probe_certificate_hash),
        same_hash_set(s1, s2),
        same_hash_set(o1, o2),
    ensures
        hash::hash_views(p.source_relation_hashes@) == hash::hash_views(q.source_relation_hashes@),
        hash::hash_views(p.probe_output_hashes@) == hash::hash_views(q.probe_output_hashes@),
        probe_chunks(p) == probe_chunks(q),
        p.probe_hash.0@ == q.probe_hash.0@,
{
    hash::lemma_sorted_unique(hash::hash_views(p.source_relation_hashes@), hash::hash_views(q.source_relation_hashes@));
    hash::lemma_sorted_unique(hash::hash_views(p.probe_output_hashes@), hash::hash_views(q.probe_output_hashes@));
    assert(probe_chunks(p) =~= probe_chunks(q));
}

fn certified_probe_plan_from(
    authorization_hash: hash::Hash,
    source_relation_hashes: &[hash::Hash],
    probe_output_hashes: &[hash::Hash],
    resource_trace_hash: hash::Hash,
    cost_trace_hash: hash::Hash,
    probe_certificate_hash: hash::Hash,
) -> (c: PlanWorkClassification)
    ensures
        c matches PlanWorkClassification::CertifiedProbePlan(p) && is_probe_plan_for(
            p,
            authorization_hash,
            source_relation_hashes@,
            probe_output_hashes@,
            resource_trace_hash,
            cost_trace_hash,
            probe_certificate_hash,
        ),
{
    let ghost src = source_relation_hashes@;
    let ghost outs = probe_output_hashes@;
    let source_relation_hashes = hash::sort_dedup_hashes(source_relation_hashes);
    let probe_output_hashes = hash::sort_dedup_hashes(probe_output_hashes);
    let mut probe = CertifiedProbePlan {
        authorization_hash,
        source_relation_hashes,
        probe_output_hashes,
        resource_trace_hash,
        cost_trace_hash,
        probe_certificate_hash,
        execute_replay_required: true,
        probe_hash: hash_sequence("certified-probe-plan", &[]),
    };
    probe.probe_hash = hash_certified_probe_plan(&probe);
    PlanWorkClassification::CertifiedProbePlan(probe)
}

/// A certified probe classification: the hash lists sorted and deduplicated, replay required,
/// and the probe hash bound to the rest.
pub fn certified_probe_plan(
    authorization_hash: hash::Hash,
    source_relation_hashes: Vec<hash::Hash>,
    probe_output_hashes: Vec<hash::Hash>,
    resource_trace_hash: hash::Hash,
    cost_trace_hash: hash::Hash,
    probe_certificate_hash: hash::Hash,
) -> (c: PlanWorkClassification)
    ensures
        c matches PlanWorkClassification::CertifiedProbePlan(p) && is_probe_plan_for(
            p,
            authorization_hash,
            source_relation_hashes@,
            probe_output_hashes@,
            resource_trace_hash,
            cost_trace_hash,
            probe_certificate_hash,
        ),
{
    certified_probe_plan_from(
        authorization_hash,
        source_relation_hashes.as_slice(),
        probe_output_hashes.as_slice(),
        resource_trace_hash,
        cost_trace_hash,
        probe_certificate_hash,
    )
}

/// Field-wise equality of two work classifications, digests compared by their bytes.
pub open spec fn same_classification(a: PlanWorkClassification, b: PlanWorkClassification) -> bool {
    match (a, b) {
        (PlanWorkClassification::PurePlan, PlanWorkClassification::PurePlan) => true,
        (PlanWorkClassification::CertifiedProbePlan(p), PlanWorkClassification::CertifiedProbePlan(q)) => {
            &&& p.authorization_hash.0@ == q.authorization_hash.0@
            &&& hash::hash_views(p.source_relation_hashes@) == hash::hash_views(q.source_relation_hashes@)
            &&& hash::hash_views(p.probe_output_hashes@) == hash::hash_views(q.probe_output_hashes@)
            &&& p.resource_trace_hash.0@ == q.resource_trace_hash.0@
            &&& p.cost_trace_hash.0@ == q.cost_trace_hash.0@
            &&& p.probe_certificate_hash.0@ == q.probe_certificate_hash.0@
            &&& p.execute_replay_required == q.execute_replay_required
            &&& p.probe_hash.0@ == q.probe_hash.0@
        },
        _ => false,
    }
}

fn classification_eq(a: &PlanWorkClassification, b: &PlanWorkClassification) -> (r: bool)
    ensures
        r == same_classification(*a, *b),
{
    match (a, b) {
        (PlanWorkClassification::PurePlan, PlanWorkClassification::PurePlan) => true,
        (PlanWorkClassification::CertifiedProbePlan(p), PlanWorkClassification::CertifiedProbePlan(q)) => {
            hash_eq(&p.authorization_hash, &q.authorization_hash)
                && hash::hash_list_eq(p.source_relation_hashes.as_slice(), q.source_relation_hashes.as_slice())
                && hash::hash_list_eq(p.probe_output_hashes.as_slice(), q.probe_output_hashes.as_slice())
                && hash_eq(&p.resource_trace_hash, &q.resource_trace_hash)
                && hash_eq(&p.cost_trace_hash, &q.cost_trace_hash)
                && hash_eq(&p.probe_certificate_hash, &q.probe_certificate_hash)
                && p.execute_replay_required == q.execute_replay_required
                && hash_eq(&p.probe_hash, &q.probe_hash)
        },
        _ => false,
    }
}

/// Replays a certified probe: the plan's classification must be the certified probe plan
/// of the plan's authorization, bounds and support hashes with these source, output and
/// certificate hashes (compared as sorted, duplicate-free lists).
pub fn verify_certified_probe_replay(
    plan: &KernelExecutionPlan,
    source_relation_hashes: &[hash::Hash],
    probe_output_hashes: &[hash::Hash],
    probe_certificate_hash: hash::Hash,
) -> (r: Result<(), SolverError>)
    ensures
        r is Ok <==> (plan.plan_work_classification matches PlanWorkClassification::CertifiedProbePlan(p)
            && is_probe_plan_for(
            p,
            plan.input_block_authorization_hash,
            source_relation_hashes@,
            probe_output_hashes@,
            plan.resource_bounds.bounds_hash,
            plan.support_plan.support_hash,
            probe_certificate_hash,
        )),
        r matches Err(e) ==> e.kind is Failure && e.target is None && spec_public_status(e.kind) == SolverStatus::ImplementationBug,
{
    let expected = certified_probe_plan_from(
        plan.input_block_authorization_hash,
        source_relation_hashes,
        probe_output_hashes,
        plan.resource_bounds.bounds_hash,
        plan.support_plan.support_hash,
        probe_certificate_hash,
    );
    let same = classification_eq(&plan.plan_work_classification, &expected);
    let ghost actual_class = plan.plan_work_classification;
    let ghost expected_class = expected;
    proof {
        match (actual_class, expected_class) {
            (PlanWorkClassification::CertifiedProbePlan(p), PlanWorkClassification::CertifiedProbePlan(q)) => {
                if is_probe_plan_for(
                    p,
                    plan.input_block_authorization_hash,
                    source_relation_hashes@,
                    probe_output_hashes@,
                    plan.resource_bounds.bounds_hash,
                    plan.support_plan.support_hash,
                    probe_certificate_hash,
                ) {
                    hash::lemma_sorted_unique(
                        hash::hash_views(p.source_relation_hashes@),
                        hash::hash_views(q.source_relation_hashes@),
                    );
                    hash::lemma_sorted_unique(
                        hash::hash_views(p.probe_output_hashes@),
                        hash::hash_views(q.probe_output_hashes@),
                    );
                    assert(probe_chunks(p) =~= probe_chunks(q));
                }
                if same {
                    assert(probe_chunks(p) =~= probe_chunks(q));
                }
            },
            _ => {},
        }
    }
    if !same {
        return Err(implementation_bug(
            "certified probe plan was not replayed against its bound source/output hashes",
        ));
    }
    Ok(())
}

} // verus!
