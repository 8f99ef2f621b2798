//! Kernel admission records: whether a kernel accepted a block, and on what evidence.
use vstd::prelude::*;
use vstd::string::StringSliceAdditionalSpecFns;

use crate::planner::kernel_kind::KernelKind;
use crate::planner::kernel_plan::{KernelExecutionPlan, ResourceBounds};
use crate::types::hash::{self, hash_sequence, spec_hash_sequence};
use crate::types::ids::{BlockId, RelationId, VariableId};

verus! {

#[derive(Debug, Clone, PartialEq, Eq)]
pub struct KernelAdmission {
    pub kind: KernelKind,
    pub block_id: BlockId,
    pub admission_evidence: KernelAdmissionEvidence,
    pub status: KernelAdmissionStatus,
    pub exported_variables: Vec<VariableId>,
    pub eliminated_variables: Vec<VariableId>,
    pub execution_plan: Option<KernelExecutionPlan>,
    pub admission_hash: hash::Hash,
}

#[derive(Debug, Clone, PartialEq, Eq)]
pub struct KernelAdmissionEvidence {
    pub runtime_admission_hash: Option<hash::Hash>,
    pub source_relation_ids: Vec<RelationId>,
    pub source_relation_hashes: Vec<hash::Hash>,
    pub initial_resource_bounds: Option<ResourceBounds>,
    pub estimated_matrix_rows: Option<usize>,
    pub estimated_matrix_cols: Option<usize>,
    pub estimated_template_size: Option<usize>,
    pub evidence_hash: hash::Hash,
}

impl KernelAdmissionEvidence {
    /// Evidence with nothing recorded, hashed as an empty chunk list.
    pub fn empty() -> (e: Self)
        ensures
            e.runtime_admission_hash is None,
            e.source_relation_ids@.len() == 0,
            e.source_relation_hashes@.len() == 0,
            e.initial_resource_bounds is None,
            e.estimated_matrix_rows is None,
            e.estimated_matrix_cols is None,
            e.estimated_template_size is None,
            e.evidence_hash.0@ == spec_hash_sequence(
                "kernel-admission-evidence".spec_bytes(),
                Seq::empty(),
            ),
    {
        let h = hash_sequence("kernel-admission-evidence", &[]);
        proof {
            assert(hash::chunk_views(Seq::<Vec<u8>>::empty()) =~= Seq::<Seq<u8>>::empty());
        }
        Self {
            runtime_admission_hash: None,
            source_relation_ids: Vec::new(),
            source_relation_hashes: Vec::new(),
            initial_resource_bounds: None,
            estimated_matrix_rows: None,
            estimated_matrix_cols: None,
            estimated_template_size: None,
            evidence_hash: h,
        }
    }
}

#[derive(Debug, Clone, PartialEq, Eq)]
pub enum KernelAdmissionStatus {
    Admitted,
    Declined { reason: String },
    CostProhibited { reason: String, estimate_hash: hash::Hash },
    PlanProbeFailed { reason: String, constructed_object_hash: hash::Hash },
}

impl KernelAdmission {
    pub fn is_admitted(&self) -> (r: bool)
        ensures
            r == (self.status is Admitted),
    {
        match self.status {
            KernelAdmissionStatus::Admitted => true,
            _ => false,
        }
    }
}

/// The planner's candidate kernels, in ladder order.
pub open spec fn planner_kernel_kinds() -> Seq<KernelKind> {
    seq![
        KernelKind::TargetUnivariate,
        KernelKind::LinearAffine,
        KernelKind::TargetRelationSearch,
        KernelKind::SparseResultantProjection,
        KernelKind::TargetActionKrylov,
        KernelKind::NormTraceProjection,
        KernelKind::RegularChainProjection,
        KernelKind::SpecializationInterpolation,
        KernelKind::UniversalTargetElimination,
    ]
}

pub fn all_planner_kernel_kinds() -> (kinds: Vec<KernelKind>)
    ensures
        kinds@ == planner_kernel_kinds(),
{
    let mut kinds: Vec<KernelKind> = Vec::new();
    kinds.push(KernelKind::TargetUnivariate);
    kinds.push(KernelKind::LinearAffine);
    kinds.push(KernelKind::TargetRelationSearch);
    kinds.push(KernelKind::SparseResultantProjection);
    kinds.push(KernelKind::TargetActionKrylov);
    kinds.push(KernelKind::NormTraceProjection);
    kinds.push(KernelKind::RegularChainProjection);
    kinds.push(KernelKind::SpecializationInterpolation);
    kinds.push(KernelKind::UniversalTargetElimination);
    assert(kinds@ =~= planner_kernel_kinds());
    kinds
}

/// The candidate list covers every kernel exactly once, the universal kernel last.
pub proof fn lemma_planner_kinds_cover_all(kind: KernelKind)
    ensures
        planner_kernel_kinds().contains(kind),
        planner_kernel_kinds().len() == 9,
        planner_kernel_kinds().last() == KernelKind::UniversalTargetElimination,
        forall|i: int, j: int|
            0 <= i < j < 9 ==> planner_kernel_kinds()[i] != planner_kernel_kinds()[j],
{
    let k = planner_kernel_kinds();
    match kind {
        KernelKind::TargetUnivariate => assert(k[0] == kind),
        KernelKind::LinearAffine => assert(k[1] == kind),
        KernelKind::TargetRelationSearch => assert(k[2] == kind),
        KernelKind::SparseResultantProjection => assert(k[3] == kind),
        KernelKind::TargetActionKrylov => assert(k[4] == kind),
        KernelKind::NormTraceProjection => assert(k[5] == kind),
        KernelKind::RegularChainProjection => assert(k[6] == kind),
        KernelKind::SpecializationInterpolation => assert(k[7] == kind),
        KernelKind::UniversalTargetElimination => assert(k[8] == kind),
    }
}

} // verus!
