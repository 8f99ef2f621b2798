//! The projection kernels the planner can schedule.
use vstd::prelude::*;

verus! {

#[derive(Debug, Clone, Copy, PartialEq, Eq, Structural, PartialOrd, Ord, Hash)]
pub enum KernelKind {
    TargetUnivariate,
    LinearAffine,
    TargetRelationSearch,
    SparseResultantProjection,
    TargetActionKrylov,
    NormTraceProjection,
    RegularChainProjection,
    SpecializationInterpolation,
    UniversalTargetElimination,
}

/// The variant's name, as `{:?}` prints it.
pub open spec fn kernel_kind_label(kind: KernelKind) -> Seq<char> {
    match kind {
        KernelKind::TargetUnivariate => "TargetUnivariate"@,
        KernelKind::LinearAffine => "LinearAffine"@,
        KernelKind::TargetRelationSearch => "TargetRelationSearch"@,
        KernelKind::SparseResultantProjection => "SparseResultantProjection"@,
        KernelKind::TargetActionKrylov => "TargetActionKrylov"@,
        KernelKind::NormTraceProjection => "NormTraceProjection"@,
        KernelKind::RegularChainProjection => "RegularChainProjection"@,
        KernelKind::SpecializationInterpolation => "SpecializationInterpolation"@,
        KernelKind::UniversalTargetElimination => "UniversalTargetElimination"@,
    }
}

pub fn kernel_kind_name(kind: KernelKind) -> (s: &'static str)
    ensures
        s@ == kernel_kind_label(kind),
{
    match kind {
        KernelKind::TargetUnivariate => "TargetUnivariate",
        KernelKind::LinearAffine => "LinearAffine",
        KernelKind::TargetRelationSearch => "TargetRelationSearch",
        KernelKind::SparseResultantProjection => "SparseResultantProjection",
        KernelKind::TargetActionKrylov => "TargetActionKrylov",
        KernelKind::NormTraceProjection => "NormTraceProjection",
        KernelKind::RegularChainProjection => "RegularChainProjection",
        KernelKind::SpecializationInterpolation => "SpecializationInterpolation",
        KernelKind::UniversalTargetElimination => "UniversalTargetElimination",
    }
}

} // verus!
