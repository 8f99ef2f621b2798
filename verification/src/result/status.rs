//! Public solver statuses and the errors that produce them.
use vstd::prelude::*;

use crate::types::hash;
use crate::types::ids::{BlockId, VariableId};
use crate::types::rational::RationalQ;

verus! {

#[derive(Debug, Clone, Copy, PartialEq, Eq, Structural)]
pub enum SolverStatus {
    CertifiedCandidateCover,
    CertifiedNonFiniteTargetImage,
    FiniteResourceFailure,
    AlgorithmicHardCase,
    CertificateDesignGap,
    ImplementationBug,
    InvalidInput,
}

/// The variant's name, as `{:?}` prints it.
pub open spec fn solver_status_label(s: SolverStatus) -> Seq<char> {
    match s {
        SolverStatus::CertifiedCandidateCover => "CertifiedCandidateCover"@,
        SolverStatus::CertifiedNonFiniteTargetImage => "CertifiedNonFiniteTargetImage"@,
        SolverStatus::FiniteResourceFailure => "FiniteResourceFailure"@,
        SolverStatus::AlgorithmicHardCase => "AlgorithmicHardCase"@,
        SolverStatus::CertificateDesignGap => "CertificateDesignGap"@,
        SolverStatus::ImplementationBug => "ImplementationBug"@,
        SolverStatus::InvalidInput => "InvalidInput"@,
    }
}

pub fn solver_status_name(s: SolverStatus) -> (r: &'static str)
    ensures
        r@ == solver_status_label(s),
{
    match s {
        SolverStatus::CertifiedCandidateCover => "CertifiedCandidateCover",
        SolverStatus::CertifiedNonFiniteTargetImage => "CertifiedNonFiniteTargetImage",
        SolverStatus::FiniteResourceFailure => "FiniteResourceFailure",
        SolverStatus::AlgorithmicHardCase => "AlgorithmicHardCase",
        SolverStatus::CertificateDesignGap => "CertificateDesignGap",
        SolverStatus::ImplementationBug => "ImplementationBug",
        SolverStatus::InvalidInput => "InvalidInput",
    }
}

#[derive(Debug, Clone, PartialEq, Eq)]
pub struct StageId(pub String);

#[derive(Debug, Clone, PartialEq, Eq)]
pub struct AlgebraicReason(pub String);

#[derive(Debug, Clone, PartialEq, Eq)]
pub enum FailureKind {
    FiniteResourceFailure {
        stage: StageId,
        block_id: Option<BlockId>,
        matrix_rows: Option<usize>,
        matrix_cols: Option<usize>,
        matrix_density: Option<RationalQ>,
        quotient_rank_estimate: Option<usize>,
        coefficient_height_bits: Option<usize>,
        memory_bytes: Option<u64>,
    },
    AlgorithmicHardCase { stage: StageId, reason: AlgebraicReason, minimal_block_hash: hash::Hash },
    CertificateDesignGap { constructed_object_hash: hash::Hash, missing_certificate_kind: String },
    ImplementationBug { invariant_violated: String },
}

#[derive(Debug, Clone, PartialEq, Eq)]
pub enum SolverErrorKind {
    InvalidInput { message: String },
    Failure(FailureKind),
}

#[derive(Debug, Clone, PartialEq, Eq)]
pub struct SolverError {
    pub target: Option<VariableId>,
    pub kind: SolverErrorKind,
}

/// The public status an error kind reports.
pub open spec fn spec_public_status(kind: SolverErrorKind) -> SolverStatus {
    match kind {
        SolverErrorKind::InvalidInput { .. } => SolverStatus::InvalidInput,
        SolverErrorKind::Failure(FailureKind::FiniteResourceFailure { .. }) => SolverStatus::FiniteResourceFailure,
        SolverErrorKind::Failure(FailureKind::AlgorithmicHardCase { .. }) => SolverStatus::AlgorithmicHardCase,
        SolverErrorKind::Failure(FailureKind::CertificateDesignGap { .. }) => SolverStatus::CertificateDesignGap,
        SolverErrorKind::Failure(FailureKind::ImplementationBug { .. }) => SolverStatus::ImplementationBug,
    }
}

impl SolverError {
    pub fn invalid_input(target: Option<VariableId>, message: &str) -> (e: Self)
        ensures
            e.target == target,
            e.kind matches SolverErrorKind::InvalidInput { message: m } && m@ == message@,
    {
        Self { target, kind: SolverErrorKind::InvalidInput { message: message.to_owned() } }
    }

    pub fn public_status(&self) -> (s: SolverStatus)
        ensures
            s == spec_public_status(self.kind),
    {
        match &self.kind {
            SolverErrorKind::InvalidInput { .. } => SolverStatus::InvalidInput,
            SolverErrorKind::Failure(FailureKind::FiniteResourceFailure { .. }) => {
                SolverStatus::FiniteResourceFailure
            },
            SolverErrorKind::Failure(FailureKind::AlgorithmicHardCase { .. }) => {
                SolverStatus::AlgorithmicHardCase
            },
            SolverErrorKind::Failure(FailureKind::CertificateDesignGap { .. }) => {
                SolverStatus::CertificateDesignGap
            },
            SolverErrorKind::Failure(FailureKind::ImplementationBug { .. }) => {
                SolverStatus::ImplementationBug
            },
        }
    }
}

/// An `ImplementationBug` failure naming the violated invariant, with no target.
pub fn implementation_bug(message: &str) -> (e: SolverError)
    ensures
        e.target is None,
        e.kind matches SolverErrorKind::Failure(FailureKind::ImplementationBug { invariant_violated: m }) && m@ == message@,
{
    SolverError {
        target: None,
        kind: SolverErrorKind::Failure(
            FailureKind::ImplementationBug { invariant_violated: message.to_owned() },
        ),
    }
}

} // verus!
