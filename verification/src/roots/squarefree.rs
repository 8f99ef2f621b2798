//! The squarefree support of a target polynomial.
use vstd::prelude::*;
use vstd::string::StringSliceAdditionalSpecFns;

use crate::result::status::{AlgebraicReason, FailureKind, SolverError, SolverErrorKind, StageId};
use crate::types::chunks::push_chunk;
use crate::types::hash::{chunk_views, hash_sequence, hash_to_vec, spec_hash_sequence};
use crate::types::univariate::{
    squarefree_part_uni, strip_zeros, uni_normalized, uni_wf, normalize_univariate, copy_coeffs, UniPolynomialQ,
};

verus! {

/// The squarefree part of `p`; the zero polynomial has no support and is refused as an
/// algorithmic hard case naming the stage, the reason and the digest of the normalized input.
pub fn squarefree_support(p: &UniPolynomialQ) -> (r: Result<UniPolynomialQ, SolverError>)
    requires
        uni_wf(p.coeffs_low_to_high@),
    ensures
        r is Err <==> strip_zeros(p.coeffs_low_to_high@).len() == 0,
        r matches Err(e) ==> e.target == Some(p.variable) && (e.kind matches SolverErrorKind::Failure(
            FailureKind::AlgorithmicHardCase { stage, reason, minimal_block_hash },
        ) && stage.0@ == "SquarefreeSupport"@ && reason.0@ == "zero support"@ && minimal_block_hash.0@ == spec_hash_sequence(
            "p12-zero-support".spec_bytes(),
            seq![crate::types::univariate::spec_uni_hash(p.variable, Seq::empty())],
        )),
        r matches Ok(s) ==> s.variable == p.variable && uni_normalized(s) && uni_wf(s.coeffs_low_to_high@)
            && s.coeffs_low_to_high@.len() <= strip_zeros(p.coeffs_low_to_high@).len()
            && (s.coeffs_low_to_high@.len() > 0 ==> s.coeffs_low_to_high@.last().num@ == 1
            && s.coeffs_low_to_high@.last().den@ == 1)
            && (strip_zeros(p.coeffs_low_to_high@).len() == 1 ==> s.coeffs_low_to_high@.len() == 1
            && s.coeffs_low_to_high@[0].num@ == 1 && s.coeffs_low_to_high@[0].den@ == 1)
            && crate::types::univariate::values_of(s.coeffs_low_to_high@) == crate::types::uni_values::vsquarefree(
            crate::types::univariate::values_of(p.coeffs_low_to_high@),
        ),
{
    let copy = copy_coeffs(p.coeffs_low_to_high.as_slice());
    proof {
        crate::types::univariate::lemma_strip_len_congruent(copy@, p.coeffs_low_to_high@);
    }
    let normalized = normalize_univariate(UniPolynomialQ { variable: p.variable, coeffs_low_to_high: copy, hash: p.hash });
    if normalized.coeffs_low_to_high.len() == 0 {
        let mut chunks: Vec<Vec<u8>> = Vec::new();
        push_chunk(&mut chunks, hash_to_vec(&normalized.hash));
        proof {
            assert(normalized.coeffs_low_to_high@ =~= Seq::empty());
            assert(chunk_views(chunks@) =~= seq![crate::types::univariate::spec_uni_hash(p.variable, Seq::empty())]);
        }
        let minimal_block_hash = hash_sequence("p12-zero-support", chunks.as_slice());
        return Err(SolverError {
            target: Some(normalized.variable),
            kind: SolverErrorKind::Failure(FailureKind::AlgorithmicHardCase {
                stage: StageId("SquarefreeSupport".to_owned()),
                reason: AlgebraicReason("zero support".to_owned()),
                minimal_block_hash,
            }),
        });
    }
    Ok(squarefree_part_uni(p))
}

} // verus!
