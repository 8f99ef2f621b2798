//! Real algebraic numbers as a support polynomial, a root index and an isolating interval.
use vstd::prelude::*;
use vstd::string::StringSliceAdditionalSpecFns;

use crate::result::status::{SolverError, SolverErrorKind};
use crate::roots::isolate::RealRootRecord;
use crate::types::bigint::{big_lt, big_mul, big_sub, BigInt};
use crate::types::bytes::{be_bytes, usize_be};
use crate::types::chunks::push_chunk;
use crate::types::hash::{self, chunk_views, hash_eq, hash_sequence, hash_to_vec, spec_hash_sequence};
use crate::types::interval::RationalInterval;
use crate::types::polynomial::copy_q;
use crate::types::rational::{rational_to_bytes, spec_rational_bytes, RationalQ};
use crate::types::univariate::{copy_coeffs, UniPolynomialQ};

verus! {

#[derive(Debug, Clone, Copy, PartialEq, Eq, Structural)]
pub enum AlgebraicRootOrdering {
    Less,
    Equal,
    Greater,
}

#[derive(Debug, Clone, PartialEq, Eq)]
pub struct AlgebraicRootRecord {
    pub support: UniPolynomialQ,
    pub support_hash: hash::Hash,
    pub root_index: usize,
    pub isolating_interval: RationalInterval,
    pub root_hash: hash::Hash,
}

pub open spec fn spec_algebraic_root_hash(support_hash: Seq<u8>, root_index: usize, lo: RationalQ, hi: RationalQ) -> Seq<u8> {
    spec_hash_sequence(
        "algebraic-root-record".spec_bytes(),
        seq![support_hash, be_bytes(root_index as nat, 8), spec_rational_bytes(lo), spec_rational_bytes(hi)],
    )
}

/// The digest binding a root to its support, index and isolating interval.
pub fn hash_algebraic_root(support_hash: hash::Hash, root_index: usize, isolating_interval: &RationalInterval) -> (h: hash::Hash)
    ensures
        h.0@ == spec_algebraic_root_hash(support_hash.0@, root_index, isolating_interval.lo, isolating_interval.hi),
{
    let mut chunks: Vec<Vec<u8>> = Vec::new();
    push_chunk(&mut chunks, hash_to_vec(&support_hash));
    push_chunk(&mut chunks, usize_be(root_index));
    push_chunk(&mut chunks, rational_to_bytes(&isolating_interval.lo));
    push_chunk(&mut chunks, rational_to_bytes(&isolating_interval.hi));
    proof {
        assert(chunk_views(chunks@) =~= seq![
            support_hash.0@,
            be_bytes(root_index as nat, 8),
            spec_rational_bytes(isolating_interval.lo),
            spec_rational_bytes(isolating_interval.hi),
        ]);
    }
    hash_sequence("algebraic-root-record", chunks.as_slice())
}

/// Same variable, digest and coefficient values.
pub open spec fn same_uni(a: UniPolynomialQ, b: UniPolynomialQ) -> bool {
    &&& a.variable == b.variable
    &&& a.hash == b.hash
    &&& a.coeffs_low_to_high@.len() == b.coeffs_low_to_high@.len()
    &&& forall|i: int|
        0 <= i < a.coeffs_low_to_high@.len() ==> (#[trigger] a.coeffs_low_to_high@[i]).num@ == b.coeffs_low_to_high@[i].num@
            && a.coeffs_low_to_high@[i].den@ == b.coeffs_low_to_high@[i].den@
}

/// Binds an isolated root to its support polynomial; refused when the record was isolated for
/// another support (its digest differs).
pub fn algebraic_root_from_record(support: &UniPolynomialQ, root: &RealRootRecord) -> (r: Result<AlgebraicRootRecord, SolverError>)
    ensures
        r is Err <==> root.support_hash.0@ != support.hash.0@,
        r matches Err(e) ==> e.target == Some(support.variable) && (e.kind matches SolverErrorKind::InvalidInput { message }
            && message@ == "root record support hash does not match support polynomial"@),
        r matches Ok(rec) ==> same_uni(rec.support, *support) && rec.support_hash == support.hash && rec.root_index
            == root.root_index && rec.isolating_interval.lo.num@ == root.isolating_interval.lo.num@
            && rec.isolating_interval.lo.den@ == root.isolating_interval.lo.den@ && rec.isolating_interval.hi.num@
            == root.isolating_interval.hi.num@ && rec.isolating_interval.hi.den@ == root.isolating_interval.hi.den@
            && rec.root_hash.0@ == spec_algebraic_root_hash(
            support.hash.0@,
            root.root_index,
            root.isolating_interval.lo,
            root.isolating_interval.hi,
        ),
{
    if !hash_eq(&root.support_hash, &support.hash) {
        return Err(
            SolverError::invalid_input(Some(support.variable), "root record support hash does not match support polynomial"),
        );
    }
    let root_hash = hash_algebraic_root(support.hash, root.root_index, &root.isolating_interval);
    let coeffs = copy_coeffs(support.coeffs_low_to_high.as_slice());
    let copy = UniPolynomialQ { variable: support.variable, coeffs_low_to_high: coeffs, hash: support.hash };
    let interval = RationalInterval { lo: copy_q(&root.isolating_interval.lo), hi: copy_q(&root.isolating_interval.hi) };
    Ok(AlgebraicRootRecord {
        support: copy,
        support_hash: support.hash,
        root_index: root.root_index,
        isolating_interval: interval,
        root_hash,
    })
}

/// `a <= b` as numbers (both denominators nonzero).
pub open spec fn value_le(a: RationalQ, b: RationalQ) -> bool {
    (a.num@ * b.den@ - b.num@ * a.den@) * (a.den@ * b.den@) <= 0
}

fn rational_value_le(a: &RationalQ, b: &RationalQ) -> (r: bool)
    ensures
        r == value_le(*a, *b),
{
    let diff = big_sub(&big_mul(&a.num, &b.den), &big_mul(&b.num, &a.den));
    let dens = big_mul(&a.den, &b.den);
    let prod = big_mul(&diff, &dens);
    !big_lt(&BigInt::zero(), &prod)
}

/// The order of two roots: equal when they are the same root of the same support, otherwise
/// decided by disjoint isolating intervals; `None` when the intervals overlap.
pub fn compare_algebraic_roots(a: &AlgebraicRootRecord, b: &AlgebraicRootRecord) -> (r: Option<AlgebraicRootOrdering>)
    ensures
        r == if a.support_hash.0@ == b.support_hash.0@ && a.root_index == b.root_index {
            Some(AlgebraicRootOrdering::Equal)
        } else if value_le(a.isolating_interval.hi, b.isolating_interval.lo) {
            Some(AlgebraicRootOrdering::Less)
        } else if value_le(b.isolating_interval.hi, a.isolating_interval.lo) {
            Some(AlgebraicRootOrdering::Greater)
        } else {
            None
        },
{
    if hash_eq(&a.support_hash, &b.support_hash) && a.root_index == b.root_index {
        return Some(AlgebraicRootOrdering::Equal);
    }
    if rational_value_le(&a.isolating_interval.hi, &b.isolating_interval.lo) {
        return Some(AlgebraicRootOrdering::Less);
    }
    if rational_value_le(&b.isolating_interval.hi, &a.isolating_interval.lo) {
        return Some(AlgebraicRootOrdering::Greater);
    }
    None
}

} // verus!
