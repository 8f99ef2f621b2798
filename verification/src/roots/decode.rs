//! A candidate value of the target: one real root of its support polynomial.
use vstd::prelude::*;

use crate::types::hash;
use crate::types::ids::VariableId;

verus! {

#[derive(Debug, Clone, PartialEq, Eq)]
pub struct TargetCandidate {
    pub target: VariableId,
    pub support_hash: hash::Hash,
    pub root_index: usize,
}

} // verus!
