//! The record of one isolated real root of a support polynomial.
use vstd::prelude::*;

use crate::types::hash;
use crate::types::interval::RationalInterval;

verus! {

#[derive(Debug, Clone, PartialEq, Eq)]
pub struct RealRootRecord {
    pub support_hash: hash::Hash,
    pub root_index: usize,
    pub isolating_interval: RationalInterval,
}

} // verus!
