//! The certificate of a whole solver run.
use vstd::prelude::*;

use crate::types::hash;

verus! {

/// The digest binding a run's inputs, plans and outputs.
#[derive(Debug, Clone, Copy, PartialEq, Eq)]
pub struct CoreRunCertificate {
    pub run_hash: hash::Hash,
}

} // verus!
