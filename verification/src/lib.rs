//! Exact rational target-variable solving core: hashing, identifiers,
//! monomials, rational arithmetic and the planner's cost and plan records.

pub mod planner;
pub mod preprocess;
pub mod problem;
pub mod result;
pub mod roots;
pub mod solver;
pub mod types;
pub mod verify;

