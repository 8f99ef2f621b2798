//! Closed rational intervals, ordered by the values of their endpoints.
use vstd::prelude::*;

use crate::types::rational::{rational_lt, value_lt, RationalQ};

verus! {

#[derive(Debug, Clone, PartialEq, Eq)]
pub struct RationalInterval {
    pub lo: RationalQ,
    pub hi: RationalQ,
}

#[derive(Debug, Clone, Copy, PartialEq, Eq, Structural)]
pub enum IntervalError {
    Empty,
}

/// The value of `a` is at most the value of `b`.
pub open spec fn value_le(a: RationalQ, b: RationalQ) -> bool {
    !value_lt(b, a)
}

/// `[lo, hi]`, refused unless the lower bound is strictly less than the upper bound.
pub fn interval_new(lo: RationalQ, hi: RationalQ) -> (r: Result<RationalInterval, IntervalError>)
    ensures
        r is Err <==> !value_lt(lo, hi),
        r matches Ok(i) ==> i.lo == lo && i.hi == hi,
{
    if !rational_lt(&lo, &hi) {
        return Err(IntervalError::Empty);
    }
    Ok(RationalInterval { lo, hi })
}

/// Whether `lo <= x <= hi` by value.
pub fn interval_contains_q(i: &RationalInterval, x: &RationalQ) -> (r: bool)
    ensures
        r == (value_le(i.lo, *x) && value_le(*x, i.hi)),
{
    !rational_lt(x, &i.lo) && !rational_lt(&i.hi, x)
}

/// Whether one interval lies strictly below the other.
pub fn interval_disjoint(a: &RationalInterval, b: &RationalInterval) -> (r: bool)
    ensures
        r == (value_lt(a.hi, b.lo) || value_lt(b.hi, a.lo)),
{
    rational_lt(&a.hi, &b.lo) || rational_lt(&b.hi, &a.lo)
}

} // verus!
