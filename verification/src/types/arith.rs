//! Saturating and clamped machine arithmetic.
use vstd::prelude::*;

verus! {

pub open spec fn clamp_usize(n: int) -> int {
    if n > usize::MAX {
        usize::MAX as int
    } else {
        n
    }
}

pub open spec fn clamp_u128(n: int) -> int {
    if n > u128::MAX {
        u128::MAX as int
    } else {
        n
    }
}

pub open spec fn imax(a: int, b: int) -> int {
    if a >= b {
        a
    } else {
        b
    }
}

pub open spec fn imin(a: int, b: int) -> int {
    if a <= b {
        a
    } else {
        b
    }
}

/// `usize::saturating_add`.
pub fn sat_add_usize(a: usize, b: usize) -> (r: usize)
    ensures
        r == clamp_usize(a + b),
{
    match a.checked_add(b) {
        Some(x) => x,
        None => usize::MAX,
    }
}

/// `usize::saturating_mul`.
pub fn sat_mul_usize(a: usize, b: usize) -> (r: usize)
    ensures
        r == clamp_usize(a * b),
{
    match a.checked_mul(b) {
        Some(x) => x,
        None => usize::MAX,
    }
}

/// `usize::saturating_sub`.
pub fn sat_sub_usize(a: usize, b: usize) -> (r: usize)
    ensures
        r == imax(a - b, 0),
{
    if a >= b {
        a - b
    } else {
        0
    }
}

/// `u128::saturating_add`.
pub fn sat_add_u128(a: u128, b: u128) -> (r: u128)
    ensures
        r == clamp_u128(a + b),
{
    match a.checked_add(b) {
        Some(x) => x,
        None => u128::MAX,
    }
}

/// `u128::saturating_mul`.
pub fn sat_mul_u128(a: u128, b: u128) -> (r: u128)
    ensures
        r == clamp_u128(a * b),
{
    match a.checked_mul(b) {
        Some(x) => x,
        None => u128::MAX,
    }
}

pub fn max_usize(a: usize, b: usize) -> (r: usize)
    ensures
        r == imax(a as int, b as int),
{
    if a >= b {
        a
    } else {
        b
    }
}

pub fn min_usize(a: usize, b: usize) -> (r: usize)
    ensures
        r == imin(a as int, b as int),
{
    if a <= b {
        a
    } else {
        b
    }
}

pub fn max_u128(a: u128, b: u128) -> (r: u128)
    ensures
        r == imax(a as int, b as int),
{
    if a >= b {
        a
    } else {
        b
    }
}

} // verus!
