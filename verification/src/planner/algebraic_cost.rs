//! Algebraic work estimates and the route budgets derived from them.
use vstd::prelude::*;
use vstd::string::StringSliceAdditionalSpecFns;

use crate::types::arith::{
    clamp_u128, clamp_usize, imax, imin, max_usize, sat_add_u128, sat_add_usize, sat_mul_u128,
    sat_mul_usize,
};
use crate::types::bytes::{be_bytes, u128_be, usize_be};
use crate::types::hash::{chunk_views, hash_eq, hash_sequence, spec_hash_sequence};

verus! {

/// A count that sticks at `u128::MAX` instead of overflowing.
#[derive(Debug, Clone, Copy, PartialEq, Eq, Structural, PartialOrd, Ord, Hash)]
pub struct SaturatingCount(pub u128);

impl SaturatingCount {
    pub fn from_usize(value: usize) -> (r: Self)
        ensures
            r.0 == value,
    {
        SaturatingCount(value as u128)
    }

    pub fn from_u64(value: u64) -> (r: Self)
        ensures
            r.0 == value,
    {
        SaturatingCount(value as u128)
    }

    pub fn saturating_add(self, rhs: Self) -> (r: Self)
        ensures
            r.0 == clamp_u128(self.0 + rhs.0),
    {
        SaturatingCount(sat_add_u128(self.0, rhs.0))
    }

    pub fn saturating_mul(self, rhs: Self) -> (r: Self)
        ensures
            r.0 == clamp_u128(self.0 * rhs.0),
    {
        SaturatingCount(sat_mul_u128(self.0, rhs.0))
    }

    pub fn exceeds_usize(self, limit: usize) -> (r: bool)
        ensures
            r == (self.0 > limit),
    {
        self.0 > limit as u128
    }

    /// The count as a `usize`, clamped to `usize::MAX`.
    pub fn as_usize_saturating(self) -> (r: usize)
        ensures
            r == imin(self.0 as int, usize::MAX as int),
    {
        if self.0 > usize::MAX as u128 {
            usize::MAX
        } else {
            self.0 as usize
        }
    }
}

impl Default for SaturatingCount {
    fn default() -> (r: Self)
        ensures
            r.0 == 0,
    {
        SaturatingCount(0)
    }
}

#[derive(Debug, Clone, PartialEq, Eq)]
pub struct AlgebraicWorkEstimate {
    pub local_variable_count: usize,
    pub local_relation_count: usize,
    pub exported_variable_count: usize,
    pub input_term_count: usize,
    pub max_input_terms: usize,
    pub max_total_degree: usize,
    pub max_keep_variable_count: usize,
    pub matrix_rows: Option<usize>,
    pub matrix_cols: Option<usize>,
    pub quotient_rank_estimate: Option<usize>,
    pub predicted_output_terms: Option<SaturatingCount>,
    pub predicted_intermediate_terms: Option<SaturatingCount>,
    pub predicted_coefficient_height_bits: Option<SaturatingCount>,
    pub predicted_work_units: SaturatingCount,
    pub estimate_hash: crate::types::hash::Hash,
}

#[derive(Debug, Clone, PartialEq, Eq)]
pub struct RouteBudget {
    pub max_work_units: SaturatingCount,
    pub max_elapsed_steps: usize,
    pub max_input_terms_per_pair: usize,
    pub max_intermediate_terms: usize,
    pub max_output_terms: usize,
    pub max_keep_variables: usize,
    pub max_total_degree: usize,
    pub max_coefficient_height_bits: usize,
    pub budget_hash: crate::types::hash::Hash,
}

/// Eight big-endian bytes for a present value, the single byte `0xff` for an absent one.
pub open spec fn optional_usize_chunk(value: Option<usize>) -> Seq<u8> {
    match value {
        Some(v) => be_bytes(v as nat, 8),
        None => seq![0xffu8],
    }
}

pub open spec fn optional_count_chunk(value: Option<SaturatingCount>) -> Seq<u8> {
    match value {
        Some(v) => be_bytes(v.0 as nat, 16),
        None => seq![0xffu8],
    }
}

pub fn optional_usize_bytes(value: Option<usize>) -> (out: Vec<u8>)
    ensures
        out@ == optional_usize_chunk(value),
{
    match value {
        Some(v) => usize_be(v),
        None => {
            let mut out: Vec<u8> = Vec::new();
            out.push(0xff);
            out
        },
    }
}

fn optional_count_bytes(value: Option<SaturatingCount>) -> (out: Vec<u8>)
    ensures
        out@ == optional_count_chunk(value),
{
    match value {
        Some(v) => u128_be(v.0),
        None => {
            let mut out: Vec<u8> = Vec::new();
            out.push(0xff);
            out
        },
    }
}

/// The chunks an estimate's hash covers: every field but the hash itself.
pub open spec fn estimate_chunks(e: AlgebraicWorkEstimate) -> Seq<Seq<u8>> {
    seq![
        be_bytes(e.local_variable_count as nat, 8),
        be_bytes(e.local_relation_count as nat, 8),
        be_bytes(e.exported_variable_count as nat, 8),
        be_bytes(e.input_term_count as nat, 8),
        be_bytes(e.max_input_terms as nat, 8),
        be_bytes(e.max_total_degree as nat, 8),
        be_bytes(e.max_keep_variable_count as nat, 8),
        optional_usize_chunk(e.matrix_rows),
        optional_usize_chunk(e.matrix_cols),
        optional_usize_chunk(e.quotient_rank_estimate),
        optional_count_chunk(e.predicted_output_terms),
        optional_count_chunk(e.predicted_intermediate_terms),
        optional_count_chunk(e.predicted_coefficient_height_bits),
        be_bytes(e.predicted_work_units.0 as nat, 16),
    ]
}

pub open spec fn spec_algebraic_work_estimate_hash(e: AlgebraicWorkEstimate) -> Seq<u8> {
    spec_hash_sequence("algebraic-work-estimate".spec_bytes(), estimate_chunks(e))
}

pub fn algebraic_work_estimate_hash(estimate: &AlgebraicWorkEstimate) -> (h: crate::types::hash::Hash)
    ensures
        h.0@ == spec_algebraic_work_estimate_hash(*estimate),
{
    let mut chunks: Vec<Vec<u8>> = Vec::new();
    chunks.push(usize_be(estimate.local_variable_count));
    chunks.push(usize_be(estimate.local_relation_count));
    chunks.push(usize_be(estimate.exported_variable_count));
    chunks.push(usize_be(estimate.input_term_count));
    chunks.push(usize_be(estimate.max_input_terms));
    chunks.push(usize_be(estimate.max_total_degree));
    chunks.push(usize_be(estimate.max_keep_variable_count));
    chunks.push(optional_usize_bytes(estimate.matrix_rows));
    chunks.push(optional_usize_bytes(estimate.matrix_cols));
    chunks.push(optional_usize_bytes(estimate.quotient_rank_estimate));
    chunks.push(optional_count_bytes(estimate.predicted_output_terms));
    chunks.push(optional_count_bytes(estimate.predicted_intermediate_terms));
    chunks.push(optional_count_bytes(estimate.predicted_coefficient_height_bits));
    chunks.push(u128_be(estimate.predicted_work_units.0));
    assert(chunk_views(chunks@) =~= estimate_chunks(*estimate));
    hash_sequence("algebraic-work-estimate", chunks.as_slice())
}

pub open spec fn budget_chunks(b: RouteBudget) -> Seq<Seq<u8>> {
    seq![
        be_bytes(b.max_work_units.0 as nat, 16),
        be_bytes(b.max_elapsed_steps as nat, 8),
        be_bytes(b.max_input_terms_per_pair as nat, 8),
        be_bytes(b.max_intermediate_terms as nat, 8),
        be_bytes(b.max_output_terms as nat, 8),
        be_bytes(b.max_keep_variables as nat, 8),
        be_bytes(b.max_total_degree as nat, 8),
        be_bytes(b.max_coefficient_height_bits as nat, 8),
    ]
}

/// The estimate digest does not read the stored estimate digest: estimates that differ only
/// there have the same digest.
pub proof fn lemma_estimate_hash_ignores_stored_hash(e: AlgebraicWorkEstimate, h: crate::types::hash::Hash)
    ensures
        spec_algebraic_work_estimate_hash((AlgebraicWorkEstimate { estimate_hash: h, ..e }))
            == spec_algebraic_work_estimate_hash(e),
{
    assert(estimate_chunks((AlgebraicWorkEstimate { estimate_hash: h, ..e })) =~= estimate_chunks(e));
}

pub open spec fn spec_route_budget_hash(b: RouteBudget) -> Seq<u8> {
    spec_hash_sequence("route-budget".spec_bytes(), budget_chunks(b))
}

pub fn route_budget_hash(budget: &RouteBudget) -> (h: crate::types::hash::Hash)
    ensures
        h.0@ == spec_route_budget_hash(*budget),
{
    let mut chunks: Vec<Vec<u8>> = Vec::new();
    chunks.push(u128_be(budget.max_work_units.0));
    chunks.push(usize_be(budget.max_elapsed_steps));
    chunks.push(usize_be(budget.max_input_terms_per_pair));
    chunks.push(usize_be(budget.max_intermediate_terms));
    chunks.push(usize_be(budget.max_output_terms));
    chunks.push(usize_be(budget.max_keep_variables));
    chunks.push(usize_be(budget.max_total_degree));
    chunks.push(usize_be(budget.max_coefficient_height_bits));
    assert(chunk_views(chunks@) =~= budget_chunks(*budget));
    hash_sequence("route-budget", chunks.as_slice())
}

/// `e` is the conservative estimate of a plan with the given shape (see
/// `AlgebraicWorkEstimate::conservative_plan_shape`), with a current hash.
pub open spec fn is_conservative_shape(
    e: AlgebraicWorkEstimate,
    local_variable_count: usize,
    local_relation_count: usize,
    exported_variable_count: usize,
    matrix_rows: Option<usize>,
    matrix_cols: Option<usize>,
    quotient_rank_estimate: Option<usize>,
    max_total_degree: usize,
) -> bool {
    &&& e.local_variable_count == local_variable_count
    &&& e.local_relation_count == local_relation_count
    &&& e.exported_variable_count == exported_variable_count
    &&& e.input_term_count == 0
    &&& e.max_input_terms == 0
    &&& e.max_total_degree == max_total_degree
    &&& e.max_keep_variable_count == exported_variable_count
    &&& e.matrix_rows == matrix_rows
    &&& e.matrix_cols == matrix_cols
    &&& e.quotient_rank_estimate == quotient_rank_estimate
    &&& e.predicted_output_terms is None
    &&& e.predicted_intermediate_terms is None
    &&& e.predicted_coefficient_height_bits is None
    &&& e.predicted_work_units.0 == clamp_usize(
        clamp_usize(
            match matrix_rows {
                Some(r) => r as int,
                None => 1,
            } * match matrix_cols {
                Some(c) => c as int,
                None => 1,
            },
        ) + clamp_usize(
            clamp_usize(local_variable_count * imax(local_relation_count as int, 1))
                + exported_variable_count,
        ),
    )
    &&& e.hash_is_current()
}

/// `b` is the route budget that `RouteBudget::from_estimate` derives from `estimate`, with a
/// current hash.
pub open spec fn is_budget_for(b: RouteBudget, estimate: AlgebraicWorkEstimate) -> bool {
    &&& b.max_work_units.0 == clamp_u128(
        clamp_u128(estimate.predicted_work_units.0 * 4) + 1024,
    )
    &&& b.max_elapsed_steps == imax(estimate.local_variable_count as int, 1)
    &&& b.max_input_terms_per_pair == imax(budget_terms(estimate), 1)
    &&& b.max_intermediate_terms == budget_intermediate(estimate)
    &&& b.max_output_terms == budget_output(estimate)
    &&& b.max_keep_variables == imax(
        imax(
            estimate.max_keep_variable_count as int,
            estimate.exported_variable_count as int,
        ),
        1,
    )
    &&& b.max_total_degree == imax(estimate.max_total_degree as int, 1)
    &&& b.max_coefficient_height_bits == budget_height(estimate)
    &&& b.hash_is_current()
}

impl AlgebraicWorkEstimate {
    /// The estimate's hash is the hash of its other fields.
    pub open spec fn hash_is_current(self) -> bool {
        self.estimate_hash.0@ == spec_algebraic_work_estimate_hash(self)
    }

    /// An estimate with the given fields and its hash bound to them.
    #[allow(clippy::too_many_arguments)]
    pub fn new(
        local_variable_count: usize,
        local_relation_count: usize,
        exported_variable_count: usize,
        input_term_count: usize,
        max_input_terms: usize,
        max_total_degree: usize,
        max_keep_variable_count: usize,
        matrix_rows: Option<usize>,
        matrix_cols: Option<usize>,
        quotient_rank_estimate: Option<usize>,
        predicted_output_terms: Option<SaturatingCount>,
        predicted_intermediate_terms: Option<SaturatingCount>,
        predicted_coefficient_height_bits: Option<SaturatingCount>,
        predicted_work_units: SaturatingCount,
    ) -> (e: Self)
        ensures
            e.local_variable_count == local_variable_count,
            e.local_relation_count == local_relation_count,
            e.exported_variable_count == exported_variable_count,
            e.input_term_count == input_term_count,
            e.max_input_terms == max_input_terms,
            e.max_total_degree == max_total_degree,
            e.max_keep_variable_count == max_keep_variable_count,
            e.matrix_rows == matrix_rows,
            e.matrix_cols == matrix_cols,
            e.quotient_rank_estimate == quotient_rank_estimate,
            e.predicted_output_terms == predicted_output_terms,
            e.predicted_intermediate_terms == predicted_intermediate_terms,
            e.predicted_coefficient_height_bits == predicted_coefficient_height_bits,
            e.predicted_work_units == predicted_work_units,
            e.hash_is_current(),
    {
        let mut estimate = Self {
            local_variable_count,
            local_relation_count,
            exported_variable_count,
            input_term_count,
            max_input_terms,
            max_total_degree,
            max_keep_variable_count,
            matrix_rows,
            matrix_cols,
            quotient_rank_estimate,
            predicted_output_terms,
            predicted_intermediate_terms,
            predicted_coefficient_height_bits,
            predicted_work_units,
            estimate_hash: hash_sequence("algebraic-work-estimate", &[]),
        };
        estimate.estimate_hash = algebraic_work_estimate_hash(&estimate);
        estimate
    }

    /// A conservative estimate from the plan's shape alone: work is the matrix area plus
    /// variables times relations plus exported variables (all saturating).
    pub fn conservative_plan_shape(
        local_variable_count: usize,
        local_relation_count: usize,
        exported_variable_count: usize,
        matrix_rows: Option<usize>,
        matrix_cols: Option<usize>,
        quotient_rank_estimate: Option<usize>,
        max_total_degree: usize,
    ) -> (e: Self)
        ensures
            e.local_variable_count == local_variable_count,
            e.local_relation_count == local_relation_count,
            e.exported_variable_count == exported_variable_count,
            e.input_term_count == 0,
            e.max_input_terms == 0,
            e.max_total_degree == max_total_degree,
            e.max_keep_variable_count == exported_variable_count,
            e.matrix_rows == matrix_rows,
            e.matrix_cols == matrix_cols,
            e.quotient_rank_estimate == quotient_rank_estimate,
            e.predicted_output_terms is None,
            e.predicted_intermediate_terms is None,
            e.predicted_coefficient_height_bits is None,
            e.predicted_work_units.0 == clamp_usize(
                clamp_usize(
                    match matrix_rows {
                        Some(r) => r as int,
                        None => 1,
                    } * match matrix_cols {
                        Some(c) => c as int,
                        None => 1,
                    },
                ) + clamp_usize(
                    clamp_usize(local_variable_count * imax(local_relation_count as int, 1))
                        + exported_variable_count,
                ),
            ),
            e.hash_is_current(),
            is_conservative_shape(e, local_variable_count, local_relation_count, exported_variable_count, matrix_rows, matrix_cols, quotient_rank_estimate, max_total_degree),
    {
        let rows = match matrix_rows {
            Some(r) => r,
            None => 1,
        };
        let cols = match matrix_cols {
            Some(c) => c,
            None => 1,
        };
        let matrix_work = sat_mul_usize(rows, cols);
        let structural_work = sat_add_usize(
            sat_mul_usize(local_variable_count, max_usize(local_relation_count, 1)),
            exported_variable_count,
        );
        let predicted_work_units = SaturatingCount::from_usize(
            sat_add_usize(matrix_work, structural_work),
        );
        Self::new(
            local_variable_count,
            local_relation_count,
            exported_variable_count,
            0,
            0,
            max_total_degree,
            exported_variable_count,
            matrix_rows,
            matrix_cols,
            quotient_rank_estimate,
            None,
            None,
            None,
            predicted_work_units,
        )
    }

    pub fn is_hash_current(&self) -> (r: bool)
        ensures
            r == self.hash_is_current(),
    {
        let h = algebraic_work_estimate_hash(self);
        hash_eq(&self.estimate_hash, &h)
    }
}

/// `Option::unwrap_or` of a count's value.
pub open spec fn count_or(value: Option<SaturatingCount>, default: int) -> int {
    match value {
        Some(v) => v.0 as int,
        None => default,
    }
}

/// The budget `from_estimate` derives, field by field.
pub open spec fn budget_terms(e: AlgebraicWorkEstimate) -> int {
    imax(e.max_input_terms as int, 64)
}

pub open spec fn budget_intermediate(e: AlgebraicWorkEstimate) -> int {
    let terms = budget_terms(e);
    imax(imin(count_or(e.predicted_intermediate_terms, clamp_usize(terms * imax(terms, 1))), usize::MAX as int), terms)
}

pub open spec fn budget_output(e: AlgebraicWorkEstimate) -> int {
    let terms = budget_terms(e);
    imax(imin(count_or(e.predicted_output_terms, budget_intermediate(e)), usize::MAX as int), terms)
}

pub open spec fn budget_height(e: AlgebraicWorkEstimate) -> int {
    imax(imin(count_or(e.predicted_coefficient_height_bits, 256), usize::MAX as int), 256)
}

impl RouteBudget {
    pub open spec fn hash_is_current(self) -> bool {
        self.budget_hash.0@ == spec_route_budget_hash(self)
    }

    /// A budget with the given limits and its hash bound to them.
    #[allow(clippy::too_many_arguments)]
    pub fn new(
        max_work_units: SaturatingCount,
        max_elapsed_steps: usize,
        max_input_terms_per_pair: usize,
        max_intermediate_terms: usize,
        max_output_terms: usize,
        max_keep_variables: usize,
        max_total_degree: usize,
        max_coefficient_height_bits: usize,
    ) -> (b: Self)
        ensures
            b.max_work_units == max_work_units,
            b.max_elapsed_steps == max_elapsed_steps,
            b.max_input_terms_per_pair == max_input_terms_per_pair,
            b.max_intermediate_terms == max_intermediate_terms,
            b.max_output_terms == max_output_terms,
            b.max_keep_variables == max_keep_variables,
            b.max_total_degree == max_total_degree,
            b.max_coefficient_height_bits == max_coefficient_height_bits,
            b.hash_is_current(),
    {
        let mut budget = Self {
            max_work_units,
            max_elapsed_steps,
            max_input_terms_per_pair,
            max_intermediate_terms,
            max_output_terms,
            max_keep_variables,
            max_total_degree,
            max_coefficient_height_bits,
            budget_hash: hash_sequence("route-budget", &[]),
        };
        budget.budget_hash = route_budget_hash(&budget);
        budget
    }

    /// The route budget an estimate allows: generous floors (64 terms, 256 bits) and four
    /// times the predicted work plus 1024 units.
    pub fn from_estimate(estimate: &AlgebraicWorkEstimate) -> (b: Self)
        ensures
            b.max_work_units.0 == clamp_u128(
                clamp_u128(estimate.predicted_work_units.0 * 4) + 1024,
            ),
            b.max_elapsed_steps == imax(estimate.local_variable_count as int, 1),
            b.max_input_terms_per_pair == imax(budget_terms(*estimate), 1),
            b.max_intermediate_terms == budget_intermediate(*estimate),
            b.max_output_terms == budget_output(*estimate),
            b.max_keep_variables == imax(
                imax(
                    estimate.max_keep_variable_count as int,
                    estimate.exported_variable_count as int,
                ),
                1,
            ),
            b.max_total_degree == imax(estimate.max_total_degree as int, 1),
            b.max_coefficient_height_bits == budget_height(*estimate),
            b.hash_is_current(),
            is_budget_for(b, *estimate),
            b.max_elapsed_steps > 0,
            b.max_input_terms_per_pair > 0,
            b.max_intermediate_terms > 0,
            b.max_output_terms > 0,
            b.max_keep_variables > 0,
            b.max_total_degree > 0,
            b.max_coefficient_height_bits > 0,
            b.max_work_units.0 > 0,
    {
        let terms = max_usize(estimate.max_input_terms, 64);
        let intermediate = max_usize(
            match estimate.predicted_intermediate_terms {
                Some(c) => c,
                None => SaturatingCount::from_usize(sat_mul_usize(terms, max_usize(terms, 1))),
            }.as_usize_saturating(),
            terms,
        );
        let output = max_usize(
            match estimate.predicted_output_terms {
                Some(c) => c,
                None => SaturatingCount::from_usize(intermediate),
            }.as_usize_saturating(),
            terms,
        );
        let height = max_usize(
            match estimate.predicted_coefficient_height_bits {
                Some(c) => c,
                None => SaturatingCount::from_usize(256),
            }.as_usize_saturating(),
            256,
        );
        let max_work_units = estimate.predicted_work_units.saturating_mul(
            SaturatingCount::from_usize(4),
        ).saturating_add(SaturatingCount::from_usize(1024));
        Self::new(
            max_work_units,
            max_usize(estimate.local_variable_count, 1),
            max_usize(terms, 1),
            intermediate,
            output,
            max_usize(max_usize(estimate.max_keep_variable_count, estimate.exported_variable_count), 1),
            max_usize(estimate.max_total_degree, 1),
            height,
        )
    }

    pub fn is_hash_current(&self) -> (r: bool)
        ensures
            r == self.hash_is_current(),
    {
        let h = route_budget_hash(self);
        hash_eq(&self.budget_hash, &h)
    }
}

/// Whatever estimate a budget is derived from, the budget is enforceable: every limit is
/// positive and its hash is current.
pub proof fn lemma_derived_budget_enforceable(e: AlgebraicWorkEstimate, b: RouteBudget)
    requires
        b.max_elapsed_steps == imax(e.local_variable_count as int, 1),
        b.max_input_terms_per_pair == imax(budget_terms(e), 1),
        b.max_intermediate_terms == budget_intermediate(e),
        b.max_output_terms == budget_output(e),
        b.max_total_degree == imax(e.max_total_degree as int, 1),
        b.max_coefficient_height_bits == budget_height(e),
    ensures
        b.max_intermediate_terms >= budget_terms(e) >= 64,
        b.max_output_terms >= budget_terms(e),
        b.max_coefficient_height_bits >= 256,
{
}

} // verus!
