//! Route cost classes, the swell guard and the deterministic order of cost estimates.
use std::cmp::Ordering;
use vstd::prelude::*;

use crate::planner::algebraic_cost::{AlgebraicWorkEstimate, SaturatingCount};
use crate::planner::kernel_kind::KernelKind;
use crate::types::arith::clamp_usize;
use crate::types::hash;
use crate::types::ids::BlockId;
use crate::types::rational::{int_q, RationalQ};

verus! {

#[derive(Debug, Clone, PartialEq, Eq)]
pub struct CostModelWeights {
    pub matrix_size_weight: RationalQ,
    pub quotient_rank_weight: RationalQ,
    pub coefficient_height_weight: RationalQ,
    pub separator_degree_weight: RationalQ,
    pub certificate_cost_weight: RationalQ,
}

impl Default for CostModelWeights {
    /// Every weight is 1.
    fn default() -> (w: Self)
        ensures
            w.matrix_size_weight.num@ == 1 && w.matrix_size_weight.den@ == 1,
            w.quotient_rank_weight.num@ == 1 && w.quotient_rank_weight.den@ == 1,
            w.coefficient_height_weight.num@ == 1 && w.coefficient_height_weight.den@ == 1,
            w.separator_degree_weight.num@ == 1 && w.separator_degree_weight.den@ == 1,
            w.certificate_cost_weight.num@ == 1 && w.certificate_cost_weight.den@ == 1,
    {
        Self {
            matrix_size_weight: int_q(1),
            quotient_rank_weight: int_q(1),
            coefficient_height_weight: int_q(1),
            separator_degree_weight: int_q(1),
            certificate_cost_weight: int_q(1),
        }
    }
}

#[derive(Debug, Clone, PartialEq, Eq)]
pub struct KernelCostEstimate {
    pub block_id: BlockId,
    pub kernel_kind: KernelKind,
    pub cost_class: RouteCostClass,
    pub matrix_rows: usize,
    pub matrix_cols: usize,
    pub quotient_rank_estimate: usize,
    pub coefficient_height_bits: usize,
    pub certificate_cost_units: usize,
    pub algebraic_work_estimate: AlgebraicWorkEstimate,
    pub deterministic_score: usize,
    pub estimate_hash: hash::Hash,
}

/// Cost classes, cheapest first.
#[derive(Debug, Clone, Copy, PartialEq, Eq, Structural, PartialOrd, Ord, Hash)]
pub enum RouteCostClass {
    PreferredCompact,
    Feasible,
    ExpensiveButAllowed,
    CostProhibited,
}

/// Position of a class in the declaration order (the derived order).
pub open spec fn cost_class_rank(c: RouteCostClass) -> int {
    match c {
        RouteCostClass::PreferredCompact => 0,
        RouteCostClass::Feasible => 1,
        RouteCostClass::ExpensiveButAllowed => 2,
        RouteCostClass::CostProhibited => 3,
    }
}

fn cost_class_position(c: RouteCostClass) -> (r: u8)
    ensures
        r == cost_class_rank(c),
{
    match c {
        RouteCostClass::PreferredCompact => 0,
        RouteCostClass::Feasible => 1,
        RouteCostClass::ExpensiveButAllowed => 2,
        RouteCostClass::CostProhibited => 3,
    }
}

/// The planner's fixed preference among kernels.
pub open spec fn spec_planner_kernel_order(kind: KernelKind) -> nat {
    match kind {
        KernelKind::TargetUnivariate => 0,
        KernelKind::LinearAffine => 1,
        KernelKind::TargetRelationSearch => 2,
        KernelKind::SparseResultantProjection => 3,
        KernelKind::TargetActionKrylov => 4,
        KernelKind::NormTraceProjection => 5,
        KernelKind::RegularChainProjection => 6,
        KernelKind::SpecializationInterpolation => 7,
        KernelKind::UniversalTargetElimination => 8,
    }
}

pub fn planner_kernel_order(kind: KernelKind) -> (r: usize)
    ensures
        r == spec_planner_kernel_order(kind),
{
    match kind {
        KernelKind::TargetUnivariate => 0,
        KernelKind::LinearAffine => 1,
        KernelKind::TargetRelationSearch => 2,
        KernelKind::SparseResultantProjection => 3,
        KernelKind::TargetActionKrylov => 4,
        KernelKind::NormTraceProjection => 5,
        KernelKind::RegularChainProjection => 6,
        KernelKind::SpecializationInterpolation => 7,
        KernelKind::UniversalTargetElimination => 8,
    }
}

/// Certificate cost units per kernel.
pub fn certificate_cost(kind: KernelKind) -> (r: usize)
    ensures
        r == match kind {
            KernelKind::TargetUnivariate => 1usize,
            KernelKind::LinearAffine => 2,
            KernelKind::TargetRelationSearch => 5,
            KernelKind::SparseResultantProjection => 8,
            KernelKind::TargetActionKrylov => 9,
            KernelKind::NormTraceProjection => 10,
            KernelKind::RegularChainProjection => 11,
            KernelKind::SpecializationInterpolation => 12,
            KernelKind::UniversalTargetElimination => 100,
        },
{
    match kind {
        KernelKind::TargetUnivariate => 1,
        KernelKind::LinearAffine => 2,
        KernelKind::TargetRelationSearch => 5,
        KernelKind::SparseResultantProjection => 8,
        KernelKind::TargetActionKrylov => 9,
        KernelKind::NormTraceProjection => 10,
        KernelKind::RegularChainProjection => 11,
        KernelKind::SpecializationInterpolation => 12,
        KernelKind::UniversalTargetElimination => 100,
    }
}

/// Ten penalty units per step down the planner order.
pub fn kernel_order_penalty(kind: KernelKind) -> (r: usize)
    ensures
        r == 10 * spec_planner_kernel_order(kind),
{
    planner_kernel_order(kind) * 10
}

/// The swell guard: any predicted term count above 250 000, work above 20 000 000 units,
/// more than 24 kept variables or more than 8 192 terms in an input.
pub open spec fn spec_swell_prohibited(e: AlgebraicWorkEstimate) -> bool {
    (e.predicted_intermediate_terms matches Some(t) && t.0 > 250_000) || (
    e.predicted_output_terms matches Some(t) && t.0 > 250_000) || e.predicted_work_units.0
        > 20_000_000 || e.max_keep_variable_count > 24 || e.max_input_terms > 8_192
}

pub fn dominant_expression_swell_is_prohibited(estimate: &AlgebraicWorkEstimate) -> (r: bool)
    ensures
        r == spec_swell_prohibited(*estimate),
{
    let intermediate = match estimate.predicted_intermediate_terms {
        Some(terms) => terms.exceeds_usize(250_000),
        None => false,
    };
    let output = match estimate.predicted_output_terms {
        Some(terms) => terms.exceeds_usize(250_000),
        None => false,
    };
    intermediate || output || estimate.predicted_work_units.exceeds_usize(20_000_000)
        || estimate.max_keep_variable_count > 24 || estimate.max_input_terms > 8_192
}

/// The cost class of a route.
pub open spec fn spec_classify_route_cost(
    kind: KernelKind,
    matrix_rows: usize,
    matrix_cols: usize,
    quotient_rank_estimate: usize,
    e: AlgebraicWorkEstimate,
) -> RouteCostClass {
    match kind {
        KernelKind::TargetUnivariate | KernelKind::LinearAffine => RouteCostClass::PreferredCompact,
        _ => if (kind == KernelKind::SparseResultantProjection || kind
            == KernelKind::TargetRelationSearch || kind == KernelKind::UniversalTargetElimination)
            && spec_swell_prohibited(e) {
            RouteCostClass::CostProhibited
        } else if kind == KernelKind::UniversalTargetElimination {
            RouteCostClass::ExpensiveButAllowed
        } else if clamp_usize(matrix_rows * matrix_cols) > 1_000_000 || quotient_rank_estimate
            > 50_000 {
            RouteCostClass::ExpensiveButAllowed
        } else {
            RouteCostClass::Feasible
        },
    }
}

/// The kernel is one of the two compact ones.
pub open spec fn is_compact_kernel(kind: KernelKind) -> bool {
    kind == KernelKind::TargetUnivariate || kind == KernelKind::LinearAffine
}

/// The kernel is one whose route the swell guard may prohibit.
pub open spec fn is_swell_guarded_kernel(kind: KernelKind) -> bool {
    kind == KernelKind::SparseResultantProjection || kind == KernelKind::TargetRelationSearch
        || kind == KernelKind::UniversalTargetElimination
}

/// What the cost class of a route is, rule by rule: compact kernels are preferred; a guarded
/// kernel whose estimate swells is prohibited; the universal kernel is otherwise expensive;
/// any other route is expensive when its matrix area exceeds 1 000 000 or its quotient rank
/// estimate exceeds 50 000, and feasible otherwise.
pub proof fn lemma_route_cost_classes(
    kind: KernelKind,
    matrix_rows: usize,
    matrix_cols: usize,
    quotient_rank_estimate: usize,
    e: AlgebraicWorkEstimate,
)
    ensures
        is_compact_kernel(kind) ==> spec_classify_route_cost(kind, matrix_rows, matrix_cols, quotient_rank_estimate, e)
            == RouteCostClass::PreferredCompact,
        !is_compact_kernel(kind) && is_swell_guarded_kernel(kind) && spec_swell_prohibited(e) ==> spec_classify_route_cost(
            kind,
            matrix_rows,
            matrix_cols,
            quotient_rank_estimate,
            e,
        ) == RouteCostClass::CostProhibited,
        kind == KernelKind::UniversalTargetElimination && !spec_swell_prohibited(e) ==> spec_classify_route_cost(
            kind,
            matrix_rows,
            matrix_cols,
            quotient_rank_estimate,
            e,
        ) == RouteCostClass::ExpensiveButAllowed,
        !is_compact_kernel(kind) && kind != KernelKind::UniversalTargetElimination && !(is_swell_guarded_kernel(kind)
            && spec_swell_prohibited(e)) && quotient_rank_estimate > 50_000 ==> spec_classify_route_cost(
            kind,
            matrix_rows,
            matrix_cols,
            quotient_rank_estimate,
            e,
        ) == RouteCostClass::ExpensiveButAllowed,
        !is_compact_kernel(kind) && kind != KernelKind::UniversalTargetElimination && !(is_swell_guarded_kernel(kind)
            && spec_swell_prohibited(e)) && matrix_rows * matrix_cols > 1_000_000 ==> spec_classify_route_cost(
            kind,
            matrix_rows,
            matrix_cols,
            quotient_rank_estimate,
            e,
        ) == RouteCostClass::ExpensiveButAllowed,
        !is_compact_kernel(kind) && kind != KernelKind::UniversalTargetElimination && !(is_swell_guarded_kernel(kind)
            && spec_swell_prohibited(e)) && matrix_rows * matrix_cols <= 1_000_000 && quotient_rank_estimate <= 50_000
            ==> spec_classify_route_cost(kind, matrix_rows, matrix_cols, quotient_rank_estimate, e)
            == RouteCostClass::Feasible,
{
}

pub fn classify_route_cost(
    kind: KernelKind,
    matrix_rows: usize,
    matrix_cols: usize,
    quotient_rank_estimate: usize,
    estimate: &AlgebraicWorkEstimate,
) -> (c: RouteCostClass)
    ensures
        c == spec_classify_route_cost(
            kind,
            matrix_rows,
            matrix_cols,
            quotient_rank_estimate,
            *estimate,
        ),
        !is_compact_kernel(kind) && kind != KernelKind::UniversalTargetElimination && !(is_swell_guarded_kernel(kind)
            && spec_swell_prohibited(*estimate)) && quotient_rank_estimate > 50_000 ==> c
            == RouteCostClass::ExpensiveButAllowed,
        !is_compact_kernel(kind) && kind != KernelKind::UniversalTargetElimination && !(is_swell_guarded_kernel(kind)
            && spec_swell_prohibited(*estimate)) && matrix_rows * matrix_cols > 1_000_000 ==> c
            == RouteCostClass::ExpensiveButAllowed,
{
    proof {
        lemma_route_cost_classes(kind, matrix_rows, matrix_cols, quotient_rank_estimate, *estimate);
    }
    let compact = match kind {
        KernelKind::TargetUnivariate | KernelKind::LinearAffine => true,
        _ => false,
    };
    if compact {
        return RouteCostClass::PreferredCompact;
    }
    let guarded = match kind {
        KernelKind::SparseResultantProjection
        | KernelKind::TargetRelationSearch
        | KernelKind::UniversalTargetElimination => true,
        _ => false,
    };
    if guarded && dominant_expression_swell_is_prohibited(estimate) {
        return RouteCostClass::CostProhibited;
    }
    if kind == KernelKind::UniversalTargetElimination {
        return RouteCostClass::ExpensiveButAllowed;
    }
    if crate::types::arith::sat_mul_usize(matrix_rows, matrix_cols) > 1_000_000
        || quotient_rank_estimate > 50_000 {
        RouteCostClass::ExpensiveButAllowed
    } else {
        RouteCostClass::Feasible
    }
}

/// Three-way comparison of integers.
pub open spec fn int_order(a: int, b: int) -> int {
    if a < b {
        -1
    } else if a > b {
        1
    } else {
        0
    }
}

/// The key estimates are ordered by: class, score, planner order, then the estimate hash.
pub open spec fn cost_order(a: KernelCostEstimate, b: KernelCostEstimate) -> int {
    if cost_class_rank(a.cost_class) != cost_class_rank(b.cost_class) {
        int_order(cost_class_rank(a.cost_class), cost_class_rank(b.cost_class))
    } else if a.deterministic_score != b.deterministic_score {
        int_order(a.deterministic_score as int, b.deterministic_score as int)
    } else if spec_planner_kernel_order(a.kernel_kind) != spec_planner_kernel_order(b.kernel_kind) {
        int_order(
            spec_planner_kernel_order(a.kernel_kind) as int,
            spec_planner_kernel_order(b.kernel_kind) as int,
        )
    } else {
        hash::lex_order(a.estimate_hash.0@, b.estimate_hash.0@)
    }
}

/// The order of cost estimates is lexicographic: a cheaper class comes first; within a class
/// a smaller score comes first; then the earlier kernel in planner order.
pub proof fn lemma_cost_order_lexicographic(a: KernelCostEstimate, b: KernelCostEstimate)
    ensures
        cost_class_rank(a.cost_class) < cost_class_rank(b.cost_class) ==> cost_order(a, b) < 0 && cost_order(b, a) > 0,
        a.cost_class == b.cost_class && a.deterministic_score < b.deterministic_score ==> cost_order(a, b) < 0
            && cost_order(b, a) > 0,
        a.cost_class == b.cost_class && a.deterministic_score == b.deterministic_score && spec_planner_kernel_order(
            a.kernel_kind,
        ) < spec_planner_kernel_order(b.kernel_kind) ==> cost_order(a, b) < 0 && cost_order(b, a) > 0,
        cost_class_rank(RouteCostClass::PreferredCompact) < cost_class_rank(RouteCostClass::Feasible),
        cost_class_rank(RouteCostClass::Feasible) < cost_class_rank(RouteCostClass::ExpensiveButAllowed),
        cost_class_rank(RouteCostClass::ExpensiveButAllowed) < cost_class_rank(RouteCostClass::CostProhibited),
        forall|i: int|
            0 <= i < crate::planner::admission::planner_kernel_kinds().len() ==> spec_planner_kernel_order(
                #[trigger] crate::planner::admission::planner_kernel_kinds()[i],
            ) == i,
{
}

pub(crate) fn cost_order_value(a: &KernelCostEstimate, b: &KernelCostEstimate) -> (r: i8)
    ensures
        r == cost_order(*a, *b),
{
    let ca = cost_class_position(a.cost_class);
    let cb = cost_class_position(b.cost_class);
    if ca != cb {
        return if ca < cb {
            -1
        } else {
            1
        };
    }
    if a.deterministic_score != b.deterministic_score {
        return if a.deterministic_score < b.deterministic_score {
            -1
        } else {
            1
        };
    }
    let ka = planner_kernel_order(a.kernel_kind);
    let kb = planner_kernel_order(b.kernel_kind);
    if ka != kb {
        return if ka < kb {
            -1
        } else {
            1
        };
    }
    hash::hash_order(&a.estimate_hash, &b.estimate_hash)
}

/// Orders cost estimates by (class, score, planner order, estimate hash).
pub fn compare_cost(a: &KernelCostEstimate, b: &KernelCostEstimate) -> (r: Ordering)
    ensures
        (r == Ordering::Less) == (cost_order(*a, *b) < 0),
        (r == Ordering::Equal) == (cost_order(*a, *b) == 0),
        (r == Ordering::Greater) == (cost_order(*a, *b) > 0),
        a.cost_class == b.cost_class && a.deterministic_score < b.deterministic_score ==> r == Ordering::Less,
        a.cost_class == b.cost_class && a.deterministic_score > b.deterministic_score ==> r == Ordering::Greater,
{
    proof {
        lemma_cost_order_lexicographic(*a, *b);
        lemma_cost_order_lexicographic(*b, *a);
    }
    let v = cost_order_value(a, b);
    if v < 0 {
        Ordering::Less
    } else if v == 0 {
        Ordering::Equal
    } else {
        Ordering::Greater
    }
}

} // verus!
