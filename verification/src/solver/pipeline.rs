//! Checks the solver makes on an execution plan before it runs the plan's kernel.
use vstd::prelude::*;
use vstd::string::StringExecFns;

use crate::planner::kernel_kind::{kernel_kind_label, kernel_kind_name};
use crate::planner::kernel_plan::KernelExecutionPlan;
use crate::result::status::{implementation_bug, FailureKind, SolverError, SolverErrorKind, StageId};
use crate::types::ids::VariableId;

verus! {

/// The first route-budget rule that the plan's declared estimate breaks, by its reason.
pub open spec fn budget_violation(plan: KernelExecutionPlan) -> Option<Seq<char>> {
    let e = plan.algebraic_work_estimate;
    let b = plan.route_budget;
    if e.predicted_work_units.0 > b.max_work_units.0 {
        Some("predicted work exceeds route budget"@)
    } else if e.predicted_intermediate_terms matches Some(t) && t.0 > b.max_intermediate_terms {
        Some("predicted intermediate terms exceed route budget"@)
    } else if e.predicted_output_terms matches Some(t) && t.0 > b.max_output_terms {
        Some("predicted output terms exceed route budget"@)
    } else if e.max_input_terms > b.max_input_terms_per_pair || e.max_keep_variable_count > b.max_keep_variables
        || e.max_total_degree > b.max_total_degree {
        Some("declared algebraic footprint exceeds route budget"@)
    } else if e.predicted_coefficient_height_bits matches Some(h) && h.0 > b.max_coefficient_height_bits {
        Some("predicted coefficient height exceeds route budget"@)
    } else {
        None
    }
}

/// Every figure of the plan's declared estimate is within its route budget.
pub open spec fn estimate_within_budget(plan: KernelExecutionPlan) -> bool {
    let e = plan.algebraic_work_estimate;
    let b = plan.route_budget;
    &&& e.predicted_work_units.0 <= b.max_work_units.0
    &&& forall|t: crate::planner::algebraic_cost::SaturatingCount|
        e.predicted_intermediate_terms == Some(t) ==> t.0 <= b.max_intermediate_terms
    &&& forall|t: crate::planner::algebraic_cost::SaturatingCount|
        e.predicted_output_terms == Some(t) ==> t.0 <= b.max_output_terms
    &&& e.max_input_terms <= b.max_input_terms_per_pair
    &&& e.max_keep_variable_count <= b.max_keep_variables
    &&& e.max_total_degree <= b.max_total_degree
    &&& forall|h: crate::planner::algebraic_cost::SaturatingCount|
        e.predicted_coefficient_height_bits == Some(h) ==> h.0 <= b.max_coefficient_height_bits
}

/// A plan breaks no budget rule exactly when every figure of its estimate is within its budget.
pub proof fn lemma_budget_violation_iff(plan: KernelExecutionPlan)
    ensures
        budget_violation(plan) is None <==> estimate_within_budget(plan),
{
}

/// The first of a sequence, if any.
pub open spec fn first_variable(vs: Seq<VariableId>) -> Option<VariableId> {
    if vs.len() > 0 {
        Some(vs[0])
    } else {
        None
    }
}

pub open spec fn or_else<T>(a: Option<T>, b: Option<T>) -> Option<T> {
    if a is Some {
        a
    } else {
        b
    }
}

/// `e` is the resource failure that reports `reason` against the plan's route budget.
pub open spec fn is_route_budget_failure(e: SolverError, plan: KernelExecutionPlan, reason: Seq<char>) -> bool {
    let est = plan.algebraic_work_estimate;
    &&& e.target == first_variable(plan.exported_variables@)
    &&& e.kind matches SolverErrorKind::Failure(
        FailureKind::FiniteResourceFailure {
            stage,
            block_id,
            matrix_rows,
            matrix_cols,
            matrix_density,
            quotient_rank_estimate,
            coefficient_height_bits,
            memory_bytes,
        },
    ) && stage.0@ == "RouteBudget::"@ + kernel_kind_label(plan.kernel_kind) + "::"@ + reason && block_id == Some(
        plan.block_id,
    ) && matrix_rows == or_else(plan.resource_bounds.max_matrix_rows, est.matrix_rows) && matrix_cols == or_else(
        plan.resource_bounds.max_matrix_cols,
        est.matrix_cols,
    ) && matrix_density is None && quotient_rank_estimate == est.quotient_rank_estimate && coefficient_height_bits
        == (match est.predicted_coefficient_height_bits {
        Some(h) => Some(
            if h.0 > usize::MAX {
                usize::MAX
            } else {
                h.0 as usize
            },
        ),
        None => None,
    }) && memory_bytes == Some(
        match plan.resource_bounds.max_memory_bytes {
            Some(m) => m,
            None => if plan.route_budget.max_work_units.0 > u64::MAX {
                u64::MAX
            } else {
                plan.route_budget.max_work_units.0 as u64
            },
        },
    )
}

/// The implementation-bug error for a plan whose estimate or budget hash is stale.
pub open spec fn is_stale_plan_error(e: SolverError) -> bool {
    e.kind matches SolverErrorKind::Failure(FailureKind::ImplementationBug { invariant_violated: m })
        && m@ == "route budget or algebraic work estimate hash mismatch before execution"@
}

/// The resource failure for a plan that breaks its route budget for `reason`.
pub fn route_budget_failure(plan: &KernelExecutionPlan, reason: &str) -> (e: SolverError)
    ensures
        is_route_budget_failure(e, *plan, reason@),
{
    let mut stage = String::from_str("RouteBudget::");
    stage.append(kernel_kind_name(plan.kernel_kind));
    stage.append("::");
    stage.append(reason);
    let est = &plan.algebraic_work_estimate;
    let matrix_rows = match plan.resource_bounds.max_matrix_rows {
        Some(r) => Some(r),
        None => est.matrix_rows,
    };
    let matrix_cols = match plan.resource_bounds.max_matrix_cols {
        Some(c) => Some(c),
        None => est.matrix_cols,
    };
    let coefficient_height_bits = match est.predicted_coefficient_height_bits {
        Some(h) => Some(h.as_usize_saturating()),
        None => None,
    };
    let memory = match plan.resource_bounds.max_memory_bytes {
        Some(m) => m,
        None => if plan.route_budget.max_work_units.0 > u64::MAX as u128 {
            u64::MAX
        } else {
            plan.route_budget.max_work_units.0 as u64
        },
    };
    let target = if plan.exported_variables.len() > 0 {
        Some(plan.exported_variables[0])
    } else {
        None
    };
    SolverError {
        target,
        kind: SolverErrorKind::Failure(
            FailureKind::FiniteResourceFailure {
                stage: StageId(stage),
                block_id: Some(plan.block_id),
                matrix_rows,
                matrix_cols,
                matrix_density: None,
                quotient_rank_estimate: est.quotient_rank_estimate,
                coefficient_height_bits,
                memory_bytes: Some(memory),
            },
        ),
    }
}

/// Refuses a plan whose estimate or budget hash is stale (an implementation bug), or whose
/// declared estimate breaks its route budget (a resource failure naming the first broken rule).
pub fn enforce_route_budget_preflight(plan: &KernelExecutionPlan) -> (r: Result<(), SolverError>)
    ensures
        r is Ok <==> plan.algebraic_work_estimate.hash_is_current() && plan.route_budget.hash_is_current()
            && budget_violation(*plan) is None,
        !(plan.algebraic_work_estimate.hash_is_current() && plan.route_budget.hash_is_current()) ==> (r matches Err(e)
            && e.target is None && is_stale_plan_error(e)),
        plan.algebraic_work_estimate.hash_is_current() && plan.route_budget.hash_is_current() ==> match budget_violation(
            *plan,
        ) {
            Some(reason) => r matches Err(e) && is_route_budget_failure(e, *plan, reason),
            None => r is Ok,
        },
        r is Ok <==> plan.algebraic_work_estimate.hash_is_current() && plan.route_budget.hash_is_current()
            && estimate_within_budget(*plan),
{
    proof {
        lemma_budget_violation_iff(*plan);
    }
    if !plan.algebraic_work_estimate.is_hash_current() || !plan.route_budget.is_hash_current() {
        return Err(implementation_bug("route budget or algebraic work estimate hash mismatch before execution"));
    }
    let e = &plan.algebraic_work_estimate;
    let b = &plan.route_budget;
    if e.predicted_work_units.0 > b.max_work_units.0 {
        return Err(route_budget_failure(plan, "predicted work exceeds route budget"));
    }
    if match e.predicted_intermediate_terms {
        Some(t) => t.exceeds_usize(b.max_intermediate_terms),
        None => false,
    } {
        return Err(route_budget_failure(plan, "predicted intermediate terms exceed route budget"));
    }
    if match e.predicted_output_terms {
        Some(t) => t.exceeds_usize(b.max_output_terms),
        None => false,
    } {
        return Err(route_budget_failure(plan, "predicted output terms exceed route budget"));
    }
    if e.max_input_terms > b.max_input_terms_per_pair || e.max_keep_variable_count > b.max_keep_variables
        || e.max_total_degree > b.max_total_degree {
        return Err(route_budget_failure(plan, "declared algebraic footprint exceeds route budget"));
    }
    if match e.predicted_coefficient_height_bits {
        Some(h) => h.exceeds_usize(b.max_coefficient_height_bits),
        None => false,
    } {
        return Err(route_budget_failure(plan, "predicted coefficient height exceeds route budget"));
    }
    Ok(())
}

} // verus!
