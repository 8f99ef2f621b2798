use geosolver_core::planner::algebraic_cost::{route_budget_hash, AlgebraicWorkEstimate, RouteBudget, SaturatingCount};
use geosolver_core::planner::kernel_kind::KernelKind;
use geosolver_core::planner::kernel_plan::{
    certified_probe_plan, hash_kernel_execution_plan, planned_failure_behavior, verify_certified_probe_replay, resource_bounds_hash, support_plan_hash, CertificateRoute,
    KernelExecutionPlan, KernelSupportPlan, LocalNonfinitePolicy, PlanWorkClassification, ResourceBounds,
};
use geosolver_core::result::status::{FailureKind, SolverErrorKind, SolverStatus};
use geosolver_core::solver::pipeline::enforce_route_budget_preflight;
use geosolver_core::types::hash::hash_sequence;
use geosolver_core::types::ids::{BlockId, KernelPlanId, RelationId, VariableId};

fn plan() -> KernelExecutionPlan {
    let support_plan = KernelSupportPlan {
        dense_relation_search_schedule: None,
        affine_elimination_order: None,
        template_plan: None,
        rank_plan: None,
        universal_strategy_sequence: Vec::new(),
        degree_bound: 3,
        support_hash: hash_sequence("support", &[]),
    };
    let resource_bounds = ResourceBounds {
        max_matrix_rows: Some(10),
        max_matrix_cols: Some(20),
        max_export_degree: None,
        max_multiplier_total_degree: None,
        max_local_elimination_steps: None,
        max_memory_bytes: None,
        bounds_hash: hash_sequence("bounds", &[]),
    };
    KernelExecutionPlan::new(
        KernelPlanId(1),
        BlockId(4),
        KernelKind::TargetRelationSearch,
        hash_sequence("authorization", &[]),
        vec![RelationId(0), RelationId(1)],
        vec![hash_sequence("r0", &[]), hash_sequence("r1", &[])],
        Vec::new(),
        Vec::new(),
        vec![VariableId(0)],
        vec![VariableId(1)],
        support_plan,
        resource_bounds,
        CertificateRoute::DenseRelationSearchMembership,
        planned_failure_behavior(vec![SolverStatus::FiniteResourceFailure], LocalNonfinitePolicy::NotApplicable),
    )
}

#[test]
fn a_fresh_plan_fits_its_own_budget() {
    let p = plan();
    assert_eq!(p.algebraic_work_estimate.predicted_work_units.0, 200 + 2 * 2 + 1);
    assert!(enforce_route_budget_preflight(&p).is_ok());
}

#[test]
fn a_stale_estimate_is_an_implementation_bug() {
    let mut p = plan();
    p.algebraic_work_estimate.predicted_work_units = SaturatingCount(1);
    let err = enforce_route_budget_preflight(&p).unwrap_err();
    assert_eq!(err.public_status(), SolverStatus::ImplementationBug);
    assert_eq!(err.target, None);
}

#[test]
fn work_over_budget_is_a_resource_failure() {
    let mut p = plan();
    let b = &p.route_budget;
    p.route_budget = RouteBudget::new(
        SaturatingCount(10),
        b.max_elapsed_steps,
        b.max_input_terms_per_pair,
        b.max_intermediate_terms,
        b.max_output_terms,
        b.max_keep_variables,
        b.max_total_degree,
        b.max_coefficient_height_bits,
    );
    let err = enforce_route_budget_preflight(&p).unwrap_err();
    assert_eq!(err.public_status(), SolverStatus::FiniteResourceFailure);
    assert_eq!(err.target, Some(VariableId(0)));
    match err.kind {
        SolverErrorKind::Failure(FailureKind::FiniteResourceFailure {
            stage,
            block_id,
            matrix_rows,
            matrix_cols,
            memory_bytes,
            ..
        }) => {
            assert_eq!(stage.0, "RouteBudget::TargetRelationSearch::predicted work exceeds route budget");
            assert_eq!(block_id, Some(BlockId(4)));
            assert_eq!(matrix_rows, Some(10));
            assert_eq!(matrix_cols, Some(20));
            assert_eq!(memory_bytes, Some(10));
        },
        other => panic!("unexpected error {:?}", other),
    }
}

#[test]
fn the_plan_digest_ignores_the_stored_digest() {
    let mut p = plan();
    let h = p.plan_hash;
    p.plan_hash = hash_sequence("other", &[]);
    assert_eq!(hash_kernel_execution_plan(&p), h);
}

fn budget_test_plan() -> KernelExecutionPlan {
    let estimate = AlgebraicWorkEstimate::new(
        2,
        1,
        1,
        2,
        2,
        4,
        1,
        Some(2),
        Some(2),
        Some(2),
        Some(SaturatingCount::from_usize(128)),
        Some(SaturatingCount::from_usize(128)),
        Some(SaturatingCount::from_usize(32)),
        SaturatingCount::from_usize(128),
    );
    let mut budget = RouteBudget::from_estimate(&estimate);
    budget.max_output_terms = 8;
    budget.budget_hash = route_budget_hash(&budget);
    let mut support_plan = KernelSupportPlan {
        dense_relation_search_schedule: None,
        affine_elimination_order: None,
        template_plan: None,
        rank_plan: None,
        universal_strategy_sequence: Vec::new(),
        degree_bound: 4,
        support_hash: hash_sequence("kernel-support-plan", &[]),
    };
    support_plan.support_hash = support_plan_hash(&support_plan);
    let mut resource_bounds = ResourceBounds {
        max_matrix_rows: Some(2),
        max_matrix_cols: Some(2),
        max_export_degree: Some(4),
        max_multiplier_total_degree: Some(4),
        max_local_elimination_steps: Some(1),
        max_memory_bytes: Some(1024),
        bounds_hash: hash_sequence("planner-resource-bounds", &[]),
    };
    resource_bounds.bounds_hash = resource_bounds_hash(&resource_bounds);
    KernelExecutionPlan::new_with_algebraic_cost(
        KernelPlanId(99),
        BlockId(7),
        KernelKind::SparseResultantProjection,
        hash_sequence("authorization", &[]),
        vec![RelationId(1)],
        vec![hash_sequence("source", &[])],
        Vec::new(),
        Vec::new(),
        vec![VariableId(0)],
        vec![VariableId(1)],
        support_plan,
        resource_bounds,
        estimate,
        budget,
        CertificateRoute::SparseResultantExactVerification,
        planned_failure_behavior(vec![SolverStatus::FiniteResourceFailure], LocalNonfinitePolicy::NotApplicable),
        PlanWorkClassification::PurePlan,
    )
}

#[test]
fn acr_p2_route_budget_preflight_stops_over_budget_estimate() {
    let mut plan = budget_test_plan();
    plan.route_budget.max_intermediate_terms = 10;
    plan.route_budget.budget_hash = route_budget_hash(&plan.route_budget);
    plan.plan_hash = hash_kernel_execution_plan(&plan);

    let err = enforce_route_budget_preflight(&plan).unwrap_err();
    assert_eq!(err.public_status(), SolverStatus::FiniteResourceFailure);
}

#[test]
fn probe_plans_depend_on_digest_sets_only() {
    let p = plan();
    let a = hash_sequence("a", &[]);
    let b = hash_sequence("b", &[]);
    let o = hash_sequence("o", &[]);
    let cert = hash_sequence("cert", &[]);
    let first = certified_probe_plan(
        p.input_block_authorization_hash,
        vec![a, b],
        vec![o],
        p.resource_bounds.bounds_hash,
        p.support_plan.support_hash,
        cert,
    );
    let second = certified_probe_plan(
        p.input_block_authorization_hash,
        vec![b, a, b],
        vec![o, o],
        p.resource_bounds.bounds_hash,
        p.support_plan.support_hash,
        cert,
    );
    assert_eq!(first, second);
    let mut q = p.clone();
    q.plan_work_classification = first;
    assert!(verify_certified_probe_replay(&q, &[b, a], &[o], cert).is_ok());
    assert!(verify_certified_probe_replay(&q, &[a, b, a], &[o, o], cert).is_ok());
    let err = verify_certified_probe_replay(&q, &[a], &[o], cert).unwrap_err();
    assert_eq!(err.public_status(), SolverStatus::ImplementationBug);
}
