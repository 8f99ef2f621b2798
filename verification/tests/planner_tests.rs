use geosolver_core::planner::admission::all_planner_kernel_kinds;
use geosolver_core::planner::algebraic_cost::{AlgebraicWorkEstimate, SaturatingCount};
use geosolver_core::planner::cost_model::{
    classify_route_cost, dominant_expression_swell_is_prohibited, RouteCostClass,
};
use geosolver_core::planner::kernel_kind::KernelKind;
use geosolver_core::planner::relation_preflight::{
    binomial_saturating, dense_relation_search_decline_reason, estimate_dense_relation_search_schedule,
    monomial_count_total_degree_leq, relation_search_default_export_degree_cap, relation_search_z_seed,
};
use geosolver_core::planner::relation_schedule::SaturatingCount as StageCount;
use geosolver_core::planner::relation_schedule::SupportDescriptor;
use geosolver_core::planner::relation_support::build_dense_relation_search_schedule;
use geosolver_core::solver::options::SolverOptions;
use geosolver_core::types::ids::VariableId;
use geosolver_core::types::monomial::normalize_monomial;
use geosolver_core::types::polynomial::{normalize_poly, SparsePolynomialQ, TermQ};
use geosolver_core::types::hash::hash_sequence;
use geosolver_core::types::rational::int_q;

fn synthetic_work(
    max_input_terms: usize,
    keep_variables: usize,
    predicted_intermediate_terms: usize,
) -> AlgebraicWorkEstimate {
    AlgebraicWorkEstimate::new(
        keep_variables.saturating_add(1),
        2,
        keep_variables,
        max_input_terms.saturating_mul(2),
        max_input_terms,
        3,
        keep_variables,
        Some(4),
        Some(4),
        Some(8),
        Some(SaturatingCount::from_usize(predicted_intermediate_terms)),
        Some(SaturatingCount::from_usize(predicted_intermediate_terms)),
        Some(SaturatingCount::from_usize(256)),
        SaturatingCount::from_usize(predicted_intermediate_terms.saturating_mul(4)),
    )
}

#[test]
fn acr_p2_sparse_resultant_small_matrix_large_entries_is_cost_prohibited() {
    let work = synthetic_work(20_000, 18, 1_000_000);

    assert_eq!(
        classify_route_cost(KernelKind::SparseResultantProjection, 4, 4, 8, &work),
        RouteCostClass::CostProhibited
    );
    assert!(dominant_expression_swell_is_prohibited(&work));
}

#[test]
fn acr_p2_compact_source_routes_are_not_prohibited_by_route_swell_guard() {
    let work = synthetic_work(20_000, 18, 1_000_000);

    assert_eq!(
        classify_route_cost(KernelKind::TargetUnivariate, 1, 1, 1, &work),
        RouteCostClass::PreferredCompact
    );
}

#[test]
fn fcr_p10_production_planner_kernel_list_has_full_candidate_cover_ladder() {
    let kinds = all_planner_kernel_kinds();
    assert_eq!(
        kinds,
        vec![
            KernelKind::TargetUnivariate,
            KernelKind::LinearAffine,
            KernelKind::TargetRelationSearch,
            KernelKind::SparseResultantProjection,
            KernelKind::TargetActionKrylov,
            KernelKind::NormTraceProjection,
            KernelKind::RegularChainProjection,
            KernelKind::SpecializationInterpolation,
            KernelKind::UniversalTargetElimination,
        ]
    );
}

#[test]
fn small_work_is_not_prohibited() {
    let work = synthetic_work(10, 2, 100);
    assert!(!dominant_expression_swell_is_prohibited(&work));
    assert_eq!(
        classify_route_cost(KernelKind::SparseResultantProjection, 4, 4, 8, &work),
        RouteCostClass::Feasible
    );
    assert_eq!(
        classify_route_cost(KernelKind::UniversalTargetElimination, 4, 4, 8, &work),
        RouteCostClass::ExpensiveButAllowed
    );
    assert_eq!(
        classify_route_cost(KernelKind::TargetActionKrylov, 2_000, 1_000, 8, &work),
        RouteCostClass::ExpensiveButAllowed
    );
}

#[test]
fn binomial_counts_are_exact_and_symmetric() {
    assert_eq!(binomial_saturating(5, 2), StageCount::exact(10));
    assert_eq!(binomial_saturating(5, 3), StageCount::exact(10));
    assert_eq!(binomial_saturating(5, 0), StageCount::exact(1));
    assert_eq!(binomial_saturating(3, 5), StageCount::exact(0));
    assert_eq!(binomial_saturating(52, 5), StageCount::exact(2_598_960));
    assert_eq!(monomial_count_total_degree_leq(2, 2), StageCount::exact(6));
    assert_eq!(monomial_count_total_degree_leq(3, 0), StageCount::exact(1));
}

#[test]
fn binomial_saturates_when_an_intermediate_product_overflows() {
    assert_eq!(binomial_saturating(300, 150), StageCount::saturated());
}

fn var_poly_with_degree(v: u32, degree: u32) -> SparsePolynomialQ {
    normalize_poly(SparsePolynomialQ {
        terms: vec![
            TermQ {
                coeff: int_q(1),
                monomial: normalize_monomial(vec![(VariableId(v), degree)]),
            },
            TermQ {
                coeff: int_q(-1),
                monomial: normalize_monomial(vec![]),
            },
        ],
        hash: hash_sequence("poly", &[]),
    })
}

#[test]
fn dense_preflight_plans_stages_from_the_z_seed_to_the_cap() {
    let relations = vec![var_poly_with_degree(0, 2), var_poly_with_degree(1, 1)];
    let eliminated = vec![VariableId(1)];
    let exported = vec![VariableId(0)];
    assert_eq!(relation_search_z_seed(&relations, &exported), 2);
    assert_eq!(
        relation_search_default_export_degree_cap(&relations, &eliminated, &exported),
        6
    );
    let options = SolverOptions {
        max_relation_search_export_degree: Some(3),
        ..SolverOptions::default()
    };
    let preflight = estimate_dense_relation_search_schedule(&relations, &eliminated, &exported, &options);
    assert_eq!(preflight.z_seed, 2);
    assert_eq!(preflight.e_cap, 3);
    assert_eq!(preflight.d_max, 2);
    assert_eq!(preflight.planned_stage_count, StageCount::exact(2));
    assert_eq!(preflight.stage_estimates.len(), 2);
    assert_eq!(preflight.stage_estimates[0].export_degree, 2);
    assert_eq!(preflight.stage_estimates[1].export_degree, 3);
    assert_eq!(preflight.stage_estimates[0].export_cols, StageCount::exact(3));
    assert_eq!(preflight.stage_estimates[0].multiplier_total_degree, 4);
    assert!(preflight.materialization_allowed);
    assert_eq!(preflight.first_prohibited_stage, None);
}

#[test]
fn dense_preflight_declines_past_the_stage_cap() {
    let relations = vec![var_poly_with_degree(0, 1)];
    let eliminated = vec![];
    let exported = vec![VariableId(0)];
    let options = SolverOptions {
        max_relation_search_export_degree: Some(40),
        ..SolverOptions::default()
    };
    let preflight = estimate_dense_relation_search_schedule(&relations, &eliminated, &exported, &options);
    assert_eq!(preflight.planned_stage_count, StageCount::exact(40));
    assert_eq!(preflight.estimated_stage_count, 17);
    assert!(!preflight.materialization_allowed);
    assert_eq!(preflight.first_prohibited_stage, Some(17));
    let text = dense_relation_search_decline_reason(&preflight);
    assert!(text.starts_with("CostProhibitedDenseRoute: kernel=TargetRelationSearch route=DenseTotalDegree decision=CostProhibitedDenseRoute first_export_degree=1, estimated_matrix_cols="));
    assert!(text.ends_with("stage_count=40 materialized_stage_cap=16 reason=stage count exceeds dense TargetRelationSearch materialization cap"));
}

#[test]
fn dense_schedule_materializes_every_planned_stage() {
    let relations = vec![var_poly_with_degree(0, 2), var_poly_with_degree(1, 1)];
    let eliminated = vec![VariableId(1)];
    let exported = vec![VariableId(0)];
    let options = SolverOptions {
        max_relation_search_export_degree: Some(3),
        ..SolverOptions::default()
    };
    let schedule = build_dense_relation_search_schedule(&relations, &eliminated, &exported, &options);
    assert_eq!(schedule.z_seed, 2);
    assert_eq!(schedule.e_cap, 3);
    assert_eq!(schedule.eliminated_variables, vec![VariableId(1)]);
    assert_eq!(schedule.exported_variables, vec![VariableId(0)]);
    assert_eq!(schedule.stages.len(), 2);
    // one export descriptor and one per relation, for each stage
    assert_eq!(schedule.support_descriptors.len(), 6);
    match &schedule.support_descriptors[1] {
        SupportDescriptor::DenseTotalDegree { variables, degree, .. } => {
            assert_eq!(variables, &vec![VariableId(0), VariableId(1)]);
            assert_eq!(*degree, 2);
        }
        _ => panic!("dense descriptor expected"),
    }
    let stage = &schedule.stages[0];
    assert_eq!(stage.export_degree, 2);
    assert_eq!(stage.multiplier_total_degree, 4);
    // export support {1, x0, x0^2}; multipliers of degree <= 2 and <= 3 in two variables
    assert_eq!(stage.matrix_cols, 3 + 6 + 10);
    assert_eq!(stage.multiplier_support_hashes.len(), 2);
    assert_eq!(stage.row_monomial_count, stage.matrix_rows);
    let estimate = &schedule.preflight.stage_estimates[0];
    assert_eq!(estimate.estimated_matrix_cols, StageCount::exact(19));
}
