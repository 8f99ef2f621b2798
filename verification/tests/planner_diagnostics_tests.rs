use geosolver_core::planner::admission::{KernelAdmission, KernelAdmissionEvidence, KernelAdmissionStatus};
use geosolver_core::planner::algebraic_cost::AlgebraicWorkEstimate;
use geosolver_core::planner::cost_model::{KernelCostEstimate, RouteCostClass};
use geosolver_core::planner::kernel_kind::KernelKind;
use geosolver_core::planner::planner::{
    block_eliminated_variables, block_relation_polys, record_dense_relation_search_admission_diagnostics,
    record_kernel_route_admission_diagnostics, str_contains, ProjectionBlock,
};
use geosolver_core::planner::relation_preflight::{
    dense_relation_search_decline_reason, estimate_dense_relation_search_schedule,
};
use geosolver_core::preprocess::compression::{CompressedSystemQ, CompressionState};
use geosolver_core::problem::canonicalize::canonicalize_system;
use geosolver_core::problem::context::new_context;
use geosolver_core::problem::input::make_problem;
use geosolver_core::problem::validate::validate_input;
use geosolver_core::solver::options::SolverOptions;
use geosolver_core::types::hash::hash_sequence;
use geosolver_core::types::ids::{BlockId, RelationId, VariableId};
use geosolver_core::types::polynomial::{constant_poly, poly_mul, poly_sub, variable_poly};
use geosolver_core::types::rational::int_q;

fn system() -> CompressedSystemQ {
    let t = VariableId(0);
    let x = VariableId(1);
    let problem = make_problem(
        vec![t, x],
        t,
        vec![
            poly_sub(&poly_mul(&variable_poly(x), &variable_poly(x)), &variable_poly(t)),
            poly_sub(&variable_poly(x), &constant_poly(int_q(2))),
        ],
        Vec::new(),
    );
    let canonical = canonicalize_system(validate_input(problem).unwrap()).unwrap();
    CompressionState::from_system(canonical).to_compressed_system()
}

fn block(system: &CompressedSystemQ) -> ProjectionBlock {
    ProjectionBlock {
        block_id: BlockId(7),
        local_variables: vec![VariableId(0), VariableId(1)],
        exported_variables: vec![VariableId(0)],
        relation_ids: system.relations.iter().map(|r| r.id).collect(),
    }
}

fn admission(kind: KernelKind, status: KernelAdmissionStatus) -> KernelAdmission {
    KernelAdmission {
        kind,
        block_id: BlockId(7),
        admission_evidence: KernelAdmissionEvidence::empty(),
        status,
        exported_variables: vec![VariableId(0)],
        eliminated_variables: vec![VariableId(1)],
        execution_plan: None,
        admission_hash: hash_sequence("admission", &[]),
    }
}

fn detail(d: &geosolver_core::result::diagnostics::DiagnosticRecord, key: &str) -> Option<String> {
    d.details.iter().find(|(k, _)| k == key).map(|(_, v)| v.clone())
}

#[test]
fn text_search_finds_inner_runs() {
    assert!(str_contains("budget: CostProhibitedDenseRoute at stage 2", "CostProhibitedDenseRoute"));
    assert!(str_contains("abc", ""));
    assert!(str_contains("abc", "abc"));
    assert!(!str_contains("abc", "abcd"));
    assert!(!str_contains("CostProhibitedSparseRoute", "CostProhibitedDenseRoute"));
}

#[test]
fn eliminated_variables_are_local_and_not_exported() {
    let s = system();
    let b = block(&s);
    assert_eq!(block_eliminated_variables(&b), vec![VariableId(1)]);
    let polys = block_relation_polys(&b, &s);
    assert_eq!(polys.len(), s.relations.len());
    let missing = ProjectionBlock { relation_ids: vec![RelationId(999)], ..b };
    assert!(block_relation_polys(&missing, &s).is_empty());
}

#[test]
fn dense_route_prohibition_is_recorded_with_its_preflight() {
    let s = system();
    let b = block(&s);
    let mut ctx = new_context(SolverOptions::default());
    let admissions = vec![
        admission(KernelKind::TargetUnivariate, KernelAdmissionStatus::Admitted),
        admission(
            KernelKind::TargetRelationSearch,
            KernelAdmissionStatus::Declined { reason: "CostProhibitedDenseRoute: too many stages".to_string() },
        ),
    ];
    record_dense_relation_search_admission_diagnostics(&b, &s, &admissions, &mut ctx);
    assert_eq!(ctx.diagnostics.len(), 1);
    let d = &ctx.diagnostics[0];
    assert_eq!(d.name, "CostProhibitedDenseRoute");
    assert_eq!(d.stage.as_ref().unwrap().0, "PlanProjectionMessages");
    let polys = block_relation_polys(&b, &s);
    let preflight = estimate_dense_relation_search_schedule(
        &polys,
        &block_eliminated_variables(&b),
        &b.exported_variables,
        &SolverOptions::default(),
    );
    assert_eq!(d.message, dense_relation_search_decline_reason(&preflight));
    assert_eq!(detail(d, "kernel").unwrap(), "TargetRelationSearch");
    assert_eq!(detail(d, "route").unwrap(), "DenseTotalDegree");
    assert_eq!(detail(d, "decision").unwrap(), "CostProhibitedDenseRoute");
    assert_eq!(detail(d, "block_id").unwrap(), "7");
    assert_eq!(detail(d, "stage_count").unwrap(), preflight.planned_stage_count.display_value());
    assert_eq!(
        detail(d, "materialized_stage_cap").unwrap(),
        preflight.caps.max_materialized_stages.to_string()
    );
    assert_eq!(detail(d, "matrix_row_cap").unwrap(), preflight.caps.max_matrix_rows.to_string());
    assert_eq!(detail(d, "matrix_col_cap").unwrap(), preflight.caps.max_matrix_cols.to_string());
    assert_eq!(
        detail(d, "memory_cap_bytes").unwrap(),
        preflight.caps.max_estimated_memory_bytes.to_string()
    );
    if let Some(stage) = preflight.stage_estimates.first() {
        assert_eq!(detail(d, "first_export_degree").unwrap(), stage.export_degree.to_string());
    }
}

#[test]
fn other_refusals_record_nothing() {
    let s = system();
    let b = block(&s);
    let mut ctx = new_context(SolverOptions::default());
    let declined = vec![admission(
        KernelKind::TargetRelationSearch,
        KernelAdmissionStatus::Declined { reason: "no relation support".to_string() },
    )];
    record_dense_relation_search_admission_diagnostics(&b, &s, &declined, &mut ctx);
    let admitted = vec![admission(KernelKind::TargetRelationSearch, KernelAdmissionStatus::Admitted)];
    record_dense_relation_search_admission_diagnostics(&b, &s, &admitted, &mut ctx);
    let other_kind = vec![admission(
        KernelKind::SparseResultantProjection,
        KernelAdmissionStatus::Declined { reason: "CostProhibitedDenseRoute".to_string() },
    )];
    record_dense_relation_search_admission_diagnostics(&b, &s, &other_kind, &mut ctx);
    assert!(ctx.diagnostics.is_empty());
}

fn cost(kind: KernelKind, class: RouteCostClass) -> KernelCostEstimate {
    KernelCostEstimate {
        block_id: BlockId(7),
        kernel_kind: kind,
        cost_class: class,
        matrix_rows: 12,
        matrix_cols: 34,
        quotient_rank_estimate: 5,
        coefficient_height_bits: 8,
        certificate_cost_units: 1,
        algebraic_work_estimate: AlgebraicWorkEstimate::conservative_plan_shape(2, 2, 1, None, None, None, 2),
        deterministic_score: 0,
        estimate_hash: hash_sequence("cost", &[]),
    }
}

#[test]
fn route_traces_cover_every_admission_in_order() {
    let s = system();
    let b = block(&s);
    let mut ctx = new_context(SolverOptions::default());
    let prohibited_hash = hash_sequence("prohibited", &[]);
    let admissions = vec![
        admission(KernelKind::TargetUnivariate, KernelAdmissionStatus::Admitted),
        admission(
            KernelKind::SparseResultantProjection,
            KernelAdmissionStatus::CostProhibited { reason: "swell".to_string(), estimate_hash: prohibited_hash },
        ),
        admission(
            KernelKind::TargetRelationSearch,
            KernelAdmissionStatus::Declined { reason: "no support".to_string() },
        ),
    ];
    let costs = vec![
        cost(KernelKind::SparseResultantProjection, RouteCostClass::Feasible),
        cost(KernelKind::SparseResultantProjection, RouteCostClass::PreferredCompact),
    ];
    record_kernel_route_admission_diagnostics(&b, &s, &admissions, &costs, &mut ctx);
    assert_eq!(ctx.diagnostics.len(), 3);
    for d in &ctx.diagnostics {
        assert_eq!(d.name, "KernelRouteTrace");
        assert_eq!(d.stage.as_ref().unwrap().0, "PlanProjectionMessages");
    }
    let first = &ctx.diagnostics[0];
    assert_eq!(first.message, "kernel=TargetUnivariate block_id=7 admission_status=Admitted");
    assert_eq!(detail(first, "kernel_kind").unwrap(), "TargetUnivariate");
    assert_eq!(detail(first, "block_id").unwrap(), "7");
    assert_eq!(detail(first, "admission_status").unwrap(), "Admitted");
    assert_eq!(detail(first, "admission_hash").unwrap(), format!("{:?}", admissions[0].admission_hash));
    assert_eq!(detail(first, "exported_variables").unwrap(), "1");
    assert_eq!(detail(first, "eliminated_variables").unwrap(), "1");
    assert!(detail(first, "cost_class").is_none());
    assert!(detail(first, "decline_reason").is_none());

    let second = &ctx.diagnostics[1];
    assert_eq!(second.message, "kernel=SparseResultantProjection block_id=7 admission_status=CostProhibited");
    assert_eq!(detail(second, "cost_class").unwrap(), "CostProhibited");
    assert_eq!(detail(second, "estimated_rows").unwrap(), "12");
    assert_eq!(detail(second, "estimated_cols").unwrap(), "34");
    assert_eq!(detail(second, "estimated_rank").unwrap(), "5");
    assert_eq!(detail(second, "decline_reason").unwrap(), "swell");
    assert_eq!(detail(second, "preflight_estimate_hash").unwrap(), format!("{:?}", prohibited_hash));
    assert_eq!(second.details.iter().filter(|(k, _)| k == "cost_class").count(), 1);

    let third = &ctx.diagnostics[2];
    assert_eq!(detail(third, "decline_reason").unwrap(), "no support");
    let polys = block_relation_polys(&b, &s);
    let preflight = estimate_dense_relation_search_schedule(
        &polys,
        &block_eliminated_variables(&b),
        &b.exported_variables,
        &SolverOptions::default(),
    );
    assert_eq!(detail(third, "preflight_estimate_hash").unwrap(), format!("{:?}", preflight.preflight_hash));
    assert_eq!(detail(third, "planned_stage_count").unwrap(), preflight.planned_stage_count.display_value());
    assert_eq!(
        detail(third, "materialization_allowed").unwrap(),
        preflight.materialization_allowed.to_string()
    );
}
