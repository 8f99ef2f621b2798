use geosolver_core::problem::canonicalize::{canonical_variable_order, canonicalize_system};
use geosolver_core::problem::context::{
    begin_route_budget, check_resource, check_resource_work, end_route_budget, new_context,
    push_diagnostic, ActiveRouteBudget,
};
use geosolver_core::problem::input::{make_problem, make_problem_with_roles, VariableRoleRecord};
use geosolver_core::problem::semantic::{
    register_slack_encoding, semantic_relations, verify_semantic_references, RealConstraintKind,
};
use geosolver_core::problem::validate::validate_input;
use geosolver_core::result::diagnostics::DiagnosticRecord;
use geosolver_core::result::status::{FailureKind, SolverErrorKind, StageId};
use geosolver_core::solver::options::SolverOptions;
use geosolver_core::types::bigint::from_i64;
use geosolver_core::types::hash::hash_sequence;
use geosolver_core::types::ids::{BlockId, RelationId, VariableId};
use geosolver_core::types::polynomial::{constant_poly, poly_scale, variable_poly};
use geosolver_core::types::rational::{int_q, new_q};

#[test]
fn semantic_relations_are_collected_without_role_dispatch() {
    let enc = register_slack_encoding(
        RealConstraintKind::Positive,
        vec![RelationId(2), RelationId(1)],
        vec![VariableId(9)],
    );
    assert_eq!(
        semantic_relations(&[enc]),
        vec![RelationId(1), RelationId(2)]
    );
}

#[test]
fn semantic_reference_check_rejects_unknown_slack_variable() {
    let enc = register_slack_encoding(
        RealConstraintKind::Positive,
        vec![RelationId(0)],
        vec![VariableId(99)],
    );
    assert!(verify_semantic_references(&[enc], &[RelationId(0)], &[VariableId(0)]).is_err());
}

#[test]
fn semantic_relations_merge_repeats_across_encodings() {
    let a = register_slack_encoding(RealConstraintKind::NonZero, vec![RelationId(3), RelationId(1)], vec![]);
    let b = register_slack_encoding(RealConstraintKind::Other, vec![RelationId(1), RelationId(0)], vec![]);
    assert_eq!(
        semantic_relations(&[a, b]),
        vec![RelationId(0), RelationId(1), RelationId(3)]
    );
}

#[test]
fn semantic_hash_binds_the_kind() {
    let a = register_slack_encoding(RealConstraintKind::Positive, vec![RelationId(0)], vec![VariableId(1)]);
    let b = register_slack_encoding(RealConstraintKind::NonNegative, vec![RelationId(0)], vec![VariableId(1)]);
    let c = register_slack_encoding(RealConstraintKind::Positive, vec![RelationId(0)], vec![VariableId(1)]);
    assert_ne!(a.semantic_hash, b.semantic_hash);
    assert_eq!(a.semantic_hash, c.semantic_hash);
}

#[test]
fn semantic_reference_check_accepts_known_references_and_rejects_unknown_relations() {
    let enc = register_slack_encoding(RealConstraintKind::BranchChoice, vec![RelationId(0)], vec![VariableId(2)]);
    assert!(verify_semantic_references(std::slice::from_ref(&enc), &[RelationId(0)], &[VariableId(2)]).is_ok());
    assert!(verify_semantic_references(&[enc], &[RelationId(1)], &[VariableId(2)]).is_err());
}

#[test]
fn input_hash_binds_target_variables_semantics_and_roles() {
    let x = VariableId(0);
    let y = VariableId(1);
    let equation = variable_poly(y);
    let base = make_problem(vec![x, y], x, vec![equation.clone()], Vec::new());
    let target_changed = make_problem(vec![x, y], y, vec![equation.clone()], Vec::new());
    assert_ne!(base.input_hash, target_changed.input_hash);

    let semantic =
        register_slack_encoding(RealConstraintKind::Positive, vec![RelationId(0)], vec![y]);
    let with_semantic = make_problem(vec![x, y], x, vec![equation.clone()], vec![semantic]);
    assert_ne!(base.input_hash, with_semantic.input_hash);

    let with_roles = make_problem_with_roles(
        vec![x, y],
        x,
        vec![equation],
        Vec::new(),
        vec![VariableRoleRecord {
            variable: y,
            role_name: "slack".to_string(),
        }],
    );
    assert_ne!(base.input_hash, with_roles.input_hash);
}

#[test]
fn roles_do_not_affect_validation() {
    let problem = make_problem_with_roles(
        vec![VariableId(0), VariableId(1)],
        VariableId(0),
        vec![variable_poly(VariableId(1))],
        Vec::new(),
        vec![VariableRoleRecord {
            variable: VariableId(1),
            role_name: "coordinate".to_string(),
        }],
    );
    assert!(validate_input(problem).is_ok());
}

#[test]
fn slack_and_branch_semantics_are_accepted_when_references_exist() {
    let sem = register_slack_encoding(
        RealConstraintKind::BranchChoice,
        vec![RelationId(0)],
        vec![VariableId(2)],
    );
    let problem = make_problem(
        vec![VariableId(0), VariableId(1), VariableId(2)],
        VariableId(0),
        vec![variable_poly(VariableId(1))],
        vec![sem],
    );
    assert!(validate_input(problem).is_ok());
}

#[test]
fn invalid_target_is_rejected() {
    let problem = make_problem(
        vec![VariableId(1)],
        VariableId(0),
        vec![variable_poly(VariableId(1))],
        Vec::new(),
    );
    assert!(validate_input(problem).is_err());
}

#[test]
fn invalid_semantic_reference_is_rejected() {
    let sem = register_slack_encoding(
        RealConstraintKind::NonZero,
        vec![RelationId(99)],
        Vec::new(),
    );
    let problem = make_problem(
        vec![VariableId(0), VariableId(1)],
        VariableId(0),
        vec![variable_poly(VariableId(1))],
        vec![sem],
    );
    assert!(validate_input(problem).is_err());
}

#[test]
fn invalid_semantic_slack_variable_is_rejected() {
    let sem = register_slack_encoding(
        RealConstraintKind::Positive,
        vec![RelationId(0)],
        vec![VariableId(99)],
    );
    let problem = make_problem(
        vec![VariableId(0), VariableId(1)],
        VariableId(0),
        vec![variable_poly(VariableId(1))],
        vec![sem],
    );
    assert!(validate_input(problem).is_err());
}

fn invalid_message(r: Result<geosolver_core::problem::validate::ValidatedProblem, geosolver_core::result::status::SolverError>) -> String {
    match r {
        Err(e) => match e.kind {
            SolverErrorKind::InvalidInput { message } => message,
            _ => panic!("not an invalid-input error"),
        },
        Ok(_) => panic!("accepted"),
    }
}

#[test]
fn validation_errors_name_the_failed_check() {
    let undeclared = make_problem(vec![VariableId(0)], VariableId(0), vec![variable_poly(VariableId(5))], Vec::new());
    assert_eq!(invalid_message(validate_input(undeclared)), "polynomial references undeclared variable");
    let mut zero_term = variable_poly(VariableId(0));
    zero_term.terms[0].coeff = int_q(0);
    let zero = make_problem(vec![VariableId(0)], VariableId(0), vec![zero_term], Vec::new());
    assert_eq!(invalid_message(validate_input(zero)), "polynomial contains non-normalized zero coefficient term");
    let no_target = make_problem(vec![VariableId(1)], VariableId(0), Vec::new(), Vec::new());
    assert_eq!(invalid_message(validate_input(no_target)), "target is not listed as a variable");
}

#[test]
fn denominator_normalization_is_preserved() {
    let problem = make_problem(
        vec![VariableId(0), VariableId(1)],
        VariableId(0),
        vec![constant_poly(new_q(from_i64(2), from_i64(4)))],
        Vec::new(),
    );
    assert!(canonicalize_system(validate_input(problem).unwrap()).is_err());

    let problem = make_problem(
        vec![VariableId(0), VariableId(1)],
        VariableId(0),
        vec![poly_scale(
            &variable_poly(VariableId(1)),
            &new_q(from_i64(2), from_i64(4)),
        )],
        Vec::new(),
    );
    let canonical = canonicalize_system(validate_input(problem).unwrap()).unwrap();
    assert_eq!(
        canonical.relations[0].polynomial,
        variable_poly(VariableId(1))
    );
}

#[test]
fn zero_relations_are_removed_with_diagnostics() {
    let problem = make_problem(
        vec![VariableId(0)],
        VariableId(0),
        vec![constant_poly(int_q(0))],
        Vec::new(),
    );
    let canonical = canonicalize_system(validate_input(problem).unwrap()).unwrap();
    assert!(canonical.relations.is_empty());
    assert_eq!(canonical.diagnostics[0].name, "ZeroRelationRemoved");
}

#[test]
fn nonzero_constant_relation_is_contradiction() {
    let problem = make_problem(
        vec![VariableId(0)],
        VariableId(0),
        vec![constant_poly(int_q(1))],
        Vec::new(),
    );
    assert!(canonicalize_system(validate_input(problem).unwrap()).is_err());
}

#[test]
fn zero_relation_removal_cannot_drop_semantic_provenance() {
    let t = VariableId(0);
    let s = VariableId(1);
    let semantic =
        register_slack_encoding(RealConstraintKind::Positive, vec![RelationId(0)], vec![s]);
    let problem = make_problem(vec![t, s], t, vec![constant_poly(int_q(0))], vec![semantic]);

    assert!(canonicalize_system(validate_input(problem).unwrap()).is_err());
}

#[test]
fn canonical_hash_binds_semantic_provenance() {
    let t = VariableId(0);
    let s = VariableId(1);
    let equation = variable_poly(t);
    let without_semantic = make_problem(vec![t, s], t, vec![equation.clone()], Vec::new());
    let with_semantic = make_problem(
        vec![t, s],
        t,
        vec![equation],
        vec![register_slack_encoding(
            RealConstraintKind::NonNegative,
            vec![RelationId(0)],
            vec![s],
        )],
    );

    let without_semantic =
        canonicalize_system(validate_input(without_semantic).unwrap()).unwrap();
    let with_semantic = canonicalize_system(validate_input(with_semantic).unwrap()).unwrap();
    assert_ne!(
        without_semantic.canonical_hash,
        with_semantic.canonical_hash
    );
    assert_eq!(with_semantic.semantic_encodings.len(), 1);
}

#[test]
fn relation_order_is_content_canonicalized() {
    let x = VariableId(0);
    let y = VariableId(1);
    let first = variable_poly(x);
    let second = variable_poly(y);
    let forward = make_problem(
        vec![x, y],
        x,
        vec![first.clone(), second.clone()],
        Vec::new(),
    );
    let reversed = make_problem(vec![x, y], x, vec![second, first], Vec::new());

    let forward = canonicalize_system(validate_input(forward).unwrap()).unwrap();
    let reversed = canonicalize_system(validate_input(reversed).unwrap()).unwrap();

    assert_eq!(
        forward
            .relations
            .iter()
            .map(|relation| relation.polynomial.hash)
            .collect::<Vec<_>>(),
        reversed
            .relations
            .iter()
            .map(|relation| relation.polynomial.hash)
            .collect::<Vec<_>>()
    );
}

#[test]
fn canonical_variable_order_puts_the_target_first() {
    let order = canonical_variable_order(&[VariableId(5), VariableId(2), VariableId(9), VariableId(2)], VariableId(9));
    assert_eq!(order.variables, vec![VariableId(9), VariableId(2), VariableId(2), VariableId(5)]);
}

#[test]
fn canonicalization_clears_denominators_and_renumbers() {
    let x = VariableId(0);
    let half_x = poly_scale(&variable_poly(x), &new_q(from_i64(-1), from_i64(2)));
    let problem = make_problem(vec![x], x, vec![constant_poly(int_q(0)), half_x], Vec::new());
    let canonical = canonicalize_system(validate_input(problem).unwrap()).unwrap();
    assert_eq!(canonical.relations.len(), 1);
    assert_eq!(canonical.relations[0].id, RelationId(0));
    assert_eq!(canonical.relations[0].polynomial, variable_poly(x));
    assert_eq!(canonical.relation_order, vec![RelationId(0)]);
    assert_eq!(canonical.diagnostics.len(), 1);
}

fn budget(max_steps: usize, max_work: u128) -> ActiveRouteBudget {
    ActiveRouteBudget {
        block_id: BlockId(3),
        kernel_kind: "LinearAffine".to_string(),
        plan_hash: hash_sequence("plan", &[]),
        route_budget_hash: hash_sequence("budget", &[]),
        algebraic_work_estimate_hash: hash_sequence("estimate", &[]),
        max_elapsed_steps: max_steps,
        max_work_units: max_work,
        consumed_steps: 0,
        consumed_work_units: 0,
    }
}

#[test]
fn checkpoints_without_a_route_always_pass() {
    let mut ctx = new_context(SolverOptions::default());
    assert!(check_resource(&mut ctx, StageId("anything".to_string())).is_ok());
    assert!(ctx.active_route_budget.is_none());
}

#[test]
fn route_budget_checkpoint_fails_once_exceeded_and_keeps_failing() {
    let mut ctx = new_context(SolverOptions::default());
    begin_route_budget(&mut ctx, budget(2, 100));
    assert!(check_resource(&mut ctx, StageId("a".to_string())).is_ok());
    assert!(check_resource_work(&mut ctx, StageId("b".to_string()), 50).is_ok());
    let err = check_resource(&mut ctx, StageId("c".to_string())).unwrap_err();
    match err.kind {
        SolverErrorKind::Failure(FailureKind::FiniteResourceFailure { stage, block_id, memory_bytes, .. }) => {
            assert_eq!(block_id, Some(BlockId(3)));
            assert_eq!(memory_bytes, Some(100));
            assert!(stage.0.starts_with("RouteBudget::LinearAffine::cooperative checkpoint exceeded route budget::c; plan_hash=Hash(["));
            assert!(stage.0.ends_with("consumed_steps=3; max_elapsed_steps=2; consumed_work_units=52; max_work_units=100"));
        }
        _ => panic!("expected a finite resource failure"),
    }
    assert!(check_resource(&mut ctx, StageId("d".to_string())).is_err());
    let ended = end_route_budget(&mut ctx).unwrap();
    assert_eq!(ended.consumed_steps, 4);
    assert_eq!(ended.consumed_work_units, 53);
    assert!(ctx.active_route_budget.is_none());
}

#[test]
fn work_over_budget_fails_even_with_steps_left() {
    let mut ctx = new_context(SolverOptions::default());
    begin_route_budget(&mut ctx, budget(10, 5));
    assert!(check_resource_work(&mut ctx, StageId("w".to_string()), 6).is_err());
}

#[test]
fn diagnostics_are_appended_in_order() {
    let mut ctx = new_context(SolverOptions::default());
    push_diagnostic(&mut ctx, DiagnosticRecord::new("A", "first", None));
    push_diagnostic(&mut ctx, DiagnosticRecord::new("B", "second", None));
    assert_eq!(ctx.diagnostics.len(), 2);
    assert_eq!(ctx.diagnostics[1].name, "B");
}
