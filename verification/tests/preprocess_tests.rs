use geosolver_core::preprocess::binomial::simplify_binomial_relations;
use geosolver_core::preprocess::compression::{
    affine_parts_in_variable, max_total_degree, polynomial_variable_map, substitute_rational_and_clear,
    substitute_rational_and_clear_with_power, total_monomial_count, CompressionState, GuardKind,
};
use geosolver_core::preprocess::definitional::{apply_definitional_elimination, find_definitional_relations};
use geosolver_core::preprocess::independent::mark_target_independent_components;
use geosolver_core::preprocess::saturation::apply_explicit_saturations;
use geosolver_core::problem::canonicalize::canonicalize_system;
use geosolver_core::problem::context::new_context;
use geosolver_core::problem::input::make_problem;
use geosolver_core::problem::semantic::{register_slack_encoding, RealConstraintKind};
use geosolver_core::problem::validate::validate_input;
use geosolver_core::solver::options::SolverOptions;
use geosolver_core::types::ids::{RelationId, VariableId};
use geosolver_core::types::polynomial::{
    constant_poly, poly_derivative, poly_mul, poly_scale, poly_sub, substitute_poly, variable_poly,
    SparsePolynomialQ, SubstitutionMap,
};
use geosolver_core::types::rational::int_q;

fn x() -> SparsePolynomialQ {
    variable_poly(VariableId(1))
}

#[test]
fn derivative_and_substitution_are_exact() {
    let p = poly_mul(&x(), &x());
    let dp = poly_derivative(&p, VariableId(1));
    assert_eq!(dp, poly_scale(&x(), &int_q(2)));

    let mut subst: SubstitutionMap = Vec::new();
    subst.push((VariableId(1), constant_poly(int_q(3))));
    assert_eq!(substitute_poly(&p, &subst), constant_poly(int_q(9)));
}

#[test]
fn finds_constant_pivot_definitions_without_using_target() {
    let t = VariableId(0);
    let x = VariableId(1);
    let y = VariableId(2);
    let problem = make_problem(
        vec![t, x, y],
        t,
        vec![poly_sub(&variable_poly(y), &constant_poly(int_q(3)))],
        Vec::new(),
    );
    let canonical = canonicalize_system(validate_input(problem).unwrap()).unwrap();
    let candidates = find_definitional_relations(&canonical);
    assert_eq!(candidates.len(), 1);
    assert_eq!(candidates[0].variable, y);
    assert_eq!(candidates[0].expression, constant_poly(int_q(3)));
}

#[test]
fn cascading_definitions_are_recomputed_after_each_substitution() {
    let t = VariableId(0);
    let s = VariableId(1);
    let x = VariableId(2);
    let canonical = canonicalize_system(
        validate_input(make_problem(
            vec![t, s, x],
            t,
            vec![
                poly_sub(&variable_poly(x), &constant_poly(int_q(2))),
                poly_sub(&variable_poly(s), &variable_poly(x)),
                poly_sub(&variable_poly(t), &variable_poly(s)),
            ],
            Vec::new(),
        ))
        .unwrap(),
    )
    .unwrap();
    let state = CompressionState::from_system(canonical);
    let mut ctx = new_context(SolverOptions::default());
    let state = apply_definitional_elimination(state, &[], &mut ctx).unwrap();

    assert!(
        state.relations.iter().any(|relation| relation.polynomial
            == poly_sub(&constant_poly(int_q(2)), &variable_poly(t))),
        "relations={:?}",
        state.relations
    );
}

#[test]
fn definitional_candidates_skip_nonlinear_and_nonconstant_pivots() {
    let t = VariableId(0);
    let x = VariableId(1);
    let y = VariableId(2);
    // x*y - 1: neither x nor y has a constant coefficient; x^2 - y: only y is definable.
    let problem = make_problem(
        vec![t, x, y],
        t,
        vec![
            poly_sub(&poly_mul(&variable_poly(x), &variable_poly(y)), &constant_poly(int_q(1))),
            poly_sub(&poly_mul(&variable_poly(x), &variable_poly(x)), &variable_poly(y)),
        ],
        Vec::new(),
    );
    let canonical = canonicalize_system(validate_input(problem).unwrap()).unwrap();
    let candidates = find_definitional_relations(&canonical);
    assert_eq!(candidates.len(), 1);
    assert_eq!(candidates[0].variable, y);
    assert_eq!(candidates[0].expression, poly_mul(&variable_poly(x), &variable_poly(x)));
    assert_eq!(candidates[0].score, 2);
}

#[test]
fn definitional_elimination_stops_with_no_declared_definition_left() {
    let t = VariableId(0);
    let x = VariableId(1);
    let canonical = canonicalize_system(
        validate_input(make_problem(
            vec![t, x],
            t,
            vec![
                poly_sub(&poly_scale(&variable_poly(x), &int_q(2)), &constant_poly(int_q(4))),
                poly_sub(&poly_mul(&variable_poly(t), &variable_poly(t)), &variable_poly(x)),
            ],
            Vec::new(),
        ))
        .unwrap(),
    )
    .unwrap();
    let state = CompressionState::from_system(canonical);
    let mut ctx = new_context(SolverOptions::default());
    let state = apply_definitional_elimination(state, &[], &mut ctx).unwrap();
    assert_eq!(state.substitutions.len(), 1);
    assert_eq!(state.substitutions[0].eliminated_variable, x);
    assert_eq!(state.relations.len(), 1);
    assert_eq!(
        state.relations[0].polynomial,
        poly_sub(&constant_poly(int_q(2)), &poly_mul(&variable_poly(t), &variable_poly(t)))
    );
    assert!(!state.variables.contains(&x));
}

#[test]
fn affine_parts_split_coefficient_and_rest() {
    let x = VariableId(1);
    let y = VariableId(2);
    // 3*x*y + 2*x - y + 5 = x*(3y + 2) + (5 - y)
    let p = poly_sub(
        &poly_sub(
            &poly_mul(&poly_scale(&variable_poly(x), &int_q(3)), &variable_poly(y)),
            &poly_scale(&variable_poly(x), &int_q(-2)),
        ),
        &poly_sub(&variable_poly(y), &constant_poly(int_q(5))),
    );
    let (coefficient, rest) = affine_parts_in_variable(&p, x).unwrap();
    assert_eq!(
        coefficient,
        poly_sub(&poly_scale(&variable_poly(y), &int_q(3)), &constant_poly(int_q(-2)))
    );
    assert_eq!(rest, poly_sub(&constant_poly(int_q(5)), &variable_poly(y)));
    let q = poly_mul(&variable_poly(x), &variable_poly(x));
    assert!(affine_parts_in_variable(&q, x).is_none());
    assert!(affine_parts_in_variable(&variable_poly(y), x).is_none());
}

#[test]
fn binomial_simplification_removes_scaled_duplicates_without_factor_split() {
    let t = VariableId(0);
    let x = VariableId(1);
    let y = VariableId(2);
    let binomial = poly_sub(&variable_poly(x), &variable_poly(y));
    let duplicate = poly_scale(&binomial, &int_q(3));
    let canonical = canonicalize_system(
        validate_input(make_problem(
            vec![t, x, y],
            t,
            vec![binomial.clone(), duplicate],
            Vec::new(),
        ))
        .unwrap(),
    )
    .unwrap();
    let state = CompressionState::from_system(canonical);
    let mut ctx = new_context(SolverOptions::default());
    let state = simplify_binomial_relations(state, &mut ctx).unwrap();
    assert_eq!(state.relations.len(), 1);
    assert_eq!(state.relations[0].polynomial, binomial);
}

#[test]
fn binomial_dedup_keeps_semantically_referenced_duplicate_relation_id() {
    let t = VariableId(0);
    let a = VariableId(1);
    let s = VariableId(2);
    let witness = poly_sub(
        &poly_mul(&variable_poly(a), &variable_poly(s)),
        &constant_poly(int_q(1)),
    );
    let duplicate = poly_scale(&witness, &int_q(3));
    let canonical = canonicalize_system(
        validate_input(make_problem(
            vec![t, a, s],
            t,
            vec![witness, duplicate],
            vec![register_slack_encoding(
                RealConstraintKind::NonZero,
                vec![RelationId(1)],
                vec![s],
            )],
        ))
        .unwrap(),
    )
    .unwrap();
    let state = CompressionState::from_system(canonical);
    let mut ctx = new_context(SolverOptions::default());
    let state = simplify_binomial_relations(state, &mut ctx).unwrap();
    assert!(state
        .relations
        .iter()
        .any(|relation| relation.id == RelationId(1)));

    let state = apply_explicit_saturations(state, &mut ctx).unwrap();
    assert_eq!(state.saturations.len(), 1);
}

#[test]
fn saturation_records_only_explicit_nonzero_witnesses() {
    let t = VariableId(0);
    let a = VariableId(1);
    let s = VariableId(2);
    let witness = poly_sub(
        &poly_mul(&variable_poly(a), &variable_poly(s)),
        &constant_poly(int_q(1)),
    );
    let canonical = canonicalize_system(
        validate_input(make_problem(vec![t, a, s], t, vec![witness], Vec::new())).unwrap(),
    )
    .unwrap();
    let state = CompressionState::from_system(canonical);
    let mut ctx = new_context(SolverOptions::default());
    let state = apply_explicit_saturations(state, &mut ctx).unwrap();
    assert_eq!(state.saturations.len(), 1);
    assert_eq!(state.guards.len(), 1);
}

#[test]
fn target_independent_component_becomes_feasibility_obligation() {
    let t = VariableId(0);
    let x = VariableId(1);
    let u = VariableId(2);
    let canonical = canonicalize_system(
        validate_input(make_problem(
            vec![t, x, u],
            t,
            vec![
                poly_sub(&variable_poly(t), &variable_poly(x)),
                poly_sub(&variable_poly(u), &constant_poly(int_q(1))),
            ],
            Vec::new(),
        ))
        .unwrap(),
    )
    .unwrap();
    let state = CompressionState::from_system(canonical);
    let mut ctx = new_context(SolverOptions::default());
    let state = mark_target_independent_components(state, &mut ctx).unwrap();
    assert_eq!(state.feasibility_obligations.len(), 1);
    assert_eq!(state.relations.len(), 1);
    assert!(state.relations[0].polynomial == poly_sub(&variable_poly(t), &variable_poly(x)));
}

#[test]
fn components_follow_shared_variables_transitively() {
    let t = VariableId(0);
    let x = VariableId(1);
    let y = VariableId(2);
    let u = VariableId(3);
    let w = VariableId(4);
    // t - x, x - y chain to the target; u - w and w - 2 form a separate component.
    let canonical = canonicalize_system(
        validate_input(make_problem(
            vec![t, x, y, u, w],
            t,
            vec![
                poly_sub(&variable_poly(t), &variable_poly(x)),
                poly_sub(&variable_poly(u), &variable_poly(w)),
                poly_sub(&variable_poly(x), &variable_poly(y)),
                poly_sub(&variable_poly(w), &constant_poly(int_q(2))),
            ],
            vec![register_slack_encoding(RealConstraintKind::Positive, vec![RelationId(0)], vec![])],
        ))
        .unwrap(),
    )
    .unwrap();
    let state = CompressionState::from_system(canonical);
    let mut ctx = new_context(SolverOptions::default());
    let state = mark_target_independent_components(state, &mut ctx).unwrap();
    let components = &state.target_independent_components;
    assert_eq!(components.len(), 2);
    assert_eq!(components[0].component_id, 0);
    assert_eq!(components[0].relation_ids, vec![RelationId(0), RelationId(2)]);
    assert_eq!(components[0].variables, vec![t, x, y]);
    assert!(components[0].contains_target);
    assert_eq!(components[1].relation_ids, vec![RelationId(1), RelationId(3)]);
    assert_eq!(components[1].variables, vec![u, w]);
    assert!(!components[1].contains_target);
    assert_eq!(state.feasibility_obligations.len(), 1);
    assert_eq!(state.feasibility_obligations[0].component_id, 1);
    let mut order = state.relation_order.clone();
    order.sort();
    assert_eq!(order, vec![RelationId(0), RelationId(2)]);
}

#[test]
fn variable_map_lists_relations_by_variable() {
    let t = VariableId(0);
    let x = VariableId(1);
    let y = VariableId(2);
    let canonical = canonicalize_system(
        validate_input(make_problem(
            vec![t, x, y],
            t,
            vec![
                poly_sub(&variable_poly(t), &variable_poly(x)),
                poly_sub(&poly_mul(&variable_poly(x), &variable_poly(y)), &constant_poly(int_q(1))),
            ],
            vec![register_slack_encoding(RealConstraintKind::Positive, vec![RelationId(0)], vec![])],
        ))
        .unwrap(),
    )
    .unwrap();
    let map = polynomial_variable_map(&canonical.relations);
    assert_eq!(map.len(), 3);
    assert_eq!(map[0].0, t);
    assert_eq!(map[0].1, vec![RelationId(0)]);
    assert_eq!(map[1].0, x);
    let mut xs = map[1].1.clone();
    xs.sort();
    assert_eq!(xs, vec![RelationId(0), RelationId(1)]);
    assert_eq!(map[2].0, y);
    assert_eq!(map[2].1, vec![RelationId(1)]);
    assert_eq!(total_monomial_count(&canonical.relations), 4);
    assert_eq!(max_total_degree(&canonical.relations), 2);
    assert_eq!(total_monomial_count(&[]), 0);
    assert_eq!(max_total_degree(&[]), 0);
}

#[test]
fn rational_substitution_clears_the_largest_denominator_power() {
    let x = VariableId(1);
    let y = VariableId(2);
    // x^2 + y with x = y / 2, times 2^2: y^2 + 4y.
    let p = poly_sub(&poly_mul(&variable_poly(x), &variable_poly(x)), &poly_scale(&variable_poly(y), &int_q(-1)));
    let (q, power) = substitute_rational_and_clear_with_power(&p, x, &variable_poly(y), &constant_poly(int_q(2)));
    assert_eq!(power, 2);
    assert_eq!(
        q,
        poly_sub(&poly_mul(&variable_poly(y), &variable_poly(y)), &poly_scale(&variable_poly(y), &int_q(-4)))
    );
    assert_eq!(substitute_rational_and_clear(&p, x, &variable_poly(y), &constant_poly(int_q(2))), q);
    let (same, none) = substitute_rational_and_clear_with_power(&variable_poly(y), x, &variable_poly(y), &constant_poly(int_q(2)));
    assert_eq!(none, 0);
    assert_eq!(same, variable_poly(y));
}

#[test]
fn rational_affine_substitution_rewrites_and_certifies_relations() {
    let t = VariableId(0);
    let x = VariableId(1);
    let y = VariableId(2);
    let canonical = canonicalize_system(
        validate_input(make_problem(
            vec![t, x, y],
            t,
            vec![
                poly_sub(&poly_mul(&variable_poly(x), &variable_poly(y)), &constant_poly(int_q(1))),
                poly_sub(&poly_mul(&variable_poly(x), &variable_poly(x)), &variable_poly(y)),
            ],
            vec![register_slack_encoding(RealConstraintKind::Positive, vec![RelationId(0)], vec![])],
        ))
        .unwrap(),
    )
    .unwrap();
    let mut state = CompressionState::from_system(canonical);
    let guard = state.add_guard(variable_poly(y), vec![RelationId(0)], GuardKind::AffineDenominator);
    // x = 1 / y: x^2 - y becomes 1 - y^3 after multiplying by y^2.
    state.apply_rational_affine_substitution(
        x,
        &constant_poly(int_q(1)),
        &variable_poly(y),
        RelationId(0),
        guard,
        vec![RelationId(0)],
    );
    assert_eq!(state.relations.len(), 1);
    assert_eq!(state.relations[0].id, RelationId(1));
    assert_eq!(
        state.relations[0].polynomial,
        poly_sub(&constant_poly(int_q(1)), &poly_mul(&variable_poly(y), &poly_mul(&variable_poly(y), &variable_poly(y))))
    );
    assert_eq!(state.relation_order, vec![RelationId(1)]);
    assert_eq!(state.rational_affine_transformations.len(), 1);
    let cert = &state.rational_affine_transformations[0];
    assert_eq!(cert.original_relation_id, RelationId(1));
    assert_eq!(cert.pivot_relation_id, RelationId(0));
    assert_eq!(cert.denominator_clearing_power, 2);
    assert_eq!(cert.transformed_relation_hash, state.relations[0].hash);
}
