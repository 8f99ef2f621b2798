use geosolver_core::result::status::SolverErrorKind;
use geosolver_core::roots::algebraic_number::{
    algebraic_root_from_record, compare_algebraic_roots, hash_algebraic_root, AlgebraicRootOrdering,
};
use geosolver_core::roots::isolate::RealRootRecord;
use geosolver_core::roots::squarefree::squarefree_support;
use geosolver_core::types::bigint::from_i64;
use geosolver_core::types::hash::hash_sequence;
use geosolver_core::types::ids::VariableId;
use geosolver_core::types::interval::RationalInterval;
use geosolver_core::types::rational::{int_q, new_q, RationalQ};
use geosolver_core::types::univariate::{
    constant_uni, degree_uni, derivative_uni, eval_uni_q, gcd_uni, normalize_univariate, squarefree_part_uni,
    zero_uni, UniPolynomialQ,
};

fn q(n: i64) -> RationalQ {
    int_q(n)
}

fn poly(variable: VariableId, coeffs: Vec<i64>) -> UniPolynomialQ {
    normalize_univariate(UniPolynomialQ {
        variable,
        coeffs_low_to_high: coeffs.into_iter().map(int_q).collect(),
        hash: hash_sequence("univariate", &[]),
    })
}

#[test]
fn derivative_and_eval_are_exact() {
    let p = normalize_univariate(UniPolynomialQ {
        variable: VariableId(1),
        coeffs_low_to_high: vec![q(1), q(0), q(3)],
        hash: hash_sequence("univariate", &[]),
    });
    assert_eq!(eval_uni_q(&p, &q(2)), q(13));
    assert_eq!(derivative_uni(&p).coeffs_low_to_high, vec![q(0), q(6)]);
}

#[test]
fn gcd_and_squarefree_are_monic() {
    let x_minus_1_squared = normalize_univariate(UniPolynomialQ {
        variable: VariableId(1),
        coeffs_low_to_high: vec![q(1), q(-2), q(1)],
        hash: hash_sequence("univariate", &[]),
    });
    let sqfree = squarefree_part_uni(&x_minus_1_squared);
    assert_eq!(sqfree.coeffs_low_to_high, vec![q(-1), q(1)]);
    assert_eq!(
        gcd_uni(&x_minus_1_squared, &derivative_uni(&x_minus_1_squared)).coeffs_low_to_high,
        vec![q(-1), q(1)]
    );
}

#[test]
fn squarefree_part_is_monic_for_a_scaled_square() {
    let two_x_minus_1_squared = normalize_univariate(UniPolynomialQ {
        variable: VariableId(1),
        coeffs_low_to_high: vec![q(2), q(-4), q(2)],
        hash: hash_sequence("univariate", &[]),
    });
    assert_eq!(squarefree_part_uni(&two_x_minus_1_squared).coeffs_low_to_high, vec![q(-1), q(1)]);
    assert_eq!(squarefree_support(&two_x_minus_1_squared).unwrap().coeffs_low_to_high, vec![q(-1), q(1)]);
}

#[test]
fn hash_is_stable_for_equal_polynomials() {
    let a = constant_uni(VariableId(9), RationalQ { num: from_i64(4), den: from_i64(1) });
    let b = constant_uni(VariableId(9), int_q(4));
    assert_eq!(a.hash, b.hash);
}

#[test]
fn p12_squarefree_rejects_zero_and_removes_repeated_factors() {
    let t = VariableId(0);
    let zero = normalize_univariate(UniPolynomialQ {
        variable: t,
        coeffs_low_to_high: Vec::new(),
        hash: hash_sequence("univariate", &[]),
    });
    assert!(squarefree_support(&zero).is_err());

    let repeated = poly(t, vec![-1, 3, -3, 1]);
    let squarefree = squarefree_support(&repeated).unwrap();
    assert_eq!(squarefree.coeffs_low_to_high, vec![int_q(-1), int_q(1)]);
}

#[test]
fn normalization_drops_trailing_zeros() {
    let p = poly(VariableId(2), vec![5, 0, 0]);
    assert_eq!(p.coeffs_low_to_high, vec![q(5)]);
    assert_eq!(degree_uni(&p), Some(0));
    assert_eq!(degree_uni(&zero_uni(VariableId(2))), None);
    assert_eq!(p.hash, constant_uni(VariableId(2), q(5)).hash);
    assert_ne!(p.hash, constant_uni(VariableId(3), q(5)).hash);
}

#[test]
fn eval_uses_rational_points() {
    let p = poly(VariableId(0), vec![-1, 0, 4]);
    let half = new_q(from_i64(1), from_i64(2));
    assert_eq!(eval_uni_q(&p, &half), q(0));
    let third = new_q(from_i64(1), from_i64(3));
    assert_eq!(eval_uni_q(&p, &third), new_q(from_i64(-5), from_i64(9)));
}

#[test]
fn gcd_of_coprime_polynomials_is_one() {
    let a = poly(VariableId(0), vec![-1, 1]);
    let b = poly(VariableId(0), vec![1, 1]);
    assert_eq!(gcd_uni(&a, &b).coeffs_low_to_high, vec![q(1)]);
    let z = zero_uni(VariableId(0));
    assert!(gcd_uni(&z, &z).coeffs_low_to_high.is_empty());
    let scaled = poly(VariableId(0), vec![4, 2]);
    assert_eq!(gcd_uni(&scaled, &z).coeffs_low_to_high, vec![q(2), q(1)]);
}

#[test]
fn gcd_degree_is_at_most_both_degrees() {
    let x_squared = poly(VariableId(0), vec![0, 0, 3]);
    let x = poly(VariableId(0), vec![0, 5]);
    assert_eq!(gcd_uni(&x_squared, &x).coeffs_low_to_high, vec![q(0), q(1)]);
    assert_eq!(gcd_uni(&x, &x_squared).coeffs_low_to_high, vec![q(0), q(1)]);
    let z = zero_uni(VariableId(0));
    assert_eq!(gcd_uni(&z, &x_squared).coeffs_low_to_high, vec![q(0), q(0), q(1)]);
}

#[test]
fn squarefree_part_of_a_constant_is_one() {
    let c = poly(VariableId(0), vec![7]);
    assert_eq!(squarefree_part_uni(&c).coeffs_low_to_high, vec![q(1)]);
    let cubic = poly(VariableId(0), vec![0, 0, 0, 2]);
    assert_eq!(squarefree_part_uni(&cubic).coeffs_low_to_high, vec![q(0), q(1)]);
}

#[test]
fn zero_support_error_names_the_stage() {
    let zero = poly(VariableId(4), vec![0]);
    let err = squarefree_support(&zero).unwrap_err();
    assert_eq!(err.target, Some(VariableId(4)));
    match err.kind {
        SolverErrorKind::Failure(kind) => {
            let text = format!("{kind:?}");
            assert!(text.contains("SquarefreeSupport"));
            assert!(text.contains("zero support"));
        }
        _ => panic!("expected a failure"),
    }
}

fn interval(lo: i64, hi: i64) -> RationalInterval {
    RationalInterval { lo: int_q(lo), hi: int_q(hi) }
}

#[test]
fn algebraic_records_bind_support_and_compare_by_interval() {
    let t = VariableId(0);
    let support = poly(t, vec![3, -4, 1]);
    let first = RealRootRecord { support_hash: support.hash, root_index: 0, isolating_interval: interval(0, 2) };
    let second = RealRootRecord { support_hash: support.hash, root_index: 1, isolating_interval: interval(2, 4) };
    let a = algebraic_root_from_record(&support, &first).unwrap();
    let b = algebraic_root_from_record(&support, &second).unwrap();
    assert_ne!(a.root_hash, b.root_hash);
    assert_eq!(a.root_hash, hash_algebraic_root(support.hash, 0, &interval(0, 2)));
    assert_eq!(compare_algebraic_roots(&a, &b), Some(AlgebraicRootOrdering::Less));
    assert_eq!(compare_algebraic_roots(&b, &a), Some(AlgebraicRootOrdering::Greater));
    assert_eq!(compare_algebraic_roots(&a, &a), Some(AlgebraicRootOrdering::Equal));

    let overlapping = RealRootRecord { support_hash: support.hash, root_index: 1, isolating_interval: interval(1, 3) };
    let c = algebraic_root_from_record(&support, &overlapping).unwrap();
    assert_eq!(compare_algebraic_roots(&a, &c), None);

    let other = poly(t, vec![-2, 1]);
    let mismatched = algebraic_root_from_record(&other, &first);
    assert!(matches!(mismatched.unwrap_err().kind, SolverErrorKind::InvalidInput { .. }));
}
