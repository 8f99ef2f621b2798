use geosolver_core::types::bigint::{from_i64, BigInt};
use geosolver_core::types::hash::{hash_sequence, sort_dedup_hashes};
use geosolver_core::types::ids::{fresh_relation_id, fresh_variable_id, stable_id_from_name, IdCounter, RelationId, VariableId};
use geosolver_core::types::interval::{interval_contains_q, interval_disjoint, interval_new};
use geosolver_core::types::matrix::{
    hash_matrix, matrix_density, matrix_shape, DenseMatrixFp, MatrixShape, SparseMatrixFp, SparseMatrixQ,
};
use geosolver_core::types::monomial::{monomial_div, monomial_mul, normalize_monomial, Monomial};
use geosolver_core::types::polynomial::{
    clear_denominators_primitive, constant_poly, normalize_poly, poly_add, poly_derivative, poly_mul, poly_scale,
    poly_sub, variable_poly, zero_poly, SparsePolynomialQ, TermQ,
};
use geosolver_core::types::rational::{add_q, div_q, int_q, mul_q, new_q, sub_q};

#[test]
fn fresh_ids_are_monotone() {
    let mut counter = IdCounter::new(7);
    assert_eq!(fresh_variable_id(&mut counter), VariableId(7));
    assert_eq!(fresh_variable_id(&mut counter), VariableId(8));
}

#[test]
fn fresh_relation_ids_share_the_counter() {
    let mut counter = IdCounter::new(0);
    assert_eq!(fresh_variable_id(&mut counter), VariableId(0));
    assert_eq!(fresh_relation_id(&mut counter), RelationId(1));
}

#[test]
fn stable_ids_are_namespace_bound() {
    assert_eq!(
        stable_id_from_name("x", "vars"),
        stable_id_from_name("x", "vars")
    );
    assert_ne!(
        stable_id_from_name("x", "vars"),
        stable_id_from_name("x", "relations")
    );
}

#[test]
fn monomial_normalization_sorts_and_combines() {
    let m = normalize_monomial(vec![
        (VariableId(3), 1),
        (VariableId(1), 2),
        (VariableId(3), 4),
    ]);
    assert_eq!(m.exponents, vec![(VariableId(1), 2), (VariableId(3), 5)]);
}

#[test]
fn monomial_products_commute_and_add_exponents() {
    let a = normalize_monomial(vec![(VariableId(2), 1), (VariableId(1), 3)]);
    let b = normalize_monomial(vec![(VariableId(3), 2), (VariableId(1), 1)]);
    let ab = monomial_mul(&a, &b);
    assert_eq!(ab, monomial_mul(&b, &a));
    assert_eq!(ab.exponents, vec![(VariableId(1), 4), (VariableId(2), 1), (VariableId(3), 2)]);
    assert_eq!(monomial_div(&ab, &b), Some(a.clone()));
    assert_eq!(monomial_div(&ab, &a), Some(b.clone()));
}

#[test]
fn monomial_division_is_exact_when_possible() {
    let a = normalize_monomial(vec![(VariableId(1), 3), (VariableId(2), 1)]);
    let b = normalize_monomial(vec![(VariableId(1), 2)]);
    assert_eq!(
        monomial_div(&a, &b).unwrap(),
        normalize_monomial(vec![(VariableId(1), 1), (VariableId(2), 1)])
    );
    assert!(monomial_div(&b, &a).is_none());
}

#[test]
fn monomial_normalization_drops_zero_exponents_and_saturates() {
    let m = normalize_monomial(vec![(VariableId(4), 0), (VariableId(2), u32::MAX), (VariableId(2), 3)]);
    assert_eq!(m.exponents, vec![(VariableId(2), u32::MAX)]);
}

#[test]
fn monomial_product_adds_exponents() {
    let a = normalize_monomial(vec![(VariableId(1), 2)]);
    let b = normalize_monomial(vec![(VariableId(0), 1), (VariableId(1), 1)]);
    assert_eq!(monomial_mul(&a, &b), Monomial { exponents: vec![(VariableId(0), 1), (VariableId(1), 3)] });
}

#[test]
fn normalizes_sign_and_gcd() {
    let q = new_q(from_i64(6), from_i64(-8));
    assert_eq!(q.num, from_i64(-3));
    assert_eq!(q.den, from_i64(4));
}

#[test]
fn zero_is_canonical() {
    let q = new_q(from_i64(0), from_i64(99));
    assert_eq!(q.num, BigInt::zero());
    assert_eq!(q.den, BigInt::one());
}

#[test]
fn exact_arithmetic_identity() {
    let a = new_q(from_i64(1), from_i64(2));
    let b = new_q(from_i64(1), from_i64(3));
    let sum = add_q(&a, &b);
    assert_eq!(sum, new_q(from_i64(5), from_i64(6)));
    assert_eq!(sub_q(&sum, &b), a);
    assert_eq!(mul_q(&a, &b), new_q(from_i64(1), from_i64(6)));
    assert_eq!(
        div_q(&a, &b).unwrap(),
        new_q(from_i64(3), from_i64(2))
    );
}

#[test]
fn division_by_zero_is_an_error() {
    assert!(div_q(&int_q(1), &int_q(0)).is_err());
}

#[test]
fn interval_invariants_hold() {
    let i = interval_new(int_q(1), int_q(3)).unwrap();
    assert!(interval_contains_q(&i, &int_q(2)));
    assert!(!interval_contains_q(&i, &int_q(4)));
    let j = interval_new(int_q(4), int_q(5)).unwrap();
    assert!(interval_disjoint(&i, &j));
    assert!(interval_new(int_q(5), int_q(4)).is_err());
    assert!(interval_new(int_q(5), int_q(5)).is_err());
}

#[test]
fn intervals_order_endpoints_by_value() {
    let third = new_q(from_i64(1), from_i64(3));
    let half = new_q(from_i64(1), from_i64(2));
    let i = interval_new(third.clone(), half.clone()).unwrap();
    assert!(interval_new(half.clone(), third.clone()).is_err());
    assert!(interval_contains_q(&i, &new_q(from_i64(2), from_i64(5))));
    assert!(interval_contains_q(&i, &new_q(from_i64(2), from_i64(6))));
    assert!(!interval_contains_q(&i, &new_q(from_i64(3), from_i64(5))));
    let j = interval_new(new_q(from_i64(3), from_i64(5)), int_q(1)).unwrap();
    assert!(interval_disjoint(&i, &j));
    assert!(!interval_disjoint(&i, &interval_new(new_q(from_i64(2), from_i64(5)), int_q(1)).unwrap()));
}

fn x() -> SparsePolynomialQ {
    variable_poly(VariableId(1))
}

#[test]
fn normalization_merges_terms_and_hashes_deterministically() {
    let p = normalize_poly(SparsePolynomialQ {
        terms: vec![
            TermQ {
                coeff: int_q(2),
                monomial: normalize_monomial(vec![(VariableId(1), 1)]),
            },
            TermQ {
                coeff: int_q(3),
                monomial: normalize_monomial(vec![(VariableId(1), 1)]),
            },
        ],
        hash: hash_sequence("poly", &[]),
    });
    let q = poly_scale(&x(), &int_q(5));
    assert_eq!(p, q);
    assert_eq!(p.hash, q.hash);
}

#[test]
fn clear_denominators_makes_primitive_integer_poly() {
    let p = normalize_poly(SparsePolynomialQ {
        terms: vec![TermQ {
            coeff: new_q(from_i64(2), from_i64(6)),
            monomial: normalize_monomial(vec![(VariableId(1), 1)]),
        }],
        hash: hash_sequence("poly", &[]),
    });
    assert_eq!(clear_denominators_primitive(&p), x());
}

#[test]
fn normalization_drops_cancelling_terms_and_orders_monomials() {
    let p = normalize_poly(SparsePolynomialQ {
        terms: vec![
            TermQ { coeff: int_q(1), monomial: normalize_monomial(vec![(VariableId(2), 1)]) },
            TermQ { coeff: int_q(4), monomial: normalize_monomial(vec![]) },
            TermQ { coeff: int_q(-1), monomial: normalize_monomial(vec![(VariableId(2), 1)]) },
            TermQ { coeff: int_q(0), monomial: normalize_monomial(vec![(VariableId(7), 2)]) },
            TermQ { coeff: int_q(3), monomial: normalize_monomial(vec![(VariableId(1), 1)]) },
        ],
        hash: hash_sequence("poly", &[]),
    });
    assert_eq!(p.terms.len(), 2);
    assert_eq!(p.terms[0].monomial.exponents, vec![]);
    assert_eq!(p.terms[0].coeff, int_q(4));
    assert_eq!(p.terms[1].monomial.exponents, vec![(VariableId(1), 1)]);
    assert_eq!(p.terms[1].coeff, int_q(3));
}

#[test]
fn polynomial_ring_operations_are_exact() {
    let sum = poly_add(&x(), &constant_poly(int_q(1)));
    let diff = poly_sub(&sum, &x());
    assert_eq!(diff, constant_poly(int_q(1)));
    let square = poly_mul(&sum, &sum);
    assert_eq!(square.terms.len(), 3);
    assert_eq!(poly_sub(&x(), &x()), zero_poly());
    assert_eq!(poly_scale(&x(), &int_q(0)), zero_poly());
}

#[test]
fn derivative_is_exact() {
    let p = poly_mul(&x(), &x());
    let dp = poly_derivative(&p, VariableId(1));
    assert_eq!(dp, poly_scale(&x(), &int_q(2)));
    assert_eq!(poly_derivative(&p, VariableId(4)), zero_poly());
}

#[test]
fn clear_denominators_removes_content_and_fixes_sign() {
    let p = poly_add(
        &poly_scale(&x(), &new_q(from_i64(-4), from_i64(3))),
        &constant_poly(new_q(from_i64(2), from_i64(3))),
    );
    let q = clear_denominators_primitive(&p);
    let expected = poly_sub(&constant_poly(int_q(1)), &poly_scale(&x(), &int_q(2)));
    assert_eq!(q, expected);
}

#[test]
fn sorted_hash_lists_are_deduplicated() {
    let a = hash_sequence("a", &[]);
    let b = hash_sequence("b", &[]);
    let out = sort_dedup_hashes(&[b, a, b]);
    assert_eq!(out.len(), 2);
    assert!(out[0] < out[1]);
}

#[test]
fn matrix_shape_density_and_hash_are_deterministic() {
    let m = SparseMatrixQ { rows: 2, cols: 3, entries: vec![(0, 0, int_q(1)), (1, 2, int_q(2))] };
    assert_eq!(matrix_shape(&m), (2, 3));
    assert_eq!(matrix_density(&m), new_q(from_i64(2), from_i64(6)));
    assert_eq!(hash_matrix(&m), hash_matrix(&m.clone()));
}

#[test]
fn sparse_matrix_density_and_hash_canonicalize_entries() {
    let canonical = SparseMatrixQ { rows: 2, cols: 2, entries: vec![(0, 0, int_q(3))] };
    let noncanonical = SparseMatrixQ {
        rows: 2,
        cols: 2,
        entries: vec![(0, 0, int_q(1)), (1, 1, int_q(0)), (0, 0, int_q(2)), (3, 3, int_q(9))],
    };
    assert_eq!(matrix_density(&noncanonical), new_q(from_i64(1), from_i64(4)));
    assert_eq!(hash_matrix(&canonical), hash_matrix(&noncanonical));

    let fp_duplicates = SparseMatrixFp { rows: 2, cols: 2, entries: vec![(0, 0, 2), (1, 1, 0), (0, 0, 1), (3, 3, 7)] };
    let fp_duplicates_reordered =
        SparseMatrixFp { rows: 2, cols: 2, entries: vec![(3, 3, 7), (0, 0, 1), (0, 0, 2), (1, 1, 0)] };
    assert_eq!(matrix_density(&fp_duplicates), new_q(from_i64(1), from_i64(4)));
    assert_eq!(hash_matrix(&fp_duplicates), hash_matrix(&fp_duplicates_reordered));
}

#[test]
fn rational_entries_that_cancel_leave_no_nonzero_position() {
    let m = SparseMatrixQ { rows: 3, cols: 3, entries: vec![(1, 1, int_q(2)), (1, 1, int_q(-2)), (2, 0, int_q(5))] };
    assert_eq!(m.nonzero_count(), 1);
    assert_eq!(matrix_density(&m), new_q(from_i64(1), from_i64(9)));
    let only = SparseMatrixQ { rows: 3, cols: 3, entries: vec![(2, 0, int_q(5))] };
    assert_eq!(m.canonical_bytes(), only.canonical_bytes());
}

#[test]
fn canonical_bytes_of_a_sparse_rational_matrix() {
    let m = SparseMatrixQ { rows: 1, cols: 2, entries: vec![(0, 1, int_q(3))] };
    let mut expected = vec![0, 0, 0, 0, 0, 0, 0, 1, 0, 0, 0, 0, 0, 0, 0, 2];
    expected.extend_from_slice(&[0, 0, 0, 0, 0, 0, 0, 0, 0, 0, 0, 0, 0, 0, 0, 1]);
    expected.extend_from_slice(&[0, 0, 0, 0, 0, 0, 0, 1, 3, 0, 0, 0, 0, 0, 0, 0, 1, 1]);
    assert_eq!(m.canonical_bytes(), expected);
}

#[test]
fn residue_entries_keep_duplicates_sorted() {
    let m = SparseMatrixFp { rows: 1, cols: 1, entries: vec![(0, 0, 5), (0, 0, 3)] };
    let mut expected = vec![0, 0, 0, 0, 0, 0, 0, 1, 0, 0, 0, 0, 0, 0, 0, 1];
    expected.extend_from_slice(&[0, 0, 0, 0, 0, 0, 0, 0, 0, 0, 0, 0, 0, 0, 0, 0, 0, 0, 0, 0, 0, 0, 0, 2]);
    expected.extend_from_slice(&[0, 0, 0, 0, 0, 0, 0, 3, 0, 0, 0, 0, 0, 0, 0, 5]);
    assert_eq!(m.canonical_bytes(), expected);
    assert_eq!(m.nonzero_count(), 1);
}

#[test]
fn dense_matrix_counts_nonzero_values() {
    let m = DenseMatrixFp { rows: 2, cols: 2, entries_row_major: vec![0, 4, 0, 9] };
    assert_eq!(m.nonzero_count(), 2);
    assert_eq!(matrix_density(&m), new_q(from_i64(1), from_i64(2)));
    let empty = DenseMatrixFp { rows: 0, cols: 4, entries_row_major: vec![] };
    assert_eq!(matrix_density(&empty), int_q(0));
    let other = DenseMatrixFp { rows: 2, cols: 2, entries_row_major: vec![0, 4, 0, 8] };
    assert_ne!(hash_matrix(&m), hash_matrix(&other));
}
