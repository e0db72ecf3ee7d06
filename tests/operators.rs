use qdk_linalg::complex::Complex;
use qdk_linalg::error::OperatorError;
use qdk_linalg::extend::{extend_one_to_n, extend_two_to_n};
use qdk_linalg::functions::{conjugate_by_of, dagger_of, matmul_of, trace_of, ConjBy, HasDagger, Trace};
use qdk_linalg::matrix::{tensor, zeros_like, Matrix};
use qdk_linalg::permute::permute_mtx;

fn c(re: i64, im: i64) -> Complex {
    Complex::new(re, im)
}

fn mat(dim: usize, vals: &[(i64, i64)]) -> Matrix {
    assert_eq!(vals.len(), dim * dim);
    Matrix { dim, data: vals.iter().map(|&(re, im)| c(re, im)).collect() }
}

fn same(a: &Matrix, b: &Matrix) -> bool {
    a.dim == b.dim && a.data == b.data
}

fn op2() -> Matrix {
    mat(2, &[(1, 2), (3, -1), (-4, 0), (5, 7)])
}

fn op4() -> Matrix {
    let vals: Vec<(i64, i64)> = (0..16).map(|k| (k as i64 + 1, 2 * k as i64 - 9)).collect();
    mat(4, &vals)
}

fn swap4() -> Matrix {
    let mut vals = vec![(0, 0); 16];
    vals[0] = (1, 0);
    vals[1 * 4 + 2] = (1, 0);
    vals[2 * 4 + 1] = (1, 0);
    vals[3 * 4 + 3] = (1, 0);
    mat(4, &vals)
}

fn bit(x: usize, axis: usize, n: usize) -> usize {
    (x >> (n - 1 - axis)) & 1
}

#[test]
fn complex_arithmetic_is_exact() {
    assert_eq!(c(1, 2).times(&c(3, 4)), c(-5, 10));
    assert_eq!(c(1, 2).plus(&c(3, -4)), c(4, -2));
    assert_eq!(c(1, 2).conj(), c(1, -2));
    assert_eq!(Complex::one().times(&c(7, -3)), c(7, -3));
}

#[test]
fn tensor_entries_follow_kronecker_layout() {
    let a = op2();
    let b = mat(2, &[(0, 1), (2, 0), (1, 1), (-1, 0)]);
    let t = tensor(&a, &b);
    assert_eq!(t.dim, 4);
    for i in 0..2 {
        for j in 0..2 {
            for k in 0..2 {
                for l in 0..2 {
                    assert_eq!(t.get(i * 2 + k, j * 2 + l), a.get(i, j).times(&b.get(k, l)));
                }
            }
        }
    }
}

#[test]
fn tensor_dimension_and_first_entry() {
    let a = op2();
    let b = op4();
    let t = tensor(&a, &b);
    assert_eq!(t.dim, 8);
    assert_eq!(t.data.len(), 64);
    assert_eq!(t.get(0, 0), a.get(0, 0).times(&b.get(0, 0)));
    assert_eq!(t.get(0, 0), c(1, 2).times(&c(1, -9)));
}

#[test]
fn tensor_with_empty_operand_gives_other() {
    let empty = Matrix { dim: 0, data: vec![] };
    assert!(same(&tensor(&empty, &op2()), &op2()));
    assert!(same(&tensor(&op2(), &empty), &op2()));
}

#[test]
fn tensor_is_order_sensitive() {
    let a = op2();
    let b = mat(2, &[(0, 1), (2, 0), (1, 1), (-1, 0)]);
    assert!(!same(&tensor(&a, &b), &tensor(&b, &a)));
}

#[test]
fn identity_and_zeros() {
    let e = Matrix::eye(3);
    assert_eq!(e.get(1, 1), c(1, 0));
    assert_eq!(e.get(1, 2), c(0, 0));
    let z = zeros_like(&op4());
    assert_eq!(z.dim, 4);
    assert!(z.data.iter().all(|x| *x == c(0, 0)));
}

#[test]
fn permute_swaps_two_factors() {
    let a = op2();
    let b = mat(2, &[(0, 1), (2, 0), (1, 1), (-1, 0)]);
    let ab = tensor(&a, &b);
    let ba = tensor(&b, &a);
    let p = permute_mtx(&ab, &[1, 0]).unwrap();
    assert!(same(&p, &ba));
}

#[test]
fn permute_identity_order_keeps_operator() {
    let m = op4();
    assert!(same(&permute_mtx(&m, &[0, 1]).unwrap(), &m));
}

#[test]
fn permute_then_inverse_restores_operator() {
    let vals: Vec<(i64, i64)> = (0..64).map(|k| (k as i64, -(k as i64) * 3)).collect();
    let m = mat(8, &vals);
    let order = [2usize, 0, 1];
    let inverse = [1usize, 2, 0];
    let p = permute_mtx(&m, &order).unwrap();
    assert!(!same(&p, &m));
    let back = permute_mtx(&p, &inverse).unwrap();
    assert!(same(&back, &m));
}

#[test]
fn permute_moves_axes_as_ordered() {
    let vals: Vec<(i64, i64)> = (0..64).map(|k| (k as i64, 0)).collect();
    let m = mat(8, &vals);
    let order = [2usize, 0, 1];
    let p = permute_mtx(&m, &order).unwrap();
    for r in 0..8 {
        for col in 0..8 {
            let mut sr = 0;
            let mut sc = 0;
            for k in 0..3 {
                sr |= bit(r, k, 3) << (2 - order[k]);
                sc |= bit(col, k, 3) << (2 - order[k]);
            }
            assert_eq!(p.get(r, col), m.get(sr, sc));
        }
    }
}

#[test]
fn permute_rejects_bad_shape() {
    let m = mat(3, &[(0, 0); 9]);
    assert_eq!(permute_mtx(&m, &[0]).unwrap_err(), OperatorError::Shape);
    let empty = Matrix { dim: 0, data: vec![] };
    assert_eq!(permute_mtx(&empty, &[]).unwrap_err(), OperatorError::Shape);
}

#[test]
fn permute_rejects_bad_orders() {
    let m = op4();
    assert_eq!(permute_mtx(&m, &[0]).unwrap_err(), OperatorError::Permutation);
    assert_eq!(permute_mtx(&m, &[0, 0]).unwrap_err(), OperatorError::Permutation);
    assert_eq!(permute_mtx(&m, &[0, 2]).unwrap_err(), OperatorError::Permutation);
    assert_eq!(permute_mtx(&m, &[0, 1, 2]).unwrap_err(), OperatorError::Permutation);
}

#[test]
fn extend_single_on_one_qubit_is_unchanged() {
    let op = op2();
    assert!(same(&extend_one_to_n(&op, 0, 1).unwrap(), &op));
}

#[test]
fn extend_single_middle_of_three() {
    let op = op2();
    let expected = tensor(&tensor(&Matrix::eye(2), &op), &Matrix::eye(2));
    assert!(same(&extend_one_to_n(&op, 1, 3).unwrap(), &expected));
}

#[test]
fn extend_single_ends() {
    let op = op2();
    let first = extend_one_to_n(&op, 0, 3).unwrap();
    assert!(same(&first, &tensor(&op, &Matrix::eye(4))));
    let last = extend_one_to_n(&op, 2, 3).unwrap();
    assert!(same(&last, &tensor(&Matrix::eye(4), &op)));
}

#[test]
fn extend_single_errors() {
    assert_eq!(extend_one_to_n(&op2(), 3, 3).unwrap_err(), OperatorError::IndexOutOfRange);
    assert_eq!(extend_one_to_n(&op4(), 0, 3).unwrap_err(), OperatorError::Shape);
}

#[test]
fn extend_pair_swapped_on_two_qubits() {
    let s = swap4();
    assert!(same(&extend_two_to_n(&s, 1, 0, 2).unwrap(), &s));
    let op = op4();
    let swapped = extend_two_to_n(&op, 1, 0, 2).unwrap();
    assert!(same(&swapped, &permute_mtx(&op, &[1, 0]).unwrap()));
    assert!(same(&extend_two_to_n(&op, 0, 1, 2).unwrap(), &op));
}

#[test]
fn extend_pair_matches_brute_force() {
    let op = op4();
    for n in 2..=4usize {
        for i1 in 0..n {
            for i2 in 0..n {
                if i1 == i2 {
                    continue;
                }
                let r = extend_two_to_n(&op, i1, i2, n).unwrap();
                let d = 1usize << n;
                assert_eq!(r.dim, d);
                for row in 0..d {
                    for col in 0..d {
                        let others_agree = (0..n)
                            .filter(|&a| a != i1 && a != i2)
                            .all(|a| bit(row, a, n) == bit(col, a, n));
                        let expected = if others_agree {
                            let or = bit(row, i1, n) * 2 + bit(row, i2, n);
                            let oc = bit(col, i1, n) * 2 + bit(col, i2, n);
                            op.get(or, oc)
                        } else {
                            c(0, 0)
                        };
                        assert_eq!(r.get(row, col), expected, "n={} i1={} i2={}", n, i1, i2);
                    }
                }
            }
        }
    }
}

#[test]
fn extend_pair_errors() {
    assert_eq!(extend_two_to_n(&op4(), 0, 3, 3).unwrap_err(), OperatorError::IndexOutOfRange);
    assert_eq!(extend_two_to_n(&op4(), 3, 0, 3).unwrap_err(), OperatorError::IndexOutOfRange);
    assert_eq!(extend_two_to_n(&op2(), 0, 1, 3).unwrap_err(), OperatorError::Shape);
    assert_eq!(extend_two_to_n(&op4(), 1, 1, 3).unwrap_err(), OperatorError::Permutation);
}

#[test]
fn dagger_conjugates_and_transposes() {
    let m = op2();
    let d = dagger_of(&m);
    assert!(same(&d, &mat(2, &[(1, -2), (-4, 0), (3, 1), (5, -7)])));
    assert!(same(&m.dag(), &d));
}

#[test]
fn dagger_twice_is_identity() {
    let m = op4();
    assert!(same(&dagger_of(&dagger_of(&m)), &m));
}

#[test]
fn trace_sums_diagonal() {
    assert_eq!(trace_of(&op2()), c(6, 9));
    assert_eq!(op2().trace(), c(6, 9));
    assert_eq!(Matrix::eye(4).trace(), c(4, 0));
}

#[test]
fn trace_of_tensor_is_product_of_traces() {
    let a = op2();
    let b = op4();
    let t = tensor(&a, &b);
    assert_eq!(trace_of(&t), trace_of(&a).times(&trace_of(&b)));
}

#[test]
fn matmul_values() {
    let a = mat(2, &[(1, 0), (2, 0), (3, 0), (4, 0)]);
    let b = mat(2, &[(0, 1), (1, 0), (1, 0), (0, -1)]);
    let p = matmul_of(&a, &b);
    assert!(same(&p, &mat(2, &[(2, 1), (1, -2), (4, 3), (3, -4)])));
}

#[test]
fn conjugate_by_values() {
    let x = mat(2, &[(1, 0), (0, 0), (0, 0), (-1, 0)]);
    let u = mat(2, &[(0, 0), (1, 0), (1, 0), (0, 0)]);
    let r = conjugate_by_of(&x, &u).unwrap();
    assert!(same(&r, &mat(2, &[(-1, 0), (0, 0), (0, 0), (1, 0)])));
    let y = mat(2, &[(0, 1), (2, 0), (0, 0), (1, 1)]);
    let s = mat(2, &[(0, 0), (0, 1), (1, 0), (0, 0)]);
    let expected = matmul_of(&matmul_of(&s, &y), &dagger_of(&s));
    assert!(same(&y.conjugate_by(&s).unwrap(), &expected));
    assert!(same(&expected, &mat(2, &[(1, 1), (0, 0), (0, -2), (0, 1)])));
}

#[test]
fn conjugate_by_rejects_mismatched_dimensions() {
    assert_eq!(conjugate_by_of(&op2(), &op4()).unwrap_err(), OperatorError::Shape);
}

#[test]
fn extend_single_x_on_second_of_two() {
    let x = mat(2, &[(0, 0), (1, 0), (1, 0), (0, 0)]);
    let r = extend_one_to_n(&x, 1, 2).unwrap();
    let expected = mat(
        4,
        &[
            (0, 0), (1, 0), (0, 0), (0, 0),
            (1, 0), (0, 0), (0, 0), (0, 0),
            (0, 0), (0, 0), (0, 0), (1, 0),
            (0, 0), (0, 0), (1, 0), (0, 0),
        ],
    );
    assert!(same(&r, &expected));
}

#[test]
fn extend_single_preserves_products() {
    let a = op2();
    let b = mat(2, &[(0, 1), (2, 0), (1, 1), (-1, 0)]);
    let ab = matmul_of(&a, &b);
    for q in 0..3 {
        let lifted = extend_one_to_n(&ab, q, 3).unwrap();
        let la = extend_one_to_n(&a, q, 3).unwrap();
        let lb = extend_one_to_n(&b, q, 3).unwrap();
        assert!(same(&lifted, &matmul_of(&la, &lb)));
    }
}

#[test]
fn extend_pair_of_product_lands_factor_by_factor() {
    let a = op2();
    let b = mat(2, &[(0, 1), (2, 0), (1, 1), (-1, 0)]);
    let ab = tensor(&a, &b);
    for n in 2..=3usize {
        for i1 in 0..n {
            for i2 in 0..n {
                if i1 == i2 {
                    continue;
                }
                let placed = extend_two_to_n(&ab, i1, i2, n).unwrap();
                let la = extend_one_to_n(&a, i1, n).unwrap();
                let lb = extend_one_to_n(&b, i2, n).unwrap();
                assert!(same(&placed, &matmul_of(&la, &lb)), "n={} i1={} i2={}", n, i1, i2);
            }
        }
    }
}
