use fast_kde::exact::Exact;
use fast_kde::matrix::{
    bandwidth_matrix, bandwidth_with_factor, covariance_2d, decompose_by_axis, decompose_matrix, det,
    matrix_multiplication, matrix_sqrt, mean, scotts_factor, Matrix2,
};
use fast_kde::scalar::Scalar;

fn q(num: u32, den: u32) -> Exact {
    Exact::of_ratio(num, den)
}

fn m(num: u32, den: u32) -> Exact {
    q(num, den).opposite()
}

fn w(n: usize) -> Exact {
    Exact::of_usize(n)
}

fn matrix(xx: Exact, xy: Exact, yx: Exact, yy: Exact) -> Matrix2<Exact> {
    Matrix2 { xx, xy, yx, yy }
}

#[test]
fn the_mean() {
    assert_eq!(mean(&[w(1), w(2), w(3), w(6)]), w(3));
    assert_eq!(mean(&[w(1), w(2)]), q(3, 2));
}

#[test]
fn the_covariance_of_a_sample_and_of_a_population() {
    let x = vec![w(1), w(2), w(3), w(6)];
    let y = vec![w(2), w(4), w(4), w(6)];
    let sample = covariance_2d(&x, &y, false);
    assert_eq!(sample, matrix(q(14, 3), q(10, 3), q(10, 3), q(8, 3)));
    let population = covariance_2d(&x, &y, true);
    assert_eq!(population, matrix(q(7, 2), q(5, 2), q(5, 2), w(2)));
}

#[test]
fn a_covariance_has_no_negative_direction() {
    let x = vec![w(1), w(2), w(3), w(6)];
    let y = vec![w(9), w(1), w(4), w(0)];
    let c = covariance_2d(&x, &y, false);
    assert_eq!(c.xy, c.yx);
    assert!(w(0).is_at_most(c.xx) && w(0).is_at_most(c.yy) && w(0).is_at_most(det(&c)));
}

#[test]
fn the_factor_of_scott() {
    let pow = |b: Exact, e: Exact| b.sum(e);
    assert_eq!(scotts_factor(&[w(0), w(0), w(0), w(0)], &pow), q(23, 6));
}

#[test]
fn the_bandwidth_scales_the_covariance() {
    let x = vec![w(1), w(2), w(3), w(6)];
    let y = vec![w(2), w(4), w(4), w(6)];
    let expected = matrix(q(14, 12), q(10, 12), q(10, 12), q(8, 12));
    assert_eq!(bandwidth_with_factor(&x, &y, q(1, 2)), expected);
    let pow = |b: Exact, _: Exact| b.quotient(w(8));
    assert_eq!(bandwidth_matrix(&x, &y, &pow), expected);
}

#[test]
fn a_matrix_is_made_of_its_eigenvectors_and_eigenvalues() {
    let a = matrix(q(73, 25), m(36, 25), m(36, 25), q(52, 25));
    let (p, d, pt) = decompose_matrix(&a);
    assert_eq!(d, matrix(w(1), w(0), w(0), w(4)));
    assert_eq!(p, matrix(q(3, 5), m(4, 5), q(4, 5), q(3, 5)));
    assert_eq!(pt, matrix(q(3, 5), q(4, 5), m(4, 5), q(3, 5)));
    assert_eq!(matrix_multiplication(&matrix_multiplication(&p, &d), &pt), a);
}

#[test]
fn a_diagonal_matrix_is_decomposed() {
    let a = matrix(w(9), w(0), w(0), w(4));
    let (p, d, pt) = decompose_matrix(&a);
    assert_eq!(d, matrix(w(4), w(0), w(0), w(9)));
    assert_eq!(matrix_multiplication(&matrix_multiplication(&p, &d), &pt), a);
    let b = matrix(w(4), w(0), w(0), w(9));
    let (p, d, pt) = decompose_matrix(&b);
    assert_eq!(p, matrix(w(1), w(0), w(0), w(1)));
    assert_eq!(d, b);
    assert_eq!(pt, p);
}

#[test]
fn matrices_multiply() {
    let a = matrix(w(1), w(2), w(3), w(4));
    let b = matrix(w(5), w(6), w(7), w(8));
    assert_eq!(matrix_multiplication(&a, &b), matrix(w(19), w(22), w(43), w(50)));
}

#[test]
fn the_determinant_of_a_product() {
    let a = matrix(w(1), w(2), w(3), w(4));
    let b = matrix(w(5), w(6), w(7), w(9));
    assert_eq!(det(&a), w(2).opposite());
    assert_eq!(det(&b), w(3));
    assert_eq!(det(&matrix_multiplication(&a, &b)), w(6).opposite());
}

#[test]
fn the_roots_of_the_entries() {
    let r = matrix_sqrt(&matrix(w(4), w(9), q(1, 4), w(0)));
    assert_eq!(r, matrix(w(2), w(3), q(1, 2), w(0)));
    let none = matrix_sqrt(&matrix(w(2), m(1, 1), w(1), w(1)));
    assert!(!none.xx.is_finite() && !none.xy.is_finite());
}

#[test]
fn exact_numbers_compute() {
    assert_eq!(q(1, 2).sum(q(1, 3)), q(5, 6));
    assert_eq!(q(1, 2).difference(q(1, 3)), q(1, 6));
    assert_eq!(q(2, 3).product(q(3, 4)), q(1, 2));
    assert_eq!(q(2, 3).quotient(m(4, 3)), m(1, 2));
    assert_eq!(q(9, 4).square_root(), q(3, 2));
    assert_eq!(q(7, 2).floor_to_index(), 3);
    assert_eq!(m(7, 2).floor_to_index(), 0);
    assert!(q(1, 3).is_below(q(1, 2)) && !q(1, 2).is_below(q(1, 2)));
    assert!(q(1, 2).is_at_most(q(2, 4)) && !q(1, 2).is_at_most(q(1, 3)));
}

#[test]
fn undefined_numbers_stay_undefined() {
    let none = w(1).quotient(w(0));
    assert!(!none.is_finite());
    assert!(!none.sum(w(1)).is_finite());
    assert!(!none.is_below(w(1)) && !none.is_at_most(none));
    let large = Exact { num: i64::MAX, den: 1 };
    assert!(!large.sum(w(1)).is_finite());
    assert!(!large.product(large).is_finite());
}

#[test]
fn how_covariances_change_with_the_data() {
    let x = vec![w(1), w(2), w(3), w(6)];
    let y = vec![w(9), w(1), w(4), w(0)];
    let s = covariance_2d(&x, &y, false);
    let p = covariance_2d(&x, &y, true);
    assert_eq!(p.xx.product(w(4)), s.xx.product(w(3)));
    assert_eq!(p.xy.product(w(4)), s.xy.product(w(3)));
    assert_eq!(p.yy.product(w(4)), s.yy.product(w(3)));
    let exchanged = covariance_2d(&y, &x, false);
    assert_eq!(exchanged, matrix(s.yy, s.yx, s.xy, s.xx));
    let u: Vec<Exact> = x.iter().map(|v| v.sum(w(7))).collect();
    let v: Vec<Exact> = y.iter().map(|v| v.difference(q(5, 2))).collect();
    assert_eq!(covariance_2d(&u, &v, false), s);
}

#[test]
fn each_axis_has_its_own_eigenvalue() {
    assert_eq!(decompose_by_axis(&matrix(w(9), w(0), w(0), w(4))), (w(9), w(4)));
    assert_eq!(decompose_by_axis(&matrix(w(4), w(0), w(0), w(9))), (w(4), w(9)));
    let a = matrix(q(73, 25), m(36, 25), m(36, 25), q(52, 25));
    assert_eq!(decompose_by_axis(&a), (w(4), w(1)));
    let b = matrix(q(52, 25), m(36, 25), m(36, 25), q(73, 25));
    assert_eq!(decompose_by_axis(&b), (w(1), w(4)));
}

#[test]
fn the_determinant_of_the_identity_and_of_exchanged_rows() {
    assert_eq!(det(&matrix(w(1), w(0), w(0), w(1))), w(1));
    assert_eq!(det(&matrix(w(1), w(2), w(3), w(7))), w(1));
    assert_eq!(det(&matrix(w(3), w(7), w(1), w(2))), w(1).opposite());
}
