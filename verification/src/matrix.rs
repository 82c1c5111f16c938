//! Moments of two-dimensional data, and two-by-two matrices.
use vstd::prelude::*;

use crate::scalar::{half, one, total, total_of, zero, Arith, Scalar};

verus! {

/// A two-by-two matrix.
#[derive(Debug, PartialEq, Eq)]
pub struct Matrix2<T> {
    /// Row 0, column 0.
    pub xx: T,
    /// Row 0, column 1.
    pub xy: T,
    /// Row 1, column 0.
    pub yx: T,
    /// Row 1, column 1.
    pub yy: T,
}

/// The mean of `x`.
pub open spec fn average<T: Arith>(x: Seq<T>) -> T {
    total(x).over(T::whole(x.len() as usize))
}

/// The sum of `(x[i] - mx) * (y[i] - my)`, taken from the left.
pub open spec fn deviation_products<T: Arith>(x: Seq<T>, y: Seq<T>, mx: T, my: T) -> T
    decreases x.len(),
{
    if x.len() == 0 {
        zero()
    } else {
        deviation_products(x.drop_last(), y.drop_last(), mx, my).plus(
            x.last().minus(mx).times(y.last().minus(my)),
        )
    }
}

/// The covariance matrix of `x` and `y`: of the whole population, or estimated from a sample.
pub open spec fn covariance<T: Arith>(x: Seq<T>, y: Seq<T>, population: bool) -> Matrix2<T> {
    let n = T::whole(x.len() as usize);
    let divisor = if population {
        n
    } else {
        n.minus(one())
    };
    let mx = average(x);
    let my = average(y);
    let across = deviation_products(x, y, mx, my).over(divisor);
    Matrix2 {
        xx: deviation_products(x, x, mx, mx).over(divisor),
        xy: across,
        yx: across,
        yy: deviation_products(y, y, my, my).over(divisor),
    }
}

/// The exponent of Scott's factor for two-dimensional data.
pub open spec fn scott_exponent<T: Arith>() -> T {
    one::<T>().negated().over(T::whole(4).plus(T::whole(2)))
}

/// The matrix with every entry multiplied by `f`.
pub open spec fn scaled<T: Arith>(m: Matrix2<T>, f: T) -> Matrix2<T> {
    Matrix2 { xx: m.xx.times(f), xy: m.xy.times(f), yx: m.yx.times(f), yy: m.yy.times(f) }
}

/// The bandwidth matrix of `x` and `y` for the factor `f`.
pub open spec fn bandwidth<T: Arith>(x: Seq<T>, y: Seq<T>, f: T) -> Matrix2<T> {
    scaled(covariance(x, y, false), f.times(f))
}

/// The product of two matrices.
pub open spec fn matrix_product<T: Arith>(a: Matrix2<T>, b: Matrix2<T>) -> Matrix2<T> {
    Matrix2 {
        xx: a.xx.times(b.xx).plus(a.xy.times(b.yx)),
        xy: a.xx.times(b.xy).plus(a.xy.times(b.yy)),
        yx: a.yx.times(b.xx).plus(a.yy.times(b.yx)),
        yy: a.yx.times(b.xy).plus(a.yy.times(b.yy)),
    }
}

/// The determinant.
pub open spec fn determinant<T: Arith>(a: Matrix2<T>) -> T {
    a.xx.times(a.yy).minus(a.xy.times(a.yx))
}

/// The matrix with rows and columns exchanged.
pub open spec fn transposed<T>(a: Matrix2<T>) -> Matrix2<T> {
    Matrix2 { xx: a.xx, xy: a.yx, yx: a.xy, yy: a.yy }
}

/// The matrix of the square roots of the entries.
pub open spec fn entry_roots<T: Arith>(a: Matrix2<T>) -> Matrix2<T> {
    Matrix2 { xx: a.xx.root(), xy: a.xy.root(), yx: a.yx.root(), yy: a.yy.root() }
}

/// What the root in the formula for the eigenvalues is taken of.
pub open spec fn discriminant<T: Arith>(m: Matrix2<T>) -> T {
    let sum = m.xx.plus(m.yy);
    sum.times(sum).minus(T::whole(4).times(determinant(m)))
}

/// The smaller eigenvalue.
pub open spec fn lower_eigenvalue<T: Arith>(m: Matrix2<T>) -> T {
    half::<T>().times(m.xx.plus(m.yy).minus(discriminant(m).root()))
}

/// The larger eigenvalue.
pub open spec fn upper_eigenvalue<T: Arith>(m: Matrix2<T>) -> T {
    half::<T>().times(m.xx.plus(m.yy).plus(discriminant(m).root()))
}

/// The eigenvalues, one for each axis: each belongs to the axis that its eigenvectors lie closer to,
/// so that the larger one goes to the axis along which the matrix is larger. Where it is equally
/// large along both, the smaller one goes to the first axis.
pub open spec fn axis_eigenvalues<T: Arith>(m: Matrix2<T>) -> (T, T) {
    if m.yy.below(m.xx) {
        (upper_eigenvalue(m), lower_eigenvalue(m))
    } else {
        (lower_eigenvalue(m), upper_eigenvalue(m))
    }
}

/// The slope of the eigenvectors for the eigenvalue `lambda`: they are the multiples of
/// `(slope, 1)`.
pub open spec fn eigenvector_slope<T: Arith>(m: Matrix2<T>, lambda: T) -> T {
    m.xy.negated().over(m.xx.minus(lambda))
}

/// The length of the vector `(slope, 1)`.
pub open spec fn slope_norm<T: Arith>(slope: T) -> T {
    slope.times(slope).plus(one()).root()
}

/// Whether the entry off the diagonal is zero.
pub open spec fn is_diagonal<T: Arith>(m: Matrix2<T>) -> bool {
    m.xy.at_most(zero()) && zero::<T>().at_most(m.xy)
}

/// The eigenvectors of length one, as columns: first that of the smaller eigenvalue.
pub open spec fn eigenvectors<T: Arith>(m: Matrix2<T>) -> Matrix2<T> {
    if is_diagonal(m) {
        if m.xx.at_most(m.yy) {
            Matrix2 { xx: one(), xy: zero(), yx: zero(), yy: one() }
        } else {
            Matrix2 { xx: zero(), xy: one(), yx: one(), yy: zero() }
        }
    } else {
        let s = eigenvector_slope(m, lower_eigenvalue(m));
        let t = eigenvector_slope(m, upper_eigenvalue(m));
        Matrix2 {
            xx: s.over(slope_norm(s)),
            xy: t.over(slope_norm(t)),
            yx: one::<T>().over(slope_norm(s)),
            yy: one::<T>().over(slope_norm(t)),
        }
    }
}

/// The diagonal matrix of the eigenvalues, the smaller one first.
pub open spec fn eigenvalues<T: Arith>(m: Matrix2<T>) -> Matrix2<T> {
    Matrix2 { xx: lower_eigenvalue(m), xy: zero(), yx: zero(), yy: upper_eigenvalue(m) }
}

/// The mean of `x`.
pub fn mean<T: Scalar>(x: &[T]) -> (r: T)
    ensures
        r == average(x@),
{
    total_of(x).quotient(T::of_usize(x.len()))
}

/// The covariance matrix of `x` and `y`: of the whole population, or estimated from a sample.
pub fn covariance_2d<T: Scalar>(x: &[T], y: &[T], population: bool) -> (r: Matrix2<T>)
    requires
        x@.len() == y@.len(),
    ensures
        r == covariance(x@, y@, population),
{
    let n: usize = x.len();
    let count: T = T::of_usize(n);
    let divisor: T = if population {
        count
    } else {
        count.difference(T::of_usize(1))
    };
    let mx: T = mean(x);
    let my: T = mean(y);
    let mut xx: T = T::of_usize(0);
    let mut xy: T = T::of_usize(0);
    let mut yy: T = T::of_usize(0);
    for i in 0..n
        invariant
            n == x@.len() == y@.len(),
            xx == deviation_products(x@.take(i as int), x@.take(i as int), mx, mx),
            xy == deviation_products(x@.take(i as int), y@.take(i as int), mx, my),
            yy == deviation_products(y@.take(i as int), y@.take(i as int), my, my),
    {
        proof {
            assert(x@.take(i + 1).drop_last() =~= x@.take(i as int));
            assert(y@.take(i + 1).drop_last() =~= y@.take(i as int));
        }
        let dx: T = x[i].difference(mx);
        let dy: T = y[i].difference(my);
        xx = xx.sum(dx.product(dx));
        xy = xy.sum(dx.product(dy));
        yy = yy.sum(dy.product(dy));
    }
    proof {
        assert(x@.take(n as int) =~= x@);
        assert(y@.take(n as int) =~= y@);
    }
    let across: T = xy.quotient(divisor);
    Matrix2 { xx: xx.quotient(divisor), xy: across, yx: across, yy: yy.quotient(divisor) }
}

/// Scott's factor for two-dimensional data with as many points as `x` has entries, computed with
/// `pow`.
pub fn scotts_factor<T: Scalar, P: Fn(T, T) -> T>(x: &[T], pow: &P) -> (r: T)
    requires
        forall|b: T, e: T| #[trigger] pow.requires((b, e)),
    ensures
        pow.ensures((T::whole(x@.len() as usize), scott_exponent::<T>()), r),
{
    let exponent: T = T::of_usize(1).opposite().quotient(T::of_usize(4).sum(T::of_usize(2)));
    (*pow)(T::of_usize(x.len()), exponent)
}

/// The bandwidth matrix of `x` and `y` for the factor `f`.
pub fn bandwidth_with_factor<T: Scalar>(x: &[T], y: &[T], f: T) -> (r: Matrix2<T>)
    requires
        x@.len() == y@.len(),
    ensures
        r == bandwidth(x@, y@, f),
{
    let c: Matrix2<T> = covariance_2d(x, y, false);
    let g: T = f.product(f);
    Matrix2 { xx: c.xx.product(g), xy: c.xy.product(g), yx: c.yx.product(g), yy: c.yy.product(g) }
}

/// The bandwidth matrix of `x` and `y`, with Scott's factor computed with `pow`.
pub fn bandwidth_matrix<T: Scalar, P: Fn(T, T) -> T>(x: &[T], y: &[T], pow: &P) -> (r: Matrix2<T>)
    requires
        x@.len() == y@.len(),
        forall|b: T, e: T| #[trigger] pow.requires((b, e)),
    ensures
        exists|f: T| #[trigger]
            pow.ensures((T::whole(x@.len() as usize), scott_exponent::<T>()), f) && r == bandwidth(
                x@,
                y@,
                f,
            ),
{
    let f: T = scotts_factor(x, pow);
    bandwidth_with_factor(x, y, f)
}

/// Whether the entry off the diagonal is zero.
fn has_no_cross_term<T: Scalar>(m: &Matrix2<T>) -> (r: bool)
    ensures
        r == is_diagonal(*m),
{
    let zero: T = T::of_usize(0);
    m.xy.is_at_most(zero) && zero.is_at_most(m.xy)
}

/// The eigenvectors and eigenvalues of a symmetric matrix: `P`, `D` and the transposed `P` with
/// `matrix = P D P^T`.
pub fn decompose_matrix<T: Scalar>(matrix: &Matrix2<T>) -> (r: (Matrix2<T>, Matrix2<T>, Matrix2<T>))
    ensures
        r.0 == eigenvectors(*matrix),
        r.1 == eigenvalues(*matrix),
        r.2 == transposed(eigenvectors(*matrix)),
{
    let zero: T = T::of_usize(0);
    let one: T = T::of_usize(1);
    let half: T = T::of_ratio(1, 2);
    let sum: T = matrix.xx.sum(matrix.yy);
    let delta: T = sum.product(sum).difference(T::of_usize(4).product(det(matrix))).square_root();
    let upper: T = half.product(sum.sum(delta));
    let lower: T = half.product(sum.difference(delta));
    let p: Matrix2<T> = if has_no_cross_term(matrix) {
        if matrix.xx.is_at_most(matrix.yy) {
            Matrix2 { xx: one, xy: zero, yx: zero, yy: one }
        } else {
            Matrix2 { xx: zero, xy: one, yx: one, yy: zero }
        }
    } else {
        let s: T = matrix.xy.opposite().quotient(matrix.xx.difference(lower));
        let t: T = matrix.xy.opposite().quotient(matrix.xx.difference(upper));
        let s_norm: T = s.product(s).sum(one).square_root();
        let t_norm: T = t.product(t).sum(one).square_root();
        Matrix2 {
            xx: s.quotient(s_norm),
            xy: t.quotient(t_norm),
            yx: one.quotient(s_norm),
            yy: one.quotient(t_norm),
        }
    };
    let d: Matrix2<T> = Matrix2 { xx: lower, xy: zero, yx: zero, yy: upper };
    let pt: Matrix2<T> = Matrix2 { xx: p.xx, xy: p.yx, yx: p.xy, yy: p.yy };
    (p, d, pt)
}

/// The eigenvalues of a symmetric matrix, one for each axis.
pub fn decompose_by_axis<T: Scalar>(matrix: &Matrix2<T>) -> (r: (T, T))
    ensures
        r == axis_eigenvalues(*matrix),
{
    let (p, d, pt) = decompose_matrix(matrix);
    if matrix.yy.is_below(matrix.xx) {
        (d.yy, d.xx)
    } else {
        (d.xx, d.yy)
    }
}

/// The product of two matrices.
pub fn matrix_multiplication<T: Scalar>(a: &Matrix2<T>, b: &Matrix2<T>) -> (r: Matrix2<T>)
    ensures
        r == matrix_product(*a, *b),
{
    Matrix2 {
        xx: a.xx.product(b.xx).sum(a.xy.product(b.yx)),
        xy: a.xx.product(b.xy).sum(a.xy.product(b.yy)),
        yx: a.yx.product(b.xx).sum(a.yy.product(b.yx)),
        yy: a.yx.product(b.xy).sum(a.yy.product(b.yy)),
    }
}

/// The matrix of the square roots of the entries.
pub fn matrix_sqrt<T: Scalar>(matrix: &Matrix2<T>) -> (r: Matrix2<T>)
    ensures
        r == (Matrix2 {
            xx: matrix.xx.root(),
            xy: matrix.xy.root(),
            yx: matrix.yx.root(),
            yy: matrix.yy.root(),
        }),
        r == entry_roots(*matrix),
{
    Matrix2 {
        xx: matrix.xx.square_root(),
        xy: matrix.xy.square_root(),
        yx: matrix.yx.square_root(),
        yy: matrix.yy.square_root(),
    }
}

/// The determinant.
pub fn det<T: Scalar>(a: &Matrix2<T>) -> (r: T)
    ensures
        r == determinant(*a),
{
    a.xx.product(a.yy).difference(a.xy.product(a.yx))
}

} // verus!
