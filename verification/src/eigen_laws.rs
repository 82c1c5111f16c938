//! What the functions of two-by-two matrices are, in exact arithmetic.
use vstd::prelude::*;

use crate::matrix::{
    axis_eigenvalues, determinant, discriminant, eigenvalues, eigenvector_slope, eigenvectors,
    entry_roots, lower_eigenvalue, matrix_product, slope_norm, transposed, upper_eigenvalue,
    Matrix2,
};
use crate::matrix_laws::{
    has_root, law_axis_eigenvalues, law_decomposition, law_eigenvalues, lemma_slope,
    lemma_slopes_are_orthogonal, lemma_unit_vector,
};
use crate::reals::{
    lemma_associate, lemma_commute, lemma_distribute, lemma_div_mul, lemma_pair_up,
    lemma_product_sign, lemma_square, lemma_units,
};
use crate::scalar::{is_root, Arith};

verus! {

/// Applying the product of two matrices to a vector applies one after the other.
pub proof fn law_product_applies_both(a: Matrix2<real>, b: Matrix2<real>, v: real, w: real)
    ensures
        ({
            let p = matrix_product(a, b);
            let (x, y) = (b.xx * v + b.xy * w, b.yx * v + b.yy * w);
            &&& p.xx * v + p.xy * w == a.xx * x + a.xy * y
            &&& p.yx * v + p.yy * w == a.yx * x + a.yy * y
        }),
{
    lemma_distribute(a.xx * b.xx, a.xy * b.yx, v);
    lemma_distribute(a.xx * b.xy, a.xy * b.yy, w);
    lemma_distribute(a.yx * b.xx, a.yy * b.yx, v);
    lemma_distribute(a.yx * b.xy, a.yy * b.yy, w);
    lemma_distribute(b.xx * v, b.xy * w, a.xx);
    lemma_distribute(b.yx * v, b.yy * w, a.xy);
    lemma_distribute(b.xx * v, b.xy * w, a.yx);
    lemma_distribute(b.yx * v, b.yy * w, a.yy);
    lemma_associate(a.xx, b.xx, v);
    lemma_associate(a.xy, b.yx, v);
    lemma_associate(a.xx, b.xy, w);
    lemma_associate(a.xy, b.yy, w);
    lemma_associate(a.yx, b.xx, v);
    lemma_associate(a.yy, b.yx, v);
    lemma_associate(a.yx, b.xy, w);
    lemma_associate(a.yy, b.yy, w);
}

/// The determinant solves linear equations: from what a matrix makes of a vector, the vector is
/// found again by the rule of Cramer.
pub proof fn law_determinant_solves_equations(a: Matrix2<real>, v: real, w: real)
    ensures
        ({
            let (x, y) = (a.xx * v + a.xy * w, a.yx * v + a.yy * w);
            &&& determinant(a) * v == a.yy * x - a.xy * y
            &&& determinant(a) * w == a.xx * y - a.yx * x
        }),
{
    let (p, q, r, s) = (a.xx, a.xy, a.yx, a.yy);
    lemma_distribute(p * s, q * r, v);
    lemma_distribute(p * s, q * r, w);
    lemma_distribute(p * v, q * w, s);
    lemma_distribute(r * v, s * w, q);
    lemma_distribute(r * v, s * w, p);
    lemma_distribute(p * v, q * w, r);
    // s (p v) == (p s) v, s (q w) == q (s w), q (r v) == (q r) v
    lemma_associate(s, p, v);
    lemma_commute(s, p);
    lemma_associate(s, q, w);
    lemma_commute(s, q);
    lemma_associate(q, s, w);
    lemma_associate(q, r, v);
    // p (r v) == r (p v), p (s w) == (p s) w, r (q w) == (q r) w
    lemma_associate(p, r, v);
    lemma_commute(p, r);
    lemma_associate(r, p, v);
    lemma_associate(p, s, w);
    lemma_associate(r, q, w);
    lemma_commute(r, q);
}

/// The transposed matrix does on one side of a scalar product what the matrix does on the other.
pub proof fn law_transposed_matrix(a: Matrix2<real>, v: real, w: real, x: real, y: real)
    ensures
        ({
            let t = transposed(a);
            (a.xx * v + a.xy * w) * x + (a.yx * v + a.yy * w) * y == v * (t.xx * x + t.xy * y) + w
                * (t.yx * x + t.yy * y)
        }),
{
    lemma_distribute(a.xx * v, a.xy * w, x);
    lemma_distribute(a.yx * v, a.yy * w, y);
    lemma_distribute(a.xx * x, a.yx * y, v);
    lemma_distribute(a.xy * x, a.yy * y, w);
    lemma_commute(a.xx, v);
    lemma_commute(a.xy, w);
    lemma_commute(a.yx, v);
    lemma_commute(a.yy, w);
    lemma_associate(v, a.xx, x);
    lemma_associate(w, a.xy, x);
    lemma_associate(v, a.yx, y);
    lemma_associate(w, a.yy, y);
}

/// The roots of the entries are not negative, and their squares are the entries.
pub proof fn law_entry_roots(a: Matrix2<real>)
    requires
        has_root(a.xx),
        has_root(a.xy),
        has_root(a.yx),
        has_root(a.yy),
    ensures
        ({
            let r = entry_roots(a);
            &&& r.xx >= 0real && r.xx * r.xx == a.xx
            &&& r.xy >= 0real && r.xy * r.xy == a.xy
            &&& r.yx >= 0real && r.yx * r.yx == a.yx
            &&& r.yy >= 0real && r.yy * r.yy == a.yy
        }),
{
    assert(is_root(a.xx.root(), a.xx));
    assert(is_root(a.xy.root(), a.xy));
    assert(is_root(a.yx.root(), a.yx));
    assert(is_root(a.yy.root(), a.yy));
}

/// What the root is taken of.
proof fn lemma_discriminant(m: Matrix2<real>)
    ensures
        discriminant(m) == (m.xx - m.yy) * (m.xx - m.yy) + 4real * (m.xy * m.yx),
{
    lemma_square(m.xx, m.yy);
    lemma_distribute(m.xx * m.yy, m.xy * m.yx, 4real);
    let sum = m.xx + m.yy;
    assert(discriminant(m) == sum * sum - 4real * (m.xx * m.yy - m.xy * m.yx));
}

/// The eigenvalues of a symmetric matrix, one for each axis: they sum to the trace, multiply to the
/// determinant, and the larger one goes to the axis along which the matrix is larger.
pub proof fn law_variances_of_axes(m: Matrix2<real>, r: real)
    requires
        m.xy == m.yx,
        r >= 0real,
        r * r == (m.xx - m.yy) * (m.xx - m.yy) + 4real * (m.xy * m.xy),
    ensures
        ({
            let (a, b) = axis_eigenvalues(m);
            &&& a + b == m.xx + m.yy
            &&& a * b == m.xx * m.yy - m.xy * m.xy
            &&& m.xx <= m.yy ==> a <= b
            &&& m.yy < m.xx ==> b <= a
        }),
        ({
            let d = eigenvalues(m);
            &&& d.xy == 0real
            &&& d.yx == 0real
            &&& d.xx <= d.yy
            &&& d.xx + d.yy == m.xx + m.yy
            &&& d.xx * d.yy == m.xx * m.yy - m.xy * m.xy
        }),
{
    lemma_discriminant(m);
    assert(is_root(r, discriminant(m)));
    assert(has_root(discriminant(m)));
    law_axis_eigenvalues(m);
    law_eigenvalues(m);
}

/// Whether every number that is not negative has a square root.
pub open spec fn roots_exist() -> bool {
    forall|x: real| x >= 0real ==> #[trigger] has_root(x)
}

/// The decomposition of a symmetric matrix: the columns of `P` have the length one and are
/// orthogonal, `D` is diagonal with the smaller eigenvalue first, and `P D P^T` is the matrix.
pub proof fn law_decomposition_is_orthogonal(m: Matrix2<real>)
    requires
        m.xy == m.yx,
        roots_exist(),
    ensures
        ({
            let p = eigenvectors(m);
            let d = eigenvalues(m);
            &&& p.xx * p.xx + p.yx * p.yx == 1real
            &&& p.xy * p.xy + p.yy * p.yy == 1real
            &&& p.xx * p.xy + p.yx * p.yy == 0real
            &&& d.xy == 0real
            &&& d.yx == 0real
            &&& d.xx <= d.yy
            &&& (p.xx * d.xx) * p.xx + (p.xy * d.yy) * p.xy == m.xx
            &&& (p.xx * d.xx) * p.yx + (p.xy * d.yy) * p.yy == m.xy
            &&& (p.yx * d.xx) * p.xx + (p.yy * d.yy) * p.xy == m.yx
            &&& (p.yx * d.xx) * p.yx + (p.yy * d.yy) * p.yy == m.yy
        }),
{
    let (a, b, c) = (m.xx, m.xy, m.yy);
    lemma_discriminant(m);
    lemma_product_sign(a - c, a - c);
    lemma_product_sign(b, b);
    assert(has_root(discriminant(m)));
    law_eigenvalues(m);
    let (l, u) = (lower_eigenvalue(m), upper_eigenvalue(m));
    let (p, d) = (eigenvectors(m), eigenvalues(m));
    lemma_units(0real);
    lemma_units(1real);
    if b != 0real {
        let s = eigenvector_slope(m, l);
        let t = eigenvector_slope(m, u);
        lemma_product_sign(s, s);
        lemma_product_sign(t, t);
        assert(has_root(s * s + 1real));
        assert(has_root(t * t + 1real));
        lemma_commute(l, u);
        lemma_slope(a, b, c, l, u, s);
        lemma_slope(a, b, c, u, l, t);
        lemma_slopes_are_orthogonal(a, b, c, l, u, s, t);
        let (j, k) = (slope_norm(s), slope_norm(t));
        assert(is_root(j, s * s + 1real));
        assert(is_root(k, t * t + 1real));
        lemma_unit_vector(s, j);
        lemma_unit_vector(t, k);
        let (x, y) = (1real / j, 1real / k);
        lemma_distribute(s * s, 1real, x * x);
        lemma_distribute(t * t, 1real, y * y);
        lemma_units(x * x);
        lemma_units(y * y);
        // (s x) (t y) + x y == (s t + 1) (x y)
        assert(s / j == s * x) by (nonlinear_arith)
            requires
                j != 0real,
                x == 1real / j,
        ;
        assert(t / k == t * y) by (nonlinear_arith)
            requires
                k != 0real,
                y == 1real / k,
        ;
        lemma_pair_up(s, x, t, y);
        lemma_negate_one(x * y);
    }
    law_decomposition(m);
    lemma_units(p.xx * d.xx);
    let q = matrix_product(p, d);
    lemma_units(p.xx);
    lemma_units(p.xy);
    lemma_units(p.yx);
    lemma_units(p.yy);
    assert(q.xx == p.xx * d.xx && q.xy == p.xy * d.yy);
    assert(q.yx == p.yx * d.xx && q.yy == p.yy * d.yy);
    assert(matrix_product(q, transposed(p)) == m);
}

/// The eigenvalues of any matrix that has some sum to the trace and multiply to the determinant. The
/// smaller one comes first, and by axis in the order of the entries of the diagonal.
pub proof fn law_eigenvalues_of_any_matrix(m: Matrix2<real>, r: real)
    requires
        r >= 0real,
        r * r == (m.xx - m.yy) * (m.xx - m.yy) + 4real * (m.xy * m.yx),
    ensures
        ({
            let d = eigenvalues(m);
            &&& d.xy == 0real && d.yx == 0real
            &&& d.xx <= d.yy
            &&& d.xx + d.yy == m.xx + m.yy
            &&& d.xx * d.yy == m.xx * m.yy - m.xy * m.yx
        }),
        ({
            let (a, b) = axis_eigenvalues(m);
            &&& a + b == m.xx + m.yy
            &&& a * b == m.xx * m.yy - m.xy * m.yx
            &&& m.xx <= m.yy ==> a <= b
            &&& m.yy < m.xx ==> b <= a
        }),
{
    lemma_discriminant(m);
    assert(is_root(r, discriminant(m)));
    assert(has_root(discriminant(m)));
    law_eigenvalues(m);
    law_axis_eigenvalues(m);
}

/// The eigenvectors of any matrix that has some: the columns have length one, the matrix stretches
/// each by its eigenvalue, and they point up. Where the matrix is diagonal, they are the axes.
pub proof fn law_eigenvectors_of_any_matrix(m: Matrix2<real>, r: real)
    requires
        roots_exist(),
        r >= 0real,
        r * r == (m.xx - m.yy) * (m.xx - m.yy) + 4real * (m.xy * m.yx),
    ensures
        ({
            let (p, d) = (eigenvectors(m), eigenvalues(m));
            &&& m.xy != 0real && m.yx != 0real ==> {
                &&& m.xx * p.xx + m.xy * p.yx == d.xx * p.xx
                &&& m.xx * p.xy + m.xy * p.yy == d.yy * p.xy
                &&& p.xx * p.xx + p.yx * p.yx == 1real
                &&& p.xy * p.xy + p.yy * p.yy == 1real
                &&& p.yx > 0real
                &&& p.yy > 0real
            }
            &&& m.xy == 0real && m.xx <= m.yy ==> p.xx == 1real && p.xy == 0real && p.yx == 0real
                && p.yy == 1real
            &&& m.xy == 0real && m.xx > m.yy ==> p.xx == 0real && p.xy == 1real && p.yx == 1real
                && p.yy == 0real
        }),
{
    let (a, b, f, c) = (m.xx, m.xy, m.yx, m.yy);
    law_eigenvalues_of_any_matrix(m, r);
    let (l, u) = (lower_eigenvalue(m), upper_eigenvalue(m));
    if b != 0real && f != 0real {
        lemma_commute(l, u);
        lemma_eigenvector(a, b, f, c, l, u);
        lemma_eigenvector(a, b, f, c, u, l);
    }
}

/// What is true of the eigenvector of length one for the eigenvalue `l`, where `u` is the other one.
proof fn lemma_eigenvector(a: real, b: real, f: real, c: real, l: real, u: real)
    requires
        roots_exist(),
        b != 0real,
        f != 0real,
        l + u == a + c,
        l * u == a * c - b * f,
    ensures
        ({
            let s = (-b) / (a - l);
            let n = slope_norm::<real>(s);
            let (x, y) = (s / n, 1real / n);
            a * x + b * y == l * x && x * x + y * y == 1real && y > 0real
        }),
{
    let s = (-b) / (a - l);
    assert((a - l) * (a - u) == -(b * f)) by {
        lemma_distribute(a, l, a - u);
        lemma_distribute(a, u, a);
        lemma_distribute(a, u, l);
        lemma_distribute(l, u, a);
        lemma_distribute(a, c, a);
        lemma_commute(l, a);
    }
    assert(b * f != 0real) by (nonlinear_arith)
        requires
            b != 0real,
            f != 0real,
    ;
    lemma_units(a - u);
    let d = a - l;
    assert(d != 0real);
    lemma_div_mul(-b, d);
    lemma_product_sign(s, s);
    assert(has_root(s * s + 1real));
    let n = slope_norm::<real>(s);
    assert(is_root(n, s * s + 1real));
    lemma_unit_vector(s, n);
    let y = 1real / n;
    assert(s / n == s * y && y > 0real) by (nonlinear_arith)
        requires
            n > 0real,
            y == 1real / n,
    ;
    lemma_distribute(s * s, 1real, y * y);
    lemma_units(y * y);
    let x = s / n;
    // (a - l) x == (s d) y == -b y
    lemma_associate(s, y, d);
    lemma_commute(y, d);
    lemma_associate(s, d, y);
    lemma_distribute(a, l, x);
    lemma_commute(x, d);
    lemma_negate_product(b, y);
    lemma_commute(x, a);
    lemma_commute(x, l);
}

/// `(-a) * b == -(a * b)`.
proof fn lemma_negate_product(a: real, b: real)
    by (nonlinear_arith)
    ensures
        (-a) * b == -(a * b),
{
}

/// `-1 * a == -a`.
proof fn lemma_negate_one(a: real)
    by (nonlinear_arith)
    ensures
        (-1real) * a == -a,
{
}

} // verus!
