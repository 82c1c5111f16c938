//! Matrices of exact fractions are computed exactly, as far as they are defined.
use vstd::prelude::*;

use crate::exact::Exact;
use crate::exact_laws::law_exact_root;
use crate::exact_relation::{
    all_stand_for, group_stand, lemma_defined_constants, lemma_stand_order, lemma_stand_total,
    stands_for,
};
use crate::matrix::{
    average, axis_eigenvalues, bandwidth, covariance, determinant, deviation_products, discriminant,
    eigenvalues, eigenvector_slope, eigenvectors, is_diagonal, lower_eigenvalue, matrix_product,
    slope_norm, transposed, upper_eigenvalue, Matrix2,
};
use crate::matrix_laws::{has_root, law_decomposition};
use crate::scalar::{is_root, one, zero, Arith};

verus! {

/// Whether the entries of `m` stand for those of `n`.
pub open spec fn matrix_stands_for(m: Matrix2<Exact>, n: Matrix2<real>) -> bool {
    &&& stands_for(m.xx, n.xx)
    &&& stands_for(m.xy, n.xy)
    &&& stands_for(m.yx, n.yx)
    &&& stands_for(m.yy, n.yy)
}

/// Whether all entries are defined.
pub open spec fn matrix_defined(m: Matrix2<Exact>) -> bool {
    m.xx.defined() && m.xy.defined() && m.yx.defined() && m.yy.defined()
}

/// The matrix of the values of the entries.
pub open spec fn matrix_values(m: Matrix2<Exact>) -> Matrix2<real> {
    Matrix2 { xx: m.xx.value(), xy: m.xy.value(), yx: m.yx.value(), yy: m.yy.value() }
}

/// The sum of products of deviations stands for that sum.
proof fn lemma_stand_deviations(
    x: Seq<Exact>,
    a: Seq<real>,
    y: Seq<Exact>,
    b: Seq<real>,
    mx: Exact,
    ma: real,
    my: Exact,
    mb: real,
)
    requires
        all_stand_for(x, a),
        all_stand_for(y, b),
        x.len() == y.len(),
        stands_for(mx, ma),
        stands_for(my, mb),
    ensures
        stands_for(deviation_products(x, y, mx, my), deviation_products(a, b, ma, mb)),
    decreases x.len(),
{
    broadcast use group_stand;

    if x.len() > 0 {
        let last = x.len() - 1;
        let (r, u) = (x.drop_last(), a.drop_last());
        let (s, v) = (y.drop_last(), b.drop_last());
        assert forall|i: int| 0 <= i < last implies #[trigger] stands_for(r[i], u[i]) by {
            assert(stands_for(x[i], a[i]));
        }
        assert forall|i: int| 0 <= i < last implies #[trigger] stands_for(s[i], v[i]) by {
            assert(stands_for(y[i], b[i]));
        }
        lemma_stand_deviations(r, u, s, v, mx, ma, my, mb);
        assert(stands_for(x[last], a[last]));
        assert(stands_for(y[last], b[last]));
    }
}

/// The covariance matrix stands for the covariance matrix.
pub proof fn lemma_stand_covariance(
    x: Seq<Exact>,
    a: Seq<real>,
    y: Seq<Exact>,
    b: Seq<real>,
    population: bool,
)
    requires
        all_stand_for(x, a),
        all_stand_for(y, b),
        x.len() == y.len(),
    ensures
        matrix_stands_for(covariance(x, y, population), covariance(a, b, population)),
{
    broadcast use group_stand;

    lemma_stand_total(x, a);
    lemma_stand_total(y, b);
    let (mx, ma, my, mb) = (average(x), average(a), average(y), average(b));
    assert(stands_for(mx, ma));
    assert(stands_for(my, mb));
    lemma_stand_deviations(x, a, x, a, mx, ma, mx, ma);
    lemma_stand_deviations(x, a, y, b, mx, ma, my, mb);
    lemma_stand_deviations(y, b, y, b, my, mb, my, mb);
}

/// The bandwidth matrix stands for the bandwidth matrix.
pub proof fn lemma_stand_bandwidth(
    x: Seq<Exact>,
    a: Seq<real>,
    y: Seq<Exact>,
    b: Seq<real>,
    f: Exact,
    r: real,
)
    requires
        all_stand_for(x, a),
        all_stand_for(y, b),
        x.len() == y.len(),
        stands_for(f, r),
    ensures
        matrix_stands_for(bandwidth(x, y, f), bandwidth(a, b, r)),
{
    broadcast use group_stand;

    lemma_stand_covariance(x, a, y, b, false);
    assert(stands_for(f.times(f), r.times(r)));
}

/// The eigenvalues of a matrix stand for the eigenvalues.
pub proof fn lemma_stand_eigenvalues(m: Matrix2<Exact>, n: Matrix2<real>)
    requires
        matrix_stands_for(m, n),
    ensures
        stands_for(discriminant(m), discriminant(n)),
        stands_for(lower_eigenvalue(m), lower_eigenvalue(n)),
        stands_for(upper_eigenvalue(m), upper_eigenvalue(n)),
        stands_for(axis_eigenvalues(m).0, axis_eigenvalues(n).0),
        stands_for(axis_eigenvalues(m).1, axis_eigenvalues(n).1),
{
    broadcast use group_stand;

    assert(stands_for(m.xx.plus(m.yy), n.xx.plus(n.yy)));
    assert(stands_for(determinant(m), determinant(n)));
    assert(stands_for(discriminant(m), discriminant(n)));
    if m.xx.defined() && m.yy.defined() {
        lemma_stand_order(m.yy, m.xx, n.yy, n.xx);
    }
}

/// The product of matrices stands for the product.
pub proof fn lemma_stand_product(
    a: Matrix2<Exact>,
    b: Matrix2<Exact>,
    c: Matrix2<real>,
    d: Matrix2<real>,
)
    requires
        matrix_stands_for(a, c),
        matrix_stands_for(b, d),
    ensures
        matrix_stands_for(matrix_product(a, b), matrix_product(c, d)),
        matrix_defined(matrix_product(a, b)) ==> matrix_defined(a) && matrix_defined(b),
{
    broadcast use group_stand;

}

/// A fraction whose root is defined stands for a number that has a root.
proof fn lemma_root_exists(a: Exact, x: real)
    requires
        stands_for(a, x),
        a.root().defined(),
    ensures
        has_root(x),
{
    law_exact_root(a);
    assert(is_root(a.root().value(), x));
}

/// A symmetric matrix of fractions is `P D P^T`, where `P` holds its eigenvectors, `D` its
/// eigenvalues and `P^T` is `P` transposed, if that product is defined.
pub proof fn law_exact_decomposition(m: Matrix2<Exact>)
    requires
        matrix_defined(m),
        m.xy == m.yx,
        matrix_defined(
            matrix_product(
                matrix_product(eigenvectors(m), eigenvalues(m)),
                transposed(eigenvectors(m)),
            ),
        ),
    ensures
        matrix_values(
            matrix_product(
                matrix_product(eigenvectors(m), eigenvalues(m)),
                transposed(eigenvectors(m)),
            ),
        ) == matrix_values(m),
{
    broadcast use group_stand;

    let n = matrix_values(m);
    let (p, d) = (eigenvectors(m), eigenvalues(m));
    let (q, e) = (eigenvectors(n), eigenvalues(n));
    lemma_stand_eigenvalues(m, n);
    lemma_defined_constants();
    lemma_stand_order(m.xy, zero(), n.xy, zero());
    lemma_stand_order(zero(), m.xy, zero(), n.xy);
    lemma_stand_order(m.xx, m.yy, n.xx, n.yy);
    let (s, t) = (
        eigenvector_slope(m, lower_eigenvalue(m)),
        eigenvector_slope(m, upper_eigenvalue(m)),
    );
    let (u, v) = (
        eigenvector_slope(n, lower_eigenvalue(n)),
        eigenvector_slope(n, upper_eigenvalue(n)),
    );
    assert(stands_for(s, u));
    assert(stands_for(t, v));
    assert(stands_for(s.times(s).plus(one()), u.times(u).plus(one())));
    assert(stands_for(t.times(t).plus(one()), v.times(v).plus(one())));
    assert(stands_for(slope_norm(s), slope_norm(u)));
    assert(stands_for(slope_norm(t), slope_norm(v)));
    assert(matrix_stands_for(p, q));
    assert(matrix_stands_for(d, e));
    lemma_stand_product(p, d, q, e);
    lemma_stand_product(
        matrix_product(p, d),
        transposed(p),
        matrix_product(q, e),
        transposed(q),
    );
    assert(d.xx.defined());
    lemma_root_exists(discriminant(m), discriminant(n));
    if !is_diagonal(m) {
        lemma_root_exists(s.times(s).plus(one()), u.times(u).plus(one()));
        lemma_root_exists(t.times(t).plus(one()), v.times(v).plus(one()));
    }
    law_decomposition(n);
}

} // verus!
