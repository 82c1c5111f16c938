//! How covariances change with the data, in exact arithmetic.
use vstd::prelude::*;

use crate::matrix::{
    average, axis_eigenvalues, bandwidth, covariance, deviation_products, discriminant, Matrix2,
};
use crate::matrix_laws::{law_uncorrelated_axes, symmetric};
use crate::reals::{lemma_cancel, lemma_commute, lemma_distribute, lemma_div_mul, lemma_units};
use crate::scalar::{total, Arith};

verus! {

/// The sequence with `c` added to every entry.
pub open spec fn shifted<T: Arith>(s: Seq<T>, c: T) -> Seq<T> {
    Seq::new(s.len(), |i: int| s[i].plus(c))
}

/// The matrix with the axes exchanged.
pub open spec fn axes_exchanged<T>(m: Matrix2<T>) -> Matrix2<T> {
    Matrix2 { xx: m.yy, xy: m.yx, yx: m.xy, yy: m.xx }
}

/// The covariances of a population and of a sample differ by the divisor only.
pub proof fn law_population_and_sample(x: Seq<real>, y: Seq<real>)
    requires
        x.len() == y.len(),
        2 <= x.len() <= usize::MAX,
    ensures
        ({
            let (p, s, n) = (covariance(x, y, true), covariance(x, y, false), x.len() as real);
            &&& p.xx * n == s.xx * (n - 1real)
            &&& p.xy * n == s.xy * (n - 1real)
            &&& p.yx * n == s.yx * (n - 1real)
            &&& p.yy * n == s.yy * (n - 1real)
        }),
{
    let n = x.len() as real;
    let (mx, my) = (average(x), average(y));
    let a = deviation_products(x, x, mx, mx);
    let b = deviation_products(x, y, mx, my);
    let c = deviation_products(y, y, my, my);
    lemma_div_mul(a, n);
    lemma_div_mul(a, n - 1real);
    lemma_div_mul(b, n);
    lemma_div_mul(b, n - 1real);
    lemma_div_mul(c, n);
    lemma_div_mul(c, n - 1real);
}

/// The products of deviations do not depend on the order of the axes.
proof fn lemma_exchanged_deviations(x: Seq<real>, y: Seq<real>, mx: real, my: real)
    requires
        x.len() == y.len(),
    ensures
        deviation_products(y, x, my, mx) == deviation_products(x, y, mx, my),
    decreases x.len(),
{
    if x.len() > 0 {
        lemma_exchanged_deviations(x.drop_last(), y.drop_last(), mx, my);
        lemma_commute(x.last() - mx, y.last() - my);
    }
}

/// Exchanging the axes exchanges the entries of the covariance matrix.
pub proof fn law_covariance_of_exchanged_axes(x: Seq<real>, y: Seq<real>, population: bool)
    requires
        x.len() == y.len(),
    ensures
        covariance(y, x, population) == axes_exchanged(covariance(x, y, population)),
{
    lemma_exchanged_deviations(x, y, average(x), average(y));
}

/// The sum of a shifted sequence.
proof fn lemma_shifted_total(s: Seq<real>, c: real)
    ensures
        total(shifted(s, c)) == total(s) + (s.len() as real) * c,
    decreases s.len(),
{
    if s.len() == 0 {
        lemma_units(c);
    } else {
        let r = s.drop_last();
        lemma_shifted_total(r, c);
        assert(shifted(s, c).drop_last() =~= shifted(r, c));
        lemma_distribute(r.len() as real, 1real, c);
        lemma_units(c);
    }
}

/// The mean shifts with the data.
pub proof fn law_mean_shifts(s: Seq<real>, c: real)
    requires
        1 <= s.len() <= usize::MAX,
    ensures
        average(shifted(s, c)) == average(s) + c,
{
    let n = s.len() as real;
    let t = shifted(s, c);
    lemma_shifted_total(s, c);
    lemma_div_mul(total(s), n);
    lemma_div_mul(total(t), n);
    lemma_distribute(average(s), c, n);
    lemma_commute(n, c);
    lemma_cancel(average(t), average(s) + c, n);
}

/// Deviations from a shifted mean are those of the data.
proof fn lemma_shifted_deviations(
    x: Seq<real>,
    y: Seq<real>,
    mx: real,
    my: real,
    c: real,
    d: real,
)
    requires
        x.len() == y.len(),
    ensures
        deviation_products(shifted(x, c), shifted(y, d), mx + c, my + d) == deviation_products(
            x,
            y,
            mx,
            my,
        ),
    decreases x.len(),
{
    if x.len() > 0 {
        let (r, s) = (x.drop_last(), y.drop_last());
        lemma_shifted_deviations(r, s, mx, my, c, d);
        assert(shifted(x, c).drop_last() =~= shifted(r, c));
        assert(shifted(y, d).drop_last() =~= shifted(s, d));
        assert(x.last() + c - (mx + c) == x.last() - mx);
        assert(y.last() + d - (my + d) == y.last() - my);
    }
}

/// Shifting the data leaves the covariance matrix as it is.
pub proof fn law_covariance_of_shifted_data(
    x: Seq<real>,
    y: Seq<real>,
    c: real,
    d: real,
    population: bool,
)
    requires
        x.len() == y.len(),
        1 <= x.len() <= usize::MAX,
    ensures
        covariance(shifted(x, c), shifted(y, d), population) == covariance(x, y, population),
{
    law_mean_shifts(x, c);
    law_mean_shifts(y, d);
    let (mx, my) = (average(x), average(y));
    lemma_shifted_deviations(x, x, mx, mx, c, c);
    lemma_shifted_deviations(x, y, mx, my, c, d);
    lemma_shifted_deviations(y, y, my, my, d, d);
}

/// For uncorrelated data each axis has its own bandwidth: the variance along the axis times the
/// square of the factor.
pub proof fn law_bandwidths_of_uncorrelated_data(x: Seq<real>, y: Seq<real>, f: real)
    requires
        covariance(x, y, false).xy == 0real,
    ensures
        axis_eigenvalues(bandwidth(x, y, f)) == (
            covariance(x, y, false).xx * (f * f),
            covariance(x, y, false).yy * (f * f),
        ),
{
    lemma_units(f * f);
    law_uncorrelated_axes(bandwidth(x, y, f));
}

/// Exchanging the axes exchanges their eigenvalues, unless the matrix is equally large along both
/// and has entries off the diagonal.
pub proof fn law_eigenvalues_of_exchanged_axes(m: Matrix2<real>)
    requires
        symmetric(m),
        m.xx != m.yy || m.xy == 0real,
    ensures
        axis_eigenvalues(axes_exchanged(m)) == (axis_eigenvalues(m).1, axis_eigenvalues(m).0),
{
    let n = axes_exchanged(m);
    lemma_commute(m.xx, m.yy);
    assert(discriminant(n) == discriminant(m));
    if m.xy == 0real {
        law_uncorrelated_axes(m);
        law_uncorrelated_axes(n);
    }
}

} // verus!
