//! What calls on exact fractions return, as numbers.
use vstd::prelude::*;

use crate::binning::{binned, linear_binning, linear_binning_with_threads};
use crate::binning_2d::{
    binned_2d, frame, linear_binning_2d, linear_binning_2d_with_threads, rows_view,
};
use crate::eigen_laws::{law_determinant_solves_equations, law_product_applies_both};
use crate::exact::Exact;
use crate::exact_estimates::{law_exact_binning, lemma_stand_range, placed};
use crate::exact_estimates_2d::{law_exact_binning_2d, point_defined, row_values};
use crate::exact_matrices::{
    lemma_stand_bandwidth, lemma_stand_covariance, lemma_stand_product, matrix_defined,
    matrix_values,
};
use crate::exact_relation::{
    all_defined, lemma_stand_minus, lemma_stand_over, lemma_stand_times, lemma_stand_total,
    lemma_stand_values, lemma_stand_whole, values,
};
use crate::hat_2d_laws::{bilinear_share, law_binning_2d_shares_by_hats};
use crate::hat_laws::{law_binning_shares_by_hats, linear_share};
use crate::kde::{data_range, highest, lowest};
use crate::kde_laws::law_range;
use crate::matrix::{
    bandwidth_with_factor, covariance, covariance_2d, det, determinant, matrix_multiplication, mean,
    Matrix2,
};
use crate::moment_laws::{law_bandwidth, law_covariance, law_mean, sum_of, sum_of_products};
use crate::scalar::{total, Arith};
use crate::sums::{lemma_sum_same, sum_to};

verus! {

/// A mean that is defined, times the number of entries, is the sum of their values.
pub proof fn law_exact_mean_call(x: &[Exact], r: Exact)
    requires
        call_ensures(mean::<Exact>, (x,), r),
        r.defined(),
        1 <= x@.len() <= usize::MAX,
    ensures
        r.value() * x@.len() as real == sum_to(x@.len(), |i: int| x@[i].value()),
{
    let t = values(x@);
    lemma_stand_values(x@);
    lemma_stand_total(x@, t);
    lemma_stand_whole(x@.len() as usize);
    lemma_stand_over(
        total(x@),
        Exact::whole(x@.len() as usize),
        total(t),
        <real as Arith>::whole(x@.len() as usize),
    );
    law_mean(t);
    lemma_sum_same(x@.len(), |i: int| t[i], |i: int| x@[i].value());
}

/// A covariance matrix that is defined is the one of the values: `n d` times an entry is `n` times
/// the sum of the products less the product of the sums, where `d` is the number of points, less one
/// for a sample.
pub proof fn law_exact_covariance_call(
    x: &[Exact],
    y: &[Exact],
    population: bool,
    c: Matrix2<Exact>,
)
    requires
        call_ensures(covariance_2d::<Exact>, (x, y, population), c),
        matrix_defined(c),
        x@.len() == y@.len(),
        x@.len() >= 2 || (population && x@.len() >= 1),
        x@.len() <= usize::MAX,
    ensures
        ({
            let (a, b) = (values(x@), values(y@));
            let n = x@.len() as real;
            let d = if population {
                n
            } else {
                n - 1real
            };
            &&& n * d * c.xx.value() == n * sum_of_products(a, a) - sum_of(a) * sum_of(a)
            &&& n * d * c.xy.value() == n * sum_of_products(a, b) - sum_of(a) * sum_of(b)
            &&& n * d * c.yx.value() == n * sum_of_products(a, b) - sum_of(a) * sum_of(b)
            &&& n * d * c.yy.value() == n * sum_of_products(b, b) - sum_of(b) * sum_of(b)
        }),
{
    lemma_stand_values(x@);
    lemma_stand_values(y@);
    lemma_stand_covariance(x@, values(x@), y@, values(y@), population);
    law_covariance(values(x@), values(y@), population);
}

/// A bandwidth matrix that is defined is the covariance matrix of a sample, times the square of the
/// factor.
pub proof fn law_exact_bandwidth_call(x: &[Exact], y: &[Exact], f: Exact, h: Matrix2<Exact>)
    requires
        call_ensures(bandwidth_with_factor::<Exact>, (x, y, f), h),
        matrix_defined(h),
        f.defined(),
        x@.len() == y@.len(),
        2 <= x@.len() <= usize::MAX,
    ensures
        ({
            let (a, b, g) = (values(x@), values(y@), f.value() * f.value());
            let n = x@.len() as real;
            let m = n * (n - 1real);
            &&& m * h.xx.value() == (n * sum_of_products(a, a) - sum_of(a) * sum_of(a)) * g
            &&& m * h.xy.value() == (n * sum_of_products(a, b) - sum_of(a) * sum_of(b)) * g
            &&& m * h.yx.value() == (n * sum_of_products(a, b) - sum_of(a) * sum_of(b)) * g
            &&& m * h.yy.value() == (n * sum_of_products(b, b) - sum_of(b) * sum_of(b)) * g
        }),
{
    lemma_stand_values(x@);
    lemma_stand_values(y@);
    lemma_stand_bandwidth(x@, values(x@), y@, values(y@), f, f.value());
    law_bandwidth(values(x@), values(y@), f.value());
}

/// A determinant that is defined solves linear equations by the rule of Cramer.
pub proof fn law_exact_det_call(a: &Matrix2<Exact>, r: Exact, v: real, w: real)
    requires
        call_ensures(det::<Exact>, (a,), r),
        r.defined(),
    ensures
        ({
            let m = matrix_values(*a);
            let (x, y) = (m.xx * v + m.xy * w, m.yx * v + m.yy * w);
            &&& r.value() * v == m.yy * x - m.xy * y
            &&& r.value() * w == m.xx * y - m.yx * x
        }),
{
    let m = matrix_values(*a);
    lemma_stand_times(a.xx, a.yy, m.xx, m.yy);
    lemma_stand_times(a.xy, a.yx, m.xy, m.yx);
    lemma_stand_minus(a.xx.times(a.yy), a.xy.times(a.yx), m.xx * m.yy, m.xy * m.yx);
    law_determinant_solves_equations(m, v, w);
}

/// A product of matrices that is defined makes of a vector what the second one and then the first
/// one make of it.
pub proof fn law_exact_product_call(
    a: &Matrix2<Exact>,
    b: &Matrix2<Exact>,
    r: Matrix2<Exact>,
    v: real,
    w: real,
)
    requires
        call_ensures(matrix_multiplication::<Exact>, (a, b), r),
        matrix_defined(r),
    ensures
        ({
            let (m, n, p) = (matrix_values(*a), matrix_values(*b), matrix_values(r));
            let (x, y) = (n.xx * v + n.xy * w, n.yx * v + n.yy * w);
            &&& p.xx * v + p.xy * w == m.xx * x + m.xy * y
            &&& p.yx * v + p.yy * w == m.yx * x + m.yy * y
        }),
{
    let (m, n) = (matrix_values(*a), matrix_values(*b));
    lemma_stand_product(*a, *b, m, n);
    law_product_applies_both(m, n, v, w);
}

/// The range of defined data: both ends are the values of entries, and all entries lie between them.
pub proof fn law_exact_range_call(data: &[Exact], r: (Exact, Exact))
    requires
        call_ensures(data_range::<Exact>, (data,), r),
        data@.len() >= 1,
        all_defined(data@),
    ensures
        r.0.defined(),
        r.1.defined(),
        exists|i: int| 0 <= i < data@.len() && #[trigger] data@[i].value() == r.0.value(),
        exists|i: int| 0 <= i < data@.len() && #[trigger] data@[i].value() == r.1.value(),
        forall|i: int|
            0 <= i < data@.len() ==> r.0.value() <= #[trigger] data@[i].value() <= r.1.value(),
{
    let t = values(data@);
    lemma_stand_values(data@);
    lemma_stand_range(data@, t);
    law_range(t);
    let i = choose|i: int| 0 <= i < t.len() && t[i] == lowest(t);
    let j = choose|j: int| 0 <= j < t.len() && t[j] == highest(t);
    assert(data@[i].value() == r.0.value());
    assert(data@[j].value() == r.1.value());
    assert forall|k: int| 0 <= k < data@.len() implies r.0.value() <= #[trigger] data@[k].value()
        <= r.1.value() by {
        assert(t[k] == data@[k].value());
    }
}

/// A histogram that is defined holds what the points add to the bins by hats.
pub proof fn law_exact_binning_call(
    data: &[Exact],
    xmin: Exact,
    xmax: Exact,
    bins: usize,
    h: Vec<Exact>,
)
    requires
        call_ensures(linear_binning::<Exact>, (data, xmin, xmax, bins), h) || exists|threads: usize|
            threads >= 1 && #[trigger] call_ensures(
                linear_binning_with_threads::<Exact>,
                (data, xmin, xmax, bins, threads),
                h,
            ),
        bins >= 1,
        xmin.defined(),
        xmax.defined(),
        xmax.minus(xmin).over(Exact::whole(bins)).defined(),
        forall|j: int|
            0 <= j < data@.len() ==> (#[trigger] data@[j]).defined() && data@[j].minus(
                xmax,
            ).defined(),
        forall|i: int| 0 <= i < h@.len() ==> (#[trigger] h@[i]).defined(),
    ensures
        ({
            let (lo, hi) = (xmin.value(), xmax.value());
            let width = (hi - lo) / bins as real;
            &&& h@.len() == bins
            &&& forall|i: int|
                0 <= i < bins ==> #[trigger] h@[i].value() == if -1real / 1000000000real < width
                    < 1real / 1000000000real {
                    0real
                } else {
                    sum_to(
                        data@.len(),
                        |j: int| linear_share(values(data@)[j], lo, hi, bins as int, i),
                    )
                }
        }),
{
    let threads = choose|threads: usize|
        threads >= 1 && h@ == #[trigger] binned(data@, xmin, xmax, bins, threads);
    assert forall|j: int| 0 <= j < data@.len() implies placed(#[trigger] data@[j], xmin, xmax) by {
    }
    law_exact_binning(data@, xmin, xmax, bins, threads);
    law_binning_shares_by_hats(values(data@), xmin.value(), xmax.value(), bins, threads);
    let g = binned(values(data@), xmin.value(), xmax.value(), bins, threads);
    assert forall|i: int| 0 <= i < bins implies #[trigger] h@[i].value() == g[i] by {
        assert(values(h@)[i] == h@[i].value());
    }
}

/// A histogram of cells that is defined holds what the points add to the cells by products of hats.
pub proof fn law_exact_binning_2d_call(
    x: &[Exact],
    y: &[Exact],
    xmin: Exact,
    xmax: Exact,
    ymin: Exact,
    ymax: Exact,
    xbins: usize,
    ybins: usize,
    h: Vec<Vec<Exact>>,
)
    requires
        call_ensures(
            linear_binning_2d::<Exact>,
            (x, y, xmin, xmax, ymin, ymax, xbins, ybins),
            h,
        ) || exists|threads: usize|
            threads >= 1 && #[trigger] call_ensures(
                linear_binning_2d_with_threads::<Exact>,
                (x, y, xmin, xmax, ymin, ymax, xbins, ybins, threads),
                h,
            ),
        xbins >= 1,
        ybins >= 1,
        x@.len() == y@.len(),
        xmin.defined(),
        xmax.defined(),
        ymin.defined(),
        ymax.defined(),
        xmax.minus(xmin).over(Exact::whole(xbins)).defined(),
        ymax.minus(ymin).over(Exact::whole(ybins)).defined(),
        forall|n: int|
            0 <= n < x@.len() ==> (#[trigger] x@[n]).defined() && x@[n].minus(xmax).defined(),
        forall|n: int|
            0 <= n < y@.len() ==> (#[trigger] y@[n]).defined() && y@[n].minus(ymax).defined(),
        forall|i: int, j: int|
            0 <= i < h@.len() && 0 <= j < h@[i]@.len() ==> (#[trigger] h@[i]@[j]).defined(),
    ensures
        ({
            let (xlo, xhi) = (xmin.value(), xmax.value());
            let (ylo, yhi) = (ymin.value(), ymax.value());
            let (dx, dy) = ((xhi - xlo) / xbins as real, (yhi - ylo) / ybins as real);
            let tiny = 1real / 1000000000real;
            &&& h@.len() == xbins
            &&& forall|i: int| 0 <= i < xbins ==> (#[trigger] h@[i])@.len() == ybins
            &&& forall|i: int, j: int|
                0 <= i < xbins && 0 <= j < ybins ==> #[trigger] h@[i]@[j].value() == if -tiny < dx
                    < tiny || -tiny < dy < tiny {
                    0real
                } else {
                    sum_to(
                        x@.len(),
                        |n: int|
                            bilinear_share(
                                values(x@)[n],
                                values(y@)[n],
                                xlo,
                                xhi,
                                ylo,
                                yhi,
                                xbins as int,
                                ybins as int,
                                i,
                                j,
                            ),
                    )
                }
        }),
{
    let f = frame(xmin, xmax, ymin, ymax, xbins, ybins);
    let threads = choose|threads: usize|
        threads >= 1 && rows_view(h@) == #[trigger] binned_2d(x@, y@, f, xbins, ybins, threads);
    let rows = rows_view(h@);
    assert forall|i: int| 0 <= i < rows.len() implies all_defined(#[trigger] rows[i]) by {
        assert forall|j: int| 0 <= j < rows[i].len() implies (#[trigger] rows[i][j]).defined() by {
            assert(rows[i][j] == h@[i]@[j]);
        }
    }
    assert forall|n: int| 0 <= n < x@.len() implies #[trigger] point_defined(
        x@[n],
        y@[n],
        xmax,
        ymax,
    ) by {}
    law_exact_binning_2d(x@, y@, xmin, xmax, ymin, ymax, xbins, ybins, threads);
    let (xlo, xhi, ylo, yhi) = (xmin.value(), xmax.value(), ymin.value(), ymax.value());
    law_binning_2d_shares_by_hats(
        values(x@),
        values(y@),
        xlo,
        xhi,
        ylo,
        yhi,
        xbins,
        ybins,
        threads,
    );
    let g = binned_2d(
        values(x@),
        values(y@),
        frame(xlo, xhi, ylo, yhi, xbins, ybins),
        xbins,
        ybins,
        threads,
    );
    assert(g == row_values(rows));
    assert forall|i: int| 0 <= i < xbins implies (#[trigger] h@[i])@.len() == ybins by {
        assert(g[i].len() == ybins);
        assert(rows[i] == h@[i]@);
    }
    assert forall|i: int, j: int| 0 <= i < xbins && 0 <= j < ybins implies #[trigger] h@[i]@[j].value()
        == g[i][j] by {
        assert(row_values(rows)[i] == values(rows[i]));
        assert(values(rows[i])[j] == rows[i][j].value());
    }
}

} // verus!
