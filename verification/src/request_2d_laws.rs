//! What an estimate of a two-dimensional density is made of, from the request to the result.
use vstd::prelude::*;

use crate::axis_kernel_laws::{decaying, law_second_order_smoothing};
use crate::binning_2d::frame;
use crate::eigen_laws::{law_variances_of_axes, roots_exist};
use crate::error::KdeError;
use crate::hat_2d_laws::{bilinear_share, law_binning_2d_shares_by_hats};
use crate::hat_laws::{law_negligible, one_if_equal};
use crate::kde::centres;
use crate::kde_2d::{
    column, finished_2d, grand_total, padded_range, prepared_2d, request_error_2d, rows_over,
    running_total, smoothed_frame, smoothed_rows, BinnedFrame,
};
use crate::kde_2d_laws::{law_normalized_2d_integrates_to_one, law_padding, lemma_bandwidth_in_bins};
use crate::kernel_laws::{computes, gap, is_exponential};
use crate::matrix::{axis_eigenvalues, bandwidth};
use crate::matrix_laws::{has_root, law_bandwidth_is_positive};
use crate::moment_laws::{law_bandwidth, sum_of, sum_of_products};
use crate::reals::{
    lemma_associate, lemma_cancel, lemma_commute, lemma_distribute, lemma_div_mul, lemma_pair_up,
    lemma_product_sign, lemma_tiny, lemma_units,
};
use crate::request_laws::{is_range, law_range_is_found, lemma_bandwidth_units};
use crate::scalar::{is_root, negligible, Arith};
use crate::second_order::{are_exponentials, second_order_smoothed};
use crate::sums::{
    lemma_same_pairs, lemma_sum_same, lemma_sum_single, lemma_sum_times, pair_sum, sum_to,
};

verus! {

/// What is refused before the points are looked at, and why: fewer than three points, and no bins, in
/// this order, and nothing else.
pub proof fn law_request_2d<T>(x: Seq<T>, y: Seq<T>, bins: usize)
    ensures
        ({
            let e = request_error_2d(x, y, bins);
            let few = x.len() < 3 || y.len() < 3;
            &&& few <==> e == Some(KdeError::<T>::TooFewPoints)
            &&& !few && bins == 0 <==> e == Some(KdeError::<T>::NoCells)
            &&& !few && bins > 0 <==> e is None
        }),
{
}

/// `n` times the sum of the products, less the product of the sums.
pub open spec fn central(x: Seq<real>, y: Seq<real>) -> real {
    x.len() as real * sum_of_products(x, y) - sum_of(x) * sum_of(y)
}

/// Whether `sx` and `sy` are the bandwidths along the two axes for the factor `f`: they are not
/// negative, their squares are the eigenvalues of the covariance matrix of the sample times the
/// square of the factor, and the larger one belongs to the axis along which the points vary more.
pub open spec fn are_bandwidths(x: Seq<real>, y: Seq<real>, f: real, sx: real, sy: real) -> bool {
    let m = x.len() as real * (x.len() as real - 1real);
    let g = f * f;
    let (a, b) = (m * (sx * sx), m * (sy * sy));
    &&& sx >= 0real
    &&& sy >= 0real
    &&& a + b == central(x, x) * g + central(y, y) * g
    &&& a * b == (central(x, x) * g) * (central(y, y) * g) - (central(x, y) * g) * (central(x, y)
        * g)
    &&& central(x, x) <= central(y, y) ==> sx <= sy
    &&& central(y, y) < central(x, x) && f != 0real ==> sy <= sx
}

/// Numbers that are not negative are in order as their squares are.
proof fn lemma_square_order(a: real, b: real)
    by (nonlinear_arith)
    requires
        a >= 0real,
        b >= 0real,
        a * a <= b * b,
    ensures
        a <= b,
{
}

/// A positive factor keeps the order.
proof fn lemma_factor_order(a: real, b: real, k: real)
    by (nonlinear_arith)
    requires
        k > 0real,
    ensures
        k * a <= k * b <==> a <= b,
        k * a < k * b <==> a < b,
{
}

/// The square of a number other than zero is positive.
proof fn lemma_square_sign(f: real)
    by (nonlinear_arith)
    ensures
        f * f >= 0real,
        f != 0real ==> f * f > 0real,
        f == 0real ==> f * f == 0real,
{
}

/// The roots of the eigenvalues are the bandwidths.
proof fn lemma_bandwidths(x: Seq<real>, y: Seq<real>, f: real)
    requires
        roots_exist(),
        x.len() == y.len(),
        2 <= x.len() <= usize::MAX,
    ensures
        ({
            let h = bandwidth(x, y, f);
            are_bandwidths(x, y, f, axis_eigenvalues(h).0.root(), axis_eigenvalues(h).1.root())
        }),
{
    let h = bandwidth(x, y, f);
    let n = x.len() as real;
    let m = n * (n - 1real);
    let g = f * f;
    lemma_product_sign(n, n - 1real);
    law_bandwidth(x, y, f);
    law_bandwidth_is_positive(x, y, f);
    lemma_product_sign(h.xx - h.yy, h.xx - h.yy);
    lemma_product_sign(h.xy, h.xy);
    let d = (h.xx - h.yy) * (h.xx - h.yy) + 4real * (h.xy * h.xy);
    assert(has_root(d));
    let r = choose|r: real| is_root(r, d);
    law_variances_of_axes(h, r);
    let (a, b) = axis_eigenvalues(h);
    assert(a >= 0real && b >= 0real) by (nonlinear_arith)
        requires
            a * b >= 0real,
            a + b >= 0real,
    ;
    assert(has_root(a) && has_root(b));
    let (sx, sy) = (a.root(), b.root());
    assert(is_root(sx, a));
    assert(is_root(sy, b));
    lemma_distribute(a, b, m);
    lemma_distribute(h.xx, h.yy, m);
    lemma_pair_up(m, a, m, b);
    lemma_pair_up(m, h.xx, m, h.yy);
    lemma_pair_up(m, h.xy, m, h.xy);
    lemma_distribute(h.xx * h.yy, h.xy * h.xy, m * m);
    lemma_square_sign(f);
    let (cx, cy) = (central(x, x), central(y, y));
    if g > 0real {
        lemma_factor_order(cx, cy, g);
        lemma_factor_order(cy, cx, g);
        lemma_commute(cx, g);
        lemma_commute(cy, g);
        lemma_factor_order(h.xx, h.yy, m);
        lemma_factor_order(h.yy, h.xx, m);
    } else {
        lemma_units(cx);
        lemma_units(cy);
        lemma_units(m);
        lemma_factor_order(h.xx, h.yy, m);
    }
    if a <= b {
        lemma_square_order(sx, sy);
    }
    if b <= a {
        lemma_square_order(sy, sx);
    }
}

/// Whether the histogram `h` holds the points over the frame, shared by hats.
pub open spec fn holds_points(
    h: Seq<Seq<real>>,
    x: Seq<real>,
    y: Seq<real>,
    xmin: real,
    xmax: real,
    ymin: real,
    ymax: real,
    bins: usize,
) -> bool {
    let tiny = 1real / 1000000000real;
    let (dx, dy) = ((xmax - xmin) / bins as real, (ymax - ymin) / bins as real);
    &&& h.len() == bins
    &&& forall|i: int| 0 <= i < bins ==> #[trigger] h[i].len() == bins
    &&& forall|i: int, j: int|
        0 <= i < bins && 0 <= j < bins ==> #[trigger] h[i][j] == if -tiny < dx < tiny || -tiny < dy
            < tiny {
            0real
        } else {
            sum_to(
                x.len(),
                |n: int|
                    bilinear_share(
                        x[n],
                        y[n],
                        xmin,
                        xmax,
                        ymin,
                        ymax,
                        bins as int,
                        bins as int,
                        i,
                        j,
                    ),
            )
        }
}

/// Whether `b` is the histogram of the points, whose coordinates span `[xlo, xhi]` and `[ylo, yhi]`,
/// over the frame that reaches half of the bandwidths `sx` and `sy` beyond them, with the bandwidths
/// counted in cells.
pub open spec fn is_padded_histogram(
    b: BinnedFrame<real>,
    x: Seq<real>,
    y: Seq<real>,
    bins: usize,
    xlo: real,
    xhi: real,
    ylo: real,
    yhi: real,
    sx: real,
    sy: real,
) -> bool {
    let n = bins as real;
    &&& b.sigma_x >= 0real
    &&& b.sigma_y >= 0real
    &&& b.xmin == xlo - sx / 2real
    &&& b.ymin == ylo - sy / 2real
    &&& b.dx * n == xhi - xlo + sx
    &&& b.dy * n == yhi - ylo + sy
    &&& xhi - xlo + sx > 0real ==> b.sigma_x * b.dx == sx
    &&& yhi - ylo + sy > 0real ==> b.sigma_y * b.dy == sy
    &&& holds_points(
        b.hist,
        x,
        y,
        xlo - sx / 2real,
        xhi + sx / 2real,
        ylo - sy / 2real,
        yhi + sy / 2real,
        bins,
    )
}

/// How far an estimate comes before it is smoothed: the bandwidths come of the covariance matrix, the
/// frame reaches half of them beyond the points on each side, and the points are shared between the
/// cells by hats. The bandwidth that a filter gets, counted in cells, times the width of a cell is
/// the bandwidth along its axis.
pub proof fn law_preparation_2d(
    x: Seq<real>,
    y: Seq<real>,
    bins: usize,
    f: real,
    threads: usize,
    xlo: real,
    xhi: real,
    ylo: real,
    yhi: real,
)
    requires
        roots_exist(),
        threads >= 1,
        bins >= 1,
        x.len() == y.len(),
        2 <= x.len() <= usize::MAX,
        is_range(x, xlo, xhi),
        is_range(y, ylo, yhi),
    ensures
        match prepared_2d(x, y, bins, f, threads) {
            Ok(b) => exists|sx: real, sy: real| #[trigger]
                are_bandwidths(x, y, f, sx, sy) && is_padded_histogram(
                    b,
                    x,
                    y,
                    bins,
                    xlo,
                    xhi,
                    ylo,
                    yhi,
                    sx,
                    sy,
                ),
            Err(_) => false,
        },
{
    let h = bandwidth(x, y, f);
    let (sx, sy) = (axis_eigenvalues(h).0.root(), axis_eigenvalues(h).1.root());
    lemma_bandwidths(x, y, f);
    law_range_is_found(x, xlo, xhi);
    law_range_is_found(y, ylo, yhi);
    law_padding(x, sx);
    law_padding(y, sy);
    let (xmin, xmax) = padded_range(x, sx);
    let (ymin, ymax) = padded_range(y, sy);
    assert((1real / 2real) * sx == sx / 2real && (1real / 2real) * sy == sy / 2real)
        by (nonlinear_arith);
    assert(xmin == xlo - sx / 2real && xmax == xhi + sx / 2real);
    assert(ymin == ylo - sy / 2real && ymax == yhi + sy / 2real);
    lemma_div_mul(xmax - xmin, bins as real);
    lemma_div_mul(ymax - ymin, bins as real);
    law_binning_2d_shares_by_hats(x, y, xmin, xmax, ymin, ymax, bins, bins, threads);
    let (at, to) = (
        choose|i: int| 0 <= i < x.len() && x[i] == xlo,
        choose|i: int| 0 <= i < y.len() && y[i] == ylo,
    );
    assert(xlo <= x[at] <= xhi && ylo <= y[to] <= yhi);
    lemma_bandwidth_in_bins(sx, xmax - xmin, bins);
    lemma_bandwidth_in_bins(sy, ymax - ymin, bins);
    if xmax > xmin {
        lemma_bandwidth_units(sx, xmax - xmin, bins);
    }
    if ymax > ymin {
        lemma_bandwidth_units(sy, ymax - ymin, bins);
    }
    match prepared_2d(x, y, bins, f, threads) {
        Ok(b) => {
            assert(holds_points(b.hist, x, y, xmin, xmax, ymin, ymax, bins));
            assert(is_padded_histogram(b, x, y, bins, xlo, xhi, ylo, yhi, sx, sy));
        },
        Err(_) => {},
    }
}

/// How much the sample `k` adds to the sample `i` when a signal is smoothed with the deviation
/// `sigma`: nothing but itself where the deviation counts as zero, and else the exponential kernel.
pub open spec fn axis_weight(e: spec_fn(real) -> real, sigma: real, i: int, k: int) -> real {
    if -1real / 1000000000real < sigma < 1real / 1000000000real {
        one_if_equal(i as real, k as real)
    } else {
        let alpha = 1695real / 1000real / sigma;
        let a = e(-alpha);
        ((1real - a) * (1real - a) / (1real + 2real * alpha * a - a * a)) * decaying(
            e,
            alpha,
            gap(i, k),
        )
    }
}

/// Whether the kernel for the deviation `sigma` has a factor, if there is one.
pub open spec fn has_kernel(e: spec_fn(real) -> real, sigma: real) -> bool {
    let alpha = 1695real / 1000real / sigma;
    let a = e(-alpha);
    -1real / 1000000000real < sigma < 1real / 1000000000real || 1real + 2real * alpha * a - a * a
        != 0real
}

/// Smoothing to the second order, as a sum over the samples.
pub proof fn law_axis_smoothing<E: Fn(real) -> real>(
    x: Seq<real>,
    sigma: real,
    ea: real,
    e2a: real,
    exp: E,
    e: spec_fn(real) -> real,
    i: int,
)
    requires
        computes(exp, e),
        is_exponential(e),
        are_exponentials(ea, e2a, sigma, exp),
        has_kernel(e, sigma),
        0 <= i < x.len(),
    ensures
        second_order_smoothed(x, sigma, ea, e2a).len() == x.len(),
        second_order_smoothed(x, sigma, ea, e2a)[i] == sum_to(
            x.len(),
            |k: int| axis_weight(e, sigma, i, k) * x[k],
        ),
{
    let w = |k: int| axis_weight(e, sigma, i, k) * x[k];
    law_negligible(sigma);
    if negligible(sigma) {
        assert forall|k: int| 0 <= k < x.len() && k != i implies #[trigger] w(k) == 0real by {
            lemma_units(x[k]);
        }
        lemma_sum_single(x.len(), w, i);
        lemma_units(x[i]);
    } else {
        law_second_order_smoothing(x, sigma, ea, e2a, exp, e, i);
        let alpha = 1695real / 1000real / sigma;
        let a = e(-alpha);
        let (r, d) = ((1real - a) * (1real - a), 1real + 2real * alpha * a - a * a);
        let v = |k: int| decaying(e, alpha, gap(i, k)) * x[k];
        let q = r / d;
        assert forall|k: int| 0 <= k < x.len() implies #[trigger] w(k) == q * v(k) by {
            lemma_associate(q, decaying(e, alpha, gap(i, k)), x[k]);
        }
        lemma_sum_times(x.len(), v, q, w);
        let sum = sum_to(x.len(), v);
        lemma_div_mul(r, d);
        lemma_commute(q, sum);
        lemma_associate(sum, q, d);
        lemma_commute(sum, r);
        lemma_cancel(second_order_smoothed(x, sigma, ea, e2a)[i], q * sum, d);
    }
}

/// What smoothing along both axes puts into the cell `(i, j)`.
pub open spec fn smoothed_cell(
    h: Seq<Seq<real>>,
    e: spec_fn(real) -> real,
    sigma_x: real,
    sigma_y: real,
    i: int,
    j: int,
) -> real {
    pair_sum(
        h.len(),
        h.len(),
        |k: int, l: int|
            axis_weight(e, sigma_x, i, k) * (axis_weight(e, sigma_y, j, l) * h[k][l]),
    )
}

/// Smoothing along both axes: each cell gets the sum over all cells of the product of the weights
/// along the two axes.
pub proof fn law_smoothing_along_both_axes<E: Fn(real) -> real>(
    b: BinnedFrame<real>,
    ex: (real, real),
    ey: (real, real),
    exp: E,
    e: spec_fn(real) -> real,
    i: int,
    j: int,
)
    requires
        computes(exp, e),
        is_exponential(e),
        are_exponentials(ex.0, ex.1, b.sigma_x, exp),
        are_exponentials(ey.0, ey.1, b.sigma_y, exp),
        has_kernel(e, b.sigma_x),
        has_kernel(e, b.sigma_y),
        forall|k: int| 0 <= k < b.hist.len() ==> #[trigger] b.hist[k].len() == b.hist.len(),
        0 <= i < b.hist.len(),
        0 <= j < b.hist.len(),
    ensures
        smoothed_frame(b, ex, ey)[i][j] == smoothed_cell(
            b.hist,
            e,
            b.sigma_x,
            b.sigma_y,
            i,
            j,
        ),
{
    let n = b.hist.len();
    let rows = smoothed_rows(b.hist, b.sigma_y, ey);
    let c = column(rows, j);
    law_axis_smoothing(c, b.sigma_x, ex.0, ex.1, exp, e, i);
    let f = |k: int| axis_weight(e, b.sigma_x, i, k) * c[k];
    let t = |k: int, l: int|
        axis_weight(e, b.sigma_x, i, k) * (axis_weight(e, b.sigma_y, j, l) * b.hist[k][l]);
    let g = |k: int| sum_to(n, |l: int| t(k, l));
    assert forall|k: int| 0 <= k < n implies #[trigger] f(k) == g(k) by {
        let row = b.hist[k];
        assert(row.len() == n);
        law_axis_smoothing(row, b.sigma_y, ey.0, ey.1, exp, e, j);
        assert(c[k] == second_order_smoothed(row, b.sigma_y, ey.0, ey.1)[j]);
        lemma_sum_times(
            n,
            |l: int| axis_weight(e, b.sigma_y, j, l) * row[l],
            axis_weight(e, b.sigma_x, i, k),
            |l: int| t(k, l),
        );
    }
    lemma_sum_same(n, f, g);
    assert(pair_sum(n, n, t) == sum_to(n, g));
}

/// A running sum is its start and the sum of the entries.
proof fn lemma_running_total_is_sum(start: real, s: Seq<real>)
    ensures
        running_total(start, s) == start + sum_to(s.len(), |j: int| s[j]),
    decreases s.len(),
{
    if s.len() > 0 {
        let r = s.drop_last();
        lemma_running_total_is_sum(start, r);
        lemma_sum_same(r.len(), |j: int| r[j], |j: int| s[j]);
    }
}

/// The sum over all rows is the sum over all cells.
pub proof fn law_grand_total(rows: Seq<Seq<real>>, m: nat)
    requires
        forall|k: int| 0 <= k < rows.len() ==> #[trigger] rows[k].len() == m,
    ensures
        grand_total(rows) == pair_sum(rows.len(), m, |i: int, j: int| rows[i][j]),
    decreases rows.len(),
{
    let f = |i: int, j: int| rows[i][j];
    if rows.len() > 0 {
        let r = rows.drop_last();
        let last = rows.len() - 1;
        assert forall|k: int| 0 <= k < r.len() implies #[trigger] r[k].len() == m by {
            assert(rows[k].len() == m);
        }
        law_grand_total(r, m);
        let g = |i: int, j: int| r[i][j];
        lemma_same_pairs(r.len(), m, g, f);
        assert(rows[last].len() == m);
        lemma_running_total_is_sum(grand_total(r), rows[last]);
        lemma_sum_same(m, |j: int| rows[last][j], |j: int| f(last, j));
    }
}

/// Whether `r` is the density that comes of the histogram `b`: the grid holds the centres of the cells
/// along both axes, the density is proportional to the smoothed histogram and integrates to one. Cells
/// without width are refused, and so is an integral that counts as zero.
pub open spec fn is_density_2d(
    r: Result<(Seq<real>, Seq<real>, Seq<Seq<real>>), KdeError<real>>,
    b: BinnedFrame<real>,
    e: spec_fn(real) -> real,
) -> bool {
    let tiny = 1real / 1000000000real;
    let n = b.hist.len();
    let cell = |i: int, j: int|
        smoothed_cell(b.hist, e, b.sigma_x, b.sigma_y, i, j);
    let integral = pair_sum(n, n, cell) * b.dx * b.dy;
    match r {
        Ok((x, y, pdf)) => {
            &&& b.dx > 0real
            &&& b.dy > 0real
            &&& !(-tiny < integral < tiny)
            &&& x.len() == n
            &&& y.len() == n
            &&& pdf.len() == n
            &&& forall|i: int|
                0 <= i < n ==> #[trigger] x[i] == b.xmin + (i as real + 1real / 2real)
                    * b.dx
            &&& forall|j: int|
                0 <= j < n ==> #[trigger] y[j] == b.ymin + (j as real + 1real / 2real)
                    * b.dy
            &&& forall|i: int| 0 <= i < n ==> #[trigger] pdf[i].len() == n
            &&& forall|i: int, j: int|
                0 <= i < n && 0 <= j < n ==> #[trigger] pdf[i][j] * integral
                    == smoothed_cell(b.hist, e, b.sigma_x, b.sigma_y, i, j)
            &&& pair_sum(n, n, |i: int, j: int| pdf[i][j]) * b.dx * b.dy == 1real
        },
        Err(KdeError::CellTooNarrow) => b.dx <= 0real || b.dy <= 0real,
        Err(KdeError::NotNormalizable) => b.dx > 0real && b.dy > 0real && -tiny < integral
            < tiny,
        Err(_) => false,
    }
}

/// What comes of a histogram is its density, smoothed along both axes.
pub proof fn law_finished_2d<E: Fn(real) -> real>(
    b: BinnedFrame<real>,
    ex: (real, real),
    ey: (real, real),
    exp: E,
    e: spec_fn(real) -> real,
)
    requires
        computes(exp, e),
        is_exponential(e),
        are_exponentials(ex.0, ex.1, b.sigma_x, exp),
        are_exponentials(ey.0, ey.1, b.sigma_y, exp),
        has_kernel(e, b.sigma_x),
        has_kernel(e, b.sigma_y),
        b.hist.len() <= usize::MAX,
        forall|k: int| 0 <= k < b.hist.len() ==> #[trigger] b.hist[k].len() == b.hist.len(),
    ensures
        is_density_2d(finished_2d(b, ex, ey), b, e),
{
    let n = b.hist.len();
    let s = smoothed_frame(b, ex, ey);
    let cell = |i: int, j: int| smoothed_cell(b.hist, e, b.sigma_x, b.sigma_y, i, j);
    let entry = |i: int, j: int| s[i][j];
    assert(s.len() == n);
    assert forall|i: int| 0 <= i < n implies #[trigger] s[i].len() == n by {}
    assert forall|i: int, j: int| 0 <= i < n && 0 <= j < n implies #[trigger] entry(i, j) == cell(
        i,
        j,
    ) by {
        law_smoothing_along_both_axes(b, ex, ey, exp, e, i, j);
    }
    lemma_same_pairs(n, n, entry, cell);
    law_grand_total(s, n);
    let factor = grand_total(s) * b.dx * b.dy;
    law_negligible(factor);
    lemma_tiny();
    law_normalized_2d_integrates_to_one(
        centres(b.xmin, b.dx, n),
        centres(b.ymin, b.dy, n),
        s,
        b.dx,
        b.dy,
    );
    match finished_2d(b, ex, ey) {
        Ok((x, y, pdf)) => {
            assert(pdf == rows_over(s, factor));
            assert forall|i: int| 0 <= i < n implies #[trigger] pdf[i].len() == n by {
                assert(s[i].len() == n);
            }
            assert forall|i: int, j: int| 0 <= i < n && 0 <= j < n implies #[trigger] pdf[i][j]
                * factor == smoothed_cell(b.hist, e, b.sigma_x, b.sigma_y, i, j) by {
                assert(s[i].len() == n);
                lemma_div_mul(s[i][j], factor);
                assert(entry(i, j) == cell(i, j));
            }
            law_grand_total(pdf, n);
        },
        Err(_) => {},
    }
}

} // verus!
