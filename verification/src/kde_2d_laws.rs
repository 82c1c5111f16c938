//! What the estimate of a two-dimensional density keeps, in exact arithmetic.
use vstd::prelude::*;

use crate::binning_2d::{binned_2d, frame, lemma_cell_bound};
use crate::binning_2d_laws::{law_histogram_2d_is_not_negative, law_threads_do_not_matter_2d};
use crate::convolution::{convolution, distance};
use crate::error::KdeError;
use crate::kde::{centres, highest, lowest};
use crate::kde_2d::{
    column, finished_2d, grand_total, normalized_2d, padded_range, prepared_2d, rows_over,
    running_total, smoothed_columns, smoothed_frame, smoothed_rows, BinnedFrame,
};
use crate::kde_laws::law_range;
use crate::linearity_laws::law_second_order_keeps_sign;
use crate::matrix::{axis_eigenvalues, bandwidth, discriminant, lower_eigenvalue, upper_eigenvalue};
use crate::matrix_laws::has_root;
use crate::reals::{
    lemma_associate, lemma_commute, lemma_distribute, lemma_div_mul, lemma_div_order,
    lemma_product_sign, lemma_tiny, lemma_units,
};
use crate::scalar::{is_root, negligible, Arith};
use crate::second_order::{decay, second_order, second_order_smoothed};
use crate::second_order_laws::{law_second_order_is_convolution, second_order_kernel};

verus! {

/// Dividing every entry divides the running sum.
proof fn lemma_running_total_over(start: real, s: Seq<real>, c: real)
    requires
        c != 0real,
    ensures
        running_total(start / c, Seq::new(s.len(), |i: int| s[i] / c)) == running_total(start, s)
            / c,
    decreases s.len(),
{
    let t = Seq::new(s.len(), |i: int| s[i] / c);
    if s.len() > 0 {
        let r = s.drop_last();
        lemma_running_total_over(start, r, c);
        assert(t.drop_last() =~= Seq::new(r.len(), |i: int| r[i] / c));
        let (a, b) = (running_total(start, r), s.last());
        assert((a + b) / c == a / c + b / c) by (nonlinear_arith)
            requires
                c != 0real,
        ;
    }
}

/// Dividing every entry divides the sum over all rows.
proof fn lemma_grand_total_over(rows: Seq<Seq<real>>, c: real)
    requires
        c != 0real,
    ensures
        grand_total(rows_over(rows, c)) == grand_total(rows) / c,
    decreases rows.len(),
{
    let t = rows_over(rows, c);
    if rows.len() == 0 {
        assert(0real / c == 0real) by (nonlinear_arith)
            requires
                c != 0real,
        ;
    } else {
        let r = rows.drop_last();
        lemma_grand_total_over(r, c);
        assert(t.drop_last() =~= rows_over(r, c));
        let s = rows.last();
        lemma_running_total_over(grand_total(r), s, c);
        assert(t.last() =~= Seq::new(s.len(), |i: int| s[i] / c));
    }
}

/// A normalized histogram integrates to one: the values times the area of a cell sum to one.
pub proof fn law_normalized_2d_integrates_to_one(
    x: Seq<real>,
    y: Seq<real>,
    rows: Seq<Seq<real>>,
    dx: real,
    dy: real,
)
    ensures
        match normalized_2d(x, y, rows, dx, dy) {
            Ok((xs, ys, pdf)) => xs == x && ys == y && pdf.len() == rows.len() && dx > 0real && dy
                > 0real && grand_total(pdf) * dx * dy == 1real,
            Err(e) => e == KdeError::<real>::CellTooNarrow || e
                == KdeError::<real>::NotNormalizable,
        },
{
    lemma_tiny();
    let sum = grand_total(rows);
    let factor = sum * dx * dy;
    if dx > 0real && dy > 0real && !negligible(factor) {
        lemma_grand_total_over(rows, factor);
        assert((sum / factor) * dx * dy == 1real) by {
            let q = sum / factor;
            let a = dx * dy;
            lemma_div_mul(sum, factor);
            lemma_associate(sum, dx, dy);
            lemma_associate(q, dx, dy);
            assert(factor == sum * a);
            assert(q * a == 1real) by (nonlinear_arith)
                requires
                    factor == sum * a,
                    q * factor == sum,
                    factor != 0real,
            ;
        }
    }
}

/// The estimate of a density integrates to one.
pub proof fn law_estimate_2d_integrates_to_one(
    b: BinnedFrame<real>,
    ex: (real, real),
    ey: (real, real),
)
    ensures
        match finished_2d(b, ex, ey) {
            Ok((x, y, pdf)) => x.len() == b.hist.len() && y.len() == b.hist.len() && pdf.len()
                == b.hist.len() && grand_total(pdf) * b.dx * b.dy == 1real,
            Err(_) => true,
        },
{
    law_normalized_2d_integrates_to_one(
        centres(b.xmin, b.dx, b.hist.len()),
        centres(b.ymin, b.dy, b.hist.len()),
        smoothed_frame(b, ex, ey),
        b.dx,
        b.dy,
    );
}

/// The sum over the first `n` rows of `gx(|i - k|)` times the convolution of the row `k` with `gy`
/// at `j`.
pub open spec fn convolution_2d(
    gx: spec_fn(nat) -> real,
    gy: spec_fn(nat) -> real,
    rows: Seq<Seq<real>>,
    i: int,
    j: int,
    n: nat,
) -> real
    decreases n,
{
    if n == 0 {
        0real
    } else {
        convolution_2d(gx, gy, rows, i, j, (n - 1) as nat) + gx(distance(i, n - 1)) * convolution(
            gy,
            rows[n - 1],
            j,
            rows[n - 1].len(),
        )
    }
}

/// The same sum, taken column by column over the first `m` columns and the first `n` rows.
pub open spec fn convolution_by_columns(
    gx: spec_fn(nat) -> real,
    gy: spec_fn(nat) -> real,
    rows: Seq<Seq<real>>,
    i: int,
    j: int,
    n: nat,
    m: nat,
) -> real
    decreases m,
{
    if m == 0 {
        0real
    } else {
        convolution_by_columns(gx, gy, rows, i, j, n, (m - 1) as nat) + gy(distance(j, m - 1))
            * convolution(gx, column(rows, m - 1), i, n)
    }
}

/// One row more adds its convolution to the sum over the columns.
proof fn lemma_one_row_more(
    gx: spec_fn(nat) -> real,
    gy: spec_fn(nat) -> real,
    rows: Seq<Seq<real>>,
    i: int,
    j: int,
    n: nat,
    m: nat,
)
    requires
        1 <= n <= rows.len(),
    ensures
        convolution_by_columns(gx, gy, rows, i, j, n, m) == convolution_by_columns(
            gx,
            gy,
            rows,
            i,
            j,
            (n - 1) as nat,
            m,
        ) + gx(distance(i, n - 1)) * convolution(gy, rows[n - 1], j, m),
    decreases m,
{
    let a = gx(distance(i, n - 1));
    if m == 0 {
        lemma_units(a);
    } else {
        lemma_one_row_more(gx, gy, rows, i, j, n, (m - 1) as nat);
        let b = gy(distance(j, m - 1));
        let v = rows[n - 1][m - 1];
        assert(column(rows, m - 1)[n - 1] == v);
        lemma_distribute(convolution(gx, column(rows, m - 1), i, (n - 1) as nat), a * v, b);
        lemma_distribute(convolution(gy, rows[n - 1], j, (m - 1) as nat), b * v, a);
        lemma_associate(a, b, v);
        lemma_associate(b, a, v);
        lemma_commute(a, b);
    }
}

/// The sum over the rows and the sum over the columns are the same.
proof fn lemma_order_of_axes(
    gx: spec_fn(nat) -> real,
    gy: spec_fn(nat) -> real,
    rows: Seq<Seq<real>>,
    i: int,
    j: int,
    n: nat,
    m: nat,
)
    requires
        n <= rows.len(),
        forall|k: int| 0 <= k < rows.len() ==> #[trigger] rows[k].len() == m,
    ensures
        convolution_2d(gx, gy, rows, i, j, n) == convolution_by_columns(
            gx,
            gy,
            rows,
            i,
            j,
            n,
            m,
        ),
    decreases n,
{
    if n == 0 {
        lemma_no_rows(gx, gy, rows, i, j, m);
    } else {
        lemma_order_of_axes(gx, gy, rows, i, j, (n - 1) as nat, m);
        lemma_one_row_more(gx, gy, rows, i, j, n, m);
        assert(rows[n - 1].len() == m);
    }
}

/// Without rows the sum over the columns is zero.
proof fn lemma_no_rows(
    gx: spec_fn(nat) -> real,
    gy: spec_fn(nat) -> real,
    rows: Seq<Seq<real>>,
    i: int,
    j: int,
    m: nat,
)
    ensures
        convolution_by_columns(gx, gy, rows, i, j, 0, m) == 0real,
    decreases m,
{
    if m > 0 {
        lemma_no_rows(gx, gy, rows, i, j, (m - 1) as nat);
        lemma_units(gy(distance(j, m - 1)));
    }
}

/// The kernel of the filter with the deviation `sigma`, where `ea` stands for the exponential of
/// its decay.
pub open spec fn axis_kernel(sigma: real, ea: real) -> spec_fn(nat) -> real {
    second_order_kernel(second_order(decay(sigma), ea, ea * ea).a1, decay(sigma), ea)
}

/// A convolution of a sequence whose entries are the convolutions of the rows.
proof fn lemma_convolved_rows(
    gx: spec_fn(nat) -> real,
    gy: spec_fn(nat) -> real,
    rows: Seq<Seq<real>>,
    s: Seq<real>,
    i: int,
    j: int,
    n: nat,
)
    requires
        n <= rows.len() == s.len(),
        forall|k: int|
            0 <= k < s.len() ==> #[trigger] s[k] == convolution(gy, rows[k], j, rows[k].len()),
    ensures
        convolution(gx, s, i, n) == convolution_2d(gx, gy, rows, i, j, n),
    decreases n,
{
    if n > 0 {
        lemma_convolved_rows(gx, gy, rows, s, i, j, (n - 1) as nat);
        assert(s[n - 1] == convolution(gy, rows[n - 1], j, rows[n - 1].len()));
    }
}

/// A convolution of a sequence whose entries are the convolutions of the columns.
proof fn lemma_convolved_columns(
    gx: spec_fn(nat) -> real,
    gy: spec_fn(nat) -> real,
    rows: Seq<Seq<real>>,
    s: Seq<real>,
    i: int,
    j: int,
    m: nat,
)
    requires
        m <= s.len(),
        forall|k: int|
            0 <= k < s.len() ==> #[trigger] s[k] == convolution(
                gx,
                column(rows, k),
                i,
                rows.len(),
            ),
    ensures
        convolution(gy, s, j, m) == convolution_by_columns(gx, gy, rows, i, j, rows.len(), m),
    decreases m,
{
    if m > 0 {
        lemma_convolved_columns(gx, gy, rows, s, i, j, (m - 1) as nat);
        assert(s[m - 1] == convolution(gx, column(rows, m - 1), i, rows.len()));
    }
}

/// Smoothing along both axes convolves the histogram with the product of the two kernels: the
/// smoothing in two dimensions falls into one for each axis.
pub proof fn law_smoothing_is_separable(
    rows: Seq<Seq<real>>,
    m: nat,
    sigma_x: real,
    sigma_y: real,
    ea: real,
    eb: real,
    i: int,
    j: int,
)
    requires
        !negligible(sigma_x),
        !negligible(sigma_y),
        forall|k: int| 0 <= k < rows.len() ==> #[trigger] rows[k].len() == m,
        0 <= i < rows.len(),
        0 <= j < m,
    ensures
        smoothed_columns(
            smoothed_rows(rows, sigma_y, (eb, eb * eb)),
            m,
            sigma_x,
            (ea, ea * ea),
        )[i][j] == convolution_2d(
            axis_kernel(sigma_x, ea),
            axis_kernel(sigma_y, eb),
            rows,
            i,
            j,
            rows.len(),
        ),
{
    let (gx, gy) = (axis_kernel(sigma_x, ea), axis_kernel(sigma_y, eb));
    let inner = smoothed_rows(rows, sigma_y, (eb, eb * eb));
    let s = column(inner, j);
    assert forall|k: int| 0 <= k < s.len() implies #[trigger] s[k] == convolution(
        gy,
        rows[k],
        j,
        rows[k].len(),
    ) by {
        assert(rows[k].len() == m);
        law_second_order_is_convolution(rows[k], decay(sigma_y), eb, j);
    }
    law_second_order_is_convolution(s, decay(sigma_x), ea, i);
    lemma_convolved_rows(gx, gy, rows, s, i, j, rows.len());
}

/// Which axis is smoothed first does not matter.
pub proof fn law_order_of_axes_does_not_matter(
    rows: Seq<Seq<real>>,
    m: nat,
    sigma_x: real,
    sigma_y: real,
    ea: real,
    eb: real,
)
    requires
        forall|k: int| 0 <= k < rows.len() ==> #[trigger] rows[k].len() == m,
    ensures
        smoothed_columns(smoothed_rows(rows, sigma_y, (eb, eb * eb)), m, sigma_x, (ea, ea * ea))
            == smoothed_rows(
            smoothed_columns(rows, m, sigma_x, (ea, ea * ea)),
            sigma_y,
            (eb, eb * eb),
        ),
{
    let (ex, ey) = ((ea, ea * ea), (eb, eb * eb));
    let (gx, gy) = (axis_kernel(sigma_x, ea), axis_kernel(sigma_y, eb));
    let by_rows = smoothed_rows(rows, sigma_y, ey);
    let by_columns = smoothed_columns(rows, m, sigma_x, ex);
    let first = smoothed_columns(by_rows, m, sigma_x, ex);
    let second = smoothed_rows(by_columns, sigma_y, ey);
    assert forall|i: int| 0 <= i < rows.len() implies #[trigger] first[i] == second[i] by {
        assert(rows[i].len() == m);
        assert forall|j: int| 0 <= j < m implies #[trigger] first[i][j] == second[i][j] by {
            if negligible(sigma_x) {
                assert(column(by_rows, j)[i] == by_rows[i][j]);
                assert(by_columns[i] =~= rows[i]);
            } else if negligible(sigma_y) {
                assert(by_rows =~= rows);
            } else {
                law_smoothing_is_separable(rows, m, sigma_x, sigma_y, ea, eb, i, j);
                lemma_order_of_axes(gx, gy, rows, i, j, rows.len(), m);
                let s = by_columns[i];
                assert forall|k: int| 0 <= k < s.len() implies #[trigger] s[k] == convolution(
                    gx,
                    column(rows, k),
                    i,
                    rows.len(),
                ) by {
                    law_second_order_is_convolution(column(rows, k), decay(sigma_x), ea, i);
                }
                law_second_order_is_convolution(s, decay(sigma_y), eb, j);
                lemma_convolved_columns(gx, gy, rows, s, i, j, m);
            }
        }
        assert(first[i] =~= second[i]);
    }
    assert(first =~= second);
}

/// The number of threads does not change how far an estimate comes.
pub proof fn law_threads_do_not_change_estimate_2d(
    x: Seq<real>,
    y: Seq<real>,
    bins: usize,
    f: real,
    threads: usize,
    others: usize,
)
    requires
        threads >= 1,
        others >= 1,
        x.len() == y.len(),
        bins >= 1,
    ensures
        prepared_2d(x, y, bins, f, threads) == prepared_2d(x, y, bins, f, others),
{
    let h = bandwidth(x, y, f);
    let (xmin, xmax) = padded_range(x, axis_eigenvalues(h).0.root());
    let (ymin, ymax) = padded_range(y, axis_eigenvalues(h).1.root());
    let fr = frame(xmin, xmax, ymin, ymax, bins, bins);
    law_threads_do_not_matter_2d(x, y, fr, bins, bins, threads);
    law_threads_do_not_matter_2d(x, y, fr, bins, bins, others);
}

/// The grid reaches half a bandwidth beyond the data on each side.
pub proof fn law_padding(s: Seq<real>, sigma: real)
    requires
        s.len() >= 1,
        sigma >= 0real,
    ensures
        forall|i: int|
            0 <= i < s.len() ==> padded_range(s, sigma).0 + sigma / 2real <= #[trigger] s[i]
                <= padded_range(s, sigma).1 - sigma / 2real,
        padded_range(s, sigma).1 - padded_range(s, sigma).0 == highest(s) - lowest(s) + sigma,
        padded_range(s, sigma).0 <= padded_range(s, sigma).1,
{
    law_range(s);
    let h = 1real / 2real;
    assert(h * sigma == sigma / 2real) by (nonlinear_arith)
        requires
            h == 1real / 2real,
    ;
    assert(lowest(s) <= s[0] <= highest(s));
}

/// An estimate that no check refuses is never refused for its range: there are bandwidths for
/// both axes, and the cells over the padded ranges make a square.
pub proof fn law_prepared_2d(x: Seq<real>, y: Seq<real>, bins: usize, f: real, threads: usize)
    requires
        threads >= 1,
        bins >= 1,
        x.len() == y.len(),
        2 <= x.len() <= usize::MAX,
        ({
            let h = bandwidth(x, y, f);
            &&& has_root(discriminant(h))
            &&& has_root(lower_eigenvalue(h))
            &&& has_root(upper_eigenvalue(h))
        }),
    ensures
        match prepared_2d(x, y, bins, f, threads) {
            Ok(b) => {
                let h = bandwidth(x, y, f);
                let (sx, sy) = (axis_eigenvalues(h).0.root(), axis_eigenvalues(h).1.root());
                &&& 0real <= sx
                &&& 0real <= sy
                &&& b.xmin == lowest(x) - sx / 2real
                &&& b.ymin == lowest(y) - sy / 2real
                &&& b.dx * (bins as real) == highest(x) - lowest(x) + sx
                &&& b.dy * (bins as real) == highest(y) - lowest(y) + sy
                &&& b.sigma_x >= 0real
                &&& b.sigma_y >= 0real
                &&& b.hist.len() == bins
                &&& forall|i: int| 0 <= i < bins ==> #[trigger] b.hist[i].len() == bins
                &&& rows_not_negative(b.hist)
            },
            Err(_) => false,
        },
{
    let h = bandwidth(x, y, f);
    let (l, u) = axis_eigenvalues(h);
    let (sx, sy) = (l.root(), u.root());
    assert(is_root(sx, l));
    assert(is_root(sy, u));
    law_padding(x, sx);
    law_padding(y, sy);
    let (xmin, xmax) = padded_range(x, sx);
    let (ymin, ymax) = padded_range(y, sy);
    assert((1real / 2real) * sx == sx / 2real && (1real / 2real) * sy == sy / 2real)
        by (nonlinear_arith);
    lemma_div_mul(xmax - xmin, bins as real);
    lemma_div_mul(ymax - ymin, bins as real);
    lemma_bandwidth_in_bins(sx, xmax - xmin, bins);
    lemma_bandwidth_in_bins(sy, ymax - ymin, bins);
    let fr = frame(xmin, xmax, ymin, ymax, bins, bins);
    lemma_div_order(xmax - xmin, bins as real, 0real);
    lemma_div_order(ymax - ymin, bins as real, 0real);
    lemma_tiny();
    law_threads_do_not_matter_2d(x, y, fr, bins, bins, threads);
    let rows = binned_2d(x, y, fr, bins, bins, threads);
    let n = bins as int;
    if !negligible(fr.dx) && !negligible(fr.dy) {
        law_histogram_2d_is_not_negative(x, y, fr, n, n);
    }
    assert forall|i: int, j: int|
        0 <= i < rows.len() && 0 <= j < rows[i].len() implies #[trigger] rows[i][j] >= 0real by {
        lemma_cell_bound(i, j, n, n);
    }
}

/// A bandwidth without negative value stays so when it is counted in bins.
pub proof fn lemma_bandwidth_in_bins(sigma: real, range: real, bins: usize)
    requires
        0real <= sigma <= range,
    ensures
        sigma * ((bins as real) / range) >= 0real,
{
    if range > 0real {
        lemma_div_order(bins as real, range, 0real);
        lemma_product_sign(sigma, (bins as real) / range);
    } else {
        lemma_units((bins as real) / range);
    }
}

/// Whether no entry of the rows is negative.
pub open spec fn rows_not_negative(rows: Seq<Seq<real>>) -> bool {
    forall|i: int, j: int|
        0 <= i < rows.len() && 0 <= j < rows[i].len() ==> #[trigger] rows[i][j] >= 0real
}

/// The running sum of entries without negative values is not below where it starts.
proof fn lemma_running_total_sign(start: real, s: Seq<real>)
    requires
        forall|j: int| 0 <= j < s.len() ==> #[trigger] s[j] >= 0real,
    ensures
        running_total(start, s) >= start,
    decreases s.len(),
{
    if s.len() > 0 {
        let r = s.drop_last();
        assert forall|j: int| 0 <= j < r.len() implies #[trigger] r[j] >= 0real by {
            assert(s[j] >= 0real);
        }
        lemma_running_total_sign(start, r);
        assert(s[s.len() - 1] >= 0real);
    }
}

/// The sum over rows without negative entries is not negative.
proof fn lemma_grand_total_sign(rows: Seq<Seq<real>>)
    requires
        rows_not_negative(rows),
    ensures
        grand_total(rows) >= 0real,
    decreases rows.len(),
{
    if rows.len() > 0 {
        let r = rows.drop_last();
        let last = rows.len() - 1;
        assert forall|i: int, j: int|
            0 <= i < r.len() && 0 <= j < r[i].len() implies #[trigger] r[i][j] >= 0real by {
            assert(rows[i][j] >= 0real);
        }
        lemma_grand_total_sign(r);
        assert forall|j: int| 0 <= j < rows[last].len() implies #[trigger] rows[last][j]
            >= 0real by {}
        lemma_running_total_sign(grand_total(r), rows.last());
    }
}

/// A histogram without negative weights gives a density without negative values, where the
/// exponentials of the filters lie between zero and one.
pub proof fn law_density_2d_is_not_negative(b: BinnedFrame<real>, ea: real, eb: real)
    requires
        b.sigma_x >= 0real,
        b.sigma_y >= 0real,
        0real < ea < 1real,
        0real < eb < 1real,
        forall|i: int| 0 <= i < b.hist.len() ==> #[trigger] b.hist[i].len() == b.hist.len(),
        rows_not_negative(b.hist),
    ensures
        match finished_2d(b, (ea, ea * ea), (eb, eb * eb)) {
            Ok((x, y, pdf)) => rows_not_negative(pdf),
            Err(_) => true,
        },
{
    let (ex, ey) = ((ea, ea * ea), (eb, eb * eb));
    let n = b.hist.len();
    let inner = smoothed_rows(b.hist, b.sigma_y, ey);
    assert forall|i: int, j: int| 0 <= i < n && 0 <= j < n implies #[trigger] inner[i][j]
        >= 0real by {
        let row = b.hist[i];
        assert(row.len() == n);
        assert forall|k: int| 0 <= k < row.len() implies #[trigger] row[k] >= 0real by {
            assert(b.hist[i][k] >= 0real);
        }
        law_second_order_keeps_sign(row, b.sigma_y, eb);
        assert(second_order_smoothed(row, b.sigma_y, eb, eb * eb)[j] >= 0real);
    }
    let outer = smoothed_frame(b, ex, ey);
    assert forall|i: int, j: int| 0 <= i < n && 0 <= j < n implies #[trigger] outer[i][j]
        >= 0real by {
        let c = column(inner, j);
        assert forall|k: int| 0 <= k < c.len() implies #[trigger] c[k] >= 0real by {
            assert(inner[k][j] >= 0real);
        }
        law_second_order_keeps_sign(c, b.sigma_x, ea);
        assert(second_order_smoothed(c, b.sigma_x, ea, ea * ea)[i] >= 0real);
    }
    assert(rows_not_negative(outer));
    lemma_grand_total_sign(outer);
    let sum = grand_total(outer);
    let factor = sum * b.dx * b.dy;
    lemma_tiny();
    if b.dx > 0real && b.dy > 0real && !negligible(factor) {
        lemma_product_sign(sum, b.dx);
        lemma_product_sign(sum * b.dx, b.dy);
        let pdf = rows_over(outer, factor);
        assert forall|i: int, j: int|
            0 <= i < pdf.len() && 0 <= j < pdf[i].len() implies #[trigger] pdf[i][j] >= 0real by {
            assert(outer[i][j] >= 0real);
            lemma_div_order(outer[i][j], factor, 0real);
        }
    }
}

} // verus!
