//! Kernel density estimation of two-dimensional data.
use vstd::prelude::*;

use crate::binning_2d::{binned_2d, frame, linear_binning_2d_with_threads, rows_view};
use crate::error::{Axis, KdeError};
use crate::kde::{bin_centres, centres, data_range, highest, lowest};
use crate::matrix::{
    axis_eigenvalues, bandwidth, bandwidth_with_factor, decompose_by_axis, scott_exponent,
    scotts_factor, Matrix2,
};
use crate::parallel::{current_num_threads, for_each_item};
use crate::scalar::{half, is_negligible, negligible, zero, Arith, Scalar};
use crate::second_order::{
    are_exponentials, filter_exponentials, filter_with_exponentials, second_order_smoothed,
};

verus! {

/// A density on a grid of cells.
pub struct KdeGrid2d<T> {
    /// The centres of the cells along the first axis.
    pub x: Vec<T>,
    /// The centres of the cells along the second axis.
    pub y: Vec<T>,
    /// The density at the centres, one row for each place along the first axis.
    pub pdf: Vec<Vec<T>>,
}

impl<T> View for KdeGrid2d<T> {
    type V = (Seq<T>, Seq<T>, Seq<Seq<T>>);

    open spec fn view(&self) -> (Seq<T>, Seq<T>, Seq<Seq<T>>) {
        (self.x@, self.y@, rows_view(self.pdf@))
    }
}

/// What a computed result says of the estimate.
pub open spec fn grid_result_2d<T>(r: Result<KdeGrid2d<T>, KdeError<T>>) -> Result<
    (Seq<T>, Seq<T>, Seq<Seq<T>>),
    KdeError<T>,
> {
    match r {
        Ok(grid) => Ok(grid@),
        Err(e) => Err(e),
    }
}

/// Why an estimate of the points is refused before they are looked at, if it is.
pub open spec fn request_error_2d<T>(x: Seq<T>, y: Seq<T>, bins: usize) -> Option<KdeError<T>> {
    if x.len() < 3 || y.len() < 3 {
        Some(KdeError::TooFewPoints)
    } else if bins == 0 {
        Some(KdeError::NoCells)
    } else {
        None
    }
}

/// The histogram of a frame, ready to be smoothed.
pub struct BinnedFrame<T> {
    /// The lower end along the first axis.
    pub xmin: T,
    /// The lower end along the second axis.
    pub ymin: T,
    /// The width of a cell along the first axis.
    pub dx: T,
    /// The width of a cell along the second axis.
    pub dy: T,
    /// The bandwidth along the first axis, counted in cells.
    pub sigma_x: T,
    /// The bandwidth along the second axis, counted in cells.
    pub sigma_y: T,
    /// The weights of the cells.
    pub hist: Seq<Seq<T>>,
}

/// The range of `s`, with half a bandwidth added at each end.
pub open spec fn padded_range<T: Arith>(s: Seq<T>, sigma: T) -> (T, T) {
    (lowest(s).minus(half::<T>().times(sigma)), highest(s).plus(half::<T>().times(sigma)))
}

/// How far an estimate of the points comes without smoothing, for the factor `f` and on `threads`
/// threads.
pub open spec fn prepared_2d<T: Arith>(
    x: Seq<T>,
    y: Seq<T>,
    bins: usize,
    f: T,
    threads: usize,
) -> Result<BinnedFrame<T>, KdeError<T>> {
    let h = bandwidth(x, y, f);
    let sigma_x = axis_eigenvalues(h).0.root();
    let sigma_y = axis_eigenvalues(h).1.root();
    let (xmin, xmax) = padded_range(x, sigma_x);
    let (ymin, ymax) = padded_range(y, sigma_y);
    if xmax.below(xmin) {
        Err(KdeError::InvertedRange { axis: Axis::X, max: xmax, min: xmin })
    } else if ymax.below(ymin) {
        Err(KdeError::InvertedRange { axis: Axis::Y, max: ymax, min: ymin })
    } else {
        let fr = frame(xmin, xmax, ymin, ymax, bins, bins);
        Ok(
            BinnedFrame {
                xmin,
                ymin,
                dx: fr.dx,
                dy: fr.dy,
                sigma_x: sigma_x.times(T::whole(bins).over(xmax.minus(xmin))),
                sigma_y: sigma_y.times(T::whole(bins).over(ymax.minus(ymin))),
                hist: binned_2d(x, y, fr, bins, bins, threads),
            },
        )
    }
}

/// The column `j` of the rows.
pub open spec fn column<T>(rows: Seq<Seq<T>>, j: int) -> Seq<T> {
    Seq::new(rows.len(), |i: int| rows[i][j])
}

/// The rows, each smoothed with the deviation `sigma` and the exponentials `e`.
pub open spec fn smoothed_rows<T: Arith>(rows: Seq<Seq<T>>, sigma: T, e: (T, T)) -> Seq<Seq<T>> {
    Seq::new(rows.len(), |i: int| second_order_smoothed(rows[i], sigma, e.0, e.1))
}

/// The rows, with each of their `ybins` columns smoothed with the deviation `sigma` and the
/// exponentials `e`.
pub open spec fn smoothed_columns<T: Arith>(
    rows: Seq<Seq<T>>,
    ybins: nat,
    sigma: T,
    e: (T, T),
) -> Seq<Seq<T>> {
    Seq::new(
        rows.len(),
        |i: int|
            Seq::new(ybins, |j: int| second_order_smoothed(column(rows, j), sigma, e.0, e.1)[i]),
    )
}

/// `start` plus the sum of a sequence, taken from the left.
pub open spec fn running_total<T: Arith>(start: T, s: Seq<T>) -> T
    decreases s.len(),
{
    if s.len() == 0 {
        start
    } else {
        running_total(start, s.drop_last()).plus(s.last())
    }
}

/// The sum over all rows, taken row by row.
pub open spec fn grand_total<T: Arith>(rows: Seq<Seq<T>>) -> T
    decreases rows.len(),
{
    if rows.len() == 0 {
        zero()
    } else {
        running_total(grand_total(rows.drop_last()), rows.last())
    }
}

/// The rows with every entry divided by `factor`.
pub open spec fn rows_over<T: Arith>(rows: Seq<Seq<T>>, factor: T) -> Seq<Seq<T>> {
    Seq::new(rows.len(), |i: int| Seq::new(rows[i].len(), |j: int| rows[i][j].over(factor)))
}

/// The histogram `rows` over cells of the widths `dx` and `dy`, brought to the integral one.
pub open spec fn normalized_2d<T: Arith>(
    x: Seq<T>,
    y: Seq<T>,
    rows: Seq<Seq<T>>,
    dx: T,
    dy: T,
) -> Result<(Seq<T>, Seq<T>, Seq<Seq<T>>), KdeError<T>> {
    let factor = grand_total(rows).times(dx).times(dy);
    if dx.at_most(zero()) || dy.at_most(zero()) {
        Err(KdeError::CellTooNarrow)
    } else if negligible(factor) {
        Err(KdeError::NotNormalizable)
    } else {
        Ok((x, y, rows_over(rows, factor)))
    }
}

/// The histogram of a frame, smoothed along both axes with the exponentials `ex` and `ey`.
pub open spec fn smoothed_frame<T: Arith>(
    b: BinnedFrame<T>,
    ex: (T, T),
    ey: (T, T),
) -> Seq<Seq<T>> {
    smoothed_columns(smoothed_rows(b.hist, b.sigma_y, ey), b.hist.len(), b.sigma_x, ex)
}

/// The density that comes of the histogram `b`, where the filters along the two axes have the
/// exponentials `ex` and `ey`.
pub open spec fn finished_2d<T: Arith>(b: BinnedFrame<T>, ex: (T, T), ey: (T, T)) -> Result<
    (Seq<T>, Seq<T>, Seq<Seq<T>>),
    KdeError<T>,
> {
    normalized_2d(
        centres(b.xmin, b.dx, b.hist.len()),
        centres(b.ymin, b.dy, b.hist.len()),
        smoothed_frame(b, ex, ey),
        b.dx,
        b.dy,
    )
}

/// Whether `r` is the estimate of the points for the factor `f` on `threads` threads, with the
/// exponentials that `exp` gives the filters.
pub open spec fn is_estimate_2d_for<T: Arith, E: Fn(T) -> T>(
    r: Result<(Seq<T>, Seq<T>, Seq<Seq<T>>), KdeError<T>>,
    x: Seq<T>,
    y: Seq<T>,
    bins: usize,
    f: T,
    exp: E,
    threads: usize,
) -> bool {
    match prepared_2d(x, y, bins, f, threads) {
        Err(e) => r == Err::<(Seq<T>, Seq<T>, Seq<Seq<T>>), KdeError<T>>(e),
        Ok(b) => exists|ex: (T, T), ey: (T, T)|
            are_exponentials(ex.0, ex.1, b.sigma_x, exp) && are_exponentials(
                ey.0,
                ey.1,
                b.sigma_y,
                exp,
            ) && r == #[trigger] finished_2d(b, ex, ey),
    }
}

/// Whether `r` is the estimate of the points on `threads` threads, with Scott's factor as `pow`
/// computes it and with the exponentials that `exp` gives the filters.
pub open spec fn is_estimate_2d_on<T: Arith, E: Fn(T) -> T, P: Fn(T, T) -> T>(
    r: Result<(Seq<T>, Seq<T>, Seq<Seq<T>>), KdeError<T>>,
    x: Seq<T>,
    y: Seq<T>,
    bins: usize,
    exp: E,
    pow: P,
    threads: usize,
) -> bool {
    match request_error_2d(x, y, bins) {
        Some(e) => r == Err::<(Seq<T>, Seq<T>, Seq<Seq<T>>), KdeError<T>>(e),
        None => exists|f: T| #[trigger]
            pow.ensures((T::whole(x.len() as usize), scott_exponent::<T>()), f)
                && is_estimate_2d_for(r, x, y, bins, f, exp, threads),
    }
}

/// Why an estimate of the points is refused before they are looked at, if it is.
pub fn check_request_2d<T>(x: &[T], y: &[T], bins: usize) -> (r: Option<KdeError<T>>)
    ensures
        r == request_error_2d(x@, y@, bins),
{
    if x.len() < 3 || y.len() < 3 {
        Some(KdeError::TooFewPoints)
    } else if bins == 0 {
        Some(KdeError::NoCells)
    } else {
        None
    }
}

/// The histogram of a frame, ready to be smoothed.
pub struct BinnedPoints<T> {
    /// The lower end along the first axis.
    pub xmin: T,
    /// The lower end along the second axis.
    pub ymin: T,
    /// The width of a cell along the first axis.
    pub dx: T,
    /// The width of a cell along the second axis.
    pub dy: T,
    /// The bandwidth along the first axis, counted in cells.
    pub sigma_x: T,
    /// The bandwidth along the second axis, counted in cells.
    pub sigma_y: T,
    /// The weights of the cells.
    pub hist: Vec<Vec<T>>,
}

impl<T> View for BinnedPoints<T> {
    type V = BinnedFrame<T>;

    open spec fn view(&self) -> BinnedFrame<T> {
        BinnedFrame {
            xmin: self.xmin,
            ymin: self.ymin,
            dx: self.dx,
            dy: self.dy,
            sigma_x: self.sigma_x,
            sigma_y: self.sigma_y,
            hist: rows_view(self.hist@),
        }
    }
}

impl<T> BinnedPoints<T> {
    /// There are as many columns as rows.
    pub open spec fn wf(self) -> bool {
        forall|i: int|
            0 <= i < self.hist@.len() ==> (#[trigger] self.hist@[i])@.len() == self.hist@.len()
    }
}

/// The range of `s`, with half a bandwidth added at each end.
fn padded_data_range<T: Scalar>(s: &[T], sigma: T) -> (r: (T, T))
    requires
        s@.len() >= 1,
    ensures
        r == padded_range(s@, sigma),
{
    let (low, high) = data_range(s);
    let tail: T = T::of_ratio(1, 2).product(sigma);
    (low.difference(tail), high.sum(tail))
}

/// Finds the bandwidths for the factor `f` and the frame of the points, and bins them, with one
/// chunk for each of `threads` threads.
pub fn prepare_2d<T: Scalar>(x: &[T], y: &[T], bins: usize, f: T, threads: usize) -> (r: Result<
    BinnedPoints<T>,
    KdeError<T>,
>)
    requires
        threads >= 1,
        x@.len() == y@.len(),
        x@.len() >= 1,
        bins >= 1,
        bins * bins <= usize::MAX,
    ensures
        match r {
            Ok(b) => b.wf() && prepared_2d(x@, y@, bins, f, threads) == Ok::<
                BinnedFrame<T>,
                KdeError<T>,
            >(b@),
            Err(e) => prepared_2d(x@, y@, bins, f, threads) == Err::<BinnedFrame<T>, KdeError<T>>(
                e,
            ),
        },
{
    let h: Matrix2<T> = bandwidth_with_factor(x, y, f);
    let (variance_x, variance_y) = decompose_by_axis(&h);
    let sigma_x: T = variance_x.square_root();
    let sigma_y: T = variance_y.square_root();
    let (xmin, xmax) = padded_data_range(x, sigma_x);
    let (ymin, ymax) = padded_data_range(y, sigma_y);
    if xmax.is_below(xmin) {
        return Err(KdeError::InvertedRange { axis: Axis::X, max: xmax, min: xmin });
    }
    if ymax.is_below(ymin) {
        return Err(KdeError::InvertedRange { axis: Axis::Y, max: ymax, min: ymin });
    }
    let hist: Vec<Vec<T>> = linear_binning_2d_with_threads(
        x,
        y,
        xmin,
        xmax,
        ymin,
        ymax,
        bins,
        bins,
        threads,
    );
    let count: T = T::of_usize(bins);
    let range_x: T = xmax.difference(xmin);
    let range_y: T = ymax.difference(ymin);
    proof {
        let rows = rows_view(hist@);
        assert(rows.len() == bins);
        assert forall|i: int| 0 <= i < hist@.len() implies (#[trigger] hist@[i])@.len()
            == hist@.len() by {
            assert(rows[i].len() == bins);
        }
    }
    Ok(
        BinnedPoints {
            xmin,
            ymin,
            dx: range_x.quotient(count),
            dy: range_y.quotient(count),
            sigma_x: sigma_x.product(count.quotient(range_x)),
            sigma_y: sigma_y.product(count.quotient(range_y)),
            hist,
        },
    )
}

/// Smooths each of the rows, in parallel.
fn smooth_rows<T: Scalar>(rows: &mut Vec<Vec<T>>, sigma: T, ea: T, e2a: T)
    ensures
        rows_view(final(rows)@) == smoothed_rows(rows_view(old(rows)@), sigma, (ea, e2a)),
{
    let g = |row: &mut Vec<T>|
        ensures
            final(row)@ == second_order_smoothed(old(row)@, sigma, ea, e2a),
        { filter_with_exponentials(row.as_mut_slice(), sigma, ea, e2a) };
    let ghost before = rows@;
    for_each_item(rows, g);
    proof {
        let goal = smoothed_rows(rows_view(before), sigma, (ea, e2a));
        assert forall|i: int| 0 <= i < before.len() implies rows_view(rows@)[i]
            == #[trigger] goal[i] by {
            assert(rows@[i]@ == second_order_smoothed(before[i]@, sigma, ea, e2a));
        }
        assert(rows_view(rows@) =~= goal);
    }
}

/// Smooths each of the `ybins` columns of the rows.
fn smooth_columns<T: Scalar>(rows: &Vec<Vec<T>>, ybins: usize, sigma: T, ea: T, e2a: T) -> (r: Vec<
    Vec<T>,
>)
    requires
        forall|i: int| 0 <= i < rows@.len() ==> (#[trigger] rows@[i])@.len() == ybins,
    ensures
        rows_view(r@) == smoothed_columns(rows_view(rows@), ybins as nat, sigma, (ea, e2a)),
{
    let n: usize = rows.len();
    let ghost view = rows_view(rows@);
    let mut columns: Vec<Vec<T>> = Vec::new();
    for j in 0..ybins
        invariant
            n == rows@.len(),
            view == rows_view(rows@),
            forall|i: int| 0 <= i < n ==> (#[trigger] rows@[i])@.len() == ybins,
            columns@.len() == j,
            forall|k: int|
                0 <= k < j ==> #[trigger] columns@[k]@ == second_order_smoothed(
                    column(view, k),
                    sigma,
                    ea,
                    e2a,
                ) && columns@[k]@.len() == n,
    {
        let mut c: Vec<T> = Vec::new();
        for i in 0..n
            invariant
                j < ybins,
                n == rows@.len(),
                view == rows_view(rows@),
                forall|i: int| 0 <= i < n ==> (#[trigger] rows@[i])@.len() == ybins,
                c@ == column(view, j as int).take(i as int),
        {
            c.push(rows[i][j as usize]);
            proof {
                assert(c@ =~= column(view, j as int).take(i + 1));
            }
        }
        proof {
            assert(c@ =~= column(view, j as int));
        }
        filter_with_exponentials(c.as_mut_slice(), sigma, ea, e2a);
        columns.push(c);
    }
    let ghost goal = smoothed_columns(view, ybins as nat, sigma, (ea, e2a));
    let mut r: Vec<Vec<T>> = Vec::new();
    for i in 0..n
        invariant
            n == view.len(),
            goal == smoothed_columns(view, ybins as nat, sigma, (ea, e2a)),
            columns@.len() == ybins,
            forall|k: int|
                0 <= k < ybins ==> #[trigger] columns@[k]@ == second_order_smoothed(
                    column(view, k),
                    sigma,
                    ea,
                    e2a,
                ) && columns@[k]@.len() == n,
            r@.len() == i,
            forall|k: int| 0 <= k < i ==> #[trigger] r@[k]@ == goal[k],
    {
        let mut row: Vec<T> = Vec::new();
        for j in 0..ybins
            invariant
                i < n == view.len(),
                goal == smoothed_columns(view, ybins as nat, sigma, (ea, e2a)),
                columns@.len() == ybins,
                forall|k: int|
                    0 <= k < ybins ==> #[trigger] columns@[k]@ == second_order_smoothed(
                        column(view, k),
                        sigma,
                        ea,
                        e2a,
                    ) && columns@[k]@.len() == n,
                row@.len() == j,
                forall|k: int| 0 <= k < j ==> #[trigger] row@[k] == goal[i as int][k],
        {
            row.push(columns[j][i as usize]);
        }
        proof {
            assert(row@ =~= goal[i as int]);
        }
        r.push(row);
    }
    proof {
        assert(rows_view(r@) =~= goal);
    }
    r
}

/// The sum over all rows, taken row by row.
fn grand_total_of<T: Scalar>(rows: &Vec<Vec<T>>) -> (r: T)
    ensures
        r == grand_total(rows_view(rows@)),
{
    let ghost view = rows_view(rows@);
    let mut acc: T = T::of_usize(0);
    for i in 0..rows.len()
        invariant
            view == rows_view(rows@),
            acc == grand_total(view.take(i as int)),
    {
        let row: &Vec<T> = &rows[i];
        let ghost start = acc;
        for j in 0..row.len()
            invariant
                acc == running_total(start, row@.take(j as int)),
        {
            proof {
                assert(row@.take(j + 1).drop_last() =~= row@.take(j as int));
            }
            acc = acc.sum(row[j]);
        }
        proof {
            assert(row@.take(row@.len() as int) =~= row@);
            assert(view.take(i + 1).drop_last() =~= view.take(i as int));
        }
    }
    proof {
        assert(view.take(view.len() as int) =~= view);
    }
    acc
}

/// The rows with every entry divided by `factor`.
fn divide_rows<T: Scalar>(rows: &Vec<Vec<T>>, factor: T) -> (r: Vec<Vec<T>>)
    ensures
        rows_view(r@) == rows_over(rows_view(rows@), factor),
{
    let ghost goal = rows_over(rows_view(rows@), factor);
    let mut r: Vec<Vec<T>> = Vec::new();
    for i in 0..rows.len()
        invariant
            goal == rows_over(rows_view(rows@), factor),
            r@.len() == i,
            forall|k: int| 0 <= k < i ==> #[trigger] r@[k]@ == goal[k],
    {
        let row: &Vec<T> = &rows[i];
        let mut out: Vec<T> = Vec::new();
        for j in 0..row.len()
            invariant
                out@.len() == j,
                forall|k: int| 0 <= k < j ==> #[trigger] out@[k] == row@[k].over(factor),
        {
            out.push(row[j].quotient(factor));
        }
        proof {
            assert(out@ =~= goal[i as int]);
        }
        r.push(out);
    }
    proof {
        assert(rows_view(r@) =~= goal);
    }
    r
}

/// Brings the histogram `rows` over cells of the widths `dx` and `dy` to the integral one.
pub fn normalize_2d<T: Scalar>(x: Vec<T>, y: Vec<T>, rows: Vec<Vec<T>>, dx: T, dy: T) -> (r: Result<
    KdeGrid2d<T>,
    KdeError<T>,
>)
    ensures
        grid_result_2d(r) == normalized_2d(x@, y@, rows_view(rows@), dx, dy),
{
    let zero: T = T::of_usize(0);
    let sum: T = grand_total_of(&rows);
    if dx.is_at_most(zero) || dy.is_at_most(zero) {
        return Err(KdeError::CellTooNarrow);
    }
    let factor: T = sum.product(dx).product(dy);
    if is_negligible(factor) {
        return Err(KdeError::NotNormalizable);
    }
    Ok(KdeGrid2d { x, y, pdf: divide_rows(&rows, factor) })
}

/// Smooths and normalizes the histogram `b`, where the filters along the two axes have the
/// exponentials `ex` and `ey`.
pub fn finish_2d<T: Scalar>(b: BinnedPoints<T>, ex: (T, T), ey: (T, T)) -> (r: Result<
    KdeGrid2d<T>,
    KdeError<T>,
>)
    requires
        b.wf(),
    ensures
        grid_result_2d(r) == finished_2d(b@, ex, ey),
{
    let bins: usize = b.hist.len();
    let x: Vec<T> = bin_centres(b.xmin, b.dx, bins);
    let y: Vec<T> = bin_centres(b.ymin, b.dy, bins);
    let mut rows: Vec<Vec<T>> = b.hist;
    let ghost before = rows_view(rows@);
    smooth_rows(&mut rows, b.sigma_y, ey.0, ey.1);
    proof {
        let view = rows_view(rows@);
        assert(view == smoothed_rows(before, b.sigma_y, ey));
        assert forall|i: int| 0 <= i < rows@.len() implies (#[trigger] rows@[i])@.len() == bins by {
            assert(rows@[i]@ == view[i]);
            assert(before[i].len() == bins);
        }
    }
    let smooth: Vec<Vec<T>> = smooth_columns(&rows, bins, b.sigma_x, ex.0, ex.1);
    normalize_2d(x, y, smooth, b.dx, b.dy)
}

/// The density of the points on a grid of `bins` by `bins` cells, estimated with Gaussian kernels
/// whose bandwidths come of Scott's factor, with one chunk of the points for each of `threads`
/// threads.
pub fn kde_deriche_2d_with_threads<T: Scalar, E: Fn(T) -> T, P: Fn(T, T) -> T>(
    x: &[T],
    y: &[T],
    bins: usize,
    exp: &E,
    pow: &P,
    threads: usize,
) -> (r: Result<KdeGrid2d<T>, KdeError<T>>)
    requires
        threads >= 1,
        request_error_2d(x@, y@, bins) is None ==> x@.len() == y@.len() && bins * bins
            <= usize::MAX,
        forall|a: T| #[trigger] exp.requires((a,)),
        forall|a: T, b: T| #[trigger] pow.requires((a, b)),
    ensures
        is_estimate_2d_on(grid_result_2d(r), x@, y@, bins, *exp, *pow, threads),
{
    match check_request_2d(x, y, bins) {
        Some(e) => {
            return Err(e);
        },
        None => {},
    }
    let f: T = scotts_factor(x, pow);
    match prepare_2d(x, y, bins, f, threads) {
        Err(e) => Err(e),
        Ok(b) => {
            let ex: (T, T) = filter_exponentials(b.sigma_x, exp);
            let ey: (T, T) = filter_exponentials(b.sigma_y, exp);
            finish_2d(b, ex, ey)
        },
    }
}

/// The density of the points on a grid of `bins` by `bins` cells, estimated with Gaussian kernels
/// whose bandwidths come of Scott's factor.
///
/// Each axis has its own bandwidth, and the grid reaches half of it beyond the points on each side.
/// The histogram is computed on the current thread pool, and how many threads that has depends on
/// the machine.
pub fn kde_deriche_2d<T: Scalar, E: Fn(T) -> T, P: Fn(T, T) -> T>(
    x: &[T],
    y: &[T],
    bins: usize,
    exp: &E,
    pow: &P,
) -> (r: Result<KdeGrid2d<T>, KdeError<T>>)
    requires
        request_error_2d(x@, y@, bins) is None ==> x@.len() == y@.len() && bins * bins
            <= usize::MAX,
        forall|a: T| #[trigger] exp.requires((a,)),
        forall|a: T, b: T| #[trigger] pow.requires((a, b)),
    ensures
        exists|threads: usize|
            threads >= 1 && #[trigger] is_estimate_2d_on(
                grid_result_2d(r),
                x@,
                y@,
                bins,
                *exp,
                *pow,
                threads,
            ),
{
    let threads: usize = current_num_threads();
    kde_deriche_2d_with_threads(x, y, bins, exp, pow, threads)
}

} // verus!
