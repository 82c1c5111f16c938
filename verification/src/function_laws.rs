//! What the functions of the library promise, as laws about any result that a call may return.
use vstd::prelude::*;

use crate::binning_2d::rows_view;
use crate::deriche::{
    deriche_recursive_filter_approx, filter_with_poles, is_fourth_order_result, smoothed,
};
use crate::error::KdeError;
use crate::kde::{
    finish, finished, is_estimate_on, kde_deriche, kde_deriche_with_threads, kde_mode_deriche,
    kde_mode_deriche_with_threads, mode_of, prepare, prepared, BinnedData, BinnedRange, KdeGrid,
    Prepared, Stage,
};
use crate::kde_2d::{
    finish_2d, finished_2d, grid_result_2d, is_estimate_2d_on, kde_deriche_2d,
    kde_deriche_2d_with_threads, prepare_2d, prepared_2d, BinnedFrame, BinnedPoints, KdeGrid2d,
};
use crate::scalar::{Arith, Scalar};
use crate::second_order::{
    deriche_recursive_filter_2nd_order_approx, filter_with_exponentials, is_second_order_result,
    second_order_smoothed,
};
use crate::table::{
    axes, is_table_estimate_on, kde_deriche_2d_of_table, kde_deriche_2d_of_table_with_threads,
    split_axes, table_layout, Layout,
};

verus! {

/// The grid and the density of a computed result, or why there are none.
pub open spec fn computed<T>(r: Result<KdeGrid<T>, KdeError<T>>) -> Result<
    (Seq<T>, Seq<T>),
    KdeError<T>,
> {
    match r {
        Ok(g) => Ok((g.x@, g.pdf@)),
        Err(e) => Err(e),
    }
}

/// The contents of rows of numbers.
pub open spec fn contents<T>(rows: Seq<Vec<T>>) -> Seq<Seq<T>> {
    rows.map_values(|row: Vec<T>| row@)
}

/// The grid and the density of a computed result in two dimensions, or why there are none.
pub open spec fn computed_2d<T>(r: Result<KdeGrid2d<T>, KdeError<T>>) -> Result<
    (Seq<T>, Seq<T>, Seq<Seq<T>>),
    KdeError<T>,
> {
    match r {
        Ok(g) => Ok((g.x@, g.y@, contents(g.pdf@))),
        Err(e) => Err(e),
    }
}

/// A call for an estimate on a given number of threads returns that estimate.
pub proof fn law_call_on_threads<T: Scalar, E: Fn(T) -> T, C: Fn(T) -> T, S: Fn(T) -> T>(
    data: &[T],
    bins: usize,
    sigma: T,
    pi: T,
    exp: &E,
    cos: &C,
    sin: &S,
    threads: usize,
    r: Result<KdeGrid<T>, KdeError<T>>,
)
    requires
        call_ensures(
            kde_deriche_with_threads::<T, E, C, S>,
            (data, bins, sigma, pi, exp, cos, sin, threads),
            r,
        ),
    ensures
        is_estimate_on(computed(r), data@, bins, sigma, pi, *exp, *cos, *sin, threads),
{
}

/// A call for an estimate returns an estimate on some number of threads.
pub proof fn law_call<T: Scalar, E: Fn(T) -> T, C: Fn(T) -> T, S: Fn(T) -> T>(
    data: &[T],
    bins: usize,
    sigma: T,
    pi: T,
    exp: &E,
    cos: &C,
    sin: &S,
    r: Result<KdeGrid<T>, KdeError<T>>,
)
    requires
        call_ensures(kde_deriche::<T, E, C, S>, (data, bins, sigma, pi, exp, cos, sin), r),
    ensures
        exists|threads: usize|
            threads >= 1 && #[trigger] is_estimate_on(
                computed(r),
                data@,
                bins,
                sigma,
                pi,
                *exp,
                *cos,
                *sin,
                threads,
            ),
{
}

/// A call for the mode on a given number of threads returns the mode of that estimate.
pub proof fn law_mode_call_on_threads<T: Scalar, E: Fn(T) -> T, C: Fn(T) -> T, S: Fn(T) -> T>(
    data: &[T],
    bins: usize,
    sigma: T,
    pi: T,
    exp: &E,
    cos: &C,
    sin: &S,
    threads: usize,
    r: Result<T, KdeError<T>>,
)
    requires
        call_ensures(
            kde_mode_deriche_with_threads::<T, E, C, S>,
            (data, bins, sigma, pi, exp, cos, sin, threads),
            r,
        ),
    ensures
        exists|g: Result<(Seq<T>, Seq<T>), KdeError<T>>| #[trigger]
            is_estimate_on(g, data@, bins, sigma, pi, *exp, *cos, *sin, threads) && r == mode_of(
                g,
            ),
{
}

/// A call for the mode returns the mode of an estimate on some number of threads.
pub proof fn law_mode_call<T: Scalar, E: Fn(T) -> T, C: Fn(T) -> T, S: Fn(T) -> T>(
    data: &[T],
    bins: usize,
    sigma: T,
    pi: T,
    exp: &E,
    cos: &C,
    sin: &S,
    r: Result<T, KdeError<T>>,
)
    requires
        call_ensures(kde_mode_deriche::<T, E, C, S>, (data, bins, sigma, pi, exp, cos, sin), r),
    ensures
        exists|g: Result<(Seq<T>, Seq<T>), KdeError<T>>, threads: usize|
            threads >= 1 && #[trigger] is_estimate_on(
                g,
                data@,
                bins,
                sigma,
                pi,
                *exp,
                *cos,
                *sin,
                threads,
            ) && r == mode_of(g),
{
}

/// A call for an estimate of points on a given number of threads returns that estimate.
pub proof fn law_call_2d_on_threads<T: Scalar, E: Fn(T) -> T, P: Fn(T, T) -> T>(
    x: &[T],
    y: &[T],
    bins: usize,
    exp: &E,
    pow: &P,
    threads: usize,
    r: Result<KdeGrid2d<T>, KdeError<T>>,
)
    requires
        call_ensures(kde_deriche_2d_with_threads::<T, E, P>, (x, y, bins, exp, pow, threads), r),
    ensures
        is_estimate_2d_on(computed_2d(r), x@, y@, bins, *exp, *pow, threads),
{
    lemma_rows(r);
}

/// Both ways to look at a computed result show the same.
pub proof fn lemma_rows<T>(r: Result<KdeGrid2d<T>, KdeError<T>>)
    ensures
        grid_result_2d(r) == computed_2d(r),
{
    match r {
        Ok(g) => {
            assert(rows_view(g.pdf@) =~= contents(g.pdf@));
        },
        Err(_) => {},
    }
}

/// A call for an estimate of points returns an estimate on some number of threads.
pub proof fn law_call_2d<T: Scalar, E: Fn(T) -> T, P: Fn(T, T) -> T>(
    x: &[T],
    y: &[T],
    bins: usize,
    exp: &E,
    pow: &P,
    r: Result<KdeGrid2d<T>, KdeError<T>>,
)
    requires
        call_ensures(kde_deriche_2d::<T, E, P>, (x, y, bins, exp, pow), r),
    ensures
        exists|threads: usize|
            threads >= 1 && #[trigger] is_estimate_2d_on(
                computed_2d(r),
                x@,
                y@,
                bins,
                *exp,
                *pow,
                threads,
            ),
{
    lemma_rows(r);
}

/// Whether `x` and `y` are the axes of a table, whose entries `flat` holds row by row: the two rows,
/// where there are two, or else the two columns.
pub open spec fn are_axes<T>(flat: Seq<T>, rows: usize, cols: usize, x: Seq<T>, y: Seq<T>) -> bool {
    if rows == 2 {
        &&& x.len() == cols
        &&& y.len() == cols
        &&& forall|j: int| 0 <= j < cols ==> #[trigger] x[j] == flat[j]
        &&& forall|j: int| 0 <= j < cols ==> #[trigger] y[j] == flat[cols + j]
    } else {
        &&& cols == 2
        &&& x.len() == rows
        &&& y.len() == rows
        &&& forall|i: int| 0 <= i < rows ==> #[trigger] x[i] == flat[2 * i]
        &&& forall|i: int| 0 <= i < rows ==> #[trigger] y[i] == flat[2 * i + 1]
    }
}

/// The axes of a table are found, and a table with neither two rows nor two columns is refused.
pub proof fn law_axes<T>(flat: Seq<T>, rows: usize, cols: usize)
    ensures
        match axes(flat, rows, cols) {
            Ok((x, y)) => are_axes(flat, rows, cols, x, y),
            Err(e) => rows != 2 && cols != 2 && e == KdeError::<T>::NotTwoAxes,
        },
        rows != 2 && cols != 2 ==> axes(flat, rows, cols) is Err,
{
    let shape = seq![rows, cols];
    assert(shape[0] == rows && shape[1] == cols);
}

/// A call on a table on a given number of threads returns that estimate of the points along its axes,
/// or refuses the table if it has none.
pub proof fn law_table_call_on_threads<T: Scalar, E: Fn(T) -> T, P: Fn(T, T) -> T>(
    flat: &[T],
    rows: usize,
    cols: usize,
    bins: usize,
    exp: &E,
    pow: &P,
    threads: usize,
    r: Result<KdeGrid2d<T>, KdeError<T>>,
)
    requires
        call_ensures(
            kde_deriche_2d_of_table_with_threads::<T, E, P>,
            (flat, rows, cols, bins, exp, pow, threads),
            r,
        ),
    ensures
        rows != 2 && cols != 2 ==> r == Err::<KdeGrid2d<T>, KdeError<T>>(KdeError::NotTwoAxes),
        rows == 2 || cols == 2 ==> exists|x: Seq<T>, y: Seq<T>|
            are_axes(flat@, rows, cols, x, y) && #[trigger] is_estimate_2d_on(
                computed_2d(r),
                x,
                y,
                bins,
                *exp,
                *pow,
                threads,
            ),
{
    lemma_rows(r);
    law_axes(flat@, rows, cols);
    match axes(flat@, rows, cols) {
        Ok((x, y)) => {
            assert(is_estimate_2d_on(computed_2d(r), x, y, bins, *exp, *pow, threads));
        },
        Err(_) => {},
    }
}

/// A call on a table returns an estimate of the points along its axes on some number of threads, or
/// refuses the table if it has none.
pub proof fn law_table_call<T: Scalar, E: Fn(T) -> T, P: Fn(T, T) -> T>(
    flat: &[T],
    rows: usize,
    cols: usize,
    bins: usize,
    exp: &E,
    pow: &P,
    r: Result<KdeGrid2d<T>, KdeError<T>>,
)
    requires
        call_ensures(
            kde_deriche_2d_of_table::<T, E, P>,
            (flat, rows, cols, bins, exp, pow),
            r,
        ),
    ensures
        rows != 2 && cols != 2 ==> r == Err::<KdeGrid2d<T>, KdeError<T>>(KdeError::NotTwoAxes),
        rows == 2 || cols == 2 ==> exists|x: Seq<T>, y: Seq<T>, threads: usize|
            threads >= 1 && are_axes(flat@, rows, cols, x, y) && #[trigger] is_estimate_2d_on(
                computed_2d(r),
                x,
                y,
                bins,
                *exp,
                *pow,
                threads,
            ),
{
    lemma_rows(r);
    law_axes(flat@, rows, cols);
    let threads = choose|threads: usize|
        threads >= 1 && #[trigger] is_table_estimate_on(
            grid_result_2d(r),
            flat@,
            rows,
            cols,
            bins,
            *exp,
            *pow,
            threads,
        );
    match axes(flat@, rows, cols) {
        Ok((x, y)) => {
            assert(is_estimate_2d_on(computed_2d(r), x, y, bins, *exp, *pow, threads));
        },
        Err(_) => {},
    }
}

/// A table is split into its axes, or refused if it has none.
pub proof fn law_split_call<T: Copy>(
    flat: &[T],
    rows: usize,
    cols: usize,
    r: Result<(Vec<T>, Vec<T>), KdeError<T>>,
)
    requires
        call_ensures(split_axes::<T>, (flat, rows, cols), r),
    ensures
        match r {
            Ok((x, y)) => are_axes(flat@, rows, cols, x@, y@),
            Err(e) => rows != 2 && cols != 2 && e == KdeError::<T>::NotTwoAxes,
        },
        rows != 2 && cols != 2 ==> r is Err,
{
    law_axes(flat@, rows, cols);
}

/// How a table holds the points is told from its shape.
pub proof fn law_layout_call<T>(shape: &[usize], r: Result<Layout, KdeError<T>>)
    requires
        call_ensures(table_layout::<T>, (shape,), r),
    ensures
        match r {
            Ok(Layout::Rows) => shape@.len() == 2 && shape@[0] == 2,
            Ok(Layout::Columns) => shape@.len() == 2 && shape@[0] != 2 && shape@[1]
                == 2,
            Err(KdeError::NotATable) => shape@.len() != 2,
            Err(KdeError::NotTwoAxes) => shape@.len() == 2 && shape@[0] != 2 && shape@[1] != 2,
            Err(_) => false,
        },
{
}

/// The filter of the fourth order leaves the signal smoothed.
pub proof fn law_filter_call<T: Scalar, E: Fn(T) -> T, C: Fn(T) -> T, S: Fn(T) -> T>(
    sigma: T,
    pi: T,
    exp: &E,
    cos: &C,
    sin: &S,
)
    ensures
        forall|signal: &mut [T]| #[trigger]
            call_ensures(
                deriche_recursive_filter_approx::<T, E, C, S>,
                (signal, sigma, pi, exp, cos, sin),
                (),
            ) ==> is_fourth_order_result(
                (*final(signal))@,
                (*signal)@,
                sigma,
                pi,
                *exp,
                *cos,
                *sin,
            ),
{
}

/// The filter with given poles leaves the signal smoothed with them.
pub proof fn law_filter_with_poles_call<T: Scalar>(sigma: T, pi: T, poles: &Vec<(T, T)>)
    ensures
        forall|signal: &mut [T]| #[trigger]
            call_ensures(filter_with_poles::<T>, (signal, sigma, pi, poles), ())
                ==> (*final(signal))@ == smoothed((*signal)@, sigma, pi, poles@),
{
}

/// The filter of the second order leaves the signal smoothed.
pub proof fn law_second_order_call<T: Scalar, E: Fn(T) -> T>(sigma: T, exp: &E)
    ensures
        forall|signal: &mut [T]| #[trigger]
            call_ensures(
                deriche_recursive_filter_2nd_order_approx::<T, E>,
                (signal, sigma, exp),
                (),
            ) ==> is_second_order_result((*final(signal))@, (*signal)@, sigma, *exp),
{
}

/// The filter with given exponentials leaves the signal smoothed with them.
pub proof fn law_second_order_with_exponentials_call<T: Scalar>(sigma: T, ea: T, e2a: T)
    ensures
        forall|signal: &mut [T]| #[trigger]
            call_ensures(filter_with_exponentials::<T>, (signal, sigma, ea, e2a), ())
                ==> (*final(signal))@ == second_order_smoothed((*signal)@, sigma, ea, e2a),
{
}

/// What comes before the smoothing is told as it is: why the estimate is refused, the density, or the
/// histogram with the lower end of the range, the width of the bins and the bandwidth in bins.
pub proof fn law_prepare_call<T: Scalar>(
    data: &[T],
    bins: usize,
    sigma: T,
    threads: usize,
    r: Result<Prepared<T>, KdeError<T>>,
)
    requires
        call_ensures(prepare::<T>, (data, bins, sigma, threads), r),
    ensures
        prepared(data@, bins, sigma, threads) == match r {
            Ok(Prepared::Finished(g)) => Ok::<Stage<T>, KdeError<T>>(
                Stage::Finished((g.x@, g.pdf@)),
            ),
            Ok(Prepared::Binned(b)) => Ok::<Stage<T>, KdeError<T>>(
                Stage::Binned(
                    BinnedRange { xmin: b.xmin, dx: b.dx, sigma: b.sigma, hist: b.hist@ },
                ),
            ),
            Err(e) => Err::<Stage<T>, KdeError<T>>(e),
        },
{
}

/// What comes of a histogram is told as it is.
pub proof fn law_finish_call<T: Scalar>(
    b: BinnedData<T>,
    pi: T,
    poles: &Vec<(T, T)>,
    r: Result<KdeGrid<T>, KdeError<T>>,
)
    requires
        call_ensures(finish::<T>, (b, pi, poles), r),
    ensures
        computed(r) == finished(
            (BinnedRange { xmin: b.xmin, dx: b.dx, sigma: b.sigma, hist: b.hist@ }),
            pi,
            poles@,
        ),
{
}

/// What comes before the smoothing of points is told as it is.
pub proof fn law_prepare_2d_call<T: Scalar>(
    x: &[T],
    y: &[T],
    bins: usize,
    f: T,
    threads: usize,
    r: Result<BinnedPoints<T>, KdeError<T>>,
)
    requires
        call_ensures(prepare_2d::<T>, (x, y, bins, f, threads), r),
    ensures
        prepared_2d(x@, y@, bins, f, threads) == match r {
            Ok(b) => Ok::<BinnedFrame<T>, KdeError<T>>(
                BinnedFrame {
                    xmin: b.xmin,
                    ymin: b.ymin,
                    dx: b.dx,
                    dy: b.dy,
                    sigma_x: b.sigma_x,
                    sigma_y: b.sigma_y,
                    hist: contents(b.hist@),
                },
            ),
            Err(e) => Err::<BinnedFrame<T>, KdeError<T>>(e),
        },
{
    match r {
        Ok(b) => {
            assert(rows_view(b.hist@) =~= contents(b.hist@));
        },
        Err(_) => {},
    }
}

/// What comes of the histogram of points is told as it is.
pub proof fn law_finish_2d_call<T: Scalar>(
    b: BinnedPoints<T>,
    ex: (T, T),
    ey: (T, T),
    r: Result<KdeGrid2d<T>, KdeError<T>>,
)
    requires
        call_ensures(finish_2d::<T>, (b, ex, ey), r),
    ensures
        computed_2d(r) == finished_2d(
            (BinnedFrame {
                xmin: b.xmin,
                ymin: b.ymin,
                dx: b.dx,
                dy: b.dy,
                sigma_x: b.sigma_x,
                sigma_y: b.sigma_y,
                hist: contents(b.hist@),
            }),
            ex,
            ey,
        ),
{
    lemma_rows(r);
    assert(rows_view(b.hist@) =~= contents(b.hist@));
}

} // verus!
