//! On which inputs the functions may be called.
use vstd::prelude::*;

use crate::binning::{linear_binning, linear_binning_with_threads};
use crate::binning_2d::linear_binning_2d;
use crate::deriche::{deriche_coefficients, deriche_recursive_filter_approx};
use crate::kde::{
    check_request, data_range, find_mode, kde_deriche, kde_deriche_with_threads, kde_mode_deriche,
    kde_mode_deriche_with_threads,
};
use crate::kde_2d::{kde_deriche_2d, kde_deriche_2d_with_threads};
use crate::matrix::{
    bandwidth_matrix, covariance_2d, decompose_by_axis, decompose_matrix, det,
    matrix_multiplication, matrix_sqrt, mean, scotts_factor, Matrix2,
};
use crate::scalar::Scalar;
use crate::second_order::deriche_recursive_filter_2nd_order_approx;
use crate::table::{kde_deriche_2d_of_table, split_axes, table_layout};

verus! {

/// An estimate, and its mode, may be asked for of any data, for any number of bins and any bandwidth.
pub proof fn law_estimates_may_be_called<T: Scalar, E: Fn(T) -> T, C: Fn(T) -> T, S: Fn(T) -> T>(
    data: &[T],
    bins: usize,
    sigma: T,
    pi: T,
    exp: &E,
    cos: &C,
    sin: &S,
    threads: usize,
)
    requires
        forall|x: T| #[trigger] exp.requires((x,)),
        forall|x: T| #[trigger] cos.requires((x,)),
        forall|x: T| #[trigger] sin.requires((x,)),
        threads >= 1,
    ensures
        call_requires(kde_deriche::<T, E, C, S>, (data, bins, sigma, pi, exp, cos, sin)),
        call_requires(kde_mode_deriche::<T, E, C, S>, (data, bins, sigma, pi, exp, cos, sin)),
        call_requires(
            kde_deriche_with_threads::<T, E, C, S>,
            (data, bins, sigma, pi, exp, cos, sin, threads),
        ),
        call_requires(
            kde_mode_deriche_with_threads::<T, E, C, S>,
            (data, bins, sigma, pi, exp, cos, sin, threads),
        ),
        call_requires(check_request::<T>, (data, bins, sigma)),
        call_requires(deriche_coefficients::<T, E, C, S>, (sigma, pi, exp, cos, sin)),
        forall|signal: &mut [T]| #[trigger]
            call_requires(
                deriche_recursive_filter_approx::<T, E, C, S>,
                (signal, sigma, pi, exp, cos, sin),
            ),
        forall|signal: &mut [T]| #[trigger]
            call_requires(
                deriche_recursive_filter_2nd_order_approx::<T, E>,
                (signal, sigma, exp),
            ),
{
}

/// An estimate of points may be asked for of as many numbers along one axis as along the other, for
/// any number of bins whose square is a `usize`; of a table of any shape; and with too few points or
/// no bins it may be asked for, whatever else holds.
pub proof fn law_estimates_2d_may_be_called<T: Scalar, E: Fn(T) -> T, P: Fn(T, T) -> T>(
    x: &[T],
    y: &[T],
    flat: &[T],
    rows: usize,
    cols: usize,
    bins: usize,
    exp: &E,
    pow: &P,
    threads: usize,
)
    requires
        forall|a: T| #[trigger] exp.requires((a,)),
        forall|a: T, b: T| #[trigger] pow.requires((a, b)),
        threads >= 1,
    ensures
        x@.len() < 3 || y@.len() < 3 || bins == 0 || (x@.len() == y@.len() && bins * bins
            <= usize::MAX) ==> {
            &&& call_requires(kde_deriche_2d::<T, E, P>, (x, y, bins, exp, pow))
            &&& call_requires(
                kde_deriche_2d_with_threads::<T, E, P>,
                (x, y, bins, exp, pow, threads),
            )
        },
        flat@.len() == rows * cols && bins * bins <= usize::MAX ==> call_requires(
            kde_deriche_2d_of_table::<T, E, P>,
            (flat, rows, cols, bins, exp, pow),
        ),
        flat@.len() == rows * cols ==> call_requires(split_axes::<T>, (flat, rows, cols)),
        x@.len() == y@.len() ==> call_requires(bandwidth_matrix::<T, P>, (x, y, pow)),
        call_requires(scotts_factor::<T, P>, (x, pow)),
{
}

/// Data may be binned over any range, and points over any frame whose cells are as many as a `usize`
/// can count.
pub proof fn law_binning_may_be_called<T: Scalar>(
    x: &[T],
    y: &[T],
    xmin: T,
    xmax: T,
    ymin: T,
    ymax: T,
    xbins: usize,
    ybins: usize,
    threads: usize,
)
    requires
        threads >= 1,
    ensures
        call_requires(linear_binning::<T>, (x, xmin, xmax, xbins)),
        call_requires(linear_binning_with_threads::<T>, (x, xmin, xmax, xbins, threads)),
        x@.len() == y@.len() && xbins * ybins <= usize::MAX ==> call_requires(
            linear_binning_2d::<T>,
            (x, y, xmin, xmax, ymin, ymax, xbins, ybins),
        ),
{
}

/// Moments may be taken of any data, of as many numbers along one axis as along the other, and
/// matrices may hold any numbers.
pub proof fn law_moments_may_be_called<T: Scalar>(
    x: &[T],
    y: &[T],
    population: bool,
    a: &Matrix2<T>,
    b: &Matrix2<T>,
    grid: &Vec<T>,
    pdf: &Vec<T>,
    shape: &[usize],
)
    ensures
        call_requires(mean::<T>, (x,)),
        x@.len() == y@.len() ==> call_requires(covariance_2d::<T>, (x, y, population)),
        call_requires(det::<T>, (a,)),
        call_requires(matrix_multiplication::<T>, (a, b)),
        call_requires(matrix_sqrt::<T>, (a,)),
        call_requires(decompose_matrix::<T>, (a,)),
        call_requires(decompose_by_axis::<T>, (a,)),
        call_requires(find_mode::<T>, (grid, pdf)),
        x@.len() >= 1 ==> call_requires(data_range::<T>, (x,)),
        call_requires(table_layout::<T>, (shape,)),
{
}

} // verus!
