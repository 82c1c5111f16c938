//! What the parts of the estimators promise, as laws about any result that a call may return.
use vstd::prelude::*;

use crate::binning::zero_vec;
use crate::binning_2d::{rows_view, zero_row_vec};
use crate::chunk_laws::law_chunk_count;
use crate::deriche::{
    apply_two_pass, are_poles, cmul, coefficients_of_poles, deriche_coefficients, filter_poles,
    is_fourth_order_result, is_pole, pole, smoothed, two_pass, Coefficients,
};
use crate::error::KdeError;
use crate::function_laws::{computed, computed_2d, contents, lemma_rows};
use crate::kde::{bin_centres, check_request, normalize, normalized, request_error, KdeGrid};
use crate::kde_2d::{check_request_2d, normalize_2d, normalized_2d, request_error_2d, KdeGrid2d};
use crate::matrix::{
    axis_eigenvalues, bandwidth, bandwidth_matrix, decompose_by_axis, decompose_matrix, eigenvalues,
    eigenvectors, matrix_sqrt, scotts_factor, Matrix2,
};
use crate::parallel::ceil_div;
use crate::scalar::{absolute, is_negligible, negligible, total_of, Arith, Scalar};
use crate::second_order::{
    apply_second_order, are_exponentials, filter_exponentials, filtered, second_order_coefficients,
    second_order_smoothed, SecondOrder,
};

verus! {

/// The coefficients of the filter make it smooth: where the deviation does not count as zero, the two
/// passes with them give the signal smoothed with the deviation.
pub proof fn law_coefficients_call<T: Scalar, E: Fn(T) -> T, C: Fn(T) -> T, S: Fn(T) -> T>(
    sigma: T,
    pi: T,
    exp: &E,
    cos: &C,
    sin: &S,
    c: Coefficients<T>,
    x: Seq<T>,
)
    requires
        call_ensures(deriche_coefficients::<T, E, C, S>, (sigma, pi, exp, cos, sin), c),
        !negligible(sigma),
        x.len() > 0,
    ensures
        is_fourth_order_result(
            two_pass(x, c.b_plus@, c.b_minus@, c.a@),
            x,
            sigma,
            pi,
            *exp,
            *cos,
            *sin,
        ),
        c.b_plus@.len() == 4 && c.b_minus@.len() == 5 && c.a@.len() == 4,
{
}

/// The coefficients for given poles make the filter smooth with them.
pub proof fn law_coefficients_of_poles_call<T: Scalar>(
    poles: &Vec<(T, T)>,
    sigma: T,
    pi: T,
    c: Coefficients<T>,
    x: Seq<T>,
)
    requires
        call_ensures(coefficients_of_poles::<T>, (poles, sigma, pi), c),
        !negligible(sigma),
    ensures
        two_pass(x, c.b_plus@, c.b_minus@, c.a@) == smoothed(x, sigma, pi, poles@),
{
}

/// The two passes with given coefficients replace the signal.
pub proof fn law_two_pass_call<T: Scalar>(c: &Coefficients<T>)
    ensures
        forall|signal: &mut [T]| #[trigger]
            call_ensures(apply_two_pass::<T>, (signal, c), ()) ==> (*final(signal))@ == two_pass(
                (*signal)@,
                c.b_plus@,
                c.b_minus@,
                c.a@,
            ),
{
}

/// The poles of the filter have the rates of the four exponentials.
pub proof fn law_poles_call<T: Scalar, E: Fn(T) -> T, C: Fn(T) -> T, S: Fn(T) -> T>(
    sigma: T,
    exp: &E,
    cos: &C,
    sin: &S,
    r: Vec<(T, T)>,
)
    requires
        call_ensures(filter_poles::<T, E, C, S>, (sigma, exp, cos, sin), r),
    ensures
        are_poles(r@, sigma, *exp, *cos, *sin),
{
}

/// A pole is the exponential of the opposite of its rate over the deviation: what `exp` gives for the
/// real part, times what `cos` and `sin` give for the imaginary part.
pub proof fn law_pole_call<T: Scalar, E: Fn(T) -> T, C: Fn(T) -> T, S: Fn(T) -> T>(
    re: T,
    im: T,
    sigma: T,
    exp: &E,
    cos: &C,
    sin: &S,
    r: (T, T),
)
    requires
        call_ensures(pole::<T, E, C, S>, (re, im, sigma, exp, cos, sin), r),
    ensures
        exists|m: T, c: T, s: T|
            {
                &&& #[trigger] exp.ensures((re.negated().over(sigma),), m)
                &&& #[trigger] cos.ensures((im.negated().over(sigma),), c)
                &&& #[trigger] sin.ensures((im.negated().over(sigma),), s)
                &&& r.0 == m.times(c)
                &&& r.1 == m.times(s)
            },
{
    let (m, c, s) = choose|m: T, c: T, s: T|
        {
            &&& #[trigger] exp.ensures((re.negated().over(sigma),), m)
            &&& #[trigger] cos.ensures((im.negated().over(sigma),), c)
            &&& #[trigger] sin.ensures((im.negated().over(sigma),), s)
            &&& r == (m.times(c), m.times(s))
        };
    assert(is_pole(r, (re, im), sigma, *exp, *cos, *sin));
    assert(exp.ensures((re.negated().over(sigma),), m));
    assert(cos.ensures((im.negated().over(sigma),), c));
    assert(sin.ensures((im.negated().over(sigma),), s));
}

/// The product of complex numbers.
pub proof fn law_complex_product_call<T: Scalar>(a: (T, T), b: (T, T), r: (T, T))
    requires
        call_ensures(cmul::<T>, (a, b), r),
    ensures
        r.0 == a.0.times(b.0).minus(a.1.times(b.1)),
        r.1 == a.0.times(b.1).plus(a.1.times(b.0)),
{
}

/// The coefficients of the second order make the filter smooth: where the deviation does not count as
/// zero, the two passes with those for the decay of `1.695` deviations give the smoothed signal.
pub proof fn law_second_order_coefficients_call<T: Scalar>(
    sigma: T,
    ea: T,
    e2a: T,
    c: SecondOrder<T>,
    x: Seq<T>,
)
    requires
        call_ensures(
            second_order_coefficients::<T>,
            (T::ratio(1695, 1000).over(sigma), ea, e2a),
            c,
        ),
        !negligible(sigma),
    ensures
        filtered(x, c) == second_order_smoothed(x, sigma, ea, e2a),
{
}

/// The exponentials of the filter of the second order are those of once and twice the decay.
pub proof fn law_exponentials_call<T: Scalar, E: Fn(T) -> T>(sigma: T, exp: &E, r: (T, T))
    requires
        call_ensures(filter_exponentials::<T, E>, (sigma, exp), r),
    ensures
        are_exponentials(r.0, r.1, sigma, *exp),
        exp.ensures((T::ratio(1695, 1000).over(sigma).negated(),), r.0),
        exp.ensures((T::whole(2).negated().times(T::ratio(1695, 1000).over(sigma)),), r.1),
{
}

/// The two passes of the second order with given coefficients replace the signal.
pub proof fn law_second_order_passes_call<T: Scalar>(c: &SecondOrder<T>)
    ensures
        forall|signal: &mut [T]| #[trigger]
            call_ensures(apply_second_order::<T>, (signal, c), ()) ==> (*final(signal))@
                == filtered((*signal)@, *c),
{
}

/// Scott's factor is the number of points to the power of minus one over six.
pub proof fn law_scotts_factor_call<T: Scalar, P: Fn(T, T) -> T>(x: &[T], pow: &P, r: T)
    requires
        call_ensures(scotts_factor::<T, P>, (x, pow), r),
    ensures
        pow.ensures(
            (
                T::whole(x@.len() as usize),
                T::whole(1).negated().over(T::whole(4).plus(T::whole(2))),
            ),
            r,
        ),
{
}

/// The bandwidth matrix is the one for Scott's factor.
pub proof fn law_bandwidth_matrix_call<T: Scalar, P: Fn(T, T) -> T>(
    x: &[T],
    y: &[T],
    pow: &P,
    r: Matrix2<T>,
)
    requires
        call_ensures(bandwidth_matrix::<T, P>, (x, y, pow), r),
    ensures
        exists|f: T| #[trigger]
            pow.ensures(
                (
                    T::whole(x@.len() as usize),
                    T::whole(1).negated().over(T::whole(4).plus(T::whole(2))),
                ),
                f,
            ) && r == bandwidth(x@, y@, f),
{
}

/// A matrix is decomposed into its eigenvectors, its eigenvalues and the eigenvectors transposed.
pub proof fn law_decompose_call<T: Scalar>(
    m: &Matrix2<T>,
    r: (Matrix2<T>, Matrix2<T>, Matrix2<T>),
)
    requires
        call_ensures(decompose_matrix::<T>, (m,), r),
    ensures
        r.0 == eigenvectors(*m),
        r.1 == eigenvalues(*m),
        r.2.xx == r.0.xx && r.2.xy == r.0.yx && r.2.yx == r.0.xy && r.2.yy == r.0.yy,
{
}

/// The eigenvalues by axis are those of the matrix: the larger one belongs to the axis along which
/// the matrix is larger, and to the second axis where it is not larger along the first.
pub proof fn law_decompose_by_axis_call<T: Scalar>(m: &Matrix2<T>, r: (T, T))
    requires
        call_ensures(decompose_by_axis::<T>, (m,), r),
    ensures
        r == axis_eigenvalues(*m),
        m.yy.below(m.xx) ==> r.0 == eigenvalues(*m).yy && r.1 == eigenvalues(*m).xx,
        !m.yy.below(m.xx) ==> r.0 == eigenvalues(*m).xx && r.1 == eigenvalues(*m).yy,
{
}

/// The roots of the entries.
pub proof fn law_matrix_sqrt_call<T: Scalar>(m: &Matrix2<T>, r: Matrix2<T>)
    requires
        call_ensures(matrix_sqrt::<T>, (m,), r),
    ensures
        r.xx == m.xx.root(),
        r.xy == m.xy.root(),
        r.yx == m.yx.root(),
        r.yy == m.yy.root(),
{
}

/// The centres of the bins.
pub proof fn law_centres_call<T: Scalar>(xmin: T, dx: T, bins: usize, r: Vec<T>)
    requires
        call_ensures(bin_centres::<T>, (xmin, dx, bins), r),
    ensures
        r@.len() == bins,
        forall|i: int|
            0 <= i < bins ==> #[trigger] r@[i] == xmin.plus(
                T::whole(i as usize).plus(T::ratio(1, 2)).times(dx),
            ),
{
}

/// A histogram is brought to the integral one, or refused.
pub proof fn law_normalize_call<T: Scalar>(
    x: Vec<T>,
    hist: Vec<T>,
    dx: T,
    r: Result<KdeGrid<T>, KdeError<T>>,
)
    requires
        call_ensures(normalize::<T>, (x, hist, dx), r),
    ensures
        computed(r) == normalized(x@, hist@, dx),
{
}

/// A histogram of cells is brought to the integral one, or refused.
pub proof fn law_normalize_2d_call<T: Scalar>(
    x: Vec<T>,
    y: Vec<T>,
    rows: Vec<Vec<T>>,
    dx: T,
    dy: T,
    r: Result<KdeGrid2d<T>, KdeError<T>>,
)
    requires
        call_ensures(normalize_2d::<T>, (x, y, rows, dx, dy), r),
    ensures
        computed_2d(r) == normalized_2d(x@, y@, contents(rows@), dx, dy),
{
    lemma_rows(r);
    assert(rows_view(rows@) =~= contents(rows@));
}

/// A request is checked.
pub proof fn law_check_request_call<T: Scalar>(
    data: &[T],
    bins: usize,
    sigma: T,
    r: Option<KdeError<T>>,
)
    requires
        call_ensures(check_request::<T>, (data, bins, sigma), r),
    ensures
        r == request_error(data@, bins, sigma),
{
}

/// A request in two dimensions is checked.
pub proof fn law_check_request_2d_call<T>(x: &[T], y: &[T], bins: usize, r: Option<KdeError<T>>)
    requires
        call_ensures(check_request_2d::<T>, (x, y, bins), r),
    ensures
        r == request_error_2d(x@, y@, bins),
{
}

/// Zeros are zeros, as many as were asked for.
pub proof fn law_zeros_call<T: Scalar>(bins: usize, r: Vec<T>)
    requires
        call_ensures(zero_vec::<T>, (bins,), r),
    ensures
        r@.len() == bins,
        forall|i: int| 0 <= i < bins ==> #[trigger] r@[i] == T::whole(0),
{
}

/// Rows of zeros are rows of zeros, as many and as long as was asked for.
pub proof fn law_zero_rows_call<T: Scalar>(xbins: usize, ybins: usize, r: Vec<Vec<T>>)
    requires
        call_ensures(zero_row_vec::<T>, (xbins, ybins), r),
    ensures
        r@.len() == xbins,
        forall|i: int| 0 <= i < xbins ==> (#[trigger] r@[i])@.len() == ybins,
        forall|i: int, j: int|
            0 <= i < xbins && 0 <= j < ybins ==> #[trigger] r@[i]@[j] == T::whole(0),
{
    let v = rows_view(r@);
    assert(v.len() == xbins);
    assert forall|i: int| 0 <= i < xbins implies (#[trigger] r@[i])@.len() == ybins by {
        assert(v[i] == r@[i]@);
    }
    assert forall|i: int, j: int| 0 <= i < xbins && 0 <= j < ybins implies #[trigger] r@[i]@[j]
        == T::whole(0) by {
        assert(v[i] == r@[i]@);
        assert(v[i][j] == T::whole(0));
    }
}

/// The absolute value, and whether it is below a billionth.
pub proof fn law_size_calls<T: Scalar>(a: T, r: T, z: bool)
    requires
        call_ensures(absolute::<T>, (a,), r),
        call_ensures(is_negligible::<T>, (a,), z),
    ensures
        a.below(T::whole(0)) ==> r == a.negated(),
        !a.below(T::whole(0)) ==> r == a,
        z == r.below(T::ratio(1, 1_000_000_000)),
{
}

/// A sum with one more number is the sum and that number.
pub proof fn law_total_calls<T: Scalar>(s: &[T], more: &[T], v: T, r: T, q: T)
    requires
        call_ensures(total_of::<T>, (s,), r),
        call_ensures(total_of::<T>, (more,), q),
        more@ == s@.push(v),
    ensures
        q == r.plus(v),
{
    assert(more@.drop_last() =~= s@);
}

/// A quotient rounded up is the smallest number that, times the divisor, is not below the dividend.
pub proof fn law_ceil_div_call(n: usize, d: usize, r: usize)
    requires
        call_ensures(ceil_div, (n, d), r),
        d >= 1,
    ensures
        n <= r * d,
        n > 0 ==> (r - 1) * d < n,
        n == 0 ==> r == 0,
{
    law_chunk_count(n as nat, d as nat);
}

} // verus!
