//! What the estimators return, in exact arithmetic, as sums over the data.
use vstd::prelude::*;

use crate::deriche::{are_poles, smoothed};
use crate::eigen_laws::roots_exist;
use crate::error::KdeError;
use crate::hat_laws::{law_negligible, linear_share};
use crate::kde::{finished, is_estimate_on, prepared, BinnedRange, Stage};
use crate::kde_2d::{finished_2d, is_estimate_2d_for, is_estimate_2d_on, prepared_2d, BinnedFrame};
use crate::kernel_laws::{
    are_circular, computes, gap, gaussian_sum, is_exponential, law_smoothing_with_oscillations,
};
use crate::matrix::scott_exponent;
use crate::moment_laws::law_scott_exponent;
use crate::reals::{lemma_cancel, lemma_div_mul, lemma_div_order, lemma_product_sign};
use crate::request_2d_laws::{
    are_bandwidths, has_kernel, is_density_2d, is_padded_histogram, law_finished_2d,
    law_preparation_2d, law_request_2d,
};
use crate::request_laws::{is_range, law_finished, law_preparation, law_request};
use crate::scalar::{negligible, Arith};
use crate::second_order::are_exponentials;
use crate::sums::{lemma_sum_same, sum_to};

verus! {

/// What is refused, and why, whatever the arithmetic: an estimate of fewer than four samples, without
/// bins, of samples that are not finite, or with a bandwidth below zero, in this order.
pub proof fn law_refusals<T: Arith, E: Fn(T) -> T, C: Fn(T) -> T, S: Fn(T) -> T>(
    r: Result<(Seq<T>, Seq<T>), KdeError<T>>,
    data: Seq<T>,
    bins: usize,
    sigma: T,
    pi: T,
    exp: E,
    cos: C,
    sin: S,
    threads: usize,
)
    requires
        data.len() <= usize::MAX,
        is_estimate_on(r, data, bins, sigma, pi, exp, cos, sin, threads),
    ensures
        ({
            let all_finite = forall|i: int| 0 <= i < data.len() ==> (#[trigger] data[i]).finite();
            &&& data.len() < 4 ==> r == Err::<(Seq<T>, Seq<T>), KdeError<T>>(
                KdeError::TooFewSamples,
            )
            &&& data.len() >= 4 && bins == 0 ==> r == Err::<(Seq<T>, Seq<T>), KdeError<T>>(
                KdeError::NoBins,
            )
            &&& data.len() >= 4 && bins > 0 && !all_finite ==> r == Err::<
                (Seq<T>, Seq<T>),
                KdeError<T>,
            >(KdeError::NonFinite(data.filter(|v: T| !v.finite()).len() as usize))
            &&& data.len() >= 4 && bins > 0 && all_finite && sigma.below(T::whole(0)) ==> r == Err::<
                (Seq<T>, Seq<T>),
                KdeError<T>,
            >(KdeError::NegativeSigma)
        }),
{
    law_request(data, bins, sigma);
}

/// What is in the bin `i` before it is smoothed.
pub open spec fn bin_weight(data: Seq<real>, lo: real, hi: real, bins: usize, i: int) -> real {
    sum_to(data.len(), |j: int| linear_share(data[j], lo, hi, bins as int, i))
}

/// What is in the bin `i` after smoothing with the deviation `d`, counted in bins: the sum over all
/// bins of their weights times the sum of damped oscillations at their distance, or the weight of the
/// bin where the deviation counts as zero.
pub open spec fn smooth_weight(
    data: Seq<real>,
    lo: real,
    hi: real,
    bins: usize,
    d: real,
    root: real,
    e: spec_fn(real) -> real,
    c: spec_fn(real) -> real,
    s: spec_fn(real) -> real,
    i: int,
) -> real {
    if d < 1real / 1000000000real {
        bin_weight(data, lo, hi, bins, i)
    } else {
        sum_to(
            bins as nat,
            |k: int|
                gaussian_sum(e, c, s, gap(i, k) / d) * bin_weight(data, lo, hi, bins, k),
        ) / (root * d)
    }
}

/// Whether `x` and `pdf` are the grid and the density of data at one place: all of it in the middle
/// bin.
pub open spec fn is_density_at_one_place(
    x: Seq<real>,
    pdf: Seq<real>,
    lo: real,
    hi: real,
    bins: usize,
) -> bool {
    let dx = (hi - lo + 1real / 1000000000real) / bins as real;
    &&& x.len() == bins
    &&& pdf.len() == bins
    &&& forall|i: int| 0 <= i < bins ==> #[trigger] x[i] == lo + (i as real + 1real / 2real) * dx
    &&& forall|i: int| 0 <= i < bins && i != bins / 2 ==> #[trigger] pdf[i] == 0real
    &&& pdf[bins as int / 2] * dx == 1real
}

/// Whether `r` is the density with the weights `w` in bins of the width `dx` from `lo` on: the grid
/// holds the centres of the bins, the density is proportional to the weights and integrates to one.
/// Where the integral of the weights counts as zero, they are refused if one of them does not, and
/// returned as they are if none does.
pub open spec fn is_density(
    r: Result<(Seq<real>, Seq<real>), KdeError<real>>,
    w: spec_fn(int) -> real,
    lo: real,
    dx: real,
    bins: usize,
) -> bool {
    let tiny = 1real / 1000000000real;
    let integral = sum_to(bins as nat, w) * dx;
    let zero = -tiny < integral < tiny;
    let some = exists|i: int| 0 <= i < bins && !(-tiny < #[trigger] w(i) < tiny);
    match r {
        Ok((x, pdf)) => {
            &&& x.len() == bins
            &&& pdf.len() == bins
            &&& forall|i: int|
                0 <= i < bins ==> #[trigger] x[i] == lo + (i as real + 1real / 2real) * dx
            &&& zero ==> !some && forall|i: int| 0 <= i < bins ==> #[trigger] pdf[i] == w(i)
            &&& !zero ==> forall|i: int| 0 <= i < bins ==> #[trigger] pdf[i] * integral == w(i)
            &&& !zero ==> sum_to(bins as nat, |i: int| pdf[i]) * dx == 1real
        },
        Err(e) => zero && some && e == KdeError::<real>::NotNormalizable,
    }
}

/// What an estimate of a density returns, for data that spans the range from `lo` to `hi`, where the
/// functions are an exponential, a cosine and a sine and `root` is the root of `2 pi`: the points,
/// shared between the bins of the range by hats, smoothed with the bandwidth of the request by a sum
/// of damped oscillations, and brought to the integral one.
pub proof fn law_estimate<E: Fn(real) -> real, C: Fn(real) -> real, S: Fn(real) -> real>(
    r: Result<(Seq<real>, Seq<real>), KdeError<real>>,
    data: Seq<real>,
    bins: usize,
    sigma: real,
    pi: real,
    root: real,
    exp: E,
    cos: C,
    sin: S,
    e: spec_fn(real) -> real,
    c: spec_fn(real) -> real,
    s: spec_fn(real) -> real,
    threads: usize,
    lo: real,
    hi: real,
)
    requires
        threads >= 1,
        data.len() >= 4,
        bins >= 1,
        sigma >= 0real,
        is_range(data, lo, hi),
        root > 0real,
        root * root == 2real * pi,
        computes(exp, e),
        computes(cos, c),
        computes(sin, s),
        is_exponential(e),
        are_circular(c, s),
        is_estimate_on(r, data, bins, sigma, pi, exp, cos, sin, threads),
    ensures
        ({
            let tiny = 1real / 1000000000real;
            let dx = (hi - lo) / bins as real;
            &&& hi - lo < tiny ==> (match r {
                Ok((x, pdf)) => is_density_at_one_place(x, pdf, lo, hi, bins),
                Err(_) => false,
            })
            &&& hi - lo >= tiny && dx < tiny ==> r == Err::<(Seq<real>, Seq<real>), KdeError<real>>(
                KdeError::BinTooNarrow,
            )
            &&& hi - lo >= tiny && dx >= tiny ==> is_density(
                r,
                |i: int| smooth_weight(data, lo, hi, bins, sigma / dx, root, e, c, s, i),
                lo,
                dx,
                bins,
            )
        }),
{
    let tiny = 1real / 1000000000real;
    let dx = (hi - lo) / bins as real;
    law_preparation(data, bins, sigma, threads, lo, hi);
    match prepared(data, bins, sigma, threads) {
        Ok(Stage::Binned(b)) => {
            if hi - lo >= tiny && dx >= tiny {
                let poles = choose|p: Seq<(real, real)>| #[trigger]
                    are_poles(p, b.sigma, exp, cos, sin) && r == finished(b, pi, p);
                lemma_div_mul(hi - lo, bins as real);
                lemma_cancel(b.dx, dx, bins as real);
                let d = sigma / dx;
                lemma_div_mul(sigma, dx);
                lemma_cancel(b.sigma, d, dx);
                lemma_div_order(sigma, dx, 0real);
                let w = |i: int| smooth_weight(data, lo, hi, bins, d, root, e, c, s, i);
                lemma_smoothed_weights(b, data, lo, hi, bins, pi, root, poles, exp, cos, sin, e, c, s);
                law_finished(b, pi, poles);
                let v = smoothed(b.hist, b.sigma, pi, poles);
                lemma_sum_same(bins as nat, |i: int| v[i], w);
                let some = exists|i: int| 0 <= i < v.len() && !(-tiny < #[trigger] v[i] < tiny);
                let other = exists|i: int| 0 <= i < bins && !(-tiny < #[trigger] w(i) < tiny);
                if some {
                    let i = choose|i: int| 0 <= i < v.len() && !(-tiny < #[trigger] v[i] < tiny);
                    assert(w(i) == v[i]);
                }
                if other {
                    let i = choose|i: int| 0 <= i < bins && !(-tiny < #[trigger] w(i) < tiny);
                    assert(w(i) == v[i]);
                }
            }
        },
        _ => {},
    }
}

/// The smoothed histogram holds the smoothed weights.
proof fn lemma_smoothed_weights<E: Fn(real) -> real, C: Fn(real) -> real, S: Fn(real) -> real>(
    b: BinnedRange<real>,
    data: Seq<real>,
    lo: real,
    hi: real,
    bins: usize,
    pi: real,
    root: real,
    poles: Seq<(real, real)>,
    exp: E,
    cos: C,
    sin: S,
    e: spec_fn(real) -> real,
    c: spec_fn(real) -> real,
    s: spec_fn(real) -> real,
)
    requires
        root > 0real,
        root * root == 2real * pi,
        computes(exp, e),
        computes(cos, c),
        computes(sin, s),
        is_exponential(e),
        are_circular(c, s),
        are_poles(poles, b.sigma, exp, cos, sin),
        b.sigma >= 0real,
        b.hist.len() == bins,
        forall|i: int|
            0 <= i < bins ==> #[trigger] b.hist[i] == sum_to(
                data.len(),
                |j: int| linear_share(data[j], lo, hi, bins as int, i),
            ),
    ensures
        smoothed(b.hist, b.sigma, pi, poles).len() == bins,
        forall|i: int|
            0 <= i < bins ==> #[trigger] smoothed(b.hist, b.sigma, pi, poles)[i] == smooth_weight(
                data,
                lo,
                hi,
                bins,
                b.sigma,
                root,
                e,
                c,
                s,
                i,
            ),
{
    let v = smoothed(b.hist, b.sigma, pi, poles);
    let d = b.sigma;
    law_negligible(d);
    assert forall|i: int| 0 <= i < bins implies #[trigger] v[i] == smooth_weight(
        data,
        lo,
        hi,
        bins,
        d,
        root,
        e,
        c,
        s,
        i,
    ) by {
        if !negligible(d) {
            law_smoothing_with_oscillations(
                b.hist,
                d,
                pi,
                root,
                poles,
                exp,
                cos,
                sin,
                e,
                c,
                s,
                i,
            );
            let f = |k: int| gaussian_sum(e, c, s, gap(i, k) / d) * b.hist[k];
            let g = |k: int|
                gaussian_sum(e, c, s, gap(i, k) / d) * bin_weight(data, lo, hi, bins, k);
            assert forall|k: int| 0 <= k < bins implies #[trigger] f(k) == g(k) by {
                assert(b.hist[k] == bin_weight(data, lo, hi, bins, k));
            }
            lemma_sum_same(bins as nat, f, g);
            lemma_product_sign(root, d);
            let q = root * d;
            lemma_div_mul(sum_to(bins as nat, g), q);
            lemma_cancel(v[i], sum_to(bins as nat, g) / q, q);
        } else {
            assert(b.hist[i] == bin_weight(data, lo, hi, bins, i));
        }
    }
}

/// What is refused, and why, whatever the arithmetic: an estimate of fewer than three points, or
/// without bins, in this order.
pub proof fn law_refusals_2d<T: Arith, E: Fn(T) -> T, P: Fn(T, T) -> T>(
    r: Result<(Seq<T>, Seq<T>, Seq<Seq<T>>), KdeError<T>>,
    x: Seq<T>,
    y: Seq<T>,
    bins: usize,
    exp: E,
    pow: P,
    threads: usize,
)
    requires
        is_estimate_2d_on(r, x, y, bins, exp, pow, threads),
    ensures
        ({
            let few = x.len() < 3 || y.len() < 3;
            &&& few ==> r == Err::<(Seq<T>, Seq<T>, Seq<Seq<T>>), KdeError<T>>(
                KdeError::TooFewPoints,
            )
            &&& !few && bins == 0 ==> r == Err::<(Seq<T>, Seq<T>, Seq<Seq<T>>), KdeError<T>>(
                KdeError::NoCells,
            )
        }),
{
    law_request_2d(x, y, bins);
}

/// Whether the executable function `f` of two arguments computes `g`.
pub open spec fn computes_in_two<F: Fn(real, real) -> real>(
    f: F,
    g: spec_fn(real, real) -> real,
) -> bool {
    forall|x: real, y: real, z: real| #[trigger] f.ensures((x, y), z) ==> z == g(x, y)
}

/// What an estimate of a density in two dimensions returns, for points that span `[xlo, xhi]` and
/// `[ylo, yhi]`: the bandwidths are the roots of the eigenvalues of the covariance matrix, times
/// Scott's factor `n^(-1/6)`, the grid reaches half of them beyond the points, the points are shared
/// between the cells by hats, smoothed along both axes with their bandwidths, and brought to the
/// integral one.
pub proof fn law_estimate_2d<E: Fn(real) -> real, P: Fn(real, real) -> real>(
    r: Result<(Seq<real>, Seq<real>, Seq<Seq<real>>), KdeError<real>>,
    x: Seq<real>,
    y: Seq<real>,
    bins: usize,
    exp: E,
    pow: P,
    e: spec_fn(real) -> real,
    power: spec_fn(real, real) -> real,
    threads: usize,
    xlo: real,
    xhi: real,
    ylo: real,
    yhi: real,
)
    requires
        roots_exist(),
        threads >= 1,
        bins >= 1,
        x.len() == y.len(),
        3 <= x.len() <= usize::MAX,
        is_range(x, xlo, xhi),
        is_range(y, ylo, yhi),
        computes(exp, e),
        is_exponential(e),
        computes_in_two(pow, power),
        forall|sigma: real| sigma >= 0real ==> #[trigger] has_kernel(e, sigma),
        is_estimate_2d_on(r, x, y, bins, exp, pow, threads),
    ensures
        exists|b: BinnedFrame<real>, sx: real, sy: real|
            {
                &&& are_bandwidths(x, y, power(x.len() as real, -1real / 6real), sx, sy)
                &&& #[trigger] is_padded_histogram(b, x, y, bins, xlo, xhi, ylo, yhi, sx, sy)
                &&& is_density_2d(r, b, e)
            },
{
    let n = x.len() as real;
    let f = choose|f: real| #[trigger]
        pow.ensures((<real as Arith>::whole(x.len() as usize), scott_exponent::<real>()), f)
            && is_estimate_2d_for(r, x, y, bins, f, exp, threads);
    law_scott_exponent();
    assert(scott_exponent::<real>() == -1real / 6real);
    assert(f == power(n, -1real / 6real));
    law_preparation_2d(x, y, bins, f, threads, xlo, xhi, ylo, yhi);
    match prepared_2d(x, y, bins, f, threads) {
        Ok(b) => {
            let (sx, sy) = choose|sx: real, sy: real| #[trigger]
                are_bandwidths(x, y, f, sx, sy) && is_padded_histogram(
                    b,
                    x,
                    y,
                    bins,
                    xlo,
                    xhi,
                    ylo,
                    yhi,
                    sx,
                    sy,
                );
            let (ex, ey) = choose|ex: (real, real), ey: (real, real)|
                are_exponentials(ex.0, ex.1, b.sigma_x, exp) && are_exponentials(
                    ey.0,
                    ey.1,
                    b.sigma_y,
                    exp,
                ) && r == #[trigger] finished_2d(b, ex, ey);
            assert(has_kernel(e, b.sigma_x) && has_kernel(e, b.sigma_y));
            law_finished_2d(b, ex, ey, exp, e);
            assert(is_padded_histogram(b, x, y, bins, xlo, xhi, ylo, yhi, sx, sy));
        },
        Err(_) => {},
    }
}

} // verus!
