//! What an estimate of a one-dimensional density is made of, from the request to the result.
use vstd::prelude::*;

use crate::binning::bin_width;
use crate::deriche::smoothed;
use crate::error::KdeError;
use crate::hat_laws::{law_binning_shares_by_hats, law_negligible, linear_share};
use crate::kde::{
    centres, degenerate, finished, highest, lowest, non_finite_count, prepared, request_error,
    some_sizable, BinnedRange, Stage,
};
use crate::kde_laws::{law_prepared, law_range, lemma_reals_are_finite};
use crate::reals::{lemma_associate, lemma_div_mul, lemma_div_order, lemma_tiny, lemma_total_over};
use crate::scalar::{magnitude, negligible, tiny, total, Arith};
use crate::sums::{law_total, sum_to};

verus! {

/// The count of undefined numbers is the number of those.
proof fn lemma_non_finite_count<T: Arith>(data: Seq<T>)
    ensures
        non_finite_count(data) == data.filter(|v: T| !v.finite()).len(),
    decreases data.len(),
{
    reveal(Seq::filter);
    if data.len() > 0 {
        lemma_non_finite_count(data.drop_last());
    }
}

/// There is nothing to count where all numbers are finite.
proof fn lemma_no_non_finite<T: Arith>(data: Seq<T>)
    ensures
        non_finite_count(data) == 0 <==> forall|i: int|
            0 <= i < data.len() ==> (#[trigger] data[i]).finite(),
        non_finite_count(data) <= data.len(),
    decreases data.len(),
{
    if data.len() > 0 {
        let rest = data.drop_last();
        lemma_no_non_finite(rest);
        if non_finite_count(data) == 0 {
            assert forall|i: int| 0 <= i < data.len() implies (#[trigger] data[i]).finite() by {
                if i < rest.len() {
                    assert(rest[i].finite());
                }
            }
        }
        if forall|i: int| 0 <= i < data.len() ==> (#[trigger] data[i]).finite() {
            assert forall|i: int| 0 <= i < rest.len() implies (#[trigger] rest[i]).finite() by {
                assert(data[i].finite());
            }
            assert(data[data.len() - 1].finite());
        }
    }
}

/// What is refused, and why: fewer than four samples, no bins, samples that are not finite, of which
/// the error tells the number, and a bandwidth below zero, in this order; and nothing else, whatever
/// the arithmetic.
pub proof fn law_request<T: Arith>(data: Seq<T>, bins: usize, sigma: T)
    requires
        data.len() <= usize::MAX,
    ensures
        ({
            let e = request_error(data, bins, sigma);
            let all_finite = forall|i: int| 0 <= i < data.len() ==> (#[trigger] data[i]).finite();
            &&& data.len() < 4 <==> e == Some(KdeError::<T>::TooFewSamples)
            &&& data.len() >= 4 && bins == 0 <==> e == Some(KdeError::<T>::NoBins)
            &&& data.len() >= 4 && bins > 0 && !all_finite ==> {
                let count = data.filter(|v: T| !v.finite()).len();
                0 < count <= data.len() && e == Some(KdeError::<T>::NonFinite(count as usize))
            }
            &&& data.len() >= 4 && bins > 0 && all_finite && sigma.below(T::whole(0)) ==> e == Some(
                KdeError::<T>::NegativeSigma,
            )
            &&& data.len() >= 4 && bins > 0 && all_finite && !sigma.below(T::whole(0)) ==> e is None
        }),
{
    lemma_non_finite_count(data);
    lemma_no_non_finite(data);
}

/// Whether `lo` and `hi` are the smallest and the largest number of `data`.
pub open spec fn is_range(data: Seq<real>, lo: real, hi: real) -> bool {
    &&& data.contains(lo)
    &&& data.contains(hi)
    &&& forall|i: int| 0 <= i < data.len() ==> lo <= #[trigger] data[i] <= hi
}

/// The range of data is found.
pub proof fn law_range_is_found(data: Seq<real>, lo: real, hi: real)
    requires
        is_range(data, lo, hi),
    ensures
        lowest(data) == lo,
        highest(data) == hi,
{
    let i = choose|i: int| 0 <= i < data.len() && data[i] == lo;
    let j = choose|j: int| 0 <= j < data.len() && data[j] == hi;
    law_range(data);
    let k = choose|k: int| 0 <= k < data.len() && data[k] == lowest(data);
    let l = choose|l: int| 0 <= l < data.len() && data[l] == highest(data);
    assert(lowest(data) <= data[i] && lo <= data[k]);
    assert(data[j] <= highest(data) && data[l] <= hi);
}

/// A bandwidth in bins, times the width of a bin, is the bandwidth.
pub proof fn lemma_bandwidth_units(sigma: real, range: real, bins: usize)
    requires
        bins >= 1,
        range > 0real,
    ensures
        (sigma * (bins as real / range)) * (range / bins as real) == sigma,
{
    let (n, u, w) = (bins as real, bins as real / range, range / bins as real);
    lemma_associate(sigma, u, w);
    lemma_div_mul(n, range);
    lemma_div_mul(range, n);
    assert(u * w == 1real) by (nonlinear_arith)
        requires
            u * range == n,
            w * n == range,
            n >= 1real,
            range > 0real,
    ;
    assert(sigma * 1real == sigma) by (nonlinear_arith);
}

/// How far an estimate comes before it is smoothed, for data that spans the range from `lo` to `hi`.
/// Data at one place has its density in the middle one of `bins` bins over the range and a billionth
/// more. Bins narrower than a billionth are refused. All other data is binned over its range, by
/// hats, and the bandwidth that the filter gets, counted in bins, times the width of a bin is the
/// bandwidth of the request.
pub proof fn law_preparation(
    data: Seq<real>,
    bins: usize,
    sigma: real,
    threads: usize,
    lo: real,
    hi: real,
)
    requires
        threads >= 1,
        data.len() >= 4,
        bins >= 1,
        sigma >= 0real,
        is_range(data, lo, hi),
    ensures
        ({
            let tiny = 1real / 1000000000real;
            let n = bins as real;
            let r = prepared(data, bins, sigma, threads);
            &&& hi - lo < tiny ==> (match r {
                Ok(Stage::Finished((x, pdf))) => {
                    let dx = (hi - lo + tiny) / n;
                    &&& x.len() == bins
                    &&& pdf.len() == bins
                    &&& forall|i: int|
                        0 <= i < bins ==> #[trigger] x[i] == lo + (i as real + 1real / 2real) * dx
                    &&& forall|i: int| 0 <= i < bins && i != bins / 2 ==> #[trigger] pdf[i] == 0real
                    &&& pdf[bins as int / 2] * dx == 1real
                },
                _ => false,
            })
            &&& hi - lo >= tiny && (hi - lo) / n < tiny ==> r == Err::<Stage<real>, KdeError<real>>(
                KdeError::BinTooNarrow,
            )
            &&& hi - lo >= tiny && (hi - lo) / n >= tiny ==> (match r {
                Ok(Stage::Binned(b)) => {
                    &&& b.xmin == lo
                    &&& b.dx * n == hi - lo
                    &&& b.sigma * b.dx == sigma
                    &&& b.hist.len() == bins
                    &&& forall|i: int|
                        0 <= i < bins ==> #[trigger] b.hist[i] == sum_to(
                            data.len(),
                            |j: int| linear_share(data[j], lo, hi, bins as int, i),
                        )
                },
                _ => false,
            })
        }),
{
    law_range_is_found(data, lo, hi);
    lemma_reals_are_finite(data);
    law_prepared(data, bins, sigma, threads);
    lemma_tiny();
    let tiny = 1real / 1000000000real;
    let n = bins as real;
    let at = choose|i: int| 0 <= i < data.len() && data[i] == lo;
    assert(lo <= data[at] <= hi);
    law_negligible(hi - lo);
    law_negligible((hi - lo) / n);
    lemma_div_order(hi - lo, n, 0real);
    lemma_div_mul(hi - lo, n);
    assert(bin_width(lo, hi, bins) == (hi - lo) / n);
    if hi - lo < tiny {
        let dx = (hi - lo + tiny) / n;
        lemma_div_mul(hi - lo + tiny, n);
        assert(dx > 0real) by (nonlinear_arith)
            requires
                dx * n == hi - lo + tiny,
                hi - lo + tiny > 0real,
                n >= 1real,
        ;
        lemma_div_mul(1real, dx);
        assert(prepared(data, bins, sigma, threads) == Ok::<Stage<real>, KdeError<real>>(
            Stage::Finished(degenerate(lo, hi, bins)),
        ));
    } else if (hi - lo) / n >= tiny {
        law_binning_shares_by_hats(data, lo, hi, bins, threads);
        lemma_bandwidth_units(sigma, hi - lo, bins);
    }
}

/// The bandwidth that the filter gets, counted in bins, times the width of a bin is the bandwidth of
/// the request, for every request that reaches the smoothing.
pub proof fn law_bandwidth_is_in_the_units_of_the_data(
    data: Seq<real>,
    bins: usize,
    sigma: real,
    threads: usize,
)
    requires
        threads >= 1,
    ensures
        match prepared(data, bins, sigma, threads) {
            Ok(Stage::Binned(b)) => b.sigma * b.dx == sigma && b.dx * bins as real == highest(data)
                - lowest(data),
            _ => true,
        },
{
    lemma_reals_are_finite(data);
    if data.len() >= 4 && bins >= 1 && sigma >= 0real {
        law_range(data);
        law_preparation(data, bins, sigma, threads, lowest(data), highest(data));
    }
}

/// What comes of a histogram: the grid holds the centres of the bins, the density is proportional to
/// the smoothed histogram and integrates to one. Where the integral counts as zero, the estimate is
/// refused if some entry does not, and left as it is if none does.
pub proof fn law_finished(b: BinnedRange<real>, pi: real, poles: Seq<(real, real)>)
    requires
        b.hist.len() <= usize::MAX,
    ensures
        ({
            let tiny = 1real / 1000000000real;
            let s = smoothed(b.hist, b.sigma, pi, poles);
            let n = b.hist.len();
            let integral = sum_to(s.len(), |i: int| s[i]) * b.dx;
            let zero = -tiny < integral < tiny;
            let some = exists|i: int| 0 <= i < s.len() && !(-tiny < #[trigger] s[i] < tiny);
            match finished(b, pi, poles) {
                Ok((x, pdf)) => {
                    &&& x.len() == n
                    &&& forall|i: int|
                        0 <= i < n ==> #[trigger] x[i] == b.xmin + (i as real + 1real / 2real)
                            * b.dx
                    &&& pdf.len() == s.len()
                    &&& zero ==> !some && pdf == s
                    &&& !zero ==> forall|i: int|
                        0 <= i < s.len() ==> #[trigger] pdf[i] * integral == s[i]
                    &&& !zero ==> sum_to(pdf.len(), |i: int| pdf[i]) * b.dx == 1real
                },
                Err(e) => zero && some && e == KdeError::<real>::NotNormalizable,
            }
        }),
{
    let s = smoothed(b.hist, b.sigma, pi, poles);
    let factor = total(s) * b.dx;
    law_total(s);
    lemma_tiny();
    law_negligible(factor);
    assert forall|i: int| 0 <= i < s.len() implies negligible(#[trigger] s[i]) == (-1real
        / 1000000000real < s[i] < 1real / 1000000000real) && negligible(s[i]) == !(tiny::<real>()
        <= magnitude(s[i])) by {
        law_negligible(s[i]);
    }
    if negligible(factor) {
        if some_sizable(s) {
            let i = choose|i: int|
                0 <= i < s.len() && tiny::<real>().at_most(magnitude(#[trigger] s[i]));
            assert(!negligible(s[i]));
        } else {
            assert forall|i: int| 0 <= i < s.len() implies -1real / 1000000000real
                < #[trigger] s[i] < 1real / 1000000000real by {
                assert(!tiny::<real>().at_most(magnitude(s[i])));
                assert(negligible(s[i]));
            }
        }
    } else {
        let pdf = Seq::new(s.len(), |i: int| s[i].over(factor));
        assert forall|i: int| 0 <= i < s.len() implies #[trigger] pdf[i] * factor == s[i] by {
            lemma_div_mul(s[i], factor);
        }
        lemma_total_over(s, factor);
        assert(pdf =~= Seq::new(s.len(), |i: int| s[i] / factor));
        law_total(pdf);
        let (sum, dx) = (total(s), b.dx);
        assert((sum / factor) * dx == 1real) by (nonlinear_arith)
            requires
                factor == sum * dx,
                factor != 0real,
        ;
    }
}

} // verus!
