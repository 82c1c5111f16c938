//! What the estimate of a one-dimensional density keeps, in exact arithmetic.
use vstd::prelude::*;

use crate::binning::{bin_width, binned, histogram, lemma_histogram_len, zeros};
use crate::binning_laws::{law_first_bin_is_filled, law_threads_do_not_matter};
use crate::deriche::smoothed;
use crate::error::KdeError;
use crate::kde::{
    all_negligible, centres, degenerate, degenerate_width, finished, highest, lowest, mode,
    non_finite_count, normalized, peak, prepared, request_error, some_finite, some_sizable, Stage,
};
use crate::reals::{
    lemma_div_mul, lemma_div_order, lemma_tiny, lemma_total_over, lemma_total_update,
    lemma_total_zeros,
};
use crate::scalar::{magnitude, negligible, tiny, total, Arith};

verus! {

/// The range of data is spanned by its smallest and its largest number.
pub proof fn law_range(data: Seq<real>)
    requires
        data.len() >= 1,
    ensures
        forall|i: int| 0 <= i < data.len() ==> lowest(data) <= #[trigger] data[i] <= highest(data),
        data.contains(lowest(data)),
        data.contains(highest(data)),
    decreases data.len(),
{
    assert(data[0] == data[0]);
    if data.len() > 1 {
        let rest = data.drop_last();
        law_range(rest);
        let at = choose|i: int| 0 <= i < rest.len() && rest[i] == lowest(rest);
        let to = choose|i: int| 0 <= i < rest.len() && rest[i] == highest(rest);
        assert(data[at] == rest[at]);
        assert(data[to] == rest[to]);
        assert(data[data.len() - 1] == data.last());
        assert forall|i: int| 0 <= i < data.len() implies lowest(data) <= #[trigger] data[i]
            <= highest(data) by {
            if i < rest.len() {
                assert(rest[i] == data[i]);
            }
        }
    }
}

/// All real numbers are finite.
pub proof fn lemma_reals_are_finite(t: Seq<real>)
    ensures
        non_finite_count(t) == 0,
    decreases t.len(),
{
    if t.len() > 0 {
        lemma_reals_are_finite(t.drop_last());
    }
}

/// The number of threads does not change how far an estimate comes.
pub proof fn law_threads_do_not_change_estimate(
    data: Seq<real>,
    bins: usize,
    sigma: real,
    threads: usize,
    others: usize,
)
    requires
        threads >= 1,
        others >= 1,
    ensures
        prepared(data, bins, sigma, threads) == prepared(data, bins, sigma, others),
{
    let (xmin, xmax) = (lowest(data), highest(data));
    law_threads_do_not_matter(data, xmin, xmax, bins, threads);
    law_threads_do_not_matter(data, xmin, xmax, bins, others);
}

/// An estimate that no check refuses fails only where the bins are too narrow, and is finished
/// without smoothing only where all of the data lies at one place.
pub proof fn law_prepared(data: Seq<real>, bins: usize, sigma: real, threads: usize)
    requires
        threads >= 1,
        request_error(data, bins, sigma) is None,
    ensures
        match prepared(data, bins, sigma, threads) {
            Err(e) => e == KdeError::<real>::BinTooNarrow && negligible(
                bin_width(lowest(data), highest(data), bins),
            ) && !negligible(highest(data) - lowest(data)),
            Ok(Stage::Finished(g)) => negligible(highest(data) - lowest(data)) && g == degenerate(
                lowest(data),
                highest(data),
                bins,
            ),
            Ok(Stage::Binned(b)) => {
                &&& b.xmin == lowest(data)
                &&& b.dx == bin_width(lowest(data), highest(data), bins)
                &&& b.dx * (bins as real) == highest(data) - lowest(data)
                &&& b.dx >= tiny::<real>()
                &&& b.hist == histogram(data, lowest(data), highest(data), b.dx, bins as nat)
                &&& b.hist.len() == bins
            },
        },
{
    law_range(data);
    lemma_tiny();
    let (xmin, xmax) = (lowest(data), highest(data));
    let range = xmax - xmin;
    let dx = bin_width(xmin, xmax, bins);
    assert(xmin <= data[0] <= xmax);
    lemma_div_mul(range, bins as real);
    lemma_div_order(range, bins as real, 0real);
    if !negligible(range) && !negligible(dx) {
        law_threads_do_not_matter(data, xmin, xmax, bins, threads);
        let at = choose|i: int| 0 <= i < data.len() && data[i] == xmin;
        law_first_bin_is_filled(data, xmin, xmax, bins, at);
        let hist = binned(data, xmin, xmax, bins, threads);
        lemma_histogram_len(data, xmin, xmax, dx, bins as nat);
        assert(hist == histogram(data, xmin, xmax, dx, bins as nat));
        assert(!negligible(hist[0]));
    }
}

/// The degenerate density integrates to one.
proof fn lemma_degenerate_integral(xmin: real, xmax: real, bins: usize)
    requires
        bins >= 1,
        xmin <= xmax,
    ensures
        total(degenerate(xmin, xmax, bins).1) * degenerate_width(xmin, xmax, bins) == 1real,
        degenerate_width(xmin, xmax, bins) > 0real,
{
    lemma_tiny();
    let w = xmax - xmin + tiny::<real>();
    let b = bins as real;
    let dx = degenerate_width(xmin, xmax, bins);
    lemma_div_mul(w, b);
    assert(dx > 0real) by (nonlinear_arith)
        requires
            dx * b == w,
            w > 0real,
            b >= 1real,
    ;
    let none = zeros::<real>(bins as nat);
    assert(none =~= Seq::new(bins as nat, |i: int| 0real));
    lemma_total_zeros(bins as nat);
    let mid = bins as int / 2;
    assert(none[mid] == 0real);
    lemma_total_update(none, mid, 1real / dx);
    assert(none[mid] + 1real / dx == 1real / dx);
    lemma_div_mul(1real, dx);
}

/// A normalized histogram integrates to one, unless all of it counts as zero and so does its
/// integral.
pub proof fn law_normalized_integrates_to_one(x: Seq<real>, hist: Seq<real>, dx: real)
    requires
        dx > 0real,
        !(all_negligible(hist) && negligible(total(hist) * dx)),
    ensures
        match normalized(x, hist, dx) {
            Ok((grid, pdf)) => grid == x && pdf.len() == hist.len() && total(pdf) * dx == 1real,
            Err(e) => e == KdeError::<real>::NotNormalizable && negligible(total(hist) * dx),
        },
{
    lemma_tiny();
    let sum = total(hist);
    let factor = sum * dx;
    if negligible(factor) {
        let bad = choose|i: int| 0 <= i < hist.len() && !negligible(#[trigger] hist[i]);
        assert(tiny::<real>() <= magnitude(hist[bad]));
        assert(some_sizable(hist));
    } else {
        lemma_total_over(hist, factor);
        assert(Seq::new(hist.len(), |i: int| hist[i].over(factor)) =~= Seq::new(
            hist.len(),
            |i: int| hist[i] / factor,
        ));
        assert((sum / factor) * dx == 1real) by (nonlinear_arith)
            requires
                factor == sum * dx,
                factor != 0real,
        ;
    }
}

/// The estimate of a density integrates to one: the values times the width of the bins sum to
/// one, unless the smoothed histogram counts as zero everywhere and so does its integral.
pub proof fn law_estimate_integrates_to_one(
    data: Seq<real>,
    bins: usize,
    sigma: real,
    pi: real,
    threads: usize,
    poles: Seq<(real, real)>,
)
    requires
        threads >= 1,
    ensures
        match prepared(data, bins, sigma, threads) {
            Err(_) => true,
            Ok(Stage::Finished((x, pdf))) => x.len() == bins && pdf.len() == bins && total(pdf)
                * degenerate_width(lowest(data), highest(data), bins) == 1real,
            Ok(Stage::Binned(b)) => match finished(b, pi, poles) {
                Err(_) => true,
                Ok((x, pdf)) => {
                    let s = smoothed(b.hist, b.sigma, pi, poles);
                    &&& x.len() == bins
                    &&& pdf.len() == bins
                    &&& all_negligible(s) && negligible(total(s) * b.dx) || total(pdf) * b.dx
                        == 1real
                },
            },
        },
{
    if request_error(data, bins, sigma) is None {
        law_prepared(data, bins, sigma, threads);
        law_range(data);
        lemma_tiny();
        assert(lowest(data) <= data[0] <= highest(data));
        lemma_degenerate_integral(lowest(data), highest(data), bins);
        match prepared(data, bins, sigma, threads) {
            Ok(Stage::Binned(b)) => {
                let s = smoothed(b.hist, b.sigma, pi, poles);
                if !(all_negligible(s) && negligible(total(s) * b.dx)) {
                    law_normalized_integrates_to_one(
                        centres(b.xmin, b.dx, b.hist.len()),
                        s,
                        b.dx,
                    );
                }
            },
            _ => {},
        }
    }
}

/// The grid of `bins` bins of the width `dx` from `xmin` on: the centres rise by `dx`, the first
/// lies half a bin behind `xmin` and the last half a bin before the end.
pub proof fn law_grid(xmin: real, dx: real, bins: usize)
    requires
        bins >= 1,
        dx > 0real,
    ensures
        centres(xmin, dx, bins as nat).len() == bins,
        centres(xmin, dx, bins as nat)[0] == xmin + dx / 2real,
        centres(xmin, dx, bins as nat)[bins - 1] == xmin + dx * (bins as real) - dx / 2real,
        forall|i: int|
            0 <= i < bins - 1 ==> #[trigger] centres(xmin, dx, bins as nat)[i] + dx == centres(
                xmin,
                dx,
                bins as nat,
            )[i + 1],
        forall|i: int, j: int|
            0 <= i < j < bins ==> #[trigger] centres(xmin, dx, bins as nat)[i] < #[trigger] centres(
                xmin,
                dx,
                bins as nat,
            )[j],
{
    let c = centres(xmin, dx, bins as nat);
    let h = 1real / 2real;
    assert forall|i: int| 0 <= i < bins - 1 implies #[trigger] c[i] + dx == c[i + 1] by {
        let z = i as real;
        assert((z + h) * dx + dx == (z + 1real + h) * dx) by (nonlinear_arith);
    }
    assert forall|i: int, j: int| 0 <= i < j < bins implies #[trigger] c[i] < #[trigger] c[j] by {
        let (y, z) = (i as real, j as real);
        assert((y + h) * dx < (z + h) * dx) by (nonlinear_arith)
            requires
                y < z,
                dx > 0real,
        ;
    }
    assert((0real + h) * dx == dx / 2real) by (nonlinear_arith)
        requires
            h == 1real / 2real,
    ;
    let b = bins as real;
    assert((b - 1real + h) * dx == dx * b - dx / 2real) by (nonlinear_arith)
        requires
            h == 1real / 2real,
    ;
}

/// The grid of an estimate lies inside the range of the data.
pub proof fn law_grid_spans_data(data: Seq<real>, bins: usize, sigma: real, threads: usize)
    requires
        threads >= 1,
    ensures
        match prepared(data, bins, sigma, threads) {
            Ok(Stage::Binned(b)) => forall|i: int|
                0 <= i < bins ==> lowest(data) < #[trigger] centres(b.xmin, b.dx, bins as nat)[i]
                    < highest(data),
            _ => true,
        },
{
    if request_error(data, bins, sigma) is None {
        law_prepared(data, bins, sigma, threads);
        lemma_tiny();
        match prepared(data, bins, sigma, threads) {
            Ok(Stage::Binned(b)) => {
                law_grid(b.xmin, b.dx, bins);
                let c = centres(b.xmin, b.dx, bins as nat);
                assert forall|i: int| 0 <= i < bins implies lowest(data) < #[trigger] c[i]
                    < highest(data) by {
                    if i > 0 {
                        assert(c[0] < c[i]);
                    }
                    if i < bins - 1 {
                        assert(c[i] < c[bins - 1]);
                    }
                }
            },
            _ => {},
        }
    }
}

/// Whether no value exceeds the one at `i`, and all later ones stay below it.
pub open spec fn is_last_maximum(p: Seq<real>, i: int) -> bool {
    &&& 0 <= i < p.len()
    &&& forall|j: int| 0 <= j < p.len() ==> #[trigger] p[j] <= p[i]
    &&& forall|j: int| i < j < p.len() ==> #[trigger] p[j] < p[i]
}

/// The peak is the last maximum.
proof fn lemma_peak(p: Seq<real>)
    requires
        p.len() >= 1,
    ensures
        match peak(p) {
            Some(i) => is_last_maximum(p, i),
            None => false,
        },
    decreases p.len(),
{
    let rest = p.drop_last();
    if rest.len() >= 1 {
        lemma_peak(rest);
        let best = peak(rest)->Some_0;
        let i = peak(p)->Some_0;
        assert(rest[best] == p[best]);
        assert forall|j: int| 0 <= j < p.len() implies #[trigger] p[j] <= p[i] by {
            if j < rest.len() {
                assert(rest[j] <= rest[best]);
            }
        }
        assert forall|j: int| i < j < p.len() implies #[trigger] p[j] < p[i] by {
            if j < rest.len() {
                assert(rest[j] < rest[best]);
            }
        }
    } else {
        assert(peak(rest) is None);
    }
}

/// The mode is the place of the grid where the density is largest, the last one where there are
/// several.
pub proof fn law_mode(x: Seq<real>, pdf: Seq<real>)
    requires
        x.len() == pdf.len(),
        pdf.len() >= 1,
    ensures
        exists|i: int| #[trigger]
            is_last_maximum(pdf, i) && mode(x, pdf) == Ok::<real, KdeError<real>>(x[i]),
{
    lemma_peak(pdf);
    assert(pdf[0].finite());
    assert(some_finite(pdf));
}

/// A bandwidth of zero leaves the histogram as it is.
pub proof fn law_zero_bandwidth_does_not_smooth(
    data: Seq<real>,
    bins: usize,
    pi: real,
    threads: usize,
    poles: Seq<(real, real)>,
)
    ensures
        match prepared(data, bins, 0real, threads) {
            Ok(Stage::Binned(b)) => smoothed(b.hist, b.sigma, pi, poles) == b.hist,
            _ => true,
        },
{
    lemma_tiny();
    let scale = (bins as real) / (highest(data) - lowest(data));
    assert(0real * scale == 0real) by (nonlinear_arith);
}

} // verus!
