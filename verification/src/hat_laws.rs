//! What linear binning is, in exact arithmetic: every point is shared between bins by a hat function.
use vstd::prelude::*;

use crate::binning::{bin_position, bin_width, binned, deposited, histogram, lemma_histogram_len};
use crate::binning_laws::{law_threads_do_not_matter, weight};
use crate::reals::{lemma_commute, lemma_distribute, lemma_div_mul, lemma_div_order, lemma_units};
use crate::scalar::{negligible, Arith};
use crate::sums::{
    lemma_sum_order, lemma_sum_pair, lemma_sum_same, lemma_sum_single, lemma_sum_swap,
    lemma_sum_times, lemma_sum_zero, sum_to,
};

verus! {

/// The hat function: one at zero, falling to zero at one on both sides.
pub open spec fn hat(t: real) -> real {
    if t <= -1real || t >= 1real {
        0real
    } else if t < 0real {
        1real + t
    } else {
        1real - t
    }
}

/// What a point at the place `p`, counted in bins, adds to the bin `i`.
pub open spec fn hat_at(p: real, i: int) -> real {
    hat(p - i as real)
}

/// A number counts as zero if it is smaller than a billionth on both sides.
pub proof fn law_negligible(a: real)
    ensures
        negligible(a) <==> -1real / 1000000000real < a < 1real / 1000000000real,
{
}

/// The hats over all bins sum to one, and their indices, weighted with them, to the place.
pub proof fn lemma_hats(p: real, n: nat)
    requires
        0real <= p <= n as real - 1real,
    ensures
        sum_to(n, |i: int| hat_at(p, i)) == 1real,
        sum_to(n, |i: int| i as real * hat_at(p, i)) == p,
{
    let f = |i: int| hat_at(p, i);
    let g = |i: int| i as real * hat_at(p, i);
    let k = p.floor();
    let past = p - k as real;
    assert(0 <= k <= n - 1);
    assert forall|i: int| 0 <= i < n && i != k && i != k + 1 implies #[trigger] f(i) == 0real
        && g(i) == 0real by {
        lemma_units(i as real);
    }
    assert forall|i: int| 0 <= i < n && i != k && i != k + 1 implies #[trigger] g(i) == 0real by {
        assert(f(i) == 0real);
    }
    assert(f(k) == 1real - past);
    assert(f(k + 1) == past);
    lemma_distribute(1real, past, k as real);
    lemma_distribute(k as real, 1real, past);
    lemma_units(k as real);
    lemma_units(past);
    assert(g(k) == k as real - k as real * past);
    assert(g(k + 1) == (k as real + 1real) * past);
    if k + 1 < n {
        lemma_sum_pair(n, f, k);
        lemma_sum_pair(n, g, k);
    } else {
        assert(past == 0real);
        lemma_sum_single(n, f, k);
        lemma_sum_single(n, g, k);
    }
}

/// What the point `x` adds to the bin `i` of `bins` bins over `[xmin, xmax]`: the hat of how far it
/// lies from the bin, if it lies in the range, and all of it to the last bin, if it closes the range.
pub open spec fn linear_share(x: real, xmin: real, xmax: real, bins: int, i: int) -> real {
    if xmin <= x < xmax {
        hat((x - xmin) / ((xmax - xmin) / bins as real) - i as real)
    } else if i == bins - 1 && -1real / 1000000000real < x - xmax < 1real / 1000000000real {
        1real
    } else {
        0real
    }
}

/// A place below the number of bins.
pub proof fn lemma_place(x: real, xmin: real, xmax: real, bins: usize)
    requires
        bins >= 1,
        xmin <= x < xmax,
    ensures
        bin_width(xmin, xmax, bins) > 0real,
        0real <= bin_position(x, xmin, bin_width(xmin, xmax, bins)) < bins as real,
{
    let width = bin_width(xmin, xmax, bins);
    let b = bins as real;
    lemma_div_mul(xmax - xmin, b);
    assert(width > 0real) by (nonlinear_arith)
        requires
            width * b == xmax - xmin,
            xmax - xmin > 0real,
            b >= 1real,
    ;
    lemma_commute(width, b);
    lemma_div_order(x - xmin, width, b);
}

/// A deposited point adds its shares.
proof fn lemma_deposited_share(
    hist: Seq<real>,
    x: real,
    xmin: real,
    xmax: real,
    bins: usize,
    i: int,
)
    requires
        hist.len() == bins,
        0 <= i < bins,
    ensures
        deposited(hist, x, xmin, xmax, bin_width(xmin, xmax, bins))[i] == hist[i] + linear_share(
            x,
            xmin,
            xmax,
            bins as int,
            i,
        ),
{
    let width = bin_width(xmin, xmax, bins);
    law_negligible(x - xmax);
    if xmin <= x < xmax {
        lemma_place(x, xmin, xmax, bins);
        let pos = bin_position(x, xmin, width);
        let k = pos.floor();
        assert(pos.floor_index() == k);
    }
}

/// A histogram is the sum of the shares of all points.
proof fn lemma_histogram_shares(
    data: Seq<real>,
    xmin: real,
    xmax: real,
    bins: usize,
    i: int,
)
    requires
        0 <= i < bins,
    ensures
        histogram(data, xmin, xmax, bin_width(xmin, xmax, bins), bins as nat)[i] == sum_to(
            data.len(),
            |j: int| linear_share(data[j], xmin, xmax, bins as int, i),
        ),
    decreases data.len(),
{
    let width = bin_width(xmin, xmax, bins);
    let f = |j: int| linear_share(data[j], xmin, xmax, bins as int, i);
    if data.len() > 0 {
        let rest = data.drop_last();
        let g = |j: int| linear_share(rest[j], xmin, xmax, bins as int, i);
        lemma_histogram_shares(rest, xmin, xmax, bins, i);
        lemma_histogram_len(rest, xmin, xmax, width, bins as nat);
        lemma_deposited_share(
            histogram(rest, xmin, xmax, width, bins as nat),
            data.last(),
            xmin,
            xmax,
            bins,
            i,
        );
        lemma_sum_same(rest.len(), g, f);
        assert(data.last() == data[data.len() - 1]);
    }
}

/// Linear binning: on any number of threads, each bin holds the sum of what the points add to it,
/// and a point of the range adds to a bin the hat of how far it lies from the bin, counted in bins.
/// Bins whose width counts as zero stay empty.
pub proof fn law_binning_shares_by_hats(
    data: Seq<real>,
    xmin: real,
    xmax: real,
    bins: usize,
    threads: usize,
)
    requires
        threads >= 1,
    ensures
        ({
            let h = binned(data, xmin, xmax, bins, threads);
            let width = (xmax - xmin) / bins as real;
            &&& h.len() == bins
            &&& forall|i: int|
                0 <= i < bins ==> #[trigger] h[i] == if -1real / 1000000000real < width < 1real
                    / 1000000000real {
                    0real
                } else {
                    sum_to(data.len(), |j: int| linear_share(data[j], xmin, xmax, bins as int, i))
                }
        }),
{
    let h = binned(data, xmin, xmax, bins, threads);
    let width = bin_width(xmin, xmax, bins);
    law_threads_do_not_matter(data, xmin, xmax, bins, threads);
    law_negligible(width);
    lemma_histogram_len(data, xmin, xmax, width, bins as nat);
    assert forall|i: int| 0 <= i < bins implies #[trigger] h[i] == if -1real / 1000000000real
        < width < 1real / 1000000000real {
        0real
    } else {
        sum_to(data.len(), |j: int| linear_share(data[j], xmin, xmax, bins as int, i))
    } by {
        lemma_histogram_shares(data, xmin, xmax, bins, i);
    }
}

/// One point more adds its shares: what two calls have in common, of which the second has the point
/// `x` in addition. A bin whose start is at least a bin away from the point gets nothing, but for
/// the last one, which gets all of a point at the end of the range.
pub proof fn law_one_point_more(
    data: Seq<real>,
    x: real,
    xmin: real,
    xmax: real,
    bins: usize,
    threads: usize,
    others: usize,
)
    requires
        threads >= 1,
        others >= 1,
        xmin < xmax,
        xmin <= x <= xmax,
        (xmax - xmin) / bins as real >= 1real / 1000000000real,
    ensures
        ({
            let h = binned(data, xmin, xmax, bins, threads);
            let g = binned(data.push(x), xmin, xmax, bins, others);
            let width = (xmax - xmin) / bins as real;
            &&& h.len() == bins
            &&& g.len() == bins
            &&& x == xmax ==> forall|i: int|
                0 <= i < bins ==> #[trigger] g[i] == h[i] + if i == bins - 1 {
                    1real
                } else {
                    0real
                }
            &&& x < xmax ==> forall|i: int|
                0 <= i < bins ==> #[trigger] g[i] == h[i] + hat((x - xmin) / width - i as real)
            &&& x < xmax ==> forall|i: int|
                0 <= i < bins && (x >= xmin + (i + 1) as real * width || x <= xmin + (i - 1) as real
                    * width) ==> #[trigger] g[i] == h[i]
        }),
{
    let more = data.push(x);
    let h = binned(data, xmin, xmax, bins, threads);
    let g = binned(more, xmin, xmax, bins, others);
    let width = (xmax - xmin) / bins as real;
    law_binning_shares_by_hats(data, xmin, xmax, bins, threads);
    law_binning_shares_by_hats(more, xmin, xmax, bins, others);
    assert forall|i: int| 0 <= i < bins implies #[trigger] g[i] == h[i] + linear_share(
        x,
        xmin,
        xmax,
        bins as int,
        i,
    ) by {
        let f = |j: int| linear_share(data[j], xmin, xmax, bins as int, i);
        let e = |j: int| linear_share(more[j], xmin, xmax, bins as int, i);
        lemma_sum_same(data.len(), e, f);
        assert(more[data.len() as int] == x);
        assert(sum_to(more.len(), e) == sum_to(data.len(), e) + e(data.len() as int));
    }
    assert forall|i: int|
        0 <= i < bins && x < xmax && (x >= xmin + (i + 1) as real * width || x <= xmin + (i - 1)
            as real * width) implies #[trigger] g[i] == h[i] by {
        lemma_div_order(x - xmin, width, (i + 1) as real);
        lemma_div_order(x - xmin, width, (i - 1) as real);
    }
}

/// One if `a` and `b` are equal, and zero if not.
pub open spec fn one_if_equal(a: real, b: real) -> real {
    if a == b {
        1real
    } else {
        0real
    }
}

/// How many numbers of `data` are equal to `x`, as a real number.
pub open spec fn occurrences(data: Seq<real>, x: real) -> real {
    sum_to(data.len(), |j: int| one_if_equal(data[j], x))
}

/// The last bin holds at least the points at the end of the range, and the first one at least those
/// at its start.
pub proof fn law_ends_are_counted(
    data: Seq<real>,
    xmin: real,
    xmax: real,
    bins: usize,
    threads: usize,
)
    requires
        threads >= 1,
        xmin < xmax,
        (xmax - xmin) / bins as real >= 1real / 1000000000real,
        bins >= 1,
    ensures
        binned(data, xmin, xmax, bins, threads)[bins - 1] >= occurrences(data, xmax),
        binned(data, xmin, xmax, bins, threads)[0] >= occurrences(data, xmin),
{
    law_binning_shares_by_hats(data, xmin, xmax, bins, threads);
    let n = data.len();
    let width = (xmax - xmin) / bins as real;
    let top = |j: int| one_if_equal(data[j], xmax);
    let low = |j: int| one_if_equal(data[j], xmin);
    let last = |j: int| linear_share(data[j], xmin, xmax, bins as int, bins - 1);
    let first = |j: int| linear_share(data[j], xmin, xmax, bins as int, 0);
    assert(0real / width == 0real) by (nonlinear_arith)
        requires
            width > 0real,
    ;
    lemma_sum_order(n, top, last);
    lemma_sum_order(n, low, first);
    let h = binned(data, xmin, xmax, bins, threads);
    assert(h[bins - 1] == sum_to(n, last));
    assert(h[0] == sum_to(n, first));
    assert(occurrences(data, xmax) == sum_to(n, top));
    assert(occurrences(data, xmin) == sum_to(n, low));
}

/// A bin takes weight only from points that lie less than a bin from its start, and the last one
/// from points at the end of the range besides: where there are none, it stays empty.
pub proof fn law_far_points_add_nothing(
    data: Seq<real>,
    xmin: real,
    xmax: real,
    bins: usize,
    threads: usize,
    i: int,
)
    requires
        threads >= 1,
        xmin < xmax,
        0 <= i < bins,
        forall|j: int|
            0 <= j < data.len() ==> {
                let width = (xmax - xmin) / bins as real;
                &&& xmin <= #[trigger] data[j] <= xmax
                &&& data[j] >= xmin + (i + 1) as real * width || data[j] <= xmin + (i - 1) as real
                    * width
                &&& !(i == bins - 1 && data[j] == xmax)
            },
    ensures
        binned(data, xmin, xmax, bins, threads)[i] == 0real,
{
    law_binning_shares_by_hats(data, xmin, xmax, bins, threads);
    let width = (xmax - xmin) / bins as real;
    lemma_place(xmin, xmin, xmax, bins);
    let f = |j: int| linear_share(data[j], xmin, xmax, bins as int, i);
    assert forall|j: int| 0 <= j < data.len() implies #[trigger] f(j) == 0real by {
        let x = data[j];
        lemma_div_order(x - xmin, width, (i + 1) as real);
        lemma_div_order(x - xmin, width, (i - 1) as real);
        if x < xmax && i == bins - 1 {
            lemma_div_mul(xmax - xmin, bins as real);
            lemma_commute(width, bins as real);
        }
    }
    lemma_sum_zero(data.len(), f);
}

/// Linear binning keeps weight and the first moment: for data that lies at most one bin before the
/// end of the range, the bins sum to the number of points, and the sum of `i h[i]` is the sum of the
/// places of the points, counted in bins.
pub proof fn law_binning_keeps_moments(
    data: Seq<real>,
    xmin: real,
    xmax: real,
    bins: usize,
    threads: usize,
)
    requires
        threads >= 1,
        bins >= 1,
        xmin < xmax,
        (xmax - xmin) / bins as real >= 1real / 1000000000real,
        forall|j: int|
            0 <= j < data.len() ==> xmin <= #[trigger] data[j] <= xmax - (xmax - xmin)
                / bins as real,
    ensures
        ({
            let h = binned(data, xmin, xmax, bins, threads);
            let width = (xmax - xmin) / bins as real;
            &&& sum_to(bins as nat, |i: int| h[i]) == data.len() as real
            &&& sum_to(bins as nat, |i: int| i as real * h[i]) == sum_to(
                data.len(),
                |j: int| (data[j] - xmin) / width,
            )
        }),
{
    let h = binned(data, xmin, xmax, bins, threads);
    let width = (xmax - xmin) / bins as real;
    let (n, b) = (data.len(), bins as nat);
    law_binning_shares_by_hats(data, xmin, xmax, bins, threads);
    let share = |i: int, j: int| linear_share(data[j], xmin, xmax, bins as int, i);
    let pulled = |i: int, j: int| i as real * share(i, j);
    let place = |j: int| (data[j] - xmin) / width;
    let one = |j: int| 1real;
    let by_bin = |i: int| sum_to(n, |j: int| share(i, j));
    let by_point = |j: int| sum_to(b, |i: int| share(i, j));
    let pulled_by_bin = |i: int| sum_to(n, |j: int| pulled(i, j));
    let pulled_by_point = |j: int| sum_to(b, |i: int| pulled(i, j));
    lemma_div_mul(xmax - xmin, bins as real);
    lemma_commute(width, bins as real);
    lemma_distribute(bins as real, 1real, width);
    lemma_units(width);
    assert forall|j: int| 0 <= j < n implies #[trigger] by_point(j) == one(j) && pulled_by_point(j)
        == place(j) by {
        let p = place(j);
        lemma_div_order(data[j] - xmin, width, bins as real - 1real);
        lemma_hats(p, b);
        lemma_sum_same(b, |i: int| share(i, j), |i: int| hat_at(p, i));
        lemma_sum_same(b, |i: int| pulled(i, j), |i: int| i as real * hat_at(p, i));
    }
    assert forall|j: int| 0 <= j < n implies #[trigger] pulled_by_point(j) == place(j) by {
        assert(by_point(j) == one(j));
    }
    assert forall|i: int| 0 <= i < b implies #[trigger] h[i] == by_bin(i) by {
        lemma_sum_same(
            n,
            |j: int| linear_share(data[j], xmin, xmax, bins as int, i),
            |j: int| share(i, j),
        );
    }
    assert forall|i: int| 0 <= i < b implies i as real * #[trigger] h[i] == pulled_by_bin(i) by {
        assert(h[i] == by_bin(i));
        lemma_sum_times(n, |j: int| share(i, j), i as real, |j: int| pulled(i, j));
    }
    lemma_sum_same(b, |i: int| h[i], by_bin);
    lemma_sum_same(b, |i: int| i as real * h[i], pulled_by_bin);
    lemma_sum_swap(b, n, share);
    lemma_sum_swap(b, n, pulled);
    lemma_sum_same(n, by_point, one);
    lemma_sum_same(n, pulled_by_point, place);
    lemma_sum_ones(n);
}

/// A sum of ones is the number of terms.
pub proof fn lemma_sum_ones(n: nat)
    ensures
        sum_to(n, |j: int| 1real) == n as real,
    decreases n,
{
    if n > 0 {
        lemma_sum_ones((n - 1) as nat);
    }
}

} // verus!
