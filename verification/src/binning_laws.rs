//! What linear binning keeps, in exact arithmetic.
use vstd::prelude::*;

use crate::binning::{
    bin_position, bin_width, binned, deposited, histogram, lemma_histogram_len, merged, share,
    zeros,
};
use crate::parallel::{chunk, chunk_count};
use crate::reals::{
    lemma_commute, lemma_distribute, lemma_div_mul, lemma_div_order, lemma_tiny, lemma_total_update,
    lemma_total_zeros, lemma_units,
};
use crate::scalar::{negligible, total, Arith};

verus! {

/// The weight that bin `i` receives from `x`, with zero for none.
pub open spec fn weight(x: real, xmin: real, xmax: real, width: real, bins: nat, i: int) -> real {
    match share(x, xmin, xmax, width, bins, i) {
        Some(w) => w,
        None => 0real,
    }
}

/// The histogram of two pieces of data is the sum of their histograms.
pub proof fn law_histogram_adds(
    a: Seq<real>,
    b: Seq<real>,
    xmin: real,
    xmax: real,
    width: real,
    bins: nat,
)
    ensures
        histogram(a + b, xmin, xmax, width, bins) == Seq::new(
            bins,
            |i: int|
                histogram(a, xmin, xmax, width, bins)[i] + histogram(b, xmin, xmax, width, bins)[i],
        ),
    decreases b.len(),
{
    lemma_histogram_len(a, xmin, xmax, width, bins);
    lemma_histogram_len(b, xmin, xmax, width, bins);
    lemma_histogram_len(a + b, xmin, xmax, width, bins);
    let ha = histogram(a, xmin, xmax, width, bins);
    let goal = Seq::new(bins, |i: int| ha[i] + histogram(b, xmin, xmax, width, bins)[i]);
    if b.len() == 0 {
        assert(a + b =~= a);
        assert(ha =~= goal);
    } else {
        let c = b.drop_last();
        law_histogram_adds(a, c, xmin, xmax, width, bins);
        lemma_histogram_len(c, xmin, xmax, width, bins);
        lemma_histogram_len(a + c, xmin, xmax, width, bins);
        assert((a + b).drop_last() =~= a + c);
        assert(histogram(a + b, xmin, xmax, width, bins) =~= goal);
    }
}

/// The merged histograms of the first `n` chunks are the histogram of the data in them.
proof fn lemma_merged(
    data: Seq<real>,
    xmin: real,
    xmax: real,
    width: real,
    bins: nat,
    size: nat,
    n: nat,
)
    requires
        size >= 1,
        n <= chunk_count(data.len(), size),
    ensures
        merged(data, xmin, xmax, width, bins, size, n) == histogram(
            data.take(
                if n * size <= data.len() {
                    (n * size) as int
                } else {
                    data.len() as int
                },
            ),
            xmin,
            xmax,
            width,
            bins,
        ),
    decreases n,
{
    let len = data.len();
    if n == 0 {
        assert(n * size == 0) by (nonlinear_arith)
            requires
                n == 0,
        ;
        assert(data.take(0) =~= Seq::<real>::empty());
    } else {
        let m = (n - 1) as nat;
        lemma_merged(data, xmin, xmax, width, bins, size, m);
        assert(m * size <= len && n * size == m * size + size) by (nonlinear_arith)
            requires
                size >= 1,
                n == m + 1,
                n <= chunk_count(len, size),
        ;
        let upto = if n * size <= len {
            (n * size) as int
        } else {
            len as int
        };
        let c = chunk(data, size, m as int);
        assert(data.take(upto) =~= data.take((m * size) as int) + c);
        law_histogram_adds(data.take((m * size) as int), c, xmin, xmax, width, bins);
        assert(merged(data, xmin, xmax, width, bins, size, n) =~= histogram(
            data.take(upto),
            xmin,
            xmax,
            width,
            bins,
        ));
    }
}

/// The chunks of the data cover all of it.
pub proof fn lemma_chunks_cover(n: nat, size: nat)
    by (nonlinear_arith)
    requires
        size >= 1,
    ensures
        chunk_count(n, size) * size >= n,
{
}

/// In exact arithmetic the number of threads does not matter: the result is the histogram of
/// the whole data, filled point by point.
pub proof fn law_threads_do_not_matter(
    data: Seq<real>,
    xmin: real,
    xmax: real,
    bins: usize,
    threads: usize,
)
    requires
        threads >= 1,
    ensures
        binned(data, xmin, xmax, bins, threads) == if negligible(bin_width(xmin, xmax, bins)) {
            zeros(bins as nat)
        } else {
            histogram(data, xmin, xmax, bin_width(xmin, xmax, bins), bins as nat)
        },
{
    let width = bin_width(xmin, xmax, bins);
    lemma_histogram_len(data, xmin, xmax, width, bins as nat);
    if bins == 0 {
        assert(histogram(data, xmin, xmax, width, 0) =~= zeros(0));
    } else if !negligible(width) && data.len() > 0 {
        let size = chunk_count(data.len(), threads as nat);
        assert(size >= 1) by (nonlinear_arith)
            requires
                data.len() >= 1,
                threads >= 1,
                size == chunk_count(data.len(), threads as nat),
        ;
        let n = chunk_count(data.len(), size);
        lemma_chunks_cover(data.len(), size);
        lemma_merged(data, xmin, xmax, width, bins as nat, size, n);
        assert(data.take(data.len() as int) =~= data);
    }
}

/// What a data point adds to the sum of the histogram: all of its weight, but for the part
/// that it would pass on beyond the last bin.
pub open spec fn retained(x: real, xmin: real, xmax: real, width: real, bins: nat) -> real {
    let pos = bin_position(x, xmin, width);
    if x < xmax && pos > (bins - 1) as real {
        1real - (pos - (bins - 1) as real)
    } else {
        1real
    }
}

/// The sum of what the data points add.
pub open spec fn retained_total(
    data: Seq<real>,
    xmin: real,
    xmax: real,
    width: real,
    bins: nat,
) -> real
    decreases data.len(),
{
    if data.len() == 0 {
        0real
    } else {
        retained_total(data.drop_last(), xmin, xmax, width, bins) + retained(
            data.last(),
            xmin,
            xmax,
            width,
            bins,
        )
    }
}

/// Where a data point of the range lies among the bins.
proof fn lemma_position(x: real, xmin: real, xmax: real, bins: usize)
    requires
        bins >= 1,
        xmin < xmax,
        xmin <= x <= xmax,
    ensures
        bin_width(xmin, xmax, bins) > 0real,
        bin_width(xmin, xmax, bins) * (bins as real) == xmax - xmin,
        0real <= bin_position(x, xmin, bin_width(xmin, xmax, bins)) <= bins as real,
        x < xmax ==> bin_position(x, xmin, bin_width(xmin, xmax, bins)) < bins as real,
        bin_position(xmin, xmin, bin_width(xmin, xmax, bins)) == 0real,
{
    let width = bin_width(xmin, xmax, bins);
    let b = bins as real;
    lemma_div_mul(xmax - xmin, b);
    lemma_div_order(xmax - xmin, b, 0real);
    assert(0real * b == 0real);
    assert(width > 0real) by (nonlinear_arith)
        requires
            width * b == xmax - xmin,
            xmax - xmin > 0real,
            b >= 1real,
    ;
    assert(b * width == width * b) by (nonlinear_arith);
    lemma_div_order(x - xmin, width, b);
    lemma_div_order(xmin - xmin, width, 0real);
    assert(0real / width == 0real) by (nonlinear_arith)
        requires
            width > 0real,
    ;
}

/// Each weight lies between zero and one, and a point adds to the sum what it retains.
proof fn lemma_deposit(hist: Seq<real>, x: real, xmin: real, xmax: real, bins: usize)
    requires
        hist.len() == bins,
        bins >= 1,
        xmin < xmax,
        xmin <= x <= xmax,
    ensures
        forall|i: int|
            0 <= i < bins ==> 0real <= #[trigger] weight(
                x,
                xmin,
                xmax,
                bin_width(xmin, xmax, bins),
                bins as nat,
                i,
            ) <= 1real,
        total(deposited(hist, x, xmin, xmax, bin_width(xmin, xmax, bins))) == total(hist)
            + retained(x, xmin, xmax, bin_width(xmin, xmax, bins), bins as nat),
{
    let width = bin_width(xmin, xmax, bins);
    lemma_position(x, xmin, xmax, bins);
    let after = deposited(hist, x, xmin, xmax, width);
    if x < xmax {
        let pos = bin_position(x, xmin, width);
        let k = pos.floor();
        assert(k < bins);
        assert(pos.floor_index() == k);
        let past = pos - k as real;
        let left = hist.update(k, hist[k] + (1real - past));
        lemma_total_update(hist, k, 1real - past);
        if k + 1 < bins {
            lemma_total_update(left, k + 1, past);
            assert(after =~= left.update(k + 1, left[k + 1] + past));
        } else {
            assert(after =~= left);
        }
    } else {
        lemma_tiny();
        lemma_total_update(hist, bins - 1, 1real);
        assert(after =~= hist.update(bins - 1, hist[bins - 1] + 1real));
    }
}

/// Linear binning neither makes nor loses weight, but for what the points inside the last bin
/// would pass on beyond it: the histogram of data inside its range sums to what the points
/// retain, and no bin is negative.
pub proof fn law_binning_keeps_weight(data: Seq<real>, xmin: real, xmax: real, bins: usize)
    requires
        bins >= 1,
        xmin < xmax,
        forall|j: int| 0 <= j < data.len() ==> xmin <= #[trigger] data[j] <= xmax,
    ensures
        total(histogram(data, xmin, xmax, bin_width(xmin, xmax, bins), bins as nat))
            == retained_total(data, xmin, xmax, bin_width(xmin, xmax, bins), bins as nat),
        forall|i: int|
            0 <= i < bins ==> #[trigger] histogram(
                data,
                xmin,
                xmax,
                bin_width(xmin, xmax, bins),
                bins as nat,
            )[i] >= 0real,
    decreases data.len(),
{
    let width = bin_width(xmin, xmax, bins);
    if data.len() == 0 {
        assert(zeros::<real>(bins as nat) =~= Seq::new(bins as nat, |i: int| 0real));
        lemma_total_zeros(bins as nat);
    } else {
        let rest = data.drop_last();
        assert forall|j: int| 0 <= j < rest.len() implies xmin <= #[trigger] rest[j] <= xmax by {
            assert(rest[j] == data[j]);
        }
        law_binning_keeps_weight(rest, xmin, xmax, bins);
        let hist = histogram(rest, xmin, xmax, width, bins as nat);
        lemma_histogram_len(rest, xmin, xmax, width, bins as nat);
        lemma_deposit(hist, data.last(), xmin, xmax, bins);
        assert forall|i: int| 0 <= i < bins implies #[trigger] histogram(
            data,
            xmin,
            xmax,
            width,
            bins as nat,
        )[i] >= 0real by {
            assert(weight(data.last(), xmin, xmax, width, bins as nat, i) >= 0real);
            assert(hist[i] >= 0real);
        }
    }
}

/// The weight that data retains is at most one for each point, and all of it where no point
/// lies strictly inside the last bin.
pub proof fn law_retained_weight(data: Seq<real>, xmin: real, xmax: real, bins: usize)
    requires
        bins >= 1,
        xmin < xmax,
        forall|j: int| 0 <= j < data.len() ==> xmin <= #[trigger] data[j] <= xmax,
    ensures
        retained_total(data, xmin, xmax, bin_width(xmin, xmax, bins), bins as nat)
            <= data.len() as real,
        (forall|j: int|
            0 <= j < data.len() ==> #[trigger] data[j] == xmax || bin_position(
                data[j],
                xmin,
                bin_width(xmin, xmax, bins),
            ) <= (bins - 1) as real) ==> retained_total(
            data,
            xmin,
            xmax,
            bin_width(xmin, xmax, bins),
            bins as nat,
        ) == data.len() as real,
    decreases data.len(),
{
    if data.len() > 0 {
        let rest = data.drop_last();
        assert(forall|j: int| 0 <= j < rest.len() ==> #[trigger] rest[j] == data[j]);
        law_retained_weight(rest, xmin, xmax, bins);
        lemma_position(data.last(), xmin, xmax, bins);
        assert(data.last() == data[data.len() - 1]);
    }
}

/// The sum of `i s[i]`.
pub open spec fn moment(s: Seq<real>) -> real
    decreases s.len(),
{
    if s.len() == 0 {
        0real
    } else {
        moment(s.drop_last()) + ((s.len() - 1) as real) * s.last()
    }
}

/// The sum of the places of the data, counted in bins of the width `width` from `xmin`.
pub open spec fn position_total(data: Seq<real>, xmin: real, width: real) -> real
    decreases data.len(),
{
    if data.len() == 0 {
        0real
    } else {
        position_total(data.drop_last(), xmin, width) + bin_position(data.last(), xmin, width)
    }
}

/// Adding `w` to an entry adds its index times `w`.
proof fn lemma_moment_update(s: Seq<real>, i: int, w: real)
    requires
        0 <= i < s.len(),
    ensures
        moment(s.update(i, s[i] + w)) == moment(s) + (i as real) * w,
    decreases s.len(),
{
    let t = s.update(i, s[i] + w);
    if i == s.len() - 1 {
        assert(t.drop_last() =~= s.drop_last());
        lemma_distribute(s[i], w, i as real);
    } else {
        lemma_moment_update(s.drop_last(), i, w);
        assert(t.drop_last() =~= s.drop_last().update(i, s[i] + w));
    }
}

/// A histogram of zeros has no moment.
proof fn lemma_moment_of_zeros(n: nat)
    ensures
        moment(zeros::<real>(n)) == 0real,
    decreases n,
{
    if n > 0 {
        lemma_moment_of_zeros((n - 1) as nat);
        assert(zeros::<real>(n).drop_last() =~= zeros::<real>((n - 1) as nat));
        lemma_units((n - 1) as real);
    }
}

/// Linear binning keeps the first moment: for data that lies at most one bin before the end of the
/// range, the sum of `i h[i]` is the sum of the places of the data, counted in bins.
pub proof fn law_binning_keeps_first_moment(data: Seq<real>, xmin: real, xmax: real, bins: usize)
    requires
        bins >= 1,
        xmin < xmax,
        forall|j: int|
            0 <= j < data.len() ==> xmin <= #[trigger] data[j] <= xmax - bin_width(
                xmin,
                xmax,
                bins,
            ),
    ensures
        moment(histogram(data, xmin, xmax, bin_width(xmin, xmax, bins), bins as nat))
            == position_total(data, xmin, bin_width(xmin, xmax, bins)),
    decreases data.len(),
{
    let width = bin_width(xmin, xmax, bins);
    if data.len() == 0 {
        lemma_moment_of_zeros(bins as nat);
    } else {
        let r = data.drop_last();
        let x = data.last();
        assert(x == data[data.len() - 1]);
        assert forall|j: int| 0 <= j < r.len() implies xmin <= #[trigger] r[j] <= xmax - width by {
            assert(r[j] == data[j]);
        }
        law_binning_keeps_first_moment(r, xmin, xmax, bins);
        let hist = histogram(r, xmin, xmax, width, bins as nat);
        lemma_histogram_len(r, xmin, xmax, width, bins as nat);
        lemma_position(xmin, xmin, xmax, bins);
        lemma_position(x, xmin, xmax, bins);
        let pos = bin_position(x, xmin, width);
        // The point lies at most at the start of the last bin.
        let b = bins as real;
        lemma_distribute(b, 1real, width);
        lemma_units(width);
        lemma_commute(b, width);
        lemma_div_order(x - xmin, width, b - 1real);
        assert(pos <= b - 1real);
        let k = pos.floor();
        assert(pos.floor_index() == k);
        let past = pos - k as real;
        let left = hist.update(k, hist[k] + (1real - past));
        let after = deposited(hist, x, xmin, xmax, width);
        lemma_moment_update(hist, k, 1real - past);
        lemma_distribute(1real, past, k as real);
        lemma_units(k as real);
        if k + 1 < bins {
            lemma_moment_update(left, k + 1, past);
            lemma_distribute(k as real, 1real, past);
            lemma_units(past);
            assert(after =~= left.update(k + 1, left[k + 1] + past));
        } else {
            assert(past == 0real);
            assert(after =~= left);
        }
    }
}

/// The first bin holds at least the weight of the points at the lower end of the range.
pub proof fn law_first_bin_is_filled(data: Seq<real>, xmin: real, xmax: real, bins: usize, at: int)
    requires
        bins >= 1,
        xmin < xmax,
        forall|j: int| 0 <= j < data.len() ==> xmin <= #[trigger] data[j] <= xmax,
        0 <= at < data.len(),
        data[at] == xmin,
    ensures
        histogram(data, xmin, xmax, bin_width(xmin, xmax, bins), bins as nat)[0] >= 1real,
    decreases data.len(),
{
    let width = bin_width(xmin, xmax, bins);
    let rest = data.drop_last();
    assert(forall|j: int| 0 <= j < rest.len() ==> #[trigger] rest[j] == data[j]);
    let hist = histogram(rest, xmin, xmax, width, bins as nat);
    lemma_histogram_len(rest, xmin, xmax, width, bins as nat);
    law_binning_keeps_weight(rest, xmin, xmax, bins);
    lemma_deposit(hist, data.last(), xmin, xmax, bins);
    assert(weight(data.last(), xmin, xmax, width, bins as nat, 0) >= 0real);
    assert(hist[0] >= 0real);
    if at < data.len() - 1 {
        law_first_bin_is_filled(rest, xmin, xmax, bins, at);
    } else {
        lemma_position(xmin, xmin, xmax, bins);
        assert(weight(xmin, xmin, xmax, width, bins as nat, 0) == 1real);
    }
}

} // verus!
