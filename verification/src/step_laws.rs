//! What one more number changes, whatever the arithmetic.
use vstd::prelude::*;

use crate::binning::{binned, histogram, lemma_histogram_len, merged};
use crate::binning_2d::{histogram_2d, lemma_cell_split, lemma_histogram_2d_len, Frame};
use crate::error::KdeError;
use crate::kde::{centres, highest, lowest, normalized, prepared};
use crate::kde_2d::{grand_total, normalized_2d, prepared_2d};
use crate::matrix::{average, covariance, deviation_products};
use crate::parallel::{chunk, chunk_count};
use crate::scalar::{negligible, total, Arith};

verus! {

/// One more number is added to a sum, at its end. The sum of no numbers is zero.
pub proof fn law_total_of_one_more<T: Arith>(s: Seq<T>, v: T)
    ensures
        total(s.push(v)) == total(s).plus(v),
        total(Seq::<T>::empty()) == T::whole(0),
{
    assert(s.push(v).drop_last() =~= s);
}

/// The mean of one more number: the sum with it, over how many there are then. The mean of no numbers
/// is zero over zero, whatever that is.
pub proof fn law_average_of_one_more<T: Arith>(s: Seq<T>, v: T)
    ensures
        average(s.push(v)) == total(s).plus(v).over(T::whole((s.len() + 1) as usize)),
        average(Seq::<T>::empty()) == T::whole(0).over(T::whole(0)),
{
    assert(s.push(v).drop_last() =~= s);
}

/// One more number replaces an end of the range if it lies beyond it.
pub proof fn law_range_of_one_more<T: Arith>(s: Seq<T>, v: T)
    requires
        s.len() >= 1,
    ensures
        lowest(seq![v]) == v,
        highest(seq![v]) == v,
        lowest(s.push(v)) == if v.below(lowest(s)) {
            v
        } else {
            lowest(s)
        },
        highest(s.push(v)) == if highest(s).below(v) {
            v
        } else {
            highest(s)
        },
{
    assert(s.push(v).drop_last() =~= s);
    assert(s.push(v).last() == v);
    assert(seq![v][0] == v);
}

/// The ends of a range are among the numbers.
pub proof fn law_ends_are_numbers<T: Arith>(s: Seq<T>)
    requires
        s.len() >= 1,
    ensures
        s.contains(lowest(s)),
        s.contains(highest(s)),
    decreases s.len(),
{
    if s.len() == 1 {
        assert(s[0] == lowest(s));
    } else {
        let rest = s.drop_last();
        law_ends_are_numbers(rest);
        let i = choose|i: int| 0 <= i < rest.len() && rest[i] == lowest(rest);
        let j = choose|j: int| 0 <= j < rest.len() && rest[j] == highest(rest);
        assert(s[i] == lowest(rest) && s[j] == highest(rest));
        assert(s[s.len() - 1] == s.last());
    }
}

/// A range is refused as inverted only where it is: the upper end that the error tells lies below the
/// lower one, and both are numbers of the data.
pub proof fn law_inverted_range<T: Arith>(data: Seq<T>, bins: usize, sigma: T, threads: usize)
    ensures
        match prepared(data, bins, sigma, threads) {
            Err(KdeError::InvertedRange { axis, max, min }) => axis is X && max.below(min)
                && data.contains(max) && data.contains(min),
            Err(KdeError::BinTooNarrow) => true,
            Err(KdeError::TooFewSamples) => true,
            Err(KdeError::NoBins) => true,
            Err(KdeError::NonFinite(_)) => true,
            Err(KdeError::NegativeSigma) => true,
            Err(_) => false,
            Ok(_) => true,
        },
{
    if data.len() >= 1 {
        law_ends_are_numbers(data);
    }
}

/// A frame is refused as inverted only where it is, along the axis that the error tells.
pub proof fn law_inverted_frame<T: Arith>(x: Seq<T>, y: Seq<T>, bins: usize, f: T, threads: usize)
    ensures
        match prepared_2d(x, y, bins, f, threads) {
            Err(KdeError::InvertedRange { axis, max, min }) => max.below(min) && (axis is X
                ==> exists|s: T|
                max == highest(x).plus(#[trigger] T::ratio(1, 2).times(s)) && min == lowest(
                    x,
                ).minus(T::ratio(1, 2).times(s))) && (axis is Y ==> exists|s: T|
                max == highest(y).plus(#[trigger] T::ratio(1, 2).times(s)) && min == lowest(
                    y,
                ).minus(T::ratio(1, 2).times(s))),
            Err(_) => false,
            Ok(_) => true,
        },
{
}

/// The centre of the bin `i` lies `i` bins and a half beyond the start.
pub proof fn law_centre<T: Arith>(xmin: T, dx: T, bins: nat, i: int)
    requires
        0 <= i < bins <= usize::MAX,
    ensures
        centres(xmin, dx, bins).len() == bins,
        centres(xmin, dx, bins)[i] == xmin.plus(T::whole(i as usize).plus(T::ratio(1, 2)).times(dx)),
{
}

/// The sums of products of deviations, for one more point.
pub proof fn law_deviations_of_one_more<T: Arith>(
    x: Seq<T>,
    y: Seq<T>,
    v: T,
    w: T,
    mx: T,
    my: T,
)
    ensures
        deviation_products(x.push(v), y.push(w), mx, my) == deviation_products(x, y, mx, my).plus(
            v.minus(mx).times(w.minus(my)),
        ),
        deviation_products(Seq::<T>::empty(), Seq::<T>::empty(), mx, my) == T::whole(0),
{
    assert(x.push(v).drop_last() =~= x);
    assert(y.push(w).drop_last() =~= y);
}

/// The covariance of one point, of the whole population and estimated from a sample: its deviations
/// over one, and over one minus one, whatever that is.
pub proof fn law_covariance_of_one_point<T: Arith>(v: T, w: T)
    ensures
        ({
            let (zero, one) = (T::whole(0), T::whole(1));
            let (dx, dy) = (v.minus(zero.plus(v).over(one)), w.minus(zero.plus(w).over(one)));
            let p = covariance(seq![v], seq![w], true);
            let s = covariance(seq![v], seq![w], false);
            &&& p.xx == zero.plus(dx.times(dx)).over(one)
            &&& p.xy == zero.plus(dx.times(dy)).over(one) && p.yx == p.xy
            &&& p.yy == zero.plus(dy.times(dy)).over(one)
            &&& s.xx == zero.plus(dx.times(dx)).over(one.minus(one))
            &&& s.xy == zero.plus(dx.times(dy)).over(one.minus(one)) && s.yx == s.xy
            &&& s.yy == zero.plus(dy.times(dy)).over(one.minus(one))
        }),
{
    let (x, y, e) = (seq![v], seq![w], Seq::<T>::empty());
    assert(x =~= e.push(v) && y =~= e.push(w));
    law_average_of_one_more(e, v);
    law_average_of_one_more(e, w);
    law_total_of_one_more(e, v);
    law_deviations_of_one_more(e, e, v, v, average(x), average(x));
    law_deviations_of_one_more(e, e, v, w, average(x), average(y));
    law_deviations_of_one_more(e, e, w, w, average(y), average(y));
}

/// One more point in a histogram: a point in the range is shared between its bin and the next, in
/// proportion to how far it has moved through its bin; a point that closes the range counts for the
/// last bin; all other points, undefined ones among them, count for nothing.
pub proof fn law_histogram_of_one_more<T: Arith>(
    data: Seq<T>,
    x: T,
    xmin: T,
    xmax: T,
    width: T,
    bins: nat,
    i: int,
)
    requires
        0 <= i < bins,
    ensures
        ({
            let h = histogram(data, xmin, xmax, width, bins);
            let g = histogram(data.push(x), xmin, xmax, width, bins);
            let place = x.minus(xmin).over(width);
            let k = place.floor_index();
            let past = place.minus(T::whole(k));
            let within = xmin.at_most(x) && x.below(xmax);
            &&& within && i == k ==> g[i] == h[i].plus(T::whole(1).minus(past))
            &&& within && i == k + 1 ==> g[i] == h[i].plus(past)
            &&& within && i != k && i != k + 1 ==> g[i] == h[i]
            &&& !within && negligible(x.minus(xmax)) && i == bins - 1 ==> g[i] == h[i].plus(
                T::whole(1),
            )
            &&& !within && !(negligible(x.minus(xmax)) && i == bins - 1) ==> g[i] == h[i]
            &&& histogram(Seq::<T>::empty(), xmin, xmax, width, bins)[i] == T::whole(0)
        }),
{
    assert(data.push(x).drop_last() =~= data);
    lemma_histogram_len(data, xmin, xmax, width, bins);
}

/// On one thread there is one histogram.
pub proof fn law_binning_on_one_thread<T: Arith>(
    data: Seq<T>,
    xmin: T,
    xmax: T,
    bins: usize,
    i: int,
)
    requires
        0 <= i < bins,
        data.len() >= 1,
    ensures
        ({
            let width = xmax.minus(xmin).over(T::whole(bins));
            binned(data, xmin, xmax, bins, 1)[i] == if negligible(width) {
                T::whole(0)
            } else {
                T::whole(0).plus(histogram(data, xmin, xmax, width, bins as nat)[i])
            }
        }),
{
    let width = xmax.minus(xmin).over(T::whole(bins));
    let n = data.len();
    assert(chunk_count(n, 1) == n);
    assert(n / n == 1 && n % n == 0) by (nonlinear_arith)
        requires
            n >= 1,
    ;
    assert(chunk_count(n, n) == 1);
    assert(chunk(data, n, 0) =~= data);
    reveal_with_fuel(merged, 2);
}

/// A number counts as zero if it and its opposite are smaller than a billionth.
pub proof fn law_size<T: Arith>(a: T)
    ensures
        negligible(a) == if a.below(T::whole(0)) {
            a.negated().below(T::ratio(1, 1_000_000_000))
        } else {
            a.below(T::ratio(1, 1_000_000_000))
        },
{
}

/// One more point in a histogram of cells: a point that closes the frame along both axes counts for
/// the last cell, and a point that neither lies in the frame nor closes it, an undefined one among
/// them, counts for nothing.
pub proof fn law_histogram_2d_of_one_more<T: Arith>(
    x: Seq<T>,
    y: Seq<T>,
    v: T,
    w: T,
    f: Frame<T>,
    xbins: int,
    ybins: int,
    n: int,
)
    requires
        x.len() == y.len(),
        xbins >= 1,
        ybins >= 1,
        0 <= n < xbins * ybins,
        !(f.xmin.at_most(v) && v.below(f.xmax) && f.ymin.at_most(w) && w.below(f.ymax)),
    ensures
        ({
            let h = histogram_2d(x, y, f, xbins, ybins);
            let g = histogram_2d(x.push(v), y.push(w), f, xbins, ybins);
            let closing = negligible(v.minus(f.xmax)) && negligible(w.minus(f.ymax));
            &&& closing && n == xbins * ybins - 1 ==> g[n] == h[n].plus(T::whole(1))
            &&& !closing || n < xbins * ybins - 1 ==> g[n] == h[n]
        }),
{
    assert(x.push(v).drop_last() =~= x);
    assert(y.push(w).drop_last() =~= y);
    lemma_histogram_2d_len(x, y, f, xbins, ybins);
    lemma_cell_split(n, xbins, ybins);
    lemma_last_cell(n / ybins, n % ybins, xbins, ybins);
}

/// The last cell has the last index.
proof fn lemma_last_cell(i: int, j: int, xbins: int, ybins: int)
    by (nonlinear_arith)
    requires
        0 <= i < xbins,
        0 <= j < ybins,
    ensures
        i == xbins - 1 && j == ybins - 1 <==> i * ybins + j == xbins * ybins - 1,
{
}

/// What is normalized, and what is refused, with undefined numbers among the entries: the entries are
/// divided by their integral unless it counts as zero; then they are refused if one of them is as
/// large as a billionth, and kept as they are if none is.
pub proof fn law_normalization<T: Arith>(x: Seq<T>, hist: Seq<T>, dx: T)
    ensures
        ({
            let integral = total(hist).times(dx);
            let zero = negligible(integral);
            let some = exists|i: int|
                0 <= i < hist.len() && T::ratio(1, 1_000_000_000).at_most(
                    if (#[trigger] hist[i]).below(T::whole(0)) {
                        hist[i].negated()
                    } else {
                        hist[i]
                    },
                );
            match normalized(x, hist, dx) {
                Ok((grid, pdf)) => {
                    &&& grid == x
                    &&& pdf.len() == hist.len()
                    &&& !zero ==> forall|i: int|
                        0 <= i < hist.len() ==> #[trigger] pdf[i] == hist[i].over(integral)
                    &&& zero ==> !some && pdf == hist
                },
                Err(e) => zero && some && e == KdeError::<T>::NotNormalizable,
            }
        }),
{
}

/// What is normalized, and what is refused, in two dimensions: cells whose widths are not above zero,
/// and an integral that counts as zero.
pub proof fn law_normalization_2d<T: Arith>(
    x: Seq<T>,
    y: Seq<T>,
    rows: Seq<Seq<T>>,
    dx: T,
    dy: T,
)
    ensures
        ({
            let integral = grand_total(rows).times(dx).times(dy);
            let narrow = dx.at_most(T::whole(0)) || dy.at_most(T::whole(0));
            match normalized_2d(x, y, rows, dx, dy) {
                Ok((grid, other, pdf)) => {
                    &&& !narrow && !negligible(integral)
                    &&& grid == x && other == y
                    &&& pdf.len() == rows.len()
                    &&& forall|i: int|
                        0 <= i < rows.len() ==> (#[trigger] pdf[i]).len() == rows[i].len()
                    &&& forall|i: int, j: int|
                        0 <= i < rows.len() && 0 <= j < rows[i].len() ==> #[trigger] pdf[i][j]
                            == rows[i][j].over(integral)
                },
                Err(KdeError::CellTooNarrow) => narrow,
                Err(KdeError::NotNormalizable) => !narrow && negligible(integral),
                Err(_) => false,
            }
        }),
{
}

/// One more number is added to the sum over rows, at the end of the last one.
pub proof fn law_grand_total_of_one_more<T: Arith>(rows: Seq<Seq<T>>, row: Seq<T>, v: T)
    ensures
        grand_total(rows.push(row.push(v))) == grand_total(rows.push(row)).plus(v),
        grand_total(rows.push(Seq::<T>::empty())) == grand_total(rows),
        grand_total(Seq::<Seq<T>>::empty()) == T::whole(0),
{
    assert(rows.push(row.push(v)).drop_last() =~= rows);
    assert(rows.push(row).drop_last() =~= rows);
    assert(rows.push(Seq::<T>::empty()).drop_last() =~= rows);
    assert(row.push(v).drop_last() =~= row);
}

} // verus!
