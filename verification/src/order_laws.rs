//! Histograms add up, and the order of the data does not matter for them, in exact arithmetic.
use vstd::prelude::*;

use crate::binning::{bin_width, binned, deposited, histogram, lemma_histogram_len, zeros};
use crate::binning_2d::{
    binned_2d, deposited_2d, histogram_2d, lemma_cell_bound, lemma_histogram_2d_len, Frame,
};
use crate::binning_2d_laws::{law_histogram_2d_adds, law_threads_do_not_matter_2d};
use crate::binning_laws::{law_histogram_adds, law_threads_do_not_matter};
use crate::scalar::Arith;

verus! {

/// The histogram of concatenated data is the sum of the histograms, for any numbers of threads.
pub proof fn law_binning_adds(
    a: Seq<real>,
    b: Seq<real>,
    xmin: real,
    xmax: real,
    bins: usize,
    whole: usize,
    first: usize,
    second: usize,
)
    requires
        whole >= 1,
        first >= 1,
        second >= 1,
    ensures
        binned(a + b, xmin, xmax, bins, whole) == Seq::new(
            bins as nat,
            |i: int|
                binned(a, xmin, xmax, bins, first)[i] + binned(b, xmin, xmax, bins, second)[i],
        ),
{
    law_threads_do_not_matter(a + b, xmin, xmax, bins, whole);
    law_threads_do_not_matter(a, xmin, xmax, bins, first);
    law_threads_do_not_matter(b, xmin, xmax, bins, second);
    let w = bin_width(xmin, xmax, bins);
    let n = bins as nat;
    law_histogram_adds(a, b, xmin, xmax, w, n);
    lemma_histogram_len(a + b, xmin, xmax, w, n);
    assert(binned(a + b, xmin, xmax, bins, whole) =~= Seq::new(
        n,
        |i: int| binned(a, xmin, xmax, bins, first)[i] + binned(b, xmin, xmax, bins, second)[i],
    ));
}

/// The histogram is that of the data without one point, with that point added.
proof fn lemma_histogram_without(
    data: Seq<real>,
    k: int,
    xmin: real,
    xmax: real,
    width: real,
    bins: nat,
)
    requires
        0 <= k < data.len(),
    ensures
        histogram(data, xmin, xmax, width, bins) == deposited(
            histogram(data.remove(k), xmin, xmax, width, bins),
            data[k],
            xmin,
            xmax,
            width,
        ),
{
    let (front, back) = (data.take(k), data.skip(k + 1));
    let one = seq![data[k]];
    assert(data.remove(k) =~= front + back);
    assert(data =~= front + (one + back));
    let (hf, hb) = (
        histogram(front, xmin, xmax, width, bins),
        histogram(back, xmin, xmax, width, bins),
    );
    law_histogram_adds(front, one + back, xmin, xmax, width, bins);
    law_histogram_adds(one, back, xmin, xmax, width, bins);
    law_histogram_adds(front, back, xmin, xmax, width, bins);
    lemma_histogram_len(front, xmin, xmax, width, bins);
    lemma_histogram_len(back, xmin, xmax, width, bins);
    lemma_histogram_len(data, xmin, xmax, width, bins);
    assert(one.drop_last() =~= Seq::<real>::empty());
    assert(histogram(one.drop_last(), xmin, xmax, width, bins) == zeros::<real>(bins));
    assert(histogram(one, xmin, xmax, width, bins) == deposited(
        zeros::<real>(bins),
        data[k],
        xmin,
        xmax,
        width,
    ));
    assert(histogram(data, xmin, xmax, width, bins) =~= deposited(
        histogram(data.remove(k), xmin, xmax, width, bins),
        data[k],
        xmin,
        xmax,
        width,
    ));
}

/// Reordering the data leaves the histogram as it is.
pub proof fn law_histogram_of_reordered_data(
    a: Seq<real>,
    b: Seq<real>,
    xmin: real,
    xmax: real,
    width: real,
    bins: nat,
)
    requires
        a.to_multiset() == b.to_multiset(),
    ensures
        histogram(a, xmin, xmax, width, bins) == histogram(b, xmin, xmax, width, bins),
    decreases a.len(),
{
    broadcast use vstd::seq_lib::group_to_multiset_ensures;

    vstd::seq_lib::to_multiset_len(a);
    vstd::seq_lib::to_multiset_len(b);
    if a.len() > 0 {
        let last = a.last();
        assert(a.contains(last)) by {
            assert(a[a.len() - 1] == last);
        }
        assert(a.to_multiset().count(last) > 0);
        assert(b.contains(last));
        let k = choose|k: int| 0 <= k < b.len() && b[k] == last;
        assert(a.remove(a.len() - 1) =~= a.drop_last());
        assert(a.drop_last().to_multiset() =~= b.remove(k).to_multiset());
        law_histogram_of_reordered_data(a.drop_last(), b.remove(k), xmin, xmax, width, bins);
        lemma_histogram_without(b, k, xmin, xmax, width, bins);
    } else {
        assert(a =~= b);
    }
}

/// Neither the order of the data nor the number of threads matters for the histogram.
pub proof fn law_binning_of_reordered_data(
    a: Seq<real>,
    b: Seq<real>,
    xmin: real,
    xmax: real,
    bins: usize,
    threads: usize,
    others: usize,
)
    requires
        threads >= 1,
        others >= 1,
        a.to_multiset() == b.to_multiset(),
    ensures
        binned(a, xmin, xmax, bins, threads) == binned(b, xmin, xmax, bins, others),
{
    law_threads_do_not_matter(a, xmin, xmax, bins, threads);
    law_threads_do_not_matter(b, xmin, xmax, bins, others);
    law_histogram_of_reordered_data(
        a,
        b,
        xmin,
        xmax,
        bin_width(xmin, xmax, bins),
        bins as nat,
    );
}

/// The points made of the entries of `x` and `y`.
pub open spec fn points<T>(x: Seq<T>, y: Seq<T>) -> Seq<(T, T)> {
    Seq::new(x.len(), |i: int| (x[i], y[i]))
}

/// The histogram of concatenated points is the sum of the histograms, cell by cell, for any numbers
/// of threads.
pub proof fn law_binning_2d_adds(
    x: Seq<real>,
    y: Seq<real>,
    v: Seq<real>,
    w: Seq<real>,
    f: Frame<real>,
    xbins: usize,
    ybins: usize,
    whole: usize,
    first: usize,
    second: usize,
)
    requires
        x.len() == y.len(),
        v.len() == w.len(),
        xbins >= 1,
        ybins >= 1,
        whole >= 1,
        first >= 1,
        second >= 1,
    ensures
        binned_2d(x + v, y + w, f, xbins, ybins, whole) == Seq::new(
            xbins as nat,
            |i: int|
                Seq::new(
                    ybins as nat,
                    |j: int|
                        binned_2d(x, y, f, xbins, ybins, first)[i][j] + binned_2d(
                            v,
                            w,
                            f,
                            xbins,
                            ybins,
                            second,
                        )[i][j],
                ),
        ),
{
    law_threads_do_not_matter_2d(x + v, y + w, f, xbins, ybins, whole);
    law_threads_do_not_matter_2d(x, y, f, xbins, ybins, first);
    law_threads_do_not_matter_2d(v, w, f, xbins, ybins, second);
    let (m, n) = (xbins as int, ybins as int);
    lemma_cell_bound(0, 0, m, n);
    law_histogram_2d_adds(x, y, v, w, f, m, n);
    let all = binned_2d(x + v, y + w, f, xbins, ybins, whole);
    let (a, b) = (
        binned_2d(x, y, f, xbins, ybins, first),
        binned_2d(v, w, f, xbins, ybins, second),
    );
    let goal = Seq::new(
        xbins as nat,
        |i: int| Seq::new(ybins as nat, |j: int| a[i][j] + b[i][j]),
    );
    assert forall|i: int| 0 <= i < m implies #[trigger] all[i] == goal[i] by {
        assert forall|j: int| 0 <= j < n implies #[trigger] all[i][j] == goal[i][j] by {
            lemma_cell_bound(i, j, m, n);
        }
        assert(all[i] =~= goal[i]);
    }
    assert(all =~= goal);
}

/// The histogram is that of the points without one, with that point added.
proof fn lemma_histogram_2d_without(
    x: Seq<real>,
    y: Seq<real>,
    k: int,
    f: Frame<real>,
    xbins: int,
    ybins: int,
)
    requires
        x.len() == y.len(),
        0 <= k < x.len(),
        0 <= xbins * ybins,
    ensures
        histogram_2d(x, y, f, xbins, ybins) == deposited_2d(
            histogram_2d(x.remove(k), y.remove(k), f, xbins, ybins),
            f,
            x[k],
            y[k],
            xbins,
            ybins,
        ),
{
    let (xf, xb) = (x.take(k), x.skip(k + 1));
    let (yf, yb) = (y.take(k), y.skip(k + 1));
    let (a, b) = (seq![x[k]], seq![y[k]]);
    assert(x.remove(k) =~= xf + xb);
    assert(y.remove(k) =~= yf + yb);
    assert(x =~= xf + (a + xb));
    assert(y =~= yf + (b + yb));
    law_histogram_2d_adds(xf, yf, a + xb, b + yb, f, xbins, ybins);
    law_histogram_2d_adds(a, b, xb, yb, f, xbins, ybins);
    law_histogram_2d_adds(xf, yf, xb, yb, f, xbins, ybins);
    lemma_histogram_2d_len(x, y, f, xbins, ybins);
    assert(a.drop_last() =~= Seq::<real>::empty());
    assert(b.drop_last() =~= Seq::<real>::empty());
    let none = zeros::<real>((xbins * ybins) as nat);
    assert(histogram_2d(a.drop_last(), b.drop_last(), f, xbins, ybins) == none);
    assert(histogram_2d(a, b, f, xbins, ybins) == deposited_2d(none, f, x[k], y[k], xbins, ybins));
    assert(histogram_2d(x, y, f, xbins, ybins) =~= deposited_2d(
        histogram_2d(x.remove(k), y.remove(k), f, xbins, ybins),
        f,
        x[k],
        y[k],
        xbins,
        ybins,
    ));
}

/// Reordering the points leaves the histogram as it is.
pub proof fn law_histogram_of_reordered_points(
    x: Seq<real>,
    y: Seq<real>,
    v: Seq<real>,
    w: Seq<real>,
    f: Frame<real>,
    xbins: int,
    ybins: int,
)
    requires
        x.len() == y.len(),
        v.len() == w.len(),
        0 <= xbins * ybins,
        points(x, y).to_multiset() == points(v, w).to_multiset(),
    ensures
        histogram_2d(x, y, f, xbins, ybins) == histogram_2d(v, w, f, xbins, ybins),
    decreases x.len(),
{
    broadcast use vstd::seq_lib::group_to_multiset_ensures;

    let (p, q) = (points(x, y), points(v, w));
    vstd::seq_lib::to_multiset_len(p);
    vstd::seq_lib::to_multiset_len(q);
    if x.len() > 0 {
        let last = p.last();
        assert(p.contains(last)) by {
            assert(p[p.len() - 1] == last);
        }
        assert(p.to_multiset().count(last) > 0);
        assert(q.contains(last));
        let k = choose|k: int| 0 <= k < q.len() && q[k] == last;
        assert(p.remove(p.len() - 1) =~= p.drop_last());
        assert(points(x.drop_last(), y.drop_last()) =~= p.drop_last());
        assert(points(v.remove(k), w.remove(k)) =~= q.remove(k));
        assert(p.drop_last().to_multiset() =~= q.remove(k).to_multiset());
        law_histogram_of_reordered_points(
            x.drop_last(),
            y.drop_last(),
            v.remove(k),
            w.remove(k),
            f,
            xbins,
            ybins,
        );
        lemma_histogram_2d_without(v, w, k, f, xbins, ybins);
    }
}

/// Neither the order of the points nor the number of threads matters for the histogram.
pub proof fn law_binning_of_reordered_points(
    x: Seq<real>,
    y: Seq<real>,
    v: Seq<real>,
    w: Seq<real>,
    f: Frame<real>,
    xbins: usize,
    ybins: usize,
    threads: usize,
    others: usize,
)
    requires
        x.len() == y.len(),
        v.len() == w.len(),
        xbins >= 1,
        ybins >= 1,
        threads >= 1,
        others >= 1,
        points(x, y).to_multiset() == points(v, w).to_multiset(),
    ensures
        binned_2d(x, y, f, xbins, ybins, threads) == binned_2d(v, w, f, xbins, ybins, others),
{
    law_threads_do_not_matter_2d(x, y, f, xbins, ybins, threads);
    law_threads_do_not_matter_2d(v, w, f, xbins, ybins, others);
    lemma_cell_bound(0, 0, xbins as int, ybins as int);
    law_histogram_of_reordered_points(x, y, v, w, f, xbins as int, ybins as int);
}

} // verus!
