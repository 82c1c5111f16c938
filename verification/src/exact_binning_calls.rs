//! What histograms of exact fractions have in common, where they are defined.
use vstd::prelude::*;

use crate::binning::{bin_width, binned, histogram, merged};
use crate::binning_2d::{binned_2d, cell_total, frame, histogram_2d, is_blank, Frame};
use crate::binning_laws::{
    law_binning_keeps_first_moment, law_binning_keeps_weight, law_threads_do_not_matter, moment,
    position_total, retained_total,
};
use crate::exact::Exact;
use crate::exact_estimates::{all_placed, law_exact_binning, lemma_within_is_placed, placed, within};
use crate::exact_estimates_2d::{
    law_exact_binning_2d, point_defined, points_defined, row_values, rows_defined,
};
use crate::exact_relation::{
    all_defined, group_stand, lemma_stand_negligible, lemma_stand_order, stands_for, values,
};
use crate::exact_terms::{
    agree, law_equal_values_are_equal_fractions, law_exact_results_are_proper, lemma_agree, proper,
};
use crate::order_laws::{
    law_binning_2d_adds, law_binning_adds, law_binning_of_reordered_data,
    law_binning_of_reordered_points, points,
};
use crate::parallel::{chunk, chunk_count};
use crate::scalar::{negligible, total, Arith};

verus! {

/// The weights of a histogram are in lowest terms.
pub proof fn lemma_proper_histogram(
    data: Seq<Exact>,
    xmin: Exact,
    xmax: Exact,
    bins: usize,
    threads: usize,
    i: int,
)
    requires
        0 <= i < bins,
    ensures
        binned(data, xmin, xmax, bins, threads).len() == bins,
        proper(binned(data, xmin, xmax, bins, threads)[i]),
{
    law_exact_results_are_proper(xmin, xmax, 0, 0, 1);
    let width = bin_width(xmin, xmax, bins);
    if !(negligible(width) || data.len() == 0) {
        let size = chunk_count(data.len(), threads as nat);
        let n = chunk_count(data.len(), size);
        if n > 0 {
            let before = merged(data, xmin, xmax, width, bins as nat, size, (n - 1) as nat);
            let local = histogram(
                chunk(data, size, n - 1),
                xmin,
                xmax,
                width,
                bins as nat,
            );
            law_exact_results_are_proper(before[i], local[i], 0, 0, 1);
        }
    }
}

/// Histograms with the same defined values are the same.
proof fn lemma_same_histogram(
    a: Seq<Exact>,
    b: Seq<Exact>,
    xmin: Exact,
    xmax: Exact,
    bins: usize,
    threads: usize,
    others: usize,
)
    requires
        ({
            let (h, g) = (
                binned(a, xmin, xmax, bins, threads),
                binned(b, xmin, xmax, bins, others),
            );
            all_defined(h) && all_defined(g) && values(h) == values(g)
        }),
    ensures
        binned(a, xmin, xmax, bins, threads) == binned(b, xmin, xmax, bins, others),
{
    let (h, g) = (binned(a, xmin, xmax, bins, threads), binned(b, xmin, xmax, bins, others));
    assert(values(h).len() == values(g).len());
    assert forall|i: int| 0 <= i < bins implies h[i] == #[trigger] g[i] by {
        lemma_proper_histogram(a, xmin, xmax, bins, threads, i);
        lemma_proper_histogram(b, xmin, xmax, bins, others, i);
        assert(h[i].defined() && g[i].defined());
        assert(values(h)[i] == values(g)[i]);
        law_equal_values_are_equal_fractions(h[i], g[i]);
    }
    if bins > 0 {
        lemma_proper_histogram(a, xmin, xmax, bins, threads, 0);
        lemma_proper_histogram(b, xmin, xmax, bins, others, 0);
    }
    assert(h =~= g);
}

/// The histogram of concatenated data is the sum of the histograms of its parts: of three calls, on
/// any numbers of threads, whose results are defined.
pub proof fn law_exact_binning_adds(
    a: Seq<Exact>,
    b: Seq<Exact>,
    xmin: Exact,
    xmax: Exact,
    bins: usize,
    whole: usize,
    first: usize,
    second: usize,
)
    requires
        whole >= 1,
        first >= 1,
        second >= 1,
        xmin.defined(),
        xmax.defined(),
        bin_width(xmin, xmax, bins).defined(),
        all_placed(a, xmin, xmax),
        all_placed(b, xmin, xmax),
        all_defined(binned(a + b, xmin, xmax, bins, whole)),
        all_defined(binned(a, xmin, xmax, bins, first)),
        all_defined(binned(b, xmin, xmax, bins, second)),
    ensures
        forall|i: int|
            0 <= i < bins ==> {
                let h = #[trigger] binned(a + b, xmin, xmax, bins, whole)[i];
                let f = binned(a, xmin, xmax, bins, first)[i];
                let s = binned(b, xmin, xmax, bins, second)[i];
                h.value() == f.value() + s.value() && agree(h, f.plus(s))
            },
{
    broadcast use group_stand;

    let (low, high) = (xmin.value(), xmax.value());
    assert forall|i: int| 0 <= i < (a + b).len() implies placed(
        #[trigger] (a + b)[i],
        xmin,
        xmax,
    ) by {
        if i < a.len() {
            assert(placed(a[i], xmin, xmax));
        } else {
            assert(placed(b[i - a.len()], xmin, xmax));
        }
    }
    assert(values(a + b) =~= values(a) + values(b));
    law_exact_binning(a + b, xmin, xmax, bins, whole);
    law_exact_binning(a, xmin, xmax, bins, first);
    law_exact_binning(b, xmin, xmax, bins, second);
    law_binning_adds(values(a), values(b), low, high, bins, whole, first, second);
    let h = binned(a + b, xmin, xmax, bins, whole);
    let f = binned(a, xmin, xmax, bins, first);
    let s = binned(b, xmin, xmax, bins, second);
    assert forall|i: int| 0 <= i < bins implies (#[trigger] h[i]).value() == f[i].value()
        + s[i].value() && agree(h[i], f[i].plus(s[i])) by {
        lemma_proper_histogram(a + b, xmin, xmax, bins, whole, i);
        lemma_proper_histogram(a, xmin, xmax, bins, first, i);
        lemma_proper_histogram(b, xmin, xmax, bins, second, i);
        assert(values(h)[i] == values(f)[i] + values(s)[i]);
        law_exact_results_are_proper(f[i], s[i], 0, 0, 1);
        assert(stands_for(f[i].plus(s[i]), f[i].value().plus(s[i].value())));
        lemma_agree(h[i], f[i].plus(s[i]), h[i].value());
    }
}

/// Linear binning keeps weight and the first moment: on any number of threads, the histogram of data
/// inside its range sums to what the points retain and has no negative bin, and the sum of `i h[i]`
/// is the sum of the places of the data, counted in bins, where they lie at most one bin before the
/// end of the range.
pub proof fn law_exact_binning_keeps_weight_and_moment(
    data: Seq<Exact>,
    xmin: Exact,
    xmax: Exact,
    bins: usize,
    threads: usize,
)
    requires
        threads >= 1,
        bins >= 1,
        xmin.defined(),
        xmax.defined(),
        xmin.below(xmax),
        bin_width(xmin, xmax, bins).defined(),
        !negligible(bin_width(xmin, xmax, bins)),
        all_defined(data),
        within(data, xmin, xmax),
        all_defined(binned(data, xmin, xmax, bins, threads)),
    ensures
        ({
            let h = values(binned(data, xmin, xmax, bins, threads));
            let (t, low, high) = (values(data), xmin.value(), xmax.value());
            let width = bin_width(low, high, bins);
            &&& h.len() == bins
            &&& total(h) == retained_total(t, low, high, width, bins as nat)
            &&& forall|i: int| 0 <= i < bins ==> #[trigger] h[i] >= 0real
            &&& (forall|j: int| 0 <= j < t.len() ==> #[trigger] t[j] <= high - width) ==> moment(h)
                == position_total(t, low, width)
        }),
{
    broadcast use group_stand;

    let (t, low, high) = (values(data), xmin.value(), xmax.value());
    let (width, w) = (bin_width(xmin, xmax, bins), bin_width(low, high, bins));
    lemma_within_is_placed(data, xmin, xmax);
    law_exact_binning(data, xmin, xmax, bins, threads);
    law_threads_do_not_matter(t, low, high, bins, threads);
    lemma_stand_order(xmin, xmax, low, high);
    assert(stands_for(width, w));
    lemma_stand_negligible(width, w);
    assert forall|j: int| 0 <= j < t.len() implies low <= #[trigger] t[j] <= high by {
        assert(xmin.at_most(data[j]) && data[j].at_most(xmax));
        lemma_stand_order(xmin, data[j], low, t[j]);
        lemma_stand_order(data[j], xmax, t[j], high);
    }
    lemma_proper_histogram(data, xmin, xmax, bins, threads, 0);
    law_binning_keeps_weight(t, low, high, bins);
    let h = values(binned(data, xmin, xmax, bins, threads));
    assert forall|i: int| 0 <= i < bins implies #[trigger] h[i] >= 0real by {
        assert(histogram(t, low, high, w, bins as nat)[i] >= 0real);
    }
    if forall|j: int| 0 <= j < t.len() ==> #[trigger] t[j] <= high - w {
        law_binning_keeps_first_moment(t, low, high, bins);
    }
}

/// Reordered fractions have reordered values.
pub proof fn lemma_reordered_values(a: Seq<Exact>, b: Seq<Exact>)
    requires
        a.to_multiset() == b.to_multiset(),
    ensures
        values(a).to_multiset() == values(b).to_multiset(),
        forall|v: Exact| #[trigger] a.contains(v) <==> b.contains(v),
    decreases a.len(),
{
    broadcast use vstd::seq_lib::group_to_multiset_ensures;

    vstd::seq_lib::to_multiset_len(a);
    vstd::seq_lib::to_multiset_len(b);
    assert forall|v: Exact| #[trigger] a.contains(v) <==> b.contains(v) by {
        assert(a.contains(v) <==> a.to_multiset().count(v) > 0);
        assert(b.contains(v) <==> b.to_multiset().count(v) > 0);
    }
    if a.len() > 0 {
        let last = a.last();
        assert(a[a.len() - 1] == last);
        assert(a.contains(last));
        let k = choose|k: int| 0 <= k < b.len() && b[k] == last;
        assert(a.remove(a.len() - 1) =~= a.drop_last());
        assert(a.drop_last().to_multiset() =~= b.remove(k).to_multiset());
        lemma_reordered_values(a.drop_last(), b.remove(k));
        assert(values(a) =~= values(a.drop_last()).push(last.value()));
        assert(values(b) =~= values(b.remove(k)).insert(k, last.value()));
    } else {
        assert(a =~= b);
    }
}

/// Neither the order of the data nor the number of threads matters for a histogram: of two calls
/// whose results are defined.
pub proof fn law_exact_binning_of_reordered_data(
    a: Seq<Exact>,
    b: Seq<Exact>,
    xmin: Exact,
    xmax: Exact,
    bins: usize,
    threads: usize,
    others: usize,
)
    requires
        threads >= 1,
        others >= 1,
        a.to_multiset() == b.to_multiset(),
        xmin.defined(),
        xmax.defined(),
        bin_width(xmin, xmax, bins).defined(),
        all_placed(a, xmin, xmax),
        all_defined(binned(a, xmin, xmax, bins, threads)),
        all_defined(binned(b, xmin, xmax, bins, others)),
    ensures
        binned(a, xmin, xmax, bins, threads) == binned(b, xmin, xmax, bins, others),
{
    lemma_reordered_values(a, b);
    assert forall|i: int| 0 <= i < b.len() implies placed(#[trigger] b[i], xmin, xmax) by {
        assert(b.contains(b[i]));
        assert(a.contains(b[i]));
        let j = choose|j: int| 0 <= j < a.len() && a[j] == b[i];
        assert(placed(a[j], xmin, xmax));
    }
    law_exact_binning(a, xmin, xmax, bins, threads);
    law_exact_binning(b, xmin, xmax, bins, others);
    law_binning_of_reordered_data(
        values(a),
        values(b),
        xmin.value(),
        xmax.value(),
        bins,
        threads,
        others,
    );
    lemma_same_histogram(a, b, xmin, xmax, bins, threads, others);
}

/// The weights of the cells are in lowest terms.
proof fn lemma_proper_cells(
    x: Seq<Exact>,
    y: Seq<Exact>,
    f: Frame<Exact>,
    xbins: usize,
    ybins: usize,
    threads: usize,
    i: int,
    j: int,
)
    requires
        0 <= i < xbins,
        0 <= j < ybins,
    ensures
        binned_2d(x, y, f, xbins, ybins, threads).len() == xbins,
        binned_2d(x, y, f, xbins, ybins, threads)[i].len() == ybins,
        proper(binned_2d(x, y, f, xbins, ybins, threads)[i][j]),
{
    law_exact_results_are_proper(f.dx, f.dy, 0, 0, 1);
    if !is_blank(x, y, f, xbins, ybins) {
        let size = chunk_count(x.len(), threads as nat);
        let n = chunk_count(x.len(), size);
        if n > 0 {
            let cell = i * ybins + j;
            let before = cell_total(
                x,
                y,
                f,
                xbins as int,
                ybins as int,
                size,
                (n - 1) as nat,
                cell,
            );
            let local = histogram_2d(
                chunk(x, size, n - 1),
                chunk(y, size, n - 1),
                f,
                xbins as int,
                ybins as int,
            )[cell];
            law_exact_results_are_proper(before, local, 0, 0, 1);
        }
    }
}

/// Whether the frame and the points are defined, so that a histogram over it can be.
pub open spec fn cells_defined(
    x: Seq<Exact>,
    y: Seq<Exact>,
    xmin: Exact,
    xmax: Exact,
    ymin: Exact,
    ymax: Exact,
    xbins: usize,
    ybins: usize,
) -> bool {
    let f = frame(xmin, xmax, ymin, ymax, xbins, ybins);
    &&& xmin.defined()
    &&& xmax.defined()
    &&& ymin.defined()
    &&& ymax.defined()
    &&& f.dx.defined()
    &&& f.dy.defined()
    &&& points_defined(x, y, xmax, ymax)
}

/// The histogram of concatenated points is the sum of the histograms of its parts, cell by cell: of
/// three calls, on any numbers of threads, whose results are defined.
pub proof fn law_exact_binning_2d_adds(
    x: Seq<Exact>,
    y: Seq<Exact>,
    v: Seq<Exact>,
    w: Seq<Exact>,
    xmin: Exact,
    xmax: Exact,
    ymin: Exact,
    ymax: Exact,
    xbins: usize,
    ybins: usize,
    whole: usize,
    first: usize,
    second: usize,
)
    requires
        whole >= 1,
        first >= 1,
        second >= 1,
        xbins >= 1,
        ybins >= 1,
        cells_defined(x, y, xmin, xmax, ymin, ymax, xbins, ybins),
        cells_defined(v, w, xmin, xmax, ymin, ymax, xbins, ybins),
        ({
            let f = frame(xmin, xmax, ymin, ymax, xbins, ybins);
            &&& rows_defined(binned_2d(x + v, y + w, f, xbins, ybins, whole))
            &&& rows_defined(binned_2d(x, y, f, xbins, ybins, first))
            &&& rows_defined(binned_2d(v, w, f, xbins, ybins, second))
        }),
    ensures
        ({
            let f = frame(xmin, xmax, ymin, ymax, xbins, ybins);
            let h = binned_2d(x + v, y + w, f, xbins, ybins, whole);
            let a = binned_2d(x, y, f, xbins, ybins, first);
            let b = binned_2d(v, w, f, xbins, ybins, second);
            forall|i: int, j: int|
                0 <= i < xbins && 0 <= j < ybins ==> (#[trigger] h[i][j]).value() == a[i][j].value()
                    + b[i][j].value() && agree(h[i][j], a[i][j].plus(b[i][j]))
        }),
{
    broadcast use group_stand;

    let f = frame(xmin, xmax, ymin, ymax, xbins, ybins);
    let g = frame(xmin.value(), xmax.value(), ymin.value(), ymax.value(), xbins, ybins);
    assert forall|i: int| 0 <= i < (x + v).len() implies #[trigger] point_defined(
        (x + v)[i],
        (y + w)[i],
        xmax,
        ymax,
    ) by {
        if i < x.len() {
            assert(point_defined(x[i], y[i], xmax, ymax));
        } else {
            assert(point_defined(v[i - x.len()], w[i - x.len()], xmax, ymax));
        }
    }
    assert(values(x + v) =~= values(x) + values(v));
    assert(values(y + w) =~= values(y) + values(w));
    law_exact_binning_2d(x + v, y + w, xmin, xmax, ymin, ymax, xbins, ybins, whole);
    law_exact_binning_2d(x, y, xmin, xmax, ymin, ymax, xbins, ybins, first);
    law_exact_binning_2d(v, w, xmin, xmax, ymin, ymax, xbins, ybins, second);
    law_binning_2d_adds(
        values(x),
        values(y),
        values(v),
        values(w),
        g,
        xbins,
        ybins,
        whole,
        first,
        second,
    );
    let h = binned_2d(x + v, y + w, f, xbins, ybins, whole);
    let a = binned_2d(x, y, f, xbins, ybins, first);
    let b = binned_2d(v, w, f, xbins, ybins, second);
    assert forall|i: int, j: int| 0 <= i < xbins && 0 <= j < ybins implies (
    #[trigger] h[i][j]).value() == a[i][j].value() + b[i][j].value() && agree(
        h[i][j],
        a[i][j].plus(b[i][j]),
    ) by {
        lemma_proper_cells(x + v, y + w, f, xbins, ybins, whole, i, j);
        lemma_proper_cells(x, y, f, xbins, ybins, first, i, j);
        lemma_proper_cells(v, w, f, xbins, ybins, second, i, j);
        assert(row_values(h)[i][j] == row_values(a)[i][j] + row_values(b)[i][j]);
        assert(row_values(h)[i][j] == h[i][j].value());
        assert(row_values(a)[i][j] == a[i][j].value());
        assert(row_values(b)[i][j] == b[i][j].value());
        let (p, q) = (a[i][j], b[i][j]);
        assert(all_defined(a[i]) && all_defined(b[i]));
        law_exact_results_are_proper(p, q, 0, 0, 1);
        assert(stands_for(p.plus(q), p.value().plus(q.value())));
        lemma_agree(h[i][j], p.plus(q), h[i][j].value());
    }
}

/// Reordered points have reordered values.
proof fn lemma_reordered_points(
    x: Seq<Exact>,
    y: Seq<Exact>,
    v: Seq<Exact>,
    w: Seq<Exact>,
)
    requires
        x.len() == y.len(),
        v.len() == w.len(),
        points(x, y).to_multiset() == points(v, w).to_multiset(),
    ensures
        points(values(x), values(y)).to_multiset() == points(values(v), values(w)).to_multiset(),
        forall|p: (Exact, Exact)| #[trigger]
            points(x, y).contains(p) <==> points(v, w).contains(p),
    decreases x.len(),
{
    broadcast use vstd::seq_lib::group_to_multiset_ensures;

    let (a, b) = (points(x, y), points(v, w));
    vstd::seq_lib::to_multiset_len(a);
    vstd::seq_lib::to_multiset_len(b);
    assert forall|p: (Exact, Exact)| #[trigger] a.contains(p) <==> b.contains(p) by {
        assert(a.contains(p) <==> a.to_multiset().count(p) > 0);
        assert(b.contains(p) <==> b.to_multiset().count(p) > 0);
    }
    let (c, d) = (points(values(x), values(y)), points(values(v), values(w)));
    if x.len() > 0 {
        let last = a.last();
        assert(a[a.len() - 1] == last);
        assert(a.contains(last));
        let k = choose|k: int| 0 <= k < b.len() && b[k] == last;
        let (xr, yr) = (x.drop_last(), y.drop_last());
        let (vr, wr) = (v.remove(k), w.remove(k));
        assert(a.remove(a.len() - 1) =~= a.drop_last());
        assert(points(xr, yr) =~= a.drop_last());
        assert(points(vr, wr) =~= b.remove(k));
        assert(a.drop_last().to_multiset() =~= b.remove(k).to_multiset());
        lemma_reordered_points(xr, yr, vr, wr);
        let p = (last.0.value(), last.1.value());
        assert(c =~= points(values(xr), values(yr)).push(p));
        assert(d =~= points(values(vr), values(wr)).insert(k, p));
    } else {
        assert(c =~= d);
    }
}

/// Neither the order of the points nor the number of threads matters for a histogram: of two calls
/// whose results are defined.
pub proof fn law_exact_binning_of_reordered_points(
    x: Seq<Exact>,
    y: Seq<Exact>,
    v: Seq<Exact>,
    w: Seq<Exact>,
    xmin: Exact,
    xmax: Exact,
    ymin: Exact,
    ymax: Exact,
    xbins: usize,
    ybins: usize,
    threads: usize,
    others: usize,
)
    requires
        threads >= 1,
        others >= 1,
        xbins >= 1,
        ybins >= 1,
        v.len() == w.len(),
        points(x, y).to_multiset() == points(v, w).to_multiset(),
        cells_defined(x, y, xmin, xmax, ymin, ymax, xbins, ybins),
        ({
            let f = frame(xmin, xmax, ymin, ymax, xbins, ybins);
            &&& rows_defined(binned_2d(x, y, f, xbins, ybins, threads))
            &&& rows_defined(binned_2d(v, w, f, xbins, ybins, others))
        }),
    ensures
        ({
            let f = frame(xmin, xmax, ymin, ymax, xbins, ybins);
            binned_2d(x, y, f, xbins, ybins, threads) == binned_2d(v, w, f, xbins, ybins, others)
        }),
{
    let f = frame(xmin, xmax, ymin, ymax, xbins, ybins);
    let g = frame(xmin.value(), xmax.value(), ymin.value(), ymax.value(), xbins, ybins);
    lemma_reordered_points(x, y, v, w);
    let (a, b) = (points(x, y), points(v, w));
    assert forall|i: int| 0 <= i < v.len() implies #[trigger] point_defined(
        v[i],
        w[i],
        xmax,
        ymax,
    ) by {
        assert(b[i] == (v[i], w[i]));
        assert(b.contains(b[i]));
        assert(a.contains(b[i]));
        let j = choose|j: int| 0 <= j < a.len() && a[j] == b[i];
        assert(point_defined(x[j], y[j], xmax, ymax));
    }
    law_exact_binning_2d(x, y, xmin, xmax, ymin, ymax, xbins, ybins, threads);
    law_exact_binning_2d(v, w, xmin, xmax, ymin, ymax, xbins, ybins, others);
    law_binning_of_reordered_points(
        values(x),
        values(y),
        values(v),
        values(w),
        g,
        xbins,
        ybins,
        threads,
        others,
    );
    lemma_same_cells(x, y, v, w, f, xbins, ybins, threads, others);
}

/// Histograms of cells with the same defined values are the same.
proof fn lemma_same_cells(
    x: Seq<Exact>,
    y: Seq<Exact>,
    v: Seq<Exact>,
    w: Seq<Exact>,
    f: Frame<Exact>,
    xbins: usize,
    ybins: usize,
    threads: usize,
    others: usize,
)
    requires
        xbins >= 1,
        ybins >= 1,
        ({
            let (p, q) = (
                binned_2d(x, y, f, xbins, ybins, threads),
                binned_2d(v, w, f, xbins, ybins, others),
            );
            rows_defined(p) && rows_defined(q) && row_values(p) == row_values(q)
        }),
    ensures
        binned_2d(x, y, f, xbins, ybins, threads) == binned_2d(v, w, f, xbins, ybins, others),
{
    let (p, q) = (
        binned_2d(x, y, f, xbins, ybins, threads),
        binned_2d(v, w, f, xbins, ybins, others),
    );
    lemma_proper_cells(x, y, f, xbins, ybins, threads, 0, 0);
    lemma_proper_cells(v, w, f, xbins, ybins, others, 0, 0);
    assert forall|i: int| 0 <= i < xbins implies #[trigger] p[i] == q[i] by {
        lemma_proper_cells(x, y, f, xbins, ybins, threads, i, 0);
        lemma_proper_cells(v, w, f, xbins, ybins, others, i, 0);
        assert(all_defined(p[i]) && all_defined(q[i]));
        assert forall|j: int| 0 <= j < ybins implies #[trigger] p[i][j] == q[i][j] by {
            lemma_proper_cells(x, y, f, xbins, ybins, threads, i, j);
            lemma_proper_cells(v, w, f, xbins, ybins, others, i, j);
            assert(row_values(p)[i][j] == row_values(q)[i][j]);
            law_equal_values_are_equal_fractions(p[i][j], q[i][j]);
        }
        assert(p[i] =~= q[i]);
    }
    assert(p =~= q);
}

} // verus!
