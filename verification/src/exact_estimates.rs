//! Estimates on exact fractions are the exact estimates, as far as they are defined.
use vstd::prelude::*;

use crate::binning::{
    bin_position, bin_width, binned, deposited, histogram, lemma_histogram_len, merged, share,
    zeros,
};
use crate::deriche::smoothed;
use crate::error::KdeError;
use crate::exact::{gcd, Exact};
use crate::exact_filters::law_exact_smoothing;
use crate::exact_laws::law_exact_floor;
use crate::exact_relation::{
    all_defined, all_stand_for, group_stand, lemma_defined_constants, lemma_defined_total,
    lemma_stand_negligible, lemma_stand_order, lemma_stand_total, lemma_stand_values, lemma_values,
    pair_stands_for, pair_values, stands_for, values,
};
use crate::kde::{
    all_negligible, centres, degenerate, degenerate_width, finished, highest, lowest,
    non_finite_count, normalized, prepared, request_error, some_sizable, BinnedRange, Stage,
};
use crate::kde_laws::{law_estimate_integrates_to_one, law_prepared, lemma_reals_are_finite};
use crate::parallel::{chunk, chunk_count};
use crate::scalar::{magnitude, negligible, tiny, total, zero, Arith};

verus! {

/// The difference of two equal fractions is defined.
proof fn lemma_defined_difference(a: Exact, b: Exact)
    requires
        a.defined(),
        b.defined(),
        a.num * b.den == b.num * a.den,
    ensures
        a.minus(b).defined(),
{
    let d = a.den * b.den;
    assert(d > 0) by (nonlinear_arith)
        requires
            d == a.den * b.den,
            a.den > 0,
            b.den > 0,
    ;
    reveal_with_fuel(gcd, 3);
    assert(0nat % (d as nat) == 0 && d as nat / (d as nat) == 1 && 0nat / (d as nat) == 0)
        by (nonlinear_arith)
        requires
            d > 0,
    ;
    assert(gcd(0, d as nat) == d as nat);
}

/// Whether it is known where the point lies: inside the range, or how far from its end.
pub open spec fn placed(x: Exact, xmin: Exact, xmax: Exact) -> bool {
    x.defined() && (xmin.at_most(x) && x.below(xmax) || x.minus(xmax).defined())
}

/// Whether it is known where all of `data` lies.
pub open spec fn all_placed(data: Seq<Exact>, xmin: Exact, xmax: Exact) -> bool {
    forall|i: int| 0 <= i < data.len() ==> placed(#[trigger] data[i], xmin, xmax)
}

/// A histogram with a point added stands for the histogram with the point added, where it is
/// defined.
proof fn lemma_stand_deposited(
    h: Seq<Exact>,
    g: Seq<real>,
    x: Exact,
    y: real,
    xmin: Exact,
    low: real,
    xmax: Exact,
    high: real,
    width: Exact,
    w: real,
)
    requires
        h.len() >= 1,
        all_stand_for(h, g),
        stands_for(x, y),
        stands_for(xmin, low),
        stands_for(xmax, high),
        stands_for(width, w),
        xmin.defined(),
        xmax.defined(),
        placed(x, xmin, xmax),
        all_defined(deposited(h, x, xmin, xmax, width)),
    ensures
        all_stand_for(deposited(h, x, xmin, xmax, width), deposited(g, y, low, high, w)),
{
    broadcast use group_stand;

    let (c, d) = (deposited(h, x, xmin, xmax, width), deposited(g, y, low, high, w));
    lemma_stand_order(xmin, x, low, y);
    lemma_stand_order(x, xmax, y, high);
    if xmin.at_most(x) && x.below(xmax) {
        let (pos, p) = (bin_position(x, xmin, width), bin_position(y, low, w));
        assert(stands_for(pos, p));
        assert(c[0].defined());
        assert(pos.defined());
        law_exact_floor(pos);
        let k = pos.floor_index();
        assert(k == p.floor_index());
        assert(stands_for(pos.minus(Exact::whole(k)), p.minus(<real as Arith>::whole(k))));
        assert forall|i: int| 0 <= i < h.len() implies #[trigger] stands_for(c[i], d[i]) by {
            assert(stands_for(h[i], g[i]));
        }
    } else {
        let (e, f) = (x.minus(xmax), y.minus(high));
        assert(stands_for(e, f));
        lemma_stand_negligible(e, f);
        assert forall|i: int| 0 <= i < h.len() implies #[trigger] stands_for(c[i], d[i]) by {
            assert(stands_for(h[i], g[i]));
        }
    }
}

/// Where a histogram with a point added is defined, so is the histogram.
proof fn lemma_defined_deposited(h: Seq<Exact>, x: Exact, xmin: Exact, xmax: Exact, width: Exact)
    requires
        all_defined(deposited(h, x, xmin, xmax, width)),
    ensures
        all_defined(h),
{
    let c = deposited(h, x, xmin, xmax, width);
    assert forall|i: int| 0 <= i < h.len() implies (#[trigger] h[i]).defined() by {
        assert(c[i].defined());
    }
}

/// Whether all of `data` lies in the range.
pub open spec fn within(data: Seq<Exact>, xmin: Exact, xmax: Exact) -> bool {
    forall|i: int|
        0 <= i < data.len() ==> xmin.at_most(#[trigger] data[i]) && data[i].at_most(xmax)
}

/// A histogram stands for the histogram, where it is defined.
proof fn lemma_stand_histogram(
    data: Seq<Exact>,
    t: Seq<real>,
    xmin: Exact,
    low: real,
    xmax: Exact,
    high: real,
    width: Exact,
    w: real,
    bins: nat,
)
    requires
        bins >= 1,
        all_stand_for(data, t),
        stands_for(xmin, low),
        stands_for(xmax, high),
        stands_for(width, w),
        xmin.defined(),
        xmax.defined(),
        all_placed(data, xmin, xmax),
        all_defined(histogram(data, xmin, xmax, width, bins)),
    ensures
        all_stand_for(
            histogram(data, xmin, xmax, width, bins),
            histogram(t, low, high, w, bins),
        ),
    decreases data.len(),
{
    broadcast use group_stand;

    lemma_histogram_len(data, xmin, xmax, width, bins);
    if data.len() == 0 {
        let (c, d) = (zeros::<Exact>(bins), zeros::<real>(bins));
        assert forall|i: int| 0 <= i < bins implies #[trigger] stands_for(c[i], d[i]) by {}
    } else {
        let (r, u) = (data.drop_last(), t.drop_last());
        let last = data.len() - 1;
        let h = histogram(r, xmin, xmax, width, bins);
        lemma_histogram_len(r, xmin, xmax, width, bins);
        lemma_defined_deposited(h, data.last(), xmin, xmax, width);
        assert forall|i: int| 0 <= i < r.len() implies #[trigger] stands_for(r[i], u[i])
            && placed(r[i], xmin, xmax) by {
            assert(stands_for(data[i], t[i]));
            assert(placed(data[i], xmin, xmax));
        }
        lemma_stand_histogram(r, u, xmin, low, xmax, high, width, w, bins);
        assert(stands_for(data[last], t[last]));
        assert(placed(data[last], xmin, xmax));
        lemma_stand_deposited(
            h,
            histogram(u, low, high, w, bins),
            data[last],
            t[last],
            xmin,
            low,
            xmax,
            high,
            width,
            w,
        );
    }
}

/// A merged histogram stands for the merged histogram, where it is defined.
proof fn lemma_stand_merged(
    data: Seq<Exact>,
    t: Seq<real>,
    xmin: Exact,
    low: real,
    xmax: Exact,
    high: real,
    width: Exact,
    w: real,
    bins: nat,
    size: nat,
    n: nat,
)
    requires
        bins >= 1,
        size >= 1,
        n <= chunk_count(data.len(), size),
        all_stand_for(data, t),
        stands_for(xmin, low),
        stands_for(xmax, high),
        stands_for(width, w),
        xmin.defined(),
        xmax.defined(),
        all_placed(data, xmin, xmax),
        all_defined(merged(data, xmin, xmax, width, bins, size, n)),
    ensures
        all_stand_for(
            merged(data, xmin, xmax, width, bins, size, n),
            merged(t, low, high, w, bins, size, n),
        ),
        merged(data, xmin, xmax, width, bins, size, n).len() == bins,
    decreases n,
{
    broadcast use group_stand;

    let (c, d) = (
        merged(data, xmin, xmax, width, bins, size, n),
        merged(t, low, high, w, bins, size, n),
    );
    if n == 0 {
        assert forall|i: int| 0 <= i < bins implies #[trigger] stands_for(c[i], d[i]) by {}
    } else {
        let m = (n - 1) as nat;
        let before = merged(data, xmin, xmax, width, bins, size, m);
        let (part, rest) = (chunk(data, size, n - 1), chunk(t, size, n - 1));
        let local = histogram(part, xmin, xmax, width, bins);
        lemma_histogram_len(part, xmin, xmax, width, bins);
        lemma_merged_len(data, xmin, xmax, width, bins, size, m);
        assert forall|i: int| 0 <= i < bins implies (#[trigger] before[i]).defined()
            && local[i].defined() by {
            assert(c[i].defined());
        }
        assert forall|i: int| 0 <= i < bins implies (#[trigger] local[i]).defined() by {
            assert(before[i].defined());
        }
        let at = m * size;
        assert(at <= data.len()) by (nonlinear_arith)
            requires
                at == m * size,
                size >= 1,
                n == m + 1,
                n <= chunk_count(data.len(), size),
        ;
        assert forall|i: int| 0 <= i < part.len() implies #[trigger] stands_for(part[i], rest[i])
            && placed(part[i], xmin, xmax) by {
            assert(stands_for(data[at + i], t[at + i]));
            assert(placed(data[at + i], xmin, xmax));
        }
        lemma_stand_merged(data, t, xmin, low, xmax, high, width, w, bins, size, m);
        lemma_stand_histogram(part, rest, xmin, low, xmax, high, width, w, bins);
        let other = merged(t, low, high, w, bins, size, m);
        let share = histogram(rest, low, high, w, bins);
        assert forall|i: int| 0 <= i < bins implies #[trigger] stands_for(c[i], d[i]) by {
            assert(stands_for(before[i], other[i]));
            assert(stands_for(local[i], share[i]));
        }
    }
}

/// A merged histogram has as many entries as there are bins.
proof fn lemma_merged_len(
    data: Seq<Exact>,
    xmin: Exact,
    xmax: Exact,
    width: Exact,
    bins: nat,
    size: nat,
    n: nat,
)
    ensures
        merged(data, xmin, xmax, width, bins, size, n).len() == bins,
{
}

/// The range of defined data is defined, holds all of it, and stands for the range.
pub proof fn lemma_stand_range(data: Seq<Exact>, t: Seq<real>)
    requires
        data.len() >= 1,
        all_stand_for(data, t),
        all_defined(data),
    ensures
        lowest(data).defined(),
        highest(data).defined(),
        stands_for(lowest(data), lowest(t)),
        stands_for(highest(data), highest(t)),
        within(data, lowest(data), highest(data)),
    decreases data.len(),
{
    let last = data.len() - 1;
    assert(stands_for(data[last], t[last]));
    assert(stands_for(data[0], t[0]));
    if data.len() == 1 {
        lemma_stand_order(data[0], data[0], t[0], t[0]);
    } else {
        let (r, u) = (data.drop_last(), t.drop_last());
        assert forall|i: int| 0 <= i < r.len() implies #[trigger] stands_for(r[i], u[i])
            && r[i].defined() by {
            assert(stands_for(data[i], t[i]));
        }
        lemma_stand_range(r, u);
        lemma_stand_order(data[last], lowest(r), t[last], lowest(u));
        lemma_stand_order(highest(r), data[last], highest(u), t[last]);
        let (a, b) = (lowest(data), highest(data));
        assert forall|i: int| 0 <= i < data.len() implies a.at_most(#[trigger] data[i])
            && data[i].at_most(b) by {
            lemma_stand_order(data[i], a, data[i].value(), a.value());
            lemma_stand_order(a, data[i], a.value(), data[i].value());
            lemma_stand_order(data[i], b, data[i].value(), b.value());
            lemma_stand_order(lowest(r), a, lowest(r).value(), a.value());
            lemma_stand_order(b, highest(r), b.value(), highest(r).value());
            lemma_stand_order(data[last], lowest(r), data[last].value(), lowest(r).value());
            lemma_stand_order(highest(r), data[last], highest(r).value(), data[last].value());
            if i < last {
                assert(r[i] == data[i]);
                lemma_stand_order(lowest(r), r[i], lowest(r).value(), r[i].value());
                lemma_stand_order(r[i], highest(r), r[i].value(), highest(r).value());
            }
        }
    }
}

/// It is known where data in the range lies.
pub proof fn lemma_within_is_placed(data: Seq<Exact>, xmin: Exact, xmax: Exact)
    requires
        xmin.defined(),
        xmax.defined(),
        all_defined(data),
        within(data, xmin, xmax),
    ensures
        all_placed(data, xmin, xmax),
{
    assert forall|i: int| 0 <= i < data.len() implies placed(#[trigger] data[i], xmin, xmax) by {
        assert(xmin.at_most(data[i]) && data[i].at_most(xmax));
        assert(data[i].defined());
        if !data[i].below(xmax) {
            lemma_defined_difference(data[i], xmax);
        }
    }
}

/// The histogram of data on exact fractions is the exact histogram, where it, the width of the bins
/// and the places of the data are defined.
pub proof fn law_exact_binning(
    data: Seq<Exact>,
    xmin: Exact,
    xmax: Exact,
    bins: usize,
    threads: usize,
)
    requires
        threads >= 1,
        xmin.defined(),
        xmax.defined(),
        bin_width(xmin, xmax, bins).defined(),
        all_placed(data, xmin, xmax),
        all_defined(binned(data, xmin, xmax, bins, threads)),
    ensures
        binned(values(data), xmin.value(), xmax.value(), bins, threads) == values(
            binned(data, xmin, xmax, bins, threads),
        ),
{
    broadcast use group_stand;

    let t = values(data);
    let (low, high) = (xmin.value(), xmax.value());
    let (width, w) = (bin_width(xmin, xmax, bins), bin_width(low, high, bins));
    let (h, g) = (binned(data, xmin, xmax, bins, threads), binned(t, low, high, bins, threads));
    lemma_stand_values(data);
    assert(stands_for(width, w));
    lemma_stand_negligible(width, w);
    if bins == 0 || negligible(width) || data.len() == 0 {
        assert forall|i: int| 0 <= i < bins implies #[trigger] stands_for(h[i], g[i]) by {}
    } else {
        let size = chunk_count(data.len(), threads as nat);
        assert(size >= 1) by (nonlinear_arith)
            requires
                data.len() >= 1,
                threads >= 1,
                size == chunk_count(data.len(), threads as nat),
        ;
        lemma_stand_merged(
            data,
            t,
            xmin,
            low,
            xmax,
            high,
            width,
            w,
            bins as nat,
            size,
            chunk_count(data.len(), size),
        );
    }
    lemma_values(h, g);
}

/// Data of which no number is undefined is defined.
pub proof fn lemma_all_finite(data: Seq<Exact>)
    requires
        non_finite_count(data) == 0,
    ensures
        all_defined(data),
    decreases data.len(),
{
    if data.len() > 0 {
        lemma_all_finite(data.drop_last());
        assert forall|i: int| 0 <= i < data.len() implies (#[trigger] data[i]).defined() by {
            if i < data.len() - 1 {
                assert(data.drop_last()[i] == data[i]);
            }
        }
    }
}

/// The centres of the bins stand for the centres.
pub proof fn lemma_stand_centres(xmin: Exact, low: real, dx: Exact, w: real, bins: nat)
    requires
        stands_for(xmin, low),
        stands_for(dx, w),
    ensures
        all_stand_for(centres(xmin, dx, bins), centres(low, w, bins)),
{
    broadcast use group_stand;

    let (c, d) = (centres(xmin, dx, bins), centres(low, w, bins));
    assert forall|i: int| 0 <= i < bins implies #[trigger] stands_for(c[i], d[i]) by {}
}

/// A normalized histogram stands for the normalized histogram, where it is defined.
proof fn lemma_stand_normalized(
    x: Seq<Exact>,
    y: Seq<real>,
    h: Seq<Exact>,
    g: Seq<real>,
    dx: Exact,
    w: real,
)
    requires
        all_stand_for(x, y),
        all_stand_for(h, g),
        stands_for(dx, w),
        h.len() >= 1,
    ensures
        match normalized(x, h, dx) {
            Ok((grid, pdf)) => grid == x && pdf.len() == h.len() && (all_defined(pdf) ==> (
            match normalized(y, g, w) {
                Ok((places, density)) => places == y && all_stand_for(pdf, density),
                Err(_) => false,
            })),
            Err(e) => e == KdeError::<Exact>::NotNormalizable && normalized(y, g, w) == Err::<
                (Seq<real>, Seq<real>),
                KdeError<real>,
            >(KdeError::NotNormalizable),
        },
{
    broadcast use group_stand;

    lemma_stand_total(h, g);
    let (f, r) = (total(h).times(dx), total(g).times(w));
    assert(stands_for(f, r));
    if !negligible(f) {
        let pdf = Seq::new(h.len(), |i: int| h[i].over(f));
        let density = Seq::new(g.len(), |i: int| g[i].over(r));
        if all_defined(pdf) {
            assert(pdf[0].defined());
            lemma_stand_negligible(f, r);
            assert forall|i: int| 0 <= i < h.len() implies #[trigger] stands_for(
                pdf[i],
                density[i],
            ) by {
                assert(stands_for(h[i], g[i]));
            }
        }
    } else {
        lemma_stand_negligible(f, r);
        lemma_defined_total(h);
        if some_sizable(h) {
            let i = choose|i: int|
                0 <= i < h.len() && tiny::<Exact>().at_most(magnitude(#[trigger] h[i]));
            assert(stands_for(h[i], g[i]));
            lemma_stand_negligible(h[i], g[i]);
            assert(tiny::<real>().at_most(magnitude(g[i])));
            assert(some_sizable(g));
        } else {
            assert forall|i: int| 0 <= i < g.len() implies !tiny::<real>().at_most(
                magnitude(#[trigger] g[i]),
            ) by {
                assert(stands_for(h[i], g[i]));
                assert(h[i].defined());
                lemma_stand_negligible(h[i], g[i]);
            }
            assert(!some_sizable(g));
        }
    }
}

/// The histogram of a range, with the values of its fractions.
pub open spec fn range_values(b: BinnedRange<Exact>) -> BinnedRange<real> {
    BinnedRange {
        xmin: b.xmin.value(),
        dx: b.dx.value(),
        sigma: b.sigma.value(),
        hist: values(b.hist),
    }
}

/// The density of data at one place stands for that density.
proof fn lemma_stand_degenerate(xmin: Exact, low: real, xmax: Exact, high: real, bins: usize)
    requires
        bins >= 1,
        stands_for(xmin, low),
        stands_for(xmax, high),
    ensures
        all_stand_for(degenerate(xmin, xmax, bins).0, degenerate(low, high, bins).0),
        all_stand_for(degenerate(xmin, xmax, bins).1, degenerate(low, high, bins).1),
{
    broadcast use group_stand;

    let (dx, w) = (degenerate_width(xmin, xmax, bins), degenerate_width(low, high, bins));
    assert(stands_for(dx, w));
    lemma_stand_centres(xmin, low, dx, w, bins as nat);
    let (c, d) = (degenerate(xmin, xmax, bins).1, degenerate(low, high, bins).1);
    assert forall|i: int| 0 <= i < bins implies #[trigger] stands_for(c[i], d[i]) by {}
}

/// An estimate on exact fractions comes as far as the exact estimate, where the outcome is
/// defined: it is refused for the same reason, is the same density, or is the same histogram.
pub proof fn law_exact_preparation(data: Seq<Exact>, bins: usize, sigma: Exact, threads: usize)
    requires
        threads >= 1,
        sigma.defined(),
        non_finite_count(data) == 0,
    ensures
        ({
            let goal = prepared(values(data), bins, sigma.value(), threads);
            match prepared(data, bins, sigma, threads) {
                Ok(Stage::Binned(b)) => b.dx.defined() && b.sigma.defined() && all_defined(b.hist)
                    ==> goal == Ok::<Stage<real>, KdeError<real>>(Stage::Binned(range_values(b))),
                Ok(Stage::Finished((x, pdf))) => all_defined(x) && all_defined(pdf) ==> goal
                    == Ok::<Stage<real>, KdeError<real>>(
                    Stage::Finished((values(x), values(pdf))),
                ),
                Err(KdeError::TooFewSamples) => goal == Err::<Stage<real>, KdeError<real>>(
                    KdeError::TooFewSamples,
                ),
                Err(KdeError::NoBins) => goal == Err::<Stage<real>, KdeError<real>>(
                    KdeError::NoBins,
                ),
                Err(KdeError::NegativeSigma) => goal == Err::<Stage<real>, KdeError<real>>(
                    KdeError::NegativeSigma,
                ),
                Err(KdeError::BinTooNarrow) => goal == Err::<Stage<real>, KdeError<real>>(
                    KdeError::BinTooNarrow,
                ),
                Err(_) => false,
            }
        }),
{
    broadcast use group_stand;

    let t = values(data);
    let s = sigma.value();
    lemma_all_finite(data);
    lemma_reals_are_finite(t);
    lemma_stand_values(data);
    lemma_defined_constants();
    lemma_stand_order(sigma, zero(), s, zero());
    if request_error(data, bins, sigma) is None {
        lemma_stand_range(data, t);
        let (xmin, xmax) = (lowest(data), highest(data));
        let (low, high) = (lowest(t), highest(t));
        assert(xmin.at_most(data[0]) && data[0].at_most(xmax));
        lemma_stand_order(xmin, data[0], low, t[0]);
        lemma_stand_order(data[0], xmax, t[0], high);
        lemma_stand_order(xmax, xmin, high, low);
        let (range, r) = (xmax.minus(xmin), high.minus(low));
        let (dx, w) = (bin_width(xmin, xmax, bins), bin_width(low, high, bins));
        assert(stands_for(range, r));
        assert(stands_for(dx, w));
        if range.defined() {
            lemma_stand_negligible(range, r);
        }
        if dx.defined() {
            lemma_stand_negligible(dx, w);
        }
        if negligible(range) {
            lemma_stand_degenerate(xmin, low, xmax, high, bins);
            let (x, pdf) = degenerate(xmin, xmax, bins);
            if all_defined(x) && all_defined(pdf) {
                lemma_values(x, degenerate(low, high, bins).0);
                lemma_values(pdf, degenerate(low, high, bins).1);
            }
        } else if !negligible(dx) {
            let (hist, h) = (
                binned(data, xmin, xmax, bins, threads),
                binned(t, low, high, bins, threads),
            );
            let size = chunk_count(data.len(), threads as nat);
            assert(size >= 1) by (nonlinear_arith)
                requires
                    data.len() >= 1,
                    threads >= 1,
                    size == chunk_count(data.len(), threads as nat),
            ;
            let x = centres(xmin, dx, bins as nat);
            lemma_stand_centres(xmin, low, dx, w, bins as nat);
            if all_defined(hist) && dx.defined() {
                lemma_within_is_placed(data, xmin, xmax);
                lemma_stand_merged(
                    data,
                    t,
                    xmin,
                    low,
                    xmax,
                    high,
                    dx,
                    w,
                    bins as nat,
                    size,
                    chunk_count(data.len(), size),
                );
                assert(all_stand_for(hist, h));
                lemma_values(hist, h);
                assert forall|i: int| 0 <= i < hist.len() implies negligible(#[trigger] hist[i])
                    == negligible(h[i]) by {
                    assert(stands_for(hist[i], h[i]));
                    lemma_stand_negligible(hist[i], h[i]);
                }
                lemma_same_smallness(hist, h);
            }
            if all_negligible(hist) {
                let pdf = zeros::<Exact>(bins as nat);
                assert(all_defined(hist));
                if all_defined(x) {
                    assert(x[0].defined());
                    assert(dx.defined());
                    lemma_values(x, centres(low, w, bins as nat));
                    let none = zeros::<real>(bins as nat);
                    assert forall|i: int| 0 <= i < bins implies #[trigger] stands_for(
                        pdf[i],
                        none[i],
                    ) by {}
                    lemma_values(pdf, none);
                }
            } else {
                let e = sigma.times(Exact::whole(bins).over(range));
                let f = s.times(<real as Arith>::whole(bins).over(r));
                assert(stands_for(e, f));
            }
        }
    }
}

/// Histograms whose entries count as zero together are zero together.
proof fn lemma_same_smallness(a: Seq<Exact>, b: Seq<real>)
    requires
        a.len() == b.len(),
        forall|i: int| 0 <= i < a.len() ==> negligible(#[trigger] a[i]) == negligible(b[i]),
    ensures
        all_negligible(a) == all_negligible(b),
{
    if all_negligible(a) {
        assert forall|i: int| 0 <= i < b.len() implies negligible(#[trigger] b[i]) by {
            assert(negligible(a[i]));
        }
    } else {
        let i = choose|i: int| 0 <= i < a.len() && !negligible(#[trigger] a[i]);
        assert(!negligible(b[i]));
    }
}

/// An estimate on exact fractions is the exact estimate, where it is defined.
pub proof fn law_exact_estimate(
    b: BinnedRange<Exact>,
    pi: Exact,
    poles: Seq<(Exact, Exact)>,
)
    requires
        poles.len() == 4,
        b.hist.len() >= 1,
        b.sigma.defined(),
    ensures
        match finished(b, pi, poles) {
            Ok((x, pdf)) => all_defined(x) && all_defined(pdf) ==> finished(
                range_values(b),
                pi.value(),
                pair_values(poles),
            ) == Ok::<(Seq<real>, Seq<real>), KdeError<real>>((values(x), values(pdf))),
            Err(e) => e == KdeError::<Exact>::NotNormalizable && finished(
                range_values(b),
                pi.value(),
                pair_values(poles),
            ) == Err::<(Seq<real>, Seq<real>), KdeError<real>>(KdeError::NotNormalizable),
        },
{
    let v = range_values(b);
    let r = pair_values(poles);
    lemma_stand_values(b.hist);
    assert forall|i: int| 0 <= i < poles.len() implies #[trigger] pair_stands_for(
        poles[i],
        r[i],
    ) by {}
    law_exact_smoothing(b.hist, v.hist, b.sigma, v.sigma, pi, pi.value(), poles, r);
    lemma_stand_centres(b.xmin, v.xmin, b.dx, v.dx, b.hist.len());
    let (x, y) = (centres(b.xmin, b.dx, b.hist.len()), centres(v.xmin, v.dx, b.hist.len()));
    let (h, g) = (smoothed(b.hist, b.sigma, pi, poles), smoothed(v.hist, v.sigma, pi.value(), r));
    lemma_stand_normalized(x, y, h, g, b.dx, v.dx);
    match normalized(x, h, b.dx) {
        Ok((grid, pdf)) => {
            if all_defined(x) && all_defined(pdf) {
                lemma_values(x, y);
                match normalized(y, g, v.dx) {
                    Ok((places, density)) => {
                        lemma_values(pdf, density);
                    },
                    Err(_) => {},
                }
            }
        },
        Err(_) => {},
    }
}

/// The integral of an estimate on exact fractions is one, where the estimate and its integral are
/// defined, unless the smoothed histogram counts as zero everywhere and so does its integral.
pub proof fn law_exact_estimate_integrates_to_one(
    data: Seq<Exact>,
    bins: usize,
    sigma: Exact,
    pi: Exact,
    threads: usize,
    poles: Seq<(Exact, Exact)>,
)
    requires
        threads >= 1,
        poles.len() == 4,
    ensures
        match prepared(data, bins, sigma, threads) {
            Ok(Stage::Binned(b)) => b.dx.defined() && b.sigma.defined() && all_defined(b.hist) ==> (
            match finished(b, pi, poles) {
                Ok((x, pdf)) => all_defined(x) && total(pdf).times(b.dx).defined() ==> {
                    let r = pair_values(poles);
                    let s = smoothed(values(b.hist), b.sigma.value(), pi.value(), r);
                    ||| all_negligible(s) && negligible(total(s) * b.dx.value())
                    ||| total(pdf).times(b.dx).value() == 1real
                },
                Err(_) => true,
            }),
            _ => true,
        },
{
    broadcast use group_stand;

    match prepared(data, bins, sigma, threads) {
        Ok(Stage::Binned(b)) => {
            if b.dx.defined() && b.sigma.defined() && all_defined(b.hist) {
                assert(sigma.defined());
                law_exact_preparation(data, bins, sigma, threads);
                let (t, s, p, r) = (values(data), sigma.value(), pi.value(), pair_values(poles));
                law_prepared(t, bins, s, threads);
                law_estimate_integrates_to_one(t, bins, s, p, threads, r);
                law_exact_estimate(b, pi, poles);
                match finished(b, pi, poles) {
                    Ok((x, pdf)) => {
                        if all_defined(x) && total(pdf).times(b.dx).defined() {
                            lemma_defined_total(pdf);
                            lemma_stand_values(pdf);
                            lemma_stand_total(pdf, values(pdf));
                            assert(stands_for(
                                total(pdf).times(b.dx),
                                total(values(pdf)).times(b.dx.value()),
                            ));
                        }
                    },
                    Err(_) => {},
                }
            }
        },
        _ => {},
    }
}

} // verus!
