//! What estimates on exact fractions have in common, where they are defined.
use vstd::prelude::*;

use crate::binning::{bin_width, binned};
use crate::binning_2d::{binned_2d, frame};
use crate::call_laws::{
    law_estimates_2d_agree, law_estimates_agree, law_poles_are_determined, single_valued,
    single_valued_in_two,
};
use crate::deriche::{are_poles, smoothed};
use crate::error::KdeError;
use crate::estimate_laws::{
    law_density_shifts_and_scales, law_estimate_of_repeated_data, law_preparation_moves_with_data,
    lemma_factor_above, lemma_moved_range, moved, repeated,
};
use crate::exact::Exact;
use crate::exact_binning_calls::{
    cells_defined, law_exact_binning_of_reordered_data, law_exact_binning_of_reordered_points,
    lemma_proper_histogram, lemma_reordered_values,
};
use crate::exact_estimates::{
    law_exact_estimate, law_exact_preparation, lemma_all_finite, lemma_stand_range,
    lemma_within_is_placed, range_values,
};
use crate::exact_estimates_2d::rows_defined;
use crate::exact_filter_calls::lemma_stand_pair_values;
use crate::exact_filters::law_exact_smoothing;
use crate::exact_relation::{
    all_defined, group_stand, lemma_defined_constants, lemma_stand_negligible, lemma_stand_order,
    lemma_stand_times, lemma_stand_total, lemma_stand_values, lemma_stand_whole, lemma_values,
    pair_values, stands_for, values,
};
use crate::exact_terms::{
    agree, law_equal_values_are_equal_fractions, law_exact_results_are_proper, lemma_agree, proper,
};
use crate::kde::{
    finished, highest, is_at_largest, is_estimate, is_estimate_on, lowest, mode_of, prepared,
    request_error, some_sizable, BinnedRange, Stage,
};
use crate::kde_2d::{
    is_estimate_2d_for, is_estimate_2d_on, padded_range, prepared_2d, request_error_2d,
};
use crate::matrix::{axis_eigenvalues, bandwidth, scott_exponent};
use crate::reals::{lemma_associate, lemma_commute, lemma_distribute};
use crate::scalar::{half, magnitude, negligible, tiny, total, zero, Arith};
use crate::table::{
    axes, is_table_estimate_on, law_transposed_table_has_the_same_axes, transposed_table,
};

verus! {

/// Whether the width of the bins over the range of the data, and the histogram of the data on
/// `threads` threads, are defined.
pub open spec fn histogram_defined(data: Seq<Exact>, bins: usize, threads: usize) -> bool {
    &&& bin_width(lowest(data), highest(data), bins).defined()
    &&& all_defined(binned(data, lowest(data), highest(data), bins, threads))
}

/// Estimates of the same data come equally far without smoothing, on any numbers of threads.
pub proof fn law_exact_preparations_agree(
    data: Seq<Exact>,
    bins: usize,
    sigma: Exact,
    threads: usize,
    others: usize,
)
    requires
        threads >= 1,
        others >= 1,
        histogram_defined(data, bins, threads),
        histogram_defined(data, bins, others),
    ensures
        prepared(data, bins, sigma, threads) == prepared(data, bins, sigma, others),
{
    if request_error(data, bins, sigma) is None {
        lemma_all_finite(data);
        lemma_stand_values(data);
        lemma_stand_range(data, values(data));
        lemma_within_is_placed(data, lowest(data), highest(data));
        law_exact_binning_of_reordered_data(
            data,
            data,
            lowest(data),
            highest(data),
            bins,
            threads,
            others,
        );
    }
}

/// Two estimates of the same data are the same, errors included, on any numbers of threads.
pub proof fn law_exact_estimates_agree<
    E: Fn(Exact) -> Exact,
    C: Fn(Exact) -> Exact,
    S: Fn(Exact) -> Exact,
>(
    r: Result<(Seq<Exact>, Seq<Exact>), KdeError<Exact>>,
    g: Result<(Seq<Exact>, Seq<Exact>), KdeError<Exact>>,
    data: Seq<Exact>,
    bins: usize,
    sigma: Exact,
    pi: Exact,
    exp: E,
    cos: C,
    sin: S,
)
    requires
        single_valued(exp),
        single_valued(cos),
        single_valued(sin),
        forall|threads: usize| threads >= 1 ==> #[trigger] histogram_defined(data, bins, threads),
        is_estimate(r, data, bins, sigma, pi, exp, cos, sin),
        is_estimate(g, data, bins, sigma, pi, exp, cos, sin),
    ensures
        r == g,
{
    let threads = choose|threads: usize|
        threads >= 1 && #[trigger] is_estimate_on(
            r,
            data,
            bins,
            sigma,
            pi,
            exp,
            cos,
            sin,
            threads,
        );
    let others = choose|others: usize|
        others >= 1 && #[trigger] is_estimate_on(g, data, bins, sigma, pi, exp, cos, sin, others);
    assert(histogram_defined(data, bins, threads));
    assert(histogram_defined(data, bins, others));
    law_exact_preparations_agree(data, bins, sigma, threads, others);
    law_estimates_agree(r, g, data, bins, sigma, pi, exp, cos, sin, threads);
}

/// The mode belongs to the estimate: a call for the mode returns the place where the density that a
/// separate call for the estimate returns is largest, or the error that that call returns, on any
/// numbers of threads.
pub proof fn law_exact_mode_belongs_to_estimate<
    E: Fn(Exact) -> Exact,
    C: Fn(Exact) -> Exact,
    S: Fn(Exact) -> Exact,
>(
    m: Result<Exact, KdeError<Exact>>,
    r: Result<(Seq<Exact>, Seq<Exact>), KdeError<Exact>>,
    data: Seq<Exact>,
    bins: usize,
    sigma: Exact,
    pi: Exact,
    exp: E,
    cos: C,
    sin: S,
)
    requires
        single_valued(exp),
        single_valued(cos),
        single_valued(sin),
        forall|threads: usize| threads >= 1 ==> #[trigger] histogram_defined(data, bins, threads),
        is_estimate(r, data, bins, sigma, pi, exp, cos, sin),
        exists|g: Result<(Seq<Exact>, Seq<Exact>), KdeError<Exact>>| #[trigger]
            is_estimate(g, data, bins, sigma, pi, exp, cos, sin) && m == mode_of(g)
                && is_at_largest(m, g),
    ensures
        m == mode_of(r),
        is_at_largest(m, r),
        match r {
            Err(e) => m == Err::<Exact, KdeError<Exact>>(e),
            Ok(_) => true,
        },
{
    let g = choose|g: Result<(Seq<Exact>, Seq<Exact>), KdeError<Exact>>| #[trigger]
        is_estimate(g, data, bins, sigma, pi, exp, cos, sin) && m == mode_of(g) && is_at_largest(
            m,
            g,
        );
    law_exact_estimates_agree(r, g, data, bins, sigma, pi, exp, cos, sin);
}

/// Whether the histogram, the width of its bins and the bandwidth are defined.
pub open spec fn range_defined(b: BinnedRange<Exact>) -> bool {
    b.dx.defined() && b.sigma.defined() && all_defined(b.hist)
}

/// Whether the estimate comes to the histogram `b`, which is defined.
pub open spec fn comes_to(
    data: Seq<Exact>,
    bins: usize,
    sigma: Exact,
    threads: usize,
    b: BinnedRange<Exact>,
) -> bool {
    range_defined(b) && prepared(data, bins, sigma, threads) == Ok::<
        Stage<Exact>,
        KdeError<Exact>,
    >(Stage::Binned(b))
}

/// Whether the density is defined and does not count as zero everywhere.
pub open spec fn density_defined(x: Seq<Exact>, pdf: Seq<Exact>) -> bool {
    all_defined(x) && all_defined(pdf) && some_sizable(pdf)
}

/// A density that does not count as zero everywhere is normalized: its integral does not count as
/// zero before, and its entries and those of its grid are in lowest terms.
proof fn lemma_density(
    b: BinnedRange<Exact>,
    pi: Exact,
    poles: Seq<(Exact, Exact)>,
    x: Seq<Exact>,
    pdf: Seq<Exact>,
)
    requires
        poles.len() == 4,
        range_defined(b),
        b.hist.len() >= 1,
        finished(b, pi, poles) == Ok::<(Seq<Exact>, Seq<Exact>), KdeError<Exact>>((x, pdf)),
        density_defined(x, pdf),
    ensures
        x.len() == b.hist.len(),
        pdf.len() == b.hist.len(),
        forall|i: int| 0 <= i < x.len() ==> proper(#[trigger] x[i]),
        forall|i: int| 0 <= i < pdf.len() ==> proper(#[trigger] pdf[i]),
        finished(range_values(b), pi.value(), pair_values(poles)) == Ok::<
            (Seq<real>, Seq<real>),
            KdeError<real>,
        >((values(x), values(pdf))),
        ({
            let v = range_values(b);
            let s = smoothed(v.hist, v.sigma, pi.value(), pair_values(poles));
            !negligible(total(s) * v.dx)
        }),
{
    broadcast use group_stand;

    let v = range_values(b);
    let r = pair_values(poles);
    let (h, g) = (smoothed(b.hist, b.sigma, pi, poles), smoothed(v.hist, v.sigma, pi.value(), r));
    let (f, e) = (total(h).times(b.dx), total(g).times(v.dx));
    law_exact_estimate(b, pi, poles);
    lemma_stand_values(b.hist);
    lemma_stand_pair_values(poles);
    law_exact_smoothing(b.hist, v.hist, b.sigma, v.sigma, pi, pi.value(), poles, r);
    lemma_stand_total(h, g);
    assert(stands_for(f, e));
    assert(!negligible(f));
    assert(pdf[0].defined());
    lemma_stand_negligible(f, e);
    assert forall|i: int| 0 <= i < x.len() implies proper(#[trigger] x[i]) by {
        let step = Exact::whole(i as usize).plus(half()).times(b.dx);
        law_exact_results_are_proper(b.xmin, step, 0, 0, 1);
    }
    assert forall|i: int| 0 <= i < pdf.len() implies proper(#[trigger] pdf[i]) by {
        law_exact_results_are_proper(h[i], f, 0, 0, 1);
    }
}

/// What a histogram is computed from, and the bandwidth in lowest terms.
proof fn lemma_stage(
    data: Seq<Exact>,
    bins: usize,
    sigma: Exact,
    threads: usize,
    b: BinnedRange<Exact>,
)
    requires
        threads >= 1,
        comes_to(data, bins, sigma, threads, b),
    ensures
        request_error(data, bins, sigma) is None,
        sigma.defined(),
        all_defined(data),
        proper(b.sigma),
        b.hist.len() >= 1,
        prepared(values(data), bins, sigma.value(), threads) == Ok::<Stage<real>, KdeError<real>>(
            Stage::Binned(range_values(b)),
        ),
        request_error(values(data), bins, sigma.value()) is None,
{
    let width = highest(data).minus(lowest(data));
    law_exact_results_are_proper(sigma, Exact::whole(bins).over(width), 0, 0, 1);
    assert(sigma.defined());
    lemma_all_finite(data);
    law_exact_preparation(data, bins, sigma, threads);
    lemma_proper_histogram(
        data,
        lowest(data),
        highest(data),
        bins,
        threads,
        0,
    );
}

/// The estimate is made of the histogram with the poles that the functions give it.
proof fn lemma_poles<E: Fn(Exact) -> Exact, C: Fn(Exact) -> Exact, S: Fn(Exact) -> Exact>(
    r: Result<(Seq<Exact>, Seq<Exact>), KdeError<Exact>>,
    data: Seq<Exact>,
    bins: usize,
    sigma: Exact,
    pi: Exact,
    exp: E,
    cos: C,
    sin: S,
    threads: usize,
    b: BinnedRange<Exact>,
) -> (p: Seq<(Exact, Exact)>)
    requires
        comes_to(data, bins, sigma, threads, b),
        is_estimate_on(r, data, bins, sigma, pi, exp, cos, sin, threads),
    ensures
        are_poles(p, b.sigma, exp, cos, sin),
        r == finished(b, pi, p),
{
    choose|p: Seq<(Exact, Exact)>| #[trigger]
        are_poles(p, b.sigma, exp, cos, sin) && r == finished(b, pi, p)
}

/// Repeated fractions have repeated values.
proof fn lemma_repeated_values(data: Seq<Exact>, m: nat)
    ensures
        values(repeated(data, m)) == repeated(values(data), m),
    decreases m,
{
    if m > 0 {
        let n = (m - 1) as nat;
        lemma_repeated_values(data, n);
        assert(values(repeated(data, n) + data) =~= values(repeated(data, n)) + values(data));
    } else {
        assert(values(repeated(data, m)) =~= repeated(values(data), m));
    }
}

/// Sequences in lowest terms with the same defined values are the same.
proof fn lemma_same_entries(a: Seq<Exact>, b: Seq<Exact>)
    requires
        all_defined(a),
        all_defined(b),
        forall|i: int| 0 <= i < a.len() ==> proper(#[trigger] a[i]),
        forall|i: int| 0 <= i < b.len() ==> proper(#[trigger] b[i]),
        values(a) == values(b),
    ensures
        a == b,
{
    assert(a.len() == values(a).len() && values(b).len() == b.len());
    assert forall|i: int| 0 <= i < a.len() implies a[i] == #[trigger] b[i] by {
        assert(values(a)[i] == a[i].value());
        assert(values(b)[i] == b[i].value());
        assert(a[i].defined() && b[i].defined());
        law_equal_values_are_equal_fractions(a[i], b[i]);
    }
    assert(a =~= b);
}

/// Densities with the same defined values count as zero together.
proof fn lemma_same_size(a: Seq<Exact>, b: Seq<Exact>)
    requires
        all_defined(a),
        all_defined(b),
        values(a) == values(b),
        some_sizable(a),
    ensures
        some_sizable(b),
{
    assert(a.len() == values(a).len() && values(b).len() == b.len());
    let i = choose|i: int| 0 <= i < a.len() && tiny::<Exact>().at_most(magnitude(#[trigger] a[i]));
    assert(values(a)[i] == a[i].value());
    assert(values(b)[i] == b[i].value());
    lemma_stand_negligible(a[i], a[i].value());
    assert(b[i].defined());
    lemma_stand_negligible(b[i], a[i].value());
    assert(tiny::<Exact>().at_most(magnitude(b[i])));
}

/// Only relative frequencies matter, and not the order: data in which each number occurs `m` times
/// as often, in whatever order, gives the same estimate, on any numbers of threads. With `m` equal
/// to one, this is what two calls on reordered data have in common.
pub proof fn law_exact_estimate_of_repeated_data<
    E: Fn(Exact) -> Exact,
    C: Fn(Exact) -> Exact,
    S: Fn(Exact) -> Exact,
>(
    x: Seq<Exact>,
    pdf: Seq<Exact>,
    y: Seq<Exact>,
    density: Seq<Exact>,
    data: Seq<Exact>,
    others: Seq<Exact>,
    m: nat,
    bins: usize,
    sigma: Exact,
    pi: Exact,
    exp: E,
    cos: C,
    sin: S,
    threads: usize,
    other_threads: usize,
    b: BinnedRange<Exact>,
    c: BinnedRange<Exact>,
)
    requires
        m >= 1,
        threads >= 1,
        other_threads >= 1,
        single_valued(exp),
        single_valued(cos),
        single_valued(sin),
        others.to_multiset() == repeated(data, m).to_multiset(),
        comes_to(data, bins, sigma, threads, b),
        comes_to(others, bins, sigma, other_threads, c),
        is_estimate_on(Ok((x, pdf)), data, bins, sigma, pi, exp, cos, sin, threads),
        is_estimate_on(Ok((y, density)), others, bins, sigma, pi, exp, cos, sin, other_threads),
        density_defined(x, pdf),
        all_defined(y),
        all_defined(density),
    ensures
        y == x,
        density == pdf,
{
    let (t, u) = (values(data), values(others));
    let s = sigma.value();
    lemma_stage(data, bins, sigma, threads, b);
    lemma_stage(others, bins, sigma, other_threads, c);
    lemma_reordered_values(others, repeated(data, m));
    lemma_repeated_values(data, m);
    let p = lemma_poles(
        Ok((x, pdf)),
        data,
        bins,
        sigma,
        pi,
        exp,
        cos,
        sin,
        threads,
        b,
    );
    let q = lemma_poles(
        Ok((y, density)),
        others,
        bins,
        sigma,
        pi,
        exp,
        cos,
        sin,
        other_threads,
        c,
    );
    let r = pair_values(p);
    law_estimate_of_repeated_data(t, u, m, bins, s, pi.value(), r, threads, other_threads);
    assert(range_values(c).sigma == range_values(b).sigma);
    law_equal_values_are_equal_fractions(c.sigma, b.sigma);
    law_poles_are_determined(p, q, b.sigma, exp, cos, sin);
    lemma_density(b, pi, p, x, pdf);
    law_exact_estimate(c, pi, p);
    assert(values(y) == values(x) && values(density) == values(pdf));
    lemma_same_size(pdf, density);
    lemma_density(c, pi, p, y, density);
    lemma_same_entries(y, x);
    lemma_same_entries(density, pdf);
}

/// The width of the bins scales with the range.
proof fn lemma_moved_width(low: real, high: real, bins: usize, k: real, c: real)
    requires
        bins >= 1,
    ensures
        bin_width(k * low + c, k * high + c, bins) == k * bin_width(low, high, bins),
{
    lemma_distribute(high, low, k);
    let n = bins as real;
    let d = high - low;
    assert((k * high + c) - (k * low + c) == k * d);
    lemma_factor_above(d, n, k);
}

/// Estimates of moved data, both normalized, have the same bandwidth counted in bins, and the density
/// of the one is that of the other, moved.
proof fn lemma_moved_density(
    t: Seq<real>,
    bins: usize,
    sigma: real,
    pi: real,
    poles: Seq<(real, real)>,
    threads: usize,
    others: usize,
    k: real,
    c: real,
    v: BinnedRange<real>,
    w: BinnedRange<real>,
)
    requires
        threads >= 1,
        others >= 1,
        k > 0real,
        request_error(t, bins, sigma) is None,
        prepared(t, bins, sigma, threads) == Ok::<Stage<real>, KdeError<real>>(Stage::Binned(v)),
        prepared(moved(t, k, c), bins, k * sigma, others) == Ok::<Stage<real>, KdeError<real>>(
            Stage::Binned(w),
        ),
    ensures
        w.sigma == v.sigma,
        ({
            let (f, g) = (
                total(smoothed(v.hist, v.sigma, pi, poles)) * v.dx,
                total(smoothed(w.hist, w.sigma, pi, poles)) * w.dx,
            );
            !negligible(f) && !negligible(g) ==> (match finished(v, pi, poles) {
                Ok((x, pdf)) => finished(w, pi, poles) == Ok::<
                    (Seq<real>, Seq<real>),
                    KdeError<real>,
                >((moved(x, k, c), Seq::new(pdf.len(), |i: int| pdf[i] / k))),
                Err(_) => false,
            })
        }),
{
    lemma_moved_range(t, k, c);
    let (low, high) = (lowest(t), highest(t));
    lemma_distribute(high, low, k);
    assert((k * high + c) - (k * low + c) == k * (high - low));
    lemma_moved_width(low, high, bins, k, c);
    law_preparation_moves_with_data(t, bins, sigma, threads, others, k, c);
    law_density_shifts_and_scales(t, bins, sigma, pi, poles, threads, others, k, c);
    let g = total(smoothed(v.hist, v.sigma, pi, poles));
    lemma_associate(g, k, v.dx);
    lemma_commute(g, k);
    lemma_associate(k, g, v.dx);
    assert(g * w.dx == k * (g * v.dx));
}

/// Densities whose values are moved agree with the moved densities.
proof fn lemma_moved_entries(
    x: Seq<Exact>,
    pdf: Seq<Exact>,
    y: Seq<Exact>,
    density: Seq<Exact>,
    k: Exact,
    c: Exact,
)
    requires
        forall|i: int| 0 <= i < y.len() ==> proper(#[trigger] y[i]),
        forall|i: int| 0 <= i < density.len() ==> proper(#[trigger] density[i]),
        values(y) == moved(values(x), k.value(), c.value()),
        values(density) == Seq::new(pdf.len(), |i: int| values(pdf)[i] / k.value()),
    ensures
        y.len() == x.len(),
        density.len() == pdf.len(),
        forall|i: int| 0 <= i < y.len() ==> agree(#[trigger] y[i], moved(x, k, c)[i]),
        forall|i: int| 0 <= i < density.len() ==> agree(#[trigger] density[i], pdf[i].over(k)),
{
    broadcast use group_stand;

    let (kr, cr) = (k.value(), c.value());
    assert(y.len() == values(y).len() && density.len() == values(density).len());
    assert forall|i: int| 0 <= i < y.len() implies agree(#[trigger] y[i], moved(x, k, c)[i]) by {
        assert(values(y)[i] == moved(values(x), kr, cr)[i]);
        assert(stands_for(x[i], values(x)[i]));
        law_exact_results_are_proper(k.times(x[i]), c, 0, 0, 1);
        lemma_agree(y[i], moved(x, k, c)[i], y[i].value());
    }
    assert forall|i: int| 0 <= i < density.len() implies agree(
        #[trigger] density[i],
        pdf[i].over(k),
    ) by {
        assert(values(density)[i] == values(pdf)[i] / kr);
        assert(values(density)[i] == density[i].value());
        assert(stands_for(pdf[i], values(pdf)[i]));
        assert(stands_for(pdf[i].over(k), values(pdf)[i].over(kr)));
        law_exact_results_are_proper(pdf[i], k, 0, 0, 1);
        lemma_agree(density[i], pdf[i].over(k), density[i].value());
    }
}

/// Moved fractions have moved values, where they are defined.
proof fn lemma_moved_values(data: Seq<Exact>, k: Exact, c: Exact)
    requires
        all_defined(moved(data, k, c)),
    ensures
        values(moved(data, k, c)) == moved(values(data), k.value(), c.value()),
{
    broadcast use group_stand;

    let (a, b) = (moved(data, k, c), moved(values(data), k.value(), c.value()));
    assert forall|i: int| 0 <= i < data.len() implies #[trigger] stands_for(a[i], b[i]) by {
        assert(stands_for(data[i], values(data)[i]));
    }
    lemma_values(a, b);
}

/// The density shifts and scales with the data: the estimate of `k data + c` with the bandwidth
/// `k sigma` has the grid `k x + c` and the density divided by `k`, on any numbers of threads.
pub proof fn law_exact_density_shifts_and_scales<
    E: Fn(Exact) -> Exact,
    C: Fn(Exact) -> Exact,
    S: Fn(Exact) -> Exact,
>(
    x: Seq<Exact>,
    pdf: Seq<Exact>,
    y: Seq<Exact>,
    density: Seq<Exact>,
    data: Seq<Exact>,
    k: Exact,
    c: Exact,
    bins: usize,
    sigma: Exact,
    pi: Exact,
    exp: E,
    cos: C,
    sin: S,
    threads: usize,
    others: usize,
    b: BinnedRange<Exact>,
    m: BinnedRange<Exact>,
)
    requires
        threads >= 1,
        others >= 1,
        single_valued(exp),
        single_valued(cos),
        single_valued(sin),
        zero::<Exact>().below(k),
        k.defined(),
        c.defined(),
        comes_to(data, bins, sigma, threads, b),
        comes_to(moved(data, k, c), bins, k.times(sigma), others, m),
        is_estimate_on(Ok((x, pdf)), data, bins, sigma, pi, exp, cos, sin, threads),
        is_estimate_on(
            Ok((y, density)),
            moved(data, k, c),
            bins,
            k.times(sigma),
            pi,
            exp,
            cos,
            sin,
            others,
        ),
        density_defined(x, pdf),
        density_defined(y, density),
    ensures
        values(y) == moved(values(x), k.value(), c.value()),
        values(density) == Seq::new(pdf.len(), |i: int| values(pdf)[i] / k.value()),
        y.len() == x.len(),
        density.len() == pdf.len(),
        forall|i: int| 0 <= i < y.len() ==> agree(#[trigger] y[i], moved(x, k, c)[i]),
        forall|i: int| 0 <= i < density.len() ==> agree(#[trigger] density[i], pdf[i].over(k)),
{
    let data2 = moved(data, k, c);
    let sigma2 = k.times(sigma);
    let (kr, cr, s) = (k.value(), c.value(), sigma.value());
    lemma_defined_constants();
    lemma_stand_whole(0);
    lemma_stand_order(zero(), k, zero(), kr);
    lemma_stage(data, bins, sigma, threads, b);
    lemma_stage(data2, bins, sigma2, others, m);
    lemma_stand_times(k, sigma, kr, s);
    lemma_moved_values(data, k, c);
    let p = lemma_poles(
        Ok((x, pdf)),
        data,
        bins,
        sigma,
        pi,
        exp,
        cos,
        sin,
        threads,
        b,
    );
    let q = lemma_poles(
        Ok((y, density)),
        data2,
        bins,
        sigma2,
        pi,
        exp,
        cos,
        sin,
        others,
        m,
    );
    let (v, w) = (range_values(b), range_values(m));
    lemma_moved_density(
        values(data),
        bins,
        s,
        pi.value(),
        pair_values(p),
        threads,
        others,
        kr,
        cr,
        v,
        w,
    );
    law_equal_values_are_equal_fractions(m.sigma, b.sigma);
    law_poles_are_determined(p, q, b.sigma, exp, cos, sin);
    lemma_density(b, pi, p, x, pdf);
    lemma_density(m, pi, p, y, density);
    assert(values(density) =~= Seq::new(pdf.len(), |i: int| values(pdf)[i] / kr));
    lemma_moved_entries(x, pdf, y, density, k, c);
}

/// Whether the frame of the points and their histogram on `threads` threads are defined, for the
/// factor `f`.
pub open spec fn cells_defined_for(
    x: Seq<Exact>,
    y: Seq<Exact>,
    bins: usize,
    f: Exact,
    threads: usize,
) -> bool {
    let h = bandwidth(x, y, f);
    let (xmin, xmax) = padded_range(x, axis_eigenvalues(h).0.root());
    let (ymin, ymax) = padded_range(y, axis_eigenvalues(h).1.root());
    let fr = frame(xmin, xmax, ymin, ymax, bins, bins);
    &&& cells_defined(x, y, xmin, xmax, ymin, ymax, bins, bins)
    &&& rows_defined(binned_2d(x, y, fr, bins, bins, threads))
}

/// Estimates of the same points come equally far without smoothing, on any numbers of threads.
pub proof fn law_exact_preparations_2d_agree(
    x: Seq<Exact>,
    y: Seq<Exact>,
    bins: usize,
    f: Exact,
    threads: usize,
    others: usize,
)
    requires
        threads >= 1,
        others >= 1,
        bins >= 1,
        cells_defined_for(x, y, bins, f, threads),
        cells_defined_for(x, y, bins, f, others),
    ensures
        prepared_2d(x, y, bins, f, threads) == prepared_2d(x, y, bins, f, others),
{
    let h = bandwidth(x, y, f);
    let (xmin, xmax) = padded_range(x, axis_eigenvalues(h).0.root());
    let (ymin, ymax) = padded_range(y, axis_eigenvalues(h).1.root());
    law_exact_binning_of_reordered_points(
        x,
        y,
        x,
        y,
        xmin,
        xmax,
        ymin,
        ymax,
        bins,
        bins,
        threads,
        others,
    );
}

/// Whether the frame of the points and their histogram on `threads` threads are defined, for every
/// factor that `pow` computes.
pub open spec fn estimate_2d_defined<P: Fn(Exact, Exact) -> Exact>(
    x: Seq<Exact>,
    y: Seq<Exact>,
    bins: usize,
    pow: P,
    threads: usize,
) -> bool {
    forall|f: Exact| #[trigger]
        pow.ensures((Exact::whole(x.len() as usize), scott_exponent::<Exact>()), f)
            ==> cells_defined_for(x, y, bins, f, threads)
}

/// Two estimates of the same points are the same, errors included, on any numbers of threads.
pub proof fn law_exact_estimates_2d_agree<E: Fn(Exact) -> Exact, P: Fn(Exact, Exact) -> Exact>(
    r: Result<(Seq<Exact>, Seq<Exact>, Seq<Seq<Exact>>), KdeError<Exact>>,
    g: Result<(Seq<Exact>, Seq<Exact>, Seq<Seq<Exact>>), KdeError<Exact>>,
    x: Seq<Exact>,
    y: Seq<Exact>,
    bins: usize,
    exp: E,
    pow: P,
    threads: usize,
    others: usize,
)
    requires
        threads >= 1,
        others >= 1,
        single_valued(exp),
        single_valued_in_two(pow),
        estimate_2d_defined(x, y, bins, pow, threads),
        estimate_2d_defined(x, y, bins, pow, others),
        is_estimate_2d_on(r, x, y, bins, exp, pow, threads),
        is_estimate_2d_on(g, x, y, bins, exp, pow, others),
    ensures
        r == g,
{
    if request_error_2d(x, y, bins) is None {
        let n = Exact::whole(x.len() as usize);
        let s = scott_exponent::<Exact>();
        let f = choose|f: Exact| #[trigger]
            pow.ensures((n, s), f) && is_estimate_2d_for(g, x, y, bins, f, exp, others);
        law_exact_preparations_2d_agree(x, y, bins, f, threads, others);
        assert(pow.ensures((n, s), f) && is_estimate_2d_for(g, x, y, bins, f, exp, threads));
        assert(is_estimate_2d_on(g, x, y, bins, exp, pow, threads));
        law_estimates_2d_agree(r, g, x, y, bins, exp, pow, threads);
    }
}

/// A call on a table and a call on the transposed table return the same, errors included, on any
/// numbers of threads. A table of two rows and two columns is left out.
pub proof fn law_exact_calls_on_transposed_tables_agree<
    E: Fn(Exact) -> Exact,
    P: Fn(Exact, Exact) -> Exact,
>(
    r: Result<(Seq<Exact>, Seq<Exact>, Seq<Seq<Exact>>), KdeError<Exact>>,
    g: Result<(Seq<Exact>, Seq<Exact>, Seq<Seq<Exact>>), KdeError<Exact>>,
    flat: Seq<Exact>,
    rows: usize,
    cols: usize,
    bins: usize,
    exp: E,
    pow: P,
    threads: usize,
    others: usize,
)
    requires
        threads >= 1,
        others >= 1,
        flat.len() == rows * cols,
        !(rows == 2 && cols == 2),
        single_valued(exp),
        single_valued_in_two(pow),
        match axes(flat, rows, cols) {
            Ok((x, y)) => estimate_2d_defined(x, y, bins, pow, threads) && estimate_2d_defined(
                x,
                y,
                bins,
                pow,
                others,
            ),
            Err(_) => true,
        },
        is_table_estimate_on(r, flat, rows, cols, bins, exp, pow, threads),
        is_table_estimate_on(
            g,
            transposed_table(flat, rows as nat, cols as nat),
            cols,
            rows,
            bins,
            exp,
            pow,
            others,
        ),
    ensures
        r == g,
{
    law_transposed_table_has_the_same_axes(flat, rows, cols);
    match axes(flat, rows, cols) {
        Ok((x, y)) => {
            law_exact_estimates_2d_agree(r, g, x, y, bins, exp, pow, threads, others);
        },
        Err(_) => {},
    }
}

} // verus!
