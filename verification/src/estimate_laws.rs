//! How the estimate of a one-dimensional density follows its data, in exact arithmetic.
use vstd::prelude::*;

use crate::binning::{bin_position, bin_width, deposited, histogram, lemma_histogram_len, share};
use crate::binning_laws::law_histogram_adds;
use crate::deriche::smoothed;
use crate::error::KdeError;
use crate::kde::{
    centres, finished, highest, lowest, normalized, prepared, request_error, BinnedRange, Stage,
};
use crate::kde_laws::{law_prepared, law_range, lemma_reals_are_finite};
use crate::linearity_laws::{law_smoothing_is_linear, mixed};
use crate::order_laws::{law_binning_of_reordered_data, law_histogram_of_reordered_data};
use crate::reals::{
    lemma_associate, lemma_cancel, lemma_commute, lemma_distribute, lemma_div_mul,
    lemma_product_sign, lemma_tiny, lemma_units,
};
use crate::scalar::{negligible, total, Arith};

verus! {

/// Data with the same numbers has the same range.
proof fn lemma_same_range(a: Seq<real>, b: Seq<real>)
    requires
        a.len() >= 1,
        b.len() >= 1,
        forall|v: real| #[trigger] a.contains(v) <==> b.contains(v),
    ensures
        lowest(a) == lowest(b),
        highest(a) == highest(b),
{
    law_range(a);
    law_range(b);
    assert(b.contains(lowest(a)) && b.contains(highest(a)));
    assert(a.contains(lowest(b)) && a.contains(highest(b)));
    let i = choose|i: int| 0 <= i < b.len() && b[i] == lowest(a);
    let j = choose|j: int| 0 <= j < a.len() && a[j] == lowest(b);
    let k = choose|k: int| 0 <= k < b.len() && b[k] == highest(a);
    let l = choose|l: int| 0 <= l < a.len() && a[l] == highest(b);
    assert(lowest(b) <= b[i] && lowest(a) <= a[j] && b[k] <= highest(b) && a[l] <= highest(a));
}

/// Reordered data holds the same numbers.
proof fn lemma_reordered(a: Seq<real>, b: Seq<real>)
    requires
        a.to_multiset() == b.to_multiset(),
    ensures
        a.len() == b.len(),
        forall|v: real| #[trigger] a.contains(v) <==> b.contains(v),
{
    broadcast use vstd::seq_lib::group_to_multiset_ensures;

    vstd::seq_lib::to_multiset_len(a);
    vstd::seq_lib::to_multiset_len(b);
    assert forall|v: real| #[trigger] a.contains(v) <==> b.contains(v) by {
        assert(a.contains(v) <==> a.to_multiset().count(v) > 0);
        assert(b.contains(v) <==> b.to_multiset().count(v) > 0);
    }
}

/// Neither the order of the data nor the number of threads matters for an estimate.
pub proof fn law_estimate_of_reordered_data(
    a: Seq<real>,
    b: Seq<real>,
    bins: usize,
    sigma: real,
    threads: usize,
    others: usize,
)
    requires
        threads >= 1,
        others >= 1,
        a.to_multiset() == b.to_multiset(),
    ensures
        prepared(a, bins, sigma, threads) == prepared(b, bins, sigma, others),
{
    lemma_reordered(a, b);
    lemma_reals_are_finite(a);
    lemma_reals_are_finite(b);
    if a.len() >= 1 {
        lemma_same_range(a, b);
        law_binning_of_reordered_data(a, b, lowest(a), highest(a), bins, threads, others);
    }
}

/// The data, repeated `m` times.
pub open spec fn repeated<T>(data: Seq<T>, m: nat) -> Seq<T>
    decreases m,
{
    if m == 0 {
        Seq::empty()
    } else {
        repeated(data, (m - 1) as nat) + data
    }
}

/// The sequence with every entry multiplied by `k`.
pub open spec fn multiplied(s: Seq<real>, k: real) -> Seq<real> {
    Seq::new(s.len(), |i: int| k * s[i])
}

/// Repeated data is as long as its parts and holds the same numbers.
proof fn lemma_repeated(data: Seq<real>, m: nat)
    requires
        m >= 1,
    ensures
        repeated(data, m).len() >= data.len(),
        forall|v: real| #[trigger] repeated(data, m).contains(v) <==> data.contains(v),
    decreases m,
{
    let r = repeated(data, m);
    let before = repeated(data, (m - 1) as nat);
    if m > 1 {
        lemma_repeated(data, (m - 1) as nat);
    }
    assert forall|v: real| #[trigger] r.contains(v) <==> data.contains(v) by {
        if data.contains(v) {
            let i = choose|i: int| 0 <= i < data.len() && data[i] == v;
            assert(r[before.len() + i] == v);
        }
        if r.contains(v) {
            let i = choose|i: int| 0 <= i < r.len() && r[i] == v;
            if i < before.len() {
                assert(before[i] == v);
                assert(before.contains(v));
            } else {
                assert(data[i - before.len()] == v);
            }
        }
    }
}

/// The histogram of repeated data is that of the data, multiplied.
proof fn lemma_repeated_histogram(
    data: Seq<real>,
    m: nat,
    xmin: real,
    xmax: real,
    width: real,
    bins: nat,
)
    ensures
        histogram(repeated(data, m), xmin, xmax, width, bins) == multiplied(
            histogram(data, xmin, xmax, width, bins),
            m as real,
        ),
    decreases m,
{
    let h = histogram(data, xmin, xmax, width, bins);
    lemma_histogram_len(data, xmin, xmax, width, bins);
    lemma_histogram_len(repeated(data, m), xmin, xmax, width, bins);
    let goal = multiplied(h, m as real);
    if m == 0 {
        assert forall|i: int| 0 <= i < bins implies histogram(
            repeated(data, m),
            xmin,
            xmax,
            width,
            bins,
        )[i] == #[trigger] goal[i] by {
            lemma_units(h[i]);
        }
    } else {
        let before = repeated(data, (m - 1) as nat);
        lemma_repeated_histogram(data, (m - 1) as nat, xmin, xmax, width, bins);
        law_histogram_adds(before, data, xmin, xmax, width, bins);
        assert forall|i: int| 0 <= i < bins implies histogram(
            repeated(data, m),
            xmin,
            xmax,
            width,
            bins,
        )[i] == #[trigger] goal[i] by {
            assert(multiplied(h, (m - 1) as real)[i] == ((m - 1) as real) * h[i]);
            lemma_distribute((m - 1) as real, 1real, h[i]);
            lemma_units(h[i]);
        }
    }
    assert(histogram(repeated(data, m), xmin, xmax, width, bins) =~= goal);
}

/// The sum of multiplied entries is the multiplied sum.
proof fn lemma_multiplied_total(s: Seq<real>, k: real)
    ensures
        total(multiplied(s, k)) == k * total(s),
    decreases s.len(),
{
    if s.len() == 0 {
        lemma_units(k);
    } else {
        let r = s.drop_last();
        lemma_multiplied_total(r, k);
        assert(multiplied(s, k).drop_last() =~= multiplied(r, k));
        lemma_distribute(total(r), s.last(), k);
    }
}

/// A multiplied signal becomes the multiplied result.
proof fn lemma_multiplied_smoothing(
    x: Seq<real>,
    k: real,
    sigma: real,
    pi: real,
    poles: Seq<(real, real)>,
)
    ensures
        smoothed(multiplied(x, k), sigma, pi, poles) == multiplied(
            smoothed(x, sigma, pi, poles),
            k,
        ),
{
    law_smoothing_is_linear(x, x, k, 0real, sigma, pi, poles);
    let s = smoothed(x, sigma, pi, poles);
    assert forall|i: int| 0 <= i < x.len() implies #[trigger] mixed(x, x, k, 0real)[i]
        == multiplied(x, k)[i] by {
        lemma_units(x[i]);
    }
    assert(mixed(x, x, k, 0real) =~= multiplied(x, k));
    assert forall|i: int| 0 <= i < s.len() implies #[trigger] mixed(s, s, k, 0real)[i]
        == multiplied(s, k)[i] by {
        lemma_units(s[i]);
    }
    assert(mixed(s, s, k, 0real) =~= multiplied(s, k));
}

/// A product with a factor other than zero is zero only if the other factor is.
proof fn lemma_nonzero_product(a: real, b: real)
    by (nonlinear_arith)
    requires
        a != 0real,
        b != 0real,
    ensures
        a * b != 0real,
{
}

/// A common factor cancels in a quotient.
proof fn lemma_common_factor(a: real, b: real, k: real)
    requires
        b != 0real,
        k != 0real,
    ensures
        (k * a) / (k * b) == a / b,
{
    let q = a / b;
    lemma_nonzero_product(k, b);
    lemma_div_mul(a, b);
    lemma_div_mul(k * a, k * b);
    lemma_associate(q, k, b);
    lemma_commute(q, k);
    lemma_associate(k, q, b);
    lemma_cancel((k * a) / (k * b), q, k * b);
}

/// A factor of the dividend moves out of a quotient.
pub proof fn lemma_factor_above(a: real, b: real, k: real)
    requires
        b != 0real,
    ensures
        (k * a) / b == k * (a / b),
{
    lemma_div_mul(a, b);
    lemma_div_mul(k * a, b);
    lemma_associate(k, a / b, b);
    lemma_cancel((k * a) / b, k * (a / b), b);
}

/// A factor of the divisor moves out of a quotient.
proof fn lemma_factor_below(a: real, f: real, k: real)
    requires
        f != 0real,
        k != 0real,
    ensures
        a / (k * f) == (a / f) / k,
{
    let q = a / f;
    let r = q / k;
    lemma_nonzero_product(k, f);
    lemma_div_mul(a, f);
    lemma_div_mul(q, k);
    lemma_div_mul(a, k * f);
    lemma_associate(r, k, f);
    lemma_cancel(a / (k * f), r, k * f);
}

/// A number that does not count as zero does not count as zero when it is multiplied by one or
/// more.
proof fn lemma_multiplied_size(f: real, k: real)
    requires
        !negligible(f),
        k >= 1real,
    ensures
        !negligible(k * f),
{
    lemma_tiny();
    lemma_distribute(k, 1real, f);
    lemma_units(f);
    assert(f >= 0real ==> (k - 1real) * f >= 0real) by (nonlinear_arith)
        requires
            k >= 1real,
    ;
    assert(f <= 0real ==> (k - 1real) * f <= 0real) by (nonlinear_arith)
        requires
            k >= 1real,
    ;
}

/// Only relative frequencies matter: data in which each number occurs `m` times as often, in
/// whatever order, gives the same estimate, unless the integral to be normalized counts as zero.
pub proof fn law_estimate_of_repeated_data(
    data: Seq<real>,
    others: Seq<real>,
    m: nat,
    bins: usize,
    sigma: real,
    pi: real,
    poles: Seq<(real, real)>,
    threads: usize,
    other_threads: usize,
)
    requires
        m >= 1,
        threads >= 1,
        other_threads >= 1,
        others.to_multiset() == repeated(data, m).to_multiset(),
        request_error(data, bins, sigma) is None,
    ensures
        match prepared(data, bins, sigma, threads) {
            Ok(Stage::Binned(b)) => {
                let c = BinnedRange { hist: multiplied(b.hist, m as real), ..b };
                &&& prepared(others, bins, sigma, other_threads) == Ok::<
                    Stage<real>,
                    KdeError<real>,
                >(Stage::Binned(c))
                &&& !negligible(total(smoothed(b.hist, b.sigma, pi, poles)) * b.dx) ==> finished(
                    c,
                    pi,
                    poles,
                ) == finished(b, pi, poles)
            },
            r => prepared(others, bins, sigma, other_threads) == r,
        },
{
    let rep = repeated(data, m);
    lemma_repeated(data, m);
    lemma_reordered(others, rep);
    lemma_reals_are_finite(others);
    lemma_same_range(rep, data);
    lemma_same_range(others, rep);
    law_prepared(data, bins, sigma, threads);
    law_prepared(others, bins, sigma, other_threads);
    let (xmin, xmax) = (lowest(data), highest(data));
    let width = bin_width(xmin, xmax, bins);
    match prepared(data, bins, sigma, threads) {
        Ok(Stage::Binned(b)) => {
            law_histogram_of_reordered_data(others, rep, xmin, xmax, width, bins as nat);
            lemma_repeated_histogram(data, m, xmin, xmax, width, bins as nat);
            let k = m as real;
            let c = BinnedRange { hist: multiplied(b.hist, k), ..b };
            let s = smoothed(b.hist, b.sigma, pi, poles);
            lemma_multiplied_smoothing(b.hist, k, b.sigma, pi, poles);
            lemma_multiplied_total(s, k);
            lemma_associate(k, total(s), b.dx);
            let f = total(s) * b.dx;
            if !negligible(f) {
                lemma_multiplied_size(f, k);
                lemma_tiny();
                let (p, q) = (
                    Seq::new(s.len(), |i: int| s[i].over(f)),
                    Seq::new(s.len(), |i: int| multiplied(s, k)[i].over(k * f)),
                );
                assert forall|i: int| 0 <= i < s.len() implies p[i] == #[trigger] q[i] by {
                    lemma_common_factor(s[i], f, k);
                }
                assert(p =~= q);
            }
        },
        _ => {},
    }
}

/// The sequence with every entry multiplied by `k` and shifted by `c`.
pub open spec fn moved<T: Arith>(s: Seq<T>, k: T, c: T) -> Seq<T> {
    Seq::new(s.len(), |i: int| k.times(s[i]).plus(c))
}

/// A positive factor and a shift keep the order.
proof fn lemma_moved_order(x: real, y: real, k: real, c: real)
    requires
        k > 0real,
    ensures
        x < y <==> k * x + c < k * y + c,
        x <= y <==> k * x + c <= k * y + c,
{
    lemma_distribute(y, x, k);
    lemma_product_sign(k, y - x);
    lemma_product_sign(k, x - y);
    lemma_distribute(x, y, k);
}

/// The range moves with the data.
pub proof fn lemma_moved_range(data: Seq<real>, k: real, c: real)
    requires
        k > 0real,
        data.len() >= 1,
    ensures
        lowest(moved(data, k, c)) == k * lowest(data) + c,
        highest(moved(data, k, c)) == k * highest(data) + c,
    decreases data.len(),
{
    let t = moved(data, k, c);
    if data.len() > 1 {
        let r = data.drop_last();
        lemma_moved_range(r, k, c);
        assert(t.drop_last() =~= moved(r, k, c));
        lemma_moved_order(data.last(), lowest(r), k, c);
        lemma_moved_order(highest(r), data.last(), k, c);
    }
}

/// The share that a bin receives from a point of the range moves with the data.
proof fn lemma_moved_share(
    x: real,
    xmin: real,
    xmax: real,
    width: real,
    k: real,
    c: real,
    bins: nat,
    i: int,
)
    requires
        k > 0real,
        width != 0real,
        xmin <= x <= xmax,
    ensures
        share(k * x + c, k * xmin + c, k * xmax + c, k * width, bins, i) == share(
            x,
            xmin,
            xmax,
            width,
            bins,
            i,
        ),
{
    lemma_tiny();
    lemma_moved_order(xmin, x, k, c);
    lemma_moved_order(x, xmax, k, c);
    lemma_distribute(x, xmin, k);
    assert((k * x + c) - (k * xmin + c) == k * (x - xmin));
    lemma_common_factor(x - xmin, width, k);
    assert(bin_position(k * x + c, k * xmin + c, k * width) == bin_position(x, xmin, width));
}

/// The histogram of moved data over the moved range is the histogram of the data.
proof fn lemma_moved_histogram(
    data: Seq<real>,
    xmin: real,
    xmax: real,
    width: real,
    k: real,
    c: real,
    bins: nat,
)
    requires
        k > 0real,
        width != 0real,
        forall|j: int| 0 <= j < data.len() ==> xmin <= #[trigger] data[j] <= xmax,
    ensures
        histogram(moved(data, k, c), k * xmin + c, k * xmax + c, k * width, bins) == histogram(
            data,
            xmin,
            xmax,
            width,
            bins,
        ),
    decreases data.len(),
{
    if data.len() > 0 {
        let r = data.drop_last();
        let last = data.len() - 1;
        let t = moved(data, k, c);
        assert forall|j: int| 0 <= j < r.len() implies xmin <= #[trigger] r[j] <= xmax by {
            assert(r[j] == data[j]);
        }
        lemma_moved_histogram(r, xmin, xmax, width, k, c, bins);
        assert(t.drop_last() =~= moved(r, k, c));
        assert(xmin <= data[last] <= xmax);
        let h = histogram(r, xmin, xmax, width, bins);
        lemma_histogram_len(r, xmin, xmax, width, bins);
        let (p, q) = (
            deposited(h, t.last(), k * xmin + c, k * xmax + c, k * width),
            deposited(h, data.last(), xmin, xmax, width),
        );
        assert forall|i: int| 0 <= i < h.len() implies p[i] == #[trigger] q[i] by {
            lemma_moved_share(data[last], xmin, xmax, width, k, c, bins, i);
        }
        assert(p =~= q);
    }
}

/// The histogram of a range, moved with the data: the weights and the bandwidth counted in bins stay
/// as they are.
pub open spec fn moved_range(b: BinnedRange<real>, k: real, c: real) -> BinnedRange<real> {
    BinnedRange { xmin: k * b.xmin + c, dx: k * b.dx, ..b }
}

/// The bandwidth is in the units of the data: the histogram of data that is multiplied by `k` and
/// shifted by `c`, with the bandwidth multiplied by `k`, is the histogram of the data over the moved
/// range. Ranges and bins whose width counts as zero are left out.
pub proof fn law_preparation_moves_with_data(
    data: Seq<real>,
    bins: usize,
    sigma: real,
    threads: usize,
    others: usize,
    k: real,
    c: real,
)
    requires
        threads >= 1,
        others >= 1,
        k > 0real,
        request_error(data, bins, sigma) is None,
        ({
            let dx = bin_width(lowest(data), highest(data), bins);
            &&& !negligible(highest(data) - lowest(data))
            &&& !negligible(k * (highest(data) - lowest(data)))
            &&& !negligible(dx)
            &&& !negligible(k * dx)
        }),
    ensures
        match prepared(data, bins, sigma, threads) {
            Ok(Stage::Binned(b)) => prepared(moved(data, k, c), bins, k * sigma, others) == Ok::<
                Stage<real>,
                KdeError<real>,
            >(Stage::Binned(moved_range(b, k, c))),
            _ => false,
        },
{
    let t = moved(data, k, c);
    let (xmin, xmax) = (lowest(data), highest(data));
    let (low, high) = (k * xmin + c, k * xmax + c);
    let range = xmax - xmin;
    let n = bins as real;
    let dx = bin_width(xmin, xmax, bins);
    lemma_tiny();
    law_range(data);
    lemma_moved_range(data, k, c);
    lemma_distribute(xmax, xmin, k);
    assert(high - low == k * range);
    lemma_factor_above(range, n, k);
    assert(bin_width(low, high, bins) == k * dx);
    lemma_reals_are_finite(data);
    lemma_reals_are_finite(t);
    lemma_moved_order(sigma, 0real, k, 0real);
    lemma_units(k);
    law_prepared(data, bins, sigma, threads);
    law_prepared(t, bins, k * sigma, others);
    lemma_moved_histogram(data, xmin, xmax, dx, k, c, bins as nat);
    // The bandwidth, counted in bins.
    let u = n / range;
    lemma_factor_below(n, range, k);
    lemma_div_mul(u, k);
    let v = u / k;
    lemma_commute(k, sigma);
    lemma_associate(sigma, k, v);
    assert((k * sigma) * (n / (k * range)) == sigma * u);
}

/// The density shifts and scales with the data: on the moved histogram the grid is the moved grid,
/// and the density is the density divided by `k`. Where the integral to be normalized counts as
/// zero, both estimates are refused, or neither is normalized.
pub proof fn law_estimate_moves_with_data(
    b: BinnedRange<real>,
    pi: real,
    poles: Seq<(real, real)>,
    k: real,
    c: real,
)
    requires
        k > 0real,
        ({
            let f = total(smoothed(b.hist, b.sigma, pi, poles)) * b.dx;
            negligible(f) == negligible(k * f)
        }),
    ensures
        ({
            let s = smoothed(b.hist, b.sigma, pi, poles);
            let f = total(s) * b.dx;
            match finished(b, pi, poles) {
                Ok((x, pdf)) => finished(moved_range(b, k, c), pi, poles) == Ok::<
                    (Seq<real>, Seq<real>),
                    KdeError<real>,
                >(
                    (
                        moved(x, k, c),
                        if negligible(f) {
                            pdf
                        } else {
                            Seq::new(pdf.len(), |i: int| pdf[i] / k)
                        },
                    ),
                ),
                Err(e) => finished(moved_range(b, k, c), pi, poles) == Err::<
                    (Seq<real>, Seq<real>),
                    KdeError<real>,
                >(e),
            }
        }),
{
    let m = moved_range(b, k, c);
    let s = smoothed(b.hist, b.sigma, pi, poles);
    let f = total(s) * b.dx;
    lemma_tiny();
    lemma_associate(total(s), k, b.dx);
    lemma_commute(total(s), k);
    lemma_associate(k, total(s), b.dx);
    assert(total(s) * m.dx == k * f);
    let (x, y) = (centres(b.xmin, b.dx, b.hist.len()), centres(m.xmin, m.dx, b.hist.len()));
    assert forall|i: int| 0 <= i < x.len() implies y[i] == #[trigger] moved(x, k, c)[i] by {
        let z = (i as usize) as real + 1real / 2real;
        lemma_associate(z, k, b.dx);
        lemma_commute(z, k);
        lemma_associate(k, z, b.dx);
        lemma_distribute(b.xmin, z * b.dx, k);
    }
    assert(y =~= moved(x, k, c));
    if !negligible(f) {
        let pdf = Seq::new(s.len(), |i: int| s[i].over(f));
        let (p, q) = (
            Seq::new(s.len(), |i: int| s[i].over(k * f)),
            Seq::new(pdf.len(), |i: int| pdf[i] / k),
        );
        assert forall|i: int| 0 <= i < s.len() implies p[i] == #[trigger] q[i] by {
            lemma_factor_below(s[i], f, k);
        }
        assert(p =~= q);
    }
}

/// The density shifts and scales with the data: the estimate of `k data + c` with the bandwidth
/// `k sigma` has the grid `k x + c` and the density divided by `k`, for the same poles, since the
/// bandwidths counted in bins are the same. Widths and integrals that count as zero are left out.
pub proof fn law_density_shifts_and_scales(
    data: Seq<real>,
    bins: usize,
    sigma: real,
    pi: real,
    poles: Seq<(real, real)>,
    threads: usize,
    others: usize,
    k: real,
    c: real,
)
    requires
        threads >= 1,
        others >= 1,
        k > 0real,
        request_error(data, bins, sigma) is None,
        ({
            let dx = bin_width(lowest(data), highest(data), bins);
            &&& !negligible(highest(data) - lowest(data))
            &&& !negligible(k * (highest(data) - lowest(data)))
            &&& !negligible(dx)
            &&& !negligible(k * dx)
        }),
    ensures
        match (
            prepared(data, bins, sigma, threads),
            prepared(moved(data, k, c), bins, k * sigma, others),
        ) {
            (Ok(Stage::Binned(b)), Ok(Stage::Binned(m))) => {
                let f = total(smoothed(b.hist, b.sigma, pi, poles)) * b.dx;
                &&& m.sigma == b.sigma
                &&& !negligible(f) && !negligible(k * f) ==> (match finished(b, pi, poles) {
                    Ok((x, pdf)) => finished(m, pi, poles) == Ok::<
                        (Seq<real>, Seq<real>),
                        KdeError<real>,
                    >((moved(x, k, c), Seq::new(pdf.len(), |i: int| pdf[i] / k))),
                    Err(_) => false,
                })
            },
            _ => false,
        },
{
    law_preparation_moves_with_data(data, bins, sigma, threads, others, k, c);
    match prepared(data, bins, sigma, threads) {
        Ok(Stage::Binned(b)) => {
            let f = total(smoothed(b.hist, b.sigma, pi, poles)) * b.dx;
            if !negligible(f) && !negligible(k * f) {
                law_estimate_moves_with_data(b, pi, poles, k, c);
            }
        },
        _ => {},
    }
}

} // verus!
