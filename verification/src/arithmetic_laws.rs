//! What is computed, operation by operation, whatever the arithmetic: with rounding, and with numbers
//! that are infinite or undefined.
use vstd::prelude::*;

use crate::binning::binned;
use crate::binning_2d::{
    binned_2d, frame, histogram_2d, lemma_cell_bound, lemma_cell_index, lemma_histogram_2d_len,
    Frame,
};
use crate::deriche::{
    anticausal, anticausal_step, are_poles, causal, causal_step, feed, feed_ahead, is_pole, lambda,
    smoothed, two_pass,
};
use crate::error::KdeError;
use crate::kde::{
    centres, finished, highest, is_estimate_on, lowest, normalized, prepared, request_error, Stage,
};
use crate::kde_2d::{
    column, finished_2d, is_estimate_2d_for, normalized_2d, prepared_2d, smoothed_frame,
    smoothed_rows, BinnedFrame,
};
use crate::matrix::{
    average, axis_eigenvalues, bandwidth, covariance, deviation_products, eigenvalues, eigenvectors,
    Matrix2,
};

use crate::scalar::{negligible, Arith};
use crate::second_order::{
    are_exponentials, backward, filtered, forward, second_order_smoothed, SecondOrder,
};

verus! {

/// A histogram without bins is empty; without data, or with bins whose width counts as zero, it is
/// zero.
pub proof fn law_blank_histogram<T: Arith>(
    data: Seq<T>,
    xmin: T,
    xmax: T,
    bins: usize,
    threads: usize,
)
    ensures
        binned(data, xmin, xmax, bins, threads).len() == bins,
        data.len() == 0 || negligible(xmax.minus(xmin).over(T::whole(bins))) ==> forall|i: int|
            0 <= i < bins ==> #[trigger] binned(data, xmin, xmax, bins, threads)[i] == T::whole(0),
{
}

/// A histogram of cells without rows or columns is empty; without points, or with cells whose widths
/// count as zero, it is zero.
pub proof fn law_blank_cells<T: Arith>(
    x: Seq<T>,
    y: Seq<T>,
    xmin: T,
    xmax: T,
    ymin: T,
    ymax: T,
    xbins: usize,
    ybins: usize,
    threads: usize,
)
    ensures
        ({
            let h = binned_2d(
                x,
                y,
                frame(xmin, xmax, ymin, ymax, xbins, ybins),
                xbins,
                ybins,
                threads,
            );
            let narrow = negligible(xmax.minus(xmin).over(T::whole(xbins))) || negligible(
                ymax.minus(ymin).over(T::whole(ybins)),
            );
            &&& xbins == 0 || ybins == 0 ==> h.len() == 0
            &&& xbins > 0 && ybins > 0 ==> h.len() == xbins && forall|i: int|
                0 <= i < xbins ==> #[trigger] h[i].len() == ybins
            &&& xbins > 0 && ybins > 0 && (x.len() == 0 || y.len() == 0 || narrow) ==> forall|
                i: int,
                j: int,
            |
                0 <= i < xbins && 0 <= j < ybins ==> #[trigger] h[i][j] == T::whole(0)
        }),
{
}

/// What a point in the frame adds to the cells around it: its weights are products of how far it lies
/// from the far sides of the cell, divided by their sum. In the last row and column it counts for
/// nothing.
pub proof fn law_cells_of_one_more<T: Arith>(
    x: Seq<T>,
    y: Seq<T>,
    v: T,
    w: T,
    f: Frame<T>,
    xbins: int,
    ybins: int,
    i: int,
    j: int,
)
    requires
        x.len() == y.len(),
        0 <= i < xbins,
        0 <= j < ybins,
        f.xmin.at_most(v) && v.below(f.xmax) && f.ymin.at_most(w) && w.below(f.ymax),
    ensures
        ({
            let h = histogram_2d(x, y, f, xbins, ybins)[i * ybins + j];
            let g = histogram_2d(x.push(v), y.push(w), f, xbins, ybins)[i * ybins + j];
            let across = v.minus(f.xmin).over(f.dx);
            let up = w.minus(f.ymin).over(f.dy);
            let (k, l) = (across.floor_index(), up.floor_index());
            let (p, q) = (across.minus(T::whole(k)), up.minus(T::whole(l)));
            let (left, down) = (T::whole(1).minus(p), T::whole(1).minus(q));
            let area = q.times(left).plus(q.times(p)).plus(down.times(left)).plus(down.times(p));
            let counts = k + 1 < xbins && l + 1 < ybins;
            &&& counts && i == k && j == l ==> g == h.plus(down.times(left).over(area))
            &&& counts && i == k + 1 && j == l ==> g == h.plus(down.times(p).over(area))
            &&& counts && i == k && j == l + 1 ==> g == h.plus(q.times(left).over(area))
            &&& counts && i == k + 1 && j == l + 1 ==> g == h.plus(q.times(p).over(area))
            &&& !counts || !(k <= i <= k + 1 && l <= j <= l + 1) ==> g == h
        }),
{
    assert(x.push(v).drop_last() =~= x);
    assert(y.push(w).drop_last() =~= y);
    lemma_cell_bound(i, j, xbins, ybins);
    lemma_cell_index(i, j, ybins);
    lemma_histogram_2d_len(x, y, f, xbins, ybins);
}

/// The entries of a covariance matrix: the sums of products of deviations over the number of points,
/// less one for a sample.
pub proof fn law_covariance_entries<T: Arith>(x: Seq<T>, y: Seq<T>)
    ensures
        ({
            let n = T::whole(x.len() as usize);
            let m = n.minus(T::whole(1));
            let (mx, my) = (average(x), average(y));
            let (p, s) = (covariance(x, y, true), covariance(x, y, false));
            &&& p.xx == deviation_products(x, x, mx, mx).over(n)
            &&& p.xy == deviation_products(x, y, mx, my).over(n) && p.yx == p.xy
            &&& p.yy == deviation_products(y, y, my, my).over(n)
            &&& s.xx == deviation_products(x, x, mx, mx).over(m)
            &&& s.xy == deviation_products(x, y, mx, my).over(m) && s.yx == s.xy
            &&& s.yy == deviation_products(y, y, my, my).over(m)
        }),
{
}

/// The entries of a bandwidth matrix: those of the covariance matrix of a sample, times the square of
/// the factor.
pub proof fn law_bandwidth_entries<T: Arith>(x: Seq<T>, y: Seq<T>, f: T)
    ensures
        ({
            let (h, s) = (bandwidth(x, y, f), covariance(x, y, false));
            &&& h.xx == s.xx.times(f.times(f))
            &&& h.xy == s.xy.times(f.times(f))
            &&& h.yx == s.yx.times(f.times(f))
            &&& h.yy == s.yy.times(f.times(f))
        }),
{
}

/// The eigenvalues: half of the trace less and plus the root of its square less four determinants.
/// The eigenvectors: `(-b / (a - l), 1)`, divided by its length.
pub proof fn law_eigenvalue_formulas<T: Arith>(m: Matrix2<T>)
    ensures
        ({
            let trace = m.xx.plus(m.yy);
            let det = m.xx.times(m.yy).minus(m.xy.times(m.yx));
            let root = trace.times(trace).minus(T::whole(4).times(det)).root();
            let (l, u) = (
                T::ratio(1, 2).times(trace.minus(root)),
                T::ratio(1, 2).times(trace.plus(root)),
            );
            let (d, p) = (eigenvalues(m), eigenvectors(m));
            let diagonal = m.xy.at_most(T::whole(0)) && T::whole(0).at_most(m.xy);
            let (s, t) = (
                m.xy.negated().over(m.xx.minus(l)),
                m.xy.negated().over(m.xx.minus(u)),
            );
            let (j, k) = (
                s.times(s).plus(T::whole(1)).root(),
                t.times(t).plus(T::whole(1)).root(),
            );
            &&& d.xx == l && d.yy == u && d.xy == T::whole(0) && d.yx == T::whole(0)
            &&& axis_eigenvalues(m) == if m.yy.below(m.xx) {
                (u, l)
            } else {
                (l, u)
            }
            &&& !diagonal ==> p.xx == s.over(j) && p.yx == T::whole(1).over(j)
            &&& !diagonal ==> p.xy == t.over(k) && p.yy == T::whole(1).over(k)
            &&& diagonal && m.xx.at_most(m.yy) ==> p.xx == T::whole(1) && p.xy == T::whole(0)
                && p.yx == T::whole(0) && p.yy == T::whole(1)
            &&& diagonal && !m.xx.at_most(m.yy) ==> p.xx == T::whole(0) && p.xy == T::whole(1)
                && p.yx == T::whole(1) && p.yy == T::whole(0)
        }),
{
}

/// How far an estimate of accepted data comes before it is smoothed.
pub proof fn law_preparation_steps<T: Arith>(data: Seq<T>, bins: usize, sigma: T, threads: usize)
    requires
        request_error(data, bins, sigma) is None,
    ensures
        ({
            let (lo, hi) = (lowest(data), highest(data));
            let range = hi.minus(lo);
            let dx = range.over(T::whole(bins));
            let hist = binned(data, lo, hi, bins, threads);
            let blank = forall|i: int| 0 <= i < hist.len() ==> negligible(#[trigger] hist[i]);
            match prepared(data, bins, sigma, threads) {
                Ok(Stage::Binned(b)) => {
                    &&& !negligible(range) && !hi.below(lo) && !negligible(dx) && !blank
                    &&& b.xmin == lo
                    &&& b.dx == dx
                    &&& b.sigma == sigma.times(T::whole(bins).over(range))
                    &&& b.hist == hist
                },
                Ok(Stage::Finished((x, pdf))) => {
                    let one_place = negligible(range);
                    let w = range.plus(T::ratio(1, 1_000_000_000)).over(T::whole(bins));
                    &&& one_place || (!hi.below(lo) && !negligible(dx) && blank)
                    &&& x == centres(
                        lo,
                        if one_place {
                            w
                        } else {
                            dx
                        },
                        bins as nat,
                    )
                    &&& pdf.len() == bins
                    &&& forall|i: int|
                        0 <= i < bins ==> #[trigger] pdf[i] == if one_place && i == bins / 2 {
                            T::whole(1).over(w)
                        } else {
                            T::whole(0)
                        }
                },
                Err(KdeError::InvertedRange { axis, max, min }) => !negligible(range) && hi.below(
                    lo,
                ) && axis is X && max == hi && min == lo,
                Err(KdeError::BinTooNarrow) => !negligible(range) && !hi.below(lo) && negligible(
                    dx,
                ),
                Err(_) => false,
            }
        }),
{
}

/// How an estimate goes on from what comes before the smoothing: what is refused or done is returned,
/// and a histogram is smoothed, with the poles for its deviation, and normalized.
pub proof fn law_estimate_steps<T: Arith, E: Fn(T) -> T, C: Fn(T) -> T, S: Fn(T) -> T>(
    r: Result<(Seq<T>, Seq<T>), KdeError<T>>,
    data: Seq<T>,
    bins: usize,
    sigma: T,
    pi: T,
    exp: E,
    cos: C,
    sin: S,
    threads: usize,
)
    requires
        is_estimate_on(r, data, bins, sigma, pi, exp, cos, sin, threads),
    ensures
        match prepared(data, bins, sigma, threads) {
            Err(e) => r == Err::<(Seq<T>, Seq<T>), KdeError<T>>(e),
            Ok(Stage::Finished((x, pdf))) => r == Ok::<(Seq<T>, Seq<T>), KdeError<T>>((x, pdf)),
            Ok(Stage::Binned(b)) => exists|poles: Seq<(T, T)>| #[trigger]
                are_poles(poles, b.sigma, exp, cos, sin) && r == normalized(
                    centres(b.xmin, b.dx, b.hist.len()),
                    smoothed(b.hist, b.sigma, pi, poles),
                    b.dx,
                ),
        },
{
    match prepared(data, bins, sigma, threads) {
        Ok(Stage::Binned(b)) => {
            let poles = choose|poles: Seq<(T, T)>| #[trigger]
                are_poles(poles, b.sigma, exp, cos, sin) && r == finished(b, pi, poles);
            assert(are_poles(poles, b.sigma, exp, cos, sin));
        },
        _ => {},
    }
}

/// The four poles of the filter: the exponentials of the rates `1.783 +- 0.6318 i` and
/// `1.723 +- 1.997 i` over the deviation, with the opposite sign.
pub proof fn law_rates<T: Arith, E: Fn(T) -> T, C: Fn(T) -> T, S: Fn(T) -> T>(
    p: Seq<(T, T)>,
    sigma: T,
    exp: E,
    cos: C,
    sin: S,
)
    requires
        are_poles(p, sigma, exp, cos, sin),
    ensures
        p.len() == 4,
        ({
            let (a, b) = (T::ratio(178300, 100000), T::ratio(63180, 100000));
            let (c, d) = (T::ratio(172300, 100000), T::ratio(199700, 100000));
            &&& is_pole(p[0], (a, b), sigma, exp, cos, sin)
            &&& is_pole(p[1], (a, b.negated()), sigma, exp, cos, sin)
            &&& is_pole(p[2], (c, d), sigma, exp, cos, sin)
            &&& is_pole(p[3], (c, d.negated()), sigma, exp, cos, sin)
        }),
{
    assert(is_pole(p[0], lambda(0), sigma, exp, cos, sin));
    assert(is_pole(p[1], lambda(1), sigma, exp, cos, sin));
    assert(is_pole(p[2], lambda(2), sigma, exp, cos, sin));
    assert(is_pole(p[3], lambda(3), sigma, exp, cos, sin));
}

/// The passes of the filter, step by step: each adds the taps in order where there are samples, and
/// takes off its own neighbouring entries in order where there are some.
pub proof fn law_pass_steps<T: Arith>(
    x: Seq<T>,
    bp: Seq<T>,
    bm: Seq<T>,
    a: Seq<T>,
    i: int,
    n: nat,
)
    requires
        0 <= i < x.len(),
    ensures
        two_pass(x, bp, bm, a)[i] == causal_step(x, bp, a, i, a.len()).plus(
            anticausal_step(x, bm, a, i, a.len()),
        ),
        feed(x, bp, i, 0) == T::whole(0),
        feed(x, bp, i, n + 1) == if n <= i {
            feed(x, bp, i, n).plus(bp[n as int].times(x[i - n]))
        } else {
            feed(x, bp, i, n)
        },
        causal_step(x, bp, a, i, 0) == feed(x, bp, i, bp.len()),
        causal_step(x, bp, a, i, n + 1) == if n < i {
            causal_step(x, bp, a, i, n).minus(
                a[n as int].times(causal_step(x, bp, a, i - n - 1, a.len())),
            )
        } else {
            causal_step(x, bp, a, i, n)
        },
        feed_ahead(x, bm, i, 1) == T::whole(0),
        n >= 1 ==> feed_ahead(x, bm, i, n + 1) == if i + n < x.len() {
            feed_ahead(x, bm, i, n).plus(bm[n as int].times(x[i + n]))
        } else {
            feed_ahead(x, bm, i, n)
        },
        anticausal_step(x, bm, a, i, 0) == feed_ahead(x, bm, i, bm.len()),
        anticausal_step(x, bm, a, i, n + 1) == if i + n + 1 < x.len() {
            anticausal_step(x, bm, a, i, n).minus(
                a[n as int].times(anticausal_step(x, bm, a, i + n + 1, a.len())),
            )
        } else {
            anticausal_step(x, bm, a, i, n)
        },
{
    if n < i {
        assert(causal(x, bp, a, i - (n + 1)) == causal_step(x, bp, a, i - n - 1, a.len()));
    }
    if i + n + 1 < x.len() {
        assert(anticausal(x, bm, a, i + (n + 1)) == anticausal_step(
            x,
            bm,
            a,
            i + n + 1,
            a.len(),
        ));
    }
}

/// The passes of the filter of the second order, step by step.
pub proof fn law_second_order_steps<T: Arith>(x: Seq<T>, c: SecondOrder<T>, i: int)
    requires
        0 <= i < x.len(),
    ensures
        filtered(x, c)[i] == forward(x, c, i).plus(backward(x, c, i)),
        forward(x, c, 0) == c.a1.times(x[0]),
        i == 1 ==> forward(x, c, i) == c.a1.times(x[i]).plus(c.a2.times(x[i - 1])).plus(
            c.b1.times(forward(x, c, i - 1)),
        ),
        i >= 2 ==> forward(x, c, i) == c.a1.times(x[i]).plus(c.a2.times(x[i - 1])).plus(
            c.b1.times(forward(x, c, i - 1)),
        ).plus(c.b2.times(forward(x, c, i - 2))),
        i == x.len() - 1 ==> backward(x, c, i) == T::whole(0),
        i == x.len() - 2 ==> backward(x, c, i) == c.a3.times(x[i + 1]),
        i < x.len() - 2 ==> backward(x, c, i) == c.a3.times(x[i + 1]).plus(
            c.a4.times(x[i + 2]),
        ).plus(c.b1.times(backward(x, c, i + 1))).plus(c.b2.times(backward(x, c, i + 2))),
{
}

/// How far an estimate of points comes before it is smoothed.
pub proof fn law_preparation_2d_steps<T: Arith>(
    x: Seq<T>,
    y: Seq<T>,
    bins: usize,
    f: T,
    threads: usize,
)
    ensures
        ({
            let (u, v) = axis_eigenvalues(bandwidth(x, y, f));
            let (sx, sy) = (u.root(), v.root());
            let (tx, ty) = (T::ratio(1, 2).times(sx), T::ratio(1, 2).times(sy));
            let (xmin, xmax) = (lowest(x).minus(tx), highest(x).plus(tx));
            let (ymin, ymax) = (lowest(y).minus(ty), highest(y).plus(ty));
            match prepared_2d(x, y, bins, f, threads) {
                Ok(b) => {
                    &&& !xmax.below(xmin) && !ymax.below(ymin)
                    &&& b.xmin == xmin && b.ymin == ymin
                    &&& b.dx == xmax.minus(xmin).over(T::whole(bins))
                    &&& b.dy == ymax.minus(ymin).over(T::whole(bins))
                    &&& b.sigma_x == sx.times(T::whole(bins).over(xmax.minus(xmin)))
                    &&& b.sigma_y == sy.times(T::whole(bins).over(ymax.minus(ymin)))
                    &&& b.hist == binned_2d(
                        x,
                        y,
                        frame(xmin, xmax, ymin, ymax, bins, bins),
                        bins,
                        bins,
                        threads,
                    )
                },
                Err(KdeError::InvertedRange { axis, max, min }) => {
                    ||| axis is X && xmax.below(xmin) && max == xmax && min == xmin
                    ||| axis is Y && !xmax.below(xmin) && ymax.below(ymin) && max == ymax && min
                        == ymin
                },
                Err(_) => false,
            }
        }),
{
}

/// How an estimate of points goes on: what is refused is returned, and the histogram is smoothed,
/// along the second axis and then along the first, with the exponentials for their deviations, and
/// normalized.
pub proof fn law_estimate_2d_steps<T: Arith, E: Fn(T) -> T>(
    r: Result<(Seq<T>, Seq<T>, Seq<Seq<T>>), KdeError<T>>,
    x: Seq<T>,
    y: Seq<T>,
    bins: usize,
    f: T,
    exp: E,
    threads: usize,
)
    requires
        is_estimate_2d_for(r, x, y, bins, f, exp, threads),
    ensures
        match prepared_2d(x, y, bins, f, threads) {
            Err(e) => r == Err::<(Seq<T>, Seq<T>, Seq<Seq<T>>), KdeError<T>>(e),
            Ok(b) => exists|ex: (T, T), ey: (T, T)|
                {
                    &&& are_exponentials(ex.0, ex.1, b.sigma_x, exp)
                    &&& are_exponentials(ey.0, ey.1, b.sigma_y, exp)
                    &&& r == normalized_2d(
                        centres(b.xmin, b.dx, b.hist.len()),
                        centres(b.ymin, b.dy, b.hist.len()),
                        #[trigger] smoothed_frame(b, ex, ey),
                        b.dx,
                        b.dy,
                    )
                },
        },
{
    match prepared_2d(x, y, bins, f, threads) {
        Ok(b) => {
            let (ex, ey) = choose|ex: (T, T), ey: (T, T)|
                are_exponentials(ex.0, ex.1, b.sigma_x, exp) && are_exponentials(
                    ey.0,
                    ey.1,
                    b.sigma_y,
                    exp,
                ) && r == #[trigger] finished_2d(b, ex, ey);
            assert(smoothed_frame(b, ex, ey) == smoothed_frame(b, ex, ey));
        },
        Err(_) => {},
    }
}

/// The cells are smoothed along the second axis, row by row, and what comes of it along the first,
/// column by column.
pub proof fn law_smoothed_cell<T: Arith>(
    b: BinnedFrame<T>,
    ex: (T, T),
    ey: (T, T),
    i: int,
    j: int,
)
    requires
        0 <= i < b.hist.len(),
        0 <= j < b.hist.len(),
    ensures
        smoothed_frame(b, ex, ey)[i][j] == second_order_smoothed(
            Seq::new(
                b.hist.len(),
                |k: int| second_order_smoothed(b.hist[k], b.sigma_y, ey.0, ey.1)[j],
            ),
            b.sigma_x,
            ex.0,
            ex.1,
        )[i],
        negligible(b.sigma_x) && negligible(b.sigma_y) ==> smoothed_frame(b, ex, ey)[i][j]
            == b.hist[i][j],
{
    let rows = smoothed_rows(b.hist, b.sigma_y, ey);
    assert(column(rows, j) =~= Seq::new(
        b.hist.len(),
        |k: int| second_order_smoothed(b.hist[k], b.sigma_y, ey.0, ey.1)[j],
    ));
}

} // verus!
