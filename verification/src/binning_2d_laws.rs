//! What linear binning of two-dimensional data keeps, in exact arithmetic.
use vstd::prelude::*;

use crate::binning::{bin_position, zeros};
use crate::binning_2d::{
    binned_2d, cell_total, closes, corner_weights, deposited_2d, histogram_2d, inside,
    lemma_cell_bound, lemma_cell_index, lemma_cell_split, lemma_histogram_2d_len, zero_rows, Frame,
};
use crate::binning_laws::lemma_chunks_cover;
use crate::parallel::{chunk, chunk_count};
use crate::reals::{
    lemma_distribute, lemma_div_order, lemma_product_sign, lemma_total_update, lemma_total_zeros,
    lemma_units,
};
use crate::scalar::{negligible, total, Arith};

verus! {

/// The histogram of two groups of points is the sum of their histograms.
pub proof fn law_histogram_2d_adds(
    x: Seq<real>,
    y: Seq<real>,
    v: Seq<real>,
    w: Seq<real>,
    f: Frame<real>,
    xbins: int,
    ybins: int,
)
    requires
        x.len() == y.len(),
        v.len() == w.len(),
        0 <= xbins * ybins,
    ensures
        histogram_2d(x + v, y + w, f, xbins, ybins) == Seq::new(
            (xbins * ybins) as nat,
            |n: int|
                histogram_2d(x, y, f, xbins, ybins)[n] + histogram_2d(v, w, f, xbins, ybins)[n],
        ),
    decreases v.len(),
{
    lemma_histogram_2d_len(x, y, f, xbins, ybins);
    lemma_histogram_2d_len(v, w, f, xbins, ybins);
    lemma_histogram_2d_len(x + v, y + w, f, xbins, ybins);
    let h = histogram_2d(x, y, f, xbins, ybins);
    let goal = Seq::new(
        (xbins * ybins) as nat,
        |n: int| h[n] + histogram_2d(v, w, f, xbins, ybins)[n],
    );
    if v.len() == 0 {
        assert(x + v =~= x);
        assert(y + w =~= y);
        assert(h =~= goal);
    } else {
        let (c, d) = (v.drop_last(), w.drop_last());
        law_histogram_2d_adds(x, y, c, d, f, xbins, ybins);
        lemma_histogram_2d_len(c, d, f, xbins, ybins);
        lemma_histogram_2d_len(x + c, y + d, f, xbins, ybins);
        assert((x + v).drop_last() =~= x + c);
        assert((y + w).drop_last() =~= y + d);
        assert(histogram_2d(x + v, y + w, f, xbins, ybins) =~= goal);
    }
}

/// The sum over the first `n` chunks is the histogram of the points in them.
proof fn lemma_cell_total(
    x: Seq<real>,
    y: Seq<real>,
    f: Frame<real>,
    xbins: int,
    ybins: int,
    size: nat,
    n: nat,
    cell: int,
)
    requires
        x.len() == y.len(),
        size >= 1,
        n <= chunk_count(x.len(), size),
        0 <= cell < xbins * ybins,
    ensures
        ({
            let upto = if n * size <= x.len() {
                (n * size) as int
            } else {
                x.len() as int
            };
            cell_total(x, y, f, xbins, ybins, size, n, cell) == histogram_2d(
                x.take(upto),
                y.take(upto),
                f,
                xbins,
                ybins,
            )[cell]
        }),
    decreases n,
{
    let len = x.len();
    if n == 0 {
        assert(n * size == 0) by (nonlinear_arith)
            requires
                n == 0,
        ;
        assert(x.take(0) =~= Seq::<real>::empty());
    } else {
        let m = (n - 1) as nat;
        lemma_cell_total(x, y, f, xbins, ybins, size, m, cell);
        assert(m * size <= len && n * size == m * size + size) by (nonlinear_arith)
            requires
                size >= 1,
                n == m + 1,
                n <= chunk_count(len, size),
        ;
        let upto = if n * size <= len {
            (n * size) as int
        } else {
            len as int
        };
        let at = (m * size) as int;
        let (c, d) = (chunk(x, size, m as int), chunk(y, size, m as int));
        assert(x.take(upto) =~= x.take(at) + c);
        assert(y.take(upto) =~= y.take(at) + d);
        law_histogram_2d_adds(x.take(at), y.take(at), c, d, f, xbins, ybins);
    }
}

/// The cells of a histogram, arranged in rows.
pub open spec fn arranged(hist: Seq<real>, xbins: nat, ybins: nat) -> Seq<Seq<real>> {
    Seq::new(xbins, |i: int| Seq::new(ybins, |j: int| hist[i * ybins + j]))
}

/// In exact arithmetic the number of threads does not matter: the result is the histogram of
/// all points, filled point by point.
pub proof fn law_threads_do_not_matter_2d(
    x: Seq<real>,
    y: Seq<real>,
    f: Frame<real>,
    xbins: usize,
    ybins: usize,
    threads: usize,
)
    requires
        threads >= 1,
        x.len() == y.len(),
        xbins >= 1,
        ybins >= 1,
    ensures
        binned_2d(x, y, f, xbins, ybins, threads) == if negligible(f.dx) || negligible(f.dy) {
            zero_rows(xbins as nat, ybins as nat)
        } else {
            arranged(
                histogram_2d(x, y, f, xbins as int, ybins as int),
                xbins as nat,
                ybins as nat,
            )
        },
{
    let hist = histogram_2d(x, y, f, xbins as int, ybins as int);
    let goal = arranged(hist, xbins as nat, ybins as nat);
    let result = binned_2d(x, y, f, xbins, ybins, threads);
    if negligible(f.dx) || negligible(f.dy) {
    } else if x.len() == 0 {
        assert forall|i: int| 0 <= i < xbins implies #[trigger] result[i] == goal[i] by {
            assert forall|j: int| 0 <= j < ybins implies result[i][j] == #[trigger] goal[i][j] by {
                lemma_cell_bound(i, j, xbins as int, ybins as int);
            }
            assert(result[i] =~= goal[i]);
        }
        assert(result =~= goal);
    } else {
        let size = chunk_count(x.len(), threads as nat);
        assert(size >= 1) by (nonlinear_arith)
            requires
                x.len() >= 1,
                threads >= 1,
                size == chunk_count(x.len(), threads as nat),
        ;
        let n = chunk_count(x.len(), size);
        lemma_chunks_cover(x.len(), size);
        assert(x.take(x.len() as int) =~= x);
        assert(y.take(y.len() as int) =~= y);
        assert forall|i: int| 0 <= i < xbins implies #[trigger] result[i] == goal[i] by {
            assert forall|j: int| 0 <= j < ybins implies result[i][j] == #[trigger] goal[i][j] by {
                lemma_cell_bound(i, j, xbins as int, ybins as int);
                lemma_cell_total(
                    x,
                    y,
                    f,
                    xbins as int,
                    ybins as int,
                    size,
                    n,
                    i * ybins + j,
                );
            }
            assert(result[i] =~= goal[i]);
        }
        assert(result =~= goal);
    }
}

/// Whether the point counts: it lies inside the frame and before the last row and column of
/// cells, or it closes the frame.
pub open spec fn counts(f: Frame<real>, x: real, y: real, xbins: int, ybins: int) -> bool {
    if inside(f, x, y) {
        bin_position(x, f.xmin, f.dx).floor_index() + 1 < xbins && bin_position(
            y,
            f.ymin,
            f.dy,
        ).floor_index() + 1 < ybins
    } else {
        closes(f, x, y)
    }
}

/// How many of the points count.
pub open spec fn counted(x: Seq<real>, y: Seq<real>, f: Frame<real>, xbins: int, ybins: int) -> nat
    decreases x.len(),
{
    if x.len() == 0 {
        0
    } else {
        counted(x.drop_last(), y.drop_last(), f, xbins, ybins) + if counts(
            f,
            x.last(),
            y.last(),
            xbins,
            ybins,
        ) {
            1nat
        } else {
            0nat
        }
    }
}

/// The four weights of a point sum to one, and none of them is negative.
pub proof fn law_corner_weights_sum_to_one(u: real, v: real)
    ensures
        ({
            let w = corner_weights(u, v);
            w.0 + w.1 + w.2 + w.3 == 1real
        }),
        0real <= u <= 1real && 0real <= v <= 1real ==> ({
            let w = corner_weights(u, v);
            w.0 >= 0real && w.1 >= 0real && w.2 >= 0real && w.3 >= 0real
        }),
{
    let left = 1real - u;
    let down = 1real - v;
    lemma_distribute(left, u, v);
    lemma_distribute(left, u, down);
    lemma_units(v);
    lemma_units(down);
    let area = v * left + v * u + down * left + down * u;
    assert(area == 1real);
    lemma_over_one(v * left);
    lemma_over_one(v * u);
    lemma_over_one(down * left);
    lemma_over_one(down * u);
    lemma_product_sign(v, left);
    lemma_product_sign(v, u);
    lemma_product_sign(down, left);
    lemma_product_sign(down, u);
}

/// `a / 1 == a`.
proof fn lemma_over_one(a: real)
    by (nonlinear_arith)
    ensures
        a / 1real == a,
{
}

/// A point adds one to the sum of the histogram if it counts, and nothing if it does not.
proof fn lemma_deposit_2d(
    hist: Seq<real>,
    f: Frame<real>,
    x: real,
    y: real,
    xbins: int,
    ybins: int,
)
    requires
        xbins >= 1,
        ybins >= 1,
        hist.len() == xbins * ybins,
    ensures
        total(deposited_2d(hist, f, x, y, xbins, ybins)) == total(hist) + if counts(
            f,
            x,
            y,
            xbins,
            ybins,
        ) {
            1real
        } else {
            0real
        },
{
    let after = deposited_2d(hist, f, x, y, xbins, ybins);
    if inside(f, x, y) {
        let across = bin_position(x, f.xmin, f.dx);
        let up = bin_position(y, f.ymin, f.dy);
        let kh = across.floor_index() as int;
        let kv = up.floor_index() as int;
        if kh + 1 < xbins && kv + 1 < ybins {
            let (u, v) = (across - kh as real, up - kv as real);
            let w = corner_weights(u, v);
            law_corner_weights_sum_to_one(u, v);
            let n0 = kh * ybins + kv;
            let n1 = (kh + 1) * ybins + kv;
            let n2 = kh * ybins + (kv + 1);
            let n3 = (kh + 1) * ybins + (kv + 1);
            lemma_cell_index(kh, kv, ybins);
            lemma_cell_index(kh + 1, kv, ybins);
            lemma_cell_index(kh, kv + 1, ybins);
            lemma_cell_index(kh + 1, kv + 1, ybins);
            lemma_cell_bound(kh, kv, xbins, ybins);
            lemma_cell_bound(kh + 1, kv, xbins, ybins);
            lemma_cell_bound(kh, kv + 1, xbins, ybins);
            lemma_cell_bound(kh + 1, kv + 1, xbins, ybins);
            let h0 = hist.update(n0, hist[n0] + w.0);
            let h1 = h0.update(n1, h0[n1] + w.1);
            let h2 = h1.update(n2, h1[n2] + w.2);
            let h3 = h2.update(n3, h2[n3] + w.3);
            lemma_total_update(hist, n0, w.0);
            lemma_total_update(h0, n1, w.1);
            lemma_total_update(h1, n2, w.2);
            lemma_total_update(h2, n3, w.3);
            assert forall|n: int| 0 <= n < hist.len() implies #[trigger] after[n] == h3[n] by {
                lemma_cell_split(n, xbins, ybins);
            }
            assert(after =~= h3);
        } else {
            assert(after =~= hist);
        }
    } else if closes(f, x, y) {
        let n = (xbins - 1) * ybins + (ybins - 1);
        lemma_cell_index(xbins - 1, ybins - 1, ybins);
        lemma_cell_bound(xbins - 1, ybins - 1, xbins, ybins);
        lemma_total_update(hist, n, 1real);
        let h = hist.update(n, hist[n] + 1real);
        assert forall|k: int| 0 <= k < hist.len() implies #[trigger] after[k] == h[k] by {
            lemma_cell_split(k, xbins, ybins);
        }
        assert(after =~= h);
    } else {
        assert(after =~= hist);
    }
}

/// The weights of the cells sum to the number of points that count.
pub proof fn law_binning_2d_counts_points(
    x: Seq<real>,
    y: Seq<real>,
    f: Frame<real>,
    xbins: int,
    ybins: int,
)
    requires
        x.len() == y.len(),
        xbins >= 1,
        ybins >= 1,
    ensures
        total(histogram_2d(x, y, f, xbins, ybins)) == counted(x, y, f, xbins, ybins) as real,
    decreases x.len(),
{
    assert(xbins * ybins >= 1) by (nonlinear_arith)
        requires
            xbins >= 1,
            ybins >= 1,
    ;
    if x.len() == 0 {
        let n = (xbins * ybins) as nat;
        assert(zeros::<real>(n) =~= Seq::new(n, |i: int| 0real));
        lemma_total_zeros(n);
    } else {
        let (r, s) = (x.drop_last(), y.drop_last());
        law_binning_2d_counts_points(r, s, f, xbins, ybins);
        lemma_histogram_2d_len(r, s, f, xbins, ybins);
        lemma_deposit_2d(
            histogram_2d(r, s, f, xbins, ybins),
            f,
            x.last(),
            y.last(),
            xbins,
            ybins,
        );
    }
}

/// How far a point has moved through its cell lies between zero and one.
proof fn lemma_fraction(x: real, xmin: real, width: real, bins: int)
    requires
        width > 0real,
        xmin <= x,
        bins <= usize::MAX,
    ensures
        ({
            let pos = bin_position(x, xmin, width);
            let k = pos.floor_index();
            k + 1 < bins ==> 0real <= pos - (k as real) < 1real
        }),
{
    lemma_div_order(x - xmin, width, 0real);
}

/// No cell of the histogram is negative.
pub proof fn law_histogram_2d_is_not_negative(
    x: Seq<real>,
    y: Seq<real>,
    f: Frame<real>,
    xbins: int,
    ybins: int,
)
    requires
        x.len() == y.len(),
        1 <= xbins <= usize::MAX,
        1 <= ybins <= usize::MAX,
        f.dx > 0real,
        f.dy > 0real,
    ensures
        forall|n: int|
            0 <= n < xbins * ybins ==> #[trigger] histogram_2d(x, y, f, xbins, ybins)[n] >= 0real,
    decreases x.len(),
{
    lemma_cell_bound(0, 0, xbins, ybins);
    if x.len() > 0 {
        let (r, s) = (x.drop_last(), y.drop_last());
        law_histogram_2d_is_not_negative(r, s, f, xbins, ybins);
        lemma_histogram_2d_len(r, s, f, xbins, ybins);
        let (a, b) = (x.last(), y.last());
        let before = histogram_2d(r, s, f, xbins, ybins);
        let (across, up) = (bin_position(a, f.xmin, f.dx), bin_position(b, f.ymin, f.dy));
        if inside(f, a, b) {
            lemma_fraction(a, f.xmin, f.dx, xbins);
            lemma_fraction(b, f.ymin, f.dy, ybins);
            law_corner_weights_sum_to_one(
                across - (across.floor_index() as real),
                up - (up.floor_index() as real),
            );
        }
        assert forall|n: int| 0 <= n < xbins * ybins implies #[trigger] histogram_2d(
            x,
            y,
            f,
            xbins,
            ybins,
        )[n] >= 0real by {
            assert(before[n] >= 0real);
        }
    }
}

} // verus!
