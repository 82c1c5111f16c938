//! What linear binning in two dimensions is, in exact arithmetic: every point is shared between cells
//! by the product of two hat functions.
use vstd::prelude::*;

use crate::binning::bin_position;
use crate::binning_2d::{
    binned_2d, cell_share, corner_weights, deposited_2d, frame, histogram_2d, lemma_cell_bound,
    lemma_cell_index, lemma_histogram_2d_len,
};
use crate::binning_2d_laws::law_threads_do_not_matter_2d;
use crate::hat_laws::{hat, hat_at, law_negligible, lemma_hats, lemma_place, lemma_sum_ones};
use crate::reals::{
    lemma_associate, lemma_commute, lemma_distribute, lemma_div_mul, lemma_div_order, lemma_units,
};
use crate::scalar::Arith;
use crate::sums::{
    lemma_sum_product, lemma_sum_same, lemma_sum_swap, lemma_sum_times, lemma_sum_zero, pair_sum,
    sum_to,
};

verus! {

/// What the point `(x, y)` adds to the cell `(i, j)` of `xbins` by `ybins` cells: the product of the
/// hats of how far it lies from the cell along the two axes, if it lies in the frame and before the
/// last row and column of cells, and all of it to the last cell, if it closes the frame.
pub open spec fn bilinear_share(
    x: real,
    y: real,
    xmin: real,
    xmax: real,
    ymin: real,
    ymax: real,
    xbins: int,
    ybins: int,
    i: int,
    j: int,
) -> real {
    let p = (x - xmin) / ((xmax - xmin) / xbins as real);
    let q = (y - ymin) / ((ymax - ymin) / ybins as real);
    if xmin <= x < xmax && ymin <= y < ymax {
        if p < xbins as real - 1real && q < ybins as real - 1real {
            hat(p - i as real) * hat(q - j as real)
        } else {
            0real
        }
    } else if i == xbins - 1 && j == ybins - 1 && -1real / 1000000000real < x - xmax < 1real
        / 1000000000real && -1real / 1000000000real < y - ymax < 1real / 1000000000real {
        1real
    } else {
        0real
    }
}

/// The weights of the corners are products.
proof fn lemma_corners(u: real, v: real)
    ensures
        corner_weights(u, v) == (
            (1real - u) * (1real - v),
            u * (1real - v),
            (1real - u) * v,
            u * v,
        ),
{
    let (left, down) = (1real - u, 1real - v);
    lemma_distribute(left, u, v);
    lemma_distribute(left, u, down);
    lemma_units(v);
    lemma_units(down);
    lemma_commute(left, down);
    lemma_commute(u, down);
    lemma_commute(left, v);
    lemma_commute(u, v);
    lemma_over_one(down * left);
    lemma_over_one(down * u);
    lemma_over_one(v * left);
    lemma_over_one(v * u);
    assert(v * left + v * u + down * left + down * u == 1real);
}

/// `a / 1 == a`.
proof fn lemma_over_one(a: real)
    by (nonlinear_arith)
    ensures
        a / 1real == a,
{
}

/// A deposited point adds its shares.
proof fn lemma_cell_share(
    x: real,
    y: real,
    xmin: real,
    xmax: real,
    ymin: real,
    ymax: real,
    xbins: usize,
    ybins: usize,
    i: int,
    j: int,
)
    requires
        0 <= i < xbins,
        0 <= j < ybins,
    ensures
        bilinear_share(x, y, xmin, xmax, ymin, ymax, xbins as int, ybins as int, i, j) == (
        match cell_share(
            frame(xmin, xmax, ymin, ymax, xbins, ybins),
            x,
            y,
            xbins as int,
            ybins as int,
            i,
            j,
        ) {
            Some(w) => w,
            None => 0real,
        }),
{
    let f = frame(xmin, xmax, ymin, ymax, xbins, ybins);
    law_negligible(x - xmax);
    law_negligible(y - ymax);
    if xmin <= x < xmax && ymin <= y < ymax {
        lemma_place(x, xmin, xmax, xbins);
        lemma_place(y, ymin, ymax, ybins);
        let p = bin_position(x, xmin, f.dx);
        let q = bin_position(y, ymin, f.dy);
        let (k, l) = (p.floor(), q.floor());
        assert(p.floor_index() == k && q.floor_index() == l);
        let (u, v) = (p - k as real, q - l as real);
        lemma_corners(u, v);
        let (a, b) = (hat(p - i as real), hat(q - j as real));
        lemma_units(a);
        lemma_units(b);
        assert(i == k ==> a == 1real - u);
        assert(i == k + 1 ==> a == u);
        assert(i != k && i != k + 1 ==> a == 0real);
        assert(j == l ==> b == 1real - v);
        assert(j == l + 1 ==> b == v);
        assert(j != l && j != l + 1 ==> b == 0real);
    }
}

/// A histogram of cells is the sum of the shares of all points.
proof fn lemma_histogram_2d_shares(
    x: Seq<real>,
    y: Seq<real>,
    xmin: real,
    xmax: real,
    ymin: real,
    ymax: real,
    xbins: usize,
    ybins: usize,
    i: int,
    j: int,
)
    requires
        x.len() == y.len(),
        0 <= i < xbins,
        0 <= j < ybins,
    ensures
        histogram_2d(
            x,
            y,
            frame(xmin, xmax, ymin, ymax, xbins, ybins),
            xbins as int,
            ybins as int,
        )[i * ybins + j] == sum_to(
            x.len(),
            |n: int|
                bilinear_share(
                    x[n],
                    y[n],
                    xmin,
                    xmax,
                    ymin,
                    ymax,
                    xbins as int,
                    ybins as int,
                    i,
                    j,
                ),
        ),
    decreases x.len(),
{
    let f = frame(xmin, xmax, ymin, ymax, xbins, ybins);
    let (c, d) = (xbins as int, ybins as int);
    let cell = i * ybins + j;
    lemma_cell_index(i, j, d);
    lemma_cell_bound(i, j, c, d);
    let e = |n: int| bilinear_share(x[n], y[n], xmin, xmax, ymin, ymax, c, d, i, j);
    if x.len() > 0 {
        let (r, s) = (x.drop_last(), y.drop_last());
        let g = |n: int| bilinear_share(r[n], s[n], xmin, xmax, ymin, ymax, c, d, i, j);
        lemma_histogram_2d_shares(r, s, xmin, xmax, ymin, ymax, xbins, ybins, i, j);
        lemma_histogram_2d_len(r, s, f, c, d);
        lemma_cell_share(x.last(), y.last(), xmin, xmax, ymin, ymax, xbins, ybins, i, j);
        lemma_sum_same(r.len(), g, e);
        let before = histogram_2d(r, s, f, c, d);
        assert(histogram_2d(x, y, f, c, d) == deposited_2d(before, f, x.last(), y.last(), c, d));
        assert(x.last() == x[x.len() - 1] && y.last() == y[y.len() - 1]);
    }
}

/// Linear binning in two dimensions: on any number of threads, the row `i` and the column `j` hold
/// the sum of what the points add to the cell `(i, j)`, where the rows run along the first axis and
/// the columns along the second. Cells whose width counts as zero stay empty.
pub proof fn law_binning_2d_shares_by_hats(
    x: Seq<real>,
    y: Seq<real>,
    xmin: real,
    xmax: real,
    ymin: real,
    ymax: real,
    xbins: usize,
    ybins: usize,
    threads: usize,
)
    requires
        threads >= 1,
        x.len() == y.len(),
        xbins >= 1,
        ybins >= 1,
    ensures
        ({
            let h = binned_2d(
                x,
                y,
                frame(xmin, xmax, ymin, ymax, xbins, ybins),
                xbins,
                ybins,
                threads,
            );
            let dx = (xmax - xmin) / xbins as real;
            let dy = (ymax - ymin) / ybins as real;
            &&& h.len() == xbins
            &&& forall|i: int| 0 <= i < xbins ==> #[trigger] h[i].len() == ybins
            &&& forall|i: int, j: int|
                0 <= i < xbins && 0 <= j < ybins ==> #[trigger] h[i][j] == if -1real
                    / 1000000000real < dx < 1real / 1000000000real || -1real / 1000000000real < dy
                    < 1real / 1000000000real {
                    0real
                } else {
                    sum_to(
                        x.len(),
                        |n: int|
                            bilinear_share(
                                x[n],
                                y[n],
                                xmin,
                                xmax,
                                ymin,
                                ymax,
                                xbins as int,
                                ybins as int,
                                i,
                                j,
                            ),
                    )
                }
        }),
{
    let f = frame(xmin, xmax, ymin, ymax, xbins, ybins);
    law_threads_do_not_matter_2d(x, y, f, xbins, ybins, threads);
    law_negligible(f.dx);
    law_negligible(f.dy);
    let h = binned_2d(x, y, f, xbins, ybins, threads);
    assert forall|i: int, j: int| 0 <= i < xbins && 0 <= j < ybins implies #[trigger] h[i][j]
        == if -1real / 1000000000real < f.dx < 1real / 1000000000real || -1real / 1000000000real
        < f.dy < 1real / 1000000000real {
        0real
    } else {
        sum_to(
            x.len(),
            |n: int|
                bilinear_share(
                    x[n],
                    y[n],
                    xmin,
                    xmax,
                    ymin,
                    ymax,
                    xbins as int,
                    ybins as int,
                    i,
                    j,
                ),
        )
    } by {
        lemma_histogram_2d_shares(x, y, xmin, xmax, ymin, ymax, xbins, ybins, i, j);
    }
}

/// The sum of `c(i, j) h[i][j]` over all cells.
pub open spec fn weighted_cells(h: Seq<Seq<real>>, c: spec_fn(int, int) -> real) -> real {
    sum_to(h.len(), |i: int| sum_to(h[i].len(), |j: int| c(i, j) * h[i][j]))
}

/// The weighted sum over the cells is the sum over the points of what each adds to it.
proof fn lemma_weighted_cells(
    h: Seq<Seq<real>>,
    c: spec_fn(int, int) -> real,
    w: spec_fn(int, int, int) -> real,
    xbins: nat,
    ybins: nat,
    n: nat,
)
    requires
        h.len() == xbins,
        forall|i: int| 0 <= i < xbins ==> #[trigger] h[i].len() == ybins,
        forall|i: int, j: int|
            0 <= i < xbins && 0 <= j < ybins ==> #[trigger] h[i][j] == sum_to(
                n,
                |p: int| w(p, i, j),
            ),
    ensures
        weighted_cells(h, c) == sum_to(
            n,
            |p: int| pair_sum(xbins, ybins, |i: int, j: int| c(i, j) * w(p, i, j)),
        ),
{
    let rows = |i: int| sum_to(h[i].len(), |j: int| c(i, j) * h[i][j]);
    let inner = |i: int, p: int| sum_to(ybins, |j: int| c(i, j) * w(p, i, j));
    let swapped = |i: int| sum_to(n, |p: int| inner(i, p));
    assert forall|i: int| 0 <= i < xbins implies #[trigger] rows(i) == swapped(i) by {
        assert(h[i].len() == ybins);
        let term = |j: int, p: int| c(i, j) * w(p, i, j);
        let cell = |j: int| c(i, j) * h[i][j];
        let cells = |j: int| sum_to(n, |p: int| term(j, p));
        assert forall|j: int| 0 <= j < ybins implies #[trigger] cell(j) == cells(j) by {
            assert(h[i][j] == sum_to(n, |p: int| w(p, i, j)));
            lemma_sum_times(n, |p: int| w(p, i, j), c(i, j), |p: int| term(j, p));
        }
        lemma_sum_same(ybins, cell, cells);
        lemma_sum_swap(ybins, n, term);
        let left = |p: int| sum_to(ybins, |j: int| term(j, p));
        let right = |p: int| inner(i, p);
        assert forall|p: int| 0 <= p < n implies #[trigger] left(p) == right(p) by {
            lemma_sum_same(ybins, |j: int| term(j, p), |j: int| c(i, j) * w(p, i, j));
        }
        lemma_sum_same(n, left, right);
    }
    lemma_sum_same(xbins, rows, swapped);
    lemma_sum_swap(xbins, n, inner);
    let left = |p: int| sum_to(xbins, |i: int| inner(i, p));
    let right = |p: int| pair_sum(xbins, ybins, |i: int, j: int| c(i, j) * w(p, i, j));
    assert forall|p: int| 0 <= p < n implies #[trigger] left(p) == right(p) by {
        let g = |i: int, j: int| c(i, j) * w(p, i, j);
        let (u, v) = (|i: int| inner(i, p), |i: int| sum_to(ybins, |j: int| g(i, j)));
        assert forall|i: int| 0 <= i < xbins implies #[trigger] u(i) == v(i) by {
            lemma_sum_same(ybins, |j: int| c(i, j) * w(p, i, j), |j: int| g(i, j));
        }
        lemma_sum_same(xbins, u, v);
        assert(right(p) == pair_sum(xbins, ybins, g));
    }
    lemma_sum_same(n, left, right);
}

/// Linear binning in two dimensions keeps weight and the first moments along both axes: for points
/// in the frame that lie more than one cell before its upper ends, the cells sum to the number of
/// points, the sum of `i h[i][j]` is the sum of the places of the points along the first axis,
/// counted in cells, and the sum of `j h[i][j]` that along the second.
pub proof fn law_binning_2d_keeps_moments(
    x: Seq<real>,
    y: Seq<real>,
    xmin: real,
    xmax: real,
    ymin: real,
    ymax: real,
    xbins: usize,
    ybins: usize,
    threads: usize,
)
    requires
        threads >= 1,
        x.len() == y.len(),
        xbins >= 1,
        ybins >= 1,
        xmin < xmax,
        ymin < ymax,
        (xmax - xmin) / xbins as real >= 1real / 1000000000real,
        (ymax - ymin) / ybins as real >= 1real / 1000000000real,
        forall|n: int|
            0 <= n < x.len() ==> xmin <= #[trigger] x[n] < xmax - (xmax - xmin) / xbins as real,
        forall|n: int|
            0 <= n < y.len() ==> ymin <= #[trigger] y[n] < ymax - (ymax - ymin) / ybins as real,
    ensures
        ({
            let h = binned_2d(
                x,
                y,
                frame(xmin, xmax, ymin, ymax, xbins, ybins),
                xbins,
                ybins,
                threads,
            );
            let dx = (xmax - xmin) / xbins as real;
            let dy = (ymax - ymin) / ybins as real;
            &&& weighted_cells(h, |i: int, j: int| 1real) == x.len() as real
            &&& weighted_cells(h, |i: int, j: int| i as real) == sum_to(
                x.len(),
                |n: int| (x[n] - xmin) / dx,
            )
            &&& weighted_cells(h, |i: int, j: int| j as real) == sum_to(
                y.len(),
                |n: int| (y[n] - ymin) / dy,
            )
        }),
{
    let (c, d) = (xbins as nat, ybins as nat);
    let h = binned_2d(
        x,
        y,
        frame(xmin, xmax, ymin, ymax, xbins, ybins),
        xbins,
        ybins,
        threads,
    );
    let dx = (xmax - xmin) / xbins as real;
    let dy = (ymax - ymin) / ybins as real;
    let m = x.len();
    law_binning_2d_shares_by_hats(x, y, xmin, xmax, ymin, ymax, xbins, ybins, threads);
    let w = |n: int, i: int, j: int|
        bilinear_share(x[n], y[n], xmin, xmax, ymin, ymax, xbins as int, ybins as int, i, j);
    assert forall|i: int, j: int| 0 <= i < c && 0 <= j < d implies #[trigger] h[i][j] == sum_to(
        m,
        |n: int| w(n, i, j),
    ) by {
        lemma_sum_same(
            m,
            |n: int|
                bilinear_share(
                    x[n],
                    y[n],
                    xmin,
                    xmax,
                    ymin,
                    ymax,
                    xbins as int,
                    ybins as int,
                    i,
                    j,
                ),
            |n: int| w(n, i, j),
        );
    }
    let one = |i: int, j: int| 1real;
    let row = |i: int, j: int| i as real;
    let column = |i: int, j: int| j as real;
    lemma_weighted_cells(h, one, w, c, d, m);
    lemma_weighted_cells(h, row, w, c, d, m);
    lemma_weighted_cells(h, column, w, c, d, m);
    let ones = |n: int| pair_sum(c, d, |i: int, j: int| one(i, j) * w(n, i, j));
    let rows = |n: int| pair_sum(c, d, |i: int, j: int| row(i, j) * w(n, i, j));
    let columns = |n: int| pair_sum(c, d, |i: int, j: int| column(i, j) * w(n, i, j));
    let across = |n: int| (x[n] - xmin) / dx;
    let up = |n: int| (y[n] - ymin) / dy;
    assert forall|n: int| 0 <= n < m implies #[trigger] ones(n) == 1real by {
        assert(xmin <= x[n] && ymin <= y[n]);
        lemma_point_moments(
            x[n],
            y[n],
            xmin,
            xmax,
            ymin,
            ymax,
            xbins,
            ybins,
            |i: int, j: int| one(i, j) * w(n, i, j),
            |i: int, j: int| row(i, j) * w(n, i, j),
            |i: int, j: int| column(i, j) * w(n, i, j),
        );
    }
    assert forall|n: int| 0 <= n < m implies #[trigger] rows(n) == across(n) by {
        assert(xmin <= x[n] && ymin <= y[n]);
        lemma_point_moments(
            x[n],
            y[n],
            xmin,
            xmax,
            ymin,
            ymax,
            xbins,
            ybins,
            |i: int, j: int| one(i, j) * w(n, i, j),
            |i: int, j: int| row(i, j) * w(n, i, j),
            |i: int, j: int| column(i, j) * w(n, i, j),
        );
    }
    assert forall|n: int| 0 <= n < m implies #[trigger] columns(n) == up(n) by {
        assert(xmin <= x[n] && ymin <= y[n]);
        lemma_point_moments(
            x[n],
            y[n],
            xmin,
            xmax,
            ymin,
            ymax,
            xbins,
            ybins,
            |i: int, j: int| one(i, j) * w(n, i, j),
            |i: int, j: int| row(i, j) * w(n, i, j),
            |i: int, j: int| column(i, j) * w(n, i, j),
        );
    }
    lemma_sum_same(m, ones, |n: int| 1real);
    lemma_sum_ones(m);
    lemma_sum_same(m, rows, across);
    lemma_sum_same(m, columns, up);
}

/// What one point adds to the weighted sums.
proof fn lemma_point_moments(
    x: real,
    y: real,
    xmin: real,
    xmax: real,
    ymin: real,
    ymax: real,
    xbins: usize,
    ybins: usize,
    f0: spec_fn(int, int) -> real,
    f1: spec_fn(int, int) -> real,
    f2: spec_fn(int, int) -> real,
)
    requires
        xbins >= 1,
        ybins >= 1,
        xmin < xmax,
        ymin < ymax,
        xmin <= x < xmax - (xmax - xmin) / xbins as real,
        ymin <= y < ymax - (ymax - ymin) / ybins as real,
        forall|i: int, j: int|
            #![trigger f0(i, j)]
            #![trigger f1(i, j)]
            #![trigger f2(i, j)]
            0 <= i < xbins && 0 <= j < ybins ==> {
                let s = bilinear_share(
                    x,
                    y,
                    xmin,
                    xmax,
                    ymin,
                    ymax,
                    xbins as int,
                    ybins as int,
                    i,
                    j,
                );
                f0(i, j) == 1real * s && f1(i, j) == i as real * s && f2(i, j) == j as real * s
            },
    ensures
        pair_sum(xbins as nat, ybins as nat, f0) == 1real,
        pair_sum(xbins as nat, ybins as nat, f1) == (x - xmin) / ((xmax - xmin) / xbins as real),
        pair_sum(xbins as nat, ybins as nat, f2) == (y - ymin) / ((ymax - ymin) / ybins as real),
{
    let (c, d) = (xbins as nat, ybins as nat);
    let (dx, dy) = ((xmax - xmin) / xbins as real, (ymax - ymin) / ybins as real);
    let (p, q) = ((x - xmin) / dx, (y - ymin) / dy);
    lemma_before_the_last(x, xmin, xmax, xbins);
    lemma_before_the_last(y, ymin, ymax, ybins);
    lemma_hats(p, c);
    lemma_hats(q, d);
    let (a, b) = (|i: int| hat_at(p, i), |j: int| hat_at(q, j));
    let (ia, jb) = (|i: int| i as real * hat_at(p, i), |j: int| j as real * hat_at(q, j));
    assert forall|i: int, j: int| 0 <= i < c && 0 <= j < d implies #[trigger] f0(i, j) == a(i) * b(
        j,
    ) by {
        lemma_units(a(i) * b(j));
    }
    assert forall|i: int, j: int| 0 <= i < c && 0 <= j < d implies #[trigger] f1(i, j) == ia(i)
        * b(j) by {
        lemma_associate(i as real, a(i), b(j));
    }
    assert forall|i: int, j: int| 0 <= i < c && 0 <= j < d implies #[trigger] f2(i, j) == a(i)
        * jb(j) by {
        lemma_associate(j as real, a(i), b(j));
        lemma_commute(j as real, a(i));
        lemma_associate(a(i), j as real, b(j));
    }
    lemma_sum_product(c, d, a, b, f0);
    lemma_sum_product(c, d, ia, b, f1);
    lemma_sum_product(c, d, a, jb, f2);
    lemma_units(p);
    lemma_units(q);
}

/// A point more than one bin before the end lies before the last bin.
proof fn lemma_before_the_last(x: real, xmin: real, xmax: real, bins: usize)
    requires
        bins >= 1,
        xmin < xmax,
        xmin <= x < xmax - (xmax - xmin) / bins as real,
    ensures
        0real <= (x - xmin) / ((xmax - xmin) / bins as real) < bins as real - 1real,
        x < xmax,
{
    let width = (xmax - xmin) / bins as real;
    lemma_place(xmin, xmin, xmax, bins);
    lemma_div_mul(xmax - xmin, bins as real);
    lemma_commute(width, bins as real);
    lemma_distribute(bins as real, 1real, width);
    lemma_units(width);
    lemma_div_order(x - xmin, width, bins as real - 1real);
}

/// A cell takes weight only from points that lie less than a cell from its start along both axes, and
/// the last one from points that close the frame besides: where there are none, it stays empty.
pub proof fn law_far_points_add_nothing_2d(
    x: Seq<real>,
    y: Seq<real>,
    xmin: real,
    xmax: real,
    ymin: real,
    ymax: real,
    xbins: usize,
    ybins: usize,
    threads: usize,
    i: int,
    j: int,
)
    requires
        threads >= 1,
        x.len() == y.len(),
        xmin < xmax,
        ymin < ymax,
        0 <= i < xbins,
        0 <= j < ybins,
        forall|n: int|
            0 <= n < x.len() ==> {
                let dx = (xmax - xmin) / xbins as real;
                let dy = (ymax - ymin) / ybins as real;
                &&& xmin <= #[trigger] x[n] < xmax
                &&& ymin <= y[n] < ymax
                &&& {
                    ||| x[n] >= xmin + (i + 1) as real * dx
                    ||| x[n] <= xmin + (i - 1) as real * dx
                    ||| y[n] >= ymin + (j + 1) as real * dy
                    ||| y[n] <= ymin + (j - 1) as real * dy
                }
            },
    ensures
        binned_2d(x, y, frame(xmin, xmax, ymin, ymax, xbins, ybins), xbins, ybins, threads)[i][j]
            == 0real,
{
    law_binning_2d_shares_by_hats(x, y, xmin, xmax, ymin, ymax, xbins, ybins, threads);
    let dx = (xmax - xmin) / xbins as real;
    let dy = (ymax - ymin) / ybins as real;
    lemma_place(xmin, xmin, xmax, xbins);
    lemma_place(ymin, ymin, ymax, ybins);
    let e = |n: int|
        bilinear_share(x[n], y[n], xmin, xmax, ymin, ymax, xbins as int, ybins as int, i, j);
    assert forall|n: int| 0 <= n < x.len() implies #[trigger] e(n) == 0real by {
        assert(xmin <= x[n]);
        lemma_div_order(x[n] - xmin, dx, (i + 1) as real);
        lemma_div_order(x[n] - xmin, dx, (i - 1) as real);
        lemma_div_order(y[n] - ymin, dy, (j + 1) as real);
        lemma_div_order(y[n] - ymin, dy, (j - 1) as real);
        lemma_units(hat((x[n] - xmin) / dx - i as real));
        lemma_units(hat((y[n] - ymin) / dy - j as real));
    }
    lemma_sum_zero(x.len(), e);
}

} // verus!
