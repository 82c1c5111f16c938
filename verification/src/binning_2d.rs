//! Linear binning of two-dimensional data.
use vstd::prelude::*;

use crate::binning::{bin_position, bin_width, zero_vec, zeros};
use crate::parallel::{ceil_div, chunk, chunk_count, current_num_threads, map_chunk_pairs};
use crate::scalar::{is_negligible, negligible, one, zero, Arith, Scalar};

verus! {

/// The range of two-dimensional data and the widths of the cells over it.
pub struct Frame<T> {
    /// The lower end along the first axis.
    pub xmin: T,
    /// The upper end along the first axis.
    pub xmax: T,
    /// The lower end along the second axis.
    pub ymin: T,
    /// The upper end along the second axis.
    pub ymax: T,
    /// The width of a cell along the first axis.
    pub dx: T,
    /// The width of a cell along the second axis.
    pub dy: T,
}

/// The frame of `xbins` by `ybins` cells over `[xmin, xmax]` and `[ymin, ymax]`.
pub open spec fn frame<T: Arith>(
    xmin: T,
    xmax: T,
    ymin: T,
    ymax: T,
    xbins: usize,
    ybins: usize,
) -> Frame<T> {
    Frame {
        xmin,
        xmax,
        ymin,
        ymax,
        dx: bin_width(xmin, xmax, xbins),
        dy: bin_width(ymin, ymax, ybins),
    }
}

/// Whether the point lies inside the frame.
pub open spec fn inside<T: Arith>(f: Frame<T>, x: T, y: T) -> bool {
    f.xmin.at_most(x) && x.below(f.xmax) && f.ymin.at_most(y) && y.below(f.ymax)
}

/// Whether the point closes the frame.
pub open spec fn closes<T: Arith>(f: Frame<T>, x: T, y: T) -> bool {
    negligible(x.minus(f.xmax)) && negligible(y.minus(f.ymax))
}

/// The four weights of a point that has moved by `u` through its cell along the first axis and
/// by `v` along the second: for its own cell, the next one along the first axis, the next one
/// along the second, and the one across.
pub open spec fn corner_weights<T: Arith>(u: T, v: T) -> (T, T, T, T) {
    let left = one::<T>().minus(u);
    let down = one::<T>().minus(v);
    let a = v.times(left);
    let b = v.times(u);
    let c = down.times(left);
    let d = down.times(u);
    let area = a.plus(b).plus(c).plus(d);
    (c.over(area), d.over(area), a.over(area), b.over(area))
}

/// The weight that the cell `(i, j)` of `xbins` by `ybins` receives from the point `(x, y)`, if it
/// receives any.
///
/// A point inside the frame is shared between the four cells around it, unless it lies in the
/// last row or column, where it counts for nothing. A point that closes the frame counts for the
/// last cell.
pub open spec fn cell_share<T: Arith>(
    f: Frame<T>,
    x: T,
    y: T,
    xbins: int,
    ybins: int,
    i: int,
    j: int,
) -> Option<T> {
    if inside(f, x, y) {
        let across = bin_position(x, f.xmin, f.dx);
        let up = bin_position(y, f.ymin, f.dy);
        let kh = across.floor_index();
        let kv = up.floor_index();
        let w = corner_weights(across.minus(T::whole(kh)), up.minus(T::whole(kv)));
        if kh + 1 >= xbins || kv + 1 >= ybins {
            None
        } else if i == kh && j == kv {
            Some(w.0)
        } else if i == kh + 1 && j == kv {
            Some(w.1)
        } else if i == kh && j == kv + 1 {
            Some(w.2)
        } else if i == kh + 1 && j == kv + 1 {
            Some(w.3)
        } else {
            None
        }
    } else if closes(f, x, y) && i == xbins - 1 && j == ybins - 1 {
        Some(one())
    } else {
        None
    }
}

/// `hist`, which holds the cells row by row, with the weights of the point `(x, y)` added.
pub open spec fn deposited_2d<T: Arith>(
    hist: Seq<T>,
    f: Frame<T>,
    x: T,
    y: T,
    xbins: int,
    ybins: int,
) -> Seq<T> {
    Seq::new(
        hist.len(),
        |n: int|
            match cell_share(f, x, y, xbins, ybins, n / ybins, n % ybins) {
                Some(w) => hist[n].plus(w),
                None => hist[n],
            },
    )
}

/// The histogram of the points, filled point by point, which holds the cells row by row.
pub open spec fn histogram_2d<T: Arith>(
    x: Seq<T>,
    y: Seq<T>,
    f: Frame<T>,
    xbins: int,
    ybins: int,
) -> Seq<T>
    decreases x.len(),
{
    if x.len() == 0 {
        zeros((xbins * ybins) as nat)
    } else {
        deposited_2d(
            histogram_2d(x.drop_last(), y.drop_last(), f, xbins, ybins),
            f,
            x.last(),
            y.last(),
            xbins,
            ybins,
        )
    }
}

/// The sum over the histograms of the first `n` chunks of their cell `cell`, taken in order.
pub open spec fn cell_total<T: Arith>(
    x: Seq<T>,
    y: Seq<T>,
    f: Frame<T>,
    xbins: int,
    ybins: int,
    size: nat,
    n: nat,
    cell: int,
) -> T
    decreases n,
{
    if n == 0 {
        zero()
    } else {
        cell_total(x, y, f, xbins, ybins, size, (n - 1) as nat, cell).plus(
            histogram_2d(chunk(x, size, n - 1), chunk(y, size, n - 1), f, xbins, ybins)[cell],
        )
    }
}

/// Rows of zeros.
pub open spec fn zero_rows<T: Arith>(xbins: nat, ybins: nat) -> Seq<Seq<T>> {
    Seq::new(xbins, |i: int| zeros(ybins))
}

/// Whether the histogram is empty or zero whatever the points are.
pub open spec fn is_blank<T: Arith>(
    x: Seq<T>,
    y: Seq<T>,
    f: Frame<T>,
    xbins: usize,
    ybins: usize,
) -> bool {
    xbins == 0 || ybins == 0 || x.len() == 0 || y.len() == 0 || negligible(f.dx) || negligible(f.dy)
}

/// The histogram of the points over `xbins` by `ybins` cells of the frame `f`, as `threads`
/// threads compute it: each takes one chunk of the points.
pub open spec fn binned_2d<T: Arith>(
    x: Seq<T>,
    y: Seq<T>,
    f: Frame<T>,
    xbins: usize,
    ybins: usize,
    threads: usize,
) -> Seq<Seq<T>> {
    if xbins == 0 || ybins == 0 {
        Seq::empty()
    } else if is_blank(x, y, f, xbins, ybins) {
        zero_rows(xbins as nat, ybins as nat)
    } else {
        let size = chunk_count(x.len(), threads as nat);
        let n = chunk_count(x.len(), size);
        Seq::new(
            xbins as nat,
            |i: int|
                Seq::new(
                    ybins as nat,
                    |j: int|
                        cell_total(
                            x,
                            y,
                            f,
                            xbins as int,
                            ybins as int,
                            size,
                            n,
                            i * ybins + j,
                        ),
                ),
        )
    }
}

/// The contents of the rows.
pub open spec fn rows_view<T>(rows: Seq<Vec<T>>) -> Seq<Seq<T>> {
    Seq::new(rows.len(), |i: int| rows[i]@)
}

/// The row and the column of a cell, in a histogram that holds the cells row by row.
pub proof fn lemma_cell_index(i: int, j: int, ybins: int)
    requires
        0 <= i,
        0 <= j < ybins,
    ensures
        (i * ybins + j) / ybins == i,
        (i * ybins + j) % ybins == j,
        i * ybins + j >= 0,
{
    assert((i * ybins + j) / ybins == i && (i * ybins + j) % ybins == j && i * ybins + j >= 0)
        by (nonlinear_arith)
        requires
            0 <= i,
            0 <= j < ybins,
    ;
}

/// A cell of the histogram lies inside it.
pub proof fn lemma_cell_bound(i: int, j: int, xbins: int, ybins: int)
    by (nonlinear_arith)
    requires
        0 <= i < xbins,
        0 <= j < ybins,
    ensures
        i * ybins + j < xbins * ybins,
        i * ybins <= xbins * ybins,
        0 <= i * ybins,
{
}

/// The index of a cell is made of its row and its column.
pub proof fn lemma_cell_split(n: int, xbins: int, ybins: int)
    by (nonlinear_arith)
    requires
        0 <= n < xbins * ybins,
        ybins >= 1,
    ensures
        n == (n / ybins) * ybins + n % ybins,
        0 <= n / ybins < xbins,
        0 <= n % ybins < ybins,
{
}

/// A histogram has as many entries as there are cells.
pub proof fn lemma_histogram_2d_len<T: Arith>(
    x: Seq<T>,
    y: Seq<T>,
    f: Frame<T>,
    xbins: int,
    ybins: int,
)
    requires
        0 <= xbins * ybins,
    ensures
        histogram_2d(x, y, f, xbins, ybins).len() == xbins * ybins,
    decreases x.len(),
{
    if x.len() > 0 {
        lemma_histogram_2d_len(x.drop_last(), y.drop_last(), f, xbins, ybins);
    }
}

/// Adds `w` to the cell `(i, j)`.
fn add_to_cell<T: Scalar>(
    hist: &mut Vec<T>,
    i: usize,
    j: usize,
    xbins: usize,
    ybins: usize,
    w: T,
)
    requires
        i < xbins,
        j < ybins,
        old(hist)@.len() == xbins * ybins,
    ensures
        final(hist)@ == old(hist)@.update(
            i * ybins + j,
            old(hist)@[i * ybins + j].plus(w),
        ),
{
    let cells: usize = hist.len();
    proof {
        lemma_cell_bound(i as int, j as int, xbins as int, ybins as int);
        assert(i * ybins + j < cells);
    }
    let n: usize = i * ybins + j;
    let v: T = hist[n].sum(w);
    hist.set(n, v);
}

/// The four weights of a point, for its own cell, the next one along the first axis, the next one
/// along the second, and the one across.
fn weights_of_corners<T: Scalar>(u: T, v: T) -> (r: (T, T, T, T))
    ensures
        r == corner_weights(u, v),
{
    let one: T = T::of_usize(1);
    let left: T = one.difference(u);
    let down: T = one.difference(v);
    let a: T = v.product(left);
    let b: T = v.product(u);
    let c: T = down.product(left);
    let d: T = down.product(u);
    let area: T = a.sum(b).sum(c).sum(d);
    (c.quotient(area), d.quotient(area), a.quotient(area), b.quotient(area))
}

/// Adds the weights of the point `(x, y)` to `hist`.
fn deposit_2d<T: Scalar>(hist: &mut Vec<T>, f: &Frame<T>, x: T, y: T, xbins: usize, ybins: usize)
    requires
        xbins >= 1,
        ybins >= 1,
        old(hist)@.len() == xbins * ybins,
    ensures
        final(hist)@ == deposited_2d(old(hist)@, *f, x, y, xbins as int, ybins as int),
{
    let ghost before = hist@;
    if f.xmin.is_at_most(x) && x.is_below(f.xmax) && f.ymin.is_at_most(y) && y.is_below(f.ymax) {
        let across: T = x.difference(f.xmin).quotient(f.dx);
        let up: T = y.difference(f.ymin).quotient(f.dy);
        let kh: usize = across.floor_to_index();
        let kv: usize = up.floor_to_index();
        if kh < xbins - 1 && kv < ybins - 1 {
            let w: (T, T, T, T) = weights_of_corners(
                across.difference(T::of_usize(kh)),
                up.difference(T::of_usize(kv)),
            );
            proof {
                lemma_cell_index(kh as int, kv as int, ybins as int);
                lemma_cell_index(kh + 1, kv as int, ybins as int);
                lemma_cell_index(kh as int, kv + 1, ybins as int);
                lemma_cell_index(kh + 1, kv + 1, ybins as int);
                lemma_cell_bound(kh as int, kv as int, xbins as int, ybins as int);
                lemma_cell_bound(kh + 1, kv as int, xbins as int, ybins as int);
                lemma_cell_bound(kh as int, kv + 1, xbins as int, ybins as int);
                lemma_cell_bound(kh + 1, kv + 1, xbins as int, ybins as int);
            }
            add_to_cell(hist, kh, kv, xbins, ybins, w.0);
            add_to_cell(hist, kh + 1, kv, xbins, ybins, w.1);
            add_to_cell(hist, kh, kv + 1, xbins, ybins, w.2);
            add_to_cell(hist, kh + 1, kv + 1, xbins, ybins, w.3);
        }
    } else if is_negligible(x.difference(f.xmax)) && is_negligible(y.difference(f.ymax)) {
        proof {
            lemma_cell_index(xbins - 1, ybins - 1, ybins as int);
            lemma_cell_bound(xbins - 1, ybins - 1, xbins as int, ybins as int);
        }
        add_to_cell(hist, xbins - 1, ybins - 1, xbins, ybins, T::of_usize(1));
    }
    proof {
        let after = deposited_2d(before, *f, x, y, xbins as int, ybins as int);
        assert forall|n: int| 0 <= n < before.len() implies hist@[n] == #[trigger] after[n] by {
            lemma_cell_split(n, xbins as int, ybins as int);
        }
        assert(hist@ =~= after);
    }
}

/// The histogram of one chunk of the points.
fn chunk_histogram_2d<T: Scalar>(
    x: &[T],
    y: &[T],
    f: &Frame<T>,
    xbins: usize,
    ybins: usize,
) -> (r: Vec<T>)
    requires
        xbins >= 1,
        ybins >= 1,
        xbins * ybins <= usize::MAX,
        x@.len() == y@.len(),
    ensures
        r@ == histogram_2d(x@, y@, *f, xbins as int, ybins as int),
{
    let n: usize = x.len();
    let mut hist: Vec<T> = zero_vec(xbins * ybins);
    for i in 0..n
        invariant
            n == x@.len() == y@.len(),
            xbins >= 1,
            ybins >= 1,
            hist@.len() == xbins * ybins,
            hist@ == histogram_2d(
                x@.take(i as int),
                y@.take(i as int),
                *f,
                xbins as int,
                ybins as int,
            ),
    {
        deposit_2d(&mut hist, f, x[i], y[i], xbins, ybins);
        proof {
            assert(x@.take(i + 1).drop_last() =~= x@.take(i as int));
            assert(y@.take(i + 1).drop_last() =~= y@.take(i as int));
        }
    }
    proof {
        assert(x@.take(n as int) =~= x@);
        assert(y@.take(n as int) =~= y@);
    }
    hist
}

/// Rows of zeros.
pub fn zero_row_vec<T: Scalar>(xbins: usize, ybins: usize) -> (r: Vec<Vec<T>>)
    ensures
        rows_view(r@) == zero_rows::<T>(xbins as nat, ybins as nat),
{
    let mut r: Vec<Vec<T>> = Vec::new();
    for i in 0..xbins
        invariant
            rows_view(r@) == zero_rows::<T>(i as nat, ybins as nat),
    {
        let ghost before = r@;
        r.push(zero_vec(ybins));
        proof {
            assert(rows_view(before).len() == i);
            assert forall|k: int| 0 <= k <= i implies rows_view(r@)[k] == zero_rows::<T>(
                (i + 1) as nat,
                ybins as nat,
            )[k] by {
                if k < i {
                    assert(rows_view(before)[k] == zero_rows::<T>(i as nat, ybins as nat)[k]);
                }
            }
            assert(rows_view(r@) =~= zero_rows::<T>((i + 1) as nat, ybins as nat));
        }
    }
    r
}

/// The histogram of the points over `xbins` by `ybins` cells of the frame, with one chunk of the
/// points for each of `threads` threads.
pub fn linear_binning_2d_with_threads<T: Scalar>(
    x: &[T],
    y: &[T],
    xmin: T,
    xmax: T,
    ymin: T,
    ymax: T,
    xbins: usize,
    ybins: usize,
    threads: usize,
) -> (r: Vec<Vec<T>>)
    requires
        threads >= 1,
        !is_blank(x@, y@, frame(xmin, xmax, ymin, ymax, xbins, ybins), xbins, ybins) ==> x@.len()
            == y@.len() && xbins * ybins <= usize::MAX,
    ensures
        rows_view(r@) == binned_2d(
            x@,
            y@,
            frame(xmin, xmax, ymin, ymax, xbins, ybins),
            xbins,
            ybins,
            threads,
        ),
{
    if xbins == 0 || ybins == 0 {
        let r: Vec<Vec<T>> = Vec::new();
        proof {
            assert(rows_view(r@) =~= Seq::empty());
        }
        return r;
    }
    let dx: T = xmax.difference(xmin).quotient(T::of_usize(xbins));
    let dy: T = ymax.difference(ymin).quotient(T::of_usize(ybins));
    if x.len() == 0 || y.len() == 0 || is_negligible(dx) || is_negligible(dy) {
        return zero_row_vec(xbins, ybins);
    }
    let f: Frame<T> = Frame { xmin, xmax, ymin, ymax, dx, dy };
    let size: usize = ceil_div(x.len(), threads);
    proof {
        assert(size >= 1) by (nonlinear_arith)
            requires
                x@.len() >= 1,
                threads >= 1,
                size == chunk_count(x@.len(), threads as nat),
        ;
    }
    let fr: &Frame<T> = &f;
    let g = |c: &[T], d: &[T]| -> (h: Vec<T>)
        requires
            c@.len() == d@.len(),
        ensures
            h@ == histogram_2d(c@, d@, *fr, xbins as int, ybins as int),
        { chunk_histogram_2d(c, d, fr, xbins, ybins) };
    let locals: Vec<Vec<T>> = map_chunk_pairs(x, y, size, g);
    let n: usize = locals.len();
    proof {
        assert forall|k: int| 0 <= k < n implies #[trigger] locals@[k]@ == histogram_2d(
            chunk(x@, size as nat, k),
            chunk(y@, size as nat, k),
            f,
            xbins as int,
            ybins as int,
        ) && locals@[k]@.len() == xbins * ybins by {
            lemma_histogram_2d_len(
                chunk(x@, size as nat, k),
                chunk(y@, size as nat, k),
                f,
                xbins as int,
                ybins as int,
            );
        }
    }
    let ghost goal = binned_2d(x@, y@, f, xbins, ybins, threads);
    let mut rows: Vec<Vec<T>> = Vec::new();
    for i in 0..xbins
        invariant
            xbins * ybins <= usize::MAX,
            n == locals@.len() == chunk_count(x@.len(), size as nat),
            size == chunk_count(x@.len(), threads as nat),
            !is_blank(x@, y@, f, xbins, ybins),
            goal == binned_2d(x@, y@, f, xbins, ybins, threads),
            forall|k: int|
                0 <= k < n ==> #[trigger] locals@[k]@ == histogram_2d(
                    chunk(x@, size as nat, k),
                    chunk(y@, size as nat, k),
                    f,
                    xbins as int,
                    ybins as int,
                ) && locals@[k]@.len() == xbins * ybins,
            rows@.len() == i,
            forall|k: int| 0 <= k < i ==> #[trigger] rows@[k]@ == goal[k],
    {
        let mut row: Vec<T> = Vec::new();
        for j in 0..ybins
            invariant
                i < xbins,
                xbins * ybins <= usize::MAX,
                n == locals@.len() == chunk_count(x@.len(), size as nat),
                size == chunk_count(x@.len(), threads as nat),
                !is_blank(x@, y@, f, xbins, ybins),
                goal == binned_2d(x@, y@, f, xbins, ybins, threads),
                forall|k: int|
                    0 <= k < n ==> #[trigger] locals@[k]@ == histogram_2d(
                        chunk(x@, size as nat, k),
                        chunk(y@, size as nat, k),
                        f,
                        xbins as int,
                        ybins as int,
                    ) && locals@[k]@.len() == xbins * ybins,
                row@.len() == j,
                forall|k: int| 0 <= k < j ==> #[trigger] row@[k] == goal[i as int][k],
        {
            proof {
                lemma_cell_bound(i as int, j as int, xbins as int, ybins as int);
            }
            let cell: usize = i * ybins + j;
            let mut acc: T = T::of_usize(0);
            for k in 0..n
                invariant
                    cell < xbins * ybins,
                    n == locals@.len(),
                    forall|k: int|
                        0 <= k < n ==> #[trigger] locals@[k]@ == histogram_2d(
                            chunk(x@, size as nat, k),
                            chunk(y@, size as nat, k),
                            f,
                            xbins as int,
                            ybins as int,
                        ) && locals@[k]@.len() == xbins * ybins,
                    acc == cell_total(
                        x@,
                        y@,
                        f,
                        xbins as int,
                        ybins as int,
                        size as nat,
                        k as nat,
                        cell as int,
                    ),
            {
                acc = acc.sum(locals[k][cell]);
            }
            row.push(acc);
        }
        proof {
            assert(row@ =~= goal[i as int]);
        }
        rows.push(row);
    }
    proof {
        assert(rows_view(rows@) =~= goal);
    }
    rows
}

/// The histogram of the points over `xbins` by `ybins` cells of the frame, computed on the current
/// thread pool.
///
/// How many threads the pool has depends on the machine, and with it how the sums are
/// grouped.
pub fn linear_binning_2d<T: Scalar>(
    x: &[T],
    y: &[T],
    xmin: T,
    xmax: T,
    ymin: T,
    ymax: T,
    xbins: usize,
    ybins: usize,
) -> (r: Vec<Vec<T>>)
    requires
        !is_blank(x@, y@, frame(xmin, xmax, ymin, ymax, xbins, ybins), xbins, ybins) ==> x@.len()
            == y@.len() && xbins * ybins <= usize::MAX,
    ensures
        exists|threads: usize|
            threads >= 1 && rows_view(r@) == #[trigger] binned_2d(
                x@,
                y@,
                frame(xmin, xmax, ymin, ymax, xbins, ybins),
                xbins,
                ybins,
                threads,
            ),
{
    let threads: usize = current_num_threads();
    linear_binning_2d_with_threads(x, y, xmin, xmax, ymin, ymax, xbins, ybins, threads)
}

} // verus!
