//! Tables of points, with one axis in each of two rows or two columns.
use vstd::prelude::*;

use crate::binning_2d::{lemma_cell_bound, lemma_cell_index};
use crate::error::KdeError;
use crate::kde_2d::{
    grid_result_2d, is_estimate_2d_on, kde_deriche_2d_with_threads, request_error_2d, KdeGrid2d,
};
use crate::parallel::current_num_threads;
use crate::scalar::{Arith, Scalar};

verus! {

/// How a table holds the points.
#[derive(Clone, Copy, Debug, PartialEq, Eq)]
pub enum Layout {
    /// Each of the two rows holds one axis.
    Rows,
    /// Each of the two columns holds one axis.
    Columns,
}

/// How a table of the shape `shape` holds the points, or why it does not.
pub open spec fn layout<T>(shape: Seq<usize>) -> Result<Layout, KdeError<T>> {
    if shape.len() != 2 {
        Err(KdeError::NotATable)
    } else if shape[0] == 2 {
        Ok(Layout::Rows)
    } else if shape[1] == 2 {
        Ok(Layout::Columns)
    } else {
        Err(KdeError::NotTwoAxes)
    }
}

/// The row `i` of a table with `cols` columns, whose entries `flat` holds row by row.
pub open spec fn table_row<T>(flat: Seq<T>, cols: nat, i: int) -> Seq<T> {
    Seq::new(cols, |j: int| flat[i * cols + j])
}

/// The column `j` of a table with `rows` rows and `cols` columns, whose entries `flat` holds row by
/// row.
pub open spec fn table_column<T>(flat: Seq<T>, rows: nat, cols: nat, j: int) -> Seq<T> {
    Seq::new(rows, |i: int| flat[i * cols + j])
}

/// The two axes of the points in a table, or why there are none.
pub open spec fn axes<T>(flat: Seq<T>, rows: usize, cols: usize) -> Result<
    (Seq<T>, Seq<T>),
    KdeError<T>,
> {
    match layout::<T>(seq![rows, cols]) {
        Ok(Layout::Rows) => Ok(
            (table_row(flat, cols as nat, 0), table_row(flat, cols as nat, 1)),
        ),
        Ok(Layout::Columns) => Ok(
            (
                table_column(flat, rows as nat, cols as nat, 0),
                table_column(flat, rows as nat, cols as nat, 1),
            ),
        ),
        Err(e) => Err(e),
    }
}

/// The table with rows and columns exchanged, row by row.
pub open spec fn transposed_table<T>(flat: Seq<T>, rows: nat, cols: nat) -> Seq<T> {
    Seq::new(cols * rows, |n: int| flat[(n % rows as int) * cols + n / rows as int])
}

/// Whether `r` is the estimate of the points in a table on `threads` threads.
pub open spec fn is_table_estimate_on<T: Arith, E: Fn(T) -> T, P: Fn(T, T) -> T>(
    r: Result<(Seq<T>, Seq<T>, Seq<Seq<T>>), KdeError<T>>,
    flat: Seq<T>,
    rows: usize,
    cols: usize,
    bins: usize,
    exp: E,
    pow: P,
    threads: usize,
) -> bool {
    match axes(flat, rows, cols) {
        Err(e) => r == Err::<(Seq<T>, Seq<T>, Seq<Seq<T>>), KdeError<T>>(e),
        Ok((x, y)) => is_estimate_2d_on(r, x, y, bins, exp, pow, threads),
    }
}

/// How a table of the shape `shape` holds the points, or why it does not.
pub fn table_layout<T>(shape: &[usize]) -> (r: Result<Layout, KdeError<T>>)
    ensures
        r == layout::<T>(shape@),
{
    if shape.len() != 2 {
        return Err(KdeError::NotATable);
    }
    if shape[0] == 2 {
        Ok(Layout::Rows)
    } else if shape[1] == 2 {
        Ok(Layout::Columns)
    } else {
        Err(KdeError::NotTwoAxes)
    }
}

/// The row `i` of a table.
fn row_of<T: Copy>(flat: &[T], rows: usize, cols: usize, i: usize) -> (r: Vec<T>)
    requires
        i < rows,
        flat@.len() == rows * cols,
    ensures
        r@ == table_row(flat@, cols as nat, i as int),
{
    let cells: usize = flat.len();
    let mut r: Vec<T> = Vec::new();
    for j in 0..cols
        invariant
            i < rows,
            cells == flat@.len() == rows * cols,
            r@ == table_row(flat@, cols as nat, i as int).take(j as int),
    {
        proof {
            lemma_cell_bound(i as int, j as int, rows as int, cols as int);
            assert(i * cols + j < cells);
        }
        r.push(flat[i * cols + j]);
        proof {
            assert(r@ =~= table_row(flat@, cols as nat, i as int).take(j + 1));
        }
    }
    proof {
        assert(r@ =~= table_row(flat@, cols as nat, i as int));
    }
    r
}

/// The column `j` of a table.
fn column_of<T: Copy>(flat: &[T], rows: usize, cols: usize, j: usize) -> (r: Vec<T>)
    requires
        j < cols,
        flat@.len() == rows * cols,
    ensures
        r@ == table_column(flat@, rows as nat, cols as nat, j as int),
{
    let cells: usize = flat.len();
    let mut r: Vec<T> = Vec::new();
    for i in 0..rows
        invariant
            j < cols,
            cells == flat@.len() == rows * cols,
            r@ == table_column(flat@, rows as nat, cols as nat, j as int).take(i as int),
    {
        proof {
            lemma_cell_bound(i as int, j as int, rows as int, cols as int);
            assert(i * cols + j < cells);
        }
        r.push(flat[i * cols + j]);
        proof {
            assert(r@ =~= table_column(flat@, rows as nat, cols as nat, j as int).take(i + 1));
        }
    }
    proof {
        assert(r@ =~= table_column(flat@, rows as nat, cols as nat, j as int));
    }
    r
}

/// The two axes of the points in a table with `rows` rows and `cols` columns, whose entries `flat`
/// holds row by row, or why there are none.
pub fn split_axes<T: Copy>(flat: &[T], rows: usize, cols: usize) -> (r: Result<
    (Vec<T>, Vec<T>),
    KdeError<T>,
>)
    requires
        flat@.len() == rows * cols,
    ensures
        match r {
            Ok((x, y)) => axes(flat@, rows, cols) == Ok::<(Seq<T>, Seq<T>), KdeError<T>>(
                (x@, y@),
            ),
            Err(e) => axes(flat@, rows, cols) == Err::<(Seq<T>, Seq<T>), KdeError<T>>(e),
        },
{
    let shape: [usize; 2] = [rows, cols];
    proof {
        assert(shape@ =~= seq![rows, cols]);
    }
    match table_layout(&shape) {
        Ok(Layout::Rows) => Ok((row_of(flat, rows, cols, 0), row_of(flat, rows, cols, 1))),
        Ok(Layout::Columns) => Ok(
            (column_of(flat, rows, cols, 0), column_of(flat, rows, cols, 1)),
        ),
        Err(e) => Err(e),
    }
}

/// The density of the points in a table with `rows` rows and `cols` columns, whose entries `flat`
/// holds row by row, on a grid of `bins` by `bins` cells, with one chunk of the points for each of
/// `threads` threads.
pub fn kde_deriche_2d_of_table_with_threads<T: Scalar, E: Fn(T) -> T, P: Fn(T, T) -> T>(
    flat: &[T],
    rows: usize,
    cols: usize,
    bins: usize,
    exp: &E,
    pow: &P,
    threads: usize,
) -> (r: Result<KdeGrid2d<T>, KdeError<T>>)
    requires
        threads >= 1,
        flat@.len() == rows * cols,
        match axes(flat@, rows, cols) {
            Ok((x, y)) => request_error_2d(x, y, bins) is None ==> bins * bins <= usize::MAX,
            Err(_) => true,
        },
        forall|a: T| #[trigger] exp.requires((a,)),
        forall|a: T, b: T| #[trigger] pow.requires((a, b)),
    ensures
        is_table_estimate_on(
            grid_result_2d(r),
            flat@,
            rows,
            cols,
            bins,
            *exp,
            *pow,
            threads,
        ),
{
    match split_axes(flat, rows, cols) {
        Err(e) => Err(e),
        Ok((x, y)) => kde_deriche_2d_with_threads(
            x.as_slice(),
            y.as_slice(),
            bins,
            exp,
            pow,
            threads,
        ),
    }
}

/// The density of the points in a table with `rows` rows and `cols` columns, whose entries `flat`
/// holds row by row, on a grid of `bins` by `bins` cells.
///
/// How many threads compute it depends on the machine.
pub fn kde_deriche_2d_of_table<T: Scalar, E: Fn(T) -> T, P: Fn(T, T) -> T>(
    flat: &[T],
    rows: usize,
    cols: usize,
    bins: usize,
    exp: &E,
    pow: &P,
) -> (r: Result<KdeGrid2d<T>, KdeError<T>>)
    requires
        flat@.len() == rows * cols,
        match axes(flat@, rows, cols) {
            Ok((x, y)) => request_error_2d(x, y, bins) is None ==> bins * bins <= usize::MAX,
            Err(_) => true,
        },
        forall|a: T| #[trigger] exp.requires((a,)),
        forall|a: T, b: T| #[trigger] pow.requires((a, b)),
    ensures
        exists|threads: usize|
            threads >= 1 && #[trigger] is_table_estimate_on(
                grid_result_2d(r),
                flat@,
                rows,
                cols,
                bins,
                *exp,
                *pow,
                threads,
            ),
{
    let threads: usize = current_num_threads();
    kde_deriche_2d_of_table_with_threads(flat, rows, cols, bins, exp, pow, threads)
}

/// A table and the transposed table hold the same axes, or neither holds any. A table of two rows
/// and two columns is left out: its rows are the axes, and so are those of the transposed table.
pub proof fn law_transposed_table_has_the_same_axes<T>(flat: Seq<T>, rows: usize, cols: usize)
    requires
        flat.len() == rows * cols,
        !(rows == 2 && cols == 2),
    ensures
        axes(transposed_table(flat, rows as nat, cols as nat), cols, rows) == axes(
            flat,
            rows,
            cols,
        ),
{
    let t = transposed_table(flat, rows as nat, cols as nat);
    let (m, n) = (rows as int, cols as int);
    assert(t.len() == n * m);
    assert forall|i: int, j: int| 0 <= i < m && 0 <= j < n implies #[trigger] t[j * m + i]
        == flat[i * n + j] by {
        lemma_cell_index(j, i, m);
        lemma_cell_bound(j, i, n, m);
    }
    if rows == 2 {
        assert forall|i: int| 0 <= i < 2 implies #[trigger] table_column(t, cols as nat, 2, i)
            == table_row(flat, cols as nat, i) by {
            assert forall|j: int| 0 <= j < n implies table_column(t, cols as nat, 2, i)[j]
                == #[trigger] table_row(flat, cols as nat, i)[j] by {
                assert(t[j * m + i] == flat[i * n + j]);
            }
            assert(table_column(t, cols as nat, 2, i) =~= table_row(flat, cols as nat, i));
        }
        assert(table_column(t, cols as nat, 2, 0) == table_row(flat, cols as nat, 0));
        assert(table_column(t, cols as nat, 2, 1) == table_row(flat, cols as nat, 1));
    } else if cols == 2 {
        assert forall|j: int| 0 <= j < 2 implies #[trigger] table_row(t, rows as nat, j)
            == table_column(flat, rows as nat, 2, j) by {
            assert forall|i: int| 0 <= i < m implies table_row(t, rows as nat, j)[i]
                == #[trigger] table_column(flat, rows as nat, 2, j)[i] by {
                assert(t[j * m + i] == flat[i * n + j]);
            }
            assert(table_row(t, rows as nat, j) =~= table_column(flat, rows as nat, 2, j));
        }
        assert(table_row(t, rows as nat, 0) == table_column(flat, rows as nat, 2, 0));
        assert(table_row(t, rows as nat, 1) == table_column(flat, rows as nat, 2, 1));
    }
}

/// A table and the transposed table have the same estimates, whatever the arithmetic. A table of
/// two rows and two columns is left out.
pub proof fn law_transposed_table_has_the_same_estimate<
    T: Arith,
    E: Fn(T) -> T,
    P: Fn(T, T) -> T,
>(
    r: Result<(Seq<T>, Seq<T>, Seq<Seq<T>>), KdeError<T>>,
    flat: Seq<T>,
    rows: usize,
    cols: usize,
    bins: usize,
    exp: E,
    pow: P,
    threads: usize,
)
    requires
        flat.len() == rows * cols,
        !(rows == 2 && cols == 2),
    ensures
        is_table_estimate_on(
            r,
            transposed_table(flat, rows as nat, cols as nat),
            cols,
            rows,
            bins,
            exp,
            pow,
            threads,
        ) == is_table_estimate_on(r, flat, rows, cols, bins, exp, pow, threads),
{
    law_transposed_table_has_the_same_axes(flat, rows, cols);
}

} // verus!
