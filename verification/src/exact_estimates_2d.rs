//! Estimates of points on exact fractions are the exact estimates, as far as they are defined.
use vstd::prelude::*;

use crate::binning::{bin_position, zeros};
use crate::binning_2d::{
    binned_2d, cell_total, closes, corner_weights, deposited_2d, frame, histogram_2d, inside,
    is_blank, lemma_cell_bound, lemma_cell_index, lemma_cell_split, lemma_histogram_2d_len, Frame,
};
use crate::error::KdeError;
use crate::exact::Exact;
use crate::exact_estimates::{lemma_stand_centres, lemma_stand_range};
use crate::exact_laws::law_exact_floor;
use crate::exact_matrices::{lemma_stand_bandwidth, lemma_stand_eigenvalues};
use crate::exact_relation::{
    all_defined, all_stand_for, group_stand, lemma_defined_constants, lemma_stand_negligible,
    lemma_stand_order, lemma_stand_values, lemma_values, stands_for, values,
};
use crate::kde::centres;
use crate::kde_2d::{
    column, finished_2d, grand_total, normalized_2d, padded_range, prepared_2d, rows_over,
    running_total, smoothed_frame, smoothed_rows, BinnedFrame,
};
use crate::kde_2d_laws::law_estimate_2d_integrates_to_one;
use crate::matrix::{axis_eigenvalues, bandwidth};
use crate::parallel::{chunk, chunk_count};
use crate::scalar::{half, negligible, zero, Arith};
use crate::second_order::{
    backward, decay, filtered, forward, second_order, second_order_smoothed, SecondOrder,
};

verus! {

/// Whether the rows of `s` stand for those of `t`.
pub open spec fn rows_stand_for(s: Seq<Seq<Exact>>, t: Seq<Seq<real>>) -> bool {
    &&& s.len() == t.len()
    &&& forall|i: int| 0 <= i < s.len() ==> #[trigger] all_stand_for(s[i], t[i])
}

/// Whether all entries of all rows are defined.
pub open spec fn rows_defined(s: Seq<Seq<Exact>>) -> bool {
    forall|i: int| 0 <= i < s.len() ==> all_defined(#[trigger] s[i])
}

/// The values of the entries of the rows.
pub open spec fn row_values(s: Seq<Seq<Exact>>) -> Seq<Seq<real>> {
    Seq::new(s.len(), |i: int| values(s[i]))
}

/// Whether the coefficients `c` stand for the coefficients `d`.
spec fn coefficients_stand_for(c: SecondOrder<Exact>, d: SecondOrder<real>) -> bool {
    &&& stands_for(c.a1, d.a1)
    &&& stands_for(c.a2, d.a2)
    &&& stands_for(c.a3, d.a3)
    &&& stands_for(c.a4, d.a4)
    &&& stands_for(c.b1, d.b1)
    &&& stands_for(c.b2, d.b2)
}

/// The causal pass stands for the causal pass.
proof fn lemma_stand_forward(
    x: Seq<Exact>,
    y: Seq<real>,
    c: SecondOrder<Exact>,
    d: SecondOrder<real>,
    i: int,
)
    requires
        all_stand_for(x, y),
        coefficients_stand_for(c, d),
        0 <= i < x.len(),
    ensures
        stands_for(forward(x, c, i), forward(y, d, i)),
    decreases i,
{
    broadcast use group_stand;

    assert(stands_for(x[i], y[i]));
    if i >= 1 {
        lemma_stand_forward(x, y, c, d, i - 1);
        assert(stands_for(x[i - 1], y[i - 1]));
    }
    if i >= 2 {
        lemma_stand_forward(x, y, c, d, i - 2);
    }
}

/// The anticausal pass stands for the anticausal pass.
proof fn lemma_stand_backward(
    x: Seq<Exact>,
    y: Seq<real>,
    c: SecondOrder<Exact>,
    d: SecondOrder<real>,
    i: int,
)
    requires
        all_stand_for(x, y),
        coefficients_stand_for(c, d),
        0 <= i < x.len(),
    ensures
        stands_for(backward(x, c, i), backward(y, d, i)),
    decreases x.len() - i,
{
    broadcast use group_stand;

    if i + 1 < x.len() {
        lemma_stand_backward(x, y, c, d, i + 1);
        assert(stands_for(x[i + 1], y[i + 1]));
    }
    if i + 2 < x.len() {
        lemma_stand_backward(x, y, c, d, i + 2);
        assert(stands_for(x[i + 2], y[i + 2]));
    }
}

/// A signal smoothed to the second order stands for the smoothed signal, where the deviation is
/// defined.
pub proof fn law_exact_second_order_smoothing(
    x: Seq<Exact>,
    y: Seq<real>,
    sigma: Exact,
    s: real,
    e: (Exact, Exact),
    r: (real, real),
)
    requires
        all_stand_for(x, y),
        stands_for(sigma, s),
        stands_for(e.0, r.0),
        stands_for(e.1, r.1),
        sigma.defined(),
    ensures
        all_stand_for(
            second_order_smoothed(x, sigma, e.0, e.1),
            second_order_smoothed(y, s, r.0, r.1),
        ),
{
    broadcast use group_stand;

    lemma_stand_negligible(sigma, s);
    if !negligible(sigma) {
        let (c, d) = (
            second_order(decay(sigma), e.0, e.1),
            second_order(decay(s), r.0, r.1),
        );
        assert(stands_for(decay(sigma), decay(s)));
        assert(coefficients_stand_for(c, d));
        let (u, v) = (filtered(x, c), filtered(y, d));
        assert forall|i: int| 0 <= i < x.len() implies #[trigger] stands_for(u[i], v[i]) by {
            lemma_stand_forward(x, y, c, d, i);
            lemma_stand_backward(x, y, c, d, i);
        }
    }
}

/// A running sum stands for the running sum.
proof fn lemma_stand_running_total(a: Exact, x: real, s: Seq<Exact>, t: Seq<real>)
    requires
        stands_for(a, x),
        all_stand_for(s, t),
    ensures
        stands_for(running_total(a, s), running_total(x, t)),
    decreases s.len(),
{
    broadcast use group_stand;

    if s.len() > 0 {
        assert(stands_for(s[s.len() - 1], t[t.len() - 1]));
        let (r, u) = (s.drop_last(), t.drop_last());
        assert forall|i: int| 0 <= i < r.len() implies #[trigger] stands_for(r[i], u[i]) by {
            assert(stands_for(s[i], t[i]));
        }
        lemma_stand_running_total(a, x, r, u);
    }
}

/// The sum over all rows stands for the sum.
proof fn lemma_stand_grand_total(s: Seq<Seq<Exact>>, t: Seq<Seq<real>>)
    requires
        rows_stand_for(s, t),
    ensures
        stands_for(grand_total(s), grand_total(t)),
    decreases s.len(),
{
    broadcast use group_stand;

    if s.len() > 0 {
        assert(all_stand_for(s[s.len() - 1], t[t.len() - 1]));
        let (r, u) = (s.drop_last(), t.drop_last());
        assert forall|i: int| 0 <= i < r.len() implies #[trigger] all_stand_for(r[i], u[i]) by {
            assert(all_stand_for(s[i], t[i]));
        }
        lemma_stand_grand_total(r, u);
        lemma_stand_running_total(grand_total(r), grand_total(u), s.last(), t.last());
    }
}

/// Where a running sum is defined, so is all that it is made of.
proof fn lemma_defined_running_total(a: Exact, s: Seq<Exact>)
    requires
        running_total(a, s).defined(),
    ensures
        a.defined(),
        all_defined(s),
    decreases s.len(),
{
    if s.len() > 0 {
        lemma_defined_running_total(a, s.drop_last());
        assert forall|i: int| 0 <= i < s.len() implies (#[trigger] s[i]).defined() by {
            if i < s.len() - 1 {
                assert(s.drop_last()[i] == s[i]);
            }
        }
    }
}

/// Where the sum over all rows is defined, so are the rows.
proof fn lemma_defined_grand_total(s: Seq<Seq<Exact>>)
    requires
        grand_total(s).defined(),
    ensures
        rows_defined(s),
    decreases s.len(),
{
    if s.len() > 0 {
        lemma_defined_running_total(grand_total(s.drop_last()), s.last());
        lemma_defined_grand_total(s.drop_last());
        assert forall|i: int| 0 <= i < s.len() implies all_defined(#[trigger] s[i]) by {
            if i < s.len() - 1 {
                assert(s.drop_last()[i] == s[i]);
            }
        }
    }
}

/// A smoothed frame stands for the smoothed frame, where the deviations are defined.
proof fn lemma_stand_smoothed_frame(
    b: BinnedFrame<Exact>,
    v: BinnedFrame<real>,
    ex: (Exact, Exact),
    rx: (real, real),
    ey: (Exact, Exact),
    ry: (real, real),
)
    requires
        rows_stand_for(b.hist, v.hist),
        forall|i: int| 0 <= i < b.hist.len() ==> #[trigger] b.hist[i].len() == b.hist.len(),
        stands_for(b.sigma_x, v.sigma_x),
        stands_for(b.sigma_y, v.sigma_y),
        b.sigma_x.defined(),
        b.sigma_y.defined(),
        stands_for(ex.0, rx.0),
        stands_for(ex.1, rx.1),
        stands_for(ey.0, ry.0),
        stands_for(ey.1, ry.1),
    ensures
        rows_stand_for(smoothed_frame(b, ex, ey), smoothed_frame(v, rx, ry)),
{
    let n = b.hist.len();
    let (p, q) = (smoothed_rows(b.hist, b.sigma_y, ey), smoothed_rows(v.hist, v.sigma_y, ry));
    assert forall|i: int| 0 <= i < n implies #[trigger] all_stand_for(p[i], q[i]) && p[i].len()
        == n by {
        assert(all_stand_for(b.hist[i], v.hist[i]));
        assert(b.hist[i].len() == n);
        law_exact_second_order_smoothing(b.hist[i], v.hist[i], b.sigma_y, v.sigma_y, ey, ry);
    }
    let (c, d) = (smoothed_frame(b, ex, ey), smoothed_frame(v, rx, ry));
    assert forall|i: int| 0 <= i < n implies #[trigger] all_stand_for(c[i], d[i]) by {
        assert forall|j: int| 0 <= j < n implies #[trigger] stands_for(c[i][j], d[i][j]) by {
            let (u, w) = (column(p, j), column(q, j));
            assert forall|k: int| 0 <= k < n implies #[trigger] stands_for(u[k], w[k]) by {
                assert(all_stand_for(p[k], q[k]));
                assert(stands_for(p[k][j], q[k][j]));
            }
            law_exact_second_order_smoothing(u, w, b.sigma_x, v.sigma_x, ex, rx);
            let (y, z) = (
                second_order_smoothed(u, b.sigma_x, ex.0, ex.1),
                second_order_smoothed(w, v.sigma_x, rx.0, rx.1),
            );
            assert(stands_for(y[i], z[i]));
        }
    }
}

/// Defined rows that stand for numbers have them as their values.
proof fn lemma_row_values(s: Seq<Seq<Exact>>, t: Seq<Seq<real>>)
    requires
        rows_stand_for(s, t),
        rows_defined(s),
    ensures
        t == row_values(s),
{
    assert forall|i: int| 0 <= i < s.len() implies t[i] == #[trigger] row_values(s)[i] by {
        assert(all_stand_for(s[i], t[i]));
        assert(all_defined(s[i]));
        lemma_values(s[i], t[i]);
    }
    assert(t =~= row_values(s));
}

/// Rows stand for their values.
proof fn lemma_rows_stand_for_values(s: Seq<Seq<Exact>>)
    ensures
        rows_stand_for(s, row_values(s)),
{
    assert forall|i: int| 0 <= i < s.len() implies #[trigger] all_stand_for(
        s[i],
        row_values(s)[i],
    ) by {
        lemma_stand_values(s[i]);
    }
}

/// A normalized histogram of cells stands for the normalized histogram, where it is defined.
proof fn lemma_stand_normalized_2d(
    x: (Seq<Exact>, Seq<Exact>),
    y: (Seq<real>, Seq<real>),
    h: Seq<Seq<Exact>>,
    g: Seq<Seq<real>>,
    dx: Exact,
    w: real,
    dy: Exact,
    v: real,
)
    requires
        rows_stand_for(h, g),
        stands_for(dx, w),
        stands_for(dy, v),
        dx.defined(),
        dy.defined(),
        h.len() >= 1,
        h[0].len() >= 1,
    ensures
        match normalized_2d(x.0, x.1, h, dx, dy) {
            Ok((a, b, pdf)) => a == x.0 && b == x.1 && (rows_defined(pdf) ==> (match normalized_2d(
                y.0,
                y.1,
                g,
                w,
                v,
            ) {
                Ok((c, d, density)) => c == y.0 && d == y.1 && rows_stand_for(pdf, density),
                Err(_) => false,
            })),
            Err(KdeError::CellTooNarrow) => normalized_2d(y.0, y.1, g, w, v) == Err::<
                (Seq<real>, Seq<real>, Seq<Seq<real>>),
                KdeError<real>,
            >(KdeError::CellTooNarrow),
            Err(KdeError::NotNormalizable) => normalized_2d(y.0, y.1, g, w, v) == Err::<
                (Seq<real>, Seq<real>, Seq<Seq<real>>),
                KdeError<real>,
            >(KdeError::NotNormalizable),
            Err(_) => false,
        },
{
    broadcast use group_stand;

    lemma_defined_constants();
    lemma_stand_order(dx, zero(), w, zero());
    lemma_stand_order(dy, zero(), v, zero());
    lemma_stand_grand_total(h, g);
    let (f, r) = (grand_total(h).times(dx).times(dy), grand_total(g).times(w).times(v));
    assert(stands_for(f, r));
    if f.defined() {
        lemma_stand_negligible(f, r);
    }
    let (pdf, density) = (rows_over(h, f), rows_over(g, r));
    if rows_defined(pdf) {
        assert(all_defined(pdf[0]));
        assert(pdf[0][0].defined());
    }
    assert forall|i: int| 0 <= i < h.len() implies #[trigger] all_stand_for(pdf[i], density[i]) by {
        assert(all_stand_for(h[i], g[i]));
        assert forall|j: int| 0 <= j < h[i].len() implies #[trigger] stands_for(
            pdf[i][j],
            density[i][j],
        ) by {
            assert(stands_for(h[i][j], g[i][j]));
        }
    }
}

/// Whether the frame `f` stands for the frame `g`.
spec fn frame_stands_for(f: Frame<Exact>, g: Frame<real>) -> bool {
    &&& stands_for(f.xmin, g.xmin)
    &&& stands_for(f.xmax, g.xmax)
    &&& stands_for(f.ymin, g.ymin)
    &&& stands_for(f.ymax, g.ymax)
    &&& stands_for(f.dx, g.dx)
    &&& stands_for(f.dy, g.dy)
}

/// Whether the ends of the frame are defined.
spec fn frame_defined(f: Frame<Exact>) -> bool {
    f.xmin.defined() && f.xmax.defined() && f.ymin.defined() && f.ymax.defined()
}

/// Whether the point and how far it lies from the upper ends of the frame are defined.
pub open spec fn point_defined(x: Exact, y: Exact, xmax: Exact, ymax: Exact) -> bool {
    x.defined() && y.defined() && x.minus(xmax).defined() && y.minus(ymax).defined()
}

/// The weights of the corners stand for the weights.
proof fn lemma_stand_corners(u: Exact, a: real, v: Exact, b: real)
    requires
        stands_for(u, a),
        stands_for(v, b),
    ensures
        stands_for(corner_weights(u, v).0, corner_weights(a, b).0),
        stands_for(corner_weights(u, v).1, corner_weights(a, b).1),
        stands_for(corner_weights(u, v).2, corner_weights(a, b).2),
        stands_for(corner_weights(u, v).3, corner_weights(a, b).3),
        corner_weights(u, v).0.defined() ==> u.defined() && v.defined(),
{
    broadcast use group_stand;

    let (l, k) = (Exact::whole(1).minus(u), <real as Arith>::whole(1).minus(a));
    let (d, e) = (Exact::whole(1).minus(v), <real as Arith>::whole(1).minus(b));
    assert(stands_for(l, k));
    assert(stands_for(d, e));
    let area = v.times(l).plus(v.times(u)).plus(d.times(l)).plus(d.times(u));
    let whole = b.times(k).plus(b.times(a)).plus(e.times(k)).plus(e.times(a));
    assert(stands_for(area, whole));
}

/// Where a histogram with a point added is defined, the point is dropped or its place is known.
proof fn lemma_place_is_known(
    h: Seq<Exact>,
    f: Frame<Exact>,
    x: Exact,
    y: Exact,
    xbins: int,
    ybins: int,
)
    requires
        h.len() == xbins * ybins,
        all_defined(deposited_2d(h, f, x, y, xbins, ybins)),
        inside(f, x, y),
        xbins >= 2,
        ybins >= 2,
    ensures
        ({
            let (across, up) = (bin_position(x, f.xmin, f.dx), bin_position(y, f.ymin, f.dy));
            ||| across.defined() && up.defined()
            ||| up.defined() && up.floor_index() + 1 >= ybins
            ||| across.defined() && across.floor_index() + 1 >= xbins
        }),
{
    let (across, up) = (bin_position(x, f.xmin, f.dx), bin_position(y, f.ymin, f.dy));
    let (kh, kv) = (across.floor_index() as int, up.floor_index() as int);
    if kh + 1 < xbins && kv + 1 < ybins {
        let n = kh * ybins + kv;
        lemma_cell_index(kh, kv, ybins);
        lemma_cell_bound(kh, kv, xbins, ybins);
        let (u, v) = (
            across.minus(Exact::whole(kh as usize)),
            up.minus(Exact::whole(kv as usize)),
        );
        lemma_stand_corners(u, u.value(), v, v.value());
        let after = deposited_2d(h, f, x, y, xbins, ybins);
        assert(after[n].defined());
        assert(after[n] == h[n].plus(corner_weights(u, v).0));
    }
}

/// A histogram with a point added stands for the histogram with the point added, where it is
/// defined.
proof fn lemma_stand_deposited_2d(
    h: Seq<Exact>,
    g: Seq<real>,
    f: Frame<Exact>,
    e: Frame<real>,
    x: Exact,
    a: real,
    y: Exact,
    b: real,
    xbins: int,
    ybins: int,
)
    requires
        xbins >= 1,
        ybins >= 1,
        h.len() == xbins * ybins,
        all_stand_for(h, g),
        frame_stands_for(f, e),
        frame_defined(f),
        stands_for(x, a),
        stands_for(y, b),
        point_defined(x, y, f.xmax, f.ymax),
        all_defined(deposited_2d(h, f, x, y, xbins, ybins)),
    ensures
        all_stand_for(
            deposited_2d(h, f, x, y, xbins, ybins),
            deposited_2d(g, e, a, b, xbins, ybins),
        ),
{
    broadcast use group_stand;

    let (c, d) = (
        deposited_2d(h, f, x, y, xbins, ybins),
        deposited_2d(g, e, a, b, xbins, ybins),
    );
    lemma_stand_order(f.xmin, x, e.xmin, a);
    lemma_stand_order(x, f.xmax, a, e.xmax);
    lemma_stand_order(f.ymin, y, e.ymin, b);
    lemma_stand_order(y, f.ymax, b, e.ymax);
    assert(inside(f, x, y) == inside(e, a, b));
    assert(stands_for(x.minus(f.xmax), a.minus(e.xmax)));
    assert(stands_for(y.minus(f.ymax), b.minus(e.ymax)));
    lemma_stand_negligible(x.minus(f.xmax), a.minus(e.xmax));
    lemma_stand_negligible(y.minus(f.ymax), b.minus(e.ymax));
    assert(closes(f, x, y) == closes(e, a, b));
    let (across, p) = (bin_position(x, f.xmin, f.dx), bin_position(a, e.xmin, e.dx));
    let (up, q) = (bin_position(y, f.ymin, f.dy), bin_position(b, e.ymin, e.dy));
    assert(stands_for(across, p));
    assert(stands_for(up, q));
    if across.defined() {
        law_exact_floor(across);
    }
    if up.defined() {
        law_exact_floor(up);
    }
    if inside(f, x, y) && xbins >= 2 && ybins >= 2 {
        lemma_place_is_known(h, f, x, y, xbins, ybins);
    }
    let (u, v) = (
        across.minus(Exact::whole(across.floor_index())),
        up.minus(Exact::whole(up.floor_index())),
    );
    let (r, t) = (
        p.minus(<real as Arith>::whole(p.floor_index())),
        q.minus(<real as Arith>::whole(q.floor_index())),
    );
    if across.defined() && up.defined() {
        assert(stands_for(u, r));
        assert(stands_for(v, t));
        lemma_stand_corners(u, r, v, t);
    }
    assert forall|n: int| 0 <= n < h.len() implies #[trigger] stands_for(c[n], d[n]) by {
        assert(stands_for(h[n], g[n]));
        lemma_cell_split(n, xbins, ybins);
    }
}

/// Where a histogram with a point added is defined, so is the histogram.
proof fn lemma_defined_deposited_2d(
    h: Seq<Exact>,
    f: Frame<Exact>,
    x: Exact,
    y: Exact,
    xbins: int,
    ybins: int,
)
    requires
        all_defined(deposited_2d(h, f, x, y, xbins, ybins)),
    ensures
        all_defined(h),
{
    let c = deposited_2d(h, f, x, y, xbins, ybins);
    assert forall|i: int| 0 <= i < h.len() implies (#[trigger] h[i]).defined() by {
        assert(c[i].defined());
    }
}

/// Whether all points and how far they lie from the upper ends of the frame are defined.
pub open spec fn points_defined(x: Seq<Exact>, y: Seq<Exact>, xmax: Exact, ymax: Exact) -> bool {
    &&& x.len() == y.len()
    &&& forall|i: int| 0 <= i < x.len() ==> #[trigger] point_defined(x[i], y[i], xmax, ymax)
}

/// A histogram of cells stands for the histogram, where it is defined.
proof fn lemma_stand_histogram_2d(
    x: Seq<Exact>,
    a: Seq<real>,
    y: Seq<Exact>,
    b: Seq<real>,
    f: Frame<Exact>,
    e: Frame<real>,
    xbins: int,
    ybins: int,
)
    requires
        xbins >= 1,
        ybins >= 1,
        all_stand_for(x, a),
        all_stand_for(y, b),
        points_defined(x, y, f.xmax, f.ymax),
        frame_stands_for(f, e),
        frame_defined(f),
        all_defined(histogram_2d(x, y, f, xbins, ybins)),
    ensures
        all_stand_for(histogram_2d(x, y, f, xbins, ybins), histogram_2d(a, b, e, xbins, ybins)),
    decreases x.len(),
{
    broadcast use group_stand;

    assert(0 <= xbins * ybins) by (nonlinear_arith)
        requires
            xbins >= 1,
            ybins >= 1,
    ;
    if x.len() == 0 {
        let n = (xbins * ybins) as nat;
        let (c, d) = (zeros::<Exact>(n), zeros::<real>(n));
        assert forall|i: int| 0 <= i < n implies #[trigger] stands_for(c[i], d[i]) by {}
    } else {
        let last = x.len() - 1;
        let (r, u) = (x.drop_last(), a.drop_last());
        let (s, v) = (y.drop_last(), b.drop_last());
        let h = histogram_2d(r, s, f, xbins, ybins);
        lemma_histogram_2d_len(r, s, f, xbins, ybins);
        lemma_defined_deposited_2d(h, f, x.last(), y.last(), xbins, ybins);
        assert forall|i: int| 0 <= i < last implies #[trigger] stands_for(r[i], u[i]) by {
            assert(stands_for(x[i], a[i]));
        }
        assert forall|i: int| 0 <= i < last implies #[trigger] stands_for(s[i], v[i]) by {
            assert(stands_for(y[i], b[i]));
        }
        assert forall|i: int| 0 <= i < last implies #[trigger] point_defined(
            r[i],
            s[i],
            f.xmax,
            f.ymax,
        ) by {
            assert(point_defined(x[i], y[i], f.xmax, f.ymax));
        }
        lemma_stand_histogram_2d(r, u, s, v, f, e, xbins, ybins);
        assert(stands_for(x[last], a[last]));
        assert(stands_for(y[last], b[last]));
        assert(point_defined(x[last], y[last], f.xmax, f.ymax));
        lemma_stand_deposited_2d(
            h,
            histogram_2d(u, v, e, xbins, ybins),
            f,
            e,
            x[last],
            a[last],
            y[last],
            b[last],
            xbins,
            ybins,
        );
    }
}

/// Where the sums over the first `n` chunks are defined, so are the histograms of the chunks.
proof fn lemma_stand_cell_total(
    x: Seq<Exact>,
    a: Seq<real>,
    y: Seq<Exact>,
    b: Seq<real>,
    f: Frame<Exact>,
    e: Frame<real>,
    xbins: int,
    ybins: int,
    size: nat,
    n: nat,
)
    requires
        xbins >= 1,
        ybins >= 1,
        size >= 1,
        n <= chunk_count(x.len(), size),
        all_stand_for(x, a),
        all_stand_for(y, b),
        points_defined(x, y, f.xmax, f.ymax),
        frame_stands_for(f, e),
        frame_defined(f),
        forall|c: int|
            0 <= c < xbins * ybins ==> (#[trigger] cell_total(
                x,
                y,
                f,
                xbins,
                ybins,
                size,
                n,
                c,
            )).defined(),
    ensures
        forall|c: int|
            0 <= c < xbins * ybins ==> stands_for(
                #[trigger] cell_total(x, y, f, xbins, ybins, size, n, c),
                cell_total(a, b, e, xbins, ybins, size, n, c),
            ),
    decreases n,
{
    broadcast use group_stand;

    if n > 0 {
        let m = (n - 1) as nat;
        let (p, q) = (chunk(x, size, n - 1), chunk(a, size, n - 1));
        let (r, s) = (chunk(y, size, n - 1), chunk(b, size, n - 1));
        let at = m * size;
        assert(at <= x.len()) by (nonlinear_arith)
            requires
                at == m * size,
                size >= 1,
                n == m + 1,
                n <= chunk_count(x.len(), size),
        ;
        assert forall|i: int| 0 <= i < p.len() implies #[trigger] stands_for(p[i], q[i]) by {
            assert(stands_for(x[at + i], a[at + i]));
        }
        assert forall|i: int| 0 <= i < r.len() implies #[trigger] stands_for(r[i], s[i]) by {
            assert(stands_for(y[at + i], b[at + i]));
        }
        assert forall|i: int| 0 <= i < p.len() implies #[trigger] point_defined(
            p[i],
            r[i],
            f.xmax,
            f.ymax,
        ) by {
            assert(point_defined(x[at + i], y[at + i], f.xmax, f.ymax));
        }
        assert(0 <= xbins * ybins) by (nonlinear_arith)
            requires
                xbins >= 1,
                ybins >= 1,
        ;
        lemma_histogram_2d_len(p, r, f, xbins, ybins);
        let (local, share) = (
            histogram_2d(p, r, f, xbins, ybins),
            histogram_2d(q, s, e, xbins, ybins),
        );
        assert forall|c: int| 0 <= c < xbins * ybins implies (#[trigger] cell_total(
            x,
            y,
            f,
            xbins,
            ybins,
            size,
            m,
            c,
        )).defined() by {
            assert(cell_total(x, y, f, xbins, ybins, size, n, c).defined());
        }
        assert forall|c: int| 0 <= c < local.len() implies (#[trigger] local[c]).defined() by {
            assert(cell_total(x, y, f, xbins, ybins, size, n, c).defined());
        }
        lemma_stand_cell_total(x, a, y, b, f, e, xbins, ybins, size, m);
        lemma_stand_histogram_2d(p, q, r, s, f, e, xbins, ybins);
        assert forall|c: int| 0 <= c < xbins * ybins implies stands_for(
            #[trigger] cell_total(x, y, f, xbins, ybins, size, n, c),
            cell_total(a, b, e, xbins, ybins, size, n, c),
        ) by {
            assert(stands_for(
                cell_total(x, y, f, xbins, ybins, size, m, c),
                cell_total(a, b, e, xbins, ybins, size, m, c),
            ));
            assert(stands_for(local[c], share[c]));
        }
    }
}

/// The histogram of points stands for the histogram, where it and the cells are defined.
proof fn lemma_stand_binned_2d(
    x: Seq<Exact>,
    a: Seq<real>,
    y: Seq<Exact>,
    b: Seq<real>,
    f: Frame<Exact>,
    e: Frame<real>,
    xbins: usize,
    ybins: usize,
    threads: usize,
)
    requires
        xbins >= 1,
        ybins >= 1,
        threads >= 1,
        all_stand_for(x, a),
        all_stand_for(y, b),
        points_defined(x, y, f.xmax, f.ymax),
        frame_stands_for(f, e),
        frame_defined(f),
        f.dx.defined(),
        f.dy.defined(),
        rows_defined(binned_2d(x, y, f, xbins, ybins, threads)),
    ensures
        rows_stand_for(
            binned_2d(x, y, f, xbins, ybins, threads),
            binned_2d(a, b, e, xbins, ybins, threads),
        ),
{
    broadcast use group_stand;

    lemma_stand_negligible(f.dx, e.dx);
    lemma_stand_negligible(f.dy, e.dy);
    let (c, d) = (
        binned_2d(x, y, f, xbins, ybins, threads),
        binned_2d(a, b, e, xbins, ybins, threads),
    );
    let (l, n) = (xbins as int, ybins as int);
    if is_blank(x, y, f, xbins, ybins) {
        assert forall|i: int| 0 <= i < l implies #[trigger] all_stand_for(c[i], d[i]) by {
            assert forall|j: int| 0 <= j < n implies #[trigger] stands_for(c[i][j], d[i][j]) by {}
        }
    } else {
        let size = chunk_count(x.len(), threads as nat);
        assert(size >= 1) by (nonlinear_arith)
            requires
                x.len() >= 1,
                threads >= 1,
                size == chunk_count(x.len(), threads as nat),
        ;
        let m = chunk_count(x.len(), size);
        assert forall|k: int| 0 <= k < l * n implies (#[trigger] cell_total(
            x,
            y,
            f,
            l,
            n,
            size,
            m,
            k,
        )).defined() by {
            lemma_cell_split(k, l, n);
            let (i, j) = (k / n, k % n);
            assert(all_defined(c[i]));
            assert(c[i][j].defined());
        }
        lemma_stand_cell_total(x, a, y, b, f, e, l, n, size, m);
        assert forall|i: int| 0 <= i < l implies #[trigger] all_stand_for(c[i], d[i]) by {
            assert forall|j: int| 0 <= j < n implies #[trigger] stands_for(c[i][j], d[i][j]) by {
                lemma_cell_bound(i, j, l, n);
                assert(stands_for(
                    cell_total(x, y, f, l, n, size, m, i * n + j),
                    cell_total(a, b, e, l, n, size, m, i * n + j),
                ));
            }
        }
    }
}

/// The histogram of points on exact fractions is the exact histogram, where it, the widths of the
/// cells and the places of the points are defined.
pub proof fn law_exact_binning_2d(
    x: Seq<Exact>,
    y: Seq<Exact>,
    xmin: Exact,
    xmax: Exact,
    ymin: Exact,
    ymax: Exact,
    xbins: usize,
    ybins: usize,
    threads: usize,
)
    requires
        threads >= 1,
        xbins >= 1,
        ybins >= 1,
        xmin.defined(),
        ymin.defined(),
        xmax.defined(),
        ymax.defined(),
        points_defined(x, y, xmax, ymax),
        ({
            let f = frame(xmin, xmax, ymin, ymax, xbins, ybins);
            &&& f.dx.defined()
            &&& f.dy.defined()
            &&& rows_defined(binned_2d(x, y, f, xbins, ybins, threads))
        }),
    ensures
        ({
            let f = frame(xmin, xmax, ymin, ymax, xbins, ybins);
            let g = frame(
                xmin.value(),
                xmax.value(),
                ymin.value(),
                ymax.value(),
                xbins,
                ybins,
            );
            binned_2d(values(x), values(y), g, xbins, ybins, threads) == row_values(
                binned_2d(x, y, f, xbins, ybins, threads),
            )
        }),
{
    broadcast use group_stand;

    let f = frame(xmin, xmax, ymin, ymax, xbins, ybins);
    let g = frame(xmin.value(), xmax.value(), ymin.value(), ymax.value(), xbins, ybins);
    lemma_stand_values(x);
    lemma_stand_values(y);
    assert(stands_for(f.dx, g.dx));
    assert(stands_for(f.dy, g.dy));
    lemma_stand_binned_2d(x, values(x), y, values(y), f, g, xbins, ybins, threads);
    lemma_row_values(
        binned_2d(x, y, f, xbins, ybins, threads),
        binned_2d(values(x), values(y), g, xbins, ybins, threads),
    );
}

/// The histogram of a frame, with the values of its fractions.
pub open spec fn frame_values(b: BinnedFrame<Exact>) -> BinnedFrame<real> {
    BinnedFrame {
        xmin: b.xmin.value(),
        ymin: b.ymin.value(),
        dx: b.dx.value(),
        dy: b.dy.value(),
        sigma_x: b.sigma_x.value(),
        sigma_y: b.sigma_y.value(),
        hist: row_values(b.hist),
    }
}

/// Whether the widths, the bandwidths and the weights of the cells are defined.
pub open spec fn binned_frame_defined(b: BinnedFrame<Exact>) -> bool {
    &&& b.dx.defined()
    &&& b.dy.defined()
    &&& b.sigma_x.defined()
    &&& b.sigma_y.defined()
    &&& rows_defined(b.hist)
}

/// The histogram of points on exact fractions is the exact histogram, where it is defined.
pub proof fn law_exact_preparation_2d(
    x: Seq<Exact>,
    y: Seq<Exact>,
    bins: usize,
    f: Exact,
    threads: usize,
)
    requires
        threads >= 1,
        bins >= 1,
        x.len() == y.len(),
        x.len() >= 1,
        ({
            let h = bandwidth(x, y, f);
            let xmax = padded_range(x, axis_eigenvalues(h).0.root()).1;
            let ymax = padded_range(y, axis_eigenvalues(h).1.root()).1;
            points_defined(x, y, xmax, ymax)
        }),
    ensures
        match prepared_2d(x, y, bins, f, threads) {
            Ok(b) => binned_frame_defined(b) ==> prepared_2d(
                values(x),
                values(y),
                bins,
                f.value(),
                threads,
            ) == Ok::<BinnedFrame<real>, KdeError<real>>(frame_values(b)),
            Err(_) => true,
        },
{
    broadcast use group_stand;

    let (u, v, r) = (values(x), values(y), f.value());
    lemma_stand_values(x);
    lemma_stand_values(y);
    let (h, k) = (bandwidth(x, y, f), bandwidth(u, v, r));
    lemma_stand_bandwidth(x, u, y, v, f, r);
    lemma_stand_eigenvalues(h, k);
    let (sx, tx) = (axis_eigenvalues(h).0.root(), axis_eigenvalues(k).0.root());
    let (sy, ty) = (axis_eigenvalues(h).1.root(), axis_eigenvalues(k).1.root());
    assert(stands_for(sx, tx));
    assert(stands_for(sy, ty));
    let (xmin, xmax) = padded_range(x, sx);
    let (ymin, ymax) = padded_range(y, sy);
    let (a, b) = padded_range(u, tx);
    let (c, d) = padded_range(v, ty);
    assert forall|i: int| 0 <= i < x.len() implies (#[trigger] x[i]).defined() by {
        assert(point_defined(x[i], y[i], xmax, ymax));
    }
    assert forall|i: int| 0 <= i < y.len() implies (#[trigger] y[i]).defined() by {
        assert(point_defined(x[i], y[i], xmax, ymax));
    }
    lemma_stand_range(x, u);
    lemma_stand_range(y, v);
    assert(stands_for(half::<Exact>().times(sx), half::<real>().times(tx)));
    assert(stands_for(half::<Exact>().times(sy), half::<real>().times(ty)));
    assert(stands_for(xmin, a) && stands_for(xmax, b));
    assert(stands_for(ymin, c) && stands_for(ymax, d));
    let (fr, gr) = (
        frame(xmin, xmax, ymin, ymax, bins, bins),
        frame(a, b, c, d, bins, bins),
    );
    assert(stands_for(fr.dx, gr.dx));
    assert(stands_for(fr.dy, gr.dy));
    match prepared_2d(x, y, bins, f, threads) {
        Ok(p) => {
            if binned_frame_defined(p) {
                lemma_stand_order(xmax, xmin, b, a);
                lemma_stand_order(ymax, ymin, d, c);
                lemma_stand_binned_2d(x, u, y, v, fr, gr, bins, bins, threads);
                lemma_row_values(p.hist, binned_2d(u, v, gr, bins, bins, threads));
                assert(stands_for(
                    p.sigma_x,
                    tx.times(<real as Arith>::whole(bins).over(b.minus(a))),
                ));
                assert(stands_for(
                    p.sigma_y,
                    ty.times(<real as Arith>::whole(bins).over(d.minus(c))),
                ));
            }
        },
        Err(_) => {},
    }
}

/// The density of points on exact fractions is the exact density, where it is defined.
pub proof fn law_exact_estimate_2d(
    b: BinnedFrame<Exact>,
    ex: (Exact, Exact),
    ey: (Exact, Exact),
)
    requires
        binned_frame_defined(b),
        b.hist.len() >= 1,
        forall|i: int| 0 <= i < b.hist.len() ==> #[trigger] b.hist[i].len() == b.hist.len(),
    ensures
        ({
            let goal = finished_2d(
                frame_values(b),
                (ex.0.value(), ex.1.value()),
                (ey.0.value(), ey.1.value()),
            );
            match finished_2d(b, ex, ey) {
                Ok((x, y, pdf)) => all_defined(x) && all_defined(y) && rows_defined(pdf) ==> goal
                    == Ok::<(Seq<real>, Seq<real>, Seq<Seq<real>>), KdeError<real>>(
                    (values(x), values(y), row_values(pdf)),
                ),
                Err(KdeError::CellTooNarrow) => goal == Err::<
                    (Seq<real>, Seq<real>, Seq<Seq<real>>),
                    KdeError<real>,
                >(KdeError::CellTooNarrow),
                Err(KdeError::NotNormalizable) => goal == Err::<
                    (Seq<real>, Seq<real>, Seq<Seq<real>>),
                    KdeError<real>,
                >(KdeError::NotNormalizable),
                Err(_) => false,
            }
        }),
{
    let v = frame_values(b);
    let (rx, ry) = ((ex.0.value(), ex.1.value()), (ey.0.value(), ey.1.value()));
    let n = b.hist.len();
    lemma_rows_stand_for_values(b.hist);
    lemma_stand_smoothed_frame(b, v, ex, rx, ey, ry);
    lemma_stand_centres(b.xmin, v.xmin, b.dx, v.dx, n);
    lemma_stand_centres(b.ymin, v.ymin, b.dy, v.dy, n);
    let (x, s) = (centres(b.xmin, b.dx, n), centres(v.xmin, v.dx, n));
    let (y, t) = (centres(b.ymin, b.dy, n), centres(v.ymin, v.dy, n));
    let (h, g) = (smoothed_frame(b, ex, ey), smoothed_frame(v, rx, ry));
    lemma_stand_normalized_2d((x, y), (s, t), h, g, b.dx, v.dx, b.dy, v.dy);
    match normalized_2d(x, y, h, b.dx, b.dy) {
        Ok((p, q, pdf)) => {
            if all_defined(x) && all_defined(y) && rows_defined(pdf) {
                lemma_values(x, s);
                lemma_values(y, t);
                match normalized_2d(s, t, g, v.dx, v.dy) {
                    Ok((w, z, density)) => {
                        lemma_row_values(pdf, density);
                    },
                    Err(_) => {},
                }
            }
        },
        Err(_) => {},
    }
}

/// The integral of a density of points on exact fractions is one, where the density and the
/// integral are defined.
pub proof fn law_exact_estimate_2d_integrates_to_one(
    b: BinnedFrame<Exact>,
    ex: (Exact, Exact),
    ey: (Exact, Exact),
)
    requires
        binned_frame_defined(b),
        b.hist.len() >= 1,
        forall|i: int| 0 <= i < b.hist.len() ==> #[trigger] b.hist[i].len() == b.hist.len(),
    ensures
        match finished_2d(b, ex, ey) {
            Ok((x, y, pdf)) => {
                let integral = grand_total(pdf).times(b.dx).times(b.dy);
                all_defined(x) && all_defined(y) && integral.defined() ==> integral.value() == 1real
            },
            Err(_) => true,
        },
{
    broadcast use group_stand;

    let v = frame_values(b);
    let (rx, ry) = ((ex.0.value(), ex.1.value()), (ey.0.value(), ey.1.value()));
    law_exact_estimate_2d(b, ex, ey);
    law_estimate_2d_integrates_to_one(v, rx, ry);
    match finished_2d(b, ex, ey) {
        Ok((x, y, pdf)) => {
            let integral = grand_total(pdf).times(b.dx).times(b.dy);
            if all_defined(x) && all_defined(y) && integral.defined() {
                lemma_defined_grand_total(pdf);
                lemma_rows_stand_for_values(pdf);
                lemma_stand_grand_total(pdf, row_values(pdf));
                assert(stands_for(
                    integral,
                    grand_total(row_values(pdf)).times(v.dx).times(v.dy),
                ));
            }
        },
        Err(_) => {},
    }
}

} // verus!
