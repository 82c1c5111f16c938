//! What two calls of the estimators have in common, whatever the arithmetic, where the functions that
//! they are given admit one result for each argument.
use vstd::prelude::*;

use crate::deriche::{are_poles, is_pole, lambda};
use crate::error::KdeError;
use crate::kde::{finished, is_at_largest, is_estimate_on, mode_of, prepared, Stage};
use crate::kde_2d::{
    finished_2d, is_estimate_2d_for, is_estimate_2d_on, prepared_2d, request_error_2d,
};
use crate::matrix::scott_exponent;
use crate::scalar::Arith;
use crate::second_order::are_exponentials;
use crate::table::{
    axes, is_table_estimate_on, law_transposed_table_has_the_same_estimate, transposed_table,
};

verus! {

/// Whether the function admits one result for each argument.
pub open spec fn single_valued<T, F: Fn(T) -> T>(f: F) -> bool {
    forall|x: T, a: T, b: T| #[trigger] f.ensures((x,), a) && #[trigger] f.ensures((x,), b) ==> a
        == b
}

/// Whether the function of two arguments admits one result for each pair of them.
pub open spec fn single_valued_in_two<T, F: Fn(T, T) -> T>(f: F) -> bool {
    forall|x: T, y: T, a: T, b: T| #[trigger] f.ensures((x, y), a) && #[trigger] f.ensures(
        (x, y),
        b,
    ) ==> a == b
}

/// The poles of the filter are determined.
pub proof fn law_poles_are_determined<T: Arith, E: Fn(T) -> T, C: Fn(T) -> T, S: Fn(T) -> T>(
    p: Seq<(T, T)>,
    q: Seq<(T, T)>,
    sigma: T,
    exp: E,
    cos: C,
    sin: S,
)
    requires
        single_valued(exp),
        single_valued(cos),
        single_valued(sin),
        are_poles(p, sigma, exp, cos, sin),
        are_poles(q, sigma, exp, cos, sin),
    ensures
        p == q,
{
    assert forall|k: int| 0 <= k < 4 implies p[k] == #[trigger] q[k] by {
        assert(is_pole(p[k], lambda(k), sigma, exp, cos, sin));
        assert(is_pole(q[k], lambda(k), sigma, exp, cos, sin));
    }
    assert(p =~= q);
}

/// Two estimates of the same data on the same number of threads are the same, errors included.
pub proof fn law_estimates_agree<T: Arith, E: Fn(T) -> T, C: Fn(T) -> T, S: Fn(T) -> T>(
    r: Result<(Seq<T>, Seq<T>), KdeError<T>>,
    g: Result<(Seq<T>, Seq<T>), KdeError<T>>,
    data: Seq<T>,
    bins: usize,
    sigma: T,
    pi: T,
    exp: E,
    cos: C,
    sin: S,
    threads: usize,
)
    requires
        single_valued(exp),
        single_valued(cos),
        single_valued(sin),
        is_estimate_on(r, data, bins, sigma, pi, exp, cos, sin, threads),
        is_estimate_on(g, data, bins, sigma, pi, exp, cos, sin, threads),
    ensures
        r == g,
{
    match prepared(data, bins, sigma, threads) {
        Ok(Stage::Binned(b)) => {
            let p = choose|p: Seq<(T, T)>| #[trigger]
                are_poles(p, b.sigma, exp, cos, sin) && r == finished(b, pi, p);
            let q = choose|q: Seq<(T, T)>| #[trigger]
                are_poles(q, b.sigma, exp, cos, sin) && g == finished(b, pi, q);
            law_poles_are_determined(p, q, b.sigma, exp, cos, sin);
        },
        _ => {},
    }
}

/// The mode belongs to the estimate: on the same number of threads, a call for the mode returns the
/// place where the density that a call for the estimate returns is largest, or the error that that
/// call returns.
pub proof fn law_mode_belongs_to_estimate<
    T: Arith,
    E: Fn(T) -> T,
    C: Fn(T) -> T,
    S: Fn(T) -> T,
>(
    m: Result<T, KdeError<T>>,
    r: Result<(Seq<T>, Seq<T>), KdeError<T>>,
    data: Seq<T>,
    bins: usize,
    sigma: T,
    pi: T,
    exp: E,
    cos: C,
    sin: S,
    threads: usize,
)
    requires
        single_valued(exp),
        single_valued(cos),
        single_valued(sin),
        is_estimate_on(r, data, bins, sigma, pi, exp, cos, sin, threads),
        exists|g: Result<(Seq<T>, Seq<T>), KdeError<T>>| #[trigger]
            is_estimate_on(g, data, bins, sigma, pi, exp, cos, sin, threads) && m == mode_of(g)
                && is_at_largest(m, g),
    ensures
        m == mode_of(r),
        is_at_largest(m, r),
        match r {
            Err(e) => m == Err::<T, KdeError<T>>(e),
            Ok(_) => true,
        },
{
    let g = choose|g: Result<(Seq<T>, Seq<T>), KdeError<T>>| #[trigger]
        is_estimate_on(g, data, bins, sigma, pi, exp, cos, sin, threads) && m == mode_of(g)
            && is_at_largest(m, g);
    law_estimates_agree(r, g, data, bins, sigma, pi, exp, cos, sin, threads);
}

/// What the checks before the binning refuse does not depend on the number of threads: a call that
/// is refused there is refused in the same way on any number of them.
pub proof fn law_early_refusals_agree<T: Arith>(
    data: Seq<T>,
    bins: usize,
    sigma: T,
    threads: usize,
    others: usize,
)
    ensures
        prepared(data, bins, sigma, threads) is Err ==> prepared(data, bins, sigma, others)
            == prepared(data, bins, sigma, threads),
{
}

/// Two estimates of the same points on the same number of threads are the same, errors included.
pub proof fn law_estimates_2d_agree<T: Arith, E: Fn(T) -> T, P: Fn(T, T) -> T>(
    r: Result<(Seq<T>, Seq<T>, Seq<Seq<T>>), KdeError<T>>,
    g: Result<(Seq<T>, Seq<T>, Seq<Seq<T>>), KdeError<T>>,
    x: Seq<T>,
    y: Seq<T>,
    bins: usize,
    exp: E,
    pow: P,
    threads: usize,
)
    requires
        single_valued(exp),
        single_valued_in_two(pow),
        is_estimate_2d_on(r, x, y, bins, exp, pow, threads),
        is_estimate_2d_on(g, x, y, bins, exp, pow, threads),
    ensures
        r == g,
{
    if request_error_2d(x, y, bins) is None {
        let n = T::whole(x.len() as usize);
        let s = scott_exponent::<T>();
        let f = choose|f: T| #[trigger]
            pow.ensures((n, s), f) && is_estimate_2d_for(r, x, y, bins, f, exp, threads);
        let h = choose|h: T| #[trigger]
            pow.ensures((n, s), h) && is_estimate_2d_for(g, x, y, bins, h, exp, threads);
        assert(f == h);
        match prepared_2d(x, y, bins, f, threads) {
            Ok(b) => {
                let (ex, ey) = choose|ex: (T, T), ey: (T, T)|
                    are_exponentials(ex.0, ex.1, b.sigma_x, exp) && are_exponentials(
                        ey.0,
                        ey.1,
                        b.sigma_y,
                        exp,
                    ) && r == #[trigger] finished_2d(b, ex, ey);
                let (fx, fy) = choose|fx: (T, T), fy: (T, T)|
                    are_exponentials(fx.0, fx.1, b.sigma_x, exp) && are_exponentials(
                        fy.0,
                        fy.1,
                        b.sigma_y,
                        exp,
                    ) && g == #[trigger] finished_2d(b, fx, fy);
                assert(ex == fx);
                assert(ey == fy);
            },
            Err(_) => {},
        }
    }
}

/// A call on a table and a call on the transposed table, on the same number of threads, return the
/// same, errors included. A table of two rows and two columns is left out.
pub proof fn law_calls_on_transposed_tables_agree<T: Arith, E: Fn(T) -> T, P: Fn(T, T) -> T>(
    r: Result<(Seq<T>, Seq<T>, Seq<Seq<T>>), KdeError<T>>,
    g: Result<(Seq<T>, Seq<T>, Seq<Seq<T>>), KdeError<T>>,
    flat: Seq<T>,
    rows: usize,
    cols: usize,
    bins: usize,
    exp: E,
    pow: P,
    threads: usize,
)
    requires
        flat.len() == rows * cols,
        !(rows == 2 && cols == 2),
        single_valued(exp),
        single_valued_in_two(pow),
        is_table_estimate_on(r, flat, rows, cols, bins, exp, pow, threads),
        is_table_estimate_on(
            g,
            transposed_table(flat, rows as nat, cols as nat),
            cols,
            rows,
            bins,
            exp,
            pow,
            threads,
        ),
    ensures
        r == g,
{
    law_transposed_table_has_the_same_estimate(g, flat, rows, cols, bins, exp, pow, threads);
    match axes(flat, rows, cols) {
        Ok((x, y)) => {
            law_estimates_2d_agree(r, g, x, y, bins, exp, pow, threads);
        },
        Err(_) => {},
    }
}

} // verus!
