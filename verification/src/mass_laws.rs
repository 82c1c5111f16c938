//! The second-order filter makes no weight, in exact arithmetic.
use vstd::prelude::*;

use crate::convolution::{convolution, distance};
use crate::linearity_laws::{law_second_order_kernel_is_positive, lemma_power_is_positive};
use crate::reals::{
    lemma_associate, lemma_cancel, lemma_commute, lemma_distribute, lemma_div_mul, lemma_div_order,
    lemma_product_sign, lemma_tiny, lemma_units,
};
use crate::scalar::{negligible, total, Arith};
use crate::second_order::{decay, filtered, second_order, second_order_smoothed};
use crate::second_order_laws::{law_second_order_is_convolution, power, second_order_kernel};

verus! {

/// The sum of the kernel from the distance `n` on.
spec fn tail(k: real, alpha: real, ea: real, n: nat) -> real {
    let a = 1real / (1real - ea);
    k * (power(ea, n) * (a * (1real + alpha * (n as real)) + a * (alpha * ea * a)))
}

/// The tail loses the kernel at `n` from `n` to the next distance.
proof fn lemma_tail_step(k: real, alpha: real, ea: real, n: nat)
    requires
        0real < ea < 1real,
    ensures
        tail(k, alpha, ea, n) - tail(k, alpha, ea, n + 1) == second_order_kernel(k, alpha, ea)(n),
{
    let r = 1real - ea;
    let a = 1real / r;
    let p = power(ea, n);
    let u = 1real + alpha * (n as real);
    let v = alpha * ea * a;
    lemma_div_mul(1real, r);
    assert(r * a == 1real);
    assert(power(ea, n + 1) == ea * p);
    // The next factor is larger by `alpha`.
    lemma_distribute(n as real, 1real, alpha);
    lemma_units(alpha);
    assert(1real + alpha * ((n + 1) as real) == u + alpha);
    let here = a * u + a * v;
    let next = a * (u + alpha) + a * v;
    lemma_distribute(u, alpha, a);
    assert(next == here + a * alpha);
    // here - ea next == u
    lemma_distribute(here, a * alpha, ea);
    lemma_distribute(1real, ea, here);
    lemma_units(here);
    lemma_distribute(a * u, a * v, r);
    lemma_associate(r, a, u);
    lemma_associate(r, a, v);
    lemma_units(u);
    lemma_units(v);
    assert(r * here == u + v);
    lemma_commute(a, alpha);
    lemma_associate(ea, alpha, a);
    lemma_commute(ea, alpha);
    assert(ea * (a * alpha) == v);
    assert(here - ea * next == u);
    // p here - (ea p) next == p u
    lemma_commute(ea, p);
    lemma_associate(p, ea, next);
    lemma_distribute(here, ea * next, p);
    lemma_distribute(p * here, p * (ea * next), k);
    lemma_commute(p, u);
}

/// The tail is not negative.
proof fn lemma_tail_sign(k: real, alpha: real, ea: real, n: nat)
    requires
        k >= 0real,
        alpha > 0real,
        0real < ea < 1real,
    ensures
        tail(k, alpha, ea, n) >= 0real,
{
    let a = 1real / (1real - ea);
    lemma_div_order(1real, 1real - ea, 0real);
    lemma_power_is_positive(ea, n);
    lemma_product_sign(alpha, n as real);
    lemma_product_sign(a, 1real + alpha * (n as real));
    lemma_product_sign(alpha, ea);
    lemma_product_sign(alpha * ea, a);
    lemma_product_sign(a, alpha * ea * a);
    let w = a * (1real + alpha * (n as real)) + a * (alpha * ea * a);
    lemma_product_sign(power(ea, n), w);
    lemma_product_sign(k, power(ea, n) * w);
}

/// The whole kernel, on both sides, sums to one.
proof fn lemma_whole_kernel(alpha: real, ea: real)
    requires
        alpha > 0real,
        0real < ea < 1real,
    ensures
        ({
            let k = second_order(alpha, ea, ea * ea).a1;
            tail(k, alpha, ea, 0) + tail(k, alpha, ea, 1) == 1real
        }),
{
    let k = second_order(alpha, ea, ea * ea).a1;
    let r = 1real - ea;
    let a = 1real / r;
    let d = 1real + 2real * alpha * ea - ea * ea;
    let s = r * r;
    lemma_product_sign(r, r);
    lemma_product_sign(2real * alpha, ea);
    lemma_product_sign(r, ea);
    lemma_distribute(1real, ea, ea);
    lemma_units(ea);
    assert(d > 0real);
    lemma_div_mul(s, d);
    lemma_div_mul(1real, r);
    let v = alpha * ea * a;
    let w = a + a * v;
    lemma_tail_step(k, alpha, ea, 0);
    lemma_units(alpha);
    assert(power(ea, 0) == 1real);
    lemma_units(a);
    lemma_units(w);
    lemma_units(k);
    assert(tail(k, alpha, ea, 0) == k * w);
    assert(second_order_kernel(k, alpha, ea)(0) == k) by {
        lemma_units(1real);
    }
    // s w == r + alpha ea
    let m = alpha * ea;
    assert(s * w == r + m) by {
        lemma_distribute(a, a * v, s);
        lemma_associate(r, r, a);
        lemma_units(r);
        assert(s * a == r);
        lemma_associate(s, a, v);
        assert(s * (a * v) == r * v);
        lemma_commute(r, v);
        lemma_associate(m, a, r);
        lemma_units(m);
        assert(v * r == m);
    }
    // d (2 k w - k) == 2 s w - s == d
    assert(s == 1real - 2real * ea + ea * ea) by {
        lemma_distribute(1real, ea, r);
        lemma_units(r);
    }
    lemma_associate(2real, alpha, ea);
    assert(2real * (s * w) - s == d);
    assert(d * (2real * (k * w) - k) == d) by {
        lemma_distribute(2real * (k * w), k, d);
        lemma_commute(d, 2real);
        lemma_associate(d, 2real, k * w);
        lemma_associate(2real, d, k * w);
        lemma_associate(d, k, w);
        assert(d * k == s);
    }
    let z = 2real * (k * w) - k;
    lemma_commute(d, z);
    lemma_units(d);
    lemma_cancel(z, 1real, d);
}

/// The sum of `g(|i - j|)` over the first `m` places `i`.
spec fn column_sum(g: spec_fn(nat) -> real, j: int, m: nat) -> real
    decreases m,
{
    if m == 0 {
        0real
    } else {
        column_sum(g, j, (m - 1) as nat) + g(distance(m - 1, j))
    }
}

/// The kernel around `j`, as far as it reaches into the first `m` places.
proof fn lemma_column_sum(k: real, alpha: real, ea: real, j: nat, m: nat)
    requires
        0real < ea < 1real,
    ensures
        m <= j ==> column_sum(second_order_kernel(k, alpha, ea), j as int, m) == tail(
            k,
            alpha,
            ea,
            (j - m + 1) as nat,
        ) - tail(k, alpha, ea, j + 1),
        m > j ==> column_sum(second_order_kernel(k, alpha, ea), j as int, m) == tail(
            k,
            alpha,
            ea,
            0,
        ) - tail(k, alpha, ea, j + 1) + tail(k, alpha, ea, 1) - tail(
            k,
            alpha,
            ea,
            (m - j) as nat,
        ),
    decreases m,
{
    let g = second_order_kernel(k, alpha, ea);
    if m > 0 {
        lemma_column_sum(k, alpha, ea, j, (m - 1) as nat);
        let d = distance(m - 1, j as int);
        lemma_tail_step(k, alpha, ea, d);
        if m <= j {
            assert(d == j - m + 1);
        } else {
            assert(d == m - 1 - j);
        }
    }
}

/// The sum of the convolutions at the first `m` places, where only the first `n` samples count.
spec fn spread(g: spec_fn(nat) -> real, x: Seq<real>, m: nat, n: nat) -> real
    decreases m,
{
    if m == 0 {
        0real
    } else {
        spread(g, x, (m - 1) as nat, n) + convolution(g, x, m - 1, n)
    }
}

/// One sample more adds what it spreads.
proof fn lemma_spread_step(g: spec_fn(nat) -> real, x: Seq<real>, m: nat, n: nat)
    requires
        1 <= n <= x.len(),
    ensures
        spread(g, x, m, n) == spread(g, x, m, (n - 1) as nat) + column_sum(g, n - 1, m) * x[n - 1],
    decreases m,
{
    let v = x[n - 1];
    if m == 0 {
        lemma_units(v);
    } else {
        lemma_spread_step(g, x, (m - 1) as nat, n);
        lemma_distribute(column_sum(g, n - 1, (m - 1) as nat), g(distance(m - 1, n - 1)), v);
    }
}

/// What no samples spread is nothing.
proof fn lemma_spread_of_nothing(g: spec_fn(nat) -> real, x: Seq<real>, m: nat)
    ensures
        spread(g, x, m, 0) == 0real,
    decreases m,
{
    if m > 0 {
        lemma_spread_of_nothing(g, x, (m - 1) as nat);
    }
}

/// The first `n` samples spread at most what they hold.
proof fn lemma_spread_bound(x: Seq<real>, alpha: real, ea: real, n: nat)
    requires
        n <= x.len(),
        alpha > 0real,
        0real < ea < 1real,
        forall|j: int| 0 <= j < x.len() ==> #[trigger] x[j] >= 0real,
    ensures
        ({
            let k = second_order(alpha, ea, ea * ea).a1;
            spread(second_order_kernel(k, alpha, ea), x, x.len(), n) <= total(x.take(n as int))
        }),
    decreases n,
{
    let k = second_order(alpha, ea, ea * ea).a1;
    let g = second_order_kernel(k, alpha, ea);
    if n == 0 {
        lemma_spread_of_nothing(g, x, x.len());
    } else {
        let m = (n - 1) as nat;
        lemma_spread_bound(x, alpha, ea, m);
        lemma_spread_step(g, x, x.len(), n);
        assert(x.take(n as int).drop_last() =~= x.take(m as int));
        law_second_order_kernel_is_positive(alpha, ea, 0);
        assert(power(ea, 0) == 1real);
        lemma_units(alpha);
        lemma_units(1real);
        lemma_units(k);
        assert(g(0) == k);
        lemma_column_sum(k, alpha, ea, m, x.len());
        lemma_whole_kernel(alpha, ea);
        lemma_tail_sign(k, alpha, ea, m + 1);
        lemma_tail_sign(k, alpha, ea, (x.len() - m) as nat);
        let c = column_sum(g, n - 1, x.len());
        assert(c <= 1real);
        let v = x[n - 1];
        assert(v >= 0real);
        lemma_product_sign(1real - c, v);
        lemma_distribute(1real, c, v);
        lemma_units(v);
    }
}

/// The sum of a sequence of convolutions.
proof fn lemma_total_is_spread(g: spec_fn(nat) -> real, x: Seq<real>, y: Seq<real>, m: nat)
    requires
        m <= y.len(),
        forall|i: int| 0 <= i < y.len() ==> #[trigger] y[i] == convolution(g, x, i, x.len()),
    ensures
        total(y.take(m as int)) == spread(g, x, m, x.len()),
    decreases m,
{
    if m > 0 {
        lemma_total_is_spread(g, x, y, (m - 1) as nat);
        assert(y.take(m as int).drop_last() =~= y.take(m - 1));
        assert(y[m - 1] == convolution(g, x, m - 1, x.len()));
    }
}

/// The second-order filter makes no weight: a signal without negative values does not sum to more
/// after it than before. What it spreads beyond the ends is lost.
pub proof fn law_second_order_makes_no_weight(x: Seq<real>, alpha: real, ea: real)
    requires
        alpha > 0real,
        0real < ea < 1real,
        forall|j: int| 0 <= j < x.len() ==> #[trigger] x[j] >= 0real,
    ensures
        total(filtered(x, second_order(alpha, ea, ea * ea))) <= total(x),
{
    let c = second_order(alpha, ea, ea * ea);
    let g = second_order_kernel(c.a1, alpha, ea);
    let y = filtered(x, c);
    assert forall|i: int| 0 <= i < y.len() implies #[trigger] y[i] == convolution(
        g,
        x,
        i,
        x.len(),
    ) by {
        law_second_order_is_convolution(x, alpha, ea, i);
    }
    lemma_total_is_spread(g, x, y, y.len());
    lemma_spread_bound(x, alpha, ea, x.len());
    assert(y.take(y.len() as int) =~= y);
    assert(x.take(x.len() as int) =~= x);
}

/// Smoothing to the second order makes no weight.
pub proof fn law_second_order_smoothing_makes_no_weight(x: Seq<real>, sigma: real, ea: real)
    requires
        sigma >= 0real,
        0real < ea < 1real,
        forall|j: int| 0 <= j < x.len() ==> #[trigger] x[j] >= 0real,
    ensures
        total(second_order_smoothed(x, sigma, ea, ea * ea)) <= total(x),
{
    if !negligible(sigma) {
        lemma_tiny();
        let r = 1695real / 1000real;
        lemma_div_order(r, sigma, 0real);
        lemma_units(sigma);
        law_second_order_makes_no_weight(x, decay(sigma), ea);
    }
}

} // verus!
