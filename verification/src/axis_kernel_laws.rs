//! What the second-order filter is, in exact arithmetic: the convolution with an exponential kernel.
use vstd::prelude::*;

use crate::convolution::{convolution, distance};
use crate::hat_laws::law_negligible;
use crate::kernel_laws::{
    computes, gap, is_exponential, lemma_convolution_is_sum, lemma_exponential,
};
use crate::reals::{
    lemma_associate, lemma_commute, lemma_distribute, lemma_div_mul, lemma_negate, lemma_units,
};
use crate::scalar::{negligible, Arith};
use crate::second_order::{
    are_exponentials, decay, is_second_order_result, second_order, second_order_smoothed,
};
use crate::second_order_laws::{law_second_order_is_convolution, power, second_order_kernel};
use crate::sums::{lemma_sum_times, sum_to};

verus! {

/// The kernel at the distance `g`, without its factor: `(1 + alpha g) exp(-alpha g)`.
pub open spec fn decaying(e: spec_fn(real) -> real, alpha: real, g: real) -> real {
    (1real + alpha * g) * e(-(alpha * g))
}

/// Powers of an exponential.
proof fn lemma_power(e: spec_fn(real) -> real, alpha: real, n: nat)
    requires
        is_exponential(e),
    ensures
        power(e(-alpha), n) == e(-(alpha * n as real)),
    decreases n,
{
    if n == 0 {
        lemma_units(alpha);
        lemma_exponential(e, 0real, 0real);
    } else {
        let m = (n - 1) as nat;
        lemma_power(e, alpha, m);
        lemma_distribute(m as real, 1real, alpha);
        lemma_units(alpha);
        lemma_exponential(e, -alpha, -(alpha * m as real));
        assert(-alpha + -(alpha * m as real) == -(alpha * n as real));
    }
}

/// The exponentials that a function computes.
proof fn lemma_computed_exponentials<E: Fn(real) -> real>(
    ea: real,
    e2a: real,
    sigma: real,
    exp: E,
    e: spec_fn(real) -> real,
)
    requires
        computes(exp, e),
        is_exponential(e),
        are_exponentials(ea, e2a, sigma, exp),
        sigma != 0real,
    ensures
        ea == e(-(1695real / 1000real / sigma)),
        e2a == ea * ea,
{
    let alpha = decay(sigma);
    assert(alpha == 1695real / 1000real / sigma);
    assert((-2real) * alpha == -alpha + -alpha) by {
        lemma_negate(2real, alpha);
    }
    lemma_exponential(e, -alpha, -alpha);
}

/// What smoothing to the second order does: with `alpha = 1.695 / sigma` and `a = exp(-alpha)`, the
/// sample at `i` becomes the sum over all samples of `(1 - a)^2 / (1 + 2 alpha a - a^2)` times
/// `(1 + alpha d) exp(-alpha d)` times the sample, where `d` is how far it is away.
pub proof fn law_second_order_smoothing<E: Fn(real) -> real>(
    x: Seq<real>,
    sigma: real,
    ea: real,
    e2a: real,
    exp: E,
    e: spec_fn(real) -> real,
    i: int,
)
    requires
        !(-1real / 1000000000real < sigma < 1real / 1000000000real),
        computes(exp, e),
        is_exponential(e),
        are_exponentials(ea, e2a, sigma, exp),
        0 <= i < x.len(),
        ({
            let alpha = 1695real / 1000real / sigma;
            let a = e(-alpha);
            1real + 2real * alpha * a - a * a != 0real
        }),
    ensures
        ({
            let alpha = 1695real / 1000real / sigma;
            let a = e(-alpha);
            second_order_smoothed(x, sigma, ea, e2a)[i] * (1real + 2real * alpha * a - a * a) == (
            1real - a) * (1real - a) * sum_to(
                x.len(),
                |j: int| decaying(e, alpha, gap(i, j)) * x[j],
            )
        }),
{
    let alpha = 1695real / 1000real / sigma;
    let a = e(-alpha);
    law_negligible(sigma);
    lemma_computed_exponentials(ea, e2a, sigma, exp, e);
    assert(decay(sigma) == alpha);
    law_second_order_is_convolution(x, alpha, a, i);
    let c = second_order(alpha, a, a * a);
    let k = c.a1;
    let d = 1real + 2real * alpha * a - a * a;
    let rest = 1real - a;
    lemma_div_mul(rest * rest, d);
    assert(k * d == rest * rest);
    let g = second_order_kernel(k, alpha, a);
    lemma_convolution_is_sum(g, x, i, x.len());
    let f = |j: int| decaying(e, alpha, gap(i, j)) * x[j];
    let h = |j: int| g(distance(i, j)) * x[j];
    assert forall|j: int| 0 <= j < x.len() implies #[trigger] h(j) == k * f(j) by {
        let n = distance(i, j);
        assert(n as real == gap(i, j));
        lemma_power(e, alpha, n);
        lemma_associate(k, decaying(e, alpha, gap(i, j)), x[j]);
    }
    lemma_sum_times(x.len(), f, k, h);
    let sum = sum_to(x.len(), f);
    lemma_commute(k, sum);
    lemma_associate(sum, k, d);
    lemma_commute(sum, rest * rest);
    assert(second_order_smoothed(x, sigma, ea, e2a)[i] == k * sum);
}

/// What a call of the filter does to a signal: one whose deviation counts as zero leaves it as it
/// is, and any other smooths it with the exponential kernel.
pub proof fn law_second_order_filter<E: Fn(real) -> real>(
    y: Seq<real>,
    x: Seq<real>,
    sigma: real,
    exp: E,
    e: spec_fn(real) -> real,
)
    requires
        computes(exp, e),
        is_exponential(e),
        is_second_order_result(y, x, sigma, exp),
        ({
            let alpha = 1695real / 1000real / sigma;
            let a = e(-alpha);
            -1real / 1000000000real < sigma < 1real / 1000000000real || 1real + 2real * alpha * a
                - a * a != 0real
        }),
    ensures
        y.len() == x.len(),
        -1real / 1000000000real < sigma < 1real / 1000000000real ==> y == x,
        !(-1real / 1000000000real < sigma < 1real / 1000000000real) ==> ({
            let alpha = 1695real / 1000real / sigma;
            let a = e(-alpha);
            forall|i: int|
                0 <= i < x.len() ==> #[trigger] y[i] * (1real + 2real * alpha * a - a * a) == (1real
                    - a) * (1real - a) * sum_to(
                    x.len(),
                    |j: int| decaying(e, alpha, gap(i, j)) * x[j],
                )
        }),
{
    law_negligible(sigma);
    if !negligible(sigma) && x.len() > 0 {
        let (ea, e2a) = choose|ea: real, e2a: real|
            are_exponentials(ea, e2a, sigma, exp) && y == #[trigger] second_order_smoothed(
                x,
                sigma,
                ea,
                e2a,
            );
        let alpha = 1695real / 1000real / sigma;
        let a = e(-alpha);
        assert forall|i: int| 0 <= i < x.len() implies #[trigger] y[i] * (1real + 2real * alpha * a
            - a * a) == (1real - a) * (1real - a) * sum_to(
            x.len(),
            |j: int| decaying(e, alpha, gap(i, j)) * x[j],
        ) by {
            law_second_order_smoothing(x, sigma, ea, e2a, exp, e, i);
        }
    }
}

} // verus!
