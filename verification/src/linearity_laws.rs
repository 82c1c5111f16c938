//! The filters are linear and have no preferred direction, in exact arithmetic.
use vstd::prelude::*;

use crate::convolution::{convolution, distance};
use crate::convolution_laws::law_passes_mirror;
use crate::deriche::{
    anticausal, anticausal_step, b_plus, causal, causal_step, feed, feed_ahead, feedback,
    mirrored_numerator, smoothed, two_pass,
};
use crate::reals::{
    lemma_associate, lemma_commute, lemma_distribute, lemma_div_order, lemma_product_sign,
    lemma_tiny, lemma_units,
};
use crate::scalar::{negligible, Arith};
use crate::second_order::{
    backward, decay, filtered, forward, second_order, second_order_smoothed, SecondOrder,
};
use crate::second_order_laws::{
    law_second_order_is_convolution, law_second_order_mirrors, law_second_order_passes_mirror,
    power, second_order_kernel,
};

verus! {

/// The signal `p s + q t`.
pub open spec fn mixed<T: Arith>(s: Seq<T>, t: Seq<T>, p: T, q: T) -> Seq<T> {
    Seq::new(s.len(), |i: int| p.times(s[i]).plus(q.times(t[i])))
}

/// A factor moves into a mixture.
proof fn lemma_factor_moves(c: real, s: real, t: real, p: real, q: real)
    ensures
        c * (p * s + q * t) == p * (c * s) + q * (c * t),
{
    lemma_distribute(p * s, q * t, c);
    lemma_associate(c, p, s);
    lemma_commute(c, p);
    lemma_associate(p, c, s);
    lemma_associate(c, q, t);
    lemma_commute(c, q);
    lemma_associate(q, c, t);
}

/// A sample of a mixed signal adds what the samples add, mixed.
proof fn lemma_mixed_plus(a: real, b: real, c: real, s: real, t: real, p: real, q: real)
    ensures
        (p * a + q * b) + c * (p * s + q * t) == p * (a + c * s) + q * (b + c * t),
{
    lemma_factor_moves(c, s, t, p, q);
    lemma_distribute(a, c * s, p);
    lemma_distribute(b, c * t, q);
}

/// A sample of a mixed signal takes away what the samples take away, mixed.
proof fn lemma_mixed_minus(a: real, b: real, c: real, s: real, t: real, p: real, q: real)
    ensures
        (p * a + q * b) - c * (p * s + q * t) == p * (a - c * s) + q * (b - c * t),
{
    lemma_factor_moves(c, s, t, p, q);
    lemma_distribute(a, c * s, p);
    lemma_distribute(b, c * t, q);
}

/// A mixed signal feeds what the signals feed, mixed.
proof fn lemma_mixed_feed(
    s: Seq<real>,
    t: Seq<real>,
    p: real,
    q: real,
    b: Seq<real>,
    i: int,
    n: nat,
)
    requires
        s.len() == t.len(),
    ensures
        feed(mixed(s, t, p, q), b, i, n) == p * feed(s, b, i, n) + q * feed(t, b, i, n),
        feed_ahead(mixed(s, t, p, q), b, i, n) == p * feed_ahead(s, b, i, n) + q * feed_ahead(
            t,
            b,
            i,
            n,
        ),
    decreases n,
{
    if n == 0 {
        lemma_units(p);
        lemma_units(q);
    } else {
        let m = (n - 1) as nat;
        lemma_mixed_feed(s, t, p, q, b, i, m);
        let back = i - (n - 1);
        let ahead = i + (n - 1);
        lemma_mixed_plus(feed(s, b, i, m), feed(t, b, i, m), b[n - 1], s[back], t[back], p, q);
        lemma_mixed_plus(
            feed_ahead(s, b, i, m),
            feed_ahead(t, b, i, m),
            b[n - 1],
            s[ahead],
            t[ahead],
            p,
            q,
        );
        lemma_units(p);
        lemma_units(q);
    }
}

/// The causal pass over a mixed signal mixes the passes.
proof fn lemma_mixed_causal(
    s: Seq<real>,
    t: Seq<real>,
    p: real,
    q: real,
    b: Seq<real>,
    a: Seq<real>,
    i: int,
    n: nat,
)
    requires
        s.len() == t.len(),
        0 <= i,
    ensures
        causal_step(mixed(s, t, p, q), b, a, i, n) == p * causal_step(s, b, a, i, n) + q
            * causal_step(t, b, a, i, n),
    decreases i, n,
{
    if n == 0 {
        lemma_mixed_feed(s, t, p, q, b, i, b.len());
    } else {
        let m = (n - 1) as nat;
        lemma_mixed_causal(s, t, p, q, b, a, i, m);
        if i >= n {
            lemma_mixed_causal(s, t, p, q, b, a, i - n, a.len());
            let (u, v) = (causal(s, b, a, i - n), causal(t, b, a, i - n));
            assert(causal(mixed(s, t, p, q), b, a, i - n) == p * u + q * v);
            lemma_mixed_minus(
                causal_step(s, b, a, i, m),
                causal_step(t, b, a, i, m),
                a[n - 1],
                u,
                v,
                p,
                q,
            );
        }
    }
}

/// The anticausal pass over a mixed signal mixes the passes.
proof fn lemma_mixed_anticausal(
    s: Seq<real>,
    t: Seq<real>,
    p: real,
    q: real,
    b: Seq<real>,
    a: Seq<real>,
    i: int,
    n: nat,
)
    requires
        s.len() == t.len(),
        i < s.len(),
    ensures
        anticausal_step(mixed(s, t, p, q), b, a, i, n) == p * anticausal_step(s, b, a, i, n) + q
            * anticausal_step(t, b, a, i, n),
    decreases s.len() - i, n,
{
    if n == 0 {
        lemma_mixed_feed(s, t, p, q, b, i, b.len());
    } else {
        let m = (n - 1) as nat;
        lemma_mixed_anticausal(s, t, p, q, b, a, i, m);
        if i + n < s.len() {
            lemma_mixed_anticausal(s, t, p, q, b, a, i + n, a.len());
            let (u, v) = (anticausal(s, b, a, i + n), anticausal(t, b, a, i + n));
            assert(anticausal(mixed(s, t, p, q), b, a, i + n) == p * u + q * v);
            lemma_mixed_minus(
                anticausal_step(s, b, a, i, m),
                anticausal_step(t, b, a, i, m),
                a[n - 1],
                u,
                v,
                p,
                q,
            );
        }
    }
}

/// `(p a + q b) + (p c + q d) == p (a + c) + q (b + d)`.
proof fn lemma_mixed_sums(a: real, b: real, c: real, d: real, p: real, q: real)
    ensures
        (p * a + q * b) + (p * c + q * d) == p * (a + c) + q * (b + d),
{
    lemma_distribute(a, c, p);
    lemma_distribute(b, d, q);
}

/// The fourth-order filter is linear.
pub proof fn law_smoothing_is_linear(
    s: Seq<real>,
    t: Seq<real>,
    p: real,
    q: real,
    sigma: real,
    pi: real,
    poles: Seq<(real, real)>,
)
    requires
        s.len() == t.len(),
    ensures
        smoothed(mixed(s, t, p, q), sigma, pi, poles) == mixed(
            smoothed(s, sigma, pi, poles),
            smoothed(t, sigma, pi, poles),
            p,
            q,
        ),
{
    if !negligible(sigma) {
        let b = b_plus(poles, sigma, pi);
        let a = feedback(poles);
        let m = mirrored_numerator(b, a);
        let x = mixed(s, t, p, q);
        let goal = mixed(two_pass(s, b, m, a), two_pass(t, b, m, a), p, q);
        assert forall|i: int| 0 <= i < s.len() implies two_pass(x, b, m, a)[i]
            == #[trigger] goal[i] by {
            lemma_mixed_causal(s, t, p, q, b, a, i, a.len());
            lemma_mixed_anticausal(s, t, p, q, m, a, i, a.len());
            assert(causal(x, b, a, i) == p * causal(s, b, a, i) + q * causal(t, b, a, i));
            assert(anticausal(x, m, a, i) == p * anticausal(s, m, a, i) + q * anticausal(
                t,
                m,
                a,
                i,
            ));
            lemma_mixed_sums(
                causal(s, b, a, i),
                causal(t, b, a, i),
                anticausal(s, m, a, i),
                anticausal(t, m, a, i),
                p,
                q,
            );
        }
        assert(two_pass(x, b, m, a) =~= goal);
    }
}

/// The fourth-order filter has no preferred direction: the reversed signal becomes the reversed
/// result.
pub proof fn law_smoothing_commutes_with_reversal(
    x: Seq<real>,
    sigma: real,
    pi: real,
    poles: Seq<(real, real)>,
)
    ensures
        smoothed(x.reverse(), sigma, pi, poles) == smoothed(x, sigma, pi, poles).reverse(),
{
    if !negligible(sigma) {
        let b = b_plus(poles, sigma, pi);
        let a = feedback(poles);
        let m = mirrored_numerator(b, a);
        let r = x.reverse();
        assert(r.reverse() =~= x);
        let (left, right) = (two_pass(r, b, m, a), two_pass(x, b, m, a).reverse());
        assert forall|i: int| 0 <= i < x.len() implies left[i] == #[trigger] right[i] by {
            let j = x.len() - 1 - i;
            law_passes_mirror(x, b, a, j);
            law_passes_mirror(r, b, a, i);
            assert(r[i] == x[j]);
        }
        assert(left =~= right);
    }
}

/// The causal pass of the second order over a mixed signal mixes the passes.
proof fn lemma_mixed_forward(
    s: Seq<real>,
    t: Seq<real>,
    p: real,
    q: real,
    c: SecondOrder<real>,
    i: int,
)
    requires
        s.len() == t.len(),
        0 <= i < s.len(),
    ensures
        forward(mixed(s, t, p, q), c, i) == p * forward(s, c, i) + q * forward(t, c, i),
    decreases i,
{
    let x = mixed(s, t, p, q);
    lemma_mixed_plus(0real, 0real, c.a1, s[i], t[i], p, q);
    lemma_units(p);
    lemma_units(q);
    if i >= 1 {
        lemma_mixed_forward(s, t, p, q, c, i - 1);
        let (u, v) = (c.a1 * s[i], c.a1 * t[i]);
        lemma_mixed_plus(u, v, c.a2, s[i - 1], t[i - 1], p, q);
        let (d, e) = (u + c.a2 * s[i - 1], v + c.a2 * t[i - 1]);
        let (f, g) = (forward(s, c, i - 1), forward(t, c, i - 1));
        lemma_mixed_plus(d, e, c.b1, f, g, p, q);
        if i >= 2 {
            lemma_mixed_forward(s, t, p, q, c, i - 2);
            lemma_mixed_plus(
                d + c.b1 * f,
                e + c.b1 * g,
                c.b2,
                forward(s, c, i - 2),
                forward(t, c, i - 2),
                p,
                q,
            );
        }
    }
}

/// The anticausal pass of the second order over a mixed signal mixes the passes.
proof fn lemma_mixed_backward(
    s: Seq<real>,
    t: Seq<real>,
    p: real,
    q: real,
    c: SecondOrder<real>,
    i: int,
)
    requires
        s.len() == t.len(),
        0 <= i < s.len(),
    ensures
        backward(mixed(s, t, p, q), c, i) == p * backward(s, c, i) + q * backward(t, c, i),
    decreases s.len() - i,
{
    lemma_units(p);
    lemma_units(q);
    if i + 1 < s.len() {
        lemma_mixed_plus(0real, 0real, c.a3, s[i + 1], t[i + 1], p, q);
        if i + 2 < s.len() {
            lemma_mixed_backward(s, t, p, q, c, i + 1);
            lemma_mixed_backward(s, t, p, q, c, i + 2);
            let (u, v) = (c.a3 * s[i + 1], c.a3 * t[i + 1]);
            lemma_mixed_plus(u, v, c.a4, s[i + 2], t[i + 2], p, q);
            let (d, e) = (u + c.a4 * s[i + 2], v + c.a4 * t[i + 2]);
            let (f, g) = (backward(s, c, i + 1), backward(t, c, i + 1));
            lemma_mixed_plus(d, e, c.b1, f, g, p, q);
            lemma_mixed_plus(
                d + c.b1 * f,
                e + c.b1 * g,
                c.b2,
                backward(s, c, i + 2),
                backward(t, c, i + 2),
                p,
                q,
            );
        }
    }
}

/// The second-order filter is linear.
pub proof fn law_second_order_is_linear(
    s: Seq<real>,
    t: Seq<real>,
    p: real,
    q: real,
    sigma: real,
    ea: real,
    e2a: real,
)
    requires
        s.len() == t.len(),
    ensures
        second_order_smoothed(mixed(s, t, p, q), sigma, ea, e2a) == mixed(
            second_order_smoothed(s, sigma, ea, e2a),
            second_order_smoothed(t, sigma, ea, e2a),
            p,
            q,
        ),
{
    if !negligible(sigma) {
        let c = second_order(decay(sigma), ea, e2a);
        let x = mixed(s, t, p, q);
        let goal = mixed(filtered(s, c), filtered(t, c), p, q);
        assert forall|i: int| 0 <= i < s.len() implies filtered(x, c)[i] == #[trigger] goal[i] by {
            lemma_mixed_forward(s, t, p, q, c, i);
            lemma_mixed_backward(s, t, p, q, c, i);
            lemma_mixed_sums(
                forward(s, c, i),
                forward(t, c, i),
                backward(s, c, i),
                backward(t, c, i),
                p,
                q,
            );
        }
        assert(filtered(x, c) =~= goal);
    }
}

/// The second-order filter has no preferred direction: the reversed signal becomes the reversed
/// result.
pub proof fn law_second_order_commutes_with_reversal(x: Seq<real>, sigma: real, ea: real, e2a: real)
    ensures
        second_order_smoothed(x.reverse(), sigma, ea, e2a) == second_order_smoothed(
            x,
            sigma,
            ea,
            e2a,
        ).reverse(),
{
    if !negligible(sigma) {
        let c = second_order(decay(sigma), ea, e2a);
        law_second_order_mirrors(decay(sigma), ea, e2a);
        let r = x.reverse();
        assert(r.reverse() =~= x);
        let (left, right) = (filtered(r, c), filtered(x, c).reverse());
        assert forall|i: int| 0 <= i < x.len() implies left[i] == #[trigger] right[i] by {
            let j = x.len() - 1 - i;
            law_second_order_passes_mirror(x, c, j);
            law_second_order_passes_mirror(r, c, i);
            assert(r[i] == x[j]);
        }
        assert(left =~= right);
    }
}

/// Powers of a positive number are positive.
pub proof fn lemma_power_is_positive(a: real, n: nat)
    requires
        a > 0real,
    ensures
        power(a, n) > 0real,
    decreases n,
{
    if n > 0 {
        lemma_power_is_positive(a, (n - 1) as nat);
        lemma_product_sign(a, power(a, (n - 1) as nat));
    }
}

/// The kernel of the second-order filter is positive.
pub proof fn law_second_order_kernel_is_positive(alpha: real, ea: real, n: nat)
    requires
        alpha > 0real,
        0real < ea < 1real,
    ensures
        second_order_kernel(second_order(alpha, ea, ea * ea).a1, alpha, ea)(n) > 0real,
{
    let k = second_order(alpha, ea, ea * ea).a1;
    let rest = 1real - ea;
    let d = 1real + 2real * alpha * ea - ea * ea;
    lemma_product_sign(rest, rest);
    lemma_product_sign(2real * alpha, ea);
    lemma_product_sign(rest, ea);
    lemma_distribute(1real, ea, ea);
    lemma_units(ea);
    assert(d > 0real);
    lemma_div_order(rest * rest, d, 0real);
    lemma_units(d);
    assert(k > 0real);
    lemma_power_is_positive(ea, n);
    lemma_product_sign(alpha, n as real);
    lemma_product_sign(1real + alpha * (n as real), power(ea, n));
    lemma_product_sign(k, (1real + alpha * (n as real)) * power(ea, n));
}

/// A convolution with a kernel without negative values leaves a signal without negative values so.
proof fn lemma_convolution_sign(g: spec_fn(nat) -> real, x: Seq<real>, i: int, n: nat)
    requires
        n <= x.len(),
        forall|d: nat| #[trigger] g(d) >= 0real,
        forall|j: int| 0 <= j < x.len() ==> #[trigger] x[j] >= 0real,
    ensures
        convolution(g, x, i, n) >= 0real,
    decreases n,
{
    if n > 0 {
        lemma_convolution_sign(g, x, i, (n - 1) as nat);
        assert(g(distance(i, n - 1)) >= 0real);
        assert(x[n - 1] >= 0real);
        lemma_product_sign(g(distance(i, n - 1)), x[n - 1]);
    }
}

/// The second-order filter leaves a signal without negative values without negative values.
pub proof fn law_second_order_keeps_sign(x: Seq<real>, sigma: real, ea: real)
    requires
        sigma >= 0real,
        0real < ea < 1real,
        forall|j: int| 0 <= j < x.len() ==> #[trigger] x[j] >= 0real,
    ensures
        second_order_smoothed(x, sigma, ea, ea * ea).len() == x.len(),
        forall|i: int|
            0 <= i < x.len() ==> #[trigger] second_order_smoothed(x, sigma, ea, ea * ea)[i]
                >= 0real,
{
    if !negligible(sigma) {
        lemma_tiny();
        let alpha = decay(sigma);
        let c = second_order(alpha, ea, ea * ea);
        let g = second_order_kernel(c.a1, alpha, ea);
        let r = 1695real / 1000real;
        lemma_div_order(r, sigma, 0real);
        lemma_units(sigma);
        assert(alpha > 0real);
        assert forall|d: nat| #[trigger] g(d) >= 0real by {
            law_second_order_kernel_is_positive(alpha, ea, d);
        }
        assert forall|i: int| 0 <= i < x.len() implies #[trigger] second_order_smoothed(
            x,
            sigma,
            ea,
            ea * ea,
        )[i] >= 0real by {
            law_second_order_is_convolution(x, alpha, ea, i);
            lemma_convolution_sign(g, x, i, x.len());
        }
    }
}

} // verus!
