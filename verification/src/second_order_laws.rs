//! What the second-order filter computes, in exact arithmetic.
use vstd::prelude::*;

use crate::convolution::{convolution, distance, lemma_two_passes};
use crate::reals::{
    lemma_associate, lemma_commute, lemma_distribute, lemma_div_mul, lemma_negate, lemma_units,
};
use crate::scalar::Arith;
use crate::second_order::{backward, filtered, forward, second_order, SecondOrder};

verus! {

/// Whether the anticausal pass mirrors the causal one.
pub open spec fn mirrors(c: SecondOrder<real>) -> bool {
    &&& c.a3 == c.a2 + c.b1 * c.a1
    &&& c.a4 == c.b2 * c.a1
}

/// The coefficients of the anticausal pass are made to mirror those of the causal one.
pub proof fn law_second_order_mirrors(alpha: real, ea: real, e2a: real)
    ensures
        mirrors(second_order(alpha, ea, e2a)),
{
    let c = second_order(alpha, ea, e2a);
    let k = c.a1;
    let one = 1real;
    lemma_distribute(alpha, one, k * ea);
    lemma_units(k * ea);
    lemma_associate(2real, ea, k);
    lemma_commute(k, ea);
    lemma_negate(k, e2a);
    lemma_negate(e2a, k);
    lemma_commute(k, e2a);
}

/// The anticausal pass mirrors the causal one: run on the signal it gives what the causal pass
/// gives on the reversed signal, less the share of the current sample.
pub proof fn law_second_order_passes_mirror(x: Seq<real>, c: SecondOrder<real>, i: int)
    requires
        mirrors(c),
        0 <= i < x.len(),
    ensures
        backward(x, c, i) == forward(x.reverse(), c, x.len() - 1 - i) - c.a1 * x[i],
    decreases x.len() - i,
{
    let r = x.reverse();
    let j = x.len() - 1 - i;
    assert(r[j] == x[i]);
    if j >= 1 {
        law_second_order_passes_mirror(x, c, i + 1);
        assert(r[j - 1] == x[i + 1]);
        let near = forward(r, c, j - 1);
        let v = x[i + 1];
        lemma_distribute(c.a2, c.b1 * c.a1, v);
        lemma_distribute(near, c.a1 * v, c.b1);
        lemma_associate(c.b1, c.a1, v);
        if j >= 2 {
            law_second_order_passes_mirror(x, c, i + 2);
            assert(r[j - 2] == x[i + 2]);
            let far = forward(r, c, j - 2);
            let w = x[i + 2];
            lemma_distribute(far, c.a1 * w, c.b2);
            lemma_associate(c.b2, c.a1, w);
        } else {
            assert(near == c.a1 * v);
        }
    }
}

/// The power with a whole exponent.
pub open spec fn power(a: real, n: nat) -> real
    decreases n,
{
    if n == 0 {
        1real
    } else {
        a * power(a, (n - 1) as nat)
    }
}

/// The kernel of the filter at the distance `n`: `k (1 + alpha n) ea^n`.
pub open spec fn second_order_kernel(k: real, alpha: real, ea: real) -> spec_fn(nat) -> real {
    |n: nat| k * ((1real + alpha * (n as real)) * power(ea, n))
}

/// The kernel follows the recurrence of the causal pass.
proof fn lemma_kernel_recurrence(k: real, alpha: real, ea: real, n: nat)
    requires
        n >= 2,
    ensures
        second_order_kernel(k, alpha, ea)(n) == (2real * ea) * second_order_kernel(
            k,
            alpha,
            ea,
        )((n - 1) as nat) - (ea * ea) * second_order_kernel(k, alpha, ea)((n - 2) as nat),
{
    let p = power(ea, (n - 2) as nat);
    let m = (n - 2) as real;
    let t = 1real + alpha * m;
    assert(power(ea, (n - 1) as nat) == ea * p);
    assert(power(ea, n) == ea * (ea * p));
    // The three factors in front of the powers are an arithmetic progression.
    assert(1real + alpha * ((n - 1) as real) == t + alpha) by {
        lemma_distribute(m, 1real, alpha);
        lemma_units(alpha);
    }
    assert(1real + alpha * (n as real) == t + alpha + alpha) by {
        lemma_distribute(m, 2real, alpha);
    }
    let e = ea * ea;
    let g0 = k * (t * p);
    let u = k * (alpha * p);
    // With e in front, the kernel is e (g0 + 2 u), 2 e (g0 + u) and e g0.
    lemma_associate(ea, ea, p);
    let q = e * p;
    assert(k * ((t + alpha + alpha) * q) == e * g0 + 2real * (e * u)) by {
        lemma_distribute(t + alpha, alpha, q);
        lemma_distribute(t, alpha, q);
        lemma_distribute(t * q + alpha * q, alpha * q, k);
        lemma_distribute(t * q, alpha * q, k);
        lemma_move(k, t, e, p);
        lemma_move(k, alpha, e, p);
    }
    assert((2real * ea) * (k * ((t + alpha) * (ea * p))) == 2real * (e * g0) + 2real * (e * u)) by {
        let r = ea * p;
        lemma_distribute(t, alpha, r);
        lemma_distribute(t * r, alpha * r, k);
        lemma_move(k, t, ea, p);
        lemma_move(k, alpha, ea, p);
        lemma_distribute(ea * g0, ea * u, 2real * ea);
        lemma_associate(2real, ea, ea * g0);
        lemma_associate(2real, ea, ea * u);
        lemma_associate(ea, ea, g0);
        lemma_associate(ea, ea, u);
    }
}

/// `k * (t * (e * p)) == e * (k * (t * p))`.
proof fn lemma_move(k: real, t: real, e: real, p: real)
    ensures
        k * (t * (e * p)) == e * (k * (t * p)),
{
    lemma_associate(t, e, p);
    lemma_commute(t, e);
    lemma_associate(e, t, p);
    lemma_associate(k, e, t * p);
    lemma_commute(k, e);
    lemma_associate(e, k, t * p);
}

/// Samples that lie two or more places back follow the recurrence together.
proof fn lemma_convolution_recurrence(
    x: Seq<real>,
    k: real,
    alpha: real,
    ea: real,
    i: int,
    n: nat,
)
    requires
        n <= i - 1,
    ensures
        convolution(second_order_kernel(k, alpha, ea), x, i, n) == (2real * ea) * convolution(
            second_order_kernel(k, alpha, ea),
            x,
            i - 1,
            n,
        ) - (ea * ea) * convolution(second_order_kernel(k, alpha, ea), x, i - 2, n),
    decreases n,
{
    let g = second_order_kernel(k, alpha, ea);
    let (b, d) = (2real * ea, ea * ea);
    if n == 0 {
        lemma_units(b);
        lemma_units(d);
    } else {
        let m = (n - 1) as nat;
        lemma_convolution_recurrence(x, k, alpha, ea, i, m);
        let at = (i - m) as nat;
        lemma_kernel_recurrence(k, alpha, ea, at);
        let (g1, g2) = (g((at - 1) as nat), g((at - 2) as nat));
        let v = x[n - 1];
        assert(distance(i, n - 1) == at);
        assert(distance(i - 1, n - 1) == at - 1);
        assert(distance(i - 2, n - 1) == at - 2);
        lemma_distribute(b * g1, d * g2, v);
        lemma_associate(b, g1, v);
        lemma_associate(d, g2, v);
        lemma_distribute(convolution(g, x, i - 1, m), g1 * v, b);
        lemma_distribute(convolution(g, x, i - 2, m), g2 * v, d);
    }
}

/// The kernel at the distances zero and one.
proof fn lemma_kernel_start(alpha: real, ea: real)
    ensures
        ({
            let c = second_order(alpha, ea, ea * ea);
            let g = second_order_kernel(c.a1, alpha, ea);
            g(0) == c.a1 && g(1) == c.a2 + c.b1 * c.a1
        }),
{
    let c = second_order(alpha, ea, ea * ea);
    let k = c.a1;
    assert(power(ea, 0) == 1real);
    assert(power(ea, 1) == ea * power(ea, 0));
    lemma_units(alpha);
    lemma_units(k);
    lemma_units(ea);
    assert((1real + alpha * 0real) * 1real == 1real);
    lemma_distribute(1real, alpha, ea);
    lemma_distribute(ea, alpha * ea, k);
    lemma_distribute(alpha, 1real, k * ea);
    lemma_units(k * ea);
    lemma_associate(k, ea, alpha);
    lemma_commute(ea, alpha);
    lemma_associate(2real, ea, k);
    lemma_commute(ea, k);
}

/// The causal pass convolves the signal with the right half of the kernel.
pub proof fn law_forward_is_convolution(x: Seq<real>, alpha: real, ea: real, i: int)
    requires
        0 <= i < x.len(),
    ensures
        ({
            let c = second_order(alpha, ea, ea * ea);
            forward(x, c, i) == convolution(
                second_order_kernel(c.a1, alpha, ea),
                x,
                i,
                (i + 1) as nat,
            )
        }),
    decreases i,
{
    let c = second_order(alpha, ea, ea * ea);
    let g = second_order_kernel(c.a1, alpha, ea);
    lemma_kernel_start(alpha, ea);
    assert(distance(i, i) == 0);
    if i == 0 {
        assert(convolution(g, x, 0, 0) == 0real);
        assert(convolution(g, x, 0, 1) == g(0) * x[0]);
    } else {
        law_forward_is_convolution(x, alpha, ea, i - 1);
        let v = x[i - 1];
        assert(distance(i, i - 1) == 1);
        assert(distance(i - 1, i - 1) == 0);
        let far = (i - 1) as nat;
        lemma_convolution_recurrence(x, c.a1, alpha, ea, i, far);
        let (n1, n2) = (convolution(g, x, i - 1, far), convolution(g, x, i - 2, far));
        assert(convolution(g, x, i - 1, i as nat) == n1 + g(0) * v);
        assert(convolution(g, x, i, i as nat) == convolution(g, x, i, far) + g(1) * v);
        lemma_distribute(c.a2, c.b1 * c.a1, v);
        lemma_distribute(n1, c.a1 * v, c.b1);
        lemma_associate(c.b1, c.a1, v);
        if i >= 2 {
            law_forward_is_convolution(x, alpha, ea, i - 2);
            lemma_negate(ea * ea, n2);
        } else {
            assert(n2 == 0real);
            lemma_units(ea * ea);
        }
    }
}

/// The filter convolves the signal with the kernel: the sample at `i` becomes the sum of
/// `k (1 + alpha |i - j|) ea^|i - j| x[j]` over all samples.
pub proof fn law_second_order_is_convolution(x: Seq<real>, alpha: real, ea: real, i: int)
    requires
        0 <= i < x.len(),
    ensures
        ({
            let c = second_order(alpha, ea, ea * ea);
            filtered(x, c)[i] == convolution(
                second_order_kernel(c.a1, alpha, ea),
                x,
                i,
                x.len(),
            )
        }),
{
    let c = second_order(alpha, ea, ea * ea);
    let g = second_order_kernel(c.a1, alpha, ea);
    law_second_order_mirrors(alpha, ea, ea * ea);
    law_second_order_passes_mirror(x, c, i);
    law_forward_is_convolution(x, alpha, ea, i);
    law_forward_is_convolution(x.reverse(), alpha, ea, x.len() - 1 - i);
    lemma_two_passes(g, x, i);
    lemma_kernel_start(alpha, ea);
}

/// The weights of the samples and those of the results sum to one.
proof fn lemma_weights_sum_to_one(alpha: real, ea: real)
    requires
        1real + 2real * alpha * ea - ea * ea != 0real,
    ensures
        ({
            let c = second_order(alpha, ea, ea * ea);
            c.a1 + c.a2 + c.a3 + c.a4 == 1real - c.b1 - c.b2
        }),
{
    let c = second_order(alpha, ea, ea * ea);
    let k = c.a1;
    let d = 1real + 2real * alpha * ea - ea * ea;
    let rest = 1real - ea;
    lemma_div_mul(rest * rest, d);
    assert(k * d == rest * rest);
    // k (1 + ea (alpha - 1) + ea (alpha + 1) - ea^2) == k d
    let ke = k * ea;
    lemma_distribute(alpha, 1real, ke);
    lemma_units(ke);
    lemma_negate(k, ea * ea);
    assert(k * d == k + 2real * (ke * alpha) - k * (ea * ea)) by {
        lemma_distribute(1real + 2real * alpha * ea, ea * ea, k);
        lemma_distribute(1real, 2real * alpha * ea, k);
        lemma_units(k);
        lemma_associate(2real, alpha, ea);
        lemma_move(k, 2real, 1real, alpha * ea);
        lemma_associate(k, 2real, alpha * ea);
        lemma_commute(k, 2real);
        lemma_associate(2real, k, alpha * ea);
        lemma_commute(alpha, ea);
        lemma_associate(k, ea, alpha);
    }
    // (1 - ea)^2 == 1 - 2 ea + ea^2
    assert(rest * rest == 1real - 2real * ea + ea * ea) by {
        lemma_distribute(1real, ea, rest);
        lemma_distribute(1real, ea, ea);
        lemma_units(rest);
        lemma_units(ea);
    }
}

/// The filter has the gain one: where both passes over the constant signal `v` have settled, on
/// `before` and on `after`, they sum to `v`.
pub proof fn law_second_order_has_unit_gain(
    alpha: real,
    ea: real,
    v: real,
    before: real,
    after: real,
)
    requires
        1real + 2real * alpha * ea - ea * ea != 0real,
        ({
            let c = second_order(alpha, ea, ea * ea);
            &&& c.b1 + c.b2 != 1real
            &&& before == c.a1 * v + c.a2 * v + c.b1 * before + c.b2 * before
            &&& after == c.a3 * v + c.a4 * v + c.b1 * after + c.b2 * after
        }),
    ensures
        before + after == v,
{
    let c = second_order(alpha, ea, ea * ea);
    lemma_weights_sum_to_one(alpha, ea);
    let y = before + after;
    let rest = 1real - c.b1 - c.b2;
    lemma_distribute(c.a1, c.a2, v);
    lemma_distribute(c.a3, c.a4, v);
    lemma_distribute(c.a1 + c.a2, c.a3 + c.a4, v);
    lemma_distribute(before, after, c.b1);
    lemma_distribute(before, after, c.b2);
    lemma_distribute(1real - c.b1, c.b2, y);
    lemma_distribute(1real, c.b1, y);
    lemma_units(y);
    assert(rest * y == rest * v);
    assert(y == v) by (nonlinear_arith)
        requires
            rest * y == rest * v,
            rest != 0real,
    ;
}

} // verus!
