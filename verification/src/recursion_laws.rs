//! The equations that the passes of the filters solve, in exact arithmetic.
use vstd::prelude::*;

use crate::deriche::{anticausal, anticausal_step, causal, causal_step, feed, feed_ahead, two_pass};
use crate::scalar::Arith;
use crate::second_order::{backward, filtered, forward, SecondOrder};
use crate::sums::sum_to;

verus! {

/// The entry of `s` at `i`, and zero where there is none.
pub open spec fn at(s: Seq<real>, i: int) -> real {
    if 0 <= i < s.len() {
        s[i]
    } else {
        0real
    }
}

/// Whether `p` solves the equations of the causal pass over `x`.
pub open spec fn solves_causal(p: Seq<real>, x: Seq<real>, b: Seq<real>, a: Seq<real>) -> bool {
    &&& p.len() == x.len()
    &&& forall|i: int|
        0 <= i < x.len() ==> #[trigger] p[i] == sum_to(b.len(), |k: int| b[k] * at(x, i - k))
            - sum_to(a.len(), |k: int| a[k] * at(p, i - k - 1))
}

/// Whether `m` solves the equations of the anticausal pass over `x`, in which the first tap has no
/// part.
pub open spec fn solves_anticausal(
    m: Seq<real>,
    x: Seq<real>,
    b: Seq<real>,
    a: Seq<real>,
) -> bool {
    &&& m.len() == x.len()
    &&& forall|i: int|
        0 <= i < x.len() ==> #[trigger] m[i] == sum_to(
            b.len(),
            |k: int|
                if k == 0 {
                    0real
                } else {
                    b[k] * at(x, i + k)
                },
        ) - sum_to(a.len(), |k: int| a[k] * at(m, i + k + 1))
}

/// The taps of the causal pass add up.
proof fn lemma_feed(x: Seq<real>, b: Seq<real>, i: int, n: nat)
    ensures
        feed(x, b, i, n) == sum_to(n, |k: int| b[k] * at(x, i - k)),
    decreases n,
{
    if n > 0 {
        lemma_feed(x, b, i, (n - 1) as nat);
        lemma_times_zero(b[n - 1]);
    }
}

/// `a * 0 == 0`.
proof fn lemma_times_zero(a: real)
    by (nonlinear_arith)
    ensures
        a * 0real == 0real,
{
}

/// The causal pass takes off what its own entries before give.
proof fn lemma_causal_step(x: Seq<real>, b: Seq<real>, a: Seq<real>, p: Seq<real>, i: int, n: nat)
    requires
        p == Seq::new(x.len(), |i: int| causal(x, b, a, i)),
        0 <= i < x.len(),
    ensures
        causal_step(x, b, a, i, n) == sum_to(b.len(), |k: int| b[k] * at(x, i - k)) - sum_to(
            n,
            |k: int| a[k] * at(p, i - k - 1),
        ),
    decreases n,
{
    if n == 0 {
        lemma_feed(x, b, i, b.len());
    } else {
        lemma_causal_step(x, b, a, p, i, (n - 1) as nat);
        lemma_times_zero(a[n - 1]);
    }
}

/// The taps of the anticausal pass add up.
proof fn lemma_feed_ahead(x: Seq<real>, b: Seq<real>, i: int, n: nat)
    requires
        i >= 0,
    ensures
        feed_ahead(x, b, i, n) == sum_to(
            n,
            |k: int|
                if k == 0 {
                    0real
                } else {
                    b[k] * at(x, i + k)
                },
        ),
    decreases n,
{
    let f = |k: int|
        if k == 0 {
            0real
        } else {
            b[k] * at(x, i + k)
        };
    if n == 1 {
        assert(sum_to(1, f) == sum_to(0, f) + f(0));
    } else if n > 1 {
        lemma_feed_ahead(x, b, i, (n - 1) as nat);
        lemma_times_zero(b[n - 1]);
    }
}

/// The anticausal pass takes off what its own entries behind give.
proof fn lemma_anticausal_step(
    x: Seq<real>,
    b: Seq<real>,
    a: Seq<real>,
    m: Seq<real>,
    i: int,
    n: nat,
)
    requires
        m == Seq::new(x.len(), |i: int| anticausal(x, b, a, i)),
        0 <= i < x.len(),
    ensures
        anticausal_step(x, b, a, i, n) == sum_to(
            b.len(),
            |k: int|
                if k == 0 {
                    0real
                } else {
                    b[k] * at(x, i + k)
                },
        ) - sum_to(n, |k: int| a[k] * at(m, i + k + 1)),
    decreases n,
{
    if n == 0 {
        lemma_feed_ahead(x, b, i, b.len());
    } else {
        lemma_anticausal_step(x, b, a, m, i, (n - 1) as nat);
        lemma_times_zero(a[n - 1]);
    }
}

/// The filter with any coefficients is the sum of two passes: the causal one solves
/// `p[i] = sum_k b[k] x[i - k] - sum_k a[k] p[i - k - 1]`, the anticausal one
/// `m[i] = sum_k b[k] x[i + k] - sum_k a[k] m[i + k + 1]` without the first tap, with zeros before the
/// first sample and behind the last.
pub proof fn law_two_passes(x: Seq<real>, bp: Seq<real>, bm: Seq<real>, a: Seq<real>)
    ensures
        two_pass(x, bp, bm, a).len() == x.len(),
        exists|p: Seq<real>, m: Seq<real>|
            {
                &&& #[trigger] solves_causal(p, x, bp, a)
                &&& #[trigger] solves_anticausal(m, x, bm, a)
                &&& forall|i: int|
                    0 <= i < x.len() ==> #[trigger] two_pass(x, bp, bm, a)[i] == p[i] + m[i]
            },
{
    let p = Seq::new(x.len(), |i: int| causal(x, bp, a, i));
    let m = Seq::new(x.len(), |i: int| anticausal(x, bm, a, i));
    assert forall|i: int| 0 <= i < x.len() implies #[trigger] p[i] == sum_to(
        bp.len(),
        |k: int| bp[k] * at(x, i - k),
    ) - sum_to(a.len(), |k: int| a[k] * at(p, i - k - 1)) by {
        lemma_causal_step(x, bp, a, p, i, a.len());
    }
    assert forall|i: int| 0 <= i < x.len() implies #[trigger] m[i] == sum_to(
        bm.len(),
        |k: int|
            if k == 0 {
                0real
            } else {
                bm[k] * at(x, i + k)
            },
    ) - sum_to(a.len(), |k: int| a[k] * at(m, i + k + 1)) by {
        lemma_anticausal_step(x, bm, a, m, i, a.len());
    }
    assert(solves_causal(p, x, bp, a));
    assert(solves_anticausal(m, x, bm, a));
}

/// Whether `p` solves the equations of the causal pass of the second order over `x`.
pub open spec fn solves_forward(p: Seq<real>, x: Seq<real>, c: SecondOrder<real>) -> bool {
    &&& p.len() == x.len()
    &&& forall|i: int|
        0 <= i < x.len() ==> #[trigger] p[i] == c.a1 * at(x, i) + c.a2 * at(x, i - 1) + c.b1 * at(
            p,
            i - 1,
        ) + c.b2 * at(p, i - 2)
}

/// Whether `m` solves the equations of the anticausal pass of the second order over `x`.
pub open spec fn solves_backward(m: Seq<real>, x: Seq<real>, c: SecondOrder<real>) -> bool {
    &&& m.len() == x.len()
    &&& forall|i: int|
        0 <= i < x.len() ==> #[trigger] m[i] == c.a3 * at(x, i + 1) + c.a4 * at(x, i + 2) + c.b1
            * at(m, i + 1) + c.b2 * at(m, i + 2)
}

/// The filter of the second order with any coefficients is the sum of two passes: the causal one
/// solves `p[i] = a1 x[i] + a2 x[i - 1] + b1 p[i - 1] + b2 p[i - 2]`, the anticausal one
/// `m[i] = a3 x[i + 1] + a4 x[i + 2] + b1 m[i + 1] + b2 m[i + 2]`, with zeros before the first sample
/// and behind the last.
pub proof fn law_second_order_passes(x: Seq<real>, c: SecondOrder<real>)
    ensures
        filtered(x, c).len() == x.len(),
        exists|p: Seq<real>, m: Seq<real>|
            {
                &&& #[trigger] solves_forward(p, x, c)
                &&& #[trigger] solves_backward(m, x, c)
                &&& forall|i: int| 0 <= i < x.len() ==> #[trigger] filtered(x, c)[i] == p[i] + m[i]
            },
{
    let p = Seq::new(x.len(), |i: int| forward(x, c, i));
    let m = Seq::new(x.len(), |i: int| backward(x, c, i));
    lemma_times_zero(c.a2);
    lemma_times_zero(c.a3);
    lemma_times_zero(c.a4);
    lemma_times_zero(c.b1);
    lemma_times_zero(c.b2);
    assert forall|i: int| 0 <= i < x.len() implies #[trigger] p[i] == c.a1 * at(x, i) + c.a2 * at(
        x,
        i - 1,
    ) + c.b1 * at(p, i - 1) + c.b2 * at(p, i - 2) by {}
    assert forall|i: int| 0 <= i < x.len() implies #[trigger] m[i] == c.a3 * at(x, i + 1) + c.a4
        * at(x, i + 2) + c.b1 * at(m, i + 1) + c.b2 * at(m, i + 2) by {
        if i == x.len() - 2 {
            assert(backward(x, c, i + 1) == 0real);
        }
    }
    assert(solves_forward(p, x, c));
    assert(solves_backward(m, x, c));
}

} // verus!
