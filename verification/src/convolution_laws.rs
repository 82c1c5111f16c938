//! The fourth-order filter is a convolution, in exact arithmetic.
//!
//! The expansion of the sum of exponentials into a rational function loses nothing: the two
//! passes together convolve the signal with the sum of exponentials, mirrored and sampled at whole
//! numbers.
use vstd::prelude::*;

use crate::complex::{
    complex_one, complex_power, complex_zero, lemma_complex_associate, lemma_complex_commute,
    lemma_complex_distribute, lemma_complex_units,
};
use crate::convolution::{convolution, distance, lemma_two_passes};
use crate::deriche::{
    alpha, anticausal, anticausal_step, b_plus, causal, causal_step, complex_opposite,
    complex_product, complex_sum, feed, feed_ahead, feedback, gaussian_scale, mirrored_numerator,
    numerator, pole_product, smoothed,
};
use crate::deriche_laws::{
    all_real, conjugate_pairs, law_denominator_is_real, lemma_pole_last, lemma_pole_product,
    lemma_room, less_product,
};
use crate::reals::{lemma_associate, lemma_commute, lemma_distribute, lemma_negate, lemma_units};
use crate::scalar::{negligible, Arith};

verus! {

/// The sample at `j`, with zeros outside of the signal.
pub open spec fn sample(x: Seq<real>, j: int) -> (real, real) {
    if 0 <= j < x.len() {
        (x[j], 0real)
    } else {
        complex_zero()
    }
}

/// The signal filtered with the single pole `p`: `w[i] = x[i] + p w[i - 1]`.
pub open spec fn one_pole(x: Seq<real>, p: (real, real), i: int) -> (real, real)
    decreases i + 1,
{
    if i < 0 {
        complex_zero()
    } else {
        complex_sum(sample(x, i), complex_product(p, one_pole(x, p, i - 1)))
    }
}

/// The sum over the first `n` poles of `alpha_k` times the signal filtered with that pole.
pub open spec fn combined(x: Seq<real>, poles: Seq<(real, real)>, i: int, n: nat) -> (real, real)
    decreases n,
{
    if n == 0 {
        complex_zero()
    } else {
        complex_sum(
            combined(x, poles, i, (n - 1) as nat),
            complex_product(alpha(n - 1), one_pole(x, poles[n - 1], i)),
        )
    }
}

/// The sum of `c[m] s(i - m)` over the first `n` coefficients.
pub open spec fn taps(
    c: Seq<(real, real)>,
    s: spec_fn(int) -> (real, real),
    i: int,
    n: nat,
) -> (real, real)
    decreases n,
{
    if n == 0 {
        complex_zero()
    } else {
        complex_sum(taps(c, s, i, (n - 1) as nat), complex_product(c[n - 1], s(i - (n - 1))))
    }
}

/// A pole that the coefficients hold undoes the filter with that pole, up to what is still
/// underway.
proof fn lemma_taps_one_pole(
    c: Seq<(real, real)>,
    q: Seq<(real, real)>,
    p: (real, real),
    x: Seq<real>,
    i: int,
    n: nat,
)
    requires
        1 <= n <= c.len(),
        c.len() == q.len(),
        i < x.len(),
        c[0] == q[0],
        forall|m: int| 1 <= m < c.len() ==> #[trigger] c[m] == less_product(q[m], p, q[m - 1]),
    ensures
        taps(c, |j: int| one_pole(x, p, j), i, n) == complex_sum(
            taps(q, |j: int| sample(x, j), i, n),
            complex_product(complex_product(q[n - 1], p), one_pole(x, p, i - n)),
        ),
    decreases n,
{
    let w = |j: int| one_pole(x, p, j);
    let xs = |j: int| sample(x, j);
    let last = (n - 1) as int;
    let now = w(i - last);
    let input = xs(i - last);
    let past = w(i - last - 1);
    assert(now == complex_sum(input, complex_product(p, past))) by {
        if i - last < 0 {
            lemma_complex_units(p, p);
        }
    }
    lemma_complex_distribute(q[last], input, complex_product(p, past));
    lemma_complex_associate(q[last], p, past);
    if n == 1 {
        assert(taps(c, w, i, 0) == complex_zero());
        assert(taps(q, xs, i, 0) == complex_zero());
    } else {
        lemma_taps_one_pole(c, q, p, x, i, (n - 1) as nat);
        let before = q[last - 1];
        lemma_complex_distribute(now, q[last], complex_product(before, complex_opposite(p)));
        lemma_complex_units(before, p);
        lemma_complex_units(complex_product(before, p), now);
        assert(c[last] == less_product(q[last], p, before));
    }
}

/// Taps are linear in the signal.
proof fn lemma_taps_signal(
    c: Seq<(real, real)>,
    f: spec_fn(int) -> (real, real),
    g: spec_fn(int) -> (real, real),
    h: spec_fn(int) -> (real, real),
    a: (real, real),
    i: int,
    n: nat,
)
    requires
        forall|j: int| #[trigger] h(j) == complex_sum(f(j), complex_product(a, g(j))),
    ensures
        taps(c, h, i, n) == complex_sum(
            taps(c, f, i, n),
            complex_product(a, taps(c, g, i, n)),
        ),
    decreases n,
{
    if n == 0 {
        lemma_complex_units(a, a);
    } else {
        lemma_taps_signal(c, f, g, h, a, i, (n - 1) as nat);
        let j = i - (n - 1);
        let k = c[n - 1];
        assert(h(j) == complex_sum(f(j), complex_product(a, g(j))));
        lemma_complex_distribute(k, f(j), complex_product(a, g(j)));
        lemma_complex_associate(k, a, g(j));
        lemma_complex_commute(k, a);
        lemma_complex_associate(a, k, g(j));
        lemma_complex_distribute(a, taps(c, g, i, (n - 1) as nat), complex_product(k, g(j)));
    }
}

/// Taps are linear in the coefficients.
proof fn lemma_taps_coefficients(
    c: Seq<(real, real)>,
    d: Seq<(real, real)>,
    e: Seq<(real, real)>,
    a: (real, real),
    s: spec_fn(int) -> (real, real),
    i: int,
    n: nat,
)
    requires
        forall|m: int|
            0 <= m < n ==> #[trigger] e[m] == complex_sum(c[m], complex_product(a, d[m])),
    ensures
        taps(e, s, i, n) == complex_sum(
            taps(c, s, i, n),
            complex_product(a, taps(d, s, i, n)),
        ),
    decreases n,
{
    if n == 0 {
        lemma_complex_units(a, a);
    } else {
        lemma_taps_coefficients(c, d, e, a, s, i, (n - 1) as nat);
        let m = n - 1;
        let v = s(i - m);
        assert(e[m] == complex_sum(c[m], complex_product(a, d[m])));
        lemma_complex_distribute(v, c[m], complex_product(a, d[m]));
        lemma_complex_associate(a, d[m], v);
        lemma_complex_distribute(
            a,
            taps(d, s, i, (n - 1) as nat),
            complex_product(d[m], v),
        );
    }
}

/// Taps with equal coefficients are equal.
proof fn lemma_taps_same(
    c: Seq<(real, real)>,
    d: Seq<(real, real)>,
    s: spec_fn(int) -> (real, real),
    i: int,
    n: nat,
)
    requires
        forall|m: int| 0 <= m < n ==> #[trigger] c[m] == d[m],
    ensures
        taps(c, s, i, n) == taps(d, s, i, n),
    decreases n,
{
    if n > 0 {
        lemma_taps_same(c, d, s, i, (n - 1) as nat);
        assert(c[n - 1] == d[n - 1]);
    }
}

/// The denominator, applied to the signal filtered with one of the poles, is the product over the
/// other poles, applied to the signal.
proof fn lemma_denominator_on_one_pole(poles: Seq<(real, real)>, x: Seq<real>, i: int, k: int)
    requires
        poles.len() == 4,
        0 <= k < 4,
        i < x.len(),
    ensures
        taps(pole_product(poles, 5), |j: int| one_pole(x, poles[k], j), i, 5) == taps(
            pole_product(poles.remove(k), 4),
            |j: int| sample(x, j),
            i,
            4,
        ),
{
    let others = poles.remove(k);
    let p = poles[k];
    let all = others.push(p);
    let xs = |j: int| sample(x, j);
    lemma_pole_last(poles, k, 5);
    assert(all.drop_last() =~= others);
    let c = pole_product(poles, 5);
    let q = pole_product(others, 5);
    lemma_pole_product(others, 5);
    lemma_pole_product(all, 5);
    lemma_taps_one_pole(c, q, p, x, i, 5);
    assert(q[4] == complex_zero());
    lemma_complex_units(p, p);
    lemma_complex_units(one_pole(x, p, i - 5), p);
    lemma_complex_units(xs(i - 4), p);
    assert(taps(q, xs, i, 5) == taps(q, xs, i, 4));
    lemma_room(others);
    lemma_pole_product(others, 4);
    lemma_taps_same(pole_product(others, 4), q, xs, i, 4);
}

/// The denominator, applied to the combined signals, is the numerator, applied to the signal.
proof fn lemma_denominator_on_combined(
    poles: Seq<(real, real)>,
    x: Seq<real>,
    i: int,
    n: nat,
)
    requires
        poles.len() == 4,
        n <= 4,
        i < x.len(),
    ensures
        taps(pole_product(poles, 5), |j: int| combined(x, poles, j, n), i, 5) == taps(
            numerator(poles, n),
            |j: int| sample(x, j),
            i,
            4,
        ),
    decreases n,
{
    let d = pole_product(poles, 5);
    let xs = |j: int| sample(x, j);
    let h = |j: int| combined(x, poles, j, n);
    if n == 0 {
        lemma_taps_zero_signal(d, h, i, 5);
        lemma_taps_zero_coefficients(numerator(poles, 0), xs, i, 4);
    } else {
        let k = n - 1;
        let f = |j: int| combined(x, poles, j, k as nat);
        let g = |j: int| one_pole(x, poles[k], j);
        lemma_denominator_on_combined(poles, x, i, k as nat);
        lemma_denominator_on_one_pole(poles, x, i, k);
        lemma_taps_signal(d, f, g, h, alpha(k), i, 5);
        lemma_taps_coefficients(
            numerator(poles, k as nat),
            pole_product(poles.remove(k), 4),
            numerator(poles, n),
            alpha(k),
            xs,
            i,
            4,
        );
    }
}

/// Taps of a zero signal are zero.
proof fn lemma_taps_zero_signal(
    c: Seq<(real, real)>,
    s: spec_fn(int) -> (real, real),
    i: int,
    n: nat,
)
    requires
        forall|j: int| #[trigger] s(j) == complex_zero(),
    ensures
        taps(c, s, i, n) == complex_zero(),
    decreases n,
{
    if n > 0 {
        lemma_taps_zero_signal(c, s, i, (n - 1) as nat);
        lemma_complex_units(c[n - 1], c[n - 1]);
    }
}

/// Taps with zero coefficients are zero.
proof fn lemma_taps_zero_coefficients(
    c: Seq<(real, real)>,
    s: spec_fn(int) -> (real, real),
    i: int,
    n: nat,
)
    requires
        forall|m: int| 0 <= m < n ==> #[trigger] c[m] == complex_zero(),
    ensures
        taps(c, s, i, n) == complex_zero(),
    decreases n,
{
    if n > 0 {
        lemma_taps_zero_coefficients(c, s, i, (n - 1) as nat);
        lemma_complex_units(s(i - (n - 1)), complex_zero());
        assert(c[n - 1] == complex_zero());
    }
}

/// Nothing comes before the first sample.
proof fn lemma_combined_before(x: Seq<real>, poles: Seq<(real, real)>, i: int, n: nat)
    requires
        i < 0,
    ensures
        combined(x, poles, i, n) == complex_zero(),
    decreases n,
{
    if n > 0 {
        lemma_combined_before(x, poles, i, (n - 1) as nat);
        lemma_complex_units(alpha(n - 1), complex_zero());
    }
}

/// `(a * s) * v == s * (a * v)` and `a * (s * v) == s * (a * v)`.
proof fn lemma_pull_out(a: real, s: real, v: real)
    ensures
        (a * s) * v == s * (a * v),
        a * (s * v) == s * (a * v),
{
    lemma_associate(a, s, v);
    lemma_associate(s, a, v);
    lemma_commute(a, s);
}

/// The real part of the denominator applied to the combined signals.
proof fn lemma_real_taps(c: Seq<(real, real)>, s: spec_fn(int) -> (real, real), i: int)
    requires
        c.len() == 5,
        all_real(c),
        c[0] == complex_one(),
    ensures
        taps(c, s, i, 5).0 == s(i).0 + c[1].0 * s(i - 1).0 + c[2].0 * s(i - 2).0 + c[3].0 * s(
            i - 3,
        ).0 + c[4].0 * s(i - 4).0,
{
    reveal_with_fuel(taps, 6);
    assert(c[1].1 == 0real && c[2].1 == 0real && c[3].1 == 0real && c[4].1 == 0real);
    lemma_units(s(i).0);
    lemma_units(s(i).1);
    lemma_units(s(i - 1).1);
    lemma_units(s(i - 2).1);
    lemma_units(s(i - 3).1);
    lemma_units(s(i - 4).1);
}

/// The real part of the numerator applied to the signal.
proof fn lemma_sample_taps(c: Seq<(real, real)>, x: Seq<real>, i: int)
    requires
        c.len() == 4,
    ensures
        taps(c, |j: int| sample(x, j), i, 4).0 == c[0].0 * sample(x, i).0 + c[1].0 * sample(
            x,
            i - 1,
        ).0 + c[2].0 * sample(x, i - 2).0 + c[3].0 * sample(x, i - 3).0,
{
    reveal_with_fuel(taps, 5);
    lemma_units(c[0].1);
    lemma_units(c[1].1);
    lemma_units(c[2].1);
    lemma_units(c[3].1);
}

/// What the result `n` places back adds to the causal pass.
proof fn lemma_feedback_term(
    x: Seq<real>,
    poles: Seq<(real, real)>,
    sigma: real,
    pi: real,
    i: int,
    n: int,
)
    requires
        conjugate_pairs(poles),
        0 <= i < x.len(),
        1 <= n <= 4,
    ensures
        (pole_product(poles, 5)[n].0 * combined(x, poles, i - n, 4).0) * gaussian_scale(sigma, pi)
            == if i >= n {
            feedback(poles)[n - 1] * causal(
                x,
                b_plus(poles, sigma, pi),
                feedback(poles),
                i - n,
            )
        } else {
            0real
        },
    decreases i, 0int,
{
    let d = pole_product(poles, 5)[n].0;
    let s = gaussian_scale(sigma, pi);
    let y = combined(x, poles, i - n, 4).0;
    if i >= n {
        lemma_causal_is_combined(x, poles, sigma, pi, i - n);
        lemma_pull_out(d, s, y);
        lemma_commute(d * y, s);
    } else {
        lemma_combined_before(x, poles, i - n, 4);
        lemma_units(d);
        lemma_units(s);
    }
}

/// The causal pass is the combined signals, scaled.
proof fn lemma_causal_is_combined(
    x: Seq<real>,
    poles: Seq<(real, real)>,
    sigma: real,
    pi: real,
    i: int,
)
    requires
        conjugate_pairs(poles),
        0 <= i < x.len(),
    ensures
        causal(x, b_plus(poles, sigma, pi), feedback(poles), i) == gaussian_scale(sigma, pi)
            * combined(x, poles, i, 4).0,
    decreases i, 1int,
{
    let b = b_plus(poles, sigma, pi);
    let a = feedback(poles);
    let s = gaussian_scale(sigma, pi);
    let num = numerator(poles, 4);
    let den = pole_product(poles, 5);
    let y = |j: int| combined(x, poles, j, 4);
    law_denominator_is_real(poles);
    lemma_pole_product(poles, 5);
    lemma_denominator_on_combined(poles, x, i, 4);
    lemma_real_taps(den, y, i);
    lemma_sample_taps(num, x, i);
    // The feed.
    reveal_with_fuel(feed, 5);
    let (x0, x1, x2, x3) = (
        sample(x, i).0,
        sample(x, i - 1).0,
        sample(x, i - 2).0,
        sample(x, i - 3).0,
    );
    lemma_pull_out(num[0].0, s, x0);
    lemma_pull_out(num[1].0, s, x1);
    lemma_pull_out(num[2].0, s, x2);
    lemma_pull_out(num[3].0, s, x3);
    let fed0 = s * (num[0].0 * x0);
    let fed1 = s * (num[1].0 * x1);
    let fed2 = s * (num[2].0 * x2);
    let fed3 = s * (num[3].0 * x3);
    lemma_units(num[1].0);
    lemma_units(num[2].0);
    lemma_units(num[3].0);
    lemma_units(s);
    assert(feed(x, b, i, 4) == fed0 + fed1 + fed2 + fed3);
    // The feedback.
    lemma_feedback_term(x, poles, sigma, pi, i, 1);
    lemma_feedback_term(x, poles, sigma, pi, i, 2);
    lemma_feedback_term(x, poles, sigma, pi, i, 3);
    lemma_feedback_term(x, poles, sigma, pi, i, 4);
    let (d1, d2, d3, d4) = (
        den[1].0 * y(i - 1).0,
        den[2].0 * y(i - 2).0,
        den[3].0 * y(i - 3).0,
        den[4].0 * y(i - 4).0,
    );
    assert(causal_step(x, b, a, i, 0) == feed(x, b, i, 4));
    assert(causal_step(x, b, a, i, 1) == causal_step(x, b, a, i, 0) - d1 * s);
    assert(causal_step(x, b, a, i, 2) == causal_step(x, b, a, i, 1) - d2 * s);
    assert(causal_step(x, b, a, i, 3) == causal_step(x, b, a, i, 2) - d3 * s);
    assert(causal_step(x, b, a, i, 4) == causal_step(x, b, a, i, 3) - d4 * s);
    assert(causal(x, b, a, i) == causal_step(x, b, a, i, 4));
    let (n0, n1, n2, n3) = (num[0].0 * x0, num[1].0 * x1, num[2].0 * x2, num[3].0 * x3);
    assert(y(i).0 == n0 + n1 + n2 + n3 - d1 - d2 - d3 - d4);
    assert(s * y(i).0 == s * n0 + s * n1 + s * n2 + s * n3 - d1 * s - d2 * s - d3 * s - d4 * s) by {
        lemma_distribute(n0, n1, s);
        lemma_distribute(n0 + n1, n2, s);
        lemma_distribute(n0 + n1 + n2, n3, s);
        lemma_distribute(n0 + n1 + n2 + n3, d1, s);
        lemma_distribute(n0 + n1 + n2 + n3 - d1, d2, s);
        lemma_distribute(n0 + n1 + n2 + n3 - d1 - d2, d3, s);
        lemma_distribute(n0 + n1 + n2 + n3 - d1 - d2 - d3, d4, s);
        lemma_commute(s, d1);
        lemma_commute(s, d2);
        lemma_commute(s, d3);
        lemma_commute(s, d4);
    }
}

/// The sum of exponentials at `n`: `sum_k alpha_k p_k^n` over the first `m` poles.
pub open spec fn exponential_sum(poles: Seq<(real, real)>, n: nat, m: nat) -> (real, real)
    decreases m,
{
    if m == 0 {
        complex_zero()
    } else {
        complex_sum(
            exponential_sum(poles, n, (m - 1) as nat),
            complex_product(alpha(m - 1), complex_power(poles[m - 1], n)),
        )
    }
}

/// The kernel of the filter at the distance `n`.
pub open spec fn kernel(poles: Seq<(real, real)>, sigma: real, pi: real, n: nat) -> real {
    gaussian_scale(sigma, pi) * exponential_sum(poles, n, 4).0
}

/// The kernel of the filter, as a function of the distance.
pub open spec fn kernel_fn(poles: Seq<(real, real)>, sigma: real, pi: real) -> spec_fn(
    nat,
) -> real {
    |n: nat| kernel(poles, sigma, pi, n)
}

/// The sum of `p^(i - j) x[j]` over the first `n` samples.
spec fn history(x: Seq<real>, p: (real, real), i: int, n: nat) -> (real, real)
    decreases n,
{
    if n == 0 {
        complex_zero()
    } else {
        complex_sum(
            history(x, p, i, (n - 1) as nat),
            complex_product(complex_power(p, (i - (n - 1)) as nat), sample(x, n - 1)),
        )
    }
}

/// A step on multiplies the history by the pole.
proof fn lemma_history_step(x: Seq<real>, p: (real, real), i: int, n: nat)
    requires
        n <= i,
    ensures
        complex_product(p, history(x, p, i - 1, n)) == history(x, p, i, n),
    decreases n,
{
    if n == 0 {
        lemma_complex_units(p, p);
    } else {
        lemma_history_step(x, p, i, (n - 1) as nat);
        let j = n - 1;
        let power = complex_power(p, (i - 1 - j) as nat);
        lemma_complex_distribute(
            p,
            history(x, p, i - 1, j as nat),
            complex_product(power, sample(x, j)),
        );
        lemma_complex_associate(p, power, sample(x, j));
        assert(complex_power(p, (i - j) as nat) == complex_product(p, power));
    }
}

/// The signal filtered with one pole is its history.
proof fn lemma_one_pole_history(x: Seq<real>, p: (real, real), i: int)
    requires
        -1 <= i,
    ensures
        one_pole(x, p, i) == history(x, p, i, (i + 1) as nat),
    decreases i + 1,
{
    if i >= 0 {
        lemma_one_pole_history(x, p, i - 1);
        lemma_history_step(x, p, i, i as nat);
        assert(complex_power(p, 0) == complex_one());
        lemma_complex_units(sample(x, i), sample(x, i));
    }
}

/// The sum over the first `m` poles of `alpha_k` times the history with that pole.
spec fn combined_history(
    x: Seq<real>,
    poles: Seq<(real, real)>,
    i: int,
    n: nat,
    m: nat,
) -> (real, real)
    decreases m,
{
    if m == 0 {
        complex_zero()
    } else {
        complex_sum(
            combined_history(x, poles, i, n, (m - 1) as nat),
            complex_product(alpha(m - 1), history(x, poles[m - 1], i, n)),
        )
    }
}

/// The combined signals are the combined histories.
proof fn lemma_combined_is_history(x: Seq<real>, poles: Seq<(real, real)>, i: int, m: nat)
    requires
        0 <= i,
    ensures
        combined(x, poles, i, m) == combined_history(x, poles, i, (i + 1) as nat, m),
    decreases m,
{
    if m > 0 {
        lemma_combined_is_history(x, poles, i, (m - 1) as nat);
        lemma_one_pole_history(x, poles[m - 1], i);
    }
}

/// One more sample adds the sum of exponentials times the sample.
proof fn lemma_history_sample(x: Seq<real>, poles: Seq<(real, real)>, i: int, n: nat, m: nat)
    requires
        n >= 1,
    ensures
        combined_history(x, poles, i, n, m) == complex_sum(
            combined_history(x, poles, i, (n - 1) as nat, m),
            complex_product(
                exponential_sum(poles, (i - (n - 1)) as nat, m),
                sample(x, n - 1),
            ),
        ),
    decreases m,
{
    let v = sample(x, n - 1);
    let e = (i - (n - 1)) as nat;
    if m == 0 {
        lemma_complex_units(v, v);
    } else {
        lemma_history_sample(x, poles, i, n, (m - 1) as nat);
        let a = alpha(m - 1);
        let p = poles[m - 1];
        let power = complex_power(p, e);
        lemma_complex_distribute(
            a,
            history(x, p, i, (n - 1) as nat),
            complex_product(power, v),
        );
        lemma_complex_associate(a, power, v);
        lemma_complex_distribute(
            v,
            exponential_sum(poles, e, (m - 1) as nat),
            complex_product(a, power),
        );
    }
}

/// The combined histories, scaled, are the convolution.
proof fn lemma_history_is_convolution(
    x: Seq<real>,
    poles: Seq<(real, real)>,
    sigma: real,
    pi: real,
    i: int,
    n: nat,
)
    requires
        n <= i + 1,
        n <= x.len(),
    ensures
        gaussian_scale(sigma, pi) * combined_history(x, poles, i, n, 4).0 == convolution(
            kernel_fn(poles, sigma, pi),
            x,
            i,
            n,
        ),
    decreases n,
{
    let s = gaussian_scale(sigma, pi);
    lemma_units(s);
    if n == 0 {
        lemma_empty_history(x, poles, i, 4);
    } else {
        lemma_history_is_convolution(x, poles, sigma, pi, i, (n - 1) as nat);
        lemma_history_sample(x, poles, i, n, 4);
        let e = exponential_sum(poles, (i - (n - 1)) as nat, 4);
        let v = x[n - 1];
        lemma_units(e.1);
        lemma_distribute(combined_history(x, poles, i, (n - 1) as nat, 4).0, e.0 * v, s);
        lemma_associate(s, e.0, v);
    }
}

/// Without samples there is no history.
proof fn lemma_empty_history(x: Seq<real>, poles: Seq<(real, real)>, i: int, m: nat)
    ensures
        combined_history(x, poles, i, 0, m) == complex_zero(),
    decreases m,
{
    if m > 0 {
        lemma_empty_history(x, poles, i, (m - 1) as nat);
        lemma_complex_units(alpha(m - 1), complex_zero());
    }
}

/// The causal pass convolves the signal with the right half of the kernel.
pub proof fn law_causal_is_convolution(
    x: Seq<real>,
    poles: Seq<(real, real)>,
    sigma: real,
    pi: real,
    i: int,
)
    requires
        conjugate_pairs(poles),
        0 <= i < x.len(),
    ensures
        causal(x, b_plus(poles, sigma, pi), feedback(poles), i) == convolution(
            kernel_fn(poles, sigma, pi),
            x,
            i,
            (i + 1) as nat,
        ),
{
    lemma_causal_is_combined(x, poles, sigma, pi, i);
    lemma_combined_is_history(x, poles, i, 4);
    lemma_history_is_convolution(x, poles, sigma, pi, i, (i + 1) as nat);
}

/// What the result `n` places on adds to the anticausal pass.
proof fn lemma_mirror_term(x: Seq<real>, b: Seq<real>, a: Seq<real>, i: int, n: int)
    requires
        b.len() == 4,
        a.len() == 4,
        0 <= i < x.len(),
        1 <= n <= 4,
    ensures
        (if i + n < x.len() {
            a[n - 1] * anticausal(x, mirrored_numerator(b, a), a, i + n)
        } else {
            0real
        }) == (if x.len() - 1 - i >= n {
            a[n - 1] * causal(x.reverse(), b, a, x.len() - 1 - i - n)
        } else {
            0real
        }) - (a[n - 1] * b[0]) * sample(x, i + n).0,
    decreases x.len() - i, 0int,
{
    if i + n < x.len() {
        law_passes_mirror(x, b, a, i + n);
        let c = causal(x.reverse(), b, a, x.len() - 1 - i - n);
        lemma_distribute(c, b[0] * x[i + n], a[n - 1]);
        lemma_associate(a[n - 1], b[0], x[i + n]);
    } else {
        lemma_units(a[n - 1] * b[0]);
    }
}

/// The anticausal pass mirrors the causal one: run on the signal it gives what the causal pass
/// gives on the reversed signal, less the share of the current sample.
pub proof fn law_passes_mirror(x: Seq<real>, b: Seq<real>, a: Seq<real>, i: int)
    requires
        b.len() == 4,
        a.len() == 4,
        0 <= i < x.len(),
    ensures
        anticausal(x, mirrored_numerator(b, a), a, i) == causal(
            x.reverse(),
            b,
            a,
            x.len() - 1 - i,
        ) - b[0] * x[i],
    decreases x.len() - i, 1int,
{
    let bm = mirrored_numerator(b, a);
    let r = x.reverse();
    let j = x.len() - 1 - i;
    let (x0, x1, x2, x3, x4) = (
        x[i],
        sample(x, i + 1).0,
        sample(x, i + 2).0,
        sample(x, i + 3).0,
        sample(x, i + 4).0,
    );
    lemma_mirror_term(x, b, a, i, 1);
    lemma_mirror_term(x, b, a, i, 2);
    lemma_mirror_term(x, b, a, i, 3);
    lemma_mirror_term(x, b, a, i, 4);
    lemma_units(b[1]);
    lemma_units(b[2]);
    lemma_units(b[3]);
    lemma_units(bm[1]);
    lemma_units(bm[2]);
    lemma_units(bm[3]);
    lemma_units(bm[4]);
    // The causal pass on the reversed signal.
    assert(feed(r, b, j, 0) == 0real);
    assert(feed(r, b, j, 1) == feed(r, b, j, 0) + b[0] * x0);
    assert(feed(r, b, j, 2) == feed(r, b, j, 1) + b[1] * x1);
    assert(feed(r, b, j, 3) == feed(r, b, j, 2) + b[2] * x2);
    assert(feed(r, b, j, 4) == feed(r, b, j, 3) + b[3] * x3);
    assert(causal_step(r, b, a, j, 0) == feed(r, b, j, 4));
    let c1 = causal_step(r, b, a, j, 0) - causal_step(r, b, a, j, 1);
    let c2 = causal_step(r, b, a, j, 1) - causal_step(r, b, a, j, 2);
    let c3 = causal_step(r, b, a, j, 2) - causal_step(r, b, a, j, 3);
    let c4 = causal_step(r, b, a, j, 3) - causal_step(r, b, a, j, 4);
    assert(causal(r, b, a, j) == causal_step(r, b, a, j, 4));
    // The anticausal pass on the signal.
    assert(feed_ahead(x, bm, i, 1) == 0real);
    assert(feed_ahead(x, bm, i, 2) == feed_ahead(x, bm, i, 1) + bm[1] * x1);
    assert(feed_ahead(x, bm, i, 3) == feed_ahead(x, bm, i, 2) + bm[2] * x2);
    assert(feed_ahead(x, bm, i, 4) == feed_ahead(x, bm, i, 3) + bm[3] * x3);
    assert(feed_ahead(x, bm, i, 5) == feed_ahead(x, bm, i, 4) + bm[4] * x4);
    assert(anticausal_step(x, bm, a, i, 0) == feed_ahead(x, bm, i, 5));
    assert(anticausal_step(x, bm, a, i, 1) == anticausal_step(x, bm, a, i, 0) - (c1 - (a[0]
        * b[0]) * x1));
    assert(anticausal_step(x, bm, a, i, 2) == anticausal_step(x, bm, a, i, 1) - (c2 - (a[1]
        * b[0]) * x2));
    assert(anticausal_step(x, bm, a, i, 3) == anticausal_step(x, bm, a, i, 2) - (c3 - (a[2]
        * b[0]) * x3));
    assert(anticausal_step(x, bm, a, i, 4) == anticausal_step(x, bm, a, i, 3) - (c4 - (a[3]
        * b[0]) * x4));
    assert(anticausal(x, bm, a, i) == anticausal_step(x, bm, a, i, 4));
    // The numerators.
    lemma_distribute(b[1], a[0] * b[0], x1);
    lemma_distribute(b[2], a[1] * b[0], x2);
    lemma_distribute(b[3], a[2] * b[0], x3);
    lemma_negate(a[3], b[0]);
    lemma_negate(a[3] * b[0], x4);
}

/// The kernel at zero is the share of the current sample.
proof fn lemma_kernel_at_zero(poles: Seq<(real, real)>, sigma: real, pi: real)
    requires
        poles.len() == 4,
    ensures
        kernel(poles, sigma, pi, 0) == b_plus(poles, sigma, pi)[0],
{
    reveal_with_fuel(numerator, 5);
    reveal_with_fuel(exponential_sum, 5);
    lemma_pole_product(poles.remove(0), 4);
    lemma_pole_product(poles.remove(1), 4);
    lemma_pole_product(poles.remove(2), 4);
    lemma_pole_product(poles.remove(3), 4);
    assert(complex_power(poles[0], 0) == complex_one());
    assert(complex_power(poles[1], 0) == complex_one());
    assert(complex_power(poles[2], 0) == complex_one());
    assert(complex_power(poles[3], 0) == complex_one());
    assert(numerator(poles, 4)[0] == exponential_sum(poles, 0, 4));
    lemma_commute(gaussian_scale(sigma, pi), numerator(poles, 4)[0].0);
}

/// Smoothing convolves the signal with the kernel: the sample at `i` becomes the sum of
/// `kernel(|i - j|) x[j]` over all samples, where
/// `kernel(n) = 1 / sqrt(2 pi sigma^2) * sum_k alpha_k p_k^n`.
pub proof fn law_smoothing_is_convolution(
    x: Seq<real>,
    poles: Seq<(real, real)>,
    sigma: real,
    pi: real,
    i: int,
)
    requires
        conjugate_pairs(poles),
        !negligible(sigma),
        0 <= i < x.len(),
    ensures
        smoothed(x, sigma, pi, poles)[i] == convolution(
            kernel_fn(poles, sigma, pi),
            x,
            i,
            x.len(),
        ),
{
    let b = b_plus(poles, sigma, pi);
    let a = feedback(poles);
    let j = x.len() - 1 - i;
    law_causal_is_convolution(x, poles, sigma, pi, i);
    law_passes_mirror(x, b, a, i);
    law_causal_is_convolution(x.reverse(), poles, sigma, pi, j);
    lemma_two_passes(kernel_fn(poles, sigma, pi), x, i);
    lemma_kernel_at_zero(poles, sigma, pi);
}

} // verus!
