//! What the fourth-order filter is, in exact arithmetic: the convolution with a sum of damped
//! oscillations that is close to the Gaussian.
use vstd::prelude::*;

use crate::complex::complex_power;
use crate::convolution::{convolution, distance};
use crate::convolution_laws::{exponential_sum, kernel_fn, law_smoothing_is_convolution};
use crate::deriche::{
    alpha, are_poles, gaussian_scale, is_fourth_order_result, is_pole, lambda, smoothed,
};
use crate::deriche_laws::{conjugate_pairs, law_poles_are_conjugate, poles_of};
use crate::hat_laws::law_negligible;
use crate::reals::{
    lemma_associate, lemma_cancel, lemma_commute, lemma_distribute, lemma_div_mul, lemma_negate,
    lemma_pair_up, lemma_units,
};
use crate::scalar::{is_root, negligible, Arith};
use crate::sums::{lemma_sum_times, sum_to};

verus! {

/// Whether the executable function `f` computes `g`.
pub open spec fn computes<F: Fn(real) -> real>(f: F, g: spec_fn(real) -> real) -> bool {
    forall|x: real, y: real| #[trigger] f.ensures((x,), y) ==> y == g(x)
}

/// Whether `e` turns sums into products.
#[verifier::opaque]
pub open spec fn is_exponential(e: spec_fn(real) -> real) -> bool {
    &&& e(0real) == 1real
    &&& forall|a: real, b: real| #[trigger] e(a) * #[trigger] e(b) == e(a + b)
}

/// Whether `c` and `s` obey the addition formulas of the cosine and the sine, and are even and odd.
#[verifier::opaque]
pub open spec fn are_circular(c: spec_fn(real) -> real, s: spec_fn(real) -> real) -> bool {
    &&& c(0real) == 1real
    &&& s(0real) == 0real
    &&& forall|a: real, b: real| #[trigger]
        c(a) * #[trigger] c(b) - s(a) * s(b) == c(a + b) && c(a) * s(b) + s(a) * c(b) == s(a + b)
    &&& forall|a: real| #[trigger] c(-a) == c(a)
    &&& forall|a: real| #[trigger] s(-a) == -s(a)
}

/// What an exponential does.
pub proof fn lemma_exponential(e: spec_fn(real) -> real, a: real, b: real)
    requires
        is_exponential(e),
    ensures
        e(0real) == 1real,
        e(a) * e(b) == e(a + b),
{
    reveal(is_exponential);
}

/// What a cosine and a sine do.
pub proof fn lemma_circular(c: spec_fn(real) -> real, s: spec_fn(real) -> real, a: real, b: real)
    requires
        are_circular(c, s),
    ensures
        c(0real) == 1real,
        s(0real) == 0real,
        c(a) * c(b) - s(a) * s(b) == c(a + b),
        c(a) * s(b) + s(a) * c(b) == s(a + b),
        c(-a) == c(a),
        s(-a) == -s(a),
{
    reveal(are_circular);
}

/// The sum of the four damped oscillations at `t`, which stands for `exp(-t^2 / 2)`.
pub open spec fn gaussian_sum(
    e: spec_fn(real) -> real,
    c: spec_fn(real) -> real,
    s: spec_fn(real) -> real,
    t: real,
) -> real {
    let (u, v) = (6318real / 10000real * t, 1997real / 1000real * t);
    let (p, q) = (e(-(1783real / 1000real * t)), e(-(1723real / 1000real * t)));
    168real / 100real * (p * c(u)) + 3735real / 1000real * (p * s(u)) - 6803real / 10000real * (q
        * c(v)) - 2598real / 10000real * (q * s(v))
}

/// The power of a number in polar form.
proof fn lemma_polar_power(
    e: spec_fn(real) -> real,
    c: spec_fn(real) -> real,
    s: spec_fn(real) -> real,
    a: real,
    t: real,
    n: nat,
)
    requires
        is_exponential(e),
        are_circular(c, s),
    ensures
        complex_power((e(a) * c(t), e(a) * s(t)), n) == (
            e(n as real * a) * c(n as real * t),
            e(n as real * a) * s(n as real * t),
        ),
    decreases n,
{
    if n == 0 {
        lemma_exponential(e, 0real, 0real);
        lemma_circular(c, s, 0real, 0real);
        lemma_units(a);
        lemma_units(t);
        lemma_units(1real);
    } else {
        let m = (n - 1) as nat;
        lemma_polar_power(e, c, s, a, t, m);
        let (b, u) = (m as real * a, m as real * t);
        lemma_distribute(m as real, 1real, a);
        lemma_distribute(m as real, 1real, t);
        lemma_units(a);
        lemma_units(t);
        assert(n as real * a == a + b);
        assert(n as real * t == t + u);
        lemma_exponential(e, a, b);
        lemma_circular(c, s, t, u);
        lemma_pair_up(e(a), c(t), e(b), c(u));
        lemma_pair_up(e(a), s(t), e(b), s(u));
        lemma_pair_up(e(a), c(t), e(b), s(u));
        lemma_pair_up(e(a), s(t), e(b), c(u));
        lemma_distribute(c(t) * c(u), s(t) * s(u), e(a + b));
        lemma_distribute(c(t) * s(u), s(t) * c(u), e(a + b));
    }
}

/// A rate over `n` samples.
proof fn lemma_rate(n: nat, r: real, sigma: real)
    requires
        sigma != 0real,
    ensures
        n as real * ((-r) / sigma) == -(r * (n as real / sigma)),
{
    let (k, t) = (n as real, n as real / sigma);
    let q = (-r) / sigma;
    lemma_div_mul(-r, sigma);
    lemma_div_mul(k, sigma);
    lemma_associate(k, q, sigma);
    lemma_associate(r, t, sigma);
    lemma_negate(k, r);
    lemma_negate(r * t, sigma);
    lemma_commute(k, r);
    lemma_cancel(k * q, -(r * t), sigma);
}

/// The poles that functions compute.
pub proof fn lemma_computed_poles<E: Fn(real) -> real, C: Fn(real) -> real, S: Fn(real) -> real>(
    poles: Seq<(real, real)>,
    sigma: real,
    exp: E,
    cos: C,
    sin: S,
    e: spec_fn(real) -> real,
    c: spec_fn(real) -> real,
    s: spec_fn(real) -> real,
)
    requires
        are_poles(poles, sigma, exp, cos, sin),
        computes(exp, e),
        computes(cos, c),
        computes(sin, s),
    ensures
        poles == poles_of(sigma, e, c, s),
{
    let goal = poles_of(sigma, e, c, s);
    assert forall|k: int| 0 <= k < 4 implies poles[k] == #[trigger] goal[k] by {
        assert(is_pole(poles[k], lambda(k), sigma, exp, cos, sin));
    }
    assert(poles =~= goal);
}

/// The constants of the filter.
proof fn lemma_constants()
    ensures
        178300real / 100000real == 1783real / 1000real,
        172300real / 100000real == 1723real / 1000real,
        63180real / 100000real == 6318real / 10000real,
        199700real / 100000real == 1997real / 1000real,
        84000real / 100000real == 84real / 100real,
        186750real / 100000real == 18675real / 10000real,
        12990real / 100000real == 1299real / 10000real,
{
}

/// The sum of exponentials is the sum of the oscillations.
proof fn lemma_exponential_sum(
    sigma: real,
    e: spec_fn(real) -> real,
    c: spec_fn(real) -> real,
    s: spec_fn(real) -> real,
    n: nat,
)
    requires
        sigma != 0real,
        is_exponential(e),
        are_circular(c, s),
    ensures
        exponential_sum(poles_of(sigma, e, c, s), n, 4).0 == gaussian_sum(
            e,
            c,
            s,
            n as real / sigma,
        ),
{
    let poles = poles_of(sigma, e, c, s);
    let t = n as real / sigma;
    let (u, v) = (6318real / 10000real * t, 1997real / 1000real * t);
    let (p, q) = (e(-(1783real / 1000real * t)), e(-(1723real / 1000real * t)));
    assert forall|k: int| 0 <= k < 4 implies complex_power(#[trigger] poles[k], n) == (
        e(-(lambda::<real>(k).0 * t)) * c(-(lambda::<real>(k).1 * t)),
        e(-(lambda::<real>(k).0 * t)) * s(-(lambda::<real>(k).1 * t)),
    ) by {
        let (r, w) = lambda::<real>(k);
        lemma_polar_power(e, c, s, (-r) / sigma, (-w) / sigma, n);
        lemma_rate(n, r, sigma);
        lemma_rate(n, w, sigma);
    }
    let (r0, r1) = (1783real / 1000real, 1723real / 1000real);
    let (w0, w1) = (6318real / 10000real, 1997real / 1000real);
    lemma_constants();
    assert(lambda::<real>(0) == (r0, w0));
    assert(lambda::<real>(1) == (r0, -w0));
    assert(lambda::<real>(2) == (r1, w1));
    assert(lambda::<real>(3) == (r1, -w1));
    let (x0, y0) = (84real / 100real, 18675real / 10000real);
    let (x1, y1) = (34015real / 100000real, 1299real / 10000real);
    assert(alpha::<real>(0) == (x0, y0));
    assert(alpha::<real>(1) == (x0, -y0));
    assert(alpha::<real>(2) == (-x1, -y1));
    assert(alpha::<real>(3) == (-x1, y1));
    let pw = |k: int| complex_power(poles[k], n);
    let sums = |m: nat| exponential_sum(poles, n, m).0;
    reveal_with_fuel(exponential_sum, 2);
    assert(sums(0) == 0real);
    assert(sums(1) == sums(0) + (x0 * pw(0).0 - y0 * pw(0).1));
    assert(sums(2) == sums(1) + (x0 * pw(1).0 - (-y0) * pw(1).1));
    assert(sums(3) == sums(2) + ((-x1) * pw(2).0 - (-y1) * pw(2).1));
    assert(sums(4) == sums(3) + ((-x1) * pw(3).0 - y1 * pw(3).1));
    lemma_negate(w0, t);
    lemma_negate(w1, t);
    lemma_negate(6318real / 10000real, t);
    lemma_negate(1997real / 1000real, t);
    lemma_circular(c, s, u, u);
    lemma_circular(c, s, v, v);
    lemma_negate(p, s(u));
    lemma_negate(q, s(v));
    assert(complex_power(poles[0], n) == (p * c(u), -(p * s(u))));
    assert(complex_power(poles[1], n) == (p * c(u), p * s(u)));
    assert(complex_power(poles[2], n) == (q * c(v), -(q * s(v))));
    assert(complex_power(poles[3], n) == (q * c(v), q * s(v)));
    lemma_negate(y0, p * s(u));
    lemma_negate(x1, q * c(v));
    lemma_negate(y1, q * s(v));
}

/// A convolution is a sum over the samples.
pub proof fn lemma_convolution_is_sum(g: spec_fn(nat) -> real, x: Seq<real>, i: int, n: nat)
    ensures
        convolution(g, x, i, n) == sum_to(n, |j: int| g(distance(i, j)) * x[j]),
    decreases n,
{
    if n > 0 {
        lemma_convolution_is_sum(g, x, i, (n - 1) as nat);
    }
}

/// How far apart two samples are, as a real number.
pub open spec fn gap(i: int, j: int) -> real {
    if i <= j {
        (j - i) as real
    } else {
        (i - j) as real
    }
}

/// What smoothing does: with `root` for the root of `2 pi`, the sample at `i` becomes the sum over
/// all samples of `1 / (root sigma)` times the sum of damped oscillations at their distance, counted
/// in deviations, times the sample, where the functions are an exponential, a cosine and a sine.
pub proof fn law_smoothing_with_oscillations<
    E: Fn(real) -> real,
    C: Fn(real) -> real,
    S: Fn(real) -> real,
>(
    x: Seq<real>,
    sigma: real,
    pi: real,
    root: real,
    poles: Seq<(real, real)>,
    exp: E,
    cos: C,
    sin: S,
    e: spec_fn(real) -> real,
    c: spec_fn(real) -> real,
    s: spec_fn(real) -> real,
    i: int,
)
    requires
        !(-1real / 1000000000real < sigma < 1real / 1000000000real),
        root > 0real,
        root * root == 2real * pi,
        are_poles(poles, sigma, exp, cos, sin),
        computes(exp, e),
        computes(cos, c),
        computes(sin, s),
        is_exponential(e),
        are_circular(c, s),
        0 <= i < x.len(),
    ensures
        smoothed(x, sigma, pi, poles)[i] * (root * sigma) == sum_to(
            x.len(),
            |j: int| gaussian_sum(e, c, s, gap(i, j) / sigma) * x[j],
        ),
{
    law_negligible(sigma);
    lemma_computed_poles(poles, sigma, exp, cos, sin, e, c, s);
    assert(conjugate_pairs(poles)) by {
        assert forall|a: real| #[trigger] c(-a) == c(a) by {
            lemma_circular(c, s, a, a);
        }
        assert forall|a: real| #[trigger] s(-a) == -s(a) by {
            lemma_circular(c, s, a, a);
        }
        law_poles_are_conjugate(sigma, e, c, s);
    }
    law_smoothing_is_convolution(x, poles, sigma, pi, i);
    let g = kernel_fn(poles, sigma, pi);
    lemma_convolution_is_sum(g, x, i, x.len());
    let scale = gaussian_scale(sigma, pi);
    let found = (2real * pi).root();
    assert(is_root(root, 2real * pi));
    assert(is_root(found, 2real * pi));
    assert(found == root) by (nonlinear_arith)
        requires
            found >= 0real,
            root >= 0real,
            found * found == root * root,
    ;
    let d = root * sigma;
    assert(d != 0real) by (nonlinear_arith)
        requires
            d == root * sigma,
            root != 0real,
            sigma != 0real,
    ;
    lemma_div_mul(1real, d);
    let f = |j: int| g(distance(i, j)) * x[j];
    let h = |j: int| gaussian_sum(e, c, s, gap(i, j) / sigma) * x[j];
    assert forall|j: int| 0 <= j < x.len() implies #[trigger] h(j) == d * f(j) by {
        let n = distance(i, j);
        lemma_exponential_sum(sigma, e, c, s, n);
        let v = gaussian_sum(e, c, s, gap(i, j) / sigma);
        assert(n as real == gap(i, j));
        assert(g(n) == scale * v);
        lemma_associate(d, scale, v);
        lemma_units(v);
        lemma_associate(d, scale * v, x[j]);
    }
    lemma_sum_times(x.len(), f, d, h);
    lemma_commute(d, sum_to(x.len(), f));
}

/// What a call of the filter does to a signal: one whose deviation counts as zero leaves it as it
/// is, and any other smooths it with the sum of damped oscillations.
pub proof fn law_fourth_order_filter<
    E: Fn(real) -> real,
    C: Fn(real) -> real,
    S: Fn(real) -> real,
>(
    y: Seq<real>,
    x: Seq<real>,
    sigma: real,
    pi: real,
    root: real,
    exp: E,
    cos: C,
    sin: S,
    e: spec_fn(real) -> real,
    c: spec_fn(real) -> real,
    s: spec_fn(real) -> real,
)
    requires
        root > 0real,
        root * root == 2real * pi,
        computes(exp, e),
        computes(cos, c),
        computes(sin, s),
        is_exponential(e),
        are_circular(c, s),
        is_fourth_order_result(y, x, sigma, pi, exp, cos, sin),
    ensures
        y.len() == x.len(),
        -1real / 1000000000real < sigma < 1real / 1000000000real ==> y == x,
        !(-1real / 1000000000real < sigma < 1real / 1000000000real) ==> forall|i: int|
            0 <= i < x.len() ==> #[trigger] y[i] * (root * sigma) == sum_to(
                x.len(),
                |j: int| gaussian_sum(e, c, s, gap(i, j) / sigma) * x[j],
            ),
{
    law_negligible(sigma);
    if !negligible(sigma) && x.len() > 0 {
        let poles = choose|poles: Seq<(real, real)>| #[trigger]
            are_poles(poles, sigma, exp, cos, sin) && y == smoothed(x, sigma, pi, poles);
        assert forall|i: int| 0 <= i < x.len() implies #[trigger] y[i] * (root * sigma) == sum_to(
            x.len(),
            |j: int| gaussian_sum(e, c, s, gap(i, j) / sigma) * x[j],
        ) by {
            law_smoothing_with_oscillations(
                x,
                sigma,
                pi,
                root,
                poles,
                exp,
                cos,
                sin,
                e,
                c,
                s,
                i,
            );
        }
    }
}

} // verus!
