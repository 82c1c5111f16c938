//! Gaussian smoothing by the fourth-order recursive filter of Deriche.
//!
//! The right half of the Gaussian is approximated by a sum of four exponentials,
//! `1 / sqrt(2 pi sigma^2) * sum_k alpha_k * exp(-lambda_k * x / sigma)`, whose coefficients come
//! in conjugate pairs. Its z-transform is a rational function, and the sum of a causal and an
//! anticausal pass of the filter with its coefficients approximates the convolution.
use vstd::prelude::*;

use crate::binning::zero_vec;
use crate::scalar::{is_negligible, negligible, one, zero, Arith, Scalar};

verus! {

/// The product of two complex numbers.
pub open spec fn complex_product<T: Arith>(a: (T, T), b: (T, T)) -> (T, T) {
    (a.0.times(b.0).minus(a.1.times(b.1)), a.0.times(b.1).plus(a.1.times(b.0)))
}

/// The sum of two complex numbers.
pub open spec fn complex_sum<T: Arith>(a: (T, T), b: (T, T)) -> (T, T) {
    (a.0.plus(b.0), a.1.plus(b.1))
}

/// The opposite of a complex number.
pub open spec fn complex_opposite<T: Arith>(a: (T, T)) -> (T, T) {
    (a.0.negated(), a.1.negated())
}

/// The weight `alpha_k` of the exponential with index `k`.
pub open spec fn alpha<T: Arith>(k: int) -> (T, T) {
    if k == 0 {
        (T::ratio(84000, 100000), T::ratio(186750, 100000))
    } else if k == 1 {
        (T::ratio(84000, 100000), T::ratio(186750, 100000).negated())
    } else if k == 2 {
        (T::ratio(34015, 100000).negated(), T::ratio(12990, 100000).negated())
    } else {
        (T::ratio(34015, 100000).negated(), T::ratio(12990, 100000))
    }
}

/// The rate `lambda_k` of the exponential with index `k`.
pub open spec fn lambda<T: Arith>(k: int) -> (T, T) {
    if k == 0 {
        (T::ratio(178300, 100000), T::ratio(63180, 100000))
    } else if k == 1 {
        (T::ratio(178300, 100000), T::ratio(63180, 100000).negated())
    } else if k == 2 {
        (T::ratio(172300, 100000), T::ratio(199700, 100000))
    } else {
        (T::ratio(172300, 100000), T::ratio(199700, 100000).negated())
    }
}

/// The polynomial `1`, with room for `n` coefficients.
pub open spec fn unit_polynomial<T: Arith>(n: nat) -> Seq<(T, T)> {
    Seq::new(
        n,
        |i: int|
            if i == 0 {
                (one::<T>(), zero::<T>())
            } else {
                (zero::<T>(), zero::<T>())
            },
    )
}

/// The product of the polynomial `c` and `1 - p z`, which has the degree `degree`.
pub open spec fn times_linear<T: Arith>(c: Seq<(T, T)>, p: (T, T), degree: int) -> Seq<(T, T)> {
    Seq::new(
        c.len(),
        |i: int|
            if 1 <= i <= degree {
                complex_sum(c[i], complex_product(c[i - 1], complex_opposite(p)))
            } else {
                c[i]
            },
    )
}

/// The product of `1 - p z` over `poles`, with room for `n` coefficients.
pub open spec fn pole_product<T: Arith>(poles: Seq<(T, T)>, n: nat) -> Seq<(T, T)>
    decreases poles.len(),
{
    if poles.len() == 0 {
        unit_polynomial(n)
    } else {
        times_linear(pole_product(poles.drop_last(), n), poles.last(), poles.len() as int)
    }
}

/// The sum of `alpha_k` times the product of `1 - p z` over the other poles, for the first `n`
/// of the poles.
pub open spec fn numerator<T: Arith>(poles: Seq<(T, T)>, n: nat) -> Seq<(T, T)>
    decreases n,
{
    if n == 0 {
        Seq::new(4, |i: int| (zero::<T>(), zero::<T>()))
    } else {
        let before = numerator(poles, (n - 1) as nat);
        let partial = pole_product(poles.remove(n - 1), 4);
        Seq::new(4, |i: int| complex_sum(before[i], complex_product(alpha(n - 1), partial[i])))
    }
}

/// The factor `1 / sqrt(2 pi sigma^2)`.
pub open spec fn gaussian_scale<T: Arith>(sigma: T, pi: T) -> T {
    one::<T>().over(T::whole(2).times(pi).root().times(sigma))
}

/// The numerator of the causal pass.
pub open spec fn b_plus<T: Arith>(poles: Seq<(T, T)>, sigma: T, pi: T) -> Seq<T> {
    Seq::new(4, |i: int| numerator(poles, 4)[i].0.times(gaussian_scale(sigma, pi)))
}

/// The denominator of both passes, without its leading one.
pub open spec fn feedback<T: Arith>(poles: Seq<(T, T)>) -> Seq<T> {
    Seq::new(4, |i: int| pole_product(poles, 5)[i + 1].0)
}

/// The numerator of the anticausal pass that mirrors the causal one.
pub open spec fn mirrored_numerator<T: Arith>(b: Seq<T>, a: Seq<T>) -> Seq<T> {
    Seq::new(
        5,
        |k: int|
            if k == 0 {
                zero::<T>()
            } else if k < 4 {
                b[k].minus(a[k - 1].times(b[0]))
            } else {
                a[3].negated().times(b[0])
            },
    )
}

/// The coefficients of the two passes.
pub struct Coefficients<T> {
    /// The numerator of the causal pass, from the current sample back.
    pub b_plus: Vec<T>,
    /// The numerator of the anticausal pass, from the current sample on.
    pub b_minus: Vec<T>,
    /// The denominator of both passes, from the neighbouring sample on.
    pub a: Vec<T>,
}

impl<T: Scalar> Coefficients<T> {
    /// There are four taps, and four more on each side.
    pub open spec fn wf(self) -> bool {
        &&& self.b_plus@.len() == 4
        &&& self.b_minus@.len() == 5
        &&& self.a@.len() == 4
    }
}

/// `acc`, with `c` times the sample of `s` at `at` added where there is such a sample.
pub open spec fn fed<T: Arith>(acc: T, c: T, s: Seq<T>, at: int) -> T {
    if 0 <= at < s.len() {
        acc.plus(c.times(s[at]))
    } else {
        acc
    }
}

/// The sum of `b[k] x[i - k]` over the first `n` taps.
pub open spec fn feed<T: Arith>(x: Seq<T>, b: Seq<T>, i: int, n: nat) -> T
    decreases n,
{
    if n == 0 {
        zero()
    } else {
        fed(feed(x, b, i, (n - 1) as nat), b[n - 1], x, i - (n - 1))
    }
}

/// The sum over all taps, less `a[k] y[i - k - 1]` over the first `n` of them, where `y` is the
/// causal pass.
pub open spec fn causal_step<T: Arith>(x: Seq<T>, b: Seq<T>, a: Seq<T>, i: int, n: nat) -> T
    decreases i, n,
{
    if n == 0 {
        feed(x, b, i, b.len())
    } else {
        let acc = causal_step(x, b, a, i, (n - 1) as nat);
        if i >= n {
            acc.minus(a[n - 1].times(causal(x, b, a, i - n)))
        } else {
            acc
        }
    }
}

/// The causal pass at `i`: `y[i] = sum_k b[k] x[i - k] - sum_k a[k] y[i - k - 1]`, with zeros
/// before the first sample.
pub open spec fn causal<T: Arith>(x: Seq<T>, b: Seq<T>, a: Seq<T>, i: int) -> T
    decreases i, a.len() + 1,
{
    causal_step(x, b, a, i, a.len())
}

/// The sum of `b[k] x[i + k]` over the taps from the second up to the one before `n`.
pub open spec fn feed_ahead<T: Arith>(x: Seq<T>, b: Seq<T>, i: int, n: nat) -> T
    decreases n,
{
    if n <= 1 {
        zero()
    } else {
        fed(feed_ahead(x, b, i, (n - 1) as nat), b[n - 1], x, i + (n - 1))
    }
}

/// The sum over all taps, less `a[k] y[i + k + 1]` over the first `n` of them, where `y` is the
/// anticausal pass.
pub open spec fn anticausal_step<T: Arith>(x: Seq<T>, b: Seq<T>, a: Seq<T>, i: int, n: nat) -> T
    decreases x.len() - i, n,
{
    if n == 0 {
        feed_ahead(x, b, i, b.len())
    } else {
        let acc = anticausal_step(x, b, a, i, (n - 1) as nat);
        if i + n < x.len() {
            acc.minus(a[n - 1].times(anticausal(x, b, a, i + n)))
        } else {
            acc
        }
    }
}

/// The anticausal pass at `i`: `y[i] = sum_k b[k] x[i + k] - sum_k a[k] y[i + k + 1]`, with zeros
/// behind the last sample.
pub open spec fn anticausal<T: Arith>(x: Seq<T>, b: Seq<T>, a: Seq<T>, i: int) -> T
    decreases x.len() - i, a.len() + 1,
{
    anticausal_step(x, b, a, i, a.len())
}

/// The sum of the two passes over `x`.
pub open spec fn two_pass<T: Arith>(x: Seq<T>, bp: Seq<T>, bm: Seq<T>, a: Seq<T>) -> Seq<T> {
    Seq::new(x.len(), |i: int| causal(x, bp, a, i).plus(anticausal(x, bm, a, i)))
}

/// The signal `x` smoothed with the standard deviation `sigma`, where the filter has the poles
/// `poles`. A deviation that counts as zero leaves it as it is.
pub open spec fn smoothed<T: Arith>(x: Seq<T>, sigma: T, pi: T, poles: Seq<(T, T)>) -> Seq<T> {
    if negligible(sigma) {
        x
    } else {
        let b = b_plus(poles, sigma, pi);
        let a = feedback(poles);
        two_pass(x, b, mirrored_numerator(b, a), a)
    }
}

/// Whether `p` is `exp(-(rate) / sigma)` as `exp`, `cos` and `sin` compute it.
pub open spec fn is_pole<T: Arith, E: Fn(T) -> T, C: Fn(T) -> T, S: Fn(T) -> T>(
    p: (T, T),
    rate: (T, T),
    sigma: T,
    exp: E,
    cos: C,
    sin: S,
) -> bool {
    let x = rate.0.negated().over(sigma);
    let angle = rate.1.negated().over(sigma);
    exists|m: T, c: T, s: T|
        {
            &&& #[trigger] exp.ensures((x,), m)
            &&& #[trigger] cos.ensures((angle,), c)
            &&& #[trigger] sin.ensures((angle,), s)
            &&& p == (m.times(c), m.times(s))
        }
}

/// Whether `poles` are the poles of the filter with the deviation `sigma`.
pub open spec fn are_poles<T: Arith, E: Fn(T) -> T, C: Fn(T) -> T, S: Fn(T) -> T>(
    poles: Seq<(T, T)>,
    sigma: T,
    exp: E,
    cos: C,
    sin: S,
) -> bool {
    &&& poles.len() == 4
    &&& forall|k: int|
        0 <= k < 4 ==> is_pole(#[trigger] poles[k], lambda(k), sigma, exp, cos, sin)
}

/// Whether `y` is the signal `x` smoothed with the deviation `sigma`, with the poles that `exp`, `cos`
/// and `sin` give the filter. A deviation that counts as zero leaves it as it is.
pub open spec fn is_fourth_order_result<T: Arith, E: Fn(T) -> T, C: Fn(T) -> T, S: Fn(T) -> T>(
    y: Seq<T>,
    x: Seq<T>,
    sigma: T,
    pi: T,
    exp: E,
    cos: C,
    sin: S,
) -> bool {
    if negligible(sigma) || x.len() == 0 {
        y == x
    } else {
        exists|poles: Seq<(T, T)>| #[trigger]
            are_poles(poles, sigma, exp, cos, sin) && y == smoothed(x, sigma, pi, poles)
    }
}

/// The product of two complex numbers.
pub fn cmul<T: Scalar>(a: (T, T), b: (T, T)) -> (r: (T, T))
    ensures
        r == complex_product(a, b),
{
    (
        a.0.product(b.0).difference(a.1.product(b.1)),
        a.0.product(b.1).sum(a.1.product(b.0)),
    )
}

/// The weight of the exponential with index `k`.
fn alpha_value<T: Scalar>(k: usize) -> (r: (T, T))
    ensures
        r == alpha::<T>(k as int),
{
    if k == 0 {
        (T::of_ratio(84000, 100000), T::of_ratio(186750, 100000))
    } else if k == 1 {
        (T::of_ratio(84000, 100000), T::of_ratio(186750, 100000).opposite())
    } else if k == 2 {
        (T::of_ratio(34015, 100000).opposite(), T::of_ratio(12990, 100000).opposite())
    } else {
        (T::of_ratio(34015, 100000).opposite(), T::of_ratio(12990, 100000))
    }
}

/// The rate of the exponential with index `k`.
fn lambda_value<T: Scalar>(k: usize) -> (r: (T, T))
    ensures
        r == lambda::<T>(k as int),
{
    if k == 0 {
        (T::of_ratio(178300, 100000), T::of_ratio(63180, 100000))
    } else if k == 1 {
        (T::of_ratio(178300, 100000), T::of_ratio(63180, 100000).opposite())
    } else if k == 2 {
        (T::of_ratio(172300, 100000), T::of_ratio(199700, 100000))
    } else {
        (T::of_ratio(172300, 100000), T::of_ratio(199700, 100000).opposite())
    }
}

/// The pole `exp(-(re + i im) / sigma)`, computed with `exp`, `cos` and `sin`.
pub fn pole<T: Scalar, E: Fn(T) -> T, C: Fn(T) -> T, S: Fn(T) -> T>(
    re: T,
    im: T,
    sigma: T,
    exp: &E,
    cos: &C,
    sin: &S,
) -> (r: (T, T))
    requires
        forall|x: T| #[trigger] exp.requires((x,)),
        forall|x: T| #[trigger] cos.requires((x,)),
        forall|x: T| #[trigger] sin.requires((x,)),
    ensures
        is_pole(r, (re, im), sigma, *exp, *cos, *sin),
{
    let x: T = re.opposite().quotient(sigma);
    let m: T = (*exp)(x);
    let angle: T = im.opposite().quotient(sigma);
    let c: T = (*cos)(angle);
    let s: T = (*sin)(angle);
    proof {
        assert(exp.ensures((x,), m));
        assert(cos.ensures((angle,), c));
        assert(sin.ensures((angle,), s));
        let rate = (re, im);
        assert(x == rate.0.negated().over(sigma));
        assert(angle == rate.1.negated().over(sigma));
    }
    (m.product(c), m.product(s))
}

/// Multiplies the polynomial `c` by `1 - p z`, which brings it to the degree `degree`.
fn multiply_linear<T: Scalar>(c: &mut Vec<(T, T)>, p: (T, T), degree: usize)
    requires
        degree < old(c)@.len(),
    ensures
        final(c)@ == times_linear(old(c)@, p, degree as int),
{
    let opposite: (T, T) = (p.0.opposite(), p.1.opposite());
    let mut i: usize = degree;
    while i > 0
        invariant
            i <= degree < c@.len(),
            c@.len() == old(c)@.len(),
            opposite == complex_opposite(p),
            forall|j: int| 0 <= j <= i ==> #[trigger] c@[j] == old(c)@[j],
            forall|j: int|
                i < j < c@.len() ==> #[trigger] c@[j] == times_linear(
                    old(c)@,
                    p,
                    degree as int,
                )[j],
        decreases i,
    {
        let shifted: (T, T) = cmul(c[i - 1], opposite);
        let here: (T, T) = c[i];
        c.set(i, (here.0.sum(shifted.0), here.1.sum(shifted.1)));
        i = i - 1;
    }
    proof {
        assert(c@ =~= times_linear(old(c)@, p, degree as int));
    }
}

/// The polynomial `1`, with room for `n` coefficients.
fn unit_vec<T: Scalar>(n: usize) -> (r: Vec<(T, T)>)
    ensures
        r@ == unit_polynomial::<T>(n as nat),
{
    let mut r: Vec<(T, T)> = Vec::new();
    for i in 0..n
        invariant
            r@ == unit_polynomial::<T>(i as nat),
    {
        let first: T = if i == 0 {
            T::of_usize(1)
        } else {
            T::of_usize(0)
        };
        r.push((first, T::of_usize(0)));
        proof {
            assert(r@ =~= unit_polynomial::<T>((i + 1) as nat));
        }
    }
    r
}

/// The product of `1 - p z` over `poles`, with room for `n` coefficients.
fn multiply_poles<T: Scalar>(poles: &Vec<(T, T)>, n: usize) -> (r: Vec<(T, T)>)
    requires
        poles@.len() < n,
    ensures
        r@ == pole_product(poles@, n as nat),
        r@.len() == n,
{
    let m: usize = poles.len();
    let mut c: Vec<(T, T)> = unit_vec(n);
    for j in 0..m
        invariant
            m == poles@.len() < n,
            c@.len() == n,
            c@ == pole_product(poles@.take(j as int), n as nat),
    {
        multiply_linear(&mut c, poles[j], j + 1);
        proof {
            assert(poles@.take(j + 1).drop_last() =~= poles@.take(j as int));
        }
    }
    proof {
        assert(poles@.take(m as int) =~= poles@);
    }
    c
}

/// The numerator of the sum of the exponentials.
fn numerator_of<T: Scalar>(poles: &Vec<(T, T)>) -> (r: Vec<(T, T)>)
    requires
        poles@.len() == 4,
    ensures
        r@ == numerator(poles@, 4),
        r@.len() == 4,
{
    let zero: T = T::of_usize(0);
    let mut sum: Vec<(T, T)> = vec![(zero, zero), (zero, zero), (zero, zero), (zero, zero)];
    proof {
        assert(sum@ =~= numerator(poles@, 0));
    }
    for k in 0..4usize
        invariant
            poles@.len() == 4,
            sum@.len() == 4,
            sum@ == numerator(poles@, k as nat),
    {
        let mut others: Vec<(T, T)> = Vec::new();
        for j in 0..4usize
            invariant
                poles@.len() == 4,
                k < 4,
                others@ == (if j <= k {
                    poles@.take(j as int)
                } else {
                    poles@.take(j as int).remove(k as int)
                }),
        {
            if j != k {
                others.push(poles[j]);
            }
            proof {
                assert(others@ =~= (if j + 1 <= k {
                    poles@.take(j + 1)
                } else {
                    poles@.take(j + 1).remove(k as int)
                }));
            }
        }
        proof {
            assert(poles@.take(4) =~= poles@);
        }
        let partial: Vec<(T, T)> = multiply_poles(&others, 4);
        let weight: (T, T) = alpha_value(k);
        let ghost before = sum@;
        for i in 0..4usize
            invariant
                sum@.len() == 4,
                before.len() == 4,
                partial@.len() == 4,
                forall|j: int|
                    0 <= j < i ==> #[trigger] sum@[j] == complex_sum(
                        before[j],
                        complex_product(weight, partial@[j]),
                    ),
                forall|j: int| i <= j < 4 ==> #[trigger] sum@[j] == before[j],
        {
            let term: (T, T) = cmul(weight, partial[i]);
            let here: (T, T) = sum[i];
            sum.set(i, (here.0.sum(term.0), here.1.sum(term.1)));
        }
        proof {
            assert(sum@ =~= numerator(poles@, (k + 1) as nat));
        }
    }
    sum
}

/// The coefficients of the filter with the deviation `sigma` and the poles `poles`.
///
/// The poles come in conjugate pairs, so that the imaginary parts of the coefficients cancel:
/// only the real parts are kept.
pub fn coefficients_of_poles<T: Scalar>(
    poles: &Vec<(T, T)>,
    sigma: T,
    pi: T,
) -> (r: Coefficients<T>)
    requires
        poles@.len() == 4,
    ensures
        r.wf(),
        r.b_plus@ == b_plus(poles@, sigma, pi),
        r.a@ == feedback(poles@),
        r.b_minus@ == mirrored_numerator(b_plus(poles@, sigma, pi), feedback(poles@)),
{
    let denominator: Vec<(T, T)> = multiply_poles(poles, 5);
    let numerator: Vec<(T, T)> = numerator_of(poles);
    let scale: T = T::of_usize(1).quotient(T::of_usize(2).product(pi).square_root().product(sigma));
    let mut b: Vec<T> = Vec::new();
    let mut a: Vec<T> = Vec::new();
    for i in 0..4usize
        invariant
            numerator@ == self::numerator(poles@, 4),
            numerator@.len() == 4,
            denominator@ == pole_product(poles@, 5),
            denominator@.len() == 5,
            scale == gaussian_scale(sigma, pi),
            b@ == b_plus(poles@, sigma, pi).take(i as int),
            a@ == feedback(poles@).take(i as int),
    {
        b.push(numerator[i].0.product(scale));
        a.push(denominator[i + 1].0);
        proof {
            assert(b@ =~= b_plus(poles@, sigma, pi).take(i + 1));
            assert(a@ =~= feedback(poles@).take(i + 1));
        }
    }
    proof {
        assert(b@ =~= b_plus(poles@, sigma, pi));
        assert(a@ =~= feedback(poles@));
    }
    let bm: Vec<T> = vec![
        T::of_usize(0),
        b[1].difference(a[0].product(b[0])),
        b[2].difference(a[1].product(b[0])),
        b[3].difference(a[2].product(b[0])),
        a[3].opposite().product(b[0]),
    ];
    proof {
        assert(bm@ =~= mirrored_numerator(b_plus(poles@, sigma, pi), feedback(poles@)));
    }
    Coefficients { b_plus: b, b_minus: bm, a }
}

/// The poles of the filter with the deviation `sigma`.
pub fn filter_poles<T: Scalar, E: Fn(T) -> T, C: Fn(T) -> T, S: Fn(T) -> T>(
    sigma: T,
    exp: &E,
    cos: &C,
    sin: &S,
) -> (r: Vec<(T, T)>)
    requires
        forall|x: T| #[trigger] exp.requires((x,)),
        forall|x: T| #[trigger] cos.requires((x,)),
        forall|x: T| #[trigger] sin.requires((x,)),
    ensures
        are_poles(r@, sigma, *exp, *cos, *sin),
{
    let mut poles: Vec<(T, T)> = Vec::new();
    for k in 0..4usize
        invariant
            poles@.len() == k,
            forall|x: T| #[trigger] exp.requires((x,)),
            forall|x: T| #[trigger] cos.requires((x,)),
            forall|x: T| #[trigger] sin.requires((x,)),
            forall|j: int|
                0 <= j < k ==> is_pole(#[trigger] poles@[j], lambda(j), sigma, *exp, *cos, *sin),
    {
        let rate: (T, T) = lambda_value(k);
        poles.push(pole(rate.0, rate.1, sigma, exp, cos, sin));
    }
    poles
}

/// The coefficients of the filter with the deviation `sigma`.
pub fn deriche_coefficients<T: Scalar, E: Fn(T) -> T, C: Fn(T) -> T, S: Fn(T) -> T>(
    sigma: T,
    pi: T,
    exp: &E,
    cos: &C,
    sin: &S,
) -> (r: Coefficients<T>)
    requires
        forall|x: T| #[trigger] exp.requires((x,)),
        forall|x: T| #[trigger] cos.requires((x,)),
        forall|x: T| #[trigger] sin.requires((x,)),
    ensures
        r.wf(),
        exists|poles: Seq<(T, T)>| #[trigger]
            are_poles(poles, sigma, *exp, *cos, *sin) && r.b_plus@ == b_plus(poles, sigma, pi)
                && r.a@ == feedback(poles) && r.b_minus@ == mirrored_numerator(
                b_plus(poles, sigma, pi),
                feedback(poles),
            ),
{
    let poles: Vec<(T, T)> = filter_poles(sigma, exp, cos, sin);
    coefficients_of_poles(&poles, sigma, pi)
}

/// The causal pass over `x`.
fn causal_pass<T: Scalar>(x: &[T], b: &[T], a: &[T]) -> (y: Vec<T>)
    ensures
        y@ == Seq::new(x@.len(), |i: int| causal(x@, b@, a@, i)),
{
    let m: usize = x.len();
    let mut y: Vec<T> = Vec::new();
    for i in 0..m
        invariant
            m == x@.len(),
            y@.len() == i,
            forall|j: int| 0 <= j < i ==> #[trigger] y@[j] == causal(x@, b@, a@, j),
    {
        let mut acc: T = T::of_usize(0);
        for k in 0..b.len()
            invariant
                i < m == x@.len(),
                acc == feed(x@, b@, i as int, k as nat),
        {
            if i >= k {
                acc = acc.sum(b[k].product(x[i - k]));
            }
        }
        for k in 0..a.len()
            invariant
                i < m == x@.len(),
                y@.len() == i,
                forall|j: int| 0 <= j < i ==> #[trigger] y@[j] == causal(x@, b@, a@, j),
                acc == causal_step(x@, b@, a@, i as int, k as nat),
        {
            if i > k {
                acc = acc.difference(a[k].product(y[i - k - 1]));
            }
        }
        y.push(acc);
    }
    proof {
        assert(y@ =~= Seq::new(x@.len(), |i: int| causal(x@, b@, a@, i)));
    }
    y
}

/// The anticausal pass over `x`.
fn anticausal_pass<T: Scalar>(x: &[T], b: &[T], a: &[T]) -> (y: Vec<T>)
    ensures
        y@ == Seq::new(x@.len(), |i: int| anticausal(x@, b@, a@, i)),
{
    let m: usize = x.len();
    let mut y: Vec<T> = zero_vec(m);
    let mut i: usize = m;
    while i > 0
        invariant
            i <= m == x@.len(),
            y@.len() == m,
            forall|j: int| i <= j < m ==> #[trigger] y@[j] == anticausal(x@, b@, a@, j),
        decreases i,
    {
        i = i - 1;
        let mut acc: T = T::of_usize(0);
        for k in 0..b.len()
            invariant
                i < m == x@.len(),
                acc == feed_ahead(x@, b@, i as int, k as nat),
        {
            if k >= 1 && k < m - i {
                acc = acc.sum(b[k].product(x[i + k]));
            }
        }
        for k in 0..a.len()
            invariant
                i < m == x@.len(),
                y@.len() == m,
                forall|j: int| i < j < m ==> #[trigger] y@[j] == anticausal(x@, b@, a@, j),
                acc == anticausal_step(x@, b@, a@, i as int, k as nat),
        {
            if k < m - i - 1 {
                acc = acc.difference(a[k].product(y[i + k + 1]));
            }
        }
        y.set(i, acc);
    }
    proof {
        assert(y@ =~= Seq::new(x@.len(), |i: int| anticausal(x@, b@, a@, i)));
    }
    y
}

/// Replaces `signal` by the sum of the two passes over it.
pub fn apply_two_pass<T: Scalar>(signal: &mut [T], c: &Coefficients<T>)
    ensures
        final(signal)@ == two_pass(old(signal)@, c.b_plus@, c.b_minus@, c.a@),
{
    let forward: Vec<T> = causal_pass(&*signal, c.b_plus.as_slice(), c.a.as_slice());
    let backward: Vec<T> = anticausal_pass(&*signal, c.b_minus.as_slice(), c.a.as_slice());
    let m: usize = signal.len();
    for i in 0..m
        invariant
            m == old(signal)@.len(),
            signal@.len() == m,
            forward@.len() == m,
            backward@.len() == m,
            forall|j: int| 0 <= j < i ==> #[trigger] signal@[j] == forward@[j].plus(backward@[j]),
    {
        let s: T = forward[i].sum(backward[i]);
        signal[i] = s;
    }
    proof {
        assert(signal@ =~= two_pass(old(signal)@, c.b_plus@, c.b_minus@, c.a@));
    }
}

/// Smooths `signal` with the deviation `sigma`, counted in samples, where the filter has the
/// poles `poles`.
pub fn filter_with_poles<T: Scalar>(signal: &mut [T], sigma: T, pi: T, poles: &Vec<(T, T)>)
    requires
        poles@.len() == 4,
    ensures
        final(signal)@ == smoothed(old(signal)@, sigma, pi, poles@),
{
    if !is_negligible(sigma) {
        let c: Coefficients<T> = coefficients_of_poles(poles, sigma, pi);
        apply_two_pass(signal, &c);
    }
}

/// Smooths `signal` with the deviation `sigma`, counted in samples.
pub fn deriche_recursive_filter_approx<T: Scalar, E: Fn(T) -> T, C: Fn(T) -> T, S: Fn(T) -> T>(
    signal: &mut [T],
    sigma: T,
    pi: T,
    exp: &E,
    cos: &C,
    sin: &S,
)
    requires
        forall|x: T| #[trigger] exp.requires((x,)),
        forall|x: T| #[trigger] cos.requires((x,)),
        forall|x: T| #[trigger] sin.requires((x,)),
    ensures
        is_fourth_order_result(final(signal)@, old(signal)@, sigma, pi, *exp, *cos, *sin),
{
    if is_negligible(sigma) || signal.len() == 0 {
        return ;
    }
    let poles: Vec<(T, T)> = filter_poles(sigma, exp, cos, sin);
    filter_with_poles(signal, sigma, pi, &poles);
}

} // verus!
