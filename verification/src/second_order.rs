//! Gaussian smoothing by a second-order recursive filter.
use vstd::prelude::*;

use crate::binning::zero_vec;
use crate::scalar::{is_negligible, negligible, one, zero, Arith, Scalar};

verus! {

/// The coefficients of the two passes.
pub struct SecondOrder<T> {
    /// The weight of the current sample in the causal pass.
    pub a1: T,
    /// The weight of the sample before it in the causal pass.
    pub a2: T,
    /// The weight of the next sample in the anticausal pass.
    pub a3: T,
    /// The weight of the sample behind that in the anticausal pass.
    pub a4: T,
    /// The weight of the neighbouring result in both passes.
    pub b1: T,
    /// The weight of the result next to that in both passes.
    pub b2: T,
}

/// The decay `alpha` of the filter with the deviation `sigma`.
pub open spec fn decay<T: Arith>(sigma: T) -> T {
    T::ratio(1695, 1000).over(sigma)
}

/// The coefficients for the decay `alpha`, where `ea` stands for `exp(-alpha)` and `e2a` for
/// `exp(-2 alpha)`.
pub open spec fn second_order<T: Arith>(alpha: T, ea: T, e2a: T) -> SecondOrder<T> {
    let rest = one::<T>().minus(ea);
    let k = rest.times(rest).over(
        one::<T>().plus(T::whole(2).times(alpha).times(ea)).minus(e2a),
    );
    SecondOrder {
        a1: k,
        a2: k.times(ea).times(alpha.minus(one())),
        a3: k.times(ea).times(alpha.plus(one())),
        a4: k.negated().times(e2a),
        b1: T::whole(2).times(ea),
        b2: e2a.negated(),
    }
}

/// The causal pass at `i`:
/// `y[i] = a1 x[i] + a2 x[i - 1] + b1 y[i - 1] + b2 y[i - 2]`, with zeros before the first sample.
pub open spec fn forward<T: Arith>(x: Seq<T>, c: SecondOrder<T>, i: int) -> T
    decreases i,
{
    if i <= 0 {
        c.a1.times(x[0])
    } else {
        let near = c.a1.times(x[i]).plus(c.a2.times(x[i - 1])).plus(
            c.b1.times(forward(x, c, i - 1)),
        );
        if i == 1 {
            near
        } else {
            near.plus(c.b2.times(forward(x, c, i - 2)))
        }
    }
}

/// The anticausal pass at `i`:
/// `y[i] = a3 x[i + 1] + a4 x[i + 2] + b1 y[i + 1] + b2 y[i + 2]`, with zeros behind the last
/// sample.
pub open spec fn backward<T: Arith>(x: Seq<T>, c: SecondOrder<T>, i: int) -> T
    decreases x.len() - i,
{
    if i >= x.len() - 1 {
        zero()
    } else if i == x.len() - 2 {
        c.a3.times(x[i + 1])
    } else {
        c.a3.times(x[i + 1]).plus(c.a4.times(x[i + 2])).plus(
            c.b1.times(backward(x, c, i + 1)),
        ).plus(c.b2.times(backward(x, c, i + 2)))
    }
}

/// The sum of the two passes over `x`.
pub open spec fn filtered<T: Arith>(x: Seq<T>, c: SecondOrder<T>) -> Seq<T> {
    Seq::new(x.len(), |i: int| forward(x, c, i).plus(backward(x, c, i)))
}

/// The signal `x` smoothed with the deviation `sigma`, where `ea` and `e2a` stand for the
/// exponentials of `-alpha` and `-2 alpha`. A deviation that counts as zero leaves it as it is.
pub open spec fn second_order_smoothed<T: Arith>(x: Seq<T>, sigma: T, ea: T, e2a: T) -> Seq<T> {
    if negligible(sigma) {
        x
    } else {
        filtered(x, second_order(decay(sigma), ea, e2a))
    }
}

/// Whether `ea` and `e2a` are the exponentials of `-alpha` and `-2 alpha` for the deviation
/// `sigma`, as `exp` computes them.
pub open spec fn are_exponentials<T: Arith, E: Fn(T) -> T>(
    ea: T,
    e2a: T,
    sigma: T,
    exp: E,
) -> bool {
    &&& exp.ensures((decay(sigma).negated(),), ea)
    &&& exp.ensures((T::whole(2).negated().times(decay(sigma)),), e2a)
}

/// Whether `y` is the signal `x` smoothed with the deviation `sigma`, with the exponentials that `exp`
/// computes. A deviation that counts as zero leaves it as it is.
pub open spec fn is_second_order_result<T: Arith, E: Fn(T) -> T>(
    y: Seq<T>,
    x: Seq<T>,
    sigma: T,
    exp: E,
) -> bool {
    if negligible(sigma) || x.len() == 0 {
        y == x
    } else {
        exists|ea: T, e2a: T|
            are_exponentials(ea, e2a, sigma, exp) && y == #[trigger] second_order_smoothed(
                x,
                sigma,
                ea,
                e2a,
            )
    }
}

/// The decay of the filter with the deviation `sigma`.
fn decay_value<T: Scalar>(sigma: T) -> (r: T)
    ensures
        r == decay(sigma),
{
    T::of_ratio(1695, 1000).quotient(sigma)
}

/// The coefficients for the decay `alpha`, given `exp(-alpha)` and `exp(-2 alpha)`.
pub fn second_order_coefficients<T: Scalar>(alpha: T, ea: T, e2a: T) -> (r: SecondOrder<T>)
    ensures
        r == second_order(alpha, ea, e2a),
{
    let one: T = T::of_usize(1);
    let two: T = T::of_usize(2);
    let rest: T = one.difference(ea);
    let k: T = rest.product(rest).quotient(
        one.sum(two.product(alpha).product(ea)).difference(e2a),
    );
    SecondOrder {
        a1: k,
        a2: k.product(ea).product(alpha.difference(one)),
        a3: k.product(ea).product(alpha.sum(one)),
        a4: k.opposite().product(e2a),
        b1: two.product(ea),
        b2: e2a.opposite(),
    }
}

/// The exponentials that the filter with the deviation `sigma` needs.
pub fn filter_exponentials<T: Scalar, E: Fn(T) -> T>(sigma: T, exp: &E) -> (r: (T, T))
    requires
        forall|x: T| #[trigger] exp.requires((x,)),
    ensures
        are_exponentials(r.0, r.1, sigma, *exp),
{
    let alpha: T = decay_value(sigma);
    let ea: T = (*exp)(alpha.opposite());
    let e2a: T = (*exp)(T::of_usize(2).opposite().product(alpha));
    (ea, e2a)
}

/// The causal pass over `x`.
fn forward_pass<T: Scalar>(x: &[T], c: &SecondOrder<T>) -> (y: Vec<T>)
    requires
        x@.len() >= 1,
    ensures
        y@ == Seq::new(x@.len(), |i: int| forward(x@, *c, i)),
{
    let n: usize = x.len();
    let mut y: Vec<T> = Vec::new();
    y.push(c.a1.product(x[0]));
    for i in 1..n
        invariant
            n == x@.len() >= 1,
            y@.len() == i,
            forall|j: int| 0 <= j < i ==> #[trigger] y@[j] == forward(x@, *c, j),
    {
        let near: T = c.a1.product(x[i]).sum(c.a2.product(x[i - 1])).sum(c.b1.product(y[i - 1]));
        if i == 1 {
            y.push(near);
        } else {
            y.push(near.sum(c.b2.product(y[i - 2])));
        }
    }
    proof {
        assert(y@ =~= Seq::new(x@.len(), |i: int| forward(x@, *c, i)));
    }
    y
}

/// The anticausal pass over `x`.
fn backward_pass<T: Scalar>(x: &[T], c: &SecondOrder<T>) -> (y: Vec<T>)
    requires
        x@.len() >= 1,
    ensures
        y@ == Seq::new(x@.len(), |i: int| backward(x@, *c, i)),
{
    let n: usize = x.len();
    let mut y: Vec<T> = zero_vec(n);
    if n > 1 {
        y.set(n - 2, c.a3.product(x[n - 1]));
    }
    if n > 2 {
        let mut i: usize = n - 2;
        while i > 0
            invariant
                i <= n - 2,
                n == x@.len(),
                y@.len() == n,
                forall|j: int| i <= j < n ==> #[trigger] y@[j] == backward(x@, *c, j),
            decreases i,
        {
            i = i - 1;
            let v: T = c.a3.product(x[i + 1]).sum(c.a4.product(x[i + 2])).sum(
                c.b1.product(y[i + 1]),
            ).sum(c.b2.product(y[i + 2]));
            y.set(i, v);
        }
    }
    proof {
        assert(y@ =~= Seq::new(x@.len(), |i: int| backward(x@, *c, i)));
    }
    y
}

/// Replaces `signal` by the sum of the two passes over it.
pub fn apply_second_order<T: Scalar>(signal: &mut [T], c: &SecondOrder<T>)
    ensures
        final(signal)@ == filtered(old(signal)@, *c),
{
    let n: usize = signal.len();
    if n == 0 {
        proof {
            assert(signal@ =~= filtered(old(signal)@, *c));
        }
        return ;
    }
    let plus: Vec<T> = forward_pass(&*signal, c);
    let minus: Vec<T> = backward_pass(&*signal, c);
    for i in 0..n
        invariant
            n == old(signal)@.len(),
            signal@.len() == n,
            plus@.len() == n,
            minus@.len() == n,
            forall|j: int| 0 <= j < i ==> #[trigger] signal@[j] == plus@[j].plus(minus@[j]),
    {
        let s: T = plus[i].sum(minus[i]);
        signal[i] = s;
    }
    proof {
        assert(signal@ =~= filtered(old(signal)@, *c));
    }
}

/// Smooths `signal` with the deviation `sigma`, counted in samples, given the exponentials of
/// the filter.
pub fn filter_with_exponentials<T: Scalar>(signal: &mut [T], sigma: T, ea: T, e2a: T)
    ensures
        final(signal)@ == second_order_smoothed(old(signal)@, sigma, ea, e2a),
{
    if !is_negligible(sigma) {
        let c: SecondOrder<T> = second_order_coefficients(decay_value(sigma), ea, e2a);
        apply_second_order(signal, &c);
    }
}

/// Smooths `signal` with the deviation `sigma`, counted in samples.
pub fn deriche_recursive_filter_2nd_order_approx<T: Scalar, E: Fn(T) -> T>(
    signal: &mut [T],
    sigma: T,
    exp: &E,
)
    requires
        forall|x: T| #[trigger] exp.requires((x,)),
    ensures
        is_second_order_result(final(signal)@, old(signal)@, sigma, *exp),
{
    if is_negligible(sigma) || signal.len() == 0 {
        return ;
    }
    let (ea, e2a) = filter_exponentials(sigma, exp);
    filter_with_exponentials(signal, sigma, ea, e2a);
}

} // verus!
