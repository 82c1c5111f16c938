//! Convolution of a signal with a symmetric kernel, in exact arithmetic.
use vstd::prelude::*;

verus! {

/// How far apart `i` and `j` are.
pub open spec fn distance(i: int, j: int) -> nat {
    if i <= j {
        (j - i) as nat
    } else {
        (i - j) as nat
    }
}

/// The sum of `g(|i - j|) x[j]` over the first `n` samples.
pub open spec fn convolution(g: spec_fn(nat) -> real, x: Seq<real>, i: int, n: nat) -> real
    decreases n,
{
    if n == 0 {
        0real
    } else {
        convolution(g, x, i, (n - 1) as nat) + g(distance(i, n - 1)) * x[n - 1]
    }
}

/// The sum of `g(|i - j|) x[j]` over the samples from `n` on.
pub open spec fn convolution_tail(g: spec_fn(nat) -> real, x: Seq<real>, i: int, n: int) -> real
    decreases x.len() - n,
{
    if n >= x.len() {
        0real
    } else {
        g(distance(i, n)) * x[n] + convolution_tail(g, x, i, n + 1)
    }
}

/// A convolution is made of its first samples and its tail.
pub proof fn lemma_convolution_splits(g: spec_fn(nat) -> real, x: Seq<real>, i: int, n: nat)
    requires
        n <= x.len(),
    ensures
        convolution(g, x, i, x.len()) == convolution(g, x, i, n) + convolution_tail(
            g,
            x,
            i,
            n as int,
        ),
    decreases x.len() - n,
{
    if n < x.len() {
        lemma_convolution_splits(g, x, i, n + 1);
    }
}

/// The first samples of the reversed signal are its tail.
pub proof fn lemma_reversed_convolution(g: spec_fn(nat) -> real, x: Seq<real>, i: int, n: nat)
    requires
        0 <= i < x.len(),
        n <= x.len() - i,
    ensures
        convolution(g, x.reverse(), x.len() - 1 - i, n) == convolution_tail(g, x, i, x.len() - n),
    decreases n,
{
    if n > 0 {
        lemma_reversed_convolution(g, x, i, (n - 1) as nat);
        assert(x.reverse()[n - 1] == x[x.len() - n]);
        assert(distance(x.len() - 1 - i, n - 1) == distance(i, x.len() - n));
    }
}

/// A pass over the signal and one over the reversed signal, less the share that both give the
/// current sample, make the convolution.
pub proof fn lemma_two_passes(g: spec_fn(nat) -> real, x: Seq<real>, i: int)
    requires
        0 <= i < x.len(),
    ensures
        convolution(g, x, i, x.len()) == convolution(g, x, i, (i + 1) as nat) + convolution(
            g,
            x.reverse(),
            x.len() - 1 - i,
            (x.len() - i) as nat,
        ) - g(0) * x[i],
{
    lemma_reversed_convolution(g, x, i, (x.len() - i) as nat);
    lemma_convolution_splits(g, x, i, (i + 1) as nat);
    assert(distance(i, i) == 0);
    assert(convolution_tail(g, x, i, i) == g(0) * x[i] + convolution_tail(g, x, i, i + 1));
}

} // verus!
