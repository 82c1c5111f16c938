//! Finite sums of real numbers.
use vstd::prelude::*;

use crate::reals::{lemma_commute, lemma_distribute, lemma_units};
use crate::scalar::{total, Arith};

verus! {

/// The sum of `f(i)` over the indices from `0` up to `n`, without `n`.
pub open spec fn sum_to(n: nat, f: spec_fn(int) -> real) -> real
    decreases n,
{
    if n == 0 {
        0real
    } else {
        sum_to((n - 1) as nat, f) + f(n - 1)
    }
}

/// Equal terms have equal sums.
pub proof fn lemma_sum_same(n: nat, f: spec_fn(int) -> real, g: spec_fn(int) -> real)
    requires
        forall|i: int| 0 <= i < n ==> #[trigger] f(i) == g(i),
    ensures
        sum_to(n, f) == sum_to(n, g),
    decreases n,
{
    if n > 0 {
        lemma_sum_same((n - 1) as nat, f, g);
        assert(f(n - 1) == g(n - 1));
    }
}

/// The sum of sums is the sum of the terms' sums.
pub proof fn lemma_sum_plus(
    n: nat,
    f: spec_fn(int) -> real,
    g: spec_fn(int) -> real,
    h: spec_fn(int) -> real,
)
    requires
        forall|i: int| 0 <= i < n ==> #[trigger] h(i) == f(i) + g(i),
    ensures
        sum_to(n, h) == sum_to(n, f) + sum_to(n, g),
    decreases n,
{
    if n > 0 {
        lemma_sum_plus((n - 1) as nat, f, g, h);
        assert(h(n - 1) == f(n - 1) + g(n - 1));
    }
}

/// A common factor moves out of a sum.
pub proof fn lemma_sum_times(n: nat, f: spec_fn(int) -> real, c: real, h: spec_fn(int) -> real)
    requires
        forall|i: int| 0 <= i < n ==> #[trigger] h(i) == c * f(i),
    ensures
        sum_to(n, h) == c * sum_to(n, f),
    decreases n,
{
    if n == 0 {
        lemma_units(c);
    } else {
        lemma_sum_times((n - 1) as nat, f, c, h);
        assert(h(n - 1) == c * f(n - 1));
        lemma_distribute(sum_to((n - 1) as nat, f), f(n - 1), c);
    }
}

/// A sum of zeros is zero.
pub proof fn lemma_sum_zero(n: nat, f: spec_fn(int) -> real)
    requires
        forall|i: int| 0 <= i < n ==> #[trigger] f(i) == 0real,
    ensures
        sum_to(n, f) == 0real,
    decreases n,
{
    if n > 0 {
        lemma_sum_zero((n - 1) as nat, f);
        assert(f(n - 1) == 0real);
    }
}

/// A sum of which one term is other than zero is that term.
pub proof fn lemma_sum_single(n: nat, f: spec_fn(int) -> real, k: int)
    requires
        0 <= k < n,
        forall|i: int| 0 <= i < n && i != k ==> #[trigger] f(i) == 0real,
    ensures
        sum_to(n, f) == f(k),
    decreases n,
{
    if k == n - 1 {
        lemma_sum_zero((n - 1) as nat, f);
    } else {
        lemma_sum_single((n - 1) as nat, f, k);
        assert(f(n - 1) == 0real);
    }
}

/// A sum of which two neighbouring terms are other than zero is the sum of those.
pub proof fn lemma_sum_pair(n: nat, f: spec_fn(int) -> real, k: int)
    requires
        0 <= k < n - 1,
        forall|i: int| 0 <= i < n && i != k && i != k + 1 ==> #[trigger] f(i) == 0real,
    ensures
        sum_to(n, f) == f(k) + f(k + 1),
    decreases n,
{
    if k + 1 == n - 1 {
        lemma_sum_single((n - 1) as nat, f, k);
    } else {
        lemma_sum_pair((n - 1) as nat, f, k);
        assert(f(n - 1) == 0real);
    }
}

/// Terms in order have sums in order.
pub proof fn lemma_sum_order(n: nat, f: spec_fn(int) -> real, g: spec_fn(int) -> real)
    requires
        forall|i: int| 0 <= i < n ==> #[trigger] f(i) <= g(i),
    ensures
        sum_to(n, f) <= sum_to(n, g),
    decreases n,
{
    if n > 0 {
        lemma_sum_order((n - 1) as nat, f, g);
        assert(f(n - 1) <= g(n - 1));
    }
}

/// The sum of `f(i, j)` over `n` indices `i` and `m` indices `j`.
pub open spec fn pair_sum(n: nat, m: nat, f: spec_fn(int, int) -> real) -> real {
    sum_to(n, |i: int| sum_to(m, |j: int| f(i, j)))
}

/// Equal terms over all pairs have equal sums.
pub proof fn lemma_same_pairs(
    n: nat,
    m: nat,
    f: spec_fn(int, int) -> real,
    g: spec_fn(int, int) -> real,
)
    requires
        forall|i: int, j: int| 0 <= i < n && 0 <= j < m ==> #[trigger] f(i, j) == g(i, j),
    ensures
        pair_sum(n, m, f) == pair_sum(n, m, g),
{
    let (a, b) = (|i: int| sum_to(m, |j: int| f(i, j)), |i: int| sum_to(m, |j: int| g(i, j)));
    assert forall|i: int| 0 <= i < n implies #[trigger] a(i) == b(i) by {
        let (u, v) = (|j: int| f(i, j), |j: int| g(i, j));
        assert forall|j: int| 0 <= j < m implies #[trigger] u(j) == v(j) by {
            assert(f(i, j) == g(i, j));
        }
        lemma_sum_same(m, u, v);
    }
    lemma_sum_same(n, a, b);
}

/// The order of two sums can be exchanged.
pub proof fn lemma_sum_swap(n: nat, m: nat, f: spec_fn(int, int) -> real)
    ensures
        sum_to(n, |i: int| sum_to(m, |j: int| f(i, j))) == sum_to(
            m,
            |j: int| sum_to(n, |i: int| f(i, j)),
        ),
    decreases n,
{
    let rows = |i: int| sum_to(m, |j: int| f(i, j));
    let columns = |j: int| sum_to(n, |i: int| f(i, j));
    if n == 0 {
        lemma_sum_zero(m, columns);
    } else {
        let k = (n - 1) as nat;
        lemma_sum_swap(k, m, f);
        let before = |j: int| sum_to(k, |i: int| f(i, j));
        let last = |j: int| f(n - 1, j);
        assert forall|j: int| 0 <= j < m implies #[trigger] columns(j) == before(j) + last(j) by {
            let g = |i: int| f(i, j);
            assert(sum_to(n, g) == sum_to(k, g) + g(n - 1));
        }
        lemma_sum_plus(m, before, last, columns);
        assert(rows(n - 1) == sum_to(m, last));
    }
}

/// The sum over all pairs of products is the product of the sums.
pub proof fn lemma_sum_product(
    n: nat,
    m: nat,
    a: spec_fn(int) -> real,
    b: spec_fn(int) -> real,
    f: spec_fn(int, int) -> real,
)
    requires
        forall|i: int, j: int| 0 <= i < n && 0 <= j < m ==> #[trigger] f(i, j) == a(i) * b(j),
    ensures
        pair_sum(n, m, f) == sum_to(n, a) * sum_to(m, b),
{
    let rows = |i: int| sum_to(m, |j: int| f(i, j));
    let t = sum_to(m, b);
    assert forall|i: int| 0 <= i < n implies #[trigger] rows(i) == t * a(i) by {
        let g = |j: int| f(i, j);
        assert forall|j: int| 0 <= j < m implies #[trigger] g(j) == a(i) * b(j) by {
            assert(f(i, j) == a(i) * b(j));
        }
        lemma_sum_times(m, b, a(i), g);
        lemma_commute(a(i), t);
    }
    lemma_sum_times(n, a, t, rows);
    lemma_commute(t, sum_to(n, a));
}

/// The sum of a sequence is the sum of its entries.
pub proof fn law_total(s: Seq<real>)
    ensures
        total(s) == sum_to(s.len(), |i: int| s[i]),
    decreases s.len(),
{
    if s.len() > 0 {
        let r = s.drop_last();
        law_total(r);
        lemma_sum_same(r.len(), |i: int| r[i], |i: int| s[i]);
    }
}

} // verus!
