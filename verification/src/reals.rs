//! Facts about exact arithmetic that the laws share.
use vstd::prelude::*;

use crate::scalar::{tiny, total, Arith};

verus! {

/// The size below which a number counts as zero is positive.
pub proof fn lemma_tiny()
    ensures
        tiny::<real>() > 0real,
        tiny::<real>() == 1real / 1000000000real,
{
}

/// Division undoes multiplication.
pub proof fn lemma_div_mul(a: real, b: real)
    by (nonlinear_arith)
    requires
        b != 0real,
    ensures
        (a / b) * b == a,
        b * (a / b) == a,
{
}

/// A quotient is nonnegative, or below a bound, as the dividend is.
pub proof fn lemma_div_order(a: real, b: real, c: real)
    by (nonlinear_arith)
    requires
        b > 0real,
    ensures
        a >= 0real <==> a / b >= 0real,
        a < c * b <==> a / b < c,
        a <= c * b <==> a / b <= c,
{
}

/// `(a + b) * c == a * c + b * c`.
pub proof fn lemma_distribute(a: real, b: real, c: real)
    by (nonlinear_arith)
    ensures
        (a + b) * c == a * c + b * c,
        (a - b) * c == a * c - b * c,
        c * (a + b) == c * a + c * b,
        c * (a - b) == c * a - c * b,
{
}

/// Signs move out of products.
pub proof fn lemma_negate(a: real, b: real)
    by (nonlinear_arith)
    ensures
        a * (-b) == -(a * b),
        (-a) * b == -(a * b),
        (-a) * (-b) == a * b,
{
}

/// What zero and one do in products.
pub proof fn lemma_units(a: real)
    by (nonlinear_arith)
    ensures
        a * 0real == 0real,
        0real * a == 0real,
        a * 1real == a,
        1real * a == a,
{
}

/// `a * b == b * a`.
pub proof fn lemma_commute(a: real, b: real)
    by (nonlinear_arith)
    ensures
        a * b == b * a,
{
}

/// `(a * b) * c == a * (b * c)`.
pub proof fn lemma_associate(a: real, b: real, c: real)
    by (nonlinear_arith)
    ensures
        (a * b) * c == a * (b * c),
{
}

/// A factor other than zero cancels.
pub proof fn lemma_cancel(a: real, b: real, c: real)
    by (nonlinear_arith)
    requires
        c != 0real,
        a * c == b * c,
    ensures
        a == b,
{
}

/// The factors of a product of four can be paired in another way.
pub proof fn lemma_pair_up(a: real, b: real, c: real, d: real)
    ensures
        (a * b) * (c * d) == (a * c) * (b * d),
{
    lemma_associate(a, b, c * d);
    lemma_associate(b, c, d);
    lemma_commute(b, c);
    lemma_associate(c, b, d);
    lemma_associate(a, c, b * d);
}

/// The square of a sum and of a difference.
pub proof fn lemma_square(a: real, b: real)
    ensures
        (a + b) * (a + b) == a * a + 2real * (a * b) + b * b,
        (a - b) * (a - b) == a * a - 2real * (a * b) + b * b,
        (a + b) * (a - b) == a * a - b * b,
{
    lemma_distribute(a, b, a + b);
    lemma_distribute(a, b, a - b);
    lemma_distribute(a, b, a);
    lemma_distribute(a, b, b);
    lemma_commute(a, b);
}

/// The product of whole numbers is the product of the numbers.
pub proof fn lemma_cast_product(a: int, b: int)
    by (nonlinear_arith)
    ensures
        (a * b) as real == (a as real) * (b as real),
{
}

/// A product of nonnegative numbers is nonnegative.
pub proof fn lemma_product_sign(a: real, b: real)
    by (nonlinear_arith)
    ensures
        a >= 0real && b >= 0real ==> a * b >= 0real,
        a > 0real && b > 0real ==> a * b > 0real,
        a * a >= 0real,
{
}

/// Adding `w` to one entry adds `w` to the sum.
pub proof fn lemma_total_update(s: Seq<real>, i: int, w: real)
    requires
        0 <= i < s.len(),
    ensures
        total(s.update(i, s[i] + w)) == total(s) + w,
    decreases s.len(),
{
    let t = s.update(i, s[i] + w);
    if i == s.len() - 1 {
        assert(t.drop_last() =~= s.drop_last());
    } else {
        lemma_total_update(s.drop_last(), i, w);
        assert(t.drop_last() =~= s.drop_last().update(i, s[i] + w));
    }
}

/// A sequence of zeros sums to zero.
pub proof fn lemma_total_zeros(n: nat)
    ensures
        total(Seq::new(n, |i: int| 0real)) == 0real,
    decreases n,
{
    let s = Seq::new(n, |i: int| 0real);
    if n > 0 {
        lemma_total_zeros((n - 1) as nat);
        assert(s.drop_last() =~= Seq::new((n - 1) as nat, |i: int| 0real));
    }
}

/// The sum of the quotients is the quotient of the sum.
pub proof fn lemma_total_over(s: Seq<real>, c: real)
    requires
        c != 0real,
    ensures
        total(Seq::new(s.len(), |i: int| s[i] / c)) == total(s) / c,
    decreases s.len(),
{
    let t = Seq::new(s.len(), |i: int| s[i] / c);
    if s.len() == 0 {
        assert(0real / c == 0real) by (nonlinear_arith)
            requires
                c != 0real,
        ;
    } else {
        let r = s.drop_last();
        lemma_total_over(r, c);
        assert(t.drop_last() =~= Seq::new(r.len(), |i: int| r[i] / c));
        let (a, b) = (total(r), s.last());
        assert((a + b) / c == a / c + b / c) by (nonlinear_arith)
            requires
                c != 0real,
        ;
    }
}

} // verus!
