//! Complex numbers as pairs of real ones.
use vstd::prelude::*;

use crate::deriche::{complex_opposite, complex_product, complex_sum};
use crate::reals::{lemma_associate, lemma_commute, lemma_distribute, lemma_negate, lemma_units};
use crate::scalar::Arith;

verus! {

/// The number zero.
pub open spec fn complex_zero() -> (real, real) {
    (0real, 0real)
}

/// The number one.
pub open spec fn complex_one() -> (real, real) {
    (1real, 0real)
}

/// The conjugate.
pub open spec fn conjugate(a: (real, real)) -> (real, real) {
    (a.0, -a.1)
}

/// The power with a whole exponent.
pub open spec fn complex_power(a: (real, real), n: nat) -> (real, real)
    decreases n,
{
    if n == 0 {
        complex_one()
    } else {
        complex_product(a, complex_power(a, (n - 1) as nat))
    }
}

/// Products can be taken in any order.
pub proof fn lemma_complex_commute(a: (real, real), b: (real, real))
    ensures
        complex_product(a, b) == complex_product(b, a),
{
    let ((p, q), (r, s)) = (a, b);
    lemma_commute(p, r);
    lemma_commute(q, s);
    lemma_commute(p, s);
    lemma_commute(q, r);
}

/// Products can be grouped in any way.
pub proof fn lemma_complex_associate(a: (real, real), b: (real, real), c: (real, real))
    ensures
        complex_product(complex_product(a, b), c) == complex_product(a, complex_product(b, c)),
{
    let ((p, q), (r, s), (t, u)) = (a, b, c);
    lemma_distribute(p * r, q * s, t);
    lemma_distribute(p * r, q * s, u);
    lemma_distribute(p * s, q * r, t);
    lemma_distribute(p * s, q * r, u);
    lemma_distribute(r * t, s * u, p);
    lemma_distribute(r * t, s * u, q);
    lemma_distribute(r * u, s * t, p);
    lemma_distribute(r * u, s * t, q);
    lemma_associate(p, r, t);
    lemma_associate(q, s, t);
    lemma_associate(p, s, u);
    lemma_associate(q, r, u);
    lemma_associate(p, r, u);
    lemma_associate(q, s, u);
    lemma_associate(p, s, t);
    lemma_associate(q, r, t);
}

/// Products distribute over sums.
pub proof fn lemma_complex_distribute(a: (real, real), b: (real, real), c: (real, real))
    ensures
        complex_product(a, complex_sum(b, c)) == complex_sum(
            complex_product(a, b),
            complex_product(a, c),
        ),
        complex_product(complex_sum(b, c), a) == complex_sum(
            complex_product(b, a),
            complex_product(c, a),
        ),
{
    let ((p, q), (r, s), (t, u)) = (a, b, c);
    lemma_distribute(r, t, p);
    lemma_distribute(r, t, q);
    lemma_distribute(s, u, p);
    lemma_distribute(s, u, q);
}

/// What zero, one and opposites do in products.
pub proof fn lemma_complex_units(a: (real, real), b: (real, real))
    ensures
        complex_product(a, complex_zero()) == complex_zero(),
        complex_product(complex_zero(), a) == complex_zero(),
        complex_product(a, complex_one()) == a,
        complex_product(complex_one(), a) == a,
        complex_product(a, complex_opposite(b)) == complex_opposite(complex_product(a, b)),
        complex_product(complex_opposite(a), b) == complex_opposite(complex_product(a, b)),
{
    let ((p, q), (r, s)) = (a, b);
    lemma_units(p);
    lemma_units(q);
    lemma_negate(p, r);
    lemma_negate(q, s);
    lemma_negate(p, s);
    lemma_negate(q, r);
}

/// The conjugate of a product is the product of the conjugates.
pub proof fn lemma_conjugate_product(a: (real, real), b: (real, real))
    ensures
        conjugate(complex_product(a, b)) == complex_product(conjugate(a), conjugate(b)),
{
    let ((p, q), (r, s)) = (a, b);
    lemma_negate(q, s);
    lemma_negate(p, s);
    lemma_negate(q, r);
}

} // verus!
