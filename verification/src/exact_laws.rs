//! The exact numbers compute as the real ones do.
use vstd::prelude::*;

use crate::exact::{gcd, lemma_gcd_divides, size, whole_root, Exact};
use crate::reals::{lemma_cast_product, lemma_div_mul};
use crate::scalar::{is_root, Arith};

verus! {

/// Two quotients are equal if their cross products are.
proof fn lemma_same_quotient(a: real, b: real, c: real, d: real)
    by (nonlinear_arith)
    requires
        b != 0real,
        d != 0real,
        a * d == c * b,
    ensures
        a / b == c / d,
{
}

/// A reduced fraction has the value of the fraction.
pub proof fn lemma_reduced(n: int, d: int)
    requires
        d != 0,
        Exact::reduced(n, d).defined(),
    ensures
        Exact::reduced(n, d).value() == n as real / d as real,
{
    let (x, y) = (size(n), size(d));
    lemma_gcd_divides(x, y);
    let g = gcd(x, y);
    let (a, b) = (x / g, y / g);
    let r = Exact::reduced(n, d);
    assert(r.num * d == n * r.den) by (nonlinear_arith)
        requires
            g > 0,
            x % g == 0,
            y % g == 0,
            a == x / g,
            b == y / g,
            x == size(n),
            y == size(d),
            r.den == b,
            r.num == if (n < 0) != (d < 0) {
                -a
            } else {
                a as int
            },
    {
        assert(x == a * g && y == b * g);
    }
    lemma_cast_product(r.num as int, d);
    lemma_cast_product(n, r.den as int);
    lemma_same_quotient(r.num as real, r.den as real, n as real, d as real);
}

/// Sums, differences, products, quotients and opposites have the values that they should, where
/// they are defined.
pub proof fn law_exact_operations(a: Exact, b: Exact)
    requires
        a.defined(),
        b.defined(),
    ensures
        a.plus(b).defined() ==> a.plus(b).value() == a.value() + b.value(),
        a.minus(b).defined() ==> a.minus(b).value() == a.value() - b.value(),
        a.times(b).defined() ==> a.times(b).value() == a.value() * b.value(),
        a.over(b).defined() ==> b.value() != 0real && a.over(b).value() == a.value() / b.value(),
        a.negated().defined() ==> a.negated().value() == -a.value(),
{
    let (m, n) = (a.num as int, b.num as int);
    let (p, q) = (a.den as int, b.den as int);
    lemma_cast_product(m, q);
    lemma_cast_product(n, p);
    lemma_cast_product(p, q);
    lemma_cast_product(m, n);
    lemma_cast_product(p, n);
    let (rm, rn, rp, rq) = (m as real, n as real, p as real, q as real);
    assert(p * q > 0) by (nonlinear_arith)
        requires
            p > 0,
            q > 0,
    ;
    if a.plus(b).defined() {
        lemma_reduced(m * q + n * p, p * q);
        assert((rm * rq + rn * rp) / (rp * rq) == rm / rp + rn / rq) by (nonlinear_arith)
            requires
                rp > 0real,
                rq > 0real,
        ;
    }
    if a.minus(b).defined() {
        lemma_reduced(m * q - n * p, p * q);
        assert((rm * rq - rn * rp) / (rp * rq) == rm / rp - rn / rq) by (nonlinear_arith)
            requires
                rp > 0real,
                rq > 0real,
        ;
    }
    if a.times(b).defined() {
        lemma_reduced(m * n, p * q);
        assert((rm * rn) / (rp * rq) == (rm / rp) * (rn / rq)) by (nonlinear_arith)
            requires
                rp > 0real,
                rq > 0real,
        ;
    }
    if a.over(b).defined() {
        assert(n != 0 && p * n != 0) by (nonlinear_arith)
            requires
                p > 0,
                p * n != 0,
        ;
        lemma_reduced(m * q, p * n);
        assert(rn / rq != 0real && (rm * rq) / (rp * rn) == (rm / rp) / (rn / rq))
            by (nonlinear_arith)
            requires
                rp > 0real,
                rq > 0real,
                rn != 0real,
        ;
    }
    if a.negated().defined() {
        lemma_reduced(-m, p);
        assert((-rm) / rp == -(rm / rp)) by (nonlinear_arith)
            requires
                rp > 0real,
        ;
    }
}

/// The order of the numbers is the order of their values.
pub proof fn law_exact_order(a: Exact, b: Exact)
    requires
        a.defined(),
        b.defined(),
    ensures
        a.below(b) <==> a.value() < b.value(),
        a.at_most(b) <==> a.value() <= b.value(),
{
    lemma_cast_product(a.num as int, b.den as int);
    lemma_cast_product(b.num as int, a.den as int);
    let (m, n, p, q) = (a.num as real, b.num as real, a.den as real, b.den as real);
    assert((m * q < n * p <==> m / p < n / q) && (m * q <= n * p <==> m / p <= n / q))
        by (nonlinear_arith)
        requires
            p > 0real,
            q > 0real,
    ;
}

/// A root that is defined is the square root of the value.
pub proof fn law_exact_root(a: Exact)
    requires
        a.root().defined(),
    ensures
        is_root(a.root().value(), a.value()),
{
    let m = whole_root(size(a.num as int)) as int;
    let p = whole_root(size(a.den as int)) as int;
    assert(p > 0) by (nonlinear_arith)
        requires
            p * p == a.den,
            a.den > 0,
            p >= 0,
    ;
    lemma_reduced(m, p);
    lemma_cast_product(m, m);
    lemma_cast_product(p, p);
    let (x, y) = (m as real, p as real);
    assert(x / y >= 0real && (x / y) * (x / y) == (x * x) / (y * y)) by (nonlinear_arith)
        requires
            x >= 0real,
            y > 0real,
    ;
}

/// The index below a number is that below its value.
pub proof fn law_exact_floor(a: Exact)
    requires
        a.defined(),
    ensures
        a.floor_index() == a.value().floor_index(),
{
    let (m, p) = (a.num as int, a.den as int);
    let q = m / p;
    let (x, y) = (m as real, p as real);
    let v = a.value();
    lemma_div_mul(x, y);
    assert(q * p <= m < q * p + p) by (nonlinear_arith)
        requires
            p > 0,
            q == m / p,
    ;
    lemma_cast_product(q, p);
    let z = q as real;
    assert(z <= v < z + 1real) by (nonlinear_arith)
        requires
            v * y == x,
            y > 0real,
            z * y <= x < z * y + y,
    ;
    assert(v.floor() == q);
    assert(m < 0 <==> v < 0real) by (nonlinear_arith)
        requires
            v * y == x,
            y > 0real,
            x == m as real,
    ;
}

/// Whole numbers and ratios have the values that they should, where they are defined.
pub proof fn law_exact_constants(n: usize, m: u32, d: u32)
    ensures
        Exact::whole(n).defined() ==> Exact::whole(n).value() == n as real,
        Exact::ratio(m, d).defined() ==> d != 0 && Exact::ratio(m, d).value() == m as real
            / d as real,
{
    if Exact::whole(n).defined() {
        lemma_reduced(n as int, 1);
    }
    if Exact::ratio(m, d).defined() {
        lemma_reduced(m as int, d as int);
    }
}

} // verus!
