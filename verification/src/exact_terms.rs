//! Exact fractions are computed in lowest terms, so that equal values are equal fractions.
use vstd::prelude::*;

use crate::exact::{gcd, lemma_gcd_divides, size, whole_root, Exact};
use crate::exact_laws::law_exact_order;
use crate::exact_relation::stands_for;
use crate::scalar::Arith;

verus! {

/// A quotient without remainder.
proof fn lemma_exact_division(x: int, d: int, q: int)
    requires
        d > 0,
        x == q * d,
    ensures
        x / d == q,
        x % d == 0,
{
    vstd::arithmetic::div_mod::lemma_fundamental_div_mod_converse(x, d, q, 0);
}

/// A common factor of both numbers is a factor of the remainder.
proof fn lemma_scaled_remainder(a: nat, b: nat, k: nat)
    requires
        b >= 1,
        k >= 1,
    ensures
        (a * k) % (b * k) == (a % b) * k,
        b * k >= 1,
{
    let (q, r) = ((a / b) as int, (a % b) as int);
    vstd::arithmetic::div_mod::lemma_fundamental_div_mod(a as int, b as int);
    assert(a == q * b + r) by (nonlinear_arith)
        requires
            a == b * q + r,
    ;
    assert(a * k == q * (b * k) + r * k) by (nonlinear_arith)
        requires
            a == q * b + r,
    ;
    assert(0 <= r * k < b * k && b * k >= 1) by (nonlinear_arith)
        requires
            0 <= r < b,
            k >= 1,
    ;
    vstd::arithmetic::div_mod::lemma_fundamental_div_mod_converse(
        (a * k) as int,
        (b * k) as int,
        q,
        r * k,
    );
}

/// A common factor of both numbers is a factor of the greatest common divisor.
proof fn lemma_scaled_gcd(a: nat, b: nat, k: nat)
    requires
        k >= 1,
    ensures
        gcd(a * k, b * k) == gcd(a, b) * k,
    decreases b,
{
    if b == 0 {
        assert(b * k == 0) by (nonlinear_arith)
            requires
                b == 0,
        ;
    } else {
        lemma_scaled_remainder(a, b, k);
        lemma_scaled_gcd(b, a % b, k);
    }
}

/// A common factor changes nothing in lowest terms.
proof fn lemma_scaled_terms(n: int, d: int, k: int)
    requires
        d > 0,
        k > 0,
    ensures
        Exact::reduced(n * k, d * k) == Exact::reduced(n, d),
{
    let (x, y) = (size(n), size(d));
    assert(size(n * k) == x * k && d * k == y * k && d * k > 0 && (n * k < 0 <==> n < 0))
        by (nonlinear_arith)
        requires
            d > 0,
            k > 0,
            x == size(n),
            y == d,
    ;
    lemma_scaled_gcd(x, y, k as nat);
    lemma_gcd_divides(x, y);
    let g = gcd(x, y);
    let (a, b) = (x / g, y / g);
    vstd::arithmetic::div_mod::lemma_fundamental_div_mod(x as int, g as int);
    vstd::arithmetic::div_mod::lemma_fundamental_div_mod(y as int, g as int);
    assert(g * k > 0) by (nonlinear_arith)
        requires
            g > 0,
            k > 0,
    ;
    assert(x * k == a * (g * k)) by (nonlinear_arith)
        requires
            x == g * a,
    ;
    assert(y * k == b * (g * k)) by (nonlinear_arith)
        requires
            y == g * b,
    ;
    lemma_exact_division(x * k, g * k, a as int);
    lemma_exact_division(y * k, g * k, b as int);
}

/// Equal fractions have the same lowest terms.
proof fn lemma_same_terms(n: int, d: int, m: int, e: int)
    requires
        d > 0,
        e > 0,
        n * e == m * d,
    ensures
        Exact::reduced(n, d) == Exact::reduced(m, e),
{
    lemma_scaled_terms(n, d, e);
    lemma_scaled_terms(m, e, d);
    assert(d * e == e * d) by (nonlinear_arith);
}

/// The signs of both terms can be changed together.
proof fn lemma_signs_of_terms(n: int, d: int)
    requires
        d != 0,
        Exact::reduced(n, d).defined(),
    ensures
        Exact::reduced(-n, -d).defined(),
        Exact::reduced(n, d) == Exact::reduced(-n, -d),
{
    if n == 0 {
        reveal_with_fuel(gcd, 3);
        let y = size(d);
        assert(0nat % y == 0 && 0nat / y == 0) by (nonlinear_arith)
            requires
                y > 0,
        ;
    }
}

/// Whether the fraction is in lowest terms.
pub open spec fn in_lowest_terms(e: Exact) -> bool {
    e == Exact::reduced(e.num as int, e.den as int)
}

/// Lowest terms make the same fraction.
proof fn lemma_cross_product(n: int, d: int)
    requires
        d > 0,
        Exact::reduced(n, d).defined(),
    ensures
        Exact::reduced(n, d).num * d == n * Exact::reduced(n, d).den,
{
    let (x, y) = (size(n), size(d));
    lemma_gcd_divides(x, y);
    let g = gcd(x, y);
    let (a, b) = (x / g, y / g);
    vstd::arithmetic::div_mod::lemma_fundamental_div_mod(x as int, g as int);
    vstd::arithmetic::div_mod::lemma_fundamental_div_mod(y as int, g as int);
    assert(a * y == x * b) by (nonlinear_arith)
        requires
            x == g * a,
            y == g * b,
    ;
    if n < 0 {
        assert((-a) * d == n * b) by (nonlinear_arith)
            requires
                a * y == x * b,
                y == d,
                x == -n,
        ;
    }
}

/// What is brought to lowest terms is in lowest terms.
pub proof fn lemma_reduced_is_in_lowest_terms(n: int, d: int)
    requires
        Exact::reduced(n, d).defined(),
    ensures
        in_lowest_terms(Exact::reduced(n, d)),
{
    let r = Exact::reduced(n, d);
    if d > 0 {
        lemma_cross_product(n, d);
        lemma_same_terms(r.num as int, r.den as int, n, d);
    } else {
        lemma_signs_of_terms(n, d);
        lemma_cross_product(-n, -d);
        lemma_same_terms(r.num as int, r.den as int, -n, -d);
    }
}

/// Whether the fraction is in lowest terms, if it is defined.
pub open spec fn proper(e: Exact) -> bool {
    e.defined() ==> in_lowest_terms(e)
}

/// All results of the arithmetic are in lowest terms, where they are defined.
pub proof fn law_exact_results_are_proper(a: Exact, b: Exact, n: usize, m: u32, d: u32)
    ensures
        proper(a.plus(b)),
        proper(a.minus(b)),
        proper(a.times(b)),
        proper(a.over(b)),
        proper(a.negated()),
        proper(a.root()),
        proper(Exact::whole(n)),
        proper(Exact::ratio(m, d)),
{
    lemma_proper_results(a, b);
    if Exact::whole(n).defined() {
        lemma_reduced_is_in_lowest_terms(n as int, 1);
    }
    if Exact::ratio(m, d).defined() {
        lemma_reduced_is_in_lowest_terms(m as int, d as int);
    }
    if a.root().defined() {
        lemma_reduced_is_in_lowest_terms(
            whole_root(size(a.num as int)) as int,
            whole_root(size(a.den as int)) as int,
        );
    }
}

/// Sums, differences, products, quotients and opposites are in lowest terms, where they are defined.
proof fn lemma_proper_results(a: Exact, b: Exact)
    ensures
        proper(a.plus(b)),
        proper(a.minus(b)),
        proper(a.times(b)),
        proper(a.over(b)),
        proper(a.negated()),
{
    let (n, m, d, e) = (a.num as int, b.num as int, a.den as int, b.den as int);
    if a.plus(b).defined() {
        lemma_reduced_is_in_lowest_terms(n * e + m * d, d * e);
    }
    if a.minus(b).defined() {
        lemma_reduced_is_in_lowest_terms(n * e - m * d, d * e);
    }
    if a.times(b).defined() {
        lemma_reduced_is_in_lowest_terms(n * m, d * e);
    }
    if a.over(b).defined() {
        lemma_reduced_is_in_lowest_terms(n * e, d * m);
    }
    if a.negated().defined() {
        lemma_reduced_is_in_lowest_terms(-n, d);
    }
}

/// Fractions in lowest terms with the same value are the same.
pub proof fn law_equal_values_are_equal_fractions(a: Exact, b: Exact)
    requires
        a.defined(),
        b.defined(),
        in_lowest_terms(a),
        in_lowest_terms(b),
        a.value() == b.value(),
    ensures
        a == b,
{
    law_exact_order(a, b);
    law_exact_order(b, a);
    lemma_same_terms(a.num as int, a.den as int, b.num as int, b.den as int);
}

/// Whether the fractions are the same, if both are defined.
pub open spec fn agree(a: Exact, b: Exact) -> bool {
    a.defined() && b.defined() ==> a == b
}

/// Fractions in lowest terms that stand for the same number agree.
pub proof fn lemma_agree(a: Exact, b: Exact, x: real)
    requires
        stands_for(a, x),
        stands_for(b, x),
        proper(a),
        proper(b),
    ensures
        agree(a, b),
{
    if a.defined() && b.defined() {
        law_equal_values_are_equal_fractions(a, b);
    }
}

} // verus!
