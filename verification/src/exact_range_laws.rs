//! Which results exact fractions can hold: all that fit are defined.
use vstd::arithmetic::div_mod::lemma_fundamental_div_mod_converse;
use vstd::prelude::*;

use crate::exact::{gcd, lemma_gcd_divides, lemma_whole_root_is, size, Exact};
use crate::exact_laws::lemma_reduced;
use crate::reals::{lemma_cast_product, lemma_div_mul};
use crate::scalar::Arith;

verus! {

/// A common factor of two numbers is a factor of their greatest common divisor.
proof fn lemma_gcd_scales(k: nat, a: nat, b: nat)
    requires
        k >= 1,
    ensures
        gcd(k * a, k * b) == k * gcd(a, b),
    decreases b,
{
    if b == 0 {
        assert(k * b == 0) by (nonlinear_arith)
            requires
                b == 0,
        ;
    } else {
        let (q, r) = (a / b, a % b);
        assert(k * b >= 1) by (nonlinear_arith)
            requires
                k >= 1,
                b >= 1,
        ;
        assert(k * a == q * (k * b) + k * r && 0 <= k * r < k * b) by (nonlinear_arith)
            requires
                k >= 1,
                b >= 1,
                q == a / b,
                r == a % b,
        ;
        lemma_fundamental_div_mod_converse((k * a) as int, (k * b) as int, q as int, (k * r) as int);
        lemma_gcd_scales(k, b, r);
    }
}

/// No fraction with the same value has a smaller numerator or denominator than the one in lowest
/// terms.
proof fn lemma_lowest_terms(a: nat, b: nat, c: nat, e: nat)
    requires
        b >= 1,
        e >= 1,
        a * e == c * b,
    ensures
        0 <= a / gcd(a, b) <= c,
        1 <= b / gcd(a, b) <= e,
{
    let (g, h) = (gcd(a, b), gcd(c, e));
    lemma_gcd_divides(a, b);
    lemma_gcd_divides(c, e);
    lemma_gcd_scales(e, a, b);
    lemma_gcd_scales(b, c, e);
    assert(e * a == b * c && e * b == b * e) by (nonlinear_arith)
        requires
            a * e == c * b,
    ;
    assert(e * g == b * h);
    let (u, v) = (a / g, b / g);
    assert(u >= 0) by (nonlinear_arith)
        requires
            g > 0,
            u == a / g,
    ;
    assert(a == u * g && b == v * g) by (nonlinear_arith)
        requires
            g > 0,
            a % g == 0,
            b % g == 0,
            u == a / g,
            v == b / g,
    ;
    assert(v >= 1) by (nonlinear_arith)
        requires
            b == v * g,
            b >= 1,
    ;
    assert(v * h == e) by (nonlinear_arith)
        requires
            e * g == b * h,
            b == v * g,
            g > 0,
    ;
    assert(v <= e) by (nonlinear_arith)
        requires
            v * h == e,
            h > 0,
    ;
    assert(u * e == c * v) by (nonlinear_arith)
        requires
            a * e == c * b,
            a == u * g,
            b == v * g,
            g > 0,
    ;
    assert(u * h == c) by (nonlinear_arith)
        requires
            u * e == c * v,
            v * h == e,
            v >= 1,
    ;
    assert(u <= c) by (nonlinear_arith)
        requires
            u * h == c,
            h > 0,
    ;
}

/// A fraction fits if some fraction of its value does.
proof fn lemma_fits(n: int, d: int, c: Exact)
    requires
        d != 0,
        c.defined(),
        c.value() == n as real / d as real,
    ensures
        Exact::reduced(n, d).defined(),
{
    let (m, e) = (c.num as int, c.den as int);
    lemma_cast_product(m, d);
    lemma_cast_product(n, e);
    lemma_div_mul(n as real, d as real);
    lemma_div_mul(m as real, e as real);
    let v = c.value();
    assert(m as real * d as real == n as real * e as real) by (nonlinear_arith)
        requires
            v * d as real == n as real,
            v * e as real == m as real,
    ;
    assert(m * d == n * e);
    let (a, b, k) = (size(n), size(d), size(m));
    assert(a * (e as nat) == k * b) by (nonlinear_arith)
        requires
            m * d == n * e,
            e >= 1,
            a == size(n),
            b == size(d),
            k == size(m),
    ;
    lemma_lowest_terms(a, b, k, e as nat);
    let g = gcd(a, b);
    assert(a / g <= k <= i64::MAX);
    assert(1 <= b / g <= i64::MAX);
    let u = a / g;
    assert((-u) as i64 == -u);
}

/// The arithmetic gives a number wherever some fraction of this kind holds the result, and none
/// where an operand is none or the result does not exist.
pub proof fn law_exact_results_that_fit(a: Exact, b: Exact, c: Exact)
    requires
        a.defined(),
        b.defined(),
        c.defined(),
    ensures
        c.value() == a.value() + b.value() ==> a.plus(b).defined(),
        c.value() == a.value() - b.value() ==> a.minus(b).defined(),
        c.value() == a.value() * b.value() ==> a.times(b).defined(),
        b.value() != 0real && c.value() == a.value() / b.value() ==> a.over(b).defined(),
        b.value() == 0real ==> !a.over(b).defined(),
        a.negated().defined(),
        a.finite(),
{
    let (m, n, p, q) = (a.num as int, b.num as int, a.den as int, b.den as int);
    lemma_cast_product(m, q);
    lemma_cast_product(n, p);
    lemma_cast_product(p, q);
    lemma_cast_product(m, n);
    lemma_cast_product(p, n);
    let (rm, rn, rp, rq) = (m as real, n as real, p as real, q as real);
    assert(p * q > 0) by (nonlinear_arith)
        requires
            p > 0,
            q > 0,
    ;
    let (x, y) = (a.value(), b.value());
    lemma_div_mul(rm, rp);
    lemma_div_mul(rn, rq);
    let s = rp * rq;
    assert(s > 0real) by (nonlinear_arith)
        requires
            rp > 0real,
            rq > 0real,
            s == rp * rq,
    ;
    if c.value() == x + y {
        let t = rm * rq + rn * rp;
        lemma_div_mul(t, s);
        assert(t / s == x + y) by (nonlinear_arith)
            requires
                x * rp == rm,
                y * rq == rn,
                s == rp * rq,
                t == rm * rq + rn * rp,
                (t / s) * s == t,
                s > 0real,
        ;
        lemma_fits(m * q + n * p, p * q, c);
    }
    if c.value() == x - y {
        let t = rm * rq - rn * rp;
        lemma_div_mul(t, s);
        assert(t / s == x - y) by (nonlinear_arith)
            requires
                x * rp == rm,
                y * rq == rn,
                s == rp * rq,
                t == rm * rq - rn * rp,
                (t / s) * s == t,
                s > 0real,
        ;
        lemma_fits(m * q - n * p, p * q, c);
    }
    if c.value() == x * y {
        let t = rm * rn;
        lemma_div_mul(t, s);
        assert(t / s == x * y) by (nonlinear_arith)
            requires
                x * rp == rm,
                y * rq == rn,
                s == rp * rq,
                t == rm * rn,
                (t / s) * s == t,
                s > 0real,
        ;
        lemma_fits(m * n, p * q, c);
    }
    if y != 0real {
        assert(n != 0) by {
            if n == 0 {
                assert(rn == 0real);
                assert(y == 0real) by (nonlinear_arith)
                    requires
                        y * rq == rn,
                        rn == 0real,
                        rq > 0real,
                ;
            }
        }
        assert(p * n != 0) by (nonlinear_arith)
            requires
                p > 0,
                n != 0,
        ;
        if c.value() == x / y {
            let (t, w) = (rm * rq, rp * rn);
            lemma_div_mul(t, w);
            lemma_div_mul(x, y);
            let z = x / y;
            assert(t / w == z) by (nonlinear_arith)
                requires
                    x * rp == rm,
                    y * rq == rn,
                    t == rm * rq,
                    w == rp * rn,
                    (t / w) * w == t,
                    z * y == x,
                    w != 0real,
            ;
            lemma_fits(m * q, p * n, c);
        }
    } else {
        assert(rn == 0real) by (nonlinear_arith)
            requires
                y * rq == rn,
                y == 0real,
        ;
        assert(n == 0);
        assert(p * n == 0) by (nonlinear_arith)
            requires
                n == 0,
        ;
    }
    let o = Exact { num: (-m) as i64, den: a.den };
    assert(o.num as int == -m);
    lemma_fits(-m, p, o);
}

/// What is computed from no number is no number, and it is not in order with any.
pub proof fn law_exact_undefined(a: Exact, b: Exact)
    requires
        !a.defined(),
    ensures
        !a.plus(b).defined() && !b.plus(a).defined(),
        !a.minus(b).defined() && !b.minus(a).defined(),
        !a.times(b).defined() && !b.times(a).defined(),
        !a.over(b).defined() && !b.over(a).defined(),
        !a.negated().defined(),
        !a.root().defined(),
        !a.below(b) && !b.below(a),
        !a.at_most(b) && !b.at_most(a),
        !a.finite(),
        a.floor_index() == 0,
{
}

/// A fraction of two squares has a root.
pub proof fn law_exact_root_of_squares(a: Exact, r: nat, s: nat)
    requires
        a.defined(),
        a.num == r * r,
        a.den == s * s,
    ensures
        a.root().defined(),
        a.root().value() * s as real == r as real,
{
    assert(s >= 1) by (nonlinear_arith)
        requires
            s * s >= 1,
    ;
    assert(r <= r * r && s <= s * s) by (nonlinear_arith)
        requires
            s >= 1,
    ;
    assert(r * r < (r + 1) * (r + 1) && s * s < (s + 1) * (s + 1)) by (nonlinear_arith);
    lemma_whole_root_is(r * r, r);
    lemma_whole_root_is(s * s, s);
    let c = Exact { num: r as i64, den: s as i64 };
    lemma_fits(r as int, s as int, c);
    lemma_reduced(r as int, s as int);
    lemma_div_mul(r as real, s as real);
}

/// Whole numbers and ratios that fit are defined.
pub proof fn law_exact_constants_that_fit(n: usize, m: u32, d: u32)
    ensures
        n <= i64::MAX ==> Exact::whole(n).defined() && Exact::whole(n).value() == n as real,
        d > 0 ==> Exact::ratio(m, d).defined() && Exact::ratio(m, d).value() * d as real
            == m as real,
{
    if n <= i64::MAX {
        lemma_fits(n as int, 1, Exact { num: n as i64, den: 1 });
        lemma_reduced(n as int, 1);
    }
    if d > 0 {
        lemma_fits(m as int, d as int, Exact { num: m as i64, den: d as i64 });
        lemma_reduced(m as int, d as int);
        lemma_div_mul(m as real, d as real);
    }
}

} // verus!
