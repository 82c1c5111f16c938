//! Exact rational numbers of bounded size.
//!
//! On these the estimators compute without rounding. A result that is no such number, or one that
//! does not fit, is undefined, and so is what is computed from it.
use vstd::prelude::*;

use crate::scalar::{Arith, Scalar};

verus! {

/// The fraction `num / den`. With a denominator that is not positive it is undefined, and so it is
/// with the one numerator that has no opposite.
#[derive(Clone, Copy, Debug, PartialEq, Eq, Structural)]
pub struct Exact {
    /// The numerator.
    pub num: i64,
    /// The denominator.
    pub den: i64,
}

/// The greatest common divisor.
pub open spec fn gcd(a: nat, b: nat) -> nat
    decreases b,
{
    if b == 0 {
        a
    } else {
        gcd(b, a % b)
    }
}

/// The absolute value.
pub open spec fn size(a: int) -> nat {
    if a < 0 {
        (-a) as nat
    } else {
        a as nat
    }
}

/// The largest whole number whose square is not above `n`.
pub open spec fn whole_root(n: nat) -> nat
    decreases n,
{
    if n == 0 {
        0
    } else {
        let r = whole_root((n - 1) as nat);
        if (r + 1) * (r + 1) <= n {
            r + 1
        } else {
            r
        }
    }
}

impl Exact {
    /// Whether there is a number.
    pub open spec fn defined(self) -> bool {
        self.den > 0 && self.num > i64::MIN
    }

    /// No number.
    pub open spec fn undefined() -> Exact {
        Exact { num: 0, den: 0 }
    }

    /// The number, where there is one.
    pub open spec fn value(self) -> real {
        self.num as real / self.den as real
    }

    /// The fraction `n / d` in lowest terms, if it fits.
    pub open spec fn reduced(n: int, d: int) -> Exact {
        let g = gcd(size(n), size(d));
        let a = size(n) / g;
        let b = size(d) / g;
        if d == 0 || a > i64::MAX || b > i64::MAX {
            Exact::undefined()
        } else if (n < 0) != (d < 0) {
            Exact { num: (-a) as i64, den: b as i64 }
        } else {
            Exact { num: a as i64, den: b as i64 }
        }
    }
}

impl Exact {
    /// Whether there is a number.
    pub fn is_defined(self) -> (r: bool)
        ensures
            r == self.defined(),
    {
        self.den > 0 && self.num > i64::MIN
    }
}

impl Arith for Exact {
    open spec fn plus(self, other: Exact) -> Exact {
        if self.defined() && other.defined() {
            Exact::reduced(self.num * other.den + other.num * self.den, self.den * other.den)
        } else {
            Exact::undefined()
        }
    }

    open spec fn minus(self, other: Exact) -> Exact {
        if self.defined() && other.defined() {
            Exact::reduced(self.num * other.den - other.num * self.den, self.den * other.den)
        } else {
            Exact::undefined()
        }
    }

    open spec fn times(self, other: Exact) -> Exact {
        if self.defined() && other.defined() {
            Exact::reduced(self.num * other.num, self.den * other.den)
        } else {
            Exact::undefined()
        }
    }

    open spec fn over(self, other: Exact) -> Exact {
        if self.defined() && other.defined() {
            Exact::reduced(self.num * other.den, self.den * other.num)
        } else {
            Exact::undefined()
        }
    }

    open spec fn negated(self) -> Exact {
        if self.defined() {
            Exact::reduced(-self.num, self.den as int)
        } else {
            Exact::undefined()
        }
    }

    open spec fn root(self) -> Exact {
        let a = whole_root(size(self.num as int));
        let b = whole_root(size(self.den as int));
        if self.defined() && self.num >= 0 && a * a == self.num && b * b == self.den {
            Exact::reduced(a as int, b as int)
        } else {
            Exact::undefined()
        }
    }

    open spec fn below(self, other: Exact) -> bool {
        self.defined() && other.defined() && self.num * other.den < other.num * self.den
    }

    open spec fn at_most(self, other: Exact) -> bool {
        self.defined() && other.defined() && self.num * other.den <= other.num * self.den
    }

    open spec fn finite(self) -> bool {
        self.defined()
    }

    open spec fn floor_index(self) -> usize {
        if !self.defined() || self.num < 0 {
            0
        } else if self.num as int / self.den as int > usize::MAX {
            usize::MAX
        } else {
            (self.num as int / self.den as int) as usize
        }
    }

    open spec fn whole(n: usize) -> Exact {
        Exact::reduced(n as int, 1)
    }

    open spec fn ratio(n: u32, d: u32) -> Exact {
        Exact::reduced(n as int, d as int)
    }
}

/// Facts about products of numerators and denominators, which keep them apart from overflow.
proof fn lemma_products(a: i64, b: i64)
    by (nonlinear_arith)
    ensures
        -0x4000_0000_0000_0000_0000_0000_0000_0000 <= a * b
            <= 0x4000_0000_0000_0000_0000_0000_0000_0000,
        b > 0 ==> -0x4000_0000_0000_0000_0000_0000_0000_0000 < a * b
            < 0x4000_0000_0000_0000_0000_0000_0000_0000,
{
}

/// The greatest common divisor of `a` and `b`.
fn common_divisor(a: u128, b: u128) -> (r: u128)
    ensures
        r == gcd(a as nat, b as nat),
{
    let mut x: u128 = a;
    let mut y: u128 = b;
    while y != 0
        invariant
            gcd(x as nat, y as nat) == gcd(a as nat, b as nat),
        decreases y,
    {
        let z: u128 = x % y;
        x = y;
        y = z;
    }
    x
}

/// The greatest common divisor divides both numbers.
pub proof fn lemma_gcd_divides(a: nat, b: nat)
    requires
        a > 0 || b > 0,
    ensures
        gcd(a, b) > 0,
        a % gcd(a, b) == 0,
        b % gcd(a, b) == 0,
    decreases b,
{
    if b == 0 {
        assert(a % a == 0) by (nonlinear_arith)
            requires
                a > 0,
        ;
        assert(0nat % a == 0) by (nonlinear_arith)
            requires
                a > 0,
        ;
    } else {
        lemma_gcd_divides(b, a % b);
        let g = gcd(b, a % b);
        let m = a % b;
        let q = a / b;
        let s = b / g;
        let t = m / g;
        assert(a == (q * s + t) * g && a % g == 0) by (nonlinear_arith)
            requires
                g > 0,
                b > 0,
                b % g == 0,
                m % g == 0,
                m == a % b,
                q == a / b,
                s == b / g,
                t == m / g,
        ;
    }
}

/// The absolute value of `a`.
fn size_of_i128(a: i128) -> (r: u128)
    requires
        a > i128::MIN,
    ensures
        r == size(a as int),
{
    if a < 0 {
        (-a) as u128
    } else {
        a as u128
    }
}

/// The fraction `n / d` in lowest terms, if it fits.
fn reduce(n: i128, d: i128) -> (r: Exact)
    requires
        n > i128::MIN,
        d > i128::MIN,
    ensures
        r == Exact::reduced(n as int, d as int),
{
    if d == 0 {
        return Exact { num: 0, den: 0 };
    }
    let x: u128 = size_of_i128(n);
    let y: u128 = size_of_i128(d);
    let g: u128 = common_divisor(x, y);
    proof {
        lemma_gcd_divides(x as nat, y as nat);
    }
    let a: u128 = x / g;
    let b: u128 = y / g;
    if a > 0x7fff_ffff_ffff_ffff || b > 0x7fff_ffff_ffff_ffff {
        return Exact { num: 0, den: 0 };
    }
    if (n < 0) != (d < 0) {
        Exact { num: -(a as i64), den: b as i64 }
    } else {
        Exact { num: a as i64, den: b as i64 }
    }
}

/// What the whole root of `n` is.
proof fn lemma_whole_root(n: nat)
    ensures
        whole_root(n) * whole_root(n) <= n,
        n < (whole_root(n) + 1) * (whole_root(n) + 1),
    decreases n,
{
    if n > 0 {
        lemma_whole_root((n - 1) as nat);
        let r = whole_root((n - 1) as nat);
        assert((r + 2) * (r + 2) > (r + 1) * (r + 1)) by (nonlinear_arith);
    } else {
        assert(whole_root(0) == 0);
        assert(0nat * 0nat == 0 && (0nat + 1) * (0nat + 1) == 1) by (nonlinear_arith);
    }
}

/// There is one number whose square is not above `n` while that of the next one is.
pub proof fn lemma_whole_root_is(n: nat, r: nat)
    requires
        r * r <= n,
        n < (r + 1) * (r + 1),
    ensures
        r == whole_root(n),
{
    lemma_whole_root(n);
    let w = whole_root(n);
    assert(r == w) by (nonlinear_arith)
        requires
            r * r <= n,
            n < (r + 1) * (r + 1),
            w * w <= n,
            n < (w + 1) * (w + 1),
    ;
}

/// The largest whole number whose square is not above `n`.
fn root_of_i64(n: i64) -> (r: i64)
    requires
        n >= 0,
    ensures
        r == whole_root(n as nat),
{
    let mut low: i128 = 0;
    let mut high: i128 = 0x1_0000_0000;
    proof {
        assert(n < high * high) by (nonlinear_arith)
            requires
                high == 0x1_0000_0000,
                n <= i64::MAX,
        ;
        assert(low * low == 0);
    }
    while low + 1 < high
        invariant
            0 <= low < high <= 0x1_0000_0000,
            low * low <= n < high * high,
        decreases high - low,
    {
        let mid: i128 = (low + high) / 2;
        proof {
            assert(0 <= mid * mid <= 0x1_0000_0000_0000_0000) by (nonlinear_arith)
                requires
                    0 <= mid <= 0x1_0000_0000,
            ;
        }
        if mid * mid <= n as i128 {
            low = mid;
        } else {
            high = mid;
        }
    }
    proof {
        assert(high == low + 1);
        lemma_whole_root_is(n as nat, low as nat);
    }
    low as i64
}

impl Scalar for Exact {
    fn sum(self, other: Exact) -> (r: Exact) {
        if !self.is_defined() || !other.is_defined() {
            return Exact { num: 0, den: 0 };
        }
        proof {
            lemma_products(self.num, other.den);
            lemma_products(other.num, self.den);
            lemma_products(self.den, other.den);
        }
        reduce(
            self.num as i128 * other.den as i128 + other.num as i128 * self.den as i128,
            self.den as i128 * other.den as i128,
        )
    }

    fn difference(self, other: Exact) -> (r: Exact) {
        if !self.is_defined() || !other.is_defined() {
            return Exact { num: 0, den: 0 };
        }
        proof {
            lemma_products(self.num, other.den);
            lemma_products(other.num, self.den);
            lemma_products(self.den, other.den);
        }
        reduce(
            self.num as i128 * other.den as i128 - other.num as i128 * self.den as i128,
            self.den as i128 * other.den as i128,
        )
    }

    fn product(self, other: Exact) -> (r: Exact) {
        if !self.is_defined() || !other.is_defined() {
            return Exact { num: 0, den: 0 };
        }
        proof {
            lemma_products(self.num, other.num);
            lemma_products(self.den, other.den);
        }
        reduce(self.num as i128 * other.num as i128, self.den as i128 * other.den as i128)
    }

    fn quotient(self, other: Exact) -> (r: Exact) {
        if !self.is_defined() || !other.is_defined() {
            return Exact { num: 0, den: 0 };
        }
        proof {
            lemma_products(self.num, other.den);
            lemma_products(self.den, other.num);
        }
        reduce(self.num as i128 * other.den as i128, self.den as i128 * other.num as i128)
    }

    fn opposite(self) -> (r: Exact) {
        if !self.is_defined() {
            return Exact { num: 0, den: 0 };
        }
        reduce(-(self.num as i128), self.den as i128)
    }

    fn square_root(self) -> (r: Exact) {
        if !self.is_defined() || self.num < 0 {
            return Exact { num: 0, den: 0 };
        }
        let a: i64 = root_of_i64(self.num);
        let b: i64 = root_of_i64(self.den);
        proof {
            lemma_products(a, a);
            lemma_products(b, b);
        }
        if a as i128 * a as i128 == self.num as i128 && b as i128 * b as i128 == self.den as i128 {
            reduce(a as i128, b as i128)
        } else {
            Exact { num: 0, den: 0 }
        }
    }

    fn is_below(self, other: Exact) -> (r: bool) {
        if !self.is_defined() || !other.is_defined() {
            return false;
        }
        proof {
            lemma_products(self.num, other.den);
            lemma_products(other.num, self.den);
        }
        (self.num as i128 * other.den as i128) < other.num as i128 * self.den as i128
    }

    fn is_at_most(self, other: Exact) -> (r: bool) {
        if !self.is_defined() || !other.is_defined() {
            return false;
        }
        proof {
            lemma_products(self.num, other.den);
            lemma_products(other.num, self.den);
        }
        self.num as i128 * other.den as i128 <= other.num as i128 * self.den as i128
    }

    fn is_finite(self) -> (r: bool) {
        self.is_defined()
    }

    fn floor_to_index(self) -> (r: usize) {
        if !self.is_defined() || self.num < 0 {
            return 0;
        }
        let q: u64 = self.num as u64 / self.den as u64;
        if q > usize::MAX as u64 {
            usize::MAX
        } else {
            q as usize
        }
    }

    fn of_usize(n: usize) -> (r: Exact) {
        reduce(n as i128, 1)
    }

    fn of_ratio(n: u32, d: u32) -> (r: Exact) {
        reduce(n as i128, d as i128)
    }
}

} // verus!
