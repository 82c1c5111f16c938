//! The arithmetic that the estimators run on.
use vstd::prelude::*;

verus! {

/// The arithmetic of a number type, as functions of its values.
///
/// Nothing is said here of how the operations behave: rounding types and exact
/// types both have an arithmetic. What needs the laws of a field is proved for
/// `real`.
pub trait Arith: Sized {
    /// `self + other`.
    spec fn plus(self, other: Self) -> Self;

    /// `self - other`.
    spec fn minus(self, other: Self) -> Self;

    /// `self * other`.
    spec fn times(self, other: Self) -> Self;

    /// `self / other`.
    spec fn over(self, other: Self) -> Self;

    /// `-self`.
    spec fn negated(self) -> Self;

    /// The nonnegative square root.
    spec fn root(self) -> Self;

    /// `self < other`.
    spec fn below(self, other: Self) -> bool;

    /// `self <= other`.
    spec fn at_most(self, other: Self) -> bool;

    /// Neither infinite nor undefined.
    spec fn finite(self) -> bool;

    /// The largest whole number that is not above `self`, brought into the range of `usize`.
    spec fn floor_index(self) -> usize;

    /// The number `n`.
    spec fn whole(n: usize) -> Self;

    /// The number `n / d`.
    spec fn ratio(n: u32, d: u32) -> Self;
}

/// A number type that computes its arithmetic.
pub trait Scalar: Arith + Copy + Send + Sync {
    /// `self + other`.
    fn sum(self, other: Self) -> (r: Self)
        ensures
            r == self.plus(other),
    ;

    /// `self - other`.
    fn difference(self, other: Self) -> (r: Self)
        ensures
            r == self.minus(other),
    ;

    /// `self * other`.
    fn product(self, other: Self) -> (r: Self)
        ensures
            r == self.times(other),
    ;

    /// `self / other`.
    fn quotient(self, other: Self) -> (r: Self)
        ensures
            r == self.over(other),
    ;

    /// `-self`.
    fn opposite(self) -> (r: Self)
        ensures
            r == self.negated(),
    ;

    /// The nonnegative square root.
    fn square_root(self) -> (r: Self)
        ensures
            r == self.root(),
    ;

    /// `self < other`.
    fn is_below(self, other: Self) -> (r: bool)
        ensures
            r == self.below(other),
    ;

    /// `self <= other`.
    fn is_at_most(self, other: Self) -> (r: bool)
        ensures
            r == self.at_most(other),
    ;

    /// Whether `self` is neither infinite nor undefined.
    fn is_finite(self) -> (r: bool)
        ensures
            r == self.finite(),
    ;

    /// The largest whole number that is not above `self`, brought into the range of `usize`.
    fn floor_to_index(self) -> (r: usize)
        ensures
            r == self.floor_index(),
    ;

    /// The number `n`.
    fn of_usize(n: usize) -> (r: Self)
        ensures
            r == Self::whole(n),
    ;

    /// The number `n / d`.
    fn of_ratio(n: u32, d: u32) -> (r: Self)
        requires
            d > 0,
        ensures
            r == Self::ratio(n, d),
    ;
}

/// Whether `r` is the nonnegative square root of `x`.
pub open spec fn is_root(r: real, x: real) -> bool {
    r >= 0real && r * r == x
}

/// Exact arithmetic.
impl Arith for real {
    open spec fn plus(self, other: real) -> real {
        self + other
    }

    open spec fn minus(self, other: real) -> real {
        self - other
    }

    open spec fn times(self, other: real) -> real {
        self * other
    }

    open spec fn over(self, other: real) -> real {
        self / other
    }

    open spec fn negated(self) -> real {
        -self
    }

    open spec fn root(self) -> real {
        choose|r: real| is_root(r, self)
    }

    open spec fn below(self, other: real) -> bool {
        self < other
    }

    open spec fn at_most(self, other: real) -> bool {
        self <= other
    }

    open spec fn finite(self) -> bool {
        true
    }

    open spec fn floor_index(self) -> usize {
        if self < 0real {
            0
        } else if self.floor() > usize::MAX {
            usize::MAX
        } else {
            self.floor() as usize
        }
    }

    open spec fn whole(n: usize) -> real {
        n as real
    }

    open spec fn ratio(n: u32, d: u32) -> real {
        n as real / d as real
    }
}

/// `0`.
pub open spec fn zero<T: Arith>() -> T {
    T::whole(0)
}

/// `1`.
pub open spec fn one<T: Arith>() -> T {
    T::whole(1)
}

/// `1 / 2`.
pub open spec fn half<T: Arith>() -> T {
    T::ratio(1, 2)
}

/// The size below which a number counts as zero.
pub open spec fn tiny<T: Arith>() -> T {
    T::ratio(1, 1_000_000_000)
}

/// The absolute value.
pub open spec fn magnitude<T: Arith>(a: T) -> T {
    if a.below(zero()) {
        a.negated()
    } else {
        a
    }
}

/// Whether a number counts as zero.
pub open spec fn negligible<T: Arith>(a: T) -> bool {
    magnitude(a).below(tiny())
}

/// The sum of a sequence, taken from the left.
pub open spec fn total<T: Arith>(s: Seq<T>) -> T
    decreases s.len(),
{
    if s.len() == 0 {
        zero()
    } else {
        total(s.drop_last()).plus(s.last())
    }
}

/// The absolute value of `a`.
pub fn absolute<T: Scalar>(a: T) -> (r: T)
    ensures
        r == magnitude(a),
{
    if a.is_below(T::of_usize(0)) {
        a.opposite()
    } else {
        a
    }
}

/// Whether `a` counts as zero.
pub fn is_negligible<T: Scalar>(a: T) -> (r: bool)
    ensures
        r == negligible(a),
{
    absolute(a).is_below(T::of_ratio(1, 1_000_000_000))
}

/// The sum of `s`, taken from the left.
pub fn total_of<T: Scalar>(s: &[T]) -> (r: T)
    ensures
        r == total(s@),
{
    let n: usize = s.len();
    let mut acc: T = T::of_usize(0);
    for i in 0..n
        invariant
            n == s@.len(),
            acc == total(s@.take(i as int)),
    {
        proof {
            assert(s@.take(i + 1).drop_last() =~= s@.take(i as int));
        }
        acc = acc.sum(s[i]);
    }
    proof {
        assert(s@.take(n as int) =~= s@);
    }
    acc
}

} // verus!
