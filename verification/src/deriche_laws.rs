//! What the fourth-order filter computes, in exact arithmetic.
//!
//! The expansion of the sum of exponentials into a rational function is exact: the two passes
//! together are the convolution of the signal with the sampled sum of exponentials.
use vstd::prelude::*;

use crate::complex::{
    complex_one, complex_zero, conjugate, lemma_complex_associate, lemma_complex_commute,
    lemma_complex_distribute, lemma_complex_units, lemma_conjugate_product,
};
use crate::deriche::{
    alpha, complex_opposite, complex_product, complex_sum, lambda, numerator, pole_product,
};
use crate::reals::{lemma_associate, lemma_commute, lemma_distribute, lemma_negate, lemma_units};
use crate::scalar::Arith;

verus! {

/// `a - p b`.
pub open spec fn less_product(a: (real, real), p: (real, real), b: (real, real)) -> (real, real) {
    complex_sum(a, complex_product(b, complex_opposite(p)))
}

/// The product over `n` poles has degree `n`, starts with one, and each further pole acts on all
/// of its coefficients in the same way.
pub proof fn lemma_pole_product(poles: Seq<(real, real)>, n: nat)
    requires
        n >= 1,
    ensures
        pole_product(poles, n).len() == n,
        pole_product(poles, n)[0] == complex_one(),
        forall|i: int|
            poles.len() < i < n ==> #[trigger] pole_product(poles, n)[i] == complex_zero(),
        poles.len() >= 1 ==> forall|i: int|
            1 <= i < n ==> #[trigger] pole_product(poles, n)[i] == less_product(
                pole_product(poles.drop_last(), n)[i],
                poles.last(),
                pole_product(poles.drop_last(), n)[i - 1],
            ),
    decreases poles.len(),
{
    if poles.len() >= 1 {
        let rest = pole_product(poles.drop_last(), n);
        lemma_pole_product(poles.drop_last(), n);
        assert forall|i: int| 1 <= i < n implies #[trigger] pole_product(poles, n)[i]
            == less_product(rest[i], poles.last(), rest[i - 1]) by {
            if i > poles.len() {
                lemma_complex_units(complex_opposite(poles.last()), complex_zero());
                assert(rest[i - 1] == complex_zero());
                assert(rest[i] == complex_zero());
            }
        }
    }
}

/// A product with room for more coefficients has the same first ones.
pub proof fn lemma_room(poles: Seq<(real, real)>)
    ensures
        forall|i: int|
            0 <= i < 4 ==> #[trigger] pole_product(poles, 4)[i] == pole_product(poles, 5)[i],
    decreases poles.len(),
{
    lemma_pole_product(poles, 4);
    lemma_pole_product(poles, 5);
    if poles.len() >= 1 {
        lemma_room(poles.drop_last());
    }
}

/// The last two poles can be exchanged.
proof fn lemma_swap_poles(s: Seq<(real, real)>, p: (real, real), q: (real, real), n: nat)
    requires
        n >= 1,
    ensures
        pole_product(s.push(p).push(q), n) == pole_product(s.push(q).push(p), n),
{
    let c = pole_product(s, n);
    let (sp, sq) = (s.push(p), s.push(q));
    let (spq, sqp) = (sp.push(q), sq.push(p));
    assert(sp.drop_last() =~= s && sq.drop_last() =~= s);
    assert(spq.drop_last() =~= sp && sqp.drop_last() =~= sq);
    lemma_pole_product(s, n);
    lemma_pole_product(sp, n);
    lemma_pole_product(sq, n);
    lemma_pole_product(spq, n);
    lemma_pole_product(sqp, n);
    assert forall|i: int| 0 <= i < n implies pole_product(spq, n)[i] == #[trigger] pole_product(
        sqp,
        n,
    )[i] by {
        if i >= 2 {
            lemma_swap_entry(c[i], c[i - 1], c[i - 2], p, q);
        } else if i == 1 {
            lemma_swap_entry(c[1], c[0], complex_zero(), p, q);
            lemma_complex_units(complex_opposite(p), complex_zero());
            lemma_complex_units(complex_opposite(q), complex_zero());
        }
    }
    assert(pole_product(spq, n) =~= pole_product(sqp, n));
}

/// One coefficient after two poles, whichever comes first.
proof fn lemma_swap_entry(
    a: (real, real),
    b: (real, real),
    c: (real, real),
    p: (real, real),
    q: (real, real),
)
    ensures
        less_product(less_product(a, p, b), q, less_product(b, p, c)) == less_product(
            less_product(a, q, b),
            p,
            less_product(b, q, c),
        ),
{
    let (p, q) = (complex_opposite(p), complex_opposite(q));
    lemma_complex_distribute(q, b, complex_product(c, p));
    lemma_complex_distribute(p, b, complex_product(c, q));
    lemma_complex_associate(c, p, q);
    lemma_complex_associate(c, q, p);
    lemma_complex_commute(p, q);
}

/// Any pole can be taken last.
pub proof fn lemma_pole_last(s: Seq<(real, real)>, k: int, n: nat)
    requires
        n >= 1,
        0 <= k < s.len(),
    ensures
        pole_product(s, n) == pole_product(s.remove(k).push(s[k]), n),
    decreases s.len(),
{
    if k == s.len() - 1 {
        assert(s.remove(k).push(s[k]) =~= s);
    } else {
        let r = s.drop_last();
        let o = r.remove(k);
        let l = s.last();
        lemma_pole_last(r, k, n);
        let moved = o.push(r[k]);
        assert(moved.push(l).drop_last() =~= moved);
        assert(pole_product(s, n) == pole_product(moved.push(l), n));
        lemma_swap_poles(o, r[k], l, n);
        assert(o.push(l).push(r[k]) =~= s.remove(k).push(s[k]));
    }
}

/// Whether the poles are two pairs of conjugates.
pub open spec fn conjugate_pairs(poles: Seq<(real, real)>) -> bool {
    &&& poles.len() == 4
    &&& poles[1] == conjugate(poles[0])
    &&& poles[3] == conjugate(poles[2])
}

/// Whether all coefficients are real.
pub open spec fn all_real(c: Seq<(real, real)>) -> bool {
    forall|i: int| 0 <= i < c.len() ==> (#[trigger] c[i]).1 == 0real
}

/// A pair of conjugates keeps real coefficients real.
proof fn lemma_pair_is_real(s: Seq<(real, real)>, p: (real, real), n: nat)
    requires
        n >= 1,
        all_real(pole_product(s, n)),
    ensures
        all_real(pole_product(s.push(p).push(conjugate(p)), n)),
{
    let q = conjugate(p);
    let c = pole_product(s, n);
    let sp = s.push(p);
    let spq = sp.push(q);
    assert(sp.drop_last() =~= s && spq.drop_last() =~= sp);
    lemma_pole_product(s, n);
    lemma_pole_product(sp, n);
    lemma_pole_product(spq, n);
    assert forall|i: int| 0 <= i < n implies (#[trigger] pole_product(spq, n)[i]).1 == 0real by {
        if i >= 1 {
            let a = c[i].0;
            let b = c[i - 1].0;
            let d = if i >= 2 {
                c[i - 2].0
            } else {
                0real
            };
            assert(c[i].1 == 0real && c[i - 1].1 == 0real);
            if i >= 2 {
                assert(c[i - 2].1 == 0real);
            }
            let t = pole_product(sp, n);
            let (u, v) = p;
            assert(t[i] == less_product(c[i], p, c[i - 1]));
            lemma_negate(b, v);
            lemma_units(-u);
            assert(t[i].1 == -(b * v));
            assert(t[i - 1].0 == b - d * u && t[i - 1].1 == -(d * v)) by {
                lemma_negate(d, u);
                lemma_negate(d, v);
                lemma_units(-v);
                if i >= 2 {
                    assert(t[i - 1] == less_product(c[i - 1], p, c[i - 2]));
                } else {
                    lemma_units(u);
                    lemma_units(v);
                }
            }
            let (x, y) = t[i - 1];
            assert(-(b * v) + (x * v + y * (-u)) == 0real) by {
                lemma_distribute(b, d * u, v);
                lemma_negate(d * v, u);
                lemma_associate(d, u, v);
                lemma_associate(d, v, u);
                lemma_commute(u, v);
            }
            lemma_negate(x, v);
            lemma_negate(y, u);
            assert(pole_product(spq, n)[i] == less_product(t[i], q, t[i - 1]));
        }
    }
}

/// The denominator of a filter whose poles are pairs of conjugates is real.
pub proof fn law_denominator_is_real(poles: Seq<(real, real)>)
    requires
        conjugate_pairs(poles),
    ensures
        all_real(pole_product(poles, 5)),
{
    let none = Seq::<(real, real)>::empty();
    let first = none.push(poles[0]).push(poles[1]);
    lemma_pair_is_real(none, poles[0], 5);
    lemma_pair_is_real(first, poles[2], 5);
    assert(first.push(poles[2]).push(poles[3]) =~= poles);
}

/// The poles conjugate, one by one.
pub open spec fn conjugates(poles: Seq<(real, real)>) -> Seq<(real, real)> {
    Seq::new(poles.len(), |k: int| conjugate(poles[k]))
}

/// The product over conjugate poles has conjugate coefficients.
proof fn lemma_conjugate_poles(poles: Seq<(real, real)>, n: nat)
    requires
        n >= 1,
    ensures
        forall|i: int|
            0 <= i < n ==> #[trigger] pole_product(conjugates(poles), n)[i] == conjugate(
                pole_product(poles, n)[i],
            ),
    decreases poles.len(),
{
    let other = conjugates(poles);
    lemma_pole_product(poles, n);
    lemma_pole_product(other, n);
    if poles.len() >= 1 {
        let rest = poles.drop_last();
        lemma_conjugate_poles(rest, n);
        assert(other.drop_last() =~= conjugates(rest));
        let (c, d) = (pole_product(rest, n), pole_product(other.drop_last(), n));
        assert forall|i: int| 0 <= i < n implies #[trigger] pole_product(other, n)[i] == conjugate(
            pole_product(poles, n)[i],
        ) by {
            if i >= 1 {
                assert(d[i] == conjugate(c[i]) && d[i - 1] == conjugate(c[i - 1]));
                lemma_conjugate_product(c[i - 1], complex_opposite(poles.last()));
            }
        }
    }
}

/// A number and its conjugate, weighted by conjugates, have a real sum.
proof fn lemma_conjugate_sum(a: (real, real), b: (real, real))
    ensures
        complex_product(a, b).1 + complex_product(conjugate(a), conjugate(b)).1 == 0real,
{
    lemma_conjugate_product(a, b);
}

/// The numerator of a filter whose poles are pairs of conjugates is real.
pub proof fn law_numerator_is_real(poles: Seq<(real, real)>)
    requires
        conjugate_pairs(poles),
    ensures
        all_real(numerator(poles, 4)),
{
    let (p, q) = (poles[0], poles[2]);
    let none = Seq::<(real, real)>::empty();
    let r0 = poles.remove(0);
    let r1 = poles.remove(1);
    let r2 = poles.remove(2);
    let r3 = poles.remove(3);
    lemma_conjugate_poles(r0, 4);
    lemma_conjugate_poles(r2, 4);
    assert(conjugate(conjugate(p)) == p && conjugate(conjugate(q)) == q);
    assert(conjugates(r0) =~= none.push(p).push(conjugate(q)).push(q));
    assert(r1 =~= none.push(p).push(q).push(conjugate(q)));
    lemma_swap_poles(none.push(p), q, conjugate(q), 4);
    let (a, b) = (none.push(conjugate(p)).push(p), none.push(p).push(conjugate(p)));
    lemma_swap_poles(none, conjugate(p), p, 4);
    assert(conjugates(r2) =~= a.push(q));
    assert(r3 =~= b.push(q));
    assert(a.push(q).drop_last() =~= a && b.push(q).drop_last() =~= b);
    assert(pole_product(a.push(q), 4) == pole_product(b.push(q), 4));
    let (p0, p1, p2, p3) = (
        pole_product(r0, 4),
        pole_product(r1, 4),
        pole_product(r2, 4),
        pole_product(r3, 4),
    );
    assert(alpha::<real>(1) == conjugate(alpha(0)));
    assert(alpha::<real>(3) == conjugate(alpha(2)));
    reveal_with_fuel(numerator, 5);
    assert forall|i: int| 0 <= i < 4 implies (#[trigger] numerator(poles, 4)[i]).1 == 0real by {
        assert(p1[i] == conjugate(p0[i]));
        assert(p3[i] == conjugate(p2[i]));
        lemma_conjugate_sum(alpha(0), p0[i]);
        lemma_conjugate_sum(alpha(2), p2[i]);
    }
}

/// The poles of the filter with the deviation `sigma`, for functions that stand for the
/// exponential, the cosine and the sine.
pub open spec fn poles_of(
    sigma: real,
    exp: spec_fn(real) -> real,
    cos: spec_fn(real) -> real,
    sin: spec_fn(real) -> real,
) -> Seq<(real, real)> {
    Seq::new(
        4,
        |k: int|
            {
                let m = exp(-lambda::<real>(k).0 / sigma);
                let angle = -lambda::<real>(k).1 / sigma;
                (m * cos(angle), m * sin(angle))
            },
    )
}

/// The poles come in conjugate pairs, given that the cosine is even and the sine is odd.
pub proof fn law_poles_are_conjugate(
    sigma: real,
    exp: spec_fn(real) -> real,
    cos: spec_fn(real) -> real,
    sin: spec_fn(real) -> real,
)
    requires
        sigma != 0real,
        forall|x: real| #[trigger] cos(-x) == cos(x),
        forall|x: real| #[trigger] sin(-x) == -sin(x),
    ensures
        conjugate_pairs(poles_of(sigma, exp, cos, sin)),
{
    let poles = poles_of(sigma, exp, cos, sin);
    lemma_conjugate_pole(lambda(0), sigma, exp, cos, sin);
    lemma_conjugate_pole(lambda(2), sigma, exp, cos, sin);
    assert(lambda::<real>(1) == conjugate(lambda(0)));
    assert(lambda::<real>(3) == conjugate(lambda(2)));
}

/// Conjugate rates give conjugate poles.
proof fn lemma_conjugate_pole(
    rate: (real, real),
    sigma: real,
    exp: spec_fn(real) -> real,
    cos: spec_fn(real) -> real,
    sin: spec_fn(real) -> real,
)
    requires
        sigma != 0real,
        forall|x: real| #[trigger] cos(-x) == cos(x),
        forall|x: real| #[trigger] sin(-x) == -sin(x),
    ensures
        cos(-conjugate(rate).1 / sigma) == cos(-rate.1 / sigma),
        exp(-rate.0 / sigma) * sin(-conjugate(rate).1 / sigma) == -(exp(-rate.0 / sigma) * sin(
            -rate.1 / sigma,
        )),
{
    let y = rate.1;
    let angle = -y / sigma;
    assert(-(-y) / sigma == -angle) by (nonlinear_arith)
        requires
            sigma != 0real,
            angle == -y / sigma,
    ;
    assert(cos(-angle) == cos(angle));
    assert(sin(-angle) == -sin(angle));
    lemma_negate(exp(-rate.0 / sigma), sin(angle));
}

} // verus!
