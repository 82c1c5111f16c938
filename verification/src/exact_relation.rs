//! Which numbers exact fractions stand for.
use vstd::prelude::*;

use crate::exact::{gcd, lemma_gcd_divides, size, Exact};
use crate::exact_laws::{law_exact_constants, law_exact_operations, law_exact_order, law_exact_root};
use crate::scalar::{is_root, magnitude, negligible, tiny, total, zero, Arith};

verus! {

/// Whether `e` stands for the number `r`: where it is defined, its value is `r`.
pub open spec fn stands_for(e: Exact, r: real) -> bool {
    e.defined() ==> e.value() == r
}

/// Whether the entries of `s` stand for those of `t`.
pub open spec fn all_stand_for(s: Seq<Exact>, t: Seq<real>) -> bool {
    &&& s.len() == t.len()
    &&& forall|i: int| 0 <= i < s.len() ==> #[trigger] stands_for(s[i], t[i])
}

/// Whether the pair `e` stands for the pair `r`.
pub open spec fn pair_stands_for(e: (Exact, Exact), r: (real, real)) -> bool {
    stands_for(e.0, r.0) && stands_for(e.1, r.1)
}

/// Whether the pairs of `s` stand for those of `t`.
pub open spec fn all_pairs_stand_for(s: Seq<(Exact, Exact)>, t: Seq<(real, real)>) -> bool {
    &&& s.len() == t.len()
    &&& forall|i: int| 0 <= i < s.len() ==> #[trigger] pair_stands_for(s[i], t[i])
}

/// Whether all entries are defined.
pub open spec fn all_defined(s: Seq<Exact>) -> bool {
    forall|i: int| 0 <= i < s.len() ==> (#[trigger] s[i]).defined()
}

/// The values of the entries.
pub open spec fn values(s: Seq<Exact>) -> Seq<real> {
    Seq::new(s.len(), |i: int| s[i].value())
}

/// The values of the pairs.
pub open spec fn pair_values(s: Seq<(Exact, Exact)>) -> Seq<(real, real)> {
    Seq::new(s.len(), |i: int| (s[i].0.value(), s[i].1.value()))
}

/// Sums stand for sums.
pub broadcast proof fn lemma_stand_plus(a: Exact, b: Exact, x: real, y: real)
    requires
        stands_for(a, x),
        stands_for(b, y),
    ensures
        #[trigger] stands_for(a.plus(b), x.plus(y)),
{
    if a.defined() && b.defined() {
        law_exact_operations(a, b);
    }
}

/// Differences stand for differences.
pub broadcast proof fn lemma_stand_minus(a: Exact, b: Exact, x: real, y: real)
    requires
        stands_for(a, x),
        stands_for(b, y),
    ensures
        #[trigger] stands_for(a.minus(b), x.minus(y)),
{
    if a.defined() && b.defined() {
        law_exact_operations(a, b);
    }
}

/// Products stand for products.
pub broadcast proof fn lemma_stand_times(a: Exact, b: Exact, x: real, y: real)
    requires
        stands_for(a, x),
        stands_for(b, y),
    ensures
        #[trigger] stands_for(a.times(b), x.times(y)),
{
    if a.defined() && b.defined() {
        law_exact_operations(a, b);
    }
}

/// Quotients stand for quotients.
pub broadcast proof fn lemma_stand_over(a: Exact, b: Exact, x: real, y: real)
    requires
        stands_for(a, x),
        stands_for(b, y),
    ensures
        #[trigger] stands_for(a.over(b), x.over(y)),
{
    if a.defined() && b.defined() {
        law_exact_operations(a, b);
    }
}

/// Opposites stand for opposites.
pub broadcast proof fn lemma_stand_negated(a: Exact, x: real)
    requires
        stands_for(a, x),
    ensures
        #[trigger] stands_for(a.negated(), x.negated()),
{
    if a.defined() {
        law_exact_operations(a, a);
    }
}

/// Roots stand for roots.
pub broadcast proof fn lemma_stand_root(a: Exact, x: real)
    requires
        stands_for(a, x),
    ensures
        #[trigger] stands_for(a.root(), x.root()),
{
    if a.root().defined() {
        law_exact_root(a);
        let (r, s) = (a.root().value(), x.root());
        assert(is_root(r, x));
        assert(is_root(s, x));
        assert(r == s) by (nonlinear_arith)
            requires
                r >= 0real,
                s >= 0real,
                r * r == s * s,
        ;
    }
}

/// Whole numbers stand for themselves.
pub broadcast proof fn lemma_stand_whole(n: usize)
    ensures
        #[trigger] stands_for(Exact::whole(n), <real as Arith>::whole(n)),
{
    law_exact_constants(n, 0, 1);
}

/// Ratios stand for themselves.
pub broadcast proof fn lemma_stand_ratio(n: u32, d: u32)
    ensures
        #[trigger] stands_for(Exact::ratio(n, d), <real as Arith>::ratio(n, d)),
{
    law_exact_constants(0, n, d);
}

pub broadcast group group_stand {
    lemma_stand_plus,
    lemma_stand_minus,
    lemma_stand_times,
    lemma_stand_over,
    lemma_stand_negated,
    lemma_stand_root,
    lemma_stand_whole,
    lemma_stand_ratio,
}

/// The order of defined fractions is that of the numbers that they stand for.
pub proof fn lemma_stand_order(a: Exact, b: Exact, x: real, y: real)
    requires
        stands_for(a, x),
        stands_for(b, y),
        a.defined(),
        b.defined(),
    ensures
        a.below(b) == x.below(y),
        a.at_most(b) == x.at_most(y),
{
    law_exact_order(a, b);
}

/// The sum of a sequence stands for the sum.
pub proof fn lemma_stand_total(s: Seq<Exact>, t: Seq<real>)
    requires
        all_stand_for(s, t),
    ensures
        stands_for(total(s), total(t)),
    decreases s.len(),
{
    broadcast use group_stand;

    if s.len() > 0 {
        assert(stands_for(s[s.len() - 1], t[t.len() - 1]));
        let (r, u) = (s.drop_last(), t.drop_last());
        assert forall|i: int| 0 <= i < r.len() implies #[trigger] stands_for(r[i], u[i]) by {
            assert(stands_for(s[i], t[i]));
        }
        lemma_stand_total(r, u);
    }
}

/// Where a sum is defined, so is all that it is made of.
pub proof fn lemma_defined_total(s: Seq<Exact>)
    requires
        total(s).defined(),
    ensures
        all_defined(s),
    decreases s.len(),
{
    if s.len() > 0 {
        lemma_defined_total(s.drop_last());
        assert forall|i: int| 0 <= i < s.len() implies (#[trigger] s[i]).defined() by {
            if i < s.len() - 1 {
                assert(s.drop_last()[i] == s[i]);
            }
        }
    }
}

/// The constants that the estimators use are defined.
pub proof fn lemma_defined_constants()
    ensures
        Exact::whole(0).defined(),
        Exact::whole(1).defined(),
        tiny::<Exact>().defined(),
{
    reveal_with_fuel(gcd, 3);
    assert(gcd(0, 1) == 1);
    assert(gcd(1, 1) == 1);
    lemma_gcd_divides(1, 1_000_000_000);
    let g = gcd(1, 1_000_000_000);
    assert(g == 1 && 1_000_000_000nat / g <= i64::MAX) by (nonlinear_arith)
        requires
            g > 0,
            1nat % g == 0,
    ;
}

/// A defined fraction has an opposite.
pub proof fn lemma_defined_opposite(a: Exact)
    requires
        a.defined(),
    ensures
        a.negated().defined(),
{
    let (p, q) = (size(-(a.num as int)), size(a.den as int));
    lemma_gcd_divides(p, q);
    let g = gcd(p, q);
    assert(p / g <= p && 1 <= q / g <= q) by (nonlinear_arith)
        requires
            g >= 1,
            q >= 1,
            q % g == 0,
    ;
}

/// The absolute value stands for the absolute value, and a defined fraction counts as zero if the
/// number that it stands for does.
pub proof fn lemma_stand_negligible(a: Exact, x: real)
    requires
        stands_for(a, x),
        a.defined(),
    ensures
        negligible(a) == negligible(x),
        magnitude(a).defined(),
        stands_for(magnitude(a), magnitude(x)),
        tiny::<Exact>().at_most(magnitude(a)) == tiny::<real>().at_most(magnitude(x)),
{
    broadcast use group_stand;

    lemma_defined_constants();
    lemma_stand_order(a, zero(), x, zero());
    assert(stands_for(a.negated(), x.negated()));
    assert(stands_for(tiny::<Exact>(), tiny::<real>()));
    lemma_defined_opposite(a);
    let m = magnitude(a);
    lemma_stand_order(m, tiny(), magnitude(x), tiny());
    lemma_stand_order(tiny(), m, tiny(), magnitude(x));
}

/// Defined entries that stand for numbers have them as their values.
pub proof fn lemma_values(s: Seq<Exact>, t: Seq<real>)
    requires
        all_stand_for(s, t),
        all_defined(s),
    ensures
        t == values(s),
{
    assert forall|i: int| 0 <= i < s.len() implies t[i] == #[trigger] values(s)[i] by {
        assert(stands_for(s[i], t[i]));
        assert(s[i].defined());
    }
    assert(t =~= values(s));
}

/// Entries stand for their values.
pub proof fn lemma_stand_values(s: Seq<Exact>)
    ensures
        all_stand_for(s, values(s)),
{
    assert forall|i: int| 0 <= i < s.len() implies #[trigger] stands_for(s[i], values(s)[i]) by {}
}

} // verus!
