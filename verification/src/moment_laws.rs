//! What the mean and the covariances are, in exact arithmetic, as sums over the data.
use vstd::prelude::*;

use crate::matrix::{average, bandwidth, covariance, deviation_products, scott_exponent};
use crate::order_laws::points;
use crate::reals::{
    lemma_associate, lemma_cancel, lemma_commute, lemma_distribute, lemma_div_mul,
    lemma_product_sign, lemma_units,
};
use crate::scalar::{total, Arith};
use crate::sums::{law_total, lemma_sum_plus, lemma_sum_same, sum_to};

verus! {

/// The sum of the entries.
pub open spec fn sum_of(x: Seq<real>) -> real {
    sum_to(x.len(), |i: int| x[i])
}

/// The sum of the products of the entries.
pub open spec fn sum_of_products(x: Seq<real>, y: Seq<real>) -> real {
    sum_to(x.len(), |i: int| x[i] * y[i])
}

/// The mean times the number of entries is the sum of the entries.
pub proof fn law_mean(x: Seq<real>)
    requires
        1 <= x.len() <= usize::MAX,
    ensures
        average(x) * x.len() as real == sum_of(x),
{
    law_total(x);
    lemma_div_mul(total(x), x.len() as real);
}

/// The deviations from the mean sum to zero.
pub proof fn law_deviations_cancel(x: Seq<real>)
    requires
        1 <= x.len() <= usize::MAX,
    ensures
        sum_to(x.len(), |i: int| x[i] - average(x)) == 0real,
{
    let m = average(x);
    let d = |i: int| x[i] - m;
    let c = |i: int| -m;
    law_mean(x);
    lemma_sum_plus(x.len(), |i: int| x[i], c, d);
    lemma_sum_constant(x.len(), -m);
    lemma_commute(x.len() as real, -m);
    lemma_negated(m, x.len() as real);
    lemma_sum_same(x.len(), c, |i: int| -m);
}

/// `(-a) * b == -(a * b)`.
proof fn lemma_negated(a: real, b: real)
    by (nonlinear_arith)
    ensures
        (-a) * b == -(a * b),
{
}

/// A sum of equal terms.
pub proof fn lemma_sum_constant(n: nat, c: real)
    ensures
        sum_to(n, |i: int| c) == n as real * c,
    decreases n,
{
    if n == 0 {
        lemma_units(c);
    } else {
        lemma_sum_constant((n - 1) as nat, c);
        lemma_distribute((n - 1) as real, 1real, c);
        lemma_units(c);
    }
}

/// The sum of the products of the deviations from any two places.
proof fn lemma_deviations(x: Seq<real>, y: Seq<real>, mx: real, my: real)
    requires
        x.len() == y.len(),
    ensures
        deviation_products(x, y, mx, my) == sum_of_products(x, y) - mx * sum_of(y) - my * sum_of(x)
            + x.len() as real * (mx * my),
    decreases x.len(),
{
    if x.len() == 0 {
        lemma_units(mx);
        lemma_units(my);
        lemma_units(mx * my);
    } else {
        let (r, s) = (x.drop_last(), y.drop_last());
        let (a, b) = (x.last(), y.last());
        lemma_deviations(r, s, mx, my);
        lemma_sum_same(r.len(), |i: int| r[i], |i: int| x[i]);
        lemma_sum_same(r.len(), |i: int| s[i], |i: int| y[i]);
        lemma_sum_same(r.len(), |i: int| r[i] * s[i], |i: int| x[i] * y[i]);
        assert(sum_of(x) == sum_of(r) + a);
        assert(sum_of(y) == sum_of(s) + b);
        assert(sum_of_products(x, y) == sum_of_products(r, s) + a * b);
        lemma_distribute(sum_of(s), b, mx);
        lemma_distribute(sum_of(r), a, my);
        lemma_distribute(r.len() as real, 1real, mx * my);
        lemma_units(mx * my);
        // (a - mx) (b - my) == a b - a my - mx b + mx my
        lemma_distribute(a, mx, b - my);
        lemma_distribute(b, my, a);
        lemma_distribute(b, my, mx);
        lemma_commute(a, my);
    }
}

/// Products of deviations from the means, counted out.
proof fn lemma_central_products(x: Seq<real>, y: Seq<real>)
    requires
        x.len() == y.len(),
        1 <= x.len() <= usize::MAX,
    ensures
        x.len() as real * deviation_products(x, y, average(x), average(y)) == x.len() as real
            * sum_of_products(x, y) - sum_of(x) * sum_of(y),
{
    let (mx, my, n) = (average(x), average(y), x.len() as real);
    let (sx, sy, p) = (sum_of(x), sum_of(y), sum_of_products(x, y));
    law_mean(x);
    law_mean(y);
    lemma_deviations(x, y, mx, my);
    // n (mx my) == sx my, and my sx == sx my
    lemma_associate(n, mx, my);
    lemma_commute(n, mx);
    lemma_commute(my, sx);
    assert(deviation_products(x, y, mx, my) == p - mx * sy);
    lemma_distribute(p, mx * sy, n);
    lemma_associate(n, mx, sy);
}

/// A quotient times its divisor, with a factor.
proof fn lemma_quotient(q: real, d: real, n: real, t: real)
    requires
        d != 0real,
        n * q == t,
    ensures
        n * d * (q / d) == t,
{
    lemma_div_mul(q, d);
    lemma_associate(n, d, q / d);
}

/// The covariances: of `n` points with the divisor `d`, which is `n` for a population and `n - 1`
/// for a sample, `n d` times each entry is `n` times the sum of the products less the product of the
/// sums.
pub proof fn law_covariance(x: Seq<real>, y: Seq<real>, population: bool)
    requires
        x.len() == y.len(),
        x.len() >= 2 || (population && x.len() >= 1),
        x.len() <= usize::MAX,
    ensures
        ({
            let c = covariance(x, y, population);
            let n = x.len() as real;
            let d = if population {
                n
            } else {
                n - 1real
            };
            &&& n * d * c.xx == n * sum_of_products(x, x) - sum_of(x) * sum_of(x)
            &&& n * d * c.xy == n * sum_of_products(x, y) - sum_of(x) * sum_of(y)
            &&& n * d * c.yx == n * sum_of_products(x, y) - sum_of(x) * sum_of(y)
            &&& n * d * c.yy == n * sum_of_products(y, y) - sum_of(y) * sum_of(y)
        }),
{
    let n = x.len() as real;
    let d = if population {
        n
    } else {
        n - 1real
    };
    let (mx, my) = (average(x), average(y));
    lemma_central_products(x, x);
    lemma_central_products(x, y);
    lemma_central_products(y, y);
    lemma_quotient(
        deviation_products(x, x, mx, mx),
        d,
        n,
        n * sum_of_products(x, x) - sum_of(x) * sum_of(x),
    );
    lemma_quotient(
        deviation_products(x, y, mx, my),
        d,
        n,
        n * sum_of_products(x, y) - sum_of(x) * sum_of(y),
    );
    lemma_quotient(
        deviation_products(y, y, my, my),
        d,
        n,
        n * sum_of_products(y, y) - sum_of(y) * sum_of(y),
    );
}

/// The bandwidth matrix is the covariance of the sample times the square of the factor.
pub proof fn law_bandwidth(x: Seq<real>, y: Seq<real>, f: real)
    requires
        x.len() == y.len(),
        2 <= x.len() <= usize::MAX,
    ensures
        ({
            let b = bandwidth(x, y, f);
            let n = x.len() as real;
            let m = n * (n - 1real);
            &&& m * b.xx == (n * sum_of_products(x, x) - sum_of(x) * sum_of(x)) * (f * f)
            &&& m * b.xy == (n * sum_of_products(x, y) - sum_of(x) * sum_of(y)) * (f * f)
            &&& m * b.yx == (n * sum_of_products(x, y) - sum_of(x) * sum_of(y)) * (f * f)
            &&& m * b.yy == (n * sum_of_products(y, y) - sum_of(y) * sum_of(y)) * (f * f)
        }),
{
    let c = covariance(x, y, false);
    let m = x.len() as real * (x.len() as real - 1real);
    law_covariance(x, y, false);
    lemma_associate(m, c.xx, f * f);
    lemma_associate(m, c.xy, f * f);
    lemma_associate(m, c.yx, f * f);
    lemma_associate(m, c.yy, f * f);
}

/// The exponent of Scott's factor for data of `2` dimensions is `-1 / (2 + 4)`.
pub proof fn law_scott_exponent()
    ensures
        scott_exponent::<real>() * (2real + 4real) == -1real,
{
    lemma_div_mul(-1real, 6real);
}

/// Taking out one term takes it out of the sum.
proof fn lemma_sum_remove<A>(s: Seq<A>, f: spec_fn(A) -> real, k: int)
    requires
        0 <= k < s.len(),
    ensures
        sum_to(s.len(), |i: int| f(s[i])) == sum_to(s.remove(k).len(), |i: int| f(s.remove(k)[i]))
            + f(s[k]),
    decreases s.len(),
{
    let t = s.remove(k);
    if k == s.len() - 1 {
        lemma_sum_same(t.len(), |i: int| f(t[i]), |i: int| f(s[i]));
    } else {
        let r = s.drop_last();
        lemma_sum_remove(r, f, k);
        let u = r.remove(k);
        lemma_sum_same(r.len(), |i: int| f(r[i]), |i: int| f(s[i]));
        lemma_sum_same(u.len(), |i: int| f(u[i]), |i: int| f(t[i]));
        assert(t[t.len() - 1] == s[s.len() - 1]);
        assert(r[k] == s[k]);
    }
}

/// A sum does not depend on the order of its terms.
pub proof fn lemma_sum_reordered<A>(a: Seq<A>, b: Seq<A>, f: spec_fn(A) -> real)
    requires
        a.to_multiset() == b.to_multiset(),
    ensures
        a.len() == b.len(),
        sum_to(a.len(), |i: int| f(a[i])) == sum_to(b.len(), |i: int| f(b[i])),
    decreases a.len(),
{
    broadcast use vstd::seq_lib::group_to_multiset_ensures;

    vstd::seq_lib::to_multiset_len(a);
    vstd::seq_lib::to_multiset_len(b);
    if a.len() > 0 {
        let last = a.last();
        let r = a.drop_last();
        assert(a[a.len() - 1] == last);
        assert(a.contains(last));
        assert(b.to_multiset().count(last) > 0);
        assert(b.contains(last));
        let k = choose|k: int| 0 <= k < b.len() && b[k] == last;
        assert(a.remove(a.len() - 1) =~= r);
        assert(r.to_multiset() =~= b.remove(k).to_multiset());
        lemma_sum_reordered(r, b.remove(k), f);
        lemma_sum_remove(b, f, k);
        lemma_sum_same(r.len(), |i: int| f(r[i]), |i: int| f(a[i]));
    }
}

/// The sums that the covariances are made of do not depend on the order of the points.
proof fn lemma_reordered_sums(x: Seq<real>, y: Seq<real>, v: Seq<real>, w: Seq<real>)
    requires
        x.len() == y.len(),
        v.len() == w.len(),
        points(x, y).to_multiset() == points(v, w).to_multiset(),
    ensures
        x.len() == v.len(),
        sum_of(x) == sum_of(v),
        sum_of(y) == sum_of(w),
        sum_of_products(x, x) == sum_of_products(v, v),
        sum_of_products(x, y) == sum_of_products(v, w),
        sum_of_products(y, y) == sum_of_products(w, w),
{
    let (a, b) = (points(x, y), points(v, w));
    let f0 = |p: (real, real)| p.0;
    let f1 = |p: (real, real)| p.1;
    let f2 = |p: (real, real)| p.0 * p.0;
    let f3 = |p: (real, real)| p.0 * p.1;
    let f4 = |p: (real, real)| p.1 * p.1;
    lemma_sum_reordered(a, b, f0);
    lemma_sum_reordered(a, b, f1);
    lemma_sum_reordered(a, b, f2);
    lemma_sum_reordered(a, b, f3);
    lemma_sum_reordered(a, b, f4);
    let n = x.len();
    lemma_sum_same(n, |i: int| x[i], |i: int| f0(a[i]));
    lemma_sum_same(n, |i: int| v[i], |i: int| f0(b[i]));
    lemma_sum_same(n, |i: int| y[i], |i: int| f1(a[i]));
    lemma_sum_same(n, |i: int| w[i], |i: int| f1(b[i]));
    lemma_sum_same(n, |i: int| x[i] * x[i], |i: int| f2(a[i]));
    lemma_sum_same(n, |i: int| v[i] * v[i], |i: int| f2(b[i]));
    lemma_sum_same(n, |i: int| x[i] * y[i], |i: int| f3(a[i]));
    lemma_sum_same(n, |i: int| v[i] * w[i], |i: int| f3(b[i]));
    lemma_sum_same(n, |i: int| y[i] * y[i], |i: int| f4(a[i]));
    lemma_sum_same(n, |i: int| w[i] * w[i], |i: int| f4(b[i]));
}

/// Neither the means nor the covariances depend on the order of the points.
pub proof fn law_covariance_of_reordered_points(
    x: Seq<real>,
    y: Seq<real>,
    v: Seq<real>,
    w: Seq<real>,
    population: bool,
)
    requires
        x.len() == y.len(),
        v.len() == w.len(),
        points(x, y).to_multiset() == points(v, w).to_multiset(),
        x.len() >= 2 || (population && x.len() >= 1),
        x.len() <= usize::MAX,
    ensures
        average(x) == average(v),
        average(y) == average(w),
        covariance(x, y, population) == covariance(v, w, population),
{
    lemma_reordered_sums(x, y, v, w);
    law_mean(x);
    law_mean(v);
    law_mean(y);
    law_mean(w);
    let n = x.len() as real;
    let d = if population {
        n
    } else {
        n - 1real
    };
    lemma_cancel(average(x), average(v), n);
    lemma_cancel(average(y), average(w), n);
    law_covariance(x, y, population);
    law_covariance(v, w, population);
    let (a, b) = (covariance(x, y, population), covariance(v, w, population));
    let m = n * d;
    lemma_product_sign(n, d);
    lemma_commute(m, a.xx);
    lemma_commute(m, a.xy);
    lemma_commute(m, a.yx);
    lemma_commute(m, a.yy);
    lemma_commute(m, b.xx);
    lemma_commute(m, b.xy);
    lemma_commute(m, b.yx);
    lemma_commute(m, b.yy);
    lemma_cancel(a.xx, b.xx, m);
    lemma_cancel(a.xy, b.xy, m);
    lemma_cancel(a.yx, b.yx, m);
    lemma_cancel(a.yy, b.yy, m);
}

} // verus!
