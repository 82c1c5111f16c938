//! The filters on exact fractions are the exact filters, as far as they are defined.
use vstd::prelude::*;

use crate::deriche::{
    alpha, anticausal, anticausal_step, b_plus, causal, causal_step, feed, feed_ahead, feedback,
    gaussian_scale, mirrored_numerator, numerator, pole_product, smoothed, two_pass,
};
use crate::exact::Exact;
use crate::exact_relation::{
    all_pairs_stand_for, all_stand_for, group_stand, lemma_stand_negligible, pair_stands_for,
    stands_for,
};
use crate::scalar::{negligible, Arith};

verus! {

/// The products of the poles stand for the products.
proof fn lemma_stand_pole_product(p: Seq<(Exact, Exact)>, r: Seq<(real, real)>, n: nat)
    requires
        all_pairs_stand_for(p, r),
    ensures
        all_pairs_stand_for(pole_product(p, n), pole_product(r, n)),
        pole_product(p, n).len() == n,
    decreases p.len(),
{
    broadcast use group_stand;

    let (c, d) = (pole_product(p, n), pole_product(r, n));
    if p.len() == 0 {
        assert forall|i: int| 0 <= i < n implies #[trigger] pair_stands_for(c[i], d[i]) by {}
    } else {
        let (q, s) = (p.drop_last(), r.drop_last());
        assert forall|i: int| 0 <= i < q.len() implies #[trigger] pair_stands_for(q[i], s[i]) by {
            assert(pair_stands_for(p[i], r[i]));
        }
        lemma_stand_pole_product(q, s, n);
        let (a, b) = (pole_product(q, n), pole_product(s, n));
        assert(pair_stands_for(p[p.len() - 1], r[r.len() - 1]));
        assert forall|i: int| 0 <= i < n implies #[trigger] pair_stands_for(c[i], d[i]) by {
            assert(pair_stands_for(a[i], b[i]));
            if i >= 1 {
                assert(pair_stands_for(a[i - 1], b[i - 1]));
            }
        }
    }
}

/// The numerators stand for the numerators.
proof fn lemma_stand_numerator(p: Seq<(Exact, Exact)>, r: Seq<(real, real)>, n: nat)
    requires
        all_pairs_stand_for(p, r),
        n <= p.len(),
    ensures
        all_pairs_stand_for(numerator(p, n), numerator(r, n)),
        numerator(p, n).len() == 4,
    decreases n,
{
    broadcast use group_stand;

    let (c, d) = (numerator(p, n), numerator(r, n));
    if n == 0 {
        assert forall|i: int| 0 <= i < 4 implies #[trigger] pair_stands_for(c[i], d[i]) by {}
    } else {
        lemma_stand_numerator(p, r, (n - 1) as nat);
        let (a, b) = (numerator(p, (n - 1) as nat), numerator(r, (n - 1) as nat));
        let (q, s) = (p.remove(n - 1), r.remove(n - 1));
        assert forall|i: int| 0 <= i < q.len() implies #[trigger] pair_stands_for(q[i], s[i]) by {
            if i < n - 1 {
                assert(pair_stands_for(p[i], r[i]));
            } else {
                assert(pair_stands_for(p[i + 1], r[i + 1]));
            }
        }
        lemma_stand_pole_product(q, s, 4);
        let (e, f) = (pole_product(q, 4), pole_product(s, 4));
        assert(pair_stands_for(alpha::<Exact>(n - 1), alpha::<real>(n - 1)));
        assert forall|i: int| 0 <= i < 4 implies #[trigger] pair_stands_for(c[i], d[i]) by {
            assert(pair_stands_for(a[i], b[i]));
            assert(pair_stands_for(e[i], f[i]));
        }
    }
}

/// The coefficients of the passes stand for the coefficients.
proof fn lemma_stand_coefficients(
    p: Seq<(Exact, Exact)>,
    r: Seq<(real, real)>,
    sigma: Exact,
    s: real,
    pi: Exact,
    c: real,
)
    requires
        all_pairs_stand_for(p, r),
        p.len() == 4,
        stands_for(sigma, s),
        stands_for(pi, c),
    ensures
        all_stand_for(b_plus(p, sigma, pi), b_plus(r, s, c)),
        all_stand_for(feedback(p), feedback(r)),
        all_stand_for(
            mirrored_numerator(b_plus(p, sigma, pi), feedback(p)),
            mirrored_numerator(b_plus(r, s, c), feedback(r)),
        ),
{
    broadcast use group_stand;

    lemma_stand_numerator(p, r, 4);
    lemma_stand_pole_product(p, r, 5);
    assert(stands_for(gaussian_scale(sigma, pi), gaussian_scale(s, c)));
    let (b, d) = (b_plus(p, sigma, pi), b_plus(r, s, c));
    assert forall|i: int| 0 <= i < 4 implies #[trigger] stands_for(b[i], d[i]) by {
        assert(pair_stands_for(numerator(p, 4)[i], numerator(r, 4)[i]));
    }
    let (a, e) = (feedback(p), feedback(r));
    assert forall|i: int| 0 <= i < 4 implies #[trigger] stands_for(a[i], e[i]) by {
        assert(pair_stands_for(pole_product(p, 5)[i + 1], pole_product(r, 5)[i + 1]));
    }
    let (m, n) = (mirrored_numerator(b, a), mirrored_numerator(d, e));
    assert forall|k: int| 0 <= k < 5 implies #[trigger] stands_for(m[k], n[k]) by {
        assert(stands_for(b[0], d[0]));
        assert(stands_for(a[3], e[3]));
        if 1 <= k < 4 {
            assert(stands_for(b[k], d[k]));
            assert(stands_for(a[k - 1], e[k - 1]));
        }
    }
}

/// The taps stand for the taps.
proof fn lemma_stand_feed(
    x: Seq<Exact>,
    y: Seq<real>,
    b: Seq<Exact>,
    d: Seq<real>,
    i: int,
    n: nat,
)
    requires
        all_stand_for(x, y),
        all_stand_for(b, d),
        n <= b.len(),
    ensures
        stands_for(feed(x, b, i, n), feed(y, d, i, n)),
        stands_for(feed_ahead(x, b, i, n), feed_ahead(y, d, i, n)),
    decreases n,
{
    broadcast use group_stand;

    if n > 0 {
        lemma_stand_feed(x, y, b, d, i, (n - 1) as nat);
        assert(stands_for(b[n - 1], d[n - 1]));
        let back = i - (n - 1);
        let ahead = i + (n - 1);
        if 0 <= back < x.len() {
            assert(stands_for(x[back], y[back]));
        }
        if 0 <= ahead < x.len() {
            assert(stands_for(x[ahead], y[ahead]));
        }
    }
}

/// The causal pass stands for the causal pass.
proof fn lemma_stand_causal(
    x: Seq<Exact>,
    y: Seq<real>,
    b: Seq<Exact>,
    d: Seq<real>,
    a: Seq<Exact>,
    e: Seq<real>,
    i: int,
    n: nat,
)
    requires
        all_stand_for(x, y),
        all_stand_for(b, d),
        all_stand_for(a, e),
        n <= a.len(),
        0 <= i,
    ensures
        stands_for(causal_step(x, b, a, i, n), causal_step(y, d, e, i, n)),
    decreases i, n,
{
    broadcast use group_stand;

    if n == 0 {
        lemma_stand_feed(x, y, b, d, i, b.len());
    } else {
        lemma_stand_causal(x, y, b, d, a, e, i, (n - 1) as nat);
        if i >= n {
            lemma_stand_causal(x, y, b, d, a, e, i - n, a.len());
            assert(stands_for(causal(x, b, a, i - n), causal(y, d, e, i - n)));
            assert(stands_for(a[n - 1], e[n - 1]));
        }
    }
}

/// The anticausal pass stands for the anticausal pass.
proof fn lemma_stand_anticausal(
    x: Seq<Exact>,
    y: Seq<real>,
    b: Seq<Exact>,
    d: Seq<real>,
    a: Seq<Exact>,
    e: Seq<real>,
    i: int,
    n: nat,
)
    requires
        all_stand_for(x, y),
        all_stand_for(b, d),
        all_stand_for(a, e),
        n <= a.len(),
        i < x.len(),
    ensures
        stands_for(anticausal_step(x, b, a, i, n), anticausal_step(y, d, e, i, n)),
    decreases x.len() - i, n,
{
    broadcast use group_stand;

    if n == 0 {
        lemma_stand_feed(x, y, b, d, i, b.len());
    } else {
        lemma_stand_anticausal(x, y, b, d, a, e, i, (n - 1) as nat);
        if i + n < x.len() {
            lemma_stand_anticausal(x, y, b, d, a, e, i + n, a.len());
            assert(stands_for(anticausal(x, b, a, i + n), anticausal(y, d, e, i + n)));
            assert(stands_for(a[n - 1], e[n - 1]));
        }
    }
}

/// A smoothed signal stands for the smoothed signal, where the deviation is defined.
pub proof fn law_exact_smoothing(
    x: Seq<Exact>,
    y: Seq<real>,
    sigma: Exact,
    s: real,
    pi: Exact,
    c: real,
    p: Seq<(Exact, Exact)>,
    r: Seq<(real, real)>,
)
    requires
        all_stand_for(x, y),
        stands_for(sigma, s),
        stands_for(pi, c),
        all_pairs_stand_for(p, r),
        p.len() == 4,
        sigma.defined(),
    ensures
        all_stand_for(smoothed(x, sigma, pi, p), smoothed(y, s, c, r)),
{
    broadcast use group_stand;

    lemma_stand_negligible(sigma, s);
    if !negligible(sigma) {
        lemma_stand_coefficients(p, r, sigma, s, pi, c);
        let (b, d) = (b_plus(p, sigma, pi), b_plus(r, s, c));
        let (a, e) = (feedback(p), feedback(r));
        let (m, n) = (mirrored_numerator(b, a), mirrored_numerator(d, e));
        let (u, v) = (two_pass(x, b, m, a), two_pass(y, d, n, e));
        assert forall|i: int| 0 <= i < x.len() implies #[trigger] stands_for(u[i], v[i]) by {
            lemma_stand_causal(x, y, b, d, a, e, i, a.len());
            lemma_stand_anticausal(x, y, m, n, a, e, i, a.len());
            assert(stands_for(causal(x, b, a, i), causal(y, d, e, i)));
            assert(stands_for(anticausal(x, m, a, i), anticausal(y, n, e, i)));
        }
    }
}

} // verus!
