//! What the filters do to signals of exact fractions, where the results are defined.
use vstd::prelude::*;

use crate::call_laws::{law_poles_are_determined, single_valued};
use crate::deriche::{
    anticausal, are_poles, b_plus, causal, feedback, is_fourth_order_result, mirrored_numerator,
    smoothed,
};
use crate::exact::Exact;
use crate::exact_estimates_2d::law_exact_second_order_smoothing;
use crate::exact_filters::law_exact_smoothing;
use crate::exact_relation::{
    all_defined, all_pairs_stand_for, all_stand_for, group_stand, lemma_defined_constants,
    lemma_stand_order, lemma_stand_values, lemma_stand_whole, lemma_values, pair_stands_for,
    pair_values, stands_for, values,
};
use crate::exact_terms::{agree, law_exact_results_are_proper, lemma_agree, proper};
use crate::linearity_laws::{
    law_second_order_commutes_with_reversal, law_second_order_is_linear,
    law_second_order_keeps_sign, law_smoothing_commutes_with_reversal, law_smoothing_is_linear,
    mixed,
};
use crate::mass_laws::law_second_order_smoothing_makes_no_weight;
use crate::scalar::{negligible, total, zero, Arith};
use crate::second_order::{
    are_exponentials, backward, decay, forward, is_second_order_result, second_order,
    second_order_smoothed,
};

verus! {

/// A mixed signal stands for the mixed signal.
proof fn lemma_stand_mixed(
    s: Seq<Exact>,
    a: Seq<real>,
    t: Seq<Exact>,
    b: Seq<real>,
    p: Exact,
    q: Exact,
)
    requires
        s.len() == t.len(),
        all_stand_for(s, a),
        all_stand_for(t, b),
    ensures
        all_stand_for(mixed(s, t, p, q), mixed(a, b, p.value(), q.value())),
{
    broadcast use group_stand;

    let (m, n) = (mixed(s, t, p, q), mixed(a, b, p.value(), q.value()));
    assert forall|i: int| 0 <= i < s.len() implies #[trigger] stands_for(m[i], n[i]) by {
        assert(stands_for(s[i], a[i]));
        assert(stands_for(t[i], b[i]));
    }
}

/// Pairs stand for their values.
pub proof fn lemma_stand_pair_values(s: Seq<(Exact, Exact)>)
    ensures
        all_pairs_stand_for(s, pair_values(s)),
{
    assert forall|i: int| 0 <= i < s.len() implies #[trigger] pair_stands_for(
        s[i],
        pair_values(s)[i],
    ) by {}
}

/// The entries of a signal smoothed to the second order are in lowest terms.
proof fn lemma_proper_second_order(x: Seq<Exact>, sigma: Exact, ea: Exact, e2a: Exact, i: int)
    requires
        0 <= i < x.len(),
        !negligible(sigma),
    ensures
        proper(second_order_smoothed(x, sigma, ea, e2a)[i]),
{
    let c = second_order(decay(sigma), ea, e2a);
    law_exact_results_are_proper(forward(x, c, i), backward(x, c, i), 0, 0, 1);
}

/// The entries of a smoothed signal are in lowest terms.
proof fn lemma_proper_smoothed(
    x: Seq<Exact>,
    sigma: Exact,
    pi: Exact,
    poles: Seq<(Exact, Exact)>,
    i: int,
)
    requires
        0 <= i < x.len(),
        !negligible(sigma),
    ensures
        proper(smoothed(x, sigma, pi, poles)[i]),
{
    let b = b_plus(poles, sigma, pi);
    let a = feedback(poles);
    law_exact_results_are_proper(
        causal(x, b, a, i),
        anticausal(x, mirrored_numerator(b, a), a, i),
        0,
        0,
        1,
    );
}

/// The second-order filter is linear: what it makes of `p s + q t` is what it makes of `s` and of
/// `t`, mixed in the same way, for three calls with the same deviation.
pub proof fn law_exact_second_order_is_linear<E: Fn(Exact) -> Exact>(
    y: Seq<Exact>,
    u: Seq<Exact>,
    v: Seq<Exact>,
    s: Seq<Exact>,
    t: Seq<Exact>,
    p: Exact,
    q: Exact,
    sigma: Exact,
    exp: E,
)
    requires
        single_valued(exp),
        sigma.defined(),
        s.len() == t.len(),
        is_second_order_result(y, mixed(s, t, p, q), sigma, exp),
        is_second_order_result(u, s, sigma, exp),
        is_second_order_result(v, t, sigma, exp),
    ensures
        y.len() == s.len(),
        forall|i: int| 0 <= i < s.len() ==> agree(#[trigger] y[i], mixed(u, v, p, q)[i]),
{
    if !(negligible(sigma) || s.len() == 0) {
        let m = mixed(s, t, p, q);
        let (ea, e2a) = choose|ea: Exact, e2a: Exact|
            are_exponentials(ea, e2a, sigma, exp) && y == #[trigger] second_order_smoothed(
                m,
                sigma,
                ea,
                e2a,
            );
        let (fa, f2a) = choose|fa: Exact, f2a: Exact|
            are_exponentials(fa, f2a, sigma, exp) && u == #[trigger] second_order_smoothed(
                s,
                sigma,
                fa,
                f2a,
            );
        let (ga, g2a) = choose|ga: Exact, g2a: Exact|
            are_exponentials(ga, g2a, sigma, exp) && v == #[trigger] second_order_smoothed(
                t,
                sigma,
                ga,
                g2a,
            );
        assert(fa == ea && ga == ea && f2a == e2a && g2a == e2a);
        let (a, b) = (values(s), values(t));
        let (c, pr, qr) = (sigma.value(), p.value(), q.value());
        let e = (ea, e2a);
        let r = (ea.value(), e2a.value());
        lemma_stand_values(s);
        lemma_stand_values(t);
        lemma_stand_mixed(s, a, t, b, p, q);
        law_exact_second_order_smoothing(m, mixed(a, b, pr, qr), sigma, c, e, r);
        law_exact_second_order_smoothing(s, a, sigma, c, e, r);
        law_exact_second_order_smoothing(t, b, sigma, c, e, r);
        law_second_order_is_linear(a, b, pr, qr, c, r.0, r.1);
        let (ur, vr) = (
            second_order_smoothed(a, c, r.0, r.1),
            second_order_smoothed(b, c, r.0, r.1),
        );
        lemma_stand_mixed(u, ur, v, vr, p, q);
        let goal = mixed(ur, vr, pr, qr);
        assert forall|i: int| 0 <= i < s.len() implies agree(
            #[trigger] y[i],
            mixed(u, v, p, q)[i],
        ) by {
            lemma_proper_second_order(m, sigma, ea, e2a, i);
            law_exact_results_are_proper(p.times(u[i]), q.times(v[i]), 0, 0, 1);
            assert(stands_for(y[i], goal[i]));
            assert(stands_for(mixed(u, v, p, q)[i], goal[i]));
            lemma_agree(y[i], mixed(u, v, p, q)[i], goal[i]);
        }
    }
}

/// The second-order filter has no preferred direction: what it makes of the reversed signal is what
/// it makes of the signal, reversed, for two calls with the same deviation.
pub proof fn law_exact_second_order_commutes_with_reversal<E: Fn(Exact) -> Exact>(
    y: Seq<Exact>,
    u: Seq<Exact>,
    x: Seq<Exact>,
    sigma: Exact,
    exp: E,
)
    requires
        single_valued(exp),
        sigma.defined(),
        is_second_order_result(y, x.reverse(), sigma, exp),
        is_second_order_result(u, x, sigma, exp),
    ensures
        y.len() == x.len(),
        forall|i: int| 0 <= i < x.len() ==> agree(#[trigger] y[i], u.reverse()[i]),
{
    if !(negligible(sigma) || x.len() == 0) {
        let back = x.reverse();
        let (ea, e2a) = choose|ea: Exact, e2a: Exact|
            are_exponentials(ea, e2a, sigma, exp) && y == #[trigger] second_order_smoothed(
                back,
                sigma,
                ea,
                e2a,
            );
        let (fa, f2a) = choose|fa: Exact, f2a: Exact|
            are_exponentials(fa, f2a, sigma, exp) && u == #[trigger] second_order_smoothed(
                x,
                sigma,
                fa,
                f2a,
            );
        assert(fa == ea && f2a == e2a);
        let a = values(x);
        let c = sigma.value();
        let e = (ea, e2a);
        let r = (ea.value(), e2a.value());
        lemma_stand_values(x);
        lemma_stand_values(back);
        assert(values(back) =~= a.reverse());
        law_exact_second_order_smoothing(back, a.reverse(), sigma, c, e, r);
        law_exact_second_order_smoothing(x, a, sigma, c, e, r);
        law_second_order_commutes_with_reversal(a, c, r.0, r.1);
        let (left, right) = (
            second_order_smoothed(a.reverse(), c, r.0, r.1),
            second_order_smoothed(a, c, r.0, r.1),
        );
        assert forall|i: int| 0 <= i < x.len() implies agree(#[trigger] y[i], u.reverse()[i]) by {
            let j = x.len() - 1 - i;
            lemma_proper_second_order(back, sigma, ea, e2a, i);
            lemma_proper_second_order(x, sigma, ea, e2a, j);
            assert(stands_for(y[i], left[i]));
            assert(stands_for(u[j], right[j]));
            assert(left[i] == right.reverse()[i]);
            lemma_agree(y[i], u[j], left[i]);
        }
    }
}

/// The second-order filter makes no weight and no negative values: a signal without negative values
/// has none after it, and does not sum to more than before, where the exponentials of a decay and
/// of twice the decay are a number between zero and one and its square.
pub proof fn law_exact_second_order_makes_no_weight<E: Fn(Exact) -> Exact>(
    y: Seq<Exact>,
    x: Seq<Exact>,
    sigma: Exact,
    exp: E,
)
    requires
        sigma.defined(),
        zero::<Exact>().at_most(sigma),
        forall|ea: Exact, e2a: Exact| #[trigger]
            are_exponentials(ea, e2a, sigma, exp) ==> 0real < ea.value() < 1real && e2a.value()
                == ea.value() * ea.value(),
        is_second_order_result(y, x, sigma, exp),
        all_defined(y),
        forall|i: int| 0 <= i < x.len() ==> (#[trigger] values(x)[i]) >= 0real,
    ensures
        y.len() == x.len(),
        total(values(y)) <= total(values(x)),
        forall|i: int| 0 <= i < y.len() ==> (#[trigger] values(y)[i]) >= 0real,
{
    if !(negligible(sigma) || x.len() == 0) {
        let (ea, e2a) = choose|ea: Exact, e2a: Exact|
            are_exponentials(ea, e2a, sigma, exp) && y == #[trigger] second_order_smoothed(
                x,
                sigma,
                ea,
                e2a,
            );
        let (c, e) = (sigma.value(), ea.value());
        lemma_defined_constants();
        lemma_stand_whole(0);
        lemma_stand_order(zero(), sigma, zero(), c);
        lemma_stand_values(x);
        law_exact_second_order_smoothing(x, values(x), sigma, c, (ea, e2a), (e, e * e));
        let z = second_order_smoothed(values(x), c, e, e * e);
        lemma_values(y, z);
        law_second_order_smoothing_makes_no_weight(values(x), c, e);
        law_second_order_keeps_sign(values(x), c, e);
        assert forall|i: int| 0 <= i < y.len() implies (#[trigger] values(y)[i]) >= 0real by {
            assert(z[i] >= 0real);
        }
    }
}

/// The fourth-order filter is linear: what it makes of `p s + q t` is what it makes of `s` and of
/// `t`, mixed in the same way, for three calls with the same deviation.
pub proof fn law_exact_fourth_order_is_linear<
    E: Fn(Exact) -> Exact,
    C: Fn(Exact) -> Exact,
    S: Fn(Exact) -> Exact,
>(
    y: Seq<Exact>,
    u: Seq<Exact>,
    v: Seq<Exact>,
    s: Seq<Exact>,
    t: Seq<Exact>,
    p: Exact,
    q: Exact,
    sigma: Exact,
    pi: Exact,
    exp: E,
    cos: C,
    sin: S,
)
    requires
        single_valued(exp),
        single_valued(cos),
        single_valued(sin),
        sigma.defined(),
        s.len() == t.len(),
        is_fourth_order_result(y, mixed(s, t, p, q), sigma, pi, exp, cos, sin),
        is_fourth_order_result(u, s, sigma, pi, exp, cos, sin),
        is_fourth_order_result(v, t, sigma, pi, exp, cos, sin),
    ensures
        y.len() == s.len(),
        forall|i: int| 0 <= i < s.len() ==> agree(#[trigger] y[i], mixed(u, v, p, q)[i]),
{
    if !(negligible(sigma) || s.len() == 0) {
        let m = mixed(s, t, p, q);
        let e = choose|e: Seq<(Exact, Exact)>| #[trigger]
            are_poles(e, sigma, exp, cos, sin) && y == smoothed(m, sigma, pi, e);
        let f = choose|f: Seq<(Exact, Exact)>| #[trigger]
            are_poles(f, sigma, exp, cos, sin) && u == smoothed(s, sigma, pi, f);
        let g = choose|g: Seq<(Exact, Exact)>| #[trigger]
            are_poles(g, sigma, exp, cos, sin) && v == smoothed(t, sigma, pi, g);
        law_poles_are_determined(f, e, sigma, exp, cos, sin);
        law_poles_are_determined(g, e, sigma, exp, cos, sin);
        let (a, b) = (values(s), values(t));
        let (c, d, pr, qr) = (sigma.value(), pi.value(), p.value(), q.value());
        let r = pair_values(e);
        lemma_stand_values(s);
        lemma_stand_values(t);
        lemma_stand_pair_values(e);
        lemma_stand_mixed(s, a, t, b, p, q);
        law_exact_smoothing(m, mixed(a, b, pr, qr), sigma, c, pi, d, e, r);
        law_exact_smoothing(s, a, sigma, c, pi, d, e, r);
        law_exact_smoothing(t, b, sigma, c, pi, d, e, r);
        law_smoothing_is_linear(a, b, pr, qr, c, d, r);
        let (ur, vr) = (smoothed(a, c, d, r), smoothed(b, c, d, r));
        lemma_stand_mixed(u, ur, v, vr, p, q);
        let goal = mixed(ur, vr, pr, qr);
        assert forall|i: int| 0 <= i < s.len() implies agree(
            #[trigger] y[i],
            mixed(u, v, p, q)[i],
        ) by {
            lemma_proper_smoothed(m, sigma, pi, e, i);
            law_exact_results_are_proper(p.times(u[i]), q.times(v[i]), 0, 0, 1);
            assert(stands_for(y[i], goal[i]));
            assert(stands_for(mixed(u, v, p, q)[i], goal[i]));
            lemma_agree(y[i], mixed(u, v, p, q)[i], goal[i]);
        }
    }
}

/// The fourth-order filter has no preferred direction: what it makes of the reversed signal is what
/// it makes of the signal, reversed, for two calls with the same deviation.
pub proof fn law_exact_fourth_order_commutes_with_reversal<
    E: Fn(Exact) -> Exact,
    C: Fn(Exact) -> Exact,
    S: Fn(Exact) -> Exact,
>(
    y: Seq<Exact>,
    u: Seq<Exact>,
    x: Seq<Exact>,
    sigma: Exact,
    pi: Exact,
    exp: E,
    cos: C,
    sin: S,
)
    requires
        single_valued(exp),
        single_valued(cos),
        single_valued(sin),
        sigma.defined(),
        is_fourth_order_result(y, x.reverse(), sigma, pi, exp, cos, sin),
        is_fourth_order_result(u, x, sigma, pi, exp, cos, sin),
    ensures
        y.len() == x.len(),
        forall|i: int| 0 <= i < x.len() ==> agree(#[trigger] y[i], u.reverse()[i]),
{
    if !(negligible(sigma) || x.len() == 0) {
        let back = x.reverse();
        let e = choose|e: Seq<(Exact, Exact)>| #[trigger]
            are_poles(e, sigma, exp, cos, sin) && y == smoothed(back, sigma, pi, e);
        let f = choose|f: Seq<(Exact, Exact)>| #[trigger]
            are_poles(f, sigma, exp, cos, sin) && u == smoothed(x, sigma, pi, f);
        law_poles_are_determined(f, e, sigma, exp, cos, sin);
        let a = values(x);
        let (c, d) = (sigma.value(), pi.value());
        let r = pair_values(e);
        lemma_stand_values(x);
        lemma_stand_values(back);
        lemma_stand_pair_values(e);
        assert(values(back) =~= a.reverse());
        law_exact_smoothing(back, a.reverse(), sigma, c, pi, d, e, r);
        law_exact_smoothing(x, a, sigma, c, pi, d, e, r);
        law_smoothing_commutes_with_reversal(a, c, d, r);
        let (left, right) = (smoothed(a.reverse(), c, d, r), smoothed(a, c, d, r));
        assert forall|i: int| 0 <= i < x.len() implies agree(#[trigger] y[i], u.reverse()[i]) by {
            let j = x.len() - 1 - i;
            lemma_proper_smoothed(back, sigma, pi, e, i);
            lemma_proper_smoothed(x, sigma, pi, e, j);
            assert(stands_for(y[i], left[i]));
            assert(stands_for(u[j], right[j]));
            assert(left[i] == right.reverse()[i]);
            lemma_agree(y[i], u[j], left[i]);
        }
    }
}

} // verus!
