//! What covariances and determinants of exact fractions have in common, where they are defined.
use vstd::prelude::*;

use crate::covariance_laws::{
    axes_exchanged, law_covariance_of_exchanged_axes, law_covariance_of_shifted_data,
    law_population_and_sample, shifted,
};
use crate::exact::{gcd, Exact};
use crate::exact_matrices::{
    lemma_stand_covariance, lemma_stand_product, matrix_defined, matrix_stands_for, matrix_values,
};
use crate::exact_relation::{all_stand_for, group_stand, lemma_stand_values, stands_for, values};
use crate::exact_terms::{agree, law_exact_results_are_proper, lemma_agree, proper};
use crate::matrix::{average, covariance, determinant, deviation_products, matrix_product, Matrix2};
use crate::matrix_laws::{
    identity, law_covariance_is_positive, law_determinant_of_exchanged_rows,
    law_determinant_of_product, positive_semidefinite, rows_exchanged,
};
use crate::scalar::{one, zero, Arith};

verus! {

/// Whether the entries of the matrices agree.
pub open spec fn matrices_agree(a: Matrix2<Exact>, b: Matrix2<Exact>) -> bool {
    agree(a.xx, b.xx) && agree(a.xy, b.xy) && agree(a.yx, b.yx) && agree(a.yy, b.yy)
}

/// Whether all entries are in lowest terms.
spec fn matrix_proper(m: Matrix2<Exact>) -> bool {
    proper(m.xx) && proper(m.xy) && proper(m.yx) && proper(m.yy)
}

/// Matrices in lowest terms that stand for the same matrix agree.
proof fn lemma_matrices_agree(a: Matrix2<Exact>, b: Matrix2<Exact>, m: Matrix2<real>)
    requires
        matrix_proper(a),
        matrix_proper(b),
        matrix_stands_for(a, m),
        matrix_stands_for(b, m),
    ensures
        matrices_agree(a, b),
{
    lemma_agree(a.xx, b.xx, m.xx);
    lemma_agree(a.xy, b.xy, m.xy);
    lemma_agree(a.yx, b.yx, m.yx);
    lemma_agree(a.yy, b.yy, m.yy);
}

/// The entries of a covariance matrix are in lowest terms.
proof fn lemma_proper_covariance(x: Seq<Exact>, y: Seq<Exact>, population: bool)
    ensures
        matrix_proper(covariance(x, y, population)),
{
    let (mx, my) = (average(x), average(y));
    let n = Exact::whole(x.len() as usize);
    let d = if population {
        n
    } else {
        n.minus(one())
    };
    law_exact_results_are_proper(deviation_products(x, x, mx, mx), d, 0, 0, 1);
    law_exact_results_are_proper(deviation_products(x, y, mx, my), d, 0, 0, 1);
    law_exact_results_are_proper(deviation_products(y, y, my, my), d, 0, 0, 1);
}

/// A matrix multiplied by a number.
pub open spec fn matrix_times<T: Arith>(m: Matrix2<T>, k: T) -> Matrix2<T> {
    Matrix2 { xx: m.xx.times(k), xy: m.xy.times(k), yx: m.yx.times(k), yy: m.yy.times(k) }
}

/// The covariances of a population and of a sample differ by the divisor only: of `n` points, the
/// first times `n` are the second times `n - 1`.
pub proof fn law_exact_population_and_sample(x: Seq<Exact>, y: Seq<Exact>)
    requires
        x.len() == y.len(),
        2 <= x.len() <= usize::MAX,
    ensures
        ({
            let n = Exact::whole(x.len() as usize);
            matrices_agree(
                matrix_times(covariance(x, y, true), n),
                matrix_times(covariance(x, y, false), n.minus(one())),
            )
        }),
{
    broadcast use group_stand;

    let (a, b) = (values(x), values(y));
    lemma_stand_values(x);
    lemma_stand_values(y);
    lemma_stand_covariance(x, a, y, b, true);
    lemma_stand_covariance(x, a, y, b, false);
    law_population_and_sample(a, b);
    let n = Exact::whole(x.len() as usize);
    let k = n.minus(one());
    let (p, s) = (covariance(x, y, true), covariance(x, y, false));
    let (nr, kr) = (
        <real as Arith>::whole(x.len() as usize),
        <real as Arith>::whole(x.len() as usize).minus(one()),
    );
    assert(stands_for(k, kr));
    let goal = matrix_times(covariance(a, b, true), nr);
    let other = matrix_times(covariance(a, b, false), kr);
    assert(matrix_stands_for(matrix_times(p, n), goal));
    assert(matrix_stands_for(matrix_times(s, k), other));
    assert(goal == other);
    law_exact_results_are_proper(p.xx, n, 0, 0, 1);
    law_exact_results_are_proper(p.xy, n, 0, 0, 1);
    law_exact_results_are_proper(p.yx, n, 0, 0, 1);
    law_exact_results_are_proper(p.yy, n, 0, 0, 1);
    law_exact_results_are_proper(s.xx, k, 0, 0, 1);
    law_exact_results_are_proper(s.xy, k, 0, 0, 1);
    law_exact_results_are_proper(s.yx, k, 0, 0, 1);
    law_exact_results_are_proper(s.yy, k, 0, 0, 1);
    lemma_matrices_agree(matrix_times(p, n), matrix_times(s, k), goal);
}

/// Exchanging the axes exchanges the entries of the covariance matrix.
pub proof fn law_exact_covariance_of_exchanged_axes(
    x: Seq<Exact>,
    y: Seq<Exact>,
    population: bool,
)
    requires
        x.len() == y.len(),
    ensures
        matrices_agree(
            covariance(y, x, population),
            axes_exchanged(covariance(x, y, population)),
        ),
{
    let (a, b) = (values(x), values(y));
    lemma_stand_values(x);
    lemma_stand_values(y);
    lemma_stand_covariance(x, a, y, b, population);
    lemma_stand_covariance(y, b, x, a, population);
    law_covariance_of_exchanged_axes(a, b, population);
    lemma_proper_covariance(x, y, population);
    lemma_proper_covariance(y, x, population);
    lemma_matrices_agree(
        covariance(y, x, population),
        axes_exchanged(covariance(x, y, population)),
        covariance(b, a, population),
    );
}

/// A shifted sequence stands for the shifted sequence.
proof fn lemma_stand_shifted(s: Seq<Exact>, c: Exact)
    ensures
        all_stand_for(shifted(s, c), shifted(values(s), c.value())),
{
    broadcast use group_stand;

    let (t, u) = (shifted(s, c), shifted(values(s), c.value()));
    assert forall|i: int| 0 <= i < s.len() implies #[trigger] stands_for(t[i], u[i]) by {
        assert(stands_for(s[i], values(s)[i]));
    }
}

/// Shifting the data leaves the covariance matrix as it is.
pub proof fn law_exact_covariance_of_shifted_data(
    x: Seq<Exact>,
    y: Seq<Exact>,
    c: Exact,
    d: Exact,
    population: bool,
)
    requires
        x.len() == y.len(),
        1 <= x.len() <= usize::MAX,
    ensures
        matrices_agree(
            covariance(shifted(x, c), shifted(y, d), population),
            covariance(x, y, population),
        ),
{
    let (a, b) = (values(x), values(y));
    let (u, v) = (shifted(x, c), shifted(y, d));
    lemma_stand_values(x);
    lemma_stand_values(y);
    lemma_stand_shifted(x, c);
    lemma_stand_shifted(y, d);
    lemma_stand_covariance(x, a, y, b, population);
    lemma_stand_covariance(
        u,
        shifted(a, c.value()),
        v,
        shifted(b, d.value()),
        population,
    );
    law_covariance_of_shifted_data(a, b, c.value(), d.value(), population);
    lemma_proper_covariance(x, y, population);
    lemma_proper_covariance(u, v, population);
    lemma_matrices_agree(
        covariance(u, v, population),
        covariance(x, y, population),
        covariance(a, b, population),
    );
}

/// A covariance matrix is symmetric and has no negative direction, where there are samples enough
/// for one.
pub proof fn law_exact_covariance_is_positive(x: Seq<Exact>, y: Seq<Exact>, population: bool)
    requires
        x.len() == y.len(),
        x.len() >= 2 || (population && x.len() >= 1),
        x.len() <= usize::MAX,
    ensures
        ({
            let m = covariance(x, y, population);
            &&& m.xy == m.yx
            &&& matrix_defined(m) ==> positive_semidefinite(matrix_values(m))
        }),
{
    let (a, b) = (values(x), values(y));
    lemma_stand_values(x);
    lemma_stand_values(y);
    lemma_stand_covariance(x, a, y, b, population);
    law_covariance_is_positive(a, b, population);
    let m = covariance(x, y, population);
    if matrix_defined(m) {
        assert(matrix_values(m) == covariance(a, b, population));
    }
}

/// A determinant stands for the determinant, and is in lowest terms.
proof fn lemma_stand_determinant(m: Matrix2<Exact>, n: Matrix2<real>)
    requires
        matrix_stands_for(m, n),
    ensures
        stands_for(determinant(m), determinant(n)),
        proper(determinant(m)),
{
    broadcast use group_stand;

    law_exact_results_are_proper(m.xx.times(m.yy), m.xy.times(m.yx), 0, 0, 1);
    assert(stands_for(m.xx.times(m.yy), n.xx.times(n.yy)));
    assert(stands_for(m.xy.times(m.yx), n.xy.times(n.yx)));
}

/// The determinant of a product is the product of the determinants.
pub proof fn law_exact_determinant_of_product(a: Matrix2<Exact>, b: Matrix2<Exact>)
    ensures
        agree(determinant(matrix_product(a, b)), determinant(a).times(determinant(b))),
{
    broadcast use group_stand;

    let (c, d) = (matrix_values(a), matrix_values(b));
    lemma_stand_product(a, b, c, d);
    lemma_stand_determinant(a, c);
    lemma_stand_determinant(b, d);
    lemma_stand_determinant(matrix_product(a, b), matrix_product(c, d));
    law_determinant_of_product(c, d);
    law_exact_results_are_proper(determinant(a), determinant(b), 0, 0, 1);
    assert(stands_for(
        determinant(a).times(determinant(b)),
        determinant(c).times(determinant(d)),
    ));
    lemma_agree(
        determinant(matrix_product(a, b)),
        determinant(a).times(determinant(b)),
        determinant(c) * determinant(d),
    );
}

/// The determinant of the identity is one.
pub proof fn law_exact_determinant_of_identity()
    ensures
        determinant(identity::<Exact>()) == one::<Exact>(),
{
    reveal_with_fuel(gcd, 3);
    assert(gcd(0, 1) == 1);
    assert(gcd(1, 1) == 1);
    let (unit, none) = (one::<Exact>(), zero::<Exact>());
    assert(unit == Exact { num: 1, den: 1 });
    assert(none == Exact { num: 0, den: 1 });
    assert(unit.times(unit) == unit);
    assert(none.times(none) == none) by {
        assert(Exact::reduced(0, 1) == none);
        assert(none.num * none.num == 0) by (nonlinear_arith)
            requires
                none.num == 0,
        ;
    }
    assert(unit.minus(none) == unit);
}

/// Exchanging the rows negates the determinant.
pub proof fn law_exact_determinant_of_exchanged_rows(a: Matrix2<Exact>)
    ensures
        agree(determinant(rows_exchanged(a)), determinant(a).negated()),
{
    broadcast use group_stand;

    let c = matrix_values(a);
    lemma_stand_determinant(a, c);
    lemma_stand_determinant(rows_exchanged(a), rows_exchanged(c));
    law_determinant_of_exchanged_rows(c);
    law_exact_results_are_proper(determinant(a), determinant(a), 0, 0, 1);
    assert(stands_for(determinant(a).negated(), determinant(c).negated()));
    lemma_agree(determinant(rows_exchanged(a)), determinant(a).negated(), -determinant(c));
}

} // verus!
