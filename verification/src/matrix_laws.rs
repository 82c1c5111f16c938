//! What the moments and the matrices keep, in exact arithmetic.
use vstd::prelude::*;

use crate::matrix::{
    average, axis_eigenvalues, bandwidth, covariance, determinant, deviation_products, discriminant,
    eigenvalues, eigenvector_slope, eigenvectors, lower_eigenvalue, matrix_product, slope_norm,
    transposed, upper_eigenvalue, Matrix2,
};
use crate::reals::{
    lemma_associate, lemma_cancel, lemma_commute, lemma_distribute, lemma_div_mul, lemma_div_order,
    lemma_negate, lemma_pair_up, lemma_product_sign, lemma_square, lemma_units,
};
use crate::scalar::{is_root, one, zero, Arith};

verus! {

/// Whether the matrix is symmetric.
pub open spec fn symmetric(m: Matrix2<real>) -> bool {
    m.xy == m.yx
}

/// Whether the matrix is symmetric and has no negative direction.
pub open spec fn positive_semidefinite(m: Matrix2<real>) -> bool {
    &&& symmetric(m)
    &&& m.xx >= 0real
    &&& m.yy >= 0real
    &&& determinant(m) >= 0real
}

/// A form without negative direction is nonnegative everywhere.
proof fn lemma_form(a: real, b: real, c: real, x: real, y: real)
    requires
        a >= 0real,
        c >= 0real,
        a * c >= b * b,
    ensures
        a * (y * y) + c * (x * x) - 2real * (b * (x * y)) >= 0real,
{
    let f = a * (y * y) + c * (x * x) - 2real * (b * (x * y));
    lemma_product_sign(c, x * x);
    lemma_product_sign(x, x);
    if a == 0real {
        lemma_units(c);
        assert(b == 0real) by (nonlinear_arith)
            requires
                b * b <= 0real,
        ;
        lemma_units(y * y);
        lemma_units(x * y);
    } else {
        let u = a * y - b * x;
        let d = a * c - b * b;
        assert(a * f == u * u + d * (x * x)) by {
            lemma_square(a * y, b * x);
            lemma_pair_up(a, y, a, y);
            lemma_pair_up(a, y, b, x);
            lemma_pair_up(b, x, b, x);
            lemma_commute(x, y);
            lemma_distribute(a * (y * y) + c * (x * x), 2real * (b * (x * y)), a);
            lemma_distribute(a * (y * y), c * (x * x), a);
            lemma_associate(a, a, y * y);
            lemma_associate(a, c, x * x);
            lemma_associate(a, b, x * y);
            lemma_associate(a, 2real, b * (x * y));
            lemma_commute(a, 2real);
            lemma_associate(2real, a, b * (x * y));
            lemma_distribute(a * c, b * b, x * x);
        }
        lemma_product_sign(u, u);
        lemma_product_sign(d, x * x);
        assert(f >= 0real) by (nonlinear_arith)
            requires
                a > 0real,
                a * f >= 0real,
        ;
    }
}

/// Sums of products of deviations obey the inequality of Cauchy and Schwarz.
proof fn lemma_deviation_products(x: Seq<real>, y: Seq<real>, mx: real, my: real)
    requires
        x.len() == y.len(),
    ensures
        deviation_products(x, x, mx, mx) >= 0real,
        deviation_products(y, y, my, my) >= 0real,
        deviation_products(x, x, mx, mx) * deviation_products(y, y, my, my) >= deviation_products(
            x,
            y,
            mx,
            my,
        ) * deviation_products(x, y, mx, my),
    decreases x.len(),
{
    if x.len() == 0 {
        lemma_units(0real);
    } else {
        let (r, s) = (x.drop_last(), y.drop_last());
        lemma_deviation_products(r, s, mx, my);
        let a = deviation_products(r, r, mx, mx);
        let b = deviation_products(r, s, mx, my);
        let c = deviation_products(s, s, my, my);
        let (u, v) = (x.last() - mx, y.last() - my);
        lemma_product_sign(u, u);
        lemma_product_sign(v, v);
        lemma_form(a, b, c, u, v);
        let (uu, vv, uv) = (u * u, v * v, u * v);
        assert((a + uu) * (c + vv) == a * c + a * vv + c * uu + uu * vv) by {
            lemma_distribute(a, uu, c + vv);
            lemma_distribute(c, vv, a);
            lemma_distribute(c, vv, uu);
            lemma_commute(uu, c);
        }
        lemma_square(b, uv);
        lemma_pair_up(u, v, u, v);
    }
}

/// A covariance matrix is symmetric and has no negative direction, where there are samples enough
/// for one.
pub proof fn law_covariance_is_positive(x: Seq<real>, y: Seq<real>, population: bool)
    requires
        x.len() == y.len(),
        x.len() >= 2 || (population && x.len() >= 1),
        x.len() <= usize::MAX,
    ensures
        positive_semidefinite(covariance(x, y, population)),
{
    let (mx, my) = (average(x), average(y));
    lemma_deviation_products(x, y, mx, my);
    let a = deviation_products(x, x, mx, mx);
    let b = deviation_products(x, y, mx, my);
    let c = deviation_products(y, y, my, my);
    let n = if population {
        x.len() as real
    } else {
        x.len() as real - 1real
    };
    lemma_quotients(a, b, c, n);
}

/// Dividing a form by a positive number leaves it without negative direction.
proof fn lemma_quotients(a: real, b: real, c: real, n: real)
    requires
        n > 0real,
        a >= 0real,
        c >= 0real,
        a * c >= b * b,
    ensures
        a / n >= 0real,
        c / n >= 0real,
        (a / n) * (c / n) - (b / n) * (b / n) >= 0real,
{
    let (p, q, r) = (a / n, b / n, c / n);
    lemma_div_mul(a, n);
    lemma_div_mul(b, n);
    lemma_div_mul(c, n);
    lemma_div_order(a, n, 0real);
    lemma_div_order(c, n, 0real);
    lemma_pair_up(p, n, r, n);
    lemma_pair_up(q, n, q, n);
    lemma_distribute(p * r, q * q, n * n);
    lemma_product_sign(n, n);
    let d = p * r - q * q;
    let m = n * n;
    assert(d >= 0real) by (nonlinear_arith)
        requires
            m > 0real,
            d * m >= 0real,
    ;
}

/// A bandwidth matrix is symmetric and has no negative direction.
pub proof fn law_bandwidth_is_positive(x: Seq<real>, y: Seq<real>, f: real)
    requires
        x.len() == y.len(),
        2 <= x.len() <= usize::MAX,
    ensures
        positive_semidefinite(bandwidth(x, y, f)),
{
    let c = covariance(x, y, false);
    law_covariance_is_positive(x, y, false);
    let g = f * f;
    lemma_product_sign(f, f);
    lemma_product_sign(c.xx, g);
    lemma_product_sign(c.yy, g);
    lemma_pair_up(c.xx, g, c.yy, g);
    lemma_pair_up(c.xy, g, c.yx, g);
    lemma_distribute(c.xx * c.yy, c.xy * c.yx, g * g);
    lemma_product_sign(g, g);
    lemma_product_sign(determinant(c), g * g);
}

/// The determinant of a product is the product of the determinants.
pub proof fn law_determinant_of_product(a: Matrix2<real>, b: Matrix2<real>)
    ensures
        determinant(matrix_product(a, b)) == determinant(a) * determinant(b),
{
    let (p, q, r, s) = (a.xx * b.xx, a.xy * b.yx, a.xx * b.xy, a.xy * b.yy);
    let (t, u, v, w) = (a.yx * b.xx, a.yy * b.yx, a.yx * b.xy, a.yy * b.yy);
    // (p + q) (v + w) - (r + s) (t + u)
    lemma_distribute(p, q, v + w);
    lemma_distribute(v, w, p);
    lemma_distribute(v, w, q);
    lemma_distribute(r, s, t + u);
    lemma_distribute(t, u, r);
    lemma_distribute(t, u, s);
    lemma_pair_up(a.xx, b.xx, a.yx, b.xy);
    lemma_pair_up(a.xx, b.xx, a.yy, b.yy);
    lemma_pair_up(a.xy, b.yx, a.yx, b.xy);
    lemma_pair_up(a.xy, b.yx, a.yy, b.yy);
    lemma_pair_up(a.xx, b.xy, a.yx, b.xx);
    lemma_pair_up(a.xx, b.xy, a.yy, b.yx);
    lemma_pair_up(a.xy, b.yy, a.yx, b.xx);
    lemma_pair_up(a.xy, b.yy, a.yy, b.yx);
    lemma_commute(b.xy, b.xx);
    lemma_commute(b.yy, b.yx);
    lemma_commute(b.yx, b.xy);
    lemma_commute(b.yy, b.xx);
    let (d, e) = (a.xx * a.yy, a.xy * a.yx);
    let (f, g) = (b.xx * b.yy, b.xy * b.yx);
    lemma_distribute(d, e, f - g);
    lemma_distribute(f, g, d);
    lemma_distribute(f, g, e);
}

/// The matrix with ones on the diagonal and zeros off it.
pub open spec fn identity<T: Arith>() -> Matrix2<T> {
    Matrix2 { xx: one(), xy: zero(), yx: zero(), yy: one() }
}

/// The matrix with its rows exchanged.
pub open spec fn rows_exchanged<T>(a: Matrix2<T>) -> Matrix2<T> {
    Matrix2 { xx: a.yx, xy: a.yy, yx: a.xx, yy: a.xy }
}

/// The determinant of the identity is one.
pub proof fn law_determinant_of_identity()
    ensures
        determinant(identity::<real>()) == 1real,
{
    lemma_units(0real);
    lemma_units(1real);
}

/// Exchanging the rows negates the determinant.
pub proof fn law_determinant_of_exchanged_rows(a: Matrix2<real>)
    ensures
        determinant(rows_exchanged(a)) == -determinant(a),
{
    lemma_commute(a.yx, a.xy);
    lemma_commute(a.yy, a.xx);
}

/// Whether the number has a square root.
pub open spec fn has_root(x: real) -> bool {
    exists|r: real| is_root(r, x)
}

/// The eigenvalues of a symmetric matrix are in order, sum to the trace and multiply to the
/// determinant.
pub proof fn law_eigenvalues(m: Matrix2<real>)
    requires
        has_root(discriminant(m)),
    ensures
        lower_eigenvalue(m) <= upper_eigenvalue(m),
        lower_eigenvalue(m) + upper_eigenvalue(m) == m.xx + m.yy,
        lower_eigenvalue(m) * upper_eigenvalue(m) == determinant(m),
{
    let sum = m.xx + m.yy;
    let delta = discriminant(m).root();
    let h = 1real / 2real;
    let (l, u) = (h * (sum - delta), h * (sum + delta));
    assert(is_root(delta, discriminant(m)));
    lemma_distribute(sum, delta, h);
    lemma_pair_up(h, sum - delta, h, sum + delta);
    lemma_commute(sum - delta, sum + delta);
    lemma_square(sum, delta);
    assert(h * h == 1real / 4real) by (nonlinear_arith)
        requires
            h == 1real / 2real,
    ;
    assert(h * delta >= 0real) by (nonlinear_arith)
        requires
            h == 1real / 2real,
            delta >= 0real,
    ;
    assert(h * sum + h * sum == sum) by (nonlinear_arith)
        requires
            h == 1real / 2real,
    ;
    let d = determinant(m);
    assert((1real / 4real) * (4real * d) == d) by (nonlinear_arith);
}

/// The eigenvalues of a matrix without negative direction are not negative.
pub proof fn law_eigenvalues_are_not_negative(m: Matrix2<real>)
    requires
        positive_semidefinite(m),
        has_root(discriminant(m)),
    ensures
        0real <= lower_eigenvalue(m) <= upper_eigenvalue(m),
{
    law_eigenvalues(m);
    let (l, u) = (lower_eigenvalue(m), upper_eigenvalue(m));
    assert(l >= 0real) by (nonlinear_arith)
        requires
            l * u >= 0real,
            l + u >= 0real,
            l <= u,
    ;
}

/// Where the entries off the diagonal are zero, each axis has its own entry of the diagonal: for
/// uncorrelated data the bandwidths of the axes come of their own variances.
pub proof fn law_uncorrelated_axes(m: Matrix2<real>)
    requires
        symmetric(m),
        m.xy == 0real,
    ensures
        axis_eigenvalues(m) == (m.xx, m.yy),
{
    let (a, c) = (m.xx, m.yy);
    let d = if a <= c {
        c - a
    } else {
        a - c
    };
    lemma_units(m.xy);
    assert((a + c) * (a + c) - 4real * (a * c) == (a - c) * (a - c)) by (nonlinear_arith);
    assert((c - a) * (c - a) == (a - c) * (a - c)) by (nonlinear_arith);
    assert(is_root(d, discriminant(m)));
    let r = discriminant(m).root();
    assert(is_root(r, discriminant(m)));
    assert(r == d) by (nonlinear_arith)
        requires
            r >= 0real,
            d >= 0real,
            r * r == d * d,
    ;
    let h = 1real / 2real;
    assert(h * (a + c - d) == (a + c - d) / 2real && h * (a + c + d) == (a + c + d) / 2real)
        by (nonlinear_arith)
        requires
            h == 1real / 2real,
    ;
}

/// The eigenvalues for the axes are the two eigenvalues, and are in the order of the entries of the
/// diagonal.
pub proof fn law_axis_eigenvalues(m: Matrix2<real>)
    requires
        has_root(discriminant(m)),
    ensures
        axis_eigenvalues(m).0 + axis_eigenvalues(m).1 == m.xx + m.yy,
        axis_eigenvalues(m).0 * axis_eigenvalues(m).1 == determinant(m),
        m.xx <= m.yy ==> axis_eigenvalues(m).0 <= axis_eigenvalues(m).1,
        m.yy < m.xx ==> axis_eigenvalues(m).1 <= axis_eigenvalues(m).0,
{
    law_eigenvalues(m);
    lemma_commute(lower_eigenvalue(m), upper_eigenvalue(m));
}

/// What is true of the slope `s` of the eigenvectors for the eigenvalue `l`, where `u` is the other
/// one.
pub proof fn lemma_slope(a: real, b: real, c: real, l: real, u: real, s: real)
    requires
        b != 0real,
        l + u == a + c,
        l * u == a * c - b * b,
        s == (-b) / (a - l),
    ensures
        a - l != 0real,
        s * (a - l) == -b,
        a * s + b == l * s,
        b * s + c == l,
{
    assert((a - l) * (a - u) == -(b * b)) by {
        lemma_distribute(a, l, a - u);
        lemma_distribute(a, u, a);
        lemma_distribute(a, u, l);
        lemma_distribute(l, u, a);
        lemma_distribute(a, c, a);
        lemma_commute(l, a);
    }
    lemma_product_sign(b, b);
    assert(b * b != 0real) by (nonlinear_arith)
        requires
            b != 0real,
    ;
    lemma_units(a - u);
    let d = a - l;
    assert(d != 0real);
    lemma_div_mul(-b, d);
    lemma_distribute(a, l, s);
    lemma_commute(s, d);
    lemma_commute(s, a);
    lemma_commute(s, l);
    // (c - l) (a - l) == b b
    assert((c - l) * d == b * b) by {
        lemma_distribute(c, l, d);
        lemma_distribute(a, l, c);
        lemma_distribute(a, l, l);
        lemma_distribute(l, u, l);
        lemma_distribute(a, c, l);
        lemma_commute(c, a);
        lemma_commute(l, c);
    }
    assert((b * s) * d == -(b * b)) by {
        lemma_associate(b, s, d);
        lemma_negate(b, b);
    }
    lemma_negate(c - l, d);
    lemma_cancel(b * s, -(c - l), d);
}

/// The weights that two orthogonal directions have in each other's frame.
proof fn lemma_weights(s: real, t: real, p: real, q: real)
    requires
        s * t == -1real,
        p * (s * s + 1real) == 1real,
        q * (t * t + 1real) == 1real,
    ensures
        p + q == 1real,
        s * p + t * q == 0real,
        (s * s) * p + (t * t) * q == 1real,
{
    let (ss, tt) = (s * s, t * t);
    assert(ss * tt == 1real) by {
        lemma_pair_up(s, s, t, t);
        lemma_units(1real);
        lemma_negate(1real, 1real);
    }
    lemma_units(p);
    lemma_units(q);
    lemma_distribute(ss, 1real, p);
    lemma_distribute(tt, 1real, q);
    // q == ss p
    let r = ss * p;
    assert(r * (tt + 1real) == 1real) by {
        lemma_distribute(tt, 1real, r);
        lemma_units(r);
        lemma_associate(ss, p, tt);
        lemma_commute(p, tt);
        lemma_associate(ss, tt, p);
        lemma_commute(p, ss);
    }
    lemma_product_sign(t, t);
    lemma_cancel(q, r, tt + 1real);
    lemma_commute(p, ss);
    // t q == t (s (s p)) == -(s p)
    assert(t * q == -(s * p)) by {
        lemma_associate(s, s, p);
        lemma_associate(t, s, s * p);
        lemma_commute(t, s);
        lemma_negate(1real, s * p);
        lemma_units(s * p);
    }
    // tt q == tt (ss p) == p
    assert(tt * q == p) by {
        lemma_associate(tt, ss, p);
        lemma_commute(tt, ss);
    }
}

/// What the product of the three matrices comes to, entry by entry.
proof fn lemma_conjugation(
    a: real,
    b: real,
    c: real,
    l: real,
    u: real,
    s: real,
    t: real,
    p: real,
    q: real,
)
    requires
        a * s + b == l * s,
        b * s + c == l,
        a * t + b == u * t,
        b * t + c == u,
        p + q == 1real,
        s * p + t * q == 0real,
        (s * s) * p + (t * t) * q == 1real,
    ensures
        l * ((s * s) * p) + u * ((t * t) * q) == a,
        l * (s * p) + u * (t * q) == b,
        l * p + u * q == c,
{
    // l p + u q == b (s p + t q) + c (p + q)
    lemma_distribute(b * s, c, p);
    lemma_distribute(b * t, c, q);
    lemma_associate(b, s, p);
    lemma_associate(b, t, q);
    lemma_distribute(s * p, t * q, b);
    lemma_distribute(p, q, c);
    lemma_units(b);
    lemma_units(c);
    // l s p + u t q == a (s p + t q) + b (p + q)
    lemma_associate(l, s, p);
    lemma_associate(u, t, q);
    lemma_distribute(a * s, b, p);
    lemma_distribute(a * t, b, q);
    lemma_associate(a, s, p);
    lemma_associate(a, t, q);
    lemma_distribute(s * p, t * q, a);
    lemma_distribute(p, q, b);
    lemma_units(a);
    // l s s p + u t t q == a (s s p + t t q) + b (s p + t q)
    lemma_associate(s, s, p);
    lemma_associate(t, t, q);
    lemma_associate(l, s, s * p);
    lemma_associate(u, t, t * q);
    lemma_distribute(a * s, b, s * p);
    lemma_distribute(a * t, b, t * q);
    lemma_associate(a, s, s * p);
    lemma_associate(a, t, t * q);
    lemma_distribute((s * s) * p, (t * t) * q, a);
}

/// The squares of the entries of an eigenvector of length one.
pub proof fn lemma_unit_vector(s: real, n: real)
    requires
        is_root(n, s * s + 1real),
    ensures
        n != 0real,
        ((1real / n) * (1real / n)) * (s * s + 1real) == 1real,
        (s / n) * (1real / n) == s * ((1real / n) * (1real / n)),
        (1real / n) * (s / n) == s * ((1real / n) * (1real / n)),
        (s / n) * (s / n) == (s * s) * ((1real / n) * (1real / n)),
{
    lemma_product_sign(s, s);
    lemma_units(n);
    let i = 1real / n;
    lemma_div_mul(1real, n);
    lemma_pair_up(i, n, i, n);
    lemma_units(1real);
    assert(s / n == s * i) by {
        lemma_div_mul(s, n);
        lemma_associate(s, i, n);
        lemma_units(s);
        lemma_cancel(s / n, s * i, n);
    }
    lemma_associate(s, i, i);
    lemma_commute(i, s * i);
    lemma_pair_up(s, i, s, i);
}

/// A symmetric matrix is `P D P^T`, where `P` holds its eigenvectors, `D` its eigenvalues and `P^T`
/// is `P` transposed.
pub proof fn law_decomposition(m: Matrix2<real>)
    requires
        symmetric(m),
        has_root(discriminant(m)),
        m.xy != 0real ==> {
            let s = eigenvector_slope(m, lower_eigenvalue(m));
            let t = eigenvector_slope(m, upper_eigenvalue(m));
            has_root(s * s + 1real) && has_root(t * t + 1real)
        },
    ensures
        matrix_product(
            matrix_product(eigenvectors(m), eigenvalues(m)),
            transposed(eigenvectors(m)),
        ) == m,
{
    law_eigenvalues(m);
    let (l, u) = (lower_eigenvalue(m), upper_eigenvalue(m));
    let (a, b, c) = (m.xx, m.xy, m.yy);
    let v = eigenvectors(m);
    lemma_units(l);
    lemma_units(u);
    lemma_units(v.xx);
    lemma_units(v.xy);
    lemma_units(v.yx);
    lemma_units(v.yy);
    lemma_units(b);
    if b == 0real {
        lemma_diagonal(a, c, l, u);
        lemma_units(0real);
        lemma_units(1real);
    } else {
        let s = eigenvector_slope(m, l);
        let t = eigenvector_slope(m, u);
        let (ns, nt) = (slope_norm(s), slope_norm(t));
        assert(is_root(ns, s * s + 1real));
        assert(is_root(nt, t * t + 1real));
        lemma_slope(a, b, c, l, u, s);
        lemma_commute(l, u);
        lemma_slope(a, b, c, u, l, t);
        assert(s * t == -1real) by {
            // b (s t) == (l - c) t == l t - c t, and b t == u - c
            lemma_slopes_are_orthogonal(a, b, c, l, u, s, t);
        }
        let p = (1real / ns) * (1real / ns);
        let q = (1real / nt) * (1real / nt);
        lemma_unit_vector(s, ns);
        lemma_unit_vector(t, nt);
        lemma_weights(s, t, p, q);
        lemma_conjugation(a, b, c, l, u, s, t, p, q);
        // The entries of the product.
        let (i, j) = (1real / ns, 1real / nt);
        let (x, y) = (s / ns, t / nt);
        lemma_rotate(x, l, x);
        lemma_rotate(y, u, y);
        lemma_rotate(x, l, i);
        lemma_rotate(y, u, j);
        lemma_rotate(i, l, x);
        lemma_rotate(j, u, y);
        lemma_rotate(i, l, i);
        lemma_rotate(j, u, j);
    }
}

/// `(x * l) * y == l * (x * y)`.
proof fn lemma_rotate(x: real, l: real, y: real)
    ensures
        (x * l) * y == l * (x * y),
{
    lemma_commute(x, l);
    lemma_associate(l, x, y);
}

/// The slopes of the two eigenvectors.
pub proof fn lemma_slopes_are_orthogonal(
    a: real,
    b: real,
    c: real,
    l: real,
    u: real,
    s: real,
    t: real,
)
    requires
        b != 0real,
        l + u == a + c,
        l * u == a * c - b * b,
        b * s + c == l,
        b * t + c == u,
    ensures
        s * t == -1real,
{
    // (b s) (b t) == (l - c) (u - c) == -(b b)
    assert((l - c) * (u - c) == -(b * b)) by {
        lemma_distribute(l, c, u - c);
        lemma_distribute(u, c, l);
        lemma_distribute(u, c, c);
        lemma_distribute(l, u, c);
        lemma_distribute(a, c, c);
        lemma_commute(l, c);
        lemma_commute(a, c);
    }
    lemma_pair_up(b, s, b, t);
    assert(b * b != 0real) by (nonlinear_arith)
        requires
            b != 0real,
    ;
    lemma_commute(b * b, s * t);
    lemma_negate(1real, b * b);
    lemma_units(b * b);
    lemma_cancel(s * t, -1real, b * b);
}

/// The eigenvalues of a diagonal matrix are its entries.
proof fn lemma_diagonal(a: real, c: real, l: real, u: real)
    requires
        l <= u,
        l + u == a + c,
        l * u == a * c,
    ensures
        a <= c ==> l == a && u == c,
        a > c ==> l == c && u == a,
{
    // (l - a) (l - c) == 0
    assert((l - a) * (l - c) == 0real) by {
        lemma_distribute(l, a, l - c);
        lemma_distribute(l, c, l);
        lemma_distribute(l, c, a);
        lemma_distribute(l, u, l);
        lemma_distribute(a, c, l);
        lemma_commute(a, l);
        lemma_commute(c, l);
    }
    let (x, y) = (l - a, l - c);
    assert(x == 0real || y == 0real) by (nonlinear_arith)
        requires
            x * y == 0real,
    ;
}

} // verus!
