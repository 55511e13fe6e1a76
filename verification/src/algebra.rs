//! Identities of the real numbers that the laws of the filter rest on.

use vstd::prelude::*;

verus! {

/// Multiplication distributes over sums and differences.
pub proof fn lemma_distribute(a: real, b: real, c: real)
    ensures
        a * (b + c) == a * b + a * c,
        a * (b - c) == a * b - a * c,
{
    assert(a * (b + c) == a * b + a * c) by (nonlinear_arith);
    assert(a * (b - c) == a * b - a * c) by (nonlinear_arith);
}

/// Multiplication distributes over sums and differences on its left.
pub proof fn lemma_distribute_left(a: real, b: real, c: real)
    ensures
        (b + c) * a == b * a + c * a,
        (b - c) * a == b * a - c * a,
{
    assert((b + c) * a == b * a + c * a) by (nonlinear_arith);
    assert((b - c) * a == b * a - c * a) by (nonlinear_arith);
}

/// Multiplication is associative.
pub proof fn lemma_associate(a: real, b: real, c: real)
    ensures
        a * (b * c) == (a * b) * c,
{
    assert(a * (b * c) == (a * b) * c) by (nonlinear_arith);
}

/// One leaves what it is multiplied with unchanged.
pub proof fn lemma_unit(p: real, q: real)
    requires
        p == 1 as real,
    ensures
        p * q == q,
{
}

/// Zero swallows what it is multiplied with.
pub proof fn lemma_zero(p: real, q: real)
    requires
        q == 0 as real,
    ensures
        p * q == 0 as real,
{
}

/// Two doubles what it is multiplied with.
pub proof fn lemma_double(p: real, q: real)
    requires
        p == 2 as real,
    ensures
        p * q == q + q,
{
}

/// Multiplication is commutative.
pub proof fn lemma_commute(a: real, b: real)
    ensures
        a * b == b * a,
{
}

/// A quotient times its divisor is the dividend.
pub proof fn lemma_quotient(a: real, b: real)
    requires
        b != 0 as real,
    ensures
        (a / b) * b == a,
{
    assert((a / b) * b == a) by (nonlinear_arith)
        requires
            b != 0 as real,
    ;
}

/// A product is zero only where a factor is.
pub proof fn lemma_cancel(a: real, b: real)
    requires
        a * b == 0 as real,
        b != 0 as real,
    ensures
        a == 0 as real,
{
    let i = 1 as real / b;
    lemma_quotient(1 as real, b);
    assert(b * i == 1 as real);
    lemma_unit(b * i, a);
    lemma_commute(b * i, a);
    lemma_associate(a, b, i);
    assert((a * b) * i == 0 as real);
}

/// A product of factors that are not negative is not negative.
pub proof fn lemma_nonnegative_product(a: real, b: real)
    requires
        a >= 0 as real,
        b >= 0 as real,
    ensures
        a * b >= 0 as real,
{
    assert(a * b >= 0 as real) by (nonlinear_arith)
        requires
            a >= 0 as real,
            b >= 0 as real,
    ;
}

/// A product of positive factors is positive.
pub proof fn lemma_positive_product(a: real, b: real)
    requires
        a > 0 as real,
        b > 0 as real,
    ensures
        a * b > 0 as real,
{
    assert(a * b > 0 as real) by (nonlinear_arith)
        requires
            a > 0 as real,
            b > 0 as real,
    ;
}

/// A product with a positive factor grows with the other one.
pub proof fn lemma_increasing_product(a: real, b: real, c: real)
    requires
        a > 0 as real,
        b < c,
    ensures
        a * b < a * c,
{
    lemma_positive_product(a, c - b);
    lemma_distribute(a, c, b);
}

/// A product divided by a factor is the other factor.
pub proof fn lemma_divide_product(a: real, b: real)
    requires
        b != 0 as real,
    ensures
        a * b / b == a,
{
    let q = a * b / b;
    lemma_quotient(a * b, b);
    lemma_distribute(b, q, a);
    lemma_cancel(q - a, b);
}

/// A quotient by a positive number is positive where the dividend is.
pub proof fn lemma_positive_quotient(a: real, b: real)
    requires
        a > 0 as real,
        b > 0 as real,
    ensures
        a / b > 0 as real,
{
    let q = a / b;
    lemma_quotient(a, b);
    if q <= 0 as real {
        lemma_nonnegative_product(-q, b);
        lemma_distribute(b, 0 as real, q);
    }
}

/// A quotient by a positive number is not negative where the dividend is not.
pub proof fn lemma_nonnegative_quotient(a: real, b: real)
    requires
        a >= 0 as real,
        b > 0 as real,
    ensures
        a / b >= 0 as real,
{
    let q = a / b;
    lemma_quotient(a, b);
    if q < 0 as real {
        lemma_positive_product(-q, b);
        lemma_distribute(b, 0 as real, q);
    }
}

/// A quotient by a positive number grows with the dividend.
pub proof fn lemma_increasing_quotient(a: real, c: real, b: real)
    requires
        a < c,
        b > 0 as real,
    ensures
        a / b < c / b,
{
    let p = a / b;
    let q = c / b;
    lemma_quotient(a, b);
    lemma_quotient(c, b);
    if p >= q {
        lemma_nonnegative_product(b, p - q);
        lemma_distribute(b, p, q);
    }
}

/// A product lies within the product of the bounds of its factors.
pub proof fn lemma_product_within(a: real, b: real, bound_a: real, bound_b: real)
    requires
        -bound_a <= a,
        a <= bound_a,
        -bound_b <= b,
        b <= bound_b,
    ensures
        -(bound_a * bound_b) <= a * b,
        a * b <= bound_a * bound_b,
{
    lemma_nonnegative_product(bound_a - a, bound_b + b);
    lemma_nonnegative_product(bound_a + a, bound_b - b);
    lemma_nonnegative_product(bound_a - a, bound_b - b);
    lemma_nonnegative_product(bound_a + a, bound_b + b);
    lemma_distribute(bound_a - a, bound_b, b);
    lemma_distribute(bound_a + a, bound_b, b);
    lemma_distribute(bound_b, bound_a, a);
    lemma_distribute(b, bound_a, a);
}

/// What is within a bound after it was multiplied with a number whose size is `least` at the least
/// was within the bound divided by it.
pub proof fn lemma_factor_within(d: real, x: real, least: real, bound: real)
    requires
        d <= -least || d >= least,
        least > 0 as real,
        -(least * bound) <= d * x,
        d * x <= least * bound,
    ensures
        -bound <= x,
        x <= bound,
{
    let size = if d >= least {
        d
    } else {
        -d
    };
    lemma_negated_factor(x, d);
    if x > bound {
        lemma_increasing_product(least, bound, x);
        if bound >= 0 as real {
            lemma_nonnegative_product(size - least, x);
            lemma_distribute(x, size, least);
        } else {
            lemma_increasing_product(least, bound, 0 as real);
        }
    }
    if x < -bound {
        lemma_increasing_product(least, bound, -x);
        lemma_negated_factor(least, x);
        lemma_negated_factor(size, x);
        if bound >= 0 as real {
            lemma_nonnegative_product(size - least, -x);
            lemma_distribute(-x, size, least);
        } else {
            lemma_increasing_product(least, bound, 0 as real);
        }
    }
}

/// The solution of the linear loop.
pub proof fn lemma_linear_loop(g: real, k: real, s0: real, s1: real, x: real, v0: real, v1: real)
    requires
        1 as real + g * (g + k) != 0 as real,
        ({
            let g1 = 1 as real / (1 as real + g * (g + k));
            v0 == g1 * s0 + (g * g1) * (x - s1)
        }),
        v1 == s1 + g * v0,
    ensures
        v0 == s0 + g * (x - k * v0 - v1),
{
    let d = 1 as real + g * (g + k);
    let i = 1 as real / d;
    let y = x - s1;
    let n = s0 + g * y;
    lemma_quotient(1 as real, d);
    assert(v0 == i * n) by {
        lemma_distribute(i, s0, g * y);
        lemma_associate(i, g, y);
    }
    assert(v0 * d == n) by {
        lemma_associate(d, i, n);
        lemma_unit(d * i, n);
        lemma_commute(d, i * n);
    }
    assert(v0 * d == v0 + v0 * (g * g) + v0 * (g * k)) by {
        lemma_distribute(v0, 1 as real, g * (g + k));
        lemma_distribute(g, g, k);
        lemma_distribute(v0, g * g, g * k);
    }
    assert(g * (x - k * v0 - v1) == g * y - g * (k * v0) - g * (g * v0)) by {
        assert(x - k * v0 - v1 == y - (k * v0 + g * v0));
        lemma_distribute(g, y, k * v0 + g * v0);
        lemma_distribute(g, k * v0, g * v0);
    }
    lemma_associate(g, k, v0);
    lemma_associate(g, g, v0);
    lemma_commute(g * k, v0);
    lemma_commute(g * g, v0);
}

/// A state that moves evenly around an output changes its square by four times the output times
/// what the output lies above the state.
proof fn lemma_state_square(s: real, v: real, t: real)
    requires
        s + t == 2 as real * v,
    ensures
        t * t == s * s + 4 as real * (v * (v - s)),
{
    // The state before is `v - d`, the state after `v + d`.
    let d = v - s;
    assert(t == v + d && s == v - d);
    lemma_distribute(t, v, d);
    lemma_distribute(v, v, d);
    lemma_distribute(d, v, d);
    lemma_distribute(s, v, d);
    assert(t * t == v * v + v * d + v * d + d * d);
    assert(s * s == v * v - v * d - v * d + d * d);
}

/// What the linear loop without input does to the squares of its states.
pub proof fn lemma_energy(
    g: real,
    k: real,
    s0: real,
    s1: real,
    v0: real,
    v1: real,
    t0: real,
    t1: real,
)
    requires
        v0 == s0 + g * (0 as real - k * v0 - v1),
        v1 == s1 + g * v0,
        s0 + t0 == 2 as real * v0,
        s1 + t1 == 2 as real * v1,
    ensures
        t0 * t0 + t1 * t1 == s0 * s0 + s1 * s1 - 4 as real * (g * k * (v0 * v0)),
{
    lemma_state_square(s0, v0, t0);
    lemma_state_square(s1, v1, t1);
    let u = k * v0 + v1;
    lemma_distribute(g, 0 as real, u);
    assert(v0 - s0 == -(g * u));
    lemma_distribute(v0, 0 as real, g * u);
    assert(v0 * (v0 - s0) == -(v0 * (g * u)));
    lemma_distribute(g, k * v0, v1);
    lemma_distribute(v0, g * (k * v0), g * v1);
    // v0 * (g * (k * v0)) == g * k * (v0 * v0)
    lemma_associate(g, k, v0);
    lemma_commute(v0, (g * k) * v0);
    lemma_associate(g * k, v0, v0);
    // v1 * (g * v0) == v0 * (g * v1)
    lemma_associate(v1, g, v0);
    lemma_commute(v1, g);
    lemma_commute(v1 * g, v0);
}

/// A step of Newton's method solves the linear system that the Jacobian gives.
pub proof fn lemma_newton_step(
    j00: real,
    j01: real,
    j10: real,
    v0: real,
    v1: real,
    r0: real,
    r1: real,
    n0: real,
    n1: real,
)
    requires
        j01 * j10 + j00 != 0 as real,
        n0 == (j01 * j10 * v0 + j00 * v0 - j01 * r1 - r0) / (j01 * j10 + j00),
        n1 == (j01 * j10 * v1 + j00 * r1 + j00 * v1 - j10 * r0) / (j01 * j10 + j00),
    ensures
        j00 * (n0 - v0) + j01 * (n1 - v1) == -r0,
        j10 * (n0 - v0) - (n1 - v1) == -r1,
{
    let p = j01 * j10;
    let d = p + j00;
    let d0 = n0 - v0;
    let d1 = n1 - v1;
    lemma_quotient(j01 * j10 * v0 + j00 * v0 - j01 * r1 - r0, d);
    lemma_quotient(j01 * j10 * v1 + j00 * r1 + j00 * v1 - j10 * r0, d);
    assert(d * d0 == -(j01 * r1) - r0) by {
        lemma_distribute(d, n0, v0);
        lemma_distribute(v0, p, j00);
    }
    assert(d * d1 == j00 * r1 - j10 * r0) by {
        lemma_distribute(d, n1, v1);
        lemma_distribute(v1, p, j00);
    }
    let e0 = j00 * d0 + j01 * d1 + r0;
    assert(d * e0 == 0 as real) by {
        lemma_distribute(d, j00 * d0 + j01 * d1, r0);
        lemma_distribute(d, j00 * d0, j01 * d1);
        // d * (j00 * d0) == j00 * (d * d0)
        lemma_associate(d, j00, d0);
        lemma_associate(j00, d, d0);
        lemma_associate(d, j01, d1);
        lemma_associate(j01, d, d1);
        lemma_distribute(j00, -(j01 * r1), r0);
        assert(j00 * -(j01 * r1) == -(j00 * (j01 * r1))) by {
            lemma_distribute(j00, 0 as real, j01 * r1);
        }
        lemma_distribute(j01, j00 * r1, j10 * r0);
        lemma_distribute(r0, p, j00);
        // j00 * (j01 * r1) == j01 * (j00 * r1)
        lemma_associate(j00, j01, r1);
        lemma_associate(j01, j00, r1);
        lemma_associate(j01, j10, r0);
    }
    lemma_cancel(e0, d);
    let e1 = j10 * d0 - d1 + r1;
    assert(d * e1 == 0 as real) by {
        lemma_distribute(d, j10 * d0 - d1, r1);
        lemma_distribute(d, j10 * d0, d1);
        lemma_associate(d, j10, d0);
        lemma_associate(j10, d, d0);
        lemma_distribute(j10, -(j01 * r1), r0);
        assert(j10 * -(j01 * r1) == -(j10 * (j01 * r1))) by {
            lemma_distribute(j10, 0 as real, j01 * r1);
        }
        lemma_distribute(r1, p, j00);
        lemma_associate(j10, j01, r1);
        lemma_commute(j10, j01);
        lemma_commute(p, r1);
    }
    lemma_cancel(e1, d);
}

/// The entries of the Jacobian keep its determinant away from zero: slopes that are not negative
/// only add to the one in it.
pub proof fn lemma_determinant(g: real, k: real, d: real, fs: real, ts: real)
    requires
        g >= 0 as real,
        k >= 0 as real,
        d >= 1 as real,
        fs >= 0 as real,
        ts >= 0 as real,
    ensures
        ({
            let j00 = -(1 as real) - g * (k - 1 as real + d) * fs;
            let j01 = -(g * fs);
            let j10 = g * ts;
            &&& j00 <= -(1 as real)
            &&& j01 <= 0 as real
            &&& j10 >= 0 as real
            &&& j01 * j10 + j00 <= j00
        }),
{
    lemma_nonnegative_product(g, k - 1 as real + d);
    lemma_nonnegative_product(g * (k - 1 as real + d), fs);
    lemma_nonnegative_product(g, fs);
    lemma_nonnegative_product(g, ts);
    lemma_nonnegative_product(g * fs, g * ts);
    lemma_distribute(g * ts, 0 as real, g * fs);
}

/// The opposite of a dividend gives the opposite of the quotient.
pub proof fn lemma_negated_quotient(a: real, b: real)
    requires
        b != 0 as real,
    ensures
        (-a) / b == -(a / b),
{
    let p = a / b;
    let q = (-a) / b;
    lemma_quotient(a, b);
    lemma_quotient(-a, b);
    lemma_distribute(b, p, q);
    lemma_cancel(p + q, b);
}

/// The opposite of a factor gives the opposite of the product.
pub proof fn lemma_negated_factor(a: real, b: real)
    ensures
        a * (-b) == -(a * b),
        (-b) * a == -(b * a),
        (-a) * (-b) == a * b,
{
    assert(a * (-b) == -(a * b)) by (nonlinear_arith);
    assert((-b) * a == -(b * a)) by (nonlinear_arith);
    assert((-a) * (-b) == a * b) by (nonlinear_arith);
}

/// A square is not negative.
pub proof fn lemma_square(x: real)
    ensures
        x * x >= 0 as real,
{
    if x >= 0 as real {
        lemma_nonnegative_product(x, x);
    } else {
        lemma_nonnegative_product(-x, -x);
        lemma_negated_factor(x, x);
    }
}

/// A number within one of zero, but not at one, has a square below one.
pub proof fn lemma_square_below_one(x: real)
    requires
        -(1 as real) < x,
        x < 1 as real,
    ensures
        x * x >= 0 as real,
        1 as real - x * x > 0 as real,
{
    lemma_positive_product(1 as real - x, 1 as real + x);
    lemma_distribute(1 as real - x, 1 as real, x);
    lemma_distribute(x, 1 as real, x);
    lemma_square(x);
}

/// Multiplying with the inverse of a number and with the number itself changes nothing.
pub proof fn lemma_divide_out(q: real, e: real)
    requires
        e != 0 as real,
    ensures
        (q * (1 as real / e)) * e == q,
{
    let i = 1 as real / e;
    lemma_quotient(1 as real, e);
    lemma_associate(q, i, e);
    lemma_unit(i * e, q);
    lemma_commute(i * e, q);
}

/// The products of slopes in which the gain of the first integrator cancels.
pub proof fn lemma_pivot_products(g: real, a0: real, a1: real, a2: real, g1: real)
    requires
        (g * a0) * g1 == 1 as real,
    ensures
        a0 * a2 * g * g1 == a2,
        (g * g) * a0 * a1 * g1 == g * a1,
{
    let c = g * a0;
    let h = g * a1;
    assert(a0 * a2 * g * g1 == a2) by {
        // ((a0 * a2) * g) * g1 == (a2 * c) * g1
        lemma_commute(a0, a2);
        lemma_associate(a2, a0, g);
        lemma_commute(a0, g);
        lemma_associate(a2, c, g1);
        lemma_unit(c * g1, a2);
        lemma_commute(c * g1, a2);
    }
    assert((g * g) * a0 * a1 * g1 == h) by {
        // (g * g) * a0 == g * c == c * g
        lemma_associate(g, g, a0);
        lemma_commute(g, c);
        // ((c * g) * a1) * g1 == (c * h) * g1 == (h * c) * g1
        lemma_associate(c, g, a1);
        lemma_commute(c, h);
        lemma_associate(h, c, g1);
        lemma_unit(c * g1, h);
        lemma_commute(c * g1, h);
    }
}

/// The denominators of the solution are positive where the gain and the slopes are and the slope of
/// the damping is one at the most.
pub proof fn lemma_pivotal_denominators(
    g: real,
    k: real,
    a0: real,
    a1: real,
    a2: real,
    g1: real,
    e2: real,
    e3: real,
)
    requires
        g > 0 as real,
        k >= 0 as real,
        a0 > 0 as real,
        a1 > 0 as real,
        a2 > 0 as real,
        a2 <= 1 as real,
        g1 == 1 as real / (g * a0),
        e2 == a0 * a2 * g * g1 * k - a0 * a2 * g * g1 + a2 * g1 + 1 as real,
        e3 == 1 as real + (g * g) * a0 * a1 * g1 * (1 as real / e2) * a2,
    ensures
        g * a0 > 0 as real,
        g1 > 0 as real,
        e2 == a2 * k - a2 + a2 * g1 + 1 as real,
        e2 > 0 as real,
        e3 == 1 as real + (g * a1) * (1 as real / e2) * a2,
        e3 > 0 as real,
{
    lemma_positive_product(g, a0);
    lemma_quotient(1 as real, g * a0);
    lemma_positive_quotient(1 as real, g * a0);
    lemma_pivot_products(g, a0, a1, a2, g1);
    lemma_nonnegative_product(a2, k);
    lemma_positive_product(a2, g1);
    lemma_positive_quotient(1 as real, e2);
    lemma_positive_product(g, a1);
    lemma_positive_product(g * a1, 1 as real / e2);
    lemma_positive_product((g * a1) * (1 as real / e2), a2);
}

/// A line through the origin that meets, above a positive argument, a value between zero and the
/// argument has a slope between zero and one.
pub proof fn lemma_slope_between(a: real, e: real, t: real)
    requires
        e > 0 as real,
        t > 0 as real,
        t < e,
        a * e == t,
    ensures
        a > 0 as real,
        a < 1 as real,
{
    if a <= 0 as real {
        lemma_nonnegative_product(-a, e);
        lemma_distribute(e, 0 as real, a);
    }
    if a >= 1 as real {
        lemma_nonnegative_product(a - 1 as real, e);
        lemma_distribute(e, a, 1 as real);
    }
}

/// The solution of the loop whose saturators are lines of the slopes `a0`, `a1` and `a2`.
pub proof fn lemma_pivotal_loop(
    g: real,
    k: real,
    a0: real,
    a1: real,
    a2: real,
    s0: real,
    s1: real,
    x: real,
    g1: real,
    e2: real,
    g2: real,
    e3: real,
    g3: real,
    u: real,
)
    requires
        g * a0 != 0 as real,
        g1 == 1 as real / (g * a0),
        e2 == a0 * a2 * g * g1 * k - a0 * a2 * g * g1 + a2 * g1 + 1 as real,
        e2 != 0 as real,
        g2 == 1 as real / e2,
        e3 == 1 as real + (g * g) * a0 * a1 * g1 * g2 * a2,
        e3 != 0 as real,
        g3 == 1 as real / e3,
        u == (g * a0 * x - g * a0 * s1 + s0) * g1 * g2 * g3,
    ensures
        a2 * u == s0 + g * a0 * (x - ((k - 1 as real) * (a2 * u) + u) - (s1 + g * a1 * (a2 * u))),
{
    let c = g * a0;
    let h = g * a1;
    let n = c * x - c * s1 + s0;
    lemma_quotient(1 as real, c);
    assert(c * g1 == 1 as real);
    lemma_pivot_products(g, a0, a1, a2, g1);
    let m = (k - 1 as real) * a2 + 1 as real + h * a2;
    assert(e2 == a2 * k - a2 + a2 * g1 + 1 as real);
    assert(e3 == 1 as real + h * g2 * a2);
    assert(e2 * e3 == m + a2 * g1) by {
        lemma_quotient(1 as real, e2);
        lemma_distribute(e2, 1 as real, h * g2 * a2);
        // e2 * ((h * g2) * a2) == (e2 * (h * g2)) * a2 == h * a2
        lemma_associate(e2, h * g2, a2);
        lemma_associate(h, g2, e2);
        lemma_commute(e2, h * g2);
        lemma_unit(g2 * e2, h);
        lemma_commute(g2 * e2, h);
        lemma_distribute(a2, k, 1 as real);
        lemma_commute(a2, k - 1 as real);
    }
    assert(c * (e2 * e3) == c * m + a2) by {
        lemma_distribute(c, m, a2 * g1);
        lemma_commute(a2, g1);
        lemma_associate(c, g1, a2);
        lemma_unit(c * g1, a2);
    }
    let q1 = n * g1;
    let q2 = q1 * g2;
    assert(u == q2 * g3);
    assert(u * e3 == q2) by {
        lemma_divide_out(q2, e3);
    }
    assert((u * e3) * e2 == q1) by {
        lemma_divide_out(q1, e2);
    }
    assert(((u * e3) * e2) * c == n) by {
        lemma_divide_out(n, c);
    }
    assert(u * (c * (e2 * e3)) == n) by {
        // ((u * e3) * e2) * c == (u * (e3 * e2)) * c == u * ((e3 * e2) * c)
        lemma_associate(u, e3, e2);
        lemma_associate(u, e3 * e2, c);
        lemma_commute(e3, e2);
        lemma_commute(e2 * e3, c);
    }
    assert(u * (c * m) + u * a2 == n) by {
        lemma_distribute(u, c * m, a2);
    }
    let y = (k - 1 as real) * (a2 * u) + u + h * (a2 * u);
    assert(y == m * u) by {
        lemma_commute(m, u);
        lemma_distribute(u, (k - 1 as real) * a2 + 1 as real, h * a2);
        lemma_distribute(u, (k - 1 as real) * a2, 1 as real);
        lemma_associate(k - 1 as real, a2, u);
        lemma_associate(h, a2, u);
        lemma_commute((k - 1 as real) * a2, u);
        lemma_commute(h * a2, u);
    }
    assert(c * y == u * (c * m)) by {
        lemma_associate(c, m, u);
        lemma_commute(c * m, u);
    }
    assert(c * (x - ((k - 1 as real) * (a2 * u) + u) - (s1 + h * (a2 * u))) == c * x - c * s1 - c
        * y) by {
        assert(x - ((k - 1 as real) * (a2 * u) + u) - (s1 + h * (a2 * u)) == (x - s1) - y);
        lemma_distribute(c, x - s1, y);
        lemma_distribute(c, x, s1);
    }
    lemma_commute(a2, u);
}

/// Dividing by the inverse of a number is multiplying with the number.
pub proof fn lemma_inverse_divisor(a: real, w: real)
    requires
        w != 0 as real,
    ensures
        1 as real / w != 0 as real,
        a / (1 as real / w) == a * w,
{
    let i = 1 as real / w;
    lemma_quotient(1 as real, w);
    let q = a / i;
    lemma_quotient(a, i);
    lemma_associate(q, i, w);
    lemma_unit(i * w, q);
    lemma_commute(i * w, q);
}

/// Where nothing is left to correct, a step of Newton's method goes nowhere.
pub proof fn lemma_no_correction(j00: real, j01: real, j10: real, d0: real, d1: real)
    requires
        j01 * j10 + j00 != 0 as real,
        j00 * d0 + j01 * d1 == 0 as real,
        j10 * d0 - d1 == 0 as real,
    ensures
        d0 == 0 as real,
        d1 == 0 as real,
{
    let d = j01 * j10 + j00;
    lemma_associate(j01, j10, d0);
    lemma_distribute(d0, j01 * j10, j00);
    lemma_cancel(d0, d);
}

} // verus!
