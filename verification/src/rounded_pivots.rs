//! The fixed-pivot filter on small signals, in an arithmetic that rounds: there, too, it does what
//! the linear filter does.

use crate::algebra;
use crate::arithmetic::Arithmetic;
use crate::equations;
use crate::filter::SVF;
use crate::pivotal;
use crate::reading;
use crate::rounding;
use crate::small_signals;
use crate::term;
use crate::term::{Function, Reading, Term};
use vstd::prelude::*;

verus! {

/// So many four-millionths: the unit in which rounding is measured.
#[verifier::inline]
spec fn units(n: int) -> real {
    n as real / 4000000 as real
}

/// Whether `x` is off the positive number `y` by the share `e` of it at the most.
#[verifier::opaque]
spec fn off_by_share(x: real, y: real, e: real) -> bool {
    y > 0 as real && reading::within(x - y, e * y)
}

/// What a number that is off by a small share is itself bounded by.
proof fn lemma_share_bounds(x: real, y: real, e: real, low: real, high: real)
    requires
        off_by_share(x, y, e),
        e >= 0 as real,
        e <= 1 as real / 1000 as real,
        low >= 0 as real,
        low <= y,
        y <= high,
    ensures
        x >= low * (999 as real / 1000 as real),
        x <= high * (1001 as real / 1000 as real),
        x > 0 as real,
        reading::within(x - y, high * e),
{
    reveal(off_by_share);
    algebra::lemma_nonnegative_product(1 as real / 1000 as real - e, y);
    algebra::lemma_distribute_left(y, 1 as real / 1000 as real, e);
    algebra::lemma_nonnegative_product(high - y, e);
    algebra::lemma_distribute_left(e, high, y);
    algebra::lemma_commute(e, y);
}

/// Rounding is off by a share of two units, where nothing is near underflow.
proof fn lemma_share_rounded(x: real, y: real, tiny: real)
    requires
        rounding::rounded(x, y, tiny),
        rounding::is_negligible(tiny),
        y >= rounding::billionths(1),
    ensures
        off_by_share(x, y, units(2)),
{
    reveal(rounding::rounded);
    reveal(off_by_share);
}

/// Shares add up along a chain.
proof fn lemma_share_chain(x: real, y: real, z: real, e1: real, e2: real, e: real)
    requires
        off_by_share(x, y, e1),
        off_by_share(y, z, e2),
        e1 >= 0 as real,
        e2 >= 0 as real,
        e1 + e2 + e1 * e2 <= e,
    ensures
        off_by_share(x, z, e),
{
    reveal(off_by_share);
    // e1 * y <= e1 * (1 + e2) * z
    algebra::lemma_nonnegative_product(e1, z + e2 * z - y);
    algebra::lemma_distribute(e1, z + e2 * z, y);
    algebra::lemma_distribute(e1, z, e2 * z);
    algebra::lemma_associate(e1, e2, z);
    algebra::lemma_nonnegative_product(e - (e1 + e2 + e1 * e2), z);
    algebra::lemma_distribute_left(z, e, e1 + e2 + e1 * e2);
    algebra::lemma_distribute_left(z, e1 + e2, e1 * e2);
    algebra::lemma_distribute_left(z, e1, e2);
}

/// Shares add up in a product.
proof fn lemma_share_product(x1: real, y1: real, x2: real, y2: real, e1: real, e2: real, e: real)
    requires
        off_by_share(x1, y1, e1),
        off_by_share(x2, y2, e2),
        e1 >= 0 as real,
        e2 >= 0 as real,
        e1 + e2 + e1 * e2 <= e,
    ensures
        off_by_share(x1 * x2, y1 * y2, e),
{
    reveal(off_by_share);
    let d1 = x1 - y1;
    let d2 = x2 - y2;
    let y = y1 * y2;
    algebra::lemma_positive_product(y1, y2);
    // x1 * x2 == y + y1 * d2 + d1 * y2 + d1 * d2
    assert(x1 * x2 == y + y1 * d2 + d1 * y2 + d1 * d2) by {
        algebra::lemma_distribute(x1, y2, d2);
        algebra::lemma_distribute_left(y2, y1, d1);
        algebra::lemma_distribute_left(d2, y1, d1);
        assert(x1 == y1 + d1 && x2 == y2 + d2);
    }
    assert(reading::within(y1 * d2, e2 * y)) by {
        algebra::lemma_product_within(y1, d2, y1, e2 * y2);
        lemma_middle(y1, e2, y2);
    }
    assert(reading::within(d1 * y2, e1 * y)) by {
        algebra::lemma_product_within(d1, y2, e1 * y1, y2);
        algebra::lemma_associate(e1, y1, y2);
    }
    assert(reading::within(d1 * d2, (e1 * e2) * y)) by {
        algebra::lemma_product_within(d1, d2, e1 * y1, e2 * y2);
        // (e1 * y1) * (e2 * y2) == (e1 * e2) * (y1 * y2)
        algebra::lemma_associate(e1, y1, e2 * y2);
        lemma_middle(y1, e2, y2);
        algebra::lemma_associate(e1, e2, y);
    }
    algebra::lemma_nonnegative_product(e - (e1 + e2 + e1 * e2), y);
    algebra::lemma_distribute_left(y, e, e1 + e2 + e1 * e2);
    algebra::lemma_distribute_left(y, e1 + e2, e1 * e2);
    algebra::lemma_distribute_left(y, e1, e2);
}

proof fn lemma_middle(a: real, b: real, c: real)
    ensures
        a * (b * c) == b * (a * c),
{
    algebra::lemma_associate(a, b, c);
    algebra::lemma_associate(b, a, c);
    algebra::lemma_commute(a, b);
}

/// The inverse of a number that is off by a small share is off by twice that share at the most.
proof fn lemma_share_inverse(x: real, y: real, e: real)
    requires
        off_by_share(x, y, e),
        e >= 0 as real,
        e <= 1 as real / 1000 as real,
    ensures
        x > 0 as real,
        off_by_share(1 as real / x, 1 as real / y, 2 as real * e),
{
    reveal(off_by_share);
    let p = 1 as real / x;
    let q = 1 as real / y;
    assert(x >= y / 2 as real) by {
        algebra::lemma_nonnegative_product(1 as real / 1000 as real - e, y);
        algebra::lemma_distribute_left(y, 1 as real / 1000 as real, e);
    }
    algebra::lemma_quotient(1 as real, x);
    algebra::lemma_quotient(1 as real, y);
    algebra::lemma_positive_quotient(1 as real, x);
    algebra::lemma_positive_quotient(1 as real, y);
    // x * (p - q) == q * (y - x), of size e * y * q == e at the most
    assert(x * (p - q) == q * (y - x)) by {
        algebra::lemma_distribute(x, p, q);
        algebra::lemma_distribute(q, y, x);
        algebra::lemma_commute(q, x);
    }
    assert(reading::within(q * (y - x), e)) by {
        algebra::lemma_product_within(q, y - x, q, e * y);
        lemma_middle(q, e, y);
    }
    let z = e * q;
    let r = z + z;
    algebra::lemma_nonnegative_product(e, q);
    assert(x * r >= e) by {
        // (y / 2) * r == y * z == e
        algebra::lemma_nonnegative_product(x - y / 2 as real, r);
        algebra::lemma_distribute_left(r, x, y / 2 as real);
        assert((y / 2 as real) * r == y * z) by {
            lemma_halves(y, z);
        }
        lemma_middle(y, e, q);
        algebra::lemma_commute(y, q);
        algebra::lemma_unit(y * q, e);
        algebra::lemma_commute(y * q, e);
    }
    if p - q > r {
        algebra::lemma_increasing_product(x, r, p - q);
    }
    if q - p > r {
        algebra::lemma_increasing_product(x, r, q - p);
        algebra::lemma_distribute(x, q, p);
        algebra::lemma_distribute(x, p, q);
    }
    algebra::lemma_distribute_left(q, e, e);
    assert((2 as real * e) * q == r);
}

proof fn lemma_halves(y: real, z: real)
    ensures
        (y / 2 as real) * (z + z) == y * z,
{
    let h = y / 2 as real;
    algebra::lemma_distribute(h, z, z);
    algebra::lemma_distribute_left(z, h, h);
    assert(h + h == y);
}

/// A positive number is off itself by nothing.
proof fn lemma_share_self(x: real)
    requires
        x > 0 as real,
    ensures
        off_by_share(x, x, 0 as real),
{
    reveal(off_by_share);
}

/// A product of numbers that are off by small shares, rounded.
proof fn lemma_share_rounded_product(
    z: real,
    x1: real,
    y1: real,
    x2: real,
    y2: real,
    e1: real,
    e2: real,
    e: real,
    tiny: real,
)
    requires
        rounding::rounded(z, x1 * x2, tiny),
        rounding::is_negligible(tiny),
        off_by_share(x1, y1, e1),
        off_by_share(x2, y2, e2),
        e1 >= 0 as real,
        e2 >= 0 as real,
        e1 <= units(1000),
        e2 <= units(1000),
        e1 + e2 + e1 * e2 + units(3) <= e,
        y1 * y2 >= rounding::billionths(2),
    ensures
        off_by_share(z, y1 * y2, e),
{
    let ep = e1 + e2 + e1 * e2;
    algebra::lemma_product_within(e1, e2, units(1000), units(1000));
    algebra::lemma_nonnegative_product(e1, e2);
    lemma_share_product(x1, y1, x2, y2, e1, e2, ep);
    lemma_share_bounds(x1 * x2, y1 * y2, ep, rounding::billionths(2), y1 * y2);
    lemma_share_rounded(z, x1 * x2, tiny);
    algebra::lemma_product_within(units(2), ep, units(2), units(2001));
    lemma_share_chain(z, x1 * x2, y1 * y2, units(2), ep, e);
}

/// An inverse of a number that is off by a small share, rounded.
proof fn lemma_share_rounded_inverse(z: real, x: real, y: real, e: real, tiny: real)
    requires
        off_by_share(x, y, e),
        x > 0 as real ==> rounding::rounded(z, 1 as real / x, tiny),
        rounding::is_negligible(tiny),
        e >= 0 as real,
        e <= units(500),
        1 as real / y >= rounding::billionths(2),
    ensures
        off_by_share(z, 1 as real / y, 2 as real * e + units(3)),
{
    lemma_share_inverse(x, y, e);
    let p = 1 as real / x;
    let q = 1 as real / y;
    lemma_share_bounds(p, q, 2 as real * e, rounding::billionths(2), q);
    lemma_share_rounded(z, p, tiny);
    algebra::lemma_product_within(units(2), 2 as real * e, units(2), units(1000));
    lemma_share_chain(z, p, q, units(2), 2 as real * e, 2 as real * e + units(3));
}

/// The ranges of the gain, the damping and the slopes on small signals.
spec fn is_pivot_range(
    g: real,
    k: real,
    a0: real,
    a1: real,
    a2: real,
    tiny: real,
) -> bool {
    &&& g >= 1 as real / 10000 as real
    &&& g <= 1 as real
    &&& k >= 0 as real
    &&& k <= 2 as real
    &&& a0 >= 999 as real / 1000 as real
    &&& a0 <= 1001 as real / 1000 as real
    &&& a1 >= 999 as real / 1000 as real
    &&& a1 <= 1001 as real / 1000 as real
    &&& a2 >= 999 as real / 1000 as real
    &&& a2 <= 1001 as real / 1000 as real
    &&& rounding::is_negligible(tiny)
}

/// The bounds of a product of positive numbers.
proof fn lemma_product_between(
    a: real,
    b: real,
    low_a: real,
    high_a: real,
    low_b: real,
    high_b: real,
)
    requires
        low_a >= 0 as real,
        low_b >= 0 as real,
        low_a <= a,
        a <= high_a,
        low_b <= b,
        b <= high_b,
    ensures
        low_a * low_b <= a * b,
        a * b <= high_a * high_b,
{
    algebra::lemma_nonnegative_product(a - low_a, b);
    algebra::lemma_distribute_left(b, a, low_a);
    algebra::lemma_nonnegative_product(low_a, b - low_b);
    algebra::lemma_distribute(low_a, b, low_b);
    algebra::lemma_nonnegative_product(high_a - a, b);
    algebra::lemma_distribute_left(b, high_a, a);
    algebra::lemma_nonnegative_product(high_a, high_b - b);
    algebra::lemma_distribute(high_a, high_b, b);
}

/// The inverse of a number between positive bounds.
proof fn lemma_inverse_between(
    x: real,
    low: real,
    high: real,
    inverse_low: real,
    inverse_high: real,
)
    requires
        low > 0 as real,
        low <= x,
        x <= high,
        inverse_low >= 0 as real,
        inverse_low * high <= 1 as real,
        inverse_high * low >= 1 as real,
        inverse_high >= 0 as real,
    ensures
        inverse_low <= 1 as real / x,
        1 as real / x <= inverse_high,
        (1 as real / x) * x == 1 as real,
{
    let q = 1 as real / x;
    algebra::lemma_quotient(1 as real, x);
    algebra::lemma_nonnegative_product(inverse_low, high - x);
    algebra::lemma_distribute(inverse_low, high, x);
    algebra::lemma_nonnegative_product(inverse_high, x - low);
    algebra::lemma_distribute(inverse_high, x, low);
    if q < inverse_low {
        algebra::lemma_increasing_product(x, q, inverse_low);
        algebra::lemma_commute(x, q);
        algebra::lemma_commute(x, inverse_low);
    }
    if q > inverse_high {
        algebra::lemma_increasing_product(x, inverse_high, q);
        algebra::lemma_commute(x, q);
        algebra::lemma_commute(x, inverse_high);
    }
}

/// The inverse of the first integrator's gain.
spec fn g1_term<N>(g: N, a0: N) -> Term<N> {
    term::num(1).over(term::val(g).times(term::val(a0)))
}

proof fn lemma_rounded_g1<A: Arithmetic>(
    g: A::Num,
    a0: A::Num,
    v: A::Num,
    m: Reading<A::Num>,
    tiny: real,
)
    requires
        rounding::rounds::<A>(m, tiny),
        is_pivot_range((m.number)(g), 1 as real, (m.number)(a0), 1 as real, 1 as real, tiny),
        term::yields::<A>(g1_term(g, a0), v),
    ensures
        ({
            let c = (m.number)(g) * (m.number)(a0);
            let g1 = 1 as real / c;
            &&& c >= 999 as real / 10000000 as real
            &&& c <= 1001 as real / 1000 as real
            &&& g1 >= 99 as real / 100 as real
            &&& g1 <= 10011 as real
            &&& c * g1 == 1 as real
            &&& off_by_share((m.number)(v), g1, units(7))
            &&& (m.number)(v) > 0 as real
            &&& (m.number)(v) <= 10100 as real
        }),
{
    let (one, c1) = term::lemma_quotient::<A>(
        term::num(1),
        term::val(g).times(term::val(a0)),
        v,
    );
    let (gc, ac) = term::lemma_product::<A>(term::val(g), term::val(a0), c1);
    let gr = (m.number)(g);
    let a = (m.number)(a0);
    let c = gr * a;
    lemma_product_between(
        gr,
        a,
        1 as real / 10000 as real,
        1 as real,
        999 as real / 1000 as real,
        1001 as real / 1000 as real,
    );
    lemma_inverse_between(
        c,
        999 as real / 10000000 as real,
        1001 as real / 1000 as real,
        99 as real / 100 as real,
        10011 as real,
    );
    algebra::lemma_commute(c, 1 as real / c);
    let c1r = (m.number)(c1);
    lemma_share_rounded(c1r, c, tiny);
    lemma_share_bounds(
        c1r,
        c,
        units(2),
        999 as real / 10000000 as real,
        1001 as real / 1000 as real,
    );
    lemma_inverse_between(
        c1r,
        998 as real / 10000000 as real,
        1003 as real / 1000 as real,
        99 as real / 100 as real,
        10021 as real,
    );
    lemma_share_rounded_inverse((m.number)(v), c1r, c, units(2), tiny);
    lemma_share_bounds(
        (m.number)(v),
        1 as real / c,
        units(7),
        99 as real / 100 as real,
        10011 as real,
    );
}

/// The slope of the damping, as the product in which the gain of the first integrator cancels.
spec fn q_term<N>(g: N, a0: N, a2: N) -> Term<N> {
    term::val(a0).times(term::val(a2)).times(term::val(g)).times(g1_term(g, a0))
}

proof fn lemma_rounded_q<A: Arithmetic>(
    g: A::Num,
    a0: A::Num,
    a2: A::Num,
    v: A::Num,
    m: Reading<A::Num>,
    tiny: real,
)
    requires
        rounding::rounds::<A>(m, tiny),
        is_pivot_range(
            (m.number)(g),
            1 as real,
            (m.number)(a0),
            1 as real,
            (m.number)(a2),
            tiny,
        ),
        term::yields::<A>(q_term(g, a0, a2), v),
    ensures
        off_by_share((m.number)(v), (m.number)(a2), units(18)),
        reading::within((m.number)(v) - (m.number)(a2), units(19)),
{
    let a0t = term::val(a0);
    let a2t = term::val(a2);
    let gt = term::val(g);
    let g1t = g1_term(g, a0);
    let (p2, h) = term::lemma_product::<A>(a0t.times(a2t).times(gt), g1t, v);
    let (p1, gc) = term::lemma_product::<A>(a0t.times(a2t), gt, p2);
    let (ac, bc) = term::lemma_product::<A>(a0t, a2t, p1);
    lemma_rounded_g1::<A>(g, a0, h, m, tiny);
    let gr = (m.number)(g);
    let x = (m.number)(a0);
    let y = (m.number)(a2);
    let g1 = 1 as real / (gr * x);
    let low = 999 as real / 1000 as real;
    let high = 1001 as real / 1000 as real;
    lemma_product_between(x, y, low, high, low, high);
    lemma_share_self(x);
    lemma_share_self(y);
    lemma_share_self(gr);
    lemma_share_rounded_product(
        (m.number)(p1),
        x,
        x,
        y,
        y,
        0 as real,
        0 as real,
        units(3),
        tiny,
    );
    lemma_share_bounds((m.number)(p1), x * y, units(3), 0 as real, 101 as real / 100 as real);
    lemma_product_between(
        x * y,
        gr,
        99 as real / 100 as real,
        101 as real / 100 as real,
        1 as real / 10000 as real,
        1 as real,
    );
    lemma_share_rounded_product(
        (m.number)(p2),
        (m.number)(p1),
        x * y,
        gr,
        gr,
        units(3),
        0 as real,
        units(6),
        tiny,
    );
    lemma_share_bounds((m.number)(p2), x * y * gr, units(6), 0 as real, 101 as real / 100 as real);
    algebra::lemma_pivot_products(gr, x, 1 as real, y, g1);
    lemma_share_rounded_product(
        (m.number)(v),
        (m.number)(p2),
        x * y * gr,
        (m.number)(h),
        g1,
        units(6),
        units(7),
        units(18),
        tiny,
    );
    lemma_share_bounds((m.number)(v), y, units(18), 0 as real, high);
}

/// The denominator that the damping leaves.
spec fn e2_term<N>(g: N, k: N, a0: N, a2: N) -> Term<N> {
    q_term(g, a0, a2).times(term::val(k)).minus(q_term(g, a0, a2)).plus(
        term::val(a2).times(g1_term(g, a0)),
    ).plus(term::num(1))
}

spec fn e2_value(g: real, k: real, a0: real, a2: real) -> real {
    a2 * k - a2 + a2 * (1 as real / (g * a0)) + 1 as real
}

proof fn lemma_rounded_e2<A: Arithmetic>(
    g: A::Num,
    k: A::Num,
    a0: A::Num,
    a2: A::Num,
    v: A::Num,
    m: Reading<A::Num>,
    tiny: real,
)
    requires
        rounding::rounds::<A>(m, tiny),
        is_pivot_range(
            (m.number)(g),
            (m.number)(k),
            (m.number)(a0),
            1 as real,
            (m.number)(a2),
            tiny,
        ),
        term::yields::<A>(e2_term(g, k, a0, a2), v),
    ensures
        ({
            let e2 = e2_value((m.number)(g), (m.number)(k), (m.number)(a0), (m.number)(a2));
            &&& e2 >= 98 as real / 100 as real
            &&& e2 <= 10030 as real
            &&& off_by_share((m.number)(v), e2, units(110))
        }),
{
    let kt = term::val(k);
    let a2t = term::val(a2);
    let g1t = g1_term(g, a0);
    let qt = q_term(g, a0, a2);
    let (d, one) = term::lemma_sum::<A>(
        qt.times(kt).minus(qt).plus(a2t.times(g1t)),
        term::num(1),
        v,
    );
    let (b, c) = term::lemma_sum::<A>(qt.times(kt).minus(qt), a2t.times(g1t), d);
    let (a, q2) = term::lemma_difference::<A>(qt.times(kt), qt, b);
    let (q1, kc) = term::lemma_product::<A>(qt, kt, a);
    let (ac, h) = term::lemma_product::<A>(a2t, g1t, c);
    lemma_rounded_q::<A>(g, a0, a2, q1, m, tiny);
    lemma_rounded_q::<A>(g, a0, a2, q2, m, tiny);
    lemma_rounded_g1::<A>(g, a0, h, m, tiny);
    let y = (m.number)(a2);
    let g1 = 1 as real / ((m.number)(g) * (m.number)(a0));
    lemma_share_self(y);
    lemma_product_between(
        y,
        g1,
        999 as real / 1000 as real,
        1001 as real / 1000 as real,
        99 as real / 100 as real,
        10011 as real,
    );
    lemma_share_rounded_product(
        (m.number)(c),
        y,
        y,
        (m.number)(h),
        g1,
        0 as real,
        units(7),
        units(11),
        tiny,
    );
    lemma_share_bounds((m.number)(c), y * g1, units(11), 98 as real / 100 as real, y * g1);
    lemma_e2_errors(
        (m.number)(k),
        y,
        y * g1,
        (m.number)(q1),
        (m.number)(q2),
        (m.number)(a),
        (m.number)(b),
        (m.number)(c),
        (m.number)(d),
        (m.number)(v),
        tiny,
    );
}

proof fn lemma_e2_errors(
    k: real,
    a2: real,
    z: real,
    q1: real,
    q2: real,
    a: real,
    b: real,
    c: real,
    d: real,
    v: real,
    tiny: real,
)
    requires
        k >= 0 as real,
        k <= 2 as real,
        a2 >= 999 as real / 1000 as real,
        a2 <= 1001 as real / 1000 as real,
        z >= 989 as real / 1000 as real,
        z <= 10022 as real,
        rounding::is_negligible(tiny),
        reading::within(q1 - a2, units(19)),
        reading::within(q2 - a2, units(19)),
        reading::within(c - z, z * units(11)),
        rounding::fits_real(q1) ==> rounding::rounded(a, q1 * k, tiny),
        rounding::fits_real(a) && rounding::fits_real(q2) ==> rounding::rounded(b, a - q2, tiny),
        rounding::fits_real(b) && rounding::fits_real(c) ==> rounding::rounded(d, b + c, tiny),
        rounding::fits_real(d) ==> rounding::rounded(v, d + 1 as real, tiny),
    ensures
        ({
            let e2 = a2 * k - a2 + z + 1 as real;
            &&& e2 >= 98 as real / 100 as real
            &&& e2 <= 10030 as real
            &&& off_by_share(v, e2, units(110))
        }),
{
    let ak = a2 * k;
    assert(ak >= 0 as real && ak <= 2002 as real / 1000 as real) by {
        algebra::lemma_nonnegative_product(a2, k);
        algebra::lemma_product_within(a2, k, 1001 as real / 1000 as real, 2 as real);
    }
    assert(reading::within(q1 * k - ak, units(38))) by {
        algebra::lemma_distribute_left(k, q1, a2);
        algebra::lemma_product_within(q1 - a2, k, units(19), 2 as real);
    }
    assert(reading::within(a - ak, units(41))) by {
        rounding::lemma_off(a, q1 * k, tiny, 21 as real / 10 as real, units(3));
    }
    assert(reading::within(b - (ak - a2), units(64))) by {
        rounding::lemma_off(b, a - q2, tiny, 31 as real / 10 as real, units(4));
    }
    let e2 = ak - a2 + z + 1 as real;
    // Rounding the two last sums costs two units of the denominator, and a little.
    assert(reading::within(b + c, e2 + 1 as real));
    rounding::lemma_off(
        d,
        b + c,
        tiny,
        e2 + 1 as real,
        (e2 + 1 as real) / 4000000 as real + tiny,
    );
    assert(reading::within(d + 1 as real, e2 + 1 as real));
    rounding::lemma_off(
        v,
        d + 1 as real,
        tiny,
        e2 + 1 as real,
        (e2 + 1 as real) / 4000000 as real + tiny,
    );
    reveal(off_by_share);
}

spec fn g2_term<N>(g: N, k: N, a0: N, a2: N) -> Term<N> {
    term::num(1).over(e2_term(g, k, a0, a2))
}

proof fn lemma_rounded_g2<A: Arithmetic>(
    g: A::Num,
    k: A::Num,
    a0: A::Num,
    a2: A::Num,
    v: A::Num,
    m: Reading<A::Num>,
    tiny: real,
)
    requires
        rounding::rounds::<A>(m, tiny),
        is_pivot_range(
            (m.number)(g),
            (m.number)(k),
            (m.number)(a0),
            1 as real,
            (m.number)(a2),
            tiny,
        ),
        term::yields::<A>(g2_term(g, k, a0, a2), v),
    ensures
        ({
            let e2 = e2_value((m.number)(g), (m.number)(k), (m.number)(a0), (m.number)(a2));
            let g2 = 1 as real / e2;
            &&& e2 >= 98 as real / 100 as real
            &&& e2 <= 10030 as real
            &&& g2 >= 99 as real / 1000000 as real
            &&& g2 <= 103 as real / 100 as real
            &&& g2 * e2 == 1 as real
            &&& off_by_share((m.number)(v), g2, units(223))
            &&& (m.number)(v) > 0 as real
            &&& (m.number)(v) <= 104 as real / 100 as real
        }),
{
    let (one, e) = term::lemma_quotient::<A>(term::num(1), e2_term(g, k, a0, a2), v);
    lemma_rounded_e2::<A>(g, k, a0, a2, e, m, tiny);
    let e2 = e2_value((m.number)(g), (m.number)(k), (m.number)(a0), (m.number)(a2));
    let er = (m.number)(e);
    lemma_share_bounds(er, e2, units(110), 98 as real / 100 as real, 10030 as real);
    lemma_inverse_between(
        e2,
        98 as real / 100 as real,
        10030 as real,
        99 as real / 1000000 as real,
        103 as real / 100 as real,
    );
    lemma_inverse_between(
        er,
        97 as real / 100 as real,
        10050 as real,
        99 as real / 1000000 as real,
        104 as real / 100 as real,
    );
    lemma_share_rounded_inverse((m.number)(v), er, e2, units(110), tiny);
    lemma_share_bounds(
        (m.number)(v),
        1 as real / e2,
        units(223),
        99 as real / 1000000 as real,
        103 as real / 100 as real,
    );
}

/// The denominator that the low-pass stage leaves.
spec fn e3_term<N>(g: N, k: N, a0: N, a1: N, a2: N) -> Term<N> {
    term::num(1).plus(
        term::val(g).squared().times(term::val(a0)).times(term::val(a1)).times(
            g1_term(g, a0),
        ).times(g2_term(g, k, a0, a2)).times(term::val(a2)),
    )
}

spec fn e3_value(g: real, k: real, a0: real, a1: real, a2: real) -> real {
    1 as real + (g * a1) * (1 as real / e2_value(g, k, a0, a2)) * a2
}

proof fn lemma_rounded_e3<A: Arithmetic>(
    g: A::Num,
    k: A::Num,
    a0: A::Num,
    a1: A::Num,
    a2: A::Num,
    v: A::Num,
    m: Reading<A::Num>,
    tiny: real,
)
    requires
        rounding::rounds::<A>(m, tiny),
        is_pivot_range(
            (m.number)(g),
            (m.number)(k),
            (m.number)(a0),
            (m.number)(a1),
            (m.number)(a2),
            tiny,
        ),
        term::yields::<A>(e3_term(g, k, a0, a1, a2), v),
    ensures
        ({
            let e3 = e3_value(
                (m.number)(g),
                (m.number)(k),
                (m.number)(a0),
                (m.number)(a1),
                (m.number)(a2),
            );
            &&& e3 >= 1 as real
            &&& e3 <= 21 as real / 10 as real
            &&& off_by_share((m.number)(v), e3, units(290))
        }),
{
    let gt = term::val(g);
    let a0t = term::val(a0);
    let a1t = term::val(a1);
    let a2t = term::val(a2);
    let g1t = g1_term(g, a0);
    let g2t = g2_term(g, k, a0, a2);
    let sq = gt.squared();
    let t1 = sq.times(a0t);
    let t2 = t1.times(a1t);
    let t3 = t2.times(g1t);
    let t4 = t3.times(g2t);
    let (one, x5) = term::lemma_sum::<A>(term::num(1), t4.times(a2t), v);
    let (x4, c2) = term::lemma_product::<A>(t4, a2t, x5);
    let (x3, h2) = term::lemma_product::<A>(t3, g2t, x4);
    let (x2, h1) = term::lemma_product::<A>(t2, g1t, x3);
    let (x1, c1) = term::lemma_product::<A>(t1, a1t, x2);
    let (x0, c0) = term::lemma_product::<A>(sq, a0t, x1);
    let gc = choose|x: A::Num|
        term::yields::<A>(gt, x) && #[trigger] call_ensures(A::squared, (x,), x0);
    lemma_rounded_g1::<A>(g, a0, h1, m, tiny);
    lemma_rounded_g2::<A>(g, k, a0, a2, h2, m, tiny);
    let gr = (m.number)(g);
    let b0 = (m.number)(a0);
    let b1 = (m.number)(a1);
    let b2 = (m.number)(a2);
    let g1 = 1 as real / (gr * b0);
    let g2 = 1 as real / e2_value(gr, (m.number)(k), b0, b2);
    let low = 999 as real / 1000 as real;
    let high = 1001 as real / 1000 as real;
    // The square of the gain, times the slopes.
    let y0 = gr * gr;
    lemma_product_between(
        gr,
        gr,
        1 as real / 10000 as real,
        1 as real,
        1 as real / 10000 as real,
        1 as real,
    );
    lemma_share_rounded((m.number)(x0), y0, tiny);
    lemma_share_bounds((m.number)(x0), y0, units(2), 0 as real, 1 as real);
    lemma_share_self(b0);
    lemma_share_self(b1);
    lemma_share_self(b2);
    let y1 = y0 * b0;
    lemma_product_between(y0, b0, 1 as real / 100000000 as real, 1 as real, low, high);
    lemma_share_rounded_product(
        (m.number)(x1),
        (m.number)(x0),
        y0,
        b0,
        b0,
        units(2),
        0 as real,
        units(5),
        tiny,
    );
    lemma_share_bounds((m.number)(x1), y1, units(5), 0 as real, high);
    let y2 = y1 * b1;
    lemma_product_between(y1, b1, 9 as real / 1000000000 as real, high, low, high);
    lemma_share_rounded_product(
        (m.number)(x2),
        (m.number)(x1),
        y1,
        b1,
        b1,
        units(5),
        0 as real,
        units(8),
        tiny,
    );
    lemma_share_bounds((m.number)(x2), y2, units(8), 0 as real, 101 as real / 100 as real);
    // The gain of the second integrator is left.
    let y3 = gr * b1;
    algebra::lemma_pivot_products(gr, b0, b1, b2, g1);
    assert(y2 * g1 == y3);
    lemma_product_between(gr, b1, 1 as real / 10000 as real, 1 as real, low, high);
    lemma_share_rounded_product(
        (m.number)(x3),
        (m.number)(x2),
        y2,
        (m.number)(h1),
        g1,
        units(8),
        units(7),
        units(20),
        tiny,
    );
    lemma_share_bounds((m.number)(x3), y3, units(20), 0 as real, high);
    let y4 = y3 * g2;
    lemma_product_between(
        y3,
        g2,
        99 as real / 1000000 as real,
        high,
        99 as real / 1000000 as real,
        103 as real / 100 as real,
    );
    lemma_share_rounded_product(
        (m.number)(x4),
        (m.number)(x3),
        y3,
        (m.number)(h2),
        g2,
        units(20),
        units(223),
        units(250),
        tiny,
    );
    lemma_share_bounds((m.number)(x4), y4, units(250), 0 as real, 104 as real / 100 as real);
    let y5 = y4 * b2;
    lemma_product_between(
        y4,
        b2,
        9 as real / 1000000000 as real,
        104 as real / 100 as real,
        low,
        high,
    );
    lemma_share_rounded_product(
        (m.number)(x5),
        (m.number)(x4),
        y4,
        b2,
        b2,
        units(250),
        0 as real,
        units(254),
        tiny,
    );
    lemma_share_bounds((m.number)(x5), y5, units(254), 0 as real, 105 as real / 100 as real);
    rounding::lemma_off(
        (m.number)(v),
        1 as real + (m.number)(x5),
        tiny,
        21 as real / 10 as real,
        units(3),
    );
    assert(off_by_share((m.number)(v), 1 as real + y5, units(290))) by {
        reveal(off_by_share);
    }
}

spec fn g3_term<N>(g: N, k: N, a0: N, a1: N, a2: N) -> Term<N> {
    term::num(1).over(e3_term(g, k, a0, a1, a2))
}

proof fn lemma_rounded_g3<A: Arithmetic>(
    g: A::Num,
    k: A::Num,
    a0: A::Num,
    a1: A::Num,
    a2: A::Num,
    v: A::Num,
    m: Reading<A::Num>,
    tiny: real,
)
    requires
        rounding::rounds::<A>(m, tiny),
        is_pivot_range(
            (m.number)(g),
            (m.number)(k),
            (m.number)(a0),
            (m.number)(a1),
            (m.number)(a2),
            tiny,
        ),
        term::yields::<A>(g3_term(g, k, a0, a1, a2), v),
    ensures
        ({
            let e3 = e3_value(
                (m.number)(g),
                (m.number)(k),
                (m.number)(a0),
                (m.number)(a1),
                (m.number)(a2),
            );
            let g3 = 1 as real / e3;
            &&& e3 >= 1 as real
            &&& e3 <= 21 as real / 10 as real
            &&& g3 >= 47 as real / 100 as real
            &&& g3 <= 1 as real
            &&& g3 * e3 == 1 as real
            &&& off_by_share((m.number)(v), g3, units(583))
            &&& (m.number)(v) > 0 as real
            &&& (m.number)(v) <= 101 as real / 100 as real
        }),
{
    let (one, e) = term::lemma_quotient::<A>(term::num(1), e3_term(g, k, a0, a1, a2), v);
    lemma_rounded_e3::<A>(g, k, a0, a1, a2, e, m, tiny);
    let e3 = e3_value(
        (m.number)(g),
        (m.number)(k),
        (m.number)(a0),
        (m.number)(a1),
        (m.number)(a2),
    );
    let er = (m.number)(e);
    lemma_share_bounds(er, e3, units(290), 1 as real, 21 as real / 10 as real);
    lemma_inverse_between(
        e3,
        1 as real,
        21 as real / 10 as real,
        47 as real / 100 as real,
        1 as real,
    );
    lemma_inverse_between(
        er,
        99 as real / 100 as real,
        22 as real / 10 as real,
        45 as real / 100 as real,
        102 as real / 100 as real,
    );
    lemma_share_rounded_inverse((m.number)(v), er, e3, units(290), tiny);
    lemma_share_bounds(
        (m.number)(v),
        1 as real / e3,
        units(583),
        47 as real / 100 as real,
        1 as real,
    );
}

/// What is handed to the integrators, before it is scaled.
spec fn n_term<N>(g: N, a0: N, s0: N, s1: N, x: N) -> Term<N> {
    let c = term::val(g).times(term::val(a0));
    c.times(term::val(x)).minus(c.times(term::val(s1))).plus(term::val(s0))
}

proof fn lemma_rounded_n<A: Arithmetic>(
    g: A::Num,
    a0: A::Num,
    s0: A::Num,
    s1: A::Num,
    x: A::Num,
    v: A::Num,
    m: Reading<A::Num>,
    tiny: real,
)
    requires
        rounding::rounds::<A>(m, tiny),
        is_pivot_range(
            (m.number)(g),
            1 as real,
            (m.number)(a0),
            1 as real,
            1 as real,
            tiny,
        ),
        reading::within((m.number)(s0), 1 as real / 100 as real),
        reading::within((m.number)(s1), 1 as real / 100 as real),
        reading::within((m.number)(x), 1 as real / 100 as real),
        term::yields::<A>(n_term(g, a0, s0, s1, x), v),
    ensures
        ({
            let c = (m.number)(g) * (m.number)(a0);
            let n = c * (m.number)(x) - c * (m.number)(s1) + (m.number)(s0);
            &&& reading::within((m.number)(v) - n, rounding::billionths(30))
            &&& reading::within((m.number)(v), 31 as real / 1000 as real)
        }),
{
    let ct = term::val(g).times(term::val(a0));
    let xt = term::val(x);
    let s0t = term::val(s0);
    let s1t = term::val(s1);
    let (d, s0c) = term::lemma_sum::<A>(ct.times(xt).minus(ct.times(s1t)), s0t, v);
    let (p, q) = term::lemma_difference::<A>(ct.times(xt), ct.times(s1t), d);
    let (c1, xc) = term::lemma_product::<A>(ct, xt, p);
    let (c2, s1c) = term::lemma_product::<A>(ct, s1t, q);
    let (g1, a01) = term::lemma_product::<A>(term::val(g), term::val(a0), c1);
    let (g2, a02) = term::lemma_product::<A>(term::val(g), term::val(a0), c2);
    let c = (m.number)(g) * (m.number)(a0);
    lemma_product_between(
        (m.number)(g),
        (m.number)(a0),
        1 as real / 10000 as real,
        1 as real,
        999 as real / 1000 as real,
        1001 as real / 1000 as real,
    );
    let high = 1001 as real / 1000 as real;
    rounding::lemma_off((m.number)(c1), c, tiny, high, rounding::billionths(251));
    rounding::lemma_off((m.number)(c2), c, tiny, high, rounding::billionths(251));
    lemma_rounded_input((m.number)(p), (m.number)(c1), c, (m.number)(x), tiny);
    lemma_rounded_input((m.number)(q), (m.number)(c2), c, (m.number)(s1), tiny);
    rounding::lemma_off(
        (m.number)(d),
        (m.number)(p) - (m.number)(q),
        tiny,
        21 as real / 1000 as real,
        rounding::billionths(6),
    );
    rounding::lemma_off(
        (m.number)(v),
        (m.number)(d) + (m.number)(s0),
        tiny,
        31 as real / 1000 as real,
        rounding::billionths(8),
    );
}

proof fn lemma_rounded_input(p: real, cr: real, c: real, x: real, tiny: real)
    requires
        reading::within(x, 1 as real / 100 as real),
        reading::within(c, 1001 as real / 1000 as real),
        reading::within(cr - c, rounding::billionths(251)),
        rounding::rounded(p, cr * x, tiny),
        rounding::is_negligible(tiny),
    ensures
        reading::within(p - c * x, rounding::billionths(6)),
        reading::within(c * x, 1001 as real / 100000 as real),
{
    algebra::lemma_product_within(c, x, 1001 as real / 1000 as real, 1 as real / 100 as real);
    algebra::lemma_product_within(cr - c, x, rounding::billionths(251), 1 as real / 100 as real);
    algebra::lemma_distribute_left(x, cr, c);
    rounding::lemma_off(p, cr * x, tiny, 1002 as real / 100000 as real, rounding::billionths(3));
}

/// The first scaling.
proof fn lemma_first_scaling(n: real, g1: real, h1: real, p1: real, tiny: real)
    requires
        reading::within(n, 31 as real / 1000 as real),
        g1 >= 99 as real / 100 as real,
        off_by_share(h1, g1, units(7)),
        rounding::rounded(p1, n * h1, tiny),
        rounding::is_negligible(tiny),
    ensures
        reading::within(n * g1, 31 as real / 1000 as real * g1),
        reading::within(p1 - n * g1, 3 as real / 40000000 as real * g1),
{
    let c = 31 as real / 1000 as real;
    algebra::lemma_product_within(n, g1, c, g1);
    assert(reading::within(n * h1 - n * g1, c * (units(7) * g1))) by {
        reveal(off_by_share);
        algebra::lemma_distribute(n, h1, g1);
        algebra::lemma_product_within(n, h1 - g1, c, units(7) * g1);
    }
    reveal(rounding::rounded);
}

proof fn lemma_scaled_bounds(a: real, x: real, b: real, y: real)
    ensures
        (a * x) * (b * y) == (a * b) * (x * y),
{
    algebra::lemma_associate(a, x, b * y);
    lemma_middle(x, b, y);
    algebra::lemma_associate(a, b, x * y);
}

/// The second scaling.
proof fn lemma_second_scaling(
    q: real,
    g1: real,
    g2: real,
    p1: real,
    h2: real,
    p2: real,
    tiny: real,
)
    requires
        g1 > 0 as real,
        g2 > 0 as real,
        g1 * g2 >= 0 as real,
        g1 * g2 <= 102 as real / 100 as real,
        reading::within(q, 31 as real / 1000 as real * g1),
        reading::within(p1 - q, 3 as real / 40000000 as real * g1),
        off_by_share(h2, g2, units(223)),
        rounding::rounded(p2, p1 * h2, tiny),
        rounding::is_negligible(tiny),
    ensures
        reading::within(q * g2, 32 as real / 1000 as real),
        reading::within(p2 - q * g2, units(8)),
{
    let z = g1 * g2;
    let c = 31 as real / 1000 as real;
    let e = 3 as real / 40000000 as real;
    let high = 1001 as real / 1000 as real;
    lemma_share_bounds(h2, g2, units(223), 0 as real, g2);
    assert(reading::within(q * g2, c * z)) by {
        reveal(off_by_share);
        algebra::lemma_product_within(q, g2, c * g1, g2);
        algebra::lemma_associate(c, g1, g2);
    }
    assert(reading::within((p1 - q) * h2, (e * high) * z)) by {
        algebra::lemma_product_within(p1 - q, h2, e * g1, high * g2);
        lemma_scaled_bounds(e, g1, high, g2);
    }
    assert(reading::within(q * (h2 - g2), (c * units(223)) * z)) by {
        reveal(off_by_share);
        algebra::lemma_product_within(q, h2 - g2, c * g1, units(223) * g2);
        lemma_scaled_bounds(c, g1, units(223), g2);
    }
    assert(p1 * h2 - q * g2 == (p1 - q) * h2 + q * (h2 - g2)) by {
        algebra::lemma_distribute_left(h2, p1, q);
        algebra::lemma_distribute(q, h2, g2);
    }
    rounding::lemma_off(
        p2,
        p1 * h2,
        tiny,
        33 as real / 1000 as real,
        1 as real / 40000000 as real,
    );
}

/// The third scaling.
proof fn lemma_third_scaling(q: real, g3: real, p2: real, h3: real, p3: real, tiny: real)
    requires
        g3 > 0 as real,
        g3 <= 1 as real,
        reading::within(q, 32 as real / 1000 as real),
        reading::within(p2 - q, units(8)),
        off_by_share(h3, g3, units(583)),
        rounding::rounded(p3, p2 * h3, tiny),
        rounding::is_negligible(tiny),
    ensures
        reading::within(p3 - q * g3, units(28)),
{
    let c = 32 as real / 1000 as real;
    lemma_share_bounds(h3, g3, units(583), 0 as real, 1 as real);
    algebra::lemma_product_within(p2 - q, h3, units(8), 1001 as real / 1000 as real);
    algebra::lemma_product_within(q, h3 - g3, c, units(583));
    algebra::lemma_product_within(q, g3, c, 1 as real);
    assert(p2 * h3 - q * g3 == (p2 - q) * h3 + q * (h3 - g3)) by {
        algebra::lemma_distribute_left(h3, p2, q);
        algebra::lemma_distribute(q, h3, g3);
    }
    rounding::lemma_off(p3, p2 * h3, tiny, 33 as real / 1000 as real, units(1));
}

/// What the first two scales come to together.
proof fn lemma_scales(k: real, a2: real, g1: real, g2: real)
    requires
        k >= 0 as real,
        a2 >= 999 as real / 1000 as real,
        a2 <= 1001 as real / 1000 as real,
        g1 >= 99 as real / 100 as real,
        g2 > 0 as real,
        g2 * (a2 * k - a2 + a2 * g1 + 1 as real) == 1 as real,
    ensures
        g1 * g2 >= 0 as real,
        g1 * g2 <= 102 as real / 100 as real,
{
    let low = 985 as real / 1000 as real;
    let e2 = a2 * k - a2 + a2 * g1 + 1 as real;
    algebra::lemma_nonnegative_product(a2, k);
    algebra::lemma_nonnegative_product(a2 - 999 as real / 1000 as real, g1);
    algebra::lemma_distribute_left(g1, a2, 999 as real / 1000 as real);
    algebra::lemma_nonnegative_product(g1, g2);
    // low * g1 <= e2, and g2 * e2 == 1
    algebra::lemma_nonnegative_product(g2, e2 - low * g1);
    algebra::lemma_distribute(g2, e2, low * g1);
    lemma_middle(g2, low, g1);
    algebra::lemma_commute(g1, g2);
    let z = g1 * g2;
    assert(low * z <= 1 as real);
    algebra::lemma_factor_within(low, z, low, 102 as real / 100 as real);
}

/// The damping signal as it is computed is near one that solves the loop whose saturators are
/// lines.
proof fn lemma_rounded_drive<A: Arithmetic>(
    g: A::Num,
    k: A::Num,
    a0: A::Num,
    a1: A::Num,
    a2: A::Num,
    s0: A::Num,
    s1: A::Num,
    x: A::Num,
    v: A::Num,
    m: Reading<A::Num>,
    tiny: real,
) -> (u: real)
    requires
        rounding::rounds::<A>(m, tiny),
        is_pivot_range(
            (m.number)(g),
            (m.number)(k),
            (m.number)(a0),
            (m.number)(a1),
            (m.number)(a2),
            tiny,
        ),
        reading::within((m.number)(s0), 1 as real / 100 as real),
        reading::within((m.number)(s1), 1 as real / 100 as real),
        reading::within((m.number)(x), 1 as real / 100 as real),
        term::yields::<A>(
            equations::pivotal_drive(
                term::val(g),
                term::val(k),
                term::val(a0),
                term::val(a1),
                term::val(a2),
                term::val(s0),
                term::val(s1),
                term::val(x),
            ),
            v,
        ),
    ensures
        reading::within((m.number)(v) - u, units(29)),
        ({
            let gr = (m.number)(g);
            let d = (m.number)(a2) * u;
            d == (m.number)(s0) + gr * (m.number)(a0) * ((m.number)(x) - (((m.number)(k)
                - 1 as real) * d + u) - ((m.number)(s1) + gr * (m.number)(a1) * d))
        }),
{
    let nt = n_term(g, a0, s0, s1, x);
    let g1t = g1_term(g, a0);
    let g2t = g2_term(g, k, a0, a2);
    let g3t = g3_term(g, k, a0, a1, a2);
    let (p2, h3) = term::lemma_product::<A>(nt.times(g1t).times(g2t), g3t, v);
    let (p1, h2) = term::lemma_product::<A>(nt.times(g1t), g2t, p2);
    let (n, h1) = term::lemma_product::<A>(nt, g1t, p1);
    lemma_rounded_n::<A>(g, a0, s0, s1, x, n, m, tiny);
    lemma_rounded_g1::<A>(g, a0, h1, m, tiny);
    lemma_rounded_g2::<A>(g, k, a0, a2, h2, m, tiny);
    lemma_rounded_g3::<A>(g, k, a0, a1, a2, h3, m, tiny);
    let (gr, kr) = ((m.number)(g), (m.number)(k));
    let (b0, b1, b2) = ((m.number)(a0), (m.number)(a1), (m.number)(a2));
    let c = gr * b0;
    let g1 = 1 as real / c;
    let e2 = e2_value(gr, kr, b0, b2);
    let g2 = 1 as real / e2;
    let e3 = e3_value(gr, kr, b0, b1, b2);
    let g3 = 1 as real / e3;
    let nr = (m.number)(n);
    lemma_scales(kr, b2, g1, g2);
    lemma_first_scaling(nr, g1, (m.number)(h1), (m.number)(p1), tiny);
    algebra::lemma_product_within(
        nr,
        (m.number)(h1),
        31 as real / 1000 as real,
        10100 as real,
    );
    assert(rounding::fits(p1, m)) by {
        assert(g1 <= 10011 as real);
    }
    let q1 = nr * g1;
    lemma_second_scaling(q1, g1, g2, (m.number)(p1), (m.number)(h2), (m.number)(p2), tiny);
    let q2 = q1 * g2;
    lemma_third_scaling(q2, g3, (m.number)(p2), (m.number)(h3), (m.number)(v), tiny);
    let exact = c * (m.number)(x) - c * (m.number)(s1) + (m.number)(s0);
    let u = exact * g1 * g2 * g3;
    assert(reading::within(q2 * g3 - u, units(1))) by {
        let d = nr - exact;
        algebra::lemma_distribute_left(g1, nr, exact);
        algebra::lemma_distribute_left(g2, nr * g1, exact * g1);
        algebra::lemma_distribute_left(g3, nr * g1 * g2, exact * g1 * g2);
        assert(q2 * g3 - u == (d * g1) * g2 * g3);
        algebra::lemma_associate(d, g1, g2);
        algebra::lemma_product_within(
            d,
            g1 * g2,
            rounding::billionths(30),
            102 as real / 100 as real,
        );
        algebra::lemma_product_within((d * g1) * g2, g3, rounding::billionths(31), 1 as real);
    }
    assert(c * g1 == 1 as real) by {
        algebra::lemma_commute(c, g1);
    }
    algebra::lemma_pivot_products(gr, b0, b1, b2, g1);
    algebra::lemma_pivotal_loop(
        gr,
        kr,
        b0,
        b1,
        b2,
        (m.number)(s0),
        (m.number)(s1),
        (m.number)(x),
        g1,
        e2,
        g2,
        e3,
        g3,
        u,
    );
    u
}

/// The bounds of a quotient that lies between shares of its divisor.
proof fn lemma_ratio_between(t: real, e: real, low: real, high: real)
    requires
        e != 0 as real,
        e > 0 as real ==> low * e <= t && t <= high * e,
        e < 0 as real ==> high * e <= t && t <= low * e,
    ensures
        low <= t / e,
        t / e <= high,
{
    let r = t / e;
    algebra::lemma_quotient(t, e);
    let size = rounding::size(e);
    algebra::lemma_negated_factor(r, e);
    algebra::lemma_negated_factor(low, e);
    algebra::lemma_negated_factor(high, e);
    if r < low {
        algebra::lemma_increasing_product(size, r, low);
        algebra::lemma_commute(size, r);
        algebra::lemma_commute(size, low);
    }
    if r > high {
        algebra::lemma_increasing_product(size, high, r);
        algebra::lemma_commute(size, r);
        algebra::lemma_commute(size, high);
    }
}

/// The cube of a small number is a small share of it.
proof fn lemma_cube_share(x: real, c: real)
    requires
        x >= 0 as real,
        x <= c,
    ensures
        x * x * x <= (c * c) * x,
{
    algebra::lemma_product_within(x, x, c, c);
    algebra::lemma_nonnegative_product(c * c - x * x, x);
    algebra::lemma_distribute_left(x, c * c, x * x);
}

/// The slope of the line that stands for a saturator, as it is computed.
proof fn lemma_rounded_saturator_slope<A: Arithmetic>(
    e: A::Num,
    a: A::Num,
    c: real,
    m: Reading<A::Num>,
    tiny: real,
)
    requires
        rounding::rounds::<A>(m, tiny),
        rounding::is_negligible(tiny),
        reading::is_hyperbolic(m),
        reading::bends_gently(m),
        pivotal::pivots::<A>(e, equations::saturator_slope(term::val(e)), a),
        c >= 0 as real,
        c <= 1 as real / 10 as real,
        reading::within((m.number)(e), c),
    ensures
        (m.number)(a) >= 1 as real - (c * c) / 3 as real - rounding::billionths(502),
        (m.number)(a) <= 1 as real + units(3),
{
    let x = (m.number)(e);
    algebra::lemma_product_within(c, c, 1 as real / 10 as real, 1 as real / 10 as real);
    algebra::lemma_nonnegative_product(c, c);
    assert(x == 0 as real || term::yields::<A>(equations::saturator_slope(term::val(e)), a));
    if x != 0 as real {
        let (tn, ec) = term::lemma_quotient::<A>(term::val(e).tanh(), term::val(e), a);
        let ec2 = term::lemma_image::<A>(Function::Tanh, term::val(e), tn);
        let image = (m.image)(Function::Tanh, x);
        let size = rounding::size(x);
        let t = (m.number)(tn);
        lemma_cube_share(size, c);
        assert((m.image)(Function::Tanh, -x) == -image);
        let b = (m.image)(Function::Tanh, size);
        assert(b >= size - size * size * size / 3 as real && b <= size && b >= 0 as real);
        let low = 1 as real - (c * c) / 3 as real - units(1);
        let high = 4000001 as real / 4000000 as real;
        assert(rounding::rounded(t, image, 0 as real));
        assert(reading::within(t - image, size / 4000000 as real)) by {
            reveal(rounding::rounded);
        }
        assert(low * size == size - (c * c) * size / 3 as real - size / 4000000 as real) by {
            lemma_share_of(c * c, size);
        }
        algebra::lemma_negated_factor(low, x);
        assert(high * x == x + x / 4000000 as real);
        assert(x > 0 as real ==> low * x == low * size);
        lemma_ratio_between(t, x, low, high);
        rounding::lemma_off(
            (m.number)(a),
            t / x,
            tiny,
            high,
            units(1) + rounding::billionths(1),
        );
    }
}

proof fn lemma_share_of(d: real, size: real)
    ensures
        (1 as real - d / 3 as real - units(1)) * size == size - d * size / 3 as real - size
            / 4000000 as real,
{
    let h = d / 3 as real;
    algebra::lemma_distribute_left(size, 1 as real - h, units(1));
    algebra::lemma_distribute_left(size, 1 as real, h);
    assert(d == h + h + h);
    algebra::lemma_distribute_left(size, h + h, h);
    algebra::lemma_distribute_left(size, h, h);
}

/// Whether a number is zero, or so large that what underflows is a small share of it.
pub open spec fn is_normal(x: real, tiny: real) -> bool {
    x == 0 as real || tiny <= rounding::size(x) / 4000000 as real
}

/// The slope of the line that stands for the inverse of the diode anti-saturator, as it is
/// computed.
proof fn lemma_rounded_clipper_slope<A: Arithmetic>(
    e: A::Num,
    a: A::Num,
    m: Reading<A::Num>,
    tiny: real,
)
    requires
        rounding::rounds::<A>(m, tiny),
        rounding::is_negligible(tiny),
        reading::is_hyperbolic(m),
        reading::bends_gently(m),
        pivotal::pivots::<A>(e, equations::clipper_slope(term::val(e)), a),
        reading::within((m.number)(e), 1 as real / 100 as real),
        is_normal((m.number)(e), tiny),
    ensures
        (m.number)(a) >= 1 as real - small_signals::millionths(4),
        (m.number)(a) <= 1 as real + small_signals::millionths(4),
{
    let x = (m.number)(e);
    assert(x == 0 as real || term::yields::<A>(equations::clipper_slope(term::val(e)), a));
    if x != 0 as real {
        let et = term::val(e);
        let four = term::num(4);
        let quarter = et.over(four);
        let (zn, ec) = term::lemma_quotient::<A>(four.times(quarter.asinh()), et, a);
        let (fn1, wn) = term::lemma_product::<A>(four, quarter.asinh(), zn);
        let yn = term::lemma_image::<A>(Function::Asinh, quarter, wn);
        let (ec2, fn2) = term::lemma_quotient::<A>(et, four, yn);
        let (y, w, z) = ((m.number)(yn), (m.number)(wn), (m.number)(zn));
        let size = rounding::size(x);
        assert((m.number)(fn1) == 4 as real && (m.number)(fn2) == 4 as real);
        assert(rounding::rounded(y, x / 4 as real, tiny));
        assert(reading::within(y - x / 4 as real, 125 as real / 400000000 as real * size)) by {
            reveal(rounding::rounded);
        }
        let image = (m.image)(Function::Asinh, y);
        lemma_small_asinh(y, m);
        let ysize = rounding::size(y);
        assert(rounding::rounded(w, image, 0 as real));
        assert(reading::within(w - image, ysize / 4000000 as real)) by {
            reveal(rounding::rounded);
        }
        assert(rounding::rounded(z, 4 as real * w, tiny));
        assert(reading::within(z - 4 as real * w, size * (21 as real / 40000000 as real))) by {
            reveal(rounding::rounded);
        }
        let low = 999996700 as real / 1000000000 as real;
        let high = 1000003300 as real / 1000000000 as real;
        lemma_ratio_between(z, x, low, high);
        rounding::lemma_off(
            (m.number)(a),
            z / x,
            tiny,
            1001 as real / 1000 as real,
            rounding::billionths(260),
        );
    }
}

/// How far the inverse hyperbolic sine of a very small number lies off it.
proof fn lemma_small_asinh<N>(y: real, m: Reading<N>)
    requires
        reading::is_hyperbolic(m),
        reading::bends_gently(m),
        reading::within(y, 26 as real / 10000 as real),
    ensures
        reading::within(
            (m.image)(Function::Asinh, y) - y,
            rounding::size(y) * (12 as real / 10000000 as real),
        ),
        rounding::size((m.image)(Function::Asinh, y)) <= rounding::size(y),
{
    let size = rounding::size(y);
    let image = (m.image)(Function::Asinh, y);
    lemma_cube_share(size, 26 as real / 10000 as real);
    assert((m.image)(Function::Asinh, -y) == -image);
    let b = (m.image)(Function::Asinh, size);
    assert(b >= size - size * size * size / 6 as real);
    assert(size > 0 as real ==> b > 0 as real && b < size);
    assert(size == 0 as real ==> b == 0 as real) by {
        if size == 0 as real {
            assert(-y == y);
        }
    }
}

/// What the first integrator is expected to be handed is small.
proof fn lemma_rounded_estimate<A: Arithmetic>(
    x: A::Num,
    k: A::Num,
    s0: A::Num,
    a2: A::Num,
    s1: A::Num,
    v: A::Num,
    m: Reading<A::Num>,
    tiny: real,
)
    requires
        rounding::rounds::<A>(m, tiny),
        rounding::is_negligible(tiny),
        (m.number)(k) >= 0 as real,
        (m.number)(k) <= 2 as real,
        (m.number)(a2) >= 999 as real / 1000 as real,
        (m.number)(a2) <= 1 as real + small_signals::millionths(4),
        reading::within((m.number)(s0), 1 as real / 100 as real),
        reading::within((m.number)(s1), 1 as real / 100 as real),
        reading::within((m.number)(x), 1 as real / 100 as real),
        term::yields::<A>(
            equations::pivot_estimate(
                term::val(x),
                term::val(k),
                term::val(s0),
                term::val(a2),
                term::val(s1),
            ),
            v,
        ),
    ensures
        reading::within((m.number)(v), 401 as real / 10000 as real),
{
    let xt = term::val(x);
    let kt = term::val(k);
    let et = term::val(s0);
    let a2t = term::val(a2);
    let s1t = term::val(s1);
    let one = term::num(1);
    let damping = et.times(a2t).plus(kt.minus(one).times(et));
    let (d, s1c) = term::lemma_difference::<A>(xt.minus(damping), s1t, v);
    let (xc, b) = term::lemma_difference::<A>(xt, damping, d);
    let (p, q) = term::lemma_sum::<A>(et.times(a2t), kt.minus(one).times(et), b);
    let (ec, ac) = term::lemma_product::<A>(et, a2t, p);
    let (h, ec2) = term::lemma_product::<A>(kt.minus(one), et, q);
    let (kc, onec) = term::lemma_difference::<A>(kt, one, h);
    let (sr, ar, kr, hr) = ((m.number)(s0), (m.number)(a2), (m.number)(k), (m.number)(h));
    let cent = 1 as real / 100 as real;
    assert((m.number)(onec) == 1 as real);
    rounding::lemma_off(hr, kr - 1 as real, tiny, 1 as real, rounding::billionths(251));
    let high = 100001 as real / 100000 as real;
    algebra::lemma_product_within(sr, ar, cent, high);
    rounding::lemma_off((m.number)(p), sr * ar, tiny, cent * high, rounding::billionths(3));
    algebra::lemma_product_within(hr, sr, high, cent);
    rounding::lemma_off((m.number)(q), hr * sr, tiny, high * cent, rounding::billionths(3));
    rounding::lemma_off(
        (m.number)(b),
        (m.number)(p) + (m.number)(q),
        tiny,
        3 as real * cent,
        rounding::billionths(8),
    );
    rounding::lemma_off(
        (m.number)(d),
        (m.number)(x) - (m.number)(b),
        tiny,
        4 as real * cent,
        rounding::billionths(11),
    );
    rounding::lemma_off(
        (m.number)(v),
        (m.number)(d) - (m.number)(s1),
        tiny,
        5 as real * cent,
        rounding::billionths(13),
    );
}

/// On small signals the fixed-pivot filter does what the linear filter does, up to a
/// ten-thousandth, though its arithmetic rounds. The gain is a ten-thousandth at the least: the
/// method divides by it. So it does by the first state, which is zero or large enough that its
/// quarter does not underflow.
pub proof fn law_fixed_pivot_filter_is_linear_though_rounded<A: Arithmetic>(
    pre: SVF<A>,
    input: A::Num,
    post: SVF<A>,
    linear: SVF<A>,
    m: Reading<A::Num>,
    tiny: real,
)
    requires
        rounding::rounds::<A>(m, tiny),
        rounding::is_negligible(tiny),
        reading::is_hyperbolic(m),
        reading::bends_gently(m),
        small_signals::is_small::<A>(pre, input, m),
        (m.number)(pre.params.g) >= 1 as real / 10000 as real,
        is_normal((m.number)(pre.s[0]), tiny),
        SVF::<A>::pivotal_pass(pre, input, post),
        SVF::<A>::linear_pass(pre, input, linear),
    ensures
        reading::within(
            (m.number)(post.vout[0]) - (m.number)(linear.vout[0]),
            1 as real / 10000 as real,
        ),
        reading::within(
            (m.number)(post.vout[1]) - (m.number)(linear.vout[1]),
            1 as real / 10000 as real,
        ),
{
    let g = (m.number)(pre.params.g);
    let k = (m.number)(pre.params.res);
    let s0 = (m.number)(pre.s[0]);
    let s1 = (m.number)(pre.s[1]);
    let x = (m.number)(input);
    let (e0, a0, a1, a2) = choose|e0: A::Num, a0: A::Num, a1: A::Num, a2: A::Num| #[trigger]
        SVF::<A>::pivotal_solution(pre, input, e0, a0, a1, a2, post);
    lemma_rounded_clipper_slope::<A>(pre.s[0], a2, m, tiny);
    lemma_rounded_estimate::<A>(
        input,
        pre.params.res,
        pre.s[0],
        a2,
        pre.s[1],
        e0,
        m,
        tiny,
    );
    lemma_rounded_saturator_slope::<A>(e0, a0, 401 as real / 10000 as real, m, tiny);
    lemma_rounded_saturator_slope::<A>(pre.s[0], a1, 1 as real / 100 as real, m, tiny);
    let drive = term::lemma_image::<A>(
        Function::Asinh,
        equations::pivotal_drive(
            term::val(pre.params.g),
            term::val(pre.params.res),
            term::val(a0),
            term::val(a1),
            term::val(a2),
            term::val(pre.s[0]),
            term::val(pre.s[1]),
            term::val(input),
        ),
        post.vout[0],
    );
    let u = lemma_rounded_drive::<A>(
        pre.params.g,
        pre.params.res,
        a0,
        a1,
        a2,
        pre.s[0],
        pre.s[1],
        input,
        drive,
        m,
        tiny,
    );
    // The linear filter, exactly and as it is computed.
    rounding::lemma_rounded_linear::<A>(pre, input, linear, m, tiny);
    let i = 1 as real / (1 as real + g * (g + k));
    let v0 = i * s0 + (g * i) * (x - s1);
    let v1 = s1 + g * v0;
    small_signals::lemma_linear_bounds(g, k, s0, s1, x, v0, v1);
    algebra::lemma_nonnegative_product(g, g + k);
    algebra::lemma_linear_loop(g, k, s0, s1, x, v0, v1);
    small_signals::lemma_pivoted_near_linear(
        g,
        k,
        s0,
        s1,
        x,
        (m.number)(a0),
        (m.number)(a1),
        (m.number)(a2),
        u,
        v0,
    );
    let w = (m.number)(drive);
    small_signals::lemma_asinh_near(m, w, small_signals::millionths(31010));
    let out0 = (m.number)(post.vout[0]);
    rounding::lemma_off(
        out0,
        (m.image)(Function::Asinh, w),
        0 as real,
        small_signals::millionths(31020),
        rounding::billionths(8),
    );
    assert(reading::within(out0 - v0, small_signals::millionths(76)));
    small_signals::lemma_lowpass_near(g, (m.number)(a1), out0, v0);
    lemma_rounded_lowpass::<A>(pre.params.g, a1, post.vout[0], pre.s[1], post.vout[1], m, tiny);
    algebra::lemma_distribute(g, (m.number)(linear.vout[0]), v0);
    algebra::lemma_product_within(
        g,
        (m.number)(linear.vout[0]) - v0,
        1 as real,
        rounding::billionths(250),
    );
}

/// The low-pass stage as it is computed.
proof fn lemma_rounded_lowpass<A: Arithmetic>(
    g: A::Num,
    a1: A::Num,
    v0: A::Num,
    s1: A::Num,
    v1: A::Num,
    m: Reading<A::Num>,
    tiny: real,
)
    requires
        rounding::rounds::<A>(m, tiny),
        rounding::is_negligible(tiny),
        reading::within((m.number)(g), 1 as real),
        reading::within((m.number)(a1), 1001 as real / 1000 as real),
        reading::within((m.number)(v0), 32 as real / 1000 as real),
        reading::within((m.number)(s1), 1 as real / 100 as real),
        term::yields::<A>(
            equations::pivotal_v1(term::val(g), term::val(a1), term::val(v0), term::val(s1)),
            v1,
        ),
    ensures
        reading::within(
            (m.number)(v1) - ((m.number)(g) * (m.number)(a1) * (m.number)(v0) + (m.number)(s1)),
            rounding::billionths(40),
        ),
{
    let ct = term::val(g).times(term::val(a1));
    let (p, s1c) = term::lemma_sum::<A>(ct.times(term::val(v0)), term::val(s1), v1);
    let (cn, v0c) = term::lemma_product::<A>(ct, term::val(v0), p);
    let (gc, ac) = term::lemma_product::<A>(term::val(g), term::val(a1), cn);
    let c = (m.number)(g) * (m.number)(a1);
    let cr = (m.number)(cn);
    let vr = (m.number)(v0);
    let high = 1001 as real / 1000 as real;
    algebra::lemma_product_within((m.number)(g), (m.number)(a1), 1 as real, high);
    rounding::lemma_off(cr, c, tiny, high, rounding::billionths(251));
    algebra::lemma_product_within(c, vr, high, 32 as real / 1000 as real);
    algebra::lemma_product_within(
        cr - c,
        vr,
        rounding::billionths(251),
        32 as real / 1000 as real,
    );
    algebra::lemma_distribute_left(vr, cr, c);
    rounding::lemma_off(
        (m.number)(p),
        cr * vr,
        tiny,
        33 as real / 1000 as real,
        rounding::billionths(9),
    );
    rounding::lemma_off(
        (m.number)(v1),
        (m.number)(p) + (m.number)(s1),
        tiny,
        44 as real / 1000 as real,
        rounding::billionths(12),
    );
}

} // verus!
