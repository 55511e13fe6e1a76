//! What the formulas of the filter come to in an arithmetic that rounds, as floating-point
//! arithmetic does.

use crate::algebra;
use crate::arithmetic::Arithmetic;
use crate::equations;
use crate::equations::Damping;
use crate::filter::SVF;
use crate::iterates;
use crate::newton;
use crate::newton::{Iterate, Jacobian};
use crate::reading;
use crate::small_signals;
use crate::term;
use crate::term::{Function, Reading, Term};
use vstd::prelude::*;

verus! {

/// So many billionths.
#[verifier::inline]
pub open spec fn billionths(n: int) -> real {
    n as real / 1000000000 as real
}

/// The size of a number.
pub open spec fn size(x: real) -> real {
    if x < 0 as real {
        -x
    } else {
        x
    }
}

/// Whether `x` is `y`, rounded: off by a four-millionth of it at the most, and by `tiny` where it
/// underflows.
#[verifier::opaque]
pub open spec fn rounded(x: real, y: real, tiny: real) -> bool {
    reading::within(x - y, size(y) / 4000000 as real + tiny)
}

/// Whether a number of the arithmetic is of ordinary size.
pub open spec fn fits<N>(a: N, m: Reading<N>) -> bool {
    reading::within((m.number)(a), 1000000 as real)
}

/// Whether the arithmetic `A` rounds, under the reading `m`, as floating-point arithmetic does. On
/// numbers of ordinary size:
///
/// - sums, differences, products and quotients are rounded; what underflows is off by `tiny` at the
///   most,
/// - small whole numbers, opposites, absolute values and comparisons are exact, and no such number
///   is infinite,
/// - the hyperbolic functions of arguments up to sixteen are rounded, and do not underflow.
pub open spec fn rounds<A: Arithmetic>(m: Reading<A::Num>, tiny: real) -> bool {
    &&& forall|n: i32, v: A::Num| #[trigger]
        call_ensures(A::decimal, (n, 0u32), v) && 0 <= n <= 100 ==> (m.number)(v) == n as real
    &&& forall|v: A::Num| #[trigger]
        call_ensures(A::decimal, (1i32, 5u32), v) ==> rounded(
            (m.number)(v),
            1 as real / 100000 as real,
            tiny,
        )
    &&& forall|a: A::Num, b: A::Num, v: A::Num| #[trigger]
        call_ensures(A::plus, (a, b), v) && fits(a, m) && fits(b, m) ==> rounded(
            (m.number)(v),
            (m.number)(a) + (m.number)(b),
            tiny,
        )
    &&& forall|a: A::Num, b: A::Num, v: A::Num| #[trigger]
        call_ensures(A::minus, (a, b), v) && fits(a, m) && fits(b, m) ==> rounded(
            (m.number)(v),
            (m.number)(a) - (m.number)(b),
            tiny,
        )
    &&& forall|a: A::Num, b: A::Num, v: A::Num| #[trigger]
        call_ensures(A::times, (a, b), v) && fits(a, m) && fits(b, m) ==> rounded(
            (m.number)(v),
            (m.number)(a) * (m.number)(b),
            tiny,
        )
    &&& forall|a: A::Num, v: A::Num| #[trigger]
        call_ensures(A::squared, (a,), v) && fits(a, m) ==> rounded(
            (m.number)(v),
            (m.number)(a) * (m.number)(a),
            tiny,
        )
    &&& forall|a: A::Num, b: A::Num, v: A::Num| #[trigger]
        call_ensures(A::over, (a, b), v) && fits(a, m) && fits(b, m) && (m.number)(b) != 0 as real
            && reading::within((m.number)(a) / (m.number)(b), 1000000 as real) ==> rounded(
            (m.number)(v),
            (m.number)(a) / (m.number)(b),
            tiny,
        )
    &&& forall|a: A::Num, v: A::Num| #[trigger]
        call_ensures(A::negated, (a,), v) && fits(a, m) ==> (m.number)(v) == -(m.number)(a)
    &&& forall|f: Function, a: A::Num, v: A::Num| #[trigger]
        term::maps::<A>(f, a, v) && reading::within((m.number)(a), 16 as real) && is_rounded_function(f)
            ==> rounded((m.number)(v), (m.image)(f, (m.number)(a)), 0 as real)
    &&& forall|a: A::Num, v: A::Num| #[trigger]
        term::maps::<A>(Function::Abs, a, v) && fits(a, m) ==> (m.number)(v) == size((m.number)(a))
    &&& forall|a: A::Num, b: A::Num, outcome: bool| #[trigger]
        call_ensures(A::exceeds, (a, b), outcome) && fits(a, m) && fits(b, m) ==> outcome == ((
        m.number)(a) > (m.number)(b))
    &&& forall|a: A::Num, b: A::Num, outcome: bool| #[trigger]
        call_ensures(A::differs, (a, b), outcome) && fits(a, m) && fits(b, m) ==> outcome == ((
        m.number)(a) != (m.number)(b))
    &&& forall|a: A::Num, outcome: bool| #[trigger]
        call_ensures(A::is_infinite, (a,), outcome) && fits(a, m) ==> !outcome
}

/// The functions that are rounded.
pub open spec fn is_rounded_function(f: Function) -> bool {
    f == Function::Tanh || f == Function::Sinh || f == Function::Cosh || f == Function::Asinh
}

/// How far a rounded number can be off, where `bound` bounds its size.
pub(crate) proof fn lemma_off(x: real, y: real, tiny: real, bound: real, error: real)
    requires
        rounded(x, y, tiny),
        reading::within(y, bound),
        bound / 4000000 as real + tiny <= error,
    ensures
        reading::within(x - y, error),
{
    reveal(rounded);
}

/// How far inverses are apart.
proof fn lemma_inverses_near(a: real, b: real, error: real)
    requires
        a >= 9 as real / 10 as real,
        b >= 9 as real / 10 as real,
        reading::within(a - b, error),
    ensures
        reading::within(1 as real / a - 1 as real / b, 2 as real * error),
        1 as real / a > 0 as real,
        1 as real / a <= 2 as real,
{
    let p = 1 as real / a;
    let q = 1 as real / b;
    algebra::lemma_quotient(1 as real, a);
    algebra::lemma_quotient(1 as real, b);
    algebra::lemma_positive_quotient(1 as real, a);
    algebra::lemma_positive_quotient(1 as real, b);
    algebra::lemma_factor_within(a, p, 9 as real / 10 as real, 10 as real / 9 as real);
    algebra::lemma_factor_within(b, q, 9 as real / 10 as real, 10 as real / 9 as real);
    // p - q == (p * q) * (b - a)
    algebra::lemma_distribute(p * q, b, a);
    assert((p * q) * b == p) by {
        algebra::lemma_associate(p, q, b);
        algebra::lemma_commute(q, b);
        algebra::lemma_unit(q * b, p);
        algebra::lemma_commute(q * b, p);
    }
    assert((p * q) * a == q) by {
        algebra::lemma_commute(p, q);
        algebra::lemma_associate(q, p, a);
        algebra::lemma_unit(p * a, q);
        algebra::lemma_commute(p * a, q);
    }
    algebra::lemma_product_within(p, q, 10 as real / 9 as real, 10 as real / 9 as real);
    algebra::lemma_product_within(p * q, b - a, 2 as real, error);
}

/// Whether what underflows is negligible.
pub open spec fn is_negligible(tiny: real) -> bool {
    tiny >= 0 as real && tiny <= 1 as real / 4000000000000000 as real
}

/// Whether the gain and the damping are in their usual ranges, and what underflows is negligible.
pub open spec fn is_usual(g: real, k: real, tiny: real) -> bool {
    &&& g > 0 as real
    &&& g <= 1 as real
    &&& k >= 0 as real
    &&& k <= 2 as real
    &&& is_negligible(tiny)
}

/// The inverse of the linear filter's denominator.
proof fn lemma_rounded_inverse<A: Arithmetic>(
    g: A::Num,
    k: A::Num,
    i: A::Num,
    m: Reading<A::Num>,
    tiny: real,
)
    requires
        rounds::<A>(m, tiny),
        is_usual((m.number)(g), (m.number)(k), tiny),
        term::yields::<A>(
            term::num(1).over(
                term::num(1).plus(term::val(g).times(term::val(g).plus(term::val(k)))),
            ),
            i,
        ),
    ensures
        ({
            let gr = (m.number)(g);
            let d = 1 as real + gr * (gr + (m.number)(k));
            &&& d >= 1 as real
            &&& d <= 4 as real
            &&& reading::within((m.number)(i) - 1 as real / d, billionths(6600))
        }),
{
    let gt = term::val(g);
    let sum = gt.plus(term::val(k));
    let product = gt.times(sum);
    let denominator = term::num(1).plus(product);
    let (one, d) = term::lemma_quotient::<A>(term::num(1), denominator, i);
    let (one2, q) = term::lemma_sum::<A>(term::num(1), product, d);
    let (g1, r) = term::lemma_product::<A>(gt, sum, q);
    let (g2, k2) = term::lemma_sum::<A>(gt, term::val(k), r);
    let gr = (m.number)(g);
    let kr = (m.number)(k);
    let rr = (m.number)(r);
    let qr = (m.number)(q);
    let dr = (m.number)(d);
    assert(rounded(rr, gr + kr, tiny));
    lemma_off(rr, gr + kr, tiny, 3 as real, billionths(760));
    algebra::lemma_distribute(gr, rr, gr + kr);
    algebra::lemma_product_within(gr, rr - (gr + kr), 1 as real, billionths(760));
    algebra::lemma_nonnegative_product(gr, gr + kr);
    algebra::lemma_product_within(gr, gr + kr, 1 as real, 3 as real);
    algebra::lemma_product_within(gr, rr, 1 as real, 4 as real);
    assert(rounded(qr, gr * rr, tiny));
    lemma_off(qr, gr * rr, tiny, 4 as real, billionths(1010));
    assert(rounded(dr, 1 as real + qr, tiny));
    lemma_off(dr, 1 as real + qr, tiny, 5 as real, billionths(1260));
    let exact = 1 as real + gr * (gr + kr);
    assert(reading::within(dr - exact, billionths(3030)));
    lemma_inverses_near(dr, exact, billionths(3030));
    assert(rounded((m.number)(i), 1 as real / dr, tiny));
    lemma_off((m.number)(i), 1 as real / dr, tiny, 2 as real, billionths(510));
}

/// How close the outputs of the linear filter come to those of an exact one, on small signals.
pub(crate) proof fn lemma_rounded_linear<A: Arithmetic>(
    pre: SVF<A>,
    input: A::Num,
    post: SVF<A>,
    m: Reading<A::Num>,
    tiny: real,
)
    requires
        rounds::<A>(m, tiny),
        is_usual((m.number)(pre.params.g), (m.number)(pre.params.res), tiny),
        reading::within((m.number)(pre.s[0]), 1 as real / 100 as real),
        reading::within((m.number)(pre.s[1]), 1 as real / 100 as real),
        reading::within((m.number)(input), 1 as real / 100 as real),
        SVF::<A>::linear_pass(pre, input, post),
    ensures
        ({
            let g = (m.number)(pre.params.g);
            let i = 1 as real / (1 as real + g * (g + (m.number)(pre.params.res)));
            let v0 = (m.number)(post.vout[0]);
            &&& reading::within(
                v0 - (i * (m.number)(pre.s[0]) + (g * i) * ((m.number)(input) - (m.number)(
                    pre.s[1],
                ))),
                billionths(250),
            )
            &&& reading::within(
                (m.number)(post.vout[1]) - ((m.number)(pre.s[1]) + g * v0),
                billionths(20),
            )
        }),
{
    let gt = term::val(pre.params.g);
    let kt = term::val(pre.params.res);
    let s0t = term::val(pre.s[0]);
    let s1t = term::val(pre.s[1]);
    let xt = term::val(input);
    let inverse = term::num(1).over(term::num(1).plus(gt.times(gt.plus(kt))));
    let (a, b) = term::lemma_sum::<A>(
        inverse.times(s0t),
        gt.times(inverse).times(xt.minus(s1t)),
        post.vout[0],
    );
    let (i1, t0) = term::lemma_product::<A>(inverse, s0t, a);
    let (h, y) = term::lemma_product::<A>(gt.times(inverse), xt.minus(s1t), b);
    let (g2, i2) = term::lemma_product::<A>(gt, inverse, h);
    let (x2, t1) = term::lemma_difference::<A>(xt, s1t, y);
    lemma_rounded_inverse::<A>(pre.params.g, pre.params.res, i1, m, tiny);
    lemma_rounded_inverse::<A>(pre.params.g, pre.params.res, i2, m, tiny);
    let g = (m.number)(pre.params.g);
    let d = 1 as real + g * (g + (m.number)(pre.params.res));
    let i = 1 as real / d;
    algebra::lemma_quotient(1 as real, d);
    algebra::lemma_factor_within(d, i, 1 as real, 1 as real);
    let (s0, s1, x) = ((m.number)(pre.s[0]), (m.number)(pre.s[1]), (m.number)(input));
    let (ar, br, yr, hr) = ((m.number)(a), (m.number)(b), (m.number)(y), (m.number)(h));
    let (i1r, i2r) = ((m.number)(i1), (m.number)(i2));
    let v0 = (m.number)(post.vout[0]);
    lemma_linear_errors(g, i, s0, x - s1, i1r, i2r, ar, hr, yr, br, v0, tiny);
    let (t2, c) = term::lemma_sum::<A>(s1t, gt.times(term::val(post.vout[0])), post.vout[1]);
    let (g3, v3) = term::lemma_product::<A>(gt, term::val(post.vout[0]), c);
    algebra::lemma_product_within(i, s0, 1 as real, billionths(10000000));
    algebra::lemma_product_within(g, i, 1 as real, 1 as real);
    algebra::lemma_product_within(g * i, x - s1, 1 as real, billionths(20000000));
    algebra::lemma_product_within(g, v0, 1 as real, billionths(31000000));
    lemma_off((m.number)(c), g * v0, tiny, billionths(31000000), billionths(8));
    lemma_off(
        (m.number)(post.vout[1]),
        s1 + (m.number)(c),
        tiny,
        billionths(42000000),
        billionths(11),
    );
}

proof fn lemma_linear_errors(
    g: real,
    i: real,
    s0: real,
    y: real,
    i1r: real,
    i2r: real,
    ar: real,
    hr: real,
    yr: real,
    br: real,
    v0: real,
    tiny: real,
)
    requires
        is_usual(g, 0 as real, tiny),
        reading::within(i, 1 as real),
        reading::within(s0, billionths(10000000)),
        reading::within(y, billionths(20000000)),
        reading::within(i1r - i, billionths(6600)),
        reading::within(i2r - i, billionths(6600)),
        fits_real(i1r) && fits_real(s0) ==> rounded(ar, i1r * s0, tiny),
        fits_real(g) && fits_real(i2r) ==> rounded(hr, g * i2r, tiny),
        rounded(yr, y, tiny),
        fits_real(hr) && fits_real(yr) ==> rounded(br, hr * yr, tiny),
        fits_real(ar) && fits_real(br) ==> rounded(v0, ar + br, tiny),
    ensures
        reading::within(v0 - (i * s0 + (g * i) * y), billionths(250)),
{
    algebra::lemma_product_within(i1r, s0, 2 as real, billionths(10000000));
    algebra::lemma_distribute(s0, i1r, i);
    algebra::lemma_product_within(s0, i1r - i, billionths(10000000), billionths(6600));
    lemma_off(ar, i1r * s0, tiny, billionths(20000000), billionths(6));
    algebra::lemma_product_within(g, i2r, 1 as real, 2 as real);
    algebra::lemma_distribute(g, i2r, i);
    algebra::lemma_product_within(g, i2r - i, 1 as real, billionths(6600));
    lemma_off(hr, g * i2r, tiny, 2 as real, billionths(501));
    lemma_off(yr, y, tiny, billionths(20000000), billionths(6));
    algebra::lemma_product_within(g, i, 1 as real, 1 as real);
    algebra::lemma_product_within(hr, yr, 2 as real, billionths(21000000));
    lemma_off(br, hr * yr, tiny, billionths(42000000), billionths(11));
    // hr * yr - (g * i) * y == hr * (yr - y) + (hr - g * i) * y
    algebra::lemma_distribute(hr, yr, y);
    algebra::lemma_distribute(y, hr, g * i);
    algebra::lemma_product_within(hr, yr - y, 2 as real, billionths(6));
    algebra::lemma_product_within(y, hr - g * i, billionths(20000000), billionths(7101));
    algebra::lemma_product_within(i, s0, 1 as real, billionths(10000000));
    algebra::lemma_product_within(g * i, y, 1 as real, billionths(20000000));
    lemma_off(v0, ar + br, tiny, billionths(32000000), billionths(9));
}

/// Whether a real number is of ordinary size.
pub open spec fn fits_real(x: real) -> bool {
    reading::within(x, 1000000 as real)
}

/// The hyperbolic tangent moves no further than its argument, and its square.
proof fn lemma_tanh_moves<N>(m: Reading<N>, x: real, y: real, error: real)
    requires
        reading::is_hyperbolic(m),
        reading::bends_gently(m),
        reading::within(y - x, error),
    ensures
        reading::within(
            (m.image)(Function::Tanh, y) - (m.image)(Function::Tanh, x),
            error + error * error,
        ),
{
    let t = (m.image)(Function::Tanh, x);
    algebra::lemma_square_below_one(t);
    algebra::lemma_product_within(1 as real - t * t, y - x, 1 as real, error);
    algebra::lemma_product_within(y - x, y - x, error, error);
}

/// Whether the outputs that an iterate starts from are as small as those of the linear filter on
/// small signals.
pub open spec fn is_small_estimate(x: real, s0: real, s1: real, v0: real, v1: real) -> bool {
    &&& reading::within(x, billionths(10000000))
    &&& reading::within(s0, billionths(10000000))
    &&& reading::within(s1, billionths(10000000))
    &&& reading::within(v0, billionths(32000000))
    &&& reading::within(v1, billionths(42000000))
}

/// How close the parts of an iterate come to those of an exact one, on small signals.
pub(crate) proof fn lemma_rounded_iterate<A: Arithmetic>(
    filter: SVF<A>,
    input: A::Num,
    it: Iterate<A::Num>,
    m: Reading<A::Num>,
    tiny: real,
)
    requires
        rounds::<A>(m, tiny),
        reading::is_hyperbolic(m),
        reading::bends_gently(m),
        is_usual((m.number)(filter.params.g), (m.number)(filter.params.res), tiny),
        is_small_estimate(
            (m.number)(input),
            (m.number)(filter.s[0]),
            (m.number)(filter.s[1]),
            (m.number)(it.v_est[0]),
            (m.number)(it.v_est[1]),
        ),
        iterates::stands_at_its_estimates::<A>(Damping::Full, filter, input, it),
    ensures
        ({
            let g = (m.number)(filter.params.g);
            let k = (m.number)(filter.params.res);
            let v0 = (m.number)(it.v_est[0]);
            let v1 = (m.number)(it.v_est[1]);
            let sinh = (m.image)(Function::Sinh, v0);
            let tanh = (m.image)(Function::Tanh, v0);
            let w = (m.number)(input) - ((k - 1 as real) * v0 + sinh) - v1;
            &&& reading::within(sinh, billionths(33000000))
            &&& reading::within(tanh, billionths(33000000))
            &&& reading::within(w, billionths(122000000))
            &&& rounded((m.number)(it.sinh), sinh, 0 as real)
            &&& rounded((m.number)(it.tanh), tanh, 0 as real)
            &&& reading::within(
                (m.number)(it.fb_line) - (m.image)(Function::Tanh, w),
                billionths(130),
            )
            &&& reading::within((m.number)(it.fb_line), billionths(124000000))
            &&& reading::within(
                (m.number)(it.residue[0]) - (g * (m.number)(it.fb_line) + (m.number)(filter.s[0])
                    - v0),
                billionths(120),
            )
            &&& reading::within(
                (m.number)(it.residue[1]) - (g * (m.number)(it.tanh) + (m.number)(filter.s[1])
                    - v1),
                billionths(120),
            )
        }),
{
    let v0t = term::val(it.v_est[0]);
    let v1t = term::val(it.v_est[1]);
    let kt = term::val(filter.params.res);
    let xt = term::val(input);
    let g = (m.number)(filter.params.g);
    let k = (m.number)(filter.params.res);
    let x = (m.number)(input);
    let v0 = (m.number)(it.v_est[0]);
    let v1 = (m.number)(it.v_est[1]);
    let sinh = (m.image)(Function::Sinh, v0);
    let tanh = (m.image)(Function::Tanh, v0);
    small_signals::lemma_sinh_near(m, v0, billionths(32000000));
    small_signals::lemma_tanh_near(m, v0, billionths(32000000));
    let a = term::lemma_image::<A>(Function::Sinh, v0t, it.sinh);
    let b = term::lemma_image::<A>(Function::Tanh, v0t, it.tanh);
    let sh = (m.number)(it.sinh);
    let th = (m.number)(it.tanh);
    assert(rounded(sh, sinh, 0 as real));
    assert(rounded(th, tanh, 0 as real));
    lemma_off(sh, sinh, 0 as real, billionths(33000000), billionths(9));
    lemma_off(th, tanh, 0 as real, billionths(33000000), billionths(9));
    // The argument of the feedback line.
    let sht = term::val(it.sinh);
    let damped = kt.minus(term::num(1)).times(v0t).plus(sht);
    let arg = xt.minus(damped).minus(v1t);
    let c = term::lemma_image::<A>(Function::Tanh, arg, it.fb_line);
    let (d, v1c) = term::lemma_difference::<A>(xt.minus(damped), v1t, c);
    let (xc, e) = term::lemma_difference::<A>(xt, damped, d);
    let (f, shc) = term::lemma_sum::<A>(kt.minus(term::num(1)).times(v0t), sht, e);
    let (h, v0c) = term::lemma_product::<A>(kt.minus(term::num(1)), v0t, f);
    let (kc, one) = term::lemma_difference::<A>(kt, term::num(1), h);
    let w = x - ((k - 1 as real) * v0 + sinh) - v1;
    lemma_feedback_errors(
        k,
        v0,
        v1,
        x,
        sinh,
        sh,
        (m.number)(h),
        (m.number)(f),
        (m.number)(e),
        (m.number)(d),
        (m.number)(c),
        tiny,
    );
    lemma_tanh_moves(m, w, (m.number)(c), billionths(96));
    small_signals::lemma_tanh_near(m, w, billionths(122000000));
    small_signals::lemma_tanh_near(m, (m.number)(c), billionths(123000000));
    let fb = (m.number)(it.fb_line);
    lemma_off(
        fb,
        (m.image)(Function::Tanh, (m.number)(c)),
        0 as real,
        billionths(123700000),
        billionths(31),
    );
    lemma_rounded_residue::<A>(
        filter.params.g,
        it.fb_line,
        filter.s[0],
        it.v_est[0],
        it.residue[0],
        m,
        tiny,
    );
    lemma_rounded_residue::<A>(
        filter.params.g,
        it.tanh,
        filter.s[1],
        it.v_est[1],
        it.residue[1],
        m,
        tiny,
    );
}

/// The errors of the feedback line's argument.
proof fn lemma_feedback_errors(
    k: real,
    v0: real,
    v1: real,
    x: real,
    sinh: real,
    sh: real,
    h: real,
    f: real,
    e: real,
    d: real,
    c: real,
    tiny: real,
)
    requires
        is_usual(1 as real, k, tiny),
        reading::within(x, billionths(10000000)),
        reading::within(v0, billionths(32000000)),
        reading::within(v1, billionths(42000000)),
        reading::within(sinh, billionths(33000000)),
        reading::within(sh - sinh, billionths(9)),
        rounded(h, k - 1 as real, tiny),
        fits_real(h) ==> rounded(f, h * v0, tiny),
        fits_real(f) ==> rounded(e, f + sh, tiny),
        fits_real(e) ==> rounded(d, x - e, tiny),
        fits_real(d) ==> rounded(c, d - v1, tiny),
    ensures
        reading::within(c - (x - ((k - 1 as real) * v0 + sinh) - v1), billionths(96)),
        reading::within(x - ((k - 1 as real) * v0 + sinh) - v1, billionths(118000000)),
        reading::within(c, billionths(122000000)),
{
    lemma_off(h, k - 1 as real, tiny, 1 as real, billionths(251));
    algebra::lemma_product_within(h, v0, 11 as real / 10 as real, billionths(32000000));
    lemma_off(f, h * v0, tiny, billionths(35200000), billionths(9));
    algebra::lemma_distribute(v0, h, k - 1 as real);
    algebra::lemma_product_within(v0, h - (k - 1 as real), billionths(32000000), billionths(251));
    algebra::lemma_product_within(k - 1 as real, v0, 1 as real, billionths(32000000));
    algebra::lemma_commute(k - 1 as real, v0);
    lemma_off(e, f + sh, tiny, billionths(66000000), billionths(17));
    lemma_off(d, x - e, tiny, billionths(77000000), billionths(20));
    lemma_off(c, d - v1, tiny, billionths(120000000), billionths(31));
}

/// The residue of a stage, where `u` is what its integrator is handed.
proof fn lemma_rounded_residue<A: Arithmetic>(
    g: A::Num,
    u: A::Num,
    s: A::Num,
    v: A::Num,
    r: A::Num,
    m: Reading<A::Num>,
    tiny: real,
)
    requires
        rounds::<A>(m, tiny),
        is_usual((m.number)(g), 0 as real, tiny),
        reading::within((m.number)(u), billionths(124000000)),
        reading::within((m.number)(s), billionths(10000000)),
        reading::within((m.number)(v), billionths(42000000)),
        term::yields::<A>(
            equations::integrated(term::val(g), term::val(u), term::val(s)).minus(term::val(v)),
            r,
        ),
    ensures
        reading::within(
            (m.number)(r) - ((m.number)(g) * (m.number)(u) + (m.number)(s) - (m.number)(v)),
            billionths(120),
        ),
{
    let product = term::val(g).times(term::val(u));
    let (a, vc) = term::lemma_difference::<A>(product.plus(term::val(s)), term::val(v), r);
    let (b, sc) = term::lemma_sum::<A>(product, term::val(s), a);
    let (gc, uc) = term::lemma_product::<A>(term::val(g), term::val(u), b);
    let gu = (m.number)(g) * (m.number)(u);
    algebra::lemma_product_within((m.number)(g), (m.number)(u), 1 as real, billionths(124000000));
    lemma_off((m.number)(b), gu, tiny, billionths(124000000), billionths(32));
    lemma_off(
        (m.number)(a),
        (m.number)(b) + (m.number)(s),
        tiny,
        billionths(135000000),
        billionths(35),
    );
    lemma_off(
        (m.number)(r),
        (m.number)(a) - (m.number)(v),
        tiny,
        billionths(178000000),
        billionths(46),
    );
}

/// The inverse slope of the feedback line.
proof fn lemma_rounded_inverse_slope<A: Arithmetic>(
    fb: A::Num,
    slope: A::Num,
    m: Reading<A::Num>,
    tiny: real,
)
    requires
        rounds::<A>(m, tiny),
        is_usual(1 as real, 0 as real, tiny),
        reading::within((m.number)(fb), billionths(124000000)),
        term::yields::<A>(equations::inverse_slope(term::val(fb)), slope),
    ensures
        ({
            let fb_slope = 1 as real - (m.number)(fb) * (m.number)(fb);
            let s = (m.number)(slope);
            &&& fb_slope >= 98 as real / 100 as real
            &&& fb_slope <= 1 as real
            &&& s >= 99 as real / 100 as real
            &&& s <= 11 as real / 10 as real
            &&& reading::within(1 as real / s - fb_slope, billionths(2200))
            &&& fits(slope, m)
        }),
{
    let fbt = term::val(fb);
    let (one, d) = term::lemma_quotient::<A>(
        term::num(1),
        term::num(1).minus(fbt.times(fbt)),
        slope,
    );
    let (one2, q) = term::lemma_difference::<A>(term::num(1), fbt.times(fbt), d);
    let (f1, f2) = term::lemma_product::<A>(fbt, fbt, q);
    let f = (m.number)(fb);
    let fb_slope = 1 as real - f * f;
    let dr = (m.number)(d);
    let s = (m.number)(slope);
    algebra::lemma_square(f);
    algebra::lemma_product_within(f, f, billionths(124000000), billionths(124000000));
    lemma_off((m.number)(q), f * f, tiny, billionths(15400000), billionths(4));
    lemma_off(dr, 1 as real - (m.number)(q), tiny, 101 as real / 100 as real, billionths(253));
    lemma_inverses_near(dr, fb_slope, billionths(257));
    let exact = 1 as real / fb_slope;
    algebra::lemma_quotient(1 as real, fb_slope);
    algebra::lemma_factor_within(
        fb_slope,
        exact,
        98 as real / 100 as real,
        103 as real / 100 as real,
    );
    assert(exact >= 1 as real) by {
        if exact < 1 as real {
            algebra::lemma_increasing_product(fb_slope, exact, 1 as real);
        }
    }
    assert(rounded(s, 1 as real / dr, tiny));
    lemma_off(s, 1 as real / dr, tiny, 2 as real, billionths(501));
    lemma_inverses_near(s, exact, billionths(1015));
    algebra::lemma_inverse_divisor(1 as real, fb_slope);
    algebra::lemma_unit(1 as real, fb_slope);
}

/// The slope of the damping.
proof fn lemma_rounded_damping_slope<A: Arithmetic>(
    it: Iterate<A::Num>,
    d: A::Num,
    m: Reading<A::Num>,
    tiny: real,
)
    requires
        rounds::<A>(m, tiny),
        reading::is_hyperbolic(m),
        reading::bends_gently(m),
        is_usual(1 as real, 0 as real, tiny),
        reading::within((m.number)(it.v_est[0]), 1 as real),
        rounded(
            (m.number)(it.sinh),
            (m.image)(Function::Sinh, (m.number)(it.v_est[0])),
            0 as real,
        ),
        rounded(
            (m.number)(it.tanh),
            (m.image)(Function::Tanh, (m.number)(it.v_est[0])),
            0 as real,
        ),
        newton::damping_slope_of::<A>(Damping::Full, it, d),
    ensures
        reading::within(
            (m.number)(d) - (m.image)(Function::Cosh, (m.number)(it.v_est[0])),
            billionths(1700),
        ),
{
    let v0 = (m.number)(it.v_est[0]);
    let c = (m.image)(Function::Cosh, v0);
    let sinh = (m.image)(Function::Sinh, v0);
    let tanh = (m.image)(Function::Tanh, v0);
    let sh = (m.number)(it.sinh);
    let th = (m.number)(it.tanh);
    reading::lemma_tanh_sign(m, v0);
    assert(tanh == 0 as real || th != 0 as real) by {
        reveal(rounded);
    }
    assert(th == 0 as real || tanh != 0 as real) by {
        reveal(rounded);
    }
    assert(c >= 1 as real && c <= 2 as real);
    assert(sinh == tanh * c);
    algebra::lemma_product_within(tanh, c, 1 as real, 2 as real);
    lemma_off(sh, sinh, 0 as real, 2 as real, 1 as real);
    lemma_off(th, tanh, 0 as real, 1 as real, 1 as real);
    let slope = equations::sinh_slope(term::val(it.sinh), term::val(it.tanh));
    assert forall|zero: A::Num| #[trigger] term::yields::<A>(term::num(0), zero) implies (m.number)(
        zero,
    ) == 0 as real by {}
    assert forall|one: A::Num| #[trigger] term::yields::<A>(term::num(1), one) implies (m.number)(
        one,
    ) == 1 as real by {}
    if th != 0 as real {
        assert(term::yields::<A>(slope, d));
        let (shc, thc) = term::lemma_quotient::<A>(term::val(it.sinh), term::val(it.tanh), d);
        let q = sh / th;
        lemma_slope_error(c, sinh, tanh, sh, th, q);
        assert(rounded((m.number)(d), q, tiny));
        lemma_off((m.number)(d), q, tiny, 21 as real / 10 as real, billionths(526));
    }
}

/// A quotient of two numbers that are off by a small share each is off by a small share.
proof fn lemma_slope_error(c: real, sinh: real, tanh: real, sh: real, th: real, q: real)
    requires
        c >= 1 as real,
        c <= 2 as real,
        sinh == tanh * c,
        rounded(sh, sinh, 0 as real),
        rounded(th, tanh, 0 as real),
        th != 0 as real,
        q == sh / th,
    ensures
        reading::within(q - c, billionths(1100)),
{
    reveal(rounded);
    let t = size(tanh);
    algebra::lemma_quotient(sh, th);
    algebra::lemma_distribute(th, q, c);
    // (q - c) * th == (sh - sinh) + c * (tanh - th)
    let e = tanh - th;
    algebra::lemma_distribute(c, tanh, th);
    algebra::lemma_product_within(c, e, 2 as real, t / 4000000 as real);
    algebra::lemma_commute(tanh, c);
    algebra::lemma_commute(th, c);
    algebra::lemma_commute(th, q);
    assert(size(sinh) <= 2 as real * t) by {
        algebra::lemma_product_within(c, tanh, 2 as real, t);
    }
    assert(th * (q - c) == (sh - sinh) + c * e);
    let least = t - t / 4000000 as real;
    assert(least * billionths(1100) >= t / 1000000 as real);
    algebra::lemma_factor_within(th, q - c, least, billionths(1100));
}

/// How close the entries of the Jacobian come to the slopes.
pub(crate) proof fn lemma_rounded_jacobian<A: Arithmetic>(
    filter: SVF<A>,
    it: Iterate<A::Num>,
    j: Jacobian<A::Num>,
    m: Reading<A::Num>,
    tiny: real,
)
    requires
        rounds::<A>(m, tiny),
        reading::is_hyperbolic(m),
        reading::bends_gently(m),
        is_usual((m.number)(filter.params.g), (m.number)(filter.params.res), tiny),
        reading::within((m.number)(it.v_est[0]), 1 as real),
        reading::within((m.number)(it.fb_line), billionths(124000000)),
        reading::within(
            (m.image)(Function::Tanh, (m.number)(it.v_est[0])),
            billionths(33000000),
        ),
        rounded(
            (m.number)(it.sinh),
            (m.image)(Function::Sinh, (m.number)(it.v_est[0])),
            0 as real,
        ),
        rounded(
            (m.number)(it.tanh),
            (m.image)(Function::Tanh, (m.number)(it.v_est[0])),
            0 as real,
        ),
        newton::jacobian_of::<A>(
            Damping::Full,
            filter.params.g,
            filter.params.res,
            it,
            j,
        ),
    ensures
        ({
            let g = (m.number)(filter.params.g);
            let k = (m.number)(filter.params.res);
            let v0 = (m.number)(it.v_est[0]);
            let fb_slope = 1 as real - (m.number)(it.fb_line) * (m.number)(it.fb_line);
            let th = (m.image)(Function::Tanh, v0);
            let c = (m.image)(Function::Cosh, v0);
            &&& fb_slope >= 98 as real / 100 as real
            &&& fb_slope <= 1 as real
            &&& reading::within(
                (m.number)(j.j00) - (-(1 as real) - g * (k - 1 as real + c) * fb_slope),
                billionths(17000),
            )
            &&& reading::within((m.number)(j.j01) + g * fb_slope, billionths(2500))
            &&& reading::within(
                (m.number)(j.j10) - g * (1 as real - th * th),
                billionths(520),
            )
        }),
{
    let g = filter.params.g;
    let k = filter.params.res;
    let gt = term::val(g);
    let kt = term::val(k);
    assert forall|slope: A::Num, infinite: bool| #[trigger]
        newton::inverse_slope_of::<A>(it, slope, infinite) implies !infinite by {
        lemma_rounded_inverse_slope::<A>(it.fb_line, slope, m, tiny);
    }
    let (slope, d) = choose|slope: A::Num, d: A::Num|
        {
            &&& newton::inverse_slope_of::<A>(it, slope, false)
            &&& newton::damping_slope_of::<A>(Damping::Full, it, d)
            &&& #[trigger] newton::jacobian_row::<A>(g, k, slope, d, j)
        };
    lemma_rounded_inverse_slope::<A>(it.fb_line, slope, m, tiny);
    lemma_rounded_damping_slope::<A>(it, d, m, tiny);
    let st = term::val(slope);
    let dt = term::val(d);
    let fb_slope = 1 as real - (m.number)(it.fb_line) * (m.number)(it.fb_line);
    let c = (m.image)(Function::Cosh, (m.number)(it.v_est[0]));
    let gr = (m.number)(g);
    let sr = (m.number)(slope);
    // The first entry.
    let share = gt.times(kt.minus(term::num(1)).plus(dt));
    let (n, s1) = term::lemma_quotient::<A>(st.negated().minus(share), st, j.j00);
    let (ns, p) = term::lemma_difference::<A>(st.negated(), share, n);
    let s2 = term::lemma_negation::<A>(st, ns);
    let (g1, kd) = term::lemma_product::<A>(gt, kt.minus(term::num(1)).plus(dt), p);
    let (km, d1) = term::lemma_sum::<A>(kt.minus(term::num(1)), dt, kd);
    let (k1, one) = term::lemma_difference::<A>(kt, term::num(1), km);
    assert(c >= 1 as real && c <= 2 as real);
    lemma_first_entry_errors(
        gr,
        (m.number)(k),
        c,
        fb_slope,
        sr,
        (m.number)(d),
        (m.number)(km),
        (m.number)(kd),
        (m.number)(p),
        (m.number)(n),
        (m.number)(j.j00),
        tiny,
    );
    // The second entry.
    let q = term::lemma_negation::<A>(gt.over(st), j.j01);
    let (g2, s3) = term::lemma_quotient::<A>(gt, st, q);
    lemma_second_entry_errors(gr, fb_slope, sr, (m.number)(q), tiny);
    // The third entry.
    let tt = term::val(it.tanh);
    let (g3, e) = term::lemma_product::<A>(gt, term::num(1).minus(tt.times(tt)), j.j10);
    let (one2, f) = term::lemma_difference::<A>(term::num(1), tt.times(tt), e);
    let (t1, t2) = term::lemma_product::<A>(tt, tt, f);
    lemma_third_entry_errors(
        gr,
        (m.image)(Function::Tanh, (m.number)(it.v_est[0])),
        (m.number)(it.tanh),
        (m.number)(f),
        (m.number)(e),
        (m.number)(j.j10),
        tiny,
    );
}

proof fn lemma_first_entry_errors(
    g: real,
    k: real,
    c: real,
    fb_slope: real,
    s: real,
    d: real,
    km: real,
    kd: real,
    p: real,
    n: real,
    j00: real,
    tiny: real,
)
    requires
        is_usual(g, k, tiny),
        c >= 1 as real,
        c <= 2 as real,
        fb_slope >= 98 as real / 100 as real,
        fb_slope <= 1 as real,
        s >= 99 as real / 100 as real,
        s <= 11 as real / 10 as real,
        reading::within(1 as real / s - fb_slope, billionths(2200)),
        reading::within(d - c, billionths(1700)),
        rounded(km, k - 1 as real, tiny),
        fits_real(km) && fits_real(d) ==> rounded(kd, km + d, tiny),
        fits_real(kd) ==> rounded(p, g * kd, tiny),
        fits_real(p) ==> rounded(n, -s - p, tiny),
        fits_real(n) && s != 0 as real && fits_real(n / s) ==> rounded(j00, n / s, tiny),
    ensures
        reading::within(
            j00 - (-(1 as real) - g * (k - 1 as real + c) * fb_slope),
            billionths(17000),
        ),
{
    lemma_off(km, k - 1 as real, tiny, 1 as real, billionths(251));
    lemma_off(kd, km + d, tiny, 31 as real / 10 as real, billionths(776));
    let kc = k - 1 as real + c;
    algebra::lemma_product_within(g, kd, 1 as real, 31 as real / 10 as real);
    lemma_off(p, g * kd, tiny, 31 as real / 10 as real, billionths(776));
    algebra::lemma_distribute(g, kd, kc);
    algebra::lemma_product_within(g, kd - kc, 1 as real, billionths(2727));
    let gk = g * kc;
    algebra::lemma_product_within(g, kc, 1 as real, 3 as real);
    assert(reading::within(p - gk, billionths(3503)));
    lemma_off(n, -s - p, tiny, 43 as real / 10 as real, billionths(1076));
    let q = n / s;
    let i = 1 as real / s;
    // q == n * i, and s * i == 1
    algebra::lemma_quotient(n, s);
    algebra::lemma_quotient(1 as real, s);
    assert(q == n * i) by {
        algebra::lemma_divide_out(n, s);
        algebra::lemma_distribute(s, q, n * i);
        algebra::lemma_cancel(q - n * i, s);
    }
    let e = n - (-s - gk);
    assert(reading::within(e, billionths(4579)));
    lemma_divided_share(s, gk, e, i, n, fb_slope);
    lemma_off(j00, q, tiny, 42 as real / 10 as real, billionths(1051));
}

proof fn lemma_divided_share(s: real, gk: real, e: real, i: real, n: real, fb_slope: real)
    requires
        i * s == 1 as real,
        reading::within(i, 2 as real),
        n == (-s - gk) + e,
        reading::within(e, billionths(4579)),
        reading::within(gk, 3 as real),
        reading::within(i - fb_slope, billionths(2200)),
        reading::within(fb_slope, 1 as real),
    ensures
        reading::within(n * i - (-(1 as real) - gk * fb_slope), billionths(15758)),
        reading::within(gk * fb_slope, 3 as real),
{
    algebra::lemma_product_within(i, e, 2 as real, billionths(4579));
    algebra::lemma_distribute(i, -s - gk, e);
    algebra::lemma_distribute(i, -s, gk);
    algebra::lemma_negated_factor(i, s);
    algebra::lemma_commute(n, i);
    algebra::lemma_distribute(gk, i, fb_slope);
    algebra::lemma_product_within(gk, i - fb_slope, 3 as real, billionths(2200));
    algebra::lemma_commute(i, gk);
    algebra::lemma_product_within(gk, fb_slope, 3 as real, 1 as real);
}

proof fn lemma_second_entry_errors(g: real, fb_slope: real, s: real, q: real, tiny: real)
    requires
        is_usual(g, 0 as real, tiny),
        fb_slope >= 98 as real / 100 as real,
        fb_slope <= 1 as real,
        s >= 99 as real / 100 as real,
        s <= 11 as real / 10 as real,
        reading::within(1 as real / s - fb_slope, billionths(2200)),
        s != 0 as real && fits_real(g / s) ==> rounded(q, g / s, tiny),
    ensures
        reading::within(q - g * fb_slope, billionths(2500)),
        fits_real(q),
{
    let i = 1 as real / s;
    let r = g / s;
    algebra::lemma_quotient(g, s);
    assert(r == g * i) by {
        algebra::lemma_divide_out(g, s);
        algebra::lemma_distribute(s, r, g * i);
        algebra::lemma_cancel(r - g * i, s);
    }
    algebra::lemma_distribute(g, i, fb_slope);
    algebra::lemma_product_within(g, i - fb_slope, 1 as real, billionths(2200));
    algebra::lemma_product_within(g, fb_slope, 1 as real, 1 as real);
    lemma_off(q, r, tiny, 101 as real / 100 as real, billionths(253));
}

proof fn lemma_third_entry_errors(
    g: real,
    tanh: real,
    th: real,
    f: real,
    e: real,
    j10: real,
    tiny: real,
)
    requires
        is_usual(g, 0 as real, tiny),
        reading::within(tanh, billionths(33000000)),
        rounded(th, tanh, 0 as real),
        fits_real(th) ==> rounded(f, th * th, tiny),
        fits_real(f) ==> rounded(e, 1 as real - f, tiny),
        fits_real(e) ==> rounded(j10, g * e, tiny),
    ensures
        reading::within(j10 - g * (1 as real - tanh * tanh), billionths(520)),
{
    lemma_off(th, tanh, 0 as real, billionths(33000000), billionths(9));
    algebra::lemma_product_within(th, th, billionths(34000000), billionths(34000000));
    lemma_off(f, th * th, tiny, billionths(1160000), billionths(1));
    algebra::lemma_product_within(th - tanh, th + tanh, billionths(9), billionths(67000000));
    algebra::lemma_distribute(th - tanh, th, tanh);
    algebra::lemma_distribute(th, th, tanh);
    algebra::lemma_distribute(tanh, th, tanh);
    assert((th - tanh) * (th + tanh) == th * th - tanh * tanh);
    algebra::lemma_square(th);
    algebra::lemma_square(tanh);
    algebra::lemma_product_within(tanh, tanh, billionths(33000000), billionths(33000000));
    lemma_off(e, 1 as real - f, tiny, 101 as real / 100 as real, billionths(253));
    let ts = 1 as real - tanh * tanh;
    algebra::lemma_distribute(g, e, ts);
    algebra::lemma_product_within(g, e - ts, 1 as real, billionths(256));
    algebra::lemma_product_within(g, e, 1 as real, 101 as real / 100 as real);
    lemma_off(j10, g * e, tiny, 101 as real / 100 as real, billionths(253));
}

/// Whether the entries of a Jacobian are of the size that small signals give them, where `p` is the
/// product of its off-diagonal entries.
pub open spec fn is_small_jacobian(j00: real, j01: real, j10: real, p: real) -> bool {
    &&& p == j01 * j10
    &&& reading::within(j00, 42 as real / 10 as real)
    &&& reading::within(j01, 101 as real / 100 as real)
    &&& reading::within(j10, 101 as real / 100 as real)
    &&& reading::within(p, 103 as real / 100 as real)
    &&& p + j00 <= -(99 as real / 100 as real)
}

/// How closely a step solves the linear system that the Jacobian gives.
pub(crate) proof fn lemma_rounded_step<A: Arithmetic>(
    it: Iterate<A::Num>,
    j: Jacobian<A::Num>,
    next: Iterate<A::Num>,
    m: Reading<A::Num>,
    tiny: real,
)
    requires
        rounds::<A>(m, tiny),
        is_usual(1 as real, 0 as real, tiny),
        newton::steps_by::<A>(it, j, next),
        is_small_jacobian(
            (m.number)(j.j00),
            (m.number)(j.j01),
            (m.number)(j.j10),
            (m.number)(j.j01) * (m.number)(j.j10),
        ),
        reading::within((m.number)(it.v_est[0]), billionths(30500000)),
        reading::within((m.number)(it.v_est[1]), billionths(41000000)),
        reading::within((m.number)(it.residue[0]), billionths(460000)),
        reading::within((m.number)(it.residue[1]), billionths(10000)),
    ensures
        ({
            let j00 = (m.number)(j.j00);
            let j01 = (m.number)(j.j01);
            let j10 = (m.number)(j.j10);
            let d0 = (m.number)(next.v_est[0]) - (m.number)(it.v_est[0]);
            let d1 = (m.number)(next.v_est[1]) - (m.number)(it.v_est[1]);
            let r0 = (m.number)(it.residue[0]);
            let r1 = (m.number)(it.residue[1]);
            &&& reading::within((j01 * j10 + j00) * d0 + r0 + j01 * r1, billionths(350))
            &&& reading::within((j01 * j10 + j00) * d1 - j00 * r1 + j10 * r0, billionths(450))
        }),
{
    let j00 = term::val(j.j00);
    let j01 = term::val(j.j01);
    let j10 = term::val(j.j10);
    let v0 = term::val(it.v_est[0]);
    let v1 = term::val(it.v_est[1]);
    let r0 = term::val(it.residue[0]);
    let r1 = term::val(it.residue[1]);
    let pt = j01.times(j10);
    let dt = equations::divisor(j00, j01, j10);
    let p = (m.number)(j.j01) * (m.number)(j.j10);
    // The first estimate.
    let c0 = pt.times(v0).plus(j00.times(v0)).minus(j01.times(r1));
    let (n, d) = term::lemma_quotient::<A>(c0.minus(r0), dt, next.v_est[0]);
    let (e, r0c) = term::lemma_difference::<A>(c0, r0, n);
    let (c, f) = term::lemma_difference::<A>(
        pt.times(v0).plus(j00.times(v0)),
        j01.times(r1),
        e,
    );
    let (a, b) = term::lemma_sum::<A>(pt.times(v0), j00.times(v0), c);
    let (p1, v0a) = term::lemma_product::<A>(pt, v0, a);
    let (j00a, v0b) = term::lemma_product::<A>(j00, v0, b);
    let (j01a, r1a) = term::lemma_product::<A>(j01, r1, f);
    lemma_rounded_factors::<A>(j, p1, m, tiny);
    lemma_rounded_divisor::<A>(j, d, m, tiny);
    lemma_first_estimate_errors(
        (m.number)(j.j00),
        (m.number)(j.j01),
        p,
        (m.number)(it.v_est[0]),
        (m.number)(it.residue[0]),
        (m.number)(it.residue[1]),
        (m.number)(p1),
        (m.number)(a),
        (m.number)(b),
        (m.number)(c),
        (m.number)(f),
        (m.number)(e),
        (m.number)(n),
        (m.number)(d),
        (m.number)(next.v_est[0]),
        tiny,
    );
    // The second estimate.
    let c1 = pt.times(v1).plus(j00.times(r1));
    let c2 = c1.plus(j00.times(v1));
    let (n1, d1) = term::lemma_quotient::<A>(c2.minus(j10.times(r0)), dt, next.v_est[1]);
    let (e1, f1) = term::lemma_difference::<A>(c2, j10.times(r0), n1);
    let (b1, h1) = term::lemma_sum::<A>(c1, j00.times(v1), e1);
    let (a1, g1) = term::lemma_sum::<A>(pt.times(v1), j00.times(r1), b1);
    let (p2, v1a) = term::lemma_product::<A>(pt, v1, a1);
    let (j00b, r1b) = term::lemma_product::<A>(j00, r1, g1);
    let (j00c, v1b) = term::lemma_product::<A>(j00, v1, h1);
    let (j10a, r0a) = term::lemma_product::<A>(j10, r0, f1);
    lemma_rounded_factors::<A>(j, p2, m, tiny);
    lemma_rounded_divisor::<A>(j, d1, m, tiny);
    lemma_second_estimate_errors(
        (m.number)(j.j00),
        (m.number)(j.j10),
        p,
        (m.number)(it.v_est[1]),
        (m.number)(it.residue[0]),
        (m.number)(it.residue[1]),
        (m.number)(p2),
        (m.number)(a1),
        (m.number)(g1),
        (m.number)(b1),
        (m.number)(h1),
        (m.number)(e1),
        (m.number)(f1),
        (m.number)(n1),
        (m.number)(d1),
        (m.number)(next.v_est[1]),
        tiny,
    );
}

proof fn lemma_rounded_factors<A: Arithmetic>(
    j: Jacobian<A::Num>,
    p: A::Num,
    m: Reading<A::Num>,
    tiny: real,
)
    requires
        rounds::<A>(m, tiny),
        is_usual(1 as real, 0 as real, tiny),
        is_small_jacobian(
            (m.number)(j.j00),
            (m.number)(j.j01),
            (m.number)(j.j10),
            (m.number)(j.j01) * (m.number)(j.j10),
        ),
        term::yields::<A>(term::val(j.j01).times(term::val(j.j10)), p),
    ensures
        reading::within(
            (m.number)(p) - (m.number)(j.j01) * (m.number)(j.j10),
            billionths(258),
        ),
{
    let (a, b) = term::lemma_product::<A>(term::val(j.j01), term::val(j.j10), p);
    lemma_off(
        (m.number)(p),
        (m.number)(j.j01) * (m.number)(j.j10),
        tiny,
        103 as real / 100 as real,
        billionths(258),
    );
}

proof fn lemma_rounded_divisor<A: Arithmetic>(
    j: Jacobian<A::Num>,
    d: A::Num,
    m: Reading<A::Num>,
    tiny: real,
)
    requires
        rounds::<A>(m, tiny),
        is_usual(1 as real, 0 as real, tiny),
        is_small_jacobian(
            (m.number)(j.j00),
            (m.number)(j.j01),
            (m.number)(j.j10),
            (m.number)(j.j01) * (m.number)(j.j10),
        ),
        term::yields::<A>(
            equations::divisor(term::val(j.j00), term::val(j.j01), term::val(j.j10)),
            d,
        ),
    ensures
        reading::within(
            (m.number)(d) - ((m.number)(j.j01) * (m.number)(j.j10) + (m.number)(j.j00)),
            billionths(1600),
        ),
{
    let (p, j00) = term::lemma_sum::<A>(
        term::val(j.j01).times(term::val(j.j10)),
        term::val(j.j00),
        d,
    );
    lemma_rounded_factors::<A>(j, p, m, tiny);
    lemma_off(
        (m.number)(d),
        (m.number)(p) + (m.number)(j.j00),
        tiny,
        53 as real / 10 as real,
        billionths(1326),
    );
}

proof fn lemma_first_estimate_errors(
    j00: real,
    j01: real,
    p: real,
    v: real,
    r0: real,
    r1: real,
    p1: real,
    a: real,
    b: real,
    c: real,
    f: real,
    e: real,
    n: real,
    d: real,
    next: real,
    tiny: real,
)
    requires
        is_usual(1 as real, 0 as real, tiny),
        reading::within(j00, 42 as real / 10 as real),
        reading::within(j01, 101 as real / 100 as real),
        reading::within(p, 103 as real / 100 as real),
        p + j00 <= -(99 as real / 100 as real),
        reading::within(v, billionths(30500000)),
        reading::within(r0, billionths(460000)),
        reading::within(r1, billionths(10000)),
        reading::within(p1 - p, billionths(258)),
        reading::within(d - (p + j00), billionths(1600)),
        fits_real(p1) ==> rounded(a, p1 * v, tiny),
        rounded(b, j00 * v, tiny),
        fits_real(a) && fits_real(b) ==> rounded(c, a + b, tiny),
        rounded(f, j01 * r1, tiny),
        fits_real(c) && fits_real(f) ==> rounded(e, c - f, tiny),
        fits_real(e) ==> rounded(n, e - r0, tiny),
        fits_real(n) && fits_real(d) && d != 0 as real && fits_real(n / d) ==> rounded(
            next,
            n / d,
            tiny,
        ),
    ensures
        reading::within((p + j00) * (next - v) + r0 + j01 * r1, billionths(350)),
{
    let pv = p * v;
    let jv = j00 * v;
    let jr = j01 * r1;
    assert(reading::within(pv, billionths(31500000))) by {
        algebra::lemma_product_within(p, v, 103 as real / 100 as real, billionths(30500000));
    }
    assert(reading::within(jv, billionths(128100000))) by {
        algebra::lemma_product_within(j00, v, 42 as real / 10 as real, billionths(30500000));
    }
    assert(reading::within(jr, billionths(10100))) by {
        algebra::lemma_product_within(j01, r1, 101 as real / 100 as real, billionths(10000));
    }
    assert(reading::within(a - pv, billionths(17))) by {
        lemma_product_error(p, p1, v, a, billionths(258), billionths(30500000), tiny);
    }
    assert(reading::within(b - jv, billionths(33))) by {
        lemma_off(b, jv, tiny, billionths(128100000), billionths(33));
    }
    assert(reading::within(c - (pv + jv), billionths(91))) by {
        lemma_off(c, a + b, tiny, billionths(161000000), billionths(41));
    }
    assert(reading::within(f - jr, billionths(1))) by {
        lemma_off(f, jr, tiny, billionths(10100), billionths(1));
    }
    assert(reading::within(e - (pv + jv - jr), billionths(133))) by {
        lemma_off(e, c - f, tiny, billionths(162000000), billionths(41));
    }
    assert(reading::within(n - (pv + jv - jr - r0), billionths(175))) by {
        lemma_off(n, e - r0, tiny, billionths(163000000), billionths(41));
    }
    assert((p + j00) * v == pv + jv) by {
        algebra::lemma_distribute_left(v, p, j00);
    }
    lemma_estimate_error(p + j00, v, pv + jv, -jr - r0, d, n, next, billionths(30500000), tiny);
}

proof fn lemma_second_estimate_errors(
    j00: real,
    j10: real,
    p: real,
    v: real,
    r0: real,
    r1: real,
    p1: real,
    a: real,
    g: real,
    b: real,
    h: real,
    e: real,
    f: real,
    n: real,
    d: real,
    next: real,
    tiny: real,
)
    requires
        is_usual(1 as real, 0 as real, tiny),
        reading::within(j00, 42 as real / 10 as real),
        reading::within(j10, 101 as real / 100 as real),
        reading::within(p, 103 as real / 100 as real),
        p + j00 <= -(99 as real / 100 as real),
        reading::within(v, billionths(41000000)),
        reading::within(r0, billionths(460000)),
        reading::within(r1, billionths(10000)),
        reading::within(p1 - p, billionths(258)),
        reading::within(d - (p + j00), billionths(1600)),
        fits_real(p1) ==> rounded(a, p1 * v, tiny),
        rounded(g, j00 * r1, tiny),
        fits_real(a) && fits_real(g) ==> rounded(b, a + g, tiny),
        rounded(h, j00 * v, tiny),
        fits_real(b) && fits_real(h) ==> rounded(e, b + h, tiny),
        rounded(f, j10 * r0, tiny),
        fits_real(e) && fits_real(f) ==> rounded(n, e - f, tiny),
        fits_real(n) && fits_real(d) && d != 0 as real && fits_real(n / d) ==> rounded(
            next,
            n / d,
            tiny,
        ),
    ensures
        reading::within((p + j00) * (next - v) - j00 * r1 + j10 * r0, billionths(450)),
{
    let pv = p * v;
    let jv = j00 * v;
    let j0r = j00 * r1;
    let j1r = j10 * r0;
    assert(reading::within(pv, billionths(42300000))) by {
        algebra::lemma_product_within(p, v, 103 as real / 100 as real, billionths(41000000));
    }
    assert(reading::within(jv, billionths(172200000))) by {
        algebra::lemma_product_within(j00, v, 42 as real / 10 as real, billionths(41000000));
    }
    assert(reading::within(j0r, billionths(42000))) by {
        algebra::lemma_product_within(j00, r1, 42 as real / 10 as real, billionths(10000));
    }
    assert(reading::within(j1r, billionths(464600))) by {
        algebra::lemma_product_within(j10, r0, 101 as real / 100 as real, billionths(460000));
    }
    assert(reading::within(a - pv, billionths(22))) by {
        lemma_product_error(p, p1, v, a, billionths(258), billionths(41000000), tiny);
    }
    assert(reading::within(g - j0r, billionths(1))) by {
        lemma_off(g, j0r, tiny, billionths(42000), billionths(1));
    }
    assert(reading::within(b - (pv + j0r), billionths(34))) by {
        lemma_off(b, a + g, tiny, billionths(43000000), billionths(11));
    }
    assert(reading::within(h - jv, billionths(44))) by {
        lemma_off(h, jv, tiny, billionths(172200000), billionths(44));
    }
    assert(reading::within(e - (pv + j0r + jv), billionths(132))) by {
        lemma_off(e, b + h, tiny, billionths(215500000), billionths(54));
    }
    assert(reading::within(f - j1r, billionths(1))) by {
        lemma_off(f, j1r, tiny, billionths(464600), billionths(1));
    }
    assert(reading::within(n - (pv + j0r + jv - j1r), billionths(188))) by {
        lemma_off(n, e - f, tiny, billionths(216000000), billionths(55));
    }
    assert((p + j00) * v == pv + jv) by {
        algebra::lemma_distribute_left(v, p, j00);
    }
    lemma_estimate_error(p + j00, v, pv + jv, j0r - j1r, d, n, next, billionths(41000000), tiny);
}

/// A product one of whose factors is off, and that is rounded.
proof fn lemma_product_error(
    p: real,
    p1: real,
    v: real,
    a: real,
    error: real,
    bound: real,
    tiny: real,
)
    requires
        is_usual(1 as real, 0 as real, tiny),
        reading::within(p, 103 as real / 100 as real),
        reading::within(p1 - p, error),
        error == billionths(258),
        reading::within(v, bound),
        bound >= 0 as real,
        bound <= billionths(41000000),
        rounded(a, p1 * v, tiny),
    ensures
        reading::within(a - p * v, error * bound + bound * (26 as real / 100000000 as real) + tiny),
{
    algebra::lemma_distribute_left(v, p1, p);
    algebra::lemma_product_within(p1 - p, v, error, bound);
    algebra::lemma_product_within(p1, v, 104 as real / 100 as real, bound);
    let limit = 104 as real / 100 as real * bound;
    lemma_off(a, p1 * v, tiny, limit, limit / 4000000 as real + tiny);
}

/// How close an estimate comes to solving its equation, where `dv` is the divisor times the estimate
/// before and `rest` what the step adds.
proof fn lemma_estimate_error(
    divisor: real,
    v: real,
    dv: real,
    rest: real,
    d: real,
    n: real,
    next: real,
    bound: real,
    tiny: real,
)
    requires
        is_usual(1 as real, 0 as real, tiny),
        reading::within(divisor, 53 as real / 10 as real),
        divisor <= -(99 as real / 100 as real),
        reading::within(d - divisor, billionths(1600)),
        reading::within(v, bound),
        bound >= 0 as real,
        bound <= billionths(41000000),
        dv == divisor * v,
        reading::within(rest, billionths(520000)),
        reading::within(n - (dv + rest), billionths(190)),
        fits_real(n) && fits_real(d) && d != 0 as real && fits_real(n / d) ==> rounded(
            next,
            n / d,
            tiny,
        ),
    ensures
        reading::within(divisor * (next - v) - rest, billionths(320)),
{
    lemma_division_error(divisor, dv + rest, d, n, next, v, bound, tiny);
    algebra::lemma_distribute(divisor, next, v);
}

/// A quotient whose parts are off, and that is rounded: times the exact divisor it is close to the
/// exact dividend. The quotient is close to `v`.
proof fn lemma_division_error(
    divisor: real,
    dividend: real,
    d: real,
    n: real,
    next: real,
    v: real,
    bound: real,
    tiny: real,
)
    requires
        is_usual(1 as real, 0 as real, tiny),
        reading::within(divisor, 53 as real / 10 as real),
        divisor <= -(99 as real / 100 as real),
        reading::within(d - divisor, billionths(1600)),
        reading::within(v, bound),
        bound >= 0 as real,
        bound <= billionths(41000000),
        reading::within(dividend - divisor * v, billionths(520000)),
        reading::within(n - dividend, billionths(190)),
        fits_real(n) && fits_real(d) && d != 0 as real && fits_real(n / d) ==> rounded(
            next,
            n / d,
            tiny,
        ),
    ensures
        reading::within(divisor * next - n, billionths(130)),
{
    let q = n / d;
    algebra::lemma_quotient(n, d);
    algebra::lemma_commute(d, q);
    algebra::lemma_distribute(d, q, v);
    algebra::lemma_distribute(v, divisor, d);
    algebra::lemma_commute(divisor, v);
    algebra::lemma_commute(d, v);
    algebra::lemma_product_within(v, divisor - d, billionths(41000000), billionths(1600));
    algebra::lemma_product_within(divisor, v, 53 as real / 10 as real, billionths(41000000));
    assert(d * (q - v) == (n - dividend) + (dividend - divisor * v) + v * (divisor - d));
    algebra::lemma_factor_within(d, q - v, 98 as real / 100 as real, billionths(1000000));
    let e = next - q;
    lemma_off(next, q, tiny, billionths(42000000), billionths(11));
    algebra::lemma_distribute(divisor, q, e);
    algebra::lemma_distribute(q, divisor, d);
    algebra::lemma_commute(divisor, q);
    algebra::lemma_product_within(q, divisor - d, billionths(42000000), billionths(1600));
    algebra::lemma_product_within(divisor, e, 53 as real / 10 as real, billionths(11));
    assert(divisor * next == n + q * (divisor - d) + divisor * e);
}

} // verus!
