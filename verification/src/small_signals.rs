//! The saturated filter on small signals: there it does what the linear filter does.

use crate::algebra;
use crate::arithmetic::Arithmetic;
use crate::equations;
use crate::equations::Damping;
use crate::filter::SVF;
use crate::iterates;
use crate::laws;
use crate::linearity;
use crate::newton;
use crate::newton::{Iterate, Jacobian};
use crate::pivotal;
use crate::reading;
use crate::term;
use crate::term::{Function, Reading};
use vstd::prelude::*;

verus! {

/// So many millionths.
#[verifier::inline]
pub open spec fn millionths(n: int) -> real {
    n as real / 1000000 as real
}

/// Whether the gain and the damping are in their usual ranges, and the states and the input are a
/// hundredth at the most.
pub open spec fn is_small<A: Arithmetic>(
    filter: SVF<A>,
    input: A::Num,
    m: Reading<A::Num>,
) -> bool {
    let g = (m.number)(filter.params.g);
    let k = (m.number)(filter.params.res);
    &&& g > 0 as real
    &&& g <= 1 as real
    &&& k >= 0 as real
    &&& k <= 2 as real
    &&& reading::within((m.number)(filter.s[0]), 1 as real / 100 as real)
    &&& reading::within((m.number)(filter.s[1]), 1 as real / 100 as real)
    &&& reading::within((m.number)(input), 1 as real / 100 as real)
}

proof fn lemma_cube_within(x: real, c: real)
    requires
        x >= 0 as real,
        x <= c,
    ensures
        x * x * x <= c * c * c,
{
    algebra::lemma_product_within(x, x, c, c);
    algebra::lemma_product_within(x * x, x, c * c, c);
}

/// How far the hyperbolic tangent lies off its argument.
pub(crate) proof fn lemma_tanh_near<N>(m: Reading<N>, x: real, c: real)
    requires
        reading::is_hyperbolic(m),
        reading::bends_gently(m),
        reading::within(x, c),
    ensures
        reading::within((m.image)(Function::Tanh, x) - x, c * c * c / 3 as real),
{
    let size = if x >= 0 as real {
        x
    } else {
        -x
    };
    lemma_cube_within(size, c);
    reading::lemma_tanh_sign(m, size);
    assert((m.image)(Function::Tanh, -x) == -(m.image)(Function::Tanh, x));
    assert((m.image)(Function::Tanh, size) >= size - size * size * size / 3 as real);
    assert((m.image)(Function::Tanh, size) <= size);
}

/// How far the hyperbolic sine lies off its argument.
pub(crate) proof fn lemma_sinh_near<N>(m: Reading<N>, x: real, c: real)
    requires
        reading::is_hyperbolic(m),
        reading::bends_gently(m),
        reading::within(x, c),
        c <= 1 as real,
    ensures
        reading::within((m.image)(Function::Sinh, x) - x, c * c * c / 5 as real),
{
    let size = if x >= 0 as real {
        x
    } else {
        -x
    };
    lemma_cube_within(size, c);
    reading::lemma_sinh_beyond(m, size);
    assert((m.image)(Function::Sinh, -x) == -(m.image)(Function::Sinh, x));
    assert((m.image)(Function::Sinh, size) <= size + size * size * size / 5 as real);
}

/// How far the inverse hyperbolic sine lies off its argument.
pub(crate) proof fn lemma_asinh_near<N>(m: Reading<N>, x: real, c: real)
    requires
        reading::is_hyperbolic(m),
        reading::bends_gently(m),
        reading::within(x, c),
    ensures
        reading::within((m.image)(Function::Asinh, x) - x, c * c * c / 6 as real),
{
    let size = if x >= 0 as real {
        x
    } else {
        -x
    };
    lemma_cube_within(size, c);
    assert((m.image)(Function::Asinh, -x) == -(m.image)(Function::Asinh, x));
    assert((m.image)(Function::Asinh, size) >= size - size * size * size / 6 as real);
    assert((m.image)(Function::Asinh, size) <= size) by {
        if size == 0 as real {
            assert(-size == size);
        }
    }
}

/// How large the outputs of the linear filter are, and what it hands to its first integrator.
pub(crate) proof fn lemma_linear_bounds(
    g: real,
    k: real,
    s0: real,
    s1: real,
    x: real,
    v0: real,
    v1: real,
)
    requires
        g >= 0 as real,
        g <= 1 as real,
        k >= 0 as real,
        k <= 2 as real,
        reading::within(s0, 1 as real / 100 as real),
        reading::within(s1, 1 as real / 100 as real),
        reading::within(x, 1 as real / 100 as real),
        ({
            let i = 1 as real / (1 as real + g * (g + k));
            v0 == i * s0 + (g * i) * (x - s1)
        }),
        v1 == s1 + g * v0,
    ensures
        reading::within(v0, millionths(30000)),
        reading::within(v1, millionths(40000)),
        reading::within(x - k * v0 - v1, millionths(110000)),
{
    let d = 1 as real + g * (g + k);
    let i = 1 as real / d;
    algebra::lemma_nonnegative_product(g, g + k);
    algebra::lemma_quotient(1 as real, d);
    algebra::lemma_factor_within(d, i, 1 as real, 1 as real);
    algebra::lemma_product_within(g, i, 1 as real, 1 as real);
    algebra::lemma_product_within(i, s0, 1 as real, millionths(10000));
    algebra::lemma_product_within(g * i, x - s1, 1 as real, millionths(20000));
    algebra::lemma_product_within(g, v0, 1 as real, millionths(30000));
    algebra::lemma_product_within(k, v0, 2 as real, millionths(30000));
}

/// Outputs that nearly solve the linear loop leave small residues in the saturated loop.
pub(crate) proof fn lemma_first_residues<N>(
    g: real,
    k: real,
    s0: real,
    s1: real,
    x: real,
    v0: real,
    v1: real,
    error0: real,
    error1: real,
    m: Reading<N>,
)
    requires
        reading::is_hyperbolic(m),
        reading::bends_gently(m),
        g >= 0 as real,
        g <= 1 as real,
        reading::within(v0, millionths(30001)),
        reading::within(x - k * v0 - v1, millionths(110010)),
        reading::within(v0 - (s0 + g * (x - k * v0 - v1)), error0),
        reading::within(v1 - (s1 + g * v0), error1),
    ensures
        ({
            let sinh = (m.image)(Function::Sinh, v0);
            let fb = (m.image)(Function::Tanh, x - ((k - 1 as real) * v0 + sinh) - v1);
            &&& reading::within(g * fb + s0 - v0, millionths(451) + error0)
            &&& reading::within(
                g * (m.image)(Function::Tanh, v0) + s1 - v1,
                9002 as real / 1000000000 as real + error1,
            )
        }),
{
    let w = x - k * v0 - v1;
    let sinh = (m.image)(Function::Sinh, v0);
    let arg = x - ((k - 1 as real) * v0 + sinh) - v1;
    let fb = (m.image)(Function::Tanh, arg);
    let th = (m.image)(Function::Tanh, v0);
    lemma_sinh_near(m, v0, millionths(30001));
    algebra::lemma_distribute_left(v0, k, 1 as real);
    algebra::lemma_unit(1 as real, v0);
    assert(arg == w - (sinh - v0));
    lemma_tanh_near(m, arg, millionths(110100));
    lemma_tanh_near(m, v0, millionths(30001));
    algebra::lemma_distribute(g, fb, w);
    algebra::lemma_product_within(g, fb - w, 1 as real, millionths(451));
    algebra::lemma_distribute(g, th, v0);
    algebra::lemma_product_within(g, th - v0, 1 as real, 9002 as real / 1000000000 as real);
}

/// How far a step goes that removes small residues.
proof fn lemma_step_within(
    j00: real,
    j01: real,
    j10: real,
    r0: real,
    r1: real,
    d0: real,
    d1: real,
)
    requires
        j00 <= -(1 as real),
        reading::within(j01, 1 as real),
        reading::within(j10, 1 as real),
        j01 * j10 + j00 <= j00,
        reading::within(r0, millionths(460)),
        reading::within(r1, millionths(10)),
        r0 + j00 * d0 + j01 * d1 == 0 as real,
        r1 + j10 * d0 - d1 == 0 as real,
    ensures
        reading::within(d0, millionths(500)),
        reading::within(d1, millionths(500)),
{
    let d = j01 * j10 + j00;
    algebra::lemma_distribute(j01, r1, j10 * d0);
    algebra::lemma_associate(j01, j10, d0);
    algebra::lemma_distribute(d0, j01 * j10, j00);
    assert(d * d0 == -(r0 + j01 * r1));
    algebra::lemma_product_within(j01, r1, 1 as real, millionths(10));
    algebra::lemma_factor_within(d, d0, 1 as real, millionths(470));
    algebra::lemma_product_within(j10, d0, 1 as real, millionths(470));
}

/// What a short step leaves of the first residue, where `slack` is what the step leaves along the
/// slopes.
pub(crate) proof fn lemma_next_residue<N>(
    g: real,
    k: real,
    s0: real,
    x: real,
    v0: real,
    v1: real,
    d0: real,
    d1: real,
    slack: real,
    m: Reading<N>,
)
    requires
        reading::is_hyperbolic(m),
        reading::bends_gently(m),
        g >= 0 as real,
        g <= 1 as real,
        k >= 0 as real,
        k <= 2 as real,
        reading::within(v0, millionths(31000)),
        reading::within(d0, millionths(500)),
        reading::within(d1, millionths(500)),
        ({
            let fb = (m.image)(
                Function::Tanh,
                x - ((k - 1 as real) * v0 + (m.image)(Function::Sinh, v0)) - v1,
            );
            let fs = 1 as real - fb * fb;
            let c = (m.image)(Function::Cosh, v0);
            (g * fb + s0 - v0) + (-(1 as real) - g * (k - 1 as real + c) * fs) * d0 + (-(g * fs))
                * d1 == slack
        }),
    ensures
        reading::within(
            g * (m.image)(
                Function::Tanh,
                x - ((k - 1 as real) * (v0 + d0) + (m.image)(Function::Sinh, v0 + d0)) - (v1 + d1),
            ) + s0 - (v0 + d0) - slack,
            millionths(5),
        ),
{
    let c = (m.image)(Function::Cosh, v0);
    let sinh0 = (m.image)(Function::Sinh, v0);
    let sinh1 = (m.image)(Function::Sinh, v0 + d0);
    let w0 = x - ((k - 1 as real) * v0 + sinh0) - v1;
    let w1 = x - ((k - 1 as real) * (v0 + d0) + sinh1) - (v1 + d1);
    let fb0 = (m.image)(Function::Tanh, w0);
    let fb1 = (m.image)(Function::Tanh, w1);
    let q = sinh1 - sinh0 - c * d0;
    let fs = 1 as real - fb0 * fb0;
    assert(c >= 1 as real && c <= 2 as real);
    algebra::lemma_square_below_one(fb0);
    assert(reading::within(q, d0 * d0)) by {
        assert((v0 + d0) - v0 == d0);
    }
    let delta = w1 - w0;
    let t = fb1 - fb0 - fs * delta;
    assert(reading::within(t, delta * delta));
    lemma_residue_after_step(
        g,
        k,
        c,
        fs,
        d0,
        d1,
        q,
        delta,
        t,
        w0,
        w1,
        v0,
        v1,
        x,
        sinh0,
        sinh1,
        fb0,
        fb1,
        s0,
        slack,
    );
}

/// The arithmetic of a short step: what is left is what the tangent and the sine bend away from
/// their slopes.
proof fn lemma_residue_after_step(
    g: real,
    k: real,
    c: real,
    fs: real,
    d0: real,
    d1: real,
    q: real,
    delta: real,
    t: real,
    w0: real,
    w1: real,
    v0: real,
    v1: real,
    x: real,
    sinh0: real,
    sinh1: real,
    fb0: real,
    fb1: real,
    s0: real,
    slack: real,
)
    requires
        g >= 0 as real,
        g <= 1 as real,
        k >= 0 as real,
        k <= 2 as real,
        c >= 1 as real,
        c <= 2 as real,
        fs >= 0 as real,
        fs <= 1 as real,
        reading::within(d0, millionths(500)),
        reading::within(d1, millionths(500)),
        q == sinh1 - sinh0 - c * d0,
        reading::within(q, d0 * d0),
        w0 == x - ((k - 1 as real) * v0 + sinh0) - v1,
        w1 == x - ((k - 1 as real) * (v0 + d0) + sinh1) - (v1 + d1),
        delta == w1 - w0,
        t == fb1 - fb0 - fs * delta,
        reading::within(t, delta * delta),
        (g * fb0 + s0 - v0) + (-(1 as real) - g * (k - 1 as real + c) * fs) * d0 + (-(g * fs)) * d1
            == slack,
    ensures
        reading::within(g * fb1 + s0 - (v0 + d0) - slack, millionths(5)),
{
    let l = (k - 1 as real + c) * d0 + d1;
    algebra::lemma_product_within(d0, d0, millionths(500), millionths(500));
    algebra::lemma_product_within(k - 1 as real + c, d0, 3 as real, millionths(500));
    assert(delta == -l - q) by {
        algebra::lemma_distribute(k - 1 as real, v0, d0);
        algebra::lemma_commute(k - 1 as real + c, d0);
        algebra::lemma_distribute(d0, k - 1 as real, c);
        algebra::lemma_commute(d0, k - 1 as real);
        algebra::lemma_commute(d0, c);
        assert((k - 1 as real + c) * d0 == (k - 1 as real) * d0 + c * d0);
    }
    algebra::lemma_product_within(delta, delta, millionths(2001), millionths(2001));
    algebra::lemma_product_within(fs, q, 1 as real, 250 as real / 1000000000 as real);
    let rest = t - fs * q;
    algebra::lemma_product_within(g, rest, 1 as real, millionths(5));
    assert(g * fb1 + s0 - (v0 + d0) - slack == g * rest) by {
        // the step removes the residue along the slopes
        let p = g * (k - 1 as real + c) * fs;
        assert((-(1 as real) - p) * d0 == -d0 - p * d0) by {
            algebra::lemma_commute(-(1 as real) - p, d0);
            algebra::lemma_distribute(d0, -(1 as real), p);
            algebra::lemma_negated_factor(d0, 1 as real);
        }
        algebra::lemma_negated_factor(d1, g * fs);
        assert(p * d0 + (g * fs) * d1 == g * (fs * l)) by {
            algebra::lemma_associate(g, k - 1 as real + c, fs);
            algebra::lemma_commute(k - 1 as real + c, fs);
            algebra::lemma_associate(g, fs, k - 1 as real + c);
            algebra::lemma_associate(g * fs, k - 1 as real + c, d0);
            algebra::lemma_distribute(g * fs, (k - 1 as real + c) * d0, d1);
            algebra::lemma_associate(g, fs, l);
        }
        // fs * l == -(fs * delta) - fs * q
        algebra::lemma_distribute(fs, 0 as real - delta, q);
        algebra::lemma_distribute(fs, 0 as real, delta);
        assert(l == (0 as real - delta) - q);
        assert(fs * l == -(fs * delta) - fs * q);
        assert(rest == (fb1 - fb0) + fs * l);
        algebra::lemma_distribute(g, fb1 - fb0, fs * l);
        algebra::lemma_distribute(g, fb1, fb0);
    }
}

/// What a short step leaves of the second residue, where `slack` is what the step leaves along the
/// slopes.
pub(crate) proof fn lemma_next_lowpass_residue<N>(
    g: real,
    s1: real,
    v0: real,
    v1: real,
    d0: real,
    d1: real,
    slack: real,
    m: Reading<N>,
)
    requires
        reading::bends_gently(m),
        g >= 0 as real,
        g <= 1 as real,
        reading::within(d0, millionths(500)),
        ({
            let th = (m.image)(Function::Tanh, v0);
            (g * th + s1 - v1) + g * (1 as real - th * th) * d0 - d1 == slack
        }),
    ensures
        reading::within(
            g * (m.image)(Function::Tanh, v0 + d0) + s1 - (v1 + d1) - slack,
            millionths(1),
        ),
{
    let th0 = (m.image)(Function::Tanh, v0);
    let th1 = (m.image)(Function::Tanh, v0 + d0);
    let ts = 1 as real - th0 * th0;
    let t = th1 - th0 - ts * d0;
    assert(reading::within(t, d0 * d0)) by {
        assert((v0 + d0) - v0 == d0);
    }
    algebra::lemma_product_within(d0, d0, millionths(500), millionths(500));
    algebra::lemma_product_within(g, t, 1 as real, millionths(1));
    algebra::lemma_associate(g, ts, d0);
    algebra::lemma_distribute(g, th1 - th0, ts * d0);
    algebra::lemma_distribute(g, th1, th0);
}

/// A step of Newton's method from the linear outputs is short, and settles.
proof fn lemma_small_step<A: Arithmetic>(
    filter: SVF<A>,
    input: A::Num,
    it: Iterate<A::Num>,
    next: Iterate<A::Num>,
    m: Reading<A::Num>,
)
    requires
        term::is_exact::<A>(m),
        reading::is_hyperbolic(m),
        reading::bends_gently(m),
        is_small::<A>(filter, input, m),
        iterates::stands_at_its_estimates::<A>(Damping::Full, filter, input, it),
        newton::newton_step::<A>(Damping::Full, filter, input, it, next),
        reading::within((m.number)(it.v_est[0]), millionths(30000)),
        reading::within((m.number)(it.residue[0]), millionths(460)),
        reading::within((m.number)(it.residue[1]), millionths(10)),
    ensures
        reading::within(
            (m.number)(next.v_est[0]) - (m.number)(it.v_est[0]),
            millionths(500),
        ),
        reading::within(
            (m.number)(next.v_est[1]) - (m.number)(it.v_est[1]),
            millionths(500),
        ),
        iterates::has_small_residues(next, m),
{
    let g = (m.number)(filter.params.g);
    let k = (m.number)(filter.params.res);
    let j = choose|j: Jacobian<A::Num>|
        newton::jacobian_of::<A>(Damping::Full, filter.params.g, filter.params.res, it, j)
            && #[trigger] newton::steps_by::<A>(it, j, next);
    iterates::lemma_iterate_values::<A>(Damping::Full, filter, input, it, m);
    iterates::lemma_iterate_values::<A>(Damping::Full, filter, input, next, m);
    iterates::law_newton_iterates_are_steppable::<A>(Damping::Full, filter, input, it, m);
    iterates::law_newton_step_is_solvable::<A>(Damping::Full, filter, it, j, m);
    iterates::lemma_slopes::<A>(
        Damping::Full,
        filter.params.g,
        filter.params.res,
        it,
        j,
        m,
    );
    laws::law_newton_step_removes_the_linear_residue::<A>(it, j, next, m);
    let fb = (m.number)(it.fb_line);
    let th = (m.number)(it.tanh);
    algebra::lemma_square_below_one(fb);
    algebra::lemma_square_below_one(th);
    algebra::lemma_product_within(g, 1 as real - fb * fb, 1 as real, 1 as real);
    algebra::lemma_product_within(g, 1 as real - th * th, 1 as real, 1 as real);
    let v0 = (m.number)(it.v_est[0]);
    let v1 = (m.number)(it.v_est[1]);
    let d0 = (m.number)(next.v_est[0]) - v0;
    let d1 = (m.number)(next.v_est[1]) - v1;
    lemma_step_within(
        (m.number)(j.j00),
        (m.number)(j.j01),
        (m.number)(j.j10),
        (m.number)(it.residue[0]),
        (m.number)(it.residue[1]),
        d0,
        d1,
    );
    assert((m.number)(next.v_est[0]) == v0 + d0);
    assert((m.number)(next.v_est[1]) == v1 + d1);
    lemma_next_residue(
        g,
        k,
        (m.number)(filter.s[0]),
        (m.number)(input),
        v0,
        v1,
        d0,
        d1,
        0 as real,
        m,
    );
    lemma_next_lowpass_residue(g, (m.number)(filter.s[1]), v0, v1, d0, d1, 0 as real, m);
}

/// On small signals the filter by Newton's method does what the linear filter does, up to a
/// thousandth.
pub proof fn law_newton_filter_is_linear_on_small_signals<A: Arithmetic>(
    pre: SVF<A>,
    input: A::Num,
    post: SVF<A>,
    linear: SVF<A>,
    m: Reading<A::Num>,
)
    requires
        term::is_exact::<A>(m),
        reading::is_hyperbolic(m),
        reading::bends_gently(m),
        is_small::<A>(pre, input, m),
        SVF::<A>::newton_pass(pre, input, post),
        SVF::<A>::linear_pass(pre, input, linear),
    ensures
        reading::within(
            (m.number)(post.vout[0]) - (m.number)(linear.vout[0]),
            1 as real / 1000 as real,
        ),
        reading::within(
            (m.number)(post.vout[1]) - (m.number)(linear.vout[1]),
            1 as real / 1000 as real,
        ),
{
    let (a, b, trace) = choose|a: SVF<A>, b: SVF<A>, trace: Seq<Iterate<A::Num>>| #[trigger]
        SVF::<A>::newton_solution(pre, input, a, b, trace, post);
    let it = trace.first();
    iterates::lemma_damped_is_solvable::<A>(pre, m);
    linearity::lemma_linear_values::<A>(pre, input, linear, m);
    linearity::lemma_linear_values::<A>(pre, input, a, m);
    linearity::lemma_linear_values::<A>(a, input, b, m);
    assert((m.number)(it.v_est[0]) == (m.number)(linear.vout[0]));
    assert((m.number)(it.v_est[1]) == (m.number)(linear.vout[1]));
    laws::law_linear_filter_solves_its_loop::<A>(pre, input, linear, m);
    let g = (m.number)(pre.params.g);
    let k = (m.number)(pre.params.res);
    let s0 = (m.number)(pre.s[0]);
    let s1 = (m.number)(pre.s[1]);
    let x = (m.number)(input);
    let v0 = (m.number)(it.v_est[0]);
    let v1 = (m.number)(it.v_est[1]);
    lemma_linear_bounds(g, k, s0, s1, x, v0, v1);
    lemma_first_residues(g, k, s0, s1, x, v0, v1, 0 as real, 0 as real, m);
    assert(iterates::stands_at_its_estimates::<A>(Damping::Full, pre, input, it));
    iterates::lemma_iterate_values::<A>(Damping::Full, pre, input, it, m);
    if trace.len() > 1 {
        let next = trace[1];
        assert(newton::unsettled::<A>(trace[0]));
        assert(newton::newton_step::<A>(Damping::Full, pre, input, trace[0], trace[0int + 1]));
        lemma_small_step::<A>(pre, input, it, next, m);
        iterates::lemma_settles_where_small::<A>(next, m);
        if trace.len() > 2 {
            assert(newton::unsettled::<A>(trace[1]));
        }
    }
}

/// A line through the origin that meets a function near its argument has a slope near one.
proof fn lemma_slope_near(a: real, e: real, t: real, w: real, c: real)
    requires
        w >= 0 as real,
        c >= 0 as real,
        reading::within(e, c),
        e == 0 as real ==> a == 1 as real,
        e != 0 as real ==> a * e == t,
        e > 0 as real ==> t >= e - e * e * e * w,
        e < 0 as real ==> t <= e - e * e * e * w,
    ensures
        a >= 1 as real - c * c * w,
{
    algebra::lemma_product_within(e, e, c, c);
    algebra::lemma_nonnegative_product(c, c);
    algebra::lemma_nonnegative_product(c * c - e * e, w);
    algebra::lemma_distribute(w, c * c, e * e);
    let f = a - 1 as real + e * e * w;
    if e == 0 as real {
        algebra::lemma_nonnegative_product(c * c, w);
    } else {
        assert(f * e == a * e - e + e * e * e * w) by {
            algebra::lemma_distribute(e, a - 1 as real, e * e * w);
            algebra::lemma_distribute(e, a, 1 as real);
            algebra::lemma_associate(e, e * e, w);
        }
        if f < 0 as real {
            if e > 0 as real {
                algebra::lemma_positive_product(-f, e);
                algebra::lemma_negated_factor(e, f);
            } else {
                algebra::lemma_positive_product(-f, -e);
                algebra::lemma_negated_factor(f, e);
            }
        }
    }
}

/// The difference of the solutions of two equations.
proof fn lemma_difference_of_solutions(
    u: real,
    v: real,
    mass_u: real,
    mass_v: real,
    s: real,
    gain_u: real,
    gain_v: real,
    less: real,
    y: real,
)
    requires
        u * mass_u == s + gain_u * y,
        v * mass_v == s + gain_v * y,
        less == gain_v - gain_u,
    ensures
        (u - v) * mass_v == u * (mass_v - mass_u) - less * y,
{
    algebra::lemma_distribute(u, mass_v, mass_u);
    algebra::lemma_distribute(mass_v, u, v);
    algebra::lemma_distribute(y, gain_v, gain_u);
}

/// The difference between the loop whose saturators are lines and the linear loop.
pub(crate) proof fn lemma_pivoted_near_linear(
    g: real,
    k: real,
    s0: real,
    s1: real,
    x: real,
    a0: real,
    a1: real,
    a2: real,
    u: real,
    v: real,
)
    requires
        g >= 0 as real,
        g <= 1 as real,
        k >= 0 as real,
        k <= 2 as real,
        reading::within(s0, 1 as real / 100 as real),
        reading::within(s1, 1 as real / 100 as real),
        reading::within(x, 1 as real / 100 as real),
        a0 >= 1 as real - millionths(540),
        a0 <= 1 as real + millionths(1),
        a1 >= 1 as real - millionths(34),
        a1 <= 1 as real + millionths(1),
        a2 >= 1 as real - millionths(4),
        a2 <= 1 as real + millionths(4),
        a2 * u == s0 + g * a0 * (x - ((k - 1 as real) * (a2 * u) + u) - (s1 + g * a1 * (a2 * u))),
        v == s0 + g * (x - k * v - (s1 + g * v)),
    ensures
        reading::within(u, millionths(31000)),
        reading::within(u - v, millionths(63)),
{
    let y = x - s1;
    let c0 = 1 as real - a0;
    let c2 = 1 as real - a2;
    let h = g * a1;
    let p = (k - 1 as real) * a2 + 1 as real + h * a2;
    let mass = a2 + (g * a0) * p;
    let n = s0 + (g * a0) * y;
    assert(u * mass == n) by {
        // (k - 1) * (a2 * u) + u + h * (a2 * u) == p * u
        algebra::lemma_associate(k - 1 as real, a2, u);
        algebra::lemma_associate(h, a2, u);
        algebra::lemma_distribute(u, (k - 1 as real) * a2 + 1 as real, h * a2);
        algebra::lemma_distribute(u, (k - 1 as real) * a2, 1 as real);
        assert(p * u == (k - 1 as real) * (a2 * u) + u + h * (a2 * u));
        algebra::lemma_distribute(g * a0, y, p * u);
        algebra::lemma_associate(g * a0, p, u);
        algebra::lemma_distribute(u, a2, (g * a0) * p);
        assert(x - ((k - 1 as real) * (a2 * u) + u) - (s1 + h * (a2 * u)) == y - p * u);
        assert(a2 * u == s0 + (g * a0) * (y - p * u));
        algebra::lemma_commute(u, (g * a0) * p);
        algebra::lemma_commute(u, a2);
    }
    let high = 101 as real / 100 as real;
    assert(p >= -millionths(4) && p <= 3001 as real / 1000 as real) by {
        algebra::lemma_nonnegative_product(g, a1);
        algebra::lemma_product_within(g, a1, 1 as real, 1 as real + millionths(1));
        lemma_feedback_slope(k, a2, h);
    }
    algebra::lemma_nonnegative_product(g, a0);
    algebra::lemma_product_within(g, a0, 1 as real, high);
    assert((g * a0) * p >= -millionths(5)) by {
        algebra::lemma_nonnegative_product(g * a0, p + millionths(4));
        algebra::lemma_distribute(g * a0, p, millionths(4));
        algebra::lemma_product_within(g * a0, millionths(4), high, millionths(4));
    }
    algebra::lemma_product_within(g * a0, y, high, millionths(20000));
    algebra::lemma_factor_within(mass, u, 999 as real / 1000 as real, millionths(31000));
    // The linear loop, brought to the same form.
    let r = k + g;
    let linear_mass = 1 as real + g * r;
    let linear_n = s0 + g * y;
    assert(v * linear_mass == linear_n) by {
        algebra::lemma_distribute(v, k, g);
        assert(r * v == k * v + g * v);
        algebra::lemma_distribute(g, y, r * v);
        algebra::lemma_associate(g, r, v);
        algebra::lemma_distribute(v, 1 as real, g * r);
        assert(x - k * v - (s1 + g * v) == y - r * v);
    }
    lemma_masses_near(g, k, a0, a1, a2, p, r);
    let gap = linear_mass - mass;
    assert(g * c0 == g - g * a0) by {
        algebra::lemma_distribute(g, 1 as real, a0);
    }
    lemma_difference_of_solutions(u, v, mass, linear_mass, s0, g * a0, g, g * c0, y);
    algebra::lemma_product_within(u, gap, millionths(31000), millionths(1670));
    algebra::lemma_product_within(g, c0, 1 as real, millionths(540));
    algebra::lemma_product_within(g * c0, y, millionths(540), millionths(20000));
    algebra::lemma_nonnegative_product(g, r);
    algebra::lemma_factor_within(linear_mass, u - v, 1 as real, millionths(63));
}

/// The slope of what the loop feeds back, over the damping signal.
proof fn lemma_feedback_slope(k: real, a2: real, h: real)
    requires
        k >= 0 as real,
        k <= 2 as real,
        a2 >= 1 as real - millionths(4),
        a2 <= 1 as real + millionths(4),
        h >= 0 as real,
        h <= 1 as real + millionths(1),
    ensures
        (k - 1 as real) * a2 + 1 as real + h * a2 >= -millionths(4),
        (k - 1 as real) * a2 + 1 as real + h * a2 <= 3001 as real / 1000 as real,
{
    algebra::lemma_distribute_left(a2, k, 1 as real);
    algebra::lemma_unit(1 as real, a2);
    algebra::lemma_nonnegative_product(k, a2);
    let high = 10001 as real / 10000 as real;
    algebra::lemma_product_within(k - 1 as real, a2, 1 as real, high);
    algebra::lemma_nonnegative_product(h, a2);
    algebra::lemma_product_within(h, a2, high, high);
}

/// How far the denominators of the two loops are apart.
proof fn lemma_masses_near(g: real, k: real, a0: real, a1: real, a2: real, p: real, r: real)
    requires
        g >= 0 as real,
        g <= 1 as real,
        k >= 0 as real,
        k <= 2 as real,
        a0 >= 1 as real - millionths(540),
        a0 <= 1 as real + millionths(1),
        a1 >= 1 as real - millionths(34),
        a1 <= 1 as real + millionths(1),
        a2 >= 1 as real - millionths(4),
        a2 <= 1 as real + millionths(4),
        p == (k - 1 as real) * a2 + 1 as real + (g * a1) * a2,
        p >= -millionths(4),
        p <= 3001 as real / 1000 as real,
        r == k + g,
    ensures
        reading::within(
            (1 as real + g * r) - (a2 + (g * a0) * p),
            millionths(1670),
        ),
{
    let c0 = 1 as real - a0;
    let c1 = 1 as real - a1;
    let c2 = 1 as real - a2;
    // r - p == (k - 1) * c2 + g * (1 - a1 * a2)
    let e = 1 as real - a1 * a2;
    assert(e == c1 + a1 * c2) by {
        algebra::lemma_distribute(a1, 1 as real, a2);
    }
    algebra::lemma_product_within(a1, c2, 101 as real / 100 as real, millionths(4));
    algebra::lemma_product_within(k - 1 as real, c2, 1 as real, millionths(4));
    algebra::lemma_product_within(g, e, 1 as real, millionths(39));
    assert(r - p == (k - 1 as real) * c2 + g * e) by {
        algebra::lemma_distribute(k - 1 as real, 1 as real, a2);
        algebra::lemma_distribute(g, 1 as real, a1 * a2);
        algebra::lemma_associate(g, a1, a2);
    }
    // g * r - (g * a0) * p == g * ((r - p) + c0 * p)
    algebra::lemma_product_within(c0, p, millionths(540), 3001 as real / 1000 as real);
    let f = (r - p) + c0 * p;
    assert(f == r - a0 * p) by {
        algebra::lemma_commute(c0, p);
        algebra::lemma_distribute(p, 1 as real, a0);
    }
    assert(g * r - (g * a0) * p == g * f) by {
        algebra::lemma_distribute(g, r, a0 * p);
        algebra::lemma_associate(g, a0, p);
    }
    algebra::lemma_product_within(g, f, 1 as real, millionths(1666));
}

/// How far the slope of the line that stands for a saturator is from one.
proof fn lemma_saturator_slope_near<A: Arithmetic>(
    e: A::Num,
    a: A::Num,
    c: real,
    m: Reading<A::Num>,
)
    requires
        term::is_exact::<A>(m),
        reading::is_hyperbolic(m),
        reading::bends_gently(m),
        pivotal::pivots::<A>(e, equations::saturator_slope(term::val(e)), a),
        c >= 0 as real,
        reading::within((m.number)(e), c),
    ensures
        (m.number)(a) >= 1 as real - c * c * (1 as real / 3 as real),
{
    laws::law_pivots_meet_the_saturator::<A>(e, a, m);
    let x = (m.number)(e);
    let t = (m.image)(Function::Tanh, x);
    assert(x > 0 as real ==> t >= x - x * x * x / 3 as real);
    assert((m.image)(Function::Tanh, -x) == -t);
    assert(x < 0 as real ==> -t >= -x - (-x) * (-x) * (-x) / 3 as real);
    algebra::lemma_negated_factor(x, x);
    algebra::lemma_negated_factor(x * x, x);
    lemma_slope_near((m.number)(a), x, t, 1 as real / 3 as real, c);
}

/// How far the slope of the line that stands for the inverse of the diode anti-saturator is from
/// one.
proof fn lemma_clipper_slope_near<A: Arithmetic>(e: A::Num, a: A::Num, c: real, m: Reading<A::Num>)
    requires
        term::is_exact::<A>(m),
        reading::is_hyperbolic(m),
        reading::bends_gently(m),
        pivotal::pivots::<A>(e, equations::clipper_slope(term::val(e)), a),
        c >= 0 as real,
        reading::within((m.number)(e), 4 as real * c),
    ensures
        (m.number)(a) >= 1 as real - c * c * (1 as real / 6 as real),
{
    laws::law_pivots_meet_the_clipper::<A>(e, a, m);
    let x = (m.number)(e) / 4 as real;
    let t = (m.image)(Function::Asinh, x);
    assert(x > 0 as real ==> t >= x - x * x * x / 6 as real);
    assert((m.image)(Function::Asinh, -x) == -t);
    assert(x < 0 as real ==> -t >= -x - (-x) * (-x) * (-x) / 6 as real);
    algebra::lemma_negated_factor(x, x);
    algebra::lemma_negated_factor(x * x, x);
    assert(x != 0 as real ==> (m.number)(a) * x == t) by {
        assert((m.number)(a) * (m.number)(e) == 4 as real * ((m.number)(a) * x)) by {
            let w = (m.number)(a);
            assert((m.number)(e) == x + x + x + x);
            algebra::lemma_distribute(w, x + x, x + x);
            algebra::lemma_distribute(w, x, x);
        }
    }
    lemma_slope_near((m.number)(a), x, t, 1 as real / 6 as real, c);
}

/// What the first integrator of the fixed-pivot method is expected to be handed is small.
proof fn lemma_small_estimate<A: Arithmetic>(
    pre: SVF<A>,
    input: A::Num,
    e0: A::Num,
    a0: A::Num,
    a1: A::Num,
    a2: A::Num,
    m: Reading<A::Num>,
)
    requires
        term::is_exact::<A>(m),
        is_small::<A>(pre, input, m),
        SVF::<A>::pivot_slopes(pre, input, e0, a0, a1, a2),
        (m.number)(a2) > 0 as real,
        (m.number)(a2) <= 1 as real,
    ensures
        reading::within((m.number)(e0), millionths(40000)),
{
    let k = (m.number)(pre.params.res);
    let s0 = (m.number)(pre.s[0]);
    let slope = (m.number)(a2);
    iterates::lemma_pivot_estimate_value::<A>(pre, input, e0, a2, m);
    algebra::lemma_distribute(s0, slope, k - 1 as real);
    algebra::lemma_commute(s0, k - 1 as real);
    algebra::lemma_product_within(s0, slope + (k - 1 as real), millionths(10000), 2 as real);
}

/// On small signals the fixed-pivot filter does what the linear filter does, up to a
/// ten-thousandth.
pub proof fn law_fixed_pivot_filter_is_linear_on_small_signals<A: Arithmetic>(
    pre: SVF<A>,
    input: A::Num,
    post: SVF<A>,
    linear: SVF<A>,
    m: Reading<A::Num>,
)
    requires
        term::is_exact::<A>(m),
        reading::is_hyperbolic(m),
        reading::bends_gently(m),
        is_small::<A>(pre, input, m),
        SVF::<A>::pivotal_pass(pre, input, post),
        SVF::<A>::linear_pass(pre, input, linear),
    ensures
        reading::within(
            (m.number)(post.vout[0]) - (m.number)(linear.vout[0]),
            1 as real / 10000 as real,
        ),
        reading::within(
            (m.number)(post.vout[1]) - (m.number)(linear.vout[1]),
            1 as real / 10000 as real,
        ),
{
    let g = (m.number)(pre.params.g);
    let k = (m.number)(pre.params.res);
    let s0 = (m.number)(pre.s[0]);
    let s1 = (m.number)(pre.s[1]);
    let x = (m.number)(input);
    let (e0, a0, a1, a2) = choose|e0: A::Num, a0: A::Num, a1: A::Num, a2: A::Num| #[trigger]
        SVF::<A>::pivotal_solution(pre, input, e0, a0, a1, a2, post);
    laws::lemma_slopes_between::<A>(pre, input, e0, a0, a1, a2, m);
    laws::lemma_pivotal_solvable(g, k, (m.number)(a0), (m.number)(a1), (m.number)(a2));
    let u = laws::lemma_pivotal_values::<A>(pre, input, e0, a0, a1, a2, post, m);
    lemma_small_estimate::<A>(pre, input, e0, a0, a1, a2, m);
    lemma_saturator_slope_near::<A>(e0, a0, millionths(40000), m);
    lemma_saturator_slope_near::<A>(pre.s[0], a1, millionths(10000), m);
    lemma_clipper_slope_near::<A>(pre.s[0], a2, millionths(2500), m);
    iterates::lemma_damped_is_solvable::<A>(pre, m);
    laws::law_linear_filter_solves_its_loop::<A>(pre, input, linear, m);
    linearity::lemma_linear_values::<A>(pre, input, linear, m);
    let v0 = (m.number)(linear.vout[0]);
    let v1 = (m.number)(linear.vout[1]);
    lemma_linear_bounds(g, k, s0, s1, x, v0, v1);
    lemma_pivoted_near_linear(
        g,
        k,
        s0,
        s1,
        x,
        (m.number)(a0),
        (m.number)(a1),
        (m.number)(a2),
        u,
        v0,
    );
    lemma_asinh_near(m, u, millionths(31000));
    let out0 = (m.number)(post.vout[0]);
    assert(reading::within(out0 - v0, millionths(68)));
    lemma_lowpass_near(g, (m.number)(a1), out0, v0);
}

/// How far the low-pass stages are apart.
pub(crate) proof fn lemma_lowpass_near(g: real, a1: real, out0: real, v0: real)
    requires
        g >= 0 as real,
        g <= 1 as real,
        a1 >= 1 as real - millionths(34),
        a1 <= 1 as real + millionths(1),
        reading::within(out0 - v0, millionths(76)),
        reading::within(v0, millionths(30000)),
    ensures
        reading::within(g * a1 * out0 - g * v0, millionths(80)),
{
    let c1 = 1 as real - a1;
    algebra::lemma_distribute(g, 1 as real, a1);
    lemma_difference_of_lowpasses(g * a1, g * c1, g, out0, v0);
    let high = 1001 as real / 1000 as real;
    algebra::lemma_product_within(g, a1, 1 as real, high);
    algebra::lemma_product_within(g * a1, out0 - v0, high, millionths(76));
    algebra::lemma_product_within(g, c1, 1 as real, millionths(34));
    algebra::lemma_product_within(g * c1, v0, millionths(34), millionths(30000));
}

proof fn lemma_difference_of_lowpasses(p: real, q: real, g: real, out0: real, v0: real)
    requires
        p + q == g,
    ensures
        p * out0 - g * v0 == p * (out0 - v0) - q * v0,
{
    algebra::lemma_distribute(p, out0, v0);
    algebra::lemma_distribute(v0, p, q);
}

} // verus!
