//! The filter by Newton's method on small signals, in an arithmetic that rounds: there, too, it does
//! what the linear filter does.

use crate::algebra;
use crate::arithmetic::Arithmetic;
use crate::equations::Damping;
use crate::filter::SVF;
use crate::iterates;
use crate::newton;
use crate::newton::{Iterate, Jacobian};
use crate::reading;
use crate::rounding;
use crate::small_signals;
use crate::term;
use crate::term::{Function, Reading, Term};
use vstd::prelude::*;

verus! {

/// The equations that a step nearly solves, from the two estimates that it computes.
proof fn lemma_nearly_solved(
    j00: real,
    j01: real,
    j10: real,
    p: real,
    r0: real,
    r1: real,
    d0: real,
    d1: real,
)
    requires
        rounding::is_small_jacobian(j00, j01, j10, p),
        reading::within((p + j00) * d0 + r0 + j01 * r1, rounding::billionths(350)),
        reading::within((p + j00) * d1 - j00 * r1 + j10 * r0, rounding::billionths(450)),
    ensures
        reading::within(r0 + j00 * d0 + j01 * d1, rounding::billionths(1950)),
        reading::within(r1 + j10 * d0 - d1, rounding::billionths(820)),
{
    let d = p + j00;
    let e0 = d * d0 + r0 + j01 * r1;
    let e1 = d * d1 - j00 * r1 + j10 * r0;
    let a = r0 + j00 * d0 + j01 * d1;
    let b = r1 + j10 * d0 - d1;
    assert(d * a == j00 * e0 + j01 * e1) by {
        algebra::lemma_distribute(d, r0 + j00 * d0, j01 * d1);
        algebra::lemma_distribute(d, r0, j00 * d0);
        algebra::lemma_distribute(j00, d * d0 + r0, j01 * r1);
        algebra::lemma_distribute(j00, d * d0, r0);
        algebra::lemma_distribute(j01, d * d1 - j00 * r1, j10 * r0);
        algebra::lemma_distribute(j01, d * d1, j00 * r1);
        lemma_swap(d, j00, d0);
        lemma_swap(d, j01, d1);
        lemma_swap(j00, j01, r1);
        algebra::lemma_associate(j01, j10, r0);
        algebra::lemma_distribute_left(r0, p, j00);
    }
    assert(d * b == j10 * e0 - e1) by {
        algebra::lemma_distribute(d, r1 + j10 * d0, d1);
        algebra::lemma_distribute(d, r1, j10 * d0);
        algebra::lemma_distribute(j10, d * d0 + r0, j01 * r1);
        algebra::lemma_distribute(j10, d * d0, r0);
        lemma_swap(d, j10, d0);
        lemma_swap(j10, j01, r1);
        algebra::lemma_associate(j01, j10, r1);
        algebra::lemma_distribute_left(r1, p, j00);
    }
    algebra::lemma_product_within(j00, e0, 42 as real / 10 as real, rounding::billionths(350));
    algebra::lemma_product_within(j01, e1, 101 as real / 100 as real, rounding::billionths(450));
    algebra::lemma_product_within(j10, e0, 101 as real / 100 as real, rounding::billionths(350));
    algebra::lemma_factor_within(d, a, 99 as real / 100 as real, rounding::billionths(1950));
    algebra::lemma_factor_within(d, b, 99 as real / 100 as real, rounding::billionths(820));
}

/// The first two factors of a product can change places.
proof fn lemma_swap(a: real, b: real, c: real)
    ensures
        a * (b * c) == b * (a * c),
{
    algebra::lemma_associate(a, b, c);
    algebra::lemma_associate(b, a, c);
    algebra::lemma_commute(a, b);
}

/// How far a step goes.
proof fn lemma_rounded_step_within(
    j00: real,
    j01: real,
    j10: real,
    p: real,
    r0: real,
    r1: real,
    d0: real,
    d1: real,
)
    requires
        rounding::is_small_jacobian(j00, j01, j10, p),
        reading::within(r0, rounding::billionths(460000)),
        reading::within(r1, rounding::billionths(10000)),
        reading::within((p + j00) * d0 + r0 + j01 * r1, rounding::billionths(350)),
        reading::within(r1 + j10 * d0 - d1, rounding::billionths(820)),
    ensures
        reading::within(d0, rounding::billionths(480000)),
        reading::within(d1, rounding::billionths(500000)),
{
    algebra::lemma_product_within(j01, r1, 101 as real / 100 as real, rounding::billionths(10000));
    algebra::lemma_factor_within(
        p + j00,
        d0,
        99 as real / 100 as real,
        rounding::billionths(480000),
    );
    algebra::lemma_product_within(j10, d0, 101 as real / 100 as real, rounding::billionths(480000));
}

/// Entries near the slopes are of the size that small signals give them.
proof fn lemma_small_jacobian(
    g: real,
    k: real,
    c: real,
    fs: real,
    ts: real,
    j00: real,
    j01: real,
    j10: real,
)
    requires
        g > 0 as real,
        g <= 1 as real,
        k >= 0 as real,
        k <= 2 as real,
        c >= 1 as real,
        c <= 2 as real,
        fs >= 0 as real,
        fs <= 1 as real,
        ts >= 0 as real,
        ts <= 1 as real,
        reading::within(
            j00 - (-(1 as real) - g * (k - 1 as real + c) * fs),
            rounding::billionths(17000),
        ),
        reading::within(j01 + g * fs, rounding::billionths(2500)),
        reading::within(j10 - g * ts, rounding::billionths(520)),
    ensures
        rounding::is_small_jacobian(j00, j01, j10, j01 * j10),
        g * fs >= 0 as real,
        g * fs <= 1 as real,
        g * ts >= 0 as real,
        g * ts <= 1 as real,
{
    let kc = k - 1 as real + c;
    let a = g * fs;
    let b = g * ts;
    algebra::lemma_nonnegative_product(g, fs);
    algebra::lemma_product_within(g, fs, 1 as real, 1 as real);
    algebra::lemma_nonnegative_product(g, ts);
    algebra::lemma_product_within(g, ts, 1 as real, 1 as real);
    algebra::lemma_nonnegative_product(g, kc);
    algebra::lemma_product_within(g, kc, 1 as real, 3 as real);
    algebra::lemma_nonnegative_product(g * kc, fs);
    algebra::lemma_product_within(g * kc, fs, 3 as real, 1 as real);
    algebra::lemma_product_within(j01, j10, 101 as real / 100 as real, 101 as real / 100 as real);
    // j01 * j10 == (j01 + a) * j10 - a * (j10 - b) - a * b
    algebra::lemma_distribute_left(j10, j01, a);
    algebra::lemma_distribute(a, j10, b);
    algebra::lemma_nonnegative_product(a, b);
    algebra::lemma_product_within(
        j01 + a,
        j10,
        rounding::billionths(2500),
        101 as real / 100 as real,
    );
    algebra::lemma_product_within(a, j10 - b, 1 as real, rounding::billionths(520));
}

/// What the step leaves along the slopes at the estimates, from what it leaves along the entries of
/// the Jacobian as computed.
proof fn lemma_slack(
    g: real,
    kc: real,
    s0: real,
    v0: real,
    fb: real,
    exact_fb: real,
    r0: real,
    j00: real,
    j01: real,
    d0: real,
    d1: real,
)
    requires
        g > 0 as real,
        g <= 1 as real,
        kc >= 0 as real,
        kc <= 3 as real,
        reading::within(exact_fb, rounding::billionths(124000000)),
        reading::within(fb, rounding::billionths(124000000)),
        reading::within(fb - exact_fb, rounding::billionths(130)),
        reading::within(r0 - (g * fb + s0 - v0), rounding::billionths(120)),
        reading::within(
            j00 - (-(1 as real) - g * kc * (1 as real - fb * fb)),
            rounding::billionths(17000),
        ),
        reading::within(j01 + g * (1 as real - fb * fb), rounding::billionths(2500)),
        reading::within(d0, rounding::billionths(480000)),
        reading::within(d1, rounding::billionths(500000)),
        reading::within(r0 + j00 * d0 + j01 * d1, rounding::billionths(1950)),
    ensures
        ({
            let fs = 1 as real - exact_fb * exact_fb;
            reading::within(
                (g * exact_fb + s0 - v0) + (-(1 as real) - g * kc * fs) * d0 + (-(g * fs)) * d1,
                rounding::billionths(2300),
            )
        }),
{
    let fs = 1 as real - exact_fb * exact_fb;
    let fc = 1 as real - fb * fb;
    assert(reading::within(fc - fs, rounding::billionths(33))) by {
        // fb * fb - exact_fb * exact_fb == (fb - exact_fb) * (fb + exact_fb)
        algebra::lemma_product_within(
            fb - exact_fb,
            fb + exact_fb,
            rounding::billionths(130),
            rounding::billionths(248000000),
        );
        algebra::lemma_distribute(fb - exact_fb, fb, exact_fb);
        algebra::lemma_distribute_left(fb, fb, exact_fb);
        algebra::lemma_distribute_left(exact_fb, fb, exact_fb);
        algebra::lemma_commute(fb, exact_fb);
    }
    let a = g * kc;
    assert(reading::within(a, 3 as real)) by {
        algebra::lemma_product_within(g, kc, 1 as real, 3 as real);
    }
    let e00 = -(1 as real) - a * fs;
    let e01 = -(g * fs);
    assert(reading::within(j00 - e00, rounding::billionths(17100))) by {
        algebra::lemma_distribute(a, fc, fs);
        algebra::lemma_product_within(a, fc - fs, 3 as real, rounding::billionths(33));
    }
    assert(reading::within(j01 - e01, rounding::billionths(2540))) by {
        algebra::lemma_distribute(g, fc, fs);
        algebra::lemma_product_within(g, fc - fs, 1 as real, rounding::billionths(33));
    }
    assert(reading::within(g * fb - g * exact_fb, rounding::billionths(130))) by {
        algebra::lemma_distribute(g, fb, exact_fb);
        algebra::lemma_product_within(g, fb - exact_fb, 1 as real, rounding::billionths(130));
    }
    assert(reading::within(j00 * d0 - e00 * d0, rounding::billionths(9))) by {
        algebra::lemma_distribute_left(d0, j00, e00);
        algebra::lemma_product_within(
            j00 - e00,
            d0,
            rounding::billionths(17100),
            rounding::billionths(480000),
        );
    }
    assert(reading::within(j01 * d1 - e01 * d1, rounding::billionths(2))) by {
        algebra::lemma_distribute_left(d1, j01, e01);
        algebra::lemma_product_within(
            j01 - e01,
            d1,
            rounding::billionths(2540),
            rounding::billionths(500000),
        );
    }
}

/// The same for the low-pass stage.
proof fn lemma_lowpass_slack(
    g: real,
    s1: real,
    v1: real,
    th: real,
    exact_th: real,
    r1: real,
    j10: real,
    d0: real,
    d1: real,
)
    requires
        g > 0 as real,
        g <= 1 as real,
        reading::within(th - exact_th, rounding::billionths(9)),
        reading::within(r1 - (g * th + s1 - v1), rounding::billionths(120)),
        reading::within(
            j10 - g * (1 as real - exact_th * exact_th),
            rounding::billionths(520),
        ),
        reading::within(d0, rounding::billionths(480000)),
        reading::within(r1 + j10 * d0 - d1, rounding::billionths(820)),
    ensures
        reading::within(
            (g * exact_th + s1 - v1) + g * (1 as real - exact_th * exact_th) * d0 - d1,
            rounding::billionths(960),
        ),
{
    let e = g * (1 as real - exact_th * exact_th);
    assert(reading::within(g * th - g * exact_th, rounding::billionths(9))) by {
        algebra::lemma_distribute(g, th, exact_th);
        algebra::lemma_product_within(g, th - exact_th, 1 as real, rounding::billionths(9));
    }
    assert(reading::within(j10 * d0 - e * d0, rounding::billionths(1))) by {
        algebra::lemma_distribute_left(d0, j10, e);
        algebra::lemma_product_within(
            j10 - e,
            d0,
            rounding::billionths(520),
            rounding::billionths(480000),
        );
    }
}

/// A residue that is clearly small enough is found to be.
proof fn lemma_rounded_outcome<A: Arithmetic>(residue: A::Num, m: Reading<A::Num>, tiny: real)
    requires
        rounding::rounds::<A>(m, tiny),
        rounding::is_usual(1 as real, 0 as real, tiny),
        reading::within((m.number)(residue), rounding::billionths(9000)),
    ensures
        !newton::exceeds_error::<A>(residue, true),
{
    if newton::exceeds_error::<A>(residue, true) {
        let (size, max_error) = choose|size: A::Num, max_error: A::Num|
            {
                &&& term::yields::<A>(term::val(residue).abs(), size)
                &&& term::yields::<A>(Term::Decimal(1, 5), max_error)
                &&& #[trigger] call_ensures(A::exceeds, (size, max_error), true)
            };
        let r = term::lemma_image::<A>(Function::Abs, term::val(residue), size);
        rounding::lemma_off(
            (m.number)(max_error),
            1 as real / 100000 as real,
            tiny,
            1 as real / 100000 as real,
            rounding::billionths(1),
        );
    }
}

/// A step of Newton's method from outputs near the linear ones is short, and settles.
proof fn lemma_rounded_small_step<A: Arithmetic>(
    filter: SVF<A>,
    input: A::Num,
    it: Iterate<A::Num>,
    next: Iterate<A::Num>,
    m: Reading<A::Num>,
    tiny: real,
)
    requires
        rounding::rounds::<A>(m, tiny),
        reading::is_hyperbolic(m),
        reading::bends_gently(m),
        rounding::is_usual((m.number)(filter.params.g), (m.number)(filter.params.res), tiny),
        small_signals::is_small::<A>(filter, input, m),
        iterates::stands_at_its_estimates::<A>(Damping::Full, filter, input, it),
        newton::newton_step::<A>(Damping::Full, filter, input, it, next),
        reading::within((m.number)(it.v_est[0]), rounding::billionths(30500000)),
        reading::within((m.number)(it.v_est[1]), rounding::billionths(41000000)),
        reading::within((m.number)(it.residue[0]), rounding::billionths(460000)),
        reading::within((m.number)(it.residue[1]), rounding::billionths(10000)),
    ensures
        reading::within(
            (m.number)(next.v_est[0]) - (m.number)(it.v_est[0]),
            rounding::billionths(500000),
        ),
        reading::within(
            (m.number)(next.v_est[1]) - (m.number)(it.v_est[1]),
            rounding::billionths(500000),
        ),
        !newton::unsettled::<A>(next),
{
    let g = (m.number)(filter.params.g);
    let k = (m.number)(filter.params.res);
    let s0 = (m.number)(filter.s[0]);
    let s1 = (m.number)(filter.s[1]);
    let x = (m.number)(input);
    let v0 = (m.number)(it.v_est[0]);
    let v1 = (m.number)(it.v_est[1]);
    let d0 = (m.number)(next.v_est[0]) - v0;
    let d1 = (m.number)(next.v_est[1]) - v1;
    let r0 = (m.number)(it.residue[0]);
    let r1 = (m.number)(it.residue[1]);
    let fb = (m.number)(it.fb_line);
    let th = (m.number)(it.tanh);
    let c = (m.image)(Function::Cosh, v0);
    let sinh = (m.image)(Function::Sinh, v0);
    let exact_th = (m.image)(Function::Tanh, v0);
    let w = x - ((k - 1 as real) * v0 + sinh) - v1;
    let exact_fb = (m.image)(Function::Tanh, w);
    let j = choose|j: Jacobian<A::Num>|
        newton::jacobian_of::<A>(Damping::Full, filter.params.g, filter.params.res, it, j)
            && #[trigger] newton::steps_by::<A>(it, j, next);
    rounding::lemma_rounded_iterate::<A>(filter, input, it, m, tiny);
    rounding::lemma_rounded_jacobian::<A>(filter, it, j, m, tiny);
    let j00 = (m.number)(j.j00);
    let j01 = (m.number)(j.j01);
    let j10 = (m.number)(j.j10);
    let p = j01 * j10;
    let fs = 1 as real - fb * fb;
    let ts = 1 as real - exact_th * exact_th;
    assert(c >= 1 as real && c <= 2 as real);
    algebra::lemma_square_below_one(exact_th);
    lemma_small_jacobian(g, k, c, fs, ts, j00, j01, j10);
    rounding::lemma_rounded_step::<A>(it, j, next, m, tiny);
    lemma_nearly_solved(j00, j01, j10, p, r0, r1, d0, d1);
    lemma_rounded_step_within(j00, j01, j10, p, r0, r1, d0, d1);
    assert(reading::within(exact_fb, rounding::billionths(124000000))) by {
        small_signals::lemma_tanh_near(m, w, rounding::billionths(122000000));
    }
    rounding::lemma_off(
        th,
        exact_th,
        0 as real,
        rounding::billionths(33000000),
        rounding::billionths(9),
    );
    lemma_slack(g, k - 1 as real + c, s0, v0, fb, exact_fb, r0, j00, j01, d0, d1);
    lemma_lowpass_slack(g, s1, v1, th, exact_th, r1, j10, d0, d1);
    lemma_rounded_settles::<A>(filter, input, it, next, m, tiny);
}

/// The residues after a short step are small enough.
proof fn lemma_rounded_settles<A: Arithmetic>(
    filter: SVF<A>,
    input: A::Num,
    it: Iterate<A::Num>,
    next: Iterate<A::Num>,
    m: Reading<A::Num>,
    tiny: real,
)
    requires
        rounding::rounds::<A>(m, tiny),
        reading::is_hyperbolic(m),
        reading::bends_gently(m),
        rounding::is_usual((m.number)(filter.params.g), (m.number)(filter.params.res), tiny),
        small_signals::is_small::<A>(filter, input, m),
        iterates::stands_at_its_estimates::<A>(Damping::Full, filter, input, next),
        reading::within((m.number)(it.v_est[0]), rounding::billionths(30500000)),
        reading::within((m.number)(it.v_est[1]), rounding::billionths(41000000)),
        ({
            let g = (m.number)(filter.params.g);
            let k = (m.number)(filter.params.res);
            let v0 = (m.number)(it.v_est[0]);
            let v1 = (m.number)(it.v_est[1]);
            let d0 = (m.number)(next.v_est[0]) - v0;
            let d1 = (m.number)(next.v_est[1]) - v1;
            let c = (m.image)(Function::Cosh, v0);
            let th = (m.image)(Function::Tanh, v0);
            let fb = (m.image)(
                Function::Tanh,
                (m.number)(input) - ((k - 1 as real) * v0 + (m.image)(Function::Sinh, v0)) - v1,
            );
            let fs = 1 as real - fb * fb;
            &&& reading::within(d0, rounding::billionths(480000))
            &&& reading::within(d1, rounding::billionths(500000))
            &&& reading::within(
                (g * fb + (m.number)(filter.s[0]) - v0) + (-(1 as real) - g * (k - 1 as real + c)
                    * fs) * d0 + (-(g * fs)) * d1,
                rounding::billionths(2300),
            )
            &&& reading::within(
                (g * th + (m.number)(filter.s[1]) - v1) + g * (1 as real - th * th) * d0 - d1,
                rounding::billionths(960),
            )
        }),
    ensures
        !newton::unsettled::<A>(next),
{
    let g = (m.number)(filter.params.g);
    let k = (m.number)(filter.params.res);
    let s0 = (m.number)(filter.s[0]);
    let s1 = (m.number)(filter.s[1]);
    let x = (m.number)(input);
    let v0 = (m.number)(it.v_est[0]);
    let v1 = (m.number)(it.v_est[1]);
    let n0 = (m.number)(next.v_est[0]);
    let n1 = (m.number)(next.v_est[1]);
    let d0 = n0 - v0;
    let d1 = n1 - v1;
    let c = (m.image)(Function::Cosh, v0);
    let th = (m.image)(Function::Tanh, v0);
    let fb = (m.image)(
        Function::Tanh,
        x - ((k - 1 as real) * v0 + (m.image)(Function::Sinh, v0)) - v1,
    );
    let fs = 1 as real - fb * fb;
    let slack0 = (g * fb + s0 - v0) + (-(1 as real) - g * (k - 1 as real + c) * fs) * d0 + (-(g
        * fs)) * d1;
    let slack1 = (g * th + s1 - v1) + g * (1 as real - th * th) * d0 - d1;
    assert(n0 == v0 + d0);
    assert(n1 == v1 + d1);
    small_signals::lemma_next_residue(g, k, s0, x, v0, v1, d0, d1, slack0, m);
    small_signals::lemma_next_lowpass_residue(g, s1, v0, v1, d0, d1, slack1, m);
    rounding::lemma_rounded_iterate::<A>(filter, input, next, m, tiny);
    let next_th = (m.image)(Function::Tanh, n0);
    let next_w = x - ((k - 1 as real) * n0 + (m.image)(Function::Sinh, n0)) - n1;
    let next_fb = (m.image)(Function::Tanh, next_w);
    rounding::lemma_off(
        (m.number)(next.tanh),
        next_th,
        0 as real,
        rounding::billionths(33000000),
        rounding::billionths(9),
    );
    assert(reading::within(
        g * (m.number)(next.fb_line) - g * next_fb,
        rounding::billionths(130),
    )) by {
        algebra::lemma_distribute(g, (m.number)(next.fb_line), next_fb);
        algebra::lemma_product_within(
            g,
            (m.number)(next.fb_line) - next_fb,
            1 as real,
            rounding::billionths(130),
        );
    }
    assert(reading::within(g * (m.number)(next.tanh) - g * next_th, rounding::billionths(9))) by {
        algebra::lemma_distribute(g, (m.number)(next.tanh), next_th);
        algebra::lemma_product_within(
            g,
            (m.number)(next.tanh) - next_th,
            1 as real,
            rounding::billionths(9),
        );
    }
    lemma_rounded_outcome::<A>(next.residue[0], m, tiny);
    lemma_rounded_outcome::<A>(next.residue[1], m, tiny);
}

/// On small signals the filter by Newton's method does what the linear filter does, up to a
/// thousandth, though its arithmetic rounds.
pub proof fn law_newton_filter_is_linear_though_rounded<A: Arithmetic>(
    pre: SVF<A>,
    input: A::Num,
    post: SVF<A>,
    linear: SVF<A>,
    m: Reading<A::Num>,
    tiny: real,
)
    requires
        rounding::rounds::<A>(m, tiny),
        rounding::is_negligible(tiny),
        reading::is_hyperbolic(m),
        reading::bends_gently(m),
        small_signals::is_small::<A>(pre, input, m),
        SVF::<A>::newton_pass(pre, input, post),
        SVF::<A>::linear_pass(pre, input, linear),
    ensures
        reading::within(
            (m.number)(post.vout[0]) - (m.number)(linear.vout[0]),
            1 as real / 1000 as real,
        ),
        reading::within(
            (m.number)(post.vout[1]) - (m.number)(linear.vout[1]),
            1 as real / 1000 as real,
        ),
{
    let (a, b, trace) = choose|a: SVF<A>, b: SVF<A>, trace: Seq<Iterate<A::Num>>| #[trigger]
        SVF::<A>::newton_solution(pre, input, a, b, trace, post);
    let it = trace.first();
    let g = (m.number)(pre.params.g);
    let k = (m.number)(pre.params.res);
    let s0 = (m.number)(pre.s[0]);
    let s1 = (m.number)(pre.s[1]);
    let x = (m.number)(input);
    rounding::lemma_rounded_linear::<A>(pre, input, linear, m, tiny);
    rounding::lemma_rounded_linear::<A>(pre, input, a, m, tiny);
    rounding::lemma_rounded_linear::<A>(a, input, b, m, tiny);
    let i = 1 as real / (1 as real + g * (g + k));
    let e0 = i * s0 + (g * i) * (x - s1);
    let e1 = s1 + g * e0;
    small_signals::lemma_linear_bounds(g, k, s0, s1, x, e0, e1);
    algebra::lemma_nonnegative_product(g, g + k);
    algebra::lemma_linear_loop(g, k, s0, s1, x, e0, e1);
    let v0 = (m.number)(it.v_est[0]);
    let v1 = (m.number)(it.v_est[1]);
    lemma_near_linear(g, k, s0, s1, x, e0, (m.number)(b.vout[0]), v0, v1);
    lemma_near_lowpass(g, s1, e0, (m.number)(linear.vout[0]), (m.number)(linear.vout[1]));
    small_signals::lemma_first_residues(
        g,
        k,
        s0,
        s1,
        x,
        v0,
        v1,
        rounding::billionths(1100),
        rounding::billionths(540),
        m,
    );
    assert(iterates::stands_at_its_estimates::<A>(Damping::Full, pre, input, it));
    rounding::lemma_rounded_iterate::<A>(pre, input, it, m, tiny);
    lemma_first_residues_within::<A>(pre, input, it, m);
    if trace.len() > 1 {
        assert(newton::unsettled::<A>(trace[0]));
        assert(newton::newton_step::<A>(Damping::Full, pre, input, trace[0], trace[0int + 1]));
        lemma_rounded_small_step::<A>(pre, input, it, trace[1], m, tiny);
        if trace.len() > 2 {
            assert(newton::unsettled::<A>(trace[1]));
        }
    }
}

/// The first residues as computed, from those of an exact filter.
proof fn lemma_first_residues_within<A: Arithmetic>(
    filter: SVF<A>,
    input: A::Num,
    it: Iterate<A::Num>,
    m: Reading<A::Num>,
)
    requires
        ({
            let g = (m.number)(filter.params.g);
            let k = (m.number)(filter.params.res);
            let v0 = (m.number)(it.v_est[0]);
            let v1 = (m.number)(it.v_est[1]);
            let s0 = (m.number)(filter.s[0]);
            let s1 = (m.number)(filter.s[1]);
            let th = (m.image)(Function::Tanh, v0);
            let fb = (m.image)(
                Function::Tanh,
                (m.number)(input) - ((k - 1 as real) * v0 + (m.image)(Function::Sinh, v0)) - v1,
            );
            &&& g > 0 as real
            &&& g <= 1 as real
            &&& reading::within(th, rounding::billionths(33000000))
            &&& rounding::rounded((m.number)(it.tanh), th, 0 as real)
            &&& reading::within((m.number)(it.fb_line) - fb, rounding::billionths(130))
            &&& reading::within(
                g * fb + s0 - v0,
                small_signals::millionths(451) + rounding::billionths(1100),
            )
            &&& reading::within(g * th + s1 - v1, rounding::billionths(9542))
            &&& reading::within(
                (m.number)(it.residue[0]) - (g * (m.number)(it.fb_line) + s0 - v0),
                rounding::billionths(120),
            )
            &&& reading::within(
                (m.number)(it.residue[1]) - (g * (m.number)(it.tanh) + s1 - v1),
                rounding::billionths(120),
            )
        }),
    ensures
        reading::within((m.number)(it.residue[0]), rounding::billionths(460000)),
        reading::within((m.number)(it.residue[1]), rounding::billionths(10000)),
{
    let g = (m.number)(filter.params.g);
    let k = (m.number)(filter.params.res);
    let v0 = (m.number)(it.v_est[0]);
    let v1 = (m.number)(it.v_est[1]);
    let th = (m.image)(Function::Tanh, v0);
    let fb = (m.image)(
        Function::Tanh,
        (m.number)(input) - ((k - 1 as real) * v0 + (m.image)(Function::Sinh, v0)) - v1,
    );
    rounding::lemma_off(
        (m.number)(it.tanh),
        th,
        0 as real,
        rounding::billionths(33000000),
        rounding::billionths(9),
    );
    algebra::lemma_distribute(g, (m.number)(it.fb_line), fb);
    algebra::lemma_product_within(
        g,
        (m.number)(it.fb_line) - fb,
        1 as real,
        rounding::billionths(130),
    );
    algebra::lemma_distribute(g, (m.number)(it.tanh), th);
    algebra::lemma_product_within(
        g,
        (m.number)(it.tanh) - th,
        1 as real,
        rounding::billionths(9),
    );
}

/// Outputs near the linear ones nearly solve the linear loop.
proof fn lemma_near_linear(
    g: real,
    k: real,
    s0: real,
    s1: real,
    x: real,
    e0: real,
    b0: real,
    v0: real,
    v1: real,
)
    requires
        g > 0 as real,
        g <= 1 as real,
        k >= 0 as real,
        k <= 2 as real,
        e0 == s0 + g * (x - k * e0 - (s1 + g * e0)),
        reading::within(e0, small_signals::millionths(30000)),
        reading::within(s1 + g * e0, small_signals::millionths(40000)),
        reading::within(x - k * e0 - (s1 + g * e0), small_signals::millionths(110000)),
        reading::within(v0 - e0, rounding::billionths(250)),
        reading::within(b0 - e0, rounding::billionths(250)),
        reading::within(v1 - (s1 + g * b0), rounding::billionths(20)),
    ensures
        reading::within(v0, small_signals::millionths(30001)),
        reading::within(v1 - (s1 + g * e0), rounding::billionths(270)),
        reading::within(v1, small_signals::millionths(40001)),
        reading::within(x - k * v0 - v1, small_signals::millionths(110010)),
        reading::within(v0 - (s0 + g * (x - k * v0 - v1)), rounding::billionths(1100)),
        reading::within(v1 - (s1 + g * v0), rounding::billionths(540)),
{
    assert(reading::within(g * b0 - g * e0, rounding::billionths(250))) by {
        algebra::lemma_distribute(g, b0, e0);
        algebra::lemma_product_within(g, b0 - e0, 1 as real, rounding::billionths(250));
    }
    assert(reading::within(g * v0 - g * e0, rounding::billionths(250))) by {
        algebra::lemma_distribute(g, v0, e0);
        algebra::lemma_product_within(g, v0 - e0, 1 as real, rounding::billionths(250));
    }
    assert(reading::within(k * v0 - k * e0, rounding::billionths(500))) by {
        algebra::lemma_distribute(k, v0, e0);
        algebra::lemma_product_within(k, v0 - e0, 2 as real, rounding::billionths(250));
    }
    let w = x - k * v0 - v1;
    let we = x - k * e0 - (s1 + g * e0);
    assert(reading::within(g * w - g * we, rounding::billionths(770))) by {
        algebra::lemma_distribute(g, w, we);
        algebra::lemma_product_within(g, w - we, 1 as real, rounding::billionths(770));
    }
}

/// The low-pass output that is computed from a band-pass output near the linear one.
proof fn lemma_near_lowpass(g: real, s1: real, e0: real, l0: real, l1: real)
    requires
        g > 0 as real,
        g <= 1 as real,
        reading::within(l0 - e0, rounding::billionths(250)),
        reading::within(l1 - (s1 + g * l0), rounding::billionths(20)),
    ensures
        reading::within(l1 - (s1 + g * e0), rounding::billionths(270)),
{
    algebra::lemma_distribute(g, l0, e0);
    algebra::lemma_product_within(g, l0 - e0, 1 as real, rounding::billionths(250));
}

} // verus!
