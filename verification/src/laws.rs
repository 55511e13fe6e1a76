//! What holds of the filter as a whole.
//!
//! The first laws read the formulas as real numbers: they say what the filter would do if its
//! arithmetic did not round. The others hold of every arithmetic.

use crate::algebra;
use crate::arithmetic::Arithmetic;
use crate::equations;
use crate::equations::{Damping, Mode};
use crate::filter::SVF;
use crate::iterates;
use crate::linearity;
use crate::newton;
use crate::newton::{Iterate, Jacobian};
use crate::parameters::FilterParameters;
use crate::pivotal;
use crate::reading;
use crate::steady;
use crate::term;
use crate::term::{Function, Reading, Term};
use vstd::prelude::*;

verus! {

/// The linear filter solves its loop without a delay: each integrator puts out its state plus
/// what it is handed at that very sample, times its gain.
pub proof fn law_linear_filter_solves_its_loop<A: Arithmetic>(
    pre: SVF<A>,
    input: A::Num,
    post: SVF<A>,
    m: Reading<A::Num>,
)
    requires
        term::is_exact::<A>(m),
        SVF::<A>::linear_pass(pre, input, post),
        linearity::linear_solvable::<A>(pre, m),
    ensures
        ({
            let g = (m.number)(pre.params.g);
            let k = (m.number)(pre.params.res);
            let x = (m.number)(input);
            let v0 = (m.number)(post.vout[0]);
            let v1 = (m.number)(post.vout[1]);
            &&& v0 == (m.number)(pre.s[0]) + g * (x - k * v0 - v1)
            &&& v1 == (m.number)(pre.s[1]) + g * v0
        }),
{
    reading::lemma_readings::<A::Num>(m);
    let g = term::val(pre.params.g);
    let k = term::val(pre.params.res);
    let s0 = term::val(pre.s[0]);
    let s1 = term::val(pre.s[1]);
    let x = term::val(input);
    term::law_exact_value::<A>(equations::linear_v0(g, k, s0, s1, x), post.vout[0], m);
    term::law_exact_value::<A>(
        equations::linear_v1(g, term::val(post.vout[0]), s1),
        post.vout[1],
        m,
    );
    algebra::lemma_linear_loop(
        (m.number)(pre.params.g),
        (m.number)(pre.params.res),
        (m.number)(pre.s[0]),
        (m.number)(pre.s[1]),
        (m.number)(input),
        (m.number)(post.vout[0]),
        (m.number)(post.vout[1]),
    );
}

/// The states are advanced by trapezoidal integration: the state before a sample and the state
/// after it lie evenly around the output, so that the state moves by twice what the integrator
/// added to it in its output.
pub proof fn law_states_advance_by_the_trapezoidal_rule<A: Arithmetic>(
    pre: SVF<A>,
    post: SVF<A>,
    n: int,
    m: Reading<A::Num>,
)
    requires
        term::is_exact::<A>(m),
        SVF::<A>::advances(pre, post),
        0 <= n < 2,
    ensures
        (m.number)(pre.s[n]) + (m.number)(post.s[n]) == 2 as real * (m.number)(pre.vout[n]),
        (m.number)(post.s[n]) - (m.number)(pre.s[n]) == 2 as real * ((m.number)(pre.vout[n]) - (
        m.number)(pre.s[n])),
{
    reading::lemma_readings::<A::Num>(m);
    term::law_exact_value::<A>(
        equations::next_state(term::val(pre.vout[n]), term::val(pre.s[n])),
        post.s[n],
        m,
    );
}

/// Advancing the states twice past the same outputs brings them back.
pub proof fn law_advancing_twice_returns<A: Arithmetic>(
    pre: SVF<A>,
    mid: SVF<A>,
    post: SVF<A>,
    n: int,
    m: Reading<A::Num>,
)
    requires
        term::is_exact::<A>(m),
        SVF::<A>::advances(pre, mid),
        SVF::<A>::advances(mid, post),
        0 <= n < 2,
    ensures
        (m.number)(post.s[n]) == (m.number)(pre.s[n]),
{
    law_states_advance_by_the_trapezoidal_rule::<A>(pre, mid, n, m);
    law_states_advance_by_the_trapezoidal_rule::<A>(mid, post, n, m);
}

/// The outputs of the modes belong together: low-pass, damped band-pass and high-pass add up to
/// the input, the notch is what low-pass and high-pass leave together, and the peak is what
/// they leave against each other.
pub proof fn law_modes_split_the_input<N>(
    x: Term<N>,
    k: Term<N>,
    v0: Term<N>,
    v1: Term<N>,
    m: Reading<N>,
)
    ensures
        ({
            let low = term::exact(equations::output(Mode::Lowpass, x, k, v0, v1), m);
            let high = term::exact(equations::output(Mode::Highpass, x, k, v0, v1), m);
            let band = term::exact(equations::output(Mode::Bandpass, x, k, v0, v1), m);
            let notch = term::exact(equations::output(Mode::Notch, x, k, v0, v1), m);
            let peak = term::exact(equations::output(Mode::Peak, x, k, v0, v1), m);
            let normalized = term::exact(
                equations::output(Mode::NormalizedBandpass, x, k, v0, v1),
                m,
            );
            &&& normalized == term::exact(k, m) * band
            &&& low + normalized + high == term::exact(x, m)
            &&& notch == low + high
            &&& notch + normalized == term::exact(x, m)
            &&& peak == high - low
        }),
{
    reading::lemma_readings::<N>(m);
    algebra::lemma_double(term::exact(term::num::<N>(2), m), term::exact(v1, m));
}

/// Without drive the input enters the filter as it is.
pub proof fn law_no_drive_leaves_the_input<A: Arithmetic>(
    filter: SVF<A>,
    input: A::Num,
    x: A::Num,
    m: Reading<A::Num>,
)
    requires
        term::is_exact::<A>(m),
        filter.drives(input, x),
        (m.number)(filter.params.drive) == 0 as real,
    ensures
        (m.number)(x) == (m.number)(input),
{
    reading::lemma_readings::<A::Num>(m);
    term::law_exact_value::<A>(
        equations::driven(term::val(input), term::val(filter.params.drive)),
        x,
        m,
    );
    let raise = (m.number)(filter.params.drive) + 1 as real;
    algebra::lemma_unit(raise, (m.number)(input));
    algebra::lemma_commute(raise, (m.number)(input));
}

/// A filter in tune has integrators of the gain `tan(pi * cutoff / sample_rate)`.
pub proof fn law_tuned_gain<A: Arithmetic>(params: FilterParameters<A>, m: Reading<A::Num>)
    requires
        term::is_exact::<A>(m),
        params.in_tune(),
        (m.number)(params.sample_rate) != 0 as real,
    ensures
        (m.number)(params.g) == (m.image)(
            Function::Tan,
            m.pi * (m.number)(params.cutoff) / (m.number)(params.sample_rate),
        ),
{
    reading::lemma_readings::<A::Num>(m);
    let cutoff = term::val(params.cutoff);
    let pi = Term::<A::Num>::Pi;
    assert(term::exact(pi, m) == m.pi && term::defined(pi, m));
    term::law_exact_value::<A>(
        equations::integrator_gain(cutoff, term::val(params.sample_rate)),
        params.g,
        m,
    );
}

/// The line that stands for a saturator meets it at the estimate, and has the slope one where the
/// estimate is zero.
pub proof fn law_pivots_meet_the_saturator<A: Arithmetic>(
    e: A::Num,
    a: A::Num,
    m: Reading<A::Num>,
)
    requires
        term::is_exact::<A>(m),
        pivotal::pivots::<A>(e, equations::saturator_slope(term::val(e)), a),
    ensures
        (m.number)(e) != 0 as real ==> (m.number)(a) * (m.number)(e) == (m.image)(
            Function::Tanh,
            (m.number)(e),
        ),
        (m.number)(e) == 0 as real ==> (m.number)(a) == 1 as real,
{
    reading::lemma_readings::<A::Num>(m);
    let slope = equations::saturator_slope(term::val(e));
    lemma_pivot_slope::<A>(e, slope, a, m);
    if (m.number)(e) != 0 as real {
        term::law_exact_value::<A>(slope, a, m);
        algebra::lemma_quotient((m.image)(Function::Tanh, (m.number)(e)), (m.number)(e));
    }
}

/// The line that stands for the inverse of the diode anti-saturator meets it at the estimate, and
/// has the slope one where the estimate is zero.
pub proof fn law_pivots_meet_the_clipper<A: Arithmetic>(e: A::Num, a: A::Num, m: Reading<A::Num>)
    requires
        term::is_exact::<A>(m),
        pivotal::pivots::<A>(e, equations::clipper_slope(term::val(e)), a),
    ensures
        (m.number)(e) != 0 as real ==> (m.number)(a) * (m.number)(e) == 4 as real * (m.image)(
            Function::Asinh,
            (m.number)(e) / 4 as real,
        ),
        (m.number)(e) == 0 as real ==> (m.number)(a) == 1 as real,
{
    reading::lemma_readings::<A::Num>(m);
    let slope = equations::clipper_slope(term::val(e));
    lemma_pivot_slope::<A>(e, slope, a, m);
    if (m.number)(e) != 0 as real {
        term::law_exact_value::<A>(slope, a, m);
        algebra::lemma_quotient(
            4 as real * (m.image)(Function::Asinh, (m.number)(e) / 4 as real),
            (m.number)(e),
        );
    }
}

/// Which of its two formulas a slope comes from.
pub(crate) proof fn lemma_pivot_slope<A: Arithmetic>(
    e: A::Num,
    slope: Term<A::Num>,
    a: A::Num,
    m: Reading<A::Num>,
)
    requires
        term::is_exact::<A>(m),
        pivotal::pivots::<A>(e, slope, a),
    ensures
        (m.number)(e) != 0 as real ==> term::yields::<A>(slope, a),
        (m.number)(e) == 0 as real ==> (m.number)(a) == 1 as real,
{
    reading::lemma_readings::<A::Num>(m);
    assert forall|zero: A::Num| #[trigger] term::yields::<A>(term::num(0), zero) implies (m.number)(
        zero,
    ) == 0 as real by {
        term::law_exact_value::<A>(term::num(0), zero, m);
    }
    if term::yields::<A>(term::num(1), a) {
        term::law_exact_value::<A>(term::num(1), a, m);
    }
}

/// The lines that stand for the saturators rise, and no steeper than the saturators at zero.
pub(crate) proof fn lemma_slopes_between<A: Arithmetic>(
    pre: SVF<A>,
    input: A::Num,
    e0: A::Num,
    a0: A::Num,
    a1: A::Num,
    a2: A::Num,
    m: Reading<A::Num>,
)
    requires
        term::is_exact::<A>(m),
        reading::is_hyperbolic(m),
        SVF::<A>::pivot_slopes(pre, input, e0, a0, a1, a2),
    ensures
        (m.number)(a0) > 0 as real,
        (m.number)(a0) <= 1 as real,
        (m.number)(a1) > 0 as real,
        (m.number)(a1) <= 1 as real,
        (m.number)(a2) > 0 as real,
        (m.number)(a2) <= 1 as real,
{
    law_pivots_meet_the_saturator::<A>(e0, a0, m);
    law_pivots_meet_the_saturator::<A>(pre.s[0], a1, m);
    law_pivots_meet_the_clipper::<A>(pre.s[0], a2, m);
    lemma_saturator_slope_between::<A>((m.number)(e0), (m.number)(a0), m);
    lemma_saturator_slope_between::<A>((m.number)(pre.s[0]), (m.number)(a1), m);
    let e = (m.number)(pre.s[0]);
    let a = (m.number)(a2);
    let t = 4 as real * (m.image)(Function::Asinh, e / 4 as real);
    if e > 0 as real {
        algebra::lemma_slope_between(a, e, t);
    } else if e < 0 as real {
        assert((m.image)(Function::Asinh, -(e / 4 as real)) == -(m.image)(
            Function::Asinh,
            e / 4 as real,
        ));
        algebra::lemma_distribute(a, 0 as real, e);
        algebra::lemma_slope_between(a, -e, -t);
    }
}

proof fn lemma_saturator_slope_between<A: Arithmetic>(e: real, a: real, m: Reading<A::Num>)
    requires
        reading::is_hyperbolic(m),
        e != 0 as real ==> a * e == (m.image)(Function::Tanh, e),
        e == 0 as real ==> a == 1 as real,
    ensures
        a > 0 as real,
        a <= 1 as real,
{
    let t = (m.image)(Function::Tanh, e);
    if e > 0 as real {
        algebra::lemma_slope_between(a, e, t);
    } else if e < 0 as real {
        assert((m.image)(Function::Tanh, -e) == -t);
        algebra::lemma_distribute(a, 0 as real, e);
        algebra::lemma_slope_between(a, -e, -t);
    }
}

/// The denominators of the fixed-pivot solution are not zero.
pub open spec fn pivotal_solvable(g: real, k: real, a0: real, a1: real, a2: real) -> bool {
    let g1 = 1 as real / (g * a0);
    let e2 = a0 * a2 * g * g1 * k - a0 * a2 * g * g1 + a2 * g1 + 1 as real;
    let e3 = 1 as real + (g * g) * a0 * a1 * g1 * (1 as real / e2) * a2;
    &&& g * a0 != 0 as real
    &&& e2 != 0 as real
    &&& e3 != 0 as real
}

pub(crate) proof fn lemma_pivotal_solvable(g: real, k: real, a0: real, a1: real, a2: real)
    requires
        g > 0 as real,
        k >= 0 as real,
        a0 > 0 as real,
        a1 > 0 as real,
        a2 > 0 as real,
        a2 <= 1 as real,
    ensures
        pivotal_solvable(g, k, a0, a1, a2),
{
    let g1 = 1 as real / (g * a0);
    let e2 = a0 * a2 * g * g1 * k - a0 * a2 * g * g1 + a2 * g1 + 1 as real;
    let e3 = 1 as real + (g * g) * a0 * a1 * g1 * (1 as real / e2) * a2;
    algebra::lemma_pivotal_denominators(g, k, a0, a1, a2, g1, e2, e3);
}

/// Whether `u` is the damping signal of the loop whose saturators are lines: the second line turns
/// it into the band-pass stage `a2 * u`, and the first integrator puts out its state plus what
/// the first line hands it at that very sample.
pub open spec fn solves_pivoted_loop<A: Arithmetic>(
    pre: SVF<A>,
    input: A::Num,
    a0: A::Num,
    a1: A::Num,
    a2: A::Num,
    u: real,
    m: Reading<A::Num>,
) -> bool {
    let g = (m.number)(pre.params.g);
    let k = (m.number)(pre.params.res);
    let v0 = (m.number)(a2) * u;
    let v1 = (m.number)(pre.s[1]) + g * (m.number)(a1) * v0;
    v0 == (m.number)(pre.s[0]) + g * (m.number)(a0) * ((m.number)(input) - ((k - 1 as real) * v0
        + u) - v1)
}

/// The fixed-pivot method solves, without a delay, the loop whose saturators are the lines at the
/// estimates, and takes its outputs from the solution: the damping signal is the hyperbolic sine of
/// the band-pass output. With a positive gain and a damping that is not negative there always is
/// one.
pub proof fn law_fixed_pivot_filter_solves_its_loop<A: Arithmetic>(
    pre: SVF<A>,
    input: A::Num,
    post: SVF<A>,
    m: Reading<A::Num>,
)
    requires
        term::is_exact::<A>(m),
        SVF::<A>::pivotal_pass(pre, input, post),
    ensures
        exists|e0: A::Num, a0: A::Num, a1: A::Num, a2: A::Num|
            {
                &&& #[trigger] SVF::<A>::pivotal_solution(pre, input, e0, a0, a1, a2, post)
                &&& pivotal_solvable(
                    (m.number)(pre.params.g),
                    (m.number)(pre.params.res),
                    (m.number)(a0),
                    (m.number)(a1),
                    (m.number)(a2),
                ) ==> exists|u: real|
                    {
                        &&& #[trigger] solves_pivoted_loop::<A>(pre, input, a0, a1, a2, u, m)
                        &&& (m.number)(post.vout[0]) == (m.image)(Function::Asinh, u)
                        &&& reading::is_hyperbolic(m) ==> u == (m.image)(
                            Function::Sinh,
                            (m.number)(post.vout[0]),
                        )
                        &&& (m.number)(post.vout[1]) == (m.number)(pre.s[1]) + (m.number)(
                            pre.params.g,
                        ) * (m.number)(a1) * (m.number)(post.vout[0])
                    }
                &&& reading::is_hyperbolic(m) && (m.number)(pre.params.g) > 0 as real && (m.number)(
                    pre.params.res,
                ) >= 0 as real ==> pivotal_solvable(
                    (m.number)(pre.params.g),
                    (m.number)(pre.params.res),
                    (m.number)(a0),
                    (m.number)(a1),
                    (m.number)(a2),
                )
            },
{
    let (e0, a0, a1, a2) = choose|e0: A::Num, a0: A::Num, a1: A::Num, a2: A::Num| #[trigger]
        SVF::<A>::pivotal_solution(pre, input, e0, a0, a1, a2, post);
    if reading::is_hyperbolic(m) && (m.number)(pre.params.g) > 0 as real && (m.number)(
        pre.params.res,
    ) >= 0 as real {
        lemma_slopes_between::<A>(pre, input, e0, a0, a1, a2, m);
        lemma_pivotal_solvable(
            (m.number)(pre.params.g),
            (m.number)(pre.params.res),
            (m.number)(a0),
            (m.number)(a1),
            (m.number)(a2),
        );
    }
    if pivotal_solvable(
        (m.number)(pre.params.g),
        (m.number)(pre.params.res),
        (m.number)(a0),
        (m.number)(a1),
        (m.number)(a2),
    ) {
        let u = lemma_pivotal_values::<A>(pre, input, e0, a0, a1, a2, post, m);
    }
}

/// The damping signal of the loop whose saturators are lines.
pub open spec fn pivotal_signal(
    g: real,
    k: real,
    a0: real,
    a1: real,
    a2: real,
    s0: real,
    s1: real,
    x: real,
) -> real {
    let g1 = 1 as real / (g * a0);
    let e2 = a0 * a2 * g * g1 * k - a0 * a2 * g * g1 + a2 * g1 + 1 as real;
    let e3 = 1 as real + (g * g) * a0 * a1 * g1 * (1 as real / e2) * a2;
    (g * a0 * x - g * a0 * s1 + s0) * g1 * (1 as real / e2) * (1 as real / e3)
}

/// What the outputs of the fixed-pivot method come to, where `u` is the damping signal.
pub(crate) proof fn lemma_pivotal_values<A: Arithmetic>(
    pre: SVF<A>,
    input: A::Num,
    e0: A::Num,
    a0: A::Num,
    a1: A::Num,
    a2: A::Num,
    post: SVF<A>,
    m: Reading<A::Num>,
) -> (u: real)
    requires
        term::is_exact::<A>(m),
        SVF::<A>::pivotal_solution(pre, input, e0, a0, a1, a2, post),
        pivotal_solvable(
            (m.number)(pre.params.g),
            (m.number)(pre.params.res),
            (m.number)(a0),
            (m.number)(a1),
            (m.number)(a2),
        ),
    ensures
        solves_pivoted_loop::<A>(pre, input, a0, a1, a2, u, m),
        u == pivotal_signal(
            (m.number)(pre.params.g),
            (m.number)(pre.params.res),
            (m.number)(a0),
            (m.number)(a1),
            (m.number)(a2),
            (m.number)(pre.s[0]),
            (m.number)(pre.s[1]),
            (m.number)(input),
        ),
        (m.number)(post.vout[0]) == (m.image)(Function::Asinh, u),
        (m.number)(post.vout[1]) == (m.number)(pre.s[1]) + (m.number)(pre.params.g) * (m.number)(a1)
            * (m.number)(post.vout[0]),
{
    reading::lemma_readings::<A::Num>(m);
    let g = term::val(pre.params.g);
    let s1 = term::val(pre.s[1]);
    let drive = equations::pivotal_drive(
        g,
        term::val(pre.params.res),
        term::val(a0),
        term::val(a1),
        term::val(a2),
        term::val(pre.s[0]),
        s1,
        term::val(input),
    );
    lemma_pivotal_drive::<A>(pre, input, a0, a1, a2, m);
    term::law_exact_value::<A>(drive.asinh(), post.vout[0], m);
    term::law_exact_value::<A>(
        equations::pivotal_v1(g, term::val(a1), term::val(post.vout[0]), s1),
        post.vout[1],
        m,
    );
    term::exact(drive, m)
}

/// The damping signal solves the loop whose saturators are lines.
proof fn lemma_pivotal_drive<A: Arithmetic>(
    pre: SVF<A>,
    input: A::Num,
    a0: A::Num,
    a1: A::Num,
    a2: A::Num,
    m: Reading<A::Num>,
)
    requires
        pivotal_solvable(
            (m.number)(pre.params.g),
            (m.number)(pre.params.res),
            (m.number)(a0),
            (m.number)(a1),
            (m.number)(a2),
        ),
    ensures
        ({
            let drive = equations::pivotal_drive(
                term::val(pre.params.g),
                term::val(pre.params.res),
                term::val(a0),
                term::val(a1),
                term::val(a2),
                term::val(pre.s[0]),
                term::val(pre.s[1]),
                term::val(input),
            );
            &&& term::defined(drive, m)
            &&& solves_pivoted_loop::<A>(pre, input, a0, a1, a2, term::exact(drive, m), m)
        }),
{
    reading::lemma_readings::<A::Num>(m);
    let drive = equations::pivotal_drive(
        term::val(pre.params.g),
        term::val(pre.params.res),
        term::val(a0),
        term::val(a1),
        term::val(a2),
        term::val(pre.s[0]),
        term::val(pre.s[1]),
        term::val(input),
    );
    let g = (m.number)(pre.params.g);
    let k = (m.number)(pre.params.res);
    let b0 = (m.number)(a0);
    let b1 = (m.number)(a1);
    let b2 = (m.number)(a2);
    let g1 = 1 as real / (g * b0);
    let e2 = b0 * b2 * g * g1 * k - b0 * b2 * g * g1 + b2 * g1 + 1 as real;
    let g2 = 1 as real / e2;
    let e3 = 1 as real + (g * g) * b0 * b1 * g1 * g2 * b2;
    let g3 = 1 as real / e3;
    algebra::lemma_pivotal_loop(
        g,
        k,
        b0,
        b1,
        b2,
        (m.number)(pre.s[0]),
        (m.number)(pre.s[1]),
        (m.number)(input),
        g1,
        e2,
        g2,
        e3,
        g3,
        term::exact(drive, m),
    );
}

/// What the entries of the Jacobian come to, where `d` is the slope of the damping.
pub(crate) proof fn lemma_jacobian_entries<A: Arithmetic>(
    damping: Damping,
    g: A::Num,
    k: A::Num,
    it: Iterate<A::Num>,
    j: Jacobian<A::Num>,
    m: Reading<A::Num>,
) -> (d: A::Num)
    requires
        term::is_exact::<A>(m),
        newton::jacobian_of::<A>(damping, g, k, it, j),
        1 as real - (m.number)(it.fb_line) * (m.number)(it.fb_line) != 0 as real,
    ensures
        newton::damping_slope_of::<A>(damping, it, d),
        ({
            let gain = (m.number)(g);
            let fb_slope = 1 as real - (m.number)(it.fb_line) * (m.number)(it.fb_line);
            &&& (m.number)(j.j00) == -(1 as real) - gain * ((m.number)(k) - 1 as real + (m.number)(
                d,
            )) * fb_slope
            &&& (m.number)(j.j01) == -(gain * fb_slope)
            &&& (m.number)(j.j10) == gain * (1 as real - (m.number)(it.tanh) * (m.number)(it.tanh))
        }),
{
    reading::lemma_readings::<A::Num>(m);
    let gt = term::val(g);
    let kt = term::val(k);
    let fb_slope = 1 as real - (m.number)(it.fb_line) * (m.number)(it.fb_line);
    term::law_exact_value::<A>(
        equations::jacobian_10(damping, gt, term::val(it.tanh)),
        j.j10,
        m,
    );
    let (slope, d) = choose|slope: A::Num, d: A::Num|
        {
            &&& newton::inverse_slope_of::<A>(it, slope, false)
            &&& newton::damping_slope_of::<A>(damping, it, d)
            &&& #[trigger] newton::jacobian_row::<A>(g, k, slope, d, j)
        };
    term::law_exact_value::<A>(equations::inverse_slope(term::val(it.fb_line)), slope, m);
    let i = (m.number)(slope);
    assert(i == 1 as real / fb_slope);
    algebra::lemma_inverse_divisor((m.number)(g), fb_slope);
    term::law_exact_value::<A>(equations::jacobian_01(gt, term::val(slope)), j.j01, m);
    let c = (m.number)(g) * ((m.number)(k) - 1 as real + (m.number)(d));
    term::law_exact_value::<A>(
        equations::jacobian_00(gt, kt, term::val(slope), term::val(d)),
        j.j00,
        m,
    );
    assert((m.number)(j.j00) == (-i - c) / i);
    algebra::lemma_inverse_divisor(-i - c, fb_slope);
    algebra::lemma_commute(-i - c, fb_slope);
    algebra::lemma_distribute(fb_slope, -i, c);
    algebra::lemma_distribute(fb_slope, 0 as real, i);
    algebra::lemma_quotient(1 as real, fb_slope);
    algebra::lemma_commute(fb_slope, c);
    d
}

/// The slope of the hyperbolic sine is the hyperbolic cosine, at zero too.
pub(crate) proof fn lemma_full_damping_slope<A: Arithmetic>(
    it: Iterate<A::Num>,
    d: A::Num,
    m: Reading<A::Num>,
)
    requires
        term::is_exact::<A>(m),
        reading::is_hyperbolic(m),
        (m.number)(it.sinh) == (m.image)(Function::Sinh, (m.number)(it.v_est[0])),
        (m.number)(it.tanh) == (m.image)(Function::Tanh, (m.number)(it.v_est[0])),
        newton::damping_slope_of::<A>(Damping::Full, it, d),
    ensures
        (m.number)(d) == (m.image)(Function::Cosh, (m.number)(it.v_est[0])),
{
    reading::lemma_readings::<A::Num>(m);
    let slope = equations::sinh_slope(term::val(it.sinh), term::val(it.tanh));
    lemma_pivot_slope::<A>(it.tanh, slope, d, m);
    let v0 = (m.number)(it.v_est[0]);
    let th = (m.image)(Function::Tanh, v0);
    let ch = (m.image)(Function::Cosh, v0);
    reading::lemma_tanh_sign(m, v0);
    if th != 0 as real {
        term::law_exact_value::<A>(slope, d, m);
        algebra::lemma_quotient((m.image)(Function::Sinh, v0), th);
        algebra::lemma_distribute(th, (m.number)(d), ch);
        algebra::lemma_cancel((m.number)(d) - ch, th);
    }
}

/// The Jacobian holds how the residues change with the estimates: the hyperbolic tangent has the
/// slope one less its square, the hyperbolic sine has the hyperbolic cosine as its slope, and the
/// slopes along a path multiply. With less anti-saturation, the slope of the damping is that of the
/// first estimate's damping, at every estimate.
pub proof fn law_jacobian_holds_the_slopes<A: Arithmetic>(
    damping: Damping,
    g: A::Num,
    k: A::Num,
    it: Iterate<A::Num>,
    j: Jacobian<A::Num>,
    m: Reading<A::Num>,
)
    requires
        term::is_exact::<A>(m),
        reading::is_hyperbolic(m),
        newton::jacobian_of::<A>(damping, g, k, it, j),
        1 as real - (m.number)(it.fb_line) * (m.number)(it.fb_line) != 0 as real,
        damping == Damping::Full ==> (m.number)(it.sinh) == (m.image)(
            Function::Sinh,
            (m.number)(it.v_est[0]),
        ),
        damping == Damping::Full ==> (m.number)(it.tanh) == (m.image)(
            Function::Tanh,
            (m.number)(it.v_est[0]),
        ),
    ensures
        ({
            let gain = (m.number)(g);
            let v0 = (m.number)(it.v_est[0]);
            let fb_slope = 1 as real - (m.number)(it.fb_line) * (m.number)(it.fb_line);
            let damping_slope = match damping {
                Damping::Full => (m.image)(Function::Cosh, v0),
                Damping::Less => (m.image)(Function::Cosh, v0 / (15 as real / 10 as real)),
            };
            &&& (m.number)(j.j00) == -(1 as real) - gain * ((m.number)(k) - 1 as real
                + damping_slope) * fb_slope
            &&& (m.number)(j.j01) == -(gain * fb_slope)
            &&& (m.number)(j.j10) == gain * (1 as real - (m.number)(it.tanh) * (m.number)(it.tanh))
        }),
{
    reading::lemma_readings::<A::Num>(m);
    let d = lemma_jacobian_entries::<A>(damping, g, k, it, j, m);
    match damping {
        Damping::Full => {
            lemma_full_damping_slope::<A>(it, d, m);
        },
        Damping::Less => {
            reading::lemma_decimals::<A::Num>(m);
            term::law_exact_value::<A>(
                equations::less_antisaturated_slope(term::val(it.v_est[0])),
                d,
                m,
            );
        },
    }
}

/// A step of Newton's method solves the linear system that the Jacobian gives: if the residues
/// changed along their slopes, the step would make both of them zero.
pub proof fn law_newton_step_removes_the_linear_residue<A: Arithmetic>(
    it: Iterate<A::Num>,
    j: Jacobian<A::Num>,
    next: Iterate<A::Num>,
    m: Reading<A::Num>,
)
    requires
        term::is_exact::<A>(m),
        newton::steps_by::<A>(it, j, next),
        (m.number)(j.j01) * (m.number)(j.j10) + (m.number)(j.j00) != 0 as real,
    ensures
        ({
            let d0 = (m.number)(next.v_est[0]) - (m.number)(it.v_est[0]);
            let d1 = (m.number)(next.v_est[1]) - (m.number)(it.v_est[1]);
            &&& (m.number)(it.residue[0]) + (m.number)(j.j00) * d0 + (m.number)(j.j01) * d1
                == 0 as real
            &&& (m.number)(it.residue[1]) + (m.number)(j.j10) * d0 - d1 == 0 as real
        }),
{
    reading::lemma_readings::<A::Num>(m);
    let j00 = term::val(j.j00);
    let j01 = term::val(j.j01);
    let j10 = term::val(j.j10);
    let v0 = term::val(it.v_est[0]);
    let v1 = term::val(it.v_est[1]);
    let r0 = term::val(it.residue[0]);
    let r1 = term::val(it.residue[1]);
    term::law_exact_value::<A>(
        equations::newton_v0(j00, j01, j10, v0, r0, r1),
        next.v_est[0],
        m,
    );
    term::law_exact_value::<A>(
        equations::newton_v1(j00, j01, j10, v1, r0, r1),
        next.v_est[1],
        m,
    );
    algebra::lemma_newton_step(
        (m.number)(j.j00),
        (m.number)(j.j01),
        (m.number)(j.j10),
        (m.number)(it.v_est[0]),
        (m.number)(it.v_est[1]),
        (m.number)(it.residue[0]),
        (m.number)(it.residue[1]),
        (m.number)(next.v_est[0]),
        (m.number)(next.v_est[1]),
    );
}

/// A step of Newton's method keeps estimates that leave no residue.
pub proof fn law_newton_step_keeps_a_solution<A: Arithmetic>(
    it: Iterate<A::Num>,
    j: Jacobian<A::Num>,
    next: Iterate<A::Num>,
    m: Reading<A::Num>,
)
    requires
        term::is_exact::<A>(m),
        newton::steps_by::<A>(it, j, next),
        (m.number)(j.j01) * (m.number)(j.j10) + (m.number)(j.j00) != 0 as real,
        (m.number)(it.residue[0]) == 0 as real,
        (m.number)(it.residue[1]) == 0 as real,
    ensures
        (m.number)(next.v_est[0]) == (m.number)(it.v_est[0]),
        (m.number)(next.v_est[1]) == (m.number)(it.v_est[1]),
{
    law_newton_step_removes_the_linear_residue::<A>(it, j, next, m);
    algebra::lemma_no_correction(
        (m.number)(j.j00),
        (m.number)(j.j01),
        (m.number)(j.j10),
        (m.number)(next.v_est[0]) - (m.number)(it.v_est[0]),
        (m.number)(next.v_est[1]) - (m.number)(it.v_est[1]),
    );
}

/// Whether two numbers differ by a hundred-thousandth at the most.
pub open spec fn nearly(a: real, b: real) -> bool {
    &&& a - b <= 1 as real / 100000 as real
    &&& b - a <= 1 as real / 100000 as real
}

/// An iterate of the saturated filter whose residues are small enough solves the saturated loop,
/// up to a hundred-thousandth, and without a delay.
proof fn lemma_settled_iterate<A: Arithmetic>(
    damping: Damping,
    filter: SVF<A>,
    input: A::Num,
    it: Iterate<A::Num>,
    m: Reading<A::Num>,
)
    requires
        term::is_exact::<A>(m),
        iterates::stands_at_its_estimates::<A>(damping, filter, input, it),
        newton::settled::<A>(it),
    ensures
        nearly_solves_saturated_loop::<A>(damping, filter, input, it.v_est, m),
{
    iterates::lemma_iterate_values::<A>(damping, filter, input, it, m);
    iterates::lemma_settles_where_small::<A>(it, m);
}

/// Whether the outputs `v` of the two stages satisfy the equations of the saturated filter, up to
/// a hundred-thousandth.
pub open spec fn nearly_solves_saturated_loop<A: Arithmetic>(
    damping: Damping,
    filter: SVF<A>,
    input: A::Num,
    v: [A::Num; 2],
    m: Reading<A::Num>,
) -> bool {
    let g = (m.number)(filter.params.g);
    let k = (m.number)(filter.params.res);
    let x = (m.number)(input);
    let v0 = (m.number)(v[0]);
    let v1 = (m.number)(v[1]);
    let antisaturated = match damping {
        Damping::Full => (m.image)(Function::Sinh, v0),
        Damping::Less => 2 as real * (m.image)(Function::Sinh, v0 / 2 as real),
    };
    &&& nearly(
        v0,
        (m.number)(filter.s[0]) + g * (m.image)(
            Function::Tanh,
            x - ((k - 1 as real) * v0 + antisaturated) - v1,
        ),
    )
    &&& nearly(v1, (m.number)(filter.s[1]) + g * (m.image)(Function::Tanh, v0))
}

/// Where Newton's method settles, its outputs satisfy the equations of the saturated filter up to
/// a hundred-thousandth, without a delay in the loop. Where it does not settle, it has taken
/// `MAX_STEPS` steps.
pub proof fn law_newton_filter_solves_its_loop<A: Arithmetic>(
    pre: SVF<A>,
    input: A::Num,
    a: SVF<A>,
    b: SVF<A>,
    trace: Seq<Iterate<A::Num>>,
    post: SVF<A>,
    m: Reading<A::Num>,
)
    requires
        term::is_exact::<A>(m),
        SVF::<A>::newton_solution(pre, input, a, b, trace, post),
    ensures
        nearly_solves_saturated_loop::<A>(Damping::Full, pre, input, post.vout, m) || trace.len()
            == newton::MAX_STEPS + 1,
        newton::settled::<A>(trace.last()) ==> nearly_solves_saturated_loop::<A>(
            Damping::Full,
            pre,
            input,
            post.vout,
            m,
        ),
{
    if newton::settled::<A>(trace.last()) {
        let n = trace.len();
        if n > 1 {
            assert(newton::newton_step::<A>(
                Damping::Full,
                pre,
                input,
                trace[n - 2],
                trace[n - 2 + 1],
            ));
        }
        lemma_settled_iterate::<A>(Damping::Full, pre, input, trace.last(), m);
    }
}

/// Whether saturation holds each output to its state: they are apart by the size of the gain of an
/// integrator and a hundred-thousandth at the most.
pub open spec fn held_to_states<A: Arithmetic>(
    filter: SVF<A>,
    v: [A::Num; 2],
    m: Reading<A::Num>,
) -> bool {
    let g = (m.number)(filter.params.g);
    let size = if g < 0 as real {
        -g
    } else {
        g
    };
    forall|n: int|
        0 <= n < 2 ==> reading::within(
            (m.number)(#[trigger] v[n]) - (m.number)(filter.s[n]),
            size + 1 as real / 100000 as real,
        )
}

proof fn lemma_held_to_states<A: Arithmetic>(
    damping: Damping,
    filter: SVF<A>,
    input: A::Num,
    v: [A::Num; 2],
    m: Reading<A::Num>,
)
    requires
        reading::is_hyperbolic(m),
        nearly_solves_saturated_loop::<A>(damping, filter, input, v, m),
    ensures
        held_to_states::<A>(filter, v, m),
{
    let g = (m.number)(filter.params.g);
    let size = if g < 0 as real {
        -g
    } else {
        g
    };
    let k = (m.number)(filter.params.res);
    let v0 = (m.number)(v[0]);
    let v1 = (m.number)(v[1]);
    let antisaturated = match damping {
        Damping::Full => (m.image)(Function::Sinh, v0),
        Damping::Less => 2 as real * (m.image)(Function::Sinh, v0 / 2 as real),
    };
    let fb = (m.image)(
        Function::Tanh,
        (m.number)(input) - ((k - 1 as real) * v0 + antisaturated) - v1,
    );
    algebra::lemma_product_within(g, fb, size, 1 as real);
    algebra::lemma_product_within(g, (m.image)(Function::Tanh, v0), size, 1 as real);
}

/// Where Newton's method settles, saturation holds each output to its state, however large the
/// input.
pub proof fn law_saturation_holds_the_outputs<A: Arithmetic>(
    pre: SVF<A>,
    input: A::Num,
    a: SVF<A>,
    b: SVF<A>,
    trace: Seq<Iterate<A::Num>>,
    post: SVF<A>,
    m: Reading<A::Num>,
)
    requires
        term::is_exact::<A>(m),
        reading::is_hyperbolic(m),
        SVF::<A>::newton_solution(pre, input, a, b, trace, post),
        newton::settled::<A>(trace.last()),
    ensures
        held_to_states::<A>(pre, post.vout, m),
{
    law_newton_filter_solves_its_loop::<A>(pre, input, a, b, trace, post, m);
    lemma_held_to_states::<A>(Damping::Full, pre, input, post.vout, m);
}

/// With less anti-saturation, too, saturation holds each output to its state where Newton's method
/// settles after a step.
pub proof fn law_saturation_holds_the_less_antisaturated_outputs<A: Arithmetic>(
    pre: SVF<A>,
    input: A::Num,
    a: SVF<A>,
    b: SVF<A>,
    p: SVF<A>,
    trace: Seq<Iterate<A::Num>>,
    post: SVF<A>,
    m: Reading<A::Num>,
)
    requires
        term::is_exact::<A>(m),
        reading::is_hyperbolic(m),
        SVF::<A>::less_antisat_solution(pre, input, a, b, p, trace, post),
        trace.len() > 1,
        newton::settled::<A>(trace.last()),
    ensures
        held_to_states::<A>(pre, post.vout, m),
{
    law_less_antisat_filter_solves_its_loop::<A>(pre, input, a, b, p, trace, post, m);
    lemma_held_to_states::<A>(Damping::Less, pre, input, post.vout, m);
}

/// Where Newton's method with less anti-saturation settles after a step, its outputs satisfy the
/// equations of that filter up to a hundred-thousandth. (Before the first step its saturators do
/// not yet stand at its estimates.)
pub proof fn law_less_antisat_filter_solves_its_loop<A: Arithmetic>(
    pre: SVF<A>,
    input: A::Num,
    a: SVF<A>,
    b: SVF<A>,
    p: SVF<A>,
    trace: Seq<Iterate<A::Num>>,
    post: SVF<A>,
    m: Reading<A::Num>,
)
    requires
        term::is_exact::<A>(m),
        SVF::<A>::less_antisat_solution(pre, input, a, b, p, trace, post),
        trace.len() > 1,
    ensures
        nearly_solves_saturated_loop::<A>(Damping::Less, pre, input, post.vout, m) || trace.len()
            == newton::MAX_STEPS + 1,
        newton::settled::<A>(trace.last()) ==> nearly_solves_saturated_loop::<A>(
            Damping::Less,
            pre,
            input,
            post.vout,
            m,
        ),
{
    if newton::settled::<A>(trace.last()) {
        let n = trace.len();
        assert(newton::newton_step::<A>(
            Damping::Less,
            pre,
            input,
            trace[n - 2],
            trace[n - 2 + 1],
        ));
        lemma_settled_iterate::<A>(Damping::Less, pre, input, trace.last(), m);
    }
}

/// Whether nothing sounds in the filter: its states are zero.
pub open spec fn silent<A: Arithmetic>(filter: SVF<A>, m: Reading<A::Num>) -> bool {
    (m.number)(filter.s[0]) == 0 as real && (m.number)(filter.s[1]) == 0 as real
}

/// Whether both stages put out silence.
pub open spec fn stages_silent<A: Arithmetic>(filter: SVF<A>, m: Reading<A::Num>) -> bool {
    (m.number)(filter.vout[0]) == 0 as real && (m.number)(filter.vout[1]) == 0 as real
}

/// Whether the saturators have no offset.
pub open spec fn saturators_pass_zero<N>(m: Reading<N>) -> bool {
    &&& (m.image)(Function::Tanh, 0 as real) == 0 as real
    &&& (m.image)(Function::Sinh, 0 as real) == 0 as real
}

/// A silent filter that is handed silence stays silent and puts out silence, in every mode and at
/// both stages.
pub proof fn law_silence_stays_silence<A: Arithmetic>(
    pre: SVF<A>,
    input: A::Num,
    post: SVF<A>,
    out: A::Num,
    m: Reading<A::Num>,
)
    requires
        term::is_exact::<A>(m),
        saturators_pass_zero(m),
        silent::<A>(pre, m),
        (m.number)(input) == 0 as real,
        SVF::<A>::newton_tick(pre, input, post, out),
        linearity::linear_solvable::<A>(pre, m),
    ensures
        silent::<A>(post, m),
        stages_silent::<A>(post, m),
        (m.number)(out) == 0 as real,
{
    reading::lemma_readings::<A::Num>(m);
    let (x, mid) = choose|x: A::Num, mid: SVF<A>|
        {
            &&& pre.drives(input, x)
            &&& #[trigger] SVF::<A>::newton_pass(pre, x, mid)
            &&& mid.puts_out(x, out)
            &&& SVF::<A>::advances(mid, post)
        };
    term::law_exact_value::<A>(
        equations::driven(term::val(input), term::val(pre.params.drive)),
        x,
        m,
    );
    let (a, b, trace) = choose|a: SVF<A>, b: SVF<A>, trace: Seq<Iterate<A::Num>>| #[trigger]
        SVF::<A>::newton_solution(pre, x, a, b, trace, mid);
    steady::lemma_linear_hold::<A>(pre, x, a, m);
    steady::lemma_linear_hold::<A>(a, x, b, m);
    let it = trace.first();
    iterates::lemma_iterate_values::<A>(Damping::Full, pre, x, it, m);
    algebra::lemma_zero((m.number)(pre.params.res) - 1 as real, (m.number)(it.v_est[0]));
    algebra::lemma_zero((m.number)(pre.params.g), (m.number)(it.fb_line));
    algebra::lemma_zero((m.number)(pre.params.g), (m.number)(it.tanh));
    iterates::lemma_settles_where_small::<A>(it, m);
    assert(trace.len() == 1) by {
        if trace.len() > 1 {
            assert(newton::unsettled::<A>(trace[0]));
        }
    }
    linearity::lemma_output_value::<A>(mid, x, out, m);
    algebra::lemma_zero((m.number)(mid.params.res), (m.number)(mid.vout[0]));
    law_states_advance_by_the_trapezoidal_rule::<A>(mid, post, 0, m);
    law_states_advance_by_the_trapezoidal_rule::<A>(mid, post, 1, m);
}

/// The damping signal of the saturated filter at the band-pass stage `v0`.
pub open spec fn damping_signal<N>(damping: Damping, k: real, v0: real, m: Reading<N>) -> real {
    (k - 1 as real) * v0 + match damping {
        Damping::Full => (m.image)(Function::Sinh, v0),
        Damping::Less => 2 as real * (m.image)(Function::Sinh, v0 / 2 as real),
    }
}

/// Whether the damping signal at `v0` is on the far side of the damping of the linear filter, and
/// nothing at zero.
pub open spec fn outweighs_linear_damping<N>(
    damping: Damping,
    k: real,
    v0: real,
    m: Reading<N>,
) -> bool {
    &&& v0 > 0 as real ==> damping_signal(damping, k, v0, m) > k * v0
    &&& v0 < 0 as real ==> damping_signal(damping, k, v0, m) < k * v0
    &&& v0 == 0 as real ==> damping_signal(damping, k, v0, m) == 0 as real
}

proof fn lemma_damping_outweighs<N>(damping: Damping, k: real, v0: real, m: Reading<N>)
    requires
        reading::is_hyperbolic(m),
    ensures
        outweighs_linear_damping(damping, k, v0, m),
{
    algebra::lemma_commute(k - 1 as real, v0);
    algebra::lemma_distribute(v0, k, 1 as real);
    algebra::lemma_unit(1 as real, v0);
    algebra::lemma_commute(k, v0);
    assert((k - 1 as real) * v0 == k * v0 - v0);
    reading::lemma_sinh_beyond(m, v0);
    reading::lemma_sinh_beyond(m, v0 / 2 as real);
}

/// What the feedback line of an iterate hands on, where its saturators stand at its estimates.
proof fn lemma_feedback_value<A: Arithmetic>(
    damping: Damping,
    k: A::Num,
    input: A::Num,
    it: Iterate<A::Num>,
    m: Reading<A::Num>,
)
    requires
        term::is_exact::<A>(m),
        newton::saturates::<A>(
            it,
            k,
            input,
            equations::antisaturated(damping, term::val(it.v_est[0])),
            it.v_est[0],
            it.v_est[1],
        ),
    ensures
        (m.number)(it.fb_line) == (m.image)(
            Function::Tanh,
            (m.number)(input) - damping_signal(
                damping,
                (m.number)(k),
                (m.number)(it.v_est[0]),
                m,
            ) - (m.number)(it.v_est[1]),
        ),
{
    reading::lemma_readings::<A::Num>(m);
    let v0 = term::val(it.v_est[0]);
    let v1 = term::val(it.v_est[1]);
    term::law_exact_value::<A>(equations::antisaturated(damping, v0), it.sinh, m);
    term::law_exact_value::<A>(
        equations::feedback(term::val(input), term::val(k), v0, term::val(it.sinh), v1),
        it.fb_line,
        m,
    );
}

/// The damping does not fade: at the outputs of Newton's method the feedback line subtracts more
/// than the damping of the linear filter, whichever sign the band-pass stage has.
pub proof fn law_damping_does_not_fade<A: Arithmetic>(
    pre: SVF<A>,
    input: A::Num,
    a: SVF<A>,
    b: SVF<A>,
    trace: Seq<Iterate<A::Num>>,
    post: SVF<A>,
    m: Reading<A::Num>,
)
    requires
        term::is_exact::<A>(m),
        reading::is_hyperbolic(m),
        SVF::<A>::newton_solution(pre, input, a, b, trace, post),
    ensures
        ({
            let k = (m.number)(pre.params.res);
            let v0 = (m.number)(post.vout[0]);
            let v1 = (m.number)(post.vout[1]);
            &&& (m.number)(trace.last().fb_line) == (m.image)(
                Function::Tanh,
                (m.number)(input) - damping_signal(Damping::Full, k, v0, m) - v1,
            )
            &&& outweighs_linear_damping(Damping::Full, k, v0, m)
        }),
{
    let n = trace.len();
    if n > 1 {
        assert(newton::newton_step::<A>(
            Damping::Full,
            pre,
            input,
            trace[n - 2],
            trace[n - 2 + 1],
        ));
    }
    lemma_feedback_value::<A>(Damping::Full, pre.params.res, input, trace.last(), m);
    lemma_damping_outweighs(
        Damping::Full,
        (m.number)(pre.params.res),
        (m.number)(post.vout[0]),
        m,
    );
}

/// With less anti-saturation the damping does not fade either. (Before the first step the
/// saturators do not yet stand at the estimates.)
pub proof fn law_less_antisaturated_damping_does_not_fade<A: Arithmetic>(
    pre: SVF<A>,
    input: A::Num,
    a: SVF<A>,
    b: SVF<A>,
    p: SVF<A>,
    trace: Seq<Iterate<A::Num>>,
    post: SVF<A>,
    m: Reading<A::Num>,
)
    requires
        term::is_exact::<A>(m),
        reading::is_hyperbolic(m),
        SVF::<A>::less_antisat_solution(pre, input, a, b, p, trace, post),
    ensures
        ({
            let k = (m.number)(pre.params.res);
            let v0 = (m.number)(post.vout[0]);
            let v1 = (m.number)(post.vout[1]);
            &&& trace.len() > 1 ==> (m.number)(trace.last().fb_line) == (m.image)(
                Function::Tanh,
                (m.number)(input) - damping_signal(Damping::Less, k, v0, m) - v1,
            )
            &&& outweighs_linear_damping(Damping::Less, k, v0, m)
        }),
{
    let n = trace.len();
    if n > 1 {
        assert(newton::newton_step::<A>(
            Damping::Less,
            pre,
            input,
            trace[n - 2],
            trace[n - 2 + 1],
        ));
        lemma_feedback_value::<A>(Damping::Less, pre.params.res, input, trace.last(), m);
    }
    lemma_damping_outweighs(
        Damping::Less,
        (m.number)(pre.params.res),
        (m.number)(post.vout[0]),
        m,
    );
}

/// Filtering a sample leaves the settings as they are.
pub proof fn law_filtering_keeps_the_settings<A: Arithmetic>(
    pre: SVF<A>,
    input: A::Num,
    post: SVF<A>,
    out: A::Num,
)
    requires
        SVF::<A>::newton_tick(pre, input, post, out) || SVF::<A>::pivotal_tick(
            pre,
            input,
            post,
            out,
        ),
    ensures
        post.params == pre.params,
{
}

/// A silent filter that is handed a silent stream puts out a silent stream, and its stages are
/// silent after it.
pub proof fn law_silent_stream<A: Arithmetic>(
    pre: SVF<A>,
    input: Seq<A::Num>,
    post: SVF<A>,
    output: Seq<A::Num>,
    m: Reading<A::Num>,
)
    requires
        term::is_exact::<A>(m),
        saturators_pass_zero(m),
        silent::<A>(pre, m),
        forall|i: int| 0 <= i < input.len() ==> (m.number)(#[trigger] input[i]) == 0 as real,
        SVF::<A>::streams(pre, input, post, output),
        linearity::linear_solvable::<A>(pre, m),
    ensures
        silent::<A>(post, m),
        input.len() > 0 || stages_silent::<A>(pre, m) ==> stages_silent::<A>(post, m),
        forall|i: int| 0 <= i < output.len() ==> (m.number)(#[trigger] output[i]) == 0 as real,
{
    let states = choose|states: Seq<SVF<A>>|
        {
            &&& #[trigger] SVF::<A>::stream_states(states, input, output)
            &&& states.first() == pre
            &&& states.last() == post
        };
    assert forall|i: int| 0 <= i < output.len() implies (m.number)(#[trigger] output[i])
        == 0 as real by {
        lemma_silent_states::<A>(states, input, output, i, m);
        assert(SVF::<A>::newton_tick(states[i], input[i], states[i + 1], output[i]));
        law_silence_stays_silence::<A>(states[i], input[i], states[i + 1], output[i], m);
    }
    lemma_silent_states::<A>(states, input, output, input.len() as int, m);
    if input.len() > 0 {
        let i = input.len() - 1;
        lemma_silent_states::<A>(states, input, output, i, m);
        assert(SVF::<A>::newton_tick(states[i], input[i], states[i + 1], output[i]));
        law_silence_stays_silence::<A>(states[i], input[i], states[i + 1], output[i], m);
    }
}

proof fn lemma_silent_states<A: Arithmetic>(
    states: Seq<SVF<A>>,
    input: Seq<A::Num>,
    output: Seq<A::Num>,
    i: int,
    m: Reading<A::Num>,
)
    requires
        term::is_exact::<A>(m),
        saturators_pass_zero(m),
        silent::<A>(states.first(), m),
        forall|j: int| 0 <= j < input.len() ==> (m.number)(#[trigger] input[j]) == 0 as real,
        SVF::<A>::stream_states(states, input, output),
        0 <= i <= input.len(),
        linearity::linear_solvable::<A>(states.first(), m),
    ensures
        silent::<A>(states[i], m),
        states[i].params == states.first().params,
    decreases i,
{
    if i > 0 {
        lemma_silent_states::<A>(states, input, output, i - 1, m);
        assert(SVF::<A>::newton_tick(
            states[i - 1],
            input[i - 1],
            states[i - 1 + 1],
            output[i - 1],
        ));
        law_silence_stays_silence::<A>(states[i - 1], input[i - 1], states[i], output[i - 1], m);
        law_filtering_keeps_the_settings::<A>(states[i - 1], input[i - 1], states[i], output[i - 1]);
    }
}

/// A new filter is silent.
pub proof fn law_rest_is_silence<A: Arithmetic>(filter: SVF<A>, m: Reading<A::Num>)
    requires
        term::is_exact::<A>(m),
        filter.at_rest(),
    ensures
        silent::<A>(filter, m),
        stages_silent::<A>(filter, m),
{
    reading::lemma_readings::<A::Num>(m);
    term::law_exact_value::<A>(term::num(0), filter.s[0], m);
    term::law_exact_value::<A>(term::num(0), filter.s[1], m);
    term::law_exact_value::<A>(term::num(0), filter.vout[0], m);
    term::law_exact_value::<A>(term::num(0), filter.vout[1], m);
}

/// A stream can be cut anywhere: filtering a buffer and then another is filtering them as one.
pub proof fn law_streams_join<A: Arithmetic>(
    pre: SVF<A>,
    input1: Seq<A::Num>,
    mid: SVF<A>,
    output1: Seq<A::Num>,
    input2: Seq<A::Num>,
    post: SVF<A>,
    output2: Seq<A::Num>,
)
    requires
        SVF::<A>::streams(pre, input1, mid, output1),
        SVF::<A>::streams(mid, input2, post, output2),
    ensures
        SVF::<A>::streams(pre, input1 + input2, post, output1 + output2),
{
    let states1 = choose|states: Seq<SVF<A>>|
        {
            &&& #[trigger] SVF::<A>::stream_states(states, input1, output1)
            &&& states.first() == pre
            &&& states.last() == mid
        };
    let states2 = choose|states: Seq<SVF<A>>|
        {
            &&& #[trigger] SVF::<A>::stream_states(states, input2, output2)
            &&& states.first() == mid
            &&& states.last() == post
        };
    let states = states1 + states2.skip(1);
    lemma_steps_join(
        |a: SVF<A>, x: A::Num, b: SVF<A>, y: A::Num| SVF::<A>::newton_tick(a, x, b, y),
        states1,
        input1,
        output1,
        states2,
        input2,
        output2,
    );
    assert(SVF::<A>::stream_states(states, input1 + input2, output1 + output2));
}

/// Sequences of steps join where one ends in the state in which the other begins.
proof fn lemma_steps_join<S, N>(
    step: spec_fn(S, N, S, N) -> bool,
    states1: Seq<S>,
    input1: Seq<N>,
    output1: Seq<N>,
    states2: Seq<S>,
    input2: Seq<N>,
    output2: Seq<N>,
)
    requires
        input1.len() == output1.len(),
        input2.len() == output2.len(),
        states1.len() == input1.len() + 1,
        states2.len() == input2.len() + 1,
        states1.last() == states2.first(),
        forall|i: int|
            0 <= i < input1.len() ==> step(
                #[trigger] states1[i],
                input1[i],
                states1[i + 1],
                output1[i],
            ),
        forall|i: int|
            0 <= i < input2.len() ==> step(
                #[trigger] states2[i],
                input2[i],
                states2[i + 1],
                output2[i],
            ),
    ensures
        ({
            let states = states1 + states2.skip(1);
            let input = input1 + input2;
            let output = output1 + output2;
            &&& states.len() == input.len() + 1
            &&& states.first() == states1.first()
            &&& states.last() == states2.last()
            &&& forall|i: int|
                0 <= i < input.len() ==> step(
                    #[trigger] states[i],
                    input[i],
                    states[i + 1],
                    output[i],
                )
        }),
{
    let states = states1 + states2.skip(1);
    let input = input1 + input2;
    let output = output1 + output2;
    let n = input1.len();
    assert forall|i: int| 0 <= i < input.len() implies step(
        #[trigger] states[i],
        input[i],
        states[i + 1],
        output[i],
    ) by {
        if i < n {
            assert(step(states1[i], input1[i], states1[i + 1], output1[i]));
        } else {
            let j = i - n;
            assert(step(states2[j], input2[j], states2[j + 1], output2[j]));
        }
    }
}

} // verus!
