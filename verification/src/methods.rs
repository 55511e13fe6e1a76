//! The methods by which the saturated filter is solved, where nothing is rounded: which lines stand
//! for the saturators, and which steps lead to the outputs.

use crate::algebra;
use crate::arithmetic::Arithmetic;
use crate::equations;
use crate::equations::Damping;
use crate::filter::SVF;
use crate::iterates;
use crate::laws;
use crate::linearity;
use crate::newton;
use crate::newton::{Iterate, Jacobian};
use crate::reading;
use crate::solvers;
use crate::term;
use crate::term::{Function, Reading};
use vstd::prelude::*;

verus! {

/// Two lines through the origin that meet the same value above an argument other than zero are one.
proof fn lemma_one_slope(a: real, b: real, e: real, t: real)
    requires
        e != 0 as real ==> a * e == t,
        e == 0 as real ==> a == 1 as real,
        e != 0 as real ==> b * e == t,
        e == 0 as real ==> b == 1 as real,
    ensures
        a == b,
{
    if e != 0 as real {
        algebra::lemma_distribute_left(e, a, b);
        algebra::lemma_cancel(a - b, e);
    }
}

/// The fixed-pivot method puts a line through the origin in the place of each saturator. The line
/// of the damping meets four times the inverse hyperbolic sine of a quarter at the first state,
/// the line of the second integrator meets the hyperbolic tangent there, and the line of the first
/// one meets it at what that integrator is handed where both stages are as the states. The outputs
/// solve, without a delay, the loop of these lines: the damping signal is the hyperbolic sine of
/// the band-pass output.
pub proof fn law_fixed_pivots_stand_at_the_states<A: Arithmetic>(
    pre: SVF<A>,
    input: A::Num,
    post: SVF<A>,
    a0: real,
    a1: real,
    a2: real,
    m: Reading<A::Num>,
)
    requires
        term::is_exact::<A>(m),
        reading::is_hyperbolic(m),
        SVF::<A>::pivotal_pass(pre, input, post),
        ({
            let g = (m.number)(pre.params.g);
            let k = (m.number)(pre.params.res);
            let s0 = (m.number)(pre.s[0]);
            let e0 = (m.number)(input) - (s0 * a2 + (k - 1 as real) * s0) - (m.number)(pre.s[1]);
            &&& s0 != 0 as real ==> a2 * s0 == 4 as real * (m.image)(
                Function::Asinh,
                s0 / 4 as real,
            )
            &&& s0 == 0 as real ==> a2 == 1 as real
            &&& s0 != 0 as real ==> a1 * s0 == (m.image)(Function::Tanh, s0)
            &&& s0 == 0 as real ==> a1 == 1 as real
            &&& e0 != 0 as real ==> a0 * e0 == (m.image)(Function::Tanh, e0)
            &&& e0 == 0 as real ==> a0 == 1 as real
            &&& (g > 0 as real && k >= 0 as real) || laws::pivotal_solvable(g, k, a0, a1, a2)
        }),
    ensures
        ({
            let g = (m.number)(pre.params.g);
            let k = (m.number)(pre.params.res);
            let v0 = (m.number)(post.vout[0]);
            let u = (m.image)(Function::Sinh, v0);
            let band = a2 * u;
            let low = (m.number)(pre.s[1]) + g * a1 * band;
            &&& band == (m.number)(pre.s[0]) + g * a0 * ((m.number)(input) - ((k - 1 as real) * band
                + u) - low)
            &&& v0 == (m.image)(Function::Asinh, u)
            &&& (m.number)(post.vout[1]) == (m.number)(pre.s[1]) + g * a1 * v0
        }),
        post.params == pre.params,
        post.s == pre.s,
{
    let (e0, b0, b1, b2) = choose|e0: A::Num, a0: A::Num, a1: A::Num, a2: A::Num| #[trigger]
        SVF::<A>::pivotal_solution(pre, input, e0, a0, a1, a2, post);
    let s0 = (m.number)(pre.s[0]);
    laws::law_pivots_meet_the_clipper::<A>(pre.s[0], b2, m);
    lemma_one_slope(
        a2,
        (m.number)(b2),
        s0,
        4 as real * (m.image)(Function::Asinh, s0 / 4 as real),
    );
    laws::law_pivots_meet_the_saturator::<A>(pre.s[0], b1, m);
    lemma_one_slope(a1, (m.number)(b1), s0, (m.image)(Function::Tanh, s0));
    iterates::lemma_pivot_estimate_value::<A>(pre, input, e0, b2, m);
    laws::law_pivots_meet_the_saturator::<A>(e0, b0, m);
    let e = (m.number)(e0);
    lemma_one_slope(a0, (m.number)(b0), e, (m.image)(Function::Tanh, e));
    let g = (m.number)(pre.params.g);
    let k = (m.number)(pre.params.res);
    if g > 0 as real && k >= 0 as real {
        laws::lemma_slopes_between::<A>(pre, input, e0, b0, b1, b2, m);
        laws::lemma_pivotal_solvable(g, k, a0, a1, a2);
    }
    let u = laws::lemma_pivotal_values::<A>(pre, input, e0, b0, b1, b2, post, m);
    assert((m.image)(Function::Sinh, (m.image)(Function::Asinh, u)) == u);
}

/// A step of Newton's method in full: what it changes in the estimates is what the residues, taken
/// along their slopes, ask for.
proof fn lemma_step_along_the_slopes<A: Arithmetic>(
    damping: Damping,
    filter: SVF<A>,
    input: A::Num,
    it: Iterate<A::Num>,
    next: Iterate<A::Num>,
    m: Reading<A::Num>,
)
    requires
        term::is_exact::<A>(m),
        reading::is_hyperbolic(m),
        iterates::is_steppable(damping, it, m),
        newton::newton_step::<A>(damping, filter, input, it, next),
    ensures
        ({
            let g = (m.number)(filter.params.g);
            let k = (m.number)(filter.params.res);
            let fb_slope = 1 as real - (m.number)(it.fb_line) * (m.number)(it.fb_line);
            let th_slope = 1 as real - (m.number)(it.tanh) * (m.number)(it.tanh);
            let v0 = (m.number)(it.v_est[0]);
            let c = match damping {
                Damping::Full => (m.image)(Function::Cosh, v0),
                Damping::Less => (m.image)(Function::Cosh, v0 / (15 as real / 10 as real)),
            };
            let p = g * (k - 1 as real + c) * fb_slope;
            let d0 = (m.number)(next.v_est[0]) - v0;
            let d1 = (m.number)(next.v_est[1]) - (m.number)(it.v_est[1]);
            1 as real + p + (g * fb_slope) * (g * th_slope) != 0 as real ==> {
                &&& d0 == (m.number)(it.residue[0]) - p * d0 - (g * fb_slope) * d1
                &&& d1 == (m.number)(it.residue[1]) + (g * th_slope) * d0
            }
        }),
{
    let g = (m.number)(filter.params.g);
    let k = (m.number)(filter.params.res);
    let j = choose|j: Jacobian<A::Num>|
        newton::jacobian_of::<A>(damping, filter.params.g, filter.params.res, it, j)
            && #[trigger] newton::steps_by::<A>(it, j, next);
    iterates::lemma_slopes::<A>(damping, filter.params.g, filter.params.res, it, j, m);
    let fb_slope = 1 as real - (m.number)(it.fb_line) * (m.number)(it.fb_line);
    let th_slope = 1 as real - (m.number)(it.tanh) * (m.number)(it.tanh);
    let c = iterates::damping_slope(damping, it, m);
    let p = g * (k - 1 as real + c) * fb_slope;
    let q = g * fb_slope;
    let r = g * th_slope;
    algebra::lemma_negated_factor(r, q);
    if 1 as real + p + q * r != 0 as real {
        laws::law_newton_step_removes_the_linear_residue::<A>(it, j, next, m);
        let d0 = (m.number)(next.v_est[0]) - (m.number)(it.v_est[0]);
        let d1 = (m.number)(next.v_est[1]) - (m.number)(it.v_est[1]);
        algebra::lemma_distribute_left(d0, -(1 as real), p);
        algebra::lemma_negated_factor(d1, q);
        assert((m.number)(j.j00) * d0 == -d0 - p * d0) by {
            algebra::lemma_negated_factor(d0, 1 as real);
            algebra::lemma_unit(1 as real, d0);
        }
    }
}

/// The residues that the estimates `v` leave in the saturated loop.
spec fn residues<N>(
    g: real,
    k: real,
    s0: real,
    s1: real,
    x: real,
    v: (real, real),
    m: Reading<N>,
) -> (real, real) {
    let fb = (m.image)(
        Function::Tanh,
        x - ((k - 1 as real) * v.0 + (m.image)(Function::Sinh, v.0)) - v.1,
    );
    (s0 + g * fb - v.0, s1 + g * (m.image)(Function::Tanh, v.0) - v.1)
}

/// Whether both residues are small enough.
spec fn are_small(r: (real, real)) -> bool {
    let error = 1 as real / 100000 as real;
    -error <= r.0 <= error && -error <= r.1 <= error
}

/// Whether a step that changes the estimates by `d` is what the residues `r` ask for along the
/// slopes, where `fb` and `th` are what the integrators are handed and `c` is the slope of the
/// damping.
spec fn is_asked_for(
    g: real,
    k: real,
    fb: real,
    th: real,
    c: real,
    r: (real, real),
    d: (real, real),
) -> bool {
    let fb_slope = 1 as real - fb * fb;
    let th_slope = 1 as real - th * th;
    let p = g * (k - 1 as real + c) * fb_slope;
    1 as real + p + (g * fb_slope) * (g * th_slope) != 0 as real ==> {
        &&& d.0 == r.0 - p * d.0 - (g * fb_slope) * d.1
        &&& d.1 == r.1 + (g * th_slope) * d.0
    }
}

/// The estimates of an iterate.
spec fn estimates<N>(it: Iterate<N>, m: Reading<N>) -> (real, real) {
    ((m.number)(it.v_est[0]), (m.number)(it.v_est[1]))
}

/// Newton's way along `trace`.
#[verifier::opaque]
spec fn goes_along<A: Arithmetic>(
    pre: SVF<A>,
    input: A::Num,
    trace: Seq<Iterate<A::Num>>,
    post: SVF<A>,
) -> bool {
    exists|a: SVF<A>, b: SVF<A>| #[trigger]
        SVF::<A>::newton_solution(pre, input, a, b, trace, post)
}

proof fn lemma_goes_along<A: Arithmetic>(
    pre: SVF<A>,
    input: A::Num,
    post: SVF<A>,
    m: Reading<A::Num>,
) -> (trace: Seq<Iterate<A::Num>>)
    requires
        term::is_exact::<A>(m),
        SVF::<A>::newton_pass(pre, input, post),
        linearity::linear_solvable::<A>(pre, m),
    ensures
        goes_along::<A>(pre, input, trace, post),
        1 <= trace.len() <= 12,
        post.vout == trace.last().v_est,
        ({
            let g = (m.number)(pre.params.g);
            let v = estimates(trace[0], m);
            &&& v.0 == (m.number)(pre.s[0]) + g * ((m.number)(input) - (m.number)(pre.params.res)
                * v.0 - v.1)
            &&& v.1 == (m.number)(pre.s[1]) + g * v.0
        }),
{
    let (a, b, trace) = choose|a: SVF<A>, b: SVF<A>, trace: Seq<Iterate<A::Num>>| #[trigger]
        SVF::<A>::newton_solution(pre, input, a, b, trace, post);
    reveal(goes_along);
    linearity::lemma_linear_values::<A>(pre, input, a, m);
    linearity::lemma_linear_values::<A>(a, input, b, m);
    laws::law_linear_filter_solves_its_loop::<A>(pre, input, a, m);
    trace
}

/// What an iterate on Newton's way comes to, and the step that is taken from it.
proof fn lemma_on_the_way<A: Arithmetic>(
    pre: SVF<A>,
    input: A::Num,
    trace: Seq<Iterate<A::Num>>,
    post: SVF<A>,
    i: int,
    m: Reading<A::Num>,
)
    requires
        term::is_exact::<A>(m),
        reading::is_hyperbolic(m),
        goes_along::<A>(pre, input, trace, post),
        0 <= i < trace.len(),
    ensures
        ({
            let g = (m.number)(pre.params.g);
            let k = (m.number)(pre.params.res);
            let x = (m.number)(input);
            let v = estimates(trace[i], m);
            let r = residues(g, k, (m.number)(pre.s[0]), (m.number)(pre.s[1]), x, v, m);
            let fb = (m.image)(
                Function::Tanh,
                x - ((k - 1 as real) * v.0 + (m.image)(Function::Sinh, v.0)) - v.1,
            );
            let th = (m.image)(Function::Tanh, v.0);
            let w = estimates(trace[i + 1], m);
            &&& i < trace.len() - 1 ==> !are_small(r)
            &&& i < trace.len() - 1 ==> is_asked_for(
                g,
                k,
                fb,
                th,
                (m.image)(Function::Cosh, v.0),
                r,
                (w.0 - v.0, w.1 - v.1),
            )
            &&& i == trace.len() - 1 && trace.len() < 12 ==> are_small(r)
        }),
{
    reveal(goes_along);
    let (a, b) = choose|a: SVF<A>, b: SVF<A>| #[trigger]
        SVF::<A>::newton_solution(pre, input, a, b, trace, post);
    let it = trace[i];
    let damping = Damping::Full;
    assert(iterates::stands_at_its_estimates::<A>(damping, pre, input, it)) by {
        if i > 0 {
            assert(newton::unsettled::<A>(trace[i - 1]));
            assert(newton::newton_step::<A>(damping, pre, input, trace[i - 1], trace[i - 1 + 1]));
        }
    }
    iterates::lemma_iterate_values::<A>(damping, pre, input, it, m);
    iterates::lemma_settles_where_small::<A>(it, m);
    if i < trace.len() - 1 {
        assert(newton::unsettled::<A>(trace[i]));
        assert(newton::newton_step::<A>(damping, pre, input, trace[i], trace[i + 1]));
        iterates::law_newton_iterates_are_steppable::<A>(damping, pre, input, it, m);
        lemma_step_along_the_slopes::<A>(damping, pre, input, it, trace[i + 1], m);
    }
}

/// Newton's method goes from the outputs of the linear filter, step by step, to its own. It goes
/// on while a residue, which is how far an estimate is from what its integrator makes of both, is
/// above a hundred-thousandth, and gives up after eleven steps. Each step asks of the estimates
/// what would take both residues away if the saturators and the damping followed their slopes:
/// those of the hyperbolic tangent are one less its square, that of the hyperbolic sine is the
/// hyperbolic cosine.
pub proof fn law_newton_steps_lead_to_the_outputs<A: Arithmetic>(
    pre: SVF<A>,
    input: A::Num,
    post: SVF<A>,
    m: Reading<A::Num>,
) -> (path: Seq<(real, real)>)
    requires
        term::is_exact::<A>(m),
        reading::is_hyperbolic(m),
        SVF::<A>::newton_pass(pre, input, post),
        1 as real + (m.number)(pre.params.g) * ((m.number)(pre.params.g) + (m.number)(
            pre.params.res,
        )) != 0 as real,
    ensures
        post.params == pre.params,
        post.s == pre.s,
        1 <= path.len() <= 12,
        ({
            let g = (m.number)(pre.params.g);
            let (v0, v1) = path[0];
            &&& v0 == (m.number)(pre.s[0]) + g * ((m.number)(input) - (m.number)(pre.params.res)
                * v0 - v1)
            &&& v1 == (m.number)(pre.s[1]) + g * v0
        }),
        path.last().0 == (m.number)(post.vout[0]),
        path.last().1 == (m.number)(post.vout[1]),
        path.len() < 12 ==> {
            let g = (m.number)(pre.params.g);
            let k = (m.number)(pre.params.res);
            let (v0, v1) = path.last();
            let fb = (m.image)(
                Function::Tanh,
                (m.number)(input) - ((k - 1 as real) * v0 + (m.image)(Function::Sinh, v0)) - v1,
            );
            let r0 = (m.number)(pre.s[0]) + g * fb - v0;
            let r1 = (m.number)(pre.s[1]) + g * (m.image)(Function::Tanh, v0) - v1;
            let error = 1 as real / 100000 as real;
            -error <= r0 <= error && -error <= r1 <= error
        },
        forall|i: int|
            #![trigger path[i]]
            0 <= i < path.len() - 1 ==> {
                let g = (m.number)(pre.params.g);
                let k = (m.number)(pre.params.res);
                let (v0, v1) = path[i];
                let fb = (m.image)(
                    Function::Tanh,
                    (m.number)(input) - ((k - 1 as real) * v0 + (m.image)(Function::Sinh, v0)) - v1,
                );
                let th = (m.image)(Function::Tanh, v0);
                let r0 = (m.number)(pre.s[0]) + g * fb - v0;
                let r1 = (m.number)(pre.s[1]) + g * th - v1;
                let error = 1 as real / 100000 as real;
                let fb_slope = 1 as real - fb * fb;
                let th_slope = 1 as real - th * th;
                let p = g * (k - 1 as real + (m.image)(Function::Cosh, v0)) * fb_slope;
                let d0 = path[i + 1].0 - v0;
                let d1 = path[i + 1].1 - v1;
                &&& !(-error <= r0 <= error && -error <= r1 <= error)
                &&& 1 as real + p + (g * fb_slope) * (g * th_slope) != 0 as real ==> d0 == r0 - p * d0 - (g
                    * fb_slope) * d1 && d1 == r1 + (g * th_slope) * d0
            },
{
    let trace = lemma_goes_along::<A>(pre, input, post, m);
    let path = Seq::new(trace.len(), |i: int| estimates(trace[i], m));
    assert forall|i: int|
        #![trigger path[i]]
        0 <= i < path.len() - 1 implies {
        let g = (m.number)(pre.params.g);
        let k = (m.number)(pre.params.res);
        let (v0, v1) = path[i];
        let fb = (m.image)(
            Function::Tanh,
            (m.number)(input) - ((k - 1 as real) * v0 + (m.image)(Function::Sinh, v0)) - v1,
        );
        let th = (m.image)(Function::Tanh, v0);
        let r0 = (m.number)(pre.s[0]) + g * fb - v0;
        let r1 = (m.number)(pre.s[1]) + g * th - v1;
        let error = 1 as real / 100000 as real;
        let fb_slope = 1 as real - fb * fb;
        let th_slope = 1 as real - th * th;
        let p = g * (k - 1 as real + (m.image)(Function::Cosh, v0)) * fb_slope;
        let d0 = path[i + 1].0 - v0;
        let d1 = path[i + 1].1 - v1;
        &&& !(-error <= r0 <= error && -error <= r1 <= error)
        &&& 1 as real + p + (g * fb_slope) * (g * th_slope) != 0 as real ==> d0 == r0 - p * d0 - (g
            * fb_slope) * d1 && d1 == r1 + (g * th_slope) * d0
    } by {
        lemma_on_the_way::<A>(pre, input, trace, post, i, m);
    }
    lemma_on_the_way::<A>(pre, input, trace, post, trace.len() - 1, m);
    path
}

/// The linear loop has one solution.
proof fn lemma_one_linear_solution(
    g: real,
    k: real,
    s0: real,
    s1: real,
    x: real,
    v: (real, real),
    w: (real, real),
)
    requires
        1 as real + g * (g + k) != 0 as real,
        v.0 == s0 + g * (x - k * v.0 - v.1),
        v.1 == s1 + g * v.0,
        w.0 == s0 + g * (x - k * w.0 - w.1),
        w.1 == s1 + g * w.0,
    ensures
        v == w,
{
    let d = v.0 - w.0;
    algebra::lemma_distribute(g, v.0, w.0);
    algebra::lemma_distribute(k, v.0, w.0);
    algebra::lemma_distribute(g, x - k * v.0 - v.1, x - k * w.0 - w.1);
    let e = k * d + g * d;
    assert(x - k * v.0 - v.1 - (x - k * w.0 - w.1) == -e);
    assert(d == g * (-e));
    algebra::lemma_negated_factor(g, e);
    algebra::lemma_distribute_left(d, g, k);
    algebra::lemma_associate(g, g + k, d);
    algebra::lemma_distribute_left(d, 1 as real, g * (g + k));
    algebra::lemma_unit(1 as real, d);
    assert((1 as real + g * (g + k)) * d == 0 as real);
    algebra::lemma_commute(1 as real + g * (g + k), d);
    algebra::lemma_cancel(d, 1 as real + g * (g + k));
}

/// Newton's way along `trace` with less anti-saturation, from the linear outputs `a` and `b`.
#[verifier::opaque]
spec fn goes_along_less<A: Arithmetic>(
    pre: SVF<A>,
    input: A::Num,
    a: SVF<A>,
    b: SVF<A>,
    trace: Seq<Iterate<A::Num>>,
    post: SVF<A>,
) -> bool {
    exists|p: SVF<A>| #[trigger]
        SVF::<A>::less_antisat_solution(pre, input, a, b, p, trace, post)
}

proof fn lemma_goes_along_less<A: Arithmetic>(
    pre: SVF<A>,
    input: A::Num,
    post: SVF<A>,
    l: (real, real),
    m: Reading<A::Num>,
) -> (r: (SVF<A>, SVF<A>, SVF<A>, Seq<Iterate<A::Num>>))
    requires
        term::is_exact::<A>(m),
        SVF::<A>::less_antisat_pass(pre, input, post),
        linearity::linear_solvable::<A>(pre, m),
        l.0 == (m.number)(pre.s[0]) + (m.number)(pre.params.g) * ((m.number)(input) - (m.number)(
            pre.params.res,
        ) * l.0 - l.1),
        l.1 == (m.number)(pre.s[1]) + (m.number)(pre.params.g) * l.0,
    ensures
        goes_along_less::<A>(pre, input, r.0, r.1, r.3, post),
        (m.number)(r.0.vout[0]) == l.0,
        (m.number)(r.1.vout[1]) == l.1,
        SVF::<A>::pivotal_pass(pre, input, r.2),
        r.3[0].v_est == r.2.vout,
        1 <= r.3.len() <= 12,
        post.vout == r.3.last().v_est,
{
    let (a, b, p, trace) = choose|
        a: SVF<A>,
        b: SVF<A>,
        p: SVF<A>,
        trace: Seq<Iterate<A::Num>>,
    | #[trigger]
        SVF::<A>::less_antisat_solution(pre, input, a, b, p, trace, post);
    reveal(goes_along_less);
    linearity::lemma_linear_values::<A>(pre, input, a, m);
    linearity::lemma_linear_values::<A>(a, input, b, m);
    laws::law_linear_filter_solves_its_loop::<A>(pre, input, a, m);
    lemma_one_linear_solution(
        (m.number)(pre.params.g),
        (m.number)(pre.params.res),
        (m.number)(pre.s[0]),
        (m.number)(pre.s[1]),
        (m.number)(input),
        ((m.number)(a.vout[0]), (m.number)(a.vout[1])),
        l,
    );
    solvers::lemma_pivotal_loop_decides::<A>(b, pre, input, p);
    (a, b, p.set_to(pre.params), trace)
}

/// What an iterate on Newton's way with less anti-saturation comes to, and the step that is taken
/// from it.
proof fn lemma_on_the_less_way<A: Arithmetic>(
    pre: SVF<A>,
    input: A::Num,
    a: SVF<A>,
    b: SVF<A>,
    trace: Seq<Iterate<A::Num>>,
    post: SVF<A>,
    i: int,
    m: Reading<A::Num>,
)
    requires
        term::is_exact::<A>(m),
        reading::is_hyperbolic(m),
        goes_along_less::<A>(pre, input, a, b, trace, post),
        0 <= i < trace.len(),
    ensures
        ({
            let g = (m.number)(pre.params.g);
            let k = (m.number)(pre.params.res);
            let v = estimates(trace[i], m);
            let at = if i == 0 {
                ((m.number)(a.vout[0]), (m.number)(b.vout[1]))
            } else {
                v
            };
            let width = if i == 0 {
                15 as real / 10 as real
            } else {
                2 as real
            };
            let fb = (m.image)(
                Function::Tanh,
                (m.number)(input) - ((k - 1 as real) * at.0 + width * (m.image)(
                    Function::Sinh,
                    at.0 / width,
                )) - at.1,
            );
            let th = (m.image)(Function::Tanh, at.0);
            let r = ((m.number)(pre.s[0]) + g * fb - v.0, (m.number)(pre.s[1]) + g * th - v.1);
            let w = estimates(trace[i + 1], m);
            &&& i < trace.len() - 1 ==> !are_small(r)
            &&& i < trace.len() - 1 ==> is_asked_for(
                g,
                k,
                fb,
                th,
                (m.image)(Function::Cosh, v.0 / (15 as real / 10 as real)),
                r,
                (w.0 - v.0, w.1 - v.1),
            )
            &&& i == trace.len() - 1 && trace.len() < 12 ==> are_small(r)
        }),
{
    reveal(goes_along_less);
    let p = choose|p: SVF<A>| #[trigger]
        SVF::<A>::less_antisat_solution(pre, input, a, b, p, trace, post);
    let it = trace[i];
    let damping = Damping::Less;
    if i > 0 {
        assert(newton::unsettled::<A>(trace[i - 1]));
        assert(newton::newton_step::<A>(damping, pre, input, trace[i - 1], trace[i - 1 + 1]));
        assert(iterates::stands_at_its_estimates::<A>(damping, pre, input, it));
        iterates::lemma_iterate_values::<A>(damping, pre, input, it, m);
    } else {
        iterates::lemma_first_less_values::<A>(pre, input, a.vout[0], b.vout[1], it, m);
    }
    iterates::lemma_settles_where_small::<A>(it, m);
    if i < trace.len() - 1 {
        assert(newton::unsettled::<A>(trace[i]));
        assert(newton::newton_step::<A>(damping, pre, input, trace[i], trace[i + 1]));
        assert(iterates::is_steppable(damping, it, m));
        lemma_step_along_the_slopes::<A>(damping, pre, input, it, trace[i + 1], m);
    }
}

/// With less anti-saturation, Newton's method goes from the outputs of the fixed-pivot method, step
/// by step, to its own. It goes on and gives up as with full anti-saturation. The damping is the
/// hyperbolic sine, widened by two, and its slope the hyperbolic cosine, widened by one and a half.
/// At first the saturators still stand at the linear outputs `l`, and the damping is widened by one
/// and a half as well.
pub proof fn law_less_antisat_steps_lead_to_the_outputs<A: Arithmetic>(
    pre: SVF<A>,
    input: A::Num,
    post: SVF<A>,
    l: (real, real),
    m: Reading<A::Num>,
) -> (r: (SVF<A>, Seq<(real, real)>))
    requires
        term::is_exact::<A>(m),
        reading::is_hyperbolic(m),
        SVF::<A>::less_antisat_pass(pre, input, post),
        1 as real + (m.number)(pre.params.g) * ((m.number)(pre.params.g) + (m.number)(
            pre.params.res,
        )) != 0 as real,
        l.0 == (m.number)(pre.s[0]) + (m.number)(pre.params.g) * ((m.number)(input) - (m.number)(
            pre.params.res,
        ) * l.0 - l.1),
        l.1 == (m.number)(pre.s[1]) + (m.number)(pre.params.g) * l.0,
    ensures
        post.params == pre.params,
        post.s == pre.s,
        SVF::<A>::pivotal_pass(pre, input, r.0),
        1 <= r.1.len() <= 12,
        r.1[0].0 == (m.number)(r.0.vout[0]),
        r.1[0].1 == (m.number)(r.0.vout[1]),
        r.1.last().0 == (m.number)(post.vout[0]),
        r.1.last().1 == (m.number)(post.vout[1]),
        forall|i: int|
            #![trigger r.1[i]]
            0 <= i < r.1.len() ==> {
                let g = (m.number)(pre.params.g);
                let k = (m.number)(pre.params.res);
                let v0 = r.1[i].0;
                let v1 = r.1[i].1;
                let at0 = if i == 0 {
                    l.0
                } else {
                    v0
                };
                let at1 = if i == 0 {
                    l.1
                } else {
                    v1
                };
                let width = if i == 0 {
                    15 as real / 10 as real
                } else {
                    2 as real
                };
                let fb = (m.image)(
                    Function::Tanh,
                    (m.number)(input) - ((k - 1 as real) * at0 + width * (m.image)(
                        Function::Sinh,
                        at0 / width,
                    )) - at1,
                );
                let th = (m.image)(Function::Tanh, at0);
                let r0 = (m.number)(pre.s[0]) + g * fb - v0;
                let r1 = (m.number)(pre.s[1]) + g * th - v1;
                let error = 1 as real / 100000 as real;
                let settled = -error <= r0 <= error && -error <= r1 <= error;
                let fb_slope = 1 as real - fb * fb;
                let th_slope = 1 as real - th * th;
                let c = (m.image)(Function::Cosh, v0 / (15 as real / 10 as real));
                let p = g * (k - 1 as real + c) * fb_slope;
                let d0 = r.1[i + 1].0 - v0;
                let d1 = r.1[i + 1].1 - v1;
                &&& i == r.1.len() - 1 ==> settled || r.1.len() == 12
                &&& i < r.1.len() - 1 ==> !settled
                &&& i < r.1.len() - 1 && 1 as real + p + (g * fb_slope) * (g * th_slope) != 0 as real ==> d0
                    == r0 - p * d0 - (g * fb_slope) * d1 && d1 == r1 + (g * th_slope) * d0
            },
{
    let (a, b, pivoted, trace) = lemma_goes_along_less::<A>(pre, input, post, l, m);
    let path = Seq::new(trace.len(), |i: int| estimates(trace[i], m));
    let r = (pivoted, path);
    assert forall|i: int|
        #![trigger r.1[i]]
        0 <= i < r.1.len() implies {
        let g = (m.number)(pre.params.g);
        let k = (m.number)(pre.params.res);
        let v0 = r.1[i].0;
        let v1 = r.1[i].1;
        let at0 = if i == 0 {
            l.0
        } else {
            v0
        };
        let at1 = if i == 0 {
            l.1
        } else {
            v1
        };
        let width = if i == 0 {
            15 as real / 10 as real
        } else {
            2 as real
        };
        let fb = (m.image)(
            Function::Tanh,
            (m.number)(input) - ((k - 1 as real) * at0 + width * (m.image)(
                Function::Sinh,
                at0 / width,
            )) - at1,
        );
        let th = (m.image)(Function::Tanh, at0);
        let r0 = (m.number)(pre.s[0]) + g * fb - v0;
        let r1 = (m.number)(pre.s[1]) + g * th - v1;
        let error = 1 as real / 100000 as real;
        let settled = -error <= r0 <= error && -error <= r1 <= error;
        let fb_slope = 1 as real - fb * fb;
        let th_slope = 1 as real - th * th;
        let c = (m.image)(Function::Cosh, v0 / (15 as real / 10 as real));
        let p = g * (k - 1 as real + c) * fb_slope;
        let d0 = r.1[i + 1].0 - v0;
        let d1 = r.1[i + 1].1 - v1;
        &&& i == r.1.len() - 1 ==> settled || r.1.len() == 12
        &&& i < r.1.len() - 1 ==> !settled
        &&& i < r.1.len() - 1 && 1 as real + p + (g * fb_slope) * (g * th_slope) != 0 as real ==> d0
            == r0 - p * d0 - (g * fb_slope) * d1 && d1 == r1 + (g * th_slope) * d0
    } by {
        lemma_on_the_less_way::<A>(pre, input, a, b, trace, post, i, m);
    }
    r
}

/// With full anti-saturation the Jacobian takes the slope of the damping from the saturators alone:
/// it is the hyperbolic sine over the hyperbolic tangent, and one where the latter is zero.
pub proof fn law_the_damping_slope_comes_from_the_saturators<A: Arithmetic>(
    g: A::Num,
    k: A::Num,
    it: Iterate<A::Num>,
    j: Jacobian<A::Num>,
    c: real,
    m: Reading<A::Num>,
)
    requires
        term::is_exact::<A>(m),
        newton::jacobian_of::<A>(Damping::Full, g, k, it, j),
        1 as real - (m.number)(it.fb_line) * (m.number)(it.fb_line) != 0 as real,
        (m.number)(it.tanh) != 0 as real ==> c * (m.number)(it.tanh) == (m.number)(it.sinh),
        (m.number)(it.tanh) == 0 as real ==> c == 1 as real,
    ensures
        (m.number)(j.j00) == -(1 as real) - (m.number)(g) * ((m.number)(k) - 1 as real + c) * (
        1 as real - (m.number)(it.fb_line) * (m.number)(it.fb_line)),
{
    reading::lemma_readings::<A::Num>(m);
    let d = laws::lemma_jacobian_entries::<A>(Damping::Full, g, k, it, j, m);
    let slope = equations::sinh_slope(term::val(it.sinh), term::val(it.tanh));
    laws::lemma_pivot_slope::<A>(it.tanh, slope, d, m);
    if (m.number)(it.tanh) != 0 as real {
        term::law_exact_value::<A>(slope, d, m);
        algebra::lemma_quotient((m.number)(it.sinh), (m.number)(it.tanh));
    }
    lemma_one_slope(c, (m.number)(d), (m.number)(it.tanh), (m.number)(it.sinh));
}

/// Where the feedback line is found to be saturated beyond measure, the Jacobian takes it for
/// level: the first residue then falls as the first estimate grows, and does not change with the
/// second. The second residue changes with the first estimate as ever.
pub proof fn law_a_line_saturated_beyond_measure_is_level<A: Arithmetic>(
    damping: Damping,
    g: A::Num,
    k: A::Num,
    it: Iterate<A::Num>,
    j: Jacobian<A::Num>,
    m: Reading<A::Num>,
)
    requires
        newton::jacobian_of::<A>(damping, g, k, it, j),
        forall|slope: A::Num, found: bool|
            term::yields::<A>(
                term::num(1).over(
                    term::num(1).minus(term::val(it.fb_line).times(term::val(it.fb_line))),
                ),
                slope,
            ) && #[trigger] call_ensures(A::is_infinite, (slope,), found) ==> found,
        forall|v: A::Num| #[trigger]
            call_ensures(A::decimal, (0i32, 0u32), v) ==> (m.number)(v) == 0 as real,
        forall|v: A::Num| #[trigger]
            call_ensures(A::decimal, (1i32, 0u32), v) ==> (m.number)(v) == 1 as real,
        forall|v: A::Num, w: A::Num| #[trigger]
            call_ensures(A::negated, (v,), w) ==> (m.number)(w) == -(m.number)(v),
    ensures
        (m.number)(j.j00) == -(1 as real),
        (m.number)(j.j01) == 0 as real,
        damping == Damping::Full ==> term::yields::<A>(
            term::val(g).times(
                term::num(1).minus(term::val(it.tanh).times(term::val(it.tanh))),
            ),
            j.j10,
        ),
        damping == Damping::Less ==> term::yields::<A>(
            term::val(g).times(term::num(1).minus(term::val(it.tanh).squared())),
            j.j10,
        ),
{
    let one = term::lemma_negation::<A>(term::num(1), j.j00);
}

} // verus!
