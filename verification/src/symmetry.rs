//! The saturated filter has no bias: opposite states and inputs give opposite outputs.

use crate::algebra;
use crate::arithmetic::Arithmetic;
use crate::equations;
use crate::equations::Damping;
use crate::filter::SVF;
use crate::iterates;
use crate::laws;
use crate::linearity;
use crate::newton;
use crate::newton::{Iterate, Jacobian};
use crate::reading;
use crate::term;
use crate::term::{Function, Reading};
use vstd::prelude::*;

verus! {

/// Whether two numbers are read as opposites.
pub open spec fn opposite<N>(a: N, b: N, m: Reading<N>) -> bool {
    (m.number)(b) == -(m.number)(a)
}

/// Whether two iterates are opposites of each other.
pub open spec fn mirrored<N>(it1: Iterate<N>, it2: Iterate<N>, m: Reading<N>) -> bool {
    &&& opposite(it1.v_est[0], it2.v_est[0], m)
    &&& opposite(it1.v_est[1], it2.v_est[1], m)
    &&& opposite(it1.sinh, it2.sinh, m)
    &&& opposite(it1.tanh, it2.tanh, m)
    &&& opposite(it1.fb_line, it2.fb_line, m)
    &&& opposite(it1.residue[0], it2.residue[0], m)
    &&& opposite(it1.residue[1], it2.residue[1], m)
}

/// Whether two filters are set alike and have opposite states.
pub open spec fn mirrored_filters<A: Arithmetic>(
    filter1: SVF<A>,
    filter2: SVF<A>,
    m: Reading<A::Num>,
) -> bool {
    &&& filter2.params == filter1.params
    &&& opposite(filter1.s[0], filter2.s[0], m)
    &&& opposite(filter1.s[1], filter2.s[1], m)
}

/// Iterates with opposite estimates are opposites.
proof fn lemma_mirrored_iterates<A: Arithmetic>(
    damping: Damping,
    filter1: SVF<A>,
    input1: A::Num,
    it1: Iterate<A::Num>,
    filter2: SVF<A>,
    input2: A::Num,
    it2: Iterate<A::Num>,
    m: Reading<A::Num>,
)
    requires
        term::is_exact::<A>(m),
        reading::is_hyperbolic(m),
        mirrored_filters::<A>(filter1, filter2, m),
        opposite(input1, input2, m),
        opposite(it1.v_est[0], it2.v_est[0], m),
        opposite(it1.v_est[1], it2.v_est[1], m),
        iterates::stands_at_its_estimates::<A>(damping, filter1, input1, it1),
        iterates::stands_at_its_estimates::<A>(damping, filter2, input2, it2),
    ensures
        mirrored(it1, it2, m),
{
    iterates::lemma_iterate_values::<A>(damping, filter1, input1, it1, m);
    iterates::lemma_iterate_values::<A>(damping, filter2, input2, it2, m);
    let g = (m.number)(filter1.params.g);
    let k = (m.number)(filter1.params.res);
    let v0 = (m.number)(it1.v_est[0]);
    algebra::lemma_negated_factor(k - 1 as real, v0);
    assert((m.number)(it2.v_est[0]) / 2 as real == -(v0 / 2 as real));
    let w1 = (m.number)(input1) - ((k - 1 as real) * v0 + (m.number)(it1.sinh)) - (m.number)(
        it1.v_est[1],
    );
    let w2 = (m.number)(input2) - ((k - 1 as real) * (m.number)(it2.v_est[0]) + (m.number)(it2.sinh))
        - (m.number)(it2.v_est[1]);
    assert((m.number)(it2.sinh) == -(m.number)(it1.sinh));
    assert((m.number)(it2.tanh) == -(m.number)(it1.tanh));
    assert(w2 == -w1);
    assert((m.image)(Function::Tanh, w2) == -(m.image)(Function::Tanh, w1));
    algebra::lemma_negated_factor(g, (m.number)(it1.fb_line));
    algebra::lemma_negated_factor(g, (m.number)(it1.tanh));
}

/// Opposite iterates have the same Jacobian, so that a step leads them to opposite estimates.
proof fn lemma_mirrored_estimates<A: Arithmetic>(
    damping: Damping,
    filter: SVF<A>,
    it1: Iterate<A::Num>,
    j1: Jacobian<A::Num>,
    next1: Iterate<A::Num>,
    it2: Iterate<A::Num>,
    j2: Jacobian<A::Num>,
    next2: Iterate<A::Num>,
    m: Reading<A::Num>,
)
    requires
        term::is_exact::<A>(m),
        reading::is_hyperbolic(m),
        iterates::step_divisor::<A>(damping, filter, it1, m) != 0 as real,
        mirrored(it1, it2, m),
        iterates::is_steppable(damping, it1, m),
        iterates::is_steppable(damping, it2, m),
        newton::jacobian_of::<A>(damping, filter.params.g, filter.params.res, it1, j1),
        newton::jacobian_of::<A>(damping, filter.params.g, filter.params.res, it2, j2),
        newton::steps_by::<A>(it1, j1, next1),
        newton::steps_by::<A>(it2, j2, next2),
    ensures
        opposite(next1.v_est[0], next2.v_est[0], m),
        opposite(next1.v_est[1], next2.v_est[1], m),
{
    let g = filter.params.g;
    let k = filter.params.res;
    iterates::lemma_slopes::<A>(damping, g, k, it1, j1, m);
    iterates::lemma_slopes::<A>(damping, g, k, it2, j2, m);
    algebra::lemma_negated_factor((m.number)(it1.fb_line), (m.number)(it1.fb_line));
    algebra::lemma_negated_factor((m.number)(it1.tanh), (m.number)(it1.tanh));
    lemma_cosh_even(m, (m.number)(it1.v_est[0]), (m.number)(it2.v_est[0]));
    let width = 15 as real / 10 as real;
    assert((m.number)(it2.v_est[0]) / width == -((m.number)(it1.v_est[0]) / width));
    lemma_cosh_even(m, (m.number)(it1.v_est[0]) / width, (m.number)(it2.v_est[0]) / width);
    let j00 = (m.number)(j1.j00);
    let j01 = (m.number)(j1.j01);
    let j10 = (m.number)(j1.j10);
    assert((m.number)(j2.j00) == j00);
    assert((m.number)(j2.j01) == j01);
    assert((m.number)(j2.j10) == j10);
    iterates::lemma_step_values::<A>(it1, j1, next1, m);
    iterates::lemma_step_values::<A>(it2, j2, next2, m);
    let v0 = (m.number)(it1.v_est[0]);
    let v1 = (m.number)(it1.v_est[1]);
    let r0 = (m.number)(it1.residue[0]);
    let r1 = (m.number)(it1.residue[1]);
    algebra::lemma_negated_factor(j01 * j10, v0);
    algebra::lemma_negated_factor(j01 * j10, v1);
    algebra::lemma_negated_factor(j00, v0);
    algebra::lemma_negated_factor(j00, v1);
    algebra::lemma_negated_factor(j01, r1);
    algebra::lemma_negated_factor(j00, r1);
    algebra::lemma_negated_factor(j10, r0);
    algebra::lemma_negated_quotient(
        j01 * j10 * v0 + j00 * v0 - j01 * r1 - r0,
        j01 * j10 + j00,
    );
    algebra::lemma_negated_quotient(
        j01 * j10 * v1 + j00 * r1 + j00 * v1 - j10 * r0,
        j01 * j10 + j00,
    );
}

/// The hyperbolic cosine is even, as the quotient of two odd functions.
proof fn lemma_cosh_even<N>(m: Reading<N>, x: real, y: real)
    requires
        reading::is_hyperbolic(m),
        y == -x,
    ensures
        (m.image)(Function::Cosh, y) == (m.image)(Function::Cosh, x),
{
    let th = (m.image)(Function::Tanh, x);
    let c = (m.image)(Function::Cosh, x);
    let d = (m.image)(Function::Cosh, y);
    reading::lemma_tanh_sign(m, x);
    if x != 0 as real {
        assert((m.image)(Function::Tanh, y) == -th);
        assert((m.image)(Function::Sinh, y) == -(m.image)(Function::Sinh, x));
        assert((-th) * d == -(th * c));
        algebra::lemma_negated_factor(d, th);
        algebra::lemma_distribute(th, d, c);
        algebra::lemma_cancel(d - c, th);
    }
}

/// Newton's method leads opposite iterates to opposite iterates.
proof fn lemma_mirrored_step<A: Arithmetic>(
    damping: Damping,
    filter1: SVF<A>,
    input1: A::Num,
    it1: Iterate<A::Num>,
    next1: Iterate<A::Num>,
    filter2: SVF<A>,
    input2: A::Num,
    it2: Iterate<A::Num>,
    next2: Iterate<A::Num>,
    m: Reading<A::Num>,
)
    requires
        term::is_exact::<A>(m),
        reading::is_hyperbolic(m),
        iterates::step_divisor::<A>(damping, filter1, it1, m) != 0 as real,
        mirrored_filters::<A>(filter1, filter2, m),
        opposite(input1, input2, m),
        mirrored(it1, it2, m),
        iterates::is_steppable(damping, it1, m),
        iterates::is_steppable(damping, it2, m),
        newton::newton_step::<A>(damping, filter1, input1, it1, next1),
        newton::newton_step::<A>(damping, filter2, input2, it2, next2),
    ensures
        mirrored(next1, next2, m),
{
    let g = filter1.params.g;
    let k = filter1.params.res;
    let j1 = choose|j: Jacobian<A::Num>|
        newton::jacobian_of::<A>(damping, g, k, it1, j) && #[trigger] newton::steps_by::<A>(
            it1,
            j,
            next1,
        );
    let j2 = choose|j: Jacobian<A::Num>|
        newton::jacobian_of::<A>(damping, g, k, it2, j) && #[trigger] newton::steps_by::<A>(
            it2,
            j,
            next2,
        );
    lemma_mirrored_estimates::<A>(damping, filter1, it1, j1, next1, it2, j2, next2, m);
    lemma_mirrored_iterates::<A>(damping, filter1, input1, next1, filter2, input2, next2, m);
}

proof fn lemma_mirrored_traces<A: Arithmetic>(
    damping: Damping,
    filter1: SVF<A>,
    input1: A::Num,
    trace1: Seq<Iterate<A::Num>>,
    filter2: SVF<A>,
    input2: A::Num,
    trace2: Seq<Iterate<A::Num>>,
    i: int,
    m: Reading<A::Num>,
)
    requires
        term::is_exact::<A>(m),
        reading::is_hyperbolic(m),
        iterates::steps_are_solvable::<A>(damping, filter1, trace1, m),
        mirrored_filters::<A>(filter1, filter2, m),
        opposite(input1, input2, m),
        newton::newton_chain::<A>(damping, filter1, input1, trace1),
        newton::newton_chain::<A>(damping, filter2, input2, trace2),
        0 <= i < trace1.len(),
        i < trace2.len(),
        mirrored(trace1.first(), trace2.first(), m),
        iterates::is_steppable(damping, trace1.first(), m),
        iterates::is_steppable(damping, trace2.first(), m),
    ensures
        mirrored(trace1[i], trace2[i], m),
    decreases i,
{
    if i > 0 {
        lemma_mirrored_traces::<A>(
            damping,
            filter1,
            input1,
            trace1,
            filter2,
            input2,
            trace2,
            i - 1,
            m,
        );
        iterates::lemma_trace_steppable::<A>(damping, filter1, input1, trace1, i - 1, m);
        iterates::lemma_trace_steppable::<A>(damping, filter2, input2, trace2, i - 1, m);
        assert(newton::unsettled::<A>(trace1[i - 1]));
        assert(newton::unsettled::<A>(trace2[i - 1]));
        assert(newton::newton_step::<A>(
            damping,
            filter1,
            input1,
            trace1[i - 1],
            trace1[i - 1 + 1],
        ));
        assert(newton::newton_step::<A>(
            damping,
            filter2,
            input2,
            trace2[i - 1],
            trace2[i - 1 + 1],
        ));
        lemma_mirrored_step::<A>(
            damping,
            filter1,
            input1,
            trace1[i - 1],
            trace1[i],
            filter2,
            input2,
            trace2[i - 1],
            trace2[i],
            m,
        );
    }
}

/// Opposite residues are small enough alike.
proof fn lemma_mirrored_residues<N>(it1: Iterate<N>, it2: Iterate<N>, m: Reading<N>)
    requires
        mirrored(it1, it2, m),
    ensures
        iterates::has_small_residues(it1, m) == iterates::has_small_residues(it2, m),
{
}

/// The linear filter takes opposite states and inputs to opposite outputs.
pub proof fn law_linear_filter_has_no_bias<A: Arithmetic>(
    pre1: SVF<A>,
    input1: A::Num,
    post1: SVF<A>,
    pre2: SVF<A>,
    input2: A::Num,
    post2: SVF<A>,
    m: Reading<A::Num>,
)
    requires
        term::is_exact::<A>(m),
        linearity::linear_solvable::<A>(pre1, m),
        mirrored_filters::<A>(pre1, pre2, m),
        opposite(input1, input2, m),
        SVF::<A>::linear_pass(pre1, input1, post1),
        SVF::<A>::linear_pass(pre2, input2, post2),
    ensures
        opposite(post1.vout[0], post2.vout[0], m),
        opposite(post1.vout[1], post2.vout[1], m),
{
    linearity::lemma_linear_values::<A>(pre1, input1, post1, m);
    linearity::lemma_linear_values::<A>(pre2, input2, post2, m);
    let g = (m.number)(pre1.params.g);
    let k = (m.number)(pre1.params.res);
    let i = 1 as real / (1 as real + g * (g + k));
    algebra::lemma_negated_factor(i, (m.number)(pre1.s[0]));
    let y = (m.number)(input1) - (m.number)(pre1.s[1]);
    assert((m.number)(input2) - (m.number)(pre2.s[1]) == -y);
    algebra::lemma_negated_factor(g * i, y);
    algebra::lemma_negated_factor(g, (m.number)(post1.vout[0]));
}

/// The lines that stand for a saturator at opposite estimates have the same slope.
proof fn lemma_mirrored_slopes(e: real, a: real, f: real, b: real, t: real, r: real)
    requires
        f == -e,
        r == -t,
        e != 0 as real ==> a * e == t,
        e == 0 as real ==> a == 1 as real,
        f != 0 as real ==> b * f == r,
        f == 0 as real ==> b == 1 as real,
    ensures
        a == b,
{
    if e != 0 as real {
        algebra::lemma_negated_factor(b, e);
        algebra::lemma_distribute(e, a, b);
        algebra::lemma_cancel(a - b, e);
    }
}

/// Filters that are opposites have the same slopes for an opposite input.
proof fn lemma_same_slopes<A: Arithmetic>(
    pre1: SVF<A>,
    input1: A::Num,
    e1: A::Num,
    a01: A::Num,
    a11: A::Num,
    a21: A::Num,
    pre2: SVF<A>,
    input2: A::Num,
    e2: A::Num,
    a02: A::Num,
    a12: A::Num,
    a22: A::Num,
    m: Reading<A::Num>,
)
    requires
        term::is_exact::<A>(m),
        reading::is_hyperbolic(m),
        mirrored_filters::<A>(pre1, pre2, m),
        opposite(input1, input2, m),
        SVF::<A>::pivot_slopes(pre1, input1, e1, a01, a11, a21),
        SVF::<A>::pivot_slopes(pre2, input2, e2, a02, a12, a22),
    ensures
        (m.number)(a01) == (m.number)(a02),
        (m.number)(a11) == (m.number)(a12),
        (m.number)(a21) == (m.number)(a22),
{
    let s = (m.number)(pre1.s[0]);
    let t = (m.number)(pre2.s[0]);
    laws::law_pivots_meet_the_clipper::<A>(pre1.s[0], a21, m);
    laws::law_pivots_meet_the_clipper::<A>(pre2.s[0], a22, m);
    assert(t / 4 as real == -(s / 4 as real));
    lemma_mirrored_slopes(
        s,
        (m.number)(a21),
        t,
        (m.number)(a22),
        4 as real * (m.image)(Function::Asinh, s / 4 as real),
        4 as real * (m.image)(Function::Asinh, t / 4 as real),
    );
    laws::law_pivots_meet_the_saturator::<A>(pre1.s[0], a11, m);
    laws::law_pivots_meet_the_saturator::<A>(pre2.s[0], a12, m);
    lemma_mirrored_slopes(
        s,
        (m.number)(a11),
        t,
        (m.number)(a12),
        (m.image)(Function::Tanh, s),
        (m.image)(Function::Tanh, t),
    );
    iterates::lemma_pivot_estimate_value::<A>(pre1, input1, e1, a21, m);
    iterates::lemma_pivot_estimate_value::<A>(pre2, input2, e2, a22, m);
    let k = (m.number)(pre1.params.res);
    algebra::lemma_negated_factor((m.number)(a21), s);
    algebra::lemma_negated_factor(k - 1 as real, s);
    laws::law_pivots_meet_the_saturator::<A>(e1, a01, m);
    laws::law_pivots_meet_the_saturator::<A>(e2, a02, m);
    lemma_mirrored_slopes(
        (m.number)(e1),
        (m.number)(a01),
        (m.number)(e2),
        (m.number)(a02),
        (m.image)(Function::Tanh, (m.number)(e1)),
        (m.image)(Function::Tanh, (m.number)(e2)),
    );
}

/// Whether the fixed-pivot method leads from `pre` to `post` without dividing by zero.
pub open spec fn pivotal_run<A: Arithmetic>(
    pre: SVF<A>,
    input: A::Num,
    post: SVF<A>,
    m: Reading<A::Num>,
) -> bool {
    &&& SVF::<A>::same_but_vout(pre, post)
    &&& exists|e0: A::Num, a0: A::Num, a1: A::Num, a2: A::Num|
        {
            &&& #[trigger] SVF::<A>::pivotal_solution(pre, input, e0, a0, a1, a2, post)
            &&& laws::pivotal_solvable(
                (m.number)(pre.params.g),
                (m.number)(pre.params.res),
                (m.number)(a0),
                (m.number)(a1),
                (m.number)(a2),
            )
        }
}

/// Whether Newton's method leads from `pre` to `post` without dividing by zero.
pub open spec fn newton_run<A: Arithmetic>(
    pre: SVF<A>,
    input: A::Num,
    post: SVF<A>,
    m: Reading<A::Num>,
) -> bool {
    &&& SVF::<A>::same_but_vout(pre, post)
    &&& linearity::linear_solvable::<A>(pre, m)
    &&& exists|a: SVF<A>, b: SVF<A>, trace: Seq<Iterate<A::Num>>|
        {
            &&& #[trigger] SVF::<A>::newton_solution(pre, input, a, b, trace, post)
            &&& iterates::steps_are_solvable::<A>(Damping::Full, pre, trace, m)
        }
}

/// Whether Newton's method with less anti-saturation leads from `pre` to `post` without dividing
/// by zero.
pub open spec fn less_antisat_run<A: Arithmetic>(
    pre: SVF<A>,
    input: A::Num,
    post: SVF<A>,
    m: Reading<A::Num>,
) -> bool {
    &&& SVF::<A>::same_but_vout(pre, post)
    &&& linearity::linear_solvable::<A>(pre, m)
    &&& exists|a: SVF<A>, b: SVF<A>, p: SVF<A>, trace: Seq<Iterate<A::Num>>|
        {
            &&& #[trigger] SVF::<A>::less_antisat_solution(pre, input, a, b, p, trace, post)
            &&& pivotal_run::<A>(b, input, p, m)
            &&& iterates::steps_are_solvable::<A>(Damping::Less, pre, trace, m)
        }
}

/// With a positive gain and a damping that is not negative, no solver divides by zero.
pub proof fn law_damped_runs_are_solvable<A: Arithmetic>(
    pre: SVF<A>,
    input: A::Num,
    post: SVF<A>,
    m: Reading<A::Num>,
)
    requires
        term::is_exact::<A>(m),
        reading::is_hyperbolic(m),
        (m.number)(pre.params.g) > 0 as real,
        (m.number)(pre.params.res) >= 0 as real,
    ensures
        linearity::linear_solvable::<A>(pre, m),
        SVF::<A>::pivotal_pass(pre, input, post) ==> pivotal_run::<A>(pre, input, post, m),
        SVF::<A>::newton_pass(pre, input, post) ==> newton_run::<A>(pre, input, post, m),
        SVF::<A>::less_antisat_pass(pre, input, post) ==> less_antisat_run::<A>(
            pre,
            input,
            post,
            m,
        ),
{
    iterates::lemma_damped_is_solvable::<A>(pre, m);
    if SVF::<A>::pivotal_pass(pre, input, post) {
        lemma_damped_pivotal_run::<A>(pre, input, post, m);
    }
    if SVF::<A>::newton_pass(pre, input, post) {
        let (a, b, trace) = choose|a: SVF<A>, b: SVF<A>, trace: Seq<Iterate<A::Num>>| #[trigger]
            SVF::<A>::newton_solution(pre, input, a, b, trace, post);
        iterates::law_newton_iterates_are_steppable::<A>(
            Damping::Full,
            pre,
            input,
            trace.first(),
            m,
        );
        iterates::law_damped_steps_are_solvable::<A>(Damping::Full, pre, input, trace, m);
    }
    if SVF::<A>::less_antisat_pass(pre, input, post) {
        let (a, b, p, trace) = choose|
            a: SVF<A>,
            b: SVF<A>,
            p: SVF<A>,
            trace: Seq<Iterate<A::Num>>,
        | #[trigger]
            SVF::<A>::less_antisat_solution(pre, input, a, b, p, trace, post);
        lemma_damped_pivotal_run::<A>(b, input, p, m);
        iterates::lemma_first_less_values::<A>(
            pre,
            input,
            a.vout[0],
            b.vout[1],
            trace.first(),
            m,
        );
        iterates::law_damped_steps_are_solvable::<A>(Damping::Less, pre, input, trace, m);
    }
}

proof fn lemma_damped_pivotal_run<A: Arithmetic>(
    pre: SVF<A>,
    input: A::Num,
    post: SVF<A>,
    m: Reading<A::Num>,
)
    requires
        term::is_exact::<A>(m),
        reading::is_hyperbolic(m),
        (m.number)(pre.params.g) > 0 as real,
        (m.number)(pre.params.res) >= 0 as real,
        SVF::<A>::pivotal_pass(pre, input, post),
    ensures
        pivotal_run::<A>(pre, input, post, m),
{
    let (e0, a0, a1, a2) = choose|e0: A::Num, a0: A::Num, a1: A::Num, a2: A::Num| #[trigger]
        SVF::<A>::pivotal_solution(pre, input, e0, a0, a1, a2, post);
    laws::lemma_slopes_between::<A>(pre, input, e0, a0, a1, a2, m);
    laws::lemma_pivotal_solvable(
        (m.number)(pre.params.g),
        (m.number)(pre.params.res),
        (m.number)(a0),
        (m.number)(a1),
        (m.number)(a2),
    );
}

/// Opposite states and inputs give opposite damping signals.
proof fn lemma_opposite_damping_signals(
    c: real,
    s0: real,
    s1: real,
    x: real,
    g1: real,
    g2: real,
    g3: real,
)
    ensures
        (c * (-x) - c * (-s1) + (-s0)) * g1 * g2 * g3 == -((c * x - c * s1 + s0) * g1 * g2 * g3),
{
    let n = c * x - c * s1 + s0;
    algebra::lemma_negated_factor(c, x);
    algebra::lemma_negated_factor(c, s1);
    algebra::lemma_negated_factor(g1, n);
    algebra::lemma_negated_factor(g2, n * g1);
    algebra::lemma_negated_factor(g3, n * g1 * g2);
}

/// The fixed-pivot method takes opposite states and inputs to opposite outputs.
proof fn lemma_mirrored_pivotal_outputs<A: Arithmetic>(
    pre1: SVF<A>,
    input1: A::Num,
    post1: SVF<A>,
    pre2: SVF<A>,
    input2: A::Num,
    post2: SVF<A>,
    m: Reading<A::Num>,
)
    requires
        term::is_exact::<A>(m),
        reading::is_hyperbolic(m),
        mirrored_filters::<A>(pre1, pre2, m),
        opposite(input1, input2, m),
        pivotal_run::<A>(pre1, input1, post1, m),
        SVF::<A>::pivotal_pass(pre2, input2, post2),
    ensures
        opposite(post1.vout[0], post2.vout[0], m),
        opposite(post1.vout[1], post2.vout[1], m),
{
    let (e1, a01, a11, a21) = choose|e0: A::Num, a0: A::Num, a1: A::Num, a2: A::Num|
        {
            &&& #[trigger] SVF::<A>::pivotal_solution(pre1, input1, e0, a0, a1, a2, post1)
            &&& laws::pivotal_solvable(
                (m.number)(pre1.params.g),
                (m.number)(pre1.params.res),
                (m.number)(a0),
                (m.number)(a1),
                (m.number)(a2),
            )
        };
    let (e2, a02, a12, a22) = choose|e0: A::Num, a0: A::Num, a1: A::Num, a2: A::Num| #[trigger]
        SVF::<A>::pivotal_solution(pre2, input2, e0, a0, a1, a2, post2);
    lemma_same_slopes::<A>(
        pre1,
        input1,
        e1,
        a01,
        a11,
        a21,
        pre2,
        input2,
        e2,
        a02,
        a12,
        a22,
        m,
    );
    let g = (m.number)(pre1.params.g);
    let k = (m.number)(pre1.params.res);
    let b0 = (m.number)(a01);
    let b1 = (m.number)(a11);
    let b2 = (m.number)(a21);
    let u1 = laws::lemma_pivotal_values::<A>(pre1, input1, e1, a01, a11, a21, post1, m);
    let u2 = laws::lemma_pivotal_values::<A>(pre2, input2, e2, a02, a12, a22, post2, m);
    let g1 = 1 as real / (g * b0);
    let e2 = b0 * b2 * g * g1 * k - b0 * b2 * g * g1 + b2 * g1 + 1 as real;
    let e3 = 1 as real + (g * g) * b0 * b1 * g1 * (1 as real / e2) * b2;
    lemma_opposite_damping_signals(
        g * b0,
        (m.number)(pre1.s[0]),
        (m.number)(pre1.s[1]),
        (m.number)(input1),
        g1,
        1 as real / e2,
        1 as real / e3,
    );
    assert((m.image)(Function::Asinh, u2) == -(m.image)(Function::Asinh, u1));
    algebra::lemma_negated_factor(g * b1, (m.number)(post1.vout[0]));
}

/// The fixed-pivot filter has no bias: opposite states and inputs give opposite outputs, in every
/// mode, wherever it does not divide by zero.
pub proof fn law_fixed_pivot_filter_has_no_bias<A: Arithmetic>(
    pre1: SVF<A>,
    input1: A::Num,
    post1: SVF<A>,
    out1: A::Num,
    pre2: SVF<A>,
    input2: A::Num,
    post2: SVF<A>,
    out2: A::Num,
    m: Reading<A::Num>,
)
    requires
        term::is_exact::<A>(m),
        reading::is_hyperbolic(m),
        mirrored_filters::<A>(pre1, pre2, m),
        opposite(input1, input2, m),
        pivotal_run::<A>(pre1, input1, post1, m),
        SVF::<A>::pivotal_pass(pre2, input2, post2),
        post1.puts_out(input1, out1),
        post2.puts_out(input2, out2),
    ensures
        opposite(post1.vout[0], post2.vout[0], m),
        opposite(post1.vout[1], post2.vout[1], m),
        opposite(out1, out2, m),
{
    lemma_mirrored_pivotal_outputs::<A>(pre1, input1, post1, pre2, input2, post2, m);
    linearity::lemma_output_value::<A>(post1, input1, out1, m);
    linearity::lemma_output_value::<A>(post2, input2, out2, m);
    algebra::lemma_negated_factor((m.number)(pre1.params.res), (m.number)(post1.vout[0]));
}

/// The filter has no bias: by Newton's method, opposite states and inputs give opposite outputs,
/// in every mode, wherever it does not divide by zero.
pub proof fn law_newton_filter_has_no_bias<A: Arithmetic>(
    pre1: SVF<A>,
    input1: A::Num,
    post1: SVF<A>,
    out1: A::Num,
    pre2: SVF<A>,
    input2: A::Num,
    post2: SVF<A>,
    out2: A::Num,
    m: Reading<A::Num>,
)
    requires
        term::is_exact::<A>(m),
        reading::is_hyperbolic(m),
        mirrored_filters::<A>(pre1, pre2, m),
        opposite(input1, input2, m),
        newton_run::<A>(pre1, input1, post1, m),
        SVF::<A>::newton_pass(pre2, input2, post2),
        post1.puts_out(input1, out1),
        post2.puts_out(input2, out2),
    ensures
        opposite(post1.vout[0], post2.vout[0], m),
        opposite(post1.vout[1], post2.vout[1], m),
        opposite(out1, out2, m),
{
    let (a1, b1, trace1) = choose|a: SVF<A>, b: SVF<A>, trace: Seq<Iterate<A::Num>>|
        {
            &&& #[trigger] SVF::<A>::newton_solution(pre1, input1, a, b, trace, post1)
            &&& iterates::steps_are_solvable::<A>(Damping::Full, pre1, trace, m)
        };
    let (a2, b2, trace2) = choose|a: SVF<A>, b: SVF<A>, trace: Seq<Iterate<A::Num>>| #[trigger]
        SVF::<A>::newton_solution(pre2, input2, a, b, trace, post2);
    law_linear_filter_has_no_bias::<A>(pre1, input1, a1, pre2, input2, a2, m);
    law_linear_filter_has_no_bias::<A>(a1, input1, b1, a2, input2, b2, m);
    let damping = Damping::Full;
    lemma_mirrored_iterates::<A>(
        damping,
        pre1,
        input1,
        trace1.first(),
        pre2,
        input2,
        trace2.first(),
        m,
    );
    iterates::law_newton_iterates_are_steppable::<A>(damping, pre1, input1, trace1.first(), m);
    iterates::law_newton_iterates_are_steppable::<A>(damping, pre2, input2, trace2.first(), m);
    lemma_mirrored_ends::<A>(damping, pre1, input1, trace1, pre2, input2, trace2, m);
    linearity::lemma_output_value::<A>(post1, input1, out1, m);
    linearity::lemma_output_value::<A>(post2, input2, out2, m);
    algebra::lemma_negated_factor((m.number)(pre1.params.res), (m.number)(post1.vout[0]));
}

/// The first iterates with less anti-saturation are opposites where their estimates and the linear
/// outputs are.
proof fn lemma_mirrored_first<A: Arithmetic>(
    filter1: SVF<A>,
    input1: A::Num,
    v01: A::Num,
    v11: A::Num,
    it1: Iterate<A::Num>,
    filter2: SVF<A>,
    input2: A::Num,
    v02: A::Num,
    v12: A::Num,
    it2: Iterate<A::Num>,
    m: Reading<A::Num>,
)
    requires
        term::is_exact::<A>(m),
        reading::is_hyperbolic(m),
        mirrored_filters::<A>(filter1, filter2, m),
        opposite(input1, input2, m),
        opposite(v01, v02, m),
        opposite(v11, v12, m),
        opposite(it1.v_est[0], it2.v_est[0], m),
        opposite(it1.v_est[1], it2.v_est[1], m),
        newton::saturates::<A>(
            it1,
            filter1.params.res,
            input1,
            equations::first_antisaturated(Damping::Less, term::val(v01)),
            v01,
            v11,
        ),
        newton::leaves_residue::<A>(it1, filter1),
        newton::saturates::<A>(
            it2,
            filter2.params.res,
            input2,
            equations::first_antisaturated(Damping::Less, term::val(v02)),
            v02,
            v12,
        ),
        newton::leaves_residue::<A>(it2, filter2),
    ensures
        mirrored(it1, it2, m),
        iterates::is_steppable(Damping::Less, it1, m),
        iterates::is_steppable(Damping::Less, it2, m),
{
    iterates::lemma_first_less_values::<A>(filter1, input1, v01, v11, it1, m);
    iterates::lemma_first_less_values::<A>(filter2, input2, v02, v12, it2, m);
    let g = (m.number)(filter1.params.g);
    let k = (m.number)(filter1.params.res);
    let width = 15 as real / 10 as real;
    let v = (m.number)(v01);
    assert((m.number)(v02) / width == -(v / width));
    assert((m.number)(it2.sinh) == -(m.number)(it1.sinh)) by {
        algebra::lemma_negated_factor(width, (m.image)(Function::Sinh, v / width));
    }
    algebra::lemma_negated_factor(k - 1 as real, v);
    let w1 = (m.number)(input1) - ((k - 1 as real) * v + (m.number)(it1.sinh)) - (m.number)(v11);
    let w2 = (m.number)(input2) - ((k - 1 as real) * (m.number)(v02) + (m.number)(it2.sinh)) - (
    m.number)(v12);
    assert(w2 == -w1);
    assert((m.image)(Function::Tanh, w2) == -(m.image)(Function::Tanh, w1));
    algebra::lemma_negated_factor(g, (m.number)(it1.fb_line));
    algebra::lemma_negated_factor(g, (m.number)(it1.tanh));
}

/// With less anti-saturation the filter has no bias either, wherever it does not divide by zero.
pub proof fn law_less_antisat_filter_has_no_bias<A: Arithmetic>(
    pre1: SVF<A>,
    input1: A::Num,
    post1: SVF<A>,
    out1: A::Num,
    pre2: SVF<A>,
    input2: A::Num,
    post2: SVF<A>,
    out2: A::Num,
    m: Reading<A::Num>,
)
    requires
        term::is_exact::<A>(m),
        reading::is_hyperbolic(m),
        mirrored_filters::<A>(pre1, pre2, m),
        opposite(input1, input2, m),
        less_antisat_run::<A>(pre1, input1, post1, m),
        SVF::<A>::less_antisat_pass(pre2, input2, post2),
        post1.puts_out(input1, out1),
        post2.puts_out(input2, out2),
    ensures
        opposite(post1.vout[0], post2.vout[0], m),
        opposite(post1.vout[1], post2.vout[1], m),
        opposite(out1, out2, m),
{
    let (a1, b1, p1, trace1) = choose|
        a: SVF<A>,
        b: SVF<A>,
        p: SVF<A>,
        trace: Seq<Iterate<A::Num>>,
    |
        {
            &&& #[trigger] SVF::<A>::less_antisat_solution(pre1, input1, a, b, p, trace, post1)
            &&& pivotal_run::<A>(b, input1, p, m)
            &&& iterates::steps_are_solvable::<A>(Damping::Less, pre1, trace, m)
        };
    let (a2, b2, p2, trace2) = choose|
        a: SVF<A>,
        b: SVF<A>,
        p: SVF<A>,
        trace: Seq<Iterate<A::Num>>,
    | #[trigger]
        SVF::<A>::less_antisat_solution(pre2, input2, a, b, p, trace, post2);
    law_linear_filter_has_no_bias::<A>(pre1, input1, a1, pre2, input2, a2, m);
    law_linear_filter_has_no_bias::<A>(a1, input1, b1, a2, input2, b2, m);
    lemma_mirrored_pivotal_outputs::<A>(b1, input1, p1, b2, input2, p2, m);
    lemma_mirrored_first::<A>(
        pre1,
        input1,
        a1.vout[0],
        b1.vout[1],
        trace1.first(),
        pre2,
        input2,
        a2.vout[0],
        b2.vout[1],
        trace2.first(),
        m,
    );
    lemma_mirrored_ends::<A>(Damping::Less, pre1, input1, trace1, pre2, input2, trace2, m);
    linearity::lemma_output_value::<A>(post1, input1, out1, m);
    linearity::lemma_output_value::<A>(post2, input2, out2, m);
    algebra::lemma_negated_factor((m.number)(pre1.params.res), (m.number)(post1.vout[0]));
}

/// Newton's method, started from opposite iterates, ends in opposite iterates.
proof fn lemma_mirrored_ends<A: Arithmetic>(
    damping: Damping,
    filter1: SVF<A>,
    input1: A::Num,
    trace1: Seq<Iterate<A::Num>>,
    filter2: SVF<A>,
    input2: A::Num,
    trace2: Seq<Iterate<A::Num>>,
    m: Reading<A::Num>,
)
    requires
        term::is_exact::<A>(m),
        reading::is_hyperbolic(m),
        iterates::steps_are_solvable::<A>(damping, filter1, trace1, m),
        mirrored_filters::<A>(filter1, filter2, m),
        opposite(input1, input2, m),
        newton::newton_trace::<A>(damping, filter1, input1, trace1),
        newton::newton_trace::<A>(damping, filter2, input2, trace2),
        mirrored(trace1.first(), trace2.first(), m),
        iterates::is_steppable(damping, trace1.first(), m),
        iterates::is_steppable(damping, trace2.first(), m),
    ensures
        mirrored(trace1.last(), trace2.last(), m),
{
    let n = if trace1.len() <= trace2.len() {
        trace1.len() - 1
    } else {
        trace2.len() - 1
    };
    lemma_mirrored_traces::<A>(damping, filter1, input1, trace1, filter2, input2, trace2, n, m);
    lemma_mirrored_residues(trace1[n], trace2[n], m);
    iterates::lemma_settles_where_small::<A>(trace1[n], m);
    iterates::lemma_settles_where_small::<A>(trace2[n], m);
    if trace1.len() < trace2.len() {
        assert(newton::unsettled::<A>(trace2[n]));
    } else if trace2.len() < trace1.len() {
        assert(newton::unsettled::<A>(trace1[n]));
    }
}

} // verus!
