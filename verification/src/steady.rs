//! The filter under a constant input.

use crate::algebra;
use crate::arithmetic::Arithmetic;
use crate::equations::Damping;
use crate::filter::SVF;
use crate::iterates;
use crate::laws;
use crate::linearity;
use crate::newton;
use crate::newton::Iterate;
use crate::reading;
use crate::solvers::Solver;
use crate::term;
use crate::term::{Function, Reading};
use vstd::prelude::*;

verus! {

/// Whether the filter holds a constant: the low-pass integrator stands at it, and nothing moves.
pub open spec fn holds<A: Arithmetic>(filter: SVF<A>, constant: real, m: Reading<A::Num>) -> bool {
    &&& (m.number)(filter.s[0]) == 0 as real
    &&& (m.number)(filter.s[1]) == constant
}

/// Whether the fixed-pivot method can be solved where its lines have the slope one, as they have at
/// rest.
pub open spec fn resting_lines_are_solvable<A: Arithmetic>(
    filter: SVF<A>,
    m: Reading<A::Num>,
) -> bool {
    laws::pivotal_solvable(
        (m.number)(filter.params.g),
        (m.number)(filter.params.res),
        1 as real,
        1 as real,
        1 as real,
    )
}

pub(crate) proof fn lemma_linear_hold<A: Arithmetic>(
    pre: SVF<A>,
    input: A::Num,
    post: SVF<A>,
    m: Reading<A::Num>,
)
    requires
        term::is_exact::<A>(m),
        linearity::linear_solvable::<A>(pre, m),
        holds::<A>(pre, (m.number)(input), m),
        SVF::<A>::linear_pass(pre, input, post),
    ensures
        (m.number)(post.vout[0]) == 0 as real,
        (m.number)(post.vout[1]) == (m.number)(input),
{
    linearity::lemma_linear_values::<A>(pre, input, post, m);
    let g = (m.number)(pre.params.g);
    let i = 1 as real / (1 as real + g * (g + (m.number)(pre.params.res)));
    algebra::lemma_zero(i, (m.number)(pre.s[0]));
    algebra::lemma_zero(g * i, (m.number)(input) - (m.number)(pre.s[1]));
    algebra::lemma_zero(g, (m.number)(post.vout[0]));
}

proof fn lemma_newton_hold<A: Arithmetic>(
    pre: SVF<A>,
    input: A::Num,
    post: SVF<A>,
    m: Reading<A::Num>,
)
    requires
        term::is_exact::<A>(m),
        reading::is_hyperbolic(m),
        linearity::linear_solvable::<A>(pre, m),
        holds::<A>(pre, (m.number)(input), m),
        SVF::<A>::newton_pass(pre, input, post),
    ensures
        (m.number)(post.vout[0]) == 0 as real,
        (m.number)(post.vout[1]) == (m.number)(input),
{
    let (a, b, trace) = choose|a: SVF<A>, b: SVF<A>, trace: Seq<Iterate<A::Num>>| #[trigger]
        SVF::<A>::newton_solution(pre, input, a, b, trace, post);
    lemma_linear_hold::<A>(pre, input, a, m);
    lemma_linear_hold::<A>(a, input, b, m);
    let it = trace.first();
    assert(iterates::stands_at_its_estimates::<A>(Damping::Full, pre, input, it));
    iterates::lemma_iterate_values::<A>(Damping::Full, pre, input, it, m);
    let g = (m.number)(pre.params.g);
    let k = (m.number)(pre.params.res);
    reading::lemma_sinh_beyond(m, (m.number)(it.v_est[0]));
    reading::lemma_tanh_sign(m, (m.number)(it.v_est[0]));
    algebra::lemma_zero(k - 1 as real, (m.number)(it.v_est[0]));
    reading::lemma_tanh_sign(
        m,
        (m.number)(input) - ((k - 1 as real) * (m.number)(it.v_est[0]) + (m.number)(it.sinh)) - (
        m.number)(it.v_est[1]),
    );
    algebra::lemma_zero(g, (m.number)(it.fb_line));
    algebra::lemma_zero(g, (m.number)(it.tanh));
    iterates::lemma_settles_where_small::<A>(it, m);
    if trace.len() > 1 {
        assert(newton::unsettled::<A>(trace[0]));
    }
}

proof fn lemma_pivotal_hold<A: Arithmetic>(
    pre: SVF<A>,
    input: A::Num,
    post: SVF<A>,
    m: Reading<A::Num>,
)
    requires
        term::is_exact::<A>(m),
        reading::is_hyperbolic(m),
        resting_lines_are_solvable::<A>(pre, m),
        holds::<A>(pre, (m.number)(input), m),
        SVF::<A>::pivotal_pass(pre, input, post),
    ensures
        (m.number)(post.vout[0]) == 0 as real,
        (m.number)(post.vout[1]) == (m.number)(input),
{
    let g = (m.number)(pre.params.g);
    let k = (m.number)(pre.params.res);
    let x = (m.number)(input);
    let one = 1 as real;
    let (e0, a0, a1, a2) = choose|e0: A::Num, a0: A::Num, a1: A::Num, a2: A::Num| #[trigger]
        SVF::<A>::pivotal_solution(pre, input, e0, a0, a1, a2, post);
    laws::law_pivots_meet_the_clipper::<A>(pre.s[0], a2, m);
    laws::law_pivots_meet_the_saturator::<A>(pre.s[0], a1, m);
    iterates::lemma_pivot_estimate_value::<A>(pre, input, e0, a2, m);
    algebra::lemma_zero((m.number)(a2), (m.number)(pre.s[0]));
    algebra::lemma_commute((m.number)(a2), (m.number)(pre.s[0]));
    algebra::lemma_zero(k - 1 as real, (m.number)(pre.s[0]));
    assert((m.number)(e0) == 0 as real);
    laws::law_pivots_meet_the_saturator::<A>(e0, a0, m);
    let u = laws::lemma_pivotal_values::<A>(pre, input, e0, a0, a1, a2, post, m);
    assert(g * one * x - g * one * x + 0 as real == 0 as real);
    let g1 = one / (g * one);
    let e2 = one * one * g * g1 * k - one * one * g * g1 + one * g1 + one;
    let e3 = one + (g * g) * one * one * g1 * (one / e2) * one;
    lemma_zero_signal(g * one * x - g * one * x + 0 as real, g1, one / e2, one / e3);
    assert(u == 0 as real);
    assert((m.image)(Function::Asinh, -u) == -(m.image)(Function::Asinh, u));
    algebra::lemma_zero(g * (m.number)(a1), (m.number)(post.vout[0]));
}

proof fn lemma_zero_signal(n: real, g1: real, g2: real, g3: real)
    requires
        n == 0 as real,
    ensures
        n * g1 * g2 * g3 == 0 as real,
{
    algebra::lemma_zero(g1, n);
    algebra::lemma_zero(g2, n * g1);
    algebra::lemma_zero(g3, n * g1 * g2);
}

proof fn lemma_less_antisat_hold<A: Arithmetic>(
    pre: SVF<A>,
    input: A::Num,
    post: SVF<A>,
    m: Reading<A::Num>,
)
    requires
        term::is_exact::<A>(m),
        reading::is_hyperbolic(m),
        linearity::linear_solvable::<A>(pre, m),
        resting_lines_are_solvable::<A>(pre, m),
        holds::<A>(pre, (m.number)(input), m),
        SVF::<A>::less_antisat_pass(pre, input, post),
    ensures
        (m.number)(post.vout[0]) == 0 as real,
        (m.number)(post.vout[1]) == (m.number)(input),
{
    let (a, b, p, trace) = choose|
        a: SVF<A>,
        b: SVF<A>,
        p: SVF<A>,
        trace: Seq<Iterate<A::Num>>,
    | #[trigger]
        SVF::<A>::less_antisat_solution(pre, input, a, b, p, trace, post);
    lemma_linear_hold::<A>(pre, input, a, m);
    lemma_linear_hold::<A>(a, input, b, m);
    lemma_pivotal_hold::<A>(b, input, p, m);
    let it = trace.first();
    iterates::lemma_first_less_values::<A>(pre, input, a.vout[0], b.vout[1], it, m);
    let k = (m.number)(pre.params.res);
    let width = 15 as real / 10 as real;
    let zero = (m.number)(a.vout[0]);
    assert(zero / width == 0 as real);
    reading::lemma_sinh_beyond(m, zero / width);
    algebra::lemma_zero(width, (m.image)(Function::Sinh, zero / width));
    reading::lemma_tanh_sign(m, zero);
    algebra::lemma_zero(k - 1 as real, zero);
    reading::lemma_tanh_sign(
        m,
        (m.number)(input) - ((k - 1 as real) * zero + (m.number)(it.sinh)) - (m.number)(b.vout[1]),
    );
    algebra::lemma_zero((m.number)(pre.params.g), (m.number)(it.fb_line));
    algebra::lemma_zero((m.number)(pre.params.g), (m.number)(it.tanh));
    iterates::lemma_settles_where_small::<A>(it, m);
    if trace.len() > 1 {
        assert(newton::unsettled::<A>(trace[0]));
    }
}

/// A constant passes the filter unchanged: a filter that holds its input puts it out at its
/// low-pass and nothing at its band-pass, and goes on holding it, wherever it does not divide by
/// zero.
pub proof fn law_a_held_input_is_held<A: Arithmetic>(
    solver: Solver,
    pre: SVF<A>,
    input: A::Num,
    mid: SVF<A>,
    post: SVF<A>,
    m: Reading<A::Num>,
)
    requires
        term::is_exact::<A>(m),
        reading::is_hyperbolic(m),
        linearity::linear_solvable::<A>(pre, m),
        solver == Solver::Pivotal || solver == Solver::LessAntisat ==> resting_lines_are_solvable::<
            A,
        >(pre, m),
        holds::<A>(pre, (m.number)(input), m),
        SVF::<A>::answers(solver, pre, input, mid),
        SVF::<A>::advances(mid, post),
    ensures
        (m.number)(mid.vout[0]) == 0 as real,
        (m.number)(mid.vout[1]) == (m.number)(input),
        holds::<A>(post, (m.number)(input), m),
{
    match solver {
        Solver::Linear => {
            lemma_linear_hold::<A>(pre, input, mid, m);
        },
        Solver::Pivotal => {
            lemma_pivotal_hold::<A>(pre, input, mid, m);
        },
        Solver::Newton => {
            lemma_newton_hold::<A>(pre, input, mid, m);
        },
        Solver::LessAntisat => {
            lemma_less_antisat_hold::<A>(pre, input, mid, m);
        },
    }
    laws::law_states_advance_by_the_trapezoidal_rule::<A>(mid, post, 0, m);
    laws::law_states_advance_by_the_trapezoidal_rule::<A>(mid, post, 1, m);
}

} // verus!
