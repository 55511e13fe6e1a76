//! The filter is a function of its settings, its states and its input, where the operations of
//! the arithmetic are functions of their operands.

use crate::arithmetic::Arithmetic;
use crate::equations;
use crate::equations::{Damping, Mode};
use crate::filter::SVF;
use crate::newton;
use crate::newton::{Iterate, Jacobian};
use crate::pivotal;
use crate::term;
use crate::term::Term;
use vstd::prelude::*;

verus! {

/// The linear filter answers an input in one way.
pub proof fn law_one_linear_answer<A: Arithmetic>(
    pre: SVF<A>,
    input: A::Num,
    post1: SVF<A>,
    post2: SVF<A>,
)
    requires
        term::is_deterministic::<A>(),
        SVF::<A>::linear_pass(pre, input, post1),
        SVF::<A>::linear_pass(pre, input, post2),
    ensures
        post1 == post2,
{
    let g = term::val(pre.params.g);
    let k = term::val(pre.params.res);
    let s0 = term::val(pre.s[0]);
    let s1 = term::val(pre.s[1]);
    term::law_one_value::<A>(
        equations::linear_v0(g, k, s0, s1, term::val(input)),
        post1.vout[0],
        post2.vout[0],
    );
    term::law_one_value::<A>(
        equations::linear_v1(g, term::val(post1.vout[0]), s1),
        post1.vout[1],
        post2.vout[1],
    );
    assert(post1.vout =~= post2.vout);
}

proof fn lemma_one_pivot<A: Arithmetic>(
    e: A::Num,
    slope: Term<A::Num>,
    a: A::Num,
    b: A::Num,
)
    requires
        term::is_deterministic::<A>(),
        pivotal::pivots::<A>(e, slope, a),
        pivotal::pivots::<A>(e, slope, b),
    ensures
        a == b,
{
    assert forall|v: A::Num, w: A::Num| #[trigger]
        term::yields::<A>(term::num(0), v) && #[trigger] term::yields::<A>(
            term::num(0),
            w,
        ) implies v == w by {
        term::law_one_value::<A>(term::num(0), v, w);
    }
    if term::yields::<A>(slope, a) && term::yields::<A>(slope, b) {
        term::law_one_value::<A>(slope, a, b);
    }
    if term::yields::<A>(term::num(1), a) && term::yields::<A>(term::num(1), b) {
        term::law_one_value::<A>(term::num(1), a, b);
    }
}

/// The fixed-pivot method answers an input in one way.
pub proof fn law_one_pivotal_answer<A: Arithmetic>(
    pre: SVF<A>,
    input: A::Num,
    post1: SVF<A>,
    post2: SVF<A>,
)
    requires
        term::is_deterministic::<A>(),
        SVF::<A>::pivotal_pass(pre, input, post1),
        SVF::<A>::pivotal_pass(pre, input, post2),
    ensures
        post1 == post2,
{
    let g = term::val(pre.params.g);
    let k = term::val(pre.params.res);
    let s0 = term::val(pre.s[0]);
    let s1 = term::val(pre.s[1]);
    let x = term::val(input);
    let (e0, a0, a1, a2) = choose|e0: A::Num, a0: A::Num, a1: A::Num, a2: A::Num| #[trigger]
        SVF::<A>::pivotal_solution(pre, input, e0, a0, a1, a2, post1);
    let (f0, b0, b1, b2) = choose|f0: A::Num, b0: A::Num, b1: A::Num, b2: A::Num| #[trigger]
        SVF::<A>::pivotal_solution(pre, input, f0, b0, b1, b2, post2);
    lemma_one_pivot::<A>(pre.s[0], equations::clipper_slope(s0), a2, b2);
    term::law_one_value::<A>(
        equations::pivot_estimate(x, k, s0, term::val(a2), s1),
        e0,
        f0,
    );
    lemma_one_pivot::<A>(e0, equations::saturator_slope(term::val(e0)), a0, b0);
    lemma_one_pivot::<A>(pre.s[0], equations::saturator_slope(s0), a1, b1);
    term::law_one_value::<A>(
        equations::pivotal_drive(
            g,
            k,
            term::val(a0),
            term::val(a1),
            term::val(a2),
            s0,
            s1,
            x,
        ).asinh(),
        post1.vout[0],
        post2.vout[0],
    );
    term::law_one_value::<A>(
        equations::pivotal_v1(g, term::val(a1), term::val(post1.vout[0]), s1),
        post1.vout[1],
        post2.vout[1],
    );
    assert(post1.vout =~= post2.vout);
}

proof fn lemma_one_outcome<A: Arithmetic>(residue: A::Num)
    requires
        term::is_deterministic::<A>(),
    ensures
        !(newton::exceeds_error::<A>(residue, true) && newton::exceeds_error::<A>(residue, false)),
{
    let bound = Term::<A::Num>::Decimal(1, 5);
    assert forall|v: A::Num, w: A::Num| #[trigger]
        term::yields::<A>(bound, v) && #[trigger] term::yields::<A>(bound, w) implies v == w by {
        term::law_one_value::<A>(bound, v, w);
    }
    let size = term::val(residue).abs();
    assert forall|v: A::Num, w: A::Num| #[trigger]
        term::yields::<A>(size, v) && #[trigger] term::yields::<A>(size, w) implies v == w by {
        term::law_one_value::<A>(size, v, w);
    }
}

proof fn lemma_settled_or_not<A: Arithmetic>(it: Iterate<A::Num>)
    requires
        term::is_deterministic::<A>(),
    ensures
        !(newton::settled::<A>(it) && newton::unsettled::<A>(it)),
{
    lemma_one_outcome::<A>(it.residue[0]);
    lemma_one_outcome::<A>(it.residue[1]);
}

proof fn lemma_one_jacobian<A: Arithmetic>(
    damping: Damping,
    g: A::Num,
    k: A::Num,
    it: Iterate<A::Num>,
    j1: Jacobian<A::Num>,
    j2: Jacobian<A::Num>,
)
    requires
        term::is_deterministic::<A>(),
        newton::jacobian_of::<A>(damping, g, k, it, j1),
        newton::jacobian_of::<A>(damping, g, k, it, j2),
    ensures
        j1 == j2,
{
    let gt = term::val(g);
    let inverse_slope = equations::inverse_slope(term::val(it.fb_line));
    term::law_one_value::<A>(
        equations::jacobian_10(damping, gt, term::val(it.tanh)),
        j1.j10,
        j2.j10,
    );
    assert forall|v: A::Num, w: A::Num, p: bool, q: bool| #[trigger]
        newton::inverse_slope_of::<A>(it, v, p) && #[trigger] newton::inverse_slope_of::<A>(
            it,
            w,
            q,
        ) implies v == w && p == q by {
        term::law_one_value::<A>(inverse_slope, v, w);
    }
    if exists|slope: A::Num| #[trigger] newton::inverse_slope_of::<A>(it, slope, true) {
        term::law_one_value::<A>(term::num(1).negated(), j1.j00, j2.j00);
        term::law_one_value::<A>(term::num(0), j1.j01, j2.j01);
    } else {
        let (slope, d) = choose|slope: A::Num, d: A::Num|
            {
                &&& newton::inverse_slope_of::<A>(it, slope, false)
                &&& newton::damping_slope_of::<A>(damping, it, d)
                &&& #[trigger] newton::jacobian_row::<A>(g, k, slope, d, j1)
            };
        let (slope2, d2) = choose|slope: A::Num, d: A::Num|
            {
                &&& newton::inverse_slope_of::<A>(it, slope, false)
                &&& newton::damping_slope_of::<A>(damping, it, d)
                &&& #[trigger] newton::jacobian_row::<A>(g, k, slope, d, j2)
            };
        match damping {
            Damping::Full => {
                lemma_one_pivot::<A>(
                    it.tanh,
                    equations::sinh_slope(term::val(it.sinh), term::val(it.tanh)),
                    d,
                    d2,
                );
            },
            Damping::Less => {
                term::law_one_value::<A>(
                    equations::less_antisaturated_slope(term::val(it.v_est[0])),
                    d,
                    d2,
                );
            },
        }
        term::law_one_value::<A>(
            equations::jacobian_00(gt, term::val(k), term::val(slope), term::val(d)),
            j1.j00,
            j2.j00,
        );
        term::law_one_value::<A>(
            equations::jacobian_01(gt, term::val(slope)),
            j1.j01,
            j2.j01,
        );
    }
}

/// Iterates with the same estimates are the same, where their saturators stand at the same place.
proof fn lemma_one_iterate<A: Arithmetic>(
    filter: SVF<A>,
    input: A::Num,
    damping: Term<A::Num>,
    v0: A::Num,
    v1: A::Num,
    it1: Iterate<A::Num>,
    it2: Iterate<A::Num>,
)
    requires
        term::is_deterministic::<A>(),
        it1.v_est == it2.v_est,
        newton::saturates::<A>(it1, filter.params.res, input, damping, v0, v1),
        newton::saturates::<A>(it2, filter.params.res, input, damping, v0, v1),
        newton::leaves_residue::<A>(it1, filter),
        newton::leaves_residue::<A>(it2, filter),
    ensures
        it1 == it2,
{
    let g = term::val(filter.params.g);
    term::law_one_value::<A>(damping, it1.sinh, it2.sinh);
    term::law_one_value::<A>(term::val(v0).tanh(), it1.tanh, it2.tanh);
    term::law_one_value::<A>(
        equations::feedback(
            term::val(input),
            term::val(filter.params.res),
            term::val(v0),
            term::val(it1.sinh),
            term::val(v1),
        ),
        it1.fb_line,
        it2.fb_line,
    );
    term::law_one_value::<A>(
        equations::integrated(g, term::val(it1.fb_line), term::val(filter.s[0])).minus(
            term::val(it1.v_est[0]),
        ),
        it1.residue[0],
        it2.residue[0],
    );
    term::law_one_value::<A>(
        equations::integrated(g, term::val(it1.tanh), term::val(filter.s[1])).minus(
            term::val(it1.v_est[1]),
        ),
        it1.residue[1],
        it2.residue[1],
    );
    assert(it1.residue =~= it2.residue);
}

proof fn lemma_one_step<A: Arithmetic>(
    damping: Damping,
    filter: SVF<A>,
    input: A::Num,
    it: Iterate<A::Num>,
    next1: Iterate<A::Num>,
    next2: Iterate<A::Num>,
)
    requires
        term::is_deterministic::<A>(),
        newton::newton_step::<A>(damping, filter, input, it, next1),
        newton::newton_step::<A>(damping, filter, input, it, next2),
    ensures
        next1 == next2,
{
    let g = filter.params.g;
    let k = filter.params.res;
    let j1 = choose|j: Jacobian<A::Num>|
        newton::jacobian_of::<A>(damping, g, k, it, j) && #[trigger] newton::steps_by::<A>(
            it,
            j,
            next1,
        );
    let j2 = choose|j: Jacobian<A::Num>|
        newton::jacobian_of::<A>(damping, g, k, it, j) && #[trigger] newton::steps_by::<A>(
            it,
            j,
            next2,
        );
    lemma_one_jacobian::<A>(damping, g, k, it, j1, j2);
    let j00 = term::val(j1.j00);
    let j01 = term::val(j1.j01);
    let j10 = term::val(j1.j10);
    let r0 = term::val(it.residue[0]);
    let r1 = term::val(it.residue[1]);
    term::law_one_value::<A>(
        equations::newton_v0(j00, j01, j10, term::val(it.v_est[0]), r0, r1),
        next1.v_est[0],
        next2.v_est[0],
    );
    term::law_one_value::<A>(
        equations::newton_v1(j00, j01, j10, term::val(it.v_est[1]), r0, r1),
        next1.v_est[1],
        next2.v_est[1],
    );
    assert(next1.v_est =~= next2.v_est);
    lemma_one_iterate::<A>(
        filter,
        input,
        equations::antisaturated(damping, term::val(next1.v_est[0])),
        next1.v_est[0],
        next1.v_est[1],
        next1,
        next2,
    );
}

proof fn lemma_one_trace_prefix<A: Arithmetic>(
    damping: Damping,
    filter: SVF<A>,
    input: A::Num,
    trace1: Seq<Iterate<A::Num>>,
    trace2: Seq<Iterate<A::Num>>,
    i: int,
)
    requires
        term::is_deterministic::<A>(),
        newton::newton_chain::<A>(damping, filter, input, trace1),
        newton::newton_chain::<A>(damping, filter, input, trace2),
        0 <= i < trace1.len(),
        i < trace2.len(),
        trace1.first() == trace2.first(),
    ensures
        trace1[i] == trace2[i],
    decreases i,
{
    if i > 0 {
        lemma_one_trace_prefix::<A>(damping, filter, input, trace1, trace2, i - 1);
        assert(newton::unsettled::<A>(trace1[i - 1]));
        assert(newton::unsettled::<A>(trace2[i - 1]));
        assert(newton::newton_step::<A>(damping, filter, input, trace1[i - 1], trace1[i - 1 + 1]));
        assert(newton::newton_step::<A>(damping, filter, input, trace2[i - 1], trace2[i - 1 + 1]));
        lemma_one_step::<A>(damping, filter, input, trace1[i - 1], trace1[i], trace2[i]);
    }
}

/// Newton's method goes one way from its first iterate.
proof fn lemma_one_trace<A: Arithmetic>(
    damping: Damping,
    filter: SVF<A>,
    input: A::Num,
    trace1: Seq<Iterate<A::Num>>,
    trace2: Seq<Iterate<A::Num>>,
)
    requires
        term::is_deterministic::<A>(),
        newton::newton_trace::<A>(damping, filter, input, trace1),
        newton::newton_trace::<A>(damping, filter, input, trace2),
        trace1.first() == trace2.first(),
    ensures
        trace1.last() == trace2.last(),
{
    if trace1.len() < trace2.len() {
        let i = trace1.len() - 1;
        lemma_one_trace_prefix::<A>(damping, filter, input, trace1, trace2, i);
        assert(newton::unsettled::<A>(trace2[i]));
        lemma_settled_or_not::<A>(trace1[i]);
    } else if trace2.len() < trace1.len() {
        let i = trace2.len() - 1;
        lemma_one_trace_prefix::<A>(damping, filter, input, trace1, trace2, i);
        assert(newton::unsettled::<A>(trace1[i]));
        lemma_settled_or_not::<A>(trace2[i]);
    } else {
        lemma_one_trace_prefix::<A>(damping, filter, input, trace1, trace2, trace1.len() - 1);
    }
}

/// Newton's method answers an input in one way.
pub proof fn law_one_newton_answer<A: Arithmetic>(
    pre: SVF<A>,
    input: A::Num,
    post1: SVF<A>,
    post2: SVF<A>,
)
    requires
        term::is_deterministic::<A>(),
        SVF::<A>::newton_pass(pre, input, post1),
        SVF::<A>::newton_pass(pre, input, post2),
    ensures
        post1 == post2,
{
    let (a1, b1, trace1) = choose|a: SVF<A>, b: SVF<A>, trace: Seq<Iterate<A::Num>>| #[trigger]
        SVF::<A>::newton_solution(pre, input, a, b, trace, post1);
    let (a2, b2, trace2) = choose|a: SVF<A>, b: SVF<A>, trace: Seq<Iterate<A::Num>>| #[trigger]
        SVF::<A>::newton_solution(pre, input, a, b, trace, post2);
    law_one_linear_answer::<A>(pre, input, a1, a2);
    law_one_linear_answer::<A>(a1, input, b1, b2);
    assert(trace1.first().v_est =~= trace2.first().v_est);
    lemma_one_iterate::<A>(
        pre,
        input,
        equations::first_antisaturated(Damping::Full, term::val(a1.vout[0])),
        a1.vout[0],
        b1.vout[1],
        trace1.first(),
        trace2.first(),
    );
    lemma_one_trace::<A>(Damping::Full, pre, input, trace1, trace2);
}

/// Newton's method with less anti-saturation answers an input in one way.
pub proof fn law_one_less_antisat_answer<A: Arithmetic>(
    pre: SVF<A>,
    input: A::Num,
    post1: SVF<A>,
    post2: SVF<A>,
)
    requires
        term::is_deterministic::<A>(),
        SVF::<A>::less_antisat_pass(pre, input, post1),
        SVF::<A>::less_antisat_pass(pre, input, post2),
    ensures
        post1 == post2,
{
    let (a1, b1, p1, trace1) = choose|
        a: SVF<A>,
        b: SVF<A>,
        p: SVF<A>,
        trace: Seq<Iterate<A::Num>>,
    | #[trigger]
        SVF::<A>::less_antisat_solution(pre, input, a, b, p, trace, post1);
    let (a2, b2, p2, trace2) = choose|
        a: SVF<A>,
        b: SVF<A>,
        p: SVF<A>,
        trace: Seq<Iterate<A::Num>>,
    | #[trigger]
        SVF::<A>::less_antisat_solution(pre, input, a, b, p, trace, post2);
    law_one_linear_answer::<A>(pre, input, a1, a2);
    law_one_linear_answer::<A>(a1, input, b1, b2);
    law_one_pivotal_answer::<A>(b1, input, p1, p2);
    lemma_one_iterate::<A>(
        pre,
        input,
        equations::first_antisaturated(Damping::Less, term::val(a1.vout[0])),
        a1.vout[0],
        b1.vout[1],
        trace1.first(),
        trace2.first(),
    );
    lemma_one_trace::<A>(Damping::Less, pre, input, trace1, trace2);
}

pub(crate) proof fn lemma_one_advance<A: Arithmetic>(pre: SVF<A>, post1: SVF<A>, post2: SVF<A>)
    requires
        term::is_deterministic::<A>(),
        SVF::<A>::advances(pre, post1),
        SVF::<A>::advances(pre, post2),
    ensures
        post1 == post2,
{
    term::law_one_value::<A>(
        equations::next_state(term::val(pre.vout[0]), term::val(pre.s[0])),
        post1.s[0],
        post2.s[0],
    );
    term::law_one_value::<A>(
        equations::next_state(term::val(pre.vout[1]), term::val(pre.s[1])),
        post1.s[1],
        post2.s[1],
    );
    assert(post1.s =~= post2.s);
}

pub(crate) proof fn lemma_one_output<A: Arithmetic>(
    filter: SVF<A>,
    input: A::Num,
    out1: A::Num,
    out2: A::Num,
)
    requires
        term::is_deterministic::<A>(),
        filter.puts_out(input, out1),
        filter.puts_out(input, out2),
    ensures
        out1 == out2,
{
    term::law_one_value::<A>(
        equations::output(
            Mode::of_index(filter.params.mode),
            term::val(input),
            term::val(filter.params.res),
            term::val(filter.vout[0]),
            term::val(filter.vout[1]),
        ),
        out1,
        out2,
    );
}

/// A sample is filtered in one way, by Newton's method: the settings, the states and the input
/// decide the output and the next states.
pub proof fn law_one_newton_tick<A: Arithmetic>(
    pre: SVF<A>,
    input: A::Num,
    post1: SVF<A>,
    out1: A::Num,
    post2: SVF<A>,
    out2: A::Num,
)
    requires
        term::is_deterministic::<A>(),
        SVF::<A>::newton_tick(pre, input, post1, out1),
        SVF::<A>::newton_tick(pre, input, post2, out2),
    ensures
        post1 == post2,
        out1 == out2,
{
    let (x1, mid1) = choose|x: A::Num, mid: SVF<A>|
        {
            &&& pre.drives(input, x)
            &&& #[trigger] SVF::<A>::newton_pass(pre, x, mid)
            &&& mid.puts_out(x, out1)
            &&& SVF::<A>::advances(mid, post1)
        };
    let (x2, mid2) = choose|x: A::Num, mid: SVF<A>|
        {
            &&& pre.drives(input, x)
            &&& #[trigger] SVF::<A>::newton_pass(pre, x, mid)
            &&& mid.puts_out(x, out2)
            &&& SVF::<A>::advances(mid, post2)
        };
    term::law_one_value::<A>(
        equations::driven(term::val(input), term::val(pre.params.drive)),
        x1,
        x2,
    );
    law_one_newton_answer::<A>(pre, x1, mid1, mid2);
    lemma_one_output::<A>(mid1, x1, out1, out2);
    lemma_one_advance::<A>(mid1, post1, post2);
}

/// A sample is filtered in one way, by the fixed-pivot method.
pub proof fn law_one_pivotal_tick<A: Arithmetic>(
    pre: SVF<A>,
    input: A::Num,
    post1: SVF<A>,
    out1: A::Num,
    post2: SVF<A>,
    out2: A::Num,
)
    requires
        term::is_deterministic::<A>(),
        SVF::<A>::pivotal_tick(pre, input, post1, out1),
        SVF::<A>::pivotal_tick(pre, input, post2, out2),
    ensures
        post1 == post2,
        out1 == out2,
{
    let (x1, mid1) = choose|x: A::Num, mid: SVF<A>|
        {
            &&& pre.drives(input, x)
            &&& #[trigger] SVF::<A>::pivotal_pass(pre, x, mid)
            &&& mid.puts_out(x, out1)
            &&& SVF::<A>::advances(mid, post1)
        };
    let (x2, mid2) = choose|x: A::Num, mid: SVF<A>|
        {
            &&& pre.drives(input, x)
            &&& #[trigger] SVF::<A>::pivotal_pass(pre, x, mid)
            &&& mid.puts_out(x, out2)
            &&& SVF::<A>::advances(mid, post2)
        };
    term::law_one_value::<A>(
        equations::driven(term::val(input), term::val(pre.params.drive)),
        x1,
        x2,
    );
    law_one_pivotal_answer::<A>(pre, x1, mid1, mid2);
    lemma_one_output::<A>(mid1, x1, out1, out2);
    lemma_one_advance::<A>(mid1, post1, post2);
}

/// The state that the linear filter lets expect is the one to which it would be advanced: asking
/// for that estimate runs the linear filter, and advances no state.
pub proof fn law_linear_estimate_foresees_the_state<A: Arithmetic>(
    pre: SVF<A>,
    input: A::Num,
    n: int,
    asked: SVF<A>,
    estimate: A::Num,
    post: SVF<A>,
    advanced: SVF<A>,
)
    requires
        term::is_deterministic::<A>(),
        0 <= n < 2,
        SVF::<A>::linear_pass(pre, input, asked),
        term::yields::<A>(
            equations::next_state(term::val(asked.vout[n]), term::val(pre.s[n])),
            estimate,
        ),
        SVF::<A>::linear_pass(pre, input, post),
        SVF::<A>::advances(post, advanced),
    ensures
        estimate == advanced.s[n],
        asked.s == pre.s,
        asked.vout == advanced.vout,
{
    law_one_linear_answer::<A>(pre, input, asked, post);
    term::law_one_value::<A>(
        equations::next_state(term::val(post.vout[n]), term::val(post.s[n])),
        estimate,
        advanced.s[n],
    );
}

/// A stream of samples is filtered in one way.
pub proof fn law_one_stream<A: Arithmetic>(
    pre: SVF<A>,
    input: Seq<A::Num>,
    post1: SVF<A>,
    output1: Seq<A::Num>,
    post2: SVF<A>,
    output2: Seq<A::Num>,
)
    requires
        term::is_deterministic::<A>(),
        SVF::<A>::streams(pre, input, post1, output1),
        SVF::<A>::streams(pre, input, post2, output2),
    ensures
        post1 == post2,
        output1 == output2,
{
    let states1 = choose|states: Seq<SVF<A>>|
        {
            &&& #[trigger] SVF::<A>::stream_states(states, input, output1)
            &&& states.first() == pre
            &&& states.last() == post1
        };
    let states2 = choose|states: Seq<SVF<A>>|
        {
            &&& #[trigger] SVF::<A>::stream_states(states, input, output2)
            &&& states.first() == pre
            &&& states.last() == post2
        };
    lemma_one_state::<A>(states1, states2, input, output1, output2, input.len() as int);
    assert forall|i: int| 0 <= i < input.len() implies output1[i] == output2[i] by {
        lemma_one_state::<A>(states1, states2, input, output1, output2, i);
        lemma_one_state::<A>(states1, states2, input, output1, output2, i + 1);
        assert(SVF::<A>::newton_tick(states1[i], input[i], states1[i + 1], output1[i]));
        assert(SVF::<A>::newton_tick(states2[i], input[i], states2[i + 1], output2[i]));
        law_one_newton_tick::<A>(
            states1[i],
            input[i],
            states1[i + 1],
            output1[i],
            states2[i + 1],
            output2[i],
        );
    }
    assert(output1 =~= output2);
}

proof fn lemma_one_state<A: Arithmetic>(
    states1: Seq<SVF<A>>,
    states2: Seq<SVF<A>>,
    input: Seq<A::Num>,
    output1: Seq<A::Num>,
    output2: Seq<A::Num>,
    i: int,
)
    requires
        term::is_deterministic::<A>(),
        SVF::<A>::stream_states(states1, input, output1),
        SVF::<A>::stream_states(states2, input, output2),
        states1.first() == states2.first(),
        0 <= i <= input.len(),
    ensures
        states1[i] == states2[i],
    decreases i,
{
    if i > 0 {
        lemma_one_state::<A>(states1, states2, input, output1, output2, i - 1);
        assert(SVF::<A>::newton_tick(
            states1[i - 1],
            input[i - 1],
            states1[i - 1 + 1],
            output1[i - 1],
        ));
        assert(SVF::<A>::newton_tick(
            states2[i - 1],
            input[i - 1],
            states2[i - 1 + 1],
            output2[i - 1],
        ));
        law_one_newton_tick::<A>(
            states1[i - 1],
            input[i - 1],
            states1[i],
            output1[i - 1],
            states2[i],
            output2[i - 1],
        );
    }
}

} // verus!
