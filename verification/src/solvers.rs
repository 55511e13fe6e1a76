//! What the four ways to solve the filter have in common.

use crate::arithmetic::Arithmetic;
use crate::determinism;
use crate::equations;
use crate::equations::{Damping, Mode};
use crate::filter::SVF;
use crate::laws;
use crate::newton;
use crate::newton::Iterate;
use crate::parameters::FilterParameters;
use crate::reading;
use crate::term;
use crate::term::Reading;
use vstd::prelude::*;

verus! {

/// The ways to solve the filter for its outputs.
pub enum Solver {
    Linear,
    Pivotal,
    Newton,
    LessAntisat,
}

impl<A: Arithmetic> SVF<A> {
    /// Whether a solver, with the settings and the states of `pre`, answers `input` with the
    /// outputs of `post`.
    pub open spec fn answers(solver: Solver, pre: Self, input: A::Num, post: Self) -> bool {
        match solver {
            Solver::Linear => Self::linear_pass(pre, input, post),
            Solver::Pivotal => Self::pivotal_pass(pre, input, post),
            Solver::Newton => Self::newton_pass(pre, input, post),
            Solver::LessAntisat => Self::less_antisat_pass(pre, input, post),
        }
    }

    /// Whether two filters are the same loop: their integrators have the same gain and the same
    /// states, and they are damped alike.
    pub open spec fn same_loop(a: Self, b: Self) -> bool {
        &&& a.params.g == b.params.g
        &&& a.params.res == b.params.res
        &&& a.s == b.s
    }

    /// The filter with other settings.
    pub open spec fn set_to(self, params: FilterParameters<A>) -> Self {
        SVF { params, ..self }
    }

    /// The filter at another drive.
    pub open spec fn at_drive(self, drive: A::Num) -> Self {
        self.set_to(FilterParameters { drive, ..self.params })
    }
}

/// The gain, the damping, the states and the input alone decide what a solver answers. The outputs
/// of the sample before, the mode, the drive, the cutoff and the sample rate do not matter to it.
pub proof fn law_gain_damping_and_states_decide<A: Arithmetic>(
    solver: Solver,
    pre: SVF<A>,
    other: SVF<A>,
    input: A::Num,
    post: SVF<A>,
)
    requires
        SVF::<A>::same_loop(pre, other),
        SVF::<A>::answers(solver, pre, input, post),
    ensures
        SVF::<A>::answers(solver, other, input, post.set_to(other.params)),
{
    match solver {
        Solver::Linear => {},
        Solver::Pivotal => {
            lemma_pivotal_loop_decides::<A>(pre, other, input, post);
        },
        Solver::Newton => {
            let (a, b, trace) = choose|a: SVF<A>, b: SVF<A>, trace: Seq<Iterate<A::Num>>| #[trigger]
                SVF::<A>::newton_solution(pre, input, a, b, trace, post);
            lemma_loop_decides_trace::<A>(Damping::Full, pre, other, input, trace);
            assert(SVF::<A>::newton_solution(
                other,
                input,
                a.set_to(other.params),
                b.set_to(other.params),
                trace,
                post.set_to(other.params),
            ));
        },
        Solver::LessAntisat => {
            let (a, b, p, trace) = choose|
                a: SVF<A>,
                b: SVF<A>,
                p: SVF<A>,
                trace: Seq<Iterate<A::Num>>,
            | #[trigger]
                SVF::<A>::less_antisat_solution(pre, input, a, b, p, trace, post);
            lemma_loop_decides_trace::<A>(Damping::Less, pre, other, input, trace);
            lemma_pivotal_loop_decides::<A>(b, b.set_to(other.params), input, p);
            assert(SVF::<A>::less_antisat_solution(
                other,
                input,
                a.set_to(other.params),
                b.set_to(other.params),
                p.set_to(other.params),
                trace,
                post.set_to(other.params),
            ));
        },
    }
}

pub(crate) proof fn lemma_pivotal_loop_decides<A: Arithmetic>(
    pre: SVF<A>,
    other: SVF<A>,
    input: A::Num,
    post: SVF<A>,
)
    requires
        SVF::<A>::same_loop(pre, other),
        SVF::<A>::pivotal_pass(pre, input, post),
    ensures
        SVF::<A>::pivotal_pass(other, input, post.set_to(other.params)),
{
    let (e0, a0, a1, a2) = choose|e0: A::Num, a0: A::Num, a1: A::Num, a2: A::Num| #[trigger]
        SVF::<A>::pivotal_solution(pre, input, e0, a0, a1, a2, post);
    assert(SVF::<A>::pivotal_solution(
        other,
        input,
        e0,
        a0,
        a1,
        a2,
        post.set_to(other.params),
    ));
}

proof fn lemma_loop_decides_trace<A: Arithmetic>(
    damping: Damping,
    pre: SVF<A>,
    other: SVF<A>,
    input: A::Num,
    trace: Seq<Iterate<A::Num>>,
)
    requires
        SVF::<A>::same_loop(pre, other),
        newton::newton_trace::<A>(damping, pre, input, trace),
    ensures
        newton::newton_trace::<A>(damping, other, input, trace),
{
    assert forall|i: int| 0 <= i < trace.len() - 1 implies newton::unsettled::<A>(
        #[trigger] trace[i],
    ) && newton::newton_step::<A>(damping, other, input, trace[i], trace[i + 1]) by {
        assert(newton::unsettled::<A>(trace[i]));
        assert(newton::newton_step::<A>(damping, pre, input, trace[i], trace[i + 1]));
    }
}

/// A solver leaves the settings and the states as they are.
pub proof fn law_solvers_change_the_outputs_alone<A: Arithmetic>(
    solver: Solver,
    pre: SVF<A>,
    input: A::Num,
    post: SVF<A>,
)
    requires
        SVF::<A>::answers(solver, pre, input, post),
    ensures
        post.params == pre.params,
        post.s == pre.s,
{
}

/// Filters that are the same loop answer an input with the same outputs, whatever their modes and
/// whatever they put out before.
pub proof fn law_same_loop_same_outputs<A: Arithmetic>(
    solver: Solver,
    pre1: SVF<A>,
    pre2: SVF<A>,
    input: A::Num,
    post1: SVF<A>,
    post2: SVF<A>,
)
    requires
        term::is_deterministic::<A>(),
        SVF::<A>::same_loop(pre1, pre2),
        SVF::<A>::answers(solver, pre1, input, post1),
        SVF::<A>::answers(solver, pre2, input, post2),
    ensures
        post1.vout == post2.vout,
        post1.s == pre1.s,
        post2.s == pre2.s,
        post1.params == pre1.params,
        post2.params == pre2.params,
{
    law_gain_damping_and_states_decide::<A>(solver, pre1, pre2, input, post1);
    let moved = post1.set_to(pre2.params);
    match solver {
        Solver::Linear => {
            determinism::law_one_linear_answer::<A>(pre2, input, moved, post2);
        },
        Solver::Pivotal => {
            determinism::law_one_pivotal_answer::<A>(pre2, input, moved, post2);
        },
        Solver::Newton => {
            determinism::law_one_newton_answer::<A>(pre2, input, moved, post2);
        },
        Solver::LessAntisat => {
            determinism::law_one_less_antisat_answer::<A>(pre2, input, moved, post2);
        },
    }
}

/// Solving again changes nothing: what a solver answered to an input it can answer to it again,
/// and where the operations are functions of their operands it answers nothing else and puts out
/// the same.
pub proof fn law_solving_again_changes_nothing<A: Arithmetic>(
    solver: Solver,
    pre: SVF<A>,
    input: A::Num,
    post: SVF<A>,
    out: A::Num,
    again: SVF<A>,
    out_again: A::Num,
)
    requires
        SVF::<A>::answers(solver, pre, input, post),
        post.puts_out(input, out),
        SVF::<A>::answers(solver, post, input, again),
        again.puts_out(input, out_again),
    ensures
        SVF::<A>::answers(solver, post, input, post),
        term::is_deterministic::<A>() ==> again == post && out_again == out,
{
    law_gain_damping_and_states_decide::<A>(solver, pre, post, input, post);
    if term::is_deterministic::<A>() {
        law_same_loop_same_outputs::<A>(solver, pre, post, input, post, again);
        determinism::lemma_one_output::<A>(post, input, out, out_again);
    }
}

/// Filters that are the same loop split an input among their modes: low-pass, damped band-pass
/// and high-pass add up to it, the notch is what low-pass and high-pass leave together, the peak
/// is what they leave against each other, and every further mode is the damped band-pass.
pub proof fn law_filters_split_the_input<A: Arithmetic>(
    solver: Solver,
    pre: Seq<SVF<A>>,
    input: A::Num,
    post: Seq<SVF<A>>,
    out: Seq<A::Num>,
    m: Reading<A::Num>,
)
    requires
        term::is_deterministic::<A>(),
        term::is_exact::<A>(m),
        pre.len() == 6,
        post.len() == 6,
        out.len() == 6,
        forall|i: int|
            0 <= i < 6 ==> {
                &&& SVF::<A>::same_loop(pre[0], #[trigger] pre[i])
                &&& if i < 5 {
                    pre[i].params.mode == i
                } else {
                    pre[i].params.mode >= 5
                }
                &&& SVF::<A>::answers(solver, pre[i], input, post[i])
                &&& post[i].puts_out(input, out[i])
            },
    ensures
        ({
            let x = (m.number)(input);
            let k = (m.number)(pre[0].params.res);
            let low = (m.number)(out[0]);
            let high = (m.number)(out[1]);
            let band = (m.number)(out[2]);
            let notch = (m.number)(out[3]);
            let peak = (m.number)(out[4]);
            let normalized = (m.number)(out[5]);
            &&& high + k * band + low == x
            &&& notch == high + low
            &&& peak == high - low
            &&& normalized == k * band
        }),
{
    reading::lemma_readings::<A::Num>(m);
    let x = term::val(input);
    let k = term::val(pre[0].params.res);
    let v0 = term::val(post[0].vout[0]);
    let v1 = term::val(post[0].vout[1]);
    assert forall|i: int| 0 <= i < 6 implies (m.number)(#[trigger] out[i]) == term::exact(
        equations::output(Mode::of_index(pre[i].params.mode), x, k, v0, v1),
        m,
    ) by {
        assert(SVF::<A>::same_loop(pre[0], pre[i]));
        assert(SVF::<A>::answers(solver, pre[0], input, post[0]));
        law_same_loop_same_outputs::<A>(solver, pre[0], pre[i], input, post[0], post[i]);
        term::law_exact_value::<A>(
            equations::output(Mode::of_index(pre[i].params.mode), x, k, v0, v1),
            out[i],
            m,
        );
    }
    laws::law_modes_split_the_input(x, k, v0, v1, m);
    assert(SVF::<A>::same_loop(pre[0], pre[0]));
    assert(SVF::<A>::same_loop(pre[0], pre[1]));
    assert(SVF::<A>::same_loop(pre[0], pre[2]));
    assert(SVF::<A>::same_loop(pre[0], pre[3]));
    assert(SVF::<A>::same_loop(pre[0], pre[4]));
    assert(SVF::<A>::same_loop(pre[0], pre[5]));
}

/// The drive is a gain at the input: to filter a sample with a drive is to filter the driven
/// sample with a drive that leaves it as it is.
pub proof fn law_drive_is_an_input_gain<A: Arithmetic>(
    pre: SVF<A>,
    input: A::Num,
    post: SVF<A>,
    out: A::Num,
    driven: A::Num,
    plain: SVF<A>,
    plain_post: SVF<A>,
    plain_out: A::Num,
)
    requires
        term::is_deterministic::<A>(),
        plain == pre.at_drive(plain.params.drive),
        pre.drives(input, driven),
        forall|x: A::Num| plain.drives(driven, x) ==> x == driven,
        (SVF::<A>::pivotal_tick(pre, input, post, out) && SVF::<A>::pivotal_tick(
            plain,
            driven,
            plain_post,
            plain_out,
        )) || (SVF::<A>::newton_tick(pre, input, post, out) && SVF::<A>::newton_tick(
            plain,
            driven,
            plain_post,
            plain_out,
        )),
    ensures
        plain_out == out,
        plain_post.vout == post.vout,
        plain_post.s == post.s,
{
    let pivotal = SVF::<A>::pivotal_tick(pre, input, post, out) && SVF::<A>::pivotal_tick(
        plain,
        driven,
        plain_post,
        plain_out,
    );
    let solver = if pivotal {
        Solver::Pivotal
    } else {
        Solver::Newton
    };
    lemma_tick_by_solver::<A>(pre, input, post, out);
    lemma_tick_by_solver::<A>(plain, driven, plain_post, plain_out);
    lemma_driven_tick::<A>(solver, pre, input, post, out, driven, plain, plain_post, plain_out);
}

impl<A: Arithmetic> SVF<A> {
    /// Whether one sample, solved by `solver`, leads from `pre` to `post` and puts out `out`.
    pub open spec fn ticks_by(solver: Solver, pre: Self, input: A::Num, post: Self, out: A::Num) -> bool {
        exists|x: A::Num, mid: Self|
            {
                &&& pre.drives(input, x)
                &&& #[trigger] Self::answers(solver, pre, x, mid)
                &&& mid.puts_out(x, out)
                &&& Self::advances(mid, post)
            }
    }
}

pub(crate) proof fn lemma_tick_by_solver<A: Arithmetic>(
    pre: SVF<A>,
    input: A::Num,
    post: SVF<A>,
    out: A::Num,
)
    ensures
        SVF::<A>::pivotal_tick(pre, input, post, out) ==> SVF::<A>::ticks_by(
            Solver::Pivotal,
            pre,
            input,
            post,
            out,
        ),
        SVF::<A>::newton_tick(pre, input, post, out) ==> SVF::<A>::ticks_by(
            Solver::Newton,
            pre,
            input,
            post,
            out,
        ),
{
    if SVF::<A>::pivotal_tick(pre, input, post, out) {
        let (x, mid) = choose|x: A::Num, mid: SVF<A>|
            {
                &&& pre.drives(input, x)
                &&& #[trigger] SVF::<A>::pivotal_pass(pre, x, mid)
                &&& mid.puts_out(x, out)
                &&& SVF::<A>::advances(mid, post)
            };
        assert(SVF::<A>::answers(Solver::Pivotal, pre, x, mid));
    }
    if SVF::<A>::newton_tick(pre, input, post, out) {
        let (x, mid) = choose|x: A::Num, mid: SVF<A>|
            {
                &&& pre.drives(input, x)
                &&& #[trigger] SVF::<A>::newton_pass(pre, x, mid)
                &&& mid.puts_out(x, out)
                &&& SVF::<A>::advances(mid, post)
            };
        assert(SVF::<A>::answers(Solver::Newton, pre, x, mid));
    }
}

proof fn lemma_driven_tick<A: Arithmetic>(
    solver: Solver,
    pre: SVF<A>,
    input: A::Num,
    post: SVF<A>,
    out: A::Num,
    driven: A::Num,
    plain: SVF<A>,
    plain_post: SVF<A>,
    plain_out: A::Num,
)
    requires
        term::is_deterministic::<A>(),
        plain == pre.at_drive(plain.params.drive),
        pre.drives(input, driven),
        forall|x: A::Num| plain.drives(driven, x) ==> x == driven,
        SVF::<A>::ticks_by(solver, pre, input, post, out),
        SVF::<A>::ticks_by(solver, plain, driven, plain_post, plain_out),
    ensures
        plain_out == out,
        plain_post.vout == post.vout,
        plain_post.s == post.s,
{
    let (x1, mid1) = choose|x: A::Num, mid: SVF<A>|
        {
            &&& pre.drives(input, x)
            &&& #[trigger] SVF::<A>::answers(solver, pre, x, mid)
            &&& mid.puts_out(x, out)
            &&& SVF::<A>::advances(mid, post)
        };
    let (x2, mid2) = choose|x: A::Num, mid: SVF<A>|
        {
            &&& plain.drives(driven, x)
            &&& #[trigger] SVF::<A>::answers(solver, plain, x, mid)
            &&& mid.puts_out(x, plain_out)
            &&& SVF::<A>::advances(mid, plain_post)
        };
    term::law_one_value::<A>(
        equations::driven(term::val(input), term::val(pre.params.drive)),
        x1,
        driven,
    );
    law_same_loop_same_outputs::<A>(solver, pre, plain, driven, mid1, mid2);
    determinism::lemma_one_output::<A>(mid1, driven, out, plain_out);
    assert(SVF::<A>::advances(mid1, plain_post.set_to(mid1.params)));
    determinism::lemma_one_advance::<A>(mid1, post, plain_post.set_to(mid1.params));
}

} // verus!
