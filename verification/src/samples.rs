//! What a sample comes to: how it enters the filter, what is put out for it, and what it leaves
//! behind.

use crate::algebra;
use crate::arithmetic::Arithmetic;
use crate::determinism;
use crate::equations;
use crate::filter::SVF;
use crate::laws;
use crate::linearity;
use crate::reading;
use crate::solvers;
use crate::solvers::Solver;
use crate::term;
use crate::term::Reading;
use vstd::prelude::*;

verus! {

/// What is put out follows the mode: the low-pass and the band-pass are the stages themselves, in
/// every arithmetic. Where nothing is rounded, what the high-pass, the notch and the peak leave out
/// is what adds up to the input with them, and every further mode is the damped band-pass.
pub proof fn law_output_follows_the_mode<A: Arithmetic>(
    filter: SVF<A>,
    input: A::Num,
    out: A::Num,
    m: Reading<A::Num>,
)
    requires
        filter.puts_out(input, out),
    ensures
        filter.params.mode == 0 ==> out == filter.vout[1],
        filter.params.mode == 2 ==> out == filter.vout[0],
        filter.params.mode == 1 ==> term::yields::<A>(
            term::val(input).minus(
                term::val(filter.params.res).times(term::val(filter.vout[0])),
            ).minus(term::val(filter.vout[1])),
            out,
        ),
        filter.params.mode == 3 ==> term::yields::<A>(
            term::val(input).minus(
                term::val(filter.params.res).times(term::val(filter.vout[0])),
            ),
            out,
        ),
        filter.params.mode == 4 ==> term::yields::<A>(
            term::val(input).minus(term::num(2).times(term::val(filter.vout[1]))).minus(
                term::val(filter.params.res).times(term::val(filter.vout[0])),
            ),
            out,
        ),
        filter.params.mode >= 5 ==> term::yields::<A>(
            term::val(filter.params.res).times(term::val(filter.vout[0])),
            out,
        ),
        term::is_exact::<A>(m) ==> {
            let x = (m.number)(input);
            let band = (m.number)(filter.vout[0]);
            let damped = (m.number)(filter.params.res) * band;
            let low = (m.number)(filter.vout[1]);
            &&& filter.params.mode == 1 ==> (m.number)(out) + damped + low == x
            &&& filter.params.mode == 3 ==> (m.number)(out) + damped == x
            &&& filter.params.mode == 4 ==> (m.number)(out) + damped + low + low == x
            &&& filter.params.mode >= 5 ==> (m.number)(out) == damped
        },
{
    if term::is_exact::<A>(m) {
        linearity::lemma_output_value::<A>(filter, input, out, m);
    }
}

/// The drive raises the input: it enters the filter times one more than the drive.
pub proof fn law_the_drive_raises_the_input<A: Arithmetic>(
    filter: SVF<A>,
    input: A::Num,
    x: A::Num,
    m: Reading<A::Num>,
)
    requires
        term::is_exact::<A>(m),
        filter.drives(input, x),
    ensures
        (m.number)(x) == (m.number)(input) + (m.number)(filter.params.drive) * (m.number)(input),
{
    reading::lemma_readings::<A::Num>(m);
    term::law_exact_value::<A>(
        equations::driven(term::val(input), term::val(filter.params.drive)),
        x,
        m,
    );
    let (i, d) = ((m.number)(input), (m.number)(filter.params.drive));
    algebra::lemma_distribute(i, d, 1 as real);
    algebra::lemma_commute(i, d);
    algebra::lemma_unit(1 as real, i);
    algebra::lemma_commute(i, 1 as real);
}

/// A sample by the fixed-pivot method leaves in the stages what that method answers to the driven
/// input, puts out what they give in the filter's mode, mirrors each state at its stage, and leaves
/// the settings as they are.
pub proof fn law_a_pivotal_sample_is_a_driven_pass<A: Arithmetic>(
    pre: SVF<A>,
    input: A::Num,
    post: SVF<A>,
    out: A::Num,
    m: Reading<A::Num>,
)
    requires
        SVF::<A>::pivotal_tick(pre, input, post, out),
    ensures
        post.params == pre.params,
        pre.params.mode == 0 ==> out == post.vout[1],
        pre.params.mode == 2 ==> out == post.vout[0],
        term::is_exact::<A>(m) ==> {
            let x = (m.number)(input) + (m.number)(pre.params.drive) * (m.number)(input);
            let band = (m.number)(post.vout[0]);
            let damped = (m.number)(pre.params.res) * band;
            let low = (m.number)(post.vout[1]);
            &&& pre.params.mode == 1 ==> (m.number)(out) + damped + low == x
            &&& pre.params.mode == 3 ==> (m.number)(out) + damped == x
            &&& pre.params.mode == 4 ==> (m.number)(out) + damped + low + low == x
            &&& pre.params.mode >= 5 ==> (m.number)(out) == damped
            &&& (m.number)(pre.s[0]) + (m.number)(post.s[0]) == 2 as real * band
            &&& (m.number)(pre.s[1]) + (m.number)(post.s[1]) == 2 as real * low
        },
        exists|driven: A::Num, mid: SVF<A>|
            {
                &&& #[trigger] SVF::<A>::pivotal_pass(pre, driven, mid)
                &&& mid.vout == post.vout
                &&& mid.puts_out(driven, out)
                &&& term::yields::<A>(
                    term::val(input).times(term::val(pre.params.drive).plus(term::num(1))),
                    driven,
                )
                &&& term::is_exact::<A>(m) ==> (m.number)(driven) == (m.number)(input) + (m.number)(
                    pre.params.drive,
                ) * (m.number)(input)
            },
{
    let (driven, mid) = choose|driven: A::Num, mid: SVF<A>|
        {
            &&& pre.drives(input, driven)
            &&& #[trigger] SVF::<A>::pivotal_pass(pre, driven, mid)
            &&& mid.puts_out(driven, out)
            &&& SVF::<A>::advances(mid, post)
        };
    law_output_follows_the_mode::<A>(mid, driven, out, m);
    if term::is_exact::<A>(m) {
        law_the_drive_raises_the_input::<A>(pre, input, driven, m);
        laws::law_states_advance_by_the_trapezoidal_rule::<A>(mid, post, 0, m);
        laws::law_states_advance_by_the_trapezoidal_rule::<A>(mid, post, 1, m);
    }
}

/// A sample by Newton's method leaves in the stages what that method answers to the driven input,
/// puts out what they give in the filter's mode, mirrors each state at its stage, and leaves the
/// settings as they are.
pub proof fn law_a_newton_sample_is_a_driven_pass<A: Arithmetic>(
    pre: SVF<A>,
    input: A::Num,
    post: SVF<A>,
    out: A::Num,
    m: Reading<A::Num>,
)
    requires
        SVF::<A>::newton_tick(pre, input, post, out),
    ensures
        post.params == pre.params,
        pre.params.mode == 0 ==> out == post.vout[1],
        pre.params.mode == 2 ==> out == post.vout[0],
        term::is_exact::<A>(m) ==> {
            let x = (m.number)(input) + (m.number)(pre.params.drive) * (m.number)(input);
            let band = (m.number)(post.vout[0]);
            let damped = (m.number)(pre.params.res) * band;
            let low = (m.number)(post.vout[1]);
            &&& pre.params.mode == 1 ==> (m.number)(out) + damped + low == x
            &&& pre.params.mode == 3 ==> (m.number)(out) + damped == x
            &&& pre.params.mode == 4 ==> (m.number)(out) + damped + low + low == x
            &&& pre.params.mode >= 5 ==> (m.number)(out) == damped
            &&& (m.number)(pre.s[0]) + (m.number)(post.s[0]) == 2 as real * band
            &&& (m.number)(pre.s[1]) + (m.number)(post.s[1]) == 2 as real * low
        },
        exists|driven: A::Num, mid: SVF<A>|
            {
                &&& #[trigger] SVF::<A>::newton_pass(pre, driven, mid)
                &&& mid.vout == post.vout
                &&& mid.puts_out(driven, out)
                &&& term::yields::<A>(
                    term::val(input).times(term::val(pre.params.drive).plus(term::num(1))),
                    driven,
                )
                &&& term::is_exact::<A>(m) ==> (m.number)(driven) == (m.number)(input) + (m.number)(
                    pre.params.drive,
                ) * (m.number)(input)
            },
{
    let (driven, mid) = choose|driven: A::Num, mid: SVF<A>|
        {
            &&& pre.drives(input, driven)
            &&& #[trigger] SVF::<A>::newton_pass(pre, driven, mid)
            &&& mid.puts_out(driven, out)
            &&& SVF::<A>::advances(mid, post)
        };
    law_output_follows_the_mode::<A>(mid, driven, out, m);
    if term::is_exact::<A>(m) {
        law_the_drive_raises_the_input::<A>(pre, input, driven, m);
        laws::law_states_advance_by_the_trapezoidal_rule::<A>(mid, post, 0, m);
        laws::law_states_advance_by_the_trapezoidal_rule::<A>(mid, post, 1, m);
    }
}

/// Filters that are the same loop, at the same drive, have the same stages and states after a
/// sample, whatever their modes.
proof fn lemma_same_stages<A: Arithmetic>(
    pre1: SVF<A>,
    post1: SVF<A>,
    out1: A::Num,
    pre2: SVF<A>,
    post2: SVF<A>,
    out2: A::Num,
    input: A::Num,
)
    requires
        term::is_deterministic::<A>(),
        SVF::<A>::same_loop(pre1, pre2),
        pre1.params.drive == pre2.params.drive,
        (SVF::<A>::pivotal_tick(pre1, input, post1, out1) && SVF::<A>::pivotal_tick(
            pre2,
            input,
            post2,
            out2,
        )) || (SVF::<A>::newton_tick(pre1, input, post1, out1) && SVF::<A>::newton_tick(
            pre2,
            input,
            post2,
            out2,
        )),
    ensures
        post1.vout == post2.vout,
        post1.s == post2.s,
{
    let pivotal = SVF::<A>::pivotal_tick(pre1, input, post1, out1) && SVF::<A>::pivotal_tick(
        pre2,
        input,
        post2,
        out2,
    );
    let solver = if pivotal {
        Solver::Pivotal
    } else {
        Solver::Newton
    };
    let (x1, mid1) = choose|x: A::Num, mid: SVF<A>|
        {
            &&& pre1.drives(input, x)
            &&& #[trigger] SVF::<A>::answers(solver, pre1, x, mid)
            &&& mid.puts_out(x, out1)
            &&& SVF::<A>::advances(mid, post1)
        };
    let (x2, mid2) = choose|x: A::Num, mid: SVF<A>|
        {
            &&& pre2.drives(input, x)
            &&& #[trigger] SVF::<A>::answers(solver, pre2, x, mid)
            &&& mid.puts_out(x, out2)
            &&& SVF::<A>::advances(mid, post2)
        };
    solvers::lemma_tick_by_solver::<A>(pre1, input, post1, out1);
    solvers::lemma_tick_by_solver::<A>(pre2, input, post2, out2);
    term::law_one_value::<A>(
        equations::driven(term::val(input), term::val(pre1.params.drive)),
        x1,
        x2,
    );
    solvers::law_same_loop_same_outputs::<A>(solver, pre1, pre2, x1, mid1, mid2);
    assert(SVF::<A>::advances(mid1, post2.set_to(mid1.params)));
    determinism::lemma_one_advance::<A>(mid1, post1, post2.set_to(mid1.params));
}

/// Filters that are the same loop, at the same drive, split a driven sample among their modes, by
/// the fixed-pivot method as by Newton's: low-pass, damped band-pass and high-pass add up to it,
/// the notch is what low-pass and high-pass leave together, the peak is what they leave against
/// each other, and every further mode is the damped band-pass. The low-pass and the band-pass are
/// the stages themselves. All of them are left in the same state.
pub proof fn law_samples_are_split_among_the_modes<A: Arithmetic>(
    pre: Seq<SVF<A>>,
    input: A::Num,
    post: Seq<SVF<A>>,
    out: Seq<A::Num>,
    m: Reading<A::Num>,
)
    requires
        term::is_deterministic::<A>(),
        term::is_exact::<A>(m),
        pre.len() == 6,
        post.len() == 6,
        out.len() == 6,
        forall|i: int|
            0 <= i < 6 ==> {
                &&& (#[trigger] pre[i]).params.g == pre[0].params.g
                &&& pre[i].params.res == pre[0].params.res
                &&& pre[i].params.drive == pre[0].params.drive
                &&& pre[i].s == pre[0].s
                &&& if i < 5 {
                    pre[i].params.mode == i
                } else {
                    pre[i].params.mode >= 5
                }
            },
        (forall|i: int|
            0 <= i < 6 ==> SVF::<A>::pivotal_tick(#[trigger] pre[i], input, post[i], out[i])) || (
        forall|i: int|
            0 <= i < 6 ==> SVF::<A>::newton_tick(#[trigger] pre[i], input, post[i], out[i])),
    ensures
        ({
            let x = (m.number)(input) * ((m.number)(pre[0].params.drive) + 1 as real);
            let k = (m.number)(pre[0].params.res);
            let low = (m.number)(out[0]);
            let high = (m.number)(out[1]);
            let band = (m.number)(out[2]);
            let notch = (m.number)(out[3]);
            let peak = (m.number)(out[4]);
            let normalized = (m.number)(out[5]);
            &&& high + k * band + low == x
            &&& notch == high + low
            &&& peak == high - low
            &&& normalized == k * band
        }),
        forall|i: int|
            0 <= i < 6 ==> {
                &&& (#[trigger] post[i]).vout[0] == out[2]
                &&& post[i].vout[1] == out[0]
                &&& post[i].s == post[0].s
            },
{
    let pivotal = forall|i: int|
        0 <= i < 6 ==> SVF::<A>::pivotal_tick(#[trigger] pre[i], input, post[i], out[i]);
    assert forall|i: int| 0 <= i < 6 implies (#[trigger] post[i]).vout == post[0].vout && post[i].s
        == post[0].s by {
        assert(pre[i].s == pre[0].s);
        assert(pre[0].s == pre[0].s);
        lemma_same_stages::<A>(pre[0], post[0], out[0], pre[i], post[i], out[i], input);
    }
    assert forall|i: int| 0 <= i < 6 implies {
        let x = (m.number)(input) + (m.number)(pre[0].params.drive) * (m.number)(input);
        let band = (m.number)(post[0].vout[0]);
        let damped = (m.number)(pre[0].params.res) * band;
        let low = (m.number)(post[0].vout[1]);
        let o = #[trigger] out[i];
        &&& i == 0 ==> o == post[0].vout[1]
        &&& i == 1 ==> (m.number)(o) + damped + low == x
        &&& i == 2 ==> o == post[0].vout[0]
        &&& i == 3 ==> (m.number)(o) + damped == x
        &&& i == 4 ==> (m.number)(o) + damped + low + low == x
        &&& i == 5 ==> (m.number)(o) == damped
    } by {
        assert(pre[i].s == pre[0].s);
        assert(post[i].vout == post[0].vout);
        if pivotal {
            law_a_pivotal_sample_is_a_driven_pass::<A>(pre[i], input, post[i], out[i], m);
        } else {
            law_a_newton_sample_is_a_driven_pass::<A>(pre[i], input, post[i], out[i], m);
        }
    }
    let (i, d) = ((m.number)(input), (m.number)(pre[0].params.drive));
    algebra::lemma_distribute(i, d, 1 as real);
    algebra::lemma_commute(i, d);
    algebra::lemma_unit(1 as real, i);
    algebra::lemma_commute(i, 1 as real);
    let (o0, o1, o2, o3, o4, o5) = (out[0], out[1], out[2], out[3], out[4], out[5]);
}

/// A stream is filtered sample by sample, in order: an empty one leaves the filter as it is, and
/// any other is its first sample by Newton's method, and then the rest. As many samples come out
/// as go in, and the settings stay as they are.
pub proof fn law_a_stream_goes_sample_by_sample<A: Arithmetic>(
    pre: SVF<A>,
    input: Seq<A::Num>,
    post: SVF<A>,
    output: Seq<A::Num>,
)
    requires
        SVF::<A>::streams(pre, input, post, output),
    ensures
        output.len() == input.len(),
        post.params == pre.params,
        input.len() == 0 ==> post == pre,
        input.len() > 0 ==> exists|mid: SVF<A>|
            {
                &&& #[trigger] SVF::<A>::newton_tick(pre, input[0], mid, output[0])
                &&& SVF::<A>::streams(mid, input.skip(1), post, output.skip(1))
            },
    decreases input.len(),
{
    let states = choose|states: Seq<SVF<A>>|
        {
            &&& #[trigger] SVF::<A>::stream_states(states, input, output)
            &&& states.first() == pre
            &&& states.last() == post
        };
    if input.len() > 0 {
        let rest = states.skip(1);
        let mid = states[0int + 1];
        assert(SVF::<A>::newton_tick(states[0], input[0], mid, output[0]));
        assert(SVF::<A>::stream_states(rest, input.skip(1), output.skip(1))) by {
            assert forall|i: int| 0 <= i < input.skip(1).len() implies SVF::<A>::newton_tick(
                #[trigger] rest[i],
                input.skip(1)[i],
                rest[i + 1],
                output.skip(1)[i],
            ) by {
                assert(SVF::<A>::newton_tick(
                    states[i + 1],
                    input[i + 1],
                    states[i + 1 + 1],
                    output[i + 1],
                ));
            }
        }
        assert(rest.first() == mid && rest.last() == post);
        assert(SVF::<A>::streams(mid, input.skip(1), post, output.skip(1)));
        law_a_stream_goes_sample_by_sample::<A>(mid, input.skip(1), post, output.skip(1));
        laws::law_filtering_keeps_the_settings::<A>(pre, input[0], mid, output[0]);
    }
}

} // verus!
