//! What holds of the linear filter, where nothing is rounded.

use crate::algebra;
use crate::arithmetic::Arithmetic;
use crate::equations;
use crate::equations::Mode;
use crate::filter::SVF;
use crate::laws;
use crate::reading;
use crate::term;
use crate::term::Reading;
use vstd::prelude::*;

verus! {

/// Whether the linear loop has a solution.
pub open spec fn linear_solvable<A: Arithmetic>(filter: SVF<A>, m: Reading<A::Num>) -> bool {
    let g = (m.number)(filter.params.g);
    let k = (m.number)(filter.params.res);
    1 as real + g * (g + k) != 0 as real
}

/// What the outputs of the linear filter come to.
pub(crate) proof fn lemma_linear_values<A: Arithmetic>(
    pre: SVF<A>,
    input: A::Num,
    post: SVF<A>,
    m: Reading<A::Num>,
)
    requires
        term::is_exact::<A>(m),
        SVF::<A>::linear_pass(pre, input, post),
        linear_solvable::<A>(pre, m),
    ensures
        ({
            let g = (m.number)(pre.params.g);
            let k = (m.number)(pre.params.res);
            let i = 1 as real / (1 as real + g * (g + k));
            let v0 = (m.number)(post.vout[0]);
            &&& v0 == i * (m.number)(pre.s[0]) + (g * i) * ((m.number)(input) - (m.number)(
                pre.s[1],
            ))
            &&& (m.number)(post.vout[1]) == (m.number)(pre.s[1]) + g * v0
        }),
{
    reading::lemma_readings::<A::Num>(m);
    let g = term::val(pre.params.g);
    let k = term::val(pre.params.res);
    let s0 = term::val(pre.s[0]);
    let s1 = term::val(pre.s[1]);
    term::law_exact_value::<A>(
        equations::linear_v0(g, k, s0, s1, term::val(input)),
        post.vout[0],
        m,
    );
    term::law_exact_value::<A>(
        equations::linear_v1(g, term::val(post.vout[0]), s1),
        post.vout[1],
        m,
    );
}

/// What a filter puts out, in its mode.
pub(crate) proof fn lemma_output_value<A: Arithmetic>(
    filter: SVF<A>,
    input: A::Num,
    out: A::Num,
    m: Reading<A::Num>,
)
    requires
        term::is_exact::<A>(m),
        filter.puts_out(input, out),
    ensures
        ({
            let k = (m.number)(filter.params.res);
            let x = (m.number)(input);
            let v0 = (m.number)(filter.vout[0]);
            let v1 = (m.number)(filter.vout[1]);
            (m.number)(out) == match Mode::of_index(filter.params.mode) {
                Mode::Lowpass => v1,
                Mode::Highpass => x - k * v0 - v1,
                Mode::Bandpass => v0,
                Mode::Notch => x - k * v0,
                Mode::Peak => x - (v1 + v1) - k * v0,
                Mode::NormalizedBandpass => k * v0,
            }
        }),
{
    reading::lemma_readings::<A::Num>(m);
    term::law_exact_value::<A>(
        equations::output(
            Mode::of_index(filter.params.mode),
            term::val(input),
            term::val(filter.params.res),
            term::val(filter.vout[0]),
            term::val(filter.vout[1]),
        ),
        out,
        m,
    );
    algebra::lemma_double(2 as real, (m.number)(filter.vout[1]));
}

/// Superposition: where the states and the input of a filter are the sums of those of two others
/// with the same settings, so are its outputs, and what it puts out in any mode.
pub proof fn law_linear_filters_superpose<A: Arithmetic>(
    pre1: SVF<A>,
    input1: A::Num,
    post1: SVF<A>,
    out1: A::Num,
    pre2: SVF<A>,
    input2: A::Num,
    post2: SVF<A>,
    out2: A::Num,
    pre: SVF<A>,
    input: A::Num,
    post: SVF<A>,
    out: A::Num,
    m: Reading<A::Num>,
)
    requires
        term::is_exact::<A>(m),
        linear_solvable::<A>(pre, m),
        pre1.params == pre.params,
        pre2.params == pre.params,
        forall|n: int|
            0 <= n < 2 ==> (m.number)(#[trigger] pre.s[n]) == (m.number)(pre1.s[n]) + (m.number)(
                pre2.s[n],
            ),
        (m.number)(input) == (m.number)(input1) + (m.number)(input2),
        SVF::<A>::linear_pass(pre1, input1, post1),
        SVF::<A>::linear_pass(pre2, input2, post2),
        SVF::<A>::linear_pass(pre, input, post),
        post1.puts_out(input1, out1),
        post2.puts_out(input2, out2),
        post.puts_out(input, out),
    ensures
        forall|n: int|
            0 <= n < 2 ==> (m.number)(#[trigger] post.vout[n]) == (m.number)(post1.vout[n]) + (
            m.number)(post2.vout[n]),
        (m.number)(out) == (m.number)(out1) + (m.number)(out2),
{
    lemma_linear_values::<A>(pre1, input1, post1, m);
    lemma_linear_values::<A>(pre2, input2, post2, m);
    lemma_linear_values::<A>(pre, input, post, m);
    lemma_output_value::<A>(post1, input1, out1, m);
    lemma_output_value::<A>(post2, input2, out2, m);
    lemma_output_value::<A>(post, input, out, m);
    let g = (m.number)(pre.params.g);
    let k = (m.number)(pre.params.res);
    let i = 1 as real / (1 as real + g * (g + k));
    let (s10, s11) = ((m.number)(pre1.s[0]), (m.number)(pre1.s[1]));
    let (s20, s21) = ((m.number)(pre2.s[0]), (m.number)(pre2.s[1]));
    assert((m.number)(pre.s[0]) == s10 + s20);
    assert((m.number)(pre.s[1]) == s11 + s21);
    algebra::lemma_distribute(i, s10, s20);
    algebra::lemma_distribute(g * i, (m.number)(input1) - s11, (m.number)(input2) - s21);
    let (a0, b0) = ((m.number)(post1.vout[0]), (m.number)(post2.vout[0]));
    assert((m.number)(post.vout[0]) == a0 + b0);
    algebra::lemma_distribute(g, a0, b0);
    algebra::lemma_distribute(k, a0, b0);
    assert((m.number)(post.vout[1]) == (m.number)(post1.vout[1]) + (m.number)(post2.vout[1]));
}

/// The outputs of the linear filter grow with its input.
pub proof fn law_linear_outputs_grow_with_the_input<A: Arithmetic>(
    pre: SVF<A>,
    lower: A::Num,
    post1: SVF<A>,
    higher: A::Num,
    post2: SVF<A>,
    m: Reading<A::Num>,
)
    requires
        term::is_exact::<A>(m),
        (m.number)(pre.params.g) >= 0 as real,
        (m.number)(pre.params.res) >= 0 as real,
        (m.number)(lower) <= (m.number)(higher),
        SVF::<A>::linear_pass(pre, lower, post1),
        SVF::<A>::linear_pass(pre, higher, post2),
    ensures
        (m.number)(post1.vout[0]) <= (m.number)(post2.vout[0]),
        (m.number)(post1.vout[1]) <= (m.number)(post2.vout[1]),
{
    let g = (m.number)(pre.params.g);
    let k = (m.number)(pre.params.res);
    let d = 1 as real + g * (g + k);
    algebra::lemma_nonnegative_product(g, g + k);
    lemma_linear_values::<A>(pre, lower, post1, m);
    lemma_linear_values::<A>(pre, higher, post2, m);
    let i = 1 as real / d;
    algebra::lemma_positive_quotient(1 as real, d);
    algebra::lemma_nonnegative_product(g, i);
    let s1 = (m.number)(pre.s[1]);
    let x = (m.number)(lower) - s1;
    let y = (m.number)(higher) - s1;
    algebra::lemma_nonnegative_product(g * i, y - x);
    algebra::lemma_distribute(g * i, y, x);
    let (v, w) = ((m.number)(post1.vout[0]), (m.number)(post2.vout[0]));
    algebra::lemma_nonnegative_product(g, w - v);
    algebra::lemma_distribute(g, w, v);
}

/// Without input the linear filter loses energy to its damping alone: the squares of its states
/// add up to what they did before, less four times the gain times the damping times the square of
/// the band-pass stage. So they do not grow where neither the gain nor the damping is negative.
pub proof fn law_damping_takes_the_energy<A: Arithmetic>(
    pre: SVF<A>,
    input: A::Num,
    mid: SVF<A>,
    post: SVF<A>,
    m: Reading<A::Num>,
)
    requires
        term::is_exact::<A>(m),
        linear_solvable::<A>(pre, m),
        (m.number)(input) == 0 as real,
        SVF::<A>::linear_pass(pre, input, mid),
        SVF::<A>::advances(mid, post),
    ensures
        ({
            let g = (m.number)(pre.params.g);
            let k = (m.number)(pre.params.res);
            let v0 = (m.number)(mid.vout[0]);
            let (s0, s1) = ((m.number)(pre.s[0]), (m.number)(pre.s[1]));
            let (t0, t1) = ((m.number)(post.s[0]), (m.number)(post.s[1]));
            &&& t0 * t0 + t1 * t1 == s0 * s0 + s1 * s1 - 4 as real * (g * k * (v0 * v0))
            &&& g >= 0 as real && k >= 0 as real ==> t0 * t0 + t1 * t1 <= s0 * s0 + s1 * s1
        }),
{
    laws::law_linear_filter_solves_its_loop::<A>(pre, input, mid, m);
    laws::law_states_advance_by_the_trapezoidal_rule::<A>(mid, post, 0, m);
    laws::law_states_advance_by_the_trapezoidal_rule::<A>(mid, post, 1, m);
    algebra::lemma_energy(
        (m.number)(pre.params.g),
        (m.number)(pre.params.res),
        (m.number)(pre.s[0]),
        (m.number)(pre.s[1]),
        (m.number)(mid.vout[0]),
        (m.number)(mid.vout[1]),
        (m.number)(post.s[0]),
        (m.number)(post.s[1]),
    );
    let g = (m.number)(pre.params.g);
    let k = (m.number)(pre.params.res);
    let v0 = (m.number)(mid.vout[0]);
    algebra::lemma_square(v0);
    if g >= 0 as real && k >= 0 as real {
        algebra::lemma_nonnegative_product(g, k);
        algebra::lemma_nonnegative_product(g * k, v0 * v0);
    }
}

} // verus!
