//! What the iterates and estimates of the saturated filter come to, where nothing is rounded.

use crate::algebra;
use crate::arithmetic::Arithmetic;
use crate::equations;
use crate::equations::Damping;
use crate::filter::SVF;
use crate::laws;
use crate::linearity;
use crate::newton;
use crate::newton::{Iterate, Jacobian};
use crate::reading;
use crate::term;
use crate::term::{Function, Reading, Term};
use vstd::prelude::*;

verus! {

/// Whether the settings let the filter be solved at every estimate: neither the gain nor the
/// damping is negative.
pub open spec fn is_damped<A: Arithmetic>(filter: SVF<A>, m: Reading<A::Num>) -> bool {
    &&& (m.number)(filter.params.g) >= 0 as real
    &&& (m.number)(filter.params.res) >= 0 as real
}

pub(crate) proof fn lemma_damped_is_solvable<A: Arithmetic>(filter: SVF<A>, m: Reading<A::Num>)
    requires
        is_damped::<A>(filter, m),
    ensures
        linearity::linear_solvable::<A>(filter, m),
{
    let g = (m.number)(filter.params.g);
    let k = (m.number)(filter.params.res);
    algebra::lemma_nonnegative_product(g, g + k);
}

/// Whether the saturators of `it` stand at its estimates, and its residues are theirs.
pub open spec fn stands_at_its_estimates<A: Arithmetic>(
    damping: Damping,
    filter: SVF<A>,
    input: A::Num,
    it: Iterate<A::Num>,
) -> bool {
    &&& newton::saturates::<A>(
        it,
        filter.params.res,
        input,
        equations::antisaturated(damping, term::val(it.v_est[0])),
        it.v_est[0],
        it.v_est[1],
    )
    &&& newton::leaves_residue::<A>(it, filter)
}

/// What the parts of an iterate come to.
pub(crate) proof fn lemma_iterate_values<A: Arithmetic>(
    damping: Damping,
    filter: SVF<A>,
    input: A::Num,
    it: Iterate<A::Num>,
    m: Reading<A::Num>,
)
    requires
        term::is_exact::<A>(m),
        stands_at_its_estimates::<A>(damping, filter, input, it),
    ensures
        ({
            let g = (m.number)(filter.params.g);
            let k = (m.number)(filter.params.res);
            let v0 = (m.number)(it.v_est[0]);
            let v1 = (m.number)(it.v_est[1]);
            &&& (m.number)(it.sinh) == match damping {
                Damping::Full => (m.image)(Function::Sinh, v0),
                Damping::Less => 2 as real * (m.image)(Function::Sinh, v0 / 2 as real),
            }
            &&& (m.number)(it.tanh) == (m.image)(Function::Tanh, v0)
            &&& (m.number)(it.fb_line) == (m.image)(
                Function::Tanh,
                (m.number)(input) - ((k - 1 as real) * v0 + (m.number)(it.sinh)) - v1,
            )
            &&& (m.number)(it.residue[0]) == g * (m.number)(it.fb_line) + (m.number)(filter.s[0])
                - v0
            &&& (m.number)(it.residue[1]) == g * (m.number)(it.tanh) + (m.number)(filter.s[1]) - v1
        }),
{
    reading::lemma_readings::<A::Num>(m);
    let g = term::val(filter.params.g);
    let v0 = term::val(it.v_est[0]);
    let v1 = term::val(it.v_est[1]);
    term::law_exact_value::<A>(equations::antisaturated(damping, v0), it.sinh, m);
    term::law_exact_value::<A>(v0.tanh(), it.tanh, m);
    term::law_exact_value::<A>(
        equations::feedback(
            term::val(input),
            term::val(filter.params.res),
            v0,
            term::val(it.sinh),
            v1,
        ),
        it.fb_line,
        m,
    );
    term::law_exact_value::<A>(
        equations::integrated(g, term::val(it.fb_line), term::val(filter.s[0])).minus(v0),
        it.residue[0],
        m,
    );
    term::law_exact_value::<A>(
        equations::integrated(g, term::val(it.tanh), term::val(filter.s[1])).minus(v1),
        it.residue[1],
        m,
    );
}

/// Whether a step can be taken from `it`: its saturators are within their limits and, where the
/// Jacobian takes the slope of the damping from them, they stand at its estimate.
pub open spec fn is_steppable<N>(damping: Damping, it: Iterate<N>, m: Reading<N>) -> bool {
    let v0 = (m.number)(it.v_est[0]);
    &&& (m.number)(it.fb_line) > -(1 as real)
    &&& (m.number)(it.fb_line) < 1 as real
    &&& (m.number)(it.tanh) > -(1 as real)
    &&& (m.number)(it.tanh) < 1 as real
    &&& damping == Damping::Full ==> (m.number)(it.sinh) == (m.image)(Function::Sinh, v0)
    &&& damping == Damping::Full ==> (m.number)(it.tanh) == (m.image)(Function::Tanh, v0)
}

/// A step can be taken from every iterate whose saturators stand at its estimates.
pub proof fn law_newton_iterates_are_steppable<A: Arithmetic>(
    damping: Damping,
    filter: SVF<A>,
    input: A::Num,
    it: Iterate<A::Num>,
    m: Reading<A::Num>,
)
    requires
        term::is_exact::<A>(m),
        reading::is_hyperbolic(m),
        stands_at_its_estimates::<A>(damping, filter, input, it),
    ensures
        is_steppable(damping, it, m),
{
    lemma_iterate_values::<A>(damping, filter, input, it, m);
}

/// What the entries of the Jacobian come to where a step can be taken.
pub(crate) proof fn lemma_slopes<A: Arithmetic>(
    damping: Damping,
    g: A::Num,
    k: A::Num,
    it: Iterate<A::Num>,
    j: Jacobian<A::Num>,
    m: Reading<A::Num>,
)
    requires
        term::is_exact::<A>(m),
        reading::is_hyperbolic(m),
        is_steppable(damping, it, m),
        newton::jacobian_of::<A>(damping, g, k, it, j),
    ensures
        ({
            let fb_slope = 1 as real - (m.number)(it.fb_line) * (m.number)(it.fb_line);
            let th_slope = 1 as real - (m.number)(it.tanh) * (m.number)(it.tanh);
            let d = damping_slope(damping, it, m);
            &&& fb_slope > 0 as real
            &&& th_slope > 0 as real
            &&& d >= 1 as real
            &&& (m.number)(j.j00) == -(1 as real) - (m.number)(g) * ((m.number)(k) - 1 as real + d)
                * fb_slope
            &&& (m.number)(j.j01) == -((m.number)(g) * fb_slope)
            &&& (m.number)(j.j10) == (m.number)(g) * th_slope
        }),
{
    algebra::lemma_square_below_one((m.number)(it.fb_line));
    algebra::lemma_square_below_one((m.number)(it.tanh));
    laws::law_jacobian_holds_the_slopes::<A>(damping, g, k, it, j, m);
}

/// The slope of the damping that the Jacobian at `it` rests on.
pub open spec fn damping_slope<N>(damping: Damping, it: Iterate<N>, m: Reading<N>) -> real {
    let v0 = (m.number)(it.v_est[0]);
    match damping {
        Damping::Full => (m.image)(Function::Cosh, v0),
        Damping::Less => (m.image)(Function::Cosh, v0 / (15 as real / 10 as real)),
    }
}

/// The divisor of a step from `it`: the determinant of the Jacobian, negated.
pub open spec fn step_divisor<A: Arithmetic>(
    damping: Damping,
    filter: SVF<A>,
    it: Iterate<A::Num>,
    m: Reading<A::Num>,
) -> real {
    let g = (m.number)(filter.params.g);
    let k = (m.number)(filter.params.res);
    let fb_slope = 1 as real - (m.number)(it.fb_line) * (m.number)(it.fb_line);
    let th_slope = 1 as real - (m.number)(it.tanh) * (m.number)(it.tanh);
    let j00 = -(1 as real) - g * (k - 1 as real + damping_slope(damping, it, m)) * fb_slope;
    -(g * fb_slope) * (g * th_slope) + j00
}

/// Whether no step along `trace` divides by zero.
pub open spec fn steps_are_solvable<A: Arithmetic>(
    damping: Damping,
    filter: SVF<A>,
    trace: Seq<Iterate<A::Num>>,
    m: Reading<A::Num>,
) -> bool {
    forall|i: int|
        0 <= i < trace.len() - 1 ==> step_divisor::<A>(damping, filter, #[trigger] trace[i], m)
            != 0 as real
}

/// Every step of Newton's method can be solved: the determinant of the Jacobian stays away from
/// zero, whatever the estimates, zero among them.
pub proof fn law_newton_step_is_solvable<A: Arithmetic>(
    damping: Damping,
    filter: SVF<A>,
    it: Iterate<A::Num>,
    j: Jacobian<A::Num>,
    m: Reading<A::Num>,
)
    requires
        term::is_exact::<A>(m),
        reading::is_hyperbolic(m),
        is_damped::<A>(filter, m),
        is_steppable(damping, it, m),
        newton::jacobian_of::<A>(damping, filter.params.g, filter.params.res, it, j),
    ensures
        1 as real - (m.number)(it.fb_line) * (m.number)(it.fb_line) > 0 as real,
        (m.number)(j.j00) <= -(1 as real),
        (m.number)(j.j01) <= 0 as real,
        (m.number)(j.j10) >= 0 as real,
        (m.number)(j.j01) * (m.number)(j.j10) + (m.number)(j.j00) <= (m.number)(j.j00),
        step_divisor::<A>(damping, filter, it, m) <= -(1 as real),
{
    let fb = (m.number)(it.fb_line);
    let th = (m.number)(it.tanh);
    lemma_slopes::<A>(damping, filter.params.g, filter.params.res, it, j, m);
    algebra::lemma_determinant(
        (m.number)(filter.params.g),
        (m.number)(filter.params.res),
        damping_slope(damping, it, m),
        1 as real - fb * fb,
        1 as real - th * th,
    );
}

/// A residue is found too large where it is.
pub(crate) proof fn lemma_error_outcome<A: Arithmetic>(
    residue: A::Num,
    outcome: bool,
    m: Reading<A::Num>,
)
    requires
        term::is_exact::<A>(m),
        newton::exceeds_error::<A>(residue, outcome),
    ensures
        outcome == !reading::within((m.number)(residue), 1 as real / 100000 as real),
{
    reading::lemma_readings::<A::Num>(m);
    reading::lemma_decimals::<A::Num>(m);
    let (size, max_error) = choose|size: A::Num, max_error: A::Num|
        {
            &&& term::yields::<A>(term::val(residue).abs(), size)
            &&& term::yields::<A>(Term::Decimal(1, 5), max_error)
            &&& #[trigger] call_ensures(A::exceeds, (size, max_error), outcome)
        };
    term::law_exact_value::<A>(term::val(residue).abs(), size, m);
    term::law_exact_value::<A>(Term::Decimal(1, 5), max_error, m);
}

/// Whether the residues of an iterate are small enough.
pub open spec fn has_small_residues<N>(it: Iterate<N>, m: Reading<N>) -> bool {
    &&& reading::within((m.number)(it.residue[0]), 1 as real / 100000 as real)
    &&& reading::within((m.number)(it.residue[1]), 1 as real / 100000 as real)
}

pub(crate) proof fn lemma_settles_where_small<A: Arithmetic>(
    it: Iterate<A::Num>,
    m: Reading<A::Num>,
)
    requires
        term::is_exact::<A>(m),
    ensures
        newton::settled::<A>(it) ==> has_small_residues(it, m),
        newton::unsettled::<A>(it) ==> !has_small_residues(it, m),
{
    if newton::settled::<A>(it) {
        lemma_error_outcome::<A>(it.residue[0], false, m);
        lemma_error_outcome::<A>(it.residue[1], false, m);
    }
    if newton::exceeds_error::<A>(it.residue[0], true) {
        lemma_error_outcome::<A>(it.residue[0], true, m);
    }
    if newton::exceeds_error::<A>(it.residue[1], true) {
        lemma_error_outcome::<A>(it.residue[1], true, m);
    }
}

/// What a step of Newton's method leads to.
pub(crate) proof fn lemma_step_values<A: Arithmetic>(
    it: Iterate<A::Num>,
    j: Jacobian<A::Num>,
    next: Iterate<A::Num>,
    m: Reading<A::Num>,
)
    requires
        term::is_exact::<A>(m),
        newton::steps_by::<A>(it, j, next),
        (m.number)(j.j01) * (m.number)(j.j10) + (m.number)(j.j00) != 0 as real,
    ensures
        ({
            let j00 = (m.number)(j.j00);
            let j01 = (m.number)(j.j01);
            let j10 = (m.number)(j.j10);
            let v0 = (m.number)(it.v_est[0]);
            let v1 = (m.number)(it.v_est[1]);
            let r0 = (m.number)(it.residue[0]);
            let r1 = (m.number)(it.residue[1]);
            &&& (m.number)(next.v_est[0]) == (j01 * j10 * v0 + j00 * v0 - j01 * r1 - r0) / (j01
                * j10 + j00)
            &&& (m.number)(next.v_est[1]) == (j01 * j10 * v1 + j00 * r1 + j00 * v1 - j10 * r0) / (
            j01 * j10 + j00)
        }),
{
    reading::lemma_readings::<A::Num>(m);
    let j00 = term::val(j.j00);
    let j01 = term::val(j.j01);
    let j10 = term::val(j.j10);
    let r0 = term::val(it.residue[0]);
    let r1 = term::val(it.residue[1]);
    term::law_exact_value::<A>(
        equations::newton_v0(j00, j01, j10, term::val(it.v_est[0]), r0, r1),
        next.v_est[0],
        m,
    );
    term::law_exact_value::<A>(
        equations::newton_v1(j00, j01, j10, term::val(it.v_est[1]), r0, r1),
        next.v_est[1],
        m,
    );
}

/// What the saturators of the first iterate with less anti-saturation come to.
pub(crate) proof fn lemma_first_less_values<A: Arithmetic>(
    filter: SVF<A>,
    input: A::Num,
    v0: A::Num,
    v1: A::Num,
    it: Iterate<A::Num>,
    m: Reading<A::Num>,
)
    requires
        term::is_exact::<A>(m),
        newton::saturates::<A>(
            it,
            filter.params.res,
            input,
            equations::first_antisaturated(Damping::Less, term::val(v0)),
            v0,
            v1,
        ),
        newton::leaves_residue::<A>(it, filter),
    ensures
        ({
            let g = (m.number)(filter.params.g);
            let k = (m.number)(filter.params.res);
            let width = 15 as real / 10 as real;
            let v = (m.number)(v0);
            &&& (m.number)(it.sinh) == width * (m.image)(Function::Sinh, v / width)
            &&& (m.number)(it.tanh) == (m.image)(Function::Tanh, v)
            &&& (m.number)(it.fb_line) == (m.image)(
                Function::Tanh,
                (m.number)(input) - ((k - 1 as real) * v + (m.number)(it.sinh)) - (m.number)(v1),
            )
            &&& (m.number)(it.residue[0]) == g * (m.number)(it.fb_line) + (m.number)(filter.s[0])
                - (m.number)(it.v_est[0])
            &&& (m.number)(it.residue[1]) == g * (m.number)(it.tanh) + (m.number)(filter.s[1]) - (
            m.number)(it.v_est[1])
        }),
{
    reading::lemma_readings::<A::Num>(m);
    reading::lemma_decimals::<A::Num>(m);
    let g = term::val(filter.params.g);
    let v = term::val(v0);
    term::law_exact_value::<A>(equations::first_antisaturated(Damping::Less, v), it.sinh, m);
    term::law_exact_value::<A>(v.tanh(), it.tanh, m);
    term::law_exact_value::<A>(
        equations::feedback(
            term::val(input),
            term::val(filter.params.res),
            v,
            term::val(it.sinh),
            term::val(v1),
        ),
        it.fb_line,
        m,
    );
    term::law_exact_value::<A>(
        equations::integrated(g, term::val(it.fb_line), term::val(filter.s[0])).minus(
            term::val(it.v_est[0]),
        ),
        it.residue[0],
        m,
    );
    term::law_exact_value::<A>(
        equations::integrated(g, term::val(it.tanh), term::val(filter.s[1])).minus(
            term::val(it.v_est[1]),
        ),
        it.residue[1],
        m,
    );
}

/// A step can be taken from every iterate of Newton's method, if from the first.
pub(crate) proof fn lemma_trace_steppable<A: Arithmetic>(
    damping: Damping,
    filter: SVF<A>,
    input: A::Num,
    trace: Seq<Iterate<A::Num>>,
    i: int,
    m: Reading<A::Num>,
)
    requires
        term::is_exact::<A>(m),
        reading::is_hyperbolic(m),
        newton::newton_chain::<A>(damping, filter, input, trace),
        trace.len() > 0,
        is_steppable(damping, trace.first(), m),
        0 <= i < trace.len(),
    ensures
        is_steppable(damping, trace[i], m),
{
    if i > 0 {
        assert(newton::unsettled::<A>(trace[i - 1]));
        assert(newton::newton_step::<A>(damping, filter, input, trace[i - 1], trace[i - 1 + 1]));
        law_newton_iterates_are_steppable::<A>(damping, filter, input, trace[i], m);
    }
}

/// Where neither the gain nor the damping is negative, no step divides by zero.
pub proof fn law_damped_steps_are_solvable<A: Arithmetic>(
    damping: Damping,
    filter: SVF<A>,
    input: A::Num,
    trace: Seq<Iterate<A::Num>>,
    m: Reading<A::Num>,
)
    requires
        term::is_exact::<A>(m),
        reading::is_hyperbolic(m),
        is_damped::<A>(filter, m),
        newton::newton_chain::<A>(damping, filter, input, trace),
        trace.len() > 0,
        is_steppable(damping, trace.first(), m),
    ensures
        steps_are_solvable::<A>(damping, filter, trace, m),
{
    assert forall|i: int| 0 <= i < trace.len() - 1 implies step_divisor::<A>(
        damping,
        filter,
        #[trigger] trace[i],
        m,
    ) != 0 as real by {
        lemma_trace_steppable::<A>(damping, filter, input, trace, i, m);
        assert(newton::newton_step::<A>(damping, filter, input, trace[i], trace[i + 1]));
        let it = trace[i];
        let j = choose|j: Jacobian<A::Num>|
            newton::jacobian_of::<A>(damping, filter.params.g, filter.params.res, it, j)
                && #[trigger] newton::steps_by::<A>(it, j, trace[i + 1]);
        law_newton_step_is_solvable::<A>(damping, filter, it, j, m);
    }
}

/// What the first integrator of the fixed-pivot method is expected to be handed.
pub(crate) proof fn lemma_pivot_estimate_value<A: Arithmetic>(
    pre: SVF<A>,
    input: A::Num,
    e: A::Num,
    a: A::Num,
    m: Reading<A::Num>,
)
    requires
        term::is_exact::<A>(m),
        term::yields::<A>(
            equations::pivot_estimate(
                term::val(input),
                term::val(pre.params.res),
                term::val(pre.s[0]),
                term::val(a),
                term::val(pre.s[1]),
            ),
            e,
        ),
    ensures
        ({
            let s = (m.number)(pre.s[0]);
            (m.number)(e) == (m.number)(input) - (s * (m.number)(a) + ((m.number)(pre.params.res)
                - 1 as real) * s) - (m.number)(pre.s[1])
        }),
{
    reading::lemma_readings::<A::Num>(m);
    term::law_exact_value::<A>(
        equations::pivot_estimate(
            term::val(input),
            term::val(pre.params.res),
            term::val(pre.s[0]),
            term::val(a),
            term::val(pre.s[1]),
        ),
        e,
        m,
    );
}

} // verus!
