//! The saturated filter, solved by Newton's method.

use crate::arithmetic::Arithmetic;
use crate::equations;
use crate::equations::Damping;
use crate::filter::{EstimateSource, SVF};
use crate::pivotal;
use crate::quantity::Quantity;
use crate::term;
use crate::term::Term;
use vstd::prelude::*;

verus! {

/// The number of steps after which Newton's method gives up.
pub const MAX_STEPS: u32 = 11;

/// One estimate of the outputs, and what the filter makes of it.
pub struct Iterate<N> {
    /// The estimated outputs.
    pub v_est: [N; 2],
    /// The anti-saturated damping.
    pub sinh: N,
    /// What the second integrator is handed.
    pub tanh: N,
    /// What the first integrator is handed.
    pub fb_line: N,
    /// By how much the outputs of the integrators differ from the estimates.
    pub residue: [N; 2],
}

/// How the residues of an iterate change with its estimates. (The second residue changes with
/// the second estimate at the rate -1.)
pub struct Jacobian<N> {
    pub j00: N,
    pub j01: N,
    pub j10: N,
}

/// Whether `it` holds, at the estimates `v0` and `v1`, what the saturators hand on, where the
/// damping there is given by the formula `damping`.
pub open spec fn saturates<A: Arithmetic>(
    it: Iterate<A::Num>,
    k: A::Num,
    input: A::Num,
    damping: Term<A::Num>,
    v0: A::Num,
    v1: A::Num,
) -> bool {
    &&& term::yields::<A>(damping, it.sinh)
    &&& term::yields::<A>(term::val(v0).tanh(), it.tanh)
    &&& term::yields::<A>(
        equations::feedback(
            term::val(input),
            term::val(k),
            term::val(v0),
            term::val(it.sinh),
            term::val(v1),
        ),
        it.fb_line,
    )
}

/// Whether the residues of `it` are the differences between what its integrators put out and its
/// estimates.
pub open spec fn leaves_residue<A: Arithmetic>(it: Iterate<A::Num>, filter: SVF<A>) -> bool {
    &&& term::yields::<A>(
        equations::integrated(
            term::val(filter.params.g),
            term::val(it.fb_line),
            term::val(filter.s[0]),
        ).minus(term::val(it.v_est[0])),
        it.residue[0],
    )
    &&& term::yields::<A>(
        equations::integrated(
            term::val(filter.params.g),
            term::val(it.tanh),
            term::val(filter.s[1]),
        ).minus(term::val(it.v_est[1])),
        it.residue[1],
    )
}

/// Whether the comparison of the size of a residue with the largest error that is let pass has
/// the outcome `outcome`.
pub open spec fn exceeds_error<A: Arithmetic>(residue: A::Num, outcome: bool) -> bool {
    exists|size: A::Num, max_error: A::Num|
        {
            &&& term::yields::<A>(term::val(residue).abs(), size)
            &&& term::yields::<A>(Term::Decimal(1, 5), max_error)
            &&& #[trigger] call_ensures(A::exceeds, (size, max_error), outcome)
        }
}

/// Whether a residue of `it` is too large.
pub open spec fn unsettled<A: Arithmetic>(it: Iterate<A::Num>) -> bool {
    exceeds_error::<A>(it.residue[0], true) || exceeds_error::<A>(it.residue[1], true)
}

/// Whether no residue of `it` is too large.
pub open spec fn settled<A: Arithmetic>(it: Iterate<A::Num>) -> bool {
    exceeds_error::<A>(it.residue[0], false) && exceeds_error::<A>(it.residue[1], false)
}

/// Whether `slope` is the inverse slope of the feedback line of `it`, and whether it was found to
/// be infinite is `infinite`.
pub open spec fn inverse_slope_of<A: Arithmetic>(
    it: Iterate<A::Num>,
    slope: A::Num,
    infinite: bool,
) -> bool {
    &&& term::yields::<A>(equations::inverse_slope(term::val(it.fb_line)), slope)
    &&& call_ensures(A::is_infinite, (slope,), infinite)
}

/// Whether `d` is the slope of the damping that the Jacobian at `it` rests on. Where the hyperbolic
/// tangent is zero, so is the hyperbolic sine, and its slope is one.
pub open spec fn damping_slope_of<A: Arithmetic>(
    damping: Damping,
    it: Iterate<A::Num>,
    d: A::Num,
) -> bool {
    match damping {
        Damping::Full => pivotal::pivots::<A>(
            it.tanh,
            equations::sinh_slope(term::val(it.sinh), term::val(it.tanh)),
            d,
        ),
        Damping::Less => term::yields::<A>(
            equations::less_antisaturated_slope(term::val(it.v_est[0])),
            d,
        ),
    }
}

/// Whether the first row of `j` holds the slopes at `it`, where the inverse slope of the feedback
/// line is `slope` and the slope of the damping is `d`.
pub open spec fn jacobian_row<A: Arithmetic>(
    g: A::Num,
    k: A::Num,
    slope: A::Num,
    d: A::Num,
    j: Jacobian<A::Num>,
) -> bool {
    &&& term::yields::<A>(
        equations::jacobian_00(term::val(g), term::val(k), term::val(slope), term::val(d)),
        j.j00,
    )
    &&& term::yields::<A>(equations::jacobian_01(term::val(g), term::val(slope)), j.j01)
}

/// Whether `j` is the Jacobian at `it`. Where the feedback line is so saturated that its inverse
/// slope is infinite, its first row is -1 and 0.
pub open spec fn jacobian_of<A: Arithmetic>(
    damping: Damping,
    g: A::Num,
    k: A::Num,
    it: Iterate<A::Num>,
    j: Jacobian<A::Num>,
) -> bool {
    &&& {
        ||| exists|slope: A::Num|
            {
                &&& #[trigger] inverse_slope_of::<A>(it, slope, true)
                &&& term::yields::<A>(term::num(1).negated(), j.j00)
                &&& term::yields::<A>(term::num(0), j.j01)
            }
        ||| exists|slope: A::Num, d: A::Num|
            {
                &&& inverse_slope_of::<A>(it, slope, false)
                &&& damping_slope_of::<A>(damping, it, d)
                &&& #[trigger] jacobian_row::<A>(g, k, slope, d, j)
            }
    }
    &&& term::yields::<A>(
        equations::jacobian_10(damping, term::val(g), term::val(it.tanh)),
        j.j10,
    )
}

/// Whether a step by the Jacobian `j` leads from `it` to the estimates of `next`.
pub open spec fn steps_by<A: Arithmetic>(
    it: Iterate<A::Num>,
    j: Jacobian<A::Num>,
    next: Iterate<A::Num>,
) -> bool {
    &&& term::yields::<A>(
        equations::newton_v0(
            term::val(j.j00),
            term::val(j.j01),
            term::val(j.j10),
            term::val(it.v_est[0]),
            term::val(it.residue[0]),
            term::val(it.residue[1]),
        ),
        next.v_est[0],
    )
    &&& term::yields::<A>(
        equations::newton_v1(
            term::val(j.j00),
            term::val(j.j01),
            term::val(j.j10),
            term::val(it.v_est[1]),
            term::val(it.residue[0]),
            term::val(it.residue[1]),
        ),
        next.v_est[1],
    )
}

/// Whether a step of Newton's method leads from `it` to `next`.
pub open spec fn newton_step<A: Arithmetic>(
    damping: Damping,
    filter: SVF<A>,
    input: A::Num,
    it: Iterate<A::Num>,
    next: Iterate<A::Num>,
) -> bool {
    &&& exists|j: Jacobian<A::Num>|
        {
            &&& jacobian_of::<A>(damping, filter.params.g, filter.params.res, it, j)
            &&& #[trigger] steps_by::<A>(it, j, next)
        }
    &&& saturates::<A>(
        next,
        filter.params.res,
        input,
        equations::antisaturated(damping, term::val(next.v_est[0])),
        next.v_est[0],
        next.v_est[1],
    )
    &&& leaves_residue::<A>(next, filter)
}

/// Whether a step of Newton's method leads from each iterate of `trace` to the next, and a residue
/// of each but the last is too large.
pub open spec fn newton_chain<A: Arithmetic>(
    damping: Damping,
    filter: SVF<A>,
    input: A::Num,
    trace: Seq<Iterate<A::Num>>,
) -> bool {
    forall|i: int|
        0 <= i < trace.len() - 1 ==> unsettled::<A>(#[trigger] trace[i]) && newton_step::<A>(
            damping,
            filter,
            input,
            trace[i],
            trace[i + 1],
        )
}

/// Whether `trace` holds the iterates of Newton's method in order: it goes on as long as a residue
/// is too large, for `MAX_STEPS` steps at the most.
pub open spec fn newton_trace<A: Arithmetic>(
    damping: Damping,
    filter: SVF<A>,
    input: A::Num,
    trace: Seq<Iterate<A::Num>>,
) -> bool {
    &&& 1 <= trace.len() <= MAX_STEPS + 1
    &&& newton_chain::<A>(damping, filter, input, trace)
    &&& settled::<A>(trace.last()) || (trace.len() == MAX_STEPS + 1 && unsettled::<A>(trace.last()))
}

proof fn lemma_newton_chain_push<A: Arithmetic>(
    damping: Damping,
    filter: SVF<A>,
    input: A::Num,
    trace: Seq<Iterate<A::Num>>,
    next: Iterate<A::Num>,
)
    requires
        trace.len() > 0,
        newton_chain::<A>(damping, filter, input, trace),
        unsettled::<A>(trace.last()),
        newton_step::<A>(damping, filter, input, trace.last(), next),
    ensures
        newton_chain::<A>(damping, filter, input, trace.push(next)),
{
    let longer = trace.push(next);
    assert forall|i: int| 0 <= i < longer.len() - 1 implies unsettled::<A>(#[trigger] longer[i])
        && newton_step::<A>(damping, filter, input, longer[i], longer[i + 1]) by {
        if i < trace.len() - 1 {
            assert(unsettled::<A>(trace[i]));
            assert(longer[i + 1] == trace[i + 1]);
        }
    }
}

/// Whether the size of a residue is above the largest error that is let pass.
fn too_large<A: Arithmetic>(residue: A::Num) -> (outcome: bool)
    ensures
        exceeds_error::<A>(residue, outcome),
{
    let size = Quantity::<A>::val(residue).abs().get();
    let max_error = Quantity::<A>::decimal(1, 5).get();
    A::exceeds(size, max_error)
}

/// Whether a residue of `it` is too large.
fn is_unsettled<A: Arithmetic>(it: &Iterate<A::Num>) -> (outcome: bool)
    ensures
        outcome ==> unsettled::<A>(*it),
        !outcome ==> settled::<A>(*it),
{
    if too_large::<A>(it.residue[0]) {
        true
    } else {
        too_large::<A>(it.residue[1])
    }
}

/// The slope of the damping that the Jacobian at `it` rests on.
fn damping_slope<A: Arithmetic>(damping: Damping, it: &Iterate<A::Num>) -> (d: A::Num)
    ensures
        damping_slope_of::<A>(damping, *it, d),
{
    let zero = Quantity::<A>::num(0).get();
    match damping {
        Damping::Full => {
            // The quotient is the hyperbolic cosine, of which both parts are at hand.
            if A::differs(it.tanh, zero) {
                Quantity::<A>::val(it.sinh).over(Quantity::val(it.tanh)).get()
            } else {
                Quantity::<A>::num(1).get()
            }
        },
        Damping::Less => {
            Quantity::<A>::val(it.v_est[0]).over(Quantity::decimal(15, 1)).cosh().get()
        },
    }
}

/// The Jacobian at `it`.
pub fn jacobian<A: Arithmetic>(damping: Damping, g: A::Num, k: A::Num, it: &Iterate<A::Num>) -> (j:
    Jacobian<A::Num>)
    ensures
        jacobian_of::<A>(damping, g, k, *it, j),
{
    let ghost gain = g;
    let ghost res = k;
    let one = Quantity::<A>::num(1);
    let g = Quantity::<A>::val(g);
    let k = Quantity::<A>::val(k);
    let tanh = Quantity::<A>::val(it.tanh);
    let fb_line = Quantity::<A>::val(it.fb_line);
    let j10 = match damping {
        Damping::Full => g.times(one.minus(tanh.times(tanh))).get(),
        Damping::Less => g.times(one.minus(tanh.squared())).get(),
    };
    let inverse_slope = one.over(one.minus(fb_line.times(fb_line))).get();
    let infinite = A::is_infinite(inverse_slope);
    assert(inverse_slope_of::<A>(*it, inverse_slope, infinite));
    if infinite {
        Jacobian { j00: one.negated().get(), j01: Quantity::<A>::num(0).get(), j10 }
    } else {
        let slope = Quantity::<A>::val(inverse_slope);
        let d = damping_slope::<A>(damping, it);
        let j00 = slope.negated().minus(g.times(k.minus(one).plus(Quantity::val(d)))).over(slope);
        let j01 = g.over(slope).negated();
        let j = Jacobian { j00: j00.get(), j01: j01.get(), j10 };
        assert(jacobian_row::<A>(gain, res, inverse_slope, d, j));
        j
    }
}

/// The estimates that a step by the Jacobian `j` leads to.
pub fn newton_estimates<A: Arithmetic>(it: &Iterate<A::Num>, j: &Jacobian<A::Num>) -> (v_est: [A::Num;
    2])
    ensures
        forall|next: Iterate<A::Num>| next.v_est == v_est ==> #[trigger] steps_by::<A>(*it, *j, next),
        term::yields::<A>(
            equations::newton_v0(
                term::val(j.j00),
                term::val(j.j01),
                term::val(j.j10),
                term::val(it.v_est[0]),
                term::val(it.residue[0]),
                term::val(it.residue[1]),
            ),
            v_est[0],
        ),
        term::yields::<A>(
            equations::newton_v1(
                term::val(j.j00),
                term::val(j.j01),
                term::val(j.j10),
                term::val(it.v_est[1]),
                term::val(it.residue[0]),
                term::val(it.residue[1]),
            ),
            v_est[1],
        ),
{
    let j00 = Quantity::<A>::val(j.j00);
    let j01 = Quantity::<A>::val(j.j01);
    let j10 = Quantity::<A>::val(j.j10);
    let v0 = Quantity::<A>::val(it.v_est[0]);
    let v1 = Quantity::<A>::val(it.v_est[1]);
    let r0 = Quantity::<A>::val(it.residue[0]);
    let r1 = Quantity::<A>::val(it.residue[1]);
    let divisor = j01.times(j10).plus(j00);
    let n0 = j01.times(j10).times(v0).plus(j00.times(v0)).minus(j01.times(r1)).minus(r0);
    let n1 = j01.times(j10).times(v1).plus(j00.times(r1)).plus(j00.times(v1)).minus(j10.times(r0));
    [n0.over(divisor).get(), n1.over(divisor).get()]
}

/// The anti-saturated damping at an estimate.
fn antisaturate<A: Arithmetic>(damping: Damping, v0: A::Num) -> (r: A::Num)
    ensures
        term::yields::<A>(equations::antisaturated(damping, term::val(v0)), r),
{
    let v0 = Quantity::<A>::val(v0);
    let two = Quantity::<A>::num(2);
    match damping {
        Damping::Full => v0.sinh().get(),
        Damping::Less => two.times(v0.over(two).sinh()).get(),
    }
}

/// The anti-saturated damping at the first estimate.
fn first_antisaturate<A: Arithmetic>(damping: Damping, v0: A::Num) -> (r: A::Num)
    ensures
        term::yields::<A>(equations::first_antisaturated(damping, term::val(v0)), r),
{
    let v0 = Quantity::<A>::val(v0);
    let width = Quantity::<A>::decimal(15, 1);
    match damping {
        Damping::Full => v0.sinh().get(),
        Damping::Less => width.times(v0.over(width).sinh()).get(),
    }
}

/// What the feedback line hands to the first integrator.
fn feed_back<A: Arithmetic>(
    input: A::Num,
    k: A::Num,
    v0: A::Num,
    damping: A::Num,
    v1: A::Num,
) -> (r: A::Num)
    ensures
        term::yields::<A>(
            equations::feedback(
                term::val(input),
                term::val(k),
                term::val(v0),
                term::val(damping),
                term::val(v1),
            ),
            r,
        ),
{
    let one = Quantity::<A>::num(1);
    let x = Quantity::<A>::val(input);
    let k = Quantity::<A>::val(k);
    let v0 = Quantity::<A>::val(v0);
    let damping = Quantity::<A>::val(damping);
    let v1 = Quantity::<A>::val(v1);
    x.minus(k.minus(one).times(v0).plus(damping)).minus(v1).tanh().get()
}

impl<A: Arithmetic> SVF<A> {
    /// Completes an iterate by its residues.
    fn iterate(&mut self, v_est: [A::Num; 2], sinh: A::Num, tanh: A::Num, fb_line: A::Num) -> (it:
        Iterate<A::Num>)
        ensures
            *final(self) == *old(self),
            it.v_est == v_est,
            it.sinh == sinh,
            it.tanh == tanh,
            it.fb_line == fb_line,
            leaves_residue::<A>(it, *old(self)),
    {
        let g = self.params.g;
        let filter_out = self.run_svf(g, tanh, fb_line);
        let ghost out0 = equations::integrated(
            term::val(g),
            term::val(fb_line),
            term::val(self.s[0]),
        );
        let ghost out1 = equations::integrated(
            term::val(g),
            term::val(tanh),
            term::val(self.s[1]),
        );
        let r0 = Quantity::<A>::of(filter_out[0], Ghost(out0)).minus(Quantity::val(v_est[0]));
        let r1 = Quantity::<A>::of(filter_out[1], Ghost(out1)).minus(Quantity::val(v_est[1]));
        Iterate { v_est, sinh, tanh, fb_line, residue: [r0.get(), r1.get()] }
    }

    /// Runs Newton's method from a first iterate.
    fn solve(&mut self, damping: Damping, input: A::Num, first: Iterate<A::Num>) -> (last: Iterate<
        A::Num,
    >)
        ensures
            *final(self) == *old(self),
            exists|trace: Seq<Iterate<A::Num>>|
                {
                    &&& #[trigger] newton_trace::<A>(damping, *old(self), input, trace)
                    &&& trace.first() == first
                    &&& trace.last() == last
                },
    {
        let mut it = first;
        let ghost mut trace: Seq<Iterate<A::Num>> = seq![first];
        let mut n_iterations: u32 = 0;
        let mut open = is_unsettled::<A>(&it);
        while open && n_iterations < MAX_STEPS
            invariant
                *self == *old(self),
                n_iterations <= MAX_STEPS,
                trace.len() == n_iterations + 1,
                trace.first() == first,
                trace.last() == it,
                newton_chain::<A>(damping, *old(self), input, trace),
                open ==> unsettled::<A>(it),
                !open ==> settled::<A>(it),
            decreases MAX_STEPS - n_iterations,
        {
            let g = self.params.g;
            let k = self.params.res;
            let j = jacobian::<A>(damping, g, k, &it);
            let v_est = newton_estimates::<A>(&it, &j);
            let sinh = antisaturate::<A>(damping, v_est[0]);
            let tanh = Quantity::<A>::val(v_est[0]).tanh().get();
            let fb_line = feed_back::<A>(input, k, v_est[0], sinh, v_est[1]);
            let next = self.iterate(v_est, sinh, tanh, fb_line);
            assert(newton_step::<A>(damping, *old(self), input, it, next)) by {
                assert(steps_by::<A>(it, j, next));
            }
            proof {
                lemma_newton_chain_push::<A>(damping, *old(self), input, trace, next);
                trace = trace.push(next);
            }
            it = next;
            n_iterations = n_iterations + 1;
            open = is_unsettled::<A>(&it);
        }
        assert(newton_trace::<A>(damping, *old(self), input, trace));
        it
    }

    /// Whether Newton's method leads from `pre`, by way of the linear filter's outputs in `a` and
    /// `b`, along `trace` to the outputs of `post`.
    pub open spec fn newton_solution(
        pre: Self,
        input: A::Num,
        a: Self,
        b: Self,
        trace: Seq<Iterate<A::Num>>,
        post: Self,
    ) -> bool {
        &&& Self::linear_pass(pre, input, a)
        &&& Self::linear_pass(a, input, b)
        &&& newton_trace::<A>(Damping::Full, pre, input, trace)
        &&& trace.first().v_est[0] == a.vout[0]
        &&& trace.first().v_est[1] == b.vout[1]
        &&& saturates::<A>(
            trace.first(),
            pre.params.res,
            input,
            equations::first_antisaturated(Damping::Full, term::val(a.vout[0])),
            a.vout[0],
            b.vout[1],
        )
        &&& leaves_residue::<A>(trace.first(), pre)
        &&& post.vout == trace.last().v_est
    }

    /// Whether Newton's method, with the settings and the states of `pre`, answers `input` with
    /// the outputs of `post`. It starts from the outputs of the linear filter.
    pub open spec fn newton_pass(pre: Self, input: A::Num, post: Self) -> bool {
        &&& Self::same_but_vout(pre, post)
        &&& exists|a: Self, b: Self, trace: Seq<Iterate<A::Num>>| #[trigger]
            Self::newton_solution(pre, input, a, b, trace, post)
    }

    /// Runs the saturated filter on one input by Newton's method.
    pub fn run_svf_newton(&mut self, input: A::Num) -> (out: A::Num)
        ensures
            Self::newton_pass(*old(self), input, *final(self)),
            final(self).puts_out(input, out),
    {
        let k = self.params.res;
        let est_type = EstimateSource::LinearVoutEstimate;
        let v0 = self.get_estimate(0, est_type, input);
        let ghost a = *self;
        let v1 = self.get_estimate(1, est_type, input);
        let ghost b = *self;
        let sinh = first_antisaturate::<A>(Damping::Full, v0);
        let tanh = Quantity::<A>::val(v0).tanh().get();
        let fb_line = feed_back::<A>(input, k, v0, sinh, v1);
        let first = self.iterate([v0, v1], sinh, tanh, fb_line);
        let last = self.solve(Damping::Full, input, first);
        let ghost trace = choose|trace: Seq<Iterate<A::Num>>|
            {
                &&& #[trigger] newton_trace::<A>(Damping::Full, b, input, trace)
                &&& trace.first() == first
                &&& trace.last() == last
            };
        self.vout = last.v_est;
        assert(Self::newton_solution(*old(self), input, a, b, trace, *self));
        self.output(input)
    }

    /// Whether Newton's method with less anti-saturation leads from `pre`, by way of the linear
    /// filter's outputs in `a` and `b` and the fixed-pivot method's in `p`, along `trace` to the
    /// outputs of `post`. The saturators of the first iterate still stand at the linear outputs.
    pub open spec fn less_antisat_solution(
        pre: Self,
        input: A::Num,
        a: Self,
        b: Self,
        p: Self,
        trace: Seq<Iterate<A::Num>>,
        post: Self,
    ) -> bool {
        &&& Self::linear_pass(pre, input, a)
        &&& Self::linear_pass(a, input, b)
        &&& Self::pivotal_pass(b, input, p)
        &&& newton_trace::<A>(Damping::Less, pre, input, trace)
        &&& trace.first().v_est == p.vout
        &&& saturates::<A>(
            trace.first(),
            pre.params.res,
            input,
            equations::first_antisaturated(Damping::Less, term::val(a.vout[0])),
            a.vout[0],
            b.vout[1],
        )
        &&& leaves_residue::<A>(trace.first(), pre)
        &&& post.vout == trace.last().v_est
    }

    /// Whether Newton's method with less anti-saturation, with the settings and the states of
    /// `pre`, answers `input` with the outputs of `post`. It starts from the outputs of the
    /// fixed-pivot method.
    pub open spec fn less_antisat_pass(pre: Self, input: A::Num, post: Self) -> bool {
        &&& Self::same_but_vout(pre, post)
        &&& exists|a: Self, b: Self, p: Self, trace: Seq<Iterate<A::Num>>| #[trigger]
            Self::less_antisat_solution(pre, input, a, b, p, trace, post)
    }

    /// Runs the saturated filter, with less anti-saturation in its damping, on one input by
    /// Newton's method.
    pub fn run_svf_newton_less_antisat(&mut self, input: A::Num) -> (out: A::Num)
        ensures
            Self::less_antisat_pass(*old(self), input, *final(self)),
            final(self).puts_out(input, out),
    {
        let k = self.params.res;
        let est_type = EstimateSource::LinearVoutEstimate;
        let v0 = self.get_estimate(0, est_type, input);
        let ghost a = *self;
        let v1 = self.get_estimate(1, est_type, input);
        let ghost b = *self;
        let sinh = first_antisaturate::<A>(Damping::Less, v0);
        let tanh = Quantity::<A>::val(v0).tanh().get();
        let fb_line = feed_back::<A>(input, k, v0, sinh, v1);
        self.run_svf_pivotal(input);
        let ghost p = *self;
        let v_est = self.vout;
        let first = self.iterate(v_est, sinh, tanh, fb_line);
        let last = self.solve(Damping::Less, input, first);
        let ghost trace = choose|trace: Seq<Iterate<A::Num>>|
            {
                &&& #[trigger] newton_trace::<A>(Damping::Less, p, input, trace)
                &&& trace.first() == first
                &&& trace.last() == last
            };
        self.vout = last.v_est;
        assert(Self::less_antisat_solution(*old(self), input, a, b, p, trace, *self));
        self.output(input)
    }
}

} // verus!
