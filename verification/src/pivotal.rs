//! The saturated filter, solved by Mystran's fixed-pivot method: each saturator is replaced by
//! the line through the origin that meets it at an estimate of its input.

use crate::arithmetic::Arithmetic;
use crate::equations;
use crate::filter::{EstimateSource, SVF};
use crate::quantity::Quantity;
use crate::term;
use crate::term::Term;
use vstd::prelude::*;

verus! {

/// Whether `a` is the slope of the line that stands for a saturator at the estimate `e`. It is
/// what the formula `slope` gives there, and one where the estimate is zero.
pub open spec fn pivots<A: Arithmetic>(e: A::Num, slope: Term<A::Num>, a: A::Num) -> bool {
    ||| exists|zero: A::Num|
        {
            &&& term::yields::<A>(term::num(0), zero)
            &&& #[trigger] call_ensures(A::differs, (e, zero), true)
            &&& term::yields::<A>(slope, a)
        }
    ||| exists|zero: A::Num|
        {
            &&& term::yields::<A>(term::num(0), zero)
            &&& #[trigger] call_ensures(A::differs, (e, zero), false)
            &&& term::yields::<A>(term::num(1), a)
        }
}

/// The slope that stands for a saturator.
pub fn tanh_pivot<A: Arithmetic>(e: A::Num) -> (a: A::Num)
    ensures
        pivots::<A>(e, equations::saturator_slope(term::val(e)), a),
{
    let zero = Quantity::<A>::num(0).get();
    if A::differs(e, zero) {
        let e = Quantity::<A>::val(e);
        e.tanh().over(e).get()
    } else {
        Quantity::<A>::num(1).get()
    }
}

/// The slope that stands for the inverse of the diode anti-saturator.
pub fn clipper_pivot<A: Arithmetic>(e: A::Num) -> (a: A::Num)
    ensures
        pivots::<A>(e, equations::clipper_slope(term::val(e)), a),
{
    let zero = Quantity::<A>::num(0).get();
    if A::differs(e, zero) {
        // The constants that set the character of the diode clipper.
        let v_t = Quantity::<A>::num(4);
        let i_s = Quantity::<A>::num(4);
        let e = Quantity::<A>::val(e);
        v_t.times(e.over(i_s).asinh()).over(e).get()
    } else {
        Quantity::<A>::num(1).get()
    }
}

impl<A: Arithmetic> SVF<A> {
    /// Whether `e0` is the estimate of what the first integrator is handed, and `a0`, `a1` and
    /// `a2` are the slopes at the estimates that the states of `pre` give.
    pub open spec fn pivot_slopes(
        pre: Self,
        input: A::Num,
        e0: A::Num,
        a0: A::Num,
        a1: A::Num,
        a2: A::Num,
    ) -> bool {
        &&& pivots::<A>(pre.s[0], equations::clipper_slope(term::val(pre.s[0])), a2)
        &&& term::yields::<A>(
            equations::pivot_estimate(
                term::val(input),
                term::val(pre.params.res),
                term::val(pre.s[0]),
                term::val(a2),
                term::val(pre.s[1]),
            ),
            e0,
        )
        &&& pivots::<A>(e0, equations::saturator_slope(term::val(e0)), a0)
        &&& pivots::<A>(pre.s[0], equations::saturator_slope(term::val(pre.s[0])), a1)
    }

    /// Whether the outputs of `post` are those of the filter whose saturators are the lines of the
    /// slopes `a0`, `a1` and `a2` at the estimates that the states of `pre` give.
    pub open spec fn pivotal_solution(
        pre: Self,
        input: A::Num,
        e0: A::Num,
        a0: A::Num,
        a1: A::Num,
        a2: A::Num,
        post: Self,
    ) -> bool {
        &&& Self::pivot_slopes(pre, input, e0, a0, a1, a2)
        &&& term::yields::<A>(
            equations::pivotal_drive(
                term::val(pre.params.g),
                term::val(pre.params.res),
                term::val(a0),
                term::val(a1),
                term::val(a2),
                term::val(pre.s[0]),
                term::val(pre.s[1]),
                term::val(input),
            ).asinh(),
            post.vout[0],
        )
        &&& term::yields::<A>(
            equations::pivotal_v1(
                term::val(pre.params.g),
                term::val(a1),
                term::val(post.vout[0]),
                term::val(pre.s[1]),
            ),
            post.vout[1],
        )
    }

    /// Whether the fixed-pivot method, with the settings and the states of `pre`, answers `input`
    /// with the outputs of `post`.
    pub open spec fn pivotal_pass(pre: Self, input: A::Num, post: Self) -> bool {
        &&& Self::same_but_vout(pre, post)
        &&& exists|e0: A::Num, a0: A::Num, a1: A::Num, a2: A::Num| #[trigger]
            Self::pivotal_solution(pre, input, e0, a0, a1, a2, post)
    }

    /// Runs the filter on one input by the fixed-pivot method.
    pub fn run_svf_pivotal(&mut self, input: A::Num) -> (out: A::Num)
        ensures
            Self::pivotal_pass(*old(self), input, *final(self)),
            final(self).puts_out(input, out),
    {
        let one = Quantity::<A>::num(1);
        let x = Quantity::<A>::val(input);
        let g = Quantity::<A>::val(self.params.g);
        let k = Quantity::<A>::val(self.params.res);
        let s0 = Quantity::<A>::val(self.s[0]);
        let s1 = Quantity::<A>::val(self.s[1]);
        let est_type = EstimateSource::State;

        // The slope of the damping comes first: the estimate for the feedback line rests on it.
        let est_source_a2 = self.get_estimate(0, est_type, input);
        let slope_a2 = clipper_pivot::<A>(est_source_a2);
        let e = Quantity::<A>::val(est_source_a2);
        let a2 = Quantity::<A>::val(slope_a2);
        let lowpass = Quantity::<A>::val(self.get_estimate(1, est_type, input));
        let est_source_a0 = x.minus(e.times(a2).plus(k.minus(one).times(e))).minus(lowpass).get();
        let est_source_a1 = self.get_estimate(0, est_type, input);
        let slope_a0 = tanh_pivot::<A>(est_source_a0);
        let slope_a1 = tanh_pivot::<A>(est_source_a1);
        let a0 = Quantity::<A>::val(slope_a0);
        let a1 = Quantity::<A>::val(slope_a1);

        let g1 = one.over(g.times(a0));
        let g2 = one.over(
            a0.times(a2).times(g).times(g1).times(k).minus(a0.times(a2).times(g).times(g1)).plus(
                a2.times(g1),
            ).plus(one),
        );
        let g3 = one.over(
            one.plus(g.squared().times(a0).times(a1).times(g1).times(g2).times(a2)),
        );
        let u = g.times(a0).times(x).minus(g.times(a0).times(s1)).plus(s0).times(g1).times(g2).times(
            g3,
        );
        self.vout[0] = u.asinh().get();
        let v0 = Quantity::<A>::val(self.vout[0]);
        self.vout[1] = g.times(a1).times(v0).plus(s1).get();
        assert(Self::pivotal_solution(
            *old(self),
            input,
            est_source_a0,
            slope_a0,
            slope_a1,
            slope_a2,
            *self,
        ));
        self.output(input)
    }
}

} // verus!
