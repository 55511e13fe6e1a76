//! The filter and its linear form.

use crate::arithmetic::Arithmetic;
use crate::equations;
use crate::equations::Mode;
use crate::parameters::FilterParameters;
use crate::quantity::Quantity;
use crate::term;
use vstd::prelude::*;

verus! {

/// Where an estimate of a stage's output is taken from.
#[derive(Clone, Copy, Debug, PartialEq, Eq, Structural)]
pub enum EstimateSource {
    /// The present state.
    State,
    /// The output at the sample before.
    PreviousVout,
    /// The next state of the linear filter.
    LinearStateEstimate,
    /// The output of the linear filter.
    LinearVoutEstimate,
}

/// A filter of two poles, hence of two states and two outputs.
pub struct SVF<A: Arithmetic> {
    /// The settings.
    pub params: FilterParameters<A>,
    /// The outputs of the two stages.
    pub vout: [A::Num; 2],
    /// The states of the two integrators.
    pub s: [A::Num; 2],
}

impl<A: Arithmetic> SVF<A> {
    /// Whether `post` differs from `pre` at most in the outputs of its stages.
    pub open spec fn same_but_vout(pre: Self, post: Self) -> bool {
        post.params == pre.params && post.s == pre.s
    }

    /// Whether the linear filter, with the settings and the states of `pre`, answers `input` with
    /// the outputs of `post`.
    pub open spec fn linear_pass(pre: Self, input: A::Num, post: Self) -> bool {
        &&& Self::same_but_vout(pre, post)
        &&& term::yields::<A>(
            equations::linear_v0(
                term::val(pre.params.g),
                term::val(pre.params.res),
                term::val(pre.s[0]),
                term::val(pre.s[1]),
                term::val(input),
            ),
            post.vout[0],
        )
        &&& term::yields::<A>(
            equations::linear_v1(
                term::val(pre.params.g),
                term::val(post.vout[0]),
                term::val(pre.s[1]),
            ),
            post.vout[1],
        )
    }

    /// Whether `out` is what the filter puts out, in its mode, where `input` led to the present
    /// outputs of its stages.
    pub open spec fn puts_out(self, input: A::Num, out: A::Num) -> bool {
        term::yields::<A>(
            equations::output(
                Mode::of_index(self.params.mode),
                term::val(input),
                term::val(self.params.res),
                term::val(self.vout[0]),
                term::val(self.vout[1]),
            ),
            out,
        )
    }

    /// Whether `post` is `pre` with its states advanced past the present outputs.
    pub open spec fn advances(pre: Self, post: Self) -> bool {
        &&& post.params == pre.params
        &&& post.vout == pre.vout
        &&& forall|n: int|
            0 <= n < 2 ==> term::yields::<A>(
                equations::next_state(term::val(pre.vout[n]), term::val(pre.s[n])),
                #[trigger] post.s[n],
            )
    }

    /// The output in the mode that the parameters select.
    pub fn output(&self, input: A::Num) -> (out: A::Num)
        ensures
            self.puts_out(input, out),
    {
        let x = Quantity::<A>::val(input);
        let k = Quantity::<A>::val(self.params.res);
        let v0 = Quantity::<A>::val(self.vout[0]);
        let v1 = Quantity::<A>::val(self.vout[1]);
        let out = match Mode::from_index(self.params.mode) {
            Mode::Lowpass => v1,
            Mode::Highpass => x.minus(k.times(v0)).minus(v1),
            Mode::Bandpass => v0,
            Mode::Notch => x.minus(k.times(v0)),
            Mode::Peak => x.minus(Quantity::num(2).times(v1)).minus(k.times(v0)),
            Mode::NormalizedBandpass => k.times(v0),
        };
        out.get()
    }

    /// Advances the states past a sample, by trapezoidal integration.
    pub fn update_state(&mut self)
        ensures
            Self::advances(*old(self), *final(self)),
    {
        let two = Quantity::<A>::num(2);
        let v0 = Quantity::<A>::val(self.vout[0]);
        let v1 = Quantity::<A>::val(self.vout[1]);
        let s0 = Quantity::<A>::val(self.s[0]);
        let s1 = Quantity::<A>::val(self.s[1]);
        self.s[0] = two.times(v0).minus(s0).get();
        self.s[1] = two.times(v1).minus(s1).get();
    }

    /// Runs the linear filter on one input.
    pub fn run_svf_linear(&mut self, input: A::Num) -> (out: A::Num)
        ensures
            Self::linear_pass(*old(self), input, *final(self)),
            final(self).puts_out(input, out),
    {
        let one = Quantity::<A>::num(1);
        let x = Quantity::<A>::val(input);
        let g = Quantity::<A>::val(self.params.g);
        let k = Quantity::<A>::val(self.params.res);
        let s0 = Quantity::<A>::val(self.s[0]);
        let s1 = Quantity::<A>::val(self.s[1]);
        let g1 = one.over(one.plus(g.times(g.plus(k))));
        let g2 = g.times(g1);
        self.vout[0] = g1.times(s0).plus(g2.times(x.minus(s1))).get();
        let v0 = Quantity::<A>::val(self.vout[0]);
        self.vout[1] = s1.plus(g.times(v0)).get();
        self.output(input)
    }

    /// An estimate of the output of stage `n`. One that rests on the linear filter runs it.
    pub fn get_estimate(&mut self, n: usize, estimate: EstimateSource, input: A::Num) -> (r: A::Num)
        requires
            n < 2,
        ensures
            match estimate {
                EstimateSource::State => *final(self) == *old(self) && r == old(self).s[n as int],
                EstimateSource::PreviousVout => *final(self) == *old(self) && r
                    == old(self).vout[n as int],
                EstimateSource::LinearStateEstimate => {
                    &&& Self::linear_pass(*old(self), input, *final(self))
                    &&& term::yields::<A>(
                        equations::next_state(
                            term::val(final(self).vout[n as int]),
                            term::val(old(self).s[n as int]),
                        ),
                        r,
                    )
                },
                EstimateSource::LinearVoutEstimate => {
                    &&& Self::linear_pass(*old(self), input, *final(self))
                    &&& r == final(self).vout[n as int]
                },
            },
    {
        if estimate == EstimateSource::LinearStateEstimate || estimate
            == EstimateSource::LinearVoutEstimate {
            self.run_svf_linear(input);
        }
        match estimate {
            EstimateSource::State => self.s[n],
            EstimateSource::PreviousVout => self.vout[n],
            EstimateSource::LinearStateEstimate => {
                let v = Quantity::<A>::val(self.vout[n]);
                let s = Quantity::<A>::val(self.s[n]);
                Quantity::num(2).times(v).minus(s).get()
            },
            EstimateSource::LinearVoutEstimate => self.vout[n],
        }
    }

    /// The outputs of the integrators, where the first is handed `fb_line` and the second
    /// `tanh_v_est0`. A step of Newton's method compares them with its estimates.
    pub fn run_svf(&mut self, g: A::Num, tanh_v_est0: A::Num, fb_line: A::Num) -> (out: [A::Num;
        2])
        ensures
            *final(self) == *old(self),
            term::yields::<A>(
                equations::integrated(term::val(g), term::val(fb_line), term::val(old(self).s[0])),
                out[0],
            ),
            term::yields::<A>(
                equations::integrated(term::val(g), term::val(tanh_v_est0), term::val(old(self).s[1])),
                out[1],
            ),
    {
        let g = Quantity::<A>::val(g);
        let s0 = Quantity::<A>::val(self.s[0]);
        let s1 = Quantity::<A>::val(self.s[1]);
        let fb_line = Quantity::<A>::val(fb_line);
        let tanh_v_est0 = Quantity::<A>::val(tanh_v_est0);
        [g.times(fb_line).plus(s0).get(), g.times(tanh_v_est0).plus(s1).get()]
    }
}

} // verus!
