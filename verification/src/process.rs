//! The filter at work on a stream of samples.

use crate::arithmetic::Arithmetic;
use crate::equations;
use crate::filter::SVF;
use crate::quantity::Quantity;
use crate::term;
use vstd::prelude::*;

verus! {

impl<A: Arithmetic> SVF<A> {
    /// Whether `x` is `input` as it enters the filter, raised by the drive.
    pub open spec fn drives(self, input: A::Num, x: A::Num) -> bool {
        term::yields::<A>(equations::driven(term::val(input), term::val(self.params.drive)), x)
    }

    /// The input as it enters the filter.
    fn drive(&self, input: A::Num) -> (x: A::Num)
        ensures
            self.drives(input, x),
    {
        let one = Quantity::<A>::num(1);
        let drive = Quantity::<A>::val(self.params.drive);
        Quantity::<A>::val(input).times(drive.plus(one)).get()
    }

    /// Whether one sample of the fixed-pivot filter leads from `pre` to `post` and puts out `out`.
    pub open spec fn pivotal_tick(pre: Self, input: A::Num, post: Self, out: A::Num) -> bool {
        exists|x: A::Num, mid: Self|
            {
                &&& pre.drives(input, x)
                &&& #[trigger] Self::pivotal_pass(pre, x, mid)
                &&& mid.puts_out(x, out)
                &&& Self::advances(mid, post)
            }
    }

    /// Whether one sample of the filter by Newton's method leads from `pre` to `post` and puts
    /// out `out`.
    pub open spec fn newton_tick(pre: Self, input: A::Num, post: Self, out: A::Num) -> bool {
        exists|x: A::Num, mid: Self|
            {
                &&& pre.drives(input, x)
                &&& #[trigger] Self::newton_pass(pre, x, mid)
                &&& mid.puts_out(x, out)
                &&& Self::advances(mid, post)
            }
    }

    /// Filters one sample by the fixed-pivot method.
    pub fn tick_pivotal(&mut self, input: A::Num) -> (out: A::Num)
        ensures
            Self::pivotal_tick(*old(self), input, *final(self), out),
    {
        let x = self.drive(input);
        let out = self.run_svf_pivotal(x);
        self.update_state();
        out
    }

    /// Filters one sample by Newton's method.
    pub fn tick_newton(&mut self, input: A::Num) -> (out: A::Num)
        ensures
            Self::newton_tick(*old(self), input, *final(self), out),
    {
        let x = self.drive(input);
        let out = self.run_svf_newton(x);
        self.update_state();
        out
    }

    /// Whether the filter goes through `states` as it filters `input` to `output`, sample by
    /// sample.
    pub open spec fn stream_states(
        states: Seq<Self>,
        input: Seq<A::Num>,
        output: Seq<A::Num>,
    ) -> bool {
        &&& input.len() == output.len()
        &&& states.len() == input.len() + 1
        &&& forall|i: int|
            0 <= i < input.len() ==> Self::newton_tick(
                #[trigger] states[i],
                input[i],
                states[i + 1],
                output[i],
            )
    }

    /// Whether filtering `input` leads from `pre` to `post` and puts out `output`.
    pub open spec fn streams(
        pre: Self,
        input: Seq<A::Num>,
        post: Self,
        output: Seq<A::Num>,
    ) -> bool {
        exists|states: Seq<Self>|
            {
                &&& #[trigger] Self::stream_states(states, input, output)
                &&& states.first() == pre
                &&& states.last() == post
            }
    }

    /// Filters a buffer of samples. Where the buffers differ in length, what is left of the longer
    /// one is not touched.
    pub fn process(&mut self, input: &[A::Num], output: &mut [A::Num])
        ensures
            final(output)@.len() == old(output)@.len(),
            ({
                let n = if input@.len() <= old(output)@.len() {
                    input@.len() as int
                } else {
                    old(output)@.len() as int
                };
                &&& Self::streams(
                    *old(self),
                    input@.take(n),
                    *final(self),
                    final(output)@.take(n),
                )
                &&& final(output)@.skip(n) == old(output)@.skip(n)
            }),
    {
        let n: usize = if input.len() <= output.len() {
            input.len()
        } else {
            output.len()
        };
        let ghost mut states: Seq<Self> = seq![*self];
        let mut i: usize = 0;
        while i < n
            invariant
                i <= n,
                n <= input@.len(),
                n <= output@.len(),
                output@.len() == old(output)@.len(),
                states.len() == i + 1,
                states.first() == *old(self),
                states.last() == *self,
                forall|j: int|
                    0 <= j < i ==> Self::newton_tick(
                        #[trigger] states[j],
                        input@[j],
                        states[j + 1],
                        output@[j],
                    ),
                forall|j: int| n <= j < output@.len() ==> #[trigger] output@[j] == old(output)@[j],
            decreases n - i,
        {
            let sample = self.tick_newton(input[i]);
            output[i] = sample;
            proof {
                states = states.push(*self);
            }
            i = i + 1;
        }
        assert(Self::stream_states(states, input@.take(n as int), output@.take(n as int)));
        assert(output@.skip(n as int) =~= old(output)@.skip(n as int));
    }
}

} // verus!
