//! The parameters of the filter, as the user's panel sets them.

use crate::arithmetic::Arithmetic;
use crate::equations;
use crate::quantity::Quantity;
use crate::term;
use vstd::prelude::*;

verus! {

/// The settings of the filter.
pub struct FilterParameters<A: Arithmetic> {
    /// The cutoff frequency.
    pub cutoff: A::Num,
    /// The damping: the smaller it is, the more the filter resonates.
    pub res: A::Num,
    /// How far the input is raised before it enters the filter.
    pub drive: A::Num,
    /// The number of the output mode.
    pub mode: usize,
    /// The gain of an integrator.
    pub g: A::Num,
    /// The sample rate.
    pub sample_rate: A::Num,
}

/// The parameters that are numbers on the panel.
#[derive(Clone, Copy, Debug, PartialEq, Eq, Structural)]
pub enum Knob {
    Cutoff,
    Res,
    Drive,
}

/// The panel on which the parameters are set: where they stand at first, how a position
/// between 0 and 1 becomes a value, how a value becomes a position, and how it is shown.
///
/// Nothing is asked of these functions: the contracts say which of them was applied to what.
pub trait Panel: Arithmetic {
    /// The parameters of a new filter.
    fn default_parameters() -> FilterParameters<Self>;

    /// The value of a knob at a position.
    fn knob_value(knob: Knob, normalized: Self::Num) -> Self::Num;

    /// The position of a knob at a value.
    fn knob_normalized(knob: Knob, value: Self::Num) -> Self::Num;

    /// A knob's value as shown to the user.
    fn knob_display(knob: Knob, value: Self::Num) -> String;

    /// The number of the mode at a position of the mode switch.
    fn mode_value(normalized: Self::Num) -> usize;

    /// The position of the mode switch for the number of a mode.
    fn mode_normalized(mode: usize) -> Self::Num;

    /// A mode as shown to the user.
    fn mode_display(mode: usize) -> String;
}

impl<A: Arithmetic> FilterParameters<A> {
    /// The gain of the integrators fits the cutoff frequency and the sample rate.
    pub open spec fn in_tune(self) -> bool {
        term::yields::<A>(
            equations::integrator_gain(term::val(self.cutoff), term::val(self.sample_rate)),
            self.g,
        )
    }

    /// Brings the gain of the integrators in line with the cutoff frequency and the sample rate.
    pub fn update_g(&mut self)
        ensures
            final(self).in_tune(),
            *final(self) == (FilterParameters { g: final(self).g, ..*old(self) }),
    {
        let cutoff = Quantity::<A>::val(self.cutoff);
        let sample_rate = Quantity::<A>::val(self.sample_rate);
        self.g = Quantity::<A>::pi().times(cutoff).over(sample_rate).tan().get();
    }

    /// Whether `post` is `pre` at the sample rate `rate`, in tune with it.
    pub open spec fn rated(pre: Self, rate: A::Num, post: Self) -> bool {
        &&& post.in_tune()
        &&& post == (FilterParameters { sample_rate: rate, g: post.g, ..pre })
    }

    /// Takes over a new sample rate.
    pub fn set_sample_rate(&mut self, rate: A::Num)
        ensures
            Self::rated(*old(self), rate, *final(self)),
            final(self).in_tune(),
            final(self).sample_rate == rate,
            final(self).cutoff == old(self).cutoff,
            final(self).res == old(self).res,
            final(self).drive == old(self).drive,
            final(self).mode == old(self).mode,
    {
        self.sample_rate = rate;
        self.update_g();
    }
}

impl<P: Panel> FilterParameters<P> {
    /// Whether `position` is the position of the parameter with the number `index`.
    pub open spec fn stands_at(self, index: i32, position: P::Num) -> bool {
        &&& index == 0 ==> call_ensures(P::knob_normalized, (Knob::Cutoff, self.cutoff), position)
        &&& index == 1 ==> call_ensures(P::knob_normalized, (Knob::Res, self.res), position)
        &&& index == 2 ==> call_ensures(P::knob_normalized, (Knob::Drive, self.drive), position)
        &&& index == 3 ==> call_ensures(P::mode_normalized, (self.mode,), position)
        &&& !(0 <= index <= 3) ==> term::yields::<P>(term::num(0), position)
    }

    /// The position of the parameter with the number `index`; zero where there is none.
    pub fn get_parameter(&self, index: i32) -> (position: P::Num)
        ensures
            self.stands_at(index, position),
            index == 0 ==> call_ensures(P::knob_normalized, (Knob::Cutoff, self.cutoff), position),
            index == 1 ==> call_ensures(P::knob_normalized, (Knob::Res, self.res), position),
            index == 2 ==> call_ensures(P::knob_normalized, (Knob::Drive, self.drive), position),
            index == 3 ==> call_ensures(P::mode_normalized, (self.mode,), position),
            !(0 <= index <= 3) ==> call_ensures(P::decimal, (0i32, 0u32), position),
    {
        match index {
            0 => P::knob_normalized(Knob::Cutoff, self.cutoff),
            1 => P::knob_normalized(Knob::Res, self.res),
            2 => P::knob_normalized(Knob::Drive, self.drive),
            3 => P::mode_normalized(self.mode),
            _ => Quantity::<P>::num(0).get(),
        }
    }

    /// Whether `post` is `pre` with the parameter with the number `index` moved to the position
    /// `value`, and in tune with a moved cutoff.
    pub open spec fn moved(pre: Self, index: i32, value: P::Num, post: Self) -> bool {
        &&& index == 0 ==> {
            &&& call_ensures(P::knob_value, (Knob::Cutoff, value), post.cutoff)
            &&& post.in_tune()
            &&& post == (FilterParameters { cutoff: post.cutoff, g: post.g, ..pre })
        }
        &&& index == 1 ==> {
            &&& call_ensures(P::knob_value, (Knob::Res, value), post.res)
            &&& post == (FilterParameters { res: post.res, ..pre })
        }
        &&& index == 2 ==> {
            &&& call_ensures(P::knob_value, (Knob::Drive, value), post.drive)
            &&& post == (FilterParameters { drive: post.drive, ..pre })
        }
        &&& index == 3 ==> {
            &&& call_ensures(P::mode_value, (value,), post.mode)
            &&& post == (FilterParameters { mode: post.mode, ..pre })
        }
        &&& !(0 <= index <= 3) ==> post == pre
    }

    /// Moves the parameter with the number `index` to a position; a number without a parameter
    /// changes nothing.
    pub fn set_parameter(&mut self, index: i32, value: P::Num)
        ensures
            Self::moved(*old(self), index, value, *final(self)),
            old(self).in_tune() ==> final(self).in_tune(),
            index == 0 ==> call_ensures(P::knob_value, (Knob::Cutoff, value), final(self).cutoff),
            index == 1 ==> call_ensures(P::knob_value, (Knob::Res, value), final(self).res),
            index == 2 ==> call_ensures(P::knob_value, (Knob::Drive, value), final(self).drive),
            index == 3 ==> call_ensures(P::mode_value, (value,), final(self).mode),
            index == 0 ==> final(self).in_tune(),
            index != 0 ==> final(self).cutoff == old(self).cutoff && final(self).g == old(self).g,
            index != 1 ==> final(self).res == old(self).res,
            index != 2 ==> final(self).drive == old(self).drive,
            index != 3 ==> final(self).mode == old(self).mode,
            final(self).sample_rate == old(self).sample_rate,
    {
        match index {
            0 => {
                self.cutoff = P::knob_value(Knob::Cutoff, value);
                self.update_g();
            },
            1 => {
                self.res = P::knob_value(Knob::Res, value);
            },
            2 => {
                self.drive = P::knob_value(Knob::Drive, value);
            },
            3 => {
                self.mode = P::mode_value(value);
            },
            _ => {},
        }
    }

    /// The name of the parameter with the number `index`.
    pub fn get_parameter_name(&self, index: i32) -> (name: String)
        ensures
            name@ == match index {
                0 => "cutoff"@,
                1 => "resonance"@,
                2 => "drive"@,
                3 => "filter mode"@,
                4 => "dry/wet"@,
                _ => ""@,
            },
    {
        match index {
            0 => "cutoff".to_owned(),
            1 => "resonance".to_owned(),
            2 => "drive".to_owned(),
            3 => "filter mode".to_owned(),
            4 => "dry/wet".to_owned(),
            _ => "".to_owned(),
        }
    }

    /// The unit of the parameter with the number `index`. None of them shows one.
    pub fn get_parameter_label(&self, index: i32) -> (label: String)
        ensures
            label@ == ""@,
    {
        "".to_owned()
    }

    /// The value of the parameter with the number `index` as shown to the user; empty where there
    /// is none.
    pub fn get_parameter_text(&self, index: i32) -> (text: String)
        ensures
            index == 0 ==> call_ensures(P::knob_display, (Knob::Cutoff, self.cutoff), text),
            index == 1 ==> call_ensures(P::knob_display, (Knob::Res, self.res), text),
            index == 2 ==> call_ensures(P::knob_display, (Knob::Drive, self.drive), text),
            index == 3 ==> call_ensures(P::mode_display, (self.mode,), text),
            !(0 <= index <= 3) ==> text@ == ""@,
    {
        match index {
            0 => P::knob_display(Knob::Cutoff, self.cutoff),
            1 => P::knob_display(Knob::Res, self.res),
            2 => P::knob_display(Knob::Drive, self.drive),
            3 => P::mode_display(self.mode),
            _ => "".to_owned(),
        }
    }
}

} // verus!
