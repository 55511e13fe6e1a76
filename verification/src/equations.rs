//! The equations of the filter, as formulas.
//!
//! The filter is a loop of two integrators. Its band-pass stage `v0` integrates what the
//! feedback line hands it, its low-pass stage `v1` integrates `v0`:
//!
//! ```text
//! linear:     v0 = s0 + g * (x - k * v0 - v1)                              v1 = s1 + g * v0
//! saturated:  v0 = s0 + g * tanh(x - ((k - 1) * v0 + sinh(v0)) - v1)       v1 = s1 + g * tanh(v0)
//! ```
//!
//! Here `x` is the input, `g` the gain of an integrator, `k` the damping, and `s0` and `s1` the
//! state of the integrators. Both sides of an equation hold the present outputs: there is no
//! delay in the loop, so each equation has to be solved for them.

use crate::term;
use crate::term::Term;
use vstd::prelude::*;

verus! {

/// The outputs that can be taken from the filter.
#[derive(Clone, Copy, Debug, PartialEq, Eq, Structural)]
pub enum Mode {
    Lowpass,
    Highpass,
    Bandpass,
    Notch,
    Peak,
    /// Band-pass whose peak has the gain one.
    NormalizedBandpass,
}

impl Mode {
    /// The mode that the number `index` stands for.
    pub open spec fn of_index(index: usize) -> Mode {
        if index == 0 {
            Mode::Lowpass
        } else if index == 1 {
            Mode::Highpass
        } else if index == 2 {
            Mode::Bandpass
        } else if index == 3 {
            Mode::Notch
        } else if index == 4 {
            Mode::Peak
        } else {
            Mode::NormalizedBandpass
        }
    }

    /// The mode that the number `index` stands for.
    pub fn from_index(index: usize) -> (mode: Mode)
        ensures
            mode == Mode::of_index(index),
    {
        match index {
            0 => Mode::Lowpass,
            1 => Mode::Highpass,
            2 => Mode::Bandpass,
            3 => Mode::Notch,
            4 => Mode::Peak,
            _ => Mode::NormalizedBandpass,
        }
    }
}

/// The output of the filter in a given mode, from its input and its two stages.
pub open spec fn output<N>(mode: Mode, x: Term<N>, k: Term<N>, v0: Term<N>, v1: Term<N>) -> Term<
    N,
> {
    match mode {
        Mode::Lowpass => v1,
        Mode::Highpass => x.minus(k.times(v0)).minus(v1),
        Mode::Bandpass => v0,
        Mode::Notch => x.minus(k.times(v0)),
        Mode::Peak => x.minus(term::num(2).times(v1)).minus(k.times(v0)),
        Mode::NormalizedBandpass => k.times(v0),
    }
}

/// The gain of an integrator at a cutoff frequency, warped to the sample rate.
pub open spec fn integrator_gain<N>(cutoff: Term<N>, sample_rate: Term<N>) -> Term<N> {
    Term::Pi.times(cutoff).over(sample_rate).tan()
}

/// The input as it enters the filter, raised by the drive.
pub open spec fn driven<N>(x: Term<N>, drive: Term<N>) -> Term<N> {
    x.times(drive.plus(term::num(1)))
}

/// The state of an integrator after a sample at which its output was `v`: the state before and
/// the state after lie evenly around the output.
pub open spec fn next_state<N>(v: Term<N>, s: Term<N>) -> Term<N> {
    term::num(2).times(v).minus(s)
}

/// An integrator with the state `s` that is handed `u`.
pub open spec fn integrated<N>(g: Term<N>, u: Term<N>, s: Term<N>) -> Term<N> {
    g.times(u).plus(s)
}

/// The band-pass stage of the linear filter.
pub open spec fn linear_v0<N>(
    g: Term<N>,
    k: Term<N>,
    s0: Term<N>,
    s1: Term<N>,
    x: Term<N>,
) -> Term<N> {
    let g1 = term::num(1).over(term::num(1).plus(g.times(g.plus(k))));
    let g2 = g.times(g1);
    g1.times(s0).plus(g2.times(x.minus(s1)))
}

/// The low-pass stage of the linear filter.
pub open spec fn linear_v1<N>(g: Term<N>, v0: Term<N>, s1: Term<N>) -> Term<N> {
    s1.plus(g.times(v0))
}

/// The slope of the line through the origin that meets the hyperbolic tangent at `e`.
pub open spec fn saturator_slope<N>(e: Term<N>) -> Term<N> {
    e.tanh().over(e)
}

/// The slope of the line through the origin that meets, at `e`, the inverse of the diode
/// anti-saturator in the damping path.
pub open spec fn clipper_slope<N>(e: Term<N>) -> Term<N> {
    term::num(4).times(e.over(term::num(4)).asinh()).over(e)
}

/// What the first integrator is expected to be handed, where `e` is the expected band-pass stage
/// and `a2` the slope of the damping there.
pub open spec fn pivot_estimate<N>(
    x: Term<N>,
    k: Term<N>,
    e: Term<N>,
    a2: Term<N>,
    s1: Term<N>,
) -> Term<N> {
    x.minus(e.times(a2).plus(k.minus(term::num(1)).times(e))).minus(s1)
}

/// The damping signal of the filter whose saturators are lines of the slopes `a0`, `a1` and `a2`.
pub open spec fn pivotal_drive<N>(
    g: Term<N>,
    k: Term<N>,
    a0: Term<N>,
    a1: Term<N>,
    a2: Term<N>,
    s0: Term<N>,
    s1: Term<N>,
    x: Term<N>,
) -> Term<N> {
    let g1 = term::num(1).over(g.times(a0));
    let g2 = term::num(1).over(
        a0.times(a2).times(g).times(g1).times(k).minus(a0.times(a2).times(g).times(g1)).plus(
            a2.times(g1),
        ).plus(term::num(1)),
    );
    let g3 = term::num(1).over(
        term::num(1).plus(g.squared().times(a0).times(a1).times(g1).times(g2).times(a2)),
    );
    g.times(a0).times(x).minus(g.times(a0).times(s1)).plus(s0).times(g1).times(g2).times(g3)
}

/// The low-pass stage of the filter whose second saturator is a line of the slope `a1`.
pub open spec fn pivotal_v1<N>(g: Term<N>, a1: Term<N>, v0: Term<N>, s1: Term<N>) -> Term<N> {
    g.times(a1).times(v0).plus(s1)
}

/// How strongly the damping of the saturated filter is anti-saturated.
#[derive(Clone, Copy, Debug, PartialEq, Eq, Structural)]
pub enum Damping {
    Full,
    Less,
}

/// The anti-saturated damping at the band-pass stage `v0`.
pub open spec fn antisaturated<N>(damping: Damping, v0: Term<N>) -> Term<N> {
    match damping {
        Damping::Full => v0.sinh(),
        Damping::Less => term::num(2).times(v0.over(term::num(2)).sinh()),
    }
}

/// The anti-saturated damping at the first estimate of the band-pass stage.
pub open spec fn first_antisaturated<N>(damping: Damping, v0: Term<N>) -> Term<N> {
    match damping {
        Damping::Full => v0.sinh(),
        Damping::Less => Term::Decimal(15, 1).times(v0.over(Term::Decimal(15, 1)).sinh()),
    }
}

/// What the saturated feedback line hands to the first integrator, where `damping` is the
/// anti-saturated damping at `v0`.
pub open spec fn feedback<N>(
    x: Term<N>,
    k: Term<N>,
    v0: Term<N>,
    damping: Term<N>,
    v1: Term<N>,
) -> Term<N> {
    x.minus(k.minus(term::num(1)).times(v0).plus(damping)).minus(v1).tanh()
}

/// The inverse of the slope of the saturated feedback line, where it hands on `fb_line`.
pub open spec fn inverse_slope<N>(fb_line: Term<N>) -> Term<N> {
    term::num(1).over(term::num(1).minus(fb_line.times(fb_line)))
}

/// The slope of the hyperbolic sine, where `sinh` and `tanh` are the hyperbolic sine and tangent:
/// their quotient is the hyperbolic cosine.
pub open spec fn sinh_slope<N>(sinh: Term<N>, tanh: Term<N>) -> Term<N> {
    sinh.over(tanh)
}

/// The slope, at `v0`, of the less anti-saturated damping as it stands at the first estimate. It
/// serves at every estimate, though the damping at the later ones is of another width and its
/// slope is the hyperbolic cosine of `v0 / 2`.
pub open spec fn less_antisaturated_slope<N>(v0: Term<N>) -> Term<N> {
    v0.over(Term::Decimal(15, 1)).cosh()
}

/// How the first residue changes with `v0`.
pub open spec fn jacobian_00<N>(
    g: Term<N>,
    k: Term<N>,
    inverse_slope: Term<N>,
    damping_slope: Term<N>,
) -> Term<N> {
    inverse_slope.negated().minus(
        g.times(k.minus(term::num(1)).plus(damping_slope)),
    ).over(inverse_slope)
}

/// How the first residue changes with `v1`.
pub open spec fn jacobian_01<N>(g: Term<N>, inverse_slope: Term<N>) -> Term<N> {
    g.over(inverse_slope).negated()
}

/// How the second residue changes with `v0`, where `tanh` is the hyperbolic tangent at `v0`.
pub open spec fn jacobian_10<N>(damping: Damping, g: Term<N>, tanh: Term<N>) -> Term<N> {
    match damping {
        Damping::Full => g.times(term::num(1).minus(tanh.times(tanh))),
        Damping::Less => g.times(term::num(1).minus(tanh.squared())),
    }
}

/// The determinant of the Jacobian, negated. (The second residue changes with `v1` at the
/// rate -1.)
pub open spec fn divisor<N>(j00: Term<N>, j01: Term<N>, j10: Term<N>) -> Term<N> {
    j01.times(j10).plus(j00)
}

/// The next estimate of `v0` by Newton's method.
pub open spec fn newton_v0<N>(
    j00: Term<N>,
    j01: Term<N>,
    j10: Term<N>,
    v0: Term<N>,
    r0: Term<N>,
    r1: Term<N>,
) -> Term<N> {
    j01.times(j10).times(v0).plus(j00.times(v0)).minus(j01.times(r1)).minus(r0).over(
        divisor(j00, j01, j10),
    )
}

/// The next estimate of `v1` by Newton's method.
pub open spec fn newton_v1<N>(
    j00: Term<N>,
    j01: Term<N>,
    j10: Term<N>,
    v1: Term<N>,
    r0: Term<N>,
    r1: Term<N>,
) -> Term<N> {
    j01.times(j10).times(v1).plus(j00.times(r1)).plus(j00.times(v1)).minus(j10.times(r0)).over(
        divisor(j00, j01, j10),
    )
}

} // verus!
