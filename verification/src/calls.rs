//! The operations as they are called: each does what the laws of the other modules speak of.

use crate::arithmetic::Arithmetic;
use crate::equations;
use crate::equations::{Damping, Mode};
use crate::filter::{EstimateSource, SVF};
use crate::newton;
use crate::newton::{Iterate, Jacobian};
use crate::parameters::{FilterParameters, Knob, Panel};
use crate::pivotal;
use crate::plugin::{PluginCategory, PluginInfo};
use crate::term;
use vstd::prelude::*;

verus! {

/// Both ways to filter a sample are the ticks that the laws speak of.
pub proof fn law_samples_are_ticks<A: Arithmetic>(input: A::Num, out: A::Num)
    ensures
        forall|f: &mut SVF<A>| #[trigger]
            call_ensures(SVF::<A>::tick_pivotal, (f, input), out) ==> SVF::<A>::pivotal_tick(
                *f,
                input,
                *final(f),
                out,
            ),
        forall|f: &mut SVF<A>| #[trigger]
            call_ensures(SVF::<A>::tick_newton, (f, input), out) ==> SVF::<A>::newton_tick(
                *f,
                input,
                *final(f),
                out,
            ),
{
}

/// Each of the four ways to run the filter answers the input, and puts out what the filter's mode
/// makes of the answer.
pub proof fn law_runs_are_passes<A: Arithmetic>(input: A::Num, out: A::Num)
    ensures
        forall|f: &mut SVF<A>| #[trigger]
            call_ensures(SVF::<A>::run_svf_linear, (f, input), out) ==> SVF::<A>::linear_pass(
                *f,
                input,
                *final(f),
            ) && final(f).puts_out(input, out),
        forall|f: &mut SVF<A>| #[trigger]
            call_ensures(SVF::<A>::run_svf_pivotal, (f, input), out) ==> SVF::<A>::pivotal_pass(
                *f,
                input,
                *final(f),
            ) && final(f).puts_out(input, out),
        forall|f: &mut SVF<A>| #[trigger]
            call_ensures(SVF::<A>::run_svf_newton, (f, input), out) ==> SVF::<A>::newton_pass(
                *f,
                input,
                *final(f),
            ) && final(f).puts_out(input, out),
        forall|f: &mut SVF<A>| #[trigger]
            call_ensures(SVF::<A>::run_svf_newton_less_antisat, (f, input), out)
                ==> SVF::<A>::less_antisat_pass(*f, input, *final(f)) && final(f).puts_out(input, out),
        forall|f: SVF<A>| #[trigger]
            call_ensures(SVF::<A>::output, (&f, input), out) ==> f.puts_out(input, out),
{
}

/// Updating the states advances them past the outputs.
pub proof fn law_an_update_advances<A: Arithmetic>()
    ensures
        forall|f: &mut SVF<A>| #[trigger]
            call_ensures(SVF::<A>::update_state, (f,), ()) ==> SVF::<A>::advances(*f, *final(f)),
{
}

/// An estimate is the state or the output of the sample before, and leaves the filter as it is; or
/// it is what the linear filter puts out, or where that leads the state, and runs that filter.
pub proof fn law_estimates_come_from_their_source<A: Arithmetic>(
    n: usize,
    input: A::Num,
    r: A::Num,
)
    requires
        n < 2,
    ensures
        forall|f: &mut SVF<A>| #[trigger]
            call_ensures(SVF::<A>::get_estimate, (f, n, EstimateSource::State, input), r)
                ==> *final(f) == *f && r == f.s[n as int],
        forall|f: &mut SVF<A>| #[trigger]
            call_ensures(SVF::<A>::get_estimate, (f, n, EstimateSource::PreviousVout, input), r)
                ==> *final(f) == *f && r == f.vout[n as int],
        forall|f: &mut SVF<A>| #[trigger]
            call_ensures(
                SVF::<A>::get_estimate,
                (f, n, EstimateSource::LinearVoutEstimate, input),
                r,
            ) ==> SVF::<A>::linear_pass(*f, input, *final(f)) && r == final(f).vout[n as int],
        forall|f: &mut SVF<A>| #[trigger]
            call_ensures(
                SVF::<A>::get_estimate,
                (f, n, EstimateSource::LinearStateEstimate, input),
                r,
            ) ==> SVF::<A>::linear_pass(*f, input, *final(f)) && term::yields::<A>(
                term::num(2).times(term::val(final(f).vout[n as int])).minus(
                    term::val(f.s[n as int]),
                ),
                r,
            ),
{
}

/// The integrators put out their states plus what they are handed, times the gain, and leave the
/// filter as it is.
pub proof fn law_integrators_add_to_their_states<A: Arithmetic>(
    g: A::Num,
    tanh: A::Num,
    fb_line: A::Num,
    out: [A::Num; 2],
)
    ensures
        forall|f: &mut SVF<A>| #[trigger]
            call_ensures(SVF::<A>::run_svf, (f, g, tanh, fb_line), out) ==> {
                &&& *final(f) == *f
                &&& term::yields::<A>(
                    term::val(g).times(term::val(fb_line)).plus(term::val(f.s[0])),
                    out[0],
                )
                &&& term::yields::<A>(
                    term::val(g).times(term::val(tanh)).plus(term::val(f.s[1])),
                    out[1],
                )
            },
{
}

/// The slopes, the Jacobian, the next estimates and the mode are those that the laws speak of.
pub proof fn law_parts_are_as_stated<A: Arithmetic>(
    e: A::Num,
    a: A::Num,
    damping: Damping,
    g: A::Num,
    k: A::Num,
    it: Iterate<A::Num>,
    j: Jacobian<A::Num>,
    v_est: [A::Num; 2],
    index: usize,
    mode: Mode,
)
    ensures
        call_ensures(pivotal::tanh_pivot::<A>, (e,), a) ==> pivotal::pivots::<A>(
            e,
            equations::saturator_slope(term::val(e)),
            a,
        ),
        call_ensures(pivotal::clipper_pivot::<A>, (e,), a) ==> pivotal::pivots::<A>(
            e,
            equations::clipper_slope(term::val(e)),
            a,
        ),
        call_ensures(newton::jacobian::<A>, (damping, g, k, &it), j) ==> newton::jacobian_of::<A>(
            damping,
            g,
            k,
            it,
            j,
        ),
        call_ensures(newton::newton_estimates::<A>, (&it, &j), v_est) ==> {
            &&& term::yields::<A>(
                equations::newton_v0(
                    term::val(j.j00),
                    term::val(j.j01),
                    term::val(j.j10),
                    term::val(it.v_est[0]),
                    term::val(it.residue[0]),
                    term::val(it.residue[1]),
                ),
                v_est[0],
            )
            &&& term::yields::<A>(
                equations::newton_v1(
                    term::val(j.j00),
                    term::val(j.j01),
                    term::val(j.j10),
                    term::val(it.v_est[1]),
                    term::val(it.residue[0]),
                    term::val(it.residue[1]),
                ),
                v_est[1],
            )
        },
        call_ensures(Mode::from_index, (index,), mode) ==> {
            &&& mode == Mode::of_index(index)
            &&& index == 0 <==> mode == Mode::Lowpass
            &&& index == 1 <==> mode == Mode::Highpass
            &&& index == 2 <==> mode == Mode::Bandpass
            &&& index == 3 <==> mode == Mode::Notch
            &&& index == 4 <==> mode == Mode::Peak
        },
{
}

/// A buffer is filtered as a stream, as far as both buffers reach, and what is left of the output
/// is not touched.
pub proof fn law_buffers_are_streams<A: Arithmetic>(input: &[A::Num], n: int)
    requires
        0 <= n <= input@.len(),
    ensures
        forall|f: &mut SVF<A>, output: &mut [A::Num]| #[trigger]
            call_ensures(SVF::<A>::process, (f, input, output), ()) && n <= output@.len() && (n
                == input@.len() || n == output@.len()) ==> {
                &&& SVF::<A>::streams(*f, input@.take(n), *final(f), final(output)@.take(n))
                &&& final(output)@.len() == output@.len()
                &&& final(output)@.skip(n) == output@.skip(n)
            },
{
}

/// Setting a parameter moves it, and getting one reports where it stands: the position that the
/// panel gives for its value, and zero for a number without a parameter.
pub proof fn law_parameters_are_set_and_reported<P: Panel>(
    index: i32,
    value: P::Num,
    params: FilterParameters<P>,
    position: P::Num,
)
    ensures
        forall|p: &mut FilterParameters<P>| #[trigger]
            call_ensures(FilterParameters::<P>::set_parameter, (p, index, value), ())
                ==> FilterParameters::<P>::moved(*p, index, value, *final(p)),
        call_ensures(FilterParameters::<P>::get_parameter, (&params, index), position) ==> {
            &&& params.stands_at(index, position)
            &&& index == 0 ==> call_ensures(
                P::knob_normalized,
                (Knob::Cutoff, params.cutoff),
                position,
            )
            &&& index == 1 ==> call_ensures(P::knob_normalized, (Knob::Res, params.res), position)
            &&& index == 2 ==> call_ensures(
                P::knob_normalized,
                (Knob::Drive, params.drive),
                position,
            )
            &&& index == 3 ==> call_ensures(P::mode_normalized, (params.mode,), position)
            &&& index < 0 || index > 3 ==> call_ensures(P::decimal, (0i32, 0u32), position)
        },
{
}

/// Updating the gain brings the settings in tune and changes nothing else. A new sample rate is
/// taken over by the settings, and by a filter without a change to its outputs and states.
pub proof fn law_gain_and_sample_rate_are_updated<A: Arithmetic>(rate: A::Num)
    ensures
        forall|p: &mut FilterParameters<A>| #[trigger]
            call_ensures(FilterParameters::<A>::update_g, (p,), ()) ==> {
                &&& final(p).in_tune()
                &&& *final(p) == (FilterParameters { g: final(p).g, ..*p })
            },
        forall|p: &mut FilterParameters<A>| #[trigger]
            call_ensures(FilterParameters::<A>::set_sample_rate, (p, rate), ())
                ==> FilterParameters::<A>::rated(*p, rate, *final(p)),
        forall|f: &mut SVF<A>| #[trigger]
            call_ensures(SVF::<A>::set_sample_rate, (f, rate), ()) ==> {
                &&& FilterParameters::<A>::rated(f.params, rate, final(f).params)
                &&& final(f).vout == f.vout
                &&& final(f).s == f.s
            },
{
}

/// A new filter is at rest and has the parameters that it is given, or the panel's own.
pub proof fn law_new_filters_are_at_rest<P: Panel>(
    params: FilterParameters<P>,
    filter: SVF<P>,
)
    ensures
        call_ensures(SVF::<P>::with_parameters, (params,), filter) ==> filter.at_rest()
            && filter.params == params,
        call_ensures(SVF::<P>::new, (), filter) ==> filter.at_rest() && call_ensures(
            P::default_parameters,
            (),
            filter.params,
        ),
{
}

/// The plugin has one input and one output, and as many parameters as can be moved: every number
/// below that and no other is one of them.
pub proof fn law_the_host_is_told_of_every_parameter<P: Panel>(
    filter: SVF<P>,
    info: PluginInfo,
    params: FilterParameters<P>,
    index: i32,
    label: String,
)
    requires
        call_ensures(SVF::<P>::get_info, (&filter,), info),
        call_ensures(FilterParameters::<P>::get_parameter_label, (&params, index), label),
    ensures
        info.inputs == 1,
        info.outputs == 1,
        info.category == PluginCategory::Effect,
        info.name@ == "SVF"@,
        info.unique_id == 80371372,
        0 <= index < info.parameters <==> 0 <= index <= 3,
        label@.len() == 0,
{
    reveal_strlit("");
}

} // verus!
