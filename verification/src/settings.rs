//! What holds of the settings as they are read and moved.

use crate::algebra;
use crate::arithmetic::Arithmetic;
use crate::equations;
use crate::laws;
use crate::parameters::{FilterParameters, Knob, Panel};
use crate::reading;
use crate::term;
use crate::term::{Function, Reading};
use vstd::prelude::*;

verus! {

/// Whether the positions that the panel `P` gives are functions of the values.
pub open spec fn has_one_position<P: Panel>() -> bool {
    &&& forall|knob: Knob, value: P::Num, v: P::Num, w: P::Num| #[trigger]
        call_ensures(P::knob_normalized, (knob, value), v) && #[trigger] call_ensures(
            P::knob_normalized,
            (knob, value),
            w,
        ) ==> v == w
    &&& forall|mode: usize, v: P::Num, w: P::Num| #[trigger]
        call_ensures(P::mode_normalized, (mode,), v) && #[trigger] call_ensures(
            P::mode_normalized,
            (mode,),
            w,
        ) ==> v == w
}

/// Whether the values that the panel `P` gives are functions of the positions.
pub open spec fn has_one_value<P: Panel>() -> bool {
    &&& forall|knob: Knob, position: P::Num, v: P::Num, w: P::Num| #[trigger]
        call_ensures(P::knob_value, (knob, position), v) && #[trigger] call_ensures(
            P::knob_value,
            (knob, position),
            w,
        ) ==> v == w
    &&& forall|position: P::Num, v: usize, w: usize| #[trigger]
        call_ensures(P::mode_value, (position,), v) && #[trigger] call_ensures(
            P::mode_value,
            (position,),
            w,
        ) ==> v == w
}

/// Moving a parameter leaves every other one where it stands, the sample rate as it is, and the
/// gain too unless the cutoff is moved.
pub proof fn law_parameters_move_alone<P: Panel>(
    pre: FilterParameters<P>,
    index: i32,
    value: P::Num,
    post: FilterParameters<P>,
    other: i32,
    before: P::Num,
    after: P::Num,
)
    requires
        FilterParameters::<P>::moved(pre, index, value, post),
        other != index,
        pre.stands_at(other, before),
        post.stands_at(other, after),
    ensures
        post.stands_at(other, before),
        has_one_position::<P>() && term::is_deterministic::<P>() ==> after == before,
        post.sample_rate == pre.sample_rate,
        index != 0 ==> post.g == pre.g,
{
    if term::is_deterministic::<P>() && !(0 <= other <= 3) {
        term::law_one_value::<P>(term::num(0), before, after);
    }
}

/// It does not matter whether the sample rate is set before a parameter is moved or after.
pub proof fn law_sample_rate_and_parameters_commute<P: Panel>(
    pre: FilterParameters<P>,
    index: i32,
    value: P::Num,
    rate: P::Num,
    moved: FilterParameters<P>,
    moved_rated: FilterParameters<P>,
    rated: FilterParameters<P>,
    rated_moved: FilterParameters<P>,
)
    requires
        term::is_deterministic::<P>(),
        has_one_value::<P>(),
        FilterParameters::<P>::moved(pre, index, value, moved),
        FilterParameters::<P>::rated(moved, rate, moved_rated),
        FilterParameters::<P>::rated(pre, rate, rated),
        FilterParameters::<P>::moved(rated, index, value, rated_moved),
    ensures
        moved_rated == rated_moved,
{
    assert(moved_rated.cutoff == rated_moved.cutoff);
    assert(rated_moved.in_tune());
    term::law_one_value::<P>(
        equations::integrator_gain(
            term::val(moved_rated.cutoff),
            term::val(moved_rated.sample_rate),
        ),
        moved_rated.g,
        rated_moved.g,
    );
}

/// Moving a parameter where it was just moved changes nothing.
pub proof fn law_moving_again_changes_nothing<P: Panel>(
    pre: FilterParameters<P>,
    index: i32,
    value: P::Num,
    post: FilterParameters<P>,
    again: FilterParameters<P>,
)
    requires
        term::is_deterministic::<P>(),
        has_one_value::<P>(),
        FilterParameters::<P>::moved(pre, index, value, post),
        FilterParameters::<P>::moved(post, index, value, again),
    ensures
        again == post,
{
    if index == 0 {
        term::law_one_value::<P>(
            equations::integrator_gain(term::val(post.cutoff), term::val(post.sample_rate)),
            post.g,
            again.g,
        );
    }
}

/// It does not matter in which order two parameters are moved.
pub proof fn law_parameters_commute<P: Panel>(
    pre: FilterParameters<P>,
    index1: i32,
    value1: P::Num,
    index2: i32,
    value2: P::Num,
    first: FilterParameters<P>,
    first_second: FilterParameters<P>,
    second: FilterParameters<P>,
    second_first: FilterParameters<P>,
)
    requires
        term::is_deterministic::<P>(),
        has_one_value::<P>(),
        index1 != index2,
        FilterParameters::<P>::moved(pre, index1, value1, first),
        FilterParameters::<P>::moved(first, index2, value2, first_second),
        FilterParameters::<P>::moved(pre, index2, value2, second),
        FilterParameters::<P>::moved(second, index1, value1, second_first),
    ensures
        first_second == second_first,
{
    assert(first_second.cutoff == second_first.cutoff);
    assert(first_second.res == second_first.res);
    assert(first_second.drive == second_first.drive);
    assert(first_second.mode == second_first.mode);
    assert(first_second.sample_rate == second_first.sample_rate);
    if index1 == 0 || index2 == 0 {
        term::law_one_value::<P>(
            equations::integrator_gain(
                term::val(first_second.cutoff),
                term::val(first_second.sample_rate),
            ),
            first_second.g,
            second_first.g,
        );
    }
}

/// Whether the tangent grows from zero, at zero, to a quarter turn, and is one halfway.
pub open spec fn is_tangent<N>(m: Reading<N>) -> bool {
    &&& m.pi > 0 as real
    &&& (m.image)(Function::Tan, 0 as real) == 0 as real
    &&& (m.image)(Function::Tan, m.pi / 4 as real) == 1 as real
    &&& forall|x: real, y: real|
        0 as real <= x && x < y && y < m.pi / 2 as real ==> (#[trigger] (m.image)(Function::Tan, x))
            < (#[trigger] (m.image)(Function::Tan, y))
}

/// Below half the sample rate, the gain grows with the cutoff.
pub proof fn law_gain_grows_with_the_cutoff<A: Arithmetic>(
    lower: FilterParameters<A>,
    higher: FilterParameters<A>,
    m: Reading<A::Num>,
)
    requires
        term::is_exact::<A>(m),
        is_tangent(m),
        lower.in_tune(),
        higher.in_tune(),
        lower.sample_rate == higher.sample_rate,
        (m.number)(lower.sample_rate) > 0 as real,
        (m.number)(lower.cutoff) >= 0 as real,
        (m.number)(lower.cutoff) < (m.number)(higher.cutoff),
        (m.number)(higher.cutoff) < (m.number)(higher.sample_rate) / 2 as real,
    ensures
        (m.number)(lower.g) < (m.number)(higher.g),
{
    laws::law_tuned_gain::<A>(lower, m);
    laws::law_tuned_gain::<A>(higher, m);
    let rate = (m.number)(lower.sample_rate);
    let c1 = (m.number)(lower.cutoff);
    let c2 = (m.number)(higher.cutoff);
    lemma_angle(m.pi, c1, rate);
    lemma_angle(m.pi, c2, rate);
    algebra::lemma_increasing_product(m.pi, c1, c2);
    algebra::lemma_increasing_quotient(m.pi * c1, m.pi * c2, rate);
}

/// The angle whose tangent is the gain, against the landmarks of the tangent.
proof fn lemma_angle(pi: real, cutoff: real, rate: real)
    requires
        pi > 0 as real,
        rate > 0 as real,
        cutoff >= 0 as real,
        cutoff < rate / 2 as real,
    ensures
        pi * cutoff / rate >= 0 as real,
        pi * cutoff / rate < pi / 2 as real,
        cutoff == 0 as real ==> pi * cutoff / rate == 0 as real,
        cutoff > 0 as real ==> pi * cutoff / rate > 0 as real,
        cutoff == rate / 4 as real ==> pi * cutoff / rate == pi / 4 as real,
        cutoff < rate / 4 as real ==> pi * cutoff / rate < pi / 4 as real,
        cutoff > rate / 4 as real ==> pi * cutoff / rate > pi / 4 as real,
{
    let half = rate / 2 as real;
    let quarter = rate / 4 as real;
    algebra::lemma_nonnegative_product(pi, cutoff);
    algebra::lemma_nonnegative_quotient(pi * cutoff, rate);
    algebra::lemma_increasing_product(pi, cutoff, half);
    algebra::lemma_increasing_quotient(pi * cutoff, pi * half, rate);
    assert(pi * half == (pi / 2 as real) * rate) by (nonlinear_arith)
        requires
            half == rate / 2 as real,
    ;
    algebra::lemma_divide_product(pi / 2 as real, rate);
    assert(pi * quarter == (pi / 4 as real) * rate) by (nonlinear_arith)
        requires
            quarter == rate / 4 as real,
    ;
    algebra::lemma_divide_product(pi / 4 as real, rate);
    if cutoff == 0 as real {
        algebra::lemma_zero(pi, cutoff);
        algebra::lemma_divide_product(0 as real, rate);
    } else {
        algebra::lemma_positive_product(pi, cutoff);
        algebra::lemma_positive_quotient(pi * cutoff, rate);
    }
    if cutoff < quarter {
        algebra::lemma_increasing_product(pi, cutoff, quarter);
        algebra::lemma_increasing_quotient(pi * cutoff, pi * quarter, rate);
    }
    if cutoff > quarter {
        algebra::lemma_increasing_product(pi, quarter, cutoff);
        algebra::lemma_increasing_quotient(pi * quarter, pi * cutoff, rate);
    }
}

/// Below half the sample rate the gain is not negative. It is zero exactly where the cutoff is, and
/// one exactly at a quarter of the sample rate.
pub proof fn law_landmarks_of_the_gain<A: Arithmetic>(
    params: FilterParameters<A>,
    m: Reading<A::Num>,
)
    requires
        term::is_exact::<A>(m),
        is_tangent(m),
        params.in_tune(),
        (m.number)(params.sample_rate) > 0 as real,
        (m.number)(params.cutoff) >= 0 as real,
        (m.number)(params.cutoff) < (m.number)(params.sample_rate) / 2 as real,
    ensures
        (m.number)(params.g) >= 0 as real,
        (m.number)(params.g) == 0 as real <==> (m.number)(params.cutoff) == 0 as real,
        (m.number)(params.g) == 1 as real <==> (m.number)(params.cutoff) == (m.number)(
            params.sample_rate,
        ) / 4 as real,
{
    laws::law_tuned_gain::<A>(params, m);
    let rate = (m.number)(params.sample_rate);
    let cutoff = (m.number)(params.cutoff);
    lemma_angle(m.pi, cutoff, rate);
    let angle = m.pi * cutoff / rate;
    let at_zero = (m.image)(Function::Tan, 0 as real);
    let at_eighth = (m.image)(Function::Tan, m.pi / 4 as real);
    assert(angle > 0 as real ==> at_zero < (m.image)(Function::Tan, angle));
    assert(angle < m.pi / 4 as real ==> (m.image)(Function::Tan, angle) < at_eighth);
    assert(angle > m.pi / 4 as real ==> at_eighth < (m.image)(Function::Tan, angle));
}

/// Whether the panel `P` finds a knob's position again from the value that it gave there.
pub open spec fn positions_undo_values<P: Panel>() -> bool {
    forall|knob: Knob, p: P::Num, v: P::Num, q: P::Num| #[trigger]
        call_ensures(P::knob_value, (knob, p), v) && #[trigger] call_ensures(
            P::knob_normalized,
            (knob, v),
            q,
        ) ==> q == p
}

/// Whether the panel `P` finds a value again from the position that it gave for it.
pub open spec fn values_undo_positions<P: Panel>() -> bool {
    &&& forall|knob: Knob, v: P::Num, p: P::Num, w: P::Num| #[trigger]
        call_ensures(P::knob_normalized, (knob, v), p) && #[trigger] call_ensures(
            P::knob_value,
            (knob, p),
            w,
        ) ==> w == v
    &&& forall|mode: usize, p: P::Num, other: usize| #[trigger]
        call_ensures(P::mode_normalized, (mode,), p) && #[trigger] call_ensures(
            P::mode_value,
            (p,),
            other,
        ) ==> other == mode
}

/// A knob stands where it was moved, if the panel finds its position again.
pub proof fn law_a_knob_stands_where_it_was_moved<P: Panel>(
    pre: FilterParameters<P>,
    index: i32,
    value: P::Num,
    post: FilterParameters<P>,
    position: P::Num,
)
    requires
        positions_undo_values::<P>(),
        0 <= index <= 2,
        FilterParameters::<P>::moved(pre, index, value, post),
        post.stands_at(index, position),
    ensures
        position == value,
{
}

/// A position that was reported can be set again: a parameter that is moved where the same one
/// stands in other settings takes the value that it has there.
pub proof fn law_a_reported_position_restores_the_parameter<P: Panel>(
    other: FilterParameters<P>,
    index: i32,
    position: P::Num,
    pre: FilterParameters<P>,
    post: FilterParameters<P>,
)
    requires
        values_undo_positions::<P>(),
        other.stands_at(index, position),
        FilterParameters::<P>::moved(pre, index, position, post),
    ensures
        post.cutoff == if index == 0 { other.cutoff } else { pre.cutoff },
        post.res == if index == 1 { other.res } else { pre.res },
        post.drive == if index == 2 { other.drive } else { pre.drive },
        post.mode == if index == 3 { other.mode } else { pre.mode },
        post.sample_rate == pre.sample_rate,
        index != 0 ==> post.g == pre.g,
{
}

/// A moved parameter takes the value that its own knob has at the position, and every other one
/// keeps its value.
pub proof fn law_a_moved_parameter_takes_the_value_of_its_knob<P: Panel>(
    pre: FilterParameters<P>,
    index: i32,
    value: P::Num,
    post: FilterParameters<P>,
)
    requires
        FilterParameters::<P>::moved(pre, index, value, post),
    ensures
        index == 0 ==> call_ensures(P::knob_value, (Knob::Cutoff, value), post.cutoff),
        index == 1 ==> call_ensures(P::knob_value, (Knob::Res, value), post.res),
        index == 2 ==> call_ensures(P::knob_value, (Knob::Drive, value), post.drive),
        index == 3 ==> call_ensures(P::mode_value, (value,), post.mode),
        index != 0 ==> post.cutoff == pre.cutoff,
        index != 1 ==> post.res == pre.res,
        index != 2 ==> post.drive == pre.drive,
        index != 3 ==> post.mode == pre.mode,
{
}

/// The position of a parameter is the one at which the panel shows its value.
pub proof fn law_a_parameter_stands_at_its_value<P: Panel>(
    params: FilterParameters<P>,
    index: i32,
    position: P::Num,
)
    requires
        params.stands_at(index, position),
    ensures
        index == 0 ==> call_ensures(P::knob_normalized, (Knob::Cutoff, params.cutoff), position),
        index == 1 ==> call_ensures(P::knob_normalized, (Knob::Res, params.res), position),
        index == 2 ==> call_ensures(P::knob_normalized, (Knob::Drive, params.drive), position),
        index == 3 ==> call_ensures(P::mode_normalized, (params.mode,), position),
{
}

/// A parameter turns with its knob: where a knob's values grow with its position, so does the
/// parameter that it moves.
pub proof fn law_parameters_turn_with_their_knobs<P: Panel>(
    pre1: FilterParameters<P>,
    value1: P::Num,
    post1: FilterParameters<P>,
    pre2: FilterParameters<P>,
    value2: P::Num,
    post2: FilterParameters<P>,
    index: i32,
    m: Reading<P::Num>,
)
    requires
        forall|knob: Knob, p: P::Num, v: P::Num, q: P::Num, w: P::Num| #[trigger]
            call_ensures(P::knob_value, (knob, p), v) && #[trigger] call_ensures(
                P::knob_value,
                (knob, q),
                w,
            ) && (m.number)(p) < (m.number)(q) ==> (m.number)(v) < (m.number)(w),
        0 <= index <= 2,
        (m.number)(value1) < (m.number)(value2),
        FilterParameters::<P>::moved(pre1, index, value1, post1),
        FilterParameters::<P>::moved(pre2, index, value2, post2),
    ensures
        index == 0 ==> (m.number)(post1.cutoff) < (m.number)(post2.cutoff),
        index == 1 ==> (m.number)(post1.res) < (m.number)(post2.res),
        index == 2 ==> (m.number)(post1.drive) < (m.number)(post2.drive),
{
}

/// A position follows its parameter: where the positions that the panel gives grow with the value,
/// so does the one that is reported.
pub proof fn law_positions_follow_their_parameters<P: Panel>(
    params1: FilterParameters<P>,
    position1: P::Num,
    params2: FilterParameters<P>,
    position2: P::Num,
    index: i32,
    m: Reading<P::Num>,
)
    requires
        forall|knob: Knob, v: P::Num, p: P::Num, w: P::Num, q: P::Num| #[trigger]
            call_ensures(P::knob_normalized, (knob, v), p) && #[trigger] call_ensures(
                P::knob_normalized,
                (knob, w),
                q,
            ) && (m.number)(v) < (m.number)(w) ==> (m.number)(p) < (m.number)(q),
        params1.stands_at(index, position1),
        params2.stands_at(index, position2),
    ensures
        index == 0 && (m.number)(params1.cutoff) < (m.number)(params2.cutoff) ==> (m.number)(
            position1,
        ) < (m.number)(position2),
        index == 1 && (m.number)(params1.res) < (m.number)(params2.res) ==> (m.number)(position1)
            < (m.number)(position2),
        index == 2 && (m.number)(params1.drive) < (m.number)(params2.drive) ==> (m.number)(
            position1,
        ) < (m.number)(position2),
{
}

/// A number without a parameter stands at zero, and moving it changes nothing.
pub proof fn law_there_are_no_further_parameters<P: Panel>(
    pre: FilterParameters<P>,
    index: i32,
    value: P::Num,
    post: FilterParameters<P>,
    position: P::Num,
    m: Reading<P::Num>,
)
    requires
        term::is_exact::<P>(m),
        index < 0 || index > 3,
        FilterParameters::<P>::moved(pre, index, value, post),
        pre.stands_at(index, position),
    ensures
        post == pre,
        (m.number)(position) == 0 as real,
{
    reading::lemma_readings::<P::Num>(m);
    term::law_exact_value::<P>(term::num(0), position, m);
}

/// Where a parameter is moved, settings that were in tune stay in tune, and a moved cutoff brings
/// them in tune: the gain is the tangent of the cutoff's share of half a turn per sample.
pub proof fn law_moved_parameters_are_in_tune<P: Panel>(
    pre: FilterParameters<P>,
    index: i32,
    value: P::Num,
    post: FilterParameters<P>,
    m: Reading<P::Num>,
)
    requires
        term::is_exact::<P>(m),
        FilterParameters::<P>::moved(pre, index, value, post),
        index == 0 || pre.in_tune(),
        (m.number)(pre.sample_rate) != 0 as real,
    ensures
        (m.number)(post.g) == (m.image)(
            Function::Tan,
            m.pi * (m.number)(post.cutoff) / (m.number)(pre.sample_rate),
        ),
{
    assert(post.in_tune());
    laws::law_tuned_gain::<P>(post, m);
}

/// A new sample rate is taken over, the gain is brought in tune with it, and nothing else changes.
pub proof fn law_a_sample_rate_is_taken_over<A: Arithmetic>(
    pre: FilterParameters<A>,
    rate: A::Num,
    post: FilterParameters<A>,
    m: Reading<A::Num>,
)
    requires
        term::is_exact::<A>(m),
        FilterParameters::<A>::rated(pre, rate, post),
        (m.number)(rate) != 0 as real,
    ensures
        post.sample_rate == rate,
        (m.number)(post.g) == (m.image)(
            Function::Tan,
            m.pi * (m.number)(pre.cutoff) / (m.number)(rate),
        ),
        post.cutoff == pre.cutoff,
        post.res == pre.res,
        post.drive == pre.drive,
        post.mode == pre.mode,
{
    laws::law_tuned_gain::<A>(post, m);
}

/// A parameter shows what it was moved to: the value that its knob has at the position, as the
/// panel shows it.
pub proof fn law_parameters_show_what_they_were_moved_to<P: Panel>(
    pre: FilterParameters<P>,
    index: i32,
    value: P::Num,
    post: FilterParameters<P>,
    text: String,
)
    requires
        FilterParameters::<P>::moved(pre, index, value, post),
        call_ensures(FilterParameters::<P>::get_parameter_text, (&post, index), text),
    ensures
        index == 0 ==> exists|v: P::Num|
            {
                &&& #[trigger] call_ensures(P::knob_value, (Knob::Cutoff, value), v)
                &&& call_ensures(P::knob_display, (Knob::Cutoff, v), text)
            },
        index == 1 ==> exists|v: P::Num|
            {
                &&& #[trigger] call_ensures(P::knob_value, (Knob::Res, value), v)
                &&& call_ensures(P::knob_display, (Knob::Res, v), text)
            },
        index == 2 ==> exists|v: P::Num|
            {
                &&& #[trigger] call_ensures(P::knob_value, (Knob::Drive, value), v)
                &&& call_ensures(P::knob_display, (Knob::Drive, v), text)
            },
        index == 3 ==> exists|mode: usize|
            {
                &&& #[trigger] call_ensures(P::mode_value, (value,), mode)
                &&& call_ensures(P::mode_display, (mode,), text)
            },
        index < 0 || index > 3 ==> text@.len() == 0,
{
    reveal_strlit("");
}

/// Moving a parameter leaves the texts of the others as they are, where the panel shows each value
/// in one way.
pub proof fn law_moving_leaves_the_other_texts<P: Panel>(
    pre: FilterParameters<P>,
    index: i32,
    value: P::Num,
    post: FilterParameters<P>,
    other: i32,
    before: String,
    after: String,
)
    requires
        forall|knob: Knob, v: P::Num, s: String, t: String| #[trigger]
            call_ensures(P::knob_display, (knob, v), s) && #[trigger] call_ensures(
                P::knob_display,
                (knob, v),
                t,
            ) ==> s@ == t@,
        forall|mode: usize, s: String, t: String| #[trigger]
            call_ensures(P::mode_display, (mode,), s) && #[trigger] call_ensures(
                P::mode_display,
                (mode,),
                t,
            ) ==> s@ == t@,
        FilterParameters::<P>::moved(pre, index, value, post),
        other != index,
        call_ensures(FilterParameters::<P>::get_parameter_text, (&pre, other), before),
        call_ensures(FilterParameters::<P>::get_parameter_text, (&post, other), after),
    ensures
        after@ == before@,
{
}

/// The numbers from zero to four have names of their own, and no other number has one, whatever
/// the settings.
pub proof fn law_parameters_have_their_own_names<P: Panel>(
    params1: FilterParameters<P>,
    index1: i32,
    name1: String,
    params2: FilterParameters<P>,
    index2: i32,
    name2: String,
)
    requires
        call_ensures(FilterParameters::<P>::get_parameter_name, (&params1, index1), name1),
        call_ensures(FilterParameters::<P>::get_parameter_name, (&params2, index2), name2),
    ensures
        name1@.len() == 0 <==> index1 < 0 || index1 > 4,
        name1@ == name2@ <==> index1 == index2 || (name1@.len() == 0 && name2@.len() == 0),
{
    reveal_strlit("cutoff");
    reveal_strlit("resonance");
    reveal_strlit("drive");
    reveal_strlit("filter mode");
    reveal_strlit("dry/wet");
    reveal_strlit("");
}

} // verus!
