//! How formulas are read as real numbers, and what the laws ask of the functions in a reading.

use crate::term;
use crate::term::{Function, Reading, Term};
use vstd::prelude::*;

verus! {

/// Whether `x` lies within `bound` of zero.
pub open spec fn within(x: real, bound: real) -> bool {
    -bound <= x <= bound
}

/// Whether the functions of the reading are the hyperbolic functions, as far as their values go:
/// the sine is the tangent times the cosine, the cosine is one at the least, the others are odd,
/// the tangent stays within one and, like the inverse sine, below its argument, the sine stays
/// above it, and undoes the inverse sine.
pub open spec fn is_hyperbolic<N>(m: Reading<N>) -> bool {
    &&& forall|x: real|
        (#[trigger] (m.image)(Function::Sinh, x)) == (m.image)(Function::Tanh, x) * (m.image)(
            Function::Cosh,
            x,
        )
    &&& forall|x: real| (#[trigger] (m.image)(Function::Cosh, x)) >= 1 as real
    &&& (m.image)(Function::Cosh, 0 as real) == 1 as real
    &&& forall|x: real|
        -(1 as real) < (#[trigger] (m.image)(Function::Tanh, x)) && (m.image)(Function::Tanh, x)
            < 1 as real
    &&& is_odd(m, Function::Tanh)
    &&& is_odd(m, Function::Sinh)
    &&& is_odd(m, Function::Asinh)
    &&& forall|x: real|
        x > 0 as real ==> (0 as real) < (#[trigger] (m.image)(Function::Tanh, x)) && (m.image)(
            Function::Tanh,
            x,
        ) < x
    &&& forall|x: real| x > 0 as real ==> x < #[trigger] (m.image)(Function::Sinh, x)
    &&& forall|x: real|
        x > 0 as real ==> (0 as real) < (#[trigger] (m.image)(Function::Asinh, x)) && (m.image)(
            Function::Asinh,
            x,
        ) < x
    &&& forall|x: real|
        (m.image)(Function::Sinh, #[trigger] (m.image)(Function::Asinh, x)) == x
}

/// Whether the functions of the reading bend as gently as the hyperbolic functions: how far they
/// lie off their arguments near zero, how large the cosine is there, and how far the tangent and
/// the sine lie off the line along their slope.
pub open spec fn bends_gently<N>(m: Reading<N>) -> bool {
    &&& forall|x: real|
        x >= 0 as real ==> (#[trigger] (m.image)(Function::Tanh, x)) >= x - x * x * x / 3 as real
    &&& forall|x: real|
        x >= 0 as real && x <= 1 as real ==> (#[trigger] (m.image)(Function::Sinh, x)) <= x + x * x
            * x / 5 as real
    &&& forall|x: real|
        x >= 0 as real ==> (#[trigger] (m.image)(Function::Asinh, x)) >= x - x * x * x / 6 as real
    &&& forall|x: real|
        within(x, 1 as real) ==> (#[trigger] (m.image)(Function::Cosh, x)) <= 2 as real
    &&& forall|x: real, y: real|
        #![trigger (m.image)(Function::Tanh, x), (m.image)(Function::Tanh, y)]
        within(
            (m.image)(Function::Tanh, y) - (m.image)(Function::Tanh, x) - (1 as real - (m.image)(
                Function::Tanh,
                x,
            ) * (m.image)(Function::Tanh, x)) * (y - x),
            (y - x) * (y - x),
        )
    &&& forall|x: real, y: real|
        #![trigger (m.image)(Function::Sinh, x), (m.image)(Function::Sinh, y)]
        within(x, 1 as real) && within(y, 1 as real) ==> within(
            (m.image)(Function::Sinh, y) - (m.image)(Function::Sinh, x) - (m.image)(
                Function::Cosh,
                x,
            ) * (y - x),
            (y - x) * (y - x),
        )
}

/// Whether a function of the reading is odd: it takes opposite numbers to opposite numbers.
pub open spec fn is_odd<N>(m: Reading<N>, f: Function) -> bool {
    forall|x: real, y: real|
        y == -x ==> (#[trigger] (m.image)(f, y)) == -(#[trigger] (m.image)(f, x))
}

/// The hyperbolic tangent has the sign of its argument.
pub proof fn lemma_tanh_sign<N>(m: Reading<N>, x: real)
    requires
        is_hyperbolic(m),
    ensures
        x == 0 as real ==> (m.image)(Function::Tanh, x) == 0 as real,
        x > 0 as real ==> (m.image)(Function::Tanh, x) > 0 as real,
        x < 0 as real ==> (m.image)(Function::Tanh, x) < 0 as real,
{
    assert((m.image)(Function::Tanh, -x) == -(m.image)(Function::Tanh, x));
}

/// The hyperbolic sine lies beyond its argument.
pub proof fn lemma_sinh_beyond<N>(m: Reading<N>, x: real)
    requires
        is_hyperbolic(m),
    ensures
        x == 0 as real ==> (m.image)(Function::Sinh, x) == 0 as real,
        x > 0 as real ==> (m.image)(Function::Sinh, x) > x,
        x < 0 as real ==> (m.image)(Function::Sinh, x) < x,
{
    assert((m.image)(Function::Sinh, -x) == -(m.image)(Function::Sinh, x));
}

/// The decimal constants of the filter.
pub proof fn lemma_decimals<N>(m: Reading<N>)
    ensures
        term::exact(Term::<N>::Decimal(1, 5), m) == 1 as real / 100000 as real,
        term::defined(Term::<N>::Decimal(1, 5), m),
        term::exact(Term::<N>::Decimal(15, 1), m) == 15 as real / 10 as real,
        term::defined(Term::<N>::Decimal(15, 1), m),
{
    assert(vstd::arithmetic::power::pow(10, 5) == 100000) by {
        reveal_with_fuel(vstd::arithmetic::power::pow, 6);
    }
    assert(vstd::arithmetic::power::pow(10, 1) == 10) by {
        reveal_with_fuel(vstd::arithmetic::power::pow, 2);
    }
}

/// How formulas are read, by their outermost operation.
pub proof fn lemma_readings<N>(m: Reading<N>)
    ensures
        forall|x: N| (#[trigger] term::exact(term::val(x), m)) == (m.number)(x),
        forall|x: N| #[trigger] term::defined(term::val(x), m),
        forall|n: i32| (#[trigger] term::exact(term::num::<N>(n), m)) == n as real,
        forall|n: i32| #[trigger] term::defined(term::num::<N>(n), m),
        forall|a: Term<N>, b: Term<N>|
            (#[trigger] term::exact(a.plus(b), m)) == term::exact(a, m) + term::exact(b, m),
        forall|a: Term<N>, b: Term<N>|
            (#[trigger] term::defined(a.plus(b), m)) == (term::defined(a, m) && term::defined(b, m)),
        forall|a: Term<N>, b: Term<N>|
            (#[trigger] term::exact(a.minus(b), m)) == term::exact(a, m) - term::exact(b, m),
        forall|a: Term<N>, b: Term<N>|
            (#[trigger] term::defined(a.minus(b), m)) == (term::defined(a, m) && term::defined(
                b,
                m,
            )),
        forall|a: Term<N>, b: Term<N>|
            (#[trigger] term::exact(a.times(b), m)) == term::exact(a, m) * term::exact(b, m),
        forall|a: Term<N>, b: Term<N>|
            (#[trigger] term::defined(a.times(b), m)) == (term::defined(a, m) && term::defined(
                b,
                m,
            )),
        forall|a: Term<N>, b: Term<N>|
            (#[trigger] term::exact(a.over(b), m)) == term::exact(a, m) / term::exact(b, m),
        forall|a: Term<N>, b: Term<N>|
            (#[trigger] term::defined(a.over(b), m)) == (term::defined(a, m) && term::defined(b, m)
                && term::exact(b, m) != 0 as real),
        forall|a: Term<N>| (#[trigger] term::exact(a.negated(), m)) == -term::exact(a, m),
        forall|a: Term<N>| (#[trigger] term::defined(a.negated(), m)) == term::defined(a, m),
        forall|a: Term<N>|
            (#[trigger] term::exact(a.squared(), m)) == term::exact(a, m) * term::exact(a, m),
        forall|a: Term<N>| (#[trigger] term::defined(a.squared(), m)) == term::defined(a, m),
        forall|a: Term<N>|
            (#[trigger] term::exact(a.tanh(), m)) == (m.image)(Function::Tanh, term::exact(a, m)),
        forall|a: Term<N>| (#[trigger] term::defined(a.tanh(), m)) == term::defined(a, m),
        forall|a: Term<N>|
            (#[trigger] term::exact(a.sinh(), m)) == (m.image)(Function::Sinh, term::exact(a, m)),
        forall|a: Term<N>| (#[trigger] term::defined(a.sinh(), m)) == term::defined(a, m),
        forall|a: Term<N>|
            (#[trigger] term::exact(a.cosh(), m)) == (m.image)(Function::Cosh, term::exact(a, m)),
        forall|a: Term<N>| (#[trigger] term::defined(a.cosh(), m)) == term::defined(a, m),
        forall|a: Term<N>|
            (#[trigger] term::exact(a.asinh(), m)) == (m.image)(Function::Asinh, term::exact(a, m)),
        forall|a: Term<N>| (#[trigger] term::defined(a.asinh(), m)) == term::defined(a, m),
        forall|a: Term<N>|
            (#[trigger] term::exact(a.abs(), m)) == (m.image)(Function::Abs, term::exact(a, m)),
        forall|a: Term<N>| (#[trigger] term::defined(a.abs(), m)) == term::defined(a, m),
        forall|a: Term<N>|
            (#[trigger] term::exact(a.tan(), m)) == (m.image)(Function::Tan, term::exact(a, m)),
        forall|a: Term<N>| (#[trigger] term::defined(a.tan(), m)) == term::defined(a, m),
{
    vstd::arithmetic::power::lemma_pow0(10);
    assert forall|n: i32| (#[trigger] term::exact(term::num::<N>(n), m)) == n as real by {
        assert(term::scaled(n as int, 0) == n as real / 1 as real);
    }
}

} // verus!
