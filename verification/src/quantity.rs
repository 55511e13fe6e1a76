//! Numbers that remember, in ghost code, the formula they were computed from.

use crate::arithmetic::Arithmetic;
use crate::term;
use crate::term::{Function, Term};
use vstd::prelude::*;

verus! {

/// A number together with the formula that it was computed from.
pub struct Quantity<A: Arithmetic> {
    value: A::Num,
    formula: Ghost<Term<A::Num>>,
}

impl<A: Arithmetic> Quantity<A> {
    /// The number is what the arithmetic computes for the formula.
    #[verifier::type_invariant]
    spec fn consistent(self) -> bool {
        term::yields::<A>(self.formula@, self.value)
    }

    /// The formula that the number was computed from.
    pub closed spec fn formula(self) -> Term<A::Num> {
        self.formula@
    }

    /// A given number, whose formula is the number itself.
    pub fn val(x: A::Num) -> (r: Self)
        ensures
            r.formula() == term::val(x),
    {
        Quantity { value: x, formula: Ghost(term::val(x)) }
    }

    /// A number that is already known to come from the formula `t`.
    pub fn of(x: A::Num, Ghost(t): Ghost<Term<A::Num>>) -> (r: Self)
        requires
            term::yields::<A>(t, x),
        ensures
            r.formula() == t,
    {
        Quantity { value: x, formula: Ghost(t) }
    }

    /// The constant `mantissa / 10^places`.
    pub fn decimal(mantissa: i32, places: u32) -> (r: Self)
        ensures
            r.formula() == Term::<A::Num>::Decimal(mantissa, places),
    {
        let value = A::decimal(mantissa, places);
        Quantity { value, formula: Ghost(Term::Decimal(mantissa, places)) }
    }

    /// The constant `n`.
    pub fn num(n: i32) -> (r: Self)
        ensures
            r.formula() == term::num::<A::Num>(n),
    {
        Self::decimal(n, 0)
    }

    /// The constant pi.
    pub fn pi() -> (r: Self)
        ensures
            r.formula() == Term::<A::Num>::Pi,
    {
        let value = A::pi();
        Quantity { value, formula: Ghost(Term::Pi) }
    }

    pub fn plus(self, other: Self) -> (r: Self)
        ensures
            r.formula() == self.formula().plus(other.formula()),
    {
        proof {
            use_type_invariant(&self);
            use_type_invariant(&other);
        }
        let value = A::plus(self.value, other.value);
        Quantity { value, formula: Ghost(self.formula@.plus(other.formula@)) }
    }

    pub fn minus(self, other: Self) -> (r: Self)
        ensures
            r.formula() == self.formula().minus(other.formula()),
    {
        proof {
            use_type_invariant(&self);
            use_type_invariant(&other);
        }
        let value = A::minus(self.value, other.value);
        Quantity { value, formula: Ghost(self.formula@.minus(other.formula@)) }
    }

    pub fn times(self, other: Self) -> (r: Self)
        ensures
            r.formula() == self.formula().times(other.formula()),
    {
        proof {
            use_type_invariant(&self);
            use_type_invariant(&other);
        }
        let value = A::times(self.value, other.value);
        Quantity { value, formula: Ghost(self.formula@.times(other.formula@)) }
    }

    pub fn over(self, other: Self) -> (r: Self)
        ensures
            r.formula() == self.formula().over(other.formula()),
    {
        proof {
            use_type_invariant(&self);
            use_type_invariant(&other);
        }
        let value = A::over(self.value, other.value);
        Quantity { value, formula: Ghost(self.formula@.over(other.formula@)) }
    }

    pub fn negated(self) -> (r: Self)
        ensures
            r.formula() == self.formula().negated(),
    {
        proof {
            use_type_invariant(&self);
        }
        let value = A::negated(self.value);
        Quantity { value, formula: Ghost(self.formula@.negated()) }
    }

    pub fn squared(self) -> (r: Self)
        ensures
            r.formula() == self.formula().squared(),
    {
        proof {
            use_type_invariant(&self);
        }
        let value = A::squared(self.value);
        Quantity { value, formula: Ghost(self.formula@.squared()) }
    }

    pub fn tan(self) -> (r: Self)
        ensures
            r.formula() == self.formula().tan(),
    {
        proof {
            use_type_invariant(&self);
        }
        let value = A::tan(self.value);
        assert(term::maps::<A>(Function::Tan, self.value, value));
        Quantity { value, formula: Ghost(self.formula@.tan()) }
    }

    pub fn tanh(self) -> (r: Self)
        ensures
            r.formula() == self.formula().tanh(),
    {
        proof {
            use_type_invariant(&self);
        }
        let value = A::tanh(self.value);
        assert(term::maps::<A>(Function::Tanh, self.value, value));
        Quantity { value, formula: Ghost(self.formula@.tanh()) }
    }

    pub fn sinh(self) -> (r: Self)
        ensures
            r.formula() == self.formula().sinh(),
    {
        proof {
            use_type_invariant(&self);
        }
        let value = A::sinh(self.value);
        assert(term::maps::<A>(Function::Sinh, self.value, value));
        Quantity { value, formula: Ghost(self.formula@.sinh()) }
    }

    pub fn cosh(self) -> (r: Self)
        ensures
            r.formula() == self.formula().cosh(),
    {
        proof {
            use_type_invariant(&self);
        }
        let value = A::cosh(self.value);
        assert(term::maps::<A>(Function::Cosh, self.value, value));
        Quantity { value, formula: Ghost(self.formula@.cosh()) }
    }

    pub fn asinh(self) -> (r: Self)
        ensures
            r.formula() == self.formula().asinh(),
    {
        proof {
            use_type_invariant(&self);
        }
        let value = A::asinh(self.value);
        assert(term::maps::<A>(Function::Asinh, self.value, value));
        Quantity { value, formula: Ghost(self.formula@.asinh()) }
    }

    pub fn abs(self) -> (r: Self)
        ensures
            r.formula() == self.formula().abs(),
    {
        proof {
            use_type_invariant(&self);
        }
        let value = A::abs(self.value);
        assert(term::maps::<A>(Function::Abs, self.value, value));
        Quantity { value, formula: Ghost(self.formula@.abs()) }
    }

    /// The number itself.
    pub fn get(self) -> (v: A::Num)
        ensures
            term::yields::<A>(self.formula(), v),
    {
        proof {
            use_type_invariant(&self);
        }
        self.value
    }
}

impl<A: Arithmetic> Clone for Quantity<A> {
    fn clone(&self) -> (r: Self)
        ensures
            r == *self,
    {
        proof {
            use_type_invariant(self);
        }
        Quantity { value: self.value, formula: Ghost(self.formula@) }
    }
}

impl<A: Arithmetic> Copy for Quantity<A> {

}

} // verus!
