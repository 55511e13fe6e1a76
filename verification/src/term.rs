//! Formulas over the filter's numbers, and the two ways to read them: what a given arithmetic
//! computes for a formula, and the real number that the formula denotes.

use crate::arithmetic::Arithmetic;
use vstd::prelude::*;

verus! {

/// A function of one number.
pub enum Function {
    Tan,
    Tanh,
    Sinh,
    Cosh,
    Asinh,
    Abs,
}

/// A formula over numbers of type `N`. The order of the operations matters: the arithmetic
/// that evaluates a formula need not be associative.
pub enum Term<N> {
    Val(N),
    Decimal(i32, u32),
    Pi,
    Sum(Box<Term<N>>, Box<Term<N>>),
    Difference(Box<Term<N>>, Box<Term<N>>),
    Product(Box<Term<N>>, Box<Term<N>>),
    Quotient(Box<Term<N>>, Box<Term<N>>),
    Negation(Box<Term<N>>),
    Square(Box<Term<N>>),
    Image(Function, Box<Term<N>>),
}

/// The whole number `n` as a formula.
pub open spec fn num<N>(n: i32) -> Term<N> {
    Term::Decimal(n, 0)
}

/// The number `x` as a formula.
pub open spec fn val<N>(x: N) -> Term<N> {
    Term::Val(x)
}

impl<N> Term<N> {
    pub open spec fn plus(self, other: Self) -> Self {
        Term::Sum(Box::new(self), Box::new(other))
    }

    pub open spec fn minus(self, other: Self) -> Self {
        Term::Difference(Box::new(self), Box::new(other))
    }

    pub open spec fn times(self, other: Self) -> Self {
        Term::Product(Box::new(self), Box::new(other))
    }

    pub open spec fn over(self, other: Self) -> Self {
        Term::Quotient(Box::new(self), Box::new(other))
    }

    pub open spec fn negated(self) -> Self {
        Term::Negation(Box::new(self))
    }

    pub open spec fn squared(self) -> Self {
        Term::Square(Box::new(self))
    }

    pub open spec fn tan(self) -> Self {
        Term::Image(Function::Tan, Box::new(self))
    }

    pub open spec fn tanh(self) -> Self {
        Term::Image(Function::Tanh, Box::new(self))
    }

    pub open spec fn sinh(self) -> Self {
        Term::Image(Function::Sinh, Box::new(self))
    }

    pub open spec fn cosh(self) -> Self {
        Term::Image(Function::Cosh, Box::new(self))
    }

    pub open spec fn asinh(self) -> Self {
        Term::Image(Function::Asinh, Box::new(self))
    }

    pub open spec fn abs(self) -> Self {
        Term::Image(Function::Abs, Box::new(self))
    }
}

/// Whether `v` is what the arithmetic `A` returns for the function `f` at `x`.
pub open spec fn maps<A: Arithmetic>(f: Function, x: A::Num, v: A::Num) -> bool {
    match f {
        Function::Tan => call_ensures(A::tan, (x,), v),
        Function::Tanh => call_ensures(A::tanh, (x,), v),
        Function::Sinh => call_ensures(A::sinh, (x,), v),
        Function::Cosh => call_ensures(A::cosh, (x,), v),
        Function::Asinh => call_ensures(A::asinh, (x,), v),
        Function::Abs => call_ensures(A::abs, (x,), v),
    }
}

/// Whether the arithmetic `A` computes `v` for the formula `t`, by the operations that the
/// formula names in the order in which it names them.
pub open spec fn yields<A: Arithmetic>(t: Term<A::Num>, v: A::Num) -> bool
    decreases t,
{
    match t {
        Term::Val(x) => v == x,
        Term::Decimal(mantissa, places) => call_ensures(A::decimal, (mantissa, places), v),
        Term::Pi => call_ensures(A::pi, (), v),
        Term::Sum(a, b) => exists|x: A::Num, y: A::Num|
            yields::<A>(*a, x) && yields::<A>(*b, y) && #[trigger] call_ensures(A::plus, (x, y), v),
        Term::Difference(a, b) => exists|x: A::Num, y: A::Num|
            yields::<A>(*a, x) && yields::<A>(*b, y) && #[trigger] call_ensures(
                A::minus,
                (x, y),
                v,
            ),
        Term::Product(a, b) => exists|x: A::Num, y: A::Num|
            yields::<A>(*a, x) && yields::<A>(*b, y) && #[trigger] call_ensures(
                A::times,
                (x, y),
                v,
            ),
        Term::Quotient(a, b) => exists|x: A::Num, y: A::Num|
            yields::<A>(*a, x) && yields::<A>(*b, y) && #[trigger] call_ensures(A::over, (x, y), v),
        Term::Negation(a) => exists|x: A::Num|
            yields::<A>(*a, x) && #[trigger] call_ensures(A::negated, (x,), v),
        Term::Square(a) => exists|x: A::Num|
            yields::<A>(*a, x) && #[trigger] call_ensures(A::squared, (x,), v),
        Term::Image(f, a) => exists|x: A::Num|
            yields::<A>(*a, x) && #[trigger] maps::<A>(f, x, v),
    }
}

/// A reading of formulas over numbers of type `N` as real numbers: what the numbers, pi and the
/// functions denote.
#[verifier::reject_recursive_types(N)]
pub struct Reading<N> {
    pub number: spec_fn(N) -> real,
    pub pi: real,
    pub image: spec_fn(Function, real) -> real,
}

/// `mantissa / 10^places`, as a real number.
pub open spec fn scaled(mantissa: int, places: nat) -> real {
    mantissa as real / vstd::arithmetic::power::pow(10, places) as real
}

/// The real number that the formula `t` denotes.
pub open spec fn exact<N>(t: Term<N>, m: Reading<N>) -> real
    decreases t,
{
    match t {
        Term::Val(x) => (m.number)(x),
        Term::Decimal(mantissa, places) => scaled(mantissa as int, places as nat),
        Term::Pi => m.pi,
        Term::Sum(a, b) => exact(*a, m) + exact(*b, m),
        Term::Difference(a, b) => exact(*a, m) - exact(*b, m),
        Term::Product(a, b) => exact(*a, m) * exact(*b, m),
        Term::Quotient(a, b) => exact(*a, m) / exact(*b, m),
        Term::Negation(a) => -exact(*a, m),
        Term::Square(a) => exact(*a, m) * exact(*a, m),
        Term::Image(f, a) => (m.image)(f, exact(*a, m)),
    }
}

/// Whether the formula `t` denotes a real number: no quotient in it divides by zero.
pub open spec fn defined<N>(t: Term<N>, m: Reading<N>) -> bool
    decreases t,
{
    match t {
        Term::Val(_) | Term::Decimal(_, _) | Term::Pi => true,
        Term::Sum(a, b) => defined(*a, m) && defined(*b, m),
        Term::Difference(a, b) => defined(*a, m) && defined(*b, m),
        Term::Product(a, b) => defined(*a, m) && defined(*b, m),
        Term::Quotient(a, b) => defined(*a, m) && defined(*b, m) && exact(*b, m) != 0 as real,
        Term::Negation(a) => defined(*a, m),
        Term::Square(a) => defined(*a, m),
        Term::Image(_, a) => defined(*a, m),
    }
}

/// Whether the arithmetic `A` computes with real numbers, under the reading `m`: it does not round,
/// and no number of it is infinite.
pub open spec fn is_exact<A: Arithmetic>(m: Reading<A::Num>) -> bool {
    &&& forall|mantissa: i32, places: u32, v: A::Num| #[trigger]
        call_ensures(A::decimal, (mantissa, places), v) ==> (m.number)(v) == scaled(
            mantissa as int,
            places as nat,
        )
    &&& forall|v: A::Num| #[trigger] call_ensures(A::pi, (), v) ==> (m.number)(v) == m.pi
    &&& forall|a: A::Num, b: A::Num, v: A::Num| #[trigger]
        call_ensures(A::plus, (a, b), v) ==> (m.number)(v) == (m.number)(a) + (m.number)(b)
    &&& forall|a: A::Num, b: A::Num, v: A::Num| #[trigger]
        call_ensures(A::minus, (a, b), v) ==> (m.number)(v) == (m.number)(a) - (m.number)(b)
    &&& forall|a: A::Num, b: A::Num, v: A::Num| #[trigger]
        call_ensures(A::times, (a, b), v) ==> (m.number)(v) == (m.number)(a) * (m.number)(b)
    &&& forall|a: A::Num, b: A::Num, v: A::Num| #[trigger]
        call_ensures(A::over, (a, b), v) && (m.number)(b) != 0 as real ==> (m.number)(v) == (
        m.number)(a) / (m.number)(b)
    &&& forall|a: A::Num, v: A::Num| #[trigger]
        call_ensures(A::negated, (a,), v) ==> (m.number)(v) == -(m.number)(a)
    &&& forall|a: A::Num, v: A::Num| #[trigger]
        call_ensures(A::squared, (a,), v) ==> (m.number)(v) == (m.number)(a) * (m.number)(a)
    &&& forall|f: Function, a: A::Num, v: A::Num| #[trigger]
        maps::<A>(f, a, v) ==> (m.number)(v) == (m.image)(f, (m.number)(a))
    &&& forall|x: real| #[trigger]
        (m.image)(Function::Abs, x) == if x < 0 as real {
            -x
        } else {
            x
        }
    &&& forall|a: A::Num, b: A::Num, outcome: bool| #[trigger]
        call_ensures(A::exceeds, (a, b), outcome) ==> outcome == ((m.number)(a) > (m.number)(b))
    &&& forall|a: A::Num, b: A::Num, outcome: bool| #[trigger]
        call_ensures(A::differs, (a, b), outcome) ==> outcome == ((m.number)(a) != (m.number)(b))
    &&& forall|a: A::Num, outcome: bool| #[trigger]
        call_ensures(A::is_infinite, (a,), outcome) ==> !outcome
}

/// Whether the operations of the arithmetic `A` are functions of their operands.
pub open spec fn is_deterministic<A: Arithmetic>() -> bool {
    &&& forall|mantissa: i32, places: u32, v: A::Num, w: A::Num| #[trigger]
        call_ensures(A::decimal, (mantissa, places), v) && #[trigger] call_ensures(
            A::decimal,
            (mantissa, places),
            w,
        ) ==> v == w
    &&& forall|v: A::Num, w: A::Num| #[trigger]
        call_ensures(A::pi, (), v) && #[trigger] call_ensures(A::pi, (), w) ==> v == w
    &&& forall|a: A::Num, b: A::Num, v: A::Num, w: A::Num| #[trigger]
        call_ensures(A::plus, (a, b), v) && #[trigger] call_ensures(A::plus, (a, b), w) ==> v == w
    &&& forall|a: A::Num, b: A::Num, v: A::Num, w: A::Num| #[trigger]
        call_ensures(A::minus, (a, b), v) && #[trigger] call_ensures(A::minus, (a, b), w) ==> v == w
    &&& forall|a: A::Num, b: A::Num, v: A::Num, w: A::Num| #[trigger]
        call_ensures(A::times, (a, b), v) && #[trigger] call_ensures(A::times, (a, b), w) ==> v == w
    &&& forall|a: A::Num, b: A::Num, v: A::Num, w: A::Num| #[trigger]
        call_ensures(A::over, (a, b), v) && #[trigger] call_ensures(A::over, (a, b), w) ==> v == w
    &&& forall|a: A::Num, v: A::Num, w: A::Num| #[trigger]
        call_ensures(A::negated, (a,), v) && #[trigger] call_ensures(A::negated, (a,), w) ==> v == w
    &&& forall|a: A::Num, v: A::Num, w: A::Num| #[trigger]
        call_ensures(A::squared, (a,), v) && #[trigger] call_ensures(A::squared, (a,), w) ==> v == w
    &&& forall|f: Function, a: A::Num, v: A::Num, w: A::Num| #[trigger]
        maps::<A>(f, a, v) && #[trigger] maps::<A>(f, a, w) ==> v == w
    &&& forall|a: A::Num, b: A::Num, v: bool, w: bool| #[trigger]
        call_ensures(A::exceeds, (a, b), v) && #[trigger] call_ensures(A::exceeds, (a, b), w)
            ==> v == w
    &&& forall|a: A::Num, b: A::Num, v: bool, w: bool| #[trigger]
        call_ensures(A::differs, (a, b), v) && #[trigger] call_ensures(A::differs, (a, b), w)
            ==> v == w
    &&& forall|a: A::Num, v: bool, w: bool| #[trigger]
        call_ensures(A::is_infinite, (a,), v) && #[trigger] call_ensures(A::is_infinite, (a,), w)
            ==> v == w
}

/// An arithmetic that does not round gives each formula the real number that it denotes.
pub proof fn law_exact_value<A: Arithmetic>(t: Term<A::Num>, v: A::Num, m: Reading<A::Num>)
    requires
        is_exact::<A>(m),
        yields::<A>(t, v),
        defined(t, m),
    ensures
        (m.number)(v) == exact(t, m),
    decreases t,
{
    match t {
        Term::Val(_) | Term::Decimal(_, _) | Term::Pi => {},
        Term::Sum(a, b) => {
            let (x, y) = choose|x: A::Num, y: A::Num|
                yields::<A>(*a, x) && yields::<A>(*b, y) && #[trigger] call_ensures(
                    A::plus,
                    (x, y),
                    v,
                );
            law_exact_value::<A>(*a, x, m);
            law_exact_value::<A>(*b, y, m);
        },
        Term::Difference(a, b) => {
            let (x, y) = choose|x: A::Num, y: A::Num|
                yields::<A>(*a, x) && yields::<A>(*b, y) && #[trigger] call_ensures(
                    A::minus,
                    (x, y),
                    v,
                );
            law_exact_value::<A>(*a, x, m);
            law_exact_value::<A>(*b, y, m);
        },
        Term::Product(a, b) => {
            let (x, y) = choose|x: A::Num, y: A::Num|
                yields::<A>(*a, x) && yields::<A>(*b, y) && #[trigger] call_ensures(
                    A::times,
                    (x, y),
                    v,
                );
            law_exact_value::<A>(*a, x, m);
            law_exact_value::<A>(*b, y, m);
        },
        Term::Quotient(a, b) => {
            let (x, y) = choose|x: A::Num, y: A::Num|
                yields::<A>(*a, x) && yields::<A>(*b, y) && #[trigger] call_ensures(
                    A::over,
                    (x, y),
                    v,
                );
            law_exact_value::<A>(*a, x, m);
            law_exact_value::<A>(*b, y, m);
        },
        Term::Negation(a) => {
            let x = choose|x: A::Num|
                yields::<A>(*a, x) && #[trigger] call_ensures(A::negated, (x,), v);
            law_exact_value::<A>(*a, x, m);
        },
        Term::Square(a) => {
            let x = choose|x: A::Num|
                yields::<A>(*a, x) && #[trigger] call_ensures(A::squared, (x,), v);
            law_exact_value::<A>(*a, x, m);
        },
        Term::Image(f, a) => {
            let x = choose|x: A::Num| yields::<A>(*a, x) && #[trigger] maps::<A>(f, x, v);
            law_exact_value::<A>(*a, x, m);
        },
    }
}

/// A formula has one value, where the operations are functions of their operands.
pub proof fn law_one_value<A: Arithmetic>(t: Term<A::Num>, v: A::Num, w: A::Num)
    requires
        is_deterministic::<A>(),
        yields::<A>(t, v),
        yields::<A>(t, w),
    ensures
        v == w,
    decreases t,
{
    match t {
        Term::Val(_) | Term::Decimal(_, _) | Term::Pi => {},
        Term::Sum(a, b) => {
            let (x, y) = choose|x: A::Num, y: A::Num|
                yields::<A>(*a, x) && yields::<A>(*b, y) && #[trigger] call_ensures(
                    A::plus,
                    (x, y),
                    v,
                );
            let (p, q) = choose|p: A::Num, q: A::Num|
                yields::<A>(*a, p) && yields::<A>(*b, q) && #[trigger] call_ensures(
                    A::plus,
                    (p, q),
                    w,
                );
            law_one_value::<A>(*a, x, p);
            law_one_value::<A>(*b, y, q);
        },
        Term::Difference(a, b) => {
            let (x, y) = choose|x: A::Num, y: A::Num|
                yields::<A>(*a, x) && yields::<A>(*b, y) && #[trigger] call_ensures(
                    A::minus,
                    (x, y),
                    v,
                );
            let (p, q) = choose|p: A::Num, q: A::Num|
                yields::<A>(*a, p) && yields::<A>(*b, q) && #[trigger] call_ensures(
                    A::minus,
                    (p, q),
                    w,
                );
            law_one_value::<A>(*a, x, p);
            law_one_value::<A>(*b, y, q);
        },
        Term::Product(a, b) => {
            let (x, y) = choose|x: A::Num, y: A::Num|
                yields::<A>(*a, x) && yields::<A>(*b, y) && #[trigger] call_ensures(
                    A::times,
                    (x, y),
                    v,
                );
            let (p, q) = choose|p: A::Num, q: A::Num|
                yields::<A>(*a, p) && yields::<A>(*b, q) && #[trigger] call_ensures(
                    A::times,
                    (p, q),
                    w,
                );
            law_one_value::<A>(*a, x, p);
            law_one_value::<A>(*b, y, q);
        },
        Term::Quotient(a, b) => {
            let (x, y) = choose|x: A::Num, y: A::Num|
                yields::<A>(*a, x) && yields::<A>(*b, y) && #[trigger] call_ensures(
                    A::over,
                    (x, y),
                    v,
                );
            let (p, q) = choose|p: A::Num, q: A::Num|
                yields::<A>(*a, p) && yields::<A>(*b, q) && #[trigger] call_ensures(
                    A::over,
                    (p, q),
                    w,
                );
            law_one_value::<A>(*a, x, p);
            law_one_value::<A>(*b, y, q);
        },
        Term::Negation(a) => {
            let x = choose|x: A::Num|
                yields::<A>(*a, x) && #[trigger] call_ensures(A::negated, (x,), v);
            let p = choose|p: A::Num|
                yields::<A>(*a, p) && #[trigger] call_ensures(A::negated, (p,), w);
            law_one_value::<A>(*a, x, p);
        },
        Term::Square(a) => {
            let x = choose|x: A::Num|
                yields::<A>(*a, x) && #[trigger] call_ensures(A::squared, (x,), v);
            let p = choose|p: A::Num|
                yields::<A>(*a, p) && #[trigger] call_ensures(A::squared, (p,), w);
            law_one_value::<A>(*a, x, p);
        },
        Term::Image(f, a) => {
            let x = choose|x: A::Num| yields::<A>(*a, x) && #[trigger] maps::<A>(f, x, v);
            let p = choose|p: A::Num| yields::<A>(*a, p) && #[trigger] maps::<A>(f, p, w);
            law_one_value::<A>(*a, x, p);
        },
    }
}

/// What a sum was computed from.
pub(crate) proof fn lemma_sum<A: Arithmetic>(s: Term<A::Num>, t: Term<A::Num>, v: A::Num) -> (r: (
    A::Num,
    A::Num,
))
    requires
        yields::<A>(s.plus(t), v),
    ensures
        yields::<A>(s, r.0),
        yields::<A>(t, r.1),
        call_ensures(A::plus, (r.0, r.1), v),
{
    choose|x: A::Num, y: A::Num|
        yields::<A>(s, x) && yields::<A>(t, y) && #[trigger] call_ensures(
            A::plus,
            (x, y),
            v,
        )
}

/// What a difference was computed from.
pub(crate) proof fn lemma_difference<A: Arithmetic>(s: Term<A::Num>, t: Term<A::Num>, v: A::Num) -> (r: (
    A::Num,
    A::Num,
))
    requires
        yields::<A>(s.minus(t), v),
    ensures
        yields::<A>(s, r.0),
        yields::<A>(t, r.1),
        call_ensures(A::minus, (r.0, r.1), v),
{
    choose|x: A::Num, y: A::Num|
        yields::<A>(s, x) && yields::<A>(t, y) && #[trigger] call_ensures(
            A::minus,
            (x, y),
            v,
        )
}

/// What a product was computed from.
pub(crate) proof fn lemma_product<A: Arithmetic>(s: Term<A::Num>, t: Term<A::Num>, v: A::Num) -> (r: (
    A::Num,
    A::Num,
))
    requires
        yields::<A>(s.times(t), v),
    ensures
        yields::<A>(s, r.0),
        yields::<A>(t, r.1),
        call_ensures(A::times, (r.0, r.1), v),
{
    choose|x: A::Num, y: A::Num|
        yields::<A>(s, x) && yields::<A>(t, y) && #[trigger] call_ensures(
            A::times,
            (x, y),
            v,
        )
}

/// What a quotient was computed from.
pub(crate) proof fn lemma_quotient<A: Arithmetic>(s: Term<A::Num>, t: Term<A::Num>, v: A::Num) -> (r: (
    A::Num,
    A::Num,
))
    requires
        yields::<A>(s.over(t), v),
    ensures
        yields::<A>(s, r.0),
        yields::<A>(t, r.1),
        call_ensures(A::over, (r.0, r.1), v),
{
    choose|x: A::Num, y: A::Num|
        yields::<A>(s, x) && yields::<A>(t, y) && #[trigger] call_ensures(
            A::over,
            (x, y),
            v,
        )
}

/// What a function was applied to.
pub(crate) proof fn lemma_image<A: Arithmetic>(f: Function, t: Term<A::Num>, v: A::Num) -> (r:
    A::Num)
    requires
        yields::<A>(Term::Image(f, Box::new(t)), v),
    ensures
        yields::<A>(t, r),
        maps::<A>(f, r, v),
{
    choose|x: A::Num| yields::<A>(t, x) && #[trigger] maps::<A>(f, x, v)
}

/// What an opposite was computed from.
pub(crate) proof fn lemma_negation<A: Arithmetic>(t: Term<A::Num>, v: A::Num) -> (r: A::Num)
    requires
        yields::<A>(t.negated(), v),
    ensures
        yields::<A>(t, r),
        call_ensures(A::negated, (r,), v),
{
    choose|x: A::Num| yields::<A>(t, x) && #[trigger] call_ensures(A::negated, (x,), v)
}

} // verus!
