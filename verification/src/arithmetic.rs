//! The number type that the filter computes with.

use vstd::prelude::*;

verus! {

/// The arithmetic of one kind of number, such as single-precision floats.
///
/// Nothing is asked of these operations: they may round, saturate, overflow to an infinity or
/// return something that is no number. The contracts of this library say which operation was
/// applied to which operands, and in which order.
pub trait Arithmetic: Sized {
    /// The numbers themselves.
    type Num: Copy;

    /// The decimal number `mantissa / 10^places`.
    fn decimal(mantissa: i32, places: u32) -> Self::Num;

    /// The ratio of a circle's circumference to its diameter.
    fn pi() -> Self::Num;

    /// `a + b`.
    fn plus(a: Self::Num, b: Self::Num) -> Self::Num;

    /// `a - b`.
    fn minus(a: Self::Num, b: Self::Num) -> Self::Num;

    /// `a * b`.
    fn times(a: Self::Num, b: Self::Num) -> Self::Num;

    /// `a / b`.
    fn over(a: Self::Num, b: Self::Num) -> Self::Num;

    /// `-a`.
    fn negated(a: Self::Num) -> Self::Num;

    /// `a` raised to the power two.
    fn squared(a: Self::Num) -> Self::Num;

    /// The tangent of `a`.
    fn tan(a: Self::Num) -> Self::Num;

    /// The hyperbolic tangent of `a`.
    fn tanh(a: Self::Num) -> Self::Num;

    /// The hyperbolic sine of `a`.
    fn sinh(a: Self::Num) -> Self::Num;

    /// The hyperbolic cosine of `a`.
    fn cosh(a: Self::Num) -> Self::Num;

    /// The inverse hyperbolic sine of `a`.
    fn asinh(a: Self::Num) -> Self::Num;

    /// The absolute value of `a`.
    fn abs(a: Self::Num) -> Self::Num;

    /// Whether `a > b`.
    fn exceeds(a: Self::Num, b: Self::Num) -> bool;

    /// Whether `a != b`.
    fn differs(a: Self::Num, b: Self::Num) -> bool;

    /// Whether `a` is an infinity.
    fn is_infinite(a: Self::Num) -> bool;
}

} // verus!
