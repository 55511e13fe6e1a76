//! A zero-delay feedback filter, based on a state variable filter.
//!
//! The filter is a loop of two integrators whose feedback is damped and saturated. Its equations
//! ([`equations`]) hold the present outputs on both sides, so each sample is solved for: exactly
//! where nothing saturates ([`filter`]), by Mystran's fixed-pivot method, which puts lines in
//! the place of the saturators ([`pivotal`]), or by Newton's method ([`newton`]). The damping is
//! anti-saturated, so that it does not disappear at high gains.
//!
//! The library is written over any [`arithmetic::Arithmetic`]. What a function computes is stated
//! as a formula ([`term::Term`]): the arithmetic's own operations, in the order in which they are
//! applied. What follows from the formulas, for every arithmetic or where nothing is rounded
//! ([`reading`]), is the matter of [`laws`], [`linearity`], [`symmetry`], [`steady`],
//! [`small_signals`], [`iterates`], [`methods`], [`solvers`], [`samples`], [`settings`] and
//! [`determinism`]. What holds of an arithmetic that rounds ([`rounding`]) is stated in [`order`],
//! [`rounded_signals`] and [`rounded_pivots`]. That the operations, as they are called, are what the
//! laws speak of is stated in [`calls`].

mod algebra;
pub mod arithmetic;
pub mod calls;
pub mod determinism;
pub mod equations;
pub mod filter;
pub mod iterates;
pub mod laws;
pub mod linearity;
pub mod methods;
pub mod newton;
pub mod order;
pub mod parameters;
pub mod pivotal;
pub mod plugin;
pub mod process;
mod quantity;
pub mod reading;
pub mod rounded_pivots;
pub mod rounded_signals;
pub mod rounding;
pub mod samples;
pub mod settings;
pub mod small_signals;
pub mod solvers;
pub mod steady;
pub mod symmetry;
pub mod term;
