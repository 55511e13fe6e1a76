//! The filter as a plugin: how it is made, and what it tells its host.

use crate::arithmetic::Arithmetic;
use crate::filter::SVF;
use crate::parameters::{FilterParameters, Panel};
use crate::quantity::Quantity;
use crate::term;
use vstd::prelude::*;

verus! {

/// What the plugin tells its host about itself.
pub struct PluginInfo {
    pub name: String,
    pub unique_id: i32,
    pub inputs: i32,
    pub outputs: i32,
    pub parameters: i32,
    pub category: PluginCategory,
}

/// The kinds of plugin that a host tells apart.
#[derive(Clone, Copy, Debug, PartialEq, Eq, Structural)]
pub enum PluginCategory {
    Unknown,
    Effect,
}

impl<A: Arithmetic> SVF<A> {
    /// Whether nothing has passed through the filter yet.
    pub open spec fn at_rest(self) -> bool {
        &&& forall|n: int| 0 <= n < 2 ==> term::yields::<A>(term::num(0), #[trigger] self.vout[n])
        &&& forall|n: int| 0 <= n < 2 ==> term::yields::<A>(term::num(0), #[trigger] self.s[n])
    }

    /// A filter with given parameters, at rest.
    pub fn with_parameters(params: FilterParameters<A>) -> (filter: Self)
        ensures
            filter.params == params,
            filter.at_rest(),
    {
        let zero = Quantity::<A>::num(0).get();
        SVF { params, vout: [zero, zero], s: [zero, zero] }
    }

    /// Takes over a new sample rate.
    pub fn set_sample_rate(&mut self, rate: A::Num)
        ensures
            FilterParameters::rated(old(self).params, rate, final(self).params),
            final(self).vout == old(self).vout,
            final(self).s == old(self).s,
    {
        self.params.set_sample_rate(rate);
    }

    /// What the plugin tells its host about itself.
    pub fn get_info(&self) -> (info: PluginInfo)
        ensures
            info.name@ == "SVF"@,
            info.unique_id == 80371372,
            info.inputs == 1,
            info.outputs == 1,
            info.parameters == 4,
            info.category == PluginCategory::Effect,
    {
        PluginInfo {
            name: "SVF".to_owned(),
            unique_id: 80371372,
            inputs: 1,
            outputs: 1,
            parameters: 4,
            category: PluginCategory::Effect,
        }
    }
}

impl<P: Panel> SVF<P> {
    /// A filter with the panel's parameters, at rest.
    pub fn new() -> (filter: Self)
        ensures
            call_ensures(P::default_parameters, (), filter.params),
            filter.at_rest(),
    {
        Self::with_parameters(P::default_parameters())
    }
}

impl<P: Panel> Default for SVF<P> {
    /// A filter with the panel's parameters, at rest.
    fn default() -> (filter: Self)
        ensures
            call_ensures(P::default_parameters, (), filter.params),
            filter.at_rest(),
    {
        Self::new()
    }
}

} // verus!
