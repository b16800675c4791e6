//! A world of two kinds of weather and a window that reacts to them.

use vstd::laws_eq::obeys_concrete_eq;
use vstd::prelude::*;
use vstd::std_specs::cmp::PartialEqSpecImpl;

verus! {

/// What the agent perceives outside.
#[derive(Eq, Hash, Clone, Copy, Debug)]
pub enum Weather {
    Sunny,
    Rainy,
}

impl PartialEq for Weather {
    fn eq(&self, other: &Weather) -> (same: bool) {
        match (self, other) {
            (Weather::Sunny, Weather::Sunny) => true,
            (Weather::Rainy, Weather::Rainy) => true,
            _ => false,
        }
    }
}

impl PartialEqSpecImpl for Weather {
    open spec fn obeys_eq_spec() -> bool {
        true
    }

    open spec fn eq_spec(&self, other: &Weather) -> bool {
        *self == *other
    }
}

/// Two weathers compare equal exactly when they are the same weather, so
/// sequences of them can serve as keys of a table.
pub proof fn lemma_weather_equality()
    ensures
        obeys_concrete_eq::<Weather>(),
{
    reveal(obeys_concrete_eq);
}

/// What the agent does with the window.
#[derive(PartialEq, Eq, Structural, Clone, Copy, Debug)]
pub enum Window {
    Open,
    Close,
}

} // verus!
