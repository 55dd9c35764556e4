//! The heating mode as the device reports it.

use crate::schedule::entry::HeatingState;
use vstd::prelude::*;

verus! {

/// The mode that the device reports: off, or heating.
#[derive(Debug, Clone, Copy, PartialEq, Eq, Structural)]
pub enum ApiHeatingState {
    Off,
    Heat,
}

impl Default for ApiHeatingState {
    fn default() -> (state: ApiHeatingState)
        ensures
            state == ApiHeatingState::Off,
    {
        ApiHeatingState::Off
    }
}

impl From<ApiHeatingState> for HeatingState {
    /// A device that heats is on.
    fn from(state: ApiHeatingState) -> (heating: HeatingState) {
        match state {
            ApiHeatingState::Off => HeatingState::Off,
            ApiHeatingState::Heat => HeatingState::On,
        }
    }
}

impl vstd::std_specs::convert::FromSpecImpl<ApiHeatingState> for HeatingState {
    open spec fn obeys_from_spec() -> bool {
        true
    }

    open spec fn from_spec(state: ApiHeatingState) -> HeatingState {
        match state {
            ApiHeatingState::Off => HeatingState::Off,
            ApiHeatingState::Heat => HeatingState::On,
        }
    }
}

} // verus!
