//! The errors of the scheduler.

use vstd::prelude::*;

use crate::arena::ArenaError;

use super::effects::EffectsError;

verus! {

#[derive(Debug, PartialEq, Eq, Structural)]
pub enum RuntimeError {
    Arena(ArenaError),
    Effects(EffectsError),
    QueueFull,
    WaitQueueFull,
}

impl From<ArenaError> for RuntimeError {
    fn from(value: ArenaError) -> (error: Self) {
        Self::Arena(value)
    }
}

impl vstd::std_specs::convert::FromSpecImpl<ArenaError> for RuntimeError {
    open spec fn obeys_from_spec() -> bool {
        true
    }

    open spec fn from_spec(value: ArenaError) -> Self {
        RuntimeError::Arena(value)
    }
}

impl From<EffectsError> for RuntimeError {
    fn from(value: EffectsError) -> (error: Self) {
        Self::Effects(value)
    }
}

impl vstd::std_specs::convert::FromSpecImpl<EffectsError> for RuntimeError {
    open spec fn obeys_from_spec() -> bool {
        true
    }

    open spec fn from_spec(value: EffectsError) -> Self {
        RuntimeError::Effects(value)
    }
}

} // verus!
