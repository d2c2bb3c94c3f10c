//! The errors of the runtime.

use vstd::prelude::*;

use crate::arena::ArenaError;
use crate::completion::CompletionError;
use crate::effects::EffectsError;
use crate::io::IoError;

verus! {

#[derive(Debug, PartialEq, Eq, Structural)]
pub enum RuntimeError {
    Arena(ArenaError),
    Completion(CompletionError),
    Effects(EffectsError),
    Io(IoError),
    QueueFull,
}

impl From<ArenaError> for RuntimeError {
    fn from(value: ArenaError) -> (error: Self) {
        Self::Arena(value)
    }
}

impl vstd::std_specs::convert::FromSpecImpl<ArenaError> for RuntimeError {
    open spec fn obeys_from_spec() -> bool {
        true
    }

    open spec fn from_spec(value: ArenaError) -> Self {
        RuntimeError::Arena(value)
    }
}

impl From<CompletionError> for RuntimeError {
    fn from(value: CompletionError) -> (error: Self) {
        Self::Completion(value)
    }
}

impl vstd::std_specs::convert::FromSpecImpl<CompletionError> for RuntimeError {
    open spec fn obeys_from_spec() -> bool {
        true
    }

    open spec fn from_spec(value: CompletionError) -> Self {
        RuntimeError::Completion(value)
    }
}

impl From<EffectsError> for RuntimeError {
    fn from(value: EffectsError) -> (error: Self) {
        Self::Effects(value)
    }
}

impl vstd::std_specs::convert::FromSpecImpl<EffectsError> for RuntimeError {
    open spec fn obeys_from_spec() -> bool {
        true
    }

    open spec fn from_spec(value: EffectsError) -> Self {
        RuntimeError::Effects(value)
    }
}

impl From<IoError> for RuntimeError {
    fn from(value: IoError) -> (error: Self) {
        Self::Io(value)
    }
}

impl vstd::std_specs::convert::FromSpecImpl<IoError> for RuntimeError {
    open spec fn obeys_from_spec() -> bool {
        true
    }

    open spec fn from_spec(value: IoError) -> Self {
        RuntimeError::Io(value)
    }
}

} // verus!
