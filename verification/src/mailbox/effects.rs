//! What an isolate can ask for in a turn.

use vstd::prelude::*;

use crate::arena::Handle;

verus! {

/// A message that the scheduler delivers to an isolate.
#[derive(Clone, Debug, PartialEq, Eq)]
pub enum RuntimeMessage<M> {
    Init,
    User(M),
}

/// Correlation token minted for each armed [`Wait`].
///
/// The token is returned to the isolate that arms a wait, and comes back with the message that
/// reports its completion, so that the isolate can tell which of its waits completed.
#[derive(Clone, Copy, Debug, PartialEq, Eq, Hash, Structural)]
pub struct OpToken(pub u32);

/// The resource that a suspended operation waits on.
///
/// A wait only names what to wait on. Which isolate armed it, and the message to deliver, is kept
/// by the scheduler's wait registry.
#[derive(Clone, Copy, Debug, PartialEq, Eq, Structural)]
pub enum Wait {
    Accept { listener: u32 },
    Recv { source: u32 },
    Write { sink: u32 },
    Timer { ticks: u32 },
}

#[derive(Clone, Debug, PartialEq, Eq)]
pub enum Action<M> {
    Send { target: Handle, message: RuntimeMessage<M> },
    SendSelf { message: M },
    DestroySelf,
    /// Cancels an armed operation by its token. Cancelling one that has completed, or an unknown
    /// one, does nothing.
    Cancel { token: OpToken },
}

impl<M> Action<M> {
    /// The action puts a message into the queue.
    pub open spec fn sends(self) -> bool {
        self is Send || self is SendSelf
    }
}

#[derive(Clone, Copy, Debug, PartialEq, Eq, Structural)]
pub enum EffectsError {
    /// The turn holds as many actions as it takes.
    ActionsFull,
    /// The turn holds as many waits as it takes.
    WaitsFull,
}

} // verus!
