//! A runtime for applications built from isolates.
//!
//! An isolate is a unit of logic that is driven by messages. In a turn it handles one message and
//! describes what should happen next as effects: operations to submit, waits to arm, messages to
//! send, isolates to spawn. The runtime interprets the effects, distributes the events that follow
//! from them, and schedules the turns.
//!
//! [`runtime`] runs isolates on a driver of operations and its completions; [`mailbox`] runs
//! isolates that exchange messages of their own and arm waits. [`echo`] is a service on the first.

pub mod arena;
pub mod calls;
pub mod completion;
pub mod echo;
pub mod effects;
pub mod io;
pub mod mailbox;
pub mod runtime;
