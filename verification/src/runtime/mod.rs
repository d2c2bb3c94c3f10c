//! The runtime: isolates take turns, one message at a time, and a loop brings them the results of
//! the operations that they submitted.

pub mod alike;
pub mod context;
pub mod determinism;
pub mod error;
pub mod io_loop;
pub mod laws;
pub mod model;
pub mod replay;
pub mod server;
pub mod tracking;

pub use context::{ContextState, IoContext, Isolate, TurnState};
pub use error::RuntimeError;
pub use io_loop::{IoLoop, LoopState, Reaped};
pub use model::{Envelope, IsolateSlot, Routed, ServerState, Snapshot, StepResult};
pub use server::Server;
