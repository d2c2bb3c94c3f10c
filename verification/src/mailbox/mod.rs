//! A scheduler of isolates that talk by messages: an isolate sends messages, arms waits on outside
//! resources, alone or in groups, and is told by message when a wait completes.

pub mod applying;
pub mod backend;
pub mod delivery;
pub mod determinism;
pub mod effects;
pub mod error;
pub mod interpreter;
pub mod laws;
pub mod registry;
pub mod replay;
pub mod scheduler;
pub mod steps;
pub mod tracking;
pub mod turn;

pub use backend::{FakeBackendState, FakeWaitBackend, WaitBackend};
pub use effects::{Action, EffectsError, OpToken, RuntimeMessage, Wait};
pub use error::RuntimeError;
pub use registry::{Delivery, Envelope, GroupState, InFlight, Pumped, RegistryState, WaitRegistry};
pub use interpreter::{EffectInterpreter, MailState};
pub use scheduler::{Isolate, Scheduler, SchedulerState, StepResult};
pub use turn::{Armed, BuilderState, GroupPolicy, GroupSpec, GroupSpecState, TurnEffects};
