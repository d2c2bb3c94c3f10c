# command-io

A runtime for applications built from isolates: units of logic that are driven by messages, and that
describe what should happen next as a list of effects instead of doing it themselves. The runtime
interprets the effects, distributes events and schedules the isolates, one turn at a time.

The library is written in Verus. Every function states in its contract what it returns or changes,
and the proofs are checked together with the code.

## Layout

- `src/arena.rs`: a store of objects addressed by generational handles.
- `src/completion.rs`: completions, through which an isolate follows its operations.
- `src/effects.rs`, `src/io.rs`: what an isolate can ask for, the operations of a driver, and a
  driver that completes everything in process.
- `src/runtime/`: the loop around a driver, and the server that runs isolates on it. `model.rs` and
  `tracking.rs` state what holds of them as a whole, `determinism.rs` and `replay.rs` that servers
  that are alike, in the sense of `alike.rs`, stay so.
- `src/mailbox/`: a scheduler of isolates that exchange messages of their own and arm waits, alone,
  as a race or as a join. `laws.rs`, `tracking.rs`, `determinism.rs` and `replay.rs` state what holds
  of it as a whole.
- `src/echo.rs`: the logic of an echo service.
- `app/`: the echo server itself, with sockets and a driver over `poll(2)`.
- `tests/`: the library on concrete values.

What an isolate, a driver or a wait backend does is up to its implementer. The traits express it as
relations between the state before a call, its arguments, the state after it and the reply, and the
contracts of the runtime are stated over those relations.

Properties that relate several functions are public proof functions whose names start with `law_`.
