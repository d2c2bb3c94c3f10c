//! What a step of the scheduler is for: completions are delivered, the backend is polled once, and
//! the isolate that the first message is for has its turn.

use vstd::prelude::*;

use crate::arena::{ArenaError, Handle};

use super::backend::{WaitBackend, Waiting};
use super::effects::{OpToken, RuntimeMessage};
use super::error::RuntimeError;
use super::interpreter::MailState;
use super::registry::{Envelope, Pumped, RegistryState};
use super::scheduler::{Isolate, SchedulerState, StepResult};
use super::turn::BuilderState;

verus! {

/// Two schedulers that differ in isolates, messages, operations and backend at most.
pub open spec fn same_sizes<I, M, B>(
    pre: SchedulerState<I, M, B>,
    post: SchedulerState<I, M, B>,
) -> bool {
    &&& post.queue_capacity == pre.queue_capacity
    &&& post.max_actions == pre.max_actions
    &&& post.max_waits == pre.max_waits
}

/// A message that is enqueued goes to the end of the queue, to whom it is for, and reports no
/// operation; it is refused only where the queue is full, and then nothing changes.
pub proof fn law_enqueued_message_is_last<I, M, B>(
    pre: SchedulerState<I, M, B>,
    target: Handle,
    message: RuntimeMessage<M>,
    post: SchedulerState<I, M, B>,
    outcome: Result<(), RuntimeError>,
)
    requires
        pre.wf(),
        pre.enqueued(target, message, post, outcome),
    ensures
        same_sizes(pre, post),
        post.next_token == pre.next_token,
        post.next_group == pre.next_group,
        post.mail.arena == pre.mail.arena,
        post.mail.registry == pre.mail.registry,
        post.mail.backend == pre.mail.backend,
        match outcome {
            Ok(_) => {
                &&& pre.mail.queue.len() < pre.queue_capacity
                &&& post.mail.queue == pre.mail.queue.push(
                    Envelope { target, message, token: None },
                )
            },
            Err(error) => {
                &&& pre.mail.queue.len() == pre.queue_capacity
                &&& error == RuntimeError::QueueFull
                &&& post.mail.queue == pre.mail.queue
            },
        },
{
}

/// An isolate that is spawned is there under the handle that is returned, which named nothing
/// before, its first message stands at the end of the queue, and every other isolate is as it was.
/// It is refused where every slot holds an isolate, and nothing changes; where the queue is full the
/// isolate stays, without a message.
pub proof fn law_spawned_isolate_is_there<I, M, B>(
    pre: SchedulerState<I, M, B>,
    isolate: I,
    post: SchedulerState<I, M, B>,
    outcome: Result<Handle, RuntimeError>,
    other: Handle,
)
    requires
        pre.wf(),
        pre.spawned(isolate, post, outcome),
    ensures
        same_sizes(pre, post),
        post.next_token == pre.next_token,
        post.next_group == pre.next_group,
        post.mail.registry == pre.mail.registry,
        post.mail.backend == pre.mail.backend,
        pre.mail.arena.has(other) ==> post.mail.arena.has(other) && post.mail.arena.at(other)
            == pre.mail.arena.at(other),
        match outcome {
            Ok(handle) => {
                &&& pre.mail.arena.len < pre.mail.arena.slots.len()
                &&& pre.mail.queue.len() < pre.queue_capacity
                &&& !pre.mail.arena.has(handle)
                &&& post.mail.arena.has(handle)
                &&& post.mail.arena.at(handle) == isolate
                &&& post.mail.arena.len == pre.mail.arena.len + 1
                &&& post.mail.queue == pre.mail.queue.push(
                    Envelope { target: handle, message: RuntimeMessage::Init, token: None },
                )
            },
            Err(error) => {
                &&& post.mail.queue == pre.mail.queue
                &&& if pre.mail.arena.len == pre.mail.arena.slots.len() {
                    &&& error == RuntimeError::Arena(ArenaError::Full)
                    &&& post.mail.arena == pre.mail.arena
                } else {
                    &&& pre.mail.queue.len() == pre.queue_capacity
                    &&& error == RuntimeError::QueueFull
                    &&& post.mail.arena.len == pre.mail.arena.len + 1
                    &&& exists|handle: Handle| #[trigger]
                        post.mail.arena.has(handle) && !pre.mail.arena.has(handle)
                            && post.mail.arena.at(handle) == isolate
                }
            },
        },
{
    if !pre.mail.arena.full() {
        assert(pre.mail.arena.free.contains(pre.mail.arena.free.last()));
        assert(post.mail.arena.has(pre.mail.arena.next_handle()));
    }
}

/// Ready completions have been delivered: what delivering them in order gives is in the registry and
/// in the queue, and the backend has been told of the operations that it cancels. Nothing else has
/// changed.
pub open spec fn is_delivered<I, M, B: WaitBackend>(
    pre: SchedulerState<I, M, B>,
    post: SchedulerState<I, M, B>,
) -> bool {
    let pumped = (Pumped {
        registry: pre.mail.registry,
        queue: pre.mail.queue,
        cancelled: Seq::empty(),
    }).pump(pre.queue_capacity);
    &&& same_sizes(pre, post)
    &&& post.next_token == pre.next_token
    &&& post.next_group == pre.next_group
    &&& post.mail.arena == pre.mail.arena
    &&& post.mail.registry == pumped.registry
    &&& post.mail.queue == pumped.queue
    &&& super::backend::may_cancel_all(
        pre.mail.backend,
        pumped.cancelled,
        post.mail.backend,
    )
}

/// The backend has been polled, which reported `tokens` and answered `progress`; unless it failed,
/// the tokens are ready behind the others. Nothing else has changed.
pub open spec fn is_polled<I, M, B: WaitBackend>(
    pre: SchedulerState<I, M, B>,
    tokens: Seq<OpToken>,
    progress: Result<bool, RuntimeError>,
    post: SchedulerState<I, M, B>,
) -> bool {
    &&& same_sizes(pre, post)
    &&& post.next_token == pre.next_token
    &&& post.next_group == pre.next_group
    &&& post.mail.arena == pre.mail.arena
    &&& post.mail.queue == pre.mail.queue
    &&& post.mail.registry.in_flight == pre.mail.registry.in_flight
    &&& post.mail.registry.groups == pre.mail.registry.groups
    &&& post.mail.registry.ready == if progress is Ok {
        pre.mail.registry.ready + tokens
    } else {
        pre.mail.registry.ready
    }
    &&& pre.mail.backend.may_poll(Seq::empty(), post.mail.backend, tokens, progress)
}

/// `post` is `pre` without its first message.
pub open spec fn is_popped<I, M, B>(
    pre: SchedulerState<I, M, B>,
    post: SchedulerState<I, M, B>,
) -> bool {
    &&& same_sizes(pre, post)
    &&& post.next_token == pre.next_token
    &&& post.next_group == pre.next_group
    &&& post.mail.arena == pre.mail.arena
    &&& post.mail.registry == pre.mail.registry
    &&& post.mail.backend == pre.mail.backend
    &&& post.mail.queue == pre.mail.queue.skip(1)
}

/// A step delivers completions that had no room before, polls the backend, once, and delivers what
/// it reports; only then it takes the first message. Where there is none, it says that waits
/// advanced if the poll made progress, that it is blocked if it did not and something is still
/// pending or in flight, and that it is idle if nothing is. A message for an isolate that is gone is
/// dropped. Where the poll fails, its error is the error of the step, and no message is taken.
pub proof fn law_step_delivers_polls_and_dispatches<I: Isolate, B: WaitBackend>(
    pre: SchedulerState<I, I::Message, B>,
    post: SchedulerState<I, I::Message, B>,
    outcome: Result<StepResult, RuntimeError>,
) -> (parts: (
    SchedulerState<I, I::Message, B>,
    SchedulerState<I, I::Message, B>,
    Seq<OpToken>,
    Result<bool, RuntimeError>,
    SchedulerState<I, I::Message, B>,
))
    requires
        pre.wf(),
        pre.may_step(post, outcome),
    ensures
        ({
            let (delivered, polled, tokens, progress, ready) = parts;
            &&& is_delivered(pre, delivered)
            &&& is_polled(delivered, tokens, progress, polled)
            &&& match progress {
                Err(error) => post == polled && outcome == Err::<StepResult, _>(error),
                Ok(progressed) => {
                    let queue = ready.mail.queue;
                    &&& is_delivered(polled, ready)
                    &&& ready.wf()
                    &&& if queue.len() == 0 {
                        &&& post == ready
                        &&& if progressed {
                            outcome == Ok::<_, RuntimeError>(StepResult::AdvancedWaits)
                        } else {
                            exists|pending: bool| #[trigger]
                                ready.mail.backend.may_answer_has_pending(pending) && outcome
                                    == Ok::<_, RuntimeError>(
                                    if pending || ready.mail.registry.ready.len() > 0 || exists|
                                        token: u32,
                                    | #[trigger] ready.mail.registry.in_flight.contains_key(token) {
                                        StepResult::Blocked
                                    } else {
                                        StepResult::Idle
                                    },
                                )
                        }
                    } else if !ready.mail.arena.has(queue[0].target) {
                        &&& is_popped(ready, post)
                        &&& outcome == Ok::<_, RuntimeError>(StepResult::DroppedInvalid)
                    } else {
                        &&& outcome matches Ok(result) ==> result == StepResult::ProcessedOne
                        &&& exists|popped: SchedulerState<I, I::Message, B>| #[trigger]
                            is_popped(ready, popped) && popped.may_take_turn(
                                queue[0],
                                post,
                                outcome,
                            )
                    }
                },
            }
        }),
{
    let (delivered, polled, progress) = choose|
        delivered: SchedulerState<I, I::Message, B>,
        polled: SchedulerState<I, I::Message, B>,
        progress: Result<bool, RuntimeError>,
    |
        #[trigger] pre.may_pump(delivered) && #[trigger] delivered.may_poll(polled, progress)
            && match progress {
            Err(error) => post == polled && outcome == Err::<StepResult, _>(error),
            Ok(progressed) => exists|ready: SchedulerState<I, I::Message, B>| #[trigger]
                polled.may_pump(ready) && ready.may_dispatch(progressed, post, outcome),
        };
    let tokens = choose|tokens: Seq<OpToken>| #[trigger]
        delivered.mail.backend.may_poll(Seq::empty(), polled.mail.backend, tokens, progress)
            && polled == delivered.with_mail(
            MailState {
                backend: polled.mail.backend,
                registry: if progress is Ok {
                    RegistryState {
                        ready: delivered.mail.registry.ready + tokens,
                        ..delivered.mail.registry
                    }
                } else {
                    delivered.mail.registry
                },
                ..delivered.mail
            },
        );
    super::laws::lemma_pumped(pre, delivered);
    match progress {
        Err(_) => (delivered, polled, tokens, progress, polled),
        Ok(progressed) => {
            let ready = choose|ready: SchedulerState<I, I::Message, B>| #[trigger]
                polled.may_pump(ready) && ready.may_dispatch(progressed, post, outcome);
            super::laws::lemma_pumped(polled, ready);
            super::delivery::law_empty_registry_waits_for_nothing(ready.mail.registry);
            if ready.mail.queue.len() > 0 {
                assert(is_popped(ready, ready.pop()));
                if ready.mail.arena.has(ready.mail.queue[0].target) {
                    let _ = super::laws::lemma_turn_parts(
                        ready.pop(),
                        ready.mail.queue[0],
                        post,
                        outcome,
                    );
                }
            } else if !progressed {
                let pending = choose|pending: bool| #[trigger]
                    ready.mail.backend.may_answer_has_pending(pending) && outcome == Ok::<
                        _,
                        RuntimeError,
                    >(
                        if pending || !ready.mail.registry.is_empty() {
                            StepResult::Blocked
                        } else {
                            StepResult::Idle
                        },
                    );
                assert(ready.mail.backend.may_answer_has_pending(pending));
            }
            (delivered, polled, tokens, progress, ready)
        },
    }
}

/// What a turn on `envelope` consists of. The isolate is handed the message and the token that it
/// reports, with an empty builder that goes on with the numbers of the scheduler, and turns into
/// `isolate`, asks for `built` and answers `handled`. In `turned` it is what it made of itself, and
/// all else is as it was. Where it fails, that is how the turn ends; otherwise what it asked for is
/// applied to `turned`.
pub open spec fn is_turn<I: Isolate, B: WaitBackend>(
    pre: SchedulerState<I, I::Message, B>,
    envelope: Envelope<I::Message>,
    isolate: I,
    built: BuilderState<I::Message>,
    handled: Result<(), RuntimeError>,
    turned: MailState<I, I::Message, B>,
    post: MailState<I, I::Message, B>,
    outcome: Result<StepResult, RuntimeError>,
) -> bool {
    let owner = envelope.target;
    let empty = BuilderState {
        actions: Seq::empty(),
        armed: Seq::empty(),
        groups: Seq::empty(),
        max_actions: pre.max_actions,
        max_waits: pre.max_waits,
        next_token: pre.next_token,
        next_group: pre.next_group,
    };
    &&& pre.mail.arena.at(owner).may_handle(
        envelope.message,
        envelope.token,
        empty,
        isolate,
        built,
        handled,
    )
    &&& turned.arena.has(owner)
    &&& turned.arena.at(owner) == isolate
    &&& turned.arena.len == pre.mail.arena.len
    &&& forall|other: Handle|
        #![trigger turned.arena.has(other)]
        #![trigger pre.mail.arena.has(other)]
        other != owner ==> {
            &&& turned.arena.has(other) == pre.mail.arena.has(other)
            &&& pre.mail.arena.has(other) ==> turned.arena.at(other) == pre.mail.arena.at(other)
        }
    &&& turned.queue == pre.mail.queue
    &&& turned.registry == pre.mail.registry
    &&& turned.backend == pre.mail.backend
    &&& match handled {
        Err(error) => post == turned && outcome == Err::<StepResult, _>(error),
        Ok(_) => exists|applied: Result<(), RuntimeError>|
            {
                &&& #[trigger] turned.may_interpret(
                    owner,
                    pre.queue_capacity,
                    built.actions,
                    built.armed,
                    built.groups,
                    post,
                    applied,
                )
                &&& match applied {
                    Ok(_) => outcome == Ok::<_, RuntimeError>(StepResult::ProcessedOne),
                    Err(error) => outcome == Err::<StepResult, _>(error),
                }
            },
    }
}

/// A message gives its isolate one turn: the isolate stays what it makes of itself, what it asks for
/// is applied, unless it fails, and the numbers that it was given are used up either way.
pub proof fn law_turn_is_handled_and_applied<I: Isolate, B: WaitBackend>(
    pre: SchedulerState<I, I::Message, B>,
    envelope: Envelope<I::Message>,
    post: SchedulerState<I, I::Message, B>,
    outcome: Result<StepResult, RuntimeError>,
) -> (parts: (I, BuilderState<I::Message>, Result<(), RuntimeError>, MailState<I, I::Message, B>))
    requires
        pre.wf(),
        pre.mail.arena.has(envelope.target),
        pre.may_take_turn(envelope, post, outcome),
    ensures
        is_turn(pre, envelope, parts.0, parts.1, parts.2, parts.3, post.mail, outcome),
        same_sizes(pre, post),
        post.next_token == parts.1.next_token,
        post.next_group == parts.1.next_group,
{
    let (isolate, built, handled, applied) = super::laws::lemma_turn_parts(
        pre,
        envelope,
        post,
        outcome,
    );
    let turned = pre.turned(envelope.target, isolate).mail;
    if handled is Ok {
        assert(turned.may_interpret(
            envelope.target,
            pre.queue_capacity,
            built.actions,
            built.armed,
            built.groups,
            post.mail,
            applied,
        ));
    }
    (isolate, built, handled, turned)
}

/// A run says how many messages it processed.
pub proof fn law_processed_messages_are_counted(results: Seq<StepResult>)
    ensures
        super::scheduler::processed_in(results) == results.filter(
            |result: StepResult| result == StepResult::ProcessedOne,
        ).len(),
    decreases results.len(),
{
    reveal(Seq::filter);
    if results.len() > 0 {
        law_processed_messages_are_counted(results.drop_last());
    }
}

/// One step that gives `result`; where it is blocked, the backend is waited for, and there is an
/// event.
pub open spec fn is_round<I: Isolate, B: WaitBackend>(
    waits: Waiting<B>,
    pre: SchedulerState<I, I::Message, B>,
    result: StepResult,
    post: SchedulerState<I, I::Message, B>,
) -> bool {
    exists|mid: SchedulerState<I, I::Message, B>| #[trigger]
        pre.may_step(mid, Ok(result)) && if result == StepResult::Blocked {
            is_awaited(waits, mid, Ok(true), post)
        } else {
            post == mid
        }
}

/// The backend has been waited for, which gave `outcome`; nothing else has changed.
pub open spec fn is_awaited<I, M, B>(
    waits: Waiting<B>,
    pre: SchedulerState<I, M, B>,
    outcome: Result<bool, RuntimeError>,
    post: SchedulerState<I, M, B>,
) -> bool {
    &&& same_sizes(pre, post)
    &&& post.next_token == pre.next_token
    &&& post.next_group == pre.next_group
    &&& post.mail.arena == pre.mail.arena
    &&& post.mail.queue == pre.mail.queue
    &&& post.mail.registry == pre.mail.registry
    &&& waits(pre.mail.backend, post.mail.backend, outcome)
}

/// A run goes on, step by step, until one is idle, or is blocked and no event comes, or an error
/// occurs in a step or in waiting; it then says how many messages it processed, or what the error
/// was. It is broken off only after as many steps as can be counted.
pub proof fn law_run_goes_on_to_its_end<I: Isolate, B: WaitBackend>(
    waits: Waiting<B>,
    pre: SchedulerState<I, I::Message, B>,
    post: SchedulerState<I, I::Message, B>,
    outcome: Result<usize, RuntimeError>,
) -> (parts: (Seq<SchedulerState<I, I::Message, B>>, Seq<StepResult>))
    requires
        pre.may_run(waits, post, outcome),
    ensures
        ({
            let (states, results) = parts;
            let last = states.last();
            &&& states.len() == results.len() + 1
            &&& states[0] == pre
            &&& forall|k: int|
                0 <= k < results.len() ==> (#[trigger] results[k]) != StepResult::Idle && is_round(
                    waits,
                    states[k],
                    results[k],
                    states[k + 1],
                )
            &&& outcome matches Ok(processed) ==> processed == results.filter(
                |result: StepResult| result == StepResult::ProcessedOne,
            ).len()
            &&& if results.len() == usize::MAX {
                post == last && outcome is Ok
            } else {
                ends_run(waits, last, outcome, post)
            }
        }),
{
    let (states, results) = choose|
        states: Seq<SchedulerState<I, I::Message, B>>,
        results: Seq<StepResult>,
    | #[trigger]
        pre.runs_through(waits, states, results) && states.last().may_end_run(
            waits,
            results,
            post,
            outcome,
        );
    law_processed_messages_are_counted(results);
    assert forall|k: int| 0 <= k < results.len() implies (#[trigger] results[k])
        != StepResult::Idle && is_round(waits, states[k], results[k], states[k + 1]) by {
        if results[k] == StepResult::Blocked {
            let mid = choose|mid: SchedulerState<I, I::Message, B>| #[trigger]
                states[k].may_step(mid, Ok(results[k])) && mid.may_block(
                    waits,
                    states[k + 1],
                    Ok(true),
                );
            assert(states[k].may_step(mid, Ok(results[k])));
        }
    }
    (states, results)
}

/// The last step of a run: it is idle, or blocked with no event to come, or it fails, or waiting
/// does.
pub open spec fn ends_run<I: Isolate, B: WaitBackend>(
    waits: Waiting<B>,
    pre: SchedulerState<I, I::Message, B>,
    outcome: Result<usize, RuntimeError>,
    post: SchedulerState<I, I::Message, B>,
) -> bool {
    match outcome {
        Ok(_) => {
            ||| pre.may_step(post, Ok(StepResult::Idle))
            ||| exists|mid: SchedulerState<I, I::Message, B>| #[trigger]
                pre.may_step(mid, Ok(StepResult::Blocked)) && is_awaited(
                    waits,
                    mid,
                    Ok(false),
                    post,
                )
        },
        Err(error) => {
            ||| pre.may_step(post, Err(error))
            ||| exists|mid: SchedulerState<I, I::Message, B>| #[trigger]
                pre.may_step(mid, Ok(StepResult::Blocked)) && is_awaited(
                    waits,
                    mid,
                    Err(error),
                    post,
                )
        },
    }
}

} // verus!
