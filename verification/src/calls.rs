//! What the calls of the library do, each in terms of what it is given and what it leaves behind.

use std::collections::VecDeque;

use vstd::prelude::*;

use crate::arena::{Arena, ArenaError, Handle, MAX_SLOTS};
use crate::completion::{
    CompletionArena, CompletionError, CompletionHandle, CompletionState, CompletionsState,
};
use crate::echo::{EchoConnection, EchoIsolate, EchoListener};
use crate::effects::{Effect, EffectsError, EffectsState, RuntimeMessage, TurnEffects};
use crate::io::{DriverCompletion, FakeIoDriver, IoDriver, IoError, IoResult, Operation, RawFdLike};
use crate::mailbox::{
    FakeWaitBackend, GroupPolicy, GroupState, InFlight, OpToken, Pumped, Scheduler, WaitBackend,
    WaitRegistry,
};
use crate::runtime::{IoContext, IoLoop, Isolate, RuntimeError, Server, Snapshot, StepResult};

verus! {

/// An arena holds what was put in, under the handle that was returned for it, until it is taken
/// out, and says so.
pub proof fn law_arena_calls<T>()
    ensures
        forall|capacity: usize, arena: Arena<T>| #[trigger]
            call_ensures(Arena::<T>::with_capacity, (capacity,), arena) && capacity <= MAX_SLOTS
                ==> {
                &&& arena@.wf()
                &&& arena@.slots.len() == capacity
                &&& arena@.len == 0
                &&& forall|handle: Handle| !(#[trigger] arena@.has(handle))
            },
        forall|arena: &mut Arena<T>, value: T, result: Result<Handle, ArenaError>| #[trigger]
            call_ensures(Arena::<T>::insert, (arena, value), result) && arena@.wf() ==> {
                &&& final(arena)@.wf()
                &&& match result {
                    Ok(handle) => {
                        &&& arena@.len < arena@.slots.len()
                        &&& !arena@.has(handle)
                        &&& final(arena)@.has(handle)
                        &&& final(arena)@.at(handle) == value
                        &&& final(arena)@.len == arena@.len + 1
                        &&& forall|other: Handle| #[trigger]
                            arena@.has(other) ==> final(arena)@.has(other) && final(arena)@.at(
                                other,
                            ) == arena@.at(other)
                    },
                    Err(error) => {
                        &&& arena@.len == arena@.slots.len()
                        &&& error == ArenaError::Full
                        &&& final(arena)@ == arena@
                    },
                }
            },
        forall|arena: &Arena<T>, handle: Handle, result: bool| #[trigger]
            call_ensures(Arena::<T>::contains, (arena, handle), result) ==> result == arena@.has(
                handle,
            ),
        forall|arena: &Arena<T>, handle: Handle, result: Option<&T>| #[trigger]
            call_ensures(Arena::<T>::get, (arena, handle), result) ==> match result {
                Some(value) => arena@.has(handle) && *value == arena@.at(handle),
                None => !arena@.has(handle),
            },
        forall|arena: &mut Arena<T>, handle: Handle, result: Option<&mut T>| #[trigger]
            call_ensures(Arena::<T>::get_mut, (arena, handle), result) ==> match result {
                Some(value) => {
                    &&& arena@.has(handle)
                    &&& *value == arena@.at(handle)
                    &&& final(arena)@.has(handle)
                    &&& final(arena)@.at(handle) == *final(value)
                    &&& forall|other: Handle|
                        other != handle && #[trigger] arena@.has(other) ==> final(arena)@.has(
                            other,
                        ) && final(arena)@.at(other) == arena@.at(other)
                },
                None => !arena@.has(handle) && final(arena)@ == arena@,
            },
        forall|arena: &mut Arena<T>, handle: Handle, result: Result<T, ArenaError>| #[trigger]
            call_ensures(Arena::<T>::remove, (arena, handle), result) && arena@.wf() ==> {
                &&& final(arena)@.wf()
                &&& !final(arena)@.has(handle)
                &&& forall|other: Handle|
                    other != handle && #[trigger] arena@.has(other) ==> final(arena)@.has(other)
                        && final(arena)@.at(other) == arena@.at(other)
                &&& match result {
                    Ok(value) => {
                        &&& arena@.has(handle)
                        &&& value == arena@.at(handle)
                        &&& final(arena)@.len == arena@.len - 1
                    },
                    Err(error) => {
                        &&& !arena@.has(handle)
                        &&& error == ArenaError::InvalidHandle
                        &&& final(arena)@.len == arena@.len
                    },
                }
            },
        forall|arena: &Arena<T>, count: usize| #[trigger]
            call_ensures(Arena::<T>::len, (arena,), count) ==> count == arena@.len,
        forall|arena: &Arena<T>, count: usize| #[trigger]
            call_ensures(Arena::<T>::capacity, (arena,), count) ==> count == arena@.slots.len(),
{
    assert forall|arena: &mut Arena<T>, value: T, result: Result<Handle, ArenaError>| #[trigger]
        call_ensures(Arena::<T>::insert, (arena, value), result) && arena@.wf() implies {
        &&& final(arena)@.wf()
        &&& match result {
            Ok(handle) => {
                &&& arena@.len < arena@.slots.len()
                &&& !arena@.has(handle)
                &&& final(arena)@.has(handle)
                &&& final(arena)@.at(handle) == value
                &&& final(arena)@.len == arena@.len + 1
                &&& forall|other: Handle| #[trigger]
                    arena@.has(other) ==> final(arena)@.has(other) && final(arena)@.at(other)
                        == arena@.at(other)
            },
            Err(error) => {
                &&& arena@.len == arena@.slots.len()
                &&& error == ArenaError::Full
                &&& final(arena)@ == arena@
            },
        }
    } by {
        if !arena@.full() {
            crate::arena::law_inserted_object_is_found(
                arena@,
                value,
                arena@.next_handle(),
            );
            assert(arena@.free.contains(arena@.free.last()));
        }
    }
    assert forall|arena: &mut Arena<T>, handle: Handle, result: Result<T, ArenaError>| #[trigger]
        call_ensures(Arena::<T>::remove, (arena, handle), result) && arena@.wf() implies {
        &&& final(arena)@.wf()
        &&& !final(arena)@.has(handle)
        &&& forall|other: Handle|
            other != handle && #[trigger] arena@.has(other) ==> final(arena)@.has(other)
                && final(arena)@.at(other) == arena@.at(other)
        &&& match result {
            Ok(value) => {
                &&& arena@.has(handle)
                &&& value == arena@.at(handle)
                &&& final(arena)@.len == arena@.len - 1
            },
            Err(error) => {
                &&& !arena@.has(handle)
                &&& error == ArenaError::InvalidHandle
                &&& final(arena)@.len == arena@.len
            },
        }
    } by {
        if arena@.slots.len() > 0 {
            crate::arena::lemma_remove_wf(arena@, handle);
            if arena@.has(handle) {
                crate::arena::law_removed_slot_is_reused_under_a_new_generation(
                    arena@,
                    handle,
                    handle,
                );
                assert(arena@.len > 0);
            }
        }
    }
}

/// What an effect is asked for by is what stands at the end of the list, unless it is full; what is
/// moved out is all that it held, in order.
pub open spec fn adds_effect<I>(
    pre: EffectsState<I>,
    effect: Effect<I>,
    post: EffectsState<I>,
    outcome: Result<(), EffectsError>,
) -> bool {
    &&& post.max_effects == pre.max_effects
    &&& match outcome {
        Ok(_) => {
            &&& pre.effects.len() < pre.max_effects
            &&& post.effects == pre.effects.push(effect)
        },
        Err(error) => {
            &&& pre.effects.len() == pre.max_effects
            &&& error == EffectsError::Full
            &&& post.effects == pre.effects
        },
    }
}

/// Each call by which an isolate asks for an effect asks for the effect that it is named after.
pub proof fn law_effects_calls<I>()
    ensures
        forall|capacity: usize, effects: TurnEffects<I>| #[trigger]
            call_ensures(TurnEffects::<I>::with_capacity, (capacity,), effects) ==> {
                effects@.effects.len() == 0 && effects@.max_effects == capacity
            },
        forall|effects: &mut TurnEffects<I>, done: ()| #[trigger]
            call_ensures(TurnEffects::<I>::reset, (effects,), done) ==> {
                &&& final(effects)@.effects.len() == 0
                &&& final(effects)@.max_effects == effects@.max_effects
            },
        forall|
            effects: &mut TurnEffects<I>,
            completion: CompletionHandle,
            op: Operation,
            outcome: Result<(), EffectsError>,
        | #[trigger]
            call_ensures(TurnEffects::<I>::submit, (effects, completion, op), outcome)
                && effects@.bounded() ==> adds_effect(
                effects@,
                (Effect::Submit { completion, op }),
                final(effects)@,
                outcome,
            ),
        forall|
            effects: &mut TurnEffects<I>,
            completion: CompletionHandle,
            outcome: Result<(), EffectsError>,
        | #[trigger]
            call_ensures(TurnEffects::<I>::cancel, (effects, completion), outcome)
                && effects@.bounded() ==> adds_effect(
                effects@,
                (Effect::Cancel { completion }),
                final(effects)@,
                outcome,
            ),
        forall|effects: &mut TurnEffects<I>, isolate: I, outcome: Result<(), EffectsError>|
            #[trigger] call_ensures(TurnEffects::<I>::spawn, (effects, isolate), outcome)
                && effects@.bounded() ==> adds_effect(
                effects@,
                Effect::Spawn(isolate),
                final(effects)@,
                outcome,
            ),
        forall|effects: &mut TurnEffects<I>, outcome: Result<(), EffectsError>| #[trigger]
            call_ensures(TurnEffects::<I>::destroy_self, (effects,), outcome)
                && effects@.bounded() ==> adds_effect(
                effects@,
                Effect::DestroySelf,
                final(effects)@,
                outcome,
            ),
        forall|effects: &mut TurnEffects<I>, scratch: &mut Vec<Effect<I>>, done: ()| #[trigger]
            call_ensures(TurnEffects::<I>::swap_effects, (effects, scratch), done) ==> {
                &&& final(scratch)@ == effects@.effects
                &&& final(effects)@.effects.len() == 0
                &&& final(effects)@.max_effects == effects@.max_effects
            },
{
}

/// The calls on a store of completions do what the store allows, or return its error and leave it as
/// it is.
pub proof fn law_completion_calls<R>()
    ensures
        forall|capacity: usize, store: CompletionArena<R>| #[trigger]
            call_ensures(CompletionArena::<R>::with_capacity, (capacity,), store) && capacity
                <= MAX_SLOTS ==> {
                &&& store@.wf()
                &&& store@.slots.len() == capacity
                &&& store@.free.len() == capacity
                &&& forall|i: int|
                    0 <= i < capacity ==> (#[trigger] store@.slots[i]).owner is None
            },
        forall|
            store: &mut CompletionArena<R>,
            owner: Handle,
            result: Result<CompletionHandle, CompletionError>,
        | #[trigger]
            call_ensures(CompletionArena::<R>::acquire, (store, owner), result) && store@.wf()
                ==> match result {
                Ok(completion) => {
                    &&& store@.free.len() > 0
                    &&& completion == store@.next_handle()
                    &&& final(store)@ == store@.acquire(owner)
                },
                Err(error) => {
                    &&& store@.free.len() == 0
                    &&& error == CompletionError::Full
                    &&& final(store)@ == store@
                },
            },
        forall|
            store: &mut CompletionArena<R>,
            owner: Handle,
            completion: CompletionHandle,
            result: Result<(), CompletionError>,
        | #[trigger]
            call_ensures(CompletionArena::<R>::submit, (store, owner, completion), result)
                && store@.wf() ==> is_answered(
                store@,
                store@.submit(owner, completion),
                final(store)@,
                result,
            ),
        forall|
            store: &mut CompletionArena<R>,
            owner: Handle,
            completion: CompletionHandle,
            result: Result<(), CompletionError>,
        | #[trigger]
            call_ensures(CompletionArena::<R>::unsubmit, (store, owner, completion), result)
                && store@.wf() ==> is_answered(
                store@,
                store@.unsubmit(owner, completion),
                final(store)@,
                result,
            ),
        forall|
            store: &mut CompletionArena<R>,
            owner: Handle,
            completion: CompletionHandle,
            result: Result<(), CompletionError>,
        | #[trigger]
            call_ensures(CompletionArena::<R>::release, (store, owner, completion), result)
                && store@.wf() ==> is_answered(
                store@,
                store@.release(owner, completion),
                final(store)@,
                result,
            ),
        forall|
            store: &mut CompletionArena<R>,
            completion: CompletionHandle,
            value: R,
            result: Result<(), CompletionError>,
        | #[trigger]
            call_ensures(CompletionArena::<R>::complete, (store, completion, value), result)
                && store@.wf() ==> is_answered(
                store@,
                store@.complete(completion, value),
                final(store)@,
                result,
            ),
        forall|
            store: &mut CompletionArena<R>,
            owner: Handle,
            completion: CompletionHandle,
            result: Result<CompletionState, CompletionError>,
        | #[trigger]
            call_ensures(CompletionArena::<R>::begin_cancel, (store, owner, completion), result)
                && store@.wf() ==> match store@.begin_cancel(owner, completion) {
                Ok((post, now)) => final(store)@ == post && result == Ok::<_, CompletionError>(now),
                Err(error) => {
                    &&& final(store)@ == store@
                    &&& result == Err::<CompletionState, _>(error)
                },
            },
        forall|
            store: &mut CompletionArena<R>,
            owner: Handle,
            completion: CompletionHandle,
            result: Result<R, CompletionError>,
        | #[trigger]
            call_ensures(CompletionArena::<R>::take_result, (store, owner, completion), result)
                && store@.wf() ==> match store@.take_result(owner, completion) {
                Ok((post, taken)) => final(store)@ == post && result == Ok::<_, CompletionError>(
                    taken,
                ),
                Err(error) => final(store)@ == store@ && result == Err::<R, _>(error),
            },
        forall|
            store: &CompletionArena<R>,
            completion: CompletionHandle,
            result: Result<Handle, CompletionError>,
        | #[trigger]
            call_ensures(CompletionArena::<R>::owner, (store, completion), result)
                ==> match result {
                Ok(owner) => crate::completion::belongs_to(store@, completion, owner),
                Err(error) => {
                    &&& !crate::completion::belongs_to_somebody(store@, completion)
                    &&& error == CompletionError::InvalidHandle
                },
            },
        forall|
            store: &CompletionArena<R>,
            completion: CompletionHandle,
            result: Result<CompletionState, CompletionError>,
        | #[trigger]
            call_ensures(CompletionArena::<R>::state, (store, completion), result) && store@.wf()
                ==> match result {
                Ok(state) => {
                    &&& crate::completion::belongs_to_somebody(store@, completion)
                    &&& store@.slots[completion.index as int].state == Some(state)
                },
                Err(error) => {
                    &&& !crate::completion::belongs_to_somebody(store@, completion)
                    &&& error == CompletionError::InvalidHandle
                },
            },
        forall|
            store: &CompletionArena<R>,
            owner: Handle,
            completion: CompletionHandle,
            result: Option<&R>,
        | #[trigger]
            call_ensures(CompletionArena::<R>::peek_result, (store, owner, completion), result)
                && store@.wf() ==> match result {
                Some(value) => {
                    let slot = store@.slots[completion.index as int];
                    &&& crate::completion::belongs_to(store@, completion, owner)
                    &&& slot.state == Some(CompletionState::Ready)
                    &&& slot.result == Some(*value)
                },
                None => {
                    ||| !crate::completion::belongs_to(store@, completion, owner)
                    ||| store@.slots[completion.index as int].state != Some(CompletionState::Ready)
                },
            },
        forall|store: &CompletionArena<R>, count: usize| #[trigger]
            call_ensures(CompletionArena::<R>::available, (store,), count) ==> count
                == store@.free.len(),
        forall|store: &CompletionArena<R>, owner: Handle, result: bool| #[trigger]
            call_ensures(CompletionArena::<R>::has_owner, (store, owner), result) ==> result == (
            exists|i: int|
                0 <= i < store@.slots.len() && (#[trigger] store@.slots[i]).owner == Some(owner)),
{
    assert forall|
        store: &CompletionArena<R>,
        completion: CompletionHandle,
        result: Result<CompletionState, CompletionError>,
    | #[trigger]
        call_ensures(CompletionArena::<R>::state, (store, completion), result)
            && store@.wf() implies match result {
        Ok(state) => {
            &&& crate::completion::belongs_to_somebody(store@, completion)
            &&& store@.slots[completion.index as int].state == Some(state)
        },
        Err(error) => {
            &&& !crate::completion::belongs_to_somebody(store@, completion)
            &&& error == CompletionError::InvalidHandle
        },
    } by {
        if crate::completion::belongs_to_somebody(store@, completion) {
            assert(store@.slots[completion.index as int].wf());
        }
    }
    assert forall|
        store: &CompletionArena<R>,
        owner: Handle,
        completion: CompletionHandle,
        result: Option<&R>,
    | #[trigger]
        call_ensures(CompletionArena::<R>::peek_result, (store, owner, completion), result)
            && store@.wf() implies match result {
        Some(value) => {
            let slot = store@.slots[completion.index as int];
            &&& crate::completion::belongs_to(store@, completion, owner)
            &&& slot.state == Some(CompletionState::Ready)
            &&& slot.result == Some(*value)
        },
        None => {
            ||| !crate::completion::belongs_to(store@, completion, owner)
            ||| store@.slots[completion.index as int].state != Some(CompletionState::Ready)
        },
    } by {
        if crate::completion::belongs_to_somebody(store@, completion) {
            assert(store@.slots[completion.index as int].wf());
        }
    }
}

/// The call did what `allowed` says, or returned its error and left `pre` as it was.
pub open spec fn is_answered<R>(
    pre: CompletionsState<R>,
    allowed: Result<CompletionsState<R>, CompletionError>,
    post: CompletionsState<R>,
    result: Result<(), CompletionError>,
) -> bool {
    match (allowed, result) {
        (Ok(next), Ok(_)) => post == next,
        (Err(error), Err(returned)) => post == pre && returned == error,
        _ => false,
    }
}

/// An isolate acts on completions in its own name: what it acquires is its own, and what it takes or
/// releases has to be.
pub proof fn law_context_calls()
    ensures
        forall|io: &mut IoContext<'_>, result: Option<CompletionHandle>| #[trigger]
            call_ensures(IoContext::acquire, (io,), result) && io@.completions.wf() ==> {
                &&& final(io)@.owner == io@.owner
                &&& match result {
                    Some(completion) => {
                        &&& io@.completions.free.len() > 0
                        &&& completion == io@.completions.next_handle()
                        &&& final(io)@.completions == io@.completions.acquire(io@.owner)
                    },
                    None => {
                        &&& io@.completions.free.len() == 0
                        &&& final(io)@.completions == io@.completions
                    },
                }
            },
        forall|
            io: &mut IoContext<'_>,
            completion: CompletionHandle,
            result: Result<(), CompletionError>,
        | #[trigger]
            call_ensures(IoContext::release, (io, completion), result) && io@.completions.wf()
                ==> final(io)@.owner == io@.owner && is_answered(
                io@.completions,
                io@.completions.release(io@.owner, completion),
                final(io)@.completions,
                result,
            ),
        forall|io: &mut IoContext<'_>, completion: CompletionHandle, result: Option<IoResult>|
            #[trigger] call_ensures(IoContext::take_result, (io, completion), result)
                && io@.completions.wf() ==> {
                &&& final(io)@.owner == io@.owner
                &&& match io@.completions.take_result(io@.owner, completion) {
                    Ok((post, taken)) => {
                        final(io)@.completions == post && result == Some(taken)
                    },
                    Err(_) => final(io)@.completions == io@.completions && result is None,
                }
            },
        forall|io: &IoContext<'_>, completion: CompletionHandle, result: Option<&IoResult>|
            #[trigger] call_ensures(IoContext::peek_result, (io, completion), result)
                && io@.completions.wf() ==> match io@.completions.take_result(
                io@.owner,
                completion,
            ) {
                Ok((_, taken)) => result matches Some(value) && *value == taken,
                Err(_) => result is None,
            },
        forall|io: &IoContext<'_>, count: usize| #[trigger]
            call_ensures(IoContext::available, (io,), count) ==> count
                == io@.completions.free.len(),
{
}

/// The calls on a server and on its loop are those that the laws of the runtime speak of.
pub proof fn law_server_calls<I: Isolate, D: IoDriver>()
    ensures
        forall|isolates: usize, messages: usize, effects: usize, server: Server<I>| #[trigger]
            call_ensures(Server::<I>::new, (isolates, messages, effects), server) && isolates
                <= MAX_SLOTS ==> {
                &&& server@.wf()
                &&& server@.arena.slots.len() == isolates
                &&& server@.arena.len == 0
                &&& server@.queue.len() == 0
                &&& server@.queue_capacity == messages
                &&& server@.effects.effects.len() == 0
                &&& server@.effects.max_effects == effects
                &&& server@.destroying.len() == 0
            },
        forall|server: &mut Server<I>, isolate: I, result: Result<Handle, RuntimeError>| #[trigger]
            call_ensures(Server::<I>::spawn, (server, isolate), result) && server@.wf()
                ==> server@.spawned(isolate, final(server)@, result) && final(server)@.wf(),
        forall|server: &mut Server<I>, target: Handle, result: Result<(), RuntimeError>| #[trigger]
            call_ensures(Server::<I>::shutdown, (server, target), result) && server@.wf()
                ==> server@.posted(target, RuntimeMessage::Shutdown, final(server)@, result)
                && final(server)@.wf(),
        forall|
            server: &mut Server<I>,
            io: &mut IoLoop<D>,
            result: Result<StepResult, RuntimeError>,
        | #[trigger]
            call_ensures(Server::<I>::step::<D>, (server, io), result) && server@.wf() && io@.wf()
                ==> (Snapshot { server: server@, io: io@ }).may_step(
                (Snapshot { server: final(server)@, io: final(io)@ }),
                result,
            ),
        forall|server: &mut Server<I>, io: &mut IoLoop<D>, result: Result<usize, RuntimeError>|
            #[trigger] call_ensures(Server::<I>::run_until_idle::<D>, (server, io), result)
                && server@.wf() && io@.wf() ==> (Snapshot { server: server@, io: io@ }).may_run(
                (Snapshot { server: final(server)@, io: final(io)@ }),
                result,
            ),
        forall|server: &Server<I>, count: usize| #[trigger]
            call_ensures(Server::<I>::isolate_count, (server,), count) ==> count
                == server@.arena.len,
        forall|driver: D, capacity: usize, io: IoLoop<D>| #[trigger]
            call_ensures(IoLoop::<D>::new, (driver, capacity), io) && capacity <= MAX_SLOTS
                && capacity * crate::io::ENTRY_BYTES <= isize::MAX ==> {
                &&& io@.wf()
                &&& io@.driver == driver
                &&& io@.completions.slots.len() == capacity
                &&& io@.completions.free.len() == capacity
                &&& io@.ready.len() == 0
                &&& io@.ready_capacity == capacity
            },
        forall|io: &mut IoLoop<D>, result: Result<bool, RuntimeError>| #[trigger]
            call_ensures(IoLoop::<D>::step, (io,), result) && io@.wf() ==> io@.may_step(
                final(io)@,
                result,
            ),
        forall|io: &IoLoop<D>, reply: bool| #[trigger]
            call_ensures(IoLoop::<D>::has_pending, (io,), reply) ==> exists|answer: bool|
                #[trigger] io@.driver.may_answer_has_pending(answer) && reply == (answer
                    || io@.ready.len() > 0),
{
}

/// The in-process driver and the in-process backend start with nothing pending, and take as much as
/// they are made to take.
pub proof fn law_in_process_calls()
    ensures
        forall|capacity: usize, driver: FakeIoDriver| #[trigger]
            call_ensures(FakeIoDriver::new, (capacity,), driver) ==> driver@.pending.len() == 0
                && driver@.capacity == capacity,
        forall|
            driver: &mut FakeIoDriver,
            max_completions: usize,
            limit: usize,
            completed: &mut Vec<DriverCompletion>,
            outcome: Result<bool, IoError>,
        | #[trigger]
            call_ensures(
                FakeIoDriver::step_within,
                (driver, max_completions, limit, completed),
                outcome,
            ) && completed@.len() <= limit ==> driver@.steps_within(
                max_completions,
                limit,
                completed@,
                final(driver)@,
                final(completed)@,
                outcome,
            ),
        forall|capacity: usize, backend: FakeWaitBackend| #[trigger]
            call_ensures(FakeWaitBackend::new, (capacity,), backend) ==> backend@.pending.len() == 0
                && backend@.capacity == capacity,
{
}

/// The calls on the registry of waits are those that the laws of delivery speak of.
pub proof fn law_registry_calls<M, B: WaitBackend>()
    ensures
        forall|registry: WaitRegistry<M>| #[trigger]
            call_ensures(WaitRegistry::<M>::new, (), registry) ==> {
                &&& registry@.wf()
                &&& registry@.ready.len() == 0
                &&& forall|token: u32| !(#[trigger] registry@.in_flight.contains_key(token))
                &&& forall|group: u32| !(#[trigger] registry@.groups.contains_key(group))
            },
        forall|registry: &mut WaitRegistry<M>, tokens: &Vec<OpToken>, done: ()| #[trigger]
            call_ensures(WaitRegistry::<M>::enqueue_ready, (registry, tokens), done)
                && registry@.wf() ==> {
                &&& final(registry)@.ready == registry@.ready + tokens@
                &&& final(registry)@.in_flight == registry@.in_flight
                &&& final(registry)@.groups == registry@.groups
            },
        forall|registry: &WaitRegistry<M>, result: bool| #[trigger]
            call_ensures(WaitRegistry::<M>::is_empty, (registry,), result) ==> result
                == registry@.is_empty(),
        forall|registry: &mut WaitRegistry<M>, token: OpToken, backend: &mut B, done: ()|
            #[trigger] call_ensures(
                WaitRegistry::<M>::cancel_token::<B>,
                (registry, token, backend),
                done,
            ) && registry@.wf() ==> {
                &&& final(registry)@ == registry@.cancel(token)
                &&& if registry@.in_flight.contains_key(token.0) {
                    backend.may_cancel(token, *final(backend))
                } else {
                    *final(backend) == *backend
                }
            },
        forall|registry: &mut WaitRegistry<M>, target: Handle, backend: &mut B, done: ()|
            #[trigger] call_ensures(
                WaitRegistry::<M>::purge_owner::<B>,
                (registry, target, backend),
                done,
            ) && registry@.wf() ==> final(registry)@ == registry@.purge(target)
                && registry@.may_cancel_operations_of(target, *backend, *final(backend)),
{
}

/// The calls on a scheduler are those that its laws speak of.
pub proof fn law_scheduler_calls<I: crate::mailbox::Isolate, B: WaitBackend>()
    ensures
        forall|isolates: usize, messages: usize, actions: usize, scheduler: Scheduler<I>|
            #[trigger] call_ensures(
                Scheduler::<I, FakeWaitBackend>::new,
                (isolates, messages, actions),
                scheduler,
            ) && isolates <= MAX_SLOTS ==> {
                &&& scheduler@.wf()
                &&& scheduler@.mail.arena.slots.len() == isolates
                &&& scheduler@.mail.arena.len == 0
                &&& scheduler@.mail.queue.len() == 0
                &&& scheduler@.queue_capacity == messages
                &&& scheduler@.max_actions == actions
                &&& scheduler@.max_waits == actions
                &&& scheduler@.mail.registry.is_empty()
                &&& scheduler@.mail.backend@.pending.len() == 0
                &&& scheduler@.mail.backend@.capacity == messages
            },
        forall|
            isolates: usize,
            messages: usize,
            actions: usize,
            backend: B,
            scheduler: Scheduler<I, B>,
        | #[trigger]
            call_ensures(
                Scheduler::<I, B>::new_with_backend,
                (isolates, messages, actions, backend),
                scheduler,
            ) && isolates <= MAX_SLOTS ==> {
                &&& scheduler@.wf()
                &&& scheduler@.mail.arena.slots.len() == isolates
                &&& scheduler@.mail.arena.len == 0
                &&& scheduler@.mail.queue.len() == 0
                &&& scheduler@.queue_capacity == messages
                &&& scheduler@.max_actions == actions
                &&& scheduler@.max_waits == actions
                &&& scheduler@.mail.registry.is_empty()
                &&& scheduler@.mail.backend == backend
            },
        forall|
            scheduler: &mut Scheduler<I, B>,
            isolate: I,
            result: Result<Handle, crate::mailbox::RuntimeError>,
        | #[trigger]
            call_ensures(Scheduler::<I, B>::spawn, (scheduler, isolate), result) && scheduler@.wf()
                ==> scheduler@.spawned(isolate, final(scheduler)@, result),
        forall|
            scheduler: &mut Scheduler<I, B>,
            target: Handle,
            message: I::Message,
            result: Result<(), crate::mailbox::RuntimeError>,
        | #[trigger]
            call_ensures(Scheduler::<I, B>::enqueue, (scheduler, target, message), result)
                && scheduler@.wf() ==> scheduler@.enqueued(
                target,
                crate::mailbox::RuntimeMessage::User(message),
                final(scheduler)@,
                result,
            ),
        forall|scheduler: &Scheduler<I, B>, count: usize| #[trigger]
            call_ensures(Scheduler::<I, B>::queue_len, (scheduler,), count) ==> count
                == scheduler@.mail.queue.len(),
        forall|
            scheduler: &mut Scheduler<I, B>,
            result: Result<crate::mailbox::StepResult, crate::mailbox::RuntimeError>,
        | #[trigger]
            call_ensures(Scheduler::<I, B>::run_once, (scheduler,), result) && scheduler@.wf()
                ==> scheduler@.may_step(final(scheduler)@, result) && final(scheduler)@.wf(),
        forall|
            scheduler: &mut Scheduler<I, B>,
            result: Result<usize, crate::mailbox::RuntimeError>,
        | #[trigger]
            call_ensures(Scheduler::<I, B>::run_until_idle, (scheduler,), result)
                && scheduler@.wf() ==> scheduler@.may_run(
                |before: B, after: B, outcome: Result<bool, crate::mailbox::RuntimeError>|
                    exists|backend: &mut B|
                        *backend == before && *final(backend) == after && #[trigger] call_ensures(
                            B::block_until_event,
                            (backend,),
                            outcome,
                        ),
                final(scheduler)@,
                result,
            ) && final(scheduler)@.wf(),
        forall|scheduler: &mut Scheduler<I, B>, handle: Handle, result: Option<&mut I>| #[trigger]
            call_ensures(Scheduler::<I, B>::isolate_mut, (scheduler, handle), result)
                ==> match result {
                Some(isolate) => {
                    &&& scheduler@.mail.arena.has(handle)
                    &&& *isolate == scheduler@.mail.arena.at(handle)
                    &&& final(scheduler)@.mail.arena.has(handle)
                    &&& final(scheduler)@.mail.arena.at(handle) == *final(isolate)
                    &&& final(scheduler)@.mail.queue == scheduler@.mail.queue
                    &&& final(scheduler)@.mail.registry == scheduler@.mail.registry
                },
                None => {
                    &&& !scheduler@.mail.arena.has(handle)
                    &&& final(scheduler)@ == scheduler@
                },
            },
{
    crate::mailbox::delivery::law_empty_registry_waits_for_nothing(
        crate::mailbox::RegistryState::<I::Message>::empty(),
    );
}

/// The calls on an echo isolate are those that its laws speak of, and a descriptor is given up once.
pub proof fn law_echo_calls()
    ensures
        forall|listener: RawFdLike, made: EchoListener| #[trigger]
            call_ensures(EchoListener::new, (listener,), made) ==> made.listener == listener,
        forall|fd: RawFdLike, made: EchoConnection| #[trigger]
            call_ensures(EchoConnection::new, (fd,), made) ==> made.fd == Some(fd),
        forall|connection: &mut EchoConnection, to_close: Option<RawFdLike>| #[trigger]
            call_ensures(EchoConnection::close, (connection,), to_close) ==> {
                &&& to_close == connection.fd
                &&& final(connection).fd is None
                &&& final(connection).recv == connection.recv
                &&& final(connection).send == connection.send
            },
        forall|isolate: &EchoIsolate, msg: RuntimeMessage, io: &IoContext<'_>, result: bool|
            #[trigger] call_ensures(EchoIsolate::can_handle, (isolate, msg, io), result)
                && io@.completions.wf() ==> result == isolate.expects(io@, msg),
        forall|
            isolate: &mut EchoIsolate,
            msg: RuntimeMessage,
            io: &mut IoContext<'_>,
            effects: &mut TurnEffects<EchoIsolate>,
            outcome: Result<(), RuntimeError>,
        | #[trigger]
            call_ensures(EchoIsolate::handle, (isolate, msg, io, effects), outcome)
                && io@.completions.wf() && effects@.bounded() && isolate.expects(io@, msg) ==> {
                let turn = isolate.turn(io@, msg);
                &&& *final(isolate) == turn.isolate
                &&& final(io)@ == turn.io
                &&& crate::echo::asked_for(effects@, turn.wanted, final(effects)@, outcome)
            },
        forall|
            isolate: &mut EchoIsolate,
            io: &mut IoContext<'_>,
            effects: &mut TurnEffects<EchoIsolate>,
            result: (Option<RawFdLike>, Result<(), RuntimeError>),
        | #[trigger]
            call_ensures(EchoIsolate::destroy, (isolate, io, effects), result)
                && effects@.bounded() ==> {
                let turn = isolate.last_turn(io@);
                &&& result.0 == isolate.owned_fd()
                &&& *final(isolate) == turn.isolate
                &&& final(io)@ == turn.io
                &&& crate::echo::asked_for(effects@, turn.wanted, final(effects)@, result.1)
            },
{
}

/// Registering, opening a group and delivering what is ready are what the laws of delivery speak of.
pub proof fn law_registry_keeps_what_it_is_given<M, B: WaitBackend>()
    ensures
        forall|
            registry: &mut WaitRegistry<M>,
            token: OpToken,
            target: Handle,
            completion: Option<crate::mailbox::RuntimeMessage<M>>,
            group: Option<u32>,
            done: (),
        | #[trigger]
            call_ensures(
                WaitRegistry::<M>::register,
                (registry, token, target, completion, group),
                done,
            ) && registry@.wf() && registry@.fits(token, (InFlight { target, completion, group }))
                ==> final(registry)@ == registry@.register(
                token,
                (InFlight { target, completion, group }),
            ),
        forall|
            registry: &mut WaitRegistry<M>,
            id: u32,
            policy: GroupPolicy,
            target: Handle,
            members: Vec<OpToken>,
            join: Option<(OpToken, crate::mailbox::RuntimeMessage<M>)>,
            done: (),
        | #[trigger]
            call_ensures(
                WaitRegistry::<M>::open_group,
                (registry, id, policy, target, members, join),
                done,
            ) && registry@.wf() && members@.no_duplicates() && (policy is Join ==> join is Some)
                && registry@.awaits_none_of(id) ==> final(registry)@ == registry@.open_group(
                id,
                (GroupState {
                    policy,
                    target,
                    remaining: members@.len(),
                    members: members@,
                    join,
                }),
            ),
        forall|
            registry: &mut WaitRegistry<M>,
            queue: &mut VecDeque<crate::mailbox::Envelope<M>>,
            capacity: usize,
            backend: &mut B,
            done: (),
        | #[trigger]
            call_ensures(
                WaitRegistry::<M>::pump::<B>,
                (registry, queue, capacity, backend),
                done,
            ) && registry@.wf() ==> {
                let pumped = (Pumped {
                    registry: registry@,
                    queue: queue@,
                    cancelled: Seq::empty(),
                }).pump(capacity as nat);
                &&& final(registry)@ == pumped.registry
                &&& final(queue)@ == pumped.queue
                &&& crate::mailbox::backend::may_cancel_all(
                    *backend,
                    pumped.cancelled,
                    *final(backend),
                )
            },
{
}

/// What an echo isolate asks for by name is that: the next peer, bytes from the peer, or bytes to be
/// sent to it.
pub proof fn law_echo_requests()
    ensures
        forall|
            listener: &EchoListener,
            effects: &mut TurnEffects<EchoIsolate>,
            outcome: Result<(), RuntimeError>,
        | #[trigger]
            call_ensures(EchoListener::submit_accept, (listener, effects), outcome)
                && effects@.effects.len() < effects@.max_effects ==> {
                &&& outcome is Ok
                &&& final(effects)@.effects.len() == effects@.effects.len() + 1
                &&& crate::echo::asks_to_accept(
                    final(effects)@.effects.last(),
                    listener.accept,
                    listener.listener,
                )
            },
        forall|
            connection: &EchoConnection,
            effects: &mut TurnEffects<EchoIsolate>,
            outcome: Result<(), RuntimeError>,
        | #[trigger]
            call_ensures(EchoConnection::submit_recv, (connection, effects), outcome)
                && connection.fd is Some && effects@.effects.len() < effects@.max_effects ==> {
                &&& outcome is Ok
                &&& final(effects)@.effects.len() == effects@.effects.len() + 1
                &&& crate::echo::asks_to_receive(
                    final(effects)@.effects.last(),
                    connection.recv,
                    connection.fd->0,
                )
            },
        forall|
            connection: &EchoConnection,
            bytes: Vec<u8>,
            effects: &mut TurnEffects<EchoIsolate>,
            outcome: Result<(), RuntimeError>,
        | #[trigger]
            call_ensures(EchoConnection::submit_send, (connection, bytes, effects), outcome)
                && connection.fd is Some && effects@.effects.len() < effects@.max_effects ==> {
                &&& outcome is Ok
                &&& final(effects)@.effects.len() == effects@.effects.len() + 1
                &&& crate::echo::asks_to_send(
                    final(effects)@.effects.last(),
                    connection.send,
                    connection.fd->0,
                    bytes@,
                )
            },
{
    assert forall|
        pre: EffectsState<EchoIsolate>,
        wanted: Seq<crate::echo::Request>,
        post: EffectsState<EchoIsolate>,
        outcome: Result<(), RuntimeError>,
    |
        #[trigger] crate::echo::asked_for(pre, wanted, post, outcome) && wanted.len() == 1
            && pre.effects.len() < pre.max_effects implies crate::echo::request_of(
        post.effects.last(),
    ) == wanted[0] by {
        let last = post.effects.len() - 1;
        assert(crate::echo::request_of(post.effects[last]) == wanted[0]);
    }
}

/// A handle and its number stand for each other: the number holds the generation in its upper half
/// and the index in its lower one, and gives the handle back. A result that is copied says the same.
pub proof fn law_handles_and_results_are_kept()
    ensures
        forall|handle: CompletionHandle, raw: u64| #[trigger]
            call_ensures(CompletionHandle::into_raw, (handle,), raw) ==> {
                &&& raw as int / 0x1_0000_0000 == handle.generation
                &&& raw as int % 0x1_0000_0000 == handle.index as int
            },
        forall|raw: u64, handle: CompletionHandle| #[trigger]
            call_ensures(CompletionHandle::from_raw, (raw,), handle) ==> {
                &&& handle.generation == raw as int / 0x1_0000_0000
                &&& handle.index as int == raw as int % 0x1_0000_0000
            },
        forall|handle: CompletionHandle| #[trigger]
            call_ensures(CompletionHandle::invalid, (), handle) ==> handle.index == u32::MAX
                && handle.generation == u32::MAX,
        forall|result: &IoResult, copy: IoResult| #[trigger]
            call_ensures(IoResult::clone, (result,), copy) ==> crate::runtime::alike::results_alike(
                *result,
                copy,
            ),
{
}

} // verus!
