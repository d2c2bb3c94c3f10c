//! When two servers are alike: they hold the same, where bytes are compared by what they are and
//! isolates as their implementer sees fit.

use vstd::prelude::*;

use crate::arena::{ArenaState, Handle};
use crate::completion::{CompletionHandle, CompletionState, CompletionsState};
use crate::effects::Effect;
use crate::io::{DriverCompletion, IoResult, Operation};

use super::context::TurnState;
use super::io_loop::{LoopState, Reaped};
use super::model::{IsolateSlot, Routed, ServerState, Snapshot};

verus! {

/// Both succeed, or both fail in the same way.
pub open spec fn same_outcome<E>(left: Result<(), E>, right: Result<(), E>) -> bool {
    match (left, right) {
        (Ok(_), Ok(_)) => true,
        (Err(one), Err(other)) => one == other,
        _ => false,
    }
}

/// Two results that say the same.
pub open spec fn results_alike(left: IoResult, right: IoResult) -> bool {
    match (left, right) {
        (IoResult::Recv(Ok(bytes)), IoResult::Recv(Ok(others))) => bytes@ == others@,
        (IoResult::Timer(one), IoResult::Timer(other)) => same_outcome(one, other),
        _ => left == right,
    }
}

/// Two operations that ask for the same.
pub open spec fn operations_alike(left: Operation, right: Operation) -> bool {
    match (left, right) {
        (Operation::Recv(one), Operation::Recv(other)) => {
            one.fd == other.fd && one.buf@ == other.buf@ && one.flags == other.flags
        },
        (Operation::Send(one), Operation::Send(other)) => {
            one.fd == other.fd && one.buf@ == other.buf@ && one.flags == other.flags
        },
        _ => left == right,
    }
}

/// The same completions ended, in the same way and order.
pub open spec fn batches_alike(
    left: Seq<DriverCompletion>,
    right: Seq<DriverCompletion>,
) -> bool {
    &&& left.len() == right.len()
    &&& forall|k: int|
        0 <= k < left.len() ==> (#[trigger] left[k]).completion == right[k].completion
            && results_alike(left[k].result, right[k].result)
}

/// Two slots that differ in the identity of received bytes at most.
pub open spec fn slots_alike(
    left: crate::completion::Slot<IoResult>,
    right: crate::completion::Slot<IoResult>,
) -> bool {
    &&& left.generation == right.generation
    &&& left.owner == right.owner
    &&& left.state == right.state
    &&& match (left.result, right.result) {
        (None, None) => true,
        (Some(one), Some(other)) => results_alike(one, other),
        _ => false,
    }
}

/// The same completions, in the same states and with the same results. The free list names slots.
pub open spec fn completions_alike(
    left: CompletionsState<IoResult>,
    right: CompletionsState<IoResult>,
) -> bool {
    &&& left.slots.len() == right.slots.len()
    &&& left.free == right.free
    &&& left.len == right.len
    &&& forall|i: int|
        #![trigger left.slots[i]]
        #![trigger right.slots[i]]
        0 <= i < left.slots.len() ==> slots_alike(left.slots[i], right.slots[i])
    &&& forall|k: int| 0 <= k < left.free.len() ==> (#[trigger] left.free[k]) < left.slots.len()
}

/// Two effects that ask for the same.
pub open spec fn same_effect<I>(
    same: spec_fn(I, I) -> bool,
    left: Effect<I>,
    right: Effect<I>,
) -> bool {
    match (left, right) {
        (Effect::Submit { completion: one, op }, Effect::Submit { completion: other, op: next }) => {
            one == other && operations_alike(op, next)
        },
        (Effect::Spawn(one), Effect::Spawn(other)) => same(one, other),
        (Effect::Cancel { completion: one }, Effect::Cancel { completion: other }) => one == other,
        (Effect::DestroySelf, Effect::DestroySelf) => true,
        _ => false,
    }
}

/// The same effects, in the same order.
pub open spec fn effects_alike<I>(
    same: spec_fn(I, I) -> bool,
    left: Seq<Effect<I>>,
    right: Seq<Effect<I>>,
) -> bool {
    &&& left.len() == right.len()
    &&& forall|k: int|
        0 <= k < left.len() ==> same_effect(same, #[trigger] left[k], right[k])
}

/// The same isolates under the same handles. The free list names slots.
pub open spec fn arenas_alike<I>(
    same: spec_fn(I, I) -> bool,
    left: ArenaState<IsolateSlot<I>>,
    right: ArenaState<IsolateSlot<I>>,
) -> bool {
    &&& left.slots.len() == right.slots.len()
    &&& left.free == right.free
    &&& left.len == right.len
    &&& forall|i: int|
        #![trigger left.slots[i]]
        #![trigger right.slots[i]]
        0 <= i < left.slots.len() ==> {
            &&& left.slots[i].generation == right.slots[i].generation
            &&& match (left.slots[i].object, right.slots[i].object) {
                (None, None) => true,
                (Some(one), Some(other)) => {
                    same(one.isolate, other.isolate) && one.destroying == other.destroying
                },
                _ => false,
            }
        }
    &&& forall|k: int| 0 <= k < left.free.len() ==> (#[trigger] left.free[k]) < left.slots.len()
}

/// Two turns that an isolate cannot tell apart.
pub open spec fn turns_alike<I>(
    same: spec_fn(I, I) -> bool,
    left: TurnState<I>,
    right: TurnState<I>,
) -> bool {
    &&& same(left.isolate, right.isolate)
    &&& left.io.owner == right.io.owner
    &&& completions_alike(left.io.completions, right.io.completions)
    &&& effects_alike(same, left.effects.effects, right.effects.effects)
    &&& left.effects.max_effects == right.effects.max_effects
}

/// Two servers with the same isolates and the same messages on their way.
pub open spec fn servers_alike<I>(
    same: spec_fn(I, I) -> bool,
    left: ServerState<I>,
    right: ServerState<I>,
) -> bool {
    &&& arenas_alike(same, left.arena, right.arena)
    &&& left.queue == right.queue
    &&& left.queue_capacity == right.queue_capacity
    &&& effects_alike(same, left.effects.effects, right.effects.effects)
    &&& left.effects.max_effects == right.effects.max_effects
    &&& left.destroying == right.destroying
}

/// Two loops with the same completions, over drivers that are alike.
pub open spec fn loops_alike<D>(
    alike: spec_fn(D, D) -> bool,
    left: LoopState<D>,
    right: LoopState<D>,
) -> bool {
    &&& alike(left.driver, right.driver)
    &&& completions_alike(left.completions, right.completions)
    &&& left.ready == right.ready
    &&& left.ready_capacity == right.ready_capacity
}

/// Two servers that hold the same, on loops that do.
pub open spec fn snapshots_alike<I, D>(
    same: spec_fn(I, I) -> bool,
    alike: spec_fn(D, D) -> bool,
    left: Snapshot<I, D>,
    right: Snapshot<I, D>,
) -> bool {
    servers_alike(same, left.server, right.server) && loops_alike(alike, left.io, right.io)
}

/// Alike completions have the same owners.
pub proof fn lemma_same_owners(
    left: CompletionsState<IoResult>,
    right: CompletionsState<IoResult>,
    owner: Handle,
)
    requires
        completions_alike(left, right),
    ensures
        left.has_owner(owner) == right.has_owner(owner),
{
    if left.has_owner(owner) {
        let i = choose|i: int|
            0 <= i < left.slots.len() && (#[trigger] left.slots[i]).owner == Some(owner);
    }
    if right.has_owner(owner) {
        let i = choose|i: int|
            0 <= i < right.slots.len() && (#[trigger] right.slots[i]).owner == Some(owner);
    }
}

/// The same change of a live completion keeps completions alike.
pub proof fn lemma_moved_alike(
    left: CompletionsState<IoResult>,
    right: CompletionsState<IoResult>,
    completion: CompletionHandle,
    state: CompletionState,
)
    requires
        completions_alike(left, right),
        left.live(completion),
    ensures
        right.live(completion),
        left.owner_of(completion) == right.owner_of(completion),
        left.status(completion) == right.status(completion),
        completions_alike(
            left.moved(completion, state, None),
            right.moved(completion, state, None),
        ),
        completions_alike(left.released(completion), right.released(completion)),
{
    let index = completion.index as int;
}

/// Alike completions have the same live ones.
pub proof fn lemma_same_live(
    left: CompletionsState<IoResult>,
    right: CompletionsState<IoResult>,
    completion: CompletionHandle,
)
    requires
        completions_alike(left, right),
    ensures
        left.live(completion) == right.live(completion),
        left.live(completion) ==> left.owner_of(completion) == right.owner_of(completion)
            && left.status(completion) == right.status(completion),
{
    if (completion.index as int) < left.slots.len() {
        let index = completion.index as int;
    }
}

/// Completing with alike results keeps completions alike.
pub proof fn lemma_completed_alike(
    left: CompletionsState<IoResult>,
    right: CompletionsState<IoResult>,
    completion: CompletionHandle,
    one: IoResult,
    other: IoResult,
)
    requires
        completions_alike(left, right),
        results_alike(one, other),
    ensures
        match (left.complete(completion, one), right.complete(completion, other)) {
            (Ok(first), Ok(second)) => {
                &&& completions_alike(first, second)
                &&& completions_alike(first.released(completion), second.released(completion))
                &&& left.status(completion) == right.status(completion)
            },
            (Err(first), Err(second)) => first == second,
            _ => false,
        },
{
    lemma_same_live(left, right, completion);
    if let Ok(first) = left.complete(completion, one) {
        let second = right.complete(completion, other)->Ok_0;
        let index = completion.index as int;
        lemma_moved_alike(first, second, completion, CompletionState::Idle);
    }
}

/// Alike batches make the same of alike completions.
pub proof fn lemma_reaped_alike(
    left: Reaped,
    right: Reaped,
    batch: Seq<DriverCompletion>,
    others: Seq<DriverCompletion>,
)
    requires
        completions_alike(left.completions, right.completions),
        left.ready == right.ready,
        left.refused == right.refused,
        batches_alike(batch, others),
    ensures
        completions_alike(left.reap_all(batch).completions, right.reap_all(others).completions),
        left.reap_all(batch).ready == right.reap_all(others).ready,
        left.reap_all(batch).refused == right.reap_all(others).refused,
    decreases batch.len(),
{
    if batch.len() > 0 {
        let rest = batch.drop_last();
        assert(batches_alike(rest, others.drop_last()));
        lemma_reaped_alike(left, right, rest, others.drop_last());
        let earlier = left.reap_all(rest);
        let earlier_other = right.reap_all(others.drop_last());
        let last = batch[batch.len() - 1];
        let last_other = others[batch.len() - 1];
        lemma_completed_alike(
            earlier.completions,
            earlier_other.completions,
            last.completion,
            last.result,
            last_other.result,
        );
    }
}

/// Routing goes by what is live and who owns it.
pub proof fn lemma_routed_alike(
    start: Routed,
    left: CompletionsState<IoResult>,
    right: CompletionsState<IoResult>,
    capacity: nat,
)
    requires
        completions_alike(left, right),
    ensures
        start.route(left, capacity) == start.route(right, capacity),
    decreases start.ready.len(),
{
    if start.queue.len() < capacity && start.ready.len() > 0 {
        let completion = start.ready[0];
        let rest = start.ready.skip(1);
        lemma_same_live(left, right, completion);
        if left.live(completion) {
            let next = Routed {
                queue: start.queue.push(
                    super::model::Envelope {
                        target: left.owner_of(completion),
                        message: crate::effects::RuntimeMessage::IoCompleted(completion),
                    },
                ),
                ready: rest,
                any: true,
            };
            lemma_routed_alike(next, left, right, capacity);
        } else {
            lemma_routed_alike(Routed { ready: rest, ..start }, left, right, capacity);
        }
    }
}

/// Removing the same isolate keeps arenas alike.
pub proof fn lemma_removed_alike<I>(
    same: spec_fn(I, I) -> bool,
    left: ArenaState<IsolateSlot<I>>,
    right: ArenaState<IsolateSlot<I>>,
    handle: Handle,
)
    requires
        arenas_alike(same, left, right),
    ensures
        arenas_alike(same, left.remove(handle), right.remove(handle)),
{
    if (handle.index as int) < left.slots.len() {
        assert(left.slots[handle.index as int].generation
            == right.slots[handle.index as int].generation);
    }
}

/// Alike arenas have the same isolates.
pub proof fn lemma_same_isolates<I>(
    same: spec_fn(I, I) -> bool,
    left: ArenaState<IsolateSlot<I>>,
    right: ArenaState<IsolateSlot<I>>,
    handle: Handle,
)
    requires
        arenas_alike(same, left, right),
    ensures
        left.has(handle) == right.has(handle),
        left.has(handle) ==> same(left.at(handle).isolate, right.at(handle).isolate)
            && left.at(handle).destroying == right.at(handle).destroying,
{
    if (handle.index as int) < left.slots.len() {
        assert(left.slots[handle.index as int].generation
            == right.slots[handle.index as int].generation);
    }
}

/// Sweeping alike servers leaves alike servers.
pub proof fn lemma_swept_alike<I>(
    same: spec_fn(I, I) -> bool,
    left: ServerState<I>,
    right: ServerState<I>,
    completions: CompletionsState<IoResult>,
    others: CompletionsState<IoResult>,
    index: int,
)
    requires
        servers_alike(same, left, right),
        completions_alike(completions, others),
    ensures
        servers_alike(same, left.sweep(completions, index), right.sweep(others, index)),
    decreases left.destroying.len() - index,
{
    if 0 <= index < left.destroying.len() {
        lemma_same_owners(completions, others, left.destroying[index]);
        if completions.has_owner(left.destroying[index]) {
            lemma_swept_alike(same, left, right, completions, others, index + 1);
        } else {
            lemma_removed_alike(same, left.arena, right.arena, left.destroying[index]);
            lemma_swept_alike(
                same,
                left.finalize_at(index),
                right.finalize_at(index),
                completions,
                others,
                index,
            );
        }
    }
}

/// Alike snapshots stay alike when isolates that are done leave.
pub proof fn lemma_finalized_alike<I, D>(
    same: spec_fn(I, I) -> bool,
    alike: spec_fn(D, D) -> bool,
    left: Snapshot<I, D>,
    right: Snapshot<I, D>,
)
    requires
        snapshots_alike(same, alike, left, right),
    ensures
        snapshots_alike(same, alike, left.finalize(), right.finalize()),
{
    lemma_swept_alike(
        same,
        left.server,
        right.server,
        left.io.completions,
        right.io.completions,
        0,
    );
}

/// Alike snapshots route the same messages.
pub proof fn lemma_routes_alike<I, D>(
    same: spec_fn(I, I) -> bool,
    alike: spec_fn(D, D) -> bool,
    left: Snapshot<I, D>,
    right: Snapshot<I, D>,
)
    requires
        snapshots_alike(same, alike, left, right),
    ensures
        left.routed() == right.routed(),
        snapshots_alike(same, alike, left.route(), right.route()),
{
    lemma_routed_alike(
        Routed { queue: left.server.queue, ready: left.io.ready, any: false },
        left.io.completions,
        right.io.completions,
        left.server.queue_capacity,
    );
}

/// Inserting alike isolates keeps arenas alike, under the same handle.
pub proof fn lemma_inserted_alike<I>(
    same: spec_fn(I, I) -> bool,
    left: ArenaState<IsolateSlot<I>>,
    right: ArenaState<IsolateSlot<I>>,
    one: I,
    other: I,
)
    requires
        arenas_alike(same, left, right),
        same(one, other),
        !left.full(),
    ensures
        left.next_handle() == right.next_handle(),
        arenas_alike(
            same,
            left.insert((IsolateSlot { isolate: one, destroying: false })),
            right.insert((IsolateSlot { isolate: other, destroying: false })),
        ),
{
}

/// Turns that end alike leave alike snapshots.
pub proof fn lemma_turn_ends_alike<I, D>(
    same: spec_fn(I, I) -> bool,
    alike: spec_fn(D, D) -> bool,
    left: Snapshot<I, D>,
    right: Snapshot<I, D>,
    owner: Handle,
    one: TurnState<I>,
    other: TurnState<I>,
    destroying: bool,
)
    requires
        snapshots_alike(same, alike, left, right),
        left.server.arena.has(owner),
        turns_alike(same, one, other),
    ensures
        snapshots_alike(
            same,
            alike,
            left.turn_end(owner, one, destroying),
            right.turn_end(owner, other, destroying),
        ),
{
    lemma_same_isolates(same, left.server.arena, right.server.arena, owner);
}

/// Alike effects ask for as many operations and isolates.
pub proof fn lemma_same_counts<I>(
    same: spec_fn(I, I) -> bool,
    left: Seq<Effect<I>>,
    right: Seq<Effect<I>>,
)
    requires
        effects_alike(same, left, right),
    ensures
        super::model::submits_in(left) == super::model::submits_in(right),
        super::model::spawns_in(left) == super::model::spawns_in(right),
    decreases left.len(),
{
    if left.len() > 0 {
        lemma_shorter_effects(same, left, right);
        lemma_same_counts(same, left.drop_last(), right.drop_last());
    }
}

/// Alike effects are alike without the last one, and so is the last one.
pub proof fn lemma_shorter_effects<I>(
    same: spec_fn(I, I) -> bool,
    left: Seq<Effect<I>>,
    right: Seq<Effect<I>>,
)
    requires
        effects_alike(same, left, right),
        left.len() > 0,
    ensures
        effects_alike(same, left.drop_last(), right.drop_last()),
        same_effect(same, left.last(), right.last()),
{
}

} // verus!
