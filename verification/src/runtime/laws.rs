//! What the parts of a step are for: completions reach their owners, effects take hold, and an
//! isolate that asks to be destroyed is.

use vstd::prelude::*;

use crate::arena::{ArenaError, Handle};
use crate::completion::{
    CompletionError, CompletionHandle, CompletionOp, CompletionState, CompletionsState,
};
use crate::effects::{Effect, RuntimeMessage};
use crate::io::{DriverCompletion, IoDriver, IoError, IoResult, Operation};

use super::context::{ContextState, Isolate, TurnState};
use super::error::RuntimeError;
use super::io_loop::{LoopState, Reaped};
use super::model::{Envelope, IsolateSlot, Routed, ServerState, Snapshot, StepResult};

verus! {

/// `completion` names a slot in its present generation, and the slot has an owner.
pub open spec fn is_owned(
    completions: CompletionsState<IoResult>,
    completion: CompletionHandle,
) -> bool {
    &&& completion.index < completions.slots.len()
    &&& completions.slots[completion.index as int].generation == completion.generation
    &&& completions.slots[completion.index as int].owner is Some
}

/// What tells the owner of `completion` that its operation has ended.
pub open spec fn notice(
    completions: CompletionsState<IoResult>,
    completion: CompletionHandle,
) -> Envelope {
    Envelope {
        target: completions.slots[completion.index as int].owner->0,
        message: RuntimeMessage::IoCompleted(completion),
    }
}

/// Routing loses no message and makes none up. Completions are taken off the front of the ready
/// list; each of them that has an owner becomes one message to that owner, and the messages are
/// added in the order of the list. Routing goes on until the queue is full or the list is empty, and
/// takes nothing off the list once the queue is full.
pub proof fn law_routing_loses_no_message(
    start: Routed,
    completions: CompletionsState<IoResult>,
    capacity: nat,
)
    ensures
        ({
            let post = start.route(completions, capacity);
            let count = start.ready.len() - post.ready.len();
            let owned = start.ready.take(count).filter(
                |completion: CompletionHandle| is_owned(completions, completion),
            );
            &&& 0 <= count
            &&& post.ready == start.ready.skip(count)
            &&& post.queue == start.queue + owned.map_values(
                |completion: CompletionHandle| notice(completions, completion),
            )
            &&& post.any == (start.any || owned.len() > 0)
            &&& post.ready.len() == 0 || post.queue.len() >= capacity
            &&& count > 0 ==> start.queue.len() < capacity
            &&& count > 0 && post.queue.len() >= capacity ==> is_owned(
                completions,
                start.ready[count - 1],
            )
        }),
    decreases start.ready.len(),
{
    reveal_with_fuel(Seq::filter, 2);
    let owns = |completion: CompletionHandle| is_owned(completions, completion);
    let tells = |completion: CompletionHandle| notice(completions, completion);
    let post = start.route(completions, capacity);
    if start.queue.len() < capacity && start.ready.len() > 0 {
        let first = start.ready[0];
        let rest = start.ready.skip(1);
        let next = if is_owned(completions, first) {
            Routed { queue: start.queue.push(notice(completions, first)), ready: rest, any: true }
        } else {
            Routed { ready: rest, ..start }
        };
        assert(post == next.route(completions, capacity));
        law_routing_loses_no_message(next, completions, capacity);
        let count = start.ready.len() - post.ready.len();
        let taken = start.ready.take(count);
        let later = rest.take(count - 1);
        assert(taken =~= seq![first] + later);
        Seq::filter_distributes_over_add(seq![first], later, owns);
        assert(seq![first].drop_last() =~= Seq::empty());
        assert(seq![first].filter(owns) =~= if is_owned(completions, first) {
            seq![first]
        } else {
            Seq::empty()
        });
        assert(post.queue =~= start.queue + taken.filter(owns).map_values(tells));
        assert(post.ready =~= start.ready.skip(count));
    } else {
        assert(start.ready.take(0) =~= Seq::empty());
        assert(start.queue =~= start.queue + start.ready.take(0).filter(owns).map_values(tells));
    }
}

/// `post` is `pre` but for the slot that `completion` names, which has gone from one state to
/// another; it has lost its result.
pub open spec fn only_moves(
    pre: CompletionsState<IoResult>,
    completion: CompletionHandle,
    to: CompletionState,
    post: CompletionsState<IoResult>,
) -> bool {
    let index = completion.index as int;
    &&& post.len == pre.len
    &&& post.free == pre.free
    &&& post.slots.len() == pre.slots.len()
    &&& post.slots[index].generation == pre.slots[index].generation
    &&& post.slots[index].owner == pre.slots[index].owner
    &&& post.slots[index].state == Some(to)
    &&& post.slots[index].result is None
    &&& forall|i: int|
        0 <= i < pre.slots.len() && i != index ==> (#[trigger] post.slots[i]) == pre.slots[i]
}

/// `post` is `pre` but for the slot that `completion` names, which is free again, in another
/// generation, and the next to be handed out.
pub open spec fn only_frees(
    pre: CompletionsState<IoResult>,
    completion: CompletionHandle,
    post: CompletionsState<IoResult>,
) -> bool {
    let index = completion.index as int;
    &&& post.len == pre.len - 1
    &&& post.free == pre.free.push(completion.index)
    &&& post.slots.len() == pre.slots.len()
    &&& post.slots[index].generation != pre.slots[index].generation
    &&& post.slots[index].owner is None
    &&& post.slots[index].state is None
    &&& post.slots[index].result is None
    &&& forall|i: int|
        0 <= i < pre.slots.len() && i != index ==> (#[trigger] post.slots[i]) == pre.slots[i]
}

/// The state of the slot that `completion` names, where that slot belongs to `owner`.
pub open spec fn owned_state(
    completions: CompletionsState<IoResult>,
    owner: Handle,
    completion: CompletionHandle,
) -> Option<CompletionState> {
    if is_owned(completions, completion) && completions.slots[completion.index as int].owner
        == Some(owner) {
        completions.slots[completion.index as int].state
    } else {
        None
    }
}

/// The error that `owner` gets for a completion that is not its own: it names nothing, or it is
/// somebody else's.
pub open spec fn refusal(
    completions: CompletionsState<IoResult>,
    completion: CompletionHandle,
) -> CompletionError {
    if is_owned(completions, completion) {
        CompletionError::WrongOwner
    } else {
        CompletionError::InvalidHandle
    }
}

/// The driver takes `op` for `completion` and turns into `post`.
pub open spec fn takes<D: IoDriver>(
    driver: D,
    completion: CompletionHandle,
    op: Operation,
    post: D,
) -> bool {
    exists|answer: Result<(), IoError>| #[trigger]
        driver.may_submit(completion, op, post, answer) && answer is Ok
}

/// The driver takes note that `completion` is to be cancelled, and turns into `post`.
pub open spec fn notes_cancellation<D: IoDriver>(
    driver: D,
    completion: CompletionHandle,
    post: D,
) -> bool {
    exists|answer: Result<(), IoError>| #[trigger]
        driver.may_cancel(completion, post, answer) && answer is Ok
}

/// Submitting an operation hands exactly that operation to the driver, under its completion, and
/// the completion is then submitted. The driver is not asked where the completion is not an idle one
/// of the isolate, and where the driver refuses, the completions are as they were.
pub proof fn law_submission_reaches_the_driver<D: IoDriver>(
    pre: LoopState<D>,
    owner: Handle,
    completion: CompletionHandle,
    op: Operation,
    post: LoopState<D>,
    outcome: Result<(), RuntimeError>,
)
    requires
        pre.completions.wf(),
        pre.may_submit(owner, completion, op, post, outcome),
    ensures
        post.ready == pre.ready,
        post.ready_capacity == pre.ready_capacity,
        match owned_state(pre.completions, owner, completion) {
            Some(CompletionState::Idle) => match outcome {
                Ok(_) => {
                    &&& takes(pre.driver, completion, op, post.driver)
                    &&& only_moves(
                        pre.completions,
                        completion,
                        CompletionState::Submitted,
                        post.completions,
                    )
                },
                Err(error) => {
                    &&& error matches RuntimeError::Io(refused) && pre.driver.may_submit(
                        completion,
                        op,
                        post.driver,
                        Err(refused),
                    )
                    &&& post.completions == pre.completions
                },
            },
            Some(_) => {
                &&& post == pre
                &&& outcome == Err::<(), _>(
                    RuntimeError::Completion(CompletionError::InvalidState),
                )
            },
            None => {
                &&& post == pre
                &&& outcome == Err::<(), _>(
                    RuntimeError::Completion(refusal(pre.completions, completion)),
                )
            },
        },
{
    let index = completion.index as int;
    if index < pre.completions.slots.len() {
        assert(pre.completions.slots[index].wf());
    }
}

/// Cancelling a completion whose operation is under way tells the driver, and the completion stays
/// until the driver reports it; one that is idle or ready is free at once, and the driver is not
/// told. A completion cannot be cancelled twice, nor by another isolate.
pub proof fn law_cancellation_reaches_the_driver<D: IoDriver>(
    pre: LoopState<D>,
    owner: Handle,
    completion: CompletionHandle,
    post: LoopState<D>,
    outcome: Result<(), RuntimeError>,
)
    requires
        pre.completions.wf(),
        pre.may_cancel(owner, completion, post, outcome),
    ensures
        post.ready == pre.ready,
        post.ready_capacity == pre.ready_capacity,
        match owned_state(pre.completions, owner, completion) {
            Some(CompletionState::Submitted) => {
                &&& only_moves(
                    pre.completions,
                    completion,
                    CompletionState::Cancelling,
                    post.completions,
                )
                &&& match outcome {
                    Ok(_) => notes_cancellation(pre.driver, completion, post.driver),
                    Err(error) => error matches RuntimeError::Io(refused)
                        && pre.driver.may_cancel(completion, post.driver, Err(refused)),
                }
            },
            Some(CompletionState::Cancelling) => {
                &&& post == pre
                &&& outcome == Err::<(), _>(
                    RuntimeError::Completion(CompletionError::InvalidState),
                )
            },
            Some(_) => {
                &&& post.driver == pre.driver
                &&& only_frees(pre.completions, completion, post.completions)
                &&& outcome is Ok
            },
            None => {
                &&& post == pre
                &&& outcome == Err::<(), _>(
                    RuntimeError::Completion(refusal(pre.completions, completion)),
                )
            },
        },
{
    let index = completion.index as int;
    if index < pre.completions.slots.len() {
        assert(pre.completions.slots[index].wf());
        if pre.completions.slots[index].owner is Some {
            crate::completion::lemma_live_means_len(pre.completions, index);
        }
    }
}

/// The slot of `isolate` was vacant in `pre`, and in `post` it holds `child`; no other slot has
/// changed.
pub open spec fn only_adds<I>(
    pre: ServerState<I>,
    isolate: Handle,
    child: I,
    post: ServerState<I>,
) -> bool {
    let index = isolate.index as int;
    &&& post.arena.slots.len() == pre.arena.slots.len()
    &&& index < pre.arena.slots.len()
    &&& pre.arena.slots[index].object is None
    &&& pre.arena.slots[index].generation == isolate.generation
    &&& post.arena.slots[index].generation == isolate.generation
    &&& post.arena.slots[index].object == Some(IsolateSlot { isolate: child, destroying: false })
    &&& forall|i: int|
        0 <= i < pre.arena.slots.len() && i != index ==> (#[trigger] post.arena.slots[i])
            == pre.arena.slots[i]
    &&& post.arena.len == pre.arena.len + 1
}

/// What one effect of `owner` that does not fail does: an operation is handed to the driver, a
/// cancellation reaches the driver or frees the completion, and a new isolate has its first message
/// at the end of the queue.
pub open spec fn takes_hold<I, D: IoDriver>(
    pre: Snapshot<I, D>,
    owner: Handle,
    effect: Effect<I>,
    post: Snapshot<I, D>,
) -> bool {
    &&& post.io.ready == pre.io.ready
    &&& post.io.ready_capacity == pre.io.ready_capacity
    &&& match effect {
        Effect::Submit { completion, op } => {
            &&& post.server == pre.server
            &&& owned_state(pre.io.completions, owner, completion) == Some(CompletionState::Idle)
            &&& takes(pre.io.driver, completion, op, post.io.driver)
            &&& only_moves(
                pre.io.completions,
                completion,
                CompletionState::Submitted,
                post.io.completions,
            )
        },
        Effect::Cancel { completion } => {
            &&& post.server == pre.server
            &&& match owned_state(pre.io.completions, owner, completion) {
                Some(CompletionState::Submitted) => {
                    &&& notes_cancellation(pre.io.driver, completion, post.io.driver)
                    &&& only_moves(
                        pre.io.completions,
                        completion,
                        CompletionState::Cancelling,
                        post.io.completions,
                    )
                },
                Some(CompletionState::Idle) | Some(CompletionState::Ready) => {
                    &&& post.io.driver == pre.io.driver
                    &&& only_frees(pre.io.completions, completion, post.io.completions)
                },
                _ => false,
            }
        },
        Effect::Spawn(child) => {
            let added = post.server.queue.last();
            &&& post.io == pre.io
            &&& post.server.queue.len() == pre.server.queue.len() + 1
            &&& pre.server.queue.is_prefix_of(post.server.queue)
            &&& added.message is Init
            &&& only_adds(pre.server, added.target, child, post.server)
            &&& post.server.queue_capacity == pre.server.queue_capacity
            &&& post.server.effects == pre.server.effects
            &&& post.server.destroying == pre.server.destroying
        },
        Effect::DestroySelf => post == pre,
    }
}

/// `states` lead from `pre` through `effects`, in order, each of which takes hold.
pub open spec fn take_hold<I, D: IoDriver>(
    states: Seq<Snapshot<I, D>>,
    owner: Handle,
    effects: Seq<Effect<I>>,
) -> bool {
    &&& states.len() == effects.len() + 1
    &&& forall|k: int|
        #![trigger effects[k]]
        0 <= k < effects.len() ==> takes_hold(states[k], owner, effects[k], states[k + 1])
}

/// One effect that does not fail takes hold.
proof fn lemma_effect_takes_hold<I, D: IoDriver>(
    pre: Snapshot<I, D>,
    owner: Handle,
    effect: Effect<I>,
    post: Snapshot<I, D>,
    outcome: Result<(), RuntimeError>,
)
    requires
        pre.server.arena.wf(),
        pre.io.completions.wf(),
        pre.may_apply(owner, effect, post, outcome),
    ensures
        post.server.arena.wf(),
        post.io.completions.wf(),
        outcome is Ok ==> takes_hold(pre, owner, effect, post),
{
    match effect {
        Effect::Submit { completion, op } => {
            law_submission_reaches_the_driver(pre.io, owner, completion, op, post.io, outcome);
        },
        Effect::Cancel { completion } => {
            law_cancellation_reaches_the_driver(pre.io, owner, completion, post.io, outcome);
            crate::completion::lemma_apply_wf(
                pre.io.completions,
                crate::completion::CompletionOp::Release(owner, completion),
            );
        },
        Effect::Spawn(child) => {
            if !pre.server.arena.full() {
                let slot = IsolateSlot { isolate: child, destroying: false };
                crate::arena::lemma_insert_wf(pre.server.arena, slot);
                assert(pre.server.arena.free.contains(pre.server.arena.free.last()));
            }
        },
        Effect::DestroySelf => {},
    }
}

/// The effects of a turn take hold one after the other, in the order in which they were asked for
/// and none left out. Where one of them fails, those before it have taken hold, and none after it.
pub proof fn law_effects_take_hold_in_order<I, D: IoDriver>(
    pre: Snapshot<I, D>,
    owner: Handle,
    effects: Seq<Effect<I>>,
    post: Snapshot<I, D>,
    outcome: Result<bool, RuntimeError>,
) -> (states: Seq<Snapshot<I, D>>)
    requires
        pre.server.arena.wf(),
        pre.io.completions.wf(),
        pre.may_apply_all(owner, effects, post, outcome),
    ensures
        post.server.arena.wf(),
        post.io.completions.wf(),
        0 < states.len() <= effects.len() + 1,
        states[0] == pre,
        take_hold(states, owner, effects.take(states.len() - 1)),
        match outcome {
            Ok(_) => states.len() == effects.len() + 1 && states.last() == post,
            Err(error) => {
                &&& states.len() <= effects.len()
                &&& states.last().may_apply(owner, effects[states.len() - 1], post, Err(error))
            },
        },
    decreases effects.len(),
{
    if effects.len() == 0 {
        seq![pre]
    } else {
        let rest = effects.drop_last();
        let (mid, earlier) = choose|mid: Snapshot<I, D>, earlier: Result<bool, RuntimeError>|
            {
                &&& pre.may_apply_all(owner, rest, mid, earlier)
                &&& #[trigger] mid.may_apply_last(owner, effects.last(), earlier, post, outcome)
            };
        let states = law_effects_take_hold_in_order(pre, owner, rest, mid, earlier);
        let count = states.len() - 1;
        assert(rest.take(count) =~= effects.take(count));
        if earlier is Ok {
            let done = match outcome {
                Ok(_) => Ok(()),
                Err(error) => Err(error),
            };
            lemma_effect_takes_hold(mid, owner, effects.last(), post, done);
            if outcome is Ok {
                let longer = states.push(post);
                let all = effects.take(longer.len() - 1);
                assert(all =~= effects);
                assert forall|k: int|
                    #![trigger all[k]]
                    0 <= k < all.len() implies takes_hold(
                    longer[k],
                    owner,
                    all[k],
                    longer[k + 1],
                ) by {
                    if k < count {
                        assert(effects.take(count)[k] == all[k]);
                    }
                }
                longer
            } else {
                states
            }
        } else {
            states
        }
    }
}

/// Where the effects of a turn are applied without an error, the answer says that the isolate asked
/// to be destroyed if and only if it did, at whatever place.
pub proof fn law_destruction_is_never_forgotten<I, D: IoDriver>(
    pre: Snapshot<I, D>,
    owner: Handle,
    effects: Seq<Effect<I>>,
    post: Snapshot<I, D>,
    asked: bool,
)
    requires
        pre.may_apply_all(owner, effects, post, Ok(asked)),
    ensures
        asked <==> exists|k: int| 0 <= k < effects.len() && (#[trigger] effects[k]) is DestroySelf,
    decreases effects.len(),
{
    if effects.len() > 0 {
        let rest = effects.drop_last();
        let (mid, earlier) = choose|mid: Snapshot<I, D>, earlier: Result<bool, RuntimeError>|
            {
                &&& pre.may_apply_all(owner, rest, mid, earlier)
                &&& #[trigger] mid.may_apply_last(
                    owner,
                    effects.last(),
                    earlier,
                    post,
                    Ok::<bool, RuntimeError>(asked),
                )
            };
        law_destruction_is_never_forgotten(pre, owner, rest, mid, earlier->Ok_0);
        if exists|k: int| 0 <= k < rest.len() && (#[trigger] rest[k]) is DestroySelf {
            let k = choose|k: int| 0 <= k < rest.len() && (#[trigger] rest[k]) is DestroySelf;
            assert(effects[k] is DestroySelf);
        }
        if effects.last() is DestroySelf {
            assert(effects[effects.len() - 1] is DestroySelf);
        }
        if exists|k: int| 0 <= k < effects.len() && (#[trigger] effects[k]) is DestroySelf {
            let k = choose|k: int| 0 <= k < effects.len() && (#[trigger] effects[k]) is DestroySelf;
            if k < rest.len() {
                assert(rest[k] is DestroySelf);
            }
        }
    }
}

/// Every isolate that a turn spawns is there afterwards, each under a handle of its own that named
/// nothing before, and its first message stands at the end of the queue, in the order in which they
/// were asked for. No other isolate and no other message is added.
pub proof fn law_spawned_isolates_are_there<I, D: IoDriver>(
    pre: Snapshot<I, D>,
    owner: Handle,
    effects: Seq<Effect<I>>,
    post: Snapshot<I, D>,
    asked: bool,
)
    requires
        pre.server.arena.wf(),
        pre.io.completions.wf(),
        pre.may_apply_all(owner, effects, post, Ok(asked)),
    ensures
        ({
            let children = effects.filter(|effect: Effect<I>| effect is Spawn);
            let held = pre.server.queue.len() as int;
            &&& post.server.queue.len() == held + children.len()
            &&& post.server.arena.len == pre.server.arena.len + children.len()
            &&& pre.server.queue.is_prefix_of(post.server.queue)
            &&& forall|j: int|
                #![trigger children[j]]
                0 <= j < children.len() ==> {
                    let added = post.server.queue[held + j];
                    &&& added.message is Init
                    &&& !pre.server.arena.has(added.target)
                    &&& post.server.arena.has(added.target)
                    &&& post.server.arena.at(added.target) == (IsolateSlot {
                        isolate: children[j]->Spawn_0,
                        destroying: false,
                    })
                }
            &&& forall|j: int, k: int|
                held <= j < k < post.server.queue.len() ==> (
                #[trigger] post.server.queue[j]).target != (#[trigger] post.server.queue[k]).target
            &&& forall|other: Handle|
                #![trigger pre.server.arena.has(other)]
                #![trigger post.server.arena.has(other)]
                pre.server.arena.has(other) ==> post.server.arena.has(other)
                    && post.server.arena.at(other) == pre.server.arena.at(other)
        }),
        post.server.arena.wf(),
        post.io.completions.wf(),
    decreases effects.len(),
{
    reveal(Seq::filter);
    let spawns = |effect: Effect<I>| effect is Spawn;
    if effects.len() > 0 {
        let rest = effects.drop_last();
        let last = effects.last();
        let (mid, earlier) = choose|mid: Snapshot<I, D>, earlier: Result<bool, RuntimeError>|
            {
                &&& pre.may_apply_all(owner, rest, mid, earlier)
                &&& #[trigger] mid.may_apply_last(
                    owner,
                    last,
                    earlier,
                    post,
                    Ok::<bool, RuntimeError>(asked),
                )
            };
        law_spawned_isolates_are_there(pre, owner, rest, mid, earlier->Ok_0);
        lemma_effect_takes_hold(mid, owner, last, post, Ok(()));
        let held = pre.server.queue.len() as int;
        let before = rest.filter(spawns);
        let children = effects.filter(spawns);
        if last is Spawn {
            assert(children =~= before.push(last));
            assert forall|other: Handle| #[trigger] mid.server.arena.has(other) implies
                post.server.arena.has(other) && post.server.arena.at(other)
                == mid.server.arena.at(other) by {
            }
            assert forall|j: int|
                #![trigger children[j]]
                0 <= j < children.len() implies ({
                let added = post.server.queue[held + j];
                &&& added.message is Init
                &&& !pre.server.arena.has(added.target)
                &&& post.server.arena.has(added.target)
                &&& post.server.arena.at(added.target) == (IsolateSlot {
                    isolate: children[j]->Spawn_0,
                    destroying: false,
                })
            }) by {
                if j < before.len() {
                    assert(children[j] == before[j]);
                    assert(post.server.queue[held + j] == mid.server.queue[held + j]);
                }
            }
            assert forall|j: int, k: int|
                held <= j < k < post.server.queue.len() implies (
            #[trigger] post.server.queue[j]).target != (
            #[trigger] post.server.queue[k]).target by {
                assert(post.server.queue[j] == mid.server.queue[j]);
                assert(children[j - held] == before[j - held]);
                if k < mid.server.queue.len() {
                    assert(post.server.queue[k] == mid.server.queue[k]);
                }
            }
        } else {
            assert(children =~= before);
            assert(post.server == mid.server);
        }
    }
}

/// The messages on their way once the first `count` of the ready completions have been routed.
pub open spec fn routed_queue<I, D>(pre: Snapshot<I, D>, count: int) -> Seq<Envelope> {
    pre.server.queue + pre.io.ready.take(count).filter(
        |completion: CompletionHandle| is_owned(pre.io.completions, completion),
    ).map_values(|completion: CompletionHandle| notice(pre.io.completions, completion))
}

/// `isolate` is there and has not been asked to leave.
pub open spec fn listens<I, D>(pre: Snapshot<I, D>, isolate: Handle) -> bool {
    let index = isolate.index as int;
    &&& index < pre.server.arena.slots.len()
    &&& pre.server.arena.slots[index].generation == isolate.generation
    &&& pre.server.arena.slots[index].object matches Some(slot) && !slot.destroying
}

/// Some completion belongs to `isolate`.
pub open spec fn owns_a_completion<I, D>(pre: Snapshot<I, D>, isolate: Handle) -> bool {
    exists|i: int|
        0 <= i < pre.io.completions.slots.len() && (#[trigger] pre.io.completions.slots[i]).owner
            == Some(isolate)
}

/// What a step does before it gives the turn to an isolate: isolates that are done have left, the
/// first `count` ready completions have become messages, and the first message is off the queue.
/// Nothing else has changed.
proof fn lemma_step_starts<I: Isolate, D: IoDriver>(
    pre: Snapshot<I, D>,
    post: Snapshot<I, D>,
    outcome: Result<StepResult, RuntimeError>,
) -> (parts: (int, Snapshot<I, D>))
    requires
        pre.wf(),
        pre.may_step(post, outcome),
    ensures
        0 <= parts.0 <= pre.io.ready.len(),
        parts.0 < pre.io.ready.len() ==> routed_queue(pre, parts.0).len()
            >= pre.server.queue_capacity,
        parts.0 > 0 ==> pre.server.queue.len() < pre.server.queue_capacity,
        routed_queue(pre, parts.0).len() <= pre.server.queue_capacity,
        parts.1.wf(),
        parts.1.io == (LoopState { ready: pre.io.ready.skip(parts.0), ..pre.io }),
        parts.1.server.queue == if routed_queue(pre, parts.0).len() > 0 {
            routed_queue(pre, parts.0).skip(1)
        } else {
            Seq::empty()
        },
        parts.1.server.queue_capacity == pre.server.queue_capacity,
        parts.1.server.effects == pre.server.effects,
        forall|isolate: Handle|
            #![trigger parts.1.server.arena.has(isolate)]
            #![trigger pre.server.arena.has(isolate)]
            {
                let leaves = pre.server.destroying.contains(isolate) && !owns_a_completion(
                    pre,
                    isolate,
                );
                &&& parts.1.server.arena.has(isolate) == (pre.server.arena.has(isolate) && !leaves)
                &&& parts.1.server.arena.has(isolate) ==> parts.1.server.arena.at(isolate)
                    == pre.server.arena.at(isolate)
            },
        if routed_queue(pre, parts.0).len() == 0 {
            post == parts.1 && exists|pending: bool| #[trigger]
                pre.io.driver.may_answer_has_pending(pending) && outcome == Ok::<_, RuntimeError>(
                    if pending || parts.0 < pre.io.ready.len() {
                        StepResult::AdvancedIo
                    } else {
                        StepResult::Idle
                    },
                )
        } else if !listens(pre, routed_queue(pre, parts.0)[0].target) {
            post == parts.1 && outcome == Ok::<_, RuntimeError>(StepResult::DroppedInvalid)
        } else {
            &&& parts.1.takes_messages(routed_queue(pre, parts.0)[0].target)
            &&& parts.1.may_take_turn(routed_queue(pre, parts.0)[0], post, outcome)
        },
{
    let swept = pre.finalize();
    let ready = swept.route();
    super::model::law_isolates_leave_when_they_own_no_completion(
        pre.server,
        pre.io.completions,
        arbitrary(),
    );
    let start = Routed { queue: pre.server.queue, ready: pre.io.ready, any: false };
    law_routing_loses_no_message(start, pre.io.completions, pre.server.queue_capacity);
    super::model::law_completions_are_routed_to_their_owners(
        start,
        pre.io.completions,
        pre.server.queue_capacity,
    );
    let count = pre.io.ready.len() - ready.io.ready.len();
    assert forall|isolate: Handle|
        #![trigger swept.server.arena.has(isolate)]
        #![trigger pre.server.arena.has(isolate)]
        ({
            let leaves = pre.server.destroying.contains(isolate) && !owns_a_completion(
                pre,
                isolate,
            );
            &&& swept.server.arena.has(isolate) == (pre.server.arena.has(isolate) && !leaves)
            &&& swept.server.arena.has(isolate) ==> swept.server.arena.at(isolate)
                == pre.server.arena.at(isolate)
        }) by {
        super::model::law_isolates_leave_when_they_own_no_completion(
            pre.server,
            pre.io.completions,
            isolate,
        );
        assert(owns_a_completion(pre, isolate) == pre.io.completions.has_owner(isolate));
    }
    let queue = routed_queue(pre, count);
    assert(ready.server.queue == queue);
    if queue.len() == 0 {
        assert(ready.server.queue =~= Seq::empty());
        assert(!swept.routed().any);
        let reply = choose|reply: bool| #[trigger]
            ready.io.may_answer_has_pending(reply) && outcome == Ok::<_, RuntimeError>(
                if swept.routed().any || reply {
                    StepResult::AdvancedIo
                } else {
                    StepResult::Idle
                },
            );
        let pending = choose|pending: bool| #[trigger]
            ready.io.driver.may_answer_has_pending(pending) && reply == (pending
                || ready.io.ready.len() > 0);
        assert(pre.io.driver.may_answer_has_pending(pending));
        (count, ready)
    } else {
        let target = queue[0].target;
        assert(swept.server.arena.has(target) ==> pre.server.arena.has(target));
        if pre.server.destroying.contains(target) {
            let k = choose|k: int|
                0 <= k < pre.server.destroying.len() && pre.server.destroying[k] == target;
            assert(pre.server.arena.at(pre.server.destroying[k]).destroying);
        }
        assert(ready.takes_messages(target) == listens(pre, target));
        (count, ready.pop())
    }
}

/// A step takes the first message there is. Completions that are ready are turned into messages
/// first, behind those that were on their way, as many as there is room for. A message for an isolate
/// that is gone or on its way out is dropped; any other gives its isolate the turn, and what is added
/// then stands behind the rest. Where there is no message at all, the step says whether anything is
/// still to come.
pub proof fn law_step_takes_the_first_message<I: Isolate, D: IoDriver>(
    pre: Snapshot<I, D>,
    post: Snapshot<I, D>,
    outcome: Result<StepResult, RuntimeError>,
) -> (count: int)
    requires
        pre.wf(),
        pre.may_step(post, outcome),
    ensures
        0 <= count <= pre.io.ready.len(),
        post.io.ready == pre.io.ready.skip(count),
        post.io.ready_capacity == pre.io.ready_capacity,
        post.server.queue_capacity == pre.server.queue_capacity,
        ({
            let queue = routed_queue(pre, count);
            &&& queue.len() <= pre.server.queue_capacity
            &&& count < pre.io.ready.len() ==> queue.len() == pre.server.queue_capacity
            &&& if queue.len() == 0 {
                &&& post.server.queue.len() == 0
                &&& post.io.driver == pre.io.driver
                &&& post.io.completions == pre.io.completions
                &&& exists|pending: bool| #[trigger]
                    pre.io.driver.may_answer_has_pending(pending) && outcome == Ok::<
                        _,
                        RuntimeError,
                    >(
                        if pending || count < pre.io.ready.len() {
                            StepResult::AdvancedIo
                        } else {
                            StepResult::Idle
                        },
                    )
            } else if !listens(pre, queue[0].target) {
                &&& outcome == Ok::<_, RuntimeError>(StepResult::DroppedInvalid)
                &&& post.server.queue == queue.skip(1)
                &&& post.io.driver == pre.io.driver
                &&& post.io.completions == pre.io.completions
            } else {
                &&& outcome matches Ok(result) ==> result == StepResult::ProcessedOne
                &&& queue.skip(1).is_prefix_of(post.server.queue)
            }
        }),
{
    let (count, start) = lemma_step_starts(pre, post, outcome);
    let queue = routed_queue(pre, count);
    if queue.len() > 0 && listens(pre, queue[0].target) {
        lemma_turn_keeps_the_queue(start, queue[0], post, outcome);
    }
    count
}

/// Effects add to the queue at its end, and leave the ready completions alone.
proof fn lemma_effects_keep_the_queue<I, D: IoDriver>(
    pre: Snapshot<I, D>,
    owner: Handle,
    effects: Seq<Effect<I>>,
    post: Snapshot<I, D>,
    outcome: Result<bool, RuntimeError>,
)
    requires
        pre.may_apply_all(owner, effects, post, outcome),
    ensures
        post.io.ready == pre.io.ready,
        post.io.ready_capacity == pre.io.ready_capacity,
        post.server.queue_capacity == pre.server.queue_capacity,
        post.server.effects == pre.server.effects,
        post.server.destroying == pre.server.destroying,
        pre.server.queue.is_prefix_of(post.server.queue),
    decreases effects.len(),
{
    if effects.len() > 0 {
        let (mid, earlier) = choose|mid: Snapshot<I, D>, earlier: Result<bool, RuntimeError>|
            {
                &&& pre.may_apply_all(owner, effects.drop_last(), mid, earlier)
                &&& #[trigger] mid.may_apply_last(owner, effects.last(), earlier, post, outcome)
            };
        lemma_effects_keep_the_queue(pre, owner, effects.drop_last(), mid, earlier);
    }
}

proof fn lemma_interpretation_keeps_the_queue<I, D: IoDriver>(
    pre: Snapshot<I, D>,
    owner: Handle,
    effects: Seq<Effect<I>>,
    post: Snapshot<I, D>,
    outcome: Result<bool, RuntimeError>,
)
    requires
        pre.may_interpret(owner, effects, post, outcome),
    ensures
        post.io.ready == pre.io.ready,
        post.io.ready_capacity == pre.io.ready_capacity,
        post.server.queue_capacity == pre.server.queue_capacity,
        post.server.effects == pre.server.effects,
        post.server.destroying == pre.server.destroying,
        pre.server.queue.is_prefix_of(post.server.queue),
{
    if post != pre {
        lemma_effects_keep_the_queue(pre, owner, effects, post, outcome);
    }
}

proof fn lemma_turn_keeps_the_queue<I: Isolate, D: IoDriver>(
    pre: Snapshot<I, D>,
    envelope: Envelope,
    post: Snapshot<I, D>,
    outcome: Result<StepResult, RuntimeError>,
)
    requires
        pre.wf(),
        pre.takes_messages(envelope.target),
        pre.may_take_turn(envelope, post, outcome),
    ensures
        post.io.ready == pre.io.ready,
        post.io.ready_capacity == pre.io.ready_capacity,
        post.server.queue_capacity == pre.server.queue_capacity,
        pre.server.queue.is_prefix_of(post.server.queue),
        outcome matches Ok(result) ==> result == StepResult::ProcessedOne,
{
    let (end, answer, mid, interpreted, gone, destroyed) = lemma_turn_parts(
        pre,
        envelope,
        post,
        outcome,
    );
    let owner = envelope.target;
    if answer is Ok {
        let turned = pre.turn_end(owner, end, false).without_effects();
        lemma_interpretation_keeps_the_queue(turned, owner, end.effects.effects, mid, interpreted);
        super::model::lemma_interpret_wf(turned, owner, end.effects.effects, mid, interpreted);
        if interpreted == Ok::<bool, RuntimeError>(false) {
            super::model::law_isolates_leave_when_they_own_no_completion(
                mid.server,
                mid.io.completions,
                owner,
            );
        }
        if interpreted == Ok::<bool, RuntimeError>(true) {
            lemma_destruction_keeps_the_queue(mid, owner, gone, destroyed);
            super::model::lemma_start_destroy(mid, owner, gone, destroyed, owner);
            super::model::law_isolates_leave_when_they_own_no_completion(
                gone.server,
                gone.io.completions,
                owner,
            );
        }
    }
}

proof fn lemma_destruction_keeps_the_queue<I: Isolate, D: IoDriver>(
    pre: Snapshot<I, D>,
    owner: Handle,
    post: Snapshot<I, D>,
    outcome: Result<(), RuntimeError>,
)
    requires
        pre.may_start_destroy(owner, post, outcome),
    ensures
        post.io.ready == pre.io.ready,
        post.io.ready_capacity == pre.io.ready_capacity,
        post.server.queue_capacity == pre.server.queue_capacity,
        pre.server.queue.is_prefix_of(post.server.queue),
{
    if pre.takes_messages(owner) {
        let (end, answer, mid, interpreted) = lemma_last_turn_parts(pre, owner, post, outcome);
        if answer is Ok {
            lemma_interpretation_keeps_the_queue(
                pre.turn_end(owner, end, true).without_effects(),
                owner,
                end.effects.effects,
                mid,
                interpreted,
            );
        }
    }
}

/// What a turn consists of: how the isolate ended it, what became of its effects, and of its
/// destruction, where it asked for that.
proof fn lemma_turn_parts<I: Isolate, D: IoDriver>(
    pre: Snapshot<I, D>,
    envelope: Envelope,
    post: Snapshot<I, D>,
    outcome: Result<StepResult, RuntimeError>,
) -> (parts: (
    TurnState<I>,
    Result<(), RuntimeError>,
    Snapshot<I, D>,
    Result<bool, RuntimeError>,
    Snapshot<I, D>,
    Result<(), RuntimeError>,
))
    requires
        pre.may_take_turn(envelope, post, outcome),
    ensures
        ({
            let (end, answer, mid, interpreted, gone, destroyed) = parts;
            let owner = envelope.target;
            let turned = pre.turn_end(owner, end, false);
            &&& pre.may_end_turn(owner, envelope.message, end, answer)
            &&& match answer {
                Err(error) => post == turned && outcome == Err::<StepResult, _>(error),
                Ok(_) => {
                    &&& turned.without_effects().may_interpret(
                        owner,
                        end.effects.effects,
                        mid,
                        interpreted,
                    )
                    &&& match interpreted {
                        Err(error) => post == mid && outcome == Err::<StepResult, _>(error),
                        Ok(false) => {
                            &&& post == mid.finalize()
                            &&& outcome == Ok::<_, RuntimeError>(StepResult::ProcessedOne)
                        },
                        Ok(true) => {
                            &&& mid.may_start_destroy(owner, gone, destroyed)
                            &&& match destroyed {
                                Err(error) => {
                                    post == gone && outcome == Err::<StepResult, _>(error)
                                },
                                Ok(_) => {
                                    &&& post == gone.finalize()
                                    &&& outcome == Ok::<_, RuntimeError>(StepResult::ProcessedOne)
                                },
                            }
                        },
                    }
                },
            }
        }),
{
    let owner = envelope.target;
    let (end, answer) = choose|end: TurnState<I>, answer: Result<(), RuntimeError>|
        {
            &&& #[trigger] pre.may_end_turn(owner, envelope.message, end, answer)
            &&& match answer {
                Err(error) => {
                    &&& post == pre.turn_end(owner, end, false)
                    &&& outcome == Err::<StepResult, _>(error)
                },
                Ok(_) => pre.turn_end(owner, end, false).may_finish_turn(owner, post, outcome),
            }
        };
    let turned = pre.turn_end(owner, end, false);
    let (mid, interpreted) = choose|mid: Snapshot<I, D>, interpreted: Result<bool, RuntimeError>|
        {
            &&& #[trigger] turned.without_effects().may_interpret(
                owner,
                turned.server.effects.effects,
                mid,
                interpreted,
            )
            &&& match interpreted {
                Err(error) => post == mid && outcome == Err::<StepResult, _>(error),
                Ok(false) => {
                    &&& post == mid.finalize()
                    &&& outcome == Ok::<_, RuntimeError>(StepResult::ProcessedOne)
                },
                Ok(true) => mid.may_end_destroyed(owner, post, outcome),
            }
        };
    let (gone, destroyed) = choose|gone: Snapshot<I, D>, destroyed: Result<(), RuntimeError>|
        {
            &&& #[trigger] mid.may_start_destroy(owner, gone, destroyed)
            &&& match destroyed {
                Err(error) => post == gone && outcome == Err::<StepResult, _>(error),
                Ok(_) => {
                    &&& post == gone.finalize()
                    &&& outcome == Ok::<_, RuntimeError>(StepResult::ProcessedOne)
                },
            }
        };
    (end, answer, mid, interpreted, gone, destroyed)
}

/// What the last turn of an isolate consists of.
proof fn lemma_last_turn_parts<I: Isolate, D: IoDriver>(
    pre: Snapshot<I, D>,
    owner: Handle,
    post: Snapshot<I, D>,
    outcome: Result<(), RuntimeError>,
) -> (parts: (
    TurnState<I>,
    Result<(), RuntimeError>,
    Snapshot<I, D>,
    Result<bool, RuntimeError>,
))
    requires
        pre.takes_messages(owner),
        pre.may_start_destroy(owner, post, outcome),
    ensures
        ({
            let (end, answer, mid, interpreted) = parts;
            let turned = pre.turn_end(owner, end, true);
            &&& pre.may_end_last_turn(owner, end, answer)
            &&& match answer {
                Err(_) => post == turned && outcome == answer,
                Ok(_) => {
                    &&& turned.without_effects().may_interpret(
                        owner,
                        end.effects.effects,
                        mid,
                        interpreted,
                    )
                    &&& match interpreted {
                        Err(error) => post == mid && outcome == Err::<(), _>(error),
                        Ok(_) => post == mid.list_destroying(owner) && outcome is Ok,
                    }
                },
            }
        }),
{
    let (end, answer) = choose|end: TurnState<I>, answer: Result<(), RuntimeError>|
        {
            &&& #[trigger] pre.may_end_last_turn(owner, end, answer)
            &&& match answer {
                Err(_) => post == pre.turn_end(owner, end, true) && outcome == answer,
                Ok(_) => pre.turn_end(owner, end, true).may_finish_last_turn(
                    owner,
                    post,
                    outcome,
                ),
            }
        };
    let turned = pre.turn_end(owner, end, true);
    let (mid, interpreted) = choose|mid: Snapshot<I, D>, interpreted: Result<bool, RuntimeError>|
        {
            &&& #[trigger] turned.without_effects().may_interpret(
                owner,
                turned.server.effects.effects,
                mid,
                interpreted,
            )
            &&& match interpreted {
                Err(error) => post == mid && outcome == Err::<(), _>(error),
                Ok(_) => post == mid.list_destroying(owner) && outcome is Ok,
            }
        };
    (end, answer, mid, interpreted)
}

/// The isolate that `isolate` names in `server` is `held`, and is or is not on its way out.
pub open spec fn holds<I>(
    server: ServerState<I>,
    isolate: Handle,
    held: I,
    destroying: bool,
) -> bool {
    let index = isolate.index as int;
    &&& index < server.arena.slots.len()
    &&& server.arena.slots[index].generation == isolate.generation
    &&& server.arena.slots[index].object == Some(IsolateSlot { isolate: held, destroying })
}

/// `states` start where the isolate `owner` ended a turn in `end`: it is as it left itself, its
/// completions are as it left them, and nothing that it asked for has been done.
pub open spec fn starts_from_turn<I, D>(
    states: Seq<Snapshot<I, D>>,
    owner: Handle,
    end: TurnState<I>,
    destroying: bool,
    driver: D,
    queue: Seq<Envelope>,
) -> bool {
    &&& states.len() > 0
    &&& holds(states[0].server, owner, end.isolate, destroying)
    &&& states[0].io.completions == end.io.completions
    &&& states[0].io.driver == driver
    &&& states[0].server.queue == queue
}

/// A step that handles a message gives one isolate the turn, and does all that it asks for.
///
/// The first message counts, once `count` of the ready completions have become messages. The isolate
/// that it is for is handed the message, its own state, all completions under its own name, and an
/// empty list of effects, and ends its turn in `end`. Its effects take hold in order, which leads
/// through `states`. Where none of them is `DestroySelf` the
/// isolate stays as it left itself. Where one is, at whatever place, the isolate takes its last turn,
/// which ends in `last`; what it asks for there takes hold too, which leads through `later`; and from
/// then on it takes no message and is gone once it owns no completion.
pub proof fn law_step_does_what_the_isolate_asks_for<I: Isolate, D: IoDriver>(
    pre: Snapshot<I, D>,
    post: Snapshot<I, D>,
) -> (parts: (int, TurnState<I>, Seq<Snapshot<I, D>>, TurnState<I>, Seq<Snapshot<I, D>>))
    requires
        pre.wf(),
        pre.may_step(post, Ok(StepResult::ProcessedOne)),
    ensures
        ({
            let (count, end, states, last, later) = parts;
            let message = routed_queue(pre, count)[0];
            let owner = message.target;
            let asked = end.effects.effects;
            let destroyed = exists|k: int|
                0 <= k < asked.len() && (#[trigger] asked[k]) is DestroySelf;
            &&& 0 <= count <= pre.io.ready.len()
            &&& count < pre.io.ready.len() ==> routed_queue(pre, count).len()
                == pre.server.queue_capacity
            &&& routed_queue(pre, count).len() > 0
            &&& post.io.ready == pre.io.ready.skip(count)
            &&& listens(pre, owner)
            &&& exists|handled: Result<(), RuntimeError>|
                handled is Ok && #[trigger] I::may_handle(
                    TurnState {
                        isolate: pre.server.arena.at(owner).isolate,
                        io: ContextState { completions: pre.io.completions, owner },
                        effects: crate::effects::EffectsState {
                            effects: Seq::empty(),
                            max_effects: pre.server.effects.max_effects,
                        },
                    },
                    message.message,
                    end,
                    handled,
                )
            &&& starts_from_turn(
                states,
                owner,
                end,
                false,
                pre.io.driver,
                routed_queue(pre, count).skip(1),
            )
            &&& take_hold(states, owner, asked)
            &&& if !destroyed {
                &&& holds(post.server, owner, end.isolate, false)
                &&& post.io == states.last().io
                &&& post.server.queue == states.last().server.queue
            } else {
                &&& exists|handled: Result<(), RuntimeError>|
                    handled is Ok && #[trigger] I::may_destroy(
                        TurnState {
                            isolate: end.isolate,
                            io: ContextState { completions: states.last().io.completions, owner },
                            effects: crate::effects::EffectsState {
                                effects: Seq::empty(),
                                max_effects: end.effects.max_effects,
                            },
                        },
                        last,
                        handled,
                    )
                &&& starts_from_turn(
                    later,
                    owner,
                    last,
                    true,
                    states.last().io.driver,
                    states.last().server.queue,
                )
                &&& take_hold(later, owner, last.effects.effects)
                &&& post.io == later.last().io
                &&& post.server.queue == later.last().server.queue
                &&& !listens(post, owner)
                &&& post.server.arena.has(owner) == owns_a_completion(post, owner)
                &&& owns_a_completion(post, owner) ==> {
                    &&& holds(post.server, owner, last.isolate, true)
                    &&& post.server.destroying.contains(owner)
                }
            }
        }),
{
    let outcome = Ok::<StepResult, RuntimeError>(StepResult::ProcessedOne);
    let (count, start) = lemma_step_starts(pre, post, outcome);
    let envelope = routed_queue(pre, count)[0];
    let owner = envelope.target;
    let (end, answer, mid, interpreted, gone, destroyed) = lemma_turn_parts(
        start,
        envelope,
        post,
        outcome,
    );
    let asked = end.effects.effects;
    let turned = start.turn_end(owner, end, false).without_effects();
    assert(pre.server.arena.has(owner));
    assert(turned.wf());
    super::model::lemma_interpret_wf(turned, owner, asked, mid, interpreted);
    assert(turned.may_apply_all(owner, asked, mid, interpreted));
    let states = law_effects_take_hold_in_order(turned, owner, asked, mid, interpreted);
    assert(asked.take(states.len() - 1) =~= asked);
    law_destruction_is_never_forgotten(turned, owner, asked, mid, interpreted->Ok_0);
    super::model::law_effects_keep_every_isolate(turned, owner, asked, mid, interpreted, owner);
    lemma_interpretation_keeps_the_queue(turned, owner, asked, mid, interpreted);
    if interpreted == Ok::<bool, RuntimeError>(false) {
        super::model::law_isolates_leave_when_they_own_no_completion(
            mid.server,
            mid.io.completions,
            owner,
        );
        if mid.server.destroying.contains(owner) {
            let k = choose|k: int|
                0 <= k < mid.server.destroying.len() && mid.server.destroying[k] == owner;
            assert(mid.server.arena.at(mid.server.destroying[k]).destroying);
        }
        (count, end, states, end, states)
    } else {
        assert(mid.takes_messages(owner));
        let (last, answered, done, applied) = lemma_last_turn_parts(mid, owner, gone, destroyed);
        let wanted = last.effects.effects;
        let leaving = mid.turn_end(owner, last, true).without_effects();
        assert(leaving.wf());
        super::model::lemma_start_destroy(mid, owner, gone, destroyed, owner);
        super::model::law_effects_keep_every_isolate(leaving, owner, wanted, done, applied, owner);
        lemma_interpretation_keeps_the_queue(leaving, owner, wanted, done, applied);
        assert(leaving.may_apply_all(owner, wanted, done, applied));
        let later = law_effects_take_hold_in_order(leaving, owner, wanted, done, applied);
        assert(wanted.take(later.len() - 1) =~= wanted);
        super::model::law_isolates_leave_when_they_own_no_completion(
            gone.server,
            gone.io.completions,
            owner,
        );
        assert(gone.server.destroying.last() == owner);
        assert(gone.server.destroying.contains(owner));
        assert(owns_a_completion(post, owner) == post.io.completions.has_owner(owner));
        (count, end, states, last, later)
    }
}

/// An isolate that fails keeps what it made of itself and of its completions, and nothing that it
/// asked for is done: no operation is submitted or cancelled, no isolate is added, and no message.
pub proof fn law_failing_isolate_gets_nothing_done<I: Isolate, D: IoDriver>(
    pre: Snapshot<I, D>,
    envelope: Envelope,
    post: Snapshot<I, D>,
    outcome: Result<StepResult, RuntimeError>,
)
    requires
        pre.wf(),
        pre.takes_messages(envelope.target),
        pre.may_take_turn(envelope, post, outcome),
        forall|end: TurnState<I>, answer: Result<(), RuntimeError>| #[trigger]
            I::may_handle(
                TurnState {
                    isolate: pre.server.arena.at(envelope.target).isolate,
                    io: ContextState {
                        completions: pre.io.completions,
                        owner: envelope.target,
                    },
                    effects: crate::effects::EffectsState {
                        effects: Seq::empty(),
                        max_effects: pre.server.effects.max_effects,
                    },
                },
                envelope.message,
                end,
                answer,
            ) ==> answer is Err,
    ensures
        outcome is Err,
        post.io.driver == pre.io.driver,
        post.io.ready == pre.io.ready,
        post.server.queue == pre.server.queue,
        post.server.arena.len == pre.server.arena.len,
        post.server.destroying == pre.server.destroying,
        listens(post, envelope.target),
{
    let (end, answer, _, _, _, _) = lemma_turn_parts(pre, envelope, post, outcome);
    assert(pre.turn_start(envelope.target).effects.effects =~= Seq::empty());
}

/// A turn is measured by what it asks for: each `Submit` counts as one operation, and each `Spawn`
/// as one isolate.
pub proof fn law_effects_are_counted<I>(effects: Seq<Effect<I>>)
    ensures
        super::model::submits_in(effects) == effects.filter(
            |effect: Effect<I>| effect is Submit,
        ).len(),
        super::model::spawns_in(effects) == effects.filter(
            |effect: Effect<I>| effect is Spawn,
        ).len(),
    decreases effects.len(),
{
    reveal(Seq::filter);
    if effects.len() > 0 {
        law_effects_are_counted(effects.drop_last());
    }
}

/// A turn is applied where there is room for all it asks for: it is refused only for the lack of
/// room that it names, and once it is not refused, only an effect itself can fail.
pub proof fn law_turn_with_room_is_applied<I, D: IoDriver>(
    pre: Snapshot<I, D>,
    owner: Handle,
    effects: Seq<Effect<I>>,
    post: Snapshot<I, D>,
    outcome: Result<bool, RuntimeError>,
)
    requires
        pre.wf(),
        pre.may_interpret(owner, effects, post, outcome),
    ensures
        ({
            let submits = effects.filter(|effect: Effect<I>| effect is Submit).len();
            let spawns = effects.filter(|effect: Effect<I>| effect is Spawn).len();
            ||| {
                &&& post == pre
                &&& outcome == Err::<bool, _>(RuntimeError::Io(IoError::DriverFull))
                &&& pre.io.driver.may_answer_can_submit(submits as usize, false)
            }
            ||| {
                &&& post == pre
                &&& outcome == Err::<bool, _>(RuntimeError::Arena(ArenaError::Full))
                &&& pre.io.driver.may_answer_can_submit(submits as usize, true)
                &&& pre.server.arena.len + spawns > pre.server.arena.slots.len()
            }
            ||| {
                &&& post == pre
                &&& outcome == Err::<bool, _>(RuntimeError::QueueFull)
                &&& pre.io.driver.may_answer_can_submit(submits as usize, true)
                &&& pre.server.arena.len + spawns <= pre.server.arena.slots.len()
                &&& pre.server.queue.len() + spawns > pre.server.queue_capacity
            }
            ||| {
                &&& pre.io.driver.may_answer_can_submit(submits as usize, true)
                &&& pre.server.arena.len + spawns <= pre.server.arena.slots.len()
                &&& pre.server.queue.len() + spawns <= pre.server.queue_capacity
                &&& pre.may_apply_all(owner, effects, post, outcome)
                &&& outcome matches Err(error) ==> !(error is Arena) && !(error is QueueFull)
            }
        }),
{
    law_effects_are_counted(effects);
    if pre.may_apply_all(owner, effects, post, outcome) && pre.server.arena.len
        + super::model::spawns_in(effects) <= pre.server.arena.capacity() {
        super::model::lemma_spawns_never_fail(pre, owner, effects, post, outcome);
    }
}

/// An isolate that is spawned from outside is there under the handle that is returned, which named
/// nothing before, and its first message stands at the end of the queue. It is refused only where
/// every slot holds an isolate or the queue is full, and then no isolate and no message is added. The
/// slot that an isolate was to have which found the queue full is free again, in its next generation.
pub proof fn law_spawned_isolate_is_there<I>(
    pre: ServerState<I>,
    isolate: I,
    post: ServerState<I>,
    outcome: Result<Handle, RuntimeError>,
    other: Handle,
)
    requires
        pre.wf(),
        pre.spawned(isolate, post, outcome),
    ensures
        post.queue_capacity == pre.queue_capacity,
        post.effects == pre.effects,
        post.destroying == pre.destroying,
        post.arena.slots.len() == pre.arena.slots.len(),
        match outcome {
            Ok(handle) => {
                &&& pre.arena.len < pre.arena.slots.len()
                &&& pre.queue.len() < pre.queue_capacity
                &&& only_adds(pre, handle, isolate, post)
                &&& post.queue == pre.queue.push(
                    Envelope { target: handle, message: RuntimeMessage::Init },
                )
            },
            Err(error) => {
                &&& post.queue == pre.queue
                &&& post.arena.len == pre.arena.len
                &&& post.arena.has(other) == pre.arena.has(other)
                &&& pre.arena.has(other) ==> post.arena.at(other) == pre.arena.at(other)
                &&& if pre.arena.len == pre.arena.slots.len() {
                    error == RuntimeError::Arena(ArenaError::Full)
                } else {
                    let index = pre.arena.free.last() as int;
                    let generation = pre.arena.slots[index].generation;
                    &&& pre.queue.len() == pre.queue_capacity
                    &&& error == RuntimeError::QueueFull
                    &&& post.arena.free == pre.arena.free
                    &&& post.arena.slots[index].object is None
                    &&& post.arena.slots[index].generation == if generation < u32::MAX {
                        generation + 1
                    } else {
                        0
                    }
                }
            },
        },
{
    if !pre.arena.full() {
        assert(pre.arena.free.contains(pre.arena.free.last()));
    }
}

/// A message from outside goes to the end of the queue, to whom it is for, and is refused only
/// where the queue is full.
pub proof fn law_posted_message_is_last<I>(
    pre: ServerState<I>,
    target: Handle,
    message: RuntimeMessage,
    post: ServerState<I>,
    outcome: Result<(), RuntimeError>,
)
    requires
        pre.wf(),
        pre.posted(target, message, post, outcome),
    ensures
        post.arena == pre.arena,
        post.queue_capacity == pre.queue_capacity,
        post.effects == pre.effects,
        post.destroying == pre.destroying,
        match outcome {
            Ok(_) => {
                &&& pre.queue.len() < pre.queue_capacity
                &&& post.queue == pre.queue.push(Envelope { target, message })
            },
            Err(error) => {
                &&& pre.queue.len() == pre.queue_capacity
                &&& error == RuntimeError::QueueFull
                &&& post.queue == pre.queue
            },
        },
{
}

/// A run says how many messages it handled.
pub proof fn law_handled_messages_are_counted(results: Seq<StepResult>)
    ensures
        super::model::processed_in(results) == results.filter(
            |result: StepResult| result == StepResult::ProcessedOne,
        ).len(),
    decreases results.len(),
{
    reveal(Seq::filter);
    if results.len() > 0 {
        law_handled_messages_are_counted(results.drop_last());
    }
}

/// A run that comes to its end leaves nothing to do: no message is on its way, no completion is
/// ready, and the driver says that nothing is pending. It has handled as many messages as it says,
/// and every step of the server but the last, which was idle, was followed by a step of the loop.
pub proof fn law_run_leaves_nothing_to_do<I: Isolate, D: IoDriver>(
    pre: Snapshot<I, D>,
    states: Seq<Snapshot<I, D>>,
    results: Seq<StepResult>,
    post: Snapshot<I, D>,
    processed: usize,
)
    requires
        pre.wf(),
        pre.runs_through(states, results),
        states.last().may_end_run(results, post, Ok(processed)),
        results.len() < usize::MAX,
    ensures
        post.server.queue.len() == 0,
        post.io.ready.len() == 0,
        post.io.driver.may_answer_has_pending(false),
        processed == results.filter(
            |result: StepResult| result == StepResult::ProcessedOne,
        ).len(),
        states.len() == results.len() + 1,
        states[0] == pre,
        forall|k: int|
            0 <= k < results.len() ==> (#[trigger] results[k]) != StepResult::Idle
                && steps_with_loop(states[k], results[k], states[k + 1]),
{
    law_handled_messages_are_counted(results);
    lemma_rounds_wf(pre, states, results, results.len());
    let last = states.last();
    let count = law_step_takes_the_first_message(last, post, Ok(StepResult::Idle));
    let pending = choose|pending: bool| #[trigger]
        last.io.driver.may_answer_has_pending(pending) && Ok::<_, RuntimeError>(StepResult::Idle)
            == Ok::<_, RuntimeError>(
            if pending || count < last.io.ready.len() {
                StepResult::AdvancedIo
            } else {
                StepResult::Idle
            },
        );
    assert forall|k: int| 0 <= k < results.len() implies (#[trigger] results[k])
        != StepResult::Idle && steps_with_loop(states[k], results[k], states[k + 1]) by {
        let (mid, progressed) = choose|mid: Snapshot<I, D>, progressed: bool|
            {
                &&& #[trigger] states[k].may_step(mid, Ok(results[k]))
                &&& #[trigger] mid.io.may_step(states[k + 1].io, Ok(progressed))
                &&& states[k + 1].server == mid.server
            };
        assert(states[k].may_step(mid, Ok(results[k])));
    }
}

/// One step of the server that gives `result`, and one step of the loop that succeeds.
pub open spec fn steps_with_loop<I: Isolate, D: IoDriver>(
    pre: Snapshot<I, D>,
    result: StepResult,
    post: Snapshot<I, D>,
) -> bool {
    exists|mid: Snapshot<I, D>| #[trigger]
        pre.may_step(mid, Ok(result)) && post.server == mid.server && exists|
            looped: Result<bool, RuntimeError>,
        | #[trigger] mid.io.may_step(post.io, looped) && looped is Ok
}

/// Every step of the server keeps it and the loop well formed.
pub proof fn law_steps_keep_the_server_well_formed<I: Isolate, D: IoDriver>(
    pre: Snapshot<I, D>,
    post: Snapshot<I, D>,
    outcome: Result<StepResult, RuntimeError>,
)
    requires
        pre.wf(),
        pre.may_step(post, outcome),
    ensures
        post.wf(),
{
    let (count, start) = lemma_step_starts(pre, post, outcome);
    let queue = routed_queue(pre, count);
    if queue.len() > 0 && listens(pre, queue[0].target) {
        let (end, answer, mid, interpreted, gone, destroyed) = lemma_turn_parts(
            start,
            queue[0],
            post,
            outcome,
        );
        let owner = queue[0].target;
        let asked = end.effects.effects;
        let turned = start.turn_end(owner, end, false).without_effects();
        assert(turned.wf());
        if answer is Ok {
            super::model::lemma_interpret_wf(turned, owner, asked, mid, interpreted);
            if interpreted == Ok::<bool, RuntimeError>(false) {
                super::model::law_isolates_leave_when_they_own_no_completion(
                    mid.server,
                    mid.io.completions,
                    owner,
                );
            }
            if interpreted == Ok::<bool, RuntimeError>(true) {
                super::model::lemma_start_destroy(mid, owner, gone, destroyed, owner);
                if destroyed is Ok {
                    super::model::law_isolates_leave_when_they_own_no_completion(
                        gone.server,
                        gone.io.completions,
                        owner,
                    );
                }
            }
        }
    }
}

/// Every step of the loop keeps it well formed.
pub proof fn law_loop_steps_keep_the_loop_well_formed<D: IoDriver>(
    pre: LoopState<D>,
    post: LoopState<D>,
    outcome: Result<bool, RuntimeError>,
)
    requires
        pre.wf(),
        pre.may_step(post, outcome),
    ensures
        post.wf(),
{
    let (batch, answer) = choose|batch: Seq<DriverCompletion>, answer: Result<bool, IoError>|
        #[trigger] pre.steps_with(batch, answer, post, outcome);
    lemma_reap_all_wf(pre.unreaped(), batch);
}

proof fn lemma_reap_all_wf(state: Reaped, batch: Seq<DriverCompletion>)
    requires
        state.completions.wf(),
    ensures
        state.reap_all(batch).completions.wf(),
    decreases batch.len(),
{
    if batch.len() > 0 {
        lemma_reap_all_wf(state, batch.drop_last());
        let earlier = state.reap_all(batch.drop_last()).completions;
        let done = batch.last();
        let reported = CompletionOp::Complete(done.completion, done.result);
        crate::completion::lemma_apply_wf(earlier, reported);
        crate::completion::lemma_apply_wf(
            earlier.apply(reported),
            CompletionOp::Release(earlier.owner_of(done.completion), done.completion),
        );
    }
}

proof fn lemma_rounds_wf<I: Isolate, D: IoDriver>(
    pre: Snapshot<I, D>,
    states: Seq<Snapshot<I, D>>,
    results: Seq<StepResult>,
    count: nat,
)
    requires
        pre.wf(),
        pre.runs_through(states, results),
        count <= results.len(),
    ensures
        states[count as int].wf(),
    decreases count,
{
    if count > 0 {
        lemma_rounds_wf(pre, states, results, (count - 1) as nat);
        let k = count - 1;
        let (mid, progressed) = choose|mid: Snapshot<I, D>, progressed: bool|
            {
                &&& #[trigger] states[k].may_step(mid, Ok(results[k]))
                &&& #[trigger] mid.io.may_step(states[k + 1].io, Ok(progressed))
                &&& states[k + 1].server == mid.server
            };
        law_steps_keep_the_server_well_formed(states[k], mid, Ok(results[k]));
        law_loop_steps_keep_the_loop_well_formed(mid.io, states[k + 1].io, Ok(progressed));
    }
}

/// `states` are reached from the first one by steps of the server and of the loop in turn, none of
/// which failed and none of which was idle.
pub open spec fn reaches<I: Isolate, D: IoDriver>(
    states: Seq<Snapshot<I, D>>,
    results: Seq<StepResult>,
) -> bool {
    &&& states.len() == results.len() + 1
    &&& forall|k: int|
        0 <= k < results.len() ==> (#[trigger] results[k]) != StepResult::Idle && steps_with_loop(
            states[k],
            results[k],
            states[k + 1],
        )
}

/// A step of the server fails with `error`, or does something and the step of the loop fails so.
pub open spec fn fails_with<I: Isolate, D: IoDriver>(
    pre: Snapshot<I, D>,
    post: Snapshot<I, D>,
    error: RuntimeError,
) -> bool {
    ||| pre.may_step(post, Err(error))
    ||| exists|mid: Snapshot<I, D>, result: StepResult| #[trigger]
        pre.may_step(mid, Ok(result)) && result != StepResult::Idle && post.server == mid.server
            && mid.io.may_step(post.io, Err(error))
}

/// A run that fails does so with the first error that there is, of the server or of the loop, and
/// does not go on after it.
pub proof fn law_run_ends_with_the_first_error<I: Isolate, D: IoDriver>(
    pre: Snapshot<I, D>,
    post: Snapshot<I, D>,
    error: RuntimeError,
)
    requires
        pre.may_run(post, Err(error)),
    ensures
        exists|states: Seq<Snapshot<I, D>>, results: Seq<StepResult>| #[trigger]
            reaches(states, results) && states[0] == pre && fails_with(
                states.last(),
                post,
                error,
            ),
{
    let (states, results) = choose|states: Seq<Snapshot<I, D>>, results: Seq<StepResult>| #[trigger]
        pre.runs_through(states, results) && states.last().may_end_run(
            results,
            post,
            Err::<usize, RuntimeError>(error),
        );
    assert forall|k: int| 0 <= k < results.len() implies (#[trigger] results[k])
        != StepResult::Idle && steps_with_loop(states[k], results[k], states[k + 1]) by {
        let (mid, progressed) = choose|mid: Snapshot<I, D>, progressed: bool|
            {
                &&& #[trigger] states[k].may_step(mid, Ok(results[k]))
                &&& #[trigger] mid.io.may_step(states[k + 1].io, Ok(progressed))
                &&& states[k + 1].server == mid.server
            };
        assert(states[k].may_step(mid, Ok(results[k])));
    }
    assert(reaches(states, results));
}

/// An operation of `completion` is under way.
pub open spec fn is_under_way(
    completions: CompletionsState<IoResult>,
    completion: CompletionHandle,
) -> bool {
    let slot = completions.slots[completion.index as int];
    &&& is_owned(completions, completion)
    &&& slot.state == Some(CompletionState::Submitted) || slot.state == Some(
        CompletionState::Cancelling,
    )
}

/// All completions that a driver reports are handed to their slots: where each of them is under way,
/// and none is reported twice, none is refused. One that was submitted is ready with its result, one
/// that was being cancelled is free again, and every other slot is as it was. Those that are ready
/// are listed behind the others, in the order of the report.
pub proof fn law_reports_are_handed_over(pre: Reaped, batch: Seq<DriverCompletion>)
    requires
        pre.completions.wf(),
        pre.refused is None,
        forall|k: int|
            0 <= k < batch.len() ==> is_under_way(
                pre.completions,
                (#[trigger] batch[k]).completion,
            ),
        forall|j: int, k: int|
            0 <= j < k < batch.len() ==> (#[trigger] batch[j]).completion != (
            #[trigger] batch[k]).completion,
    ensures
        ({
            let post = pre.reap_all(batch);
            let submitted = |done: DriverCompletion|
                pre.completions.slots[done.completion.index as int].state == Some(
                    CompletionState::Submitted,
                );
            &&& post.refused is None
            &&& post.ready == pre.ready + batch.filter(submitted).map_values(
                |done: DriverCompletion| done.completion,
            )
            &&& post.completions.slots.len() == pre.completions.slots.len()
            &&& post.completions.wf()
            &&& forall|k: int|
                0 <= k < batch.len() ==> {
                    let index = (#[trigger] batch[k]).completion.index as int;
                    let before = pre.completions.slots[index];
                    let after = post.completions.slots[index];
                    if before.state == Some(CompletionState::Submitted) {
                        &&& after.generation == before.generation
                        &&& after.owner == before.owner
                        &&& after.state == Some(CompletionState::Ready)
                        &&& after.result == Some(batch[k].result)
                    } else {
                        &&& after.generation != before.generation
                        &&& after.owner is None
                        &&& after.state is None
                        &&& after.result is None
                    }
                }
            &&& forall|i: int|
                0 <= i < pre.completions.slots.len() && (forall|k: int|
                    0 <= k < batch.len() ==> (#[trigger] batch[k]).completion.index != i)
                    ==> (#[trigger] post.completions.slots[i]) == pre.completions.slots[i]
        }),
    decreases batch.len(),
{
    reveal(Seq::filter);
    let submitted = |done: DriverCompletion|
        pre.completions.slots[done.completion.index as int].state == Some(
            CompletionState::Submitted,
        );
    let names = |done: DriverCompletion| done.completion;
    if batch.len() == 0 {
        assert(pre.ready =~= pre.ready + batch.filter(submitted).map_values(names));
    } else {
        let rest = batch.drop_last();
        let last = batch.last();
        let index = last.completion.index as int;
        law_reports_are_handed_over(pre, rest);
        let mid = pre.reap_all(rest);
        let post = pre.reap_all(batch);
        assert forall|k: int| 0 <= k < rest.len() implies (
        #[trigger] rest[k]).completion.index != index by {
            assert(batch[k].completion != batch[batch.len() - 1].completion);
            assert(is_under_way(pre.completions, batch[k].completion));
        }
        assert(is_under_way(pre.completions, batch[batch.len() - 1].completion));
        assert(mid.completions.slots[index] == pre.completions.slots[index]);
        let reported = CompletionOp::Complete(last.completion, last.result);
        crate::completion::lemma_apply_wf(mid.completions, reported);
        crate::completion::lemma_apply_wf(
            mid.completions.apply(reported),
            CompletionOp::Release(mid.completions.owner_of(last.completion), last.completion),
        );
        assert(post == mid.reap(last));
        assert(post.ready =~= pre.ready + batch.filter(submitted).map_values(names));
        assert forall|k: int| 0 <= k < batch.len() implies ({
            let at = (#[trigger] batch[k]).completion.index as int;
            let before = pre.completions.slots[at];
            let after = post.completions.slots[at];
            if before.state == Some(CompletionState::Submitted) {
                &&& after.generation == before.generation
                &&& after.owner == before.owner
                &&& after.state == Some(CompletionState::Ready)
                &&& after.result == Some(batch[k].result)
            } else {
                &&& after.generation != before.generation
                &&& after.owner is None
                &&& after.state is None
                &&& after.result is None
            }
        }) by {
            assert(is_under_way(pre.completions, batch[k].completion));
            if k < rest.len() {
                assert(rest[k] == batch[k]);
                assert(rest[k].completion.index != index);
            }
        }
        assert forall|i: int|
            0 <= i < pre.completions.slots.len() && (forall|k: int|
                0 <= k < batch.len() ==> (#[trigger] batch[k]).completion.index != i) implies (
        #[trigger] post.completions.slots[i]) == pre.completions.slots[i] by {
            assert(batch[batch.len() - 1].completion.index != i);
            assert forall|k: int| 0 <= k < rest.len() implies (
            #[trigger] rest[k]).completion.index != i by {
                assert(batch[k].completion.index != i);
            }
        }
    }
}

/// A step of the loop asks the driver for as many completions as the list of ready ones has room
/// for, hands it an empty list, and hands over all that it reports. The answer of the driver is the
/// answer of the step, unless it reports what nobody waits for.
pub proof fn law_loop_step_hands_over_what_the_driver_reports<D: IoDriver>(
    pre: LoopState<D>,
    post: LoopState<D>,
    outcome: Result<bool, RuntimeError>,
) -> (parts: (Vec<DriverCompletion>, Seq<DriverCompletion>, Result<bool, IoError>))
    requires
        pre.wf(),
        pre.ready.len() <= pre.ready_capacity,
        pre.may_step(post, outcome),
    ensures
        ({
            let (list, batch, answer) = parts;
            &&& list@.len() == 0
            &&& crate::io::has_room(list, pre.ready_capacity)
            &&& pre.driver.may_step(
                (pre.ready_capacity - pre.ready.len()) as usize,
                list,
                post.driver,
                batch,
                answer,
            )
            &&& post.ready_capacity == pre.ready_capacity
            &&& match answer {
                Err(error) => {
                    &&& outcome == Err::<bool, _>(RuntimeError::Io(error))
                    &&& post.completions == pre.completions
                    &&& post.ready == pre.ready
                },
                Ok(progressed) => {
                    let reaped = (Reaped {
                        completions: pre.completions,
                        ready: pre.ready,
                        refused: None,
                    }).reap_all(batch);
                    &&& post.completions == reaped.completions
                    &&& post.ready == reaped.ready
                    &&& reaped.refused is None ==> outcome == Ok::<bool, RuntimeError>(progressed)
                    &&& reaped.refused matches Some(error) ==> outcome == Err::<bool, _>(
                        RuntimeError::Completion(error),
                    )
                },
            }
        }),
{
    let (batch, answer) = choose|batch: Seq<DriverCompletion>, answer: Result<bool, IoError>|
        #[trigger] pre.steps_with(batch, answer, post, outcome);
    let list = choose|list: Vec<DriverCompletion>|
        {
            &&& list@.len() == 0
            &&& crate::io::has_room(list, pre.ready_capacity)
            &&& #[trigger] pre.driver.may_step(
                pre.available() as usize,
                list,
                post.driver,
                batch,
                answer,
            )
        };
    (list, batch, answer)
}

/// A step fails with the error that occurred, and with no other: that of the isolate in its turn,
/// that of applying what it asked for, that of the isolate in its last turn, or that of applying
/// what it asked for then.
pub proof fn law_step_fails_with_the_error_that_occurred<I: Isolate, D: IoDriver>(
    pre: Snapshot<I, D>,
    post: Snapshot<I, D>,
    error: RuntimeError,
) -> (parts: (Envelope, TurnState<I>, Snapshot<I, D>, Snapshot<I, D>, TurnState<I>))
    requires
        pre.wf(),
        pre.may_step(post, Err(error)),
    ensures
        ({
            let (message, end, turned, applied, last) = parts;
            let owner = message.target;
            let start = TurnState {
                isolate: pre.server.arena.at(owner).isolate,
                io: ContextState { completions: pre.io.completions, owner },
                effects: crate::effects::EffectsState {
                    effects: Seq::empty(),
                    max_effects: pre.server.effects.max_effects,
                },
            };
            &&& listens(pre, owner)
            &&& holds(turned.server, owner, end.isolate, false)
            &&& turned.io.completions == end.io.completions
            &&& turned.io.driver == pre.io.driver
            &&& {
                ||| {
                    &&& I::may_handle(start, message.message, end, Err(error))
                    &&& holds(post.server, owner, end.isolate, false)
                    &&& post.io == turned.io
                    &&& post.server.queue == turned.server.queue
                }
                ||| {
                    &&& answers_ok(start, message.message, end)
                    &&& turned.may_interpret(owner, end.effects.effects, post, Err(error))
                }
                ||| {
                    &&& answers_ok(start, message.message, end)
                    &&& turned.may_interpret(owner, end.effects.effects, applied, Ok(true))
                    &&& applied.may_start_destroy(owner, post, Err(error))
                    &&& {
                        ||| {
                            &&& I::may_destroy(
                                TurnState {
                                    isolate: end.isolate,
                                    io: ContextState {
                                        completions: applied.io.completions,
                                        owner,
                                    },
                                    effects: crate::effects::EffectsState {
                                        effects: Seq::empty(),
                                        max_effects: applied.server.effects.max_effects,
                                    },
                                },
                                last,
                                Err(error),
                            )
                            &&& holds(post.server, owner, last.isolate, true)
                        }
                        ||| exists|leaving: Snapshot<I, D>|
                            holds(leaving.server, owner, last.isolate, true)
                                && leaving.io.driver == applied.io.driver
                                && leaving.io.completions == last.io.completions
                                && #[trigger] leaving.may_interpret(
                                owner,
                                last.effects.effects,
                                post,
                                Err(error),
                            )
                    }
                }
            }
        }),
{
    let outcome = Err::<StepResult, RuntimeError>(error);
    let (count, start) = lemma_step_starts(pre, post, outcome);
    let envelope = routed_queue(pre, count)[0];
    let owner = envelope.target;
    let (end, answer, mid, interpreted, gone, destroyed) = lemma_turn_parts(
        start,
        envelope,
        post,
        outcome,
    );
    let turned = start.turn_end(owner, end, false).without_effects();
    assert(pre.server.arena.has(owner));
    assert(start.turn_start(owner).effects.effects =~= Seq::empty());
    if answer is Ok && interpreted is Ok {
        super::model::law_effects_keep_every_isolate(
            turned,
            owner,
            end.effects.effects,
            mid,
            interpreted,
            owner,
        );
        assert(mid.takes_messages(owner));
        let (last, answered, done, applied) = lemma_last_turn_parts(mid, owner, gone, destroyed);
        assert(mid.turn_start(owner).effects.effects =~= Seq::empty());
        let leaving = mid.turn_end(owner, last, true).without_effects();
        if answered is Ok {
            assert(leaving.may_interpret(owner, last.effects.effects, post, Err(error)));
        }
        (envelope, end, turned, mid, last)
    } else {
        (envelope, end, turned, turned, end)
    }
}

/// The isolate handles the message without an error and ends its turn in `end`.
pub open spec fn answers_ok<I: Isolate>(
    start: TurnState<I>,
    message: RuntimeMessage,
    end: TurnState<I>,
) -> bool {
    exists|answer: Result<(), RuntimeError>| #[trigger]
        I::may_handle(start, message, end, answer) && answer is Ok
}

/// Isolates on their way out leave in the order of their list, from the first one that is done on;
/// the last of the list takes the place of one that left.
pub proof fn law_first_isolate_that_is_done_leaves_first<I>(
    server: ServerState<I>,
    completions: CompletionsState<IoResult>,
    index: int,
)
    requires
        0 <= index < server.destroying.len(),
        forall|i: int|
            0 <= i < completions.slots.len() ==> (#[trigger] completions.slots[i]).owner != Some(
                server.destroying[index],
            ),
        forall|k: int|
            0 <= k < index ==> exists|i: int|
                0 <= i < completions.slots.len() && (#[trigger] completions.slots[i]).owner == Some(
                    #[trigger] server.destroying[k],
                ),
    ensures
        ({
            let last = server.destroying.len() - 1;
            let next = ServerState {
                arena: server.arena.remove(server.destroying[index]),
                destroying: Seq::new(
                    last as nat,
                    |k: int|
                        if k == index {
                            server.destroying[last]
                        } else {
                            server.destroying[k]
                        },
                ),
                ..server
            };
            server.finalize(completions) == next.finalize(completions)
        }),
{
    let last = server.destroying.len() - 1;
    let next = ServerState {
        arena: server.arena.remove(server.destroying[index]),
        destroying: Seq::new(
            last as nat,
            |k: int|
                if k == index {
                    server.destroying[last]
                } else {
                    server.destroying[k]
                },
        ),
        ..server
    };
    assert forall|k: int| 0 <= k < index implies completions.has_owner(
        #[trigger] server.destroying[k],
    ) by {
        let i = choose|i: int|
            0 <= i < completions.slots.len() && (#[trigger] completions.slots[i]).owner == Some(
                server.destroying[k],
            );
        assert(completions.slots[i].owner == Some(server.destroying[k]));
    }
    lemma_sweep_skips(server, completions, index);
    assert(next =~= server.finalize_at(index));
    assert forall|k: int| 0 <= k < index implies completions.has_owner(
        #[trigger] next.destroying[k],
    ) by {
        assert(next.destroying[k] == server.destroying[k]);
    }
    lemma_sweep_skips(next, completions, index);
}

proof fn lemma_sweep_skips<I>(
    server: ServerState<I>,
    completions: CompletionsState<IoResult>,
    index: int,
)
    requires
        0 <= index <= server.destroying.len(),
        forall|k: int|
            0 <= k < index ==> completions.has_owner(#[trigger] server.destroying[k]),
    ensures
        server.sweep(completions, 0) == server.sweep(completions, index),
    decreases index,
{
    if index > 0 {
        lemma_sweep_skips(server, completions, index - 1);
        assert(completions.has_owner(server.destroying[index - 1]));
    }
}

/// Every step lets the isolates leave that are done: one that is on its way out and owns no
/// completion is gone once the step is over, where the step gives nobody a turn, and no other isolate
/// has left or changed.
pub proof fn law_isolates_that_are_done_leave_in_every_step<I: Isolate, D: IoDriver>(
    pre: Snapshot<I, D>,
    post: Snapshot<I, D>,
    result: StepResult,
    isolate: Handle,
)
    requires
        pre.wf(),
        pre.may_step(post, Ok(result)),
        result != StepResult::ProcessedOne,
    ensures
        ({
            let done = pre.server.destroying.contains(isolate) && !owns_a_completion(pre, isolate);
            &&& post.server.arena.has(isolate) == (pre.server.arena.has(isolate) && !done)
            &&& post.server.arena.has(isolate) ==> post.server.arena.at(isolate)
                == pre.server.arena.at(isolate)
        }),
{
    let outcome = Ok::<StepResult, RuntimeError>(result);
    let (count, start) = lemma_step_starts(pre, post, outcome);
    let queue = routed_queue(pre, count);
    if queue.len() > 0 && listens(pre, queue[0].target) {
        lemma_turn_keeps_the_queue(start, queue[0], post, outcome);
    }
    assert(start.server.arena.has(isolate) == (pre.server.arena.has(isolate) && !(
    pre.server.destroying.contains(isolate) && !owns_a_completion(pre, isolate))));
}

/// A report that nobody waits for is refused for what it is: the completion names nothing, or its
/// operation is not under way. What was reported before it has been handed over; what is reported
/// after it is not.
pub proof fn law_refused_report_ends_the_batch(
    pre: Reaped,
    batch: Seq<DriverCompletion>,
    count: int,
)
    requires
        0 <= count < batch.len(),
        pre.reap_all(batch.take(count)).refused is None,
        pre.reap_all(batch.take(count)).completions.wf(),
        !is_under_way(pre.reap_all(batch.take(count)).completions, batch[count].completion),
    ensures
        ({
            let before = pre.reap_all(batch.take(count));
            let post = pre.reap_all(batch);
            &&& post.completions == before.completions
            &&& post.ready == before.ready
            &&& post.refused == Some(
                if is_owned(before.completions, batch[count].completion) {
                    CompletionError::InvalidState
                } else {
                    CompletionError::InvalidHandle
                },
            )
        }),
    decreases batch.len(),
{
    let before = pre.reap_all(batch.take(count));
    let rest = batch.drop_last();
    if count == batch.len() - 1 {
        assert(batch.take(count) =~= rest);
        let completion = batch[count].completion;
        if is_owned(before.completions, completion) {
            assert(before.completions.slots[completion.index as int].wf());
        }
    } else {
        assert(rest.take(count) =~= batch.take(count));
        law_refused_report_ends_the_batch(pre, rest, count);
    }
}

} // verus!
