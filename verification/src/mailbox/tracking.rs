//! With the in-process backend no armed wait is lost: it is pending or ready until it is delivered
//! or cancelled, so that a run never stalls.

use vstd::prelude::*;

use crate::arena::Handle;

use super::backend::{FakeWaitBackend, WaitBackend, Waiting};
use super::effects::{Action, OpToken};
use super::error::RuntimeError;
use super::interpreter::MailState;
use super::registry::{Pumped, RegistryState};
use super::scheduler::{Isolate, SchedulerState, StepResult};
use super::turn::{Armed, BuilderState};

verus! {

/// Every operation in flight is pending in the backend or has been reported ready.
pub open spec fn tracks<M>(registry: RegistryState<M>, backend: FakeWaitBackend) -> bool {
    forall|token: u32| #[trigger]
        registry.in_flight.contains_key(token) ==> registry.ready.contains(OpToken(token))
            || backend@.knows(OpToken(token))
}

/// No step loses an armed wait.
pub proof fn law_no_wait_is_lost<I: Isolate>(
    pre: SchedulerState<I, I::Message, FakeWaitBackend>,
    post: SchedulerState<I, I::Message, FakeWaitBackend>,
    outcome: Result<StepResult, RuntimeError>,
)
    requires
        pre.wf(),
        pre.max_waits <= usize::MAX,
        tracks(pre.mail.registry, pre.mail.backend),
        pre.may_step(post, outcome),
    ensures
        tracks(post.mail.registry, post.mail.backend),
{
    let (ready, progressed) = lemma_step_tracks(pre, post, outcome);
    if ready.mail.queue.len() > 0 && ready.may_dispatch(progressed, post, outcome) {
        let envelope = ready.mail.queue[0];
        if ready.mail.arena.has(envelope.target) {
            let popped = ready.pop();
            let (isolate, built, handled, applied) = super::laws::lemma_turn_parts(
                popped,
                envelope,
                post,
                outcome,
            );
            if handled is Ok {
                let turned = popped.turned(envelope.target, isolate).minted(built);
                lemma_turn_tracks(
                    turned.mail,
                    envelope.target,
                    turned.queue_capacity,
                    built,
                    post.mail,
                    applied,
                );
            }
        }
    }
}

/// A step never blocks: while waits are armed there is progress or a message to handle, and an idle
/// step leaves no wait behind.
pub proof fn law_waits_never_stall<I: Isolate>(
    pre: SchedulerState<I, I::Message, FakeWaitBackend>,
    post: SchedulerState<I, I::Message, FakeWaitBackend>,
    outcome: Result<StepResult, RuntimeError>,
)
    requires
        pre.wf(),
        pre.queue_capacity > 0,
        tracks(pre.mail.registry, pre.mail.backend),
        pre.may_step(post, outcome),
    ensures
        outcome != Ok::<_, RuntimeError>(StepResult::Blocked),
        outcome == Ok::<_, RuntimeError>(StepResult::Idle) ==> {
            &&& post.mail.queue.len() == 0
            &&& post.mail.registry.is_empty()
            &&& post.mail.backend@.pending.len() == 0
        },
{
    let _ = lemma_step_tracks(pre, post, outcome);
}

/// A run that comes to its end leaves nothing to do: no message is queued, no wait is armed, and
/// none of those that were is lost. Only a run of `usize::MAX` rounds is broken off.
pub proof fn law_run_leaves_nothing_to_do<I: Isolate>(
    waits: Waiting<FakeWaitBackend>,
    pre: SchedulerState<I, I::Message, FakeWaitBackend>,
    states: Seq<SchedulerState<I, I::Message, FakeWaitBackend>>,
    results: Seq<StepResult>,
    post: SchedulerState<I, I::Message, FakeWaitBackend>,
    processed: usize,
)
    requires
        pre.wf(),
        pre.queue_capacity > 0,
        pre.max_waits <= usize::MAX,
        tracks(pre.mail.registry, pre.mail.backend),
        pre.runs_through(waits, states, results),
        states.last().may_end_run(waits, results, post, Ok(processed)),
        results.len() < usize::MAX,
    ensures
        post.mail.queue.len() == 0,
        post.mail.registry.is_empty(),
        post.mail.backend@.pending.len() == 0,
        processed == super::scheduler::processed_in(results),
{
    lemma_run_tracks(waits, pre, states, results, results.len());
    let last = states.last();
    if last.may_stall(waits, post, Ok(false)) {
        let mid = choose|mid: SchedulerState<I, I::Message, FakeWaitBackend>| #[trigger]
            last.may_step(mid, Ok(StepResult::Blocked)) && mid.may_block(waits, post, Ok(false));
        law_waits_never_stall(last, mid, Ok(StepResult::Blocked));
    }
    law_waits_never_stall(last, post, Ok(StepResult::Idle));
}

proof fn lemma_run_tracks<I: Isolate>(
    waits: Waiting<FakeWaitBackend>,
    pre: SchedulerState<I, I::Message, FakeWaitBackend>,
    states: Seq<SchedulerState<I, I::Message, FakeWaitBackend>>,
    results: Seq<StepResult>,
    count: nat,
)
    requires
        pre.wf(),
        pre.queue_capacity > 0,
        pre.max_waits <= usize::MAX,
        tracks(pre.mail.registry, pre.mail.backend),
        pre.runs_through(waits, states, results),
        count <= results.len(),
    ensures
        states[count as int].wf(),
        states[count as int].queue_capacity == pre.queue_capacity,
        states[count as int].max_waits == pre.max_waits,
        tracks(states[count as int].mail.registry, states[count as int].mail.backend),
    decreases count,
{
    if count > 0 {
        let before = (count - 1) as nat;
        lemma_run_tracks(waits, pre, states, results, before);
        let now = states[before as int];
        let next = states[count as int];
        let result = results[before as int];
        if result == StepResult::Blocked {
            let mid = choose|mid: SchedulerState<I, I::Message, FakeWaitBackend>| #[trigger]
                now.may_step(mid, Ok(result)) && mid.may_block(waits, next, Ok(true));
            law_waits_never_stall(now, mid, Ok(result));
        } else {
            law_no_wait_is_lost(now, next, Ok(result));
            super::laws::law_steps_keep_the_scheduler_well_formed(now, next, Ok(result));
        }
    }
}

/// What a step hands to the dispatch of a message keeps track of all waits. Where the poll made no
/// progress nothing is pending, and where the queue is empty nothing is ready.
proof fn lemma_step_tracks<I: Isolate>(
    pre: SchedulerState<I, I::Message, FakeWaitBackend>,
    post: SchedulerState<I, I::Message, FakeWaitBackend>,
    outcome: Result<StepResult, RuntimeError>,
) -> (parts: (SchedulerState<I, I::Message, FakeWaitBackend>, bool))
    requires
        pre.wf(),
        tracks(pre.mail.registry, pre.mail.backend),
        pre.may_step(post, outcome),
    ensures
        tracks(parts.0.mail.registry, parts.0.mail.backend),
        parts.0.max_waits == pre.max_waits,
        parts.0.queue_capacity == pre.queue_capacity,
        !parts.1 ==> parts.0.mail.backend@.pending.len() == 0,
        parts.0.mail.queue.len() < pre.queue_capacity ==> parts.0.mail.registry.ready.len() == 0,
        parts.0.may_dispatch(parts.1, post, outcome),
{
    let (delivered, polled, progress) = choose|
        delivered: SchedulerState<I, I::Message, FakeWaitBackend>,
        polled: SchedulerState<I, I::Message, FakeWaitBackend>,
        progress: Result<bool, RuntimeError>,
    |
        #[trigger] pre.may_pump(delivered) && #[trigger] delivered.may_poll(polled, progress)
            && match progress {
            Err(error) => post == polled && outcome == Err::<StepResult, _>(error),
            Ok(progressed) => exists|ready: SchedulerState<I, I::Message, FakeWaitBackend>|
                #[trigger] polled.may_pump(ready) && ready.may_dispatch(progressed, post, outcome),
        };
    lemma_pump_tracks(pre, delivered);
    let tokens = choose|tokens: Seq<OpToken>| #[trigger]
        delivered.mail.backend.may_poll(Seq::empty(), polled.mail.backend, tokens, progress)
            && polled.mail.registry == (RegistryState {
            ready: delivered.mail.registry.ready + tokens,
            ..delivered.mail.registry
        });
    let progressed = progress->Ok_0;
    lemma_poll_tracks(delivered.mail.registry, delivered.mail.backend, polled.mail.backend, tokens);
    let ready = choose|ready: SchedulerState<I, I::Message, FakeWaitBackend>| #[trigger]
        polled.may_pump(ready) && ready.may_dispatch(progressed, post, outcome);
    lemma_pump_tracks(polled, ready);
    (ready, progressed)
}

/// Delivering completions loses no wait, and goes on while the queue has room.
proof fn lemma_pump_tracks<I, M>(
    pre: SchedulerState<I, M, FakeWaitBackend>,
    post: SchedulerState<I, M, FakeWaitBackend>,
)
    requires
        pre.wf(),
        tracks(pre.mail.registry, pre.mail.backend),
        pre.may_pump(post),
    ensures
        post.wf(),
        tracks(post.mail.registry, post.mail.backend),
        post.max_waits == pre.max_waits,
        post.queue_capacity == pre.queue_capacity,
        post.mail.backend@.pending.len() <= pre.mail.backend@.pending.len(),
        post.mail.queue.len() < pre.queue_capacity ==> post.mail.registry.ready.len() == 0,
{
    let start = Pumped::start(pre.mail.registry, pre.mail.queue);
    let pumped = start.pump(pre.queue_capacity);
    super::registry::lemma_pump(start, pre.queue_capacity);
    lemma_pump_drains(start, pre.queue_capacity);
    lemma_cancel_all_removes(pre.mail.backend, pumped.cancelled, post.mail.backend, OpToken(0));
    assert forall|token: u32| #[trigger] post.mail.registry.in_flight.contains_key(token) implies
        post.mail.registry.ready.contains(OpToken(token)) || post.mail.backend@.knows(
        OpToken(token),
    ) by {
        lemma_pump_keeps(start, pre.queue_capacity, OpToken(token));
        lemma_cancel_all_removes(
            pre.mail.backend,
            pumped.cancelled,
            post.mail.backend,
            OpToken(token),
        );
    }
}

/// An operation that is in flight after completions were delivered was neither cancelled nor
/// forgotten.
proof fn lemma_pump_keeps<M>(pumped: Pumped<M>, capacity: nat, token: OpToken)
    requires
        pumped.registry.wf(),
        pumped.pump(capacity).registry.in_flight.contains_key(token.0),
    ensures
        pumped.registry.in_flight.contains_key(token.0),
        pumped.registry.ready.contains(token) ==> pumped.pump(capacity).registry.ready.contains(
            token,
        ),
        pumped.pump(capacity).cancelled.contains(token) ==> pumped.cancelled.contains(token),
    decreases pumped.registry.ready.len(),
{
    if pumped.queue.len() < capacity && pumped.registry.ready.len() > 0 {
        let first = pumped.registry.ready[0];
        let rest = RegistryState { ready: pumped.registry.ready.skip(1), ..pumped.registry };
        let next = pumped.deliver_next();
        super::registry::lemma_deliver_wf(rest, first);
        lemma_pump_keeps(next, capacity, token);
        lemma_delivery_cancels_landed(rest, first, token);
        if pumped.registry.ready.contains(token) {
            let at = choose|at: int|
                0 <= at < pumped.registry.ready.len() && pumped.registry.ready[at] == token;
            assert(rest.ready[at - 1] == token);
        }
        if next.cancelled.contains(token) {
            let at = choose|at: int| 0 <= at < next.cancelled.len() && next.cancelled[at] == token;
        }
    }
}

/// What a delivery cancels, and what it delivers, is in flight no more.
proof fn lemma_delivery_cancels_landed<M>(
    registry: RegistryState<M>,
    delivered: OpToken,
    token: OpToken,
)
    requires
        registry.deliver(delivered).registry.in_flight.contains_key(token.0),
    ensures
        token != delivered,
        registry.in_flight.contains_key(token.0),
        !registry.deliver(delivered).cancelled.contains(token),
{
    if registry.in_flight.contains_key(delivered.0) {
        if let Some(group) = registry.in_flight[delivered.0].group {
            if registry.groups.contains_key(group) {
                super::laws::lemma_in_flight_of(
                    registry.groups[group].members,
                    registry.land(delivered).in_flight,
                    token,
                );
            }
        }
    }
}

/// Completions are delivered until none is ready or the queue is full.
proof fn lemma_pump_drains<M>(pumped: Pumped<M>, capacity: nat)
    ensures
        pumped.pump(capacity).queue.len() < capacity ==> pumped.pump(capacity).registry.ready.len()
            == 0,
    decreases pumped.registry.ready.len(),
{
    if pumped.queue.len() < capacity && pumped.registry.ready.len() > 0 {
        lemma_pump_drains(pumped.deliver_next(), capacity);
    }
}

/// Cancelling one wait leaves the others pending.
proof fn lemma_cancel_removes(
    pre: FakeWaitBackend,
    token: OpToken,
    post: FakeWaitBackend,
    other: OpToken,
)
    requires
        pre.may_cancel(token, post),
    ensures
        other != token && pre@.knows(other) ==> post@.knows(other),
        post@.pending.len() <= pre@.pending.len(),
        post@.capacity == pre@.capacity,
{
    if pre@.knows(token) {
        let at = choose|at: int| #[trigger]
            pre@.position(token, at) && post@ == pre@.remove_at(at);
        if other != token && pre@.knows(other) {
            let k = choose|k: int|
                0 <= k < pre@.pending.len() && (#[trigger] pre@.pending[k]).0 == other;
            if k < at {
                assert(post@.pending[k].0 == other);
            } else {
                assert(post@.pending[k - 1].0 == other);
            }
        }
    }
}

/// Cancelling waits leaves the others pending.
proof fn lemma_cancel_all_removes(
    pre: FakeWaitBackend,
    tokens: Seq<OpToken>,
    post: FakeWaitBackend,
    other: OpToken,
)
    requires
        super::backend::may_cancel_all(pre, tokens, post),
    ensures
        !tokens.contains(other) && pre@.knows(other) ==> post@.knows(other),
        post@.pending.len() <= pre@.pending.len(),
        post@.capacity == pre@.capacity,
    decreases tokens.len(),
{
    if tokens.len() > 0 {
        let rest = tokens.drop_last();
        let mid = choose|mid: FakeWaitBackend|
            super::backend::may_cancel_all(pre, rest, mid) && #[trigger] mid.may_cancel(
                tokens.last(),
                post,
            );
        lemma_cancel_all_removes(pre, rest, mid, other);
        lemma_cancel_removes(mid, tokens.last(), post, other);
        if !tokens.contains(other) {
            if rest.contains(other) {
                let at = choose|at: int| 0 <= at < rest.len() && rest[at] == other;
            }
        }
    }
}

/// A poll moves waits from pending to ready and loses none.
proof fn lemma_poll_tracks<M>(
    registry: RegistryState<M>,
    pre: FakeWaitBackend,
    post: FakeWaitBackend,
    tokens: Seq<OpToken>,
)
    requires
        tracks(registry, pre),
        post@ == pre@.poll(),
        tokens == super::backend::fired_tokens(pre@.pending),
    ensures
        tracks(RegistryState { ready: registry.ready + tokens, ..registry }, post),
{
    let polled = RegistryState { ready: registry.ready + tokens, ..registry };
    assert forall|token: u32| #[trigger] polled.in_flight.contains_key(token) implies
        polled.ready.contains(OpToken(token)) || post@.knows(OpToken(token)) by {
        if registry.ready.contains(OpToken(token)) {
            let at = choose|at: int|
                0 <= at < registry.ready.len() && registry.ready[at] == OpToken(token);
            assert(polled.ready[at] == OpToken(token));
        } else {
            let k = choose|k: int|
                0 <= k < pre@.pending.len() && (#[trigger] pre@.pending[k]).0 == OpToken(token);
            lemma_poll_keeps(pre@.pending, k);
            if tokens.contains(OpToken(token)) {
                let at = choose|at: int| 0 <= at < tokens.len() && tokens[at] == OpToken(token);
                assert(polled.ready[registry.ready.len() + at] == OpToken(token));
            } else {
                let still = super::backend::still_pending(pre@.pending);
                let i = choose|i: int|
                    0 <= i < still.len() && (#[trigger] still[i]).0 == OpToken(token);
                assert(post@.pending[i].0 == OpToken(token));
            }
        }
    }
}

/// A pending wait fires or stays pending.
proof fn lemma_poll_keeps(pending: Seq<(OpToken, super::effects::Wait)>, k: int)
    requires
        0 <= k < pending.len(),
    ensures
        super::backend::fired_tokens(pending).contains(pending[k].0) || exists|i: int|
            0 <= i < super::backend::still_pending(pending).len() && (
            #[trigger] super::backend::still_pending(pending)[i]).0 == pending[k].0,
    decreases pending.len(),
{
    let rest = pending.drop_last();
    let fired = super::backend::fired_tokens(rest);
    let still = super::backend::still_pending(rest);
    let token = pending[k].0;
    if k < rest.len() {
        lemma_poll_keeps(rest, k);
        if fired.contains(token) {
            let at = choose|at: int| 0 <= at < fired.len() && fired[at] == token;
            assert(super::backend::fired_tokens(pending)[at] == token);
        } else {
            let at = choose|at: int| 0 <= at < still.len() && (#[trigger] still[at]).0 == token;
            assert(super::backend::still_pending(pending)[at].0 == token);
        }
    } else if super::backend::fires(pending.last().1) {
        assert(super::backend::fired_tokens(pending)[fired.len() as int] == token);
    } else {
        assert(super::backend::still_pending(pending)[still.len() as int].0 == token);
    }
}

/// Applying a turn loses no wait.
proof fn lemma_turn_tracks<I, M>(
    pre: MailState<I, M, FakeWaitBackend>,
    owner: Handle,
    queue_capacity: nat,
    built: BuilderState<M>,
    post: MailState<I, M, FakeWaitBackend>,
    outcome: Result<(), RuntimeError>,
)
    requires
        tracks(pre.registry, pre.backend),
        built.armed.len() <= usize::MAX,
        forall|k: int, l: int|
            0 <= k < l < built.groups.len() ==> (#[trigger] built.groups[k]).id != (
            #[trigger] built.groups[l]).id,
        pre.may_interpret(
            owner,
            queue_capacity,
            built.actions,
            built.armed,
            built.groups,
            post,
            outcome,
        ),
    ensures
        tracks(post.registry, post.backend),
{
    if outcome is Ok {
        let backend = super::interpreter::lemma_applied_turn(
            pre,
            owner,
            queue_capacity,
            built.actions,
            built.armed,
            built.groups,
            post,
            outcome,
        );
        super::interpreter::lemma_open_groups(pre.registry, owner, built.groups);
        super::laws::lemma_fake_accepts(pre.backend, built.armed, backend);
        assert forall|i: int| 0 <= i < built.armed.len() implies backend@.knows(
            (#[trigger] built.armed[i]).token,
        ) by {
            let at = pre.backend@.pending.len() + i;
            assert(backend@.pending[at].0 == built.armed[i].token);
        }
        lemma_registering_tracks(
            pre.registry.open_groups(owner, built.groups),
            owner,
            pre.backend,
            built.armed,
            backend,
        );
        lemma_actions_track(
            pre.arm(owner, built.armed, built.groups, backend),
            owner,
            built.actions,
            post,
        );
    } else {
        super::laws::law_failed_turn_changes_nothing(
            pre,
            owner,
            queue_capacity,
            built.actions,
            built.armed,
            built.groups,
            post,
            outcome,
        );
    }
}

/// A wait that is armed is pending.
proof fn lemma_registering_tracks<M>(
    registry: RegistryState<M>,
    owner: Handle,
    before: FakeWaitBackend,
    waits: Seq<Armed<M>>,
    after: FakeWaitBackend,
)
    requires
        tracks(registry, before),
        before@.pending.is_prefix_of(after@.pending),
        forall|i: int|
            0 <= i < waits.len() ==> after@.knows((#[trigger] waits[i]).token),
    ensures
        tracks(registry.register_all(owner, waits), after),
        registry.register_all(owner, waits).ready == registry.ready,
    decreases waits.len(),
{
    if waits.len() > 0 {
        lemma_registering_tracks(registry, owner, before, waits.drop_last(), after);
        assert(after@.knows(waits[waits.len() - 1].token));
    } else {
        assert forall|token: u32| #[trigger] registry.in_flight.contains_key(token) implies
            registry.ready.contains(OpToken(token)) || after@.knows(OpToken(token)) by {
            if before@.knows(OpToken(token)) {
                let k = choose|k: int|
                    0 <= k < before@.pending.len() && (#[trigger] before@.pending[k]).0 == OpToken(
                        token,
                    );
                assert(after@.pending[k].0 == OpToken(token));
            }
        }
    }
}

/// Cancellations and a destruction take waits down that are in flight no more.
proof fn lemma_actions_track<I, M>(
    pre: MailState<I, M, FakeWaitBackend>,
    owner: Handle,
    actions: Seq<Action<M>>,
    post: MailState<I, M, FakeWaitBackend>,
)
    requires
        tracks(pre.registry, pre.backend),
        pre.may_act(owner, actions, post),
    ensures
        tracks(post.registry, post.backend),
    decreases actions.len(),
{
    if actions.len() > 0 {
        let mid = choose|mid: MailState<I, M, FakeWaitBackend>|
            pre.may_act(owner, actions.drop_last(), mid) && #[trigger] mid.may_apply(
                owner,
                actions.last(),
                post,
            );
        lemma_actions_track(pre, owner, actions.drop_last(), mid);
        if actions.last() is DestroySelf {
            let order = choose|order: Seq<OpToken>| #[trigger]
                mid.registry.lists_operations_of(owner, order) && super::backend::may_cancel_all(
                    mid.backend,
                    order,
                    post.backend,
                );
            assert forall|token: u32| #[trigger] post.registry.in_flight.contains_key(token) implies
                post.registry.ready.contains(OpToken(token)) || post.backend@.knows(
                OpToken(token),
            ) by {
                lemma_cancel_all_removes(mid.backend, order, post.backend, OpToken(token));
                super::laws::lemma_in_flight_of(
                    mid.registry.ready,
                    post.registry.in_flight,
                    OpToken(token),
                );
            }
        }
        if let Action::Cancel { token: cancelled } = actions.last() {
            if mid.registry.in_flight.contains_key(cancelled.0) {
                assert forall|token: u32| #[trigger]
                    post.registry.in_flight.contains_key(token) implies
                    post.registry.ready.contains(OpToken(token)) || post.backend@.knows(
                    OpToken(token),
                ) by {
                    lemma_cancel_removes(mid.backend, cancelled, post.backend, OpToken(token));
                }
            }
        }
    }
}

} // verus!
