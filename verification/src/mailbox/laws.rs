//! What holds of the scheduler, its registry and its turns as a whole.

use vstd::prelude::*;

use crate::arena::{ArenaError, Handle};

use super::backend::{FakeWaitBackend, WaitBackend};
use super::effects::{Action, OpToken, RuntimeMessage};
use super::error::RuntimeError;
use super::interpreter::MailState;
use super::registry::{Envelope, InFlight, RegistryState};
use super::scheduler::{Isolate, SchedulerState, StepResult};
use super::turn::{Armed, BuilderState, GroupSpecState};

verus! {

/// A wait of its own reports its completion to the isolate that armed it, under the token that the
/// isolate was given, and it does so once.
pub proof fn law_wait_delivers_its_completion_once<M>(
    registry: RegistryState<M>,
    owner: Handle,
    wait: Armed<M>,
)
    requires
        wait.group is None,
        wait.completion is Some,
    ensures
        ({
            let armed = registry.register(
                wait.token,
                super::interpreter::launched(owner, wait),
            );
            let delivery = armed.deliver(wait.token);
            let again = delivery.registry.deliver(wait.token);
            &&& delivery.messages == seq![
                Envelope {
                    target: owner,
                    message: wait.completion->0,
                    token: Some(wait.token),
                },
            ]
            &&& delivery.cancelled.len() == 0
            &&& again.messages.len() == 0
            &&& again.cancelled.len() == 0
            &&& again.registry == delivery.registry
        }),
{
}

/// A cancelled operation reports nothing: its completion, should it still come, is dropped.
pub proof fn law_cancelled_operation_never_delivers<M>(registry: RegistryState<M>, token: OpToken)
    ensures
        !registry.cancel(token).in_flight.contains_key(token.0),
        registry.cancel(token).deliver(token).messages.len() == 0,
        registry.cancel(token).deliver(token).cancelled.len() == 0,
        registry.cancel(token).deliver(token).registry == registry.cancel(token),
        registry.cancel(token).cancel(token) == registry.cancel(token),
{
}

/// Cancelling an operation, or delivering its completion, leaves the operations that are not of its
/// group as they are.
pub proof fn law_operations_of_other_groups_are_left_alone<M>(
    registry: RegistryState<M>,
    token: OpToken,
    other: OpToken,
)
    requires
        registry.wf(),
        registry.in_flight.contains_key(token.0),
        registry.in_flight.contains_key(other.0),
        other != token,
        registry.in_flight[token.0].group matches Some(group)
            ==> registry.groups.contains_key(group) ==> !registry.groups[group].members.contains(
            other,
        ),
    ensures
        registry.cancel(token).in_flight.contains_key(other.0),
        registry.cancel(token).in_flight[other.0] == registry.in_flight[other.0],
        registry.deliver(token).registry.in_flight.contains_key(other.0),
        registry.deliver(token).registry.in_flight[other.0] == registry.in_flight[other.0],
{
}

/// In a race the first completion is delivered and no other: the group is gone, none of its members
/// is in flight any more, and exactly those that were are cancelled in the backend.
pub proof fn law_race_has_one_winner<M>(
    registry: RegistryState<M>,
    group: u32,
    winner: OpToken,
    member: OpToken,
)
    requires
        registry.wf(),
        registry.groups.contains_key(group),
        registry.groups[group].policy is Select,
        registry.groups[group].members.contains(member),
        registry.in_flight.contains_key(winner.0),
        registry.in_flight[winner.0].group == Some(group),
    ensures
        ({
            let delivery = registry.deliver(winner);
            let later = delivery.registry.deliver(member);
            &&& delivery.messages == seq![
                super::registry::completion_of(winner, registry.in_flight[winner.0]),
            ]
            &&& !delivery.registry.groups.contains_key(group)
            &&& !delivery.registry.in_flight.contains_key(member.0)
            &&& delivery.cancelled.contains(member) <==> (member != winner
                && registry.in_flight.contains_key(member.0))
            &&& later.messages.len() == 0
            &&& later.cancelled.len() == 0
            &&& later.registry == delivery.registry
        }),
{
    let members = registry.groups[group].members;
    let landed = registry.land(winner);
    lemma_in_flight_of(members, landed.in_flight, member);
}

pub proof fn lemma_in_flight_of<M>(
    tokens: Seq<OpToken>,
    in_flight: Map<u32, InFlight<M>>,
    token: OpToken,
)
    ensures
        super::registry::in_flight_of(tokens, in_flight).contains(token) <==> tokens.contains(token)
            && in_flight.contains_key(token.0),
    decreases tokens.len(),
{
    if tokens.len() > 0 {
        let rest = tokens.drop_last();
        let earlier = super::registry::in_flight_of(rest, in_flight);
        lemma_in_flight_of(rest, in_flight, token);
        assert(rest.push(tokens.last()) =~= tokens);
        super::registry::lemma_push_contains(earlier, tokens.last(), token);
    }
}

/// The registry after the completions of `tokens` were delivered, in order.
pub open spec fn deliver_all<M>(registry: RegistryState<M>, tokens: Seq<OpToken>) -> RegistryState<M>
    decreases tokens.len(),
{
    if tokens.len() == 0 {
        registry
    } else {
        deliver_all(registry, tokens.drop_last()).deliver(tokens.last()).registry
    }
}

/// The messages that delivering the completions of `tokens` gives, in order.
pub open spec fn messages_of_all<M>(registry: RegistryState<M>, tokens: Seq<OpToken>) -> Seq<
    Envelope<M>,
>
    decreases tokens.len(),
{
    if tokens.len() == 0 {
        Seq::empty()
    } else {
        messages_of_all(registry, tokens.drop_last()) + deliver_all(
            registry,
            tokens.drop_last(),
        ).deliver(tokens.last()).messages
    }
}

/// `order` names each of `members` once.
pub open spec fn enumerates(order: Seq<OpToken>, members: Seq<OpToken>) -> bool {
    &&& order.no_duplicates()
    &&& forall|token: OpToken| #[trigger] order.contains(token) <==> members.contains(token)
}

/// A join reports once, when the last of its members has completed, in whichever order they do.
pub proof fn law_join_reports_once_after_all_members<M>(
    registry: RegistryState<M>,
    group: u32,
    order: Seq<OpToken>,
)
    requires
        registry.wf(),
        registry.groups.contains_key(group),
        registry.groups[group].policy is Join,
        registry.groups[group].members.len() > 0,
        enumerates(order, registry.groups[group].members),
        forall|token: OpToken| #[trigger]
            order.contains(token) ==> registry.in_flight.contains_key(token.0)
                && registry.in_flight[token.0].group == Some(group),
    ensures
        ({
            let (token, message) = registry.groups[group].join->0;
            &&& messages_of_all(registry, order.drop_last()).len() == 0
            &&& messages_of_all(registry, order) == seq![
                Envelope { target: registry.groups[group].target, message, token: Some(token) },
            ]
            &&& !deliver_all(registry, order).groups.contains_key(group)
        }),
{
    let opened = registry.groups[group];
    lemma_same_length(order, opened.members);
    lemma_join_waits(registry, group, order, (order.len() - 1) as nat);
    let last = order.last();
    assert(order.contains(last));
}

/// Two lists without duplicates that name the same tokens are of the same length.
proof fn lemma_same_length(order: Seq<OpToken>, members: Seq<OpToken>)
    requires
        enumerates(order, members),
        members.no_duplicates(),
    ensures
        order.len() == members.len(),
{
    order.unique_seq_to_set();
    members.unique_seq_to_set();
    assert(order.to_set() =~= members.to_set());
}

/// While members are missing a join says nothing and waits for the others.
proof fn lemma_join_waits<M>(
    registry: RegistryState<M>,
    group: u32,
    order: Seq<OpToken>,
    count: nat,
)
    requires
        registry.wf(),
        registry.groups.contains_key(group),
        registry.groups[group].policy is Join,
        enumerates(order, registry.groups[group].members),
        order.len() == registry.groups[group].members.len(),
        forall|token: OpToken| #[trigger]
            order.contains(token) ==> registry.in_flight.contains_key(token.0)
                && registry.in_flight[token.0].group == Some(group),
        count < order.len(),
    ensures
        ({
            let reached = deliver_all(registry, order.take(count as int));
            let opened = registry.groups[group];
            &&& reached.wf()
            &&& messages_of_all(registry, order.take(count as int)).len() == 0
            &&& reached.groups.contains_key(group)
            &&& reached.groups[group].policy == opened.policy
            &&& reached.groups[group].target == opened.target
            &&& reached.groups[group].join == opened.join
            &&& reached.groups[group].members.len() == order.len() - count
            &&& forall|i: int|
                count <= i < order.len() ==> reached.in_flight.contains_key(
                    (#[trigger] order[i]).0,
                ) && reached.in_flight[order[i].0] == registry.in_flight[order[i].0]
        }),
    decreases count,
{
    if count == 0 {
        assert forall|i: int| 0 <= i < order.len() implies registry.in_flight.contains_key(
            (#[trigger] order[i]).0,
        ) by {
            assert(order.contains(order[i]));
        }
    } else {
        let before = (count - 1) as nat;
        lemma_join_waits(registry, group, order, before);
        let shorter = order.take(before as int);
        let longer = order.take(count as int);
        assert(longer.drop_last() =~= shorter);
        let reached = deliver_all(registry, shorter);
        let token = order[before as int];
        assert(order.contains(token));
        super::registry::lemma_without(reached.groups[group].members, token);
    }
}

/// After the destruction of an isolate none of its operations and groups is left, and nothing that
/// completes from then on is reported to it.
pub proof fn law_destroyed_isolate_gets_no_completion<M>(
    registry: RegistryState<M>,
    target: Handle,
    token: OpToken,
)
    requires
        registry.wf(),
    ensures
        ({
            let purged = registry.purge(target);
            &&& purged.in_flight.contains_key(token.0) ==> purged.in_flight[token.0].target
                != target
            &&& forall|group: u32| #[trigger]
                purged.groups.contains_key(group) ==> purged.groups[group].target != target
            &&& forall|i: int|
                0 <= i < purged.deliver(token).messages.len() ==> (
                #[trigger] purged.deliver(token).messages[i]).target != target
        }),
{
}

/// The destruction of one isolate leaves the operations of the others as they are.
pub proof fn law_destruction_leaves_operations_of_others<M>(
    registry: RegistryState<M>,
    target: Handle,
    token: OpToken,
)
    requires
        registry.in_flight.contains_key(token.0),
        registry.in_flight[token.0].target != target,
    ensures
        registry.purge(target).in_flight.contains_key(token.0),
        registry.purge(target).in_flight[token.0] == registry.in_flight[token.0],
        registry.ready.contains(token) ==> registry.purge(target).ready.contains(token),
{
    lemma_in_flight_of(registry.ready, registry.purge(target).in_flight, token);
}

/// A turn is applied as a whole or not at all: where it fails, isolates, queue and registry are as
/// they were, whatever the backend does.
pub proof fn law_failed_turn_is_not_applied<I, M, B: WaitBackend>(
    pre: MailState<I, M, B>,
    owner: Handle,
    queue_capacity: nat,
    actions: Seq<Action<M>>,
    armed: Seq<Armed<M>>,
    groups: Seq<GroupSpecState<M>>,
    post: MailState<I, M, B>,
    outcome: Result<(), RuntimeError>,
)
    requires
        pre.may_interpret(owner, queue_capacity, actions, armed, groups, post, outcome),
        outcome is Err,
    ensures
        post.arena == pre.arena,
        post.queue == pre.queue,
        post.registry == pre.registry,
{
}

/// Over the in-process backend a turn that fails changes nothing at all, and it fails for one of
/// three reasons, of which the first that holds is named: the queue has no room for what it sends,
/// the backend none for what it arms, or it destroys an isolate that is not there or gone by then.
pub proof fn law_failed_turn_changes_nothing<I, M>(
    pre: MailState<I, M, FakeWaitBackend>,
    owner: Handle,
    queue_capacity: nat,
    actions: Seq<Action<M>>,
    armed: Seq<Armed<M>>,
    groups: Seq<GroupSpecState<M>>,
    post: MailState<I, M, FakeWaitBackend>,
    outcome: Result<(), RuntimeError>,
)
    requires
        armed.len() <= usize::MAX,
        pre.may_interpret(owner, queue_capacity, actions, armed, groups, post, outcome),
    ensures
        outcome is Err ==> post == pre,
        super::determinism::same_outcome(
            outcome,
            if pre.queue.len() + super::interpreter::sends_in(actions) > queue_capacity {
                Err(RuntimeError::QueueFull)
            } else if pre.backend@.pending.len() + armed.len() > pre.backend@.capacity {
                Err(RuntimeError::WaitQueueFull)
            } else if super::interpreter::destroys_in(actions) > pre.destructions(owner) {
                Err(RuntimeError::Arena(ArenaError::InvalidHandle))
            } else {
                Ok(())
            },
        ),
{
    if pre.backend@.pending.len() + armed.len() <= pre.backend@.capacity && outcome is Err {
        lemma_fake_refuses_none(pre.backend, armed, post.backend, outcome->Err_0);
    }
}

/// The in-process backend keeps the waits that it accepts, in order, behind those it had.
pub proof fn lemma_fake_accepts<M>(
    pre: FakeWaitBackend,
    waits: Seq<Armed<M>>,
    post: FakeWaitBackend,
)
    requires
        super::interpreter::may_accept_all(pre, waits, post),
    ensures
        post@.capacity == pre@.capacity,
        post@.pending == pre@.pending + waits.map_values(|wait: Armed<M>| (wait.token, wait.wait)),
    decreases waits.len(),
{
    if waits.len() > 0 {
        let mid = choose|mid: FakeWaitBackend|
            super::interpreter::may_accept_all(pre, waits.drop_last(), mid)
                && #[trigger] super::interpreter::may_accept(mid, waits.last(), post);
        lemma_fake_accepts(pre, waits.drop_last(), mid);
    }
}

/// The in-process backend takes as many waits as it said it would.
pub proof fn lemma_fake_refuses_none<M>(
    pre: FakeWaitBackend,
    waits: Seq<Armed<M>>,
    post: FakeWaitBackend,
    error: RuntimeError,
)
    requires
        pre@.pending.len() + waits.len() <= pre@.capacity,
    ensures
        !super::interpreter::may_refuse(pre, waits, post, error),
{
    if super::interpreter::may_refuse(pre, waits, post, error) {
        let (count, reached, _) = super::interpreter::lemma_refusal_parts(pre, waits, post, error);
        lemma_fake_accepts(pre, waits.take(count), reached);
    }
}

/// The messages that `actions` of `owner` put into the queue, in order.
pub open spec fn sent_by<M>(owner: Handle, actions: Seq<Action<M>>) -> Seq<Envelope<M>>
    decreases actions.len(),
{
    if actions.len() == 0 {
        Seq::empty()
    } else {
        let earlier = sent_by(owner, actions.drop_last());
        match actions.last() {
            Action::Send { target, message } => earlier.push(
                Envelope { target, message, token: None },
            ),
            Action::SendSelf { message } => earlier.push(
                Envelope { target: owner, message: RuntimeMessage::User(message), token: None },
            ),
            Action::DestroySelf => earlier,
            Action::Cancel { .. } => earlier,
        }
    }
}

/// A turn that is applied puts all its messages into the queue, in order, behind those that were
/// there.
pub proof fn law_applied_turn_sends_its_messages_in_order<I, M, B: WaitBackend>(
    pre: MailState<I, M, B>,
    owner: Handle,
    queue_capacity: nat,
    actions: Seq<Action<M>>,
    armed: Seq<Armed<M>>,
    groups: Seq<GroupSpecState<M>>,
    post: MailState<I, M, B>,
    outcome: Result<(), RuntimeError>,
)
    requires
        pre.may_interpret(owner, queue_capacity, actions, armed, groups, post, outcome),
        outcome is Ok,
    ensures
        post.queue == pre.queue + sent_by(owner, actions),
{
    let backend = super::interpreter::lemma_applied_turn(
        pre,
        owner,
        queue_capacity,
        actions,
        armed,
        groups,
        post,
        outcome,
    );
    lemma_actions_sent(pre.arm(owner, armed, groups, backend), owner, actions, post);
}

proof fn lemma_actions_sent<I, M, B: WaitBackend>(
    pre: MailState<I, M, B>,
    owner: Handle,
    actions: Seq<Action<M>>,
    post: MailState<I, M, B>,
)
    requires
        pre.may_act(owner, actions, post),
    ensures
        post.queue == pre.queue + sent_by(owner, actions),
    decreases actions.len(),
{
    if actions.len() > 0 {
        let mid = choose|mid: MailState<I, M, B>|
            pre.may_act(owner, actions.drop_last(), mid) && #[trigger] mid.may_apply(
                owner,
                actions.last(),
                post,
            );
        lemma_actions_sent(pre, owner, actions.drop_last(), mid);
    }
}

/// An isolate that destroys itself in a turn that is applied is gone, and none of its operations is
/// in flight, not even one armed in that turn.
pub proof fn law_destroyed_isolate_leaves_nothing_behind<I, M, B: WaitBackend>(
    pre: MailState<I, M, B>,
    owner: Handle,
    queue_capacity: nat,
    actions: Seq<Action<M>>,
    armed: Seq<Armed<M>>,
    groups: Seq<GroupSpecState<M>>,
    post: MailState<I, M, B>,
    outcome: Result<(), RuntimeError>,
    token: OpToken,
)
    requires
        pre.may_interpret(owner, queue_capacity, actions, armed, groups, post, outcome),
        outcome is Ok,
        actions.contains(Action::DestroySelf),
    ensures
        !post.arena.has(owner),
        post.registry.in_flight.contains_key(token.0) ==> post.registry.in_flight[token.0].target
            != owner,
{
    let backend = super::interpreter::lemma_applied_turn(
        pre,
        owner,
        queue_capacity,
        actions,
        armed,
        groups,
        post,
        outcome,
    );
    lemma_destroyed(pre.arm(owner, armed, groups, backend), owner, actions, post, token);
}

proof fn lemma_destroyed<I, M, B: WaitBackend>(
    pre: MailState<I, M, B>,
    owner: Handle,
    actions: Seq<Action<M>>,
    post: MailState<I, M, B>,
    token: OpToken,
)
    requires
        pre.may_act(owner, actions, post),
        actions.contains(Action::DestroySelf),
    ensures
        !post.arena.has(owner),
        post.registry.in_flight.contains_key(token.0) ==> post.registry.in_flight[token.0].target
            != owner,
    decreases actions.len(),
{
    let mid = choose|mid: MailState<I, M, B>|
            pre.may_act(owner, actions.drop_last(), mid) && #[trigger] mid.may_apply(
                owner,
                actions.last(),
                post,
            );
    if actions.last() != Action::<M>::DestroySelf {
        let at = choose|at: int| 0 <= at < actions.len() && actions[at] == Action::<M>::DestroySelf;
        assert(actions.drop_last()[at] == Action::<M>::DestroySelf);
        lemma_destroyed(pre, owner, actions.drop_last(), mid, token);
    }
}

/// What a step hands to the dispatch of a message: completions have been delivered behind the
/// messages that were in the queue, and all else is as it was.
proof fn lemma_step_parts<I: Isolate, B: WaitBackend>(
    pre: SchedulerState<I, I::Message, B>,
    post: SchedulerState<I, I::Message, B>,
    outcome: Result<StepResult, RuntimeError>,
) -> (parts: (SchedulerState<I, I::Message, B>, bool))
    requires
        pre.wf(),
        pre.may_step(post, outcome),
    ensures
        parts.0.wf(),
        parts.0.mail.arena == pre.mail.arena,
        parts.0 == pre.with_mail(parts.0.mail),
        pre.mail.registry.shrinks_to(parts.0.mail.registry),
        pre.mail.queue.is_prefix_of(parts.0.mail.queue),
        (outcome is Err && post == parts.0) || parts.0.may_dispatch(parts.1, post, outcome),
{
    let (delivered, polled, progress) = choose|
        delivered: SchedulerState<I, I::Message, B>,
        polled: SchedulerState<I, I::Message, B>,
        progress: Result<bool, RuntimeError>,
    |
        #[trigger] pre.may_pump(delivered) && #[trigger] delivered.may_poll(polled, progress)
            && match progress {
            Err(error) => post == polled && outcome == Err::<StepResult, _>(error),
            Ok(progressed) => exists|ready: SchedulerState<I, I::Message, B>| #[trigger]
                polled.may_pump(ready) && ready.may_dispatch(progressed, post, outcome),
        };
    lemma_pumped(pre, delivered);
    match progress {
        Err(_) => (polled, false),
        Ok(progressed) => {
            let ready = choose|ready: SchedulerState<I, I::Message, B>| #[trigger]
                polled.may_pump(ready) && ready.may_dispatch(progressed, post, outcome);
            lemma_pumped(polled, ready);
            (ready, progressed)
        },
    }
}

pub proof fn lemma_pumped<I, M, B: WaitBackend>(
    pre: SchedulerState<I, M, B>,
    post: SchedulerState<I, M, B>,
)
    requires
        pre.wf(),
        pre.may_pump(post),
    ensures
        post.wf(),
        post.mail.arena == pre.mail.arena,
        post == pre.with_mail(post.mail),
        pre.mail.registry.shrinks_to(post.mail.registry),
        pre.mail.queue.is_prefix_of(post.mail.queue),
{
    super::registry::lemma_pump(
        super::registry::Pumped::start(pre.mail.registry, pre.mail.queue),
        pre.queue_capacity,
    );
}

/// The queue is first in, first out: a step that succeeds takes the first message, if there was
/// one, and what it adds stands behind the others.
pub proof fn law_queue_is_first_in_first_out<I: Isolate, B: WaitBackend>(
    pre: SchedulerState<I, I::Message, B>,
    post: SchedulerState<I, I::Message, B>,
    outcome: Result<StepResult, RuntimeError>,
)
    requires
        pre.wf(),
        pre.may_step(post, outcome),
        outcome is Ok,
        pre.mail.queue.len() > 0,
    ensures
        pre.mail.queue.skip(1).is_prefix_of(post.mail.queue),
        outcome == Ok::<_, RuntimeError>(
            if pre.mail.arena.has(pre.mail.queue[0].target) {
                StepResult::ProcessedOne
            } else {
                StepResult::DroppedInvalid
            },
        ),
{
    let (ready, _) = lemma_step_parts(pre, post, outcome);
    let popped = ready.pop();
    if ready.mail.arena.has(ready.mail.queue[0].target) {
        let envelope = ready.mail.queue[0];
        let (isolate, built, _, applied) = lemma_turn_parts(
            popped,
            envelope,
            post,
            outcome,
        );
        let turned = popped.turned(envelope.target, isolate).minted(built);
        law_applied_turn_sends_its_messages_in_order(
            turned.mail,
            envelope.target,
            turned.queue_capacity,
            built.actions,
            built.armed,
            built.groups,
            post.mail,
            applied,
        );
    }
}

/// What a turn consists of: what the isolate turned into, what it asked for, what it answered, and
/// what became of what it asked for.
pub proof fn lemma_turn_parts<I: Isolate, B: WaitBackend>(
    pre: SchedulerState<I, I::Message, B>,
    envelope: Envelope<I::Message>,
    post: SchedulerState<I, I::Message, B>,
    outcome: Result<StepResult, RuntimeError>,
) -> (parts: (I, BuilderState<I::Message>, Result<(), RuntimeError>, Result<(), RuntimeError>))
    requires
        pre.may_take_turn(envelope, post, outcome),
    ensures
        pre.may_handle(envelope, parts.0, parts.1, parts.2),
        match parts.2 {
            Err(error) => {
                &&& post == pre.turned(envelope.target, parts.0).minted(parts.1)
                &&& outcome == Err::<StepResult, _>(error)
            },
            Ok(_) => {
                let turned = pre.turned(envelope.target, parts.0).minted(parts.1);
                &&& turned.mail.may_interpret(
                    envelope.target,
                    turned.queue_capacity,
                    parts.1.actions,
                    parts.1.armed,
                    parts.1.groups,
                    post.mail,
                    parts.3,
                )
                &&& post == turned.with_mail(post.mail)
                &&& match parts.3 {
                    Ok(_) => outcome == Ok::<_, RuntimeError>(StepResult::ProcessedOne),
                    Err(error) => outcome == Err::<StepResult, _>(error),
                }
            },
        },
{
    let (isolate, built, handled) = choose|
        isolate: I,
        built: BuilderState<I::Message>,
        handled: Result<(), RuntimeError>,
    | #[trigger]
        pre.may_handle(envelope, isolate, built, handled) && match handled {
            Err(error) => {
                &&& post == pre.turned(envelope.target, isolate).minted(built)
                &&& outcome == Err::<StepResult, _>(error)
            },
            Ok(_) => pre.turned(envelope.target, isolate).minted(built).may_apply_turn(
                envelope.target,
                built,
                post,
                outcome,
            ),
        };
    let turned = pre.turned(envelope.target, isolate).minted(built);
    let applied = choose|applied: Result<(), RuntimeError>|
        {
            &&& #[trigger] turned.mail.may_interpret(
                envelope.target,
                turned.queue_capacity,
                built.actions,
                built.armed,
                built.groups,
                post.mail,
                applied,
            )
            &&& post == turned.with_mail(post.mail)
            &&& match applied {
                Ok(_) => outcome == Ok::<_, RuntimeError>(StepResult::ProcessedOne),
                Err(error) => outcome == Err::<StepResult, _>(error),
            }
        };
    (isolate, built, handled, applied)
}

/// A step gives the turn to one isolate at most: every other isolate is as it was.
pub proof fn law_step_leaves_other_isolates_alone<I: Isolate, B: WaitBackend>(
    pre: SchedulerState<I, I::Message, B>,
    post: SchedulerState<I, I::Message, B>,
    outcome: Result<StepResult, RuntimeError>,
)
    requires
        pre.wf(),
        pre.may_step(post, outcome),
    ensures
        exists|owner: Handle| #[trigger] leaves_others_alone(pre, owner, post),
        pre.mail.queue.len() > 0 ==> leaves_others_alone(pre, pre.mail.queue[0].target, post),
{
    let (ready, progressed) = lemma_step_parts(pre, post, outcome);
    if ready.mail.queue.len() > 0 {
        let envelope = ready.mail.queue[0];
        let owner = envelope.target;
        if ready.mail.arena.has(owner) && ready.may_dispatch(progressed, post, outcome) {
            let popped = ready.pop();
            let (isolate, built, handled, applied) = lemma_turn_parts(
                popped,
                envelope,
                post,
                outcome,
            );
            let turned = popped.turned(owner, isolate).minted(built);
            if handled is Ok {
                lemma_turn_removes_its_isolate_only(
                    turned.mail,
                    owner,
                    turned.queue_capacity,
                    built,
                    post.mail,
                    applied,
                );
                assert forall|other: Handle|
                    other != owner && #[trigger] pre.mail.arena.has(other) implies
                    post.mail.arena.has(other) && post.mail.arena.at(other) == pre.mail.arena.at(
                    other,
                ) by {
                    assert(turned.mail.arena.has(other));
                }
            }
        }
        assert(leaves_others_alone(pre, owner, post));
    } else {
        assert(leaves_others_alone(pre, arbitrary(), post));
    }
}

/// Every isolate but `owner` is in `post` as it was in `pre`.
pub open spec fn leaves_others_alone<I, M, B>(
    pre: SchedulerState<I, M, B>,
    owner: Handle,
    post: SchedulerState<I, M, B>,
) -> bool {
    forall|other: Handle|
        other != owner && #[trigger] pre.mail.arena.has(other) ==> post.mail.arena.has(other)
            && post.mail.arena.at(other) == pre.mail.arena.at(other)
}

proof fn lemma_turn_removes_its_isolate_only<I, M, B: WaitBackend>(
    pre: MailState<I, M, B>,
    owner: Handle,
    queue_capacity: nat,
    built: BuilderState<M>,
    post: MailState<I, M, B>,
    outcome: Result<(), RuntimeError>,
)
    requires
        pre.may_interpret(
            owner,
            queue_capacity,
            built.actions,
            built.armed,
            built.groups,
            post,
            outcome,
        ),
    ensures
        forall|other: Handle|
            other != owner && #[trigger] pre.arena.has(other) ==> post.arena.has(other)
                && post.arena.at(other) == pre.arena.at(other),
{
    if outcome is Ok {
        let backend = super::interpreter::lemma_applied_turn(
            pre,
            owner,
            queue_capacity,
            built.actions,
            built.armed,
            built.groups,
            post,
            outcome,
        );
        let start = pre.arm(owner, built.armed, built.groups, backend);
        lemma_actions_remove_their_isolate_only(start, owner, built.actions, post);
        assert(start.arena == pre.arena);
    } else {
        law_failed_turn_is_not_applied(
            pre,
            owner,
            queue_capacity,
            built.actions,
            built.armed,
            built.groups,
            post,
            outcome,
        );
    }
}

proof fn lemma_actions_remove_their_isolate_only<I, M, B: WaitBackend>(
    pre: MailState<I, M, B>,
    owner: Handle,
    actions: Seq<Action<M>>,
    post: MailState<I, M, B>,
)
    requires
        pre.may_act(owner, actions, post),
    ensures
        forall|other: Handle|
            other != owner && #[trigger] pre.arena.has(other) ==> post.arena.has(other)
                && post.arena.at(other) == pre.arena.at(other),
    decreases actions.len(),
{
    if actions.len() > 0 {
        let mid = choose|mid: MailState<I, M, B>|
            pre.may_act(owner, actions.drop_last(), mid) && #[trigger] mid.may_apply(
                owner,
                actions.last(),
                post,
            );
        lemma_actions_remove_their_isolate_only(pre, owner, actions.drop_last(), mid);
    }
}

/// Every turn goes on with the numbers where the turn before it ended, whatever became of that turn:
/// the numbers that an isolate was given are used up, also where it fails or its turn is refused. So
/// no two turns are given the same token.
pub proof fn law_turns_use_their_numbers_up<I: Isolate, B: WaitBackend>(
    pre: SchedulerState<I, I::Message, B>,
    envelope: Envelope<I::Message>,
    post: SchedulerState<I, I::Message, B>,
    outcome: Result<StepResult, RuntimeError>,
)
    requires
        pre.may_take_turn(envelope, post, outcome),
    ensures
        pre.next_token <= post.next_token,
        pre.next_group <= post.next_group,
        exists|isolate: I, built: BuilderState<I::Message>, handled: Result<(), RuntimeError>|
            #[trigger] pre.may_handle(envelope, isolate, built, handled) && post.next_token
                == built.next_token && post.next_group == built.next_group,
{
    let (isolate, built, handled, _) = lemma_turn_parts(pre, envelope, post, outcome);
    assert(pre.may_handle(envelope, isolate, built, handled));
}

/// Tokens are minted once: the numbers never go back, and an operation that is in flight after a
/// step was in flight before, in the same way, or has a number that no operation had before. So an
/// operation that completed or was cancelled is never in flight again.
pub proof fn law_tokens_are_minted_once<I: Isolate, B: WaitBackend>(
    pre: SchedulerState<I, I::Message, B>,
    post: SchedulerState<I, I::Message, B>,
    outcome: Result<StepResult, RuntimeError>,
    token: OpToken,
)
    requires
        pre.wf(),
        pre.may_step(post, outcome),
    ensures
        pre.next_token <= post.next_token,
        pre.next_group <= post.next_group,
        post.mail.registry.in_flight.contains_key(token.0) ==> {
            ||| pre.mail.registry.in_flight.contains_key(token.0)
                && post.mail.registry.in_flight[token.0] == pre.mail.registry.in_flight[token.0]
            ||| pre.next_token <= token.0 < post.next_token
        },
{
    let (ready, progressed) = lemma_step_parts(pre, post, outcome);
    if ready.mail.queue.len() > 0 {
        let envelope = ready.mail.queue[0];
        let owner = envelope.target;
        if ready.mail.arena.has(owner) && ready.may_dispatch(progressed, post, outcome) {
            let popped = ready.pop();
            let (isolate, built, handled, applied) = lemma_turn_parts(
                popped,
                envelope,
                post,
                outcome,
            );
            let turned = popped.turned(owner, isolate).minted(built);
            if handled is Ok {
                lemma_turn_arms_new_tokens_only(
                    turned.mail,
                    owner,
                    turned.queue_capacity,
                    popped.clear_builder(),
                    built,
                    post.mail,
                    applied,
                    token,
                );
            }
        }
    }
}

proof fn lemma_turn_arms_new_tokens_only<I, M, B: WaitBackend>(
    pre: MailState<I, M, B>,
    owner: Handle,
    queue_capacity: nat,
    base: BuilderState<M>,
    built: BuilderState<M>,
    post: MailState<I, M, B>,
    outcome: Result<(), RuntimeError>,
    token: OpToken,
)
    requires
        built.built_since(base),
        pre.may_interpret(
            owner,
            queue_capacity,
            built.actions,
            built.armed,
            built.groups,
            post,
            outcome,
        ),
    ensures
        post.registry.in_flight.contains_key(token.0) ==> {
            ||| pre.registry.in_flight.contains_key(token.0) && post.registry.in_flight[token.0]
                == pre.registry.in_flight[token.0]
            ||| base.next_token <= token.0 < built.next_token
        },
{
    if outcome is Ok {
        let backend = super::interpreter::lemma_applied_turn(
            pre,
            owner,
            queue_capacity,
            built.actions,
            built.armed,
            built.groups,
            post,
            outcome,
        );
        let start = pre.arm(owner, built.armed, built.groups, backend);
        super::interpreter::lemma_open_groups(pre.registry, owner, built.groups);
        lemma_registering_adds_its_tokens_only(
            pre.registry.open_groups(owner, built.groups),
            owner,
            built.armed,
            token,
        );
        super::interpreter::lemma_actions_send(start, owner, built.actions, post);
    }
}

proof fn lemma_registering_adds_its_tokens_only<M>(
    registry: RegistryState<M>,
    owner: Handle,
    waits: Seq<Armed<M>>,
    token: OpToken,
)
    ensures
        ({
            let post = registry.register_all(owner, waits);
            post.in_flight.contains_key(token.0) ==> {
                ||| registry.in_flight.contains_key(token.0) && post.in_flight[token.0]
                    == registry.in_flight[token.0]
                ||| exists|i: int| 0 <= i < waits.len() && (#[trigger] waits[i]).token == token
            }
        }),
    decreases waits.len(),
{
    if waits.len() > 0 {
        let rest = waits.drop_last();
        lemma_registering_adds_its_tokens_only(registry, owner, rest, token);
        if waits.last().token != token && exists|i: int|
            0 <= i < rest.len() && (#[trigger] rest[i]).token == token {
            let i = choose|i: int| 0 <= i < rest.len() && (#[trigger] rest[i]).token == token;
            assert(waits[i].token == token);
        }
    }
}

/// Every step keeps the scheduler well formed: the queue stays within its capacity, and the registry
/// knows only what was minted.
pub proof fn law_steps_keep_the_scheduler_well_formed<I: Isolate, B: WaitBackend>(
    pre: SchedulerState<I, I::Message, B>,
    post: SchedulerState<I, I::Message, B>,
    outcome: Result<StepResult, RuntimeError>,
)
    requires
        pre.wf(),
        pre.may_step(post, outcome),
    ensures
        post.wf(),
        post.queue_capacity == pre.queue_capacity,
        post.max_actions == pre.max_actions,
        post.max_waits == pre.max_waits,
{
    let (ready, progressed) = lemma_step_parts(pre, post, outcome);
    if ready.mail.queue.len() > 0 {
        let envelope = ready.mail.queue[0];
        let owner = envelope.target;
        if ready.mail.arena.has(owner) && ready.may_dispatch(progressed, post, outcome) {
            let popped = ready.pop();
            let (isolate, built, handled, applied) = lemma_turn_parts(
                popped,
                envelope,
                post,
                outcome,
            );
            if handled is Ok {
                let turned = popped.turned(owner, isolate).minted(built);
                super::interpreter::lemma_turn_minted(
                    turned.mail,
                    owner,
                    turned.queue_capacity,
                    popped.clear_builder(),
                    built,
                    post.mail,
                    applied,
                );
                lemma_turn_wf(
                    turned.mail,
                    owner,
                    turned.queue_capacity,
                    built,
                    post.mail,
                    applied,
                );
            }
        }
    }
}

proof fn lemma_turn_wf<I, M, B: WaitBackend>(
    pre: MailState<I, M, B>,
    owner: Handle,
    queue_capacity: nat,
    built: BuilderState<M>,
    post: MailState<I, M, B>,
    outcome: Result<(), RuntimeError>,
)
    requires
        pre.arena.wf(),
        pre.registry.wf(),
        pre.registry.accepts(built.armed, built.groups),
        pre.may_interpret(
            owner,
            queue_capacity,
            built.actions,
            built.armed,
            built.groups,
            post,
            outcome,
        ),
    ensures
        post.arena.wf(),
        post.registry.wf(),
{
    if outcome is Ok {
        let backend = super::interpreter::lemma_applied_turn(
            pre,
            owner,
            queue_capacity,
            built.actions,
            built.armed,
            built.groups,
            post,
            outcome,
        );
        lemma_open_groups_wf(pre.registry, owner, built.groups);
        super::interpreter::lemma_accepted_waits_fit(
            pre.registry,
            owner,
            built.armed,
            built.groups,
        );
        lemma_registering_wf(
            pre.registry.open_groups(owner, built.groups),
            owner,
            built.armed,
        );
        lemma_actions_wf(
            pre.arm(owner, built.armed, built.groups, backend),
            owner,
            built.actions,
            post,
        );
    }
}

pub proof fn lemma_open_groups_wf<M>(
    registry: RegistryState<M>,
    owner: Handle,
    groups: Seq<GroupSpecState<M>>,
)
    requires
        registry.wf(),
        registry.accepts(Seq::empty(), groups),
    ensures
        registry.open_groups(owner, groups).wf(),
    decreases groups.len(),
{
    if groups.len() > 0 {
        let rest = groups.drop_last();
        super::interpreter::lemma_open_groups(registry, owner, rest);
    }
}

pub proof fn lemma_registering_wf<M>(
    registry: RegistryState<M>,
    owner: Handle,
    waits: Seq<Armed<M>>,
)
    requires
        registry.wf(),
        forall|i: int|
            0 <= i < waits.len() ==> registry.fits(
                (#[trigger] waits[i]).token,
                super::interpreter::launched(owner, waits[i]),
            ),
    ensures
        registry.register_all(owner, waits).wf(),
        registry.register_all(owner, waits).groups == registry.groups,
    decreases waits.len(),
{
    if waits.len() > 0 {
        lemma_registering_wf(registry, owner, waits.drop_last());
    }
}

proof fn lemma_actions_wf<I, M, B: WaitBackend>(
    pre: MailState<I, M, B>,
    owner: Handle,
    actions: Seq<Action<M>>,
    post: MailState<I, M, B>,
)
    requires
        pre.arena.wf(),
        pre.registry.wf(),
        pre.may_act(owner, actions, post),
    ensures
        post.arena.wf(),
        post.registry.wf(),
    decreases actions.len(),
{
    if actions.len() > 0 {
        let mid = choose|mid: MailState<I, M, B>|
            pre.may_act(owner, actions.drop_last(), mid) && #[trigger] mid.may_apply(
                owner,
                actions.last(),
                post,
            );
        lemma_actions_wf(pre, owner, actions.drop_last(), mid);
        crate::arena::lemma_remove_wf(mid.arena, owner);
        if let Action::Cancel { token } = actions.last() {
            super::registry::lemma_cancel_wf(mid.registry, token);
        }
    }
}

} // verus!
