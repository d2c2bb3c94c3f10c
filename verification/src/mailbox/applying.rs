//! What applying a turn is for: every wait that was armed is in flight, every action is carried out,
//! in order, and nothing else happens.

use vstd::prelude::*;

use crate::arena::Handle;

use super::backend::{FakeWaitBackend, WaitBackend};
use super::effects::{Action, OpToken, RuntimeMessage, Wait};
use super::error::RuntimeError;
use super::interpreter::MailState;
use super::registry::{Envelope, RegistryState};
use super::turn::{Armed, GroupSpecState};

verus! {

/// A turn is measured by what it asks for: each message to another isolate or to itself counts as
/// one message, and each `DestroySelf` as one destruction.
pub proof fn law_actions_are_counted<M>(actions: Seq<Action<M>>)
    ensures
        super::interpreter::sends_in(actions) == actions.filter(
            |action: Action<M>| action is Send || action is SendSelf,
        ).len(),
        super::interpreter::destroys_in(actions) == actions.filter(
            |action: Action<M>| action is DestroySelf,
        ).len(),
    decreases actions.len(),
{
    reveal(Seq::filter);
    if actions.len() > 0 {
        law_actions_are_counted(actions.drop_last());
    }
}

/// What one action of `owner` does. A message goes to the end of the queue, to whom it is for, and
/// reports no operation. A destruction removes the isolate and takes out its operations, each of
/// which is cancelled in the backend. A cancellation takes out one operation, in the backend too,
/// where it is in flight.
pub open spec fn carried_out<I, M, B: WaitBackend>(
    pre: MailState<I, M, B>,
    owner: Handle,
    action: Action<M>,
    post: MailState<I, M, B>,
) -> bool {
    match action {
        Action::Send { target, message } => {
            &&& post.arena == pre.arena
            &&& post.registry == pre.registry
            &&& post.backend == pre.backend
            &&& post.queue == pre.queue.push(Envelope { target, message, token: None })
        },
        Action::SendSelf { message } => {
            &&& post.arena == pre.arena
            &&& post.registry == pre.registry
            &&& post.backend == pre.backend
            &&& post.queue == pre.queue.push(
                Envelope { target: owner, message: RuntimeMessage::User(message), token: None },
            )
        },
        Action::DestroySelf => {
            &&& !post.arena.has(owner)
            &&& forall|other: Handle|
                #![trigger post.arena.has(other)]
                #![trigger pre.arena.has(other)]
                other != owner ==> {
                    &&& post.arena.has(other) == pre.arena.has(other)
                    &&& pre.arena.has(other) ==> post.arena.at(other) == pre.arena.at(other)
                }
            &&& post.queue == pre.queue
            &&& post.registry == pre.registry.purge(owner)
            &&& exists|order: Seq<OpToken>| #[trigger]
                names_operations_of(pre.registry, owner, order) && super::backend::may_cancel_all(
                    pre.backend,
                    order,
                    post.backend,
                )
        },
        Action::Cancel { token } => {
            &&& post.arena == pre.arena
            &&& post.queue == pre.queue
            &&& post.registry == pre.registry.cancel(token)
            &&& if pre.registry.in_flight.contains_key(token.0) {
                pre.backend.may_cancel(token, post.backend)
            } else {
                post.backend == pre.backend
            }
        },
    }
}

/// `order` names every operation that `target` has in flight once, and no other.
pub open spec fn names_operations_of<M>(
    registry: RegistryState<M>,
    target: Handle,
    order: Seq<OpToken>,
) -> bool {
    &&& order.no_duplicates()
    &&& forall|token: OpToken| #[trigger]
        order.contains(token) <==> registry.in_flight.contains_key(token.0)
            && registry.in_flight[token.0].target == target
}

/// The actions of a turn are carried out one after the other, in the order in which they were asked
/// for and none left out.
pub proof fn law_actions_are_carried_out_in_order<I, M, B: WaitBackend>(
    pre: MailState<I, M, B>,
    owner: Handle,
    actions: Seq<Action<M>>,
    post: MailState<I, M, B>,
) -> (states: Seq<MailState<I, M, B>>)
    requires
        pre.arena.wf(),
        pre.may_act(owner, actions, post),
    ensures
        states.len() == actions.len() + 1,
        states[0] == pre,
        states.last() == post,
        post.arena.wf(),
        forall|k: int|
            #![trigger actions[k]]
            0 <= k < actions.len() ==> carried_out(states[k], owner, actions[k], states[k + 1]),
    decreases actions.len(),
{
    if actions.len() == 0 {
        seq![pre]
    } else {
        let rest = actions.drop_last();
        let mid = choose|mid: MailState<I, M, B>|
            pre.may_act(owner, rest, mid) && #[trigger] mid.may_apply(owner, actions.last(), post);
        let states = law_actions_are_carried_out_in_order(pre, owner, rest, mid);
        let longer = states.push(post);
        crate::arena::lemma_remove_wf(mid.arena, owner);
        if actions.last() is DestroySelf {
            let order = choose|order: Seq<OpToken>| #[trigger]
                mid.registry.lists_operations_of(owner, order) && super::backend::may_cancel_all(
                    mid.backend,
                    order,
                    post.backend,
                );
            assert(names_operations_of(mid.registry, owner, order));
        }
        assert forall|k: int|
            #![trigger actions[k]]
            0 <= k < actions.len() implies carried_out(
            longer[k],
            owner,
            actions[k],
            longer[k + 1],
        ) by {
            if k < rest.len() {
                assert(rest[k] == actions[k]);
            }
        }
        longer
    }
}

/// Every wait of a turn that is applied was handed to the backend, in order, under its token and as
/// it was armed, and the backend took all of them.
pub proof fn law_backend_is_given_every_wait<M, B: WaitBackend>(
    pre: B,
    armed: Seq<Armed<M>>,
    post: B,
) -> (states: Seq<B>)
    requires
        super::interpreter::may_accept_all(pre, armed, post),
    ensures
        states.len() == armed.len() + 1,
        states[0] == pre,
        states.last() == post,
        forall|k: int|
            #![trigger armed[k]]
            0 <= k < armed.len() ==> is_submitted(
                states[k],
                armed[k].token,
                armed[k].wait,
                states[k + 1],
            ),
    decreases armed.len(),
{
    if armed.len() == 0 {
        seq![pre]
    } else {
        let rest = armed.drop_last();
        let mid = choose|mid: B|
            super::interpreter::may_accept_all(pre, rest, mid)
                && #[trigger] super::interpreter::may_accept(mid, armed.last(), post);
        let states = law_backend_is_given_every_wait(pre, rest, mid);
        let longer = states.push(post);
        assert forall|k: int|
            #![trigger armed[k]]
            0 <= k < armed.len() implies is_submitted(
            longer[k],
            armed[k].token,
            armed[k].wait,
            longer[k + 1],
        ) by {
            if k < rest.len() {
                assert(rest[k] == armed[k]);
            }
        }
        longer
    }
}

/// The backend takes `wait` under `token` and turns into `post`.
pub open spec fn is_submitted<B: WaitBackend>(
    pre: B,
    token: OpToken,
    wait: Wait,
    post: B,
) -> bool {
    exists|outcome: Result<(), RuntimeError>| #[trigger]
        pre.may_submit(token, wait, post, outcome) && outcome is Ok
}

/// `token` is cancelled by one of `actions`.
pub open spec fn is_cancelled_by<M>(actions: Seq<Action<M>>, token: OpToken) -> bool {
    exists|k: int|
        0 <= k < actions.len() && (#[trigger] actions[k] matches Action::Cancel { token: named }
            && named == token)
}

/// Every wait of a turn that is applied is in flight for the isolate, with the message and in the
/// group that it was armed with, unless the same turn cancels it. Every group is open for the
/// isolate, as it was asked for, unless the same turn cancels one of its members. What was in flight
/// before stays so, unless the turn cancels it, and so do the groups that were open. The isolate is not to destroy itself in that turn.
pub proof fn law_armed_waits_are_in_flight<I, M, B: WaitBackend>(
    pre: MailState<I, M, B>,
    owner: Handle,
    queue_capacity: nat,
    actions: Seq<Action<M>>,
    armed: Seq<Armed<M>>,
    groups: Seq<GroupSpecState<M>>,
    post: MailState<I, M, B>,
    outcome: Result<(), RuntimeError>,
)
    requires
        pre.registry.wf(),
        pre.registry.accepts(armed, groups),
        forall|i: int, j: int|
            0 <= i < j < armed.len() ==> (#[trigger] armed[i]).token != (#[trigger] armed[j]).token,
        forall|k: int|
            0 <= k < actions.len() ==> !((#[trigger] actions[k]) is DestroySelf),
        pre.may_interpret(owner, queue_capacity, actions, armed, groups, post, outcome),
        outcome is Ok,
    ensures
        post.arena == pre.arena,
        post.registry.ready == pre.registry.ready,
        forall|i: int|
            0 <= i < armed.len() ==> {
                let number = (#[trigger] armed[i]).token.0;
                &&& post.registry.in_flight.contains_key(number) <==> !is_cancelled_by(
                    actions,
                    armed[i].token,
                )
                &&& post.registry.in_flight.contains_key(number) ==> {
                    let operation = post.registry.in_flight[number];
                    &&& operation.target == owner
                    &&& operation.completion == armed[i].completion
                    &&& operation.group == armed[i].group
                }
            },
        forall|number: u32|
            #![trigger post.registry.in_flight.contains_key(number)]
            (forall|i: int| 0 <= i < armed.len() ==> (#[trigger] armed[i]).token.0 != number) ==> {
                &&& post.registry.in_flight.contains_key(number)
                    <==> pre.registry.in_flight.contains_key(number) && !is_cancelled_by(
                    actions,
                    OpToken(number),
                )
                &&& post.registry.in_flight.contains_key(number)
                    ==> post.registry.in_flight[number] == pre.registry.in_flight[number]
            },
        forall|k: int|
            0 <= k < groups.len() && (forall|token: OpToken| #[trigger]
                groups[k].members.contains(token) ==> !is_cancelled_by(actions, token)) ==> {
                let id = (#[trigger] groups[k]).id;
                let opened = post.registry.groups[id];
                &&& post.registry.groups.contains_key(id)
                &&& opened.policy == groups[k].policy
                &&& opened.target == owner
                &&& opened.members == groups[k].members
                &&& opened.remaining == groups[k].members.len()
                &&& opened.join == groups[k].join
            },
        forall|id: u32|
            #![trigger pre.registry.groups.contains_key(id)]
            pre.registry.groups.contains_key(id) && (forall|k: int|
                0 <= k < groups.len() ==> (#[trigger] groups[k]).id != id) && (forall|
                token: OpToken,
            | #[trigger]
                pre.registry.groups[id].members.contains(token) ==> !is_cancelled_by(
                    actions,
                    token,
                )) ==> {
                &&& post.registry.groups.contains_key(id)
                &&& post.registry.groups[id] == pre.registry.groups[id]
            },
{
    let backend = super::interpreter::lemma_applied_turn(
        pre,
        owner,
        queue_capacity,
        actions,
        armed,
        groups,
        post,
        outcome,
    );
    let start = pre.arm(owner, armed, groups, backend);
    super::interpreter::lemma_open_groups(pre.registry, owner, groups);
    super::interpreter::lemma_accepted_waits_fit(pre.registry, owner, armed, groups);
    super::laws::lemma_open_groups_wf(pre.registry, owner, groups);
    let opened = pre.registry.open_groups(owner, groups);
    super::laws::lemma_registering_wf(opened, owner, armed);
    assert forall|i: int| 0 <= i < armed.len() implies {
        let number = (#[trigger] armed[i]).token.0;
        &&& start.registry.in_flight.contains_key(number)
        &&& start.registry.in_flight[number] == super::interpreter::launched(owner, armed[i])
    } by {
        lemma_registered(opened, owner, armed, i);
    }
    assert forall|number: u32|
        (forall|i: int| 0 <= i < armed.len() ==> (#[trigger] armed[i]).token.0
            != number) implies #[trigger] start.registry.in_flight.contains_key(number)
        == pre.registry.in_flight.contains_key(number) && (pre.registry.in_flight.contains_key(
        number,
    ) ==> start.registry.in_flight[number] == pre.registry.in_flight[number]) by {
        lemma_not_registered(opened, owner, armed, number);
    }
    lemma_actions_cancel_what_they_name(start, owner, actions, post);
    lemma_registering_keeps_the_rest(opened, owner, armed);
    assert forall|k: int|
        0 <= k < groups.len() && (forall|token: OpToken| #[trigger]
            groups[k].members.contains(token) ==> !is_cancelled_by(actions, token)) implies {
        let id = (#[trigger] groups[k]).id;
        let opened = post.registry.groups[id];
        &&& post.registry.groups.contains_key(id)
        &&& opened.policy == groups[k].policy
        &&& opened.target == owner
        &&& opened.members == groups[k].members
        &&& opened.remaining == groups[k].members.len()
        &&& opened.join == groups[k].join
    } by {
        let id = groups[k].id;
        assert(opened.groups.contains_key(id));
        assert(start.registry.groups.contains_key(id));
        assert(start.registry.groups[id] == super::interpreter::opened(owner, groups[k]));
    }
    assert forall|id: u32|
        #![trigger pre.registry.groups.contains_key(id)]
        pre.registry.groups.contains_key(id) && (forall|k: int|
            0 <= k < groups.len() ==> (#[trigger] groups[k]).id != id) && (forall|token: OpToken|
            #[trigger] pre.registry.groups[id].members.contains(token) ==> !is_cancelled_by(
                actions,
                token,
            )) implies {
        &&& post.registry.groups.contains_key(id)
        &&& post.registry.groups[id] == pre.registry.groups[id]
    } by {
        assert(opened.groups.contains_key(id) && opened.groups[id] == pre.registry.groups[id]);
        assert(start.registry.groups.contains_key(id));
    }
}

proof fn lemma_registered<M>(
    registry: RegistryState<M>,
    owner: Handle,
    waits: Seq<Armed<M>>,
    i: int,
)
    requires
        0 <= i < waits.len(),
        forall|i: int, j: int|
            0 <= i < j < waits.len() ==> (#[trigger] waits[i]).token != (#[trigger] waits[j]).token,
    ensures
        registry.register_all(owner, waits).in_flight.contains_key(waits[i].token.0),
        registry.register_all(owner, waits).in_flight[waits[i].token.0]
            == super::interpreter::launched(owner, waits[i]),
    decreases waits.len(),
{
    if i < waits.len() - 1 {
        lemma_registered(registry, owner, waits.drop_last(), i);
        assert(waits[i].token != waits[waits.len() - 1].token);
    }
}

proof fn lemma_not_registered<M>(
    registry: RegistryState<M>,
    owner: Handle,
    waits: Seq<Armed<M>>,
    number: u32,
)
    requires
        forall|i: int| 0 <= i < waits.len() ==> (#[trigger] waits[i]).token.0 != number,
    ensures
        registry.register_all(owner, waits).in_flight.contains_key(number)
            == registry.in_flight.contains_key(number),
        registry.in_flight.contains_key(number) ==> registry.register_all(
            owner,
            waits,
        ).in_flight[number] == registry.in_flight[number],
    decreases waits.len(),
{
    if waits.len() > 0 {
        assert(waits[waits.len() - 1].token.0 != number);
        lemma_not_registered(registry, owner, waits.drop_last(), number);
    }
}

proof fn lemma_registering_keeps_the_rest<M>(
    registry: RegistryState<M>,
    owner: Handle,
    waits: Seq<Armed<M>>,
)
    ensures
        registry.register_all(owner, waits).groups == registry.groups,
        registry.register_all(owner, waits).ready == registry.ready,
    decreases waits.len(),
{
    if waits.len() > 0 {
        lemma_registering_keeps_the_rest(registry, owner, waits.drop_last());
    }
}

/// Actions without a destruction leave isolates alone, and of the operations in flight take out
/// those that they cancel; a group of which they cancel no member is as it was.
proof fn lemma_actions_cancel_what_they_name<I, M, B: WaitBackend>(
    pre: MailState<I, M, B>,
    owner: Handle,
    actions: Seq<Action<M>>,
    post: MailState<I, M, B>,
)
    requires
        pre.registry.wf(),
        pre.may_act(owner, actions, post),
        forall|k: int|
            0 <= k < actions.len() ==> !((#[trigger] actions[k]) is DestroySelf),
    ensures
        post.registry.wf(),
        post.arena == pre.arena,
        post.registry.ready == pre.registry.ready,
        forall|number: u32|
            #![trigger post.registry.in_flight.contains_key(number)]
            #![trigger pre.registry.in_flight.contains_key(number)]
            {
                &&& post.registry.in_flight.contains_key(number)
                    <==> pre.registry.in_flight.contains_key(number) && !is_cancelled_by(
                    actions,
                    OpToken(number),
                )
                &&& post.registry.in_flight.contains_key(number)
                    ==> post.registry.in_flight[number] == pre.registry.in_flight[number]
            },
        forall|group: u32|
            #![trigger pre.registry.groups.contains_key(group)]
            pre.registry.groups.contains_key(group) && (forall|token: OpToken| #[trigger]
                pre.registry.groups[group].members.contains(token) ==> !is_cancelled_by(
                    actions,
                    token,
                )) ==> {
                &&& post.registry.groups.contains_key(group)
                &&& post.registry.groups[group] == pre.registry.groups[group]
            },
    decreases actions.len(),
{
    if actions.len() > 0 {
        let rest = actions.drop_last();
        let last = actions.last();
        let mid = choose|mid: MailState<I, M, B>|
            pre.may_act(owner, rest, mid) && #[trigger] mid.may_apply(owner, last, post);
        assert forall|k: int| 0 <= k < rest.len() implies !(
        (#[trigger] rest[k]) is DestroySelf) by {
            assert(!(actions[k] is DestroySelf));
        }
        assert(!(actions[actions.len() - 1] is DestroySelf));
        lemma_actions_cancel_what_they_name(pre, owner, rest, mid);
        assert forall|token: OpToken| #[trigger] is_cancelled_by(actions, token) == (
        is_cancelled_by(rest, token) || (last matches Action::Cancel { token: named } && named
            == token)) by {
            lemma_cancelled_by_last(actions, token);
        }
        if let Action::Cancel { token } = last {
            super::registry::lemma_cancel_wf(mid.registry, token);
            super::delivery::law_cancellation_takes_out_one_operation(mid.registry, token);
            assert(is_cancelled_by(actions, token));
            assert forall|group: u32|
                #![trigger pre.registry.groups.contains_key(group)]
                pre.registry.groups.contains_key(group) && (forall|member: OpToken| #[trigger]
                    pre.registry.groups[group].members.contains(member) ==> !is_cancelled_by(
                        actions,
                        member,
                    )) implies {
                &&& post.registry.groups.contains_key(group)
                &&& post.registry.groups[group] == pre.registry.groups[group]
            } by {
                assert forall|member: OpToken| #[trigger]
                    pre.registry.groups[group].members.contains(member) implies !is_cancelled_by(
                    rest,
                    member,
                ) by {
                    assert(!is_cancelled_by(actions, member));
                }
                assert(mid.registry.groups.contains_key(group));
                if mid.registry.in_flight.contains_key(token.0) {
                    let operation = mid.registry.in_flight[token.0];
                    assert(mid.registry.fits(token, operation));
                    if operation.group == Some(group) {
                        assert(pre.registry.groups[group].members.contains(token));
                    }
                }
            }
        } else {
            assert(post.registry == mid.registry);
            assert forall|group: u32|
                #![trigger pre.registry.groups.contains_key(group)]
                pre.registry.groups.contains_key(group) && (forall|member: OpToken| #[trigger]
                    pre.registry.groups[group].members.contains(member) ==> !is_cancelled_by(
                        actions,
                        member,
                    )) implies {
                &&& post.registry.groups.contains_key(group)
                &&& post.registry.groups[group] == pre.registry.groups[group]
            } by {
                assert forall|member: OpToken| #[trigger]
                    pre.registry.groups[group].members.contains(member) implies !is_cancelled_by(
                    rest,
                    member,
                ) by {
                    assert(!is_cancelled_by(actions, member));
                }
            }
        }
    }
}

proof fn lemma_cancelled_by_last<M>(actions: Seq<Action<M>>, token: OpToken)
    requires
        actions.len() > 0,
    ensures
        is_cancelled_by(actions, token) == (is_cancelled_by(actions.drop_last(), token) || (
        actions.last() matches Action::Cancel { token: named } && named == token)),
{
    let rest = actions.drop_last();
    if is_cancelled_by(actions, token) {
        let k = choose|k: int|
            0 <= k < actions.len() && (#[trigger] actions[k] matches Action::Cancel { token: named }
                && named == token);
        if k < rest.len() {
            assert(rest[k] == actions[k]);
        }
    }
    if is_cancelled_by(rest, token) {
        let k = choose|k: int|
            0 <= k < rest.len() && (#[trigger] rest[k] matches Action::Cancel { token: named }
                && named == token);
        assert(actions[k] == rest[k]);
    }
    if actions.last() matches Action::Cancel { token: named } && named == token {
        assert(actions[actions.len() - 1] == actions.last());
    }
}

/// Over the in-process backend, a turn that neither cancels nor destroys anything leaves every wait
/// pending that it armed, behind those that were pending before, each under its token, of the kind
/// and with the ticks that it was armed with.
pub proof fn law_armed_waits_are_pending<I, M>(
    pre: MailState<I, M, FakeWaitBackend>,
    owner: Handle,
    queue_capacity: nat,
    actions: Seq<Action<M>>,
    armed: Seq<Armed<M>>,
    groups: Seq<GroupSpecState<M>>,
    post: MailState<I, M, FakeWaitBackend>,
    outcome: Result<(), RuntimeError>,
)
    requires
        forall|k: int|
            0 <= k < actions.len() ==> (#[trigger] actions[k]) is Send || actions[k] is SendSelf,
        pre.may_interpret(owner, queue_capacity, actions, armed, groups, post, outcome),
        outcome is Ok,
    ensures
        post.backend@.pending.len() == pre.backend@.pending.len() + armed.len(),
        pre.backend@.pending.is_prefix_of(post.backend@.pending),
        forall|i: int|
            #![trigger armed[i]]
            0 <= i < armed.len() ==> {
                let entry = post.backend@.pending[pre.backend@.pending.len() + i];
                entry.0 == armed[i].token && entry.1 == armed[i].wait
            },
{
    let backend = super::interpreter::lemma_applied_turn(
        pre,
        owner,
        queue_capacity,
        actions,
        armed,
        groups,
        post,
        outcome,
    );
    super::laws::lemma_fake_accepts(pre.backend, armed, backend);
    lemma_messages_leave_the_backend(
        pre.arm(owner, armed, groups, backend),
        owner,
        actions,
        post,
    );
    let added = armed.map_values(|wait: Armed<M>| (wait.token, wait.wait));
    assert(post.backend@.pending == pre.backend@.pending + added);
}

proof fn lemma_messages_leave_the_backend<I, M, B: WaitBackend>(
    pre: MailState<I, M, B>,
    owner: Handle,
    actions: Seq<Action<M>>,
    post: MailState<I, M, B>,
)
    requires
        pre.may_act(owner, actions, post),
        forall|k: int|
            0 <= k < actions.len() ==> (#[trigger] actions[k]) is Send || actions[k] is SendSelf,
    ensures
        post.backend == pre.backend,
    decreases actions.len(),
{
    if actions.len() > 0 {
        let rest = actions.drop_last();
        let mid = choose|mid: MailState<I, M, B>|
            pre.may_act(owner, rest, mid) && #[trigger] mid.may_apply(owner, actions.last(), post);
        assert forall|k: int| 0 <= k < rest.len() implies (#[trigger] rest[k]) is Send
            || rest[k] is SendSelf by {
            assert(actions[k] is Send || actions[k] is SendSelf);
        }
        assert(actions[actions.len() - 1] is Send || actions[actions.len() - 1] is SendSelf);
        lemma_messages_leave_the_backend(pre, owner, rest, mid);
    }
}

/// A turn is refused only for a reason, and the first one that holds is named: more messages than
/// the queue has room for, more waits than the backend says it takes, or a destruction of an isolate
/// that is not there or that the turn destroys already. Otherwise only the backend can make it fail.
pub proof fn law_turn_is_refused_for_a_reason<I, M, B: WaitBackend>(
    pre: MailState<I, M, B>,
    owner: Handle,
    queue_capacity: nat,
    actions: Seq<Action<M>>,
    armed: Seq<Armed<M>>,
    groups: Seq<GroupSpecState<M>>,
    post: MailState<I, M, B>,
    outcome: Result<(), RuntimeError>,
)
    requires
        pre.may_interpret(owner, queue_capacity, actions, armed, groups, post, outcome),
    ensures
        ({
            let sends = actions.filter(
                |action: Action<M>| action is Send || action is SendSelf,
            ).len();
            let destroys = actions.filter(|action: Action<M>| action is DestroySelf).len();
            let fits = pre.queue.len() + sends <= queue_capacity;
            let destroyable = destroys == 0 || destroys == 1 && pre.arena.has(owner);
            ||| {
                &&& !fits
                &&& post == pre
                &&& outcome == Err::<(), _>(RuntimeError::QueueFull)
            }
            ||| {
                &&& fits
                &&& pre.backend.may_answer_can_submit(armed.len() as usize, false)
                &&& post == pre
                &&& outcome == Err::<(), _>(RuntimeError::WaitQueueFull)
            }
            ||| {
                &&& fits
                &&& pre.backend.may_answer_can_submit(armed.len() as usize, true)
                &&& !destroyable
                &&& post == pre
                &&& outcome == Err::<(), _>(
                    RuntimeError::Arena(crate::arena::ArenaError::InvalidHandle),
                )
            }
            ||| {
                &&& fits
                &&& pre.backend.may_answer_can_submit(armed.len() as usize, true)
                &&& destroyable
                &&& outcome matches Err(error) ==> super::interpreter::may_refuse(
                    pre.backend,
                    armed,
                    post.backend,
                    error,
                )
            }
        }),
{
    law_actions_are_counted(actions);
}

/// Where the backend refuses a wait after all, those before it had been submitted, in order; each of
/// them is cancelled again, in that order, and nothing is submitted after the refusal.
pub proof fn law_refused_waits_are_withdrawn<M, B: WaitBackend>(
    pre: B,
    armed: Seq<Armed<M>>,
    post: B,
    error: RuntimeError,
) -> (parts: (int, Seq<B>, B))
    requires
        super::interpreter::may_refuse(pre, armed, post, error),
    ensures
        ({
            let (count, states, refused) = parts;
            let accepted = armed.take(count);
            &&& 0 <= count < armed.len()
            &&& states.len() == count + 1
            &&& states[0] == pre
            &&& forall|k: int|
                #![trigger accepted[k]]
                0 <= k < count ==> is_submitted(
                    states[k],
                    accepted[k].token,
                    accepted[k].wait,
                    states[k + 1],
                )
            &&& states.last().may_submit(
                armed[count].token,
                armed[count].wait,
                refused,
                Err(error),
            )
            &&& super::backend::may_cancel_all(
                refused,
                Seq::new(count as nat, |k: int| armed[k].token),
                post,
            )
        }),
{
    let (count, reached, refused) = super::interpreter::lemma_refusal_parts(
        pre,
        armed,
        post,
        error,
    );
    let states = law_backend_is_given_every_wait(pre, armed.take(count), reached);
    assert(super::interpreter::tokens_of(armed.take(count)) =~= Seq::new(
        count as nat,
        |k: int| armed[k].token,
    ));
    (count, states, refused)
}

/// Cancelling several operations tells the backend of each of them, in order.
pub proof fn law_backend_is_told_of_every_cancellation<B: WaitBackend>(
    pre: B,
    tokens: Seq<OpToken>,
    post: B,
) -> (states: Seq<B>)
    requires
        super::backend::may_cancel_all(pre, tokens, post),
    ensures
        states.len() == tokens.len() + 1,
        states[0] == pre,
        states.last() == post,
        forall|k: int|
            #![trigger tokens[k]]
            0 <= k < tokens.len() ==> states[k].may_cancel(tokens[k], states[k + 1]),
    decreases tokens.len(),
{
    if tokens.len() == 0 {
        seq![pre]
    } else {
        let rest = tokens.drop_last();
        let mid = choose|mid: B|
            super::backend::may_cancel_all(pre, rest, mid) && #[trigger] mid.may_cancel(
                tokens.last(),
                post,
            );
        let states = law_backend_is_told_of_every_cancellation(pre, rest, mid);
        let longer = states.push(post);
        assert forall|k: int|
            #![trigger tokens[k]]
            0 <= k < tokens.len() implies longer[k].may_cancel(tokens[k], longer[k + 1]) by {
            if k < rest.len() {
                assert(rest[k] == tokens[k]);
            }
        }
        longer
    }
}

} // verus!
