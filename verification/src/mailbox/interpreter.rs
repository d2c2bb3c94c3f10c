//! Applying what an isolate asked for in a turn.

use std::collections::VecDeque;

use vstd::prelude::*;

use crate::arena::{Arena, ArenaError, ArenaState, Handle};

use super::backend::WaitBackend;
use super::effects::{Action, OpToken, RuntimeMessage};
use super::error::RuntimeError;
use super::registry::{Envelope, GroupState, InFlight, RegistryState, WaitRegistry};
use super::turn::{Armed, BuilderState, GroupSpec, GroupSpecState};

verus! {

/// What the effects of a turn act on: the isolates, the message queue, the wait registry and the
/// wait backend.
#[verifier::ext_equal]
pub struct MailState<I, M, B> {
    pub arena: ArenaState<I>,
    pub queue: Seq<Envelope<M>>,
    pub registry: RegistryState<M>,
    pub backend: B,
}

/// How many of `actions` put a message into the queue.
pub open spec fn sends_in<M>(actions: Seq<Action<M>>) -> nat
    decreases actions.len(),
{
    if actions.len() == 0 {
        0
    } else {
        sends_in(actions.drop_last()) + if actions.last().sends() {
            1nat
        } else {
            0
        }
    }
}

/// How many of `actions` destroy the isolate that asks for them.
pub open spec fn destroys_in<M>(actions: Seq<Action<M>>) -> nat
    decreases actions.len(),
{
    if actions.len() == 0 {
        0
    } else {
        destroys_in(actions.drop_last()) + if actions.last() is DestroySelf {
            1nat
        } else {
            0
        }
    }
}

/// The tokens of `waits`, in order.
pub open spec fn tokens_of<M>(waits: Seq<Armed<M>>) -> Seq<OpToken> {
    waits.map_values(|wait: Armed<M>| wait.token)
}

/// Submitting `wait` may succeed and take a backend from `pre` to `post`.
pub open spec fn may_accept<M, B: WaitBackend>(pre: B, wait: Armed<M>, post: B) -> bool {
    exists|outcome: Result<(), RuntimeError>| #[trigger]
        pre.may_submit(wait.token, wait.wait, post, outcome) && outcome is Ok
}

/// Submitting `waits` in order may succeed for all of them and take a backend from `pre` to `post`.
pub open spec fn may_accept_all<M, B: WaitBackend>(pre: B, waits: Seq<Armed<M>>, post: B) -> bool
    decreases waits.len(),
{
    if waits.len() == 0 {
        post == pre
    } else {
        exists|mid: B|
            may_accept_all(pre, waits.drop_last(), mid) && #[trigger] may_accept(
                mid,
                waits.last(),
                post,
            )
    }
}

/// Submitting `waits` in order may fail with `error` and take a backend from `pre` to `post`: some
/// are accepted, the next one is refused, and those that were accepted are cancelled again.
pub open spec fn may_refuse<M, B: WaitBackend>(
    pre: B,
    waits: Seq<Armed<M>>,
    post: B,
    error: RuntimeError,
) -> bool {
    exists|count: int, reached: B, refused: B|
        {
            &&& 0 <= count < waits.len()
            &&& #[trigger] may_accept_all(pre, waits.take(count), reached)
            &&& #[trigger] reached.may_submit(
                waits[count].token,
                waits[count].wait,
                refused,
                Err(error),
            )
            &&& super::backend::may_cancel_all(refused, tokens_of(waits.take(count)), post)
        }
}

/// The group that opening `spec` for `owner` gives.
pub open spec fn opened<M>(owner: Handle, spec: GroupSpecState<M>) -> GroupState<M> {
    GroupState {
        policy: spec.policy,
        target: owner,
        remaining: spec.members.len(),
        members: spec.members,
        join: spec.join,
    }
}

/// The operation that arming `wait` for `owner` puts in flight.
pub open spec fn launched<M>(owner: Handle, wait: Armed<M>) -> InFlight<M> {
    InFlight { target: owner, completion: wait.completion, group: wait.group }
}

impl<M> RegistryState<M> {
    /// The registry with `groups` opened for `owner`, in order.
    pub open spec fn open_groups(self, owner: Handle, groups: Seq<GroupSpecState<M>>) -> Self
        decreases groups.len(),
    {
        if groups.len() == 0 {
            self
        } else {
            self.open_groups(owner, groups.drop_last()).open_group(
                groups.last().id,
                opened(owner, groups.last()),
            )
        }
    }

    /// The registry with `waits` registered for `owner`, in order.
    pub open spec fn register_all(self, owner: Handle, waits: Seq<Armed<M>>) -> Self
        decreases waits.len(),
    {
        if waits.len() == 0 {
            self
        } else {
            self.register_all(owner, waits.drop_last()).register(
                waits.last().token,
                launched(owner, waits.last()),
            )
        }
    }

    /// No operation is in flight for group `id`.
    pub open spec fn awaits_none_of(self, id: u32) -> bool {
        forall|token: u32|
            self.in_flight.contains_key(token) ==> (#[trigger] self.in_flight[token]).group != Some(
                id,
            )
    }

    /// The groups are consistent and new to the registry, and each wait has a completion of its own
    /// or belongs to a group that admits it, if to an open one.
    pub open spec fn accepts(self, armed: Seq<Armed<M>>, groups: Seq<GroupSpecState<M>>) -> bool {
        &&& forall|k: int|
            0 <= k < groups.len() ==> (#[trigger] groups[k]).consistent() && self.awaits_none_of(
                groups[k].id,
            )
        &&& forall|k: int, l: int|
            0 <= k < l < groups.len() ==> (#[trigger] groups[k]).id != (#[trigger] groups[l]).id
        &&& forall|i: int|
            0 <= i < armed.len() ==> match (#[trigger] armed[i]).group {
                None => armed[i].completion is Some,
                Some(group) => !self.groups.contains_key(group),
            }
        &&& forall|i: int, k: int|
            0 <= i < armed.len() && 0 <= k < groups.len() && (#[trigger] armed[i]).group == Some(
                (#[trigger] groups[k]).id,
            ) ==> groups[k].admits(armed[i])
    }
}

impl<I, M, B: WaitBackend> MailState<I, M, B> {
    /// Applying `actions` of `owner` in order may end in `post`.
    pub open spec fn may_act(self, owner: Handle, actions: Seq<Action<M>>, post: Self) -> bool
        decreases actions.len(),
    {
        if actions.len() == 0 {
            post == self
        } else {
            exists|mid: Self|
                self.may_act(owner, actions.drop_last(), mid) && #[trigger] mid.may_apply(
                    owner,
                    actions.last(),
                    post,
                )
        }
    }

    /// Applying one action of `owner` may end in `post`.
    pub open spec fn may_apply(self, owner: Handle, action: Action<M>, post: Self) -> bool {
        match action {
            Action::Send { target, message } => post == self.post(target, message),
            Action::SendSelf { message } => post == self.post(
                owner,
                RuntimeMessage::User(message),
            ),
            Action::DestroySelf => self.may_destroy(owner, post),
            Action::Cancel { token } => self.may_cancel(token, post),
        }
    }

    pub open spec fn post(self, target: Handle, message: RuntimeMessage<M>) -> Self {
        MailState { queue: self.queue.push(Envelope { target, message, token: None }), ..self }
    }

    /// Destroying `owner` cancels all its operations and removes it.
    pub open spec fn may_destroy(self, owner: Handle, post: Self) -> bool {
        &&& post.arena == self.arena.remove(owner)
        &&& post.queue == self.queue
        &&& post.registry == self.registry.purge(owner)
        &&& self.registry.may_cancel_operations_of(owner, self.backend, post.backend)
    }

    /// Cancelling an operation tells the backend, unless the operation is not in flight.
    pub open spec fn may_cancel(self, token: OpToken, post: Self) -> bool {
        &&& post.arena == self.arena
        &&& post.queue == self.queue
        &&& post.registry == self.registry.cancel(token)
        &&& if self.registry.in_flight.contains_key(token.0) {
            self.backend.may_cancel(token, post.backend)
        } else {
            post.backend == self.backend
        }
    }

    /// How often a turn of `owner` may destroy its isolate: once, if it is there.
    pub open spec fn destructions(self, owner: Handle) -> nat {
        if self.arena.has(owner) {
            1
        } else {
            0
        }
    }

    /// Applying a turn of `owner` may end in `post` with `outcome`.
    ///
    /// A turn that sends more than the queue takes, arms more than the backend says it takes, or
    /// destroys an isolate that is not there or is gone by then, is refused and changes nothing.
    pub open spec fn may_interpret(
        self,
        owner: Handle,
        queue_capacity: nat,
        actions: Seq<Action<M>>,
        armed: Seq<Armed<M>>,
        groups: Seq<GroupSpecState<M>>,
        post: Self,
        outcome: Result<(), RuntimeError>,
    ) -> bool {
        if self.queue.len() + sends_in(actions) > queue_capacity {
            post == self && outcome == Err::<(), _>(RuntimeError::QueueFull)
        } else {
            exists|room: bool| #[trigger]
                self.backend.may_answer_can_submit(armed.len() as usize, room) && if !room {
                    post == self && outcome == Err::<(), _>(RuntimeError::WaitQueueFull)
                } else if destroys_in(actions) > self.destructions(owner) {
                    &&& post == self
                    &&& outcome == Err::<(), _>(RuntimeError::Arena(ArenaError::InvalidHandle))
                } else {
                    self.may_commit(owner, actions, armed, groups, post, outcome)
                }
        }
    }

    /// Committing a turn: waits are armed and then actions are applied, so that a cancellation or a
    /// destruction of the same turn reaches the waits. Where the backend refuses a wait in spite of
    /// what it said, those that it accepted are cancelled, and nothing else has changed.
    pub open spec fn may_commit(
        self,
        owner: Handle,
        actions: Seq<Action<M>>,
        armed: Seq<Armed<M>>,
        groups: Seq<GroupSpecState<M>>,
        post: Self,
        outcome: Result<(), RuntimeError>,
    ) -> bool {
        match outcome {
            Ok(_) => exists|backend: B| #[trigger]
                may_accept_all(self.backend, armed, backend) && self.arm(
                    owner,
                    armed,
                    groups,
                    backend,
                ).may_act(owner, actions, post),
            Err(error) => {
                &&& post == (MailState { backend: post.backend, ..self })
                &&& may_refuse(self.backend, armed, post.backend, error)
            },
        }
    }

    /// `groups` are open and `armed` in flight for `owner`, in the backend as in the registry.
    pub open spec fn arm(
        self,
        owner: Handle,
        armed: Seq<Armed<M>>,
        groups: Seq<GroupSpecState<M>>,
        backend: B,
    ) -> Self {
        MailState {
            registry: self.registry.open_groups(owner, groups).register_all(owner, armed),
            backend,
            ..self
        }
    }
}

/// Applies the effects of a turn.
///
/// A turn applies as a whole or not at all. First it is made sure that all effects can be applied:
/// the queue has room for what is sent and the backend for the waits that are armed, and the isolate
/// is there if it is to be destroyed, which it can be once. Only then they are applied. On any error
/// the isolates, the queue and the registry are as they were; so is the backend, unless it was the
/// backend that refused a wait after it had said that there was room.
pub struct EffectInterpreter;

impl EffectInterpreter {
    pub fn interpret_turn<I, M, B: WaitBackend>(
        current: Handle,
        arena: &mut Arena<I>,
        queue: &mut VecDeque<Envelope<M>>,
        queue_capacity: usize,
        registry: &mut WaitRegistry<M>,
        backend: &mut B,
        actions: Vec<Action<M>>,
        armed: Vec<Armed<M>>,
        groups: Vec<GroupSpec<M>>,
    ) -> (outcome: Result<(), RuntimeError>)
        requires
            old(arena)@.wf(),
            old(registry)@.wf(),
            old(registry)@.accepts(armed@, groups@.map_values(|group: GroupSpec<M>| group@)),
        ensures
            final(arena)@.wf(),
            final(registry)@.wf(),
            ({
                let pre = (MailState {
                    arena: old(arena)@,
                    queue: old(queue)@,
                    registry: old(registry)@,
                    backend: *old(backend),
                });
                let post = (MailState {
                    arena: final(arena)@,
                    queue: final(queue)@,
                    registry: final(registry)@,
                    backend: *final(backend),
                });
                pre.may_interpret(
                    current,
                    queue_capacity as nat,
                    actions@,
                    armed@,
                    groups@.map_values(|group: GroupSpec<M>| group@),
                    post,
                    outcome,
                )
            }),
    {
        let ghost pre = MailState {
            arena: arena@,
            queue: queue@,
            registry: registry@,
            backend: *backend,
        };
        let ghost specs = groups@.map_values(|group: GroupSpec<M>| group@);
        let sends: usize = count_sends(&actions);
        if queue.len() > queue_capacity || sends > queue_capacity - queue.len() {
            return Err(RuntimeError::QueueFull);
        }
        let room = backend.can_submit(armed.len());
        assert(pre.backend.may_answer_can_submit(armed@.len() as usize, room));
        if !room {
            return Err(RuntimeError::WaitQueueFull);
        }
        let destroys: usize = count_destroys(&actions);
        if destroys > 1 || (destroys == 1 && !arena.contains(current)) {
            return Err(RuntimeError::Arena(ArenaError::InvalidHandle));
        }
        match submit_waits(backend, &armed) {
            Ok(()) => {},
            Err(error) => return Err(error),
        }
        open_groups(registry, current, groups);
        proof {
            lemma_accepted_waits_fit(pre.registry, current, armed@, specs);
        }
        register_waits(registry, current, armed);
        apply_actions(current, arena, queue, registry, backend, actions);
        Ok(())
    }
}

/// How many of `actions` put a message into the queue.
fn count_sends<M>(actions: &Vec<Action<M>>) -> (count: usize)
    ensures
        count == sends_in(actions@),
{
    let mut count: usize = 0;
    let mut next: usize = 0;
    while next < actions.len()
        invariant
            next <= actions@.len(),
            count <= next,
            count == sends_in(actions@.take(next as int)),
        decreases actions@.len() - next,
    {
        assert(actions@.take(next + 1).drop_last() =~= actions@.take(next as int));
        match &actions[next] {
            Action::Send { .. } | Action::SendSelf { .. } => {
                count += 1;
            },
            Action::DestroySelf | Action::Cancel { .. } => {},
        }
        next += 1;
    }
    assert(actions@.take(next as int) =~= actions@);
    count
}

/// How many of `actions` destroy the isolate that asks for them.
fn count_destroys<M>(actions: &Vec<Action<M>>) -> (count: usize)
    ensures
        count == destroys_in(actions@),
{
    let mut count: usize = 0;
    let mut next: usize = 0;
    while next < actions.len()
        invariant
            next <= actions@.len(),
            count <= next,
            count == destroys_in(actions@.take(next as int)),
        decreases actions@.len() - next,
    {
        assert(actions@.take(next + 1).drop_last() =~= actions@.take(next as int));
        match &actions[next] {
            Action::DestroySelf => {
                count += 1;
            },
            Action::Send { .. } | Action::SendSelf { .. } | Action::Cancel { .. } => {},
        }
        next += 1;
    }
    assert(actions@.take(next as int) =~= actions@);
    count
}

/// Submits `armed`, all of them or, where the backend refuses one, none.
fn submit_waits<M, B: WaitBackend>(backend: &mut B, armed: &Vec<Armed<M>>) -> (outcome: Result<
    (),
    RuntimeError,
>)
    ensures
        match outcome {
            Ok(_) => may_accept_all(*old(backend), armed@, *final(backend)),
            Err(error) => may_refuse(*old(backend), armed@, *final(backend), error),
        },
{
    let ghost before = *backend;
    let mut next: usize = 0;
    while next < armed.len()
        invariant
            before == *old(backend),
            next <= armed@.len(),
            may_accept_all(before, armed@.take(next as int), *backend),
        decreases armed@.len() - next,
    {
        let ghost reached = *backend;
        let ghost accepted = armed@.take(next as int);
        let submitted = backend.submit(armed[next].token, armed[next].wait);
        match submitted {
            Ok(()) => {
                proof {
                    let longer = armed@.take(next + 1);
                    assert(longer.drop_last() =~= accepted);
                    assert(may_accept(reached, longer.last(), *backend));
                }
            },
            Err(error) => {
                withdraw_waits(backend, armed, next);
                return Err(error);
            },
        }
        next += 1;
    }
    assert(armed@.take(next as int) =~= armed@);
    Ok(())
}

/// Cancels the first `count` of `armed`.
fn withdraw_waits<M, B: WaitBackend>(backend: &mut B, armed: &Vec<Armed<M>>, count: usize)
    requires
        count <= armed@.len(),
    ensures
        super::backend::may_cancel_all(
            *old(backend),
            tokens_of(armed@.take(count as int)),
            *final(backend),
        ),
{
    let ghost before = *backend;
    let ghost tokens = tokens_of(armed@.take(count as int));
    let mut next: usize = 0;
    while next < count
        invariant
            next <= count <= armed@.len(),
            tokens == tokens_of(armed@.take(count as int)),
            super::backend::may_cancel_all(before, tokens.take(next as int), *backend),
        decreases count - next,
    {
        let ghost reached = *backend;
        backend.cancel(armed[next].token);
        proof {
            let longer = tokens.take(next + 1);
            assert(longer.drop_last() =~= tokens.take(next as int));
            assert(reached.may_cancel(longer.last(), *backend));
        }
        next += 1;
    }
    assert(tokens.take(next as int) =~= tokens);
}

/// Opens `groups` for `owner`.
fn open_groups<M>(registry: &mut WaitRegistry<M>, owner: Handle, groups: Vec<GroupSpec<M>>)
    requires
        old(registry)@.wf(),
        old(registry)@.accepts(Seq::empty(), groups@.map_values(|group: GroupSpec<M>| group@)),
    ensures
        final(registry)@.wf(),
        final(registry)@ == old(registry)@.open_groups(
            owner,
            groups@.map_values(|group: GroupSpec<M>| group@),
        ),
{
    let ghost pre = registry@;
    let ghost given = groups@;
    let ghost specs = groups@.map_values(|group: GroupSpec<M>| group@);
    for group in it: groups
        invariant
            it.seq() == given,
            specs == given.map_values(|group: GroupSpec<M>| group@),
            pre.accepts(Seq::empty(), specs),
            registry@.wf(),
            registry@ == pre.open_groups(owner, specs.take(it.index())),
    {
        let ghost at = it.index();
        proof {
            lemma_open_groups(pre, owner, specs.take(at));
            assert(specs.take(at + 1).drop_last() =~= specs.take(at));
            assert(specs[at] == group@);
        }
        registry.open_group(group.id, group.policy, owner, group.members, group.join);
    }
    assert(specs.take(specs.len() as int) =~= specs);
}

/// Registers `armed` for `owner`.
fn register_waits<M>(registry: &mut WaitRegistry<M>, owner: Handle, armed: Vec<Armed<M>>)
    requires
        old(registry)@.wf(),
        forall|i: int|
            0 <= i < armed@.len() ==> old(registry)@.fits(
                (#[trigger] armed@[i]).token,
                launched(owner, armed@[i]),
            ),
    ensures
        final(registry)@.wf(),
        final(registry)@ == old(registry)@.register_all(owner, armed@),
{
    let ghost pre = registry@;
    let ghost given = armed@;
    for wait in it: armed
        invariant
            it.seq() == given,
            registry@.wf(),
            registry@.groups == pre.groups,
            forall|i: int|
                0 <= i < given.len() ==> pre.fits(
                    (#[trigger] given[i]).token,
                    launched(owner, given[i]),
                ),
            registry@ == pre.register_all(owner, given.take(it.index())),
    {
        let ghost at = it.index();
        assert(given.take(at + 1).drop_last() =~= given.take(at));
        registry.register(wait.token, owner, wait.completion, wait.group);
    }
    assert(given.take(given.len() as int) =~= given);
}

/// Applies `actions` of `owner`.
fn apply_actions<I, M, B: WaitBackend>(
    owner: Handle,
    arena: &mut Arena<I>,
    queue: &mut VecDeque<Envelope<M>>,
    registry: &mut WaitRegistry<M>,
    backend: &mut B,
    actions: Vec<Action<M>>,
)
    requires
        old(arena)@.wf(),
        old(registry)@.wf(),
    ensures
        final(arena)@.wf(),
        final(registry)@.wf(),
        ({
            let pre = (MailState {
                arena: old(arena)@,
                queue: old(queue)@,
                registry: old(registry)@,
                backend: *old(backend),
            });
            let post = (MailState {
                arena: final(arena)@,
                queue: final(queue)@,
                registry: final(registry)@,
                backend: *final(backend),
            });
            pre.may_act(owner, actions@, post)
        }),
{
    let ghost pre = MailState {
        arena: arena@,
        queue: queue@,
        registry: registry@,
        backend: *backend,
    };
    let ghost given = actions@;
    for action in it: actions
        invariant
            it.seq() == given,
            arena@.wf(),
            registry@.wf(),
            pre.may_act(
                owner,
                given.take(it.index()),
                (MailState {
                    arena: arena@,
                    queue: queue@,
                    registry: registry@,
                    backend: *backend,
                }),
            ),
    {
        let ghost at = it.index();
        let ghost now = MailState {
            arena: arena@,
            queue: queue@,
            registry: registry@,
            backend: *backend,
        };
        proof {
            assert(given.take(at + 1).drop_last() =~= given.take(at));
            assert(given.take(at + 1).last() == action);
        }
        match action {
            Action::Send { target, message } => {
                queue.push_back(Envelope { target, message, token: None });
            },
            Action::SendSelf { message } => {
                queue.push_back(
                    Envelope { target: owner, message: RuntimeMessage::User(message), token: None },
                );
            },
            Action::DestroySelf => {
                registry.purge_owner(owner, backend);
                let _ = arena.remove(owner);
            },
            Action::Cancel { token } => {
                registry.cancel_token(token, backend);
            },
        }
        proof {
            let next = MailState {
                arena: arena@,
                queue: queue@,
                registry: registry@,
                backend: *backend,
            };
            assert(now.may_apply(owner, given[at], next));
        }
    }
    assert(given.take(given.len() as int) =~= given);
}

/// Opening groups with distinct numbers opens each of them as asked and leaves the others, and all
/// operations, as they are.
pub proof fn lemma_open_groups<M>(
    registry: RegistryState<M>,
    owner: Handle,
    groups: Seq<GroupSpecState<M>>,
)
    requires
        forall|k: int, l: int|
            0 <= k < l < groups.len() ==> (#[trigger] groups[k]).id != (#[trigger] groups[l]).id,
    ensures
        registry.open_groups(owner, groups).in_flight == registry.in_flight,
        registry.open_groups(owner, groups).ready == registry.ready,
        forall|k: int|
            0 <= k < groups.len() ==> registry.open_groups(owner, groups).groups.contains_key(
                (#[trigger] groups[k]).id,
            ) && registry.open_groups(owner, groups).groups[groups[k].id] == opened(
                owner,
                groups[k],
            ),
        forall|id: u32|
            (forall|k: int| 0 <= k < groups.len() ==> (#[trigger] groups[k]).id != id) ==> (
            #[trigger] registry.open_groups(owner, groups).groups.contains_key(id)
                <==> registry.groups.contains_key(id)) && registry.open_groups(
                owner,
                groups,
            ).groups[id] == registry.groups[id],
    decreases groups.len(),
{
    if groups.len() > 0 {
        let rest = groups.drop_last();
        lemma_open_groups(registry, owner, rest);
        let post = registry.open_groups(owner, groups);
        assert forall|k: int| 0 <= k < groups.len() implies post.groups.contains_key(
            (#[trigger] groups[k]).id,
        ) && post.groups[groups[k].id] == opened(owner, groups[k]) by {
            if k < rest.len() {
                assert(rest[k] == groups[k]);
            }
        }
    }
}

/// Once the groups are open, every wait that the registry accepted fits in.
pub proof fn lemma_accepted_waits_fit<M>(
    registry: RegistryState<M>,
    owner: Handle,
    armed: Seq<Armed<M>>,
    groups: Seq<GroupSpecState<M>>,
)
    requires
        registry.accepts(armed, groups),
    ensures
        forall|i: int|
            0 <= i < armed.len() ==> registry.open_groups(owner, groups).fits(
                (#[trigger] armed[i]).token,
                launched(owner, armed[i]),
            ),
{
    lemma_open_groups(registry, owner, groups);
}

/// What a turn that is applied went through: the backend accepted all its waits, which gives the
/// backend that its actions started from.
pub proof fn lemma_applied_turn<I, M, B: WaitBackend>(
    pre: MailState<I, M, B>,
    owner: Handle,
    queue_capacity: nat,
    actions: Seq<Action<M>>,
    armed: Seq<Armed<M>>,
    groups: Seq<GroupSpecState<M>>,
    post: MailState<I, M, B>,
    outcome: Result<(), RuntimeError>,
) -> (backend: B)
    requires
        pre.may_interpret(owner, queue_capacity, actions, armed, groups, post, outcome),
        outcome is Ok,
    ensures
        pre.queue.len() + sends_in(actions) <= queue_capacity,
        pre.backend.may_answer_can_submit(armed.len() as usize, true),
        destroys_in(actions) <= pre.destructions(owner),
        may_accept_all(pre.backend, armed, backend),
        pre.arm(owner, armed, groups, backend).may_act(owner, actions, post),
{
    choose|backend: B| #[trigger]
        may_accept_all(pre.backend, armed, backend) && pre.arm(
            owner,
            armed,
            groups,
            backend,
        ).may_act(owner, actions, post)
}

/// What a refusal went through: how many waits were accepted, and the backend before and after the
/// one that was refused.
pub proof fn lemma_refusal_parts<M, B: WaitBackend>(
    pre: B,
    waits: Seq<Armed<M>>,
    post: B,
    error: RuntimeError,
) -> (parts: (int, B, B))
    requires
        may_refuse(pre, waits, post, error),
    ensures
        0 <= parts.0 < waits.len(),
        may_accept_all(pre, waits.take(parts.0), parts.1),
        parts.1.may_submit(waits[parts.0].token, waits[parts.0].wait, parts.2, Err(error)),
        super::backend::may_cancel_all(
            parts.2,
            tokens_of(waits.take(parts.0)),
            post,
        ),
{
    choose|count: int, reached: B, refused: B|
        {
            &&& 0 <= count < waits.len()
            &&& #[trigger] may_accept_all(pre, waits.take(count), reached)
            &&& #[trigger] reached.may_submit(
                waits[count].token,
                waits[count].wait,
                refused,
                Err(error),
            )
            &&& super::backend::may_cancel_all(
                refused,
                tokens_of(waits.take(count)),
                post,
            )
        }
}

/// Actions send no more than they ask for, and add nothing to the registry.
pub proof fn lemma_actions_send<I, M, B: WaitBackend>(
    pre: MailState<I, M, B>,
    owner: Handle,
    actions: Seq<Action<M>>,
    post: MailState<I, M, B>,
)
    requires
        pre.may_act(owner, actions, post),
    ensures
        pre.queue.is_prefix_of(post.queue),
        post.queue.len() <= pre.queue.len() + sends_in(actions),
        pre.registry.shrinks_to(post.registry),
    decreases actions.len(),
{
    if actions.len() > 0 {
        let mid = choose|mid: MailState<I, M, B>|
            pre.may_act(owner, actions.drop_last(), mid) && #[trigger] mid.may_apply(
                owner,
                actions.last(),
                post,
            );
        lemma_actions_send(pre, owner, actions.drop_last(), mid);
    }
}

/// Registering waits adds them to the registry and nothing else.
proof fn lemma_registered_minted<M>(
    registry: RegistryState<M>,
    owner: Handle,
    waits: Seq<Armed<M>>,
    next_token: u32,
    next_group: u32,
)
    requires
        registry.minted_before(next_token, next_group),
        forall|i: int|
            0 <= i < waits.len() ==> (#[trigger] waits[i]).token.0 < next_token && (
            waits[i].group matches Some(group) ==> group < next_group),
    ensures
        registry.register_all(owner, waits).minted_before(next_token, next_group),
    decreases waits.len(),
{
    if waits.len() > 0 {
        lemma_registered_minted(registry, owner, waits.drop_last(), next_token, next_group);
    }
}

/// After a turn, all that the registry knows was minted in it or before, and the queue is within
/// its capacity.
pub proof fn lemma_turn_minted<I, M, B: WaitBackend>(
    pre: MailState<I, M, B>,
    owner: Handle,
    queue_capacity: nat,
    base: BuilderState<M>,
    built: BuilderState<M>,
    post: MailState<I, M, B>,
    outcome: Result<(), RuntimeError>,
)
    requires
        pre.registry.minted_before(base.next_token, base.next_group),
        pre.queue.len() <= queue_capacity,
        built.built_since(base),
        pre.may_interpret(
            owner,
            queue_capacity,
            built.actions,
            built.armed,
            built.groups,
            post,
            outcome,
        ),
    ensures
        post.registry.minted_before(built.next_token, built.next_group),
        post.queue.len() <= queue_capacity,
{
    if outcome is Ok {
        let backend = lemma_applied_turn(
            pre,
            owner,
            queue_capacity,
            built.actions,
            built.armed,
            built.groups,
            post,
            outcome,
        );
        lemma_open_groups(pre.registry, owner, built.groups);
        lemma_registered_minted(
            pre.registry.open_groups(owner, built.groups),
            owner,
            built.armed,
            built.next_token,
            built.next_group,
        );
        lemma_actions_send(
            pre.arm(owner, built.armed, built.groups, backend),
            owner,
            built.actions,
            post,
        );
    }
}

} // verus!
