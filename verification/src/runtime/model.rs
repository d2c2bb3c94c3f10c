//! What the server does, as relations between its state and that of the loop before and after.

use vstd::prelude::*;

use crate::arena::{ArenaError, ArenaState, Handle};
use crate::completion::{CompletionHandle, CompletionsState};
use crate::effects::{Effect, EffectsState, RuntimeMessage};
use crate::io::{FakeIoDriver, IoDriver, IoError, IoResult};

use super::context::{ContextState, Isolate, TurnState};
use super::error::RuntimeError;
use super::io_loop::LoopState;

verus! {

#[derive(Clone, Copy, Debug, PartialEq, Eq, Structural)]
pub struct Envelope {
    pub target: Handle,
    pub message: RuntimeMessage,
}

#[derive(Clone, Copy, Debug, PartialEq, Eq, Structural)]
pub enum StepResult {
    Idle,
    ProcessedOne,
    AdvancedIo,
    DroppedInvalid,
}

/// An isolate, and whether it is on its way out.
pub struct IsolateSlot<I> {
    pub isolate: I,
    pub destroying: bool,
}

/// What routing makes of the ready completions: the messages on their way, the completions still
/// to be routed, and whether any message was added.
#[verifier::ext_equal]
pub struct Routed {
    pub queue: Seq<Envelope>,
    pub ready: Seq<CompletionHandle>,
    pub any: bool,
}

impl Routed {
    /// While the queue has room, each ready completion becomes a message to its owner; one that
    /// has none any more is dropped.
    pub open spec fn route(self, completions: CompletionsState<IoResult>, capacity: nat) -> Self
        decreases self.ready.len(),
    {
        if self.queue.len() >= capacity || self.ready.len() == 0 {
            self
        } else {
            let completion = self.ready[0];
            let rest = self.ready.skip(1);
            if completions.live(completion) {
                Routed {
                    queue: self.queue.push(
                        Envelope {
                            target: completions.owner_of(completion),
                            message: RuntimeMessage::IoCompleted(completion),
                        },
                    ),
                    ready: rest,
                    any: true,
                }.route(completions, capacity)
            } else {
                Routed { ready: rest, ..self }.route(completions, capacity)
            }
        }
    }
}

/// What a [`Server`] holds.
#[verifier::ext_equal]
pub struct ServerState<I> {
    pub arena: ArenaState<IsolateSlot<I>>,
    pub queue: Seq<Envelope>,
    pub queue_capacity: nat,
    pub effects: EffectsState<I>,
    pub destroying: Seq<Handle>,
}

impl<I> ServerState<I> {
    /// The queue is within its capacity, and the list of isolates on their way out names each once
    /// and none that is gone.
    pub open spec fn wf(self) -> bool {
        &&& self.arena.wf()
        &&& self.queue.len() <= self.queue_capacity
        &&& self.destroying.no_duplicates()
        &&& forall|k: int|
            0 <= k < self.destroying.len() ==> self.arena.has(#[trigger] self.destroying[k])
                && self.arena.at(self.destroying[k]).destroying
    }

    /// The server with a message for `target` at the end of the queue.
    pub open spec fn post(self, target: Handle, message: RuntimeMessage) -> Self {
        ServerState { queue: self.queue.push(Envelope { target, message }), ..self }
    }

    /// The server with `isolate` added and its first message at the end of the queue.
    pub open spec fn spawn(self, isolate: I) -> Self
        recommends
            !self.arena.full(),
    {
        ServerState {
            arena: self.arena.insert(IsolateSlot { isolate, destroying: false }),
            ..self
        }.post(self.arena.next_handle(), RuntimeMessage::Init)
    }

    /// The server after `isolate` was added and taken out again, which leaves the slot that it
    /// had in its next generation.
    pub open spec fn spawn_undone(self, isolate: I) -> Self
        recommends
            !self.arena.full(),
    {
        ServerState {
            arena: self.arena.insert(IsolateSlot { isolate, destroying: false }).remove(
                self.arena.next_handle(),
            ),
            ..self
        }
    }

    /// Adding `isolate` from outside ends in `post` with `outcome`: it fails where there is no room
    /// for the isolate, or for its first message.
    pub open spec fn spawned(
        self,
        isolate: I,
        post: Self,
        outcome: Result<Handle, RuntimeError>,
    ) -> bool {
        if self.arena.full() {
            &&& outcome == Err::<Handle, _>(RuntimeError::Arena(ArenaError::Full))
            &&& post == self
        } else if self.queue.len() == self.queue_capacity {
            &&& outcome == Err::<Handle, _>(RuntimeError::QueueFull)
            &&& post == self.spawn_undone(isolate)
        } else {
            &&& outcome == Ok::<_, RuntimeError>(self.arena.next_handle())
            &&& post == self.spawn(isolate)
        }
    }

    /// Queueing `message` for `target` ends in `post` with `outcome`: it fails where the queue is
    /// full.
    pub open spec fn posted(
        self,
        target: Handle,
        message: RuntimeMessage,
        post: Self,
        outcome: Result<(), RuntimeError>,
    ) -> bool {
        if self.queue.len() == self.queue_capacity {
            outcome == Err::<(), _>(RuntimeError::QueueFull) && post == self
        } else {
            outcome is Ok && post == self.post(target, message)
        }
    }

    /// The server after its list of isolates on their way out was swept from `index` on: those
    /// that own no completion leave the list and the arena.
    pub open spec fn sweep(self, completions: CompletionsState<IoResult>, index: int) -> Self
        decreases self.destroying.len() - index,
    {
        if index < 0 || index >= self.destroying.len() {
            self
        } else if completions.has_owner(self.destroying[index]) {
            self.sweep(completions, index + 1)
        } else {
            self.finalize_at(index).sweep(completions, index)
        }
    }

    /// The isolate at `index` of the list of those on their way out is gone; the last of the list
    /// takes its place there.
    pub open spec fn finalize_at(self, index: int) -> Self {
        ServerState {
            arena: self.arena.remove(self.destroying[index]),
            destroying: self.destroying.update(index, self.destroying.last()).drop_last(),
            ..self
        }
    }

    pub open spec fn finalize(self, completions: CompletionsState<IoResult>) -> Self {
        self.sweep(completions, 0)
    }
}

/// A server together with the loop that it works with.
#[verifier::ext_equal]
pub struct Snapshot<I, D> {
    pub server: ServerState<I>,
    pub io: LoopState<D>,
}

/// How many of `effects` submit an operation.
pub open spec fn submits_in<I>(effects: Seq<Effect<I>>) -> nat
    decreases effects.len(),
{
    if effects.len() == 0 {
        0
    } else {
        submits_in(effects.drop_last()) + if effects.last() is Submit {
            1nat
        } else {
            0
        }
    }
}

/// How many of `effects` spawn an isolate.
pub open spec fn spawns_in<I>(effects: Seq<Effect<I>>) -> nat
    decreases effects.len(),
{
    if effects.len() == 0 {
        0
    } else {
        spawns_in(effects.drop_last()) + if effects.last() is Spawn {
            1nat
        } else {
            0
        }
    }
}

/// How many of `results` are turns that an isolate took.
pub open spec fn processed_in(results: Seq<StepResult>) -> nat
    decreases results.len(),
{
    if results.len() == 0 {
        0
    } else {
        processed_in(results.drop_last()) + if results.last() == StepResult::ProcessedOne {
            1nat
        } else {
            0
        }
    }
}

impl<I, D> Snapshot<I, D> {
    pub open spec fn wf(self) -> bool {
        self.server.wf() && self.io.wf()
    }

    /// The isolates on their way out that own no completion are gone.
    pub open spec fn finalize(self) -> Self {
        Snapshot { server: self.server.finalize(self.io.completions), ..self }
    }

    /// What routing the ready completions gives.
    pub open spec fn routed(self) -> Routed {
        Routed { queue: self.server.queue, ready: self.io.ready, any: false }.route(
            self.io.completions,
            self.server.queue_capacity,
        )
    }

    pub open spec fn route(self) -> Self {
        Snapshot {
            server: ServerState { queue: self.routed().queue, ..self.server },
            io: LoopState { ready: self.routed().ready, ..self.io },
        }
    }

    /// The first message of the queue is taken out.
    pub open spec fn pop(self) -> Self {
        Snapshot {
            server: ServerState { queue: self.server.queue.skip(1), ..self.server },
            ..self
        }
    }

    /// `target` is an isolate that still takes messages.
    pub open spec fn takes_messages(self, target: Handle) -> bool {
        self.server.arena.has(target) && !self.server.arena.at(target).destroying
    }

    /// What a turn of `owner` starts from.
    pub open spec fn turn_start(self, owner: Handle) -> TurnState<I> {
        TurnState {
            isolate: self.server.arena.at(owner).isolate,
            io: ContextState { completions: self.io.completions, owner },
            effects: self.server.effects.cleared(),
        }
    }

    /// A turn of `owner` has ended in `end`.
    pub open spec fn turn_end(self, owner: Handle, end: TurnState<I>, destroying: bool) -> Self {
        Snapshot {
            server: ServerState {
                arena: self.server.arena.write(
                    owner,
                    IsolateSlot { isolate: end.isolate, destroying },
                ),
                effects: end.effects,
                ..self.server
            },
            io: LoopState { completions: end.io.completions, ..self.io },
        }
    }

    /// The effects of the last turn have been taken out.
    pub open spec fn without_effects(self) -> Self {
        Snapshot {
            server: ServerState { effects: self.server.effects.cleared(), ..self.server },
            ..self
        }
    }

    /// `owner` is on the list of isolates on their way out.
    pub open spec fn list_destroying(self, owner: Handle) -> Self {
        Snapshot {
            server: ServerState { destroying: self.server.destroying.push(owner), ..self.server },
            ..self
        }
    }
}

impl<I, D: IoDriver> Snapshot<I, D> {
    /// One effect of `owner` may end in `post` and return `outcome`.
    pub open spec fn may_apply(
        self,
        owner: Handle,
        effect: Effect<I>,
        post: Self,
        outcome: Result<(), RuntimeError>,
    ) -> bool {
        match effect {
            Effect::Submit { completion, op } => {
                &&& post.server == self.server
                &&& self.io.may_submit(owner, completion, op, post.io, outcome)
            },
            Effect::Cancel { completion } => {
                &&& post.server == self.server
                &&& self.io.may_cancel(owner, completion, post.io, outcome)
            },
            Effect::Spawn(isolate) => if self.server.arena.full() {
                &&& post == self
                &&& outcome == Err::<(), _>(RuntimeError::Arena(ArenaError::Full))
            } else {
                &&& post == (Snapshot { server: self.server.spawn(isolate), ..self })
                &&& outcome is Ok
            },
            Effect::DestroySelf => post == self && outcome is Ok,
        }
    }

    /// The effects of `owner`, in order and up to the first that fails, may end in `post`; the
    /// outcome says whether the isolate asked to be destroyed.
    pub open spec fn may_apply_all(
        self,
        owner: Handle,
        effects: Seq<Effect<I>>,
        post: Self,
        outcome: Result<bool, RuntimeError>,
    ) -> bool
        decreases effects.len(),
    {
        if effects.len() == 0 {
            post == self && outcome == Ok::<_, RuntimeError>(false)
        } else {
            exists|mid: Self, earlier: Result<bool, RuntimeError>|
                {
                    &&& self.may_apply_all(owner, effects.drop_last(), mid, earlier)
                    &&& #[trigger] mid.may_apply_last(
                        owner,
                        effects.last(),
                        earlier,
                        post,
                        outcome,
                    )
                }
        }
    }

    /// The last of some effects, where those before it gave `earlier`.
    pub open spec fn may_apply_last(
        self,
        owner: Handle,
        effect: Effect<I>,
        earlier: Result<bool, RuntimeError>,
        post: Self,
        outcome: Result<bool, RuntimeError>,
    ) -> bool {
        match earlier {
            Err(_) => post == self && outcome == earlier,
            Ok(destroy) => match outcome {
                Err(error) => self.may_apply(owner, effect, post, Err(error)),
                Ok(now) => {
                    &&& self.may_apply(owner, effect, post, Ok(()))
                    &&& now == (destroy || effect is DestroySelf)
                },
            },
        }
    }

    /// The effects of a turn of `owner` may end in `post`. A turn that asks for more operations,
    /// isolates or messages than there is room for has no effect at all.
    pub open spec fn may_interpret(
        self,
        owner: Handle,
        effects: Seq<Effect<I>>,
        post: Self,
        outcome: Result<bool, RuntimeError>,
    ) -> bool {
        exists|room: bool|
            {
                &&& #[trigger] self.io.driver.may_answer_can_submit(
                    submits_in(effects) as usize,
                    room,
                )
                &&& if !room {
                    post == self && outcome == Err::<bool, _>(RuntimeError::Io(IoError::DriverFull))
                } else if self.server.arena.len + spawns_in(effects)
                    > self.server.arena.capacity() {
                    post == self && outcome == Err::<bool, _>(RuntimeError::Arena(ArenaError::Full))
                } else if self.server.queue.len() + spawns_in(effects)
                    > self.server.queue_capacity {
                    post == self && outcome == Err::<bool, _>(RuntimeError::QueueFull)
                } else {
                    self.may_apply_all(owner, effects, post, outcome)
                }
            }
    }
}

impl<I: Isolate, D: IoDriver> Snapshot<I, D> {
    /// The isolate `owner` may end its turn on `message` in `end` and return `answer`.
    pub open spec fn may_end_turn(
        self,
        owner: Handle,
        message: RuntimeMessage,
        end: TurnState<I>,
        answer: Result<(), RuntimeError>,
    ) -> bool {
        &&& I::may_handle(self.turn_start(owner), message, end, answer)
        &&& self.turn_start(owner).io.turn(end.io)
    }

    /// The isolate `owner` may end its last turn in `end` and return `answer`.
    pub open spec fn may_end_last_turn(
        self,
        owner: Handle,
        end: TurnState<I>,
        answer: Result<(), RuntimeError>,
    ) -> bool {
        &&& I::may_destroy(self.turn_start(owner), end, answer)
        &&& self.turn_start(owner).io.turn(end.io)
    }

    /// The start of the destruction of `owner` may end in `post` and return `outcome`: the isolate
    /// takes its last turn, the effects of that turn are interpreted, and the isolate is listed.
    pub open spec fn may_start_destroy(
        self,
        owner: Handle,
        post: Self,
        outcome: Result<(), RuntimeError>,
    ) -> bool {
        if !self.takes_messages(owner) {
            post == self && outcome is Ok
        } else {
            exists|end: TurnState<I>, answer: Result<(), RuntimeError>|
                {
                    &&& #[trigger] self.may_end_last_turn(owner, end, answer)
                    &&& match answer {
                        Err(_) => post == self.turn_end(owner, end, true) && outcome == answer,
                        Ok(_) => self.turn_end(owner, end, true).may_finish_last_turn(
                            owner,
                            post,
                            outcome,
                        ),
                    }
                }
        }
    }

    /// What follows the last turn of `owner`.
    pub open spec fn may_finish_last_turn(
        self,
        owner: Handle,
        post: Self,
        outcome: Result<(), RuntimeError>,
    ) -> bool {
        exists|mid: Self, answer: Result<bool, RuntimeError>|
            {
                &&& #[trigger] self.without_effects().may_interpret(
                    owner,
                    self.server.effects.effects,
                    mid,
                    answer,
                )
                &&& match answer {
                    Err(error) => post == mid && outcome == Err::<(), _>(error),
                    Ok(_) => post == mid.list_destroying(owner) && outcome is Ok,
                }
            }
    }

    /// A turn of the isolate that `envelope` is addressed to, with all that follows, may end in
    /// `post` and return `outcome`.
    pub open spec fn may_take_turn(
        self,
        envelope: Envelope,
        post: Self,
        outcome: Result<StepResult, RuntimeError>,
    ) -> bool {
        let owner = envelope.target;
        exists|end: TurnState<I>, answer: Result<(), RuntimeError>|
            {
                &&& #[trigger] self.may_end_turn(owner, envelope.message, end, answer)
                &&& match answer {
                    Err(error) => {
                        &&& post == self.turn_end(owner, end, false)
                        &&& outcome == Err::<StepResult, _>(error)
                    },
                    Ok(_) => self.turn_end(owner, end, false).may_finish_turn(owner, post, outcome),
                }
            }
    }

    /// What follows a turn of `owner`: its effects, its destruction if it asked for that, and the
    /// removal of isolates that are done.
    pub open spec fn may_finish_turn(
        self,
        owner: Handle,
        post: Self,
        outcome: Result<StepResult, RuntimeError>,
    ) -> bool {
        exists|mid: Self, answer: Result<bool, RuntimeError>|
            {
                &&& #[trigger] self.without_effects().may_interpret(
                    owner,
                    self.server.effects.effects,
                    mid,
                    answer,
                )
                &&& match answer {
                    Err(error) => post == mid && outcome == Err::<StepResult, _>(error),
                    Ok(false) => {
                        &&& post == mid.finalize()
                        &&& outcome == Ok::<_, RuntimeError>(StepResult::ProcessedOne)
                    },
                    Ok(true) => mid.may_end_destroyed(owner, post, outcome),
                }
            }
    }

    /// What follows a turn in which `owner` asked to be destroyed.
    pub open spec fn may_end_destroyed(
        self,
        owner: Handle,
        post: Self,
        outcome: Result<StepResult, RuntimeError>,
    ) -> bool {
        exists|mid: Self, answer: Result<(), RuntimeError>|
            {
                &&& #[trigger] self.may_start_destroy(owner, mid, answer)
                &&& match answer {
                    Err(error) => post == mid && outcome == Err::<StepResult, _>(error),
                    Ok(_) => {
                        &&& post == mid.finalize()
                        &&& outcome == Ok::<_, RuntimeError>(StepResult::ProcessedOne)
                    },
                }
            }
    }

    /// One step of the server may end in `post` and return `outcome`.
    pub open spec fn may_step(self, post: Self, outcome: Result<StepResult, RuntimeError>) -> bool {
        let swept = self.finalize();
        let ready = swept.route();
        if ready.server.queue.len() == 0 {
            &&& post == ready
            &&& exists|pending: bool| #[trigger]
                ready.io.may_answer_has_pending(pending) && outcome == Ok::<_, RuntimeError>(
                    if swept.routed().any || pending {
                        StepResult::AdvancedIo
                    } else {
                        StepResult::Idle
                    },
                )
        } else {
            let envelope = ready.server.queue[0];
            if !ready.takes_messages(envelope.target) {
                &&& post == ready.pop()
                &&& outcome == Ok::<_, RuntimeError>(StepResult::DroppedInvalid)
            } else {
                ready.pop().may_take_turn(envelope, post, outcome)
            }
        }
    }

    /// A step of the server that gave `result`, and the step of the loop that followed it.
    pub open spec fn may_round(self, next: Self, result: StepResult) -> bool {
        exists|mid: Self, progressed: bool|
            {
                &&& #[trigger] self.may_step(mid, Ok(result))
                &&& #[trigger] mid.io.may_step(next.io, Ok(progressed))
                &&& next.server == mid.server
            }
    }

    /// A run may end in `post` and return `outcome`.
    pub open spec fn may_run(self, post: Self, outcome: Result<usize, RuntimeError>) -> bool {
        exists|states: Seq<Self>, results: Seq<StepResult>| #[trigger]
            self.runs_through(states, results) && states.last().may_end_run(results, post, outcome)
    }

    /// `states` are the states of a run after each round, from this one on, and `results` what
    /// the server's steps gave. No round follows an idle step, and there are no more than can be
    /// counted.
    pub open spec fn runs_through(self, states: Seq<Self>, results: Seq<StepResult>) -> bool {
        &&& states.len() == results.len() + 1
        &&& results.len() <= usize::MAX
        &&& states[0] == self
        &&& forall|k: int|
            0 <= k < results.len() ==> (#[trigger] results[k]) != StepResult::Idle
                && states[k].may_round(states[k + 1], results[k])
    }

    /// How a run ends after rounds that gave `results`: with an idle step, with an error, or, where
    /// there were as many rounds as can be counted, as it is.
    pub open spec fn may_end_run(
        self,
        results: Seq<StepResult>,
        post: Self,
        outcome: Result<usize, RuntimeError>,
    ) -> bool {
        match outcome {
            Ok(processed) => {
                &&& processed == processed_in(results)
                &&& if results.len() == usize::MAX {
                    post == self
                } else {
                    self.may_step(post, Ok(StepResult::Idle))
                }
            },
            Err(error) => {
                &&& results.len() < usize::MAX
                &&& self.may_step(post, Err(error)) || self.may_fail_round(post, error)
            },
        }
    }

    /// A step of the server that had something to do, and a step of the loop that failed.
    pub open spec fn may_fail_round(self, post: Self, error: RuntimeError) -> bool {
        exists|mid: Self, result: StepResult|
            {
                &&& #[trigger] self.may_step(mid, Ok(result))
                &&& result != StepResult::Idle
                &&& mid.io.may_step(post.io, Err(error))
                &&& post.server == mid.server
            }
    }
}

/// Whatever an isolate asks for in a turn, every isolate that was there before is still there and
/// as it was, and the list of those on their way out is the same.
pub proof fn law_effects_keep_every_isolate<I, D: IoDriver>(
    pre: Snapshot<I, D>,
    owner: Handle,
    effects: Seq<Effect<I>>,
    post: Snapshot<I, D>,
    outcome: Result<bool, RuntimeError>,
    isolate: Handle,
)
    requires
        pre.wf(),
        pre.may_interpret(owner, effects, post, outcome),
    ensures
        post.server.arena.wf(),
        post.server.destroying == pre.server.destroying,
        pre.server.arena.has(isolate) ==> post.server.arena.has(isolate) && post.server.arena.at(
            isolate,
        ) == pre.server.arena.at(isolate),
{
    if post != pre {
        lemma_applied_effects_keep_every_isolate(pre, owner, effects, post, outcome, isolate);
    }
}

pub proof fn lemma_applied_effects_keep_every_isolate<I, D: IoDriver>(
    pre: Snapshot<I, D>,
    owner: Handle,
    effects: Seq<Effect<I>>,
    post: Snapshot<I, D>,
    outcome: Result<bool, RuntimeError>,
    isolate: Handle,
)
    requires
        pre.server.arena.wf(),
        pre.may_apply_all(owner, effects, post, outcome),
    ensures
        post.server.arena.wf(),
        post.server.destroying == pre.server.destroying,
        pre.server.arena.has(isolate) ==> post.server.arena.has(isolate) && post.server.arena.at(
            isolate,
        ) == pre.server.arena.at(isolate),
    decreases effects.len(),
{
    if effects.len() > 0 {
        let (mid, earlier) = choose|mid: Snapshot<I, D>, earlier: Result<bool, RuntimeError>|
            {
                &&& pre.may_apply_all(owner, effects.drop_last(), mid, earlier)
                &&& #[trigger] mid.may_apply_last(owner, effects.last(), earlier, post, outcome)
            };
        lemma_applied_effects_keep_every_isolate(
            pre,
            owner,
            effects.drop_last(),
            mid,
            earlier,
            isolate,
        );
        if let Effect::Spawn(child) = effects.last() {
            if !mid.server.arena.full() {
                let slot = IsolateSlot { isolate: child, destroying: false };
                crate::arena::lemma_insert_wf(mid.server.arena, slot);
            }
        }
    }
}

pub proof fn lemma_spawns_in_prefix<I>(effects: Seq<Effect<I>>, count: int)
    requires
        0 <= count <= effects.len(),
    ensures
        spawns_in(effects.take(count)) <= spawns_in(effects),
    decreases effects.len(),
{
    if count == effects.len() {
        assert(effects.take(count) =~= effects);
    } else {
        assert(effects.drop_last().take(count) =~= effects.take(count));
        lemma_spawns_in_prefix(effects.drop_last(), count);
    }
}

/// Once an effect fails, the rest of them change nothing.
pub proof fn lemma_failure_ends_the_effects<I, D: IoDriver>(
    pre: Snapshot<I, D>,
    owner: Handle,
    effects: Seq<Effect<I>>,
    count: int,
    post: Snapshot<I, D>,
    error: RuntimeError,
)
    requires
        0 <= count <= effects.len(),
        pre.may_apply_all(owner, effects.take(count), post, Err(error)),
    ensures
        pre.may_apply_all(owner, effects, post, Err(error)),
    decreases effects.len(),
{
    if count == effects.len() {
        assert(effects.take(count) =~= effects);
    } else {
        assert(effects.drop_last().take(count) =~= effects.take(count));
        lemma_failure_ends_the_effects(pre, owner, effects.drop_last(), count, post, error);
        assert(post.may_apply_last(owner, effects.last(), Err(error), post, Err(error)));
    }
}

pub proof fn lemma_insert_keeps_destroying<I>(state: ServerState<I>, slot: IsolateSlot<I>)
    requires
        state.wf(),
        !state.arena.full(),
    ensures
        (ServerState { arena: state.arena.insert(slot), ..state }).wf(),
{
    crate::arena::lemma_insert_wf(state.arena, slot);
}

pub proof fn lemma_finalize_at_wf<I>(state: ServerState<I>, index: int)
    requires
        state.wf(),
        0 <= index < state.destroying.len(),
    ensures
        state.finalize_at(index).wf(),
{
    let owner = state.destroying[index];
    crate::arena::lemma_remove_wf(state.arena, owner);
}

/// Removing the isolates that are done takes out exactly those on the list that own no completion:
/// an isolate on its way out stays for as long as one of its completions is under way, and no
/// other isolate is touched.
pub proof fn law_isolates_leave_when_they_own_no_completion<I>(
    server: ServerState<I>,
    completions: CompletionsState<IoResult>,
    isolate: Handle,
)
    requires
        server.wf(),
    ensures
        ({
            let post = server.finalize(completions);
            let leaves = server.destroying.contains(isolate) && !completions.has_owner(isolate);
            &&& post.wf()
            &&& post == (ServerState {
                arena: post.arena,
                destroying: post.destroying,
                ..server
            })
            &&& post.destroying.contains(isolate) <==> server.destroying.contains(isolate)
                && !leaves
            &&& leaves ==> !post.arena.has(isolate)
            &&& !leaves ==> post.arena.has(isolate) == server.arena.has(isolate)
            &&& !leaves && server.arena.has(isolate) ==> post.arena.at(isolate)
                == server.arena.at(isolate)
        }),
{
    lemma_sweep(server, completions, 0, isolate);
}

proof fn lemma_sweep<I>(
    server: ServerState<I>,
    completions: CompletionsState<IoResult>,
    index: int,
    isolate: Handle,
)
    requires
        server.wf(),
        0 <= index <= server.destroying.len(),
        forall|k: int|
            0 <= k < index ==> completions.has_owner(#[trigger] server.destroying[k]),
    ensures
        ({
            let post = server.sweep(completions, index);
            let leaves = server.destroying.contains(isolate) && !completions.has_owner(isolate);
            &&& post.wf()
            &&& post == (ServerState {
                arena: post.arena,
                destroying: post.destroying,
                ..server
            })
            &&& post.destroying.contains(isolate) <==> server.destroying.contains(isolate)
                && !leaves
            &&& leaves ==> !post.arena.has(isolate)
            &&& !leaves ==> post.arena.has(isolate) == server.arena.has(isolate)
            &&& !leaves && server.arena.has(isolate) ==> post.arena.at(isolate)
                == server.arena.at(isolate)
        }),
    decreases server.destroying.len() - index,
{
    if index < server.destroying.len() {
        let owner = server.destroying[index];
        if completions.has_owner(owner) {
            lemma_sweep(server, completions, index + 1, isolate);
        } else {
            let next = server.finalize_at(index);
            lemma_finalize_at_wf(server, index);
            lemma_sweep(next, completions, index, isolate);
            lemma_swap_remove_contains(server.destroying, index, isolate);
        }
    }
}

/// Taking out one entry and putting the last in its place leaves every other entry in the list.
proof fn lemma_swap_remove_contains(list: Seq<Handle>, index: int, entry: Handle)
    requires
        list.no_duplicates(),
        0 <= index < list.len(),
    ensures
        list.update(index, list.last()).drop_last().contains(entry) <==> list.contains(entry)
            && entry != list[index],
{
    let shorter = list.update(index, list.last()).drop_last();
    if list.contains(entry) && entry != list[index] {
        let k = choose|k: int| 0 <= k < list.len() && list[k] == entry;
        if k == list.len() - 1 {
            assert(shorter[index] == entry);
        } else {
            assert(shorter[k] == entry);
        }
    }
    if shorter.contains(entry) {
        let k = choose|k: int| 0 <= k < shorter.len() && shorter[k] == entry;
    }
}

/// Routing adds messages at the end of the queue, never beyond its capacity, and each goes to the
/// owner of the ready completion that it names; completions are routed in the order in which they
/// became ready.
pub proof fn law_completions_are_routed_to_their_owners(
    start: Routed,
    completions: CompletionsState<IoResult>,
    capacity: nat,
)
    requires
        start.queue.len() <= capacity,
    ensures
        ({
            let post = start.route(completions, capacity);
            &&& post.queue.len() <= capacity
            &&& start.queue.is_prefix_of(post.queue)
            &&& post.ready.is_suffix_of(start.ready)
            &&& post.queue.len() == capacity || post.ready.len() == 0
            &&& forall|k: int|
                start.queue.len() <= k < post.queue.len() ==> {
                    &&& (#[trigger] post.queue[k]).message matches RuntimeMessage::IoCompleted(
                        completion,
                    ) && {
                        &&& completions.live(completion)
                        &&& completions.owner_of(completion) == post.queue[k].target
                        &&& start.ready.contains(completion)
                    }
                }
        }),
    decreases start.ready.len(),
{
    if start.queue.len() < capacity && start.ready.len() > 0 {
        let completion = start.ready[0];
        let rest = start.ready.skip(1);
        let next = if completions.live(completion) {
            Routed {
                queue: start.queue.push(
                    Envelope {
                        target: completions.owner_of(completion),
                        message: RuntimeMessage::IoCompleted(completion),
                    },
                ),
                ready: rest,
                any: true,
            }
        } else {
            Routed { ready: rest, ..start }
        };
        law_completions_are_routed_to_their_owners(next, completions, capacity);
        let post = start.route(completions, capacity);
        assert forall|k: int| start.queue.len() <= k < post.queue.len() implies {
            &&& (#[trigger] post.queue[k]).message matches RuntimeMessage::IoCompleted(named) && {
                &&& completions.live(named)
                &&& completions.owner_of(named) == post.queue[k].target
                &&& start.ready.contains(named)
            }
        } by {
            if k < next.queue.len() {
                assert(post.queue[k] == next.queue[k]);
            } else {
                let named = post.queue[k].message->IoCompleted_0;
                let at = choose|at: int| 0 <= at < rest.len() && rest[at] == named;
            }
        }
    }
}

/// Over the in-process driver no run ends because a list of completions is too short: where it ends
/// with an error of a driver, it was a step of the server that gave it, in which an isolate failed or
/// asked for what the driver refuses.
pub proof fn law_in_process_runs_never_lack_room<I: Isolate>(
    pre: Snapshot<I, FakeIoDriver>,
    states: Seq<Snapshot<I, FakeIoDriver>>,
    results: Seq<StepResult>,
    post: Snapshot<I, FakeIoDriver>,
    error: IoError,
)
    requires
        pre.runs_through(states, results),
        states.last().may_end_run(results, post, Err(RuntimeError::Io(error))),
    ensures
        states.last().may_step(post, Err(RuntimeError::Io(error))),
{
    let last = states.last();
    if last.may_fail_round(post, RuntimeError::Io(error)) {
        let (mid, _) = choose|mid: Snapshot<I, FakeIoDriver>, result: StepResult|
            {
                &&& #[trigger] last.may_step(mid, Ok(result))
                &&& result != StepResult::Idle
                &&& mid.io.may_step(post.io, Err(RuntimeError::Io(error)))
                &&& post.server == mid.server
            };
        super::io_loop::law_in_process_loop_steps_report_in_full(
            mid.io,
            post.io,
            Err(RuntimeError::Io(error)),
        );
    }
}

/// A turn that lacks room is refused before anything is done, and of the reasons that hold the first
/// is named: no room in the driver, which answers `room`, then none among the isolates, then none in
/// the queue. Server, completions and driver are as they were: nothing was submitted or cancelled.
pub proof fn law_refusals_come_in_order<I, D: IoDriver>(
    pre: Snapshot<I, D>,
    owner: Handle,
    effects: Seq<Effect<I>>,
    room: bool,
    post: Snapshot<I, D>,
    outcome: Result<bool, RuntimeError>,
)
    requires
        forall|answer: bool| #[trigger]
            pre.io.driver.may_answer_can_submit(submits_in(effects) as usize, answer) ==> answer
                == room,
        pre.may_interpret(owner, effects, post, outcome),
    ensures
        refuses_in_order(pre, effects, room, post, outcome),
{
}

/// Over the in-process driver a turn that lacks room is refused before anything is done, and of the
/// reasons that hold the first is named.
pub proof fn law_in_process_refusals_come_in_order<I>(
    pre: Snapshot<I, FakeIoDriver>,
    owner: Handle,
    effects: Seq<Effect<I>>,
    post: Snapshot<I, FakeIoDriver>,
    outcome: Result<bool, RuntimeError>,
)
    requires
        pre.may_interpret(owner, effects, post, outcome),
    ensures
        refuses_in_order(
            pre,
            effects,
            pre.io.driver@.can_submit(submits_in(effects) as usize),
            post,
            outcome,
        ),
{
}

/// A step that gives the turn to an isolate which asks for more than there is room for fails with
/// the first reason that holds, and applies nothing of what was asked: besides what the isolate did
/// to itself and its completions, isolates, messages, completions and driver are as they were.
///
/// `end` is how the isolate ends its turn, and `room` what the driver answers when it is asked for
/// room.
pub proof fn law_step_refuses_a_turn_without_room<I: Isolate, D: IoDriver>(
    pre: Snapshot<I, D>,
    end: TurnState<I>,
    room: bool,
    post: Snapshot<I, D>,
    outcome: Result<StepResult, RuntimeError>,
)
    requires
        pre.may_step(post, outcome),
        ({
            let ready = pre.finalize().route();
            let envelope = ready.server.queue[0];
            &&& ready.server.queue.len() > 0
            &&& ready.takes_messages(envelope.target)
            &&& forall|other: TurnState<I>, answer: Result<(), RuntimeError>| #[trigger]
                ready.pop().may_end_turn(envelope.target, envelope.message, other, answer)
                    ==> other == end && answer is Ok
            &&& forall|answer: bool| #[trigger]
                ready.io.driver.may_answer_can_submit(
                    submits_in(end.effects.effects) as usize,
                    answer,
                ) ==> answer == room
        }),
    ensures
        ({
            let ready = pre.finalize().route();
            let owner = ready.server.queue[0].target;
            let turned = ready.pop().turn_end(owner, end, false).without_effects();
            let spawns = spawns_in(end.effects.effects);
            if !room {
                &&& post == turned
                &&& outcome == Err::<StepResult, _>(RuntimeError::Io(IoError::DriverFull))
            } else if turned.server.arena.len + spawns > turned.server.arena.capacity() {
                &&& post == turned
                &&& outcome == Err::<StepResult, _>(RuntimeError::Arena(ArenaError::Full))
            } else if turned.server.queue.len() + spawns > turned.server.queue_capacity {
                &&& post == turned
                &&& outcome == Err::<StepResult, _>(RuntimeError::QueueFull)
            } else {
                true
            }
        }),
{
    let ready = pre.finalize().route();
    let owner = ready.server.queue[0].target;
    let turned = ready.pop().turn_end(owner, end, false);
    assert(turned.may_finish_turn(owner, post, outcome));
}

/// A turn with `effects` is refused with the first reason that holds, and then changes nothing:
/// the driver has no `room`, the arena has none for the isolates, the queue none for their messages.
pub open spec fn refuses_in_order<I, D>(
    pre: Snapshot<I, D>,
    effects: Seq<Effect<I>>,
    room: bool,
    post: Snapshot<I, D>,
    outcome: Result<bool, RuntimeError>,
) -> bool {
    if !room {
        post == pre && outcome == Err::<bool, _>(RuntimeError::Io(IoError::DriverFull))
    } else if pre.server.arena.len + spawns_in(effects) > pre.server.arena.capacity() {
        post == pre && outcome == Err::<bool, _>(RuntimeError::Arena(ArenaError::Full))
    } else if pre.server.queue.len() + spawns_in(effects) > pre.server.queue_capacity {
        post == pre && outcome == Err::<bool, _>(RuntimeError::QueueFull)
    } else {
        true
    }
}

/// A turn that asks for more isolates or more messages than there is room for changes nothing, and
/// no effect of any turn runs into these limits half way.
pub proof fn law_turn_beyond_capacity_changes_nothing<I, D: IoDriver>(
    pre: Snapshot<I, D>,
    owner: Handle,
    effects: Seq<Effect<I>>,
    post: Snapshot<I, D>,
    outcome: Result<bool, RuntimeError>,
)
    requires
        pre.wf(),
        pre.may_interpret(owner, effects, post, outcome),
        outcome matches Err(error) && (error is QueueFull || error is Arena),
    ensures
        post == pre,
{
    if post != pre {
        lemma_spawns_never_fail(pre, owner, effects, post, outcome);
    }
}

/// Where there is room for all isolates that a turn asks for, no effect fails for want of room.
pub proof fn lemma_spawns_never_fail<I, D: IoDriver>(
    pre: Snapshot<I, D>,
    owner: Handle,
    effects: Seq<Effect<I>>,
    post: Snapshot<I, D>,
    outcome: Result<bool, RuntimeError>,
)
    requires
        pre.server.arena.wf(),
        pre.server.arena.len + spawns_in(effects) <= pre.server.arena.capacity(),
        pre.may_apply_all(owner, effects, post, outcome),
    ensures
        post.server.arena.wf(),
        post.server.arena.capacity() == pre.server.arena.capacity(),
        post.server.arena.len <= pre.server.arena.len + spawns_in(effects),
        outcome matches Err(error) ==> !(error is QueueFull) && !(error is Arena),
    decreases effects.len(),
{
    if effects.len() > 0 {
        let (mid, earlier) = choose|mid: Snapshot<I, D>, earlier: Result<bool, RuntimeError>|
            {
                &&& pre.may_apply_all(owner, effects.drop_last(), mid, earlier)
                &&& #[trigger] mid.may_apply_last(owner, effects.last(), earlier, post, outcome)
            };
        lemma_spawns_never_fail(pre, owner, effects.drop_last(), mid, earlier);
        if let Effect::Spawn(child) = effects.last() {
            if !mid.server.arena.full() {
                crate::arena::lemma_insert_wf(
                    mid.server.arena,
                    IsolateSlot { isolate: child, destroying: false },
                );
            }
        }
    }
}

/// A step leaves every completion as it was that belongs to another isolate than the one that
/// takes a turn.
pub proof fn law_step_leaves_completions_of_others_alone<I: Isolate, D: IoDriver>(
    pre: Snapshot<I, D>,
    post: Snapshot<I, D>,
    outcome: Result<StepResult, RuntimeError>,
    completion: CompletionHandle,
)
    requires
        pre.wf(),
        pre.may_step(post, outcome),
        pre.io.completions.live(completion),
        ({
            let queue = pre.finalize().route().server.queue;
            queue.len() == 0 || queue[0].target != pre.io.completions.owner_of(completion)
        }),
    ensures
        post.io.completions.live(completion),
        post.io.completions.slot(completion) == pre.io.completions.slot(completion),
{
    let ready = pre.finalize().route();
    law_isolates_leave_when_they_own_no_completion(
        pre.server,
        pre.io.completions,
        arbitrary(),
    );
    law_completions_are_routed_to_their_owners(
        Routed { queue: pre.finalize().server.queue, ready: pre.io.ready, any: false },
        pre.io.completions,
        pre.server.queue_capacity,
    );
    if ready.server.queue.len() > 0 && ready.takes_messages(ready.server.queue[0].target) {
        lemma_turn_leaves_other_isolates_alone(
            ready.pop(),
            ready.server.queue[0],
            post,
            outcome,
            arbitrary(),
        );
    }
}

/// A step lets one isolate take a turn and leaves every other isolate as it was, but for those on
/// their way out, which may leave.
pub proof fn law_step_leaves_other_isolates_alone<I: Isolate, D: IoDriver>(
    pre: Snapshot<I, D>,
    post: Snapshot<I, D>,
    outcome: Result<StepResult, RuntimeError>,
    isolate: Handle,
)
    requires
        pre.wf(),
        pre.may_step(post, outcome),
        pre.server.arena.has(isolate),
        !pre.server.destroying.contains(isolate),
        ({
            let queue = pre.finalize().route().server.queue;
            queue.len() == 0 || queue[0].target != isolate
        }),
    ensures
        post.server.arena.has(isolate),
        post.server.arena.at(isolate) == pre.server.arena.at(isolate),
{
    law_isolates_leave_when_they_own_no_completion(pre.server, pre.io.completions, isolate);
    let ready = pre.finalize().route();
    law_completions_are_routed_to_their_owners(
        Routed { queue: pre.finalize().server.queue, ready: pre.io.ready, any: false },
        pre.io.completions,
        pre.server.queue_capacity,
    );
    if ready.server.queue.len() > 0 {
        let envelope = ready.server.queue[0];
        if ready.takes_messages(envelope.target) {
            lemma_turn_leaves_other_isolates_alone(
                ready.pop(),
                envelope,
                post,
                outcome,
                isolate,
            );
        }
    }
}

proof fn lemma_turn_leaves_other_isolates_alone<I: Isolate, D: IoDriver>(
    pre: Snapshot<I, D>,
    envelope: Envelope,
    post: Snapshot<I, D>,
    outcome: Result<StepResult, RuntimeError>,
    isolate: Handle,
)
    requires
        pre.wf(),
        pre.takes_messages(envelope.target),
        pre.may_take_turn(envelope, post, outcome),
    ensures
        pre.io.completions.keeps_others(envelope.target, post.io.completions),
        pre.server.arena.has(isolate) && !pre.server.destroying.contains(isolate) && isolate
            != envelope.target ==> post.server.arena.has(isolate) && post.server.arena.at(isolate)
            == pre.server.arena.at(isolate),
{
    let owner = envelope.target;
    let (end, answer) = choose|end: TurnState<I>, answer: Result<(), RuntimeError>|
        {
            &&& #[trigger] pre.may_end_turn(owner, envelope.message, end, answer)
            &&& match answer {
                Err(error) => {
                    &&& post == pre.turn_end(owner, end, false)
                    &&& outcome == Err::<StepResult, _>(error)
                },
                Ok(_) => pre.turn_end(owner, end, false).may_finish_turn(owner, post, outcome),
            }
        };
    if answer is Ok {
        let turned = pre.turn_end(owner, end, false);
        let (mid, interpreted) = choose|mid: Snapshot<I, D>, interpreted: Result<
            bool,
            RuntimeError,
        >|
            {
                &&& #[trigger] turned.without_effects().may_interpret(
                    owner,
                    turned.server.effects.effects,
                    mid,
                    interpreted,
                )
                &&& match interpreted {
                    Err(error) => post == mid && outcome == Err::<StepResult, _>(error),
                    Ok(false) => {
                        &&& post == mid.finalize()
                        &&& outcome == Ok::<_, RuntimeError>(StepResult::ProcessedOne)
                    },
                    Ok(true) => mid.may_end_destroyed(owner, post, outcome),
                }
            };
        lemma_interpret_wf(
            turned.without_effects(),
            owner,
            turned.server.effects.effects,
            mid,
            interpreted,
        );
        law_effects_keep_every_isolate(
            turned.without_effects(),
            owner,
            turned.server.effects.effects,
            mid,
            interpreted,
            isolate,
        );
        law_effects_keep_every_isolate(
            turned.without_effects(),
            owner,
            turned.server.effects.effects,
            mid,
            interpreted,
            owner,
        );
        if interpreted == Ok::<_, RuntimeError>(false) {
            law_isolates_leave_when_they_own_no_completion(
                mid.server,
                mid.io.completions,
                isolate,
            );
        } else if interpreted == Ok::<_, RuntimeError>(true) {
            lemma_destruction_leaves_other_isolates_alone(mid, owner, post, outcome, isolate);
        }
    }
}

proof fn lemma_destruction_leaves_other_isolates_alone<I: Isolate, D: IoDriver>(
    pre: Snapshot<I, D>,
    owner: Handle,
    post: Snapshot<I, D>,
    outcome: Result<StepResult, RuntimeError>,
    isolate: Handle,
)
    requires
        pre.wf(),
        pre.may_end_destroyed(owner, post, outcome),
    ensures
        pre.io.completions.keeps_others(owner, post.io.completions),
        pre.server.arena.has(isolate) && !pre.server.destroying.contains(isolate) && isolate
            != owner ==> post.server.arena.has(isolate) && post.server.arena.at(isolate)
            == pre.server.arena.at(isolate),
{
    let (gone, answer) = choose|gone: Snapshot<I, D>, answer: Result<(), RuntimeError>|
        {
            &&& #[trigger] pre.may_start_destroy(owner, gone, answer)
            &&& match answer {
                Err(error) => post == gone && outcome == Err::<StepResult, _>(error),
                Ok(_) => {
                    &&& post == gone.finalize()
                    &&& outcome == Ok::<_, RuntimeError>(StepResult::ProcessedOne)
                },
            }
        };
    lemma_start_destroy(pre, owner, gone, answer, isolate);
    if answer is Ok {
        law_isolates_leave_when_they_own_no_completion(gone.server, gone.io.completions, isolate);
    }
}

/// Starting the destruction of one isolate keeps the server well formed and every other isolate as
/// it was.
pub proof fn lemma_start_destroy<I: Isolate, D: IoDriver>(
    pre: Snapshot<I, D>,
    owner: Handle,
    post: Snapshot<I, D>,
    outcome: Result<(), RuntimeError>,
    isolate: Handle,
)
    requires
        pre.wf(),
        pre.may_start_destroy(owner, post, outcome),
    ensures
        post.wf(),
        pre.io.completions.keeps_others(owner, post.io.completions),
        pre.server.arena.has(isolate) && isolate != owner ==> post.server.arena.has(isolate)
            && post.server.arena.at(isolate) == pre.server.arena.at(isolate),
        !pre.server.destroying.contains(isolate) && isolate != owner
            ==> !post.server.destroying.contains(isolate),
{
    if pre.takes_messages(owner) {
        let (end, answer) = choose|end: TurnState<I>, answer: Result<(), RuntimeError>|
            {
                &&& #[trigger] pre.may_end_last_turn(owner, end, answer)
                &&& match answer {
                    Err(_) => post == pre.turn_end(owner, end, true) && outcome == answer,
                    Ok(_) => pre.turn_end(owner, end, true).may_finish_last_turn(
                        owner,
                        post,
                        outcome,
                    ),
                }
            };
        if answer is Ok {
            let turned = pre.turn_end(owner, end, true);
            let effects = turned.server.effects.effects;
            let (mid, interpreted) = choose|mid: Snapshot<I, D>, interpreted: Result<
                bool,
                RuntimeError,
            >|
                {
                    &&& #[trigger] turned.without_effects().may_interpret(
                        owner,
                        effects,
                        mid,
                        interpreted,
                    )
                    &&& match interpreted {
                        Err(error) => post == mid && outcome == Err::<(), _>(error),
                        Ok(_) => post == mid.list_destroying(owner) && outcome is Ok,
                    }
                };
            lemma_interpret_wf(turned.without_effects(), owner, effects, mid, interpreted);
            law_effects_keep_every_isolate(
                turned.without_effects(),
                owner,
                effects,
                mid,
                interpreted,
                isolate,
            );
            law_effects_keep_every_isolate(
                turned.without_effects(),
                owner,
                effects,
                mid,
                interpreted,
                owner,
            );
        }
    }
}

/// Interpreting the effects of a turn keeps the server and the loop well formed.
pub proof fn lemma_interpret_wf<I, D: IoDriver>(
    pre: Snapshot<I, D>,
    owner: Handle,
    effects: Seq<Effect<I>>,
    post: Snapshot<I, D>,
    outcome: Result<bool, RuntimeError>,
)
    requires
        pre.wf(),
        pre.may_interpret(owner, effects, post, outcome),
    ensures
        post.wf(),
        pre.io.completions.keeps_others(owner, post.io.completions),
{
    if post != pre {
        lemma_apply_all_wf(pre, owner, effects, post, outcome);
    }
}

proof fn lemma_apply_all_wf<I, D: IoDriver>(
    pre: Snapshot<I, D>,
    owner: Handle,
    effects: Seq<Effect<I>>,
    post: Snapshot<I, D>,
    outcome: Result<bool, RuntimeError>,
)
    requires
        pre.wf(),
        pre.server.queue.len() + spawns_in(effects) <= pre.server.queue_capacity,
        pre.may_apply_all(owner, effects, post, outcome),
    ensures
        post.wf(),
        pre.io.completions.keeps_others(owner, post.io.completions),
        post.server.queue_capacity == pre.server.queue_capacity,
        post.server.queue.len() <= pre.server.queue.len() + spawns_in(effects),
    decreases effects.len(),
{
    if effects.len() > 0 {
        let (mid, earlier) = choose|mid: Snapshot<I, D>, earlier: Result<bool, RuntimeError>|
            {
                &&& pre.may_apply_all(owner, effects.drop_last(), mid, earlier)
                &&& #[trigger] mid.may_apply_last(owner, effects.last(), earlier, post, outcome)
            };
        lemma_apply_all_wf(pre, owner, effects.drop_last(), mid, earlier);
        match effects.last() {
            Effect::Submit { completion, op } => {},
            Effect::Cancel { completion } => {
                crate::completion::lemma_apply_wf(
                    mid.io.completions,
                    crate::completion::CompletionOp::Release(owner, completion),
                );
            },
            Effect::Spawn(child) => {
                if !mid.server.arena.full() {
                    lemma_insert_keeps_destroying(
                        mid.server,
                        IsolateSlot { isolate: child, destroying: false },
                    );
                }
            },
            Effect::DestroySelf => {},
        }
    }
}

/// A spawn that is refused because the queue is full leaves every isolate as it was.
pub proof fn law_refused_spawn_leaves_every_isolate<I>(
    server: ServerState<I>,
    child: I,
    isolate: Handle,
)
    requires
        server.wf(),
        !server.arena.full(),
    ensures
        server.spawn_undone(child).arena.len == server.arena.len,
        server.spawn_undone(child).arena.has(isolate) == server.arena.has(isolate),
        server.arena.has(isolate) ==> server.spawn_undone(child).arena.at(isolate)
            == server.arena.at(isolate),
{
}

/// A message to an isolate that is on its way out, or gone, is dropped, and no isolate takes a
/// turn.
pub proof fn law_isolates_on_their_way_out_take_no_messages<I: Isolate, D: IoDriver>(
    pre: Snapshot<I, D>,
    post: Snapshot<I, D>,
    outcome: Result<StepResult, RuntimeError>,
)
    requires
        pre.may_step(post, outcome),
        ({
            let ready = pre.finalize().route();
            ready.server.queue.len() > 0 && !ready.takes_messages(ready.server.queue[0].target)
        }),
    ensures
        outcome == Ok::<_, RuntimeError>(StepResult::DroppedInvalid),
        post.server.arena == pre.finalize().server.arena,
        post.io.completions == pre.io.completions,
        post.io.driver == pre.io.driver,
{
}

} // verus!
