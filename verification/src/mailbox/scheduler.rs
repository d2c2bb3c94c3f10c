//! The scheduler: delivers messages to isolates one at a time and applies what they ask for.

use std::collections::VecDeque;

use vstd::prelude::*;

use crate::arena::{Arena, ArenaError, ArenaState, Handle, MAX_SLOTS};

use super::backend::{FakeWaitBackend, WaitBackend, Waiting};
use super::effects::{OpToken, RuntimeMessage};
use super::error::RuntimeError;
use super::interpreter::{EffectInterpreter, MailState};
use super::registry::{Envelope, Pumped, RegistryState, WaitRegistry};
use super::turn::{BuilderState, TurnEffects};

verus! {

/// An actor that handles one message at a time.
///
/// What an isolate makes of a message is its own affair, stated as a relation; one that is not
/// stated allows anything.
pub trait Isolate: Sized {
    type Message;

    /// `handle(message, token, ..)` may turn the isolate into `post` and the builder from `before`
    /// into `after`, and return `outcome`.
    open spec fn may_handle(
        self,
        message: RuntimeMessage<Self::Message>,
        token: Option<OpToken>,
        before: BuilderState<Self::Message>,
        post: Self,
        after: BuilderState<Self::Message>,
        outcome: Result<(), RuntimeError>,
    ) -> bool {
        true
    }

    /// Handles a message. `token` is set where the message reports the completion of a wait.
    ///
    /// The isolate asks for what should happen through the operations of `effects` alone.
    fn handle(
        &mut self,
        msg: RuntimeMessage<Self::Message>,
        token: Option<OpToken>,
        effects: &mut TurnEffects<Self::Message>,
    ) -> (outcome: Result<(), RuntimeError>)
        requires
            old(effects)@.is_clear(),
            old(effects)@.bounded(),
        ensures
            final(effects)@.bounded(),
            final(effects)@.built_since(old(effects)@),
            old(self).may_handle(
                msg,
                token,
                old(effects)@,
                *final(self),
                final(effects)@,
                outcome,
            ),
    ;
}

#[derive(Clone, Copy, Debug, PartialEq, Eq, Structural)]
pub enum StepResult {
    Idle,
    ProcessedOne,
    DroppedInvalid,
    AdvancedWaits,
    /// The queue is empty and a wait is armed, but polling made no progress. An outside event has
    /// to be waited for.
    Blocked,
}

/// What a [`Scheduler`] holds. What the builder of a turn holds is not part of it: a turn starts
/// with a clear one.
#[verifier::ext_equal]
pub struct SchedulerState<I, M, B> {
    pub mail: MailState<I, M, B>,
    pub queue_capacity: nat,
    pub max_actions: nat,
    pub max_waits: nat,
    pub next_token: u32,
    pub next_group: u32,
}

/// How many of `results` say that a message was processed.
pub open spec fn processed_in(results: Seq<StepResult>) -> nat
    decreases results.len(),
{
    if results.len() == 0 {
        0
    } else {
        processed_in(results.drop_last()) + if results.last() == StepResult::ProcessedOne {
            1nat
        } else {
            0
        }
    }
}

impl<I, M, B> SchedulerState<I, M, B> {
    /// A scheduler without isolates, messages or waits.
    pub open spec fn fresh(
        arena_capacity: nat,
        queue_capacity: nat,
        action_capacity: nat,
        backend: B,
    ) -> Self {
        SchedulerState {
            mail: MailState {
                arena: ArenaState::vacant(arena_capacity),
                queue: Seq::empty(),
                registry: RegistryState::empty(),
                backend,
            },
            queue_capacity,
            max_actions: action_capacity,
            max_waits: action_capacity,
            next_token: 0,
            next_group: 0,
        }
    }

    /// The queue is within its capacity, and whatever the registry knows was minted before.
    pub open spec fn wf(self) -> bool {
        &&& self.mail.arena.wf()
        &&& self.mail.registry.wf()
        &&& self.mail.registry.minted_before(self.next_token, self.next_group)
        &&& self.mail.queue.len() <= self.queue_capacity
    }

    pub open spec fn with_mail(self, mail: MailState<I, M, B>) -> Self {
        SchedulerState { mail, ..self }
    }

    /// The builder that the next turn starts with.
    pub open spec fn clear_builder(self) -> BuilderState<M> {
        BuilderState {
            actions: Seq::empty(),
            armed: Seq::empty(),
            groups: Seq::empty(),
            max_actions: self.max_actions,
            max_waits: self.max_waits,
            next_token: self.next_token,
            next_group: self.next_group,
        }
    }

    /// Enqueueing a message may end in `post` with `outcome`: it fails where the queue is full.
    pub open spec fn enqueued(
        self,
        target: Handle,
        message: RuntimeMessage<M>,
        post: Self,
        outcome: Result<(), RuntimeError>,
    ) -> bool {
        if self.mail.queue.len() == self.queue_capacity {
            post == self && outcome == Err::<(), _>(RuntimeError::QueueFull)
        } else {
            &&& outcome is Ok
            &&& post == self.with_mail(
                MailState {
                    queue: self.mail.queue.push(Envelope { target, message, token: None }),
                    ..self.mail
                },
            )
        }
    }

    /// Taking `isolate` in may end in `post` with `outcome`. It fails where the arena is full; where
    /// the queue is full it fails too, and the isolate stays without its first message.
    pub open spec fn spawned(
        self,
        isolate: I,
        post: Self,
        outcome: Result<Handle, RuntimeError>,
    ) -> bool {
        if self.mail.arena.full() {
            post == self && outcome == Err::<Handle, _>(RuntimeError::Arena(ArenaError::Full))
        } else {
            let handle = self.mail.arena.next_handle();
            let taken = self.with_mail(
                MailState { arena: self.mail.arena.insert(isolate), ..self.mail },
            );
            match outcome {
                Ok(returned) => returned == handle && taken.enqueued(
                    handle,
                    RuntimeMessage::Init,
                    post,
                    Ok(()),
                ),
                Err(error) => taken.enqueued(handle, RuntimeMessage::Init, post, Err(error)),
            }
        }
    }

    /// The scheduler without the first message of its queue.
    pub open spec fn pop(self) -> Self {
        self.with_mail(MailState { queue: self.mail.queue.skip(1), ..self.mail })
    }
}

impl<I, M, B: WaitBackend> SchedulerState<I, M, B> {
    /// Delivering ready completions while the queue has room may end in `post`.
    pub open spec fn may_pump(self, post: Self) -> bool {
        let pumped = Pumped::start(self.mail.registry, self.mail.queue).pump(self.queue_capacity);
        &&& post == self.with_mail(
            MailState {
                arena: self.mail.arena,
                queue: pumped.queue,
                registry: pumped.registry,
                backend: post.mail.backend,
            },
        )
        &&& super::backend::may_cancel_all(
            self.mail.backend,
            pumped.cancelled,
            post.mail.backend,
        )
    }

    /// Polling the backend may end in `post` with `outcome`: the tokens that it reports wait to be
    /// delivered, unless it fails.
    pub open spec fn may_poll(self, post: Self, outcome: Result<bool, RuntimeError>) -> bool {
        exists|tokens: Seq<OpToken>| #[trigger]
            self.mail.backend.may_poll(Seq::empty(), post.mail.backend, tokens, outcome)
                && post == self.with_mail(
                MailState {
                    backend: post.mail.backend,
                    registry: if outcome is Ok {
                        RegistryState {
                            ready: self.mail.registry.ready + tokens,
                            ..self.mail.registry
                        }
                    } else {
                        self.mail.registry
                    },
                    ..self.mail
                },
            )
    }

    /// Waiting for an outside event may end in `post` with `outcome`, where `waits` relates a
    /// backend before and after it and what it gave.
    pub open spec fn may_block(
        self,
        waits: Waiting<B>,
        post: Self,
        outcome: Result<bool, RuntimeError>,
    ) -> bool {
        &&& post == self.with_mail(MailState { backend: post.mail.backend, ..self.mail })
        &&& waits(self.mail.backend, post.mail.backend, outcome)
    }
}

impl<I: Isolate, B: WaitBackend> SchedulerState<I, I::Message, B> {
    /// The isolate that `envelope` is for may turn into `isolate`, leave the builder as `built` and
    /// answer `handled`.
    pub open spec fn may_handle(
        self,
        envelope: Envelope<I::Message>,
        isolate: I,
        built: BuilderState<I::Message>,
        handled: Result<(), RuntimeError>,
    ) -> bool {
        &&& self.mail.arena.at(envelope.target).may_handle(
            envelope.message,
            envelope.token,
            self.clear_builder(),
            isolate,
            built,
            handled,
        )
        &&& built.bounded()
        &&& built.built_since(self.clear_builder())
    }

    /// The scheduler with what a turn made of the isolate.
    pub open spec fn turned(self, owner: Handle, isolate: I) -> Self {
        self.with_mail(
            MailState { arena: self.mail.arena.write(owner, isolate), ..self.mail },
        )
    }

    /// The scheduler whose next turn goes on with the numbers of `built`.
    pub open spec fn minted(self, built: BuilderState<I::Message>) -> Self {
        SchedulerState { next_token: built.next_token, next_group: built.next_group, ..self }
    }

    /// A turn of the isolate that `envelope` is for may end in `post` with `outcome`.
    ///
    /// Where the isolate fails, what it asked for is dropped. The numbers that it was given are
    /// used up all the same, so that none is given twice.
    pub open spec fn may_take_turn(
        self,
        envelope: Envelope<I::Message>,
        post: Self,
        outcome: Result<StepResult, RuntimeError>,
    ) -> bool {
        exists|isolate: I, built: BuilderState<I::Message>, handled: Result<(), RuntimeError>|
            #[trigger] self.may_handle(envelope, isolate, built, handled) && match handled {
                Err(error) => {
                    &&& post == self.turned(envelope.target, isolate).minted(built)
                    &&& outcome == Err::<StepResult, _>(error)
                },
                Ok(_) => self.turned(envelope.target, isolate).minted(built).may_apply_turn(
                    envelope.target,
                    built,
                    post,
                    outcome,
                ),
            }
    }

    /// Applying what `owner` asked for in a turn may end in `post` with `outcome`.
    pub open spec fn may_apply_turn(
        self,
        owner: Handle,
        built: BuilderState<I::Message>,
        post: Self,
        outcome: Result<StepResult, RuntimeError>,
    ) -> bool {
        exists|applied: Result<(), RuntimeError>|
            {
                &&& #[trigger] self.mail.may_interpret(
                    owner,
                    self.queue_capacity,
                    built.actions,
                    built.armed,
                    built.groups,
                    post.mail,
                    applied,
                )
                &&& post == self.with_mail(post.mail)
                &&& match applied {
                    Ok(_) => outcome == Ok::<_, RuntimeError>(StepResult::ProcessedOne),
                    Err(error) => outcome == Err::<StepResult, _>(error),
                }
            }
    }

    /// Delivering the first message of the queue may end in `post` with `outcome`. One for an
    /// isolate that is gone is dropped; where there is none, the outcome says what there is to wait
    /// for.
    pub open spec fn may_dispatch(
        self,
        progressed: bool,
        post: Self,
        outcome: Result<StepResult, RuntimeError>,
    ) -> bool {
        if self.mail.queue.len() == 0 {
            &&& post == self
            &&& if progressed {
                outcome == Ok::<_, RuntimeError>(StepResult::AdvancedWaits)
            } else {
                exists|pending: bool| #[trigger]
                    self.mail.backend.may_answer_has_pending(pending) && outcome == Ok::<
                        _,
                        RuntimeError,
                    >(
                        if pending || !self.mail.registry.is_empty() {
                            StepResult::Blocked
                        } else {
                            StepResult::Idle
                        },
                    )
            }
        } else if !self.mail.arena.has(self.mail.queue[0].target) {
            &&& post == self.pop()
            &&& outcome == Ok::<_, RuntimeError>(StepResult::DroppedInvalid)
        } else {
            self.pop().may_take_turn(self.mail.queue[0], post, outcome)
        }
    }

    /// A step may end in `post` with `outcome`: completions that had no room before are delivered,
    /// the backend is polled, what it reports is delivered, and one message is dispatched.
    pub open spec fn may_step(
        self,
        post: Self,
        outcome: Result<StepResult, RuntimeError>,
    ) -> bool {
        exists|delivered: Self, polled: Self, progress: Result<bool, RuntimeError>|
            #[trigger] self.may_pump(delivered) && #[trigger] delivered.may_poll(polled, progress)
                && match progress {
                Err(error) => post == polled && outcome == Err::<StepResult, _>(error),
                Ok(progressed) => exists|ready: Self| #[trigger]
                    polled.may_pump(ready) && ready.may_dispatch(progressed, post, outcome),
            }
    }

    /// A step that gave `result`, and where it was blocked the event that followed.
    pub open spec fn may_round(self, waits: Waiting<B>, next: Self, result: StepResult) -> bool {
        if result == StepResult::Blocked {
            exists|mid: Self| #[trigger]
                self.may_step(mid, Ok(result)) && mid.may_block(waits, next, Ok(true))
        } else {
            self.may_step(next, Ok(result))
        }
    }

    /// A run in which the backend waits as `waits` says may end in `post` and return `outcome`.
    pub open spec fn may_run(
        self,
        waits: Waiting<B>,
        post: Self,
        outcome: Result<usize, RuntimeError>,
    ) -> bool {
        exists|states: Seq<Self>, results: Seq<StepResult>| #[trigger]
            self.runs_through(waits, states, results) && states.last().may_end_run(
                waits,
                results,
                post,
                outcome,
            )
    }

    /// `states` are the states of a run after each round, from this one on, and `results` what the
    /// steps gave. No round follows an idle step, and there are no more than can be counted.
    pub open spec fn runs_through(
        self,
        waits: Waiting<B>,
        states: Seq<Self>,
        results: Seq<StepResult>,
    ) -> bool {
        &&& states.len() == results.len() + 1
        &&& results.len() <= usize::MAX
        &&& states[0] == self
        &&& forall|k: int|
            0 <= k < results.len() ==> (#[trigger] results[k]) != StepResult::Idle
                && states[k].may_round(waits, states[k + 1], results[k])
    }

    /// How a run ends after rounds that gave `results`: with an idle step, with a blocked one that
    /// no event follows, with an error, or, where there were as many rounds as can be counted, as
    /// it is.
    pub open spec fn may_end_run(
        self,
        waits: Waiting<B>,
        results: Seq<StepResult>,
        post: Self,
        outcome: Result<usize, RuntimeError>,
    ) -> bool {
        match outcome {
            Ok(processed) => {
                &&& processed == processed_in(results)
                &&& if results.len() == usize::MAX {
                    post == self
                } else {
                    self.may_step(post, Ok(StepResult::Idle)) || self.may_stall(
                        waits,
                        post,
                        Ok(false),
                    )
                }
            },
            Err(error) => {
                &&& results.len() < usize::MAX
                &&& self.may_step(post, Err(error)) || self.may_stall(waits, post, Err(error))
            },
        }
    }

    /// A blocked step, and what waiting for an event gave.
    pub open spec fn may_stall(
        self,
        waits: Waiting<B>,
        post: Self,
        outcome: Result<bool, RuntimeError>,
    ) -> bool {
        exists|mid: Self| #[trigger]
            self.may_step(mid, Ok(StepResult::Blocked)) && mid.may_block(waits, post, outcome)
    }
}

/// Cooperative scheduler that drives isolates.
///
/// It owns the message queue, the builder of the turn, the wait backend, and the registry that maps
/// a completing token back to the isolate that armed it and to the message for it.
pub struct Scheduler<I: Isolate, B: WaitBackend = FakeWaitBackend> {
    arena: Arena<I>,
    queue: VecDeque<Envelope<I::Message>>,
    queue_capacity: usize,
    effects: TurnEffects<I::Message>,
    registry: WaitRegistry<I::Message>,
    ready_scratch: Vec<OpToken>,
    waits: B,
    next_token: u32,
    next_group: u32,
}

impl<I: Isolate, B: WaitBackend> View for Scheduler<I, B> {
    type V = SchedulerState<I, I::Message, B>;

    closed spec fn view(&self) -> SchedulerState<I, I::Message, B> {
        SchedulerState {
            mail: MailState {
                arena: self.arena@,
                queue: self.queue@,
                registry: self.registry@,
                backend: self.waits,
            },
            queue_capacity: self.queue_capacity as nat,
            max_actions: self.effects@.max_actions,
            max_waits: self.effects@.max_waits,
            next_token: self.next_token,
            next_group: self.next_group,
        }
    }
}

impl<I: Isolate> Scheduler<I, FakeWaitBackend> {
    /// A scheduler whose backend completes every wait by itself.
    pub fn new(arena_capacity: usize, queue_capacity: usize, action_capacity: usize) -> (scheduler:
        Self)
        requires
            arena_capacity <= MAX_SLOTS,
        ensures
            scheduler@.wf(),
            scheduler@.mail.backend@ == (super::backend::FakeBackendState {
                pending: Seq::empty(),
                capacity: queue_capacity as nat,
            }),
            scheduler@ == SchedulerState::<I, I::Message, FakeWaitBackend>::fresh(
                arena_capacity as nat,
                queue_capacity as nat,
                action_capacity as nat,
                scheduler@.mail.backend,
            ),
    {
        Self::new_with_backend(
            arena_capacity,
            queue_capacity,
            action_capacity,
            FakeWaitBackend::new(queue_capacity),
        )
    }
}

impl<I: Isolate, B: WaitBackend> Scheduler<I, B> {
    pub fn new_with_backend(
        arena_capacity: usize,
        queue_capacity: usize,
        action_capacity: usize,
        backend: B,
    ) -> (scheduler: Self)
        requires
            arena_capacity <= MAX_SLOTS,
        ensures
            scheduler@.wf(),
            scheduler@ == SchedulerState::<I, I::Message, B>::fresh(
                arena_capacity as nat,
                queue_capacity as nat,
                action_capacity as nat,
                backend,
            ),
    {
        Self {
            arena: Arena::with_capacity(arena_capacity),
            queue: VecDeque::with_capacity(queue_capacity),
            queue_capacity,
            effects: TurnEffects::with_capacity(action_capacity, action_capacity),
            registry: WaitRegistry::new(),
            ready_scratch: Vec::with_capacity(action_capacity),
            waits: backend,
            next_token: 0,
            next_group: 0,
        }
    }

    /// Takes an isolate in and enqueues its `Init` message. Where the queue is full, the isolate
    /// stays, without the message.
    pub fn spawn(&mut self, isolate: I) -> (result: Result<Handle, RuntimeError>)
        requires
            old(self)@.wf(),
        ensures
            final(self)@.wf(),
            old(self)@.spawned(isolate, final(self)@, result),
    {
        let handle = match self.arena.insert(isolate) {
            Ok(handle) => handle,
            Err(error) => return Err(RuntimeError::from(error)),
        };
        match enqueue_envelope(
            &mut self.queue,
            self.queue_capacity,
            handle,
            RuntimeMessage::Init,
        ) {
            Ok(()) => Ok(handle),
            Err(error) => Err(error),
        }
    }

    /// Enqueues a message for `target`.
    pub fn enqueue(&mut self, target: Handle, message: I::Message) -> (result: Result<
        (),
        RuntimeError,
    >)
        requires
            old(self)@.wf(),
        ensures
            final(self)@.wf(),
            old(self)@.enqueued(target, RuntimeMessage::User(message), final(self)@, result),
    {
        enqueue_envelope(
            &mut self.queue,
            self.queue_capacity,
            target,
            RuntimeMessage::User(message),
        )
    }

    pub fn queue_len(&self) -> (len: usize)
        ensures
            len == self@.mail.queue.len(),
    {
        self.queue.len()
    }

    /// Lends the isolate that `handle` names; what the borrower leaves there is what the scheduler
    /// holds afterwards.
    pub fn isolate_mut(&mut self, handle: Handle) -> (result: Option<&mut I>)
        ensures
            match result {
                Some(isolate) => {
                    &&& old(self)@.mail.arena.has(handle)
                    &&& *isolate == old(self)@.mail.arena.at(handle)
                    &&& final(self)@ == old(self)@.turned(handle, *final(isolate))
                },
                None => !old(self)@.mail.arena.has(handle) && final(self)@ == old(self)@,
            },
    {
        self.arena.get_mut(handle)
    }

    /// Advances the scheduler by one step.
    pub fn run_once(&mut self) -> (result: Result<StepResult, RuntimeError>)
        requires
            old(self)@.wf(),
        ensures
            final(self)@.wf(),
            old(self)@.may_step(final(self)@, result),
    {
        self.deliver_ready();
        let ghost delivered = self@;
        self.ready_scratch.clear();
        let polled = self.waits.poll(&mut self.ready_scratch);
        let progressed = match polled {
            Ok(progressed) => progressed,
            Err(error) => {
                proof {
                    assert(delivered.may_poll(self@, polled));
                }
                return Err(error);
            },
        };
        self.registry.enqueue_ready(&self.ready_scratch);
        let ghost reported = self@;
        assert(delivered.may_poll(reported, polled));
        self.deliver_ready();
        let envelope = match self.queue.pop_front() {
            Some(envelope) => envelope,
            None => {
                if progressed {
                    return Ok(StepResult::AdvancedWaits);
                }
                let pending = self.waits.has_pending();
                if pending || !self.registry.is_empty() {
                    return Ok(StepResult::Blocked);
                }
                return Ok(StepResult::Idle);
            },
        };
        if !self.arena.contains(envelope.target) {
            return Ok(StepResult::DroppedInvalid);
        }
        let result = self.take_turn(envelope);
        result
    }

    /// Delivers ready completions while the queue has room.
    fn deliver_ready(&mut self)
        requires
            old(self)@.wf(),
        ensures
            final(self)@.wf(),
            old(self)@.may_pump(final(self)@),
    {
        let ghost pre = self@;
        proof {
            super::registry::lemma_pump(
                Pumped::start(pre.mail.registry, pre.mail.queue),
                pre.queue_capacity,
            );
        }
        self.registry.pump(&mut self.queue, self.queue_capacity, &mut self.waits);
    }

    /// Lets the isolate that `envelope` is for handle it, and applies what it asks for.
    fn take_turn(&mut self, envelope: Envelope<I::Message>) -> (result: Result<
        StepResult,
        RuntimeError,
    >)
        requires
            old(self)@.wf(),
            old(self)@.mail.arena.has(envelope.target),
        ensures
            final(self)@.wf(),
            old(self)@.may_take_turn(envelope, final(self)@, result),
    {
        let ghost pre = self@;
        let ghost given = envelope;
        let owner = envelope.target;
        let handled;
        let ghost isolate;
        self.effects.reset(self.next_token, self.next_group);
        match self.arena.get_mut(owner) {
            Some(object) => {
                handled = object.handle(envelope.message, envelope.token, &mut self.effects);
                proof {
                    isolate = *object;
                }
            },
            None => {
                handled = Ok(());
                proof {
                    isolate = arbitrary();
                }
            },
        }
        let ghost built = self.effects@;
        proof {
            assert(pre.may_handle(given, isolate, built, handled));
        }
        self.next_token = self.effects.next_token();
        self.next_group = self.effects.next_group();
        let ghost turned = self@;
        if let Err(error) = handled {
            return Err(error);
        }
        let mut actions = Vec::new();
        let mut armed = Vec::new();
        let mut groups = Vec::new();
        self.effects.swap_actions(&mut actions);
        self.effects.swap_armed(&mut armed);
        self.effects.swap_groups(&mut groups);
        let applied = EffectInterpreter::interpret_turn(
            owner,
            &mut self.arena,
            &mut self.queue,
            self.queue_capacity,
            &mut self.registry,
            &mut self.waits,
            actions,
            armed,
            groups,
        );
        proof {
            super::interpreter::lemma_turn_minted(
                turned.mail,
                owner,
                turned.queue_capacity,
                pre.clear_builder(),
                built,
                self@.mail,
                applied,
            );
        }
        match applied {
            Ok(()) => {
                Ok(StepResult::ProcessedOne)
            },
            Err(error) => {
                Err(error)
            },
        }
    }

    /// Runs until the queue is drained and nothing moves any more, and says how many messages were
    /// processed. A run ends after `usize::MAX` rounds at the latest.
    ///
    /// A blocked run calls `block_until_event` of the backend: it goes on where there is an event,
    /// ends where there is none, and fails where that call does.
    pub fn run_until_idle(&mut self) -> (result: Result<usize, RuntimeError>)
        requires
            old(self)@.wf(),
        ensures
            final(self)@.wf(),
            old(self)@.may_run(
                |before: B, after: B, outcome: Result<bool, RuntimeError>|
                    exists|backend: &mut B|
                        *backend == before && *final(backend) == after && #[trigger] call_ensures(
                            B::block_until_event,
                            (backend,),
                            outcome,
                        ),
                final(self)@,
                result,
            ),
    {
        let ghost pre = self@;
        let ghost mut states = seq![pre];
        let ghost mut results = Seq::<StepResult>::empty();
        let mut processed: usize = 0;
        let mut rounds: usize = 0;
        while rounds < usize::MAX
            invariant
                pre == old(self)@,
                self@.wf(),
                rounds == results.len(),
                processed <= rounds,
                processed == processed_in(results),
                pre.runs_through(
                    |before: B, after: B, outcome: Result<bool, RuntimeError>|
                        exists|backend: &mut B|
                            *backend == before && *final(backend) == after && #[trigger] call_ensures(
                                B::block_until_event,
                                (backend,),
                                outcome,
                            ),
                    states,
                    results,
                ),
                states.last() == self@,
            decreases usize::MAX - rounds,
        {
            let stepped = self.run_once();
            let result = match stepped {
                Ok(result) => result,
                Err(error) => {
                    return Err(error);
                },
            };
            match result {
                StepResult::ProcessedOne => {
                    processed += 1;
                },
                StepResult::AdvancedWaits | StepResult::DroppedInvalid => {},
                StepResult::Idle => {
                    return Ok(processed);
                },
                StepResult::Blocked => {
                    let blocked = self.waits.block_until_event();
                    match blocked {
                        Ok(true) => {},
                        Ok(false) => {
                            return Ok(processed);
                        },
                        Err(error) => {
                            return Err(error);
                        },
                    }
                },
            }
            proof {
                let longer = results.push(result);
                let further = states.push(self@);
                assert(longer.drop_last() =~= results);
                results = longer;
                states = further;
            }
            rounds += 1;
        }
        Ok(processed)
    }
}

fn enqueue_envelope<M>(
    queue: &mut VecDeque<Envelope<M>>,
    capacity: usize,
    target: Handle,
    message: RuntimeMessage<M>,
) -> (result: Result<(), RuntimeError>)
    ensures
        if old(queue)@.len() == capacity {
            final(queue)@ == old(queue)@ && result == Err::<(), _>(RuntimeError::QueueFull)
        } else {
            &&& result is Ok
            &&& final(queue)@ == old(queue)@.push((Envelope { target, message, token: None }))
        },
{
    if queue.len() == capacity {
        return Err(RuntimeError::QueueFull);
    }
    queue.push_back(Envelope { target, message, token: None });
    Ok(())
}

} // verus!
