//! The server: isolates, the messages on their way to them, and the turns they take.

use std::collections::VecDeque;

use vstd::prelude::*;

use crate::arena::{Arena, ArenaError, ArenaState, Handle, MAX_SLOTS};
use crate::effects::{Effect, EffectsState, RuntimeMessage, TurnEffects};
use crate::io::{IoDriver, IoError};

use super::context::{Isolate, TurnState};
use super::error::RuntimeError;
use super::io_loop::{IoLoop, LoopState};
use super::model::{Envelope, IsolateSlot, Routed, ServerState, Snapshot, StepResult};

verus! {

/// Drives isolates, one message at a time.
pub struct Server<I: Isolate> {
    arena: Arena<IsolateSlot<I>>,
    queue: VecDeque<Envelope>,
    queue_capacity: usize,
    effects: TurnEffects<I>,
    effect_scratch: Vec<Effect<I>>,
    destroying: Vec<Handle>,
}

impl<I: Isolate> View for Server<I> {
    type V = ServerState<I>;

    closed spec fn view(&self) -> ServerState<I> {
        ServerState {
            arena: self.arena@,
            queue: self.queue@,
            queue_capacity: self.queue_capacity as nat,
            effects: self.effects@,
            destroying: self.destroying@,
        }
    }
}

impl<I: Isolate> Server<I> {
    pub fn new(isolate_capacity: usize, queue_capacity: usize, effect_capacity: usize) -> (server:
        Self)
        requires
            isolate_capacity <= MAX_SLOTS,
        ensures
            server@ == (ServerState::<I> {
                arena: ArenaState::vacant(isolate_capacity as nat),
                queue: Seq::empty(),
                queue_capacity: queue_capacity as nat,
                effects: (EffectsState {
                    effects: Seq::empty(),
                    max_effects: effect_capacity as nat,
                }),
                destroying: Seq::empty(),
            }),
            server@.wf(),
    {
        Self {
            arena: Arena::with_capacity(isolate_capacity),
            queue: VecDeque::with_capacity(queue_capacity),
            queue_capacity,
            effects: TurnEffects::with_capacity(effect_capacity),
            effect_scratch: Vec::with_capacity(effect_capacity),
            destroying: Vec::with_capacity(isolate_capacity),
        }
    }

    /// Adds an isolate and queues its first message.
    pub fn spawn(&mut self, isolate: I) -> (result: Result<Handle, RuntimeError>)
        requires
            old(self)@.wf(),
        ensures
            final(self)@.wf(),
            old(self)@.spawned(isolate, final(self)@, result),
    {
        let handle = match self.arena.insert(IsolateSlot { isolate, destroying: false }) {
            Ok(handle) => handle,
            Err(error) => return Err(RuntimeError::from(error)),
        };
        match self.enqueue(handle, RuntimeMessage::Init) {
            Ok(_) => Ok(handle),
            Err(error) => {
                let _ = self.arena.remove(handle);
                Err(error)
            },
        }
    }

    /// Asks the isolate to shut down.
    pub fn shutdown(&mut self, target: Handle) -> (result: Result<(), RuntimeError>)
        requires
            old(self)@.wf(),
        ensures
            final(self)@.wf(),
            old(self)@.posted(target, RuntimeMessage::Shutdown, final(self)@, result),
    {
        self.enqueue(target, RuntimeMessage::Shutdown)
    }

    /// Runs the server and the loop in turn until there is nothing left to do, and says how many
    /// messages were handled. Gives up after as many rounds as a `usize` can count.
    pub fn run_until_idle<D: IoDriver>(&mut self, io: &mut IoLoop<D>) -> (result: Result<
        usize,
        RuntimeError,
    >)
        requires
            old(self)@.wf(),
            old(io)@.wf(),
        ensures
            final(self)@.wf(),
            final(io)@.wf(),
            ({
                let pre = (Snapshot { server: old(self)@, io: old(io)@ });
                let post = (Snapshot { server: final(self)@, io: final(io)@ });
                pre.may_run(post, result)
            }),
    {
        let ghost pre = Snapshot { server: self@, io: io@ };
        let ghost mut states = seq![pre];
        let ghost mut results = Seq::<StepResult>::empty();
        let mut processed: usize = 0;
        let mut rounds: usize = 0;
        while rounds < usize::MAX
            invariant
                pre == (Snapshot { server: old(self)@, io: old(io)@ }),
                self@.wf(),
                io@.wf(),
                rounds == results.len(),
                processed <= rounds,
                processed == super::model::processed_in(results),
                pre.runs_through(states, results),
                states.last() == (Snapshot { server: self@, io: io@ }),
            decreases usize::MAX - rounds,
        {
            let stepped = self.step(io);
            let ghost mid = Snapshot { server: self@, io: io@ };
            let result = match stepped {
                Ok(result) => result,
                Err(error) => {
                    return Err(error);
                },
            };
            match result {
                StepResult::Idle => {
                    return Ok(processed);
                },
                StepResult::ProcessedOne => {
                    processed += 1;
                },
                StepResult::AdvancedIo | StepResult::DroppedInvalid => {},
            }
            match io.step() {
                Ok(progressed) => {
                    proof {
                        let next = Snapshot { server: self@, io: io@ };
                        assert(mid.io.may_step(next.io, Ok(progressed)));
                        let longer = results.push(result);
                        let further = states.push(next);
                        assert(longer.drop_last() =~= results);
                        results = longer;
                        states = further;
                    }
                },
                Err(error) => {
                    return Err(error);
                },
            }
            rounds += 1;
        }
        Ok(processed)
    }

    /// Number of isolates, those on their way out included.
    pub fn isolate_count(&self) -> (count: usize)
        ensures
            count == self@.arena.len,
    {
        self.arena.len()
    }

    fn enqueue(&mut self, target: Handle, message: RuntimeMessage) -> (result: Result<
        (),
        RuntimeError,
    >)
        requires
            old(self)@.wf(),
        ensures
            final(self)@.wf(),
            old(self)@.posted(target, message, final(self)@, result),
    {
        if self.queue.len() == self.queue_capacity {
            return Err(RuntimeError::QueueFull);
        }
        self.queue.push_back(Envelope { target, message });
        Ok(())
    }

    /// Turns ready completions into messages while the queue has room.
    fn route_ready<D: IoDriver>(&mut self, io: &mut IoLoop<D>) -> (result: Result<
        bool,
        RuntimeError,
    >)
        requires
            old(self)@.wf(),
            old(io)@.wf(),
        ensures
            final(self)@.wf(),
            final(io)@.wf(),
            ({
                let routed = (Routed {
                    queue: old(self)@.queue,
                    ready: old(io)@.ready,
                    any: false,
                }).route(old(io)@.completions, old(self)@.queue_capacity);
                &&& result == Ok::<_, RuntimeError>(routed.any)
                &&& final(self)@ == (ServerState { queue: routed.queue, ..old(self)@ })
                &&& final(io)@ == (LoopState { ready: routed.ready, ..old(io)@ })
            }),
    {
        let ghost start = Routed { queue: self@.queue, ready: io@.ready, any: false };
        let mut routed = false;
        while self.queue.len() < self.queue_capacity
            invariant
                start == (Routed { queue: old(self)@.queue, ready: old(io)@.ready, any: false }),
                self@.wf(),
                io@.wf(),
                self@ == (ServerState { queue: self@.queue, ..old(self)@ }),
                io@ == (LoopState { ready: io@.ready, ..old(io)@ }),
                start.route(io@.completions, self@.queue_capacity) == (Routed {
                    queue: self@.queue,
                    ready: io@.ready,
                    any: routed,
                }).route(io@.completions, self@.queue_capacity),
            ensures
                self@.wf(),
                io@.wf(),
                self@ == (ServerState { queue: self@.queue, ..old(self)@ }),
                io@ == (LoopState { ready: io@.ready, ..old(io)@ }),
                start.route(io@.completions, self@.queue_capacity) == (Routed {
                    queue: self@.queue,
                    ready: io@.ready,
                    any: routed,
                }),
            decreases io@.ready.len(),
        {
            match io.pop_ready() {
                None => {
                    break;
                },
                Some(completion) => {
                    match io.owner(completion) {
                        Err(_) => {},
                        Ok(owner) => {
                            self.queue.push_back(
                                Envelope {
                                    target: owner,
                                    message: RuntimeMessage::IoCompleted(completion),
                                },
                            );
                            routed = true;
                        },
                    }
                },
            }
        }
        Ok(routed)
    }

    /// Applies the effects of a turn of `owner`, and says whether it asked to be destroyed.
    fn interpret_effects<D: IoDriver>(&mut self, io: &mut IoLoop<D>, owner: Handle) -> (result:
        Result<bool, RuntimeError>)
        requires
            old(self)@.wf(),
            old(io)@.wf(),
        ensures
            final(self)@.wf(),
            final(io)@.wf(),
            ({
                let pre = (Snapshot { server: old(self)@, io: old(io)@ });
                let post = (Snapshot { server: final(self)@, io: final(io)@ });
                pre.may_interpret(owner, old(self).effect_scratch@, post, result)
            }),
    {
        let ghost pre = Snapshot { server: self@, io: io@ };
        let ghost effects = self.effect_scratch@;
        let (submit_count, spawn_count) = self.count_effects();
        let room = io.can_submit(submit_count);
        assert(pre.io.driver.may_answer_can_submit(super::model::submits_in(effects) as usize, room));
        if !room {
            return Err(RuntimeError::Io(IoError::DriverFull));
        }
        if spawn_count > self.arena.capacity() - self.arena.len() {
            return Err(RuntimeError::Arena(ArenaError::Full));
        }
        if spawn_count > self.queue_capacity - self.queue.len() {
            return Err(RuntimeError::QueueFull);
        }
        self.apply_effects(io, owner)
    }

    /// How many operations and how many isolates the effects of the last turn ask for.
    fn count_effects(&self) -> (counts: (usize, usize))
        ensures
            counts.0 == super::model::submits_in(self.effect_scratch@),
            counts.1 == super::model::spawns_in(self.effect_scratch@),
    {
        let mut submit_count: usize = 0;
        let mut spawn_count: usize = 0;
        let mut next: usize = 0;
        while next < self.effect_scratch.len()
            invariant
                next <= self.effect_scratch@.len(),
                submit_count <= next,
                spawn_count <= next,
                submit_count == super::model::submits_in(self.effect_scratch@.take(next as int)),
                spawn_count == super::model::spawns_in(self.effect_scratch@.take(next as int)),
            decreases self.effect_scratch@.len() - next,
        {
            assert(self.effect_scratch@.take(next + 1).drop_last() =~= self.effect_scratch@.take(
                next as int,
            ));
            match &self.effect_scratch[next] {
                Effect::Submit { .. } => {
                    submit_count += 1;
                },
                Effect::Spawn(_) => {
                    spawn_count += 1;
                },
                Effect::Cancel { .. } => {},
                Effect::DestroySelf => {},
            }
            next += 1;
        }
        assert(self.effect_scratch@.take(next as int) =~= self.effect_scratch@);
        (submit_count, spawn_count)
    }

    /// Applies the effects of a turn of `owner` one after the other, up to the first that fails.
    fn apply_effects<D: IoDriver>(&mut self, io: &mut IoLoop<D>, owner: Handle) -> (result: Result<
        bool,
        RuntimeError,
    >)
        requires
            old(self)@.wf(),
            old(io)@.wf(),
            old(self)@.arena.len + super::model::spawns_in(old(self).effect_scratch@)
                <= old(self)@.arena.capacity(),
            old(self)@.queue.len() + super::model::spawns_in(old(self).effect_scratch@)
                <= old(self)@.queue_capacity,
        ensures
            final(self)@.wf(),
            final(io)@.wf(),
            ({
                let pre = (Snapshot { server: old(self)@, io: old(io)@ });
                let post = (Snapshot { server: final(self)@, io: final(io)@ });
                pre.may_apply_all(owner, old(self).effect_scratch@, post, result)
            }),
    {
        let ghost pre = Snapshot { server: self@, io: io@ };
        let ghost effects = self.effect_scratch@;
        let mut batch: Vec<Effect<I>> = Vec::new();
        std::mem::swap(&mut batch, &mut self.effect_scratch);
        let mut destroy_requested = false;
        for effect in it: batch
            invariant
                pre == (Snapshot { server: old(self)@, io: old(io)@ }),
                effects == old(self).effect_scratch@,
                it.seq() == effects,
                self@.wf(),
                io@.wf(),
                self@.arena.capacity() == pre.server.arena.capacity(),
                self@.queue_capacity == pre.server.queue_capacity,
                self@.arena.len == pre.server.arena.len + super::model::spawns_in(effects.take(it.index())),
                self@.queue.len() == pre.server.queue.len() + super::model::spawns_in(effects.take(it.index())),
                pre.server.arena.len + super::model::spawns_in(effects) <= pre.server.arena.capacity(),
                pre.server.queue.len() + super::model::spawns_in(effects) <= pre.server.queue_capacity,
                pre.may_apply_all(
                    owner,
                    effects.take(it.index()),
                    (Snapshot { server: self@, io: io@ }),
                    Ok(destroy_requested),
                ),
        {
            let ghost index = it.index();
            let ghost now = Snapshot { server: self@, io: io@ };
            let ghost given = effect;
            let ghost destroy = destroy_requested;
            proof {
                assert(effects.take(index + 1).drop_last() =~= effects.take(index));
                super::model::lemma_spawns_in_prefix(effects, index + 1);
            }
            let outcome = match effect {
                Effect::Submit { completion, op } => io.submit(owner, completion, op),
                Effect::Cancel { completion } => io.cancel(owner, completion),
                Effect::Spawn(isolate) => self.apply_spawn(isolate),
                Effect::DestroySelf => {
                    destroy_requested = true;
                    Ok(())
                },
            };
            let ghost after = Snapshot { server: self@, io: io@ };
            match outcome {
                Ok(_) => {
                    proof {
                        assert(now.may_apply_last(
                            owner,
                            given,
                            Ok(destroy),
                            after,
                            Ok(destroy_requested),
                        ));
                    }
                },
                Err(error) => {
                    proof {
                        assert(now.may_apply_last(owner, given, Ok(destroy), after, Err(error)));
                        super::model::lemma_failure_ends_the_effects(
                            pre,
                            owner,
                            effects,
                            index + 1,
                            after,
                            error,
                        );
                    }
                    return Err(error);
                },
            }
        }
        assert(effects.take(effects.len() as int) =~= effects);
        Ok(destroy_requested)
    }

    /// Takes one message out of the queue and lets the isolate that it is addressed to handle it.
    pub fn step<D: IoDriver>(&mut self, io: &mut IoLoop<D>) -> (result: Result<
        StepResult,
        RuntimeError,
    >)
        requires
            old(self)@.wf(),
            old(io)@.wf(),
        ensures
            final(self)@.wf(),
            final(io)@.wf(),
            ({
                let pre = (Snapshot { server: old(self)@, io: old(io)@ });
                let post = (Snapshot { server: final(self)@, io: final(io)@ });
                pre.may_step(post, result)
            }),
    {
        let ghost pre = Snapshot { server: self@, io: io@ };
        match self.finalize_destroyed(io) {
            Ok(_) => {},
            Err(error) => return Err(error),
        }
        let routed = match self.route_ready(io) {
            Ok(routed) => routed,
            Err(error) => return Err(error),
        };
        let ghost ready = Snapshot { server: self@, io: io@ };
        let envelope = match self.queue.pop_front() {
            Some(envelope) => envelope,
            None => {
                let pending = io.has_pending();
                assert(ready.io.may_answer_has_pending(pending));
                return if routed || pending {
                    Ok(StepResult::AdvancedIo)
                } else {
                    Ok(StepResult::Idle)
                };
            },
        };
        match self.arena.get(envelope.target) {
            None => return Ok(StepResult::DroppedInvalid),
            Some(slot) => {
                if slot.destroying {
                    return Ok(StepResult::DroppedInvalid);
                }
            },
        }
        self.take_turn(io, envelope)
    }

    /// The turn of the isolate that `envelope` is addressed to, with all that follows.
    fn take_turn<D: IoDriver>(&mut self, io: &mut IoLoop<D>, envelope: Envelope) -> (result: Result<
        StepResult,
        RuntimeError,
    >)
        requires
            old(self)@.wf(),
            old(io)@.wf(),
            (Snapshot { server: old(self)@, io: old(io)@ }).takes_messages(envelope.target),
        ensures
            final(self)@.wf(),
            final(io)@.wf(),
            ({
                let pre = (Snapshot { server: old(self)@, io: old(io)@ });
                let post = (Snapshot { server: final(self)@, io: final(io)@ });
                pre.may_take_turn(envelope, post, result)
            }),
    {
        let ghost pre = Snapshot { server: self@, io: io@ };
        let owner = envelope.target;
        let answer;
        let ghost end;
        self.effects.reset();
        {
            let mut context = io.lend(owner);
            match self.arena.get_mut(owner) {
                Some(slot) => {
                    answer = slot.isolate.handle(envelope.message, &mut context, &mut self.effects);
                    proof {
                        end = TurnState {
                            isolate: slot.isolate,
                            io: context@,
                            effects: self.effects@,
                        };
                    }
                },
                None => {
                    answer = Ok(());
                    proof {
                        end = arbitrary();
                    }
                },
            }
            io.take_back(context);
        }
        let ghost turned = Snapshot { server: self@, io: io@ };
        proof {
            assert(pre.may_end_turn(owner, envelope.message, end, answer));
        }
        match answer {
            Ok(_) => {},
            Err(error) => return Err(error),
        }
        self.effects.swap_effects(&mut self.effect_scratch);
        assert(Snapshot { server: self@, io: io@ } =~= turned.without_effects());
        let interpreted = self.interpret_effects(io, owner);
        let destroy_requested = match interpreted {
            Ok(destroy_requested) => destroy_requested,
            Err(error) => return Err(error),
        };
        if destroy_requested {
            let started = self.start_destroy(io, owner);
            match started {
                Ok(_) => {},
                Err(error) => return Err(error),
            }
            match self.finalize_destroyed(io) {
                Ok(_) => {},
                Err(error) => return Err(error),
            }
        } else {
            match self.finalize_destroyed(io) {
                Ok(_) => {},
                Err(error) => return Err(error),
            }
        }
        Ok(StepResult::ProcessedOne)
    }

    /// Lets `owner` take its last turn and lists it as being on its way out.
    fn start_destroy<D: IoDriver>(&mut self, io: &mut IoLoop<D>, owner: Handle) -> (result: Result<
        (),
        RuntimeError,
    >)
        requires
            old(self)@.wf(),
            old(io)@.wf(),
        ensures
            final(self)@.wf(),
            final(io)@.wf(),
            ({
                let pre = (Snapshot { server: old(self)@, io: old(io)@ });
                let post = (Snapshot { server: final(self)@, io: final(io)@ });
                pre.may_start_destroy(owner, post, result)
            }),
    {
        let ghost pre = Snapshot { server: self@, io: io@ };
        match self.arena.get(owner) {
            None => return Ok(()),
            Some(slot) => {
                if slot.destroying {
                    return Ok(());
                }
            },
        }
        let answer;
        let ghost end;
        self.effects.reset();
        {
            let mut context = io.lend(owner);
            match self.arena.get_mut(owner) {
                Some(slot) => {
                    slot.destroying = true;
                    answer = slot.isolate.destroy(&mut context, &mut self.effects);
                    proof {
                        end = TurnState {
                            isolate: slot.isolate,
                            io: context@,
                            effects: self.effects@,
                        };
                    }
                },
                None => {
                    answer = Ok(());
                    proof {
                        end = arbitrary();
                    }
                },
            }
            io.take_back(context);
        }
        let ghost turned = Snapshot { server: self@, io: io@ };
        proof {
            assert(pre.may_end_last_turn(owner, end, answer));
        }
        match answer {
            Ok(_) => {},
            Err(error) => return Err(error),
        }
        self.effects.swap_effects(&mut self.effect_scratch);
        assert(Snapshot { server: self@, io: io@ } =~= turned.without_effects());
        let interpreted = self.interpret_effects(io, owner);
        let ghost mid = Snapshot { server: self@, io: io@ };
        match interpreted {
            Ok(_) => {},
            Err(error) => return Err(error),
        }
        proof {
            super::model::law_effects_keep_every_isolate(
                turned.without_effects(),
                owner,
                turned.server.effects.effects,
                mid,
                interpreted,
                owner,
            );
        }
        self.destroying.push(owner);
        Ok(())
    }

    /// Adds an isolate that a turn asked for, and queues its first message.
    fn apply_spawn(&mut self, isolate: I) -> (result: Result<(), RuntimeError>)
        requires
            old(self)@.wf(),
            !old(self)@.arena.full(),
            old(self)@.queue.len() < old(self)@.queue_capacity,
        ensures
            final(self)@.wf(),
            result is Ok,
            final(self)@ == old(self)@.spawn(isolate),
    {
        match self.arena.insert(IsolateSlot { isolate, destroying: false }) {
            Ok(handle) => {
                self.queue.push_back(Envelope { target: handle, message: RuntimeMessage::Init });
                Ok(())
            },
            Err(error) => Err(RuntimeError::from(error)),
        }
    }

    /// Takes out the isolates on their way out that own no completion any more.
    fn finalize_destroyed<D: IoDriver>(&mut self, io: &IoLoop<D>) -> (result: Result<
        (),
        RuntimeError,
    >)
        requires
            old(self)@.wf(),
        ensures
            final(self)@.wf(),
            result is Ok,
            final(self)@ == old(self)@.finalize(io@.completions),
    {
        let ghost pre = self@;
        let mut index: usize = 0;
        while index < self.destroying.len()
            invariant
                self@.wf(),
                index <= self@.destroying.len(),
                pre.sweep(io@.completions, 0) == self@.sweep(io@.completions, index as int),
            decreases self@.destroying.len() - index,
        {
            let owner = self.destroying[index];
            if io.has_owner(owner) {
                index += 1;
                continue;
            }
            if self.arena.contains(owner) {
                match self.arena.remove(owner) {
                    Ok(_) => {},
                    Err(error) => return Err(RuntimeError::from(error)),
                }
            }
            let _ = self.destroying.swap_remove(index);
        }
        Ok(())
    }
}

} // verus!
