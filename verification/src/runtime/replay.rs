//! Servers that are asked the same give the same: what holds of one step holds of any sequence of
//! calls.

use vstd::prelude::*;

use crate::arena::{ArenaState, Handle};
use crate::completion::CompletionsState;
use crate::effects::{EffectsState, RuntimeMessage};
use crate::io::{FakeIoDriver, IoDriver};

use super::context::Isolate;
use super::error::RuntimeError;
use super::io_loop::LoopState;
use super::model::{ServerState, Snapshot, StepResult};

verus! {

/// A call on a server or on its loop.
pub enum Call<I> {
    Spawn(I),
    Shutdown(Handle),
    Step,
    StepLoop,
    RunUntilIdle,
}

/// What a call returned.
pub enum Reply {
    Spawned(Result<Handle, RuntimeError>),
    ShutDown(Result<(), RuntimeError>),
    Stepped(Result<StepResult, RuntimeError>),
    Looped(Result<bool, RuntimeError>),
    Ran(Result<usize, RuntimeError>),
}

/// Two calls that ask for the same.
pub open spec fn same_call<I>(
    same: spec_fn(I, I) -> bool,
    left: Call<I>,
    right: Call<I>,
) -> bool {
    match (left, right) {
        (Call::Spawn(one), Call::Spawn(other)) => same(one, other),
        (Call::Shutdown(one), Call::Shutdown(other)) => one == other,
        (Call::Step, Call::Step) => true,
        (Call::StepLoop, Call::StepLoop) => true,
        (Call::RunUntilIdle, Call::RunUntilIdle) => true,
        _ => false,
    }
}

/// Two replies that a caller cannot tell apart.
pub open spec fn same_reply(left: Reply, right: Reply) -> bool {
    match (left, right) {
        (Reply::ShutDown(one), Reply::ShutDown(other)) => super::alike::same_outcome(one, other),
        _ => left == right,
    }
}

impl<I, D> Snapshot<I, D> {
    /// A server and a loop as they are made.
    pub open spec fn fresh(
        isolate_capacity: nat,
        queue_capacity: nat,
        effect_capacity: nat,
        driver: D,
        completion_capacity: nat,
    ) -> Self {
        Snapshot {
            server: ServerState {
                arena: ArenaState::vacant(isolate_capacity),
                queue: Seq::empty(),
                queue_capacity,
                effects: EffectsState { effects: Seq::empty(), max_effects: effect_capacity },
                destroying: Seq::empty(),
            },
            io: LoopState {
                driver,
                completions: CompletionsState::vacant(completion_capacity),
                ready: Seq::empty(),
                ready_capacity: completion_capacity,
            },
        }
    }
}

impl<I: Isolate, D: IoDriver> Snapshot<I, D> {
    /// A call may end in `post` and return `reply`.
    pub open spec fn may_answer(self, call: Call<I>, post: Self, reply: Reply) -> bool {
        match (call, reply) {
            (Call::Spawn(isolate), Reply::Spawned(outcome)) => {
                post.io == self.io && self.server.spawned(isolate, post.server, outcome)
            },
            (Call::Shutdown(target), Reply::ShutDown(outcome)) => {
                &&& post.io == self.io
                &&& self.server.posted(target, RuntimeMessage::Shutdown, post.server, outcome)
            },
            (Call::Step, Reply::Stepped(outcome)) => self.may_step(post, outcome),
            (Call::StepLoop, Reply::Looped(outcome)) => {
                post.server == self.server && self.io.may_step(post.io, outcome)
            },
            (Call::RunUntilIdle, Reply::Ran(outcome)) => self.may_run(post, outcome),
            _ => false,
        }
    }

    /// `calls`, one after the other, may end in `post` and return `replies`.
    pub open spec fn may_answer_all(
        self,
        calls: Seq<Call<I>>,
        post: Self,
        replies: Seq<Reply>,
    ) -> bool
        decreases calls.len(),
    {
        &&& replies.len() == calls.len()
        &&& if calls.len() == 0 {
            post == self
        } else {
            exists|mid: Self|
                self.may_answer_all(calls.drop_last(), mid, replies.drop_last())
                    && #[trigger] mid.may_answer(calls.last(), post, replies.last())
        }
    }
}

/// Two servers that are alike stay so: the same calls return the same and leave the same isolates
/// under the same handles, the same messages and the same completions. Isolates are to be
/// deterministic, and the drivers alike.
pub proof fn law_servers_are_deterministic<I: Isolate, D: IoDriver>(
    same: spec_fn(I, I) -> bool,
    alike: spec_fn(D, D) -> bool,
    left: Snapshot<I, D>,
    right: Snapshot<I, D>,
    calls: Seq<Call<I>>,
    others: Seq<Call<I>>,
    left_post: Snapshot<I, D>,
    right_post: Snapshot<I, D>,
    one: Seq<Reply>,
    other: Seq<Reply>,
)
    requires
        super::determinism::isolates_are_deterministic(same),
        super::determinism::drivers_stay_alike(alike),
        super::determinism::driver_steps_stay_alike(alike),
        super::alike::snapshots_alike(same, alike, left, right),
        calls.len() == others.len(),
        forall|k: int| 0 <= k < calls.len() ==> same_call(same, #[trigger] calls[k], others[k]),
        left.may_answer_all(calls, left_post, one),
        right.may_answer_all(others, right_post, other),
    ensures
        one.len() == other.len(),
        forall|k: int| 0 <= k < one.len() ==> same_reply(#[trigger] one[k], other[k]),
        super::alike::snapshots_alike(same, alike, left_post, right_post),
    decreases calls.len(),
{
    if calls.len() > 0 {
        let left_mid = choose|mid: Snapshot<I, D>|
            left.may_answer_all(calls.drop_last(), mid, one.drop_last())
                && #[trigger] mid.may_answer(calls.last(), left_post, one.last());
        let right_mid = choose|mid: Snapshot<I, D>|
            right.may_answer_all(others.drop_last(), mid, other.drop_last())
                && #[trigger] mid.may_answer(others.last(), right_post, other.last());
        law_servers_are_deterministic(
            same,
            alike,
            left,
            right,
            calls.drop_last(),
            others.drop_last(),
            left_mid,
            right_mid,
            one.drop_last(),
            other.drop_last(),
        );
        lemma_answers(
            same,
            alike,
            left_mid,
            right_mid,
            calls.last(),
            others.last(),
            left_post,
            right_post,
            one.last(),
            other.last(),
        );
        assert forall|k: int| 0 <= k < one.len() implies same_reply(
            #[trigger] one[k],
            other[k],
        ) by {
            if k < one.len() - 1 {
                assert(same_reply(one.drop_last()[k], other.drop_last()[k]));
            }
        }
    }
}

/// Two servers that were made alike, over in-process drivers with the same operations pending,
/// return the same to the same calls and hold the same afterwards: equal counts of isolates, the
/// same messages and the same ready completions.
pub proof fn law_new_servers_are_deterministic<I: Isolate>(
    same: spec_fn(I, I) -> bool,
    isolate_capacity: nat,
    queue_capacity: nat,
    effect_capacity: nat,
    left: FakeIoDriver,
    right: FakeIoDriver,
    completion_capacity: nat,
    calls: Seq<Call<I>>,
    others: Seq<Call<I>>,
    left_post: Snapshot<I, FakeIoDriver>,
    right_post: Snapshot<I, FakeIoDriver>,
    one: Seq<Reply>,
    other: Seq<Reply>,
)
    requires
        super::determinism::isolates_are_deterministic(same),
        isolate_capacity <= crate::arena::MAX_SLOTS,
        completion_capacity <= crate::arena::MAX_SLOTS,
        super::determinism::fakes_alike(left@, right@),
        calls.len() == others.len(),
        forall|k: int| 0 <= k < calls.len() ==> same_call(same, #[trigger] calls[k], others[k]),
        Snapshot::<I, FakeIoDriver>::fresh(
            isolate_capacity,
            queue_capacity,
            effect_capacity,
            left,
            completion_capacity,
        ).may_answer_all(calls, left_post, one),
        Snapshot::<I, FakeIoDriver>::fresh(
            isolate_capacity,
            queue_capacity,
            effect_capacity,
            right,
            completion_capacity,
        ).may_answer_all(others, right_post, other),
    ensures
        one.len() == other.len(),
        forall|k: int| 0 <= k < one.len() ==> same_reply(#[trigger] one[k], other[k]),
        super::alike::servers_alike(same, left_post.server, right_post.server),
        super::alike::completions_alike(left_post.io.completions, right_post.io.completions),
        super::determinism::fakes_alike(left_post.io.driver@, right_post.io.driver@),
        left_post.io.ready == right_post.io.ready,
{
    let alike = |first: FakeIoDriver, second: FakeIoDriver|
        super::determinism::fakes_alike(first@, second@);
    super::determinism::law_fake_drivers_stay_alike();
    law_servers_are_deterministic(
        same,
        alike,
        Snapshot::<I, FakeIoDriver>::fresh(
            isolate_capacity,
            queue_capacity,
            effect_capacity,
            left,
            completion_capacity,
        ),
        Snapshot::<I, FakeIoDriver>::fresh(
            isolate_capacity,
            queue_capacity,
            effect_capacity,
            right,
            completion_capacity,
        ),
        calls,
        others,
        left_post,
        right_post,
        one,
        other,
    );
}

proof fn lemma_answers<I: Isolate, D: IoDriver>(
    same: spec_fn(I, I) -> bool,
    alike: spec_fn(D, D) -> bool,
    left: Snapshot<I, D>,
    right: Snapshot<I, D>,
    call: Call<I>,
    next: Call<I>,
    left_post: Snapshot<I, D>,
    right_post: Snapshot<I, D>,
    one: Reply,
    other: Reply,
)
    requires
        super::determinism::isolates_are_deterministic(same),
        super::determinism::drivers_stay_alike(alike),
        super::determinism::driver_steps_stay_alike(alike),
        super::alike::snapshots_alike(same, alike, left, right),
        same_call(same, call, next),
        left.may_answer(call, left_post, one),
        right.may_answer(next, right_post, other),
    ensures
        same_reply(one, other),
        super::alike::snapshots_alike(same, alike, left_post, right_post),
{
    match (one, other) {
        (Reply::Spawned(_), Reply::Spawned(_)) => {
            if !left.server.arena.full() {
                let isolate = call->Spawn_0;
                let another = next->Spawn_0;
                super::alike::lemma_inserted_alike(
                    same,
                    left.server.arena,
                    right.server.arena,
                    isolate,
                    another,
                );
                super::alike::lemma_removed_alike(
                    same,
                    left.server.spawn(isolate).arena,
                    right.server.spawn(another).arena,
                    left.server.arena.next_handle(),
                );
            }
        },
        (Reply::Stepped(left_outcome), Reply::Stepped(right_outcome)) => {
            super::determinism::law_server_steps_are_deterministic(
                same,
                alike,
                left,
                right,
                left_post,
                right_post,
                left_outcome,
                right_outcome,
            );
        },
        (Reply::Looped(left_outcome), Reply::Looped(right_outcome)) => {
            super::determinism::law_loop_steps_are_deterministic(
                alike,
                left.io,
                right.io,
                left_post.io,
                right_post.io,
                left_outcome,
                right_outcome,
            );
        },
        (Reply::Ran(left_outcome), Reply::Ran(right_outcome)) => {
            super::determinism::law_server_runs_are_deterministic(
                same,
                alike,
                left,
                right,
                left_post,
                right_post,
                left_outcome,
                right_outcome,
            );
        },
        _ => {},
    }
}

} // verus!
