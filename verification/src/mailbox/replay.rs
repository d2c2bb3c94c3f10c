//! Schedulers that are asked the same give the same: what holds of one step holds of whole runs,
//! and of any sequence of calls.

use vstd::prelude::*;

use crate::arena::Handle;

use super::backend::{FakeWaitBackend, WaitBackend, Waiting};
use super::effects::RuntimeMessage;
use super::error::RuntimeError;
use super::scheduler::{Isolate, SchedulerState, StepResult};

verus! {

/// A call on a scheduler.
pub enum Call<I, M> {
    Spawn(I),
    Enqueue(Handle, M),
    RunOnce,
    RunUntilIdle,
}

/// What a call on a scheduler returned.
pub enum Reply {
    Spawned(Result<Handle, RuntimeError>),
    Enqueued(Result<(), RuntimeError>),
    Stepped(Result<StepResult, RuntimeError>),
    Ran(Result<usize, RuntimeError>),
}

/// Two replies that a caller cannot tell apart.
pub open spec fn same_reply(left: Reply, right: Reply) -> bool {
    match (left, right) {
        (Reply::Enqueued(one), Reply::Enqueued(other)) => super::determinism::same_outcome(
            one,
            other,
        ),
        _ => left == right,
    }
}

impl<I: Isolate, B: WaitBackend> SchedulerState<I, I::Message, B> {
    /// A call may end in `post` and return `reply`, where the backend waits as `waits` says.
    pub open spec fn may_answer(
        self,
        waits: Waiting<B>,
        call: Call<I, I::Message>,
        post: Self,
        reply: Reply,
    ) -> bool {
        match (call, reply) {
            (Call::Spawn(isolate), Reply::Spawned(outcome)) => self.spawned(isolate, post, outcome),
            (Call::Enqueue(target, message), Reply::Enqueued(outcome)) => self.enqueued(
                target,
                RuntimeMessage::User(message),
                post,
                outcome,
            ),
            (Call::RunOnce, Reply::Stepped(outcome)) => self.may_step(post, outcome),
            (Call::RunUntilIdle, Reply::Ran(outcome)) => self.may_run(waits, post, outcome),
            _ => false,
        }
    }

    /// `calls`, one after the other, may end in `post` and return `replies`.
    pub open spec fn may_answer_all(
        self,
        waits: Waiting<B>,
        calls: Seq<Call<I, I::Message>>,
        post: Self,
        replies: Seq<Reply>,
    ) -> bool
        decreases calls.len(),
    {
        &&& replies.len() == calls.len()
        &&& if calls.len() == 0 {
            post == self
        } else {
            exists|mid: Self|
                self.may_answer_all(waits, calls.drop_last(), mid, replies.drop_last())
                    && #[trigger] mid.may_answer(waits, calls.last(), post, replies.last())
        }
    }
}

/// Two schedulers in the same state stay so: the same calls return the same, and leave the same
/// isolates under the same handles, the same queue and the same operations. Isolates are to be
/// deterministic, and the backends alike, also in how they wait.
pub proof fn law_schedulers_are_deterministic<I: Isolate, B: WaitBackend>(
    alike: spec_fn(B, B) -> bool,
    waits: Waiting<B>,
    left: SchedulerState<I, I::Message, B>,
    right: SchedulerState<I, I::Message, B>,
    calls: Seq<Call<I, I::Message>>,
    left_post: SchedulerState<I, I::Message, B>,
    right_post: SchedulerState<I, I::Message, B>,
    one: Seq<Reply>,
    other: Seq<Reply>,
)
    requires
        super::determinism::isolates_are_deterministic::<I>(),
        super::determinism::backends_stay_alike(alike),
        super::determinism::cancellations_commute(alike),
        super::determinism::waits_stay_alike(alike, waits),
        super::determinism::schedulers_alike(alike, left, right),
        left.may_answer_all(waits, calls, left_post, one),
        right.may_answer_all(waits, calls, right_post, other),
    ensures
        one.len() == other.len(),
        forall|k: int| 0 <= k < one.len() ==> same_reply(#[trigger] one[k], other[k]),
        super::determinism::schedulers_alike(alike, left_post, right_post),
    decreases calls.len(),
{
    if calls.len() > 0 {
        let left_mid = choose|mid: SchedulerState<I, I::Message, B>|
            left.may_answer_all(waits, calls.drop_last(), mid, one.drop_last())
                && #[trigger] mid.may_answer(waits, calls.last(), left_post, one.last());
        let right_mid = choose|mid: SchedulerState<I, I::Message, B>|
            right.may_answer_all(waits, calls.drop_last(), mid, other.drop_last())
                && #[trigger] mid.may_answer(waits, calls.last(), right_post, other.last());
        law_schedulers_are_deterministic(
            alike,
            waits,
            left,
            right,
            calls.drop_last(),
            left_mid,
            right_mid,
            one.drop_last(),
            other.drop_last(),
        );
        lemma_answers(
            alike,
            waits,
            left_mid,
            right_mid,
            calls.last(),
            left_post,
            right_post,
            one.last(),
            other.last(),
        );
        assert forall|k: int| 0 <= k < one.len() implies same_reply(
            #[trigger] one[k],
            other[k],
        ) by {
            if k < one.len() - 1 {
                assert(same_reply(one.drop_last()[k], other.drop_last()[k]));
            }
        }
    }
}

/// Two schedulers over the in-process backend that were made alike return the same to the same
/// calls, and hold the same afterwards. Of how the backend waits no more is asked than what is stated
/// of all backends.
pub proof fn law_new_schedulers_are_deterministic<I: Isolate>(
    waits: Waiting<FakeWaitBackend>,
    arena_capacity: nat,
    queue_capacity: nat,
    action_capacity: nat,
    left: FakeWaitBackend,
    right: FakeWaitBackend,
    calls: Seq<Call<I, I::Message>>,
    left_post: SchedulerState<I, I::Message, FakeWaitBackend>,
    right_post: SchedulerState<I, I::Message, FakeWaitBackend>,
    one: Seq<Reply>,
    other: Seq<Reply>,
)
    requires
        super::determinism::isolates_are_deterministic::<I>(),
        super::backend::waits_as_stated(waits),
        left@ == right@,
        SchedulerState::<I, I::Message, FakeWaitBackend>::fresh(
            arena_capacity,
            queue_capacity,
            action_capacity,
            left,
        ).may_answer_all(waits, calls, left_post, one),
        SchedulerState::<I, I::Message, FakeWaitBackend>::fresh(
            arena_capacity,
            queue_capacity,
            action_capacity,
            right,
        ).may_answer_all(waits, calls, right_post, other),
    ensures
        one.len() == other.len(),
        forall|k: int| 0 <= k < one.len() ==> same_reply(#[trigger] one[k], other[k]),
        left_post.mail.arena == right_post.mail.arena,
        left_post.mail.queue == right_post.mail.queue,
        left_post.mail.registry == right_post.mail.registry,
        left_post.mail.backend@ == right_post.mail.backend@,
{
    let alike = |first: FakeWaitBackend, second: FakeWaitBackend| first@ == second@;
    super::determinism::law_fake_backends_stay_alike();
    law_schedulers_are_deterministic(
        alike,
        waits,
        SchedulerState::<I, I::Message, FakeWaitBackend>::fresh(
            arena_capacity,
            queue_capacity,
            action_capacity,
            left,
        ),
        SchedulerState::<I, I::Message, FakeWaitBackend>::fresh(
            arena_capacity,
            queue_capacity,
            action_capacity,
            right,
        ),
        calls,
        left_post,
        right_post,
        one,
        other,
    );
}

proof fn lemma_answers<I: Isolate, B: WaitBackend>(
    alike: spec_fn(B, B) -> bool,
    waits: Waiting<B>,
    left: SchedulerState<I, I::Message, B>,
    right: SchedulerState<I, I::Message, B>,
    call: Call<I, I::Message>,
    left_post: SchedulerState<I, I::Message, B>,
    right_post: SchedulerState<I, I::Message, B>,
    one: Reply,
    other: Reply,
)
    requires
        super::determinism::isolates_are_deterministic::<I>(),
        super::determinism::backends_stay_alike(alike),
        super::determinism::cancellations_commute(alike),
        super::determinism::waits_stay_alike(alike, waits),
        super::determinism::schedulers_alike(alike, left, right),
        left.may_answer(waits, call, left_post, one),
        right.may_answer(waits, call, right_post, other),
    ensures
        same_reply(one, other),
        super::determinism::schedulers_alike(alike, left_post, right_post),
{
    match (one, other) {
        (Reply::Stepped(left_outcome), Reply::Stepped(right_outcome)) => {
            super::determinism::law_scheduler_steps_are_deterministic(
                alike,
                left,
                right,
                left_post,
                right_post,
                left_outcome,
                right_outcome,
            );
        },
        (Reply::Ran(left_outcome), Reply::Ran(right_outcome)) => {
            law_scheduler_runs_are_deterministic(
                alike,
                waits,
                left,
                right,
                left_post,
                right_post,
                left_outcome,
                right_outcome,
            );
        },
        _ => {},
    }
}

/// Whatever a scheduler is asked to do, it stays well formed, and the numbers of tokens and groups
/// never go back.
pub proof fn law_calls_keep_the_scheduler_well_formed<I: Isolate, B: WaitBackend>(
    waits: Waiting<B>,
    pre: SchedulerState<I, I::Message, B>,
    calls: Seq<Call<I, I::Message>>,
    post: SchedulerState<I, I::Message, B>,
    replies: Seq<Reply>,
)
    requires
        pre.wf(),
        pre.may_answer_all(waits, calls, post, replies),
    ensures
        pre.goes_on_to(post),
    decreases calls.len(),
{
    if calls.len() > 0 {
        let mid = choose|mid: SchedulerState<I, I::Message, B>|
            pre.may_answer_all(waits, calls.drop_last(), mid, replies.drop_last())
                && #[trigger] mid.may_answer(waits, calls.last(), post, replies.last());
        law_calls_keep_the_scheduler_well_formed(
            waits,
            pre,
            calls.drop_last(),
            mid,
            replies.drop_last(),
        );
        match (calls.last(), replies.last()) {
            (Call::Spawn(isolate), _) => {
                if !mid.mail.arena.full() {
                    crate::arena::lemma_insert_wf(mid.mail.arena, isolate);
                }
            },
            (Call::RunOnce, Reply::Stepped(outcome)) => {
                lemma_step_goes_on(mid, post, outcome);
            },
            (Call::RunUntilIdle, Reply::Ran(outcome)) => {
                lemma_run_goes_on(waits, mid, post, outcome);
            },
            _ => {},
        }
    }
}

impl<I, M, B> SchedulerState<I, M, B> {
    /// `post` is well formed, of the same sizes, and mints numbers from where this one does on.
    pub open spec fn goes_on_to(self, post: Self) -> bool {
        &&& post.wf()
        &&& post.queue_capacity == self.queue_capacity
        &&& post.max_actions == self.max_actions
        &&& post.max_waits == self.max_waits
        &&& self.next_token <= post.next_token
        &&& self.next_group <= post.next_group
    }
}

proof fn lemma_step_goes_on<I: Isolate, B: WaitBackend>(
    pre: SchedulerState<I, I::Message, B>,
    post: SchedulerState<I, I::Message, B>,
    outcome: Result<StepResult, RuntimeError>,
)
    requires
        pre.wf(),
        pre.may_step(post, outcome),
    ensures
        pre.goes_on_to(post),
{
    super::laws::law_steps_keep_the_scheduler_well_formed(pre, post, outcome);
    super::laws::law_tokens_are_minted_once(pre, post, outcome, arbitrary());
}

proof fn lemma_run_goes_on<I: Isolate, B: WaitBackend>(
    waits: Waiting<B>,
    pre: SchedulerState<I, I::Message, B>,
    post: SchedulerState<I, I::Message, B>,
    outcome: Result<usize, RuntimeError>,
)
    requires
        pre.wf(),
        pre.may_run(waits, post, outcome),
    ensures
        pre.goes_on_to(post),
{
    let (states, results) = choose|
        states: Seq<SchedulerState<I, I::Message, B>>,
        results: Seq<StepResult>,
    | #[trigger]
        pre.runs_through(waits, states, results) && states.last().may_end_run(
            waits,
            results,
            post,
            outcome,
        );
    lemma_rounds_go_on(waits, pre, states, results, results.len());
    if results.len() < usize::MAX {
        let (mid, ended, _) = lemma_last_step(waits, states.last(), results, post, outcome);
        lemma_step_goes_on(states.last(), mid, ended);
    }
}

proof fn lemma_rounds_go_on<I: Isolate, B: WaitBackend>(
    waits: Waiting<B>,
    pre: SchedulerState<I, I::Message, B>,
    states: Seq<SchedulerState<I, I::Message, B>>,
    results: Seq<StepResult>,
    count: nat,
)
    requires
        pre.wf(),
        pre.runs_through(waits, states, results),
        count <= results.len(),
    ensures
        pre.goes_on_to(states[count as int]),
    decreases count,
{
    if count > 0 {
        let before = (count - 1) as nat;
        lemma_rounds_go_on(waits, pre, states, results, before);
        let at = before as int;
        let mid = lemma_round_step(waits, states[at], states[at + 1], results[at]);
        lemma_step_goes_on(states[at], mid, Ok(results[at]));
    }
}

/// What is known of how the backend waits carries over to runs: a run in which the backend waits as
/// `waits` says is one in which it waits as `known` says, where that follows.
pub proof fn law_runs_follow_how_the_backend_waits<I: Isolate, B: WaitBackend>(
    waits: Waiting<B>,
    known: Waiting<B>,
    pre: SchedulerState<I, I::Message, B>,
    post: SchedulerState<I, I::Message, B>,
    outcome: Result<usize, RuntimeError>,
)
    requires
        forall|before: B, after: B, waited: Result<bool, RuntimeError>| #[trigger]
            waits(before, after, waited) ==> known(before, after, waited),
        pre.may_run(waits, post, outcome),
    ensures
        pre.may_run(known, post, outcome),
{
    let (states, results) = choose|
        states: Seq<SchedulerState<I, I::Message, B>>,
        results: Seq<StepResult>,
    | #[trigger]
        pre.runs_through(waits, states, results) && states.last().may_end_run(
            waits,
            results,
            post,
            outcome,
        );
    assert(pre.runs_through(known, states, results));
}

/// A run of the scheduler has one outcome: from the same state, with isolates that are
/// deterministic and backends that are alike and wait alike, it returns the same and leaves the same
/// behind.
pub proof fn law_scheduler_runs_are_deterministic<I: Isolate, B: WaitBackend>(
    alike: spec_fn(B, B) -> bool,
    waits: Waiting<B>,
    left: SchedulerState<I, I::Message, B>,
    right: SchedulerState<I, I::Message, B>,
    left_post: SchedulerState<I, I::Message, B>,
    right_post: SchedulerState<I, I::Message, B>,
    one: Result<usize, RuntimeError>,
    other: Result<usize, RuntimeError>,
)
    requires
        super::determinism::isolates_are_deterministic::<I>(),
        super::determinism::backends_stay_alike(alike),
        super::determinism::cancellations_commute(alike),
        super::determinism::waits_stay_alike(alike, waits),
        super::determinism::schedulers_alike(alike, left, right),
        left.may_run(waits, left_post, one),
        right.may_run(waits, right_post, other),
    ensures
        one == other,
        super::determinism::schedulers_alike(alike, left_post, right_post),
{
    let (left_states, left_results) = choose|
        states: Seq<SchedulerState<I, I::Message, B>>,
        results: Seq<StepResult>,
    | #[trigger]
        left.runs_through(waits, states, results) && states.last().may_end_run(
            waits,
            results,
            left_post,
            one,
        );
    let (right_states, right_results) = choose|
        states: Seq<SchedulerState<I, I::Message, B>>,
        results: Seq<StepResult>,
    | #[trigger]
        right.runs_through(waits, states, results) && states.last().may_end_run(
            waits,
            results,
            right_post,
            other,
        );
    let swapped = |first: B, second: B| alike(second, first);
    if left_results.len() <= right_results.len() {
        lemma_rounds(
            alike,
            waits,
            left,
            right,
            left_states,
            right_states,
            left_results,
            right_results,
            left_results.len(),
        );
        if left_results.len() < right_results.len() {
            let at = left_results.len() as int;
            lemma_no_round_after_the_end(
                alike,
                waits,
                left_states.last(),
                right_states[at],
                left_results,
                left_post,
                one,
                right_states[at + 1],
                right_results[at],
            );
        } else {
            assert(left_results =~= right_results);
            lemma_ends(
                alike,
                waits,
                left_states.last(),
                right_states.last(),
                left_results,
                left_post,
                right_post,
                one,
                other,
            );
        }
    } else {
        let at = right_results.len() as int;
        lemma_rounds(
            alike,
            waits,
            left,
            right,
            left_states,
            right_states,
            left_results,
            right_results,
            right_results.len(),
        );
        lemma_no_round_after_the_end(
            swapped,
            waits,
            right_states.last(),
            left_states[at],
            right_results,
            right_post,
            other,
            left_states[at + 1],
            left_results[at],
        );
    }
}

/// Two runs from the same state go through the same rounds.
proof fn lemma_rounds<I: Isolate, B: WaitBackend>(
    alike: spec_fn(B, B) -> bool,
    waits: Waiting<B>,
    left: SchedulerState<I, I::Message, B>,
    right: SchedulerState<I, I::Message, B>,
    left_states: Seq<SchedulerState<I, I::Message, B>>,
    right_states: Seq<SchedulerState<I, I::Message, B>>,
    left_results: Seq<StepResult>,
    right_results: Seq<StepResult>,
    count: nat,
)
    requires
        super::determinism::isolates_are_deterministic::<I>(),
        super::determinism::backends_stay_alike(alike),
        super::determinism::cancellations_commute(alike),
        super::determinism::waits_stay_alike(alike, waits),
        super::determinism::schedulers_alike(alike, left, right),
        left.runs_through(waits, left_states, left_results),
        right.runs_through(waits, right_states, right_results),
        count <= left_results.len(),
        count <= right_results.len(),
    ensures
        super::determinism::schedulers_alike(
            alike,
            left_states[count as int],
            right_states[count as int],
        ),
        forall|k: int| 0 <= k < count ==> (#[trigger] left_results[k]) == right_results[k],
    decreases count,
{
    if count > 0 {
        let before = (count - 1) as nat;
        lemma_rounds(
            alike,
            waits,
            left,
            right,
            left_states,
            right_states,
            left_results,
            right_results,
            before,
        );
        let at = before as int;
        lemma_same_round(
            alike,
            waits,
            left_states[at],
            right_states[at],
            left_states[at + 1],
            right_states[at + 1],
            left_results[at],
            right_results[at],
        );
    }
}

/// Two rounds from the same state give the same, and leave the same behind.
proof fn lemma_same_round<I: Isolate, B: WaitBackend>(
    alike: spec_fn(B, B) -> bool,
    waits: Waiting<B>,
    left: SchedulerState<I, I::Message, B>,
    right: SchedulerState<I, I::Message, B>,
    left_next: SchedulerState<I, I::Message, B>,
    right_next: SchedulerState<I, I::Message, B>,
    one: StepResult,
    other: StepResult,
)
    requires
        super::determinism::isolates_are_deterministic::<I>(),
        super::determinism::backends_stay_alike(alike),
        super::determinism::cancellations_commute(alike),
        super::determinism::waits_stay_alike(alike, waits),
        super::determinism::schedulers_alike(alike, left, right),
        left.may_round(waits, left_next, one),
        right.may_round(waits, right_next, other),
    ensures
        one == other,
        super::determinism::schedulers_alike(alike, left_next, right_next),
{
    let left_mid = lemma_round_step(waits, left, left_next, one);
    let right_mid = lemma_round_step(waits, right, right_next, other);
    super::determinism::law_scheduler_steps_are_deterministic(
        alike,
        left,
        right,
        left_mid,
        right_mid,
        Ok(one),
        Ok(other),
    );
}

/// Where the step of a round led to, before an event was waited for.
proof fn lemma_round_step<I: Isolate, B: WaitBackend>(
    waits: Waiting<B>,
    pre: SchedulerState<I, I::Message, B>,
    next: SchedulerState<I, I::Message, B>,
    result: StepResult,
) -> (mid: SchedulerState<I, I::Message, B>)
    requires
        pre.may_round(waits, next, result),
    ensures
        pre.may_step(mid, Ok(result)),
        if result == StepResult::Blocked {
            mid.may_block(waits, next, Ok(true))
        } else {
            mid == next
        },
{
    if result == StepResult::Blocked {
        choose|mid: SchedulerState<I, I::Message, B>| #[trigger]
            pre.may_step(mid, Ok(result)) && mid.may_block(waits, next, Ok(true))
    } else {
        next
    }
}

/// Where a run may end, no round can follow.
proof fn lemma_no_round_after_the_end<I: Isolate, B: WaitBackend>(
    alike: spec_fn(B, B) -> bool,
    waits: Waiting<B>,
    left: SchedulerState<I, I::Message, B>,
    right: SchedulerState<I, I::Message, B>,
    results: Seq<StepResult>,
    post: SchedulerState<I, I::Message, B>,
    outcome: Result<usize, RuntimeError>,
    next: SchedulerState<I, I::Message, B>,
    result: StepResult,
)
    requires
        super::determinism::isolates_are_deterministic::<I>(),
        super::determinism::backends_stay_alike(alike),
        super::determinism::cancellations_commute(alike),
        super::determinism::waits_stay_alike(alike, waits),
        super::determinism::schedulers_alike(alike, left, right),
        results.len() < usize::MAX,
        left.may_end_run(waits, results, post, outcome),
    ensures
        right.may_round(waits, next, result) ==> result == StepResult::Idle,
{
    if right.may_round(waits, next, result) {
        let right_mid = lemma_round_step(waits, right, next, result);
        let (left_mid, ended, _) = lemma_last_step(waits, left, results, post, outcome);
        super::determinism::law_scheduler_steps_are_deterministic(
            alike,
            left,
            right,
            left_mid,
            right_mid,
            ended,
            Ok(result),
        );
    }
}

/// The last step of a run: where it led to, what it gave, and what waiting for an event gave, where
/// it was blocked.
proof fn lemma_last_step<I: Isolate, B: WaitBackend>(
    waits: Waiting<B>,
    pre: SchedulerState<I, I::Message, B>,
    results: Seq<StepResult>,
    post: SchedulerState<I, I::Message, B>,
    outcome: Result<usize, RuntimeError>,
) -> (parts: (
    SchedulerState<I, I::Message, B>,
    Result<StepResult, RuntimeError>,
    Result<bool, RuntimeError>,
))
    requires
        results.len() < usize::MAX,
        pre.may_end_run(waits, results, post, outcome),
    ensures
        pre.may_step(parts.0, parts.1),
        match parts.1 {
            Ok(result) => if result == StepResult::Blocked {
                &&& parts.0.may_block(waits, post, parts.2)
                &&& match parts.2 {
                    Ok(event) => !event && outcome is Ok,
                    Err(error) => outcome == Err::<usize, _>(error),
                }
            } else {
                result == StepResult::Idle && post == parts.0 && outcome is Ok
            },
            Err(error) => post == parts.0 && outcome == Err::<usize, _>(error),
        },
        outcome matches Ok(processed) ==> processed == super::scheduler::processed_in(results),
{
    match outcome {
        Ok(_) => if pre.may_step(post, Ok(StepResult::Idle)) {
            (post, Ok(StepResult::Idle), Ok(false))
        } else {
            let mid = choose|mid: SchedulerState<I, I::Message, B>| #[trigger]
                pre.may_step(mid, Ok(StepResult::Blocked)) && mid.may_block(waits, post, Ok(false));
            (mid, Ok(StepResult::Blocked), Ok(false))
        },
        Err(error) => if pre.may_step(post, Err(error)) {
            (post, Err(error), Ok(false))
        } else {
            let mid = choose|mid: SchedulerState<I, I::Message, B>| #[trigger]
                pre.may_step(mid, Ok(StepResult::Blocked)) && mid.may_block(waits, post, Err(error));
            (mid, Ok(StepResult::Blocked), Err(error))
        },
    }
}

/// Two runs that went through the same rounds end in the same way.
proof fn lemma_ends<I: Isolate, B: WaitBackend>(
    alike: spec_fn(B, B) -> bool,
    waits: Waiting<B>,
    left: SchedulerState<I, I::Message, B>,
    right: SchedulerState<I, I::Message, B>,
    results: Seq<StepResult>,
    left_post: SchedulerState<I, I::Message, B>,
    right_post: SchedulerState<I, I::Message, B>,
    one: Result<usize, RuntimeError>,
    other: Result<usize, RuntimeError>,
)
    requires
        super::determinism::isolates_are_deterministic::<I>(),
        super::determinism::backends_stay_alike(alike),
        super::determinism::cancellations_commute(alike),
        super::determinism::waits_stay_alike(alike, waits),
        super::determinism::schedulers_alike(alike, left, right),
        results.len() <= usize::MAX,
        left.may_end_run(waits, results, left_post, one),
        right.may_end_run(waits, results, right_post, other),
    ensures
        one == other,
        super::determinism::schedulers_alike(alike, left_post, right_post),
{
    if results.len() < usize::MAX {
        let (left_mid, left_ended, _) = lemma_last_step(waits, left, results, left_post, one);
        let (right_mid, right_ended, _) = lemma_last_step(
            waits,
            right,
            results,
            right_post,
            other,
        );
        super::determinism::law_scheduler_steps_are_deterministic(
            alike,
            left,
            right,
            left_mid,
            right_mid,
            left_ended,
            right_ended,
        );
    }
}

} // verus!
