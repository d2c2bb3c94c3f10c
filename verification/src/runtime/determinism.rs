//! The server is deterministic: where isolates and driver are, a step has one outcome, and so has a
//! whole run.

use vstd::prelude::*;

use crate::arena::Handle;
use crate::completion::{CompletionHandle, CompletionState};
use crate::effects::{Effect, RuntimeMessage};
use crate::io::{
    DriverCompletion, FakeDriverState, FakeIoDriver, IoDriver, IoError, IoResult, Operation,
};

use super::context::{Isolate, TurnState};
use super::error::RuntimeError;
use super::io_loop::LoopState;
use super::model::{Envelope, Snapshot, StepResult};

verus! {

/// What a turn of an isolate gives depends on what it starts from alone, where `same` says which
/// isolates are the same: turns that start alike end alike.
pub open spec fn isolates_are_deterministic<I: Isolate>(same: spec_fn(I, I) -> bool) -> bool {
    &&& forall|
        left: TurnState<I>,
        right: TurnState<I>,
        msg: RuntimeMessage,
        left_end: TurnState<I>,
        right_end: TurnState<I>,
        one: Result<(), RuntimeError>,
        other: Result<(), RuntimeError>,
    |
        super::alike::turns_alike(same, left, right) && #[trigger] I::may_handle(
            left,
            msg,
            left_end,
            one,
        ) && #[trigger] I::may_handle(right, msg, right_end, other) ==> super::alike::turns_alike(
            same,
            left_end,
            right_end,
        ) && super::alike::same_outcome(one, other)
    &&& forall|
        left: TurnState<I>,
        right: TurnState<I>,
        left_end: TurnState<I>,
        right_end: TurnState<I>,
        one: Result<(), RuntimeError>,
        other: Result<(), RuntimeError>,
    |
        super::alike::turns_alike(same, left, right) && #[trigger] I::may_destroy(
            left,
            left_end,
            one,
        ) && #[trigger] I::may_destroy(right, right_end, other) ==> super::alike::turns_alike(
            same,
            left_end,
            right_end,
        ) && super::alike::same_outcome(one, other)
}

/// Drivers that are alike answer alike and stay alike.
pub open spec fn drivers_stay_alike<D: IoDriver>(alike: spec_fn(D, D) -> bool) -> bool {
    &&& forall|left: D, right: D, additional: usize, one: bool, other: bool|
        alike(left, right) && #[trigger] left.may_answer_can_submit(additional, one)
            && #[trigger] right.may_answer_can_submit(additional, other) ==> one == other
    &&& forall|left: D, right: D, one: bool, other: bool|
        alike(left, right) && #[trigger] left.may_answer_has_pending(one)
            && #[trigger] right.may_answer_has_pending(other) ==> one == other
    &&& forall|
        left: D,
        right: D,
        completion: CompletionHandle,
        op: Operation,
        next: Operation,
        left_post: D,
        right_post: D,
        one: Result<(), IoError>,
        other: Result<(), IoError>,
    |
        alike(left, right) && super::alike::operations_alike(op, next)
            && #[trigger] left.may_submit(completion, op, left_post, one)
            && #[trigger] right.may_submit(completion, next, right_post, other) ==> alike(
            left_post,
            right_post,
        ) && super::alike::same_outcome(one, other)
    &&& forall|
        left: D,
        right: D,
        completion: CompletionHandle,
        left_post: D,
        right_post: D,
        one: Result<(), IoError>,
        other: Result<(), IoError>,
    |
        alike(left, right) && #[trigger] left.may_cancel(completion, left_post, one)
            && #[trigger] right.may_cancel(completion, right_post, other) ==> alike(
            left_post,
            right_post,
        ) && super::alike::same_outcome(one, other)
}

/// Drivers that are alike report the same in a step and stay alike, given empty lists with room for
/// as many completions as they are asked for.
pub open spec fn driver_steps_stay_alike<D: IoDriver>(alike: spec_fn(D, D) -> bool) -> bool {
    forall|
        left: D,
        right: D,
        max_completions: usize,
        list: Vec<DriverCompletion>,
        next: Vec<DriverCompletion>,
        left_post: D,
        right_post: D,
        left_batch: Seq<DriverCompletion>,
        right_batch: Seq<DriverCompletion>,
        one: Result<bool, IoError>,
        other: Result<bool, IoError>,
    |
        alike(left, right) && list@.len() == 0 && next@.len() == 0 && crate::io::has_room(
            list,
            max_completions as nat,
        ) && crate::io::has_room(next, max_completions as nat) && #[trigger] left.may_step(
            max_completions,
            list,
            left_post,
            left_batch,
            one,
        ) && #[trigger] right.may_step(max_completions, next, right_post, right_batch, other)
            ==> alike(left_post, right_post) && super::alike::batches_alike(left_batch, right_batch)
            && one == other
}

/// Two in-process drivers with the same operations pending, in the same order.
pub open spec fn fakes_alike(left: FakeDriverState, right: FakeDriverState) -> bool {
    &&& left.capacity == right.capacity
    &&& left.pending.len() == right.pending.len()
    &&& forall|k: int|
        #![trigger left.pending[k]]
        #![trigger right.pending[k]]
        0 <= k < left.pending.len() ==> {
            &&& left.pending[k].completion == right.pending[k].completion
            &&& left.pending[k].cancelled == right.pending[k].cancelled
            &&& super::alike::operations_alike(left.pending[k].op, right.pending[k].op)
        }
}

/// Two in-process drivers with the same operations pending answer alike and stay alike, and they
/// report the same.
pub proof fn law_fake_drivers_stay_alike()
    ensures
        drivers_stay_alike(|left: FakeIoDriver, right: FakeIoDriver| fakes_alike(left@, right@)),
        driver_steps_stay_alike(
            |left: FakeIoDriver, right: FakeIoDriver| fakes_alike(left@, right@),
        ),
{
    let alike = |left: FakeIoDriver, right: FakeIoDriver| fakes_alike(left@, right@);
    assert forall|
        left: FakeIoDriver,
        right: FakeIoDriver,
        max_completions: usize,
        list: Vec<DriverCompletion>,
        next: Vec<DriverCompletion>,
        left_post: FakeIoDriver,
        right_post: FakeIoDriver,
        left_batch: Seq<DriverCompletion>,
        right_batch: Seq<DriverCompletion>,
        one: Result<bool, IoError>,
        other: Result<bool, IoError>,
    |
        alike(left, right) && list@.len() == 0 && next@.len() == 0 && crate::io::has_room(
            list,
            max_completions as nat,
        ) && crate::io::has_room(next, max_completions as nat) && #[trigger] left.may_step(
            max_completions,
            list,
            left_post,
            left_batch,
            one,
        ) && #[trigger] right.may_step(
            max_completions,
            next,
            right_post,
            right_batch,
            other,
        ) implies alike(left_post, right_post) && super::alike::batches_alike(
        left_batch,
        right_batch,
    ) && one == other by {
        lemma_fakes_report_alike(
            left,
            right,
            max_completions,
            list,
            next,
            left_post,
            right_post,
            left_batch,
            right_batch,
            one,
            other,
        );
    }
}

proof fn lemma_fakes_report_alike(
    left: FakeIoDriver,
    right: FakeIoDriver,
    max_completions: usize,
    list: Vec<DriverCompletion>,
    next: Vec<DriverCompletion>,
    left_post: FakeIoDriver,
    right_post: FakeIoDriver,
    left_batch: Seq<DriverCompletion>,
    right_batch: Seq<DriverCompletion>,
    one: Result<bool, IoError>,
    other: Result<bool, IoError>,
)
    requires
        fakes_alike(left@, right@),
        list@.len() == 0,
        next@.len() == 0,
        crate::io::has_room(list, max_completions as nat),
        crate::io::has_room(next, max_completions as nat),
        left.may_step(max_completions, list, left_post, left_batch, one),
        right.may_step(max_completions, next, right_post, right_batch, other),
    ensures
        fakes_alike(left_post@, right_post@),
        super::alike::batches_alike(left_batch, right_batch),
        one == other,
{
    crate::io::law_in_process_steps_report_in_full(
        left,
        max_completions,
        list,
        left_post,
        left_batch,
        one,
    );
    crate::io::law_in_process_steps_report_in_full(
        right,
        max_completions,
        next,
        right_post,
        right_batch,
        other,
    );
    assert forall|k: int| 0 <= k < left_batch.len() implies (#[trigger] left_batch[k]).completion
        == right_batch[k].completion && super::alike::results_alike(
        left_batch[k].result,
        right_batch[k].result,
    ) by {
        assert(right@.pending[k].completes_with(right_batch[k].result));
        if let (IoResult::Recv(Ok(bytes)), IoResult::Recv(Ok(others))) = (
            left_batch[k].result,
            right_batch[k].result,
        ) {
            assert(bytes@ =~= others@);
        }
    }
}

/// A step of the server has one outcome: from the same state, with isolates that are deterministic
/// and drivers that are alike, it returns the same and leaves the same behind.
pub proof fn law_server_steps_are_deterministic<I: Isolate, D: IoDriver>(
    same: spec_fn(I, I) -> bool,
    alike: spec_fn(D, D) -> bool,
    left: Snapshot<I, D>,
    right: Snapshot<I, D>,
    left_post: Snapshot<I, D>,
    right_post: Snapshot<I, D>,
    one: Result<StepResult, RuntimeError>,
    other: Result<StepResult, RuntimeError>,
)
    requires
        isolates_are_deterministic(same),
        drivers_stay_alike(alike),
        super::alike::snapshots_alike(same, alike, left, right),
        left.may_step(left_post, one),
        right.may_step(right_post, other),
    ensures
        one == other,
        super::alike::snapshots_alike(same, alike, left_post, right_post),
{
    super::alike::lemma_finalized_alike(same, alike, left, right);
    super::alike::lemma_routes_alike(same, alike, left.finalize(), right.finalize());
    let left_ready = left.finalize().route();
    let right_ready = right.finalize().route();
    if left_ready.server.queue.len() > 0 {
        let envelope = left_ready.server.queue[0];
        super::alike::lemma_same_isolates(
            same,
            left_ready.server.arena,
            right_ready.server.arena,
            envelope.target,
        );
        if left_ready.takes_messages(envelope.target) {
            lemma_turns(
                same,
                alike,
                left_ready.pop(),
                right_ready.pop(),
                envelope,
                left_post,
                right_post,
                one,
                other,
            );
        }
    }
}

/// A step of the loop has one outcome where drivers that are alike report the same.
pub proof fn law_loop_steps_are_deterministic<D: IoDriver>(
    alike: spec_fn(D, D) -> bool,
    left: LoopState<D>,
    right: LoopState<D>,
    left_post: LoopState<D>,
    right_post: LoopState<D>,
    one: Result<bool, RuntimeError>,
    other: Result<bool, RuntimeError>,
)
    requires
        driver_steps_stay_alike(alike),
        super::alike::loops_alike(alike, left, right),
        left.may_step(left_post, one),
        right.may_step(right_post, other),
    ensures
        one == other,
        super::alike::loops_alike(alike, left_post, right_post),
{
    let (left_batch, left_answer) = choose|
        batch: Seq<DriverCompletion>,
        answer: Result<bool, IoError>,
    | #[trigger]
        left.steps_with(batch, answer, left_post, one);
    let (right_batch, right_answer) = choose|
        batch: Seq<DriverCompletion>,
        answer: Result<bool, IoError>,
    | #[trigger]
        right.steps_with(batch, answer, right_post, other);
    lemma_reports(
        alike,
        left,
        right,
        left_post.driver,
        right_post.driver,
        left_batch,
        right_batch,
        left_answer,
        right_answer,
    );
    super::alike::lemma_reaped_alike(left.unreaped(), right.unreaped(), left_batch, right_batch);
}

proof fn lemma_reports<D: IoDriver>(
    alike: spec_fn(D, D) -> bool,
    left: LoopState<D>,
    right: LoopState<D>,
    left_post: D,
    right_post: D,
    left_batch: Seq<DriverCompletion>,
    right_batch: Seq<DriverCompletion>,
    one: Result<bool, IoError>,
    other: Result<bool, IoError>,
)
    requires
        driver_steps_stay_alike(alike),
        super::alike::loops_alike(alike, left, right),
        left.may_report(left_post, left_batch, one),
        right.may_report(right_post, right_batch, other),
    ensures
        alike(left_post, right_post),
        super::alike::batches_alike(left_batch, right_batch),
        one == other,
{
}

/// A run of the server has one outcome: from the same state, with isolates that are deterministic
/// and drivers that are alike and report the same, it returns the same and leaves the same behind.
pub proof fn law_server_runs_are_deterministic<I: Isolate, D: IoDriver>(
    same: spec_fn(I, I) -> bool,
    alike: spec_fn(D, D) -> bool,
    left: Snapshot<I, D>,
    right: Snapshot<I, D>,
    left_post: Snapshot<I, D>,
    right_post: Snapshot<I, D>,
    one: Result<usize, RuntimeError>,
    other: Result<usize, RuntimeError>,
)
    requires
        isolates_are_deterministic(same),
        drivers_stay_alike(alike),
        driver_steps_stay_alike(alike),
        super::alike::snapshots_alike(same, alike, left, right),
        left.may_run(left_post, one),
        right.may_run(right_post, other),
    ensures
        one == other,
        super::alike::snapshots_alike(same, alike, left_post, right_post),
{
    let (left_states, left_results) = choose|
        states: Seq<Snapshot<I, D>>,
        results: Seq<StepResult>,
    | #[trigger]
        left.runs_through(states, results) && states.last().may_end_run(
            results,
            left_post,
            one,
        );
    let (right_states, right_results) = choose|
        states: Seq<Snapshot<I, D>>,
        results: Seq<StepResult>,
    | #[trigger]
        right.runs_through(states, results) && states.last().may_end_run(
            results,
            right_post,
            other,
        );
    let shared = if left_results.len() <= right_results.len() {
        left_results.len()
    } else {
        right_results.len()
    };
    lemma_rounds(
        same,
        alike,
        left,
        right,
        left_states,
        right_states,
        left_results,
        right_results,
        shared,
    );
    let at = shared as int;
    if left_results.len() < right_results.len() {
        lemma_no_round_after_the_end(
            same,
            alike,
            left_states.last(),
            right_states[at],
            true,
            left_results,
            left_post,
            one,
            right_states[at + 1],
            right_results[at],
        );
    } else if right_results.len() < left_results.len() {
        lemma_no_round_after_the_end(
            same,
            alike,
            left_states[at],
            right_states.last(),
            false,
            right_results,
            right_post,
            other,
            left_states[at + 1],
            left_results[at],
        );
    } else {
        assert(left_results =~= right_results);
        lemma_run_ends(
            same,
            alike,
            left_states.last(),
            right_states.last(),
            left_results,
            left_post,
            right_post,
            one,
            other,
        );
    }
}

/// Two runs from the same state go through the same rounds.
proof fn lemma_rounds<I: Isolate, D: IoDriver>(
    same: spec_fn(I, I) -> bool,
    alike: spec_fn(D, D) -> bool,
    left: Snapshot<I, D>,
    right: Snapshot<I, D>,
    left_states: Seq<Snapshot<I, D>>,
    right_states: Seq<Snapshot<I, D>>,
    left_results: Seq<StepResult>,
    right_results: Seq<StepResult>,
    count: nat,
)
    requires
        isolates_are_deterministic(same),
        drivers_stay_alike(alike),
        driver_steps_stay_alike(alike),
        super::alike::snapshots_alike(same, alike, left, right),
        left.runs_through(left_states, left_results),
        right.runs_through(right_states, right_results),
        count <= left_results.len(),
        count <= right_results.len(),
    ensures
        super::alike::snapshots_alike(
            same,
            alike,
            left_states[count as int],
            right_states[count as int],
        ),
        forall|k: int| 0 <= k < count ==> (#[trigger] left_results[k]) == right_results[k],
    decreases count,
{
    if count > 0 {
        let before = (count - 1) as nat;
        lemma_rounds(
            same,
            alike,
            left,
            right,
            left_states,
            right_states,
            left_results,
            right_results,
            before,
        );
        let at = before as int;
        let (left_mid, left_progress) = lemma_round_parts(
            left_states[at],
            left_states[at + 1],
            left_results[at],
        );
        let (right_mid, right_progress) = lemma_round_parts(
            right_states[at],
            right_states[at + 1],
            right_results[at],
        );
        law_server_steps_are_deterministic(
            same,
            alike,
            left_states[at],
            right_states[at],
            left_mid,
            right_mid,
            Ok(left_results[at]),
            Ok(right_results[at]),
        );
        law_loop_steps_are_deterministic(
            alike,
            left_mid.io,
            right_mid.io,
            left_states[at + 1].io,
            right_states[at + 1].io,
            left_progress,
            right_progress,
        );
    }
}

/// What a round consists of: where the server's step led to, and what the loop's step gave.
proof fn lemma_round_parts<I: Isolate, D: IoDriver>(
    pre: Snapshot<I, D>,
    next: Snapshot<I, D>,
    result: StepResult,
) -> (parts: (Snapshot<I, D>, Result<bool, RuntimeError>))
    requires
        pre.may_round(next, result),
    ensures
        pre.may_step(parts.0, Ok(result)),
        parts.0.io.may_step(next.io, parts.1),
        parts.1 is Ok,
        next.server == parts.0.server,
{
    let (mid, progressed) = choose|mid: Snapshot<I, D>, progressed: bool|
        {
            &&& #[trigger] pre.may_step(mid, Ok(result))
            &&& #[trigger] mid.io.may_step(next.io, Ok(progressed))
            &&& next.server == mid.server
        };
    (mid, Ok(progressed))
}

/// The last step of a run: where it led to, what it gave, and what the loop's step gave that
/// followed it, if there was one.
proof fn lemma_last_step<I: Isolate, D: IoDriver>(
    pre: Snapshot<I, D>,
    results: Seq<StepResult>,
    post: Snapshot<I, D>,
    outcome: Result<usize, RuntimeError>,
) -> (parts: (Snapshot<I, D>, Result<StepResult, RuntimeError>, Result<bool, RuntimeError>))
    requires
        results.len() < usize::MAX,
        pre.may_end_run(results, post, outcome),
    ensures
        pre.may_step(parts.0, parts.1),
        match parts.1 {
            Ok(StepResult::Idle) => post == parts.0 && outcome is Ok,
            Ok(_) => {
                &&& parts.0.io.may_step(post.io, parts.2)
                &&& post.server == parts.0.server
                &&& parts.2 matches Err(error) && outcome == Err::<usize, _>(error)
            },
            Err(error) => post == parts.0 && outcome == Err::<usize, _>(error),
        },
        outcome matches Ok(processed) ==> processed == super::model::processed_in(results),
{
    match outcome {
        Ok(_) => (post, Ok(StepResult::Idle), Ok(false)),
        Err(error) => if pre.may_step(post, Err(error)) {
            (post, Err(error), Ok(false))
        } else {
            let (mid, result) = choose|mid: Snapshot<I, D>, result: StepResult|
                {
                    &&& #[trigger] pre.may_step(mid, Ok(result))
                    &&& result != StepResult::Idle
                    &&& mid.io.may_step(post.io, Err(error))
                    &&& post.server == mid.server
                };
            (mid, Ok(result), Err(error))
        },
    }
}

/// Where one of two runs that are alike may end, no round of the other can follow.
proof fn lemma_no_round_after_the_end<I: Isolate, D: IoDriver>(
    same: spec_fn(I, I) -> bool,
    alike: spec_fn(D, D) -> bool,
    left: Snapshot<I, D>,
    right: Snapshot<I, D>,
    left_ends: bool,
    results: Seq<StepResult>,
    post: Snapshot<I, D>,
    outcome: Result<usize, RuntimeError>,
    next: Snapshot<I, D>,
    result: StepResult,
)
    requires
        isolates_are_deterministic(same),
        drivers_stay_alike(alike),
        driver_steps_stay_alike(alike),
        super::alike::snapshots_alike(same, alike, left, right),
        results.len() < usize::MAX,
        if left_ends {
            left.may_end_run(results, post, outcome)
        } else {
            right.may_end_run(results, post, outcome)
        },
    ensures
        if left_ends {
            right.may_round(next, result) ==> result == StepResult::Idle
        } else {
            left.may_round(next, result) ==> result == StepResult::Idle
        },
{
    let ending = if left_ends {
        left
    } else {
        right
    };
    let going = if left_ends {
        right
    } else {
        left
    };
    if going.may_round(next, result) {
        let (going_mid, progress) = lemma_round_parts(going, next, result);
        let (ending_mid, ended, failed) = lemma_last_step(ending, results, post, outcome);
        if left_ends {
            law_server_steps_are_deterministic(
                same,
                alike,
                left,
                right,
                ending_mid,
                going_mid,
                ended,
                Ok(result),
            );
            if result != StepResult::Idle {
                law_loop_steps_are_deterministic(
                    alike,
                    ending_mid.io,
                    going_mid.io,
                    post.io,
                    next.io,
                    failed,
                    progress,
                );
            }
        } else {
            law_server_steps_are_deterministic(
                same,
                alike,
                left,
                right,
                going_mid,
                ending_mid,
                Ok(result),
                ended,
            );
            if result != StepResult::Idle {
                law_loop_steps_are_deterministic(
                    alike,
                    going_mid.io,
                    ending_mid.io,
                    next.io,
                    post.io,
                    progress,
                    failed,
                );
            }
        }
    }
}

/// Two runs that went through the same rounds end in the same way.
proof fn lemma_run_ends<I: Isolate, D: IoDriver>(
    same: spec_fn(I, I) -> bool,
    alike: spec_fn(D, D) -> bool,
    left: Snapshot<I, D>,
    right: Snapshot<I, D>,
    results: Seq<StepResult>,
    left_post: Snapshot<I, D>,
    right_post: Snapshot<I, D>,
    one: Result<usize, RuntimeError>,
    other: Result<usize, RuntimeError>,
)
    requires
        isolates_are_deterministic(same),
        drivers_stay_alike(alike),
        driver_steps_stay_alike(alike),
        super::alike::snapshots_alike(same, alike, left, right),
        results.len() <= usize::MAX,
        left.may_end_run(results, left_post, one),
        right.may_end_run(results, right_post, other),
    ensures
        one == other,
        super::alike::snapshots_alike(same, alike, left_post, right_post),
{
    if results.len() < usize::MAX {
        let (left_mid, left_ended, left_failed) = lemma_last_step(
            left,
            results,
            left_post,
            one,
        );
        let (right_mid, right_ended, right_failed) = lemma_last_step(
            right,
            results,
            right_post,
            other,
        );
        law_server_steps_are_deterministic(
            same,
            alike,
            left,
            right,
            left_mid,
            right_mid,
            left_ended,
            right_ended,
        );
        if left_ended matches Ok(result) && result != StepResult::Idle {
            law_loop_steps_are_deterministic(
                alike,
                    left_mid.io,
                right_mid.io,
                left_post.io,
                right_post.io,
                left_failed,
                right_failed,
            );
        }
    }
}

proof fn lemma_turns<I: Isolate, D: IoDriver>(
    same: spec_fn(I, I) -> bool,
    alike: spec_fn(D, D) -> bool,
    left: Snapshot<I, D>,
    right: Snapshot<I, D>,
    envelope: Envelope,
    left_post: Snapshot<I, D>,
    right_post: Snapshot<I, D>,
    one: Result<StepResult, RuntimeError>,
    other: Result<StepResult, RuntimeError>,
)
    requires
        isolates_are_deterministic(same),
        drivers_stay_alike(alike),
        super::alike::snapshots_alike(same, alike, left, right),
        left.may_take_turn(envelope, left_post, one),
        right.may_take_turn(envelope, right_post, other),
        left.server.arena.has(envelope.target),
    ensures
        one == other,
        super::alike::snapshots_alike(same, alike, left_post, right_post),
{
    let owner = envelope.target;
    let (left_end, left_answer) = choose|end: TurnState<I>, answer: Result<(), RuntimeError>|
        {
            &&& #[trigger] left.may_end_turn(owner, envelope.message, end, answer)
            &&& match answer {
                Err(error) => {
                    &&& left_post == left.turn_end(owner, end, false)
                    &&& one == Err::<StepResult, _>(error)
                },
                Ok(_) => left.turn_end(owner, end, false).may_finish_turn(owner, left_post, one),
            }
        };
    let (right_end, _) = choose|end: TurnState<I>, answer: Result<(), RuntimeError>|
        {
            &&& #[trigger] right.may_end_turn(owner, envelope.message, end, answer)
            &&& match answer {
                Err(error) => {
                    &&& right_post == right.turn_end(owner, end, false)
                    &&& other == Err::<StepResult, _>(error)
                },
                Ok(_) => right.turn_end(owner, end, false).may_finish_turn(
                    owner,
                    right_post,
                    other,
                ),
            }
        };
    let left_turned = left.turn_end(owner, left_end, false);
    let right_turned = right.turn_end(owner, right_end, false);
    super::alike::lemma_same_isolates(same, left.server.arena, right.server.arena, owner);
    super::alike::lemma_turn_ends_alike(
        same,
        alike,
        left,
        right,
        owner,
        left_end,
        right_end,
        false,
    );
    if left_answer is Ok {
        lemma_turn_ends(
            same,
            alike,
            left_turned,
            right_turned,
            owner,
            left_post,
            right_post,
            one,
            other,
        );
    }
}

proof fn lemma_turn_ends<I: Isolate, D: IoDriver>(
    same: spec_fn(I, I) -> bool,
    alike: spec_fn(D, D) -> bool,
    left: Snapshot<I, D>,
    right: Snapshot<I, D>,
    owner: Handle,
    left_post: Snapshot<I, D>,
    right_post: Snapshot<I, D>,
    one: Result<StepResult, RuntimeError>,
    other: Result<StepResult, RuntimeError>,
)
    requires
        isolates_are_deterministic(same),
        drivers_stay_alike(alike),
        super::alike::snapshots_alike(same, alike, left, right),
        left.may_finish_turn(owner, left_post, one),
        right.may_finish_turn(owner, right_post, other),
    ensures
        one == other,
        super::alike::snapshots_alike(same, alike, left_post, right_post),
{
    let effects = left.server.effects.effects;
    let others = right.server.effects.effects;
    let (left_mid, left_answer) = choose|mid: Snapshot<I, D>, answer: Result<bool, RuntimeError>|
        {
            &&& #[trigger] left.without_effects().may_interpret(owner, effects, mid, answer)
            &&& match answer {
                Err(error) => left_post == mid && one == Err::<StepResult, _>(error),
                Ok(false) => {
                    &&& left_post == mid.finalize()
                    &&& one == Ok::<_, RuntimeError>(StepResult::ProcessedOne)
                },
                Ok(true) => mid.may_end_destroyed(owner, left_post, one),
            }
        };
    let (right_mid, right_answer) = choose|mid: Snapshot<I, D>, answer: Result<bool, RuntimeError>|
        {
            &&& #[trigger] right.without_effects().may_interpret(owner, others, mid, answer)
            &&& match answer {
                Err(error) => right_post == mid && other == Err::<StepResult, _>(error),
                Ok(false) => {
                    &&& right_post == mid.finalize()
                    &&& other == Ok::<_, RuntimeError>(StepResult::ProcessedOne)
                },
                Ok(true) => mid.may_end_destroyed(owner, right_post, other),
            }
        };
    lemma_interpretations(
        same,
        alike,
        left.without_effects(),
        right.without_effects(),
        owner,
        effects,
        others,
        left_mid,
        right_mid,
        left_answer,
        right_answer,
    );
    if left_answer == Ok::<bool, RuntimeError>(false) {
        super::alike::lemma_finalized_alike(same, alike, left_mid, right_mid);
    }
    if left_answer == Ok::<bool, RuntimeError>(true) {
        let (left_last, left_destroyed) = choose|
            mid: Snapshot<I, D>,
            answer: Result<(), RuntimeError>,
        |
            {
                &&& #[trigger] left_mid.may_start_destroy(owner, mid, answer)
                &&& match answer {
                    Err(error) => left_post == mid && one == Err::<StepResult, _>(error),
                    Ok(_) => {
                        &&& left_post == mid.finalize()
                        &&& one == Ok::<_, RuntimeError>(StepResult::ProcessedOne)
                    },
                }
            };
        let (right_last, right_destroyed) = choose|
            mid: Snapshot<I, D>,
            answer: Result<(), RuntimeError>,
        |
            {
                &&& #[trigger] right_mid.may_start_destroy(owner, mid, answer)
                &&& match answer {
                    Err(error) => right_post == mid && other == Err::<StepResult, _>(error),
                    Ok(_) => {
                        &&& right_post == mid.finalize()
                        &&& other == Ok::<_, RuntimeError>(StepResult::ProcessedOne)
                    },
                }
            };
        lemma_destructions(
            same,
            alike,
            left_mid,
            right_mid,
            owner,
            left_last,
            right_last,
            left_destroyed,
            right_destroyed,
        );
        if left_destroyed is Ok {
            super::alike::lemma_finalized_alike(same, alike, left_last, right_last);
        }
    }
}

proof fn lemma_destructions<I: Isolate, D: IoDriver>(
    same: spec_fn(I, I) -> bool,
    alike: spec_fn(D, D) -> bool,
    left: Snapshot<I, D>,
    right: Snapshot<I, D>,
    owner: Handle,
    left_post: Snapshot<I, D>,
    right_post: Snapshot<I, D>,
    one: Result<(), RuntimeError>,
    other: Result<(), RuntimeError>,
)
    requires
        isolates_are_deterministic(same),
        drivers_stay_alike(alike),
        super::alike::snapshots_alike(same, alike, left, right),
        left.may_start_destroy(owner, left_post, one),
        right.may_start_destroy(owner, right_post, other),
    ensures
        super::alike::same_outcome(one, other),
        super::alike::snapshots_alike(same, alike, left_post, right_post),
{
    super::alike::lemma_same_isolates(same, left.server.arena, right.server.arena, owner);
    if left.takes_messages(owner) {
        let (left_end, left_answer) = choose|end: TurnState<I>, answer: Result<(), RuntimeError>|
            {
                &&& #[trigger] left.may_end_last_turn(owner, end, answer)
                &&& match answer {
                    Err(_) => left_post == left.turn_end(owner, end, true) && one == answer,
                    Ok(_) => left.turn_end(owner, end, true).may_finish_last_turn(
                        owner,
                        left_post,
                        one,
                    ),
                }
            };
        let (right_end, _) = choose|end: TurnState<I>, answer: Result<(), RuntimeError>|
            {
                &&& #[trigger] right.may_end_last_turn(owner, end, answer)
                &&& match answer {
                    Err(_) => right_post == right.turn_end(owner, end, true) && other == answer,
                    Ok(_) => right.turn_end(owner, end, true).may_finish_last_turn(
                        owner,
                        right_post,
                        other,
                    ),
                }
            };
        let left_turned = left.turn_end(owner, left_end, true);
        let right_turned = right.turn_end(owner, right_end, true);
        super::alike::lemma_turn_ends_alike(
            same,
            alike,
            left,
            right,
            owner,
            left_end,
            right_end,
            true,
        );
        if left_answer is Ok {
            let effects = left_turned.server.effects.effects;
            let others = right_turned.server.effects.effects;
            let (left_mid, left_applied) = choose|
                mid: Snapshot<I, D>,
                answer: Result<bool, RuntimeError>,
            |
                {
                    &&& #[trigger] left_turned.without_effects().may_interpret(
                        owner,
                        effects,
                        mid,
                        answer,
                    )
                    &&& match answer {
                        Err(error) => left_post == mid && one == Err::<(), _>(error),
                        Ok(_) => left_post == mid.list_destroying(owner) && one is Ok,
                    }
                };
            let (right_mid, right_applied) = choose|
                mid: Snapshot<I, D>,
                answer: Result<bool, RuntimeError>,
            |
                {
                    &&& #[trigger] right_turned.without_effects().may_interpret(
                        owner,
                        others,
                        mid,
                        answer,
                    )
                    &&& match answer {
                        Err(error) => right_post == mid && other == Err::<(), _>(error),
                        Ok(_) => right_post == mid.list_destroying(owner) && other is Ok,
                    }
                };
            lemma_interpretations(
                same,
                alike,
                left_turned.without_effects(),
                right_turned.without_effects(),
                owner,
                effects,
                others,
                left_mid,
                right_mid,
                left_applied,
                right_applied,
            );
        }
    }
}

proof fn lemma_interpretations<I, D: IoDriver>(
    same: spec_fn(I, I) -> bool,
    alike: spec_fn(D, D) -> bool,
    left: Snapshot<I, D>,
    right: Snapshot<I, D>,
    owner: Handle,
    effects: Seq<Effect<I>>,
    others: Seq<Effect<I>>,
    left_post: Snapshot<I, D>,
    right_post: Snapshot<I, D>,
    one: Result<bool, RuntimeError>,
    other: Result<bool, RuntimeError>,
)
    requires
        drivers_stay_alike(alike),
        super::alike::snapshots_alike(same, alike, left, right),
        super::alike::effects_alike(same, effects, others),
        left.may_interpret(owner, effects, left_post, one),
        right.may_interpret(owner, others, right_post, other),
    ensures
        one == other,
        super::alike::snapshots_alike(same, alike, left_post, right_post),
{
    super::alike::lemma_same_counts(same, effects, others);
    if left.may_apply_all(owner, effects, left_post, one) && right.may_apply_all(
        owner,
        others,
        right_post,
        other,
    ) {
        lemma_effects(
            same,
            alike,
            left,
            right,
            owner,
            effects,
            others,
            left_post,
            right_post,
            one,
            other,
        );
    }
}

proof fn lemma_effects<I, D: IoDriver>(
    same: spec_fn(I, I) -> bool,
    alike: spec_fn(D, D) -> bool,
    left: Snapshot<I, D>,
    right: Snapshot<I, D>,
    owner: Handle,
    effects: Seq<Effect<I>>,
    others: Seq<Effect<I>>,
    left_post: Snapshot<I, D>,
    right_post: Snapshot<I, D>,
    one: Result<bool, RuntimeError>,
    other: Result<bool, RuntimeError>,
)
    requires
        drivers_stay_alike(alike),
        super::alike::snapshots_alike(same, alike, left, right),
        super::alike::effects_alike(same, effects, others),
        left.may_apply_all(owner, effects, left_post, one),
        right.may_apply_all(owner, others, right_post, other),
    ensures
        one == other,
        super::alike::snapshots_alike(same, alike, left_post, right_post),
    decreases effects.len(),
{
    if effects.len() > 0 {
        let rest = effects.drop_last();
        let (left_mid, left_earlier) = choose|
            mid: Snapshot<I, D>,
            earlier: Result<bool, RuntimeError>,
        |
            {
                &&& left.may_apply_all(owner, rest, mid, earlier)
                &&& #[trigger] mid.may_apply_last(owner, effects.last(), earlier, left_post, one)
            };
        let (right_mid, right_earlier) = choose|
            mid: Snapshot<I, D>,
            earlier: Result<bool, RuntimeError>,
        |
            {
                &&& right.may_apply_all(owner, others.drop_last(), mid, earlier)
                &&& #[trigger] mid.may_apply_last(
                    owner,
                    others.last(),
                    earlier,
                    right_post,
                    other,
                )
            };
        super::alike::lemma_shorter_effects(same, effects, others);
        lemma_effects(
            same,
            alike,
            left,
            right,
            owner,
            rest,
            others.drop_last(),
            left_mid,
            right_mid,
            left_earlier,
            right_earlier,
        );
        if left_earlier is Ok {
            let left_done = match one {
                Ok(_) => Ok(()),
                Err(error) => Err(error),
            };
            let right_done = match other {
                Ok(_) => Ok(()),
                Err(error) => Err(error),
            };
            lemma_effect(
                same,
                alike,
                left_mid,
                right_mid,
                owner,
                effects.last(),
                others.last(),
                left_post,
                right_post,
                left_done,
                right_done,
            );
        }
    }
}

proof fn lemma_effect<I, D: IoDriver>(
    same: spec_fn(I, I) -> bool,
    alike: spec_fn(D, D) -> bool,
    left: Snapshot<I, D>,
    right: Snapshot<I, D>,
    owner: Handle,
    effect: Effect<I>,
    next: Effect<I>,
    left_post: Snapshot<I, D>,
    right_post: Snapshot<I, D>,
    one: Result<(), RuntimeError>,
    other: Result<(), RuntimeError>,
)
    requires
        drivers_stay_alike(alike),
        super::alike::snapshots_alike(same, alike, left, right),
        super::alike::same_effect(same, effect, next),
        left.may_apply(owner, effect, left_post, one),
        right.may_apply(owner, next, right_post, other),
    ensures
        super::alike::same_outcome(one, other),
        super::alike::snapshots_alike(same, alike, left_post, right_post),
{
    match (effect, next) {
        (Effect::Submit { completion, op }, Effect::Submit { completion: _, op: another }) => {
            lemma_submissions(
                alike,
                left.io,
                right.io,
                owner,
                completion,
                op,
                another,
                left_post.io,
                right_post.io,
                one,
                other,
            );
        },
        (Effect::Cancel { completion }, Effect::Cancel { .. }) => {
            lemma_cancellations(
                alike,
                left.io,
                right.io,
                owner,
                completion,
                left_post.io,
                right_post.io,
                one,
                other,
            );
        },
        (Effect::Spawn(isolate), Effect::Spawn(another)) => {
            if !left.server.arena.full() {
                super::alike::lemma_inserted_alike(
                    same,
                    left.server.arena,
                    right.server.arena,
                    isolate,
                    another,
                );
            }
        },
        _ => {},
    }
}

proof fn lemma_submissions<D: IoDriver>(
    alike: spec_fn(D, D) -> bool,
    left: LoopState<D>,
    right: LoopState<D>,
    owner: Handle,
    completion: CompletionHandle,
    op: Operation,
    next: Operation,
    left_post: LoopState<D>,
    right_post: LoopState<D>,
    one: Result<(), RuntimeError>,
    other: Result<(), RuntimeError>,
)
    requires
        drivers_stay_alike(alike),
        super::alike::loops_alike(alike, left, right),
        super::alike::operations_alike(op, next),
        left.may_submit(owner, completion, op, left_post, one),
        right.may_submit(owner, completion, next, right_post, other),
    ensures
        super::alike::same_outcome(one, other),
        super::alike::loops_alike(alike, left_post, right_post),
{
    super::alike::lemma_same_live(left.completions, right.completions, completion);
    if left.completions.live(completion) {
        super::alike::lemma_moved_alike(
            left.completions,
            right.completions,
            completion,
            CompletionState::Submitted,
        );
    }
}

proof fn lemma_cancellations<D: IoDriver>(
    alike: spec_fn(D, D) -> bool,
    left: LoopState<D>,
    right: LoopState<D>,
    owner: Handle,
    completion: CompletionHandle,
    left_post: LoopState<D>,
    right_post: LoopState<D>,
    one: Result<(), RuntimeError>,
    other: Result<(), RuntimeError>,
)
    requires
        drivers_stay_alike(alike),
        super::alike::loops_alike(alike, left, right),
        left.may_cancel(owner, completion, left_post, one),
        right.may_cancel(owner, completion, right_post, other),
    ensures
        super::alike::same_outcome(one, other),
        super::alike::loops_alike(alike, left_post, right_post),
{
    super::alike::lemma_same_live(left.completions, right.completions, completion);
    if left.completions.live(completion) {
        super::alike::lemma_moved_alike(
            left.completions,
            right.completions,
            completion,
            CompletionState::Cancelling,
        );
    }
}

} // verus!
