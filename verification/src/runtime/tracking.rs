//! Over the in-process driver the loop never fails: the driver and the completions agree on which
//! operations are under way.

use vstd::prelude::*;

use crate::arena::Handle;
use crate::completion::{CompletionHandle, CompletionOp, CompletionState, CompletionsState};
use crate::effects::Effect;
use crate::io::{DriverCompletion, FakeDriverState, FakeIoDriver, IoResult, Operation};

use super::context::{Isolate, TurnState};
use super::error::RuntimeError;
use super::io_loop::{LoopState, Reaped};
use super::model::{Envelope, Snapshot, StepResult};

verus! {

/// An operation of `completion` is under way.
pub open spec fn under_way(
    completions: CompletionsState<IoResult>,
    completion: CompletionHandle,
) -> bool {
    &&& completions.live(completion)
    &&& {
        ||| completions.slot(completion).state == Some(CompletionState::Submitted)
        ||| completions.slot(completion).state == Some(CompletionState::Cancelling)
    }
}

/// The operations that `driver` still has to complete from the one at `from` on are those under way,
/// each of a completion of its own.
pub open spec fn tracks_from(
    driver: FakeDriverState,
    completions: CompletionsState<IoResult>,
    from: int,
) -> bool {
    &&& forall|k: int|
        from <= k < driver.pending.len() ==> under_way(
            completions,
            (#[trigger] driver.pending[k]).completion,
        )
    &&& forall|j: int, k: int|
        from <= j < k < driver.pending.len() ==> (#[trigger] driver.pending[j]).completion != (
        #[trigger] driver.pending[k]).completion
    &&& forall|completion: CompletionHandle| #[trigger]
        under_way(completions, completion) ==> exists|k: int|
            from <= k < driver.pending.len() && (#[trigger] driver.pending[k]).completion
                == completion
}

/// The completions of `io` are well formed, and the operations pending in its driver are those under
/// way.
pub open spec fn tracks(io: LoopState<FakeIoDriver>) -> bool {
    io.completions.wf() && tracks_from(io.driver@, io.completions, 0)
}

/// A new loop has no operation under way.
pub proof fn law_new_loop_keeps_track(driver: FakeIoDriver, completion_capacity: nat)
    requires
        driver@.pending.len() == 0,
        completion_capacity <= crate::arena::MAX_SLOTS,
    ensures
        tracks(
            (LoopState {
                driver,
                completions: CompletionsState::vacant(completion_capacity),
                ready: Seq::empty(),
                ready_capacity: completion_capacity,
            }),
        ),
{
    let completions = CompletionsState::<IoResult>::vacant(completion_capacity);
    assert forall|i: int|
        0 <= i < completions.slots.len() && (#[trigger] completions.slots[i]).owner is None implies
        completions.free.contains(i as u32) by {
        assert(completions.free[completion_capacity - 1 - i] == i as u32);
    }
}

/// A step of the loop over the in-process driver succeeds, where driver and completions agree, and
/// it keeps them so. It completes as many operations as there is room for, and says whether there
/// were any.
pub proof fn law_in_process_loop_steps_succeed(
    pre: LoopState<FakeIoDriver>,
    post: LoopState<FakeIoDriver>,
    outcome: Result<bool, RuntimeError>,
)
    requires
        tracks(pre),
        pre.may_step(post, outcome),
    ensures
        outcome == Ok::<bool, RuntimeError>(pre.driver@.wanted(pre.available() as usize) > 0),
        tracks(post),
{
    super::io_loop::law_in_process_loop_steps_report_in_full(pre, post, outcome);
    let count = pre.driver@.wanted(pre.available() as usize);
    let batch = choose|batch: Seq<DriverCompletion>|
        {
            &&& #[trigger] super::io_loop::reports_first(pre.driver, batch)
            &&& batch.len() == count
            &&& pre.steps_with(batch, Ok(count > 0), post, outcome)
        };
    lemma_reaping_keeps_track(pre, batch, count);
    assert(batch.take(count as int) =~= batch);
    let left = post.driver@;
    assert forall|completion: CompletionHandle| #[trigger]
        under_way(post.completions, completion) implies exists|k: int|
        0 <= k < left.pending.len() && (#[trigger] left.pending[k]).completion == completion by {
        let k = choose|k: int|
            count <= k < pre.driver@.pending.len() && (
            #[trigger] pre.driver@.pending[k]).completion == completion;
        assert(left.pending[k - count] == pre.driver@.pending[k]);
    }
}

/// Reaping the first of the pending operations refuses none and leaves the others under way.
proof fn lemma_reaping_keeps_track(
    pre: LoopState<FakeIoDriver>,
    batch: Seq<DriverCompletion>,
    count: nat,
)
    requires
        tracks(pre),
        super::io_loop::reports_first(pre.driver, batch),
        count <= batch.len(),
    ensures
        pre.reap_all(batch.take(count as int)).refused is None,
        pre.reap_all(batch.take(count as int)).completions.wf(),
        tracks_from(
            pre.driver@,
            pre.reap_all(batch.take(count as int)).completions,
            count as int,
        ),
    decreases count,
{
    if count > 0 {
        let before = (count - 1) as nat;
        let taken = batch.take(count as int);
        assert(taken.drop_last() =~= batch.take(before as int));
        lemma_reaping_keeps_track(pre, batch, before);
        let earlier = pre.reap_all(batch.take(before as int));
        let done = batch[before as int];
        lemma_reap_keeps_track(pre.driver@, earlier, before as int, done);
    }
}

proof fn lemma_reap_keeps_track(
    driver: FakeDriverState,
    state: Reaped,
    at: int,
    done: DriverCompletion,
)
    requires
        0 <= at < driver.pending.len(),
        state.completions.wf(),
        tracks_from(driver, state.completions, at),
        driver.pending[at].completion == done.completion,
        state.refused is None,
    ensures
        state.reap(done).refused is None,
        state.reap(done).completions.wf(),
        tracks_from(driver, state.reap(done).completions, at + 1),
{
    let post = state.reap(done).completions;
    let reported = CompletionOp::Complete(done.completion, done.result);
    crate::completion::lemma_apply_wf(state.completions, reported);
    crate::completion::lemma_apply_wf(
        state.completions.apply(reported),
        CompletionOp::Release(state.completions.owner_of(done.completion), done.completion),
    );
    assert forall|completion: CompletionHandle| #[trigger]
        under_way(post, completion) implies exists|k: int|
        at + 1 <= k < driver.pending.len() && (#[trigger] driver.pending[k]).completion
            == completion by {
        assert(under_way(state.completions, completion));
        let k = choose|k: int|
            at <= k < driver.pending.len() && (#[trigger] driver.pending[k]).completion
                == completion;
    }
}

/// What a turn does to the completions leaves those under way alone.
proof fn lemma_turn_keeps_track(
    driver: FakeDriverState,
    completions: CompletionsState<IoResult>,
    owner: Handle,
    post: CompletionsState<IoResult>,
)
    requires
        tracks_from(driver, completions, 0),
        completions.turn_of(owner, post),
    ensures
        tracks_from(driver, post, 0),
{
    assert forall|k: int| 0 <= k < driver.pending.len() implies under_way(
        post,
        (#[trigger] driver.pending[k]).completion,
    ) by {
        let completion = driver.pending[k].completion;
    }
    assert forall|completion: CompletionHandle| #[trigger]
        under_way(post, completion) implies exists|k: int|
        0 <= k < driver.pending.len() && (#[trigger] driver.pending[k]).completion
            == completion by {
        assert(under_way(completions, completion));
    }
}

proof fn lemma_submission_keeps_track(
    pre: LoopState<FakeIoDriver>,
    owner: Handle,
    completion: CompletionHandle,
    op: Operation,
    post: LoopState<FakeIoDriver>,
    outcome: Result<(), RuntimeError>,
)
    requires
        tracks(pre),
        pre.may_submit(owner, completion, op, post, outcome),
    ensures
        tracks(post),
{
    crate::completion::lemma_apply_wf(pre.completions, CompletionOp::Submit(owner, completion));
    if outcome is Ok {
        let driver = pre.driver@;
        let longer = post.driver@;
        assert forall|other: CompletionHandle| #[trigger]
            under_way(post.completions, other) implies exists|k: int|
            0 <= k < longer.pending.len() && (#[trigger] longer.pending[k]).completion
                == other by {
            if other.index == completion.index {
                assert(longer.pending[driver.pending.len() as int].completion == other);
            } else {
                assert(under_way(pre.completions, other));
                let k = choose|k: int|
                    0 <= k < driver.pending.len() && (#[trigger] driver.pending[k]).completion
                        == other;
                assert(longer.pending[k].completion == other);
            }
        }
    }
}

proof fn lemma_cancellation_keeps_track(
    pre: LoopState<FakeIoDriver>,
    owner: Handle,
    completion: CompletionHandle,
    post: LoopState<FakeIoDriver>,
    outcome: Result<(), RuntimeError>,
)
    requires
        tracks(pre),
        pre.may_cancel(owner, completion, post, outcome),
    ensures
        tracks(post),
        !(outcome matches Err(RuntimeError::Io(_))),
{
    crate::completion::lemma_apply_wf(
        pre.completions,
        CompletionOp::BeginCancel(owner, completion),
    );
    crate::completion::lemma_apply_wf(pre.completions, CompletionOp::Release(owner, completion));
    if let Ok((_, state)) = pre.completions.begin_cancel(owner, completion) {
        let driver = pre.driver@;
        let marked = post.driver@;
        if state == CompletionState::Cancelling {
            assert(under_way(pre.completions, completion));
        }
        assert(forall|k: int|
            0 <= k < driver.pending.len() ==> (#[trigger] marked.pending[k]).completion
                == driver.pending[k].completion);
        assert forall|other: CompletionHandle| #[trigger]
            under_way(post.completions, other) implies exists|k: int|
            0 <= k < marked.pending.len() && (#[trigger] marked.pending[k]).completion
                == other by {
            assert(under_way(pre.completions, other));
            let k = choose|k: int|
                0 <= k < driver.pending.len() && (#[trigger] driver.pending[k]).completion == other;
            assert(marked.pending[k].completion == other);
        }
    }
}

/// The effects of a turn keep driver and completions in agreement.
proof fn lemma_effects_keep_track<I>(
    pre: Snapshot<I, FakeIoDriver>,
    owner: Handle,
    effects: Seq<Effect<I>>,
    post: Snapshot<I, FakeIoDriver>,
    outcome: Result<bool, RuntimeError>,
)
    requires
        tracks(pre.io),
        pre.may_apply_all(owner, effects, post, outcome),
    ensures
        tracks(post.io),
    decreases effects.len(),
{
    if effects.len() > 0 {
        let (mid, earlier) = choose|
            mid: Snapshot<I, FakeIoDriver>,
            earlier: Result<bool, RuntimeError>,
        |
            {
                &&& pre.may_apply_all(owner, effects.drop_last(), mid, earlier)
                &&& #[trigger] mid.may_apply_last(owner, effects.last(), earlier, post, outcome)
            };
        lemma_effects_keep_track(pre, owner, effects.drop_last(), mid, earlier);
        if earlier is Ok {
            let done = match outcome {
                Ok(_) => Ok(()),
                Err(error) => Err(error),
            };
            match effects.last() {
                Effect::Submit { completion, op } => {
                    lemma_submission_keeps_track(mid.io, owner, completion, op, post.io, done);
                },
                Effect::Cancel { completion } => {
                    lemma_cancellation_keeps_track(mid.io, owner, completion, post.io, done);
                },
                _ => {},
            }
        }
    }
}

proof fn lemma_interpretation_keeps_track<I>(
    pre: Snapshot<I, FakeIoDriver>,
    owner: Handle,
    effects: Seq<Effect<I>>,
    post: Snapshot<I, FakeIoDriver>,
    outcome: Result<bool, RuntimeError>,
)
    requires
        tracks(pre.io),
        pre.may_interpret(owner, effects, post, outcome),
    ensures
        tracks(post.io),
{
    if post != pre {
        lemma_effects_keep_track(pre, owner, effects, post, outcome);
    }
}

/// The destruction of an isolate keeps driver and completions in agreement.
proof fn lemma_destruction_keeps_track<I: Isolate>(
    pre: Snapshot<I, FakeIoDriver>,
    owner: Handle,
    post: Snapshot<I, FakeIoDriver>,
    outcome: Result<(), RuntimeError>,
)
    requires
        tracks(pre.io),
        pre.may_start_destroy(owner, post, outcome),
    ensures
        tracks(post.io),
{
    if pre.takes_messages(owner) {
        let (end, answer) = choose|end: TurnState<I>, answer: Result<(), RuntimeError>|
            {
                &&& #[trigger] pre.may_end_last_turn(owner, end, answer)
                &&& match answer {
                    Err(_) => post == pre.turn_end(owner, end, true) && outcome == answer,
                    Ok(_) => pre.turn_end(owner, end, true).may_finish_last_turn(
                        owner,
                        post,
                        outcome,
                    ),
                }
            };
        let turned = pre.turn_end(owner, end, true);
        lemma_turn_keeps_track(pre.io.driver@, pre.io.completions, owner, end.io.completions);
        if answer is Ok {
            let (mid, interpreted) = choose|
                mid: Snapshot<I, FakeIoDriver>,
                interpreted: Result<bool, RuntimeError>,
            |
                {
                    &&& #[trigger] turned.without_effects().may_interpret(
                        owner,
                        turned.server.effects.effects,
                        mid,
                        interpreted,
                    )
                    &&& match interpreted {
                        Err(error) => post == mid && outcome == Err::<(), _>(error),
                        Ok(_) => post == mid.list_destroying(owner) && outcome is Ok,
                    }
                };
            lemma_interpretation_keeps_track(
                turned.without_effects(),
                owner,
                turned.server.effects.effects,
                mid,
                interpreted,
            );
        }
    }
}

/// A turn, with all that follows, keeps driver and completions in agreement.
proof fn lemma_whole_turn_keeps_track<I: Isolate>(
    pre: Snapshot<I, FakeIoDriver>,
    envelope: Envelope,
    post: Snapshot<I, FakeIoDriver>,
    outcome: Result<StepResult, RuntimeError>,
)
    requires
        tracks(pre.io),
        pre.may_take_turn(envelope, post, outcome),
    ensures
        tracks(post.io),
{
    let owner = envelope.target;
    let (end, answer) = choose|end: TurnState<I>, answer: Result<(), RuntimeError>|
        {
            &&& #[trigger] pre.may_end_turn(owner, envelope.message, end, answer)
            &&& match answer {
                Err(error) => {
                    &&& post == pre.turn_end(owner, end, false)
                    &&& outcome == Err::<StepResult, _>(error)
                },
                Ok(_) => pre.turn_end(owner, end, false).may_finish_turn(owner, post, outcome),
            }
        };
    let turned = pre.turn_end(owner, end, false);
    lemma_turn_keeps_track(pre.io.driver@, pre.io.completions, owner, end.io.completions);
    if answer is Ok {
        let (mid, interpreted) = choose|
            mid: Snapshot<I, FakeIoDriver>,
            interpreted: Result<bool, RuntimeError>,
        |
            {
                &&& #[trigger] turned.without_effects().may_interpret(
                    owner,
                    turned.server.effects.effects,
                    mid,
                    interpreted,
                )
                &&& match interpreted {
                    Err(error) => post == mid && outcome == Err::<StepResult, _>(error),
                    Ok(false) => {
                        &&& post == mid.finalize()
                        &&& outcome == Ok::<_, RuntimeError>(StepResult::ProcessedOne)
                    },
                    Ok(true) => mid.may_end_destroyed(owner, post, outcome),
                }
            };
        lemma_interpretation_keeps_track(
            turned.without_effects(),
            owner,
            turned.server.effects.effects,
            mid,
            interpreted,
        );
        if interpreted == Ok::<bool, RuntimeError>(true) {
            let (last, destroyed) = choose|
                last: Snapshot<I, FakeIoDriver>,
                destroyed: Result<(), RuntimeError>,
            |
                {
                    &&& #[trigger] mid.may_start_destroy(owner, last, destroyed)
                    &&& match destroyed {
                        Err(error) => post == last && outcome == Err::<StepResult, _>(error),
                        Ok(_) => {
                            &&& post == last.finalize()
                            &&& outcome == Ok::<_, RuntimeError>(StepResult::ProcessedOne)
                        },
                    }
                };
            lemma_destruction_keeps_track(mid, owner, last, destroyed);
        }
    }
}

/// Every step of the server keeps driver and completions in agreement.
pub proof fn law_in_process_steps_keep_track<I: Isolate>(
    pre: Snapshot<I, FakeIoDriver>,
    post: Snapshot<I, FakeIoDriver>,
    outcome: Result<StepResult, RuntimeError>,
)
    requires
        tracks(pre.io),
        pre.may_step(post, outcome),
    ensures
        tracks(post.io),
{
    let ready = pre.finalize().route();
    if ready.server.queue.len() > 0 && ready.takes_messages(ready.server.queue[0].target) {
        lemma_whole_turn_keeps_track(ready.pop(), ready.server.queue[0], post, outcome);
    }
}

/// A run over the in-process driver fails only where a step of the server does: no step of the loop
/// fails, and driver and completions agree at its end.
pub proof fn law_in_process_runs_fail_in_steps_of_the_server<I: Isolate>(
    pre: Snapshot<I, FakeIoDriver>,
    states: Seq<Snapshot<I, FakeIoDriver>>,
    results: Seq<StepResult>,
    post: Snapshot<I, FakeIoDriver>,
    outcome: Result<usize, RuntimeError>,
)
    requires
        tracks(pre.io),
        pre.runs_through(states, results),
        states.last().may_end_run(results, post, outcome),
    ensures
        outcome matches Err(error) ==> states.last().may_step(post, Err(error)),
        tracks(post.io),
{
    lemma_rounds_keep_track(pre, states, results, results.len());
    let last = states.last();
    match outcome {
        Ok(_) => {
            if results.len() < usize::MAX {
                law_in_process_steps_keep_track(last, post, Ok(StepResult::Idle));
            }
        },
        Err(error) => {
            if last.may_step(post, Err(error)) {
                law_in_process_steps_keep_track(last, post, Err(error));
            } else {
                let (mid, result) = choose|mid: Snapshot<I, FakeIoDriver>, result: StepResult|
                    {
                        &&& #[trigger] last.may_step(mid, Ok(result))
                        &&& result != StepResult::Idle
                        &&& mid.io.may_step(post.io, Err(error))
                        &&& post.server == mid.server
                    };
                law_in_process_steps_keep_track(last, mid, Ok(result));
                law_in_process_loop_steps_succeed(mid.io, post.io, Err(error));
            }
        },
    }
}

proof fn lemma_rounds_keep_track<I: Isolate>(
    pre: Snapshot<I, FakeIoDriver>,
    states: Seq<Snapshot<I, FakeIoDriver>>,
    results: Seq<StepResult>,
    count: nat,
)
    requires
        tracks(pre.io),
        pre.runs_through(states, results),
        count <= results.len(),
    ensures
        tracks(states[count as int].io),
    decreases count,
{
    if count > 0 {
        let before = (count - 1) as nat;
        lemma_rounds_keep_track(pre, states, results, before);
        let now = states[before as int];
        let next = states[count as int];
        let result = results[before as int];
        let (mid, progressed) = choose|mid: Snapshot<I, FakeIoDriver>, progressed: bool|
            {
                &&& #[trigger] now.may_step(mid, Ok(result))
                &&& #[trigger] mid.io.may_step(next.io, Ok(progressed))
                &&& next.server == mid.server
            };
        law_in_process_steps_keep_track(now, mid, Ok(result));
        law_in_process_loop_steps_succeed(mid.io, next.io, Ok(progressed));
    }
}

} // verus!
