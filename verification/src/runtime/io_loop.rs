//! The loop that carries operations to a driver and completions back.

use std::collections::VecDeque;

use vstd::prelude::*;

use crate::arena::{Handle, MAX_SLOTS};
use crate::completion::{
    CompletionArena, CompletionError, CompletionHandle, CompletionState, CompletionsState,
};
use crate::io::{
    make_room, DriverCompletion, FakeIoDriver, IoDriver, IoError, IoResult, Operation, ENTRY_BYTES,
};

use super::context::{ContextState, IoContext};
use super::error::RuntimeError;

verus! {

/// What a batch of driver completions makes of the completions and of the list of those that are
/// ready, up to the first that is refused.
#[verifier::ext_equal]
pub struct Reaped {
    pub completions: CompletionsState<IoResult>,
    pub ready: Seq<CompletionHandle>,
    pub refused: Option<CompletionError>,
}

impl Reaped {
    /// One more completion: a cancelled one is released, any other becomes ready for its owner,
    /// and one that waits for no operation is refused.
    pub open spec fn reap(self, done: DriverCompletion) -> Self {
        match self.completions.complete(done.completion, done.result) {
            Err(error) => Reaped { refused: Some(error), ..self },
            Ok(completed) => if self.completions.status(done.completion)
                == CompletionState::Cancelling {
                Reaped { completions: completed.released(done.completion), ..self }
            } else {
                Reaped {
                    completions: completed,
                    ready: self.ready.push(done.completion),
                    ..self
                }
            },
        }
    }

    /// The whole batch, in order; nothing happens after a refusal.
    pub open spec fn reap_all(self, batch: Seq<DriverCompletion>) -> Self
        decreases batch.len(),
    {
        if batch.len() == 0 {
            self
        } else {
            let earlier = self.reap_all(batch.drop_last());
            if earlier.refused is Some {
                earlier
            } else {
                earlier.reap(batch.last())
            }
        }
    }
}

/// What an [`IoLoop`] holds.
#[verifier::ext_equal]
pub struct LoopState<D> {
    pub driver: D,
    pub completions: CompletionsState<IoResult>,
    pub ready: Seq<CompletionHandle>,
    pub ready_capacity: nat,
}

impl<D> LoopState<D> {
    /// The completions are well formed, and a list of as many as the loop takes fits in memory.
    pub open spec fn wf(self) -> bool {
        &&& self.completions.wf()
        &&& self.ready_capacity * ENTRY_BYTES <= isize::MAX
    }

    /// How many more ready completions the loop has room for.
    pub open spec fn available(self) -> nat {
        if self.ready.len() <= self.ready_capacity {
            (self.ready_capacity - self.ready.len()) as nat
        } else {
            0
        }
    }

    /// The loop before any completion of a batch was reaped.
    pub open spec fn unreaped(self) -> Reaped {
        Reaped { completions: self.completions, ready: self.ready, refused: None }
    }

    /// What a batch of driver completions makes of this loop.
    pub open spec fn reap_all(self, batch: Seq<DriverCompletion>) -> Reaped {
        self.unreaped().reap_all(batch)
    }
}

impl<D: IoDriver> LoopState<D> {
    /// One step of the loop may end in `post` and return `outcome`: the driver is asked for as
    /// many completions as there is room for, and all that it reports are reaped.
    pub open spec fn may_step(self, post: Self, outcome: Result<bool, RuntimeError>) -> bool {
        exists|batch: Seq<DriverCompletion>, answer: Result<bool, IoError>| #[trigger]
            self.steps_with(batch, answer, post, outcome)
    }

    /// Asked for as many completions as there is room for, and given a list with room for them, the
    /// driver may turn into `driver`, report `batch` and answer `answer`.
    pub open spec fn may_report(
        self,
        driver: D,
        batch: Seq<DriverCompletion>,
        answer: Result<bool, IoError>,
    ) -> bool {
        exists|list: Vec<DriverCompletion>|
            {
                &&& list@.len() == 0
                &&& crate::io::has_room(list, self.ready_capacity)
                &&& #[trigger] self.driver.may_step(
                    self.available() as usize,
                    list,
                    driver,
                    batch,
                    answer,
                )
            }
    }

    /// `post` and `outcome` are what a step gives where the driver reports `batch` and `answer`.
    pub open spec fn steps_with(
        self,
        batch: Seq<DriverCompletion>,
        answer: Result<bool, IoError>,
        post: Self,
        outcome: Result<bool, RuntimeError>,
    ) -> bool {
        let reaped = self.reap_all(batch);
        &&& self.may_report(post.driver, batch, answer)
        &&& match answer {
            Err(error) => {
                &&& post == (LoopState { driver: post.driver, ..self })
                &&& outcome == Err::<bool, _>(RuntimeError::Io(error))
            },
            Ok(progressed) => {
                &&& post == (LoopState {
                    driver: post.driver,
                    completions: reaped.completions,
                    ready: reaped.ready,
                    ..self
                })
                &&& outcome == (match reaped.refused {
                    Some(error) => Err(RuntimeError::Completion(error)),
                    None => Ok(progressed),
                })
            },
        }
    }

    /// Submitting `op` for `owner` may end in `post` and return `outcome`: a completion that cannot
    /// be submitted never reaches the driver, and one that the driver refuses is idle again.
    pub open spec fn may_submit(
        self,
        owner: Handle,
        completion: CompletionHandle,
        op: Operation,
        post: Self,
        outcome: Result<(), RuntimeError>,
    ) -> bool {
        match self.completions.submit(owner, completion) {
            Err(error) => post == self && outcome == Err::<(), _>(RuntimeError::Completion(error)),
            Ok(submitted) => exists|answer: Result<(), IoError>|
                {
                    &&& #[trigger] self.driver.may_submit(completion, op, post.driver, answer)
                    &&& match answer {
                        Ok(_) => {
                            &&& post == (LoopState {
                                driver: post.driver,
                                completions: submitted,
                                ..self
                            })
                            &&& outcome is Ok
                        },
                        Err(error) => {
                            &&& post == (LoopState { driver: post.driver, ..self })
                            &&& outcome == Err::<(), _>(RuntimeError::Io(error))
                        },
                    }
                },
        }
    }

    /// Cancelling `completion` for `owner` may end in `post` and return `outcome`: one without an
    /// operation under way is released at once, the driver is told of any other.
    pub open spec fn may_cancel(
        self,
        owner: Handle,
        completion: CompletionHandle,
        post: Self,
        outcome: Result<(), RuntimeError>,
    ) -> bool {
        match self.completions.begin_cancel(owner, completion) {
            Err(error) => post == self && outcome == Err::<(), _>(RuntimeError::Completion(error)),
            Ok((cancelling, state)) => if state == CompletionState::Cancelling {
                exists|answer: Result<(), IoError>|
                    {
                        &&& #[trigger] self.driver.may_cancel(completion, post.driver, answer)
                        &&& post == (LoopState {
                            driver: post.driver,
                            completions: cancelling,
                            ..self
                        })
                        &&& outcome == (match answer {
                            Ok(_) => Ok(()),
                            Err(error) => Err(RuntimeError::Io(error)),
                        })
                    }
            } else {
                &&& post == (LoopState {
                    completions: self.completions.released(completion),
                    ..self
                })
                &&& outcome is Ok
            },
        }
    }

    /// `has_pending` may answer `reply`.
    pub open spec fn may_answer_has_pending(self, reply: bool) -> bool {
        exists|answer: bool| #[trigger]
            self.driver.may_answer_has_pending(answer) && reply == (answer || self.ready.len() > 0)
    }
}

/// Owns a driver and the completions of all isolates.
pub struct IoLoop<D> {
    driver: D,
    completions: CompletionArena<IoResult>,
    completed: Vec<DriverCompletion>,
    ready: VecDeque<CompletionHandle>,
    ready_capacity: usize,
}

impl<D> View for IoLoop<D> {
    type V = LoopState<D>;

    closed spec fn view(&self) -> LoopState<D> {
        LoopState {
            driver: self.driver,
            completions: self.completions@,
            ready: self.ready@,
            ready_capacity: self.ready_capacity as nat,
        }
    }
}

impl<D: IoDriver> IoLoop<D> {
    pub fn new(driver: D, completion_capacity: usize) -> (result: Self)
        requires
            completion_capacity <= MAX_SLOTS,
            completion_capacity * ENTRY_BYTES <= isize::MAX,
        ensures
            result@ == (LoopState {
                driver,
                completions: CompletionsState::vacant(completion_capacity as nat),
                ready: Seq::empty(),
                ready_capacity: completion_capacity as nat,
            }),
            result@.wf(),
    {
        Self {
            driver,
            completions: CompletionArena::with_capacity(completion_capacity),
            completed: Vec::with_capacity(completion_capacity),
            ready: VecDeque::with_capacity(completion_capacity),
            ready_capacity: completion_capacity,
        }
    }

    /// Asks the driver for completions and hands them to the slots they belong to.
    pub fn step(&mut self) -> (outcome: Result<bool, RuntimeError>)
        requires
            old(self)@.wf(),
        ensures
            final(self)@.wf(),
            old(self)@.may_step(final(self)@, outcome),
    {
        let ghost pre = self@;
        self.completed.clear();
        make_room(&mut self.completed, self.ready_capacity);
        let ghost list = self.completed;
        let available: usize = self.ready_capacity.saturating_sub(self.ready.len());
        let answer = self.driver.step(available, &mut self.completed);
        let ghost batch = self.completed@;
        assert(pre.driver.may_step(pre.available() as usize, list, self.driver, batch, answer));
        let progressed = match answer {
            Ok(progressed) => progressed,
            Err(error) => {
                assert(pre.steps_with(
                    batch,
                    answer,
                    self@,
                    Err::<bool, _>(RuntimeError::Io(error)),
                ));
                return Err(RuntimeError::from(error));
            },
        };
        let refused = self.reap_completed();
        match refused {
            Some(error) => {
                assert(pre.steps_with(
                    batch,
                    answer,
                    self@,
                    Err::<bool, _>(RuntimeError::Completion(error)),
                ));
                Err(RuntimeError::from(error))
            },
            None => {
                assert(pre.steps_with(
                    batch,
                    answer,
                    self@,
                    Ok::<bool, RuntimeError>(progressed),
                ));
                Ok(progressed)
            },
        }
    }

    /// Hands the reported completions to their slots, up to the first that is refused.
    fn reap_completed(&mut self) -> (refused: Option<CompletionError>)
        requires
            old(self)@.wf(),
        ensures
            final(self)@.wf(),
            final(self)@ == (LoopState {
                completions: old(self)@.reap_all(old(self).completed@).completions,
                ready: old(self)@.reap_all(old(self).completed@).ready,
                ..old(self)@
            }),
            refused == old(self)@.reap_all(old(self).completed@).refused,
    {
        let ghost pre = self@;
        let ghost batch = self.completed@;
        let mut next: usize = 0;
        while next < self.completed.len()
            invariant
                pre == old(self)@,
                batch == old(self).completed@,
                next <= batch.len(),
                self.completed@.len() == batch.len(),
                forall|k: int|
                    next <= k < batch.len() ==> #[trigger] self.completed@[k] == batch[k],
                self@.wf(),
                self@.driver == pre.driver,
                self@.ready_capacity == pre.ready_capacity,
                pre.reap_all(batch.take(next as int)) == self@.unreaped(),
            decreases batch.len() - next,
        {
            proof {
                assert(batch.take(next + 1).drop_last() =~= batch.take(next as int));
            }
            let completion: CompletionHandle = self.completed[next].completion;
            let mut result = IoResult::Cancelled;
            std::mem::swap(&mut result, &mut self.completed[next].result);
            match self.reap_one(completion, result) {
                Some(error) => {
                    proof {
                        lemma_refusal_ends_the_batch(pre, batch, next + 1);
                    }
                    self.completed.clear();
                    return Some(error);
                },
                None => {},
            }
            next += 1;
        }
        assert(batch.take(next as int) =~= batch);
        self.completed.clear();
        None
    }

    /// Hands one reported completion to its slot.
    fn reap_one(&mut self, completion: CompletionHandle, result: IoResult) -> (refused: Option<
        CompletionError,
    >)
        requires
            old(self)@.wf(),
        ensures
            final(self)@.wf(),
            final(self).completed == old(self).completed,
            final(self)@.driver == old(self)@.driver,
            final(self)@.ready_capacity == old(self)@.ready_capacity,
            (Reaped { refused, ..final(self)@.unreaped() }) == old(self)@.unreaped().reap(
                (DriverCompletion { completion, result }),
            ),
    {
        let owner = match self.completions.owner(completion) {
            Ok(owner) => owner,
            Err(error) => return Some(error),
        };
        let state = match self.completions.state(completion) {
            Ok(state) => state,
            Err(error) => return Some(error),
        };
        match self.completions.complete(completion, result) {
            Ok(_) => {},
            Err(error) => return Some(error),
        }
        if state == CompletionState::Cancelling {
            match self.completions.release(owner, completion) {
                Ok(_) => {},
                Err(error) => return Some(error),
            }
        } else {
            self.ready.push_back(completion);
        }
        None
    }

    /// Whether operations are under way or completions wait to be routed.
    pub fn has_pending(&self) -> (reply: bool)
        ensures
            self@.may_answer_has_pending(reply),
    {
        let answer = self.driver.has_pending();
        assert(self@.driver.may_answer_has_pending(answer));
        answer || self.ready.len() > 0
    }

    pub(crate) fn submit(
        &mut self,
        owner: Handle,
        completion: CompletionHandle,
        op: Operation,
    ) -> (outcome: Result<(), RuntimeError>)
        requires
            old(self)@.wf(),
        ensures
            final(self)@.wf(),
            old(self)@.may_submit(owner, completion, op, final(self)@, outcome),
    {
        let ghost pre = self@;
        match self.completions.submit(owner, completion) {
            Ok(_) => {},
            Err(error) => return Err(RuntimeError::from(error)),
        }
        let answer = self.driver.submit(completion, op);
        assert(pre.driver.may_submit(completion, op, self.driver, answer));
        if let Err(error) = answer {
            proof {
                crate::completion::law_unsubmit_undoes_submit(pre.completions, owner, completion);
            }
            match self.completions.unsubmit(owner, completion) {
                Ok(_) => {},
                Err(error) => return Err(RuntimeError::from(error)),
            }
            return Err(RuntimeError::from(error));
        }
        Ok(())
    }

    pub(crate) fn cancel(&mut self, owner: Handle, completion: CompletionHandle) -> (outcome: Result<
        (),
        RuntimeError,
    >)
        requires
            old(self)@.wf(),
        ensures
            final(self)@.wf(),
            old(self)@.may_cancel(owner, completion, final(self)@, outcome),
    {
        let ghost pre = self@;
        let state = match self.completions.begin_cancel(owner, completion) {
            Ok(state) => state,
            Err(error) => return Err(RuntimeError::from(error)),
        };
        if state == CompletionState::Cancelling {
            let answer = self.driver.cancel(completion);
            assert(pre.driver.may_cancel(completion, self.driver, answer));
            match answer {
                Ok(_) => Ok(()),
                Err(error) => Err(RuntimeError::from(error)),
            }
        } else {
            match self.completions.release(owner, completion) {
                Ok(_) => Ok(()),
                Err(error) => Err(RuntimeError::from(error)),
            }
        }
    }

    /// Whether the driver takes `additional` more operations.
    pub(crate) fn can_submit(&self, additional: usize) -> (reply: bool)
        ensures
            self@.driver.may_answer_can_submit(additional, reply),
    {
        self.driver.can_submit(additional)
    }

    /// Puts the completions into the hands of `owner` for one turn.
    pub(crate) fn lend<'a>(&mut self, owner: Handle) -> (context: IoContext<'a>)
        ensures
            context@ == (ContextState { completions: old(self)@.completions, owner }),
            final(self)@ == (LoopState { completions: final(self)@.completions, ..old(self)@ }),
    {
        let mut completions = CompletionArena::with_capacity(0);
        std::mem::swap(&mut completions, &mut self.completions);
        IoContext::new(completions, owner)
    }

    /// Takes the completions back at the end of a turn.
    pub(crate) fn take_back(&mut self, context: IoContext<'_>)
        ensures
            final(self)@ == (LoopState { completions: context@.completions, ..old(self)@ }),
    {
        self.completions = context.into_completions();
    }

    pub(crate) fn pop_ready(&mut self) -> (result: Option<CompletionHandle>)
        ensures
            match result {
                Some(completion) => {
                    &&& old(self)@.ready.len() > 0
                    &&& completion == old(self)@.ready[0]
                    &&& final(self)@ == (LoopState { ready: old(self)@.ready.skip(1), ..old(self)@ })
                },
                None => old(self)@.ready.len() == 0 && final(self)@ == old(self)@,
            },
    {
        self.ready.pop_front()
    }

    pub(crate) fn owner(&self, completion: CompletionHandle) -> (result: Result<
        Handle,
        CompletionError,
    >)
        ensures
            match result {
                Ok(owner) => self@.completions.live(completion) && owner
                    == self@.completions.owner_of(completion),
                Err(error) => !self@.completions.live(completion) && error
                    == CompletionError::InvalidHandle,
            },
    {
        self.completions.owner(completion)
    }

    pub(crate) fn has_owner(&self, owner: Handle) -> (result: bool)
        ensures
            result == self@.completions.has_owner(owner),
    {
        self.completions.has_owner(owner)
    }
}

/// Once a completion is refused, the rest of the batch changes nothing.
proof fn lemma_refusal_ends_the_batch<D>(
    state: LoopState<D>,
    batch: Seq<DriverCompletion>,
    count: int,
)
    requires
        0 <= count <= batch.len(),
        state.reap_all(batch.take(count)).refused is Some,
    ensures
        state.reap_all(batch) == state.reap_all(batch.take(count)),
    decreases batch.len(),
{
    if count == batch.len() {
        assert(batch.take(count) =~= batch);
    } else {
        assert(batch.drop_last().take(count) =~= batch.take(count));
        lemma_refusal_ends_the_batch(state, batch.drop_last(), count);
    }
}

/// A submission that fails, whoever refused it, leaves every completion as it was.
pub proof fn law_failed_submission_leaves_completions_as_they_were<D: IoDriver>(
    pre: LoopState<D>,
    owner: Handle,
    completion: CompletionHandle,
    op: Operation,
    post: LoopState<D>,
    outcome: Result<(), RuntimeError>,
)
    requires
        pre.may_submit(owner, completion, op, post, outcome),
        outcome is Err,
    ensures
        post.completions == pre.completions,
        post.ready == pre.ready,
{
}

/// A completion that was submitted becomes ready with the result that the driver reported, which is
/// what its owner takes, and it is the last in the list of those that are ready.
pub proof fn law_completed_operation_is_ready_for_its_owner(state: Reaped, done: DriverCompletion)
    requires
        state.completions.live(done.completion),
        state.completions.status(done.completion) == CompletionState::Submitted,
    ensures
        ({
            let post = state.reap(done);
            let owner = state.completions.owner_of(done.completion);
            &&& post.refused == state.refused
            &&& post.ready == state.ready.push(done.completion)
            &&& post.completions.take_result(owner, done.completion) matches Ok((_, taken))
                && taken == done.result
        }),
{
}

/// A completion that was being cancelled is released when the driver reports it, and nobody is
/// told.
pub proof fn law_cancelled_completion_is_released_when_reported(
    state: Reaped,
    done: DriverCompletion,
)
    requires
        state.completions.wf(),
        state.completions.live(done.completion),
        state.completions.status(done.completion) == CompletionState::Cancelling,
    ensures
        state.reap(done).refused == state.refused,
        state.reap(done).ready == state.ready,
        !state.reap(done).completions.live(done.completion),
        state.reap(done).completions.len == state.completions.len - 1,
{
    crate::completion::lemma_live_means_len(
        state.completions,
        done.completion.index as int,
    );
}

/// A report for a completion that waits for no operation changes nothing.
pub proof fn law_unexpected_report_is_refused(state: Reaped, done: DriverCompletion)
    requires
        !state.completions.live(done.completion) || state.completions.status(done.completion)
            == CompletionState::Idle || state.completions.status(done.completion)
            == CompletionState::Ready,
    ensures
        state.reap(done).completions == state.completions,
        state.reap(done).ready == state.ready,
        state.reap(done).refused is Some,
{
}

/// `batch` holds what the first operations pending in `driver` end with, in order.
pub open spec fn reports_first(driver: FakeIoDriver, batch: Seq<DriverCompletion>) -> bool {
    &&& batch.len() <= driver@.pending.len()
    &&& forall|k: int|
        0 <= k < batch.len() ==> (#[trigger] batch[k]).completion == driver@.pending[k].completion
            && driver@.pending[k].completes_with(batch[k].result)
}

/// A step of the loop over the in-process driver never fails on account of the driver: as many of
/// the oldest operations complete as there is room for ready completions, all of them are reaped,
/// and unless one of them is refused the step says whether there were any.
pub proof fn law_in_process_loop_steps_report_in_full(
    pre: LoopState<FakeIoDriver>,
    post: LoopState<FakeIoDriver>,
    outcome: Result<bool, RuntimeError>,
)
    requires
        pre.may_step(post, outcome),
    ensures
        ({
            let count = pre.driver@.wanted(pre.available() as usize);
            &&& post.driver@.pending == pre.driver@.pending.skip(count as int)
            &&& post.driver@.capacity == pre.driver@.capacity
            &&& exists|batch: Seq<DriverCompletion>|
                {
                    &&& #[trigger] reports_first(pre.driver, batch)
                    &&& batch.len() == count
                    &&& pre.steps_with(batch, Ok(count > 0), post, outcome)
                }
        }),
        !(outcome matches Err(RuntimeError::Io(_))),
{
    let (batch, answer) = choose|batch: Seq<DriverCompletion>, answer: Result<bool, IoError>|
        #[trigger] pre.steps_with(batch, answer, post, outcome);
    let asked = pre.available() as usize;
    let list = choose|list: Vec<DriverCompletion>|
        {
            &&& list@.len() == 0
            &&& crate::io::has_room(list, pre.ready_capacity)
            &&& #[trigger] pre.driver.may_step(asked, list, post.driver, batch, answer)
        };
    crate::io::law_in_process_steps_report_in_full(
        pre.driver,
        asked,
        list,
        post.driver,
        batch,
        answer,
    );
    assert(reports_first(pre.driver, batch));
}

/// A driver that reports no more completions than it was asked for never takes the list of ready
/// ones beyond its capacity.
pub proof fn law_ready_list_stays_within_its_capacity<D>(
    state: LoopState<D>,
    batch: Seq<DriverCompletion>,
)
    requires
        state.ready.len() <= state.ready_capacity,
        batch.len() <= state.available(),
    ensures
        state.reap_all(batch).ready.len() <= state.ready_capacity,
{
    lemma_batch_adds_at_most_its_length(state.unreaped(), batch);
}

proof fn lemma_batch_adds_at_most_its_length(state: Reaped, batch: Seq<DriverCompletion>)
    ensures
        state.reap_all(batch).ready.len() <= state.ready.len() + batch.len(),
    decreases batch.len(),
{
    if batch.len() > 0 {
        lemma_batch_adds_at_most_its_length(state, batch.drop_last());
    }
}

} // verus!
