//! Operations that a driver performs, the driver interface, and an in-process driver.

use std::collections::VecDeque;

use vstd::prelude::*;

use crate::completion::CompletionHandle;

verus! {

/// A file descriptor.
pub type RawFdLike = i32;

#[derive(Clone, Debug, PartialEq, Eq)]
pub struct AcceptOp {
    pub listener: RawFdLike,
}

#[derive(Clone, Debug, PartialEq, Eq)]
pub struct RecvOp {
    pub fd: RawFdLike,
    pub buf: Vec<u8>,
    pub flags: i32,
}

#[derive(Clone, Debug, PartialEq, Eq)]
pub struct SendOp {
    pub fd: RawFdLike,
    pub buf: Vec<u8>,
    pub flags: i32,
}

#[derive(Clone, Debug, PartialEq, Eq)]
pub struct TimerOp {
    pub ticks: u32,
}

#[derive(Clone, Debug, PartialEq, Eq)]
pub enum Operation {
    Accept(AcceptOp),
    Recv(RecvOp),
    Send(SendOp),
    Timer(TimerOp),
}

#[derive(Clone, Copy, Debug, PartialEq, Eq, Structural)]
pub enum IoError {
    DriverFull,
    CompletionQueueFull,
    UnknownCompletion,
}

#[derive(Debug, PartialEq, Eq)]
pub enum IoResult {
    Accept(Result<RawFdLike, IoError>),
    Recv(Result<Vec<u8>, IoError>),
    Send(Result<usize, IoError>),
    Timer(Result<(), IoError>),
    Cancelled,
}

impl Clone for IoResult {
    /// An equal result; received bytes are copied one by one.
    fn clone(&self) -> (copy: Self)
        ensures
            match *self {
                IoResult::Recv(Ok(bytes)) => copy matches IoResult::Recv(Ok(copied)) && copied@
                    == bytes@,
                _ => copy == *self,
            },
    {
        match self {
            IoResult::Accept(outcome) => IoResult::Accept(*outcome),
            IoResult::Recv(Ok(bytes)) => {
                let copied = bytes.clone();
                IoResult::Recv(Ok(copied))
            },
            IoResult::Recv(Err(error)) => IoResult::Recv(Err(*error)),
            IoResult::Send(outcome) => IoResult::Send(*outcome),
            IoResult::Timer(outcome) => IoResult::Timer(*outcome),
            IoResult::Cancelled => IoResult::Cancelled,
        }
    }
}

/// The end of an operation, as a driver reports it.
#[derive(Clone, Debug, PartialEq, Eq)]
pub struct DriverCompletion {
    pub completion: CompletionHandle,
    pub result: IoResult,
}

/// Performs operations and reports how they ended.
///
/// A driver may answer as the outside world has it, so what it does is stated as a relation
/// between its state before a call, the arguments, its state after the call and the reply. Each
/// relation is the implementer's own; one that is not stated allows anything.
pub trait IoDriver: Sized {
    /// `can_submit(additional)` may answer `reply`.
    open spec fn may_answer_can_submit(self, additional: usize, reply: bool) -> bool {
        true
    }

    /// `submit` may leave the driver as `post` and return `outcome`.
    open spec fn may_submit(
        self,
        completion: CompletionHandle,
        op: Operation,
        post: Self,
        outcome: Result<(), IoError>,
    ) -> bool {
        true
    }

    /// `cancel` may leave the driver as `post` and return `outcome`.
    open spec fn may_cancel(
        self,
        completion: CompletionHandle,
        post: Self,
        outcome: Result<(), IoError>,
    ) -> bool {
        true
    }

    /// `step` may leave the driver as `post`, fill `list` up to `after` and return `outcome`.
    open spec fn may_step(
        self,
        max_completions: usize,
        list: Vec<DriverCompletion>,
        post: Self,
        after: Seq<DriverCompletion>,
        outcome: Result<bool, IoError>,
    ) -> bool {
        true
    }

    /// `has_pending` may answer `reply`.
    open spec fn may_answer_has_pending(self, reply: bool) -> bool {
        true
    }

    /// Whether `additional` more operations can be submitted.
    fn can_submit(&self, additional: usize) -> (reply: bool)
        ensures
            self.may_answer_can_submit(additional, reply),
    ;

    fn submit(&mut self, completion: CompletionHandle, op: Operation) -> (outcome: Result<
        (),
        IoError,
    >)
        ensures
            old(self).may_submit(completion, op, *final(self), outcome),
    ;

    fn cancel(&mut self, completion: CompletionHandle) -> (outcome: Result<(), IoError>)
        ensures
            old(self).may_cancel(completion, *final(self), outcome),
    ;

    /// Appends up to `max_completions` completions to `completed`, and says whether there were
    /// any.
    fn step(&mut self, max_completions: usize, completed: &mut Vec<DriverCompletion>) -> (outcome:
        Result<bool, IoError>)
        ensures
            old(self).may_step(
                max_completions,
                *old(completed),
                *final(self),
                final(completed)@,
                outcome,
            ),
    ;

    fn has_pending(&self) -> (reply: bool)
        ensures
            self.may_answer_has_pending(reply),
    ;
}

/// An operation that a [`FakeIoDriver`] has yet to complete.
pub struct PendingOperation {
    pub completion: CompletionHandle,
    pub op: Operation,
    pub cancelled: bool,
}

impl PendingOperation {
    /// The operation completes with `result`: a cancelled one says so, an accept gives the
    /// listener back, a receive gives nothing, a send has sent all it was given, and a timer has
    /// fired.
    pub open spec fn completes_with(self, result: IoResult) -> bool {
        if self.cancelled {
            result == IoResult::Cancelled
        } else {
            match self.op {
                Operation::Accept(accept) => result == IoResult::Accept(Ok(accept.listener)),
                Operation::Recv(_) => result matches IoResult::Recv(Ok(bytes)) && bytes@.len() == 0,
                Operation::Send(send) => result == IoResult::Send(Ok(send.buf.len())),
                Operation::Timer(_) => result == IoResult::Timer(Ok(())),
            }
        }
    }
}

/// What a [`FakeIoDriver`] holds.
#[verifier::ext_equal]
pub struct FakeDriverState {
    pub pending: Seq<PendingOperation>,
    pub capacity: nat,
}

impl FakeDriverState {
    /// Position of the first pending operation of `completion`.
    pub open spec fn position(self, completion: CompletionHandle, at: int) -> bool {
        &&& 0 <= at < self.pending.len()
        &&& self.pending[at].completion == completion
        &&& forall|k: int| 0 <= k < at ==> (#[trigger] self.pending[k]).completion != completion
    }

    pub open spec fn knows(self, completion: CompletionHandle) -> bool {
        exists|k: int|
            0 <= k < self.pending.len() && (#[trigger] self.pending[k]).completion == completion
    }

    /// There is room for `additional` operations. A driver of the largest capacity that there is
    /// takes any number.
    pub open spec fn can_submit(self, additional: usize) -> bool {
        self.pending.len() + additional <= self.capacity || self.capacity == usize::MAX
    }

    /// The driver after `op` was added to the back of the queue.
    pub open spec fn submit(self, completion: CompletionHandle, op: Operation) -> Self {
        FakeDriverState {
            pending: self.pending.push(PendingOperation { completion, op, cancelled: false }),
            ..self
        }
    }

    /// The driver with the operation at `at` marked as cancelled.
    pub open spec fn cancel_at(self, at: int) -> Self {
        FakeDriverState {
            pending: self.pending.update(
                at,
                PendingOperation { cancelled: true, ..self.pending[at] },
            ),
            ..self
        }
    }

    /// How many operations one step tries to complete.
    pub open spec fn wanted(self, max_completions: usize) -> nat {
        if self.pending.len() <= max_completions {
            self.pending.len()
        } else {
            max_completions as nat
        }
    }

    /// How many operations one step completes where `completed` has room for `limit` entries and
    /// holds `held`.
    pub open spec fn reaped(self, max_completions: usize, limit: usize, held: nat) -> nat {
        if limit <= held {
            0
        } else if self.wanted(max_completions) <= limit - held {
            self.wanted(max_completions)
        } else {
            (limit - held) as nat
        }
    }

    /// One step into a list that holds `before` and has room for `limit` entries: the oldest
    /// operations complete in order, as many as are wanted and fit.
    pub open spec fn steps_within(
        self,
        max_completions: usize,
        limit: usize,
        before: Seq<DriverCompletion>,
        post: Self,
        after: Seq<DriverCompletion>,
        outcome: Result<bool, IoError>,
    ) -> bool {
        let count = self.reaped(max_completions, limit, before.len());
        &&& post.pending == self.pending.skip(count as int)
        &&& post.capacity == self.capacity
        &&& after.len() == before.len() + count
        &&& after.take(before.len() as int) == before
        &&& forall|k: int|
            0 <= k < count ==> {
                &&& (#[trigger] self.pending[k]).completion == after[before.len() + k].completion
                &&& self.pending[k].completes_with(after[before.len() + k].result)
            }
        &&& outcome == (if count < self.wanted(max_completions) {
            Err::<bool, IoError>(IoError::CompletionQueueFull)
        } else {
            Ok::<bool, IoError>(count > 0)
        })
    }
}

/// A driver without an outside world: each step completes the oldest operations.
pub struct FakeIoDriver {
    pending: VecDeque<PendingOperation>,
    capacity: usize,
}

impl View for FakeIoDriver {
    type V = FakeDriverState;

    closed spec fn view(&self) -> FakeDriverState {
        FakeDriverState { pending: self.pending@, capacity: self.capacity as nat }
    }
}

impl FakeIoDriver {
    pub fn new(capacity: usize) -> (driver: Self)
        ensures
            driver@ == (FakeDriverState { pending: Seq::empty(), capacity: capacity as nat }),
    {
        Self { pending: VecDeque::with_capacity(capacity), capacity }
    }

    /// One step into a list that has room for `limit` entries.
    pub fn step_within(
        &mut self,
        max_completions: usize,
        limit: usize,
        completed: &mut Vec<DriverCompletion>,
    ) -> (outcome: Result<bool, IoError>)
        requires
            old(completed)@.len() <= limit,
        ensures
            old(self)@.steps_within(
                max_completions,
                limit,
                old(completed)@,
                final(self)@,
                final(completed)@,
                outcome,
            ),
    {
        let ghost pre = self@;
        let ghost before = completed@;
        let wanted: usize = if self.pending.len() <= max_completions {
            self.pending.len()
        } else {
            max_completions
        };
        let mut done: usize = 0;
        while done < wanted
            invariant
                pre == old(self)@,
                before == old(completed)@,
                done <= wanted,
                wanted == pre.wanted(max_completions),
                before.len() + done <= limit,
                self.capacity == pre.capacity,
                self.pending@ == pre.pending.skip(done as int),
                completed@.len() == before.len() + done,
                completed@.take(before.len() as int) =~= before,
                forall|k: int|
                    0 <= k < done ==> {
                        &&& (#[trigger] pre.pending[k]).completion == completed@[before.len()
                            + k].completion
                        &&& pre.pending[k].completes_with(completed@[before.len() + k].result)
                    },
            decreases wanted - done,
        {
            if completed.len() == limit {
                return Err(IoError::CompletionQueueFull);
            }
            if let Some(operation) = self.pending.pop_front() {
                let result = if operation.cancelled {
                    IoResult::Cancelled
                } else {
                    complete_fake_operation(operation.op)
                };
                completed.push(DriverCompletion { completion: operation.completion, result });
            }
            done += 1;
        }
        Ok(wanted > 0)
    }
}

impl IoDriver for FakeIoDriver {
    open spec fn may_answer_can_submit(self, additional: usize, reply: bool) -> bool {
        reply == self@.can_submit(additional)
    }

    open spec fn may_submit(
        self,
        completion: CompletionHandle,
        op: Operation,
        post: Self,
        outcome: Result<(), IoError>,
    ) -> bool {
        if self@.can_submit(1) {
            outcome is Ok && post@ == self@.submit(completion, op)
        } else {
            outcome == Err::<(), _>(IoError::DriverFull) && post@ == self@
        }
    }

    open spec fn may_cancel(
        self,
        completion: CompletionHandle,
        post: Self,
        outcome: Result<(), IoError>,
    ) -> bool {
        if self@.knows(completion) {
            outcome is Ok && exists|at: int|
                #[trigger] self@.position(completion, at) && post@ == self@.cancel_at(at)
        } else {
            outcome == Err::<(), _>(IoError::UnknownCompletion) && post@ == self@
        }
    }

    open spec fn may_step(
        self,
        max_completions: usize,
        list: Vec<DriverCompletion>,
        post: Self,
        after: Seq<DriverCompletion>,
        outcome: Result<bool, IoError>,
    ) -> bool {
        exists|limit: usize| #[trigger]
            may_hold(list, limit) && self@.steps_within(
                max_completions,
                limit,
                list@,
                post@,
                after,
                outcome,
            )
    }

    open spec fn may_answer_has_pending(self, reply: bool) -> bool {
        reply == (self@.pending.len() > 0)
    }

    fn can_submit(&self, additional: usize) -> (reply: bool) {
        self.pending.len().saturating_add(additional) <= self.capacity
    }

    fn submit(&mut self, completion: CompletionHandle, op: Operation) -> (outcome: Result<
        (),
        IoError,
    >) {
        if !self.can_submit(1) {
            return Err(IoError::DriverFull);
        }
        self.pending.push_back(PendingOperation { completion, op, cancelled: false });
        Ok(())
    }

    fn cancel(&mut self, completion: CompletionHandle) -> (outcome: Result<(), IoError>) {
        let ghost pre = self@;
        let mut at: usize = 0;
        while at < self.pending.len()
            invariant
                pre == old(self)@,
                self@ == pre,
                at <= self.pending.len(),
                forall|k: int|
                    0 <= k < at ==> (#[trigger] self@.pending[k]).completion != completion,
            decreases self.pending.len() - at,
        {
            if self.pending[at].completion == completion {
                if let Some(operation) = self.pending.remove(at) {
                    self.pending.insert(
                        at,
                        PendingOperation {
                            completion: operation.completion,
                            op: operation.op,
                            cancelled: true,
                        },
                    );
                }
                assert(pre.position(completion, at as int));
                assert(self@ =~= pre.cancel_at(at as int));
                return Ok(());
            }
            at += 1;
        }
        Err(IoError::UnknownCompletion)
    }

    /// One step into `completed`, which is not made to grow.
    fn step(&mut self, max_completions: usize, completed: &mut Vec<DriverCompletion>) -> (outcome:
        Result<bool, IoError>) {
        let limit: usize = completion_capacity(completed);
        assert(may_hold(*completed, limit));
        self.step_within(max_completions, limit, completed)
    }

    fn has_pending(&self) -> (reply: bool) {
        self.pending.len() > 0
    }
}

/// `list` can hold `limit` entries without allocating again, as `Vec::capacity` may say of it.
pub closed spec fn may_hold(list: Vec<DriverCompletion>, limit: usize) -> bool {
    call_ensures(completion_capacity, (&list,), limit)
}

/// `list` can hold at least `room` entries without allocating again.
pub open spec fn has_room(list: Vec<DriverCompletion>, room: nat) -> bool {
    forall|limit: usize| #[trigger] may_hold(list, limit) ==> room <= limit
}

/// A step of the in-process driver into a list with room for all that it is asked for succeeds: the
/// oldest operations complete, in order and as many as were asked for, and it says whether there
/// were any.
pub proof fn law_in_process_steps_report_in_full(
    pre: FakeIoDriver,
    max_completions: usize,
    list: Vec<DriverCompletion>,
    post: FakeIoDriver,
    after: Seq<DriverCompletion>,
    outcome: Result<bool, IoError>,
)
    requires
        pre.may_step(max_completions, list, post, after, outcome),
        has_room(list, list@.len() + max_completions as nat),
    ensures
        ({
            let count = pre@.wanted(max_completions);
            let held = list@.len() as int;
            &&& outcome == Ok::<bool, IoError>(count > 0)
            &&& post@.pending == pre@.pending.skip(count as int)
            &&& post@.capacity == pre@.capacity
            &&& after.len() == held + count
            &&& after.take(held) == list@
            &&& forall|k: int|
                0 <= k < count ==> {
                    &&& (#[trigger] pre@.pending[k]).completion == after[held + k].completion
                    &&& pre@.pending[k].completes_with(after[held + k].result)
                }
        }),
{
}

/// `Vec::capacity`: the number of elements that the list can hold without allocating again, which
/// is never below its length.
#[verifier::external_body]
fn completion_capacity(completed: &Vec<DriverCompletion>) -> (capacity: usize)
    ensures
        completed@.len() <= capacity,
{
    completed.capacity()
}

/// More bytes than one entry of a list of completions takes up.
pub const ENTRY_BYTES: usize = 64;

/// `Vec::reserve_exact`: afterwards the list holds what it held, and its capacity is at least its
/// length and `additional` together. The call panics where a list of that capacity would take up
/// more than `isize::MAX` bytes.
#[verifier::external_body]
pub(crate) fn make_room(list: &mut Vec<DriverCompletion>, additional: usize)
    requires
        (old(list)@.len() + additional) * ENTRY_BYTES <= isize::MAX,
    ensures
        final(list)@ == old(list)@,
        has_room(*final(list), old(list)@.len() + additional as nat),
{
    list.reserve_exact(additional);
}

fn complete_fake_operation(op: Operation) -> (result: IoResult)
    ensures
        forall|completion: CompletionHandle|
            (#[trigger] PendingOperation {
                completion,
                op,
                cancelled: false,
            }.completes_with(result)),
{
    match op {
        Operation::Accept(accept) => IoResult::Accept(Ok(accept.listener)),
        Operation::Recv(_) => IoResult::Recv(Ok(Vec::new())),
        Operation::Send(send) => IoResult::Send(Ok(send.buf.len())),
        Operation::Timer(_) => IoResult::Timer(Ok(())),
    }
}

/// The in-process driver keeps what is submitted, in order: the operation stands behind those that
/// were pending, under its completion and as it was given. It is refused only where the driver holds
/// as many as it takes, and then nothing changes.
pub proof fn law_in_process_driver_keeps_operations_in_order(
    pre: FakeIoDriver,
    completion: CompletionHandle,
    op: Operation,
    post: FakeIoDriver,
    outcome: Result<(), IoError>,
)
    requires
        pre@.pending.len() <= pre@.capacity,
        pre@.capacity < usize::MAX,
        pre.may_submit(completion, op, post, outcome),
    ensures
        post@.capacity == pre@.capacity,
        match outcome {
            Ok(_) => {
                let held = pre@.pending.len() as int;
                &&& held < pre@.capacity
                &&& post@.pending.len() == held + 1
                &&& pre@.pending.is_prefix_of(post@.pending)
                &&& post@.pending[held].completion == completion
                &&& post@.pending[held].op == op
                &&& !post@.pending[held].cancelled
            },
            Err(error) => {
                &&& pre@.pending.len() == pre@.capacity
                &&& error == IoError::DriverFull
                &&& post@.pending == pre@.pending
            },
        },
{
}

/// The in-process driver says that there is room for more operations exactly where they and those
/// that are pending are no more than it takes.
pub proof fn law_in_process_driver_says_what_it_has_room_for(
    driver: FakeIoDriver,
    additional: usize,
    reply: bool,
)
    requires
        driver@.capacity < usize::MAX,
        driver.may_answer_can_submit(additional, reply),
    ensures
        reply == (driver@.pending.len() + additional <= driver@.capacity),
{
}

/// Cancelling marks the first operation that is pending for the completion, and nothing else; where
/// none is, that is an error, and nothing changes. The operation stays in its place.
pub proof fn law_in_process_driver_marks_the_cancelled_operation(
    pre: FakeIoDriver,
    completion: CompletionHandle,
    post: FakeIoDriver,
    outcome: Result<(), IoError>,
)
    requires
        pre.may_cancel(completion, post, outcome),
    ensures
        post@.capacity == pre@.capacity,
        post@.pending.len() == pre@.pending.len(),
        forall|k: int|
            0 <= k < pre@.pending.len() ==> {
                let first = pre@.pending[k].completion == completion && forall|j: int|
                    0 <= j < k ==> (#[trigger] pre@.pending[j]).completion != completion;
                &&& (#[trigger] post@.pending[k]).completion == pre@.pending[k].completion
                &&& post@.pending[k].op == pre@.pending[k].op
                &&& post@.pending[k].cancelled == (pre@.pending[k].cancelled || first)
            },
        outcome is Ok <==> exists|k: int|
            0 <= k < pre@.pending.len() && (#[trigger] pre@.pending[k]).completion == completion,
        outcome matches Err(error) ==> error == IoError::UnknownCompletion,
{
    if pre@.knows(completion) {
        let at = choose|at: int| #[trigger]
            pre@.position(completion, at) && post@ == pre@.cancel_at(at);
        assert forall|k: int| 0 <= k < pre@.pending.len() implies {
            let first = pre@.pending[k].completion == completion && forall|j: int|
                0 <= j < k ==> (#[trigger] pre@.pending[j]).completion != completion;
            &&& (#[trigger] post@.pending[k]).completion == pre@.pending[k].completion
            &&& post@.pending[k].op == pre@.pending[k].op
            &&& post@.pending[k].cancelled == (pre@.pending[k].cancelled || first)
        } by {
            if k > at {
                assert(pre@.pending[at].completion == completion);
            }
        }
    } else {
        assert forall|k: int| 0 <= k < pre@.pending.len() implies {
            let first = pre@.pending[k].completion == completion && forall|j: int|
                0 <= j < k ==> (#[trigger] pre@.pending[j]).completion != completion;
            &&& (#[trigger] post@.pending[k]).completion == pre@.pending[k].completion
            &&& post@.pending[k].op == pre@.pending[k].op
            &&& post@.pending[k].cancelled == (pre@.pending[k].cancelled || first)
        } by {
            assert(pre@.pending[k].completion != completion);
        }
    }
}

/// A step of the in-process driver takes the oldest operations, as many as it is asked for and has,
/// off the front, and leaves the others as they are. Each of them is reported once, in order: a
/// cancelled one as cancelled, an accept with its listener, a receive with no bytes, a send with the
/// number of bytes that it was given, and a timer as fired.
pub proof fn law_in_process_driver_completes_the_oldest_operations(
    pre: FakeIoDriver,
    max_completions: usize,
    list: Vec<DriverCompletion>,
    post: FakeIoDriver,
    after: Seq<DriverCompletion>,
    outcome: Result<bool, IoError>,
)
    requires
        pre.may_step(max_completions, list, post, after, outcome),
        has_room(list, list@.len() + max_completions as nat),
    ensures
        ({
            let held = list@.len() as int;
            let count = after.len() - held;
            &&& count >= 0
            &&& count <= max_completions
            &&& count <= pre@.pending.len()
            &&& count == max_completions || count == pre@.pending.len()
            &&& outcome == Ok::<bool, IoError>(count > 0)
            &&& list@.is_prefix_of(after)
            &&& post@.capacity == pre@.capacity
            &&& post@.pending.len() == pre@.pending.len() - count
            &&& forall|k: int|
                0 <= k < post@.pending.len() ==> (#[trigger] post@.pending[k]) == pre@.pending[count
                    + k]
            &&& forall|k: int|
                #![trigger pre@.pending[k]]
                0 <= k < count ==> {
                    let ended = after[held + k];
                    &&& ended.completion == pre@.pending[k].completion
                    &&& ends_as(pre@.pending[k], ended.result)
                }
        }),
{
    law_in_process_steps_report_in_full(pre, max_completions, list, post, after, outcome);
    let held = list@.len() as int;
    assert(after.take(held) == list@);
    assert forall|k: int| 0 <= k < held implies #[trigger] list@[k] == after[k] by {
        assert(after.take(held)[k] == after[k]);
    }
    assert(list@ =~= after.subrange(0, held));
}

/// The in-process driver has something pending exactly while an operation has not been reported.
pub proof fn law_in_process_driver_says_what_is_pending(driver: FakeIoDriver, reply: bool)
    requires
        driver.may_answer_has_pending(reply),
    ensures
        reply <==> driver@.pending.len() > 0,
{
}

/// How the operation ends that is pending as `operation`.
pub open spec fn ends_as(operation: PendingOperation, result: IoResult) -> bool {
    if operation.cancelled {
        result is Cancelled
    } else {
        match operation.op {
            Operation::Accept(accept) => result matches IoResult::Accept(Ok(fd)) && fd
                == accept.listener,
            Operation::Recv(_) => result matches IoResult::Recv(Ok(bytes)) && bytes@.len() == 0,
            Operation::Send(send) => result matches IoResult::Send(Ok(sent)) && sent
                == send.buf@.len(),
            Operation::Timer(_) => result matches IoResult::Timer(Ok(_)),
        }
    }
}

/// A step into a list with limited room never goes beyond it: it completes the oldest operations
/// until as many have ended as were asked for, or none is left, or the list is full. It fails only
/// where the list was full before that, and what ended until then is reported all the same.
pub proof fn law_step_completes_what_fits(
    pre: FakeDriverState,
    max_completions: usize,
    limit: usize,
    before: Seq<DriverCompletion>,
    post: FakeDriverState,
    after: Seq<DriverCompletion>,
    outcome: Result<bool, IoError>,
)
    requires
        before.len() <= limit,
        pre.steps_within(max_completions, limit, before, post, after, outcome),
    ensures
        ({
            let held = before.len() as int;
            let count = after.len() - held;
            &&& 0 <= count <= max_completions
            &&& count <= pre.pending.len()
            &&& after.len() <= limit
            &&& count == max_completions || count == pre.pending.len() || after.len() == limit
            &&& outcome == if count < max_completions && count < pre.pending.len() {
                Err::<bool, IoError>(IoError::CompletionQueueFull)
            } else {
                Ok::<bool, IoError>(count > 0)
            }
            &&& before.is_prefix_of(after)
            &&& post.capacity == pre.capacity
            &&& post.pending.len() == pre.pending.len() - count
            &&& forall|k: int|
                0 <= k < post.pending.len() ==> (#[trigger] post.pending[k]) == pre.pending[count
                    + k]
            &&& forall|k: int|
                #![trigger pre.pending[k]]
                0 <= k < count ==> after[held + k].completion == pre.pending[k].completion
                    && ends_as(pre.pending[k], after[held + k].result)
        }),
{
    let held = before.len() as int;
    assert forall|k: int| 0 <= k < held implies #[trigger] before[k] == after[k] by {
        assert(after.take(held)[k] == after[k]);
    }
    assert(before =~= after.subrange(0, held));
}

} // verus!
