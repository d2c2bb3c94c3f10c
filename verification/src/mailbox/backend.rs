//! Where armed waits complete: the interface, and an in-process backend.

use std::collections::VecDeque;

use vstd::prelude::*;

use super::effects::{OpToken, Wait};
use super::error::RuntimeError;

verus! {

/// Source of completions.
///
/// A backend knows tokens and the resources that they wait on. It knows nothing of isolates or of
/// messages: when an operation is ready, `poll` reports its token, and the scheduler decides what
/// to deliver and where.
///
/// A backend may answer as the outside world has it, so what it does is stated as a relation
/// between its state before a call, the arguments, its state after the call and the reply. Each
/// relation is the implementer's own; one that is not stated allows anything.
pub trait WaitBackend: Sized {
    /// `submit` may leave the backend as `post` and return `outcome`.
    open spec fn may_submit(
        self,
        token: OpToken,
        wait: Wait,
        post: Self,
        outcome: Result<(), RuntimeError>,
    ) -> bool {
        true
    }

    /// `cancel` may leave the backend as `post`.
    open spec fn may_cancel(self, token: OpToken, post: Self) -> bool {
        true
    }

    /// `poll` may leave the backend as `post`, turn the tokens `before` into `after` and return
    /// `outcome`.
    open spec fn may_poll(
        self,
        before: Seq<OpToken>,
        post: Self,
        after: Seq<OpToken>,
        outcome: Result<bool, RuntimeError>,
    ) -> bool {
        true
    }

    /// `has_pending` may answer `reply`.
    open spec fn may_answer_has_pending(self, reply: bool) -> bool {
        true
    }

    /// `can_submit(additional)` may answer `reply`.
    open spec fn may_answer_can_submit(self, additional: usize, reply: bool) -> bool {
        true
    }

    /// `block_until_event` may leave the backend as `post` and return `outcome`.
    open spec fn may_block(self, post: Self, outcome: Result<bool, RuntimeError>) -> bool {
        true
    }

    /// Arms an operation under `token`.
    fn submit(&mut self, token: OpToken, wait: Wait) -> (outcome: Result<(), RuntimeError>)
        ensures
            old(self).may_submit(token, wait, *final(self), outcome),
    ;

    /// Cancels an armed operation. Unknown tokens are ignored.
    fn cancel(&mut self, token: OpToken)
        ensures
            old(self).may_cancel(token, *final(self)),
    ;

    /// Fires the operations that are ready, appending their tokens to `ready`, and says whether
    /// there was any progress: a completion fired or a timer ticked.
    fn poll(&mut self, ready: &mut Vec<OpToken>) -> (outcome: Result<bool, RuntimeError>)
        ensures
            old(self).may_poll(old(ready)@, *final(self), final(ready)@, outcome),
    ;

    fn has_pending(&self) -> (reply: bool)
        ensures
            self.may_answer_has_pending(reply),
    ;

    /// Whether `additional` more waits can be submitted.
    ///
    /// Asked before the effects of a turn are applied, so that a turn applies as a whole or not at
    /// all.
    fn can_submit(&self, additional: usize) -> (reply: bool)
        ensures
            self.may_answer_can_submit(additional, reply),
    ;

    /// Blocks until an outside event is there; `true` says that the caller should poll again.
    ///
    /// A backend without an outside event source does not block, and answers `false`.
    fn block_until_event(&mut self) -> (outcome: Result<bool, RuntimeError>)
        ensures
            old(self).may_block(*final(self), outcome) || (*final(self) == *old(self) && outcome
                == Ok::<_, RuntimeError>(false)),
        default_ensures
            *final(self) == *old(self),
            outcome == Ok::<_, RuntimeError>(false),
    {
        Ok(false)
    }
}

/// What waiting for an outside event may do: which backends it leaves behind, and what it gives.
pub type Waiting<B> = spec_fn(B, B, Result<bool, RuntimeError>) -> bool;

/// What all backends have in common when they wait for an outside event: they do as `may_block`
/// says, or, where they leave the method out, do not wait.
pub open spec fn may_wait<B: WaitBackend>(
    pre: B,
    post: B,
    outcome: Result<bool, RuntimeError>,
) -> bool {
    pre.may_block(post, outcome) || (post == pre && outcome == Ok::<_, RuntimeError>(false))
}

/// `waits` allows no more than what all backends have in common.
pub open spec fn waits_as_stated<B: WaitBackend>(waits: Waiting<B>) -> bool {
    forall|pre: B, post: B, outcome: Result<bool, RuntimeError>| #[trigger]
        waits(pre, post, outcome) ==> may_wait(pre, post, outcome)
}

/// What `block_until_event` does is what is stated of all backends.
pub proof fn law_backends_wait_as_stated<B: WaitBackend>()
    ensures
        waits_as_stated(
            |before: B, after: B, outcome: Result<bool, RuntimeError>|
                exists|backend: &mut B|
                    *backend == before && *final(backend) == after && #[trigger] call_ensures(
                        B::block_until_event,
                        (backend,),
                        outcome,
                    ),
        ),
{
}

/// Cancelling `tokens` in order may take a backend from `pre` to `post`.
pub open spec fn may_cancel_all<B: WaitBackend>(pre: B, tokens: Seq<OpToken>, post: B) -> bool
    decreases tokens.len(),
{
    if tokens.len() == 0 {
        post == pre
    } else {
        exists|mid: B|
            may_cancel_all(pre, tokens.drop_last(), mid) && #[trigger] mid.may_cancel(
                tokens.last(),
                post,
            )
    }
}

/// What a [`FakeWaitBackend`] holds.
#[verifier::ext_equal]
pub struct FakeBackendState {
    pub pending: Seq<(OpToken, Wait)>,
    pub capacity: nat,
}

/// The wait completes at the next poll.
pub open spec fn fires(wait: Wait) -> bool {
    match wait {
        Wait::Timer { ticks } => ticks <= 1,
        _ => true,
    }
}

/// What is left of a wait that does not complete at the next poll.
pub open spec fn ticked(wait: Wait) -> Wait {
    match wait {
        Wait::Timer { ticks } => Wait::Timer { ticks: (ticks - 1) as u32 },
        other => other,
    }
}

/// The tokens of the waits that complete at the next poll, in order.
pub open spec fn fired_tokens(pending: Seq<(OpToken, Wait)>) -> Seq<OpToken>
    decreases pending.len(),
{
    if pending.len() == 0 {
        Seq::empty()
    } else {
        let earlier = fired_tokens(pending.drop_last());
        if fires(pending.last().1) {
            earlier.push(pending.last().0)
        } else {
            earlier
        }
    }
}

/// The timers that go on after the next poll, one tick on, in order.
pub open spec fn still_pending(pending: Seq<(OpToken, Wait)>) -> Seq<(OpToken, Wait)>
    decreases pending.len(),
{
    if pending.len() == 0 {
        Seq::empty()
    } else {
        let earlier = still_pending(pending.drop_last());
        if fires(pending.last().1) {
            earlier
        } else {
            earlier.push((pending.last().0, ticked(pending.last().1)))
        }
    }
}

impl FakeBackendState {
    /// Position of the first wait under `token`.
    pub open spec fn position(self, token: OpToken, at: int) -> bool {
        &&& 0 <= at < self.pending.len()
        &&& self.pending[at].0 == token
        &&& forall|k: int| 0 <= k < at ==> (#[trigger] self.pending[k]).0 != token
    }

    pub open spec fn knows(self, token: OpToken) -> bool {
        exists|k: int| 0 <= k < self.pending.len() && (#[trigger] self.pending[k]).0 == token
    }

    pub open spec fn submit(self, token: OpToken, wait: Wait) -> Self {
        FakeBackendState { pending: self.pending.push((token, wait)), ..self }
    }

    pub open spec fn remove_at(self, at: int) -> Self {
        FakeBackendState { pending: self.pending.remove(at), ..self }
    }

    pub open spec fn poll(self) -> Self {
        FakeBackendState { pending: still_pending(self.pending), ..self }
    }
}

/// An in-process backend that completes every armed operation by itself.
///
/// Accepts, receives and writes fire at the next poll. Timers count one tick per poll and fire when
/// they have counted down.
pub struct FakeWaitBackend {
    pending: VecDeque<(OpToken, Wait)>,
    capacity: usize,
}

impl View for FakeWaitBackend {
    type V = FakeBackendState;

    closed spec fn view(&self) -> FakeBackendState {
        FakeBackendState { pending: self.pending@, capacity: self.capacity as nat }
    }
}

impl FakeWaitBackend {
    pub fn new(capacity: usize) -> (backend: Self)
        ensures
            backend@ == (FakeBackendState { pending: Seq::empty(), capacity: capacity as nat }),
    {
        Self { pending: VecDeque::with_capacity(capacity), capacity }
    }
}

impl WaitBackend for FakeWaitBackend {
    open spec fn may_submit(
        self,
        token: OpToken,
        wait: Wait,
        post: Self,
        outcome: Result<(), RuntimeError>,
    ) -> bool {
        if self@.pending.len() == self@.capacity {
            post@ == self@ && outcome == Err::<(), _>(RuntimeError::WaitQueueFull)
        } else {
            post@ == self@.submit(token, wait) && outcome is Ok
        }
    }

    open spec fn may_cancel(self, token: OpToken, post: Self) -> bool {
        if self@.knows(token) {
            exists|at: int| #[trigger]
                self@.position(token, at) && post@ == self@.remove_at(at)
        } else {
            post@ == self@
        }
    }

    open spec fn may_poll(
        self,
        before: Seq<OpToken>,
        post: Self,
        after: Seq<OpToken>,
        outcome: Result<bool, RuntimeError>,
    ) -> bool {
        &&& post@ == self@.poll()
        &&& after == before + fired_tokens(self@.pending)
        &&& outcome == Ok::<_, RuntimeError>(self@.pending.len() > 0)
    }

    open spec fn may_answer_has_pending(self, reply: bool) -> bool {
        reply == (self@.pending.len() > 0)
    }

    open spec fn may_answer_can_submit(self, additional: usize, reply: bool) -> bool {
        reply == (self@.pending.len() + additional <= self@.capacity)
    }

    open spec fn may_block(self, post: Self, outcome: Result<bool, RuntimeError>) -> bool {
        post == self && outcome == Ok::<_, RuntimeError>(false)
    }

    fn submit(&mut self, token: OpToken, wait: Wait) -> (outcome: Result<(), RuntimeError>) {
        if self.pending.len() == self.capacity {
            return Err(RuntimeError::WaitQueueFull);
        }
        self.pending.push_back((token, wait));
        Ok(())
    }

    fn cancel(&mut self, token: OpToken) {
        let ghost pre = self@;
        let mut at: usize = 0;
        while at < self.pending.len()
            invariant
                pre == old(self)@,
                self@ == pre,
                at <= self.pending.len(),
                forall|k: int| 0 <= k < at ==> (#[trigger] self@.pending[k]).0 != token,
            decreases self.pending.len() - at,
        {
            if self.pending[at].0 == token {
                let _ = self.pending.remove(at);
                assert(pre.position(token, at as int));
                return;
            }
            at += 1;
        }
    }

    fn poll(&mut self, ready: &mut Vec<OpToken>) -> (outcome: Result<bool, RuntimeError>) {
        let ghost pre = self@;
        let ghost before = ready@;
        let count: usize = self.pending.len();
        let mut done: usize = 0;
        assert(self.pending@ =~= pre.pending.skip(0) + still_pending(pre.pending.take(0)));
        while done < count
            invariant
                pre == old(self)@,
                before == old(ready)@,
                done <= count == pre.pending.len(),
                self.capacity == pre.capacity,
                self.pending@ == pre.pending.skip(done as int) + still_pending(
                    pre.pending.take(done as int),
                ),
                ready@ == before + fired_tokens(pre.pending.take(done as int)),
            decreases count - done,
        {
            proof {
                assert(pre.pending.take(done + 1).drop_last() =~= pre.pending.take(done as int));
            }
            if let Some((token, wait)) = self.pending.pop_front() {
                match wait {
                    Wait::Timer { ticks } => {
                        if ticks <= 1 {
                            ready.push(token);
                        } else {
                            self.pending.push_back((token, Wait::Timer { ticks: ticks - 1 }));
                        }
                    },
                    Wait::Accept { .. } | Wait::Recv { .. } | Wait::Write { .. } => {
                        ready.push(token);
                    },
                }
            }
            done += 1;
        }
        Ok(count > 0)
    }

    fn has_pending(&self) -> (reply: bool) {
        self.pending.len() > 0
    }

    fn can_submit(&self, additional: usize) -> (reply: bool) {
        self.pending.len() <= self.capacity && additional <= self.capacity - self.pending.len()
    }
}

/// Cancelling some tokens and then others is cancelling all of them.
pub proof fn lemma_cancel_all_concat<B: WaitBackend>(
    pre: B,
    first: Seq<OpToken>,
    mid: B,
    second: Seq<OpToken>,
    post: B,
)
    requires
        may_cancel_all(pre, first, mid),
        may_cancel_all(mid, second, post),
    ensures
        may_cancel_all(pre, first + second, post),
    decreases second.len(),
{
    if second.len() == 0 {
    } else {
        let last = choose|last: B|
            may_cancel_all(mid, second.drop_last(), last) && #[trigger] last.may_cancel(
                second.last(),
                post,
            );
        lemma_cancel_all_concat(pre, first, mid, second.drop_last(), last);
        assert((first + second).drop_last() =~= first + second.drop_last());
        assert((first + second).last() == second.last());
    }
}

/// A wait that is not a timer fires at the next poll; a timer fires at the poll that its ticks
/// count down to, and is pending until then.
pub proof fn law_waits_fire_when_due(wait: Wait, polls: nat)
    requires
        polls >= 1,
    ensures
        match wait {
            Wait::Timer { ticks } => fires(ticked_times(wait, (polls - 1) as nat)) <==> ticks
                <= polls,
            _ => fires(wait),
        },
{
    if let Wait::Timer { ticks } = wait {
        lemma_ticked_times(ticks, (polls - 1) as nat);
    }
}

/// What is left of a timer after `polls` polls.
pub open spec fn ticked_times(wait: Wait, polls: nat) -> Wait
    decreases polls,
{
    if polls == 0 {
        wait
    } else {
        let earlier = ticked_times(wait, (polls - 1) as nat);
        if fires(earlier) {
            earlier
        } else {
            ticked(earlier)
        }
    }
}

proof fn lemma_ticked_times(ticks: u32, polls: nat)
    ensures
        ticked_times(Wait::Timer { ticks }, polls) == (Wait::Timer {
            ticks: if ticks <= 1 {
                ticks
            } else if polls < ticks {
                (ticks - polls) as u32
            } else {
                1
            },
        }),
    decreases polls,
{
    if polls > 0 {
        lemma_ticked_times(ticks, (polls - 1) as nat);
    }
}

/// The wait is due at the next poll: it is no timer, or a timer with no more than one tick to go.
pub open spec fn is_due(wait: Wait) -> bool {
    match wait {
        Wait::Accept { .. } => true,
        Wait::Recv { .. } => true,
        Wait::Write { .. } => true,
        Wait::Timer { ticks } => ticks == 0 || ticks == 1,
    }
}

/// A poll of the in-process backend reports the waits that are due, each once, in the order in which
/// they were submitted, and keeps the others, in that order and each under its token: they are
/// timers, and have one tick less to go. It says whether there was anything to do.
pub proof fn law_poll_reports_what_is_due(
    pre: FakeWaitBackend,
    before: Seq<OpToken>,
    post: FakeWaitBackend,
    after: Seq<OpToken>,
    outcome: Result<bool, RuntimeError>,
)
    requires
        pre.may_poll(before, post, after, outcome),
    ensures
        after == before + pre@.pending.filter(|entry: (OpToken, Wait)| is_due(entry.1)).map_values(
            |entry: (OpToken, Wait)| entry.0,
        ),
        ({
            let kept = pre@.pending.filter(|entry: (OpToken, Wait)| !is_due(entry.1));
            &&& post@.pending.len() == kept.len()
            &&& forall|k: int|
                0 <= k < kept.len() ==> {
                    &&& (#[trigger] post@.pending[k]).0 == kept[k].0
                    &&& kept[k].1 matches Wait::Timer { ticks } && post@.pending[k].1 == (
                    Wait::Timer { ticks: (ticks - 1) as u32 })
                }
        }),
        post@.capacity == pre@.capacity,
        outcome matches Ok(progressed) && progressed == (pre@.pending.len() > 0),
{
    lemma_due_and_kept(pre@.pending);
    let kept = pre@.pending.filter(|entry: (OpToken, Wait)| !is_due(entry.1));
    let still = still_pending(pre@.pending);
    assert forall|k: int| 0 <= k < kept.len() implies {
        &&& (#[trigger] post@.pending[k]).0 == kept[k].0
        &&& kept[k].1 matches Wait::Timer { ticks } && post@.pending[k].1 == (Wait::Timer {
            ticks: (ticks - 1) as u32,
        })
    } by {
        assert(still[k].0 == kept[k].0);
    }
}

proof fn lemma_due_and_kept(pending: Seq<(OpToken, Wait)>)
    ensures
        fired_tokens(pending) == pending.filter(
            |entry: (OpToken, Wait)| is_due(entry.1),
        ).map_values(|entry: (OpToken, Wait)| entry.0),
        ({
            let kept = pending.filter(|entry: (OpToken, Wait)| !is_due(entry.1));
            &&& still_pending(pending).len() == kept.len()
            &&& forall|k: int|
                0 <= k < kept.len() ==> {
                    &&& (#[trigger] still_pending(pending)[k]).0 == kept[k].0
                    &&& kept[k].1 matches Wait::Timer { ticks } && ticks > 1
                        && still_pending(pending)[k].1 == (Wait::Timer {
                        ticks: (ticks - 1) as u32,
                    })
                }
        }),
    decreases pending.len(),
{
    reveal(Seq::filter);
    let due = |entry: (OpToken, Wait)| is_due(entry.1);
    let late = |entry: (OpToken, Wait)| !is_due(entry.1);
    let names = |entry: (OpToken, Wait)| entry.0;
    if pending.len() == 0 {
        assert(fired_tokens(pending) =~= pending.filter(due).map_values(names));
    } else {
        let rest = pending.drop_last();
        lemma_due_and_kept(rest);
        assert(fired_tokens(pending) =~= pending.filter(due).map_values(names));
        let kept = rest.filter(late);
        let still = still_pending(rest);
        assert forall|k: int| 0 <= k < pending.filter(late).len() implies {
            &&& (#[trigger] still_pending(pending)[k]).0 == pending.filter(late)[k].0
            &&& pending.filter(late)[k].1 matches Wait::Timer { ticks } && ticks > 1
                && still_pending(pending)[k].1 == (Wait::Timer { ticks: (ticks - 1) as u32 })
        } by {
            if k < kept.len() {
                assert(still[k].0 == kept[k].0);
            }
        }
    }
}

/// The in-process backend keeps what is submitted, in order, under its token and as it was given. It
/// is refused only where the backend holds as many waits as it takes, and then nothing changes.
pub proof fn law_submitted_wait_is_kept(
    pre: FakeWaitBackend,
    token: OpToken,
    wait: Wait,
    post: FakeWaitBackend,
    outcome: Result<(), RuntimeError>,
)
    requires
        pre@.pending.len() <= pre@.capacity,
        pre.may_submit(token, wait, post, outcome),
    ensures
        post@.capacity == pre@.capacity,
        match outcome {
            Ok(_) => {
                let held = pre@.pending.len() as int;
                &&& held < pre@.capacity
                &&& post@.pending.len() == held + 1
                &&& pre@.pending.is_prefix_of(post@.pending)
                &&& post@.pending[held].0 == token
                &&& post@.pending[held].1 == wait
            },
            Err(error) => {
                &&& pre@.pending.len() == pre@.capacity
                &&& error == RuntimeError::WaitQueueFull
                &&& post@.pending == pre@.pending
            },
        },
{
}

/// Cancelling takes out the first wait that is pending under the token, and leaves the others in
/// their order. Where there is none, nothing changes.
pub proof fn law_cancelled_wait_is_taken_out(
    pre: FakeWaitBackend,
    token: OpToken,
    post: FakeWaitBackend,
) -> (at: int)
    requires
        pre.may_cancel(token, post),
    ensures
        post@.capacity == pre@.capacity,
        if exists|k: int| 0 <= k < pre@.pending.len() && (#[trigger] pre@.pending[k]).0 == token {
            &&& 0 <= at < pre@.pending.len()
            &&& pre@.pending[at].0 == token
            &&& forall|k: int| 0 <= k < at ==> (#[trigger] pre@.pending[k]).0 != token
            &&& post@.pending.len() == pre@.pending.len() - 1
            &&& forall|k: int|
                0 <= k < at ==> (#[trigger] post@.pending[k]) == pre@.pending[k]
            &&& forall|k: int|
                at <= k < post@.pending.len() ==> (#[trigger] post@.pending[k]) == pre@.pending[k
                    + 1]
        } else {
            post@.pending == pre@.pending
        },
{
    if pre@.knows(token) {
        choose|at: int| #[trigger] pre@.position(token, at) && post@ == pre@.remove_at(at)
    } else {
        0
    }
}

/// The in-process backend says that there is room for more waits exactly where they and those that
/// are pending are no more than it takes, and that something is pending exactly where something is.
/// It does not wait for outside events.
pub proof fn law_in_process_backend_answers(
    backend: FakeWaitBackend,
    additional: usize,
    room: bool,
    pending: bool,
    post: FakeWaitBackend,
    waited: Result<bool, RuntimeError>,
)
    requires
        backend.may_answer_can_submit(additional, room),
        backend.may_answer_has_pending(pending),
        backend.may_block(post, waited),
    ensures
        room <==> backend@.pending.len() + additional <= backend@.capacity,
        pending <==> backend@.pending.len() > 0,
        post == backend,
        waited == Ok::<bool, RuntimeError>(false),
{
}

/// Cancelling several waits cancels each of them, and no other: what is left is what was pending,
/// in order, without the first wait under each of the tokens.
pub proof fn law_cancelled_waits_are_gone(
    pre: FakeWaitBackend,
    tokens: Seq<OpToken>,
    post: FakeWaitBackend,
)
    requires
        may_cancel_all(pre, tokens, post),
        forall|j: int, k: int|
            0 <= j < k < pre@.pending.len() ==> (#[trigger] pre@.pending[j]).0 != (
            #[trigger] pre@.pending[k]).0,
    ensures
        post@.capacity == pre@.capacity,
        post@.pending == pre@.pending.filter(
            |entry: (OpToken, Wait)| !tokens.contains(entry.0),
        ),
    decreases tokens.len(),
{
    reveal(Seq::filter);
    let keeps = |entry: (OpToken, Wait)| !tokens.contains(entry.0);
    if tokens.len() == 0 {
        lemma_filter_all(pre@.pending, keeps);
    } else {
        let rest = tokens.drop_last();
        let last = tokens.last();
        let mid = choose|mid: FakeWaitBackend|
            may_cancel_all(pre, rest, mid) && #[trigger] mid.may_cancel(last, post);
        law_cancelled_waits_are_gone(pre, rest, mid);
        let earlier = |entry: (OpToken, Wait)| !rest.contains(entry.0);
        lemma_filter_keeps_distinct(pre@.pending, earlier);
        let at = law_cancelled_wait_is_taken_out(mid, last, post);
        let now = |entry: (OpToken, Wait)| entry.0 != last;
        if exists|k: int| 0 <= k < mid@.pending.len() && (#[trigger] mid@.pending[k]).0 == last {
            assert(post@.pending =~= mid@.pending.remove(at));
            lemma_filter_out_one(mid@.pending, at, last);
        } else {
            lemma_filter_all(mid@.pending, now);
        }
        assert(post@.pending == mid@.pending.filter(now));
        assert(rest.push(last) =~= tokens);
        lemma_filter_twice(pre@.pending, earlier, now, keeps, rest, last);
    }
}

proof fn lemma_filter_all(
    pending: Seq<(OpToken, Wait)>,
    keeps: spec_fn((OpToken, Wait)) -> bool,
)
    requires
        forall|k: int| 0 <= k < pending.len() ==> keeps(#[trigger] pending[k]),
    ensures
        pending.filter(keeps) == pending,
    decreases pending.len(),
{
    reveal(Seq::filter);
    if pending.len() > 0 {
        let rest = pending.drop_last();
        assert forall|k: int| 0 <= k < rest.len() implies keeps(#[trigger] rest[k]) by {
            assert(keeps(pending[k]));
        }
        lemma_filter_all(rest, keeps);
        assert(keeps(pending[pending.len() - 1]));
        assert(rest.push(pending.last()) =~= pending);
    } else {
        assert(pending.filter(keeps) =~= pending);
    }
}

proof fn lemma_filter_keeps_distinct(
    pending: Seq<(OpToken, Wait)>,
    keeps: spec_fn((OpToken, Wait)) -> bool,
)
    requires
        forall|j: int, k: int|
            0 <= j < k < pending.len() ==> (#[trigger] pending[j]).0 != (#[trigger] pending[k]).0,
    ensures
        forall|j: int, k: int|
            0 <= j < k < pending.filter(keeps).len() ==> (#[trigger] pending.filter(keeps)[j]).0
                != (#[trigger] pending.filter(keeps)[k]).0,
        forall|j: int|
            0 <= j < pending.filter(keeps).len() ==> exists|i: int|
                0 <= i < pending.len() && (#[trigger] pending[i]).0 == (
                #[trigger] pending.filter(keeps)[j]).0,
    decreases pending.len(),
{
    reveal(Seq::filter);
    if pending.len() > 0 {
        let rest = pending.drop_last();
        lemma_filter_keeps_distinct(rest, keeps);
        let kept = rest.filter(keeps);
        let all = pending.filter(keeps);
        assert forall|j: int, k: int| 0 <= j < k < all.len() implies (#[trigger] all[j]).0 != (
        #[trigger] all[k]).0 by {
            assert(all[j] == kept[j]);
            let i = choose|i: int| 0 <= i < rest.len() && (#[trigger] rest[i]).0 == kept[j].0;
            assert(pending[i].0 == kept[j].0);
            if k < kept.len() {
                assert(all[k] == kept[k]);
            } else {
                assert(all[k] == pending[pending.len() - 1]);
            }
        }
        assert forall|j: int| 0 <= j < all.len() implies exists|i: int|
            0 <= i < pending.len() && (#[trigger] pending[i]).0 == (#[trigger] all[j]).0 by {
            if j < kept.len() {
                assert(all[j] == kept[j]);
                let i = choose|i: int| 0 <= i < rest.len() && (#[trigger] rest[i]).0 == kept[j].0;
                assert(pending[i].0 == all[j].0);
            } else {
                assert(pending[pending.len() - 1].0 == all[j].0);
            }
        }
    }
}

proof fn lemma_filter_out_one(pending: Seq<(OpToken, Wait)>, at: int, token: OpToken)
    requires
        0 <= at < pending.len(),
        pending[at].0 == token,
        forall|j: int, k: int|
            0 <= j < k < pending.len() ==> (#[trigger] pending[j]).0 != (#[trigger] pending[k]).0,
    ensures
        pending.filter(|entry: (OpToken, Wait)| entry.0 != token) == pending.remove(at),
    decreases pending.len(),
{
    reveal(Seq::filter);
    let now = |entry: (OpToken, Wait)| entry.0 != token;
    let rest = pending.drop_last();
    if at == pending.len() - 1 {
        lemma_filter_all(rest, now);
        assert(pending.remove(at) =~= rest);
    } else {
        lemma_filter_out_one(rest, at, token);
        assert(pending[at].0 != pending[pending.len() - 1].0);
        assert(pending.remove(at) =~= rest.remove(at).push(pending.last()));
    }
}

proof fn lemma_filter_twice(
    pending: Seq<(OpToken, Wait)>,
    first: spec_fn((OpToken, Wait)) -> bool,
    second: spec_fn((OpToken, Wait)) -> bool,
    both: spec_fn((OpToken, Wait)) -> bool,
    rest: Seq<OpToken>,
    last: OpToken,
)
    requires
        first == (|entry: (OpToken, Wait)| !rest.contains(entry.0)),
        second == (|entry: (OpToken, Wait)| entry.0 != last),
        both == (|entry: (OpToken, Wait)| !rest.push(last).contains(entry.0)),
    ensures
        pending.filter(first).filter(second) == pending.filter(both),
    decreases pending.len(),
{
    reveal_with_fuel(Seq::filter, 2);
    if pending.len() > 0 {
        lemma_filter_twice(pending.drop_last(), first, second, both, rest, last);
        let kept = pending.drop_last().filter(first);
        let entry = pending.last();
        super::registry::lemma_push_contains(rest, last, entry.0);
        if first(entry) {
            assert(kept.push(entry).drop_last() =~= kept);
        }
    }
}

} // verus!
