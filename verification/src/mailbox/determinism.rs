//! The scheduler is deterministic: where isolates and backend are, a step has one outcome.

use vstd::prelude::*;

use crate::arena::Handle;

use super::backend::{FakeWaitBackend, WaitBackend, Waiting};
use super::effects::{Action, OpToken, RuntimeMessage, Wait};
use super::error::RuntimeError;
use super::interpreter::MailState;
use super::registry::{Envelope, Pumped};
use super::scheduler::{Isolate, SchedulerState, StepResult};
use super::turn::{Armed, BuilderState, GroupSpecState};

verus! {

/// Both succeed, or both fail in the same way.
pub open spec fn same_outcome(
    left: Result<(), RuntimeError>,
    right: Result<(), RuntimeError>,
) -> bool {
    match (left, right) {
        (Ok(_), Ok(_)) => true,
        (Err(one), Err(other)) => one == other,
        _ => false,
    }
}

/// What a turn of an isolate gives depends on what it starts from alone.
pub open spec fn isolates_are_deterministic<I: Isolate>() -> bool {
    forall|
        isolate: I,
        message: RuntimeMessage<I::Message>,
        token: Option<OpToken>,
        before: BuilderState<I::Message>,
        left: I,
        right: I,
        left_built: BuilderState<I::Message>,
        right_built: BuilderState<I::Message>,
        one: Result<(), RuntimeError>,
        other: Result<(), RuntimeError>,
    |
        #[trigger] isolate.may_handle(message, token, before, left, left_built, one)
            && #[trigger] isolate.may_handle(message, token, before, right, right_built, other)
            ==> left == right && left_built == right_built && same_outcome(one, other)
}

/// Backends that are alike answer alike and stay alike.
pub open spec fn backends_stay_alike<B: WaitBackend>(alike: spec_fn(B, B) -> bool) -> bool {
    &&& forall|left: B, right: B, additional: usize, one: bool, other: bool|
        alike(left, right) && #[trigger] left.may_answer_can_submit(additional, one)
            && #[trigger] right.may_answer_can_submit(additional, other) ==> one == other
    &&& forall|left: B, right: B, one: bool, other: bool|
        alike(left, right) && #[trigger] left.may_answer_has_pending(one)
            && #[trigger] right.may_answer_has_pending(other) ==> one == other
    &&& forall|
        left: B,
        right: B,
        token: OpToken,
        wait: Wait,
        left_post: B,
        right_post: B,
        one: Result<(), RuntimeError>,
        other: Result<(), RuntimeError>,
    |
        alike(left, right) && #[trigger] left.may_submit(token, wait, left_post, one)
            && #[trigger] right.may_submit(token, wait, right_post, other) ==> alike(
            left_post,
            right_post,
        ) && same_outcome(one, other)
    &&& forall|left: B, right: B, token: OpToken, left_post: B, right_post: B|
        alike(left, right) && #[trigger] left.may_cancel(token, left_post)
            && #[trigger] right.may_cancel(token, right_post) ==> alike(left_post, right_post)
    &&& forall|
        left: B,
        right: B,
        left_post: B,
        right_post: B,
        left_ready: Seq<OpToken>,
        right_ready: Seq<OpToken>,
        one: Result<bool, RuntimeError>,
        other: Result<bool, RuntimeError>,
    |
        alike(left, right) && #[trigger] left.may_poll(Seq::empty(), left_post, left_ready, one)
            && #[trigger] right.may_poll(Seq::empty(), right_post, right_ready, other) ==> alike(
            left_post,
            right_post,
        ) && left_ready == right_ready && one == other
}

/// Backends that are alike wait alike, where `waits` says how they wait.
pub open spec fn waits_stay_alike<B>(alike: spec_fn(B, B) -> bool, waits: Waiting<B>) -> bool {
    forall|
        left: B,
        right: B,
        left_post: B,
        right_post: B,
        one: Result<bool, RuntimeError>,
        other: Result<bool, RuntimeError>,
    |
        alike(left, right) && #[trigger] waits(left, left_post, one) && #[trigger] waits(
            right,
            right_post,
            other,
        ) ==> alike(left_post, right_post) && one == other
}

/// In which order operations are cancelled makes no difference.
pub open spec fn cancellations_commute<B: WaitBackend>(alike: spec_fn(B, B) -> bool) -> bool {
    forall|
        left: B,
        right: B,
        left_order: Seq<OpToken>,
        right_order: Seq<OpToken>,
        left_post: B,
        right_post: B,
    |
        alike(left, right) && left_order.no_duplicates() && right_order.no_duplicates()
            && left_order.to_set() == right_order.to_set()
            && #[trigger] super::backend::may_cancel_all(left, left_order, left_post)
            && #[trigger] super::backend::may_cancel_all(right, right_order, right_post) ==> alike(
            left_post,
            right_post,
        )
}

/// The same isolates, messages and operations, over backends that are alike.
pub open spec fn mails_alike<I, M, B>(
    alike: spec_fn(B, B) -> bool,
    left: MailState<I, M, B>,
    right: MailState<I, M, B>,
) -> bool {
    &&& left.arena == right.arena
    &&& left.queue == right.queue
    &&& left.registry == right.registry
    &&& alike(left.backend, right.backend)
}

/// Two schedulers in the same state, over backends that are alike.
pub open spec fn schedulers_alike<I, M, B>(
    alike: spec_fn(B, B) -> bool,
    left: SchedulerState<I, M, B>,
    right: SchedulerState<I, M, B>,
) -> bool {
    &&& mails_alike(alike, left.mail, right.mail)
    &&& left.with_mail(right.mail) == right
}

/// A step of the scheduler has one outcome: from the same state, with isolates that are
/// deterministic and backends that are alike, it returns the same and leaves the same behind.
pub proof fn law_scheduler_steps_are_deterministic<I: Isolate, B: WaitBackend>(
    alike: spec_fn(B, B) -> bool,
    left: SchedulerState<I, I::Message, B>,
    right: SchedulerState<I, I::Message, B>,
    left_post: SchedulerState<I, I::Message, B>,
    right_post: SchedulerState<I, I::Message, B>,
    one: Result<StepResult, RuntimeError>,
    other: Result<StepResult, RuntimeError>,
)
    requires
        isolates_are_deterministic::<I>(),
        backends_stay_alike(alike),
        cancellations_commute(alike),
        schedulers_alike(alike, left, right),
        left.may_step(left_post, one),
        right.may_step(right_post, other),
    ensures
        one == other,
        schedulers_alike(alike, left_post, right_post),
{
    let (left_delivered, left_polled, left_progress) = choose|
        delivered: SchedulerState<I, I::Message, B>,
        polled: SchedulerState<I, I::Message, B>,
        progress: Result<bool, RuntimeError>,
    |
        #[trigger] left.may_pump(delivered) && #[trigger] delivered.may_poll(polled, progress)
            && match progress {
            Err(error) => left_post == polled && one == Err::<StepResult, _>(error),
            Ok(progressed) => exists|ready: SchedulerState<I, I::Message, B>| #[trigger]
                polled.may_pump(ready) && ready.may_dispatch(progressed, left_post, one),
        };
    let (right_delivered, right_polled, _) = choose|
        delivered: SchedulerState<I, I::Message, B>,
        polled: SchedulerState<I, I::Message, B>,
        progress: Result<bool, RuntimeError>,
    |
        #[trigger] right.may_pump(delivered) && #[trigger] delivered.may_poll(polled, progress)
            && match progress {
            Err(error) => right_post == polled && other == Err::<StepResult, _>(error),
            Ok(progressed) => exists|ready: SchedulerState<I, I::Message, B>| #[trigger]
                polled.may_pump(ready) && ready.may_dispatch(progressed, right_post, other),
        };
    lemma_pumps(alike, left, right, left_delivered, right_delivered);
    if let Ok(progressed) = left_progress {
        let left_ready = choose|ready: SchedulerState<I, I::Message, B>| #[trigger]
            left_polled.may_pump(ready) && ready.may_dispatch(progressed, left_post, one);
        let right_ready = choose|ready: SchedulerState<I, I::Message, B>| #[trigger]
            right_polled.may_pump(ready) && ready.may_dispatch(progressed, right_post, other);
        lemma_pumps(alike, left_polled, right_polled, left_ready, right_ready);
        if left_ready.mail.queue.len() > 0 {
            let envelope = left_ready.mail.queue[0];
            if left_ready.mail.arena.has(envelope.target) {
                lemma_turns(
                    alike,
                    left_ready.pop(),
                    right_ready.pop(),
                    envelope,
                    left_post,
                    right_post,
                    one,
                    other,
                );
            }
        }
    }
}

/// Two in-process backends that hold the same answer alike and stay alike, and it makes no
/// difference in which order operations are cancelled.
pub proof fn law_fake_backends_stay_alike()
    ensures
        backends_stay_alike(|left: FakeWaitBackend, right: FakeWaitBackend| left@ == right@),
        cancellations_commute(|left: FakeWaitBackend, right: FakeWaitBackend| left@ == right@),
{
    let alike = |left: FakeWaitBackend, right: FakeWaitBackend| left@ == right@;
    assert forall|
        left: FakeWaitBackend,
        right: FakeWaitBackend,
        left_order: Seq<OpToken>,
        right_order: Seq<OpToken>,
        left_post: FakeWaitBackend,
        right_post: FakeWaitBackend,
    |
        alike(left, right) && left_order.no_duplicates() && right_order.no_duplicates()
            && left_order.to_set() == right_order.to_set()
            && #[trigger] super::backend::may_cancel_all(left, left_order, left_post)
            && #[trigger] super::backend::may_cancel_all(right, right_order, right_post) implies
        alike(left_post, right_post) by {
        lemma_cancel_all(left, left_order, left_post);
        lemma_cancel_all(right, right_order, right_post);
    }
}

/// `pending` without the first wait under each of `tokens`.
spec fn cancel_in(pending: Seq<(OpToken, Wait)>, tokens: Set<OpToken>) -> Seq<(OpToken, Wait)>
    decreases pending.len(),
{
    if pending.len() == 0 {
        pending
    } else if tokens.contains(pending[0].0) {
        cancel_in(pending.skip(1), tokens.remove(pending[0].0))
    } else {
        seq![pending[0]] + cancel_in(pending.skip(1), tokens)
    }
}

proof fn lemma_cancel_none(pending: Seq<(OpToken, Wait)>)
    ensures
        cancel_in(pending, Set::empty()) == pending,
    decreases pending.len(),
{
    if pending.len() > 0 {
        lemma_cancel_none(pending.skip(1));
    }
}

proof fn lemma_cancel_unknown(pending: Seq<(OpToken, Wait)>, token: OpToken)
    requires
        forall|k: int| 0 <= k < pending.len() ==> (#[trigger] pending[k]).0 != token,
    ensures
        cancel_in(pending, Set::empty().insert(token)) == pending,
    decreases pending.len(),
{
    if pending.len() > 0 {
        let rest = pending.skip(1);
        lemma_cancel_unknown(rest, token);
    }
}

proof fn lemma_cancel_at(pending: Seq<(OpToken, Wait)>, token: OpToken, at: int)
    requires
        0 <= at < pending.len(),
        pending[at].0 == token,
        forall|k: int| 0 <= k < at ==> (#[trigger] pending[k]).0 != token,
    ensures
        cancel_in(pending, Set::empty().insert(token)) == pending.remove(at),
    decreases pending.len(),
{
    let rest = pending.skip(1);
    if at == 0 {
        assert(Set::empty().insert(token).remove(token) =~= Set::<OpToken>::empty());
        lemma_cancel_none(rest);
    } else {
        lemma_cancel_at(rest, token, at - 1);
    }
}

/// Cancelling one wait is cancelling the first one under its token.
proof fn lemma_cancel_once(pre: FakeWaitBackend, token: OpToken, post: FakeWaitBackend)
    requires
        pre.may_cancel(token, post),
    ensures
        post@.pending == cancel_in(pre@.pending, Set::empty().insert(token)),
        post@.capacity == pre@.capacity,
{
    if pre@.knows(token) {
        let at = choose|at: int| #[trigger]
            pre@.position(token, at) && post@ == pre@.remove_at(at);
        lemma_cancel_at(pre@.pending, token, at);
    } else {
        lemma_cancel_unknown(pre@.pending, token);
    }
}

/// Cancelling some waits and then others is cancelling all of them.
proof fn lemma_cancel_both(
    pending: Seq<(OpToken, Wait)>,
    first: Set<OpToken>,
    second: Set<OpToken>,
)
    requires
        first.disjoint(second),
    ensures
        cancel_in(cancel_in(pending, first), second) == cancel_in(pending, first.union(second)),
    decreases pending.len(),
{
    if pending.len() > 0 {
        let rest = pending.skip(1);
        let token = pending[0].0;
        if first.contains(token) {
            assert(first.union(second).remove(token) =~= first.remove(token).union(second));
            lemma_cancel_both(rest, first.remove(token), second);
        } else {
            let kept = cancel_in(rest, first);
            let all = seq![pending[0]] + kept;
            assert(all.skip(1) =~= kept);
            if second.contains(token) {
                assert(first.union(second).remove(token) =~= first.union(second.remove(token)));
                lemma_cancel_both(rest, first, second.remove(token));
            } else {
                lemma_cancel_both(rest, first, second);
            }
        }
    }
}

/// What cancelling waits one after the other leaves does not depend on the order.
proof fn lemma_cancel_all(pre: FakeWaitBackend, order: Seq<OpToken>, post: FakeWaitBackend)
    requires
        order.no_duplicates(),
        super::backend::may_cancel_all(pre, order, post),
    ensures
        post@.pending == cancel_in(pre@.pending, order.to_set()),
        post@.capacity == pre@.capacity,
    decreases order.len(),
{
    if order.len() == 0 {
        assert(order.to_set() =~= Set::<OpToken>::empty());
        lemma_cancel_none(pre@.pending);
    } else {
        let rest = order.drop_last();
        let last = order.last();
        let mid = choose|mid: FakeWaitBackend|
            super::backend::may_cancel_all(pre, rest, mid) && #[trigger] mid.may_cancel(last, post);
        lemma_cancel_all(pre, rest, mid);
        lemma_cancel_once(mid, last, post);
        let one = Set::empty().insert(last);
        assert(rest.to_set().union(one) =~= order.to_set()) by {
            assert(rest.push(last) =~= order);
        }
        lemma_cancel_both(pre@.pending, rest.to_set(), one);
    }
}

proof fn lemma_same_cancellations<B: WaitBackend>(
    alike: spec_fn(B, B) -> bool,
    left: B,
    right: B,
    tokens: Seq<OpToken>,
    left_post: B,
    right_post: B,
)
    requires
        backends_stay_alike(alike),
        alike(left, right),
        super::backend::may_cancel_all(left, tokens, left_post),
        super::backend::may_cancel_all(right, tokens, right_post),
    ensures
        alike(left_post, right_post),
    decreases tokens.len(),
{
    if tokens.len() > 0 {
        let rest = tokens.drop_last();
        let left_mid = choose|mid: B|
            super::backend::may_cancel_all(left, rest, mid) && #[trigger] mid.may_cancel(
                tokens.last(),
                left_post,
            );
        let right_mid = choose|mid: B|
            super::backend::may_cancel_all(right, rest, mid) && #[trigger] mid.may_cancel(
                tokens.last(),
                right_post,
            );
        lemma_same_cancellations(alike, left, right, rest, left_mid, right_mid);
    }
}

proof fn lemma_pumps<I, M, B: WaitBackend>(
    alike: spec_fn(B, B) -> bool,
    left: SchedulerState<I, M, B>,
    right: SchedulerState<I, M, B>,
    left_post: SchedulerState<I, M, B>,
    right_post: SchedulerState<I, M, B>,
)
    requires
        backends_stay_alike(alike),
        schedulers_alike(alike, left, right),
        left.may_pump(left_post),
        right.may_pump(right_post),
    ensures
        schedulers_alike(alike, left_post, right_post),
{
    let pumped = Pumped::start(left.mail.registry, left.mail.queue).pump(left.queue_capacity);
    lemma_same_cancellations(
        alike,
        left.mail.backend,
        right.mail.backend,
        pumped.cancelled,
        left_post.mail.backend,
        right_post.mail.backend,
    );
}

proof fn lemma_turns<I: Isolate, B: WaitBackend>(
    alike: spec_fn(B, B) -> bool,
    left: SchedulerState<I, I::Message, B>,
    right: SchedulerState<I, I::Message, B>,
    envelope: Envelope<I::Message>,
    left_post: SchedulerState<I, I::Message, B>,
    right_post: SchedulerState<I, I::Message, B>,
    one: Result<StepResult, RuntimeError>,
    other: Result<StepResult, RuntimeError>,
)
    requires
        isolates_are_deterministic::<I>(),
        backends_stay_alike(alike),
        cancellations_commute(alike),
        schedulers_alike(alike, left, right),
        left.may_take_turn(envelope, left_post, one),
        right.may_take_turn(envelope, right_post, other),
    ensures
        one == other,
        schedulers_alike(alike, left_post, right_post),
{
    let owner = envelope.target;
    let (left_isolate, left_built, left_handled, left_applied) = super::laws::lemma_turn_parts(
        left,
        envelope,
        left_post,
        one,
    );
    let (right_isolate, right_built, _, right_applied) = super::laws::lemma_turn_parts(
        right,
        envelope,
        right_post,
        other,
    );
    if left_handled is Ok {
        lemma_interpretations(
            alike,
            left.turned(owner, left_isolate).minted(left_built).mail,
            right.turned(owner, right_isolate).minted(right_built).mail,
            owner,
            left.queue_capacity,
            left_built.actions,
            left_built.armed,
            left_built.groups,
            left_post.mail,
            right_post.mail,
            left_applied,
            right_applied,
        );
    }
}

proof fn lemma_interpretations<I, M, B: WaitBackend>(
    alike: spec_fn(B, B) -> bool,
    left: MailState<I, M, B>,
    right: MailState<I, M, B>,
    owner: Handle,
    queue_capacity: nat,
    actions: Seq<Action<M>>,
    armed: Seq<Armed<M>>,
    groups: Seq<GroupSpecState<M>>,
    left_post: MailState<I, M, B>,
    right_post: MailState<I, M, B>,
    one: Result<(), RuntimeError>,
    other: Result<(), RuntimeError>,
)
    requires
        backends_stay_alike(alike),
        cancellations_commute(alike),
        mails_alike(alike, left, right),
        left.may_interpret(owner, queue_capacity, actions, armed, groups, left_post, one),
        right.may_interpret(owner, queue_capacity, actions, armed, groups, right_post, other),
    ensures
        same_outcome(one, other),
        mails_alike(alike, left_post, right_post),
{
    if one is Ok && other is Ok {
        let left_backend = super::interpreter::lemma_applied_turn(
            left,
            owner,
            queue_capacity,
            actions,
            armed,
            groups,
            left_post,
            one,
        );
        let right_backend = super::interpreter::lemma_applied_turn(
            right,
            owner,
            queue_capacity,
            actions,
            armed,
            groups,
            right_post,
            other,
        );
        lemma_acceptances(
            alike,
            left.backend,
            right.backend,
            armed,
            left_backend,
            right_backend,
        );
        lemma_actions(
            alike,
            left.arm(owner, armed, groups, left_backend),
            right.arm(owner, armed, groups, right_backend),
            owner,
            actions,
            left_post,
            right_post,
        );
    } else if one is Ok {
        let accepted = super::interpreter::lemma_applied_turn(
            left,
            owner,
            queue_capacity,
            actions,
            armed,
            groups,
            left_post,
            one,
        );
        lemma_refused_or_accepted(
            |first: B, second: B| alike(second, first),
            right.backend,
            left.backend,
            armed,
            right_post.backend,
            accepted,
            other->Err_0,
        );
    } else if other is Ok {
        let accepted = super::interpreter::lemma_applied_turn(
            right,
            owner,
            queue_capacity,
            actions,
            armed,
            groups,
            right_post,
            other,
        );
        lemma_refused_or_accepted(
            alike,
            left.backend,
            right.backend,
            armed,
            left_post.backend,
            accepted,
            one->Err_0,
        );
    } else if left.may_commit(owner, actions, armed, groups, left_post, one) && right.may_commit(
        owner,
        actions,
        armed,
        groups,
        right_post,
        other,
    ) {
        lemma_refusals(
            alike,
            left.backend,
            right.backend,
            armed,
            left_post.backend,
            right_post.backend,
            one->Err_0,
            other->Err_0,
        );
    }
}

proof fn lemma_acceptances<M, B: WaitBackend>(
    alike: spec_fn(B, B) -> bool,
    left: B,
    right: B,
    waits: Seq<Armed<M>>,
    left_post: B,
    right_post: B,
)
    requires
        backends_stay_alike(alike),
        alike(left, right),
        super::interpreter::may_accept_all(left, waits, left_post),
        super::interpreter::may_accept_all(right, waits, right_post),
    ensures
        alike(left_post, right_post),
    decreases waits.len(),
{
    if waits.len() > 0 {
        let rest = waits.drop_last();
        let left_mid = choose|mid: B|
            super::interpreter::may_accept_all(left, rest, mid)
                && #[trigger] super::interpreter::may_accept(mid, waits.last(), left_post);
        let right_mid = choose|mid: B|
            super::interpreter::may_accept_all(right, rest, mid)
                && #[trigger] super::interpreter::may_accept(mid, waits.last(), right_post);
        lemma_acceptances(alike, left, right, rest, left_mid, right_mid);
    }
}

/// What one of two backends that are alike refuses, the other does not accept.
proof fn lemma_refused_later<M, B: WaitBackend>(
    alike: spec_fn(B, B) -> bool,
    left: B,
    right: B,
    waits: Seq<Armed<M>>,
    count: int,
    reached: B,
    refused: B,
    error: RuntimeError,
    later: int,
    accepted: B,
)
    requires
        backends_stay_alike(alike),
        alike(left, right),
        0 <= count < later <= waits.len(),
        super::interpreter::may_accept_all(left, waits.take(count), reached),
        reached.may_submit(waits[count].token, waits[count].wait, refused, Err(error)),
    ensures
        !super::interpreter::may_accept_all(right, waits.take(later), accepted),
    decreases later,
{
    let longer = waits.take(later);
    assert(longer.drop_last() =~= waits.take(later - 1));
    if super::interpreter::may_accept_all(right, longer, accepted) {
        let mid = choose|mid: B|
            super::interpreter::may_accept_all(right, longer.drop_last(), mid)
                && #[trigger] super::interpreter::may_accept(mid, longer.last(), accepted);
        if later - 1 == count {
            lemma_acceptances(alike, left, right, waits.take(count), reached, mid);
        } else {
            lemma_refused_later(
                alike,
                left,
                right,
                waits,
                count,
                reached,
                refused,
                error,
                later - 1,
                mid,
            );
        }
    }
}

proof fn lemma_refused_or_accepted<M, B: WaitBackend>(
    alike: spec_fn(B, B) -> bool,
    left: B,
    right: B,
    waits: Seq<Armed<M>>,
    left_post: B,
    accepted: B,
    error: RuntimeError,
)
    requires
        backends_stay_alike(alike),
        alike(left, right),
        super::interpreter::may_accept_all(right, waits, accepted),
    ensures
        !super::interpreter::may_refuse(left, waits, left_post, error),
{
    if super::interpreter::may_refuse(left, waits, left_post, error) {
        let (count, reached, refused) = super::interpreter::lemma_refusal_parts(
            left,
            waits,
            left_post,
            error,
        );
        assert(waits.take(waits.len() as int) =~= waits);
        lemma_refused_later(
            alike,
            left,
            right,
            waits,
            count,
            reached,
            refused,
            error,
            waits.len() as int,
            accepted,
        );
    }
}

proof fn lemma_refusals<M, B: WaitBackend>(
    alike: spec_fn(B, B) -> bool,
    left: B,
    right: B,
    waits: Seq<Armed<M>>,
    left_post: B,
    right_post: B,
    one: RuntimeError,
    other: RuntimeError,
)
    requires
        backends_stay_alike(alike),
        alike(left, right),
        super::interpreter::may_refuse(left, waits, left_post, one),
        super::interpreter::may_refuse(right, waits, right_post, other),
    ensures
        one == other,
        alike(left_post, right_post),
{
    let (left_count, left_reached, left_refused) = super::interpreter::lemma_refusal_parts(
        left,
        waits,
        left_post,
        one,
    );
    let (right_count, right_reached, right_refused) = super::interpreter::lemma_refusal_parts(
        right,
        waits,
        right_post,
        other,
    );
    if left_count < right_count {
        lemma_refused_later(
            alike,
            left,
            right,
            waits,
            left_count,
            left_reached,
            left_refused,
            one,
            right_count,
            right_reached,
        );
    } else if right_count < left_count {
        lemma_refused_later(
            |first: B, second: B| alike(second, first),
            right,
            left,
            waits,
            right_count,
            right_reached,
            right_refused,
            other,
            left_count,
            left_reached,
        );
    } else {
        lemma_acceptances(
            alike,
            left,
            right,
            waits.take(left_count),
            left_reached,
            right_reached,
        );
        lemma_same_cancellations(
            alike,
            left_refused,
            right_refused,
            super::interpreter::tokens_of(waits.take(left_count)),
            left_post,
            right_post,
        );
    }
}

proof fn lemma_actions<I, M, B: WaitBackend>(
    alike: spec_fn(B, B) -> bool,
    left: MailState<I, M, B>,
    right: MailState<I, M, B>,
    owner: Handle,
    actions: Seq<Action<M>>,
    left_post: MailState<I, M, B>,
    right_post: MailState<I, M, B>,
)
    requires
        backends_stay_alike(alike),
        cancellations_commute(alike),
        mails_alike(alike, left, right),
        left.may_act(owner, actions, left_post),
        right.may_act(owner, actions, right_post),
    ensures
        mails_alike(alike, left_post, right_post),
    decreases actions.len(),
{
    if actions.len() > 0 {
        let rest = actions.drop_last();
        let left_mid = choose|mid: MailState<I, M, B>|
            left.may_act(owner, rest, mid) && #[trigger] mid.may_apply(
                owner,
                actions.last(),
                left_post,
            );
        let right_mid = choose|mid: MailState<I, M, B>|
            right.may_act(owner, rest, mid) && #[trigger] mid.may_apply(
                owner,
                actions.last(),
                right_post,
            );
        lemma_actions(alike, left, right, owner, rest, left_mid, right_mid);
        if actions.last() is DestroySelf {
            let left_order = choose|order: Seq<OpToken>| #[trigger]
                left_mid.registry.lists_operations_of(owner, order)
                    && super::backend::may_cancel_all(left_mid.backend, order, left_post.backend);
            let right_order = choose|order: Seq<OpToken>| #[trigger]
                right_mid.registry.lists_operations_of(owner, order)
                    && super::backend::may_cancel_all(right_mid.backend, order, right_post.backend);
            assert(left_order.to_set() =~= right_order.to_set());
        }
    }
}

} // verus!
