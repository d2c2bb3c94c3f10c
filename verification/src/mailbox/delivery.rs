//! What the registry is for: completions reach the isolates that wait for them, groups complete as
//! their policy says, and what is cancelled or destroyed takes nothing else with it.

use vstd::prelude::*;

use crate::arena::Handle;

use super::effects::OpToken;
use super::registry::{Envelope, GroupState, InFlight, Pumped, RegistryState};

verus! {

/// `post` has the same operations in flight as `pre`, but for those of `tokens`, which are not.
pub open spec fn only_lands<M>(
    pre: RegistryState<M>,
    tokens: Set<u32>,
    post: RegistryState<M>,
) -> bool {
    forall|token: u32|
        #![trigger post.in_flight.contains_key(token)]
        #![trigger pre.in_flight.contains_key(token)]
        {
            &&& post.in_flight.contains_key(token) <==> pre.in_flight.contains_key(token)
                && !tokens.contains(token)
            &&& post.in_flight.contains_key(token) ==> post.in_flight[token]
                == pre.in_flight[token]
        }
}

/// `post` has the same groups as `pre`, but for `group`.
pub open spec fn only_changes_group<M>(
    pre: RegistryState<M>,
    group: u32,
    post: RegistryState<M>,
) -> bool {
    forall|other: u32|
        #![trigger post.groups.contains_key(other)]
        #![trigger pre.groups.contains_key(other)]
        other != group ==> {
            &&& post.groups.contains_key(other) == pre.groups.contains_key(other)
            &&& pre.groups.contains_key(other) ==> post.groups[other] == pre.groups[other]
        }
}

/// All of `members` but `token`, in order.
pub open spec fn all_but(members: Seq<OpToken>, token: OpToken) -> Seq<OpToken> {
    members.filter(|member: OpToken| member != token)
}

/// `post` is `pre` without the member `token`; what the group is for has not changed.
pub open spec fn only_loses<M>(
    pre: GroupState<M>,
    token: OpToken,
    post: GroupState<M>,
) -> bool {
    &&& post.policy == pre.policy
    &&& post.target == pre.target
    &&& post.join == pre.join
    &&& post.members == all_but(pre.members, token)
    &&& post.remaining == post.members.len()
}

/// Taking a token out of a list leaves the others, in order.
proof fn lemma_without_is_filter(tokens: Seq<OpToken>, token: OpToken)
    ensures
        super::registry::without(tokens, token) == all_but(tokens, token),
    decreases tokens.len(),
{
    reveal(Seq::filter);
    if tokens.len() > 0 {
        lemma_without_is_filter(tokens.drop_last(), token);
    } else {
        assert(all_but(tokens, token) =~= tokens);
    }
}

/// Cancelling an operation takes that operation out and nothing else. Its group, if it has one that
/// is open, loses it and goes on with the others, under the same policy, for the same isolate and
/// with the same message to deliver; only a group without any other member is gone. An operation
/// that is not in flight is none to cancel.
pub proof fn law_cancellation_takes_out_one_operation<M>(
    registry: RegistryState<M>,
    token: OpToken,
)
    requires
        registry.wf(),
    ensures
        ({
            let post = registry.cancel(token);
            &&& post.ready == registry.ready
            &&& if !registry.in_flight.contains_key(token.0) {
                post == registry
            } else {
                &&& only_lands(registry, set![token.0], post)
                &&& match registry.in_flight[token.0].group {
                    None => post.groups == registry.groups,
                    Some(group) => {
                        &&& only_changes_group(registry, group, post)
                        &&& if !registry.groups.contains_key(group) {
                            !post.groups.contains_key(group)
                        } else if exists|other: OpToken| #[trigger]
                            registry.groups[group].members.contains(other) && other != token {
                            &&& post.groups.contains_key(group)
                            &&& only_loses(registry.groups[group], token, post.groups[group])
                        } else {
                            !post.groups.contains_key(group)
                        }
                    },
                }
            }
        }),
{
    if registry.in_flight.contains_key(token.0) {
        if let Some(group) = registry.in_flight[token.0].group {
            if registry.groups.contains_key(group) {
                let members = registry.groups[group].members;
                let left = super::registry::without(members, token);
                assert(registry.fits(token, registry.in_flight[token.0]));
                super::registry::lemma_without(members, token);
                lemma_without_is_filter(members, token);
                if exists|other: OpToken| #[trigger] members.contains(other) && other != token {
                    let other = choose|other: OpToken| #[trigger]
                        members.contains(other) && other != token;
                    assert(left.contains(other));
                } else if left.len() > 0 {
                    assert(left.contains(left[0]));
                    assert(members.contains(left[0]));
                }
            }
        }
    }
}

/// A race goes on without a member that is cancelled: when another member completes, its message is
/// delivered to the isolate, under its token.
pub proof fn law_race_goes_on_without_a_cancelled_member<M>(
    registry: RegistryState<M>,
    group: u32,
    cancelled: OpToken,
    winner: OpToken,
)
    requires
        registry.wf(),
        registry.groups.contains_key(group),
        registry.groups[group].policy is Select,
        cancelled != winner,
        registry.in_flight.contains_key(winner.0),
        registry.in_flight[winner.0].group == Some(group),
    ensures
        registry.cancel(cancelled).deliver(winner).messages == seq![
            Envelope {
                target: registry.in_flight[winner.0].target,
                message: registry.in_flight[winner.0].completion->0,
                token: Some(winner),
            },
        ],
        registry.in_flight[winner.0].completion is Some,
{
    law_cancellation_takes_out_one_operation(registry, cancelled);
    assert(registry.fits(winner, registry.in_flight[winner.0]));
    assert(registry.groups[group].members.contains(winner));
    let post = registry.cancel(cancelled);
    assert(post.in_flight.contains_key(winner.0));
    if registry.in_flight.contains_key(cancelled.0) && registry.in_flight[cancelled.0].group
        == Some(group) {
        assert(post.groups.contains_key(group));
    } else if registry.in_flight.contains_key(cancelled.0) {
        if let Some(other) = registry.in_flight[cancelled.0].group {
            assert(other != group);
            assert(post.groups.contains_key(group));
        }
    }
}

/// A join goes on without a member that is cancelled: it reports once the others have completed, in
/// whichever order they do, and not before.
pub proof fn law_join_goes_on_without_a_cancelled_member<M>(
    registry: RegistryState<M>,
    group: u32,
    cancelled: OpToken,
    order: Seq<OpToken>,
)
    requires
        registry.wf(),
        registry.groups.contains_key(group),
        registry.groups[group].policy is Join,
        registry.in_flight.contains_key(cancelled.0),
        registry.in_flight[cancelled.0].group == Some(group),
        order.len() > 0,
        order.no_duplicates(),
        forall|token: OpToken| #[trigger]
            order.contains(token) <==> registry.groups[group].members.contains(token) && token
                != cancelled,
        forall|token: OpToken| #[trigger]
            order.contains(token) ==> registry.in_flight.contains_key(token.0)
                && registry.in_flight[token.0].group == Some(group),
    ensures
        ({
            let post = registry.cancel(cancelled);
            let (token, message) = registry.groups[group].join->0;
            &&& super::laws::messages_of_all(post, order.drop_last()).len() == 0
            &&& super::laws::messages_of_all(post, order) == seq![
                Envelope { target: registry.groups[group].target, message, token: Some(token) },
            ]
        }),
{
    law_cancellation_takes_out_one_operation(registry, cancelled);
    super::registry::lemma_cancel_wf(registry, cancelled);
    let post = registry.cancel(cancelled);
    let members = registry.groups[group].members;
    assert(order.contains(order[0]));
    assert(members.contains(order[0]));
    assert(post.groups.contains_key(group));
    super::registry::lemma_without(members, cancelled);
    lemma_without_is_filter(members, cancelled);
    assert(post.groups[group].members == super::registry::without(members, cancelled));
    assert forall|token: OpToken| #[trigger] order.contains(token) implies
        post.in_flight.contains_key(token.0) && post.in_flight[token.0].group == Some(group) by {
        assert(registry.in_flight.contains_key(token.0));
    }
    super::laws::law_join_reports_once_after_all_members(post, group, order);
}

/// What is delivered of an operation, and to whom. An operation that is not in flight delivers
/// nothing, and one whose group is not open is dropped. A wait of its own delivers its message to
/// its isolate; so does the first member of a race, with which the race is over: no other member is
/// in flight any more, and those that were are cancelled, in the order of the group. A member of a
/// join delivers nothing, unless it was the last one, with which the message of the join is
/// delivered to its isolate. Nothing else changes.
pub proof fn law_delivery_goes_by_the_group<M>(registry: RegistryState<M>, token: OpToken)
    requires
        registry.wf(),
    ensures
        ({
            let delivery = registry.deliver(token);
            let post = delivery.registry;
            let operation = registry.in_flight[token.0];
            let told = Envelope {
                target: operation.target,
                message: operation.completion->0,
                token: Some(token),
            };
            &&& post.ready == registry.ready
            &&& if !registry.in_flight.contains_key(token.0) {
                &&& post == registry
                &&& delivery.messages.len() == 0
                &&& delivery.cancelled.len() == 0
            } else {
                match operation.group {
                    None => {
                        &&& delivery.messages == seq![told]
                        &&& delivery.cancelled.len() == 0
                        &&& only_lands(registry, set![token.0], post)
                        &&& post.groups == registry.groups
                    },
                    Some(group) => {
                        let opened = registry.groups[group];
                        &&& only_changes_group(registry, group, post)
                        &&& if !registry.groups.contains_key(group) {
                            &&& delivery.messages.len() == 0
                            &&& delivery.cancelled.len() == 0
                            &&& only_lands(registry, set![token.0], post)
                            &&& !post.groups.contains_key(group)
                        } else if opened.policy is Select {
                            &&& delivery.messages == seq![told]
                            &&& delivery.cancelled == opened.members.filter(
                                |member: OpToken|
                                    member != token && registry.in_flight.contains_key(member.0),
                            )
                            &&& only_lands(
                                registry,
                                Set::new(|number: u32| opened.members.contains(OpToken(number))),
                                post,
                            )
                            &&& !post.groups.contains_key(group)
                        } else {
                            &&& delivery.cancelled.len() == 0
                            &&& only_lands(registry, set![token.0], post)
                            &&& if opened.members.len() == 1 {
                                let (join_token, message) = opened.join->0;
                                &&& !post.groups.contains_key(group)
                                &&& delivery.messages == seq![
                                    Envelope {
                                        target: opened.target,
                                        message,
                                        token: Some(join_token),
                                    },
                                ]
                            } else {
                                &&& delivery.messages.len() == 0
                                &&& post.groups.contains_key(group)
                                &&& only_loses(opened, token, post.groups[group])
                            }
                        }
                    },
                }
            }
        }),
{
    if registry.in_flight.contains_key(token.0) {
        let operation = registry.in_flight[token.0];
        assert(registry.fits(token, operation));
        if let Some(group) = operation.group {
            if registry.groups.contains_key(group) {
                let opened = registry.groups[group];
                assert(opened.consistent());
                super::registry::lemma_without(opened.members, token);
                lemma_without_is_filter(opened.members, token);
                lemma_losers_are_filter(opened.members, registry.in_flight, token);
            }
        }
    }
}

proof fn lemma_losers_are_filter<M>(
    members: Seq<OpToken>,
    in_flight: Map<u32, InFlight<M>>,
    winner: OpToken,
)
    ensures
        super::registry::in_flight_of(members, in_flight.remove(winner.0)) == members.filter(
            |member: OpToken| member != winner && in_flight.contains_key(member.0),
        ),
    decreases members.len(),
{
    reveal(Seq::filter);
    if members.len() > 0 {
        lemma_losers_are_filter(members.drop_last(), in_flight, winner);
    } else {
        assert(members.filter(
            |member: OpToken| member != winner && in_flight.contains_key(member.0),
        ) =~= members);
    }
}

/// Ready completions are delivered in the order in which they were reported, from the first on,
/// until the queue is full or none is left. The messages are added at the end of the queue, all of
/// them and in order; none is lost, and none is added once the queue is full.
pub proof fn law_ready_completions_are_delivered_in_order<M>(
    start: Pumped<M>,
    capacity: nat,
) -> (count: int)
    ensures
        ({
            let post = start.pump(capacity);
            let ready = start.registry.ready;
            &&& 0 <= count <= ready.len()
            &&& post.registry.ready == ready.skip(count)
            &&& post.queue == start.queue + super::laws::messages_of_all(
                start.registry,
                ready.take(count),
            )
            &&& post.registry.in_flight == super::laws::deliver_all(
                start.registry,
                ready.take(count),
            ).in_flight
            &&& post.registry.groups == super::laws::deliver_all(
                start.registry,
                ready.take(count),
            ).groups
            &&& post.cancelled == start.cancelled + cancelled_by_all(
                start.registry,
                ready.take(count),
            )
            &&& count == ready.len() || post.queue.len() >= capacity
            &&& count > 0 ==> start.queue.len() + super::laws::messages_of_all(
                start.registry,
                ready.take(count - 1),
            ).len() < capacity
        }),
    decreases start.registry.ready.len(),
{
    let ready = start.registry.ready;
    if start.queue.len() >= capacity || ready.len() == 0 {
        assert(ready.take(0) =~= Seq::empty());
        assert(ready.skip(0) =~= ready);
        assert(start.queue =~= start.queue + super::laws::messages_of_all(
            start.registry,
            ready.take(0),
        ));
        assert(start.cancelled =~= start.cancelled + cancelled_by_all(
            start.registry,
            ready.take(0),
        ));
        0
    } else {
        let first = ready[0];
        let next = start.deliver_next();
        let rest = RegistryState { ready: ready.skip(1), ..start.registry };
        lemma_delivery_ignores_ready(start.registry, ready.skip(1), first);
        assert(next.registry.ready == ready.skip(1));
        let further = law_ready_completions_are_delivered_in_order(next, capacity);
        let count = further + 1;
        let taken = ready.take(count);
        let later = ready.skip(1).take(further);
        assert(taken =~= seq![first] + later);
        lemma_deliver_first(start.registry, first, later);
        lemma_deliver_ignores_ready(
            start.registry.deliver(first).registry,
            next.registry.ready,
            later,
        );
        let landed = start.registry.deliver(first).registry;
        assert(next.registry == (RegistryState { ready: next.registry.ready, ..landed }));
        assert(ready.skip(1).skip(further) =~= ready.skip(count));
        assert(start.pump(capacity) == next.pump(capacity));
        assert(next.queue + super::laws::messages_of_all(next.registry, later) =~= start.queue
            + super::laws::messages_of_all(start.registry, taken));
        assert(next.cancelled + cancelled_by_all(next.registry, later) =~= start.cancelled
            + cancelled_by_all(start.registry, taken));
        if further > 0 {
            let before = ready.skip(1).take(further - 1);
            assert(ready.take(count - 1) =~= seq![first] + before);
            lemma_deliver_first(start.registry, first, before);
            lemma_deliver_ignores_ready(landed, next.registry.ready, before);
        } else {
            assert(ready.take(0) =~= Seq::empty());
        }
        count
    }
}

/// The operations that delivering the completions of `tokens` cancels, in order.
pub open spec fn cancelled_by_all<M>(registry: RegistryState<M>, tokens: Seq<OpToken>) -> Seq<
    OpToken,
>
    decreases tokens.len(),
{
    if tokens.len() == 0 {
        Seq::empty()
    } else {
        cancelled_by_all(registry, tokens.drop_last()) + super::laws::deliver_all(
            registry,
            tokens.drop_last(),
        ).deliver(tokens.last()).cancelled
    }
}

/// What is ready makes no difference to what a completion delivers.
proof fn lemma_delivery_ignores_ready<M>(
    registry: RegistryState<M>,
    ready: Seq<OpToken>,
    token: OpToken,
)
    ensures
        ({
            let other = RegistryState { ready, ..registry };
            &&& other.deliver(token).messages == registry.deliver(token).messages
            &&& other.deliver(token).cancelled == registry.deliver(token).cancelled
            &&& other.deliver(token).registry == (RegistryState {
                ready,
                ..registry.deliver(token).registry
            })
        }),
{
}

proof fn lemma_deliver_ignores_ready<M>(
    registry: RegistryState<M>,
    ready: Seq<OpToken>,
    tokens: Seq<OpToken>,
)
    ensures
        ({
            let other = RegistryState { ready, ..registry };
            &&& super::laws::messages_of_all(other, tokens) == super::laws::messages_of_all(
                registry,
                tokens,
            )
            &&& cancelled_by_all(other, tokens) == cancelled_by_all(registry, tokens)
            &&& super::laws::deliver_all(other, tokens) == (RegistryState {
                ready,
                ..super::laws::deliver_all(registry, tokens)
            })
        }),
    decreases tokens.len(),
{
    if tokens.len() > 0 {
        lemma_deliver_ignores_ready(registry, ready, tokens.drop_last());
        lemma_delivery_ignores_ready(
            super::laws::deliver_all(registry, tokens.drop_last()),
            ready,
            tokens.last(),
        );
    }
}

/// Delivering several completions is delivering the first one and then the others.
proof fn lemma_deliver_first<M>(
    registry: RegistryState<M>,
    first: OpToken,
    later: Seq<OpToken>,
)
    ensures
        ({
            let delivery = registry.deliver(first);
            let all = seq![first] + later;
            &&& super::laws::deliver_all(registry, all) == super::laws::deliver_all(
                delivery.registry,
                later,
            )
            &&& super::laws::messages_of_all(registry, all) == delivery.messages
                + super::laws::messages_of_all(delivery.registry, later)
            &&& cancelled_by_all(registry, all) == delivery.cancelled + cancelled_by_all(
                delivery.registry,
                later,
            )
        }),
    decreases later.len(),
{
    reveal_with_fuel(super::laws::deliver_all, 2);
    reveal_with_fuel(super::laws::messages_of_all, 2);
    reveal_with_fuel(cancelled_by_all, 2);
    let delivery = registry.deliver(first);
    let all = seq![first] + later;
    if later.len() == 0 {
        assert(all.drop_last() =~= Seq::empty());
        assert(all.last() == first);
        assert(super::laws::messages_of_all(registry, all) =~= delivery.messages
            + super::laws::messages_of_all(delivery.registry, later));
        assert(cancelled_by_all(registry, all) =~= delivery.cancelled + cancelled_by_all(
            delivery.registry,
            later,
        ));
    } else {
        lemma_deliver_first(registry, first, later.drop_last());
        assert(all.drop_last() =~= seq![first] + later.drop_last());
        assert(all.last() == later.last());
        assert(super::laws::messages_of_all(registry, all) =~= delivery.messages
            + super::laws::messages_of_all(delivery.registry, later));
        assert(cancelled_by_all(registry, all) =~= delivery.cancelled + cancelled_by_all(
            delivery.registry,
            later,
        ));
    }
}

/// An operation that is registered is in flight as it was registered; a group that is opened is
/// open as it was given. Neither touches anything else.
pub proof fn law_registered_operations_are_in_flight<M>(
    registry: RegistryState<M>,
    token: OpToken,
    operation: InFlight<M>,
    id: u32,
    group: GroupState<M>,
    other: u32,
)
    ensures
        ({
            let post = registry.register(token, operation);
            &&& post.in_flight.contains_key(token.0)
            &&& post.in_flight[token.0] == operation
            &&& other != token.0 ==> post.in_flight.contains_key(other)
                == registry.in_flight.contains_key(other)
            &&& other != token.0 && registry.in_flight.contains_key(other)
                ==> post.in_flight[other] == registry.in_flight[other]
            &&& post.groups == registry.groups
            &&& post.ready == registry.ready
        }),
        ({
            let post = registry.open_group(id, group);
            &&& post.groups.contains_key(id)
            &&& post.groups[id] == group
            &&& only_changes_group(registry, id, post)
            &&& post.in_flight == registry.in_flight
            &&& post.ready == registry.ready
        }),
{
}

/// The destruction of an isolate takes out its operations and its groups, and what was ready of
/// them; everything else stays as it was, in its order.
pub proof fn law_destruction_takes_out_what_belongs_to_the_isolate<M>(
    registry: RegistryState<M>,
    target: Handle,
    number: u32,
)
    ensures
        ({
            let post = registry.purge(target);
            &&& post.in_flight.contains_key(number) <==> registry.in_flight.contains_key(number)
                && registry.in_flight[number].target != target
            &&& post.in_flight.contains_key(number) ==> post.in_flight[number]
                == registry.in_flight[number]
            &&& post.groups.contains_key(number) <==> registry.groups.contains_key(number)
                && registry.groups[number].target != target
            &&& post.groups.contains_key(number) ==> post.groups[number]
                == registry.groups[number]
            &&& post.ready == registry.ready.filter(
                |token: OpToken|
                    registry.in_flight.contains_key(token.0) && registry.in_flight[token.0].target
                        != target,
            )
        }),
{
    lemma_left_is_filter(registry, target, registry.ready);
}

proof fn lemma_left_is_filter<M>(
    registry: RegistryState<M>,
    target: Handle,
    ready: Seq<OpToken>,
)
    ensures
        super::registry::in_flight_of(ready, registry.purge(target).in_flight) == ready.filter(
            |token: OpToken|
                registry.in_flight.contains_key(token.0) && registry.in_flight[token.0].target
                    != target,
        ),
    decreases ready.len(),
{
    reveal(Seq::filter);
    if ready.len() > 0 {
        lemma_left_is_filter(registry, target, ready.drop_last());
    } else {
        assert(ready.filter(
            |token: OpToken|
                registry.in_flight.contains_key(token.0) && registry.in_flight[token.0].target
                    != target,
        ) =~= ready);
    }
}

/// The registry is empty where no operation is in flight and none waits to be delivered, and only
/// there.
pub proof fn law_empty_registry_waits_for_nothing<M>(registry: RegistryState<M>)
    ensures
        registry.is_empty() <==> registry.ready.len() == 0 && forall|token: u32|
            !(#[trigger] registry.in_flight.contains_key(token)),
        RegistryState::<M>::empty().is_empty(),
        forall|group: u32| !(#[trigger] RegistryState::<M>::empty().groups.contains_key(group)),
{
    if registry.ready.len() == 0 && forall|token: u32|
        !(#[trigger] registry.in_flight.contains_key(token)) {
        assert(registry.in_flight =~= Map::empty());
    }
}

} // verus!
