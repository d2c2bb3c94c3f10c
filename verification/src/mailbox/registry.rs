//! The wait registry: which isolate armed an operation, what to tell it on completion, and how the
//! operations of a group complete together.

use std::collections::{HashMap, VecDeque};

use vstd::prelude::*;

use crate::arena::Handle;

use super::backend::WaitBackend;
use super::effects::{OpToken, RuntimeMessage};
use super::turn::GroupPolicy;

verus! {

broadcast use vstd::std_specs::hash::group_hash_axioms;

/// A message on its way to an isolate.
#[derive(Clone, Debug, PartialEq, Eq)]
pub struct Envelope<M> {
    pub target: Handle,
    pub message: RuntimeMessage<M>,
    /// Set where the message reports the completion of an operation, so that the isolate can tell
    /// which of its waits it is.
    pub token: Option<OpToken>,
}

/// An armed operation that has not completed.
pub struct InFlight<M> {
    pub target: Handle,
    /// The message to deliver on completion, or `None` for a member of a group that suppresses it.
    pub completion: Option<RuntimeMessage<M>>,
    pub group: Option<u32>,
}

/// A group of operations that share a policy.
struct Group<M> {
    policy: GroupPolicy,
    target: Handle,
    remaining: usize,
    members: Vec<OpToken>,
    join: Option<(OpToken, RuntimeMessage<M>)>,
}

/// What the registry knows of a group.
#[verifier::ext_equal]
pub struct GroupState<M> {
    pub policy: GroupPolicy,
    pub target: Handle,
    /// How many members have yet to complete.
    pub remaining: nat,
    pub members: Seq<OpToken>,
    /// The token and the message to deliver once a `Join` group is complete.
    pub join: Option<(OpToken, RuntimeMessage<M>)>,
}

impl<M> GroupState<M> {
    /// The members are those that have yet to complete, each named once, and a join has something
    /// to deliver.
    pub open spec fn consistent(self) -> bool {
        &&& self.remaining == self.members.len()
        &&& self.members.no_duplicates()
        &&& self.policy is Join ==> self.join is Some
    }

    /// The operation can be a member: it is listed, and has a completion if it may win.
    pub open spec fn admits(self, token: OpToken, operation: InFlight<M>) -> bool {
        &&& self.members.contains(token)
        &&& self.policy is Select ==> operation.completion is Some
    }

    /// The group with one member less.
    pub open spec fn without(self, token: OpToken) -> Self {
        GroupState {
            remaining: (self.remaining - 1) as nat,
            members: without(self.members, token),
            ..self
        }
    }
}

impl<M> View for Group<M> {
    type V = GroupState<M>;

    closed spec fn view(&self) -> GroupState<M> {
        GroupState {
            policy: self.policy,
            target: self.target,
            remaining: self.remaining as nat,
            members: self.members@,
            join: self.join,
        }
    }
}

/// `tokens` without `token`.
pub open spec fn without(tokens: Seq<OpToken>, token: OpToken) -> Seq<OpToken>
    decreases tokens.len(),
{
    if tokens.len() == 0 {
        tokens
    } else {
        let earlier = without(tokens.drop_last(), token);
        if tokens.last() == token {
            earlier
        } else {
            earlier.push(tokens.last())
        }
    }
}

/// Those of `tokens` that are in flight, in order.
pub open spec fn in_flight_of<M>(tokens: Seq<OpToken>, in_flight: Map<u32, InFlight<M>>) -> Seq<
    OpToken,
>
    decreases tokens.len(),
{
    if tokens.len() == 0 {
        tokens
    } else {
        let earlier = in_flight_of(tokens.drop_last(), in_flight);
        if in_flight.contains_key(tokens.last().0) {
            earlier.push(tokens.last())
        } else {
            earlier
        }
    }
}

/// `in_flight` without the operations of `tokens`.
pub open spec fn grounded<M>(in_flight: Map<u32, InFlight<M>>, tokens: Seq<OpToken>) -> Map<
    u32,
    InFlight<M>,
> {
    Map::new(
        |token: u32| in_flight.contains_key(token) && !tokens.contains(OpToken(token)),
        |token: u32| in_flight[token],
    )
}

/// What delivering a completion gives: the registry after it, the message to deliver if there is
/// one, and the operations to cancel.
#[verifier::ext_equal]
pub struct Delivery<M> {
    pub registry: RegistryState<M>,
    pub messages: Seq<Envelope<M>>,
    pub cancelled: Seq<OpToken>,
}

/// What a [`WaitRegistry`] holds: the operations in flight by the number of their token, the groups
/// by their number, and the tokens reported ready, in order.
#[verifier::ext_equal]
pub struct RegistryState<M> {
    pub in_flight: Map<u32, InFlight<M>>,
    pub groups: Map<u32, GroupState<M>>,
    pub ready: Seq<OpToken>,
}

impl<M> RegistryState<M> {
    pub open spec fn empty() -> Self {
        RegistryState { in_flight: Map::empty(), groups: Map::empty(), ready: Seq::empty() }
    }

    /// Nothing is in flight and nothing waits to be delivered.
    pub open spec fn is_empty(self) -> bool {
        self.in_flight.is_empty() && self.ready.len() == 0
    }

    /// The operation fits in: it has a completion of its own, or its group, where open, admits it.
    pub open spec fn fits(self, token: OpToken, operation: InFlight<M>) -> bool {
        match operation.group {
            None => operation.completion is Some,
            Some(group) => self.groups.contains_key(group) ==> self.groups[group].admits(
                token,
                operation,
            ),
        }
    }

    /// Every operation in flight fits in, and every group is consistent.
    pub open spec fn wf(self) -> bool {
        &&& forall|token: u32|
            self.in_flight.contains_key(token) ==> self.fits(
                OpToken(token),
                #[trigger] self.in_flight[token],
            )
        &&& forall|group: u32|
            self.groups.contains_key(group) ==> (#[trigger] self.groups[group]).consistent()
    }

    /// Every token and every group that the registry knows was minted before the given numbers.
    pub open spec fn minted_before(self, next_token: u32, next_group: u32) -> bool {
        &&& forall|token: u32| #[trigger] self.in_flight.contains_key(token) ==> token < next_token
        &&& forall|token: u32|
            self.in_flight.contains_key(token) ==> match (#[trigger] self.in_flight[token]).group {
                Some(group) => group < next_group,
                None => true,
            }
        &&& forall|group: u32| #[trigger] self.groups.contains_key(group) ==> group < next_group
    }

    /// All that `post` knows, this registry knows too, the operations in the same way.
    pub open spec fn shrinks_to(self, post: Self) -> bool {
        &&& forall|token: u32| #[trigger]
            post.in_flight.contains_key(token) ==> self.in_flight.contains_key(token)
                && post.in_flight[token] == self.in_flight[token]
        &&& forall|group: u32| #[trigger]
            post.groups.contains_key(group) ==> self.groups.contains_key(group)
    }

    pub open spec fn register(self, token: OpToken, operation: InFlight<M>) -> Self {
        RegistryState { in_flight: self.in_flight.insert(token.0, operation), ..self }
    }

    pub open spec fn open_group(self, id: u32, group: GroupState<M>) -> Self {
        RegistryState { groups: self.groups.insert(id, group), ..self }
    }

    /// The operation of `token` is no longer in flight.
    pub open spec fn land(self, token: OpToken) -> Self {
        RegistryState { in_flight: self.in_flight.remove(token.0), ..self }
    }

    /// Group `group` has lost `token`; with the last of its members the group is gone too.
    pub open spec fn leave_group(self, group: u32, token: OpToken) -> Self {
        if !self.groups.contains_key(group) {
            self
        } else {
            let left = self.groups[group].without(token);
            if left.members.len() == 0 {
                RegistryState { groups: self.groups.remove(group), ..self }
            } else {
                RegistryState { groups: self.groups.insert(group, left), ..self }
            }
        }
    }

    /// The registry after the cancellation of `token`. One that is not in flight changes nothing.
    pub open spec fn cancel(self, token: OpToken) -> Self {
        if !self.in_flight.contains_key(token.0) {
            self
        } else {
            match self.in_flight[token.0].group {
                None => self.land(token),
                Some(group) => self.land(token).leave_group(group, token),
            }
        }
    }

    /// The registry without anything that belongs to `target`.
    pub open spec fn purge(self, target: Handle) -> Self {
        let in_flight = Map::new(
            |token: u32|
                self.in_flight.contains_key(token) && self.in_flight[token].target != target,
            |token: u32| self.in_flight[token],
        );
        RegistryState {
            in_flight,
            groups: Map::new(
                |group: u32| self.groups.contains_key(group) && self.groups[group].target != target,
                |group: u32| self.groups[group],
            ),
            ready: in_flight_of(self.ready, in_flight),
        }
    }

    /// `order` names every operation of `target` once, and nothing else.
    pub open spec fn lists_operations_of(self, target: Handle, order: Seq<OpToken>) -> bool {
        &&& order.no_duplicates()
        &&& forall|token: OpToken| #[trigger]
            order.contains(token) <==> self.in_flight.contains_key(token.0)
                && self.in_flight[token.0].target == target
    }

    /// Cancelling every operation of `target`, in some order, may take the backend from `before` to
    /// `after`.
    pub open spec fn may_cancel_operations_of<B: WaitBackend>(
        self,
        target: Handle,
        before: B,
        after: B,
    ) -> bool {
        exists|order: Seq<OpToken>| #[trigger]
            self.lists_operations_of(target, order) && super::backend::may_cancel_all(
                before,
                order,
                after,
            )
    }

    /// What the completion of `token` gives.
    pub open spec fn deliver(self, token: OpToken) -> Delivery<M> {
        if !self.in_flight.contains_key(token.0) {
            Delivery { registry: self, messages: Seq::empty(), cancelled: Seq::empty() }
        } else {
            let operation = self.in_flight[token.0];
            let landed = self.land(token);
            match operation.group {
                None => Delivery {
                    registry: landed,
                    messages: seq![completion_of(token, operation)],
                    cancelled: Seq::empty(),
                },
                Some(group) => landed.complete_member(token, operation, group),
            }
        }
    }

    /// What the completion of an operation of group `group` gives, once it is in flight no more.
    /// That of a group that is not open is dropped.
    pub open spec fn complete_member(
        self,
        token: OpToken,
        operation: InFlight<M>,
        group: u32,
    ) -> Delivery<M> {
        if !self.groups.contains_key(group) {
            Delivery { registry: self, messages: Seq::empty(), cancelled: Seq::empty() }
        } else {
            match self.groups[group].policy {
                GroupPolicy::Select => self.win(token, operation, group),
                GroupPolicy::Join => self.arrive(token, group),
            }
        }
    }

    /// The first member of a race completes: it delivers its completion, the group is gone, and
    /// the members still in flight are cancelled.
    pub open spec fn win(self, token: OpToken, operation: InFlight<M>, group: u32) -> Delivery<M> {
        let members = self.groups[group].members;
        Delivery {
            registry: RegistryState {
                in_flight: grounded(self.in_flight, members),
                groups: self.groups.remove(group),
                ..self
            },
            messages: seq![completion_of(token, operation)],
            cancelled: in_flight_of(members, self.in_flight),
        }
    }

    /// A member of a join completes: with the last one the group is gone and the completion of the
    /// join is delivered.
    pub open spec fn arrive(self, token: OpToken, group: u32) -> Delivery<M> {
        let left = self.groups[group].without(token);
        let (join_token, message) = left.join->0;
        if left.remaining == 0 {
            Delivery {
                registry: RegistryState { groups: self.groups.remove(group), ..self },
                messages: seq![
                    Envelope { target: left.target, message, token: Some(join_token) },
                ],
                cancelled: Seq::empty(),
            }
        } else {
            Delivery {
                registry: RegistryState { groups: self.groups.insert(group, left), ..self },
                messages: Seq::empty(),
                cancelled: Seq::empty(),
            }
        }
    }
}

/// The message that reports the completion of an operation.
pub open spec fn completion_of<M>(token: OpToken, operation: InFlight<M>) -> Envelope<M> {
    Envelope {
        target: operation.target,
        message: operation.completion->0,
        token: Some(token),
    }
}

/// What delivering ready completions makes of the registry and of the message queue, and which
/// operations it cancels.
#[verifier::ext_equal]
pub struct Pumped<M> {
    pub registry: RegistryState<M>,
    pub queue: Seq<Envelope<M>>,
    pub cancelled: Seq<OpToken>,
}

impl<M> Pumped<M> {
    pub open spec fn start(registry: RegistryState<M>, queue: Seq<Envelope<M>>) -> Self {
        Pumped { registry, queue, cancelled: Seq::empty() }
    }

    /// Delivers ready completions in order while the queue is below `capacity`.
    pub open spec fn pump(self, capacity: nat) -> Self
        decreases self.registry.ready.len(),
    {
        if self.queue.len() >= capacity || self.registry.ready.len() == 0 {
            self
        } else {
            let next = self.deliver_next();
            if next.registry.ready.len() < self.registry.ready.len() {
                next.pump(capacity)
            } else {
                next
            }
        }
    }

    /// Delivers the first of the ready completions.
    pub open spec fn deliver_next(self) -> Self {
        let rest = RegistryState { ready: self.registry.ready.skip(1), ..self.registry };
        let delivery = rest.deliver(self.registry.ready[0]);
        Pumped {
            registry: delivery.registry,
            queue: self.queue + delivery.messages,
            cancelled: self.cancelled + delivery.cancelled,
        }
    }
}

/// Owns the completion messages and the group policies of all operations in flight.
///
/// The backend knows tokens only; the registry maps a completing token back to the isolate that
/// armed it, the message to deliver, and what its group asks for.
pub struct WaitRegistry<M> {
    in_flight: HashMap<u32, InFlight<M>>,
    groups: HashMap<u32, Group<M>>,
    ready: VecDeque<OpToken>,
}

impl<M> View for WaitRegistry<M> {
    type V = RegistryState<M>;

    closed spec fn view(&self) -> RegistryState<M> {
        RegistryState {
            in_flight: self.in_flight@,
            groups: self.groups@.map_values(|group: Group<M>| group@),
            ready: self.ready@,
        }
    }
}

impl<M> WaitRegistry<M> {
    pub fn new() -> (registry: Self)
        ensures
            registry@ == RegistryState::<M>::empty(),
            registry@.wf(),
    {
        Self { in_flight: HashMap::new(), groups: HashMap::new(), ready: VecDeque::new() }
    }

    /// Registers an armed operation.
    pub fn register(
        &mut self,
        token: OpToken,
        target: Handle,
        completion: Option<RuntimeMessage<M>>,
        group: Option<u32>,
    )
        requires
            old(self)@.wf(),
            old(self)@.fits(token, (InFlight { target, completion, group })),
        ensures
            final(self)@.wf(),
            final(self)@ == old(self)@.register(token, (InFlight { target, completion, group })),
    {
        let ghost pre = self@;
        let operation = InFlight { target, completion, group };
        let ghost made = operation;
        self.in_flight.insert(token.0, operation);
        assert(self@ =~= pre.register(token, made));
    }

    /// Opens a group, before its members are registered.
    pub fn open_group(
        &mut self,
        id: u32,
        policy: GroupPolicy,
        target: Handle,
        members: Vec<OpToken>,
        join: Option<(OpToken, RuntimeMessage<M>)>,
    )
        requires
            old(self)@.wf(),
            members@.no_duplicates(),
            policy is Join ==> join is Some,
            forall|token: u32|
                old(self)@.in_flight.contains_key(token) && (
                #[trigger] old(self)@.in_flight[token]).group == Some(id) ==> {
                    &&& members@.contains(OpToken(token))
                    &&& policy is Select ==> old(self)@.in_flight[token].completion is Some
                },
        ensures
            final(self)@.wf(),
            final(self)@ == old(self)@.open_group(
                id,
                (GroupState {
                    policy,
                    target,
                    remaining: members@.len(),
                    members: members@,
                    join,
                }),
            ),
    {
        let ghost pre = self@;
        let remaining: usize = members.len();
        let group = Group { policy, target, remaining, members, join };
        let ghost made = group@;
        self.groups.insert(id, group);
        assert(self@ =~= pre.open_group(id, made));
    }

    /// Queues the tokens that the backend reported, for delivery.
    pub fn enqueue_ready(&mut self, tokens: &Vec<OpToken>)
        requires
            old(self)@.wf(),
        ensures
            final(self)@.wf(),
            final(self)@ == (RegistryState { ready: old(self)@.ready + tokens@, ..old(self)@ }),
    {
        let ghost pre = self@;
        let mut next: usize = 0;
        while next < tokens.len()
            invariant
                next <= tokens@.len(),
                self@ == (RegistryState {
                    ready: pre.ready + tokens@.take(next as int),
                    ..pre
                }),
            decreases tokens@.len() - next,
        {
            self.ready.push_back(tokens[next]);
            next += 1;
        }
    }

    /// Whether nothing is in flight and nothing waits to be delivered.
    pub fn is_empty(&self) -> (result: bool)
        ensures
            result == self@.is_empty(),
    {
        self.in_flight.is_empty() && self.ready.len() == 0
    }

    /// Cancels one operation, in the backend too. Where it belongs to a group, the group loses it,
    /// and is gone with its last member.
    pub fn cancel_token<B: WaitBackend>(&mut self, token: OpToken, backend: &mut B)
        requires
            old(self)@.wf(),
        ensures
            final(self)@.wf(),
            final(self)@ == old(self)@.cancel(token),
            if old(self)@.in_flight.contains_key(token.0) {
                old(backend).may_cancel(token, *final(backend))
            } else {
                *final(backend) == *old(backend)
            },
    {
        let ghost pre = self@;
        match self.in_flight.remove(&token.0) {
            None => {
                assert(self@ =~= pre);
            },
            Some(operation) => {
                backend.cancel(token);
                proof {
                    lemma_cancel_wf(pre, token);
                }
                if let Some(group) = operation.group {
                    self.remove_group_member(group, token);
                }
            },
        }
    }

    /// Delivers ready completions into `queue` while it is below `capacity`, cancelling the losers
    /// of races in the backend.
    pub fn pump<B: WaitBackend>(
        &mut self,
        queue: &mut VecDeque<Envelope<M>>,
        capacity: usize,
        backend: &mut B,
    )
        requires
            old(self)@.wf(),
        ensures
            final(self)@.wf(),
            ({
                let pumped = Pumped::start(old(self)@, old(queue)@).pump(capacity as nat);
                &&& final(self)@ == pumped.registry
                &&& final(queue)@ == pumped.queue
                &&& super::backend::may_cancel_all(
                    *old(backend),
                    pumped.cancelled,
                    *final(backend),
                )
            }),
    {
        let ghost all = Pumped::start(self@, queue@).pump(capacity as nat);
        let ghost before = *backend;
        let ghost mut cancelled = Seq::<OpToken>::empty();
        while queue.len() < capacity && self.ready.len() > 0
            invariant
                self@.wf(),
                before == *old(backend),
                all == Pumped::start(old(self)@, old(queue)@).pump(capacity as nat),
                all == (Pumped { registry: self@, queue: queue@, cancelled }).pump(capacity as nat),
                super::backend::may_cancel_all(before, cancelled, *backend),
            decreases self.ready.len(),
        {
            let ghost now = Pumped { registry: self@, queue: queue@, cancelled };
            let ghost reached = *backend;
            if let Some(token) = self.ready.pop_front() {
                let ghost rest = RegistryState { ready: now.registry.ready.skip(1), ..now.registry };
                self.deliver(token, queue, backend);
                proof {
                    super::backend::lemma_cancel_all_concat(
                        before,
                        cancelled,
                        reached,
                        rest.deliver(token).cancelled,
                        *backend,
                    );
                    cancelled = cancelled + rest.deliver(token).cancelled;
                }
            }
        }
    }

    fn deliver<B: WaitBackend>(
        &mut self,
        token: OpToken,
        queue: &mut VecDeque<Envelope<M>>,
        backend: &mut B,
    )
        requires
            old(self)@.wf(),
        ensures
            final(self)@.wf(),
            ({
                let delivery = old(self)@.deliver(token);
                &&& final(self)@ == delivery.registry
                &&& final(queue)@ == old(queue)@ + delivery.messages
                &&& super::backend::may_cancel_all(
                    *old(backend),
                    delivery.cancelled,
                    *final(backend),
                )
            }),
    {
        let ghost pre = self@;
        proof {
            lemma_deliver_wf(pre, token);
        }
        match self.in_flight.remove(&token.0) {
            // Cancelled or delivered before.
            None => {},
            Some(operation) => {
                match operation.group {
                    None => {
                        if let Some(message) = operation.completion {
                            queue.push_back(
                                Envelope { target: operation.target, message, token: Some(token) },
                            );
                        }
                    },
                    Some(group) => self.deliver_grouped(group, token, operation, queue, backend),
                }
            },
        }
    }

    /// Delivers the completion of an operation of group `group` that is in flight no more.
    fn deliver_grouped<B: WaitBackend>(
        &mut self,
        group: u32,
        token: OpToken,
        operation: InFlight<M>,
        queue: &mut VecDeque<Envelope<M>>,
        backend: &mut B,
    )
        requires
            old(self)@.wf(),
            !old(self)@.in_flight.contains_key(token.0),
            old(self)@.groups.contains_key(group) ==> old(self)@.groups[group].admits(
                token,
                operation,
            ),
        ensures
            ({
                let delivery = old(self)@.complete_member(token, operation, group);
                &&& final(self)@ == delivery.registry
                &&& final(queue)@ == old(queue)@ + delivery.messages
                &&& super::backend::may_cancel_all(
                    *old(backend),
                    delivery.cancelled,
                    *final(backend),
                )
            }),
    {
        match self.groups.remove(&group) {
            None => {},
            Some(mut opened) => {
                match opened.policy {
                    GroupPolicy::Select => {
                        if let Some(message) = operation.completion {
                            queue.push_back(
                                Envelope { target: operation.target, message, token: Some(token) },
                            );
                        }
                        self.ground(opened.members, backend);
                    },
                    GroupPolicy::Join => {
                        opened.remaining -= 1;
                        opened.members = without_token(opened.members, token);
                        if opened.remaining == 0 {
                            if let Some((join_token, message)) = opened.join {
                                queue.push_back(
                                    Envelope {
                                        target: opened.target,
                                        message,
                                        token: Some(join_token),
                                    },
                                );
                            }
                        } else {
                            self.groups.insert(group, opened);
                        }
                    },
                }
            },
        }
    }

    /// Takes those of `tokens` that are in flight down, in the backend too.
    fn ground<B: WaitBackend>(&mut self, tokens: Vec<OpToken>, backend: &mut B)
        requires
            tokens@.no_duplicates(),
        ensures
            final(self)@ == (RegistryState {
                in_flight: grounded(old(self)@.in_flight, tokens@),
                ..old(self)@
            }),
            super::backend::may_cancel_all(
                *old(backend),
                in_flight_of(tokens@, old(self)@.in_flight),
                *final(backend),
            ),
    {
        let ghost pre = self@;
        let ghost before = *backend;
        let mut next: usize = 0;
        while next < tokens.len()
            invariant
                next <= tokens@.len(),
                tokens@.no_duplicates(),
                self@ == (RegistryState {
                    in_flight: grounded(pre.in_flight, tokens@.take(next as int)),
                    ..pre
                }),
                super::backend::may_cancel_all(
                    before,
                    in_flight_of(tokens@.take(next as int), pre.in_flight),
                    *backend,
                ),
            decreases tokens@.len() - next,
        {
            let ghost reached = *backend;
            let ghost seen = tokens@.take(next as int);
            let token = tokens[next];
            proof {
                assert(tokens@.take(next + 1) =~= seen.push(token));
                assert(tokens@.take(next + 1).drop_last() =~= seen);
                assert forall|other: OpToken| #[trigger]
                    seen.push(token).contains(other) <==> seen.contains(other) || other
                    == token by {
                    lemma_push_contains(seen, token, other);
                }
            }
            if self.in_flight.remove(&token.0).is_some() {
                backend.cancel(token);
                proof {
                    let cancelled = in_flight_of(seen, pre.in_flight);
                    assert(cancelled.push(token).drop_last() =~= cancelled);
                    assert(reached.may_cancel(cancelled.push(token).last(), *backend));
                }
            }
            next += 1;
        }
        assert(tokens@.take(next as int) =~= tokens@);
    }

    fn remove_group_member(&mut self, group: u32, token: OpToken)
        requires
            old(self)@.groups.contains_key(group) ==> {
                &&& old(self)@.groups[group].consistent()
                &&& old(self)@.groups[group].members.contains(token)
            },
        ensures
            final(self)@ == old(self)@.leave_group(group, token),
    {
        match self.groups.remove(&group) {
            None => {},
            Some(mut opened) => {
                opened.members = without_token(opened.members, token);
                opened.remaining = opened.remaining.saturating_sub(1);
                if opened.members.len() > 0 {
                    self.groups.insert(group, opened);
                }
            },
        }
    }

    /// Cancels every operation of `target`, in the backend too, and forgets its groups. In which
    /// order the backend is told is left open.
    pub fn purge_owner<B: WaitBackend>(&mut self, target: Handle, backend: &mut B)
        requires
            old(self)@.wf(),
        ensures
            final(self)@.wf(),
            final(self)@ == old(self)@.purge(target),
            old(self)@.may_cancel_operations_of(target, *old(backend), *final(backend)),
    {
        let ghost pre = self@;
        let doomed = self.operations_of(target);
        let ghost order = doomed@;
        self.ground(doomed, backend);
        proof {
            assert forall|i: int| 0 <= i < order.len() implies pre.in_flight.contains_key(
                (#[trigger] order[i]).0,
            ) by {
                assert(order.contains(order[i]));
            }
            lemma_all_in_flight(order, pre.in_flight);
        }
        assert(self@.in_flight =~= pre.purge(target).in_flight);
        self.forget_groups_of(target);
        self.forget_landed();
    }

    /// The operations of `target`, in no particular order.
    fn operations_of(&self, target: Handle) -> (tokens: Vec<OpToken>)
        ensures
            self@.lists_operations_of(target, tokens@),
    {
        let keys = keys_of(&self.in_flight);
        let mut tokens: Vec<OpToken> = Vec::new();
        let mut next: usize = 0;
        while next < keys.len()
            invariant
                next <= keys@.len(),
                keys@.no_duplicates(),
                forall|key: u32| #[trigger] keys@.contains(key) <==> self.in_flight@.contains_key(key),
                tokens@.no_duplicates(),
                forall|token: OpToken| #[trigger]
                    tokens@.contains(token) <==> keys@.take(next as int).contains(token.0)
                        && self.in_flight@[token.0].target == target,
            decreases keys@.len() - next,
        {
            let key: u32 = keys[next];
            let ghost seen = keys@.take(next as int);
            let ghost listed = tokens@;
            proof {
                assert(keys@.take(next + 1) =~= seen.push(key));
                assert(keys@.contains(key));
                assert forall|other: OpToken|
                    seen.push(key).contains(other.0) <==> seen.contains(other.0) || other.0
                    == key by {
                    lemma_push_contains(seen, key, other.0);
                }
                assert forall|other: OpToken| #[trigger]
                    listed.push(OpToken(key)).contains(other) <==> listed.contains(other) || other
                    == OpToken(key) by {
                    lemma_push_contains(listed, OpToken(key), other);
                }
            }
            if let Some(operation) = self.in_flight.get(&key) {
                if operation.target == target {
                    assert(!listed.contains(OpToken(key)));
                    tokens.push(OpToken(key));
                }
            }
            next += 1;
        }
        assert(keys@.take(next as int) =~= keys@);
        tokens
    }

    /// Forgets the groups of `target`.
    fn forget_groups_of(&mut self, target: Handle)
        ensures
            final(self)@ == (RegistryState {
                groups: Map::new(
                    |group: u32|
                        old(self)@.groups.contains_key(group) && old(self)@.groups[group].target
                            != target,
                    |group: u32| old(self)@.groups[group],
                ),
                ..old(self)@
            }),
    {
        let ghost pre = self@;
        let keys = keys_of(&self.groups);
        let mut next: usize = 0;
        while next < keys.len()
            invariant
                next <= keys@.len(),
                self.in_flight@ == pre.in_flight,
                self.ready@ == pre.ready,
                forall|key: u32| #[trigger] keys@.contains(key) <==> pre.groups.contains_key(key),
                forall|group: u32| #[trigger]
                    self@.groups.contains_key(group) <==> pre.groups.contains_key(group) && !(
                    keys@.take(next as int).contains(group) && pre.groups[group].target == target),
                forall|group: u32|
                    self@.groups.contains_key(group) ==> #[trigger] self@.groups[group]
                        == pre.groups[group],
            decreases keys@.len() - next,
        {
            let key: u32 = keys[next];
            let ghost now = self@;
            let ghost seen = keys@.take(next as int);
            proof {
                assert(keys@.take(next + 1) =~= seen.push(key));
                assert forall|other: u32| #[trigger]
                    seen.push(key).contains(other) <==> seen.contains(other) || other == key by {
                    lemma_push_contains(seen, key, other);
                }
            }
            let doomed = match self.groups.get(&key) {
                Some(group) => group.target == target,
                None => false,
            };
            if doomed {
                assert(now.groups[key].target == target);
                self.groups.remove(&key);
                assert(self@.groups =~= now.groups.remove(key));
            }
            next += 1;
        }
        assert(keys@.take(next as int) =~= keys@);
    }

    /// Forgets the ready tokens of operations that are in flight no more.
    fn forget_landed(&mut self)
        ensures
            final(self)@ == (RegistryState {
                ready: in_flight_of(old(self)@.ready, old(self)@.in_flight),
                ..old(self)@
            }),
    {
        let ghost pre = self@;
        let count: usize = self.ready.len();
        let mut done: usize = 0;
        while done < count
            invariant
                done <= count == pre.ready.len(),
                self@.in_flight == pre.in_flight,
                self@.groups == pre.groups,
                self.ready@ == pre.ready.skip(done as int) + in_flight_of(
                    pre.ready.take(done as int),
                    pre.in_flight,
                ),
            decreases count - done,
        {
            assert(pre.ready.take(done + 1).drop_last() =~= pre.ready.take(done as int));
            if let Some(token) = self.ready.pop_front() {
                if self.in_flight.contains_key(&token.0) {
                    self.ready.push_back(token);
                }
            }
            done += 1;
        }
        assert(pre.ready.take(done as int) =~= pre.ready);
        assert(self.ready@ =~= in_flight_of(pre.ready, pre.in_flight));
    }
}

/// The keys of `map`, in no particular order.
fn keys_of<V>(map: &HashMap<u32, V>) -> (keys: Vec<u32>)
    ensures
        keys@.no_duplicates(),
        forall|key: u32| #[trigger] keys@.contains(key) <==> map@.contains_key(key),
{
    let mut keys: Vec<u32> = Vec::new();
    for key in it: map.keys()
        invariant
            it.seq().unref() == keys@ + it.seq().unref().skip(it.index()),
            keys@.len() == it.index(),
    {
        keys.push(*key);
    }
    keys
}

/// `tokens` without `token`.
fn without_token(tokens: Vec<OpToken>, token: OpToken) -> (kept: Vec<OpToken>)
    ensures
        kept@ == without(tokens@, token),
{
    let mut kept: Vec<OpToken> = Vec::new();
    let mut next: usize = 0;
    while next < tokens.len()
        invariant
            next <= tokens@.len(),
            kept@ == without(tokens@.take(next as int), token),
        decreases tokens@.len() - next,
    {
        assert(tokens@.take(next + 1).drop_last() =~= tokens@.take(next as int));
        if tokens[next] != token {
            kept.push(tokens[next]);
        }
        next += 1;
    }
    assert(tokens@.take(next as int) =~= tokens@);
    kept
}

pub proof fn lemma_push_contains<T>(seq: Seq<T>, last: T, item: T)
    ensures
        seq.push(last).contains(item) <==> seq.contains(item) || item == last,
{
    if seq.contains(item) {
        let at = choose|at: int| 0 <= at < seq.len() && seq[at] == item;
        assert(seq.push(last)[at] == item);
    }
    if item == last {
        assert(seq.push(last)[seq.len() as int] == item);
    }
    if seq.push(last).contains(item) {
        let at = choose|at: int| 0 <= at < seq.push(last).len() && seq.push(last)[at] == item;
    }
}

/// Taking a token out of a list without duplicates takes it out once and leaves the others.
pub proof fn lemma_without(tokens: Seq<OpToken>, token: OpToken)
    requires
        tokens.no_duplicates(),
    ensures
        without(tokens, token).no_duplicates(),
        without(tokens, token).len() == tokens.len() - if tokens.contains(token) {
            1int
        } else {
            0
        },
        forall|other: OpToken| #[trigger]
            without(tokens, token).contains(other) <==> tokens.contains(other) && other != token,
    decreases tokens.len(),
{
    if tokens.len() > 0 {
        let rest = tokens.drop_last();
        let last = tokens.last();
        lemma_without(rest, token);
        assert(rest.push(last) =~= tokens);
        let earlier = without(rest, token);
        assert forall|other: OpToken|
            (#[trigger] tokens.contains(other) <==> rest.contains(other) || other == last) && (
            earlier.push(last).contains(other) <==> earlier.contains(other) || other == last) by {
            lemma_push_contains(earlier, last, other);
        }
        assert(earlier.contains(last) ==> rest.contains(last));
    }
}

/// Where all tokens are in flight, those of them in flight are all of them.
proof fn lemma_all_in_flight<M>(tokens: Seq<OpToken>, in_flight: Map<u32, InFlight<M>>)
    requires
        forall|i: int| 0 <= i < tokens.len() ==> in_flight.contains_key((#[trigger] tokens[i]).0),
    ensures
        in_flight_of(tokens, in_flight) == tokens,
    decreases tokens.len(),
{
    if tokens.len() > 0 {
        lemma_all_in_flight(tokens.drop_last(), in_flight);
    }
}

/// Delivering ready completions adds nothing to the registry and keeps it well formed. The queue
/// grows at its end, and not beyond its capacity.
pub proof fn lemma_pump<M>(pumped: Pumped<M>, capacity: nat)
    requires
        pumped.registry.wf(),
    ensures
        pumped.pump(capacity).registry.wf(),
        pumped.registry.shrinks_to(pumped.pump(capacity).registry),
        pumped.queue.len() <= capacity ==> pumped.pump(capacity).queue.len() <= capacity,
        pumped.queue.is_prefix_of(pumped.pump(capacity).queue),
    decreases pumped.registry.ready.len(),
{
    if pumped.queue.len() < capacity && pumped.registry.ready.len() > 0 {
        let token = pumped.registry.ready[0];
        let rest = RegistryState { ready: pumped.registry.ready.skip(1), ..pumped.registry };
        let next = pumped.deliver_next();
        lemma_deliver_wf(rest, token);
        lemma_pump(next, capacity);
    }
}

/// Cancelling an operation keeps the registry well formed.
pub proof fn lemma_cancel_wf<M>(registry: RegistryState<M>, token: OpToken)
    requires
        registry.wf(),
    ensures
        registry.cancel(token).wf(),
{
    if registry.in_flight.contains_key(token.0) {
        if let Some(group) = registry.in_flight[token.0].group {
            lemma_member_leaves_wf(registry, token, group);
        }
    }
}

/// A group that loses a member that has landed keeps the registry well formed.
proof fn lemma_member_leaves_wf<M>(registry: RegistryState<M>, token: OpToken, group: u32)
    requires
        registry.wf(),
        registry.in_flight.contains_key(token.0),
        registry.in_flight[token.0].group == Some(group),
    ensures
        registry.land(token).leave_group(group, token).wf(),
        registry.groups.contains_key(group) ==> {
            let left = registry.groups[group].without(token);
            &&& left.consistent()
            &&& left.remaining == registry.groups[group].remaining - 1
            &&& RegistryState {
                groups: registry.groups.insert(group, left),
                ..registry.land(token)
            }.wf()
            &&& RegistryState { groups: registry.groups.remove(group), ..registry.land(token) }.wf()
        },
{
    if registry.groups.contains_key(group) {
        let opened = registry.groups[group];
        lemma_without(opened.members, token);
    }
}

/// Delivering a completion keeps the registry well formed.
pub proof fn lemma_deliver_wf<M>(registry: RegistryState<M>, token: OpToken)
    requires
        registry.wf(),
    ensures
        registry.deliver(token).registry.wf(),
{
    if registry.in_flight.contains_key(token.0) {
        if let Some(group) = registry.in_flight[token.0].group {
            lemma_member_leaves_wf(registry, token, group);
        }
    }
}

} // verus!
