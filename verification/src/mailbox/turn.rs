//! The builder by which an isolate describes what should happen after its turn.

use vstd::prelude::*;

use crate::arena::Handle;

use super::effects::{Action, EffectsError, OpToken, RuntimeMessage, Wait};

verus! {

/// How a group of waits armed together completes.
#[derive(Clone, Copy, Debug, PartialEq, Eq, Structural)]
pub enum GroupPolicy {
    /// The first member to complete wins; the others are cancelled and only the winner's
    /// completion is delivered.
    Select,
    /// All members have to complete; their own completions are suppressed and one completion for
    /// all of them is delivered after the last.
    Join,
}

/// A wait armed during a turn.
#[derive(Clone, Debug, PartialEq, Eq)]
pub struct Armed<M> {
    pub token: OpToken,
    pub wait: Wait,
    /// The message to deliver when the wait completes, or `None` where the policy of its group
    /// suppresses it.
    pub completion: Option<RuntimeMessage<M>>,
    pub group: Option<u32>,
}

/// A group of armed waits that share a policy.
#[derive(Clone, Debug, PartialEq, Eq)]
pub struct GroupSpec<M> {
    pub id: u32,
    pub policy: GroupPolicy,
    pub members: Vec<OpToken>,
    /// The token and the message to deliver once a `Join` group is complete.
    pub join: Option<(OpToken, RuntimeMessage<M>)>,
}

/// What a [`GroupSpec`] says.
#[verifier::ext_equal]
pub struct GroupSpecState<M> {
    pub id: u32,
    pub policy: GroupPolicy,
    pub members: Seq<OpToken>,
    pub join: Option<(OpToken, RuntimeMessage<M>)>,
}

impl<M> GroupSpecState<M> {
    /// The members are distinct, and a join has something to deliver.
    pub open spec fn consistent(self) -> bool {
        self.members.no_duplicates() && (self.policy is Join ==> self.join is Some)
    }

    /// `wait` can be a member of the group: it is listed, and has a completion if it may win.
    pub open spec fn admits(self, wait: Armed<M>) -> bool {
        self.members.contains(wait.token) && (self.policy is Select ==> wait.completion is Some)
    }
}

impl<M> View for GroupSpec<M> {
    type V = GroupSpecState<M>;

    open spec fn view(&self) -> GroupSpecState<M> {
        GroupSpecState {
            id: self.id,
            policy: self.policy,
            members: self.members@,
            join: self.join,
        }
    }
}

/// What a [`TurnEffects`] holds.
#[verifier::ext_equal]
pub struct BuilderState<M> {
    pub actions: Seq<Action<M>>,
    pub armed: Seq<Armed<M>>,
    pub groups: Seq<GroupSpecState<M>>,
    pub max_actions: nat,
    pub max_waits: nat,
    pub next_token: u32,
    pub next_group: u32,
}

impl<M> BuilderState<M> {
    /// The builder holds no more than it takes.
    pub open spec fn bounded(self) -> bool {
        self.actions.len() <= self.max_actions && self.armed.len() <= self.max_waits
    }

    /// Nothing has been asked for yet.
    pub open spec fn is_clear(self) -> bool {
        self.actions.len() == 0 && self.armed.len() == 0 && self.groups.len() == 0
    }

    /// All that the builder holds was asked for through its operations since it was `base`, which
    /// was clear: it takes as much as it did, tokens and groups are new, tokens are distinct, each
    /// wait has a completion or a group that admits it, and groups are consistent.
    pub open spec fn built_since(self, base: Self) -> bool {
        &&& self.max_actions == base.max_actions
        &&& self.max_waits == base.max_waits
        &&& base.next_token <= self.next_token
        &&& base.next_group <= self.next_group
        &&& forall|i: int|
            0 <= i < self.armed.len() ==> base.next_token <= (#[trigger] self.armed[i]).token.0
                < self.next_token
        &&& forall|i: int, j: int|
            0 <= i < j < self.armed.len() ==> (#[trigger] self.armed[i]).token.0 < (
            #[trigger] self.armed[j]).token.0
        &&& forall|i: int|
            0 <= i < self.armed.len() ==> match (#[trigger] self.armed[i]).group {
                None => self.armed[i].completion is Some,
                Some(group) => base.next_group <= group < self.next_group,
            }
        &&& forall|k: int|
            0 <= k < self.groups.len() ==> (#[trigger] self.groups[k]).consistent()
                && base.next_group <= self.groups[k].id < self.next_group
        &&& forall|k: int, l: int|
            0 <= k < l < self.groups.len() ==> (#[trigger] self.groups[k]).id < (
            #[trigger] self.groups[l]).id
        &&& forall|i: int, k: int|
            0 <= i < self.armed.len() && 0 <= k < self.groups.len() && (
            #[trigger] self.armed[i]).group == Some((#[trigger] self.groups[k]).id)
                ==> self.groups[k].admits(self.armed[i])
    }

    /// The builder cleared for a turn that mints tokens and groups from the given numbers on.
    pub open spec fn reset(self, next_token: u32, next_group: u32) -> Self {
        BuilderState {
            actions: Seq::empty(),
            armed: Seq::empty(),
            groups: Seq::empty(),
            next_token,
            next_group,
            ..self
        }
    }

    /// The builder with `action` last; a full one takes none.
    pub open spec fn act(self, action: Action<M>) -> Result<Self, EffectsError> {
        if self.actions.len() == self.max_actions {
            Err(EffectsError::ActionsFull)
        } else {
            Ok(BuilderState { actions: self.actions.push(action), ..self })
        }
    }

    /// `post` and `outcome` are what asking for `action` gives.
    pub open spec fn acted(
        self,
        action: Action<M>,
        post: Self,
        outcome: Result<(), EffectsError>,
    ) -> bool {
        match self.act(action) {
            Ok(longer) => outcome is Ok && post == longer,
            Err(error) => outcome == Err::<(), _>(error) && post == self,
        }
    }

    /// How many of `count` more waits the builder takes.
    pub open spec fn room_for(self, count: nat) -> nat
        recommends
            self.bounded(),
    {
        if self.armed.len() + count <= self.max_waits {
            count
        } else {
            (self.max_waits - self.armed.len()) as nat
        }
    }

    /// The tokens of the next `count` waits.
    pub open spec fn next_tokens(self, count: nat) -> Seq<OpToken> {
        Seq::new(count, |i: int| OpToken((self.next_token + i) as u32))
    }

    /// The builder with the first `count` of `waits` armed, under tokens minted one after the
    /// other.
    pub open spec fn arm(
        self,
        waits: Seq<(Wait, Option<M>)>,
        group: Option<u32>,
        count: nat,
    ) -> Self {
        BuilderState {
            armed: self.armed + Seq::new(
                count,
                |i: int| armed_wait(self.next_tokens(count)[i], waits[i], group),
            ),
            next_token: (self.next_token + count) as u32,
            ..self
        }
    }

    /// `post` and `outcome` are what arming one wait gives.
    pub open spec fn armed_one(
        self,
        wait: Wait,
        completion: Option<M>,
        group: Option<u32>,
        post: Self,
        outcome: Result<OpToken, EffectsError>,
    ) -> bool {
        if self.armed.len() == self.max_waits {
            post == self && outcome == Err::<OpToken, _>(EffectsError::WaitsFull)
        } else {
            &&& post == self.arm(seq![(wait, completion)], group, 1)
            &&& outcome == Ok::<_, EffectsError>(OpToken(self.next_token))
        }
    }

    /// The builder in which group `next_group` has been opened for the first `count` of `waits`.
    pub open spec fn arm_group(self, waits: Seq<(Wait, Option<M>)>, count: nat) -> Self {
        BuilderState {
            next_group: (self.next_group + 1) as u32,
            ..self.arm(waits, Some(self.next_group), count)
        }
    }

    /// `post` and `outcome` are what arming `members` as a race gives. Where not all of them fit,
    /// those that do are armed under a group that is never opened.
    pub open spec fn selected(
        self,
        members: Seq<(Wait, M)>,
        post: Self,
        outcome: Result<Seq<OpToken>, EffectsError>,
    ) -> bool {
        let waits = members.map_values(|member: (Wait, M)| (member.0, Some(member.1)));
        let count = self.room_for(members.len());
        let armed = self.arm_group(waits, count);
        if count < members.len() {
            post == armed && outcome == Err::<Seq<OpToken>, _>(EffectsError::WaitsFull)
        } else {
            &&& post == (BuilderState {
                groups: armed.groups.push(
                    GroupSpecState {
                        id: self.next_group,
                        policy: GroupPolicy::Select,
                        members: self.next_tokens(count),
                        join: None,
                    },
                ),
                ..armed
            })
            &&& outcome == Ok::<_, EffectsError>(self.next_tokens(count))
        }
    }

    /// `post` and `outcome` are what arming `members` as a join gives. The join itself has a token
    /// of its own, minted after those of its members.
    pub open spec fn joined(
        self,
        members: Seq<Wait>,
        completion: M,
        post: Self,
        outcome: Result<OpToken, EffectsError>,
    ) -> bool {
        let waits = members.map_values(|wait: Wait| (wait, None::<M>));
        let count = self.room_for(members.len());
        let armed = self.arm_group(waits, count);
        if count < members.len() {
            post == armed && outcome == Err::<OpToken, _>(EffectsError::WaitsFull)
        } else {
            let token = OpToken(armed.next_token);
            &&& post == (BuilderState {
                groups: armed.groups.push(
                    GroupSpecState {
                        id: self.next_group,
                        policy: GroupPolicy::Join,
                        members: self.next_tokens(count),
                        join: Some((token, RuntimeMessage::User(completion))),
                    },
                ),
                next_token: (armed.next_token + 1) as u32,
                ..armed
            })
            &&& outcome == Ok::<_, EffectsError>(token)
        }
    }
}

/// The wait that arming `wait` under `token` makes.
pub open spec fn armed_wait<M>(
    token: OpToken,
    wait: (Wait, Option<M>),
    group: Option<u32>,
) -> Armed<M> {
    Armed {
        token,
        wait: wait.0,
        completion: match wait.1 {
            Some(message) => Some(RuntimeMessage::User(message)),
            None => None,
        },
        group,
    }
}

/// Per-turn builder that an isolate uses to describe what should happen next: actions, which take
/// effect at once, and waits, each of which has a token of its own.
pub struct TurnEffects<M> {
    actions: Vec<Action<M>>,
    armed: Vec<Armed<M>>,
    groups: Vec<GroupSpec<M>>,
    max_actions: usize,
    max_waits: usize,
    next_token: u32,
    next_group: u32,
}

impl<M> View for TurnEffects<M> {
    type V = BuilderState<M>;

    closed spec fn view(&self) -> BuilderState<M> {
        BuilderState {
            actions: self.actions@,
            armed: self.armed@,
            groups: self.groups@.map_values(|group: GroupSpec<M>| group@),
            max_actions: self.max_actions as nat,
            max_waits: self.max_waits as nat,
            next_token: self.next_token,
            next_group: self.next_group,
        }
    }
}

impl<M> TurnEffects<M> {
    pub fn with_capacity(max_actions: usize, max_waits: usize) -> (effects: Self)
        ensures
            effects@ == (BuilderState::<M> {
                actions: Seq::empty(),
                armed: Seq::empty(),
                groups: Seq::empty(),
                max_actions: max_actions as nat,
                max_waits: max_waits as nat,
                next_token: 0,
                next_group: 0,
            }),
            effects@.bounded(),
    {
        let effects = Self {
            actions: Vec::with_capacity(max_actions),
            armed: Vec::with_capacity(max_waits),
            groups: Vec::new(),
            max_actions,
            max_waits,
            next_token: 0,
            next_group: 0,
        };
        effects
    }

    /// Clears the builder for the upcoming turn and sets where its tokens and groups start, so that
    /// they go on from those of the turns before.
    pub fn reset(&mut self, next_token: u32, next_group: u32)
        ensures
            final(self)@ == old(self)@.reset(next_token, next_group),
    {
        self.actions.clear();
        self.armed.clear();
        self.groups.clear();
        self.next_token = next_token;
        self.next_group = next_group;
    }

    pub fn send(&mut self, target: Handle, message: M) -> (outcome: Result<(), EffectsError>)
        ensures
            old(self)@.acted(
                (Action::Send { target, message: RuntimeMessage::User(message) }),
                final(self)@,
                outcome,
            ),
    {
        self.push_action(Action::Send { target, message: RuntimeMessage::User(message) })
    }

    pub fn send_self(&mut self, message: M) -> (outcome: Result<(), EffectsError>)
        ensures
            old(self)@.acted((Action::SendSelf { message }), final(self)@, outcome),
    {
        self.push_action(Action::SendSelf { message })
    }

    pub fn destroy_self(&mut self) -> (outcome: Result<(), EffectsError>)
        ensures
            old(self)@.acted(Action::DestroySelf, final(self)@, outcome),
    {
        self.push_action(Action::DestroySelf)
    }

    /// Asks for the cancellation of an armed operation, which does nothing to one that has
    /// completed or to an unknown one.
    pub fn cancel(&mut self, token: OpToken) -> (outcome: Result<(), EffectsError>)
        ensures
            old(self)@.acted((Action::Cancel { token }), final(self)@, outcome),
    {
        self.push_action(Action::Cancel { token })
    }

    pub fn wait_accept(&mut self, listener: u32, completion: M) -> (outcome: Result<
        OpToken,
        EffectsError,
    >)
        requires
            old(self)@.armed.len() == old(self)@.max_waits || old(self)@.next_token < u32::MAX,
        ensures
            old(self)@.armed_one(
                (Wait::Accept { listener }),
                Some(completion),
                None,
                final(self)@,
                outcome,
            ),
    {
        self.arm(Wait::Accept { listener }, Some(completion), None)
    }

    pub fn wait_recv(&mut self, source: u32, completion: M) -> (outcome: Result<
        OpToken,
        EffectsError,
    >)
        requires
            old(self)@.armed.len() == old(self)@.max_waits || old(self)@.next_token < u32::MAX,
        ensures
            old(self)@.armed_one(
                (Wait::Recv { source }),
                Some(completion),
                None,
                final(self)@,
                outcome,
            ),
    {
        self.arm(Wait::Recv { source }, Some(completion), None)
    }

    pub fn wait_write(&mut self, sink: u32, completion: M) -> (outcome: Result<
        OpToken,
        EffectsError,
    >)
        requires
            old(self)@.armed.len() == old(self)@.max_waits || old(self)@.next_token < u32::MAX,
        ensures
            old(self)@.armed_one(
                (Wait::Write { sink }),
                Some(completion),
                None,
                final(self)@,
                outcome,
            ),
    {
        self.arm(Wait::Write { sink }, Some(completion), None)
    }

    pub fn wait_timer(&mut self, ticks: u32, completion: M) -> (outcome: Result<
        OpToken,
        EffectsError,
    >)
        requires
            old(self)@.armed.len() == old(self)@.max_waits || old(self)@.next_token < u32::MAX,
        ensures
            old(self)@.armed_one(
                (Wait::Timer { ticks }),
                Some(completion),
                None,
                final(self)@,
                outcome,
            ),
    {
        self.arm(Wait::Timer { ticks }, Some(completion), None)
    }

    /// Arms several waits as a race: the first to complete wins, the others are cancelled, and only
    /// the winner's completion is delivered. Returns the tokens in the order of the members.
    pub fn select(&mut self, members: Vec<(Wait, M)>) -> (outcome: Result<
        Vec<OpToken>,
        EffectsError,
    >)
        requires
            old(self)@.bounded(),
            old(self)@.next_token + old(self)@.room_for(members@.len()) <= u32::MAX,
            old(self)@.next_group < u32::MAX,
        ensures
            ({
                let tokens = match outcome {
                    Ok(tokens) => Ok(tokens@),
                    Err(error) => Err(error),
                };
                old(self)@.selected(members@, final(self)@, tokens)
            }),
    {
        let ghost pre = self@;
        let ghost waits = members@.map_values(|member: (Wait, M)| (member.0, Some(member.1)));
        let ghost given = members@;
        let group: u32 = self.next_group;
        self.next_group += 1;
        let mut tokens: Vec<OpToken> = Vec::new();
        for member in it: members
            invariant
                pre == old(self)@,
                given == members@,
                it.seq() == given,
                waits == given.map_values(|member: (Wait, M)| (member.0, Some(member.1))),
                pre.bounded(),
                pre.next_token + pre.room_for(given.len()) <= u32::MAX,
                pre.next_group < u32::MAX,
                group == pre.next_group,
                it.index() <= pre.room_for(given.len()),
                self@ == pre.arm_group(waits, it.index() as nat),
                tokens@ == pre.next_tokens(it.index() as nat),
        {
            match self.arm(member.0, Some(member.1), Some(group)) {
                Ok(token) => {
                    tokens.push(token);
                },
                Err(error) => return Err(error),
            }
        }
        let listed = tokens.clone();
        let ghost armed = self@;
        let spec = GroupSpec {
            id: group,
            policy: GroupPolicy::Select,
            members: listed,
            join: None,
        };
        self.groups.push(spec);
        assert(self@.groups =~= armed.groups.push(spec@));
        Ok(tokens)
    }

    /// Arms several waits as a join: their own completions are suppressed, and `completion` is
    /// delivered, with the returned token, once every one of them has completed.
    pub fn join(&mut self, members: Vec<Wait>, completion: M) -> (outcome: Result<
        OpToken,
        EffectsError,
    >)
        requires
            old(self)@.bounded(),
            old(self)@.next_token + old(self)@.room_for(members@.len()) <= u32::MAX,
            old(self)@.room_for(members@.len()) == members@.len() ==> old(self)@.next_token
                + members@.len() < u32::MAX,
            old(self)@.next_group < u32::MAX,
        ensures
            old(self)@.joined(members@, completion, final(self)@, outcome),
    {
        let ghost pre = self@;
        let ghost waits = members@.map_values(|wait: Wait| (wait, None::<M>));
        let ghost given = members@;
        let group: u32 = self.next_group;
        self.next_group += 1;
        let mut tokens: Vec<OpToken> = Vec::new();
        for wait in it: members
            invariant
                pre == old(self)@,
                given == members@,
                it.seq() == given,
                waits == given.map_values(|wait: Wait| (wait, None::<M>)),
                pre.bounded(),
                pre.next_token + pre.room_for(given.len()) <= u32::MAX,
                pre.next_group < u32::MAX,
                group == pre.next_group,
                it.index() <= pre.room_for(given.len()),
                self@ == pre.arm_group(waits, it.index() as nat),
                tokens@ == pre.next_tokens(it.index() as nat),
        {
            match self.arm(wait, None, Some(group)) {
                Ok(token) => {
                    tokens.push(token);
                },
                Err(error) => return Err(error),
            }
        }
        let ghost armed = self@;
        let join_token = self.mint();
        let spec = GroupSpec {
            id: group,
            policy: GroupPolicy::Join,
            members: tokens,
            join: Some((join_token, RuntimeMessage::User(completion))),
        };
        self.groups.push(spec);
        assert(self@.groups =~= armed.groups.push(spec@));
        Ok(join_token)
    }

    /// Moves the actions into `scratch`, whose former contents are dropped, and leaves none.
    pub fn swap_actions(&mut self, scratch: &mut Vec<Action<M>>)
        ensures
            final(scratch)@ == old(self)@.actions,
            final(self)@ == (BuilderState { actions: Seq::empty(), ..old(self)@ }),
    {
        scratch.clear();
        std::mem::swap(&mut self.actions, scratch);
    }

    /// Moves the armed waits into `scratch`, whose former contents are dropped, and leaves none.
    pub fn swap_armed(&mut self, scratch: &mut Vec<Armed<M>>)
        ensures
            final(scratch)@ == old(self)@.armed,
            final(self)@ == (BuilderState { armed: Seq::empty(), ..old(self)@ }),
    {
        scratch.clear();
        std::mem::swap(&mut self.armed, scratch);
    }

    /// Moves the groups into `scratch`, whose former contents are dropped, and leaves none.
    pub fn swap_groups(&mut self, scratch: &mut Vec<GroupSpec<M>>)
        ensures
            final(scratch)@.map_values(|group: GroupSpec<M>| group@) == old(self)@.groups,
            final(self)@ == (BuilderState { groups: Seq::empty(), ..old(self)@ }),
    {
        scratch.clear();
        std::mem::swap(&mut self.groups, scratch);
    }

    /// The number of the next token, where the next turn goes on.
    pub fn next_token(&self) -> (number: u32)
        ensures
            number == self@.next_token,
    {
        self.next_token
    }

    /// The number of the next group, where the next turn goes on.
    pub fn next_group(&self) -> (number: u32)
        ensures
            number == self@.next_group,
    {
        self.next_group
    }

    fn mint(&mut self) -> (token: OpToken)
        requires
            old(self)@.next_token < u32::MAX,
        ensures
            token == OpToken(old(self)@.next_token),
            final(self)@ == (BuilderState {
                next_token: (old(self)@.next_token + 1) as u32,
                ..old(self)@
            }),
    {
        let token = OpToken(self.next_token);
        self.next_token += 1;
        token
    }

    fn arm(&mut self, wait: Wait, completion: Option<M>, group: Option<u32>) -> (outcome: Result<
        OpToken,
        EffectsError,
    >)
        requires
            old(self)@.armed.len() == old(self)@.max_waits || old(self)@.next_token < u32::MAX,
        ensures
            old(self)@.armed_one(wait, completion, group, final(self)@, outcome),
    {
        let ghost pre = self@;
        if self.armed.len() == self.max_waits {
            return Err(EffectsError::WaitsFull);
        }
        let token = self.mint();
        let message = match completion {
            Some(message) => Some(RuntimeMessage::User(message)),
            None => None,
        };
        self.armed.push(Armed { token, wait, completion: message, group });
        assert(self@ =~= pre.arm(seq![(wait, completion)], group, 1));
        Ok(token)
    }

    fn push_action(&mut self, action: Action<M>) -> (outcome: Result<(), EffectsError>)
        ensures
            old(self)@.acted(action, final(self)@, outcome),
    {
        if self.actions.len() == self.max_actions {
            return Err(EffectsError::ActionsFull);
        }
        self.actions.push(action);
        Ok(())
    }
}

/// Asking for an action keeps the builder consistent.
pub proof fn law_actions_keep_the_builder_consistent<M>(
    base: BuilderState<M>,
    state: BuilderState<M>,
    action: Action<M>,
    post: BuilderState<M>,
    outcome: Result<(), EffectsError>,
)
    requires
        state.bounded(),
        state.built_since(base),
        state.acted(action, post, outcome),
    ensures
        post.bounded(),
        post.built_since(base),
{
}

/// Arming a wait of its own keeps the builder consistent, and its token is one that no wait had
/// before.
pub proof fn law_waits_keep_the_builder_consistent<M>(
    base: BuilderState<M>,
    state: BuilderState<M>,
    wait: Wait,
    completion: M,
    post: BuilderState<M>,
    outcome: Result<OpToken, EffectsError>,
)
    requires
        state.bounded(),
        state.built_since(base),
        state.armed.len() == state.max_waits || state.next_token < u32::MAX,
        state.armed_one(wait, Some(completion), None, post, outcome),
    ensures
        post.bounded(),
        post.built_since(base),
        outcome matches Ok(token) ==> forall|i: int|
            0 <= i < state.armed.len() ==> (#[trigger] state.armed[i]).token != token,
{
}

/// Arming a race keeps the builder consistent, and each member has a token of its own that no wait
/// had before.
pub proof fn law_select_keeps_the_builder_consistent<M>(
    base: BuilderState<M>,
    state: BuilderState<M>,
    members: Seq<(Wait, M)>,
    post: BuilderState<M>,
    outcome: Result<Seq<OpToken>, EffectsError>,
)
    requires
        state.bounded(),
        state.built_since(base),
        state.next_token + state.room_for(members.len()) <= u32::MAX,
        state.next_group < u32::MAX,
        state.selected(members, post, outcome),
    ensures
        post.bounded(),
        post.built_since(base),
        outcome matches Ok(tokens) ==> {
            &&& tokens.len() == members.len()
            &&& tokens.no_duplicates()
            &&& forall|i: int, k: int|
                0 <= i < state.armed.len() && 0 <= k < tokens.len() ==> (
                #[trigger] state.armed[i]).token != #[trigger] tokens[k]
        },
{
}

/// Arming a join keeps the builder consistent, and the token of the join is one that no wait has.
pub proof fn law_join_keeps_the_builder_consistent<M>(
    base: BuilderState<M>,
    state: BuilderState<M>,
    members: Seq<Wait>,
    completion: M,
    post: BuilderState<M>,
    outcome: Result<OpToken, EffectsError>,
)
    requires
        state.bounded(),
        state.built_since(base),
        state.next_token + state.room_for(members.len()) <= u32::MAX,
        state.room_for(members.len()) == members.len() ==> state.next_token + members.len()
            < u32::MAX,
        state.next_group < u32::MAX,
        state.joined(members, completion, post, outcome),
    ensures
        post.bounded(),
        post.built_since(base),
        outcome matches Ok(token) ==> forall|i: int|
            0 <= i < post.armed.len() ==> (#[trigger] post.armed[i]).token != token,
{
}

/// A cleared builder is consistent, and what it holds is none of what it held.
pub proof fn law_cleared_builder_is_consistent<M>(
    state: BuilderState<M>,
    next_token: u32,
    next_group: u32,
)
    ensures
        state.reset(next_token, next_group).bounded(),
        state.reset(next_token, next_group).is_clear(),
        state.reset(next_token, next_group).built_since(state.reset(next_token, next_group)),
{
}

/// `post` holds what `pre` holds but for waits, groups and the numbers that come next, and it takes
/// as much.
pub open spec fn only_arms<M>(pre: BuilderState<M>, post: BuilderState<M>) -> bool {
    &&& post.actions == pre.actions
    &&& post.max_actions == pre.max_actions
    &&& post.max_waits == pre.max_waits
    &&& pre.armed.is_prefix_of(post.armed)
}

/// A wait is armed as it was asked for: the kind, the resource and the ticks are those that were
/// given, the message is delivered as a message of the user, and the token that is returned is the
/// one it is armed under. It is refused only where the turn holds as many waits as it takes.
pub proof fn law_wait_is_armed_as_asked<M>(
    state: BuilderState<M>,
    wait: Wait,
    completion: Option<M>,
    group: Option<u32>,
    post: BuilderState<M>,
    outcome: Result<OpToken, EffectsError>,
)
    requires
        state.bounded(),
        state.armed.len() == state.max_waits || state.next_token < u32::MAX,
        state.armed_one(wait, completion, group, post, outcome),
    ensures
        only_arms(state, post),
        post.groups == state.groups,
        post.next_group == state.next_group,
        match outcome {
            Ok(token) => {
                let held = state.armed.len() as int;
                &&& held < state.max_waits
                &&& token.0 == state.next_token
                &&& post.next_token == state.next_token + 1
                &&& post.armed.len() == held + 1
                &&& post.armed[held].token == token
                &&& post.armed[held].wait == wait
                &&& post.armed[held].group == group
                &&& match completion {
                    Some(message) => post.armed[held].completion matches Some(
                        RuntimeMessage::User(told),
                    ) && told == message,
                    None => post.armed[held].completion is None,
                }
            },
            Err(error) => {
                &&& state.armed.len() == state.max_waits
                &&& error == EffectsError::WaitsFull
                &&& post == state
            },
        },
{
}

/// `members` are armed as a race, or do not all fit.
pub open spec fn arms_race<M>(
    state: BuilderState<M>,
    members: Seq<(Wait, M)>,
    post: BuilderState<M>,
    outcome: Result<Seq<OpToken>, EffectsError>,
) -> bool {
    &&& only_arms(state, post)
    &&& post.next_group == state.next_group + 1
    &&& match outcome {
        Ok(tokens) => {
            let held = state.armed.len() as int;
            &&& held + members.len() <= state.max_waits
            &&& tokens.len() == members.len()
            &&& post.armed.len() == held + members.len()
            &&& post.next_token == state.next_token + members.len()
            &&& forall|i: int|
                #![trigger members[i]]
                #![trigger tokens[i]]
                0 <= i < members.len() ==> {
                    let armed = post.armed[held + i];
                    &&& tokens[i].0 == state.next_token + i
                    &&& armed.token == tokens[i]
                    &&& armed.wait == members[i].0
                    &&& armed.group == Some(state.next_group)
                    &&& armed.completion matches Some(RuntimeMessage::User(told)) && told
                        == members[i].1
                }
            &&& post.groups.len() == state.groups.len() + 1
            &&& state.groups.is_prefix_of(post.groups)
            &&& post.groups.last().id == state.next_group
            &&& post.groups.last().policy == GroupPolicy::Select
            &&& post.groups.last().members == tokens
            &&& post.groups.last().join is None
        },
        Err(error) => {
            &&& state.armed.len() + members.len() > state.max_waits
            &&& error == EffectsError::WaitsFull
            &&& post.groups == state.groups
            &&& post.armed.len() == state.max_waits
            &&& forall|i: int|
                #![trigger members[i]]
                0 <= i < state.max_waits - state.armed.len() ==> {
                    let armed = post.armed[state.armed.len() + i];
                    &&& armed.token.0 == state.next_token + i
                    &&& armed.wait == members[i].0
                    &&& armed.group == Some(state.next_group)
                    &&& armed.completion matches Some(RuntimeMessage::User(told)) && told
                        == members[i].1
                }
        },
    }
}

/// A race arms its members as they were given, in order, each under the token that is returned for
/// it and with the message that was given for it, all as members of one new group, which lists
/// exactly these tokens and has no message of its own. It is refused only where they do not all fit,
/// and then no group is opened.
pub proof fn law_race_is_armed_as_asked<M>(
    state: BuilderState<M>,
    members: Seq<(Wait, M)>,
    post: BuilderState<M>,
    outcome: Result<Seq<OpToken>, EffectsError>,
)
    requires
        state.bounded(),
        state.next_token + state.room_for(members.len()) <= u32::MAX,
        state.next_group < u32::MAX,
        state.selected(members, post, outcome),
    ensures
        arms_race(state, members, post, outcome),
{
}

/// `members` are armed as a join that reports `completion`, or do not all fit.
pub open spec fn arms_join<M>(
    state: BuilderState<M>,
    members: Seq<Wait>,
    completion: M,
    post: BuilderState<M>,
    outcome: Result<OpToken, EffectsError>,
) -> bool {
    &&& only_arms(state, post)
    &&& post.next_group == state.next_group + 1
    &&& match outcome {
        Ok(token) => {
            let held = state.armed.len() as int;
            let group = post.groups.last();
            &&& held + members.len() <= state.max_waits
            &&& post.armed.len() == held + members.len()
            &&& token.0 == state.next_token + members.len()
            &&& post.next_token == token.0 + 1
            &&& post.groups.len() == state.groups.len() + 1
            &&& state.groups.is_prefix_of(post.groups)
            &&& group.id == state.next_group
            &&& group.policy == GroupPolicy::Join
            &&& group.members.len() == members.len()
            &&& group.join matches Some((named, RuntimeMessage::User(told))) && named == token
                && told == completion
            &&& forall|i: int|
                #![trigger members[i]]
                #![trigger group.members[i]]
                0 <= i < members.len() ==> {
                    let armed = post.armed[held + i];
                    &&& group.members[i].0 == state.next_token + i
                    &&& armed.token == group.members[i]
                    &&& armed.wait == members[i]
                    &&& armed.group == Some(state.next_group)
                    &&& armed.completion is None
                }
        },
        Err(error) => {
            &&& state.armed.len() + members.len() > state.max_waits
            &&& error == EffectsError::WaitsFull
            &&& post.groups == state.groups
            &&& post.armed.len() == state.max_waits
            &&& forall|i: int|
                #![trigger members[i]]
                0 <= i < state.max_waits - state.armed.len() ==> {
                    let armed = post.armed[state.armed.len() + i];
                    &&& armed.token.0 == state.next_token + i
                    &&& armed.wait == members[i]
                    &&& armed.group == Some(state.next_group)
                    &&& armed.completion is None
                }
        },
    }
}

/// A join arms its members as they were given, in order, each under a token of its own and without
/// a message, all as members of one new group, which lists exactly these tokens. The group has the
/// message that was given, under the token that is returned, which is the token of no member. It is
/// refused only where they do not all fit, and then no group is opened.
pub proof fn law_join_is_armed_as_asked<M>(
    state: BuilderState<M>,
    members: Seq<Wait>,
    completion: M,
    post: BuilderState<M>,
    outcome: Result<OpToken, EffectsError>,
)
    requires
        state.bounded(),
        state.next_token + state.room_for(members.len()) <= u32::MAX,
        state.room_for(members.len()) == members.len() ==> state.next_token + members.len()
            < u32::MAX,
        state.next_group < u32::MAX,
        state.joined(members, completion, post, outcome),
    ensures
        arms_join(state, members, completion, post, outcome),
{
}

/// An action that is asked for stands behind those before it, and nothing else changes. It is
/// refused only where the turn holds as many actions as it takes.
pub proof fn law_action_is_kept_in_order<M>(
    state: BuilderState<M>,
    action: Action<M>,
    post: BuilderState<M>,
    outcome: Result<(), EffectsError>,
)
    requires
        state.bounded(),
        state.acted(action, post, outcome),
    ensures
        post.armed == state.armed,
        post.groups == state.groups,
        post.max_actions == state.max_actions,
        post.max_waits == state.max_waits,
        post.next_token == state.next_token,
        post.next_group == state.next_group,
        match outcome {
            Ok(_) => {
                &&& state.actions.len() < state.max_actions
                &&& post.actions.len() == state.actions.len() + 1
                &&& state.actions.is_prefix_of(post.actions)
                &&& post.actions.last() == action
            },
            Err(error) => {
                &&& state.actions.len() == state.max_actions
                &&& error == EffectsError::ActionsFull
                &&& post.actions == state.actions
            },
        },
{
}

/// A builder that is reset holds nothing, takes as much as it did, and goes on with the numbers that
/// it is given.
pub proof fn law_reset_builder_is_empty<M>(
    state: BuilderState<M>,
    next_token: u32,
    next_group: u32,
)
    ensures
        ({
            let post = state.reset(next_token, next_group);
            &&& post.actions.len() == 0
            &&& post.armed.len() == 0
            &&& post.groups.len() == 0
            &&& post.max_actions == state.max_actions
            &&& post.max_waits == state.max_waits
            &&& post.next_token == next_token
            &&& post.next_group == next_group
        }),
{
}

/// `action` stands behind those that were asked for before, unless there were as many as the turn
/// takes; nothing else has changed.
pub open spec fn adds_action<M>(
    pre: BuilderState<M>,
    action: Action<M>,
    post: BuilderState<M>,
    outcome: Result<(), EffectsError>,
) -> bool {
    &&& post.armed == pre.armed
    &&& post.groups == pre.groups
    &&& post.max_actions == pre.max_actions
    &&& post.max_waits == pre.max_waits
    &&& post.next_token == pre.next_token
    &&& post.next_group == pre.next_group
    &&& match outcome {
        Ok(_) => pre.actions.len() < pre.max_actions && post.actions == pre.actions.push(action),
        Err(error) => {
            &&& pre.actions.len() == pre.max_actions
            &&& error == EffectsError::ActionsFull
            &&& post.actions == pre.actions
        },
    }
}

/// `wait` stands behind those that were armed before, on its own, with `message` and under the next
/// token, which is returned, unless there were as many as the turn takes; nothing else has changed.
pub open spec fn adds_wait<M>(
    pre: BuilderState<M>,
    wait: Wait,
    message: M,
    post: BuilderState<M>,
    outcome: Result<OpToken, EffectsError>,
) -> bool {
    &&& post.actions == pre.actions
    &&& post.groups == pre.groups
    &&& post.max_actions == pre.max_actions
    &&& post.max_waits == pre.max_waits
    &&& post.next_group == pre.next_group
    &&& match outcome {
        Ok(token) => {
            &&& pre.armed.len() < pre.max_waits
            &&& token.0 == pre.next_token
            &&& post.next_token == pre.next_token + 1
            &&& post.armed == pre.armed.push(
                Armed {
                    token,
                    wait,
                    completion: Some(RuntimeMessage::User(message)),
                    group: None,
                },
            )
        },
        Err(error) => {
            &&& pre.armed.len() == pre.max_waits
            &&& error == EffectsError::WaitsFull
            &&& post == pre
        },
    }
}

/// Each call by which an isolate asks for an action asks for the action that it is named after.
pub proof fn law_calls_ask_for_the_action_they_name<M>()
    ensures
        forall|
            effects: &mut TurnEffects<M>,
            target: Handle,
            message: M,
            outcome: Result<(), EffectsError>,
        | #[trigger]
            call_ensures(TurnEffects::<M>::send, (effects, target, message), outcome)
                && effects@.bounded() ==> adds_action(
                effects@,
                (Action::Send { target, message: RuntimeMessage::User(message) }),
                final(effects)@,
                outcome,
            ),
        forall|effects: &mut TurnEffects<M>, message: M, outcome: Result<(), EffectsError>|
            #[trigger] call_ensures(TurnEffects::<M>::send_self, (effects, message), outcome)
                && effects@.bounded() ==> adds_action(
                effects@,
                (Action::SendSelf { message }),
                final(effects)@,
                outcome,
            ),
        forall|effects: &mut TurnEffects<M>, outcome: Result<(), EffectsError>| #[trigger]
            call_ensures(TurnEffects::<M>::destroy_self, (effects,), outcome) && effects@.bounded()
                ==> adds_action(effects@, Action::DestroySelf, final(effects)@, outcome),
        forall|effects: &mut TurnEffects<M>, token: OpToken, outcome: Result<(), EffectsError>|
            #[trigger] call_ensures(TurnEffects::<M>::cancel, (effects, token), outcome)
                && effects@.bounded() ==> adds_action(
                effects@,
                (Action::Cancel { token }),
                final(effects)@,
                outcome,
            ),
{
}

/// Each call by which an isolate arms a wait arms the wait that it is named after, on the resource
/// that it is given.
pub proof fn law_calls_arm_the_wait_they_name<M>()
    ensures
        forall|
            effects: &mut TurnEffects<M>,
            listener: u32,
            message: M,
            outcome: Result<OpToken, EffectsError>,
        | #[trigger]
            call_ensures(TurnEffects::<M>::wait_accept, (effects, listener, message), outcome)
                && effects@.bounded() && effects@.next_token < u32::MAX ==> adds_wait(
                effects@,
                (Wait::Accept { listener }),
                message,
                final(effects)@,
                outcome,
            ),
        forall|
            effects: &mut TurnEffects<M>,
            source: u32,
            message: M,
            outcome: Result<OpToken, EffectsError>,
        | #[trigger]
            call_ensures(TurnEffects::<M>::wait_recv, (effects, source, message), outcome)
                && effects@.bounded() && effects@.next_token < u32::MAX ==> adds_wait(
                effects@,
                (Wait::Recv { source }),
                message,
                final(effects)@,
                outcome,
            ),
        forall|
            effects: &mut TurnEffects<M>,
            sink: u32,
            message: M,
            outcome: Result<OpToken, EffectsError>,
        | #[trigger]
            call_ensures(TurnEffects::<M>::wait_write, (effects, sink, message), outcome)
                && effects@.bounded() && effects@.next_token < u32::MAX ==> adds_wait(
                effects@,
                (Wait::Write { sink }),
                message,
                final(effects)@,
                outcome,
            ),
        forall|
            effects: &mut TurnEffects<M>,
            ticks: u32,
            message: M,
            outcome: Result<OpToken, EffectsError>,
        | #[trigger]
            call_ensures(TurnEffects::<M>::wait_timer, (effects, ticks, message), outcome)
                && effects@.bounded() && effects@.next_token < u32::MAX ==> adds_wait(
                effects@,
                (Wait::Timer { ticks }),
                message,
                final(effects)@,
                outcome,
            ),
{
    assert forall|
        pre: BuilderState<M>,
        wait: Wait,
        message: M,
        post: BuilderState<M>,
        outcome: Result<OpToken, EffectsError>,
    |
        pre.bounded() && pre.next_token < u32::MAX && #[trigger] pre.armed_one(
            wait,
            Some(message),
            None,
            post,
            outcome,
        ) implies adds_wait(pre, wait, message, post, outcome) by {
        law_wait_is_armed_as_asked(pre, wait, Some(message), None, post, outcome);
        if let Ok(token) = outcome {
            assert(post.armed =~= pre.armed.push(
                Armed {
                    token,
                    wait,
                    completion: Some(RuntimeMessage::User(message)),
                    group: None,
                },
            ));
        }
    }
}

/// A builder takes as much as it is made to take, and starts with nothing; what is moved out of it
/// is all that it held of that kind, in order, and the rest stays. The numbers that it gives are
/// those that come next.
pub proof fn law_builder_hands_out_what_it_holds<M>()
    ensures
        forall|max_actions: usize, max_waits: usize, effects: TurnEffects<M>| #[trigger]
            call_ensures(TurnEffects::<M>::with_capacity, (max_actions, max_waits), effects) ==> {
                &&& effects@.is_clear()
                &&& effects@.actions.len() == 0
                &&& effects@.armed.len() == 0
                &&& effects@.groups.len() == 0
                &&& effects@.max_actions == max_actions
                &&& effects@.max_waits == max_waits
            },
        forall|effects: &mut TurnEffects<M>, next_token: u32, next_group: u32, done: ()| #[trigger]
            call_ensures(TurnEffects::<M>::reset, (effects, next_token, next_group), done) ==> {
                &&& final(effects)@.actions.len() == 0
                &&& final(effects)@.armed.len() == 0
                &&& final(effects)@.groups.len() == 0
                &&& final(effects)@.max_actions == effects@.max_actions
                &&& final(effects)@.max_waits == effects@.max_waits
                &&& final(effects)@.next_token == next_token
                &&& final(effects)@.next_group == next_group
            },
        forall|effects: &mut TurnEffects<M>, scratch: &mut Vec<Action<M>>, done: ()| #[trigger]
            call_ensures(TurnEffects::<M>::swap_actions, (effects, scratch), done) ==> {
                &&& final(scratch)@ == effects@.actions
                &&& final(effects)@.actions.len() == 0
                &&& final(effects)@.armed == effects@.armed
                &&& final(effects)@.groups == effects@.groups
                &&& final(effects)@.next_token == effects@.next_token
                &&& final(effects)@.next_group == effects@.next_group
            },
        forall|effects: &mut TurnEffects<M>, scratch: &mut Vec<Armed<M>>, done: ()| #[trigger]
            call_ensures(TurnEffects::<M>::swap_armed, (effects, scratch), done) ==> {
                &&& final(scratch)@ == effects@.armed
                &&& final(effects)@.armed.len() == 0
                &&& final(effects)@.actions == effects@.actions
                &&& final(effects)@.groups == effects@.groups
                &&& final(effects)@.next_token == effects@.next_token
                &&& final(effects)@.next_group == effects@.next_group
            },
        forall|effects: &TurnEffects<M>, number: u32| #[trigger]
            call_ensures(TurnEffects::<M>::next_token, (effects,), number) ==> number
                == effects@.next_token,
        forall|effects: &TurnEffects<M>, number: u32| #[trigger]
            call_ensures(TurnEffects::<M>::next_group, (effects,), number) ==> number
                == effects@.next_group,
{
}

/// The calls by which an isolate arms several waits at once arm a race and a join.
pub proof fn law_calls_arm_the_group_they_name<M>()
    ensures
        forall|
            effects: &mut TurnEffects<M>,
            members: Vec<(Wait, M)>,
            outcome: Result<Vec<OpToken>, EffectsError>,
        | #[trigger]
            call_ensures(TurnEffects::<M>::select, (effects, members), outcome)
                && effects@.bounded() && effects@.next_token + effects@.room_for(members@.len())
                <= u32::MAX && effects@.next_group < u32::MAX ==> arms_race(
                effects@,
                members@,
                final(effects)@,
                (match outcome {
                    Ok(tokens) => Ok(tokens@),
                    Err(error) => Err(error),
                }),
            ),
        forall|
            effects: &mut TurnEffects<M>,
            members: Vec<Wait>,
            completion: M,
            outcome: Result<OpToken, EffectsError>,
        | #[trigger]
            call_ensures(TurnEffects::<M>::join, (effects, members, completion), outcome)
                && effects@.bounded() && effects@.next_token + members@.len() < u32::MAX
                && effects@.next_group < u32::MAX ==> arms_join(
                effects@,
                members@,
                completion,
                final(effects)@,
                outcome,
            ),
{
    assert forall|
        pre: BuilderState<M>,
        members: Seq<(Wait, M)>,
        post: BuilderState<M>,
        outcome: Result<Seq<OpToken>, EffectsError>,
    |
        pre.bounded() && pre.next_token + pre.room_for(members.len()) <= u32::MAX && pre.next_group
            < u32::MAX && #[trigger] pre.selected(members, post, outcome) implies arms_race(
        pre,
        members,
        post,
        outcome,
    ) by {
        law_race_is_armed_as_asked(pre, members, post, outcome);
    }
    assert forall|
        pre: BuilderState<M>,
        members: Seq<Wait>,
        completion: M,
        post: BuilderState<M>,
        outcome: Result<OpToken, EffectsError>,
    |
        pre.bounded() && pre.next_token + members.len() < u32::MAX && pre.next_group < u32::MAX
            && #[trigger] pre.joined(members, completion, post, outcome) implies arms_join(
        pre,
        members,
        completion,
        post,
        outcome,
    ) by {
        law_join_is_armed_as_asked(pre, members, completion, post, outcome);
    }
}

} // verus!
