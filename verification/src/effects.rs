//! What an isolate asks of the runtime during one turn.

use vstd::prelude::*;

use crate::completion::CompletionHandle;
use crate::io::Operation;

verus! {

/// A message that the runtime delivers to an isolate.
#[derive(Clone, Copy, Debug, PartialEq, Eq, Structural)]
pub enum RuntimeMessage {
    Init,
    IoCompleted(CompletionHandle),
    Shutdown,
}

pub enum Effect<I> {
    Submit { completion: CompletionHandle, op: Operation },
    Cancel { completion: CompletionHandle },
    Spawn(I),
    DestroySelf,
}

#[derive(Clone, Copy, Debug, PartialEq, Eq, Structural)]
pub enum EffectsError {
    Full,
}

/// What a [`TurnEffects`] holds: the effects asked for so far, and how many it takes.
#[verifier::ext_equal]
pub struct EffectsState<I> {
    pub effects: Seq<Effect<I>>,
    pub max_effects: nat,
}

impl<I> EffectsState<I> {
    pub open spec fn cleared(self) -> Self {
        EffectsState { effects: Seq::empty(), ..self }
    }

    /// The list holds no more effects than it takes.
    pub open spec fn bounded(self) -> bool {
        self.effects.len() <= self.max_effects
    }

    /// The list with `effect` at its end; a full list takes nothing.
    pub open spec fn push(self, effect: Effect<I>) -> Result<Self, EffectsError> {
        if self.effects.len() == self.max_effects {
            Err(EffectsError::Full)
        } else {
            Ok(EffectsState { effects: self.effects.push(effect), ..self })
        }
    }

    /// `post` and `outcome` are what asking for `effect` gives.
    pub open spec fn asked(
        self,
        effect: Effect<I>,
        post: Self,
        outcome: Result<(), EffectsError>,
    ) -> bool {
        match self.push(effect) {
            Ok(longer) => outcome is Ok && post == longer,
            Err(error) => outcome == Err::<(), _>(error) && post == self,
        }
    }
}

/// Bounded list of the effects of one turn, in the order in which they were asked for.
pub struct TurnEffects<I> {
    effects: Vec<Effect<I>>,
    max_effects: usize,
}

impl<I> View for TurnEffects<I> {
    type V = EffectsState<I>;

    closed spec fn view(&self) -> EffectsState<I> {
        EffectsState { effects: self.effects@, max_effects: self.max_effects as nat }
    }
}

impl<I> TurnEffects<I> {
    pub fn with_capacity(max_effects: usize) -> (effects: Self)
        ensures
            effects@ == (EffectsState::<I> {
                effects: Seq::empty(),
                max_effects: max_effects as nat,
            }),
    {
        Self { effects: Vec::with_capacity(max_effects), max_effects }
    }

    pub fn reset(&mut self)
        ensures
            final(self)@ == old(self)@.cleared(),
    {
        self.effects.clear();
    }

    pub fn submit(&mut self, completion: CompletionHandle, op: Operation) -> (outcome: Result<
        (),
        EffectsError,
    >)
        ensures
            old(self)@.asked(Effect::Submit { completion, op }, final(self)@, outcome),
    {
        self.push(Effect::Submit { completion, op })
    }

    pub fn cancel(&mut self, completion: CompletionHandle) -> (outcome: Result<(), EffectsError>)
        ensures
            old(self)@.asked(Effect::Cancel { completion }, final(self)@, outcome),
    {
        self.push(Effect::Cancel { completion })
    }

    pub fn spawn(&mut self, isolate: I) -> (outcome: Result<(), EffectsError>)
        ensures
            old(self)@.asked(Effect::Spawn(isolate), final(self)@, outcome),
    {
        self.push(Effect::Spawn(isolate))
    }

    pub fn destroy_self(&mut self) -> (outcome: Result<(), EffectsError>)
        ensures
            old(self)@.asked(Effect::DestroySelf, final(self)@, outcome),
    {
        self.push(Effect::DestroySelf)
    }

    /// Moves the effects into `scratch`, whose former contents are dropped, and leaves none.
    pub fn swap_effects(&mut self, scratch: &mut Vec<Effect<I>>)
        ensures
            final(scratch)@ == old(self)@.effects,
            final(self)@ == old(self)@.cleared(),
    {
        scratch.clear();
        std::mem::swap(&mut self.effects, scratch);
    }

    fn push(&mut self, effect: Effect<I>) -> (outcome: Result<(), EffectsError>)
        ensures
            old(self)@.asked(effect, final(self)@, outcome),
    {
        if self.effects.len() == self.max_effects {
            return Err(EffectsError::Full);
        }
        self.effects.push(effect);
        Ok(())
    }
}

/// Asking never takes a list beyond its bound, and what was asked for before stays where it was.
pub proof fn law_effects_are_bounded_and_keep_their_order<I>(
    state: EffectsState<I>,
    effect: Effect<I>,
)
    requires
        state.bounded(),
    ensures
        match state.push(effect) {
            Ok(longer) => {
                &&& longer.bounded()
                &&& longer.effects.last() == effect
                &&& longer.effects.drop_last() == state.effects
            },
            Err(_) => state.effects.len() == state.max_effects,
        },
{
    if state.push(effect) is Ok {
        assert(state.push(effect)->Ok_0.effects.drop_last() =~= state.effects);
    }
}

/// A list that is cleared holds nothing and takes as much as before, and a list that is full refuses
/// what is asked for and stays as it is.
pub proof fn law_full_list_refuses<I>(
    state: EffectsState<I>,
    effect: Effect<I>,
    post: EffectsState<I>,
    outcome: Result<(), EffectsError>,
)
    requires
        state.bounded(),
        state.asked(effect, post, outcome),
    ensures
        state.cleared().effects.len() == 0,
        state.cleared().max_effects == state.max_effects,
        post.max_effects == state.max_effects,
        match outcome {
            Ok(_) => {
                &&& state.effects.len() < state.max_effects
                &&& post.effects == state.effects.push(effect)
            },
            Err(error) => {
                &&& state.effects.len() == state.max_effects
                &&& error == EffectsError::Full
                &&& post.effects == state.effects
            },
        },
{
}

} // verus!
