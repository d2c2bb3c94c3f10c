//! What an isolate is, and what it can do to its completions during a turn.

use std::marker::PhantomData;

use vstd::prelude::*;

use crate::arena::Handle;
use crate::completion::{
    CompletionArena, CompletionError, CompletionHandle, CompletionOp, CompletionsState,
};
use crate::effects::{EffectsState, RuntimeMessage, TurnEffects};
use crate::io::IoResult;

use super::error::RuntimeError;

verus! {

/// What an [`IoContext`] gives access to: all completions, as one isolate may use them.
#[verifier::ext_equal]
pub struct ContextState {
    pub completions: CompletionsState<IoResult>,
    pub owner: Handle,
}

impl ContextState {
    /// The context after `op`.
    pub open spec fn apply(self, op: CompletionOp<IoResult>) -> Self {
        ContextState { completions: self.completions.apply(op), ..self }
    }

    /// `post` is what one turn may make of this context.
    pub open spec fn turn(self, post: Self) -> bool {
        &&& post.owner == self.owner
        &&& self.completions.turn_of(self.owner, post.completions)
    }
}

/// The completions of the runtime in the hands of one isolate, for the time of one turn.
pub struct IoContext<'a> {
    completions: CompletionArena<IoResult>,
    owner: Handle,
    turn: PhantomData<&'a mut ()>,
}

impl<'a> View for IoContext<'a> {
    type V = ContextState;

    closed spec fn view(&self) -> ContextState {
        ContextState { completions: self.completions@, owner: self.owner }
    }
}

impl<'a> IoContext<'a> {
    pub(crate) fn new(completions: CompletionArena<IoResult>, owner: Handle) -> (context: Self)
        ensures
            context@ == (ContextState { completions: completions@, owner }),
    {
        Self { completions, owner, turn: PhantomData }
    }

    pub(crate) fn into_completions(self) -> (completions: CompletionArena<IoResult>)
        ensures
            completions@ == self@.completions,
    {
        self.completions
    }

    /// A completion of the isolate's own, if there is one left.
    pub fn acquire(&mut self) -> (result: Option<CompletionHandle>)
        requires
            old(self)@.completions.wf(),
        ensures
            old(self)@.turn(final(self)@),
            final(self)@ == old(self)@.apply(CompletionOp::Acquire(old(self)@.owner)),
            result == (if old(self)@.completions.full() {
                None
            } else {
                Some(old(self)@.completions.next_handle())
            }),
    {
        proof {
            crate::completion::law_isolate_operations_are_turns(
                self@.completions,
                self@.owner,
                arbitrary(),
            );
        }
        self.completions.acquire(self.owner).ok()
    }

    pub fn release(&mut self, completion: CompletionHandle) -> (result: Result<
        (),
        CompletionError,
    >)
        requires
            old(self)@.completions.wf(),
        ensures
            old(self)@.turn(final(self)@),
            final(self)@ == old(self)@.apply(
                CompletionOp::Release(old(self)@.owner, completion),
            ),
            match old(self)@.completions.release(old(self)@.owner, completion) {
                Ok(_) => result is Ok,
                Err(error) => result == Err::<(), _>(error),
            },
    {
        proof {
            crate::completion::law_isolate_operations_are_turns(
                self@.completions,
                self@.owner,
                completion,
            );
        }
        self.completions.release(self.owner, completion)
    }

    /// The result of a completed operation, which is then no longer there.
    pub fn take_result(&mut self, completion: CompletionHandle) -> (result: Option<IoResult>)
        requires
            old(self)@.completions.wf(),
        ensures
            old(self)@.turn(final(self)@),
            final(self)@ == old(self)@.apply(
                CompletionOp::TakeResult(old(self)@.owner, completion),
            ),
            result == (match old(self)@.completions.take_result(old(self)@.owner, completion) {
                Ok((_, value)) => Some(value),
                Err(_) => None,
            }),
    {
        proof {
            crate::completion::law_isolate_operations_are_turns(
                self@.completions,
                self@.owner,
                completion,
            );
        }
        self.completions.take_result(self.owner, completion).ok()
    }

    /// The result that `take_result` would give, left where it is.
    pub fn peek_result(&self, completion: CompletionHandle) -> (result: Option<&IoResult>)
        requires
            self@.completions.wf(),
        ensures
            match result {
                Some(value) => self@.completions.take_result(self@.owner, completion) matches Ok(
                    (_, taken),
                ) && taken == *value,
                None => self@.completions.take_result(self@.owner, completion) is Err,
            },
    {
        self.completions.peek_result(self.owner, completion)
    }

    /// Number of completions that can still be acquired.
    pub fn available(&self) -> (count: usize)
        ensures
            count == self@.completions.free.len(),
    {
        self.completions.available()
    }
}

/// All that one turn of an isolate works on.
#[verifier::ext_equal]
pub struct TurnState<I> {
    pub isolate: I,
    pub io: ContextState,
    pub effects: EffectsState<I>,
}

/// A unit of application logic that the runtime drives by messages.
///
/// What an isolate makes of a message is its own affair, stated as a relation between what the turn
/// starts from, what it ends with and what is returned; a relation that is not stated allows
/// anything. During a turn an isolate reaches the completions through the operations of
/// [`IoContext`] alone, which is what the other clause says.
pub trait Isolate: Sized {
    /// `handle(msg, ..)` may take the turn from `pre` to `post` and return `outcome`.
    open spec fn may_handle(
        pre: TurnState<Self>,
        msg: RuntimeMessage,
        post: TurnState<Self>,
        outcome: Result<(), RuntimeError>,
    ) -> bool {
        true
    }

    /// `destroy(..)` may take the turn from `pre` to `post` and return `outcome`.
    open spec fn may_destroy(
        pre: TurnState<Self>,
        post: TurnState<Self>,
        outcome: Result<(), RuntimeError>,
    ) -> bool {
        true
    }

    fn handle(
        &mut self,
        msg: RuntimeMessage,
        io: &mut IoContext<'_>,
        effects: &mut TurnEffects<Self>,
    ) -> (outcome: Result<(), RuntimeError>)
        requires
            old(io)@.completions.wf(),
        ensures
            old(io)@.turn(final(io)@),
            Self::may_handle(
                TurnState { isolate: *old(self), io: old(io)@, effects: old(effects)@ },
                msg,
                TurnState { isolate: *final(self), io: final(io)@, effects: final(effects)@ },
                outcome,
            ),
    ;

    /// The last turn of an isolate that asked to be destroyed.
    fn destroy(&mut self, io: &mut IoContext<'_>, effects: &mut TurnEffects<Self>) -> (outcome:
        Result<(), RuntimeError>)
        requires
            old(io)@.completions.wf(),
        ensures
            old(io)@.turn(final(io)@),
            Self::may_destroy(
                TurnState { isolate: *old(self), io: old(io)@, effects: old(effects)@ },
                TurnState { isolate: *final(self), io: final(io)@, effects: final(effects)@ },
                outcome,
            ),
    ;
}

} // verus!
