//! Completion slots: where the result of an operation waits for the isolate that asked for it.
//!
//! A slot belongs to the isolate that acquired it and moves through [`CompletionState`]: an idle
//! slot is submitted, a submitted one may be marked as cancelling, either of the two becomes ready
//! when its operation completes, and a ready one is idle again once its result was taken. Only an
//! idle or a ready slot can be released.

use vstd::prelude::*;

use crate::arena::{Handle, MAX_SLOTS};

verus! {

/// Names one acquired slot of a [`CompletionArena`].
#[derive(Clone, Copy, Debug, PartialEq, Eq, Structural)]
pub struct CompletionHandle {
    pub index: u32,
    pub generation: u32,
}

/// The handle that stands for none.
pub open spec fn invalid_handle() -> CompletionHandle {
    CompletionHandle { index: u32::MAX, generation: u32::MAX }
}

impl CompletionHandle {
    /// A handle to hold before one has been acquired.
    pub fn invalid() -> (handle: Self)
        ensures
            handle == invalid_handle(),
    {
        Self { index: u32::MAX, generation: u32::MAX }
    }

    /// The handle as one number: the generation in the upper half, the index in the lower.
    pub fn into_raw(self) -> (raw: u64)
        ensures
            raw == self.generation * 0x1_0000_0000 + self.index,
    {
        let generation: u64 = self.generation as u64;
        let index: u64 = self.index as u64;
        assert((generation << 32) | index == generation * 0x1_0000_0000 + index) by (bit_vector)
            requires
                generation <= 0xffff_ffff,
                index <= 0xffff_ffff,
        ;
        (generation << 32) | index
    }

    /// The handle that `into_raw` turned into `raw`.
    pub fn from_raw(raw: u64) -> (handle: Self)
        ensures
            raw == handle.generation * 0x1_0000_0000 + handle.index,
    {
        let index: u32 = (raw & 0xffff_ffff) as u32;
        let generation: u32 = (raw >> 32) as u32;
        assert(raw == ((raw >> 32) as u32) * 0x1_0000_0000 + ((raw & 0xffff_ffff) as u32))
            by (bit_vector);
        Self { index, generation }
    }
}

/// Two handles with the same raw number are the same handle.
pub proof fn law_raw_number_determines_the_handle(left: CompletionHandle, right: CompletionHandle)
    requires
        left.generation * 0x1_0000_0000 + left.index == right.generation * 0x1_0000_0000
            + right.index,
    ensures
        left == right,
{
}

#[derive(Clone, Copy, Debug, PartialEq, Eq, Structural)]
pub enum CompletionState {
    Idle,
    Submitted,
    Cancelling,
    Ready,
}

#[derive(Clone, Copy, Debug, PartialEq, Eq, Structural)]
pub enum CompletionError {
    Full,
    InvalidHandle,
    WrongOwner,
    InvalidState,
}

#[derive(Debug)]
pub struct Slot<R> {
    pub generation: u32,
    pub owner: Option<Handle>,
    pub state: Option<CompletionState>,
    pub result: Option<R>,
}

impl<R> Slot<R> {
    fn free() -> (slot: Self)
        ensures
            slot == free_slot::<R>(0),
    {
        Self { generation: 0, owner: None, state: None, result: None }
    }

    fn is_free(&self) -> (result: bool)
        ensures
            result == (self.owner is None),
    {
        self.owner.is_none()
    }

    /// A free slot holds nothing, an acquired one has a state, and exactly a ready one has a
    /// result.
    pub open spec fn wf(self) -> bool {
        match self.owner {
            None => self.state is None && self.result is None,
            Some(_) => self.state is Some && (self.result is Some <==> self.state == Some(
                CompletionState::Ready,
            )),
        }
    }
}

pub open spec fn free_slot<R>(generation: u32) -> Slot<R> {
    Slot { generation, owner: None, state: None, result: None }
}

/// What a [`CompletionArena`] holds: its slots, the free indices (the last one is handed out
/// first), and the number of acquired slots.
#[verifier::ext_equal]
pub struct CompletionsState<R> {
    pub slots: Seq<Slot<R>>,
    pub free: Seq<u32>,
    pub len: nat,
}

impl<R> CompletionsState<R> {
    /// `capacity` free slots, of which index 0 is handed out first.
    pub open spec fn vacant(capacity: nat) -> Self {
        CompletionsState {
            slots: Seq::new(capacity, |i: int| free_slot::<R>(0)),
            free: Seq::new(capacity, |i: int| (capacity - 1 - i) as u32),
            len: 0,
        }
    }

    /// Each slot is well formed, and the free list names each free slot once and no other slot.
    pub open spec fn wf(self) -> bool {
        &&& self.slots.len() <= MAX_SLOTS
        &&& forall|i: int| 0 <= i < self.slots.len() ==> (#[trigger] self.slots[i]).wf()
        &&& self.free.no_duplicates()
        &&& forall|k: int|
            0 <= k < self.free.len() ==> (#[trigger] self.free[k]) < self.slots.len()
                && self.slots[self.free[k] as int].owner is None
        &&& forall|i: int|
            0 <= i < self.slots.len() && (#[trigger] self.slots[i]).owner is None
                ==> self.free.contains(i as u32)
        &&& self.len + self.free.len() == self.slots.len()
    }

    /// `completion` names an acquired slot.
    pub open spec fn live(self, completion: CompletionHandle) -> bool {
        &&& (completion.index as int) < self.slots.len()
        &&& self.slots[completion.index as int].generation == completion.generation
        &&& self.slots[completion.index as int].owner is Some
    }

    pub open spec fn slot(self, completion: CompletionHandle) -> Slot<R> {
        self.slots[completion.index as int]
    }

    pub open spec fn owner_of(self, completion: CompletionHandle) -> Handle {
        self.slot(completion).owner->0
    }

    pub open spec fn status(self, completion: CompletionHandle) -> CompletionState {
        self.slot(completion).state->0
    }

    /// Some slot belongs to `owner`.
    pub open spec fn has_owner(self, owner: Handle) -> bool {
        exists|i: int| 0 <= i < self.slots.len() && (#[trigger] self.slots[i]).owner == Some(owner)
    }

    pub open spec fn full(self) -> bool {
        self.free.len() == 0
    }

    /// The handle that the next acquisition returns.
    pub open spec fn next_handle(self) -> CompletionHandle
        recommends
            !self.full(),
    {
        let index = self.free.last();
        CompletionHandle { index, generation: self.slots[index as int].generation }
    }

    pub open spec fn with_slot(self, completion: CompletionHandle, slot: Slot<R>) -> Self {
        CompletionsState { slots: self.slots.update(completion.index as int, slot), ..self }
    }

    /// The same acquired slot in another state and with another result.
    pub open spec fn moved(
        self,
        completion: CompletionHandle,
        state: CompletionState,
        result: Option<R>,
    ) -> Self {
        self.with_slot(
            completion,
            Slot { state: Some(state), result, ..self.slot(completion) },
        )
    }

    /// Whether `owner` may act on `completion`, and the error it gets if not.
    pub open spec fn access(self, owner: Handle, completion: CompletionHandle) -> Result<
        (),
        CompletionError,
    > {
        if !self.live(completion) {
            Err(CompletionError::InvalidHandle)
        } else if self.owner_of(completion) != owner {
            Err(CompletionError::WrongOwner)
        } else {
            Ok(())
        }
    }

    /// The arena after `owner` acquired the slot of `next_handle`.
    pub open spec fn acquire(self, owner: Handle) -> Self
        recommends
            !self.full(),
    {
        let index = self.free.last() as int;
        CompletionsState {
            slots: self.slots.update(
                index,
                Slot {
                    owner: Some(owner),
                    state: Some(CompletionState::Idle),
                    ..self.slots[index]
                },
            ),
            free: self.free.drop_last(),
            len: self.len + 1,
        }
    }

    pub open spec fn submit(self, owner: Handle, completion: CompletionHandle) -> Result<
        Self,
        CompletionError,
    > {
        match self.access(owner, completion) {
            Err(error) => Err(error),
            Ok(_) => if self.status(completion) == CompletionState::Idle {
                Ok(self.moved(completion, CompletionState::Submitted, None))
            } else {
                Err(CompletionError::InvalidState)
            },
        }
    }

    pub open spec fn unsubmit(self, owner: Handle, completion: CompletionHandle) -> Result<
        Self,
        CompletionError,
    > {
        match self.access(owner, completion) {
            Err(error) => Err(error),
            Ok(_) => if self.status(completion) == CompletionState::Submitted {
                Ok(self.moved(completion, CompletionState::Idle, None))
            } else {
                Err(CompletionError::InvalidState)
            },
        }
    }

    /// The arena after the start of a cancellation, and the state that the slot is then in.
    pub open spec fn begin_cancel(self, owner: Handle, completion: CompletionHandle) -> Result<
        (Self, CompletionState),
        CompletionError,
    > {
        match self.access(owner, completion) {
            Err(error) => Err(error),
            Ok(_) => match self.status(completion) {
                CompletionState::Idle => Ok((self, CompletionState::Idle)),
                CompletionState::Ready => Ok((self, CompletionState::Ready)),
                CompletionState::Submitted => Ok(
                    (
                        self.moved(completion, CompletionState::Cancelling, None),
                        CompletionState::Cancelling,
                    ),
                ),
                CompletionState::Cancelling => Err(CompletionError::InvalidState),
            },
        }
    }

    pub open spec fn complete(self, completion: CompletionHandle, result: R) -> Result<
        Self,
        CompletionError,
    > {
        if !self.live(completion) {
            Err(CompletionError::InvalidHandle)
        } else {
            match self.status(completion) {
                CompletionState::Submitted | CompletionState::Cancelling => Ok(
                    self.moved(completion, CompletionState::Ready, Some(result)),
                ),
                CompletionState::Idle | CompletionState::Ready => Err(
                    CompletionError::InvalidState,
                ),
            }
        }
    }

    /// The arena after the result of `completion` was taken, and that result.
    pub open spec fn take_result(self, owner: Handle, completion: CompletionHandle) -> Result<
        (Self, R),
        CompletionError,
    > {
        match self.access(owner, completion) {
            Err(error) => Err(error),
            Ok(_) => if self.status(completion) == CompletionState::Ready {
                Ok(
                    (
                        self.moved(completion, CompletionState::Idle, None),
                        self.slot(completion).result->0,
                    ),
                )
            } else {
                Err(CompletionError::InvalidState)
            },
        }
    }

    pub open spec fn release(self, owner: Handle, completion: CompletionHandle) -> Result<
        Self,
        CompletionError,
    > {
        match self.access(owner, completion) {
            Err(error) => Err(error),
            Ok(_) => match self.status(completion) {
                CompletionState::Idle | CompletionState::Ready => Ok(self.released(completion)),
                CompletionState::Submitted | CompletionState::Cancelling => Err(
                    CompletionError::InvalidState,
                ),
            },
        }
    }

    /// The arena with the slot of `completion` free and in its next generation.
    pub open spec fn released(self, completion: CompletionHandle) -> Self {
        CompletionsState {
            slots: self.slots.update(
                completion.index as int,
                free_slot(crate::arena::next_generation(completion.generation)),
            ),
            free: self.free.push(completion.index),
            len: (self.len - 1) as nat,
        }
    }
}

/// Fixed-capacity store of completion slots.
#[derive(Debug)]
pub struct CompletionArena<R> {
    slots: Vec<Slot<R>>,
    free_list: Vec<u32>,
    len: usize,
}

impl<R> View for CompletionArena<R> {
    type V = CompletionsState<R>;

    closed spec fn view(&self) -> CompletionsState<R> {
        CompletionsState { slots: self.slots@, free: self.free_list@, len: self.len as nat }
    }
}

impl<R> CompletionArena<R> {
    pub fn with_capacity(capacity: usize) -> (arena: Self)
        requires
            capacity <= MAX_SLOTS,
        ensures
            arena@ == CompletionsState::<R>::vacant(capacity as nat),
            arena@.wf(),
    {
        let mut slots: Vec<Slot<R>> = Vec::with_capacity(capacity);
        let mut free_list: Vec<u32> = Vec::with_capacity(capacity);
        let mut filled: usize = 0;
        while filled < capacity
            invariant
                filled <= capacity <= MAX_SLOTS,
                slots@ =~= Seq::new(filled as nat, |i: int| free_slot::<R>(0)),
                free_list@ =~= Seq::new(filled as nat, |i: int| (capacity - 1 - i) as u32),
            decreases capacity - filled,
        {
            slots.push(Slot::free());
            free_list.push((capacity - 1 - filled) as u32);
            filled += 1;
        }
        let arena = Self { slots, free_list, len: 0 };
        proof {
            assert forall|i: int|
                0 <= i < arena@.slots.len() && (#[trigger] arena@.slots[i]).owner is None implies
                arena@.free.contains(i as u32) by {
                assert(arena@.free[capacity - 1 - i] == i as u32);
            }
        }
        arena
    }

    pub fn acquire(&mut self, owner: Handle) -> (result: Result<CompletionHandle, CompletionError>)
        requires
            old(self)@.wf(),
        ensures
            final(self)@.wf(),
            match result {
                Ok(completion) => {
                    &&& !old(self)@.full()
                    &&& completion == old(self)@.next_handle()
                    &&& final(self)@ == old(self)@.acquire(owner)
                },
                Err(error) => {
                    &&& old(self)@.full()
                    &&& error == CompletionError::Full
                    &&& final(self)@ == old(self)@
                },
            },
    {
        let ghost pre = self@;
        match self.free_list.pop() {
            None => Err(CompletionError::Full),
            Some(index) => {
                let position: usize = index as usize;
                let generation: u32 = self.slots[position].generation;
                self.slots[position].owner = Some(owner);
                self.slots[position].state = Some(CompletionState::Idle);
                assert(pre.len < self.slots.len());
                self.len += 1;
                proof {
                    assert(self@ =~= pre.acquire(owner));
                    lemma_acquire_wf(pre, owner);
                }
                Ok(CompletionHandle { index, generation })
            },
        }
    }

    pub fn owner(&self, completion: CompletionHandle) -> (result: Result<Handle, CompletionError>)
        ensures
            match result {
                Ok(owner) => self@.live(completion) && owner == self@.owner_of(completion),
                Err(error) => !self@.live(completion) && error == CompletionError::InvalidHandle,
            },
    {
        match self.slot(completion) {
            Ok(slot) => slot.owner.ok_or(CompletionError::InvalidHandle),
            Err(error) => Err(error),
        }
    }

    pub fn state(&self, completion: CompletionHandle) -> (result: Result<
        CompletionState,
        CompletionError,
    >)
        requires
            self@.wf(),
        ensures
            match result {
                Ok(state) => self@.live(completion) && state == self@.status(completion),
                Err(error) => !self@.live(completion) && error == CompletionError::InvalidHandle,
            },
    {
        match self.slot(completion) {
            Ok(slot) => slot.state.ok_or(CompletionError::InvalidHandle),
            Err(error) => Err(error),
        }
    }

    /// The result that waits in `completion`, if it is ready and belongs to `owner`.
    pub fn peek_result(&self, owner: Handle, completion: CompletionHandle) -> (result: Option<&R>)
        requires
            self@.wf(),
        ensures
            match result {
                Some(value) => self@.take_result(owner, completion) matches Ok((_, taken))
                    && taken == *value,
                None => self@.take_result(owner, completion) is Err,
            },
    {
        match self.slot(completion) {
            Ok(slot) => match slot.owner {
                Some(holder) => if holder == owner {
                    slot.result.as_ref()
                } else {
                    None
                },
                None => None,
            },
            Err(_) => None,
        }
    }

    pub fn submit(&mut self, owner: Handle, completion: CompletionHandle) -> (result: Result<
        (),
        CompletionError,
    >)
        requires
            old(self)@.wf(),
        ensures
            final(self)@.wf(),
            match result {
                Ok(_) => old(self)@.submit(owner, completion) == Ok::<_, CompletionError>(
                    final(self)@,
                ),
                Err(error) => old(self)@.submit(owner, completion) == Err::<
                    CompletionsState<R>,
                    _,
                >(error) && final(self)@ == old(self)@,
            },
    {
        match self.owned_slot_mut(owner, completion) {
            Err(error) => Err(error),
            Ok(slot) => {
                if !is_state(&slot.state, CompletionState::Idle) {
                    return Err(CompletionError::InvalidState);
                }
                slot.state = Some(CompletionState::Submitted);
                Ok(())
            },
        }
    }

    pub fn unsubmit(&mut self, owner: Handle, completion: CompletionHandle) -> (result: Result<
        (),
        CompletionError,
    >)
        requires
            old(self)@.wf(),
        ensures
            final(self)@.wf(),
            match result {
                Ok(_) => old(self)@.unsubmit(owner, completion) == Ok::<_, CompletionError>(
                    final(self)@,
                ),
                Err(error) => old(self)@.unsubmit(owner, completion) == Err::<
                    CompletionsState<R>,
                    _,
                >(error) && final(self)@ == old(self)@,
            },
    {
        match self.owned_slot_mut(owner, completion) {
            Err(error) => Err(error),
            Ok(slot) => {
                if !is_state(&slot.state, CompletionState::Submitted) {
                    return Err(CompletionError::InvalidState);
                }
                slot.state = Some(CompletionState::Idle);
                Ok(())
            },
        }
    }

    pub fn begin_cancel(&mut self, owner: Handle, completion: CompletionHandle) -> (result: Result<
        CompletionState,
        CompletionError,
    >)
        requires
            old(self)@.wf(),
        ensures
            final(self)@.wf(),
            match result {
                Ok(state) => old(self)@.begin_cancel(owner, completion) == Ok::<
                    _,
                    CompletionError,
                >((final(self)@, state)),
                Err(error) => old(self)@.begin_cancel(owner, completion) == Err::<
                    (CompletionsState<R>, CompletionState),
                    _,
                >(error) && final(self)@ == old(self)@,
            },
    {
        let ghost pre = self@;
        match self.owned_slot_mut(owner, completion) {
            Err(error) => Err(error),
            Ok(slot) => match slot.state {
                None => Err(CompletionError::InvalidHandle),
                Some(CompletionState::Idle) => {
                    assert(pre.with_slot(completion, *slot) =~= pre);
                    Ok(CompletionState::Idle)
                },
                Some(CompletionState::Ready) => {
                    assert(pre.with_slot(completion, *slot) =~= pre);
                    Ok(CompletionState::Ready)
                },
                Some(CompletionState::Submitted) => {
                    slot.state = Some(CompletionState::Cancelling);
                    Ok(CompletionState::Cancelling)
                },
                Some(CompletionState::Cancelling) => {
                    Err(CompletionError::InvalidState)
                },
            },
        }
    }

    pub fn complete(&mut self, completion: CompletionHandle, result: R) -> (outcome: Result<
        (),
        CompletionError,
    >)
        requires
            old(self)@.wf(),
        ensures
            final(self)@.wf(),
            match outcome {
                Ok(_) => old(self)@.complete(completion, result) == Ok::<_, CompletionError>(
                    final(self)@,
                ),
                Err(error) => old(self)@.complete(completion, result) == Err::<
                    CompletionsState<R>,
                    _,
                >(error) && final(self)@ == old(self)@,
            },
    {
        match self.slot_mut(completion) {
            Err(error) => Err(error),
            Ok(slot) => match slot.state {
                None => Err(CompletionError::InvalidHandle),
                Some(CompletionState::Submitted) | Some(CompletionState::Cancelling) => {
                    slot.state = Some(CompletionState::Ready);
                    slot.result = Some(result);
                    Ok(())
                },
                Some(CompletionState::Idle) | Some(CompletionState::Ready) => {
                    Err(CompletionError::InvalidState)
                },
            },
        }
    }

    pub fn take_result(&mut self, owner: Handle, completion: CompletionHandle) -> (result: Result<
        R,
        CompletionError,
    >)
        requires
            old(self)@.wf(),
        ensures
            final(self)@.wf(),
            match result {
                Ok(value) => old(self)@.take_result(owner, completion) == Ok::<
                    _,
                    CompletionError,
                >((final(self)@, value)),
                Err(error) => old(self)@.take_result(owner, completion) == Err::<
                    (CompletionsState<R>, R),
                    _,
                >(error) && final(self)@ == old(self)@,
            },
    {
        match self.owned_slot_mut(owner, completion) {
            Err(error) => Err(error),
            Ok(slot) => {
                if !is_state(&slot.state, CompletionState::Ready) {
                    return Err(CompletionError::InvalidState);
                }
                slot.state = Some(CompletionState::Idle);
                let taken = slot.result.take();
                taken.ok_or(CompletionError::InvalidState)
            },
        }
    }

    pub fn release(&mut self, owner: Handle, completion: CompletionHandle) -> (result: Result<
        (),
        CompletionError,
    >)
        requires
            old(self)@.wf(),
        ensures
            final(self)@.wf(),
            match result {
                Ok(_) => old(self)@.release(owner, completion) == Ok::<_, CompletionError>(
                    final(self)@,
                ),
                Err(error) => old(self)@.release(owner, completion) == Err::<
                    CompletionsState<R>,
                    _,
                >(error) && final(self)@ == old(self)@,
            },
    {
        let ghost pre = self@;
        match self.owned_slot_mut(owner, completion) {
            Err(error) => return Err(error),
            Ok(slot) => {
                if !is_state(&slot.state, CompletionState::Idle) && !is_state(
                    &slot.state,
                    CompletionState::Ready,
                ) {
                    return Err(CompletionError::InvalidState);
                }
                slot.owner = None;
                slot.state = None;
                slot.result = None;
                slot.generation = completion.generation.wrapping_add(1);
            },
        }
        proof {
            lemma_released_wf(pre, completion);
        }
        self.len -= 1;
        self.free_list.push(completion.index);
        Ok(())
    }

    /// Number of slots that are free to be acquired.
    pub fn available(&self) -> (count: usize)
        ensures
            count == self@.free.len(),
    {
        self.free_list.len()
    }

    /// Whether any slot belongs to `owner`.
    pub fn has_owner(&self, owner: Handle) -> (result: bool)
        ensures
            result == self@.has_owner(owner),
    {
        let mut position: usize = 0;
        while position < self.slots.len()
            invariant
                position <= self.slots.len(),
                forall|i: int|
                    0 <= i < position ==> (#[trigger] self@.slots[i]).owner != Some(owner),
            decreases self.slots.len() - position,
        {
            if let Some(holder) = self.slots[position].owner {
                if holder == owner {
                    return true;
                }
            }
            position += 1;
        }
        false
    }

    fn slot(&self, completion: CompletionHandle) -> (result: Result<&Slot<R>, CompletionError>)
        ensures
            match result {
                Ok(slot) => self@.live(completion) && *slot == self@.slot(completion),
                Err(error) => !self@.live(completion) && error == CompletionError::InvalidHandle,
            },
    {
        let position: usize = completion.index as usize;
        if position >= self.slots.len() {
            return Err(CompletionError::InvalidHandle);
        }
        let slot = &self.slots[position];
        if slot.generation != completion.generation || slot.is_free() {
            return Err(CompletionError::InvalidHandle);
        }
        Ok(slot)
    }

    fn slot_mut(&mut self, completion: CompletionHandle) -> (result: Result<
        &mut Slot<R>,
        CompletionError,
    >)
        ensures
            match result {
                Ok(slot) => {
                    &&& old(self)@.live(completion)
                    &&& *slot == old(self)@.slot(completion)
                    &&& final(self)@ == old(self)@.with_slot(completion, *final(slot))
                },
                Err(error) => {
                    &&& !old(self)@.live(completion)
                    &&& error == CompletionError::InvalidHandle
                    &&& final(self)@ == old(self)@
                },
            },
    {
        let position: usize = completion.index as usize;
        if position >= self.slots.len() {
            return Err(CompletionError::InvalidHandle);
        }
        if self.slots[position].generation != completion.generation
            || self.slots[position].is_free() {
            return Err(CompletionError::InvalidHandle);
        }
        Ok(&mut self.slots[position])
    }

    fn owned_slot_mut(&mut self, owner: Handle, completion: CompletionHandle) -> (result: Result<
        &mut Slot<R>,
        CompletionError,
    >)
        ensures
            match result {
                Ok(slot) => {
                    &&& old(self)@.access(owner, completion) is Ok
                    &&& *slot == old(self)@.slot(completion)
                    &&& final(self)@ == old(self)@.with_slot(completion, *final(slot))
                },
                Err(error) => {
                    &&& old(self)@.access(owner, completion) == Err::<(), _>(error)
                    &&& final(self)@ == old(self)@
                },
            },
    {
        match self.slot_mut(completion) {
            Err(error) => Err(error),
            Ok(slot) => match slot.owner {
                Some(holder) => if holder == owner {
                    Ok(slot)
                } else {
                    Err(CompletionError::WrongOwner)
                },
                None => Err(CompletionError::WrongOwner),
            },
        }
    }
}

fn is_state(held: &Option<CompletionState>, state: CompletionState) -> (result: bool)
    ensures
        result == (*held == Some(state)),
{
    match held {
        Some(current) => *current == state,
        None => false,
    }
}

proof fn lemma_acquire_wf<R>(state: CompletionsState<R>, owner: Handle)
    requires
        state.wf(),
        !state.full(),
    ensures
        state.acquire(owner).wf(),
{
    let post = state.acquire(owner);
    assert forall|i: int|
        0 <= i < post.slots.len() && (#[trigger] post.slots[i]).owner is None implies
        post.free.contains(i as u32) by {
        let k = choose|k: int| 0 <= k < state.free.len() && state.free[k] == i as u32;
        assert(post.free[k] == i as u32);
    }
}

/// The slot of a live completion is not on the free list, so at least one slot is acquired.
pub proof fn lemma_live_means_len<R>(state: CompletionsState<R>, index: int)
    requires
        state.wf(),
        0 <= index < state.slots.len(),
        state.slots[index].owner is Some,
    ensures
        state.len > 0,
        !state.free.contains(index as u32),
{
    let named = state.free.map_values(|i: u32| i as int);
    let all = vstd::set_lib::set_int_range(0, state.slots.len() as int);
    vstd::set_lib::lemma_int_range(0, state.slots.len() as int);
    named.unique_seq_to_set();
    vstd::set_lib::lemma_len_subset(named.to_set(), all.remove(index));
}

proof fn lemma_released_wf<R>(state: CompletionsState<R>, completion: CompletionHandle)
    requires
        state.wf(),
        state.live(completion),
    ensures
        state.len > 0,
        state.released(completion).wf(),
{
    let post = state.released(completion);
    lemma_live_means_len(state, completion.index as int);
    assert forall|i: int|
        0 <= i < post.slots.len() && (#[trigger] post.slots[i]).owner is None implies
        post.free.contains(i as u32) by {
        if i == completion.index as int {
            assert(post.free.last() == completion.index);
        } else {
            let k = choose|k: int| 0 <= k < state.free.len() && state.free[k] == i as u32;
            assert(post.free[k] == i as u32);
        }
    }
}

/// An operation on a completion arena that may change it.
pub enum CompletionOp<R> {
    Acquire(Handle),
    Submit(Handle, CompletionHandle),
    Unsubmit(Handle, CompletionHandle),
    BeginCancel(Handle, CompletionHandle),
    Complete(CompletionHandle, R),
    TakeResult(Handle, CompletionHandle),
    Release(Handle, CompletionHandle),
}

impl<R> CompletionOp<R> {
    /// The isolate that asks for the operation; a completion is asked for by none.
    pub open spec fn actor(self) -> Option<Handle> {
        match self {
            CompletionOp::Acquire(owner) => Some(owner),
            CompletionOp::Submit(owner, _) => Some(owner),
            CompletionOp::Unsubmit(owner, _) => Some(owner),
            CompletionOp::BeginCancel(owner, _) => Some(owner),
            CompletionOp::Complete(_, _) => None,
            CompletionOp::TakeResult(owner, _) => Some(owner),
            CompletionOp::Release(owner, _) => Some(owner),
        }
    }

    /// The operation ends the wait of `completion`: it completes it or takes its submission back.
    pub open spec fn settles(self, completion: CompletionHandle) -> bool {
        match self {
            CompletionOp::Complete(other, _) => other == completion,
            CompletionOp::Unsubmit(_, other) => other == completion,
            _ => false,
        }
    }
}

impl<R> CompletionsState<R> {
    pub open spec fn or_unchanged(self, outcome: Result<Self, CompletionError>) -> Self {
        match outcome {
            Ok(state) => state,
            Err(_) => self,
        }
    }

    /// The arena after `op`, which changes nothing where it fails.
    pub open spec fn apply(self, op: CompletionOp<R>) -> Self {
        match op {
            CompletionOp::Acquire(owner) => if self.full() {
                self
            } else {
                self.acquire(owner)
            },
            CompletionOp::Submit(owner, completion) => self.or_unchanged(
                self.submit(owner, completion),
            ),
            CompletionOp::Unsubmit(owner, completion) => self.or_unchanged(
                self.unsubmit(owner, completion),
            ),
            CompletionOp::BeginCancel(owner, completion) => match self.begin_cancel(
                owner,
                completion,
            ) {
                Ok((state, _)) => state,
                Err(_) => self,
            },
            CompletionOp::Complete(completion, result) => self.or_unchanged(
                self.complete(completion, result),
            ),
            CompletionOp::TakeResult(owner, completion) => match self.take_result(
                owner,
                completion,
            ) {
                Ok((state, _)) => state,
                Err(_) => self,
            },
            CompletionOp::Release(owner, completion) => self.or_unchanged(
                self.release(owner, completion),
            ),
        }
    }

    /// The arena after all of `ops`, in order.
    pub open spec fn run(self, ops: Seq<CompletionOp<R>>) -> Self
        decreases ops.len(),
    {
        if ops.len() == 0 {
            self
        } else {
            self.run(ops.drop_last()).apply(ops.last())
        }
    }

    /// Every slot of an isolate other than `owner` is in `post` as it is here.
    pub open spec fn keeps_others(self, owner: Handle, post: Self) -> bool {
        &&& post.slots.len() == self.slots.len()
        &&& forall|i: int|
            0 <= i < self.slots.len() && (#[trigger] self.slots[i]).owner is Some
                && self.slots[i].owner != Some(owner) ==> post.slots[i] == self.slots[i]
    }

    /// `post` is what a turn of `owner` may make of this arena: slots of other isolates are as
    /// they were, and so are those of its own that an operation still has to complete.
    pub open spec fn turn_of(self, owner: Handle, post: Self) -> bool {
        &&& post.wf()
        &&& self.keeps_others(owner, post)
        &&& forall|i: int|
            0 <= i < self.slots.len() && ((#[trigger] self.slots[i]).state == Some(
                CompletionState::Submitted,
            ) || self.slots[i].state == Some(CompletionState::Cancelling)) ==> post.slots[i]
                == self.slots[i]
        &&& forall|i: int|
            0 <= i < self.slots.len() && (#[trigger] post.slots[i]).owner is Some
                && post.slots[i].owner != Some(owner) ==> post.slots[i] == self.slots[i]
        &&& forall|i: int|
            0 <= i < self.slots.len() && ((#[trigger] post.slots[i]).state == Some(
                CompletionState::Submitted,
            ) || post.slots[i].state == Some(CompletionState::Cancelling)) ==> post.slots[i]
                == self.slots[i]
    }
}

/// Every operation keeps the arena well formed and its number of slots fixed.
pub proof fn law_operations_keep_the_completions_well_formed<R>(
    state: CompletionsState<R>,
    ops: Seq<CompletionOp<R>>,
)
    requires
        state.wf(),
    ensures
        state.run(ops).wf(),
        state.run(ops).slots.len() == state.slots.len(),
    decreases ops.len(),
{
    if ops.len() > 0 {
        law_operations_keep_the_completions_well_formed(state, ops.drop_last());
        lemma_apply_wf(state.run(ops.drop_last()), ops.last());
    }
}

/// One operation keeps the arena well formed.
pub proof fn lemma_apply_wf<R>(state: CompletionsState<R>, op: CompletionOp<R>)
    requires
        state.wf(),
    ensures
        state.apply(op).wf(),
        state.apply(op).slots.len() == state.slots.len(),
{
    match op {
        CompletionOp::Acquire(owner) => {
            if !state.full() {
                lemma_acquire_wf(state, owner);
            }
        },
        CompletionOp::Release(owner, completion) => {
            if state.release(owner, completion) is Ok {
                lemma_released_wf(state, completion);
            }
        },
        _ => {},
    }
}

/// An acquired completion is idle, belongs to the isolate that asked, and named nothing before;
/// every other completion is as it was.
pub proof fn law_acquired_completion_is_idle_and_owned<R>(
    state: CompletionsState<R>,
    owner: Handle,
    other: CompletionHandle,
)
    requires
        state.wf(),
        !state.full(),
    ensures
        !state.live(state.next_handle()),
        state.acquire(owner).live(state.next_handle()),
        state.acquire(owner).owner_of(state.next_handle()) == owner,
        state.acquire(owner).status(state.next_handle()) == CompletionState::Idle,
        state.live(other) ==> state.acquire(owner).live(other) && state.acquire(owner).slot(other)
            == state.slot(other),
{
}

/// An operation that one isolate asks for leaves every completion of another isolate as it was.
pub proof fn law_isolates_act_on_their_own_completions_only<R>(
    state: CompletionsState<R>,
    op: CompletionOp<R>,
    completion: CompletionHandle,
)
    requires
        state.wf(),
        state.live(completion),
        op.actor() is Some,
        op.actor() != Some(state.owner_of(completion)),
    ensures
        state.apply(op).live(completion),
        state.apply(op).slot(completion) == state.slot(completion),
{
}

/// Whoever does not own a completion is refused every operation on it.
pub proof fn law_wrong_owner_is_refused<R>(
    state: CompletionsState<R>,
    owner: Handle,
    completion: CompletionHandle,
)
    requires
        state.live(completion),
        state.owner_of(completion) != owner,
    ensures
        state.submit(owner, completion) == Err::<CompletionsState<R>, _>(
            CompletionError::WrongOwner,
        ),
        state.unsubmit(owner, completion) == Err::<CompletionsState<R>, _>(
            CompletionError::WrongOwner,
        ),
        state.begin_cancel(owner, completion) == Err::<(CompletionsState<R>, CompletionState), _>(
            CompletionError::WrongOwner,
        ),
        state.take_result(owner, completion) == Err::<(CompletionsState<R>, R), _>(
            CompletionError::WrongOwner,
        ),
        state.release(owner, completion) == Err::<CompletionsState<R>, _>(
            CompletionError::WrongOwner,
        ),
{
}

/// A completion changes state only along the edges of its life: idle to submitted and back,
/// submitted to cancelling, either of these to ready, ready to idle. It ends only when idle or
/// ready.
pub proof fn law_completion_moves_along_its_life<R>(
    state: CompletionsState<R>,
    op: CompletionOp<R>,
    completion: CompletionHandle,
)
    requires
        state.wf(),
        state.live(completion),
    ensures
        ({
            let from = state.status(completion);
            let to = state.apply(op).status(completion);
            if !state.apply(op).live(completion) {
                from == CompletionState::Idle || from == CompletionState::Ready
            } else {
                ||| to == from
                ||| from == CompletionState::Idle && to == CompletionState::Submitted
                ||| from == CompletionState::Submitted && to == CompletionState::Idle
                ||| from == CompletionState::Submitted && to == CompletionState::Cancelling
                ||| from == CompletionState::Submitted && to == CompletionState::Ready
                ||| from == CompletionState::Cancelling && to == CompletionState::Ready
                ||| from == CompletionState::Ready && to == CompletionState::Idle
            }
        }),
{
}

/// The operation that a completion was submitted for is never forgotten: until it completes or the
/// submission is taken back, the completion stays live and waits.
pub proof fn law_submitted_completion_waits_for_its_operation<R>(
    state: CompletionsState<R>,
    ops: Seq<CompletionOp<R>>,
    completion: CompletionHandle,
)
    requires
        state.wf(),
        state.live(completion),
        state.status(completion) == CompletionState::Submitted || state.status(completion)
            == CompletionState::Cancelling,
        forall|k: int| 0 <= k < ops.len() ==> !(#[trigger] ops[k]).settles(completion),
    ensures
        state.run(ops).live(completion),
        state.run(ops).owner_of(completion) == state.owner_of(completion),
        state.run(ops).status(completion) == CompletionState::Submitted || state.run(ops).status(
            completion,
        ) == CompletionState::Cancelling,
    decreases ops.len(),
{
    if ops.len() > 0 {
        let earlier = ops.drop_last();
        law_submitted_completion_waits_for_its_operation(state, earlier, completion);
        law_operations_keep_the_completions_well_formed(state, earlier);
    }
}

/// The result that an operation completes with is what its owner takes, once; after that the
/// completion is idle and has no result to take.
pub proof fn law_result_is_taken_once<R>(
    state: CompletionsState<R>,
    completion: CompletionHandle,
    result: R,
)
    requires
        state.complete(completion, result) is Ok,
    ensures
        ({
            let owner = state.owner_of(completion);
            let ready = state.complete(completion, result)->Ok_0;
            &&& ready.take_result(owner, completion) matches Ok((idle, taken)) && {
                &&& taken == result
                &&& idle.status(completion) == CompletionState::Idle
                &&& idle.take_result(owner, completion) == Err::<(CompletionsState<R>, R), _>(
                    CompletionError::InvalidState,
                )
            }
        }),
{
}

/// Taking a submission back leaves the arena as it was before the submission.
pub proof fn law_unsubmit_undoes_submit<R>(
    state: CompletionsState<R>,
    owner: Handle,
    completion: CompletionHandle,
)
    requires
        state.wf(),
        state.submit(owner, completion) is Ok,
    ensures
        state.submit(owner, completion)->Ok_0.unsubmit(owner, completion) == Ok::<
            _,
            CompletionError,
        >(state),
{
    let submitted = state.submit(owner, completion)->Ok_0;
    assert(submitted.moved(completion, CompletionState::Idle, None) =~= state);
}

/// How many of `ops` release a completion that names the slot at `index`.
pub open spec fn releases_at<R>(ops: Seq<CompletionOp<R>>, index: u32) -> nat
    decreases ops.len(),
{
    if ops.len() == 0 {
        0
    } else {
        releases_at(ops.drop_last(), index) + match ops.last() {
            CompletionOp::Release(_, completion) if completion.index == index => 1nat,
            _ => 0,
        }
    }
}

/// A released completion stays stale through any run of operations in which its slot is not released
/// often enough to come round to the same generation again, and its slot is the next to be handed
/// out, under another generation.
pub proof fn law_released_completion_stays_stale<R>(
    state: CompletionsState<R>,
    owner: Handle,
    completion: CompletionHandle,
    ops: Seq<CompletionOp<R>>,
)
    requires
        state.wf(),
        state.release(owner, completion) is Ok,
        releases_at(ops, completion.index) < u32::MAX,
    ensures
        !state.released(completion).run(ops).live(completion),
        !state.released(completion).full(),
        state.released(completion).next_handle().index == completion.index,
        state.released(completion).next_handle().generation != completion.generation,
{
    lemma_released_wf(state, completion);
    lemma_generation_distance(state.released(completion), completion, ops);
}

/// How many generations lie from `from` up to `to`.
spec fn generations_between(from: u32, to: u32) -> int {
    if from <= to {
        to - from
    } else {
        to - from + MAX_SLOTS
    }
}

proof fn lemma_generation_distance<R>(
    state: CompletionsState<R>,
    completion: CompletionHandle,
    ops: Seq<CompletionOp<R>>,
)
    requires
        state.wf(),
        (completion.index as int) < state.slots.len(),
        state.slot(completion).generation == crate::arena::next_generation(
            completion.generation,
        ),
        releases_at(ops, completion.index) < u32::MAX,
    ensures
        state.run(ops).slots.len() == state.slots.len(),
        1 <= generations_between(
            completion.generation,
            state.run(ops).slot(completion).generation,
        ) <= 1 + releases_at(ops, completion.index),
    decreases ops.len(),
{
    if ops.len() > 0 {
        lemma_generation_distance(state, completion, ops.drop_last());
        law_operations_keep_the_completions_well_formed(state, ops.drop_last());
    }
}

/// Acquiring, releasing and taking a result, in any number and order, are a turn of their actor.
pub proof fn law_turns_compose<R>(
    first: CompletionsState<R>,
    second: CompletionsState<R>,
    third: CompletionsState<R>,
    owner: Handle,
)
    requires
        first.turn_of(owner, second),
        second.turn_of(owner, third),
    ensures
        first.turn_of(owner, third),
{
}

/// What an isolate may do to its completions during a turn is a turn of that isolate.
pub proof fn law_isolate_operations_are_turns<R>(
    state: CompletionsState<R>,
    owner: Handle,
    completion: CompletionHandle,
)
    requires
        state.wf(),
    ensures
        state.turn_of(owner, state),
        state.turn_of(owner, state.apply(CompletionOp::Acquire(owner))),
        state.turn_of(owner, state.apply(CompletionOp::Release(owner, completion))),
        state.turn_of(owner, state.apply(CompletionOp::TakeResult(owner, completion))),
{
    lemma_apply_wf(state, CompletionOp::Acquire(owner));
    lemma_apply_wf(state, CompletionOp::Release(owner, completion));
}

/// `completion` names a slot in its present generation, and the slot belongs to `owner`.
pub open spec fn belongs_to<R>(
    state: CompletionsState<R>,
    completion: CompletionHandle,
    owner: Handle,
) -> bool {
    let index = completion.index as int;
    &&& index < state.slots.len()
    &&& state.slots[index].generation == completion.generation
    &&& state.slots[index].owner == Some(owner)
}

/// `completion` names a slot in its present generation, and the slot belongs to somebody.
pub open spec fn belongs_to_somebody<R>(
    state: CompletionsState<R>,
    completion: CompletionHandle,
) -> bool {
    let index = completion.index as int;
    &&& index < state.slots.len()
    &&& state.slots[index].generation == completion.generation
    &&& state.slots[index].owner is Some
}

/// `post` is `pre` but for the slot of `completion`, which is in state `to` with `result`; whose it
/// is has not changed.
pub open spec fn only_goes_to<R>(
    pre: CompletionsState<R>,
    completion: CompletionHandle,
    to: CompletionState,
    result: Option<R>,
    post: CompletionsState<R>,
) -> bool {
    let index = completion.index as int;
    &&& post.len == pre.len
    &&& post.free == pre.free
    &&& post.slots.len() == pre.slots.len()
    &&& post.slots[index].generation == pre.slots[index].generation
    &&& post.slots[index].owner == pre.slots[index].owner
    &&& post.slots[index].state == Some(to)
    &&& post.slots[index].result == result
    &&& forall|i: int|
        0 <= i < pre.slots.len() && i != index ==> (#[trigger] post.slots[i]) == pre.slots[i]
}

/// What an isolate can do with a completion of its own goes by the state of the completion, and by
/// nothing else. An idle one can be submitted or released; a submitted one can be taken back; the
/// cancellation of a submitted one can be started, once; the result of a ready one can be taken, or
/// it can be released with its result. Nothing else succeeds, and what succeeds changes that one
/// completion only.
pub proof fn law_owner_acts_by_the_state_of_a_completion<R>(
    state: CompletionsState<R>,
    owner: Handle,
    completion: CompletionHandle,
)
    requires
        state.wf(),
        belongs_to(state, completion, owner),
    ensures
        ({
            let slot = state.slots[completion.index as int];
            &&& match state.submit(owner, completion) {
                Ok(post) => slot.state == Some(CompletionState::Idle) && only_goes_to(
                    state,
                    completion,
                    CompletionState::Submitted,
                    None,
                    post,
                ),
                Err(error) => {
                    slot.state != Some(CompletionState::Idle) && error
                        == CompletionError::InvalidState
                },
            }
            &&& match state.unsubmit(owner, completion) {
                Ok(post) => slot.state == Some(CompletionState::Submitted) && only_goes_to(
                    state,
                    completion,
                    CompletionState::Idle,
                    None,
                    post,
                ),
                Err(error) => {
                    slot.state != Some(CompletionState::Submitted) && error
                        == CompletionError::InvalidState
                },
            }
            &&& match state.begin_cancel(owner, completion) {
                Ok((post, now)) => if slot.state == Some(CompletionState::Submitted) {
                    now == CompletionState::Cancelling && only_goes_to(
                        state,
                        completion,
                        CompletionState::Cancelling,
                        None,
                        post,
                    )
                } else {
                    &&& slot.state != Some(CompletionState::Cancelling)
                    &&& slot.state == Some(now)
                    &&& post == state
                },
                Err(error) => {
                    slot.state == Some(CompletionState::Cancelling) && error
                        == CompletionError::InvalidState
                },
            }
            &&& match state.take_result(owner, completion) {
                Ok((post, taken)) => {
                    &&& slot.state == Some(CompletionState::Ready)
                    &&& slot.result == Some(taken)
                    &&& only_goes_to(state, completion, CompletionState::Idle, None, post)
                },
                Err(error) => {
                    slot.state != Some(CompletionState::Ready) && error
                        == CompletionError::InvalidState
                },
            }
            &&& match state.release(owner, completion) {
                Ok(post) => {
                    let index = completion.index as int;
                    &&& slot.state == Some(CompletionState::Idle) || slot.state == Some(
                        CompletionState::Ready,
                    )
                    &&& post.len == state.len - 1
                    &&& post.free == state.free.push(completion.index)
                    &&& post.slots.len() == state.slots.len()
                    &&& post.slots[index].generation != slot.generation
                    &&& post.slots[index].owner is None
                    &&& post.slots[index].state is None
                    &&& post.slots[index].result is None
                    &&& forall|i: int|
                        0 <= i < state.slots.len() && i != index ==> (#[trigger] post.slots[i])
                            == state.slots[i]
                },
                Err(error) => {
                    &&& slot.state == Some(CompletionState::Submitted) || slot.state == Some(
                        CompletionState::Cancelling,
                    )
                    &&& error == CompletionError::InvalidState
                },
            }
        }),
{
    let index = completion.index as int;
    assert(state.slots[index].wf());
    lemma_live_means_len(state, index);
    if let Ok((post, _)) = state.begin_cancel(owner, completion) {
        if state.slots[index].state != Some(CompletionState::Submitted) {
            assert(post == state);
        }
    }
}

/// A completion that names nothing is refused as such, by every operation and to everybody; one that
/// belongs to somebody else is refused as that.
pub proof fn law_strangers_are_refused<R>(
    state: CompletionsState<R>,
    owner: Handle,
    completion: CompletionHandle,
    result: R,
)
    requires
        !belongs_to(state, completion, owner),
    ensures
        ({
            let error = if belongs_to_somebody(state, completion) {
                CompletionError::WrongOwner
            } else {
                CompletionError::InvalidHandle
            };
            &&& state.submit(owner, completion) == Err::<CompletionsState<R>, _>(error)
            &&& state.unsubmit(owner, completion) == Err::<CompletionsState<R>, _>(error)
            &&& state.begin_cancel(owner, completion) == Err::<
                (CompletionsState<R>, CompletionState),
                _,
            >(error)
            &&& state.take_result(owner, completion) == Err::<(CompletionsState<R>, R), _>(error)
            &&& state.release(owner, completion) == Err::<CompletionsState<R>, _>(error)
            &&& !belongs_to_somebody(state, completion) ==> state.complete(completion, result)
                == Err::<CompletionsState<R>, _>(CompletionError::InvalidHandle)
        }),
{
}

/// An operation that is under way can complete, once, whoever its completion belongs to: the
/// completion is then ready with that result. One that is not under way cannot.
pub proof fn law_only_operations_under_way_complete<R>(
    state: CompletionsState<R>,
    completion: CompletionHandle,
    result: R,
    again: R,
)
    requires
        state.wf(),
        belongs_to_somebody(state, completion),
    ensures
        ({
            let slot = state.slots[completion.index as int];
            match state.complete(completion, result) {
                Ok(post) => {
                    &&& slot.state == Some(CompletionState::Submitted) || slot.state == Some(
                        CompletionState::Cancelling,
                    )
                    &&& only_goes_to(
                        state,
                        completion,
                        CompletionState::Ready,
                        Some(result),
                        post,
                    )
                    &&& post.complete(completion, again) == Err::<CompletionsState<R>, _>(
                        CompletionError::InvalidState,
                    )
                },
                Err(error) => {
                    &&& slot.state == Some(CompletionState::Idle) || slot.state == Some(
                        CompletionState::Ready,
                    )
                    &&& error == CompletionError::InvalidState
                },
            }
        }),
{
    assert(state.slots[completion.index as int].wf());
}

/// Acquiring gives a slot that nobody had, in its present generation, to the isolate that asks, as
/// an idle completion without a result, and leaves every other slot as it was. It fails only where
/// every slot has an owner.
pub proof fn law_acquisition_takes_a_free_slot<R>(state: CompletionsState<R>, owner: Handle)
    requires
        state.wf(),
    ensures
        state.full() <==> forall|i: int|
            0 <= i < state.slots.len() ==> (#[trigger] state.slots[i]).owner is Some,
        !state.full() ==> {
            let completion = state.next_handle();
            let post = state.acquire(owner);
            let index = completion.index as int;
            &&& index < state.slots.len()
            &&& state.slots[index].owner is None
            &&& belongs_to(post, completion, owner)
            &&& post.slots[index].state == Some(CompletionState::Idle)
            &&& post.slots[index].result is None
            &&& post.slots.len() == state.slots.len()
            &&& post.free.len() == state.free.len() - 1
            &&& post.len == state.len + 1
            &&& forall|i: int|
                0 <= i < state.slots.len() && i != index ==> (#[trigger] post.slots[i])
                    == state.slots[i]
        },
{
    if !state.full() {
        let index = state.free[state.free.len() - 1] as int;
        assert(state.slots[index].wf());
        assert(state.slots[index].owner is None);
    } else {
        assert forall|i: int| 0 <= i < state.slots.len() implies (
        #[trigger] state.slots[i]).owner is Some by {
            if state.slots[i].owner is None {
                assert(state.free.contains(i as u32));
            }
        }
    }
}

/// A new store of completions has as many slots as were asked for, all of them free and in their
/// first generation, and hands them out in order.
pub proof fn law_new_store_is_free<R>(capacity: nat)
    requires
        capacity <= MAX_SLOTS,
    ensures
        ({
            let state = CompletionsState::<R>::vacant(capacity);
            &&& state.wf()
            &&& state.slots.len() == capacity
            &&& state.len == 0
            &&& state.free.len() == capacity
            &&& capacity > 0 ==> state.next_handle() == (CompletionHandle {
                index: 0,
                generation: 0,
            })
            &&& forall|i: int|
                0 <= i < capacity ==> (#[trigger] state.slots[i]).owner is None
                    && state.slots[i].generation == 0 && state.slots[i].state is None
                    && state.slots[i].result is None
        }),
{
    let state = CompletionsState::<R>::vacant(capacity);
    assert forall|i: int|
        0 <= i < state.slots.len() && (#[trigger] state.slots[i]).owner is None implies
        state.free.contains(i as u32) by {
        assert(state.free[capacity - 1 - i] == i as u32);
    }
}

/// The completions that are free to be acquired are handed out from the end of the list of free
/// ones, so that the one that was released last is the next.
pub proof fn law_acquisitions_follow_the_free_list<R>(
    state: CompletionsState<R>,
    owner: Handle,
    completion: CompletionHandle,
)
    requires
        state.wf(),
        state.free.len() > 0,
    ensures
        state.next_handle().index == state.free.last(),
        state.acquire(owner).free == state.free.drop_last(),
        state.release(owner, completion) matches Ok(post) ==> post.next_handle().index
            == completion.index,
{
}

/// What can be asked of a completion without changing it: whose it is and in which state, where it
/// belongs to somebody; and whether an isolate has any completion at all.
pub proof fn law_completions_are_told_apart<R>(
    state: CompletionsState<R>,
    completion: CompletionHandle,
    owner: Handle,
)
    requires
        state.wf(),
    ensures
        state.live(completion) <==> belongs_to_somebody(state, completion),
        belongs_to_somebody(state, completion) ==> belongs_to(
            state,
            completion,
            state.owner_of(completion),
        ) && state.slots[completion.index as int].state == Some(state.status(completion)),
        state.has_owner(owner) <==> exists|named: CompletionHandle| #[trigger]
            belongs_to(state, named, owner),
{
    if belongs_to_somebody(state, completion) {
        assert(state.slots[completion.index as int].wf());
    }
    if state.has_owner(owner) {
        let i = choose|i: int|
            0 <= i < state.slots.len() && (#[trigger] state.slots[i]).owner == Some(owner);
        let named = CompletionHandle { index: i as u32, generation: state.slots[i].generation };
        assert(belongs_to(state, named, owner));
    }
    if exists|named: CompletionHandle| #[trigger] belongs_to(state, named, owner) {
        let named = choose|named: CompletionHandle| #[trigger] belongs_to(state, named, owner);
        assert(state.slots[named.index as int].owner == Some(owner));
    }
}

/// The handle that stands for none names nothing, in any store but one with as many slots as an
/// index can address.
pub proof fn law_invalid_handle_names_nothing<R>(state: CompletionsState<R>)
    requires
        state.slots.len() < MAX_SLOTS,
    ensures
        !state.live(invalid_handle()),
        !belongs_to_somebody(state, invalid_handle()),
{
}

} // verus!
