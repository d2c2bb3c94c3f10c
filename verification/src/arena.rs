//! Generational arena: a fixed number of slots addressed by [`Handle`]s that go stale when the
//! object they name is removed.

use vstd::prelude::*;

verus! {

/// Number of slots that a `u32` index can address.
pub const MAX_SLOTS: u64 = 0x1_0000_0000;

/// Names one object of an [`Arena`]: a slot, and the generation the slot had when the object was
/// put there.
#[derive(Clone, Copy, Debug, PartialEq, Eq, Structural)]
pub struct Handle {
    pub index: u32,
    pub generation: u32,
}

#[derive(Clone, Copy, Debug, PartialEq, Eq, Structural)]
pub enum ArenaError {
    Full,
    InvalidHandle,
}

/// One place of an arena. The generation counts how often the place has been vacated.
#[derive(Debug)]
pub struct Slot<T> {
    pub generation: u32,
    pub object: Option<T>,
}

impl<T> Slot<T> {
    fn empty() -> (slot: Self)
        ensures
            slot == vacant_slot::<T>(),
    {
        Self { generation: 0, object: None }
    }
}

pub open spec fn vacant_slot<T>() -> Slot<T> {
    Slot { generation: 0, object: None }
}

/// The generation that follows `generation`, which wraps at the top of `u32`.
pub open spec fn next_generation(generation: u32) -> u32 {
    if generation == u32::MAX {
        0
    } else {
        (generation + 1) as u32
    }
}

/// What an [`Arena`] holds: its slots, the vacant indices (the last one is handed out first), and
/// the number of objects.
#[verifier::ext_equal]
pub struct ArenaState<T> {
    pub slots: Seq<Slot<T>>,
    pub free: Seq<u32>,
    pub len: nat,
}

impl<T> ArenaState<T> {
    /// An arena of `capacity` vacant slots that hands out index 0 first.
    pub open spec fn vacant(capacity: nat) -> Self {
        ArenaState {
            slots: Seq::new(capacity, |i: int| vacant_slot::<T>()),
            free: Seq::new(capacity, |i: int| (capacity - 1 - i) as u32),
            len: 0,
        }
    }

    pub open spec fn capacity(self) -> nat {
        self.slots.len()
    }

    /// The free list names each vacant slot once and no other slot.
    pub open spec fn wf(self) -> bool {
        &&& self.slots.len() <= MAX_SLOTS
        &&& self.free.no_duplicates()
        &&& forall|k: int|
            0 <= k < self.free.len() ==> (#[trigger] self.free[k]) < self.slots.len()
                && self.slots[self.free[k] as int].object is None
        &&& forall|i: int|
            0 <= i < self.slots.len() && (#[trigger] self.slots[i]).object is None
                ==> self.free.contains(i as u32)
        &&& self.len + self.free.len() == self.slots.len()
    }

    /// `handle` names a slot of this arena in its present generation.
    pub open spec fn current(self, handle: Handle) -> bool {
        &&& (handle.index as int) < self.slots.len()
        &&& self.slots[handle.index as int].generation == handle.generation
    }

    /// `handle` names an object.
    pub open spec fn has(self, handle: Handle) -> bool {
        self.current(handle) && self.slots[handle.index as int].object is Some
    }

    /// The object that `handle` names.
    pub open spec fn at(self, handle: Handle) -> T
        recommends
            self.has(handle),
    {
        self.slots[handle.index as int].object->0
    }

    pub open spec fn full(self) -> bool {
        self.free.len() == 0
    }

    /// The handle that the next insertion returns.
    pub open spec fn next_handle(self) -> Handle
        recommends
            !self.full(),
    {
        let index = self.free.last();
        Handle { index, generation: self.slots[index as int].generation }
    }

    /// The arena after the insertion of `value` into the slot of `next_handle`.
    pub open spec fn insert(self, value: T) -> Self
        recommends
            !self.full(),
    {
        let index = self.free.last() as int;
        ArenaState {
            slots: self.slots.update(
                index,
                Slot { generation: self.slots[index].generation, object: Some(value) },
            ),
            free: self.free.drop_last(),
            len: self.len + 1,
        }
    }

    /// The arena with the object that `handle` names replaced by `value`.
    pub open spec fn write(self, handle: Handle, value: T) -> Self
        recommends
            self.has(handle),
    {
        ArenaState {
            slots: self.slots.update(
                handle.index as int,
                Slot { generation: handle.generation, object: Some(value) },
            ),
            ..self
        }
    }

    /// The arena after the removal of `handle`.
    ///
    /// A handle of the present generation moves its slot to the next generation, whether or not
    /// the slot is occupied; any other handle changes nothing.
    pub open spec fn remove(self, handle: Handle) -> Self {
        let index = handle.index as int;
        if !self.current(handle) {
            self
        } else {
            let slots = self.slots.update(
                index,
                Slot { generation: next_generation(handle.generation), object: None },
            );
            if self.slots[index].object is Some {
                ArenaState { slots, free: self.free.push(handle.index), len: (self.len - 1) as nat }
            } else {
                ArenaState { slots, ..self }
            }
        }
    }
}

/// Fixed-capacity store of objects addressed by generational handles.
#[derive(Debug)]
pub struct Arena<T> {
    slots: Vec<Slot<T>>,
    free_list: Vec<u32>,
    len: usize,
}

impl<T> View for Arena<T> {
    type V = ArenaState<T>;

    closed spec fn view(&self) -> ArenaState<T> {
        ArenaState { slots: self.slots@, free: self.free_list@, len: self.len as nat }
    }
}

impl<T> Arena<T> {
    pub fn with_capacity(capacity: usize) -> (arena: Self)
        requires
            capacity <= MAX_SLOTS,
        ensures
            arena@ == ArenaState::<T>::vacant(capacity as nat),
            arena@.wf(),
    {
        let mut slots: Vec<Slot<T>> = Vec::with_capacity(capacity);
        let mut free_list: Vec<u32> = Vec::with_capacity(capacity);
        let mut filled: usize = 0;
        while filled < capacity
            invariant
                filled <= capacity <= MAX_SLOTS,
                slots@ =~= Seq::new(filled as nat, |i: int| vacant_slot::<T>()),
                free_list@ =~= Seq::new(filled as nat, |i: int| (capacity - 1 - i) as u32),
            decreases capacity - filled,
        {
            slots.push(Slot::empty());
            free_list.push((capacity - 1 - filled) as u32);
            filled += 1;
        }
        let arena = Self { slots, free_list, len: 0 };
        proof {
            assert forall|i: int|
                0 <= i < arena@.slots.len() && (#[trigger] arena@.slots[i]).object is None implies
                arena@.free.contains(i as u32) by {
                assert(arena@.free[capacity - 1 - i] == i as u32);
            }
        }
        arena
    }

    pub fn insert(&mut self, value: T) -> (result: Result<Handle, ArenaError>)
        requires
            old(self)@.wf(),
        ensures
            final(self)@.wf(),
            match result {
                Ok(handle) => {
                    &&& !old(self)@.full()
                    &&& handle == old(self)@.next_handle()
                    &&& final(self)@ == old(self)@.insert(value)
                },
                Err(error) => {
                    &&& old(self)@.full()
                    &&& error == ArenaError::Full
                    &&& final(self)@ == old(self)@
                },
            },
    {
        let ghost pre = self@;
        match self.free_list.pop() {
            None => Err(ArenaError::Full),
            Some(index) => {
                let position: usize = index as usize;
                let generation: u32 = self.slots[position].generation;
                self.slots[position].object = Some(value);
                assert(pre.len < self.slots.len());
                self.len += 1;
                proof {
                    lemma_insert_wf(pre, value);
                }
                Ok(Handle { index, generation })
            },
        }
    }

    pub fn contains(&self, handle: Handle) -> (result: bool)
        ensures
            result == self@.has(handle),
    {
        match self.slot(handle) {
            Some(slot) => slot.object.is_some() && slot.generation == handle.generation,
            None => false,
        }
    }

    pub fn get(&self, handle: Handle) -> (result: Option<&T>)
        ensures
            match result {
                Some(object) => self@.has(handle) && *object == self@.at(handle),
                None => !self@.has(handle),
            },
    {
        match self.slot(handle) {
            Some(slot) => {
                if slot.generation != handle.generation {
                    None
                } else {
                    slot.object.as_ref()
                }
            },
            None => None,
        }
    }

    /// Lends the object that `handle` names; what the borrower leaves there is what the arena
    /// holds afterwards.
    pub fn get_mut(&mut self, handle: Handle) -> (result: Option<&mut T>)
        ensures
            match result {
                Some(object) => {
                    &&& old(self)@.has(handle)
                    &&& *object == old(self)@.at(handle)
                    &&& final(self)@ == old(self)@.write(handle, *final(object))
                },
                None => !old(self)@.has(handle) && final(self)@ == old(self)@,
            },
    {
        let position: usize = handle.index as usize;
        if position >= self.slots.len() {
            return None;
        }
        if self.slots[position].generation != handle.generation {
            return None;
        }
        self.slots[position].object.as_mut()
    }

    pub fn remove(&mut self, handle: Handle) -> (result: Result<T, ArenaError>)
        requires
            old(self)@.wf(),
        ensures
            final(self)@.wf(),
            final(self)@ == old(self)@.remove(handle),
            match result {
                Ok(value) => old(self)@.has(handle) && value == old(self)@.at(handle),
                Err(error) => !old(self)@.has(handle) && error == ArenaError::InvalidHandle,
            },
    {
        let ghost pre = self@;
        proof {
            lemma_remove_wf(pre, handle);
        }
        let position: usize = handle.index as usize;
        if position >= self.slots.len() {
            return Err(ArenaError::InvalidHandle);
        }
        if self.slots[position].generation != handle.generation {
            return Err(ArenaError::InvalidHandle);
        }
        self.slots[position].generation = handle.generation.wrapping_add(1);
        match self.slots[position].object.take() {
            None => {
                Err(ArenaError::InvalidHandle)
            },
            Some(value) => {
                self.len -= 1;
                self.free_list.push(handle.index);
                assert(self@ =~= pre.remove(handle));
                Ok(value)
            },
        }
    }

    /// Number of objects in the arena.
    pub fn len(&self) -> (result: usize)
        ensures
            result == self@.len,
    {
        self.len
    }

    /// Number of slots in the arena.
    pub fn capacity(&self) -> (result: usize)
        ensures
            result == self@.capacity(),
    {
        self.slots.len()
    }

    fn slot(&self, handle: Handle) -> (result: Option<&Slot<T>>)
        ensures
            match result {
                Some(slot) => (handle.index as int) < self@.slots.len() && *slot
                    == self@.slots[handle.index as int],
                None => handle.index >= self@.slots.len(),
            },
    {
        let position: usize = handle.index as usize;
        if position < self.slots.len() {
            Some(&self.slots[position])
        } else {
            None
        }
    }
}

/// Inserting an object keeps the arena well formed.
pub proof fn lemma_insert_wf<T>(state: ArenaState<T>, value: T)
    requires
        state.wf(),
        !state.full(),
    ensures
        state.insert(value).wf(),
{
    let post = state.insert(value);
    assert forall|i: int|
        0 <= i < post.slots.len() && (#[trigger] post.slots[i]).object is None implies
        post.free.contains(i as u32) by {
        let k = choose|k: int| 0 <= k < state.free.len() && state.free[k] == i as u32;
        assert(post.free[k] == i as u32);
    }
}

proof fn lemma_occupied_means_len<T>(state: ArenaState<T>, index: int)
    requires
        state.wf(),
        0 <= index < state.slots.len(),
        state.slots[index].object is Some,
    ensures
        state.len > 0,
        !state.free.contains(index as u32),
{
    let named = state.free.map_values(|i: u32| i as int);
    let all = vstd::set_lib::set_int_range(0, state.slots.len() as int);
    vstd::set_lib::lemma_int_range(0, state.slots.len() as int);
    named.unique_seq_to_set();
    vstd::set_lib::lemma_len_subset(named.to_set(), all.remove(index));
}

/// Removing a handle keeps the arena well formed.
pub proof fn lemma_remove_wf<T>(state: ArenaState<T>, handle: Handle)
    requires
        state.wf(),
    ensures
        state.remove(handle).wf(),
{
    if state.has(handle) {
        let post = state.remove(handle);
        lemma_occupied_means_len(state, handle.index as int);
        assert forall|i: int|
            0 <= i < post.slots.len() && (#[trigger] post.slots[i]).object is None implies
            post.free.contains(i as u32) by {
            if i == handle.index as int {
                assert(post.free.last() == handle.index);
            } else {
                let k = choose|k: int| 0 <= k < state.free.len() && state.free[k] == i as u32;
                assert(post.free[k] == i as u32);
            }
        }
    } else if state.current(handle) {
        let post = state.remove(handle);
    }
}

/// An operation on an arena that may change it.
pub enum ArenaOp<T> {
    Insert(T),
    Write(Handle, T),
    Remove(Handle),
}

impl<T> ArenaState<T> {
    /// The arena after `op`, which changes nothing where it does not apply.
    pub open spec fn apply(self, op: ArenaOp<T>) -> Self {
        match op {
            ArenaOp::Insert(value) => if self.full() {
                self
            } else {
                self.insert(value)
            },
            ArenaOp::Write(handle, value) => if self.has(handle) {
                self.write(handle, value)
            } else {
                self
            },
            ArenaOp::Remove(handle) => self.remove(handle),
        }
    }

    /// The arena after all of `ops`, in order.
    pub open spec fn run(self, ops: Seq<ArenaOp<T>>) -> Self
        decreases ops.len(),
    {
        if ops.len() == 0 {
            self
        } else {
            self.run(ops.drop_last()).apply(ops.last())
        }
    }
}

/// Every operation keeps the free list exact and the capacity fixed.
pub proof fn law_operations_keep_the_arena_well_formed<T>(
    state: ArenaState<T>,
    ops: Seq<ArenaOp<T>>,
)
    requires
        state.wf(),
    ensures
        state.run(ops).wf(),
        state.run(ops).capacity() == state.capacity(),
    decreases ops.len(),
{
    if ops.len() > 0 {
        law_operations_keep_the_arena_well_formed(state, ops.drop_last());
        let before = state.run(ops.drop_last());
        match ops.last() {
            ArenaOp::Insert(value) => {
                if !before.full() {
                    lemma_insert_wf(before, value);
                }
            },
            ArenaOp::Write(handle, value) => {},
            ArenaOp::Remove(handle) => lemma_remove_wf(before, handle),
        }
    }
}

/// A read gives back what an insertion put in, under a handle that named nothing before, and every
/// other handle names what it named.
pub proof fn law_inserted_object_is_found<T>(state: ArenaState<T>, value: T, other: Handle)
    requires
        state.wf(),
        !state.full(),
    ensures
        !state.has(state.next_handle()),
        state.insert(value).has(state.next_handle()),
        state.insert(value).at(state.next_handle()) == value,
        other != state.next_handle() ==> state.insert(value).has(other) == state.has(other),
        other != state.next_handle() && state.has(other) ==> state.insert(value).at(other)
            == state.at(other),
{
}

/// A removed handle names nothing, its slot is handed out next under another generation, and every
/// other handle names what it named.
pub proof fn law_removed_slot_is_reused_under_a_new_generation<T>(
    state: ArenaState<T>,
    handle: Handle,
    other: Handle,
)
    requires
        state.wf(),
        state.has(handle),
    ensures
        !state.remove(handle).has(handle),
        !state.remove(handle).full(),
        state.remove(handle).next_handle().index == handle.index,
        state.remove(handle).next_handle().generation != handle.generation,
        other != handle ==> state.remove(handle).has(other) == state.has(other),
        other != handle && state.has(other) ==> state.remove(handle).at(other) == state.at(other),
{
}

/// How many of `ops` remove under a handle that names the slot at `index`.
pub open spec fn removals_at<T>(ops: Seq<ArenaOp<T>>, index: u32) -> nat
    decreases ops.len(),
{
    if ops.len() == 0 {
        0
    } else {
        removals_at(ops.drop_last(), index) + match ops.last() {
            ArenaOp::Remove(handle) if handle.index == index => 1nat,
            _ => 0,
        }
    }
}

/// A removed handle stays stale through any run of operations in which its slot is not removed from
/// often enough to come round to the same generation again.
pub proof fn law_removed_handle_stays_stale<T>(
    state: ArenaState<T>,
    handle: Handle,
    ops: Seq<ArenaOp<T>>,
)
    requires
        state.wf(),
        state.has(handle),
        removals_at(ops, handle.index) < u32::MAX,
    ensures
        !state.remove(handle).run(ops).has(handle),
{
    lemma_remove_wf(state, handle);
    lemma_generation_distance(state.remove(handle), handle, ops);
}

/// How many generations lie from `from` up to `to`.
spec fn generations_between(from: u32, to: u32) -> int {
    if from <= to {
        to - from
    } else {
        to - from + MAX_SLOTS
    }
}

proof fn lemma_generation_distance<T>(
    state: ArenaState<T>,
    handle: Handle,
    ops: Seq<ArenaOp<T>>,
)
    requires
        state.wf(),
        (handle.index as int) < state.slots.len(),
        state.slots[handle.index as int].generation == next_generation(handle.generation),
        removals_at(ops, handle.index) < u32::MAX,
    ensures
        state.run(ops).slots.len() == state.slots.len(),
        1 <= generations_between(
            handle.generation,
            state.run(ops).slots[handle.index as int].generation,
        ) <= 1 + removals_at(ops, handle.index),
    decreases ops.len(),
{
    if ops.len() > 0 {
        lemma_generation_distance(state, handle, ops.drop_last());
        law_operations_keep_the_arena_well_formed(state, ops.drop_last());
    }
}

/// `len` is the number of slots that hold an object.
pub proof fn law_len_counts_the_objects<T>(state: ArenaState<T>)
    requires
        state.wf(),
    ensures
        ({
            let occupied = Set::new(
                |i: int| 0 <= i < state.slots.len() && state.slots[i].object is Some,
            );
            occupied.finite() && occupied.len() == state.len
        }),
{
    let occupied = Set::new(|i: int| 0 <= i < state.slots.len() && state.slots[i].object is Some);
    let named = state.free.map_values(|i: u32| i as int);
    let all = vstd::set_lib::set_int_range(0, state.slots.len() as int);
    vstd::set_lib::lemma_int_range(0, state.slots.len() as int);
    named.unique_seq_to_set();
    vstd::set_lib::lemma_len_subset(occupied, all);
    assert(occupied + named.to_set() =~= all) by {
        assert forall|i: int| all.contains(i) implies (occupied + named.to_set()).contains(i) by {
            if state.slots[i].object is None {
                let k = choose|k: int| 0 <= k < state.free.len() && state.free[k] == i as u32;
                assert(named[k] == i);
            }
        }
    }
    vstd::set_lib::lemma_set_disjoint_lens(occupied, named.to_set());
}

/// Insertions of `values`, in order.
pub open spec fn insertions<T>(values: Seq<T>) -> Seq<ArenaOp<T>> {
    values.map_values(|value: T| ArenaOp::Insert(value))
}

/// A new arena holds nothing and has as many slots as were asked for. It takes as many objects as it
/// has slots, and hands the slots out in order, in their first generation; each object is found under
/// its handle.
pub proof fn law_new_arena_fills_up_in_order<T>(capacity: nat, values: Seq<T>)
    requires
        values.len() <= capacity,
        capacity <= MAX_SLOTS,
    ensures
        ({
            let filled = ArenaState::<T>::vacant(capacity).run(insertions(values));
            &&& filled.wf()
            &&& filled.slots.len() == capacity
            &&& filled.len == values.len()
            &&& filled.full() <==> values.len() == capacity
            &&& values.len() < capacity ==> filled.next_handle() == (Handle {
                index: values.len() as u32,
                generation: 0,
            })
            &&& forall|i: int|
                #![trigger values[i]]
                0 <= i < values.len() ==> {
                    let handle = Handle { index: i as u32, generation: 0 };
                    filled.has(handle) && filled.at(handle) == values[i]
                }
            &&& forall|handle: Handle| #[trigger]
                filled.has(handle) ==> handle.index < values.len() && handle.generation == 0
        }),
    decreases values.len(),
{
    lemma_filled(capacity, values);
    let filled = ArenaState::<T>::vacant(capacity).run(insertions(values));
    lemma_vacant_wf::<T>(capacity);
    law_operations_keep_the_arena_well_formed(
        ArenaState::<T>::vacant(capacity),
        insertions(values),
    );
}

proof fn lemma_vacant_wf<T>(capacity: nat)
    requires
        capacity <= MAX_SLOTS,
    ensures
        ArenaState::<T>::vacant(capacity).wf(),
{
    let vacant = ArenaState::<T>::vacant(capacity);
    assert forall|i: int|
        0 <= i < vacant.slots.len() && (#[trigger] vacant.slots[i]).object is None implies
        vacant.free.contains(i as u32) by {
        assert(vacant.free[capacity - 1 - i] == i as u32);
    }
}

proof fn lemma_filled<T>(capacity: nat, values: Seq<T>)
    requires
        values.len() <= capacity,
        capacity <= MAX_SLOTS,
    ensures
        ({
            let filled = ArenaState::<T>::vacant(capacity).run(insertions(values));
            &&& filled.slots == Seq::new(
                capacity,
                |i: int|
                    if i < values.len() {
                        Slot { generation: 0, object: Some(values[i]) }
                    } else {
                        Slot { generation: 0, object: None }
                    },
            )
            &&& filled.free == Seq::new(
                (capacity - values.len()) as nat,
                |i: int| (capacity - 1 - i) as u32,
            )
            &&& filled.len == values.len()
        }),
    decreases values.len(),
{
    let ops = insertions(values);
    let filled = ArenaState::<T>::vacant(capacity).run(ops);
    if values.len() > 0 {
        let rest = values.drop_last();
        lemma_filled(capacity, rest);
        assert(ops.drop_last() =~= insertions(rest));
        let before = ArenaState::<T>::vacant(capacity).run(insertions(rest));
        assert(filled == before.insert(values.last()));
    }
    assert(filled.slots =~= Seq::new(
        capacity,
        |i: int|
            if i < values.len() {
                Slot { generation: 0, object: Some(values[i]) }
            } else {
                Slot { generation: 0, object: None }
            },
    ));
    assert(filled.free =~= Seq::new(
        (capacity - values.len()) as nat,
        |i: int| (capacity - 1 - i) as u32,
    ));
}

/// An arena is full exactly where it holds as many objects as it has slots; an insertion adds one
/// object, and a removal of one that is there takes one out.
pub proof fn law_objects_are_counted<T>(state: ArenaState<T>, value: T, handle: Handle)
    requires
        state.wf(),
    ensures
        state.full() <==> state.len == state.slots.len(),
        state.capacity() == state.slots.len(),
        !state.full() ==> state.insert(value).len == state.len + 1,
        state.has(handle) ==> state.len > 0 && state.remove(handle).len == state.len - 1,
        !state.has(handle) ==> state.remove(handle).len == state.len,
        state.has(handle) ==> state.write(handle, value).len == state.len,
{
    lemma_remove_wf(state, handle);
    if state.has(handle) {
        let post = state.remove(handle);
        assert(post.free.len() == state.free.len() + 1);
        assert(post.slots.len() == state.slots.len());
        assert(post.free.last() == handle.index);
        if state.len == 0 {
            law_len_counts_the_objects(state);
            let occupied = Set::new(
                |i: int| 0 <= i < state.slots.len() && state.slots[i].object is Some,
            );
            assert(occupied.contains(handle.index as int));
        }
    }
}

/// What is left in the place of an object is what is found there, and every other object is as it
/// was. No handle goes stale.
pub proof fn law_written_object_is_read_back<T>(
    state: ArenaState<T>,
    handle: Handle,
    value: T,
    other: Handle,
)
    requires
        state.wf(),
        state.has(handle),
    ensures
        state.write(handle, value).has(handle),
        state.write(handle, value).at(handle) == value,
        other != handle ==> state.write(handle, value).has(other) == state.has(other),
        other != handle && state.has(other) ==> state.write(handle, value).at(other) == state.at(
            other,
        ),
{
}

/// A removal under a handle that names no object takes nothing out: every object stays where it was,
/// and as many slots are free.
pub proof fn law_removal_of_nothing_keeps_every_object<T>(
    state: ArenaState<T>,
    handle: Handle,
    other: Handle,
)
    requires
        state.wf(),
        !state.has(handle),
    ensures
        state.remove(handle).has(other) == state.has(other),
        state.has(other) ==> state.remove(handle).at(other) == state.at(other),
        state.remove(handle).free == state.free,
        state.remove(handle).len == state.len,
{
}

/// Two handles that name objects of one arena in the same slot are the same handle.
pub proof fn law_slot_has_one_handle<T>(state: ArenaState<T>, left: Handle, right: Handle)
    requires
        state.has(left),
        state.has(right),
        left.index == right.index,
    ensures
        left == right,
{
}

/// A removal makes its handle stale for good, whether or not it named an object: the slot goes on to
/// the generation after that of the handle, and to the first one after the last. No other slot
/// changes its generation, and a handle of another generation changes nothing.
pub proof fn law_removal_moves_the_slot_to_its_next_generation<T>(
    state: ArenaState<T>,
    handle: Handle,
    index: int,
)
    requires
        state.wf(),
        0 <= index < state.slots.len(),
    ensures
        state.remove(handle).slots.len() == state.slots.len(),
        ({
            let before = state.slots[index].generation;
            let after = state.remove(handle).slots[index].generation;
            if index == handle.index && before == handle.generation {
                after == if before < u32::MAX {
                    before + 1
                } else {
                    0
                }
            } else {
                after == before
            }
        }),
        index == handle.index && state.slots[index].generation != handle.generation
            ==> state.remove(handle) == state,
{
}

} // verus!
