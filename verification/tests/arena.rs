use command_io::arena::{Arena, ArenaError, Handle};

#[test]
fn reuses_slots_with_new_generation() {
    let mut arena = Arena::with_capacity(1);

    let first = arena.insert(10).unwrap();
    assert_eq!(arena.remove(first), Ok(10));

    let second = arena.insert(20).unwrap();
    assert_ne!(first.generation, second.generation);
    assert!(arena.get(first).is_none());
    assert_eq!(arena.get(second), Some(&20));
}

#[test]
fn returns_full_when_capacity_is_exhausted() {
    let mut arena = Arena::with_capacity(1);

    arena.insert(1).unwrap();
    assert_eq!(arena.insert(2), Err(ArenaError::Full));
}

#[test]
fn slots_are_handed_out_from_the_first_on() {
    let mut arena = Arena::with_capacity(3);

    assert_eq!(arena.insert('a'), Ok(Handle { index: 0, generation: 0 }));
    assert_eq!(arena.insert('b'), Ok(Handle { index: 1, generation: 0 }));
    assert_eq!(arena.insert('c'), Ok(Handle { index: 2, generation: 0 }));
    assert_eq!(arena.capacity(), 3);
}

#[test]
fn the_slot_vacated_last_is_taken_first() {
    let mut arena = Arena::with_capacity(3);
    let first = arena.insert(1).unwrap();
    let second = arena.insert(2).unwrap();

    arena.remove(first).unwrap();
    arena.remove(second).unwrap();

    assert_eq!(arena.insert(3), Ok(Handle { index: 1, generation: 1 }));
    assert_eq!(arena.insert(4), Ok(Handle { index: 0, generation: 1 }));
    assert_eq!(arena.insert(5), Ok(Handle { index: 2, generation: 0 }));
}

#[test]
fn removing_a_stale_handle_is_refused() {
    let mut arena = Arena::with_capacity(2);
    let handle = arena.insert(7).unwrap();

    assert_eq!(arena.remove(handle), Ok(7));
    assert_eq!(arena.remove(handle), Err(ArenaError::InvalidHandle));
    assert!(!arena.contains(handle));
    assert_eq!(arena.remove(Handle { index: 9, generation: 0 }), Err(ArenaError::InvalidHandle));
}

#[test]
fn a_vacant_slot_named_by_its_generation_moves_on() {
    let mut arena = Arena::<u8>::with_capacity(1);

    assert_eq!(arena.remove(Handle { index: 0, generation: 0 }), Err(ArenaError::InvalidHandle));
    assert_eq!(arena.insert(5), Ok(Handle { index: 0, generation: 1 }));
}

#[test]
fn an_inserted_object_is_found_and_can_be_changed() {
    let mut arena = Arena::with_capacity(2);
    let other = arena.insert(1).unwrap();
    let handle = arena.insert(2).unwrap();

    *arena.get_mut(handle).unwrap() = 20;

    assert!(arena.contains(handle));
    assert_eq!(arena.get(handle), Some(&20));
    assert_eq!(arena.get(other), Some(&1));
    assert_eq!(arena.get_mut(Handle { index: 1, generation: 8 }), None);
    assert_eq!(arena.get(Handle { index: 2, generation: 0 }), None);
}

#[test]
fn len_counts_the_objects_of_the_arena() {
    let mut arena = Arena::with_capacity(4);
    let mut handles = Vec::new();
    for value in 0..4 {
        assert_eq!(arena.len(), value);
        handles.push(arena.insert(value).unwrap());
    }
    assert_eq!(arena.insert(9), Err(ArenaError::Full));
    assert_eq!(arena.len(), 4);

    arena.remove(handles[1]).unwrap();
    let _ = arena.remove(handles[1]);
    assert_eq!(arena.len(), 3);
}

#[test]
fn a_long_run_of_operations_keeps_count() {
    let mut arena = Arena::with_capacity(5);
    let mut live: Vec<(Handle, u32)> = Vec::new();
    for round in 0..200u32 {
        if round % 3 == 2 && !live.is_empty() {
            let at = (round as usize * 7) % live.len();
            let (handle, value) = live.swap_remove(at);
            assert_eq!(arena.remove(handle), Ok(value));
            assert!(!arena.contains(handle));
        } else if live.len() < 5 {
            live.push((arena.insert(round).unwrap(), round));
        } else {
            assert_eq!(arena.insert(round), Err(ArenaError::Full));
        }
        assert_eq!(arena.len(), live.len());
        for (handle, value) in &live {
            assert_eq!(arena.get(*handle), Some(value));
        }
    }
}

#[test]
fn an_arena_without_slots_is_full() {
    let mut arena = Arena::<u8>::with_capacity(0);

    assert_eq!(arena.insert(1), Err(ArenaError::Full));
    assert_eq!(arena.len(), 0);
    assert_eq!(arena.capacity(), 0);
}
