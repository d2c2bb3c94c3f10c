use command_io::arena::{Arena, Handle};
use command_io::completion::{CompletionArena, CompletionError, CompletionHandle, CompletionState};

fn owner() -> Handle {
    let mut isolates = Arena::with_capacity(2);
    isolates.insert(()).unwrap()
}

fn two_owners() -> (Handle, Handle) {
    let mut isolates = Arena::with_capacity(2);
    (isolates.insert(()).unwrap(), isolates.insert(()).unwrap())
}

#[test]
fn completion_is_reused_with_a_new_generation_after_release() {
    let owner = owner();
    let mut completions = CompletionArena::<u8>::with_capacity(1);

    let first = completions.acquire(owner).unwrap();
    completions.release(owner, first).unwrap();
    let second = completions.acquire(owner).unwrap();

    assert_eq!(first.index, second.index);
    assert_eq!(
        completions.state(first),
        Err(CompletionError::InvalidHandle)
    );
    assert_eq!(completions.state(second), Ok(CompletionState::Idle));
}

#[test]
fn submitted_completion_cannot_be_released_until_reaped() {
    let owner = owner();
    let mut completions = CompletionArena::with_capacity(1);
    let completion = completions.acquire(owner).unwrap();

    completions.submit(owner, completion).unwrap();
    assert_eq!(
        completions.release(owner, completion),
        Err(CompletionError::InvalidState)
    );

    completions.complete(completion, 7).unwrap();
    assert_eq!(completions.take_result(owner, completion), Ok(7));
    completions.release(owner, completion).unwrap();
}

#[test]
fn completion_operations_require_the_owning_isolate() {
    let mut isolates = Arena::with_capacity(2);
    let left = isolates.insert(()).unwrap();
    let right = isolates.insert(()).unwrap();
    let mut completions = CompletionArena::<()>::with_capacity(1);
    let completion = completions.acquire(left).unwrap();

    assert_eq!(
        completions.submit(right, completion),
        Err(CompletionError::WrongOwner)
    );
}

#[test]
fn a_raw_number_determines_the_handle() {
    let handle = CompletionHandle { index: 7, generation: 3 };

    assert_eq!(handle.into_raw(), 0x3_0000_0007);
    assert_eq!(CompletionHandle::from_raw(0x3_0000_0007), handle);
    assert_eq!(CompletionHandle::invalid().into_raw(), u64::MAX);
    assert_eq!(CompletionHandle::from_raw(u64::MAX), CompletionHandle::invalid());
    assert_eq!(CompletionHandle::from_raw(5), CompletionHandle { index: 5, generation: 0 });
}

#[test]
fn an_acquired_completion_is_idle_and_owned() {
    let (left, right) = two_owners();
    let mut completions = CompletionArena::<u8>::with_capacity(2);

    let first = completions.acquire(left).unwrap();
    let second = completions.acquire(right).unwrap();

    assert_ne!(first, second);
    assert_eq!(completions.owner(first), Ok(left));
    assert_eq!(completions.owner(second), Ok(right));
    assert_eq!(completions.state(first), Ok(CompletionState::Idle));
    assert_eq!(completions.acquire(left), Err(CompletionError::Full));
    assert!(completions.has_owner(left));
    assert_eq!(completions.available(), 0);
}

#[test]
fn wrong_owners_are_refused_by_every_operation() {
    let (left, right) = two_owners();
    let mut completions = CompletionArena::<u8>::with_capacity(1);
    let completion = completions.acquire(left).unwrap();

    assert_eq!(completions.submit(right, completion), Err(CompletionError::WrongOwner));
    assert_eq!(completions.release(right, completion), Err(CompletionError::WrongOwner));
    completions.submit(left, completion).unwrap();
    assert_eq!(completions.unsubmit(right, completion), Err(CompletionError::WrongOwner));
    assert_eq!(completions.begin_cancel(right, completion), Err(CompletionError::WrongOwner));
    completions.complete(completion, 1).unwrap();
    assert_eq!(completions.take_result(right, completion), Err(CompletionError::WrongOwner));
    assert_eq!(completions.peek_result(right, completion), None);
    assert_eq!(completions.peek_result(left, completion), Some(&1));
    assert_eq!(completions.state(completion), Ok(CompletionState::Ready));
}

#[test]
fn a_completion_moves_along_its_life() {
    let owner = owner();
    let mut completions = CompletionArena::with_capacity(1);
    let completion = completions.acquire(owner).unwrap();

    assert_eq!(completions.complete(completion, 1), Err(CompletionError::InvalidState));
    assert_eq!(completions.take_result(owner, completion), Err(CompletionError::InvalidState));
    assert_eq!(completions.unsubmit(owner, completion), Err(CompletionError::InvalidState));

    completions.submit(owner, completion).unwrap();
    assert_eq!(completions.state(completion), Ok(CompletionState::Submitted));
    assert_eq!(completions.submit(owner, completion), Err(CompletionError::InvalidState));

    assert_eq!(completions.begin_cancel(owner, completion), Ok(CompletionState::Cancelling));
    assert_eq!(completions.state(completion), Ok(CompletionState::Cancelling));
    assert_eq!(completions.begin_cancel(owner, completion), Err(CompletionError::InvalidState));

    completions.complete(completion, 2).unwrap();
    assert_eq!(completions.state(completion), Ok(CompletionState::Ready));
    assert_eq!(completions.take_result(owner, completion), Ok(2));
    assert_eq!(completions.state(completion), Ok(CompletionState::Idle));
}

#[test]
fn a_result_is_taken_once() {
    let owner = owner();
    let mut completions = CompletionArena::with_capacity(1);
    let completion = completions.acquire(owner).unwrap();
    completions.submit(owner, completion).unwrap();
    completions.complete(completion, 'x').unwrap();

    assert_eq!(completions.take_result(owner, completion), Ok('x'));
    assert_eq!(completions.take_result(owner, completion), Err(CompletionError::InvalidState));
}

#[test]
fn unsubmitting_undoes_submitting() {
    let owner = owner();
    let mut completions = CompletionArena::<u8>::with_capacity(1);
    let completion = completions.acquire(owner).unwrap();

    completions.submit(owner, completion).unwrap();
    completions.unsubmit(owner, completion).unwrap();

    assert_eq!(completions.state(completion), Ok(CompletionState::Idle));
    assert_eq!(completions.owner(completion), Ok(owner));
    completions.submit(owner, completion).unwrap();
}

#[test]
fn cancelling_an_idle_completion_does_nothing() {
    let owner = owner();
    let mut completions = CompletionArena::<u8>::with_capacity(1);
    let completion = completions.acquire(owner).unwrap();

    assert_eq!(completions.begin_cancel(owner, completion), Ok(CompletionState::Idle));
    assert_eq!(completions.state(completion), Ok(CompletionState::Idle));
}

#[test]
fn isolates_act_on_their_own_completions_only() {
    let (left, right) = two_owners();
    let mut completions = CompletionArena::<u8>::with_capacity(3);
    let mine = completions.acquire(left).unwrap();
    let theirs = completions.acquire(right).unwrap();
    completions.submit(right, theirs).unwrap();

    completions.submit(left, mine).unwrap();
    completions.begin_cancel(left, mine).unwrap();
    let _ = completions.release(left, theirs);
    let _ = completions.acquire(left).unwrap();

    assert_eq!(completions.owner(theirs), Ok(right));
    assert_eq!(completions.state(theirs), Ok(CompletionState::Submitted));
}

#[test]
fn a_released_completion_stays_stale() {
    let (left, right) = two_owners();
    let mut completions = CompletionArena::<u8>::with_capacity(1);
    let stale = completions.acquire(left).unwrap();
    completions.release(left, stale).unwrap();
    assert!(!completions.has_owner(left));

    for _ in 0..5 {
        let current = completions.acquire(right).unwrap();
        assert_eq!(completions.owner(stale), Err(CompletionError::InvalidHandle));
        assert_eq!(completions.submit(left, stale), Err(CompletionError::InvalidHandle));
        assert_eq!(completions.complete(stale, 1), Err(CompletionError::InvalidHandle));
        assert_eq!(completions.release(left, stale), Err(CompletionError::InvalidHandle));
        completions.release(right, current).unwrap();
    }
}

#[test]
fn the_invalid_handle_names_no_completion() {
    let owner = owner();
    let mut completions = CompletionArena::<u8>::with_capacity(1);
    let invalid = CompletionHandle::invalid();

    assert_eq!(completions.state(invalid), Err(CompletionError::InvalidHandle));
    assert_eq!(completions.begin_cancel(owner, invalid), Err(CompletionError::InvalidHandle));
    assert_eq!(completions.take_result(owner, invalid), Err(CompletionError::InvalidHandle));
}

#[test]
fn a_turn_of_many_operations_keeps_the_arena_in_order() {
    let owner = owner();
    let mut completions = CompletionArena::with_capacity(3);
    for round in 0..20u32 {
        let one = completions.acquire(owner).unwrap();
        let two = completions.acquire(owner).unwrap();
        assert_eq!(completions.available(), 1);
        completions.submit(owner, one).unwrap();
        completions.submit(owner, two).unwrap();
        completions.complete(one, round).unwrap();
        assert_eq!(completions.release(owner, two), Err(CompletionError::InvalidState));
        completions.complete(two, round + 1).unwrap();
        assert_eq!(completions.take_result(owner, one), Ok(round));
        assert_eq!(completions.take_result(owner, two), Ok(round + 1));
        completions.release(owner, one).unwrap();
        completions.release(owner, two).unwrap();
        assert_eq!(completions.available(), 3);
        assert!(!completions.has_owner(owner));
    }
}
