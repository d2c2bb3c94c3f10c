use command_io::mailbox::{FakeWaitBackend, OpToken, RuntimeError, Wait, WaitBackend};

fn polled(backend: &mut FakeWaitBackend) -> Vec<OpToken> {
    let mut ready = Vec::new();
    backend.poll(&mut ready).unwrap();
    ready
}

#[test]
fn waits_that_are_not_timers_fire_at_the_next_poll() {
    let mut backend = FakeWaitBackend::new(4);
    backend.submit(OpToken(1), Wait::Accept { listener: 1 }).unwrap();
    backend.submit(OpToken(2), Wait::Recv { source: 1 }).unwrap();
    backend.submit(OpToken(3), Wait::Write { sink: 1 }).unwrap();

    let mut ready = vec![OpToken(0)];
    assert_eq!(backend.poll(&mut ready), Ok(true));

    assert_eq!(ready, vec![OpToken(0), OpToken(1), OpToken(2), OpToken(3)]);
    assert!(!backend.has_pending());
    assert_eq!(backend.poll(&mut ready), Ok(false));
}

#[test]
fn timers_fire_at_the_poll_that_they_count_down_to() {
    let mut backend = FakeWaitBackend::new(4);
    backend.submit(OpToken(0), Wait::Timer { ticks: 0 }).unwrap();
    backend.submit(OpToken(1), Wait::Timer { ticks: 1 }).unwrap();
    backend.submit(OpToken(3), Wait::Timer { ticks: 3 }).unwrap();

    assert_eq!(polled(&mut backend), vec![OpToken(0), OpToken(1)]);
    assert_eq!(polled(&mut backend), vec![]);
    assert!(backend.has_pending());
    assert_eq!(polled(&mut backend), vec![OpToken(3)]);
}

#[test]
fn a_full_backend_refuses_waits() {
    let mut backend = FakeWaitBackend::new(1);

    assert!(backend.can_submit(1));
    assert!(!backend.can_submit(2));
    backend.submit(OpToken(0), Wait::Timer { ticks: 9 }).unwrap();
    assert!(backend.can_submit(0));
    assert!(!backend.can_submit(1));
    assert_eq!(
        backend.submit(OpToken(1), Wait::Timer { ticks: 9 }),
        Err(RuntimeError::WaitQueueFull)
    );
}

#[test]
fn a_cancelled_wait_does_not_fire() {
    let mut backend = FakeWaitBackend::new(4);
    backend.submit(OpToken(0), Wait::Recv { source: 1 }).unwrap();
    backend.submit(OpToken(1), Wait::Recv { source: 2 }).unwrap();

    backend.cancel(OpToken(0));
    backend.cancel(OpToken(5));

    assert_eq!(polled(&mut backend), vec![OpToken(1)]);
}

#[test]
fn the_in_process_backend_never_blocks() {
    let mut backend = FakeWaitBackend::new(1);
    backend.submit(OpToken(0), Wait::Timer { ticks: 9 }).unwrap();

    assert_eq!(backend.block_until_event(), Ok(false));
    assert!(backend.has_pending());
}
