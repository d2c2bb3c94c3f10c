use command_io::completion::CompletionHandle;
use command_io::io::{
    AcceptOp, FakeIoDriver, IoDriver, IoError, IoResult, Operation, RecvOp, SendOp, TimerOp,
};

fn handle(index: u32) -> CompletionHandle {
    CompletionHandle { index, generation: 0 }
}

#[test]
fn fake_driver_reaps_submitted_operation_by_completion() {
    let mut driver = FakeIoDriver::new(1);
    let completion = CompletionHandle::invalid();
    let mut completed = Vec::with_capacity(1);

    driver
        .submit(completion, Operation::Timer(TimerOp { ticks: 1 }))
        .unwrap();
    assert!(driver.step(1, &mut completed).unwrap());
    assert_eq!(completed.len(), 1);
    assert_eq!(completed[0].completion, completion);
    assert_eq!(completed[0].result, IoResult::Timer(Ok(())));
}

#[test]
fn each_kind_of_operation_has_its_result() {
    let mut driver = FakeIoDriver::new(4);
    let mut completed = Vec::with_capacity(4);
    driver.submit(handle(0), Operation::Accept(AcceptOp { listener: 9 })).unwrap();
    driver
        .submit(handle(1), Operation::Recv(RecvOp { fd: 3, buf: vec![0; 16], flags: 0 }))
        .unwrap();
    driver
        .submit(handle(2), Operation::Send(SendOp { fd: 3, buf: vec![1, 2, 3], flags: 0 }))
        .unwrap();
    driver.submit(handle(3), Operation::Timer(TimerOp { ticks: 5 })).unwrap();

    assert_eq!(driver.step(4, &mut completed), Ok(true));

    let results: Vec<IoResult> = completed.iter().map(|entry| entry.result.clone()).collect();
    assert_eq!(
        results,
        vec![
            IoResult::Accept(Ok(9)),
            IoResult::Recv(Ok(vec![])),
            IoResult::Send(Ok(3)),
            IoResult::Timer(Ok(())),
        ]
    );
    assert!(!driver.has_pending());
    assert_eq!(driver.step(4, &mut completed), Ok(false));
}

#[test]
fn a_full_driver_refuses_operations() {
    let mut driver = FakeIoDriver::new(1);

    assert!(driver.can_submit(1));
    assert!(!driver.can_submit(2));
    driver.submit(handle(0), Operation::Timer(TimerOp { ticks: 1 })).unwrap();
    assert!(driver.can_submit(0));
    assert_eq!(
        driver.submit(handle(1), Operation::Timer(TimerOp { ticks: 1 })),
        Err(IoError::DriverFull)
    );
}

#[test]
fn a_cancelled_operation_is_reported_as_cancelled() {
    let mut driver = FakeIoDriver::new(2);
    let mut completed = Vec::with_capacity(2);
    driver.submit(handle(0), Operation::Timer(TimerOp { ticks: 1 })).unwrap();
    driver.submit(handle(1), Operation::Timer(TimerOp { ticks: 1 })).unwrap();

    assert_eq!(driver.cancel(handle(0)), Ok(()));
    assert_eq!(driver.cancel(handle(7)), Err(IoError::UnknownCompletion));
    driver.step(2, &mut completed).unwrap();

    assert_eq!(completed[0].result, IoResult::Cancelled);
    assert_eq!(completed[1].result, IoResult::Timer(Ok(())));
}

#[test]
fn a_step_reports_no_more_than_asked_for() {
    let mut driver = FakeIoDriver::new(3);
    let mut completed = Vec::with_capacity(3);
    for index in 0..3 {
        driver.submit(handle(index), Operation::Timer(TimerOp { ticks: 1 })).unwrap();
    }

    assert_eq!(driver.step(2, &mut completed), Ok(true));
    assert_eq!(completed.len(), 2);
    assert!(driver.has_pending());
    assert_eq!(driver.step(0, &mut completed), Ok(false));
    assert_eq!(driver.step(2, &mut completed), Ok(true));
    assert_eq!(completed[2].completion, handle(2));
}

#[test]
fn a_list_without_capacity_ends_the_step() {
    let mut driver = FakeIoDriver::new(2);
    let mut completed = Vec::new();
    driver.submit(handle(0), Operation::Timer(TimerOp { ticks: 1 })).unwrap();

    assert_eq!(driver.step(1, &mut completed), Err(IoError::CompletionQueueFull));
    assert!(completed.is_empty());
}

#[test]
fn a_step_fills_a_list_up_to_the_given_limit() {
    let mut driver = FakeIoDriver::new(3);
    let mut completed = Vec::new();
    for index in 0..3 {
        driver.submit(handle(index), Operation::Timer(TimerOp { ticks: 1 })).unwrap();
    }

    assert_eq!(driver.step_within(3, 2, &mut completed), Err(IoError::CompletionQueueFull));
    assert_eq!(completed.len(), 2);
}

#[test]
fn copied_results_hold_the_same_bytes() {
    let received = IoResult::Recv(Ok(vec![4, 5, 6]));

    assert_eq!(received.clone(), received);
    assert_eq!(IoResult::Cancelled.clone(), IoResult::Cancelled);
    assert_eq!(
        IoResult::Accept(Err(IoError::DriverFull)).clone(),
        IoResult::Accept(Err(IoError::DriverFull))
    );
}
