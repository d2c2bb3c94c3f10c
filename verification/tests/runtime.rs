use std::cell::{Cell, RefCell};
use std::rc::Rc;

use command_io::arena::{ArenaError, Handle};
use command_io::completion::{CompletionError, CompletionHandle};
use command_io::effects::{EffectsError, RuntimeMessage, TurnEffects};
use command_io::io::{
    DriverCompletion, FakeIoDriver, IoDriver, IoError, IoResult, Operation, RecvOp, TimerOp,
    ENTRY_BYTES,
};
use command_io::runtime::{IoContext, IoLoop, Isolate, RuntimeError, Server, StepResult};

struct TimerOnce {
    timer: CompletionHandle,
    completed: bool,
}

impl Isolate for TimerOnce {
    fn handle(
        &mut self,
        msg: RuntimeMessage,
        io: &mut IoContext<'_>,
        effects: &mut TurnEffects<Self>,
    ) -> Result<(), RuntimeError> {
        match msg {
            RuntimeMessage::Init => {
                self.timer = io.acquire().expect("completion capacity");
                effects.submit(self.timer, Operation::Timer(TimerOp { ticks: 1 }))?;
            }
            RuntimeMessage::IoCompleted(completion) if completion == self.timer => {
                assert_eq!(io.take_result(completion), Some(IoResult::Timer(Ok(()))));
                self.completed = true;
                effects.destroy_self()?;
            }
            RuntimeMessage::IoCompleted(_) => {}
            RuntimeMessage::Shutdown => effects.destroy_self()?,
        }
        Ok(())
    }

    fn destroy(
        &mut self,
        _io: &mut IoContext<'_>,
        effects: &mut TurnEffects<Self>,
    ) -> Result<(), RuntimeError> {
        effects.cancel(self.timer)?;
        Ok(())
    }
}

struct DestroyWhilePending {
    completion: CompletionHandle,
    destroyed: Rc<Cell<usize>>,
}

impl Isolate for DestroyWhilePending {
    fn handle(
        &mut self,
        msg: RuntimeMessage,
        io: &mut IoContext<'_>,
        effects: &mut TurnEffects<Self>,
    ) -> Result<(), RuntimeError> {
        if msg == RuntimeMessage::Init {
            self.completion = io.acquire().expect("completion capacity");
            effects.submit(self.completion, Operation::Timer(TimerOp { ticks: 1 }))?;
            effects.destroy_self()?;
        }
        Ok(())
    }

    fn destroy(
        &mut self,
        _io: &mut IoContext<'_>,
        effects: &mut TurnEffects<Self>,
    ) -> Result<(), RuntimeError> {
        self.destroyed.set(self.destroyed.get() + 1);
        effects.cancel(self.completion)?;
        Ok(())
    }
}

struct SpawnParent {
    child_initialized: Rc<Cell<bool>>,
    is_parent: bool,
}

impl Isolate for SpawnParent {
    fn handle(
        &mut self,
        msg: RuntimeMessage,
        _io: &mut IoContext<'_>,
        effects: &mut TurnEffects<Self>,
    ) -> Result<(), RuntimeError> {
        if msg == RuntimeMessage::Init && self.is_parent {
            effects.spawn(Self {
                child_initialized: Rc::clone(&self.child_initialized),
                is_parent: false,
            })?;
            effects.destroy_self()?;
        } else if msg == RuntimeMessage::Init {
            self.child_initialized.set(true);
            effects.destroy_self()?;
        } else if msg == RuntimeMessage::Shutdown {
            effects.destroy_self()?;
        }
        Ok(())
    }

    fn destroy(
        &mut self,
        _io: &mut IoContext<'_>,
        _effects: &mut TurnEffects<Self>,
    ) -> Result<(), RuntimeError> {
        Ok(())
    }
}

#[test]
fn server_routes_completion_to_its_owner_and_reuses_lifecycle() {
    let mut server = Server::new(1, 2, 2);
    let mut io = IoLoop::new(FakeIoDriver::new(2), 2);
    server
        .spawn(TimerOnce {
            timer: CompletionHandle::invalid(),
            completed: false,
        })
        .unwrap();

    assert_eq!(server.run_until_idle(&mut io).unwrap(), 2);
    assert_eq!(server.isolate_count(), 0);
}

#[test]
fn destroying_isolate_waits_for_cancel_completion_before_release() {
    let destroyed = Rc::new(Cell::new(0));
    let mut server = Server::new(1, 2, 3);
    let mut io = IoLoop::new(FakeIoDriver::new(2), 2);
    server
        .spawn(DestroyWhilePending {
            completion: CompletionHandle::invalid(),
            destroyed: Rc::clone(&destroyed),
        })
        .unwrap();

    assert_eq!(server.run_until_idle(&mut io).unwrap(), 1);
    assert_eq!(destroyed.get(), 1);
    assert_eq!(server.isolate_count(), 0);
}

#[test]
fn spawn_effect_initializes_a_child_on_a_later_turn() {
    let child_initialized = Rc::new(Cell::new(false));
    let mut server = Server::new(2, 2, 2);
    let mut io = IoLoop::new(FakeIoDriver::new(0), 0);
    server
        .spawn(SpawnParent {
            child_initialized: Rc::clone(&child_initialized),
            is_parent: true,
        })
        .unwrap();

    assert_eq!(
        server.step(&mut io).unwrap(),
        StepResult::ProcessedOne
    );
    assert!(!child_initialized.get());
    assert_eq!(server.isolate_count(), 1);

    assert_eq!(
        server.step(&mut io).unwrap(),
        StepResult::ProcessedOne
    );
    assert!(child_initialized.get());
    assert_eq!(server.isolate_count(), 0);
}

#[test]
fn shutdown_uses_destroy_lifecycle_and_drops_queued_completion() {
    let mut server = Server::new(1, 3, 2);
    let mut io = IoLoop::new(FakeIoDriver::new(2), 2);
    let handle = server
        .spawn(TimerOnce {
            timer: CompletionHandle::invalid(),
            completed: false,
        })
        .unwrap();
    server.shutdown(handle).unwrap();

    assert_eq!(server.run_until_idle(&mut io).unwrap(), 2);
    assert_eq!(server.isolate_count(), 0);
}

/// What a [`Scripted`] isolate does with a message.
type Turn = Rc<
    dyn Fn(
        RuntimeMessage,
        &mut IoContext<'_>,
        &mut TurnEffects<Scripted>,
    ) -> Result<(), RuntimeError>,
>;

/// An isolate that keeps a log and does what it is told.
struct Scripted {
    log: Rc<RefCell<Vec<RuntimeMessage>>>,
    turn: Turn,
}

impl Scripted {
    fn new(turn: Turn) -> (Self, Rc<RefCell<Vec<RuntimeMessage>>>) {
        let log = Rc::new(RefCell::new(Vec::new()));
        (Self { log: Rc::clone(&log), turn }, log)
    }
}

impl Isolate for Scripted {
    fn handle(
        &mut self,
        msg: RuntimeMessage,
        io: &mut IoContext<'_>,
        effects: &mut TurnEffects<Self>,
    ) -> Result<(), RuntimeError> {
        self.log.borrow_mut().push(msg);
        (self.turn)(msg, io, effects)
    }

    fn destroy(
        &mut self,
        _io: &mut IoContext<'_>,
        _effects: &mut TurnEffects<Self>,
    ) -> Result<(), RuntimeError> {
        Ok(())
    }
}

fn quiet() -> Turn {
    Rc::new(|_, _, _| Ok(()))
}

fn timer() -> Operation {
    Operation::Timer(TimerOp { ticks: 1 })
}

/// A driver that answers as it is told.
#[derive(Default)]
struct ScriptedDriver {
    refuse_submit: bool,
    submitted: Vec<CompletionHandle>,
    cancelled: Vec<CompletionHandle>,
    report: Vec<DriverCompletion>,
    asked_for: Vec<usize>,
    fail_step: bool,
    refuse_cancel: bool,
}

impl IoDriver for ScriptedDriver {
    fn can_submit(&self, _additional: usize) -> bool {
        true
    }

    fn submit(&mut self, completion: CompletionHandle, _op: Operation) -> Result<(), IoError> {
        if self.refuse_submit {
            return Err(IoError::DriverFull);
        }
        self.submitted.push(completion);
        Ok(())
    }

    fn cancel(&mut self, completion: CompletionHandle) -> Result<(), IoError> {
        if self.refuse_cancel {
            return Err(IoError::UnknownCompletion);
        }
        self.cancelled.push(completion);
        Ok(())
    }

    fn step(
        &mut self,
        max_completions: usize,
        completed: &mut Vec<DriverCompletion>,
    ) -> Result<bool, IoError> {
        self.asked_for.push(max_completions);
        if self.fail_step {
            return Err(IoError::CompletionQueueFull);
        }
        let progressed = !self.report.is_empty();
        completed.append(&mut self.report);
        Ok(progressed)
    }

    fn has_pending(&self) -> bool {
        false
    }
}

/// A driver that several owners can reach, so that a test can see what the loop told it.
struct Shared(Rc<RefCell<ScriptedDriver>>);

impl IoDriver for Shared {
    fn can_submit(&self, additional: usize) -> bool {
        self.0.borrow().can_submit(additional)
    }

    fn submit(&mut self, completion: CompletionHandle, op: Operation) -> Result<(), IoError> {
        self.0.borrow_mut().submit(completion, op)
    }

    fn cancel(&mut self, completion: CompletionHandle) -> Result<(), IoError> {
        self.0.borrow_mut().cancel(completion)
    }

    fn step(
        &mut self,
        max_completions: usize,
        completed: &mut Vec<DriverCompletion>,
    ) -> Result<bool, IoError> {
        self.0.borrow_mut().step(max_completions, completed)
    }

    fn has_pending(&self) -> bool {
        self.0.borrow().has_pending()
    }
}

fn shared() -> (Rc<RefCell<ScriptedDriver>>, Shared) {
    let driver = Rc::new(RefCell::new(ScriptedDriver::default()));
    (Rc::clone(&driver), Shared(driver))
}

#[test]
fn spawning_beyond_the_capacity_is_refused() {
    let mut server = Server::new(1, 4, 1);
    server.spawn(Scripted::new(quiet()).0).unwrap();

    assert_eq!(
        server.spawn(Scripted::new(quiet()).0),
        Err(RuntimeError::Arena(ArenaError::Full))
    );
    assert_eq!(server.isolate_count(), 1);
}

#[test]
fn spawning_into_a_full_queue_leaves_no_isolate() {
    let mut server = Server::new(2, 1, 1);
    let handle = server.spawn(Scripted::new(quiet()).0).unwrap();

    assert_eq!(server.spawn(Scripted::new(quiet()).0), Err(RuntimeError::QueueFull));
    assert_eq!(server.isolate_count(), 1);
    assert_eq!(server.shutdown(handle), Err(RuntimeError::QueueFull));
}

#[test]
fn messages_for_an_isolate_that_is_gone_are_dropped() {
    let mut server = Server::new(1, 4, 1);
    let mut io = IoLoop::new(FakeIoDriver::new(1), 1);

    server.shutdown(Handle { index: 0, generation: 3 }).unwrap();

    assert_eq!(server.step::<FakeIoDriver>(&mut io), Ok(StepResult::DroppedInvalid));
    assert_eq!(server.step(&mut io), Ok(StepResult::Idle));
    let _ = server.spawn(Scripted::new(quiet()).0).unwrap();
}

#[test]
fn an_isolate_on_its_way_out_takes_no_messages() {
    let destroyed = Rc::new(Cell::new(0));
    let mut server = Server::new(1, 4, 3);
    let mut io = IoLoop::new(FakeIoDriver::new(2), 2);
    let handle = server
        .spawn(DestroyWhilePending {
            completion: CompletionHandle::invalid(),
            destroyed: Rc::clone(&destroyed),
        })
        .unwrap();
    server.shutdown(handle).unwrap();

    assert_eq!(server.step(&mut io), Ok(StepResult::ProcessedOne));
    assert_eq!(server.isolate_count(), 1);
    assert_eq!(server.step(&mut io), Ok(StepResult::DroppedInvalid));
    assert_eq!(destroyed.get(), 1);
    io.step().unwrap();
    server.step(&mut io).unwrap();
    assert_eq!(server.isolate_count(), 0);
}

#[test]
fn an_isolate_that_owns_no_completion_leaves_at_once() {
    let mut server = Server::new(1, 4, 1);
    let mut io = IoLoop::new(FakeIoDriver::new(0), 0);
    let handle = server
        .spawn(Scripted::new(Rc::new(|msg, _, effects| {
            if msg == RuntimeMessage::Shutdown {
                effects.destroy_self()?;
            }
            Ok(())
        })).0)
        .unwrap();
    server.shutdown(handle).unwrap();

    assert_eq!(server.step(&mut io), Ok(StepResult::ProcessedOne));
    assert_eq!(server.isolate_count(), 1);
    assert_eq!(server.step(&mut io), Ok(StepResult::ProcessedOne));
    assert_eq!(server.isolate_count(), 0);
    server.shutdown(handle).unwrap();
    assert_eq!(server.step(&mut io), Ok(StepResult::DroppedInvalid));
}

#[test]
fn a_turn_beyond_the_driver_changes_nothing() {
    let mut server = Server::new(1, 4, 2);
    let mut io = IoLoop::new(FakeIoDriver::new(1), 2);
    server
        .spawn(Scripted::new(Rc::new(|_, io, effects| {
            let one = io.acquire().unwrap();
            let two = io.acquire().unwrap();
            effects.submit(one, timer())?;
            effects.submit(two, timer())?;
            Ok(())
        })).0)
        .unwrap();

    assert_eq!(server.step(&mut io), Err(RuntimeError::Io(IoError::DriverFull)));
    assert!(!io.has_pending());
    assert_eq!(server.isolate_count(), 1);
    assert_eq!(server.step(&mut io), Ok(StepResult::Idle));
}

#[test]
fn a_turn_beyond_the_isolates_changes_nothing() {
    let (child, log) = Scripted::new(quiet());
    let child = Cell::new(Some(child));
    let mut server = Server::new(1, 4, 2);
    let mut io = IoLoop::new(FakeIoDriver::new(1), 1);
    server
        .spawn(Scripted::new(Rc::new(move |_, io, effects| {
            let completion = io.acquire().unwrap();
            effects.submit(completion, timer())?;
            effects.spawn(child.take().unwrap())?;
            Ok(())
        })).0)
        .unwrap();

    assert_eq!(server.step(&mut io), Err(RuntimeError::Arena(ArenaError::Full)));
    assert!(!io.has_pending());
    assert_eq!(server.isolate_count(), 1);
    assert!(log.borrow().is_empty());
}

#[test]
fn a_turn_beyond_the_queue_changes_nothing() {
    let children = RefCell::new(vec![
        Scripted::new(quiet()).0,
        Scripted::new(quiet()).0,
    ]);
    let mut server = Server::new(4, 1, 2);
    let mut io = IoLoop::new(FakeIoDriver::new(1), 1);
    server
        .spawn(Scripted::new(Rc::new(move |_, _, effects| {
            effects.spawn(children.borrow_mut().pop().unwrap())?;
            effects.spawn(children.borrow_mut().pop().unwrap())?;
            Ok(())
        })).0)
        .unwrap();

    assert_eq!(server.step(&mut io), Err(RuntimeError::QueueFull));
    assert_eq!(server.isolate_count(), 1);
}

/// A turn that submits one operation and spawns two isolates, on a server and a driver of the given
/// sizes.
fn crowded_turn(
    isolates: usize,
    messages: usize,
    operations: usize,
) -> Result<StepResult, RuntimeError> {
    let children = RefCell::new(vec![
        Scripted::new(quiet()).0,
        Scripted::new(quiet()).0,
    ]);
    let mut server = Server::new(isolates, messages, 3);
    let mut io = IoLoop::new(FakeIoDriver::new(operations), 1);
    server
        .spawn(Scripted::new(Rc::new(move |_, io, effects| {
            effects.spawn(children.borrow_mut().pop().unwrap())?;
            effects.spawn(children.borrow_mut().pop().unwrap())?;
            effects.submit(io.acquire().unwrap(), timer())?;
            Ok(())
        })).0)
        .unwrap();
    let result = server.step(&mut io);
    if result.is_err() {
        assert_eq!(server.isolate_count(), 1);
        assert!(!io.has_pending());
        assert_eq!(server.step(&mut io), Ok(StepResult::Idle));
    }
    result
}

#[test]
fn the_first_lack_of_room_is_named() {
    assert_eq!(crowded_turn(1, 1, 0), Err(RuntimeError::Io(IoError::DriverFull)));
    assert_eq!(crowded_turn(3, 2, 0), Err(RuntimeError::Io(IoError::DriverFull)));
    assert_eq!(crowded_turn(1, 1, 1), Err(RuntimeError::Arena(ArenaError::Full)));
    assert_eq!(crowded_turn(3, 1, 1), Err(RuntimeError::QueueFull));
    assert_eq!(crowded_turn(3, 2, 1), Ok(StepResult::ProcessedOne));
}

#[test]
fn a_full_list_of_effects_is_an_error_of_the_turn() {
    let mut server = Server::new(1, 4, 1);
    let mut io = IoLoop::new(FakeIoDriver::new(1), 1);
    server
        .spawn(Scripted::new(Rc::new(|_, _, effects| {
            effects.destroy_self()?;
            effects.destroy_self()?;
            Ok(())
        })).0)
        .unwrap();

    assert_eq!(server.step(&mut io), Err(RuntimeError::Effects(EffectsError::Full)));
    assert_eq!(server.isolate_count(), 1);
}

#[test]
fn completions_of_others_cannot_be_submitted() {
    let taken = Rc::new(Cell::new(CompletionHandle::invalid()));
    let mut server = Server::new(2, 4, 1);
    let mut io = IoLoop::new(FakeIoDriver::new(2), 2);
    let theirs = Rc::clone(&taken);
    server
        .spawn(Scripted::new(Rc::new(move |_, io, _| {
            theirs.set(io.acquire().unwrap());
            Ok(())
        })).0)
        .unwrap();
    server
        .spawn(Scripted::new(Rc::new(move |_, io, effects| {
            assert_eq!(io.release(taken.get()), Err(CompletionError::WrongOwner));
            effects.submit(taken.get(), timer())?;
            Ok(())
        })).0)
        .unwrap();

    server.step(&mut io).unwrap();
    assert_eq!(
        server.step(&mut io),
        Err(RuntimeError::Completion(CompletionError::WrongOwner))
    );
}

#[test]
fn the_invalid_completion_cannot_be_cancelled() {
    let mut server = Server::new(1, 4, 1);
    let mut io = IoLoop::new(FakeIoDriver::new(2), 2);
    server
        .spawn(Scripted::new(Rc::new(|_, _, effects| {
            effects.cancel(CompletionHandle::invalid())?;
            Ok(())
        })).0)
        .unwrap();

    assert_eq!(
        server.step(&mut io),
        Err(RuntimeError::Completion(CompletionError::InvalidHandle))
    );
}

#[test]
fn a_failed_submission_leaves_the_completion_idle() {
    let (driver, shared) = shared();
    driver.borrow_mut().refuse_submit = true;
    let held = Rc::new(Cell::new(None));
    let mut server = Server::new(1, 4, 1);
    let mut io = IoLoop::new(shared, 1);
    let handle = server
        .spawn(Scripted::new(Rc::new(move |_, io, effects| {
            let completion = match held.get() {
                Some(completion) => completion,
                None => io.acquire().unwrap(),
            };
            held.set(Some(completion));
            effects.submit(completion, timer())?;
            Ok(())
        })).0)
        .unwrap();

    assert_eq!(server.step(&mut io), Err(RuntimeError::Io(IoError::DriverFull)));
    driver.borrow_mut().refuse_submit = false;
    server.shutdown(handle).unwrap();
    assert_eq!(server.step(&mut io), Ok(StepResult::ProcessedOne));
    assert_eq!(driver.borrow().submitted.len(), 1);
}

#[test]
fn a_refused_cancellation_is_an_error_of_the_turn() {
    let (driver, shared) = shared();
    driver.borrow_mut().refuse_cancel = true;
    let mut server = Server::new(1, 4, 2);
    let mut io = IoLoop::new(shared, 1);
    server
        .spawn(Scripted::new(Rc::new(|_, io, effects| {
            let completion = io.acquire().unwrap();
            effects.submit(completion, timer())?;
            effects.cancel(completion)?;
            Ok(())
        })).0)
        .unwrap();

    assert_eq!(server.step(&mut io), Err(RuntimeError::Io(IoError::UnknownCompletion)));
}

#[test]
fn an_unexpected_report_is_refused() {
    let (driver, shared) = shared();
    driver.borrow_mut().report.push(DriverCompletion {
        completion: CompletionHandle { index: 0, generation: 0 },
        result: IoResult::Cancelled,
    });
    let mut io = IoLoop::new(shared, 1);

    assert_eq!(io.step(), Err(RuntimeError::Completion(CompletionError::InvalidHandle)));
    assert_eq!(io.step(), Ok(false));
}

#[test]
fn a_failing_driver_is_an_error_of_the_loop() {
    let (driver, shared) = shared();
    driver.borrow_mut().fail_step = true;
    let mut io = IoLoop::new(shared, 1);

    assert_eq!(io.step(), Err(RuntimeError::Io(IoError::CompletionQueueFull)));
}

#[test]
fn completions_are_routed_to_the_isolates_that_submitted_them() {
    let mut server = Server::new(3, 8, 1);
    let mut io = IoLoop::new(FakeIoDriver::new(4), 4);
    let turn: Turn = Rc::new(|msg, io, effects| {
        match msg {
            RuntimeMessage::Init => {
                let completion = io.acquire().unwrap();
                effects.submit(completion, timer())?;
            }
            RuntimeMessage::IoCompleted(completion) => {
                assert_eq!(io.peek_result(completion), Some(&IoResult::Timer(Ok(()))));
                assert_eq!(io.take_result(completion), Some(IoResult::Timer(Ok(()))));
                assert_eq!(io.take_result(completion), None);
                io.release(completion).unwrap();
            }
            RuntimeMessage::Shutdown => {}
        }
        Ok(())
    });
    let (one, first_log) = Scripted::new(Rc::clone(&turn));
    let (two, second_log) = Scripted::new(turn);
    let (three, third_log) = Scripted::new(quiet());
    server.spawn(one).unwrap();
    server.spawn(two).unwrap();
    server.spawn(three).unwrap();

    assert_eq!(server.run_until_idle(&mut io), Ok(5));

    assert_eq!(
        *first_log.borrow(),
        vec![
            RuntimeMessage::Init,
            RuntimeMessage::IoCompleted(CompletionHandle { index: 0, generation: 0 }),
        ]
    );
    assert_eq!(
        *second_log.borrow(),
        vec![
            RuntimeMessage::Init,
            RuntimeMessage::IoCompleted(CompletionHandle { index: 1, generation: 0 }),
        ]
    );
    assert_eq!(*third_log.borrow(), vec![RuntimeMessage::Init]);
}

#[test]
fn a_cancelled_operation_gives_its_completion_back_when_reported() {
    let (driver, shared) = shared();
    let held = Rc::new(Cell::new(CompletionHandle::invalid()));
    let seen = Rc::new(Cell::new(0));
    let mut server = Server::new(1, 4, 2);
    let mut io = IoLoop::new(shared, 1);
    let kept = Rc::clone(&held);
    let available = Rc::clone(&seen);
    let handle = server
        .spawn(Scripted::new(Rc::new(move |msg, io, effects| {
            match msg {
                RuntimeMessage::Init => {
                    kept.set(io.acquire().unwrap());
                    effects.submit(kept.get(), timer())?;
                    effects.cancel(kept.get())?;
                }
                _ => available.set(io.available()),
            }
            Ok(())
        })).0)
        .unwrap();

    server.step(&mut io).unwrap();
    assert_eq!(driver.borrow().cancelled, vec![held.get()]);
    driver.borrow_mut().report.push(DriverCompletion {
        completion: held.get(),
        result: IoResult::Cancelled,
    });
    assert_eq!(io.step(), Ok(true));
    assert!(!io.has_pending());
    server.shutdown(handle).unwrap();
    server.step(&mut io).unwrap();
    assert_eq!(seen.get(), 1);
}

#[test]
fn the_loop_asks_the_driver_for_what_it_has_room_for() {
    let (driver, shared) = shared();
    let mut server = Server::new(1, 4, 1);
    let mut io = IoLoop::new(shared, 2);
    server
        .spawn(Scripted::new(Rc::new(|_, io, effects| {
            let completion = io.acquire().unwrap();
            effects.submit(completion, timer())?;
            Ok(())
        })).0)
        .unwrap();
    server.step(&mut io).unwrap();
    let submitted = driver.borrow().submitted[0];
    driver.borrow_mut().report.push(DriverCompletion {
        completion: submitted,
        result: IoResult::Timer(Ok(())),
    });

    io.step().unwrap();
    io.step().unwrap();

    assert_eq!(driver.borrow().asked_for, vec![2, 1]);
    assert!(io.has_pending());
}

#[test]
fn a_step_gives_the_turn_to_one_isolate() {
    let mut server = Server::new(2, 4, 1);
    let mut io = IoLoop::new(FakeIoDriver::new(1), 1);
    let (one, first_log) = Scripted::new(quiet());
    let (two, second_log) = Scripted::new(quiet());
    server.spawn(one).unwrap();
    server.spawn(two).unwrap();

    server.step(&mut io).unwrap();

    assert_eq!(first_log.borrow().len(), 1);
    assert!(second_log.borrow().is_empty());
}

#[test]
fn acquiring_from_an_empty_arena_gives_nothing() {
    let mut server = Server::new(1, 4, 1);
    let mut io = IoLoop::new(FakeIoDriver::new(1), 0);
    server
        .spawn(Scripted::new(Rc::new(|_, io, _| {
            assert_eq!(io.available(), 0);
            assert_eq!(io.acquire(), None);
            assert_eq!(io.take_result(CompletionHandle::invalid()), None);
            Ok(())
        })).0)
        .unwrap();

    assert_eq!(server.run_until_idle(&mut io), Ok(1));
}

#[test]
fn pending_work_of_the_driver_is_not_idle() {
    let mut server = Server::new(1, 2, 2);
    let mut io = IoLoop::new(FakeIoDriver::new(2), 2);
    server
        .spawn(TimerOnce { timer: CompletionHandle::invalid(), completed: false })
        .unwrap();

    assert_eq!(server.step(&mut io), Ok(StepResult::ProcessedOne));
    assert_eq!(server.step(&mut io), Ok(StepResult::AdvancedIo));
    assert_eq!(io.step(), Ok(true));
    assert_eq!(server.step(&mut io), Ok(StepResult::ProcessedOne));
    assert_eq!(server.step(&mut io), Ok(StepResult::Idle));
}

#[test]
fn the_same_server_steps_end_the_same() {
    let run = || {
        let mut server = Server::new(3, 8, 2);
        let mut io = IoLoop::new(FakeIoDriver::new(4), 4);
        let turn: Turn = Rc::new(|msg, io, effects| {
            match msg {
                RuntimeMessage::Init => {
                    let one = io.acquire().unwrap();
                    effects.submit(one, timer())?;
                }
                RuntimeMessage::IoCompleted(completion) => {
                    io.take_result(completion).unwrap();
                    effects.submit(completion, timer())?;
                    effects.cancel(completion)?;
                }
                RuntimeMessage::Shutdown => effects.destroy_self()?,
            }
            Ok(())
        });
        let (one, first_log) = Scripted::new(Rc::clone(&turn));
        let (two, second_log) = Scripted::new(turn);
        server.spawn(one).unwrap();
        let handle = server.spawn(two).unwrap();
        let mut results = Vec::new();
        for round in 0..12 {
            if round == 6 {
                server.shutdown(handle).unwrap();
            }
            results.push(server.step(&mut io));
            io.step().unwrap();
        }
        let logs = (first_log.borrow().clone(), second_log.borrow().clone());
        (results, logs, server.isolate_count())
    };

    assert_eq!(run(), run());
}

#[test]
fn the_same_server_runs_end_the_same() {
    let run = || {
        let mut server = Server::new(2, 4, 2);
        let mut io = IoLoop::new(FakeIoDriver::new(2), 2);
        let turn: Turn = Rc::new(|msg, io, effects| {
            match msg {
                RuntimeMessage::Init => effects.submit(io.acquire().unwrap(), timer())?,
                RuntimeMessage::IoCompleted(completion) => {
                    io.take_result(completion).unwrap();
                    effects.destroy_self()?;
                }
                RuntimeMessage::Shutdown => {}
            }
            Ok(())
        });
        let (one, first_log) = Scripted::new(Rc::clone(&turn));
        let (two, second_log) = Scripted::new(turn);
        server.spawn(one).unwrap();
        server.spawn(two).unwrap();
        let result = server.run_until_idle(&mut io);
        let logs = (first_log.borrow().clone(), second_log.borrow().clone());
        (result, logs, server.isolate_count())
    };

    assert_eq!(run().0, Ok(4));
    assert_eq!(run(), run());
}

/// A driver that takes the list away and remembers how much room it was given.
struct TakingDriver {
    rooms: Rc<RefCell<Vec<usize>>>,
}

impl IoDriver for TakingDriver {
    fn can_submit(&self, _additional: usize) -> bool {
        false
    }

    fn submit(&mut self, _completion: CompletionHandle, _op: Operation) -> Result<(), IoError> {
        Err(IoError::DriverFull)
    }

    fn cancel(&mut self, _completion: CompletionHandle) -> Result<(), IoError> {
        Err(IoError::UnknownCompletion)
    }

    fn step(
        &mut self,
        _max_completions: usize,
        completed: &mut Vec<DriverCompletion>,
    ) -> Result<bool, IoError> {
        assert!(completed.is_empty());
        self.rooms.borrow_mut().push(completed.capacity());
        *completed = Vec::new();
        Ok(false)
    }

    fn has_pending(&self) -> bool {
        false
    }
}

#[test]
fn every_step_of_the_loop_has_room_for_its_completions() {
    let rooms = Rc::new(RefCell::new(Vec::new()));
    let mut io = IoLoop::new(TakingDriver { rooms: Rc::clone(&rooms) }, 5);

    for _ in 0..3 {
        assert_eq!(io.step(), Ok(false));
    }

    assert_eq!(rooms.borrow().len(), 3);
    assert!(rooms.borrow().iter().all(|room| *room >= 5));
}

#[test]
fn an_entry_of_the_list_is_within_its_bound() {
    assert!(std::mem::size_of::<DriverCompletion>() < ENTRY_BYTES);
}

#[test]
fn the_same_calls_on_a_server_return_the_same() {
    let run = || {
        let mut server = Server::new(2, 3, 3);
        let mut io = IoLoop::new(FakeIoDriver::new(2), 2);
        let turn: Turn = Rc::new(|msg, io, effects| {
            match msg {
                RuntimeMessage::Init => {
                    let completion = io.acquire().unwrap();
                    effects.submit(
                        completion,
                        Operation::Recv(RecvOp { fd: 3, buf: vec![0; 4], flags: 0 }),
                    )?;
                }
                RuntimeMessage::IoCompleted(completion) => {
                    let result = io.take_result(completion).unwrap();
                    assert_eq!(result, IoResult::Recv(Ok(vec![])));
                    effects.submit(completion, timer())?;
                    effects.destroy_self()?;
                }
                RuntimeMessage::Shutdown => effects.destroy_self()?,
            }
            Ok(())
        });
        let (one, log) = Scripted::new(Rc::clone(&turn));
        let first = server.spawn(one).unwrap();
        let second = server.spawn(Scripted::new(Rc::clone(&turn)).0).unwrap();
        let third = server.spawn(Scripted::new(turn).0);
        let shut = server.shutdown(second);
        let refused = server.shutdown(first);
        let ran = server.run_until_idle(&mut io);
        let entries = log.borrow().clone();
        (first, second, third, shut, refused, ran, entries, server.isolate_count(), io.step())
    };

    let left = run();
    assert_eq!(left.2, Err(RuntimeError::Arena(ArenaError::Full)));
    assert_eq!(left.3, Ok(()));
    assert_eq!(left.4, Err(RuntimeError::QueueFull));
    assert_eq!(left.8, Ok(false));
    assert_eq!(left, run());
}
