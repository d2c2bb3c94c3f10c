use std::cell::{Cell, RefCell};
use std::rc::Rc;

use command_io::arena::{ArenaError, Handle};
use command_io::mailbox::{
    EffectsError, Isolate, OpToken, RuntimeError, RuntimeMessage, Scheduler, StepResult,
    TurnEffects, Wait, WaitBackend,
};

type Log = Rc<RefCell<Vec<(char, RuntimeMessage<char>, Option<OpToken>)>>>;
type Turn = Rc<
    dyn Fn(
        RuntimeMessage<char>,
        Option<OpToken>,
        &mut TurnEffects<char>,
    ) -> Result<(), RuntimeError>,
>;

/// An isolate that keeps a log and does what it is told.
struct Scripted {
    name: char,
    log: Log,
    turn: Turn,
}

impl Isolate for Scripted {
    type Message = char;

    fn handle(
        &mut self,
        msg: RuntimeMessage<char>,
        token: Option<OpToken>,
        effects: &mut TurnEffects<char>,
    ) -> Result<(), RuntimeError> {
        self.log.borrow_mut().push((self.name, msg.clone(), token));
        (self.turn)(msg, token, effects)
    }
}

fn log() -> Log {
    Rc::new(RefCell::new(Vec::new()))
}

fn scripted(
    name: char,
    log: &Log,
    turn: impl Fn(
            RuntimeMessage<char>,
            Option<OpToken>,
            &mut TurnEffects<char>,
        ) -> Result<(), RuntimeError>
        + 'static,
) -> Scripted {
    Scripted { name, log: Rc::clone(log), turn: Rc::new(turn) }
}

fn quiet(name: char, log: &Log) -> Scripted {
    scripted(name, log, |_, _, _| Ok(()))
}

fn names(log: &Log) -> Vec<char> {
    log.borrow().iter().map(|entry| entry.0).collect()
}

#[test]
fn spawning_beyond_the_isolates_is_refused() {
    let log = log();
    let mut scheduler = Scheduler::new(1, 4, 1);
    scheduler.spawn(quiet('a', &log)).unwrap();

    assert_eq!(
        scheduler.spawn(quiet('b', &log)),
        Err(RuntimeError::Arena(ArenaError::Full))
    );
    assert_eq!(scheduler.queue_len(), 1);
}

#[test]
fn an_isolate_spawned_into_a_full_queue_stays_without_its_first_message() {
    let log = log();
    let mut scheduler = Scheduler::new(2, 1, 1);
    scheduler.spawn(quiet('a', &log)).unwrap();

    assert_eq!(scheduler.spawn(quiet('b', &log)), Err(RuntimeError::QueueFull));
    let second = Handle { index: 1, generation: 0 };
    assert!(scheduler.isolate_mut(second).is_some());
    assert_eq!(scheduler.run_until_idle(), Ok(1));
    scheduler.enqueue(second, 'x').unwrap();
    assert_eq!(scheduler.run_until_idle(), Ok(1));
    assert_eq!(names(&log), vec!['a', 'b']);
}

#[test]
fn messages_are_handled_first_in_first_out() {
    let log = log();
    let mut scheduler = Scheduler::new(2, 8, 4);
    let one = scheduler.spawn(quiet('a', &log)).unwrap();
    let two = scheduler.spawn(quiet('b', &log)).unwrap();
    scheduler.enqueue(two, 'x').unwrap();
    scheduler.enqueue(one, 'y').unwrap();

    assert_eq!(scheduler.run_until_idle(), Ok(4));

    assert_eq!(names(&log), vec!['a', 'b', 'b', 'a']);
    assert_eq!(log.borrow()[2], ('b', RuntimeMessage::User('x'), None));
}

#[test]
fn the_messages_of_a_turn_are_sent_in_order() {
    let log = log();
    let mut scheduler = Scheduler::new(1, 8, 4);
    let isolate = scripted('a', &log, |msg, _, effects| {
        if msg == RuntimeMessage::Init {
            effects.send_self('1')?;
            effects.send_self('2')?;
            effects.send_self('3')?;
        }
        Ok(())
    });
    scheduler.spawn(isolate).unwrap();

    scheduler.run_until_idle().unwrap();

    let messages: Vec<RuntimeMessage<char>> =
        log.borrow().iter().map(|entry| entry.1.clone()).collect();
    assert_eq!(
        messages,
        vec![
            RuntimeMessage::Init,
            RuntimeMessage::User('1'),
            RuntimeMessage::User('2'),
            RuntimeMessage::User('3'),
        ]
    );
}

#[test]
fn messages_for_a_destroyed_isolate_are_dropped() {
    let log = log();
    let mut scheduler = Scheduler::new(1, 8, 4);
    let isolate = scripted('a', &log, |_, _, effects| {
        effects.destroy_self()?;
        Ok(())
    });
    let handle = scheduler.spawn(isolate).unwrap();
    scheduler.enqueue(handle, 'x').unwrap();

    assert_eq!(scheduler.run_once(), Ok(StepResult::ProcessedOne));
    assert!(scheduler.isolate_mut(handle).is_none());
    assert_eq!(scheduler.run_once(), Ok(StepResult::DroppedInvalid));
    assert_eq!(scheduler.run_once(), Ok(StepResult::Idle));
    let next = scheduler.spawn(quiet('b', &log)).unwrap();
    assert_ne!(next, handle);
}

#[test]
fn an_isolate_is_destroyed_once() {
    let log = log();
    let mut scheduler = Scheduler::new(1, 8, 4);
    let isolate = scripted('a', &log, |msg, _, effects| {
        if msg == RuntimeMessage::Init {
            effects.wait_recv(1, 'r')?;
            effects.send_self('s')?;
            effects.destroy_self()?;
            effects.destroy_self()?;
        }
        Ok(())
    });
    let handle = scheduler.spawn(isolate).unwrap();

    assert_eq!(scheduler.run_once(), Err(RuntimeError::Arena(ArenaError::InvalidHandle)));
    assert_eq!(scheduler.queue_len(), 0);
    assert!(scheduler.isolate_mut(handle).is_some());
    assert_eq!(scheduler.run_once(), Ok(StepResult::Idle));

    scheduler.enqueue(handle, 'm').unwrap();
    assert_eq!(scheduler.run_once(), Ok(StepResult::ProcessedOne));
}

#[test]
fn a_lack_of_room_is_named_before_a_second_destruction() {
    let turn = |sends: usize, waits: u32| {
        let log = log();
        let mut scheduler = Scheduler::new(1, 2, 8);
        let isolate = scripted('a', &log, move |_, _, effects| {
            effects.destroy_self()?;
            effects.destroy_self()?;
            for _ in 0..sends {
                effects.send_self('s')?;
            }
            for source in 0..waits {
                effects.wait_recv(source, 'r')?;
            }
            Ok(())
        });
        scheduler.spawn(isolate).unwrap();
        scheduler.run_once()
    };

    assert_eq!(turn(3, 3), Err(RuntimeError::QueueFull));
    assert_eq!(turn(2, 3), Err(RuntimeError::WaitQueueFull));
    assert_eq!(turn(2, 2), Err(RuntimeError::Arena(ArenaError::InvalidHandle)));
}

#[test]
fn a_destroyed_isolate_gets_no_completion() {
    let log = log();
    let mut scheduler = Scheduler::new(2, 8, 4);
    let isolate = scripted('a', &log, |_, _, effects| {
        effects.wait_recv(1, 'r')?;
        effects.select(vec![(Wait::Recv { source: 2 }, 's'), (Wait::Timer { ticks: 3 }, 't')])?;
        effects.destroy_self()?;
        Ok(())
    });
    let other = scripted('b', &log, |msg, _, effects| {
        if msg == RuntimeMessage::Init {
            effects.wait_recv(3, 'o')?;
        }
        Ok(())
    });
    scheduler.spawn(isolate).unwrap();
    scheduler.spawn(other).unwrap();

    assert_eq!(scheduler.run_until_idle(), Ok(3));
    assert_eq!(names(&log), vec!['a', 'b', 'b']);
    assert_eq!(log.borrow()[2], ('b', RuntimeMessage::User('o'), Some(OpToken(3))));
}

#[test]
fn a_failing_turn_is_dropped_and_its_tokens_are_used_up() {
    let log = log();
    let tokens = Rc::new(RefCell::new(Vec::new()));
    let minted = Rc::clone(&tokens);
    let mut scheduler = Scheduler::new(1, 8, 1);
    let isolate = scripted('a', &log, move |msg, _, effects| {
        if msg == RuntimeMessage::User('x') {
            return Ok(());
        }
        minted.borrow_mut().push(effects.wait_recv(1, 'x')?);
        if minted.borrow().len() == 1 {
            effects.wait_recv(2, 'x')?;
        }
        Ok(())
    });
    let handle = scheduler.spawn(isolate).unwrap();

    assert_eq!(
        scheduler.run_once(),
        Err(RuntimeError::Effects(EffectsError::WaitsFull))
    );
    assert_eq!(scheduler.run_once(), Ok(StepResult::Idle));
    scheduler.enqueue(handle, 'y').unwrap();
    assert_eq!(scheduler.run_until_idle(), Ok(2));
    assert_eq!(*tokens.borrow(), vec![OpToken(0), OpToken(1)]);
    assert_eq!(log.borrow().last().unwrap().2, Some(OpToken(1)));
}

#[test]
fn tokens_go_on_from_turn_to_turn() {
    let log = log();
    let tokens = Rc::new(RefCell::new(Vec::new()));
    let minted = Rc::clone(&tokens);
    let mut scheduler = Scheduler::new(1, 8, 4);
    let isolate = scripted('a', &log, move |_, _, effects| {
        if minted.borrow().len() < 3 {
            minted.borrow_mut().push(effects.wait_recv(1, 'x')?);
        }
        Ok(())
    });
    scheduler.spawn(isolate).unwrap();

    scheduler.run_until_idle().unwrap();

    assert_eq!(*tokens.borrow(), vec![OpToken(0), OpToken(1), OpToken(2)]);
    let reported: Vec<Option<OpToken>> = log.borrow().iter().map(|entry| entry.2).collect();
    assert_eq!(reported, vec![None, Some(OpToken(0)), Some(OpToken(1)), Some(OpToken(2))]);
}

#[test]
fn a_turn_without_room_for_its_waits_changes_nothing() {
    let log = log();
    let mut scheduler = Scheduler::new(1, 2, 4);
    let isolate = scripted('a', &log, |msg, _, effects| {
        if msg == RuntimeMessage::Init {
            effects.send_self('s')?;
            effects.wait_recv(1, 'x')?;
            effects.wait_recv(2, 'x')?;
            effects.wait_recv(3, 'x')?;
        }
        Ok(())
    });
    scheduler.spawn(isolate).unwrap();

    assert_eq!(scheduler.run_once(), Err(RuntimeError::WaitQueueFull));
    assert_eq!(scheduler.queue_len(), 0);
    assert_eq!(scheduler.run_once(), Ok(StepResult::Idle));
}

#[test]
fn actions_beyond_the_capacity_are_an_error_of_the_turn() {
    let log = log();
    let mut scheduler = Scheduler::new(1, 8, 1);
    let isolate = scripted('a', &log, |_, _, effects| {
        effects.send_self('x')?;
        effects.send_self('y')?;
        Ok(())
    });
    scheduler.spawn(isolate).unwrap();

    assert_eq!(
        scheduler.run_once(),
        Err(RuntimeError::Effects(EffectsError::ActionsFull))
    );
    assert_eq!(scheduler.queue_len(), 0);
}

#[test]
fn a_step_that_only_moves_waits_says_so() {
    let log = log();
    let mut scheduler = Scheduler::new(1, 4, 4);
    let isolate = scripted('a', &log, |msg, _, effects| {
        if msg == RuntimeMessage::Init {
            effects.wait_timer(3, 't')?;
        }
        Ok(())
    });
    scheduler.spawn(isolate).unwrap();

    assert_eq!(scheduler.run_once(), Ok(StepResult::ProcessedOne));
    assert_eq!(scheduler.run_once(), Ok(StepResult::AdvancedWaits));
    assert_eq!(scheduler.run_once(), Ok(StepResult::AdvancedWaits));
    assert_eq!(scheduler.run_once(), Ok(StepResult::ProcessedOne));
    assert_eq!(scheduler.run_once(), Ok(StepResult::Idle));
}

#[test]
fn a_step_leaves_the_other_isolates_alone() {
    let log = log();
    let mut scheduler = Scheduler::new(2, 8, 4);
    scheduler.spawn(quiet('a', &log)).unwrap();
    let other = scheduler.spawn(quiet('b', &log)).unwrap();

    scheduler.run_once().unwrap();

    assert_eq!(names(&log), vec!['a']);
    assert_eq!(scheduler.isolate_mut(other).unwrap().name, 'b');
}

#[test]
fn a_run_leaves_no_wait_behind() {
    let log = log();
    let mut scheduler = Scheduler::new(1, 8, 8);
    let isolate = scripted('a', &log, |msg, _, effects| {
        if msg == RuntimeMessage::Init {
            effects.wait_timer(5, 't')?;
            effects.wait_write(1, 'w')?;
            effects.join(vec![Wait::Timer { ticks: 2 }, Wait::Recv { source: 1 }], 'j')?;
            effects.select(vec![(Wait::Timer { ticks: 4 }, 'l'), (Wait::Timer { ticks: 3 }, 's')])?;
        }
        Ok(())
    });
    scheduler.spawn(isolate).unwrap();

    assert_eq!(scheduler.run_until_idle(), Ok(5));

    let mut received: Vec<RuntimeMessage<char>> =
        log.borrow().iter().skip(1).map(|entry| entry.1.clone()).collect();
    assert_eq!(
        received,
        vec![
            RuntimeMessage::User('w'),
            RuntimeMessage::User('j'),
            RuntimeMessage::User('s'),
            RuntimeMessage::User('t'),
        ]
    );
    received.clear();
    assert_eq!(scheduler.run_once(), Ok(StepResult::Idle));
}

/// A backend whose waits complete only when an event arrives.
struct EventBackend {
    armed: Vec<OpToken>,
    fired: bool,
    events: Rc<Cell<u32>>,
    failing: bool,
}

impl WaitBackend for EventBackend {
    fn submit(&mut self, token: OpToken, _wait: Wait) -> Result<(), RuntimeError> {
        self.armed.push(token);
        Ok(())
    }

    fn cancel(&mut self, token: OpToken) {
        self.armed.retain(|armed| *armed != token);
    }

    fn poll(&mut self, ready: &mut Vec<OpToken>) -> Result<bool, RuntimeError> {
        if self.failing {
            return Err(RuntimeError::WaitQueueFull);
        }
        if !self.fired || self.armed.is_empty() {
            return Ok(false);
        }
        self.fired = false;
        ready.push(self.armed.remove(0));
        Ok(true)
    }

    fn has_pending(&self) -> bool {
        !self.armed.is_empty()
    }

    fn can_submit(&self, _additional: usize) -> bool {
        true
    }

    fn block_until_event(&mut self) -> Result<bool, RuntimeError> {
        if self.events.get() == 0 {
            return Err(RuntimeError::WaitQueueFull);
        }
        self.events.set(self.events.get() - 1);
        self.fired = true;
        Ok(true)
    }
}

fn two_waits(log: &Log) -> Scripted {
    scripted('a', log, |msg, _, effects| {
        if msg == RuntimeMessage::Init {
            effects.wait_recv(1, 'x')?;
            effects.wait_recv(2, 'y')?;
        }
        Ok(())
    })
}

#[test]
fn a_blocked_run_waits_for_events() {
    let log = log();
    let events = Rc::new(Cell::new(2));
    let backend = EventBackend {
        armed: vec![],
        fired: false,
        events: Rc::clone(&events),
        failing: false,
    };
    let mut scheduler = Scheduler::new_with_backend(1, 4, 4, backend);
    scheduler.spawn(two_waits(&log)).unwrap();

    assert_eq!(scheduler.run_until_idle(), Ok(3));
    assert_eq!(events.get(), 0);
}

#[test]
fn a_failing_event_source_ends_the_run() {
    let log = log();
    let backend = EventBackend {
        armed: vec![],
        fired: false,
        events: Rc::new(Cell::new(1)),
        failing: false,
    };
    let mut scheduler = Scheduler::new_with_backend(1, 4, 4, backend);
    scheduler.spawn(two_waits(&log)).unwrap();

    assert_eq!(scheduler.run_until_idle(), Err(RuntimeError::WaitQueueFull));
    assert_eq!(names(&log).len(), 2);
}

#[test]
fn a_failing_poll_ends_the_step() {
    let log = log();
    let backend = EventBackend {
        armed: vec![],
        fired: false,
        events: Rc::new(Cell::new(0)),
        failing: true,
    };
    let mut scheduler = Scheduler::new_with_backend(1, 4, 4, backend);
    scheduler.spawn(two_waits(&log)).unwrap();

    assert_eq!(scheduler.run_once(), Err(RuntimeError::WaitQueueFull));
    assert_eq!(scheduler.queue_len(), 1);
    assert!(log.borrow().is_empty());
}

#[test]
fn the_same_scheduler_steps_end_the_same() {
    let run = || {
        let log = log();
        let mut scheduler = Scheduler::new(4, 8, 8);
        let busy = scripted('a', &log, |msg, _, effects| {
            if msg == RuntimeMessage::Init {
                effects.wait_recv(1, 'r')?;
                effects.join(vec![Wait::Timer { ticks: 2 }, Wait::Recv { source: 1 }], 'j')?;
            } else {
                effects.send_self('s')?;
            }
            Ok(())
        });
        let leaving = scripted('b', &log, |msg, _, effects| {
            if msg == RuntimeMessage::Init {
                for source in 0..5 {
                    effects.wait_recv(source, 'x')?;
                }
                effects.send_self('d')?;
            } else {
                effects.destroy_self()?;
            }
            Ok(())
        });
        scheduler.spawn(busy).unwrap();
        scheduler.spawn(leaving).unwrap();
        let results: Vec<Result<StepResult, RuntimeError>> =
            (0..20).map(|_| scheduler.run_once()).collect();
        let entries = log.borrow().clone();
        (results, entries, scheduler.queue_len())
    };

    assert_eq!(run(), run());
}

#[test]
fn the_same_calls_return_the_same() {
    let run = || {
        let log = log();
        let mut scheduler = Scheduler::new(2, 4, 4);
        let talking = scripted('a', &log, |msg, _, effects| {
            match msg {
                RuntimeMessage::Init => {
                    effects.wait_timer(3, 't')?;
                    effects.send_self('s')?;
                }
                RuntimeMessage::User('t') => {
                    effects.destroy_self()?;
                    effects.destroy_self()?;
                }
                _ => {}
            }
            Ok(())
        });
        let handle = scheduler.spawn(talking).unwrap();
        let other = scheduler.spawn(quiet('b', &log)).unwrap();
        let refused = scheduler.spawn(quiet('c', &log));
        let enqueued: Vec<Result<(), RuntimeError>> =
            (0..4).map(|_| scheduler.enqueue(other, 'm')).collect();
        let runs = [scheduler.run_until_idle(), scheduler.run_until_idle()];
        let kept = (scheduler.isolate_mut(handle).is_some(), scheduler.queue_len());
        let entries = log.borrow().clone();
        (refused, enqueued, runs, kept, entries)
    };

    let (refused, enqueued, runs, kept, entries) = run();
    assert_eq!(refused, Err(RuntimeError::Arena(ArenaError::Full)));
    assert_eq!(
        enqueued,
        vec![Ok(()), Ok(()), Err(RuntimeError::QueueFull), Err(RuntimeError::QueueFull)]
    );
    assert_eq!(runs, [Err(RuntimeError::Arena(ArenaError::InvalidHandle)), Ok(0)]);
    assert_eq!(kept, (true, 0));
    assert_eq!(entries.len(), 6);
    assert_eq!(run(), (refused, enqueued, runs, kept, entries));
}

/// A backend that refuses one token although it said that it would take all.
struct FickleBackend {
    refuses: OpToken,
    calls: Rc<RefCell<Vec<(char, OpToken)>>>,
    armed: usize,
}

impl WaitBackend for FickleBackend {
    fn submit(&mut self, token: OpToken, _wait: Wait) -> Result<(), RuntimeError> {
        self.calls.borrow_mut().push(('s', token));
        if token == self.refuses {
            return Err(RuntimeError::WaitQueueFull);
        }
        self.armed += 1;
        Ok(())
    }

    fn cancel(&mut self, token: OpToken) {
        self.calls.borrow_mut().push(('c', token));
        self.armed -= 1;
    }

    fn poll(&mut self, _ready: &mut Vec<OpToken>) -> Result<bool, RuntimeError> {
        Ok(false)
    }

    fn has_pending(&self) -> bool {
        self.armed > 0
    }

    fn can_submit(&self, _additional: usize) -> bool {
        true
    }
}

#[test]
fn a_turn_that_the_backend_refuses_is_taken_back() {
    let log = log();
    let calls = Rc::new(RefCell::new(Vec::new()));
    let backend = FickleBackend { refuses: OpToken(2), calls: Rc::clone(&calls), armed: 0 };
    let mut scheduler = Scheduler::new_with_backend(1, 4, 4, backend);
    let isolate = scripted('a', &log, |_, _, effects| {
        effects.send_self('s')?;
        effects.wait_recv(1, 'x')?;
        effects.select(vec![(Wait::Recv { source: 2 }, 'y'), (Wait::Recv { source: 3 }, 'z')])?;
        effects.wait_recv(4, 'w')?;
        effects.destroy_self()?;
        Ok(())
    });
    let handle = scheduler.spawn(isolate).unwrap();

    assert_eq!(scheduler.run_once(), Err(RuntimeError::WaitQueueFull));
    assert_eq!(
        *calls.borrow(),
        vec![
            ('s', OpToken(0)),
            ('s', OpToken(1)),
            ('s', OpToken(2)),
            ('c', OpToken(0)),
            ('c', OpToken(1)),
        ]
    );
    assert_eq!(scheduler.queue_len(), 0);
    assert!(scheduler.isolate_mut(handle).is_some());
    assert_eq!(scheduler.run_once(), Ok(StepResult::Idle));
}

#[test]
fn the_same_waiting_runs_end_the_same() {
    let run = |event_count: u32| {
        let log = log();
        let events = Rc::new(Cell::new(event_count));
        let backend = EventBackend {
            armed: vec![],
            fired: false,
            events: Rc::clone(&events),
            failing: false,
        };
        let mut scheduler = Scheduler::new_with_backend(1, 4, 4, backend);
        scheduler.spawn(two_waits(&log)).unwrap();
        let runs = [scheduler.run_until_idle(), scheduler.run_until_idle()];
        let entries = log.borrow().clone();
        (runs, entries, events.get())
    };

    assert_eq!(run(1).0, [Err(RuntimeError::WaitQueueFull), Err(RuntimeError::WaitQueueFull)]);
    assert_eq!(run(3).0, [Ok(3), Ok(0)]);
    assert_eq!(run(3).2, 1);
    assert_eq!(run(1), run(1));
    assert_eq!(run(3), run(3));
}
