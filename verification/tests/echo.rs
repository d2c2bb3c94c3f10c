use std::cell::{Cell, RefCell};
use std::collections::VecDeque;
use std::rc::Rc;

use command_io::completion::CompletionHandle;
use command_io::echo::{EchoConnection, EchoIsolate, EchoListener, RECV_SIZE};
use command_io::effects::{Effect, EffectsError, RuntimeMessage, TurnEffects};
use command_io::io::{
    AcceptOp, DriverCompletion, IoDriver, IoError, IoResult, Operation, RawFdLike, RecvOp, SendOp,
};
use command_io::runtime::{IoContext, IoLoop, Isolate, RuntimeError, Server};

/// The echo isolate as the server runs it; the descriptors that it gives up are noted.
struct Echo {
    isolate: EchoIsolate,
    closed: Rc<RefCell<Vec<RawFdLike>>>,
    refused: Rc<Cell<u32>>,
}

impl Isolate for Echo {
    fn handle(
        &mut self,
        msg: RuntimeMessage,
        io: &mut IoContext<'_>,
        effects: &mut TurnEffects<Self>,
    ) -> Result<(), RuntimeError> {
        if !self.isolate.can_handle(msg, io) {
            self.refused.set(self.refused.get() + 1);
            return Ok(());
        }
        let mut asked = TurnEffects::with_capacity(2);
        self.isolate.handle(msg, io, &mut asked)?;
        self.pass_on(asked, effects)
    }

    fn destroy(
        &mut self,
        io: &mut IoContext<'_>,
        effects: &mut TurnEffects<Self>,
    ) -> Result<(), RuntimeError> {
        let mut asked = TurnEffects::with_capacity(2);
        let (to_close, outcome) = self.isolate.destroy(io, &mut asked);
        self.closed.borrow_mut().extend(to_close);
        outcome?;
        self.pass_on(asked, effects)
    }
}

impl Echo {
    fn pass_on(
        &self,
        mut asked: TurnEffects<EchoIsolate>,
        effects: &mut TurnEffects<Self>,
    ) -> Result<(), RuntimeError> {
        let mut list = Vec::new();
        asked.swap_effects(&mut list);
        for effect in list {
            match effect {
                Effect::Submit { completion, op } => effects.submit(completion, op)?,
                Effect::Cancel { completion } => effects.cancel(completion)?,
                Effect::Spawn(isolate) => effects.spawn(Echo {
                    isolate,
                    closed: Rc::clone(&self.closed),
                    refused: Rc::clone(&self.refused),
                })?,
                Effect::DestroySelf => effects.destroy_self()?,
            }
        }
        Ok(())
    }
}

/// A peer that can be told what to do.
#[derive(Default)]
struct World {
    pending: VecDeque<(CompletionHandle, Operation)>,
    incoming: VecDeque<Result<RawFdLike, IoError>>,
    bytes: VecDeque<Result<Vec<u8>, IoError>>,
    sent: Vec<(RawFdLike, Vec<u8>)>,
    fail_send: bool,
    mismatch: bool,
}

struct WorldDriver(Rc<RefCell<World>>);

impl IoDriver for WorldDriver {
    fn can_submit(&self, _additional: usize) -> bool {
        true
    }

    fn submit(&mut self, completion: CompletionHandle, op: Operation) -> Result<(), IoError> {
        self.0.borrow_mut().pending.push_back((completion, op));
        Ok(())
    }

    fn cancel(&mut self, completion: CompletionHandle) -> Result<(), IoError> {
        let mut world = self.0.borrow_mut();
        let at = world.pending.iter().position(|entry| entry.0 == completion);
        match at {
            Some(at) => {
                let (completion, _) = world.pending.remove(at).unwrap();
                world.pending.push_front((
                    completion,
                    Operation::Timer(command_io::io::TimerOp { ticks: 0 }),
                ));
                Ok(())
            }
            None => Err(IoError::UnknownCompletion),
        }
    }

    fn step(
        &mut self,
        max_completions: usize,
        completed: &mut Vec<DriverCompletion>,
    ) -> Result<bool, IoError> {
        let mut world = self.0.borrow_mut();
        let mut left = VecDeque::new();
        while let Some((completion, op)) = world.pending.pop_front() {
            let result = if completed.len() == max_completions {
                None
            } else {
                match &op {
                    Operation::Accept(_) => world.incoming.pop_front().map(IoResult::Accept),
                    Operation::Recv(_) if world.mismatch => Some(IoResult::Send(Ok(1))),
                    Operation::Recv(recv) => {
                        assert_eq!(recv.buf, vec![0; RECV_SIZE]);
                        world.bytes.pop_front().map(IoResult::Recv)
                    }
                    Operation::Send(send) => {
                        world.sent.push((send.fd, send.buf.clone()));
                        if world.fail_send {
                            Some(IoResult::Send(Err(IoError::DriverFull)))
                        } else {
                            Some(IoResult::Send(Ok(send.buf.len())))
                        }
                    }
                    Operation::Timer(_) => Some(IoResult::Cancelled),
                }
            };
            match result {
                Some(result) => completed.push(DriverCompletion { completion, result }),
                None => left.push_back((completion, op)),
            }
        }
        world.pending = left;
        Ok(!completed.is_empty())
    }

    fn has_pending(&self) -> bool {
        false
    }
}

struct Setup {
    world: Rc<RefCell<World>>,
    server: Server<Echo>,
    io: IoLoop<WorldDriver>,
    closed: Rc<RefCell<Vec<RawFdLike>>>,
    refused: Rc<Cell<u32>>,
    listener: command_io::arena::Handle,
}

fn setup() -> Setup {
    let world = Rc::new(RefCell::new(World::default()));
    let closed = Rc::new(RefCell::new(Vec::new()));
    let refused = Rc::new(Cell::new(0));
    let mut server = Server::new(3, 4, 2);
    let io = IoLoop::new(WorldDriver(Rc::clone(&world)), 5);
    let listener = server
        .spawn(Echo {
            isolate: EchoIsolate::Listener(EchoListener::new(3)),
            closed: Rc::clone(&closed),
            refused: Rc::clone(&refused),
        })
        .unwrap();
    Setup { world, server, io, closed, refused, listener }
}

fn run(setup: &mut Setup) {
    for _ in 0..20 {
        setup.server.run_until_idle(&mut setup.io).unwrap();
        setup.io.step().unwrap();
    }
}

#[test]
fn a_connection_sends_back_what_it_received() {
    let mut setup = setup();
    setup.world.borrow_mut().incoming.push_back(Ok(11));
    setup.world.borrow_mut().bytes.push_back(Ok(b"hello".to_vec()));
    setup.world.borrow_mut().bytes.push_back(Ok(b"again".to_vec()));

    run(&mut setup);

    assert_eq!(
        setup.world.borrow().sent,
        vec![(11, b"hello".to_vec()), (11, b"again".to_vec())]
    );
    assert_eq!(setup.server.isolate_count(), 2);
    assert!(setup.closed.borrow().is_empty());
}

#[test]
fn a_connection_ends_with_its_peer_and_gives_its_descriptor_up() {
    let mut setup = setup();
    setup.world.borrow_mut().incoming.push_back(Ok(11));
    setup.world.borrow_mut().bytes.push_back(Ok(vec![]));

    run(&mut setup);

    assert_eq!(*setup.closed.borrow(), vec![11]);
    assert_eq!(setup.server.isolate_count(), 1);
}

#[test]
fn a_failed_receive_ends_the_connection() {
    let mut setup = setup();
    setup.world.borrow_mut().incoming.push_back(Ok(12));
    setup.world.borrow_mut().bytes.push_back(Err(IoError::DriverFull));

    run(&mut setup);

    assert_eq!(*setup.closed.borrow(), vec![12]);
    assert_eq!(setup.server.isolate_count(), 1);
}

#[test]
fn a_failed_send_ends_the_connection() {
    let mut setup = setup();
    setup.world.borrow_mut().incoming.push_back(Ok(13));
    setup.world.borrow_mut().bytes.push_back(Ok(vec![1]));
    setup.world.borrow_mut().fail_send = true;

    run(&mut setup);

    assert_eq!(*setup.closed.borrow(), vec![13]);
    assert_eq!(setup.server.isolate_count(), 1);
}

#[test]
fn a_listener_goes_on_after_a_failed_accept() {
    let mut setup = setup();
    setup.world.borrow_mut().incoming.push_back(Err(IoError::DriverFull));
    setup.world.borrow_mut().incoming.push_back(Ok(14));
    setup.world.borrow_mut().incoming.push_back(Ok(15));

    run(&mut setup);

    assert_eq!(setup.server.isolate_count(), 3);
    let accepting = setup
        .world
        .borrow()
        .pending
        .iter()
        .filter(|entry| matches!(entry.1, Operation::Accept(AcceptOp { listener: 3 })))
        .count();
    assert_eq!(accepting, 1);
}

#[test]
fn a_shut_down_listener_cancels_its_accept() {
    let mut setup = setup();
    run(&mut setup);
    setup.server.shutdown(setup.listener).unwrap();

    run(&mut setup);

    assert_eq!(setup.server.isolate_count(), 0);
    assert!(setup.closed.borrow().is_empty());
}

#[test]
fn a_result_of_the_wrong_kind_is_not_handled() {
    let mut setup = setup();
    setup.world.borrow_mut().incoming.push_back(Ok(16));
    setup.world.borrow_mut().mismatch = true;

    run(&mut setup);

    assert_eq!(setup.refused.get(), 1);
}

#[test]
fn a_connection_needs_two_completions() {
    let refused = Rc::new(Cell::new(0));
    let mut server = Server::new(1, 4, 2);
    let mut io = IoLoop::new(WorldDriver(Rc::new(RefCell::new(World::default()))), 1);
    server
        .spawn(Echo {
            isolate: EchoIsolate::Connection(EchoConnection::new(7)),
            closed: Rc::new(RefCell::new(Vec::new())),
            refused: Rc::clone(&refused),
        })
        .unwrap();

    assert_eq!(server.run_until_idle(&mut io), Ok(1));
    assert_eq!(refused.get(), 1);
}

#[test]
fn a_connection_gives_its_descriptor_up_once() {
    let mut connection = EchoConnection::new(9);

    assert_eq!(connection.fd(), 9);
    assert_eq!(connection.close(), Some(9));
    assert_eq!(connection.close(), None);
    assert_eq!(connection.fd, None);
}

#[test]
fn submissions_name_the_descriptor_and_the_completion() {
    let mut connection = EchoConnection::new(9);
    connection.recv = CompletionHandle { index: 1, generation: 0 };
    connection.send = CompletionHandle { index: 2, generation: 0 };
    let mut effects = TurnEffects::with_capacity(2);

    connection.submit_recv(&mut effects).unwrap();
    connection.submit_send(vec![5], &mut effects).unwrap();
    assert_eq!(
        connection.submit_recv(&mut effects),
        Err(RuntimeError::Effects(EffectsError::Full))
    );

    let mut list = Vec::new();
    effects.swap_effects(&mut list);
    assert!(matches!(
        &list[0],
        Effect::Submit { completion, op: Operation::Recv(RecvOp { fd: 9, buf, flags: 0 }) }
            if *completion == connection.recv && *buf == vec![0; 4096]
    ));
    assert!(matches!(
        &list[1],
        Effect::Submit { completion, op: Operation::Send(SendOp { fd: 9, buf, flags: 0 }) }
            if *completion == connection.send && *buf == vec![5]
    ));
}

#[test]
fn a_listener_asks_for_its_own_descriptor() {
    let listener = EchoListener::new(6);
    let mut effects = TurnEffects::with_capacity(1);

    listener.submit_accept(&mut effects).unwrap();
    assert_eq!(
        listener.submit_accept(&mut effects),
        Err(RuntimeError::Effects(EffectsError::Full))
    );

    let mut list = Vec::new();
    effects.swap_effects(&mut list);
    assert!(matches!(
        list[0],
        Effect::Submit { completion, op: Operation::Accept(AcceptOp { listener: 6 }) }
            if completion == CompletionHandle::invalid()
    ));
}
