//! An echo service: a listener that spawns a connection for each peer it accepts, and connections
//! that send back what they receive.
//!
//! Descriptors are opened and closed outside: a connection gives its descriptor up through
//! [`EchoConnection::close`].

use vstd::prelude::*;

use crate::completion::{CompletionHandle, CompletionOp, CompletionState};
use crate::effects::{Effect, EffectsError, EffectsState, RuntimeMessage, TurnEffects};
use crate::io::{AcceptOp, IoResult, Operation, RawFdLike, RecvOp, SendOp};
use crate::runtime::{ContextState, IoContext, RuntimeError};

verus! {

/// How many bytes a connection takes at a time.
pub const RECV_SIZE: usize = 4096;

pub struct EchoListener {
    pub listener: RawFdLike,
    pub accept: CompletionHandle,
}

pub struct EchoConnection {
    /// The descriptor, until the connection is closed.
    pub fd: Option<RawFdLike>,
    pub recv: CompletionHandle,
    pub send: CompletionHandle,
}

pub enum EchoIsolate {
    Listener(EchoListener),
    Connection(EchoConnection),
}

/// What an effect of an echo isolate asks for.
pub enum Request {
    Accept { completion: CompletionHandle, listener: RawFdLike },
    Recv { completion: CompletionHandle, fd: RawFdLike, buf: Seq<u8>, flags: i32 },
    Send { completion: CompletionHandle, fd: RawFdLike, bytes: Seq<u8>, flags: i32 },
    Timer { completion: CompletionHandle, ticks: u32 },
    Cancel { completion: CompletionHandle },
    Spawn { isolate: EchoIsolate },
    Destroy,
}

pub open spec fn request_of(effect: Effect<EchoIsolate>) -> Request {
    match effect {
        Effect::Submit { completion, op } => match op {
            Operation::Accept(op) => Request::Accept { completion, listener: op.listener },
            Operation::Recv(op) => Request::Recv {
                completion,
                fd: op.fd,
                buf: op.buf@,
                flags: op.flags,
            },
            Operation::Send(op) => Request::Send {
                completion,
                fd: op.fd,
                bytes: op.buf@,
                flags: op.flags,
            },
            Operation::Timer(op) => Request::Timer { completion, ticks: op.ticks },
        },
        Effect::Cancel { completion } => Request::Cancel { completion },
        Effect::Spawn(isolate) => Request::Spawn { isolate },
        Effect::DestroySelf => Request::Destroy,
    }
}

/// `post` and `outcome` are what asking for `wanted` in order gives: those that fit are taken, and
/// it fails if not all of them do.
pub open spec fn asked_for(
    pre: EffectsState<EchoIsolate>,
    wanted: Seq<Request>,
    post: EffectsState<EchoIsolate>,
    outcome: Result<(), RuntimeError>,
) -> bool {
    let room = pre.max_effects - pre.effects.len();
    let taken = if wanted.len() <= room {
        wanted.len() as int
    } else {
        room
    };
    &&& post.max_effects == pre.max_effects
    &&& post.effects.len() == pre.effects.len() + taken
    &&& pre.effects.is_prefix_of(post.effects)
    &&& forall|k: int|
        pre.effects.len() <= k < post.effects.len() ==> request_of(#[trigger] post.effects[k])
            == wanted[k - pre.effects.len()]
    &&& if taken == wanted.len() {
        outcome is Ok
    } else {
        outcome == Err::<(), _>(RuntimeError::Effects(EffectsError::Full))
    }
}

/// What a turn makes of an isolate, of its completions and of what it asks for.
#[verifier::ext_equal]
pub struct EchoTurn {
    pub isolate: EchoIsolate,
    pub io: ContextState,
    pub wanted: Seq<Request>,
}

/// The result that is there to be taken of `completion`, if any.
pub open spec fn result_of(io: ContextState, completion: CompletionHandle) -> Option<IoResult> {
    match io.completions.take_result(io.owner, completion) {
        Ok((_, value)) => Some(value),
        Err(_) => None,
    }
}

/// The context without the result of `completion`.
pub open spec fn taken(io: ContextState, completion: CompletionHandle) -> ContextState {
    io.apply(CompletionOp::TakeResult(io.owner, completion))
}

impl EchoListener {
    pub open spec fn accepting(self) -> Request {
        Request::Accept { completion: self.accept, listener: self.listener }
    }

    /// A completion can be had at the start, and a report on the accept says how an accept ended.
    pub open spec fn expects(self, io: ContextState, msg: RuntimeMessage) -> bool {
        match msg {
            RuntimeMessage::Init => !io.completions.full(),
            RuntimeMessage::IoCompleted(completion) => completion == self.accept ==> {
                ||| result_of(io, completion) matches Some(IoResult::Accept(_))
                ||| result_of(io, completion) == Some(IoResult::Cancelled)
            },
            RuntimeMessage::Shutdown => true,
        }
    }

    /// The turn that handles `msg`.
    pub open spec fn turn(self, io: ContextState, msg: RuntimeMessage) -> EchoTurn {
        match msg {
            RuntimeMessage::Init => {
                let started = EchoListener { accept: io.completions.next_handle(), ..self };
                EchoTurn {
                    isolate: EchoIsolate::Listener(started),
                    io: io.apply(CompletionOp::Acquire(io.owner)),
                    wanted: seq![started.accepting()],
                }
            },
            RuntimeMessage::IoCompleted(completion) => if completion == self.accept {
                EchoTurn {
                    isolate: EchoIsolate::Listener(self),
                    io: taken(io, completion),
                    wanted: match result_of(io, completion) {
                        Some(IoResult::Accept(Ok(fd))) => seq![
                            Request::Spawn {
                                isolate: EchoIsolate::Connection(EchoConnection::fresh(fd)),
                            },
                            self.accepting(),
                        ],
                        Some(IoResult::Accept(Err(_))) => seq![self.accepting()],
                        _ => Seq::empty(),
                    },
                }
            } else {
                EchoTurn { isolate: EchoIsolate::Listener(self), io, wanted: Seq::empty() }
            },
            RuntimeMessage::Shutdown => EchoTurn {
                isolate: EchoIsolate::Listener(self),
                io,
                wanted: seq![Request::Destroy],
            },
        }
    }

    pub fn new(listener: RawFdLike) -> (made: Self)
        ensures
            made.listener == listener,
            made.accept == crate::completion::invalid_handle(),
    {
        Self { listener, accept: CompletionHandle::invalid() }
    }

    fn handle(
        &mut self,
        msg: RuntimeMessage,
        io: &mut IoContext<'_>,
        effects: &mut TurnEffects<EchoIsolate>,
    ) -> (outcome: Result<(), RuntimeError>)
        requires
            old(io)@.completions.wf(),
            old(effects)@.bounded(),
            old(self).expects(old(io)@, msg),
        ensures
            old(io)@.turn(final(io)@),
            ({
                let turn = old(self).turn(old(io)@, msg);
                &&& EchoIsolate::Listener(*final(self)) == turn.isolate
                &&& final(io)@ == turn.io
                &&& asked_for(old(effects)@, turn.wanted, final(effects)@, outcome)
            }),
    {
        match msg {
            RuntimeMessage::Init => {
                if let Some(accept) = io.acquire() {
                    self.accept = accept;
                }
                self.submit_accept(effects)
            },
            RuntimeMessage::IoCompleted(completion) => {
                if completion != self.accept {
                    return Ok(());
                }
                match io.take_result(completion) {
                    Some(IoResult::Accept(Ok(fd))) => {
                        let ghost before = effects@;
                        let connection = EchoIsolate::Connection(EchoConnection::new(fd));
                        let ghost spawning = Request::Spawn { isolate: connection };
                        match effects.spawn(connection) {
                            Ok(()) => {
                                let ghost between = effects@;
                                let outcome = self.submit_accept(effects);
                                proof {
                                    lemma_asked_for_two(
                                        before,
                                        spawning,
                                        between,
                                        self.accepting(),
                                        effects@,
                                        outcome,
                                    );
                                }
                                outcome
                            },
                            Err(error) => Err(RuntimeError::from(error)),
                        }
                    },
                    Some(IoResult::Accept(Err(_))) => self.submit_accept(effects),
                    _ => Ok(()),
                }
            },
            RuntimeMessage::Shutdown => match effects.destroy_self() {
                Ok(()) => Ok(()),
                Err(error) => Err(RuntimeError::from(error)),
            },
        }
    }

    /// Asks for the next peer.
    pub fn submit_accept(&self, effects: &mut TurnEffects<EchoIsolate>) -> (outcome: Result<
        (),
        RuntimeError,
    >)
        requires
            old(effects)@.bounded(),
        ensures
            asked_for(old(effects)@, seq![self.accepting()], final(effects)@, outcome),
    {
        match effects.submit(
            self.accept,
            Operation::Accept(AcceptOp { listener: self.listener }),
        ) {
            Ok(()) => Ok(()),
            Err(error) => Err(RuntimeError::from(error)),
        }
    }
}

impl EchoConnection {
    /// A connection over `fd` that has not started.
    pub open spec fn fresh(fd: RawFdLike) -> Self {
        EchoConnection {
            fd: Some(fd),
            recv: crate::completion::invalid_handle(),
            send: crate::completion::invalid_handle(),
        }
    }

    pub open spec fn receiving(self) -> Request {
        Request::Recv {
            completion: self.recv,
            fd: self.fd->0,
            buf: Seq::new(RECV_SIZE as nat, |i: int| 0u8),
            flags: 0,
        }
    }

    pub open spec fn sending(self, bytes: Seq<u8>) -> Request {
        Request::Send { completion: self.send, fd: self.fd->0, bytes, flags: 0 }
    }

    /// Two completions can be had at the start, a report on an operation says how an operation of
    /// that kind ended, and the connection has its descriptor while it goes on.
    pub open spec fn expects(self, io: ContextState, msg: RuntimeMessage) -> bool {
        match msg {
            RuntimeMessage::Init => io.completions.free.len() >= 2 && self.fd is Some,
            RuntimeMessage::IoCompleted(completion) => if completion == self.recv {
                match result_of(io, completion) {
                    Some(IoResult::Recv(Ok(bytes))) => bytes@.len() > 0 ==> self.fd is Some,
                    Some(IoResult::Recv(Err(_))) => true,
                    Some(IoResult::Cancelled) => true,
                    _ => false,
                }
            } else if completion == self.send {
                match result_of(io, completion) {
                    Some(IoResult::Send(Ok(_))) => self.fd is Some,
                    Some(IoResult::Send(Err(_))) => true,
                    Some(IoResult::Cancelled) => true,
                    _ => false,
                }
            } else {
                true
            },
            RuntimeMessage::Shutdown => true,
        }
    }

    /// The turn that handles `msg`.
    pub open spec fn turn(self, io: ContextState, msg: RuntimeMessage) -> EchoTurn {
        match msg {
            RuntimeMessage::Init => {
                let once = io.apply(CompletionOp::Acquire(io.owner));
                let started = EchoConnection {
                    recv: io.completions.next_handle(),
                    send: once.completions.next_handle(),
                    ..self
                };
                EchoTurn {
                    isolate: EchoIsolate::Connection(started),
                    io: once.apply(CompletionOp::Acquire(io.owner)),
                    wanted: seq![started.receiving()],
                }
            },
            RuntimeMessage::IoCompleted(completion) => if completion == self.recv {
                EchoTurn {
                    isolate: EchoIsolate::Connection(self),
                    io: taken(io, completion),
                    wanted: match result_of(io, completion) {
                        Some(IoResult::Recv(Ok(bytes))) => if bytes@.len() == 0 {
                            seq![Request::Destroy]
                        } else {
                            seq![self.sending(bytes@)]
                        },
                        Some(IoResult::Recv(Err(_))) => seq![Request::Destroy],
                        _ => Seq::empty(),
                    },
                }
            } else if completion == self.send {
                EchoTurn {
                    isolate: EchoIsolate::Connection(self),
                    io: taken(io, completion),
                    wanted: match result_of(io, completion) {
                        Some(IoResult::Send(Ok(_))) => seq![self.receiving()],
                        Some(IoResult::Send(Err(_))) => seq![Request::Destroy],
                        _ => Seq::empty(),
                    },
                }
            } else {
                EchoTurn { isolate: EchoIsolate::Connection(self), io, wanted: Seq::empty() }
            },
            RuntimeMessage::Shutdown => EchoTurn {
                isolate: EchoIsolate::Connection(self),
                io,
                wanted: seq![Request::Destroy],
            },
        }
    }

    pub fn new(fd: RawFdLike) -> (made: Self)
        ensures
            made == EchoConnection::fresh(fd),
    {
        Self { fd: Some(fd), recv: CompletionHandle::invalid(), send: CompletionHandle::invalid() }
    }

    /// The descriptor of a connection that is not closed.
    pub fn fd(&self) -> (fd: RawFdLike)
        requires
            self.fd is Some,
        ensures
            self.fd == Some(fd),
    {
        self.fd.unwrap()
    }

    fn handle(
        &mut self,
        msg: RuntimeMessage,
        io: &mut IoContext<'_>,
        effects: &mut TurnEffects<EchoIsolate>,
    ) -> (outcome: Result<(), RuntimeError>)
        requires
            old(io)@.completions.wf(),
            old(effects)@.bounded(),
            old(self).expects(old(io)@, msg),
        ensures
            old(io)@.turn(final(io)@),
            ({
                let turn = old(self).turn(old(io)@, msg);
                &&& EchoIsolate::Connection(*final(self)) == turn.isolate
                &&& final(io)@ == turn.io
                &&& asked_for(old(effects)@, turn.wanted, final(effects)@, outcome)
            }),
    {
        match msg {
            RuntimeMessage::Init => {
                if let Some(recv) = io.acquire() {
                    self.recv = recv;
                }
                if let Some(send) = io.acquire() {
                    self.send = send;
                }
                self.submit_recv(effects)
            },
            RuntimeMessage::IoCompleted(completion) => {
                if completion == self.recv {
                    match io.take_result(completion) {
                        Some(IoResult::Recv(Ok(bytes))) => {
                            if bytes.len() == 0 {
                                Self::give_up(effects)
                            } else {
                                self.submit_send(bytes, effects)
                            }
                        },
                        Some(IoResult::Recv(Err(_))) => Self::give_up(effects),
                        _ => Ok(()),
                    }
                } else if completion == self.send {
                    match io.take_result(completion) {
                        Some(IoResult::Send(Ok(_))) => self.submit_recv(effects),
                        Some(IoResult::Send(Err(_))) => Self::give_up(effects),
                        _ => Ok(()),
                    }
                } else {
                    Ok(())
                }
            },
            RuntimeMessage::Shutdown => Self::give_up(effects),
        }
    }

    /// Asks for the end of the connection.
    fn give_up(effects: &mut TurnEffects<EchoIsolate>) -> (outcome: Result<(), RuntimeError>)
        requires
            old(effects)@.bounded(),
        ensures
            asked_for(old(effects)@, seq![Request::Destroy], final(effects)@, outcome),
    {
        match effects.destroy_self() {
            Ok(()) => Ok(()),
            Err(error) => Err(RuntimeError::from(error)),
        }
    }

    /// Asks for bytes from the peer.
    pub fn submit_recv(&self, effects: &mut TurnEffects<EchoIsolate>) -> (outcome: Result<
        (),
        RuntimeError,
    >)
        requires
            old(effects)@.bounded(),
            self.fd is Some,
        ensures
            asked_for(old(effects)@, seq![self.receiving()], final(effects)@, outcome),
    {
        let buf: Vec<u8> = vec![0u8; RECV_SIZE];
        assert(buf@ =~= Seq::new(RECV_SIZE as nat, |i: int| 0u8));
        match effects.submit(
            self.recv,
            Operation::Recv(RecvOp { fd: self.fd(), buf, flags: 0 }),
        ) {
            Ok(()) => Ok(()),
            Err(error) => Err(RuntimeError::from(error)),
        }
    }

    /// Asks for `buf` to be sent to the peer.
    pub fn submit_send(&self, buf: Vec<u8>, effects: &mut TurnEffects<EchoIsolate>) -> (outcome:
        Result<(), RuntimeError>)
        requires
            old(effects)@.bounded(),
            self.fd is Some,
        ensures
            asked_for(old(effects)@, seq![self.sending(buf@)], final(effects)@, outcome),
    {
        match effects.submit(
            self.send,
            Operation::Send(SendOp { fd: self.fd(), buf, flags: 0 }),
        ) {
            Ok(()) => Ok(()),
            Err(error) => Err(RuntimeError::from(error)),
        }
    }

    /// Gives the descriptor up, to be closed. A connection has one only until then.
    pub fn close(&mut self) -> (to_close: Option<RawFdLike>)
        ensures
            to_close == old(self).fd,
            *final(self) == (EchoConnection { fd: None, ..*old(self) }),
    {
        self.fd.take()
    }
}

impl EchoIsolate {
    /// The message is one that the isolate can handle.
    pub open spec fn expects(self, io: ContextState, msg: RuntimeMessage) -> bool {
        match self {
            EchoIsolate::Listener(listener) => listener.expects(io, msg),
            EchoIsolate::Connection(connection) => connection.expects(io, msg),
        }
    }

    /// The turn that handles `msg`.
    pub open spec fn turn(self, io: ContextState, msg: RuntimeMessage) -> EchoTurn {
        match self {
            EchoIsolate::Listener(listener) => listener.turn(io, msg),
            EchoIsolate::Connection(connection) => connection.turn(io, msg),
        }
    }

    /// The last turn: what is left of the isolate, and the cancellations that it asks for.
    pub open spec fn last_turn(self, io: ContextState) -> EchoTurn {
        match self {
            EchoIsolate::Listener(listener) => EchoTurn {
                isolate: self,
                io,
                wanted: seq![Request::Cancel { completion: listener.accept }],
            },
            EchoIsolate::Connection(connection) => EchoTurn {
                isolate: EchoIsolate::Connection(EchoConnection { fd: None, ..connection }),
                io,
                wanted: seq![
                    Request::Cancel { completion: connection.recv },
                    Request::Cancel { completion: connection.send },
                ],
            },
        }
    }

    /// The descriptor that the isolate has to close, if any.
    pub open spec fn owned_fd(self) -> Option<RawFdLike> {
        match self {
            EchoIsolate::Listener(_) => None,
            EchoIsolate::Connection(connection) => connection.fd,
        }
    }

    /// Whether the isolate can handle `msg`.
    pub fn can_handle(&self, msg: RuntimeMessage, io: &IoContext<'_>) -> (result: bool)
        requires
            io@.completions.wf(),
        ensures
            result == self.expects(io@, msg),
    {
        match self {
            EchoIsolate::Listener(listener) => match msg {
                RuntimeMessage::Init => io.available() > 0,
                RuntimeMessage::IoCompleted(completion) => {
                    if completion == listener.accept {
                        match io.peek_result(completion) {
                            Some(IoResult::Accept(_)) => true,
                            Some(IoResult::Cancelled) => true,
                            _ => false,
                        }
                    } else {
                        true
                    }
                },
                RuntimeMessage::Shutdown => true,
            },
            EchoIsolate::Connection(connection) => match msg {
                RuntimeMessage::Init => io.available() >= 2 && connection.fd.is_some(),
                RuntimeMessage::IoCompleted(completion) => {
                    if completion == connection.recv {
                        match io.peek_result(completion) {
                            Some(IoResult::Recv(Ok(bytes))) => bytes.len() == 0
                                || connection.fd.is_some(),
                            Some(IoResult::Recv(Err(_))) => true,
                            Some(IoResult::Cancelled) => true,
                            _ => false,
                        }
                    } else if completion == connection.send {
                        match io.peek_result(completion) {
                            Some(IoResult::Send(Ok(_))) => connection.fd.is_some(),
                            Some(IoResult::Send(Err(_))) => true,
                            Some(IoResult::Cancelled) => true,
                            _ => false,
                        }
                    } else {
                        true
                    }
                },
                RuntimeMessage::Shutdown => true,
            },
        }
    }

    /// Handles a message.
    pub fn handle(
        &mut self,
        msg: RuntimeMessage,
        io: &mut IoContext<'_>,
        effects: &mut TurnEffects<EchoIsolate>,
    ) -> (outcome: Result<(), RuntimeError>)
        requires
            old(io)@.completions.wf(),
            old(effects)@.bounded(),
            old(self).expects(old(io)@, msg),
        ensures
            old(io)@.turn(final(io)@),
            ({
                let turn = old(self).turn(old(io)@, msg);
                &&& *final(self) == turn.isolate
                &&& final(io)@ == turn.io
                &&& asked_for(old(effects)@, turn.wanted, final(effects)@, outcome)
            }),
    {
        match self {
            EchoIsolate::Listener(listener) => listener.handle(msg, io, effects),
            EchoIsolate::Connection(connection) => connection.handle(msg, io, effects),
        }
    }

    /// The last turn of an isolate. Returns the descriptor to close, if there is one.
    pub fn destroy(
        &mut self,
        _io: &mut IoContext<'_>,
        effects: &mut TurnEffects<EchoIsolate>,
    ) -> (result: (Option<RawFdLike>, Result<(), RuntimeError>))
        requires
            old(effects)@.bounded(),
        ensures
            result.0 == old(self).owned_fd(),
            ({
                let turn = old(self).last_turn(old(_io)@);
                &&& *final(self) == turn.isolate
                &&& final(_io)@ == turn.io
                &&& asked_for(old(effects)@, turn.wanted, final(effects)@, result.1)
            }),
    {
        match self {
            EchoIsolate::Listener(listener) => {
                match effects.cancel(listener.accept) {
                    Ok(()) => (None, Ok(())),
                    Err(error) => (None, Err(RuntimeError::from(error))),
                }
            },
            EchoIsolate::Connection(connection) => {
                let to_close = connection.close();
                if let Err(error) = effects.cancel(connection.recv) {
                    return (to_close, Err(RuntimeError::from(error)));
                }
                match effects.cancel(connection.send) {
                    Ok(()) => (to_close, Ok(())),
                    Err(error) => (to_close, Err(RuntimeError::from(error))),
                }
            },
        }
    }
}

/// Asking for one thing and then for another is asking for both.
proof fn lemma_asked_for_two(
    pre: EffectsState<EchoIsolate>,
    first: Request,
    mid: EffectsState<EchoIsolate>,
    second: Request,
    post: EffectsState<EchoIsolate>,
    outcome: Result<(), RuntimeError>,
)
    requires
        pre.effects.len() < pre.max_effects,
        asked_for(pre, seq![first], mid, Ok(())),
        asked_for(mid, seq![second], post, outcome),
    ensures
        asked_for(pre, seq![first, second], post, outcome),
{
    assert forall|k: int| pre.effects.len() <= k < post.effects.len() implies request_of(
        #[trigger] post.effects[k],
    ) == seq![first, second][k - pre.effects.len()] by {
        if k < mid.effects.len() {
            assert(post.effects[k] == mid.effects[k]);
        }
    }
}

/// A connection sends back what it received, all of it and nothing else, over its own descriptor.
pub proof fn law_connection_sends_back_what_it_received(
    connection: EchoConnection,
    io: ContextState,
    bytes: Vec<u8>,
)
    requires
        result_of(io, connection.recv) == Some(IoResult::Recv(Ok(bytes))),
        bytes@.len() > 0,
    ensures
        connection.turn(io, RuntimeMessage::IoCompleted(connection.recv)).wanted == seq![
            Request::Send {
                completion: connection.send,
                fd: connection.fd->0,
                bytes: bytes@,
                flags: 0,
            },
        ],
{
}

/// Once its bytes are sent, a connection receives again.
pub proof fn law_connection_receives_again_after_sending(
    connection: EchoConnection,
    io: ContextState,
    sent: usize,
)
    requires
        connection.send != connection.recv,
        result_of(io, connection.send) == Some(IoResult::Send(Ok(sent))),
    ensures
        connection.turn(io, RuntimeMessage::IoCompleted(connection.send)).wanted == seq![
            connection.receiving(),
        ],
{
}

/// A connection ends when the peer has nothing more to say or when an operation fails.
pub proof fn law_connection_ends_with_its_peer(connection: EchoConnection, io: ContextState)
    ensures
        result_of(io, connection.recv) matches Some(IoResult::Recv(outcome)) && (outcome matches Ok(
            bytes,
        ) ==> bytes@.len() == 0) ==> connection.turn(
            io,
            RuntimeMessage::IoCompleted(connection.recv),
        ).wanted == seq![Request::Destroy],
        connection.send != connection.recv && (result_of(io, connection.send) matches Some(
            IoResult::Send(Err(_)),
        )) ==> connection.turn(io, RuntimeMessage::IoCompleted(connection.send)).wanted == seq![
            Request::Destroy,
        ],
{
}

/// A listener goes on accepting, whether an accept succeeded or failed, and each peer gets a
/// connection of its own.
pub proof fn law_listener_goes_on_accepting(listener: EchoListener, io: ContextState)
    requires
        result_of(io, listener.accept) matches Some(IoResult::Accept(_)),
    ensures
        ({
            let turn = listener.turn(io, RuntimeMessage::IoCompleted(listener.accept));
            &&& turn.wanted.last() == listener.accepting()
            &&& result_of(io, listener.accept) matches Some(IoResult::Accept(Ok(fd)))
                ==> turn.wanted.first() == (Request::Spawn {
                isolate: EchoIsolate::Connection(EchoConnection::fresh(fd)),
            })
        }),
{
}

/// No turn asks for more than two things, so a list of two effects is never too short.
pub proof fn law_turns_ask_for_two_things_at_most(
    isolate: EchoIsolate,
    io: ContextState,
    msg: RuntimeMessage,
    pre: EffectsState<EchoIsolate>,
    post: EffectsState<EchoIsolate>,
    outcome: Result<(), RuntimeError>,
)
    requires
        pre.effects.len() == 0,
        pre.max_effects >= 2,
    ensures
        isolate.turn(io, msg).wanted.len() <= 2,
        isolate.last_turn(io).wanted.len() <= 2,
        asked_for(pre, isolate.turn(io, msg).wanted, post, outcome) ==> outcome is Ok,
        asked_for(pre, isolate.last_turn(io).wanted, post, outcome) ==> outcome is Ok,
{
}

/// A connection starts with two different completions, both its own and idle, and asks for bytes on
/// the first of them.
pub proof fn law_connection_starts_with_completions_of_its_own(
    connection: EchoConnection,
    io: ContextState,
)
    requires
        io.completions.wf(),
        io.completions.free.len() >= 2,
    ensures
        ({
            let turn = connection.turn(io, RuntimeMessage::Init);
            turn.isolate matches EchoIsolate::Connection(started) && {
                &&& started.recv != started.send
                &&& turn.io.completions.live(started.recv)
                &&& turn.io.completions.live(started.send)
                &&& turn.io.completions.owner_of(started.recv) == io.owner
                &&& turn.io.completions.owner_of(started.send) == io.owner
                &&& turn.io.completions.status(started.recv) == CompletionState::Idle
                &&& turn.io.completions.status(started.send) == CompletionState::Idle
                &&& turn.wanted == seq![started.receiving()]
            }
        }),
{
}

/// `result` waits in `completion` for the isolate that `io` belongs to.
pub open spec fn holds_result(
    io: ContextState,
    completion: CompletionHandle,
    result: IoResult,
) -> bool {
    let index = completion.index as int;
    &&& index < io.completions.slots.len()
    &&& io.completions.slots[index].generation == completion.generation
    &&& io.completions.slots[index].owner == Some(io.owner)
    &&& io.completions.slots[index].state == Some(CompletionState::Ready)
    &&& io.completions.slots[index].result == Some(result)
}

/// `post` is `pre` but for `completion`, whose result has been taken, so that it is idle again.
pub open spec fn only_takes(
    pre: ContextState,
    completion: CompletionHandle,
    post: ContextState,
) -> bool {
    let index = completion.index as int;
    &&& post.owner == pre.owner
    &&& post.completions.free == pre.completions.free
    &&& post.completions.len == pre.completions.len
    &&& post.completions.slots.len() == pre.completions.slots.len()
    &&& post.completions.slots[index].generation == pre.completions.slots[index].generation
    &&& post.completions.slots[index].owner == pre.completions.slots[index].owner
    &&& post.completions.slots[index].state == Some(CompletionState::Idle)
    &&& post.completions.slots[index].result is None
    &&& forall|i: int|
        0 <= i < pre.completions.slots.len() && i != index ==> (
        #[trigger] post.completions.slots[i]) == pre.completions.slots[i]
}

/// `effect` asks for bytes from the peer, into a buffer of 4096 zeros.
pub open spec fn asks_to_receive(
    effect: Effect<EchoIsolate>,
    completion: CompletionHandle,
    fd: RawFdLike,
) -> bool {
    effect matches Effect::Submit { completion: named, op: Operation::Recv(op) } && {
        &&& named == completion
        &&& op.fd == fd
        &&& op.flags == 0
        &&& op.buf@.len() == 4096
        &&& forall|i: int| 0 <= i < 4096 ==> (#[trigger] op.buf@[i]) == 0
    }
}

/// `effect` asks for `bytes` to be sent to the peer.
pub open spec fn asks_to_send(
    effect: Effect<EchoIsolate>,
    completion: CompletionHandle,
    fd: RawFdLike,
    bytes: Seq<u8>,
) -> bool {
    effect matches Effect::Submit { completion: named, op: Operation::Send(op) } && {
        &&& named == completion
        &&& op.fd == fd
        &&& op.flags == 0
        &&& op.buf@ == bytes
    }
}

/// `effect` asks for the next peer of `listener`.
pub open spec fn asks_to_accept(
    effect: Effect<EchoIsolate>,
    completion: CompletionHandle,
    listener: RawFdLike,
) -> bool {
    effect matches Effect::Submit { completion: named, op: Operation::Accept(op) } && {
        &&& named == completion
        &&& op.listener == listener
    }
}

/// Every echo isolate, whatever it is and whatever its completions are doing, answers a shutdown by
/// asking for its own destruction, and for nothing else.
pub proof fn law_shutdown_ends_every_isolate(
    isolate: EchoIsolate,
    io: ContextState,
    pre: EffectsState<EchoIsolate>,
    post: EffectsState<EchoIsolate>,
    outcome: Result<(), RuntimeError>,
)
    requires
        pre.effects.len() < pre.max_effects,
        asked_for(pre, isolate.turn(io, RuntimeMessage::Shutdown).wanted, post, outcome),
    ensures
        isolate.expects(io, RuntimeMessage::Shutdown),
        isolate.turn(io, RuntimeMessage::Shutdown).isolate == isolate,
        isolate.turn(io, RuntimeMessage::Shutdown).io == io,
        outcome is Ok,
        post.effects.len() == pre.effects.len() + 1,
        pre.effects.is_prefix_of(post.effects),
        post.effects.last() is DestroySelf,
{
    let last = post.effects.len() - 1;
    assert(request_of(post.effects[last]) is Destroy);
}

/// A report on a completion that is not its own concern leaves an isolate as it is: it asks for
/// nothing and takes no result.
pub proof fn law_foreign_reports_are_ignored(
    isolate: EchoIsolate,
    io: ContextState,
    completion: CompletionHandle,
    pre: EffectsState<EchoIsolate>,
    post: EffectsState<EchoIsolate>,
    outcome: Result<(), RuntimeError>,
)
    requires
        pre.bounded(),
        match isolate {
            EchoIsolate::Listener(listener) => completion != listener.accept,
            EchoIsolate::Connection(connection) => {
                completion != connection.recv && completion != connection.send
            },
        },
        asked_for(
            pre,
            isolate.turn(io, RuntimeMessage::IoCompleted(completion)).wanted,
            post,
            outcome,
        ),
    ensures
        isolate.expects(io, RuntimeMessage::IoCompleted(completion)),
        isolate.turn(io, RuntimeMessage::IoCompleted(completion)).isolate == isolate,
        isolate.turn(io, RuntimeMessage::IoCompleted(completion)).io == io,
        outcome is Ok,
        post.effects == pre.effects,
{
    assert(post.effects =~= pre.effects);
}

/// A connection starts by getting two idle completions of its own, and by asking for bytes from its
/// peer under the first of them. Its descriptor is the one it was made with.
pub proof fn law_connection_starts_receiving(
    connection: EchoConnection,
    io: ContextState,
    pre: EffectsState<EchoIsolate>,
    post: EffectsState<EchoIsolate>,
    outcome: Result<(), RuntimeError>,
)
    requires
        io.completions.wf(),
        io.completions.free.len() >= 2,
        connection.fd is Some,
        pre.effects.len() == 0,
        pre.max_effects >= 1,
        asked_for(
            pre,
            EchoIsolate::Connection(connection).turn(io, RuntimeMessage::Init).wanted,
            post,
            outcome,
        ),
    ensures
        EchoIsolate::Connection(connection).expects(io, RuntimeMessage::Init),
        ({
            let turn = EchoIsolate::Connection(connection).turn(io, RuntimeMessage::Init);
            &&& outcome is Ok
            &&& turn.isolate matches EchoIsolate::Connection(started) && {
                &&& started.fd == connection.fd
                &&& started.recv.index != started.send.index
                &&& is_idle_completion_of(turn.io, started.recv)
                &&& is_idle_completion_of(turn.io, started.send)
                &&& io.completions.slots[started.recv.index as int].owner is None
                &&& io.completions.slots[started.send.index as int].owner is None
                &&& post.effects.len() == 1
                &&& asks_to_receive(post.effects[0], started.recv, connection.fd->0)
                &&& forall|i: int|
                    0 <= i < io.completions.slots.len() && i != started.recv.index && i
                        != started.send.index ==> (#[trigger] turn.io.completions.slots[i])
                        == io.completions.slots[i]
            }
            &&& turn.io.owner == io.owner
        }),
{
    assert(request_of(post.effects[0]) is Recv);
    let index = io.completions.free.last();
    let next = io.completions.free.drop_last().last();
    assert(io.completions.free[io.completions.free.len() - 1] == index);
    assert(io.completions.free[io.completions.free.len() - 2] == next);
    assert(io.completions.slots[index as int].wf());
    assert(io.completions.slots[next as int].wf());
}

/// `completion` is an idle one of the isolate that `io` belongs to.
pub open spec fn is_idle_completion_of(io: ContextState, completion: CompletionHandle) -> bool {
    let index = completion.index as int;
    &&& index < io.completions.slots.len()
    &&& io.completions.slots[index].generation == completion.generation
    &&& io.completions.slots[index].owner == Some(io.owner)
    &&& io.completions.slots[index].state == Some(CompletionState::Idle)
}

/// A connection goes by what it is told of its receive: bytes are sent back, all of them and nothing
/// else, over its own descriptor; an end or a failure is the end of the connection; and a
/// cancellation asks for nothing. The result is taken either way, and the connection is as it was.
pub proof fn law_connection_answers_its_receive(
    connection: EchoConnection,
    io: ContextState,
    result: IoResult,
    pre: EffectsState<EchoIsolate>,
    post: EffectsState<EchoIsolate>,
    outcome: Result<(), RuntimeError>,
)
    requires
        holds_result(io, connection.recv, result),
        result is Recv || result is Cancelled,
        connection.fd is Some,
        pre.effects.len() == 0,
        pre.max_effects >= 1,
        asked_for(
            pre,
            EchoIsolate::Connection(connection).turn(
                io,
                RuntimeMessage::IoCompleted(connection.recv),
            ).wanted,
            post,
            outcome,
        ),
    ensures
        ({
            let isolate = EchoIsolate::Connection(connection);
            let msg = RuntimeMessage::IoCompleted(connection.recv);
            &&& isolate.expects(io, msg)
            &&& isolate.turn(io, msg).isolate == isolate
            &&& only_takes(io, connection.recv, isolate.turn(io, msg).io)
        }),
        outcome is Ok,
        match result {
            IoResult::Recv(Ok(bytes)) => {
                &&& post.effects.len() == 1
                &&& if bytes@.len() == 0 {
                    post.effects[0] is DestroySelf
                } else {
                    asks_to_send(post.effects[0], connection.send, connection.fd->0, bytes@)
                }
            },
            IoResult::Recv(Err(_)) => post.effects.len() == 1 && post.effects[0] is DestroySelf,
            _ => post.effects.len() == 0,
        },
{
    if post.effects.len() > 0 {
        assert(request_of(post.effects[0]) == EchoIsolate::Connection(connection).turn(
            io,
            RuntimeMessage::IoCompleted(connection.recv),
        ).wanted[0]);
    }
}

/// A connection goes by what it is told of its send: once the bytes are sent it receives again, a
/// failure is the end of the connection, and a cancellation asks for nothing. The result is taken
/// either way, and the connection is as it was.
pub proof fn law_connection_answers_its_send(
    connection: EchoConnection,
    io: ContextState,
    result: IoResult,
    pre: EffectsState<EchoIsolate>,
    post: EffectsState<EchoIsolate>,
    outcome: Result<(), RuntimeError>,
)
    requires
        holds_result(io, connection.send, result),
        connection.send != connection.recv,
        result is Send || result is Cancelled,
        connection.fd is Some,
        pre.effects.len() == 0,
        pre.max_effects >= 1,
        asked_for(
            pre,
            EchoIsolate::Connection(connection).turn(
                io,
                RuntimeMessage::IoCompleted(connection.send),
            ).wanted,
            post,
            outcome,
        ),
    ensures
        ({
            let isolate = EchoIsolate::Connection(connection);
            let msg = RuntimeMessage::IoCompleted(connection.send);
            &&& isolate.expects(io, msg)
            &&& isolate.turn(io, msg).isolate == isolate
            &&& only_takes(io, connection.send, isolate.turn(io, msg).io)
        }),
        outcome is Ok,
        match result {
            IoResult::Send(Ok(_)) => {
                &&& post.effects.len() == 1
                &&& asks_to_receive(post.effects[0], connection.recv, connection.fd->0)
            },
            IoResult::Send(Err(_)) => post.effects.len() == 1 && post.effects[0] is DestroySelf,
            _ => post.effects.len() == 0,
        },
{
    if post.effects.len() > 0 {
        assert(request_of(post.effects[0]) == EchoIsolate::Connection(connection).turn(
            io,
            RuntimeMessage::IoCompleted(connection.send),
        ).wanted[0]);
    }
}

/// A listener starts by getting an idle completion of its own, and by asking for the first peer
/// under it.
pub proof fn law_listener_starts_accepting(
    listener: EchoListener,
    io: ContextState,
    pre: EffectsState<EchoIsolate>,
    post: EffectsState<EchoIsolate>,
    outcome: Result<(), RuntimeError>,
)
    requires
        io.completions.wf(),
        io.completions.free.len() >= 1,
        pre.effects.len() == 0,
        pre.max_effects >= 1,
        asked_for(
            pre,
            EchoIsolate::Listener(listener).turn(io, RuntimeMessage::Init).wanted,
            post,
            outcome,
        ),
    ensures
        EchoIsolate::Listener(listener).expects(io, RuntimeMessage::Init),
        ({
            let turn = EchoIsolate::Listener(listener).turn(io, RuntimeMessage::Init);
            &&& outcome is Ok
            &&& turn.isolate matches EchoIsolate::Listener(started) && {
                &&& started.listener == listener.listener
                &&& is_idle_completion_of(turn.io, started.accept)
                &&& io.completions.slots[started.accept.index as int].owner is None
                &&& post.effects.len() == 1
                &&& asks_to_accept(post.effects[0], started.accept, listener.listener)
                &&& forall|i: int|
                    0 <= i < io.completions.slots.len() && i != started.accept.index ==> (
                    #[trigger] turn.io.completions.slots[i]) == io.completions.slots[i]
            }
            &&& turn.io.owner == io.owner
        }),
{
    assert(request_of(post.effects[0]) is Accept);
    let index = io.completions.free.last();
    assert(io.completions.free[io.completions.free.len() - 1] == index);
    assert(io.completions.slots[index as int].wf());
}

/// A listener goes by what it is told of its accept: a peer gets a connection of its own, over the
/// descriptor that was accepted, and the listener asks for the next one; after a failure it asks for
/// the next one too; and a cancellation asks for nothing. The result is taken either way, and the
/// listener is as it was.
pub proof fn law_listener_answers_its_accept(
    listener: EchoListener,
    io: ContextState,
    result: IoResult,
    pre: EffectsState<EchoIsolate>,
    post: EffectsState<EchoIsolate>,
    outcome: Result<(), RuntimeError>,
)
    requires
        holds_result(io, listener.accept, result),
        result is Accept || result is Cancelled,
        pre.effects.len() == 0,
        pre.max_effects >= 2,
        asked_for(
            pre,
            EchoIsolate::Listener(listener).turn(
                io,
                RuntimeMessage::IoCompleted(listener.accept),
            ).wanted,
            post,
            outcome,
        ),
    ensures
        ({
            let isolate = EchoIsolate::Listener(listener);
            let msg = RuntimeMessage::IoCompleted(listener.accept);
            &&& isolate.expects(io, msg)
            &&& isolate.turn(io, msg).isolate == isolate
            &&& only_takes(io, listener.accept, isolate.turn(io, msg).io)
        }),
        outcome is Ok,
        match result {
            IoResult::Accept(Ok(fd)) => {
                &&& post.effects.len() == 2
                &&& post.effects[0] matches Effect::Spawn(EchoIsolate::Connection(connection)) && {
                    &&& connection.fd == Some(fd)
                    &&& connection.recv.index == u32::MAX
                    &&& connection.recv.generation == u32::MAX
                    &&& connection.send == connection.recv
                }
                &&& asks_to_accept(post.effects[1], listener.accept, listener.listener)
            },
            IoResult::Accept(Err(_)) => {
                &&& post.effects.len() == 1
                &&& asks_to_accept(post.effects[0], listener.accept, listener.listener)
            },
            _ => post.effects.len() == 0,
        },
{
    let wanted = EchoIsolate::Listener(listener).turn(
        io,
        RuntimeMessage::IoCompleted(listener.accept),
    ).wanted;
    if post.effects.len() > 0 {
        assert(request_of(post.effects[0]) == wanted[0]);
    }
    if post.effects.len() > 1 {
        assert(request_of(post.effects[1]) == wanted[1]);
    }
}

/// The last turn of an isolate asks for the cancellation of all its operations, and for nothing
/// else. A connection gives its descriptor up, to be closed; a listener has none to close.
pub proof fn law_last_turn_cancels_everything(
    isolate: EchoIsolate,
    io: ContextState,
    pre: EffectsState<EchoIsolate>,
    post: EffectsState<EchoIsolate>,
    outcome: Result<(), RuntimeError>,
)
    requires
        pre.effects.len() == 0,
        pre.max_effects >= 2,
        asked_for(pre, isolate.last_turn(io).wanted, post, outcome),
    ensures
        outcome is Ok,
        isolate.last_turn(io).io == io,
        match isolate {
            EchoIsolate::Listener(listener) => {
                &&& isolate.last_turn(io).isolate == isolate
                &&& isolate.owned_fd() is None
                &&& post.effects.len() == 1
                &&& post.effects[0] matches Effect::Cancel { completion } && completion
                    == listener.accept
            },
            EchoIsolate::Connection(connection) => {
                &&& isolate.last_turn(io).isolate matches EchoIsolate::Connection(left) && {
                    &&& left.fd is None
                    &&& left.recv == connection.recv
                    &&& left.send == connection.send
                }
                &&& isolate.owned_fd() == connection.fd
                &&& post.effects.len() == 2
                &&& post.effects[0] matches Effect::Cancel { completion } && completion
                    == connection.recv
                &&& post.effects[1] matches Effect::Cancel { completion } && completion
                    == connection.send
            },
        },
{
    let wanted = isolate.last_turn(io).wanted;
    if post.effects.len() > 0 {
        assert(request_of(post.effects[0]) == wanted[0]);
    }
    if post.effects.len() > 1 {
        assert(request_of(post.effects[1]) == wanted[1]);
    }
}

/// An isolate that asks for more than its list of effects takes is told so, and what fits is on the
/// list, in the order in which it was asked for.
pub proof fn law_requests_beyond_the_list_are_refused(
    pre: EffectsState<EchoIsolate>,
    wanted: Seq<Request>,
    post: EffectsState<EchoIsolate>,
    outcome: Result<(), RuntimeError>,
)
    requires
        pre.bounded(),
        asked_for(pre, wanted, post, outcome),
    ensures
        post.bounded(),
        pre.effects.is_prefix_of(post.effects),
        outcome is Ok <==> pre.effects.len() + wanted.len() <= pre.max_effects,
        outcome is Ok ==> post.effects.len() == pre.effects.len() + wanted.len(),
        outcome matches Err(error) ==> post.effects.len() == pre.max_effects && error
            == RuntimeError::Effects(EffectsError::Full),
{
}

} // verus!
