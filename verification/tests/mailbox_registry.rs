use std::collections::VecDeque;

use command_io::arena::Handle;
use command_io::mailbox::{
    Envelope, GroupPolicy, OpToken, RuntimeError, RuntimeMessage, Wait, WaitBackend, WaitRegistry,
};

/// A backend that notes what is cancelled.
#[derive(Default)]
struct Recorder {
    cancelled: Vec<OpToken>,
}

impl WaitBackend for Recorder {
    fn submit(&mut self, _token: OpToken, _wait: Wait) -> Result<(), RuntimeError> {
        Ok(())
    }

    fn cancel(&mut self, token: OpToken) {
        self.cancelled.push(token);
    }

    fn poll(&mut self, _ready: &mut Vec<OpToken>) -> Result<bool, RuntimeError> {
        Ok(false)
    }

    fn has_pending(&self) -> bool {
        false
    }

    fn can_submit(&self, _additional: usize) -> bool {
        true
    }
}

fn isolate(index: u32) -> Handle {
    Handle { index, generation: 0 }
}

fn user(message: char) -> Option<RuntimeMessage<char>> {
    Some(RuntimeMessage::User(message))
}

fn report(target: Handle, message: char, token: u32) -> Envelope<char> {
    Envelope { target, message: RuntimeMessage::User(message), token: Some(OpToken(token)) }
}

fn deliver(
    registry: &mut WaitRegistry<char>,
    tokens: Vec<OpToken>,
    backend: &mut Recorder,
) -> Vec<Envelope<char>> {
    let mut queue = VecDeque::new();
    registry.enqueue_ready(&tokens);
    registry.pump(&mut queue, 100, backend);
    queue.into_iter().collect()
}

#[test]
fn a_wait_reports_once_under_its_token() {
    let mut registry = WaitRegistry::new();
    let mut backend = Recorder::default();
    registry.register(OpToken(4), isolate(1), user('a'), None);
    assert!(!registry.is_empty());

    assert_eq!(
        deliver(&mut registry, vec![OpToken(4), OpToken(4)], &mut backend),
        vec![report(isolate(1), 'a', 4)]
    );
    assert!(registry.is_empty());
    assert!(backend.cancelled.is_empty());
}

#[test]
fn unknown_tokens_report_nothing() {
    let mut registry = WaitRegistry::new();
    let mut backend = Recorder::default();

    assert_eq!(deliver(&mut registry, vec![OpToken(1)], &mut backend), vec![]);
    registry.cancel_token(OpToken(1), &mut backend);
    assert!(backend.cancelled.is_empty());
}

#[test]
fn a_cancelled_operation_reports_nothing() {
    let mut registry = WaitRegistry::new();
    let mut backend = Recorder::default();
    registry.register(OpToken(1), isolate(1), user('a'), None);
    registry.register(OpToken(2), isolate(1), user('b'), None);

    registry.cancel_token(OpToken(1), &mut backend);
    registry.cancel_token(OpToken(1), &mut backend);

    assert_eq!(backend.cancelled, vec![OpToken(1)]);
    assert_eq!(
        deliver(&mut registry, vec![OpToken(1), OpToken(2)], &mut backend),
        vec![report(isolate(1), 'b', 2)]
    );
}

#[test]
fn the_first_of_a_race_wins_and_the_others_are_cancelled() {
    let mut registry = WaitRegistry::new();
    let mut backend = Recorder::default();
    let members = vec![OpToken(1), OpToken(2), OpToken(3)];
    registry.open_group(7, GroupPolicy::Select, isolate(1), members, None);
    registry.register(OpToken(1), isolate(1), user('a'), Some(7));
    registry.register(OpToken(2), isolate(1), user('b'), Some(7));
    registry.register(OpToken(3), isolate(1), user('c'), Some(7));
    registry.register(OpToken(4), isolate(1), user('d'), None);

    assert_eq!(
        deliver(&mut registry, vec![OpToken(2), OpToken(1), OpToken(3)], &mut backend),
        vec![report(isolate(1), 'b', 2)]
    );
    assert_eq!(backend.cancelled, vec![OpToken(1), OpToken(3)]);
    assert_eq!(
        deliver(&mut registry, vec![OpToken(4)], &mut backend),
        vec![report(isolate(1), 'd', 4)]
    );
}

#[test]
fn a_join_reports_once_after_all_its_members() {
    for order in [[1, 2, 3], [1, 3, 2], [2, 1, 3], [2, 3, 1], [3, 1, 2], [3, 2, 1]] {
        let mut registry = WaitRegistry::new();
        let mut backend = Recorder::default();
        registry.open_group(
            0,
            GroupPolicy::Join,
            isolate(1),
            vec![OpToken(1), OpToken(2), OpToken(3)],
            Some((OpToken(9), RuntimeMessage::User('j'))),
        );
        for token in 1..4 {
            registry.register(OpToken(token), isolate(1), None, Some(0));
        }

        for token in &order[..2] {
            assert_eq!(deliver(&mut registry, vec![OpToken(*token)], &mut backend), vec![]);
        }
        assert_eq!(
            deliver(&mut registry, vec![OpToken(order[2])], &mut backend),
            vec![report(isolate(1), 'j', 9)]
        );
        assert!(registry.is_empty());
    }
}

#[test]
fn a_join_that_loses_a_member_waits_for_the_rest() {
    let mut registry = WaitRegistry::new();
    let mut backend = Recorder::default();
    registry.open_group(
        0,
        GroupPolicy::Join,
        isolate(1),
        vec![OpToken(1), OpToken(2)],
        Some((OpToken(9), RuntimeMessage::User('j'))),
    );
    registry.register(OpToken(1), isolate(1), None, Some(0));
    registry.register(OpToken(2), isolate(1), None, Some(0));

    registry.cancel_token(OpToken(1), &mut backend);
    assert_eq!(
        deliver(&mut registry, vec![OpToken(2)], &mut backend),
        vec![report(isolate(1), 'j', 9)]
    );
}

#[test]
fn a_group_is_gone_with_its_last_cancelled_member() {
    let mut registry = WaitRegistry::new();
    let mut backend = Recorder::default();
    registry.open_group(
        0,
        GroupPolicy::Join,
        isolate(1),
        vec![OpToken(1)],
        Some((OpToken(9), RuntimeMessage::User('j'))),
    );
    registry.register(OpToken(1), isolate(1), None, Some(0));

    registry.cancel_token(OpToken(1), &mut backend);

    assert!(registry.is_empty());
    assert_eq!(deliver(&mut registry, vec![OpToken(1)], &mut backend), vec![]);
}

#[test]
fn members_of_a_group_that_is_not_open_report_nothing() {
    let mut registry = WaitRegistry::new();
    let mut backend = Recorder::default();
    registry.register(OpToken(1), isolate(1), user('a'), Some(5));

    assert_eq!(deliver(&mut registry, vec![OpToken(1)], &mut backend), vec![]);
    assert!(registry.is_empty());
}

#[test]
fn purging_an_isolate_leaves_the_others() {
    let mut registry = WaitRegistry::new();
    let mut backend = Recorder::default();
    registry.open_group(0, GroupPolicy::Select, isolate(1), vec![OpToken(2), OpToken(3)], None);
    registry.register(OpToken(1), isolate(1), user('a'), None);
    registry.register(OpToken(2), isolate(1), user('b'), Some(0));
    registry.register(OpToken(3), isolate(1), user('c'), Some(0));
    registry.register(OpToken(4), isolate(2), user('d'), None);
    registry.enqueue_ready(&vec![OpToken(1), OpToken(4), OpToken(3)]);

    registry.purge_owner(isolate(1), &mut backend);

    let mut cancelled = backend.cancelled.clone();
    cancelled.sort_by_key(|token| token.0);
    assert_eq!(cancelled, vec![OpToken(1), OpToken(2), OpToken(3)]);
    let mut queue = VecDeque::new();
    registry.pump(&mut queue, 100, &mut backend);
    assert_eq!(queue, vec![report(isolate(2), 'd', 4)]);
    assert!(registry.is_empty());
}

#[test]
fn completions_wait_while_the_queue_is_full() {
    let mut registry = WaitRegistry::new();
    let mut backend = Recorder::default();
    for token in 0..3 {
        registry.register(OpToken(token), isolate(1), user('a'), None);
    }
    let mut queue = VecDeque::new();
    registry.enqueue_ready(&vec![OpToken(0), OpToken(1), OpToken(2)]);

    registry.pump(&mut queue, 2, &mut backend);
    assert_eq!(queue.len(), 2);
    assert!(!registry.is_empty());
    registry.pump(&mut queue, 2, &mut backend);
    assert_eq!(queue.len(), 2);
    queue.pop_front();
    registry.pump(&mut queue, 2, &mut backend);
    assert_eq!(queue[1], report(isolate(1), 'a', 2));
    assert!(registry.is_empty());
}
