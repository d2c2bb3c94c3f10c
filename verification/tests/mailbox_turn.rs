use command_io::arena::Handle;
use command_io::mailbox::{
    Action, Armed, EffectsError, GroupPolicy, OpToken, RuntimeMessage, TurnEffects, Wait,
};

#[test]
fn actions_are_bounded_and_keep_their_order() {
    let mut effects = TurnEffects::with_capacity(4, 0);
    let target = Handle { index: 1, generation: 2 };

    effects.send(target, 'a').unwrap();
    effects.send_self('b').unwrap();
    effects.cancel(OpToken(9)).unwrap();
    effects.destroy_self().unwrap();
    assert_eq!(effects.send_self('c'), Err(EffectsError::ActionsFull));

    let mut actions = vec![Action::SendSelf { message: 'z' }];
    effects.swap_actions(&mut actions);
    assert_eq!(
        actions,
        vec![
            Action::Send { target, message: RuntimeMessage::User('a') },
            Action::SendSelf { message: 'b' },
            Action::Cancel { token: OpToken(9) },
            Action::DestroySelf,
        ]
    );
    effects.swap_actions(&mut actions);
    assert!(actions.is_empty());
}

#[test]
fn waits_are_bounded_and_have_tokens_of_their_own() {
    let mut effects = TurnEffects::with_capacity(0, 4);
    effects.reset(10, 3);

    assert_eq!(effects.wait_accept(1, 'a'), Ok(OpToken(10)));
    assert_eq!(effects.wait_recv(2, 'r'), Ok(OpToken(11)));
    assert_eq!(effects.wait_write(3, 'w'), Ok(OpToken(12)));
    assert_eq!(effects.wait_timer(4, 't'), Ok(OpToken(13)));
    assert_eq!(effects.wait_timer(5, 'x'), Err(EffectsError::WaitsFull));
    assert_eq!(effects.next_token(), 14);
    assert_eq!(effects.next_group(), 3);

    let mut armed = Vec::new();
    effects.swap_armed(&mut armed);
    assert_eq!(
        armed[1],
        Armed {
            token: OpToken(11),
            wait: Wait::Recv { source: 2 },
            completion: Some(RuntimeMessage::User('r')),
            group: None,
        }
    );
    assert_eq!(armed[0].wait, Wait::Accept { listener: 1 });
    assert_eq!(armed[2].wait, Wait::Write { sink: 3 });
    assert_eq!(armed[3].wait, Wait::Timer { ticks: 4 });
}

#[test]
fn a_race_lists_its_members_in_order() {
    let mut effects = TurnEffects::with_capacity(0, 4);
    effects.reset(5, 7);

    let tokens = effects
        .select(vec![(Wait::Recv { source: 1 }, 'a'), (Wait::Timer { ticks: 2 }, 'b')])
        .unwrap();

    assert_eq!(tokens, vec![OpToken(5), OpToken(6)]);
    let mut groups = Vec::new();
    effects.swap_groups(&mut groups);
    assert_eq!(groups.len(), 1);
    assert_eq!(groups[0].id, 7);
    assert_eq!(groups[0].policy, GroupPolicy::Select);
    assert_eq!(groups[0].members, tokens);
    assert_eq!(groups[0].join, None);
    let mut armed = Vec::new();
    effects.swap_armed(&mut armed);
    assert_eq!(armed[1].group, Some(7));
    assert_eq!(armed[1].completion, Some(RuntimeMessage::User('b')));
    assert_eq!(effects.next_group(), 8);
}

#[test]
fn a_join_has_a_token_after_those_of_its_members() {
    let mut effects = TurnEffects::with_capacity(0, 4);

    let token = effects
        .join(vec![Wait::Recv { source: 1 }, Wait::Timer { ticks: 2 }], 'j')
        .unwrap();

    assert_eq!(token, OpToken(2));
    assert_eq!(effects.next_token(), 3);
    let mut groups = Vec::new();
    effects.swap_groups(&mut groups);
    assert_eq!(groups[0].policy, GroupPolicy::Join);
    assert_eq!(groups[0].members, vec![OpToken(0), OpToken(1)]);
    assert_eq!(groups[0].join, Some((OpToken(2), RuntimeMessage::User('j'))));
    let mut armed = Vec::new();
    effects.swap_armed(&mut armed);
    assert!(armed.iter().all(|wait| wait.completion.is_none() && wait.group == Some(0)));
}

#[test]
fn a_group_that_does_not_fit_is_not_opened() {
    let mut effects = TurnEffects::with_capacity(0, 1);

    assert_eq!(
        effects.select(vec![(Wait::Recv { source: 1 }, 'a'), (Wait::Recv { source: 2 }, 'b')]),
        Err(EffectsError::WaitsFull)
    );
    assert_eq!(effects.join(vec![Wait::Recv { source: 3 }], 'c'), Err(EffectsError::WaitsFull));

    let mut groups = Vec::new();
    let mut armed = Vec::new();
    effects.swap_groups(&mut groups);
    effects.swap_armed(&mut armed);
    assert!(groups.is_empty());
    assert_eq!(armed.len(), 1);
    assert_eq!(effects.next_token(), 1);
    assert_eq!(effects.next_group(), 2);
}

#[test]
fn empty_groups_are_opened() {
    let mut effects = TurnEffects::<char>::with_capacity(0, 0);

    assert_eq!(effects.select(vec![]), Ok(vec![]));
    assert_eq!(effects.join(vec![], 'e'), Ok(OpToken(0)));

    let mut groups = Vec::new();
    effects.swap_groups(&mut groups);
    assert_eq!(groups.len(), 2);
    assert!(groups[0].id < groups[1].id);
}

#[test]
fn a_cleared_builder_holds_nothing() {
    let mut effects = TurnEffects::with_capacity(2, 2);
    effects.send_self('a').unwrap();
    effects.wait_recv(1, 'b').unwrap();
    effects.join(vec![Wait::Timer { ticks: 1 }], 'c').unwrap();

    effects.reset(20, 30);

    let mut actions = Vec::new();
    let mut armed = Vec::new();
    let mut groups = Vec::new();
    effects.swap_actions(&mut actions);
    effects.swap_armed(&mut armed);
    effects.swap_groups(&mut groups);
    assert!(actions.is_empty() && armed.is_empty() && groups.is_empty());
    assert_eq!((effects.next_token(), effects.next_group()), (20, 30));
}
