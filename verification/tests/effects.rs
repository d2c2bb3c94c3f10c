use command_io::completion::CompletionHandle;
use command_io::effects::{Effect, EffectsError, TurnEffects};
use command_io::io::{Operation, TimerOp};

#[test]
fn effects_are_bounded_and_preserve_order() {
    let mut effects = TurnEffects::<()>::with_capacity(2);
    let completion = CompletionHandle::invalid();

    effects
        .submit(completion, Operation::Timer(TimerOp { ticks: 1 }))
        .unwrap();
    effects.cancel(completion).unwrap();
    assert_eq!(effects.destroy_self(), Err(EffectsError::Full));

    let mut scratch = Vec::with_capacity(2);
    effects.swap_effects(&mut scratch);
    assert!(matches!(scratch[0], Effect::Submit { .. }));
    assert!(matches!(scratch[1], Effect::Cancel { .. }));
}

#[test]
fn a_reset_list_takes_effects_again() {
    let mut effects = TurnEffects::with_capacity(1);

    effects.spawn("child").unwrap();
    assert_eq!(effects.spawn("other"), Err(EffectsError::Full));
    effects.reset();
    effects.destroy_self().unwrap();

    let mut scratch = vec![Effect::Spawn("dropped")];
    effects.swap_effects(&mut scratch);
    assert_eq!(scratch.len(), 1);
    assert!(matches!(scratch[0], Effect::DestroySelf));
    effects.swap_effects(&mut scratch);
    assert!(scratch.is_empty());
}

#[test]
fn a_list_without_room_takes_nothing() {
    let mut effects = TurnEffects::<u8>::with_capacity(0);

    assert_eq!(effects.destroy_self(), Err(EffectsError::Full));
    assert_eq!(effects.cancel(CompletionHandle::invalid()), Err(EffectsError::Full));
}
