use bevy_instanced_text::key_repeat::{KeyRepeatSettings, KeyRepeatState};

const MS: u64 = 1_000_000;

#[derive(Clone, Copy, Debug, PartialEq, Eq)]
enum Action {
    Left,
    Right,
}

#[test]
fn default_settings() {
    let s = KeyRepeatSettings::default();
    assert_eq!((s.initial_delay_ms, s.repeat_delay_ms), (500, 50));
}

#[test]
fn repeats_after_initial_delay_then_every_repeat_delay() {
    let settings = KeyRepeatSettings::default();
    let mut state: KeyRepeatState<Action> = KeyRepeatState::default();
    assert_eq!(state.tick(0, &settings), None);
    state.arm(Action::Left, 1_000 * MS);
    assert_eq!(state.tick(1_000 * MS, &settings), None);
    assert_eq!(state.tick(1_499 * MS, &settings), None);
    assert_eq!(state.tick(1_500 * MS, &settings), Some(Action::Left));
    assert_eq!(state.tick(1_520 * MS, &settings), None);
    assert_eq!(state.tick(1_550 * MS, &settings), Some(Action::Left));
    assert_eq!(state.tick(1_600 * MS, &settings), Some(Action::Left));
}

#[test]
fn rearming_restarts_the_delay_and_release_stops() {
    let settings = KeyRepeatSettings { initial_delay_ms: 100, repeat_delay_ms: 10 };
    let mut state: KeyRepeatState<Action> = KeyRepeatState::default();
    state.arm(Action::Left, 0);
    assert_eq!(state.tick(100 * MS, &settings), Some(Action::Left));
    state.arm(Action::Right, 105 * MS);
    assert_eq!(state.tick(150 * MS, &settings), None);
    assert_eq!(state.tick(205 * MS, &settings), Some(Action::Right));
    state.release();
    assert_eq!(state.current_action, None);
    assert_eq!(state.tick(1_000 * MS, &settings), None);
}

#[test]
fn clock_going_backwards_counts_as_no_time() {
    let settings = KeyRepeatSettings { initial_delay_ms: 0, repeat_delay_ms: 10 };
    let mut state: KeyRepeatState<Action> = KeyRepeatState::default();
    state.arm(Action::Right, 50 * MS);
    assert_eq!(state.tick(40 * MS, &settings), Some(Action::Right));
    assert_eq!(state.tick(30 * MS, &settings), None);
}
