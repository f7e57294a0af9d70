//! Held-key auto-repeat timing for action enums.
//!
//! Times are readings of a monotonic clock in nanoseconds; the host converts
//! its clock's instants to such readings.

use vstd::prelude::*;

verus! {

/// Held-action timing knobs. Both delays in milliseconds.
#[derive(Clone, Copy, Debug, PartialEq, Eq, Structural)]
pub struct KeyRepeatSettings {
    /// Delay between initial press and first auto-repeat.
    pub initial_delay_ms: u64,
    /// Delay between subsequent auto-repeats.
    pub repeat_delay_ms: u64,
}

impl Default for KeyRepeatSettings {
    fn default() -> (r: Self)
        ensures
            r == (KeyRepeatSettings { initial_delay_ms: 500, repeat_delay_ms: 50 }),
    {
        KeyRepeatSettings { initial_delay_ms: 500, repeat_delay_ms: 50 }
    }
}

/// Per-input key-repeat state: the held action, when it was pressed and
/// when it last repeated (clock readings in nanoseconds).
#[derive(Clone, Copy, Debug)]
pub struct KeyRepeatState<A: Copy> {
    pub current_action: Option<A>,
    pub press_start: Option<u64>,
    pub last_repeat: Option<u64>,
}

/// Nanoseconds from `earlier` to `later`, zero when `later` comes first.
pub open spec fn elapsed_ns(later: u64, earlier: u64) -> int {
    if later >= earlier { later - earlier } else { 0 }
}

/// What `tick` at time `now` returns and leaves: nothing before the initial
/// delay has passed since the press or while the last repeat is younger than
/// the repeat delay; otherwise the held action, with the repeat time set to `now`.
pub open spec fn ticked<A: Copy>(s: KeyRepeatState<A>, now: u64, settings: KeyRepeatSettings) -> (
    KeyRepeatState<A>,
    Option<A>,
) {
    match (s.current_action, s.press_start) {
        (Some(action), Some(press_start)) => {
            if elapsed_ns(now, press_start) < settings.initial_delay_ms * 1_000_000 {
                (s, None)
            } else if match s.last_repeat {
                Some(last) => elapsed_ns(now, last) >= settings.repeat_delay_ms * 1_000_000,
                None => true,
            } {
                (KeyRepeatState { last_repeat: Some(now), ..s }, Some(action))
            } else {
                (s, None)
            }
        },
        _ => (s, None),
    }
}

impl<A: Copy> Default for KeyRepeatState<A> {
    fn default() -> (r: Self)
        ensures
            r.current_action is None,
            r.press_start is None,
            r.last_repeat is None,
    {
        KeyRepeatState { current_action: None, press_start: None, last_repeat: None }
    }
}

fn millis_reached(elapsed: u64, delay_ms: u64) -> (r: bool)
    ensures
        r == (elapsed >= delay_ms * 1_000_000),
{
    (elapsed as u128) >= (delay_ms as u128) * 1_000_000u128
}

impl<A: Copy> KeyRepeatState<A> {
    /// Mark `action` as freshly pressed at `now` and start its repeat clock.
    pub fn arm(&mut self, action: A, now: u64)
        ensures
            final(self).current_action == Some(action),
            final(self).press_start == Some(now),
            final(self).last_repeat is None,
    {
        self.current_action = Some(action);
        self.press_start = Some(now);
        self.last_repeat = None;
    }

    /// If the held action's repeat clock says fire now, return the action and
    /// note the repeat; else `None`.
    pub fn tick(&mut self, now: u64, settings: &KeyRepeatSettings) -> (r: Option<A>)
        ensures
            (*final(self), r) == ticked(*old(self), now, *settings),
    {
        let action = match self.current_action {
            Some(a) => a,
            None => return None,
        };
        let press_start = match self.press_start {
            Some(p) => p,
            None => return None,
        };
        let elapsed = now.saturating_sub(press_start);
        if !millis_reached(elapsed, settings.initial_delay_ms) {
            return None;
        }
        let should_repeat = match self.last_repeat {
            Some(last) => millis_reached(now.saturating_sub(last), settings.repeat_delay_ms),
            None => true,
        };
        if should_repeat {
            self.last_repeat = Some(now);
            Some(action)
        } else {
            None
        }
    }

    /// The action is no longer held: stop tracking it.
    pub fn release(&mut self)
        ensures
            final(self).current_action is None,
            final(self).press_start is None,
            final(self).last_repeat is None,
    {
        self.current_action = None;
        self.press_start = None;
        self.last_repeat = None;
    }
}

/// A released key never repeats: whatever the time and settings, a tick
/// after release yields nothing and changes nothing.
pub proof fn lemma_released_never_repeats<A: Copy>(
    s: KeyRepeatState<A>,
    now: u64,
    settings: KeyRepeatSettings,
)
    requires
        s.current_action is None,
    ensures
        ticked(s, now, settings) == (s, None::<A>),
{
}

/// A freshly armed key does not repeat before the initial delay, and does
/// repeat once it has passed.
pub proof fn lemma_armed_waits_initial_delay<A: Copy>(
    action: A,
    pressed_at: u64,
    now: u64,
    settings: KeyRepeatSettings,
)
    ensures
        ({
            let s = KeyRepeatState { current_action: Some(action), press_start: Some(pressed_at), last_repeat: None };
            &&& elapsed_ns(now, pressed_at) < settings.initial_delay_ms * 1_000_000 ==> ticked(s, now, settings).1 is None
            &&& elapsed_ns(now, pressed_at) >= settings.initial_delay_ms * 1_000_000 ==> ticked(s, now, settings).1 == Some(action)
        }),
{
}

/// After a repeat at time `t`, the next one comes no earlier than the
/// repeat delay after `t`.
pub proof fn lemma_repeats_spaced<A: Copy>(s: KeyRepeatState<A>, t: u64, now: u64, settings: KeyRepeatSettings)
    requires
        ticked(s, t, settings).1 is Some,
        ticked(ticked(s, t, settings).0, now, settings).1 is Some,
    ensures
        elapsed_ns(now, t) >= settings.repeat_delay_ms * 1_000_000,
{
}

} // verus!
