use std::sync::atomic::{AtomicI64, Ordering};
use std::sync::Arc;

use play::sync::{ClockState, SyncClock};

#[test]
fn clock_follows_the_audio_until_paused() {
    let audio = Arc::new(AtomicI64::new(5));
    let mut clock = SyncClock::new(audio.clone());
    assert_eq!(clock.audio_pts(), 5);
    clock.set_paused(true);
    assert!(clock.is_paused());
    audio.store(50, Ordering::Relaxed);
    assert_eq!(clock.audio_pts(), 5);
    clock.set_paused(true);
    assert_eq!(clock.audio_pts(), 5);
    clock.set_paused(false);
    assert_eq!(clock.audio_pts(), 50);
    clock.set_position(9);
    assert_eq!((clock.audio_pts(), audio.load(Ordering::Relaxed)), (9, 9));
}

#[test]
fn clock_state_holds_where_it_was_paused() {
    let mut c = ClockState::new();
    c.set_paused_at(true, 10);
    c.set_paused_at(true, 20);
    assert_eq!(c.audio_pts_at(30), 10);
    c.set_paused_at(false, 40);
    assert_eq!(c.audio_pts_at(41), 41);
}
