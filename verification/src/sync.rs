//! The audio-master clock.
//!
//! The position of audio playback is the master clock. Pausing holds it where it was read.

use std::sync::atomic::AtomicI64;
use std::sync::Arc;

use vstd::prelude::*;

verus! {

/// Whether the clock stands still, and where.
#[derive(Clone, Copy, Debug, PartialEq, Eq, Structural)]
pub struct ClockState {
    pub paused: bool,
    pub pause_pts: i64,
}

impl ClockState {
    /// A clock that runs.
    pub fn new() -> (r: ClockState)
        ensures
            r == (ClockState { paused: false, pause_pts: 0 }),
    {
        ClockState { paused: false, pause_pts: 0 }
    }

    /// The position of playback, where the audio clock reads `reading`.
    pub open spec fn position(self, reading: i64) -> i64 {
        if self.paused {
            self.pause_pts
        } else {
            reading
        }
    }

    /// The clock after it was paused or resumed, where the audio clock reads `reading`.
    pub open spec fn with_paused(self, paused: bool, reading: i64) -> ClockState {
        ClockState {
            paused,
            pause_pts: if paused && !self.paused {
                reading
            } else {
                self.pause_pts
            },
        }
    }

    /// The position of playback in microseconds.
    pub fn audio_pts_at(&self, reading: i64) -> (r: i64)
        ensures
            r == self.position(reading),
    {
        if self.paused {
            self.pause_pts
        } else {
            reading
        }
    }

    /// Pauses or resumes the clock.
    pub fn set_paused_at(&mut self, paused: bool, reading: i64)
        ensures
            *final(self) == old(self).with_paused(paused, reading),
    {
        if paused && !self.paused {
            self.pause_pts = reading;
        }
        self.paused = paused;
    }
}

/// A paused clock gives the position at which it was paused, however far the audio clock runs on
/// and however often it is paused again; resumed, it gives the audio clock's.
pub proof fn lemma_pause_holds_position(c: ClockState, at: i64, later: i64, last: i64)
    ensures
        c.with_paused(true, at).position(later) == c.position(at),
        c.with_paused(true, at).with_paused(true, later) == c.with_paused(true, at),
        c.with_paused(true, at).with_paused(false, later).position(last) == last,
{
}

/// The audio-master clock, on a position that the audio output advances.
pub struct SyncClock {
    audio_clock: Arc<AtomicI64>,
    state: ClockState,
}

impl SyncClock {
    /// Whether the clock stands still, and where.
    pub closed spec fn state(self) -> ClockState {
        self.state
    }

    /// The audio position that the clock runs on: which one it is, not what it reads.
    pub closed spec fn source(self) -> Arc<AtomicI64> {
        self.audio_clock
    }

    /// A clock that runs on an audio position.
    pub fn new(audio_clock: Arc<AtomicI64>) -> (r: SyncClock)
        ensures
            r.source() == audio_clock,
            r.state() == (ClockState { paused: false, pause_pts: 0 }),
    {
        SyncClock { audio_clock, state: ClockState::new() }
    }

    /// The position of playback in microseconds: where the clock was paused, or what the audio
    /// position reads.
    pub fn audio_pts(&self) -> (r: i64)
        ensures
            exists|reading: i64| r == #[trigger] self.state().position(reading),
            self.state().paused ==> r == self.state().pause_pts,
    {
        let reading: i64 = self.audio_clock.load(std::sync::atomic::Ordering::Relaxed);
        assert(self.state().position(reading) == self.state.position(reading));
        self.state.audio_pts_at(reading)
    }

    /// Pauses or resumes the clock.
    pub fn set_paused(&mut self, paused: bool)
        ensures
            final(self).source() == old(self).source(),
            exists|reading: i64|
                final(self).state() == #[trigger] old(self).state().with_paused(paused, reading),
    {
        let reading: i64 = self.audio_clock.load(std::sync::atomic::Ordering::Relaxed);
        self.state.set_paused_at(paused, reading);
        assert(self.state() == old(self).state().with_paused(paused, reading));
    }

    /// Whether the clock stands still.
    pub fn is_paused(&self) -> (r: bool)
        ensures
            r == self.state().paused,
    {
        self.state.paused
    }

    /// Sets the audio position, as after a seek.
    pub fn set_position(&self, pts_us: i64) {
        self.audio_clock.store(pts_us, std::sync::atomic::Ordering::Relaxed);
    }
}

/// A clock that runs gives the audio clock's position; one that stands gives where it stands, which
/// is where it was paused.
pub proof fn lemma_clock_follows_audio(c: ClockState, reading: i64, at: i64)
    ensures
        !c.paused ==> c.position(reading) == reading,
        c.paused ==> c.position(reading) == c.pause_pts,
        c.with_paused(true, at).paused,
        !c.with_paused(false, at).paused,
        !c.paused ==> c.with_paused(true, at).pause_pts == at,
        c.paused ==> c.with_paused(true, at).pause_pts == c.pause_pts,
{
}

} // verus!
