//! Video output: the time of the display, and what a frame does to it.

use vstd::prelude::*;

use crate::cmd::VideoFrame;
use crate::time::{absolute, truncated_quotient};

verus! {

/// The flag of a time that is valid.
pub const TIME_FLAGS_VALID: u32 = 1;

/// How far the display may drift from the audio before it is set right, in microseconds.
pub const DRIFT_LIMIT_US: i64 = 5_000;

/// A time as a number of parts of a second.
#[derive(Clone, Copy, Debug, PartialEq, Eq, Structural)]
pub struct CMTime {
    pub value: i64,
    pub timescale: i32,
    pub flags: u32,
    pub epoch: i64,
}

impl CMTime {
    /// Whether the time is valid and has a scale.
    pub open spec fn is_valid(self) -> bool {
        self.timescale != 0 && self.flags % 2 == 1
    }

    /// The time in microseconds, rounded towards zero; zero where it is not valid.
    pub open spec fn us(self) -> int {
        if self.is_valid() {
            truncated_quotient(self.value * 1_000_000, self.timescale as int)
        } else {
            0
        }
    }

    /// A valid time.
    pub fn make(value: i64, timescale: i32) -> (r: CMTime)
        ensures
            r == (CMTime { value, timescale, flags: TIME_FLAGS_VALID, epoch: 0 }),
    {
        CMTime { value, timescale, flags: TIME_FLAGS_VALID, epoch: 0 }
    }

    /// A time in microseconds.
    pub fn from_us(us: i64) -> (r: CMTime)
        ensures
            r == (CMTime {
                value: us,
                timescale: 1_000_000,
                flags: TIME_FLAGS_VALID,
                epoch: 0,
            }),
    {
        CMTime::make(us, 1_000_000)
    }

    /// A time that is not valid.
    pub fn invalid() -> (r: CMTime)
        ensures
            !r.is_valid(),
            r == (CMTime { value: 0, timescale: 0, flags: 0, epoch: 0 }),
    {
        CMTime { value: 0, timescale: 0, flags: 0, epoch: 0 }
    }

    /// The time in microseconds.
    pub fn to_us(self) -> (r: i64)
        requires
            i64::MIN <= self.us() <= i64::MAX,
        ensures
            r == self.us(),
    {
        if self.timescale == 0 || self.flags % 2 == 0 {
            return 0;
        }
        let micros: i128 = self.value as i128 * 1_000_000;
        let scale: i128 = self.timescale as i128;
        let above: u128 = if micros < 0 {
            (-micros) as u128
        } else {
            micros as u128
        };
        let below: u128 = if scale < 0 {
            (-scale) as u128
        } else {
            scale as u128
        };
        let whole: u128 = above / below;
        assert(whole <= above) by (nonlinear_arith)
            requires
                whole == above / below,
                below >= 1,
        ;
        if (micros < 0) == (scale < 0) {
            whole as i64
        } else {
            (-(whole as i128)) as i64
        }
    }
}

/// A time in microseconds is read back as it was.
pub proof fn lemma_microseconds_round_trip(us: i64)
    ensures
        (CMTime {
            value: us,
            timescale: 1_000_000,
            flags: TIME_FLAGS_VALID,
            epoch: 0,
        }).us() == us,
{
    assert(absolute(us * 1_000_000) / 1_000_000 == absolute(us as int));
}

/// What is done to the display.
#[derive(Clone, Copy, Debug, PartialEq, Eq, Structural)]
pub enum DisplayAction {
    /// Drop the frames that wait.
    Flush,
    /// Set the time.
    SetTime(i64),
    /// Let the time run, or hold it.
    SetRunning(bool),
}

/// What a display holds: whether there is a time for it, whether that was set by a frame, and
/// whether the format of the frames is known.
#[derive(Clone, Copy, Debug, PartialEq, Eq, Structural)]
pub struct DisplayOutput {
    pub has_timebase: bool,
    pub timebase_started: bool,
    pub has_format: bool,
}

/// How a frame is shown.
#[derive(Debug)]
pub struct FramePlan<B> {
    pub buffer: B,
    /// What is done to the display before.
    pub actions: Vec<DisplayAction>,
    /// Whether the format is to be worked out first.
    pub needs_format: bool,
    pub presentation: CMTime,
    pub duration: CMTime,
}

/// One action, or none.
pub open spec fn display_if(condition: bool, action: DisplayAction) -> Seq<DisplayAction> {
    if condition {
        seq![action]
    } else {
        Seq::empty()
    }
}

fn push_display(actions: &mut Vec<DisplayAction>, condition: bool, action: DisplayAction)
    ensures
        final(actions)@ == old(actions)@ + display_if(condition, action),
{
    if condition {
        actions.push(action);
    }
    assert(actions@ =~= old(actions)@ + display_if(condition, action));
}

impl DisplayOutput {
    /// A display that shows nothing yet.
    pub fn new(has_timebase: bool) -> (r: DisplayOutput)
        ensures
            r == (DisplayOutput { has_timebase, timebase_started: false, has_format: false }),
    {
        DisplayOutput { has_timebase, timebase_started: false, has_format: false }
    }

    /// What is done to the display before a frame: after a seek it is flushed and its time set, and
    /// with the first frame its time is set and runs.
    pub open spec fn before_frame(self, pts_us: i64, seek_flush: bool) -> Seq<DisplayAction> {
        if seek_flush {
            seq![DisplayAction::Flush] + display_if(
                self.has_timebase,
                DisplayAction::SetTime(pts_us),
            )
        } else if !self.timebase_started {
            display_if(self.has_timebase, DisplayAction::SetTime(pts_us)) + display_if(
                self.has_timebase,
                DisplayAction::SetRunning(true),
            )
        } else {
            Seq::empty()
        }
    }

    /// Takes the picture of a frame and says how it is shown; none where the frame has none.
    pub fn enqueue_frame<B>(&mut self, frame: VideoFrame<B>) -> (r: Option<FramePlan<B>>)
        ensures
            match frame.pixel_buffer {
                None => r is None && *final(self) == *old(self),
                Some(buffer) => {
                    &&& *final(self) == (DisplayOutput { timebase_started: true, ..*old(self) })
                    &&& r matches Some(plan)
                    &&& plan.buffer == buffer
                    &&& plan.actions@ == old(self).before_frame(frame.pts_us, frame.seek_flush)
                    &&& plan.needs_format == !old(self).has_format
                    &&& plan.presentation == (CMTime {
                        value: frame.pts_us,
                        timescale: 1_000_000,
                        flags: TIME_FLAGS_VALID,
                        epoch: 0,
                    })
                    &&& plan.duration == (CMTime {
                        value: frame.duration_us,
                        timescale: 1_000_000,
                        flags: TIME_FLAGS_VALID,
                        epoch: 0,
                    })
                },
            },
    {
        let buffer = match frame.pixel_buffer {
            Some(buffer) => buffer,
            None => {
                return None;
            },
        };
        let mut actions: Vec<DisplayAction> = Vec::new();
        if frame.seek_flush {
            actions.push(DisplayAction::Flush);
            push_display(&mut actions, self.has_timebase, DisplayAction::SetTime(frame.pts_us));
        } else if !self.timebase_started {
            push_display(&mut actions, self.has_timebase, DisplayAction::SetTime(frame.pts_us));
            push_display(&mut actions, self.has_timebase, DisplayAction::SetRunning(true));
        }
        self.timebase_started = true;
        assert(actions@ =~= old(self).before_frame(frame.pts_us, frame.seek_flush));
        Some(
            FramePlan {
                buffer,
                actions,
                needs_format: !self.has_format,
                presentation: CMTime::from_us(frame.pts_us),
                duration: CMTime::from_us(frame.duration_us),
            },
        )
    }

    /// Notes that the format of the frames is known.
    pub fn format_known(&mut self)
        ensures
            *final(self) == (DisplayOutput { has_format: true, ..*old(self) }),
    {
        self.has_format = true;
    }

    /// The time to set the display to, where it reads `timebase_us` and has drifted too far from the
    /// audio.
    pub open spec fn corrected(self, audio_pts_us: i64, timebase_us: i64) -> Option<i64> {
        if self.timebase_started && self.has_timebase && absolute(audio_pts_us - timebase_us)
            > DRIFT_LIMIT_US {
            Some(audio_pts_us)
        } else {
            None
        }
    }

    /// The time to set the display to, where it has drifted too far from the audio.
    pub fn correction(&self, audio_pts_us: i64, timebase_us: i64) -> (r: Option<i64>)
        ensures
            r == self.corrected(audio_pts_us, timebase_us),
    {
        if !self.timebase_started || !self.has_timebase {
            return None;
        }
        let drift: i128 = audio_pts_us as i128 - timebase_us as i128;
        if drift > DRIFT_LIMIT_US as i128 || drift < -(DRIFT_LIMIT_US as i128) {
            Some(audio_pts_us)
        } else {
            None
        }
    }
}

/// What is done to a display that is flushed at a position.
pub open spec fn flush_actions(display: Option<DisplayOutput>, pts_us: i64) -> Seq<DisplayAction> {
    match display {
        Some(d) => seq![DisplayAction::Flush] + display_if(
            d.has_timebase,
            DisplayAction::SetTime(pts_us),
        ),
        None => Seq::empty(),
    }
}

/// Sets up the display of a window. `has_timebase` says whether there is a time for it.
pub fn init_display(display: &mut Option<DisplayOutput>, has_timebase: bool)
    ensures
        *final(display) == Some(
            DisplayOutput { has_timebase, timebase_started: false, has_format: false },
        ),
{
    *display = Some(DisplayOutput::new(has_timebase));
}

/// The time to set the display to, where there is one and it has drifted too far from the audio.
pub fn sync_timebase(display: &Option<DisplayOutput>, audio_pts_us: i64, timebase_us: i64) -> (r:
    Option<i64>)
    ensures
        r == match *display {
            Some(d) => d.corrected(audio_pts_us, timebase_us),
            None => None,
        },
{
    match display {
        Some(d) => d.correction(audio_pts_us, timebase_us),
        None => None,
    }
}

/// Whether the rate of the display's time is to be set.
pub fn sets_playback_rate(display: &Option<DisplayOutput>) -> (r: bool)
    ensures
        r == (display matches Some(d) && d.has_timebase),
{
    match display {
        Some(d) => d.has_timebase,
        None => false,
    }
}

/// Flushes the display and sets its time after a seek.
pub fn flush_and_seek(display: &mut Option<DisplayOutput>, pts_us: i64) -> (actions: Vec<
    DisplayAction,
>)
    ensures
        actions@ == flush_actions(*old(display), pts_us),
        *final(display) == match *old(display) {
            Some(d) => Some(DisplayOutput { timebase_started: true, ..d }),
            None => None,
        },
{
    let mut actions: Vec<DisplayAction> = Vec::new();
    if let Some(d) = *display {
        actions.push(DisplayAction::Flush);
        push_display(&mut actions, d.has_timebase, DisplayAction::SetTime(pts_us));
        *display = Some(DisplayOutput { timebase_started: true, ..d });
    }
    assert(actions@ =~= flush_actions(*old(display), pts_us));
    actions
}

/// Makes the display ready for a file of another size and format.
pub fn reset_for_new_file(display: &mut Option<DisplayOutput>) -> (actions: Vec<DisplayAction>)
    ensures
        actions@ == display_if(*old(display) is Some, DisplayAction::Flush),
        *final(display) == match *old(display) {
            Some(d) => Some(
                DisplayOutput { timebase_started: false, has_format: false, ..d },
            ),
            None => None,
        },
{
    let mut actions: Vec<DisplayAction> = Vec::new();
    if let Some(d) = *display {
        actions.push(DisplayAction::Flush);
        *display = Some(DisplayOutput { timebase_started: false, has_format: false, ..d });
    }
    assert(actions@ =~= display_if(*old(display) is Some, DisplayAction::Flush));
    actions
}

/// Before the first frame the display's time is set to it and runs; after a seek the display is
/// flushed and its time set, and in between nothing is done to it.
pub proof fn lemma_display_before_a_frame(d: DisplayOutput, pts_us: i64)
    ensures
        d.before_frame(pts_us, true).contains(DisplayAction::Flush),
        d.before_frame(pts_us, true).contains(DisplayAction::SetTime(pts_us)) == d.has_timebase,
        d.has_timebase ==> d.before_frame(pts_us, true) == seq![
            DisplayAction::Flush,
            DisplayAction::SetTime(pts_us),
        ],
        !d.timebase_started && d.has_timebase ==> d.before_frame(pts_us, false) == seq![
            DisplayAction::SetTime(pts_us),
            DisplayAction::SetRunning(true),
        ],
        !d.has_timebase || d.timebase_started ==> d.before_frame(pts_us, false).len() == 0,
{
    let s = d.before_frame(pts_us, true);
    assert(s[0] == DisplayAction::Flush);
    if d.has_timebase {
        assert(s[1] == DisplayAction::SetTime(pts_us));
        assert(s =~= seq![DisplayAction::Flush, DisplayAction::SetTime(pts_us)]);
        if !d.timebase_started {
            assert(d.before_frame(pts_us, false) =~= seq![
                DisplayAction::SetTime(pts_us),
                DisplayAction::SetRunning(true),
            ]);
        }
    }
}

/// The display is set to the audio where it runs and is more than five milliseconds off, ahead or
/// behind, and only then.
pub proof fn lemma_drift_is_corrected(d: DisplayOutput, audio_us: i64, display_us: i64)
    ensures
        d.timebase_started && d.has_timebase && (audio_us - display_us > 5_000 || display_us - audio_us
            > 5_000) ==> d.corrected(audio_us, display_us) == Some(audio_us),
        -5_000 <= audio_us - display_us <= 5_000 ==> d.corrected(audio_us, display_us) is None,
        !d.timebase_started || !d.has_timebase ==> d.corrected(audio_us, display_us) is None,
{
}

/// A flush drops the frames that wait and sets the time, where there is a display.
pub proof fn lemma_flush_of_the_display(d: Option<DisplayOutput>, pts_us: i64)
    ensures
        d is None ==> flush_actions(d, pts_us).len() == 0,
        d matches Some(x) ==> flush_actions(d, pts_us).contains(DisplayAction::Flush)
            && flush_actions(d, pts_us).contains(DisplayAction::SetTime(pts_us)) == x.has_timebase,
{
    if d is Some {
        let s = flush_actions(d, pts_us);
        assert(s[0] == DisplayAction::Flush);
        if d.unwrap().has_timebase {
            assert(s[1] == DisplayAction::SetTime(pts_us));
        }
    }
}

/// A valid time is as many microseconds as its parts of a second make, rounded towards zero; one
/// that is not valid counts as zero.
pub proof fn lemma_time_in_microseconds(t: CMTime)
    ensures
        t.timescale == 0 || t.flags % 2 == 0 ==> t.us() == 0,
        t.timescale > 0 && t.flags % 2 == 1 && t.value >= 0 ==> t.us() * t.timescale <= t.value
            * 1_000_000 < (t.us() + 1) * t.timescale,
        t.timescale > 0 && t.flags % 2 == 1 && t.value < 0 ==> t.us() * t.timescale >= t.value
            * 1_000_000 > (t.us() - 1) * t.timescale,
        t.is_valid() <==> t.timescale != 0 && t.flags % 2 == 1,
{
    if t.timescale > 0 && t.flags % 2 == 1 {
        let x = absolute(t.value * 1_000_000);
        let r = t.timescale as int;
        vstd::arithmetic::div_mod::lemma_fundamental_div_mod(x, r);
        vstd::arithmetic::div_mod::lemma_mod_bound(x, r);
        let q = x / r;
        assert(q * r <= x < (q + 1) * r) by (nonlinear_arith)
            requires
                x == r * q + x % r,
                0 <= x % r < r,
        ;
        assert((-q) * r == -(q * r) && (-q - 1) * r == -((q + 1) * r)) by (nonlinear_arith);
    }
}

} // verus!
