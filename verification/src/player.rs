//! The player: what it does on commands and packets.
//!
//! The player decides; it does not act. Each step takes what happened, together with the reading of
//! the audio clock, and gives the effects that are to follow, in their order.

use crossbeam_channel::{Receiver, TryRecvError};
use vstd::prelude::*;

use crate::cmd::{optional, Command, DemuxCommand, EndReason};
use crate::decode_audio::AudioBuffer;
use crate::demux::{
    coalesced, is_applied, lemma_one_flush_per_seek, seeks_in, Action, DemuxView, SeekPlan,
};
use crate::playlist::{chosen_streams, chosen_track, starting_track};
use crate::streams::{audio_text, format_audio_info, StreamInfo};
use crate::subtitle::{
    cues, optional_text, shown_at, SubtitleTrack,
};
use crate::sync::ClockState;
use crate::text::{
    append, ends_with, explicit_numeral, magnitude, numeral, push_explicit, push_numeral,
    same_text, starts_with,
};
use crate::time::truncated_quotient;

verus! {

/// What is shown of a change.
#[derive(Clone, Copy, Debug, PartialEq, Eq, Structural)]
pub enum Notice {
    Volume { percent: u32, muted: bool },
    AudioDelay { ms: i64 },
    AudioTrack { track: usize },
    NoSubtitles,
    SubtitlesOff,
    SubtitleTrack { track: usize },
}

/// What is to be done.
#[derive(Clone, Copy, Debug, PartialEq, Eq, Structural)]
pub enum Effect {
    /// Send a command to the demuxer.
    Demux(DemuxCommand),
    /// Show a message.
    Osd(Notice),
    /// Show no subtitle.
    ClearSubtitle,
    /// Tell the user interface whether playback is paused.
    UiPaused(bool),
    /// Tell the user interface to flush the display at a position.
    UiSeekFlush(i64),
    /// Tell the user interface why the file ended.
    UiEnd(EndReason),
    /// Set the audio clock.
    SetClock(i64),
    /// Stop the audio output.
    AudioStop,
    /// Pause the audio output.
    AudioPause,
    /// Resume the audio output.
    AudioPlay,
    /// Stop the audio output and drop what it has buffered.
    AudioFlush,
    /// Drop what the audio output has buffered.
    AudioFlushQuick,
    /// Set the position of the audio output.
    AudioPosition(i64),
    /// Set the volume of the audio output in percent.
    AudioVolume(u32),
    /// Skip samples that the audio output has buffered.
    AudioSkip(usize),
    /// Flush the audio decoder.
    FlushAudioDecoder,
    /// Flush the video decoder.
    FlushVideoDecoder,
    /// Decode another audio stream, and open an output for it.
    SwitchAudio(usize),
}

/// One effect, or none.
pub open spec fn only_if(condition: bool, effect: Effect) -> Seq<Effect> {
    if condition {
        seq![effect]
    } else {
        Seq::empty()
    }
}

/// Adds an effect under a condition.
pub fn push_when(effects: &mut Vec<Effect>, condition: bool, effect: Effect)
    ensures
        final(effects)@ == old(effects)@ + only_if(condition, effect),
{
    if condition {
        effects.push(effect);
    }
    assert(effects@ =~= old(effects)@ + only_if(condition, effect));
}

/// A relative seek that waits to be dispatched, the sum of those asked for.
#[derive(Clone, Copy, Debug, PartialEq, Eq, Structural)]
pub struct QueuedSeek {
    pub delta_us: i64,
    pub exact: bool,
}

/// A number held within the 64-bit range.
pub open spec fn saturated(x: int) -> int {
    if x > i64::MAX {
        i64::MAX as int
    } else if x < i64::MIN {
        i64::MIN as int
    } else {
        x
    }
}

fn saturating_sum(a: i64, b: i64) -> (r: i64)
    ensures
        r == saturated(a + b),
{
    let sum: i128 = a as i128 + b as i128;
    if sum > i64::MAX as i128 {
        i64::MAX
    } else if sum < i64::MIN as i128 {
        i64::MIN
    } else {
        sum as i64
    }
}

/// The queue of relative seeks with one more.
pub open spec fn queued(queue: Option<QueuedSeek>, delta_us: i64, exact: bool) -> Option<
    QueuedSeek,
> {
    match queue {
        Some(q) => Some(
            QueuedSeek {
                delta_us: saturated(q.delta_us + delta_us) as i64,
                exact: q.exact || exact,
            },
        ),
        None => Some(QueuedSeek { delta_us, exact }),
    }
}

/// A position within a file: not before its start, and not past its end.
pub open spec fn within_file(target_us: int, duration_us: i64) -> i64 {
    let from_start: int = if target_us < 0 {
        0
    } else {
        target_us
    };
    if from_start > duration_us {
        duration_us
    } else {
        from_start as i64
    }
}

/// The position `delta_us` from `current`, within a file.
pub fn seek_target(current: i64, delta_us: i64, duration_us: i64) -> (r: i64)
    ensures
        r == within_file(current + delta_us, duration_us),
{
    let target: i128 = current as i128 + delta_us as i128;
    let from_start: i128 = if target < 0 {
        0
    } else {
        target
    };
    if from_start > duration_us as i128 {
        duration_us
    } else {
        from_start as i64
    }
}

/// A volume changed by some percent, within 0 and 100.
pub open spec fn clamped_volume(volume: u32, delta: i32) -> u32 {
    let changed = (volume as i32) + delta;
    if changed < 0 {
        0
    } else if changed > 100 {
        100
    } else {
        changed as u32
    }
}

/// Changes a volume by some percent.
pub fn change_volume(volume: u32, delta: i32) -> (r: u32)
    ensures
        r == clamped_volume(volume, delta),
{
    let changed: i64 = (volume as i32) as i64 + delta as i64;
    if changed < 0 {
        0
    } else if changed > 100 {
        100
    } else {
        changed as u32
    }
}

/// The subtitle track after this one: the next, or none after the last, or the first after none.
pub open spec fn next_subtitle(current: Option<usize>, total: int) -> Option<usize> {
    match current {
        Some(i) => if i + 1 < total {
            Some((i + 1) as usize)
        } else {
            None
        },
        None => Some(0),
    }
}

/// The state that playback with and without video share.
#[derive(Debug)]
pub struct PlayerCore {
    pub clock: ClockState,
    /// Whether there is an audio decoder.
    pub has_decoder: bool,
    /// Whether there is an audio output.
    pub has_output: bool,
    pub paused: bool,
    pub volume: u32,
    pub pre_mute_volume: Option<u32>,
    pub audio_delay_us: i64,
    pub duration_us: i64,
    /// Seeks that the demuxer has not answered with a flush.
    pub pending_seeks: u32,
    pub queued_seek: Option<QueuedSeek>,
    /// After an exact seek, what is presented earlier is skipped.
    pub seek_floor_us: i64,
    /// Whether something was presented since the last inexact seek.
    pub seek_landed: bool,
    /// Where the last scheduled audio ends.
    pub last_audio_end_us: i64,
    /// After the end of the file: where the scheduled audio ends.
    pub eof_audio_end_us: Option<i64>,
    pub subtitle_tracks: Vec<SubtitleTrack>,
    pub current_subtitle_idx: Option<usize>,
    pub last_subtitle_text: Option<String>,
    pub stream_info: StreamInfo,
    pub current_audio_track: usize,
}

/// What a command leads to.
#[derive(Debug)]
pub struct Outcome {
    /// Whether the player is to end.
    pub quit: bool,
    pub effects: Vec<Effect>,
}

impl PlayerCore {
    /// Whether there is a video stream.
    pub open spec fn has_video(self) -> bool {
        self.stream_info.video_stream is Some
    }

    /// The number of audio streams.
    pub open spec fn tracks(self) -> int {
        self.stream_info.audio_streams.len() as int
    }

    /// The audio track after the current one.
    pub open spec fn next_track(self) -> int {
        (self.current_audio_track + 1) % self.tracks()
    }

    /// The position of playback.
    pub open spec fn position(self, reading: i64) -> i64 {
        self.clock.position(reading)
    }

    /// The state after a command that both modes handle alike.
    pub open spec fn after(self, cmd: Command, reading: i64) -> PlayerCore {
        match cmd {
            Command::PlayPause => PlayerCore {
                paused: !self.paused,
                clock: self.clock.with_paused(!self.paused, reading),
                ..self
            },
            Command::SeekRelative { delta_us, exact } => PlayerCore {
                queued_seek: queued(self.queued_seek, delta_us, exact),
                ..self
            },
            Command::VolumeUp => PlayerCore {
                pre_mute_volume: None,
                volume: clamped_volume(self.volume, 5),
                ..self
            },
            Command::VolumeDown => PlayerCore {
                pre_mute_volume: None,
                volume: clamped_volume(self.volume, (-5) as i32),
                ..self
            },
            Command::ToggleMute => match self.pre_mute_volume {
                Some(volume) => PlayerCore { pre_mute_volume: None, volume, ..self },
                None => PlayerCore { pre_mute_volume: Some(self.volume), volume: 0, ..self },
            },
            Command::CycleAudioTrack => if self.tracks() <= 1 {
                self
            } else {
                PlayerCore { current_audio_track: self.next_track() as usize, ..self }
            },
            Command::CycleSubtitle => if self.subtitle_tracks.len() == 0 {
                self
            } else {
                PlayerCore {
                    current_subtitle_idx: next_subtitle(
                        self.current_subtitle_idx,
                        self.subtitle_tracks.len() as int,
                    ),
                    ..self
                }
            },
            Command::AudioDelayIncrease => PlayerCore {
                audio_delay_us: saturated(self.audio_delay_us + 100_000) as i64,
                ..self
            },
            Command::AudioDelayDecrease => PlayerCore {
                audio_delay_us: saturated(self.audio_delay_us - 100_000) as i64,
                ..self
            },
            _ => self,
        }
    }

    /// What is to be done on a command that both modes handle alike; `next` is the state after it.
    pub open spec fn effects(self, cmd: Command, next: PlayerCore) -> Seq<Effect> {
        match cmd {
            Command::Quit => seq![Effect::Demux(DemuxCommand::Stop)] + only_if(
                self.has_output,
                Effect::AudioStop,
            ),
            Command::PlayPause => only_if(
                self.has_output,
                if next.paused {
                    Effect::AudioPause
                } else {
                    Effect::AudioPlay
                },
            ) + seq![Effect::UiPaused(next.paused)],
            Command::VolumeUp | Command::VolumeDown | Command::ToggleMute => only_if(
                self.has_output,
                Effect::AudioVolume(next.volume),
            ) + seq![
                Effect::Osd(
                    Notice::Volume { percent: next.volume, muted: next.pre_mute_volume is Some },
                ),
            ],
            Command::CycleAudioTrack => if self.tracks() <= 1 {
                Seq::empty()
            } else {
                let track = next.current_audio_track;
                let stream = self.stream_info.audio_streams@[track as int].index;
                only_if(self.has_decoder, Effect::FlushAudioDecoder) + only_if(
                    self.has_output,
                    Effect::AudioFlush,
                ) + seq![
                    Effect::Demux(DemuxCommand::ChangeAudio(stream)),
                    Effect::SwitchAudio(stream),
                    Effect::Osd(Notice::AudioTrack { track }),
                ]
            },
            Command::CycleSubtitle => if self.subtitle_tracks.len() == 0 {
                seq![Effect::Osd(Notice::NoSubtitles)]
            } else {
                seq![
                    Effect::Osd(
                        match next.current_subtitle_idx {
                            Some(track) => Notice::SubtitleTrack { track },
                            None => Notice::SubtitlesOff,
                        },
                    ),
                    Effect::ClearSubtitle,
                ]
            },
            Command::AudioDelayIncrease | Command::AudioDelayDecrease => seq![
                Effect::Osd(
                    Notice::AudioDelay {
                        ms: truncated_quotient(
                            next.audio_delay_us as int,
                            1000,
                        ) as i64,
                    },
                ),
            ],
            Command::NextFile => seq![Effect::UiEnd(EndReason::NextFile)],
            Command::PrevFile => seq![Effect::UiEnd(EndReason::PrevFile)],
            _ => Seq::empty(),
        }
    }

    /// Whether an outcome is that of a command.
    pub open spec fn answers(
        self,
        cmd: Command,
        reading: i64,
        outcome: Outcome,
        next: PlayerCore,
    ) -> bool {
        &&& next == self.after(cmd, reading)
        &&& outcome.effects@ == self.effects(cmd, next)
        &&& outcome.quit == (cmd == Command::Quit)
    }

    /// Adds a relative seek to those that wait.
    pub fn queue_seek(&mut self, delta_us: i64, exact: bool)
        ensures
            *final(self) == (PlayerCore {
                queued_seek: queued(old(self).queued_seek, delta_us, exact),
                ..*old(self)
            }),
    {
        self.queued_seek =
        match self.queued_seek {
            Some(q) => Some(
                QueuedSeek {
                    delta_us: saturating_sum(q.delta_us, delta_us),
                    exact: q.exact || exact,
                },
            ),
            None => Some(QueuedSeek { delta_us, exact }),
        };
    }

    /// Changes the volume, and ends a mute.
    pub fn adjust_volume(&mut self, delta: i32) -> (effects: Vec<Effect>)
        ensures
            *final(self) == (PlayerCore {
                pre_mute_volume: None,
                volume: clamped_volume(old(self).volume, delta),
                ..*old(self)
            }),
            effects@ == only_if(old(self).has_output, Effect::AudioVolume(final(self).volume)) + seq![
                Effect::Osd(Notice::Volume { percent: final(self).volume, muted: false }),
            ],
    {
        self.pre_mute_volume = None;
        self.volume = change_volume(self.volume, delta);
        let mut effects: Vec<Effect> = Vec::new();
        push_when(&mut effects, self.has_output, Effect::AudioVolume(self.volume));
        effects.push(Effect::Osd(Notice::Volume { percent: self.volume, muted: false }));
        assert(effects@ =~= only_if(self.has_output, Effect::AudioVolume(self.volume)) + seq![
            Effect::Osd(Notice::Volume { percent: self.volume, muted: false }),
        ]);
        effects
    }

    /// Mutes, or ends a mute.
    pub fn toggle_mute(&mut self) -> (effects: Vec<Effect>)
        ensures
            *final(self) == old(self).after(Command::ToggleMute, 0),
            effects@ == old(self).effects(Command::ToggleMute, *final(self)),
    {
        match self.pre_mute_volume {
            Some(volume) => {
                self.volume = volume;
                self.pre_mute_volume = None;
            },
            None => {
                self.pre_mute_volume = Some(self.volume);
                self.volume = 0;
            },
        }
        let muted: bool = self.pre_mute_volume.is_some();
        let mut effects: Vec<Effect> = Vec::new();
        push_when(&mut effects, self.has_output, Effect::AudioVolume(self.volume));
        effects.push(Effect::Osd(Notice::Volume { percent: self.volume, muted }));
        assert(effects@ =~= old(self).effects(Command::ToggleMute, *self));
        effects
    }

    /// Switches to the next audio track.
    pub fn cycle_audio_track(&mut self) -> (effects: Vec<Effect>)
        ensures
            *final(self) == old(self).after(Command::CycleAudioTrack, 0),
            effects@ == old(self).effects(Command::CycleAudioTrack, *final(self)),
    {
        let mut effects: Vec<Effect> = Vec::new();
        let total: usize = self.stream_info.audio_streams.len();
        if total <= 1 {
            return effects;
        }
        self.current_audio_track =
        ((self.current_audio_track as u128 + 1) % (total as u128)) as usize;
        let stream: usize = self.stream_info.audio_streams[self.current_audio_track].index;
        push_when(&mut effects, self.has_decoder, Effect::FlushAudioDecoder);
        push_when(&mut effects, self.has_output, Effect::AudioFlush);
        effects.push(Effect::Demux(DemuxCommand::ChangeAudio(stream)));
        effects.push(Effect::SwitchAudio(stream));
        effects.push(Effect::Osd(Notice::AudioTrack { track: self.current_audio_track }));
        assert(effects@ =~= old(self).effects(Command::CycleAudioTrack, *self));
        effects
    }

    /// The stream of the current audio track; none where there is no such track.
    pub open spec fn audio_source(self) -> Option<usize> {
        if self.current_audio_track < self.tracks() {
            Some(self.stream_info.audio_streams@[self.current_audio_track as int].index)
        } else {
            None
        }
    }

    /// The stream of the current audio track, which is the one to decode.
    pub fn audio_stream(&self) -> (r: Option<usize>)
        ensures
            r == self.audio_source(),
    {
        if self.current_audio_track < self.stream_info.audio_streams.len() {
            Some(self.stream_info.audio_streams[self.current_audio_track].index)
        } else {
            None
        }
    }

    /// Starts with an audio track, counted from one, or with the first where there is no such one.
    /// That is the one whose packets are read.
    pub fn start_with_track(&mut self, audio_track: usize)
        ensures
            *final(self) == (PlayerCore {
                current_audio_track: chosen_track(
                    old(self).tracks(),
                    audio_track as int,
                ) as usize,
                ..*old(self)
            }),
            final(self).audio_source() == chosen_streams(
                old(self).stream_info,
                audio_track as int,
            ).audio_idx,
    {
        self.current_audio_track =
        starting_track(self.stream_info.audio_streams.len(), audio_track);
    }

    /// Notes what came of opening another audio stream.
    pub fn audio_switched(&mut self, decoder: bool, output: bool) -> (effects: Vec<Effect>)
        ensures
            *final(self) == if decoder {
                PlayerCore { has_decoder: true, has_output: output, ..*old(self) }
            } else {
                *old(self)
            },
            effects@ == only_if(
                decoder && output && old(self).volume < 100,
                Effect::AudioVolume(old(self).volume),
            ),
            forall|e: Effect| #[trigger]
                effects@.contains(e) <==> e == Effect::AudioVolume(old(self).volume) && decoder
                    && output && old(self).volume < 100,
            final(self).has_decoder == (decoder || old(self).has_decoder),
            decoder ==> final(self).has_output == output,
            !decoder ==> final(self).has_output == old(self).has_output,
    {
        let mut effects: Vec<Effect> = Vec::new();
        if decoder {
            self.has_decoder = true;
            self.has_output = output;
        }
        push_when(
            &mut effects,
            decoder && output && self.volume < 100,
            Effect::AudioVolume(self.volume),
        );
        assert(effects@ =~= only_if(
            decoder && output && old(self).volume < 100,
            Effect::AudioVolume(old(self).volume),
        ));
        proof {
            lemma_only_if(
                decoder && output && old(self).volume < 100,
                Effect::AudioVolume(old(self).volume),
            );
        }
        effects
    }

    /// Notes what came of opening the first audio stream, and turns the first subtitles on.
    pub fn decoders_ready(&mut self, decoder: bool, output: bool) -> (effects: Vec<Effect>)
        ensures
            *final(self) == (PlayerCore {
                has_decoder: decoder,
                has_output: decoder && output,
                current_subtitle_idx: if old(self).subtitle_tracks.len() > 0 {
                    Some(0)
                } else {
                    old(self).current_subtitle_idx
                },
                ..*old(self)
            }),
            effects@ == only_if(
                decoder && output && old(self).volume < 100,
                Effect::AudioVolume(old(self).volume),
            ),
            forall|e: Effect| #[trigger]
                effects@.contains(e) <==> e == Effect::AudioVolume(old(self).volume)
                    && final(self).has_output && old(self).volume < 100,
            final(self).has_output ==> final(self).has_decoder,
            final(self).subtitle_tracks.len() > 0 ==> final(self).current_subtitle_idx == Some(
                0usize,
            ),
    {
        let mut effects: Vec<Effect> = Vec::new();
        self.has_decoder = decoder;
        self.has_output = decoder && output;
        if self.subtitle_tracks.len() > 0 {
            self.current_subtitle_idx = Some(0);
        }
        push_when(
            &mut effects,
            decoder && output && self.volume < 100,
            Effect::AudioVolume(self.volume),
        );
        assert(effects@ =~= only_if(
            decoder && output && old(self).volume < 100,
            Effect::AudioVolume(old(self).volume),
        ));
        proof {
            lemma_only_if(
                decoder && output && old(self).volume < 100,
                Effect::AudioVolume(old(self).volume),
            );
        }
        effects
    }

    /// Switches to the next subtitle track, or off.
    pub fn cycle_subtitle(&mut self) -> (effects: Vec<Effect>)
        ensures
            *final(self) == old(self).after(Command::CycleSubtitle, 0),
            effects@ == old(self).effects(Command::CycleSubtitle, *final(self)),
    {
        let mut effects: Vec<Effect> = Vec::new();
        let total: usize = self.subtitle_tracks.len();
        if total == 0 {
            effects.push(Effect::Osd(Notice::NoSubtitles));
            assert(effects@ =~= old(self).effects(Command::CycleSubtitle, *self));
            return effects;
        }
        self.current_subtitle_idx =
        match self.current_subtitle_idx {
            Some(i) => if i < total && total - i > 1 {
                Some(i + 1)
            } else {
                None
            },
            None => Some(0),
        };
        let notice = match self.current_subtitle_idx {
            Some(track) => Notice::SubtitleTrack { track },
            None => Notice::SubtitlesOff,
        };
        effects.push(Effect::Osd(notice));
        effects.push(Effect::ClearSubtitle);
        assert(effects@ =~= old(self).effects(Command::CycleSubtitle, *self));
        effects
    }

    /// Changes the audio delay by 100 milliseconds.
    fn change_delay(&mut self, more: bool) -> (effects: Vec<Effect>)
        ensures
            ({
                let cmd = if more {
                    Command::AudioDelayIncrease
                } else {
                    Command::AudioDelayDecrease
                };
                &&& *final(self) == old(self).after(cmd, 0)
                &&& effects@ == old(self).effects(cmd, *final(self))
            }),
    {
        let delta: i64 = if more {
            100_000
        } else {
            -100_000
        };
        self.audio_delay_us = saturating_sum(self.audio_delay_us, delta);
        let ms: i64 = to_milliseconds(self.audio_delay_us);
        let mut effects: Vec<Effect> = Vec::new();
        effects.push(Effect::Osd(Notice::AudioDelay { ms }));
        assert(effects@ =~= old(self).effects(Command::AudioDelayIncrease, *self));
        effects
    }

    /// Handles a command that both modes handle alike, without regard to what else waits.
    pub fn handle_single(&mut self, cmd: Command, reading: i64) -> (outcome: Outcome)
        ensures
            old(self).answers(cmd, reading, outcome, *final(self)),
    {
        let mut effects: Vec<Effect> = Vec::new();
        match cmd {
            Command::Quit => {
                effects.push(Effect::Demux(DemuxCommand::Stop));
                push_when(&mut effects, self.has_output, Effect::AudioStop);
                assert(effects@ =~= old(self).effects(cmd, *self));
                return Outcome { quit: true, effects };
            },
            Command::PlayPause => {
                self.paused = !self.paused;
                self.clock.set_paused_at(self.paused, reading);
                let effect = if self.paused {
                    Effect::AudioPause
                } else {
                    Effect::AudioPlay
                };
                push_when(&mut effects, self.has_output, effect);
                effects.push(Effect::UiPaused(self.paused));
                assert(effects@ =~= old(self).effects(cmd, *self));
            },
            Command::SeekRelative { delta_us, exact } => self.queue_seek(delta_us, exact),
            Command::VolumeUp => {
                effects = self.adjust_volume(5);
            },
            Command::VolumeDown => {
                effects = self.adjust_volume(-5);
            },
            Command::ToggleMute => {
                effects = self.toggle_mute();
            },
            Command::CycleAudioTrack => {
                effects = self.cycle_audio_track();
            },
            Command::CycleSubtitle => {
                effects = self.cycle_subtitle();
            },
            Command::AudioDelayIncrease => {
                effects = self.change_delay(true);
            },
            Command::AudioDelayDecrease => {
                effects = self.change_delay(false);
            },
            Command::NextFile => {
                effects.push(Effect::UiEnd(EndReason::NextFile));
                assert(effects@ =~= old(self).effects(cmd, *self));
            },
            Command::PrevFile => {
                effects.push(Effect::UiEnd(EndReason::PrevFile));
                assert(effects@ =~= old(self).effects(cmd, *self));
            },
            Command::SeekAbsolute { target_us: _ } | Command::ToggleFullscreen => {},
        }
        Outcome { quit: false, effects }
    }
}

/// A time in whole milliseconds, rounded towards zero.
fn to_milliseconds(us: i64) -> (r: i64)
    ensures
        r == truncated_quotient(us as int, 1000),
{
    let whole: u64 = magnitude(us) / 1000;
    if us < 0 {
        -(whole as i64)
    } else {
        whole as i64
    }
}

/// Whether a command is a relative seek.
pub open spec fn is_relative(cmd: Command) -> bool {
    cmd is SeekRelative
}

/// The queue of relative seeks with those of a list of commands.
pub open spec fn queued_all(queue: Option<QueuedSeek>, cmds: Seq<Command>) -> Option<QueuedSeek>
    decreases cmds.len(),
{
    if cmds.len() == 0 {
        queue
    } else {
        let q = queued_all(queue, cmds.drop_last());
        match cmds.last() {
            Command::SeekRelative { delta_us, exact } => queued(q, delta_us, exact),
            _ => q,
        }
    }
}

/// Whether commands are relative seeks, but for the last of them, which may be any command.
pub open spec fn is_batch(cmds: Seq<Command>) -> bool {
    forall|i: int| 0 <= i < cmds.len() - 1 ==> is_relative(#[trigger] cmds[i])
}

/// The commands behind a relative seek that are taken along with it: further relative seeks, and
/// the command behind those.
#[derive(Debug)]
pub struct Batch {
    pub cmds: Vec<Command>,
    /// Whether more may be taken: only relative seeks were, and the channel was not found empty.
    pub open: bool,
}

impl Batch {
    /// Whether the commands are a batch, and relative seeks alone where more may be taken.
    pub open spec fn wf(self) -> bool {
        &&& is_batch(self.cmds@)
        &&& self.open && self.cmds.len() > 0 ==> is_relative(self.cmds@.last())
    }

    /// A batch without commands.
    pub fn new() -> (r: Batch)
        ensures
            r.wf(),
            r.cmds@ == Seq::<Command>::empty(),
            r.open,
    {
        Batch { cmds: Vec::new(), open: true }
    }

    /// Takes what was received. A command that is no relative seek closes the batch behind itself,
    /// and so does a channel that has nothing to give.
    pub fn take(&mut self, received: Result<Command, TryRecvError>)
        requires
            old(self).wf(),
            old(self).open,
        ensures
            final(self).wf(),
            match received {
                Ok(cmd) => final(self).cmds@ == old(self).cmds@.push(cmd) && final(self).open
                    == is_relative(cmd),
                Err(_) => final(self).cmds@ == old(self).cmds@ && !final(self).open,
            },
    {
        match received {
            Ok(cmd) => {
                self.open =
                match cmd {
                    Command::SeekRelative { delta_us: _, exact: _ } => true,
                    _ => false,
                };
                self.cmds.push(cmd);
                assert forall|i: int| 0 <= i < self.cmds@.len() - 1 implies is_relative(
                    #[trigger] self.cmds@[i],
                ) by {
                    assert(self.cmds@[i] == old(self).cmds@[i]);
                }
            },
            Err(_) => {
                self.open = false;
            },
        }
    }

    /// Takes the commands that wait in a channel, up to one that is no relative seek. Which those
    /// are depends on the thread that sends them.
    pub fn collect(cmd_rx: &Receiver<Command>) -> (r: Batch)
        ensures
            r.wf(),
    {
        let mut batch = Batch::new();
        let mut left: u64 = u64::MAX;
        while batch.open && left > 0
            invariant
                batch.wf(),
            decreases left,
        {
            left = left - 1;
            batch.take(cmd_rx.try_recv());
        }
        batch
    }
}

impl PlayerCore {
    /// The state with the relative seeks of commands queued.
    pub open spec fn with_seeks(self, cmds: Seq<Command>) -> PlayerCore {
        PlayerCore { queued_seek: queued_all(self.queued_seek, cmds), ..self }
    }

    /// Whether an outcome is that of a batch of commands: its relative seeks are queued, and the
    /// command behind them, if any, is answered.
    pub open spec fn answers_batch(
        self,
        cmds: Seq<Command>,
        reading: i64,
        outcome: Outcome,
        next: PlayerCore,
    ) -> bool {
        if cmds.len() > 0 && !is_relative(cmds.last()) {
            self.with_seeks(cmds.drop_last()).answers(cmds.last(), reading, outcome, next)
        } else {
            next == self.with_seeks(cmds) && !outcome.quit && outcome.effects@ == Seq::<
                Effect,
            >::empty()
        }
    }

    /// Whether an outcome is that of a command, and of a batch behind it where that command is a
    /// relative seek.
    pub open spec fn answers_all(
        self,
        cmd: Command,
        cmds: Seq<Command>,
        reading: i64,
        outcome: Outcome,
        next: PlayerCore,
    ) -> bool {
        if is_relative(cmd) {
            self.after(cmd, reading).answers_batch(cmds, reading, outcome, next)
        } else {
            self.answers(cmd, reading, outcome, next)
        }
    }

    /// Handles a batch of commands.
    pub fn handle_batch(&mut self, cmds: &Vec<Command>, reading: i64) -> (outcome: Outcome)
        requires
            is_batch(cmds@),
        ensures
            old(self).answers_batch(cmds@, reading, outcome, *final(self)),
    {
        let mut i: usize = 0;
        assert(cmds@.take(0) =~= Seq::empty());
        while i < cmds.len()
            invariant
                i <= cmds.len(),
                is_batch(cmds@),
                forall|k: int| 0 <= k < i ==> is_relative(#[trigger] cmds@[k]),
                *self == old(self).with_seeks(cmds@.take(i as int)),
            decreases cmds.len() - i,
        {
            match cmds[i] {
                Command::SeekRelative { delta_us, exact } => {
                    self.queue_seek(delta_us, exact);
                    assert(cmds@.take(i + 1).drop_last() =~= cmds@.take(i as int));
                    i = i + 1;
                },
                other => {
                    assert(i == cmds.len() - 1);
                    assert(cmds@.take(i as int) =~= cmds@.drop_last());
                    return self.handle_single(other, reading);
                },
            }
        }
        assert(cmds@.take(i as int) =~= cmds@);
        Outcome { quit: false, effects: Vec::new() }
    }

    /// Takes further relative seeks off the channel of commands, and the command behind those.
    pub fn drain_seek_commands(&mut self, reading: i64, cmd_rx: &Receiver<Command>) -> (outcome:
        Outcome)
        ensures
            exists|cmds: Seq<Command>|
                is_batch(cmds) && #[trigger] old(self).answers_batch(
                    cmds,
                    reading,
                    outcome,
                    *final(self),
                ),
    {
        let batch = Batch::collect(cmd_rx);
        self.handle_batch(&batch.cmds, reading)
    }

    /// Handles a command that both modes handle alike. A relative seek takes those that wait behind
    /// it off the channel with it, and the command behind those.
    pub fn handle_command_shared(
        &mut self,
        cmd: Command,
        reading: i64,
        cmd_rx: &Receiver<Command>,
    ) -> (outcome: Outcome)
        ensures
            exists|cmds: Seq<Command>|
                is_batch(cmds) && #[trigger] old(self).answers_all(
                    cmd,
                    cmds,
                    reading,
                    outcome,
                    *final(self),
                ),
    {
        let first = self.handle_single(cmd, reading);
        match cmd {
            Command::SeekRelative { delta_us: _, exact: _ } => {
                let ghost sought = *self;
                let outcome = self.drain_seek_commands(reading, cmd_rx);
                proof {
                    let cmds = choose|cmds: Seq<Command>|
                        is_batch(cmds) && #[trigger] sought.answers_batch(
                            cmds,
                            reading,
                            outcome,
                            *self,
                        );
                    assert(old(self).answers_all(cmd, cmds, reading, outcome, *self));
                }
                outcome
            },
            _ => {
                assert(is_batch(Seq::empty()));
                assert(old(self).answers_all(cmd, Seq::empty(), reading, first, *self));
                first
            },
        }
    }

    /// Whether a notice speaks of a track that there is.
    pub open spec fn can_say(self, notice: Notice) -> bool {
        match notice {
            Notice::AudioTrack { track } => track < self.stream_info.audio_streams.len(),
            Notice::SubtitleTrack { track } => track < self.subtitle_tracks.len(),
            _ => true,
        }
    }

    /// The text of a notice.
    pub open spec fn said(self, notice: Notice) -> Seq<char> {
        match notice {
            Notice::Volume { percent, muted } => (if muted {
                "Muted"@
            } else {
                "Volume"@
            }) + ": "@ + numeral(percent as nat) + "%"@,
            Notice::AudioDelay { ms } => "Audio delay: "@ + explicit_numeral(ms as int) + "ms"@,
            Notice::AudioTrack { track } => "Audio: "@ + numeral((track + 1) as nat) + "/"@
                + numeral(self.stream_info.audio_streams.len() as nat) + " - "@ + audio_text(
                self.stream_info.audio_streams@[track as int]@,
            ),
            Notice::NoSubtitles => "Subtitles: none available"@,
            Notice::SubtitlesOff => "Subtitles: off"@,
            Notice::SubtitleTrack { track } => "Subtitles: "@
                + self.subtitle_tracks@[track as int].label@,
        }
    }

    /// Words a notice.
    pub fn notice_text(&self, notice: Notice) -> (r: String)
        requires
            self.can_say(notice),
        ensures
            r@ == self.said(notice),
    {
        match notice {
            Notice::Volume { percent, muted } => {
                let mut out: String = if muted {
                    "Muted".to_string()
                } else {
                    "Volume".to_string()
                };
                append(&mut out, ": ");
                push_numeral(&mut out, percent as u64);
                append(&mut out, "%");
                out
            },
            Notice::AudioDelay { ms } => {
                let mut out: String = "Audio delay: ".to_string();
                push_explicit(&mut out, ms);
                append(&mut out, "ms");
                out
            },
            Notice::AudioTrack { track } => {
                let mut out: String = "Audio: ".to_string();
                push_numeral(&mut out, track as u64 + 1);
                append(&mut out, "/");
                push_numeral(&mut out, self.stream_info.audio_streams.len() as u64);
                append(&mut out, " - ");
                append(
                    &mut out,
                    format_audio_info(&self.stream_info.audio_streams[track]).as_str(),
                );
                out
            },
            Notice::NoSubtitles => "Subtitles: none available".to_string(),
            Notice::SubtitlesOff => "Subtitles: off".to_string(),
            Notice::SubtitleTrack { track } => {
                let mut out: String = "Subtitles: ".to_string();
                append(&mut out, self.subtitle_tracks[track].label.as_str());
                out
            },
        }
    }

    /// The subtitle of the current track, where there is one.
    pub open spec fn subtitle_at(self, reading: i64) -> Option<Seq<char>> {
        let track = self.subtitle_tracks@[self.current_subtitle_idx->Some_0 as int];
        shown_at(cues(track.entries@), self.position(reading) as int)
    }

    /// Whether there is a current subtitle track.
    pub open spec fn has_subtitles(self) -> bool {
        self.current_subtitle_idx matches Some(i) && i < self.subtitle_tracks.len()
    }

    /// Whether the subtitle is remembered, and is given where it differs from what was shown last.
    pub open spec fn shows(self, reading: i64, r: Option<Option<String>>, next: PlayerCore) -> bool {
        let t = self.subtitle_at(reading);
        &&& next == (PlayerCore { last_subtitle_text: next.last_subtitle_text, ..self })
        &&& optional(next.last_subtitle_text) == t
        &&& if t == optional(self.last_subtitle_text) {
            r is None
        } else {
            r matches Some(text) && optional(text) == t
        }
    }

    /// Works out the subtitle to show; gives it where it changed.
    pub fn update_subtitles(&mut self, reading: i64) -> (r: Option<Option<String>>)
        ensures
            if old(self).has_subtitles() {
                old(self).shows(reading, r, *final(self))
            } else {
                r is None && *final(self) == *old(self)
            },
    {
        let i: usize = match self.current_subtitle_idx {
            Some(i) => i,
            None => {
                return None;
            },
        };
        if i >= self.subtitle_tracks.len() {
            return None;
        }
        let pts: i64 = self.clock.audio_pts_at(reading);
        let current: Option<&str> = self.subtitle_tracks[i].text_at(pts);
        assert(optional_text(current) == self.subtitle_at(reading));
        let changed: bool = match (current, &self.last_subtitle_text) {
            (Some(a), Some(b)) => !same_text(a, b.as_str()),
            (None, None) => false,
            _ => true,
        };
        if !changed {
            return None;
        }
        let text: Option<String> = match current {
            Some(s) => Some(s.to_string()),
            None => None,
        };
        let copy: Option<String> = match &text {
            Some(s) => Some(s.clone()),
            None => None,
        };
        self.last_subtitle_text = copy;
        Some(text)
    }

    /// Ends the file once all audio was heard: the position is past its end, or the output, of which
    /// `buffered` samples remain, has run dry.
    pub fn check_eof(&mut self, reading: i64, buffered: usize) -> (effects: Vec<Effect>)
        ensures
            ({
                let done = old(self).eof_audio_end_us matches Some(end) && (old(self).position(
                    reading,
                ) >= end || (old(self).has_output && buffered == 0));
                &&& effects@ == only_if(done, Effect::UiEnd(EndReason::Eof))
                &&& *final(self) == if done {
                    PlayerCore { eof_audio_end_us: None, ..*old(self) }
                } else {
                    *old(self)
                }
            }),
            old(self).eof_audio_end_us is None ==> effects@.len() == 0,
            effects@.len() > 0 ==> effects@ == seq![Effect::UiEnd(EndReason::Eof)],
            effects@.len() > 0 ==> final(self).eof_audio_end_us is None,
            effects@.len() == 0 ==> final(self).eof_audio_end_us == old(self).eof_audio_end_us,
            old(self).eof_audio_end_us is Some && old(self).has_output && buffered == 0
                ==> effects@.len() == 1,
            old(self).eof_audio_end_us is Some && old(self).position(reading)
                >= old(self).eof_audio_end_us->0 ==> effects@.len() == 1,
    {
        let mut effects: Vec<Effect> = Vec::new();
        match self.eof_audio_end_us {
            Some(end) => {
                if self.clock.audio_pts_at(reading) >= end || (self.has_output && buffered == 0) {
                    self.eof_audio_end_us = None;
                    effects.push(Effect::UiEnd(EndReason::Eof));
                    assert(effects@ =~= seq![Effect::UiEnd(EndReason::Eof)]);
                }
            },
            None => {},
        }
        effects
    }

    /// The buffer with the audio delay on its time.
    pub open spec fn delayed<S>(self, buf: AudioBuffer<S>) -> AudioBuffer<S> {
        AudioBuffer { pts_us: (buf.pts_us + self.audio_delay_us) as i64, ..buf }
    }

    /// The larger of the last end of audio and that of a buffer.
    pub open spec fn later_end<S>(self, buf: AudioBuffer<S>) -> i64 {
        if buf.end() > self.last_audio_end_us {
            buf.end() as i64
        } else {
            self.last_audio_end_us
        }
    }

    /// Notes where a buffer ends.
    pub fn note_audio_end<S>(&mut self, buf: &AudioBuffer<S>)
        requires
            buf.has_end(),
        ensures
            *final(self) == (PlayerCore {
                last_audio_end_us: old(self).later_end(*buf),
                ..*old(self)
            }),
    {
        let end: i64 = buf.end_us();
        if end > self.last_audio_end_us {
            self.last_audio_end_us = end;
        }
    }

    /// Puts the audio delay on a decoded buffer and says what is to be done before it is scheduled;
    /// none where it lies before the target of an exact seek and is to be dropped.
    pub fn accept_audio<S>(&mut self, buf: &mut AudioBuffer<S>) -> (r: Option<Vec<Effect>>)
        requires
            i64::MIN <= old(buf).pts_us + old(self).audio_delay_us <= i64::MAX,
            old(self).delayed(*old(buf)).pts_us >= old(self).seek_floor_us ==> old(self).delayed(
                *old(buf),
            ).has_end(),
        ensures
            *final(buf) == old(self).delayed(*old(buf)),
            ({
                let pts_us = final(buf).pts_us;
                match r {
                    None => pts_us < old(self).seek_floor_us && *final(self) == *old(self),
                    Some(effects) => {
                        &&& pts_us >= old(self).seek_floor_us
                        &&& *final(self) == (PlayerCore {
                            seek_landed: true,
                            last_audio_end_us: old(self).later_end(*final(buf)),
                            ..*old(self)
                        })
                        &&& effects@ == only_if(
                            !old(self).seek_landed,
                            Effect::SetClock(pts_us),
                        ) + only_if(
                            !old(self).seek_landed && !old(self).has_video(),
                            Effect::UiSeekFlush(pts_us),
                        )
                    },
                }
            }),
            r is Some ==> {
                let pts_us = old(buf).pts_us + old(self).audio_delay_us;
                &&& pts_us >= old(self).seek_floor_us
                &&& final(self).seek_landed
                &&& final(self).last_audio_end_us >= final(buf).end()
                &&& forall|e: Effect| #[trigger]
                    r->0@.contains(e) <==> !old(self).seek_landed && (e == Effect::SetClock(
                        pts_us as i64,
                    ) || (e == Effect::UiSeekFlush(pts_us as i64)
                        && old(self).stream_info.video_stream is None))
            },
    {
        let pts_us: i64 = buf.pts_us + self.audio_delay_us;
        buf.pts_us = pts_us;
        if pts_us < self.seek_floor_us {
            return None;
        }
        let mut effects: Vec<Effect> = Vec::new();
        let landing: bool = !self.seek_landed;
        let has_video: bool = self.stream_info.video_stream.is_some();
        push_when(&mut effects, landing, Effect::SetClock(pts_us));
        push_when(&mut effects, landing && !has_video, Effect::UiSeekFlush(pts_us));
        self.seek_landed = true;
        self.note_audio_end(buf);
        assert(effects@ =~= only_if(landing, Effect::SetClock(pts_us)) + only_if(
            landing && !has_video,
            Effect::UiSeekFlush(pts_us),
        ));
        proof {
            lemma_only_if(landing, Effect::SetClock(pts_us));
            lemma_only_if(landing && !has_video, Effect::UiSeekFlush(pts_us));
            lemma_effects_behind(
                only_if(landing, Effect::SetClock(pts_us)),
                only_if(landing && !has_video, Effect::UiSeekFlush(pts_us)),
            );
        }
        Some(effects)
    }

    /// At the end of the file: waits for the scheduled audio to be heard, if there is any.
    pub fn signal_eof(&mut self) -> (effects: Vec<Effect>)
        ensures
            ({
                let audible = old(self).has_output && old(self).last_audio_end_us > 0;
                &&& effects@ == only_if(!audible, Effect::UiEnd(EndReason::Eof))
                &&& *final(self) == if audible {
                    PlayerCore {
                        eof_audio_end_us: Some(old(self).last_audio_end_us),
                        ..*old(self)
                    }
                } else {
                    *old(self)
                }
            }),
            effects@.len() > 0 <==> !old(self).has_output || old(self).last_audio_end_us <= 0,
            effects@.len() > 0 ==> effects@ == seq![Effect::UiEnd(EndReason::Eof)],
            effects@.len() == 0 ==> final(self).eof_audio_end_us == Some(
                old(self).last_audio_end_us,
            ),
    {
        let mut effects: Vec<Effect> = Vec::new();
        if self.has_output && self.last_audio_end_us > 0 {
            self.eof_audio_end_us = Some(self.last_audio_end_us);
        } else {
            effects.push(Effect::UiEnd(EndReason::Eof));
            assert(effects@ =~= seq![Effect::UiEnd(EndReason::Eof)]);
        }
        effects
    }

    /// The state without audio that is under way.
    pub open spec fn without_audio(self) -> PlayerCore {
        PlayerCore { last_audio_end_us: 0, eof_audio_end_us: None, ..self }
    }

    /// What is to be done to drop the audio that is under way.
    pub open spec fn audio_flushes(self) -> Seq<Effect> {
        only_if(self.has_decoder, Effect::FlushAudioDecoder) + only_if(
            self.has_output,
            Effect::AudioFlush,
        )
    }

    /// Drops the audio that is under way.
    pub fn flush_audio_pipeline(&mut self) -> (effects: Vec<Effect>)
        ensures
            *final(self) == old(self).without_audio(),
            effects@ == old(self).audio_flushes(),
    {
        self.last_audio_end_us = 0;
        self.eof_audio_end_us = None;
        let mut effects: Vec<Effect> = Vec::new();
        push_when(&mut effects, self.has_decoder, Effect::FlushAudioDecoder);
        push_when(&mut effects, self.has_output, Effect::AudioFlush);
        assert(effects@ =~= old(self).audio_flushes());
        effects
    }

    /// The number of pending seeks with one more.
    pub open spec fn more_pending(self) -> u32 {
        if self.pending_seeks < u32::MAX {
            (self.pending_seeks + 1) as u32
        } else {
            u32::MAX
        }
    }

    /// The number of pending seeks after a flush.
    pub open spec fn less_pending(self) -> u32 {
        if self.pending_seeks > 0 {
            (self.pending_seeks - 1) as u32
        } else {
            0
        }
    }

    /// The state once a seek was dispatched.
    pub open spec fn sought(self, target: i64, exact: bool) -> PlayerCore {
        PlayerCore {
            pending_seeks: self.more_pending(),
            seek_landed: self.seek_landed && exact,
            seek_floor_us: if exact {
                target
            } else {
                0
            },
            ..self
        }
    }

    /// Counts a seek that the demuxer is to answer with a flush.
    pub fn count_pending(&mut self)
        ensures
            *final(self) == (PlayerCore {
                pending_seeks: old(self).more_pending(),
                ..*old(self)
            }),
    {
        if self.pending_seeks < u32::MAX {
            self.pending_seeks = self.pending_seeks + 1;
        }
    }

    /// Counts a flush that answers a seek.
    pub fn count_flush(&mut self)
        ensures
            *final(self) == (PlayerCore {
                pending_seeks: old(self).less_pending(),
                ..*old(self)
            }),
    {
        if self.pending_seeks > 0 {
            self.pending_seeks = self.pending_seeks - 1;
        }
    }

    /// Counts a seek to where playback starts, and drops the audio that is under way.
    pub fn seek_to_start(&mut self, target_us: i64) -> (effects: Vec<Effect>)
        ensures
            *final(self) == (PlayerCore {
                pending_seeks: old(self).more_pending(),
                seek_floor_us: target_us,
                ..old(self).without_audio()
            }),
            effects@ == old(self).audio_flushes(),
    {
        self.count_pending();
        let effects = self.flush_audio_pipeline();
        self.seek_floor_us = target_us;
        effects
    }

    /// Dispatches a seek, as far as both modes do alike.
    pub fn dispatch_seek_common(&mut self, target: i64, forward: bool, exact: bool) -> (effects:
        Vec<Effect>)
        ensures
            *final(self) == old(self).sought(target, exact),
            effects@ == seq![
                Effect::Demux(DemuxCommand::Seek { target_pts: target, forward }),
                Effect::SetClock(target),
            ],
    {
        let mut effects: Vec<Effect> = Vec::new();
        effects.push(Effect::Demux(DemuxCommand::Seek { target_pts: target, forward }));
        self.count_pending();
        if !exact {
            self.seek_landed = false;
        }
        self.seek_floor_us = if exact {
            target
        } else {
            0
        };
        effects.push(Effect::SetClock(target));
        assert(effects@ =~= seq![
            Effect::Demux(DemuxCommand::Seek { target_pts: target, forward }),
            Effect::SetClock(target),
        ]);
        effects
    }
}

/// Muting and unmuting restores the volume.
pub proof fn lemma_mute_restores_volume(c: PlayerCore, reading: i64)
    requires
        c.pre_mute_volume is None,
    ensures
        c.after(Command::ToggleMute, reading).volume == 0,
        c.after(Command::ToggleMute, reading).after(Command::ToggleMute, reading) == c,
{
}

/// No command takes the volume out of 0 to 100 percent.
pub proof fn lemma_volume_stays_in_range(c: PlayerCore, cmd: Command, reading: i64)
    requires
        c.volume <= 100,
        c.pre_mute_volume matches Some(v) ==> v <= 100,
    ensures
        c.after(cmd, reading).volume <= 100,
        c.after(cmd, reading).pre_mute_volume matches Some(v) ==> v <= 100,
{
}

/// Changing the volume ends a mute.
pub proof fn lemma_volume_change_unmutes(c: PlayerCore, cmd: Command, reading: i64)
    requires
        cmd == Command::VolumeUp || cmd == Command::VolumeDown,
    ensures
        c.after(cmd, reading).pre_mute_volume is None,
{
}

/// Pausing holds the position, whatever the audio clock reads later, and resuming follows the audio
/// clock again.
pub proof fn lemma_pause_and_resume(c: PlayerCore, at: i64, later: i64, last: i64)
    requires
        !c.paused,
        !c.clock.paused,
    ensures
        c.after(Command::PlayPause, at).paused,
        c.after(Command::PlayPause, at).position(later) == c.position(at),
        !c.after(Command::PlayPause, at).after(Command::PlayPause, later).paused,
        c.after(Command::PlayPause, at).after(Command::PlayPause, later).position(last) == last,
{
}

/// A seek never leaves the file.
pub proof fn lemma_seek_stays_in_file(target_us: int, duration_us: i64)
    requires
        duration_us >= 0,
    ensures
        0 <= within_file(target_us, duration_us) <= duration_us,
        0 <= target_us <= duration_us ==> within_file(target_us, duration_us) == target_us,
{
}

/// The subtitle track after `presses` changes.
pub open spec fn subtitle_after(current: Option<usize>, total: int, presses: nat) -> Option<usize>
    decreases presses,
{
    if presses == 0 {
        current
    } else {
        next_subtitle(subtitle_after(current, total, (presses - 1) as nat), total)
    }
}

/// Each subtitle track comes up in turn, then none, and then it starts over: after one change more
/// than there are tracks all is as it was.
pub proof fn lemma_subtitles_come_round(current: Option<usize>, total: int)
    requires
        0 < total <= usize::MAX,
        current matches Some(i) ==> i < total,
    ensures
        subtitle_after(current, total, (total + 1) as nat) == current,
        forall|k: nat|
            k < total ==> #[trigger] subtitle_after(None, total, k + 1) == Some(k as usize),
{
    assert forall|k: nat| k < total implies #[trigger] subtitle_after(None, total, k + 1) == Some(
        k as usize,
    ) by {
        lemma_subtitle_steps(None, total, k + 1);
    }
    lemma_subtitle_steps(current, total, (total + 1) as nat);
}

/// The place of a subtitle track in the round: none first, then the tracks.
spec fn subtitle_place(current: Option<usize>) -> int {
    match current {
        Some(i) => i + 1,
        None => 0,
    }
}

proof fn lemma_subtitle_steps(current: Option<usize>, total: int, presses: nat)
    requires
        0 < total <= usize::MAX,
        current matches Some(i) ==> i < total,
        presses <= total + 1,
    ensures
        ({
            let sum = subtitle_place(current) + presses;
            let place = if sum >= total + 1 {
                sum - (total + 1)
            } else {
                sum
            };
            &&& 0 <= place <= total
            &&& subtitle_after(current, total, presses) == if place == 0 {
                None
            } else {
                Some((place - 1) as usize)
            }
        }),
    decreases presses,
{
    if presses > 0 {
        lemma_subtitle_steps(current, total, (presses - 1) as nat);
    }
}

/// The audio track after `presses` changes comes round to itself after as many as there are tracks.
pub proof fn lemma_audio_tracks_come_round(c: PlayerCore)
    requires
        c.tracks() > 1,
        c.current_audio_track < c.tracks(),
    ensures
        audio_after(c.current_audio_track as int, c.tracks(), c.tracks() as nat)
            == c.current_audio_track,
        c.next_track() < c.tracks(),
        c.after(Command::CycleAudioTrack, 0).current_audio_track == audio_after(
            c.current_audio_track as int,
            c.tracks(),
            1,
        ),
{
    let n = c.tracks();
    let k = c.current_audio_track as int;
    lemma_audio_steps(k, n, n as nat);
    lemma_audio_steps(k, n, 1);
    assert((k + n) % n == k) by {
        vstd::arithmetic::div_mod::lemma_mod_add_multiples_vanish(k, n);
        vstd::arithmetic::div_mod::lemma_small_mod(k as nat, n as nat);
    }
    vstd::arithmetic::div_mod::lemma_mod_bound(k + 1, n);
}

/// The audio track after `presses` changes.
pub open spec fn audio_after(track: int, total: int, presses: nat) -> int
    decreases presses,
{
    if presses == 0 {
        track
    } else {
        (audio_after(track, total, (presses - 1) as nat) + 1) % total
    }
}

proof fn lemma_audio_steps(track: int, total: int, presses: nat)
    requires
        total > 0,
        0 <= track < total,
    ensures
        audio_after(track, total, presses) == (track + presses) % total,
    decreases presses,
{
    if presses == 0 {
        vstd::arithmetic::div_mod::lemma_small_mod(track as nat, total as nat);
    } else {
        lemma_audio_steps(track, total, (presses - 1) as nat);
        vstd::arithmetic::div_mod::lemma_add_mod_noop(track + presses - 1, 1, total);
        vstd::arithmetic::div_mod::lemma_add_mod_noop((track + presses - 1) % total, 1, total);
        vstd::arithmetic::div_mod::lemma_mod_twice(track + presses - 1, total);
    }
}

/// The sum of the relative seeks among commands.
pub open spec fn delta_sum(cmds: Seq<Command>) -> int
    decreases cmds.len(),
{
    if cmds.len() == 0 {
        0
    } else {
        delta_sum(cmds.drop_last()) + match cmds.last() {
            Command::SeekRelative { delta_us, .. } => delta_us as int,
            _ => 0,
        }
    }
}

/// Whether a relative seek among commands is to be exact.
pub open spec fn any_exact(cmds: Seq<Command>) -> bool {
    exists|k: int|
        0 <= k < cmds.len() && (#[trigger] cmds[k] matches Command::SeekRelative {
            exact,
            ..
        } && exact)
}

/// Relative seeks that wait behind one another are one seek: exact where any of them is, and by their
/// sum, where that fits a time with each of them added.
pub proof fn lemma_queued_seeks_add_up(cmds: Seq<Command>)
    requires
        cmds.len() > 0,
        forall|k: int| 0 <= k < cmds.len() ==> is_relative(#[trigger] cmds[k]),
    ensures
        queued_all(None, cmds) matches Some(q) && q.exact == any_exact(cmds) && ((forall|k: int|
            0 <= k <= cmds.len() ==> i64::MIN <= #[trigger] delta_sum(cmds.take(k)) <= i64::MAX)
            ==> q.delta_us == delta_sum(cmds)),
    decreases cmds.len(),
{
    let head = cmds.drop_last();
    let last = cmds.last();
    assert(cmds[cmds.len() - 1] == last);
    assert(cmds.take(cmds.len() as int) =~= cmds);
    assert(any_exact(cmds) == (any_exact(head) || last->exact)) by {
        if any_exact(head) {
            let k = choose|k: int|
                0 <= k < head.len() && (#[trigger] head[k] matches Command::SeekRelative {
                    exact,
                    ..
                } && exact);
            assert(cmds[k] == head[k]);
        }
        if any_exact(cmds) && !last->exact {
            let k = choose|k: int|
                0 <= k < cmds.len() && (#[trigger] cmds[k] matches Command::SeekRelative {
                    exact,
                    ..
                } && exact);
            assert(head[k] == cmds[k]);
        }
    }
    if head.len() > 0 {
        assert forall|k: int| 0 <= k < head.len() implies is_relative(#[trigger] head[k]) by {
            assert(head[k] == cmds[k]);
        }
        lemma_queued_seeks_add_up(head);
        if forall|k: int|
            0 <= k <= cmds.len() ==> i64::MIN <= #[trigger] delta_sum(cmds.take(k)) <= i64::MAX {
            assert forall|k: int| 0 <= k <= head.len() implies i64::MIN <= #[trigger] delta_sum(
                head.take(k),
            ) <= i64::MAX by {
                assert(head.take(k) =~= cmds.take(k));
            }
        }
    } else {
        assert(queued_all(None, head) is None);
        assert(delta_sum(head) == 0);
        assert(!any_exact(head));
    }
}

/// A subtitle is given once: where it differs from what was shown before. Asked again, with nothing
/// else changed, the player gives nothing.
pub proof fn lemma_subtitle_given_once(
    c: PlayerCore,
    reading: i64,
    first: Option<Option<String>>,
    next: PlayerCore,
    again: Option<Option<String>>,
    last: PlayerCore,
)
    requires
        c.has_subtitles(),
        c.shows(reading, first, next),
        next.shows(reading, again, last),
    ensures
        first is Some <==> c.subtitle_at(reading) != optional(c.last_subtitle_text),
        first matches Some(text) ==> optional(text) == c.subtitle_at(reading),
        optional(next.last_subtitle_text) == c.subtitle_at(reading),
        again is None,
{
}

/// Every message that a command leads to can be worded.
pub proof fn lemma_notices_can_be_said(c: PlayerCore, cmd: Command, reading: i64, i: int)
    requires
        0 <= i < c.effects(cmd, c.after(cmd, reading)).len(),
        c.current_audio_track < c.tracks() || c.tracks() == 0,
        c.current_subtitle_idx matches Some(k) ==> k < c.subtitle_tracks.len(),
    ensures
        c.effects(cmd, c.after(cmd, reading))[i] matches Effect::Osd(notice) ==> c.after(
            cmd,
            reading,
        ).can_say(notice),
{
    if c.tracks() > 1 {
        vstd::arithmetic::div_mod::lemma_mod_bound(c.current_audio_track + 1, c.tracks());
    }
}

/// The number of pending seeks after as many flushes.
pub open spec fn pending_after(pending: int, flushes: int) -> int {
    if flushes < pending {
        pending - flushes
    } else {
        0
    }
}

/// A flush for each seek settles them: a player that has dispatched only the seeks of a batch has
/// none pending once the flushes that answer the batch have arrived.
pub proof fn lemma_flushes_settle_seeks<P>(
    before: DemuxView<P>,
    target_pts: i64,
    forward: bool,
    cmds: Seq<DemuxCommand>,
    plan: SeekPlan,
    after: DemuxView<P>,
)
    requires
        is_applied(before, coalesced(target_pts, forward, cmds), Action::Seek(plan), after),
    ensures
        pending_after(1 + seeks_in(cmds), plan.flushes as int) == 0,
        forall|n: int|
            0 <= n < plan.flushes ==> #[trigger] pending_after(1 + seeks_in(cmds), n) > 0,
{
    lemma_one_flush_per_seek(before, target_pts, forward, cmds, plan, after);
}

/// A flush takes back what a seek adds to the pending ones, and leaves none below zero.
pub proof fn lemma_flush_undoes_seek(c: PlayerCore, target: i64, exact: bool)
    requires
        c.pending_seeks < u32::MAX,
    ensures
        c.sought(target, exact).less_pending() == c.pending_seeks,
        c.less_pending() == pending_after(c.pending_seeks as int, 1),
{
}

/// Switching the audio track goes on to the next one in the list, and from the last to the first.
/// The demuxer and the decoder are told to take the stream of that track, whatever its index in the
/// file is, what is under way of the old one is dropped, and the message names the new one.
pub proof fn lemma_next_audio_track_is_taken(
    c: PlayerCore,
    reading: i64,
    outcome: Outcome,
    next: PlayerCore,
)
    requires
        c.answers(Command::CycleAudioTrack, reading, outcome, next),
        c.stream_info.audio_streams.len() > 1,
        c.current_audio_track < c.stream_info.audio_streams.len(),
    ensures
        !outcome.quit,
        next == (PlayerCore { current_audio_track: next.current_audio_track, ..c }),
        next.current_audio_track == if c.current_audio_track + 1
            == c.stream_info.audio_streams.len() {
            0
        } else {
            c.current_audio_track + 1
        },
        next.audio_source() == Some(
            c.stream_info.audio_streams@[next.current_audio_track as int].index,
        ),
        ({
            let stream = c.stream_info.audio_streams@[next.current_audio_track as int].index;
            forall|e: Effect|
                outcome.effects@.contains(e) <==> {
                    ||| e == Effect::Demux(DemuxCommand::ChangeAudio(stream))
                    ||| e == Effect::SwitchAudio(stream)
                    ||| e == Effect::Osd(Notice::AudioTrack { track: next.current_audio_track })
                    ||| e == Effect::FlushAudioDecoder && c.has_decoder
                    ||| e == Effect::AudioFlush && c.has_output
                }
        }),
        outcome.effects@.no_duplicates(),
{
    let n = c.tracks();
    let k = c.current_audio_track as int;
    if k + 1 < n {
        vstd::arithmetic::div_mod::lemma_small_mod((k + 1) as nat, n as nat);
    } else {
        vstd::arithmetic::div_mod::lemma_mod_self_0(n);
    }
    let s = outcome.effects@;
    let stream = c.stream_info.audio_streams@[next.current_audio_track as int].index;
    let a: int = if c.has_decoder {
        1
    } else {
        0
    };
    let b: int = if c.has_output {
        a + 1
    } else {
        a
    };
    assert(c.has_decoder ==> s[0] == Effect::FlushAudioDecoder);
    assert(c.has_output ==> s[a] == Effect::AudioFlush);
    assert(s[b] == Effect::Demux(DemuxCommand::ChangeAudio(stream)));
    assert(s[b + 1] == Effect::SwitchAudio(stream));
    assert(s[b + 2] == Effect::Osd(Notice::AudioTrack { track: next.current_audio_track }));
    assert(s.len() == b + 3);
}

/// With no other audio track nothing happens.
pub proof fn lemma_only_audio_track_stays(
    c: PlayerCore,
    reading: i64,
    outcome: Outcome,
    next: PlayerCore,
)
    requires
        c.answers(Command::CycleAudioTrack, reading, outcome, next),
        c.stream_info.audio_streams.len() <= 1,
    ensures
        next == c,
        outcome.effects@.len() == 0,
        !outcome.quit,
{
}

/// The stream that is decoded is that of the current track, and there is none without tracks.
pub proof fn lemma_source_is_the_current_track(c: PlayerCore)
    ensures
        c.audio_source() is Some <==> c.current_audio_track < c.stream_info.audio_streams.len(),
        c.audio_source() matches Some(x) ==> x
            == c.stream_info.audio_streams@[c.current_audio_track as int].index,
{
}

/// Switching subtitles goes through the tracks in their order, then off, and then to the first
/// again; the message names the new track and the old subtitle goes off the screen. Without tracks a
/// message says so and nothing changes.
pub proof fn lemma_next_subtitle_is_shown(
    c: PlayerCore,
    reading: i64,
    outcome: Outcome,
    next: PlayerCore,
)
    requires
        c.answers(Command::CycleSubtitle, reading, outcome, next),
        c.current_subtitle_idx matches Some(i) ==> i < c.subtitle_tracks.len(),
    ensures
        !outcome.quit,
        next == (PlayerCore { current_subtitle_idx: next.current_subtitle_idx, ..c }),
        c.subtitle_tracks.len() == 0 ==> next == c && outcome.effects@ == seq![
            Effect::Osd(Notice::NoSubtitles),
        ],
        c.subtitle_tracks.len() > 0 ==> {
            &&& c.current_subtitle_idx is None ==> next.current_subtitle_idx == Some(0usize)
            &&& c.current_subtitle_idx matches Some(i) ==> if i + 1 == c.subtitle_tracks.len() {
                next.current_subtitle_idx is None
            } else {
                next.current_subtitle_idx matches Some(j) && j == i + 1
            }
            &&& next.current_subtitle_idx matches Some(j) ==> outcome.effects@.contains(
                Effect::Osd(Notice::SubtitleTrack { track: j }),
            )
            &&& next.current_subtitle_idx is None ==> outcome.effects@.contains(
                Effect::Osd(Notice::SubtitlesOff),
            )
            &&& outcome.effects@.contains(Effect::ClearSubtitle)
            &&& outcome.effects@.len() == 2
        },
{
    let s = outcome.effects@;
    if c.subtitle_tracks.len() > 0 {
        assert(s[0] is Osd);
        assert(s[1] == Effect::ClearSubtitle);
    }
}

/// The volume keys change the volume by five percent, from nothing to full; a mute ends with them.
/// The output is set to the volume that the message names.
pub proof fn lemma_volume_keys(
    c: PlayerCore,
    up: bool,
    reading: i64,
    outcome: Outcome,
    next: PlayerCore,
)
    requires
        c.answers(
            if up {
                Command::VolumeUp
            } else {
                Command::VolumeDown
            },
            reading,
            outcome,
            next,
        ),
        c.volume <= 100,
    ensures
        !outcome.quit,
        next == (PlayerCore { volume: next.volume, pre_mute_volume: None, ..c }),
        next.volume <= 100,
        up && c.volume <= 95 ==> next.volume == c.volume + 5,
        up && c.volume > 95 ==> next.volume == 100,
        !up && c.volume >= 5 ==> next.volume == c.volume - 5,
        !up && c.volume < 5 ==> next.volume == 0,
        forall|e: Effect|
            outcome.effects@.contains(e) <==> {
                ||| e == Effect::AudioVolume(next.volume) && c.has_output
                ||| e == Effect::Osd(Notice::Volume { percent: next.volume, muted: false })
            },
        outcome.effects@.no_duplicates(),
{
    let s = outcome.effects@;
    let a: int = if c.has_output {
        1
    } else {
        0
    };
    assert(c.has_output ==> s[0] == Effect::AudioVolume(next.volume));
    assert(s[a] == Effect::Osd(Notice::Volume { percent: next.volume, muted: false }));
    assert(s.len() == a + 1);
}

/// Muting turns the volume down to nothing and keeps what it was; ending the mute brings it back.
pub proof fn lemma_mute_key(c: PlayerCore, reading: i64, outcome: Outcome, next: PlayerCore)
    requires
        c.answers(Command::ToggleMute, reading, outcome, next),
    ensures
        !outcome.quit,
        next == (PlayerCore {
            volume: next.volume,
            pre_mute_volume: next.pre_mute_volume,
            ..c
        }),
        c.pre_mute_volume is None ==> next.volume == 0 && next.pre_mute_volume == Some(c.volume),
        c.pre_mute_volume matches Some(v) ==> next.volume == v && next.pre_mute_volume is None,
        forall|e: Effect|
            outcome.effects@.contains(e) <==> {
                ||| e == Effect::AudioVolume(next.volume) && c.has_output
                ||| e == Effect::Osd(
                    Notice::Volume { percent: next.volume, muted: c.pre_mute_volume is None },
                )
            },
        outcome.effects@.no_duplicates(),
{
    let s = outcome.effects@;
    let a: int = if c.has_output {
        1
    } else {
        0
    };
    assert(c.has_output ==> s[0] == Effect::AudioVolume(next.volume));
    assert(s[a] == Effect::Osd(
        Notice::Volume { percent: next.volume, muted: c.pre_mute_volume is None },
    ));
    assert(s.len() == a + 1);
}

/// The delay keys move the audio by a tenth of a second, and the message gives the new delay in
/// milliseconds.
pub proof fn lemma_delay_keys(
    c: PlayerCore,
    more: bool,
    reading: i64,
    outcome: Outcome,
    next: PlayerCore,
)
    requires
        c.answers(
            if more {
                Command::AudioDelayIncrease
            } else {
                Command::AudioDelayDecrease
            },
            reading,
            outcome,
            next,
        ),
        i64::MIN + 100_000 <= c.audio_delay_us <= i64::MAX - 100_000,
    ensures
        !outcome.quit,
        next == (PlayerCore { audio_delay_us: next.audio_delay_us, ..c }),
        next.audio_delay_us == if more {
            c.audio_delay_us + 100_000
        } else {
            c.audio_delay_us - 100_000
        },
        outcome.effects@.len() == 1,
        outcome.effects@[0] matches Effect::Osd(Notice::AudioDelay { ms }) && ms * 1000
            <= next.audio_delay_us + 999 && ms * 1000 >= next.audio_delay_us - 999 && (
        next.audio_delay_us as int % 1000 == 0 ==> ms * 1000 == next.audio_delay_us),
{
    let x = next.audio_delay_us as int;
    let magnitude = if x < 0 {
        -x
    } else {
        x
    };
    assert(truncated_quotient(x, 1000) == if x < 0 {
        -(magnitude / 1000)
    } else {
        magnitude / 1000
    });
}

/// Pausing stops the audio output and tells the window, resuming starts it again; the position
/// stands still meanwhile.
pub proof fn lemma_pause_key(c: PlayerCore, reading: i64, outcome: Outcome, next: PlayerCore)
    requires
        c.answers(Command::PlayPause, reading, outcome, next),
    ensures
        !outcome.quit,
        next == (PlayerCore { paused: next.paused, clock: next.clock, ..c }),
        next.paused == !c.paused,
        next.clock.paused == next.paused,
        next.paused && !c.clock.paused ==> next.clock.pause_pts == reading,
        forall|e: Effect|
            outcome.effects@.contains(e) <==> {
                ||| e == Effect::AudioPause && c.has_output && next.paused
                ||| e == Effect::AudioPlay && c.has_output && !next.paused
                ||| e == Effect::UiPaused(next.paused)
            },
        outcome.effects@.no_duplicates(),
{
    let s = outcome.effects@;
    let a: int = if c.has_output {
        1
    } else {
        0
    };
    assert(c.has_output ==> s[0] == if next.paused {
        Effect::AudioPause
    } else {
        Effect::AudioPlay
    });
    assert(s[a] == Effect::UiPaused(next.paused));
    assert(s.len() == a + 1);
}

/// Quitting stops the demuxer and the audio output, and only quitting ends the player.
pub proof fn lemma_quit_key(
    c: PlayerCore,
    cmd: Command,
    reading: i64,
    outcome: Outcome,
    next: PlayerCore,
)
    requires
        c.answers(cmd, reading, outcome, next),
    ensures
        outcome.quit <==> cmd == Command::Quit,
        cmd == Command::Quit ==> {
            &&& next == c
            &&& outcome.effects@.contains(Effect::Demux(DemuxCommand::Stop))
            &&& outcome.effects@.contains(Effect::AudioStop) == c.has_output
            &&& forall|e: Effect|
                outcome.effects@.contains(e) ==> e == Effect::Demux(DemuxCommand::Stop) || e
                    == Effect::AudioStop
        },
{
    if cmd == Command::Quit {
        let s = outcome.effects@;
        assert(s[0] == Effect::Demux(DemuxCommand::Stop));
        assert(c.has_output ==> s[1] == Effect::AudioStop);
    }
}

/// The keys for another file end this one, with the reason that leads there, and change nothing
/// else.
pub proof fn lemma_file_keys(c: PlayerCore, reading: i64, outcome: Outcome, next: PlayerCore)
    ensures
        c.answers(Command::NextFile, reading, outcome, next) ==> next == c && !outcome.quit
            && outcome.effects@ == seq![Effect::UiEnd(EndReason::NextFile)],
        c.answers(Command::PrevFile, reading, outcome, next) ==> next == c && !outcome.quit
            && outcome.effects@ == seq![Effect::UiEnd(EndReason::PrevFile)],
        c.answers(Command::ToggleFullscreen, reading, outcome, next) ==> next == c
            && !outcome.quit && outcome.effects@.len() == 0,
{
}

/// A relative seek waits to be dispatched, on top of one that waits already: the distances add up,
/// and the whole is exact where either is. Nothing else changes and nothing is done yet.
pub proof fn lemma_relative_seek_waits(
    c: PlayerCore,
    delta_us: i64,
    exact: bool,
    reading: i64,
    outcome: Outcome,
    next: PlayerCore,
)
    requires
        c.answers(Command::SeekRelative { delta_us, exact }, reading, outcome, next),
    ensures
        !outcome.quit,
        outcome.effects@.len() == 0,
        next == (PlayerCore { queued_seek: next.queued_seek, ..c }),
        next.queued_seek matches Some(q) && match c.queued_seek {
            None => q.delta_us == delta_us && q.exact == exact,
            Some(p) => {
                &&& q.exact == (p.exact || exact)
                &&& i64::MIN <= p.delta_us + delta_us <= i64::MAX ==> q.delta_us == p.delta_us
                    + delta_us
            },
        },
{
}

/// The target of a seek is where it was asked to go; before the start it is the start, and past the
/// end it is the end.
pub proof fn lemma_target_is_what_was_asked(target_us: int, duration_us: i64)
    requires
        duration_us >= 0,
    ensures
        0 <= target_us <= duration_us ==> within_file(target_us, duration_us) == target_us,
        target_us < 0 ==> within_file(target_us, duration_us) == 0,
        target_us > duration_us ==> within_file(target_us, duration_us) == duration_us,
{
}

/// The position is what the audio clock reads, but while paused that where the clock was paused.
pub proof fn lemma_position_is_the_audio_clock(c: PlayerCore, reading: i64)
    ensures
        !c.clock.paused ==> c.position(reading) == reading,
        c.clock.paused ==> c.position(reading) == c.clock.pause_pts,
{
}

/// Each seek that is dispatched adds one to those that await a flush, each flush takes one off, and
/// packets are wanted again once as many flushes have come.
pub proof fn lemma_pending_seeks_are_counted(c: PlayerCore, target: i64, exact: bool)
    ensures
        c.pending_seeks < u32::MAX ==> c.more_pending() == c.pending_seeks + 1,
        c.pending_seeks > 0 ==> c.less_pending() == c.pending_seeks - 1,
        c.pending_seeks == 0 ==> c.less_pending() == 0,
        c.pending_seeks < u32::MAX ==> c.sought(target, exact).pending_seeks == c.pending_seeks
            + 1,
        c.sought(target, exact).pending_seeks > 0,
{
}

/// After a seek that is exact nothing from before its target is heard or shown. After any other
/// whatever comes first sets the clock. All else is as it was.
pub proof fn lemma_seek_sets_the_floor(c: PlayerCore, target: i64, exact: bool)
    ensures
        exact ==> c.sought(target, exact).seek_floor_us == target,
        !exact ==> c.sought(target, exact).seek_floor_us == 0,
        !exact ==> !c.sought(target, exact).seek_landed,
        exact ==> c.sought(target, exact).seek_landed == c.seek_landed,
        c.sought(target, exact) == (PlayerCore {
            pending_seeks: c.sought(target, exact).pending_seeks,
            seek_floor_us: c.sought(target, exact).seek_floor_us,
            seek_landed: c.sought(target, exact).seek_landed,
            ..c
        }),
        c.without_audio() == (PlayerCore {
            last_audio_end_us: 0,
            eof_audio_end_us: None,
            ..c
        }),
{
}

/// The audio that is under way is dropped in the decoder and in the output, as far as there are any.
pub proof fn lemma_audio_is_dropped_everywhere(c: PlayerCore)
    ensures
        forall|e: Effect|
            c.audio_flushes().contains(e) <==> {
                ||| e == Effect::FlushAudioDecoder && c.has_decoder
                ||| e == Effect::AudioFlush && c.has_output
            },
        c.audio_flushes().no_duplicates(),
{
    let s = c.audio_flushes();
    let a: int = if c.has_decoder {
        1
    } else {
        0
    };
    assert(c.has_decoder ==> s[0] == Effect::FlushAudioDecoder);
    assert(c.has_output ==> s[a] == Effect::AudioFlush);
    assert(s.len() == if c.has_output {
        a + 1
    } else {
        a
    });
}

/// One effect under a condition.
pub proof fn lemma_only_if(condition: bool, effect: Effect)
    ensures
        condition ==> only_if(condition, effect) == seq![effect],
        !condition ==> only_if(condition, effect).len() == 0,
        forall|e: Effect| #[trigger]
            only_if(condition, effect).contains(e) <==> condition && e == effect,
{
    lemma_one_effect(effect);
    assert forall|e: Effect| #[trigger] only_if(condition, effect).contains(e) <==> condition && e
        == effect by {
        if condition {
            assert(seq![effect].contains(e) <==> e == effect);
        }
    }
}

/// One effect alone is that effect.
pub proof fn lemma_one_effect(effect: Effect)
    ensures
        forall|e: Effect| #[trigger] seq![effect].contains(e) <==> e == effect,
{
    assert(seq![effect][0] == effect);
}

/// What is among effects and those behind them is among the one or the other.
pub proof fn lemma_effects_behind(effects: Seq<Effect>, more: Seq<Effect>)
    ensures
        forall|e: Effect| #[trigger]
            (effects + more).contains(e) <==> effects.contains(e) || more.contains(e),
{
    assert forall|e: Effect| #[trigger] (effects + more).contains(e) <==> effects.contains(e)
        || more.contains(e) by {
        let all = effects + more;
        if all.contains(e) {
            let i = choose|i: int| 0 <= i < all.len() && all[i] == e;
            if i < effects.len() {
                assert(effects[i] == e);
            } else {
                assert(more[i - effects.len()] == e);
            }
        } else if effects.contains(e) {
            let i = choose|i: int| 0 <= i < effects.len() && effects[i] == e;
            assert(all[i] == e);
        } else if more.contains(e) {
            let i = choose|i: int| 0 <= i < more.len() && more[i] == e;
            assert(all[effects.len() + i] == e);
        }
    }
}

/// The delay is added to the time of the audio, whose samples stay as they are. The end of the audio
/// that was scheduled is the latest of all ends.
pub proof fn lemma_delay_moves_audio<S>(c: PlayerCore, buf: AudioBuffer<S>)
    requires
        i64::MIN <= buf.pts_us + c.audio_delay_us <= i64::MAX,
        buf.has_end(),
    ensures
        c.delayed(buf).pts_us == buf.pts_us + c.audio_delay_us,
        c.delayed(buf) == (AudioBuffer { pts_us: c.delayed(buf).pts_us, ..buf }),
        c.later_end(buf) >= buf.end(),
        c.later_end(buf) >= c.last_audio_end_us,
        c.later_end(buf) == buf.end() || c.later_end(buf) == c.last_audio_end_us,
{
}

/// The subtitle that is given is that of the current track at the current position.
pub proof fn lemma_subtitle_is_of_the_moment(
    c: PlayerCore,
    reading: i64,
    r: Option<Option<String>>,
    next: PlayerCore,
)
    requires
        c.has_subtitles(),
        c.shows(reading, r, next),
    ensures
        ({
            let i = c.current_subtitle_idx->Some_0 as int;
            let at = if c.clock.paused {
                c.clock.pause_pts
            } else {
                reading
            };
            let t = shown_at(cues(c.subtitle_tracks@[i].entries@), at as int);
            &&& optional(next.last_subtitle_text) == t
            &&& r matches Some(text) ==> optional(text) == t
            &&& r is None ==> optional(c.last_subtitle_text) == t
        }),
        next == (PlayerCore { last_subtitle_text: next.last_subtitle_text, ..c }),
{
}

/// Subtitles are shown where a track is chosen that there is.
pub proof fn lemma_subtitles_are_on(c: PlayerCore)
    ensures
        c.has_subtitles() <==> (c.current_subtitle_idx matches Some(i) && i
            < c.subtitle_tracks@.len()),
{
}

/// Relative seeks behind one another are taken as one list.
proof fn lemma_seeks_from_the_front(queue: Option<QueuedSeek>, cmd: Command, cmds: Seq<Command>)
    requires
        is_relative(cmd),
    ensures
        queued_all(queue, seq![cmd] + cmds) == queued_all(
            queued(queue, cmd->delta_us, cmd->exact),
            cmds,
        ),
    decreases cmds.len(),
{
    let all = seq![cmd] + cmds;
    if cmds.len() == 0 {
        assert(all =~= seq![cmd]);
        assert(all.drop_last() =~= Seq::empty());
        assert(queued_all(queue, Seq::empty()) == queue);
    } else {
        assert(all.drop_last() =~= seq![cmd] + cmds.drop_last());
        assert(all.last() == cmds.last());
        lemma_seeks_from_the_front(queue, cmd, cmds.drop_last());
    }
}

/// Relative seeks that arrive together become one seek by the sum of their distances, exact where
/// any of them is; until it is dispatched nothing else changes, and nothing is done.
pub proof fn lemma_seeks_in_a_row(
    c: PlayerCore,
    cmd: Command,
    cmds: Seq<Command>,
    reading: i64,
    outcome: Outcome,
    next: PlayerCore,
)
    requires
        c.answers_all(cmd, cmds, reading, outcome, next),
        is_relative(cmd),
        forall|k: int| 0 <= k < cmds.len() ==> (#[trigger] cmds[k]) is SeekRelative,
        c.queued_seek is None,
    ensures
        !outcome.quit,
        outcome.effects@.len() == 0,
        next == (PlayerCore { queued_seek: next.queued_seek, ..c }),
        next.queued_seek matches Some(q) && q.exact == any_exact(seq![cmd] + cmds) && ((forall|
            k: int,
        |
            0 <= k <= cmds.len() + 1 ==> i64::MIN <= #[trigger] delta_sum(
                (seq![cmd] + cmds).take(k),
            ) <= i64::MAX) ==> q.delta_us == delta_sum(seq![cmd] + cmds)),
{
    let all = seq![cmd] + cmds;
    assert forall|k: int| 0 <= k < all.len() implies is_relative(#[trigger] all[k]) by {
        if k > 0 {
            assert(all[k] == cmds[k - 1]);
        }
    }
    lemma_seeks_from_the_front(None, cmd, cmds);
    lemma_queued_seeks_add_up(all);
}

/// A command that arrives behind relative seeks is carried out with them queued: it is not lost.
pub proof fn lemma_command_behind_seeks_is_answered(
    c: PlayerCore,
    cmd: Command,
    cmds: Seq<Command>,
    reading: i64,
    outcome: Outcome,
    next: PlayerCore,
)
    requires
        c.answers_all(cmd, cmds, reading, outcome, next),
    ensures
        cmd is SeekRelative && cmds.len() > 0 && !(cmds.last() is SeekRelative) ==> {
            let queue = queued_all(c.queued_seek, seq![cmd] + cmds.drop_last());
            (PlayerCore { queued_seek: queue, ..c }).answers(cmds.last(), reading, outcome, next)
        },
        !(cmd is SeekRelative) ==> c.answers(cmd, reading, outcome, next),
{
    if cmd is SeekRelative && cmds.len() > 0 && !(cmds.last() is SeekRelative) {
        lemma_seeks_from_the_front(c.queued_seek, cmd, cmds.drop_last());
    }
}

/// Which commands are taken along with a relative seek: further ones, and one of any kind at the
/// end.
pub proof fn lemma_batch_is_of_seeks(cmds: Seq<Command>)
    ensures
        is_batch(cmds) <==> forall|k: int|
            0 <= k < cmds.len() - 1 ==> (#[trigger] cmds[k]) is SeekRelative,
{
    if is_batch(cmds) {
        assert forall|k: int| 0 <= k < cmds.len() - 1 implies (
        #[trigger] cmds[k]) is SeekRelative by {
            assert(is_relative(cmds[k]));
        }
    }
}

/// A message about the volume says what it is, and whether the sound is muted.
pub proof fn lemma_volume_message(c: PlayerCore, percent: u32)
    ensures
        c.said(Notice::Volume { percent, muted: false }) == "Volume: "@ + numeral(percent as nat)
            + "%"@,
        c.said(Notice::Volume { percent, muted: true }) == "Muted: "@ + numeral(percent as nat)
            + "%"@,
{
    reveal_strlit("Volume");
    reveal_strlit("Muted");
    reveal_strlit(": ");
    reveal_strlit("Volume: ");
    reveal_strlit("Muted: ");
    assert("Volume"@ + ": "@ =~= "Volume: "@);
    assert("Muted"@ + ": "@ =~= "Muted: "@);
}

/// A message about a track counts tracks from one and names the track it is about.
pub proof fn lemma_track_messages(c: PlayerCore, track: usize)
    ensures
        track < c.stream_info.audio_streams.len() ==> ends_with(
            c.said(Notice::AudioTrack { track }),
            audio_text(c.stream_info.audio_streams@[track as int]@),
        ) && starts_with(
            c.said(Notice::AudioTrack { track }),
            "Audio: "@ + numeral((track + 1) as nat) + "/"@ + numeral(
                c.stream_info.audio_streams.len() as nat,
            ),
        ),
        track < c.subtitle_tracks.len() ==> ends_with(
            c.said(Notice::SubtitleTrack { track }),
            c.subtitle_tracks@[track as int].label@,
        ),
        c.can_say(Notice::AudioTrack { track }) <==> track < c.stream_info.audio_streams@.len(),
        c.can_say(Notice::SubtitleTrack { track }) <==> track < c.subtitle_tracks@.len(),
{
    if track < c.stream_info.audio_streams.len() {
        let said = c.said(Notice::AudioTrack { track });
        let name = audio_text(c.stream_info.audio_streams@[track as int]@);
        let head = "Audio: "@ + numeral((track + 1) as nat) + "/"@ + numeral(
            c.stream_info.audio_streams.len() as nat,
        );
        assert(said =~= head + " - "@ + name);
        assert(said.skip(said.len() - name.len()) =~= name);
        assert(said.take(head.len() as int) =~= head);
    }
    if track < c.subtitle_tracks.len() {
        let said = c.said(Notice::SubtitleTrack { track });
        let name = c.subtitle_tracks@[track as int].label@;
        assert(said =~= "Subtitles: "@ + name);
        assert(said.skip(said.len() - name.len()) =~= name);
    }
}

/// A message about the delay says by how many milliseconds audio comes later, with a plus sign, or
/// earlier, with a minus sign. Messages about subtitles name the track, or say that there is none.
pub proof fn lemma_other_messages(c: PlayerCore, ms: i64, track: usize)
    ensures
        ms >= 0 ==> c.said(Notice::AudioDelay { ms }) == "Audio delay: +"@ + numeral(ms as nat)
            + "ms"@,
        ms < 0 ==> c.said(Notice::AudioDelay { ms }) == "Audio delay: -"@ + numeral((-ms) as nat)
            + "ms"@,
        track < c.stream_info.audio_streams.len() ==> c.said(Notice::AudioTrack { track })
            == "Audio: "@ + numeral((track + 1) as nat) + "/"@ + numeral(
            c.stream_info.audio_streams.len() as nat,
        ) + " - "@ + audio_text(c.stream_info.audio_streams@[track as int]@),
        track < c.subtitle_tracks.len() ==> c.said(Notice::SubtitleTrack { track })
            == "Subtitles: "@ + c.subtitle_tracks@[track as int].label@,
        c.said(Notice::SubtitlesOff) == "Subtitles: "@ + "off"@,
        c.said(Notice::NoSubtitles) == "Subtitles: "@ + "none available"@,
{
    reveal_strlit("Audio delay: ");
    reveal_strlit("Audio delay: +");
    reveal_strlit("Audio delay: -");
    reveal_strlit("Subtitles: ");
    reveal_strlit("off");
    reveal_strlit("none available");
    reveal_strlit("Subtitles: off");
    reveal_strlit("Subtitles: none available");
    assert("Subtitles: "@ + "off"@ =~= "Subtitles: off"@);
    assert("Subtitles: "@ + "none available"@ =~= "Subtitles: none available"@);
    assert("Audio delay: "@ + seq!['+'] =~= "Audio delay: +"@);
    assert("Audio delay: "@ + seq!['-'] =~= "Audio delay: -"@);
    let digits = numeral(if ms < 0 {
        (-ms) as nat
    } else {
        ms as nat
    });
    if ms >= 0 {
        assert("Audio delay: "@ + (seq!['+'] + digits) + "ms"@ =~= "Audio delay: "@ + seq!['+']
            + digits + "ms"@);
    } else {
        assert("Audio delay: "@ + (seq!['-'] + digits) + "ms"@ =~= "Audio delay: "@ + seq!['-']
            + digits + "ms"@);
    }
}

} // verus!
