//! Playback with video, and of audio alone.

use std::collections::VecDeque;

use crossbeam_channel::Receiver;
use vstd::prelude::*;

use crate::audio_out::{
    after_schedule, first_room, fits, has_room, AudioOutput, OutputState, Scheduled, RING_CAPACITY,
};
use crate::cmd::{Command, DemuxCommand, DemuxPacket, VideoFrame};
use crate::decode_audio::{plane_rows, AudioBuffer};
use crate::player::{
    is_batch, lemma_audio_is_dropped_everywhere, lemma_effects_behind, lemma_one_effect,
    lemma_only_if, only_if, push_when, seek_target, within_file, Effect, Outcome, PlayerCore,
    QueuedSeek,
};
use crate::streams::StreamInfo;
use crate::subtitle::SubtitleTrack;
use crate::sync::ClockState;

verus! {

/// How long after a seek scrubbing ends, in nanoseconds.
pub const SCRUB_GRACE_NS: u64 = 100_000_000;

/// How many buffers may wait for the audio output before no more packets are taken.
pub const PENDING_LIMIT: usize = 16;

/// Whether a queued seek moves nowhere: less than a millisecond, and not asked to be exact.
pub open spec fn is_idle_seek(q: QueuedSeek) -> bool {
    -1000 < q.delta_us < 1000 && !q.exact
}

/// What is to be done with a packet.
#[derive(Clone, Copy, Debug, PartialEq, Eq, Structural)]
pub enum PacketVerdict {
    /// Nothing more.
    Ignore,
    /// Decode it as video.
    DecodeVideo,
    /// Decode it as audio.
    DecodeAudio,
    /// Decode what remains: the file has ended.
    Drain,
}

/// Playback with video.
#[derive(Debug)]
pub struct VideoPlayer {
    pub core: PlayerCore,
    pub has_video_decoder: bool,
    /// Set by a seek, cleared when the first video frame after it carries the flush to the display.
    pub needs_display_flush: bool,
    /// Whether audio is held back because the user seeks about.
    pub scrubbing: bool,
    /// When the last seek was dispatched, in nanoseconds.
    pub last_seek_ns: Option<u64>,
}

/// The state once a seek was dispatched with video.
pub open spec fn video_sought(v: VideoPlayer, target: i64, exact: bool, now_ns: u64) -> VideoPlayer {
    VideoPlayer {
        core: v.core.sought(target, exact).without_audio(),
        scrubbing: true,
        last_seek_ns: Some(now_ns),
        needs_display_flush: true,
        ..v
    }
}

/// What is to be done to seek with video.
pub open spec fn video_seek_effects(v: VideoPlayer, target: i64, forward: bool) -> Seq<Effect> {
    seq![
        Effect::Demux(DemuxCommand::Seek { target_pts: target, forward }),
        Effect::SetClock(target),
    ] + only_if(v.has_video_decoder, Effect::FlushVideoDecoder) + v.core.audio_flushes()
}

/// Puts effects behind others.
fn extend(effects: &mut Vec<Effect>, more: Vec<Effect>)
    ensures
        final(effects)@ == old(effects)@ + more@,
{
    let mut rest = more;
    effects.append(&mut rest);
}

impl VideoPlayer {
    /// Dispatches a seek.
    pub fn dispatch_seek(&mut self, target: i64, forward: bool, exact: bool, now_ns: u64) -> (effects:
        Vec<Effect>)
        ensures
            *final(self) == video_sought(*old(self), target, exact, now_ns),
            effects@ == video_seek_effects(*old(self), target, forward),
            effects@.contains(Effect::Demux(DemuxCommand::Seek { target_pts: target, forward })),
            effects@.contains(Effect::SetClock(target)),
            effects@.contains(Effect::FlushVideoDecoder) == old(self).has_video_decoder,
            effects@.contains(Effect::FlushAudioDecoder) == old(self).core.has_decoder,
            effects@.contains(Effect::AudioFlush) == old(self).core.has_output,
    {
        let mut effects = self.core.dispatch_seek_common(target, forward, exact);
        self.scrubbing = true;
        self.last_seek_ns = Some(now_ns);
        push_when(&mut effects, self.has_video_decoder, Effect::FlushVideoDecoder);
        let flushes = self.core.flush_audio_pipeline();
        extend(&mut effects, flushes);
        self.needs_display_flush = true;
        assert(effects@ =~= video_seek_effects(*old(self), target, forward));
        proof {
            lemma_video_seek_drops_what_is_under_way(*old(self), target, forward);
        }
        effects
    }

    /// The state without a queued seek.
    pub open spec fn unqueued(self) -> VideoPlayer {
        VideoPlayer { core: PlayerCore { queued_seek: None, ..self.core }, ..self }
    }

    /// Dispatches the queued seek. While the user seeks about, one seek is under way at a time: then
    /// the clock moves to the target, and a seek by nothing stays queued. If that is to be exact, it
    /// is dispatched once the seek under way was answered; else the next call drops it.
    pub fn execute_queued_seek(&mut self, reading: i64, now_ns: u64) -> (effects: Vec<Effect>)
        ensures
            match old(self).core.queued_seek {
                None => *final(self) == *old(self) && effects@ == Seq::<Effect>::empty(),
                Some(q) => {
                    let v = old(self).unqueued();
                    let target = within_file(
                        old(self).core.position(reading) + q.delta_us,
                        old(self).core.duration_us,
                    );
                    if is_idle_seek(q) {
                        *final(self) == v && effects@ == Seq::<Effect>::empty()
                    } else if old(self).scrubbing && old(self).core.pending_seeks > 0 {
                        &&& *final(self) == (VideoPlayer {
                            core: PlayerCore {
                                queued_seek: Some(QueuedSeek { delta_us: 0, exact: q.exact }),
                                ..v.core
                            },
                            ..v
                        })
                        &&& effects@ == seq![Effect::SetClock(target)]
                    } else {
                        &&& *final(self) == video_sought(v, target, q.exact, now_ns)
                        &&& effects@ == video_seek_effects(v, target, !q.exact && q.delta_us > 0)
                    }
                },
            },
            (exists|i: int| 0 <= i < effects@.len() && (#[trigger] effects@[i]) is Demux) ==> {
                &&& effects@.contains(Effect::FlushVideoDecoder) == old(self).has_video_decoder
                &&& effects@.contains(Effect::FlushAudioDecoder) == old(self).core.has_decoder
                &&& effects@.contains(Effect::AudioFlush) == old(self).core.has_output
            },
    {
        let q: QueuedSeek = match self.core.queued_seek {
            Some(q) => q,
            None => {
                return Vec::new();
            },
        };
        self.core.queued_seek = None;
        if -1000 < q.delta_us && q.delta_us < 1000 && !q.exact {
            return Vec::new();
        }
        let current: i64 = self.core.clock.audio_pts_at(reading);
        let target: i64 = seek_target(current, q.delta_us, self.core.duration_us);
        if self.scrubbing && self.core.pending_seeks > 0 {
            self.core.queued_seek = Some(QueuedSeek { delta_us: 0, exact: q.exact });
            let mut effects: Vec<Effect> = Vec::new();
            effects.push(Effect::SetClock(target));
            assert(effects@ =~= seq![Effect::SetClock(target)]);
            return effects;
        }
        self.dispatch_seek(target, !q.exact && q.delta_us > 0, q.exact, now_ns)
    }

    /// Handles a command.
    pub fn handle_command(
        &mut self,
        cmd: Command,
        reading: i64,
        now_ns: u64,
        cmd_rx: &Receiver<Command>,
    ) -> (outcome: Outcome)
        ensures
            match cmd {
                Command::SeekAbsolute { target_us } => {
                    let target = within_file(target_us as int, old(self).core.duration_us);
                    &&& !outcome.quit
                    &&& *final(self) == video_sought(*old(self), target, false, now_ns)
                    &&& outcome.effects@ == video_seek_effects(*old(self), target, true)
                    &&& outcome.effects@.contains(Effect::FlushVideoDecoder)
                        == old(self).has_video_decoder
                    &&& outcome.effects@.contains(Effect::FlushAudioDecoder)
                        == old(self).core.has_decoder
                    &&& outcome.effects@.contains(Effect::AudioFlush) == old(self).core.has_output
                },
                _ => {
                    &&& *final(self) == (VideoPlayer { core: final(self).core, ..*old(self) })
                    &&& exists|cmds: Seq<Command>|
                        is_batch(cmds) && #[trigger] old(self).core.answers_all(
                            cmd,
                            cmds,
                            reading,
                            outcome,
                            final(self).core,
                        )
                },
            },
    {
        match cmd {
            Command::SeekAbsolute { target_us } => {
                let target: i64 = seek_target(target_us, 0, self.core.duration_us);
                Outcome { quit: false, effects: self.dispatch_seek(target, true, false, now_ns) }
            },
            _ => self.core.handle_command_shared(cmd, reading, cmd_rx),
        }
    }

    /// What is to be done with a packet. Until each seek was answered with a flush, packets are from
    /// before the seek and are passed over.
    pub open spec fn verdict<P>(self, packet: DemuxPacket<P>) -> PacketVerdict {
        match packet {
            DemuxPacket::Flush => PacketVerdict::Ignore,
            _ => if self.core.pending_seeks > 0 {
                PacketVerdict::Ignore
            } else {
                match packet {
                    DemuxPacket::Video(_) => if self.has_video_decoder {
                        PacketVerdict::DecodeVideo
                    } else {
                        PacketVerdict::Ignore
                    },
                    DemuxPacket::Audio(_) => if self.scrubbing || !self.core.has_decoder {
                        PacketVerdict::Ignore
                    } else {
                        PacketVerdict::DecodeAudio
                    },
                    DemuxPacket::Eof => PacketVerdict::Drain,
                    _ => PacketVerdict::Ignore,
                }
            },
        }
    }

    /// Handles a packet, up to its decoding.
    pub fn handle_packet<P>(&mut self, packet: &DemuxPacket<P>) -> (verdict: PacketVerdict)
        ensures
            verdict == old(self).verdict(*packet),
            *packet is Eof && old(self).core.pending_seeks == 0 ==> verdict
                == PacketVerdict::Drain,
            *final(self) == if packet is Flush {
                VideoPlayer {
                    core: PlayerCore {
                        pending_seeks: old(self).core.less_pending(),
                        ..old(self).core
                    },
                    ..*old(self)
                }
            } else {
                *old(self)
            },
    {
        match packet {
            DemuxPacket::Flush => {
                self.core.count_flush();
                PacketVerdict::Ignore
            },
            _ => {
                if self.core.pending_seeks > 0 {
                    return PacketVerdict::Ignore;
                }
                match packet {
                    DemuxPacket::Video(_) => if self.has_video_decoder {
                        PacketVerdict::DecodeVideo
                    } else {
                        PacketVerdict::Ignore
                    },
                    DemuxPacket::Audio(_) => if self.scrubbing || !self.core.has_decoder {
                        PacketVerdict::Ignore
                    } else {
                        PacketVerdict::DecodeAudio
                    },
                    DemuxPacket::Eof => PacketVerdict::Drain,
                    _ => PacketVerdict::Ignore,
                }
            },
        }
    }

    /// Whether a decoded frame is shown: it does not lie before the target of an exact seek.
    pub open spec fn shows<B>(self, frame: VideoFrame<B>) -> bool {
        frame.pts_us >= self.core.seek_floor_us
    }

    /// A frame as it is shown: it carries the flush to the display where one is due.
    pub open spec fn marked<B>(self, frame: VideoFrame<B>) -> VideoFrame<B> {
        VideoFrame { seek_flush: frame.seek_flush || self.needs_display_flush, ..frame }
    }

    /// The state once a frame was shown.
    pub open spec fn after_frame(self) -> VideoPlayer {
        VideoPlayer {
            needs_display_flush: false,
            core: PlayerCore { seek_landed: true, ..self.core },
            ..self
        }
    }

    /// Prepares a decoded frame for the display and says what is to be done before it is sent; none
    /// where it lies before the target of an exact seek and is to be dropped.
    pub fn accept_frame<B>(&mut self, frame: &mut VideoFrame<B>) -> (r: Option<Vec<Effect>>)
        ensures
            r is Some == old(self).shows(*old(frame)),
            match r {
                None => *final(self) == *old(self) && *final(frame) == *old(frame),
                Some(effects) => {
                    &&& *final(frame) == old(self).marked(*old(frame))
                    &&& *final(self) == old(self).after_frame()
                    &&& effects@ == only_if(
                        !old(self).core.seek_landed,
                        Effect::SetClock(old(frame).pts_us),
                    )
                },
            },
            r is None <==> old(frame).pts_us < old(self).core.seek_floor_us,
            r is Some ==> {
                &&& forall|e: Effect| #[trigger]
                    r->0@.contains(e) <==> !old(self).core.seek_landed && e == Effect::SetClock(
                        old(frame).pts_us,
                    )
                &&& final(self).core.seek_landed
                &&& !final(self).needs_display_flush
                &&& final(frame).seek_flush == (old(frame).seek_flush
                    || old(self).needs_display_flush)
                &&& final(frame).pts_us == old(frame).pts_us
            },
    {
        if frame.pts_us < self.core.seek_floor_us {
            return None;
        }
        if self.needs_display_flush {
            self.needs_display_flush = false;
            frame.seek_flush = true;
        }
        let mut effects: Vec<Effect> = Vec::new();
        push_when(&mut effects, !self.core.seek_landed, Effect::SetClock(frame.pts_us));
        self.core.seek_landed = true;
        assert(effects@ =~= only_if(
            !old(self).core.seek_landed,
            Effect::SetClock(old(frame).pts_us),
        ));
        proof {
            lemma_only_if(!old(self).core.seek_landed, Effect::SetClock(old(frame).pts_us));
        }
        Some(effects)
    }

    /// Ends scrubbing once all seeks have settled and a while has passed.
    pub fn settle_scrubbing(&mut self, now_ns: u64)
        ensures
            *final(self) == (VideoPlayer {
                scrubbing: old(self).scrubbing && !(old(self).core.pending_seeks == 0
                    && old(self).core.queued_seek is None && (old(self).last_seek_ns matches Some(t)
                    && now_ns - t > SCRUB_GRACE_NS)),
                ..*old(self)
            }),
    {
        if self.scrubbing && self.core.pending_seeks == 0 && self.core.queued_seek.is_none() {
            match self.last_seek_ns {
                Some(t) => {
                    if now_ns > t && now_ns - t > SCRUB_GRACE_NS {
                        self.scrubbing = false;
                    }
                },
                None => {},
            }
        }
    }

    /// How long to wait for a command or a packet, in milliseconds.
    pub fn wait_ms(&self) -> (r: u64)
        ensures
            r == if self.core.queued_seek is Some {
                1u64
            } else {
                50
            },
    {
        if self.core.queued_seek.is_some() {
            1
        } else {
            50
        }
    }
}

/// Playback of audio alone: buffers wait here for room in the output.
#[derive(Debug)]
pub struct AudioOnlyPlayer<S> {
    pub core: PlayerCore,
    /// Decoded buffers that wait for the output.
    pub pending_audio: VecDeque<AudioBuffer<S>>,
}

/// What is to be done to seek without video.
pub open spec fn audio_seek_effects(core: PlayerCore, target: i64, forward: bool) -> Seq<Effect> {
    seq![
        Effect::Demux(DemuxCommand::Seek { target_pts: target, forward }),
        Effect::SetClock(target),
    ] + only_if(core.has_decoder, Effect::FlushAudioDecoder) + only_if(
        core.has_output,
        Effect::AudioFlushQuick,
    ) + only_if(core.has_output, Effect::AudioPosition(target))
}

/// The sample rate of the current audio track, 48 kHz where there is none.
pub open spec fn current_rate(core: PlayerCore) -> u32 {
    if core.current_audio_track < core.stream_info.audio_streams.len() {
        core.stream_info.audio_streams@[core.current_audio_track as int].sample_rate
    } else {
        48000
    }
}

/// How many of the buffered samples a seek ahead passes over.
pub open spec fn skipped_samples(delta_us: int, sample_rate: int, buffered: int) -> int {
    let needed = delta_us * sample_rate / 1_000_000;
    if needed < buffered {
        needed
    } else {
        buffered
    }
}

/// How many of the buffered samples a seek ahead passes over.
pub fn samples_to_skip(delta_us: i64, sample_rate: u32, buffered: usize) -> (r: usize)
    requires
        delta_us >= 0,
    ensures
        r == skipped_samples(delta_us as int, sample_rate as int, buffered as int),
{
    let delta: u128 = delta_us as u128;
    let rate: u128 = sample_rate as u128;
    assert(0 <= delta * rate <= 0x8000_0000_0000_0000 * 0x1_0000_0000) by (nonlinear_arith)
        requires
            0 <= delta <= 0x8000_0000_0000_0000,
            0 <= rate <= 0x1_0000_0000,
    ;
    let needed: u128 = delta * rate / 1_000_000;
    if needed < buffered as u128 {
        needed as usize
    } else {
        buffered
    }
}

/// The position after `samples` were passed over, within a file's duration.
pub open spec fn skip_target(current: int, samples: int, sample_rate: int, duration_us: i64) -> int {
    let target = current + samples * 1_000_000 / sample_rate;
    if target < duration_us {
        target
    } else {
        duration_us as int
    }
}

/// The position after samples were passed over.
pub fn position_after_skip(current: i64, samples: usize, sample_rate: u32, duration_us: i64) -> (r:
    i64)
    requires
        sample_rate > 0,
    ensures
        r == skip_target(current as int, samples as int, sample_rate as int, duration_us),
{
    let us: i128 = samples as i128 * 1_000_000;
    let rate: i128 = sample_rate as i128;
    assert(0 <= us / rate <= us) by (nonlinear_arith)
        requires
            us >= 0,
            rate > 0,
    ;
    let target: i128 = current as i128 + us / rate;
    if target < duration_us as i128 {
        target as i64
    } else {
        duration_us
    }
}

/// The output once as many buffers were scheduled as there is room for, and how many they are.
pub open spec fn drained<S>(o: OutputState<S>, bufs: Seq<AudioBuffer<S>>) -> (OutputState<S>, int)
    decreases bufs.len(),
{
    if bufs.len() == 0 || !has_room(o, bufs[0]) {
        (o, 0)
    } else {
        let (last, count) = drained(after_schedule(o, bufs[0]), bufs.drop_first());
        (last, count + 1)
    }
}

/// Whether each of the buffers for which there is room has the planes it states, and the output a
/// queue for each.
pub open spec fn all_fit<S>(o: OutputState<S>, bufs: Seq<AudioBuffer<S>>) -> bool
    decreases bufs.len(),
{
    if bufs.len() == 0 || !has_room(o, bufs[0]) {
        true
    } else {
        fits(o, bufs[0]) && all_fit(after_schedule(o, bufs[0]), bufs.drop_first())
    }
}

/// Whether `drain_pending` can schedule the buffers that it would.
pub fn can_drain<S: Copy>(pending: &VecDeque<AudioBuffer<S>>, output: &AudioOutput<S>) -> (r: bool)
    requires
        output.wf(),
    ensures
        r == all_fit(output@, pending@),
{
    let mut room: usize = output.room();
    let mut i: usize = 0;
    let ghost mut now = output@;
    assert(pending@.skip(0) =~= pending@);
    while i < pending.len()
        invariant
            i <= pending.len(),
            output.wf(),
            room == first_room(now.queues),
            now.queues.len() == output@.queues.len(),
            all_fit(output@, pending@) == all_fit(now, pending@.skip(i as int)),
        decreases pending.len() - i,
    {
        let buf = &pending[i];
        assert(pending@.skip(i as int)[0] == *buf);
        assert(pending@.skip(i as int).drop_first() =~= pending@.skip(i + 1));
        if buf.samples_per_channel > 0 {
            if buf.samples_per_channel > room {
                return true;
            }
            if !output.can_hold(buf) {
                return false;
            }
            if buf.channels > 0 {
                let queued: usize = buf.planes[0].len();
                let left: usize = if queued < room {
                    room - queued
                } else {
                    0
                };
                room = left;
            }
        }
        proof {
            now = after_schedule(now, *buf);
        }
        i = i + 1;
    }
    true
}

/// Schedules buffers from the front of a queue while there is room; says whether the unit is to be
/// started.
pub fn drain_pending<S: Copy>(
    pending: &mut VecDeque<AudioBuffer<S>>,
    output: &mut AudioOutput<S>,
) -> (start: bool)
    requires
        old(output).wf(),
        all_fit(old(output)@, old(pending)@),
    ensures
        final(output).wf(),
        final(output).silence() == old(output).silence(),
        ({
            let (last, count) = drained(old(output)@, old(pending)@);
            &&& 0 <= count <= old(pending)@.len()
            &&& final(output)@ == last
            &&& final(pending)@ == old(pending)@.skip(count)
        }),
        start == (old(output)@.stopped && !final(output)@.stopped),
{
    let mut start: bool = false;
    let ghost all = pending@;
    let ghost mut taken: int = 0;
    assert(all.skip(0) =~= all);
    while pending.len() > 0
        invariant
            output.wf(),
            output.silence() == old(output).silence(),
            0 <= taken <= all.len(),
            pending@ == all.skip(taken),
            all_fit(output@, pending@),
            drained(old(output)@, all).0 == drained(output@, pending@).0,
            drained(old(output)@, all).1 == taken + drained(output@, pending@).1,
            output@.stopped ==> old(output)@.stopped,
            start == (old(output)@.stopped && !output@.stopped),
        ensures
            output.wf(),
            output.silence() == old(output).silence(),
            0 <= taken <= all.len(),
            pending@ == all.skip(taken),
            drained(old(output)@, all) == (output@, taken),
            start == (old(output)@.stopped && !output@.stopped),
        decreases pending@.len(),
    {
        let ghost now = output@;
        let ghost waiting = pending@;
        assert(waiting[0] == all[taken]);
        let result = output.try_schedule_buffer(&pending[0]);
        match result {
            Scheduled::Taken { start: more } => {
                if more {
                    start = true;
                }
                let _ = pending.pop_front();
                proof {
                    assert(pending@ =~= waiting.drop_first());
                    assert(waiting.drop_first() =~= all.skip(taken + 1));
                    taken = taken + 1;
                }
            },
            Scheduled::Refused => {
                break;
            },
        }
    }
    start
}

impl<S> AudioOnlyPlayer<S> {
    /// Dispatches a seek.
    pub fn dispatch_seek(&mut self, target: i64, forward: bool, exact: bool) -> (effects: Vec<
        Effect,
    >)
        ensures
            final(self).core == old(self).core.sought(target, exact).without_audio(),
            final(self).pending_audio@ == Seq::<AudioBuffer<S>>::empty(),
            effects@ == audio_seek_effects(old(self).core, target, forward),
            effects@.contains(Effect::Demux(DemuxCommand::Seek { target_pts: target, forward })),
            effects@.contains(Effect::SetClock(target)),
            effects@.contains(Effect::FlushAudioDecoder) == old(self).core.has_decoder,
            effects@.contains(Effect::AudioFlushQuick) == old(self).core.has_output,
            effects@.contains(Effect::AudioPosition(target)) == old(self).core.has_output,
    {
        let mut effects = self.core.dispatch_seek_common(target, forward, exact);
        self.core.last_audio_end_us = 0;
        self.core.eof_audio_end_us = None;
        push_when(&mut effects, self.core.has_decoder, Effect::FlushAudioDecoder);
        push_when(&mut effects, self.core.has_output, Effect::AudioFlushQuick);
        push_when(&mut effects, self.core.has_output, Effect::AudioPosition(target));
        self.pending_audio.clear();
        assert(effects@ =~= audio_seek_effects(old(self).core, target, forward));
        proof {
            lemma_audio_seek_drops_what_is_under_way(old(self).core, target, forward);
        }
        effects
    }

    /// Whether a seek is served by passing over buffered samples: it goes ahead, is not asked to be
    /// exact, and there are samples to pass over.
    pub open spec fn skips(self, q: QueuedSeek, buffered: int) -> bool {
        &&& q.delta_us > 0
        &&& !q.exact
        &&& self.core.has_output
        &&& skipped_samples(q.delta_us as int, current_rate(self.core) as int, buffered) > 0
    }

    /// Whether the queued seek is dispatched right: a seek ahead passes over buffered samples where
    /// there are any.
    pub open spec fn executes(
        self,
        reading: i64,
        buffered: int,
        effects: Seq<Effect>,
        next: AudioOnlyPlayer<S>,
    ) -> bool {
        match self.core.queued_seek {
            None => next == self && effects == Seq::<Effect>::empty(),
            Some(q) => {
                let core = PlayerCore { queued_seek: None, ..self.core };
                let current = core.position(reading) as int;
                let target = within_file(current + q.delta_us, core.duration_us);
                if is_idle_seek(q) {
                    &&& next == (AudioOnlyPlayer { core, ..self })
                    &&& effects == Seq::<Effect>::empty()
                } else if self.skips(q, buffered) {
                    let rate = current_rate(core) as int;
                    let samples = skipped_samples(q.delta_us as int, rate, buffered);
                    &&& next == (AudioOnlyPlayer { core, ..self })
                    &&& effects == seq![
                        Effect::AudioSkip(samples as usize),
                        Effect::SetClock(
                            skip_target(current, samples, rate, core.duration_us) as i64,
                        ),
                    ]
                } else {
                    &&& next.core == core.sought(target, q.exact).without_audio()
                    &&& next.pending_audio@ == Seq::<AudioBuffer<S>>::empty()
                    &&& effects == audio_seek_effects(core, target, !q.exact && q.delta_us > 0)
                }
            },
        }
    }

    /// Dispatches the queued seek. A seek ahead passes over buffered samples where there are any, of
    /// which the output has `buffered`.
    pub fn execute_queued_seek(&mut self, reading: i64, buffered: usize) -> (effects: Vec<Effect>)
        ensures
            old(self).executes(reading, buffered as int, effects@, *final(self)),
    {
        let q: QueuedSeek = match self.core.queued_seek {
            Some(q) => q,
            None => {
                return Vec::new();
            },
        };
        self.core.queued_seek = None;
        if -1000 < q.delta_us && q.delta_us < 1000 && !q.exact {
            return Vec::new();
        }
        let current: i64 = self.core.clock.audio_pts_at(reading);
        if q.delta_us > 0 && !q.exact && self.core.has_output {
            let track: usize = self.core.current_audio_track;
            let rate: u32 = if track < self.core.stream_info.audio_streams.len() {
                self.core.stream_info.audio_streams[track].sample_rate
            } else {
                48000
            };
            let samples: usize = samples_to_skip(q.delta_us, rate, buffered);
            if samples > 0 {
                proof {
                    if rate == 0 {
                        assert(q.delta_us * 0 / 1_000_000 == 0);
                    }
                }
                let position: i64 = position_after_skip(
                    current,
                    samples,
                    rate,
                    self.core.duration_us,
                );
                let mut effects: Vec<Effect> = Vec::new();
                effects.push(Effect::AudioSkip(samples));
                effects.push(Effect::SetClock(position));
                assert(effects@ =~= seq![
                    Effect::AudioSkip(samples),
                    Effect::SetClock(position),
                ]);
                return effects;
            }
        }
        let target: i64 = seek_target(current, q.delta_us, self.core.duration_us);
        self.dispatch_seek(target, !q.exact && q.delta_us > 0, q.exact)
    }

    /// Handles a command.
    pub fn handle_command(&mut self, cmd: Command, reading: i64, cmd_rx: &Receiver<Command>) -> (outcome:
        Outcome)
        ensures
            match cmd {
                Command::SeekAbsolute { target_us } => {
                    let target = within_file(target_us as int, old(self).core.duration_us);
                    &&& !outcome.quit
                    &&& final(self).core == old(self).core.sought(target, false).without_audio()
                    &&& final(self).pending_audio@ == Seq::<AudioBuffer<S>>::empty()
                    &&& outcome.effects@ == audio_seek_effects(old(self).core, target, true)
                },
                _ => {
                    &&& final(self).pending_audio == old(self).pending_audio
                    &&& exists|cmds: Seq<Command>|
                        is_batch(cmds) && #[trigger] old(self).core.answers_all(
                            cmd,
                            cmds,
                            reading,
                            outcome,
                            final(self).core,
                        )
                },
            },
    {
        match cmd {
            Command::SeekAbsolute { target_us } => {
                let target: i64 = seek_target(target_us, 0, self.core.duration_us);
                Outcome { quit: false, effects: self.dispatch_seek(target, true, false) }
            },
            _ => self.core.handle_command_shared(cmd, reading, cmd_rx),
        }
    }

    /// What is to be done with a packet.
    pub open spec fn verdict<P>(self, packet: DemuxPacket<P>) -> PacketVerdict {
        match packet {
            DemuxPacket::Flush => PacketVerdict::Ignore,
            _ => if self.core.pending_seeks > 0 {
                PacketVerdict::Ignore
            } else {
                match packet {
                    DemuxPacket::Audio(_) => if self.core.has_decoder {
                        PacketVerdict::DecodeAudio
                    } else {
                        PacketVerdict::Ignore
                    },
                    DemuxPacket::Eof => PacketVerdict::Drain,
                    _ => PacketVerdict::Ignore,
                }
            },
        }
    }

    /// Handles a packet, up to its decoding.
    pub fn handle_packet<P>(&mut self, packet: &DemuxPacket<P>) -> (r: (PacketVerdict, Vec<Effect>))
        ensures
            r.0 == old(self).verdict(*packet),
            *packet is Eof && old(self).core.pending_seeks == 0 ==> r.0 == PacketVerdict::Drain,
            if packet is Flush {
                &&& final(self).core == (PlayerCore {
                    pending_seeks: old(self).core.less_pending(),
                    ..old(self).core
                })
                &&& final(self).pending_audio@ == Seq::<AudioBuffer<S>>::empty()
                &&& r.1@ == only_if(old(self).core.has_decoder, Effect::FlushAudioDecoder) + only_if(
                    old(self).core.has_output,
                    Effect::AudioFlushQuick,
                )
            } else {
                *final(self) == *old(self) && r.1@ == Seq::<Effect>::empty()
            },
            forall|e: Effect| #[trigger]
                r.1@.contains(e) <==> {
                    ||| *packet is Flush && e == Effect::FlushAudioDecoder
                        && old(self).core.has_decoder
                    ||| *packet is Flush && e == Effect::AudioFlushQuick
                        && old(self).core.has_output
                },
    {
        let mut effects: Vec<Effect> = Vec::new();
        match packet {
            DemuxPacket::Flush => {
                self.core.count_flush();
                push_when(&mut effects, self.core.has_decoder, Effect::FlushAudioDecoder);
                push_when(&mut effects, self.core.has_output, Effect::AudioFlushQuick);
                self.pending_audio.clear();
                assert(effects@ =~= only_if(
                    old(self).core.has_decoder,
                    Effect::FlushAudioDecoder,
                ) + only_if(old(self).core.has_output, Effect::AudioFlushQuick));
                proof {
                    let core = old(self).core;
                    lemma_only_if(core.has_decoder, Effect::FlushAudioDecoder);
                    lemma_only_if(core.has_output, Effect::AudioFlushQuick);
                    lemma_effects_behind(
                        only_if(core.has_decoder, Effect::FlushAudioDecoder),
                        only_if(core.has_output, Effect::AudioFlushQuick),
                    );
                }
                (PacketVerdict::Ignore, effects)
            },
            _ => {
                if self.core.pending_seeks > 0 {
                    return (PacketVerdict::Ignore, effects);
                }
                match packet {
                    DemuxPacket::Audio(_) => if self.core.has_decoder {
                        (PacketVerdict::DecodeAudio, effects)
                    } else {
                        (PacketVerdict::Ignore, effects)
                    },
                    DemuxPacket::Eof => (PacketVerdict::Drain, effects),
                    _ => (PacketVerdict::Ignore, effects),
                }
            },
        }
    }

    /// Keeps a buffer until there is room for it.
    pub fn defer_audio(&mut self, buf: AudioBuffer<S>)
        ensures
            final(self).core == old(self).core,
            final(self).pending_audio@ == old(self).pending_audio@.push(buf),
    {
        self.pending_audio.push_back(buf);
    }

    /// Drops the buffers that wait: there is no output for them.
    pub fn drop_pending_audio(&mut self)
        ensures
            final(self).core == old(self).core,
            final(self).pending_audio@ == Seq::<AudioBuffer<S>>::empty(),
    {
        self.pending_audio.clear();
    }

    /// Whether packets are to be taken.
    pub fn takes_packets(&self) -> (r: bool)
        ensures
            r == (self.pending_audio@.len() < PENDING_LIMIT),
    {
        self.pending_audio.len() < PENDING_LIMIT
    }

    /// Whether there is nothing to do but wait for a command or a packet.
    pub fn is_idle(&self) -> (r: bool)
        ensures
            r == (self.pending_audio@.len() == 0 && self.core.queued_seek is None),
    {
        self.pending_audio.len() == 0 && self.core.queued_seek.is_none()
    }
}

/// A player, of video or of audio alone.
#[derive(Debug)]
pub struct Player<S> {
    pub mode: PlayerMode<S>,
}

/// What a player plays.
#[derive(Debug)]
pub enum PlayerMode<S> {
    Video(VideoPlayer),
    AudioOnly(AudioOnlyPlayer<S>),
}

/// The state that both modes share, of a player that has just been made.
pub open spec fn fresh_core(
    c: PlayerCore,
    stream_info: StreamInfo,
    volume: u32,
    audio_delay_us: i64,
    subtitle_tracks: Vec<SubtitleTrack>,
) -> bool {
    c == (PlayerCore {
        clock: ClockState { paused: false, pause_pts: 0 },
        has_decoder: false,
        has_output: false,
        paused: false,
        volume,
        pre_mute_volume: None,
        audio_delay_us,
        duration_us: stream_info.duration_us,
        pending_seeks: 0,
        queued_seek: None,
        seek_floor_us: 0,
        seek_landed: true,
        last_audio_end_us: 0,
        eof_audio_end_us: None,
        subtitle_tracks,
        current_subtitle_idx: None,
        last_subtitle_text: None,
        stream_info,
        current_audio_track: 0,
    })
}

impl<S> Player<S> {
    /// The state that both modes share.
    pub open spec fn shared(self) -> PlayerCore {
        match self.mode {
            PlayerMode::Video(v) => v.core,
            PlayerMode::AudioOnly(a) => a.core,
        }
    }

    /// Whether there is a video decoder.
    pub open spec fn has_video_decoder(self) -> bool {
        self.mode matches PlayerMode::Video(v) && v.has_video_decoder
    }

    /// A player for the streams of a file: with video where there is any.
    pub fn new(
        stream_info: StreamInfo,
        initial_volume: u32,
        audio_delay_us: i64,
        subtitle_tracks: Vec<SubtitleTrack>,
    ) -> (r: Player<S>)
        ensures
            fresh_core(r.shared(), stream_info, initial_volume, audio_delay_us, subtitle_tracks),
            match r.mode {
                PlayerMode::Video(v) => stream_info.video_stream is Some && v == (VideoPlayer {
                    core: v.core,
                    has_video_decoder: false,
                    needs_display_flush: false,
                    scrubbing: false,
                    last_seek_ns: None,
                }),
                PlayerMode::AudioOnly(a) => stream_info.video_stream is None && a.pending_audio@
                    == Seq::<AudioBuffer<S>>::empty(),
            },
    {
        let has_video: bool = stream_info.video_stream.is_some();
        let core = PlayerCore {
            clock: ClockState::new(),
            has_decoder: false,
            has_output: false,
            paused: false,
            volume: initial_volume,
            pre_mute_volume: None,
            audio_delay_us,
            duration_us: stream_info.duration_us,
            pending_seeks: 0,
            queued_seek: None,
            seek_floor_us: 0,
            seek_landed: true,
            last_audio_end_us: 0,
            eof_audio_end_us: None,
            subtitle_tracks,
            current_subtitle_idx: None,
            last_subtitle_text: None,
            stream_info,
            current_audio_track: 0,
        };
        let mode = if has_video {
            PlayerMode::Video(
                VideoPlayer {
                    core,
                    has_video_decoder: false,
                    needs_display_flush: false,
                    scrubbing: false,
                    last_seek_ns: None,
                },
            )
        } else {
            PlayerMode::AudioOnly(AudioOnlyPlayer { core, pending_audio: VecDeque::new() })
        };
        Player { mode }
    }

    /// Seeks to where playback is to start, before it does.
    pub fn seek_to(&mut self, target_us: i64) -> (effects: Vec<Effect>)
        ensures
            final(self).shared() == (PlayerCore {
                pending_seeks: old(self).shared().more_pending(),
                seek_floor_us: target_us,
                ..old(self).shared().without_audio()
            }),
            match (old(self).mode, final(self).mode) {
                (PlayerMode::Video(v), PlayerMode::Video(w)) => w == (VideoPlayer {
                    core: w.core,
                    ..v
                }),
                (PlayerMode::AudioOnly(a), PlayerMode::AudioOnly(b)) => b.pending_audio
                    == a.pending_audio,
                _ => false,
            },
            effects@ == seq![
                Effect::Demux(DemuxCommand::Seek { target_pts: target_us, forward: false }),
            ] + old(self).shared().audio_flushes() + only_if(
                old(self).has_video_decoder(),
                Effect::FlushVideoDecoder,
            ) + seq![Effect::SetClock(target_us), Effect::UiSeekFlush(target_us)],
            forall|e: Effect| #[trigger]
                effects@.contains(e) <==> {
                    ||| e == Effect::Demux(
                        DemuxCommand::Seek { target_pts: target_us, forward: false },
                    )
                    ||| e == Effect::FlushAudioDecoder && old(self).shared().has_decoder
                    ||| e == Effect::AudioFlush && old(self).shared().has_output
                    ||| e == Effect::FlushVideoDecoder && match old(self).mode {
                        PlayerMode::Video(v) => v.has_video_decoder,
                        PlayerMode::AudioOnly(_) => false,
                    }
                    ||| e == Effect::SetClock(target_us)
                    ||| e == Effect::UiSeekFlush(target_us)
                },
    {
        let mut effects: Vec<Effect> = Vec::new();
        effects.push(
            Effect::Demux(DemuxCommand::Seek { target_pts: target_us, forward: false }),
        );
        let mut flush_video: bool = false;
        match &mut self.mode {
            PlayerMode::Video(v) => {
                flush_video = v.has_video_decoder;
                let flushes = v.core.seek_to_start(target_us);
                extend(&mut effects, flushes);
            },
            PlayerMode::AudioOnly(a) => {
                let flushes = a.core.seek_to_start(target_us);
                extend(&mut effects, flushes);
            },
        }
        push_when(&mut effects, flush_video, Effect::FlushVideoDecoder);
        effects.push(Effect::SetClock(target_us));
        effects.push(Effect::UiSeekFlush(target_us));
        assert(effects@ =~= seq![
            Effect::Demux(DemuxCommand::Seek { target_pts: target_us, forward: false }),
        ] + old(self).shared().audio_flushes() + only_if(
            old(self).has_video_decoder(),
            Effect::FlushVideoDecoder,
        ) + seq![Effect::SetClock(target_us), Effect::UiSeekFlush(target_us)]);
        proof {
            let seek = Effect::Demux(
                DemuxCommand::Seek { target_pts: target_us, forward: false },
            );
            let flushes = old(self).shared().audio_flushes();
            let video = only_if(old(self).has_video_decoder(), Effect::FlushVideoDecoder);
            let (clock, display) = (Effect::SetClock(target_us), Effect::UiSeekFlush(target_us));
            lemma_one_effect(seek);
            lemma_one_effect(clock);
            lemma_one_effect(display);
            lemma_audio_is_dropped_everywhere(old(self).shared());
            lemma_only_if(old(self).has_video_decoder(), Effect::FlushVideoDecoder);
            lemma_effects_behind(seq![seek], flushes);
            lemma_effects_behind(seq![seek] + flushes, video);
            lemma_effects_behind(seq![seek] + flushes + video, seq![clock]);
            lemma_effects_behind(seq![seek] + flushes + video + seq![clock], seq![display]);
            assert(effects@ =~= seq![seek] + flushes + video + seq![clock] + seq![display]);
        }
        effects
    }
}

/// After a seek with video the first frame that is shown carries the flush to the display, however
/// the seek has landed by then, and no frame after it does.
pub proof fn lemma_one_frame_carries_flush<B>(
    v: VideoPlayer,
    target: i64,
    exact: bool,
    now_ns: u64,
    landed: bool,
    first: VideoFrame<B>,
    second: VideoFrame<B>,
)
    requires
        !second.seek_flush,
    ensures
        ({
            let sought = video_sought(v, target, exact, now_ns);
            let w = VideoPlayer {
                core: PlayerCore { seek_landed: landed, ..sought.core },
                ..sought
            };
            &&& w.marked(first).seek_flush
            &&& !w.after_frame().marked(second).seek_flush
        }),
{
}

/// After an exact seek no frame from before its target is shown.
pub proof fn lemma_exact_seek_shows_from_target<B>(
    v: VideoPlayer,
    target: i64,
    now_ns: u64,
    frame: VideoFrame<B>,
)
    ensures
        video_sought(v, target, true, now_ns).shows(frame) == (frame.pts_us >= target),
{
}

/// While a seek is not answered, no packet is decoded: what arrives is from before the seek.
pub proof fn lemma_stale_packets_are_ignored<P, S>(
    v: VideoPlayer,
    a: AudioOnlyPlayer<S>,
    packet: DemuxPacket<P>,
)
    requires
        v.core.pending_seeks > 0,
        a.core.pending_seeks > 0,
    ensures
        v.verdict(packet) == PacketVerdict::Ignore,
        a.verdict(packet) == PacketVerdict::Ignore,
{
}

/// What passing over buffered samples gives is never past the target that was asked for.
pub proof fn lemma_skip_does_not_overshoot(
    current: int,
    delta_us: int,
    sample_rate: int,
    buffered: int,
    duration_us: i64,
)
    requires
        delta_us >= 0,
        sample_rate > 0,
        buffered >= 0,
    ensures
        skip_target(
            current,
            skipped_samples(delta_us, sample_rate, buffered),
            sample_rate,
            duration_us,
        ) <= current + delta_us,
{
    let needed = delta_us * sample_rate / 1_000_000;
    let samples = skipped_samples(delta_us, sample_rate, buffered);
    assert(samples * 1_000_000 / sample_rate <= delta_us) by (nonlinear_arith)
        requires
            samples <= needed,
            needed == delta_us * sample_rate / 1_000_000,
            sample_rate > 0,
            delta_us >= 0,
    ;
}

/// A seek with video leaves nothing from before it: the demuxer is sent to the target, the clock is
/// set there, and whatever decoder and audio output there are drop what is under way. Nothing else
/// is done, and nothing twice.
pub proof fn lemma_video_seek_drops_what_is_under_way(v: VideoPlayer, target: i64, forward: bool)
    ensures
        forall|e: Effect|
            video_seek_effects(v, target, forward).contains(e) <==> {
                ||| e == Effect::Demux(DemuxCommand::Seek { target_pts: target, forward })
                ||| e == Effect::SetClock(target)
                ||| e == Effect::FlushVideoDecoder && v.has_video_decoder
                ||| e == Effect::FlushAudioDecoder && v.core.has_decoder
                ||| e == Effect::AudioFlush && v.core.has_output
            },
        video_seek_effects(v, target, forward).no_duplicates(),
        video_seek_effects(v, target, forward)[0] == Effect::Demux(
            DemuxCommand::Seek { target_pts: target, forward },
        ),
{
    let s = video_seek_effects(v, target, forward);
    let a: int = if v.has_video_decoder {
        3
    } else {
        2
    };
    let b: int = if v.core.has_decoder {
        a + 1
    } else {
        a
    };
    assert(s[0] == Effect::Demux(DemuxCommand::Seek { target_pts: target, forward }));
    assert(s[1] == Effect::SetClock(target));
    assert(v.has_video_decoder ==> s[2] == Effect::FlushVideoDecoder);
    assert(v.core.has_decoder ==> s[a] == Effect::FlushAudioDecoder);
    assert(v.core.has_output ==> s[b] == Effect::AudioFlush);
    assert(s.len() == if v.core.has_output {
        b + 1
    } else {
        b
    });
}

/// A seek without video drops what is under way likewise, and tells the audio output where it goes
/// on.
pub proof fn lemma_audio_seek_drops_what_is_under_way(core: PlayerCore, target: i64, forward: bool)
    ensures
        forall|e: Effect|
            audio_seek_effects(core, target, forward).contains(e) <==> {
                ||| e == Effect::Demux(DemuxCommand::Seek { target_pts: target, forward })
                ||| e == Effect::SetClock(target)
                ||| e == Effect::FlushAudioDecoder && core.has_decoder
                ||| e == Effect::AudioFlushQuick && core.has_output
                ||| e == Effect::AudioPosition(target) && core.has_output
            },
        audio_seek_effects(core, target, forward).no_duplicates(),
        audio_seek_effects(core, target, forward)[0] == Effect::Demux(
            DemuxCommand::Seek { target_pts: target, forward },
        ),
{
    let s = audio_seek_effects(core, target, forward);
    let a: int = if core.has_decoder {
        3
    } else {
        2
    };
    assert(s[0] == Effect::Demux(DemuxCommand::Seek { target_pts: target, forward }));
    assert(s[1] == Effect::SetClock(target));
    assert(core.has_decoder ==> s[2] == Effect::FlushAudioDecoder);
    assert(core.has_output ==> s[a] == Effect::AudioFlushQuick);
    assert(core.has_output ==> s[a + 1] == Effect::AudioPosition(target));
    assert(s.len() == if core.has_output {
        a + 2
    } else {
        a
    });
}

/// After a seek with video one more flush is awaited, the display is to be flushed, audio is held
/// back, and no audio counts as scheduled. An exact seek shows nothing from before its target; any
/// other starts with what comes first and sets the clock by it. All else is as it was.
pub proof fn lemma_video_seek_state(v: VideoPlayer, target: i64, exact: bool, now_ns: u64)
    requires
        v.core.pending_seeks < u32::MAX,
    ensures
        ({
            let w = video_sought(v, target, exact, now_ns);
            &&& w.core.pending_seeks == v.core.pending_seeks + 1
            &&& w.core.seek_floor_us == if exact {
                target
            } else {
                0
            }
            &&& !exact ==> !w.core.seek_landed
            &&& exact ==> w.core.seek_landed == v.core.seek_landed
            &&& w.core.last_audio_end_us == 0
            &&& w.core.eof_audio_end_us is None
            &&& w.core == (PlayerCore {
                pending_seeks: w.core.pending_seeks,
                seek_floor_us: w.core.seek_floor_us,
                seek_landed: w.core.seek_landed,
                last_audio_end_us: w.core.last_audio_end_us,
                eof_audio_end_us: w.core.eof_audio_end_us,
                ..v.core
            })
            &&& w.scrubbing
            &&& w.last_seek_ns == Some(now_ns)
            &&& w.needs_display_flush
            &&& w.has_video_decoder == v.has_video_decoder
        }),
{
}

/// What is decoded with video: a packet of a stream for which there is a decoder, once every seek
/// was answered, and audio only once the user does not seek about. The end of the file is acted upon
/// whenever no seek is pending.
pub proof fn lemma_video_packets<P>(v: VideoPlayer, packet: DemuxPacket<P>)
    ensures
        v.verdict(packet) == PacketVerdict::DecodeVideo <==> packet is Video
            && v.core.pending_seeks == 0 && v.has_video_decoder,
        v.verdict(packet) == PacketVerdict::DecodeAudio <==> packet is Audio
            && v.core.pending_seeks == 0 && v.core.has_decoder && !v.scrubbing,
        v.verdict(packet) == PacketVerdict::Drain <==> packet is Eof && v.core.pending_seeks == 0,
{
}

/// What is decoded without video: audio, where there is a decoder, once every seek was answered. The
/// end of the file is acted upon whenever no seek is pending.
pub proof fn lemma_audio_packets<P, S>(a: AudioOnlyPlayer<S>, packet: DemuxPacket<P>)
    ensures
        a.verdict(packet) != PacketVerdict::DecodeVideo,
        a.verdict(packet) == PacketVerdict::DecodeAudio <==> packet is Audio
            && a.core.pending_seeks == 0 && a.core.has_decoder,
        a.verdict(packet) == PacketVerdict::Drain <==> packet is Eof && a.core.pending_seeks == 0,
{
}

/// A frame is shown unless it lies before the target of an exact seek. It is shown as it was
/// decoded, but that the first after a seek carries the flush to the display, which is then due no
/// more.
pub proof fn lemma_frame_is_shown<B>(v: VideoPlayer, frame: VideoFrame<B>)
    ensures
        v.shows(frame) <==> !(frame.pts_us < v.core.seek_floor_us),
        v.marked(frame).pts_us == frame.pts_us,
        v.marked(frame).duration_us == frame.duration_us,
        v.marked(frame).pixel_buffer == frame.pixel_buffer,
        v.needs_display_flush ==> v.marked(frame).seek_flush,
        !v.needs_display_flush ==> v.marked(frame) == frame,
        !v.after_frame().needs_display_flush,
        v.after_frame().core.seek_landed,
        v.after_frame() == (VideoPlayer {
            needs_display_flush: false,
            core: PlayerCore { seek_landed: true, ..v.core },
            ..v
        }),
{
}

/// A seek that is queued is passed over only where it is by less than a millisecond and need not be
/// exact.
pub proof fn lemma_only_idle_seeks_are_dropped(q: QueuedSeek)
    ensures
        is_idle_seek(q) ==> !q.exact,
        q.delta_us >= 1000 || q.delta_us <= -1000 ==> !is_idle_seek(q),
        !q.exact && q.delta_us == 0 ==> is_idle_seek(q),
        !q.exact && (q.delta_us == 999 || q.delta_us == -999) ==> is_idle_seek(q),
{
}

/// A seek ahead that passes over buffered samples passes over as many as it takes, or over all of
/// them where there are fewer.
pub proof fn lemma_skip_is_as_long_as_asked(delta_us: int, sample_rate: int, buffered: int)
    requires
        delta_us >= 0,
        sample_rate >= 0,
        buffered >= 0,
    ensures
        0 <= skipped_samples(delta_us, sample_rate, buffered) <= buffered,
        skipped_samples(delta_us, sample_rate, buffered) * 1_000_000 <= delta_us * sample_rate,
        skipped_samples(delta_us, sample_rate, buffered) < buffered ==> delta_us * sample_rate < (
        skipped_samples(delta_us, sample_rate, buffered) + 1) * 1_000_000,
{
    assert(delta_us * sample_rate >= 0) by (nonlinear_arith)
        requires
            delta_us >= 0,
            sample_rate >= 0,
    ;
}

/// The clock then moves ahead by what the passed samples last, to the microsecond, and not past the
/// end of the file.
pub proof fn lemma_skip_moves_the_clock(
    current: int,
    samples: int,
    sample_rate: int,
    duration_us: i64,
)
    requires
        samples >= 0,
        sample_rate > 0,
    ensures
        skip_target(current, samples, sample_rate, duration_us) <= duration_us,
        skip_target(current, samples, sample_rate, duration_us) < duration_us ==> {
            let moved = skip_target(current, samples, sample_rate, duration_us) - current;
            moved * sample_rate <= samples * 1_000_000 < (moved + 1) * sample_rate
        },
        (duration_us - current) * sample_rate > samples * 1_000_000 ==> skip_target(
            current,
            samples,
            sample_rate,
            duration_us,
        ) < duration_us,
{
    let us = samples * 1_000_000;
    let moved = us / sample_rate;
    vstd::arithmetic::div_mod::lemma_fundamental_div_mod(us, sample_rate);
    vstd::arithmetic::div_mod::lemma_mod_bound(us, sample_rate);
    assert(moved * sample_rate <= us < (moved + 1) * sample_rate) by (nonlinear_arith)
        requires
            us == sample_rate * moved + us % sample_rate,
            0 <= us % sample_rate < sample_rate,
    ;
    let left = duration_us - current;
    if left * sample_rate > us {
        assert(moved < left) by (nonlinear_arith)
            requires
                moved * sample_rate <= us,
                left * sample_rate > us,
                sample_rate > 0,
        ;
    }
}

/// The sample rate that counts is that of the track that plays.
pub proof fn lemma_rate_of_the_current_track(core: PlayerCore)
    ensures
        core.current_audio_track < core.stream_info.audio_streams.len() ==> current_rate(core)
            == core.stream_info.audio_streams@[core.current_audio_track as int].sample_rate,
        core.current_audio_track >= core.stream_info.audio_streams.len() ==> current_rate(core)
            == 48000,
{
}

/// A seek without video that moves at all is carried out at once, and is then queued no more. One
/// ahead that need not be exact passes over what is buffered and asks nothing of the demuxer; any
/// other, and one with nothing to pass over, goes to the demuxer, drops what waits for the output,
/// and shows nothing from before the target where it is exact.
pub proof fn lemma_audio_seek_is_carried_out<S>(
    a: AudioOnlyPlayer<S>,
    reading: i64,
    buffered: int,
    effects: Seq<Effect>,
    next: AudioOnlyPlayer<S>,
    q: QueuedSeek,
)
    requires
        a.executes(reading, buffered, effects, next),
        a.core.queued_seek == Some(q),
        q.exact || q.delta_us >= 1000 || q.delta_us <= -1000,
        buffered >= 0,
    ensures
        next.core.queued_seek is None,
        ({
            let position = if a.core.clock.paused {
                a.core.clock.pause_pts
            } else {
                reading
            };
            let samples = skipped_samples(
                q.delta_us as int,
                current_rate(a.core) as int,
                buffered,
            );
            if q.delta_us > 0 && !q.exact && a.core.has_output && samples > 0 {
                &&& effects.contains(Effect::AudioSkip(samples as usize))
                &&& effects.len() == 2
                &&& effects[1] matches Effect::SetClock(t) && t == skip_target(
                    position as int,
                    samples,
                    current_rate(a.core) as int,
                    a.core.duration_us,
                ) as i64
                &&& next.pending_audio == a.pending_audio
                &&& next.core == (PlayerCore { queued_seek: None, ..a.core })
            } else {
                &&& effects[0] matches Effect::Demux(DemuxCommand::Seek { target_pts, forward })
                    && forward == (q.delta_us > 0 && !q.exact) && (0 <= position + q.delta_us
                    <= a.core.duration_us ==> target_pts == position + q.delta_us)
                &&& next.pending_audio@.len() == 0
                &&& q.exact ==> effects[0] == Effect::Demux(
                    DemuxCommand::Seek { target_pts: next.core.seek_floor_us, forward: false },
                )
                &&& a.core.pending_seeks < u32::MAX ==> next.core.pending_seeks
                    == a.core.pending_seeks + 1
                &&& next.core.last_audio_end_us == 0
                &&& next.core.eof_audio_end_us is None
            }
        }),
{
    let core = PlayerCore { queued_seek: None, ..a.core };
    let target = within_file(core.position(reading) + q.delta_us, core.duration_us);
    if a.skips(q, buffered) {
        assert(effects[0] == Effect::AudioSkip(
            skipped_samples(q.delta_us as int, current_rate(a.core) as int, buffered) as usize,
        ));
    } else {
        assert(audio_seek_effects(core, target, !q.exact && q.delta_us > 0)[0] == Effect::Demux(
            DemuxCommand::Seek { target_pts: target, forward: !q.exact && q.delta_us > 0 },
        ));
    }
}

/// A player that has just been made plays from the start, at the volume and with the delay it was
/// given, with nothing pending and nothing shown.
pub proof fn lemma_fresh_player(
    c: PlayerCore,
    stream_info: StreamInfo,
    volume: u32,
    audio_delay_us: i64,
    subtitle_tracks: Vec<SubtitleTrack>,
)
    requires
        fresh_core(c, stream_info, volume, audio_delay_us, subtitle_tracks),
    ensures
        c.volume == volume,
        c.pre_mute_volume is None,
        c.audio_delay_us == audio_delay_us,
        c.stream_info == stream_info,
        c.duration_us == stream_info.duration_us,
        c.subtitle_tracks == subtitle_tracks,
        !c.paused && !c.clock.paused,
        c.pending_seeks == 0,
        c.queued_seek is None,
        c.seek_floor_us == 0,
        c.seek_landed,
        c.last_audio_end_us == 0,
        c.eof_audio_end_us is None,
        c.current_subtitle_idx is None,
        c.last_subtitle_text is None,
        c.current_audio_track == 0,
        !c.has_decoder && !c.has_output,
{
}

/// The samples of one channel of buffers, one buffer behind the other.
pub open spec fn channel_samples<S>(bufs: Seq<AudioBuffer<S>>, c: int) -> Seq<S>
    decreases bufs.len(),
{
    if bufs.len() == 0 {
        Seq::empty()
    } else {
        bufs[0].planes@[c]@ + channel_samples(bufs.drop_first(), c)
    }
}

/// Buffers that wait are queued in their order and whole, as many as there is room for: each queue
/// holds behind its own the samples of its channel of those buffers, and the buffer behind the last
/// of them does not fit.
pub proof fn lemma_waiting_buffers_are_queued_in_order<S>(
    o: OutputState<S>,
    bufs: Seq<AudioBuffer<S>>,
)
    requires
        o.queues.len() > 0,
        forall|c: int| 0 <= c < o.queues.len() ==> (#[trigger] o.queues[c]).len() == o.queues[0].len(),
        o.queues[0].len() <= RING_CAPACITY,
        forall|k: int|
            0 <= k < bufs.len() ==> (#[trigger] bufs[k]).channels == o.queues.len()
                && bufs[k].planes.len() == bufs[k].channels && bufs[k].samples_per_channel > 0,
        forall|k: int, c: int|
            0 <= k < bufs.len() && 0 <= c < o.queues.len() ==> (
            #[trigger] bufs[k].planes@[c]).len() == bufs[k].samples_per_channel,
    ensures
        ({
            let (last, count) = drained(o, bufs);
            &&& 0 <= count <= bufs.len()
            &&& last.queues.len() == o.queues.len()
            &&& forall|c: int|
                0 <= c < o.queues.len() ==> #[trigger] last.queues[c] == o.queues[c]
                    + channel_samples(bufs.take(count), c)
            &&& count < bufs.len() ==> last.queues[0].len() + bufs[count].samples_per_channel
                > RING_CAPACITY
            &&& count == 0 ==> last == o
        }),
    decreases bufs.len(),
{
    let (last, count) = drained(o, bufs);
    if bufs.len() == 0 || !has_room(o, bufs[0]) {
        assert forall|c: int| 0 <= c < o.queues.len() implies #[trigger] last.queues[c]
            == o.queues[c] + channel_samples(bufs.take(count), c) by {
            assert(bufs.take(0).len() == 0);
            assert(o.queues[c] + Seq::<S>::empty() =~= o.queues[c]);
        }
    } else {
        let b = bufs[0];
        let rest = bufs.drop_first();
        let next = after_schedule(o, b);
        assert forall|c: int| 0 <= c < o.queues.len() implies #[trigger] next.queues[c]
            == o.queues[c] + b.planes@[c]@ by {
            assert(b.planes@[c].len() == b.samples_per_channel);
            assert(plane_rows(b.planes@)[c] == b.planes@[c]@);
            assert(o.queues[c].len() == o.queues[0].len());
            assert(b.planes@[c]@.take(b.planes@[c]@.len() as int) =~= b.planes@[c]@);
        }
        assert forall|k: int| 0 <= k < rest.len() implies (#[trigger] rest[k]).channels
            == next.queues.len() && rest[k].planes.len() == rest[k].channels
            && rest[k].samples_per_channel > 0 by {
            assert(rest[k] == bufs[k + 1]);
        }
        assert forall|k: int, c: int| 0 <= k < rest.len() && 0 <= c < next.queues.len() implies (
        #[trigger] rest[k].planes@[c]).len() == rest[k].samples_per_channel by {
            assert(bufs[k + 1].planes@[c].len() == bufs[k + 1].samples_per_channel);
        }
        assert forall|c: int| 0 <= c < next.queues.len() implies (#[trigger] next.queues[c]).len()
            == next.queues[0].len() by {
            assert(b.planes@[c].len() == b.samples_per_channel);
            assert(b.planes@[0].len() == b.samples_per_channel);
            assert(next.queues[c] == o.queues[c] + b.planes@[c]@);
            assert(next.queues[0] == o.queues[0] + b.planes@[0]@);
        }
        assert(next.queues[0] == o.queues[0] + b.planes@[0]@);
        assert(b.planes@[0].len() == b.samples_per_channel);
        lemma_waiting_buffers_are_queued_in_order(next, rest);
        let taken = bufs.take(count);
        assert(taken.drop_first() =~= rest.take(count - 1));
        assert(taken[0] == b);
        assert forall|c: int| 0 <= c < o.queues.len() implies #[trigger] last.queues[c]
            == o.queues[c] + channel_samples(taken, c) by {
            assert(last.queues[c] == next.queues[c] + channel_samples(rest.take(count - 1), c));
            assert(o.queues[c] + b.planes@[c]@ + channel_samples(rest.take(count - 1), c)
                =~= o.queues[c] + (b.planes@[c]@ + channel_samples(rest.take(count - 1), c)));
        }
        if count < bufs.len() {
            assert(rest[count - 1] == bufs[count]);
        }
    }
}

} // verus!
