use std::collections::VecDeque;

use crossbeam_channel::TryRecvError;

use play::audio_out::{AudioOutput, Scheduled};
use play::cmd::{Command, DemuxCommand, DemuxPacket, EndReason, VideoFrame};
use play::decode_audio::AudioBuffer;
use play::modes::{
    can_drain, drain_pending, position_after_skip, samples_to_skip, AudioOnlyPlayer, PacketVerdict,
    Player, PlayerMode, VideoPlayer,
};
use play::player::{change_volume, seek_target, Batch, Effect, Notice, PlayerCore, QueuedSeek};
use play::streams::{AudioStreamInfo, StreamInfo, VideoStreamInfo};
use play::subtitle::{SrtEntry, SubtitleTrack};

fn audio_stream(index: usize) -> AudioStreamInfo {
    AudioStreamInfo {
        index,
        codec_name: "aac".to_string(),
        sample_rate: 48000,
        channel_layout_desc: "2ch".to_string(),
    }
}

fn make_test_player_ex(with_video: bool) -> Player<f32> {
    let video_stream = if with_video {
        Some(VideoStreamInfo {
            index: 0,
            width: 1920,
            height: 1080,
            codec_name: "h264".to_string(),
        })
    } else {
        None
    };

    let stream_info = StreamInfo {
        duration_us: 3_600_000_000,
        video_stream,
        audio_streams: vec![],
        subtitle_streams: vec![],
        metadata: vec![],
    };

    Player::new(stream_info, 100, 0, vec![])
}

fn make_test_player() -> Player<f32> {
    make_test_player_ex(false)
}

fn make_video_test_player() -> Player<f32> {
    make_test_player_ex(true)
}

fn as_audio_only(p: &mut Player<f32>) -> &mut AudioOnlyPlayer<f32> {
    match &mut p.mode {
        PlayerMode::AudioOnly(a) => a,
        _ => panic!("expected audio-only player"),
    }
}

fn as_video(p: &mut Player<f32>) -> &mut VideoPlayer {
    match &mut p.mode {
        PlayerMode::Video(v) => v,
        _ => panic!("expected video player"),
    }
}

/// The position that effects leave the audio clock at.
fn clock_after(reading: i64, effects: &[Effect]) -> i64 {
    let mut clock = reading;
    for effect in effects {
        if let Effect::SetClock(us) = effect {
            clock = *us;
        }
    }
    clock
}

fn demux_commands(effects: &[Effect]) -> usize {
    effects.iter().filter(|e| matches!(e, Effect::Demux(_))).count()
}

#[test]
fn first_seek_dispatches_immediately() {
    let mut player = make_test_player();
    let ao = as_audio_only(&mut player);

    ao.core.queue_seek(5_000_000, false);
    let effects = ao.execute_queued_seek(0, 0);

    assert_eq!(ao.core.pending_seeks, 1);
    assert!(ao.core.queued_seek.is_none());
    assert_eq!(demux_commands(&effects), 1, "Seek command should be sent to demuxer");
}

#[test]
fn scrubbing_serializes_video_seeks() {
    let mut player = make_video_test_player();
    let vp = as_video(&mut player);
    let mut clock = 0;
    let mut count = 0;

    // First seek dispatches immediately
    vp.core.queue_seek(5_000_000, false);
    let effects = vp.execute_queued_seek(clock, 0);
    clock = clock_after(clock, &effects);
    count += demux_commands(&effects);
    assert_eq!(vp.core.pending_seeks, 1);
    assert!(vp.scrubbing);

    // Second seek deferred: scrubbing + pending_seeks > 0
    vp.core.queue_seek(5_000_000, false);
    let effects = vp.execute_queued_seek(clock, 0);
    clock = clock_after(clock, &effects);
    count += demux_commands(&effects);
    assert_eq!(vp.core.pending_seeks, 1, "Should not dispatch while scrubbing");
    assert_eq!(vp.core.clock.audio_pts_at(clock), 10_000_000);
    assert_eq!(count, 1);

    // Simulate Flush arrival + new seek
    vp.core.pending_seeks = 0;
    vp.core.queue_seek(5_000_000, false);
    let _ = vp.execute_queued_seek(clock, 0);
    assert_eq!(vp.core.pending_seeks, 1, "New seek should dispatch after Flush");
    assert!(vp.core.queued_seek.is_none());
}

#[test]
fn queued_seeks_accumulate() {
    let mut player = make_test_player();
    let ao = as_audio_only(&mut player);

    for _ in 0..4 {
        ao.core.queue_seek(5_000_000, false);
    }

    let qs = ao.core.queued_seek.unwrap();
    assert_eq!(qs.delta_us, 20_000_000, "Should accumulate to +20s");
}

#[test]
fn needs_display_flush_independent_of_seek_landed() {
    let mut player = make_video_test_player();
    let vp = as_video(&mut player);

    vp.core.pending_seeks = 1;
    vp.core.seek_landed = false;
    vp.needs_display_flush = true;

    // Audio lands first
    vp.core.seek_landed = true;

    assert!(vp.needs_display_flush, "Display flush should wait for video frame, not audio");

    let mut frame = VideoFrame { pixel_buffer: Some(1), pts_us: 5, duration_us: 1, seek_flush: false };
    assert_eq!(vp.accept_frame(&mut frame), Some(vec![]));
    assert!(frame.seek_flush);
    assert!(!vp.needs_display_flush);
    let mut next = VideoFrame { pixel_buffer: Some(2), pts_us: 6, duration_us: 1, seek_flush: false };
    assert_eq!(vp.accept_frame(&mut next), Some(vec![]));
    assert!(!next.seek_flush);
}

#[test]
fn audio_only_has_no_display_flush() {
    let mut player = make_test_player();
    let _ao = as_audio_only(&mut player);
    assert!(matches!(player.mode, PlayerMode::AudioOnly(_)));

    let ao = as_audio_only(&mut player);
    ao.core.queue_seek(5_000_000, false);
    let effects = ao.execute_queued_seek(0, 0);
    assert!(!effects.iter().any(|e| matches!(e, Effect::UiSeekFlush(_))));
}

fn core_of(player: Player<f32>) -> PlayerCore {
    match player.mode {
        PlayerMode::Video(v) => v.core,
        PlayerMode::AudioOnly(a) => a.core,
    }
}

fn core_with_tracks(count: usize) -> PlayerCore {
    let mut core = core_of(make_test_player());
    core.stream_info.audio_streams = (0..count).map(audio_stream).collect();
    core
}

#[test]
fn volume_stays_within_bounds() {
    assert_eq!(change_volume(98, 5), 100);
    assert_eq!(change_volume(3, -5), 0);
    assert_eq!(change_volume(50, -5), 45);
    let mut core = core_with_tracks(0);
    core.has_output = true;
    let outcome = core.handle_single(Command::VolumeDown, 0);
    assert!(!outcome.quit);
    assert_eq!(
        outcome.effects,
        vec![
            Effect::AudioVolume(95),
            Effect::Osd(Notice::Volume { percent: 95, muted: false }),
        ]
    );
    assert_eq!(core.notice_text(Notice::Volume { percent: 95, muted: false }), "Volume: 95%");
}

#[test]
fn mute_is_undone_by_itself_and_by_volume() {
    let mut core = core_with_tracks(0);
    core.volume = 40;
    core.handle_single(Command::ToggleMute, 0);
    assert_eq!((core.volume, core.pre_mute_volume), (0, Some(40)));
    core.handle_single(Command::ToggleMute, 0);
    assert_eq!((core.volume, core.pre_mute_volume), (40, None));
    core.handle_single(Command::ToggleMute, 0);
    core.handle_single(Command::VolumeUp, 0);
    assert_eq!((core.volume, core.pre_mute_volume), (5, None));
}

#[test]
fn pause_holds_the_position() {
    let mut core = core_with_tracks(0);
    core.has_output = true;
    let outcome = core.handle_single(Command::PlayPause, 7);
    assert_eq!(outcome.effects, vec![Effect::AudioPause, Effect::UiPaused(true)]);
    assert_eq!(core.clock.audio_pts_at(900), 7);
    let outcome = core.handle_single(Command::PlayPause, 900);
    assert_eq!(outcome.effects, vec![Effect::AudioPlay, Effect::UiPaused(false)]);
    assert_eq!(core.clock.audio_pts_at(901), 901);
}

#[test]
fn audio_tracks_come_round() {
    let mut core = core_with_tracks(3);
    core.has_decoder = true;
    core.has_output = true;
    let outcome = core.handle_single(Command::CycleAudioTrack, 0);
    assert_eq!(
        outcome.effects,
        vec![
            Effect::FlushAudioDecoder,
            Effect::AudioFlush,
            Effect::Demux(DemuxCommand::ChangeAudio(1)),
            Effect::SwitchAudio(1),
            Effect::Osd(Notice::AudioTrack { track: 1 }),
        ]
    );
    core.handle_single(Command::CycleAudioTrack, 0);
    core.handle_single(Command::CycleAudioTrack, 0);
    assert_eq!(core.current_audio_track, 0);
    assert!(core_with_tracks(1).handle_single(Command::CycleAudioTrack, 0).effects.is_empty());
}

fn track(label: &str, entries: Vec<SrtEntry>) -> SubtitleTrack {
    SubtitleTrack { label: label.to_string(), entries }
}

#[test]
fn subtitles_come_round_and_are_shown_once() {
    let mut core = core_with_tracks(0);
    assert_eq!(
        core.handle_single(Command::CycleSubtitle, 0).effects,
        vec![Effect::Osd(Notice::NoSubtitles)]
    );
    let entry = SrtEntry { start_us: 10, end_us: 20, text: "hi".to_string() };
    core.subtitle_tracks = vec![track("English", vec![entry]), track("German", vec![])];
    for (expected, text) in [
        (Some(0), "Subtitles: English"),
        (Some(1), "Subtitles: German"),
        (None, "Subtitles: off"),
        (Some(0), "Subtitles: English"),
    ] {
        let outcome = core.handle_single(Command::CycleSubtitle, 0);
        assert_eq!(core.current_subtitle_idx, expected);
        match outcome.effects[0] {
            Effect::Osd(notice) => assert_eq!(core.notice_text(notice), text),
            _ => panic!("expected a message"),
        }
        assert_eq!(outcome.effects[1], Effect::ClearSubtitle);
    }
    assert_eq!(core.update_subtitles(15), Some(Some("hi".to_string())));
    assert_eq!(core.update_subtitles(16), None);
    assert_eq!(core.update_subtitles(21), Some(None));
}

#[test]
fn audio_delay_changes_in_steps() {
    let mut core = core_with_tracks(0);
    let outcome = core.handle_single(Command::AudioDelayDecrease, 0);
    assert_eq!(core.audio_delay_us, -100_000);
    assert_eq!(outcome.effects, vec![Effect::Osd(Notice::AudioDelay { ms: -100 })]);
    assert_eq!(core.notice_text(Notice::AudioDelay { ms: -100 }), "Audio delay: -100ms");
    assert_eq!(core.notice_text(Notice::AudioDelay { ms: 0 }), "Audio delay: +0ms");
    core.audio_delay_us = i64::MAX;
    core.handle_single(Command::AudioDelayIncrease, 0);
    assert_eq!(core.audio_delay_us, i64::MAX);
}

#[test]
fn quit_stops_demuxer_and_output() {
    let mut core = core_with_tracks(0);
    core.has_output = true;
    let outcome = core.handle_single(Command::Quit, 0);
    assert!(outcome.quit);
    assert_eq!(outcome.effects, vec![Effect::Demux(DemuxCommand::Stop), Effect::AudioStop]);
    assert_eq!(
        core.handle_single(Command::PrevFile, 0).effects,
        vec![Effect::UiEnd(EndReason::PrevFile)]
    );
}

#[test]
fn waiting_seeks_are_taken_along() {
    let seek = |delta_us| Command::SeekRelative { delta_us, exact: false };
    let mut core = core_with_tracks(0);
    let (tx, rx) = crossbeam_channel::unbounded::<Command>();
    tx.send(seek(2)).unwrap();
    tx.send(Command::SeekRelative { delta_us: 3, exact: true }).unwrap();
    tx.send(Command::VolumeDown).unwrap();
    tx.send(seek(50)).unwrap();
    let outcome = core.handle_command_shared(seek(1), 0, &rx);
    assert!(!outcome.quit);
    assert_eq!(core.queued_seek, Some(QueuedSeek { delta_us: 6, exact: true }));
    assert_eq!(core.volume, 95);
    assert_eq!(rx.len(), 1);

    let mut other = core_with_tracks(0);
    assert!(other.handle_batch(&vec![seek(1), seek(2), Command::Quit], 0).quit);
    assert_eq!(other.queued_seek, Some(QueuedSeek { delta_us: 3, exact: false }));
    assert!(!other.handle_batch(&vec![seek(4)], 0).quit);
    assert_eq!(other.queued_seek, Some(QueuedSeek { delta_us: 7, exact: false }));
}

#[test]
fn batch_ends_with_another_command() {
    let seek = Command::SeekRelative { delta_us: 1, exact: false };
    let mut batch = Batch::new();
    batch.take(Ok(seek));
    assert!(batch.open);
    batch.take(Ok(Command::PlayPause));
    assert!(!batch.open);
    assert_eq!(batch.cmds, vec![seek, Command::PlayPause]);
    let mut empty = Batch::new();
    empty.take(Err(TryRecvError::Empty));
    assert!(!empty.open && empty.cmds.is_empty());
}

#[test]
fn playback_starts_with_the_track_asked_for() {
    let mut core = core_with_tracks(3);
    assert_eq!(core.audio_stream(), Some(0));
    core.start_with_track(3);
    assert_eq!((core.current_audio_track, core.audio_stream()), (2, Some(2)));
    core.handle_single(Command::CycleAudioTrack, 0);
    assert_eq!(core.audio_stream(), Some(0));
    core.start_with_track(4);
    assert_eq!(core.audio_stream(), Some(0));
    assert_eq!(core_with_tracks(0).audio_stream(), None);
}

#[test]
fn seeks_stay_within_the_file() {
    assert_eq!(seek_target(5, -10, 100), 0);
    assert_eq!(seek_target(95, 10, 100), 100);
    assert_eq!(seek_target(i64::MAX, i64::MAX, i64::MAX), i64::MAX);
    assert_eq!(seek_target(20, 30, 100), 50);
}

#[test]
fn absolute_seek_goes_to_the_next_keyframe() {
    let (_tx, rx) = crossbeam_channel::unbounded::<Command>();
    let mut player = make_video_test_player();
    let vp = as_video(&mut player);
    vp.has_video_decoder = true;
    let cmd = Command::SeekAbsolute { target_us: 9_000_000 };
    let outcome = vp.handle_command(cmd, 0, 77, &rx);
    assert_eq!(
        outcome.effects,
        vec![
            Effect::Demux(DemuxCommand::Seek { target_pts: 9_000_000, forward: true }),
            Effect::SetClock(9_000_000),
            Effect::FlushVideoDecoder,
        ]
    );
    assert_eq!(vp.last_seek_ns, Some(77));
    assert!(vp.needs_display_flush && vp.scrubbing && !vp.core.seek_landed);
}

#[test]
fn packets_before_the_flush_are_ignored() {
    let mut player = make_video_test_player();
    let vp = as_video(&mut player);
    vp.has_video_decoder = true;
    vp.core.has_decoder = true;
    vp.core.pending_seeks = 2;
    assert_eq!(vp.handle_packet(&DemuxPacket::Video(())), PacketVerdict::Ignore);
    assert_eq!(vp.handle_packet(&DemuxPacket::<()>::Flush), PacketVerdict::Ignore);
    assert_eq!(vp.handle_packet(&DemuxPacket::Audio(())), PacketVerdict::Ignore);
    assert_eq!(vp.handle_packet(&DemuxPacket::<()>::Flush), PacketVerdict::Ignore);
    assert_eq!(vp.core.pending_seeks, 0);
    assert_eq!(vp.handle_packet(&DemuxPacket::Video(())), PacketVerdict::DecodeVideo);
    assert_eq!(vp.handle_packet(&DemuxPacket::Audio(())), PacketVerdict::DecodeAudio);
    assert_eq!(vp.handle_packet(&DemuxPacket::<()>::Eof), PacketVerdict::Drain);
    vp.scrubbing = true;
    assert_eq!(vp.handle_packet(&DemuxPacket::Audio(())), PacketVerdict::Ignore);
}

#[test]
fn scrubbing_settles_after_a_while() {
    let mut player = make_video_test_player();
    let vp = as_video(&mut player);
    vp.scrubbing = true;
    vp.last_seek_ns = Some(1_000);
    vp.settle_scrubbing(100_001_000);
    assert!(vp.scrubbing);
    vp.core.pending_seeks = 1;
    vp.settle_scrubbing(200_000_000);
    assert!(vp.scrubbing);
    vp.core.pending_seeks = 0;
    assert_eq!(vp.wait_ms(), 50);
    vp.core.queue_seek(1, true);
    assert_eq!(vp.wait_ms(), 1);
    vp.core.queued_seek = None;
    vp.settle_scrubbing(100_001_001);
    assert!(!vp.scrubbing);
}

#[test]
fn exact_seek_drops_frames_before_its_target() {
    let mut player = make_video_test_player();
    let vp = as_video(&mut player);
    let _ = vp.dispatch_seek(1000, false, true, 0);
    assert_eq!(vp.core.seek_floor_us, 1000);
    let mut early = VideoFrame { pixel_buffer: Some(1), pts_us: 999, duration_us: 1, seek_flush: false };
    assert_eq!(vp.accept_frame(&mut early), None);
    let mut due = VideoFrame { pixel_buffer: Some(1), pts_us: 1000, duration_us: 1, seek_flush: false };
    assert!(vp.accept_frame(&mut due).is_some());
    assert!(due.seek_flush);
    let _ = vp.dispatch_seek(5, false, false, 0);
    let mut next = VideoFrame { pixel_buffer: Some(1), pts_us: 8, duration_us: 1, seek_flush: false };
    assert_eq!(vp.accept_frame(&mut next), Some(vec![Effect::SetClock(8)]));
}

#[test]
fn seek_ahead_skips_buffered_samples() {
    assert_eq!(samples_to_skip(1_000_000, 48000, 100_000), 48_000);
    assert_eq!(samples_to_skip(5_000_000, 48000, 100_000), 100_000);
    assert_eq!(position_after_skip(10, 48_000, 48000, 5_000_000), 1_000_010);
    assert_eq!(position_after_skip(10, 480_000, 48000, 5_000_000), 5_000_000);
    let mut player = make_test_player();
    let ao = as_audio_only(&mut player);
    ao.core.has_output = true;
    ao.core.queue_seek(1_000_000, false);
    assert_eq!(
        ao.execute_queued_seek(0, 24_000),
        vec![Effect::AudioSkip(24_000), Effect::SetClock(500_000)]
    );
    assert_eq!(ao.core.pending_seeks, 0);
    ao.core.queue_seek(-1_000_000, false);
    let effects = ao.execute_queued_seek(2_500_000, 24_000);
    assert_eq!(
        effects,
        vec![
            Effect::Demux(DemuxCommand::Seek { target_pts: 1_500_000, forward: false }),
            Effect::SetClock(1_500_000),
            Effect::AudioFlushQuick,
            Effect::AudioPosition(1_500_000),
        ]
    );
}

#[test]
fn tiny_seeks_are_dropped() {
    let mut player = make_test_player();
    let ao = as_audio_only(&mut player);
    ao.core.queue_seek(999, false);
    assert!(ao.execute_queued_seek(0, 0).is_empty());
    assert!(ao.core.queued_seek.is_none());
    ao.core.queue_seek(0, true);
    assert_eq!(demux_commands(&ao.execute_queued_seek(0, 0)), 1);
}

#[test]
fn start_is_sought_exactly() {
    let mut player = make_video_test_player();
    let effects = player.seek_to(30_000_000);
    assert_eq!(
        effects,
        vec![
            Effect::Demux(DemuxCommand::Seek { target_pts: 30_000_000, forward: false }),
            Effect::SetClock(30_000_000),
            Effect::UiSeekFlush(30_000_000),
        ]
    );
    let vp = as_video(&mut player);
    assert_eq!((vp.core.pending_seeks, vp.core.seek_floor_us), (1, 30_000_000));
}

fn buffer(samples: usize, pts_us: i64) -> AudioBuffer<f32> {
    AudioBuffer {
        planes: vec![vec![0.5; samples]],
        samples_per_channel: samples,
        channels: 1,
        sample_rate: 48000,
        pts_us,
    }
}

#[test]
fn buffers_wait_for_room() {
    let mut output = AudioOutput::new(48000, 1, 0.0f32);
    let mut player = make_test_player();
    let ao = as_audio_only(&mut player);
    assert!(ao.takes_packets() && ao.is_idle());
    for k in 0..3 {
        ao.defer_audio(buffer(200_000, k));
    }
    assert!(!ao.is_idle());
    assert!(drain_pending(&mut ao.pending_audio, &mut output));
    assert_eq!(ao.pending_audio.len(), 1);
    assert_eq!(output.buffered_samples(), 400_000);
    assert!(!drain_pending(&mut ao.pending_audio, &mut output));
    ao.drop_pending_audio();
    assert!(ao.is_idle());
}

#[test]
fn planes_count_only_for_what_is_queued() {
    let mut output = AudioOutput::new(48000, 1, 0.0f32);
    let bare = || AudioBuffer { planes: vec![], ..buffer(200_000, 0) };
    let empty = AudioBuffer { planes: vec![], ..buffer(0, 0) };
    let pending = |bufs: Vec<AudioBuffer<f32>>| VecDeque::from(bufs);
    assert!(!can_drain(&pending(vec![bare()]), &output));
    assert!(!can_drain(&pending(vec![buffer(200_000, 0), bare()]), &output));
    let mut late =
        pending(vec![empty, buffer(200_000, 0), buffer(200_000, 0), bare()]);
    assert!(can_drain(&late, &output));
    assert!(drain_pending(&mut late, &mut output));
    assert_eq!(late.len(), 1);
    assert!(!output.has_room_for(&bare()) && !output.can_hold(&bare()));
    assert_eq!(output.try_schedule_buffer(&bare()), Scheduled::Refused);
}

#[test]
fn audio_is_accepted_from_the_floor_on() {
    let mut core = core_with_tracks(1);
    core.audio_delay_us = 1000;
    core.seek_landed = false;
    let mut buf = buffer(48, 2000);
    let effects = core.accept_audio(&mut buf).unwrap();
    assert_eq!(buf.pts_us, 3000);
    assert!(core.seek_landed);
    assert!(effects.contains(&Effect::SetClock(3000)));
    core.seek_floor_us = 10_000;
    let mut early = buffer(48, 2000);
    assert!(core.accept_audio(&mut early).is_none());
}

#[test]
fn file_ends_once_audio_has_played() {
    let mut core = core_with_tracks(1);
    core.has_output = true;
    core.note_audio_end(&buffer(48_000, 0));
    assert_eq!(core.last_audio_end_us, 1_000_000);
    let _ = core.signal_eof();
    assert_eq!(core.eof_audio_end_us, Some(1_000_000));
    assert!(core.check_eof(999_999, 5).is_empty());
    assert_eq!(core.check_eof(1_000_000, 5), vec![Effect::UiEnd(EndReason::Eof)]);
    assert!(core.check_eof(1_000_000, 5).is_empty());
    core.eof_audio_end_us = Some(9);
    assert_eq!(core.check_eof(0, 0), vec![Effect::UiEnd(EndReason::Eof)]);
    core.last_audio_end_us = 0;
    assert_eq!(core.signal_eof(), vec![Effect::UiEnd(EndReason::Eof)]);
}

#[test]
fn track_switch_is_announced() {
    let core = core_with_tracks(2);
    assert_eq!(core.notice_text(Notice::AudioTrack { track: 1 }), "Audio: 2/2 - aac 48000Hz 2ch");
    assert_eq!(core.notice_text(Notice::NoSubtitles), "Subtitles: none available");
    assert_eq!(core.notice_text(Notice::Volume { percent: 0, muted: true }), "Muted: 0%");
}
