use play::cmd::{ArgsError, Command, DemuxCommand, DemuxPacket, EndReason};
use play::modes::PacketVerdict;
use play::player::{Effect, QueuedSeek};
use play::playm::{music_message, parse_args, AudioPlayer, MUSIC_USAGE};
use play::streams::StreamInfo;

fn args(s: &[&str]) -> Vec<String> {
    s.iter().map(|s| s.to_string()).collect()
}

fn player() -> AudioPlayer<f32> {
    let info = StreamInfo {
        video_stream: None,
        audio_streams: vec![],
        subtitle_streams: vec![],
        duration_us: 100_000_000,
        metadata: vec![],
    };
    AudioPlayer::new(info, 80)
}

#[test]
fn music_arguments_are_read() {
    let a = parse_args(&args(&["--volume", "30", "--audio-track", "2", "--start", "9", "-v", "a", "b"]))
        .unwrap();
    assert_eq!(a.files, args(&["a", "b"]));
    assert_eq!((a.volume, a.audio_track, a.verbose), (30, 2, 1));
    assert_eq!(a.start, Some("9".to_string()));
    let e = parse_args(&args(&["--help"])).unwrap_err();
    assert!(matches!(e, ArgsError::Help));
    assert_eq!(music_message(&e), MUSIC_USAGE);
    assert!(parse_args(&args(&["--bogus", "a"])).is_err());
    assert!(parse_args(&args(&[])).is_err());
    assert!(parse_args(&args(&["--volume"])).is_err());
    assert!(parse_args(&args(&["--volume", "x", "a"])).is_err());
}

#[test]
fn music_player_heeds_few_commands() {
    let mut p = player();
    let outcome = p.handle_single(Command::VolumeDown, 0);
    assert!(!outcome.quit);
    assert_eq!(p.player.core.volume, 75);
    assert!(p.handle_single(Command::ToggleMute, 0).effects.is_empty());
    assert!(p.handle_single(Command::AudioDelayIncrease, 0).effects.is_empty());
    assert_eq!((p.player.core.volume, p.player.core.audio_delay_us), (75, 0));
    assert!(p.handle_single(Command::Quit, 0).quit);
}

#[test]
fn music_seeks_are_never_exact() {
    let mut p = player();
    let (tx, rx) = crossbeam_channel::unbounded::<Command>();
    tx.send(Command::SeekRelative { delta_us: 2, exact: true }).unwrap();
    tx.send(Command::NextFile).unwrap();
    let outcome = p.handle_command(Command::SeekRelative { delta_us: 1, exact: true }, 0, &rx);
    assert_eq!(outcome.effects, vec![Effect::UiEnd(EndReason::NextFile)]);
    assert_eq!(p.player.core.queued_seek, Some(QueuedSeek { delta_us: 3, exact: false }));
    assert!(p.execute_queued_seek(0, 0).is_empty());
    assert!(p.player.core.queued_seek.is_none());
}

#[test]
fn music_batches_queue_plain_seeks() {
    let mut p = player();
    let seek = Command::SeekRelative { delta_us: 4, exact: true };
    assert!(!p.handle_batch(&vec![seek, seek], 0).quit);
    assert_eq!(p.player.core.queued_seek, Some(QueuedSeek { delta_us: 8, exact: false }));
    assert!(p.handle_batch(&vec![seek, Command::ToggleMute], 0).effects.is_empty());
    assert_eq!(p.player.core.volume, 80);
    assert!(p.handle_batch(&vec![Command::Quit], 0).quit);
}

#[test]
fn music_start_waits_for_its_flush() {
    let mut p = player();
    assert_eq!(
        p.seek_to(5),
        vec![
            Effect::Demux(DemuxCommand::Seek { target_pts: 5, forward: false }),
            Effect::SetClock(5),
        ]
    );
    p.player.core.has_decoder = true;
    assert_eq!(p.handle_packet(&DemuxPacket::Audio(())).0, PacketVerdict::Ignore);
    let (verdict, effects) = p.handle_packet(&DemuxPacket::<()>::Flush);
    assert_eq!((verdict, effects), (PacketVerdict::Ignore, vec![Effect::FlushAudioDecoder]));
    assert_eq!(p.handle_packet(&DemuxPacket::Audio(())).0, PacketVerdict::DecodeAudio);
    p.player.core.eof_audio_end_us = Some(10);
    assert!(p.check_eof(9).is_empty());
    assert_eq!(p.check_eof(10), vec![Effect::UiEnd(EndReason::Eof)]);
}
