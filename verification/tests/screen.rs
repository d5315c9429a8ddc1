use play::cmd::{Command, EndReason, UiUpdate, VideoFrame};
use play::input::{map_char, map_key, KEY_DELETE, KEY_DOWN, KEY_ESCAPE, KEY_LEFT, KEY_RETURN, KEY_RIGHT, KEY_SPACE, KEY_UP};
use play::osd::{seek_bar, show_bar, show_cursor, show_message, tick, Osd, OsdEffect};
use play::video_out::{
    flush_and_seek, init_display, reset_for_new_file, sets_playback_rate, sync_timebase, CMTime,
    DisplayAction, DisplayOutput, TIME_FLAGS_VALID,
};
use play::window::{
    count_tick, end_of, handle_key, is_sent, process_pending_ui_updates, title_text, window_steps,
    KeyResponse,
};

#[test]
fn keys_are_bound_as_documented() {
    let seek = |seconds: i64, exact| Some(Command::SeekRelative { delta_us: seconds * 1_000_000, exact });
    assert_eq!(map_key(KEY_SPACE, false, " "), Some(Command::PlayPause));
    assert_eq!(map_key(KEY_LEFT, false, ""), seek(-5, false));
    assert_eq!(map_key(KEY_RIGHT, false, ""), seek(5, false));
    assert_eq!(map_key(KEY_LEFT, true, ""), seek(-1, true));
    assert_eq!(map_key(KEY_RIGHT, true, ""), seek(1, true));
    assert_eq!(map_key(KEY_UP, true, ""), seek(60, false));
    assert_eq!(map_key(KEY_DOWN, true, ""), seek(-60, false));
    assert_eq!(map_key(KEY_UP, false, ""), Some(Command::VolumeUp));
    assert_eq!(map_key(KEY_DOWN, false, ""), Some(Command::VolumeDown));
    assert_eq!(map_key(KEY_RETURN, false, "\r"), Some(Command::NextFile));
    assert_eq!(map_key(KEY_DELETE, false, ""), Some(Command::PrevFile));
    assert_eq!(map_key(KEY_ESCAPE, false, "\u{1b}"), Some(Command::Quit));
    for (chars, cmd) in [
        ("q", Command::Quit),
        ("f", Command::ToggleFullscreen),
        ("a", Command::CycleAudioTrack),
        ("s", Command::CycleSubtitle),
        ("m", Command::ToggleMute),
        ("n", Command::NextFile),
        ("p", Command::PrevFile),
        ("+", Command::AudioDelayIncrease),
        ("=", Command::AudioDelayIncrease),
        ("-", Command::AudioDelayDecrease),
        (">", Command::NextFile),
        (".", Command::NextFile),
        ("<", Command::PrevFile),
        (",", Command::PrevFile),
    ] {
        assert_eq!(map_key(0, false, chars), Some(cmd));
    }
    assert_eq!(map_char("x"), None);
    assert_eq!(map_char(""), None);
}

#[test]
fn window_keeps_to_the_list() {
    assert!(is_sent(Command::NextFile, 0, 2) && !is_sent(Command::NextFile, 1, 2));
    assert!(is_sent(Command::PrevFile, 1, 2) && !is_sent(Command::PrevFile, 0, 2));
    assert_eq!(
        handle_key(0, false, "f", 0, 1),
        Some(KeyResponse { toggle_fullscreen: true, send: None, show_bar: false, quit: false })
    );
    assert_eq!(
        handle_key(0, false, ">", 0, 1),
        Some(KeyResponse { toggle_fullscreen: false, send: None, show_bar: false, quit: false })
    );
    let quit = handle_key(KEY_ESCAPE, false, "", 0, 1).unwrap();
    assert!(quit.quit && quit.send == Some(Command::Quit));
    assert!(handle_key(KEY_LEFT, false, "", 0, 1).unwrap().show_bar);
    assert_eq!(handle_key(0, false, "x", 0, 1), None);
}

#[test]
fn pending_updates_are_taken() {
    let (tx, rx) = crossbeam_channel::unbounded::<UiUpdate>();
    tx.send(UiUpdate::EndOfFile(EndReason::Eof)).unwrap();
    tx.send(UiUpdate::Osd("x".to_string())).unwrap();
    let (updates, end) = process_pending_ui_updates(&rx);
    assert_eq!((updates.len(), end), (2, Some(EndReason::Eof)));
    assert!(process_pending_ui_updates(&rx).0.is_empty());
}

#[test]
fn updates_become_steps() {
    let list = |update: UiUpdate| format!("{:?}", window_steps(update));
    assert_eq!(list(UiUpdate::Osd("x".to_string())), "[ShowMessage(\"x\")]");
    assert_eq!(list(UiUpdate::SubtitleText(None)), "[ShowSubtitle(None)]");
    assert_eq!(list(UiUpdate::VideoSize { width: 1, height: 2 }), "[]");
    assert_eq!(list(UiUpdate::Paused(true)), "[SetRunning(false)]");
    assert_eq!(list(UiUpdate::Paused(false)), "[SyncDisplay, SetRunning(true)]");
    assert_eq!(list(UiUpdate::SeekFlush(7)), "[FlushDisplay(7)]");
    assert_eq!(list(UiUpdate::EndOfFile(EndReason::Eof)), "[SendQuit]");
}

#[test]
fn last_end_counts() {
    let updates = vec![
        UiUpdate::EndOfFile(EndReason::NextFile),
        UiUpdate::EndOfFile(EndReason::Eof),
        UiUpdate::Paused(true),
    ];
    assert_eq!(end_of(&updates), Some(EndReason::Eof));
    assert_eq!(end_of(&vec![UiUpdate::Paused(true)]), None);
}

#[test]
fn ticks_and_titles() {
    assert_eq!(count_tick(0), (1, false));
    assert_eq!(count_tick(60), (61, false));
    assert_eq!(count_tick(61), (0, true));
    assert_eq!(title_text("play - a.mp4"), "a.mp4");
    assert_eq!(title_text("a.mp4"), "a.mp4");
}

#[test]
fn screen_shows_for_a_while() {
    let mut osd = Some(Osd::new(0));
    assert_eq!(show_message(&mut osd, 100), vec![OsdEffect::ShowMessage]);
    let bar = OsdEffect::RenderBar { current_us: 0, duration_us: 0, relabel: true };
    assert_eq!(show_bar(&mut osd, 500), vec![OsdEffect::ShowBar, bar]);
    let drawn = OsdEffect::RenderBar { current_us: 7, duration_us: 9, relabel: false };
    assert_eq!(tick(&mut osd, (7, 9), 1000), vec![drawn]);
    assert_eq!(tick(&mut osd, (7, 9), 2100), vec![OsdEffect::HideCursor, OsdEffect::HideMessage, drawn]);
    assert_eq!(tick(&mut osd, (7, 9), 2500), vec![OsdEffect::HideBar]);
    assert!(tick(&mut osd, (7, 9), 9000).is_empty());
    assert_eq!(show_cursor(&mut osd, 9000), vec![OsdEffect::UnhideCursor]);
    assert!(show_cursor(&mut osd, 9001).is_empty());
    let mut missing = None;
    assert!(show_bar(&mut missing, 0).is_empty() && tick(&mut missing, (0, 0), 0).is_empty());
}

#[test]
fn clicked_bar_is_held() {
    let mut osd = Some(Osd::new(0));
    let bar = OsdEffect::RenderBar { current_us: 5_000_000, duration_us: 9_000_000, relabel: true };
    assert_eq!(seek_bar(&mut osd, 5_000_000, 9_000_000, 0), vec![OsdEffect::ShowBar, bar]);
    assert!(tick(&mut osd, (1, 9_000_000), 499).is_empty());
    let drawn = OsdEffect::RenderBar { current_us: 1, duration_us: 9_000_000, relabel: true };
    assert_eq!(tick(&mut osd, (1, 9_000_000), 500), vec![drawn]);
}

#[test]
fn times_round_trip() {
    for us in [0, 1, -1, 1_234_567, i64::MAX, i64::MIN] {
        assert_eq!(CMTime::from_us(us).to_us(), us);
    }
    assert_eq!(CMTime::make(3, 2).to_us(), 1_500_000);
    assert_eq!(CMTime::make(-1, 3).to_us(), -333_333);
    assert_eq!(CMTime::invalid().to_us(), 0);
}

fn frame(pts_us: i64, seek_flush: bool) -> VideoFrame<u8> {
    VideoFrame { pixel_buffer: Some(3), pts_us, duration_us: 40, seek_flush }
}

#[test]
fn display_starts_with_the_first_frame() {
    let mut display = DisplayOutput::new(true);
    let plan = display.enqueue_frame(frame(100, false)).unwrap();
    assert_eq!(plan.actions, vec![DisplayAction::SetTime(100), DisplayAction::SetRunning(true)]);
    assert!(plan.needs_format);
    assert_eq!((plan.buffer, plan.presentation.to_us(), plan.duration.to_us()), (3, 100, 40));
    let parts = |value| CMTime { value, timescale: 1_000_000, flags: TIME_FLAGS_VALID, epoch: 0 };
    assert_eq!((plan.presentation, plan.duration), (parts(100), parts(40)));
    display.format_known();
    let plan = display.enqueue_frame(frame(140, false)).unwrap();
    assert!(plan.actions.is_empty() && !plan.needs_format);
    let plan = display.enqueue_frame(frame(500, true)).unwrap();
    assert_eq!(plan.actions, vec![DisplayAction::Flush, DisplayAction::SetTime(500)]);
    let empty: VideoFrame<u8> = VideoFrame { pixel_buffer: None, pts_us: 0, duration_us: 0, seek_flush: true };
    assert!(display.enqueue_frame(empty).is_none());
}

#[test]
fn display_follows_the_audio() {
    let mut display = None;
    assert!(!sets_playback_rate(&display));
    init_display(&mut display, true);
    assert!(sets_playback_rate(&display));
    assert_eq!(sync_timebase(&display, 10_000, 0), None);
    display.as_mut().unwrap().enqueue_frame(frame(0, false));
    assert_eq!(sync_timebase(&display, 5_000, 0), None);
    assert_eq!(sync_timebase(&display, 5_001, 0), Some(5_001));
    assert_eq!(sync_timebase(&display, -5_001, 0), Some(-5_001));
    assert!(flush_and_seek(&mut display, 70).contains(&DisplayAction::Flush));
    assert!(reset_for_new_file(&mut display).contains(&DisplayAction::Flush));
    assert!(!display.unwrap().has_format);
}
