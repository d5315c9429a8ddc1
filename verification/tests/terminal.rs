use play::cmd::{Command, EndReason, UiUpdate};
use play::streams::{AudioStreamInfo, StreamInfo};
use play::terminal::{
    capitalize, header, print_metadata, read_keys, stays_on_screen, Key, KeyAction, TerminalMode,
    TerminalState, MESSAGE_MS,
};

fn mode(file_index: usize, file_count: usize) -> TerminalMode {
    TerminalMode { file_index, file_count, step_us: 3_000_000, delay_keys: true, keeps_screen: true }
}

fn info() -> StreamInfo {
    let pair = |k: &str, v: &str| (k.to_string(), v.to_string());
    StreamInfo {
        video_stream: None,
        audio_streams: vec![AudioStreamInfo {
            index: 0,
            codec_name: "flac".to_string(),
            sample_rate: 44100,
            channel_layout_desc: "2ch".to_string(),
        }],
        subtitle_streams: vec![],
        duration_us: 61_000_000,
        metadata: vec![
            pair("encoder", "x"),
            pair("ALBUM_ARTIST", "Band"),
            pair("Title", "Song"),
            pair("title", "Other"),
        ],
    }
}

#[test]
fn keys_give_commands() {
    let m = mode(1, 3);
    assert_eq!(m.key_action(Key::Char('q')), KeyAction::End(EndReason::Quit));
    assert_eq!(m.key_action(Key::Char('\n')), KeyAction::End(EndReason::NextFile));
    assert_eq!(m.key_action(Key::Char(',')), KeyAction::End(EndReason::PrevFile));
    assert_eq!(m.key_action(Key::Char(' ')), KeyAction::Send(Command::PlayPause));
    assert_eq!(m.key_action(Key::Left), KeyAction::Seek(-3_000_000));
    assert_eq!(m.key_action(Key::Up), KeyAction::Send(Command::VolumeUp));
    assert_eq!(m.key_action(Key::Char('=')), KeyAction::Send(Command::AudioDelayIncrease));
    assert_eq!(m.key_action(Key::Char('z')), KeyAction::Nothing);
    assert_eq!(m.key_action(Key::Other), KeyAction::Nothing);
    assert_eq!(mode(2, 3).key_action(Key::Char('>')), KeyAction::Nothing);
    assert_eq!(mode(0, 3).key_action(Key::Char('<')), KeyAction::Nothing);
    let plain = TerminalMode { delay_keys: false, ..m };
    assert_eq!(plain.key_action(Key::Char('-')), KeyAction::Nothing);
}

#[test]
fn keys_of_a_batch_seek_together() {
    let keys = vec![Key::Right, Key::Up, Key::Right, Key::Left, Key::Char('a')];
    let batch = read_keys(&mode(0, 1), &keys);
    assert_eq!(
        batch.commands,
        vec![
            Command::VolumeUp,
            Command::CycleAudioTrack,
            Command::SeekRelative { delta_us: 3_000_000, exact: false },
        ]
    );
    assert_eq!(batch.end, None);
    let batch = read_keys(&mode(0, 1), &vec![Key::Right, Key::Left]);
    assert!(batch.commands.is_empty());
}

#[test]
fn batch_stops_at_the_key_that_ends() {
    let keys = vec![Key::Right, Key::Down, Key::Char('.'), Key::Up];
    let batch = read_keys(&mode(0, 2), &keys);
    assert_eq!(batch.commands, vec![Command::VolumeDown, Command::Quit]);
    assert_eq!(batch.end, Some(EndReason::NextFile));
}

#[test]
fn updates_change_what_is_shown() {
    let mut state = TerminalState::new();
    let updates = vec![
        UiUpdate::Osd("one".to_string()),
        UiUpdate::Paused(true),
        UiUpdate::Osd("two".to_string()),
        UiUpdate::SeekFlush(5),
    ];
    assert_eq!(state.update(&updates, 100), None);
    assert!(state.paused);
    assert_eq!(state.message, Some(("two".to_string(), 100 + MESSAGE_MS)));
    assert_eq!(
        state.status_line(1_000_000, 61_000_000),
        "\r\x1b[K\u{23f8} 00:00:01 -> 00:01:01  two"
    );
    state.expire(2099);
    assert!(state.message.is_some());
    state.expire(2100);
    assert!(state.message.is_none());
    let ends = vec![UiUpdate::EndOfFile(EndReason::Eof), UiUpdate::Paused(false)];
    assert_eq!(state.update(&ends, 0), Some(EndReason::Eof));
    assert_eq!(state.status_line(0, 0), "\r\x1b[K\u{25b6} 00:00:00 -> 00:00:00");
}

#[test]
fn screen_is_kept_within_a_list() {
    assert!(stays_on_screen(&mode(0, 1), EndReason::NextFile));
    assert!(stays_on_screen(&mode(0, 2), EndReason::Eof));
    assert!(!stays_on_screen(&mode(1, 2), EndReason::Eof));
    assert!(!stays_on_screen(&mode(0, 2), EndReason::Quit));
    let plain = TerminalMode { keeps_screen: false, ..mode(0, 2) };
    assert!(!stays_on_screen(&plain, EndReason::Eof));
    assert!(stays_on_screen(&plain, EndReason::PrevFile));
}

#[test]
fn header_describes_the_file() {
    assert_eq!(capitalize("album_artist"), "Album artist");
    assert_eq!(capitalize(""), "");
    assert_eq!(capitalize("_x_y"), "_x y");
    assert_eq!(capitalize("\u{e9}tude_1"), "\u{c9}tude 1");
    assert_eq!(capitalize("\u{df}a"), "SSa");
    assert_eq!(print_metadata(&info()), vec!["Title: Song\r\n", "Album artist: Band\r\n"]);
    assert_eq!(
        header(&mode(1, 3), "song.flac", &info()),
        "(2/3) song.flac\r\nTitle: Song\r\nAlbum artist: Band\r\nflac 44100Hz 2ch\r\n00:00:00 -> 00:01:01"
    );
    let bare = StreamInfo { audio_streams: vec![], metadata: vec![], ..info() };
    assert_eq!(header(&mode(0, 1), "x", &bare), "x\r\n00:00:00 -> 00:01:01");
}
