use play::cmd::EndReason;
use play::playlist::{
    arrange_subtitles, choose_streams, is_playable, next_index, numbered_name, start_position,
    video_size, StreamChoice,
};
use play::streams::{AudioStreamInfo, StreamInfo, SubtitleStreamInfo, VideoStreamInfo};
use play::subtitle::SubtitleTrack;

fn info() -> StreamInfo {
    let audio = |index| AudioStreamInfo {
        index,
        codec_name: "aac".to_string(),
        sample_rate: 48000,
        channel_layout_desc: "2ch".to_string(),
    };
    StreamInfo {
        video_stream: Some(VideoStreamInfo {
            index: 4,
            width: 320,
            height: 240,
            codec_name: "h264".to_string(),
        }),
        audio_streams: vec![audio(1), audio(7)],
        subtitle_streams: vec![SubtitleStreamInfo {
            index: 9,
            codec_name: "ass".to_string(),
            language: None,
        }],
        duration_us: 0,
        metadata: vec![],
    }
}

#[test]
fn streams_are_chosen() {
    let choice = |audio| StreamChoice { video_idx: Some(4), audio_idx: Some(audio), subtitle_idx: Some(9) };
    assert_eq!(choose_streams(&info(), 2), choice(7));
    assert_eq!(choose_streams(&info(), 0), choice(1));
    assert_eq!(choose_streams(&info(), 3), choice(1));
    let silent = StreamInfo { audio_streams: vec![], video_stream: None, subtitle_streams: vec![], ..info() };
    let none = StreamChoice { video_idx: None, audio_idx: None, subtitle_idx: None };
    assert_eq!(choose_streams(&silent, 1), none);
    assert!(is_playable(&info()) && !is_playable(&silent));
    assert_eq!((video_size(&info()), video_size(&silent)), ((320, 240), (640, 480)));
}

#[test]
fn asked_subtitles_come_first() {
    let track = |label: &str| SubtitleTrack { label: label.to_string(), entries: vec![] };
    let labels = |tracks: Vec<SubtitleTrack>| -> Vec<String> {
        tracks.into_iter().map(|t| t.label).collect()
    };
    let found = || vec![track("a"), track("b")];
    assert_eq!(labels(arrange_subtitles(found(), Some(track("asked")))), vec!["asked", "a", "b"]);
    assert_eq!(labels(arrange_subtitles(found(), None)), vec!["a", "b"]);
}

#[test]
fn start_applies_to_the_first_file() {
    let at = Some("1:30".to_string());
    assert_eq!(start_position(&at, true), 90_000_000);
    assert_eq!(start_position(&at, false), 0);
    assert_eq!(start_position(&Some("soon".to_string()), true), 0);
    assert_eq!(start_position(&None, true), 0);
}

#[test]
fn list_goes_on_and_back() {
    assert_eq!(next_index(2, Some(EndReason::Eof)), Some(3));
    assert_eq!(next_index(2, None), Some(3));
    assert_eq!(next_index(2, Some(EndReason::Quit)), None);
    assert_eq!(next_index(0, Some(EndReason::PrevFile)), Some(0));
    let back = next_index(2, Some(EndReason::PrevFile)).unwrap();
    assert_eq!(next_index(back, Some(EndReason::NextFile)), Some(2));
    assert_eq!(numbered_name("a.mp4", 0, 12), "(1/12) a.mp4");
}
