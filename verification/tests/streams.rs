use play::streams::{format_audio_info, log_stream_info, probe, Medium, RawStream};

fn raw(index: usize, medium: Medium) -> RawStream {
    RawStream {
        index,
        medium,
        attached_picture: false,
        is_default: false,
        codec_name: Some("codec".to_string()),
        video_size: None,
        audio_format: None,
        language: None,
    }
}

fn video(index: usize, width: u32, height: u32) -> RawStream {
    RawStream { video_size: Some((width, height)), ..raw(index, Medium::Video) }
}

#[test]
fn best_video_is_the_default_then_the_largest() {
    let index = |streams: Vec<RawStream>| probe(&streams, 0, vec![]).video_stream.map(|v| v.index);
    assert_eq!(index(vec![video(0, 10, 10), video(1, 20, 20), video(2, 15, 15)]), Some(1));
    assert_eq!(index(vec![video(0, 10, 10), video(1, 10, 10)]), Some(1));
    let default = RawStream { is_default: true, ..video(0, 1, 1) };
    assert_eq!(index(vec![default, video(1, 20, 20)]), Some(0));
    let cover = RawStream { attached_picture: true, ..video(0, 500, 500) };
    assert_eq!(index(vec![cover.clone(), video(1, 20, 20)]), Some(1));
    assert_eq!(index(vec![cover, raw(1, Medium::Audio)]), None);
}

#[test]
fn probe_describes_each_stream() {
    let streams = vec![
        raw(0, Medium::Other),
        RawStream { audio_format: Some((44100, 2)), ..raw(1, Medium::Audio) },
        RawStream { codec_name: None, ..raw(2, Medium::Audio) },
        RawStream { language: Some("en".to_string()), ..raw(3, Medium::Subtitle) },
        raw(5, Medium::Subtitle),
        video(4, 640, 360),
    ];
    let info = probe(&streams, 90_000_000, vec![("title".to_string(), "T".to_string())]);
    assert_eq!(info.duration_us, 90_000_000);
    assert_eq!(info.metadata.len(), 1);
    assert_eq!(format_audio_info(&info.audio_streams[0]), "codec 44100Hz 2ch");
    assert_eq!(format_audio_info(&info.audio_streams[1]), "unknown 0Hz 0ch");
    assert_eq!(
        log_stream_info(&info),
        vec![
            "Video: codec 640x360 [stream 4]",
            "Audio #1: codec 44100Hz 2ch [stream 1]",
            "Audio #2: unknown 0Hz 0ch [stream 2]",
            "Subtitle #1: codec en [stream 3]",
            "Subtitle #2: codec unknown [stream 5]",
            "Duration: 00:01:30",
        ]
    );
    assert_eq!(probe(&vec![], -7, vec![]).duration_us, 0);
}
