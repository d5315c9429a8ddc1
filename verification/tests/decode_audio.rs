use play::decode_audio::{AudioBuffer, AudioDecoder, DecodedFrame, ACCUM_TARGET};
use play::time::Rational;

// --- AudioBuffer::end_us ---

#[test]
fn end_us_one_second_at_48k() {
    let buf = AudioBuffer {
        planes: vec![vec![0.0; 48000]],
        samples_per_channel: 48000,
        channels: 1,
        sample_rate: 48000,
        pts_us: 0,
    };
    assert_eq!(buf.end_us(), 1_000_000);
}

#[test]
fn end_us_with_pts_offset() {
    let buf = AudioBuffer {
        planes: vec![vec![0.0; 24000]],
        samples_per_channel: 24000,
        channels: 1,
        sample_rate: 48000,
        pts_us: 500_000,
    };
    // 500ms offset + 500ms of samples = 1s
    assert_eq!(buf.end_us(), 1_000_000);
}

#[test]
fn end_us_at_44100() {
    let buf = AudioBuffer {
        planes: vec![vec![0.0; 44100]],
        samples_per_channel: 44100,
        channels: 1,
        sample_rate: 44100,
        pts_us: 0,
    };
    assert_eq!(buf.end_us(), 1_000_000);
}

#[test]
fn end_us_stereo_same_as_mono() {
    let mono = AudioBuffer {
        planes: vec![vec![0.0; 48000]],
        samples_per_channel: 48000,
        channels: 1,
        sample_rate: 48000,
        pts_us: 0,
    };
    let stereo = AudioBuffer {
        planes: vec![vec![0.0; 48000], vec![0.0; 48000]],
        samples_per_channel: 48000,
        channels: 2,
        sample_rate: 48000,
        pts_us: 0,
    };
    // Duration is per-channel, so channel count doesn't affect end_us
    assert_eq!(mono.end_us(), stereo.end_us());
}

#[test]
fn end_us_single_sample() {
    let buf = AudioBuffer {
        planes: vec![vec![0.0; 1]],
        samples_per_channel: 1,
        channels: 1,
        sample_rate: 48000,
        pts_us: 0,
    };
    // 1 sample at 48kHz = 1_000_000 / 48000 = 20us (integer division)
    assert_eq!(buf.end_us(), 20);
}

#[test]
fn end_us_zero_samples() {
    let buf: AudioBuffer<f32> = AudioBuffer {
        planes: vec![],
        samples_per_channel: 0,
        channels: 1,
        sample_rate: 48000,
        pts_us: 1_000_000,
    };
    // No samples → end equals start
    assert_eq!(buf.end_us(), 1_000_000);
}

#[test]
fn end_us_large_buffer() {
    let buf = AudioBuffer {
        planes: vec![vec![0.0; 480000]],
        samples_per_channel: 480000,
        channels: 1,
        sample_rate: 48000,
        pts_us: 0,
    };
    // 10 seconds of audio
    assert_eq!(buf.end_us(), 10_000_000);
}

// --- ACCUM_TARGET constant ---

#[test]
fn accum_target_is_reasonable() {
    // 8192 samples at 48kHz ≈ 170ms — within acceptable scheduling latency
    let duration_ms = ACCUM_TARGET as f64 / 48000.0 * 1000.0;
    assert!(duration_ms > 100.0 && duration_ms < 250.0);
}

fn frame(pts: Option<i64>, channels: usize, count: usize, value: f32) -> DecodedFrame<f32> {
    DecodedFrame { pts, channels, samples: count, planes: Some(vec![vec![value; count]; channels]) }
}

#[test]
fn end_is_known_where_it_fits() {
    let mut buf: AudioBuffer<f32> = AudioBuffer {
        planes: vec![],
        samples_per_channel: 48000,
        channels: 1,
        sample_rate: 48000,
        pts_us: 0,
    };
    assert!(buf.end_is_known());
    buf.sample_rate = 0;
    assert!(!buf.end_is_known());
    buf.sample_rate = 48000;
    buf.pts_us = i64::MAX;
    assert!(!buf.end_is_known());
    buf.pts_us = 0;
    buf.samples_per_channel = usize::MAX;
    assert!(!buf.end_is_known());
}

#[test]
fn small_frames_accumulate() {
    let mut decoder: AudioDecoder<f32> = AudioDecoder::new(Rational::new(1, 48000), 48000, 2);
    assert!(decoder.receive_buffer(frame(Some(4800), 2, 8000, 0.25)).is_none());
    assert!(decoder.receive_buffer(frame(None, 2, 0, 0.5)).is_none());
    let buf = decoder.receive_buffer(frame(Some(12800), 2, 192, 0.5)).unwrap();
    assert_eq!(buf.samples_per_channel, ACCUM_TARGET);
    assert_eq!((buf.channels, buf.sample_rate, buf.pts_us), (2, 48000, 100_000));
    assert_eq!(buf.planes.len(), 2);
    assert_eq!(buf.planes[1].len(), ACCUM_TARGET);
    assert_eq!((buf.planes[1][7999], buf.planes[1][8000]), (0.25, 0.5));
    assert!(decoder.drain_accum().is_none());
}

#[test]
fn remainder_is_drained_or_flushed() {
    let mut decoder: AudioDecoder<f32> = AudioDecoder::new(Rational::new(1, 1000), 44100, 1);
    assert!(decoder.receive_buffer(frame(Some(5), 1, 10, 1.0)).is_none());
    let buf = decoder.drain_accum().unwrap();
    assert_eq!((buf.samples_per_channel, buf.pts_us), (10, 5000));
    assert!(decoder.receive_buffer(frame(Some(9), 1, 10, 1.0)).is_none());
    decoder.flush();
    assert!(decoder.drain_accum().is_none());
    let lost = DecodedFrame { pts: None, channels: 1, samples: 10, planes: None };
    assert!(decoder.receive_buffer(lost).is_none());
    assert_eq!(decoder.accum_count, 0);
}
