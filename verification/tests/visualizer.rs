use play::decode_audio::AudioBuffer;
use play::visualizer::{
    bar_count_for_width, bit_reverse_permute, render_bars, VizRing, FFT_SIZE, RING_SIZE,
};

/// The mean of all channels.
fn mono(audio: &AudioBuffer<f32>) -> Vec<f32> {
    let inv = 1.0 / audio.planes.len() as f32;
    (0..audio.samples_per_channel)
        .map(|i| audio.planes.iter().map(|p| p[i]).sum::<f32>() * inv)
        .collect()
}

#[test]
fn viz_ring_push_and_read() {
    let mut ring = VizRing::new(0.0f32);
    let buf = AudioBuffer {
        planes: vec![vec![1.0; 100], vec![-1.0; 100]],
        samples_per_channel: 100,
        channels: 2,
        sample_rate: 48000,
        pts_us: 0,
    };
    ring.push_audio(&mono(&buf));

    let mut generation = 0u64;
    let out = ring.read_recent(50, &mut generation);
    assert_eq!(out.len(), 50);
    assert_eq!(generation, 100);
    // Mono mix of 1.0 and -1.0 = 0.0
    for s in &out {
        assert!(s.abs() < 1e-6);
    }
}

#[test]
fn viz_ring_no_new_data_returns_zero() {
    let mut ring = VizRing::new(0.0f32);
    let samples = vec![0.5f32; 100];
    ring.push_audio(&samples);

    let mut generation = 0u64;
    assert_eq!(ring.read_recent(50, &mut generation).len(), 50);

    // Second read with no new data
    assert_eq!(ring.read_recent(50, &mut generation).len(), 0);

    // Push more data, which is read again
    ring.push_audio(&samples);
    assert_eq!(ring.read_recent(50, &mut generation).len(), 50);
}

#[test]
fn viz_ring_wraps_around() {
    let mut ring = VizRing::new(0.0f32);
    ring.push_audio(&vec![0.5f32; RING_SIZE + 100]);

    let mut generation = 0u64;
    let out = ring.read_recent(100, &mut generation);
    assert_eq!(out.len(), 100);
    for s in &out {
        assert!((s - 0.5).abs() < 1e-6);
    }
}

#[test]
fn viz_ring_empty_read() {
    let ring = VizRing::new(0.0f32);
    let mut generation = 0u64;
    assert_eq!(ring.read_recent(10, &mut generation).len(), 0);
}

#[test]
fn viz_ring_reads_the_newest() {
    let mut ring = VizRing::new(0);
    ring.push_audio(&(1..=3).collect());
    ring.push_audio(&vec![]);
    let mut generation = 0u64;
    assert_eq!(ring.read_recent(2, &mut generation), vec![2, 3]);
    ring.push_audio(&(4..=RING_SIZE as i32 + 5).collect());
    let out = ring.read_recent(RING_SIZE + 9, &mut generation);
    assert_eq!(out, (6..=RING_SIZE as i32 + 5).collect::<Vec<i32>>());
}

#[test]
fn permutation_reverses_bits() {
    let mut re: Vec<usize> = (0..8).collect();
    let mut im: Vec<usize> = (10..18).collect();
    bit_reverse_permute(&mut re, &mut im);
    assert_eq!(re, vec![0, 4, 2, 6, 1, 5, 3, 7]);
    assert_eq!(im, vec![10, 14, 12, 16, 11, 15, 13, 17]);
    bit_reverse_permute(&mut re, &mut im);
    assert_eq!(re, (0..8).collect::<Vec<usize>>());
    let mut long: Vec<usize> = (0..FFT_SIZE).collect();
    let mut same = long.clone();
    bit_reverse_permute(&mut long, &mut same);
    assert!(long.iter().enumerate().all(|(i, &v)| v == i.reverse_bits() >> (usize::BITS - 11)));
}

#[test]
fn bar_count_calculation() {
    assert_eq!(bar_count_for_width(80), 27);
    assert_eq!(bar_count_for_width(200), 64); // capped
    assert_eq!(bar_count_for_width(3), 1);
}

#[test]
fn bar_count_at_the_edges() {
    assert_eq!(bar_count_for_width(0), 1);
    assert_eq!(bar_count_for_width(5), 2);
    assert_eq!(bar_count_for_width(u16::MAX), 64);
}

#[test]
fn render_bars_produces_output() {
    // Half of four rows, in eighths of a row
    let bars = vec![16; 8];
    let mut output = String::new();
    render_bars(&mut output, &bars, 4, 5, 10);
    assert!(!output.is_empty());
    // Should contain ANSI escape sequences
    assert!(output.contains("\x1b["));
    // Should contain block characters
    assert!(output.contains('\u{2584}') || output.contains('\u{2588}'));
}

#[test]
fn render_bars_draws_row_by_row() {
    let mut output = String::from("old");
    render_bars(&mut output, &vec![12, 3], 2, 7, 4);
    let expected = "\x1b[7;1H\x1b[2K\x1b[7;4H\x1b[33m\u{2584}\u{2584}   \
\x1b[8;1H\x1b[2K\x1b[8;4H\x1b[32m\u{2588}\u{2588} \u{2583}\u{2583}\x1b[0m";
    assert_eq!(output, expected);
}

#[test]
fn render_bars_reaches_the_last_row() {
    let mut output = String::new();
    render_bars(&mut output, &vec![8], 1, u16::MAX, 1);
    assert_eq!(output, "\x1b[65535;1H\x1b[2K\x1b[65535;1H\x1b[32m\u{2588}\u{2588}\x1b[0m");
    render_bars(&mut output, &vec![8], 0, u16::MAX, 1);
    assert_eq!(output, "\x1b[0m");
}
