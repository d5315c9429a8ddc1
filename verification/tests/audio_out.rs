use play::audio_out::{AudioOutput, ScheduleStep, Scheduled, SpscRing, RING_CAPACITY};
use play::decode_audio::AudioBuffer;

fn buffer(samples: Vec<f32>, channels: u16, pts_us: i64) -> AudioBuffer<f32> {
    let count = samples.len();
    AudioBuffer {
        planes: vec![samples; channels as usize],
        samples_per_channel: count,
        channels,
        sample_rate: 48000,
        pts_us,
    }
}

#[test]
fn ring_gives_back_what_it_was_given() {
    let mut ring = SpscRing::new(0);
    assert_eq!((ring.available_read(), ring.available_write()), (0, RING_CAPACITY));
    let first: Vec<i32> = (0..10).collect();
    assert_eq!(ring.push_slice(&first, 4), 6);
    assert_eq!(ring.push_slice(&vec![7, 8], 0), 2);
    assert_eq!(ring.pop(3), vec![4, 5, 6]);
    ring.skip(2);
    assert_eq!(ring.pop(9), vec![9, 7, 8]);
    assert_eq!(ring.pop(1), Vec::<i32>::new());
}

#[test]
fn ring_wraps_and_fills() {
    let mut ring = SpscRing::new(0u32);
    let all: Vec<u32> = (0..RING_CAPACITY as u32).collect();
    assert_eq!(ring.push_slice(&all, 0), RING_CAPACITY);
    assert_eq!(ring.push_slice(&all, 0), 0);
    assert_eq!(ring.pop(100).len(), 100);
    assert_eq!(ring.push_slice(&all, 5), 100);
    ring.skip(RING_CAPACITY - 100);
    assert_eq!(ring.pop(200), (5..105).collect::<Vec<u32>>());
    assert_eq!(ring.push_slice(&all, 0), RING_CAPACITY);
    ring.clear();
    assert_eq!((ring.available_read(), ring.available_write()), (0, RING_CAPACITY));
}

#[test]
fn output_renders_in_order_and_pads_with_silence() {
    let mut out = AudioOutput::new(48000, 2, 0.0f32);
    assert_eq!(out.try_schedule_buffer(&buffer(vec![1.0, 2.0, 3.0], 2, 500)), Scheduled::Taken { start: true });
    assert_eq!(out.try_schedule_buffer(&buffer(vec![4.0], 2, 900)), Scheduled::Taken { start: false });
    let first = out.render(2);
    assert_eq!(first.planes, vec![vec![1.0, 2.0]; 2]);
    assert_eq!(first.clock_us, Some(500 + (2.0f64 * (1_000_000.0 / 48000.0)) as i64));
    let second = out.render(4);
    assert_eq!(second.planes, vec![vec![3.0, 4.0, 0.0, 0.0]; 2]);
    assert_eq!(second.clock_us, Some(500 + 41 + 41));
    let third = out.render(1);
    assert_eq!(third.planes, vec![vec![0.0]; 2]);
    assert_eq!(third.clock_us, None);
}

#[test]
fn clock_advances_as_doubles_do() {
    for rate in [8000u32, 11025, 22050, 44100, 48000, 96000, 192000] {
        let step = 1_000_000.0 / rate as f64;
        for count in [1usize, 2, 3, 100, 441, 512, 1000, 4096] {
            let mut out = AudioOutput::new(rate, 1, 0i32);
            let buf = AudioBuffer {
                planes: vec![vec![1; 5000]],
                samples_per_channel: 5000,
                channels: 1,
                sample_rate: rate,
                pts_us: 7,
            };
            out.try_schedule_buffer(&buf);
            let expected = 7 + (count as f64 * step) as i64;
            assert_eq!(out.render(count).clock_us, Some(expected), "{rate} {count}");
        }
    }
}

#[test]
fn output_refuses_what_does_not_fit() {
    let mut out = AudioOutput::new(48000, 1, 0.0f32);
    let big = buffer(vec![0.5; RING_CAPACITY], 1, 0);
    assert_eq!(out.try_schedule_buffer(&big), Scheduled::Taken { start: true });
    assert_eq!(out.try_schedule_buffer(&buffer(vec![0.5], 1, 0)), Scheduled::Refused);
    assert_eq!(out.try_schedule_buffer(&buffer(vec![], 1, 0)), Scheduled::Taken { start: false });
    out.render(1);
    assert_eq!(out.try_schedule_buffer(&buffer(vec![0.5], 1, 0)), Scheduled::Taken { start: false });
}

#[test]
fn skip_and_flush_happen_at_the_next_rendering() {
    let mut out = AudioOutput::new(1000, 1, 0);
    let buf = AudioBuffer {
        planes: vec![(1..=100).collect()],
        samples_per_channel: 100,
        channels: 1,
        sample_rate: 1000,
        pts_us: 0,
    };
    out.try_schedule_buffer(&buf);
    out.request_skip(30);
    assert_eq!(out.buffered_samples(), 70);
    let r = out.render(2);
    assert_eq!(r.planes, vec![vec![31, 32]]);
    assert_eq!(r.clock_us, Some(32_000));
    out.set_clock_position(1_000_000);
    assert_eq!(out.render(1).clock_us, Some(1_001_000));
    out.flush_quick();
    let r = out.render(1);
    assert_eq!(r.planes, vec![vec![0]]);
    assert_eq!(r.clock_us, None);
    assert_eq!(out.buffered_samples(), 0);
}

#[test]
fn unit_starts_and_stops_with_playback() {
    let mut out = AudioOutput::new(48000, 1, 0.0f32);
    assert!(!out.pause());
    assert_eq!(out.try_schedule_buffer(&buffer(vec![0.5; 8], 1, 0)), Scheduled::Taken { start: false });
    assert!(out.play());
    assert!(out.pause());
    assert!(out.play());
    assert!(out.stop());
    assert!(!out.stop());
    assert_eq!(out.try_schedule_buffer(&buffer(vec![0.5; 8], 1, 0)), Scheduled::Taken { start: true });
    assert!(out.flush());
    assert_eq!(out.buffered_samples(), 0);
}

#[test]
fn schedule_steps_wait_for_room() {
    let mut out = AudioOutput::new(48000, 2, 0);
    let long: Vec<i32> = (0..RING_CAPACITY as i32 + 2).collect();
    let buf = AudioBuffer {
        planes: vec![long.clone(), vec![7]],
        samples_per_channel: long.len(),
        channels: 2,
        sample_rate: 48000,
        pts_us: 40,
    };
    assert!(out.begin_schedule(&buf));
    let full = ScheduleStep::Wait { channel: 0, offset: RING_CAPACITY };
    assert_eq!(out.schedule_step(&buf, 0, 0), full);
    assert_eq!(out.schedule_step(&buf, 0, RING_CAPACITY), full);
    assert_eq!(out.render(1).planes[0], vec![0]);
    let wait = ScheduleStep::Wait { channel: 0, offset: RING_CAPACITY + 1 };
    assert_eq!(out.schedule_step(&buf, 0, RING_CAPACITY), wait);
    assert_eq!(out.render(1).planes[0], vec![1]);
    let on = ScheduleStep::On { channel: 1, offset: 0 };
    assert_eq!(out.schedule_step(&buf, 0, RING_CAPACITY + 1), on);
    let last = ScheduleStep::On { channel: 2, offset: 0 };
    assert_eq!(out.schedule_step(&buf, 1, 0), last);
    assert_eq!(out.schedule_step(&buf, 2, 0), ScheduleStep::Done { start: true });
    assert_eq!(out.schedule_step(&buf, 2, 0), ScheduleStep::Done { start: false });
    let rest = out.render(RING_CAPACITY);
    assert_eq!(rest.planes[0], long[2..]);
    assert_eq!(rest.planes[1][..2], [7, 0]);
}

#[test]
fn blocking_schedule_goes_part_by_part() {
    let mut out = AudioOutput::new(48000, 2, 0);
    let buf = AudioBuffer {
        planes: vec![vec![1, 2, 3], vec![4, 5, 6]],
        samples_per_channel: 3,
        channels: 2,
        sample_rate: 48000,
        pts_us: 40,
    };
    assert!(out.begin_schedule(&buf));
    assert_eq!(out.schedule_part(&buf, 0, 0), 3);
    assert_eq!(out.schedule_part(&buf, 1, 1), 2);
    assert!(out.end_schedule());
    assert!(!out.end_schedule());
    let r = out.render(3);
    assert_eq!(r.planes, vec![vec![1, 2, 3], vec![5, 6, 0]]);
}
