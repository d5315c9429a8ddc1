use std::collections::VecDeque;

use crossbeam_channel::TryRecvError;

use play::cmd::{DemuxCommand, DemuxPacket};
use play::demux::{
    coalesce_list, coalesce_seeks, coalesce_step, Action, CachedPacket, DemuxState, Inbox,
    PacketCache, ReadPacket, ReplayStep, SeekPlan, CACHE_MAX_BYTES,
};
use play::time::Rational;

/// A cache whose time units are microseconds.
fn test_cache(max_bytes: usize, video_idx: Option<usize>) -> PacketCache<()> {
    // Use 1/1000000 time base so PTS values == microseconds directly
    let tb = Rational::new(1, 1_000_000);
    let mut time_bases = Vec::new();
    if let Some(i) = video_idx {
        time_bases.push((i, tb));
    }
    // Also add audio stream index 1 if video is 0
    if video_idx == Some(0) {
        time_bases.push((1, tb));
    }
    PacketCache {
        packets: VecDeque::new(),
        total_bytes: 0,
        max_bytes,
        video_idx,
        time_bases,
    }
}

fn test_cached_packet(
    stream_index: usize,
    pts_us: i64,
    is_video_keyframe: bool,
    data_size: usize,
) -> CachedPacket<()> {
    CachedPacket {
        packet: (),
        stream_index,
        pts_us,
        is_video_keyframe,
        data_size,
    }
}

fn push_test_packet(
    cache: &mut PacketCache<()>,
    stream_index: usize,
    pts_us: i64,
    is_video_keyframe: bool,
    data_size: usize,
) {
    let cp = test_cached_packet(stream_index, pts_us, is_video_keyframe, data_size);
    cache.total_bytes += cp.data_size;
    cache.packets.push_back(cp);
    while cache.total_bytes > cache.max_bytes {
        if let Some(evicted) = cache.packets.pop_front() {
            cache.total_bytes -= evicted.data_size;
        } else {
            break;
        }
    }
}

// --- PacketCache::seek_position ---

#[test]
fn seek_position_empty_cache() {
    let cache = test_cache(1024, Some(0));
    assert_eq!(cache.seek_position(1_000_000, false), None);
    assert_eq!(cache.seek_position(1_000_000, true), None);
}

#[test]
fn seek_position_target_before_cache() {
    let mut cache = test_cache(1024, Some(0));
    push_test_packet(&mut cache, 0, 5_000_000, true, 100);
    push_test_packet(&mut cache, 0, 10_000_000, false, 100);
    assert_eq!(cache.seek_position(1_000_000, false), None);
    assert_eq!(cache.seek_position(1_000_000, true), None);
}

#[test]
fn seek_position_target_after_cache() {
    let mut cache = test_cache(1024, Some(0));
    push_test_packet(&mut cache, 0, 5_000_000, true, 100);
    push_test_packet(&mut cache, 0, 10_000_000, false, 100);
    assert_eq!(cache.seek_position(20_000_000, false), None);
    assert_eq!(cache.seek_position(20_000_000, true), None);
}

#[test]
fn seek_position_backward_finds_keyframe_before() {
    let mut cache = test_cache(4096, Some(0));
    push_test_packet(&mut cache, 0, 0, true, 100);
    push_test_packet(&mut cache, 0, 1_000_000, false, 100);
    push_test_packet(&mut cache, 0, 2_000_000, true, 100);
    push_test_packet(&mut cache, 0, 3_000_000, false, 100);
    push_test_packet(&mut cache, 0, 4_000_000, true, 100);

    // Backward seek to 2.5s → keyframe at 2s (index 2)
    assert_eq!(cache.seek_position(2_500_000, false), Some(2));
    // Backward seek to exactly 4s → keyframe at 4s (index 4)
    assert_eq!(cache.seek_position(4_000_000, false), Some(4));
    // Backward seek to 0 → keyframe at 0 (index 0)
    assert_eq!(cache.seek_position(0, false), Some(0));
}

#[test]
fn seek_position_forward_finds_keyframe_after() {
    let mut cache = test_cache(4096, Some(0));
    push_test_packet(&mut cache, 0, 0, true, 100);
    push_test_packet(&mut cache, 0, 1_000_000, false, 100);
    push_test_packet(&mut cache, 0, 2_000_000, true, 100);
    push_test_packet(&mut cache, 0, 3_000_000, false, 100);
    push_test_packet(&mut cache, 0, 4_000_000, true, 100);

    // Forward seek to 0.5s → first keyframe >= 0.5s is at 2s (index 2)
    assert_eq!(cache.seek_position(500_000, true), Some(2));
    // Forward seek to exactly 2s → keyframe at 2s (index 2)
    assert_eq!(cache.seek_position(2_000_000, true), Some(2));
    // Forward seek to 3.5s → keyframe at 4s (index 4)
    assert_eq!(cache.seek_position(3_500_000, true), Some(4));
    // Forward seek to exactly 4s → keyframe at 4s (index 4)
    assert_eq!(cache.seek_position(4_000_000, true), Some(4));
}

#[test]
fn seek_position_forward_miss_no_keyframe_after() {
    let mut cache = test_cache(4096, Some(0));
    push_test_packet(&mut cache, 0, 0, true, 100);
    push_test_packet(&mut cache, 0, 1_000_000, false, 100);
    push_test_packet(&mut cache, 0, 2_000_000, false, 100);

    // Forward seek to 0.5s — no keyframe >= 0.5s → cache miss
    assert_eq!(cache.seek_position(500_000, true), None);
}

#[test]
fn seek_position_backward_miss_no_keyframe_before() {
    let mut cache = test_cache(4096, Some(0));
    push_test_packet(&mut cache, 0, 0, false, 100); // not a keyframe
    push_test_packet(&mut cache, 0, 1_000_000, false, 100);
    push_test_packet(&mut cache, 0, 2_000_000, true, 100);

    // Backward seek to 1.5s — no keyframe <= 1.5s → cache miss
    assert_eq!(cache.seek_position(1_500_000, false), None);
}

#[test]
fn seek_position_audio_only_backward() {
    let mut cache = test_cache(4096, None);
    cache
        .time_bases
        .push((1, Rational::new(1, 1_000_000)));
    push_test_packet(&mut cache, 1, 0, false, 100);
    push_test_packet(&mut cache, 1, 1_000_000, false, 100);
    push_test_packet(&mut cache, 1, 2_000_000, false, 100);

    // Backward: packet at or before 1.5s → index 1
    assert_eq!(cache.seek_position(1_500_000, false), Some(1));
}

#[test]
fn seek_position_audio_only_forward() {
    let mut cache = test_cache(4096, None);
    cache
        .time_bases
        .push((1, Rational::new(1, 1_000_000)));
    push_test_packet(&mut cache, 1, 0, false, 100);
    push_test_packet(&mut cache, 1, 1_000_000, false, 100);
    push_test_packet(&mut cache, 1, 2_000_000, false, 100);

    // Forward: packet at or after 0.5s → index 1
    assert_eq!(cache.seek_position(500_000, true), Some(1));
}

// --- PacketCache push + eviction ---

#[test]
fn push_evicts_when_over_budget() {
    let mut cache = test_cache(250, Some(0));
    push_test_packet(&mut cache, 0, 0, true, 100);
    push_test_packet(&mut cache, 0, 1_000_000, false, 100);
    assert_eq!(cache.packets.len(), 2);
    assert_eq!(cache.total_bytes, 200);

    // This push exceeds 250 bytes, should evict the oldest
    push_test_packet(&mut cache, 0, 2_000_000, true, 100);
    assert_eq!(cache.packets.len(), 2);
    assert_eq!(cache.total_bytes, 200);
    assert_eq!(cache.packets.front().unwrap().pts_us, 1_000_000);
}

#[test]
fn push_tracks_total_bytes() {
    let mut cache = test_cache(10000, Some(0));
    push_test_packet(&mut cache, 0, 0, true, 500);
    push_test_packet(&mut cache, 0, 1_000_000, false, 300);
    push_test_packet(&mut cache, 0, 2_000_000, true, 200);
    assert_eq!(cache.total_bytes, 1000);
    assert_eq!(cache.packets.len(), 3);
}

// --- PacketCache::clear ---

#[test]
fn clear_resets_state() {
    let mut cache = test_cache(10000, Some(0));
    push_test_packet(&mut cache, 0, 0, true, 500);
    push_test_packet(&mut cache, 0, 1_000_000, false, 300);
    cache.clear();
    assert_eq!(cache.packets.len(), 0);
    assert_eq!(cache.total_bytes, 0);
}

// --- coalesce_seeks ---

#[test]
fn coalesce_single_seek() {
    let (_, rx) = crossbeam_channel::unbounded::<DemuxCommand>();
    let result = coalesce_seeks(&rx, 5_000_000, true);
    assert_eq!(result, Some((5_000_000, true, 1)));
}

#[test]
fn coalesce_multiple_seeks_keeps_last() {
    let (tx, rx) = crossbeam_channel::unbounded::<DemuxCommand>();
    tx.send(DemuxCommand::Seek {
        target_pts: 10_000_000,
        forward: true,
    })
    .unwrap();
    tx.send(DemuxCommand::Seek {
        target_pts: 15_000_000,
        forward: false,
    })
    .unwrap();
    tx.send(DemuxCommand::Seek {
        target_pts: 20_000_000,
        forward: true,
    })
    .unwrap();

    let result = coalesce_seeks(&rx, 5_000_000, true);
    assert_eq!(result, Some((20_000_000, true, 4)));
}

#[test]
fn coalesce_returns_none_on_stop() {
    let (tx, rx) = crossbeam_channel::unbounded::<DemuxCommand>();
    tx.send(DemuxCommand::Seek {
        target_pts: 10_000_000,
        forward: true,
    })
    .unwrap();
    tx.send(DemuxCommand::Stop).unwrap();
    tx.send(DemuxCommand::Seek {
        target_pts: 99_000_000,
        forward: true,
    })
    .unwrap();

    let result = coalesce_seeks(&rx, 5_000_000, true);
    assert_eq!(result, None);
}

#[test]
fn coalesce_empty_channel() {
    let (tx, rx) = crossbeam_channel::unbounded::<DemuxCommand>();
    drop(tx);
    // Disconnected channel — no messages to drain
    let result = coalesce_seeks(&rx, 1_000_000, false);
    assert_eq!(result, Some((1_000_000, false, 1)));
}

fn read(pts: Option<i64>, dts: Option<i64>, is_key: bool, size: usize) -> ReadPacket<u32> {
    ReadPacket { packet: 7, pts, dts, is_key, size }
}

#[test]
fn seek_position_scans_packets_out_of_order() {
    let mut cache = test_cache(4096, Some(0));
    push_test_packet(&mut cache, 0, 0, true, 100);
    push_test_packet(&mut cache, 0, 3_000_000, false, 100);
    push_test_packet(&mut cache, 0, 1_000_000, true, 100);
    push_test_packet(&mut cache, 0, 2_000_000, false, 100);
    push_test_packet(&mut cache, 0, 4_000_000, true, 100);
    assert_eq!(cache.seek_position(3_500_000, false), Some(2));
    assert_eq!(cache.seek_position(500_000, true), Some(2));
}

#[test]
fn cache_notes_streams_and_stamps() {
    let streams = vec![Rational::new(1, 1000), Rational::new(1, 48_000)];
    let mut cache: PacketCache<u32> = PacketCache::new(1000, Some(0), Some(1), Some(9), &streams);
    assert_eq!(cache.time_base_for(1), Some(Rational::new(1, 48_000)));
    assert_eq!(cache.time_base_for(9), None);
    cache.push(read(Some(2), Some(1), true, 600), 0);
    cache.push(read(None, Some(48_000), true, 300), 1);
    cache.push(read(None, None, false, 50), 0);
    cache.push(read(Some(5), None, true, 50), 9);
    assert_eq!(cache.len(), 3);
    assert_eq!(cache.total_bytes, 950);
    let stamps: Vec<i64> = cache.packets.iter().map(|p| p.pts_us).collect();
    assert_eq!(stamps, vec![2000, 1_000_000, 0]);
    let keys: Vec<bool> = cache.packets.iter().map(|p| p.is_video_keyframe).collect();
    assert_eq!(keys, vec![true, false, false]);
    cache.push(read(Some(9), None, true, 2000), 0);
    assert_eq!(cache.len(), 0);
    assert_eq!(cache.total_bytes, 0);
}

#[test]
fn coalesced_list_agrees_with_the_channel() {
    let seek = |target_pts, forward| DemuxCommand::Seek { target_pts, forward };
    let lists = vec![
        vec![],
        vec![seek(1, true), DemuxCommand::ChangeAudio(3), seek(2, false)],
        vec![seek(1, true), DemuxCommand::Stop, seek(2, false)],
    ];
    for list in lists {
        let (tx, rx) = crossbeam_channel::unbounded::<DemuxCommand>();
        for cmd in &list {
            tx.send(*cmd).unwrap();
        }
        assert_eq!(coalesce_seeks(&rx, 9, true), coalesce_list(&list, 9, true));
    }
}

#[test]
fn step_keeps_the_last_seek() {
    let seek = DemuxCommand::Seek { target_pts: 7, forward: false };
    assert_eq!(coalesce_step((1, true, 2), seek), Some((7, false, 3)));
    assert_eq!(coalesce_step((1, true, 2), DemuxCommand::ChangeAudio(4)), Some((1, true, 2)));
    assert_eq!(coalesce_step((1, true, 2), DemuxCommand::Stop), None);
}

#[test]
fn inbox_closes_behind_a_stop() {
    let mut inbox = Inbox::new();
    inbox.take(Ok(DemuxCommand::ChangeAudio(1)));
    assert!(inbox.open && !inbox.disconnected);
    inbox.take(Ok(DemuxCommand::Stop));
    assert!(!inbox.open && !inbox.disconnected);
    assert_eq!(inbox.cmds, vec![DemuxCommand::ChangeAudio(1), DemuxCommand::Stop]);
    let mut gone = Inbox::new();
    gone.take(Err(TryRecvError::Disconnected));
    assert!(!gone.open && gone.disconnected);
    let mut empty = Inbox::new();
    empty.take(Err(TryRecvError::Empty));
    assert!(!empty.open && !empty.disconnected);
    let (tx, rx) = crossbeam_channel::unbounded::<DemuxCommand>();
    for cmd in [DemuxCommand::ChangeAudio(1), DemuxCommand::Stop, DemuxCommand::ChangeAudio(2)] {
        tx.send(cmd).unwrap();
    }
    assert_eq!(Inbox::collect(&rx).cmds.len(), 2);
    assert_eq!(rx.len(), 1);
}

fn state() -> DemuxState<u32> {
    let base = Rational::new(1, 1_000_000);
    let mut state = DemuxState::new(Some(0), Some(1), None, vec![base, base, base]);
    for (stream, pts, is_key) in [(0, 0, true), (1, 500_000, true), (0, 1_000_000, true), (2, 5, true)] {
        let sent = state.read_step(read(Some(pts), None, is_key, 10), pts, stream);
        assert_eq!(sent.is_some(), stream < 2);
    }
    state
}

#[test]
fn seek_is_served_from_the_cache_or_the_file() {
    let mut s = state();
    let plan = s.try_cached_seek(600_000, false, 3);
    assert_eq!(
        plan,
        SeekPlan { file_seek: false, target_us: 600_000, forward: false, flushes: 3 }
    );
    assert_eq!(s.replay_cursor, Some(0));
    let plan = s.try_cached_seek(7_000_000, true, 1);
    assert!(plan.file_seek);
    assert_eq!(s.replay_cursor, None);
    assert_eq!(s.cache.len(), 0);
}

#[test]
fn replay_sends_what_is_wanted() {
    let mut s = state();
    assert!(matches!(s.replay_step(), ReplayStep::Read));
    s.replay_cursor = Some(1);
    assert!(matches!(s.replay_step(), ReplayStep::Send(DemuxPacket::Audio(1))));
    s.after_send(1);
    assert!(matches!(s.replay_step(), ReplayStep::Send(DemuxPacket::Video(2))));
    s.replay_cursor = None;
    s.after_send(2);
    assert_eq!(s.replay_cursor, None);
    s.replay_cursor = Some(3);
    assert!(matches!(s.replay_step(), ReplayStep::Again));
    assert_eq!(s.replay_cursor, None);
    s.audio_idx = Some(5);
    s.replay_cursor = Some(1);
    assert!(matches!(s.replay_step(), ReplayStep::Again));
    assert_eq!(s.replay_cursor, Some(2));
}

#[test]
fn commands_are_drained_in_order() {
    let seek = |target_pts| DemuxCommand::Seek { target_pts, forward: true };
    let mut s = state();
    assert_eq!(s.drain_list(&vec![], false), Action::Continue);
    assert_eq!(s.drain_list(&vec![], true), Action::Stop);
    let action = s.drain_list(&vec![seek(1), seek(600_000)], false);
    let plan = SeekPlan { file_seek: false, target_us: 600_000, forward: true, flushes: 2 };
    assert_eq!(action, Action::Seek(plan));
    assert_eq!(s.replay_cursor, Some(2));
    let (tx, rx) = crossbeam_channel::unbounded::<DemuxCommand>();
    tx.send(DemuxCommand::ChangeAudio(2)).unwrap();
    tx.send(seek(600_000)).unwrap();
    let plan = SeekPlan { file_seek: true, target_us: 600_000, forward: true, flushes: 1 };
    assert_eq!(s.drain_commands(&rx), Action::Seek(plan));
    assert!(s.wants(2) && !s.wants(1));
    assert_eq!(s.cache.max_bytes, CACHE_MAX_BYTES);
    tx.send(DemuxCommand::Stop).unwrap();
    assert_eq!(s.drain_commands(&rx), Action::Stop);
    drop(tx);
    assert_eq!(s.drain_commands(&rx), Action::Stop);
}

#[test]
fn command_takes_further_seeks_along() {
    let mut s = state();
    let (tx, rx) = crossbeam_channel::unbounded::<DemuxCommand>();
    tx.send(DemuxCommand::Seek { target_pts: 0, forward: false }).unwrap();
    let first = DemuxCommand::Seek { target_pts: 9_000_000, forward: true };
    let plan = SeekPlan { file_seek: false, target_us: 0, forward: false, flushes: 2 };
    assert_eq!(s.handle_command(first, &rx), Action::Seek(plan));
    assert_eq!(s.handle_command(DemuxCommand::ChangeAudio(2), &rx), Action::Continue);
    assert_eq!(s.audio_idx, Some(2));
    assert_eq!(s.handle_command(DemuxCommand::Stop, &rx), Action::Stop);
    assert_eq!(s.apply_seek(None), Action::Stop);
}
