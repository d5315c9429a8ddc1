//! The demuxer: which streams a file has, the cache of packets read, and how seeks are served.
//!
//! Recently read packets are kept up to a number of bytes. A seek is served from the cache where
//! its target lies there. Seeks that arrive together are coalesced: only the last one counts, and
//! one flush is sent for each, so that the player can count down its pending seeks.

use std::collections::VecDeque;

use crossbeam_channel::{Receiver, TryRecvError};
use vstd::prelude::*;

use crate::cmd::{DemuxCommand, DemuxPacket};
use crate::time::{pts_to_us, stamp_us, Rational};

verus! {

/// How many bytes of packets are kept.
pub const CACHE_MAX_BYTES: usize = 157286400;

/// The receiving side of a channel of `crossbeam_channel`.
#[verifier::external_type_specification]
#[verifier::external_body]
#[verifier::reject_recursive_types(T)]
pub struct ExReceiver<T>(crossbeam_channel::Receiver<T>);

/// Why nothing was received from a channel of `crossbeam_channel`.
#[verifier::external_type_specification]
pub struct ExTryRecvError(crossbeam_channel::TryRecvError);

/// `crossbeam_channel::Receiver::try_recv`: a message of the channel, or that there is none now, or
/// none ever. Which of them depends on what other threads have sent, so nothing is claimed.
pub assume_specification<T>[ crossbeam_channel::Receiver::<T>::try_recv ](
    rx: &Receiver<T>,
) -> (r: Result<T, TryRecvError>);

/// A packet in the cache.
#[derive(Debug)]
pub struct CachedPacket<P> {
    pub packet: P,
    pub stream_index: usize,
    pub pts_us: i64,
    pub is_video_keyframe: bool,
    pub data_size: usize,
}

/// A packet as it is read: its times in units of its stream, whether it is a keyframe, and how many
/// bytes it has.
#[derive(Debug)]
pub struct ReadPacket<P> {
    pub packet: P,
    pub pts: Option<i64>,
    pub dts: Option<i64>,
    pub is_key: bool,
    pub size: usize,
}

impl<P> ReadPacket<P> {
    /// The time stamp: of presentation, else of decoding, else zero.
    pub open spec fn stamp(self) -> int {
        match self.pts {
            Some(t) => t as int,
            None => match self.dts {
                Some(t) => t as int,
                None => 0,
            },
        }
    }
}

/// The bytes of packets.
pub open spec fn bytes_of<P>(s: Seq<CachedPacket<P>>) -> int
    decreases s.len(),
{
    if s.len() == 0 {
        0
    } else {
        s[0].data_size + bytes_of(s.drop_first())
    }
}

/// Packets without the oldest ones, as few of them as leave no more than `limit` bytes.
pub open spec fn within_budget<P>(s: Seq<CachedPacket<P>>, limit: int) -> Seq<CachedPacket<P>>
    decreases s.len(),
{
    if s.len() == 0 || bytes_of(s) <= limit {
        s
    } else {
        within_budget(s.drop_first(), limit)
    }
}

/// The first unit of time noted for a stream, from `i` on.
pub open spec fn time_base_from(v: Seq<(usize, Rational)>, stream: usize, i: int) -> Option<
    Rational,
>
    decreases v.len() - i,
{
    if !(0 <= i < v.len()) {
        None
    } else if v[i].0 == stream {
        Some(v[i].1)
    } else {
        time_base_from(v, stream, i + 1)
    }
}

/// Whether a packet starts at the target or on the wanted side of it.
pub open spec fn on_side(pts_us: int, target_us: int, forward: bool) -> bool {
    if forward {
        pts_us >= target_us
    } else {
        pts_us <= target_us
    }
}

/// Whether replay may start at a packet: it lies on the wanted side of the target, and is a
/// keyframe where only those count.
pub open spec fn is_start<P>(
    p: CachedPacket<P>,
    keyframes: bool,
    target_us: int,
    forward: bool,
) -> bool {
    (!keyframes || p.is_video_keyframe) && on_side(p.pts_us as int, target_us, forward)
}

/// The first packet from `i` on at or after the target where replay may start.
pub open spec fn first_start<P>(
    s: Seq<CachedPacket<P>>,
    keyframes: bool,
    target_us: int,
    i: int,
) -> Option<int>
    decreases s.len() - i,
{
    if !(0 <= i < s.len()) {
        None
    } else if is_start(s[i], keyframes, target_us, true) {
        Some(i)
    } else {
        first_start(s, keyframes, target_us, i + 1)
    }
}

/// The last packet below `i` at or before the target where replay may start.
pub open spec fn last_start<P>(
    s: Seq<CachedPacket<P>>,
    keyframes: bool,
    target_us: int,
    i: int,
) -> Option<int>
    decreases i,
{
    if !(0 < i <= s.len()) {
        None
    } else if is_start(s[i - 1], keyframes, target_us, false) {
        Some(i - 1)
    } else {
        last_start(s, keyframes, target_us, i - 1)
    }
}

/// The packet where replay starts on the wanted side of the target.
pub open spec fn start_on_side<P>(
    s: Seq<CachedPacket<P>>,
    keyframes: bool,
    target_us: int,
    forward: bool,
) -> Option<int> {
    if forward {
        first_start(s, keyframes, target_us, 0)
    } else {
        last_start(s, keyframes, target_us, s.len() as int)
    }
}

/// Whether the target lies between the first and the last packet.
pub open spec fn covers<P>(s: Seq<CachedPacket<P>>, target_us: int) -> bool {
    s.len() > 0 && s[0].pts_us <= target_us <= s.last().pts_us
}

/// Where replay starts for a seek, none where the target lies outside: at a video keyframe, and
/// without video at any packet.
pub open spec fn seek_hit<P>(
    s: Seq<CachedPacket<P>>,
    has_video: bool,
    target_us: int,
    forward: bool,
) -> Option<int> {
    let keyframe = start_on_side(s, true, target_us, forward);
    if !covers(s, target_us) {
        None
    } else if keyframe is Some || has_video {
        keyframe
    } else {
        start_on_side(s, false, target_us, forward)
    }
}

proof fn lemma_first_start<P>(s: Seq<CachedPacket<P>>, keyframes: bool, target_us: int, i: int)
    requires
        0 <= i <= s.len(),
    ensures
        match first_start(s, keyframes, target_us, i) {
            Some(k) => i <= k < s.len() && is_start(s[k], keyframes, target_us, true) && forall|
                j: int,
            |
                i <= j < k ==> !is_start(#[trigger] s[j], keyframes, target_us, true),
            None => forall|j: int|
                i <= j < s.len() ==> !is_start(#[trigger] s[j], keyframes, target_us, true),
        },
    decreases s.len() - i,
{
    if i < s.len() && !is_start(s[i], keyframes, target_us, true) {
        lemma_first_start(s, keyframes, target_us, i + 1);
    }
}

proof fn lemma_last_start<P>(s: Seq<CachedPacket<P>>, keyframes: bool, target_us: int, i: int)
    requires
        0 <= i <= s.len(),
    ensures
        match last_start(s, keyframes, target_us, i) {
            Some(k) => 0 <= k < i && is_start(s[k], keyframes, target_us, false) && forall|j: int|
                k < j < i ==> !is_start(#[trigger] s[j], keyframes, target_us, false),
            None => forall|j: int|
                0 <= j < i ==> !is_start(#[trigger] s[j], keyframes, target_us, false),
        },
    decreases i,
{
    if i > 0 && !is_start(s[i - 1], keyframes, target_us, false) {
        lemma_last_start(s, keyframes, target_us, i - 1);
    }
}

/// Replay starts in the cache, at the target or on the wanted side of it, and with video at a
/// keyframe.
pub proof fn lemma_seek_lands_on_side<P>(
    s: Seq<CachedPacket<P>>,
    has_video: bool,
    target_us: int,
    forward: bool,
)
    ensures
        seek_hit(s, has_video, target_us, forward) matches Some(k) ==> {
            &&& 0 <= k < s.len()
            &&& on_side(s[k].pts_us as int, target_us, forward)
            &&& has_video ==> s[k].is_video_keyframe
        },
{
    lemma_first_start(s, true, target_us, 0);
    lemma_first_start(s, false, target_us, 0);
    lemma_last_start(s, true, target_us, s.len() as int);
    lemma_last_start(s, false, target_us, s.len() as int);
}

/// With video, a seek back within the cache replays from the last keyframe at or before the target
/// and a seek forward from the first at or after it; it misses only where there is none.
pub proof fn lemma_seek_is_nearest<P>(s: Seq<CachedPacket<P>>, target_us: int, forward: bool)
    requires
        covers(s, target_us),
    ensures
        match seek_hit(s, true, target_us, forward) {
            Some(k) => forall|j: int|
                0 <= j < s.len() && (if forward {
                    j < k
                } else {
                    j > k
                }) ==> !is_start(#[trigger] s[j], true, target_us, forward),
            None => forall|j: int|
                0 <= j < s.len() ==> !is_start(#[trigger] s[j], true, target_us, forward),
        },
{
    lemma_first_start(s, true, target_us, 0);
    lemma_last_start(s, true, target_us, s.len() as int);
}

proof fn lemma_bytes_push<P>(s: Seq<CachedPacket<P>>, p: CachedPacket<P>)
    ensures
        bytes_of(s.push(p)) == bytes_of(s) + p.data_size,
        bytes_of(s) >= 0,
    decreases s.len(),
{
    reveal_with_fuel(bytes_of, 2);
    if s.len() == 0 {
        assert(s.push(p).drop_first() =~= s);
    } else {
        lemma_bytes_push(s.drop_first(), p);
        assert(s.push(p).drop_first() =~= s.drop_first().push(p));
    }
}

/// What is kept is a tail of what there was, fits, and would not fit with one packet more.
pub proof fn lemma_within_budget<P>(s: Seq<CachedPacket<P>>, limit: int)
    requires
        limit >= 0,
    ensures
        bytes_of(within_budget(s, limit)) <= limit,
        within_budget(s, limit).len() <= s.len(),
        within_budget(s, limit) == s.skip(s.len() - within_budget(s, limit).len()),
        within_budget(s, limit).len() < s.len() ==> bytes_of(
            s.skip(s.len() - within_budget(s, limit).len() - 1),
        ) > limit,
    decreases s.len(),
{
    if s.len() == 0 || bytes_of(s) <= limit {
        assert(s.skip(0) =~= s);
    } else {
        let rest = s.drop_first();
        lemma_within_budget(rest, limit);
        let n = within_budget(s, limit).len();
        assert(rest.skip(rest.len() - n) =~= s.skip(s.len() - n));
        if n < rest.len() {
            assert(rest.skip(rest.len() - n - 1) =~= s.skip(s.len() - n - 1));
        } else {
            assert(s.skip(0) =~= s);
        }
    }
}

/// A packet that fits at all is kept: it is the last that goes.
pub proof fn lemma_newest_is_kept<P>(s: Seq<CachedPacket<P>>, p: CachedPacket<P>, limit: int)
    requires
        p.data_size <= limit,
    ensures
        within_budget(s.push(p), limit).len() > 0,
        within_budget(s.push(p), limit).last() == p,
    decreases s.len(),
{
    let all = s.push(p);
    if bytes_of(all) > limit {
        lemma_bytes_push(s, p);
        if s.len() == 0 {
            assert(bytes_of(s) == 0);
        } else {
            assert(all.drop_first() =~= s.drop_first().push(p));
            lemma_newest_is_kept(s.drop_first(), p, limit);
        }
    }
}

/// Recently read packets, up to a number of bytes.
#[derive(Debug)]
pub struct PacketCache<P> {
    pub packets: VecDeque<CachedPacket<P>>,
    pub total_bytes: usize,
    pub max_bytes: usize,
    pub video_idx: Option<usize>,
    pub time_bases: Vec<(usize, Rational)>,
}

/// The unit of time of a stream that is wanted and that there is.
pub open spec fn wanted_base(stream: Option<usize>, streams: Seq<Rational>) -> Seq<
    (usize, Rational),
> {
    match stream {
        Some(i) => if i < streams.len() {
            seq![(i, streams[i as int])]
        } else {
            Seq::empty()
        },
        None => Seq::empty(),
    }
}

/// The units of time of the streams that are wanted.
pub open spec fn wanted_bases(
    video_idx: Option<usize>,
    audio_idx: Option<usize>,
    subtitle_idx: Option<usize>,
    streams: Seq<Rational>,
) -> Seq<(usize, Rational)> {
    wanted_base(video_idx, streams) + wanted_base(audio_idx, streams) + wanted_base(
        subtitle_idx,
        streams,
    )
}

fn note_base(out: &mut Vec<(usize, Rational)>, stream: Option<usize>, streams: &Vec<Rational>)
    ensures
        final(out)@ == old(out)@ + wanted_base(stream, streams@),
{
    match stream {
        Some(i) => {
            if i < streams.len() {
                out.push((i, streams[i]));
            }
        },
        None => {},
    }
    assert(out@ =~= old(out)@ + wanted_base(stream, streams@));
}

impl<P> PacketCache<P> {
    /// Whether the bytes are counted right and are within the limit.
    pub open spec fn wf(self) -> bool {
        &&& self.total_bytes == bytes_of(self.packets@)
        &&& self.total_bytes <= self.max_bytes
    }

    /// The packet as it is kept.
    pub open spec fn cached(self, p: ReadPacket<P>, stream_index: usize, base: Rational) -> CachedPacket<
        P,
    > {
        CachedPacket {
            packet: p.packet,
            stream_index,
            pts_us: stamp_us(p.stamp(), base) as i64,
            is_video_keyframe: self.video_idx == Some(stream_index) && p.is_key,
            data_size: p.size,
        }
    }

    /// An empty cache for the streams that are wanted. `streams` holds the unit of time of each
    /// stream of the file.
    pub fn new(
        max_bytes: usize,
        video_idx: Option<usize>,
        audio_idx: Option<usize>,
        subtitle_idx: Option<usize>,
        streams: &Vec<Rational>,
    ) -> (r: PacketCache<P>)
        ensures
            r.wf(),
            r.packets@ == Seq::<CachedPacket<P>>::empty(),
            r.max_bytes == max_bytes,
            r.video_idx == video_idx,
            r.time_bases@ == wanted_bases(video_idx, audio_idx, subtitle_idx, streams@),
    {
        let mut time_bases: Vec<(usize, Rational)> = Vec::new();
        note_base(&mut time_bases, video_idx, streams);
        note_base(&mut time_bases, audio_idx, streams);
        note_base(&mut time_bases, subtitle_idx, streams);
        assert(time_bases@ =~= wanted_bases(video_idx, audio_idx, subtitle_idx, streams@));
        PacketCache { packets: VecDeque::new(), total_bytes: 0, max_bytes, video_idx, time_bases }
    }

    /// The unit of time of a stream.
    pub fn time_base_for(&self, stream_index: usize) -> (r: Option<Rational>)
        ensures
            r == time_base_from(self.time_bases@, stream_index, 0),
    {
        let mut i: usize = 0;
        while i < self.time_bases.len()
            invariant
                i <= self.time_bases.len(),
                time_base_from(self.time_bases@, stream_index, 0) == time_base_from(
                    self.time_bases@,
                    stream_index,
                    i as int,
                ),
            decreases self.time_bases.len() - i,
        {
            if self.time_bases[i].0 == stream_index {
                return Some(self.time_bases[i].1);
            }
            i = i + 1;
        }
        None
    }

    /// Adds a packet of a wanted stream, and drops the oldest ones where there are too many bytes.
    pub fn push(&mut self, p: ReadPacket<P>, stream_index: usize)
        requires
            old(self).wf(),
            old(self).total_bytes + p.size <= usize::MAX,
        ensures
            final(self).wf(),
            final(self).max_bytes == old(self).max_bytes,
            final(self).video_idx == old(self).video_idx,
            final(self).time_bases == old(self).time_bases,
            final(self).packets@ == match time_base_from(
                old(self).time_bases@,
                stream_index,
                0,
            ) {
                None => old(self).packets@,
                Some(base) => within_budget(
                    old(self).packets@.push(old(self).cached(p, stream_index, base)),
                    old(self).max_bytes as int,
                ),
            },
    {
        let base = match self.time_base_for(stream_index) {
            Some(base) => base,
            None => {
                return;
            },
        };
        let raw: i64 = match p.pts {
            Some(t) => t,
            None => match p.dts {
                Some(t) => t,
                None => 0,
            },
        };
        let pts_us: i64 = pts_to_us(raw, base);
        let is_video: bool = match self.video_idx {
            Some(i) => i == stream_index,
            None => false,
        };
        let size: usize = p.size;
        let ghost before = self.packets@;
        let cached = CachedPacket {
            packet: p.packet,
            stream_index,
            pts_us,
            is_video_keyframe: is_video && p.is_key,
            data_size: size,
        };
        assert(cached == old(self).cached(p, stream_index, base));
        proof {
            lemma_bytes_push(before, cached);
        }
        self.packets.push_back(cached);
        self.total_bytes = self.total_bytes + size;
        let ghost all = before.push(cached);
        while self.total_bytes > self.max_bytes
            invariant
                self.total_bytes == bytes_of(self.packets@),
                within_budget(all, self.max_bytes as int) == within_budget(
                    self.packets@,
                    self.max_bytes as int,
                ),
                self.max_bytes == old(self).max_bytes,
                self.video_idx == old(self).video_idx,
                self.time_bases == old(self).time_bases,
            decreases self.packets@.len(),
        {
            let ghost now = self.packets@;
            proof {
                assert(now.len() > 0);
                lemma_bytes_push(now.drop_first(), cached);
            }
            match self.packets.pop_front() {
                Some(evicted) => {
                    assert(self.packets@ =~= now.drop_first());
                    self.total_bytes = self.total_bytes - evicted.data_size;
                },
                None => {},
            }
        }
    }

    /// Where in the cache replay starts for a seek; none where the target lies outside or there is
    /// no packet to start from.
    ///
    /// - Back: the last video keyframe at or before the target.
    /// - Forward: the first video keyframe at or after the target.
    /// - Without video: the nearest packet on that side.
    pub fn seek_position(&self, target_us: i64, forward: bool) -> (r: Option<usize>)
        ensures
            match r {
                Some(i) => seek_hit(
                    self.packets@,
                    self.video_idx is Some,
                    target_us as int,
                    forward,
                ) == Some(i as int) && i < self.packets@.len(),
                None => seek_hit(
                    self.packets@,
                    self.video_idx is Some,
                    target_us as int,
                    forward,
                ) is None,
            },
    {
        let count: usize = self.packets.len();
        if count == 0 {
            return None;
        }
        if target_us < self.packets[0].pts_us || target_us > self.packets[count - 1].pts_us {
            return None;
        }
        match self.find_start(true, target_us, forward) {
            Some(i) => Some(i),
            None => if self.video_idx.is_some() {
                None
            } else {
                self.find_start(false, target_us, forward)
            },
        }
    }

    /// The packet where replay starts on the wanted side of the target.
    fn find_start(&self, keyframes: bool, target_us: i64, forward: bool) -> (r: Option<usize>)
        ensures
            match r {
                Some(i) => start_on_side(self.packets@, keyframes, target_us as int, forward)
                    == Some(i as int) && i < self.packets@.len(),
                None => start_on_side(
                    self.packets@,
                    keyframes,
                    target_us as int,
                    forward,
                ) is None,
            },
    {
        let ghost s = self.packets@;
        let ghost target = target_us as int;
        let count: usize = self.packets.len();
        if forward {
            let mut i: usize = 0;
            while i < count
                invariant
                    forward,
                    i <= count == self.packets@.len(),
                    s == self.packets@,
                    target == target_us,
                    first_start(s, keyframes, target, 0) == first_start(
                        s,
                        keyframes,
                        target,
                        i as int,
                    ),
                decreases count - i,
            {
                let p = &self.packets[i];
                if (!keyframes || p.is_video_keyframe) && p.pts_us >= target_us {
                    return Some(i);
                }
                i = i + 1;
            }
        } else {
            let mut i: usize = count;
            while i > 0
                invariant
                    !forward,
                    i <= count == self.packets@.len(),
                    s == self.packets@,
                    target == target_us,
                    last_start(s, keyframes, target, count as int) == last_start(
                        s,
                        keyframes,
                        target,
                        i as int,
                    ),
                decreases i,
            {
                i = i - 1;
                let p = &self.packets[i];
                if (!keyframes || p.is_video_keyframe) && p.pts_us <= target_us {
                    return Some(i);
                }
            }
        }
        None
    }

    /// Drops all packets.
    pub fn clear(&mut self)
        ensures
            final(self).wf(),
            final(self).packets@ == Seq::<CachedPacket<P>>::empty(),
            final(self).total_bytes == 0,
            final(self).max_bytes == old(self).max_bytes,
            final(self).video_idx == old(self).video_idx,
            final(self).time_bases == old(self).time_bases,
    {
        self.packets.clear();
        self.total_bytes = 0;
    }

    /// The number of packets.
    pub fn len(&self) -> (r: usize)
        ensures
            r == self.packets@.len(),
    {
        self.packets.len()
    }
}

/// How many of the commands are seeks.
pub open spec fn seeks_in(cmds: Seq<DemuxCommand>) -> int
    decreases cmds.len(),
{
    if cmds.len() == 0 {
        0
    } else if cmds.last() is Seek {
        seeks_in(cmds.drop_last()) + 1
    } else {
        seeks_in(cmds.drop_last())
    }
}

/// The last seek of the commands, `first` where there is none.
pub open spec fn last_seek(cmds: Seq<DemuxCommand>, first: Option<(i64, bool)>) -> Option<
    (i64, bool),
>
    decreases cmds.len(),
{
    if cmds.len() == 0 {
        first
    } else {
        match cmds.last() {
            DemuxCommand::Seek { target_pts, forward } => Some((target_pts, forward)),
            _ => last_seek(cmds.drop_last(), first),
        }
    }
}

/// Where the first stop stands among the commands, their number where there is none.
pub open spec fn stop_at(cmds: Seq<DemuxCommand>) -> int
    decreases cmds.len(),
{
    if cmds.len() == 0 {
        0
    } else {
        let k = stop_at(cmds.drop_last());
        if k < cmds.len() - 1 || cmds.last() is Stop {
            k
        } else {
            k + 1
        }
    }
}

/// Whether a stop is among the commands.
pub open spec fn has_stop(cmds: Seq<DemuxCommand>) -> bool {
    stop_at(cmds) < cmds.len()
}

/// A seek and the commands that arrived after it as one seek: to the last target, with the number
/// of seeks; none where a stop is among them.
pub open spec fn coalesced(target_pts: i64, forward: bool, cmds: Seq<DemuxCommand>) -> Option<
    (i64, bool, int),
> {
    if has_stop(cmds) {
        None
    } else {
        let last = last_seek(cmds, Some((target_pts, forward)))->Some_0;
        Some((last.0, last.1, 1 + seeks_in(cmds)))
    }
}

/// A coalesced seek as it is returned.
pub open spec fn as_coalesced(r: Option<(i64, bool, u32)>) -> Option<(i64, bool, int)> {
    match r {
        Some((t, f, n)) => Some((t, f, n as int)),
        None => None,
    }
}

proof fn lemma_coalesce_push(
    target_pts: i64,
    forward: bool,
    cmds: Seq<DemuxCommand>,
    cmd: DemuxCommand,
)
    ensures
        cmds.push(cmd).drop_last() == cmds,
        has_stop(cmds.push(cmd)) == (has_stop(cmds) || cmd is Stop),
        seeks_in(cmds.push(cmd)) == seeks_in(cmds) + if cmd is Seek {
            1int
        } else {
            0
        },
        0 <= stop_at(cmds) <= cmds.len(),
        has_stop(cmds) ==> stop_at(cmds.push(cmd)) == stop_at(cmds),
        last_seek(cmds, Some((target_pts, forward))) is Some,
    decreases cmds.len(),
{
    assert(cmds.push(cmd).drop_last() =~= cmds);
    if cmds.len() > 0 {
        lemma_coalesce_push(target_pts, forward, cmds.drop_last(), cmds.last());
    }
}

proof fn lemma_stop_stays(cmds: Seq<DemuxCommand>, i: int)
    requires
        0 <= i <= cmds.len(),
        has_stop(cmds.take(i)),
    ensures
        stop_at(cmds) == stop_at(cmds.take(i)),
    decreases cmds.len() - i,
{
    if i < cmds.len() {
        lemma_coalesce_push(0, false, cmds.take(i), cmds[i]);
        assert(cmds.take(i + 1) =~= cmds.take(i).push(cmds[i]));
        lemma_stop_stays(cmds, i + 1);
    } else {
        assert(cmds.take(i) =~= cmds);
    }
}

/// The commands that were taken off a channel, in order.
#[derive(Debug)]
pub struct Inbox {
    pub cmds: Vec<DemuxCommand>,
    /// Whether more may be taken: the channel was not found empty, and no stop was taken.
    pub open: bool,
    /// Whether no more can ever come.
    pub disconnected: bool,
}

impl Inbox {
    /// An inbox with nothing in it.
    pub fn new() -> (r: Inbox)
        ensures
            r.cmds@ == Seq::<DemuxCommand>::empty(),
            r.open,
            !r.disconnected,
    {
        Inbox { cmds: Vec::new(), open: true, disconnected: false }
    }

    /// Takes what was received. A stop closes the inbox behind itself, and so does a channel that is
    /// empty or has no sender left.
    pub fn take(&mut self, received: Result<DemuxCommand, TryRecvError>)
        ensures
            match received {
                Ok(cmd) => {
                    &&& final(self).cmds@ == old(self).cmds@.push(cmd)
                    &&& final(self).open == (old(self).open && !(cmd is Stop))
                    &&& final(self).disconnected == old(self).disconnected
                },
                Err(e) => {
                    &&& final(self).cmds@ == old(self).cmds@
                    &&& !final(self).open
                    &&& final(self).disconnected == (old(self).disconnected || e is Disconnected)
                },
            },
    {
        match received {
            Ok(cmd) => {
                if let DemuxCommand::Stop = cmd {
                    self.open = false;
                }
                self.cmds.push(cmd);
            },
            Err(TryRecvError::Empty) => {
                self.open = false;
            },
            Err(TryRecvError::Disconnected) => {
                self.open = false;
                self.disconnected = true;
            },
        }
    }

    /// Takes the commands that wait in a channel, up to a stop. Which those are depends on the
    /// player's thread.
    pub fn collect(cmd_rx: &Receiver<DemuxCommand>) -> (r: Inbox)
        ensures
            r.cmds.len() < u32::MAX,
            has_stop(r.cmds@) ==> r.cmds@.last() is Stop,
    {
        let mut inbox = Inbox::new();
        let mut left: u32 = u32::MAX - 1;
        while inbox.open && left > 0
            invariant
                inbox.cmds.len() + left < u32::MAX,
                inbox.open ==> !has_stop(inbox.cmds@),
                has_stop(inbox.cmds@) ==> inbox.cmds@.last() is Stop,
            decreases left,
        {
            left = left - 1;
            let received = cmd_rx.try_recv();
            let ghost before = inbox.cmds@;
            inbox.take(received);
            proof {
                if received is Ok {
                    lemma_coalesce_push(0, false, before, received->Ok_0);
                }
            }
        }
        inbox
    }
}

/// Takes further seeks off the channel of commands and keeps only the last; none where a stop was
/// among them. What else arrives is passed over.
pub fn coalesce_seeks(cmd_rx: &Receiver<DemuxCommand>, target_pts: i64, forward: bool) -> (r:
    Option<(i64, bool, u32)>)
    ensures
        exists|cmds: Seq<DemuxCommand>|
            as_coalesced(r) == #[trigger] coalesced(target_pts, forward, cmds),
{
    let inbox = Inbox::collect(cmd_rx);
    coalesce_list(&inbox.cmds, target_pts, forward)
}

/// A seek and a command that came after it as one seek; none where that is a stop.
pub fn coalesce_step(seek: (i64, bool, u32), cmd: DemuxCommand) -> (r: Option<(i64, bool, u32)>)
    requires
        seek.2 < u32::MAX,
    ensures
        r == match cmd {
            DemuxCommand::Stop => None,
            DemuxCommand::Seek { target_pts, forward } => Some(
                (target_pts, forward, (seek.2 + 1) as u32),
            ),
            DemuxCommand::ChangeAudio(_) => Some(seek),
        },
{
    match cmd {
        DemuxCommand::Stop => None,
        DemuxCommand::Seek { target_pts, forward } => Some((target_pts, forward, seek.2 + 1)),
        DemuxCommand::ChangeAudio(_) => Some(seek),
    }
}

/// A seek and the commands that came after it as one seek.
pub fn coalesce_list(cmds: &Vec<DemuxCommand>, target_pts: i64, forward: bool) -> (r: Option<
    (i64, bool, u32),
>)
    requires
        cmds.len() < u32::MAX,
    ensures
        as_coalesced(r) == coalesced(target_pts, forward, cmds@),
{
    let mut seek: (i64, bool, u32) = (target_pts, forward, 1);
    let mut i: usize = 0;
    assert(cmds@.take(0) =~= Seq::empty());
    while i < cmds.len()
        invariant
            i <= cmds.len(),
            cmds.len() < u32::MAX,
            !has_stop(cmds@.take(i as int)),
            last_seek(cmds@.take(i as int), Some((target_pts, forward))) == Some((seek.0, seek.1)),
            seek.2 == 1 + seeks_in(cmds@.take(i as int)),
            seek.2 <= 1 + i,
        decreases cmds.len() - i,
    {
        proof {
            lemma_coalesce_push(target_pts, forward, cmds@.take(i as int), cmds@[i as int]);
            assert(cmds@.take(i + 1) =~= cmds@.take(i as int).push(cmds@[i as int]));
        }
        match coalesce_step(seek, cmds[i]) {
            None => {
                proof {
                    lemma_stop_stays(cmds@, i + 1);
                }
                return None;
            },
            Some(next) => {
                seek = next;
            },
        }
        i = i + 1;
    }
    assert(cmds@.take(i as int) =~= cmds@);
    Some(seek)
}

/// The state of the demuxer.
pub struct DemuxView<P> {
    pub packets: Seq<CachedPacket<P>>,
    pub max_bytes: int,
    pub time_bases: Seq<(usize, Rational)>,
    pub cursor: Option<int>,
    pub video_idx: Option<usize>,
    pub audio_idx: Option<usize>,
    pub subtitle_idx: Option<usize>,
    pub streams: Seq<Rational>,
}

/// The part of the demuxer that decides: what is kept, what is sent, and how seeks are served.
#[derive(Debug)]
pub struct DemuxState<P> {
    pub cache: PacketCache<P>,
    pub replay_cursor: Option<usize>,
    pub video_idx: Option<usize>,
    pub audio_idx: Option<usize>,
    pub subtitle_idx: Option<usize>,
    /// The unit of time of each stream of the file.
    pub streams: Vec<Rational>,
}

impl<P> View for DemuxState<P> {
    type V = DemuxView<P>;

    open spec fn view(&self) -> DemuxView<P> {
        DemuxView {
            packets: self.cache.packets@,
            max_bytes: self.cache.max_bytes as int,
            time_bases: self.cache.time_bases@,
            cursor: match self.replay_cursor {
                Some(i) => Some(i as int),
                None => None,
            },
            video_idx: self.video_idx,
            audio_idx: self.audio_idx,
            subtitle_idx: self.subtitle_idx,
            streams: self.streams@,
        }
    }
}

/// How a seek is served: by a seek in the file or not, and with how many flushes for the player.
#[derive(Clone, Copy, Debug, PartialEq, Eq, Structural)]
pub struct SeekPlan {
    /// Whether the file is positioned anew.
    pub file_seek: bool,
    pub target_us: i64,
    pub forward: bool,
    /// How many flushes are sent, after the file was positioned.
    pub flushes: u32,
}

/// What the demuxer does after it processed commands.
#[derive(Clone, Copy, Debug, PartialEq, Eq, Structural)]
pub enum Action {
    Continue,
    Seek(SeekPlan),
    Stop,
}

/// What the demuxer does next.
#[derive(Clone, Copy, Debug)]
pub enum ReplayStep {
    /// Read a packet from the file.
    Read,
    /// Look at commands again.
    Again,
    /// Send the packet of the cache at this place.
    Send(DemuxPacket<usize>),
}

/// A packet by its stream; none for a stream that is not wanted.
pub open spec fn classified<P, Q>(v: DemuxView<Q>, stream: usize, packet: P) -> Option<
    DemuxPacket<P>,
> {
    if v.video_idx == Some(stream) {
        Some(DemuxPacket::Video(packet))
    } else if v.audio_idx == Some(stream) {
        Some(DemuxPacket::Audio(packet))
    } else if v.subtitle_idx == Some(stream) {
        Some(DemuxPacket::Subtitle(packet))
    } else {
        None
    }
}

/// The state with another audio stream: nothing cached, nothing to replay.
pub open spec fn with_audio<P>(v: DemuxView<P>, stream: usize) -> DemuxView<P> {
    DemuxView {
        packets: Seq::empty(),
        max_bytes: CACHE_MAX_BYTES as int,
        time_bases: wanted_bases(v.video_idx, Some(stream), v.subtitle_idx, v.streams),
        cursor: None,
        audio_idx: Some(stream),
        ..v
    }
}

/// Whether a seek is served right: from the cache where the target lies there, else from the file,
/// with the cache dropped. In either case one flush is sent for each seek that was asked for.
pub open spec fn is_served<P>(
    before: DemuxView<P>,
    target_us: i64,
    forward: bool,
    count: int,
    plan: SeekPlan,
    after: DemuxView<P>,
) -> bool {
    let hit = if plan.file_seek {
        None
    } else {
        after.cursor
    };
    &&& plan.target_us == target_us
    &&& plan.forward == forward
    &&& plan.flushes == count
    &&& plan.file_seek == (hit is None)
    &&& hit == seek_hit(before.packets, before.video_idx is Some, target_us as int, forward)
    &&& after == if plan.file_seek {
        DemuxView { packets: Seq::empty(), cursor: None, ..before }
    } else {
        DemuxView { cursor: hit, ..before }
    }
}

/// Whether a coalesced seek is acted upon right.
pub open spec fn is_applied<P>(
    before: DemuxView<P>,
    seek: Option<(i64, bool, int)>,
    action: Action,
    after: DemuxView<P>,
) -> bool {
    match seek {
        None => action is Stop && after == before,
        Some((target_us, forward, count)) => action matches Action::Seek(plan) && is_served(
            before,
            target_us,
            forward,
            count,
            plan,
            after,
        ),
    }
}

/// The state after the audio changes among commands, in their order.
pub open spec fn with_changes<P>(v: DemuxView<P>, cmds: Seq<DemuxCommand>) -> DemuxView<P>
    decreases cmds.len(),
{
    if cmds.len() == 0 {
        v
    } else {
        let w = with_changes(v, cmds.drop_last());
        match cmds.last() {
            DemuxCommand::ChangeAudio(stream) => with_audio(w, stream),
            _ => w,
        }
    }
}

/// Whether commands that were drained are acted upon right: audio changes as they come, then one
/// seek to the last target; a stop ends all, and so does a channel without a sender.
pub open spec fn is_drained<P>(
    before: DemuxView<P>,
    cmds: Seq<DemuxCommand>,
    disconnected: bool,
    action: Action,
    after: DemuxView<P>,
) -> bool {
    let changed = with_changes(before, cmds.take(stop_at(cmds)));
    if has_stop(cmds) || disconnected {
        action is Stop && after == changed
    } else {
        match last_seek(cmds, None) {
            None => action is Continue && after == changed,
            Some((target_us, forward)) => action matches Action::Seek(plan) && is_served(
                changed,
                target_us,
                forward,
                seeks_in(cmds),
                plan,
                after,
            ),
        }
    }
}

/// Coalesced seeks end at the target asked for last, and as many flushes answer them as seeks were
/// asked for.
pub proof fn lemma_one_flush_per_seek<P>(
    before: DemuxView<P>,
    target_pts: i64,
    forward: bool,
    cmds: Seq<DemuxCommand>,
    plan: SeekPlan,
    after: DemuxView<P>,
)
    requires
        is_applied(before, coalesced(target_pts, forward, cmds), Action::Seek(plan), after),
    ensures
        plan.flushes == 1 + seeks_in(cmds),
        Some((plan.target_us, plan.forward)) == last_seek(cmds, Some((target_pts, forward))),
{
    lemma_coalesce_push(target_pts, forward, cmds, DemuxCommand::Stop);
}

/// Whether the cache knows the unit of time of every stream that is sent on to the player and that
/// the file has, so that what is sent is also kept.
pub open spec fn keeps_what_it_sends<P>(v: DemuxView<P>) -> bool {
    forall|s: usize|
        #![trigger time_base_from(v.time_bases, s, 0)]
        s < v.streams.len() && (v.video_idx == Some(s) || v.audio_idx == Some(s) || v.subtitle_idx
            == Some(s)) ==> time_base_from(v.time_bases, s, 0) == Some(v.streams[s as int])
}

proof fn lemma_wanted_bases_known(
    video_idx: Option<usize>,
    audio_idx: Option<usize>,
    subtitle_idx: Option<usize>,
    streams: Seq<Rational>,
    s: usize,
)
    requires
        s < streams.len(),
        video_idx == Some(s) || audio_idx == Some(s) || subtitle_idx == Some(s),
    ensures
        time_base_from(wanted_bases(video_idx, audio_idx, subtitle_idx, streams), s, 0) == Some(
            streams[s as int],
        ),
{
    let all = wanted_bases(video_idx, audio_idx, subtitle_idx, streams);
    assert forall|k: int| 0 <= k < all.len() implies (#[trigger] all[k]).0 < streams.len() && all[k].1
        == streams[all[k].0 as int] by {}
    assert(exists|k: int| 0 <= k < all.len() && (#[trigger] all[k]).0 == s) by {
        let a = wanted_base(video_idx, streams).len() as int;
        let b = a + wanted_base(audio_idx, streams).len();
        if video_idx == Some(s) {
            assert(all[0].0 == s);
        } else if audio_idx == Some(s) {
            assert(all[a].0 == s);
        } else {
            assert(all[b].0 == s);
        }
    }
    lemma_time_base_is_of_the_stream(all, s, 0);
}

/// A unit of time that is found is one noted for the stream, and one is found wherever one is noted.
pub proof fn lemma_time_base_is_of_the_stream(v: Seq<(usize, Rational)>, stream: usize, i: int)
    requires
        0 <= i,
    ensures
        match time_base_from(v, stream, i) {
            Some(base) => exists|k: int|
                i <= k < v.len() && #[trigger] v[k] == (stream, base) && forall|j: int|
                    i <= j < k ==> (#[trigger] v[j]).0 != stream,
            None => forall|j: int| i <= j < v.len() ==> (#[trigger] v[j]).0 != stream,
        },
    decreases v.len() - i,
{
    if i < v.len() {
        if v[i].0 == stream {
            assert(v[i] == (stream, v[i].1));
        } else {
            lemma_time_base_is_of_the_stream(v, stream, i + 1);
        }
    }
}

/// After a switch to another audio stream its packets are sent as audio, and what is sent is kept,
/// of that stream too. What was kept before is gone, with the old audio in it.
pub proof fn lemma_new_audio_is_sent_and_kept<P>(v: DemuxView<P>, stream: usize)
    ensures
        with_audio(v, stream).audio_idx == Some(stream),
        with_audio(v, stream).video_idx == v.video_idx,
        with_audio(v, stream).subtitle_idx == v.subtitle_idx,
        with_audio(v, stream).streams == v.streams,
        with_audio(v, stream).packets.len() == 0,
        with_audio(v, stream).cursor is None,
        with_audio(v, stream).max_bytes == 157286400,
        keeps_what_it_sends(with_audio(v, stream)),
        stream < v.streams.len() ==> exists|k: int|
            0 <= k < with_audio(v, stream).time_bases.len() && #[trigger] with_audio(
                v,
                stream,
            ).time_bases[k] == (stream, v.streams[stream as int]),
{
    let w = with_audio(v, stream);
    assert forall|s: usize|
        #![trigger time_base_from(w.time_bases, s, 0)]
        s < w.streams.len() && (w.video_idx == Some(s) || w.audio_idx == Some(s) || w.subtitle_idx
            == Some(s)) implies time_base_from(w.time_bases, s, 0) == Some(
        w.streams[s as int],
    ) by {
        lemma_wanted_bases_known(w.video_idx, w.audio_idx, w.subtitle_idx, w.streams, s);
    }
    if stream < v.streams.len() {
        lemma_wanted_bases_known(w.video_idx, w.audio_idx, w.subtitle_idx, w.streams, stream);
        lemma_time_base_is_of_the_stream(w.time_bases, stream, 0);
    }
}

/// Audio changes leave it so that what is sent is kept.
pub proof fn lemma_changes_keep_what_is_sent<P>(v: DemuxView<P>, cmds: Seq<DemuxCommand>)
    requires
        keeps_what_it_sends(v),
    ensures
        keeps_what_it_sends(with_changes(v, cmds)),
    decreases cmds.len(),
{
    if cmds.len() > 0 {
        lemma_changes_keep_what_is_sent(v, cmds.drop_last());
        if cmds.last() is ChangeAudio {
            lemma_new_audio_is_sent_and_kept(
                with_changes(v, cmds.drop_last()),
                cmds.last()->ChangeAudio_0,
            );
        }
    }
}

impl<P> DemuxState<P> {
    /// Whether the cache is well formed and knows the video stream.
    pub open spec fn wf(self) -> bool {
        self.cache.wf() && self.cache.video_idx == self.video_idx
    }

    /// A demuxer for the streams that are wanted. `streams` holds the unit of time of each stream
    /// of the file.
    pub fn new(
        video_idx: Option<usize>,
        audio_idx: Option<usize>,
        subtitle_idx: Option<usize>,
        streams: Vec<Rational>,
    ) -> (r: DemuxState<P>)
        ensures
            r.wf(),
            r@ == (DemuxView::<P> {
                packets: Seq::empty(),
                max_bytes: CACHE_MAX_BYTES as int,
                time_bases: wanted_bases(video_idx, audio_idx, subtitle_idx, streams@),
                cursor: None,
                video_idx,
                audio_idx,
                subtitle_idx,
                streams: streams@,
            }),
            keeps_what_it_sends(r@),
    {
        proof {
            assert forall|s: usize|
                #![trigger time_base_from(
                    wanted_bases(video_idx, audio_idx, subtitle_idx, streams@),
                    s,
                    0,
                )]
                s < streams@.len() && (video_idx == Some(s) || audio_idx == Some(s) || subtitle_idx
                    == Some(s)) implies time_base_from(
                wanted_bases(video_idx, audio_idx, subtitle_idx, streams@),
                s,
                0,
            ) == Some(streams@[s as int]) by {
                lemma_wanted_bases_known(video_idx, audio_idx, subtitle_idx, streams@, s);
            }
        }
        let cache = PacketCache::new(
            CACHE_MAX_BYTES,
            video_idx,
            audio_idx,
            subtitle_idx,
            &streams,
        );
        DemuxState { cache, replay_cursor: None, video_idx, audio_idx, subtitle_idx, streams }
    }

    /// Whether packets of a stream are wanted; those of the others are to be discarded unread.
    pub fn wants(&self, stream: usize) -> (r: bool)
        ensures
            r == (classified(self@, stream, ()) is Some),
    {
        self.classify_packet(stream, ()).is_some()
    }

    /// Classifies a packet by its stream.
    pub fn classify_packet<Q>(&self, stream: usize, packet: Q) -> (r: Option<DemuxPacket<Q>>)
        ensures
            r == classified(self@, stream, packet),
    {
        if same_stream(self.video_idx, stream) {
            Some(DemuxPacket::Video(packet))
        } else if same_stream(self.audio_idx, stream) {
            Some(DemuxPacket::Audio(packet))
        } else if same_stream(self.subtitle_idx, stream) {
            Some(DemuxPacket::Subtitle(packet))
        } else {
            None
        }
    }

    /// Switches to another audio stream.
    pub fn change_audio(&mut self, stream: usize)
        requires
            old(self).wf(),
        ensures
            final(self).wf(),
            final(self)@ == with_audio(old(self)@, stream),
            keeps_what_it_sends(final(self)@),
    {
        proof {
            lemma_new_audio_is_sent_and_kept(self@, stream);
        }
        self.audio_idx = Some(stream);
        self.cache =
        PacketCache::new(
            CACHE_MAX_BYTES,
            self.video_idx,
            self.audio_idx,
            self.subtitle_idx,
            &self.streams,
        );
        self.replay_cursor = None;
    }

    /// Serves a seek from the cache where that is possible, else drops the cache for a seek in the
    /// file.
    pub fn try_cached_seek(&mut self, target_us: i64, forward: bool, count: u32) -> (plan: SeekPlan)
        requires
            old(self).wf(),
        ensures
            final(self).wf(),
            is_served(old(self)@, target_us, forward, count as int, plan, final(self)@),
            keeps_what_it_sends(old(self)@) ==> keeps_what_it_sends(final(self)@),
    {
        match self.cache.seek_position(target_us, forward) {
            Some(i) => {
                self.replay_cursor = Some(i);
                SeekPlan { file_seek: false, target_us, forward, flushes: count }
            },
            None => {
                self.cache.clear();
                self.replay_cursor = None;
                SeekPlan { file_seek: true, target_us, forward, flushes: count }
            },
        }
    }

    /// Acts upon a coalesced seek.
    pub fn apply_seek(&mut self, seek: Option<(i64, bool, u32)>) -> (action: Action)
        requires
            old(self).wf(),
        ensures
            final(self).wf(),
            is_applied(old(self)@, as_coalesced(seek), action, final(self)@),
            keeps_what_it_sends(old(self)@) ==> keeps_what_it_sends(final(self)@),
    {
        match seek {
            None => Action::Stop,
            Some((target_us, forward, count)) => Action::Seek(
                self.try_cached_seek(target_us, forward, count),
            ),
        }
    }

    /// Handles a command. A seek takes further seeks off the channel of commands with it.
    pub fn handle_command(&mut self, cmd: DemuxCommand, cmd_rx: &Receiver<DemuxCommand>) -> (action:
        Action)
        requires
            old(self).wf(),
        ensures
            final(self).wf(),
            match cmd {
                DemuxCommand::Stop => action is Stop && final(self)@ == old(self)@,
                DemuxCommand::ChangeAudio(stream) => action is Continue && final(self)@
                    == with_audio(old(self)@, stream),
                DemuxCommand::Seek { target_pts, forward } => exists|cmds: Seq<DemuxCommand>|
                    is_applied(
                        old(self)@,
                        #[trigger] coalesced(target_pts, forward, cmds),
                        action,
                        final(self)@,
                    ),
            },
            keeps_what_it_sends(old(self)@) ==> keeps_what_it_sends(final(self)@),
    {
        match cmd {
            DemuxCommand::Stop => Action::Stop,
            DemuxCommand::Seek { target_pts, forward } => {
                let seek = coalesce_seeks(cmd_rx, target_pts, forward);
                self.apply_seek(seek)
            },
            DemuxCommand::ChangeAudio(stream) => {
                self.change_audio(stream);
                Action::Continue
            },
        }
    }

    /// Acts upon the seek that drained commands end with, if any.
    fn finish_drain(&mut self, seek: Option<(i64, bool)>, count: u32) -> (action: Action)
        requires
            old(self).wf(),
        ensures
            final(self).wf(),
            match seek {
                None => action is Continue && final(self)@ == old(self)@,
                Some((target_us, forward)) => action matches Action::Seek(plan) && is_served(
                    old(self)@,
                    target_us,
                    forward,
                    count as int,
                    plan,
                    final(self)@,
                ),
            },
            keeps_what_it_sends(old(self)@) ==> keeps_what_it_sends(final(self)@),
    {
        match seek {
            None => Action::Continue,
            Some((target_us, forward)) => Action::Seek(
                self.try_cached_seek(target_us, forward, count),
            ),
        }
    }

    /// Takes all commands off the channel and acts upon them, the seeks among them as one.
    pub fn drain_commands(&mut self, cmd_rx: &Receiver<DemuxCommand>) -> (action: Action)
        requires
            old(self).wf(),
        ensures
            final(self).wf(),
            exists|cmds: Seq<DemuxCommand>, disconnected: bool| #[trigger]
                is_drained(old(self)@, cmds, disconnected, action, final(self)@),
            keeps_what_it_sends(old(self)@) ==> keeps_what_it_sends(final(self)@),
    {
        let inbox = Inbox::collect(cmd_rx);
        self.drain_list(&inbox.cmds, inbox.disconnected)
    }

    /// Acts upon a list of commands, the seeks among them as one. `disconnected` says that no more
    /// can come.
    pub fn drain_list(&mut self, cmds: &Vec<DemuxCommand>, disconnected: bool) -> (action: Action)
        requires
            old(self).wf(),
            cmds.len() < u32::MAX,
        ensures
            final(self).wf(),
            is_drained(old(self)@, cmds@, disconnected, action, final(self)@),
            keeps_what_it_sends(old(self)@) ==> keeps_what_it_sends(final(self)@),
    {
        let mut seek: Option<(i64, bool)> = None;
        let mut count: u32 = 0;
        let mut i: usize = 0;
        assert(cmds@.take(0) =~= Seq::empty());
        while i < cmds.len()
            invariant
                self.wf(),
                i <= cmds.len(),
                cmds.len() < u32::MAX,
                !has_stop(cmds@.take(i as int)),
                last_seek(cmds@.take(i as int), None) == seek,
                count == seeks_in(cmds@.take(i as int)),
                count <= i,
                self@ == with_changes(old(self)@, cmds@.take(i as int)),
                keeps_what_it_sends(old(self)@) ==> keeps_what_it_sends(self@),
            decreases cmds.len() - i,
        {
            let cmd = cmds[i];
            proof {
                lemma_coalesce_push(0, false, cmds@.take(i as int), cmd);
                assert(cmds@.take(i + 1) =~= cmds@.take(i as int).push(cmd));
            }
            match cmd {
                DemuxCommand::Stop => {
                    proof {
                        lemma_stop_stays(cmds@, i + 1);
                    }
                    return Action::Stop;
                },
                DemuxCommand::Seek { target_pts, forward } => {
                    count = count + 1;
                    seek = Some((target_pts, forward));
                },
                DemuxCommand::ChangeAudio(stream) => {
                    self.change_audio(stream);
                },
            }
            i = i + 1;
        }
        assert(cmds@.take(i as int) =~= cmds@);
        proof {
            lemma_coalesce_push(0, false, cmds@, DemuxCommand::Stop);
        }
        if disconnected {
            return Action::Stop;
        }
        self.finish_drain(seek, count)
    }

    /// What the demuxer does next: replay from the cache while there is something to replay, else
    /// read. A packet that is to be sent leaves the cursor where it is until it was sent.
    pub fn replay_step(&mut self) -> (step: ReplayStep)
        requires
            old(self).wf(),
        ensures
            final(self).wf(),
            match old(self)@.cursor {
                None => step is Read && final(self)@ == old(self)@,
                Some(i) => if i >= old(self)@.packets.len() {
                    step is Again && final(self)@ == (DemuxView { cursor: None, ..old(self)@ })
                } else {
                    match classified(
                        old(self)@,
                        old(self)@.packets[i].stream_index,
                        i as usize,
                    ) {
                        None => step is Again && final(self)@ == (DemuxView {
                            cursor: Some(i + 1),
                            ..old(self)@
                        }),
                        Some(packet) => step == ReplayStep::Send(packet) && final(self)@
                            == old(self)@,
                    }
                },
            },
            keeps_what_it_sends(old(self)@) ==> keeps_what_it_sends(final(self)@),
    {
        match self.replay_cursor {
            None => ReplayStep::Read,
            Some(cursor) => {
                if cursor < self.cache.len() {
                    let stream: usize = self.cache.packets[cursor].stream_index;
                    match self.classify_packet(stream, cursor) {
                        None => {
                            self.replay_cursor = Some(cursor + 1);
                            ReplayStep::Again
                        },
                        Some(packet) => ReplayStep::Send(packet),
                    }
                } else {
                    self.replay_cursor = None;
                    ReplayStep::Again
                }
            },
        }
    }

    /// Moves on behind the packet at `cursor`, unless a command moved the cursor meanwhile.
    pub fn after_send(&mut self, cursor: usize)
        requires
            old(self).wf(),
            cursor < usize::MAX,
        ensures
            final(self).wf(),
            final(self)@ == if old(self)@.cursor == Some(cursor as int) {
                DemuxView { cursor: Some(cursor + 1), ..old(self)@ }
            } else {
                old(self)@
            },
            keeps_what_it_sends(old(self)@) ==> keeps_what_it_sends(final(self)@),
    {
        if same_stream(self.replay_cursor, cursor) {
            self.replay_cursor = Some(cursor + 1);
        }
    }

    /// Keeps a copy of a packet that was read, and classifies the packet.
    pub fn read_step<Q>(&mut self, kept: ReadPacket<P>, packet: Q, stream: usize) -> (r: Option<
        DemuxPacket<Q>,
    >)
        requires
            old(self).wf(),
            old(self).cache.total_bytes + kept.size <= usize::MAX,
        ensures
            final(self).wf(),
            r == classified(old(self)@, stream, packet),
            final(self)@ == (DemuxView {
                packets: match time_base_from(old(self)@.time_bases, stream, 0) {
                    None => old(self)@.packets,
                    Some(base) => within_budget(
                        old(self)@.packets.push(old(self).cache.cached(kept, stream, base)),
                        old(self)@.max_bytes,
                    ),
                },
                ..old(self)@
            }),
            keeps_what_it_sends(old(self)@) ==> keeps_what_it_sends(final(self)@),
            keeps_what_it_sends(old(self)@) && r is Some && stream < old(self).streams.len()
                && kept.size <= old(self).cache.max_bytes ==> {
                &&& final(self).cache.packets@.len() > 0
                &&& final(self).cache.packets@.last().packet == kept.packet
                &&& final(self).cache.packets@.last().stream_index == stream
                &&& final(self).cache.packets@.last().data_size == kept.size
            },
    {
        proof {
            let base = time_base_from(self@.time_bases, stream, 0);
            if base is Some && kept.size <= self.cache.max_bytes {
                lemma_newest_is_kept(
                    self@.packets,
                    self.cache.cached(kept, stream, base.unwrap()),
                    self@.max_bytes,
                );
            }
        }
        self.cache.push(kept, stream);
        self.classify_packet(stream, packet)
    }
}

fn same_stream(a: Option<usize>, b: usize) -> (r: bool)
    ensures
        r == (a == Some(b)),
{
    match a {
        Some(x) => x == b,
        None => false,
    }
}

/// A packet is sent as what its stream is played as, and one of a stream that is not played is not
/// sent.
pub proof fn lemma_packets_by_stream<P, Q>(v: DemuxView<Q>, stream: usize, packet: P)
    ensures
        v.video_idx == Some(stream) ==> classified(v, stream, packet) == Some(
            DemuxPacket::Video(packet),
        ),
        v.audio_idx == Some(stream) && v.video_idx != Some(stream) ==> classified(v, stream, packet)
            == Some(DemuxPacket::Audio(packet)),
        v.subtitle_idx == Some(stream) && v.audio_idx != Some(stream) && v.video_idx != Some(stream)
            ==> classified(v, stream, packet) == Some(DemuxPacket::Subtitle(packet)),
        v.video_idx != Some(stream) && v.audio_idx != Some(stream) && v.subtitle_idx != Some(stream)
            ==> classified(v, stream, packet) is None,
{
}

/// A packet is kept as it was read, with its time in microseconds: that of presentation, or of
/// decoding where there is no other. Only a keyframe of the video counts as one.
pub proof fn lemma_packet_is_kept_as_read<P>(
    cache: PacketCache<P>,
    p: ReadPacket<P>,
    stream: usize,
    base: Rational,
)
    ensures
        cache.cached(p, stream, base).packet == p.packet,
        cache.cached(p, stream, base).stream_index == stream,
        cache.cached(p, stream, base).data_size == p.size,
        cache.cached(p, stream, base).is_video_keyframe <==> p.is_key && cache.video_idx == Some(
            stream,
        ),
        p.pts matches Some(t) ==> cache.cached(p, stream, base).pts_us == stamp_us(t as int, base) as i64,
        p.pts is None && (p.dts matches Some(t)) ==> cache.cached(p, stream, base).pts_us == stamp_us(
            p.dts->Some_0 as int,
            base,
        ) as i64,
        p.pts is None && p.dts is None ==> cache.cached(p, stream, base).pts_us == stamp_us(
            0,
            base,
        ) as i64,
{
}

/// What is kept are the newest packets, in their order and within the limit; no packet goes for
/// which there is room.
pub proof fn lemma_newest_packets_are_kept<P>(
    s: Seq<CachedPacket<P>>,
    p: CachedPacket<P>,
    limit: int,
)
    requires
        limit >= 0,
    ensures
        ({
            let all = s.push(p);
            let kept = within_budget(all, limit);
            &&& kept.len() <= all.len()
            &&& forall|k: int|
                0 <= k < kept.len() ==> #[trigger] kept[k] == all[all.len() - kept.len() + k]
            &&& bytes_of(kept) <= limit
            &&& bytes_of(s) + p.data_size <= limit ==> kept == all
        }),
{
    lemma_within_budget(s.push(p), limit);
    lemma_bytes_push(s, p);
}

/// The bytes of packets add up.
pub proof fn lemma_bytes_add_up<P>(s: Seq<CachedPacket<P>>, p: CachedPacket<P>)
    ensures
        bytes_of(Seq::<CachedPacket<P>>::empty()) == 0,
        bytes_of(s.push(p)) == bytes_of(s) + p.data_size,
{
    lemma_bytes_push(s, p);
}

/// A seek in the cache starts at a packet that is there, and with video at a keyframe: back, at the
/// last one at or before the target; forward, at the first at or after it. It misses where the
/// target lies before the first packet or behind the last, and where there is no such keyframe.
pub proof fn lemma_cached_seek_with_video<P>(
    s: Seq<CachedPacket<P>>,
    target_us: int,
    forward: bool,
)
    ensures
        match seek_hit(s, true, target_us, forward) {
            Some(k) => {
                &&& 0 <= k < s.len()
                &&& s[k].is_video_keyframe
                &&& s[0].pts_us <= target_us <= s[s.len() - 1].pts_us
                &&& forward ==> s[k].pts_us >= target_us && forall|j: int|
                    0 <= j < k && (#[trigger] s[j]).is_video_keyframe ==> s[j].pts_us < target_us
                &&& !forward ==> s[k].pts_us <= target_us && forall|j: int|
                    k < j < s.len() && (#[trigger] s[j]).is_video_keyframe ==> s[j].pts_us
                        > target_us
            },
            None => s.len() == 0 || target_us < s[0].pts_us || target_us > s[s.len() - 1].pts_us
                || forall|j: int|
                0 <= j < s.len() && (#[trigger] s[j]).is_video_keyframe ==> if forward {
                    s[j].pts_us < target_us
                } else {
                    s[j].pts_us > target_us
                },
        },
{
    lemma_first_start(s, true, target_us, 0);
    lemma_last_start(s, true, target_us, s.len() as int);
}

/// Without video a seek in the cache starts at the nearest packet on the wanted side of the target.
pub proof fn lemma_cached_seek_without_video<P>(
    s: Seq<CachedPacket<P>>,
    target_us: int,
    forward: bool,
)
    requires
        forall|j: int| 0 <= j < s.len() ==> !(#[trigger] s[j]).is_video_keyframe,
    ensures
        match seek_hit(s, false, target_us, forward) {
            Some(k) => {
                &&& 0 <= k < s.len()
                &&& s[0].pts_us <= target_us <= s[s.len() - 1].pts_us
                &&& forward ==> s[k].pts_us >= target_us && forall|j: int|
                    0 <= j < k ==> (#[trigger] s[j]).pts_us < target_us
                &&& !forward ==> s[k].pts_us <= target_us && forall|j: int|
                    k < j < s.len() ==> (#[trigger] s[j]).pts_us > target_us
            },
            None => s.len() == 0 || target_us < s[0].pts_us || target_us > s[s.len() - 1].pts_us,
        },
{
    lemma_first_start(s, true, target_us, 0);
    lemma_first_start(s, false, target_us, 0);
    lemma_last_start(s, true, target_us, s.len() as int);
    lemma_last_start(s, false, target_us, s.len() as int);
    if s.len() > 0 && s[0].pts_us <= target_us <= s[s.len() - 1].pts_us {
        assert(is_start(s[s.len() - 1], false, target_us, true));
        assert(is_start(s[0], false, target_us, false));
    }
}

/// A seek that is served goes to the target asked for, with a flush for each seek. It is served from
/// the cache, which stays as it is, or by a seek in the file with the cache dropped, since what was
/// kept does not lie before what is read next. The streams stay the same.
pub proof fn lemma_seek_is_served<P>(
    before: DemuxView<P>,
    target_us: i64,
    forward: bool,
    count: int,
    plan: SeekPlan,
    after: DemuxView<P>,
)
    requires
        is_served(before, target_us, forward, count, plan, after),
    ensures
        plan.target_us == target_us,
        plan.forward == forward,
        plan.flushes == count,
        plan.file_seek ==> after.packets.len() == 0 && after.cursor is None && seek_hit(
            before.packets,
            before.video_idx is Some,
            target_us as int,
            forward,
        ) is None,
        !plan.file_seek ==> after.packets == before.packets && after.cursor is Some
            && after.cursor == seek_hit(
            before.packets,
            before.video_idx is Some,
            target_us as int,
            forward,
        ),
        after.video_idx == before.video_idx,
        after.audio_idx == before.audio_idx,
        after.subtitle_idx == before.subtitle_idx,
        after.streams == before.streams,
        after.time_bases == before.time_bases,
        after.max_bytes == before.max_bytes,
{
}

proof fn lemma_seeks_counted(cmds: Seq<DemuxCommand>)
    ensures
        seeks_in(cmds) == cmds.filter(|c: DemuxCommand| c is Seek).len(),
    decreases cmds.len(),
{
    reveal(Seq::filter);
    if cmds.len() > 0 {
        lemma_seeks_counted(cmds.drop_last());
    }
}

proof fn lemma_last_seek_found(cmds: Seq<DemuxCommand>, first: Option<(i64, bool)>)
    ensures
        (last_seek(cmds, first) == first && forall|k: int|
            0 <= k < cmds.len() ==> !((#[trigger] cmds[k]) is Seek)) || exists|k: int|
            0 <= k < cmds.len() && (#[trigger] cmds[k] matches DemuxCommand::Seek {
                target_pts,
                forward,
            } && last_seek(cmds, first) == Some((target_pts, forward))) && forall|j: int|
                k < j < cmds.len() ==> !((#[trigger] cmds[j]) is Seek),
    decreases cmds.len(),
{
    if cmds.len() > 0 {
        let head = cmds.drop_last();
        let n = cmds.len() - 1;
        assert(cmds[n] == cmds.last());
        if !(cmds.last() is Seek) {
            lemma_last_seek_found(head, first);
            if forall|k: int| 0 <= k < head.len() ==> !((#[trigger] head[k]) is Seek) {
                assert forall|k: int| 0 <= k < cmds.len() implies !((#[trigger] cmds[k]) is Seek) by {
                    if k < n {
                        assert(head[k] == cmds[k]);
                    }
                }
                if last_seek(head, first) != first {
                    let k = choose|k: int| 0 <= k < head.len() && (#[trigger] head[k]) is Seek;
                    assert(false);
                }
            } else {
                let k = choose|k: int|
                    0 <= k < head.len() && (#[trigger] head[k] matches DemuxCommand::Seek {
                        target_pts,
                        forward,
                    } && last_seek(head, first) == Some((target_pts, forward))) && forall|j: int|
                        k < j < head.len() ==> !((#[trigger] head[j]) is Seek);
                assert(cmds[k] == head[k]);
                assert forall|j: int| k < j < cmds.len() implies !((#[trigger] cmds[j]) is Seek) by {
                    if j < n {
                        assert(head[j] == cmds[j]);
                    }
                }
            }
        }
    }
}

/// The first stop among commands is found, and none where there is none.
pub proof fn lemma_first_stop(cmds: Seq<DemuxCommand>)
    ensures
        0 <= stop_at(cmds) <= cmds.len(),
        forall|k: int| 0 <= k < stop_at(cmds) ==> !((#[trigger] cmds[k]) is Stop),
        stop_at(cmds) < cmds.len() ==> cmds[stop_at(cmds)] is Stop,
        has_stop(cmds) <==> exists|k: int| 0 <= k < cmds.len() && (#[trigger] cmds[k]) is Stop,
    decreases cmds.len(),
{
    if cmds.len() > 0 {
        let head = cmds.drop_last();
        lemma_first_stop(head);
        assert(forall|k: int| 0 <= k < head.len() ==> head[k] == cmds[k]);
        assert(cmds[cmds.len() - 1] == cmds.last());
    }
}

/// Seeks that arrive together are one: to the target of the last of them, on its side, and with a
/// flush for each. A stop among them ends all.
pub proof fn lemma_seeks_are_coalesced(target_pts: i64, forward: bool, cmds: Seq<DemuxCommand>)
    ensures
        coalesced(target_pts, forward, cmds) is None <==> exists|k: int|
            0 <= k < cmds.len() && (#[trigger] cmds[k]) is Stop,
        coalesced(target_pts, forward, cmds) matches Some((t, f, n)) ==> {
            &&& n == 1 + cmds.filter(|c: DemuxCommand| c is Seek).len()
            &&& (t == target_pts && f == forward && forall|k: int|
                0 <= k < cmds.len() ==> !((#[trigger] cmds[k]) is Seek)) || exists|k: int|
                0 <= k < cmds.len() && #[trigger] cmds[k] == (DemuxCommand::Seek {
                    target_pts: t,
                    forward: f,
                }) && forall|j: int| k < j < cmds.len() ==> !((#[trigger] cmds[j]) is Seek)
        },
{
    lemma_first_stop(cmds);
    lemma_seeks_counted(cmds);
    lemma_last_seek_found(cmds, Some((target_pts, forward)));
}

/// Of audio changes that arrive together the last one counts; the video and the subtitles are as
/// they were. Where there is none, nothing changes.
pub proof fn lemma_last_audio_change_counts<P>(v: DemuxView<P>, cmds: Seq<DemuxCommand>)
    ensures
        with_changes(v, cmds).video_idx == v.video_idx,
        with_changes(v, cmds).subtitle_idx == v.subtitle_idx,
        with_changes(v, cmds).streams == v.streams,
        (with_changes(v, cmds) == v && forall|k: int|
            0 <= k < cmds.len() ==> !((#[trigger] cmds[k]) is ChangeAudio)) || exists|k: int|
            0 <= k < cmds.len() && (#[trigger] cmds[k] matches DemuxCommand::ChangeAudio(stream)
                && with_changes(v, cmds).audio_idx == Some(stream)) && with_changes(
                v,
                cmds,
            ).packets.len() == 0 && forall|j: int|
                k < j < cmds.len() ==> !((#[trigger] cmds[j]) is ChangeAudio),
    decreases cmds.len(),
{
    if cmds.len() > 0 {
        let head = cmds.drop_last();
        let n = cmds.len() - 1;
        assert(cmds[n] == cmds.last());
        lemma_last_audio_change_counts(v, head);
        if !(cmds.last() is ChangeAudio) {
            if forall|k: int| 0 <= k < head.len() ==> !((#[trigger] head[k]) is ChangeAudio) {
                assert forall|k: int| 0 <= k < cmds.len() implies !((
                #[trigger] cmds[k]) is ChangeAudio) by {
                    if k < n {
                        assert(head[k] == cmds[k]);
                    }
                }
                if with_changes(v, head) != v {
                    let k = choose|k: int| 0 <= k < head.len() && (#[trigger] head[k]) is ChangeAudio;
                    assert(false);
                }
            } else {
                let k = choose|k: int|
                    0 <= k < head.len() && (#[trigger] head[k] matches DemuxCommand::ChangeAudio(
                        stream,
                    ) && with_changes(v, head).audio_idx == Some(stream)) && with_changes(
                        v,
                        head,
                    ).packets.len() == 0 && forall|j: int|
                        k < j < head.len() ==> !((#[trigger] head[j]) is ChangeAudio);
                assert(cmds[k] == head[k]);
                assert forall|j: int| k < j < cmds.len() implies !((
                #[trigger] cmds[j]) is ChangeAudio) by {
                    if j < n {
                        assert(head[j] == cmds[j]);
                    }
                }
            }
        }
    }
}

/// Commands that are drained together: a stop or a channel without a sender ends the demuxer.
/// Without any seek it goes on. Otherwise the last seek is served, with the audio stream that was
/// asked for last, and with a flush for each seek.
pub proof fn lemma_drained_commands_are_obeyed<P>(
    before: DemuxView<P>,
    cmds: Seq<DemuxCommand>,
    disconnected: bool,
    action: Action,
    after: DemuxView<P>,
)
    requires
        is_drained(before, cmds, disconnected, action, after),
    ensures
        action is Stop <==> disconnected || exists|k: int|
            0 <= k < cmds.len() && (#[trigger] cmds[k]) is Stop,
        action is Continue ==> forall|k: int|
            0 <= k < cmds.len() ==> !((#[trigger] cmds[k]) is Seek),
        action is Continue ==> after == with_changes(before, cmds),
        action matches Action::Seek(plan) ==> {
            &&& plan.flushes == cmds.filter(|c: DemuxCommand| c is Seek).len()
            &&& exists|k: int|
                0 <= k < cmds.len() && #[trigger] cmds[k] == (DemuxCommand::Seek {
                    target_pts: plan.target_us,
                    forward: plan.forward,
                }) && forall|j: int| k < j < cmds.len() ==> !((#[trigger] cmds[j]) is Seek)
            &&& is_served(
                with_changes(before, cmds),
                plan.target_us,
                plan.forward,
                plan.flushes as int,
                plan,
                after,
            )
        },
{
    lemma_first_stop(cmds);
    lemma_seeks_counted(cmds);
    lemma_last_seek_found(cmds, None);
    if !has_stop(cmds) {
        assert(cmds.take(stop_at(cmds)) =~= cmds);
    }
}

/// A seek that no stop was asked behind is served; a stop leaves everything as it was.
pub proof fn lemma_seek_or_stop<P>(
    before: DemuxView<P>,
    seek: Option<(i64, bool, int)>,
    action: Action,
    after: DemuxView<P>,
)
    requires
        is_applied(before, seek, action, after),
    ensures
        action is Stop <==> seek is None,
        action is Stop ==> after == before,
        action is Stop || action is Seek,
        action matches Action::Seek(plan) ==> seek == Some(
            (plan.target_us, plan.forward, plan.flushes as int),
        ),
{
}

} // verus!
