//! Audio output: the ring buffers between decoding and rendering, and when the unit runs.

use vstd::arithmetic::power2::{lemma2_to64, lemma_pow2_adds, lemma_pow2_pos, pow2};
use vstd::prelude::*;

use crate::bignum::BigNat;
use crate::binary64::{
    from_u64, lemma_product_commutes, lemma_rounded_wf, lemma_small_whole, multiply, product,
    round, rounded, to_i64, truncated, Double,
};
use crate::decode_audio::{plane_rows, AudioBuffer};
use crate::precision::{
    lemma_product_error, lemma_rounding_error, lemma_whole_part_bounds, one,
};

verus! {

/// Ring buffer capacity in samples, about 10.9 seconds at 48 kHz: enough for the burst of decoding
/// after a seek.
pub const RING_CAPACITY: usize = 524288;

/// The smaller of two numbers.
pub open spec fn least(a: int, b: int) -> int {
    if a < b {
        a
    } else {
        b
    }
}

fn lesser(a: usize, b: usize) -> (r: usize)
    ensures
        r == least(a as int, b as int),
{
    if a < b {
        a
    } else {
        b
    }
}

/// A queue with as many of `more` behind it as fit.
pub open spec fn pushed<S>(queue: Seq<S>, more: Seq<S>) -> Seq<S> {
    queue + more.take(least(more.len() as int, RING_CAPACITY - queue.len()))
}

/// How many of `count` samples a queue has.
pub open spec fn served<S>(queue: Seq<S>, count: int) -> int {
    least(count, queue.len() as int)
}

/// What is pushed comes out in the order it was pushed, behind what was there, as far as it fits.
pub proof fn lemma_first_in_first_out<S>(queue: Seq<S>, more: Seq<S>)
    requires
        queue.len() + more.len() <= RING_CAPACITY,
    ensures
        pushed(queue, more) == queue + more,
        pushed(queue, more).take(served(pushed(queue, more), queue.len() as int)) == queue,
        pushed(queue, more).skip(served(pushed(queue, more), queue.len() as int)) == more,
{
    assert(more.take(more.len() as int) =~= more);
    assert((queue + more).take(queue.len() as int) =~= queue);
    assert((queue + more).skip(queue.len() as int) =~= more);
}

/// Where the sample at place `i` of a queue stands in the ring.
spec fn slot(start: int, i: int) -> int {
    (start + i) % (RING_CAPACITY as int)
}

/// A queue of samples in a ring buffer.
#[derive(Debug)]
pub struct SpscRing<S> {
    buf: Vec<S>,
    /// Where the first sample stands.
    start: usize,
    /// How many samples there are.
    count: usize,
}

impl<S> View for SpscRing<S> {
    type V = Seq<S>;

    closed spec fn view(&self) -> Seq<S> {
        Seq::new(self.count as nat, |i: int| self.buf@[slot(self.start as int, i)])
    }
}

impl<S: Copy> SpscRing<S> {
    /// Whether the ring is as large as it should be and the queue lies within.
    pub closed spec fn wf(self) -> bool {
        &&& self.buf.len() == RING_CAPACITY
        &&& self.start < RING_CAPACITY
        &&& self.count <= RING_CAPACITY
    }

    /// An empty ring. `silence` fills it until samples come.
    pub fn new(silence: S) -> (r: SpscRing<S>)
        ensures
            r.wf(),
            r@ == Seq::<S>::empty(),
    {
        let mut buf: Vec<S> = Vec::new();
        while buf.len() < RING_CAPACITY
            invariant
                buf.len() <= RING_CAPACITY,
            decreases RING_CAPACITY - buf.len(),
        {
            buf.push(silence);
        }
        let r = SpscRing { buf, start: 0, count: 0 };
        assert(r@ =~= Seq::empty());
        r
    }

    /// Available space for writing.
    pub fn available_write(&self) -> (r: usize)
        requires
            self.wf(),
        ensures
            r == RING_CAPACITY - self@.len(),
    {
        RING_CAPACITY - self.count
    }

    /// Available samples for reading.
    pub fn available_read(&self) -> (r: usize)
        ensures
            r == self@.len(),
    {
        self.count
    }

    /// Pushes the samples from `offset` on, and says how many were written.
    pub fn push_slice(&mut self, src: &Vec<S>, offset: usize) -> (n: usize)
        requires
            old(self).wf(),
            offset <= src.len(),
        ensures
            final(self).wf(),
            final(self)@ == pushed(old(self)@, src@.skip(offset as int)),
            n == least(src.len() - offset, RING_CAPACITY - old(self)@.len()),
    {
        let n: usize = lesser(src.len() - offset, RING_CAPACITY - self.count);
        let ghost before = self@;
        let ghost more = src@.skip(offset as int);
        let mut i: usize = 0;
        assert(before + more.take(0) =~= self@);
        while i < n
            invariant
                i <= n,
                self.wf(),
                n <= src.len() - offset,
                n <= RING_CAPACITY - before.len(),
                more == src@.skip(offset as int),
                self@ == before + more.take(i as int),
            decreases n - i,
        {
            let at: usize = (self.start + self.count) % RING_CAPACITY;
            let ghost now = self@;
            let ghost start = self.start as int;
            let ghost count = self.count as int;
            self.buf.set(at, src[offset + i]);
            self.count = self.count + 1;
            proof {
                assert(at == slot(start, count));
                assert(now.len() == count && now.len() == before.len() + i);
                assert forall|k: int| 0 <= k < count implies #[trigger] slot(start, k) != at by {
                    lemma_apart(start, k, count);
                }
                assert(self@ =~= now.push(more[i as int]));
                assert(more.take(i + 1) =~= more.take(i as int).push(more[i as int]));
                assert(before + more.take(i + 1) =~= (before + more.take(i as int)).push(
                    more[i as int],
                ));
            }
            i = i + 1;
        }
        n
    }

    /// Takes up to `count` samples off the front.
    pub fn pop(&mut self, count: usize) -> (out: Vec<S>)
        requires
            old(self).wf(),
        ensures
            final(self).wf(),
            out@ == old(self)@.take(served(old(self)@, count as int)),
            final(self)@ == old(self)@.skip(served(old(self)@, count as int)),
    {
        let n: usize = lesser(count, self.count);
        let mut out: Vec<S> = Vec::new();
        let mut i: usize = 0;
        while i < n
            invariant
                i <= n,
                self.wf(),
                n <= self.count,
                out@ == self@.take(i as int),
            decreases n - i,
        {
            let at: usize = (self.start + i) % RING_CAPACITY;
            out.push(self.buf[at]);
            assert(self@.take(i + 1) =~= self@.take(i as int).push(self@[i as int]));
            i = i + 1;
        }
        self.skip(n);
        out
    }

    /// Drops up to `count` samples off the front.
    pub fn skip(&mut self, count: usize)
        requires
            old(self).wf(),
        ensures
            final(self).wf(),
            final(self)@ == old(self)@.skip(served(old(self)@, count as int)),
    {
        let n: usize = lesser(count, self.count);
        let ghost before = self@;
        let ghost start = self.start as int;
        self.start = (self.start + n) % RING_CAPACITY;
        self.count = self.count - n;
        assert(self@ =~= before.skip(n as int)) by {
            assert forall|k: int| 0 <= k < self.count implies self@[k] == before[n + k] by {
                lemma_step(start, n as int, k);
            }
        }
    }

    /// Drops all samples.
    pub fn clear(&mut self)
        requires
            old(self).wf(),
        ensures
            final(self).wf(),
            final(self)@ == Seq::<S>::empty(),
    {
        self.count = 0;
        assert(self@ =~= Seq::empty());
    }
}

/// Two places of a queue lie at two places of the ring.
proof fn lemma_apart(start: int, i: int, j: int)
    requires
        0 <= start < RING_CAPACITY,
        0 <= i < j < RING_CAPACITY,
    ensures
        slot(start, i) != slot(start, j),
{
}

proof fn lemma_step(start: int, n: int, k: int)
    requires
        0 <= start < RING_CAPACITY,
        0 <= n <= RING_CAPACITY,
        0 <= k < RING_CAPACITY,
    ensures
        slot(slot(start, n), k) == slot(start, n + k),
{
}

/// The queues of a list of rings.
pub open spec fn queues<S>(rings: Seq<SpscRing<S>>) -> Seq<Seq<S>> {
    rings.map_values(|r: SpscRing<S>| r@)
}

/// The length of a sample in microseconds, as a double-precision value.
pub open spec fn sample_us(sample_rate: u32) -> Double {
    if sample_rate == 0 {
        Double::Infinite { negative: false }
    } else {
        rounded(false, 1_000_000, sample_rate as int)
    }
}

/// How long samples last in whole microseconds, with the length of one as a double-precision value.
pub open spec fn rendered_us(samples: int, us_per_sample: Double) -> int {
    truncated(product(rounded(false, samples, 1), us_per_sample))
}

/// A sum that wraps around at the ends of the 64-bit range.
pub open spec fn wrapped_sum(a: int, b: int) -> int {
    if a + b > i64::MAX {
        a + b - 0x1_0000_0000_0000_0000
    } else if a + b < i64::MIN {
        a + b + 0x1_0000_0000_0000_0000
    } else {
        a + b
    }
}

/// The state of an audio output.
pub struct OutputState<S> {
    /// The queue of each channel.
    pub queues: Seq<Seq<S>>,
    /// The time of the next sample in microseconds.
    pub read_pts_us: int,
    /// The length of a sample in microseconds.
    pub us_per_sample: Double,
    /// How many samples of each channel are yet to be skipped.
    pub skip: int,
    /// Whether the queues are to be emptied before more is rendered.
    pub flush_pending: bool,
    /// Whether the unit does not run.
    pub stopped: bool,
    /// Whether the unit is not to be started.
    pub paused: bool,
}

/// How many samples the first queue holds.
pub open spec fn first_len<S>(queues: Seq<Seq<S>>) -> int {
    if queues.len() == 0 {
        0
    } else {
        queues[0].len() as int
    }
}

/// Queues without up to `count` samples of each.
pub open spec fn all_skipped<S>(queues: Seq<Seq<S>>, count: int) -> Seq<Seq<S>> {
    Seq::new(queues.len(), |c: int| queues[c].skip(served(queues[c], count)))
}

/// As many empty queues.
pub open spec fn all_empty<S>(queues: Seq<Seq<S>>) -> Seq<Seq<S>> {
    Seq::new(queues.len(), |c: int| Seq::empty())
}

/// The state after a flush, where one is due.
pub open spec fn after_flush<S>(s: OutputState<S>) -> OutputState<S> {
    if s.flush_pending {
        OutputState { queues: all_empty(s.queues), skip: 0, flush_pending: false, ..s }
    } else {
        s
    }
}

/// The state after `count` samples of each channel were passed.
pub open spec fn after_samples<S>(s: OutputState<S>, count: int) -> OutputState<S> {
    OutputState {
        queues: all_skipped(s.queues, count),
        read_pts_us: wrapped_sum(s.read_pts_us, rendered_us(count, s.us_per_sample)),
        ..s
    }
}

/// The state after what can be skipped of what is to be. The rest stays to be skipped.
pub open spec fn after_skip<S>(s: OutputState<S>) -> OutputState<S> {
    let n = least(s.skip, first_len(s.queues));
    if n == 0 {
        s
    } else {
        OutputState { skip: s.skip - n, ..after_samples(s, n) }
    }
}

/// The state in which samples are taken off the queues.
pub open spec fn before_render<S>(s: OutputState<S>) -> OutputState<S> {
    after_skip(after_flush(s))
}

/// The state after `count` samples were rendered, or as many as there are.
pub open spec fn after_render<S>(s: OutputState<S>, count: int) -> OutputState<S> {
    let t = before_render(s);
    let n = least(count, first_len(t.queues));
    if first_len(t.queues) == 0 {
        t
    } else {
        after_samples(t, n)
    }
}

/// A queue's next samples, with silence behind them where there are too few.
pub open spec fn padded<S>(queue: Seq<S>, n: int, count: int, silence: S) -> Seq<S> {
    let taken = served(queue, n);
    queue.take(taken) + Seq::new((count - taken) as nat, |i: int| silence)
}

/// What is rendered for `count` samples of each channel.
pub open spec fn rendered_rows<S>(s: OutputState<S>, count: int, silence: S) -> Seq<Seq<S>> {
    let queues = before_render(s).queues;
    Seq::new(
        queues.len(),
        |c: int| padded(queues[c], least(count, first_len(queues)), count, silence),
    )
}

/// What is rendered: `count` samples of each channel, and the position of playback, none where
/// there was only silence to render.
#[derive(Debug)]
pub struct Rendered<S> {
    pub planes: Vec<Vec<S>>,
    pub clock_us: Option<i64>,
}

/// What became of a buffer.
#[derive(Clone, Copy, Debug, PartialEq, Eq, Structural)]
pub enum Scheduled {
    /// There is no room for it.
    Refused,
    /// It is in the queues; `start` says whether the unit is to be started.
    Taken { start: bool },
}

/// The state once a buffer's time is noted, where there is nothing before it.
pub open spec fn with_buffer_time<S>(s: OutputState<S>, pts_us: i64) -> OutputState<S> {
    if first_len(s.queues) == 0 {
        OutputState { read_pts_us: pts_us as int, ..s }
    } else {
        s
    }
}

/// Queues with the planes of `channels` channels behind them, as far as they fit.
pub open spec fn all_pushed<S>(queues: Seq<Seq<S>>, rows: Seq<Seq<S>>, channels: int) -> Seq<
    Seq<S>,
> {
    Seq::new(
        queues.len(),
        |c: int|
            if c < channels {
                pushed(queues[c], rows[c])
            } else {
                queues[c]
            },
    )
}

/// Whether the unit is to be started once samples are in the queues.
pub open spec fn is_to_start<S>(s: OutputState<S>) -> bool {
    s.stopped && !s.paused
}

/// The state once the unit was started, where it is to be.
pub open spec fn after_start<S>(s: OutputState<S>) -> OutputState<S> {
    OutputState { stopped: s.stopped && s.paused, ..s }
}

/// How much room the first queue has.
pub open spec fn first_room<S>(queues: Seq<Seq<S>>) -> int {
    if queues.len() == 0 {
        0
    } else {
        RING_CAPACITY - queues[0].len()
    }
}

/// What is to be done next with a buffer that is being queued.
#[derive(Clone, Copy, Debug, PartialEq, Eq, Structural)]
pub enum ScheduleStep {
    /// Go on at this sample of this channel.
    On { channel: usize, offset: usize },
    /// Go on there once samples were rendered: the channel's queue is full.
    Wait { channel: usize, offset: usize },
    /// All of the buffer is in the queues; `start` says whether the unit is to be started.
    Done { start: bool },
}

/// How many samples of a channel of a buffer, from `offset` on, its queue takes.
pub open spec fn taken_part<S>(s: OutputState<S>, buf: AudioBuffer<S>, channel: int, offset: int) ->
    int {
    least(buf.planes@[channel].len() - offset, RING_CAPACITY - s.queues[channel].len())
}

/// What follows a step at a place in a buffer: the next channel once all of this one is in its
/// queue, a wait where it is not, and the end behind the last channel.
pub open spec fn next_step<S>(s: OutputState<S>, buf: AudioBuffer<S>, channel: int, offset: int) ->
    ScheduleStep {
    if channel >= buf.channels {
        ScheduleStep::Done { start: is_to_start(s) }
    } else {
        let end = offset + taken_part(s, buf, channel, offset);
        if end == buf.planes@[channel].len() {
            ScheduleStep::On { channel: (channel + 1) as usize, offset: 0 }
        } else {
            ScheduleStep::Wait { channel: channel as usize, offset: end as usize }
        }
    }
}

/// The state after a step at a place in a buffer.
pub open spec fn after_step<S>(s: OutputState<S>, buf: AudioBuffer<S>, channel: int, offset: int) ->
    OutputState<S> {
    if channel >= buf.channels {
        after_start(s)
    } else {
        OutputState {
            queues: s.queues.update(
                channel,
                pushed(s.queues[channel], buf.planes@[channel]@.skip(offset)),
            ),
            ..s
        }
    }
}

/// Whether a buffer has a plane and the output a queue for each channel of it, and this is a place
/// in it: a sample of a channel, the end of one, or the end of all.
pub open spec fn is_place<S>(
    s: OutputState<S>,
    buf: AudioBuffer<S>,
    channel: int,
    offset: int,
) -> bool {
    &&& buf.channels <= s.queues.len()
    &&& buf.channels <= buf.planes.len()
    &&& 0 <= channel
    &&& channel < buf.channels ==> 0 <= offset <= buf.planes@[channel].len()
}

/// What of a channel of a buffer is not in its queue yet, with the buffer queued up to a place.
pub open spec fn yet_to_queue<S>(buf: AudioBuffer<S>, channel: int, offset: int, c: int) -> Seq<S> {
    if c < channel {
        Seq::empty()
    } else if c == channel {
        buf.planes@[c]@.skip(offset)
    } else {
        buf.planes@[c]@
    }
}

/// A step loses, doubles and moves no sample: what is in a queue and what is yet to come behind it
/// are the same before and after. A wait means that the queue is full, and the end that nothing is
/// left to queue.
pub proof fn lemma_step_keeps_samples<S>(
    s: OutputState<S>,
    buf: AudioBuffer<S>,
    channel: int,
    offset: int,
)
    requires
        is_place(s, buf, channel, offset),
        forall|c: int| 0 <= c < s.queues.len() ==> (#[trigger] s.queues[c]).len() <= RING_CAPACITY,
    ensures
        match next_step(s, buf, channel, offset) {
            ScheduleStep::Done { start } => after_step(s, buf, channel, offset).queues == s.queues
                && forall|c: int|
                0 <= c < buf.channels ==> #[trigger] yet_to_queue(buf, channel, offset, c).len()
                    == 0,
            ScheduleStep::On { channel: ch, offset: o } => is_place(
                after_step(s, buf, channel, offset),
                buf,
                ch as int,
                o as int,
            ) && forall|c: int|
                0 <= c < buf.channels ==> (#[trigger] after_step(
                    s,
                    buf,
                    channel,
                    offset,
                ).queues[c]) + yet_to_queue(buf, ch as int, o as int, c) == s.queues[c]
                    + yet_to_queue(buf, channel, offset, c),
            ScheduleStep::Wait { channel: ch, offset: o } => is_place(
                after_step(s, buf, channel, offset),
                buf,
                ch as int,
                o as int,
            ) && ch == channel && after_step(s, buf, channel, offset).queues[channel].len()
                == RING_CAPACITY && forall|c: int|
                0 <= c < buf.channels ==> (#[trigger] after_step(
                    s,
                    buf,
                    channel,
                    offset,
                ).queues[c]) + yet_to_queue(buf, ch as int, o as int, c) == s.queues[c]
                    + yet_to_queue(buf, channel, offset, c),
        },
{
    if channel < buf.channels {
        let after = after_step(s, buf, channel, offset);
        let queue = s.queues[channel];
        let plane = buf.planes@[channel]@;
        let n = taken_part(s, buf, channel, offset);
        assert(queue.len() <= RING_CAPACITY);
        assert(after.queues[channel] == queue + plane.skip(offset).take(n));
        let end = offset + n;
        assert(after.queues[channel] + plane.skip(end) =~= queue + plane.skip(offset));
        let (ch, o) = if end == plane.len() {
            (channel + 1, 0int)
        } else {
            (channel, end)
        };
        assert forall|c: int| 0 <= c < buf.channels implies (#[trigger] after.queues[c])
            + yet_to_queue(buf, ch, o, c) == s.queues[c] + yet_to_queue(buf, channel, offset, c) by {
            if c == channel {
                assert(yet_to_queue(buf, ch, o, c) =~= plane.skip(end));
            } else {
                assert(after.queues[c] == s.queues[c]);
                assert(yet_to_queue(buf, ch, o, c) =~= yet_to_queue(buf, channel, offset, c));
            }
        }
    }
}

/// Whether there is room for all of a buffer, going by the first channel.
pub open spec fn has_room<S>(s: OutputState<S>, buf: AudioBuffer<S>) -> bool {
    buf.samples_per_channel == 0 || buf.samples_per_channel <= first_room(s.queues)
}

/// The state once a buffer is in the queues.
pub open spec fn after_schedule<S>(s: OutputState<S>, buf: AudioBuffer<S>) -> OutputState<S> {
    if buf.samples_per_channel == 0 {
        s
    } else {
        let t = with_buffer_time(s, buf.pts_us);
        after_start(
            OutputState {
                queues: all_pushed(t.queues, plane_rows(buf.planes@), buf.channels as int),
                ..t
            },
        )
    }
}

/// Whether a buffer that is not empty has the planes it states, and the output a queue for each.
pub open spec fn fits<S>(s: OutputState<S>, buf: AudioBuffer<S>) -> bool {
    buf.samples_per_channel == 0 || (buf.channels <= s.queues.len() && buf.channels
        <= buf.planes.len())
}

/// The length of the shortest of the first `count` queues.
pub open spec fn shortest<S>(queues: Seq<Seq<S>>, count: int) -> int
    decreases count,
{
    if count <= 0 {
        0
    } else if count == 1 {
        queues[0].len() as int
    } else {
        least(shortest(queues, count - 1), queues[count - 1].len() as int)
    }
}

/// The part of an audio output that decides: what it is given, what it renders, and when its unit
/// is started and stopped.
#[derive(Debug)]
pub struct AudioOutput<S> {
    rings: Vec<SpscRing<S>>,
    read_pts_us: i64,
    us_per_sample: Double,
    skip_samples: usize,
    flush_pending: bool,
    silence: S,
    stopped: bool,
    paused: bool,
}

impl<S> View for AudioOutput<S> {
    type V = OutputState<S>;

    closed spec fn view(&self) -> OutputState<S> {
        OutputState {
            queues: queues(self.rings@),
            read_pts_us: self.read_pts_us as int,
            us_per_sample: self.us_per_sample,
            skip: self.skip_samples as int,
            flush_pending: self.flush_pending,
            stopped: self.stopped,
            paused: self.paused,
        }
    }
}

impl<S: Copy> AudioOutput<S> {
    /// Whether the rings are well formed.
    pub closed spec fn wf(self) -> bool {
        &&& forall|c: int| 0 <= c < self.rings.len() ==> (#[trigger] self.rings@[c]).wf()
        &&& self.us_per_sample.wf()
    }

    /// What is rendered where there is no sample.
    pub closed spec fn silence(self) -> S {
        self.silence
    }

    /// No queue holds more than there is room for.
    pub proof fn lemma_queues_bounded(&self)
        requires
            self.wf(),
        ensures
            forall|c: int|
                0 <= c < self@.queues.len() ==> (#[trigger] self@.queues[c]).len() <= RING_CAPACITY,
    {
        assert forall|c: int| 0 <= c < self@.queues.len() implies (#[trigger] self@.queues[c]).len()
            <= RING_CAPACITY by {
            assert(self@.queues[c] == self.rings@[c]@);
            assert(self.rings@[c].wf());
        }
    }

    /// An output that does not run yet.
    pub fn new(sample_rate: u32, channels: u16, silence: S) -> (r: AudioOutput<S>)
        ensures
            r.wf(),
            r.silence() == silence,
            r@ == (OutputState {
                queues: Seq::new(channels as nat, |c: int| Seq::<S>::empty()),
                read_pts_us: 0,
                us_per_sample: sample_us(sample_rate),
                skip: 0,
                flush_pending: false,
                stopped: true,
                paused: false,
            }),
    {
        let us_per_sample = if sample_rate == 0 {
            Double::Infinite { negative: false }
        } else {
            round(
                false,
                &BigNat::from_u64(1_000_000),
                &BigNat::from_u64(sample_rate as u64),
            )
        };
        let mut rings: Vec<SpscRing<S>> = Vec::new();
        let mut c: u16 = 0;
        while c < channels
            invariant
                c <= channels,
                rings.len() == c,
                forall|k: int| 0 <= k < c ==> (#[trigger] rings@[k]).wf(),
                forall|k: int| 0 <= k < c ==> (#[trigger] rings@[k])@ == Seq::<S>::empty(),
            decreases channels - c,
        {
            rings.push(SpscRing::new(silence));
            c = c + 1;
        }
        assert(queues(rings@) =~= Seq::new(channels as nat, |c: int| Seq::<S>::empty()));
        AudioOutput {
            rings,
            read_pts_us: 0,
            us_per_sample,
            skip_samples: 0,
            flush_pending: false,
            silence,
            stopped: true,
            paused: false,
        }
    }

    fn first_available(&self) -> (r: usize)
        ensures
            r == first_len(self@.queues),
    {
        if self.rings.len() == 0 {
            0
        } else {
            assert(self@.queues[0] == self.rings@[0]@);
            self.rings[0].available_read()
        }
    }

    /// Drops up to `count` samples of each channel.
    fn skip_all(&mut self, count: usize)
        requires
            old(self).wf(),
        ensures
            final(self).wf(),
            final(self).silence() == old(self).silence(),
            final(self)@ == (OutputState {
                queues: all_skipped(old(self)@.queues, count as int),
                ..old(self)@
            }),
    {
        let ghost first = self@.queues;
        let mut c: usize = 0;
        while c < self.rings.len()
            invariant
                c <= self.rings.len(),
                self.rings.len() == first.len(),
                self.wf(),
                self.silence() == old(self).silence(),
                self@ == (OutputState { queues: self@.queues, ..old(self)@ }),
                forall|k: int|
                    0 <= k < c ==> (#[trigger] self.rings@[k])@ == first[k].skip(
                        served(first[k], count as int),
                    ),
                forall|k: int| c <= k < self.rings.len() ==> (#[trigger] self.rings@[k])@ == first[k],
            decreases self.rings.len() - c,
        {
            let ghost before = self.rings@;
            self.rings[c].skip(count);
            assert(forall|k: int| 0 <= k < before.len() && k != c ==> self.rings@[k] == before[k]);
            c = c + 1;
        }
        assert(self@.queues =~= all_skipped(first, count as int));
    }

    /// Drops all samples of each channel.
    fn clear_all(&mut self)
        requires
            old(self).wf(),
        ensures
            final(self).wf(),
            final(self).silence() == old(self).silence(),
            final(self)@ == (OutputState { queues: all_empty(old(self)@.queues), ..old(self)@ }),
    {
        let ghost first = self@.queues;
        let mut c: usize = 0;
        while c < self.rings.len()
            invariant
                c <= self.rings.len(),
                self.rings.len() == first.len(),
                self.wf(),
                self.silence() == old(self).silence(),
                self@ == (OutputState { queues: self@.queues, ..old(self)@ }),
                forall|k: int| 0 <= k < c ==> (#[trigger] self.rings@[k])@ == Seq::<S>::empty(),
            decreases self.rings.len() - c,
        {
            let ghost before = self.rings@;
            self.rings[c].clear();
            assert(forall|k: int| 0 <= k < before.len() && k != c ==> self.rings@[k] == before[k]);
            c = c + 1;
        }
        assert(self@.queues =~= all_empty(first));
    }

    /// How long samples last in whole microseconds.
    fn duration_us(&self, samples: usize) -> (r: i64)
        requires
            self.wf(),
        ensures
            r == rendered_us(samples as int, self@.us_per_sample),
    {
        to_i64(multiply(from_u64(samples as u64), self.us_per_sample))
    }

    /// Flushes and skips what is due.
    fn settle(&mut self)
        requires
            old(self).wf(),
        ensures
            final(self).wf(),
            final(self).silence() == old(self).silence(),
            final(self)@ == before_render(old(self)@),
    {
        if self.flush_pending {
            self.clear_all();
            self.skip_samples = 0;
            self.flush_pending = false;
        }
        let n: usize = lesser(self.skip_samples, self.first_available());
        if n > 0 {
            let us: i64 = self.duration_us(n);
            self.skip_all(n);
            self.read_pts_us = self.read_pts_us.wrapping_add(us);
            self.skip_samples = self.skip_samples - n;
        }
    }

    /// Renders `count` samples of each channel.
    pub fn render(&mut self, count: usize) -> (r: Rendered<S>)
        requires
            old(self).wf(),
        ensures
            final(self).wf(),
            final(self).silence() == old(self).silence(),
            final(self)@ == after_render(old(self)@, count as int),
            plane_rows(r.planes@) == rendered_rows(
                old(self)@,
                count as int,
                old(self).silence(),
            ),
            match r.clock_us {
                Some(us) => first_len(before_render(old(self)@).queues) > 0 && us
                    == final(self)@.read_pts_us,
                None => first_len(before_render(old(self)@).queues) == 0,
            },
    {
        self.settle();
        let ghost t = self@;
        let available: usize = self.first_available();
        let n: usize = lesser(count, available);
        let us: i64 = self.duration_us(n);
        let mut planes: Vec<Vec<S>> = Vec::new();
        let mut c: usize = 0;
        while c < self.rings.len()
            invariant
                c <= self.rings.len(),
                self.rings.len() == t.queues.len(),
                self.wf(),
                self.silence() == old(self).silence(),
                self@ == (OutputState { queues: self@.queues, ..t }),
                planes.len() == c,
                n <= count,
                forall|k: int|
                    0 <= k < c ==> (#[trigger] planes@[k])@ == padded(
                        t.queues[k],
                        n as int,
                        count as int,
                        self.silence(),
                    ),
                forall|k: int|
                    0 <= k < c ==> (#[trigger] self.rings@[k])@ == t.queues[k].skip(
                        served(t.queues[k], n as int),
                    ),
                forall|k: int|
                    c <= k < self.rings.len() ==> (#[trigger] self.rings@[k])@ == t.queues[k],
            decreases self.rings.len() - c,
        {
            let ghost before = self.rings@;
            let ghost queue = t.queues[c as int];
            assert(before[c as int]@ == queue);
            let mut plane = self.rings[c].pop(n);
            assert(forall|k: int| 0 <= k < before.len() && k != c ==> self.rings@[k] == before[k]);
            let ghost head = plane@;
            while plane.len() < count
                invariant
                    head.len() <= plane.len() <= count,
                    plane@ == head + Seq::new(
                        (plane.len() - head.len()) as nat,
                        |i: int| self.silence(),
                    ),
                decreases count - plane.len(),
            {
                let ghost now = plane@;
                plane.push(self.silence);
                assert(plane@ =~= head + Seq::new(
                    (plane.len() - head.len()) as nat,
                    |i: int| self.silence(),
                ));
            }
            assert(plane@ =~= padded(queue, n as int, count as int, self.silence()));
            planes.push(plane);
            c = c + 1;
        }
        assert(self@.queues =~= all_skipped(t.queues, n as int));
        assert(plane_rows(planes@) =~= rendered_rows(old(self)@, count as int, self.silence()));
        if available == 0 {
            assert(self@.queues =~= t.queues) by {
                assert(n == 0);
                assert forall|k: int| 0 <= k < t.queues.len() implies all_skipped(t.queues, 0)[k]
                    == t.queues[k] by {
                    assert(t.queues[k].skip(0) =~= t.queues[k]);
                }
            }
            return Rendered { planes, clock_us: None };
        }
        self.read_pts_us = self.read_pts_us.wrapping_add(us);
        Rendered { planes, clock_us: Some(self.read_pts_us) }
    }

    /// Notes the time of a buffer that is to be queued; says whether there is anything to queue.
    pub fn begin_schedule(&mut self, buf: &AudioBuffer<S>) -> (r: bool)
        requires
            old(self).wf(),
        ensures
            final(self).wf(),
            final(self).silence() == old(self).silence(),
            r == (buf.samples_per_channel > 0),
            final(self)@ == if r {
                with_buffer_time(old(self)@, buf.pts_us)
            } else {
                old(self)@
            },
    {
        if buf.samples_per_channel == 0 {
            return false;
        }
        if self.first_available() == 0 {
            self.read_pts_us = buf.pts_us;
        }
        true
    }

    /// Queues what fits of a channel of a buffer, from `offset` on, and says how much that was.
    pub fn schedule_part(&mut self, buf: &AudioBuffer<S>, channel: usize, offset: usize) -> (n:
        usize)
        requires
            old(self).wf(),
            channel < old(self)@.queues.len(),
            channel < buf.planes.len(),
            offset <= buf.planes@[channel as int].len(),
        ensures
            final(self).wf(),
            final(self).silence() == old(self).silence(),
            n == least(
                buf.planes@[channel as int].len() - offset,
                RING_CAPACITY - old(self)@.queues[channel as int].len(),
            ),
            final(self)@ == (OutputState {
                queues: old(self)@.queues.update(
                    channel as int,
                    pushed(
                        old(self)@.queues[channel as int],
                        buf.planes@[channel as int]@.skip(offset as int),
                    ),
                ),
                ..old(self)@
            }),
    {
        let ghost before = self.rings@;
        assert(self@.queues[channel as int] == before[channel as int]@);
        let n: usize = self.rings[channel].push_slice(&buf.planes[channel], offset);
        assert(forall|k: int| 0 <= k < before.len() && k != channel ==> self.rings@[k] == before[k]);
        assert(self@.queues =~= old(self)@.queues.update(
            channel as int,
            self.rings@[channel as int]@,
        ));
        n
    }

    /// Says whether the unit is to be started, samples being in the queues.
    pub fn end_schedule(&mut self) -> (start: bool)
        requires
            old(self).wf(),
        ensures
            final(self).wf(),
            final(self).silence() == old(self).silence(),
            start == is_to_start(old(self)@),
            final(self)@ == after_start(old(self)@),
    {
        if self.stopped && !self.paused {
            self.stopped = false;
            true
        } else {
            false
        }
    }

    /// Queues what fits of a buffer at a place in it, and says where to go on. From the start of the
    /// first channel on, the steps queue every channel in turn, and start the unit after the last.
    pub fn schedule_step(&mut self, buf: &AudioBuffer<S>, channel: usize, offset: usize) -> (r:
        ScheduleStep)
        requires
            old(self).wf(),
            is_place(old(self)@, *buf, channel as int, offset as int),
        ensures
            final(self).wf(),
            final(self).silence() == old(self).silence(),
            r == next_step(old(self)@, *buf, channel as int, offset as int),
            final(self)@ == after_step(old(self)@, *buf, channel as int, offset as int),
    {
        if channel >= buf.channels as usize {
            return ScheduleStep::Done { start: self.end_schedule() };
        }
        proof {
            assert(self@.queues[channel as int] == self.rings@[channel as int]@);
        }
        let end: usize = offset + self.schedule_part(buf, channel, offset);
        if end == buf.planes[channel].len() {
            ScheduleStep::On { channel: channel + 1, offset: 0 }
        } else {
            ScheduleStep::Wait { channel, offset: end }
        }
    }

    /// How much room the first channel has.
    pub fn room(&self) -> (r: usize)
        requires
            self.wf(),
        ensures
            r == first_room(self@.queues),
    {
        if self.rings.len() == 0 {
            0
        } else {
            assert(self@.queues[0] == self.rings@[0]@);
            self.rings[0].available_write()
        }
    }

    /// Whether a buffer that is not empty has the planes it states, and the output a queue for each.
    pub fn can_hold(&self, buf: &AudioBuffer<S>) -> (r: bool)
        ensures
            r == fits(self@, *buf),
    {
        let channels: usize = buf.channels as usize;
        buf.samples_per_channel == 0 || (channels <= self.rings.len() && channels
            <= buf.planes.len())
    }

    /// Whether there is room for all of a buffer.
    pub fn has_room_for(&self, buf: &AudioBuffer<S>) -> (r: bool)
        requires
            self.wf(),
        ensures
            r == has_room(self@, *buf),
    {
        buf.samples_per_channel == 0 || buf.samples_per_channel <= self.room()
    }

    /// Queues a buffer if there is room for all of it.
    pub fn try_schedule_buffer(&mut self, buf: &AudioBuffer<S>) -> (r: Scheduled)
        requires
            old(self).wf(),
            has_room(old(self)@, *buf) ==> fits(old(self)@, *buf),
        ensures
            final(self).wf(),
            final(self).silence() == old(self).silence(),
            r == if has_room(old(self)@, *buf) {
                Scheduled::Taken {
                    start: buf.samples_per_channel > 0 && is_to_start(old(self)@),
                }
            } else {
                Scheduled::Refused
            },
            final(self)@ == if has_room(old(self)@, *buf) {
                after_schedule(old(self)@, *buf)
            } else {
                old(self)@
            },
    {
        if buf.samples_per_channel == 0 {
            return Scheduled::Taken { start: false };
        }
        if !self.has_room_for(buf) {
            return Scheduled::Refused;
        }
        let _ = self.begin_schedule(buf);
        let ghost t = self@;
        let ghost rows = plane_rows(buf.planes@);
        let channels: usize = buf.channels as usize;
        let mut c: usize = 0;
        assert(t.queues =~= all_pushed(t.queues, rows, 0));
        while c < channels
            invariant
                c <= channels,
                channels == buf.channels,
                channels <= t.queues.len(),
                channels <= buf.planes.len(),
                rows == plane_rows(buf.planes@),
                self.wf(),
                self.silence() == old(self).silence(),
                self@ == (OutputState { queues: all_pushed(t.queues, rows, c as int), ..t }),
            decreases channels - c,
        {
            let ghost before = self@.queues;
            let _ = self.schedule_part(buf, c, 0);
            assert(buf.planes@[c as int]@.skip(0) =~= rows[c as int]);
            assert(self@.queues =~= all_pushed(t.queues, rows, c + 1));
            c = c + 1;
        }
        let start: bool = self.end_schedule();
        Scheduled::Taken { start }
    }

    /// Pauses; says whether the unit is to be stopped.
    pub fn pause(&mut self) -> (stop: bool)
        requires
            old(self).wf(),
        ensures
            final(self).wf(),
            final(self).silence() == old(self).silence(),
            stop == !old(self)@.stopped,
            final(self)@ == (OutputState { stopped: true, paused: true, ..old(self)@ }),
    {
        let stop: bool = !self.stopped;
        self.stopped = true;
        self.paused = true;
        stop
    }

    /// Resumes; says whether the unit is to be started, which it is only with samples to render.
    pub fn play(&mut self) -> (start: bool)
        requires
            old(self).wf(),
        ensures
            final(self).wf(),
            final(self).silence() == old(self).silence(),
            start == (old(self)@.stopped && first_len(old(self)@.queues) > 0),
            final(self)@ == (OutputState {
                stopped: old(self)@.stopped && !start,
                paused: false,
                ..old(self)@
            }),
    {
        self.paused = false;
        if self.stopped && self.first_available() > 0 {
            self.stopped = false;
            true
        } else {
            false
        }
    }

    /// Stops; says whether the unit is to be stopped.
    pub fn stop(&mut self) -> (stop: bool)
        requires
            old(self).wf(),
        ensures
            final(self).wf(),
            final(self).silence() == old(self).silence(),
            stop == !old(self)@.stopped,
            final(self)@ == (OutputState { stopped: true, ..old(self)@ }),
    {
        let stop: bool = !self.stopped;
        self.stopped = true;
        stop
    }

    /// Stops and empties the queues; says whether the unit is to be stopped.
    pub fn flush(&mut self) -> (stop: bool)
        requires
            old(self).wf(),
        ensures
            final(self).wf(),
            final(self).silence() == old(self).silence(),
            stop == !old(self)@.stopped,
            final(self)@ == (OutputState {
                stopped: true,
                queues: all_empty(old(self)@.queues),
                ..old(self)@
            }),
    {
        let stop: bool = !self.stopped;
        self.stopped = true;
        self.clear_all();
        stop
    }

    /// Asks for `samples` more samples of each channel to be skipped before more is rendered. The
    /// count wraps around.
    pub fn request_skip(&mut self, samples: usize)
        requires
            old(self).wf(),
        ensures
            final(self).wf(),
            final(self).silence() == old(self).silence(),
            final(self)@ == (OutputState {
                skip: if old(self)@.skip + samples > usize::MAX {
                    old(self)@.skip + samples - (usize::MAX + 1)
                } else {
                    old(self)@.skip + samples
                },
                ..old(self)@
            }),
    {
        self.skip_samples = self.skip_samples.wrapping_add(samples);
    }

    /// How many samples of each channel are queued and not to be skipped.
    pub fn buffered_samples(&self) -> (r: usize)
        requires
            self.wf(),
        ensures
            ({
                let queued = shortest(self@.queues, self@.queues.len() as int);
                r == if queued > self@.skip {
                    queued - self@.skip
                } else {
                    0
                }
            }),
    {
        if self.rings.len() == 0 {
            return 0;
        }
        assert(self@.queues[0] == self.rings@[0]@);
        let mut queued: usize = self.rings[0].available_read();
        let mut c: usize = 1;
        while c < self.rings.len()
            invariant
                1 <= c <= self.rings.len(),
                queued == shortest(self@.queues, c as int),
            decreases self.rings.len() - c,
        {
            assert(self@.queues[c as int] == self.rings@[c as int]@);
            queued = lesser(queued, self.rings[c].available_read());
            c = c + 1;
        }
        if queued > self.skip_samples {
            queued - self.skip_samples
        } else {
            0
        }
    }

    /// Sets the time of the next sample.
    pub fn set_clock_position(&mut self, pts_us: i64)
        requires
            old(self).wf(),
        ensures
            final(self).wf(),
            final(self).silence() == old(self).silence(),
            final(self)@ == (OutputState { read_pts_us: pts_us as int, ..old(self)@ }),
    {
        self.read_pts_us = pts_us;
    }

    /// Asks for the queues to be emptied before more is rendered.
    pub fn flush_quick(&mut self)
        requires
            old(self).wf(),
        ensures
            final(self).wf(),
            final(self).silence() == old(self).silence(),
            final(self)@ == (OutputState { flush_pending: true, ..old(self)@ }),
    {
        self.flush_pending = true;
    }
}

/// What is rendered are the samples of each queue, in their order and each once, with silence behind
/// them where there are too few; what was not rendered stays in the queue.
pub proof fn lemma_rendered_in_order<S>(s: OutputState<S>, count: int, silence: S, c: int)
    requires
        !s.flush_pending,
        s.skip == 0,
        count >= 0,
        0 <= c < s.queues.len(),
        s.queues[c].len() == s.queues[0].len(),
    ensures
        rendered_rows(s, count, silence).len() == s.queues.len(),
        after_render(s, count).queues.len() == s.queues.len(),
        ({
            let row = rendered_rows(s, count, silence)[c];
            let queue = s.queues[c];
            let rest = after_render(s, count).queues[c];
            &&& row.len() == count
            &&& count <= queue.len() ==> row + rest == queue
            &&& count > queue.len() ==> rest.len() == 0 && row.take(queue.len() as int) == queue
                && forall|k: int| queue.len() <= k < count ==> #[trigger] row[k] == silence
        }),
{
    let queue = s.queues[c];
    let row = rendered_rows(s, count, silence)[c];
    let rest = after_render(s, count).queues[c];
    let n = least(count, queue.len() as int);
    assert(rest =~= queue.skip(n));
    if count <= queue.len() {
        assert(row + rest =~= queue);
    } else {
        assert(row.take(queue.len() as int) =~= queue);
    }
}

/// A flush that was asked for drops all that is queued before anything is rendered: there is only
/// silence until more is queued, and nothing is left to skip.
pub proof fn lemma_flush_silences<S>(s: OutputState<S>, count: int, silence: S, c: int)
    requires
        s.flush_pending,
        count >= 0,
        0 <= c < s.queues.len(),
    ensures
        after_render(s, count).queues[c].len() == 0,
        !after_render(s, count).flush_pending,
        after_render(s, count).skip == 0,
        after_render(s, count).read_pts_us == s.read_pts_us,
        rendered_rows(s, count, silence)[c].len() == count,
        forall|k: int|
            0 <= k < count ==> #[trigger] rendered_rows(s, count, silence)[c][k] == silence,
        first_len(before_render(s).queues) == 0,
{
    assert(after_flush(s).queues[0].len() == 0);
    assert(before_render(s).queues[c].len() == 0);
}

/// Samples that are to be skipped are passed over before anything is rendered, and what could not be
/// passed over yet stays to be.
pub proof fn lemma_skip_passes_over<S>(s: OutputState<S>, count: int, silence: S, c: int)
    requires
        !s.flush_pending,
        count >= 0,
        s.skip >= 0,
        0 <= c < s.queues.len(),
        s.queues[c].len() == s.queues[0].len(),
    ensures
        s.skip <= s.queues[0].len() ==> before_render(s).queues[c] == s.queues[c].skip(s.skip)
            && before_render(s).skip == 0,
        s.skip > s.queues[0].len() ==> before_render(s).queues[c].len() == 0
            && before_render(s).skip == s.skip - s.queues[0].len(),
        forall|k: int|
            0 <= k < count && s.skip + k < s.queues[c].len() ==> #[trigger] rendered_rows(
                s,
                count,
                silence,
            )[c][k] == s.queues[c][s.skip + k],
{
    assert(s.queues[c].skip(0) =~= s.queues[c]);
    let t = before_render(s);
    let queue = s.queues[c];
    let n = least(s.skip, queue.len() as int);
    assert(t.queues[c] =~= queue.skip(n));
    if s.queues[0].len() > 0 || c == 0 {
        assert(t.queues[0] =~= s.queues[0].skip(n)) by {
            assert(s.queues[0].skip(0) =~= s.queues[0]);
        }
    }
}

/// The time of the next sample moves on by what was rendered and skipped.
pub proof fn lemma_time_moves_with_samples<S>(s: OutputState<S>, count: int)
    requires
        !s.flush_pending,
        s.skip == 0,
        0 <= count <= first_len(s.queues),
        first_len(s.queues) > 0,
        i64::MIN <= s.read_pts_us + rendered_us(count, s.us_per_sample) <= i64::MAX,
    ensures
        after_render(s, count).read_pts_us == s.read_pts_us + rendered_us(count, s.us_per_sample),
{
}

/// A buffer for which there is room is queued whole behind what is there, channel by channel. The
/// first samples in empty queues set the time, and the unit starts unless playback is paused.
pub proof fn lemma_buffer_is_queued<S>(s: OutputState<S>, buf: AudioBuffer<S>, c: int)
    requires
        has_room(s, buf),
        buf.samples_per_channel > 0,
        0 <= c < buf.channels <= s.queues.len(),
        buf.channels <= buf.planes.len(),
        buf.planes@[c].len() == buf.samples_per_channel,
        s.queues[c].len() == s.queues[0].len(),
    ensures
        after_schedule(s, buf).queues[c] == s.queues[c] + buf.planes@[c]@,
        after_schedule(s, buf).queues.len() == s.queues.len(),
        s.queues[0].len() == 0 ==> after_schedule(s, buf).read_pts_us == buf.pts_us,
        s.queues[0].len() > 0 ==> after_schedule(s, buf).read_pts_us == s.read_pts_us,
        !s.paused ==> !after_schedule(s, buf).stopped,
        s.paused ==> after_schedule(s, buf).stopped == s.stopped,
        after_schedule(s, buf).paused == s.paused,
        after_schedule(s, buf).skip == s.skip,
        after_schedule(s, buf).flush_pending == s.flush_pending,
        after_schedule(s, buf).us_per_sample == s.us_per_sample,
        is_to_start(s) <==> s.stopped && !s.paused,
{
    assert(plane_rows(buf.planes@)[c] == buf.planes@[c]@);
    assert(buf.planes@[c]@.take(buf.planes@[c]@.len() as int) =~= buf.planes@[c]@);
}

/// Whether there is room is told by the first queue, and an empty buffer always has room.
pub proof fn lemma_room<S>(s: OutputState<S>, buf: AudioBuffer<S>)
    ensures
        buf.samples_per_channel == 0 ==> has_room(s, buf),
        buf.samples_per_channel > 0 && s.queues.len() > 0 ==> (has_room(s, buf) <==>
            s.queues[0].len() + buf.samples_per_channel <= 524288),
        buf.samples_per_channel > 0 && s.queues.len() == 0 ==> !has_room(s, buf),
        buf.samples_per_channel > 0 ==> (fits(s, buf) <==> buf.channels <= s.queues.len()
            && buf.channels <= buf.planes.len()),
{
}

/// What is queued and can be rendered in all channels is as much as the shortest queue holds.
pub proof fn lemma_shortest_queue<S>(queues: Seq<Seq<S>>, count: int)
    requires
        0 < count <= queues.len(),
    ensures
        forall|c: int| 0 <= c < count ==> shortest(queues, count) <= (#[trigger] queues[c]).len(),
        exists|c: int| 0 <= c < count && shortest(queues, count) == (#[trigger] queues[c]).len(),
    decreases count,
{
    if count == 1 {
        assert(shortest(queues, 1) == queues[0].len());
    } else {
        lemma_shortest_queue(queues, count - 1);
        let k = choose|c: int|
            0 <= c < count - 1 && shortest(queues, count - 1) == (#[trigger] queues[c]).len();
        assert(shortest(queues, count) == queues[k].len() || shortest(queues, count) == queues[count
            - 1].len());
    }
}

/// Emptied queues are as many as before, and empty.
pub proof fn lemma_all_empty<S>(queues: Seq<Seq<S>>)
    ensures
        all_empty(queues).len() == queues.len(),
        forall|c: int| 0 <= c < queues.len() ==> (#[trigger] all_empty(queues)[c]).len() == 0,
{
}

/// What is pushed stands behind what is there, as much of it as there is room for.
pub proof fn lemma_pushed<S>(queue: Seq<S>, more: Seq<S>)
    requires
        queue.len() <= 524288,
    ensures
        queue.len() + more.len() <= 524288 ==> pushed(queue, more) == queue + more,
        queue.len() + more.len() > 524288 ==> pushed(queue, more).len() == 524288,
        pushed(queue, more).take(queue.len() as int) == queue,
        forall|k: int|
            queue.len() <= k < pushed(queue, more).len() ==> #[trigger] pushed(queue, more)[k]
                == more[k - queue.len()],
{
    assert(more.take(more.len() as int) =~= more);
    assert(pushed(queue, more).take(queue.len() as int) =~= queue);
}

/// As many samples are taken as were asked for, or all where there are fewer.
pub proof fn lemma_served<S>(queue: Seq<S>, count: int)
    ensures
        count <= queue.len() ==> served(queue, count) == count,
        count > queue.len() ==> served(queue, count) == queue.len(),
{
}

/// Samples last as long as their rate says, to the microsecond.
pub proof fn lemma_samples_last(samples: int, sample_rate: u32)
    requires
        sample_rate > 0,
        0 <= samples <= 524288,
    ensures
        ({
            let us = rendered_us(samples, sample_us(sample_rate));
            (us - 1) * sample_rate < samples * 1_000_000 < (us + 2) * sample_rate
        }),
{
    lemma2_to64();
    let r = sample_rate as int;
    let b = pow2(1041) as int;
    lemma_pow2_pos(1041);
    lemma_pow2_adds(32, 1);
    assert(pow2(33) == 0x2_0000_0000);
    lemma_pow2_adds(1041, 33);
    assert(one() == 0x2_0000_0000 * b);
    assert(1_000_000 < r * 0x10_0000) by (nonlinear_arith)
        requires
            r >= 1,
    ;
    let per = rounded(false, 1_000_000, r);
    let u = lemma_rounding_error(false, 1_000_000, r, 20);
    let n = rounded(false, samples, 1);
    lemma_small_whole(samples);
    lemma_rounded_wf(false, samples, 1);
    assert(u < 0x10_0001 * one()) by (nonlinear_arith)
        requires
            2 * (u * r - 1_000_000 * one()) <= r * b,
            1_000_000 < r * 0x10_0000,
            one() == 0x2_0000_0000 * b,
            r >= 1,
            b > 0,
    ;
    lemma_pow2_adds(32, 8);
    assert(pow2(40) == 0x100_0000_0000);
    assert(u * samples < pow2(40) * one()) by (nonlinear_arith)
        requires
            u < 0x10_0001 * one(),
            u >= 0,
            0 <= samples <= 524288,
            pow2(40) == 0x100_0000_0000,
            one() > 0,
    ;
    lemma_product_commutes(n, per);
    let w = lemma_product_error(per, n, false, u, samples, 40);
    lemma_pow2_adds(1041, 20);
    assert(pow2(1061) == 0x10_0000 * b);
    lemma_whole_part_bounds(product(per, n), w);
    let us = rendered_us(samples, sample_us(sample_rate));
    let x = samples * 1_000_000;
    assert((us - 1) * r < x < (us + 2) * r) by (nonlinear_arith)
        requires
            us * one() <= w < (us + 1) * one(),
            2 * (w - u * samples) <= 0x10_0000 * b,
            2 * (u * samples - w) <= 0x10_0000 * b,
            2 * (u * r - 1_000_000 * one()) <= r * b,
            2 * (1_000_000 * one() - u * r) <= r * b,
            x == samples * 1_000_000,
            one() == 0x2_0000_0000 * b,
            0 <= samples <= 524288,
            r >= 1,
            b > 0,
    ;
}

} // verus!
