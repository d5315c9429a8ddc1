//! Decoded audio: buffers of samples, and their accumulation.
//!
//! Small decoded frames are accumulated into larger buffers, of about 8192 samples per channel, so
//! that fewer buffers are handed to the audio output.

use vstd::prelude::*;

use crate::time::{pts_to_us, stamp_us, Rational};

verus! {

/// How many samples per channel are accumulated before a buffer is handed out: 170 milliseconds at
/// 48 kHz.
pub const ACCUM_TARGET: usize = 8192;

/// A decoded audio buffer. Samples are per-channel planes.
#[derive(Debug)]
pub struct AudioBuffer<S> {
    /// The samples of each channel.
    pub planes: Vec<Vec<S>>,
    /// Number of samples per channel.
    pub samples_per_channel: usize,
    /// Number of channels.
    pub channels: u16,
    /// Sample rate.
    pub sample_rate: u32,
    /// Presentation time in microseconds.
    pub pts_us: i64,
}

/// How long `samples` samples last, in whole microseconds.
pub open spec fn samples_last_us(samples: int, sample_rate: int) -> int {
    samples * 1_000_000 / sample_rate
}

impl<S> AudioBuffer<S> {
    /// The time just past the end of this buffer.
    pub open spec fn end(self) -> int {
        self.pts_us + samples_last_us(self.samples_per_channel as int, self.sample_rate as int)
    }

    /// Whether the end can be computed: there is a sample rate, and the numbers fit.
    pub open spec fn has_end(self) -> bool {
        &&& self.sample_rate > 0
        &&& self.samples_per_channel * 1_000_000 <= i64::MAX
        &&& self.end() <= i64::MAX
    }

    /// The time just past the end of this buffer, in microseconds.
    pub fn end_us(&self) -> (r: i64)
        requires
            self.has_end(),
        ensures
            r == self.end(),
    {
        let micros: i64 = self.samples_per_channel as i64 * 1_000_000;
        let rate: i64 = self.sample_rate as i64;
        assert(0 <= micros / rate <= micros) by (nonlinear_arith)
            requires
                micros >= 0,
                rate > 0,
        ;
        self.pts_us + micros / rate
    }

    /// Whether the end can be computed.
    pub fn end_is_known(&self) -> (r: bool)
        ensures
            r == self.has_end(),
    {
        if self.sample_rate == 0 || self.samples_per_channel as u128 * 1_000_000
            > i64::MAX as u128 {
            return false;
        }
        let micros: i64 = self.samples_per_channel as i64 * 1_000_000;
        let rate: i64 = self.sample_rate as i64;
        assert(0 <= micros / rate <= micros) by (nonlinear_arith)
            requires
                micros >= 0,
                rate > 0,
        ;
        self.pts_us as i128 + (micros / rate) as i128 <= i64::MAX as i128
    }
}

/// The samples of each channel.
pub open spec fn plane_rows<S>(planes: Seq<Vec<S>>) -> Seq<Seq<S>> {
    planes.map_values(|p: Vec<S>| p@)
}

/// As many empty planes.
pub open spec fn empty_rows<S>(count: nat) -> Seq<Seq<S>> {
    Seq::new(count, |c: int| Seq::empty())
}

/// Planes with the samples of others behind their own.
pub open spec fn extended<S>(rows: Seq<Seq<S>>, more: Seq<Seq<S>>) -> Seq<Seq<S>> {
    Seq::new(rows.len(), |c: int| rows[c] + more[c])
}

/// A decoded frame: its time stamp in units of its stream, the number of channels, the number of
/// samples it came with, and its samples, none where they could not be converted.
#[derive(Debug)]
pub struct DecodedFrame<S> {
    pub pts: Option<i64>,
    pub channels: usize,
    pub samples: usize,
    pub planes: Option<Vec<Vec<S>>>,
}

impl<S> DecodedFrame<S> {
    /// The number of samples that were converted.
    pub open spec fn converted(self) -> int {
        match self.planes {
            Some(planes) => if planes.len() == 0 {
                0
            } else {
                planes@[0].len() as int
            },
            None => 0,
        }
    }

    /// Whether there is a plane for each channel and all are of one length.
    pub open spec fn wf(self) -> bool {
        self.planes matches Some(planes) ==> {
            &&& planes.len() == self.channels
            &&& forall|c: int|
                0 <= c < planes.len() ==> (#[trigger] planes@[c]).len() == self.converted()
        }
    }

    /// Whether there is anything to accumulate.
    pub open spec fn has_samples(self) -> bool {
        self.samples > 0 && self.channels > 0 && self.planes is Some && self.converted() > 0
    }

    /// The time stamp, zero where there is none.
    pub open spec fn stamp(self) -> int {
        match self.pts {
            Some(pts) => pts as int,
            None => 0,
        }
    }
}

/// What an audio decoder has accumulated.
pub struct Accumulated<S> {
    pub channels: u16,
    pub rows: Seq<Seq<S>>,
    pub pts_us: int,
    pub count: int,
}

/// The part of an audio decoder that accumulates what is decoded.
#[derive(Debug)]
pub struct AudioDecoder<S> {
    pub time_base: Rational,
    pub sample_rate: u32,
    pub channels: u16,
    /// Per-channel accumulation planes.
    pub accum_planes: Vec<Vec<S>>,
    /// Time of the first accumulated sample in microseconds.
    pub accum_pts_us: i64,
    /// Samples per channel accumulated so far.
    pub accum_count: usize,
}

impl<S> View for AudioDecoder<S> {
    type V = Accumulated<S>;

    open spec fn view(&self) -> Accumulated<S> {
        Accumulated {
            channels: self.channels,
            rows: plane_rows(self.accum_planes@),
            pts_us: self.accum_pts_us as int,
            count: self.accum_count as int,
        }
    }
}

/// What is accumulated once a frame was added. A frame of another number of channels than those
/// before it starts its planes anew; the count and the time go on.
pub open spec fn accumulated<S>(
    a: Accumulated<S>,
    frame: DecodedFrame<S>,
    time_base: Rational,
) -> Accumulated<S> {
    let channels = frame.channels as u16;
    if !frame.has_samples() {
        Accumulated { channels, ..a }
    } else {
        let rows = if a.rows.len() == frame.channels {
            a.rows
        } else {
            empty_rows(frame.channels as nat)
        };
        Accumulated {
            channels,
            rows: extended(rows, plane_rows(frame.planes->Some_0@)),
            pts_us: if a.count == 0 {
                stamp_us(frame.stamp(), time_base) as i64 as int
            } else {
                a.pts_us
            },
            count: a.count + frame.converted(),
        }
    }
}

/// Nothing accumulated, in as many planes.
pub open spec fn emptied<S>(a: Accumulated<S>) -> Accumulated<S> {
    Accumulated { rows: empty_rows(a.rows.len()), count: 0, ..a }
}

/// Whether a buffer holds what was accumulated.
pub open spec fn holds<S>(b: AudioBuffer<S>, a: Accumulated<S>, sample_rate: u32) -> bool {
    &&& plane_rows(b.planes@) == a.rows
    &&& b.samples_per_channel == a.count
    &&& b.channels == a.channels
    &&& b.sample_rate == sample_rate
    &&& b.pts_us == a.pts_us
}

/// Whether each plane holds as many samples as were counted.
pub open spec fn is_level<S>(a: Accumulated<S>) -> bool {
    forall|c: int| 0 <= c < a.rows.len() ==> (#[trigger] a.rows[c]).len() == a.count
}

/// Frames of one number of channels keep the planes level, so a buffer has in each plane the number
/// of samples that it states.
pub proof fn lemma_accumulation_stays_level<S>(
    a: Accumulated<S>,
    frame: DecodedFrame<S>,
    time_base: Rational,
)
    requires
        is_level(a),
        frame.wf(),
        frame.has_samples() ==> a.rows.len() == frame.channels || a.count == 0,
    ensures
        is_level(accumulated(a, frame, time_base)),
        is_level(emptied(a)),
{
    let b = accumulated(a, frame, time_base);
    if frame.has_samples() {
        assert forall|c: int| 0 <= c < b.rows.len() implies (#[trigger] b.rows[c]).len()
            == b.count by {
            assert(plane_rows(frame.planes->Some_0@)[c] == frame.planes->Some_0@[c]@);
            if a.rows.len() == frame.channels {
                assert(a.rows[c].len() == a.count);
            }
        }
    }
}

impl<S> AudioDecoder<S> {
    /// A decoder that has accumulated nothing.
    pub fn new(time_base: Rational, sample_rate: u32, channels: u16) -> (r: AudioDecoder<S>)
        ensures
            r@ == (Accumulated::<S> { channels, rows: Seq::empty(), pts_us: 0, count: 0 }),
            r.time_base == time_base,
            r.sample_rate == sample_rate,
            r.channels == channels,
    {
        let r = AudioDecoder {
            time_base,
            sample_rate,
            channels,
            accum_planes: Vec::new(),
            accum_pts_us: 0,
            accum_count: 0,
        };
        assert(r@.rows =~= Seq::empty());
        r
    }

    /// Adds a decoded frame, and hands out a buffer once enough is accumulated.
    pub fn receive_buffer(&mut self, frame: DecodedFrame<S>) -> (r: Option<AudioBuffer<S>>)
        requires
            frame.wf(),
            old(self)@.count + frame.converted() <= usize::MAX,
        ensures
            final(self).time_base == old(self).time_base,
            final(self).sample_rate == old(self).sample_rate,
            ({
                let now = accumulated(old(self)@, frame, old(self).time_base);
                match r {
                    Some(b) => frame.has_samples() && now.count >= ACCUM_TARGET && holds(
                        b,
                        now,
                        old(self).sample_rate,
                    ) && final(self)@ == emptied(now),
                    None => (!frame.has_samples() || now.count < ACCUM_TARGET) && final(self)@
                        == now,
                }
            }),
    {
        let pts: i64 = match frame.pts {
            Some(pts) => pts,
            None => 0,
        };
        let pts_us: i64 = pts_to_us(pts, self.time_base);
        self.channels = frame.channels as u16;
        if frame.samples == 0 || frame.channels == 0 {
            return None;
        }
        let planes = match frame.planes {
            None => {
                return None;
            },
            Some(planes) => planes,
        };
        let added: usize = planes[0].len();
        if added == 0 {
            return None;
        }
        if self.accum_planes.len() != frame.channels {
            self.accum_planes = empty_planes(frame.channels);
            assert(plane_rows(self.accum_planes@).len() == frame.channels);
        }
        if self.accum_count == 0 {
            self.accum_pts_us = pts_us;
        }
        extend_planes(&mut self.accum_planes, planes);
        self.accum_count = self.accum_count + added;
        assert(self@.rows =~= accumulated(old(self)@, frame, old(self).time_base).rows);
        if self.accum_count >= ACCUM_TARGET {
            Some(self.take_accum())
        } else {
            None
        }
    }

    /// Hands out what remains, once the decoder needs more input or has ended.
    pub fn drain_accum(&mut self) -> (r: Option<AudioBuffer<S>>)
        ensures
            final(self).time_base == old(self).time_base,
            final(self).sample_rate == old(self).sample_rate,
            match r {
                Some(b) => old(self)@.count > 0 && holds(b, old(self)@, old(self).sample_rate)
                    && final(self)@ == emptied(old(self)@),
                None => old(self)@.count == 0 && final(self)@ == old(self)@,
            },
    {
        if self.accum_count > 0 {
            Some(self.take_accum())
        } else {
            None
        }
    }

    /// Hands out what is accumulated.
    fn take_accum(&mut self) -> (r: AudioBuffer<S>)
        ensures
            holds(r, old(self)@, old(self).sample_rate),
            final(self)@ == emptied(old(self)@),
            final(self).time_base == old(self).time_base,
            final(self).sample_rate == old(self).sample_rate,
    {
        let mut planes: Vec<Vec<S>> = empty_planes(self.accum_planes.len());
        std::mem::swap(&mut planes, &mut self.accum_planes);
        let count: usize = self.accum_count;
        self.accum_count = 0;
        AudioBuffer {
            planes,
            samples_per_channel: count,
            channels: self.channels,
            sample_rate: self.sample_rate,
            pts_us: self.accum_pts_us,
        }
    }

    /// Discards what is accumulated.
    pub fn flush(&mut self)
        ensures
            final(self)@ == emptied(old(self)@),
            final(self).time_base == old(self).time_base,
            final(self).sample_rate == old(self).sample_rate,
    {
        self.accum_planes = empty_planes(self.accum_planes.len());
        self.accum_count = 0;
    }
}

/// As many empty planes.
fn empty_planes<S>(count: usize) -> (r: Vec<Vec<S>>)
    ensures
        plane_rows(r@) == empty_rows::<S>(count as nat),
{
    let mut r: Vec<Vec<S>> = Vec::new();
    let mut i: usize = 0;
    while i < count
        invariant
            i <= count,
            r.len() == i,
            forall|c: int| 0 <= c < i ==> (#[trigger] r@[c])@ == Seq::<S>::empty(),
        decreases count - i,
    {
        r.push(Vec::new());
        i = i + 1;
    }
    assert(plane_rows(r@) =~= empty_rows::<S>(count as nat));
    r
}

/// Appends the samples of each channel to its plane.
fn extend_planes<S>(planes: &mut Vec<Vec<S>>, more: Vec<Vec<S>>)
    requires
        old(planes).len() == more.len(),
    ensures
        plane_rows(final(planes)@) == extended(plane_rows(old(planes)@), plane_rows(more@)),
{
    let ghost first = plane_rows(planes@);
    let ghost second = plane_rows(more@);
    let mut rest = more;
    let mut c: usize = rest.len();
    while c > 0
        invariant
            c == rest.len(),
            c <= planes.len(),
            planes.len() == first.len(),
            first.len() == second.len(),
            plane_rows(rest@) == second.take(c as int),
            forall|k: int| 0 <= k < c ==> (#[trigger] planes@[k])@ == first[k],
            forall|k: int|
                c <= k < planes.len() ==> (#[trigger] planes@[k])@ == first[k] + second[k],
        decreases c,
    {
        c = c - 1;
        assert(rest@[c as int]@ == plane_rows(rest@)[c as int]);
        match rest.pop() {
            Some(mut plane) => {
                assert(plane_rows(rest@) =~= second.take(c as int));
                let mut own = planes.remove(c);
                own.append(&mut plane);
                planes.insert(c, own);
            },
            None => {},
        }
    }
    assert(plane_rows(planes@) =~= extended(first, second));
}

/// A buffer ends where its samples have lasted, to the microsecond.
pub proof fn lemma_end_of_buffer<S>(b: AudioBuffer<S>)
    requires
        b.sample_rate > 0,
    ensures
        ({
            let us = b.end() - b.pts_us;
            us * b.sample_rate <= b.samples_per_channel * 1_000_000 < (us + 1) * b.sample_rate
        }),
{
    let x = b.samples_per_channel * 1_000_000;
    let r = b.sample_rate as int;
    vstd::arithmetic::div_mod::lemma_fundamental_div_mod(x, r);
    vstd::arithmetic::div_mod::lemma_mod_bound(x, r);
    let q = x / r;
    assert(q * r <= x < (q + 1) * r) by (nonlinear_arith)
        requires
            x == r * q + x % r,
            0 <= x % r < r,
    ;
}

/// Frames of one number of channels are joined in their order: each plane has the samples of its
/// channel behind those it had. The time is that of the first frame.
pub proof fn lemma_frames_are_joined<S>(
    a: Accumulated<S>,
    frame: DecodedFrame<S>,
    time_base: Rational,
    c: int,
)
    requires
        frame.planes is Some,
        frame.samples > 0,
        frame.channels > 0,
        frame.planes.unwrap().len() == frame.channels,
        frame.planes.unwrap()@[0].len() > 0,
        a.rows.len() == frame.channels,
        0 <= c < frame.channels,
    ensures
        accumulated(a, frame, time_base).rows[c] == a.rows[c] + frame.planes.unwrap()@[c]@,
        accumulated(a, frame, time_base).rows.len() == a.rows.len(),
        accumulated(a, frame, time_base).count == a.count + frame.planes.unwrap()@[0].len(),
        a.count > 0 ==> accumulated(a, frame, time_base).pts_us == a.pts_us,
        a.count == 0 ==> accumulated(a, frame, time_base).pts_us == stamp_us(
            match frame.pts {
                Some(t) => t as int,
                None => 0,
            },
            time_base,
        ) as i64,
        frame.channels <= u16::MAX ==> accumulated(a, frame, time_base).channels
            == frame.channels,
{
    assert(plane_rows(frame.planes.unwrap()@)[c] == frame.planes.unwrap()@[c]@);
}

/// A first frame, or one of another number of channels, starts the planes with its own samples.
pub proof fn lemma_first_frame_starts_planes<S>(
    a: Accumulated<S>,
    frame: DecodedFrame<S>,
    time_base: Rational,
    c: int,
)
    requires
        frame.planes is Some,
        frame.samples > 0,
        frame.channels > 0,
        frame.planes.unwrap().len() == frame.channels,
        frame.planes.unwrap()@[0].len() > 0,
        a.rows.len() != frame.channels,
        0 <= c < frame.channels,
    ensures
        accumulated(a, frame, time_base).rows.len() == frame.channels,
        accumulated(a, frame, time_base).rows[c] == frame.planes.unwrap()@[c]@,
{
    assert(plane_rows(frame.planes.unwrap()@)[c] == frame.planes.unwrap()@[c]@);
    assert(accumulated(a, frame, time_base).rows[c] =~= frame.planes.unwrap()@[c]@);
}

/// A frame without samples adds none.
pub proof fn lemma_empty_frame_adds_nothing<S>(
    a: Accumulated<S>,
    frame: DecodedFrame<S>,
    time_base: Rational,
)
    requires
        frame.samples == 0 || frame.channels == 0 || frame.planes is None || (
        frame.planes matches Some(p) && p.len() > 0 && p@[0].len() == 0),
    ensures
        accumulated(a, frame, time_base).rows == a.rows,
        accumulated(a, frame, time_base).count == a.count,
        accumulated(a, frame, time_base).pts_us == a.pts_us,
        !frame.has_samples(),
{
}

/// What is handed out is all that was accumulated, and nothing of it is handed out again.
pub proof fn lemma_handed_out_once<S>(b: AudioBuffer<S>, a: Accumulated<S>, sample_rate: u32)
    requires
        holds(b, a, sample_rate),
    ensures
        b.planes.len() == a.rows.len(),
        forall|c: int| 0 <= c < a.rows.len() ==> (#[trigger] b.planes@[c])@ == a.rows[c],
        b.samples_per_channel == a.count,
        b.pts_us == a.pts_us,
        b.sample_rate == sample_rate,
        b.channels == a.channels,
        emptied(a).count == 0,
        emptied(a).rows.len() == a.rows.len(),
        forall|c: int| 0 <= c < a.rows.len() ==> (#[trigger] emptied(a).rows[c]).len() == 0,
        emptied(a).channels == a.channels,
{
    assert(plane_rows(b.planes@).len() == b.planes.len());
    assert forall|c: int| 0 <= c < a.rows.len() implies (#[trigger] b.planes@[c])@ == a.rows[c] by {
        assert(plane_rows(b.planes@)[c] == b.planes@[c]@);
    }
}

} // verus!
