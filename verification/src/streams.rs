//! The streams of a media file.

use vstd::prelude::*;

use crate::cmd::optional;
use crate::text::{append, numeral, push_numeral, texts};
use crate::time::{format_time, time_text};

verus! {

/// Metadata about the streams of a file.
#[derive(Debug, Clone)]
pub struct StreamInfo {
    pub video_stream: Option<VideoStreamInfo>,
    pub audio_streams: Vec<AudioStreamInfo>,
    pub subtitle_streams: Vec<SubtitleStreamInfo>,
    pub duration_us: i64,
    /// Container-level metadata (title, artist, album and so on).
    pub metadata: Vec<(String, String)>,
}

#[derive(Debug, Clone)]
pub struct VideoStreamInfo {
    pub index: usize,
    pub width: u32,
    pub height: u32,
    pub codec_name: String,
}

#[derive(Debug, Clone)]
pub struct AudioStreamInfo {
    pub index: usize,
    pub codec_name: String,
    pub sample_rate: u32,
    pub channel_layout_desc: String,
}

#[derive(Debug, Clone)]
pub struct SubtitleStreamInfo {
    pub index: usize,
    pub codec_name: String,
    pub language: Option<String>,
}

/// A video stream, over texts.
pub struct VideoModel {
    pub index: usize,
    pub width: u32,
    pub height: u32,
    pub codec_name: Seq<char>,
}

/// An audio stream, over texts.
pub struct AudioModel {
    pub index: usize,
    pub codec_name: Seq<char>,
    pub sample_rate: u32,
    pub layout: Seq<char>,
}

/// A subtitle stream, over texts.
pub struct SubtitleModel {
    pub index: usize,
    pub codec_name: Seq<char>,
    pub language: Option<Seq<char>>,
}

/// The streams of a file, over texts.
pub struct StreamsModel {
    pub video: Option<VideoModel>,
    pub audio: Seq<AudioModel>,
    pub subtitles: Seq<SubtitleModel>,
    pub duration_us: int,
    pub metadata: Seq<(Seq<char>, Seq<char>)>,
}

impl View for VideoStreamInfo {
    type V = VideoModel;

    open spec fn view(&self) -> VideoModel {
        VideoModel {
            index: self.index,
            width: self.width,
            height: self.height,
            codec_name: self.codec_name@,
        }
    }
}

impl View for AudioStreamInfo {
    type V = AudioModel;

    open spec fn view(&self) -> AudioModel {
        AudioModel {
            index: self.index,
            codec_name: self.codec_name@,
            sample_rate: self.sample_rate,
            layout: self.channel_layout_desc@,
        }
    }
}

impl View for SubtitleStreamInfo {
    type V = SubtitleModel;

    open spec fn view(&self) -> SubtitleModel {
        SubtitleModel {
            index: self.index,
            codec_name: self.codec_name@,
            language: optional(self.language),
        }
    }
}

/// The texts of a list of pairs.
pub open spec fn pairs(v: Seq<(String, String)>) -> Seq<(Seq<char>, Seq<char>)> {
    v.map_values(|p: (String, String)| (p.0@, p.1@))
}

/// A list of audio streams, over texts.
pub open spec fn audio_models(v: Seq<AudioStreamInfo>) -> Seq<AudioModel> {
    v.map_values(|a: AudioStreamInfo| a@)
}

/// A list of subtitle streams, over texts.
pub open spec fn subtitle_models(v: Seq<SubtitleStreamInfo>) -> Seq<SubtitleModel> {
    v.map_values(|s: SubtitleStreamInfo| s@)
}

impl View for StreamInfo {
    type V = StreamsModel;

    open spec fn view(&self) -> StreamsModel {
        StreamsModel {
            video: match self.video_stream {
                Some(v) => Some(v@),
                None => None,
            },
            audio: audio_models(self.audio_streams@),
            subtitles: subtitle_models(self.subtitle_streams@),
            duration_us: self.duration_us as int,
            metadata: pairs(self.metadata@),
        }
    }
}

/// What a stream carries.
#[derive(Clone, Copy, Debug, PartialEq, Eq, Structural)]
pub enum Medium {
    Video,
    Audio,
    Subtitle,
    Other,
}

/// A stream as a container describes it. What depends on its codec is missing where the codec
/// could not be set up.
#[derive(Debug, Clone)]
pub struct RawStream {
    pub index: usize,
    pub medium: Medium,
    /// Whether the stream is a picture attached to the file, such as a cover.
    pub attached_picture: bool,
    /// Whether the stream is marked as the default of its kind.
    pub is_default: bool,
    pub codec_name: Option<String>,
    /// Width and height.
    pub video_size: Option<(u32, u32)>,
    /// Sample rate and number of channels.
    pub audio_format: Option<(u32, u16)>,
    pub language: Option<String>,
}

impl RawStream {
    /// Whether the stream may be the one that is shown.
    pub open spec fn is_showable(self) -> bool {
        self.medium == Medium::Video && !self.attached_picture
    }

    /// The name of the codec, `unknown` where there is none.
    pub open spec fn codec(self) -> Seq<char> {
        match self.codec_name {
            Some(name) => name@,
            None => "unknown"@,
        }
    }

    /// Width and height, zero where they are not known.
    pub open spec fn size(self) -> (u32, u32) {
        match self.video_size {
            Some(size) => size,
            None => (0, 0),
        }
    }

    /// The number of pixels.
    pub open spec fn pixels(self) -> int {
        self.size().0 * self.size().1
    }

    /// Sample rate and number of channels, zero where they are not known.
    pub open spec fn format(self) -> (u32, u16) {
        match self.audio_format {
            Some(format) => format,
            None => (0, 0),
        }
    }

    /// The stream as a video stream.
    pub open spec fn video(self) -> VideoModel {
        VideoModel {
            index: self.index,
            width: self.size().0,
            height: self.size().1,
            codec_name: self.codec(),
        }
    }

    /// The stream as an audio stream.
    pub open spec fn audio(self) -> AudioModel {
        AudioModel {
            index: self.index,
            codec_name: self.codec(),
            sample_rate: self.format().0,
            layout: numeral(self.format().1 as nat) + "ch"@,
        }
    }

    /// The stream as a subtitle stream.
    pub open spec fn subtitle(self) -> SubtitleModel {
        SubtitleModel {
            index: self.index,
            codec_name: self.codec(),
            language: optional(self.language),
        }
    }
}

/// Whether a stream is to be shown no more than another: one that is marked as the default comes
/// first, then the one with more pixels.
pub open spec fn no_better(a: RawStream, b: RawStream) -> bool {
    if a.is_default == b.is_default {
        a.pixels() <= b.pixels()
    } else {
        b.is_default
    }
}

/// The video stream to show among the first `count`: the best one, the last of equals.
pub open spec fn best_video(streams: Seq<RawStream>, count: int) -> Option<int>
    decreases count,
{
    if count <= 0 {
        None
    } else {
        let best = best_video(streams, count - 1);
        if streams[count - 1].is_showable() && (best matches Some(i) ==> no_better(
            streams[i],
            streams[count - 1],
        )) {
            Some(count - 1)
        } else {
            best
        }
    }
}

/// The stream that is shown is a video stream and no attached picture, none is better, and none
/// after it is as good; none is shown only where there is none.
pub proof fn lemma_best_video(streams: Seq<RawStream>, count: int)
    requires
        0 <= count <= streams.len(),
    ensures
        match best_video(streams, count) {
            Some(i) => {
                &&& 0 <= i < count
                &&& streams[i].is_showable()
                &&& forall|j: int|
                    0 <= j < count && (#[trigger] streams[j]).is_showable() ==> no_better(
                        streams[j],
                        streams[i],
                    )
                &&& forall|j: int|
                    i < j < count && (#[trigger] streams[j]).is_showable() ==> !no_better(
                        streams[i],
                        streams[j],
                    )
            },
            None => forall|j: int| 0 <= j < count ==> !(#[trigger] streams[j]).is_showable(),
        },
    decreases count,
{
    if count > 0 {
        lemma_best_video(streams, count - 1);
    }
}

/// The streams of one medium, in their order.
pub open spec fn of_medium(streams: Seq<RawStream>, medium: Medium) -> Seq<RawStream> {
    streams.filter(|s: RawStream| s.medium == medium)
}

/// What is found in a container.
pub open spec fn probed(
    streams: Seq<RawStream>,
    duration: int,
    metadata: Seq<(Seq<char>, Seq<char>)>,
) -> StreamsModel {
    StreamsModel {
        video: match best_video(streams, streams.len() as int) {
            Some(i) => Some(streams[i].video()),
            None => None,
        },
        audio: of_medium(streams, Medium::Audio).map_values(|s: RawStream| s.audio()),
        subtitles: of_medium(streams, Medium::Subtitle).map_values(|s: RawStream| s.subtitle()),
        duration_us: if duration >= 0 {
            duration
        } else {
            0
        },
        metadata,
    }
}

fn codec_text(stream: &RawStream) -> (r: String)
    ensures
        r@ == stream.codec(),
{
    match &stream.codec_name {
        Some(name) => name.clone(),
        None => "unknown".to_string(),
    }
}

fn size_of(stream: &RawStream) -> (r: (u32, u32))
    ensures
        r == stream.size(),
{
    match stream.video_size {
        Some(size) => size,
        None => (0, 0),
    }
}

fn pixels_of(stream: &RawStream) -> (r: u64)
    ensures
        r == stream.pixels(),
{
    let (width, height) = size_of(stream);
    let w: u64 = width as u64;
    let h: u64 = height as u64;
    assert(0 <= w * h <= 0xffff_ffff * 0xffff_ffff) by (nonlinear_arith)
        requires
            w <= 0xffff_ffff,
            h <= 0xffff_ffff,
    ;
    w * h
}

fn copy_text(s: &Option<String>) -> (r: Option<String>)
    ensures
        optional(r) == optional(*s),
{
    match s {
        Some(t) => Some(t.clone()),
        None => None,
    }
}

/// The video stream to show.
fn pick_video(streams: &Vec<RawStream>) -> (r: Option<usize>)
    ensures
        match r {
            Some(i) => best_video(streams@, streams.len() as int) == Some(i as int) && i
                < streams.len(),
            None => best_video(streams@, streams.len() as int) is None,
        },
{
    let mut best: Option<usize> = None;
    let mut i: usize = 0;
    while i < streams.len()
        invariant
            i <= streams.len(),
            match best {
                Some(k) => best_video(streams@, i as int) == Some(k as int) && k < i,
                None => best_video(streams@, i as int) is None,
            },
        decreases streams.len() - i,
    {
        if streams[i].medium == Medium::Video && !streams[i].attached_picture {
            let better: bool = match best {
                None => true,
                Some(k) => if streams[k].is_default == streams[i].is_default {
                    pixels_of(&streams[k]) <= pixels_of(&streams[i])
                } else {
                    streams[i].is_default
                },
            };
            if better {
                best = Some(i);
            }
        }
        i = i + 1;
    }
    best
}

/// The audio streams.
fn pick_audio(streams: &Vec<RawStream>) -> (r: Vec<AudioStreamInfo>)
    ensures
        audio_models(r@) == of_medium(streams@, Medium::Audio).map_values(
            |s: RawStream| s.audio(),
        ),
{
    let mut out: Vec<AudioStreamInfo> = Vec::new();
    let mut i: usize = 0;
    let ghost keep = |s: RawStream| s.medium == Medium::Audio;
    proof {
        reveal(Seq::filter);
        assert(streams@.take(0).filter(keep) =~= Seq::empty());
        assert(audio_models(out@) =~= streams@.take(0).filter(keep).map_values(
            |s: RawStream| s.audio(),
        ));
    }
    while i < streams.len()
        invariant
            i <= streams.len(),
            keep == (|s: RawStream| s.medium == Medium::Audio),
            audio_models(out@) == streams@.take(i as int).filter(keep).map_values(
                |s: RawStream| s.audio(),
            ),
        decreases streams.len() - i,
    {
        proof {
            reveal(Seq::filter);
            assert(streams@.take(i + 1).drop_last() =~= streams@.take(i as int));
        }
        if streams[i].medium == Medium::Audio {
            let (sample_rate, channels) = match streams[i].audio_format {
                Some(format) => format,
                None => (0, 0),
            };
            let mut channel_layout_desc = String::new();
            push_numeral(&mut channel_layout_desc, channels as u64);
            append(&mut channel_layout_desc, "ch");
            let ghost before = out@;
            let info = AudioStreamInfo {
                index: streams[i].index,
                codec_name: codec_text(&streams[i]),
                sample_rate,
                channel_layout_desc,
            };
            proof {
                assert(Seq::<char>::empty() + numeral(channels as nat) =~= numeral(
                    channels as nat,
                ));
                assert(info@ == streams@[i as int].audio());
            }
            out.push(info);
            proof {
                let head = streams@.take(i as int).filter(keep);
                assert(streams@.take(i + 1).filter(keep) =~= head.push(streams@[i as int]));
                let model = |s: RawStream| s.audio();
                assert(audio_models(out@) =~= audio_models(before).push(info@));
                assert(head.push(streams@[i as int]).map_values(model) =~= head.map_values(
                    model,
                ).push(info@));
            }
        }
        i = i + 1;
    }
    assert(streams@.take(i as int) =~= streams@);
    out
}

/// The subtitle streams.
fn pick_subtitles(streams: &Vec<RawStream>) -> (r: Vec<SubtitleStreamInfo>)
    ensures
        subtitle_models(r@) == of_medium(streams@, Medium::Subtitle).map_values(
            |s: RawStream| s.subtitle(),
        ),
{
    let mut out: Vec<SubtitleStreamInfo> = Vec::new();
    let mut i: usize = 0;
    let ghost keep = |s: RawStream| s.medium == Medium::Subtitle;
    proof {
        reveal(Seq::filter);
        assert(streams@.take(0).filter(keep) =~= Seq::empty());
        assert(subtitle_models(out@) =~= streams@.take(0).filter(keep).map_values(
            |s: RawStream| s.subtitle(),
        ));
    }
    while i < streams.len()
        invariant
            i <= streams.len(),
            keep == (|s: RawStream| s.medium == Medium::Subtitle),
            subtitle_models(out@) == streams@.take(i as int).filter(keep).map_values(
                |s: RawStream| s.subtitle(),
            ),
        decreases streams.len() - i,
    {
        proof {
            reveal(Seq::filter);
            assert(streams@.take(i + 1).drop_last() =~= streams@.take(i as int));
        }
        if streams[i].medium == Medium::Subtitle {
            let info = SubtitleStreamInfo {
                index: streams[i].index,
                codec_name: codec_text(&streams[i]),
                language: copy_text(&streams[i].language),
            };
            let ghost before = out@;
            out.push(info);
            proof {
                let head = streams@.take(i as int).filter(keep);
                assert(info@ == streams@[i as int].subtitle());
                assert(streams@.take(i + 1).filter(keep) =~= head.push(streams@[i as int]));
                let model = |s: RawStream| s.subtitle();
                assert(subtitle_models(out@) =~= subtitle_models(before).push(info@));
                assert(head.push(streams@[i as int]).map_values(model) =~= head.map_values(
                    model,
                ).push(info@));
            }
        }
        i = i + 1;
    }
    assert(streams@.take(i as int) =~= streams@);
    out
}

/// Works out the streams of a file from what its container describes. `duration` is in
/// microseconds, below zero where it is not known.
pub fn probe(streams: &Vec<RawStream>, duration: i64, metadata: Vec<(String, String)>) -> (r:
    StreamInfo)
    ensures
        r@ == probed(streams@, duration as int, pairs(metadata@)),
{
    let video_stream: Option<VideoStreamInfo> = match pick_video(streams) {
        Some(i) => {
            let (width, height) = size_of(&streams[i]);
            Some(
                VideoStreamInfo {
                    index: streams[i].index,
                    width,
                    height,
                    codec_name: codec_text(&streams[i]),
                },
            )
        },
        None => None,
    };
    StreamInfo {
        video_stream,
        audio_streams: pick_audio(streams),
        subtitle_streams: pick_subtitles(streams),
        duration_us: if duration >= 0 {
            duration
        } else {
            0
        },
        metadata,
    }
}

/// What is said of a video stream.
pub open spec fn video_line(v: VideoModel) -> Seq<char> {
    "Video: "@ + v.codec_name + " "@ + numeral(v.width as nat) + "x"@ + numeral(v.height as nat)
        + " [stream "@ + numeral(v.index as nat) + "]"@
}

/// The codec, rate and channels of an audio stream.
pub open spec fn audio_text(a: AudioModel) -> Seq<char> {
    a.codec_name + " "@ + numeral(a.sample_rate as nat) + "Hz "@ + a.layout
}

/// What is said of the audio stream at place `i`.
pub open spec fn audio_line(a: AudioModel, i: int) -> Seq<char> {
    "Audio #"@ + numeral((i + 1) as nat) + ": "@ + audio_text(a) + " [stream "@ + numeral(
        a.index as nat,
    ) + "]"@
}

/// What is said of the subtitle stream at place `i`.
pub open spec fn subtitle_line(s: SubtitleModel, i: int) -> Seq<char> {
    "Subtitle #"@ + numeral((i + 1) as nat) + ": "@ + s.codec_name + " "@ + match s.language {
        Some(language) => language,
        None => "unknown"@,
    } + " [stream "@ + numeral(s.index as nat) + "]"@
}

/// What is said of the streams of a file, a line each.
pub open spec fn stream_lines(m: StreamsModel) -> Seq<Seq<char>> {
    let video = match m.video {
        Some(v) => seq![video_line(v)],
        None => Seq::empty(),
    };
    video + Seq::new(m.audio.len(), |i: int| audio_line(m.audio[i], i)) + Seq::new(
        m.subtitles.len(),
        |i: int| subtitle_line(m.subtitles[i], i),
    ) + seq!["Duration: "@ + time_text(m.duration_us)]
}

/// The codec, rate and channels of an audio stream.
pub fn format_audio_info(a: &AudioStreamInfo) -> (r: String)
    ensures
        r@ == audio_text(a@),
{
    let mut out: String = a.codec_name.clone();
    append(&mut out, " ");
    push_numeral(&mut out, a.sample_rate as u64);
    append(&mut out, "Hz ");
    append(&mut out, a.channel_layout_desc.as_str());
    out
}

/// Describes the streams of a file, a line each.
pub fn log_stream_info(info: &StreamInfo) -> (r: Vec<String>)
    ensures
        texts(r@) == stream_lines(info@),
{
    let mut out: Vec<String> = Vec::new();
    match &info.video_stream {
        Some(v) => {
            let mut line: String = "Video: ".to_string();
            append(&mut line, v.codec_name.as_str());
            append(&mut line, " ");
            push_numeral(&mut line, v.width as u64);
            append(&mut line, "x");
            push_numeral(&mut line, v.height as u64);
            append(&mut line, " [stream ");
            push_numeral(&mut line, v.index as u64);
            append(&mut line, "]");
            out.push(line);
        },
        None => {},
    }
    let ghost first = texts(out@);
    let ghost audio = Seq::new(info@.audio.len(), |i: int| audio_line(info@.audio[i], i));
    let ghost subtitles = Seq::new(
        info@.subtitles.len(),
        |i: int| subtitle_line(info@.subtitles[i], i),
    );
    let mut i: usize = 0;
    assert(first + audio.take(0) =~= first);
    while i < info.audio_streams.len()
        invariant
            i <= info.audio_streams.len(),
            audio == Seq::new(info@.audio.len(), |i: int| audio_line(info@.audio[i], i)),
            texts(out@) == first + audio.take(i as int),
        decreases info.audio_streams.len() - i,
    {
        let ghost before = out@;
        assert(info@.audio[i as int] == info.audio_streams@[i as int]@);
        let mut line: String = "Audio #".to_string();
        push_numeral(&mut line, i as u64 + 1);
        append(&mut line, ": ");
        append(&mut line, format_audio_info(&info.audio_streams[i]).as_str());
        append(&mut line, " [stream ");
        push_numeral(&mut line, info.audio_streams[i].index as u64);
        append(&mut line, "]");
        assert(line@ == audio[i as int]);
        out.push(line);
        assert(texts(out@) =~= texts(before).push(line@));
        assert(audio.take(i + 1) =~= audio.take(i as int).push(audio[i as int]));
        i = i + 1;
    }
    assert(audio.take(i as int) =~= audio);
    let ghost second = texts(out@);
    let mut k: usize = 0;
    assert(second + subtitles.take(0) =~= second);
    while k < info.subtitle_streams.len()
        invariant
            k <= info.subtitle_streams.len(),
            subtitles == Seq::new(
                info@.subtitles.len(),
                |i: int| subtitle_line(info@.subtitles[i], i),
            ),
            texts(out@) == second + subtitles.take(k as int),
        decreases info.subtitle_streams.len() - k,
    {
        let ghost before = out@;
        assert(info@.subtitles[k as int] == info.subtitle_streams@[k as int]@);
        let mut line: String = "Subtitle #".to_string();
        push_numeral(&mut line, k as u64 + 1);
        append(&mut line, ": ");
        append(&mut line, info.subtitle_streams[k].codec_name.as_str());
        append(&mut line, " ");
        match &info.subtitle_streams[k].language {
            Some(language) => append(&mut line, language.as_str()),
            None => append(&mut line, "unknown"),
        }
        append(&mut line, " [stream ");
        push_numeral(&mut line, info.subtitle_streams[k].index as u64);
        append(&mut line, "]");
        assert(line@ == subtitles[k as int]);
        out.push(line);
        assert(texts(out@) =~= texts(before).push(line@));
        assert(subtitles.take(k + 1) =~= subtitles.take(k as int).push(subtitles[k as int]));
        k = k + 1;
    }
    assert(subtitles.take(k as int) =~= subtitles);
    let ghost before = out@;
    let mut line: String = "Duration: ".to_string();
    append(&mut line, format_time(info.duration_us).as_str());
    out.push(line);
    assert(texts(out@) =~= texts(before).push(line@));
    assert(texts(out@) =~= stream_lines(info@));
    out
}

/// The video that is shown is one and no cover, is the default where any is, and among those has the
/// most pixels; of equal ones the last. Without any video none is shown.
pub proof fn lemma_shown_video(
    streams: Seq<RawStream>,
    duration: int,
    metadata: Seq<(Seq<char>, Seq<char>)>,
)
    ensures
        match probed(streams, duration, metadata).video {
            None => forall|j: int|
                0 <= j < streams.len() ==> !((#[trigger] streams[j]).medium == Medium::Video
                    && !streams[j].attached_picture),
            Some(v) => exists|i: int|
                0 <= i < streams.len() && (#[trigger] streams[i]).medium == Medium::Video
                    && !streams[i].attached_picture && v.index == streams[i].index && v.width
                    == streams[i].size().0 && v.height == streams[i].size().1 && v.codec_name
                    == streams[i].codec() && forall|j: int|
                    0 <= j < streams.len() && (#[trigger] streams[j]).medium == Medium::Video
                        && !streams[j].attached_picture ==> (streams[j].is_default
                        ==> streams[i].is_default) && (streams[j].is_default
                        == streams[i].is_default ==> streams[j].size().0 * streams[j].size().1
                        <= streams[i].size().0 * streams[i].size().1),
        },
{
    let n = streams.len() as int;
    lemma_best_video(streams, n);
    if let Some(i) = best_video(streams, n) {
        assert(streams[i].is_showable());
        assert forall|j: int|
            0 <= j < streams.len() && (#[trigger] streams[j]).medium == Medium::Video
                && !streams[j].attached_picture implies (streams[j].is_default
            ==> streams[i].is_default) && (streams[j].is_default == streams[i].is_default
            ==> streams[j].size().0 * streams[j].size().1 <= streams[i].size().0
            * streams[i].size().1) by {
            assert(streams[j].is_showable());
            assert(no_better(streams[j], streams[i]));
        }
    } else {
        assert forall|j: int| 0 <= j < streams.len() implies !((#[trigger] streams[j]).medium
            == Medium::Video && !streams[j].attached_picture) by {
            assert(!streams[j].is_showable());
        }
    }
}

/// Of the audio streams and of the subtitle streams all are listed, in the order of the file, each
/// with its index; what is not known of one is zero, or `unknown`. A duration that is not known is
/// zero.
pub proof fn lemma_streams_are_listed(
    streams: Seq<RawStream>,
    s: RawStream,
    duration: int,
    metadata: Seq<(Seq<char>, Seq<char>)>,
)
    ensures
        s.medium == Medium::Audio ==> probed(streams.push(s), duration, metadata).audio == probed(
            streams,
            duration,
            metadata,
        ).audio.push(s.audio()),
        s.medium != Medium::Audio ==> probed(streams.push(s), duration, metadata).audio == probed(
            streams,
            duration,
            metadata,
        ).audio,
        s.medium == Medium::Subtitle ==> probed(streams.push(s), duration, metadata).subtitles
            == probed(streams, duration, metadata).subtitles.push(s.subtitle()),
        s.medium != Medium::Subtitle ==> probed(streams.push(s), duration, metadata).subtitles
            == probed(streams, duration, metadata).subtitles,
        probed(Seq::empty(), duration, metadata).audio.len() == 0,
        probed(Seq::empty(), duration, metadata).subtitles.len() == 0,
        s.audio().index == s.index,
        s.subtitle().index == s.index,
        s.audio_format matches Some(f) ==> s.audio().sample_rate == f.0 && s.audio().layout
            == numeral(f.1 as nat) + seq!['c', 'h'],
        s.audio_format is None ==> s.audio().sample_rate == 0,
        s.video_size matches Some(z) ==> s.size() == z,
        s.video_size is None ==> s.size() == (0u32, 0u32),
        s.codec_name matches Some(name) ==> s.codec() == name@ && s.audio().codec_name == name@
            && s.subtitle().codec_name == name@,
        s.codec_name is None ==> s.codec() == "unknown"@,
        s.subtitle().language == optional(s.language),
        duration >= 0 ==> probed(streams, duration, metadata).duration_us == duration,
        duration < 0 ==> probed(streams, duration, metadata).duration_us == 0,
        probed(streams, duration, metadata).metadata == metadata,
{
    reveal(Seq::filter);
    reveal_strlit("ch");
    assert("ch"@ =~= seq!['c', 'h']);
    let all = streams.push(s);
    assert(all.drop_last() =~= streams);
    assert(all.last() == s);
    let audio = |s: RawStream| s.audio();
    let subtitle = |s: RawStream| s.subtitle();
    let a = of_medium(streams, Medium::Audio);
    let b = of_medium(streams, Medium::Subtitle);
    assert(a.push(s).map_values(audio) =~= a.map_values(audio).push(s.audio()));
    assert(b.push(s).map_values(subtitle) =~= b.map_values(subtitle).push(s.subtitle()));
    assert(of_medium(Seq::empty(), Medium::Audio).len() == 0);
    assert(of_medium(Seq::empty(), Medium::Subtitle).len() == 0);
}

/// Every stream is described on a line of its own, in the order of the file and counted from one,
/// and the last line gives the duration.
pub proof fn lemma_every_stream_is_described(m: StreamsModel)
    ensures
        ({
            let first: int = if m.video is Some {
                1
            } else {
                0
            };
            let lines = stream_lines(m);
            &&& lines.len() == first + m.audio.len() + m.subtitles.len() + 1
            &&& m.video matches Some(v) ==> lines[0] == video_line(v)
            &&& forall|i: int|
                0 <= i < m.audio.len() ==> #[trigger] lines[first + i] == audio_line(m.audio[i], i)
            &&& forall|i: int|
                0 <= i < m.subtitles.len() ==> #[trigger] lines[first + m.audio.len() + i]
                    == subtitle_line(m.subtitles[i], i)
            &&& lines[lines.len() - 1] == "Duration: "@ + time_text(m.duration_us)
        }),
{
}

/// The lines name the codec, the size or the rate and channels or the language, and the stream.
pub proof fn lemma_lines_name_the_stream(
    v: VideoModel,
    a: AudioModel,
    s: SubtitleModel,
    i: int,
)
    requires
        i >= 0,
    ensures
        video_line(v) == "Video: "@ + v.codec_name + " "@ + numeral(v.width as nat) + "x"@ + numeral(
            v.height as nat,
        ) + " [stream "@ + numeral(v.index as nat) + "]"@,
        audio_text(a) == a.codec_name + " "@ + numeral(a.sample_rate as nat) + "Hz "@ + a.layout,
        audio_line(a, i) == "Audio #"@ + numeral((i + 1) as nat) + ": "@ + audio_text(a)
            + " [stream "@ + numeral(a.index as nat) + "]"@,
        s.language matches Some(l) ==> subtitle_line(s, i) == "Subtitle #"@ + numeral((i + 1) as nat)
            + ": "@ + s.codec_name + " "@ + l + " [stream "@ + numeral(s.index as nat) + "]"@,
        s.language is None ==> subtitle_line(s, i) == "Subtitle #"@ + numeral((i + 1) as nat) + ": "@
            + s.codec_name + " "@ + "unknown"@ + " [stream "@ + numeral(s.index as nat) + "]"@,
{
}

} // verus!
