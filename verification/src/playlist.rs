//! Playing a list of files: which streams of a file are played, from where, and which file is next.

use vstd::prelude::*;

use crate::cmd::{optional, EndReason};
use crate::streams::StreamInfo;
use crate::subtitle::SubtitleTrack;
use crate::text::{append, numeral, push_numeral};
use crate::time::{parse_time, parsed_time};

verus! {

/// The streams of a file that are played.
#[derive(Clone, Copy, Debug, PartialEq, Eq, Structural)]
pub struct StreamChoice {
    pub video_idx: Option<usize>,
    pub audio_idx: Option<usize>,
    pub subtitle_idx: Option<usize>,
}

/// The place of the audio stream that is played: the one asked for, counted from one, and the first
/// where there is no such one.
pub open spec fn chosen_track(count: int, audio_track: int) -> int {
    let asked = if audio_track > 0 {
        audio_track - 1
    } else {
        0
    };
    if asked < count {
        asked
    } else {
        0
    }
}

/// The place of the audio stream that is played.
pub fn starting_track(count: usize, audio_track: usize) -> (r: usize)
    ensures
        r == chosen_track(count as int, audio_track as int),
{
    if 0 < audio_track && audio_track <= count {
        audio_track - 1
    } else {
        0
    }
}

/// The streams of a file that are played.
pub open spec fn chosen_streams(info: StreamInfo, audio_track: int) -> StreamChoice {
    let count = info.audio_streams.len() as int;
    StreamChoice {
        video_idx: match info.video_stream {
            Some(v) => Some(v.index),
            None => None,
        },
        audio_idx: if count == 0 {
            None
        } else {
            Some(info.audio_streams@[chosen_track(count, audio_track)].index)
        },
        subtitle_idx: if info.subtitle_streams.len() == 0 {
            None
        } else {
            Some(info.subtitle_streams@[0].index)
        },
    }
}

/// Chooses the streams of a file that are played.
pub fn choose_streams(info: &StreamInfo, audio_track: usize) -> (r: StreamChoice)
    ensures
        r == chosen_streams(*info, audio_track as int),
{
    let count: usize = info.audio_streams.len();
    let audio_idx: Option<usize> = if count == 0 {
        None
    } else {
        Some(info.audio_streams[starting_track(count, audio_track)].index)
    };
    StreamChoice {
        video_idx: match &info.video_stream {
            Some(v) => Some(v.index),
            None => None,
        },
        audio_idx,
        subtitle_idx: if info.subtitle_streams.len() == 0 {
            None
        } else {
            Some(info.subtitle_streams[0].index)
        },
    }
}

/// Whether a file has anything to play.
pub fn is_playable(info: &StreamInfo) -> (r: bool)
    ensures
        r == (info.video_stream is Some || info.audio_streams.len() > 0),
{
    info.video_stream.is_some() || info.audio_streams.len() > 0
}

/// The size of the video, 640 by 480 where there is none.
pub fn video_size(info: &StreamInfo) -> (r: (u32, u32))
    ensures
        r == match info.video_stream {
            Some(v) => (v.width, v.height),
            None => (640u32, 480u32),
        },
{
    match &info.video_stream {
        Some(v) => (v.width, v.height),
        None => (640, 480),
    }
}

/// Puts the subtitle track that was asked for before those that were found.
pub fn arrange_subtitles(found: Vec<SubtitleTrack>, asked: Option<SubtitleTrack>) -> (r: Vec<
    SubtitleTrack,
>)
    ensures
        r@ == match asked {
            Some(track) => seq![track] + found@,
            None => found@,
        },
{
    let mut tracks = found;
    match asked {
        Some(track) => {
            tracks.insert(0, track);
            assert(tracks@ =~= seq![track] + found@);
        },
        None => {},
    }
    tracks
}

/// Where playback starts: at the time asked for, where that is a time, and only in the first file.
pub open spec fn start_us(start: Option<Seq<char>>, first_run: bool) -> int {
    if !first_run {
        0
    } else {
        match start {
            Some(text) => match parsed_time(text) {
                Ok(us) => us,
                Err(_) => 0,
            },
            None => 0,
        }
    }
}

/// Where playback starts, in microseconds.
pub fn start_position(start: &Option<String>, first_run: bool) -> (r: i64)
    ensures
        r == start_us(optional(*start), first_run),
{
    if !first_run {
        return 0;
    }
    match start {
        Some(text) => match parse_time(text.as_str()) {
            Ok(us) => us,
            Err(_) => 0,
        },
        None => 0,
    }
}

/// The place of the file that is played after one ended; none where the player ends. `reason` is
/// missing where the file could not be played. The place may be past the last file.
pub open spec fn following(index: int, reason: Option<EndReason>) -> Option<int> {
    match reason {
        Some(EndReason::Quit) => None,
        Some(EndReason::PrevFile) => Some(
            if index > 0 {
                index - 1
            } else {
                0
            },
        ),
        _ => Some(index + 1),
    }
}

/// The place of the file that is played next.
pub fn next_index(index: usize, reason: Option<EndReason>) -> (r: Option<usize>)
    requires
        index < usize::MAX,
    ensures
        match r {
            Some(i) => following(index as int, reason) == Some(i as int),
            None => following(index as int, reason) is None,
        },
{
    match reason {
        Some(EndReason::Quit) => None,
        Some(EndReason::PrevFile) => Some(
            if index > 0 {
                index - 1
            } else {
                0
            },
        ),
        _ => Some(index + 1),
    }
}

/// Going back from any file but the first and then on again leads to the same file.
pub proof fn lemma_back_and_on(index: int)
    requires
        index > 0,
    ensures
        following(index, Some(EndReason::PrevFile)) matches Some(i) && following(
            i,
            Some(EndReason::NextFile),
        ) == Some(index),
{
}

/// A file's place in the list and its name.
pub open spec fn numbered(name: Seq<char>, file_index: int, file_count: int) -> Seq<char> {
    "("@ + numeral((file_index + 1) as nat) + "/"@ + numeral(file_count as nat) + ") "@ + name
}

/// A file's place in the list and its name.
pub fn numbered_name(name: &str, file_index: usize, file_count: usize) -> (r: String)
    requires
        file_index < usize::MAX,
    ensures
        r@ == numbered(name@, file_index as int, file_count as int),
{
    let mut out: String = "(".to_string();
    push_numeral(&mut out, file_index as u64 + 1);
    append(&mut out, "/");
    push_numeral(&mut out, file_count as u64);
    append(&mut out, ") ");
    append(&mut out, name);
    out
}

/// The audio track that was asked for is played, counted from one, and the first where there is no
/// such one.
pub proof fn lemma_asked_track_is_played(count: int, audio_track: int)
    ensures
        1 <= audio_track <= count ==> chosen_track(count, audio_track) == audio_track - 1,
        audio_track > count || audio_track <= 0 ==> chosen_track(count, audio_track) == 0,
{
}

/// The streams that are played: the video that was found, the audio track that was asked for, and
/// the first subtitles, each by its index in the file.
pub proof fn lemma_streams_that_are_played(info: StreamInfo, audio_track: int)
    ensures
        info.video_stream is None ==> chosen_streams(info, audio_track).video_idx is None,
        info.video_stream matches Some(v) ==> chosen_streams(info, audio_track).video_idx == Some(
            v.index,
        ),
        info.audio_streams.len() == 0 ==> chosen_streams(info, audio_track).audio_idx is None,
        1 <= audio_track <= info.audio_streams.len() ==> chosen_streams(info, audio_track).audio_idx
            == Some(info.audio_streams@[audio_track - 1].index),
        info.audio_streams.len() > 0 && !(1 <= audio_track <= info.audio_streams.len())
            ==> chosen_streams(info, audio_track).audio_idx == Some(
            info.audio_streams@[0].index,
        ),
        info.subtitle_streams.len() == 0 ==> chosen_streams(info, audio_track).subtitle_idx is None,
        info.subtitle_streams.len() > 0 ==> chosen_streams(info, audio_track).subtitle_idx == Some(
            info.subtitle_streams@[0].index,
        ),
{
}

/// Only the first file starts elsewhere than at its beginning, and only where a time was given.
pub proof fn lemma_only_the_first_file_starts_later(start: Option<Seq<char>>)
    ensures
        start_us(start, false) == 0,
        start_us(None, true) == 0,
        start matches Some(text) ==> (parsed_time(text) matches Ok(us) ==> start_us(start, true)
            == us),
        start matches Some(text) ==> (parsed_time(text) is Err ==> start_us(start, true) == 0),
{
}

/// After a file the next one is played, be it that it ended, was left or could not be played. Back
/// leads to the one before, from the first to itself. Quitting ends the list.
pub proof fn lemma_list_goes_on(index: int)
    requires
        index >= 0,
    ensures
        following(index, Some(EndReason::Eof)) == Some(index + 1),
        following(index, Some(EndReason::NextFile)) == Some(index + 1),
        following(index, None) == Some(index + 1),
        index > 0 ==> following(index, Some(EndReason::PrevFile)) == Some(index - 1),
        following(0, Some(EndReason::PrevFile)) == Some(0int),
        following(index, Some(EndReason::Quit)) is None,
{
}

/// A file is named with its place in the list, counted from one, and how many there are.
pub proof fn lemma_place_is_counted_from_one(name: Seq<char>, index: int, count: int)
    requires
        index >= 0,
        count >= 0,
    ensures
        numbered(name, index, count) == seq!['('] + numeral((index + 1) as nat) + seq!['/']
            + numeral(count as nat) + seq![')', ' '] + name,
{
    reveal_strlit("(");
    reveal_strlit("/");
    reveal_strlit(") ");
    assert("("@ =~= seq!['(']);
    assert("/"@ =~= seq!['/']);
    assert(") "@ =~= seq![')', ' ']);
}

} // verus!
