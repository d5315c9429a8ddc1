//! The audio player of the terminal: its command line, and what it does on commands and packets.

use std::collections::VecDeque;

use crossbeam_channel::Receiver;
use vstd::prelude::*;

use crate::cmd::{
    at_most, is_verbosity, optional, verbosity, ArgsError, Command, DemuxCommand, DemuxPacket,
    EndReason, Refusal,
};
use crate::decode_audio::AudioBuffer;
use crate::modes::{AudioOnlyPlayer, PacketVerdict};
use crate::player::{
    is_batch, is_relative, lemma_audio_is_dropped_everywhere, lemma_effects_behind,
    lemma_one_effect, only_if, push_when, Batch, Effect, Outcome, PlayerCore,
};
use crate::streams::StreamInfo;
use crate::subtitle::SubtitleTrack;
use crate::sync::ClockState;
use crate::text::{
    append, chars_of, has_prefix, lemma_numeral_reads_back, lemma_only_digits_are_numbers, numeral,
    parse_unsigned, parsed_unsigned, same_text, starts_with, texts,
};

verus! {

/// Parsed command line arguments of the terminal player.
#[derive(Debug, Clone)]
pub struct MusicArgs {
    /// One or more media files or directories.
    pub files: Vec<String>,
    /// Initial volume percentage.
    pub volume: u32,
    /// Audio track index (1-based).
    pub audio_track: usize,
    /// Start position (HH:MM:SS, MM:SS, or seconds).
    pub start: Option<String>,
    /// Verbose logging (-v for stream information, -vv for debugging).
    pub verbose: u8,
}

/// What a command line of the terminal player asks for.
pub struct MusicSettings {
    pub files: Seq<Seq<char>>,
    pub volume: int,
    pub audio_track: int,
    pub start: Option<Seq<char>>,
    pub verbose: int,
}

impl View for MusicArgs {
    type V = MusicSettings;

    open spec fn view(&self) -> MusicSettings {
        MusicSettings {
            files: texts(self.files@),
            volume: self.volume as int,
            audio_track: self.audio_track as int,
            start: optional(self.start),
            verbose: self.verbose as int,
        }
    }
}

/// The usage of the terminal player.
pub const MUSIC_USAGE: &'static str = "Usage: playm [OPTIONS] <FILE|DIR>...

Arguments:
  <FILE|DIR>...  One or more media files or directories

Options:
      --volume <N>          Initial volume percentage 0-100 [default: 100]
      --audio-track <N>     Audio track index, 1-based [default: 1]
      --start <TIME>        Start position (HH:MM:SS, MM:SS, or seconds)
  -v                        Verbose logging (-v info, -vv debug)
  -h, --help                Print help";

/// What is said of a command line that starts no playback in the terminal.
pub open spec fn music_refusal_text(e: Refusal) -> Seq<char> {
    match e {
        Refusal::MissingValue { flag } => flag + " requires a value"@,
        Refusal::InvalidValue { flag, value } => "invalid value '"@ + value + "' for "@ + flag
            + ": expected integer"@,
        Refusal::UnknownOption { option } => "unknown option '"@ + option + "'\n\n"@
            + MUSIC_USAGE@,
        Refusal::MissingFiles => "required arguments not provided: <FILE>...\n\n"@ + MUSIC_USAGE@,
        _ => MUSIC_USAGE@,
    }
}

/// What is said of a command line that starts no playback in the terminal.
pub fn music_message(e: &ArgsError) -> (r: String)
    ensures
        r@ == music_refusal_text(e@),
{
    match e {
        ArgsError::MissingValue { flag } => {
            let mut out: String = flag.clone();
            append(&mut out, " requires a value");
            out
        },
        ArgsError::InvalidValue { flag, value } => {
            let mut out: String = "invalid value '".to_string();
            append(&mut out, value.as_str());
            append(&mut out, "' for ");
            append(&mut out, flag.as_str());
            append(&mut out, ": expected integer");
            out
        },
        ArgsError::UnknownOption { option } => {
            let mut out: String = "unknown option '".to_string();
            append(&mut out, option.as_str());
            append(&mut out, "'\n\n");
            append(&mut out, MUSIC_USAGE);
            out
        },
        ArgsError::MissingFiles => {
            let mut out: String = "required arguments not provided: <FILE>...\n\n".to_string();
            append(&mut out, MUSIC_USAGE);
            out
        },
        ArgsError::Help | ArgsError::Version => MUSIC_USAGE.to_string(),
    }
}

/// Whether an option takes a value.
pub open spec fn music_takes_value(name: Seq<char>) -> bool {
    name == "--volume"@ || name == "--audio-track"@ || name == "--start"@
}

/// Settings with the value of an option; none where it is not a number of the kind it takes.
pub open spec fn music_with_value(
    settings: MusicSettings,
    name: Seq<char>,
    value: Seq<char>,
) -> Option<MusicSettings> {
    if name == "--volume"@ {
        match parsed_unsigned(value, u32::MAX as int) {
            Some(n) => Some(MusicSettings { volume: n, ..settings }),
            None => None,
        }
    } else if name == "--audio-track"@ {
        match parsed_unsigned(value, usize::MAX as int) {
            Some(n) => Some(MusicSettings { audio_track: n, ..settings }),
            None => None,
        }
    } else {
        Some(MusicSettings { start: Some(value), ..settings })
    }
}

/// What the arguments from `i` on ask for, after `settings`.
pub open spec fn parsed_music(argv: Seq<Seq<char>>, i: int, settings: MusicSettings) -> Result<
    MusicSettings,
    Refusal,
>
    decreases argv.len() - i,
{
    if !(0 <= i < argv.len()) {
        if settings.files.len() == 0 {
            Err(Refusal::MissingFiles)
        } else {
            Ok(settings)
        }
    } else {
        let arg = argv[i];
        if arg == "-h"@ || arg == "--help"@ {
            Err(Refusal::Help)
        } else if music_takes_value(arg) {
            if i + 1 >= argv.len() {
                Err(Refusal::MissingValue { flag: arg })
            } else {
                match music_with_value(settings, arg, argv[i + 1]) {
                    None => Err(Refusal::InvalidValue { flag: arg, value: argv[i + 1] }),
                    Some(changed) => parsed_music(argv, i + 2, changed),
                }
            }
        } else if is_verbosity(arg) {
            parsed_music(
                argv,
                i + 1,
                MusicSettings { verbose: at_most(arg.len() - 1, 255), ..settings },
            )
        } else if starts_with(arg, "-"@) {
            Err(Refusal::UnknownOption { option: arg })
        } else {
            parsed_music(
                argv,
                i + 1,
                MusicSettings { files: settings.files.push(arg), ..settings },
            )
        }
    }
}

/// What an empty command line asks for, but for files.
pub open spec fn default_music() -> MusicSettings {
    MusicSettings {
        files: Seq::empty(),
        volume: 100,
        audio_track: 1,
        start: None,
        verbose: 0,
    }
}

/// Sets what an option with a value asks for; says whether the value is of the kind it takes.
fn set_music_value(args: &mut MusicArgs, name: &str, value: &str) -> (r: bool)
    requires
        music_takes_value(name@),
    ensures
        r == (music_with_value(old(args)@, name@, value@) is Some),
        r ==> music_with_value(old(args)@, name@, value@) == Some(final(args)@),
{
    let v = chars_of(value);
    if same_text(name, "--volume") {
        match parse_unsigned(&v, u32::MAX as u64) {
            Some(n) => {
                args.volume = n as u32;
                true
            },
            None => false,
        }
    } else if same_text(name, "--audio-track") {
        match parse_unsigned(&v, usize::MAX as u64) {
            Some(n) => {
                args.audio_track = n as usize;
                true
            },
            None => false,
        }
    } else {
        args.start = Some(value.to_string());
        true
    }
}

/// Parses a command line of the terminal player.
pub fn parse_args(argv: &Vec<String>) -> (r: Result<MusicArgs, ArgsError>)
    ensures
        match r {
            Ok(args) => parsed_music(texts(argv@), 0, default_music()) == Ok::<
                MusicSettings,
                Refusal,
            >(args@),
            Err(e) => parsed_music(texts(argv@), 0, default_music()) == Err::<
                MusicSettings,
                Refusal,
            >(e@),
        },
{
    let mut args = MusicArgs {
        files: Vec::new(),
        volume: 100,
        audio_track: 1,
        start: None,
        verbose: 0,
    };
    let ghost all = texts(argv@);
    assert(args@.files =~= Seq::empty());
    let mut i: usize = 0;
    while i < argv.len()
        invariant
            i <= argv.len(),
            all == texts(argv@),
            parsed_music(all, 0, default_music()) == parsed_music(all, i as int, args@),
        decreases argv.len() - i,
    {
        assert(all[i as int] == argv@[i as int]@);
        let arg = argv[i].as_str();
        if same_text(arg, "-h") || same_text(arg, "--help") {
            return Err(ArgsError::Help);
        }
        if same_text(arg, "--volume") || same_text(arg, "--audio-track") || same_text(
            arg,
            "--start",
        ) {
            if argv.len() - i <= 1 {
                return Err(ArgsError::MissingValue { flag: argv[i].clone() });
            }
            assert(all[i + 1] == argv@[i + 1]@);
            if !set_music_value(&mut args, arg, argv[i + 1].as_str()) {
                return Err(
                    ArgsError::InvalidValue { flag: argv[i].clone(), value: argv[i + 1].clone() },
                );
            }
            i = i + 2;
        } else {
            let letters = chars_of(arg);
            match verbosity(&letters) {
                Some(n) => {
                    args.verbose = n;
                },
                None => {
                    if has_prefix(&letters, &chars_of("-")) {
                        return Err(ArgsError::UnknownOption { option: argv[i].clone() });
                    }
                    let ghost before = args.files@;
                    args.files.push(argv[i].clone());
                    assert(texts(args.files@) =~= texts(before).push(all[i as int]));
                },
            }
            i = i + 1;
        }
    }
    if args.files.len() == 0 {
        assert(args@.files.len() == 0);
        return Err(ArgsError::MissingFiles);
    }
    assert(args@.files.len() > 0);
    Ok(args)
}

/// The player behind the terminal. It has no subtitles, no mute, no audio delay and no exact seeks.
#[derive(Debug)]
pub struct AudioPlayer<S> {
    pub player: AudioOnlyPlayer<S>,
}

/// Whether the terminal player carries out a command.
pub open spec fn is_heeded(cmd: Command) -> bool {
    match cmd {
        Command::Quit | Command::PlayPause | Command::VolumeUp | Command::VolumeDown
        | Command::CycleAudioTrack | Command::NextFile | Command::PrevFile => true,
        Command::SeekRelative { .. } => true,
        _ => false,
    }
}

/// A command without what the terminal player does not have: seeks are never exact.
pub open spec fn plain(cmd: Command) -> Command {
    match cmd {
        Command::SeekRelative { delta_us, .. } => Command::SeekRelative { delta_us, exact: false },
        _ => cmd,
    }
}

fn without_exactness(cmd: Command) -> (r: Command)
    ensures
        r == plain(cmd),
{
    match cmd {
        Command::SeekRelative { delta_us, exact: _ } => Command::SeekRelative {
            delta_us,
            exact: false,
        },
        _ => cmd,
    }
}

fn heeds(cmd: Command) -> (r: bool)
    ensures
        r == is_heeded(cmd),
{
    match cmd {
        Command::Quit | Command::PlayPause | Command::VolumeUp | Command::VolumeDown
        | Command::CycleAudioTrack | Command::NextFile | Command::PrevFile => true,
        Command::SeekRelative { delta_us: _, exact: _ } => true,
        _ => false,
    }
}

/// Whether an outcome is that of a command of the terminal player.
pub open spec fn music_answers(
    core: PlayerCore,
    cmd: Command,
    reading: i64,
    outcome: Outcome,
    next: PlayerCore,
) -> bool {
    if is_heeded(cmd) {
        core.answers(plain(cmd), reading, outcome, next)
    } else {
        next == core && !outcome.quit && outcome.effects@ == Seq::<Effect>::empty()
    }
}

/// Relative seeks among commands, none of them exact.
pub open spec fn plain_all(cmds: Seq<Command>) -> Seq<Command> {
    cmds.map_values(|cmd: Command| plain(cmd))
}

/// Whether an outcome is that of a batch of commands of the terminal player: its relative seeks are
/// queued, and the command behind them, if any, is answered.
pub open spec fn music_answers_batch(
    core: PlayerCore,
    cmds: Seq<Command>,
    reading: i64,
    outcome: Outcome,
    next: PlayerCore,
) -> bool {
    if cmds.len() > 0 && !is_relative(cmds.last()) {
        music_answers(
            core.with_seeks(plain_all(cmds.drop_last())),
            cmds.last(),
            reading,
            outcome,
            next,
        )
    } else {
        next == core.with_seeks(plain_all(cmds)) && !outcome.quit && outcome.effects@ == Seq::<
            Effect,
        >::empty()
    }
}

/// Whether an outcome is that of a command of the terminal player, and of a batch behind it where
/// that command is a relative seek.
pub open spec fn music_answers_all(
    core: PlayerCore,
    cmd: Command,
    cmds: Seq<Command>,
    reading: i64,
    outcome: Outcome,
    next: PlayerCore,
) -> bool {
    if is_relative(cmd) {
        music_answers_batch(core.after(plain(cmd), reading), cmds, reading, outcome, next)
    } else {
        music_answers(core, cmd, reading, outcome, next)
    }
}

impl<S> AudioPlayer<S> {
    /// A player for the streams of a file.
    pub fn new(stream_info: StreamInfo, initial_volume: u32) -> (r: AudioPlayer<S>)
        ensures
            r.player.pending_audio@ == Seq::<AudioBuffer<S>>::empty(),
            r.player.core.stream_info == stream_info,
            r.player.core.duration_us == stream_info.duration_us,
            r.player.core.volume == initial_volume,
            r.player.core.subtitle_tracks@ == Seq::<SubtitleTrack>::empty(),
            r.player.core == (PlayerCore {
                clock: ClockState { paused: false, pause_pts: 0 },
                has_decoder: false,
                has_output: false,
                paused: false,
                pre_mute_volume: None,
                audio_delay_us: 0,
                pending_seeks: 0,
                queued_seek: None,
                seek_floor_us: 0,
                seek_landed: true,
                last_audio_end_us: 0,
                eof_audio_end_us: None,
                current_subtitle_idx: None,
                last_subtitle_text: None,
                current_audio_track: 0,
                ..r.player.core
            }),
    {
        let core = PlayerCore {
            clock: ClockState::new(),
            has_decoder: false,
            has_output: false,
            paused: false,
            volume: initial_volume,
            pre_mute_volume: None,
            audio_delay_us: 0,
            duration_us: stream_info.duration_us,
            pending_seeks: 0,
            queued_seek: None,
            seek_floor_us: 0,
            seek_landed: true,
            last_audio_end_us: 0,
            eof_audio_end_us: None,
            subtitle_tracks: Vec::new(),
            current_subtitle_idx: None,
            last_subtitle_text: None,
            stream_info,
            current_audio_track: 0,
        };
        AudioPlayer { player: AudioOnlyPlayer { core, pending_audio: VecDeque::new() } }
    }

    /// Seeks to where playback is to start, before it does.
    pub fn seek_to(&mut self, target_us: i64) -> (effects: Vec<Effect>)
        ensures
            final(self).player.pending_audio == old(self).player.pending_audio,
            final(self).player.core == (PlayerCore {
                pending_seeks: old(self).player.core.more_pending(),
                ..old(self).player.core
            }),
            effects@ == seq![
                Effect::Demux(DemuxCommand::Seek { target_pts: target_us, forward: false }),
            ] + old(self).player.core.audio_flushes() + seq![Effect::SetClock(target_us)],
            forall|e: Effect| #[trigger]
                effects@.contains(e) <==> {
                    ||| e == Effect::Demux(
                        DemuxCommand::Seek { target_pts: target_us, forward: false },
                    )
                    ||| e == Effect::FlushAudioDecoder && old(self).player.core.has_decoder
                    ||| e == Effect::AudioFlush && old(self).player.core.has_output
                    ||| e == Effect::SetClock(target_us)
                },
    {
        let mut effects: Vec<Effect> = Vec::new();
        effects.push(
            Effect::Demux(DemuxCommand::Seek { target_pts: target_us, forward: false }),
        );
        self.player.core.count_pending();
        push_when(&mut effects, self.player.core.has_decoder, Effect::FlushAudioDecoder);
        push_when(&mut effects, self.player.core.has_output, Effect::AudioFlush);
        effects.push(Effect::SetClock(target_us));
        assert(effects@ =~= seq![
            Effect::Demux(DemuxCommand::Seek { target_pts: target_us, forward: false }),
        ] + old(self).player.core.audio_flushes() + seq![Effect::SetClock(target_us)]);
        proof {
            let seek = Effect::Demux(
                DemuxCommand::Seek { target_pts: target_us, forward: false },
            );
            let flushes = old(self).player.core.audio_flushes();
            lemma_one_effect(seek);
            lemma_one_effect(Effect::SetClock(target_us));
            lemma_audio_is_dropped_everywhere(old(self).player.core);
            lemma_effects_behind(seq![seek], flushes);
            lemma_effects_behind(seq![seek] + flushes, seq![Effect::SetClock(target_us)]);
        }
        effects
    }

    /// Handles a command, without regard to what else waits.
    pub fn handle_single(&mut self, cmd: Command, reading: i64) -> (outcome: Outcome)
        ensures
            final(self).player.pending_audio == old(self).player.pending_audio,
            music_answers(
                old(self).player.core,
                cmd,
                reading,
                outcome,
                final(self).player.core,
            ),
    {
        if heeds(cmd) {
            self.player.core.handle_single(without_exactness(cmd), reading)
        } else {
            Outcome { quit: false, effects: Vec::new() }
        }
    }

    /// Handles a batch of commands.
    pub fn handle_batch(&mut self, cmds: &Vec<Command>, reading: i64) -> (outcome: Outcome)
        requires
            is_batch(cmds@),
        ensures
            final(self).player.pending_audio == old(self).player.pending_audio,
            music_answers_batch(
                old(self).player.core,
                cmds@,
                reading,
                outcome,
                final(self).player.core,
            ),
    {
        let mut i: usize = 0;
        assert(plain_all(cmds@.take(0)) =~= Seq::empty());
        while i < cmds.len()
            invariant
                i <= cmds.len(),
                is_batch(cmds@),
                forall|k: int| 0 <= k < i ==> is_relative(#[trigger] cmds@[k]),
                self.player.pending_audio == old(self).player.pending_audio,
                self.player.core == old(self).player.core.with_seeks(
                    plain_all(cmds@.take(i as int)),
                ),
            decreases cmds.len() - i,
        {
            match cmds[i] {
                Command::SeekRelative { delta_us, exact: _ } => {
                    self.player.core.queue_seek(delta_us, false);
                    assert(plain_all(cmds@.take(i + 1)).drop_last() =~= plain_all(
                        cmds@.take(i as int),
                    ));
                    i = i + 1;
                },
                other => {
                    assert(i == cmds.len() - 1);
                    assert(cmds@.take(i as int) =~= cmds@.drop_last());
                    return self.handle_single(other, reading);
                },
            }
        }
        assert(cmds@.take(i as int) =~= cmds@);
        Outcome { quit: false, effects: Vec::new() }
    }

    /// Handles a command. A relative seek takes those that wait behind it off the channel with it,
    /// and the command behind those.
    pub fn handle_command(&mut self, cmd: Command, reading: i64, cmd_rx: &Receiver<Command>) -> (outcome:
        Outcome)
        ensures
            final(self).player.pending_audio == old(self).player.pending_audio,
            exists|cmds: Seq<Command>|
                is_batch(cmds) && #[trigger] music_answers_all(
                    old(self).player.core,
                    cmd,
                    cmds,
                    reading,
                    outcome,
                    final(self).player.core,
                ),
    {
        let ghost before = self.player.core;
        let first = self.handle_single(cmd, reading);
        match cmd {
            Command::SeekRelative { delta_us: _, exact: _ } => {
                let batch = Batch::collect(cmd_rx);
                let outcome = self.handle_batch(&batch.cmds, reading);
                assert(music_answers_all(
                    before,
                    cmd,
                    batch.cmds@,
                    reading,
                    outcome,
                    self.player.core,
                ));
                outcome
            },
            _ => {
                assert(is_batch(Seq::empty()));
                assert(music_answers_all(
                    before,
                    cmd,
                    Seq::empty(),
                    reading,
                    first,
                    self.player.core,
                ));
                first
            },
        }
    }

    /// Dispatches the queued seek.
    pub fn execute_queued_seek(&mut self, reading: i64, buffered: usize) -> (effects: Vec<Effect>)
        ensures
            old(self).player.executes(reading, buffered as int, effects@, final(self).player),
    {
        self.player.execute_queued_seek(reading, buffered)
    }

    /// Handles a packet, up to its decoding.
    pub fn handle_packet<P>(&mut self, packet: &DemuxPacket<P>) -> (r: (PacketVerdict, Vec<Effect>))
        ensures
            r.0 == old(self).player.verdict(*packet),
            if packet is Flush {
                &&& final(self).player.core == (PlayerCore {
                    pending_seeks: old(self).player.core.less_pending(),
                    ..old(self).player.core
                })
                &&& final(self).player.pending_audio@ == Seq::<AudioBuffer<S>>::empty()
                &&& r.1@ == only_if(
                    old(self).player.core.has_decoder,
                    Effect::FlushAudioDecoder,
                ) + only_if(old(self).player.core.has_output, Effect::AudioFlushQuick)
            } else {
                *final(self) == *old(self) && r.1@ == Seq::<Effect>::empty()
            },
            *packet is Eof && old(self).player.core.pending_seeks == 0 ==> r.0
                == PacketVerdict::Drain,
            forall|e: Effect| #[trigger]
                r.1@.contains(e) <==> {
                    ||| *packet is Flush && e == Effect::FlushAudioDecoder
                        && old(self).player.core.has_decoder
                    ||| *packet is Flush && e == Effect::AudioFlushQuick
                        && old(self).player.core.has_output
                },
    {
        self.player.handle_packet(packet)
    }

    /// Ends the file once the position is past the end of all audio.
    pub fn check_eof(&mut self, reading: i64) -> (effects: Vec<Effect>)
        ensures
            ({
                let core = old(self).player.core;
                let done = core.eof_audio_end_us matches Some(end) && core.position(reading)
                    >= end;
                &&& effects@ == only_if(done, Effect::UiEnd(EndReason::Eof))
                &&& final(self).player.pending_audio == old(self).player.pending_audio
                &&& final(self).player.core == if done {
                    PlayerCore { eof_audio_end_us: None, ..core }
                } else {
                    core
                }
            }),
    {
        self.player.core.check_eof(reading, 1)
    }
}

/// The terminal player plays, pauses, seeks, changes the volume, the track and the file, and quits.
/// It has no subtitles, no mute, no delay and no absolute seeks.
pub proof fn lemma_heeded_commands(cmd: Command)
    ensures
        is_heeded(cmd) <==> {
            ||| cmd == Command::Quit
            ||| cmd == Command::PlayPause
            ||| cmd == Command::VolumeUp
            ||| cmd == Command::VolumeDown
            ||| cmd == Command::CycleAudioTrack
            ||| cmd == Command::NextFile
            ||| cmd == Command::PrevFile
            ||| cmd is SeekRelative
        },
        plain(cmd) == match cmd {
            Command::SeekRelative { delta_us, .. } => Command::SeekRelative {
                delta_us,
                exact: false,
            },
            other => other,
        },
{
}

/// A command that the terminal player heeds does what it does in the window, but that no seek is
/// exact; any other does nothing.
pub proof fn lemma_music_commands(
    core: PlayerCore,
    cmd: Command,
    reading: i64,
    outcome: Outcome,
    next: PlayerCore,
)
    requires
        music_answers(core, cmd, reading, outcome, next),
    ensures
        cmd == Command::ToggleMute || cmd == Command::CycleSubtitle || cmd
            == Command::AudioDelayIncrease || cmd == Command::AudioDelayDecrease || cmd
            == Command::ToggleFullscreen || cmd is SeekAbsolute ==> next == core && !outcome.quit
            && outcome.effects@.len() == 0,
        cmd == Command::Quit || cmd == Command::PlayPause || cmd == Command::VolumeUp || cmd
            == Command::VolumeDown || cmd == Command::CycleAudioTrack || cmd == Command::NextFile
            || cmd == Command::PrevFile ==> core.answers(cmd, reading, outcome, next),
        cmd matches Command::SeekRelative { delta_us, .. } ==> core.answers(
            Command::SeekRelative { delta_us, exact: false },
            reading,
            outcome,
            next,
        ),
        outcome.quit <==> cmd == Command::Quit,
{
}

/// Seeks in a row are queued as one that is not exact, and the command behind them is answered.
pub proof fn lemma_music_batch(
    core: PlayerCore,
    cmds: Seq<Command>,
    reading: i64,
    outcome: Outcome,
    next: PlayerCore,
)
    requires
        music_answers_batch(core, cmds, reading, outcome, next),
    ensures
        cmds.len() == 0 ==> next == core && outcome.effects@.len() == 0 && !outcome.quit,
        cmds.len() > 0 && cmds.last() is SeekRelative ==> outcome.effects@.len() == 0
            && !outcome.quit && next == (PlayerCore { queued_seek: next.queued_seek, ..core }),
        cmds.len() > 0 && !(cmds.last() is SeekRelative) ==> music_answers(
            core.with_seeks(plain_all(cmds.drop_last())),
            cmds.last(),
            reading,
            outcome,
            next,
        ),
        forall|k: int|
            0 <= k < cmds.len() ==> (#[trigger] plain_all(cmds)[k]) == plain(cmds[k]),
{
    if cmds.len() == 0 {
        assert(plain_all(cmds) =~= Seq::empty());
    }
}

proof fn lemma_music_rest(
    a: Seq<Seq<char>>,
    i: int,
    b: Seq<Seq<char>>,
    j: int,
    settings: MusicSettings,
)
    requires
        0 <= i <= a.len(),
        0 <= j <= b.len(),
        a.skip(i) == b.skip(j),
    ensures
        parsed_music(a, i, settings) == parsed_music(b, j, settings),
    decreases a.len() - i,
{
    assert(a.skip(i).len() == a.len() - i);
    assert(b.skip(j).len() == b.len() - j);
    if i < a.len() {
        assert(a.skip(i)[0] == a[i]);
        assert(b.skip(j)[0] == b[j]);
        assert(a.skip(i + 1) =~= a.skip(i).skip(1));
        assert(b.skip(j + 1) =~= b.skip(j).skip(1));
        lemma_music_rest(
            a,
            i + 1,
            b,
            j + 1,
            MusicSettings { files: settings.files.push(a[i]), ..settings },
        );
        lemma_music_rest(
            a,
            i + 1,
            b,
            j + 1,
            MusicSettings { verbose: at_most(a[i].len() - 1, 255), ..settings },
        );
        if i + 1 < a.len() {
            assert(a.skip(i)[1] == a[i + 1]);
            assert(b.skip(j)[1] == b[j + 1]);
            assert(a.skip(i + 2) =~= a.skip(i).skip(2));
            assert(b.skip(j + 2) =~= b.skip(j).skip(2));
            if let Some(changed) = music_with_value(settings, a[i], a[i + 1]) {
                lemma_music_rest(a, i + 2, b, j + 2, changed);
            }
        }
    }
}

proof fn lemma_music_goes_on(
    first: Seq<Seq<char>>,
    rest: Seq<Seq<char>>,
    settings: MusicSettings,
)
    ensures
        parsed_music(first + rest, first.len() as int, settings) == parsed_music(rest, 0, settings),
{
    assert((first + rest).skip(first.len() as int) =~= rest);
    assert(rest.skip(0) =~= rest);
    lemma_music_rest(first + rest, first.len() as int, rest, 0, settings);
}

proof fn lemma_music_literals()
    ensures
        "-"@ == seq!['-'],
        "-h"@ == seq!['-', 'h'],
        "-v"@ == seq!['-', 'v'],
        "--help"@ == seq!['-', '-', 'h', 'e', 'l', 'p'],
        "--volume"@ == seq!['-', '-', 'v', 'o', 'l', 'u', 'm', 'e'],
        "--audio-track"@.len() == 13 && "--audio-track"@[0] == '-' && "--audio-track"@[1] == '-',
        "--start"@ == seq!['-', '-', 's', 't', 'a', 'r', 't'],
{
    reveal_strlit("-");
    reveal_strlit("-h");
    reveal_strlit("-v");
    reveal_strlit("--help");
    reveal_strlit("--volume");
    reveal_strlit("--audio-track");
    reveal_strlit("--start");
    assert("-"@ =~= seq!['-']);
    assert("-h"@ =~= seq!['-', 'h']);
    assert("-v"@ =~= seq!['-', 'v']);
    assert("--help"@ =~= seq!['-', '-', 'h', 'e', 'l', 'p']);
    assert("--volume"@ =~= seq!['-', '-', 'v', 'o', 'l', 'u', 'm', 'e']);
    assert("--start"@ =~= seq!['-', '-', 's', 't', 'a', 'r', 't']);
}

/// The command line of the terminal player: files in the order in which they are named, the volume,
/// the track and the start that are asked for, and the usage. What is no option is refused.
#[verifier::spinoff_prover]
#[verifier::rlimit(50)]
pub proof fn lemma_music_arguments(
    arg: Seq<char>,
    value: Seq<char>,
    n: nat,
    rest: Seq<Seq<char>>,
    settings: MusicSettings,
)
    ensures
        arg.len() > 0 && arg[0] != '-' ==> parsed_music(seq![arg] + rest, 0, settings)
            == parsed_music(
            rest,
            0,
            MusicSettings { files: settings.files.push(arg), ..settings },
        ),
        n <= u32::MAX ==> parsed_music(seq!["--volume"@, numeral(n)] + rest, 0, settings)
            == parsed_music(rest, 0, MusicSettings { volume: n as int, ..settings }),
        n <= usize::MAX ==> parsed_music(seq!["--audio-track"@, numeral(n)] + rest, 0, settings)
            == parsed_music(rest, 0, MusicSettings { audio_track: n as int, ..settings }),
        parsed_music(seq!["--start"@, value] + rest, 0, settings) == parsed_music(
            rest,
            0,
            MusicSettings { start: Some(value), ..settings },
        ),
        parsed_music(seq!["-h"@] + rest, 0, settings) == Err::<MusicSettings, Refusal>(
            Refusal::Help,
        ),
        parsed_music(seq!["--help"@] + rest, 0, settings) == Err::<MusicSettings, Refusal>(
            Refusal::Help,
        ),
        parsed_music(seq!["-v"@] + rest, 0, settings) == parsed_music(
            rest,
            0,
            MusicSettings { verbose: 1, ..settings },
        ),
        parsed_music(seq!["--volume"@], 0, settings) == Err::<MusicSettings, Refusal>(
            Refusal::MissingValue { flag: "--volume"@ },
        ),
        value.len() > 0 && value[0] == '-' ==> parsed_music(
            seq!["--volume"@, value] + rest,
            0,
            settings,
        ) == Err::<MusicSettings, Refusal>(Refusal::InvalidValue { flag: "--volume"@, value }),
        arg.len() >= 2 && arg[0] == '-' && arg[1] != '-' && arg[1] != 'h' && arg[1] != 'v'
            ==> parsed_music(seq![arg] + rest, 0, settings) == Err::<MusicSettings, Refusal>(
            Refusal::UnknownOption { option: arg },
        ),
        settings.files.len() > 0 ==> parsed_music(Seq::empty(), 0, settings) == Ok::<
            MusicSettings,
            Refusal,
        >(settings),
        settings.files.len() == 0 ==> parsed_music(Seq::empty(), 0, settings) == Err::<
            MusicSettings,
            Refusal,
        >(Refusal::MissingFiles),
{
    lemma_music_literals();
    lemma_numeral_reads_back(n, u32::MAX as int);
    lemma_numeral_reads_back(n, usize::MAX as int);
    lemma_only_digits_are_numbers(value, u32::MAX as int);
    lemma_music_goes_on(
        seq![arg],
        rest,
        MusicSettings { files: settings.files.push(arg), ..settings },
    );
    lemma_music_goes_on(
        seq!["--volume"@, numeral(n)],
        rest,
        MusicSettings { volume: n as int, ..settings },
    );
    lemma_music_goes_on(
        seq!["--audio-track"@, numeral(n)],
        rest,
        MusicSettings { audio_track: n as int, ..settings },
    );
    lemma_music_goes_on(
        seq!["--start"@, value],
        rest,
        MusicSettings { start: Some(value), ..settings },
    );
    lemma_music_goes_on(seq!["-v"@], rest, MusicSettings { verbose: 1, ..settings });
    assert((seq![arg] + rest)[0] == arg);
    let a = seq!["--volume"@, numeral(n)] + rest;
    assert(a[0] == "--volume"@ && a[1] == numeral(n));
    let b = seq!["--audio-track"@, numeral(n)] + rest;
    assert(b[0] == "--audio-track"@ && b[1] == numeral(n));
    let c = seq!["--start"@, value] + rest;
    assert(c[0] == "--start"@ && c[1] == value);
    let d = seq!["--volume"@, value] + rest;
    assert(d[0] == "--volume"@ && d[1] == value);
    assert((seq!["-h"@] + rest)[0] == "-h"@);
    assert((seq!["--help"@] + rest)[0] == "--help"@);
    assert((seq!["-v"@] + rest)[0] == "-v"@);
    assert("-v"@.take(2) =~= "-v"@);
    if arg.len() > 0 {
        assert(arg.take(1)[0] == arg[0]);
        if arg[0] == '-' {
            assert(arg.take(1) =~= "-"@);
        }
        if arg.len() >= 2 {
            assert(arg.take(2)[0] == arg[0] && arg.take(2)[1] == arg[1]);
        }
    }
}

/// What is not asked for: full volume, the first audio track, the start of the file, no logging.
pub proof fn lemma_music_defaults()
    ensures
        default_music().files.len() == 0,
        default_music().volume == 100,
        default_music().audio_track == 1,
        default_music().start is None,
        default_music().verbose == 0,
{
}

/// A refusal says which option or value it is about.
#[verifier::spinoff_prover]
#[verifier::rlimit(50)]
pub proof fn lemma_music_refusals(flag: Seq<char>, value: Seq<char>)
    ensures
        music_refusal_text(Refusal::MissingValue { flag }) == flag + " requires a value"@,
        music_refusal_text(Refusal::InvalidValue { flag, value }) == "invalid value '"@ + value
            + "' for "@ + flag + ": expected integer"@,
        music_refusal_text(Refusal::UnknownOption { option: flag }) == "unknown option '"@ + flag
            + "'\n\n"@ + MUSIC_USAGE@,
        music_refusal_text(Refusal::MissingFiles)
            == "required arguments not provided: <FILE>...\n\n"@ + MUSIC_USAGE@,
        music_refusal_text(Refusal::Help) == MUSIC_USAGE@,
{
}

} // verus!
