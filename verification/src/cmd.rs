//! Messages between the parts of the player, and the command line.
//!
//! - [`Command`]: user interface to player (key presses, seek, quit)
//! - [`DemuxCommand`]: player to demuxer (seek, stop, audio track change)
//! - [`DemuxPacket`]: demuxer to player (packets, flush, end of file)
//! - [`UiUpdate`]: player to user interface (messages, pause state, seek flush)

use vstd::prelude::*;

use crate::decimal::{decimal_text, parse_double, parsed_double, signed_text};
use crate::order::{lemma_sorted, ordered, place, placed, sorted};
use crate::text::{
    all_digits, append, chars_of, equal_ignoring_case, find_char, has_prefix, lemma_found,
    lemma_numeral_reads_back, lemma_only_digits_are_numbers, lemma_unsigned_nonnegative, numeral,
    numeral_value, parse_unsigned, parsed_unsigned, position_of,
    same_ignoring_case, same_text, starts_with, text_of, texts,
};
use crate::time::{decimal_us, lemma_seconds_exact, microseconds, to_microseconds};

verus! {

/// Commands sent from the input layer to the player. A relative seek is a number of microseconds,
/// forward or back.
#[derive(Clone, Copy, Debug, PartialEq, Eq, Structural)]
pub enum Command {
    PlayPause,
    SeekRelative { delta_us: i64, exact: bool },
    SeekAbsolute { target_us: i64 },
    VolumeUp,
    VolumeDown,
    ToggleMute,
    CycleAudioTrack,
    CycleSubtitle,
    AudioDelayIncrease,
    AudioDelayDecrease,
    NextFile,
    PrevFile,
    ToggleFullscreen,
    Quit,
}

/// Why playback of the current file ended.
#[derive(Clone, Copy, Debug, PartialEq, Eq, Structural)]
pub enum EndReason {
    Eof,
    NextFile,
    PrevFile,
    Quit,
}

/// Packets flowing from the demuxer to the player.
#[derive(Clone, Copy, Debug)]
pub enum DemuxPacket<P> {
    Video(P),
    Audio(P),
    Subtitle(P),
    /// Seek completed: all packets after it are from the new position.
    Flush,
    Eof,
}

/// Commands sent from the player to the demuxer.
#[derive(Clone, Copy, Debug, PartialEq, Eq, Structural)]
pub enum DemuxCommand {
    Seek {
        target_pts: i64,
        /// Seek forward (keyframe at or after the target) or back.
        forward: bool,
    },
    /// Switch to another audio stream.
    ChangeAudio(usize),
    Stop,
}

/// A video frame ready for display.
#[derive(Debug)]
pub struct VideoFrame<B> {
    /// The picture, taken once it is handed to the display.
    pub pixel_buffer: Option<B>,
    /// Presentation time in microseconds.
    pub pts_us: i64,
    /// Duration in microseconds.
    pub duration_us: i64,
    /// Whether the display is flushed and its time set before the frame is shown.
    pub seek_flush: bool,
}

/// Updates sent from the player to the user interface.
#[derive(Debug)]
pub enum UiUpdate {
    Osd(String),
    SubtitleText(Option<String>),
    VideoSize { width: u32, height: u32 },
    /// Pause or resume the display.
    Paused(bool),
    /// Flush the display and set its time after a seek.
    SeekFlush(i64),
    EndOfFile(EndReason),
}

/// Parsed command line arguments.
#[derive(Debug, Clone)]
pub struct Args {
    /// One or more media files or directories.
    pub files: Vec<String>,
    /// Initial volume percentage (0-100).
    pub volume: u32,
    /// Audio delay in microseconds (can be negative).
    pub audio_delay_us: i64,
    /// Audio track index (1-based).
    pub audio_track: usize,
    /// External subtitle file.
    pub sub_file: Option<String>,
    /// Start position (HH:MM:SS, MM:SS, or seconds).
    pub start: Option<String>,
    /// Start in fullscreen.
    pub fullscreen: bool,
    /// Verbose logging (-v for stream information, -vv for debugging).
    pub verbose: u8,
}

/// What a command line asks for.
pub struct Settings {
    pub files: Seq<Seq<char>>,
    pub volume: int,
    pub audio_delay_us: int,
    pub audio_track: int,
    pub sub_file: Option<Seq<char>>,
    pub start: Option<Seq<char>>,
    pub fullscreen: bool,
    pub verbose: int,
}

/// The text of an optional string.
pub open spec fn optional(s: Option<String>) -> Option<Seq<char>> {
    match s {
        Some(t) => Some(t@),
        None => None,
    }
}

impl View for Args {
    type V = Settings;

    open spec fn view(&self) -> Settings {
        Settings {
            files: texts(self.files@),
            volume: self.volume as int,
            audio_delay_us: self.audio_delay_us as int,
            audio_track: self.audio_track as int,
            sub_file: optional(self.sub_file),
            start: optional(self.start),
            fullscreen: self.fullscreen,
            verbose: self.verbose as int,
        }
    }
}

/// Why a command line starts no playback.
#[derive(Debug, Clone)]
pub enum ArgsError {
    /// The usage is asked for.
    Help,
    /// The version is asked for.
    Version,
    /// An option stands last that takes a value.
    MissingValue { flag: String },
    /// An option's value is not a number of the kind it takes.
    InvalidValue { flag: String, value: String },
    /// There is no such option.
    UnknownOption { option: String },
    /// No file is named.
    MissingFiles,
}

/// Why a command line starts no playback, over texts.
pub enum Refusal {
    Help,
    Version,
    MissingValue { flag: Seq<char> },
    InvalidValue { flag: Seq<char>, value: Seq<char> },
    UnknownOption { option: Seq<char> },
    MissingFiles,
}

impl View for ArgsError {
    type V = Refusal;

    open spec fn view(&self) -> Refusal {
        match *self {
            ArgsError::Help => Refusal::Help,
            ArgsError::Version => Refusal::Version,
            ArgsError::MissingValue { flag } => Refusal::MissingValue { flag: flag@ },
            ArgsError::InvalidValue { flag, value } => Refusal::InvalidValue {
                flag: flag@,
                value: value@,
            },
            ArgsError::UnknownOption { option } => Refusal::UnknownOption { option: option@ },
            ArgsError::MissingFiles => Refusal::MissingFiles,
        }
    }
}

/// The version of the player.
pub const VERSION: &'static str = "0.1.0";

/// The usage, behind the version.
pub const USAGE: &'static str = " — macOS media player

Usage: play [OPTIONS] <FILE|DIR>...

Arguments:
  <FILE|DIR>...  One or more media files or directories

Options:
      --volume <N>          Initial volume percentage 0-100 [default: 100]
      --audio-delay <SECS>  Audio delay in seconds, can be negative [default: 0.0]
      --audio-track <N>     Audio track index, 1-based [default: 1]
      --sub-file <PATH>     External SRT subtitle file
      --start <TIME>        Start position (HH:MM:SS, MM:SS, or seconds)
      --no-fullscreen       Start windowed instead of fullscreen
  -v                        Verbose logging (-v info, -vv debug)
  -V, --version             Print version
  -h, --help                Print help";

/// The text that names the player and its version.
pub open spec fn version_text() -> Seq<char> {
    "play "@ + VERSION@
}

/// The text that explains the command line.
pub open spec fn usage_text() -> Seq<char> {
    version_text() + USAGE@
}

/// The text that names the player and its version.
pub fn version() -> (r: String)
    ensures
        r@ == version_text(),
{
    let mut out: String = "play ".to_string();
    append(&mut out, VERSION);
    out
}

/// The text that explains the command line.
pub fn usage() -> (r: String)
    ensures
        r@ == usage_text(),
{
    let mut out = version();
    append(&mut out, USAGE);
    out
}

/// What is said of a command line that starts no playback.
pub open spec fn refusal_text(e: Refusal) -> Seq<char> {
    match e {
        Refusal::Help => usage_text(),
        Refusal::Version => version_text(),
        Refusal::MissingValue { flag } => flag + " requires a value"@,
        Refusal::InvalidValue { flag, value } => "invalid value '"@ + value + "' for "@ + flag
            + ": expected "@ + if flag == "--audio-delay"@ {
            "number"@
        } else {
            "integer"@
        },
        Refusal::UnknownOption { option } => "unknown option '"@ + option + "'\n\n"@
            + usage_text(),
        Refusal::MissingFiles => "required arguments not provided: <FILE>...\n\n"@ + usage_text(),
    }
}

impl ArgsError {
    /// What is said of a command line that starts no playback.
    pub fn message(&self) -> (r: String)
        ensures
            r@ == refusal_text(self@),
    {
        match self {
            ArgsError::Help => usage(),
            ArgsError::Version => version(),
            ArgsError::MissingValue { flag } => {
                let mut out: String = flag.clone();
                append(&mut out, " requires a value");
                out
            },
            ArgsError::InvalidValue { flag, value } => {
                let mut out: String = "invalid value '".to_string();
                append(&mut out, value.as_str());
                append(&mut out, "' for ");
                append(&mut out, flag.as_str());
                append(&mut out, ": expected ");
                if same_text(flag.as_str(), "--audio-delay") {
                    append(&mut out, "number");
                } else {
                    append(&mut out, "integer");
                }
                out
            },
            ArgsError::UnknownOption { option } => {
                let mut out: String = "unknown option '".to_string();
                append(&mut out, option.as_str());
                append(&mut out, "'\n\n");
                append(&mut out, usage().as_str());
                out
            },
            ArgsError::MissingFiles => {
                let mut out: String =
                    "required arguments not provided: <FILE>...\n\n".to_string();
                append(&mut out, usage().as_str());
                out
            },
        }
    }
}

/// Whether an argument is a long option with its value behind an equals sign.
pub open spec fn has_inline_value(arg: Seq<char>) -> bool {
    starts_with(arg, "--"@) && find_char(arg, '=', 0) < arg.len()
}

/// The name of the option that an argument gives.
pub open spec fn option_name(arg: Seq<char>) -> Seq<char> {
    if has_inline_value(arg) {
        arg.take(find_char(arg, '=', 0))
    } else {
        arg
    }
}

/// The value of the option at `i`, behind its equals sign or in the next argument, and where the
/// arguments go on.
pub open spec fn option_value(argv: Seq<Seq<char>>, i: int) -> Option<(Seq<char>, int)> {
    if has_inline_value(argv[i]) {
        Some((argv[i].skip(find_char(argv[i], '=', 0) + 1), i + 1))
    } else if i + 1 < argv.len() {
        Some((argv[i + 1], i + 2))
    } else {
        None
    }
}

/// Whether an option asks for more to be logged: a dash and one or more of the letter V.
pub open spec fn is_verbosity(name: Seq<char>) -> bool {
    starts_with(name, "-v"@) && forall|i: int| 1 <= i < name.len() ==> name[i] == 'v'
}

/// The smaller of two numbers.
pub open spec fn at_most(x: int, limit: int) -> int {
    if x < limit {
        x
    } else {
        limit
    }
}

/// What the arguments from `i` on ask for, after `settings`. Behind `--` all of them are files.
pub open spec fn parsed_args(
    argv: Seq<Seq<char>>,
    i: int,
    files_only: bool,
    settings: Settings,
) -> Result<Settings, Refusal>
    decreases argv.len() - i,
{
    if !(0 <= i < argv.len()) {
        if settings.files.len() == 0 {
            Err(Refusal::MissingFiles)
        } else {
            Ok(settings)
        }
    } else {
        let name = option_name(argv[i]);
        if files_only {
            parsed_args(
                argv,
                i + 1,
                true,
                Settings { files: settings.files.push(argv[i]), ..settings },
            )
        } else if name == "--"@ {
            parsed_args(argv, i + 1, true, settings)
        } else if name == "-h"@ || name == "--help"@ {
            Err(Refusal::Help)
        } else if name == "-V"@ || name == "--version"@ {
            Err(Refusal::Version)
        } else if takes_value(name) {
            match option_value(argv, i) {
                None => Err(Refusal::MissingValue { flag: name }),
                Some((value, next)) => match with_value(settings, name, value) {
                    None => Err(Refusal::InvalidValue { flag: name, value }),
                    Some(changed) => parsed_args(argv, next, false, changed),
                },
            }
        } else if name == "--fullscreen"@ {
            parsed_args(argv, i + 1, false, Settings { fullscreen: true, ..settings })
        } else if name == "--no-fullscreen"@ {
            parsed_args(argv, i + 1, false, Settings { fullscreen: false, ..settings })
        } else if is_verbosity(name) {
            parsed_args(
                argv,
                i + 1,
                false,
                Settings { verbose: at_most(name.len() - 1, 255), ..settings },
            )
        } else if starts_with(name, "-"@) {
            Err(Refusal::UnknownOption { option: name })
        } else {
            parsed_args(
                argv,
                i + 1,
                false,
                Settings { files: settings.files.push(argv[i]), ..settings },
            )
        }
    }
}

/// Whether an option takes a value.
pub open spec fn takes_value(name: Seq<char>) -> bool {
    ||| name == "--volume"@
    ||| name == "--audio-delay"@
    ||| name == "--audio-track"@
    ||| name == "--sub-file"@
    ||| name == "--start"@
}

/// Settings with the value of an option; none where it is not a number of the kind it takes.
pub open spec fn with_value(settings: Settings, name: Seq<char>, value: Seq<char>) -> Option<
    Settings,
> {
    if name == "--volume"@ {
        match parsed_unsigned(value, u32::MAX as int) {
            Some(n) => Some(Settings { volume: at_most(n, 100), ..settings }),
            None => None,
        }
    } else if name == "--audio-delay"@ {
        match parsed_double(value) {
            Some(x) => Some(Settings { audio_delay_us: microseconds(x), ..settings }),
            None => None,
        }
    } else if name == "--audio-track"@ {
        match parsed_unsigned(value, usize::MAX as int) {
            Some(n) => Some(Settings { audio_track: n, ..settings }),
            None => None,
        }
    } else if name == "--sub-file"@ {
        Some(Settings { sub_file: Some(value), ..settings })
    } else {
        Some(Settings { start: Some(value), ..settings })
    }
}

/// A delay in seconds, with a sign and with up to six digits behind the point, is taken exactly.
pub proof fn lemma_audio_delay_exact(
    settings: Settings,
    negative: bool,
    whole: Seq<char>,
    fraction: Seq<char>,
)
    requires
        all_digits(whole),
        all_digits(fraction),
        whole.len() > 0,
        fraction.len() <= 6,
        numeral_value(whole) < 0x4000_0000,
    ensures
        with_value(
            settings,
            "--audio-delay"@,
            signed_text(negative, decimal_text(whole, fraction)),
        ) == Some(
            Settings {
                audio_delay_us: if negative {
                    -decimal_us(whole, fraction)
                } else {
                    decimal_us(whole, fraction)
                },
                ..settings
            },
        ),
{
    reveal_strlit("--volume");
    reveal_strlit("--audio-delay");
    assert("--volume"@.len() != "--audio-delay"@.len());
    lemma_seconds_exact(negative, whole, fraction);
}

/// What an empty command line asks for, but for files.
pub open spec fn default_settings() -> Settings {
    Settings {
        files: Seq::empty(),
        volume: 100,
        audio_delay_us: 0,
        audio_track: 1,
        sub_file: None,
        start: None,
        fullscreen: true,
        verbose: 0,
    }
}

/// What the arguments from a place on ask for does not depend on those before it.
proof fn lemma_rest_decides(
    a: Seq<Seq<char>>,
    i: int,
    b: Seq<Seq<char>>,
    j: int,
    files_only: bool,
    settings: Settings,
)
    requires
        0 <= i <= a.len(),
        0 <= j <= b.len(),
        a.skip(i) == b.skip(j),
    ensures
        parsed_args(a, i, files_only, settings) == parsed_args(b, j, files_only, settings),
    decreases a.len() - i,
{
    assert(a.skip(i).len() == a.len() - i);
    assert(b.skip(j).len() == b.len() - j);
    if i < a.len() {
        assert(a.skip(i)[0] == a[i]);
        assert(b.skip(j)[0] == b[j]);
        assert(a.skip(i + 1) =~= a.skip(i).skip(1));
        assert(b.skip(j + 1) =~= b.skip(j).skip(1));
        let pushed = Settings { files: settings.files.push(a[i]), ..settings };
        lemma_rest_decides(a, i + 1, b, j + 1, files_only, pushed);
        lemma_rest_decides(a, i + 1, b, j + 1, true, settings);
        if !files_only {
            let name = option_name(a[i]);
            let loud = Settings { verbose: at_most(name.len() - 1, 255), ..settings };
            lemma_rest_decides(a, i + 1, b, j + 1, false, loud);
            let full = Settings { fullscreen: true, ..settings };
            lemma_rest_decides(a, i + 1, b, j + 1, false, full);
            let windowed = Settings { fullscreen: false, ..settings };
            lemma_rest_decides(a, i + 1, b, j + 1, false, windowed);
            if i + 1 < a.len() {
                assert(a.skip(i)[1] == a[i + 1]);
                assert(b.skip(j)[1] == b[j + 1]);
                assert(a.skip(i + 2) =~= a.skip(i).skip(2));
                assert(b.skip(j + 2) =~= b.skip(j).skip(2));
            }
            match option_value(a, i) {
                Some((value, next)) => {
                    match with_value(settings, name, value) {
                        Some(changed) => {
                            let other = if has_inline_value(a[i]) {
                                j + 1
                            } else {
                                j + 2
                            };
                            assert(option_value(b, j) == Some((value, other)));
                            lemma_rest_decides(a, next, b, other, false, changed);
                        },
                        None => {
                            assert(option_value(b, j) matches Some((v, _)) && v == value);
                        },
                    }
                },
                None => {
                    assert(option_value(b, j) is None);
                },
            }
        }
    }
}

/// The value of an option may stand behind an equals sign or in the next argument.
pub proof fn lemma_value_either_way(
    flag: Seq<char>,
    value: Seq<char>,
    rest: Seq<Seq<char>>,
    settings: Settings,
)
    requires
        takes_value(flag),
    ensures
        parsed_args(seq![flag + seq!['='] + value] + rest, 0, false, settings) == parsed_args(
            seq![flag, value] + rest,
            0,
            false,
            settings,
        ),
{
    reveal_strlit("--volume");
    reveal_strlit("--audio-delay");
    reveal_strlit("--audio-track");
    reveal_strlit("--sub-file");
    reveal_strlit("--start");
    reveal_strlit("--");
    reveal_strlit("--help");
    reveal_strlit("-h");
    reveal_strlit("-V");
    reveal_strlit("--version");
    let arg = flag + seq!['='] + value;
    let n = flag.len() as int;
    assert(forall|k: int| 0 <= k < n ==> #[trigger] flag[k] != '=');
    assert(forall|k: int| 0 <= k < n ==> #[trigger] arg[k] == flag[k]);
    lemma_found(arg, '=', 0, n);
    lemma_found(flag, '=', 0, n);
    assert(flag.take(2) =~= "--"@);
    assert(arg.take(2) =~= "--"@);
    assert(arg.take(n) =~= flag);
    assert(arg.skip(n + 1) =~= value);
    let one = seq![arg] + rest;
    let two = seq![flag, value] + rest;
    assert(option_value(one, 0) == Some((value, 1int)));
    assert(option_value(two, 0) == Some((value, 2int)));
    match with_value(settings, flag, value) {
        Some(changed) => {
            assert(one.skip(1) =~= rest);
            assert(two.skip(2) =~= rest);
            lemma_rest_decides(one, 1, two, 2, false, changed);
        },
        None => {},
    }
}

/// Behind `--` every argument names a file.
pub proof fn lemma_files_after_dashes(argv: Seq<Seq<char>>, i: int, settings: Settings)
    requires
        0 <= i <= argv.len(),
    ensures
        parsed_args(argv, i, true, settings) == if settings.files.len() + argv.len() - i == 0 {
            Err::<Settings, Refusal>(Refusal::MissingFiles)
        } else {
            Ok(Settings { files: settings.files + argv.skip(i), ..settings })
        },
    decreases argv.len() - i,
{
    if i < argv.len() {
        let pushed = Settings { files: settings.files.push(argv[i]), ..settings };
        lemma_files_after_dashes(argv, i + 1, pushed);
        assert(pushed.files + argv.skip(i + 1) =~= settings.files + argv.skip(i));
    } else {
        assert(settings.files + argv.skip(i) =~= settings.files);
    }
}

/// Whatever the arguments, there is a file to play and the volume is a percentage.
pub proof fn lemma_settings_in_range(
    argv: Seq<Seq<char>>,
    i: int,
    files_only: bool,
    settings: Settings,
)
    requires
        0 <= settings.volume <= 100,
    ensures
        parsed_args(argv, i, files_only, settings) matches Ok(s) ==> s.files.len() > 0 && 0
            <= s.volume <= 100,
    decreases argv.len() - i,
{
    if 0 <= i < argv.len() {
        let name = option_name(argv[i]);
        let pushed = Settings { files: settings.files.push(argv[i]), ..settings };
        lemma_settings_in_range(argv, i + 1, files_only, pushed);
        lemma_settings_in_range(argv, i + 1, true, settings);
        let loud = Settings { verbose: at_most(name.len() - 1, 255), ..settings };
        lemma_settings_in_range(argv, i + 1, false, loud);
        let full = Settings { fullscreen: true, ..settings };
        lemma_settings_in_range(argv, i + 1, false, full);
        let windowed = Settings { fullscreen: false, ..settings };
        lemma_settings_in_range(argv, i + 1, false, windowed);
        match option_value(argv, i) {
            Some((value, next)) => match with_value(settings, name, value) {
                Some(changed) => {
                    lemma_unsigned_nonnegative(value, u32::MAX as int);
                    lemma_settings_in_range(argv, next, false, changed);
                },
                None => {},
            },
            None => {},
        }
    }
}

/// An argument taken apart: the name of its option, and the value behind an equals sign.
fn split_option(arg: &str) -> (r: (String, Option<String>))
    ensures
        r.0@ == option_name(arg@),
        r.1 is Some == has_inline_value(arg@),
        r.1 matches Some(v) ==> v@ == arg@.skip(find_char(arg@, '=', 0) + 1),
{
    let v = chars_of(arg);
    let at: usize = position_of(&v, '=', 0);
    if has_prefix(&v, &chars_of("--")) && at < v.len() {
        let name = text_of(&v, 0, at);
        let value = text_of(&v, at + 1, v.len());
        assert(name@ =~= arg@.take(at as int));
        assert(value@ =~= arg@.skip(at + 1));
        (name, Some(value))
    } else {
        (arg.to_string(), None)
    }
}

/// Takes the value of the option at `i`, and says where the arguments go on.
fn take_value(inline_value: Option<String>, argv: &Vec<String>, i: usize) -> (r: Option<
    (String, usize),
>)
    requires
        i < argv.len(),
        inline_value is Some == has_inline_value(argv@[i as int]@),
        inline_value matches Some(v) ==> v@ == argv@[i as int]@.skip(
            find_char(argv@[i as int]@, '=', 0) + 1,
        ),
    ensures
        match r {
            Some((value, next)) => option_value(texts(argv@), i as int) == Some(
                (value@, next as int),
            ) && i < next <= argv.len(),
            None => option_value(texts(argv@), i as int) is None,
        },
{
    assert(texts(argv@)[i as int] == argv@[i as int]@);
    match inline_value {
        Some(value) => Some((value, i + 1)),
        None => if argv.len() - i > 1 {
            assert(texts(argv@)[i + 1] == argv@[i + 1]@);
            Some((argv[i + 1].clone(), i + 2))
        } else {
            None
        },
    }
}

fn value_option(name: &str) -> (r: bool)
    ensures
        r == takes_value(name@),
{
    same_text(name, "--volume") || same_text(name, "--audio-delay") || same_text(
        name,
        "--audio-track",
    ) || same_text(name, "--sub-file") || same_text(name, "--start")
}

/// Whether an option asks for more to be logged, and how much.
pub fn verbosity(name: &Vec<char>) -> (r: Option<u8>)
    ensures
        match r {
            Some(n) => is_verbosity(name@) && n == at_most(name.len() - 1, 255),
            None => !is_verbosity(name@),
        },
{
    if !has_prefix(name, &chars_of("-v")) {
        return None;
    }
    proof {
        reveal_strlit("-v");
        assert("-v"@.len() == 2);
    }
    let mut i: usize = 1;
    while i < name.len()
        invariant
            1 <= i <= name.len(),
            forall|k: int| 1 <= k < i ==> name@[k] == 'v',
        decreases name.len() - i,
    {
        if name[i] != 'v' {
            return None;
        }
        i = i + 1;
    }
    if name.len() - 1 < 255 {
        Some((name.len() - 1) as u8)
    } else {
        Some(255)
    }
}

/// Sets what an option with a value asks for; says whether the value is of the kind it takes.
fn set_value(args: &mut Args, name: &str, value: &str) -> (r: bool)
    requires
        takes_value(name@),
    ensures
        r == (with_value(old(args)@, name@, value@) is Some),
        r ==> with_value(old(args)@, name@, value@) == Some(final(args)@),
{
    let v = chars_of(value);
    if same_text(name, "--volume") {
        match parse_unsigned(&v, u32::MAX as u64) {
            Some(n) => {
                args.volume = if n < 100 {
                    n as u32
                } else {
                    100
                };
                true
            },
            None => false,
        }
    } else if same_text(name, "--audio-delay") {
        match parse_double(&v) {
            Some(x) => {
                args.audio_delay_us = to_microseconds(x);
                true
            },
            None => false,
        }
    } else if same_text(name, "--audio-track") {
        match parse_unsigned(&v, usize::MAX as u64) {
            Some(n) => {
                args.audio_track = n as usize;
                true
            },
            None => false,
        }
    } else if same_text(name, "--sub-file") {
        args.sub_file = Some(value.to_string());
        true
    } else {
        args.start = Some(value.to_string());
        true
    }
}

/// What became of one argument.
enum Step {
    /// The arguments go on at `next`.
    On { next: usize, files_only: bool },
    /// Playback does not start.
    Refused(ArgsError),
}

/// Adds a file.
fn add_file(args: &mut Args, file: String)
    ensures
        final(args)@ == (Settings { files: old(args)@.files.push(file@), ..old(args)@ }),
{
    let ghost before = args.files@;
    args.files.push(file);
    assert(texts(args.files@) =~= texts(before).push(file@));
}

/// Reads the argument at `i`, which may be an option.
fn read_argument(args: &mut Args, argv: &Vec<String>, i: usize) -> (r: Step)
    requires
        i < argv.len(),
    ensures
        match r {
            Step::On { next, files_only } => i < next <= argv.len() && parsed_args(
                texts(argv@),
                i as int,
                false,
                old(args)@,
            ) == parsed_args(texts(argv@), next as int, files_only, final(args)@),
            Step::Refused(e) => parsed_args(texts(argv@), i as int, false, old(args)@) == Err::<
                Settings,
                Refusal,
            >(e@),
        },
{
    assert(texts(argv@)[i as int] == argv@[i as int]@);
    let (name, inline_value) = split_option(argv[i].as_str());
    let letters = chars_of(name.as_str());
    if same_text(name.as_str(), "--") {
        return Step::On { next: i + 1, files_only: true };
    }
    if same_text(name.as_str(), "-h") || same_text(name.as_str(), "--help") {
        return Step::Refused(ArgsError::Help);
    }
    if same_text(name.as_str(), "-V") || same_text(name.as_str(), "--version") {
        return Step::Refused(ArgsError::Version);
    }
    if value_option(name.as_str()) {
        return match take_value(inline_value, argv, i) {
            None => Step::Refused(ArgsError::MissingValue { flag: name }),
            Some((value, next)) => if set_value(args, name.as_str(), value.as_str()) {
                Step::On { next, files_only: false }
            } else {
                Step::Refused(ArgsError::InvalidValue { flag: name, value })
            },
        };
    }
    if same_text(name.as_str(), "--fullscreen") {
        args.fullscreen = true;
    } else if same_text(name.as_str(), "--no-fullscreen") {
        args.fullscreen = false;
    } else {
        match verbosity(&letters) {
            Some(n) => {
                args.verbose = n;
            },
            None => {
                if has_prefix(&letters, &chars_of("-")) {
                    return Step::Refused(ArgsError::UnknownOption { option: name });
                }
                add_file(args, argv[i].clone());
            },
        }
    }
    Step::On { next: i + 1, files_only: false }
}

/// Parses a command line.
pub fn parse_from(argv: &Vec<String>) -> (r: Result<Args, ArgsError>)
    ensures
        match r {
            Ok(args) => parsed_args(texts(argv@), 0, false, default_settings()) == Ok::<
                Settings,
                Refusal,
            >(args@),
            Err(e) => parsed_args(texts(argv@), 0, false, default_settings()) == Err::<
                Settings,
                Refusal,
            >(e@),
        },
{
    let mut args = Args {
        files: Vec::new(),
        volume: 100,
        audio_delay_us: 0,
        audio_track: 1,
        sub_file: None,
        start: None,
        fullscreen: true,
        verbose: 0,
    };
    let ghost all = texts(argv@);
    assert(args@.files =~= Seq::empty());
    assert(args@ == default_settings());
    let mut i: usize = 0;
    let mut files_only: bool = false;
    while i < argv.len()
        invariant
            i <= argv.len(),
            all == texts(argv@),
            parsed_args(all, 0, false, default_settings()) == parsed_args(
                all,
                i as int,
                files_only,
                args@,
            ),
        decreases argv.len() - i,
    {
        if files_only {
            assert(all[i as int] == argv@[i as int]@);
            add_file(&mut args, argv[i].clone());
            i = i + 1;
        } else {
            match read_argument(&mut args, argv, i) {
                Step::On { next, files_only: only } => {
                    i = next;
                    files_only = only;
                },
                Step::Refused(e) => {
                    return Err(e);
                },
            }
        }
    }
    if args.files.len() == 0 {
        assert(args@.files.len() == 0);
        return Err(ArgsError::MissingFiles);
    }
    assert(args@.files.len() > 0);
    Ok(args)
}

/// What a path on the command line is: a file, or a directory with the names of its entries.
#[derive(Debug, Clone)]
pub enum PathListing {
    File,
    Directory(Vec<Vec<u8>>),
}

/// A file to play: the path itself, or an entry of the directory it is.
#[derive(Clone, Copy, Debug, PartialEq, Eq, Structural)]
pub struct Choice {
    pub path: usize,
    pub entry: Option<usize>,
}

/// The names of a list of entries.
pub open spec fn names(v: Seq<Vec<u8>>) -> Seq<Seq<u8>> {
    v.map_values(|name: Vec<u8>| name@)
}

/// Bytes as characters.
pub open spec fn letters(bytes: Seq<u8>) -> Seq<char> {
    bytes.map_values(|b: u8| b as char)
}

/// Where the last dot of a name stands before `i`, below zero where there is none.
pub open spec fn last_dot(name: Seq<u8>, i: int) -> int
    decreases i,
{
    if i <= 0 {
        -1
    } else if name[i - 1] == 46 {
        i - 1
    } else {
        last_dot(name, i - 1)
    }
}

/// Whether an extension is that of a media file, in capitals or small letters.
pub open spec fn is_media_extension(e: Seq<char>) -> bool {
    ||| equal_ignoring_case(e, "mp4"@)
    ||| equal_ignoring_case(e, "mkv"@)
    ||| equal_ignoring_case(e, "avi"@)
    ||| equal_ignoring_case(e, "mov"@)
    ||| equal_ignoring_case(e, "webm"@)
    ||| equal_ignoring_case(e, "flv"@)
    ||| equal_ignoring_case(e, "m4v"@)
    ||| equal_ignoring_case(e, "ts"@)
    ||| equal_ignoring_case(e, "mp3"@)
    ||| equal_ignoring_case(e, "flac"@)
    ||| equal_ignoring_case(e, "ogg"@)
    ||| equal_ignoring_case(e, "opus"@)
    ||| equal_ignoring_case(e, "wav"@)
    ||| equal_ignoring_case(e, "m4a"@)
    ||| equal_ignoring_case(e, "aac"@)
    ||| equal_ignoring_case(e, "wma"@)
}

/// Whether a name is that of a media file by what follows its last dot, unless the name starts
/// with that dot.
pub open spec fn is_media_name(name: Seq<u8>) -> bool {
    let dot = last_dot(name, name.len() as int);
    dot > 0 && is_media_extension(letters(name.skip(dot + 1)))
}

/// Whether one name comes no later than another, byte by byte.
pub open spec fn name_first(a: Seq<u8>, b: Seq<u8>) -> bool
    decreases a.len(),
{
    if a.len() == 0 {
        true
    } else if b.len() == 0 {
        false
    } else if a[0] != b[0] {
        a[0] < b[0]
    } else {
        name_first(a.drop_first(), b.drop_first())
    }
}

/// Whether one entry of a directory comes no later than another.
pub open spec fn entry_first(all: Seq<Seq<u8>>) -> spec_fn(int, int) -> bool {
    |i: int, j: int| name_first(all[i], all[j])
}

/// The entries of a directory up to `count` that are media files, in the order of the listing.
pub open spec fn media_entries(all: Seq<Seq<u8>>, count: int) -> Seq<int>
    decreases count,
{
    if count <= 0 {
        Seq::empty()
    } else if is_media_name(all[count - 1]) {
        media_entries(all, count - 1).push(count - 1)
    } else {
        media_entries(all, count - 1)
    }
}

/// The media files of a directory in the order of their names.
pub open spec fn sorted_entries(all: Seq<Seq<u8>>) -> Seq<int> {
    sorted(media_entries(all, all.len() as int), entry_first(all))
}

/// The files that a path stands for.
pub open spec fn choices_of(listing: PathListing, path: int) -> Seq<(int, Option<int>)> {
    match listing {
        PathListing::File => seq![(path, None)],
        PathListing::Directory(v) => sorted_entries(names(v@)).map_values(
            |entry: int| (path, Some(entry)),
        ),
    }
}

/// The files that paths stand for.
pub open spec fn expanded(listings: Seq<PathListing>) -> Seq<(int, Option<int>)>
    decreases listings.len(),
{
    if listings.len() == 0 {
        Seq::empty()
    } else {
        expanded(listings.drop_last()) + choices_of(listings.last(), listings.len() - 1)
    }
}

impl View for Choice {
    type V = (int, Option<int>);

    open spec fn view(&self) -> (int, Option<int>) {
        (
            self.path as int,
            match self.entry {
                Some(i) => Some(i as int),
                None => None,
            },
        )
    }
}

/// What a list of choices stands for.
pub open spec fn choices(v: Seq<Choice>) -> Seq<(int, Option<int>)> {
    v.map_values(|c: Choice| c@)
}

proof fn lemma_name_first_total(a: Seq<u8>, b: Seq<u8>)
    ensures
        name_first(a, b) || name_first(b, a),
    decreases a.len(),
{
    if a.len() > 0 && b.len() > 0 && a[0] == b[0] {
        lemma_name_first_total(a.drop_first(), b.drop_first());
    }
}

proof fn lemma_name_first_transitive(a: Seq<u8>, b: Seq<u8>, c: Seq<u8>)
    requires
        name_first(a, b),
        name_first(b, c),
    ensures
        name_first(a, c),
    decreases a.len(),
{
    if a.len() > 0 && a[0] == b[0] && b[0] == c[0] {
        lemma_name_first_transitive(a.drop_first(), b.drop_first(), c.drop_first());
    }
}

/// The files of a directory are played in the order of their names, each once, and none but its
/// media files.
pub proof fn lemma_directory_in_order(all: Seq<Seq<u8>>)
    ensures
        ordered(sorted_entries(all), entry_first(all)),
        sorted_entries(all).to_multiset() == media_entries(all, all.len() as int).to_multiset(),
{
    let before = entry_first(all);
    assert forall|i: int, j: int| #[trigger] before(i, j) || before(j, i) by {
        lemma_name_first_total(all[i], all[j]);
    }
    assert forall|i: int, j: int, k: int|
        #![trigger before(i, j), before(j, k)]
        before(i, j) && before(j, k) implies before(i, k) by {
        lemma_name_first_transitive(all[i], all[j], all[k]);
    }
    lemma_sorted(media_entries(all, all.len() as int), before);
}

fn media_extension(e: &Vec<char>) -> (r: bool)
    ensures
        r == is_media_extension(e@),
{
    same_ignoring_case(e, &chars_of("mp4")) || same_ignoring_case(e, &chars_of("mkv"))
        || same_ignoring_case(e, &chars_of("avi")) || same_ignoring_case(e, &chars_of("mov"))
        || same_ignoring_case(e, &chars_of("webm")) || same_ignoring_case(e, &chars_of("flv"))
        || same_ignoring_case(e, &chars_of("m4v")) || same_ignoring_case(e, &chars_of("ts"))
        || same_ignoring_case(e, &chars_of("mp3")) || same_ignoring_case(e, &chars_of("flac"))
        || same_ignoring_case(e, &chars_of("ogg")) || same_ignoring_case(e, &chars_of("opus"))
        || same_ignoring_case(e, &chars_of("wav")) || same_ignoring_case(e, &chars_of("m4a"))
        || same_ignoring_case(e, &chars_of("aac")) || same_ignoring_case(e, &chars_of("wma"))
}

/// Whether a name is that of a media file.
pub fn media_name(name: &Vec<u8>) -> (r: bool)
    ensures
        r == is_media_name(name@),
{
    let mut i: usize = name.len();
    while i > 0 && name[i - 1] != 46
        invariant
            i <= name.len(),
            last_dot(name@, name.len() as int) == last_dot(name@, i as int),
        decreases i,
    {
        i = i - 1;
    }
    if i <= 1 {
        return false;
    }
    let mut e: Vec<char> = Vec::new();
    let mut k: usize = i;
    while k < name.len()
        invariant
            i <= k <= name.len(),
            e@ == letters(name@.subrange(i as int, k as int)),
        decreases name.len() - k,
    {
        e.push(name[k] as char);
        k = k + 1;
        assert(name@.subrange(i as int, k as int) =~= name@.subrange(i as int, k - 1).push(
            name@[k - 1],
        ));
        assert(e@ =~= letters(name@.subrange(i as int, k as int)));
    }
    assert(name@.subrange(i as int, k as int) =~= name@.skip(i as int));
    media_extension(&e)
}

/// Whether one name comes no later than another.
fn name_not_after(a: &Vec<u8>, b: &Vec<u8>) -> (r: bool)
    ensures
        r == name_first(a@, b@),
{
    let mut i: usize = 0;
    assert(a@.skip(0) =~= a@);
    assert(b@.skip(0) =~= b@);
    while i < a.len() && i < b.len() && a[i] == b[i]
        invariant
            i <= a.len(),
            i <= b.len(),
            name_first(a@, b@) == name_first(a@.skip(i as int), b@.skip(i as int)),
        decreases a.len() - i,
    {
        assert(a@.skip(i as int).drop_first() =~= a@.skip(i + 1));
        assert(b@.skip(i as int).drop_first() =~= b@.skip(i + 1));
        i = i + 1;
    }
    if i >= a.len() {
        true
    } else if i >= b.len() {
        false
    } else {
        a[i] < b[i]
    }
}

/// The indices of a list as numbers.
pub open spec fn indices(v: Seq<usize>) -> Seq<int> {
    v.map_values(|i: usize| i as int)
}

/// Places an entry behind the last whose name comes no later.
fn place_entry(out: &mut Vec<usize>, all: &Vec<Vec<u8>>, entry: usize)
    requires
        entry < all.len(),
        forall|k: int| 0 <= k < old(out).len() ==> old(out)@[k] < all.len(),
    ensures
        indices(final(out)@) == placed(
            indices(old(out)@),
            entry_first(names(all@)),
            entry as int,
        ),
        forall|k: int| 0 <= k < final(out).len() ==> final(out)@[k] < all.len(),
{
    let ghost before = entry_first(names(all@));
    let ghost s = indices(out@);
    let mut i: usize = out.len();
    assert(s.take(i as int) =~= s);
    let mut searching: bool = i > 0;
    while searching
        invariant
            i <= out.len(),
            entry < all.len(),
            forall|k: int| 0 <= k < out.len() ==> out@[k] < all.len(),
            before == entry_first(names(all@)),
            s == indices(out@),
            searching ==> i > 0,
            place(s, before, entry as int) == place(s.take(i as int), before, entry as int),
            !searching ==> place(s.take(i as int), before, entry as int) == i,
        ensures
            i <= out.len(),
            place(s, before, entry as int) == i,
        decreases i, searching as int,
    {
        let last: usize = out[i - 1];
        assert(s.take(i as int).last() == last);
        assert(names(all@)[last as int] == all@[last as int]@);
        assert(names(all@)[entry as int] == all@[entry as int]@);
        if name_not_after(&all[last], &all[entry]) {
            searching = false;
        } else {
            assert(s.take(i as int).drop_last() =~= s.take(i - 1));
            i = i - 1;
            searching = i > 0;
        }
    }
    out.insert(i, entry);
    assert(indices(out@) =~= s.insert(i as int, entry as int));
}

/// The media files of a directory in the order of their names.
fn sort_entries(all: &Vec<Vec<u8>>) -> (out: Vec<usize>)
    ensures
        indices(out@) == sorted_entries(names(all@)),
{
    let ghost before = entry_first(names(all@));
    let mut out: Vec<usize> = Vec::new();
    let mut i: usize = 0;
    assert(indices(out@) =~= sorted(media_entries(names(all@), 0), before));
    while i < all.len()
        invariant
            i <= all.len(),
            before == entry_first(names(all@)),
            forall|k: int| 0 <= k < out.len() ==> out@[k] < all.len(),
            indices(out@) == sorted(media_entries(names(all@), i as int), before),
        decreases all.len() - i,
    {
        assert(names(all@)[i as int] == all@[i as int]@);
        if media_name(&all[i]) {
            proof {
                let kept = media_entries(names(all@), i as int);
                assert(kept.push(i as int).drop_last() =~= kept);
            }
            place_entry(&mut out, all, i);
        }
        i = i + 1;
    }
    out
}

/// Expands directories into sorted media files; passes other paths through.
pub fn expand_files(listings: &Vec<PathListing>) -> (r: Vec<Choice>)
    ensures
        choices(r@) == expanded(listings@),
{
    let mut out: Vec<Choice> = Vec::new();
    let mut i: usize = 0;
    assert(choices(out@) =~= expanded(listings@.take(0)));
    while i < listings.len()
        invariant
            i <= listings.len(),
            choices(out@) == expanded(listings@.take(i as int)),
        decreases listings.len() - i,
    {
        let ghost before = out@;
        assert(listings@.take(i + 1).drop_last() =~= listings@.take(i as int));
        assert(listings@.take(i + 1).last() == listings@[i as int]);
        match &listings[i] {
            PathListing::File => {
                let choice = Choice { path: i, entry: None };
                out.push(choice);
                assert(choices(out@) =~= choices(before) + seq![choice@]);
            },
            PathListing::Directory(all) => {
                let entries = sort_entries(all);
                let ghost tail = indices(entries@).map_values(
                    |entry: int| (i as int, Some(entry)),
                );
                let mut k: usize = 0;
                assert(choices(out@) =~= choices(before) + tail.take(0));
                while k < entries.len()
                    invariant
                        k <= entries.len(),
                        tail == indices(entries@).map_values(
                            |entry: int| (i as int, Some(entry)),
                        ),
                        choices(out@) == choices(before) + tail.take(k as int),
                    decreases entries.len() - k,
                {
                    let ghost now = out@;
                    let choice = Choice { path: i, entry: Some(entries[k]) };
                    out.push(choice);
                    assert(choice@ == tail[k as int]);
                    assert(choices(out@) =~= choices(now).push(choice@));
                    assert(tail.take(k + 1) =~= tail.take(k as int).push(tail[k as int]));
                    k = k + 1;
                }
                assert(tail.take(k as int) =~= tail);
            },
        }
        i = i + 1;
    }
    assert(listings@.take(i as int) =~= listings@);
    out
}

proof fn lemma_rest_goes_on(
    first: Seq<Seq<char>>,
    rest: Seq<Seq<char>>,
    files_only: bool,
    settings: Settings,
)
    ensures
        parsed_args(first + rest, first.len() as int, files_only, settings) == parsed_args(
            rest,
            0,
            files_only,
            settings,
        ),
{
    assert((first + rest).skip(first.len() as int) =~= rest);
    assert(rest.skip(0) =~= rest);
    lemma_rest_decides(first + rest, first.len() as int, rest, 0, files_only, settings);
}

/// An argument that starts with no dash is a file to play, and the files are played in the order in
/// which they are named.
pub proof fn lemma_file_argument(arg: Seq<char>, rest: Seq<Seq<char>>, settings: Settings)
    requires
        arg.len() > 0,
        arg[0] != '-',
    ensures
        parsed_args(seq![arg] + rest, 0, false, settings) == parsed_args(
            rest,
            0,
            false,
            Settings { files: settings.files.push(arg), ..settings },
        ),
{
    lemma_option_literals();
    reveal_strlit("-");
    let argv = seq![arg] + rest;
    assert(argv[0] == arg);
    assert(arg.len() >= 2 ==> arg.take(2)[0] == arg[0]);
    assert(arg.take(1)[0] == arg[0]);
    lemma_rest_goes_on(
        seq![arg],
        rest,
        false,
        Settings { files: settings.files.push(arg), ..settings },
    );
}

/// With no argument left the settings stand, and without a file they are refused.
pub proof fn lemma_no_argument(settings: Settings, files_only: bool)
    ensures
        settings.files.len() > 0 ==> parsed_args(Seq::empty(), 0, files_only, settings) == Ok::<
            Settings,
            Refusal,
        >(settings),
        settings.files.len() == 0 ==> parsed_args(Seq::empty(), 0, files_only, settings) == Err::<
            Settings,
            Refusal,
        >(Refusal::MissingFiles),
{
}

/// What is not asked for: full volume, no delay, the first audio track, no subtitle file, the start
/// of the file, full screen, and no logging.
pub proof fn lemma_defaults()
    ensures
        default_settings().files.len() == 0,
        default_settings().volume == 100,
        default_settings().audio_delay_us == 0,
        default_settings().audio_track == 1,
        default_settings().sub_file is None,
        default_settings().start is None,
        default_settings().fullscreen,
        default_settings().verbose == 0,
{
}

proof fn lemma_option_literals()
    ensures
        "--"@ == seq!['-', '-'],
        "-h"@ == seq!['-', 'h'],
        "-V"@ == seq!['-', 'V'],
        "-v"@ == seq!['-', 'v'],
        "--help"@ == seq!['-', '-', 'h', 'e', 'l', 'p'],
        "--version"@ == seq!['-', '-', 'v', 'e', 'r', 's', 'i', 'o', 'n'],
        "--volume"@ == seq!['-', '-', 'v', 'o', 'l', 'u', 'm', 'e'],
        "--audio-delay"@.len() == 13 && "--audio-delay"@[0] == '-' && "--audio-delay"@[8] == 'd',
        "--audio-track"@.len() == 13 && "--audio-track"@[0] == '-' && "--audio-track"@[8] == 't',
        "--sub-file"@.len() == 10 && "--sub-file"@[0] == '-' && "--sub-file"@[2] == 's',
        "--start"@ == seq!['-', '-', 's', 't', 'a', 'r', 't'],
        "--fullscreen"@.len() == 12 && "--fullscreen"@[0] == '-',
        "--no-fullscreen"@.len() == 15 && "--no-fullscreen"@[0] == '-',
{
    reveal_strlit("--");
    reveal_strlit("-h");
    reveal_strlit("-V");
    reveal_strlit("-v");
    reveal_strlit("--help");
    reveal_strlit("--version");
    reveal_strlit("--volume");
    reveal_strlit("--audio-delay");
    reveal_strlit("--audio-track");
    reveal_strlit("--sub-file");
    reveal_strlit("--start");
    reveal_strlit("--fullscreen");
    reveal_strlit("--no-fullscreen");
    assert("--"@ =~= seq!['-', '-']);
    assert("-h"@ =~= seq!['-', 'h']);
    assert("-V"@ =~= seq!['-', 'V']);
    assert("-v"@ =~= seq!['-', 'v']);
    assert("--help"@ =~= seq!['-', '-', 'h', 'e', 'l', 'p']);
    assert("--version"@ =~= seq!['-', '-', 'v', 'e', 'r', 's', 'i', 'o', 'n']);
    assert("--volume"@ =~= seq!['-', '-', 'v', 'o', 'l', 'u', 'm', 'e']);
    assert("--start"@ =~= seq!['-', '-', 's', 't', 'a', 'r', 't']);
}

/// A literal option is no long option with a value behind an equals sign.
proof fn lemma_no_inline_value(name: Seq<char>)
    requires
        forall|k: int| 0 <= k < name.len() ==> #[trigger] name[k] != '=',
    ensures
        !has_inline_value(name),
        option_name(name) == name,
{
    lemma_found(name, '=', 0, name.len() as int);
}

/// Options that switch: full screen or a window, and the ones that ask for the usage or the version
/// and start no playback.
#[verifier::spinoff_prover]
#[verifier::rlimit(50)]
pub proof fn lemma_switches(rest: Seq<Seq<char>>, settings: Settings)
    ensures
        parsed_args(seq!["--no-fullscreen"@] + rest, 0, false, settings) == parsed_args(
            rest,
            0,
            false,
            Settings { fullscreen: false, ..settings },
        ),
        parsed_args(seq!["--fullscreen"@] + rest, 0, false, settings) == parsed_args(
            rest,
            0,
            false,
            Settings { fullscreen: true, ..settings },
        ),
        parsed_args(seq!["--"@] + rest, 0, false, settings) == parsed_args(
            rest,
            0,
            true,
            settings,
        ),
        parsed_args(seq!["-h"@] + rest, 0, false, settings) == Err::<Settings, Refusal>(
            Refusal::Help,
        ),
        parsed_args(seq!["--help"@] + rest, 0, false, settings) == Err::<Settings, Refusal>(
            Refusal::Help,
        ),
        parsed_args(seq!["-V"@] + rest, 0, false, settings) == Err::<Settings, Refusal>(
            Refusal::Version,
        ),
        parsed_args(seq!["--version"@] + rest, 0, false, settings) == Err::<Settings, Refusal>(
            Refusal::Version,
        ),
{
    lemma_option_literals();
    reveal_strlit("--fullscreen");
    reveal_strlit("--no-fullscreen");
    lemma_no_inline_value("--no-fullscreen"@);
    lemma_no_inline_value("--fullscreen"@);
    lemma_no_inline_value("--"@);
    lemma_no_inline_value("-h"@);
    lemma_no_inline_value("--help"@);
    lemma_no_inline_value("-V"@);
    lemma_no_inline_value("--version"@);
    lemma_rest_goes_on(
        seq!["--no-fullscreen"@],
        rest,
        false,
        Settings { fullscreen: false, ..settings },
    );
    lemma_rest_goes_on(
        seq!["--fullscreen"@],
        rest,
        false,
        Settings { fullscreen: true, ..settings },
    );
    lemma_rest_goes_on(seq!["--"@], rest, true, settings);
    assert((seq!["--no-fullscreen"@] + rest)[0] == "--no-fullscreen"@);
    assert((seq!["--fullscreen"@] + rest)[0] == "--fullscreen"@);
    assert((seq!["--"@] + rest)[0] == "--"@);
    assert((seq!["-h"@] + rest)[0] == "-h"@);
    assert((seq!["--help"@] + rest)[0] == "--help"@);
    assert((seq!["-V"@] + rest)[0] == "-V"@);
    assert((seq!["--version"@] + rest)[0] == "--version"@);
}

/// An option that takes a value sets what it names to that value, and nothing else: the volume up to
/// a hundred percent, the audio track, the subtitle file, and where to start. A value that is no
/// number where one is wanted is refused with the option and the value, and so is an option without
/// a value.
#[verifier::spinoff_prover]
#[verifier::rlimit(50)]
pub proof fn lemma_options_with_values(
    value: Seq<char>,
    n: nat,
    rest: Seq<Seq<char>>,
    settings: Settings,
)
    ensures
        n <= u32::MAX ==> parsed_args(seq!["--volume"@, numeral(n)] + rest, 0, false, settings)
            == parsed_args(
            rest,
            0,
            false,
            Settings {
                volume: if n <= 100 {
                    n as int
                } else {
                    100
                },
                ..settings
            },
        ),
        n <= usize::MAX ==> parsed_args(
            seq!["--audio-track"@, numeral(n)] + rest,
            0,
            false,
            settings,
        ) == parsed_args(rest, 0, false, Settings { audio_track: n as int, ..settings }),
        parsed_args(seq!["--sub-file"@, value] + rest, 0, false, settings) == parsed_args(
            rest,
            0,
            false,
            Settings { sub_file: Some(value), ..settings },
        ),
        parsed_args(seq!["--start"@, value] + rest, 0, false, settings) == parsed_args(
            rest,
            0,
            false,
            Settings { start: Some(value), ..settings },
        ),
        parsed_double(value) is None ==> parsed_args(
            seq!["--audio-delay"@, value] + rest,
            0,
            false,
            settings,
        ) == Err::<Settings, Refusal>(
            Refusal::InvalidValue { flag: "--audio-delay"@, value },
        ),
        parsed_double(value) matches Some(x) ==> parsed_args(
            seq!["--audio-delay"@, value] + rest,
            0,
            false,
            settings,
        ) == parsed_args(rest, 0, false, Settings { audio_delay_us: microseconds(x), ..settings }),
        value.len() > 0 && value[0] == '-' ==> parsed_args(
            seq!["--volume"@, value] + rest,
            0,
            false,
            settings,
        ) == Err::<Settings, Refusal>(Refusal::InvalidValue { flag: "--volume"@, value }),
        parsed_args(seq!["--volume"@], 0, false, settings) == Err::<Settings, Refusal>(
            Refusal::MissingValue { flag: "--volume"@ },
        ),
{
    lemma_option_literals();
    reveal_strlit("--audio-delay");
    reveal_strlit("--audio-track");
    reveal_strlit("--sub-file");
    lemma_no_inline_value("--volume"@);
    lemma_no_inline_value("--audio-delay"@);
    lemma_no_inline_value("--audio-track"@);
    lemma_no_inline_value("--sub-file"@);
    lemma_no_inline_value("--start"@);
    lemma_numeral_reads_back(n, u32::MAX as int);
    lemma_numeral_reads_back(n, usize::MAX as int);
    lemma_only_digits_are_numbers(value, u32::MAX as int);
    lemma_value_argument("--volume"@, numeral(n), rest, settings);
    lemma_value_argument("--volume"@, value, rest, settings);
    lemma_value_argument("--audio-track"@, numeral(n), rest, settings);
    lemma_value_argument("--sub-file"@, value, rest, settings);
    lemma_value_argument("--start"@, value, rest, settings);
    lemma_value_argument("--audio-delay"@, value, rest, settings);
    assert(seq!["--volume"@][0] == "--volume"@);
}

proof fn lemma_value_argument(
    flag: Seq<char>,
    value: Seq<char>,
    rest: Seq<Seq<char>>,
    settings: Settings,
)
    requires
        takes_value(flag),
        !has_inline_value(flag),
        option_name(flag) == flag,
    ensures
        parsed_args(seq![flag, value] + rest, 0, false, settings) == match with_value(
            settings,
            flag,
            value,
        ) {
            Some(changed) => parsed_args(rest, 0, false, changed),
            None => Err::<Settings, Refusal>(Refusal::InvalidValue { flag, value }),
        },
{
    lemma_option_literals();
    let argv = seq![flag, value] + rest;
    assert(argv[0] == flag);
    assert(argv[1] == value);
    if let Some(changed) = with_value(settings, flag, value) {
        lemma_rest_goes_on(seq![flag, value], rest, false, changed);
    }
}

/// Each letter V asks for more to be logged.
#[verifier::spinoff_prover]
#[verifier::rlimit(50)]
pub proof fn lemma_verbosity(count: nat, rest: Seq<Seq<char>>, settings: Settings)
    requires
        1 <= count <= 255,
    ensures
        parsed_args(
            seq![seq!['-'] + Seq::new(count, |i: int| 'v')] + rest,
            0,
            false,
            settings,
        ) == parsed_args(rest, 0, false, Settings { verbose: count as int, ..settings }),
{
    lemma_option_literals();
    reveal_strlit("--audio-delay");
    reveal_strlit("--audio-track");
    reveal_strlit("--sub-file");
    reveal_strlit("--fullscreen");
    reveal_strlit("--no-fullscreen");
    let name = seq!['-'] + Seq::new(count, |i: int| 'v');
    assert(name[0] == '-' && name[1] == 'v');
    assert(name.take(2) =~= "-v"@);
    lemma_no_inline_value(name);
    assert((seq![name] + rest)[0] == name);
    assert(forall|i: int| 1 <= i < name.len() ==> name[i] == 'v');
    lemma_rest_goes_on(seq![name], rest, false, Settings { verbose: count as int, ..settings });
}

/// An option that there is not is refused by its name.
#[verifier::spinoff_prover]
#[verifier::rlimit(50)]
pub proof fn lemma_unknown_option(arg: Seq<char>, rest: Seq<Seq<char>>, settings: Settings)
    requires
        arg.len() >= 2,
        arg[0] == '-',
        arg[1] != '-' && arg[1] != 'h' && arg[1] != 'V' && arg[1] != 'v',
    ensures
        parsed_args(seq![arg] + rest, 0, false, settings) == Err::<Settings, Refusal>(
            Refusal::UnknownOption { option: arg },
        ),
{
    lemma_option_literals();
    reveal_strlit("-");
    reveal_strlit("--audio-delay");
    reveal_strlit("--audio-track");
    reveal_strlit("--sub-file");
    reveal_strlit("--fullscreen");
    reveal_strlit("--no-fullscreen");
    assert((seq![arg] + rest)[0] == arg);
    assert(arg.take(2)[1] == arg[1]);
    assert(arg.take(1) =~= "-"@);
}

/// A refusal says which option or value it is about.
pub proof fn lemma_refusals_name_the_option(flag: Seq<char>, value: Seq<char>)
    ensures
        refusal_text(Refusal::MissingValue { flag }) == flag + " requires a value"@,
        refusal_text(Refusal::InvalidValue { flag: "--audio-delay"@, value }) == "invalid value '"@
            + value + "' for "@ + "--audio-delay"@ + ": expected "@ + "number"@,
        flag != "--audio-delay"@ ==> refusal_text(Refusal::InvalidValue { flag, value })
            == "invalid value '"@ + value + "' for "@ + flag + ": expected "@ + "integer"@,
        refusal_text(Refusal::UnknownOption { option: flag }) == "unknown option '"@ + flag
            + "'\n\n"@ + refusal_text(Refusal::Help),
        refusal_text(Refusal::Version) == "play "@ + VERSION@,
        refusal_text(Refusal::Help) == refusal_text(Refusal::Version) + USAGE@,
        refusal_text(Refusal::MissingFiles) == "required arguments not provided: <FILE>...\n\n"@
            + refusal_text(Refusal::Help),
{
}

proof fn lemma_last_dot(name: Seq<u8>, i: int)
    requires
        0 <= i <= name.len(),
    ensures
        -1 <= last_dot(name, i) < i,
        last_dot(name, i) >= 0 ==> name[last_dot(name, i)] == 46,
        forall|k: int| last_dot(name, i) < k < i ==> #[trigger] name[k] != 46,
    decreases i,
{
    if i > 0 && name[i - 1] != 46 {
        lemma_last_dot(name, i - 1);
    }
}

/// A name is that of a media file where a media extension follows its last dot, which is not the
/// first character.
pub proof fn lemma_media_names(name: Seq<u8>, dot: int)
    requires
        0 <= dot < name.len(),
        name[dot] == 46,
        forall|k: int| dot < k < name.len() ==> #[trigger] name[k] != 46,
    ensures
        is_media_name(name) <==> dot > 0 && is_media_extension(
            Seq::new((name.len() - dot - 1) as nat, |k: int| name[dot + 1 + k] as char),
        ),
{
    lemma_last_dot(name, name.len() as int);
    let d = last_dot(name, name.len() as int);
    if d < dot {
        assert(name[dot] != 46);
    }
    if d > dot {
        assert(name[d] != 46);
    }
    assert(letters(name.skip(dot + 1)) =~= Seq::new(
        (name.len() - dot - 1) as nat,
        |k: int| name[dot + 1 + k] as char,
    ));
}

/// A name without a dot is that of no media file.
pub proof fn lemma_no_extension(name: Seq<u8>)
    requires
        forall|k: int| 0 <= k < name.len() ==> #[trigger] name[k] != 46,
    ensures
        !is_media_name(name),
{
    lemma_last_dot(name, name.len() as int);
    let d = last_dot(name, name.len() as int);
    if d >= 0 {
        assert(name[d] != 46);
    }
}

/// Which extensions are of media, in capitals or small letters.
pub proof fn lemma_media_extensions(e: Seq<char>)
    ensures
        is_media_extension(e) <==> {
            ||| equal_ignoring_case(e, "mp4"@)
            ||| equal_ignoring_case(e, "mkv"@)
            ||| equal_ignoring_case(e, "avi"@)
            ||| equal_ignoring_case(e, "mov"@)
            ||| equal_ignoring_case(e, "webm"@)
            ||| equal_ignoring_case(e, "flv"@)
            ||| equal_ignoring_case(e, "m4v"@)
            ||| equal_ignoring_case(e, "ts"@)
            ||| equal_ignoring_case(e, "mp3"@)
            ||| equal_ignoring_case(e, "flac"@)
            ||| equal_ignoring_case(e, "ogg"@)
            ||| equal_ignoring_case(e, "opus"@)
            ||| equal_ignoring_case(e, "wav"@)
            ||| equal_ignoring_case(e, "m4a"@)
            ||| equal_ignoring_case(e, "aac"@)
            ||| equal_ignoring_case(e, "wma"@)
        },
{
}

/// Names are in the order of their first different bytes, and one that another begins with comes
/// before it.
pub proof fn lemma_order_of_names(a: Seq<u8>, b: Seq<u8>, k: int)
    requires
        0 <= k <= a.len(),
        k <= b.len(),
        forall|i: int| 0 <= i < k ==> #[trigger] a[i] == b[i],
    ensures
        k < a.len() && k < b.len() && a[k] < b[k] ==> name_first(a, b) && !name_first(b, a),
        k == a.len() ==> name_first(a, b),
        k == a.len() && k < b.len() ==> !name_first(b, a),
    decreases a.len(),
{
    if k > 0 {
        assert(a[0] == b[0]);
        let x = a.drop_first();
        let y = b.drop_first();
        assert forall|i: int| 0 <= i < k - 1 implies #[trigger] x[i] == y[i] by {
            assert(a[i + 1] == b[i + 1]);
        }
        lemma_order_of_names(x, y, k - 1);
        if k < a.len() && k < b.len() {
            assert(x[k - 1] == a[k] && y[k - 1] == b[k]);
        }
    }
}

/// Of a directory every media file is played once, and nothing else, in the order of the names.
pub proof fn lemma_directory_is_played(all: Seq<Seq<u8>>, i: int)
    ensures
        sorted_entries(all).contains(i) <==> 0 <= i < all.len() && is_media_name(all[i]),
        sorted_entries(all).no_duplicates(),
        forall|x: int, y: int|
            0 <= x < y < sorted_entries(all).len() ==> name_first(
                all[#[trigger] sorted_entries(all)[x]],
                all[#[trigger] sorted_entries(all)[y]],
            ),
{
    let n = all.len() as int;
    let entries = media_entries(all, n);
    let s = sorted_entries(all);
    lemma_media_entries(all, n);
    lemma_directory_in_order(all);
    s.to_multiset_ensures();
    entries.to_multiset_ensures();
    assert(s.contains(i) <==> s.to_multiset().count(i) > 0);
    assert(entries.contains(i) <==> entries.to_multiset().count(i) > 0);
    entries.lemma_multiset_has_no_duplicates();
    assert(s.to_multiset() == entries.to_multiset());
    s.lemma_multiset_has_no_duplicates_conv();
    assert forall|x: int, y: int| 0 <= x < y < s.len() implies name_first(
        all[#[trigger] s[x]],
        all[#[trigger] s[y]],
    ) by {
        assert(entry_first(all)(s[x], s[y]));
    }
}

proof fn lemma_media_entries(all: Seq<Seq<u8>>, count: int)
    requires
        0 <= count <= all.len(),
    ensures
        forall|i: int| #[trigger] media_entries(all, count).contains(i) <==> 0 <= i < count
            && is_media_name(all[i]),
        media_entries(all, count).no_duplicates(),
    decreases count,
{
    if count > 0 {
        lemma_media_entries(all, count - 1);
        let head = media_entries(all, count - 1);
        let s = media_entries(all, count);
        assert forall|i: int| #[trigger] s.contains(i) <==> 0 <= i < count && is_media_name(
            all[i],
        ) by {
            if is_media_name(all[count - 1]) {
                assert(s == head.push(count - 1));
                assert(s[s.len() - 1] == count - 1);
                if head.contains(i) {
                    let k = choose|k: int| 0 <= k < head.len() && head[k] == i;
                    assert(s[k] == i);
                }
                if s.contains(i) && i != count - 1 {
                    let k = choose|k: int| 0 <= k < s.len() && s[k] == i;
                    assert(head[k] == i);
                }
            }
            assert(head.contains(i) <==> 0 <= i < count - 1 && is_media_name(all[i]));
        }
        if is_media_name(all[count - 1]) {
            assert(!head.contains(count - 1));
            assert(s.no_duplicates());
        }
    }
}

/// Paths are played in the order in which they are named: a file as it is, and a directory with the
/// files in it.
pub proof fn lemma_paths_in_order(listings: Seq<PathListing>, last: PathListing)
    ensures
        expanded(Seq::empty()).len() == 0,
        last is File ==> expanded(listings.push(last)) == expanded(listings).push(
            (listings.len() as int, None),
        ),
        last matches PathListing::Directory(v) ==> {
            let entries = sorted_entries(names(v@));
            &&& expanded(listings.push(last)).len() == expanded(listings).len() + entries.len()
            &&& forall|k: int|
                0 <= k < expanded(listings).len() ==> #[trigger] expanded(listings.push(last))[k]
                    == expanded(listings)[k]
            &&& forall|k: int|
                0 <= k < entries.len() ==> expanded(listings.push(last))[expanded(listings).len()
                    + k] == (listings.len() as int, Some(#[trigger] entries[k]))
        },
{
    let all = listings.push(last);
    assert(all.drop_last() =~= listings);
    assert(all.last() == last);
    if last is File {
        assert(expanded(listings) + seq![(listings.len() as int, None::<int>)] =~= expanded(
            listings,
        ).push((listings.len() as int, None)));
    }
}

} // verus!
