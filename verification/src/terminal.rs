//! The terminal interface of audio playback: keys, messages, and what the screen shows.

use vstd::prelude::*;

use crate::cmd::{Command, EndReason, UiUpdate};
use crate::playlist::{numbered, numbered_name};
use crate::streams::{audio_text, format_audio_info, pairs, StreamInfo};
use crate::text::{
    append, chars_between, chars_of, equal_ignoring_case, join, joined, replace_char, replaced,
    same_ignoring_case, text_of, texts,
};
use crate::time::{format_time, time_text};

verus! {

/// How long a message is shown, in milliseconds.
pub const MESSAGE_MS: u64 = 2000;

/// A key of the terminal.
#[derive(Clone, Copy, Debug, PartialEq, Eq, Structural)]
pub enum Key {
    Char(char),
    Left,
    Right,
    Up,
    Down,
    Other,
}

/// What a key leads to.
#[derive(Clone, Copy, Debug, PartialEq, Eq, Structural)]
pub enum KeyAction {
    End(EndReason),
    Send(Command),
    /// Adds to the seek that follows once all keys were read.
    Seek(i64),
    Nothing,
}

/// Which file is played, and what the keys do.
#[derive(Clone, Copy, Debug, PartialEq, Eq, Structural)]
pub struct TerminalMode {
    pub file_index: usize,
    pub file_count: usize,
    /// How far an arrow key seeks, in microseconds.
    pub step_us: i64,
    /// Whether keys change the audio delay.
    pub delay_keys: bool,
    /// Whether the screen is kept between the files of a list also where a file ends by itself.
    pub keeps_screen: bool,
}

impl TerminalMode {
    /// What a key leads to. Keys for another file do nothing where there is none.
    pub open spec fn action(self, key: Key) -> KeyAction {
        match key {
            Key::Char('q') => KeyAction::End(EndReason::Quit),
            Key::Char('>') | Key::Char('.') | Key::Char('\n') => if self.file_index + 1
                < self.file_count {
                KeyAction::End(EndReason::NextFile)
            } else {
                KeyAction::Nothing
            },
            Key::Char('<') | Key::Char(',') => if self.file_index > 0 {
                KeyAction::End(EndReason::PrevFile)
            } else {
                KeyAction::Nothing
            },
            Key::Char(' ') => KeyAction::Send(Command::PlayPause),
            Key::Left => KeyAction::Seek((-self.step_us) as i64),
            Key::Right => KeyAction::Seek(self.step_us),
            Key::Up => KeyAction::Send(Command::VolumeUp),
            Key::Down => KeyAction::Send(Command::VolumeDown),
            Key::Char('a') => KeyAction::Send(Command::CycleAudioTrack),
            Key::Char('+') | Key::Char('=') => if self.delay_keys {
                KeyAction::Send(Command::AudioDelayIncrease)
            } else {
                KeyAction::Nothing
            },
            Key::Char('-') => if self.delay_keys {
                KeyAction::Send(Command::AudioDelayDecrease)
            } else {
                KeyAction::Nothing
            },
            _ => KeyAction::Nothing,
        }
    }

    /// Whether the step is not negative.
    pub open spec fn wf(self) -> bool {
        self.step_us >= 0
    }

    /// What a key leads to.
    pub fn key_action(&self, key: Key) -> (r: KeyAction)
        requires
            self.wf(),
        ensures
            r == self.action(key),
    {
        match key {
            Key::Char('q') => KeyAction::End(EndReason::Quit),
            Key::Char('>') | Key::Char('.') | Key::Char('\n') => if self.file_index
                < self.file_count && self.file_count - self.file_index > 1 {
                KeyAction::End(EndReason::NextFile)
            } else {
                KeyAction::Nothing
            },
            Key::Char('<') | Key::Char(',') => if self.file_index > 0 {
                KeyAction::End(EndReason::PrevFile)
            } else {
                KeyAction::Nothing
            },
            Key::Char(' ') => KeyAction::Send(Command::PlayPause),
            Key::Left => KeyAction::Seek(-self.step_us),
            Key::Right => KeyAction::Seek(self.step_us),
            Key::Up => KeyAction::Send(Command::VolumeUp),
            Key::Down => KeyAction::Send(Command::VolumeDown),
            Key::Char('a') => KeyAction::Send(Command::CycleAudioTrack),
            Key::Char('+') | Key::Char('=') => if self.delay_keys {
                KeyAction::Send(Command::AudioDelayIncrease)
            } else {
                KeyAction::Nothing
            },
            Key::Char('-') => if self.delay_keys {
                KeyAction::Send(Command::AudioDelayDecrease)
            } else {
                KeyAction::Nothing
            },
            _ => KeyAction::Nothing,
        }
    }
}

/// Where the first key stands that ends the file, the number of keys where there is none.
pub open spec fn end_key(mode: TerminalMode, keys: Seq<Key>, i: int) -> int
    decreases keys.len() - i,
{
    if 0 <= i < keys.len() && !(mode.action(keys[i]) is End) {
        end_key(mode, keys, i + 1)
    } else {
        i
    }
}

/// The commands that keys send, in their order.
pub open spec fn sent_by(mode: TerminalMode, keys: Seq<Key>) -> Seq<Command>
    decreases keys.len(),
{
    if keys.len() == 0 {
        Seq::empty()
    } else {
        match mode.action(keys.last()) {
            KeyAction::Send(cmd) => sent_by(mode, keys.drop_last()).push(cmd),
            _ => sent_by(mode, keys.drop_last()),
        }
    }
}

/// How far keys seek together.
pub open spec fn sought_by(mode: TerminalMode, keys: Seq<Key>) -> int
    decreases keys.len(),
{
    if keys.len() == 0 {
        0
    } else {
        sought_by(mode, keys.drop_last()) + match mode.action(keys.last()) {
            KeyAction::Seek(us) => us as int,
            _ => 0,
        }
    }
}

/// What a batch of keys leads to.
#[derive(Debug)]
pub struct KeyBatch {
    /// The commands to send, in their order.
    pub commands: Vec<Command>,
    /// Why the file ends, where it does.
    pub end: Option<EndReason>,
}

/// The commands that a batch of keys leads to: each as it comes, and then one seek for all that
/// seek; where one ends the file, nothing after it, no seek, and that the player is to end.
pub open spec fn batch_commands(mode: TerminalMode, keys: Seq<Key>) -> Seq<Command> {
    let end = end_key(mode, keys, 0);
    let sent = sent_by(mode, keys.take(end));
    let sought = sought_by(mode, keys);
    if end < keys.len() {
        sent.push(Command::Quit)
    } else if sought != 0 {
        sent.push(Command::SeekRelative { delta_us: sought as i64, exact: false })
    } else {
        sent
    }
}

/// Reads a batch of keys.
pub fn read_keys(mode: &TerminalMode, keys: &Vec<Key>) -> (r: KeyBatch)
    requires
        mode.wf(),
        keys.len() * mode.step_us <= i64::MAX,
    ensures
        r.commands@ == batch_commands(*mode, keys@),
        r.end == if end_key(*mode, keys@, 0) < keys.len() {
            match mode.action(keys@[end_key(*mode, keys@, 0)]) {
                KeyAction::End(reason) => Some(reason),
                _ => None,
            }
        } else {
            None
        },
{
    let mut commands: Vec<Command> = Vec::new();
    let mut sought: i64 = 0;
    let mut i: usize = 0;
    assert(keys@.take(0) =~= Seq::empty());
    assert(0 * mode.step_us == 0);
    while i < keys.len()
        invariant
            i <= keys.len(),
            mode.wf(),
            keys.len() * mode.step_us <= i64::MAX,
            -(i * mode.step_us) <= sought <= i * mode.step_us,
            end_key(*mode, keys@, 0) == end_key(*mode, keys@, i as int),
            commands@ == sent_by(*mode, keys@.take(i as int)),
            sought == sought_by(*mode, keys@.take(i as int)),
        decreases keys.len() - i,
    {
        assert(keys@.take(i + 1).drop_last() =~= keys@.take(i as int));
        assert((i + 1) * mode.step_us == i * mode.step_us + mode.step_us) by (nonlinear_arith);
        assert((i + 1) * mode.step_us <= keys.len() * mode.step_us) by (nonlinear_arith)
            requires
                i + 1 <= keys.len(),
                mode.step_us >= 0,
        ;
        match mode.key_action(keys[i]) {
            KeyAction::End(reason) => {
                commands.push(Command::Quit);
                return KeyBatch { commands, end: Some(reason) };
            },
            KeyAction::Send(cmd) => {
                commands.push(cmd);
            },
            KeyAction::Seek(us) => {
                sought = sought + us;
            },
            KeyAction::Nothing => {},
        }
        i = i + 1;
    }
    assert(keys@.take(i as int) =~= keys@);
    if sought != 0 {
        commands.push(Command::SeekRelative { delta_us: sought, exact: false });
    }
    KeyBatch { commands, end: None }
}

/// What the terminal shows.
#[derive(Debug)]
pub struct TerminalState {
    pub paused: bool,
    /// A message, and when it is no longer shown.
    pub message: Option<(String, u64)>,
}

/// A message, over its text.
pub open spec fn message_text(m: Option<(String, u64)>) -> Option<(Seq<char>, u64)> {
    match m {
        Some((text, deadline)) => Some((text@, deadline)),
        None => None,
    }
}

/// The message after updates: the last one among them, else the one before.
pub open spec fn last_message(
    first: Option<(Seq<char>, u64)>,
    updates: Seq<UiUpdate>,
    deadline: u64,
) -> Option<(Seq<char>, u64)>
    decreases updates.len(),
{
    if updates.len() == 0 {
        first
    } else {
        match updates.last() {
            UiUpdate::Osd(text) => Some((text@, deadline)),
            _ => last_message(first, updates.drop_last(), deadline),
        }
    }
}

/// Whether playback is paused after updates.
pub open spec fn last_paused(first: bool, updates: Seq<UiUpdate>) -> bool
    decreases updates.len(),
{
    if updates.len() == 0 {
        first
    } else {
        match updates.last() {
            UiUpdate::Paused(paused) => paused,
            _ => last_paused(first, updates.drop_last()),
        }
    }
}

/// Why the file ended, by the last of the updates that says so.
pub open spec fn last_end(updates: Seq<UiUpdate>) -> Option<EndReason>
    decreases updates.len(),
{
    if updates.len() == 0 {
        None
    } else {
        match updates.last() {
            UiUpdate::EndOfFile(reason) => Some(reason),
            _ => last_end(updates.drop_last()),
        }
    }
}

/// When a message that comes now is no longer shown.
pub open spec fn message_deadline(now_ms: u64) -> u64 {
    if now_ms + MESSAGE_MS <= u64::MAX {
        (now_ms + MESSAGE_MS) as u64
    } else {
        u64::MAX
    }
}

/// The text behind the position.
pub open spec fn status_text(
    paused: bool,
    position_us: int,
    duration_us: int,
    message: Option<(Seq<char>, u64)>,
) -> Seq<char> {
    "\r\x1b[K"@ + (if paused {
        "\u{23f8}"@
    } else {
        "\u{25b6}"@
    }) + " "@ + time_text(position_us) + " -> "@ + time_text(duration_us) + match message {
        Some((text, _)) => "  "@ + text,
        None => Seq::empty(),
    }
}

impl TerminalState {
    /// A terminal that shows no message.
    pub fn new() -> (r: TerminalState)
        ensures
            !r.paused,
            r.message is None,
    {
        TerminalState { paused: false, message: None }
    }

    /// Takes updates of the player; gives why the file ended, where it did.
    pub fn update(&mut self, updates: &Vec<UiUpdate>, now_ms: u64) -> (end: Option<EndReason>)
        ensures
            message_text(final(self).message) == last_message(
                message_text(old(self).message),
                updates@,
                message_deadline(now_ms),
            ),
            final(self).paused == last_paused(old(self).paused, updates@),
            end == last_end(updates@),
    {
        let deadline: u64 = if now_ms <= u64::MAX - MESSAGE_MS {
            now_ms + MESSAGE_MS
        } else {
            u64::MAX
        };
        let mut end: Option<EndReason> = None;
        let mut i: usize = 0;
        assert(updates@.take(0) =~= Seq::empty());
        while i < updates.len()
            invariant
                i <= updates.len(),
                deadline == message_deadline(now_ms),
                message_text(self.message) == last_message(
                    message_text(old(self).message),
                    updates@.take(i as int),
                    deadline,
                ),
                self.paused == last_paused(old(self).paused, updates@.take(i as int)),
                end == last_end(updates@.take(i as int)),
            decreases updates.len() - i,
        {
            assert(updates@.take(i + 1).drop_last() =~= updates@.take(i as int));
            match &updates[i] {
                UiUpdate::Osd(text) => {
                    self.message = Some((text.clone(), deadline));
                },
                UiUpdate::Paused(paused) => {
                    self.paused = *paused;
                },
                UiUpdate::EndOfFile(reason) => {
                    end = Some(*reason);
                },
                _ => {},
            }
            i = i + 1;
        }
        assert(updates@.take(i as int) =~= updates@);
        end
    }

    /// Drops a message whose time is up.
    pub fn expire(&mut self, now_ms: u64)
        ensures
            final(self).paused == old(self).paused,
            final(self).message == if old(self).message matches Some(m) && now_ms >= m.1 {
                None
            } else {
                old(self).message
            },
    {
        let over: bool = match &self.message {
            Some((_, deadline)) => now_ms >= *deadline,
            None => false,
        };
        if over {
            self.message = None;
        }
    }

    /// The line that shows the position.
    pub fn status_line(&self, position_us: i64, duration_us: i64) -> (r: String)
        ensures
            r@ == status_text(
                self.paused,
                position_us as int,
                duration_us as int,
                message_text(self.message),
            ),
    {
        let mut out: String = "\r\x1b[K".to_string();
        if self.paused {
            append(&mut out, "\u{23f8}");
        } else {
            append(&mut out, "\u{25b6}");
        }
        append(&mut out, " ");
        append(&mut out, format_time(position_us).as_str());
        append(&mut out, " -> ");
        append(&mut out, format_time(duration_us).as_str());
        match &self.message {
            Some((text, _)) => {
                let ghost line = out@;
                append(&mut out, "  ");
                append(&mut out, text.as_str());
                assert(out@ =~= line + ("  "@ + text@));
            },
            None => {
                assert(out@ + Seq::<char>::empty() =~= out@);
            },
        }
        out
    }
}

/// Whether the screen is kept for the next file.
pub open spec fn keeps_screen(mode: TerminalMode, end: EndReason) -> bool {
    ||| end == EndReason::NextFile
    ||| end == EndReason::PrevFile
    ||| mode.keeps_screen && end == EndReason::Eof && mode.file_index + 1 < mode.file_count
}

/// Whether the screen is kept for the next file.
pub fn stays_on_screen(mode: &TerminalMode, end: EndReason) -> (r: bool)
    ensures
        r == keeps_screen(*mode, end),
{
    match end {
        EndReason::NextFile | EndReason::PrevFile => true,
        EndReason::Eof => mode.keeps_screen && mode.file_index < mode.file_count && mode.file_count
            - mode.file_index > 1,
        EndReason::Quit => false,
    }
}

/// An ASCII small letter as its capital; every other character as it is.
pub open spec fn ascii_upper(c: char) -> char {
    if 'a' <= c <= 'z' {
        (c as int - 32) as char
    } else {
        c
    }
}

/// What Unicode has as the capital of a character, which may be several characters.
pub uninterp spec fn unicode_upper(c: char) -> Seq<char>;

/// The capital of a character by `char::to_uppercase` of std. It is a function of the character
/// alone, and in ASCII only the small letters change, each to its capital. Beyond ASCII the tables of
/// Unicode decide, and nothing more is said of it.
#[verifier::external_body]
fn upper(c: char) -> (r: String)
    ensures
        r@ == unicode_upper(c),
        c <= '\x7f' ==> r@ == seq![ascii_upper(c)],
{
    c.to_uppercase().to_string()
}

/// The capital of a character.
pub open spec fn capital(c: char) -> Seq<char> {
    if c <= '\x7f' {
        seq![ascii_upper(c)]
    } else {
        unicode_upper(c)
    }
}

/// A name with a capital first and spaces for underscores.
pub open spec fn capitalized(s: Seq<char>) -> Seq<char> {
    if s.len() == 0 {
        s
    } else {
        capital(s[0]) + replaced(s.drop_first(), '_', ' ')
    }
}

/// Writes a name with a capital first and spaces for underscores.
pub fn capitalize(s: &str) -> (r: String)
    ensures
        r@ == capitalized(s@),
{
    let v = chars_of(s);
    if v.len() == 0 {
        return String::new();
    }
    let mut out = upper(v[0]);
    let rest = chars_between(&v, 1, v.len());
    assert(rest@ =~= s@.drop_first());
    let changed = replace_char(&rest, '_', ' ');
    append(&mut out, text_of(&changed, 0, changed.len()).as_str());
    assert(out@ =~= capitalized(s@));
    out
}

/// The value of the first entry of this name, in capitals or small letters, from `i` on.
pub open spec fn entry_from(
    metadata: Seq<(Seq<char>, Seq<char>)>,
    key: Seq<char>,
    i: int,
) -> Option<Seq<char>>
    decreases metadata.len() - i,
{
    if !(0 <= i < metadata.len()) {
        None
    } else if equal_ignoring_case(metadata[i].0, key) {
        Some(metadata[i].1)
    } else {
        entry_from(metadata, key, i + 1)
    }
}

/// The line for an entry of the metadata, where there is such an entry.
pub open spec fn metadata_line(metadata: Seq<(Seq<char>, Seq<char>)>, key: Seq<char>) -> Seq<
    Seq<char>,
> {
    match entry_from(metadata, key, 0) {
        Some(value) => seq![capitalized(key) + ": "@ + value + "\r\n"@],
        None => Seq::empty(),
    }
}

/// The lines for the entries of the metadata that are shown.
pub open spec fn metadata_lines(metadata: Seq<(Seq<char>, Seq<char>)>) -> Seq<Seq<char>> {
    metadata_line(metadata, "title"@) + metadata_line(metadata, "artist"@) + metadata_line(
        metadata,
        "album_artist"@,
    ) + metadata_line(metadata, "album"@) + metadata_line(metadata, "date"@) + metadata_line(
        metadata,
        "genre"@,
    )
}

/// Adds the line for an entry of the metadata.
fn push_metadata(out: &mut Vec<String>, metadata: &Vec<(String, String)>, key: &str)
    ensures
        texts(final(out)@) == texts(old(out)@) + metadata_line(pairs(metadata@), key@),
{
    let ghost all = pairs(metadata@);
    let letters = chars_of(key);
    let mut i: usize = 0;
    while i < metadata.len()
        invariant
            i <= metadata.len(),
            all == pairs(metadata@),
            letters@ == key@,
            out@ == old(out)@,
            entry_from(all, key@, 0) == entry_from(all, key@, i as int),
        decreases metadata.len() - i,
    {
        assert(all[i as int] == (metadata@[i as int].0@, metadata@[i as int].1@));
        if same_ignoring_case(&chars_of(metadata[i].0.as_str()), &letters) {
            let mut line = capitalize(key);
            append(&mut line, ": ");
            append(&mut line, metadata[i].1.as_str());
            append(&mut line, "\r\n");
            let ghost before = out@;
            out.push(line);
            assert(texts(out@) =~= texts(before) + seq![line@]);
            return;
        }
        i = i + 1;
    }
    assert(texts(out@) =~= texts(old(out)@) + metadata_line(all, key@));
}

/// The lines for the entries of the metadata that are shown.
pub fn print_metadata(info: &StreamInfo) -> (r: Vec<String>)
    ensures
        texts(r@) == metadata_lines(info@.metadata),
{
    let mut out: Vec<String> = Vec::new();
    push_metadata(&mut out, &info.metadata, "title");
    push_metadata(&mut out, &info.metadata, "artist");
    push_metadata(&mut out, &info.metadata, "album_artist");
    push_metadata(&mut out, &info.metadata, "album");
    push_metadata(&mut out, &info.metadata, "date");
    push_metadata(&mut out, &info.metadata, "genre");
    assert(texts(out@) =~= metadata_lines(info@.metadata));
    out
}

/// What the screen shows of a file at first.
pub open spec fn header_text(mode: TerminalMode, name: Seq<char>, info: StreamInfo) -> Seq<char> {
    (if mode.file_count > 1 {
        numbered(name, mode.file_index as int, mode.file_count as int)
    } else {
        name
    }) + "\r\n"@ + joined(metadata_lines(info@.metadata), Seq::empty()) + (
    if info.audio_streams.len() > 0 {
        audio_text(info.audio_streams@[0]@) + "\r\n"@
    } else {
        Seq::empty()
    }) + "00:00:00 -> "@ + time_text(info.duration_us as int)
}

/// What the screen shows of a file at first: its name, what is known of it, and where it is played.
pub fn header(mode: &TerminalMode, name: &str, info: &StreamInfo) -> (r: String)
    requires
        mode.file_count > 1 ==> mode.file_index < usize::MAX,
    ensures
        r@ == header_text(*mode, name@, *info),
{
    let mut out: String = if mode.file_count > 1 {
        numbered_name(name, mode.file_index, mode.file_count)
    } else {
        name.to_string()
    };
    append(&mut out, "\r\n");
    let lines = print_metadata(info);
    let metadata = join(&lines, "");
    proof {
        reveal_strlit("");
        assert(""@ =~= Seq::<char>::empty());
    }
    append(&mut out, metadata.as_str());
    if info.audio_streams.len() > 0 {
        let ghost before = out@;
        append(&mut out, format_audio_info(&info.audio_streams[0]).as_str());
        append(&mut out, "\r\n");
        assert(out@ =~= before + (audio_text(info.audio_streams@[0]@) + "\r\n"@));
    } else {
        assert(out@ + Seq::<char>::empty() =~= out@);
    }
    append(&mut out, "00:00:00 -> ");
    append(&mut out, format_time(info.duration_us).as_str());
    out
}

/// What each key does: arrows seek by the step, back and ahead, or change the volume; a key for
/// another file ends this one where there is another; the delay changes only where that is wanted.
pub proof fn lemma_terminal_keys(mode: TerminalMode, key: Key)
    requires
        mode.step_us > i64::MIN,
    ensures
        mode.action(Key::Left) == KeyAction::Seek((-mode.step_us) as i64),
        mode.action(Key::Right) == KeyAction::Seek(mode.step_us),
        mode.action(key) is Seek ==> key == Key::Left || key == Key::Right,
        mode.action(key) == KeyAction::End(EndReason::Quit) <==> key == Key::Char('q'),
        mode.action(key) == KeyAction::End(EndReason::NextFile) <==> (key == Key::Char('>') || key
            == Key::Char('.') || key == Key::Char('\n')) && mode.file_index + 1 < mode.file_count,
        mode.action(key) == KeyAction::End(EndReason::PrevFile) <==> (key == Key::Char('<') || key
            == Key::Char(',')) && mode.file_index > 0,
        mode.action(key) != KeyAction::End(EndReason::Eof),
        mode.action(key) == KeyAction::Send(Command::PlayPause) <==> key == Key::Char(' '),
        mode.action(key) == KeyAction::Send(Command::VolumeUp) <==> key == Key::Up,
        mode.action(key) == KeyAction::Send(Command::VolumeDown) <==> key == Key::Down,
        mode.action(key) == KeyAction::Send(Command::CycleAudioTrack) <==> key == Key::Char('a'),
        mode.action(key) == KeyAction::Send(Command::AudioDelayIncrease) <==> (key == Key::Char('+')
            || key == Key::Char('=')) && mode.delay_keys,
        mode.action(key) == KeyAction::Send(Command::AudioDelayDecrease) <==> key == Key::Char('-')
            && mode.delay_keys,
        mode.action(key) matches KeyAction::Send(cmd) ==> cmd == Command::PlayPause || cmd
            == Command::VolumeUp || cmd == Command::VolumeDown || cmd == Command::CycleAudioTrack
            || cmd == Command::AudioDelayIncrease || cmd == Command::AudioDelayDecrease,
{
}

proof fn lemma_end_key(mode: TerminalMode, keys: Seq<Key>, i: int)
    requires
        0 <= i <= keys.len(),
    ensures
        i <= end_key(mode, keys, i) <= keys.len(),
        forall|k: int|
            i <= k < end_key(mode, keys, i) ==> !(mode.action(#[trigger] keys[k]) is End),
        end_key(mode, keys, i) < keys.len() ==> mode.action(keys[end_key(mode, keys, i)]) is End,
    decreases keys.len() - i,
{
    if i < keys.len() && !(mode.action(keys[i]) is End) {
        lemma_end_key(mode, keys, i + 1);
    }
}

/// Keys that seek are one seek by the sum of their steps: as often back as ahead leads nowhere.
pub proof fn lemma_arrow_keys_add_up(mode: TerminalMode, keys: Seq<Key>)
    requires
        mode.step_us > i64::MIN,
    ensures
        sought_by(mode, keys) == mode.step_us * (keys.filter(|k: Key| k == Key::Right).len()
            - keys.filter(|k: Key| k == Key::Left).len()),
    decreases keys.len(),
{
    reveal(Seq::filter);
    let right = |k: Key| k == Key::Right;
    let left = |k: Key| k == Key::Left;
    let s = mode.step_us as int;
    if keys.len() > 0 {
        let head = keys.drop_last();
        lemma_arrow_keys_add_up(mode, head);
        let a = head.filter(right).len() - head.filter(left).len();
        assert(s * (a + 1) == s * a + s) by (nonlinear_arith);
        assert(s * (a - 1) == s * a - s) by (nonlinear_arith);
    } else {
        assert(s * 0 == 0);
    }
}

/// Commands of keys are sent in the order of the keys, each once.
pub proof fn lemma_keys_send_in_order(mode: TerminalMode, keys: Seq<Key>, key: Key)
    ensures
        sent_by(mode, Seq::empty()).len() == 0,
        mode.action(key) matches KeyAction::Send(cmd) ==> sent_by(mode, keys.push(key)) == sent_by(
            mode,
            keys,
        ).push(cmd),
        !(mode.action(key) is Send) ==> sent_by(mode, keys.push(key)) == sent_by(mode, keys),
{
    assert(keys.push(key).drop_last() =~= keys);
}

/// A batch of keys: where one ends the file, the commands before it are sent and then the player is
/// told to end, and what comes behind it counts for nothing. Otherwise all commands are sent, and one
/// seek behind them where the keys seek anywhere.
pub proof fn lemma_batch_of_keys(mode: TerminalMode, keys: Seq<Key>, n: int)
    requires
        0 <= n <= keys.len(),
        forall|k: int| 0 <= k < n ==> !(mode.action(#[trigger] keys[k]) is End),
    ensures
        n < keys.len() && mode.action(keys[n]) is End ==> end_key(mode, keys, 0) == n
            && batch_commands(mode, keys) == sent_by(mode, keys.take(n)).push(Command::Quit),
        n == keys.len() && sought_by(mode, keys) == 0 ==> batch_commands(mode, keys) == sent_by(
            mode,
            keys,
        ),
        n == keys.len() && sought_by(mode, keys) != 0 ==> batch_commands(mode, keys) == sent_by(
            mode,
            keys,
        ).push(Command::SeekRelative { delta_us: sought_by(mode, keys) as i64, exact: false }),
        n == keys.len() ==> end_key(mode, keys, 0) == n,
{
    lemma_end_key(mode, keys, 0);
    let e = end_key(mode, keys, 0);
    if e < n {
        assert(!(mode.action(keys[e]) is End));
    }
    if n < e && n < keys.len() {
        assert(!(mode.action(keys[n]) is End));
    }
    assert(keys.take(keys.len() as int) =~= keys);
}

/// Of updates that arrive together the last of each kind counts; without one nothing changes.
pub proof fn lemma_last_update_counts(
    first: Option<(Seq<char>, u64)>,
    paused: bool,
    updates: Seq<UiUpdate>,
    update: UiUpdate,
    deadline: u64,
)
    ensures
        last_message(first, Seq::empty(), deadline) == first,
        last_paused(paused, Seq::empty()) == paused,
        last_end(Seq::empty()) is None,
        last_message(first, updates.push(update), deadline) == match update {
            UiUpdate::Osd(text) => Some((text@, deadline)),
            _ => last_message(first, updates, deadline),
        },
        last_paused(paused, updates.push(update)) == match update {
            UiUpdate::Paused(p) => p,
            _ => last_paused(paused, updates),
        },
        last_end(updates.push(update)) == match update {
            UiUpdate::EndOfFile(reason) => Some(reason),
            _ => last_end(updates),
        },
{
    assert(updates.push(update).drop_last() =~= updates);
}

/// A message is shown for two seconds.
pub proof fn lemma_message_time(now_ms: u64)
    requires
        now_ms + 2000 <= u64::MAX,
    ensures
        message_deadline(now_ms) == now_ms + 2000,
{
}

/// The line at the bottom tells whether playback is paused, where it is, how long the file lasts,
/// and the message.
pub proof fn lemma_status_line(
    position_us: int,
    duration_us: int,
    text: Seq<char>,
    deadline: u64,
)
    ensures
        status_text(false, position_us, duration_us, None) == "\r\x1b[K"@ + "\u{25b6}"@ + " "@
            + time_text(position_us) + " -> "@ + time_text(duration_us),
        status_text(true, position_us, duration_us, None) == "\r\x1b[K"@ + "\u{23f8}"@ + " "@
            + time_text(position_us) + " -> "@ + time_text(duration_us),
        forall|paused: bool| #[trigger]
            status_text(paused, position_us, duration_us, Some((text, deadline))) == status_text(
                paused,
                position_us,
                duration_us,
                None,
            ) + "  "@ + text,
{
    let playing = "\r\x1b[K"@ + "\u{25b6}"@ + " "@ + time_text(position_us) + " -> "@ + time_text(
        duration_us,
    );
    let paused = "\r\x1b[K"@ + "\u{23f8}"@ + " "@ + time_text(position_us) + " -> "@ + time_text(
        duration_us,
    );
    assert(playing + Seq::<char>::empty() =~= playing);
    assert(paused + Seq::<char>::empty() =~= paused);
    assert(playing + ("  "@ + text) =~= playing + "  "@ + text);
    assert(paused + ("  "@ + text) =~= paused + "  "@ + text);
}

/// The screen is kept where another file follows because a key asked for it, and where one ended by
/// itself if that is wanted and there is another; never where the player is quit.
pub proof fn lemma_screen_is_kept(mode: TerminalMode)
    ensures
        keeps_screen(mode, EndReason::NextFile),
        keeps_screen(mode, EndReason::PrevFile),
        !keeps_screen(mode, EndReason::Quit),
        keeps_screen(mode, EndReason::Eof) <==> mode.keeps_screen && mode.file_index + 1
            < mode.file_count,
{
}

/// A name is written with a capital first and with spaces for underscores, and is else as it was.
pub proof fn lemma_capitalized(s: Seq<char>)
    requires
        s.len() > 0,
        s[0] <= '\x7f',
    ensures
        capitalized(s).len() == s.len(),
        'a' <= s[0] <= 'z' ==> capitalized(s)[0] as int == s[0] as int - 32,
        !('a' <= s[0] <= 'z') ==> capitalized(s)[0] == s[0],
        forall|k: int|
            1 <= k < s.len() ==> #[trigger] capitalized(s)[k] == if s[k] == '_' {
                ' '
            } else {
                s[k]
            },
{
}

/// The metadata that is shown of a name is the first entry of it, in capitals or small letters.
pub proof fn lemma_first_entry_is_shown(
    metadata: Seq<(Seq<char>, Seq<char>)>,
    key: Seq<char>,
    i: int,
)
    requires
        0 <= i <= metadata.len(),
    ensures
        match entry_from(metadata, key, i) {
            Some(value) => exists|k: int|
                i <= k < metadata.len() && equal_ignoring_case((#[trigger] metadata[k]).0, key)
                    && metadata[k].1 == value && forall|j: int|
                    i <= j < k ==> !equal_ignoring_case((#[trigger] metadata[j]).0, key),
            None => forall|j: int|
                i <= j < metadata.len() ==> !equal_ignoring_case((#[trigger] metadata[j]).0, key),
        },
    decreases metadata.len() - i,
{
    if i < metadata.len() {
        if equal_ignoring_case(metadata[i].0, key) {
            assert(metadata[i].1 == metadata[i].1);
        } else {
            lemma_first_entry_is_shown(metadata, key, i + 1);
        }
    }
}

/// The entries that are shown, in this order, each on a line and only where there is one.
pub proof fn lemma_shown_metadata(metadata: Seq<(Seq<char>, Seq<char>)>, key: Seq<char>)
    ensures
        metadata_lines(metadata) == metadata_line(metadata, "title"@) + metadata_line(
            metadata,
            "artist"@,
        ) + metadata_line(metadata, "album_artist"@) + metadata_line(metadata, "album"@)
            + metadata_line(metadata, "date"@) + metadata_line(metadata, "genre"@),
        entry_from(metadata, key, 0) is None ==> metadata_line(metadata, key).len() == 0,
        entry_from(metadata, key, 0) matches Some(value) ==> metadata_line(metadata, key) == seq![
            capitalized(key) + ": "@ + value + "\r\n"@,
        ],
{
}

/// What the screen shows of a file at first: its name, with its place where there are more, what is
/// known of it, its audio, and how long it lasts.
pub proof fn lemma_header(mode: TerminalMode, name: Seq<char>, info: StreamInfo)
    ensures
        ({
            let title = if mode.file_count > 1 {
                numbered(name, mode.file_index as int, mode.file_count as int)
            } else {
                name
            };
            let audio = if info.audio_streams.len() > 0 {
                audio_text(info.audio_streams@[0]@) + "\r\n"@
            } else {
                Seq::empty()
            };
            header_text(mode, name, info) == title + "\r\n"@ + joined(
                metadata_lines(info@.metadata),
                Seq::empty(),
            ) + audio + "00:00:00 -> "@ + time_text(info.duration_us as int)
        }),
{
}

} // verus!
