//! The window: which commands leave it, and what the player's updates do to it.

use crossbeam_channel::Receiver;
use vstd::prelude::*;

use crate::cmd::{Command, EndReason, UiUpdate};
use crate::input::{key_command, map_key};
use crate::terminal::last_end;
use crate::text::{chars_of, has_prefix, starts_with, text_of};

verus! {

/// After how many ticks the display is held against the audio: about a second.
pub const DRIFT_TICKS: u32 = 62;

/// Whether a command leaves the window: one for another file does not where there is none.
pub open spec fn leaves(cmd: Command, file_index: int, file_count: int) -> bool {
    match cmd {
        Command::NextFile => file_index + 1 < file_count,
        Command::PrevFile => file_index > 0,
        _ => true,
    }
}

/// Whether a command is to be sent.
pub fn is_sent(cmd: Command, file_index: usize, file_count: usize) -> (r: bool)
    ensures
        r == leaves(cmd, file_index as int, file_count as int),
{
    match cmd {
        Command::NextFile => file_index < file_count && file_count - file_index > 1,
        Command::PrevFile => file_index > 0,
        _ => true,
    }
}

/// What a key does in the window.
#[derive(Clone, Copy, Debug, PartialEq, Eq, Structural)]
pub struct KeyResponse {
    /// Whether the window enters or leaves full screen.
    pub toggle_fullscreen: bool,
    /// The command to send, if any.
    pub send: Option<Command>,
    /// Whether the progress bar is shown.
    pub show_bar: bool,
    /// Whether the window ends.
    pub quit: bool,
}

/// What a key does in the window; none where it is left to others.
pub open spec fn key_response(
    key_code: u16,
    shift: bool,
    chars: Seq<char>,
    file_index: int,
    file_count: int,
) -> Option<KeyResponse> {
    match key_command(key_code, shift, chars) {
        None => None,
        Some(cmd) => if cmd == Command::ToggleFullscreen {
            Some(
                KeyResponse { toggle_fullscreen: true, send: None, show_bar: false, quit: false },
            )
        } else {
            Some(
                KeyResponse {
                    toggle_fullscreen: false,
                    send: if leaves(cmd, file_index, file_count) {
                        Some(cmd)
                    } else {
                        None
                    },
                    show_bar: cmd is SeekRelative,
                    quit: cmd == Command::Quit,
                },
            )
        },
    }
}

/// Works out what a key does in the window.
pub fn handle_key(key_code: u16, shift: bool, chars: &str, file_index: usize, file_count: usize) -> (r:
    Option<KeyResponse>)
    ensures
        r == key_response(key_code, shift, chars@, file_index as int, file_count as int),
{
    match map_key(key_code, shift, chars) {
        None => None,
        Some(cmd) => match cmd {
            Command::ToggleFullscreen => Some(
                KeyResponse { toggle_fullscreen: true, send: None, show_bar: false, quit: false },
            ),
            _ => Some(
                KeyResponse {
                    toggle_fullscreen: false,
                    send: if is_sent(cmd, file_index, file_count) {
                        Some(cmd)
                    } else {
                        None
                    },
                    show_bar: match cmd {
                        Command::SeekRelative { delta_us: _, exact: _ } => true,
                        _ => false,
                    },
                    quit: cmd == Command::Quit,
                },
            ),
        },
    }
}

/// What the window does about an update.
#[derive(Debug, Clone)]
pub enum WindowStep {
    ShowMessage(String),
    /// Show a subtitle, or hide it.
    ShowSubtitle(Option<String>),
    /// Hold the display against the audio.
    SyncDisplay,
    /// Let the display run, or stop it.
    SetRunning(bool),
    /// Drop what the display has yet to show, and set its time.
    FlushDisplay(i64),
    /// Tell the player to quit.
    SendQuit,
}

/// What the window does about an update, in order. The display is held against the audio before it
/// runs on, and the player is told to quit once a file has ended.
pub open spec fn steps(update: UiUpdate) -> Seq<WindowStep> {
    match update {
        UiUpdate::Osd(text) => seq![WindowStep::ShowMessage(text)],
        UiUpdate::SubtitleText(text) => seq![WindowStep::ShowSubtitle(text)],
        UiUpdate::VideoSize { .. } => Seq::empty(),
        UiUpdate::Paused(paused) => if paused {
            seq![WindowStep::SetRunning(false)]
        } else {
            seq![WindowStep::SyncDisplay, WindowStep::SetRunning(true)]
        },
        UiUpdate::SeekFlush(pts_us) => seq![WindowStep::FlushDisplay(pts_us)],
        UiUpdate::EndOfFile(_) => seq![WindowStep::SendQuit],
    }
}

/// Works out what the window does about an update.
pub fn window_steps(update: UiUpdate) -> (r: Vec<WindowStep>)
    ensures
        r@ == steps(update),
{
    let mut out: Vec<WindowStep> = Vec::new();
    match update {
        UiUpdate::Osd(text) => out.push(WindowStep::ShowMessage(text)),
        UiUpdate::SubtitleText(text) => out.push(WindowStep::ShowSubtitle(text)),
        UiUpdate::VideoSize { .. } => {},
        UiUpdate::Paused(paused) => {
            if !paused {
                out.push(WindowStep::SyncDisplay);
            }
            out.push(WindowStep::SetRunning(!paused));
        },
        UiUpdate::SeekFlush(pts_us) => out.push(WindowStep::FlushDisplay(pts_us)),
        UiUpdate::EndOfFile(_) => out.push(WindowStep::SendQuit),
    }
    assert(out@ =~= steps(update));
    out
}

/// Why the file ended, by the last of the updates that says so.
pub fn end_of(updates: &Vec<UiUpdate>) -> (end: Option<EndReason>)
    ensures
        end == last_end(updates@),
{
    let mut end: Option<EndReason> = None;
    let mut i: usize = 0;
    while i < updates.len()
        invariant
            i <= updates.len(),
            end == last_end(updates@.take(i as int)),
        decreases updates.len() - i,
    {
        assert(updates@.take(i + 1).drop_last() =~= updates@.take(i as int));
        if let UiUpdate::EndOfFile(reason) = &updates[i] {
            end = Some(*reason);
        }
        i = i + 1;
    }
    assert(updates@.take(i as int) =~= updates@);
    end
}

/// Takes the updates that have arrived, and says why the file ended, where one of them does. Which
/// have arrived depends on the player's thread.
pub fn process_pending_ui_updates(ui_update_rx: &Receiver<UiUpdate>) -> (r: (
    Vec<UiUpdate>,
    Option<EndReason>,
))
    ensures
        r.1 == last_end(r.0@),
{
    let mut updates: Vec<UiUpdate> = Vec::new();
    let mut left: u64 = u64::MAX;
    while left > 0
        decreases left,
    {
        left = left - 1;
        match ui_update_rx.try_recv() {
            Ok(update) => {
                updates.push(update);
            },
            Err(_) => {
                left = 0;
            },
        }
    }
    let end = end_of(&updates);
    (updates, end)
}

/// Counts a tick; says whether the display is now held against the audio.
pub fn count_tick(counter: u32) -> (r: (u32, bool))
    ensures
        r.1 == (counter + 1 >= DRIFT_TICKS),
        r.0 == if r.1 {
            0
        } else {
            counter + 1
        },
{
    if counter >= DRIFT_TICKS - 1 {
        (0, true)
    } else {
        (counter + 1, false)
    }
}

/// The title that is shown over the video: that of the window, without the name of the player.
pub open spec fn shown_title(title: Seq<char>) -> Seq<char> {
    if starts_with(title, "play - "@) {
        title.skip("play - "@.len() as int)
    } else {
        title
    }
}

/// The title that is shown over the video.
pub fn title_text(title: &str) -> (r: String)
    ensures
        r@ == shown_title(title@),
{
    let v = chars_of(title);
    let prefix = chars_of("play - ");
    if has_prefix(&v, &prefix) {
        let out = text_of(&v, prefix.len(), v.len());
        assert(out@ =~= title@.skip(prefix.len() as int));
        out
    } else {
        title.to_string()
    }
}

/// A command for another file leaves the window only where there is such a file; every other does.
pub proof fn lemma_no_way_out_of_the_list(cmd: Command, index: int, count: int)
    requires
        0 <= index < count,
    ensures
        leaves(Command::NextFile, index, count) <==> index != count - 1,
        leaves(Command::PrevFile, index, count) <==> index != 0,
        cmd != Command::NextFile && cmd != Command::PrevFile ==> leaves(cmd, index, count),
{
}

/// A key does what its command says: full screen is the window's own, quitting ends the window and
/// is sent, a seek shows the bar, and the rest is sent.
pub proof fn lemma_key_in_the_window(
    key_code: u16,
    shift: bool,
    chars: Seq<char>,
    index: int,
    count: int,
)
    requires
        0 <= index < count,
    ensures
        match key_command(key_code, shift, chars) {
            None => key_response(key_code, shift, chars, index, count) is None,
            Some(cmd) => key_response(key_code, shift, chars, index, count) matches Some(r) && {
                &&& r.toggle_fullscreen <==> cmd == Command::ToggleFullscreen
                &&& r.quit <==> cmd == Command::Quit
                &&& r.show_bar <==> cmd is SeekRelative
                &&& r.send is None <==> cmd == Command::ToggleFullscreen || (cmd
                    == Command::NextFile && index == count - 1) || (cmd == Command::PrevFile
                    && index == 0)
                &&& r.send matches Some(sent) ==> sent == cmd
            },
        },
{
}

/// What the player says is done: a message and a subtitle are shown, a pause holds the display, a
/// seek flushes it, and at the end of a file the player is told to quit. Before the display runs on
/// it is held against the audio.
pub proof fn lemma_updates_are_followed(update: UiUpdate)
    ensures
        update matches UiUpdate::Osd(text) ==> steps(update) == seq![WindowStep::ShowMessage(text)],
        update matches UiUpdate::SubtitleText(text) ==> steps(update) == seq![
            WindowStep::ShowSubtitle(text),
        ],
        update matches UiUpdate::Paused(paused) ==> steps(update).last() == WindowStep::SetRunning(
            !paused,
        ) && steps(update).contains(WindowStep::SyncDisplay) == !paused,
        update matches UiUpdate::SeekFlush(us) ==> steps(update) == seq![
            WindowStep::FlushDisplay(us),
        ],
        update is EndOfFile ==> steps(update) == seq![WindowStep::SendQuit],
        update is VideoSize ==> steps(update).len() == 0,
{
    if update is Paused && !update->Paused_0 {
        assert(steps(update)[0] == WindowStep::SyncDisplay);
    }
}

/// The name of the player is no part of the title over the video.
pub proof fn lemma_title_without_player(name: Seq<char>)
    ensures
        shown_title("play - "@ + name) == name,
        name.len() < 7 ==> shown_title(name) == name,
{
    reveal_strlit("play - ");
    let title = "play - "@ + name;
    assert(title.take(7) =~= "play - "@);
    assert(title.skip(7) =~= name);
}

} // verus!
