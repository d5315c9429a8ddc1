//! Keys and the commands they give.

use vstd::prelude::*;

use crate::cmd::Command;
use crate::text::same_text;

verus! {

/// The code of the space bar.
pub const KEY_SPACE: u16 = 49;

/// The code of the left arrow.
pub const KEY_LEFT: u16 = 123;

/// The code of the right arrow.
pub const KEY_RIGHT: u16 = 124;

/// The code of the down arrow.
pub const KEY_DOWN: u16 = 125;

/// The code of the up arrow.
pub const KEY_UP: u16 = 126;

/// The code of the return key.
pub const KEY_RETURN: u16 = 36;

/// The code of the backspace key.
pub const KEY_DELETE: u16 = 51;

/// The code of the escape key.
pub const KEY_ESCAPE: u16 = 53;

/// The command of the characters that a key gives.
pub open spec fn char_command(chars: Seq<char>) -> Option<Command> {
    if chars == "q"@ {
        Some(Command::Quit)
    } else if chars == "f"@ {
        Some(Command::ToggleFullscreen)
    } else if chars == "a"@ {
        Some(Command::CycleAudioTrack)
    } else if chars == "s"@ {
        Some(Command::CycleSubtitle)
    } else if chars == "m"@ {
        Some(Command::ToggleMute)
    } else if chars == "+"@ || chars == "="@ {
        Some(Command::AudioDelayIncrease)
    } else if chars == "-"@ {
        Some(Command::AudioDelayDecrease)
    } else if chars == "n"@ || chars == ">"@ || chars == "."@ {
        Some(Command::NextFile)
    } else if chars == "p"@ || chars == "<"@ || chars == ","@ {
        Some(Command::PrevFile)
    } else {
        None
    }
}

/// The command of a key: of its code, with the shift key held or not, or else of its characters.
pub open spec fn key_command(key_code: u16, shift: bool, chars: Seq<char>) -> Option<Command> {
    if key_code == KEY_SPACE {
        Some(Command::PlayPause)
    } else if key_code == KEY_LEFT {
        Some(
            Command::SeekRelative {
                delta_us: if shift {
                    (-1_000_000) as i64
                } else {
                    (-5_000_000) as i64
                },
                exact: shift,
            },
        )
    } else if key_code == KEY_RIGHT {
        Some(
            Command::SeekRelative {
                delta_us: if shift {
                    1_000_000
                } else {
                    5_000_000
                },
                exact: shift,
            },
        )
    } else if key_code == KEY_UP {
        Some(
            if shift {
                Command::SeekRelative { delta_us: 60_000_000, exact: false }
            } else {
                Command::VolumeUp
            },
        )
    } else if key_code == KEY_DOWN {
        Some(
            if shift {
                Command::SeekRelative { delta_us: (-60_000_000) as i64, exact: false }
            } else {
                Command::VolumeDown
            },
        )
    } else if key_code == KEY_RETURN {
        Some(Command::NextFile)
    } else if key_code == KEY_DELETE {
        Some(Command::PrevFile)
    } else if key_code == KEY_ESCAPE {
        Some(Command::Quit)
    } else {
        char_command(chars)
    }
}

/// Maps the characters that a key gives to a command.
pub fn map_char(chars: &str) -> (r: Option<Command>)
    ensures
        r == char_command(chars@),
{
    if same_text(chars, "q") {
        Some(Command::Quit)
    } else if same_text(chars, "f") {
        Some(Command::ToggleFullscreen)
    } else if same_text(chars, "a") {
        Some(Command::CycleAudioTrack)
    } else if same_text(chars, "s") {
        Some(Command::CycleSubtitle)
    } else if same_text(chars, "m") {
        Some(Command::ToggleMute)
    } else if same_text(chars, "+") || same_text(chars, "=") {
        Some(Command::AudioDelayIncrease)
    } else if same_text(chars, "-") {
        Some(Command::AudioDelayDecrease)
    } else if same_text(chars, "n") || same_text(chars, ">") || same_text(chars, ".") {
        Some(Command::NextFile)
    } else if same_text(chars, "p") || same_text(chars, "<") || same_text(chars, ",") {
        Some(Command::PrevFile)
    } else {
        None
    }
}

/// Maps a key to a command. `key_code` is the virtual code of the key, `shift` says whether the
/// shift key is held, `chars` are the characters of the event.
pub fn map_key(key_code: u16, shift: bool, chars: &str) -> (r: Option<Command>)
    ensures
        r == key_command(key_code, shift, chars@),
{
    match (key_code, shift) {
        (KEY_SPACE, _) => Some(Command::PlayPause),
        (KEY_LEFT, true) => Some(Command::SeekRelative { delta_us: -1_000_000, exact: true }),
        (KEY_RIGHT, true) => Some(Command::SeekRelative { delta_us: 1_000_000, exact: true }),
        (KEY_UP, true) => Some(Command::SeekRelative { delta_us: 60_000_000, exact: false }),
        (KEY_DOWN, true) => Some(Command::SeekRelative { delta_us: -60_000_000, exact: false }),
        (KEY_LEFT, false) => Some(Command::SeekRelative { delta_us: -5_000_000, exact: false }),
        (KEY_RIGHT, false) => Some(Command::SeekRelative { delta_us: 5_000_000, exact: false }),
        (KEY_UP, false) => Some(Command::VolumeUp),
        (KEY_DOWN, false) => Some(Command::VolumeDown),
        (KEY_RETURN, _) => Some(Command::NextFile),
        (KEY_DELETE, _) => Some(Command::PrevFile),
        (KEY_ESCAPE, _) => Some(Command::Quit),
        _ => map_char(chars),
    }
}

/// The arrow keys seek by as much back as forward, and with the shift key exactly; up and down
/// change the volume, and with the shift key seek by a minute.
pub proof fn lemma_arrow_keys(chars: Seq<char>)
    ensures
        key_command(123, false, chars) == Some(
            Command::SeekRelative { delta_us: (-5_000_000) as i64, exact: false },
        ),
        key_command(124, false, chars) == Some(
            Command::SeekRelative { delta_us: 5_000_000, exact: false },
        ),
        key_command(123, true, chars) == Some(
            Command::SeekRelative { delta_us: (-1_000_000) as i64, exact: true },
        ),
        key_command(124, true, chars) == Some(
            Command::SeekRelative { delta_us: 1_000_000, exact: true },
        ),
        key_command(126, true, chars) == Some(
            Command::SeekRelative { delta_us: 60_000_000, exact: false },
        ),
        key_command(125, true, chars) == Some(
            Command::SeekRelative { delta_us: (-60_000_000) as i64, exact: false },
        ),
        key_command(126, false, chars) == Some(Command::VolumeUp),
        key_command(125, false, chars) == Some(Command::VolumeDown),
{
}

/// The keys without a character do the same with the shift key and without it.
pub proof fn lemma_plain_keys(shift: bool, chars: Seq<char>)
    ensures
        key_command(49, shift, chars) == Some(Command::PlayPause),
        key_command(36, shift, chars) == Some(Command::NextFile),
        key_command(51, shift, chars) == Some(Command::PrevFile),
        key_command(53, shift, chars) == Some(Command::Quit),
{
}

proof fn lemma_one_character(chars: Seq<char>, key: Seq<char>, c: char)
    requires
        key.len() == 1,
        key[0] == c,
    ensures
        chars == key <==> chars.len() == 1 && chars[0] == c,
{
    if chars.len() == 1 && chars[0] == c {
        assert(chars =~= key);
    }
}

/// Every other key goes by its character, and one without a meaning does nothing.
pub proof fn lemma_character_keys(key_code: u16, shift: bool, chars: Seq<char>)
    requires
        key_code != 49 && key_code != 123 && key_code != 124 && key_code != 125 && key_code != 126
            && key_code != 36 && key_code != 51 && key_code != 53,
    ensures
        key_command(key_code, shift, chars) == char_command(chars),
        chars.len() != 1 ==> char_command(chars) is None,
        chars.len() == 1 ==> {
            let c = chars[0];
            &&& c == 'q' <==> char_command(chars) == Some(Command::Quit)
            &&& c == 'f' <==> char_command(chars) == Some(Command::ToggleFullscreen)
            &&& c == 'a' <==> char_command(chars) == Some(Command::CycleAudioTrack)
            &&& c == 's' <==> char_command(chars) == Some(Command::CycleSubtitle)
            &&& c == 'm' <==> char_command(chars) == Some(Command::ToggleMute)
            &&& c == '+' || c == '=' <==> char_command(chars) == Some(Command::AudioDelayIncrease)
            &&& c == '-' <==> char_command(chars) == Some(Command::AudioDelayDecrease)
            &&& c == 'n' || c == '>' || c == '.' <==> char_command(chars) == Some(
                Command::NextFile,
            )
            &&& c == 'p' || c == '<' || c == ',' <==> char_command(chars) == Some(
                Command::PrevFile,
            )
        },
{
    reveal_strlit("q");
    lemma_one_character(chars, "q"@, 'q');
    reveal_strlit("f");
    lemma_one_character(chars, "f"@, 'f');
    reveal_strlit("a");
    lemma_one_character(chars, "a"@, 'a');
    reveal_strlit("s");
    lemma_one_character(chars, "s"@, 's');
    reveal_strlit("m");
    lemma_one_character(chars, "m"@, 'm');
    reveal_strlit("+");
    lemma_one_character(chars, "+"@, '+');
    reveal_strlit("=");
    lemma_one_character(chars, "="@, '=');
    reveal_strlit("-");
    lemma_one_character(chars, "-"@, '-');
    reveal_strlit("n");
    lemma_one_character(chars, "n"@, 'n');
    reveal_strlit(">");
    lemma_one_character(chars, ">"@, '>');
    reveal_strlit(".");
    lemma_one_character(chars, "."@, '.');
    reveal_strlit("p");
    lemma_one_character(chars, "p"@, 'p');
    reveal_strlit("<");
    lemma_one_character(chars, "<"@, '<');
    reveal_strlit(",");
    lemma_one_character(chars, ","@, ',');
}

} // verus!
