//! What is shown over the video: messages, the progress bar, and the cursor.

use vstd::prelude::*;

use crate::text::magnitude;
use crate::time::absolute;

verus! {

/// How long messages, the bar and the cursor are shown, in milliseconds.
pub const SHOW_MS: u64 = 2000;

/// How long the bar stays where a click put it, in milliseconds.
pub const SEEK_HOLD_MS: u64 = 500;

/// What is shown, and until when.
#[derive(Clone, Copy, Debug, PartialEq, Eq, Structural)]
pub struct Osd {
    pub message_deadline_ms: u64,
    pub message_visible: bool,
    pub bar_visible: bool,
    pub bar_hide_deadline_ms: u64,
    pub current_us: i64,
    pub duration_us: i64,
    /// The seconds that the bar's labels show.
    pub last_left_secs: u64,
    pub last_right_secs: u64,
    /// After a click on the bar, it holds its position until then.
    pub seek_hold_until_ms: u64,
    pub cursor_hidden: bool,
    pub cursor_hide_deadline_ms: u64,
}

/// What is to be done to the screen.
#[derive(Clone, Copy, Debug, PartialEq, Eq, Structural)]
pub enum OsdEffect {
    HideCursor,
    UnhideCursor,
    ShowMessage,
    HideMessage,
    ShowBar,
    HideBar,
    /// Draw the bar; `relabel` says whether its labels change.
    RenderBar { current_us: i64, duration_us: i64, relabel: bool },
}

/// One effect, or none.
pub open spec fn osd_if(condition: bool, effect: OsdEffect) -> Seq<OsdEffect> {
    if condition {
        seq![effect]
    } else {
        Seq::empty()
    }
}

fn push_osd(effects: &mut Vec<OsdEffect>, condition: bool, effect: OsdEffect)
    ensures
        final(effects)@ == old(effects)@ + osd_if(condition, effect),
{
    if condition {
        effects.push(effect);
    }
    assert(effects@ =~= old(effects)@ + osd_if(condition, effect));
}

/// A time some milliseconds from now.
pub open spec fn from_now(now_ms: u64, ms: u64) -> u64 {
    if now_ms + ms <= u64::MAX {
        (now_ms + ms) as u64
    } else {
        u64::MAX
    }
}

fn later(now_ms: u64, ms: u64) -> (r: u64)
    ensures
        r == from_now(now_ms, ms),
{
    if now_ms <= u64::MAX - ms {
        now_ms + ms
    } else {
        u64::MAX
    }
}

/// The whole seconds of a time's magnitude.
pub open spec fn whole_seconds(us: i64) -> int {
    absolute(us as int) / 1_000_000
}

impl Osd {
    /// Nothing shown but the cursor.
    pub fn new(now_ms: u64) -> (r: Osd)
        ensures
            r == (Osd {
                message_deadline_ms: 0,
                message_visible: false,
                bar_visible: false,
                bar_hide_deadline_ms: 0,
                current_us: 0,
                duration_us: 0,
                last_left_secs: u64::MAX,
                last_right_secs: u64::MAX,
                seek_hold_until_ms: 0,
                cursor_hidden: false,
                cursor_hide_deadline_ms: from_now(now_ms, SHOW_MS),
            }),
    {
        Osd {
            message_deadline_ms: 0,
            message_visible: false,
            bar_visible: false,
            bar_hide_deadline_ms: 0,
            current_us: 0,
            duration_us: 0,
            last_left_secs: u64::MAX,
            last_right_secs: u64::MAX,
            seek_hold_until_ms: 0,
            cursor_hidden: false,
            cursor_hide_deadline_ms: later(now_ms, SHOW_MS),
        }
    }

    /// Whether the labels of the bar change as it is drawn.
    pub open spec fn relabels(self) -> bool {
        whole_seconds(self.current_us) != self.last_left_secs || whole_seconds(self.duration_us)
            != self.last_right_secs
    }

    /// The state once the bar was drawn.
    pub open spec fn drawn(self) -> Osd {
        Osd {
            last_left_secs: whole_seconds(self.current_us) as u64,
            last_right_secs: whole_seconds(self.duration_us) as u64,
            ..self
        }
    }

    /// How the bar is drawn.
    pub open spec fn drawing(self) -> OsdEffect {
        OsdEffect::RenderBar {
            current_us: self.current_us,
            duration_us: self.duration_us,
            relabel: self.relabels(),
        }
    }

    /// Draws the bar.
    fn render_bar(&mut self) -> (effect: OsdEffect)
        ensures
            *final(self) == old(self).drawn(),
            effect == old(self).drawing(),
    {
        let left: u64 = magnitude(self.current_us) / 1_000_000;
        let right: u64 = magnitude(self.duration_us) / 1_000_000;
        let relabel: bool = left != self.last_left_secs || right != self.last_right_secs;
        self.last_left_secs = left;
        self.last_right_secs = right;
        OsdEffect::RenderBar {
            current_us: self.current_us,
            duration_us: self.duration_us,
            relabel,
        }
    }

    /// The state with the bar shown, before it is drawn.
    pub open spec fn with_bar(self, now_ms: u64) -> Osd {
        Osd { bar_visible: true, bar_hide_deadline_ms: from_now(now_ms, SHOW_MS), ..self }
    }

    /// Shows the bar.
    fn set_bar_visible(&mut self, now_ms: u64) -> (effects: Vec<OsdEffect>)
        ensures
            *final(self) == old(self).with_bar(now_ms).drawn(),
            effects@ == osd_if(!old(self).bar_visible, OsdEffect::ShowBar) + seq![
                old(self).with_bar(now_ms).drawing(),
            ],
    {
        let mut effects: Vec<OsdEffect> = Vec::new();
        push_osd(&mut effects, !self.bar_visible, OsdEffect::ShowBar);
        self.bar_visible = true;
        self.bar_hide_deadline_ms = later(now_ms, SHOW_MS);
        let drawing = self.render_bar();
        effects.push(drawing);
        assert(effects@ =~= osd_if(!old(self).bar_visible, OsdEffect::ShowBar) + seq![drawing]);
        effects
    }

    /// The state with the cursor hidden once its time is up.
    pub open spec fn cursor_expired(self, now_ms: u64) -> Osd {
        Osd {
            cursor_hidden: self.cursor_hidden || now_ms >= self.cursor_hide_deadline_ms,
            ..self
        }
    }

    /// The state with the message and the bar hidden once their time is up.
    pub open spec fn expired(self, now_ms: u64) -> Osd {
        Osd {
            message_visible: self.message_visible && now_ms < self.message_deadline_ms,
            bar_visible: self.bar_visible && now_ms < self.bar_hide_deadline_ms,
            ..self.cursor_expired(now_ms)
        }
    }

    /// The state with the position that the bar is to show.
    pub open spec fn with_progress(self, progress: (i64, i64)) -> Osd {
        Osd { current_us: progress.0, duration_us: progress.1, ..self }
    }

    /// Whether the bar follows playback: it is shown, and is not held by a click.
    pub open spec fn follows(self, now_ms: u64) -> bool {
        self.bar_visible && now_ms >= self.seek_hold_until_ms
    }

    /// The state after the screen was looked after.
    pub open spec fn ticked(self, progress: (i64, i64), now_ms: u64) -> Osd {
        let e = self.expired(now_ms);
        if e.follows(now_ms) {
            e.with_progress(progress).drawn()
        } else {
            e
        }
    }

    /// What is done when the screen is looked after.
    pub open spec fn tick_effects(self, progress: (i64, i64), now_ms: u64) -> Seq<OsdEffect> {
        let e = self.expired(now_ms);
        osd_if(e.cursor_hidden && !self.cursor_hidden, OsdEffect::HideCursor) + osd_if(
            self.message_visible && !e.message_visible,
            OsdEffect::HideMessage,
        ) + osd_if(self.bar_visible && !e.bar_visible, OsdEffect::HideBar) + osd_if(
            e.follows(now_ms),
            e.with_progress(progress).drawing(),
        )
    }
}

/// Hides what has been shown long enough, and lets the bar follow playback. `progress` is the
/// position and the duration.
pub fn tick(osd: &mut Option<Osd>, progress: (i64, i64), now_ms: u64) -> (effects: Vec<OsdEffect>)
    ensures
        match *old(osd) {
            None => *final(osd) is None && effects@ == Seq::<OsdEffect>::empty(),
            Some(o) => *final(osd) == Some(o.ticked(progress, now_ms)) && effects@
                == o.tick_effects(progress, now_ms),
        },
{
    let mut effects: Vec<OsdEffect> = Vec::new();
    let first: Osd = match *osd {
        None => {
            return effects;
        },
        Some(o) => o,
    };
    let mut o: Osd = first;
    if !o.cursor_hidden && now_ms >= o.cursor_hide_deadline_ms {
        effects.push(OsdEffect::HideCursor);
        o.cursor_hidden = true;
    }
    if !o.message_visible && !o.bar_visible {
        *osd = Some(o);
        assert(effects@ =~= first.tick_effects(progress, now_ms));
        return effects;
    }
    if o.message_visible && now_ms >= o.message_deadline_ms {
        effects.push(OsdEffect::HideMessage);
        o.message_visible = false;
    }
    if o.bar_visible && now_ms >= o.bar_hide_deadline_ms {
        effects.push(OsdEffect::HideBar);
        o.bar_visible = false;
    }
    if o.bar_visible && now_ms >= o.seek_hold_until_ms {
        o.current_us = progress.0;
        o.duration_us = progress.1;
        let drawing = o.render_bar();
        effects.push(drawing);
    }
    assert(effects@ =~= first.tick_effects(progress, now_ms));
    *osd = Some(o);
    effects
}

/// Puts the bar where it was clicked, shows it, and holds it there for a while.
pub fn seek_bar(osd: &mut Option<Osd>, target_us: i64, duration_us: i64, now_ms: u64) -> (effects:
    Vec<OsdEffect>)
    ensures
        match *old(osd) {
            None => *final(osd) is None && effects@ == Seq::<OsdEffect>::empty(),
            Some(o) => {
                let held = Osd {
                    seek_hold_until_ms: from_now(now_ms, SEEK_HOLD_MS),
                    ..o.with_progress((target_us, duration_us))
                };
                &&& *final(osd) == Some(held.with_bar(now_ms).drawn())
                &&& effects@ == osd_if(!o.bar_visible, OsdEffect::ShowBar) + seq![
                    held.with_bar(now_ms).drawing(),
                ]
            },
        },
{
    let mut o: Osd = match *osd {
        None => {
            return Vec::new();
        },
        Some(o) => o,
    };
    o.current_us = target_us;
    o.duration_us = duration_us;
    o.seek_hold_until_ms = later(now_ms, SEEK_HOLD_MS);
    let effects = o.set_bar_visible(now_ms);
    *osd = Some(o);
    effects
}

/// Shows the cursor, and starts its time anew.
pub fn show_cursor(osd: &mut Option<Osd>, now_ms: u64) -> (effects: Vec<OsdEffect>)
    ensures
        match *old(osd) {
            None => *final(osd) is None && effects@ == Seq::<OsdEffect>::empty(),
            Some(o) => {
                &&& *final(osd) == Some(
                    Osd {
                        cursor_hidden: false,
                        cursor_hide_deadline_ms: from_now(now_ms, SHOW_MS),
                        ..o
                    },
                )
                &&& effects@ == osd_if(o.cursor_hidden, OsdEffect::UnhideCursor)
            },
        },
{
    let mut effects: Vec<OsdEffect> = Vec::new();
    let mut o: Osd = match *osd {
        None => {
            return effects;
        },
        Some(o) => o,
    };
    push_osd(&mut effects, o.cursor_hidden, OsdEffect::UnhideCursor);
    assert(effects@ =~= osd_if(o.cursor_hidden, OsdEffect::UnhideCursor));
    o.cursor_hidden = false;
    o.cursor_hide_deadline_ms = later(now_ms, SHOW_MS);
    *osd = Some(o);
    effects
}

/// Shows the bar, and starts its time anew.
pub fn show_bar(osd: &mut Option<Osd>, now_ms: u64) -> (effects: Vec<OsdEffect>)
    ensures
        match *old(osd) {
            None => *final(osd) is None && effects@ == Seq::<OsdEffect>::empty(),
            Some(o) => {
                &&& *final(osd) == Some(o.with_bar(now_ms).drawn())
                &&& effects@ == osd_if(!o.bar_visible, OsdEffect::ShowBar) + seq![
                    o.with_bar(now_ms).drawing(),
                ]
            },
        },
{
    let mut o: Osd = match *osd {
        None => {
            return Vec::new();
        },
        Some(o) => o,
    };
    let effects = o.set_bar_visible(now_ms);
    *osd = Some(o);
    effects
}

/// Shows a message for a while.
pub fn show_message(osd: &mut Option<Osd>, now_ms: u64) -> (effects: Vec<OsdEffect>)
    ensures
        match *old(osd) {
            None => *final(osd) is None && effects@ == Seq::<OsdEffect>::empty(),
            Some(o) => {
                &&& *final(osd) == Some(
                    Osd {
                        message_visible: true,
                        message_deadline_ms: from_now(now_ms, SHOW_MS),
                        ..o
                    },
                )
                &&& effects@ == seq![OsdEffect::ShowMessage]
            },
        },
{
    let mut effects: Vec<OsdEffect> = Vec::new();
    let mut o: Osd = match *osd {
        None => {
            return effects;
        },
        Some(o) => o,
    };
    effects.push(OsdEffect::ShowMessage);
    assert(effects@ =~= seq![OsdEffect::ShowMessage]);
    o.message_visible = true;
    o.message_deadline_ms = later(now_ms, SHOW_MS);
    *osd = Some(o);
    effects
}

/// A click holds the bar: while it does, looking after the screen does not move it.
pub proof fn lemma_click_holds_bar(o: Osd, progress: (i64, i64), now_ms: u64)
    requires
        now_ms < o.seek_hold_until_ms,
    ensures
        o.ticked(progress, now_ms).current_us == o.current_us,
        o.ticked(progress, now_ms).duration_us == o.duration_us,
{
}

/// What has been shown long enough is hidden, and stays hidden.
pub proof fn lemma_expired_stays_hidden(
    o: Osd,
    progress: (i64, i64),
    now_ms: u64,
    next: (i64, i64),
    later_ms: u64,
)
    requires
        now_ms >= o.message_deadline_ms,
        now_ms >= o.bar_hide_deadline_ms,
        now_ms >= o.cursor_hide_deadline_ms,
        later_ms >= now_ms,
    ensures
        ({
            let first = o.ticked(progress, now_ms);
            let second = first.ticked(next, later_ms);
            &&& !first.message_visible && !first.bar_visible && first.cursor_hidden
            &&& second == first
            &&& first.tick_effects(next, later_ms) == Seq::<OsdEffect>::empty()
        }),
{
    let first = o.ticked(progress, now_ms);
    assert(first.tick_effects(next, later_ms) =~= Seq::<OsdEffect>::empty());
}

/// A message is seen for two seconds from when it was shown, and no longer.
pub proof fn lemma_message_lasts(o: Osd, now_ms: u64, progress: (i64, i64), at_ms: u64)
    requires
        now_ms + 2000 <= u64::MAX,
        o.message_visible,
        o.message_deadline_ms == from_now(now_ms, SHOW_MS),
    ensures
        at_ms < now_ms + 2000 ==> o.ticked(progress, at_ms).message_visible && !o.tick_effects(
            progress,
            at_ms,
        ).contains(OsdEffect::HideMessage),
        at_ms >= now_ms + 2000 ==> !o.ticked(progress, at_ms).message_visible && o.tick_effects(
            progress,
            at_ms,
        ).contains(OsdEffect::HideMessage),
{
    lemma_tick_effects(o, progress, at_ms);
}

/// The bar is seen for two seconds from when it was shown, follows playback while it is, and stays
/// where a click put it for half a second.
pub proof fn lemma_bar_lasts(o: Osd, now_ms: u64, progress: (i64, i64), at_ms: u64)
    requires
        now_ms + 2000 <= u64::MAX,
    ensures
        o.with_bar(now_ms).bar_visible,
        ({
            let w = o.with_bar(now_ms);
            let t = w.ticked(progress, at_ms);
            &&& at_ms >= now_ms + 2000 ==> !t.bar_visible && w.tick_effects(
                progress,
                at_ms,
            ).contains(OsdEffect::HideBar)
            &&& at_ms < now_ms + 2000 ==> t.bar_visible
            &&& at_ms < now_ms + 2000 && at_ms >= o.seek_hold_until_ms ==> t.current_us
                == progress.0 && t.duration_us == progress.1
            &&& at_ms < o.seek_hold_until_ms ==> t.current_us == o.current_us && t.duration_us
                == o.duration_us
        }),
        from_now(now_ms, SEEK_HOLD_MS) == now_ms + 500,
        from_now(now_ms, SHOW_MS) == now_ms + 2000,
{
    lemma_tick_effects(o.with_bar(now_ms), progress, at_ms);
}

/// The cursor is hidden once its time is up, and not before.
pub proof fn lemma_cursor_lasts(o: Osd, progress: (i64, i64), at_ms: u64)
    requires
        !o.cursor_hidden,
    ensures
        at_ms < o.cursor_hide_deadline_ms ==> !o.ticked(progress, at_ms).cursor_hidden
            && !o.tick_effects(progress, at_ms).contains(OsdEffect::HideCursor),
        at_ms >= o.cursor_hide_deadline_ms ==> o.ticked(progress, at_ms).cursor_hidden
            && o.tick_effects(progress, at_ms).contains(OsdEffect::HideCursor),
{
    lemma_tick_effects(o, progress, at_ms);
}

/// What is done when the screen is looked after: what has been shown long enough is hidden, and a
/// bar that is seen and not held is drawn with the position and the duration; its labels change
/// where their seconds do.
pub proof fn lemma_tick_effects(o: Osd, progress: (i64, i64), now_ms: u64)
    ensures
        forall|e: OsdEffect|
            o.tick_effects(progress, now_ms).contains(e) <==> {
                ||| e == OsdEffect::HideCursor && !o.cursor_hidden && now_ms
                    >= o.cursor_hide_deadline_ms
                ||| e == OsdEffect::HideMessage && o.message_visible && now_ms
                    >= o.message_deadline_ms
                ||| e == OsdEffect::HideBar && o.bar_visible && now_ms >= o.bar_hide_deadline_ms
                ||| o.bar_visible && now_ms < o.bar_hide_deadline_ms && now_ms
                    >= o.seek_hold_until_ms && e == (OsdEffect::RenderBar {
                    current_us: progress.0,
                    duration_us: progress.1,
                    relabel: absolute(progress.0 as int) / 1_000_000 != o.last_left_secs
                        || absolute(progress.1 as int) / 1_000_000 != o.last_right_secs,
                })
            },
{
    let s = o.tick_effects(progress, now_ms);
    let e = o.expired(now_ms);
    let a: int = if e.cursor_hidden && !o.cursor_hidden {
        1
    } else {
        0
    };
    let b: int = if o.message_visible && !e.message_visible {
        a + 1
    } else {
        a
    };
    let c: int = if o.bar_visible && !e.bar_visible {
        b + 1
    } else {
        b
    };
    assert(a == 1 ==> s[0] == OsdEffect::HideCursor);
    assert(b > a ==> s[a] == OsdEffect::HideMessage);
    assert(c > b ==> s[b] == OsdEffect::HideBar);
    assert(e.follows(now_ms) ==> s[c] == e.with_progress(progress).drawing());
    assert(s.len() == if e.follows(now_ms) {
        c + 1
    } else {
        c
    });
}

/// Drawing the bar notes the seconds that its labels show, so that it is labelled anew only when
/// they change.
pub proof fn lemma_labels_follow_seconds(o: Osd)
    ensures
        !o.drawn().relabels(),
        o.drawn() == (Osd {
            last_left_secs: (absolute(o.current_us as int) / 1_000_000) as u64,
            last_right_secs: (absolute(o.duration_us as int) / 1_000_000) as u64,
            ..o
        }),
        o.drawing() matches OsdEffect::RenderBar { current_us, duration_us, relabel } && current_us
            == o.current_us && duration_us == o.duration_us && relabel == o.relabels(),
{
}

} // verus!
