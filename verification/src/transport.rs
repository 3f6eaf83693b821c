//! Playing, seeking and what the keys do.

use crate::arrange::TIME_LIMIT;
use crate::model::{Orientation, Range, Rate};
use crate::units::clamp;
use vstd::prelude::*;

verus! {

/// A time on the timeline.
pub open spec fn on_timeline(t: int, duration: int) -> int {
    crate::units::clamped(
        t,
        0,
        if duration < 0 {
            0
        } else {
            duration
        },
    )
}

/// Where a seek goes.
pub fn seek_target(t: i64, duration: i64) -> (s: i64)
    ensures
        s == on_timeline(t as int, duration as int),
{
    clamp(
        t,
        0,
        if duration < 0 {
            0
        } else {
            duration
        },
    )
}

/// What the play key does.
#[derive(Debug, Clone, Copy, PartialEq, Eq, Structural)]
pub enum Toggle {
    Pause,
    Play,
    /// From the start: the end was reached.
    PlayFromStart,
}

/// What the play key does: pause, or play, from the start where less than a
/// hundredth of a second is left.
pub fn toggle_play(playing: bool, t: i64, duration: i64) -> (a: Toggle)
    requires
        duration >= -TIME_LIMIT,
    ensures
        a == if playing {
            Toggle::Pause
        } else if t >= duration - 10_000 {
            Toggle::PlayFromStart
        } else {
            Toggle::Play
        },
{
    if playing {
        Toggle::Pause
    } else if t >= duration - 10_000 {
        Toggle::PlayFromStart
    } else {
        Toggle::Play
    }
}

/// Playback is over: it stops at the end.
pub fn at_end(playing: bool, t: i64, duration: i64) -> (b: bool)
    ensures
        b == (playing && t >= duration && duration > 0),
{
    playing && t >= duration && duration > 0
}

/// Whether the decoders have to be looked at: the time moved, or one of them has
/// something to do.
pub fn must_advance(last: Option<i64>, t: i64, busy: bool, awaiting: bool) -> (b: bool)
    ensures
        b == (last != Some(t) || busy || awaiting),
{
    let moved: bool = match last {
        Some(l) => l != t,
        None => true,
    };
    moved || busy || awaiting
}

/// When the window is drawn again.
#[derive(Debug, Clone, Copy, PartialEq, Eq, Structural)]
pub enum Repaint {
    Now,
    /// In a few milliseconds: a decoder may still deliver.
    Soon,
    /// When something happens.
    Idle,
}

/// When the window is drawn again.
pub fn repaint(playing: bool, busy: bool, awaiting: bool) -> (r: Repaint)
    ensures
        r == if playing || busy {
            Repaint::Now
        } else if awaiting {
            Repaint::Soon
        } else {
            Repaint::Idle
        },
{
    if playing || busy {
        Repaint::Now
    } else if awaiting {
        Repaint::Soon
    } else {
        Repaint::Idle
    }
}

/// Size of the preview.
pub fn preview_size(o: Orientation) -> (s: (u32, u32))
    ensures
        s == match o {
            Orientation::Horizontal => (1280u32, 720u32),
            Orientation::Vertical => (720u32, 1280u32),
        },
{
    match o {
        Orientation::Horizontal => (1280, 720),
        Orientation::Vertical => (720, 1280),
    }
}

/// A request from the command line can be met: the master recording is loaded, or
/// there is none to load.
pub fn startup_ready(loaded: bool, wanted: bool) -> (b: bool)
    ensures
        b == (loaded || !wanted),
{
    loaded || !wanted
}

/// A picture of the window can be taken: the recording is there, no folder is being
/// scanned, no work runs, and every camera has its frame.
pub fn shot_ready(recording: bool, scans: usize, running: usize, busy: bool, awaiting_frame: bool) -> (b: bool)
    ensures
        b == (recording && scans == 0 && running == 0 && !busy && !awaiting_frame),
{
    recording && scans == 0 && running == 0 && !busy && !awaiting_frame
}

/// The keys that were pressed.
#[derive(Debug, Clone, Copy, PartialEq, Eq, Structural)]
pub struct Keys {
    pub space: bool,
    pub left: bool,
    pub right: bool,
    pub home: bool,
    pub end: bool,
    pub key_i: bool,
    pub key_o: bool,
    pub key_s: bool,
    pub shift: bool,
    pub command: bool,
    /// A text field has the keyboard.
    pub typing: bool,
}

/// What a key does.
#[derive(Debug, Clone, Copy, PartialEq, Eq, Structural)]
pub enum KeyAction {
    Toggle,
    Seek { t: i64 },
    SetIn { t: i64 },
    SetOut { t: i64 },
    Save,
}

/// One of the keys is meant for the player.
pub open spec fn for_player(k: Keys) -> bool {
    !k.typing && (k.space || k.left || k.right || k.home || k.end || k.key_i || k.key_o || (k.command
        && k.key_s))
}

/// `a` if the key was pressed.
pub open spec fn if_pressed(pressed: bool, a: KeyAction) -> Seq<KeyAction> {
    if pressed {
        seq![a]
    } else {
        seq![]
    }
}

/// By how much an arrow key moves: a frame, or a second with shift.
pub open spec fn arrow_step(k: Keys, fps: Rate) -> int {
    if k.shift {
        1_000_000
    } else {
        fps.time_of(1)
    }
}

/// What the keys do, one after the other. Typing into a text field owns the
/// keyboard.
pub open spec fn actions_of(k: Keys, t: int, duration: int, fps: Rate) -> Seq<KeyAction> {
    if !for_player(k) {
        seq![]
    } else {
        let step = arrow_step(k, fps);
        Seq::<KeyAction>::empty() + if_pressed(k.space, KeyAction::Toggle) + if_pressed(
            k.left,
            KeyAction::Seek { t: on_timeline(t - step, duration) as i64 },
        ) + if_pressed(k.right, KeyAction::Seek { t: on_timeline(t + step, duration) as i64 }) + if_pressed(
            k.home,
            KeyAction::Seek { t: on_timeline(0, duration) as i64 },
        ) + if_pressed(k.end, KeyAction::Seek { t: on_timeline(duration, duration) as i64 }) + if_pressed(
            k.key_i,
            KeyAction::SetIn { t: t as i64 },
        ) + if_pressed(k.key_o, KeyAction::SetOut { t: t as i64 }) + if_pressed(
            k.command && k.key_s,
            KeyAction::Save,
        )
    }
}

/// Appends an action if its key was pressed.
fn push_if(out: &mut Vec<KeyAction>, pressed: bool, a: KeyAction)
    ensures
        final(out)@ == old(out)@ + if_pressed(pressed, a),
{
    let ghost was = out@;
    if pressed {
        out.push(a);
    }
    assert(out@ =~= was + if_pressed(pressed, a));
}

/// What the keys do, one after the other.
pub fn handle_keys(k: Keys, t: i64, duration: i64, fps: Rate) -> (out: Vec<KeyAction>)
    requires
        fps.ok(),
        -2 * TIME_LIMIT <= t <= 2 * TIME_LIMIT,
        -2 * TIME_LIMIT <= duration <= 2 * TIME_LIMIT,
    ensures
        out@ == actions_of(k, t as int, duration as int, fps),
{
    let mut out: Vec<KeyAction> = Vec::new();
    let used: bool = k.space || k.left || k.right || k.home || k.end || k.key_i || k.key_o || (k.command
        && k.key_s);
    if k.typing || !used {
        assert(out@ =~= actions_of(k, t as int, duration as int, fps));
        return out;
    }
    let step: i64 = if k.shift {
        1_000_000
    } else {
        fps.frame_step()
    };
    push_if(&mut out, k.space, KeyAction::Toggle);
    push_if(&mut out, k.left, KeyAction::Seek { t: seek_target(t - step, duration) });
    push_if(&mut out, k.right, KeyAction::Seek { t: seek_target(t + step, duration) });
    push_if(&mut out, k.home, KeyAction::Seek { t: seek_target(0, duration) });
    push_if(&mut out, k.end, KeyAction::Seek { t: seek_target(duration, duration) });
    push_if(&mut out, k.key_i, KeyAction::SetIn { t });
    push_if(&mut out, k.key_o, KeyAction::SetOut { t });
    push_if(&mut out, k.command && k.key_s, KeyAction::Save);
    out
}

/// The range with another start.
pub fn set_in(r: Range, t: i64) -> (s: Range)
    ensures
        s == (Range { start: t, end: r.end }),
{
    Range { start: t, end: r.end }
}

/// The range with another end.
pub fn set_out(r: Range, t: i64) -> (s: Range)
    ensures
        s == (Range { start: r.start, end: t }),
{
    Range { start: r.start, end: t }
}

/// The range that is exported: an empty one becomes the whole recording.
pub fn effective_range(r: Range, duration: i64) -> (s: Range)
    ensures
        s == if r.end <= r.start {
            Range { start: r.start, end: duration }
        } else {
            r
        },
{
    if r.end <= r.start {
        Range { start: r.start, end: duration }
    } else {
        r
    }
}

/// The action does not leave the timeline.
pub open spec fn stays(a: KeyAction, duration: int) -> bool {
    a matches KeyAction::Seek { t: s } ==> 0 <= s && (duration >= 0 ==> s <= duration)
}

/// No action leaves the timeline.
pub open spec fn all_stay(list: Seq<KeyAction>, duration: int) -> bool {
    forall|i: int| 0 <= i < list.len() ==> stays(#[trigger] list[i], duration)
}

proof fn lemma_append_stays(list: Seq<KeyAction>, pressed: bool, a: KeyAction, duration: int)
    requires
        all_stay(list, duration),
        stays(a, duration),
    ensures
        all_stay(list + if_pressed(pressed, a), duration),
{
    let next = list + if_pressed(pressed, a);
    assert forall|i: int| 0 <= i < next.len() implies stays(#[trigger] next[i], duration) by {
        if i < list.len() {
            assert(next[i] == list[i]);
        }
    }
}

/// Whatever the keys do, the player stays on the timeline.
pub proof fn lemma_keys_stay_on_timeline(k: Keys, t: int, duration: int, fps: Rate)
    requires
        duration <= i64::MAX,
    ensures
        all_stay(actions_of(k, t, duration, fps), duration),
{
    if for_player(k) {
        let step = arrow_step(k, fps);
        let left = KeyAction::Seek { t: on_timeline(t - step, duration) as i64 };
        let right = KeyAction::Seek { t: on_timeline(t + step, duration) as i64 };
        let home = KeyAction::Seek { t: on_timeline(0, duration) as i64 };
        let end = KeyAction::Seek { t: on_timeline(duration, duration) as i64 };
        let l0 = Seq::<KeyAction>::empty();
        let l1 = l0 + if_pressed(k.space, KeyAction::Toggle);
        let l2 = l1 + if_pressed(k.left, left);
        let l3 = l2 + if_pressed(k.right, right);
        let l4 = l3 + if_pressed(k.home, home);
        let l5 = l4 + if_pressed(k.end, end);
        let l6 = l5 + if_pressed(k.key_i, KeyAction::SetIn { t: t as i64 });
        let l7 = l6 + if_pressed(k.key_o, KeyAction::SetOut { t: t as i64 });
        lemma_append_stays(l0, k.space, KeyAction::Toggle, duration);
        lemma_append_stays(l1, k.left, left, duration);
        lemma_append_stays(l2, k.right, right, duration);
        lemma_append_stays(l3, k.home, home, duration);
        lemma_append_stays(l4, k.end, end, duration);
        lemma_append_stays(l5, k.key_i, KeyAction::SetIn { t: t as i64 }, duration);
        lemma_append_stays(l6, k.key_o, KeyAction::SetOut { t: t as i64 }, duration);
        lemma_append_stays(l7, k.command && k.key_s, KeyAction::Save, duration);
    }
}

} // verus!
