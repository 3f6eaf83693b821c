//! Keeps one decoder per camera aligned with the master timeline, and runs the
//! master clock.
//!
//! Decoders and clocks live outside: this module is told what they did and what
//! time it is, and says what is to be done.

use crate::decoder::{DecodeRequest, Frame};
use crate::ffmpeg::{fit_size, HwAccel};
use crate::model::{Clip, Project, Rate, CAMERA_COUNT};
use vstd::prelude::*;

verus! {

/// Size of decoded pictures.
#[derive(Debug, Clone, Copy, PartialEq, Eq, Structural)]
pub enum Quality {
    /// Longest edge capped, for the live preview.
    Preview { max_edge: u32 },
    /// Native size capped at `max_edge`, for export.
    Full { max_edge: u32 },
}

/// How long to wait for a frame.
#[derive(Debug, Clone, Copy, PartialEq, Eq, Structural)]
pub enum Mode {
    /// Never block; keep showing the last frame while the decoder catches up.
    Live,
    /// Block until the frame for the requested time is available.
    Exact,
}

/// Least time between two live decoder starts of a camera, in microseconds.
pub const RESTART_DEBOUNCE: i64 = 120_000;

/// How far ahead of the decoder position is tolerated before re-seeking.
pub const MAX_AHEAD: i64 = 1_500_000;

/// How long the exact mode waits for a frame.
pub const EXACT_TIMEOUT: i64 = 20_000_000;

/// No frame is further into its clip.
pub const FRAME_TIME_LIMIT: i64 = 5_000_000_000_000_000_000;

/// One camera's decoder and what it delivered.
#[derive(Debug)]
pub struct CamState {
    /// A decoder runs.
    pub streaming: bool,
    /// The clip that it decodes.
    pub clip_index: Option<usize>,
    /// The frame on screen; it may belong to an earlier decoder.
    pub current: Option<Frame>,
    /// A frame that is not due yet.
    pub peek: Option<Frame>,
    /// Goes up whenever `current` changes so that the upload happens once; starts
    /// over when it is used up.
    pub generation: u64,
    pub expected_next: i64,
    /// Time of the last frame taken from the running decoder. `None` until it
    /// delivered, so a stale frame from an earlier position never drives the
    /// restart decision.
    pub stream_shown: Option<i64>,
    /// When the decoder was last started.
    pub last_restart: i64,
    pub pending_restart: bool,
    /// A live decoder has not yet delivered the frame for the last requested time.
    pub waiting: bool,
}

/// A time that a frame can have.
pub open spec fn frame_time_ok(t: int) -> bool {
    -FRAME_TIME_LIMIT <= t <= FRAME_TIME_LIMIT
}

/// `later` is more than half a frame behind `earlier`. Half a frame is
/// `den / (2 * num)` seconds.
pub open spec fn half_frame_apart(fps: Rate, earlier: int, later: int) -> bool {
    2 * ((later - earlier) * fps.num) > fps.den * 1_000_000
}

/// The generation that follows.
pub open spec fn next_generation(g: u64) -> u64 {
    if g == u64::MAX {
        0
    } else {
        (g + 1) as u64
    }
}

/// What is to be done for a camera.
#[derive(Debug)]
pub enum Step {
    /// No clip at this time: the decoder ends, nothing is shown.
    Empty,
    /// A restart is due, but the last one was a moment ago.
    Wait,
    /// The decoder ends and a new one starts.
    Start { clip: usize, local: i64, request: DecodeRequest },
    /// Frames are taken from the running decoder.
    Pull { local: i64 },
}

impl CamState {
    /// The parts fit together.
    pub open spec fn wf(self) -> bool {
        &&& self.streaming <==> self.clip_index is Some
        &&& self.peek is Some ==> self.streaming
        &&& self.stream_shown matches Some(t) ==> self.streaming && frame_time_ok(t as int)
            && self.current is Some && self.current->0.time == t
        &&& self.peek matches Some(f) ==> frame_time_ok(f.time as int)
        &&& -FRAME_TIME_LIMIT <= self.expected_next <= FRAME_TIME_LIMIT + 1_000_000_000_000
    }

    /// Position of the running decoder: its last delivered frame, or its start
    /// while the first frame is still on the way. The frame on screen may belong
    /// to an older decoder and does not count, otherwise a decoder slower than
    /// the debounce would be restarted forever.
    pub open spec fn shown(self) -> int {
        match self.stream_shown {
            Some(t) => t as int,
            None => self.expected_next as int,
        }
    }

    /// The running decoder cannot deliver the frame for `local` of clip `clip`.
    pub open spec fn needs_restart(self, clip: usize, local: int, fps: Rate) -> bool {
        ||| !self.streaming
        ||| self.clip_index != Some(clip)
        ||| half_frame_apart(fps, local + 1, self.shown())
        ||| local > self.shown() + MAX_AHEAD
    }

    /// The state without its decoder.
    pub open spec fn without_stream(self) -> CamState {
        CamState { streaming: false, peek: None, clip_index: None, stream_shown: None, ..self }
    }

    /// The state with nothing on screen.
    pub open spec fn blank(self) -> CamState {
        CamState { current: None, generation: next_generation(self.generation), ..self }
    }

    /// The state where there is no clip: no decoder, and nothing on screen.
    pub open spec fn cleared(self) -> CamState {
        let s = self.without_stream();
        let b = if s.current is Some {
            s.blank()
        } else {
            s
        };
        CamState { pending_restart: false, waiting: false, ..b }
    }

    /// A camera that never showed anything, and may start its decoder at once.
    pub open spec fn fresh(now: int) -> CamState {
        CamState {
            streaming: false,
            clip_index: None,
            current: None,
            peek: None,
            generation: 0,
            expected_next: 0,
            stream_shown: None,
            last_restart: (now - 10_000_000) as i64,
            pending_restart: false,
            waiting: false,
        }
    }

    /// The waiting frame is due: it starts at the requested time or at most half
    /// a frame later.
    pub open spec fn due(self, local: int, fps: Rate) -> bool {
        self.peek matches Some(f) && !half_frame_apart(fps, local, f.time as int)
    }

    /// The decoder has delivered the frame for the requested time.
    pub open spec fn satisfied(self, local: int, fps: Rate) -> bool {
        self.stream_shown matches Some(t) && !half_frame_apart(fps, t as int, local)
    }

    /// The state with a frame of the running decoder on screen.
    pub open spec fn with_frame(self, f: Frame, fps: Rate) -> CamState {
        CamState {
            peek: None,
            expected_next: (f.time + fps.time_of(1)) as i64,
            stream_shown: Some(f.time),
            current: Some(f),
            generation: next_generation(self.generation),
            ..self
        }
    }

    /// The state with a frame of the running decoder waiting.
    pub open spec fn holding(self, f: Frame) -> CamState {
        CamState { peek: Some(f), ..self }
    }

    /// A camera that never showed anything.
    pub fn new(now: i64) -> (s: CamState)
        requires
            now >= 0,
        ensures
            s.wf(),
            s == CamState::fresh(now as int),
    {
        CamState {
            streaming: false,
            clip_index: None,
            current: None,
            peek: None,
            generation: 0,
            expected_next: 0,
            stream_shown: None,
            last_restart: now - 10_000_000,
            pending_restart: false,
            waiting: false,
        }
    }

    /// Ends the decoder.
    pub fn drop_stream(&mut self)
        ensures
            *final(self) == old(self).without_stream(),
    {
        self.streaming = false;
        self.peek = None;
        self.clip_index = None;
        self.stream_shown = None;
    }

    /// Puts a frame, or nothing, on screen.
    pub fn set_current(&mut self, f: Option<Frame>)
        ensures
            *final(self) == (CamState {
                current: f,
                generation: next_generation(old(self).generation),
                ..*old(self)
            }),
    {
        self.current = f;
        if self.generation == u64::MAX {
            self.generation = 0;
        } else {
            self.generation = self.generation + 1;
        }
    }

    /// No clip at this time: the decoder ends, nothing is shown.
    pub fn clear(&mut self)
        ensures
            *final(self) == old(self).cleared(),
            old(self).wf() ==> final(self).wf(),
    {
        self.drop_stream();
        if self.current.is_some() {
            self.set_current(None);
        }
        self.pending_restart = false;
        self.waiting = false;
    }

    /// Whether the running decoder cannot deliver the frame for `local`.
    pub fn restart_needed(&self, clip: usize, local: i64, fps: Rate) -> (b: bool)
        requires
            self.wf(),
            fps.ok(),
            crate::arrange::in_limit(local as int),
        ensures
            b == self.needs_restart(clip, local as int, fps),
    {
        let shown: i64 = match self.stream_shown {
            Some(t) => t,
            None => self.expected_next,
        };
        let same: bool = match self.clip_index {
            Some(i) => i == clip,
            None => false,
        };
        if !self.streaming || !same {
            return true;
        }
        apart(fps, local + 1, shown) || local > shown + MAX_AHEAD
    }

    /// Asks for a restart at `now`: `true` where it may go ahead, and then the old
    /// decoder is done with.
    pub fn begin_restart(&mut self, mode: Mode, now: i64) -> (allowed: bool)
        requires
            0 <= now <= crate::arrange::TIME_LIMIT,
            crate::arrange::in_limit(old(self).last_restart as int),
        ensures
            allowed == (mode == Mode::Exact || now - old(self).last_restart >= RESTART_DEBOUNCE),
            !allowed ==> *final(self) == (CamState { pending_restart: true, ..*old(self) }),
            allowed ==> *final(self) == (CamState {
                pending_restart: false,
                ..old(self).without_stream()
            }),
    {
        if mode == Mode::Exact || now - self.last_restart >= RESTART_DEBOUNCE {
            self.pending_restart = false;
            self.drop_stream();
            true
        } else {
            self.pending_restart = true;
            false
        }
    }

    /// A decoder was started.
    pub fn started(&mut self, clip: usize, start: i64, now: i64)
        requires
            frame_time_ok(start as int),
            old(self).wf(),
            !old(self).streaming,
        ensures
            *final(self) == (CamState {
                streaming: true,
                clip_index: Some(clip),
                expected_next: start,
                last_restart: now,
                ..*old(self)
            }),
            final(self).wf(),
    {
        self.streaming = true;
        self.clip_index = Some(clip);
        self.expected_next = start;
        self.last_restart = now;
    }

    /// A decoder could not be started: nothing is shown.
    pub fn failed(&mut self)
        requires
            old(self).wf(),
            !old(self).streaming,
        ensures
            *final(self) == old(self).blank(),
            final(self).wf(),
    {
        self.set_current(None);
    }

    /// Whether the next frame has to be fetched from the decoder.
    pub fn wants_frame(&self) -> (b: bool)
        ensures
            b == (self.streaming && self.peek is None),
    {
        self.streaming && self.peek.is_none()
    }

    /// A frame came from the decoder.
    pub fn hold(&mut self, f: Frame)
        requires
            old(self).wf(),
            old(self).streaming,
            frame_time_ok(f.time as int),
        ensures
            *final(self) == old(self).holding(f),
            final(self).wf(),
    {
        self.peek = Some(f);
    }

    /// Puts the waiting frame on screen if it is due.
    pub fn show_due(&mut self, local: i64, fps: Rate) -> (shown: bool)
        requires
            old(self).wf(),
            fps.ok(),
            crate::arrange::in_limit(local as int),
        ensures
            shown == old(self).due(local as int, fps),
            !shown ==> *final(self) == *old(self),
            shown ==> *final(self) == old(self).with_frame(old(self).peek->0, fps),
            final(self).wf(),
    {
        let due: bool = match &self.peek {
            Some(f) => !apart(fps, local, f.time),
            None => false,
        };
        if !due {
            return false;
        }
        let mut taken: Option<Frame> = None;
        std::mem::swap(&mut self.peek, &mut taken);
        let time: i64 = match &taken {
            Some(f) => f.time,
            None => 0,
        };
        let step: i64 = fps.frame_step();
        self.expected_next = time + step;
        self.stream_shown = Some(time);
        self.set_current(taken);
        true
    }

    /// Settles whether the camera still waits for its frame.
    pub fn settle(&mut self, local: i64, fps: Rate, finished: bool)
        requires
            old(self).wf(),
            fps.ok(),
            crate::arrange::in_limit(local as int),
        ensures
            *final(self) == (CamState {
                waiting: old(self).streaming && !finished && !old(self).satisfied(local as int, fps),
                ..*old(self)
            }),
            final(self).wf(),
    {
        let satisfied: bool = match self.stream_shown {
            Some(t) => !apart(fps, t, local),
            None => false,
        };
        self.waiting = self.streaming && !finished && !satisfied;
    }
}

/// Whether `later` is more than half a frame behind `earlier`.
fn apart(fps: Rate, earlier: i64, later: i64) -> (b: bool)
    requires
        fps.ok(),
    ensures
        b == half_frame_apart(fps, earlier as int, later as int),
{
    proof {
        let d = later - earlier;
        assert(-0x1_0000_0000_0000_0000 * 1_000_000_000_000 <= d * fps.num <= 0x1_0000_0000_0000_0000
            * 1_000_000_000_000) by (nonlinear_arith)
            requires
                -0x1_0000_0000_0000_0000 <= d <= 0x1_0000_0000_0000_0000,
                0 < fps.num <= 1_000_000_000_000,
        ;
    }
    2 * ((later as i128 - earlier as i128) * (fps.num as i128)) > (fps.den as i128) * 1_000_000
}

/// No more frames are to be waited for: none came, and the decoder is done, or
/// nobody wants to wait, or the time is up.
pub fn give_up(finished: bool, mode: Mode, past_deadline: bool) -> (b: bool)
    ensures
        b == (finished || mode == Mode::Live || past_deadline),
{
    finished || mode == Mode::Live || past_deadline
}

/// A decoder that was just started for a time is not restarted for that time,
/// however long its first frame takes, unless frames are more than a second and a
/// half apart.
pub proof fn lemma_fresh_decoder_is_kept(s: CamState, clip: usize, local: int, fps: Rate)
    requires
        fps.ok(),
        2 * fps.den <= 3 * fps.num,
        local >= 0,
        s.streaming,
        s.clip_index == Some(clip),
        s.stream_shown is None,
        s.expected_next == fps.time_of(fps.frame_at(local)),
    ensures
        !s.needs_restart(clip, local, fps),
{
    let start = s.expected_next as int;
    crate::model::lemma_frame_grid(fps, local);
    let n = fps.num as int;
    assert(local - start <= 1_500_000) by (nonlinear_arith)
        requires
            (local - start - 1) * n < fps.den * 1_000_000,
            0 < 2 * fps.den <= 3 * n,
    ;
    assert((start - (local + 1)) * n <= 0) by (nonlinear_arith)
        requires
            start <= local,
            n > 0,
    ;
}

/// A frame that was put on screen does not make the decoder restart for the time
/// it was put there for.
pub proof fn lemma_shown_frame_is_not_ahead(s: CamState, local: int, fps: Rate)
    requires
        fps.ok(),
        s.due(local, fps),
    ensures
        !half_frame_apart(fps, local + 1, s.peek->0.time as int),
{
    let t = s.peek->0.time as int;
    assert((t - (local + 1)) * fps.num <= (t - local) * fps.num) by (nonlinear_arith)
        requires
            fps.num > 0,
    ;
}

/// A camera that has the frame for a time does not restart for it, unless frames are
/// more than three seconds apart.
pub proof fn lemma_satisfied_is_stable(s: CamState, clip: usize, local: int, fps: Rate)
    requires
        fps.ok(),
        fps.den <= 3 * fps.num,
        s.streaming,
        s.clip_index == Some(clip),
        s.satisfied(local, fps),
        !half_frame_apart(fps, local + 1, s.stream_shown->0 as int),
    ensures
        !s.needs_restart(clip, local, fps),
{
    let t = s.stream_shown->0 as int;
    let n = fps.num as int;
    assert(local - t <= 1_500_000) by (nonlinear_arith)
        requires
            2 * ((local - t) * n) <= fps.den * 1_000_000,
            0 < fps.den <= 3 * n,
    ;
}

/// Two times are no more than half a frame and a microsecond apart.
pub open spec fn half_frame_near(fps: Rate, a: int, b: int) -> bool {
    &&& 2 * ((a - b - 1) * fps.num) <= fps.den * 1_000_000
    &&& 2 * ((b - a - 1) * fps.num) <= fps.den * 1_000_000
}

/// A jump takes one start of a decoder, however far it goes. The decoder starts at
/// the frame before the wanted time; that frame is shown, the one behind it if it is
/// due, and no third one. What is then on screen is the frame for the wanted time, to
/// within half a frame and a microsecond, and at no point does the decoder restart,
/// unless frames are more than a second and a half apart.
pub proof fn lemma_jump_takes_one_start(
    s: CamState,
    clip: usize,
    local: int,
    fps: Rate,
    first: Frame,
    second: Frame,
    third: Frame,
)
    requires
        fps.ok(),
        2 * fps.den <= 3 * fps.num,
        local >= 0,
        s.streaming,
        s.clip_index == Some(clip),
        s.stream_shown is None,
        s.expected_next == fps.time_of(fps.frame_at(local)),
        first.time == s.expected_next + fps.time_of(0),
        second.time == s.expected_next + fps.time_of(1),
        third.time == s.expected_next + fps.time_of(2),
    ensures
        ({
            let one = s.with_frame(first, fps);
            let two = one.with_frame(second, fps);
            let more = one.holding(second).due(local, fps);
            let end = if more {
                two
            } else {
                one
            };
            &&& !s.needs_restart(clip, local, fps)
            &&& s.holding(first).due(local, fps)
            &&& !one.needs_restart(clip, local, fps)
            &&& !end.needs_restart(clip, local, fps)
            &&& more ==> two.satisfied(local, fps)
            &&& more ==> !two.holding(third).due(local, fps)
            &&& half_frame_near(fps, end.current->0.time as int, local)
        }),
{
    lemma_fresh_decoder_is_kept(s, clip, local, fps);
    crate::model::lemma_frame_grid(fps, local);
    let n = fps.num as int;
    let d = fps.den * 1_000_000;
    let k = fps.frame_at(local);
    let start = s.expected_next as int;
    let x = local - start;
    let r1 = fps.time_of(1);
    let r2 = fps.time_of(2);
    assert(0 * d == 0);
    crate::units::lemma_rounded_whole(0, n);
    assert(0 * n == 0);
    assert(fps.time_of(0) == 0);
    crate::units::lemma_rounded_near(k * d, n);
    crate::units::lemma_rounded_near(1 * d, n);
    crate::units::lemma_rounded_near(2 * d, n);
    vstd::arithmetic::div_mod::lemma_fundamental_div_mod(local * n, d);
    vstd::arithmetic::div_mod::lemma_mod_bound(local * n, d);
    let rest = (local * n) % d;
    assert(2 * (x * n) < 2 * d + n) by (nonlinear_arith)
        requires
            x == local - start,
            local * n == d * k + rest,
            rest < d,
            2 * (k * d - start * n) <= n,
    ;
    assert(10 * n <= d);
    assert((first.time - local) * n <= 0) by (nonlinear_arith)
        requires
            first.time <= local,
            n > 0,
    ;
    assert((first.time - (local + 1)) * n <= 0) by (nonlinear_arith)
        requires
            first.time <= local,
            n > 0,
    ;
    assert(x <= 1_500_000) by (nonlinear_arith)
        requires
            2 * (x * n) < 2 * d + n,
            2 * d <= 3_000_000 * n,
            n > 0,
    ;
    assert(r1 >= x) by (nonlinear_arith)
        requires
            2 * (x * n) < 2 * d + n,
            2 * (d - r1 * n) <= n,
            n > 0,
    ;
    let y = r1 - x;
    assert(second.time - local == y);
    assert(2 * (y * n) == 2 * (r1 * n) - 2 * (x * n)) by (nonlinear_arith)
        requires
            y == r1 - x,
    ;
    assert((y - 1) * n == y * n - n) by (nonlinear_arith);
    assert((x - 1) * n == x * n - n) by (nonlinear_arith);
    assert((-y - 1) * n <= 0) by (nonlinear_arith)
        requires
            y >= 0,
            n > 0,
    ;
    assert((-y) * n <= 0) by (nonlinear_arith)
        requires
            y >= 0,
            n > 0,
    ;
    assert((-x - 1) * n <= 0) by (nonlinear_arith)
        requires
            x >= 0,
            n > 0,
    ;
    let z = r2 - x;
    assert(third.time - local == z);
    assert(2 * (z * n) == 2 * (r2 * n) - 2 * (x * n)) by (nonlinear_arith)
        requires
            z == r2 - x,
    ;
}

// ---------------------------------------------------------------- all cameras

/// The decoders of all cameras.
#[derive(Debug)]
pub struct StreamSet {
    pub quality: Quality,
    pub hwaccel: HwAccel,
    pub fps: Rate,
    /// Decoder starts so far, for diagnostics; starts over when it is used up.
    pub restarts: u64,
    pub cams: Vec<CamState>,
}

/// The cap on a picture's edges.
pub open spec fn edge_cap(q: Quality) -> u32 {
    match q {
        Quality::Preview { max_edge } => max_edge,
        Quality::Full { max_edge } => max_edge,
    }
}

/// What a decoder is asked for to show `local` of a clip: from the frame grid, so
/// that preview and export agree.
pub open spec fn is_request(set: StreamSet, clip: Clip, local: int, req: DecodeRequest) -> bool {
    let edge = edge_cap(set.quality) as int;
    let size = crate::ffmpeg::fitted(clip.width as int, clip.height as int, edge, edge);
    &&& req.path@ == clip.path@
    &&& req.start == set.fps.time_of(set.fps.frame_at(local))
    &&& req.fps == set.fps
    &&& req.width == size.0
    &&& req.height == size.1
    &&& req.hdr == clip.hdr
    &&& req.hwaccel == set.hwaccel
}

/// Preview and export ask for the same picture: with the same frame rate and the same
/// kind of decoding their requests differ in nothing but the size.
pub proof fn lemma_preview_and_export_agree(
    preview: StreamSet,
    export: StreamSet,
    clip: Clip,
    local: int,
    p: DecodeRequest,
    q: DecodeRequest,
)
    requires
        preview.fps == export.fps,
        preview.hwaccel == export.hwaccel,
        is_request(preview, clip, local, p),
        is_request(export, clip, local, q),
    ensures
        p.path@ == q.path@,
        p.start == q.start,
        p.fps == q.fps,
        p.hdr == q.hdr,
        p.hwaccel == q.hwaccel,
        edge_cap(preview.quality) == edge_cap(export.quality) ==> p.width == q.width && p.height == q.height,
{
}

impl StreamSet {
    /// The parts fit together.
    pub open spec fn wf(self) -> bool {
        &&& self.fps.ok()
        &&& self.cams@.len() == CAMERA_COUNT
        &&& forall|c: int| 0 <= c < CAMERA_COUNT ==> (#[trigger] self.cams@[c]).wf()
        &&& forall|c: int|
            0 <= c < CAMERA_COUNT ==> crate::arrange::in_limit((#[trigger] self.cams@[c]).last_restart as int)
    }

    /// Only camera `cam` differs.
    pub open spec fn only_cam(self, was: StreamSet, cam: int) -> bool {
        &&& self.quality == was.quality
        &&& self.hwaccel == was.hwaccel
        &&& self.fps == was.fps
        &&& self.cams@.len() == was.cams@.len()
        &&& forall|c: int| 0 <= c < was.cams@.len() && c != cam ==> #[trigger] self.cams@[c] == was.cams@[c]
    }

    /// No decoder runs and nothing is shown.
    pub fn new(quality: Quality, hwaccel: HwAccel, fps: Rate, now: i64) -> (s: StreamSet)
        requires
            fps.ok(),
            0 <= now <= crate::arrange::TIME_LIMIT,
        ensures
            s.wf(),
            s.quality == quality,
            s.hwaccel == hwaccel,
            s.fps == fps,
            s.restarts == 0,
            forall|c: int| 0 <= c < CAMERA_COUNT ==> #[trigger] s.cams@[c] == CamState::fresh(now as int),
    {
        let mut cams: Vec<CamState> = Vec::new();
        let mut i: usize = 0;
        while i < CAMERA_COUNT
            invariant
                0 <= now <= crate::arrange::TIME_LIMIT,
                i <= CAMERA_COUNT,
                cams@.len() == i,
                forall|c: int| 0 <= c < i ==> #[trigger] cams@[c] == CamState::fresh(now as int),
            decreases CAMERA_COUNT - i,
        {
            cams.push(CamState::new(now));
            i = i + 1;
        }
        StreamSet { quality, hwaccel, fps, restarts: 0, cams }
    }

    /// Ends all decoders and shows nothing.
    pub fn reset(&mut self)
        requires
            old(self).wf(),
        ensures
            final(self).wf(),
            final(self).quality == old(self).quality,
            final(self).hwaccel == old(self).hwaccel,
            final(self).fps == old(self).fps,
            final(self).restarts == old(self).restarts,
            forall|c: int|
                0 <= c < CAMERA_COUNT ==> #[trigger] final(self).cams@[c]
                    == old(self).cams@[c].without_stream().blank(),
    {
        let ghost was = *self;
        let mut i: usize = 0;
        while i < self.cams.len()
            invariant
                was.wf(),
                self.quality == was.quality,
                self.hwaccel == was.hwaccel,
                self.fps == was.fps,
                self.restarts == was.restarts,
                self.cams@.len() == CAMERA_COUNT,
                i <= CAMERA_COUNT,
                forall|c: int|
                    0 <= c < i ==> #[trigger] self.cams@[c] == was.cams@[c].without_stream().blank(),
                forall|c: int| i <= c < CAMERA_COUNT ==> #[trigger] self.cams@[c] == was.cams@[c],
            decreases CAMERA_COUNT - i,
        {
            self.cams[i].drop_stream();
            self.cams[i].set_current(None);
            i = i + 1;
        }
        proof {
            assert forall|c: int| 0 <= c < CAMERA_COUNT implies (#[trigger] self.cams@[c]).wf() by {
                assert(was.cams@[c].wf());
            }
            assert forall|c: int| 0 <= c < CAMERA_COUNT implies crate::arrange::in_limit(
                (#[trigger] self.cams@[c]).last_restart as int,
            ) by {
                assert(crate::arrange::in_limit(was.cams@[c].last_restart as int));
            }
        }
    }

    /// The generation of a camera's picture.
    pub fn generation(&self, cam: usize) -> (g: u64)
        requires
            cam < self.cams@.len(),
        ensures
            g == self.cams@[cam as int].generation,
    {
        self.cams[cam].generation
    }

    /// A camera's picture.
    pub fn current(&self, cam: usize) -> (f: Option<&Frame>)
        requires
            cam < self.cams@.len(),
        ensures
            match f {
                Some(x) => self.cams@[cam as int].current == Some(*x),
                None => self.cams@[cam as int].current is None,
            },
    {
        match &self.cams[cam].current {
            Some(x) => Some(x),
            None => None,
        }
    }

    /// True while some camera is waiting for its debounced decoder restart.
    pub fn busy(&self) -> (b: bool)
        ensures
            b == exists|c: int| 0 <= c < self.cams@.len() && (#[trigger] self.cams@[c]).pending_restart,
    {
        let mut i: usize = 0;
        while i < self.cams.len()
            invariant
                i <= self.cams@.len(),
                forall|c: int| 0 <= c < i ==> !(#[trigger] self.cams@[c]).pending_restart,
            decreases self.cams@.len() - i,
        {
            if self.cams[i].pending_restart {
                assert(self.cams@[i as int].pending_restart);
                return true;
            }
            i = i + 1;
        }
        false
    }

    /// True while a decoder still owes the frame for the last requested time.
    pub fn awaiting_frame(&self) -> (b: bool)
        ensures
            b == exists|c: int| 0 <= c < self.cams@.len() && (#[trigger] self.cams@[c]).waiting,
    {
        let mut i: usize = 0;
        while i < self.cams.len()
            invariant
                i <= self.cams@.len(),
                forall|c: int| 0 <= c < i ==> !(#[trigger] self.cams@[c]).waiting,
            decreases self.cams@.len() - i,
        {
            if self.cams[i].waiting {
                assert(self.cams@[i as int].waiting);
                return true;
            }
            i = i + 1;
        }
        false
    }

    /// Size to which a clip is decoded.
    pub fn decode_size(&self, clip: &Clip) -> (s: (u32, u32))
        ensures
            (s.0 as int, s.1 as int) == crate::ffmpeg::fitted(
                clip.width as int,
                clip.height as int,
                edge_cap(self.quality) as int,
                edge_cap(self.quality) as int,
            ),
    {
        match self.quality {
            Quality::Preview { max_edge } => fit_size(clip.width, clip.height, max_edge, max_edge),
            Quality::Full { max_edge } => fit_size(clip.width, clip.height, max_edge, max_edge),
        }
    }

    /// First step of bringing camera `cam` to master time `t`: whether to show
    /// nothing, to wait, to start a decoder or to go on with the running one.
    pub fn plan(&mut self, project: &Project, cam: usize, t: i64, mode: Mode, now: i64) -> (step: Step)
        requires
            old(self).wf(),
            cam < CAMERA_COUNT,
            project.times_ok(),
            crate::arrange::in_limit(t as int),
            0 <= now <= crate::arrange::TIME_LIMIT,
        ensures
            final(self).wf(),
            final(self).only_cam(*old(self), cam as int),
            ({
                let was = old(self).cams@[cam as int];
                let now_is = final(self).cams@[cam as int];
                match step {
                    Step::Empty => {
                        &&& forall|k: int| !project.is_clip_at(cam as int, t as int, k)
                        &&& now_is == was.cleared()
                        &&& final(self).restarts == old(self).restarts
                    },
                    Step::Wait => exists|k: int|
                        {
                            &&& #[trigger] project.is_clip_at(cam as int, t as int, k)
                            &&& was.needs_restart(
                                k as usize,
                                t - project.cameras@[cam as int].clips@[k].offset,
                                old(self).fps,
                            )
                            &&& mode == Mode::Live && now - was.last_restart < RESTART_DEBOUNCE
                            &&& now_is == (CamState { pending_restart: true, ..was })
                            &&& final(self).restarts == old(self).restarts
                        },
                    Step::Start { clip, local, request } => {
                        &&& project.is_clip_at(cam as int, t as int, clip as int)
                        &&& local == t - project.cameras@[cam as int].clips@[clip as int].offset
                        &&& was.needs_restart(clip, local as int, old(self).fps)
                        &&& mode == Mode::Exact || now - was.last_restart >= RESTART_DEBOUNCE
                        &&& is_request(
                            *old(self),
                            project.cameras@[cam as int].clips@[clip as int],
                            local as int,
                            request,
                        )
                        &&& now_is == (CamState { pending_restart: false, ..was.without_stream() })
                        &&& final(self).restarts == next_generation(old(self).restarts)
                        &&& 0 <= request.start <= local <= crate::arrange::TIME_LIMIT
                    },
                    Step::Pull { local } => exists|k: int|
                        {
                            &&& #[trigger] project.is_clip_at(cam as int, t as int, k)
                            &&& local == t - project.cameras@[cam as int].clips@[k].offset
                            &&& !was.needs_restart(k as usize, local as int, old(self).fps)
                            &&& now_is == was
                            &&& final(self).restarts == old(self).restarts
                            &&& 0 <= local <= crate::arrange::TIME_LIMIT
                        },
                }
            }),
    {
        let ghost was = *self;
        assert(was.cams@[cam as int].wf());
        assert(crate::arrange::in_limit(was.cams@[cam as int].last_restart as int));
        match project.clip_at(cam, t) {
            None => {
                self.cams[cam].clear();
                Step::Empty
            },
            Some((clip, c)) => {
                proof {
                    assert(crate::model::clip_times_ok(project.cameras@[cam as int].clips@));
                    assert(c.times_ok());
                    assert(project.is_clip_at(cam as int, t as int, clip as int));
                }
                let local: i64 = t - c.offset;
                let fps: Rate = self.fps;
                if self.cams[cam].restart_needed(clip, local, fps) {
                    let size: (u32, u32) = self.decode_size(c);
                    let start: i64 = fps.snap(local);
                    if !self.cams[cam].begin_restart(mode, now) {
                        return Step::Wait;
                    }
                    if self.restarts == u64::MAX {
                        self.restarts = 0;
                    } else {
                        self.restarts = self.restarts + 1;
                    }
                    let request: DecodeRequest = DecodeRequest {
                        path: c.path.clone(),
                        start,
                        fps,
                        width: size.0,
                        height: size.1,
                        hdr: c.hdr,
                        hwaccel: self.hwaccel,
                    };
                    Step::Start { clip, local, request }
                } else {
                    Step::Pull { local }
                }
            },
        }
    }
}

// ---------------------------------------------------------------- master clock

/// Master clock: the audio player when a recording is loaded, a wall clock
/// otherwise. Wall times are microseconds since some start; the player's position
/// is handed in where it has a recording.
#[derive(Debug, Clone, Copy)]
pub struct Clock {
    pub playing: bool,
    /// Wall time and master time at which playback started, for the wall clock.
    pub anchor: Option<(i64, i64)>,
    pub paused_at: i64,
}

impl Clock {
    /// The clock's times can be reached by wall time `now`.
    pub open spec fn wf(self, now: int) -> bool {
        &&& 0 <= now <= crate::arrange::TIME_LIMIT
        &&& 0 <= self.paused_at <= crate::arrange::TIME_LIMIT + now
        &&& self.anchor matches Some((start, t0)) ==> 0 <= start <= now && 0 <= t0
            <= crate::arrange::TIME_LIMIT + start
    }

    /// A position that the player can have.
    pub open spec fn position_ok(player: Option<i64>) -> bool {
        player matches Some(p) ==> 0 <= p <= crate::arrange::TIME_LIMIT
    }

    /// Master time at wall time `now`.
    pub open spec fn at(self, now: int, player: Option<i64>) -> int {
        match player {
            Some(p) => p as int,
            None => match (self.playing, self.anchor) {
                (true, Some((start, t0))) => t0 + (now - start),
                _ => self.paused_at as int,
            },
        }
    }

    /// A clock that stands at the start.
    pub fn new() -> (c: Clock)
        ensures
            !c.playing,
            c.anchor is None,
            c.paused_at == 0,
            forall|now: int| 0 <= now <= crate::arrange::TIME_LIMIT ==> #[trigger] c.wf(now),
    {
        Clock { playing: false, anchor: None, paused_at: 0 }
    }

    /// Master time at wall time `now`.
    pub fn time(&self, now: i64, player: Option<i64>) -> (t: i64)
        requires
            self.wf(now as int),
            Clock::position_ok(player),
        ensures
            t == self.at(now as int, player),
            0 <= t <= crate::arrange::TIME_LIMIT + now,
    {
        match player {
            Some(p) => p,
            None => match (self.playing, self.anchor) {
                (true, Some((start, t0))) => t0 + (now - start),
                _ => self.paused_at,
            },
        }
    }

    /// Whether the clock runs.
    pub fn is_playing(&self) -> (b: bool)
        ensures
            b == self.playing,
    {
        self.playing
    }

    /// Starts the clock; the player is started with it.
    pub fn play(&mut self, now: i64, player: Option<i64>)
        requires
            old(self).wf(now as int),
            Clock::position_ok(player),
        ensures
            final(self).wf(now as int),
            final(self).playing,
            final(self).anchor == Some((now, old(self).at(now as int, player) as i64)),
            final(self).paused_at == old(self).paused_at,
    {
        let t: i64 = self.time(now, player);
        self.playing = true;
        self.anchor = Some((now, t));
    }

    /// Stops the clock; the player is stopped with it.
    pub fn pause(&mut self, now: i64, player: Option<i64>)
        requires
            old(self).wf(now as int),
            Clock::position_ok(player),
        ensures
            final(self).wf(now as int),
            !final(self).playing,
            final(self).anchor is None,
            final(self).paused_at == old(self).at(now as int, player),
    {
        self.paused_at = self.time(now, player);
        self.playing = false;
        self.anchor = None;
    }

    /// Goes to a time, not before the start, and says to which; the player goes
    /// there too.
    pub fn seek(&mut self, t: i64, now: i64) -> (to: i64)
        requires
            old(self).wf(now as int),
            t <= crate::arrange::TIME_LIMIT,
        ensures
            final(self).wf(now as int),
            final(self).playing == old(self).playing,
            to == if t < 0 {
                0
            } else {
                t as int
            },
            final(self).paused_at == to,
            final(self).anchor == if old(self).playing {
                Some((now, to))
            } else {
                old(self).anchor
            },
    {
        let to: i64 = if t < 0 {
            0
        } else {
            t
        };
        self.paused_at = to;
        if self.playing {
            self.anchor = Some((now, to));
        }
        to
    }
}

/// While the clock runs it gains what the wall clock gains, and while it stands it
/// stands.
pub proof fn lemma_clock_runs(c: Clock, now: int, later: int)
    requires
        now <= later,
        c.playing ==> c.anchor is Some,
    ensures
        c.playing ==> c.at(later, None) - c.at(now, None) == later - now,
        !c.playing ==> c.at(later, None) == c.at(now, None),
{
}

/// Starting or stopping the clock does not move it: `after` is what
/// [`Clock::play`] or [`Clock::pause`] leaves of `before`.
pub proof fn lemma_play_pause_keep_time(before: Clock, after: Clock, now: int)
    requires
        before.wf(now),
        after.playing ==> after.anchor == Some((now as i64, before.at(now, None) as i64)),
        !after.playing ==> after.paused_at == before.at(now, None),
    ensures
        after.at(now, None) == before.at(now, None),
{
}

/// A seek is seen at once: `after` is what [`Clock::seek`] leaves.
pub proof fn lemma_seek_moves_clock(before: Clock, after: Clock, to: i64, now: int)
    requires
        before.wf(now),
        after.playing == before.playing,
        after.paused_at == to,
        after.playing ==> after.anchor == Some((now as i64, to)),
    ensures
        after.at(now, None) == to,
{
}

} // verus!
