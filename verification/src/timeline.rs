//! The timeline: which stretch of the master timeline is shown, where things lie
//! on screen, and what dragging does to clips.
//!
//! Screen distances are thousandths of a pixel, from the left edge of the timeline.

use crate::arrange::TIME_LIMIT;
use crate::model::{Clip, Project, Rate};
use crate::text::{join3, number_text, padded_text};
use crate::units::round_div;
use vstd::prelude::*;

verus! {

/// No timeline is wider, in thousandths of a pixel.
pub const WIDTH_LIMIT: i64 = 1_000_000_000;

/// Least stretch for which positions are worked out: a hundredth of a second.
pub const MIN_SPAN: i64 = 10_000;

/// The stretch that is shown.
#[derive(Debug, Clone, Copy, PartialEq, Eq, Structural)]
pub struct Timeline {
    pub start: i64,
    pub end: i64,
    pub initialized: bool,
}

/// A turn of the mouse wheel over the timeline, in thousandths of a pixel.
#[derive(Debug, Clone, Copy)]
pub struct Wheel {
    pub x: i64,
    pub y: i64,
    /// Zoom instead of pan.
    pub zoom: bool,
    /// Vertical turns pan.
    pub shift: bool,
    /// Where the pointer is.
    pub pointer: Option<i64>,
}

/// The longer of a duration and ten seconds.
pub open spec fn at_least_ten(duration: int) -> int {
    if duration < 10_000_000 {
        10_000_000
    } else {
        duration
    }
}

/// A stretch from `s` to `e` can be shown.
pub open spec fn in_view_range(s: int, e: int) -> bool {
    &&& -5_000_000_000_000_000_000 <= s <= 5_000_000_000_000_000_000
    &&& -5_000_000_000_000_000_000 <= e <= 5_000_000_000_000_000_000
    &&& e - s <= 5_000_000_000_000_000_000
}

impl Timeline {
    /// The stretch is in range.
    pub open spec fn ok(self) -> bool {
        in_view_range(self.start as int, self.end as int)
    }

    /// Length of the stretch.
    pub open spec fn span_of(self) -> int {
        if self.end - self.start < MIN_SPAN {
            MIN_SPAN as int
        } else {
            self.end - self.start
        }
    }

    /// The time at `x`.
    pub open spec fn time_at(self, x: int, width: int) -> int {
        self.start + crate::units::rounded(x * self.span_of(), width)
    }

    /// Where a time lies.
    pub open spec fn place_of(self, t: int, width: int) -> int {
        crate::units::rounded((t - self.start) * width, self.span_of())
    }

    /// A timeline that has not been shown yet.
    pub fn new() -> (v: Timeline)
        ensures
            v == (Timeline { start: 0, end: 60_000_000, initialized: false }),
            v.ok(),
    {
        Timeline { start: 0, end: 60_000_000, initialized: false }
    }

    /// Shows everything again.
    pub fn reset_view(&mut self)
        ensures
            *final(self) == (Timeline { initialized: false, ..*old(self) }),
    {
        self.initialized = false;
    }

    /// Before anything is shown: the whole recording and a little more.
    pub fn settle(&mut self, duration: i64)
        requires
            duration <= 2 * TIME_LIMIT,
        ensures
            *final(self) == if !old(self).initialized || old(self).end <= old(self).start {
                Timeline {
                    start: 0,
                    end: crate::units::rounded(at_least_ten(duration as int) * 102, 100) as i64,
                    initialized: true,
                }
            } else {
                *old(self)
            },
            old(self).ok() ==> final(self).ok(),
            final(self).end > final(self).start,
    {
        if !self.initialized || self.end <= self.start {
            let d: i64 = if duration < 10_000_000 {
                10_000_000
            } else {
                duration
            };
            self.start = 0;
            self.end = round_div((d as i128) * 102, 100) as i64;
            self.initialized = true;
        }
    }

    /// Length of the stretch.
    pub fn span(&self) -> (s: i64)
        requires
            self.ok(),
        ensures
            s == self.span_of(),
            MIN_SPAN <= s <= 5_000_000_000_000_000_000,
    {
        let s: i128 = self.end as i128 - self.start as i128;
        if s < MIN_SPAN as i128 {
            MIN_SPAN
        } else {
            s as i64
        }
    }

    /// The time at `x`.
    pub fn t_of(&self, x: i64, width: i64) -> (t: i64)
        requires
            self.ok(),
            0 <= x <= width,
            0 < width <= WIDTH_LIMIT,
        ensures
            t == self.time_at(x as int, width as int),
            self.start <= t <= self.start + self.span_of(),
    {
        let span: i64 = self.span();
        let d: i64 = scaled(x, span, width);
        proof {
            lemma_scaled_within(x as int, span as int, width as int);
        }
        (self.start as i128 + d as i128) as i64
    }

    /// Where a time lies.
    pub fn x_of(&self, t: i64, width: i64) -> (x: i128)
        requires
            self.ok(),
            0 < width <= WIDTH_LIMIT,
        ensures
            x == self.place_of(t as int, width as int),
    {
        let span: i64 = self.span();
        let d: i128 = t as i128 - self.start as i128;
        proof {
            lemma_wide_product(d as int, width as int);
        }
        round_div(d * (width as i128), span as i128)
    }

    /// Where a time lies, if that is on screen.
    pub fn visible_x(&self, t: i64, width: i64) -> (x: Option<i64>)
        requires
            self.ok(),
            0 < width <= WIDTH_LIMIT,
        ensures
            match x {
                Some(p) => p == self.place_of(t as int, width as int) && 0 <= p <= width,
                None => !(0 <= self.place_of(t as int, width as int) <= width),
            },
    {
        let x: i128 = self.x_of(t, width);
        if 0 <= x && x <= width as i128 {
            Some(x as i64)
        } else {
            None
        }
    }

    /// Where a time lies, moved onto the screen.
    pub fn clamped_x(&self, t: i64, width: i64) -> (x: i64)
        requires
            self.ok(),
            0 < width <= WIDTH_LIMIT,
        ensures
            x == crate::units::clamped(self.place_of(t as int, width as int), 0, width as int),
    {
        let x: i128 = self.x_of(t, width);
        if x < 0 {
            0
        } else if x > width as i128 {
            width
        } else {
            x as i64
        }
    }

    /// The time to which a click goes.
    pub fn seek_to(&self, x: i64, width: i64, duration: i64) -> (t: i64)
        requires
            self.ok(),
            0 <= x <= width,
            0 < width <= WIDTH_LIMIT,
        ensures
            t == crate::units::clamped(
                self.time_at(x as int, width as int),
                0,
                if duration < 0 {
                    0
                } else {
                    duration as int
                },
            ),
    {
        let t: i64 = self.t_of(x, width);
        crate::units::clamp(
            t,
            0,
            if duration < 0 {
                0
            } else {
                duration
            },
        )
    }

    /// Length of the stretch after a turn of the wheel by `y`: three thousandths per
    /// pixel, at most to one half or to the double, and from half a second to four
    /// times the recording.
    pub open spec fn zoomed_span(self, y: int, duration: int) -> int {
        let factor = crate::units::clamped(1_000_000 - 3 * y, 500_000, 2_000_000);
        crate::units::clamped(
            crate::units::rounded(self.span_of() * factor, 1_000_000),
            500_000,
            4 * at_least_ten(duration),
        )
    }

    /// The stretch zoomed about a time, which keeps its place.
    pub open spec fn zoomed(self, y: int, anchor: int, duration: int) -> (int, int) {
        let span = self.zoomed_span(y, duration);
        let start = anchor - crate::units::rounded((anchor - self.start) * span, self.span_of());
        (start, start + span)
    }

    /// The stretch moved by `dx`.
    pub open spec fn panned(self, dx: int, width: int) -> (int, int) {
        let dt = crate::units::rounded(-dx * self.span_of(), width);
        (self.start + dt, self.end + dt)
    }

    /// By how much a turn of the wheel pans.
    pub open spec fn pan_of(w: Wheel) -> int {
        if w.x != 0 {
            w.x as int
        } else if w.shift {
            w.y as int
        } else {
            0
        }
    }

    /// The time about which a turn of the wheel zooms.
    pub open spec fn anchor_of(self, w: Wheel, playhead: int, width: int) -> int {
        match w.pointer {
            Some(p) => self.time_at(p as int, width),
            None => playhead,
        }
    }

    /// The stretch after a turn of the wheel, before it is kept near the start.
    pub open spec fn turned(self, w: Wheel, playhead: int, duration: int, width: int) -> (int, int) {
        if w.zoom {
            if w.y != 0 {
                self.zoomed(w.y as int, self.anchor_of(w, playhead, width), duration)
            } else {
                (self.start as int, self.end as int)
            }
        } else if Timeline::pan_of(w) != 0 {
            self.panned(Timeline::pan_of(w), width)
        } else {
            (self.start as int, self.end as int)
        }
    }

    /// The earliest start: a tenth of the stretch before the recording.
    pub open spec fn earliest(self) -> int {
        crate::units::rounded(-self.span_of(), 10)
    }

    /// The stretch after a turn of the wheel.
    pub open spec fn wheeled(self, w: Wheel, playhead: int, duration: int, width: int) -> (int, int) {
        let (s, e) = self.turned(w, playhead, duration, width);
        if s < self.earliest() {
            (self.earliest(), e + (self.earliest() - s))
        } else {
            (s, e)
        }
    }

    /// Zooms or pans with the wheel. `false` and no change where the stretch would
    /// leave the range of times.
    pub fn wheel(&mut self, w: Wheel, playhead: i64, duration: i64, width: i64) -> (moved: bool)
        requires
            old(self).ok(),
            0 < width <= WIDTH_LIMIT,
            duration <= TIME_LIMIT,
            -TIME_LIMIT <= playhead <= 2 * TIME_LIMIT,
            -WIDTH_LIMIT <= w.x <= WIDTH_LIMIT,
            -WIDTH_LIMIT <= w.y <= WIDTH_LIMIT,
            w.pointer matches Some(p) ==> 0 <= p <= width,
        ensures
            final(self).ok(),
            ({
                let (s, e) = old(self).wheeled(
                    w,
                    playhead as int,
                    duration as int,
                    width as int,
                );
                &&& moved == in_view_range(s, e)
                &&& moved ==> final(self).start == s && final(self).end == e
                &&& !moved ==> *final(self) == *old(self)
            }),
            final(self).initialized == old(self).initialized,
    {
        let span: i64 = self.span();
        let (s, e): (i128, i128) = if w.zoom {
            if w.y != 0 {
                let anchor: i64 = match w.pointer {
                    Some(p) => self.t_of(p, width),
                    None => playhead,
                };
                self.zoom_about(w.y, anchor, duration)
            } else {
                (self.start as i128, self.end as i128)
            }
        } else {
            let dx: i64 = if w.x != 0 {
                w.x
            } else if w.shift {
                w.y
            } else {
                0
            };
            if dx != 0 {
                proof {
                    lemma_wide_product(span as int, dx as int);
                    assert(-dx * span == -(span * dx)) by (nonlinear_arith);
                }
                let dt: i128 = round_div(-(dx as i128) * (span as i128), width as i128);
                (self.start as i128 + dt, self.end as i128 + dt)
            } else {
                (self.start as i128, self.end as i128)
            }
        };
        let first: i128 = round_div(-(span as i128), 10);
        let (s2, e2): (i128, i128) = if s < first {
            (first, e + (first - s))
        } else {
            (s, e)
        };
        let limit: i128 = 5_000_000_000_000_000_000;
        if s2 < -limit || s2 > limit || e2 < -limit || e2 > limit || e2 - s2 > limit {
            return false;
        }
        self.start = s2 as i64;
        self.end = e2 as i64;
        true
    }

    /// Zooms with a key, by a quarter about a time that keeps its place; `false` and
    /// no change where the stretch would leave the range of times.
    pub fn zoom_key(&mut self, closer: bool, anchor: i64, duration: i64, width: i64) -> (moved: bool)
        requires
            old(self).ok(),
            0 < width <= WIDTH_LIMIT,
            duration <= TIME_LIMIT,
            -TIME_LIMIT <= anchor <= 2 * TIME_LIMIT,
        ensures
            final(self).ok(),
            final(self).initialized == old(self).initialized,
            ({
                let (s, e) = old(self).wheeled(
                    Timeline::key_turn(closer),
                    anchor as int,
                    duration as int,
                    width as int,
                );
                &&& moved == in_view_range(s, e)
                &&& moved ==> final(self).start == s && final(self).end == e
                &&& !moved ==> *final(self) == *old(self)
            }),
    {
        let y: i64 = if closer {
            83_333
        } else {
            -83_333
        };
        self.wheel(Wheel { x: 0, y, zoom: true, shift: false, pointer: None }, anchor, duration, width)
    }

    /// Zooms with two fingers, by a factor in millionths about the pointer or the
    /// playhead; `false` and no change where the stretch would leave the range of times.
    pub fn pinch(&mut self, factor: i64, pointer: Option<i64>, playhead: i64, duration: i64, width: i64) -> (moved:
        bool)
        requires
            old(self).ok(),
            0 < factor <= 1_000_000_000_000,
            0 < width <= WIDTH_LIMIT,
            duration <= TIME_LIMIT,
            -TIME_LIMIT <= playhead <= 2 * TIME_LIMIT,
            pointer matches Some(p) ==> 0 <= p <= width,
        ensures
            final(self).ok(),
            final(self).initialized == old(self).initialized,
            ({
                let (s, e) = old(self).wheeled(
                    Timeline::pinch_turn(factor as int, pointer),
                    playhead as int,
                    duration as int,
                    width as int,
                );
                &&& moved == in_view_range(s, e)
                &&& moved ==> final(self).start == s && final(self).end == e
                &&& !moved ==> *final(self) == *old(self)
            }),
    {
        let q: i128 = round_div((factor as i128 - 1_000_000) * 1_000_000, 3 * (factor as i128));
        let y: i64 = if q < -1_000_000 {
            -1_000_000
        } else if q > 1_000_000 {
            1_000_000
        } else {
            q as i64
        };
        self.wheel(Wheel { x: 0, y, zoom: true, shift: false, pointer }, playhead, duration, width)
    }

    /// The turn of the wheel that two fingers stand for, which move apart by `factor`:
    /// the stretch gets shorter by it.
    pub open spec fn pinch_turn(factor: int, pointer: Option<i64>) -> Wheel {
        Wheel {
            x: 0,
            y: crate::units::clamped(
                crate::units::rounded((factor - 1_000_000) * 1_000_000, 3 * factor),
                -1_000_000,
                1_000_000,
            ) as i64,
            zoom: true,
            shift: false,
            pointer,
        }
    }

    /// The turn of the wheel that a key stands for.
    pub open spec fn key_turn(closer: bool) -> Wheel {
        Wheel {
            x: 0,
            y: if closer {
                83_333i64
            } else {
                -83_333i64
            },
            zoom: true,
            shift: false,
            pointer: None,
        }
    }

    /// The stretch zoomed about a time.
    fn zoom_about(&self, y: i64, anchor: i64, duration: i64) -> (r: (i128, i128))
        requires
            self.ok(),
            duration <= TIME_LIMIT,
            -WIDTH_LIMIT <= y <= WIDTH_LIMIT,
        ensures
            (r.0 as int, r.1 as int) == self.zoomed(y as int, anchor as int, duration as int),
            -75_000_000_000_000_000_000_000_000_000_000_000_000 <= r.0
                <= 75_000_000_000_000_000_000_000_000_000_000_000_000,
            r.0 <= r.1 <= r.0 + 4_000_000_000_000_000_000,
    {
        let span: i64 = self.span();
        let factor: i64 = crate::units::clamp(1_000_000 - 3 * y, 500_000, 2_000_000);
        let most: i64 = 4 * (if duration < 10_000_000 {
            10_000_000
        } else {
            duration
        });
        proof {
            lemma_wide_product(span as int, factor as int);
        }
        let q: i128 = round_div((span as i128) * (factor as i128), 1_000_000);
        let new_span: i128 = if q < 500_000 {
            500_000
        } else if q > most as i128 {
            most as i128
        } else {
            q
        };
        let away: i128 = anchor as i128 - self.start as i128;
        proof {
            assert(-0x1_0000_0000_0000_0000 * 4_000_000_000_000_000_000 <= away * new_span
                <= 0x1_0000_0000_0000_0000 * 4_000_000_000_000_000_000) by (nonlinear_arith)
                requires
                    -0x1_0000_0000_0000_0000 <= away <= 0x1_0000_0000_0000_0000,
                    0 <= new_span <= 4_000_000_000_000_000_000,
            ;
        }
        let shift: i128 = round_div(away * new_span, span as i128);
        let s: i128 = anchor as i128 - shift;
        (s, s + new_span)
    }
}

proof fn lemma_wide_product(a: int, b: int)
    requires
        -0x2_0000_0000_0000_0000 <= a <= 0x2_0000_0000_0000_0000,
        -1_000_000_000 <= b <= 1_000_000_000,
    ensures
        -0x2_0000_0000_0000_0000 * 1_000_000_000 <= a * b <= 0x2_0000_0000_0000_0000 * 1_000_000_000,
{
    assert(-0x2_0000_0000_0000_0000 * 1_000_000_000 <= a * b <= 0x2_0000_0000_0000_0000 * 1_000_000_000)
        by (nonlinear_arith)
        requires
            -0x2_0000_0000_0000_0000 <= a <= 0x2_0000_0000_0000_0000,
            -1_000_000_000 <= b <= 1_000_000_000,
    ;
}

proof fn lemma_scaled_within(x: int, span: int, width: int)
    requires
        0 <= x <= width,
        0 < width,
        0 <= span,
    ensures
        0 <= crate::units::rounded(x * span, width) <= span,
{
    let r = crate::units::rounded(x * span, width);
    crate::units::lemma_rounded_near(x * span, width);
    assert(0 <= x * span <= span * width) by (nonlinear_arith)
        requires
            0 <= x <= width,
            0 <= span,
    ;
    assert(0 <= r <= span) by (nonlinear_arith)
        requires
            -width <= 2 * (x * span - r * width) <= width,
            0 <= x * span <= span * width,
            width > 0,
    ;
}

/// `x * span / width`, to the nearest.
fn scaled(x: i64, span: i64, width: i64) -> (r: i64)
    requires
        0 <= x <= width,
        0 < width <= WIDTH_LIMIT,
        0 <= span,
    ensures
        r == crate::units::rounded(x * span, width as int),
{
    proof {
        lemma_wide_product(span as int, x as int);
        assert(x * span == span * x) by (nonlinear_arith);
        lemma_scaled_within(x as int, span as int, width as int);
    }
    round_div((x as i128) * (span as i128), width as i128) as i64
}

/// Zooming keeps the time under the pointer in place, but for the rounding: its
/// share of the new stretch is its share of the old one.
pub proof fn lemma_zoom_keeps_anchor(v: Timeline, y: int, anchor: int, duration: int)
    requires
        v.ok(),
    ensures
        ({
            let (s, e) = v.zoomed(y, anchor, duration);
            &&& e - s == v.zoomed_span(y, duration)
            &&& 2 * crate::units::size((anchor - s) * v.span_of() - (anchor - v.start) * (e - s))
                <= v.span_of()
        }),
{
    let span = v.zoomed_span(y, duration);
    crate::units::lemma_rounded_near((anchor - v.start) * span, v.span_of());
}

/// Panning moves the stretch without changing its length, and the wheel never goes
/// further than a tenth of the stretch before the recording.
pub proof fn lemma_wheel_keeps_length(v: Timeline, w: Wheel, playhead: int, duration: int, width: int)
    requires
        v.ok(),
        !w.zoom,
    ensures
        v.wheeled(w, playhead, duration, width).1 - v.wheeled(w, playhead, duration, width).0 == v.end
            - v.start,
        v.wheeled(w, playhead, duration, width).0 >= v.earliest(),
{
}

/// A time that is drawn and clicked comes back, to within the time that half of the
/// smallest screen distance takes.
pub proof fn lemma_click_where_drawn(v: Timeline, t: int, width: int)
    requires
        width > 0,
    ensures
        2 * width * (v.time_at(v.place_of(t, width), width) - t) <= v.span_of() + width,
        2 * width * (t - v.time_at(v.place_of(t, width), width)) <= v.span_of() + width,
{
    let span = v.span_of();
    let d = t - v.start;
    let x = v.place_of(t, width);
    let u = v.time_at(x, width) - v.start;
    crate::units::lemma_rounded_near(d * width, span);
    crate::units::lemma_rounded_near(x * span, width);
    assert(2 * width * (u - d) == 2 * (u * width - x * span) + 2 * (x * span - d * width)) by (nonlinear_arith);
    assert(2 * width * (d - u) == 2 * (d * width - x * span) + 2 * (x * span - u * width)) by (nonlinear_arith);
}

// ---------------------------------------------------------------- ruler

/// The ruler's steps, the finest first.
pub open spec fn ruler_steps() -> Seq<i64> {
    seq![
        100_000,
        250_000,
        500_000,
        1_000_000,
        2_000_000,
        5_000_000,
        10_000_000,
        15_000_000,
        30_000_000,
        60_000_000,
        120_000_000,
        300_000_000,
        600_000_000,
    ]
}

/// A step is wide enough for its label: seventy pixels.
pub open spec fn wide_enough(step: int, span: int, width: int) -> bool {
    step * width >= 70_000 * span
}

/// The finest step that is wide enough, or else the coarsest.
pub fn ruler_step(view: &Timeline, width: i64) -> (step: i64)
    requires
        view.ok(),
        0 < width <= WIDTH_LIMIT,
    ensures
        exists|k: int|
            {
                &&& 0 <= k < 13
                &&& step == #[trigger] ruler_steps()[k]
                &&& wide_enough(step as int, view.span_of(), width as int) || k == 12
                &&& forall|j: int|
                    0 <= j < k ==> !wide_enough(
                        (#[trigger] ruler_steps()[j]) as int,
                        view.span_of(),
                        width as int,
                    )
            },
        100_000 <= step <= 600_000_000,
{
    let span: i64 = view.span();
    let steps: [i64; 13] = [
        100_000,
        250_000,
        500_000,
        1_000_000,
        2_000_000,
        5_000_000,
        10_000_000,
        15_000_000,
        30_000_000,
        60_000_000,
        120_000_000,
        300_000_000,
        600_000_000,
    ];
    assert(steps@ =~= ruler_steps());
    let mut k: usize = 0;
    while k < 12
        invariant
            k <= 12,
            steps@ == ruler_steps(),
            span == view.span_of(),
            0 < width <= WIDTH_LIMIT,
            0 < span,
            forall|j: int|
                0 <= j < k ==> !wide_enough(
                    (#[trigger] ruler_steps()[j]) as int,
                    view.span_of(),
                    width as int,
                ),
        decreases 12 - k,
    {
        let step: i64 = steps[k];
        assert(step == ruler_steps()[k as int]);
        assert(0 <= step <= 600_000_000);
        proof {
            lemma_wide_product(step as int, width as int);
        }
        if (step as i128) * (width as i128) >= 70_000 * (span as i128) {
            return step;
        }
        k = k + 1;
    }
    assert(steps@[12] == ruler_steps()[12]);
    steps[12]
}

/// The first mark: the last multiple of the step that is not behind the start.
pub open spec fn first_mark(start: int, step: int) -> int {
    (start / step) * step
}

/// The ruler's marks: all multiples of the step from the first one to the end.
pub fn ruler_marks(view: &Timeline, step: i64) -> (out: Vec<i64>)
    requires
        view.ok(),
        100_000 <= step <= 600_000_000,
    ensures
        forall|i: int| 0 <= i < out@.len() ==> #[trigger] out@[i] == first_mark(view.start as int, step as int) + i * step,
        forall|i: int| 0 <= i < out@.len() ==> (#[trigger] out@[i]) <= view.end,
        first_mark(view.start as int, step as int) + out@.len() * step > view.end,
{
    let d: i128 = step as i128;
    let s: i128 = view.start as i128;
    let e: i128 = view.end as i128;
    let q: i128 = if s >= 0 {
        s / d
    } else {
        -((-s + d - 1) / d)
    };
    proof {
        lemma_floor(s as int, d as int, q as int);
        assert(q * d <= s && s < q * d + d && q * d == first_mark(s as int, d as int));
        assert(-5_000_000_000_000_000_000 <= q <= 5_000_000_000_000_000_000) by (nonlinear_arith)
            requires
                q * d <= s < q * d + d,
                -5_000_000_000_000_000_000 <= s <= 5_000_000_000_000_000_000,
                d >= 100_000,
        ;
    }
    let ghost first = first_mark(view.start as int, step as int);
    let mut t: i128 = q * d;
    let mut out: Vec<i64> = Vec::new();
    assert(0 * step == 0) by (nonlinear_arith);
    while t <= e
        invariant
            view.ok(),
            100_000 <= step <= 600_000_000,
            d == step,
            e == view.end,
            first == first_mark(view.start as int, step as int),
            first > view.start - step,
            first <= view.start,
            t == first + out@.len() * step,
            forall|i: int| 0 <= i < out@.len() ==> #[trigger] out@[i] == first + i * step,
            forall|i: int| 0 <= i < out@.len() ==> (#[trigger] out@[i]) <= view.end,
        decreases e - t + d,
    {
        proof {
            let n = out@.len() as int;
            assert((n + 1) * step == n * step + step) by (nonlinear_arith);
            assert(n * step >= 0) by (nonlinear_arith)
                requires
                    n >= 0,
                    step > 0,
            ;
        }
        out.push(t as i64);
        t = t + d;
    }
    out
}

proof fn lemma_floor(s: int, d: int, q: int)
    requires
        d > 0,
        q == if s >= 0 {
            s / d
        } else {
            -((-s + d - 1) / d)
        },
    ensures
        q == s / d,
        q * d <= s < q * d + d,
{
    if s >= 0 {
        vstd::arithmetic::div_mod::lemma_fundamental_div_mod(s, d);
        vstd::arithmetic::div_mod::lemma_mod_bound(s, d);
        assert(d * q == q * d) by (nonlinear_arith);
    } else {
        let m = -s + d - 1;
        vstd::arithmetic::div_mod::lemma_fundamental_div_mod(m, d);
        vstd::arithmetic::div_mod::lemma_mod_bound(m, d);
        let p = m / d;
        assert(d * p == p * d) by (nonlinear_arith);
        assert((-p) * d == -(p * d)) by (nonlinear_arith);
        vstd::arithmetic::div_mod::lemma_fundamental_div_mod_converse(s, d, q, s - q * d);
    }
}

// ---------------------------------------------------------------- waveform

/// The samples under column `c`: from the time at its left edge to the time at its
/// right edge.
pub fn column_samples(view: &Timeline, c: i64, width: i64, len: usize) -> (r: (usize, usize))
    requires
        view.ok(),
        0 <= c,
        c * 1000 + 1000 <= width,
        0 < width <= WIDTH_LIMIT,
    ensures
        r.0 == sample_at(*view, c as int, width as int, len as int),
        r.1 == sample_at(*view, c + 1, width as int, len as int),
{
    let t0: i64 = view.t_of(c * 1000, width);
    let t1: i64 = view.t_of(c * 1000 + 1000, width);
    (sample_index(t0, len), sample_index(t1, len))
}

/// The sample at a time, as far as there are samples.
fn sample_index(t: i64, len: usize) -> (k: usize)
    ensures
        k == crate::units::clamped(t as int / 125, 0, len as int),
{
    if t <= 0 {
        0
    } else {
        let q: u64 = (t as u64) / 125;
        if q > len as u64 {
            len
        } else {
            q as usize
        }
    }
}

/// `p` holds the smallest and the largest of zero and the samples from `s` up to `e`.
pub open spec fn is_strip(mono: Seq<i32>, s: int, e: int, p: (i32, i32)) -> bool {
    &&& p.0 <= 0 <= p.1
    &&& forall|i: int| s <= i < e ==> p.0 <= #[trigger] mono[i] <= p.1
    &&& p.0 == 0 || exists|i: int| s <= i < e && #[trigger] mono[i] == p.0
    &&& p.1 == 0 || exists|i: int| s <= i < e && #[trigger] mono[i] == p.1
}

/// The smallest and the largest of zero and the samples from `s` up to `e`: what is
/// drawn of them.
pub fn strip(mono: &Vec<i32>, s: usize, e: usize) -> (p: (i32, i32))
    requires
        e <= mono@.len(),
    ensures
        is_strip(mono@, s as int, e as int, p),
{
    let mut lo: i32 = 0;
    let mut hi: i32 = 0;
    let mut i: usize = s;
    while i < e
        invariant
            s <= i,
            i <= e || s > e,
            s > e ==> i == s,
            e <= mono@.len(),
            lo <= 0 <= hi,
            forall|k: int| s <= k < i ==> lo <= #[trigger] mono@[k] <= hi,
            lo == 0 || exists|k: int| s <= k < i && #[trigger] mono@[k] == lo,
            hi == 0 || exists|k: int| s <= k < i && #[trigger] mono@[k] == hi,
        decreases e - i,
    {
        let x: i32 = mono[i];
        if x < lo {
            lo = x;
            assert(mono@[i as int] == lo);
        }
        if x > hi {
            hi = x;
            assert(mono@[i as int] == hi);
        }
        i = i + 1;
    }
    (lo, hi)
}

/// The first sample under column `c`.
pub open spec fn sample_at(view: Timeline, c: int, width: int, len: int) -> int {
    crate::units::clamped(view.time_at(c * 1000, width) / 125, 0, len)
}

/// What is drawn of a recording: for every column of a pixel the smallest and the
/// largest of zero and its samples.
pub fn waveform(view: &Timeline, width: i64, mono: &Vec<i32>) -> (out: Vec<(i32, i32)>)
    requires
        view.ok(),
        0 < width <= WIDTH_LIMIT,
    ensures
        out@.len() == width as int / 1000,
        forall|c: int|
            0 <= c < out@.len() ==> is_strip(
                mono@,
                sample_at(*view, c, width as int, mono@.len() as int),
                sample_at(*view, c + 1, width as int, mono@.len() as int),
                #[trigger] out@[c],
            ),
{
    let n: i64 = width / 1000;
    let mut out: Vec<(i32, i32)> = Vec::new();
    let mut c: i64 = 0;
    while c < n
        invariant
            view.ok(),
            0 < width <= WIDTH_LIMIT,
            n == width as int / 1000,
            0 <= c <= n,
            out@.len() == c,
            forall|k: int|
                0 <= k < out@.len() ==> is_strip(
                    mono@,
                    sample_at(*view, k, width as int, mono@.len() as int),
                    sample_at(*view, k + 1, width as int, mono@.len() as int),
                    #[trigger] out@[k],
                ),
        decreases n - c,
    {
        let (s, e): (usize, usize) = column_samples(view, c, width, mono.len());
        let p: (i32, i32) = strip(mono, s, e);
        out.push(p);
        c = c + 1;
    }
    out
}

// ---------------------------------------------------------------- clips

/// Left and right edge of a clip's block.
pub open spec fn block_of(view: Timeline, clip: Clip, width: int) -> (int, int) {
    let x0 = view.place_of(clip.offset as int, width);
    let x1 = view.place_of(clip.offset + clip.duration, width);
    (
        if x0 < 0 {
            0
        } else {
            x0
        },
        if x1 > width {
            width
        } else {
            x1
        },
    )
}

/// Left and right edge of a clip's block, if any of it is on screen.
pub fn clip_block(view: &Timeline, clip: &Clip, width: i64) -> (b: Option<(i64, i64)>)
    requires
        view.ok(),
        clip.times_ok(),
        0 < width <= WIDTH_LIMIT,
    ensures
        ({
            let (x0, x1) = block_of(*view, *clip, width as int);
            match b {
                Some((p, q)) => p == x0 && q == x1 && x1 > 0 && x0 < width,
                None => x1 <= 0 || x0 >= width,
            }
        }),
{
    let a: i128 = view.x_of(clip.offset, width);
    let z: i128 = view.x_of(clip.end(), width);
    let x0: i128 = if a < 0 {
        0
    } else {
        a
    };
    let x1: i128 = if z > width as i128 {
        width as i128
    } else {
        z
    };
    if x1 <= 0 || x0 >= width as i128 {
        None
    } else {
        Some((x0 as i64, x1 as i64))
    }
}

/// A clip whose sync is not to be trusted: confidence under three tenths.
pub fn is_doubtful(confidence: Option<u32>) -> (b: bool)
    ensures
        b == (confidence matches Some(c) && c < 300_000),
{
    match confidence {
        Some(c) => c < 300_000,
        None => false,
    }
}

/// A confidence in percent, empty where there is none.
pub open spec fn percent_text(confidence: Option<u32>) -> Seq<char> {
    match confidence {
        Some(c) => crate::text::decimal(crate::units::even_rounded(c as int, 10_000) as nat) + "%"@,
        None => Seq::empty(),
    }
}

/// The label of a clip's block.
pub fn clip_label(clip: &Clip) -> (s: String)
    ensures
        s@ == crate::model::file_name_of(clip.path@) + "  "@ + percent_text(clip.sync_confidence),
{
    let name: String = clip.file_name();
    let percent: String = match clip.sync_confidence {
        Some(c) => {
            let q: i128 = crate::units::round_even(c as i128, 10_000);
            let n: String = number_text(q as u64);
            crate::text::join2(n.as_str(), "%")
        },
        None => String::new(),
    };
    join3(name.as_str(), "  ", percent.as_str())
}

/// How far a drag by `dx` moves a clip.
pub fn drag_time(view: &Timeline, dx: i64, width: i64) -> (dt: i128)
    requires
        view.ok(),
        0 < width <= WIDTH_LIMIT,
        -WIDTH_LIMIT <= dx <= WIDTH_LIMIT,
    ensures
        dt == crate::units::rounded(dx * view.span_of(), width as int),
{
    let span: i64 = view.span();
    proof {
        lemma_wide_product(span as int, dx as int);
        assert(dx * span == span * dx) by (nonlinear_arith);
    }
    round_div((dx as i128) * (span as i128), width as i128)
}

/// The clip with another offset.
pub open spec fn shifted(c: Clip, dt: int) -> Clip {
    Clip { offset: (c.offset + dt) as i64, ..c }
}

/// Moves one clip.
pub fn nudge_clip(clips: &mut Vec<Clip>, k: usize, dt: i64)
    requires
        k < old(clips)@.len(),
        i64::MIN <= old(clips)@[k as int].offset + dt <= i64::MAX,
    ensures
        final(clips)@ == old(clips)@.update(k as int, shifted(old(clips)@[k as int], dt as int)),
{
    let ghost was = clips@;
    let t: i64 = clips[k].offset + dt;
    clips[k].offset = t;
    assert(clips@ =~= was.update(k as int, shifted(was[k as int], dt as int)));
}

/// Moves all clips of a camera.
pub fn shift_clips(clips: &mut Vec<Clip>, dt: i64)
    requires
        forall|k: int|
            0 <= k < old(clips)@.len() ==> i64::MIN <= (#[trigger] old(clips)@[k]).offset + dt <= i64::MAX,
    ensures
        final(clips)@.len() == old(clips)@.len(),
        forall|k: int|
            0 <= k < old(clips)@.len() ==> #[trigger] final(clips)@[k] == shifted(old(clips)@[k], dt as int),
{
    let ghost was = clips@;
    let mut i: usize = 0;
    while i < clips.len()
        invariant
            i <= was.len(),
            clips@.len() == was.len(),
            forall|k: int| 0 <= k < was.len() ==> i64::MIN <= (#[trigger] was[k]).offset + dt <= i64::MAX,
            forall|k: int| 0 <= k < i ==> #[trigger] clips@[k] == shifted(was[k], dt as int),
            forall|k: int| i <= k < was.len() ==> #[trigger] clips@[k] == was[k],
        decreases was.len() - i,
    {
        assert(i64::MIN <= was[i as int].offset + dt <= i64::MAX);
        let t: i64 = clips[i].offset + dt;
        clips[i].offset = t;
        i = i + 1;
    }
}

/// Moving all clips of a camera keeps them as far apart as they were.
pub proof fn lemma_shift_keeps_gaps(a: Clip, b: Clip, dt: int)
    requires
        i64::MIN <= a.offset + dt <= i64::MAX,
        i64::MIN <= b.offset + dt <= i64::MAX,
    ensures
        shifted(b, dt).offset - shifted(a, dt).offset == b.offset - a.offset,
{
}

/// The frame nearest to a time.
pub open spec fn nearest_frame(fps: Rate, t: int) -> int {
    crate::units::rounded(t * fps.num, fps.den * 1_000_000)
}

/// A time moved to the nearest frame.
pub open spec fn snapped(fps: Rate, t: int) -> int {
    fps.time_of(nearest_frame(fps, t))
}

/// Moves a time to the nearest frame, when a drag ends.
pub fn snap(fps: Rate, t: i64) -> (s: i64)
    requires
        fps.ok(),
        crate::arrange::in_limit(t as int),
    ensures
        s == snapped(fps, t as int),
{
    let n: i128 = fps.num as i128;
    let step: i128 = (fps.den as i128) * 1_000_000;
    proof {
        assert(-1_000_000_000_000_000_000 * 1_000_000_000_000 <= t * n <= 1_000_000_000_000_000_000
            * 1_000_000_000_000) by (nonlinear_arith)
            requires
                -1_000_000_000_000_000_000 <= t <= 1_000_000_000_000_000_000,
                0 < n <= 1_000_000_000_000,
        ;
    }
    let k: i128 = round_div((t as i128) * n, step);
    proof {
        lemma_snap_near(fps, t as int);
        crate::units::lemma_rounded_near(t * n, step as int);
        assert(-2_000_000_000_000_000_000_000_000_000_000 <= k * step
            <= 2_000_000_000_000_000_000_000_000_000_000) by (nonlinear_arith)
            requires
                -step <= 2 * (t * n - k * step) <= step,
                -1_000_000_000_000_000_000 * 1_000_000_000_000 <= t * n <= 1_000_000_000_000_000_000
                    * 1_000_000_000_000,
                0 < step <= 1_000_000_000_000_000_000,
        ;
    }
    round_div(k * step, n) as i64
}

/// A snapped time is at most half a frame away, but for the rounding.
pub proof fn lemma_snap_near(fps: Rate, t: int)
    requires
        fps.ok(),
    ensures
        2 * (crate::units::size(snapped(fps, t) - t) * fps.num) <= fps.den * 1_000_000 + fps.num,
        -1_000_000_000_001 <= snapped(fps, t) - t <= 1_000_000_000_001,
{
    let n = fps.num as int;
    let step = fps.den * 1_000_000;
    let k = nearest_frame(fps, t);
    let s = snapped(fps, t);
    crate::units::lemma_rounded_near(t * n, step);
    crate::units::lemma_rounded_near(k * step, n);
    let d = s - t;
    assert(-(step + n) <= 2 * (d * n) <= step + n) by (nonlinear_arith)
        requires
            -step <= 2 * (t * n - k * step) <= step,
            -n <= 2 * (k * step - s * n) <= n,
            d == s - t,
    ;
    assert(2 * (crate::units::size(d) * n) <= step + n) by (nonlinear_arith)
        requires
            -(step + n) <= 2 * (d * n) <= step + n,
            crate::units::size(d) == if d < 0 {
                -d
            } else {
                d
            },
    ;
    assert(-1_000_000_000_001 <= d <= 1_000_000_000_001) by (nonlinear_arith)
        requires
            -(step + n) <= 2 * (d * n) <= step + n,
            0 < step <= 1_000_000_000_000 * n,
            n > 0,
    ;
}

/// A time on the frame grid stays there.
pub proof fn lemma_snap_stays(fps: Rate, t: int)
    requires
        fps.ok(),
    ensures
        snapped(fps, snapped(fps, t)) == snapped(fps, t),
{
    let n = fps.num as int;
    let step = fps.den * 1_000_000;
    let k = nearest_frame(fps, t);
    let s = snapped(fps, t);
    let r = nearest_frame(fps, s);
    crate::units::lemma_rounded_near(k * step, n);
    crate::units::lemma_rounded_near(s * n, step);
    assert(k == r) by (nonlinear_arith)
        requires
            -n <= 2 * (k * step - s * n) <= n,
            -step <= 2 * (s * n - r * step) <= step,
            0 < n < step,
    ;
}

// ---------------------------------------------------------------- times

/// Minutes and seconds with two places: `03:07.25`.
pub open spec fn time_text(t: int) -> Seq<char> {
    let u = if t < 0 {
        0
    } else {
        t
    };
    let m = u / 60_000_000;
    let c = crate::units::even_rounded(u % 60_000_000, 10_000);
    (if m < 100 {
        crate::text::padded(m as nat, 2)
    } else {
        crate::text::decimal(m as nat)
    }) + ":"@ + crate::text::padded((c / 100) as nat, 2) + "."@ + crate::text::padded((c % 100) as nat, 2)
}

/// Minutes and seconds with two places.
pub fn fmt_time(t: i64) -> (s: String)
    ensures
        s@ == time_text(t as int),
{
    let u: u64 = if t < 0 {
        0
    } else {
        t as u64
    };
    let m: u64 = u / 60_000_000;
    let rest: i128 = (u % 60_000_000) as i128;
    let c: i128 = crate::units::round_even(rest, 10_000);
    proof {
        crate::units::lemma_even_near(rest as int, 10_000);
    }
    let minutes: String = if m < 100 {
        padded_text(m, 2)
    } else {
        number_text(m)
    };
    let a: String = padded_text((c / 100) as u64, 2);
    let b: String = padded_text((c % 100) as u64, 2);
    let head: String = join3(minutes.as_str(), ":", a.as_str());
    let s: String = join3(head.as_str(), ".", b.as_str());
    assert(s@ =~= time_text(t as int));
    s
}

/// A project's clips with one of them moved, or all clips of its camera, by a drag;
/// `false` and no change where a clip would leave the range of times.
pub fn drag_clip(project: &mut Project, cam: usize, k: usize, dt: i64, all: bool) -> (moved: bool)
    requires
        cam < old(project).cameras@.len(),
        k < old(project).cameras@[cam as int].clips@.len(),
        old(project).times_ok(),
        crate::arrange::in_limit(dt as int),
    ensures
        final(project).times_ok(),
        crate::app::only_cameras(*final(project), *old(project)),
        final(project).cameras@[cam as int] == (crate::model::Camera {
            clips: final(project).cameras@[cam as int].clips,
            ..old(project).cameras@[cam as int]
        }),
        forall|c: int|
            0 <= c < old(project).cameras@.len() && c != cam ==> #[trigger] final(project).cameras@[c]
                == old(project).cameras@[c],
        ({
            let was = old(project).cameras@[cam as int].clips@;
            let is_now = final(project).cameras@[cam as int].clips@;
            &&& is_now.len() == was.len()
            &&& moved ==> forall|i: int|
                0 <= i < was.len() ==> #[trigger] is_now[i] == if all || i == k {
                    shifted(was[i], dt as int)
                } else {
                    was[i]
                }
            &&& !moved ==> is_now == was && exists|i: int|
                0 <= i < was.len() && (all || i == k) && !crate::arrange::in_limit(
                    (#[trigger] was[i]).offset + dt,
                )
        }),
{
    let ghost before = project.cameras@;
    let mut camera: crate::model::Camera = crate::model::Camera::default();
    std::mem::swap(&mut project.cameras[cam], &mut camera);
    let ghost was = camera.clips@;
    assert(was == before[cam as int].clips@);
    assert(crate::model::clip_times_ok(before[cam as int].clips@));
    let fits: bool = shift_fits(&camera.clips, k, dt, all);
    if fits {
        if all {
            proof {
                assert forall|i: int| 0 <= i < was.len() implies i64::MIN <= (#[trigger] was[i]).offset + dt
                    <= i64::MAX by {
                    assert(was[i].times_ok());
                }
            }
            shift_clips(&mut camera.clips, dt);
        } else {
            assert(was[k as int].times_ok());
            nudge_clip(&mut camera.clips, k, dt);
        }
    }
    let ghost now_clips = camera.clips@;
    std::mem::swap(&mut project.cameras[cam], &mut camera);
    proof {
        assert(project.cameras@[cam as int].clips@ == now_clips);
        assert forall|c: int| 0 <= c < project.cameras@.len() implies crate::model::clip_times_ok(
            #[trigger] project.cameras@[c].clips@,
        ) by {
            if c != cam {
                assert(project.cameras@[c] == before[c]);
                assert(crate::model::clip_times_ok(before[c].clips@));
            } else {
                assert forall|i: int| 0 <= i < now_clips.len() implies (#[trigger] now_clips[i]).times_ok() by {
                    assert(was[i].times_ok());
                }
            }
        }
    }
    fits
}

/// Moves a clip to the frame grid when its drag ends, as far as the range of times
/// goes.
pub fn drop_clip(project: &mut Project, cam: usize, k: usize)
    requires
        cam < old(project).cameras@.len(),
        k < old(project).cameras@[cam as int].clips@.len(),
        old(project).times_ok(),
        old(project).output.fps.ok(),
    ensures
        final(project).times_ok(),
        crate::app::only_cameras(*final(project), *old(project)),
        final(project).cameras@[cam as int] == (crate::model::Camera {
            clips: final(project).cameras@[cam as int].clips,
            ..old(project).cameras@[cam as int]
        }),
        forall|c: int|
            0 <= c < old(project).cameras@.len() && c != cam ==> #[trigger] final(project).cameras@[c]
                == old(project).cameras@[c],
        ({
            let was = old(project).cameras@[cam as int].clips@;
            let t = was[k as int].offset as int;
            final(project).cameras@[cam as int].clips@ == was.update(
                k as int,
                (Clip {
                    offset: crate::units::clamped(
                        snapped(old(project).output.fps, t),
                        -TIME_LIMIT as int,
                        TIME_LIMIT as int,
                    ) as i64,
                    ..was[k as int]
                }),
            )
        }),
{
    let ghost before = project.cameras@;
    let fps: Rate = project.output.fps;
    let mut camera: crate::model::Camera = crate::model::Camera::default();
    std::mem::swap(&mut project.cameras[cam], &mut camera);
    let ghost was = camera.clips@;
    proof {
        assert(was == before[cam as int].clips@);
        assert(crate::model::clip_times_ok(before[cam as int].clips@));
        assert(was[k as int].times_ok());
        lemma_snap_near(fps, was[k as int].offset as int);
    }
    let t: i64 = crate::units::clamp(snap(fps, camera.clips[k].offset), -TIME_LIMIT, TIME_LIMIT);
    camera.clips[k].offset = t;
    let ghost now_clips = camera.clips@;
    std::mem::swap(&mut project.cameras[cam], &mut camera);
    proof {
        assert(project.cameras@[cam as int].clips@ == now_clips);
        assert forall|c: int| 0 <= c < project.cameras@.len() implies crate::model::clip_times_ok(
            #[trigger] project.cameras@[c].clips@,
        ) by {
            if c != cam {
                assert(project.cameras@[c] == before[c]);
                assert(crate::model::clip_times_ok(before[c].clips@));
            } else {
                assert forall|i: int| 0 <= i < now_clips.len() implies (#[trigger] now_clips[i]).times_ok() by {
                    assert(was[i].times_ok());
                }
            }
        }
    }
}

/// Whether the moved clips stay in the range of times.
fn shift_fits(clips: &Vec<Clip>, k: usize, dt: i64, all: bool) -> (b: bool)
    requires
        k < clips@.len(),
        crate::model::clip_times_ok(clips@),
        crate::arrange::in_limit(dt as int),
    ensures
        b == forall|i: int|
            0 <= i < clips@.len() && (all || i == k) ==> crate::arrange::in_limit(
                (#[trigger] clips@[i]).offset + dt,
            ),
{
    let mut i: usize = 0;
    while i < clips.len()
        invariant
            i <= clips@.len(),
            crate::model::clip_times_ok(clips@),
            crate::arrange::in_limit(dt as int),
            forall|j: int|
                0 <= j < i && (all || j == k) ==> crate::arrange::in_limit(
                    (#[trigger] clips@[j]).offset + dt,
                ),
        decreases clips@.len() - i,
    {
        assert(clips@[i as int].times_ok());
        let t: i64 = clips[i].offset + dt;
        if (all || i == k) && (t < -TIME_LIMIT || t > TIME_LIMIT) {
            assert(!crate::arrange::in_limit(clips@[i as int].offset + dt));
            return false;
        }
        i = i + 1;
    }
    true
}

} // verus!
