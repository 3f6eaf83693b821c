//! The timeline on screen, the keys, and the slots of the preview.

use crate::layout::FULL;
use crate::model::{Clip, Rate, Slot};
use crate::preview::{camera_of, dragged, scrolled, zoom_text};
use crate::text::{decimal, padded};
use crate::timeline::{
    at_least_ten, block_of, first_mark, percent_text, ruler_steps, sample_at, time_text, wide_enough,
    Timeline, Wheel,
};
use crate::transport::{actions_of, on_timeline, KeyAction, Keys};
use crate::units::{
    clamped, even_rounded, lemma_even_near, lemma_rounded_grows, lemma_rounded_near, lemma_rounded_whole,
    rounded, size,
};
use vstd::prelude::*;

verus! {

// ---------------------------------------------------------------- times on screen

/// The left edge of the timeline is the start of the stretch, the right edge its end,
/// and what is further right is later.
pub proof fn lemma_edges_are_start_and_end(v: Timeline, x: int, y: int, t: int, u: int, width: int)
    requires
        width > 0,
        v.end - v.start >= 10_000,
        x <= y,
        t <= u,
    ensures
        v.time_at(0, width) == v.start,
        v.time_at(width, width) == v.end,
        v.place_of(v.start as int, width) == 0,
        v.place_of(v.end as int, width) == width,
        v.time_at(x, width) <= v.time_at(y, width),
        v.place_of(t, width) <= v.place_of(u, width),
{
    let span = v.span_of();
    assert(0 * span == 0 && 0 * width == 0);
    assert(width * span == span * width) by (nonlinear_arith);
    lemma_rounded_whole(0, width);
    lemma_rounded_whole(span, width);
    lemma_rounded_whole(0, span);
    lemma_rounded_whole(width, span);
    assert(x * span <= y * span && (t - v.start) * width <= (u - v.start) * width) by (nonlinear_arith)
        requires
            x <= y,
            t <= u,
            span > 0,
            width > 0,
    ;
    lemma_rounded_grows(x * span, y * span, width);
    lemma_rounded_grows((t - v.start) * width, (u - v.start) * width, span);
}

/// At first the whole recording is shown, ten seconds at least, and a fiftieth more.
pub proof fn lemma_first_view_shows_everything(duration: int)
    ensures
        at_least_ten(duration) >= duration,
        at_least_ten(duration) >= 10_000_000,
        at_least_ten(duration) == duration || at_least_ten(duration) == 10_000_000,
        rounded(at_least_ten(duration) * 102, 100) > at_least_ten(duration),
        2 * size(50 * (rounded(at_least_ten(duration) * 102, 100) - at_least_ten(duration)) - at_least_ten(duration))
            <= 50,
{
    lemma_rounded_near(at_least_ten(duration) * 102, 100);
}

/// Panning moves what is shown with the wheel: what lay at `x` lies `dx` further right
/// afterwards, to a microsecond.
pub proof fn lemma_pan_carries_the_picture(v: Timeline, w: Timeline, x: int, dx: int, width: int)
    requires
        width > 0,
        v.end - v.start >= 10_000,
        (w.start as int, w.end as int) == v.panned(dx, width),
    ensures
        w.end - w.start == v.end - v.start,
        -1 <= w.time_at(x + dx, width) - v.time_at(x, width) <= 1,
{
    let span = v.span_of();
    let dt = rounded(-dx * span, width);
    let a = rounded(x * span, width);
    let b = rounded((x + dx) * span, width);
    lemma_rounded_near(-dx * span, width);
    lemma_rounded_near(x * span, width);
    lemma_rounded_near((x + dx) * span, width);
    let e = dt + b - a;
    assert(-1 <= e <= 1) by (nonlinear_arith)
        requires
            -width <= 2 * (-dx * span - dt * width) <= width,
            -width <= 2 * (x * span - a * width) <= width,
            -width <= 2 * ((x + dx) * span - b * width) <= width,
            e == dt + b - a,
            width > 0,
    ;
}

/// Turning the wheel up shows less, turning it down more: by three thousandths for every
/// pixel, at most to half or double, never less than half a second, never more than four
/// times the recording.
pub proof fn lemma_wheel_zooms_by_its_turn(v: Timeline, y: int, z: int, duration: int)
    requires
        v.ok(),
        y <= z,
    ensures
        500_000 <= v.zoomed_span(y, duration) <= 4 * at_least_ten(duration),
        v.zoomed_span(z, duration) <= v.zoomed_span(y, duration),
        y >= 0 && v.span_of() >= 500_000 ==> v.zoomed_span(y, duration) <= v.span_of(),
        y <= 0 && v.span_of() <= 4 * at_least_ten(duration) ==> v.zoomed_span(y, duration) >= v.span_of(),
        2 * v.zoomed_span(y, duration) + 1 >= v.span_of() || v.zoomed_span(y, duration) == 4 * at_least_ten(duration),
        v.zoomed_span(y, duration) <= 2 * v.span_of() || v.zoomed_span(y, duration) == 500_000,
        500_000 < v.zoomed_span(y, duration) < 4 * at_least_ten(duration) && -333_333 <= y <= 166_666 ==> 2 * size(
            v.zoomed_span(y, duration) * 1_000_000 - v.span_of() * (1_000_000 - 3 * y),
        ) <= 1_000_000,
{
    let span = v.span_of();
    let f = clamped(1_000_000 - 3 * y, 500_000, 2_000_000);
    let g = clamped(1_000_000 - 3 * z, 500_000, 2_000_000);
    assert(span * g <= span * f && span * 500_000 <= span * f <= span * 2_000_000) by (nonlinear_arith)
        requires
            span > 0,
            g <= f,
            500_000 <= f <= 2_000_000,
    ;
    if y >= 0 {
        assert(span * f <= span * 1_000_000) by (nonlinear_arith)
            requires
                span > 0,
                f <= 1_000_000,
        ;
        lemma_rounded_grows(span * f, span * 1_000_000, 1_000_000);
    }
    if y <= 0 {
        assert(span * f >= span * 1_000_000) by (nonlinear_arith)
            requires
                span > 0,
                f >= 1_000_000,
        ;
        lemma_rounded_grows(span * 1_000_000, span * f, 1_000_000);
    }
    lemma_rounded_whole(span, 1_000_000);
    lemma_rounded_whole(2 * span, 1_000_000);
    lemma_rounded_grows(span * g, span * f, 1_000_000);
    lemma_rounded_near(span * f, 1_000_000);
    lemma_rounded_grows(span * f, span * 2_000_000, 1_000_000);
}

/// A key shows three quarters of the stretch, or five quarters, to a microsecond and a
/// millionth.
pub proof fn lemma_keys_zoom_by_a_quarter(v: Timeline, duration: int)
    requires
        v.ok(),
    ensures
        Timeline::key_turn(true).zoom && Timeline::key_turn(false).zoom,
        Timeline::key_turn(true).y > 0 > Timeline::key_turn(false).y,
        Timeline::key_turn(true).pointer is None && Timeline::key_turn(false).pointer is None,
        ({
            let s = v.zoomed_span(Timeline::key_turn(true).y as int, duration);
            500_000 < s < 4 * at_least_ten(duration) ==> 2 * size(s * 1_000_000 - v.span_of() * 750_001) <= 1_000_000
        }),
        ({
            let s = v.zoomed_span(Timeline::key_turn(false).y as int, duration);
            500_000 < s < 4 * at_least_ten(duration) ==> 2 * size(s * 1_000_000 - v.span_of() * 1_249_999)
                <= 1_000_000
        }),
{
    lemma_wheel_zooms_by_its_turn(v, 83_333, 83_333, duration);
    lemma_wheel_zooms_by_its_turn(v, -83_333, -83_333, duration);
}

/// Two fingers that move apart by a factor shorten the stretch by it: the wheel's turn
/// and the factor cancel out, but for the rounding.
pub proof fn lemma_pinch_divides_the_stretch(factor: int, pointer: Option<i64>)
    requires
        500_000 <= factor <= 2_000_000,
    ensures
        ({
            let w = Timeline::pinch_turn(factor, pointer);
            &&& w.zoom && w.pointer == pointer
            &&& 2 * size((1_000_000 - 3 * w.y) * factor - 1_000_000 * 1_000_000) <= 3 * factor
            &&& factor > 1_000_000 + 3 ==> w.y > 0
            &&& factor == 1_000_000 ==> w.y == 0
            &&& factor < 1_000_000 - 3 ==> w.y < 0
        }),
{
    let n = (factor - 1_000_000) * 1_000_000;
    let q = rounded(n, 3 * factor);
    lemma_rounded_near(n, 3 * factor);
    assert(-1_000_000 <= q <= 1_000_000) by (nonlinear_arith)
        requires
            -(3 * factor) <= 2 * (n - q * (3 * factor)) <= 3 * factor,
            n == (factor - 1_000_000) * 1_000_000,
            500_000 <= factor <= 2_000_000,
    ;
    assert((1_000_000 - 3 * q) * factor == 1_000_000 * factor - q * (3 * factor)) by (nonlinear_arith);
    if factor == 1_000_000 {
        assert(0 * (3 * factor) == 0);
        lemma_rounded_whole(0, 3 * factor);
    }
    if factor > 1_000_003 {
        assert(q > 0) by (nonlinear_arith)
            requires
                2 * (n - q * (3 * factor)) <= 3 * factor,
                n >= 4_000_000,
                n == (factor - 1_000_000) * 1_000_000,
                factor <= 2_000_000,
        ;
    }
    if factor < 999_997 {
        assert(q < 0) by (nonlinear_arith)
            requires
                -(3 * factor) <= 2 * (n - q * (3 * factor)),
                n <= -4_000_000,
                n == (factor - 1_000_000) * 1_000_000,
                0 < factor <= 2_000_000,
        ;
    }
}

/// What a turn of the wheel does: with the zoom key its vertical turn zooms; without, its
/// sideways turn pans, or its vertical one with shift held. Nothing else moves the stretch.
pub proof fn lemma_what_the_wheel_does(v: Timeline, w: Wheel, playhead: int, duration: int, width: int)
    requires
        v.end - v.start >= 10_000,
        width > 0,
    ensures
        w.zoom && w.y == 0 ==> v.turned(w, playhead, duration, width) == (v.start as int, v.end as int),
        w.zoom && w.y != 0 && w.pointer is None ==> v.turned(w, playhead, duration, width) == v.zoomed(
            w.y as int,
            playhead,
            duration,
        ),
        !w.zoom && w.x == 0 && !w.shift ==> v.turned(w, playhead, duration, width) == (v.start as int, v.end as int),
        !w.zoom && w.x != 0 ==> v.turned(w, playhead, duration, width) == v.panned(w.x as int, width),
        !w.zoom && w.x == 0 && w.shift ==> v.turned(w, playhead, duration, width) == v.panned(w.y as int, width),
{
    let span = v.span_of();
    assert(-0 * span == 0);
    lemma_rounded_whole(0, width);
}

/// The stretch never starts earlier than a tenth of its length before the recording; a
/// turn of the wheel that stays behind that is done as it is, and the length is kept
/// either way.
pub proof fn lemma_wheel_stays_near_the_recording(v: Timeline, w: Wheel, playhead: int, duration: int, width: int)
    ensures
        ({
            let (s, e) = v.turned(w, playhead, duration, width);
            let (a, b) = v.wheeled(w, playhead, duration, width);
            &&& 10 * a + v.span_of() >= -5
            &&& b - a == e - s
            &&& 10 * s + v.span_of() >= 5 ==> a == s
            &&& a == s || (a > s && 10 * a + v.span_of() <= 5)
        }),
{
    lemma_rounded_near(-v.span_of(), 10);
}

/// The ruler's steps get longer, from a tenth of a second to ten minutes, each at most
/// two and a half times the one before.
pub proof fn lemma_ruler_steps_go_up(k: int)
    requires
        0 <= k < 12,
    ensures
        ruler_steps().len() == 13,
        ruler_steps()[0] == 100_000,
        ruler_steps()[12] == 600_000_000,
        ruler_steps()[k] < ruler_steps()[k + 1],
        2 * ruler_steps()[k + 1] <= 5 * ruler_steps()[k],
{
}

/// Marks that are wide enough lie seventy pixels apart on screen.
pub proof fn lemma_marks_leave_room(v: Timeline, t: int, step: int, width: int)
    requires
        width > 0,
        wide_enough(step, v.span_of(), width),
    ensures
        v.place_of(t + step, width) - v.place_of(t, width) >= 70_000 - 1,
{
    let span = v.span_of();
    let a = v.place_of(t, width);
    let b = v.place_of(t + step, width);
    lemma_rounded_near((t - v.start) * width, span);
    lemma_rounded_near((t + step - v.start) * width, span);
    let d = b - a;
    assert(d >= 70_000 - 1) by (nonlinear_arith)
        requires
            -span <= 2 * ((t - v.start) * width - a * span) <= span,
            -span <= 2 * ((t + step - v.start) * width - b * span) <= span,
            step * width >= 70_000 * span,
            d == b - a,
            span > 0,
    ;
}

/// The first mark is a multiple of the step, at the start or less than a step before.
pub proof fn lemma_first_mark(start: int, step: int)
    requires
        step > 0,
    ensures
        first_mark(start, step) <= start < first_mark(start, step) + step,
        first_mark(start, step) % step == 0,
{
    vstd::arithmetic::div_mod::lemma_fundamental_div_mod(start, step);
    vstd::arithmetic::div_mod::lemma_mod_bound(start, step);
    assert(step * (start / step) == (start / step) * step) by (nonlinear_arith);
    vstd::arithmetic::div_mod::lemma_mod_multiples_basic(start / step, step);
}

/// The samples of a column start with the one that sounds at its left edge: eight
/// thousand of them are a second.
pub proof fn lemma_column_starts_with_its_sample(v: Timeline, c: int, width: int, len: int)
    requires
        0 <= len,
    ensures
        ({
            let t = v.time_at(c * 1000, width);
            let k = sample_at(v, c, width, len);
            &&& 0 <= k <= len
            &&& 0 <= t && t * 8000 < len * 1_000_000 ==> k * 1_000_000 <= t * 8000 < (k + 1) * 1_000_000
            &&& t < 0 ==> k == 0
            &&& t * 8000 >= len * 1_000_000 ==> k == len
        }),
{
}

/// A clip's block lies on screen. Where all of it does, it goes from the clip's start to
/// the clip's end.
pub proof fn lemma_block_is_the_clip(v: Timeline, clip: Clip, width: int)
    requires
        width > 0,
        v.end - v.start >= 10_000,
    ensures
        block_of(v, clip, width).0 >= 0,
        block_of(v, clip, width).1 <= width,
        v.start <= clip.offset ==> block_of(v, clip, width).0 == v.place_of(clip.offset as int, width),
        clip.offset <= v.start ==> block_of(v, clip, width).0 == 0,
        clip.offset + clip.duration <= v.end ==> block_of(v, clip, width).1 == v.place_of(
            clip.offset + clip.duration,
            width,
        ),
        clip.offset + clip.duration >= v.end ==> block_of(v, clip, width).1 == width,
{
    let a = clip.offset as int;
    let b = clip.offset + clip.duration;
    if v.start <= a {
        lemma_edges_are_start_and_end(v, 0, 0, v.start as int, a, width);
    } else {
        lemma_edges_are_start_and_end(v, 0, 0, a, v.start as int, width);
    }
    if b <= v.end {
        lemma_edges_are_start_and_end(v, 0, 0, b, v.end as int, width);
    } else {
        lemma_edges_are_start_and_end(v, 0, 0, v.end as int, b, width);
    }
}

/// A confidence is shown in whole percent, the nearest.
pub proof fn lemma_percent_is_near(c: u32)
    ensures
        exists|q: int|
            #![trigger decimal(q as nat)]
            q >= 0 && percent_text(Some(c)) == decimal(q as nat) + "%"@ && 2 * size(q * 10_000 - c) <= 10_000,
        percent_text(None).len() == 0,
{
    let q = even_rounded(c as int, 10_000);
    lemma_even_near(c as int, 10_000);
    assert(percent_text(Some(c)) == decimal(q as nat) + "%"@);
}

/// A time is shown as minutes, seconds and hundredths that add up to it, to the nearest
/// hundredth; before the start it is shown as zero.
pub proof fn lemma_time_adds_up(t: int)
    requires
        0 <= t,
    ensures
        exists|m: int, s: int, c: int|
            #![trigger padded(m as nat, 2), padded(s as nat, 2), padded(c as nat, 2)]
            {
                &&& 0 <= m && 0 <= s <= 60 && 0 <= c < 100
                &&& 2 * size(m * 60_000_000 + s * 1_000_000 + c * 10_000 - t) <= 10_000
                &&& m < 100 ==> time_text(t) == padded(m as nat, 2) + ":"@ + padded(s as nat, 2) + "."@ + padded(
                    c as nat,
                    2,
                )
                &&& m >= 100 ==> time_text(t) == decimal(m as nat) + ":"@ + padded(s as nat, 2) + "."@ + padded(
                    c as nat,
                    2,
                )
            },
        time_text(-t) == time_text(0),
{
    let m = t / 60_000_000;
    let rest = t % 60_000_000;
    let h = even_rounded(rest, 10_000);
    lemma_even_near(rest, 10_000);
    let s = h / 100;
    let c = h % 100;
    assert(2 * size(m * 60_000_000 + s * 1_000_000 + c * 10_000 - t) <= 10_000);
    let (a, b, d) = (padded(m as nat, 2), padded(s as nat, 2), padded(c as nat, 2));
    assert(m < 100 ==> time_text(t) == a + ":"@ + b + "."@ + d);
}

// ---------------------------------------------------------------- keys

/// A seek goes where it is asked to, or else to the nearer end of the timeline.
pub proof fn lemma_seek_goes_to_the_nearest(t: int, duration: int, u: int)
    requires
        0 <= u <= duration,
    ensures
        0 <= on_timeline(t, duration) <= duration,
        size(on_timeline(t, duration) - t) <= size(u - t),
{
}

/// No key is pressed.
pub open spec fn untouched_keys() -> Keys {
    Keys {
        space: false,
        left: false,
        right: false,
        home: false,
        end: false,
        key_i: false,
        key_o: false,
        key_s: false,
        shift: false,
        command: false,
        typing: false,
    }
}

/// What each key does by itself: the arrows go back and on, by one frame or, with shift,
/// by a second; home and end go to the start and the end; `I` and `O` mark the time that
/// is shown.
pub proof fn lemma_what_each_key_does(t: int, duration: int, fps: Rate, shift: bool)
    requires
        0 <= t <= duration <= i64::MAX,
    ensures
        ({
            let none = untouched_keys();
            let step = if shift {
                1_000_000
            } else {
                fps.time_of(1)
            };
            &&& actions_of(none, t, duration, fps).len() == 0
            &&& actions_of(Keys { space: true, shift, ..none }, t, duration, fps) =~= seq![KeyAction::Toggle]
            &&& actions_of(Keys { home: true, shift, ..none }, t, duration, fps) =~= seq![KeyAction::Seek { t: 0 }]
            &&& actions_of(Keys { end: true, shift, ..none }, t, duration, fps) =~= seq![
                KeyAction::Seek { t: duration as i64 },
            ]
            &&& actions_of(Keys { key_i: true, shift, ..none }, t, duration, fps) =~= seq![
                KeyAction::SetIn { t: t as i64 },
            ]
            &&& actions_of(Keys { key_o: true, shift, ..none }, t, duration, fps) =~= seq![
                KeyAction::SetOut { t: t as i64 },
            ]
            &&& 0 <= step <= t ==> actions_of(Keys { left: true, shift, ..none }, t, duration, fps) =~= seq![
                KeyAction::Seek { t: (t - step) as i64 },
            ]
            &&& 0 <= step <= duration - t ==> actions_of(Keys { right: true, shift, ..none }, t, duration, fps)
                =~= seq![KeyAction::Seek { t: (t + step) as i64 }]
            &&& actions_of(Keys { key_s: true, shift, ..none }, t, duration, fps).len() == 0
            &&& actions_of(Keys { key_s: true, command: true, shift, ..none }, t, duration, fps) =~= seq![
                KeyAction::Save,
            ]
        }),
{
}

/// Whoever types into a text field does not move the player.
pub proof fn lemma_typing_owns_the_keyboard(k: Keys, t: int, duration: int, fps: Rate)
    requires
        k.typing,
    ensures
        actions_of(k, t, duration, fps).len() == 0,
{
}

// ---------------------------------------------------------------- slots

/// A slot shows the camera that it names; there are three.
pub proof fn lemma_slot_shows_its_camera(s: Slot)
    ensures
        s.camera < 3 ==> camera_of(s) == s.camera,
        0 <= camera_of(s) < 3,
{
}

/// The picture follows the pointer: dragging right or down shows what was further left or
/// up, a drag across the whole slot moves it by all that is seen, no drag moves nothing,
/// and the pan stays within half of the picture.
pub proof fn lemma_picture_follows_the_pointer(pan: int, d: int, half: int, extent: int, screen: int)
    requires
        -500_000 <= pan <= 500_000,
        half >= 0,
        0 < extent,
        0 < screen,
    ensures
        -500_000 <= dragged(pan, d, half, extent, screen) <= 500_000,
        d >= 0 ==> dragged(pan, d, half, extent, screen) <= pan,
        d <= 0 ==> dragged(pan, d, half, extent, screen) >= pan,
        d == 0 ==> dragged(pan, d, half, extent, screen) == pan,
        d * FULL == extent * screen && pan - 2 * half >= -500_000 ==> dragged(pan, d, half, extent, screen) == pan - 2
            * half,
        -d * FULL == extent * screen && pan + 2 * half <= 500_000 ==> dragged(pan, d, half, extent, screen) == pan + 2
            * half,
{
    let e = extent * screen;
    assert(e > 0) by (nonlinear_arith)
        requires
            e == extent * screen,
            extent > 0,
            screen > 0,
    ;
    let n = d * (2 * half) * FULL;
    assert(d * (2 * half) * FULL == (2 * half) * (d * FULL) && -d * FULL == -(d * FULL)) by (nonlinear_arith);
    assert((d >= 0 ==> n >= 0) && (d <= 0 ==> n <= 0)) by (nonlinear_arith)
        requires
            n == d * (2 * half) * FULL,
            half >= 0,
            FULL > 0,
    ;
    assert(0 * e == 0);
    lemma_rounded_whole(0, e);
    if n >= 0 {
        lemma_rounded_grows(0, n, e);
    }
    if n <= 0 {
        lemma_rounded_grows(n, 0, e);
    }
    if d * FULL == e {
        lemma_rounded_whole(2 * half, e);
    }
    if d * FULL == -e {
        assert((2 * half) * (-e) == (-2 * half) * e) by (nonlinear_arith);
        lemma_rounded_whole(-2 * half, e);
    }
}

/// Turning the wheel up zooms in, down out: by two thousandths for every pixel, so that
/// half a thousand pixels double the zoom; between cover-fit and four times that.
pub proof fn lemma_wheel_zooms_the_slot(zoom: int, a: int, b: int)
    requires
        1_000_000 <= zoom <= 4_000_000,
        a <= b,
    ensures
        1_000_000 <= scrolled(zoom, a) <= scrolled(zoom, b) <= 4_000_000,
        scrolled(zoom, 0) == zoom,
        zoom <= 2_000_000 ==> scrolled(zoom, 500_000) == 2 * zoom,
        zoom >= 2_000_000 ==> scrolled(zoom, 500_000) == 4_000_000,
        1_000_000 < scrolled(zoom, a) < 4_000_000 ==> 2 * size(
            1_000_000 * (scrolled(zoom, a) - zoom) - 2 * (zoom * a),
        ) <= 1_000_000,
{
    assert(zoom * (1_000_000 + 2 * a) <= zoom * (1_000_000 + 2 * b)) by (nonlinear_arith)
        requires
            zoom > 0,
            a <= b,
    ;
    lemma_rounded_grows(zoom * (1_000_000 + 2 * a), zoom * (1_000_000 + 2 * b), 1_000_000);
    lemma_rounded_whole(zoom, 1_000_000);
    lemma_rounded_whole(2 * zoom, 1_000_000);
    assert(zoom * (1_000_000 + 2 * 500_000) == (2 * zoom) * 1_000_000) by (nonlinear_arith);
    lemma_rounded_near(zoom * (1_000_000 + 2 * a), 1_000_000);
    assert(zoom * (1_000_000 + 2 * a) == 1_000_000 * zoom + 2 * (zoom * a)) by (nonlinear_arith);
}

/// A zoom is shown in hundredths, the nearest; none is shown at cover-fit.
pub proof fn lemma_zoom_is_shown(zoom: int)
    requires
        1_000_000 <= zoom,
    ensures
        zoom <= 1_001_000 ==> zoom_text(zoom).len() == 0,
        zoom > 1_001_000 ==> exists|w: int, c: int|
            #![trigger decimal(w as nat), padded(c as nat, 2)]
            {
                &&& 0 <= w && 0 <= c < 100
                &&& zoom_text(zoom) == "  "@ + decimal(w as nat) + "."@ + padded(c as nat, 2) + "x"@
                &&& 2 * size(w * 1_000_000 + c * 10_000 - zoom) <= 10_000
            },
{
    if zoom > 1_001_000 {
        let h = even_rounded(zoom, 10_000);
        lemma_even_near(zoom, 10_000);
        let (w, c) = (h / 100, h % 100);
        assert(2 * size(w * 1_000_000 + c * 10_000 - zoom) <= 10_000);
        assert(zoom_text(zoom) == "  "@ + decimal(w as nat) + "."@ + padded(c as nat, 2) + "x"@);
    }
}

/// Rows of a picture that is read back start at multiples of 256 bytes, the next one
/// behind the row's own bytes.
pub proof fn lemma_rows_are_aligned(width: int)
    requires
        width >= 0,
    ensures
        crate::compose::row_pitch(width) % 256 == 0,
        width * 4 <= crate::compose::row_pitch(width) < width * 4 + 256,
{
}

/// What is composed of a slot is its own place in the layout, with the zoom, the pan and
/// the camera that it was given.
pub proof fn lemma_slots_are_composed_as_they_are(p: crate::model::Project, k: int)
    requires
        0 <= k < 3,
        p.slots@[k].camera < 3,
    ensures
        ({
            let s = crate::compose::slot_data(p, k);
            &&& s.rect == crate::layout::rects(p.layout)[k]
            &&& s.camera == p.slots@[k].camera
            &&& s.zoom == p.slots@[k].zoom
            &&& s.pan == p.slots@[k].pan
        }),
{
}

/// The original is shown without any grade; else every camera has its own.
pub proof fn lemma_original_has_no_grade(p: crate::model::Project, c: int)
    requires
        0 <= c < p.cameras@.len(),
    ensures
        crate::compose::grade_at(p, c, true) == crate::model::Grade::neutral(),
        crate::compose::grade_at(p, c, false) == p.cameras@[c].grade,
        crate::model::Grade::neutral().exposure == 0,
        crate::model::Grade::neutral().contrast == 1_000_000,
        crate::model::Grade::neutral().saturation == 1_000_000,
        crate::model::Grade::neutral().temperature == 0,
        crate::model::Grade::neutral().tint == 0,
{
}

/// A text in a field keeps all its characters, at the end that it is set to, and is filled
/// with spaces to the field's width.
pub proof fn lemma_fields_keep_their_texts(s: Seq<char>, width: int, i: int)
    requires
        width >= 0,
    ensures
        ({
            let l = crate::text::left_in(s, width);
            let r = crate::text::right_in(s, width);
            let n = s.len() as int;
            &&& l.take(n) == s && r.skip(r.len() - n) == s
            &&& l.len() == r.len() && l.len() >= n && l.len() >= width
            &&& n >= width ==> l == s && r == s
            &&& n <= i < l.len() ==> l[i] == ' '
            &&& 0 <= i < r.len() - n ==> r[i] == ' '
        }),
{
    let l = crate::text::left_in(s, width);
    let r = crate::text::right_in(s, width);
    let n = s.len() as int;
    assert(l.take(n) =~= s);
    assert(r.skip(r.len() - n) =~= s);
    if n >= width {
        assert(l =~= s);
        assert(r =~= s);
    }
}

/// A stretch of less than a hundredth of a second is drawn as one of that length.
pub proof fn lemma_stretch_has_a_length(v: Timeline)
    ensures
        v.end - v.start >= 10_000 ==> v.span_of() == v.end - v.start,
        v.end - v.start <= 10_000 ==> v.span_of() == 10_000,
{
}

} // verus!
