//! Which moments the automatic grade looks at, and what the slots show of a picture.

use crate::layout::{Rect, FULL};
use crate::model::{Clip, Project, Slot};
use crate::sampling::{
    best_cover, cover, covered, good_times, grab_time, grid_time, half_seen, job_list, sample_span, sampled,
    seen, slot_extent, source_extent, spread_index,
};
use crate::units::{lemma_rounded_grows, lemma_rounded_near, lemma_rounded_whole, rounded, size};
use vstd::prelude::*;

verus! {

/// The moments that are looked at are two hundred, as far from each other as from the
/// next, and the first and the last are a fiftieth of the stretch from its ends, all to a
/// microsecond or two.
pub proof fn lemma_grid_is_even(start: int, end: int, j: int, k: int)
    ensures
        size(50 * (grid_time(start, end, 0) - start) - (end - start)) <= 25,
        size(50 * (end - grid_time(start, end, 199)) - (end - start)) <= 25,
        size(
            (grid_time(start, end, j + 1) - grid_time(start, end, j)) - (grid_time(start, end, k + 1) - grid_time(
                start,
                end,
                k,
            )),
        ) <= 2,
{
    let d = end - start;
    lemma_rounded_near(d * (398 + 96 * 0), 19_900);
    lemma_rounded_near(d * (398 + 96 * 199), 19_900);
    lemma_rounded_near(d * (398 + 96 * j), 19_900);
    lemma_rounded_near(d * (398 + 96 * (j + 1)), 19_900);
    lemma_rounded_near(d * (398 + 96 * k), 19_900);
    lemma_rounded_near(d * (398 + 96 * (k + 1)), 19_900);
    assert(d * (398 + 96 * 0) == 398 * d && d * (398 + 96 * 199) == 19_502 * d) by (nonlinear_arith);
    assert(d * (398 + 96 * (j + 1)) - d * (398 + 96 * j) == 96 * d) by (nonlinear_arith);
    assert(d * (398 + 96 * (k + 1)) - d * (398 + 96 * k) == 96 * d) by (nonlinear_arith);
}

/// The cover of a moment is the number of cameras that have a clip then: all three of
/// them, or none.
pub proof fn lemma_cover_counts_cameras(project: Project, t: int)
    ensures
        0 <= cover(project, t, 3) <= 3,
        cover(project, t, 3) == 3 <==> covered(project, 0, t) && covered(project, 1, t) && covered(project, 2, t),
        cover(project, t, 3) == 0 <==> !covered(project, 0, t) && !covered(project, 1, t) && !covered(project, 2, t),
{
    reveal_with_fuel(cover, 4);
}

proof fn lemma_first_cover(clips: Seq<Clip>, t: int, k: int) -> (j: int)
    requires
        0 <= k < clips.len(),
        clips[k].covers(t),
    ensures
        0 <= j <= k,
        clips[j].covers(t),
        forall|i: int| 0 <= i < j ==> !(#[trigger] clips[i]).covers(t),
    decreases k,
{
    if exists|i: int| 0 <= i < k && (#[trigger] clips[i]).covers(t) {
        let i = choose|i: int| 0 <= i < k && (#[trigger] clips[i]).covers(t);
        lemma_first_cover(clips, t, i)
    } else {
        k
    }
}

/// A camera covers a moment where one of its clips is on.
pub proof fn lemma_camera_covers_by_a_clip(project: Project, c: int, t: int)
    requires
        0 <= c < project.cameras@.len(),
    ensures
        covered(project, c, t) <==> exists|k: int|
            0 <= k < project.cameras@[c].clips@.len() && (#[trigger] project.cameras@[c].clips@[k]).offset <= t
                && t < project.cameras@[c].clips@[k].offset + project.cameras@[c].clips@[k].duration,
{
    let clips = project.cameras@[c].clips@;
    if covered(project, c, t) {
        let k = choose|k: int| project.is_clip_at(c, t, k);
        assert(clips[k].covers(t));
    }
    if exists|k: int| 0 <= k < clips.len() && (#[trigger] clips[k]).offset <= t && t < clips[k].offset + clips[k].duration {
        let k = choose|k: int|
            0 <= k < clips.len() && (#[trigger] clips[k]).offset <= t && t < clips[k].offset + clips[k].duration;
        assert(clips[k].covers(t));
        let j = lemma_first_cover(clips, t, k);
        assert(project.is_clip_at(c, t, j));
    }
}

/// The samples lie in the export range where there is one, else on the timeline.
pub proof fn lemma_samples_lie_in_the_range(project: Project, count: int, i: int)
    requires
        crate::sampling::project_ok(project),
        count >= 0,
        0 <= i < sampled(project, count).len(),
    ensures
        project.range.start < project.range.end ==> project.range.start <= sampled(project, count)[i]
            <= project.range.end,
        project.range.start >= project.range.end ==> 0 <= sampled(project, count)[i] <= crate::model::cameras_end(
            project.cameras@,
            project.cameras@.len() as int,
        ),
        sampled(project, count).len() <= count,
{
    crate::sampling::lemma_samples_have_best_cover(project, count, i, i, 0);
}

/// Samples are spread over all the good moments, the first and the last of them
/// included; a single one is taken from the middle.
pub proof fn lemma_samples_spread_out(len: int, count: int)
    requires
        1 <= count <= len,
    ensures
        count > 1 ==> spread_index(len, count, 0) == 0,
        count > 1 ==> spread_index(len, count, count - 1) == len - 1,
        count == 1 ==> len - 1 <= 2 * spread_index(len, count, 0) <= len,
        count == len ==> forall|i: int| 0 <= i < len ==> count > 1 ==> #[trigger] spread_index(len, count, i) == i,
{
    if count > 1 {
        let d = count - 1;
        assert(0 * (len - 1) == 0);
        vstd::arithmetic::div_mod::lemma_div_multiples_vanish(len - 1, d);
        assert(0int / d == 0) by {
            vstd::arithmetic::div_mod::lemma_basic_div(0, d);
        }
        if count == len {
            assert forall|i: int| 0 <= i < len implies #[trigger] spread_index(len, count, i) == i by {
                vstd::arithmetic::div_mod::lemma_div_multiples_vanish(i, d);
                assert(i * d == d * i) by (nonlinear_arith);
            }
        }
    }
}

proof fn lemma_all_moments_are_good(project: Project, start: int, end: int, best: int, n: int)
    requires
        0 <= n <= 200,
        start < end,
        i64::MIN <= start,
        end <= i64::MAX,
        best > 0,
        forall|k: int| 0 <= k < 200 ==> cover(project, #[trigger] grid_time(start, end, k), 3) == best,
    ensures
        best_cover(project, start, end, n) == if n > 0 {
            best
        } else {
            0
        },
        good_times(project, start, end, best, n).len() == n,
        forall|i: int| 0 <= i < n ==> #[trigger] good_times(project, start, end, best, n)[i] == grid_time(start, end, i),
    decreases n,
{
    if n > 0 {
        lemma_all_moments_are_good(project, start, end, best, n - 1);
        crate::sampling::lemma_grid(start, end, n - 1, n - 1);
        let t = grid_time(start, end, n - 1);
        assert(cover(project, t, 3) == best);
        let was = good_times(project, start, end, best, n - 1);
        let now = good_times(project, start, end, best, n);
        assert(now == was.push(t as i64));
        assert forall|i: int| 0 <= i < n implies #[trigger] now[i] == grid_time(start, end, i) by {
            if i < n - 1 {
                assert(now[i] == was[i]);
                assert(was[i] == grid_time(start, end, i));
            }
        }
    }
}

/// Where the same number of cameras is on all the time, the samples reach from one end of
/// the stretch to the other, as many as are asked for.
pub proof fn lemma_samples_fill_an_even_shoot(project: Project, count: int, best: int)
    requires
        crate::sampling::project_ok(project),
        2 <= count <= 200,
        best > 0,
        sample_span(project).0 < sample_span(project).1,
        forall|k: int|
            0 <= k < 200 ==> cover(
                project,
                #[trigger] grid_time(sample_span(project).0, sample_span(project).1, k),
                3,
            ) == best,
    ensures
        sampled(project, count).len() == count,
        sampled(project, count)[0] == grid_time(sample_span(project).0, sample_span(project).1, 0),
        sampled(project, count)[count - 1] == grid_time(sample_span(project).0, sample_span(project).1, 199),
{
    let (start, end) = sample_span(project);
    crate::sampling::lemma_span_bounds(project);
    lemma_all_moments_are_good(project, start, end, best, 200);
    lemma_samples_spread_out(200, count);
}

/// Each moment is measured once for each camera that has a clip then.
pub proof fn lemma_every_covered_moment_is_measured(
    project: Project,
    times: Seq<i64>,
    cam: int,
    n: int,
    c: int,
    i: int,
)
    requires
        0 <= c <= cam,
        0 <= n <= times.len(),
        0 <= i < times.len(),
        c < cam || i < n,
        cam <= usize::MAX,
        covered(project, c, times[i] as int),
    ensures
        job_list(project, times, cam, n).contains((c as usize, times[i])),
    decreases cam + 1, n,
{
    let list = job_list(project, times, cam, n);
    if n <= 0 {
        lemma_every_covered_moment_is_measured(project, times, cam - 1, times.len() as int, c, i);
    } else if c == cam && i == n - 1 {
        assert(list[list.len() - 1] == (c as usize, times[i]));
    } else {
        lemma_every_covered_moment_is_measured(project, times, cam, n - 1, c, i);
        let was = job_list(project, times, cam, n - 1);
        let p = choose|p: int| 0 <= p < was.len() && was[p] == (c as usize, times[i]);
        assert(list[p] == was[p]);
    }
}

/// Nothing is measured of a camera that has no clip then.
pub proof fn lemma_only_covered_moments_are_measured(
    project: Project,
    times: Seq<i64>,
    cam: int,
    n: int,
    p: int,
)
    requires
        cam <= usize::MAX,
        0 <= n <= times.len(),
        0 <= p < job_list(project, times, cam, n).len(),
    ensures
        ({
            let (c, t) = job_list(project, times, cam, n)[p];
            c <= cam && covered(project, c as int, t as int) && times.contains(t)
        }),
    decreases cam + 1, n,
{
    if cam >= 0 {
        let list = job_list(project, times, cam, n);
        if n <= 0 {
            lemma_only_covered_moments_are_measured(project, times, cam - 1, times.len() as int, p);
        } else {
            let was = job_list(project, times, cam, n - 1);
            if p < was.len() {
                lemma_only_covered_moments_are_measured(project, times, cam, n - 1, p);
                assert(list[p] == was[p]);
            } else {
                assert(list[p] == (cam as usize, times[n - 1]));
                assert(times.contains(times[n - 1]));
            }
        }
    }
}

/// A frame is grabbed at its moment, inside the clip; in the last half second the frame
/// before that is grabbed.
pub proof fn lemma_frame_is_grabbed_inside(clip: Clip, t: int)
    requires
        clip.covers(t),
    ensures
        0 <= grab_time(clip, t) <= t - clip.offset,
        t <= clip.offset + clip.duration - 500_000 ==> grab_time(clip, t) == t - clip.offset,
        t > clip.offset + clip.duration - 500_000 && clip.duration >= 500_000 ==> grab_time(clip, t) == clip.duration
            - 500_000,
        clip.duration < 500_000 ==> grab_time(clip, t) == 0,
{
}

// ---------------------------------------------------------------- what is seen

/// The slot is shown as high as a pixel and the picture is not empty.
pub open spec fn has_size(rect: Rect, out: (int, int), src: (int, int)) -> bool {
    &&& rect.w > 0 && rect.h > 0
    &&& rect.w * out.0 >= FULL && rect.h * out.1 >= FULL
    &&& src.0 >= 1 && src.1 >= 1
    &&& out.0 > 0 && out.1 > 0
}

proof fn lemma_extents(rect: Rect, out: (int, int), src: (int, int))
    requires
        has_size(rect, out, src),
    ensures
        source_extent(rect, out.1, src.0) == src.0 * (rect.h * out.1),
        slot_extent(rect, out.0, src.1) == src.1 * (rect.w * out.0),
        source_extent(rect, out.1, src.0) > 0,
        slot_extent(rect, out.0, src.1) > 0,
{
    let a = rect.h * out.1;
    let b = rect.w * out.0;
    assert(b * src.1 == src.1 * b) by (nonlinear_arith);
    assert(src.0 * a > 0 && src.1 * b > 0) by (nonlinear_arith)
        requires
            src.0 >= 1,
            src.1 >= 1,
            a >= FULL,
            b >= FULL,
            FULL > 0,
    ;
}

/// What is seen of a picture has the shape of its slot on screen: its width is to its
/// height as the slot's width is to the slot's height, but for the rounding. Without zoom
/// it is as wide or as high as the picture, and twice the zoom shows half of that.
pub proof fn lemma_seen_part_has_the_slots_shape(rect: Rect, out: (int, int), src: (int, int), zoom: int)
    requires
        has_size(rect, out, src),
        zoom > 0,
    ensures
        ({
            let (u, v) = half_seen(rect, out.0, out.1, src.0, src.1, zoom);
            let slot_w = rect.w * out.0;
            let slot_h = rect.h * out.1;
            &&& 2 * size(u * (src.0 * slot_h) - v * (src.1 * slot_w)) <= src.0 * slot_h + src.1 * slot_w
            &&& src.0 * slot_h >= src.1 * slot_w ==> 2 * size(v * zoom - 500_000_000_000) <= zoom && u <= v
            &&& src.0 * slot_h <= src.1 * slot_w ==> 2 * size(u * zoom - 500_000_000_000) <= zoom && v <= u
        }),
{
    lemma_extents(rect, out, src);
    crate::sampling::lemma_cover_fit(rect, out.0, out.1, src.0, src.1, zoom);
    let a = source_extent(rect, out.1, src.0);
    let b = slot_extent(rect, out.0, src.1);
    let half = 500_000_000_000int;
    let whole = rounded(half, zoom);
    lemma_rounded_near(half, zoom);
    if a > b {
        lemma_smaller_share(b, a, zoom);
    } else {
        lemma_smaller_share(a, b, zoom);
        if a == b {
            assert((a * 500_000 * 1_000_000) * zoom == half * (b * zoom)) by (nonlinear_arith)
                requires
                    a == b,
                    half == 500_000_000_000,
            ;
            assert(b * zoom > 0) by (nonlinear_arith)
                requires
                    b > 0,
                    zoom > 0,
            ;
            crate::units::lemma_rounded_ratio(a * 500_000 * 1_000_000, b * zoom, half, zoom);
        }
    }
}

proof fn lemma_smaller_share(a: int, b: int, zoom: int)
    requires
        0 < a <= b,
        zoom > 0,
    ensures
        0 <= rounded(a * 500_000 * 1_000_000, b * zoom) <= rounded(500_000_000_000, zoom),
{
    let half = 500_000_000_000int;
    let d = b * zoom;
    assert(d > 0) by (nonlinear_arith)
        requires
            b > 0,
            zoom > 0,
            d == b * zoom,
    ;
    assert(0 <= a * 500_000 * 1_000_000 <= b * half) by (nonlinear_arith)
        requires
            0 < a <= b,
            half == 500_000_000_000,
    ;
    lemma_rounded_grows(a * 500_000 * 1_000_000, b * half, d);
    assert((b * half) * zoom == half * d) by (nonlinear_arith)
        requires
            d == b * zoom,
    ;
    crate::units::lemma_rounded_ratio(b * half, d, half, zoom);
    assert(0 * d == 0);
    lemma_rounded_whole(0, d);
    lemma_rounded_grows(0, a * 500_000 * 1_000_000, d);
}

/// Laying everything on its side, slot, screen and picture, lays what is seen on its side.
pub proof fn lemma_seen_part_turns_with_the_screen(rect: Rect, out: (int, int), src: (int, int), zoom: int)
    requires
        has_size(rect, out, src),
        zoom > 0,
    ensures
        ({
            let (u, v) = half_seen(rect, out.0, out.1, src.0, src.1, zoom);
            let turned = Rect { x: rect.y, y: rect.x, w: rect.h, h: rect.w };
            half_seen(turned, out.1, out.0, src.1, src.0, zoom) == (v, u)
        }),
{
    let turned = Rect { x: rect.y, y: rect.x, w: rect.h, h: rect.w };
    lemma_extents(rect, out, src);
    lemma_extents(turned, (out.1, out.0), (src.1, src.0));
    let a = source_extent(rect, out.1, src.0);
    let b = slot_extent(rect, out.0, src.1);
    if a == b {
        let half = 500_000_000_000int;
        assert((a * 500_000 * 1_000_000) * zoom == half * (b * zoom)) by (nonlinear_arith)
            requires
                a == b,
                half == 500_000_000_000,
        ;
        assert(b * zoom > 0) by (nonlinear_arith)
            requires
                b > 0,
                zoom > 0,
        ;
        crate::units::lemma_rounded_ratio(a * 500_000 * 1_000_000, b * zoom, half, zoom);
    }
}

/// What is seen lies inside the picture, in the middle without pan; panning on moves it
/// right and down, as far as the edges, and never changes its size.
pub proof fn lemma_pan_moves_what_is_seen(s: Slot, t: Slot, half: (int, int))
    requires
        0 <= half.0 <= 500_000,
        0 <= half.1 <= 500_000,
        s.pan.0 <= t.pan.0,
        s.pan.1 <= t.pan.1,
        crate::arrange::in_limit(s.pan.0 as int) && crate::arrange::in_limit(s.pan.1 as int),
        crate::arrange::in_limit(t.pan.0 as int) && crate::arrange::in_limit(t.pan.1 as int),
    ensures
        ({
            let a = seen(s, half);
            let b = seen(t, half);
            &&& 0 <= a.u0 <= a.u1 <= 1_000_000 && 0 <= a.v0 <= a.v1 <= 1_000_000
            &&& a.u1 - a.u0 == 2 * half.0 && a.v1 - a.v0 == 2 * half.1
            &&& a.u0 <= b.u0 && a.v0 <= b.v0
            &&& s.pan == (0i64, 0i64) ==> a.u0 + a.u1 == 1_000_000 && a.v0 + a.v1 == 1_000_000
            &&& 0 < b.u0 && b.u1 < 1_000_000 && 0 < a.u0 && a.u1 < 1_000_000 ==> b.u0 - a.u0 == t.pan.0 - s.pan.0
            &&& 0 < b.v0 && b.v1 < 1_000_000 && 0 < a.v0 && a.v1 < 1_000_000 ==> b.v0 - a.v0 == t.pan.1 - s.pan.1
        }),
{
}

/// A slot lower than a pixel counts as a pixel high, and a picture without height as one
/// line.
pub proof fn lemma_empty_sizes_count_as_one(rect: Rect, out_w: int, out_h: int, src_w: int, src_h: int)
    ensures
        rect.h * out_h <= FULL ==> source_extent(rect, out_h, src_w) == src_w * FULL,
        src_h <= 1 ==> slot_extent(rect, out_w, src_h) == rect.w * out_w,
{
    assert(rect.w * out_w * 1 == rect.w * out_w) by (nonlinear_arith);
}

} // verus!
