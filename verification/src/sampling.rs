//! Which frames the automatic grade looks at, and which part of them.

use crate::arrange::TIME_LIMIT;
use crate::autograde::{CameraStats, Region, STATS_FRAMES};
use crate::decoder::{DecodeRequest, Frame};
use crate::ffmpeg::{fit_size, HwAccel};
use crate::layout::{slot_rects, Rect, FULL};
use crate::model::{Clip, Project, CAMERA_COUNT};
use crate::units::round_div;
use vstd::prelude::*;

verus! {

/// Frames sampled per camera.
pub const SAMPLE_COUNT: usize = 8;

/// Moments that are looked at for sampling.
pub const GRID: usize = 200;

/// Longest edge of the analysis frames; statistics need no detail.
pub const ANALYSIS_EDGE: u32 = 320;

/// A clip of `camera` covers master time `t`.
pub open spec fn covered(project: Project, camera: int, t: int) -> bool {
    exists|k: int| project.is_clip_at(camera, t, k)
}

/// Number of the first `n` cameras that cover master time `t`.
pub open spec fn cover(project: Project, t: int, n: int) -> int
    decreases n,
{
    if n <= 0 {
        0
    } else {
        cover(project, t, n - 1) + if covered(project, n - 1, t) {
            1int
        } else {
            0
        }
    }
}

/// Start and end of the stretch that is sampled: the export range, or the whole
/// timeline.
pub open spec fn sample_span(project: Project) -> (int, int) {
    if project.range.end > project.range.start {
        (project.range.start as int, project.range.end as int)
    } else {
        (0, crate::model::cameras_end(project.cameras@, project.cameras@.len() as int))
    }
}

/// Moment `k` of the grid: evenly spread, with a margin of two hundredths of the
/// stretch at either end.
pub open spec fn grid_time(start: int, end: int, k: int) -> int {
    start + crate::units::rounded((end - start) * (398 + 96 * k), 19_900)
}

/// The best cover of the first `n` moments of the grid.
pub open spec fn best_cover(project: Project, start: int, end: int, n: int) -> int
    decreases n,
{
    if n <= 0 {
        0
    } else {
        let c = cover(project, grid_time(start, end, n - 1), CAMERA_COUNT as int);
        let b = best_cover(project, start, end, n - 1);
        if c > b {
            c
        } else {
            b
        }
    }
}

/// Those of the first `n` moments that `best` cameras cover.
pub open spec fn good_times(project: Project, start: int, end: int, best: int, n: int) -> Seq<i64>
    decreases n,
{
    if n <= 0 {
        Seq::empty()
    } else {
        let t = grid_time(start, end, n - 1);
        if cover(project, t, CAMERA_COUNT as int) == best {
            good_times(project, start, end, best, n - 1).push(t as i64)
        } else {
            good_times(project, start, end, best, n - 1)
        }
    }
}

/// Sample `i` of `count`, spread over the good moments; a single one is taken from
/// the middle.
pub open spec fn spread_index(len: int, count: int, i: int) -> int {
    if count == 1 {
        len / 2
    } else {
        (i * (len - 1)) / (count - 1)
    }
}

/// The smaller of two numbers.
pub open spec fn least(a: int, b: int) -> int {
    if a < b {
        a
    } else {
        b
    }
}

/// The moments that are sampled.
pub open spec fn sampled(project: Project, count: int) -> Seq<i64> {
    let (start, end) = sample_span(project);
    let best = best_cover(project, start, end, GRID as int);
    let good = good_times(project, start, end, best, GRID as int);
    let n = least(count, good.len() as int);
    if end <= start || count == 0 || best == 0 {
        Seq::empty()
    } else {
        Seq::new(n as nat, |i: int| good[spread_index(good.len() as int, n, i)])
    }
}

/// Times of a project in range.
pub open spec fn project_ok(project: Project) -> bool {
    &&& project.times_ok()
    &&& crate::arrange::in_limit(project.range.start as int)
    &&& crate::arrange::in_limit(project.range.end as int)
}

/// Whether the times of a project are in range.
pub fn is_project_ok(project: &Project) -> (b: bool)
    ensures
        b == project_ok(*project),
{
    let limit: i64 = crate::arrange::TIME_LIMIT;
    project.has_times_in_range() && -limit <= project.range.start && project.range.start <= limit && -limit
        <= project.range.end && project.range.end <= limit
}

/// A new project can be sampled, shown and exported as it is.
pub proof fn lemma_fresh_project_ok(project: Project)
    requires
        crate::model::fresh_project(project),
    ensures
        project_ok(project),
        forall|k: int| 0 <= k < 3 ==> slot_ok(#[trigger] project.slots@[k]),
        project.output.fps.ok(),
        project.size_of_output() == (1920u32, 1080u32),
        crate::model::cameras_end(project.cameras@, project.cameras@.len() as int) == 0,
{
    assert forall|c: int| 0 <= c < project.cameras@.len() implies crate::model::clip_times_ok(
        #[trigger] project.cameras@[c].clips@,
    ) by {
        assert(crate::model::fresh_camera(project.cameras@[c], c));
    }
    lemma_no_clips_no_end(project.cameras@, project.cameras@.len() as int);
}

proof fn lemma_no_clips_no_end(cameras: Seq<crate::model::Camera>, n: int)
    requires
        0 <= n <= cameras.len(),
        forall|c: int| 0 <= c < cameras.len() ==> (#[trigger] cameras[c]).clips@.len() == 0,
    ensures
        crate::model::cameras_end(cameras, n) == 0,
    decreases n,
{
    if n > 0 {
        lemma_no_clips_no_end(cameras, n - 1);
        assert(cameras[n - 1].clips@.len() == 0);
    }
}

pub(crate) proof fn lemma_span_bounds(project: Project)
    requires
        project_ok(project),
    ensures
        -1_000_000_000_000_000_000 <= sample_span(project).0 <= 1_000_000_000_000_000_000,
        sample_span(project).1 <= 2_000_000_000_000_000_000,
{
    lemma_cameras_end_bound(project.cameras@, project.cameras@.len() as int);
}

/// No clip with times in range ends later than this.
pub proof fn lemma_cameras_end_bound(cameras: Seq<crate::model::Camera>, n: int)
    requires
        0 <= n <= cameras.len(),
        forall|c: int|
            0 <= c < cameras.len() ==> crate::model::clip_times_ok(#[trigger] cameras[c].clips@),
    ensures
        0 <= crate::model::cameras_end(cameras, n) <= 2_000_000_000_000_000_000,
    decreases n,
{
    if n > 0 {
        lemma_cameras_end_bound(cameras, n - 1);
        let clips = cameras[n - 1].clips@;
        assert(crate::model::clip_times_ok(clips));
        lemma_latest_bound(clips, clips.len() as int, crate::model::cameras_end(cameras, n - 1));
    }
}

proof fn lemma_latest_bound(clips: Seq<Clip>, n: int, floor: int)
    requires
        0 <= n <= clips.len(),
        crate::model::clip_times_ok(clips),
        0 <= floor <= 2_000_000_000_000_000_000,
    ensures
        0 <= crate::model::latest_end(clips, n, floor) <= 2_000_000_000_000_000_000,
    decreases n,
{
    if n > 0 {
        lemma_latest_bound(clips, n - 1, floor);
        assert(clips[n - 1].times_ok());
    }
}

/// The grid lies in the stretch, in order.
pub proof fn lemma_grid(start: int, end: int, j: int, k: int)
    requires
        start < end,
        0 <= j <= k < GRID,
    ensures
        start <= grid_time(start, end, j) <= grid_time(start, end, k) <= end,
{
    let d = end - start;
    let p = d * (398 + 96 * j);
    let q = d * (398 + 96 * k);
    assert(0 <= p <= q <= d * 19_900) by (nonlinear_arith)
        requires
            d > 0,
            0 <= j <= k < 200,
            p == d * (398 + 96 * j),
            q == d * (398 + 96 * k),
    ;
}

/// Number of cameras that cover master time `t`.
fn cover_at(project: &Project, t: i64) -> (n: usize)
    requires
        project.times_ok(),
    ensures
        n == cover(*project, t as int, CAMERA_COUNT as int),
        n <= CAMERA_COUNT,
{
    let mut n: usize = 0;
    let mut cam: usize = 0;
    while cam < CAMERA_COUNT
        invariant
            project.times_ok(),
            cam <= CAMERA_COUNT,
            n == cover(*project, t as int, cam as int),
            n <= cam,
        decreases CAMERA_COUNT - cam,
    {
        match project.clip_at(cam, t) {
            Some((k, _)) => {
                assert(project.is_clip_at(cam as int, t as int, k as int));
                n = n + 1;
            },
            None => {},
        }
        cam = cam + 1;
    }
    n
}

/// Moment `k` of the grid.
fn grid_at(start: i64, end: i64, k: usize) -> (t: i64)
    requires
        start < end,
        -1_000_000_000_000_000_000 <= start,
        end <= 2_000_000_000_000_000_000,
        k < GRID,
    ensures
        t == grid_time(start as int, end as int, k as int),
        start <= t <= end,
{
    proof {
        lemma_grid(start as int, end as int, k as int, k as int);
        let d = end - start;
        assert(0 <= d * (398 + 96 * k) <= 3_000_000_000_000_000_000 * 19_502) by (nonlinear_arith)
            requires
                0 <= d <= 3_000_000_000_000_000_000,
                0 <= k < 200,
        ;
    }
    let d: i128 = end as i128 - start as i128;
    let q: i128 = round_div(d * (398 + 96 * (k as i128)), 19_900);
    (start as i128 + q) as i64
}

pub(crate) proof fn lemma_good_times(project: Project, start: int, end: int, best: int, n: int)
    requires
        start < end,
        0 <= n <= GRID,
        i64::MIN <= start,
        end <= i64::MAX,
    ensures
        good_times(project, start, end, best, n).len() <= n,
        forall|i: int|
            0 <= i < good_times(project, start, end, best, n).len() ==> start <= (
            #[trigger] good_times(project, start, end, best, n)[i]) <= end,
        forall|i: int|
            0 <= i < good_times(project, start, end, best, n).len() ==> cover(
                project,
                (#[trigger] good_times(project, start, end, best, n)[i]) as int,
                CAMERA_COUNT as int,
            ) == best,
        forall|i: int|
            0 <= i < good_times(project, start, end, best, n).len() && n > 0 ==> (
            #[trigger] good_times(project, start, end, best, n)[i]) <= grid_time(start, end, n - 1),
        forall|i: int, j: int|
            0 <= i <= j < good_times(project, start, end, best, n).len() ==> (
            #[trigger] good_times(project, start, end, best, n)[i]) <= (
            #[trigger] good_times(project, start, end, best, n)[j]),
    decreases n,
{
    if n > 0 {
        lemma_good_times(project, start, end, best, n - 1);
        lemma_grid(start, end, n - 1, n - 1);
        if n > 1 {
            lemma_grid(start, end, n - 2, n - 1);
        }
    }
}

proof fn lemma_best_is_reached(project: Project, start: int, end: int, n: int)
    requires
        start < end,
        0 <= n <= GRID,
        best_cover(project, start, end, n) > 0,
    ensures
        good_times(project, start, end, best_cover(project, start, end, n), n).len() > 0,
        forall|k: int|
            0 <= k < n ==> cover(project, #[trigger] grid_time(start, end, k), CAMERA_COUNT as int)
                <= best_cover(project, start, end, n),
    decreases n,
{
    if n > 0 {
        let c = cover(project, grid_time(start, end, n - 1), CAMERA_COUNT as int);
        let b = best_cover(project, start, end, n - 1);
        if b > 0 {
            lemma_best_is_reached(project, start, end, n - 1);
        } else {
            lemma_no_cover(project, start, end, n - 1);
        }
    }
}

proof fn lemma_no_cover(project: Project, start: int, end: int, n: int)
    requires
        0 <= n,
    ensures
        best_cover(project, start, end, n) >= 0,
        best_cover(project, start, end, n) == 0 ==> forall|k: int|
            0 <= k < n ==> cover(project, #[trigger] grid_time(start, end, k), CAMERA_COUNT as int) <= 0,
    decreases n,
{
    if n > 0 {
        lemma_no_cover(project, start, end, n - 1);
    }
}

proof fn lemma_spread(len: int, count: int, i: int, j: int)
    requires
        0 <= i <= j < count <= len,
    ensures
        0 <= spread_index(len, count, i) <= spread_index(len, count, j) < len,
{
    if count > 1 {
        let d = count - 1;
        let p = i * (len - 1);
        let q = j * (len - 1);
        assert(0 <= p <= q <= d * (len - 1)) by (nonlinear_arith)
            requires
                0 <= i <= j <= d,
                len >= 1,
                p == i * (len - 1),
                q == j * (len - 1),
        ;
        vstd::arithmetic::div_mod::lemma_fundamental_div_mod(p, d);
        vstd::arithmetic::div_mod::lemma_mod_bound(p, d);
        vstd::arithmetic::div_mod::lemma_fundamental_div_mod(q, d);
        vstd::arithmetic::div_mod::lemma_mod_bound(q, d);
        let a = p / d;
        let b = q / d;
        assert(0 <= a <= b <= len - 1) by (nonlinear_arith)
            requires
                p == d * a + p % d,
                q == d * b + q % d,
                0 <= p % d < d,
                0 <= q % d < d,
                0 <= p <= q <= d * (len - 1),
                d > 0,
        ;
    }
}

/// Master times at which to sample frames: spread over the export range (or the
/// whole timeline), preferring moments that all cameras cover.
pub fn sample_times(project: &Project, count: usize) -> (out: Vec<i64>)
    requires
        project_ok(*project),
    ensures
        out@ == sampled(*project, count as int),
{
    let (start, end): (i64, i64) = if project.range.end > project.range.start {
        (project.range.start, project.range.end)
    } else {
        (0, project.duration(None))
    };
    let mut out: Vec<i64> = Vec::new();
    proof {
        lemma_span_bounds(*project);
        assert((start as int, end as int) == sample_span(*project));
    }
    if end <= start || count == 0 {
        assert(out@ =~= sampled(*project, count as int));
        return out;
    }
    let ghost s = start as int;
    let ghost e = end as int;
    let mut best: usize = 0;
    let mut k: usize = 0;
    while k < GRID
        invariant
            project.times_ok(),
            s == start,
            e == end,
            start < end,
            -1_000_000_000_000_000_000 <= start,
            end <= 2_000_000_000_000_000_000,
            k <= GRID,
            best == best_cover(*project, s, e, k as int),
            best <= CAMERA_COUNT,
        decreases GRID - k,
    {
        let t: i64 = grid_at(start, end, k);
        let c: usize = cover_at(project, t);
        if c > best {
            best = c;
        }
        k = k + 1;
    }
    if best == 0 {
        assert(out@ =~= sampled(*project, count as int));
        return out;
    }
    let mut good: Vec<i64> = Vec::new();
    let mut m: usize = 0;
    while m < GRID
        invariant
            project.times_ok(),
            s == start,
            e == end,
            start < end,
            -1_000_000_000_000_000_000 <= start,
            end <= 2_000_000_000_000_000_000,
            m <= GRID,
            good@ == good_times(*project, s, e, best as int, m as int),
        decreases GRID - m,
    {
        let t: i64 = grid_at(start, end, m);
        if cover_at(project, t) == best {
            good.push(t);
        }
        m = m + 1;
    }
    proof {
        lemma_best_is_reached(*project, s, e, GRID as int);
        lemma_good_times(*project, s, e, best as int, GRID as int);
    }
    let len: usize = good.len();
    let n: usize = if count < len {
        count
    } else {
        len
    };
    let mut i: usize = 0;
    while i < n
        invariant
            0 < n <= len <= GRID,
            len == good@.len(),
            i <= n,
            out@.len() == i,
            forall|j: int| 0 <= j < i ==> #[trigger] out@[j] == good@[spread_index(len as int, n as int, j)],
        decreases n - i,
    {
        proof {
            lemma_spread(len as int, n as int, i as int, i as int);
            assert(i * (len - 1) <= 200 * 200) by (nonlinear_arith)
                requires
                    0 <= i <= 200,
                    0 <= len - 1 <= 200,
            ;
        }
        let at: usize = if n == 1 {
            len / 2
        } else {
            (i * (len - 1)) / (n - 1)
        };
        out.push(good[at]);
        i = i + 1;
    }
    assert(out@ =~= sampled(*project, count as int));
    out
}

/// Full coverage is preferred: every sampled moment lies in the sampled stretch and
/// has the best cover of the whole grid, and the samples are in order.
pub proof fn lemma_samples_have_best_cover(project: Project, count: int, i: int, j: int, k: int)
    requires
        project_ok(project),
        count >= 0,
        0 <= i <= j < sampled(project, count).len(),
        0 <= k < GRID,
    ensures
        ({
            let (start, end) = sample_span(project);
            let t = sampled(project, count)[i] as int;
            &&& start <= t <= end
            &&& cover(project, t, CAMERA_COUNT as int) >= cover(
                project,
                grid_time(start, end, k),
                CAMERA_COUNT as int,
            )
            &&& cover(project, t, CAMERA_COUNT as int) > 0
            &&& t <= sampled(project, count)[j]
        }),
{
    let (start, end) = sample_span(project);
    lemma_span_bounds(project);
    let best = best_cover(project, start, end, GRID as int);
    let good = good_times(project, start, end, best, GRID as int);
    let n = least(count, good.len() as int);
    lemma_no_cover(project, start, end, GRID as int);
    lemma_best_is_reached(project, start, end, GRID as int);
    lemma_good_times(project, start, end, best, GRID as int);
    lemma_spread(good.len() as int, n, i, j);
    let a = spread_index(good.len() as int, n, i);
    let b = spread_index(good.len() as int, n, j);
    assert(good[a] <= good[b]);
    assert(cover(project, grid_time(start, end, k), CAMERA_COUNT as int) <= best);
}

proof fn lemma_grid_apart(start: int, end: int, k: int)
    requires
        end - start >= 208,
    ensures
        grid_time(start, end, k) < grid_time(start, end, k + 1),
{
    let d = end - start;
    let p = d * (398 + 96 * k);
    let q = d * (398 + 96 * (k + 1));
    assert(q - p == 96 * d) by (nonlinear_arith)
        requires
            p == d * (398 + 96 * k),
            q == d * (398 + 96 * (k + 1)),
    ;
    crate::units::lemma_rounded_near(p, 19_900);
    crate::units::lemma_rounded_near(q, 19_900);
}

proof fn lemma_good_times_apart(project: Project, start: int, end: int, best: int, n: int)
    requires
        end - start >= 208,
        0 <= n <= GRID,
        i64::MIN <= start,
        end <= i64::MAX,
    ensures
        forall|i: int|
            0 <= i < good_times(project, start, end, best, n).len() ==> (
            #[trigger] good_times(project, start, end, best, n)[i]) < grid_time(start, end, n),
        forall|i: int, j: int|
            0 <= i < j < good_times(project, start, end, best, n).len() ==> (
            #[trigger] good_times(project, start, end, best, n)[i]) < (
            #[trigger] good_times(project, start, end, best, n)[j]),
    decreases n,
{
    if n > 0 {
        lemma_good_times_apart(project, start, end, best, n - 1);
        lemma_grid(start, end, n - 1, n - 1);
        lemma_grid_apart(start, end, n - 1);
        let was = good_times(project, start, end, best, n - 1);
        let now = good_times(project, start, end, best, n);
        let t = grid_time(start, end, n - 1);
        assert forall|i: int| 0 <= i < was.len() implies (#[trigger] now[i]) == was[i] && was[i] < t by {
            assert(was[i] < grid_time(start, end, n - 1));
        }
        assert(now.len() == was.len() || (now.len() == was.len() + 1 && now[was.len() as int] == t));
        assert forall|i: int| 0 <= i < now.len() implies (#[trigger] now[i]) < grid_time(start, end, n) by {
            if i < was.len() {
                assert(was[i] < t);
            }
        }
        assert forall|i: int, j: int| 0 <= i < j < now.len() implies (#[trigger] now[i]) < (
        #[trigger] now[j]) by {
            if j < was.len() {
                assert(was[i] < was[j]);
            }
        }
    }
}

/// No two samples are of the same moment: the sampled times increase strictly. Of a
/// stretch that is shorter than the grid has moments for, this cannot hold.
pub proof fn lemma_samples_increase(project: Project, count: int, i: int, j: int)
    requires
        project_ok(project),
        count >= 0,
        sample_span(project).1 - sample_span(project).0 >= 208,
        0 <= i < j < sampled(project, count).len(),
    ensures
        sampled(project, count)[i] < sampled(project, count)[j],
{
    let (start, end) = sample_span(project);
    lemma_span_bounds(project);
    let best = best_cover(project, start, end, GRID as int);
    let good = good_times(project, start, end, best, GRID as int);
    let len = good.len() as int;
    let n = least(count, len);
    lemma_good_times_apart(project, start, end, best, GRID as int);
    lemma_spread(len, n, i, i + 1);
    lemma_spread(len, n, i + 1, j);
    let d = n - 1;
    let p = i * (len - 1);
    let q = (i + 1) * (len - 1);
    assert(q == p + (len - 1)) by (nonlinear_arith)
        requires
            p == i * (len - 1),
            q == (i + 1) * (len - 1),
    ;
    vstd::arithmetic::div_mod::lemma_fundamental_div_mod(p, d);
    vstd::arithmetic::div_mod::lemma_mod_bound(p, d);
    vstd::arithmetic::div_mod::lemma_fundamental_div_mod(q, d);
    vstd::arithmetic::div_mod::lemma_mod_bound(q, d);
    let a = p / d;
    let b = q / d;
    assert(a < b) by (nonlinear_arith)
        requires
            p == d * a + p % d,
            q == d * b + q % d,
            0 <= p % d < d,
            0 <= q % d < d,
            q >= p + d,
            d > 0,
    ;
    assert(spread_index(len, n, i) == a);
    assert(spread_index(len, n, i + 1) == b);
}

// ---------------------------------------------------------------- visible part

/// The first slot that shows `cam`.
pub open spec fn is_slot_of(project: Project, cam: usize, k: int) -> bool {
    &&& 0 <= k < 3
    &&& project.slots@[k].camera == cam
    &&& forall|j: int| 0 <= j < k ==> (#[trigger] project.slots@[j]).camera != cam
}

/// Width over height of the source, times what the slot's height is.
pub open spec fn source_extent(rect: Rect, out_h: int, src_w: int) -> int {
    src_w * (if rect.h * out_h < FULL {
        FULL as int
    } else {
        rect.h * out_h
    })
}

/// Width of the slot, times what the source's height is.
pub open spec fn slot_extent(rect: Rect, out_w: int, src_h: int) -> int {
    rect.w * out_w * (if src_h < 1 {
        1
    } else {
        src_h
    })
}

/// Half of what is seen of the source's width and height, in millionths: cover fit
/// into the slot, then zoom.
pub open spec fn half_seen(rect: Rect, out_w: int, out_h: int, src_w: int, src_h: int, zoom: int) -> (int, int) {
    let a = source_extent(rect, out_h, src_w);
    let b = slot_extent(rect, out_w, src_h);
    let whole = crate::units::rounded(500_000_000_000, zoom);
    if a > b {
        (crate::units::rounded(b * 500_000 * 1_000_000, a * zoom), whole)
    } else {
        (whole, crate::units::rounded(a * 500_000 * 1_000_000, b * zoom))
    }
}

/// The part of the source that is seen: panned, but not beyond its edges.
pub open spec fn seen(slot: crate::model::Slot, half: (int, int)) -> Region {
    let cu = crate::units::clamped(500_000 + slot.pan.0, half.0, 1_000_000 - half.0);
    let cv = crate::units::clamped(500_000 + slot.pan.1, half.1, 1_000_000 - half.1);
    Region {
        u0: (cu - half.0) as i64,
        v0: (cv - half.1) as i64,
        u1: (cu + half.0) as i64,
        v1: (cv + half.1) as i64,
    }
}

/// The largest zoom that the arithmetic on slots holds.
pub const ZOOM_LIMIT: i64 = 400_000_000_000;

/// A slot that can be shown: not zoomed out, with a zoom and a pan that the
/// arithmetic holds.
pub open spec fn slot_ok(slot: crate::model::Slot) -> bool {
    &&& 1_000_000 <= slot.zoom <= ZOOM_LIMIT
    &&& crate::arrange::in_limit(slot.pan.0 as int)
    &&& crate::arrange::in_limit(slot.pan.1 as int)
}

/// Whether all slots can be shown.
pub fn slots_ok(project: &Project) -> (b: bool)
    ensures
        b == forall|k: int| 0 <= k < 3 ==> slot_ok(#[trigger] project.slots@[k]),
{
    let mut k: usize = 0;
    while k < 3
        invariant
            k <= 3,
            forall|j: int| 0 <= j < k ==> slot_ok(#[trigger] project.slots@[j]),
        decreases 3 - k,
    {
        let s: crate::model::Slot = project.slots[k];
        let fine: bool = 1_000_000 <= s.zoom && s.zoom <= ZOOM_LIMIT && -TIME_LIMIT <= s.pan.0 && s.pan.0
            <= TIME_LIMIT && -TIME_LIMIT <= s.pan.1 && s.pan.1 <= TIME_LIMIT;
        if !fine {
            assert(!slot_ok(project.slots@[k as int]));
            return false;
        }
        k = k + 1;
    }
    true
}

/// Half an edge, scaled down.
fn half_of(n: i128, d: i128, zoom: i64) -> (h: i64)
    requires
        0 <= n <= d,
        0 < d <= 60_000_000_000_000_000_000_000_000,
        1_000_000 <= zoom <= ZOOM_LIMIT,
    ensures
        h == crate::units::rounded(n * 500_000 * 1_000_000, d * zoom),
        0 <= h <= 500_000,
{
    proof {
        assert(0 < d * zoom <= 60_000_000_000_000_000_000_000_000 * 400_000_000_000) by (nonlinear_arith)
            requires
                0 < d <= 60_000_000_000_000_000_000_000_000,
                0 < zoom <= 400_000_000_000,
        ;
        assert(n * 500_000 * 1_000_000 <= 500_000 * (d * zoom)) by (nonlinear_arith)
            requires
                0 <= n <= d,
                zoom >= 1_000_000,
        ;
    }
    let top: i128 = n * 500_000 * 1_000_000;
    let bottom: i128 = d * (zoom as i128);
    let h: i128 = round_div(top, bottom);
    proof {
        crate::units::lemma_rounded_near(top as int, bottom as int);
        assert(0 <= h <= 500_000) by (nonlinear_arith)
            requires
                -(bottom as int) <= 2 * (top - h * bottom) <= bottom,
                0 <= top <= 500_000 * bottom,
                bottom > 0,
        ;
    }
    h as i64
}

/// Half of what is seen of the source's width and height, in millionths.
pub fn half_visible(rect: Rect, out_w: u32, out_h: u32, src_w: u32, src_h: u32, zoom: i64) -> (h: (i64, i64))
    requires
        0 < rect.w <= FULL,
        0 < rect.h <= FULL,
        out_w > 0,
        1_000_000 <= zoom <= ZOOM_LIMIT,
    ensures
        (h.0 as int, h.1 as int) == half_seen(
            rect,
            out_w as int,
            out_h as int,
            src_w as int,
            src_h as int,
            zoom as int,
        ),
        0 <= h.0 <= 500_000,
        0 <= h.1 <= 500_000,
{
    let a: i128 = source_size(rect, out_h, src_w);
    let b: i128 = slot_size(rect, out_w, src_h);
    let whole: i64 = half_of(1, 1, zoom);
    assert(1 * zoom == zoom);
    if a > b {
        (half_of(b, a, zoom), whole)
    } else {
        (whole, half_of(a, b, zoom))
    }
}

/// Cover fit: what is seen of a source has the shape of its slot, but for the
/// rounding, and before zooming it reaches two opposite edges of the source.
pub proof fn lemma_cover_fit(rect: Rect, out_w: int, out_h: int, src_w: int, src_h: int, zoom: int)
    requires
        0 < rect.w,
        0 < out_w,
        0 <= src_w,
        zoom > 0,
    ensures
        ({
            let (u, v) = half_seen(rect, out_w, out_h, src_w, src_h, zoom);
            let a = source_extent(rect, out_h, src_w);
            let b = slot_extent(rect, out_w, src_h);
            &&& 2 * crate::units::size(u * a - v * b) <= a + b
            &&& zoom == 1_000_000 ==> u == 500_000 || v == 500_000
        }),
{
    let (u, v) = half_seen(rect, out_w, out_h, src_w, src_h, zoom);
    let a = source_extent(rect, out_h, src_w);
    let b = slot_extent(rect, out_w, src_h);
    let half = 500_000_000_000int;
    assert(a >= 0) by (nonlinear_arith)
        requires
            a == src_w * (if rect.h * out_h < FULL {
                FULL as int
            } else {
                rect.h * out_h
            }),
            src_w >= 0,
            FULL > 0,
    ;
    assert(b > 0) by (nonlinear_arith)
        requires
            b == rect.w * out_w * (if src_h < 1 {
                1
            } else {
                src_h
            }),
            rect.w > 0,
            out_w > 0,
    ;
    crate::units::lemma_rounded_near(half, zoom);
    let whole = crate::units::rounded(half, zoom);
    if a > b {
        lemma_scaled_edges(a, b, zoom, u, whole);
    } else {
        lemma_scaled_edges(b, a, zoom, v, whole);
    }
    if zoom == 1_000_000 {
        assert(whole == 500_000) by (nonlinear_arith)
            requires
                -zoom <= 2 * (half - whole * zoom) <= zoom,
                zoom == 1_000_000,
                half == 500_000_000_000,
        ;
    }
}

proof fn lemma_scaled_edges(long: int, short: int, zoom: int, part: int, whole: int)
    requires
        0 <= short <= long,
        0 < long,
        0 < zoom,
        part == crate::units::rounded(short * 500_000 * 1_000_000, long * zoom),
        -zoom <= 2 * (500_000_000_000 - whole * zoom) <= zoom,
    ensures
        2 * crate::units::size(part * long - whole * short) <= long + short,
{
    let d = long * zoom;
    let n = short * 500_000 * 1_000_000;
    assert(d > 0) by (nonlinear_arith)
        requires
            d == long * zoom,
            long > 0,
            zoom > 0,
    ;
    crate::units::lemma_rounded_near(n, d);
    assert(-(short * zoom) <= 2 * (short * (500_000_000_000 - whole * zoom)) <= short * zoom) by (
        nonlinear_arith)
        requires
            -zoom <= 2 * (500_000_000_000 - whole * zoom) <= zoom,
            short >= 0,
    ;
    let x = part * long - whole * short;
    assert(x * zoom == part * d - n + short * (500_000_000_000 - whole * zoom)) by (nonlinear_arith)
        requires
            x == part * long - whole * short,
            d == long * zoom,
            n == short * 500_000 * 1_000_000,
    ;
    assert(2 * x <= long + short && -2 * x <= long + short) by (nonlinear_arith)
        requires
            -(long * zoom + short * zoom) <= 2 * (x * zoom) <= long * zoom + short * zoom,
            zoom > 0,
    ;
}

/// Part of the source frame that the layout shows of `cam`: cover fit into its
/// slot, then zoom and pan. The whole frame when the camera occupies no slot.
pub fn visible_region(project: &Project, cam: usize, src_w: u32, src_h: u32) -> (r: Region)
    requires
        project.output.width > 0,
        project.output.height > 0,
        forall|k: int| 0 <= k < 3 ==> slot_ok(#[trigger] project.slots@[k]),
    ensures
        0 <= r.u0 <= r.u1 <= 1_000_000,
        0 <= r.v0 <= r.v1 <= 1_000_000,
        forall|k: int|
            #[trigger] is_slot_of(*project, cam, k) ==> r == seen(
                project.slots@[k],
                half_seen(
                    crate::layout::rects(project.layout)[k],
                    project.size_of_output().0 as int,
                    project.size_of_output().1 as int,
                    src_w as int,
                    src_h as int,
                    project.slots@[k].zoom as int,
                ),
            ),
        (forall|k: int| 0 <= k < 3 ==> (#[trigger] project.slots@[k]).camera != cam) ==> r
            == crate::autograde::whole_region(),
{
    let rects: [Rect; 3] = slot_rects(project.layout);
    let (out_w, out_h): (u32, u32) = project.output_size();
    let mut k: usize = 0;
    while k < 3 && project.slots[k].camera != cam
        invariant
            k <= 3,
            forall|j: int| 0 <= j < k ==> (#[trigger] project.slots@[j]).camera != cam,
        decreases 3 - k,
    {
        k = k + 1;
    }
    if k == 3 {
        return Region { u0: 0, v0: 0, u1: 1_000_000, v1: 1_000_000 };
    }
    let slot: crate::model::Slot = project.slots[k];
    let rect: Rect = rects[k];
    proof {
        crate::layout::lemma_slots_inside(project.layout, k as int);
        assert(is_slot_of(*project, cam, k as int));
        assert(slot_ok(project.slots@[k as int]));
    }
    let (hu, hv): (i64, i64) = half_visible(rect, out_w, out_h, src_w, src_h, slot.zoom);
    let cu: i64 = crate::units::clamp(500_000 + slot.pan.0, hu, 1_000_000 - hu);
    let cv: i64 = crate::units::clamp(500_000 + slot.pan.1, hv, 1_000_000 - hv);
    let r: Region = Region { u0: cu - hu, v0: cv - hv, u1: cu + hu, v1: cv + hv };
    proof {
        let half = half_seen(
            rect,
            out_w as int,
            out_h as int,
            src_w as int,
            src_h as int,
            slot.zoom as int,
        );
        assert(half == (hu as int, hv as int));
        assert(r == seen(slot, half));
        assert forall|j: int| #[trigger] is_slot_of(*project, cam, j) implies j == k by {
            if j < k {
                assert(project.slots@[j].camera != cam);
            } else if j > k {
                assert(project.slots@[k as int].camera != cam);
            }
        }
    }
    r
}

/// Width over height of the source, times what the slot's height is.
fn source_size(rect: Rect, out_h: u32, src_w: u32) -> (a: i128)
    requires
        0 < rect.h <= FULL,
    ensures
        a == source_extent(rect, out_h as int, src_w as int),
        0 <= a <= 60_000_000_000_000_000_000_000_000,
{
    proof {
        assert(0 <= rect.h * out_h <= 3_000_000 * 0xffff_ffff) by (nonlinear_arith)
            requires
                0 < rect.h <= 3_000_000,
                0 <= out_h <= 0xffff_ffff,
        ;
    }
    let h: i128 = (rect.h as i128) * (out_h as i128);
    let h1: i128 = if h < FULL as i128 {
        FULL as i128
    } else {
        h
    };
    proof {
        assert(0 <= src_w * h1 <= 0xffff_ffff * (3_000_000 * 0xffff_ffff)) by (nonlinear_arith)
            requires
                0 <= src_w <= 0xffff_ffff,
                0 < h1 <= 3_000_000 * 0xffff_ffff,
        ;
    }
    (src_w as i128) * h1
}

/// Width of the slot, times what the source's height is.
fn slot_size(rect: Rect, out_w: u32, src_h: u32) -> (b: i128)
    requires
        0 < rect.w <= FULL,
        out_w > 0,
    ensures
        b == slot_extent(rect, out_w as int, src_h as int),
        0 < b <= 60_000_000_000_000_000_000_000_000,
{
    proof {
        assert(0 < rect.w * out_w <= 3_000_000 * 0xffff_ffff) by (nonlinear_arith)
            requires
                0 < rect.w <= 3_000_000,
                0 < out_w <= 0xffff_ffff,
        ;
    }
    let w: i128 = (rect.w as i128) * (out_w as i128);
    let h: i128 = if src_h < 1 {
        1
    } else {
        src_h as i128
    };
    proof {
        assert(0 < w * h <= (3_000_000 * 0xffff_ffff) * 0xffff_ffff) by (nonlinear_arith)
            requires
                0 < w <= 3_000_000 * 0xffff_ffff,
                0 < h <= 0xffff_ffff,
        ;
    }
    w * h
}

// ---------------------------------------------------------------- analysis

/// One frame to be decoded and measured.
#[derive(Debug)]
pub struct Job {
    pub cam: usize,
    pub region: Region,
    pub request: DecodeRequest,
}

/// Why there is no automatic grade.
#[derive(Debug, Clone, Copy, PartialEq, Eq, Structural)]
pub enum GradeError {
    NoClips,
    NoFrames,
}

impl GradeError {
    /// The message for the user.
    pub open spec fn text(self) -> Seq<char> {
        match self {
            GradeError::NoClips => "no clips on the timeline to analyse"@,
            GradeError::NoFrames => "no frames could be decoded for analysis"@,
        }
    }

    /// The message for the user.
    pub fn message(self) -> (s: &'static str)
        ensures
            s@ == self.text(),
    {
        match self {
            GradeError::NoClips => "no clips on the timeline to analyse",
            GradeError::NoFrames => "no frames could be decoded for analysis",
        }
    }
}

/// Place in the clip from which a frame is grabbed. It stays clear of the very end,
/// where a seek may find no frame.
pub open spec fn grab_time(clip: Clip, t: int) -> int {
    let local = least(t - clip.offset, clip.duration - 500_000);
    if local < 0 {
        0
    } else {
        local
    }
}

/// The camera and the moment of each job, for the first `n` moments of camera
/// `cam` and all moments of the cameras before it.
pub open spec fn job_list(project: Project, times: Seq<i64>, cam: int, n: int) -> Seq<(usize, i64)>
    decreases cam + 1, n,
{
    if cam < 0 {
        Seq::empty()
    } else if n <= 0 {
        job_list(project, times, cam - 1, times.len() as int)
    } else if covered(project, cam, times[n - 1] as int) {
        job_list(project, times, cam, n - 1).push((cam as usize, times[n - 1]))
    } else {
        job_list(project, times, cam, n - 1)
    }
}

/// The clip of `camera` that covers `t`.
pub open spec fn clip_covering(project: Project, camera: int, t: int) -> Clip {
    let k = choose|k: int| project.is_clip_at(camera, t, k);
    project.cameras@[camera].clips@[k]
}

/// `job` measures what the layout shows of the clip of `cam` at `t`.
pub open spec fn is_job(project: Project, hwaccel: HwAccel, cam: usize, t: i64, job: Job) -> bool {
    let clip = clip_covering(project, cam as int, t as int);
    let size = crate::ffmpeg::fitted(
        clip.width as int,
        clip.height as int,
        ANALYSIS_EDGE as int,
        ANALYSIS_EDGE as int,
    );
    &&& job.cam == cam
    &&& job.request.path@ == clip.path@
    &&& job.request.start == grab_time(clip, t as int)
    &&& job.request.fps == project.output.fps
    &&& job.request.width == size.0
    &&& job.request.height == size.1
    &&& job.request.hdr == clip.hdr
    &&& job.request.hwaccel == hwaccel
    &&& forall|k: int|
        #[trigger] is_slot_of(project, cam, k) ==> job.region == seen(
            project.slots@[k],
            half_seen(
                crate::layout::rects(project.layout)[k],
                project.size_of_output().0 as int,
                project.size_of_output().1 as int,
                clip.width as int,
                clip.height as int,
                project.slots@[k].zoom as int,
            ),
        )
}

proof fn lemma_clip_unique(project: Project, camera: int, t: int, a: int, b: int)
    requires
        project.is_clip_at(camera, t, a),
        project.is_clip_at(camera, t, b),
    ensures
        a == b,
{
    if a < b {
        assert(!project.cameras@[camera].clips@[a].covers(t));
    } else if b < a {
        assert(!project.cameras@[camera].clips@[b].covers(t));
    }
}

/// The frames that the automatic grade decodes: every camera at every sampled moment
/// that it covers.
pub fn analysis_jobs(project: &Project, times: &Vec<i64>, hwaccel: HwAccel) -> (out: Vec<Job>)
    requires
        project_ok(*project),
        project.output.width > 0,
        project.output.height > 0,
        forall|k: int| 0 <= k < 3 ==> slot_ok(#[trigger] project.slots@[k]),
    ensures
        ({
            let list = job_list(
                *project,
                times@,
                CAMERA_COUNT - 1,
                times@.len() as int,
            );
            &&& out@.len() == list.len()
            &&& forall|i: int|
                0 <= i < out@.len() ==> is_job(*project, hwaccel, list[i].0, list[i].1, #[trigger] out@[i])
        }),
{
    let mut out: Vec<Job> = Vec::new();
    let mut cam: usize = 0;
    let ghost mut list: Seq<(usize, i64)> = Seq::empty();
    while cam < CAMERA_COUNT
        invariant
            project_ok(*project),
            project.output.width > 0,
            project.output.height > 0,
            forall|k: int| 0 <= k < 3 ==> slot_ok(#[trigger] project.slots@[k]),
            cam <= CAMERA_COUNT,
            list == job_list(*project, times@, cam - 1, times@.len() as int),
            out@.len() == list.len(),
            forall|i: int|
                0 <= i < out@.len() ==> is_job(*project, hwaccel, list[i].0, list[i].1, #[trigger] out@[i]),
        decreases CAMERA_COUNT - cam,
    {
        let mut n: usize = 0;
        while n < times.len()
            invariant
                project_ok(*project),
                project.output.width > 0,
                project.output.height > 0,
                forall|k: int| 0 <= k < 3 ==> slot_ok(#[trigger] project.slots@[k]),
                cam < CAMERA_COUNT,
                n <= times@.len(),
                list == job_list(*project, times@, cam as int, n as int),
                out@.len() == list.len(),
                forall|i: int|
                    0 <= i < out@.len() ==> is_job(
                        *project,
                        hwaccel,
                        list[i].0,
                        list[i].1,
                        #[trigger] out@[i],
                    ),
            decreases times@.len() - n,
        {
            let t: i64 = times[n];
            match project.clip_at(cam, t) {
                Some((k, clip)) => {
                    proof {
                        assert(project.is_clip_at(cam as int, t as int, k as int));
                        let c = choose|c: int| project.is_clip_at(cam as int, t as int, c);
                        lemma_clip_unique(*project, cam as int, t as int, k as int, c);
                        assert(*clip == clip_covering(*project, cam as int, t as int));
                        assert(crate::model::clip_times_ok(project.cameras@[cam as int].clips@));
                        assert(clip.times_ok());
                    }
                    let size: (u32, u32) = fit_size(clip.width, clip.height, ANALYSIS_EDGE, ANALYSIS_EDGE);
                    let here: i64 = t - clip.offset;
                    let last: i64 = clip.duration - 500_000;
                    let near: i64 = if here < last {
                        here
                    } else {
                        last
                    };
                    let start: i64 = if near < 0 {
                        0
                    } else {
                        near
                    };
                    let region: Region = visible_region(project, cam, clip.width, clip.height);
                    let request: DecodeRequest = DecodeRequest {
                        path: clip.path.clone(),
                        start,
                        fps: project.output.fps,
                        width: size.0,
                        height: size.1,
                        hdr: clip.hdr,
                        hwaccel,
                    };
                    let job: Job = Job { cam, region, request };
                    assert(is_job(*project, hwaccel, cam, t, job));
                    out.push(job);
                    proof {
                        list = list.push((cam, t));
                    }
                },
                None => {
                    assert(!covered(*project, cam as int, t as int));
                },
            }
            n = n + 1;
        }
        cam = cam + 1;
    }
    out
}

/// Number of frames that are analysed: the cover of the first `n` moments, summed.
pub open spec fn total_cover(project: Project, times: Seq<i64>, n: int) -> int
    decreases n,
{
    if n <= 0 {
        0
    } else {
        total_cover(project, times, n - 1) + cover(project, times[n - 1] as int, CAMERA_COUNT as int)
    }
}

/// Number of frames that the automatic grade will analyse, for progress display.
pub fn sample_total(project: &Project) -> (n: usize)
    requires
        project_ok(*project),
    ensures
        ({
            let times = sampled(*project, SAMPLE_COUNT as int);
            n == total_cover(*project, times, times.len() as int)
        }),
{
    let times: Vec<i64> = sample_times(project, SAMPLE_COUNT);
    assert(times@.len() <= SAMPLE_COUNT);
    let mut n: usize = 0;
    let mut i: usize = 0;
    while i < times.len()
        invariant
            project_ok(*project),
            i <= times@.len() <= SAMPLE_COUNT,
            n == total_cover(*project, times@, i as int),
            n <= i * CAMERA_COUNT,
        decreases times@.len() - i,
    {
        n = n + cover_at(project, times[i]);
        i = i + 1;
    }
    n
}

/// Number of the first `n` moments that camera `cam` covers.
pub open spec fn cam_cover(project: Project, times: Seq<i64>, cam: int, n: int) -> int
    decreases n,
{
    if n <= 0 {
        0
    } else {
        cam_cover(project, times, cam, n - 1) + if covered(project, cam, times[n - 1] as int) {
            1int
        } else {
            0
        }
    }
}

proof fn lemma_job_count(project: Project, times: Seq<i64>, cam: int, n: int)
    requires
        0 <= cam,
        0 <= n <= times.len(),
    ensures
        job_list(project, times, cam, n).len() == job_list(
            project,
            times,
            cam - 1,
            times.len() as int,
        ).len() + cam_cover(project, times, cam, n),
    decreases n,
{
    if n > 0 {
        lemma_job_count(project, times, cam, n - 1);
    }
}

proof fn lemma_cover_by_cam(project: Project, times: Seq<i64>, n: int)
    requires
        0 <= n <= times.len(),
    ensures
        total_cover(project, times, n) == cam_cover(project, times, 0, n) + cam_cover(project, times, 1, n)
            + cam_cover(project, times, 2, n),
    decreases n,
{
    if n > 0 {
        lemma_cover_by_cam(project, times, n - 1);
        let t = times[n - 1] as int;
        reveal_with_fuel(cover, 4);
    }
}

/// The number shown as the total is the number of frames that are analysed.
pub proof fn lemma_total_is_job_count(project: Project, times: Seq<i64>)
    ensures
        total_cover(project, times, times.len() as int) == job_list(
            project,
            times,
            CAMERA_COUNT - 1,
            times.len() as int,
        ).len(),
{
    let n = times.len() as int;
    lemma_cover_by_cam(project, times, n);
    lemma_job_count(project, times, 0, n);
    lemma_job_count(project, times, 1, n);
    lemma_job_count(project, times, 2, n);
}

/// Whether any camera was measured; without one there is no grade.
pub fn check_measured(stats: &Vec<CameraStats>) -> (r: Result<(), GradeError>)
    ensures
        r is Ok <==> exists|i: int| 0 <= i < stats@.len() && (#[trigger] stats@[i]).pixels > 0,
        r is Err ==> r == Err::<(), GradeError>(GradeError::NoFrames),
{
    let mut i: usize = 0;
    while i < stats.len()
        invariant
            i <= stats@.len(),
            forall|k: int| 0 <= k < i ==> (#[trigger] stats@[k]).pixels == 0,
        decreases stats@.len() - i,
    {
        if !stats[i].is_empty() {
            assert(stats@[i as int].pixels > 0);
            return Ok(());
        }
        i = i + 1;
    }
    Err(GradeError::NoFrames)
}

/// The frames to be analysed, or that there is nothing to analyse.
pub fn plan_analysis(project: &Project, hwaccel: HwAccel) -> (r: Result<Vec<Job>, GradeError>)
    requires
        project_ok(*project),
        project.output.width > 0,
        project.output.height > 0,
        forall|k: int| 0 <= k < 3 ==> slot_ok(#[trigger] project.slots@[k]),
    ensures
        ({
            let times = sampled(*project, SAMPLE_COUNT as int);
            let list = job_list(*project, times, CAMERA_COUNT - 1, times.len() as int);
            match r {
                Ok(jobs) => {
                    &&& times.len() > 0
                    &&& jobs@.len() == list.len()
                    &&& forall|i: int|
                        0 <= i < jobs@.len() ==> is_job(
                            *project,
                            hwaccel,
                            list[i].0,
                            list[i].1,
                            #[trigger] jobs@[i],
                        )
                },
                Err(e) => times.len() == 0 && e == GradeError::NoClips,
            }
        }),
{
    let times: Vec<i64> = sample_times(project, SAMPLE_COUNT);
    if times.len() == 0 {
        return Err(GradeError::NoClips);
    }
    Ok(analysis_jobs(project, &times, hwaccel))
}

/// What has been measured so far, and how many of the planned frames are through.
#[derive(Debug)]
pub struct Analysis {
    pub stats: Vec<CameraStats>,
    /// Frames that were decoded, or could not be.
    pub done: usize,
}

impl Analysis {
    /// One count per camera, of no more frames than are through.
    pub open spec fn wf(self) -> bool {
        &&& self.stats@.len() == CAMERA_COUNT
        &&& self.done <= STATS_FRAMES
        &&& forall|c: int| 0 <= c < CAMERA_COUNT ==> (#[trigger] self.stats@[c]).wf()
        &&& forall|c: int| 0 <= c < CAMERA_COUNT ==> (#[trigger] self.stats@[c]).frames <= self.done
    }

    /// Nothing is through.
    pub open spec fn is_fresh(self) -> bool {
        &&& self.wf()
        &&& self.done == 0
        &&& forall|c: int| 0 <= c < CAMERA_COUNT ==> (#[trigger] self.stats@[c]).pixels == 0
    }

    /// One more frame is through: a decoded one is counted for its camera, one that
    /// could not be decoded for none.
    pub open spec fn advanced(self, was: Analysis, job: Job, frame: Option<Frame>) -> bool {
        &&& self.done == was.done + 1
        &&& self.stats@.len() == was.stats@.len()
        &&& forall|c: int|
            0 <= c < CAMERA_COUNT && c != job.cam ==> #[trigger] self.stats@[c] == was.stats@[c]
        &&& match frame {
            Some(f) => self.stats@[job.cam as int].added(
                was.stats@[job.cam as int],
                f.rgba@,
                f.width as int,
                f.height as int,
                job.region,
            ),
            None => self.stats@[job.cam as int] == was.stats@[job.cam as int],
        }
    }

    /// Before the first frame.
    pub fn new() -> (a: Analysis)
        ensures
            a.is_fresh(),
    {
        let mut stats: Vec<CameraStats> = Vec::new();
        let mut c: usize = 0;
        while c < CAMERA_COUNT
            invariant
                c <= CAMERA_COUNT,
                stats@.len() == c,
                forall|k: int| 0 <= k < c ==> (#[trigger] stats@[k]).wf(),
                forall|k: int| 0 <= k < c ==> (#[trigger] stats@[k]).frames == 0,
                forall|k: int| 0 <= k < c ==> (#[trigger] stats@[k]).pixels == 0,
            decreases CAMERA_COUNT - c,
        {
            stats.push(CameraStats::new());
            c = c + 1;
        }
        Analysis { stats, done: 0 }
    }

    /// Takes the outcome of a job: the frame, or that there is none.
    pub fn advance(&mut self, job: &Job, frame: &Option<Frame>)
        requires
            old(self).wf(),
            old(self).done < STATS_FRAMES,
            job.cam < CAMERA_COUNT,
            frame matches Some(f) ==> crate::decoder::size_ok(f.width, f.height),
        ensures
            final(self).wf(),
            final(self).advanced(*old(self), *job, *frame),
    {
        match frame {
            Some(f) => {
                self.stats[job.cam].add_region(&f.rgba, f.width, f.height, job.region);
            },
            None => {},
        }
        self.done = self.done + 1;
    }

    /// What was measured, if any frame could be decoded.
    pub fn finish(self) -> (r: Result<Vec<CameraStats>, GradeError>)
        ensures
            match r {
                Ok(stats) => stats@ == self.stats@ && exists|c: int|
                    0 <= c < stats@.len() && (#[trigger] stats@[c]).pixels > 0,
                Err(e) => e == GradeError::NoFrames && forall|c: int|
                    0 <= c < self.stats@.len() ==> (#[trigger] self.stats@[c]).pixels == 0,
            },
    {
        match check_measured(&self.stats) {
            Ok(_) => Ok(self.stats),
            Err(e) => Err(e),
        }
    }
}

/// The states between the outcomes of jobs, from a fresh one on.
pub open spec fn is_run(states: Seq<Analysis>, jobs: Seq<Job>, frames: Seq<Option<Frame>>) -> bool {
    &&& jobs.len() == frames.len()
    &&& states.len() == jobs.len() + 1
    &&& states[0].is_fresh()
    &&& forall|i: int| 0 <= i < jobs.len() ==> (#[trigger] jobs[i]).cam < CAMERA_COUNT
    &&& forall|i: int|
        0 <= i < jobs.len() ==> (#[trigger] states[i + 1]).advanced(states[i], jobs[i], frames[i])
}

proof fn lemma_run_prefix(states: Seq<Analysis>, jobs: Seq<Job>, frames: Seq<Option<Frame>>, c: int, n: int)
    requires
        is_run(states, jobs, frames),
        0 <= n <= jobs.len(),
        0 <= c < CAMERA_COUNT,
        forall|i: int| 0 <= i < jobs.len() && (#[trigger] jobs[i]).cam == c ==> frames[i] is None,
    ensures
        states[n].stats@.len() == CAMERA_COUNT,
        states[n].stats@[c] == states[0].stats@[c],
    decreases n,
{
    if n > 0 {
        lemma_run_prefix(states, jobs, frames, c, n - 1);
        assert(states[(n - 1) + 1].advanced(states[n - 1], jobs[n - 1], frames[n - 1]));
    }
}

proof fn lemma_run_count(states: Seq<Analysis>, jobs: Seq<Job>, frames: Seq<Option<Frame>>, n: int)
    requires
        is_run(states, jobs, frames),
        0 <= n <= jobs.len(),
    ensures
        states[n].done == n,
        states[n].stats@.len() == CAMERA_COUNT,
    decreases n,
{
    if n > 0 {
        lemma_run_count(states, jobs, frames, n - 1);
        assert(states[(n - 1) + 1].advanced(states[n - 1], jobs[n - 1], frames[n - 1]));
    }
}

/// Progress counts every planned frame once, in whatever order the outcomes come,
/// decoded or not: after all of them it has reached the number shown as the total.
pub proof fn lemma_progress_reaches_total(
    project: Project,
    states: Seq<Analysis>,
    jobs: Seq<Job>,
    frames: Seq<Option<Frame>>,
    n: int,
)
    requires
        is_run(states, jobs, frames),
        0 <= n <= jobs.len(),
        ({
            let times = sampled(project, SAMPLE_COUNT as int);
            jobs.len() == job_list(project, times, CAMERA_COUNT - 1, times.len() as int).len()
        }),
    ensures
        states[n].done == n,
        ({
            let times = sampled(project, SAMPLE_COUNT as int);
            states[jobs.len() as int].done == total_cover(project, times, times.len() as int)
        }),
{
    lemma_run_count(states, jobs, frames, n);
    lemma_run_count(states, jobs, frames, jobs.len() as int);
    lemma_total_is_job_count(project, sampled(project, SAMPLE_COUNT as int));
}

/// A camera of which no frame could be decoded is left without pixels, and so
/// without a grade of its own.
pub proof fn lemma_undecoded_camera_is_unmeasured(
    states: Seq<Analysis>,
    jobs: Seq<Job>,
    frames: Seq<Option<Frame>>,
    c: int,
)
    requires
        is_run(states, jobs, frames),
        0 <= c < CAMERA_COUNT,
        forall|i: int| 0 <= i < jobs.len() && (#[trigger] jobs[i]).cam == c ==> frames[i] is None,
    ensures
        states[jobs.len() as int].stats@[c].pixels == 0,
{
    lemma_run_prefix(states, jobs, frames, c, jobs.len() as int);
    assert(states[0].stats@[c].pixels == 0);
}

/// Where no frame could be decoded nothing is measured, and the analysis ends in
/// an error.
pub proof fn lemma_no_frame_measures_nothing(
    states: Seq<Analysis>,
    jobs: Seq<Job>,
    frames: Seq<Option<Frame>>,
    c: int,
)
    requires
        is_run(states, jobs, frames),
        forall|i: int| 0 <= i < frames.len() ==> (#[trigger] frames[i]) is None,
        0 <= c < states[jobs.len() as int].stats@.len(),
    ensures
        states[jobs.len() as int].stats@[c].pixels == 0,
{
    lemma_run_count(states, jobs, frames, jobs.len() as int);
    assert forall|i: int| 0 <= i < jobs.len() && (#[trigger] jobs[i]).cam == c implies frames[i] is None by {
        assert(frames[i] is None);
    }
    lemma_undecoded_camera_is_unmeasured(states, jobs, frames, c);
}

/// The total is nothing only where there is no moment to sample, and then there is
/// no plan: an analysis that starts has a frame to wait for.
pub proof fn lemma_total_counts_every_moment(project: Project, count: int, n: int)
    requires
        project_ok(project),
        count >= 0,
        0 <= n <= sampled(project, count).len(),
    ensures
        total_cover(project, sampled(project, count), n) >= n,
    decreases n,
{
    if n > 0 {
        lemma_total_counts_every_moment(project, count, n - 1);
        lemma_samples_have_best_cover(project, count, n - 1, n - 1, 0);
    }
}

} // verus!
