//! The frame grid, the length of the timeline, and file names.

use crate::model::{
    cameras_end, file_name_of, last_part, latest_end, part_start, timeline_length, Camera, Clip, LayoutId,
    Project, Rate,
};
use crate::timeline::{nearest_frame, snapped};
use crate::units::{lemma_rounded_grows, lemma_rounded_near, lemma_rounded_whole, size};
use vstd::prelude::*;

verus! {

/// A rate of so many frames in so many seconds: they take that long, and one is on then.
pub proof fn lemma_frames_fill_seconds(r: Rate, n: int)
    requires
        r.ok(),
        n >= 0,
    ensures
        r.time_of(n * r.num) == n * r.den * 1_000_000,
        r.frame_at(n * r.den * 1_000_000) == n * r.num,
        nearest_frame(r, n * r.den * 1_000_000) == n * r.num,
{
    let a = r.num as int;
    let step = r.den * 1_000_000;
    assert((n * a) * step == (n * r.den * 1_000_000) * a) by (nonlinear_arith)
        requires
            step == r.den * 1_000_000,
    ;
    lemma_rounded_whole(n * r.den * 1_000_000, a);
    lemma_rounded_whole(n * a, step);
    vstd::arithmetic::div_mod::lemma_div_multiples_vanish(n * a, step);
    assert((n * a) * step == step * (n * a)) by (nonlinear_arith);
}

/// Later frames come later, and a frame is on at its own start, but for the rounding.
pub proof fn lemma_frames_go_up(r: Rate, j: int, k: int)
    requires
        r.ok(),
        0 <= j <= k,
    ensures
        r.time_of(0) == 0,
        r.time_of(j) <= r.time_of(k),
        k - 1 <= r.frame_at(r.time_of(k)) <= k,
        nearest_frame(r, r.time_of(k)) == k,
{
    let n = r.num as int;
    let step = r.den * 1_000_000;
    assert(j * step <= k * step) by (nonlinear_arith)
        requires
            j <= k,
            step > 0,
    ;
    assert(0 * step == 0);
    lemma_rounded_whole(0, n);
    lemma_rounded_grows(j * step, k * step, n);
    let t = r.time_of(k);
    lemma_rounded_near(k * step, n);
    let top = t * n;
    vstd::arithmetic::div_mod::lemma_fundamental_div_mod(top, step);
    vstd::arithmetic::div_mod::lemma_mod_bound(top, step);
    let f = r.frame_at(t);
    assert(k - 1 <= f <= k) by (nonlinear_arith)
        requires
            -n <= 2 * (k * step - top) <= n,
            top == step * f + top % step,
            0 <= top % step < step,
            0 < n < step,
    ;
    let g = nearest_frame(r, t);
    lemma_rounded_near(top, step);
    assert(g == k) by (nonlinear_arith)
        requires
            -n <= 2 * (k * step - top) <= n,
            -step <= 2 * (top - g * step) <= step,
            0 < n < step,
    ;
}

/// No frame is nearer to a time than the one that it is moved to, but for the rounding,
/// and times keep their order.
pub proof fn lemma_snap_takes_the_nearest(r: Rate, t: int, u: int, j: int)
    requires
        r.ok(),
        t <= u,
    ensures
        size(snapped(r, t) - t) <= size(r.time_of(j) - t) + 1,
        snapped(r, t) <= snapped(r, u),
{
    let n = r.num as int;
    let step = r.den * 1_000_000;
    let k = nearest_frame(r, t);
    let s = snapped(r, t);
    let o = r.time_of(j);
    lemma_rounded_near(t * n, step);
    lemma_rounded_near(k * step, n);
    lemma_rounded_near(j * step, n);
    let dk = k * step - t * n;
    let dj = j * step - t * n;
    if j != k {
        assert(size(dj) >= size(dk)) by {
            assert(dj == dk + (j - k) * step) by (nonlinear_arith)
                requires
                    dk == k * step - t * n,
                    dj == j * step - t * n,
            ;
            assert((j - k) * step >= step || (j - k) * step <= -step) by (nonlinear_arith)
                requires
                    j != k,
                    step > 0,
            ;
        }
    }
    let ds = s - t;
    let d = o - t;
    assert(-n <= 2 * (dk - ds * n) <= n) by (nonlinear_arith)
        requires
            -n <= 2 * (k * step - s * n) <= n,
            dk == k * step - t * n,
            ds == s - t,
    ;
    assert(-n <= 2 * (dj - d * n) <= n) by (nonlinear_arith)
        requires
            -n <= 2 * (j * step - o * n) <= n,
            dj == j * step - t * n,
            d == o - t,
    ;
    assert(size(ds) <= size(d) + 1) by (nonlinear_arith)
        requires
            -n <= 2 * (dk - ds * n) <= n,
            -n <= 2 * (dj - d * n) <= n,
            (if dj < 0 {
                -dj
            } else {
                dj
            }) >= (if dk < 0 {
                -dk
            } else {
                dk
            }),
            size(ds) == (if ds < 0 {
                -ds
            } else {
                ds
            }),
            size(d) == (if d < 0 {
                -d
            } else {
                d
            }),
            n > 0,
    ;
    assert(t * n <= u * n) by (nonlinear_arith)
        requires
            t <= u,
            n > 0,
    ;
    lemma_rounded_grows(t * n, u * n, step);
    let m = nearest_frame(r, u);
    assert(k * step <= m * step) by (nonlinear_arith)
        requires
            k <= m,
            step > 0,
    ;
    lemma_rounded_grows(k * step, m * step, n);
}

proof fn lemma_latest_is_reached(clips: Seq<Clip>, n: int, floor: int)
    requires
        0 <= n <= clips.len(),
    ensures
        latest_end(clips, n, floor) == floor || exists|k: int|
            0 <= k < n && (#[trigger] clips[k]).offset + clips[k].duration == latest_end(clips, n, floor),
    decreases n,
{
    if n > 0 {
        lemma_latest_is_reached(clips, n - 1, floor);
        assert(clips[n - 1].offset + clips[n - 1].duration == latest_end(clips, n, floor) || latest_end(clips, n, floor)
            == latest_end(clips, n - 1, floor));
    }
}

/// A clip ends at a time.
pub open spec fn ends_at(cameras: Seq<Camera>, c: int, k: int, t: int) -> bool {
    &&& 0 <= c < cameras.len()
    &&& 0 <= k < cameras[c].clips@.len()
    &&& cameras[c].clips@[k].offset + cameras[c].clips@[k].duration == t
}

proof fn lemma_end_is_reached(cameras: Seq<Camera>, n: int)
    requires
        0 <= n <= cameras.len(),
    ensures
        cameras_end(cameras, n) >= 0,
        cameras_end(cameras, n) == 0 || exists|c: int, k: int| ends_at(cameras, c, k, cameras_end(cameras, n)),
    decreases n,
{
    if n > 0 {
        lemma_end_is_reached(cameras, n - 1);
        let clips = cameras[n - 1].clips@;
        let floor = cameras_end(cameras, n - 1);
        crate::model::lemma_latest_end(clips, clips.len() as int, floor, 0);
        lemma_latest_is_reached(clips, clips.len() as int, floor);
        let e = cameras_end(cameras, n);
        if e != floor {
            let k = choose|k: int|
                0 <= k < clips.len() && (#[trigger] clips[k]).offset + clips[k].duration == latest_end(
                    clips,
                    clips.len() as int,
                    floor,
                );
            assert(ends_at(cameras, n - 1, k, e));
        }
    }
}

/// The timeline is as long as the master recording. Without one it ends with the last
/// clip: none ends later, and one ends then, unless all are over before the start.
pub proof fn lemma_timeline_ends_with_the_last_clip(p: Project, wav: Option<i64>, c: int, k: int)
    requires
        0 <= c < p.cameras@.len(),
        0 <= k < p.cameras@[c].clips@.len(),
    ensures
        wav matches Some(w) && w > 0 ==> timeline_length(p, wav) == wav->0,
        !(wav matches Some(w) && w > 0) ==> {
            &&& timeline_length(p, wav) >= 0
            &&& p.cameras@[c].clips@[k].offset + p.cameras@[c].clips@[k].duration <= timeline_length(p, wav)
            &&& timeline_length(p, wav) == 0 || exists|a: int, b: int|
                ends_at(p.cameras@, a, b, timeline_length(p, wav))
        },
{
    let n = p.cameras@.len() as int;
    crate::model::lemma_clips_end_by_duration(p.cameras@, n, c, k);
    lemma_end_is_reached(p.cameras@, n);
}

/// A clip covers its first moment and no longer its end, and lasts as long as it is.
pub proof fn lemma_clip_covers_its_length(c: Clip, t: int)
    requires
        c.duration > 0,
    ensures
        c.covers(c.offset as int),
        !c.covers(c.offset + c.duration),
        c.covers(c.offset + c.duration - 1),
        !c.covers(c.offset - 1),
        c.offset <= t < c.offset + c.duration <==> c.covers(t),
{
}

/// Every layout has one for the other orientation that is named after it in the menu.
pub proof fn lemma_orientations()
    ensures
        LayoutId::HThree.is_horizontal() && !LayoutId::VThree.is_horizontal(),
        LayoutId::HBigLeft.is_horizontal() && !LayoutId::VBigTop.is_horizontal(),
        LayoutId::HBigCenterPip.is_horizontal() && !LayoutId::VFullPip.is_horizontal(),
        LayoutId::HBigCenterPip.name() == LayoutId::VFullPip.name(),
{
}

proof fn lemma_part_starts_behind_slash(s: Seq<char>, k: int, n: int)
    requires
        0 <= k <= n <= s.len(),
        k == 0 || s[k - 1] == '/',
        forall|i: int| k <= i < n ==> #[trigger] s[i] != '/',
    ensures
        part_start(s, n) == k,
    decreases n,
{
    if n > k {
        lemma_part_starts_behind_slash(s, k, n - 1);
    }
}

/// A name in a folder is what the path's last part is, with or without a slash behind
/// it; a path without a slash is its own last part.
pub proof fn lemma_last_part_is_the_name(dir: Seq<char>, name: Seq<char>)
    requires
        name.len() > 0,
        forall|i: int| 0 <= i < name.len() ==> #[trigger] name[i] != '/',
        name != seq!['.'],
        name != seq!['.', '.'],
    ensures
        file_name_of(dir + seq!['/'] + name) == name,
        file_name_of((dir + seq!['/'] + name).push('/')) == name,
        file_name_of(name) == name,
{
    let s = dir + seq!['/'] + name;
    let k = dir.len() + 1;
    assert(s.last() == name.last());
    assert(name.last() != '/') by {
        assert(name[name.len() - 1] != '/');
    }
    assert forall|i: int| k <= i < s.len() implies #[trigger] s[i] != '/' by {
        assert(s[i] == name[i - k]);
    }
    lemma_part_starts_behind_slash(s, k as int, s.len() as int);
    assert(s.skip(k as int) =~= name);
    assert(s.push('/').drop_last() =~= s);
    assert(s.push('/').last() == '/');
    lemma_part_starts_behind_slash(name, 0, name.len() as int);
    assert(name.skip(0) =~= name);
    assert(last_part(s) == Some(name));
}

/// A file name never holds a slash.
pub proof fn lemma_file_name_has_no_slash(s: Seq<char>, i: int)
    ensures
        0 <= i < file_name_of(s).len() ==> file_name_of(s)[i] != '/',
    decreases s.len(),
{
    if s.len() > 0 {
        if s.last() == '/' {
            lemma_file_name_has_no_slash(s.drop_last(), i);
        } else {
            let k = part_start(s, s.len() as int);
            lemma_no_slash_from(s, s.len() as int, k + i);
            if s.skip(k) == seq!['.'] && 0 < k < s.len() {
                lemma_file_name_has_no_slash(s.take(k), i);
            }
        }
    }
}

proof fn lemma_no_slash_from(s: Seq<char>, n: int, i: int)
    requires
        0 <= n <= s.len(),
    ensures
        0 <= part_start(s, n) <= n,
        part_start(s, n) <= i < n ==> s[i] != '/',
    decreases n,
{
    if n > 0 && s[n - 1] != '/' {
        lemma_no_slash_from(s, n - 1, i);
    }
}

/// A new project is empty: full HD at thirty frames a second, each slot with its own
/// camera, cover-fit.
pub proof fn lemma_new_project_is_plain(p: Project, k: int)
    requires
        crate::model::fresh_project(p),
        0 <= k < 3,
    ensures
        p.output.fps.num == 30 * p.output.fps.den,
        p.size_of_output() == (1920u32, 1080u32),
        p.output.codec == crate::model::Codec::H264Software,
        p.output.quality == 18,
        p.output.path is None,
        p.layout == LayoutId::HBigLeft,
        p.wav is None,
        p.slots@[k].camera == k,
        p.slots@[k].zoom == 1_000_000,
        p.slots@[k].pan == (0i64, 0i64),
        p.cameras@.len() == 3,
        p.cameras@[k].clips@.len() == 0,
        p.cameras@[k].grade == crate::model::Grade::neutral(),
        p.range.start == p.range.end,
{
    assert(p.slots@[k] == crate::model::Slot::plain(k as usize));
    assert(crate::model::fresh_camera(p.cameras@[k], k));
}

/// A dot at the end of a path stays in the folder and does not count; two dots lead
/// upwards, and such a path has no last part, nor has one of slashes alone.
pub proof fn lemma_dots_at_the_end(s: Seq<char>)
    ensures
        last_part(s.push('/')) == last_part(s),
        last_part(s.push('/').push('.')) == last_part(s),
        last_part(s.push('/').push('.').push('.')) is None,
        last_part(Seq::<char>::empty()) is None,
        last_part(seq!['.']) is None,
        last_part(seq!['.', '.']) is None,
{
    let a = s.push('/');
    let b = a.push('.');
    let c = b.push('.');
    let n = a.len() as int;
    assert(a.drop_last() =~= s);
    assert(a.last() == '/');
    assert(last_part(a) == last_part(s));
    lemma_part_starts_behind_slash(b, n, n + 1);
    assert(b.last() == '.');
    assert(b.skip(n) =~= seq!['.']);
    assert(b.take(n) =~= a);
    if b.skip(n) == seq!['.', '.'] {
        assert(b.skip(n).len() == 2);
    }
    assert(last_part(b) == last_part(a));
    lemma_part_starts_behind_slash(c, n, n + 2);
    assert(c.last() == '.');
    assert(c.skip(n) =~= seq!['.', '.']);
    let d = seq!['.'];
    lemma_part_starts_behind_slash(d, 0, 1);
    assert(d.last() == '.');
    assert(d.skip(0) =~= d);
    if d.skip(0) == seq!['.', '.'] {
        assert(d.skip(0).len() == 2);
    }
    let e = seq!['.', '.'];
    lemma_part_starts_behind_slash(e, 0, 2);
    assert(e.last() == '.');
    assert(e.skip(0) =~= e);
}

} // verus!
