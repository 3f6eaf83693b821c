//! Measuring cameras and matching them: the light curves are worked out here, and
//! the library counts, searches, averages and clamps.

use trio_capture::autograde::{
    balance_to_grade, brightness_target, contrasts, exposure, exposure_goal, exposure_goals, gains, graded_chroma,
    median, round2, saturations, solve, target_balance, target_mean, CameraStats, Light, Region, Search,
    HIGHLIGHT_CEIL, MEAN_MAX, MEAN_MIN, STOP,
};
use trio_capture::decoder::Frame;
use trio_capture::ffmpeg::HwAccel;
use trio_capture::layout::slot_rects;
use trio_capture::model::{Clip, Grade, LayoutId, Project, Rate};
use trio_capture::sampling::{
    analysis_jobs, check_measured, half_visible, is_project_ok, plan_analysis, sample_times, sample_total, slots_ok,
    visible_region, Analysis, GradeError,
};

const SECOND: i64 = 1_000_000;

fn luma(rgb: [f32; 3]) -> f32 {
    0.2126 * rgb[0] + 0.7152 * rgb[1] + 0.0722 * rgb[2]
}

fn srgb_to_lin(c: f32) -> f32 {
    if c <= 0.04045 {
        c / 12.92
    } else {
        ((c.max(0.0) + 0.055) / 1.055).powf(2.4)
    }
}

fn lin_to_srgb(c: f32) -> f32 {
    if c <= 0.0031308 {
        c * 12.92
    } else {
        1.055 * c.max(0.0).powf(1.0 / 2.4) - 0.055
    }
}

fn micro(x: f32) -> i64 {
    (x as f64 * 1e6).round() as i64
}

fn mean_after(s: &CameraStats, stops: f32) -> f32 {
    if s.is_empty() {
        return 0.0;
    }
    let k = 2f32.powf(stops);
    let sum: f64 =
        s.hist.iter().enumerate().map(|(b, n)| lin_to_srgb(srgb_to_lin(b as f32 / 255.0) * k) as f64 * *n as f64).sum();
    (sum / s.pixels as f64) as f32
}

fn exposure_for_mean(s: &CameraStats, target: f32) -> f32 {
    let mut search = Search::new();
    while !search.done() {
        let stops = search.guess() as f32 / STOP as f32;
        search.feed(mean_after(s, stops) < target);
    }
    search.guess() as f32 / STOP as f32
}

fn shift(y: f32, stops: f32) -> f32 {
    lin_to_srgb(srgb_to_lin(y) * 2f32.powf(stops))
}

fn linear(counts: &[u64], n: u64) -> i64 {
    let sum: f64 =
        counts.iter().enumerate().map(|(b, c)| srgb_to_lin(b as f32 / 255.0) as f64 * *c as f64).sum();
    (sum / n.max(1) as f64 * 1e9).round() as i64
}

const DARK: Light = Light { spread: 0, found: 0, guard: 0, after: 0, red: 0, green: 0, blue: 0 };

fn grades_for(stats: &Vec<CameraStats>) -> Vec<Grade> {
    let mut light = vec![DARK; stats.len()];
    let target = brightness_target(stats) as f32 / 1e6;
    for (s, l) in stats.iter().zip(light.iter_mut()) {
        let e = exposure_for_mean(s, target);
        let hi = s.percentile(950_000) as f32 / 255.0;
        let lo = s.percentile(50_000) as f32 / 255.0;
        l.spread = micro(shift(hi, e) - shift(lo, e));
    }
    for (i, goal) in exposure_goals(stats, &light).into_iter().enumerate() {
        let (Some(goal), s, l) = (goal, &stats[i], &mut light[i]) else {
            continue;
        };
        let p90 = (s.percentile(900_000) as f32 / 255.0).max(1.0 / 255.0);
        l.found = micro(exposure_for_mean(s, goal as f32 / 1e6));
        l.guard = micro((srgb_to_lin(HIGHLIGHT_CEIL as f32 / 1e6) / srgb_to_lin(p90)).log2());
        l.after = micro(mean_after(s, exposure(l.found, l.guard) as f32 / 1e6));
        l.red = linear(&s.red, s.mid_n);
        l.green = linear(&s.green, s.mid_n);
        l.blue = linear(&s.blue, s.mid_n);
    }
    solve(stats, &light)
}

fn apply(g: &Grade, rgb: [f32; 3]) -> [f32; 3] {
    let part = |x: i64| x as f32 / 1e6;
    let k = 2f32.powf(part(g.exposure));
    let gains =
        [1.0 + 0.25 * part(g.temperature), 1.0 - 0.25 * part(g.tint), 1.0 - 0.25 * part(g.temperature)];
    let mut d = [0.0f32; 3];
    for i in 0..3 {
        let v = lin_to_srgb(srgb_to_lin(rgb[i]) * k * gains[i]);
        let v = (v * part(g.gain) + part(g.lift)).max(0.0).powf(1.0 / part(g.gamma).max(0.05));
        d[i] = (v - 0.5) * part(g.contrast) + 0.5;
    }
    let l = luma(d);
    let mut out = [0.0f32; 3];
    for i in 0..3 {
        out[i] = (l + (d[i] - l) * part(g.saturation)).clamp(0.0, 1.0);
    }
    out
}

/// A 64x64 frame with a luma ramp so the percentiles are spread out.
fn frame(scale: f32, cast: [f32; 3]) -> Vec<u8> {
    let mut out = Vec::with_capacity(64 * 64 * 4);
    for y in 0..64 {
        for x in 0..64 {
            let v = scale * (0.1 + 0.9 * (x as f32 / 63.0)) * (0.5 + 0.5 * (y as f32 / 63.0));
            for c in cast {
                out.push(((v * c).clamp(0.0, 1.0) * 255.0).round() as u8);
            }
            out.push(255);
        }
    }
    out
}

fn stats(scale: f32, cast: [f32; 3]) -> CameraStats {
    let mut s = CameraStats::new();
    s.add_frame(&frame(scale, cast), 64, 64);
    s
}

fn graded_mean(scale: f32, cast: [f32; 3], g: &Grade) -> ([f32; 3], f32) {
    let f = frame(scale, cast);
    let mut sum = [0.0f32; 3];
    let mut lum = 0.0;
    for px in f.chunks(4) {
        let out = apply(g, [px[0] as f32 / 255.0, px[1] as f32 / 255.0, px[2] as f32 / 255.0]);
        for i in 0..3 {
            sum[i] += out[i];
        }
        lum += luma(out);
    }
    let n = (f.len() / 4) as f32;
    ([sum[0] / n, sum[1] / n, sum[2] / n], lum / n)
}

#[test]
fn dark_and_bright_cameras_meet() {
    let s = vec![stats(0.35, [1.0; 3]), stats(1.0, [1.0; 3]), CameraStats::new()];
    let g = grades_for(&s);
    assert!(g[0].exposure > 300_000, "dark camera lifted: {:?}", g[0]);
    assert!(g[1].exposure < -300_000, "bright camera lowered: {:?}", g[1]);
    assert_eq!(g[2], Grade::default());
    let (_, m0) = graded_mean(0.35, [1.0; 3], &g[0]);
    let (_, m1) = graded_mean(1.0, [1.0; 3], &g[1]);
    assert!((m0 - m1).abs() < 0.04, "means {m0} vs {m1}");
    let (lo, hi) = (MEAN_MIN as f32 / 1e6, MEAN_MAX as f32 / 1e6);
    assert!(m0 > lo - 0.03 && m0 < hi + 0.03, "mean {m0}");
}

#[test]
fn warm_and_cool_cameras_match() {
    let warm = [1.15, 1.0, 0.85];
    let cool = [0.88, 1.0, 1.12];
    let s = vec![stats(0.6, warm), stats(0.6, cool)];
    let g = grades_for(&s);
    assert!(g[0].temperature < -100_000, "warm camera cooled: {:?}", g[0]);
    assert!(g[1].temperature > 100_000, "cool camera warmed: {:?}", g[1]);
    let ratio = |c: [f32; 3]| (c[0] / c[1], c[2] / c[1]);
    let gap = |ga: &Grade, gb: &Grade| {
        let (a, _) = graded_mean(0.6, warm, ga);
        let (b, _) = graded_mean(0.6, cool, gb);
        let (ra, ba) = ratio(a);
        let (rb, bb) = ratio(b);
        ((ra - rb).abs(), (ba - bb).abs())
    };
    let before = gap(&Grade::default(), &Grade::default());
    let after = gap(&g[0], &g[1]);
    // Half strength in linear light: the display gap shrinks clearly but does not
    // vanish.
    assert!(after.0 < 0.8 * before.0, "R/G gap {before:?} -> {after:?}");
    assert!(after.1 < 0.8 * before.1, "B/G gap {before:?} -> {after:?}");
    assert!(after.0 > 0.3 * before.0, "R/G gap {before:?} -> {after:?}");
}

#[test]
fn well_exposed_single_camera_stays_close_to_neutral() {
    let s = vec![stats(0.8, [1.0; 3])];
    let g = grades_for(&s)[0];
    assert!(g.exposure.abs() < 350_000, "{g:?}");
    assert_eq!(g.temperature, 0);
    assert_eq!(g.tint, 0);
    assert!(g.contrast >= 900_000 && g.contrast <= 1_300_000);
}

#[test]
fn balance_gains_round_trip() {
    let (t, tint) = balance_to_grade(1_100_000, 900_000);
    let rg = 1.0 + 0.25 * t as f64 / 1e6;
    let gg = 1.0 - 0.25 * tint as f64 / 1e6;
    let bg = 1.0 - 0.25 * t as f64 / 1e6;
    assert!((rg / gg - 1.1).abs() < 1e-4);
    assert!((bg / gg - 0.9).abs() < 1e-4);
}

#[test]
fn visible_region_follows_cover_fit_and_zoom() {
    let mut p = Project::default();
    p.layout = LayoutId::VThree;
    // 1080x1920 output, each slot 1080x640 (1.69:1): a 16:9 source loses a little
    // width and keeps its full height.
    let r = visible_region(&p, 0, 1920, 1080);
    assert!(r.v0.abs() < 100 && (r.v1 - 1_000_000).abs() < 100, "{r:?}");
    let want = (1080.0 / 640.0) / (1920.0 / 1080.0);
    assert!(((r.u1 - r.u0) as f64 / 1e6 - want).abs() < 1e-3, "{r:?}");
    p.slots[0].zoom = 2_000_000;
    p.slots[0].pan = (500_000, 0);
    let z = visible_region(&p, 0, 1920, 1080);
    assert!(((z.u1 - z.u0) as f64 / 1e6 - want / 2.0).abs() < 1e-4, "{z:?}");
    assert!((z.u1 - 1_000_000).abs() < 100, "pan clamps at the edge: {z:?}");
    // A camera in no slot is measured whole.
    p.slots[2].camera = 0;
    assert_eq!(visible_region(&p, 2, 1920, 1080), Region { u0: 0, v0: 0, u1: 1_000_000, v1: 1_000_000 });
}

fn clip(offset: i64, duration: i64) -> Clip {
    Clip {
        path: "x.mp4".to_string(),
        duration: duration * SECOND,
        width: 16,
        height: 9,
        fps: Rate { num: 30, den: 1 },
        rotation: 0,
        hdr: false,
        has_audio: true,
        creation_time: None,
        end_stamped: false,
        offset: offset * SECOND,
        sync_confidence: None,
    }
}

#[test]
fn a_third_of_the_picture_shows_a_third_of_the_source() {
    let slot = slot_rects(LayoutId::HThree)[1];
    assert_eq!(half_visible(slot, 1920, 1080, 1920, 1080, 1_000_000), (166_667, 500_000));
    assert_eq!(half_visible(slot, 1920, 1080, 1920, 1080, 2_000_000), (83_333, 250_000));
    assert_eq!(half_visible(slot, 1920, 1080, 640, 2160, 1_000_000), (500_000, 250_000));
}

#[test]
fn sample_times_prefer_full_coverage() {
    let mut p = Project::default();
    p.cameras[0].clips = vec![clip(0, 100)];
    p.cameras[1].clips = vec![clip(40, 30)];
    p.cameras[2].clips = vec![clip(20, 80)];
    let times = sample_times(&p, 5);
    assert_eq!(times.len(), 5);
    for t in &times {
        assert!(*t >= 40 * SECOND && *t < 70 * SECOND, "t={t}");
    }
    assert!(times.windows(2).all(|w| w[1] > w[0]));
}

#[test]
fn samples_are_planned_for_every_camera() {
    let mut p = Project::default();
    assert!(is_project_ok(&p));
    assert!(slots_ok(&p));
    assert!(sample_times(&p, 8).is_empty());
    assert_eq!(sample_total(&p), 0);
    assert!(matches!(plan_analysis(&p, HwAccel::Software), Err(GradeError::NoClips)));
    assert_eq!(GradeError::NoClips.message(), "no clips on the timeline to analyse");
    p.cameras[0].clips = vec![clip(0, 100)];
    p.cameras[2].clips = vec![clip(0, 100)];
    assert_eq!(sample_total(&p), 16);
    let jobs = plan_analysis(&p, HwAccel::Vaapi).unwrap();
    assert_eq!(jobs.len(), 16);
    assert_eq!(jobs[8].cam, 2);
    assert_eq!(jobs[0].request.start, 2 * SECOND);
    assert_eq!((jobs[0].request.width, jobs[0].request.height), (16, 8));
    // Close to the end of a clip the sample is taken half a second before it.
    let late = analysis_jobs(&p, &vec![99_900_000], HwAccel::Software);
    assert_eq!(late[0].request.start, 99_500_000);
}

#[test]
fn samples_are_apart_on_short_stretches_too() {
    let mut p = Project::default();
    p.cameras[0].clips = vec![clip(0, 100)];
    p.range.start = SECOND;
    p.range.end = SECOND + 208;
    let times = sample_times(&p, 200);
    assert_eq!(times.len(), 200);
    assert!(times.windows(2).all(|w| w[1] > w[0]));
    p.range.end = SECOND + 100;
    assert!(sample_times(&p, 200).windows(2).any(|w| w[1] == w[0]));
}

fn picture(value: u8, width: u32, height: u32) -> Frame {
    Frame { time: 0, width, height, rgba: vec![value; (width * height * 4) as usize] }
}

#[test]
fn every_planned_frame_is_one_step() {
    let mut p = Project::default();
    p.cameras[0].clips = vec![clip(0, 100)];
    p.cameras[2].clips = vec![clip(0, 100)];
    let jobs = plan_analysis(&p, HwAccel::Software).unwrap();
    let mut a = Analysis::new();
    for (i, job) in jobs.iter().enumerate().rev() {
        let frame = if job.cam == 0 && i % 2 == 0 { Some(picture(120, 16, 8)) } else { None };
        a.advance(job, &frame);
        assert_eq!(a.done, jobs.len() - i);
    }
    assert_eq!(a.done, sample_total(&p));
    assert_eq!((a.stats[0].frames, a.stats[1].frames, a.stats[2].frames), (4, 0, 0));
    let stats = a.finish().unwrap();
    assert!(!stats[0].is_empty());
    assert!(stats[2].is_empty());
    let grades = grades_for(&stats);
    assert_eq!(grades[1], Grade::default());
    assert_eq!(grades[2], Grade::default());
    // None of the frames could be decoded.
    let mut none = Analysis::new();
    for job in &jobs {
        none.advance(job, &None);
    }
    assert_eq!(none.done, jobs.len());
    assert!(matches!(none.finish(), Err(GradeError::NoFrames)));
}

#[test]
fn an_unmeasured_camera_does_not_count() {
    let two = grades_for(&vec![stats(0.3, [1.0, 0.9, 0.8]), stats(0.8, [0.9, 1.0, 1.0])]);
    for k in 0..3 {
        let mut list = vec![stats(0.3, [1.0, 0.9, 0.8]), stats(0.8, [0.9, 1.0, 1.0])];
        list.insert(k, CameraStats::new());
        let mut three = grades_for(&list);
        assert_eq!(three.remove(k), Grade::default());
        assert_eq!(three, two);
    }
}

#[test]
fn nothing_decoded_is_an_error() {
    let none = vec![CameraStats::new(), CameraStats::new()];
    assert!(matches!(check_measured(&none), Err(GradeError::NoFrames)));
    assert_eq!(GradeError::NoFrames.message(), "no frames could be decoded for analysis");
    let some = vec![CameraStats::new(), stats(0.5, [1.0; 3])];
    assert!(check_measured(&some).is_ok());
}

#[test]
fn pixels_are_counted_once() {
    let mut s = CameraStats::new();
    assert!(s.is_empty());
    // White, black, mid grey, red.
    let rgba = vec![255, 255, 255, 0, 0, 0, 0, 0, 128, 128, 128, 0, 255, 0, 0, 0];
    s.add_frame(&rgba, 2, 2);
    assert_eq!((s.pixels, s.frames), (4, 1));
    assert_eq!(s.hist.iter().sum::<u64>(), 4);
    assert_eq!((s.hist[0], s.hist[255], s.hist[128], s.hist[54]), (1, 1, 1, 1));
    assert_eq!((s.chroma_n, s.chroma_sum), (3, 255));
    assert_eq!((s.mid_n, s.red[128], s.red[255], s.green[0]), (2, 1, 1, 1));
    assert_eq!(s.balance(&Light { red: 1, green: 1, blue: 1, ..DARK }), None);
    assert_eq!(s.mean_luma(), 428_431);
    assert_eq!(s.mean_chroma(), 333_333);
    assert_eq!(s.percentile(500_000), 54);
    assert_eq!(s.percentile(1_000_000), 255);
    // The right half of the picture.
    let mut right = CameraStats::new();
    right.add_region(&rgba, 2, 2, Region { u0: 500_000, v0: 0, u1: 1_000_000, v1: 1_000_000 });
    assert_eq!((right.pixels, right.hist[0], right.hist[54]), (2, 1, 1));
    // Too few bytes count for nothing.
    right.add_frame(&vec![0; 15], 2, 2);
    assert_eq!((right.pixels, right.frames), (2, 1));
}

#[test]
fn targets_stay_in_their_windows() {
    assert_eq!(target_mean(&vec![100_000, 200_000]), 280_000);
    assert_eq!(target_mean(&vec![300_000, 400_000]), 350_000);
    assert_eq!(contrasts(&vec![800_000, 700_000]), vec![950_000, 1_071_429]);
    assert_eq!(exposure_goal(400_000, 1_250_000), 420_000);
    assert_eq!(exposure(1_000_000, 500_000), 500_000);
    assert_eq!(exposure(1_000_000, -500_000), 0);
    assert_eq!(exposure(-9_000_000, 0), -2_500_000);
    assert_eq!(graded_chroma(200_000, 400_000, 500_000, 1_000_000), 250_000);
    assert_eq!(saturations(&vec![200_000, 100_000]), vec![800_000, 1_500_000]);
    assert_eq!(median(&vec![3, 1, 2]), 2);
    assert_eq!(median(&vec![1, 3]), 2);
    assert_eq!(target_balance(&vec![Some((1, 2)), None]), None);
    assert_eq!(target_balance(&vec![Some((10, 20)), None, Some((30, 40))]), Some((20, 30)));
    assert_eq!(round2(1_234_567), 1_230_000);
    assert_eq!(round2(-1_235_000), -1_240_000);
}

fn flat(rgb: [u8; 3]) -> CameraStats {
    let mut s = CameraStats::new();
    let rgba: Vec<u8> = (0..64).flat_map(|_| [rgb[0], rgb[1], rgb[2], 255]).collect();
    s.add_frame(&rgba, 8, 8);
    s
}

#[test]
fn two_cameras_are_solved_together() {
    let s = vec![flat([100, 100, 100]), CameraStats::new(), flat([200, 100, 50])];
    let grey = Light {
        spread: 800_000,
        found: 1_234_567,
        guard: 2_000_000,
        after: 500_000,
        red: 200_000_000,
        green: 200_000_000,
        blue: 200_000_000,
    };
    let warm = Light {
        spread: 700_000,
        found: 900_000,
        guard: 500_000,
        after: 462_745,
        red: 400_000_000,
        green: 100_000_000,
        blue: 25_000_000,
    };
    assert_eq!(brightness_target(&s), 427_451);
    let light = vec![grey, DARK, warm];
    assert_eq!(exposure_goals(&s, &light), vec![Some(423_633), None, Some(432_288)]);
    assert_eq!(s[2].balance(&warm), Some((4_000_000, 250_000)));
    let g = solve(&s, &light);
    let neutral = Grade::default();
    let first = Grade {
        exposure: 1_230_000,
        contrast: 950_000,
        saturation: 1_500_000,
        temperature: 1_000_000,
        tint: 630_000,
        ..neutral
    };
    let third = Grade {
        exposure: 500_000,
        contrast: 1_070_000,
        saturation: 800_000,
        temperature: -1_000_000,
        tint: 630_000,
        ..neutral
    };
    assert_eq!(g, vec![first, neutral, third]);
}

#[test]
fn balances_move_halfway() {
    let goal = Some((4_000_000, 1_000_000));
    assert_eq!(gains(goal, Some((1_000_000, 250_000))), Some((2_000_000, 2_000_000)));
    assert_eq!(gains(goal, Some((2_000_000, 0))), Some((1_414_214, 31_622_777)));
    assert_eq!(gains(goal, None), None);
    assert_eq!(gains(None, goal), None);
    assert_eq!(flat([100, 100, 100]).balance(&Light { red: 5, ..DARK }), None);
}

#[test]
fn the_search_halves_its_range() {
    // One stop is the target: everything below it is too dark.
    let mut s = Search::new();
    assert_eq!(s.guess(), 0);
    let mut rounds = 0;
    while !s.done() {
        let below = s.guess() < STOP;
        s.feed(below);
        rounds += 1;
    }
    assert_eq!(rounds, 40);
    assert!((s.guess() - STOP).abs() <= 12);
}
