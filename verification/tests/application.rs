//! The running program: background work, the timeline and the keys.

use trio_capture::app::{
    existing_name, first_clip, join_all, jobs_left, names_project, project_in_folder, seconds_text, App, JobResult,
    Tab,
};
use trio_capture::arrange::{Arranged, Placement};
use trio_capture::discover::Shoot;
use trio_capture::ffmpeg::HwAccel;
use trio_capture::model::{Clip, Grade, Orientation, Project, Range, Rate};
use trio_capture::timeline::{
    clip_block, clip_label, column_samples, drag_clip, drag_time, drop_clip, fmt_time, is_doubtful, ruler_marks,
    ruler_step, shift_clips, snap, strip, waveform, Timeline, Wheel,
};
use trio_capture::transport::{
    at_end, effective_range, handle_keys, must_advance, preview_size, repaint, seek_target, set_in, set_out,
    startup_ready, toggle_play, KeyAction, Keys, Repaint, Toggle,
};

const SECOND: i64 = 1_000_000;
const FPS: Rate = Rate { num: 30, den: 1 };

fn clip(path: &str, offset: i64, duration: i64) -> Clip {
    Clip {
        path: path.to_string(),
        duration,
        width: 16,
        height: 9,
        fps: FPS,
        rotation: 0,
        hdr: false,
        has_audio: true,
        creation_time: None,
        end_stamped: false,
        offset,
        sync_confidence: None,
    }
}

fn started() -> App {
    App::new("ready".to_string())
}

fn shoot() -> Shoot {
    Shoot {
        root: "/s/gig".to_string(),
        cameras: vec!["/s/gig/Cam1".to_string(), "/s/gig/Cam2".to_string()],
        wav: Some("/s/gig/m.wav".to_string()),
        skipped_cameras: vec![],
        other_audio: vec!["/s/gig/x.mp3".to_string()],
    }
}

#[test]
fn a_folder_is_scanned_loaded_and_synced() {
    let mut a = started();
    let act = a.open_folder("/s/gig", &shoot()).unwrap();
    assert!(act.load_wav && act.stop && act.reset_view && !act.start_sync);
    assert_eq!(a.project_path.as_deref(), Some("/s/gig/gig.trio.json"));
    assert_eq!(a.status, "Opened /s/gig: only 2 camera folder(s); using m.wav as master audio");
    assert_eq!(a.project.cameras[1].name, "Cam2");
    assert_eq!(a.project.cameras[2].name, "Cam 3");
    assert_eq!((a.flow.pending_scans, a.flow.auto_sync, a.flow.tab), (2, true, Tab::Layout));
    let one = vec![clip("/s/gig/Cam1/a.mp4", 0, 60 * SECOND)];
    let act = a.apply_job(JobResult::Scanned { cam: 0, folder: "/s/gig/Cam1".to_string(), found: Ok(one) });
    assert!(act.detect_hwaccel && !act.start_sync);
    assert_eq!(a.status, "/s/gig/Cam1: 1 clips");
    let act = a.apply_job(JobResult::WavLoaded(Ok(90_040_000)));
    assert!(!act.start_sync);
    assert_eq!(a.status, "WAV loaded: 90.0s");
    let two = vec![clip("/s/gig/Cam2/b.mp4", 0, 60 * SECOND)];
    let act = a.apply_job(JobResult::Scanned { cam: 1, folder: "/s/gig/Cam2".to_string(), found: Ok(two) });
    assert!(act.start_sync);
    assert_eq!(a.status, "Syncing 0/2 clips…");
    assert!(a.flow.syncing && !a.flow.auto_sync);
    a.apply_job(JobResult::SyncProgress);
    assert_eq!(a.status, "Syncing 1/2 clips…");
    let r = Arranged { offset: 3 * SECOND, confidence: 0, placement: Placement::Timestamp };
    a.apply_job(JobResult::Synced { cam: 1, index: 0, result: r });
    a.apply_job(JobResult::Synced { cam: 1, index: 7, result: r });
    assert_eq!(a.project.cameras[1].clips[0].offset, 3 * SECOND);
    assert_eq!(a.project.cameras[1].clips[0].sync_confidence, Some(0));
    a.flow.tab = Tab::Import;
    let act = a.apply_job(JobResult::SyncFinished);
    assert!(act.start_grade && act.revisit);
    assert!(!a.flow.syncing);
    assert_eq!(a.flow.tab, Tab::Layout);
    assert_eq!(a.status, "Auto grading 0/16 frames…");
    assert!(a.unmatched.is_empty());
    a.apply_job(JobResult::GradeProgress);
    assert_eq!(a.status, "Auto grading 1/16 frames…");
    let g = Grade { exposure: 100_000, ..Grade::default() };
    a.apply_job(JobResult::Graded(Ok(vec![g, g, Grade::default()])));
    assert!(!a.flow.grading);
    assert_eq!(a.project.cameras[0].grade, g);
    a.project.cameras[0].grade = Grade::default();
    assert!(a.back_to_automatic());
    assert_eq!(a.project.cameras[0].grade, g);
    assert_eq!(a.duration(), 90_040_000);
}

#[test]
fn sync_by_hand_needs_a_recording_and_clips() {
    let mut a = started();
    assert!(!a.start_sync_all());
    assert_eq!(a.error.as_deref(), Some("Load the WAV first"));
    a.apply_job(JobResult::WavLoaded(Ok(SECOND)));
    assert!(!a.start_sync_all());
    a.project.cameras[0].clips = vec![clip("a", 0, 5)];
    assert!(a.start_sync_all());
    assert_eq!(a.flow.sync_total, 1);
}

#[test]
fn failures_are_shown() {
    let mut a = started();
    a.import_camera();
    assert_eq!(a.status, "Scanning…");
    a.apply_job(JobResult::Scanned { cam: 0, folder: "x".to_string(), found: Err("gone".to_string()) });
    assert_eq!(a.error.as_deref(), Some("gone"));
    a.import_wav("w.wav");
    assert_eq!(a.project.wav.as_deref(), Some("w.wav"));
    a.apply_job(JobResult::WavLoaded(Err("silent".to_string())));
    assert!(!a.flow.auto_sync);
    a.apply_job(JobResult::Graded(Err("dark".to_string())));
    assert_eq!(a.error.as_deref(), Some("Auto grade: dark"));
    assert!(!a.start_auto_grade());
    assert_eq!(a.error.as_deref(), Some("Nothing to grade: no clips on the timeline"));
    let empty = Shoot { root: "r".to_string(), cameras: vec![], wav: None, skipped_cameras: vec![], other_audio: vec![] };
    assert!(a.open_folder("r", &empty).is_none());
    assert_eq!(a.error.as_deref(), Some("No camera folders found in r.\nExpected subfolders with video files."));
    a.open_project("p", Err("broken".to_string()));
    assert_eq!(a.error.as_deref(), Some("broken"));
    assert!(!a.back_to_automatic());
}

#[test]
fn unmatched_clips_are_named() {
    let mut a = started();
    a.project.cameras[0].clips = vec![clip("d/a.mp4", 0, 5)];
    a.project.cameras[0].grade.exposure = 1;
    let r = Arranged { offset: 1, confidence: 0, placement: Placement::Unknown };
    a.apply_job(JobResult::Synced { cam: 0, index: 0, result: r });
    let act = a.apply_job(JobResult::SyncFinished);
    assert!(!act.start_grade);
    assert_eq!(a.status, "Sync finished; no audio match for a.mp4 (placed by timestamp)");
    a.apply_job(JobResult::SyncFinished);
    assert_eq!(a.status, "Sync finished");
}

#[test]
fn projects_are_opened_and_saved() {
    let mut a = started();
    let mut p = Project::default();
    p.wav = Some("m.wav".to_string());
    p.cameras[2].clips = vec![clip("c.mp4", 0, 5)];
    assert_eq!(first_clip(&p).as_deref(), Some("c.mp4"));
    let act = a.open_project("d/p.trio.json", Ok(p));
    assert!(act.load_wav && act.detect_hwaccel && act.reset_streams);
    assert_eq!(a.status, "Loading WAV…");
    assert!(!a.flow.dirty);
    let act = a.apply_job(JobResult::HwAccelFound(HwAccel::Vaapi));
    assert!(act.rebuild_streams);
    assert_eq!(a.status, "Decoding: VAAPI");
    let act = a.project_changed();
    assert!(act.revisit && a.flow.dirty);
    a.save_project("d/q.trio.json", None);
    assert_eq!((a.status.as_str(), a.flow.dirty), ("Project saved", false));
    a.save_project("d/r.trio.json", Some("full".to_string()));
    assert_eq!(a.project_path.as_deref(), Some("d/q.trio.json"));
    a.start_export(None);
    assert_eq!(a.status, "Exporting 1920x1080…");
    a.export_ended(None, "o.mp4");
    assert_eq!(a.status, "Export finished: o.mp4");
    a.export_ended(Some("pipe".to_string()), "o.mp4");
    assert_eq!((a.status.as_str(), a.error.as_deref()), ("Export failed: pipe", Some("pipe")));
    a.show_tab(Tab::Grade);
    a.flow.show_original = true;
    a.show_tab(Tab::Export);
    assert!(!a.flow.show_original);
    let act = a.new_project();
    assert!(act.stop);
    assert!(a.project.wav.is_none() && a.project_path.is_none());
}

#[test]
fn the_first_project_of_a_folder_is_taken() {
    let names: Vec<String> =
        ["b.trio.json", "a.trio.json", "a.json", "0.txt"].iter().map(|n| n.to_string()).collect();
    assert_eq!(project_in_folder("r", &names).as_deref(), Some("r/a.trio.json"));
    assert_eq!(project_in_folder("r", &vec![]), None);
    assert!(names_project("x.trio.json"));
    assert!(!names_project("x.trio.jsonl"));
    assert_eq!(existing_name("a/b"), "b");
    assert_eq!(existing_name("/"), "/");
    assert_eq!(join_all(&vec!["a".to_string(), "b".to_string()], "; "), "a; b");
    assert_eq!(seconds_text(12_349_999), "12.3");
}

#[test]
fn only_last_results_end_a_job() {
    let r = Arranged { offset: 1, confidence: 0, placement: Placement::Unknown };
    let list = vec![
        JobResult::SyncProgress,
        JobResult::Synced { cam: 0, index: 0, result: r },
        JobResult::SyncFinished,
        JobResult::GradeProgress,
        JobResult::HwAccelFound(HwAccel::Software),
    ];
    assert_eq!(jobs_left(3, &list), 1);
    assert_eq!(jobs_left(1, &list), 0);
}

#[test]
fn the_view_settles_zooms_and_pans() {
    let mut v = Timeline::new();
    v.settle(100 * SECOND);
    assert_eq!((v.start, v.end), (0, 102 * SECOND));
    let width = 1_000_000;
    assert_eq!(v.x_of(51 * SECOND, width), 500_000);
    assert_eq!(v.t_of(500_000, width), 51 * SECOND);
    assert_eq!(v.seek_to(1_000_000, width, 100 * SECOND), 100 * SECOND);
    assert_eq!(v.visible_x(200 * SECOND, width), None);
    assert_eq!(v.clamped_x(200 * SECOND, width), width);
    let zoom = Wheel { x: 0, y: 100_000, zoom: true, shift: false, pointer: Some(500_000) };
    assert!(v.wheel(zoom, 0, 100 * SECOND, width));
    assert_eq!(v.span(), 71_400_000);
    assert_eq!(v.t_of(500_000, width), 51 * SECOND);
    let pan = Wheel { x: 0, y: -100_000, zoom: false, shift: true, pointer: None };
    let before = v.start;
    assert!(v.wheel(pan, 0, 100 * SECOND, width));
    assert_eq!(v.start - before, 7_140_000);
    assert_eq!(v.span(), 71_400_000);
    let far = Wheel { x: 1_000_000_000, y: 0, zoom: false, shift: false, pointer: None };
    assert!(v.wheel(far, 0, 100 * SECOND, width));
    assert_eq!(v.start, -7_140_000);
    assert!(v.zoom_key(true, 10 * SECOND, 100 * SECOND, width));
    assert!(v.span() < 71_400_000);
    let drawn = v.x_of(33_333_333, width) as i64;
    assert!((v.t_of(drawn, width) - 33_333_333).abs() <= 40);
    v.reset_view();
    v.settle(0);
    assert_eq!(v.end, 10_200_000);
    // Two fingers that move apart by a quarter show four fifths.
    let mut p = Timeline { start: 0, end: 100 * SECOND, initialized: true };
    assert!(p.pinch(1_250_000, Some(500_000), 0, 100 * SECOND, width));
    assert_eq!(p.t_of(500_000, width), 50 * SECOND);
    assert!((p.span() - 80 * SECOND).abs() < 1_000);
    assert!(p.pinch(800_000, None, 50 * SECOND, 100 * SECOND, width));
    assert!((p.span() - 100 * SECOND).abs() < 1_000);
}

#[test]
fn ruler_and_waveform() {
    let v = Timeline { start: -SECOND, end: 99 * SECOND, initialized: true };
    assert_eq!(ruler_step(&v, 1_000_000), 10 * SECOND);
    let marks = ruler_marks(&v, 10 * SECOND);
    assert_eq!((marks[0], marks[1], marks.len()), (-10 * SECOND, 0, 11));
    assert_eq!(column_samples(&v, 10, 1_000_000, 1_000_000), (0, 800));
    assert_eq!(strip(&vec![5, -3, 9], 0, 3), (-3, 9));
    assert_eq!(strip(&vec![5, 3, 9], 0, 2), (0, 5));
    let w = Timeline { start: 0, end: SECOND, initialized: true };
    assert_eq!(column_samples(&w, 1, 4_000, 5_000), (2_000, 4_000));
    let mono: Vec<i32> = (0..5_000).map(|i| if i < 3_000 { i } else { -i }).collect();
    assert_eq!(waveform(&w, 4_000, &mono), vec![(0, 1_999), (-3_999, 2_999), (-4_999, 0), (0, 0)]);
    assert_eq!(fmt_time(83_456_000), "01:23.46");
    assert_eq!(fmt_time(-5), "00:00.00");
    // Halves go to the even digit.
    assert_eq!(fmt_time(125_000), "00:00.12");
    assert_eq!(fmt_time(135_000), "00:00.14");
    assert_eq!(fmt_time(125_001), "00:00.13");
}

#[test]
fn clips_on_the_timeline() {
    let v = Timeline { start: 0, end: 100 * SECOND, initialized: true };
    let mut p = Project::default();
    p.cameras[0].clips = vec![clip("d/a.mp4", -10 * SECOND, 30 * SECOND), clip("d/b.mp4", 200 * SECOND, SECOND)];
    assert_eq!(clip_block(&v, &p.cameras[0].clips[0], 1_000_000), Some((0, 200_000)));
    assert_eq!(clip_block(&v, &p.cameras[0].clips[1], 1_000_000), None);
    assert_eq!(drag_time(&v, 10_000, 1_000_000), 1_000_000);
    assert!(drag_clip(&mut p, 0, 1, SECOND, false));
    assert_eq!(p.cameras[0].clips[1].offset, 201 * SECOND);
    assert!(drag_clip(&mut p, 0, 1, SECOND, true));
    assert_eq!((p.cameras[0].clips[0].offset, p.cameras[0].clips[1].offset), (-9 * SECOND, 202 * SECOND));
    shift_clips(&mut p.cameras[0].clips, -SECOND);
    assert_eq!(p.cameras[0].clips[0].offset, -10 * SECOND);
    assert_eq!(snap(FPS, 110_000), 100_000);
    assert_eq!(snap(FPS, snap(FPS, 140_000)), snap(FPS, 140_000));
    p.cameras[0].clips[1].offset = 140_000;
    drop_clip(&mut p, 0, 1);
    assert_eq!((p.cameras[0].clips[0].offset, p.cameras[0].clips[1].offset), (-10 * SECOND, 133_333));
    p.cameras[0].clips[0].sync_confidence = Some(456_000);
    assert_eq!(clip_label(&p.cameras[0].clips[0]), "a.mp4  46%");
    assert_eq!(clip_label(&p.cameras[0].clips[1]), "b.mp4  ");
    assert!(is_doubtful(Some(299_999)));
    assert!(!is_doubtful(Some(300_000)));
    assert!(!is_doubtful(None));
}

fn keys() -> Keys {
    Keys {
        space: false,
        left: false,
        right: false,
        home: false,
        end: false,
        key_i: false,
        key_o: false,
        key_s: false,
        shift: false,
        command: false,
        typing: false,
    }
}

#[test]
fn keys_play_and_seek() {
    let d = 10 * SECOND;
    assert!(handle_keys(keys(), SECOND, d, FPS).is_empty());
    let left = handle_keys(Keys { left: true, ..keys() }, SECOND, d, FPS);
    assert_eq!(left, vec![KeyAction::Seek { t: 966_667 }]);
    let second = handle_keys(Keys { right: true, shift: true, ..keys() }, 9_500_000, d, FPS);
    assert_eq!(second, vec![KeyAction::Seek { t: d }]);
    let ends = handle_keys(Keys { home: true, end: true, space: true, ..keys() }, SECOND, d, FPS);
    assert_eq!(ends, vec![KeyAction::Toggle, KeyAction::Seek { t: 0 }, KeyAction::Seek { t: d }]);
    let range = handle_keys(Keys { key_i: true, key_o: true, ..keys() }, SECOND, d, FPS);
    assert_eq!(range, vec![KeyAction::SetIn { t: SECOND }, KeyAction::SetOut { t: SECOND }]);
    assert!(handle_keys(Keys { key_s: true, ..keys() }, 0, d, FPS).is_empty());
    assert_eq!(handle_keys(Keys { key_s: true, command: true, ..keys() }, 0, d, FPS), vec![KeyAction::Save]);
    assert!(handle_keys(Keys { space: true, typing: true, ..keys() }, 0, d, FPS).is_empty());
}

#[test]
fn playing_and_ranges() {
    assert_eq!(toggle_play(true, 0, SECOND), Toggle::Pause);
    assert_eq!(toggle_play(false, 0, SECOND), Toggle::Play);
    assert_eq!(toggle_play(false, 990_000, SECOND), Toggle::PlayFromStart);
    assert!(at_end(true, SECOND, SECOND));
    assert!(!at_end(true, 0, 0));
    assert_eq!(seek_target(5, 3), 3);
    assert_eq!(seek_target(5, -3), 0);
    assert!(must_advance(None, 0, false, false));
    assert!(!must_advance(Some(5), 5, false, false));
    assert!(must_advance(Some(5), 5, false, true));
    assert_eq!(repaint(false, false, true), Repaint::Soon);
    assert_eq!(repaint(false, true, true), Repaint::Now);
    assert_eq!(repaint(false, false, false), Repaint::Idle);
    assert_eq!(preview_size(Orientation::Vertical), (720, 1280));
    assert!(startup_ready(false, false));
    assert!(!startup_ready(false, true));
    let r = Range { start: 1, end: 5 };
    assert_eq!(set_in(r, 3), Range { start: 3, end: 5 });
    assert_eq!(set_out(r, 3), Range { start: 1, end: 3 });
    assert_eq!(effective_range(r, 9), r);
    assert_eq!(effective_range(Range { start: 5, end: 5 }, 9), Range { start: 5, end: 9 });
}

#[test]
fn results_that_do_not_fit_still_end_their_jobs() {
    let mut a = started();
    a.project.cameras[0].clips = vec![clip("a.mp4", 0, 60 * SECOND)];
    a.flow.syncing = true;
    a.flow.pending_scans = 1;
    // A place out of range is reported, and the clip stays where it is.
    let far = Arranged { offset: i64::MAX, confidence: 0, placement: Placement::Timestamp };
    a.take_result(JobResult::Synced { cam: 0, index: 0, result: far });
    assert_eq!(a.error.as_deref(), Some("Sync: times out of range"));
    assert_eq!(a.project.cameras[0].clips[0].offset, 0);
    assert!(a.flow.syncing);
    let long = vec![clip("b.mp4", i64::MAX, 1)];
    a.take_result(JobResult::Scanned { cam: 1, folder: "f".to_string(), found: Ok(long) });
    assert_eq!(a.error.as_deref(), Some("f: times out of range"));
    assert_eq!(a.flow.pending_scans, 0);
    assert!(a.project.cameras[1].clips.is_empty());
    // Sync ends even where the project cannot be measured.
    a.project.cameras[0].clips[0].offset = i64::MAX;
    let act = a.take_result(JobResult::SyncFinished);
    assert!(!a.flow.syncing && act.revisit && !act.start_grade);
    assert_eq!(a.flow.tab, Tab::Layout);
    assert_eq!(a.error.as_deref(), Some("Sync: times out of range"));
    // A result that fits is applied.
    a.project.cameras[0].clips[0].offset = 0;
    let near = Arranged { offset: 5, confidence: 1, placement: Placement::Audio };
    a.take_result(JobResult::Synced { cam: 0, index: 0, result: near });
    assert_eq!(a.project.cameras[0].clips[0].offset, 5);
}
