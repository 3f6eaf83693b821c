//! Shoot folders, file names, dates and clip order.

use trio_capture::arrange::{Placement, SyncResult};
use trio_capture::calendar::{days_from_civil, parse_iso_seconds, time_in_name};
use trio_capture::discover::{
    clip_start_times, discover_shoot, extension, is_audio_file, is_video_file, join_path, layout_by_creation_time,
    order_clips, sync_camera, Entry,
};
use trio_capture::model::{Clip, Rate};

const SECOND: i64 = 1_000_000;

fn file(name: &str, size: u64) -> Entry {
    Entry { name: name.to_string(), is_dir: false, is_file: true, size, files: vec![] }
}

fn folder(name: &str, files: &[&str]) -> Entry {
    Entry {
        name: name.to_string(),
        is_dir: true,
        is_file: false,
        size: 0,
        files: files.iter().map(|f| f.to_string()).collect(),
    }
}

fn clip(path: &str, created: Option<&str>, duration: i64) -> Clip {
    Clip {
        path: path.to_string(),
        duration,
        width: 16,
        height: 9,
        fps: Rate { num: 30, den: 1 },
        rotation: 0,
        hdr: false,
        has_audio: true,
        creation_time: created.map(|c| c.to_string()),
        end_stamped: false,
        offset: 0,
        sync_confidence: None,
    }
}

#[test]
fn shoot_discovery_picks_cameras_and_wav() {
    let entries = vec![
        folder("Cam2", &["b.MOV"]),
        folder("Extra", &["d.mp4"]),
        folder("Cam1", &["a.mp4"]),
        folder("daw project", &["song.bwproject"]),
        folder("Cam3", &["c.mp4"]),
        file("rough mix.mp3", 10),
        file("master take.wav", 5),
        file("notes.txt", 1),
        folder(".hidden", &["e.mp4"]),
    ];
    let s = discover_shoot("/shoot", &entries);
    assert_eq!(s.root, "/shoot");
    assert_eq!(s.cameras, vec!["/shoot/Cam1", "/shoot/Cam2", "/shoot/Cam3"]);
    assert_eq!(s.skipped_cameras, vec!["/shoot/Extra"]);
    assert_eq!(s.wav, Some("/shoot/master take.wav".to_string()));
    assert_eq!(s.other_audio, vec!["/shoot/rough mix.mp3"]);
}

#[test]
fn three_folders_need_no_camera_name() {
    let entries = vec![folder("right", &["r.mkv"]), folder("left", &["l.webm"]), folder("cam", &["c.3gp"])];
    let s = discover_shoot("", &entries);
    assert_eq!(s.cameras, vec!["cam", "left", "right"]);
    assert!(s.skipped_cameras.is_empty());
    assert_eq!(s.wav, None);
}

#[test]
fn largest_wave_file_is_the_master() {
    let entries = vec![file("a.wav", 5), file("b.WAV", 9), file("c.flac", 100), file(".d.wav", 1000)];
    let s = discover_shoot("x", &entries);
    assert_eq!(s.wav, Some("x/b.WAV".to_string()));
    assert_eq!(s.other_audio, vec!["x/a.wav", "x/c.flac"]);
    assert!(s.cameras.is_empty());
}

#[test]
fn every_folder_is_taken_or_skipped() {
    let names = ["e", "cam b", "a", "CAM a", "d"];
    let entries: Vec<Entry> = names.iter().map(|n| folder(n, &["x.mp4"])).collect();
    let s = discover_shoot("", &entries);
    assert_eq!(s.cameras, vec!["CAM a", "a", "cam b"]);
    assert_eq!(s.skipped_cameras, vec!["d", "e"]);
}

#[test]
fn chosen_cameras_come_by_name() {
    let entries: Vec<Entry> = ["Alpha", "Beta", "Cam1", "Zed"].iter().map(|n| folder(n, &["x.mp4"])).collect();
    let s = discover_shoot("", &entries);
    assert_eq!(s.cameras, vec!["Alpha", "Beta", "Cam1"]);
    assert_eq!(s.skipped_cameras, vec!["Zed"]);
}

#[test]
fn sizes_go_as_far_as_files_do() {
    let entries = vec![file("a.wav", 0), file("b.wav", u64::MAX), file("c.wav", u64::MAX - 1)];
    let s = discover_shoot("", &entries);
    assert_eq!(s.wav, Some("b.wav".to_string()));
    assert_eq!(s.other_audio, vec!["c.wav", "a.wav"]);
}

#[test]
fn file_kinds() {
    assert!(is_video_file("a/b.MP4"));
    assert!(!is_video_file("a/.mp4"));
    assert!(!is_video_file("mp4"));
    assert!(is_audio_file("b.Aiff"));
    assert!(!is_audio_file("b.wav.txt"));
    assert_eq!(extension("a/b.tar.Gz"), Some(vec!['G', 'z']));
    assert_eq!(extension("a.b/c"), None);
    assert_eq!(join_path("a", "b"), "a/b");
    assert_eq!(join_path("a/", "b"), "a/b");
}

#[test]
fn times_in_file_names() {
    let a = time_in_name("VID_20260820_191928.mp4").unwrap();
    let b = time_in_name("PXL_20260820_201710123.mp4").unwrap();
    assert_eq!(b - a, 3462 * SECOND);
    assert_eq!(parse_iso_seconds("2026-08-20T19:19:28Z"), Some(a));
    assert_eq!(time_in_name("GX010051.MP4"), None);
    assert_eq!(time_in_name("IMG_2054.MOV"), None);
    assert_eq!(time_in_name("20261399_250000.mp4"), None);
}

#[test]
fn iso_parse_differences() {
    let a = parse_iso_seconds("2026-09-01T20:00:00.000000Z").unwrap();
    let b = parse_iso_seconds("2026-09-01T20:01:30.500000Z").unwrap();
    assert_eq!(b - a, 90_500_000);
    let c = parse_iso_seconds("2026-09-02T00:00:00Z").unwrap();
    assert_eq!(c - a, 4 * 3600 * SECOND);
}

#[test]
fn dates_that_are_none() {
    assert_eq!(parse_iso_seconds("2026-09-01 20:00:00"), None);
    assert_eq!(parse_iso_seconds("2026-09T20:00:00Z"), None);
    assert_eq!(parse_iso_seconds("2026-09-01T20:00Z"), None);
    assert_eq!(parse_iso_seconds(""), None);
}

#[test]
fn days_since_the_epoch() {
    assert_eq!(days_from_civil(1970, 1, 1), 0);
    assert_eq!(days_from_civil(1969, 12, 31), -1);
    assert_eq!(days_from_civil(2000, 3, 1), 11017);
    assert_eq!(days_from_civil(2000, 2, 29) + 1, days_from_civil(2000, 3, 1));
    assert_eq!(parse_iso_seconds("1970-01-01T00:00:01Z"), Some(SECOND));
}

#[test]
fn clips_come_by_creation_time_and_name() {
    let clips = vec![
        clip("c.mp4", Some("2026-09-01T20:00:10Z"), 5 * SECOND),
        clip("b.mp4", Some("2026-09-01T20:00:00Z"), 5 * SECOND),
        clip("a.mp4", Some("2026-09-01T20:00:10Z"), 5 * SECOND),
        clip("z.mp4", None, 5 * SECOND),
    ];
    let sorted = order_clips(clips);
    let names: Vec<&str> = sorted.iter().map(|c| c.path.as_str()).collect();
    assert_eq!(names, vec!["z.mp4", "b.mp4", "a.mp4", "c.mp4"]);
}

#[test]
fn offsets_follow_creation_times() {
    let mut clips = vec![
        clip("a.mp4", Some("2026-09-01T20:00:00Z"), 10 * SECOND),
        clip("b.mp4", Some("2026-09-01T20:01:00Z"), 10 * SECOND),
        clip("c.mp4", None, 10 * SECOND),
    ];
    assert_eq!(clip_start_times(&clips).len(), 3);
    layout_by_creation_time(&mut clips);
    assert_eq!(clips[0].offset, 0);
    assert_eq!(clips[1].offset, 60 * SECOND);
    assert_eq!(clips[2].offset, 70 * SECOND);
}

#[test]
fn stamps_that_go_back_are_passed_over() {
    let mut clips = vec![
        clip("a.mp4", Some("2026-09-01T20:05:00Z"), 10 * SECOND),
        clip("b.mp4", Some("2026-09-01T20:00:00Z"), 10 * SECOND),
    ];
    layout_by_creation_time(&mut clips);
    assert_eq!(clips[0].offset, 0);
    assert_eq!(clips[1].offset, 10 * SECOND);
}

#[test]
fn a_camera_is_arranged_by_its_stamps() {
    let clips = vec![
        clip("a.mp4", Some("2026-09-01T20:00:00Z"), 10 * SECOND),
        clip("b.mp4", Some("2026-09-01T20:01:00Z"), 10 * SECOND),
    ];
    let found = vec![vec![SyncResult { offset: 5 * SECOND, confidence: 900_000 }], vec![]];
    let r = sync_camera(&clips, &found).unwrap();
    assert_eq!(r[0].placement, Placement::Audio);
    assert_eq!(r[1].placement, Placement::Timestamp);
    assert_eq!(r[1].offset, 65 * SECOND);
    let far = vec![vec![SyncResult { offset: i64::MAX, confidence: 900_000 }], vec![]];
    assert!(sync_camera(&clips, &far).is_none());
}
