//! The command line, exports and texts.

use trio_capture::app::Tab;
use trio_capture::arrange::{Arranged, Placement};
use trio_capture::cli::{
    add_camera, command, grade_cameras, grade_line, has_flag, option_value, place_clips, placement_note, plan_new,
    start_tab, start_time, startup, startup_project, sync_line, usage, Command, Given, Source,
};
use trio_capture::export_job::{
    export_duration, export_spec_for, frame_moment, frame_total, range_duration, ExportJob, ExportStep,
};
use trio_capture::ffmpeg::shot_args;
use trio_capture::model::{Clip, Grade, Project, Rate};
use trio_capture::order::{ascending_order, descending_order, less, reorder, stable_order};
use trio_capture::text::{fixed6_text, fixed_text, left_text, parse_int, parse_micros, rate_word, right_text};
use trio_capture::transport::shot_ready;
use trio_capture::units::{clamp, round_div, round_div64};

const SECOND: i64 = 1_000_000;
const FPS: Rate = Rate { num: 30, den: 1 };

fn words(list: &[&str]) -> Vec<String> {
    list.iter().map(|w| w.to_string()).collect()
}

fn clip(offset: i64) -> Clip {
    Clip {
        path: "a.mp4".to_string(),
        duration: 10 * SECOND,
        width: 16,
        height: 9,
        fps: FPS,
        rotation: 0,
        hdr: false,
        has_audio: true,
        creation_time: None,
        end_stamped: false,
        offset,
        sync_confidence: None,
    }
}

#[test]
fn the_first_word_is_the_command() {
    assert_eq!(command(&words(&["sync", "x"])), Command::Sync);
    assert_eq!(command(&words(&["new"])), Command::New);
    assert_eq!(command(&words(&["x.trio.json"])), Command::Window);
    assert_eq!(command(&words(&[])), Command::Window);
    assert!(usage().starts_with("usage:\n  trio-capture new"));
}

#[test]
fn options_and_their_values() {
    let args = words(&["a", "--out", "b", "--out", "c", "--at"]);
    assert!(matches!(option_value(&args, "--out"), Given::Value(v) if v == "b"));
    assert!(matches!(option_value(&args, "--at"), Given::Incomplete));
    assert!(matches!(option_value(&args, "--play"), Given::Absent));
    assert!(has_flag(&args, "--at"));
    assert!(!has_flag(&args, "--play"));
    assert_eq!(start_time(&args), None);
    assert_eq!(start_time(&words(&["--at", "12.25"])), Some(12_250_000));
    assert_eq!(start_time(&words(&["--at", "1e2"])), Some(100 * SECOND));
    assert_eq!(start_time(&words(&["--at", "soon"])), None);
    assert_eq!(startup(Some(5), false), Some((5, false)));
    assert_eq!(startup(None, true), Some((0, true)));
    assert_eq!(startup(None, false), None);
}

#[test]
fn the_first_thing_that_can_be_opened() {
    let args = words(&["--x.json", "notes.txt", "band.trio.json", "dir"]);
    assert_eq!(startup_project(&args, &vec![false, false, false, true]), Some(2));
    assert_eq!(startup_project(&args, &vec![true, true, false, true]), Some(1));
    assert_eq!(startup_project(&words(&["a.JSON"]), &vec![false]), None);
}

#[test]
fn a_new_project_is_planned() {
    let p = plan_new(&words(&["o", "--cam", "a", "--wav", "w", "--root", "r"])).unwrap();
    assert_eq!(p.out, "o");
    assert!(p.complete);
    assert_eq!(p.items.len(), 3);
    assert_eq!((p.items[1].source, p.items[1].path.as_str()), (Source::Wav, "w"));
    let p = plan_new(&words(&["o", "--cam", "a", "--what", "w"])).unwrap();
    assert!(!p.complete);
    assert_eq!(p.items.len(), 1);
    let p = plan_new(&words(&["o", "--cam"])).unwrap();
    assert!(!p.complete);
    assert!(p.items.is_empty());
    assert!(plan_new(&words(&[])).is_none());
}

#[test]
fn cameras_are_added_by_folder() {
    let mut p = Project::default();
    assert!(add_camera(&mut p, 1, "shoot/Left/", vec![clip(0)]));
    assert_eq!(p.cameras[1].name, "Left");
    assert_eq!(p.cameras[1].folder.as_deref(), Some("shoot/Left/"));
    assert_eq!(p.cameras[1].clips.len(), 1);
    assert!(add_camera(&mut p, 0, "..", vec![]));
    assert_eq!(p.cameras[0].name, "Cam 1");
    assert!(!add_camera(&mut p, 3, "x", vec![]));
}

#[test]
fn results_are_printed_and_kept() {
    let a = Arranged { offset: -1_234_500, confidence: 456_000, placement: Placement::Audio };
    assert_eq!(sync_line("a.mp4", a), "a.mp4                        offset    -1.234s  confidence 0.46");
    let b = Arranged { offset: 0, confidence: 0, placement: Placement::Timestamp };
    assert!(sync_line("b.mp4", b).ends_with("confidence 0.00  (no audio match, placed by timestamp)"));
    assert_eq!(placement_note(Placement::Unknown), "  (no audio match, offset unchanged)");
    let mut clips = vec![clip(1), clip(2)];
    place_clips(&mut clips, &vec![a]);
    assert_eq!((clips[0].offset, clips[0].sync_confidence), (-1_234_500, Some(456_000)));
    assert_eq!((clips[1].offset, clips[1].sync_confidence), (2, None));
    let g = Grade { exposure: 255_000, tint: -10_000, ..Grade::default() };
    assert_eq!(
        grade_line("Cam 1", g),
        "Cam 1        exposure +0.26  contrast 1.00  saturation 1.00  temperature +0.00  tint -0.01"
    );
    let mut p = Project::default();
    grade_cameras(&mut p, &vec![g]);
    assert_eq!(p.cameras[0].grade, g);
    assert_eq!(p.cameras[1].grade, Grade::default());
}

#[test]
fn an_export_goes_frame_by_frame() {
    let mut job = ExportJob::start(5 * SECOND, 66_000, FPS);
    assert_eq!(job.total, 2);
    assert_eq!(job.step(false), ExportStep::Rest);
    assert_eq!(job.step(true), ExportStep::Encode { t: 5 * SECOND });
    job.wrote(None);
    assert_eq!(job.progress(), 500_000);
    assert_eq!(job.step(true), ExportStep::Encode { t: 5_033_333 });
    assert_eq!(job.status(500_000), "1 / 2 frames, 2.0 fps, ETA 0s");
    job.wrote(None);
    assert_eq!(job.step(true), ExportStep::Finish);
    job.finished(None);
    assert_eq!(job.step(true), ExportStep::Over);
    assert!(job.error.is_none());
}

#[test]
fn an_export_that_fails_is_over() {
    let mut job = ExportJob::start(0, 0, FPS);
    assert_eq!(job.total, 1);
    assert_eq!(job.status(0), "0 / 1 frames, 0.0 fps, ETA 0s");
    job.wrote(Some("full".to_string()));
    assert!(job.done);
    assert_eq!(job.error.as_deref(), Some("full"));
    assert_eq!(job.step(true), ExportStep::Over);
    let mut late = ExportJob::start(0, 0, FPS);
    late.wrote(None);
    late.finished(Some("bad".to_string()));
    assert_eq!(late.error.as_deref(), Some("bad"));
    // A thousand years of frames are counted too.
    let long = ExportJob::start(0, 31_536_000_000 * SECOND, FPS);
    assert_eq!(long.total, 946_080_000_000);
}

#[test]
fn lengths_of_exports() {
    let mut p = Project::default();
    p.cameras[0].clips = vec![clip(10 * SECOND)];
    p.range.start = 5 * SECOND;
    assert_eq!(export_duration(&p, None), 15 * SECOND);
    assert_eq!(export_duration(&p, Some(60 * SECOND)), 55 * SECOND);
    assert_eq!(range_duration(&p), 0);
    p.range.end = 8 * SECOND;
    assert_eq!(export_duration(&p, None), 3 * SECOND);
    assert_eq!(range_duration(&p), 3 * SECOND);
    p.wav = Some("m.wav".to_string());
    let s = export_spec_for(&p, "o.mp4", 3 * SECOND);
    assert_eq!((s.width, s.height, s.audio_start, s.duration), (1920, 1080, 5 * SECOND, 3 * SECOND));
    assert_eq!((s.out_path.as_str(), s.wav.as_deref()), ("o.mp4", Some("m.wav")));
    assert_eq!(frame_total(3 * SECOND, FPS), 90);
    assert_eq!(frame_total(-3 * SECOND, FPS), 0);
    assert_eq!(frame_moment(SECOND, 30, FPS), 2 * SECOND);
}

#[test]
fn numbers_as_text() {
    assert_eq!(fixed6_text(-250_000), "-0.250000");
    // Halves go to the even digit.
    assert_eq!(fixed_text(1_005_000, 2), "1.00");
    assert_eq!(fixed_text(1_015_000, 2), "1.02");
    assert_eq!(fixed_text(1_005_001, 2), "1.01");
    assert_eq!(fixed_text(-400, 3), "-0.000");
    assert_eq!(left_text("ab", 4), "ab  ");
    assert_eq!(right_text("ab", 4), "  ab");
    assert_eq!(right_text("abcde", 4), "abcde");
    assert_eq!(rate_word(Rate { num: 30000, den: 1001 }), "30000/1001");
    assert_eq!(rate_word(FPS), "30");
    assert_eq!(rate_word(Rate { num: 2997, den: 100 }), "29.97");
    assert_eq!(rate_word(Rate { num: 5994, den: 100 }), "59.94");
    assert_eq!(rate_word(Rate { num: 60, den: 2 }), "30");
    assert_eq!(rate_word(Rate { num: 24_000_001, den: 1_000_000 }), "24.000001");
    assert_eq!(rate_word(Rate { num: 1, den: 8 }), "0.125");
    let chars = |s: &str| -> Vec<char> { s.chars().collect() };
    assert_eq!(parse_int(&chars("-12")), Some(-12));
    assert_eq!(parse_int(&chars("9223372036854775808")), None);
    assert_eq!(parse_int(&chars("1.0")), None);
    assert_eq!(parse_micros(&chars("-.5")), Some(-500_000));
    assert_eq!(parse_micros(&chars("2.5e-1")), Some(250_000));
    assert_eq!(parse_micros(&chars(".")), None);
    assert_eq!(parse_micros(&chars("00000000000000000000000001.5")), Some(1_500_000));
    assert_eq!(parse_micros(&chars("1.23456749999999999999999999999")), Some(1_234_567));
    assert_eq!(parse_micros(&chars("-1.23456750000000000000000000000")), Some(-1_234_568));
    assert_eq!(parse_micros(&chars("0.00000049999999999999999999999")), Some(0));
    assert_eq!(parse_micros(&chars("0.0000005")), Some(1));
    assert_eq!(parse_micros(&chars("1000000000000000000000000000000e-30")), Some(1_000_000));
    assert_eq!(parse_micros(&chars("1e99999999999999999999999999999999999999999")), None);
    assert_eq!(parse_micros(&chars("1e-99999999999999999999999999999999999999999")), Some(0));
    assert_eq!(parse_micros(&chars("0e99999999999999999999999999999999999999999")), Some(0));
    assert_eq!(parse_micros(&chars("999999999999.999999")), Some(999_999_999_999_999_999));
    assert_eq!(parse_micros(&chars("1000000000000")), None);
    assert_eq!(parse_micros(&chars("1e")), None);
}

#[test]
fn the_start_page_is_numbered() {
    let tab = |list: &[&str]| start_tab(&words(list));
    assert_eq!(tab(&["a.json", "--step", "1"]), Some(Tab::Import));
    assert_eq!(tab(&["--step", "2"]), Some(Tab::Layout));
    assert_eq!(tab(&["--step", "+3"]), Some(Tab::Grade));
    assert_eq!(tab(&["--step", "4", "--step", "1"]), Some(Tab::Export));
    assert_eq!(tab(&["--step", "5"]), None);
    assert_eq!(tab(&["--step", "0"]), None);
    assert_eq!(tab(&["--step", "x"]), None);
    assert_eq!(tab(&["--step"]), None);
    assert_eq!(tab(&[]), None);
}

#[test]
fn pictures_of_the_window() {
    let want = [
        "-hide_banner", "-loglevel", "error", "-nostdin", "-y", "-f", "rawvideo", "-pix_fmt", "rgba", "-s",
        "1560x980", "-i", "-", "-frames:v", "1", "shot.png",
    ];
    assert_eq!(shot_args(1560, 980, "shot.png"), want);
    assert!(shot_ready(true, 0, 0, false, false));
    assert!(!shot_ready(false, 0, 0, false, false));
    assert!(!shot_ready(true, 1, 0, false, false));
    assert!(!shot_ready(true, 0, 1, false, false));
    assert!(!shot_ready(true, 0, 0, true, false));
    assert!(!shot_ready(true, 0, 0, false, true));
}

#[test]
fn orders_are_stable() {
    assert_eq!(stable_order(&vec![vec![1, 2], vec![0], vec![1, 2], vec![1]]), vec![1, 3, 0, 2]);
    assert_eq!(descending_order(&vec![1, 3, 3]), vec![1, 2, 0]);
    assert_eq!(ascending_order(&vec![3, 1, 3]), vec![1, 0, 2]);
    assert_eq!(reorder(vec!['a', 'b', 'c'], &vec![2, 0, 1]), vec!['c', 'a', 'b']);
    assert!(less(&vec![1], &vec![1, 0]));
    assert!(!less(&vec![2], &vec![1, 5]));
}

#[test]
fn rounding_goes_away_from_zero() {
    assert_eq!(round_div(5, 10), 1);
    assert_eq!(round_div(-5, 10), -1);
    assert_eq!(round_div(-4, 10), 0);
    assert_eq!(round_div64(7, 2), 4);
    assert_eq!(clamp(5, 0, 3), 3);
    assert_eq!(clamp(-5, 0, 3), 0);
}
