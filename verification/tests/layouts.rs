//! The project, its layouts and its frames.

use trio_capture::compose::{padded_row, unpad, Uniforms};
use trio_capture::layout::{slot_at, slot_rects, Rect, FULL};
use trio_capture::model::{file_name, Clip, Codec, Grade, LayoutId, Orientation, Project, Rate, Slot};
use trio_capture::panels::{
    camera_summary, can_export, clip_format, clip_hint, copy_grade, frame_rates, layouts_for, next_camera,
    quality_label, reset_slot, resolution_name, rotate_cameras, title, turned,
};
use trio_capture::preview::{outline, pan_slot, preview_caption, slot_camera, slot_label, zoom_slot, Outline};

const SECOND: i64 = 1_000_000;

fn clip(offset: i64, duration: i64) -> Clip {
    Clip {
        path: "dir/x.mp4".to_string(),
        duration,
        width: 1920,
        height: 1080,
        fps: Rate { num: 30000, den: 1001 },
        rotation: 0,
        hdr: true,
        has_audio: true,
        creation_time: None,
        end_stamped: false,
        offset,
        sync_confidence: None,
    }
}

#[test]
fn overlays_win_hit_test() {
    assert_eq!(slot_at(LayoutId::HBigCenterPip, FULL / 10, FULL * 8 / 10), Some(1));
    assert_eq!(slot_at(LayoutId::HBigCenterPip, FULL / 2, FULL * 2 / 10), Some(0));
    assert_eq!(slot_at(LayoutId::HThree, FULL * 9 / 10, FULL / 2), Some(2));
}

#[test]
fn points_outside_hit_nothing() {
    for l in LayoutId::all() {
        assert_eq!(slot_at(l, FULL, 0), None);
        assert_eq!(slot_at(l, 0, -1), None);
        assert_eq!(slot_at(l, 0, 0), Some(0));
    }
    let r = Rect::new(0, 0, 10, 10);
    assert!(r.contains(9, 0));
    assert!(!r.contains(10, 0));
}

#[test]
fn slots_fill_the_picture() {
    for l in [LayoutId::HThree, LayoutId::HBigLeft, LayoutId::VThree, LayoutId::VBigTop] {
        let area: i64 = slot_rects(l).iter().map(|r| r.w * r.h).sum();
        assert_eq!(area, FULL * FULL);
    }
}

#[test]
fn a_new_project() {
    let p = Project::default();
    assert_eq!(p.version, 1);
    assert_eq!(p.cameras.len(), 3);
    assert_eq!(p.cameras[2].name, "Cam 3");
    assert_eq!(p.cameras[0].grade, Grade::default());
    assert_eq!(p.layout, LayoutId::HBigLeft);
    assert_eq!(p.slots[1].camera, 1);
    assert_eq!(p.output_size(), (1920, 1080));
    assert_eq!(p.output.quality, 18);
    assert_eq!(p.duration(None), 0);
    assert_eq!(p.duration(Some(5)), 5);
}

#[test]
fn clips_and_the_timeline() {
    let mut p = Project::default();
    p.cameras[1].clips = vec![clip(-SECOND, 3 * SECOND), clip(SECOND, 4 * SECOND)];
    assert_eq!(p.duration(None), 5 * SECOND);
    assert_eq!(p.duration(Some(0)), 5 * SECOND);
    assert_eq!(p.duration(Some(2 * SECOND)), 2 * SECOND);
    assert_eq!(p.clip_at(1, -SECOND).map(|c| c.0), Some(0));
    assert_eq!(p.clip_at(1, 1_500_000).map(|c| c.0), Some(0));
    assert_eq!(p.clip_at(1, 2 * SECOND).map(|c| c.0), Some(1));
    assert!(p.clip_at(1, 5 * SECOND).is_none());
    assert!(p.clip_at(0, 0).is_none());
    assert!(p.clip_at(7, 0).is_none());
    p.layout = LayoutId::VThree;
    assert_eq!(p.output_size(), (1080, 1920));
    assert_eq!(p.cameras[1].clips[0].end(), 2 * SECOND);
    assert_eq!(p.cameras[1].clips[0].file_name(), "x.mp4");
    assert!(p.has_times_in_range());
    p.cameras[1].clips[0].offset = i64::MAX;
    assert!(!p.has_times_in_range());
}

#[test]
fn last_parts_of_paths() {
    assert_eq!(file_name("a/b"), "b");
    assert_eq!(file_name("a/b/"), "b");
    assert_eq!(file_name("a/b/."), "b");
    assert_eq!(file_name("a/.."), "");
    assert_eq!(file_name("/"), "");
    assert_eq!(file_name("b"), "b");
}

#[test]
fn frames_lie_on_a_grid() {
    let r = Rate { num: 30, den: 1 };
    assert!(r.is_ok());
    assert_eq!(r.frame_time(1), 33_333);
    assert_eq!(r.frame_time(3), 100_000);
    assert_eq!(r.snap(99_999), 66_667);
    assert_eq!(r.snap(100_000), 100_000);
    assert!(!Rate { num: 0, den: 1 }.is_ok());
}

#[test]
fn names_in_menus() {
    assert_eq!(LayoutId::HThree.label(), "Three side by side");
    assert_eq!(LayoutId::VFullPip.orientation(), Orientation::Vertical);
    assert_eq!(Codec::all()[5].label(), "H.265 (VideoToolbox, macOS)");
    assert_eq!(resolution_name(2560, 1440), "1440p");
    assert_eq!(resolution_name(1080, 1920), "custom");
    assert_eq!(quality_label(Codec::H264Vaapi), "QP (lower = better)");
    assert_eq!((frame_rates()[2].num, frame_rates()[2].den), (2997, 100));
    assert_eq!(title(&None, true), "untitled *");
    assert_eq!(title(&Some("a/b.trio.json".to_string()), false), "b.trio.json");
}

#[test]
fn turning_the_picture_takes_the_first_layout_that_fits() {
    assert_eq!(turned(LayoutId::HBigLeft, Orientation::Horizontal), LayoutId::HBigLeft);
    assert_eq!(turned(LayoutId::HBigLeft, Orientation::Vertical), LayoutId::VThree);
    assert_eq!(turned(LayoutId::VFullPip, Orientation::Horizontal), LayoutId::HThree);
    let v = layouts_for(Orientation::Vertical);
    assert_eq!(v, [LayoutId::VThree, LayoutId::VBigTop, LayoutId::VFullPip]);
}

#[test]
fn cameras_move_through_the_slots() {
    let mut p = Project::default();
    p.slots[0].zoom = 2_000_000;
    let once = rotate_cameras(p.slots);
    assert_eq!([once[0].camera, once[1].camera, once[2].camera], [2, 0, 1]);
    assert_eq!(once[0].zoom, 2_000_000);
    assert_eq!(rotate_cameras(rotate_cameras(once)), p.slots);
    assert_eq!(next_camera(Slot { camera: 2, zoom: 5, pan: (1, 2) }), Slot { camera: 0, zoom: 5, pan: (1, 2) });
    assert_eq!(slot_camera(Slot { camera: 9, zoom: 1, pan: (0, 0) }), 2);
    let r = reset_slot(Slot { camera: 1, zoom: 3_000_000, pan: (1, 1) });
    assert_eq!(r, Slot { camera: 1, zoom: 1_000_000, pan: (0, 0) });
}

#[test]
fn one_grade_for_all_cameras() {
    let mut p = Project::default();
    let g = Grade { exposure: 500_000, ..Grade::default() };
    copy_grade(&mut p, g);
    assert!(p.cameras.iter().all(|c| c.grade == g));
    assert_eq!(p.cameras[0].name, "Cam 1");
}

#[test]
fn what_the_panel_says_of_clips() {
    let mut p = Project::default();
    p.cameras[0].clips = vec![clip(0, 10_400_000), clip(0, 20_200_000)];
    assert_eq!(camera_summary(&p.cameras[0]).unwrap(), "2 clips, 31s");
    assert_eq!(clip_format(&p.cameras[0].clips[0]), "1920x1080 @ 29.97 fps HDR");
    p.cameras[0].clips[0].offset = -1_234_567;
    assert_eq!(
        clip_hint(&p.cameras[0].clips[0]),
        "x.mp4\noffset -1.235s, 10.4s long\ndrag to nudge, Shift+drag moves all clips of this camera"
    );
    p.cameras[0].clips[0].duration = i64::MAX;
    assert!(camera_summary(&p.cameras[0]).is_none());
    assert!(can_export(false, true, 1));
    assert!(!can_export(true, true, 1));
    assert!(!can_export(false, false, 1));
    assert!(!can_export(false, true, 0));
}

#[test]
fn dragging_and_scrolling_in_a_slot() {
    let mut p = Project::default();
    p.layout = LayoutId::HThree;
    // A slot of 1920 by 1080 thirds shows a third of the width of a wide picture.
    let s = pan_slot(&p, 0, (1920, 1080), (1920, 1080), (64_000, 0), (1_920_000, 1_080_000));
    assert_eq!(s.pan, (-33_333, 0));
    let far = pan_slot(&p, 0, (1920, 1080), (1920, 1080), (-1_000_000_000, 0), (1_920_000, 1_080_000));
    assert_eq!(far.pan.0, 500_000);
    let slot = p.slots[0];
    assert_eq!(zoom_slot(slot, 100_000).zoom, 1_200_000);
    assert_eq!(zoom_slot(slot, -100_000).zoom, 1_000_000);
    assert_eq!(zoom_slot(zoom_slot(slot, 100_000_000), 100_000_000).zoom, 4_000_000);
    assert_eq!(slot_label("Cam 1", slot), "Cam 1");
    assert_eq!(slot_label("Cam 1", Slot { zoom: 1_500_000, ..slot }), "Cam 1  1.50x");
    assert_eq!(preview_caption(Orientation::Horizontal, 1280, 720), "16:9 · 1280x720 preview");
    assert!(matches!(outline(0, slot, Some(0), None, 1, false), Outline::Active));
    assert!(matches!(outline(0, slot, None, None, 0, true), Outline::Selected));
    assert!(matches!(outline(0, slot, None, None, 0, false), Outline::Plain));
}

#[test]
fn what_is_drawn() {
    let mut p = Project::default();
    p.cameras[1].grade.exposure = 1_000_000;
    p.slots[0].camera = 5;
    let u = Uniforms::from_project(&p, 640, 360, [None, Some((4, 2)), None], false);
    assert_eq!((u.width, u.height), (640, 360));
    assert_eq!(u.slots[0].camera, 2);
    assert_eq!(u.slots[1].rect, Rect::new(2_000_000, 0, 1_000_000, 1_500_000));
    assert_eq!(u.grades[1].exposure, 1_000_000);
    assert_eq!(u.sources[1], Some((4, 2)));
    let plain = Uniforms::from_project(&p, 640, 360, [None, None, None], true);
    assert_eq!(plain.grades[1], Grade::default());
    p.cameras.truncate(1);
    let few = Uniforms::from_project(&p, 640, 360, [None, None, None], false);
    assert_eq!(few.grades.len(), 3);
    assert_eq!(few.grades[2], Grade::default());
}

#[test]
fn rows_that_come_back_are_packed() {
    assert_eq!(padded_row(64), 256);
    assert_eq!(padded_row(65), 512);
    let mut data = vec![0u8; 512];
    data[0] = 1;
    data[7] = 2;
    data[8] = 99;
    data[256] = 3;
    data[263] = 4;
    let out = unpad(&data, 2, 2);
    assert_eq!(out, vec![1, 0, 0, 0, 0, 0, 0, 2, 3, 0, 0, 0, 0, 0, 0, 4]);
}
