//! Decoders, frames, the clock and the player.

use trio_capture::audio::{pcm_args, pcm_bits, waveform_peaks};
use trio_capture::decoder::{
    frame_len, grab_args, grab_failure, grabbed_frame, is_size_ok, picture_filters, stream_args, stream_frame,
    DecodeRequest, Frame,
};
use trio_capture::engine::{give_up, CamState, Clock, Mode, Quality, Step, StreamSet};
use trio_capture::export::{bitrate_mbps, check_frame, encoder_args, ExportSpec, FrameError};
use trio_capture::ffmpeg::{detect_hwaccel, fit_size, trial_args, trial_ok, HwAccel, Platform};
use trio_capture::model::{Clip, Codec, Project, Rate};
use trio_capture::player::{fill, position, recording_length, seek_frame};

const SECOND: i64 = 1_000_000;
const FPS: Rate = Rate { num: 30, den: 1 };

fn request(hwaccel: HwAccel, hdr: bool) -> DecodeRequest {
    DecodeRequest { path: "a.mp4".to_string(), start: 1_500_000, fps: FPS, width: 4, height: 2, hdr, hwaccel }
}

fn project() -> Project {
    let mut p = Project::default();
    p.cameras[0].clips = vec![Clip {
        path: "a.mp4".to_string(),
        duration: 100 * SECOND,
        width: 3840,
        height: 2160,
        fps: FPS,
        rotation: 0,
        hdr: false,
        has_audio: true,
        creation_time: None,
        end_stamped: false,
        offset: 10 * SECOND,
        sync_confidence: None,
    }];
    p
}

fn frame(time: i64) -> Frame {
    Frame { time, width: 2, height: 2, rgba: vec![0; 16] }
}

#[test]
fn decoder_command_lines() {
    let want = vec![
        "-hide_banner", "-loglevel", "error", "-nostdin", "-hwaccel", "vaapi", "-ss", "1.500000", "-i", "a.mp4",
        "-an", "-sn", "-dn", "-vf", "scale=4:2:flags=bicubic", "-frames:v", "1", "-pix_fmt", "rgba", "-f",
        "rawvideo", "-",
    ];
    assert_eq!(grab_args(&request(HwAccel::Vaapi, false)), want);
    let words = stream_args(&request(HwAccel::VaapiGpuScale, false));
    assert!(words.contains(&"scale_vaapi=w=4:h=2:format=nv12,hwdownload,format=nv12,fps=30".to_string()));
    let mut film = request(HwAccel::Software, false);
    film.fps = Rate { num: 2997, den: 100 };
    assert!(stream_args(&film).iter().any(|w| w.ends_with(",fps=29.97")));
    assert!(picture_filters(&request(HwAccel::Software, true)).ends_with("r=tv,format=yuv420p"));
}

#[test]
fn decode_paths() {
    assert_eq!(HwAccel::Software.label(), "software");
    assert!(HwAccel::Software.input_args().is_empty());
    assert_eq!(
        HwAccel::VideoToolboxGpuScale.scale_filter(8, 6, true),
        "scale_vt=w=8:h=6,hwdownload,format=p010"
    );
    assert_eq!(HwAccel::candidates(Platform::Linux), vec![HwAccel::VaapiGpuScale, HwAccel::Vaapi]);
    assert_eq!(detect_hwaccel(Platform::Linux, &vec![false, true]), HwAccel::Vaapi);
    assert_eq!(detect_hwaccel(Platform::MacOs, &vec![true, true]), HwAccel::VideoToolboxGpuScale);
    assert_eq!(detect_hwaccel(Platform::Other, &vec![]), HwAccel::Software);
    assert!(trial_ok(true, 0, 1_843_200));
    assert!(!trial_ok(true, 1, 1_843_200));
    assert!(!trial_ok(false, 0, 1_843_200));
    assert!(!trial_ok(true, 0, 1));
    assert!(trial_args(HwAccel::Vaapi, "s.mp4").contains(&"scale=640:360:flags=bicubic,fps=10".to_string()));
}

#[test]
fn pictures_fit_without_growing() {
    assert_eq!(fit_size(3840, 2160, 1280, 1280), (1280, 720));
    assert_eq!(fit_size(2160, 3840, 1280, 1280), (720, 1280));
    assert_eq!(fit_size(640, 361, 1280, 1280), (640, 360));
    assert_eq!(fit_size(0, 10, 1280, 1280), (2, 2));
    assert_eq!(fit_size(10_000, 1, 100, 100), (100, 2));
}

#[test]
fn grabbed_pictures_are_cut_to_size() {
    let req = request(HwAccel::Software, false);
    assert!(is_size_ok(4, 2));
    assert_eq!(frame_len(4, 2), 32);
    assert!(grabbed_frame(&req, vec![7; 31]).is_none());
    let f = grabbed_frame(&req, vec![7; 40]).unwrap();
    assert_eq!((f.time, f.width, f.height, f.rgba.len()), (1_500_000, 4, 2, 32));
    assert_eq!(grab_failure("1.50", "a.mp4", "bad"), "no frame at 1.50s in a.mp4: bad");
    assert_eq!(stream_frame(&req, 3, vec![0; 32]).time, 1_600_000);
}

#[test]
fn a_camera_starts_waits_and_shows() {
    let p = project();
    let mut s = StreamSet::new(Quality::Preview { max_edge: 1280 }, HwAccel::Software, FPS, 0);
    assert!(matches!(s.plan(&p, 0, 5 * SECOND, Mode::Live, 0), Step::Empty));
    let step = s.plan(&p, 0, 20_010_000, Mode::Live, 0);
    match step {
        Step::Start { clip, local, request } => {
            assert_eq!((clip, local), (0, 10_010_000));
            assert_eq!(request.start, 10 * SECOND);
            assert_eq!((request.width, request.height), (1280, 720));
            s.cams[0].started(clip, request.start, 0);
        }
        _ => panic!("no decoder was started"),
    }
    assert_eq!(s.restarts, 1);
    // A decoder that has not delivered yet is kept.
    assert!(matches!(s.plan(&p, 0, 20_010_000, Mode::Live, 50_000), Step::Pull { .. }));
    assert!(s.cams[0].wants_frame());
    s.cams[0].settle(10_010_000, FPS, false);
    assert!(s.awaiting_frame());
    s.cams[0].hold(frame(10 * SECOND));
    assert!(s.cams[0].show_due(10_010_000, FPS));
    assert_eq!(s.generation(0), 1);
    assert_eq!(s.current(0).map(|f| f.time), Some(10 * SECOND));
    s.cams[0].settle(10_010_000, FPS, false);
    assert!(!s.awaiting_frame());
    // A frame of the future stays back.
    s.cams[0].hold(frame(10_033_333));
    assert!(!s.cams[0].show_due(10_010_000, FPS));
    // A jump a moment after the start has to wait, unless nothing else will do.
    assert!(matches!(s.plan(&p, 0, 80 * SECOND, Mode::Live, 60_000), Step::Wait));
    assert!(s.busy());
    assert!(matches!(s.plan(&p, 0, 80 * SECOND, Mode::Exact, 60_000), Step::Start { .. }));
    assert!(!s.busy());
    s.reset();
    assert!(s.current(0).is_none());
}

#[test]
fn a_far_jump_takes_one_start() {
    let p = project();
    let fps = Rate { num: 2997, den: 100 };
    for t in [90 * SECOND, 30 * SECOND + 7, 100 * SECOND + 25_000, 12 * SECOND + 16_684] {
        let mut s = StreamSet::new(Quality::Preview { max_edge: 1280 }, HwAccel::Software, fps, 0);
        let local = t - 10 * SECOND;
        let req = match s.plan(&p, 0, t, Mode::Live, 200_000) {
            Step::Start { clip, request, .. } => {
                s.cams[0].started(clip, request.start, 200_000);
                request
            }
            _ => panic!("no decoder was started"),
        };
        let mut index = 0;
        loop {
            assert!(matches!(s.plan(&p, 0, t, Mode::Live, 400_000 + index as i64), Step::Pull { .. }));
            s.cams[0].hold(stream_frame(&req, index, vec![]));
            if !s.cams[0].show_due(local, fps) {
                break;
            }
            index += 1;
        }
        s.cams[0].settle(local, fps, false);
        assert!(!s.awaiting_frame());
        assert!(index == 1 || index == 2);
        assert_eq!(s.restarts, 1);
        assert!((s.current(0).unwrap().time - local).abs() <= 16_684);
    }
}

#[test]
fn preview_and_export_ask_for_the_same_picture() {
    let p = project();
    let mut requests = vec![];
    for (quality, mode) in
        [(Quality::Preview { max_edge: 1280 }, Mode::Live), (Quality::Full { max_edge: 4096 }, Mode::Exact)]
    {
        let mut s = StreamSet::new(quality, HwAccel::Software, p.output.fps, 0);
        match s.plan(&p, 0, 20_010_000, mode, 0) {
            Step::Start { request, .. } => requests.push(request),
            other => panic!("{other:?}"),
        }
    }
    assert_eq!(requests[0].path, requests[1].path);
    assert_eq!(requests[0].start, requests[1].start);
    assert_eq!(requests[0].fps, requests[1].fps);
    assert!(requests[0].width <= requests[1].width);
}

#[test]
fn a_decoder_that_fails_shows_nothing() {
    let mut c = CamState::new(0);
    let before = c.generation;
    c.failed();
    assert!(c.current.is_none());
    assert_eq!(c.generation, before + 1);
    assert!(give_up(true, Mode::Exact, false));
    assert!(give_up(false, Mode::Live, false));
    assert!(give_up(false, Mode::Exact, true));
    assert!(!give_up(false, Mode::Exact, false));
}

#[test]
fn the_clock_runs_and_stands() {
    let mut c = Clock::new();
    assert_eq!(c.time(5, None), 0);
    assert_eq!(c.seek(3 * SECOND, 5), 3 * SECOND);
    c.play(10, None);
    assert!(c.is_playing());
    assert_eq!(c.time(1_000_010, None), 4 * SECOND);
    c.pause(2_000_010, None);
    assert_eq!(c.time(9_000_000, None), 5 * SECOND);
    assert_eq!(c.seek(-4, 9_000_000), 0);
    assert_eq!(c.time(9_000_000, Some(77)), 77);
}

#[test]
fn the_player_counts_frames() {
    assert_eq!(seek_frame(1_500_000, 48_000), 72_000);
    assert_eq!(seek_frame(-5, 48_000), 0);
    assert_eq!(position(72_000, 48_000), 1_500_000);
    assert_eq!(recording_length(96_000, 48_000, 2), SECOND);
    let pcm = vec![1, 2, 3, 4, 5];
    let mut out = vec![9; 6];
    assert_eq!(fill(&pcm, 0, true, 1, 2, &mut out), 4);
    assert_eq!(out, vec![3, 4, 0, 0, 0, 0]);
    assert_eq!(fill(&pcm, 0, false, 1, 2, &mut out), 1);
    assert_eq!(out, vec![0; 6]);
}

#[test]
fn samples_and_peaks() {
    assert_eq!(pcm_bits(&vec![0, 0, 128, 63, 1]), vec![0x3f80_0000]);
    assert_eq!(f32::from_bits(pcm_bits(&vec![0, 0, 128, 63])[0]), 1.0);
    assert_eq!(waveform_peaks(&vec![1, -2, 3, 4], 2), vec![(-2, 1), (3, 4)]);
    assert_eq!(waveform_peaks(&vec![5], 3), vec![(5, 5), (0, 0), (0, 0)]);
    assert!(waveform_peaks(&vec![], 3).is_empty());
    assert!(waveform_peaks(&vec![1], 0).is_empty());
    let want = vec![
        "-hide_banner", "-loglevel", "error", "-nostdin", "-i", "m.wav", "-vn", "-sn", "-dn", "-ac", "1", "-ar",
        "8000", "-f", "f32le", "-",
    ];
    assert_eq!(pcm_args("m.wav", 8000, 1), want);
}

fn spec(codec: Codec, wav: Option<&str>) -> ExportSpec {
    ExportSpec {
        width: 1920,
        height: 1080,
        fps: FPS,
        codec,
        quality: 18,
        out_path: "out.mp4".to_string(),
        wav: wav.map(|w| w.to_string()),
        audio_start: -5,
        duration: 2_500_000,
    }
}

#[test]
fn encoder_command_lines() {
    let want = vec![
        "-y", "-hide_banner", "-loglevel", "error", "-nostdin", "-f", "rawvideo", "-pix_fmt", "rgba", "-s",
        "1920x1080", "-r", "30", "-i", "-", "-ss", "0.000000", "-t", "2.500000", "-i", "m.wav", "-map", "0:v",
        "-map", "1:a", "-c:a", "aac", "-b:a", "256k", "-c:v", "libx264", "-preset", "medium", "-crf", "18",
        "-pix_fmt", "yuv420p", "-movflags", "+faststart", "-shortest", "out.mp4",
    ];
    assert_eq!(encoder_args(&spec(Codec::H264Software, Some("m.wav"))), want);
    let vaapi = encoder_args(&spec(Codec::H265Vaapi, None));
    assert_eq!(vaapi[5], "-vaapi_device");
    assert!(vaapi.contains(&"hevc_vaapi".to_string()));
    assert!(!vaapi.contains(&"1:a".to_string()));
    assert!(encoder_args(&spec(Codec::H264VideoToolbox, None)).contains(&"16M".to_string()));
}

#[test]
fn bitrates_and_frames() {
    assert_eq!(bitrate_mbps(1920, 1080, FPS), 16);
    assert_eq!(bitrate_mbps(3840, 2160, Rate { num: 60, den: 1 }), 80);
    assert_eq!(bitrate_mbps(16, 16, FPS), 4);
    assert!(check_frame(32, 32, true).is_ok());
    let e = check_frame(31, 32, true).unwrap_err();
    assert!(matches!(e, FrameError::WrongSize { .. }));
    assert_eq!(e.message(), "frame size 31 != expected 32");
    let e = check_frame(32, 32, false).unwrap_err();
    assert_eq!(e.message(), "encoder closed");
}
