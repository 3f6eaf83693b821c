//! What a clip's description says.

use trio_capture::probe::{parse_probe, parse_rate, probe_args, ProbeError};

fn description(text: &str) -> Vec<u8> {
    text.as_bytes().to_vec()
}

#[test]
fn parses_rotated_hdr_clip() {
    let v = description(
        r#"{
            "streams": [
                {"codec_type": "video", "width": 3840, "height": 2160, "avg_frame_rate": "30000/1001",
                 "color_transfer": "arib-std-b67",
                 "side_data_list": [{"side_data_type": "Display Matrix", "rotation": -90}],
                 "tags": {"creation_time": "2026-09-01T20:00:00.000000Z"}},
                {"codec_type": "audio"}
            ],
            "format": {"duration": "12.5", "tags": {}}
        }"#,
    );
    let c = parse_probe("x.mov", &v).unwrap();
    assert_eq!((c.width, c.height), (2160, 3840));
    assert!(c.hdr);
    assert!(c.has_audio);
    assert!((c.fps.num as f64 / c.fps.den as f64 - 29.97).abs() < 0.01);
    assert_eq!(c.duration, 12_500_000);
    assert!(c.creation_time.is_some());
    assert_eq!(c.path, "x.mov");
    assert_eq!(c.rotation, -90);
    assert_eq!(c.creation_time.as_deref(), Some("2026-09-01T20:00:00.000000Z"));
    assert!(!c.end_stamped);
    assert_eq!(c.offset, 0);
    assert_eq!(c.sync_confidence, None);
}

#[test]
fn second_stream_and_fallbacks() {
    let v = description(
        r#"{
            "streams": [
                {"codec_type": "data"},
                {"codec_type": "video", "width": 1920, "height": 1080, "avg_frame_rate": "0/0",
                 "r_frame_rate": "25/1", "duration": "3.25", "tags": {"rotate": "180"}}
            ],
            "format": {"tags": {"com.android.version": "14"}}
        }"#,
    );
    let c = parse_probe("y.mp4", &v).unwrap();
    assert_eq!((c.width, c.height), (1920, 1080));
    assert_eq!((c.fps.num, c.fps.den), (25, 1));
    assert_eq!(c.duration, 3_250_000);
    assert_eq!(c.rotation, 180);
    assert!(c.end_stamped);
    assert!(!c.has_audio);
    assert!(!c.hdr);
    assert_eq!(c.creation_time, None);
}

#[test]
fn format_tags_come_first() {
    let v = description(
        r#"{
            "streams": [{"codec_type": "video", "tags": {"creation_time": "stream"}, "color_transfer": "smpte2084",
                         "side_data_list": [{"x": 1}, {"rotation": 89.6}]}],
            "format": {"duration": "no number", "tags": {"creation_time": "format"}}
        }"#,
    );
    let c = parse_probe("z.mp4", &v).unwrap();
    assert_eq!(c.creation_time.as_deref(), Some("format"));
    assert_eq!(c.rotation, 90);
    assert!(c.hdr);
    assert_eq!((c.width, c.height), (0, 0));
    assert_eq!((c.fps.num, c.fps.den), (30, 1));
    assert_eq!(c.duration, 0);
}

#[test]
fn not_a_description() {
    let e = parse_probe("a.mp4", &description("{"));
    assert!(matches!(e, Err(ProbeError::BadJson)));
    let e = parse_probe("a.mp4", &description(r#"{"streams": [{"codec_type": "audio"}]}"#));
    assert!(matches!(e, Err(ProbeError::NoVideo)));
    let e = parse_probe("a.mp4", &description("{}"));
    assert!(matches!(e, Err(ProbeError::NoVideo)));
    assert_eq!(ProbeError::NoVideo.message("a.mp4"), "no video stream in a.mp4");
    assert_eq!(ProbeError::BadJson.message("a.mp4"), "parsing ffprobe json");
}

#[test]
fn frame_rates_are_in_lowest_terms() {
    let r = parse_rate("60000/2002").unwrap();
    assert_eq!((r.num, r.den), (30000, 1001));
    assert!(parse_rate("30").is_none());
    assert!(parse_rate("0/1").is_none());
    assert!(parse_rate("1/0").is_none());
    assert!(parse_rate("x/1").is_none());
}

#[test]
fn the_question_that_is_asked() {
    let want = vec!["-v", "error", "-print_format", "json", "-show_format", "-show_streams", "a b.mp4"];
    assert_eq!(probe_args("a b.mp4"), want);
}

#[test]
fn rates_are_exact() {
    let rate = |s: &str| parse_rate(s).map(|r| (r.num, r.den));
    assert_eq!(rate("30000/1001"), Some((30000, 1001)));
    assert_eq!(rate("0.0000001/0.0000001"), Some((1, 1)));
    assert_eq!(rate("0.0000003/0.00000001"), Some((30, 1)));
    assert_eq!(rate("29.97/1"), Some((2997, 100)));
    assert_eq!(rate("30.0000000000000000000000000000000000000000000/1"), Some((30, 1)));
    assert_eq!(rate("3e20/1e19"), Some((30, 1)));
    assert_eq!(rate("25e-30/1e-30"), Some((25, 1)));
    assert_eq!(rate("-30/1"), Some((-30, 1)));
    assert_eq!(rate("0.000/1"), None);
    assert_eq!(rate("1/0"), None);
    assert_eq!(rate("1e40/1"), None);
    assert_eq!(rate("1"), None);
}
