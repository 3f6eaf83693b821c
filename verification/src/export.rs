//! Encoding composed pictures: the encoder's command line and its checks.

use crate::model::{Codec, Rate};
use crate::text::{fixed6_text, join2, join3, join4, number_text, push_word, push_words, quiet_args, rate_word};
use vstd::prelude::*;

verus! {

/// What is to be written.
#[derive(Debug, Clone)]
pub struct ExportSpec {
    pub width: u32,
    pub height: u32,
    pub fps: Rate,
    pub codec: Codec,
    pub quality: u32,
    pub out_path: String,
    pub wav: Option<String>,
    /// Microseconds into the master recording where the export starts.
    pub audio_start: i64,
    /// Microseconds.
    pub duration: i64,
}

/// The encoder needs a graphics device.
pub open spec fn uses_vaapi(codec: Codec) -> bool {
    codec == Codec::H264Vaapi || codec == Codec::H265Vaapi
}

/// Words about the pictures that come in.
pub open spec fn picture_words(spec: ExportSpec) -> Seq<Seq<char>> {
    seq!["-y"@] + crate::text::quiet_words() + (if uses_vaapi(spec.codec) {
        seq!["-vaapi_device"@, "/dev/dri/renderD128"@]
    } else {
        seq![]
    }) + seq![
        "-f"@,
        "rawvideo"@,
        "-pix_fmt"@,
        "rgba"@,
        "-s"@,
        crate::text::decimal(spec.width as nat) + "x"@ + crate::text::decimal(spec.height as nat),
        "-r"@,
        crate::text::rate_text(spec.fps.num as int, spec.fps.den as int),
        "-i"@,
        "-"@,
    ]
}

/// Words about the sound that comes in, and about what of both is written.
pub open spec fn sound_words(spec: ExportSpec) -> Seq<Seq<char>> {
    match spec.wav {
        Some(wav) => seq![
            "-ss"@,
            crate::decoder::start_text(spec.audio_start as int),
            "-t"@,
            crate::text::fixed6(spec.duration as int),
            "-i"@,
            wav@,
            "-map"@,
            "0:v"@,
            "-map"@,
            "1:a"@,
            "-c:a"@,
            "aac"@,
            "-b:a"@,
            "256k"@,
        ],
        None => seq!["-map"@, "0:v"@],
    }
}

/// Bit rate of the hardware encoders without a quality knob, in megabits: sixteen
/// for full HD at thirty frames, in proportion to the pixels per second, from
/// four to eighty.
pub open spec fn bit_rate(w: int, h: int, num: int, den: int) -> int {
    let (n, d) = if num < den {
        (1, 1)
    } else {
        (num, den)
    };
    crate::units::clamped(crate::units::rounded(16 * (w * h * n), 62_208_000 * d), 4, 80)
}

/// Words about the video encoder.
pub open spec fn codec_words(spec: ExportSpec) -> Seq<Seq<char>> {
    let q = crate::text::decimal(spec.quality as nat);
    let rate = crate::text::decimal(
        bit_rate(
            spec.width as int,
            spec.height as int,
            spec.fps.num as int,
            spec.fps.den as int,
        ) as nat,
    ) + "M"@;
    match spec.codec {
        Codec::H264Software => seq![
            "-c:v"@,
            "libx264"@,
            "-preset"@,
            "medium"@,
            "-crf"@,
            q,
            "-pix_fmt"@,
            "yuv420p"@,
        ],
        Codec::H265Software => seq![
            "-c:v"@,
            "libx265"@,
            "-preset"@,
            "medium"@,
            "-crf"@,
            q,
            "-pix_fmt"@,
            "yuv420p"@,
            "-tag:v"@,
            "hvc1"@,
        ],
        Codec::H264Vaapi => seq!["-vf"@, "format=nv12,hwupload"@, "-c:v"@, "h264_vaapi"@, "-qp"@, q],
        Codec::H265Vaapi => seq![
            "-vf"@,
            "format=nv12,hwupload"@,
            "-c:v"@,
            "hevc_vaapi"@,
            "-qp"@,
            q,
            "-tag:v"@,
            "hvc1"@,
        ],
        Codec::H264VideoToolbox => seq![
            "-c:v"@,
            "h264_videotoolbox"@,
            "-b:v"@,
            rate,
            "-pix_fmt"@,
            "yuv420p"@,
        ],
        Codec::H265VideoToolbox => seq![
            "-c:v"@,
            "hevc_videotoolbox"@,
            "-b:v"@,
            rate,
            "-pix_fmt"@,
            "yuv420p"@,
            "-tag:v"@,
            "hvc1"@,
        ],
    }
}

/// The encoder's command line.
pub open spec fn encoder_words(spec: ExportSpec) -> Seq<Seq<char>> {
    picture_words(spec) + sound_words(spec) + codec_words(spec) + seq![
        "-movflags"@,
        "+faststart"@,
        "-shortest"@,
        spec.out_path@,
    ]
}

/// Words about the pictures that come in.
fn picture_args(spec: &ExportSpec) -> (v: Vec<String>)
    requires
        spec.fps.ok(),
    ensures
        crate::text::text_views(v@) == picture_words(*spec),
{
    let mut v: Vec<String> = Vec::new();
    push_word(&mut v, "-y");
    let quiet: Vec<String> = quiet_args();
    push_words(&mut v, &quiet);
    match spec.codec {
        Codec::H264Vaapi | Codec::H265Vaapi => {
            push_word(&mut v, "-vaapi_device");
            push_word(&mut v, "/dev/dri/renderD128");
        },
        _ => {},
    }
    let w: String = number_text(spec.width as u64);
    let h: String = number_text(spec.height as u64);
    let size: String = join3(w.as_str(), "x", h.as_str());
    let rate: String = rate_word(spec.fps);
    push_word(&mut v, "-f");
    push_word(&mut v, "rawvideo");
    push_word(&mut v, "-pix_fmt");
    push_word(&mut v, "rgba");
    push_word(&mut v, "-s");
    push_word(&mut v, size.as_str());
    push_word(&mut v, "-r");
    push_word(&mut v, rate.as_str());
    push_word(&mut v, "-i");
    push_word(&mut v, "-");
    assert(crate::text::text_views(v@) =~= picture_words(*spec));
    v
}

/// Words about the sound that comes in, and about what of both is written.
fn sound_args(spec: &ExportSpec) -> (v: Vec<String>)
    requires
        spec.duration > i64::MIN,
    ensures
        crate::text::text_views(v@) == sound_words(*spec),
{
    let mut v: Vec<String> = Vec::new();
    match &spec.wav {
        Some(wav) => {
            let start: String = fixed6_text(
                if spec.audio_start < 0 {
                    0
                } else {
                    spec.audio_start
                },
            );
            let length: String = fixed6_text(spec.duration);
            push_word(&mut v, "-ss");
            push_word(&mut v, start.as_str());
            push_word(&mut v, "-t");
            push_word(&mut v, length.as_str());
            push_word(&mut v, "-i");
            push_word(&mut v, wav.as_str());
            push_word(&mut v, "-map");
            push_word(&mut v, "0:v");
            push_word(&mut v, "-map");
            push_word(&mut v, "1:a");
            push_word(&mut v, "-c:a");
            push_word(&mut v, "aac");
            push_word(&mut v, "-b:a");
            push_word(&mut v, "256k");
        },
        None => {
            push_word(&mut v, "-map");
            push_word(&mut v, "0:v");
        },
    }
    assert(crate::text::text_views(v@) =~= sound_words(*spec));
    v
}

/// Bit rate of the hardware encoders without a quality knob, in megabits.
pub fn bitrate_mbps(w: u32, h: u32, fps: Rate) -> (m: u32)
    requires
        fps.ok(),
    ensures
        m == bit_rate(w as int, h as int, fps.num as int, fps.den as int),
        4 <= m <= 80,
{
    let n: i128 = if fps.num < fps.den {
        1
    } else {
        fps.num as i128
    };
    let d: i128 = if fps.num < fps.den {
        1
    } else {
        fps.den as i128
    };
    proof {
        assert(0 <= w * h <= 0xffff_ffff * 0xffff_ffff) by (nonlinear_arith)
            requires
                0 <= w <= 0xffff_ffff,
                0 <= h <= 0xffff_ffff,
        ;
        assert(0 <= w * h * n <= 0xffff_ffff * 0xffff_ffff * 1_000_000_000_000) by (nonlinear_arith)
            requires
                0 <= w * h <= 0xffff_ffff * 0xffff_ffff,
                0 <= n <= 1_000_000_000_000,
        ;
    }
    let px: i128 = (w as i128) * (h as i128) * n;
    let q: i128 = crate::units::round_div(16 * px, 62_208_000 * d);
    if q < 4 {
        4
    } else if q > 80 {
        80
    } else {
        q as u32
    }
}

/// Words about the video encoder.
fn codec_args(spec: &ExportSpec) -> (v: Vec<String>)
    requires
        spec.fps.ok(),
    ensures
        crate::text::text_views(v@) == codec_words(*spec),
{
    let q: String = number_text(spec.quality as u64);
    let m: u32 = bitrate_mbps(spec.width, spec.height, spec.fps);
    let mt: String = number_text(m as u64);
    let rate: String = join2(mt.as_str(), "M");
    let mut v: Vec<String> = Vec::new();
    match spec.codec {
        Codec::H264Software => {
            push_word(&mut v, "-c:v");
            push_word(&mut v, "libx264");
            push_word(&mut v, "-preset");
            push_word(&mut v, "medium");
            push_word(&mut v, "-crf");
            push_word(&mut v, q.as_str());
            push_word(&mut v, "-pix_fmt");
            push_word(&mut v, "yuv420p");
        },
        Codec::H265Software => {
            push_word(&mut v, "-c:v");
            push_word(&mut v, "libx265");
            push_word(&mut v, "-preset");
            push_word(&mut v, "medium");
            push_word(&mut v, "-crf");
            push_word(&mut v, q.as_str());
            push_word(&mut v, "-pix_fmt");
            push_word(&mut v, "yuv420p");
            push_word(&mut v, "-tag:v");
            push_word(&mut v, "hvc1");
        },
        Codec::H264Vaapi => {
            push_word(&mut v, "-vf");
            push_word(&mut v, "format=nv12,hwupload");
            push_word(&mut v, "-c:v");
            push_word(&mut v, "h264_vaapi");
            push_word(&mut v, "-qp");
            push_word(&mut v, q.as_str());
        },
        Codec::H265Vaapi => {
            push_word(&mut v, "-vf");
            push_word(&mut v, "format=nv12,hwupload");
            push_word(&mut v, "-c:v");
            push_word(&mut v, "hevc_vaapi");
            push_word(&mut v, "-qp");
            push_word(&mut v, q.as_str());
            push_word(&mut v, "-tag:v");
            push_word(&mut v, "hvc1");
        },
        Codec::H264VideoToolbox => {
            push_word(&mut v, "-c:v");
            push_word(&mut v, "h264_videotoolbox");
            push_word(&mut v, "-b:v");
            push_word(&mut v, rate.as_str());
            push_word(&mut v, "-pix_fmt");
            push_word(&mut v, "yuv420p");
        },
        Codec::H265VideoToolbox => {
            push_word(&mut v, "-c:v");
            push_word(&mut v, "hevc_videotoolbox");
            push_word(&mut v, "-b:v");
            push_word(&mut v, rate.as_str());
            push_word(&mut v, "-pix_fmt");
            push_word(&mut v, "yuv420p");
            push_word(&mut v, "-tag:v");
            push_word(&mut v, "hvc1");
        },
    }
    assert(crate::text::text_views(v@) =~= codec_words(*spec));
    v
}

/// The encoder's command line.
pub fn encoder_args(spec: &ExportSpec) -> (v: Vec<String>)
    requires
        spec.fps.ok(),
        spec.duration > i64::MIN,
    ensures
        crate::text::text_views(v@) == encoder_words(*spec),
{
    let mut v: Vec<String> = picture_args(spec);
    let sound: Vec<String> = sound_args(spec);
    let codec: Vec<String> = codec_args(spec);
    push_words(&mut v, &sound);
    push_words(&mut v, &codec);
    push_word(&mut v, "-movflags");
    push_word(&mut v, "+faststart");
    push_word(&mut v, "-shortest");
    push_word(&mut v, spec.out_path.as_str());
    assert(crate::text::text_views(v@) =~= encoder_words(*spec));
    v
}

/// Why a picture is not written.
#[derive(Debug, Clone, Copy, PartialEq, Eq, Structural)]
pub enum FrameError {
    /// The picture has another size than the encoder was started for.
    WrongSize { got: usize, expected: usize },
    /// The encoder no longer takes pictures.
    Closed,
}

impl FrameError {
    /// The message for the user.
    pub open spec fn text(self) -> Seq<char> {
        match self {
            FrameError::WrongSize { got, expected } => "frame size "@ + crate::text::decimal(got as nat)
                + " != expected "@ + crate::text::decimal(expected as nat),
            FrameError::Closed => "encoder closed"@,
        }
    }

    /// The message for the user.
    pub fn message(self) -> (s: String)
        ensures
            s@ == self.text(),
    {
        match self {
            FrameError::WrongSize { got, expected } => {
                let g: String = number_text(got as u64);
                let e: String = number_text(expected as u64);
                join4("frame size ", g.as_str(), " != expected ", e.as_str())
            },
            FrameError::Closed => "encoder closed".to_owned(),
        }
    }
}

/// Whether the encoder takes a picture of `got` bytes.
pub fn check_frame(got: usize, expected: usize, open: bool) -> (r: Result<(), FrameError>)
    ensures
        r is Ok <==> got == expected && open,
        got != expected ==> r == Err::<(), FrameError>(FrameError::WrongSize { got, expected }),
        got == expected && !open ==> r == Err::<(), FrameError>(FrameError::Closed),
{
    if got != expected {
        Err(FrameError::WrongSize { got, expected })
    } else if !open {
        Err(FrameError::Closed)
    } else {
        Ok(())
    }
}

// ---------------------------------------------------------------- what the words say

/// From `p` on the words have a recording read: from `start`, for `length`, both in
/// microseconds.
pub open spec fn reads_sound(words: Seq<Seq<char>>, p: int, start: int, length: int, path: Seq<char>) -> bool {
    &&& 0 <= p && p + 5 < words.len()
    &&& words[p] == "-ss"@ && crate::text::spelled_micros(words[p + 1]) == Some(start)
    &&& words[p + 2] == "-t"@ && crate::text::spelled_micros(words[p + 3]) == Some(length)
    &&& words[p + 4] == "-i"@ && words[p + 5] == path
}

/// The sound begins with the pictures and ends with them: in front of the master
/// recording the command line says from where in it, and how much of it, is read. Both
/// read back as the export's start and length; before the beginning there is nothing to
/// read.
pub proof fn lemma_sound_goes_with_pictures(spec: ExportSpec)
    requires
        spec.wav is Some,
    ensures
        spec.audio_start >= 0 ==> exists|p: int| #[trigger]
            reads_sound(encoder_words(spec), p, spec.audio_start as int, spec.duration as int, spec.wav->0@),
        spec.audio_start < 0 ==> exists|p: int| #[trigger]
            reads_sound(encoder_words(spec), p, 0, spec.duration as int, spec.wav->0@),
{
    let w = encoder_words(spec);
    let p = picture_words(spec).len() as int;
    crate::text::lemma_fixed6_reads_back(
        if spec.audio_start < 0 {
            0
        } else {
            spec.audio_start as int
        },
    );
    crate::text::lemma_fixed6_reads_back(spec.duration as int);
    assert forall|k: int| 0 <= k < 6 implies #[trigger] w[p + k] == sound_words(spec)[k] by {}
    assert(w[p + 0] == "-ss"@);
    assert(w[p + 1] == sound_words(spec)[1]);
    assert(w[p + 2] == "-t"@);
    assert(w[p + 3] == sound_words(spec)[3]);
    assert(w[p + 4] == "-i"@);
    assert(w[p + 5] == spec.wav->0@);
    assert(reads_sound(
        w,
        p,
        if spec.audio_start < 0 {
            0
        } else {
            spec.audio_start as int
        },
        spec.duration as int,
        spec.wav->0@,
    ));
}

/// Two exports with a soundtrack that start at different times of the recording, or are
/// of different length, have different command lines.
pub proof fn lemma_command_tells_the_range(a: ExportSpec, b: ExportSpec)
    requires
        a.wav is Some,
        b.wav is Some,
        a.audio_start >= 0,
        b.audio_start >= 0,
        uses_vaapi(a.codec) == uses_vaapi(b.codec),
        encoder_words(a) == encoder_words(b),
    ensures
        a.audio_start == b.audio_start,
        a.duration == b.duration,
        a.wav->0@ == b.wav->0@,
{
    let p = picture_words(a).len() as int;
    assert(picture_words(b).len() == p);
    crate::text::lemma_fixed6_reads_back(a.audio_start as int);
    crate::text::lemma_fixed6_reads_back(b.audio_start as int);
    crate::text::lemma_fixed6_reads_back(a.duration as int);
    crate::text::lemma_fixed6_reads_back(b.duration as int);
    assert(encoder_words(a)[p + 1] == sound_words(a)[1]);
    assert(encoder_words(b)[p + 1] == sound_words(b)[1]);
    assert(encoder_words(a)[p + 3] == sound_words(a)[3]);
    assert(encoder_words(b)[p + 3] == sound_words(b)[3]);
    assert(encoder_words(a)[p + 5] == sound_words(a)[5]);
    assert(encoder_words(b)[p + 5] == sound_words(b)[5]);
}

/// From `p` on the words have raw pictures of a size and a rate read from the standard
/// input.
pub open spec fn reads_pictures(
    words: Seq<Seq<char>>,
    p: int,
    width: Seq<char>,
    height: Seq<char>,
    num: int,
    den: int,
) -> bool {
    &&& 0 <= p && p + 9 < words.len()
    &&& words[p] == "-f"@ && words[p + 1] == "rawvideo"@
    &&& words[p + 2] == "-pix_fmt"@ && words[p + 3] == "rgba"@
    &&& words[p + 4] == "-s"@ && words[p + 5] == width + "x"@ + height
    &&& words[p + 6] == "-r"@ && spells_rate(words[p + 7], num, den)
    &&& words[p + 8] == "-i"@ && words[p + 9] == "-"@
}

/// The pictures come first and from the program: raw pixels of the export's size, at its
/// rate, in front of the first input, which is the standard input. What is written goes
/// to the export's file, which is the last word.
pub proof fn lemma_pictures_are_described(spec: ExportSpec)
    requires
        spec.fps.num > 0,
        spec.fps.den > 0,
    ensures
        encoder_words(spec).last() == spec.out_path@,
        exists|p: int, a: Seq<char>, b: Seq<char>| #[trigger]
            reads_pictures(encoder_words(spec), p, a, b, spec.fps.num as int, spec.fps.den as int)
                && crate::text::spelled_int(a) == Some(spec.width as int) && crate::text::spelled_int(b) == Some(
                spec.height as int,
            ),
{
    let w = encoder_words(spec);
    let p = picture_words(spec).len() - 10;
    crate::text::lemma_rate_reads_back(spec.fps.num as int, spec.fps.den as int);
    crate::text::lemma_signed_reads_back(spec.width as int);
    crate::text::lemma_signed_reads_back(spec.height as int);
    let a = crate::text::decimal(spec.width as nat);
    let b = crate::text::decimal(spec.height as nat);
    assert forall|k: int| 0 <= k < 10 implies #[trigger] w[p + k] == picture_words(spec)[p + k] by {}
    assert(w[p + 0] == "-f"@);
    assert(w[p + 1] == "rawvideo"@);
    assert(w[p + 2] == "-pix_fmt"@);
    assert(w[p + 3] == "rgba"@);
    assert(w[p + 4] == "-s"@);
    assert(w[p + 5] == a + "x"@ + b);
    assert(w[p + 6] == "-r"@);
    assert(w[p + 7] == crate::text::rate_text(spec.fps.num as int, spec.fps.den as int));
    assert(w[p + 8] == "-i"@);
    assert(w[p + 9] == "-"@);
    assert(reads_pictures(w, p, a, b, spec.fps.num as int, spec.fps.den as int));
}

/// A text names a frame rate: two whole numbers, or one decimal number that equals their
/// quotient.
pub open spec fn spells_rate(s: Seq<char>, num: int, den: int) -> bool {
    ||| exists|a: Seq<char>, b: Seq<char>|
        #![trigger a + "/"@ + b]
        s == a + "/"@ + b && crate::text::spelled_int(a) == Some(num) && crate::text::spelled_int(b) == Some(den)
    ||| exists|m: int, k: nat|
        #![trigger crate::text::rate_is(s, m, k)]
        crate::text::rate_is(s, m, k) && m * den == num * crate::text::pow10(k)
}

/// The place of the video encoder's words.
spec fn codec_at(spec: ExportSpec) -> int {
    (picture_words(spec) + sound_words(spec)).len() as int
}

proof fn lemma_codec_word(spec: ExportSpec, k: int)
    requires
        0 <= k < codec_words(spec).len(),
    ensures
        codec_at(spec) >= 0,
        codec_at(spec) + codec_words(spec).len() < encoder_words(spec).len(),
        encoder_words(spec)[codec_at(spec) + k] == codec_words(spec)[k],
{
}

/// A word of the command line and the one behind it.
pub open spec fn says(words: Seq<Seq<char>>, p: int, flag: Seq<char>, value: Seq<char>) -> bool {
    0 <= p && p + 1 < words.len() && words[p] == flag && words[p + 1] == value
}

/// The quality reaches the encoder: a quality factor behind `-crf` for encoding in
/// software and behind `-qp` on the graphics card reads back as the one that was set;
/// the encoders without a quality knob get a bit rate, which depends on the pictures
/// alone.
pub proof fn lemma_quality_reaches_encoder(spec: ExportSpec)
    ensures
        spec.codec == Codec::H264Software || spec.codec == Codec::H265Software ==> exists|p: int, v: Seq<char>|
            #[trigger] says(encoder_words(spec), p, "-crf"@, v) && crate::text::spelled_int(v) == Some(
                spec.quality as int,
            ),
        uses_vaapi(spec.codec) ==> exists|p: int, v: Seq<char>| #[trigger]
            says(encoder_words(spec), p, "-qp"@, v) && crate::text::spelled_int(v) == Some(spec.quality as int),
        spec.codec == Codec::H264VideoToolbox || spec.codec == Codec::H265VideoToolbox ==> exists|
            p: int,
            v: Seq<char>,
        |
            #[trigger] says(encoder_words(spec), p, "-b:v"@, v + "M"@) && crate::text::spelled_int(v) == Some(
                bit_rate(spec.width as int, spec.height as int, spec.fps.num as int, spec.fps.den as int),
            ),
{
    let w = encoder_words(spec);
    let at = codec_at(spec);
    let m = bit_rate(spec.width as int, spec.height as int, spec.fps.num as int, spec.fps.den as int);
    crate::text::lemma_signed_reads_back(spec.quality as int);
    crate::text::lemma_signed_reads_back(m);
    let q = crate::text::decimal(spec.quality as nat);
    let r = crate::text::decimal(m as nat);
    match spec.codec {
        Codec::H264Software | Codec::H265Software => {
            lemma_codec_word(spec, 4);
            lemma_codec_word(spec, 5);
            assert(says(w, at + 4, "-crf"@, q));
        },
        Codec::H264Vaapi | Codec::H265Vaapi => {
            lemma_codec_word(spec, 4);
            lemma_codec_word(spec, 5);
            assert(says(w, at + 4, "-qp"@, q));
        },
        _ => {
            lemma_codec_word(spec, 2);
            lemma_codec_word(spec, 3);
            assert(says(w, at + 2, "-b:v"@, r + "M"@));
        },
    }
}

/// The video encoder is the one that the codec names: the family and the device are in
/// its name. H.265 is tagged so that players take it.
pub proof fn lemma_codec_names_encoder(spec: ExportSpec)
    ensures
        spec.codec == Codec::H264Software ==> exists|p: int| #[trigger]
            says(encoder_words(spec), p, "-c:v"@, "libx264"@),
        spec.codec == Codec::H265Software ==> exists|p: int| #[trigger]
            says(encoder_words(spec), p, "-c:v"@, "libx265"@),
        spec.codec == Codec::H264Vaapi ==> exists|p: int| #[trigger]
            says(encoder_words(spec), p, "-c:v"@, "h264_vaapi"@),
        spec.codec == Codec::H265Vaapi ==> exists|p: int| #[trigger]
            says(encoder_words(spec), p, "-c:v"@, "hevc_vaapi"@),
        spec.codec == Codec::H264VideoToolbox ==> exists|p: int| #[trigger]
            says(encoder_words(spec), p, "-c:v"@, "h264_videotoolbox"@),
        spec.codec == Codec::H265VideoToolbox ==> exists|p: int| #[trigger]
            says(encoder_words(spec), p, "-c:v"@, "hevc_videotoolbox"@),
        spec.codec == Codec::H265Software || spec.codec == Codec::H265Vaapi || spec.codec
            == Codec::H265VideoToolbox ==> exists|p: int| #[trigger]
            says(encoder_words(spec), p, "-tag:v"@, "hvc1"@),
        uses_vaapi(spec.codec) ==> exists|p: int| #[trigger]
            says(encoder_words(spec), p, "-vf"@, "format=nv12,hwupload"@),
        uses_vaapi(spec.codec) <==> (spec.codec == Codec::H264Vaapi || spec.codec == Codec::H265Vaapi),
{
    let w = encoder_words(spec);
    let at = codec_at(spec);
    let name: int = if uses_vaapi(spec.codec) {
        2
    } else {
        0
    };
    lemma_codec_word(spec, name);
    lemma_codec_word(spec, name + 1);
    lemma_codec_word(spec, 0);
    lemma_codec_word(spec, 1);
    let last = codec_words(spec).len() - 1;
    lemma_codec_word(spec, last - 1);
    lemma_codec_word(spec, last);
    assert(says(w, at + name, "-c:v"@, codec_words(spec)[name + 1]));
    assert(uses_vaapi(spec.codec) ==> says(w, at, "-vf"@, "format=nv12,hwupload"@));
    assert(spec.codec == Codec::H265Software || spec.codec == Codec::H265Vaapi || spec.codec
        == Codec::H265VideoToolbox ==> says(w, at + last - 1, "-tag:v"@, "hvc1"@));
}

/// Sound that is read is written: the pictures are taken from the first input, the sound
/// from the second, as AAC. Without a recording only the pictures are written.
pub proof fn lemma_sound_is_written(spec: ExportSpec)
    ensures
        spec.wav is Some ==> exists|p: int|
            #[trigger] says(encoder_words(spec), p, "-map"@, "0:v"@) && says(
                encoder_words(spec),
                p + 2,
                "-map"@,
                "1:a"@,
            ) && says(encoder_words(spec), p + 4, "-c:a"@, "aac"@),
        spec.wav is None ==> sound_words(spec) =~= seq!["-map"@, "0:v"@],
{
    let w = encoder_words(spec);
    let p = picture_words(spec).len() as int;
    if spec.wav is Some {
        assert(w[p + 6] == sound_words(spec)[6]);
        assert(w[p + 7] == sound_words(spec)[7]);
        assert(w[p + 8] == sound_words(spec)[8]);
        assert(w[p + 9] == sound_words(spec)[9]);
        assert(w[p + 10] == sound_words(spec)[10]);
        assert(w[p + 11] == sound_words(spec)[11]);
        assert(says(w, p + 6, "-map"@, "0:v"@));
    }
}

/// More pixels per second never get a lower bit rate, full HD at thirty frames a second
/// gets sixteen megabits, and between the least and the most the bit rate goes with the
/// pixels per second, to the nearest megabit.
pub proof fn lemma_bit_rate_goes_with_pixels(w: int, h: int, num: int, den: int, v: int, g: int)
    requires
        w >= 0,
        h >= 0,
        v >= w,
        g >= h,
        num >= den,
        den > 0,
    ensures
        4 <= bit_rate(w, h, num, den) <= 80,
        bit_rate(w, h, num, den) <= bit_rate(v, g, num, den),
        w * h * num == 1920 * 1080 * 30 * den ==> bit_rate(w, h, num, den) == 16,
        ({
            let r = bit_rate(w, h, num, den);
            let full = 1920 * 1080 * 30 * den;
            4 < r < 80 ==> 2 * crate::units::size(r * full - 16 * (w * h * num)) <= full
        }),
{
    let d = 62_208_000 * den;
    let a = 16 * (w * h * num);
    let b = 16 * (v * g * num);
    assert(0 <= w * h <= v * g) by (nonlinear_arith)
        requires
            0 <= w <= v,
            0 <= h <= g,
    ;
    assert(w * h * num <= v * g * num) by (nonlinear_arith)
        requires
            w * h <= v * g,
            num > 0,
    ;
    crate::units::lemma_rounded_near(a, d);
    crate::units::lemma_rounded_near(b, d);
    crate::units::lemma_rounded_grows(a, b, d);
    assert(1920 * 1080 * 30 * den == d) by (nonlinear_arith)
        requires
            d == 62_208_000 * den,
    ;
    if w * h * num == d {
        crate::units::lemma_rounded_whole(16, d);
    }
}

} // verus!
