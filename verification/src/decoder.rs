//! Decoding one clip to pictures at a fixed frame rate: the command lines and
//! what becomes of the bytes that come back.
//!
//! `-ss` before `-i` gives a keyframe seek followed by accurate decode to the
//! requested start; the `fps` filter resamples variable frame rate footage onto
//! the fixed timeline. Rotation metadata is applied by the decoder itself.

use crate::ffmpeg::{push_static, raw_args, HwAccel};
use crate::model::Rate;
use crate::text::{fixed6_text, join2, join3, push_word, push_words, quiet_args, rate_word};
use vstd::prelude::*;

verus! {

/// What is to be decoded.
#[derive(Debug, Clone)]
pub struct DecodeRequest {
    pub path: String,
    /// Microseconds into the clip.
    pub start: i64,
    pub fps: Rate,
    pub width: u32,
    pub height: u32,
    pub hdr: bool,
    pub hwaccel: HwAccel,
}

/// One picture: four bytes per pixel, row by row.
#[derive(Debug)]
pub struct Frame {
    /// Microseconds into the clip.
    pub time: i64,
    pub width: u32,
    pub height: u32,
    pub rgba: Vec<u8>,
}

/// The filters that tone map high dynamic range footage.
pub open spec fn tone_map_text() -> Seq<char> {
    "zscale=t=linear:npl=100,format=gbrpf32le,zscale=p=bt709,tonemap=hable:desat=0,zscale=t=bt709:m=bt709:r=tv,format=yuv420p"@
}

/// Scale (and tone map) to the requested size, frames in system memory.
pub open spec fn picture_filter_text(req: DecodeRequest) -> Seq<char> {
    let scale = req.hwaccel.scale_text(req.width as nat, req.height as nat, req.hdr);
    if req.hdr {
        scale + ","@ + tone_map_text()
    } else {
        scale
    }
}

/// Scale (and tone map) to the requested size, frames in system memory.
pub fn picture_filters(req: &DecodeRequest) -> (s: String)
    ensures
        s@ == picture_filter_text(*req),
{
    let scale: String = req.hwaccel.scale_filter(req.width, req.height, req.hdr);
    if req.hdr {
        join3(
            scale.as_str(),
            ",",
            "zscale=t=linear:npl=100,format=gbrpf32le,zscale=p=bt709,tonemap=hable:desat=0,zscale=t=bt709:m=bt709:r=tv,format=yuv420p",
        )
    } else {
        scale
    }
}

/// Time from which to decode.
pub open spec fn start_text(start: int) -> Seq<char> {
    crate::text::fixed6(
        if start < 0 {
            0
        } else {
            start
        },
    )
}

/// Decoder command up to the video filter: keyframe seek, then accurate decode.
pub open spec fn decode_words(req: DecodeRequest, vf: Seq<char>) -> Seq<Seq<char>> {
    crate::text::quiet_words() + req.hwaccel.input_words() + seq![
        "-ss"@,
        start_text(req.start as int),
        "-i"@,
        req.path@,
        "-an"@,
        "-sn"@,
        "-dn"@,
        "-vf"@,
        vf,
    ]
}

/// Decoder command up to the video filter.
fn decode_args(req: &DecodeRequest, vf: &str) -> (v: Vec<String>)
    ensures
        crate::text::text_views(v@) == decode_words(*req, vf@),
{
    let mut v: Vec<String> = quiet_args();
    let input: Vec<&'static str> = req.hwaccel.input_args();
    push_static(&mut v, &input);
    let start: String = fixed6_text(
        if req.start < 0 {
            0
        } else {
            req.start
        },
    );
    push_word(&mut v, "-ss");
    push_word(&mut v, start.as_str());
    push_word(&mut v, "-i");
    push_word(&mut v, req.path.as_str());
    push_word(&mut v, "-an");
    push_word(&mut v, "-sn");
    push_word(&mut v, "-dn");
    push_word(&mut v, "-vf");
    push_word(&mut v, vf);
    assert(crate::text::text_views(v@) =~= decode_words(*req, vf@));
    v
}

/// Command that decodes the single frame at the request's start.
pub open spec fn grab_words(req: DecodeRequest) -> Seq<Seq<char>> {
    decode_words(req, picture_filter_text(req)) + seq!["-frames:v"@, "1"@] + crate::ffmpeg::raw_words()
}

/// Command that decodes the single frame at the request's start, for analysis and
/// thumbnails.
pub fn grab_args(req: &DecodeRequest) -> (v: Vec<String>)
    ensures
        crate::text::text_views(v@) == grab_words(*req),
{
    let vf: String = picture_filters(req);
    let mut v: Vec<String> = decode_args(req, vf.as_str());
    push_word(&mut v, "-frames:v");
    push_word(&mut v, "1");
    let raw: Vec<String> = raw_args();
    push_words(&mut v, &raw);
    assert(crate::text::text_views(v@) =~= grab_words(*req));
    v
}

/// Command that decodes frame after frame from the request's start.
pub open spec fn stream_words(req: DecodeRequest) -> Seq<Seq<char>> {
    decode_words(
        req,
        picture_filter_text(req) + ",fps="@ + crate::text::rate_text(req.fps.num as int, req.fps.den as int),
    ) + crate::ffmpeg::raw_words()
}

/// Command that decodes frame after frame from the request's start.
pub fn stream_args(req: &DecodeRequest) -> (v: Vec<String>)
    requires
        req.fps.ok(),
    ensures
        crate::text::text_views(v@) == stream_words(*req),
{
    let picture: String = picture_filters(req);
    let rate: String = rate_word(req.fps);
    let vf: String = join3(picture.as_str(), ",fps=", rate.as_str());
    let mut v: Vec<String> = decode_args(req, vf.as_str());
    let raw: Vec<String> = raw_args();
    push_words(&mut v, &raw);
    assert(crate::text::text_views(v@) =~= stream_words(*req));
    v
}

/// A picture of this size can be held.
pub open spec fn size_ok(width: u32, height: u32) -> bool {
    width * height * 4 <= u32::MAX
}

/// Whether a picture of this size can be held.
pub fn is_size_ok(width: u32, height: u32) -> (b: bool)
    ensures
        b == size_ok(width, height),
{
    proof {
        assert(0 <= width * height <= 0xffff_ffff * 0xffff_ffff) by (nonlinear_arith)
            requires
                0 <= width <= 0xffff_ffff,
                0 <= height <= 0xffff_ffff,
        ;
    }
    (width as u128) * (height as u128) * 4 <= 0xffff_ffff
}

/// Bytes of a picture.
pub fn frame_len(width: u32, height: u32) -> (n: usize)
    requires
        size_ok(width, height),
    ensures
        n == width * height * 4,
{
    proof {
        assert(0 <= width * height) by (nonlinear_arith);
    }
    (width * height * 4) as usize
}

/// The frame that a grab brought, if enough bytes came; what comes behind a whole
/// picture is dropped.
pub fn grabbed_frame(req: &DecodeRequest, stdout: Vec<u8>) -> (f: Option<Frame>)
    requires
        size_ok(req.width, req.height),
    ensures
        f is Some <==> stdout@.len() >= req.width * req.height * 4,
        f matches Some(frame) ==> frame.time == req.start && frame.width == req.width && frame.height
            == req.height && frame.rgba@ == stdout@.take(req.width * req.height * 4),
{
    let want: usize = frame_len(req.width, req.height);
    if stdout.len() < want {
        return None;
    }
    let mut rgba: Vec<u8> = stdout;
    rgba.truncate(want);
    assert(rgba@ =~= stdout@.take(want as int));
    Some(Frame { time: req.start, width: req.width, height: req.height, rgba })
}

/// Frame `index` of a stream.
pub fn stream_frame(req: &DecodeRequest, index: u64, rgba: Vec<u8>) -> (f: Frame)
    requires
        req.fps.ok(),
        req.fps.reaches(index as int),
        crate::arrange::in_limit(req.start as int),
    ensures
        f.time == req.start + req.fps.time_of(index as int),
        crate::engine::frame_time_ok(f.time as int),
        f.width == req.width,
        f.height == req.height,
        f.rgba == rgba,
{
    let t: i64 = req.fps.frame_time(index);
    Frame { time: req.start + t, width: req.width, height: req.height, rgba }
}

/// The message for a grab that brought no frame.
pub fn grab_failure(time: &str, path: &str, detail: &str) -> (s: String)
    ensures
        s@ == "no frame at "@ + time@ + "s in "@ + path@ + ": "@ + detail@,
{
    let a: String = crate::text::join4("no frame at ", time, "s in ", path);
    let b: String = join2(": ", detail);
    let s: String = join2(a.as_str(), b.as_str());
    assert(s@ =~= "no frame at "@ + time@ + "s in "@ + path@ + ": "@ + detail@);
    s
}

} // verus!
