//! What decoders are asked for, when they restart, and the sizes of their pictures.

use crate::decoder::{
    decode_words, grab_words, picture_filter_text, stream_words, tone_map_text, DecodeRequest, Frame,
};
use crate::engine::{is_request, next_generation, CamState, StreamSet};
use crate::export::says;
use crate::ffmpeg::{even_size, fit_factor, fitted, raw_words, trial_passed, HwAccel, Platform};
use crate::model::{Clip, Rate};
use crate::text::{decimal, rate_text, spelled_micros};
use crate::units::{lemma_rounded_near, lemma_rounded_ratio, lemma_rounded_whole, rounded, size};
use vstd::prelude::*;

verus! {

// ---------------------------------------------------------------- commands

/// A command seeks in a file: the words `-ss` and a time stand directly before the file.
pub open spec fn seeks(words: Seq<Seq<char>>, p: int, time: Seq<char>, path: Seq<char>) -> bool {
    says(words, p, "-ss"@, time) && says(words, p + 2, "-i"@, path)
}

proof fn lemma_decode_seeks(req: DecodeRequest, vf: Seq<char>, tail: Seq<Seq<char>>)
    requires
        req.start >= 0,
    ensures
        ({
            let words = decode_words(req, vf) + tail;
            let p = (crate::text::quiet_words().len() + req.hwaccel.input_words().len()) as int;
            &&& seeks(words, p, crate::text::fixed6(req.start as int), req.path@)
            &&& says(words, p + 7, "-vf"@, vf)
        }),
{
    let head = crate::text::quiet_words() + req.hwaccel.input_words();
    let words = decode_words(req, vf) + tail;
    let p = head.len() as int;
    let rest = seq![
        "-ss"@,
        crate::decoder::start_text(req.start as int),
        "-i"@,
        req.path@,
        "-an"@,
        "-sn"@,
        "-dn"@,
        "-vf"@,
        vf,
    ];
    assert(decode_words(req, vf) == head + rest);
    assert(words[p] == rest[0] && words[p + 1] == rest[1] && words[p + 2] == rest[2] && words[p + 3] == rest[3]);
    assert(words[p + 7] == rest[7] && words[p + 8] == rest[8]);
}

/// Decoding starts where it is asked to, in the file that is asked for: the time behind
/// `-ss` reads back as the request's.
pub proof fn lemma_decoding_starts_where_asked(req: DecodeRequest)
    requires
        req.start >= 0,
    ensures
        exists|p: int, time: Seq<char>|
            #[trigger] seeks(stream_words(req), p, time, req.path@) && spelled_micros(time) == Some(req.start as int),
        exists|p: int, time: Seq<char>|
            #[trigger] seeks(grab_words(req), p, time, req.path@) && spelled_micros(time) == Some(req.start as int),
{
    let p = (crate::text::quiet_words().len() + req.hwaccel.input_words().len()) as int;
    let time = crate::text::fixed6(req.start as int);
    crate::text::lemma_fixed6_reads_back(req.start as int);
    let vf = picture_filter_text(req) + ",fps="@ + rate_text(req.fps.num as int, req.fps.den as int);
    lemma_decode_seeks(req, vf, raw_words());
    assert(seeks(stream_words(req), p, time, req.path@));
    let one = seq!["-frames:v"@, "1"@];
    lemma_decode_seeks(req, picture_filter_text(req), one + raw_words());
    assert(grab_words(req) =~= decode_words(req, picture_filter_text(req)) + (one + raw_words()));
    assert(seeks(grab_words(req), p, time, req.path@));
}

/// A grab asks for the one frame and no other; a stream asks for frames at the request's
/// rate, through the same filters. Both give raw pictures of four bytes per pixel.
pub proof fn lemma_grab_and_stream_differ_in_the_count(req: DecodeRequest)
    requires
        req.start >= 0,
    ensures
        exists|p: int| #[trigger] says(grab_words(req), p, "-frames:v"@, "1"@),
        exists|p: int| #[trigger] says(grab_words(req), p, "-vf"@, picture_filter_text(req)),
        exists|p: int|
            #[trigger] says(
                stream_words(req),
                p,
                "-vf"@,
                picture_filter_text(req) + ",fps="@ + rate_text(req.fps.num as int, req.fps.den as int),
            ),
        exists|p: int| #[trigger] says(grab_words(req), p, "-pix_fmt"@, "rgba"@),
        exists|p: int| #[trigger] says(stream_words(req), p, "-pix_fmt"@, "rgba"@),
{
    let p = (crate::text::quiet_words().len() + req.hwaccel.input_words().len()) as int;
    let vf = picture_filter_text(req) + ",fps="@ + rate_text(req.fps.num as int, req.fps.den as int);
    lemma_decode_seeks(req, vf, raw_words());
    assert(says(stream_words(req), p + 7, "-vf"@, vf));
    let n = decode_words(req, vf).len() as int;
    assert(stream_words(req)[n] == raw_words()[0] && stream_words(req)[n + 1] == raw_words()[1]);
    assert(says(stream_words(req), n, "-pix_fmt"@, "rgba"@));
    let one = seq!["-frames:v"@, "1"@];
    let plain = picture_filter_text(req);
    lemma_decode_seeks(req, plain, one + raw_words());
    assert(grab_words(req) =~= decode_words(req, plain) + (one + raw_words()));
    assert(says(grab_words(req), p + 7, "-vf"@, plain));
    let m = decode_words(req, plain).len() as int;
    assert(grab_words(req)[m] == one[0] && grab_words(req)[m + 1] == one[1]);
    assert(says(grab_words(req), m, "-frames:v"@, "1"@));
    assert(grab_words(req)[m + 2] == raw_words()[0] && grab_words(req)[m + 3] == raw_words()[1]);
    assert(says(grab_words(req), m + 2, "-pix_fmt"@, "rgba"@));
}

/// A filter scales to a width and a height, in this order.
pub open spec fn scales(s: Seq<char>, w: nat, h: nat, head: Seq<char>, between: Seq<char>, tail: Seq<char>) -> bool {
    s == head + decimal(w) + between + decimal(h) + tail
}

/// Every decode path scales to the width first and the height second, and says the same
/// around them whatever they are.
pub proof fn lemma_scaling_names_width_and_height(path: HwAccel, w: nat, h: nat, v: nat, g: nat, ten_bit: bool)
    ensures
        exists|head: Seq<char>, between: Seq<char>, tail: Seq<char>|
            #[trigger] scales(path.scale_text(w, h, ten_bit), w, h, head, between, tail) && #[trigger] scales(
                path.scale_text(v, g, ten_bit),
                v,
                g,
                head,
                between,
                tail,
            ) && !(between.len() == 0),
{
    let fmt = crate::ffmpeg::download_format(ten_bit);
    reveal_strlit(":h=");
    reveal_strlit(":");
    let (head, between, tail) = match path {
        HwAccel::VaapiGpuScale => (
            "scale_vaapi=w="@,
            ":h="@,
            ":format="@ + fmt + ",hwdownload,format="@ + fmt,
        ),
        HwAccel::VideoToolboxGpuScale => ("scale_vt=w="@, ":h="@, ",hwdownload,format="@ + fmt),
        _ => ("scale="@, ":"@, ":flags=bicubic"@),
    };
    assert(path.scale_text(w, h, ten_bit) =~= head + decimal(w) + between + decimal(h) + tail);
    assert(path.scale_text(v, g, ten_bit) =~= head + decimal(v) + between + decimal(g) + tail);
    assert(scales(path.scale_text(w, h, ten_bit), w, h, head, between, tail));
    assert(scales(path.scale_text(v, g, ten_bit), v, g, head, between, tail));
}

/// Footage of high dynamic range is tone mapped behind the scaling, and read with ten
/// bits; other footage is only scaled.
pub proof fn lemma_only_high_range_is_tone_mapped(req: DecodeRequest)
    ensures
        !req.hdr ==> picture_filter_text(req) == req.hwaccel.scale_text(req.width as nat, req.height as nat, false),
        req.hdr ==> picture_filter_text(req) == req.hwaccel.scale_text(req.width as nat, req.height as nat, true)
            + ","@ + tone_map_text(),
{
}

/// A decode path that scales on the graphics card keeps the frames there until then; the
/// others hand them over, and decoding in software needs no word.
pub proof fn lemma_scaling_paths_keep_frames_on_the_card()
    ensures
        HwAccel::Software.input_words().len() == 0,
        HwAccel::Vaapi.input_words() == seq!["-hwaccel"@, "vaapi"@],
        HwAccel::VideoToolbox.input_words() == seq!["-hwaccel"@, "videotoolbox"@],
        HwAccel::VaapiGpuScale.input_words() =~= HwAccel::Vaapi.input_words() + seq![
            "-hwaccel_output_format"@,
            "vaapi"@,
        ],
        HwAccel::VideoToolboxGpuScale.input_words() =~= HwAccel::VideoToolbox.input_words() + seq![
            "-hwaccel_output_format"@,
            "videotoolbox"@,
        ],
{
}

/// Paths are tried that the platform has, scaling on the card before scaling off it.
pub proof fn lemma_faster_paths_are_tried_first()
    ensures
        HwAccel::paths_on(Platform::Linux) =~= seq![HwAccel::VaapiGpuScale, HwAccel::Vaapi],
        HwAccel::paths_on(Platform::MacOs) =~= seq![HwAccel::VideoToolboxGpuScale, HwAccel::VideoToolbox],
        HwAccel::paths_on(Platform::Other).len() == 0,
{
}

/// A trial has passed with two whole pictures, and with nothing else.
pub proof fn lemma_trial_needs_two_pictures(success: bool, complaints: int, bytes: int)
    ensures
        trial_passed(success, complaints, bytes) <==> success && complaints == 0 && bytes == 2 * (640 * 360 * 4),
{
}

// ---------------------------------------------------------------- picture sizes

/// A picture that fits keeps its size, but for an odd last row or column.
pub proof fn lemma_pictures_that_fit_are_kept(src_w: int, src_h: int, max_w: int, max_h: int)
    requires
        2 <= src_w <= max_w,
        2 <= src_h <= max_h,
    ensures
        src_w - 1 <= fitted(src_w, src_h, max_w, max_h).0 <= src_w,
        src_h - 1 <= fitted(src_w, src_h, max_w, max_h).1 <= src_h,
{
    lemma_rounded_whole(src_w, 1);
    lemma_rounded_whole(src_h, 1);
    assert(src_w * 1 == src_w && src_h * 1 == src_h);
}

/// A picture that does not fit is made as large as fits: one of its edges reaches the
/// largest it may have, but for an odd last row or column.
pub proof fn lemma_larger_pictures_fill_the_room(src_w: int, src_h: int, max_w: int, max_h: int)
    requires
        src_w > 0,
        src_h > 0,
        max_w >= 2,
        max_h >= 2,
        src_w > max_w || src_h > max_h,
    ensures
        fitted(src_w, src_h, max_w, max_h).0 >= max_w - 1 || fitted(src_w, src_h, max_w, max_h).1 >= max_h - 1,
{
    if max_w * src_h <= max_h * src_w {
        assert(src_w * max_w == max_w * src_w) by (nonlinear_arith);
        lemma_rounded_whole(max_w, src_w);
    } else {
        assert(src_h * max_h == max_h * src_h) by (nonlinear_arith);
        lemma_rounded_whole(max_h, src_h);
    }
}

/// A fitted picture keeps its shape: the two edges are shrunk alike, but for rounding to
/// even numbers.
pub proof fn lemma_fitted_pictures_keep_their_shape(src_w: int, src_h: int, max_w: int, max_h: int)
    requires
        src_w > 0,
        src_h > 0,
        max_w >= 2,
        max_h >= 2,
        fitted(src_w, src_h, max_w, max_h).0 > 2,
        fitted(src_w, src_h, max_w, max_h).1 > 2,
    ensures
        2 * size(fitted(src_w, src_h, max_w, max_h).0 * src_h - fitted(src_w, src_h, max_w, max_h).1 * src_w) <= 3 * (
        src_w + src_h),
{
    let (n, d) = fit_factor(src_w, src_h, max_w, max_h);
    let p = rounded(src_w * n, d);
    let q = rounded(src_h * n, d);
    lemma_rounded_near(src_w * n, d);
    lemma_rounded_near(src_h * n, d);
    let (w, h) = fitted(src_w, src_h, max_w, max_h);
    assert(p - 1 <= w <= p && q - 1 <= h <= q);
    let e = p * src_h - q * src_w;
    assert(-(src_w + src_h) <= 2 * e <= src_w + src_h) by (nonlinear_arith)
        requires
            -d <= 2 * (src_w * n - p * d) <= d,
            -d <= 2 * (src_h * n - q * d) <= d,
            e == p * src_h - q * src_w,
            d > 0,
            src_w > 0,
            src_h > 0,
    {
        let a = src_w * n - p * d;
        let b = src_h * n - q * d;
        assert(e * d == b * src_w - a * src_h);
        assert(-(src_w * d) <= 2 * (b * src_w) <= src_w * d);
        assert(-(src_h * d) <= 2 * (a * src_h) <= src_h * d);
        assert(-((src_w + src_h) * d) <= 2 * (e * d) <= (src_w + src_h) * d);
    }
    let f = w * src_h - h * src_w;
    assert(e - src_h <= f <= e + src_w) by (nonlinear_arith)
        requires
            p - 1 <= w <= p,
            q - 1 <= h <= q,
            e == p * src_h - q * src_w,
            f == w * src_h - h * src_w,
            src_w > 0,
            src_h > 0,
    ;
}

/// Laying a picture and its room on their sides lays the fitted picture on its side.
pub proof fn lemma_fitting_turns_with_the_picture(src_w: int, src_h: int, max_w: int, max_h: int)
    requires
        src_w >= 0,
        src_h >= 0,
        max_w >= 2,
        max_h >= 2,
    ensures
        fitted(src_h, src_w, max_h, max_w) == (
            fitted(src_w, src_h, max_w, max_h).1,
            fitted(src_w, src_h, max_w, max_h).0,
        ),
{
    if src_w > 0 && src_h > 0 && max_w * src_h == max_h * src_w && !(src_w <= max_w && src_h <= max_h) {
        assert((src_w * max_w) * src_h == (src_w * max_h) * src_w) by (nonlinear_arith)
            requires
                max_w * src_h == max_h * src_w,
        ;
        lemma_rounded_ratio(src_w * max_w, src_w, src_w * max_h, src_h);
        assert((src_h * max_w) * src_h == (src_h * max_h) * src_w) by (nonlinear_arith)
            requires
                max_w * src_h == max_h * src_w,
        ;
        lemma_rounded_ratio(src_h * max_w, src_w, src_h * max_h, src_h);
    }
}

/// A picture's edges are even: the next one below, and two at least.
pub proof fn lemma_edges_are_even(n: int)
    ensures
        even_size(n) % 2 == 0,
        n >= 2 ==> n - 1 <= even_size(n) <= n,
        n < 2 ==> even_size(n) == 2,
{
}

// ---------------------------------------------------------------- restarts

/// A running decoder goes on for times up to a second and a half ahead of it. It is
/// restarted for times further ahead, for times a frame behind it, and for another clip.
pub proof fn lemma_when_a_decoder_restarts(s: CamState, clip: usize, local: int, fps: Rate)
    requires
        fps.ok(),
    ensures
        !s.streaming ==> s.needs_restart(clip, local, fps),
        s.clip_index != Some(clip) ==> s.needs_restart(clip, local, fps),
        local - s.shown() > 1_500_000 ==> s.needs_restart(clip, local, fps),
        (s.shown() - local - 1) * fps.num >= fps.den * 1_000_000 ==> s.needs_restart(clip, local, fps),
        s.streaming && s.clip_index == Some(clip) && 0 <= local - s.shown() <= 1_500_000 ==> !s.needs_restart(
            clip,
            local,
            fps,
        ),
{
    let n = fps.num as int;
    let d = s.shown() - local - 1;
    if local - s.shown() >= 0 {
        assert(d * n <= 0) by (nonlinear_arith)
            requires
                d <= 0,
                n > 0,
        ;
    }
    assert(s.shown() - (local + 1) == d);
}

/// A frame is due from half a frame before its time on: at its time and behind it always,
/// a whole frame before it never.
pub proof fn lemma_frames_are_due_at_their_time(s: CamState, local: int, fps: Rate, f: Frame)
    requires
        fps.ok(),
        s.peek == Some(f),
    ensures
        local >= f.time ==> s.due(local, fps),
        (f.time - local) * fps.num >= fps.den * 1_000_000 ==> !s.due(local, fps),
        2 * ((f.time - local) * fps.num) <= fps.den * 1_000_000 ==> s.due(local, fps),
{
    let n = fps.num as int;
    let d = f.time - local;
    if d <= 0 {
        assert(d * n <= 0) by (nonlinear_arith)
            requires
                d <= 0,
                n > 0,
        ;
    }
}

/// What is shown changes its number, so that it is drawn again.
pub proof fn lemma_new_pictures_are_noticed(s: CamState, f: Frame, fps: Rate)
    ensures
        s.with_frame(f, fps).generation != s.generation,
        s.with_frame(f, fps).current == Some(f),
        s.with_frame(f, fps).shown() == f.time,
        s.with_frame(f, fps).peek is None,
        s.cleared().current is None,
        s.cleared().streaming == false,
        s.current is Some ==> s.cleared().generation != s.generation,
        s.current is None ==> s.cleared().generation == s.generation,
        next_generation(s.generation) != s.generation,
{
}

/// A decoder starts on the frame grid, at the wanted time or less than a frame before.
pub proof fn lemma_decoders_start_on_the_grid(set: StreamSet, clip: Clip, local: int, req: DecodeRequest)
    requires
        set.fps.ok(),
        local >= 0,
        is_request(set, clip, local, req),
    ensures
        0 <= req.start <= local,
        (local - req.start - 1) * set.fps.num < set.fps.den * 1_000_000,
        crate::timeline::snapped(set.fps, req.start as int) == req.start,
        req.path@ == clip.path@,
        req.fps == set.fps,
        req.hdr == clip.hdr,
{
    crate::model::lemma_frame_grid(set.fps, local);
    let k = set.fps.frame_at(local);
    crate::laws::projects::lemma_frames_go_up(set.fps, 0, k);
}

// ---------------------------------------------------------------- exactly

/// Frames come back with eight bits per channel, and with ten where the footage has a high
/// dynamic range.
pub proof fn lemma_depth_goes_with_range()
    ensures
        crate::ffmpeg::download_format(true) == "p010"@,
        crate::ffmpeg::download_format(false) == "nv12"@,
{
}

/// A decoder that is ahead is kept while it is so by no more than half a frame and a
/// microsecond.
pub proof fn lemma_half_a_frame_ahead_is_kept(s: CamState, clip: usize, local: int, fps: Rate)
    requires
        fps.ok(),
        s.streaming,
        s.clip_index == Some(clip),
        local <= s.shown(),
    ensures
        s.needs_restart(clip, local, fps) <==> 2 * ((s.shown() - local - 1) * fps.num) > fps.den * 1_000_000,
{
}

/// A frame is due from half a frame before its time on, and no earlier; and what is shown is
/// enough until half a frame behind it.
pub proof fn lemma_half_a_frame_decides(s: CamState, local: int, fps: Rate, f: Frame)
    requires
        fps.ok(),
        s.peek == Some(f),
    ensures
        s.due(local, fps) <==> 2 * ((f.time - local) * fps.num) <= fps.den * 1_000_000,
        s.stream_shown matches Some(t) ==> (s.satisfied(local, fps) <==> 2 * ((local - t) * fps.num) <= fps.den
            * 1_000_000),
        s.stream_shown is None ==> !s.satisfied(local, fps),
{
}

/// Until its first frame a decoder is where it was started; then it is at its last frame.
pub proof fn lemma_decoder_is_where_its_frame_is(s: CamState)
    ensures
        s.stream_shown is None ==> s.shown() == s.expected_next,
        s.stream_shown matches Some(t) ==> s.shown() == t,
{
}

/// Nothing is decoded from before a file's start.
pub proof fn lemma_decoding_never_starts_before_the_file(start: int)
    ensures
        start < 0 ==> spelled_micros(crate::decoder::start_text(start)) == Some(0int),
        start >= 0 ==> spelled_micros(crate::decoder::start_text(start)) == Some(start),
{
    crate::text::lemma_fixed6_reads_back(0);
    crate::text::lemma_fixed6_reads_back(start);
}

/// Tone mapping goes to linear light, to the primaries of the screen, maps what is too
/// bright, and comes back to the screen's curve and format, in this order.
pub proof fn lemma_tone_mapping_goes_through_linear_light()
    ensures
        tone_map_text() == "zscale=t=linear:npl=100,format=gbrpf32le,"@ + "zscale=p=bt709,"@
            + "tonemap=hable:desat=0,"@ + "zscale=t=bt709:m=bt709:r=tv,format=yuv420p"@,
{
    reveal_strlit("zscale=t=linear:npl=100,format=gbrpf32le,");
    reveal_strlit("zscale=p=bt709,");
    reveal_strlit("tonemap=hable:desat=0,");
    reveal_strlit("zscale=t=bt709:m=bt709:r=tv,format=yuv420p");
    reveal_strlit(
        "zscale=t=linear:npl=100,format=gbrpf32le,zscale=p=bt709,tonemap=hable:desat=0,zscale=t=bt709:m=bt709:r=tv,format=yuv420p",
    );
    assert(tone_map_text() =~= "zscale=t=linear:npl=100,format=gbrpf32le,"@ + "zscale=p=bt709,"@
        + "tonemap=hable:desat=0,"@ + "zscale=t=bt709:m=bt709:r=tv,format=yuv420p"@);
}

/// While the playhead is dragged, decoders restart 120 milliseconds apart at least; a camera
/// that never showed anything may start at once.
pub proof fn lemma_fresh_cameras_start_at_once(now: int)
    requires
        0 <= now <= crate::arrange::TIME_LIMIT,
    ensures
        crate::engine::RESTART_DEBOUNCE == 120_000,
        now - CamState::fresh(now).last_restart >= crate::engine::RESTART_DEBOUNCE,
        CamState::fresh(now).current is None,
        !CamState::fresh(now).streaming,
{
}

/// A picture of which an edge is not known is made as small as can be.
pub proof fn lemma_unknown_pictures_are_small(w: int, h: int, max_w: int, max_h: int)
    ensures
        fitted(0, h, max_w, max_h) == (2int, 2int),
        fitted(w, 0, max_w, max_h) == (2int, 2int),
{
}

/// A decode path is tried as it will be used, on the file that is given: with its own words
/// before the file and its own scaling, for the two pictures that it then has to deliver.
pub proof fn lemma_trials_ask_for_what_they_need(path: HwAccel, sample: Seq<char>)
    ensures
        ({
            let words = crate::ffmpeg::trial_words(path, sample);
            let p = (crate::text::quiet_words().len() + path.input_words().len()) as int;
            &&& says(words, p, "-i"@, sample)
            &&& says(words, p + 5, "-vf"@, path.scale_text(640, 360, false) + ",fps=10"@)
            &&& says(words, p + 7, "-frames:v"@, "2"@)
            &&& says(words, p + 9, "-pix_fmt"@, "rgba"@)
            &&& words.subrange(p - path.input_words().len(), p) == path.input_words()
        }),
{
    let words = crate::ffmpeg::trial_words(path, sample);
    let head = crate::text::quiet_words() + path.input_words();
    let p = head.len() as int;
    let rest = seq![
        "-i"@,
        sample,
        "-an"@,
        "-sn"@,
        "-dn"@,
        "-vf"@,
        path.scale_text(640, 360, false) + ",fps=10"@,
        "-frames:v"@,
        "2"@,
    ];
    assert(words =~= head + (rest + raw_words()));
    assert(words[p] == rest[0] && words[p + 1] == rest[1]);
    assert(words[p + 5] == rest[5] && words[p + 6] == rest[6]);
    assert(words[p + 7] == rest[7] && words[p + 8] == rest[8]);
    assert(words[p + 9] == raw_words()[0] && words[p + 10] == raw_words()[1]);
    assert(words.subrange(p - path.input_words().len(), p) =~= path.input_words());
}

} // verus!
