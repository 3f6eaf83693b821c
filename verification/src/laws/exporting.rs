//! Frames of an export, and the sound that is played.

use crate::audio::{bucket_end, bucket_start, pcm_words, sample_bits};
use crate::export::{says, ExportSpec};
use crate::export_job::{export_length, frames_in, is_spec_for, moment_of, range_length, ExportJob};
use crate::model::{Project, Rate};
use crate::player::{frame_at, played, time_at};
use crate::text::decimal;
use crate::units::{lemma_even_near, lemma_rounded_grows, lemma_rounded_near, lemma_rounded_whole, size};
use vstd::prelude::*;

verus! {

// ---------------------------------------------------------------- exports

/// An export has the frames of its length: so many in so many seconds, to the nearest in
/// between, and none where there is no length. Behind the last one its length is over, to
/// half a frame and a microsecond.
pub proof fn lemma_frames_fill_the_export(start: int, duration: int, fps: Rate, n: int)
    requires
        fps.ok(),
        n >= 0,
    ensures
        frames_in(n * fps.den * 1_000_000, fps) == n * fps.num,
        duration <= 0 ==> frames_in(duration, fps) == 0,
        duration >= 0 ==> 2 * size(frames_in(duration, fps) * (fps.den * 1_000_000) - duration * fps.num) <= fps.den
            * 1_000_000,
        duration >= 0 ==> 2 * (size(moment_of(start, frames_in(duration, fps), fps) - (start + duration)) * fps.num)
            <= fps.den * 1_000_000 + fps.num,
{
    let a = fps.num as int;
    let step = fps.den * 1_000_000;
    assert((n * fps.den * 1_000_000) * a == (n * a) * step) by (nonlinear_arith)
        requires
            step == fps.den * 1_000_000,
    ;
    lemma_rounded_whole(n * a, step);
    assert(n * a >= 0) by (nonlinear_arith)
        requires
            n >= 0,
            a > 0,
    ;
    assert(0 * step == 0);
    lemma_rounded_whole(0, step);
    let top = duration * a;
    if duration <= 0 {
        assert(top <= 0) by (nonlinear_arith)
            requires
                top == duration * a,
                duration <= 0,
                a > 0,
        ;
        lemma_rounded_grows(top, 0, step);
    }
    if duration >= 0 {
        assert(top >= 0) by (nonlinear_arith)
            requires
                top == duration * a,
                duration >= 0,
                a > 0,
        ;
        lemma_rounded_grows(0, top, step);
        lemma_rounded_near(top, step);
        crate::timeline::lemma_snap_near(fps, duration);
    }
}

/// The sound starts with the first picture, and the two last as long as the export; the
/// pictures have the size that the project asks for, and everything else is the project's.
pub proof fn lemma_sound_starts_with_the_first_picture(
    project: Project,
    out: Seq<char>,
    duration: i64,
    spec: ExportSpec,
)
    requires
        project.output.fps.ok(),
        is_spec_for(project, out, duration, spec),
    ensures
        spec.audio_start == moment_of(project.range.start as int, 0, project.output.fps),
        spec.duration == duration,
        project.layout.is_horizontal() ==> spec.width >= spec.height,
        !project.layout.is_horizontal() ==> spec.width <= spec.height,
        spec.width as int + spec.height == project.output.width + project.output.height,
        spec.codec == project.output.codec,
        spec.quality == project.output.quality,
        spec.fps == project.output.fps,
        project.wav is Some ==> spec.wav is Some && spec.wav->0@ == project.wav->0@,
        project.wav is None ==> spec.wav is None,
{
    let n = project.output.fps.num as int;
    assert(0 * (project.output.fps.den * 1_000_000) == 0);
    lemma_rounded_whole(0, n);
    assert(0 * n == 0);
}

/// An export covers the range where there is one, else all from the range's start on: it
/// ends with the range, or with the timeline.
pub proof fn lemma_export_ends_with_its_range(project: Project, wav: Option<i64>)
    ensures
        project.range.end > project.range.start ==> project.range.start + export_length(project, wav)
            == project.range.end && range_length(project) == export_length(project, wav),
        project.range.end <= project.range.start ==> project.range.start + export_length(project, wav)
            == crate::model::timeline_length(project, wav) && range_length(project) == 0,
        range_length(project) >= 0,
{
}

/// The speed that is shown is that of the frames that are done, to the tenth, and the time
/// that is left is what the others take at that speed, to the second.
pub proof fn lemma_speed_tells_the_time_left(e: ExportJob, elapsed: int)
    requires
        e.wf(),
        elapsed >= 1000,
    ensures
        2 * size(e.speed(elapsed) * elapsed - e.frame * 10_000_000) <= elapsed,
        e.frame > 0 ==> 2 * size(e.eta(elapsed) * (e.frame * 1_000_000) - (e.total - e.frame) * elapsed) <= e.frame
            * 1_000_000,
        e.frame == e.total ==> e.eta(elapsed) == 0,
        e.frame == 0 ==> e.eta(elapsed) == 0 && e.speed(elapsed) == 0,
{
    lemma_even_near(e.frame * 10_000_000, elapsed);
    if e.frame > 0 {
        lemma_even_near((e.total - e.frame) * elapsed, e.frame * 1_000_000);
        if e.frame == e.total {
            assert(0 * elapsed == 0);
            let x = e.eta(elapsed);
            let d = e.frame * 1_000_000;
            assert(x == 0) by (nonlinear_arith)
                requires
                    -d <= 2 * (0 - x * d) <= d,
                    d > 0,
            ;
        }
    } else {
        let x = e.speed(elapsed);
        assert(x == 0) by (nonlinear_arith)
            requires
                -elapsed <= 2 * (0 - x * elapsed) <= elapsed,
                elapsed > 0,
        ;
    }
}

// ---------------------------------------------------------------- sound

/// A sample's four bytes are read back as what was written, the low one first.
pub proof fn lemma_samples_are_read_back(bytes: Seq<u8>, k: int, v: u32)
    requires
        0 <= k,
        4 * k + 4 <= bytes.len(),
        bytes[4 * k] as int == v as int % 256,
        bytes[4 * k + 1] as int == (v as int / 256) % 256,
        bytes[4 * k + 2] as int == (v as int / 65536) % 256,
        bytes[4 * k + 3] as int == v as int / 16777216,
    ensures
        sample_bits(bytes, k) == v,
{
    let n = v as int;
    assert(n / 256 == 256 * (n / 65536) + (n / 256) % 256);
    assert(n / 65536 == 256 * (n / 16777216) + (n / 65536) % 256);
}

/// The command for a recording's samples names the recording, and its rate and number of
/// channels as they are asked for.
pub proof fn lemma_samples_come_as_asked(path: Seq<char>, rate: nat, channels: nat)
    ensures
        exists|p: int| #[trigger] says(pcm_words(path, rate, channels), p, "-i"@, path),
        exists|p: int, s: Seq<char>|
            #[trigger] says(pcm_words(path, rate, channels), p, "-ar"@, s) && crate::text::spelled_int(s) == Some(
                rate as int,
            ),
        exists|p: int, s: Seq<char>|
            #[trigger] says(pcm_words(path, rate, channels), p, "-ac"@, s) && crate::text::spelled_int(s) == Some(
                channels as int,
            ),
        exists|p: int| #[trigger] says(pcm_words(path, rate, channels), p, "-f"@, "f32le"@),
{
    let words = pcm_words(path, rate, channels);
    assert(words.len() == 16);
    assert(says(words, 4, "-i"@, path));
    assert(says(words, 9, "-ac"@, decimal(channels)));
    assert(says(words, 11, "-ar"@, decimal(rate)));
    assert(says(words, 13, "-f"@, "f32le"@));
    crate::text::lemma_signed_reads_back(rate as int);
    crate::text::lemma_signed_reads_back(channels as int);
    assert(crate::text::signed(rate as int) =~= decimal(rate));
    assert(crate::text::signed(channels as int) =~= decimal(channels));
}

/// Samples are dealt out evenly: no bucket has more than one sample more than another.
pub proof fn lemma_buckets_are_even(len: int, buckets: int, b: int)
    requires
        0 < buckets <= len,
        0 <= b < buckets,
    ensures
        len / buckets <= bucket_end(len, buckets, b) - bucket_start(len, buckets, b) <= len / buckets + 1,
{
    crate::audio::lemma_buckets_cover(len, buckets, b);
    let x = b * len;
    let y = (b + 1) * len;
    assert(y == x + len) by (nonlinear_arith)
        requires
            x == b * len,
            y == (b + 1) * len,
    ;
    vstd::arithmetic::div_mod::lemma_fundamental_div_mod(x, buckets);
    vstd::arithmetic::div_mod::lemma_mod_bound(x, buckets);
    vstd::arithmetic::div_mod::lemma_fundamental_div_mod(y, buckets);
    vstd::arithmetic::div_mod::lemma_mod_bound(y, buckets);
    vstd::arithmetic::div_mod::lemma_fundamental_div_mod(len, buckets);
    vstd::arithmetic::div_mod::lemma_mod_bound(len, buckets);
    let p = x / buckets;
    let q = y / buckets;
    let r = len / buckets;
    assert(r <= q - p <= r + 1) by (nonlinear_arith)
        requires
            x == buckets * p + x % buckets,
            y == buckets * q + y % buckets,
            len == buckets * r + len % buckets,
            0 <= x % buckets < buckets,
            0 <= y % buckets < buckets,
            0 <= len % buckets < buckets,
            y == x + len,
            buckets > 0,
    ;
}

/// Fewer samples than buckets get one each.
pub proof fn lemma_few_samples_get_a_bucket_each(len: int, buckets: int, b: int)
    requires
        0 <= len < buckets,
        0 <= b < buckets,
    ensures
        b < len ==> bucket_start(len, buckets, b) == b && bucket_end(len, buckets, b) == b + 1,
        b >= len ==> bucket_end(len, buckets, b) <= bucket_start(len, buckets, b),
{
}

/// A second is as many frames as the rate says, later times never lead to earlier frames,
/// and a frame is on at its own time, but for the rounding. Before the start there is only
/// the first.
pub proof fn lemma_seconds_are_frames(n: int, rate: int, t: int, u: int, k: int)
    requires
        rate > 0,
        n >= 0,
        t <= u,
        k >= 0,
    ensures
        frame_at(n * 1_000_000, rate) == n * rate,
        time_at(n * rate, rate) == n * 1_000_000,
        frame_at(t, rate) <= frame_at(u, rate),
        t <= 0 ==> frame_at(t, rate) == 0,
        rate <= 1_000_000 ==> k - 1 <= frame_at(time_at(k, rate), rate) <= k,
{
    assert((n * 1_000_000) * rate == (n * rate) * 1_000_000) by (nonlinear_arith);
    lemma_rounded_whole(n * 1_000_000, rate);
    if n == 0 {
        assert(n * rate == 0) by (nonlinear_arith)
            requires
                n == 0,
        ;
    }
    assert(t * rate <= u * rate) by (nonlinear_arith)
        requires
            t <= u,
            rate > 0,
    ;
    if u > 0 {
        assert(u * rate > 0) by (nonlinear_arith)
            requires
                u > 0,
                rate > 0,
        ;
    }
    let s = time_at(k, rate);
    lemma_rounded_near(k * 1_000_000, rate);
    assert(0 * rate == 0);
    lemma_rounded_whole(0, rate);
    lemma_rounded_grows(0, k * 1_000_000, rate);
    if s <= 0 {
        assert(s * rate == 0) by (nonlinear_arith)
            requires
                s == 0,
        ;
    }
}

/// Playing on by a frame plays what the next frame would have been, and behind the
/// recording's end there is silence.
pub proof fn lemma_playback_goes_on<T>(pcm: Seq<T>, silence: T, pos: int, channels: int, f: int, c: int)
    requires
        channels > 0,
        pos >= 0,
        f >= 0,
        0 <= c < channels,
    ensures
        played(pcm, silence, pos + 1, channels, f, c) == played(pcm, silence, pos, channels, f + 1, c),
        (pos + f) * channels >= pcm.len() ==> played(pcm, silence, pos, channels, f, c) == silence,
        (pos + f) * channels + channels <= pcm.len() ==> played(pcm, silence, pos, channels, f, c) == pcm[(pos + f)
            * channels + c],
{
    assert((pos + f + 1) * channels == (pos + f) * channels + channels) by (nonlinear_arith);
    assert((pos + 1) + f == pos + (f + 1));
}

// ---------------------------------------------------------------- the encoder's command

/// The file that is written is the last word, and is written anew; the pictures come in as
/// they are composed, four bytes per pixel; the index goes to the front of the file, and the
/// file ends with the shorter of pictures and sound.
pub proof fn lemma_command_names_its_file(spec: ExportSpec)
    ensures
        ({
            let words = crate::export::encoder_words(spec);
            let n = words.len() as int;
            &&& words[0] == "-y"@
            &&& words[n - 1] == spec.out_path@
            &&& words[n - 2] == "-shortest"@
            &&& says(words, n - 4, "-movflags"@, "+faststart"@)
            &&& exists|p: int|
                #[trigger] says(words, p, "-f"@, "rawvideo"@) && says(words, p + 2, "-pix_fmt"@, "rgba"@) && says(
                    words,
                    p + 8,
                    "-i"@,
                    "-"@,
                )
        }),
{
    let words = crate::export::encoder_words(spec);
    let n = words.len() as int;
    let tail = seq!["-movflags"@, "+faststart"@, "-shortest"@, spec.out_path@];
    assert(words[n - 1] == tail[3] && words[n - 2] == tail[2] && words[n - 3] == tail[1] && words[n - 4] == tail[0]);
    let pictures = crate::export::picture_words(spec);
    let p = pictures.len() - 10;
    assert(pictures[0] == "-y"@);
    assert(pictures[p] == "-f"@ && pictures[p + 1] == "rawvideo"@);
    assert(pictures[p + 2] == "-pix_fmt"@ && pictures[p + 3] == "rgba"@);
    assert(pictures[p + 8] == "-i"@ && pictures[p + 9] == "-"@);
    assert(words[0] == pictures[0]);
    assert(words[p] == pictures[p] && words[p + 1] == pictures[p + 1]);
    assert(words[p + 2] == pictures[p + 2] && words[p + 3] == pictures[p + 3]);
    assert(words[p + 8] == pictures[p + 8] && words[p + 9] == pictures[p + 9]);
    assert(says(words, p, "-f"@, "rawvideo"@));
}

/// The graphics device is opened for the encoders that run on it, and for no other.
pub proof fn lemma_only_card_encoders_open_the_card(spec: ExportSpec)
    ensures
        ({
            let words = crate::export::picture_words(spec);
            let quiet = crate::text::quiet_words().len() as int;
            &&& crate::export::uses_vaapi(spec.codec) ==> says(
                words,
                1 + quiet,
                "-vaapi_device"@,
                "/dev/dri/renderD128"@,
            )
            &&& !crate::export::uses_vaapi(spec.codec) ==> says(words, 1 + quiet, "-f"@, "rawvideo"@)
        }),
{
}

/// One picture that is written to a file comes in raw, with its width before its height.
pub proof fn lemma_shot_names_its_size(width: u32, height: u32, out: Seq<char>)
    ensures
        ({
            let words = crate::ffmpeg::shot_words(width, height, out);
            let n = words.len() as int;
            &&& words[n - 1] == out
            &&& says(words, n - 3, "-frames:v"@, "1"@)
            &&& exists|p: int|
                #[trigger] says(words, p, "-s"@, decimal(width as nat) + "x"@ + decimal(height as nat)) && says(
                    words,
                    p - 2,
                    "-pix_fmt"@,
                    "rgba"@,
                )
        }),
{
    let words = crate::ffmpeg::shot_words(width, height, out);
    assert(words.len() == 16);
    assert(says(words, 9, "-s"@, decimal(width as nat) + "x"@ + decimal(height as nat)));
}

/// Less than a frame a second counts as one for the bit rate, and the first millisecond
/// counts as one for the speed.
pub proof fn lemma_least_rates(w: int, h: int, num: int, den: int, e: ExportJob, elapsed: int)
    requires
        0 <= num < den,
        0 <= elapsed <= 1000,
    ensures
        crate::export::bit_rate(w, h, num, den) == crate::export::bit_rate(w, h, 1, 1),
        e.speed(elapsed) == e.speed(1000),
        e.eta(elapsed) == e.eta(1000),
{
}

} // verus!
