//! Playback of the master recording. The number of frames handed to the device is
//! the master clock for the whole timeline. A frame is one sample per channel.

use vstd::prelude::*;

verus! {

/// No seek goes further, in microseconds.
pub const SEEK_LIMIT: i64 = 1_000_000_000_000_000;

/// No recording has more frames.
pub const FRAME_LIMIT: u64 = 9_000_000_000_000;

/// The frame that is on after `t` microseconds.
pub open spec fn frame_at(t: int, rate: int) -> int {
    if t <= 0 {
        0
    } else {
        (t * rate) / 1_000_000
    }
}

/// Microseconds at which a frame starts, to the nearest.
pub open spec fn time_at(frame: int, rate: int) -> int {
    crate::units::rounded(frame * 1_000_000, rate)
}

/// The frame to which a seek to `t` microseconds goes.
pub fn seek_frame(t: i64, rate: u32) -> (frame: u64)
    requires
        t <= SEEK_LIMIT,
    ensures
        frame == frame_at(t as int, rate as int),
{
    if t <= 0 {
        0
    } else {
        proof {
            assert(0 <= t * rate <= 1_000_000_000_000_000 * 0xffff_ffff) by (nonlinear_arith)
                requires
                    0 <= t <= 1_000_000_000_000_000,
                    0 <= rate <= 0xffff_ffff,
            ;
        }
        (((t as u128) * (rate as u128)) / 1_000_000) as u64
    }
}

/// Playback time in microseconds.
pub fn position(frame: u64, rate: u32) -> (t: i64)
    requires
        rate > 0,
        frame <= FRAME_LIMIT,
    ensures
        t == time_at(frame as int, rate as int),
        0 <= t <= frame * 1_000_000,
{
    let q: i128 = crate::units::round_div((frame as i128) * 1_000_000, rate as i128);
    proof {
        let n = frame * 1_000_000;
        vstd::arithmetic::div_mod::lemma_div_pos_is_pos(2 * n + rate, 2 * rate as int);
    }
    q as i64
}

/// Length in microseconds of a recording of `samples` interleaved samples.
pub fn recording_length(samples: u64, rate: u32, channels: u16) -> (t: i64)
    requires
        rate > 0,
        channels > 0,
        samples <= FRAME_LIMIT,
    ensures
        t == crate::units::rounded(samples * 1_000_000, rate * channels),
{
    proof {
        assert(0 < rate * channels <= 0xffff_ffff * 0xffff) by (nonlinear_arith)
            requires
                0 < rate <= 0xffff_ffff,
                0 < channels <= 0xffff,
        ;
    }
    let d: i128 = (rate as i128) * (channels as i128);
    let q: i128 = crate::units::round_div((samples as i128) * 1_000_000, d);
    proof {
        let n = samples * 1_000_000;
        vstd::arithmetic::div_mod::lemma_div_pos_is_pos(2 * n + d, 2 * d as int);
    }
    q as i64
}

/// A seek lands on the frame that is on at that time: it plays from there or up to
/// a frame before, but for the rounding.
pub proof fn lemma_seek_position(t: int, rate: int)
    requires
        rate > 0,
        t >= 0,
    ensures
        time_at(frame_at(t, rate), rate) <= t,
        (t - time_at(frame_at(t, rate), rate) - 1) * rate < 1_000_000,
{
    let k = frame_at(t, rate);
    let top = t * rate;
    if t == 0 {
        assert(top == 0) by (nonlinear_arith)
            requires
                t == 0,
                top == t * rate,
        ;
    }
    assert(k == top / 1_000_000 && 1_000_000 * k <= top < 1_000_000 * k + 1_000_000);
    let s = time_at(k, rate);
    crate::units::lemma_rounded_near(k * 1_000_000, rate);
    assert(s <= t) by (nonlinear_arith)
        requires
            -rate <= 2 * (k * 1_000_000 - s * rate) <= rate,
            k * 1_000_000 <= t * rate,
            rate > 0,
    ;
    assert((t - s - 1) * rate < 1_000_000) by (nonlinear_arith)
        requires
            -rate <= 2 * (k * 1_000_000 - s * rate) <= rate,
            t * rate < k * 1_000_000 + 1_000_000,
            rate > 0,
    ;
}

/// Sample `c` of the frame `f` frames behind `pos`: from the recording while the
/// whole frame lies in it, else silence.
pub open spec fn played<T>(pcm: Seq<T>, silence: T, pos: int, channels: int, f: int, c: int) -> T {
    if (pos + f + 1) * channels <= pcm.len() {
        pcm[(pos + f) * channels + c]
    } else {
        silence
    }
}

/// Hands the next frames to the device, and says at which frame playback then is.
/// While paused the device gets silence.
pub fn fill<T: Copy>(pcm: &Vec<T>, silence: T, playing: bool, pos: u64, channels: usize, out: &mut Vec<T>) -> (
next: u64)
    requires
        channels > 0,
        old(out)@.len() % (channels as nat) == 0,
        pos * channels + old(out)@.len() <= usize::MAX,
        pos + old(out)@.len() <= u64::MAX,
    ensures
        final(out)@.len() == old(out)@.len(),
        !playing ==> next == pos && forall|i: int|
            0 <= i < final(out)@.len() ==> #[trigger] final(out)@[i] == silence,
        playing ==> next == pos + final(out)@.len() as int / channels as int,
        playing ==> forall|i: int|
            0 <= i < final(out)@.len() ==> #[trigger] final(out)@[i] == played(
                pcm@,
                silence,
                pos as int,
                channels as int,
                i / channels as int,
                i % channels as int,
            ),
{
    let n: usize = out.len();
    if !playing {
        let mut i: usize = 0;
        while i < n
            invariant
                n == out@.len(),
                i <= n,
                forall|k: int| 0 <= k < i ==> #[trigger] out@[k] == silence,
            decreases n - i,
        {
            out.set(i, silence);
            i = i + 1;
        }
        return pos;
    }
    let ghost ch = channels as int;
    let frames: usize = n / channels;
    proof {
        vstd::arithmetic::div_mod::lemma_fundamental_div_mod(n as int, ch);
        assert(n == frames * ch) by (nonlinear_arith)
            requires
                n == ch * frames,
        ;
        assert(frames <= n) by (nonlinear_arith)
            requires
                n == frames * ch,
                ch >= 1,
                frames >= 0,
        ;
        assert(pos <= pos * ch) by (nonlinear_arith)
            requires
                pos >= 0,
                ch >= 1,
        ;
    }
    let mut f: usize = 0;
    let mut at: usize = (pos as usize) * channels;
    let mut base: usize = 0;
    while f < frames
        invariant
            channels > 0,
            ch == channels,
            n == out@.len(),
            n == frames * ch,
            f <= frames,
            base == f * ch,
            at == pos * ch + base,
            pos * channels + n <= usize::MAX,
            forall|i: int|
                0 <= i < base ==> #[trigger] out@[i] == played(
                    pcm@,
                    silence,
                    pos as int,
                    ch,
                    i / ch,
                    i % ch,
                ),
        decreases frames - f,
    {
        proof {
            assert(base + ch <= n) by (nonlinear_arith)
                requires
                    base == f * ch,
                    n == frames * ch,
                    f + 1 <= frames,
                    ch > 0,
            ;
            assert((pos + f) * ch == at && (pos + f + 1) * ch == at + ch) by (nonlinear_arith)
                requires
                    at == pos * ch + base,
                    base == f * ch,
            ;
        }
        let whole: bool = at + channels <= pcm.len();
        let mut c: usize = 0;
        while c < channels
            invariant
                channels > 0,
                ch == channels,
                n == out@.len(),
                base + ch <= n,
                base == f * ch,
                c <= channels,
                whole == (at + ch <= pcm@.len()),
                (pos + f) * ch == at,
                (pos + f + 1) * ch == at + ch,
                at + ch <= usize::MAX,
                forall|i: int|
                    0 <= i < base + c ==> #[trigger] out@[i] == played(
                        pcm@,
                        silence,
                        pos as int,
                        ch,
                        i / ch,
                        i % ch,
                    ),
            decreases channels - c,
        {
            proof {
                vstd::arithmetic::div_mod::lemma_fundamental_div_mod_converse(
                    base + c,
                    ch,
                    f as int,
                    c as int,
                );
            }
            if whole {
                out.set(base + c, pcm[at + c]);
            } else {
                out.set(base + c, silence);
            }
            c = c + 1;
        }
        proof {
            assert((f + 1) * ch == f * ch + ch) by (nonlinear_arith);
        }
        at = at + channels;
        base = base + channels;
        f = f + 1;
    }
    pos + frames as u64
}

} // verus!
