//! Sound: the command line that decodes it, the samples in its bytes, and the
//! peaks of a waveform strip.

use crate::text::{number_text, push_word, quiet_args};
use vstd::prelude::*;

verus! {

/// Command that decodes the sound of `path` to interleaved samples.
pub open spec fn pcm_words(path: Seq<char>, rate: nat, channels: nat) -> Seq<Seq<char>> {
    crate::text::quiet_words() + seq![
        "-i"@,
        path,
        "-vn"@,
        "-sn"@,
        "-dn"@,
        "-ac"@,
        crate::text::decimal(channels),
        "-ar"@,
        crate::text::decimal(rate),
        "-f"@,
        "f32le"@,
        "-"@,
    ]
}

/// Command that decodes the sound of `path` to interleaved samples at `rate` Hz
/// with `channels` channels.
pub fn pcm_args(path: &str, rate: u32, channels: u16) -> (v: Vec<String>)
    ensures
        crate::text::text_views(v@) == pcm_words(path@, rate as nat, channels as nat),
{
    let mut v: Vec<String> = quiet_args();
    let c: String = number_text(channels as u64);
    let r: String = number_text(rate as u64);
    push_word(&mut v, "-i");
    push_word(&mut v, path);
    push_word(&mut v, "-vn");
    push_word(&mut v, "-sn");
    push_word(&mut v, "-dn");
    push_word(&mut v, "-ac");
    push_word(&mut v, c.as_str());
    push_word(&mut v, "-ar");
    push_word(&mut v, r.as_str());
    push_word(&mut v, "-f");
    push_word(&mut v, "f32le");
    push_word(&mut v, "-");
    assert(crate::text::text_views(v@) =~= pcm_words(path@, rate as nat, channels as nat));
    v
}

/// The bits of sample `k`: four bytes, the low one first.
pub open spec fn sample_bits(bytes: Seq<u8>, k: int) -> int {
    bytes[4 * k] + 256 * bytes[4 * k + 1] + 65536 * bytes[4 * k + 2] + 16777216 * bytes[4 * k + 3]
}

/// The bits of the samples in a stretch of bytes; bytes that fill no sample are
/// dropped.
pub fn pcm_bits(bytes: &Vec<u8>) -> (out: Vec<u32>)
    ensures
        out@.len() == bytes@.len() / 4,
        forall|k: int| 0 <= k < out@.len() ==> #[trigger] out@[k] == sample_bits(bytes@, k),
{
    let n: usize = bytes.len();
    let mut out: Vec<u32> = Vec::new();
    let mut i: usize = 0;
    while n - i >= 4
        invariant
            n == bytes@.len(),
            i <= n,
            i == 4 * out@.len(),
            forall|k: int| 0 <= k < out@.len() ==> #[trigger] out@[k] == sample_bits(bytes@, k),
        decreases n - i,
    {
        let word: u32 = bytes[i] as u32 + 256 * (bytes[i + 1] as u32) + 65536 * (bytes[i + 2] as u32)
            + 16777216 * (bytes[i + 3] as u32);
        out.push(word);
        i = i + 4;
    }
    out
}

/// First sample of bucket `b`: the samples are dealt out evenly, one each where
/// there are fewer samples than buckets.
pub open spec fn bucket_start(len: int, buckets: int, b: int) -> int {
    if len < buckets {
        b
    } else {
        (b * len) / buckets
    }
}

/// End of bucket `b`.
pub open spec fn bucket_end(len: int, buckets: int, b: int) -> int {
    if bucket_start(len, buckets, b + 1) < len {
        bucket_start(len, buckets, b + 1)
    } else {
        len
    }
}

/// `p` holds the smallest and the largest of the samples from `s` up to `e`, and
/// zeros where there is none.
pub open spec fn is_peak(mono: Seq<i32>, s: int, e: int, p: (i32, i32)) -> bool {
    if s >= e {
        p == (0i32, 0i32)
    } else {
        &&& forall|i: int| s <= i < e ==> p.0 <= #[trigger] mono[i] <= p.1
        &&& exists|i: int| s <= i < e && #[trigger] mono[i] == p.0
        &&& exists|i: int| s <= i < e && #[trigger] mono[i] == p.1
    }
}

/// Smallest and largest of the samples from `s` up to `e`.
fn peak(mono: &Vec<i32>, s: usize, e: usize) -> (p: (i32, i32))
    requires
        e <= mono@.len(),
    ensures
        is_peak(mono@, s as int, e as int, p),
{
    if s >= e {
        return (0, 0);
    }
    let mut lo: i32 = mono[s];
    let mut hi: i32 = mono[s];
    let mut i: usize = s + 1;
    assert(mono@[s as int] == lo);
    while i < e
        invariant
            s < i <= e <= mono@.len(),
            forall|k: int| s <= k < i ==> lo <= #[trigger] mono@[k] <= hi,
            exists|k: int| s <= k < i && #[trigger] mono@[k] == lo,
            exists|k: int| s <= k < i && #[trigger] mono@[k] == hi,
        decreases e - i,
    {
        let x: i32 = mono[i];
        if x < lo {
            lo = x;
            assert(mono@[i as int] == lo);
        }
        if x > hi {
            hi = x;
            assert(mono@[i as int] == hi);
        }
        i = i + 1;
    }
    (lo, hi)
}

proof fn lemma_bucket(len: int, buckets: int, b: int)
    requires
        0 < len,
        0 < buckets,
        0 <= b <= buckets,
    ensures
        0 <= bucket_start(len, buckets, b),
        len >= buckets ==> bucket_start(len, buckets, b) <= len,
{
    if len >= buckets {
        let top = b * len;
        assert(0 <= top <= buckets * len) by (nonlinear_arith)
            requires
                0 <= b <= buckets,
                0 < len,
                top == b * len,
        ;
        vstd::arithmetic::div_mod::lemma_fundamental_div_mod(top, buckets);
        vstd::arithmetic::div_mod::lemma_mod_bound(top, buckets);
        let q = top / buckets;
        assert(0 <= q <= len) by (nonlinear_arith)
            requires
                top == buckets * q + top % buckets,
                0 <= top % buckets < buckets,
                0 <= top <= buckets * len,
                buckets > 0,
        ;
    }
}

/// First sample of bucket `b`.
fn bucket_from(len: usize, buckets: usize, b: usize) -> (s: u128)
    requires
        0 < len,
        0 < buckets,
        b <= buckets,
    ensures
        s == bucket_start(len as int, buckets as int, b as int),
{
    if len < buckets {
        b as u128
    } else {
        proof {
            assert(0 <= b * len <= 0xffff_ffff_ffff_ffff * 0xffff_ffff_ffff_ffff) by (nonlinear_arith)
                requires
                    0 <= b <= 0xffff_ffff_ffff_ffff,
                    0 <= len <= 0xffff_ffff_ffff_ffff,
            ;
        }
        ((b as u128) * (len as u128)) / (buckets as u128)
    }
}

/// Smallest and largest sample per bucket, for drawing a waveform strip.
pub fn waveform_peaks(mono: &Vec<i32>, buckets: usize) -> (out: Vec<(i32, i32)>)
    ensures
        mono@.len() == 0 || buckets == 0 ==> out@.len() == 0,
        mono@.len() > 0 ==> out@.len() == buckets,
        forall|b: int|
            0 <= b < out@.len() ==> is_peak(
                mono@,
                bucket_start(mono@.len() as int, buckets as int, b),
                bucket_end(mono@.len() as int, buckets as int, b),
                #[trigger] out@[b],
            ),
{
    let mut out: Vec<(i32, i32)> = Vec::new();
    let n: usize = mono.len();
    if n == 0 || buckets == 0 {
        return out;
    }
    let mut b: usize = 0;
    while b < buckets
        invariant
            n == mono@.len(),
            0 < n,
            0 < buckets,
            b <= buckets,
            out@.len() == b,
            forall|k: int|
                0 <= k < b ==> is_peak(
                    mono@,
                    bucket_start(n as int, buckets as int, k),
                    bucket_end(n as int, buckets as int, k),
                    #[trigger] out@[k],
                ),
        decreases buckets - b,
    {
        proof {
            lemma_bucket(n as int, buckets as int, b as int);
            lemma_bucket(n as int, buckets as int, b + 1);
        }
        let s: u128 = bucket_from(n, buckets, b);
        let t: u128 = bucket_from(n, buckets, b + 1);
        let e: usize = if t < n as u128 {
            t as usize
        } else {
            n
        };
        let p: (i32, i32) = peak(mono, s as usize, e);
        out.push(p);
        b = b + 1;
    }
    out
}

/// Every sample is in one bucket: bucket `b + 1` starts where bucket `b` ends,
/// the first starts with the first sample and the last ends with the last one.
pub proof fn lemma_buckets_cover(len: int, buckets: int, b: int)
    requires
        0 < buckets <= len,
        0 <= b < buckets,
    ensures
        bucket_start(len, buckets, 0) == 0,
        bucket_end(len, buckets, b) == bucket_start(len, buckets, b + 1),
        bucket_start(len, buckets, b) < bucket_end(len, buckets, b),
        bucket_end(len, buckets, buckets - 1) == len,
{
    lemma_bucket(len, buckets, b + 1);
    assert(0 * len == 0) by (nonlinear_arith);
    vstd::arithmetic::div_mod::lemma_div_multiples_vanish(len, buckets);
    assert(buckets * len == len * buckets) by (nonlinear_arith);
    let x = b * len;
    let y = (b + 1) * len;
    assert(y == x + len) by (nonlinear_arith)
        requires
            x == b * len,
            y == (b + 1) * len,
    ;
    vstd::arithmetic::div_mod::lemma_fundamental_div_mod(x, buckets);
    vstd::arithmetic::div_mod::lemma_mod_bound(x, buckets);
    vstd::arithmetic::div_mod::lemma_fundamental_div_mod(y, buckets);
    vstd::arithmetic::div_mod::lemma_mod_bound(y, buckets);
    let p = x / buckets;
    let q = y / buckets;
    assert(p < q) by (nonlinear_arith)
        requires
            x == buckets * p + x % buckets,
            y == buckets * q + y % buckets,
            0 <= x % buckets < buckets,
            0 <= y % buckets < buckets,
            y == x + len,
            0 < buckets <= len,
    ;
}

} // verus!
