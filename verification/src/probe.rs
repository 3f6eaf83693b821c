//! Reads what the prober says about a media file.

use crate::model::{Clip, Rate};
use crate::text::{chars_of, join2, join3, number_text, parse_exact, parse_int, parse_micros, parse_scaled, part, same};
use vstd::prelude::*;

verus! {

// ---------------------------------------------------------------- JSON

/// Whether the bytes are one JSON document, as `serde_json::from_slice` decides.
pub uninterp spec fn json_valid(bytes: Seq<u8>) -> bool;

/// The text at a JSON pointer of the document, if there is one.
pub uninterp spec fn json_text(bytes: Seq<u8>, pointer: Seq<char>) -> Option<Seq<char>>;

/// The whole number of 64 bits without sign at a JSON pointer, if there is one.
pub uninterp spec fn json_whole(bytes: Seq<u8>, pointer: Seq<char>) -> Option<u64>;

/// The number at a JSON pointer as it is written in decimal, if there is one.
pub uninterp spec fn json_number(bytes: Seq<u8>, pointer: Seq<char>) -> Option<Seq<char>>;

/// The length of the list at a JSON pointer, if there is one.
pub uninterp spec fn json_length(bytes: Seq<u8>, pointer: Seq<char>) -> Option<usize>;

/// The characters of a text that may be missing.
pub open spec fn text_of(s: Option<String>) -> Option<Seq<char>> {
    match s {
        Some(t) => Some(t@),
        None => None,
    }
}

/// Calls `serde_json::from_slice`: whether it takes the bytes for a document.
#[verifier::external_body]
fn is_json(bytes: &Vec<u8>) -> (b: bool)
    ensures
        b == json_valid(bytes@),
{
    serde_json::from_slice::<serde_json::Value>(bytes).is_ok()
}

/// Calls `serde_json::Value::pointer` on the document that `serde_json::from_slice`
/// reads, and `as_str` on what is there: the text that the bytes hold at the
/// pointer. Without a document, without a value there or where it is no text there
/// is none.
#[verifier::external_body]
fn text_at(bytes: &Vec<u8>, pointer: &str) -> (s: Option<String>)
    ensures
        text_of(s) == json_text(bytes@, pointer@),
{
    let v: serde_json::Value = serde_json::from_slice(bytes).ok()?;
    v.pointer(pointer)?.as_str().map(|s| s.to_owned())
}

/// Calls `serde_json::Value::pointer` on the document that `serde_json::from_slice`
/// reads, and `as_u64` on what is there: the whole number without sign that the
/// bytes hold at the pointer, if there is one.
#[verifier::external_body]
fn whole_at(bytes: &Vec<u8>, pointer: &str) -> (n: Option<u64>)
    ensures
        n == json_whole(bytes@, pointer@),
{
    let v: serde_json::Value = serde_json::from_slice(bytes).ok()?;
    v.pointer(pointer)?.as_u64()
}

/// Calls `serde_json::Value::pointer` on the document that `serde_json::from_slice`
/// reads, and `as_number` on what is there: the number that the bytes hold at the
/// pointer, written in decimal by its `Display`, if there is one.
#[verifier::external_body]
fn number_at(bytes: &Vec<u8>, pointer: &str) -> (s: Option<String>)
    ensures
        text_of(s) == json_number(bytes@, pointer@),
{
    let v: serde_json::Value = serde_json::from_slice(bytes).ok()?;
    v.pointer(pointer)?.as_number().map(|n| n.to_string())
}

/// Calls `serde_json::Value::pointer` on the document that `serde_json::from_slice`
/// reads, and `as_array` on what is there: the length of the list that the bytes
/// hold at the pointer, if there is one.
#[verifier::external_body]
fn length_at(bytes: &Vec<u8>, pointer: &str) -> (n: Option<usize>)
    ensures
        n == json_length(bytes@, pointer@),
{
    let v: serde_json::Value = serde_json::from_slice(bytes).ok()?;
    v.pointer(pointer)?.as_array().map(|a| a.len())
}

// ---------------------------------------------------------------- fields

/// What the prober says about a file, as far as it is used.
#[derive(Debug)]
pub struct ProbeFacts {
    pub width: Option<u64>,
    pub height: Option<u64>,
    /// The rotation of each piece of side data, where it has one.
    pub rotations: Vec<Option<String>>,
    pub rotate_tag: Option<String>,
    pub avg_frame_rate: Option<String>,
    pub r_frame_rate: Option<String>,
    pub format_duration: Option<String>,
    pub video_duration: Option<String>,
    pub color_transfer: Option<String>,
    pub format_creation: Option<String>,
    pub video_creation: Option<String>,
    /// Set by recorders that stamp the end of a recording.
    pub android_version: Option<String>,
    pub has_audio: bool,
}

/// A number rounded to a whole one of 32 bits; a number that is out of range counts
/// as the nearest one that is not.
pub open spec fn rounded_degrees(s: Seq<char>) -> int {
    match crate::text::spelled_scaled(s, 0) {
        Some(n) => crate::units::clamped(n, i32::MIN as int, i32::MAX as int),
        None => extreme_degrees(s),
    }
}

/// The end of the range on the side of the number's sign.
pub open spec fn extreme_degrees(s: Seq<char>) -> int {
    if s.len() > 0 && s[0] == '-' {
        i32::MIN as int
    } else {
        i32::MAX as int
    }
}

/// The first of the rotations from `i` on.
pub open spec fn first_rotation(rotations: Seq<Option<String>>, i: int) -> Option<int>
    decreases rotations.len() - i,
{
    if i < 0 || i >= rotations.len() {
        None
    } else {
        match rotations[i] {
            Some(s) => Some(rounded_degrees(s@)),
            None => first_rotation(rotations, i + 1),
        }
    }
}

/// Rotation in degrees: from the side data, else from the tag, else none.
pub open spec fn rotation_of(facts: ProbeFacts) -> int {
    match first_rotation(facts.rotations@, 0) {
        Some(r) => r,
        None => match facts.rotate_tag {
            Some(s) => match crate::text::spelled_int(s@) {
                Some(n) => if i32::MIN <= n <= i32::MAX {
                    n
                } else {
                    0
                },
                None => 0,
            },
            None => 0,
        },
    }
}

/// The picture is shown on its side.
pub open spec fn is_sideways(rotation: int) -> bool {
    crate::units::size(rotation) % 180 == 90
}

/// A number of 64 bits cut to its low 32 bits; zero where it is missing.
pub open spec fn low_bits(n: Option<u64>) -> int {
    match n {
        Some(v) => v as int % 0x1_0000_0000,
        None => 0,
    }
}

/// The greatest common divisor.
pub open spec fn gcd(a: nat, b: nat) -> nat
    decreases b,
{
    if b == 0 {
        a
    } else {
        gcd(b, a % b)
    }
}

/// The text in front of the first slash and the text behind it.
pub open spec fn slash_halves(s: Seq<char>) -> Option<(Seq<char>, Seq<char>)> {
    let p = crate::calendar::find(s, '/', 0);
    if p < s.len() {
        Some((s.take(p), s.skip(p + 1)))
    } else {
        None
    }
}

/// No side of a fraction is larger before it is reduced.
pub const FRACTION_LIMIT: i128 = 10_000_000_000_000_000_000_000_000_000_000_000_000;

/// A number of tens to multiply by: none for a negative one.
pub open spec fn tens(k: int) -> nat {
    if k > 0 {
        k as nat
    } else {
        0
    }
}

/// The fraction of two decimal numbers in lowest terms, where neither is zero and the
/// machine holds it.
pub open spec fn fraction(x: (int, int), y: (int, int)) -> Option<Rate> {
    let n = x.0 * crate::text::pow10(tens(x.1 - y.1));
    let d = y.0 * crate::text::pow10(tens(y.1 - x.1));
    if x.0 == 0 || y.0 == 0 || crate::units::size(n) > FRACTION_LIMIT || crate::units::size(d) > FRACTION_LIMIT
        || !reducible(n, d) {
        None
    } else {
        Some(lowest_terms(n, d))
    }
}

/// A frame rate as it is written, `30000/1001`: two numbers, neither of them zero,
/// in lowest terms.
pub open spec fn spelled_rate(s: Seq<char>) -> Option<Rate> {
    match slash_halves(s) {
        Some((a, b)) => match (crate::text::exact_decimal(a), crate::text::exact_decimal(b)) {
            (Some(x), Some(y)) => fraction(x, y),
            _ => None,
        },
        None => None,
    }
}

/// Both sides of a fraction fit into 64 bits once it is in lowest terms.
pub open spec fn reducible(n: int, d: int) -> bool {
    let g = gcd(crate::units::size(n) as nat, crate::units::size(d) as nat) as int;
    &&& crate::units::size(n) / g <= i64::MAX
    &&& crate::units::size(d) / g <= i64::MAX
}

/// A fraction in lowest terms; the signs stay where they are.
pub open spec fn lowest_terms(n: int, d: int) -> Rate {
    let g = gcd(crate::units::size(n) as nat, crate::units::size(d) as nat) as int;
    Rate { num: divided(n, g) as i64, den: divided(d, g) as i64 }
}

/// `n / g`, towards zero.
pub open spec fn divided(n: int, g: int) -> int {
    if n < 0 {
        -((-n) / g)
    } else {
        n / g
    }
}

/// The rate of a text that may be missing.
pub open spec fn rate_of(s: Option<String>) -> Option<Rate> {
    match s {
        Some(t) => spelled_rate(t@),
        None => None,
    }
}

/// Frame rate: the average one, else the nominal one, else thirty.
pub open spec fn fps_of(facts: ProbeFacts) -> Rate {
    match rate_of(facts.avg_frame_rate) {
        Some(r) => r,
        None => match rate_of(facts.r_frame_rate) {
            Some(r) => r,
            None => Rate { num: 30, den: 1 },
        },
    }
}

/// The time of a text that may be missing.
pub open spec fn time_of(s: Option<String>) -> Option<int> {
    match s {
        Some(t) => crate::calendar::seconds_in(t@),
        None => None,
    }
}

/// Duration: of the file, else of the picture, else nothing.
pub open spec fn duration_of(facts: ProbeFacts) -> int {
    match time_of(facts.format_duration) {
        Some(t) => t,
        None => match time_of(facts.video_duration) {
            Some(t) => t,
            None => 0,
        },
    }
}

/// The picture has a high dynamic range.
pub open spec fn is_hdr(facts: ProbeFacts) -> bool {
    facts.color_transfer matches Some(t) && (t@ == "arib-std-b67"@ || t@ == "smpte2084"@)
}

/// `clip` is the clip that the facts describe.
pub open spec fn describes(path: Seq<char>, facts: ProbeFacts, clip: Clip) -> bool {
    let sideways = is_sideways(rotation_of(facts));
    &&& clip.path@ == path
    &&& clip.duration == duration_of(facts)
    &&& clip.width == if sideways {
        low_bits(facts.height)
    } else {
        low_bits(facts.width)
    }
    &&& clip.height == if sideways {
        low_bits(facts.width)
    } else {
        low_bits(facts.height)
    }
    &&& clip.fps == fps_of(facts)
    &&& clip.rotation == rotation_of(facts)
    &&& clip.hdr == is_hdr(facts)
    &&& clip.has_audio == facts.has_audio
    &&& text_of(clip.creation_time) == (if facts.format_creation is Some {
        text_of(facts.format_creation)
    } else {
        text_of(facts.video_creation)
    })
    &&& clip.end_stamped == (facts.android_version is Some)
    &&& clip.offset == 0
    &&& clip.sync_confidence is None
}

/// A number rounded to a whole one of 32 bits.
fn degrees(s: &str) -> (r: i32)
    ensures
        r == rounded_degrees(s@),
{
    let v: Vec<char> = chars_of(s);
    proof {
        crate::text::lemma_scaled_sign(v@);
    }
    match parse_scaled(&v, 0) {
        Some(n) => if n < i32::MIN as i64 {
            i32::MIN
        } else if n > i32::MAX as i64 {
            i32::MAX
        } else {
            n as i32
        },
        None => if v.len() > 0 && v[0] == '-' {
            i32::MIN
        } else {
            i32::MAX
        },
    }
}

/// Rotation in degrees.
pub fn parse_rotation(facts: &ProbeFacts) -> (r: i32)
    ensures
        r == rotation_of(*facts),
{
    let mut i: usize = 0;
    while i < facts.rotations.len()
        invariant
            i <= facts.rotations@.len(),
            first_rotation(facts.rotations@, 0) == first_rotation(facts.rotations@, i as int),
        decreases facts.rotations@.len() - i,
    {
        if let Some(s) = &facts.rotations[i] {
            return degrees(s.as_str());
        }
        i = i + 1;
    }
    match &facts.rotate_tag {
        Some(s) => {
            let v: Vec<char> = chars_of(s.as_str());
            match parse_int(&v) {
                Some(n) => if i32::MIN as i64 <= n && n <= i32::MAX as i64 {
                    n as i32
                } else {
                    0
                },
                None => 0,
            }
        },
        None => 0,
    }
}

pub(crate) proof fn lemma_gcd(a: nat, b: nat)
    requires
        a > 0 || b > 0,
    ensures
        gcd(a, b) > 0,
        a % gcd(a, b) == 0,
        b % gcd(a, b) == 0,
    decreases b,
{
    if b > 0 {
        lemma_gcd(b, a % b);
        let g = gcd(a, b);
        vstd::arithmetic::div_mod::lemma_fundamental_div_mod(a as int, b as int);
        vstd::arithmetic::div_mod::lemma_fundamental_div_mod(b as int, g as int);
        vstd::arithmetic::div_mod::lemma_fundamental_div_mod((a % b) as int, g as int);
        let q = a as int / b as int;
        let x = b as int / g as int;
        let y = (a % b) as int / g as int;
        assert(a == g * (x * q + y)) by (nonlinear_arith)
            requires
                a == b * q + a % b,
                b == g * x,
                a % b == g * y,
        ;
        assert(g * (x * q + y) == (x * q + y) * g) by (nonlinear_arith);
        vstd::arithmetic::div_mod::lemma_fundamental_div_mod_converse(
            a as int,
            g as int,
            x * q + y,
            0,
        );
    } else {
        assert(a % a == 0 && 0nat % a == 0) by {
            vstd::arithmetic::div_mod::lemma_mod_self_0(a as int);
        }
    }
}

/// The greatest common divisor.
fn common_divisor(a: u128, b: u128) -> (g: u128)
    ensures
        g == gcd(a as nat, b as nat),
    decreases b,
{
    if b == 0 {
        a
    } else {
        common_divisor(b, a % b)
    }
}

/// The fraction is not changed by bringing it to lowest terms.
pub proof fn lemma_lowest_terms(n: int, d: int)
    requires
        n > 0,
        d > 0,
        reducible(n, d),
    ensures
        lowest_terms(n, d).num * d == lowest_terms(n, d).den * n,
        0 < lowest_terms(n, d).num <= n,
        0 < lowest_terms(n, d).den <= d,
{
    let g = gcd(n as nat, d as nat) as int;
    lemma_gcd(n as nat, d as nat);
    vstd::arithmetic::div_mod::lemma_fundamental_div_mod(n, g);
    vstd::arithmetic::div_mod::lemma_fundamental_div_mod(d, g);
    let p = n / g;
    let q = d / g;
    assert(p * d == q * n && 0 < p <= n && 0 < q <= d) by (nonlinear_arith)
        requires
            n == g * p,
            d == g * q,
            g > 0,
            n > 0,
            d > 0,
    ;
}

/// `m` times ten to the power of `k`, where that is in range.
fn times_tens(m: i128, k: i128) -> (r: Option<i128>)
    requires
        m != 0,
        -crate::text::EXACT_LIMIT <= m <= crate::text::EXACT_LIMIT,
    ensures
        r is Some <==> crate::units::size(m * crate::text::pow10(tens(k as int))) <= FRACTION_LIMIT,
        r matches Some(n) ==> n == m * crate::text::pow10(tens(k as int)),
{
    proof {
        crate::text::lemma_pow10_values();
    }
    if k <= 0 {
        assert(m * 1 == m);
        return Some(m);
    }
    let size: i128 = if m < 0 {
        -m
    } else {
        m
    };
    let ghost p = crate::text::pow10(k as nat);
    proof {
        crate::text::lemma_pow10_positive(k as nat);
        assert(size * p >= 0 && (m < 0 ==> size * p == -(m * p))) by (nonlinear_arith)
            requires
                size >= 0,
                p >= 1,
                m < 0 ==> size == -m,
        ;
        assert(crate::units::size(m * p) == size * p);
    }
    if k > 37 {
        proof {
            crate::text::lemma_pow10_grows(38, k as nat);
            assert(crate::text::pow10(38) == 10 * crate::text::pow10(37));
            assert(size * p >= p) by (nonlinear_arith)
                requires
                    size >= 1,
                    p >= 1,
            ;
        }
        return None;
    }
    let q: i128 = crate::text::power10(k as u32);
    let most: i128 = FRACTION_LIMIT / q;
    proof {
        vstd::arithmetic::div_mod::lemma_fundamental_div_mod(FRACTION_LIMIT as int, q as int);
        vstd::arithmetic::div_mod::lemma_mod_bound(FRACTION_LIMIT as int, q as int);
        assert(size <= most <==> size * q <= FRACTION_LIMIT) by (nonlinear_arith)
            requires
                FRACTION_LIMIT == q * most + (FRACTION_LIMIT as int) % (q as int),
                0 <= (FRACTION_LIMIT as int) % (q as int) < q,
                q >= 1,
        ;
    }
    if size > most {
        return None;
    }
    Some(m * q)
}

/// One side of a fraction, divided by what both have in common.
fn divide(n: i128, g: u128) -> (r: i64)
    requires
        g >= 1,
        -FRACTION_LIMIT <= n <= FRACTION_LIMIT,
        crate::units::size(n as int) / g as int <= i64::MAX,
    ensures
        r == divided(n as int, g as int),
{
    let m: u128 = if n < 0 {
        (-n) as u128
    } else {
        n as u128
    };
    proof {
        vstd::arithmetic::div_mod::lemma_div_pos_is_pos(m as int, g as int);
    }
    let q: u128 = m / g;
    if n < 0 {
        -(q as i64)
    } else {
        q as i64
    }
}

/// Reads a frame rate such as `30000/1001`.
pub fn parse_rate(s: &str) -> (r: Option<Rate>)
    ensures
        r == spelled_rate(s@),
{
    let v: Vec<char> = chars_of(s);
    let mut p: usize = 0;
    while p < v.len() && v[p] != '/'
        invariant
            p <= v@.len(),
            crate::calendar::find(v@, '/', 0) == crate::calendar::find(v@, '/', p as int),
        decreases v@.len() - p,
    {
        p = p + 1;
    }
    if p == v.len() {
        return None;
    }
    let a: Vec<char> = part(&v, 0, p);
    let b: Vec<char> = part(&v, p + 1, v.len());
    assert(a@ =~= v@.take(p as int));
    assert(b@ =~= v@.skip(p + 1));
    let (Some(x), Some(y)) = (parse_exact(&a), parse_exact(&b)) else {
        return None;
    };
    if x.0 == 0 || y.0 == 0 {
        return None;
    }
    let (Some(n), Some(d)) = (times_tens(x.0, x.1 - y.1), times_tens(y.0, y.1 - x.1)) else {
        return None;
    };
    proof {
        crate::text::lemma_pow10_positive(tens(x.1 - y.1));
        crate::text::lemma_pow10_positive(tens(y.1 - x.1));
        let f = crate::text::pow10(tens(x.1 - y.1));
        let h = crate::text::pow10(tens(y.1 - x.1));
        assert(n != 0) by (nonlinear_arith)
            requires
                n == x.0 * f,
                x.0 != 0,
                f >= 1,
        ;
        assert(d != 0) by (nonlinear_arith)
            requires
                d == y.0 * h,
                y.0 != 0,
                h >= 1,
        ;
    }
    let nu: u128 = if n < 0 {
        (-n) as u128
    } else {
        n as u128
    };
    let du: u128 = if d < 0 {
        (-d) as u128
    } else {
        d as u128
    };
    let g: u128 = common_divisor(nu, du);
    proof {
        lemma_gcd(nu as nat, du as nat);
    }
    if nu / g > i64::MAX as u128 || du / g > i64::MAX as u128 {
        return None;
    }
    Some(Rate { num: divide(n, g), den: divide(d, g) })
}

/// The rate of a text that may be missing.
fn optional_rate(s: &Option<String>) -> (r: Option<Rate>)
    ensures
        r == rate_of(*s),
{
    match s {
        Some(t) => parse_rate(t.as_str()),
        None => None,
    }
}

/// The time of a text that may be missing.
fn optional_time(s: &Option<String>) -> (t: Option<i64>)
    ensures
        match t {
            Some(x) => time_of(*s) == Some(x as int),
            None => time_of(*s) is None,
        },
{
    match s {
        Some(t) => {
            let v: Vec<char> = chars_of(t.as_str());
            parse_micros(&v)
        },
        None => None,
    }
}

/// A number of 64 bits cut to its low 32 bits.
fn cut(n: Option<u64>) -> (r: u32)
    ensures
        r == low_bits(n),
{
    match n {
        Some(v) => (v % 0x1_0000_0000) as u32,
        None => 0,
    }
}

/// A copy of a text that may be missing.
fn copy_text(s: &Option<String>) -> (r: Option<String>)
    ensures
        text_of(r) == text_of(*s),
{
    match s {
        Some(t) => Some(t.clone()),
        None => None,
    }
}

/// The clip that the facts describe.
pub fn clip_from(path: &str, facts: &ProbeFacts) -> (clip: Clip)
    ensures
        describes(path@, *facts, clip),
{
    let rotation: i32 = parse_rotation(facts);
    let w: u32 = cut(facts.width);
    let h: u32 = cut(facts.height);
    let turned: i64 = if rotation < 0 {
        -(rotation as i64)
    } else {
        rotation as i64
    };
    let (width, height): (u32, u32) = if turned % 180 == 90 {
        (h, w)
    } else {
        (w, h)
    };
    let fps: Rate = match optional_rate(&facts.avg_frame_rate) {
        Some(r) => r,
        None => match optional_rate(&facts.r_frame_rate) {
            Some(r) => r,
            None => Rate { num: 30, den: 1 },
        },
    };
    let duration: i64 = match optional_time(&facts.format_duration) {
        Some(t) => t,
        None => match optional_time(&facts.video_duration) {
            Some(t) => t,
            None => 0,
        },
    };
    let hdr: bool = match &facts.color_transfer {
        Some(t) => same(t.as_str(), "arib-std-b67") || same(t.as_str(), "smpte2084"),
        None => false,
    };
    let creation_time: Option<String> = if facts.format_creation.is_some() {
        copy_text(&facts.format_creation)
    } else {
        copy_text(&facts.video_creation)
    };
    Clip {
        path: path.to_owned(),
        duration,
        width,
        height,
        fps,
        rotation,
        hdr,
        has_audio: facts.has_audio,
        creation_time,
        end_stamped: facts.android_version.is_some(),
        offset: 0,
        sync_confidence: None,
    }
}

// ---------------------------------------------------------------- documents

/// Why a file is no clip.
#[derive(Debug, Clone, Copy, PartialEq, Eq, Structural)]
pub enum ProbeError {
    /// The prober's answer is no document.
    BadJson,
    NoVideo,
}

impl ProbeError {
    /// The message for the user.
    pub open spec fn text(self, path: Seq<char>) -> Seq<char> {
        match self {
            ProbeError::BadJson => "parsing ffprobe json"@,
            ProbeError::NoVideo => "no video stream in "@ + path,
        }
    }

    /// The message for the user.
    pub fn message(self, path: &str) -> (s: String)
        ensures
            s@ == self.text(path@),
    {
        match self {
            ProbeError::BadJson => "parsing ffprobe json".to_owned(),
            ProbeError::NoVideo => join2("no video stream in ", path),
        }
    }
}

/// Pointer to a field of stream `k`.
pub open spec fn stream_field(k: int, field: Seq<char>) -> Seq<char> {
    "/streams/"@ + crate::text::decimal(k as nat) + field
}

/// Pointer to the rotation of piece `j` of the side data of stream `k`.
pub open spec fn rotation_field(k: int, j: int) -> Seq<char> {
    stream_field(k, "/side_data_list/"@) + crate::text::decimal(j as nat) + "/rotation"@
}

/// The length of a list that may be missing.
pub open spec fn list_length(n: Option<usize>) -> int {
    match n {
        Some(l) => l as int,
        None => 0,
    }
}

/// Number of streams in the document.
pub open spec fn stream_count(bytes: Seq<u8>) -> int {
    list_length(json_length(bytes, "/streams"@))
}

/// Stream `k` is of a kind.
pub open spec fn stream_is(bytes: Seq<u8>, k: int, kind: Seq<char>) -> bool {
    json_text(bytes, stream_field(k, "/codec_type"@)) == Some(kind)
}

/// Stream `k` is the first picture.
pub open spec fn first_video(bytes: Seq<u8>, k: int) -> bool {
    &&& 0 <= k < stream_count(bytes)
    &&& stream_is(bytes, k, "video"@)
    &&& forall|j: int| 0 <= j < k ==> !#[trigger] stream_is(bytes, j, "video"@)
}

/// The facts are those that the document states of its file, with stream `k` as the
/// picture.
pub open spec fn states(bytes: Seq<u8>, k: int, facts: ProbeFacts) -> bool {
    &&& facts.width == json_whole(bytes, stream_field(k, "/width"@))
    &&& facts.height == json_whole(bytes, stream_field(k, "/height"@))
    &&& facts.rotations@.len() == list_length(json_length(bytes, stream_field(k, "/side_data_list"@)))
    &&& forall|j: int|
        0 <= j < facts.rotations@.len() ==> text_of(#[trigger] facts.rotations@[j]) == json_number(
            bytes,
            rotation_field(k, j),
        )
    &&& text_of(facts.rotate_tag) == json_text(bytes, stream_field(k, "/tags/rotate"@))
    &&& text_of(facts.avg_frame_rate) == json_text(bytes, stream_field(k, "/avg_frame_rate"@))
    &&& text_of(facts.r_frame_rate) == json_text(bytes, stream_field(k, "/r_frame_rate"@))
    &&& text_of(facts.format_duration) == json_text(bytes, "/format/duration"@)
    &&& text_of(facts.video_duration) == json_text(bytes, stream_field(k, "/duration"@))
    &&& text_of(facts.color_transfer) == json_text(bytes, stream_field(k, "/color_transfer"@))
    &&& text_of(facts.format_creation) == json_text(bytes, "/format/tags/creation_time"@)
    &&& text_of(facts.video_creation) == json_text(bytes, stream_field(k, "/tags/creation_time"@))
    &&& text_of(facts.android_version) == json_text(bytes, "/format/tags/com.android.version"@)
    &&& facts.has_audio == exists|j: int|
        0 <= j < stream_count(bytes) && #[trigger] stream_is(bytes, j, "audio"@)
}

/// The document states facts that describe the clip.
pub open spec fn probed(bytes: Seq<u8>, path: Seq<char>, clip: Clip) -> bool {
    exists|k: int, facts: ProbeFacts| #[trigger]
        first_video(bytes, k) && #[trigger] states(bytes, k, facts) && describes(path, facts, clip)
}

/// Pointer to a field of stream `k`.
fn stream_pointer(k: usize, field: &str) -> (s: String)
    ensures
        s@ == stream_field(k as int, field@),
{
    let n: String = number_text(k as u64);
    join3("/streams/", n.as_str(), field)
}

/// The text of a field of stream `k`.
fn stream_text(bytes: &Vec<u8>, k: usize, field: &str) -> (s: Option<String>)
    ensures
        text_of(s) == json_text(bytes@, stream_field(k as int, field@)),
{
    let p: String = stream_pointer(k, field);
    text_at(bytes, p.as_str())
}

/// Whether stream `k` is of a kind.
fn stream_kind_is(bytes: &Vec<u8>, k: usize, kind: &str) -> (b: bool)
    ensures
        b == stream_is(bytes@, k as int, kind@),
{
    match stream_text(bytes, k, "/codec_type") {
        Some(t) => same(t.as_str(), kind),
        None => false,
    }
}

/// The length of the list at a pointer, zero without one.
fn length_or_zero(bytes: &Vec<u8>, pointer: &str) -> (n: usize)
    ensures
        n == list_length(json_length(bytes@, pointer@)),
{
    match length_at(bytes, pointer) {
        Some(n) => n,
        None => 0,
    }
}

/// The facts that the document states of its file.
fn read_facts(bytes: &Vec<u8>, k: usize, count: usize) -> (facts: ProbeFacts)
    requires
        count == stream_count(bytes@),
    ensures
        states(bytes@, k as int, facts),
{
    let side: String = stream_pointer(k, "/side_data_list");
    let pieces: usize = length_or_zero(bytes, side.as_str());
    let list: String = stream_pointer(k, "/side_data_list/");
    let mut rotations: Vec<Option<String>> = Vec::new();
    let mut j: usize = 0;
    while j < pieces
        invariant
            j <= pieces,
            list@ == stream_field(k as int, "/side_data_list/"@),
            rotations@.len() == j,
            forall|m: int|
                0 <= m < j ==> text_of(#[trigger] rotations@[m]) == json_number(
                    bytes@,
                    rotation_field(k as int, m),
                ),
        decreases pieces - j,
    {
        let n: String = number_text(j as u64);
        let p: String = join3(list.as_str(), n.as_str(), "/rotation");
        rotations.push(number_at(bytes, p.as_str()));
        j = j + 1;
    }
    let mut has_audio: bool = false;
    let mut i: usize = 0;
    while i < count && !has_audio
        invariant
            count == stream_count(bytes@),
            i <= count,
            has_audio ==> exists|m: int|
                0 <= m < stream_count(bytes@) && #[trigger] stream_is(bytes@, m, "audio"@),
            !has_audio ==> forall|m: int| 0 <= m < i ==> !#[trigger] stream_is(bytes@, m, "audio"@),
        decreases count - i + if has_audio { 0int } else { 1int },
    {
        has_audio = stream_kind_is(bytes, i, "audio");
        i = i + 1;
    }
    let wp: String = stream_pointer(k, "/width");
    let hp: String = stream_pointer(k, "/height");
    ProbeFacts {
        width: whole_at(bytes, wp.as_str()),
        height: whole_at(bytes, hp.as_str()),
        rotations,
        rotate_tag: stream_text(bytes, k, "/tags/rotate"),
        avg_frame_rate: stream_text(bytes, k, "/avg_frame_rate"),
        r_frame_rate: stream_text(bytes, k, "/r_frame_rate"),
        format_duration: text_at(bytes, "/format/duration"),
        video_duration: stream_text(bytes, k, "/duration"),
        color_transfer: stream_text(bytes, k, "/color_transfer"),
        format_creation: text_at(bytes, "/format/tags/creation_time"),
        video_creation: stream_text(bytes, k, "/tags/creation_time"),
        android_version: text_at(bytes, "/format/tags/com.android.version"),
        has_audio,
    }
}

/// Reads the prober's answer about the file at `path`.
pub fn parse_probe(path: &str, bytes: &Vec<u8>) -> (r: Result<Clip, ProbeError>)
    ensures
        match r {
            Ok(clip) => json_valid(bytes@) && probed(bytes@, path@, clip),
            Err(ProbeError::BadJson) => !json_valid(bytes@),
            Err(ProbeError::NoVideo) => json_valid(bytes@) && forall|k: int|
                0 <= k < stream_count(bytes@) ==> !#[trigger] stream_is(bytes@, k, "video"@),
        },
{
    if !is_json(bytes) {
        return Err(ProbeError::BadJson);
    }
    let count: usize = length_or_zero(bytes, "/streams");
    let mut k: usize = 0;
    while k < count && !stream_kind_is(bytes, k, "video")
        invariant
            count == stream_count(bytes@),
            k <= count,
            forall|j: int| 0 <= j < k ==> !#[trigger] stream_is(bytes@, j, "video"@),
        decreases count - k,
    {
        k = k + 1;
    }
    if k == count {
        return Err(ProbeError::NoVideo);
    }
    let facts: ProbeFacts = read_facts(bytes, k, count);
    let clip: Clip = clip_from(path, &facts);
    proof {
        assert(first_video(bytes@, k as int));
        assert(states(bytes@, k as int, facts));
        assert(describes(path@, facts, clip));
    }
    Ok(clip)
}

/// Arguments of the prober for one file.
pub open spec fn probe_words(path: Seq<char>) -> Seq<Seq<char>> {
    seq!["-v"@, "error"@, "-print_format"@, "json"@, "-show_format"@, "-show_streams"@, path]
}

/// Arguments of the prober for one file.
pub fn probe_args(path: &str) -> (v: Vec<String>)
    ensures
        crate::text::text_views(v@) == probe_words(path@),
{
    let mut v: Vec<String> = Vec::new();
    crate::text::push_word(&mut v, "-v");
    crate::text::push_word(&mut v, "error");
    crate::text::push_word(&mut v, "-print_format");
    crate::text::push_word(&mut v, "json");
    crate::text::push_word(&mut v, "-show_format");
    crate::text::push_word(&mut v, "-show_streams");
    crate::text::push_word(&mut v, path);
    assert(crate::text::text_views(v@) =~= probe_words(path@));
    v
}

} // verus!
