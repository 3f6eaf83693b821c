//! What the prober says of a file, read.

use crate::model::{Clip, Rate};
use crate::probe::{
    describes, duration_of, first_rotation, fps_of, fraction, gcd, is_sideways, lemma_gcd,
    lemma_lowest_terms, lowest_terms, reducible, rotation_of, rounded_degrees, slash_halves, spelled_rate,
    tens, ProbeFacts,
};
use crate::text::{
    decimal, digits_end, exact_decimal, fixed6, is_digit, lemma_decimal_not_empty, lemma_digits_run,
    lemma_pow10_positive, lemma_pow10_sum, lemma_read_back, mantissa_digits, mantissa_end, pow10, sign_end,
    signed, spelled_decimal, spelled_exponent, spelled_scaled, trimmed,
};
use crate::units::size;
use vstd::prelude::*;

verus! {

/// A whole number that is written is read as that number, without places.
pub proof fn lemma_whole_numbers_are_read(n: int)
    ensures
        spelled_decimal(signed(n)) == Some((n, 0int)),
        spelled_exponent(signed(n)) == Some(0int),
        spelled_scaled(signed(n), 0) == Some(n),
{
    let m = size(n) as nat;
    let s = signed(n);
    lemma_read_back(m);
    lemma_decimal_not_empty(m);
    let start: int = if n < 0 {
        1
    } else {
        0
    };
    let end = s.len() as int;
    assert forall|k: int| start <= k < end implies is_digit(#[trigger] s[k]) by {
        assert(s[k] == decimal(m)[k - start]);
    }
    assert(n < 0 ==> s[0] == '-');
    assert(n >= 0 ==> is_digit(s[0]));
    assert(sign_end(s, 0) == start);
    lemma_digits_run(s, start, end);
    assert(digits_end(s, start) == end);
    assert(mantissa_end(s) == end);
    assert(s.subrange(start, end) =~= decimal(m));
    assert(mantissa_digits(s) =~= decimal(m));
    assert(pow10(0) == 1);
    assert(n * 1 == n);
}

/// A picture is on its side after a quarter turn, either way and however often it was
/// turned round before, and upright after half turns.
pub proof fn lemma_quarter_turns_lay_it_on_its_side(k: int)
    ensures
        is_sideways(90 + 180 * k),
        !is_sideways(180 * k),
{
    if 90 + 180 * k >= 0 {
        assert((90 + 180 * k) % 180 == 90);
    } else {
        assert((-(90 + 180 * k)) % 180 == 90);
    }
    if 180 * k >= 0 {
        assert((180 * k) % 180 == 0);
    } else {
        assert((-(180 * k)) % 180 == 0);
    }
}

/// Turning a recording by a quarter swaps its two edges and nothing else of its size: of
/// two files whose pictures are stored alike, the turned one is as wide as the other is
/// high.
pub proof fn lemma_quarter_turn_swaps_edges(
    path: Seq<char>,
    a: ProbeFacts,
    b: ProbeFacts,
    upright: Clip,
    turned: Clip,
)
    requires
        a.width == b.width,
        a.height == b.height,
        !is_sideways(rotation_of(a)),
        is_sideways(rotation_of(b)),
        describes(path, a, upright),
        describes(path, b, turned),
    ensures
        turned.width == upright.height,
        turned.height == upright.width,
        a.width matches Some(w) && w <= u32::MAX ==> upright.width == a.width->0,
        a.height matches Some(h) && h <= u32::MAX ==> upright.height == a.height->0,
{
}

/// A rotation is taken from the side data, from the first piece that has one; only where
/// none has, from the tag.
pub proof fn lemma_side_data_tells_the_rotation(facts: ProbeFacts, k: int, n: int)
    requires
        0 <= k < facts.rotations@.len(),
        forall|i: int| 0 <= i < k ==> (#[trigger] facts.rotations@[i]) is None,
        i32::MIN <= n <= i32::MAX,
        facts.rotations@[k] matches Some(s) && s@ == signed(n),
    ensures
        rotation_of(facts) == n,
{
    lemma_first_of(facts, 0, k);
    lemma_whole_numbers_are_read(n);
}

proof fn lemma_first_of(facts: ProbeFacts, i: int, k: int)
    requires
        0 <= i <= k < facts.rotations@.len(),
        forall|j: int| 0 <= j < k ==> (#[trigger] facts.rotations@[j]) is None,
        facts.rotations@[k] is Some,
    ensures
        first_rotation(facts.rotations@, i) == Some(rounded_degrees(facts.rotations@[k]->0@)),
    decreases k - i,
{
    if i < k {
        assert(facts.rotations@[i] is None);
        lemma_first_of(facts, i + 1, k);
    }
}

/// Without side data the tag tells the rotation, and without either there is none.
pub proof fn lemma_tag_tells_the_rotation(facts: ProbeFacts, n: int)
    requires
        facts.rotations@.len() == 0,
        i32::MIN <= n <= i32::MAX,
    ensures
        facts.rotate_tag matches Some(s) && s@ == signed(n) ==> rotation_of(facts) == n,
        facts.rotate_tag is None ==> rotation_of(facts) == 0,
{
    crate::text::lemma_signed_reads_back(n);
}

/// The file's length is taken where it is stated, to the microsecond; else the picture's.
pub proof fn lemma_length_is_read(facts: ProbeFacts, n: int)
    requires
        -crate::arrange::TIME_LIMIT < n < crate::arrange::TIME_LIMIT,
    ensures
        facts.format_duration matches Some(s) && s@ == fixed6(n) ==> duration_of(facts) == n,
        facts.format_duration is None && (facts.video_duration matches Some(s) && s@ == fixed6(n)) ==> duration_of(
            facts,
        ) == n,
        facts.format_duration is None && facts.video_duration is None ==> duration_of(facts) == 0,
{
    crate::text::lemma_fixed6_reads_back(n);
}

proof fn lemma_trimmed_keeps_value(m: int, e: int)
    requires
        m > 0,
    ensures
        trimmed(m, e).0 > 0,
        trimmed(m, e).0 <= m,
        trimmed(m, e).1 >= e,
        trimmed(m, e).0 * pow10((trimmed(m, e).1 - e) as nat) == m,
    decreases m,
{
    if m % 10 == 0 {
        lemma_trimmed_keeps_value(m / 10, e + 1);
        let t = trimmed(m, e);
        let k = (t.1 - e - 1) as nat;
        assert(pow10((t.1 - e) as nat) == 10 * pow10(k));
        let p = pow10(k);
        assert(t.0 * (10 * p) == 10 * (t.0 * p)) by (nonlinear_arith);
    } else {
        assert(pow10(0) == 1);
        assert(m * 1 == m);
    }
}

/// A frame rate that is written as a fraction is read as the same fraction: `30000/1001`
/// are thirty thousand frames in a thousand and one seconds.
pub proof fn lemma_written_rates_are_read(n: nat, d: nat)
    requires
        0 < n <= 1_000_000_000_000,
        0 < d <= 1_000_000_000_000,
    ensures
        spelled_rate(decimal(n) + seq!['/'] + decimal(d)) matches Some(r) && r.num * d == r.den * n && 0 < r.num <= n
            && 0 < r.den <= d,
{
    let a = decimal(n);
    let b = decimal(d);
    let s = a + seq!['/'] + b;
    lemma_read_back(n);
    lemma_read_back(d);
    assert(signed(n as int) =~= a);
    assert(signed(d as int) =~= b);
    lemma_whole_numbers_are_read(n as int);
    lemma_whole_numbers_are_read(d as int);
    lemma_slash_place(s, a.len() as int, 0);
    assert(s.take(a.len() as int) =~= a);
    assert(s.skip(a.len() as int + 1) =~= b);
    lemma_trimmed_keeps_value(n as int, 0);
    lemma_trimmed_keeps_value(d as int, 0);
    let x = trimmed(n as int, 0);
    let y = trimmed(d as int, 0);
    assert(exact_decimal(a) == Some(x));
    assert(exact_decimal(b) == Some(y));
    let p = x.0 * pow10(tens(x.1 - y.1));
    let q = y.0 * pow10(tens(y.1 - x.1));
    let least: int = if x.1 < y.1 {
        x.1
    } else {
        y.1
    };
    let t = pow10(least as nat);
    lemma_pow10_positive(least as nat);
    lemma_pow10_sum(tens(x.1 - y.1), least as nat);
    lemma_pow10_sum(tens(y.1 - x.1), least as nat);
    assert(tens(x.1 - y.1) + least == x.1);
    assert(tens(y.1 - x.1) + least == y.1);
    let u = pow10(tens(x.1 - y.1));
    let v = pow10(tens(y.1 - x.1));
    lemma_pow10_positive(tens(x.1 - y.1));
    lemma_pow10_positive(tens(y.1 - x.1));
    assert(p * t == n && q * t == d) by (nonlinear_arith)
        requires
            p == x.0 * u,
            q == y.0 * v,
            x.0 * (u * t) == n,
            y.0 * (v * t) == d,
    ;
    assert(0 < p <= n && 0 < q <= d) by (nonlinear_arith)
        requires
            p * t == n,
            q * t == d,
            t >= 1,
            n > 0,
            d > 0,
    ;
    let g = gcd(p as nat, q as nat) as int;
    lemma_gcd(p as nat, q as nat);
    assert(p / g <= p && q / g <= q) by {
        vstd::arithmetic::div_mod::lemma_div_is_ordered_by_denominator(p, 1, g);
        vstd::arithmetic::div_mod::lemma_div_is_ordered_by_denominator(q, 1, g);
    }
    assert(reducible(p, q));
    lemma_lowest_terms(p, q);
    let r = lowest_terms(p, q);
    assert(fraction(x, y) == Some(r));
    assert(r.num * d == r.den * n) by (nonlinear_arith)
        requires
            r.num * q == r.den * p,
            p * t == n,
            q * t == d,
    ;
}

proof fn lemma_slash_place(s: Seq<char>, p: int, i: int)
    requires
        0 <= i <= p < s.len(),
        s[p] == '/',
        forall|k: int| i <= k < p ==> is_digit(#[trigger] s[k]),
    ensures
        crate::calendar::find(s, '/', i) == p,
        i == 0 ==> slash_halves(s) == Some((s.take(p), s.skip(p + 1))),
    decreases p - i,
{
    if i < p {
        assert(is_digit(s[i]));
        lemma_slash_place(s, p, i + 1);
    }
}

/// The average rate is taken before the nominal one, and without either thirty frames a
/// second.
pub proof fn lemma_average_rate_comes_first(facts: ProbeFacts, n: nat, d: nat)
    requires
        0 < n <= 1_000_000_000_000,
        0 < d <= 1_000_000_000_000,
    ensures
        facts.avg_frame_rate matches Some(s) && s@ == decimal(n) + seq!['/'] + decimal(d) ==> fps_of(facts).num * d
            == fps_of(facts).den * n,
        facts.avg_frame_rate is None && (facts.r_frame_rate matches Some(s) && s@ == decimal(n) + seq!['/'] + decimal(
            d,
        )) ==> fps_of(facts).num * d == fps_of(facts).den * n,
        facts.avg_frame_rate is None && facts.r_frame_rate is None ==> fps_of(facts) == (Rate { num: 30, den: 1 }),
{
    lemma_written_rates_are_read(n, d);
}

/// The prober is asked for everything it knows of the file and its streams, as a document,
/// and for nothing of another file.
pub proof fn lemma_prober_is_asked_for_a_document(path: Seq<char>)
    ensures
        ({
            let words = crate::probe::probe_words(path);
            &&& words[words.len() - 1] == path
            &&& crate::export::says(words, 2, "-print_format"@, "json"@)
            &&& words.contains("-show_format"@)
            &&& words.contains("-show_streams"@)
        }),
{
    let words = crate::probe::probe_words(path);
    assert(words[4] == "-show_format"@);
    assert(words[5] == "-show_streams"@);
}

/// What is taken of a document are the fields of its first picture stream, wherever that
/// stands, and those of the file.
pub proof fn lemma_fields_are_those_of_the_stream(k: nat)
    ensures
        crate::probe::stream_field(k as int, "/width"@) == "/streams/"@ + decimal(k) + "/width"@,
        crate::probe::rotation_field(k as int, 0) == "/streams/"@ + decimal(k) + "/side_data_list/"@ + decimal(0)
            + "/rotation"@,
{
}

/// Of several pictures in a file the first counts.
pub proof fn lemma_first_picture_counts(bytes: Seq<u8>, j: int, k: int)
    requires
        crate::probe::first_video(bytes, j),
        crate::probe::first_video(bytes, k),
    ensures
        j == k,
{
    if j < k {
        assert(!crate::probe::stream_is(bytes, j, "video"@));
    } else if k < j {
        assert(!crate::probe::stream_is(bytes, k, "video"@));
    }
}

/// Pictures of high dynamic range are those of the two transfer curves for it.
pub proof fn lemma_high_range_is_told_by_the_curve(facts: ProbeFacts)
    ensures
        facts.color_transfer is None ==> !crate::probe::is_hdr(facts),
        facts.color_transfer matches Some(t) && (t@ == "smpte2084"@ || t@ == "arib-std-b67"@) ==> crate::probe::is_hdr(
            facts,
        ),
        facts.color_transfer matches Some(t) && t@ == "bt709"@ ==> !crate::probe::is_hdr(facts),
{
    reveal_strlit("smpte2084");
    reveal_strlit("arib-std-b67");
    reveal_strlit("bt709");
    assert("bt709"@.len() == 5 && "smpte2084"@.len() == 9 && "arib-std-b67"@.len() == 12);
}

/// The file's creation stamp counts before the picture's, and a clip that was just probed
/// lies at the start, unmatched.
pub proof fn lemma_files_stamp_counts_first(path: Seq<char>, facts: ProbeFacts, clip: Clip)
    requires
        describes(path, facts, clip),
    ensures
        clip.path@ == path,
        facts.format_creation matches Some(t) ==> clip.creation_time is Some && clip.creation_time->0@ == t@,
        facts.format_creation is None && facts.video_creation is Some ==> clip.creation_time is Some
            && clip.creation_time->0@ == facts.video_creation->0@,
        facts.format_creation is None && facts.video_creation is None ==> clip.creation_time is None,
        clip.offset == 0,
        clip.sync_confidence is None,
        clip.has_audio == facts.has_audio,
        clip.end_stamped == (facts.android_version is Some),
{
}

/// Nothing but a quarter turn lays a picture on its side.
pub proof fn lemma_only_quarter_turns_lay_it_on_its_side(r: int)
    ensures
        is_sideways(r) <==> (r - 90) % 180 == 0,
{
    if r >= 0 {
        assert(size(r) == r);
    } else {
        assert(size(r) == -r);
        assert((-r) % 180 == 90 <==> (r - 90) % 180 == 0);
    }
}

proof fn lemma_common_divisor_divides(a: nat, b: nat, c: int)
    requires
        c > 0,
        a as int % c == 0,
        b as int % c == 0,
    ensures
        gcd(a, b) as int % c == 0,
    decreases b,
{
    if b > 0 {
        let q = a as int / b as int;
        let r = a as int % b as int;
        vstd::arithmetic::div_mod::lemma_fundamental_div_mod(a as int, b as int);
        vstd::arithmetic::div_mod::lemma_fundamental_div_mod(a as int, c);
        vstd::arithmetic::div_mod::lemma_fundamental_div_mod(b as int, c);
        let x = a as int / c;
        let y = b as int / c;
        assert(r == (x - y * q) * c) by (nonlinear_arith)
            requires
                a as int == b as int * q + r,
                a as int == c * x,
                b as int == c * y,
        ;
        vstd::arithmetic::div_mod::lemma_mod_multiples_basic(x - y * q, c);
        lemma_common_divisor_divides(b, a % b, c);
    }
}

/// A rate is in lowest terms: nothing but one divides both of its numbers.
pub proof fn lemma_rates_are_in_lowest_terms(n: int, d: int, c: int)
    requires
        n > 0,
        d > 0,
        reducible(n, d),
        c > 1,
    ensures
        !(lowest_terms(n, d).num as int % c == 0 && lowest_terms(n, d).den as int % c == 0),
{
    let g = gcd(n as nat, d as nat) as int;
    lemma_gcd(n as nat, d as nat);
    lemma_lowest_terms(n, d);
    let p = n / g;
    let q = d / g;
    vstd::arithmetic::div_mod::lemma_fundamental_div_mod(n, g);
    vstd::arithmetic::div_mod::lemma_fundamental_div_mod(d, g);
    assert(p >= 0 && q >= 0) by {
        vstd::arithmetic::div_mod::lemma_div_pos_is_pos(n, g);
        vstd::arithmetic::div_mod::lemma_div_pos_is_pos(d, g);
    }
    assert(lowest_terms(n, d).num == p && lowest_terms(n, d).den == q);
    if p % c == 0 && q % c == 0 {
        vstd::arithmetic::div_mod::lemma_fundamental_div_mod(p, c);
        vstd::arithmetic::div_mod::lemma_fundamental_div_mod(q, c);
        let x = p / c;
        let y = q / c;
        let e = g * c;
        assert(n == x * e && d == y * e && e > g) by (nonlinear_arith)
            requires
                n == g * p,
                d == g * q,
                p == c * x,
                q == c * y,
                e == g * c,
                c > 1,
                g > 0,
        ;
        vstd::arithmetic::div_mod::lemma_mod_multiples_basic(x, e);
        vstd::arithmetic::div_mod::lemma_mod_multiples_basic(y, e);
        lemma_common_divisor_divides(n as nat, d as nat, e);
        vstd::arithmetic::div_mod::lemma_small_mod(g as nat, e as nat);
    }
}

/// A number with a power of ten behind it is read with that power, in either case of the
/// letter.
pub proof fn lemma_powers_of_ten_are_read(n: nat, k: int, e: char)
    requires
        e == 'e' || e == 'E',
    ensures
        spelled_decimal(decimal(n) + seq![e] + signed(k)) == Some((n as int, k)),
{
    let a = decimal(n);
    let s = a + seq![e] + signed(k);
    let m = a.len() as int;
    lemma_read_back(n);
    lemma_decimal_not_empty(n);
    crate::text::lemma_signed_reads_back(k);
    assert forall|j: int| 0 <= j < m implies is_digit(#[trigger] s[j]) by {
        assert(s[j] == a[j]);
    }
    assert(is_digit(s[0]));
    assert(s[m] == e);
    assert(sign_end(s, 0) == 0);
    lemma_digits_run(s, 0, m);
    assert(mantissa_end(s) == m);
    assert(s.subrange(0, m) =~= a);
    assert(mantissa_digits(s) =~= a);
    assert(s.skip(m + 1) =~= signed(k));
}

/// Places beyond those that are kept are rounded, and missing ones are zeros.
pub proof fn lemma_more_places_are_rounded(m: int, k: nat)
    ensures
        2 * size(crate::text::scaled(m, -(k as int)) * pow10(k) - m) <= pow10(k),
        crate::text::scaled(m, k as int) == m * pow10(k),
        crate::text::scaled(m * pow10(k), -(k as int)) == m,
{
    lemma_pow10_positive(k);
    assert(pow10(0) == 1);
    if k > 0 {
        crate::units::lemma_rounded_near(m, pow10(k));
        crate::units::lemma_rounded_whole(m, pow10(k));
    } else {
        assert(m * 1 == m);
    }
}

} // verus!
