//! Measuring cameras and matching them to each other.

use crate::autograde::{
    area_count, average, balance_grade, brightness, chroma_of, contrast_among, first_pixel, gains_to,
    grade_of, guarded_exposure, halfway, hundredths, is_midtone, is_percentile, is_root, is_visible,
    last_pixel, list_sum, live, luma_bin, luma_of, mean_before_contrast, middle_balance, middle_value,
    nearest_root, row_count, saturation_among, solution_of, sum_upto, weighted_upto, CameraStats, Light,
    Solution, Tally,
};
use crate::order::{at_least, at_most};
use crate::units::size;
use vstd::prelude::*;

verus! {

// ---------------------------------------------------------------- pixels

/// Grey has the luma of its value; the luma of a colour lies between those of its
/// darkest and its brightest channel. Green counts most, then red, then blue.
pub proof fn lemma_luma_is_between_channels(r: int, g: int, b: int, lo: int, hi: int)
    requires
        lo <= r <= hi,
        lo <= g <= hi,
        lo <= b <= hi,
    ensures
        luma_of(hi, hi, hi) == 10_000 * hi,
        10_000 * lo <= luma_of(r, g, b) <= 10_000 * hi,
        luma_of(r, g + 1, b) > luma_of(r + 1, g, b) > luma_of(r, g, b + 1) > luma_of(r, g, b),
{
}

/// A pixel is counted in the bin nearest to its luma; grey is counted in the bin of its
/// value.
pub proof fn lemma_bin_is_nearest(y: int, v: int)
    ensures
        2 * size(10_000 * luma_bin(y) - y) <= 10_000,
        luma_bin(luma_of(v, v, v)) == v,
{
}

/// Shadows below eight hundredths of white and clipped light from ninety-two hundredths
/// on are left out: a mid-tone is what is neither.
pub proof fn lemma_midtones(y: int)
    ensures
        is_visible(y) <==> 100 * y > 8 * luma_of(255, 255, 255),
        is_midtone(y) <==> is_visible(y) && 100 * y < 92 * luma_of(255, 255, 255),
{
}

/// Grey has no chroma, and nothing else has none. No two channels differ by more than
/// the chroma, and some two differ by it. Which channel is which does not matter.
pub proof fn lemma_chroma_is_largest_difference(r: int, g: int, b: int)
    ensures
        chroma_of(r, g, b) == 0 <==> r == g && g == b,
        size(r - g) <= chroma_of(r, g, b),
        size(g - b) <= chroma_of(r, g, b),
        size(b - r) <= chroma_of(r, g, b),
        chroma_of(r, g, b) == size(r - g) || chroma_of(r, g, b) == size(g - b) || chroma_of(r, g, b) == size(b - r),
        chroma_of(r, g, b) == chroma_of(g, b, r) && chroma_of(r, g, b) == chroma_of(b, g, r),
{
}

/// A column is measured exactly where some of it lies inside the region.
pub proof fn lemma_region_takes_what_it_touches(u0: int, u1: int, n: int, x: int)
    requires
        0 <= u0 <= u1 <= 1_000_000,
        0 <= x < n,
    ensures
        u0 < u1 ==> (first_pixel(u0, n) <= x < last_pixel(u1, n, first_pixel(u0, n)) <==> (x + 1) * 1_000_000
            > u0 * n && x * 1_000_000 < u1 * n),
        first_pixel(0, n) == 0 && last_pixel(1_000_000, n, 0) == n,
{
    let a = u0 * n;
    let b = u1 * n;
    assert(0 <= a <= b <= 1_000_000 * n) by (nonlinear_arith)
        requires
            0 <= u0 <= u1 <= 1_000_000,
            n >= 0,
            a == u0 * n,
            b == u1 * n,
    ;
    assert(0 * n == 0);
}

proof fn lemma_row_pixels(rgba: Seq<u8>, w: int, y: int, x0: int, x: int)
    requires
        x0 <= x,
    ensures
        row_count(rgba, Tally::All, w, y, x0, x) == x - x0,
    decreases x - x0,
{
    if x0 < x {
        lemma_row_pixels(rgba, w, y, x0, x - 1);
    }
}

/// Every pixel of an area is counted once.
pub proof fn lemma_every_pixel_counts_once(rgba: Seq<u8>, w: int, x0: int, x1: int, y0: int, y1: int)
    requires
        x0 <= x1,
        y0 <= y1,
    ensures
        area_count(rgba, Tally::All, w, x0, x1, y0, y1) == (x1 - x0) * (y1 - y0),
    decreases y1 - y0,
{
    if y0 < y1 {
        lemma_every_pixel_counts_once(rgba, w, x0, x1, y0, y1 - 1);
        lemma_row_pixels(rgba, w, y1 - 1, x0, x1);
        assert((x1 - x0) * (y1 - y0) == (x1 - x0) * (y1 - 1 - y0) + (x1 - x0)) by (nonlinear_arith);
    } else {
        assert((x1 - x0) * 0 == 0);
    }
}

/// Counts of two areas beside one another add up to the count of both.
pub proof fn lemma_areas_add_up(rgba: Seq<u8>, tally: Tally, w: int, x0: int, x1: int, y0: int, m: int, y1: int)
    requires
        y0 <= m <= y1,
    ensures
        area_count(rgba, tally, w, x0, x1, y0, y1) == area_count(rgba, tally, w, x0, x1, y0, m) + area_count(
            rgba,
            tally,
            w,
            x0,
            x1,
            m,
            y1,
        ),
    decreases y1 - m,
{
    if m < y1 {
        lemma_areas_add_up(rgba, tally, w, x0, x1, y0, m, y1 - 1);
    }
}

/// Pixel `i` of two pictures has the same colour.
pub open spec fn same_pixel(a: Seq<u8>, b: Seq<u8>, i: int) -> bool {
    a[4 * i] == b[4 * i] && a[4 * i + 1] == b[4 * i + 1] && a[4 * i + 2] == b[4 * i + 2]
}

proof fn lemma_row_alike(a: Seq<u8>, b: Seq<u8>, tally: Tally, w: int, y: int, x0: int, x: int)
    requires
        forall|k: int| x0 <= k < x ==> #[trigger] same_pixel(a, b, y * w + k),
    ensures
        row_count(a, tally, w, y, x0, x) == row_count(b, tally, w, y, x0, x),
    decreases x - x0,
{
    if x0 < x {
        lemma_row_alike(a, b, tally, w, y, x0, x - 1);
        assert(same_pixel(a, b, y * w + (x - 1)));
    }
}

/// What is not shown is not measured: pixels outside the area change no count.
pub proof fn lemma_only_the_area_counts(
    a: Seq<u8>,
    b: Seq<u8>,
    tally: Tally,
    w: int,
    x0: int,
    x1: int,
    y0: int,
    y1: int,
)
    requires
        forall|x: int, y: int| x0 <= x < x1 && y0 <= y < y1 ==> #[trigger] same_pixel(a, b, y * w + x),
    ensures
        area_count(a, tally, w, x0, x1, y0, y1) == area_count(b, tally, w, x0, x1, y0, y1),
    decreases y1 - y0,
{
    if y0 < y1 {
        lemma_only_the_area_counts(a, b, tally, w, x0, x1, y0, y1 - 1);
        lemma_row_alike(a, b, tally, w, y1 - 1, x0, x1);
    }
}

/// Fewer than the wanted pixels are darker than the percentile, and enough are not
/// brighter; more wanted pixels never give a darker percentile.
pub proof fn lemma_percentile_splits_pixels(hist: Seq<u64>, want: int, bin: int, more: int, other: int)
    requires
        is_percentile(hist, want, bin),
        is_percentile(hist, more, other),
        0 < want <= more,
    ensures
        sum_upto(hist, bin) < want <= sum_upto(hist, bin + 1),
        bin <= other,
{
    if bin > 0 {
        assert(sum_upto(hist, (bin - 1) + 1) < want);
    }
    if other < bin {
        assert(sum_upto(hist, other + 1) < want);
    }
}

proof fn lemma_weighted_between(hist: Seq<u64>, lo: int, hi: int, n: int)
    requires
        0 <= n <= hist.len(),
        0 <= lo <= hi,
        forall|k: int| 0 <= k < hist.len() && !(lo <= k <= hi) ==> (#[trigger] hist[k]) == 0,
    ensures
        lo * sum_upto(hist, n) <= weighted_upto(hist, n) <= hi * sum_upto(hist, n),
    decreases n,
{
    if n > 0 {
        lemma_weighted_between(hist, lo, hi, n - 1);
        let k = n - 1;
        let c = hist[k] as int;
        let s = sum_upto(hist, k);
        assert(lo * (s + c) == lo * s + lo * c && hi * (s + c) == hi * s + hi * c) by (nonlinear_arith);
        if lo <= k <= hi {
            assert(lo * c <= k * c <= hi * c) by (nonlinear_arith)
                requires
                    lo <= k <= hi,
                    c >= 0,
            ;
        } else {
            assert(c == 0);
            assert(k * 0 == 0 && lo * 0 == 0 && hi * 0 == 0);
        }
    } else {
        assert(lo * 0 == 0 && hi * 0 == 0);
    }
}

/// The mean luma of a camera lies between its darkest and its brightest pixel.
pub proof fn lemma_mean_is_between_pixels(s: CameraStats, lo: int, hi: int)
    requires
        s.wf(),
        s.pixels > 0,
        0 <= lo <= hi <= 255,
        forall|k: int| 0 <= k < s.hist@.len() && !(lo <= k <= hi) ==> (#[trigger] s.hist@[k]) == 0,
    ensures
        lo * 1_000_000 - 128 <= 255 * s.luma_mean() <= hi * 1_000_000 + 128,
{
    lemma_weighted_between(s.hist@, lo, hi, 256);
    let n = s.pixels as int;
    let x = weighted_upto(s.hist@, 256);
    let d = 255 * n;
    let m = s.luma_mean();
    crate::units::lemma_rounded_near(x * 1_000_000, d);
    assert(m * d == (255 * m) * n) by (nonlinear_arith)
        requires
            d == 255 * n,
    ;
    assert(lo * 1_000_000 - 128 <= 255 * m <= hi * 1_000_000 + 128) by (nonlinear_arith)
        requires
            lo * n <= x <= hi * n,
            -(255 * n) <= 2 * (x * 1_000_000 - (255 * m) * n) <= 255 * n,
            n >= 1,
    ;
}

/// The mean chroma times the visible pixels is the summed chroma, but for the rounding.
pub proof fn lemma_chroma_is_a_mean(s: CameraStats)
    requires
        s.chroma_n > 0,
    ensures
        2 * size(s.chroma_mean() * (255 * s.chroma_n) - s.chroma_sum * 1_000_000) <= 255 * s.chroma_n,
{
    crate::units::lemma_rounded_near(s.chroma_sum * 1_000_000, 255 * s.chroma_n as int);
}

/// A balance says how red and blue relate to green: times green it gives red and blue
/// back, but for the rounding. Equal channels have the balance one. Below sixty-four
/// mid-tones, or without green, there is none.
pub proof fn lemma_balance_relates_channels(s: CameraStats, light: Light)
    requires
        light.ok(),
    ensures
        s.balance_in(light) is Some <==> s.mid_n >= 64 && light.green > 0,
        s.balance_in(light) matches Some((r, b)) ==> {
            &&& 2 * size(r * light.green - light.red * 1_000_000) <= light.green
            &&& 2 * size(b * light.green - light.blue * 1_000_000) <= light.green
            &&& light.red == light.green ==> r == 1_000_000
            &&& light.blue == light.green ==> b == 1_000_000
        },
{
    if s.balance_in(light) is Some {
        let g = light.green as int;
        let r = crate::units::rounded(light.red * 1_000_000, g);
        let b = crate::units::rounded(light.blue * 1_000_000, g);
        crate::units::lemma_rounded_near(light.red * 1_000_000, g);
        crate::units::lemma_rounded_near(light.blue * 1_000_000, g);
        crate::units::lemma_rounded_whole(1_000_000, g);
        assert(0 <= r <= 1_000_000_000_000_001 && 0 <= b <= 1_000_000_000_000_001) by (nonlinear_arith)
            requires
                -g <= 2 * (light.red * 1_000_000 - r * g) <= g,
                -g <= 2 * (light.blue * 1_000_000 - b * g) <= g,
                0 <= light.red <= 1_000_000_000,
                0 <= light.blue <= 1_000_000_000,
                g >= 1,
        ;
    }
}

// ---------------------------------------------------------------- averages

proof fn lemma_sum_between(v: Seq<i64>, lo: int, hi: int)
    requires
        forall|i: int| 0 <= i < v.len() ==> lo <= (#[trigger] v[i]) <= hi,
    ensures
        lo * v.len() <= list_sum(v) <= hi * v.len(),
    decreases v.len(),
{
    if v.len() > 0 {
        let n = v.len() as int;
        assert forall|i: int| 0 <= i < n - 1 implies lo <= (#[trigger] v.drop_last()[i]) <= hi by {
            assert(v.drop_last()[i] == v[i]);
        }
        lemma_sum_between(v.drop_last(), lo, hi);
        assert(lo <= v[n - 1] <= hi);
        assert(lo * n == lo * (n - 1) + lo && hi * n == hi * (n - 1) + hi) by (nonlinear_arith);
    } else {
        assert(lo * 0 == 0 && hi * 0 == 0);
    }
}

/// An average lies between the smallest and the largest value, and counting every value
/// as the average gives the sum, but for the rounding.
pub proof fn lemma_average_is_between(v: Seq<i64>, lo: int, hi: int)
    requires
        v.len() > 0,
        forall|i: int| 0 <= i < v.len() ==> lo <= (#[trigger] v[i]) <= hi,
    ensures
        lo <= average(v) <= hi,
        2 * size(average(v) * v.len() - list_sum(v)) <= v.len(),
{
    let n = v.len() as int;
    let m = average(v);
    lemma_sum_between(v, lo, hi);
    crate::units::lemma_rounded_near(list_sum(v), n);
    crate::units::lemma_rounded_whole(lo, n);
    crate::units::lemma_rounded_whole(hi, n);
    crate::units::lemma_rounded_grows(lo * n, list_sum(v), n);
    crate::units::lemma_rounded_grows(list_sum(v), hi * n, n);
}

/// One value more adds itself to the sum, wherever it stands.
pub proof fn lemma_sum_adds_each_value(v: Seq<i64>, k: int, x: i64)
    requires
        0 <= k <= v.len(),
    ensures
        list_sum(v.insert(k, x)) == list_sum(v) + x,
    decreases v.len(),
{
    let w = v.insert(k, x);
    if k == v.len() {
        assert(w.drop_last() =~= v);
    } else {
        lemma_sum_adds_each_value(v.drop_last(), k, x);
        assert(w.drop_last() =~= v.drop_last().insert(k, x));
        assert(w.last() == v.last());
    }
}

// ---------------------------------------------------------------- targets and ratios

/// Cameras are brought to one contrast. A camera with less spread never gets less
/// contrast than one with more; and where the limits allow it, the spread times the
/// contrast is the same for both: the target, which lies between 0.75 and 0.85 and, where
/// the average spread lies there, is that average.
pub proof fn lemma_contrast_brings_spreads_together(spreads: Seq<i64>, own: int, other: int)
    requires
        50_000 <= own <= other,
    ensures
        950_000 <= contrast_among(spreads, own) <= 1_300_000,
        contrast_among(spreads, other) <= contrast_among(spreads, own),
        exists|t: int|
            {
                &&& 750_000 <= t <= 850_000
                &&& 750_000 <= average(spreads) <= 850_000 ==> t == average(spreads)
                &&& 950_000 < contrast_among(spreads, own) < 1_300_000 ==> 2 * size(
                    #[trigger] (t * 1_000_000) - contrast_among(spreads, own) * own,
                ) <= own
                &&& t >= average(spreads) || t == 850_000
                &&& t <= average(spreads) || t == 750_000
            },
{
    let t = crate::units::clamped(average(spreads), 750_000, 850_000);
    crate::units::lemma_rounded_near(t * 1_000_000, own);
    lemma_quotient_falls(t * 1_000_000, own, other);
    assert(2 * size((t * 1_000_000) - crate::units::rounded(t * 1_000_000, own) * own) <= own);
}

proof fn lemma_quotient_falls(n: int, a: int, b: int)
    requires
        n >= 0,
        0 < a <= b,
    ensures
        crate::units::rounded(n, b) <= crate::units::rounded(n, a),
{
    let p = crate::units::rounded(n, a);
    let q = crate::units::rounded(n, b);
    crate::units::lemma_rounded_near(n, a);
    crate::units::lemma_rounded_near(n, b);
    crate::units::lemma_rounded_ties(n, a);
    if n > 0 && q > p {
        assert(p >= 0) by (nonlinear_arith)
            requires
                2 * (n - p * a) <= a,
                n > 0,
                a > 0,
        ;
        assert(false) by (nonlinear_arith)
            requires
                q >= p + 1,
                p >= 0,
                2 * (n - p * a) < a,
                -b <= 2 * (n - q * b),
                0 < a <= b,
        ;
    }
    if n == 0 {
        crate::units::lemma_rounded_whole(0, a);
        crate::units::lemma_rounded_whole(0, b);
        assert(0 * a == 0 && 0 * b == 0);
    }
}

/// Cameras are brought to one colourfulness: as with contrast, with a target between 0.12
/// and 0.3.
pub proof fn lemma_saturation_brings_colours_together(chromas: Seq<i64>, own: int, other: int)
    requires
        10_000 <= own <= other,
    ensures
        800_000 <= saturation_among(chromas, own) <= 1_500_000,
        saturation_among(chromas, other) <= saturation_among(chromas, own),
        exists|t: int|
            {
                &&& 120_000 <= t <= 300_000
                &&& 120_000 <= average(chromas) <= 300_000 ==> t == average(chromas)
                &&& 800_000 < saturation_among(chromas, own) < 1_500_000 ==> 2 * size(
                    #[trigger] (t * 1_000_000) - saturation_among(chromas, own) * own,
                ) <= own
                &&& t >= average(chromas) || t == 300_000
                &&& t <= average(chromas) || t == 120_000
            },
{
    let t = crate::units::clamped(average(chromas), 120_000, 300_000);
    crate::units::lemma_rounded_near(t * 1_000_000, own);
    lemma_quotient_falls(t * 1_000_000, own, other);
    assert(2 * size((t * 1_000_000) - crate::units::rounded(t * 1_000_000, own) * own) <= own);
}

/// The brightness target lies between 0.28 and 0.5, and is what the cameras average where
/// that lies there.
pub proof fn lemma_brightness_target(stats: Seq<CameraStats>)
    ensures
        280_000 <= brightness(stats) <= 500_000,
        ({
            let m = average(crate::autograde::means_of(stats));
            &&& 280_000 <= m <= 500_000 ==> brightness(stats) == m
            &&& m < 280_000 ==> brightness(stats) == 280_000
            &&& m > 500_000 ==> brightness(stats) == 500_000
        }),
{
}

/// Contrast about one half brings the mean that exposure aims for to the target, but for
/// the rounding; without contrast the two are the same.
pub proof fn lemma_contrast_brings_mean_to_target(target: int, contrast: int)
    requires
        contrast > 0,
    ensures
        2 * size((mean_before_contrast(target, contrast) - 500_000) * contrast - (target - 500_000) * 1_000_000)
            <= contrast,
        mean_before_contrast(target, 1_000_000) == target,
        mean_before_contrast(500_000, contrast) == 500_000,
{
    crate::units::lemma_rounded_near((target - 500_000) * 1_000_000, contrast);
    crate::units::lemma_rounded_whole(target - 500_000, 1_000_000);
    crate::units::lemma_rounded_whole(0, contrast);
    assert(0 * contrast == 0);
}

/// Exposure never clips highlights to brighten a picture: it is at most what was found
/// and at most what the highlights allow; but they never darken it, and it stays within
/// two and a half stops. Where none of these limits is in the way it is what was found.
pub proof fn lemma_exposure_spares_highlights(found: int, guard: int)
    ensures
        -2_500_000 <= guarded_exposure(found, guard) <= 2_500_000,
        guarded_exposure(found, guard) > 0 ==> guarded_exposure(found, guard) <= guard
            && guarded_exposure(found, guard) <= found,
        -2_500_000 <= found <= 0 ==> guarded_exposure(found, guard) == found,
        0 <= found <= guard && found <= 2_500_000 ==> guarded_exposure(found, guard) == found,
        found < -2_500_000 ==> guarded_exposure(found, guard) == -2_500_000,
        0 <= guard <= found && guard <= 2_500_000 ==> guarded_exposure(found, guard) == guard,
        guard < 0 <= found ==> guarded_exposure(found, guard) == 0,
{
}

// ---------------------------------------------------------------- colour balance

/// The middle of the values: at least half of them are at or below it, and at least half
/// at or above it. Of an odd number it is one of the values. The order of the values does
/// not matter.
pub proof fn lemma_middle_halves_the_values(v: Seq<i64>, w: Seq<i64>)
    requires
        0 < v.len() <= usize::MAX,
        v.to_multiset() == w.to_multiset(),
    ensures
        2 * at_most(v, middle_value(v)) >= v.len(),
        2 * at_least(v, middle_value(v)) >= v.len(),
        v.len() % 2 == 1 ==> exists|k: int| 0 <= k < v.len() && #[trigger] v[k] == middle_value(v),
        middle_value(w) == middle_value(v),
{
    broadcast use vstd::seq_lib::group_to_multiset_ensures;

    assert(v.to_multiset().len() == v.len());
    assert(w.to_multiset().len() == w.len());
    let n = v.len() as int;
    let b = ranked(v, n / 2);
    let d = ranked(w, n / 2);
    lemma_same_rank(v, w, n / 2);
    if n % 2 == 1 {
        assert(v.contains(b as i64));
    } else {
        let a = ranked(v, n / 2 - 1);
        lemma_same_rank(v, w, n / 2 - 1);
        let m = middle_value(v);
        crate::units::lemma_rounded_near(a + b, 2);
        lemma_ranks_ascend(v, n / 2 - 1, n / 2);
        assert(a <= m <= b);
        lemma_counts_grow(v, a, m);
        lemma_counts_grow(v, m, b);
    }
}

/// Of an even number of values the middle is halfway between the two in the middle: one
/// with half of the values at or below it, and one with half at or above it.
pub proof fn lemma_middle_of_two_is_halfway(v: Seq<i64>)
    requires
        0 < v.len() <= usize::MAX,
        v.len() % 2 == 0,
    ensures
        exists|a: int, b: int|
            {
                &&& #[trigger] v.contains(a as i64) && #[trigger] v.contains(b as i64)
                &&& i64::MIN <= a <= b <= i64::MAX
                &&& 2 * at_most(v, a) >= v.len() && 2 * at_least(v, a) > v.len()
                &&& 2 * at_most(v, b) > v.len() && 2 * at_least(v, b) >= v.len()
                &&& size(2 * middle_value(v) - (a + b)) <= 1
            },
{
    let n = v.len() as int;
    let a = ranked(v, n / 2 - 1);
    let b = ranked(v, n / 2);
    crate::order::lemma_rank(v, n / 2 - 1);
    crate::order::lemma_rank(v, n / 2);
    lemma_ranks_ascend(v, n / 2 - 1, n / 2);
    crate::units::lemma_rounded_near(a + b, 2);
    assert(v.contains(a as i64) && v.contains(b as i64));
}

spec fn ranked(v: Seq<i64>, p: int) -> int {
    v[crate::order::order_of(crate::order::ascending_keys(v))[p] as int] as int
}

proof fn lemma_same_rank(v: Seq<i64>, w: Seq<i64>, p: int)
    requires
        0 <= p < v.len() <= usize::MAX,
        v.len() == w.len(),
        v.to_multiset() == w.to_multiset(),
    ensures
        ranked(v, p) == ranked(w, p),
        at_most(v, ranked(v, p)) >= p + 1,
        at_least(v, ranked(v, p)) >= v.len() - p,
        v.contains(ranked(v, p) as i64),
{
    crate::order::lemma_rank(v, p);
    crate::order::lemma_rank(w, p);
    crate::order::lemma_counts_unordered(v, w, ranked(w, p));
    crate::order::lemma_rank_unique(v, p, ranked(v, p), ranked(w, p));
}

proof fn lemma_ranks_ascend(v: Seq<i64>, p: int, q: int)
    requires
        0 <= p <= q < v.len() <= usize::MAX,
    ensures
        ranked(v, p) <= ranked(v, q),
{
    let keys = crate::order::ascending_keys(v);
    crate::order::lemma_order_exists(keys);
    crate::order::lemma_ascending(v, crate::order::order_of(keys), p, q);
}

proof fn lemma_counts_grow(v: Seq<i64>, x: int, y: int)
    requires
        x <= y,
    ensures
        at_most(v, x) <= at_most(v, y),
        at_least(v, x) >= at_least(v, y),
    decreases v.len(),
{
    if v.len() > 0 {
        lemma_counts_grow(v.drop_last(), x, y);
    }
}

proof fn lemma_counts_bounded(v: Seq<i64>, x: int)
    ensures
        0 <= at_most(v, x) <= v.len(),
        0 <= at_least(v, x) <= v.len(),
    decreases v.len(),
{
    if v.len() > 0 {
        lemma_counts_bounded(v.drop_last(), x);
    }
}

/// Where most values are equal, the middle is that value.
pub proof fn lemma_majority_is_the_middle(v: Seq<i64>, m: i64)
    requires
        0 < v.len() <= usize::MAX,
        at_most(v, m as int) + at_least(v, m as int) > v.len() + v.len() / 2,
    ensures
        middle_value(v) == m,
{
    let n = v.len() as int;
    lemma_counts_bounded(v, m as int);
    lemma_majority_rank(v, m as int, n / 2);
    if n % 2 == 0 {
        lemma_majority_rank(v, m as int, n / 2 - 1);
        crate::units::lemma_rounded_whole(m as int, 2);
    }
}

proof fn lemma_majority_rank(v: Seq<i64>, m: int, p: int)
    requires
        0 <= p < v.len() <= usize::MAX,
        at_most(v, m) >= p + 1,
        at_least(v, m) >= v.len() - p,
    ensures
        ranked(v, p) == m,
{
    crate::order::lemma_rank(v, p);
    crate::order::lemma_rank_unique(v, p, ranked(v, p), m);
}

proof fn lemma_root_exists(n: int) -> (g: int)
    requires
        n >= 0,
    ensures
        is_root(g, n),
        nearest_root(n) == g,
    decreases n,
{
    let g = if n == 0 {
        0
    } else {
        let p = lemma_root_exists(n - 1);
        if 4 * n < (2 * p + 1) * (2 * p + 1) {
            p
        } else {
            p + 1
        }
    };
    if n == 0 {
        assert((2 * g + 1) * (2 * g + 1) == 1) by (nonlinear_arith)
            requires
                g == 0,
        ;
        assert(is_root(g, n));
    } else {
        let p = lemma_root_exists(n - 1);
        if 4 * n < (2 * p + 1) * (2 * p + 1) {
            assert(is_root(p, n));
        } else {
            let q = p + 1;
            assert((2 * q + 1) * (2 * q + 1) >= (2 * p + 1) * (2 * p + 1) + 8 * p + 8) by (nonlinear_arith)
                requires
                    q == p + 1,
                    p >= 0,
            ;
            assert(2 * q - 1 == 2 * p + 1);
            assert(is_root(q, n));
        }
        crate::autograde::lemma_root_unique(p, p, n - 1);
    }
    assert(is_root(g, n));
    crate::autograde::lemma_root_unique(g, nearest_root(n), n);
    g
}

/// Halfway, in equal factors, means that two such steps lead to the goal: the square of
/// the gain is the goal over the own ratio, to within the rounding. A camera at the goal
/// is left alone.
pub proof fn lemma_two_half_steps_reach_goal(goal: int, own: int)
    requires
        goal >= 0,
        own >= 1000,
    ensures
        ({
            let g = halfway(goal, own);
            let n = (goal * 1_000_000_000_000) / own;
            &&& g >= 0
            &&& size(g * g - n) <= g
            &&& n * own <= goal * 1_000_000_000_000 < (n + 1) * own
        }),
        halfway(own, own) == 1_000_000,
{
    let top = goal * 1_000_000_000_000;
    let n = top / own;
    vstd::arithmetic::div_mod::lemma_fundamental_div_mod(top, own);
    vstd::arithmetic::div_mod::lemma_mod_bound(top, own);
    vstd::arithmetic::div_mod::lemma_div_pos_is_pos(top, own);
    assert(n * own <= top < (n + 1) * own) by (nonlinear_arith)
        requires
            top == own * n + top % own,
            0 <= top % own < own,
    ;
    let g = lemma_root_exists(n);
    assert((2 * g + 1) * (2 * g + 1) == 4 * (g * g) + 4 * g + 1 && (2 * g - 1) * (2 * g - 1) == 4 * (g * g) - 4 * g
        + 1) by (nonlinear_arith);
    if g == 0 {
        assert(g * g == 0);
    }
    assert(own * 1_000_000_000_000 == 1_000_000_000_000 * own + 0);
    vstd::arithmetic::div_mod::lemma_fundamental_div_mod_converse(
        own * 1_000_000_000_000,
        own,
        1_000_000_000_000,
        0,
    );
    let e = lemma_root_exists(1_000_000_000_000);
    assert(is_root(1_000_000, 1_000_000_000_000));
    crate::autograde::lemma_root_unique(e, 1_000_000, 1_000_000_000_000);
}

/// A camera whose ratio is above the goal is brought down, one below it is brought up.
pub proof fn lemma_half_step_goes_to_goal(goal: int, own: int)
    requires
        goal >= 0,
        own >= 1000,
    ensures
        own >= goal ==> halfway(goal, own) <= 1_000_000,
        own <= goal ==> halfway(goal, own) >= 1_000_000,
{
    let top = goal * 1_000_000_000_000;
    let n = top / own;
    vstd::arithmetic::div_mod::lemma_fundamental_div_mod(top, own);
    vstd::arithmetic::div_mod::lemma_mod_bound(top, own);
    vstd::arithmetic::div_mod::lemma_div_pos_is_pos(top, own);
    let g = lemma_root_exists(n);
    if own >= goal {
        assert(n <= 1_000_000_000_000) by (nonlinear_arith)
            requires
                goal * 1_000_000_000_000 == own * n + top % own,
                0 <= top % own,
                own >= goal,
                own > 0,
        ;
        assert(g <= 1_000_000) by (nonlinear_arith)
            requires
                g > 0 ==> (2 * g - 1) * (2 * g - 1) <= 4 * n,
                n <= 1_000_000_000_000,
        ;
    }
    if own <= goal {
        assert(n >= 1_000_000_000_000) by (nonlinear_arith)
            requires
                goal * 1_000_000_000_000 == own * n + top % own,
                top % own < own,
                own <= goal,
                own > 0,
        ;
        assert(g >= 1_000_000) by (nonlinear_arith)
            requires
                4 * n < (2 * g + 1) * (2 * g + 1),
                n >= 1_000_000_000_000,
                g >= 0,
        ;
    }
}

/// Equal gains leave temperature alone, gains of one leave both alone; more red than
/// blue is warmer, and gains above one take green away.
pub proof fn lemma_gains_have_their_side(a: int, c: int)
    requires
        a >= 0,
        c >= 0,
        a + c >= 1000,
    ensures
        balance_grade(1_000_000, 1_000_000) == (0int, 0int),
        a == c ==> balance_grade(a, c).0 == 0,
        a >= c ==> balance_grade(a, c).0 >= 0,
        a <= c ==> balance_grade(a, c).0 <= 0,
        a + c >= 2_000_000 ==> balance_grade(a, c).1 >= 0,
        a + c <= 2_000_000 ==> balance_grade(a, c).1 <= 0,
        balance_grade(c, a).0 == -balance_grade(a, c).0,
        balance_grade(c, a).1 == balance_grade(a, c).1,
{
    let sum = a + c;
    let p = 4 * (a - c) * 1_000_000;
    let q = 4 * (sum - 2_000_000) * 1_000_000;
    assert(4 * (c - a) * 1_000_000 == -p);
    crate::units::lemma_rounded_ties(p, sum);
    crate::units::lemma_rounded_whole(0, sum);
    assert(0 * sum == 0);
    if p >= 0 {
        crate::units::lemma_rounded_grows(0, p, sum);
    } else {
        crate::units::lemma_rounded_grows(p, 0, sum);
    }
    if q >= 0 {
        crate::units::lemma_rounded_grows(0, q, sum);
    } else {
        crate::units::lemma_rounded_grows(q, 0, sum);
    }
    crate::units::lemma_rounded_whole(0, 2_000_000);
}

/// A value is shown to the nearest hundredth.
pub proof fn lemma_hundredths_are_near(v: int)
    ensures
        hundredths(v) % 10_000 == 0,
        2 * size(hundredths(v) - v) <= 10_000,
        hundredths(0) == 0,
{
    crate::units::lemma_rounded_near(v, 10_000);
    crate::units::lemma_rounded_whole(0, 10_000);
}

/// A camera that has the target balance keeps its colour: temperature and tint stay zero.
pub proof fn lemma_camera_at_target_keeps_colour(s: Solution, goal: (i64, i64))
    requires
        1000 <= goal.0,
        1000 <= goal.1,
        s.gains == gains_to(Some(goal), Some(goal)),
    ensures
        grade_of(s).temperature == 0,
        grade_of(s).tint == 0,
{
    lemma_two_half_steps_reach_goal(goal.0 as int, goal.0 as int);
    lemma_two_half_steps_reach_goal(goal.1 as int, goal.1 as int);
    lemma_gains_have_their_side(1_000_000, 1_000_000);
    lemma_hundredths_are_near(0);
}

/// A camera that is redder than the target and less blue is cooled; one that is less red
/// and bluer is warmed.
pub proof fn lemma_warm_camera_is_cooled(s: Solution, goal: (i64, i64), own: (i64, i64))
    requires
        1000 <= own.0 <= 1_000_000_000_000_000,
        1000 <= own.1 <= 1_000_000_000_000_000,
        0 <= goal.0 <= 1_000_000_000_000_000,
        0 <= goal.1 <= 1_000_000_000_000_000,
        s.gains == gains_to(Some(goal), Some(own)),
    ensures
        own.0 >= goal.0 && own.1 <= goal.1 ==> grade_of(s).temperature <= 0,
        own.0 <= goal.0 && own.1 >= goal.1 ==> grade_of(s).temperature >= 0,
{
    let a = halfway(goal.0 as int, own.0 as int);
    let c = halfway(goal.1 as int, own.1 as int);
    lemma_half_step_goes_to_goal(goal.0 as int, own.0 as int);
    lemma_half_step_goes_to_goal(goal.1 as int, own.1 as int);
    lemma_two_half_steps_reach_goal(goal.0 as int, own.0 as int);
    lemma_two_half_steps_reach_goal(goal.1 as int, own.1 as int);
    lemma_gain_fits(goal.0 as int, own.0 as int);
    lemma_gain_fits(goal.1 as int, own.1 as int);
    if (own.0 >= goal.0 && own.1 <= goal.1) || (own.0 <= goal.0 && own.1 >= goal.1) {
        lemma_gains_have_their_side(a, c);
        let t = balance_grade(a, c).0;
        let k = crate::units::clamped(t, -1_000_000, 1_000_000);
        crate::units::lemma_rounded_whole(0, 10_000);
        if k >= 0 {
            crate::units::lemma_rounded_grows(0, k, 10_000);
        }
        if k <= 0 {
            crate::units::lemma_rounded_grows(k, 0, 10_000);
        }
        crate::units::lemma_rounded_near(k, 10_000);
    }
}

proof fn lemma_gain_fits(goal: int, own: int)
    requires
        0 <= goal <= 1_000_000_000_000_000,
        own >= 1000,
    ensures
        0 <= halfway(goal, own) <= 1_000_000_000_000,
{
    let top = goal * 1_000_000_000_000;
    let n = top / own;
    vstd::arithmetic::div_mod::lemma_fundamental_div_mod(top, own);
    vstd::arithmetic::div_mod::lemma_mod_bound(top, own);
    vstd::arithmetic::div_mod::lemma_div_pos_is_pos(top, own);
    let g = lemma_root_exists(n);
    assert(n <= 1_000_000_000_000_000_000_000_000) by (nonlinear_arith)
        requires
            top == own * n + top % own,
            0 <= top % own,
            top <= 1_000_000_000_000_000_000_000_000_000,
            own >= 1000,
            n >= 0,
    ;
    assert(g <= 1_000_000_000_000) by (nonlinear_arith)
        requires
            g > 0 ==> (2 * g - 1) * (2 * g - 1) <= 4 * n,
            n <= 1_000_000_000_000_000_000_000_000,
    ;
}

/// The target balance is that of most cameras where most have one: it lies in the middle
/// of the red ratios and in the middle of the blue ones. A single camera has none to match.
pub proof fn lemma_target_balance_is_in_the_middle(balances: Seq<Option<(i64, i64)>>)
    requires
        balances.len() <= usize::MAX,
        forall|i: int|
            0 <= i < balances.len() ==> ((#[trigger] balances[i]) matches Some(b) ==> 0 <= b.0
                <= 1_000_000_000_000_000 && 0 <= b.1 <= 1_000_000_000_000_000),
    ensures
        ({
            let all = crate::autograde::known(balances, balances.len() as int);
            let reds = crate::autograde::reds(all);
            let blues = crate::autograde::blues(all);
            match middle_balance(balances) {
                Some((r, b)) => {
                    &&& all.len() >= 2
                    &&& 2 * at_most(reds, r as int) >= all.len() && 2 * at_least(reds, r as int) >= all.len()
                    &&& 2 * at_most(blues, b as int) >= all.len() && 2 * at_least(blues, b as int) >= all.len()
                },
                None => all.len() < 2,
            }
        }),
{
    let all = crate::autograde::known(balances, balances.len() as int);
    lemma_known(balances, balances.len() as int);
    if all.len() >= 2 {
        let reds = crate::autograde::reds(all);
        let blues = crate::autograde::blues(all);
        lemma_middle_halves_the_values(reds, reds);
        lemma_middle_halves_the_values(blues, blues);
        lemma_middle_between(reds, 0, 1_000_000_000_000_000);
        lemma_middle_between(blues, 0, 1_000_000_000_000_000);
    }
}

proof fn lemma_known(balances: Seq<Option<(i64, i64)>>, n: int)
    requires
        0 <= n <= balances.len(),
        forall|i: int|
            0 <= i < balances.len() ==> ((#[trigger] balances[i]) matches Some(b) ==> 0 <= b.0
                <= 1_000_000_000_000_000 && 0 <= b.1 <= 1_000_000_000_000_000),
    ensures
        crate::autograde::known(balances, n).len() <= n,
        forall|i: int|
            0 <= i < crate::autograde::known(balances, n).len() ==> 0 <= (#[trigger] crate::autograde::known(
                balances,
                n,
            )[i]).0 <= 1_000_000_000_000_000 && 0 <= crate::autograde::known(balances, n)[i].1
                <= 1_000_000_000_000_000,
    decreases n,
{
    if n > 0 {
        lemma_known(balances, n - 1);
        assert(balances[n - 1] matches Some(b) ==> 0 <= b.0);
    }
}

proof fn lemma_middle_between(v: Seq<i64>, lo: int, hi: int)
    requires
        0 < v.len() <= usize::MAX,
        i64::MIN <= lo <= hi <= i64::MAX,
        forall|i: int| 0 <= i < v.len() ==> lo <= (#[trigger] v[i]) <= hi,
    ensures
        lo <= middle_value(v) <= hi,
{
    let n = v.len() as int;
    crate::order::lemma_rank(v, n / 2);
    if n % 2 == 0 {
        crate::order::lemma_rank(v, n / 2 - 1);
        let a = ranked(v, n / 2 - 1);
        let b = ranked(v, n / 2);
        crate::units::lemma_rounded_near(a + b, 2);
    }
}

// ---------------------------------------------------------------- all cameras

/// Where camera `i` stands once cameras `k` and `k + 1` have changed places.
pub open spec fn exchanged(i: int, k: int) -> int {
    if i == k {
        k + 1
    } else if i == k + 1 {
        k
    } else {
        i
    }
}

/// A list with the entries `k` and `k + 1` exchanged.
pub open spec fn exchange<T>(v: Seq<T>, k: int) -> Seq<T> {
    v.update(k, v[k + 1]).update(k + 1, v[k])
}

proof fn lemma_sum_exchange(v: Seq<i64>, k: int)
    requires
        0 <= k,
        k + 1 < v.len(),
    ensures
        list_sum(exchange(v, k)) == list_sum(v),
    decreases v.len(),
{
    let w = exchange(v, k);
    if k + 2 == v.len() {
        let rest = v.drop_last().drop_last();
        assert(w.drop_last().drop_last() =~= rest);
        assert(list_sum(v.drop_last()) == list_sum(rest) + v[k]);
        assert(list_sum(w.drop_last()) == list_sum(rest) + w[k]);
    } else {
        lemma_sum_exchange(v.drop_last(), k);
        assert(w.drop_last() =~= exchange(v.drop_last(), k));
    }
}

proof fn lemma_multiset_exchange(v: Seq<i64>, k: int)
    requires
        0 <= k,
        k + 1 < v.len(),
    ensures
        exchange(v, k).to_multiset() == v.to_multiset(),
{
    broadcast use vstd::seq_lib::group_to_multiset_ensures;

    let a = v[k];
    let b = v[k + 1];
    let one = v.update(k, b);
    assert(one.to_multiset() =~= v.to_multiset().insert(b).remove(a));
    assert(one[k + 1] == b);
    let two = one.update(k + 1, a);
    assert(two.to_multiset() =~= one.to_multiset().insert(a).remove(b));
    assert(v.to_multiset().contains(a));
    assert(v.to_multiset().contains(b));
    assert(two.to_multiset() =~= v.to_multiset());
}

/// `w` lists what `v` lists, in the same order or with two neighbours exchanged.
pub open spec fn relisted<T>(v: Seq<T>, w: Seq<T>) -> bool {
    ||| w == v
    ||| exists|q: int| 0 <= q && q + 1 < v.len() && w == #[trigger] exchange(v, q)
}

proof fn lemma_relisted_average(v: Seq<i64>, w: Seq<i64>)
    requires
        relisted(v, w),
    ensures
        average(v) == average(w),
{
    if w != v {
        let q = choose|q: int| 0 <= q && q + 1 < v.len() && w == #[trigger] exchange(v, q);
        lemma_sum_exchange(v, q);
    }
}

proof fn lemma_live_exchanged(stats: Seq<CameraStats>, k: int, n: int)
    requires
        0 <= k,
        k + 1 < stats.len() <= usize::MAX,
        0 <= n <= stats.len(),
    ensures
        ({
            let on = live(stats, n);
            let now = live(exchange(stats, k), n);
            let q = live(stats, k).len() as int;
            &&& forall|j: int| 0 <= j < on.len() ==> (#[trigger] on[j]) < n
            &&& n <= k ==> now == on
            &&& n >= k + 2 ==> now.len() == on.len()
            &&& n >= k + 2 && stats[k].pixels > 0 && stats[k + 1].pixels > 0 ==> {
                &&& now == on
                &&& q + 1 < on.len() && on[q] == k && on[q + 1] == k + 1
                &&& forall|j: int|
                    0 <= j < on.len() && j != q && j != q + 1 ==> (#[trigger] on[j]) != k && on[j] != k + 1
            }
            &&& n >= k + 2 && !(stats[k].pixels > 0 && stats[k + 1].pixels > 0) ==> forall|j: int|
                0 <= j < on.len() ==> (#[trigger] now[j]) == exchanged(on[j] as int, k)
        }),
    decreases n,
{
    let with = exchange(stats, k);
    if n > 0 {
        lemma_live_exchanged(stats, k, n - 1);
        if n != k + 1 && n != k + 2 {
            assert(with[n - 1] == stats[n - 1]);
        } else {
            assert(with[k] == stats[k + 1]);
            assert(with[k + 1] == stats[k]);
        }
        if n == k + 2 {
            let base = live(stats, k);
            lemma_live_exchanged(stats, k, k);
            assert(live(with, k) == base);
            let mid = live(stats, k + 1);
            assert(mid == if stats[k].pixels > 0 {
                base.push(k as usize)
            } else {
                base
            });
            assert(live(with, k + 1) == if stats[k + 1].pixels > 0 {
                base.push(k as usize)
            } else {
                base
            });
        }
    }
}

/// The lists over the cameras with pixels are the same lists, but for the order of two.
proof fn lemma_lists_exchanged<T>(
    stats: Seq<CameraStats>,
    k: int,
    f: spec_fn(int) -> T,
    g: spec_fn(int) -> T,
)
    requires
        0 <= k,
        k + 1 < stats.len() <= usize::MAX,
        forall|i: int| 0 <= i < stats.len() ==> #[trigger] g(exchanged(i, k)) == f(i),
    ensures
        ({
            let on = live(stats, stats.len() as int);
            let now = live(exchange(stats, k), stats.len() as int);
            relisted(
                Seq::new(on.len(), |j: int| f(on[j] as int)),
                Seq::new(now.len(), |j: int| g(now[j] as int)),
            )
        }),
{
    let n = stats.len() as int;
    let on = live(stats, n);
    let now = live(exchange(stats, k), n);
    let v = Seq::new(on.len(), |j: int| f(on[j] as int));
    let w = Seq::new(now.len(), |j: int| g(now[j] as int));
    lemma_live_exchanged(stats, k, n);
    assert(exchanged(exchanged(k, k), k) == k);
    if stats[k].pixels > 0 && stats[k + 1].pixels > 0 {
        let q = live(stats, k).len() as int;
        assert(g(exchanged(k, k)) == f(k));
        assert(g(exchanged(k + 1, k)) == f(k + 1));
        assert forall|j: int| 0 <= j < w.len() implies w[j] == exchange(v, q)[j] by {
            if j != q && j != q + 1 {
                assert(g(exchanged(on[j] as int, k)) == f(on[j] as int));
            }
        }
        assert(w =~= exchange(v, q));
    } else {
        assert forall|j: int| 0 <= j < w.len() implies w[j] == v[j] by {
            assert(now[j] == exchanged(on[j] as int, k));
            assert(g(exchanged(on[j] as int, k)) == f(on[j] as int));
        }
        assert(w =~= v);
    }
}

proof fn lemma_relisted_balance(v: Seq<Option<(i64, i64)>>, w: Seq<Option<(i64, i64)>>)
    requires
        relisted(v, w),
        v.len() <= usize::MAX,
    ensures
        middle_balance(v) == middle_balance(w),
{
    if v != w {
        let q = choose|q: int| 0 <= q && q + 1 < v.len() && w == #[trigger] exchange(v, q);
        let n = v.len() as int;
        lemma_known_exchanged(v, q, n);
        let a = crate::autograde::known(v, n);
        let b = crate::autograde::known(w, n);
        lemma_known_short(v, n);
        if a != b {
            let p = choose|p: int| 0 <= p && p + 1 < a.len() && b == #[trigger] exchange(a, p);
            let ra = crate::autograde::reds(a);
            let rb = crate::autograde::reds(b);
            let ba = crate::autograde::blues(a);
            let bb = crate::autograde::blues(b);
            assert(rb =~= exchange(ra, p));
            assert(bb =~= exchange(ba, p));
            lemma_multiset_exchange(ra, p);
            lemma_multiset_exchange(ba, p);
            lemma_middle_halves_the_values(ra, rb);
            lemma_middle_halves_the_values(ba, bb);
        }
    }
}

proof fn lemma_known_short(v: Seq<Option<(i64, i64)>>, n: int)
    requires
        0 <= n,
    ensures
        crate::autograde::known(v, n).len() <= n,
    decreases n,
{
    if n > 0 {
        lemma_known_short(v, n - 1);
    }
}

proof fn lemma_known_exchanged(v: Seq<Option<(i64, i64)>>, q: int, n: int)
    requires
        0 <= q,
        q + 1 < v.len(),
        0 <= n <= v.len(),
    ensures
        n <= q ==> crate::autograde::known(exchange(v, q), n) == crate::autograde::known(v, n),
        n >= q + 2 ==> relisted(crate::autograde::known(v, n), crate::autograde::known(exchange(v, q), n)),
    decreases n,
{
    let w = exchange(v, q);
    if n > 0 {
        lemma_known_exchanged(v, q, n - 1);
        if n != q + 1 && n != q + 2 {
            assert(w[n - 1] == v[n - 1]);
            if n > q + 2 && v[n - 1] is Some {
                let a = crate::autograde::known(v, n - 1);
                let b = crate::autograde::known(w, n - 1);
                let x = v[n - 1]->0;
                if a != b {
                    let p = choose|p: int| 0 <= p && p + 1 < a.len() && b == #[trigger] exchange(a, p);
                    assert(b.push(x) =~= exchange(a.push(x), p));
                }
            }
        } else {
            assert(w[q] == v[q + 1]);
            assert(w[q + 1] == v[q]);
        }
        if n == q + 2 {
            lemma_known_exchanged(v, q, q);
            let base = crate::autograde::known(v, q);
            assert(crate::autograde::known(w, q) == base);
            let a = crate::autograde::known(v, q + 2);
            let b = crate::autograde::known(w, q + 2);
            assert(crate::autograde::known(v, q + 1) == match v[q] {
                Some(x) => base.push(x),
                None => base,
            });
            assert(crate::autograde::known(w, q + 1) == match v[q + 1] {
                Some(x) => base.push(x),
                None => base,
            });
            if v[q] is Some && v[q + 1] is Some {
                assert(b =~= exchange(a, base.len() as int));
            } else {
                assert(b =~= a);
            }
        }
    }
}

/// Which camera is which does not matter: where two cameras change places, so do their
/// grades, and nothing else changes. Together with the next exchange, and the next, this
/// goes for any order.
pub proof fn lemma_grades_follow_cameras(stats: Seq<CameraStats>, light: Seq<Light>, k: int, i: int)
    requires
        stats.len() == light.len() <= usize::MAX,
        0 <= k,
        k + 1 < stats.len(),
        0 <= i < stats.len(),
    ensures
        brightness(exchange(stats, k)) == brightness(stats),
        solution_of(exchange(stats, k), exchange(light, k), exchanged(i, k)) == solution_of(stats, light, i),
        grade_of(solution_of(exchange(stats, k), exchange(light, k), exchanged(i, k))) == grade_of(
            solution_of(stats, light, i),
        ),
{
    let with = exchange(stats, k);
    let lit = exchange(light, k);
    assert forall|j: int| 0 <= j < stats.len() implies with[#[trigger] exchanged(j, k)] == stats[j]
        && lit[exchanged(j, k)] == light[j] by {}
    lemma_lists_exchanged(
        stats,
        k,
        |j: int| stats[j].luma_mean() as i64,
        |j: int| with[j].luma_mean() as i64,
    );
    let on = live(stats, stats.len() as int);
    let now = live(with, stats.len() as int);
    assert(crate::autograde::means_of(stats) =~= Seq::new(
        on.len(),
        |j: int| (|j: int| stats[j].luma_mean() as i64)(on[j] as int),
    ));
    assert(crate::autograde::means_of(with) =~= Seq::new(
        now.len(),
        |j: int| (|j: int| with[j].luma_mean() as i64)(now[j] as int),
    ));
    lemma_relisted_average(crate::autograde::means_of(stats), crate::autograde::means_of(with));
    lemma_lists_exchanged(stats, k, |j: int| light[j].spread, |j: int| lit[j].spread);
    assert(crate::autograde::spreads_of(stats, light) =~= Seq::new(
        on.len(),
        |j: int| (|j: int| light[j].spread)(on[j] as int),
    ));
    assert(crate::autograde::spreads_of(with, lit) =~= Seq::new(
        now.len(),
        |j: int| (|j: int| lit[j].spread)(now[j] as int),
    ));
    lemma_relisted_average(crate::autograde::spreads_of(stats, light), crate::autograde::spreads_of(with, lit));
    assert forall|j: int| 0 <= j < stats.len() implies crate::autograde::chroma_in(
        with,
        lit,
        #[trigger] exchanged(j, k),
    ) == crate::autograde::chroma_in(stats, light, j) by {}
    lemma_lists_exchanged(
        stats,
        k,
        |j: int| crate::autograde::chroma_in(stats, light, j) as i64,
        |j: int| crate::autograde::chroma_in(with, lit, j) as i64,
    );
    assert(crate::autograde::chromas_of(stats, light) =~= Seq::new(
        on.len(),
        |j: int| (|j: int| crate::autograde::chroma_in(stats, light, j) as i64)(on[j] as int),
    ));
    assert(crate::autograde::chromas_of(with, lit) =~= Seq::new(
        now.len(),
        |j: int| (|j: int| crate::autograde::chroma_in(with, lit, j) as i64)(now[j] as int),
    ));
    lemma_relisted_average(crate::autograde::chromas_of(stats, light), crate::autograde::chromas_of(with, lit));
    lemma_lists_exchanged(
        stats,
        k,
        |j: int| stats[j].balance_in(light[j]),
        |j: int| with[j].balance_in(lit[j]),
    );
    assert(crate::autograde::balances_of(stats, light) =~= Seq::new(
        on.len(),
        |j: int| (|j: int| stats[j].balance_in(light[j]))(on[j] as int),
    ));
    assert(crate::autograde::balances_of(with, lit) =~= Seq::new(
        now.len(),
        |j: int| (|j: int| with[j].balance_in(lit[j]))(now[j] as int),
    ));
    lemma_live_short(stats, stats.len() as int);
    lemma_relisted_balance(crate::autograde::balances_of(stats, light), crate::autograde::balances_of(with, lit));
}

proof fn lemma_live_short(stats: Seq<CameraStats>, n: int)
    requires
        0 <= n,
    ensures
        live(stats, n).len() <= n,
    decreases n,
{
    if n > 0 {
        lemma_live_short(stats, n - 1);
    }
}

// ---------------------------------------------------------------- what a pixel counts

/// A step of a channel brightens by its share: 21.26 hundredths for red, 71.52 for green and
/// 7.22 for blue.
pub proof fn lemma_channels_have_their_share(r: int, g: int, b: int)
    ensures
        luma_of(0, 0, 0) == 0,
        luma_of(r + 1, g, b) - luma_of(r, g, b) == 2126,
        luma_of(r, g + 1, b) - luma_of(r, g, b) == 7152,
        luma_of(r, g, b + 1) - luma_of(r, g, b) == 722,
{
}

/// A pixel's bytes are red, green, blue and one that does not count. A mid-tone counts once
/// in each channel, under its value there, and in no other place; what is no mid-tone
/// counts in none.
pub proof fn lemma_pixels_are_red_green_blue(rgba: Seq<u8>, i: int, v: int)
    ensures
        ({
            let y = 2126 * rgba[4 * i] + 7152 * rgba[4 * i + 1] + 722 * rgba[4 * i + 2];
            let mid = 100 * y > 8 * 2_550_000 && 100 * y < 92 * 2_550_000;
            let counts = |b: bool|
                if b {
                    1int
                } else {
                    0int
                };
            &&& crate::autograde::weight(rgba, Tally::All, i) == 1
            &&& crate::autograde::weight(rgba, Tally::Mid, i) == counts(mid)
            &&& crate::autograde::weight(rgba, Tally::Red(v), i) == counts(mid && rgba[4 * i] == v)
            &&& crate::autograde::weight(rgba, Tally::Green(v), i) == counts(mid && rgba[4 * i + 1] == v)
            &&& crate::autograde::weight(rgba, Tally::Blue(v), i) == counts(mid && rgba[4 * i + 2] == v)
            &&& crate::autograde::weight(rgba, Tally::Visible, i) == counts(100 * y > 8 * 2_550_000)
            &&& crate::autograde::weight(rgba, Tally::Luma(v), i) == counts(-5000 <= y - 10_000 * v < 5000)
        }),
{
}

/// The average times the number of values is their sum, but for the rounding; and the mean
/// luma is the average over all pixels, in parts of white.
pub proof fn lemma_means_are_sums_over_counts(v: Seq<i64>, s: CameraStats)
    requires
        v.len() > 0,
        s.pixels > 0,
    ensures
        2 * size(average(v) * v.len() - list_sum(v)) <= v.len(),
        2 * size(s.luma_mean() * (255 * s.pixels) - weighted_upto(s.hist@, 256) * 1_000_000) <= 255 * s.pixels,
{
    crate::units::lemma_rounded_near(list_sum(v), v.len() as int);
    crate::units::lemma_rounded_near(weighted_upto(s.hist@, 256) * 1_000_000, 255 * s.pixels as int);
}

/// One more pixel adds its luma to the sum, and one to the count.
pub proof fn lemma_one_more_pixel_adds_its_luma(was: Seq<u64>, now: Seq<u64>, k: int, n: int)
    requires
        was.len() == now.len(),
        0 <= n <= was.len(),
        0 <= k < was.len(),
        now[k] == was[k] + 1,
        forall|j: int| 0 <= j < was.len() && j != k ==> #[trigger] now[j] == was[j],
    ensures
        weighted_upto(now, n) == weighted_upto(was, n) + if k < n {
            k
        } else {
            0
        },
        sum_upto(now, n) == sum_upto(was, n) + if k < n {
            1int
        } else {
            0
        },
    decreases n,
{
    if n > 0 {
        lemma_one_more_pixel_adds_its_luma(was, now, k, n - 1);
        if k == n - 1 {
            assert((n - 1) * (was[k] + 1) == (n - 1) * was[k] + (n - 1)) by (nonlinear_arith);
        } else {
            assert(now[n - 1] == was[n - 1]);
        }
    }
}

} // verus!
