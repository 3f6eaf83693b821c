//! What automatic grading makes of several cameras.

use crate::autograde::{
    balances_of, chroma_after, chroma_in, chromas_of, contrast_of, grade_of, known, live, means_of,
    middle_balance, solution_of, solution_ok, spreads_of, target_of, CameraStats, Light, Solution,
};
use crate::laws::grading::{
    lemma_camera_at_target_keeps_colour, lemma_hundredths_are_near, lemma_majority_is_the_middle,
};
use crate::order::{at_least, at_most};
use crate::units::{lemma_rounded_grows, lemma_rounded_near, lemma_rounded_whole, rounded, size};
use vstd::prelude::*;

verus! {

/// A grade holds what was worked out for its camera, to the hundredth, and leaves the rest
/// neutral.
pub proof fn lemma_grade_holds_what_was_worked_out(s: Solution)
    requires
        solution_ok(s),
    ensures
        2 * size(grade_of(s).exposure - s.exposure) <= 10_000,
        2 * size(grade_of(s).contrast - s.contrast) <= 10_000,
        2 * size(grade_of(s).saturation - s.saturation) <= 10_000,
        grade_of(s).lift == 0,
        grade_of(s).gamma == 1_000_000,
        grade_of(s).gain == 1_000_000,
{
    lemma_hundredths_are_near(s.exposure as int);
    lemma_hundredths_are_near(s.contrast as int);
    lemma_hundredths_are_near(s.saturation as int);
}

/// A camera is exposed as its light curve asks, within two and a half stops, and never
/// brightened further than its highlights allow.
pub proof fn lemma_highlights_limit_the_exposure(stats: Seq<CameraStats>, light: Seq<Light>, i: int)
    requires
        0 <= i < light.len(),
    ensures
        ({
            let e = solution_of(stats, light, i).exposure as int;
            let l = light[i];
            &&& -2_500_000 <= e <= 2_500_000
            &&& e <= 0 || e <= l.guard
            &&& e <= l.found || e == -2_500_000
            &&& -2_500_000 <= l.found <= 2_500_000 && (l.found <= 0 || l.found <= l.guard) ==> e == l.found
            &&& 0 <= l.guard <= l.found && l.guard <= 2_500_000 ==> e == l.guard
        }),
{
}

proof fn lemma_same_product(t: int, a: int, b: int)
    requires
        0 < a <= b,
        t >= 0,
    ensures
        rounded(t * 1_000_000, b) <= rounded(t * 1_000_000, a),
        2 * size(rounded(t * 1_000_000, a) * a - rounded(t * 1_000_000, b) * b) <= a + b,
{
    let n = t * 1_000_000;
    let p = rounded(n, a);
    let q = rounded(n, b);
    lemma_rounded_near(n, a);
    lemma_rounded_near(n, b);
    crate::units::lemma_rounded_ties(n, a);
    assert(0 * a == 0 && 0 * b == 0);
    lemma_rounded_whole(0, a);
    lemma_rounded_whole(0, b);
    lemma_rounded_grows(0, n, a);
    if n > 0 && q > p {
        assert(false) by (nonlinear_arith)
            requires
                q >= p + 1,
                p >= 0,
                2 * (n - p * a) < a,
                -b <= 2 * (n - q * b),
                0 < a <= b,
        ;
    }
}

/// Cameras come out with one contrast: of two, the flatter one never gets less, and where
/// neither is at its limit their spreads times their contrasts are the same, but for the
/// rounding.
pub proof fn lemma_cameras_come_out_with_one_contrast(stats: Seq<CameraStats>, light: Seq<Light>, i: int, j: int)
    requires
        0 <= i < light.len(),
        0 <= j < light.len(),
        50_000 <= light[i].spread <= light[j].spread,
    ensures
        ({
            let a = solution_of(stats, light, i).contrast as int;
            let b = solution_of(stats, light, j).contrast as int;
            &&& 950_000 <= b <= a <= 1_300_000
            &&& 950_000 < b && a < 1_300_000 ==> 2 * size(a * light[i].spread - b * light[j].spread)
                <= light[i].spread + light[j].spread
        }),
{
    let t = target_of(spreads_of(stats, light), 750_000, 850_000);
    lemma_same_product(t, light[i].spread as int, light[j].spread as int);
}

/// Cameras come out equally colourful: of two, the paler one never gets less saturation,
/// and where neither is at its limit their colours times their saturations are the same,
/// but for the rounding. What counts is the colour after exposure and contrast.
pub proof fn lemma_cameras_come_out_equally_colourful(stats: Seq<CameraStats>, light: Seq<Light>, i: int, j: int)
    requires
        10_000 <= chroma_in(stats, light, i) <= chroma_in(stats, light, j),
    ensures
        ({
            let a = solution_of(stats, light, i).saturation as int;
            let b = solution_of(stats, light, j).saturation as int;
            let x = chroma_in(stats, light, i);
            let y = chroma_in(stats, light, j);
            &&& 800_000 <= b <= a <= 1_500_000
            &&& 800_000 < b && a < 1_500_000 ==> 2 * size(a * x - b * y) <= x + y
        }),
{
    let t = target_of(chromas_of(stats, light), 120_000, 300_000);
    lemma_same_product(t, chroma_in(stats, light, i), chroma_in(stats, light, j));
}

/// Colour goes with brightness and contrast: a camera that is made as many times brighter
/// and contrastier becomes as many times more colourful, to the nearest; one that is left
/// as it is keeps its colour.
pub proof fn lemma_colour_goes_with_light(chroma: int, before: int, after: int, contrast: int)
    requires
        before >= 3922,
    ensures
        chroma_after(chroma, before, before, 1_000_000) == chroma,
        2 * size(chroma_after(chroma, before, after, contrast) * (before * 1_000_000) - chroma * after * contrast)
            <= before * 1_000_000,
{
    let d = before * 1_000_000;
    lemma_rounded_near(chroma * after * contrast, d);
    assert(chroma * before * 1_000_000 == chroma * d) by (nonlinear_arith)
        requires
            d == before * 1_000_000,
    ;
    lemma_rounded_whole(chroma, d);
}

/// The colour that counts for a camera is its own, after its own exposure and contrast.
pub proof fn lemma_colour_is_the_cameras_own(stats: Seq<CameraStats>, light: Seq<Light>, i: int)
    requires
        stats[i].luma_mean() >= 3922,
        light[i].after == stats[i].luma_mean(),
        solution_of(stats, light, i).contrast == 1_000_000,
        950_000 <= contrast_of(stats, light, i) <= 1_300_000,
    ensures
        chroma_in(stats, light, i) == stats[i].chroma_mean(),
{
    lemma_colour_goes_with_light(stats[i].chroma_mean(), stats[i].luma_mean(), light[i].after as int, 1_000_000);
}

/// Every camera of which a pixel was counted takes part in each target, once.
pub proof fn lemma_every_measured_camera_counts(stats: Seq<CameraStats>, light: Seq<Light>, i: int)
    requires
        stats.len() <= usize::MAX,
        0 <= i < stats.len(),
        stats[i].pixels > 0,
    ensures
        exists|k: int|
            {
                &&& 0 <= k < means_of(stats).len()
                &&& #[trigger] means_of(stats)[k] == stats[i].luma_mean() as i64
                &&& spreads_of(stats, light)[k] == light[i].spread
                &&& chromas_of(stats, light)[k] == chroma_in(stats, light, i) as i64
                &&& balances_of(stats, light)[k] == stats[i].balance_in(light[i])
            },
        means_of(stats).len() <= stats.len(),
        spreads_of(stats, light).len() == means_of(stats).len(),
        chromas_of(stats, light).len() == means_of(stats).len(),
        balances_of(stats, light).len() == means_of(stats).len(),
{
    let n = stats.len() as int;
    crate::autograde::lemma_live(stats, i, n);
    lemma_live_count(stats, n);
    let k = live(stats, i).len() as int;
    assert(live(stats, n)[k] == i);
    assert(means_of(stats)[k] == stats[i].luma_mean() as i64);
}

proof fn lemma_live_count(stats: Seq<CameraStats>, n: int)
    requires
        0 <= n <= stats.len() <= usize::MAX,
    ensures
        live(stats, n).len() <= n,
        forall|k: int|
            0 <= k < live(stats, n).len() ==> (#[trigger] live(stats, n)[k]) < n && stats[live(stats, n)[k] as int].pixels
                > 0,
    decreases n,
{
    if n > 0 {
        lemma_live_count(stats, n - 1);
        let was = live(stats, n - 1);
        let now = live(stats, n);
        assert forall|k: int| 0 <= k < now.len() implies (#[trigger] now[k]) < n && stats[now[k] as int].pixels > 0 by {
            if k < was.len() {
                assert(now[k] == was[k]);
            }
        }
    }
}

proof fn lemma_all_equal_counts(v: Seq<i64>, m: i64)
    requires
        forall|i: int| 0 <= i < v.len() ==> (#[trigger] v[i]) == m,
    ensures
        at_most(v, m as int) == v.len(),
        at_least(v, m as int) == v.len(),
    decreases v.len(),
{
    if v.len() > 0 {
        let w = v.drop_last();
        assert forall|i: int| 0 <= i < w.len() implies (#[trigger] w[i]) == m by {
            assert(w[i] == v[i]);
        }
        lemma_all_equal_counts(w, m);
        assert(v.last() == m);
    }
}

proof fn lemma_all_known(balances: Seq<Option<(i64, i64)>>, b: (i64, i64), n: int)
    requires
        0 <= n <= balances.len(),
        forall|i: int| 0 <= i < balances.len() ==> (#[trigger] balances[i]) == Some(b),
    ensures
        known(balances, n).len() == n,
        forall|i: int| 0 <= i < n ==> (#[trigger] known(balances, n)[i]) == b,
    decreases n,
{
    if n > 0 {
        lemma_all_known(balances, b, n - 1);
        assert(balances[n - 1] == Some(b));
        let was = known(balances, n - 1);
        let now = known(balances, n);
        assert forall|i: int| 0 <= i < n implies (#[trigger] now[i]) == b by {
            if i < n - 1 {
                assert(now[i] == was[i]);
            }
        }
    }
}

/// Cameras that agree on the colour of the light are left alone: where all have one
/// balance, no camera's temperature or tint is changed.
pub proof fn lemma_agreeing_cameras_keep_their_colour(
    stats: Seq<CameraStats>,
    light: Seq<Light>,
    b: (i64, i64),
    i: int,
)
    requires
        stats.len() <= usize::MAX,
        1000 <= b.0,
        1000 <= b.1,
        means_of(stats).len() >= 2,
        forall|k: int|
            0 <= k < stats.len() && (#[trigger] stats[k]).pixels > 0 ==> stats[k].balance_in(light[k]) == Some(b),
        0 <= i < stats.len(),
        stats[i].pixels > 0,
    ensures
        grade_of(solution_of(stats, light, i)).temperature == 0,
        grade_of(solution_of(stats, light, i)).tint == 0,
{
    let n = stats.len() as int;
    let on = live(stats, n);
    let balances = balances_of(stats, light);
    lemma_live_count(stats, n);
    assert forall|k: int| 0 <= k < balances.len() implies (#[trigger] balances[k]) == Some(b) by {
        assert(stats[on[k] as int].pixels > 0);
    }
    lemma_all_known(balances, b, balances.len() as int);
    let all = known(balances, balances.len() as int);
    let reds = crate::autograde::reds(all);
    let blues = crate::autograde::blues(all);
    assert forall|k: int| 0 <= k < reds.len() implies (#[trigger] reds[k]) == b.0 by {
        assert(all[k] == b);
    }
    assert forall|k: int| 0 <= k < blues.len() implies (#[trigger] blues[k]) == b.1 by {
        assert(all[k] == b);
    }
    lemma_all_equal_counts(reds, b.0);
    lemma_all_equal_counts(blues, b.1);
    lemma_majority_is_the_middle(reds, b.0);
    lemma_majority_is_the_middle(blues, b.1);
    assert(middle_balance(balances) == Some(b));
    lemma_camera_at_target_keeps_colour(solution_of(stats, light, i), b);
}

/// Without a second camera with a balance nothing is matched.
pub proof fn lemma_one_camera_keeps_its_colour(stats: Seq<CameraStats>, light: Seq<Light>, i: int)
    requires
        known(balances_of(stats, light), balances_of(stats, light).len() as int).len() < 2,
    ensures
        grade_of(solution_of(stats, light, i)).temperature == 0,
        grade_of(solution_of(stats, light, i)).tint == 0,
{
}

/// What is too small to divide by counts as the least that is not: a spread under a
/// twentieth, a colour under a hundredth, a mean under one step of the pixel values, and a
/// channel ratio under a thousandth.
pub proof fn lemma_small_measures_count_as_the_least(v: Seq<i64>, own: int, chroma: int, after: int, contrast: int, goal: int)
    ensures
        own <= 50_000 ==> crate::autograde::contrast_among(v, own) == crate::autograde::contrast_among(v, 50_000),
        own <= 10_000 ==> crate::autograde::saturation_among(v, own) == crate::autograde::saturation_among(v, 10_000),
        own <= 3922 ==> chroma_after(chroma, own, after, contrast) == chroma_after(chroma, 3922, after, contrast),
        own <= 1000 ==> crate::autograde::halfway(goal, own) == crate::autograde::halfway(goal, 1000),
{
}

/// Nothing that was measured is nothing: without pixels the mean is zero, without visible
/// ones the colour is.
pub proof fn lemma_nothing_measured_is_nothing(s: CameraStats)
    ensures
        s.pixels == 0 ==> s.luma_mean() == 0,
        s.chroma_n == 0 ==> s.chroma_mean() == 0,
        crate::autograde::average(seq![]) == 0,
{
}

} // verus!
