//! Placing the clips of one camera.

use crate::arrange::{
    arrangement, best_choice, gap_bonus, last_placed, placed_clip, score, span, usable, valid_choice,
    wishes_clear, Arranged, ClipInfo, Placement, SyncResult,
};
use crate::placement::{anchor, first_placed};
use crate::units::size;
use vstd::prelude::*;

verus! {

/// What two offsets earn that are `found` apart, for clips that were recorded at `a` and
/// `b`: a bonus where the two distances agree to within three seconds.
pub open spec fn earned(found: int, a: Option<i64>, b: Option<i64>) -> int {
    match (a, b) {
        (Some(x), Some(y)) => if size(found - (y - x)) <= 3_000_000 {
            150_000
        } else {
            0
        },
        _ => 0,
    }
}

/// A pair of candidates earns the bonus exactly where the distance between the found gap
/// and the recorded one, in either direction, is at most three seconds. So a gap that is
/// short by some amount and one that is long by it earn the same, and nothing is earned
/// without recording times.
pub proof fn lemma_bonus_looks_both_ways(
    clips: Seq<ClipInfo>,
    j: int,
    prev: SyncResult,
    i: int,
    next: SyncResult,
    mirrored: SyncResult,
)
    ensures
        gap_bonus(clips, j, prev, i, next) == earned(
            next.offset - prev.offset,
            clips[j].start_time,
            clips[i].start_time,
        ),
        clips[j].start_time is Some && clips[i].start_time is Some && (mirrored.offset - prev.offset) - (
        clips[i].start_time->0 - clips[j].start_time->0) == -((next.offset - prev.offset) - (
        clips[i].start_time->0 - clips[j].start_time->0)) ==> gap_bonus(clips, j, prev, i, mirrored) == gap_bonus(
            clips,
            j,
            prev,
            i,
            next,
        ),
{
}

/// The candidates that may place a clip are those of at least a quarter confidence, all
/// of them.
pub proof fn lemma_usable_candidates(candidates: Seq<SyncResult>, r: SyncResult)
    ensures
        usable(candidates).contains(r) <==> candidates.contains(r) && r.confidence >= 250_000,
{
    let keep = |x: SyncResult| x.confidence >= crate::arrange::MIN_CONFIDENCE;
    if usable(candidates).contains(r) {
        let k = choose|k: int| 0 <= k < usable(candidates).len() && usable(candidates)[k] == r;
        candidates.lemma_filter_pred(keep, k);
        candidates.lemma_filter_contains_rev(keep, r);
    }
    if candidates.contains(r) && r.confidence >= 250_000 {
        let k = choose|k: int| 0 <= k < candidates.len() && candidates[k] == r;
        assert(keep(candidates[k]));
        candidates.lemma_filter_contains(keep, k);
    }
}

/// What clip `i` adds to the score with candidate `x`, between the matches beside it.
spec fn worth(
    clips: Seq<ClipInfo>,
    lists: Seq<Seq<SyncResult>>,
    choice: Seq<Option<usize>>,
    i: int,
    x: Option<usize>,
) -> int {
    let p = last_placed(choice, i);
    let q = first_placed(choice, i + 1);
    match x {
        None => match (p, q) {
            (Some(j), Some(k)) => bonus(clips, lists, choice, j, k),
            _ => 0,
        },
        Some(c) => {
            let r = lists[i][c as int];
            r.confidence + (match p {
                Some(j) => gap_bonus(clips, j, lists[j][choice[j]->0 as int], i, r),
                None => 0,
            }) + (match q {
                Some(k) => gap_bonus(clips, i, r, k, lists[k][choice[k]->0 as int]),
                None => 0,
            })
        },
    }
}

spec fn bonus(
    clips: Seq<ClipInfo>,
    lists: Seq<Seq<SyncResult>>,
    choice: Seq<Option<usize>>,
    j: int,
    k: int,
) -> int {
    gap_bonus(clips, j, lists[j][choice[j]->0 as int], k, lists[k][choice[k]->0 as int])
}

proof fn lemma_tail(
    clips: Seq<ClipInfo>,
    lists: Seq<Seq<SyncResult>>,
    a: Seq<Option<usize>>,
    b: Seq<Option<usize>>,
    m: int,
    n: int,
)
    requires
        0 < m <= n <= a.len(),
        a.len() == b.len(),
        forall|k: int| m - 1 <= k < n ==> #[trigger] a[k] == b[k],
        a[m - 1] is Some,
    ensures
        score(clips, lists, a, n) - score(clips, lists, a, m) == score(clips, lists, b, n) - score(
            clips,
            lists,
            b,
            m,
        ),
        last_placed(a, n) == last_placed(b, n),
        last_placed(a, n) matches Some(j) && m - 1 <= j < n,
    decreases n - m,
{
    if m < n {
        lemma_tail(clips, lists, a, b, m, n - 1);
        assert(a[n - 1] == b[n - 1]);
        let j = last_placed(a, n - 1)->0;
        assert(a[j] == b[j]);
    }
}

proof fn lemma_split(
    clips: Seq<ClipInfo>,
    lists: Seq<Seq<SyncResult>>,
    choice: Seq<Option<usize>>,
    i: int,
)
    requires
        0 <= i < choice.len(),
    ensures
        match first_placed(choice, i + 1) {
            Some(q) => score(clips, lists, choice, q + 1) == score(clips, lists, choice, i) + worth(
                clips,
                lists,
                choice,
                i,
                choice[i],
            ) + lists[q][choice[q]->0 as int].confidence,
            None => score(clips, lists, choice, choice.len() as int) == score(clips, lists, choice, i) + worth(
                clips,
                lists,
                choice,
                i,
                choice[i],
            ),
        },
{
    crate::placement::lemma_first_placed(choice, i + 1);
    crate::arrange::lemma_last_placed(choice, i);
    let end = match first_placed(choice, i + 1) {
        Some(q) => q,
        None => choice.len() as int,
    };
    crate::arrange::lemma_skip(clips, lists, choice, i + 1, end);
}

/// Changing the candidate of one clip keeps a choice valid where the new one keeps clear
/// of the matches beside it.
proof fn lemma_change_is_valid(
    clips: Seq<ClipInfo>,
    lists: Seq<Seq<SyncResult>>,
    choice: Seq<Option<usize>>,
    i: int,
    c: usize,
)
    requires
        valid_choice(clips, lists, choice),
        0 <= i < choice.len(),
        c < lists[i].len(),
        last_placed(choice, i) matches Some(p) ==> lists[i][c as int].offset + 500_000
            >= lists[p][choice[p]->0 as int].offset + span(clips, p, i),
        first_placed(choice, i + 1) matches Some(q) ==> lists[q][choice[q]->0 as int].offset + 500_000
            >= lists[i][c as int].offset + span(clips, i, q),
    ensures
        valid_choice(clips, lists, choice.update(i, Some(c))),
{
    let with = choice.update(i, Some(c));
    assert forall|k: int| 0 <= k < with.len() && (#[trigger] with[k]) is Some implies {
        &&& with[k]->0 < lists[k].len()
        &&& last_placed(with, k) matches Some(j) ==> crate::arrange::follows(
            lists[j][with[j]->0 as int],
            span(clips, j, k),
            lists[k][with[k]->0 as int],
        )
    } by {
        crate::arrange::lemma_last_placed(with, k);
        crate::arrange::lemma_last_placed(choice, k);
        crate::placement::lemma_first_placed(choice, i + 1);
        if k == i {
            lemma_same_last(choice, with, k);
        } else if k < i {
            assert(choice[k] is Some);
            lemma_same_last(choice, with, k);
            if last_placed(choice, k) is Some {
                let j = last_placed(choice, k)->0;
                assert(with[j] == choice[j]);
            }
        } else {
            assert(choice[k] is Some);
            let q = first_placed(choice, i + 1)->0;
            assert(q <= k) by {
                if first_placed(choice, i + 1) is None || q > k {
                    assert(choice[k] is None);
                }
            }
            if k == q {
                assert(last_placed(with, k) == Some(i)) by {
                    let j = last_placed(with, k);
                    if j is None {
                        assert(with[i] is None);
                    } else if j->0 < i {
                        assert(with[i] is None);
                    } else if j->0 > i {
                        assert(choice[j->0] is None);
                    }
                }
            } else {
                let j = last_placed(with, k);
                if j is None {
                    assert(with[q] is None);
                } else if j->0 < q {
                    assert(with[q] is None);
                }
                let o = last_placed(choice, k);
                if o is None {
                    assert(choice[q] is None);
                } else if o->0 < q {
                    assert(choice[q] is None);
                }
                assert(with[j->0] == choice[j->0]);
                assert(with[o->0] == choice[o->0]);
                assert(j == o) by {
                    if j->0 < o->0 {
                        assert(with[o->0] is None);
                    } else if o->0 < j->0 {
                        assert(choice[j->0] is None);
                    }
                }
            }
        }
    }
}

proof fn lemma_same_last(a: Seq<Option<usize>>, b: Seq<Option<usize>>, k: int)
    requires
        0 <= k <= a.len(),
        a.len() == b.len(),
        forall|m: int| 0 <= m < k ==> #[trigger] a[m] == b[m],
    ensures
        last_placed(a, k) == last_placed(b, k),
    decreases k,
{
    if k > 0 {
        assert(a[k - 1] == b[k - 1]);
        lemma_same_last(a, b, k - 1);
    }
}

proof fn lemma_same_first(a: Seq<Option<usize>>, b: Seq<Option<usize>>, k: int)
    requires
        0 <= k <= a.len(),
        a.len() == b.len(),
        forall|m: int| k <= m < a.len() ==> #[trigger] a[m] == b[m],
    ensures
        first_placed(a, k) == first_placed(b, k),
    decreases a.len() - k,
{
    if k < a.len() {
        assert(a[k] == b[k]);
        lemma_same_first(a, b, k + 1);
    }
}

proof fn lemma_no_change_is_better(
    clips: Seq<ClipInfo>,
    lists: Seq<Seq<SyncResult>>,
    choice: Seq<Option<usize>>,
    i: int,
    c: usize,
)
    requires
        best_choice(clips, lists, choice),
        0 <= i < clips.len(),
        c < lists[i].len(),
        last_placed(choice, i) matches Some(p) ==> lists[i][c as int].offset + 500_000
            >= lists[p][choice[p]->0 as int].offset + span(clips, p, i),
        first_placed(choice, i + 1) matches Some(q) ==> lists[q][choice[q]->0 as int].offset + 500_000
            >= lists[i][c as int].offset + span(clips, i, q),
    ensures
        worth(clips, lists, choice, i, Some(c)) <= worth(clips, lists, choice, i, choice[i]),
{
    let n = clips.len() as int;
    let with = choice.update(i, Some(c));
    lemma_change_is_valid(clips, lists, choice, i, c);
    assert(score(clips, lists, with, n) <= score(clips, lists, choice, n));
    lemma_same_last(choice, with, i);
    lemma_same_first(choice, with, i + 1);
    crate::arrange::lemma_prefix(clips, lists, choice, with, i);
    crate::arrange::lemma_last_placed(choice, i);
    crate::placement::lemma_first_placed(choice, i + 1);
    lemma_split(clips, lists, choice, i);
    lemma_split(clips, lists, with, i);
    match first_placed(choice, i + 1) {
        Some(q) => {
            assert(with[q] == choice[q]);
            lemma_tail(clips, lists, choice, with, q + 1, n);
            assert(worth(clips, lists, with, i, Some(c)) == worth(clips, lists, choice, i, Some(c)));
        },
        None => {
            assert(worth(clips, lists, with, i, Some(c)) == worth(clips, lists, choice, i, Some(c)));
        },
    }
}

/// No other candidate of a matched clip would have been better: one that keeps clear of
/// the matches beside the clip has no more confidence than the one that was taken, the
/// bonuses for the gaps on both sides counted, each where the found gap and the recorded
/// one differ by three seconds at most.
pub proof fn lemma_better_candidate_is_taken(
    clips: Seq<ClipInfo>,
    lists: Seq<Seq<SyncResult>>,
    current: Seq<i64>,
    choice: Seq<Option<usize>>,
    out: Seq<Arranged>,
    i: int,
    c: usize,
)
    requires
        arrangement(clips, lists, current, choice, out),
        0 <= i < clips.len(),
        c < lists[i].len(),
        out[i].placement == Placement::Audio,
        last_placed(choice, i) matches Some(p) ==> lists[i][c as int].offset + 500_000 >= out[p].offset + span(
            clips,
            p,
            i,
        ),
        first_placed(choice, i + 1) matches Some(q) ==> out[q].offset + 500_000 >= lists[i][c as int].offset
            + span(clips, i, q),
    ensures
        ({
            let other = lists[i][c as int];
            let before = |t: int|
                match last_placed(choice, i) {
                    Some(p) => earned(t - out[p].offset, clips[p].start_time, clips[i].start_time),
                    None => 0int,
                };
            let behind = |t: int|
                match first_placed(choice, i + 1) {
                    Some(q) => earned(out[q].offset - t, clips[i].start_time, clips[q].start_time),
                    None => 0int,
                };
            other.confidence + before(other.offset as int) + behind(other.offset as int) <= out[i].confidence
                + before(out[i].offset as int) + behind(out[i].offset as int)
        }),
{
    lemma_matches_show(clips, lists, current, choice, out, i);
    lemma_no_change_is_better(clips, lists, choice, i, c);
}

proof fn lemma_matches_show(
    clips: Seq<ClipInfo>,
    lists: Seq<Seq<SyncResult>>,
    current: Seq<i64>,
    choice: Seq<Option<usize>>,
    out: Seq<Arranged>,
    i: int,
)
    requires
        arrangement(clips, lists, current, choice, out),
        0 <= i < clips.len(),
    ensures
        last_placed(choice, i) matches Some(p) ==> 0 <= p < i && choice[p] is Some && out[p].offset
            == lists[p][choice[p]->0 as int].offset,
        first_placed(choice, i + 1) matches Some(q) ==> i < q < clips.len() && choice[q] is Some && out[q].offset
            == lists[q][choice[q]->0 as int].offset,
        out[i].placement == Placement::Audio <==> choice[i] is Some,
        choice[i] matches Some(c) ==> out[i].offset == lists[i][c as int].offset && out[i].confidence
            == lists[i][c as int].confidence,
{
    crate::arrange::lemma_last_placed(choice, i);
    crate::placement::lemma_first_placed(choice, i + 1);
    assert(placed_clip(clips, lists, current, choice, i, out[i]));
    if last_placed(choice, i) is Some {
        let p = last_placed(choice, i)->0;
        assert(placed_clip(clips, lists, current, choice, p, out[p]));
    }
    if first_placed(choice, i + 1) is Some {
        let q = first_placed(choice, i + 1)->0;
        assert(placed_clip(clips, lists, current, choice, q, out[q]));
    }
}

/// No clip is left without its match for nothing: every usable candidate of a clip that
/// is not placed by audio would overlap, by more than half a second, the match before it
/// or the one behind it, the clips in between counted.
pub proof fn lemma_no_match_is_left_out(
    clips: Seq<ClipInfo>,
    lists: Seq<Seq<SyncResult>>,
    current: Seq<i64>,
    choice: Seq<Option<usize>>,
    out: Seq<Arranged>,
    i: int,
    c: usize,
)
    requires
        arrangement(clips, lists, current, choice, out),
        0 <= i < clips.len(),
        c < lists[i].len(),
        lists[i][c as int].confidence >= 250_000,
        out[i].placement != Placement::Audio,
    ensures
        (last_placed(choice, i) matches Some(p) && lists[i][c as int].offset + 500_000 < out[p].offset + span(
            clips,
            p,
            i,
        )) || (first_placed(choice, i + 1) matches Some(q) && out[q].offset + 500_000 < lists[i][c as int].offset
            + span(clips, i, q)),
{
    lemma_matches_show(clips, lists, current, choice, out, i);
    let near = last_placed(choice, i) matches Some(p) && lists[i][c as int].offset + 500_000 < out[p].offset + span(
        clips,
        p,
        i,
    );
    let far = first_placed(choice, i + 1) matches Some(q) && out[q].offset + 500_000 < lists[i][c as int].offset
        + span(clips, i, q);
    if !near && !far {
        lemma_no_change_is_better(clips, lists, choice, i, c);
    }
}

/// A clip that is placed by audio is where one of its usable candidates says, with that
/// candidate's confidence.
pub proof fn lemma_match_is_a_candidate(
    clips: Seq<ClipInfo>,
    candidates: Seq<Vec<SyncResult>>,
    current: Seq<i64>,
    choice: Seq<Option<usize>>,
    out: Seq<Arranged>,
    i: int,
)
    requires
        arrangement(clips, crate::arrange::usable_lists(candidates, clips.len()), current, choice, out),
        0 <= i < clips.len(),
        out[i].placement == Placement::Audio,
    ensures
        exists|k: int|
            {
                &&& 0 <= k < candidates[i]@.len()
                &&& (#[trigger] candidates[i]@[k]).offset == out[i].offset
                &&& candidates[i]@[k].confidence == out[i].confidence
                &&& candidates[i]@[k].confidence >= 250_000
            },
{
    let lists = crate::arrange::usable_lists(candidates, clips.len());
    assert(placed_clip(clips, lists, current, choice, i, out[i]));
    let c = choice[i]->0 as int;
    assert(choice[i]->0 < lists[i].len());
    let r = usable(candidates[i]@)[c];
    assert(usable(candidates[i]@).contains(r));
    lemma_usable_candidates(candidates[i]@, r);
}

/// A clip without a match leans on the nearest clip that has one; of two that are equally
/// near, on the earlier.
pub proof fn lemma_anchor_is_nearest(choice: Seq<Option<usize>>, i: int, k: int)
    requires
        0 <= i < choice.len(),
        0 <= k < choice.len(),
        choice[i] is None,
        choice[k] is Some,
    ensures
        anchor(choice, i) matches Some(a) && 0 <= a < choice.len() && choice[a] is Some && size(a - i) <= size(k - i)
            && (size(a - i) == size(k - i) ==> a <= k),
{
    crate::arrange::lemma_last_placed(choice, i);
    crate::placement::lemma_first_placed(choice, i);
}

/// Without recording times clips lie end to end: where nothing is in the way, each starts
/// where the one before it ends.
pub proof fn lemma_unstamped_clips_lie_end_to_end(
    clips: Seq<ClipInfo>,
    lists: Seq<Seq<SyncResult>>,
    current: Seq<i64>,
    choice: Seq<Option<usize>>,
    out: Seq<Arranged>,
    i: int,
)
    requires
        arrangement(clips, lists, current, choice, out),
        0 <= i,
        i + 1 < clips.len(),
        out[i].placement != Placement::Unknown,
        wishes_clear(clips, lists, choice),
        anchor(choice, i) == anchor(choice, i + 1),
        clips[anchor(choice, i)->0].start_time is None,
    ensures
        out[i + 1].offset == out[i].offset + clips[i].duration,
{
    crate::arrange::lemma_out_settled(clips, lists, current, choice, out, i, i);
    crate::arrange::lemma_out_settled(clips, lists, current, choice, out, i, i + 1);
    crate::arrange::lemma_clear_places_are_kept(clips, lists, current, choice, out, i);
    crate::arrange::lemma_clear_places_are_kept(clips, lists, current, choice, out, i + 1);
    crate::arrange::lemma_last_placed(choice, i);
    crate::placement::lemma_first_placed(choice, i);
    crate::arrange::lemma_last_placed(choice, i + 1);
    crate::placement::lemma_first_placed(choice, i + 1);
    let a = anchor(choice, i)->0;
    assert(span(clips, i, i) == 0);
    assert(span(clips, i, i + 1) == clips[i].duration);
    assert(span(clips, i + 1, i + 1) == 0);
    if a <= i {
        crate::arrange::lemma_span_split(clips, a, i, i + 1);
    } else {
        crate::arrange::lemma_span_split(clips, i, i + 1, a);
    }
}

/// Recorded time is the clips' own: from one clip to a later one it is the sum of the
/// lengths from the first up to the later one.
pub proof fn lemma_recorded_time_adds_up(clips: Seq<ClipInfo>, j: int, k: int, i: int)
    requires
        j <= k <= i,
    ensures
        span(clips, j, j) == 0,
        span(clips, k, k + 1) == clips[k].duration,
        span(clips, j, i) == span(clips, j, k) + span(clips, k, i),
{
    crate::arrange::lemma_span_split(clips, j, k, i);
    assert(span(clips, k, k) == 0);
}

/// Matched clips overlap by half a second at most, and as much is allowed: a candidate for
/// the second of two clips that overlaps the first one's by no more is taken with it, and
/// one that overlaps by more is not.
pub proof fn lemma_half_a_second_may_overlap(
    clips: Seq<ClipInfo>,
    lists: Seq<Seq<SyncResult>>,
    choice: Seq<Option<usize>>,
)
    requires
        clips.len() == 2,
        lists.len() == 2,
        lists[0].len() == 1,
        lists[1].len() == 1,
        lists[0][0].confidence > 0,
        lists[1][0].confidence > 0,
        best_choice(clips, lists, choice),
    ensures
        choice[0] is Some && choice[1] is Some <==> lists[1][0].offset + 500_000 >= lists[0][0].offset
            + clips[0].duration,
        choice[0] is Some || choice[1] is Some,
        choice[0] is None ==> lists[1][0].confidence >= lists[0][0].confidence,
        choice[1] is None ==> lists[0][0].confidence >= lists[1][0].confidence,
{
    let a: Seq<Option<usize>> = seq![Some(0usize), Some(0usize)];
    let b: Seq<Option<usize>> = seq![Some(0usize), None];
    let c: Seq<Option<usize>> = seq![None, Some(0usize)];
    reveal_with_fuel(score, 3);
    reveal_with_fuel(last_placed, 3);
    reveal_with_fuel(span, 3);
    assert(valid_choice(clips, lists, b));
    assert(valid_choice(clips, lists, c));
    if lists[1][0].offset + 500_000 >= lists[0][0].offset + clips[0].duration {
        assert(valid_choice(clips, lists, a));
    }
    assert(valid_choice(clips, lists, choice));
    if choice[0] is Some {
        assert(choice[0]->0 == 0);
    }
    if choice[1] is Some {
        assert(choice[1]->0 == 0);
    }
}

} // verus!
