//! Places the clips of one camera on the master timeline.
//!
//! Every clip comes with candidate offsets found by matching its audio. The
//! clips were recorded one after another, so they cannot overlap: the best
//! combination of candidates that respects this is chosen, and clips without a
//! usable candidate are placed next to their nearest matched sibling, clear of their
//! neighbours.

use crate::placement::{
    anchor, earliest, first_placed, latest, leans_back, lemma_backward_above, lemma_first_placed,
    lemma_forward_below, lemma_settled_clear, lemma_settled_moves, placeable, settle_clips, settled, wish,
};
use vstd::prelude::*;

verus! {

/// Times are whole microseconds; no time handed to this library is larger.
pub const TIME_LIMIT: i64 = 1_000_000_000_000_000_000;

/// Candidates below this confidence are not used to place a clip.
pub const MIN_CONFIDENCE: u32 = 250_000;

/// Consecutive clips may overlap by this much (metadata rounding).
pub const OVERLAP_TOL: i64 = 500_000;

/// Bonus when the found gap between two clips agrees with their timestamps.
pub const TIMESTAMP_BONUS: u32 = 150_000;

/// How closely the found gap has to agree with the timestamps.
pub const TIMESTAMP_TOL: i64 = 3_000_000;

/// One possible position of a clip on the master timeline.
#[derive(Debug, Clone, Copy, PartialEq, Eq, Structural)]
pub struct SyncResult {
    /// Microseconds into the master where the clip starts. Negative: the clip
    /// starts earlier.
    pub offset: i64,
    /// Share of the clip's chunks that agree on this offset, in millionths.
    pub confidence: u32,
}

/// What [`arrange`] needs to know about a clip besides its candidates.
#[derive(Debug, Clone, Copy)]
pub struct ClipInfo {
    /// Microseconds.
    pub duration: i64,
    /// Recording start in microseconds on any camera-consistent clock.
    pub start_time: Option<i64>,
}

/// How a clip got its offset.
#[derive(Debug, Clone, Copy, PartialEq, Eq, Structural)]
pub enum Placement {
    /// Matched by audio.
    Audio,
    /// No usable match; positioned from timestamps next to a matched sibling.
    Timestamp,
    /// No match and nothing to lean on; offset left unchanged.
    Unknown,
}

/// The position of one clip.
#[derive(Debug, Clone, Copy, PartialEq, Eq, Structural)]
pub struct Arranged {
    pub offset: i64,
    pub confidence: u32,
    pub placement: Placement,
}

/// The candidates that may place a clip.
pub open spec fn usable(candidates: Seq<SyncResult>) -> Seq<SyncResult> {
    candidates.filter(|r: SyncResult| r.confidence >= MIN_CONFIDENCE)
}

/// The usable candidates of each of the first `n` clips.
pub open spec fn usable_lists(candidates: Seq<Vec<SyncResult>>, n: nat) -> Seq<Seq<SyncResult>> {
    Seq::new(n, |i: int| usable(candidates[i]@))
}

/// Recorded time from the start of clip `j` to the start of clip `i`, without pauses.
pub open spec fn span(clips: Seq<ClipInfo>, j: int, i: int) -> int
    decreases i - j,
{
    if i <= j {
        0
    } else {
        span(clips, j, i - 1) + clips[i - 1].duration
    }
}

/// Sum of the durations' sizes of the first `n` clips.
pub open spec fn total_length(clips: Seq<ClipInfo>, n: int) -> int
    decreases n,
{
    if n <= 0 {
        0
    } else {
        let d = clips[n - 1].duration as int;
        total_length(clips, n - 1) + if d < 0 {
            -d
        } else {
            d
        }
    }
}

/// The last clip before `i` that `choice` places by audio.
pub open spec fn last_placed(choice: Seq<Option<usize>>, i: int) -> Option<int>
    decreases i,
{
    if i <= 0 {
        None
    } else if choice[i - 1] is Some {
        Some(i - 1)
    } else {
        last_placed(choice, i - 1)
    }
}

/// A clip at `next` can follow, `gap` of recorded time later, one at `prev`.
pub open spec fn follows(prev: SyncResult, gap: int, next: SyncResult) -> bool {
    next.offset >= prev.offset + gap - OVERLAP_TOL
}

/// The gap between two offsets agrees with the recording times.
pub open spec fn gap_agrees(
    prev: SyncResult,
    next: SyncResult,
    prev_start: Option<i64>,
    next_start: Option<i64>,
) -> bool {
    &&& prev_start is Some
    &&& next_start is Some
    &&& -TIMESTAMP_TOL <= (next.offset - prev.offset) - (next_start->0 - prev_start->0)
        <= TIMESTAMP_TOL
}

/// What placing `next` after `prev` adds to the score besides its confidence.
pub open spec fn gap_bonus(clips: Seq<ClipInfo>, j: int, prev: SyncResult, i: int, next: SyncResult) -> int {
    if gap_agrees(prev, next, clips[j].start_time, clips[i].start_time) {
        TIMESTAMP_BONUS as int
    } else {
        0
    }
}

/// `choice` picks existing candidates, and no clip placed by audio overlaps the
/// one placed before it.
pub open spec fn valid_choice(
    clips: Seq<ClipInfo>,
    lists: Seq<Seq<SyncResult>>,
    choice: Seq<Option<usize>>,
) -> bool {
    forall|i: int|
        0 <= i < choice.len() && (#[trigger] choice[i]) is Some ==> {
            &&& choice[i]->0 < lists[i].len()
            &&& last_placed(choice, i) matches Some(j) ==> follows(
                lists[j][choice[j]->0 as int],
                span(clips, j, i),
                lists[i][choice[i]->0 as int],
            )
        }
}

/// Score of the first `i` entries of `choice`: confidences plus bonuses.
pub open spec fn score(
    clips: Seq<ClipInfo>,
    lists: Seq<Seq<SyncResult>>,
    choice: Seq<Option<usize>>,
    i: int,
) -> int
    decreases i,
{
    if i <= 0 {
        0
    } else {
        let before = score(clips, lists, choice, i - 1);
        match choice[i - 1] {
            None => before,
            Some(c) => {
                let next = lists[i - 1][c as int];
                before + next.confidence + match last_placed(choice, i - 1) {
                    None => 0int,
                    Some(j) => gap_bonus(clips, j, lists[j][choice[j]->0 as int], i - 1, next),
                }
            },
        }
    }
}

/// `choice` is valid for all clips and no valid choice scores higher.
pub open spec fn best_choice(
    clips: Seq<ClipInfo>,
    lists: Seq<Seq<SyncResult>>,
    choice: Seq<Option<usize>>,
) -> bool {
    &&& choice.len() == clips.len()
    &&& valid_choice(clips, lists, choice)
    &&& forall|other: Seq<Option<usize>>|
        other.len() == clips.len() && #[trigger] valid_choice(clips, lists, other) ==> score(
            clips,
            lists,
            other,
            clips.len() as int,
        ) <= score(clips, lists, choice, clips.len() as int)
}

/// What `choice` makes of clip `i`.
pub open spec fn placed_clip(
    clips: Seq<ClipInfo>,
    lists: Seq<Seq<SyncResult>>,
    current: Seq<i64>,
    choice: Seq<Option<usize>>,
    i: int,
    r: Arranged,
) -> bool {
    match choice[i] {
        Some(c) => {
            &&& r.placement == Placement::Audio
            &&& r.offset == lists[i][c as int].offset
            &&& r.confidence == lists[i][c as int].confidence
        },
        None => {
            &&& r.confidence == 0
            &&& match anchor(choice, i) {
                Some(_) => {
                    &&& r.placement == Placement::Timestamp
                    &&& r.offset == settled(clips, lists, choice, i)
                },
                None => {
                    &&& r.placement == Placement::Unknown
                    &&& r.offset == if i < current.len() {
                        current[i] as int
                    } else {
                        0
                    }
                },
            }
        },
    }
}

/// `out` is what some best choice makes of the clips.
pub open spec fn arrangement(
    clips: Seq<ClipInfo>,
    lists: Seq<Seq<SyncResult>>,
    current: Seq<i64>,
    choice: Seq<Option<usize>>,
    out: Seq<Arranged>,
) -> bool {
    &&& best_choice(clips, lists, choice)
    &&& out.len() == clips.len()
    &&& forall|i: int|
        0 <= i < clips.len() ==> placed_clip(clips, lists, current, choice, i, #[trigger] out[i])
}

/// Times within the limit.
pub open spec fn in_limit(t: int) -> bool {
    -TIME_LIMIT <= t <= TIME_LIMIT
}

/// All times of the clips and candidates are within the limit.
pub open spec fn arrangeable(clips: Seq<ClipInfo>, candidates: Seq<Vec<SyncResult>>) -> bool {
    &&& clips.len() <= candidates.len()
    &&& total_length(clips, clips.len() as int) <= TIME_LIMIT
    &&& forall|i: int|
        0 <= i < clips.len() ==> ((#[trigger] clips[i]).start_time matches Some(t) ==> in_limit(t as int))
    &&& forall|i: int, k: int|
        0 <= i < clips.len() && 0 <= k < candidates[i]@.len() ==> in_limit(
            (#[trigger] candidates[i]@[k]).offset as int,
        )
}

pub(crate) proof fn lemma_span_split(clips: Seq<ClipInfo>, j: int, k: int, i: int)
    requires
        j <= k <= i,
    ensures
        span(clips, j, i) == span(clips, j, k) + span(clips, k, i),
    decreases i - k,
{
    if k < i {
        lemma_span_split(clips, j, k, i - 1);
    }
}

pub(crate) proof fn lemma_span_bound(clips: Seq<ClipInfo>, j: int, i: int, n: int)
    requires
        0 <= j <= i <= n <= clips.len(),
    ensures
        -total_length(clips, n) <= -total_length(clips, i) <= span(clips, j, i),
        span(clips, j, i) <= total_length(clips, i) <= total_length(clips, n),
    decreases (n - i) + (i - j),
{
    if i < n {
        lemma_span_bound(clips, j, i, n - 1);
    } else if j < i {
        lemma_span_bound(clips, j, i - 1, i - 1);
        lemma_length_nonneg(clips, i - 1);
    } else {
        lemma_length_nonneg(clips, i);
    }
}

pub(crate) proof fn lemma_length_nonneg(clips: Seq<ClipInfo>, n: int)
    ensures
        0 <= total_length(clips, n),
    decreases n,
{
    if n > 0 {
        lemma_length_nonneg(clips, n - 1);
    }
}

pub(crate) proof fn lemma_last_placed(choice: Seq<Option<usize>>, i: int)
    requires
        0 <= i <= choice.len(),
    ensures
        match last_placed(choice, i) {
            Some(j) => {
                &&& 0 <= j < i
                &&& choice[j] is Some
                &&& forall|k: int| j < k < i ==> (#[trigger] choice[k]) is None
            },
            None => forall|k: int| 0 <= k < i ==> (#[trigger] choice[k]) is None,
        },
    decreases i,
{
    if i > 0 {
        lemma_last_placed(choice, i - 1);
    }
}

/// Scores and placements depend only on the entries before `i`.
pub(crate) proof fn lemma_prefix(
    clips: Seq<ClipInfo>,
    lists: Seq<Seq<SyncResult>>,
    a: Seq<Option<usize>>,
    b: Seq<Option<usize>>,
    i: int,
)
    requires
        0 <= i <= a.len(),
        i <= b.len(),
        forall|k: int| 0 <= k < i ==> (#[trigger] a[k]) == b[k],
    ensures
        last_placed(a, i) == last_placed(b, i),
        score(clips, lists, a, i) == score(clips, lists, b, i),
    decreases i,
{
    if i > 0 {
        assert(a[i - 1] == b[i - 1]);
        lemma_prefix(clips, lists, a, b, i - 1);
        lemma_last_placed(a, i - 1);
    }
}

/// Entries that place nothing change neither the score nor the last placed clip.
pub(crate) proof fn lemma_skip(
    clips: Seq<ClipInfo>,
    lists: Seq<Seq<SyncResult>>,
    choice: Seq<Option<usize>>,
    j: int,
    i: int,
)
    requires
        0 <= j <= i <= choice.len(),
        forall|k: int| j <= k < i ==> (#[trigger] choice[k]) is None,
    ensures
        last_placed(choice, i) == last_placed(choice, j),
        score(clips, lists, choice, i) == score(clips, lists, choice, j),
    decreases i - j,
{
    if j < i {
        assert(choice[i - 1] is None);
        lemma_skip(clips, lists, choice, j, i - 1);
    }
}

proof fn lemma_valid_prefix(
    clips: Seq<ClipInfo>,
    lists: Seq<Seq<SyncResult>>,
    choice: Seq<Option<usize>>,
    i: int,
)
    requires
        valid_choice(clips, lists, choice),
        0 <= i <= choice.len(),
    ensures
        valid_choice(clips, lists, choice.take(i)),
{
    let p = choice.take(i);
    assert forall|k: int| 0 <= k < p.len() && (#[trigger] p[k]) is Some implies {
        &&& p[k]->0 < lists[k].len()
        &&& last_placed(p, k) matches Some(j) ==> follows(
            lists[j][p[j]->0 as int],
            span(clips, j, k),
            lists[k][p[k]->0 as int],
        )
    } by {
        assert(choice[k] is Some);
        lemma_prefix(clips, lists, p, choice, k);
        lemma_last_placed(choice, k);
    }
}

proof fn lemma_usable_push(s: Seq<SyncResult>, r: SyncResult)
    ensures
        usable(s.push(r)) == if r.confidence >= MIN_CONFIDENCE {
            usable(s).push(r)
        } else {
            usable(s)
        },
{
    s.lemma_filter_push(r, |x: SyncResult| x.confidence >= MIN_CONFIDENCE);
}

/// The candidates of one clip that may place it, in their order.
fn usable_candidates(candidates: &Vec<SyncResult>) -> (out: Vec<SyncResult>)
    ensures
        out@ == usable(candidates@),
{
    let mut out: Vec<SyncResult> = Vec::new();
    let mut k: usize = 0;
    assert(candidates@.take(0) =~= Seq::<SyncResult>::empty());
    assert(usable(candidates@.take(0)) =~= Seq::<SyncResult>::empty());
    while k < candidates.len()
        invariant
            k <= candidates.len(),
            out@ == usable(candidates@.take(k as int)),
        decreases candidates.len() - k,
    {
        proof {
            lemma_usable_push(candidates@.take(k as int), candidates@[k as int]);
            assert(candidates@.take(k + 1) =~= candidates@.take(k as int).push(candidates@[k as int]));
        }
        if candidates[k].confidence >= MIN_CONFIDENCE {
            out.push(candidates[k]);
        }
        k = k + 1;
    }
    assert(candidates@.take(k as int) =~= candidates@);
    out
}

proof fn lemma_usable_confident(candidates: Seq<SyncResult>, c: int)
    requires
        0 <= c < usable(candidates).len(),
    ensures
        usable(candidates)[c].confidence >= MIN_CONFIDENCE,
{
    let keep = |r: SyncResult| r.confidence >= MIN_CONFIDENCE;
    candidates.lemma_filter_pred(keep, c);
}

proof fn lemma_usable_in_limit(candidates: Seq<SyncResult>, c: int)
    requires
        forall|k: int| 0 <= k < candidates.len() ==> in_limit((#[trigger] candidates[k]).offset as int),
        0 <= c < usable(candidates).len(),
    ensures
        in_limit(usable(candidates)[c].offset as int),
{
    let pred = |r: SyncResult| r.confidence >= MIN_CONFIDENCE;
    candidates.lemma_filter_contains_rev(pred, usable(candidates)[c]);
}

/// The usable candidates as the tables below see them.
pub open spec fn views(lists: Seq<Vec<SyncResult>>) -> Seq<Seq<SyncResult>> {
    lists.map_values(|v: Vec<SyncResult>| v@)
}

/// Recorded time before each clip: entry `i` is the length of the clips before clip `i`.
fn recorded_before(clips: &Vec<ClipInfo>) -> (out: Vec<i64>)
    requires
        total_length(clips@, clips@.len() as int) <= TIME_LIMIT,
    ensures
        out@.len() == clips@.len() + 1,
        forall|i: int| 0 <= i <= clips@.len() ==> (#[trigger] out@[i]) == span(clips@, 0, i),
{
    let mut out: Vec<i64> = Vec::new();
    out.push(0);
    let mut i: usize = 0;
    while i < clips.len()
        invariant
            i <= clips.len(),
            total_length(clips@, clips@.len() as int) <= TIME_LIMIT,
            out@.len() == i + 1,
            forall|k: int| 0 <= k <= i ==> (#[trigger] out@[k]) == span(clips@, 0, k),
        decreases clips.len() - i,
    {
        proof {
            lemma_span_bound(clips@, 0, i as int, clips@.len() as int);
            lemma_span_bound(clips@, 0, i + 1, clips@.len() as int);
            assert(out@[i as int] == span(clips@, 0, i as int));
        }
        let next: i64 = out[i] + clips[i].duration;
        out.push(next);
        i = i + 1;
    }
    out
}

/// Whether the gap between two offsets agrees with the recording times.
fn agrees(prev: SyncResult, next: SyncResult, prev_start: Option<i64>, next_start: Option<i64>) -> (b: bool)
    requires
        in_limit(prev.offset as int),
        in_limit(next.offset as int),
        prev_start matches Some(t) ==> in_limit(t as int),
        next_start matches Some(t) ==> in_limit(t as int),
    ensures
        b == gap_agrees(prev, next, prev_start, next_start),
{
    match (prev_start, next_start) {
        (Some(a), Some(b)) => {
            let off: i64 = (next.offset - prev.offset) - (b - a);
            -TIMESTAMP_TOL <= off && off <= TIMESTAMP_TOL
        },
        _ => false,
    }
}

/// A score never exceeds this per placed clip.
pub open spec fn score_cap(i: int) -> int {
    (i + 1) * 0x2_0000_0000
}

/// What a chain that ends with candidate `next` of clip `i` can score when it
/// continues from candidate `cj` of clip `j`.
pub open spec fn chained(
    clips: Seq<ClipInfo>,
    lists: Seq<Seq<SyncResult>>,
    best: Seq<Vec<u128>>,
    j: int,
    cj: int,
    i: int,
    next: SyncResult,
) -> int {
    best[j]@[cj] + next.confidence + gap_bonus(clips, j, lists[j][cj], i, next)
}

/// Clip and candidate lists, and a table of scores for the clips before `i`.
pub open spec fn step_ready(
    clips: Seq<ClipInfo>,
    lists: Seq<Vec<SyncResult>>,
    before: Seq<i64>,
    best: Seq<Vec<u128>>,
    i: int,
) -> bool {
    &&& 0 <= i < clips.len()
    &&& lists.len() == clips.len()
    &&& total_length(clips, clips.len() as int) <= TIME_LIMIT
    &&& before.len() == clips.len() + 1
    &&& forall|k: int| 0 <= k <= clips.len() ==> (#[trigger] before[k]) == span(clips, 0, k)
    &&& forall|k: int|
        0 <= k < clips.len() ==> ((#[trigger] clips[k]).start_time matches Some(t) ==> in_limit(t as int))
    &&& forall|k: int, c: int|
        0 <= k < lists.len() && 0 <= c < lists[k]@.len() ==> in_limit((#[trigger] lists[k]@[c]).offset as int)
    &&& best.len() >= i
    &&& forall|k: int| 0 <= k < i ==> (#[trigger] best[k])@.len() == lists[k]@.len()
    &&& forall|k: int, c: int|
        0 <= k < i && 0 <= c < lists[k]@.len() ==> (#[trigger] best[k]@[c]) <= score_cap(k)
}

/// Best score of a chain that ends with candidate `c` of clip `i`, and the
/// clip and candidate before it in that chain.
fn best_chain(
    clips: &Vec<ClipInfo>,
    lists: &Vec<Vec<SyncResult>>,
    before: &Vec<i64>,
    best: &Vec<Vec<u128>>,
    i: usize,
    c: usize,
) -> (r: (u128, Option<(usize, usize)>))
    requires
        step_ready(clips@, lists@, before@, best@, i as int),
        c < lists@[i as int]@.len(),
    ensures
        r.0 <= score_cap(i as int),
        r.0 >= lists@[i as int]@[c as int].confidence,
        r.1 is None ==> r.0 == lists@[i as int]@[c as int].confidence,
        r.1 matches Some((j, cj)) ==> {
            &&& j < i
            &&& cj < lists@[j as int]@.len()
            &&& follows(
                lists@[j as int]@[cj as int],
                span(clips@, j as int, i as int),
                lists@[i as int]@[c as int],
            )
            &&& r.0 == chained(
                clips@,
                views(lists@),
                best@,
                j as int,
                cj as int,
                i as int,
                lists@[i as int]@[c as int],
            )
        },
        forall|j: int, cj: int|
            0 <= j < i && 0 <= cj < lists@[j]@.len() && follows(
                lists@[j]@[cj],
                span(clips@, j, i as int),
                lists@[i as int]@[c as int],
            ) ==> #[trigger] chained(clips@, views(lists@), best@, j, cj, i as int, lists@[i as int]@[c as int]) <= r.0,
{
    let next: SyncResult = lists[i][c];
    let ghost vs = views(lists@);
    let mut top: u128 = next.confidence as u128;
    let mut from: Option<(usize, usize)> = None;
    let mut j: usize = 0;
    while j < i
        invariant
            step_ready(clips@, lists@, before@, best@, i as int),
            c < lists@[i as int]@.len(),
            next == lists@[i as int]@[c as int],
            vs == views(lists@),
            j <= i,
            top <= score_cap(i as int),
            top >= next.confidence,
            from is None ==> top == next.confidence,
            from matches Some((a, b)) ==> {
                &&& a < i
                &&& b < lists@[a as int]@.len()
                &&& follows(lists@[a as int]@[b as int], span(clips@, a as int, i as int), next)
                &&& top == chained(clips@, vs, best@, a as int, b as int, i as int, next)
            },
            forall|a: int, b: int|
                0 <= a < j && 0 <= b < lists@[a]@.len() && follows(
                    lists@[a]@[b],
                    span(clips@, a, i as int),
                    next,
                ) ==> #[trigger] chained(clips@, vs, best@, a, b, i as int, next) <= top,
        decreases i - j,
    {
        proof {
            lemma_span_split(clips@, 0, j as int, i as int);
            lemma_span_bound(clips@, j as int, i as int, clips@.len() as int);
            lemma_span_bound(clips@, 0, j as int, clips@.len() as int);
            lemma_span_bound(clips@, 0, i as int, clips@.len() as int);
            assert(before@[i as int] == span(clips@, 0, i as int));
            assert(before@[j as int] == span(clips@, 0, j as int));
        }
        let gap: i64 = before[i] - before[j];
        let mut cj: usize = 0;
        while cj < lists[j].len()
            invariant
                step_ready(clips@, lists@, before@, best@, i as int),
                c < lists@[i as int]@.len(),
                next == lists@[i as int]@[c as int],
                vs == views(lists@),
                j < i,
                cj <= lists@[j as int]@.len(),
                gap == span(clips@, j as int, i as int),
                in_limit(gap as int),
                top <= score_cap(i as int),
                top >= next.confidence,
                from is None ==> top == next.confidence,
                from matches Some((a, b)) ==> {
                    &&& a < i
                    &&& b < lists@[a as int]@.len()
                    &&& follows(lists@[a as int]@[b as int], span(clips@, a as int, i as int), next)
                    &&& top == chained(clips@, vs, best@, a as int, b as int, i as int, next)
                },
                forall|a: int, b: int|
                    0 <= a < j && 0 <= b < lists@[a]@.len() && follows(
                        lists@[a]@[b],
                        span(clips@, a, i as int),
                        next,
                    ) ==> #[trigger] chained(clips@, vs, best@, a, b, i as int, next) <= top,
                forall|b: int|
                    0 <= b < cj && follows(lists@[j as int]@[b], gap as int, next) ==> #[trigger] chained(
                        clips@,
                        vs,
                        best@,
                        j as int,
                        b,
                        i as int,
                        next,
                    ) <= top,
            decreases lists@[j as int]@.len() - cj,
        {
            let prev: SyncResult = lists[j][cj];
            assert(in_limit(lists@[j as int]@[cj as int].offset as int));
            assert(in_limit(lists@[i as int]@[c as int].offset as int));
            assert(clips@[j as int].start_time matches Some(t) ==> in_limit(t as int));
            assert(clips@[i as int].start_time matches Some(t) ==> in_limit(t as int));
            assert(best@[j as int]@[cj as int] <= score_cap(j as int));
            assert(best@[j as int]@.len() == lists@[j as int]@.len());
            assert(vs[j as int] == lists@[j as int]@);
            if next.offset >= prev.offset + gap - OVERLAP_TOL {
                let bonus: u128 = if agrees(prev, next, clips[j].start_time, clips[i].start_time) {
                    TIMESTAMP_BONUS as u128
                } else {
                    0
                };
                let s: u128 = best[j][cj] + next.confidence as u128 + bonus;
                assert(s == chained(clips@, vs, best@, j as int, cj as int, i as int, next));
                if s > top {
                    top = s;
                    from = Some((j, cj));
                }
            }
            cj = cj + 1;
        }
        j = j + 1;
    }
    (top, from)
}

/// `w` is a valid choice for the clips up to `i` that ends with candidate `c`
/// of clip `i` and scores `b`.
spec fn reaches(
    clips: Seq<ClipInfo>,
    lists: Seq<Seq<SyncResult>>,
    i: int,
    c: int,
    w: Seq<Option<usize>>,
    b: int,
) -> bool {
    &&& w.len() == i + 1
    &&& valid_choice(clips, lists, w)
    &&& w[i] == Some(c as usize)
    &&& score(clips, lists, w, i + 1) == b
}

/// No valid choice that ends with candidate `c` of clip `i` scores more than `b`.
spec fn capped(clips: Seq<ClipInfo>, lists: Seq<Seq<SyncResult>>, i: int, c: int, b: int) -> bool {
    forall|w: Seq<Option<usize>>|
        w.len() == i + 1 && #[trigger] valid_choice(clips, lists, w) && w[i] == Some(c as usize) ==> score(
            clips,
            lists,
            w,
            i + 1,
        ) <= b
}

/// The choice that leads to candidate `c` of clip `i` along the table of predecessors.
spec fn chain(prev: Seq<Seq<Option<(usize, usize)>>>, i: int, c: int) -> Seq<Option<usize>>
    decreases i,
{
    if i < 0 || i >= prev.len() || c < 0 || c >= prev[i].len() {
        Seq::empty()
    } else {
        match prev[i][c] {
            Some((j, cj)) if j < i => {
                let head = chain(prev, j as int, cj as int);
                Seq::new(
                    (i + 1) as nat,
                    |k: int|
                        if k <= j {
                            head[k]
                        } else if k < i {
                            None
                        } else {
                            Some(c as usize)
                        },
                )
            },
            _ => Seq::new(
                (i + 1) as nat,
                |k: int|
                    if k < i {
                        None
                    } else {
                        Some(c as usize)
                    },
            ),
        }
    }
}

/// Every candidate of the clips before `n` has its best score in `best` and
/// the way there in `prev`.
spec fn solved(
    clips: Seq<ClipInfo>,
    lists: Seq<Seq<SyncResult>>,
    best: Seq<Vec<u128>>,
    prev: Seq<Seq<Option<(usize, usize)>>>,
    n: int,
) -> bool {
    &&& best.len() >= n
    &&& prev.len() >= n
    &&& forall|i: int|
        0 <= i < n ==> (#[trigger] best[i])@.len() == lists[i].len() && prev[i].len() == lists[i].len()
    &&& forall|i: int, c: int|
        0 <= i < n && 0 <= c < lists[i].len() ==> {
            &&& reaches(clips, lists, i, c, #[trigger] chain(prev, i, c), best[i]@[c] as int)
            &&& capped(clips, lists, i, c, best[i]@[c] as int)
            &&& prev[i][c] matches Some((j, cj)) ==> j < i && cj < lists[j as int].len()
        }
}

/// Chains before row `n` do not depend on later rows.
proof fn lemma_chain_stable(
    prev: Seq<Seq<Option<(usize, usize)>>>,
    longer: Seq<Seq<Option<(usize, usize)>>>,
    n: int,
    i: int,
    c: int,
)
    requires
        0 <= i < n <= prev.len(),
        n <= longer.len(),
        forall|k: int| 0 <= k < n ==> (#[trigger] prev[k]) == longer[k],
    ensures
        chain(prev, i, c) == chain(longer, i, c),
    decreases i,
{
    assert(prev[i] == longer[i]);
    if 0 <= c < prev[i].len() {
        match prev[i][c] {
            Some((j, cj)) => {
                if j < i {
                    lemma_chain_stable(prev, longer, n, j as int, cj as int);
                    assert(chain(prev, i, c) =~= chain(longer, i, c));
                } else {
                    assert(chain(prev, i, c) =~= chain(longer, i, c));
                }
            },
            None => {
                assert(chain(prev, i, c) =~= chain(longer, i, c));
            },
        }
    }
}

/// A choice that places nothing before `i` scores nothing there.
proof fn lemma_nothing_placed(
    clips: Seq<ClipInfo>,
    lists: Seq<Seq<SyncResult>>,
    choice: Seq<Option<usize>>,
    i: int,
)
    requires
        0 <= i <= choice.len(),
        forall|k: int| 0 <= k < i ==> (#[trigger] choice[k]) is None,
    ensures
        last_placed(choice, i) is None,
        score(clips, lists, choice, i) == 0,
{
    lemma_skip(clips, lists, choice, 0, i);
}

/// What a valid choice scores that ends with a placed clip `i`, from what came before.
proof fn lemma_last_step(
    clips: Seq<ClipInfo>,
    lists: Seq<Seq<SyncResult>>,
    w: Seq<Option<usize>>,
    i: int,
)
    requires
        0 <= i < w.len(),
        w[i] is Some,
    ensures
        match last_placed(w, i) {
            None => score(clips, lists, w, i + 1) == lists[i][w[i]->0 as int].confidence,
            Some(j) => {
                &&& 0 <= j < i
                &&& w[j] is Some
                &&& score(clips, lists, w, i + 1) == score(clips, lists, w.take(j + 1), j + 1)
                    + lists[i][w[i]->0 as int].confidence + gap_bonus(
                    clips,
                    j,
                    lists[j][w[j]->0 as int],
                    i,
                    lists[i][w[i]->0 as int],
                )
            },
        },
{
    lemma_last_placed(w, i);
    match last_placed(w, i) {
        None => {
            lemma_nothing_placed(clips, lists, w, i);
        },
        Some(j) => {
            lemma_skip(clips, lists, w, j + 1, i);
            lemma_prefix(clips, lists, w, w.take(j + 1), j + 1);
        },
    }
}

/// Score `top` is the best way, over `from`, to reach candidate `next` of clip `i`.
spec fn entry_best(
    clips: Seq<ClipInfo>,
    lists: Seq<Seq<SyncResult>>,
    best: Seq<Vec<u128>>,
    i: int,
    next: SyncResult,
    top: int,
    from: Option<(usize, usize)>,
) -> bool {
    &&& top >= next.confidence
    &&& from is None ==> top == next.confidence
    &&& from matches Some((j, cj)) ==> {
        &&& j < i
        &&& cj < lists[j as int].len()
        &&& follows(lists[j as int][cj as int], span(clips, j as int, i), next)
        &&& top == chained(clips, lists, best, j as int, cj as int, i, next)
    }
    &&& forall|j: int, cj: int|
        0 <= j < i && 0 <= cj < lists[j].len() && follows(lists[j][cj], span(clips, j, i), next)
            ==> #[trigger] chained(clips, lists, best, j, cj, i, next) <= top
}

/// The row of clip `i` is solved once every entry is the best continuation of
/// an earlier one.
proof fn lemma_entry_solved(
    clips: Seq<ClipInfo>,
    lists: Seq<Seq<SyncResult>>,
    best: Seq<Vec<u128>>,
    prev: Seq<Seq<Option<(usize, usize)>>>,
    i: int,
    c: int,
    top: int,
)
    requires
        0 <= i < clips.len(),
        lists.len() == clips.len(),
        0 <= c < lists[i].len() <= usize::MAX,
        prev.len() > i,
        prev[i].len() > c,
        solved(clips, lists, best, prev, i),
        entry_best(clips, lists, best, i, lists[i][c], top, prev[i][c]),
    ensures
        reaches(clips, lists, i, c, chain(prev, i, c), top),
        capped(clips, lists, i, c, top),
{
    let w = chain(prev, i, c);
    match prev[i][c] {
        None => {
            assert(forall|k: int| 0 <= k < i ==> (#[trigger] w[k]) is None);
            lemma_nothing_placed(clips, lists, w, i);
        },
        Some((j, cj)) => {
            let head = chain(prev, j as int, cj as int);
            assert(reaches(clips, lists, j as int, cj as int, head, best[j as int]@[cj as int] as int));
            assert(w.take(j + 1) =~= head);
            assert forall|k: int| 0 <= k < w.len() && (#[trigger] w[k]) is Some implies {
                &&& w[k]->0 < lists[k].len()
                &&& last_placed(w, k) matches Some(a) ==> follows(
                    lists[a][w[a]->0 as int],
                    span(clips, a, k),
                    lists[k][w[k]->0 as int],
                )
            } by {
                if k <= j {
                    assert(head[k] is Some);
                    lemma_prefix(clips, lists, w, head, k);
                    lemma_last_placed(w, k);
                    if let Some(a) = last_placed(w, k) {
                        assert(w[a] == head[a]);
                    }
                } else {
                    assert(k == i);
                    lemma_skip(clips, lists, w, j + 1, i);
                    assert(w[j as int] == head[j as int]);
                    assert(last_placed(w, j + 1) == Some(j as int));
                }
            }
            lemma_skip(clips, lists, w, j + 1, i);
            assert(w[j as int] == head[j as int]);
            assert(last_placed(w, j + 1) == Some(j as int));
            lemma_last_step(clips, lists, w, i);
        },
    }
    assert forall|v: Seq<Option<usize>>|
        v.len() == i + 1 && #[trigger] valid_choice(clips, lists, v) && v[i] == Some(
            c as usize,
        ) implies score(clips, lists, v, i + 1) <= top by {
        lemma_last_step(clips, lists, v, i);
        lemma_last_placed(v, i);
        assert(v[i] is Some);
        if let Some(j) = last_placed(v, i) {
            lemma_valid_prefix(clips, lists, v, j + 1);
            let head = v.take(j + 1);
            let cj = v[j]->0 as int;
            assert(head[j] == Some(cj as usize));
            assert(v[j] is Some);
            let _ = chain(prev, j, cj);
            assert(capped(clips, lists, j, cj, best[j]@[cj] as int));
            assert(chained(clips, lists, best, j, cj, i, lists[i][c]) <= top);
        }
    }
}

/// The predecessor table as the proofs see it.
spec fn rows(prev: Seq<Vec<Option<(usize, usize)>>>) -> Seq<Seq<Option<(usize, usize)>>> {
    prev.map_values(|v: Vec<Option<(usize, usize)>>| v@)
}

/// A choice that places nothing at all from `i` on.
spec fn padded(choice: Seq<Option<usize>>, n: int) -> Seq<Option<usize>> {
    Seq::new(
        n as nat,
        |k: int|
            if k < choice.len() {
                choice[k]
            } else {
                None
            },
    )
}

proof fn lemma_padded(clips: Seq<ClipInfo>, lists: Seq<Seq<SyncResult>>, choice: Seq<Option<usize>>, n: int)
    requires
        choice.len() <= n,
        valid_choice(clips, lists, choice),
    ensures
        valid_choice(clips, lists, padded(choice, n)),
        score(clips, lists, padded(choice, n), n) == score(clips, lists, choice, choice.len() as int),
{
    let p = padded(choice, n);
    let m = choice.len() as int;
    lemma_skip(clips, lists, p, m, n);
    lemma_prefix(clips, lists, p, choice, m);
    assert forall|k: int| 0 <= k < p.len() && (#[trigger] p[k]) is Some implies {
        &&& p[k]->0 < lists[k].len()
        &&& last_placed(p, k) matches Some(j) ==> follows(
            lists[j][p[j]->0 as int],
            span(clips, j, k),
            lists[k][p[k]->0 as int],
        )
    } by {
        assert(choice[k] is Some);
        lemma_prefix(clips, lists, p, choice, k);
        lemma_last_placed(p, k);
    }
}

/// Choice of the chain that ends in `end`, for all `n` clips.
spec fn ending(prev: Seq<Seq<Option<(usize, usize)>>>, end: Option<(usize, usize)>, n: int) -> Seq<
    Option<usize>,
> {
    match end {
        None => padded(Seq::empty(), n),
        Some((i, c)) => padded(chain(prev, i as int, c as int), n),
    }
}

/// An end whose score no other end exceeds gives a best choice.
proof fn lemma_best_end(
    clips: Seq<ClipInfo>,
    lists: Seq<Seq<SyncResult>>,
    best: Seq<Vec<u128>>,
    prev: Seq<Seq<Option<(usize, usize)>>>,
    end: Option<(usize, usize)>,
    top: int,
)
    requires
        lists.len() == clips.len(),
        solved(clips, lists, best, prev, clips.len() as int),
        top >= 0,
        end is None ==> top == 0,
        end matches Some((i, c)) ==> i < clips.len() && c < lists[i as int].len() && top
            == best[i as int]@[c as int],
        forall|i: int, c: int|
            0 <= i < clips.len() && 0 <= c < lists[i].len() ==> (#[trigger] best[i]@[c]) <= top,
    ensures
        best_choice(clips, lists, ending(prev, end, clips.len() as int)),
{
    let n = clips.len() as int;
    let w = ending(prev, end, n);
    match end {
        None => {
            assert(valid_choice(clips, lists, Seq::<Option<usize>>::empty()));
            lemma_padded(clips, lists, Seq::<Option<usize>>::empty(), n);
        },
        Some((i, c)) => {
            assert(reaches(
                clips,
                lists,
                i as int,
                c as int,
                chain(prev, i as int, c as int),
                best[i as int]@[c as int] as int,
            ));
            lemma_padded(clips, lists, chain(prev, i as int, c as int), n);
        },
    }
    assert(score(clips, lists, w, n) == top);
    assert forall|other: Seq<Option<usize>>|
        other.len() == clips.len() && #[trigger] valid_choice(clips, lists, other) implies score(
        clips,
        lists,
        other,
        n,
    ) <= score(clips, lists, w, n) by {
        lemma_last_placed(other, n);
        match last_placed(other, n) {
            None => {
                lemma_nothing_placed(clips, lists, other, n);
            },
            Some(j) => {
                lemma_skip(clips, lists, other, j + 1, n);
                lemma_valid_prefix(clips, lists, other, j + 1);
                let head = other.take(j + 1);
                lemma_prefix(clips, lists, other, head, j + 1);
                let cj = other[j]->0 as int;
                assert(other[j] is Some);
                assert(head[j] == Some(cj as usize));
                let _ = chain(prev, j, cj);
                assert(capped(clips, lists, j, cj, best[j]@[cj] as int));
                assert(best[j]@[cj] <= top);
            },
        }
    }
}

/// One candidate per clip, or none, such that the clips do not overlap and the
/// score is as high as it can be.
#[verifier::spinoff_prover]
fn choose_candidates(clips: &Vec<ClipInfo>, lists: &Vec<Vec<SyncResult>>) -> (choice: Vec<Option<usize>>)
    requires
        lists@.len() == clips@.len(),
        total_length(clips@, clips@.len() as int) <= TIME_LIMIT,
        forall|k: int|
            0 <= k < clips@.len() ==> ((#[trigger] clips@[k]).start_time matches Some(t) ==> in_limit(t as int)),
        forall|k: int, c: int|
            0 <= k < lists@.len() && 0 <= c < lists@[k]@.len() ==> in_limit(
                (#[trigger] lists@[k]@[c]).offset as int,
            ),
    ensures
        best_choice(clips@, views(lists@), choice@),
{
    let n: usize = clips.len();
    let before: Vec<i64> = recorded_before(clips);
    let ghost vs = views(lists@);
    let mut best: Vec<Vec<u128>> = Vec::new();
    let mut prev: Vec<Vec<Option<(usize, usize)>>> = Vec::new();
    let mut end: Option<(usize, usize)> = None;
    let mut top: u128 = 0;
    let mut i: usize = 0;
    while i < n
        invariant
            n == clips@.len(),
            lists@.len() == n,
            vs == views(lists@),
            i <= n,
            best@.len() == i,
            prev@.len() == i,
            i < n ==> step_ready(clips@, lists@, before@, best@, i as int),
            i == n ==> total_length(clips@, clips@.len() as int) <= TIME_LIMIT,
            forall|k: int, c: int|
                0 <= k < i && 0 <= c < lists@[k]@.len() ==> (#[trigger] best@[k]@[c]) <= score_cap(k),
            solved(clips@, vs, best@, rows(prev@), i as int),
            end is None ==> top == 0,
            end matches Some((a, b)) ==> a < i && b < lists@[a as int]@.len() && top
                == best@[a as int]@[b as int],
            forall|k: int, c: int|
                0 <= k < i && 0 <= c < lists@[k]@.len() ==> (#[trigger] best@[k]@[c]) <= top,
        decreases n - i,
    {
        let mut row: Vec<u128> = Vec::new();
        let mut links: Vec<Option<(usize, usize)>> = Vec::new();
        let ghost old_end = end;
        let mut row_end: Option<usize> = None;
        let mut row_top: u128 = top;
        let mut c: usize = 0;
        while c < lists[i].len()
            invariant
                n == clips@.len(),
                lists@.len() == n,
                vs == views(lists@),
                i < n,
                best@.len() == i,
                step_ready(clips@, lists@, before@, best@, i as int),
                c <= lists@[i as int]@.len(),
                row@.len() == c,
                links@.len() == c,
                row_top >= top,
                row_end is None ==> row_top == top,
                row_end matches Some(b) ==> b < c && row_top == row@[b as int],
                forall|b: int| 0 <= b < c ==> (#[trigger] row@[b]) <= row_top,
                forall|b: int|
                    0 <= b < c ==> (#[trigger] row@[b]) <= score_cap(i as int) && entry_best(
                        clips@,
                        vs,
                        best@,
                        i as int,
                        lists@[i as int]@[b],
                        row@[b] as int,
                        links@[b],
                    ),
            decreases lists@[i as int]@.len() - c,
        {
            let (s, from) = best_chain(clips, lists, &before, &best, i, c);
            assert(entry_best(clips@, vs, best@, i as int, lists@[i as int]@[c as int], s as int, from));
            row.push(s);
            links.push(from);
            if s > row_top {
                row_top = s;
                row_end = Some(c);
            }
            c = c + 1;
        }
        let ghost old_best = best@;
        let ghost old_prev = rows(prev@);
        best.push(row);
        prev.push(links);
        top = row_top;
        if let Some(b) = row_end {
            end = Some((i, b));
        }
        proof {
            let r = rows(prev@);
            assert(r.len() == i + 1);
            assert(forall|k: int| 0 <= k < i ==> (#[trigger] old_prev[k]) == r[k]);
            assert(r[i as int] == links@);
            assert forall|k: int, b: int| 0 <= k < i && 0 <= b < vs[k].len() implies {
                &&& reaches(clips@, vs, k, b, #[trigger] chain(r, k, b), best@[k]@[b] as int)
                &&& capped(clips@, vs, k, b, best@[k]@[b] as int)
                &&& r[k][b] matches Some((j, cj)) ==> j < k && cj < vs[j as int].len()
            } by {
                lemma_chain_stable(old_prev, r, i as int, k, b);
                let _ = chain(old_prev, k, b);
                assert(best@[k] == old_best[k]);
                assert(r[k] == old_prev[k]);
            }
            assert(forall|k: int| 0 <= k < i ==> (#[trigger] best@[k]) == old_best[k]);
            assert(forall|k: int| 0 <= k < i ==> (#[trigger] old_best[k])@.len() == vs[k].len() && old_prev[k].len() == vs[k].len());
            assert(solved(clips@, vs, best@, r, i as int)) by {
                assert forall|k: int| 0 <= k < i implies (#[trigger] best@[k])@.len() == vs[k].len()
                    && r[k].len() == vs[k].len() by {
                    assert(best@[k] == old_best[k]);
                    assert(old_prev[k] == r[k]);
                }
            }
            assert forall|b: int| 0 <= b < vs[i as int].len() implies {
                &&& reaches(clips@, vs, i as int, b, #[trigger] chain(r, i as int, b), best@[i as int]@[b] as int)
                &&& capped(clips@, vs, i as int, b, best@[i as int]@[b] as int)
                &&& r[i as int][b] matches Some((j, cj)) ==> j < i && cj < vs[j as int].len()
            } by {
                let next = lists@[i as int]@[b];
                assert(row@[b] <= score_cap(i as int));
                assert(entry_best(clips@, vs, old_best, i as int, next, row@[b] as int, links@[b]));
                assert forall|j: int, cj: int|
                    0 <= j < i && 0 <= cj < vs[j].len() && follows(
                        vs[j][cj],
                        span(clips@, j, i as int),
                        next,
                    ) implies #[trigger] chained(clips@, vs, best@, j, cj, i as int, next) <= row@[b] by {
                    assert(best@[j] == old_best[j]);
                    assert(chained(clips@, vs, old_best, j, cj, i as int, next) <= row@[b]);
                }
                if let Some((j, cj)) = links@[b] {
                    assert(best@[j as int] == old_best[j as int]);
                    assert(vs[j as int] == lists@[j as int]@);
                }
                lemma_entry_solved(clips@, vs, best@, r, i as int, b, row@[b] as int);
            }
            assert(best@[i as int]@ == row@);
            assert forall|k: int, b: int| 0 <= k < i + 1 && 0 <= b < lists@[k]@.len() implies (
            #[trigger] best@[k]@[b]) <= score_cap(k) && best@[k]@[b] <= top by {
                if k < i {
                    assert(best@[k] == old_best[k]);
                    assert(old_best[k]@[b] <= score_cap(k));
                } else {
                    assert(row@[b] <= row_top);
                }
            }
            assert(solved(clips@, vs, best@, r, i + 1)) by {
                assert forall|k: int| 0 <= k < i + 1 implies (#[trigger] best@[k])@.len() == vs[k].len()
                    && r[k].len() == vs[k].len() by {
                    if k == i {
                        assert(vs[k] == lists@[k]@);
                    }
                }
                assert forall|k: int, b: int| 0 <= k < i + 1 && 0 <= b < vs[k].len() implies {
                    &&& reaches(clips@, vs, k, b, #[trigger] chain(r, k, b), best@[k]@[b] as int)
                    &&& capped(clips@, vs, k, b, best@[k]@[b] as int)
                    &&& r[k][b] matches Some((j, cj)) ==> j < k && cj < vs[j as int].len()
                } by {
                    let _ = chain(r, k, b);
                }
            }
        }
        i = i + 1;
    }
    let ghost r = rows(prev@);
    proof {
        lemma_best_end(clips@, vs, best@, r, end, top as int);
    }
    let ghost goal = ending(r, end, n as int);
    let mut choice: Vec<Option<usize>> = Vec::new();
    let mut k: usize = 0;
    while k < n
        invariant
            k <= n,
            choice@.len() == k,
            forall|b: int| 0 <= b < k ==> (#[trigger] choice@[b]) is None,
        decreases n - k,
    {
        choice.push(None);
        k = k + 1;
    }
    let mut at: Option<(usize, usize)> = end;
    let mut left: usize = n;
    proof {
        if let Some((a, b)) = at {
            let _ = chain(r, a as int, b as int);
            assert(reaches(clips@, vs, a as int, b as int, chain(r, a as int, b as int), best@[a as int]@[b as int] as int));
        }
    }
    while at.is_some()
        invariant
            n == clips@.len(),
            lists@.len() == n,
            vs == views(lists@),
            best@.len() == n,
            prev@.len() == n,
            r == rows(prev@),
            solved(clips@, vs, best@, r, n as int),
            choice@.len() == n,
            goal.len() == n,
            left <= n,
            forall|b: int| 0 <= b < left ==> (#[trigger] choice@[b]) is None,
            forall|b: int| left <= b < n ==> (#[trigger] choice@[b]) == goal[b],
            match at {
                None => forall|b: int| 0 <= b < left ==> (#[trigger] goal[b]) is None,
                Some((a, c)) => {
                    &&& a < left
                    &&& c < vs[a as int].len()
                    &&& goal.take(a + 1) == chain(r, a as int, c as int)
                    &&& forall|b: int| a < b < left ==> (#[trigger] goal[b]) is None
                },
            },
        decreases left + (if at is Some { 1int } else { 0int }),
    {
        let (a, c) = at.unwrap();
        proof {
            let w = chain(r, a as int, c as int);
            assert(reaches(clips@, vs, a as int, c as int, w, best@[a as int]@[c as int] as int));
            assert(r[a as int].len() == vs[a as int].len()) by {
                assert(best@[a as int]@.len() == vs[a as int].len());
            }
            assert(goal[a as int] == goal.take(a + 1)[a as int]);
            assert(r[a as int] == prev@[a as int]@);
        }
        choice.set(a, Some(c));
        let next: Option<(usize, usize)> = prev[a][c];
        proof {
            let w = chain(r, a as int, c as int);
            assert forall|b: int| 0 <= b < a implies goal[b] == w[b] by {
                assert(goal[b] == goal.take(a + 1)[b]);
            }
            if let Some((j, cj)) = next {
                let head = chain(r, j as int, cj as int);
                assert(reaches(clips@, vs, j as int, cj as int, head, best@[j as int]@[cj as int] as int));
                assert(goal.take(j + 1) =~= head);
            }
        }
        left = a;
        at = next;
    }
    assert(choice@ =~= goal);
    choice
}

/// Picks one candidate per clip so that clips (in recording order) never
/// overlap by more than [`OVERLAP_TOL`], maximizing the total confidence plus a
/// bonus for every gap that agrees with the timestamps. Clips without a candidate
/// are placed next to the nearest one that has, clear of their neighbours. Where no
/// clip has one they stay where they are: `current` supplies these offsets. Among
/// equally good combinations any one may be taken.
pub fn arrange(clips: &Vec<ClipInfo>, candidates: &Vec<Vec<SyncResult>>, current: &Vec<i64>) -> (out: Vec<Arranged>)
    requires
        arrangeable(clips@, candidates@),
    ensures
        exists|choice: Seq<Option<usize>>| #[trigger]
            arrangement(clips@, usable_lists(candidates@, clips@.len()), current@, choice, out@),
        out@.len() == clips@.len(),
        (exists|m: int|
            0 <= m < clips@.len() && (#[trigger] usable_lists(candidates@, clips@.len())[m]).len() > 0)
            ==> forall|i: int|
            0 <= i < out@.len() - 1 ==> (#[trigger] out@[i]).offset + clips@[i].duration <= out@[i + 1].offset
                + OVERLAP_TOL,
{
    let n: usize = clips.len();
    let ghost want = usable_lists(candidates@, clips@.len());
    let mut lists: Vec<Vec<SyncResult>> = Vec::new();
    let mut i: usize = 0;
    while i < n
        invariant
            n == clips@.len(),
            n <= candidates@.len(),
            i <= n,
            lists@.len() == i,
            want == usable_lists(candidates@, clips@.len()),
            forall|k: int| 0 <= k < i ==> (#[trigger] lists@[k])@ == want[k],
        decreases n - i,
    {
        lists.push(usable_candidates(&candidates[i]));
        i = i + 1;
    }
    proof {
        assert(views(lists@) =~= want);
        assert forall|k: int, c: int| 0 <= k < lists@.len() && 0 <= c < lists@[k]@.len() implies in_limit(
            (#[trigger] lists@[k]@[c]).offset as int,
        ) by {
            assert(lists@[k]@ == want[k]);
            assert(forall|m: int|
                0 <= m < candidates@[k]@.len() ==> in_limit((#[trigger] candidates@[k]@[m]).offset as int));
            lemma_usable_in_limit(candidates@[k]@, c);
        }
    }
    let choice: Vec<Option<usize>> = choose_candidates(clips, &lists);
    let before: Vec<i64> = recorded_before(clips);
    assert(placeable(clips@, want, choice@));
    let places: Vec<Option<i64>> = settle_clips(clips, &lists, &choice, &before);
    let mut out: Vec<Arranged> = Vec::new();
    let mut k: usize = 0;
    while k < n
        invariant
            n == clips@.len(),
            k <= n,
            want.len() == n,
            lists@.len() == n,
            views(lists@) == want,
            choice@.len() == n,
            valid_choice(clips@, want, choice@),
            places@.len() == n,
            forall|m: int|
                0 <= m < n ==> match #[trigger] places@[m] {
                    Some(t) => anchor(choice@, m) is Some && t == settled(clips@, want, choice@, m),
                    None => anchor(choice@, m) is None,
                },
            out@.len() == k,
            forall|m: int|
                0 <= m < k ==> placed_clip(clips@, want, current@, choice@, m, #[trigger] out@[m]),
        decreases n - k,
    {
        let r: Arranged = match choice[k] {
            Some(c) => {
                assert(choice@[k as int] is Some);
                assert(want[k as int] == lists@[k as int]@);
                let cand: SyncResult = lists[k][c];
                Arranged { offset: cand.offset, confidence: cand.confidence, placement: Placement::Audio }
            },
            None => match places[k] {
                Some(t) => Arranged { offset: t, confidence: 0, placement: Placement::Timestamp },
                None => {
                    let t: i64 = if k < current.len() {
                        current[k]
                    } else {
                        0
                    };
                    Arranged { offset: t, confidence: 0, placement: Placement::Unknown }
                },
            },
        };
        assert(placed_clip(clips@, want, current@, choice@, k as int, r));
        out.push(r);
        k = k + 1;
    }
    assert(arrangement(clips@, want, current@, choice@, out@));
    proof {
        if exists|m: int| 0 <= m < clips@.len() && (#[trigger] want[m]).len() > 0 {
            let m = choose|m: int| 0 <= m < clips@.len() && (#[trigger] want[m]).len() > 0;
            lemma_usable_confident(candidates@[m]@, 0);
            lemma_one_match_places_all(clips@, want, current@, choice@, out@, m);
            assert forall|i: int| 0 <= i < out@.len() - 1 implies (#[trigger] out@[i]).offset + clips@[i].duration
                <= out@[i + 1].offset + OVERLAP_TOL by {
                lemma_clips_never_overlap(clips@, want, current@, choice@, out@, i);
            }
        }
    }
    out
}

/// Whether [`arrange`] can take these clips: a candidate list for each, and all
/// times within [`TIME_LIMIT`].
pub fn can_arrange(clips: &Vec<ClipInfo>, candidates: &Vec<Vec<SyncResult>>) -> (b: bool)
    ensures
        b == arrangeable(clips@, candidates@),
{
    let n: usize = clips.len();
    if candidates.len() < n {
        return false;
    }
    let mut total: i64 = 0;
    let mut i: usize = 0;
    while i < n
        invariant
            n == clips@.len(),
            n <= candidates@.len(),
            i <= n,
            total == total_length(clips@, i as int),
            0 <= total <= TIME_LIMIT,
            forall|k: int|
                0 <= k < i ==> ((#[trigger] clips@[k]).start_time matches Some(t) ==> in_limit(t as int)),
            forall|k: int, m: int|
                0 <= k < i && 0 <= m < candidates@[k]@.len() ==> in_limit(
                    (#[trigger] candidates@[k]@[m]).offset as int,
                ),
        decreases n - i,
    {
        proof {
            lemma_span_bound(clips@, 0, i + 1, n as int);
        }
        let d: i64 = clips[i].duration;
        if d > TIME_LIMIT - total || d < total - TIME_LIMIT {
            return false;
        }
        total = if d < 0 {
            total - d
        } else {
            total + d
        };
        if let Some(t) = clips[i].start_time {
            if t < -TIME_LIMIT || t > TIME_LIMIT {
                return false;
            }
        }
        let mut m: usize = 0;
        while m < candidates[i].len()
            invariant
                n == clips@.len(),
                n <= candidates@.len(),
                i < n,
                m <= candidates@[i as int]@.len(),
                forall|c: int|
                    0 <= c < m ==> in_limit((#[trigger] candidates@[i as int]@[c]).offset as int),
            decreases candidates@[i as int]@.len() - m,
        {
            let t: i64 = candidates[i][m].offset;
            if t < -TIME_LIMIT || t > TIME_LIMIT {
                assert(!in_limit(candidates@[i as int]@[m as int].offset as int));
                return false;
            }
            m = m + 1;
        }
        i = i + 1;
    }
    true
}

/// Every duration is at least zero.
pub open spec fn forward(clips: Seq<ClipInfo>) -> bool {
    forall|k: int| 0 <= k < clips.len() ==> (#[trigger] clips[k]).duration >= 0
}

proof fn lemma_span_forward(clips: Seq<ClipInfo>, j: int, i: int)
    requires
        forward(clips),
        0 <= j <= i <= clips.len(),
    ensures
        span(clips, j, i) >= 0,
        j < i ==> span(clips, j, i) >= clips[j].duration,
    decreases i - j,
{
    if j < i {
        assert(clips[i - 1].duration >= 0);
        lemma_span_forward(clips, j, i - 1);
    }
}

/// Clips placed by audio do not overlap: of two with no other placed between
/// them, the later starts after all that was recorded before it, but for
/// [`OVERLAP_TOL`].
pub proof fn lemma_neighbours_do_not_overlap(
    clips: Seq<ClipInfo>,
    lists: Seq<Seq<SyncResult>>,
    current: Seq<i64>,
    choice: Seq<Option<usize>>,
    out: Seq<Arranged>,
    j: int,
    i: int,
)
    requires
        arrangement(clips, lists, current, choice, out),
        0 <= j < i < clips.len(),
        out[j].placement == Placement::Audio,
        out[i].placement == Placement::Audio,
        forall|k: int| j < k < i ==> (#[trigger] out[k]).placement != Placement::Audio,
    ensures
        out[i].offset >= out[j].offset + span(clips, j, i) - OVERLAP_TOL,
        forward(clips) ==> out[i].offset >= out[j].offset + clips[j].duration - OVERLAP_TOL,
{
    assert(placed_clip(clips, lists, current, choice, j, out[j]));
    assert(placed_clip(clips, lists, current, choice, i, out[i]));
    assert(choice[j] is Some);
    assert(choice[i] is Some);
    assert forall|k: int| j < k < i implies (#[trigger] choice[k]) is None by {
        assert(placed_clip(clips, lists, current, choice, k, out[k]));
    }
    lemma_skip(clips, lists, choice, j + 1, i);
    assert(last_placed(choice, j + 1) == Some(j));
    if forward(clips) {
        lemma_span_forward(clips, j, i);
    }
}

/// Clips placed by audio keep their recording order: however many clips lie
/// between two of them, the later one starts after all that was recorded
/// before it, but for [`OVERLAP_TOL`] per clip.
pub proof fn lemma_placed_clips_in_order(
    clips: Seq<ClipInfo>,
    lists: Seq<Seq<SyncResult>>,
    current: Seq<i64>,
    choice: Seq<Option<usize>>,
    out: Seq<Arranged>,
    j: int,
    i: int,
)
    requires
        arrangement(clips, lists, current, choice, out),
        0 <= j < i < clips.len(),
        out[j].placement == Placement::Audio,
        out[i].placement == Placement::Audio,
    ensures
        out[i].offset >= out[j].offset + span(clips, j, i) - (i - j) * OVERLAP_TOL,
    decreases i - j,
{
    if exists|k: int| j < k < i && (#[trigger] out[k]).placement == Placement::Audio {
        let k = choose|k: int| j < k < i && (#[trigger] out[k]).placement == Placement::Audio;
        lemma_placed_clips_in_order(clips, lists, current, choice, out, j, k);
        lemma_placed_clips_in_order(clips, lists, current, choice, out, k, i);
        lemma_span_split(clips, j, k, i);
    } else {
        lemma_neighbours_do_not_overlap(clips, lists, current, choice, out, j, i);
    }
}

/// Every clip is where it was settled, but for cameras without any match.
pub(crate) proof fn lemma_out_settled(
    clips: Seq<ClipInfo>,
    lists: Seq<Seq<SyncResult>>,
    current: Seq<i64>,
    choice: Seq<Option<usize>>,
    out: Seq<Arranged>,
    m: int,
    i: int,
)
    requires
        arrangement(clips, lists, current, choice, out),
        0 <= m < clips.len(),
        0 <= i < clips.len(),
        out[m].placement != Placement::Unknown,
    ensures
        anchor(choice, i) is Some,
        out[i].offset == settled(clips, lists, choice, i),
        out[i].placement != Placement::Unknown,
{
    assert(placed_clip(clips, lists, current, choice, m, out[m]));
    assert(placed_clip(clips, lists, current, choice, i, out[i]));
    let a = anchor(choice, m)->0;
    lemma_last_placed(choice, m);
    lemma_first_placed(choice, m);
    assert(choice[a] is Some);
    lemma_last_placed(choice, i);
    lemma_first_placed(choice, i);
}

/// The clips of a camera never overlap, however each of them was placed: once any has
/// a match, every clip ends before the next one starts, but for [`OVERLAP_TOL`].
pub proof fn lemma_clips_never_overlap(
    clips: Seq<ClipInfo>,
    lists: Seq<Seq<SyncResult>>,
    current: Seq<i64>,
    choice: Seq<Option<usize>>,
    out: Seq<Arranged>,
    i: int,
)
    requires
        arrangement(clips, lists, current, choice, out),
        0 <= i,
        i + 1 < clips.len(),
        out[i].placement != Placement::Unknown,
    ensures
        out[i].offset + clips[i].duration <= out[i + 1].offset + OVERLAP_TOL,
{
    lemma_out_settled(clips, lists, current, choice, out, i, i);
    lemma_out_settled(clips, lists, current, choice, out, i, i + 1);
    lemma_settled_clear(clips, lists, choice, i);
}

/// A clip is moved by no more than its neighbours require. One that is later than the
/// place next to its anchor touches the clip before it, one that is earlier touches the
/// clip behind it; to touch is to overlap by [`OVERLAP_TOL`]. So a clip whose place is
/// clear of both neighbours is there.
pub proof fn lemma_moved_only_as_needed(
    clips: Seq<ClipInfo>,
    lists: Seq<Seq<SyncResult>>,
    current: Seq<i64>,
    choice: Seq<Option<usize>>,
    out: Seq<Arranged>,
    i: int,
)
    requires
        arrangement(clips, lists, current, choice, out),
        0 <= i < clips.len(),
        out[i].placement != Placement::Unknown,
    ensures
        ({
            let w = wish(clips, lists, choice, i);
            &&& out[i].offset > w ==> i > 0 && out[i].offset == out[i - 1].offset + clips[i - 1].duration
                - OVERLAP_TOL
            &&& out[i].offset < w ==> i + 1 < clips.len() && out[i].offset + clips[i].duration == out[i + 1].offset
                + OVERLAP_TOL
            &&& (i > 0 ==> out[i - 1].offset + clips[i - 1].duration <= w + OVERLAP_TOL) && (i + 1 < clips.len()
                ==> w + clips[i].duration <= out[i + 1].offset + OVERLAP_TOL) ==> out[i].offset == w
        }),
{
    lemma_out_settled(clips, lists, current, choice, out, i, i);
    if i > 0 {
        lemma_out_settled(clips, lists, current, choice, out, i, i - 1);
    }
    if i + 1 < clips.len() {
        lemma_out_settled(clips, lists, current, choice, out, i, i + 1);
    }
    lemma_settled_moves(clips, lists, choice, i);
}

/// No two clips in a row would overlap where they want to be.
pub open spec fn wishes_clear(
    clips: Seq<ClipInfo>,
    lists: Seq<Seq<SyncResult>>,
    choice: Seq<Option<usize>>,
) -> bool {
    forall|k: int|
        0 <= k && k + 1 < clips.len() ==> #[trigger] wish(clips, lists, choice, k) + clips[k].duration <= wish(
            clips,
            lists,
            choice,
            k + 1,
        ) + OVERLAP_TOL
}

proof fn lemma_not_later(
    clips: Seq<ClipInfo>,
    lists: Seq<Seq<SyncResult>>,
    current: Seq<i64>,
    choice: Seq<Option<usize>>,
    out: Seq<Arranged>,
    i: int,
)
    requires
        arrangement(clips, lists, current, choice, out),
        0 <= i < clips.len(),
        out[i].placement != Placement::Unknown,
        wishes_clear(clips, lists, choice),
    ensures
        out[i].offset <= wish(clips, lists, choice, i),
    decreases i,
{
    lemma_moved_only_as_needed(clips, lists, current, choice, out, i);
    if i > 0 {
        lemma_out_settled(clips, lists, current, choice, out, i, i - 1);
        lemma_not_later(clips, lists, current, choice, out, i - 1);
        let before = wish(clips, lists, choice, i - 1);
        assert(before + clips[i - 1].duration <= wish(clips, lists, choice, (i - 1) + 1) + OVERLAP_TOL);
    }
}

proof fn lemma_not_earlier(
    clips: Seq<ClipInfo>,
    lists: Seq<Seq<SyncResult>>,
    current: Seq<i64>,
    choice: Seq<Option<usize>>,
    out: Seq<Arranged>,
    i: int,
)
    requires
        arrangement(clips, lists, current, choice, out),
        0 <= i < clips.len(),
        out[i].placement != Placement::Unknown,
        wishes_clear(clips, lists, choice),
    ensures
        out[i].offset >= wish(clips, lists, choice, i),
    decreases clips.len() - i,
{
    lemma_moved_only_as_needed(clips, lists, current, choice, out, i);
    if i + 1 < clips.len() {
        lemma_out_settled(clips, lists, current, choice, out, i, i + 1);
        lemma_not_earlier(clips, lists, current, choice, out, i + 1);
        let here = wish(clips, lists, choice, i);
        assert(here + clips[i].duration <= wish(clips, lists, choice, i + 1) + OVERLAP_TOL);
    }
}

/// Where the matches, the recording times and the recorded lengths lay no clip over
/// the next, all clips are where these put them.
pub proof fn lemma_clear_places_are_kept(
    clips: Seq<ClipInfo>,
    lists: Seq<Seq<SyncResult>>,
    current: Seq<i64>,
    choice: Seq<Option<usize>>,
    out: Seq<Arranged>,
    i: int,
)
    requires
        arrangement(clips, lists, current, choice, out),
        0 <= i < clips.len(),
        out[i].placement != Placement::Unknown,
        wishes_clear(clips, lists, choice),
    ensures
        out[i].offset == wish(clips, lists, choice, i),
{
    lemma_not_later(clips, lists, current, choice, out, i);
    lemma_not_earlier(clips, lists, current, choice, out, i);
}

/// A recording time that leaves room is kept, whatever became of the clips beside it:
/// where that of clip `i` lies behind all that was recorded since the match before it,
/// and since each clip in between that has a recording time, and the next match is far
/// enough away, the clip is as far from its match as the recording times say.
pub proof fn lemma_recording_time_is_kept_behind_match(
    clips: Seq<ClipInfo>,
    lists: Seq<Seq<SyncResult>>,
    current: Seq<i64>,
    choice: Seq<Option<usize>>,
    out: Seq<Arranged>,
    a: int,
    i: int,
)
    requires
        arrangement(clips, lists, current, choice, out),
        0 <= a < i < clips.len(),
        choice[i] is None,
        leans_back(choice, i),
        last_placed(choice, i) == Some(a),
        clips[a].start_time is Some,
        clips[i].start_time is Some,
        forall|j: int|
            a <= j < i && (#[trigger] clips[j]).start_time is Some ==> clips[i].start_time->0
                - clips[j].start_time->0 >= span(clips, j, i),
        first_placed(choice, i) matches Some(b) ==> out[a].offset + (clips[i].start_time->0
            - clips[a].start_time->0) <= latest(clips, out[b].offset as int, i, b),
    ensures
        out[i].offset - out[a].offset == clips[i].start_time->0 - clips[a].start_time->0,
{
    lemma_last_placed(choice, i);
    lemma_first_placed(choice, i);
    assert(placed_clip(clips, lists, current, choice, a, out[a]));
    assert(placed_clip(clips, lists, current, choice, i, out[i]));
    if first_placed(choice, i) is Some {
        let b = first_placed(choice, i)->0;
        assert(placed_clip(clips, lists, current, choice, b, out[b]));
    }
    lemma_forward_below(clips, lists, choice, a, i - 1, i);
    assert(span(clips, i - 1, i - 1) == 0);
    assert(span(clips, i - 1, i) == clips[i - 1].duration);
}

/// The same before a match: where the recording time of clip `i` leaves room for all
/// that was recorded up to the match behind it, and up to each clip in between that has
/// a recording time, and the clips that lean on the match before are far enough away,
/// the clip is as far from its match as the recording times say.
pub proof fn lemma_recording_time_is_kept_before_match(
    clips: Seq<ClipInfo>,
    lists: Seq<Seq<SyncResult>>,
    current: Seq<i64>,
    choice: Seq<Option<usize>>,
    out: Seq<Arranged>,
    i: int,
    b: int,
)
    requires
        arrangement(clips, lists, current, choice, out),
        0 <= i < b < clips.len(),
        choice[i] is None,
        !leans_back(choice, i),
        first_placed(choice, i) == Some(b),
        clips[b].start_time is Some,
        clips[i].start_time is Some,
        forall|j: int|
            i < j <= b && (#[trigger] clips[j]).start_time is Some ==> clips[j].start_time->0
                - clips[i].start_time->0 >= span(clips, i, j),
        last_placed(choice, i) matches Some(a) ==> out[b].offset - (clips[b].start_time->0
            - clips[i].start_time->0) >= earliest(
            clips,
            out[crate::placement::middle(a, b)].offset as int,
            crate::placement::middle(a, b),
            i,
        ),
    ensures
        out[b].offset - out[i].offset == clips[b].start_time->0 - clips[i].start_time->0,
{
    lemma_last_placed(choice, i);
    lemma_first_placed(choice, i);
    assert(placed_clip(clips, lists, current, choice, b, out[b]));
    assert(placed_clip(clips, lists, current, choice, i, out[i]));
    if last_placed(choice, i) is Some {
        let a = last_placed(choice, i)->0;
        let m = crate::placement::middle(a, b);
        assert(a <= m < i);
        lemma_last_placed(choice, m);
        lemma_first_placed(choice, m);
        assert(choice[m] is Some || leans_back(choice, m)) by {
            if choice[m] is None {
                assert(last_placed(choice, m) == Some(a));
                assert(first_placed(choice, m) == Some(b));
            }
        }
        lemma_out_settled(clips, lists, current, choice, out, i, m);
    }
    lemma_backward_above(clips, lists, choice, i, i + 1, b);
    assert(span(clips, i, i) == 0);
    assert(span(clips, i, i + 1) == clips[i].duration);
}

/// With a usable candidate for any clip, some clip is placed by audio and every
/// other one next to it: none is left where it was.
pub proof fn lemma_one_match_places_all(
    clips: Seq<ClipInfo>,
    lists: Seq<Seq<SyncResult>>,
    current: Seq<i64>,
    choice: Seq<Option<usize>>,
    out: Seq<Arranged>,
    m: int,
)
    requires
        arrangement(clips, lists, current, choice, out),
        0 <= m < clips.len(),
        0 < lists[m].len(),
        lists[m][0].confidence > 0,
    ensures
        exists|i: int| 0 <= i < clips.len() && (#[trigger] out[i]).placement == Placement::Audio,
        forall|i: int|
            0 <= i < clips.len() ==> (#[trigger] out[i]).placement != Placement::Unknown,
{
    let n = clips.len() as int;
    let alone = Seq::new(
        n as nat,
        |k: int|
            if k == m {
                Some(0usize)
            } else {
                None::<usize>
            },
    );
    lemma_nothing_placed(clips, lists, alone, m);
    assert(valid_choice(clips, lists, alone));
    lemma_last_step(clips, lists, alone, m);
    lemma_skip(clips, lists, alone, m + 1, n);
    assert(score(clips, lists, choice, n) > 0);
    lemma_last_placed(choice, n);
    if last_placed(choice, n) is None {
        lemma_nothing_placed(clips, lists, choice, n);
    }
    let p = last_placed(choice, n)->0;
    assert(choice[p] is Some);
    assert(placed_clip(clips, lists, current, choice, p, out[p]));
    assert forall|i: int| 0 <= i < clips.len() implies (#[trigger] out[i]).placement
        != Placement::Unknown by {
        assert(placed_clip(clips, lists, current, choice, i, out[i]));
        lemma_last_placed(choice, i);
        lemma_first_placed(choice, i);
    }
}

/// Without a usable candidate for any clip, every clip keeps its offset.
pub proof fn lemma_no_match_changes_nothing(
    clips: Seq<ClipInfo>,
    lists: Seq<Seq<SyncResult>>,
    current: Seq<i64>,
    choice: Seq<Option<usize>>,
    out: Seq<Arranged>,
    i: int,
)
    requires
        arrangement(clips, lists, current, choice, out),
        0 <= i < clips.len() <= current.len(),
        forall|m: int| 0 <= m < clips.len() ==> (#[trigger] lists[m]).len() == 0,
    ensures
        out[i].placement == Placement::Unknown,
        out[i].offset == current[i],
        out[i].confidence == 0,
{
    assert forall|k: int| 0 <= k < clips.len() implies (#[trigger] choice[k]) is None by {
        assert(lists[k].len() == 0);
        if choice[k] is Some {
            assert(choice[k]->0 < lists[k].len());
        }
    }
    assert(placed_clip(clips, lists, current, choice, i, out[i]));
    lemma_last_placed(choice, i);
    lemma_first_placed(choice, i);
}

/// A confidence above zero is only shown for clips placed by audio.
pub proof fn lemma_confidence_means_audio(
    clips: Seq<ClipInfo>,
    lists: Seq<Seq<SyncResult>>,
    current: Seq<i64>,
    choice: Seq<Option<usize>>,
    out: Seq<Arranged>,
    i: int,
)
    requires
        arrangement(clips, lists, current, choice, out),
        0 <= i < clips.len(),
        out[i].confidence > 0,
    ensures
        out[i].placement == Placement::Audio,
{
    assert(placed_clip(clips, lists, current, choice, i, out[i]));
}

} // verus!
