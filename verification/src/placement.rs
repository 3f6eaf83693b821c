//! Places the clips that have no match of their own.
//!
//! A clip without a match leans on the nearest clip that has one: it wants to be where
//! the recording times, or the recorded lengths, put it from there. Where that would
//! lay it over a neighbour it gives way, by no more than it has to. The clips next to
//! a match are placed first, so that one that leans on it from further away gives way
//! to one that is nearer.

use crate::arrange::{
    in_limit, last_placed, lemma_last_placed, lemma_length_nonneg, lemma_span_bound, lemma_span_split, span,
    total_length, valid_choice, views, ClipInfo, SyncResult, OVERLAP_TOL, TIME_LIMIT,
};
use vstd::prelude::*;

verus! {

/// The first clip from `i` on that `choice` places by audio.
pub open spec fn first_placed(choice: Seq<Option<usize>>, i: int) -> Option<int>
    decreases choice.len() - i,
{
    if i < 0 || i >= choice.len() {
        None
    } else if choice[i] is Some {
        Some(i)
    } else {
        first_placed(choice, i + 1)
    }
}

/// The match nearest to clip `i`, which has none, lies before it; of two that are
/// equally near it is the earlier.
pub open spec fn leans_back(choice: Seq<Option<usize>>, i: int) -> bool {
    match (last_placed(choice, i), first_placed(choice, i)) {
        (Some(a), Some(b)) => i - a <= b - i,
        (Some(_), None) => true,
        (None, _) => false,
    }
}

/// The clip that clip `i` is placed by: itself, or the nearest one with a match.
pub open spec fn anchor(choice: Seq<Option<usize>>, i: int) -> Option<int> {
    if choice[i] is Some {
        Some(i)
    } else if leans_back(choice, i) {
        last_placed(choice, i)
    } else {
        first_placed(choice, i)
    }
}

/// The offset of the match that `choice` takes for clip `a`.
pub open spec fn match_offset(lists: Seq<Seq<SyncResult>>, choice: Seq<Option<usize>>, a: int) -> int {
    lists[a][choice[a]->0 as int].offset as int
}

/// Offset of clip `i` next to clip `a`, which sits at `base`.
pub open spec fn beside(clips: Seq<ClipInfo>, a: int, base: int, i: int) -> int {
    match (clips[a].start_time, clips[i].start_time) {
        (Some(x), Some(y)) => base + (y - x),
        _ => if i > a {
            base + span(clips, a, i)
        } else {
            base - span(clips, i, a)
        },
    }
}

/// Where clip `i` wants to be next to the match of clip `a`.
pub open spec fn wish_from(
    clips: Seq<ClipInfo>,
    lists: Seq<Seq<SyncResult>>,
    choice: Seq<Option<usize>>,
    a: int,
    i: int,
) -> int {
    beside(clips, a, match_offset(lists, choice, a), i)
}

/// Where clip `i` would be with no regard to its neighbours.
pub open spec fn wish(
    clips: Seq<ClipInfo>,
    lists: Seq<Seq<SyncResult>>,
    choice: Seq<Option<usize>>,
    i: int,
) -> int {
    if choice[i] is Some {
        match_offset(lists, choice, i)
    } else {
        wish_from(clips, lists, choice, anchor(choice, i)->0, i)
    }
}

/// The earliest offset of clip `i` that leaves room for the clips from `m` on, of which
/// the first sits at `base`.
pub open spec fn earliest(clips: Seq<ClipInfo>, base: int, m: int, i: int) -> int {
    base + span(clips, m, i) - (i - m) * OVERLAP_TOL
}

/// The latest offset of clip `i` that leaves room for the clips up to `b`, of which the
/// last sits at `base`.
pub open spec fn latest(clips: Seq<ClipInfo>, base: int, i: int, b: int) -> int {
    base - span(clips, i, b) + (b - i) * OVERLAP_TOL
}

/// The smaller of two numbers.
pub open spec fn smaller(a: int, b: int) -> int {
    if a < b {
        a
    } else {
        b
    }
}

/// The larger of two numbers.
pub open spec fn larger(a: int, b: int) -> int {
    if a > b {
        a
    } else {
        b
    }
}

/// Offset of clip `i`, which leans on the match before it or has one: where it wants
/// to be, but clear of the clip before it, and with room for the clips up to the next
/// match.
pub open spec fn place_forward(
    clips: Seq<ClipInfo>,
    lists: Seq<Seq<SyncResult>>,
    choice: Seq<Option<usize>>,
    i: int,
) -> int
    decreases i + 1,
{
    if i < 0 {
        0
    } else if choice[i] is Some {
        match_offset(lists, choice, i)
    } else {
        let x = larger(
            wish_from(clips, lists, choice, last_placed(choice, i)->0, i),
            place_forward(clips, lists, choice, i - 1) + clips[i - 1].duration - OVERLAP_TOL,
        );
        match first_placed(choice, i) {
            Some(b) => smaller(x, latest(clips, match_offset(lists, choice, b), i, b)),
            None => x,
        }
    }
}

/// Of the clips between the matches of `a` and `b`, the last that leans on `a`; `a`
/// itself where there is none.
pub open spec fn middle(a: int, b: int) -> int {
    (a + b) / 2
}

/// Offset of clip `i`, which leans on the match behind it or has one: where it wants
/// to be, but clear of the clip behind it, and with room for the clips behind those
/// that lean on the match before it.
pub open spec fn place_backward(
    clips: Seq<ClipInfo>,
    lists: Seq<Seq<SyncResult>>,
    choice: Seq<Option<usize>>,
    i: int,
) -> int
    decreases choice.len() - i,
{
    if i < 0 || i >= choice.len() {
        0
    } else if choice[i] is Some {
        match_offset(lists, choice, i)
    } else {
        let b = first_placed(choice, i)->0;
        let x = smaller(
            wish_from(clips, lists, choice, b, i),
            place_backward(clips, lists, choice, i + 1) + OVERLAP_TOL - clips[i].duration,
        );
        match last_placed(choice, i) {
            Some(a) => {
                let m = middle(a, b);
                larger(x, earliest(clips, place_forward(clips, lists, choice, m), m, i))
            },
            None => x,
        }
    }
}

/// Offset of clip `i`.
pub open spec fn settled(
    clips: Seq<ClipInfo>,
    lists: Seq<Seq<SyncResult>>,
    choice: Seq<Option<usize>>,
    i: int,
) -> int {
    if choice[i] is Some || leans_back(choice, i) {
        place_forward(clips, lists, choice, i)
    } else {
        place_backward(clips, lists, choice, i)
    }
}

// ---------------------------------------------------------------- no overlap

pub(crate) proof fn lemma_first_placed(choice: Seq<Option<usize>>, i: int)
    requires
        0 <= i <= choice.len(),
    ensures
        match first_placed(choice, i) {
            Some(b) => {
                &&& i <= b < choice.len()
                &&& choice[b] is Some
                &&& forall|k: int| i <= k < b ==> (#[trigger] choice[k]) is None
            },
            None => forall|k: int| i <= k < choice.len() ==> (#[trigger] choice[k]) is None,
        },
    decreases choice.len() - i,
{
    if i < choice.len() && choice[i] is None {
        lemma_first_placed(choice, i + 1);
    }
}

/// Of two matches in a row the later leaves room for what was recorded before it.
proof fn lemma_match_gap(
    clips: Seq<ClipInfo>,
    lists: Seq<Seq<SyncResult>>,
    choice: Seq<Option<usize>>,
    a: int,
    b: int,
)
    requires
        valid_choice(clips, lists, choice),
        0 <= a < b < choice.len(),
        choice[a] is Some,
        choice[b] is Some,
        forall|k: int| a < k < b ==> (#[trigger] choice[k]) is None,
    ensures
        match_offset(lists, choice, b) >= match_offset(lists, choice, a) + span(clips, a, b) - OVERLAP_TOL,
{
    lemma_last_placed(choice, b);
    assert(last_placed(choice, b) == Some(a)) by {
        if last_placed(choice, b) is None {
            assert(choice[a] is None);
        }
    }
}

proof fn lemma_forward_room(
    clips: Seq<ClipInfo>,
    lists: Seq<Seq<SyncResult>>,
    choice: Seq<Option<usize>>,
    i: int,
    b: int,
)
    requires
        valid_choice(clips, lists, choice),
        0 <= i < choice.len(),
        first_placed(choice, i + 1) == Some(b),
    ensures
        place_forward(clips, lists, choice, i) <= latest(clips, match_offset(lists, choice, b), i, b),
{
    lemma_first_placed(choice, i + 1);
    if choice[i] is Some {
        lemma_match_gap(clips, lists, choice, i, b);
    }
}

proof fn lemma_forward_step(
    clips: Seq<ClipInfo>,
    lists: Seq<Seq<SyncResult>>,
    choice: Seq<Option<usize>>,
    i: int,
)
    requires
        valid_choice(clips, lists, choice),
        0 <= i,
        i + 1 < choice.len(),
        choice[i + 1] is None,
    ensures
        place_forward(clips, lists, choice, i) + clips[i].duration - OVERLAP_TOL <= place_forward(
            clips,
            lists,
            choice,
            i + 1,
        ),
{
    if first_placed(choice, i + 1) is Some {
        let b = first_placed(choice, i + 1)->0;
        lemma_first_placed(choice, i + 1);
        lemma_forward_room(clips, lists, choice, i, b);
        lemma_span_split(clips, i, i + 1, b);
        assert(span(clips, i, i) == 0);
        assert(span(clips, i, i + 1) == clips[i].duration);
    }
}

proof fn lemma_backward_room(
    clips: Seq<ClipInfo>,
    lists: Seq<Seq<SyncResult>>,
    choice: Seq<Option<usize>>,
    a: int,
    b: int,
    i: int,
)
    requires
        valid_choice(clips, lists, choice),
        0 <= i < choice.len(),
        last_placed(choice, i) == Some(a),
        first_placed(choice, i) == Some(b),
        middle(a, b) < i,
    ensures
        place_backward(clips, lists, choice, i) >= earliest(
            clips,
            place_forward(clips, lists, choice, middle(a, b)),
            middle(a, b),
            i,
        ),
        place_backward(clips, lists, choice, i) <= latest(clips, match_offset(lists, choice, b), i, b),
    decreases choice.len() - i,
{
    let m = middle(a, b);
    lemma_last_placed(choice, i);
    lemma_first_placed(choice, i);
    lemma_first_placed(choice, m + 1);
    assert(first_placed(choice, m + 1) == Some(b)) by {
        assert(choice[b] is Some);
    }
    lemma_forward_room(clips, lists, choice, m, b);
    lemma_span_split(clips, m, i, b);
    if choice[i] is Some {
        assert(span(clips, b, b) == 0);
    } else {
        assert(last_placed(choice, i + 1) == Some(a));
        lemma_backward_room(clips, lists, choice, a, b, i + 1);
        lemma_span_split(clips, i, i + 1, b);
        assert(span(clips, i, i) == 0);
        assert(span(clips, i, i + 1) == clips[i].duration);
    }
}

proof fn lemma_backward_step(
    clips: Seq<ClipInfo>,
    lists: Seq<Seq<SyncResult>>,
    choice: Seq<Option<usize>>,
    i: int,
)
    requires
        valid_choice(clips, lists, choice),
        0 <= i < choice.len(),
        choice[i] is None,
        first_placed(choice, i) is Some,
        last_placed(choice, i) matches Some(a) ==> middle(a, first_placed(choice, i)->0) < i,
    ensures
        i + 1 < choice.len(),
        place_backward(clips, lists, choice, i) + clips[i].duration <= place_backward(clips, lists, choice, i + 1)
            + OVERLAP_TOL,
{
    let b = first_placed(choice, i)->0;
    lemma_first_placed(choice, i);
    if last_placed(choice, i) is Some {
        let a = last_placed(choice, i)->0;
        let m = middle(a, b);
        assert(last_placed(choice, i + 1) == Some(a));
        lemma_backward_room(clips, lists, choice, a, b, i + 1);
        lemma_span_split(clips, m, i, i + 1);
        assert(span(clips, i, i) == 0);
        assert(span(clips, i, i + 1) == clips[i].duration);
    }
}

/// Which way two clips in a row lean.
proof fn lemma_lean(choice: Seq<Option<usize>>, i: int)
    requires
        0 <= i,
        i + 1 < choice.len(),
    ensures
        choice[i + 1] is None && leans_back(choice, i + 1) ==> choice[i] is Some || leans_back(choice, i),
        choice[i] is None && !leans_back(choice, i) ==> choice[i + 1] is Some || !leans_back(choice, i + 1),
{
    lemma_first_placed(choice, i);
    lemma_last_placed(choice, i + 1);
}

/// Settled clips do not overlap by more than [`OVERLAP_TOL`].
pub(crate) proof fn lemma_settled_clear(
    clips: Seq<ClipInfo>,
    lists: Seq<Seq<SyncResult>>,
    choice: Seq<Option<usize>>,
    i: int,
)
    requires
        valid_choice(clips, lists, choice),
        0 <= i,
        i + 1 < choice.len(),
        anchor(choice, i) is Some,
    ensures
        settled(clips, lists, choice, i) + clips[i].duration <= settled(clips, lists, choice, i + 1) + OVERLAP_TOL,
{
    lemma_lean(choice, i);
    lemma_first_placed(choice, i);
    lemma_first_placed(choice, i + 1);
    lemma_last_placed(choice, i);
    lemma_last_placed(choice, i + 1);
    if choice[i + 1] is None && leans_back(choice, i + 1) {
        lemma_forward_step(clips, lists, choice, i);
    } else if choice[i] is None && !leans_back(choice, i) {
        lemma_backward_step(clips, lists, choice, i);
    } else {
        assert(span(clips, i, i) == 0);
        assert(span(clips, i, i + 1) == clips[i].duration);
        if choice[i + 1] is Some {
            lemma_forward_room(clips, lists, choice, i, i + 1);
        } else {
            let a = last_placed(choice, i + 1)->0;
            let b = first_placed(choice, i + 1)->0;
            assert(middle(a, b) == i);
            lemma_backward_room(clips, lists, choice, a, b, i + 1);
        }
    }
}

/// A clip that is not where it wants to be has moved later up against the clip before
/// it, or earlier up against the clip behind it.
pub(crate) proof fn lemma_settled_moves(
    clips: Seq<ClipInfo>,
    lists: Seq<Seq<SyncResult>>,
    choice: Seq<Option<usize>>,
    i: int,
)
    requires
        valid_choice(clips, lists, choice),
        0 <= i < choice.len(),
        anchor(choice, i) is Some,
    ensures
        ({
            let o = settled(clips, lists, choice, i);
            let w = wish(clips, lists, choice, i);
            &&& o > w ==> i > 0 && o == settled(clips, lists, choice, i - 1) + clips[i - 1].duration - OVERLAP_TOL
            &&& o < w ==> i + 1 < choice.len() && o + clips[i].duration == settled(clips, lists, choice, i + 1)
                + OVERLAP_TOL
            &&& choice[i] is Some ==> o == w
        }),
{
    if choice[i] is None {
        let o = settled(clips, lists, choice, i);
        let w = wish(clips, lists, choice, i);
        lemma_first_placed(choice, i);
        lemma_last_placed(choice, i);
        if leans_back(choice, i) {
            let a = last_placed(choice, i)->0;
            lemma_lean(choice, i - 1);
            lemma_forward_step(clips, lists, choice, i - 1);
            if o < w {
                let b = first_placed(choice, i)->0;
                let base = match_offset(lists, choice, b);
                lemma_settled_clear(clips, lists, choice, i);
                lemma_span_split(clips, i, i + 1, b);
                assert(span(clips, i, i) == 0);
                assert(span(clips, i, i + 1) == clips[i].duration);
                assert(last_placed(choice, i + 1) == Some(a));
                assert(settled(clips, lists, choice, i + 1) <= latest(clips, base, i + 1, b)) by {
                    lemma_first_placed(choice, i + 1);
                    if choice[i + 1] is Some {
                        assert(span(clips, b, b) == 0);
                    } else if leans_back(choice, i + 1) {
                    } else {
                        lemma_backward_room(clips, lists, choice, a, b, i + 1);
                    }
                }
            }
        } else {
            let b = first_placed(choice, i)->0;
            lemma_lean(choice, i);
            lemma_backward_step(clips, lists, choice, i);
            if o > w {
                let a = last_placed(choice, i)->0;
                let m = middle(a, b);
                assert(m < i);
                assert(m >= a);
                lemma_span_split(clips, m, i - 1, i);
                assert(span(clips, i - 1, i - 1) == 0);
                assert(span(clips, i - 1, i) == clips[i - 1].duration);
                lemma_last_placed(choice, i - 1);
                lemma_first_placed(choice, i - 1);
                assert(anchor(choice, i - 1) is Some);
                lemma_settled_clear(clips, lists, choice, i - 1);
                assert(settled(clips, lists, choice, i - 1) >= earliest(
                    clips,
                    place_forward(clips, lists, choice, m),
                    m,
                    i - 1,
                )) by {
                    if i - 1 == m {
                        assert(span(clips, m, m) == 0);
                        assert(choice[m] is Some || leans_back(choice, m));
                    } else {
                        assert(choice[i - 1] is None);
                        assert(last_placed(choice, i - 1) == Some(a));
                        assert(!leans_back(choice, i - 1));
                    }
                }
            }
        }
    }
}

/// Before a clip whose recording time leaves room for them, the clips behind a match
/// end in time.
pub(crate) proof fn lemma_forward_below(
    clips: Seq<ClipInfo>,
    lists: Seq<Seq<SyncResult>>,
    choice: Seq<Option<usize>>,
    a: int,
    j: int,
    i: int,
)
    requires
        0 <= a <= j < i < clips.len(),
        choice.len() == clips.len(),
        choice[a] is Some,
        forall|k: int| a < k < i ==> (#[trigger] choice[k]) is None,
        clips[a].start_time is Some,
        clips[i].start_time is Some,
        forall|k: int|
            a <= k < i && (#[trigger] clips[k]).start_time is Some ==> clips[i].start_time->0
                - clips[k].start_time->0 >= span(clips, k, i),
    ensures
        place_forward(clips, lists, choice, j) + span(clips, j, i) <= match_offset(lists, choice, a) + (
        clips[i].start_time->0 - clips[a].start_time->0),
    decreases j,
{
    assert(clips[a].start_time is Some);
    assert(clips[j].start_time is Some ==> clips[i].start_time->0 - clips[j].start_time->0 >= span(clips, j, i));
    if j > a {
        lemma_forward_below(clips, lists, choice, a, j - 1, i);
        lemma_last_placed(choice, j);
        assert(last_placed(choice, j) == Some(a)) by {
            if last_placed(choice, j) is None {
                assert(choice[a] is None);
            }
        }
        lemma_span_split(clips, a, j, i);
        lemma_span_split(clips, j - 1, j, i);
        assert(span(clips, j - 1, j - 1) == 0);
        assert(span(clips, j - 1, j) == clips[j - 1].duration);
    }
}

/// Behind a clip whose recording time leaves room for them, the clips before a match
/// start late enough.
pub(crate) proof fn lemma_backward_above(
    clips: Seq<ClipInfo>,
    lists: Seq<Seq<SyncResult>>,
    choice: Seq<Option<usize>>,
    i: int,
    j: int,
    b: int,
)
    requires
        0 <= i < j <= b < clips.len(),
        choice.len() == clips.len(),
        choice[b] is Some,
        forall|k: int| i < k < b ==> (#[trigger] choice[k]) is None,
        clips[b].start_time is Some,
        clips[i].start_time is Some,
        forall|k: int|
            i < k <= b && (#[trigger] clips[k]).start_time is Some ==> clips[k].start_time->0
                - clips[i].start_time->0 >= span(clips, i, k),
    ensures
        place_backward(clips, lists, choice, j) - span(clips, i, j) >= match_offset(lists, choice, b) - (
        clips[b].start_time->0 - clips[i].start_time->0),
    decreases b - j,
{
    assert(clips[b].start_time is Some);
    assert(clips[j].start_time is Some ==> clips[j].start_time->0 - clips[i].start_time->0 >= span(clips, i, j));
    if j < b {
        lemma_backward_above(clips, lists, choice, i, j + 1, b);
        lemma_first_placed(choice, j);
        assert(first_placed(choice, j) == Some(b)) by {
            assert(choice[b] is Some);
        }
        lemma_span_split(clips, i, j, b);
        lemma_span_split(clips, i, j, j + 1);
        assert(span(clips, j, j) == 0);
        assert(span(clips, j, j + 1) == clips[j].duration);
    }
}

// ---------------------------------------------------------------- placing

/// All times are within the limit.
pub open spec fn times_bounded(clips: Seq<ClipInfo>, lists: Seq<Seq<SyncResult>>) -> bool {
    &&& total_length(clips, clips.len() as int) <= TIME_LIMIT
    &&& forall|k: int|
        0 <= k < clips.len() ==> ((#[trigger] clips[k]).start_time matches Some(t) ==> in_limit(t as int))
    &&& forall|k: int, c: int|
        0 <= k < lists.len() && 0 <= c < lists[k].len() ==> in_limit((#[trigger] lists[k][c]).offset as int)
}

/// What placing clips starts from.
pub open spec fn placeable(
    clips: Seq<ClipInfo>,
    lists: Seq<Seq<SyncResult>>,
    choice: Seq<Option<usize>>,
) -> bool {
    &&& clips.len() == lists.len() == choice.len()
    &&& times_bounded(clips, lists)
    &&& valid_choice(clips, lists, choice)
}

proof fn lemma_wish_bound(
    clips: Seq<ClipInfo>,
    lists: Seq<Seq<SyncResult>>,
    choice: Seq<Option<usize>>,
    a: int,
    i: int,
)
    requires
        placeable(clips, lists, choice),
        0 <= a < clips.len(),
        0 <= i < clips.len(),
        choice[a] is Some,
    ensures
        in_limit(match_offset(lists, choice, a)),
        -3 * TIME_LIMIT <= wish_from(clips, lists, choice, a, i) <= 3 * TIME_LIMIT,
{
    assert(choice[a]->0 < lists[a].len());
    assert(in_limit(lists[a][choice[a]->0 as int].offset as int));
    assert(clips[a].start_time matches Some(t) ==> in_limit(t as int));
    assert(clips[i].start_time matches Some(t) ==> in_limit(t as int));
    let n = clips.len() as int;
    if i > a {
        lemma_span_bound(clips, a, i, n);
    } else {
        lemma_span_bound(clips, i, a, n);
    }
}

proof fn lemma_forward_bound(
    clips: Seq<ClipInfo>,
    lists: Seq<Seq<SyncResult>>,
    choice: Seq<Option<usize>>,
    i: int,
)
    requires
        placeable(clips, lists, choice),
        0 <= i < clips.len(),
        choice[i] is Some || last_placed(choice, i) is Some,
    ensures
        -3 * TIME_LIMIT <= place_forward(clips, lists, choice, i) <= 3 * TIME_LIMIT + total_length(clips, i),
    decreases i,
{
    let n = clips.len() as int;
    lemma_span_bound(clips, i, i, n);
    lemma_length_nonneg(clips, i);
    if choice[i] is Some {
        lemma_wish_bound(clips, lists, choice, i, i);
    } else {
        lemma_last_placed(choice, i);
        lemma_first_placed(choice, i);
        let a = last_placed(choice, i)->0;
        lemma_wish_bound(clips, lists, choice, a, i);
        lemma_forward_bound(clips, lists, choice, i - 1);
        if first_placed(choice, i) is Some {
            let b = first_placed(choice, i)->0;
            lemma_wish_bound(clips, lists, choice, b, i);
            lemma_span_bound(clips, i, b, n);
        }
    }
}

proof fn lemma_backward_bound(
    clips: Seq<ClipInfo>,
    lists: Seq<Seq<SyncResult>>,
    choice: Seq<Option<usize>>,
    i: int,
)
    requires
        placeable(clips, lists, choice),
        0 <= i < clips.len(),
        first_placed(choice, i) is Some,
        choice[i] is Some || !leans_back(choice, i),
    ensures
        -3 * TIME_LIMIT - (total_length(clips, clips.len() as int) - total_length(clips, i)) <= place_backward(
            clips,
            lists,
            choice,
            i,
        ) <= 5 * TIME_LIMIT,
    decreases clips.len() - i,
{
    let n = clips.len() as int;
    lemma_span_bound(clips, i, i, n);
    lemma_first_placed(choice, i);
    let b = first_placed(choice, i)->0;
    lemma_wish_bound(clips, lists, choice, b, i);
    if choice[i] is None {
        lemma_lean(choice, i);
        lemma_backward_bound(clips, lists, choice, i + 1);
        lemma_last_placed(choice, i);
        if last_placed(choice, i) is Some {
            let a = last_placed(choice, i)->0;
            let m = middle(a, b);
            assert(a <= m < i);
            assert(choice[m] is Some || last_placed(choice, m) is Some) by {
                lemma_last_placed(choice, m);
            }
            lemma_forward_bound(clips, lists, choice, m);
            lemma_span_bound(clips, m, i, n);
            lemma_span_bound(clips, m, m, n);
        }
    }
}

/// An index as a number.
pub open spec fn index_of(k: Option<usize>) -> Option<int> {
    match k {
        Some(j) => Some(j as int),
        None => None,
    }
}

/// For each clip the last match before it.
fn matches_before(choice: &Vec<Option<usize>>) -> (out: Vec<Option<usize>>)
    ensures
        out@.len() == choice@.len(),
        forall|i: int| 0 <= i < out@.len() ==> index_of(#[trigger] out@[i]) == last_placed(choice@, i),
{
    let mut out: Vec<Option<usize>> = Vec::new();
    let mut last: Option<usize> = None;
    let mut i: usize = 0;
    while i < choice.len()
        invariant
            i <= choice@.len(),
            out@.len() == i,
            index_of(last) == last_placed(choice@, i as int),
            forall|k: int| 0 <= k < i ==> index_of(#[trigger] out@[k]) == last_placed(choice@, k),
        decreases choice@.len() - i,
    {
        out.push(last);
        if choice[i].is_some() {
            last = Some(i);
        }
        i = i + 1;
    }
    out
}

/// For each clip the first match from it on.
fn matches_from(choice: &Vec<Option<usize>>) -> (out: Vec<Option<usize>>)
    ensures
        out@.len() == choice@.len(),
        forall|i: int| 0 <= i < out@.len() ==> index_of(#[trigger] out@[i]) == first_placed(choice@, i),
{
    let n: usize = choice.len();
    let mut out: Vec<Option<usize>> = Vec::new();
    let mut j: usize = 0;
    while j < n
        invariant
            n == choice@.len(),
            j <= n,
            out@.len() == j,
            forall|k: int| 0 <= k < j ==> (#[trigger] out@[k]) is None,
        decreases n - j,
    {
        out.push(None);
        j = j + 1;
    }
    let mut next: Option<usize> = None;
    let mut i: usize = n;
    while i > 0
        invariant
            n == choice@.len(),
            i <= n,
            out@.len() == n,
            index_of(next) == first_placed(choice@, i as int),
            forall|k: int| i <= k < n ==> index_of(#[trigger] out@[k]) == first_placed(choice@, k),
        decreases i,
    {
        i = i - 1;
        if choice[i].is_some() {
            next = Some(i);
        }
        out.set(i, next);
    }
    out
}

/// The prefix sums of the lengths.
pub open spec fn is_before(clips: Seq<ClipInfo>, before: Seq<i64>) -> bool {
    &&& before.len() == clips.len() + 1
    &&& forall|k: int| 0 <= k <= clips.len() ==> (#[trigger] before[k]) == span(clips, 0, k)
}

/// Where clip `i` wants to be next to the match of clip `a`.
fn offset_beside(
    clips: &Vec<ClipInfo>,
    lists: &Vec<Vec<SyncResult>>,
    choice: &Vec<Option<usize>>,
    before: &Vec<i64>,
    a: usize,
    i: usize,
) -> (t: i64)
    requires
        placeable(clips@, views(lists@), choice@),
        is_before(clips@, before@),
        a < clips@.len(),
        i < clips@.len(),
        choice@[a as int] is Some,
    ensures
        t == wish_from(clips@, views(lists@), choice@, a as int, i as int),
{
    let base: i64 = matched_offset(lists, choice, a, Ghost(clips@));
    proof {
        let n = clips@.len() as int;
        lemma_wish_bound(clips@, views(lists@), choice@, a as int, i as int);
        assert(clips@[a as int].start_time matches Some(t) ==> in_limit(t as int));
        assert(clips@[i as int].start_time matches Some(t) ==> in_limit(t as int));
        assert(before@[a as int] == span(clips@, 0, a as int));
        assert(before@[i as int] == span(clips@, 0, i as int));
        lemma_span_bound(clips@, 0, a as int, n);
        lemma_span_bound(clips@, 0, i as int, n);
        if i > a {
            lemma_span_split(clips@, 0, a as int, i as int);
            lemma_span_bound(clips@, a as int, i as int, n);
        } else {
            lemma_span_split(clips@, 0, i as int, a as int);
            lemma_span_bound(clips@, i as int, a as int, n);
        }
    }
    match (clips[a].start_time, clips[i].start_time) {
        (Some(x), Some(y)) => base + (y - x),
        _ => if i > a {
            base + (before[i] - before[a])
        } else {
            base - (before[a] - before[i])
        },
    }
}

/// The offset of the match that is taken for clip `a`.
fn matched_offset(
    lists: &Vec<Vec<SyncResult>>,
    choice: &Vec<Option<usize>>,
    a: usize,
    Ghost(clips): Ghost<Seq<ClipInfo>>,
) -> (t: i64)
    requires
        placeable(clips, views(lists@), choice@),
        a < choice@.len(),
        choice@[a as int] is Some,
    ensures
        t == match_offset(views(lists@), choice@, a as int),
{
    assert(choice@[a as int]->0 < views(lists@)[a as int].len());
    match choice[a] {
        Some(c) => lists[a][c].offset,
        None => 0,
    }
}

/// Recorded time from the start of clip `j` to the start of clip `i`.
fn span_of(before: &Vec<i64>, j: usize, i: usize, Ghost(clips): Ghost<Seq<ClipInfo>>) -> (d: i128)
    requires
        is_before(clips, before@),
        j <= i <= clips.len(),
    ensures
        d == span(clips, j as int, i as int),
{
    proof {
        lemma_span_split(clips, 0, j as int, i as int);
        assert(before@[j as int] == span(clips, 0, j as int));
        assert(before@[i as int] == span(clips, 0, i as int));
    }
    before[i] as i128 - before[j] as i128
}

/// Offsets of the clips that have a match or lean on the one before them.
fn placed_forward(
    clips: &Vec<ClipInfo>,
    lists: &Vec<Vec<SyncResult>>,
    choice: &Vec<Option<usize>>,
    before: &Vec<i64>,
    back: &Vec<Option<usize>>,
    next: &Vec<Option<usize>>,
) -> (out: Vec<i64>)
    requires
        placeable(clips@, views(lists@), choice@),
        is_before(clips@, before@),
        back@.len() == choice@.len(),
        next@.len() == choice@.len(),
        forall|i: int| 0 <= i < back@.len() ==> index_of(#[trigger] back@[i]) == last_placed(choice@, i),
        forall|i: int| 0 <= i < next@.len() ==> index_of(#[trigger] next@[i]) == first_placed(choice@, i),
    ensures
        out@.len() == choice@.len(),
        forall|i: int|
            0 <= i < out@.len() && (choice@[i] is Some || last_placed(choice@, i) is Some) ==> #[trigger] out@[i]
                == place_forward(clips@, views(lists@), choice@, i),
{
    let ghost want = views(lists@);
    let mut out: Vec<i64> = Vec::new();
    let mut i: usize = 0;
    while i < choice.len()
        invariant
            want == views(lists@),
            placeable(clips@, want, choice@),
            is_before(clips@, before@),
            back@.len() == choice@.len(),
            next@.len() == choice@.len(),
            forall|k: int| 0 <= k < back@.len() ==> index_of(#[trigger] back@[k]) == last_placed(choice@, k),
            forall|k: int| 0 <= k < next@.len() ==> index_of(#[trigger] next@[k]) == first_placed(choice@, k),
            i <= choice@.len(),
            out@.len() == i,
            forall|k: int|
                0 <= k < i && (choice@[k] is Some || last_placed(choice@, k) is Some) ==> #[trigger] out@[k]
                    == place_forward(clips@, want, choice@, k),
        decreases choice@.len() - i,
    {
        proof {
            assert(index_of(back@[i as int]) == last_placed(choice@, i as int));
            assert(index_of(next@[i as int]) == first_placed(choice@, i as int));
            lemma_last_placed(choice@, i as int);
            lemma_first_placed(choice@, i as int);
            if choice@[i as int] is Some || last_placed(choice@, i as int) is Some {
                lemma_forward_bound(clips@, want, choice@, i as int);
                lemma_span_bound(clips@, i as int, i as int, clips@.len() as int);
            }
        }
        let t: i64 = if choice[i].is_some() {
            matched_offset(lists, choice, i, Ghost(clips@))
        } else {
            match back[i] {
                None => 0,
                Some(a) => {
                    let w: i64 = offset_beside(clips, lists, choice, before, a, i);
                    let lo: i128 = out[i - 1] as i128 + clips[i - 1].duration as i128 - OVERLAP_TOL as i128;
                    let x: i128 = if w as i128 > lo {
                        w as i128
                    } else {
                        lo
                    };
                    let y: i128 = match next[i] {
                        None => x,
                        Some(b) => {
                            let base: i64 = matched_offset(lists, choice, b, Ghost(clips@));
                            let gap: i128 = span_of(before, i, b, Ghost(clips@));
                            proof {
                                lemma_span_bound(clips@, i as int, b as int, clips@.len() as int);
                            }
                            let hi: i128 = base as i128 - gap + ((b - i) as i128) * (OVERLAP_TOL as i128);
                            if x < hi {
                                x
                            } else {
                                hi
                            }
                        },
                    };
                    assert(y == place_forward(clips@, want, choice@, i as int));
                    y as i64
                },
            }
        };
        out.push(t);
        i = i + 1;
    }
    out
}

/// Offsets of all clips; `None` where no clip has a match.
pub(crate) fn settle_clips(
    clips: &Vec<ClipInfo>,
    lists: &Vec<Vec<SyncResult>>,
    choice: &Vec<Option<usize>>,
    before: &Vec<i64>,
) -> (out: Vec<Option<i64>>)
    requires
        placeable(clips@, views(lists@), choice@),
        is_before(clips@, before@),
    ensures
        out@.len() == choice@.len(),
        forall|i: int|
            0 <= i < out@.len() ==> match #[trigger] out@[i] {
                Some(t) => anchor(choice@, i) is Some && t == settled(clips@, views(lists@), choice@, i),
                None => anchor(choice@, i) is None,
            },
{
    let ghost want = views(lists@);
    let n: usize = choice.len();
    let back: Vec<Option<usize>> = matches_before(choice);
    let next: Vec<Option<usize>> = matches_from(choice);
    let forward: Vec<i64> = placed_forward(clips, lists, choice, before, &back, &next);
    let mut out: Vec<Option<i64>> = Vec::new();
    let mut j: usize = 0;
    while j < n
        invariant
            n == choice@.len(),
            j <= n,
            out@.len() == j,
        decreases n - j,
    {
        out.push(None);
        j = j + 1;
    }
    // Offset of the clip behind, where that has a match or leans on one behind it.
    let mut behind: i64 = 0;
    let mut i: usize = n;
    while i > 0
        invariant
            n == choice@.len(),
            want == views(lists@),
            placeable(clips@, want, choice@),
            is_before(clips@, before@),
            back@.len() == n,
            next@.len() == n,
            forward@.len() == n,
            forall|k: int| 0 <= k < back@.len() ==> index_of(#[trigger] back@[k]) == last_placed(choice@, k),
            forall|k: int| 0 <= k < next@.len() ==> index_of(#[trigger] next@[k]) == first_placed(choice@, k),
            forall|k: int|
                0 <= k < n && (choice@[k] is Some || last_placed(choice@, k) is Some) ==> #[trigger] forward@[k]
                    == place_forward(clips@, want, choice@, k),
            i <= n,
            out@.len() == n,
            i < n && first_placed(choice@, i as int) is Some && (choice@[i as int] is Some || !leans_back(
                choice@,
                i as int,
            )) ==> behind == place_backward(clips@, want, choice@, i as int),
            forall|k: int|
                i <= k < n ==> match #[trigger] out@[k] {
                    Some(t) => anchor(choice@, k) is Some && t == settled(clips@, want, choice@, k),
                    None => anchor(choice@, k) is None,
                },
        decreases i,
    {
        i = i - 1;
        proof {
            assert(index_of(back@[i as int]) == last_placed(choice@, i as int));
            assert(index_of(next@[i as int]) == first_placed(choice@, i as int));
            lemma_last_placed(choice@, i as int);
            lemma_first_placed(choice@, i as int);
            assert(forward@.len() == n);
            if choice@[i as int] is Some || last_placed(choice@, i as int) is Some {
                assert(forward@[i as int] == place_forward(clips@, want, choice@, i as int));
            }
        }
        if choice[i].is_some() {
            behind = forward[i];
            out.set(i, Some(forward[i]));
        } else {
            match next[i] {
                None => {
                    if back[i].is_some() {
                        out.set(i, Some(forward[i]));
                    } else {
                        out.set(i, None);
                    }
                },
                Some(b) => {
                    let near: bool = match back[i] {
                        Some(a) => i - a <= b - i,
                        None => false,
                    };
                    assert(near == leans_back(choice@, i as int));
                    if near {
                        out.set(i, Some(forward[i]));
                    } else {
                        proof {
                            lemma_lean(choice@, i as int);
                            lemma_backward_bound(clips@, want, choice@, i as int);
                            lemma_length_nonneg(clips@, i as int);
                            lemma_backward_bound(clips@, want, choice@, i + 1);
                        }
                        let w: i64 = offset_beside(clips, lists, choice, before, b, i);
                        let hi: i128 = behind as i128 + OVERLAP_TOL as i128 - clips[i].duration as i128;
                        let x: i128 = if (w as i128) < hi {
                            w as i128
                        } else {
                            hi
                        };
                        let y: i128 = match back[i] {
                            None => x,
                            Some(a) => {
                                let m: usize = a + (b - a) / 2;
                                proof {
                                    assert(m == middle(a as int, b as int));
                                    assert(a <= m < i);
                                    lemma_last_placed(choice@, m as int);
                                    assert(forward@[m as int] == place_forward(clips@, want, choice@, m as int));
                                }
                                let gap: i128 = span_of(before, m, i, Ghost(clips@));
                                proof {
                                    lemma_span_bound(clips@, m as int, i as int, clips@.len() as int);
                                }
                                let lo: i128 = forward[m] as i128 + gap - ((i - m) as i128) * (
                                OVERLAP_TOL as i128);
                                if x > lo {
                                    x
                                } else {
                                    lo
                                }
                            },
                        };
                        assert(y == place_backward(clips@, want, choice@, i as int));
                        behind = y as i64;
                        out.set(i, Some(y as i64));
                    }
                },
            }
        }
    }
    out
}

} // verus!
