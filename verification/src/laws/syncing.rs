//! Finding clips in the master recording by votes of sound chunks.

use crate::arrange::SyncResult;
use crate::order::median_of;
use crate::sync::{
    agreement, chunk_count, chunk_end, chunk_start, cluster, confidences, densest, dot, ends_stamped,
    is_group, is_grouping, is_refined, joins, lag_count, offset_at_start, ranked, reachable,
    spread, start_of, support, total, used_after, votes_of, votes_ok, ChunkVote, Group, BIN, HOP, SAMPLE,
    SYNC_RATE,
};
use crate::units::size;
use vstd::prelude::*;

verus! {

/// A bin is ten milliseconds, and the samples, bins and seconds fit together.
pub proof fn lemma_units_fit_together()
    ensures
        SYNC_RATE * SAMPLE == 1_000_000,
        HOP * SAMPLE == BIN,
        BIN == 10_000,
{
}

/// Chunks start every ten seconds, the first at the beginning. All but the last are
/// fifteen seconds long; the last goes to the end of the clip, and is at least five
/// seconds long. A clip of five seconds has a chunk, a shorter one none.
pub proof fn lemma_chunks_go_on(len: int, i: int)
    requires
        0 <= len,
        0 <= i < chunk_count(len),
    ensures
        BIN * chunk_start(i) == i * 10_000_000,
        i + 1 < chunk_count(len) ==> BIN * (chunk_end(len, i) - chunk_start(i)) == 15_000_000,
        i + 1 == chunk_count(len) ==> chunk_end(len, i) == len,
        BIN * (chunk_end(len, i) - chunk_start(i)) >= 5_000_000,
{
}

/// Whether a clip has chunks depends on its length alone: five seconds are enough.
pub proof fn lemma_five_seconds_are_enough(len: int)
    requires
        0 <= len,
    ensures
        chunk_count(len) > 0 <==> BIN * len >= 5_000_000,
{
}

/// The places that are tried for a chunk are those at which it lies wholly inside the
/// master.
pub proof fn lemma_places_lie_inside(nb: int, m: int, lag: int)
    requires
        0 < m,
        0 <= nb,
    ensures
        0 <= lag < lag_count(nb, m) <==> 0 <= lag && lag + m <= nb,
{
}

/// Every chunk with a match votes, with its score, for the start of the clip that puts
/// the chunk where it matched: the chunk's place in the clip and the clip's offset add up
/// to the place in the master. Chunks without a match do not vote.
pub proof fn lemma_votes_imply_starts(matches: Seq<Option<(i64, i32)>>, n: int, k: int)
    requires
        0 <= k < n <= matches.len(),
        n <= 0x1_0000,
        forall|i: int|
            0 <= i < matches.len() ==> ((#[trigger] matches[i]) matches Some(m) ==> 0 <= m.0 <= 0x400_0000),
    ensures
        matches[k] matches Some(m) ==> exists|p: int|
            {
                &&& 0 <= p < votes_of(matches, n).len()
                &&& BIN * (#[trigger] votes_of(matches, n)[p]).at == k * 10_000_000
                &&& votes_of(matches, n)[p].at + votes_of(matches, n)[p].offset == m.0
                &&& votes_of(matches, n)[p].score == m.1
            },
        votes_of(matches, n).len() == votes_of(matches, n - 1).len() + if matches[n - 1] is Some {
            1int
        } else {
            0
        },
    decreases n,
{
    if matches[k] is Some {
        if k == n - 1 {
            let p = votes_of(matches, n - 1).len() as int;
            let m = matches[k]->0;
            assert(votes_of(matches, n)[p].score == m.1);
        } else {
            lemma_votes_imply_starts(matches, n - 1, k);
            let m = matches[k]->0;
            let before = votes_of(matches, n - 1);
            let p = choose|p: int|
                {
                    &&& 0 <= p < before.len()
                    &&& BIN * (#[trigger] before[p]).at == k * 10_000_000
                    &&& before[p].at + before[p].offset == m.0
                    &&& before[p].score == m.1
                };
            assert(votes_of(matches, n)[p] == before[p]);
        }
    }
}

proof fn lemma_cluster_exact(votes: Seq<ChunkVote>, used: Seq<bool>, c: int, n: int, j: int)
    requires
        0 <= n <= votes.len() <= 0x1_0000,
        0 <= j < n,
    ensures
        cluster(votes, used, c, n).contains(j as usize) <==> joins(votes, used, c, j),
    decreases n,
{
    let last = n - 1;
    let before = cluster(votes, used, c, last);
    if j < last {
        lemma_cluster_exact(votes, used, c, last, j);
        if joins(votes, used, c, last) {
            let now = before.push(last as usize);
            assert(now.contains(j as usize) <==> before.contains(j as usize)) by {
                if before.contains(j as usize) {
                    let p = choose|p: int| 0 <= p < before.len() && before[p] == j as usize;
                    assert(now[p] == j as usize);
                }
                if now.contains(j as usize) {
                    let p = choose|p: int| 0 <= p < now.len() && now[p] == j as usize;
                    assert(p < before.len());
                    assert(before[p] == j as usize);
                }
            }
        }
    } else {
        lemma_cluster_below(votes, used, c, last);
        if joins(votes, used, c, last) {
            let now = before.push(last as usize);
            assert(now[before.len() as int] == last as usize);
        } else if before.contains(j as usize) {
            let p = choose|p: int| 0 <= p < before.len() && before[p] == j as usize;
            assert(before[p] < last);
        }
    }
}

proof fn lemma_cluster_below(votes: Seq<ChunkVote>, used: Seq<bool>, c: int, n: int)
    requires
        0 <= n <= 0x1_0000,
    ensures
        forall|p: int| 0 <= p < cluster(votes, used, c, n).len() ==> (#[trigger] cluster(votes, used, c, n)[p]) < n,
    decreases n,
{
    if n > 0 {
        lemma_cluster_below(votes, used, c, n - 1);
        let before = cluster(votes, used, c, n - 1);
        let now = cluster(votes, used, c, n);
        assert forall|p: int| 0 <= p < now.len() implies (#[trigger] now[p]) < n by {
            if p < before.len() {
                assert(now[p] == before[p]);
            }
        }
    }
}

/// The votes behind the first candidate are all those that matched, with a correlation of
/// a fifth at least, and are within half a second of one of them.
pub proof fn lemma_first_candidate_has_all_near_votes(
    votes: Seq<ChunkVote>,
    clip_len: int,
    master_len: int,
    centers: Seq<int>,
    groups: Seq<Group>,
    j: int,
)
    requires
        votes_ok(votes),
        is_grouping(votes, clip_len, master_len, centers, groups),
        groups.len() > 0,
        0 <= j < votes.len(),
    ensures
        0 <= centers[0] < votes.len() && votes[centers[0]].score >= 200_000,
        groups[0].members@.contains(j as usize) <==> votes[j].score >= 200_000 && BIN * size(
            votes[j].offset - votes[centers[0]].offset,
        ) <= 500_000,
{
    let none = used_after(votes, centers, 0);
    assert(densest(votes, none, centers[0]));
    assert(is_group(votes, none, centers[0], clip_len, master_len, groups[0]));
    lemma_cluster_exact(votes, none, centers[0], votes.len() as int, j);
}

proof fn lemma_equal_support(votes: Seq<ChunkVote>, used: Seq<bool>, c: int, n: int, s: int)
    requires
        0 <= n <= votes.len(),
        forall|i: int| 0 <= i < votes.len() && (#[trigger] votes[i]).score >= 200_000 ==> votes[i].score == s,
    ensures
        support(votes, used, c, n) == s * cluster(votes, used, c, n).len(),
    decreases n,
{
    if n > 0 {
        lemma_equal_support(votes, used, c, n - 1, s);
        let k = cluster(votes, used, c, n - 1).len() as int;
        assert(s * (k + 1) == s * k + s) by (nonlinear_arith);
    } else {
        assert(s * 0 == 0);
    }
}

/// The offset most chunks agree on wins: among chunks that matched equally well, no
/// chunk has more others within half a second of its offset, itself counted, than stand
/// behind the first candidate.
pub proof fn lemma_most_agreed_offset_wins(
    votes: Seq<ChunkVote>,
    clip_len: int,
    master_len: int,
    centers: Seq<int>,
    groups: Seq<Group>,
    s: int,
    i: int,
    agreeing: Seq<usize>,
)
    requires
        votes_ok(votes),
        is_grouping(votes, clip_len, master_len, centers, groups),
        groups.len() > 0,
        forall|k: int| 0 <= k < votes.len() && (#[trigger] votes[k]).score >= 200_000 ==> votes[k].score == s,
        0 <= i < votes.len(),
        votes[i].score >= 200_000,
        agreeing.no_duplicates(),
        forall|k: int|
            0 <= k < agreeing.len() ==> (#[trigger] agreeing[k]) < votes.len() && votes[agreeing[k] as int].score
                >= 200_000 && BIN * size(votes[agreeing[k] as int].offset - votes[i].offset) <= 500_000,
    ensures
        groups[0].members@.len() >= agreeing.len(),
{
    let n = votes.len() as int;
    let none = used_after(votes, centers, 0);
    let c = centers[0];
    assert(densest(votes, none, c));
    assert(is_group(votes, none, c, clip_len, master_len, groups[0]));
    lemma_equal_support(votes, none, c, n, s);
    lemma_equal_support(votes, none, i, n, s);
    assert(crate::sync::open_vote(votes, none, i));
    assert(support(votes, none, i, n) <= support(votes, none, c, n));
    let mine = cluster(votes, none, i, n);
    let best = cluster(votes, none, c, n);
    assert(mine.len() <= best.len()) by (nonlinear_arith)
        requires
            s * mine.len() <= s * best.len(),
            s >= 200_000,
    ;
    assert forall|x: usize| agreeing.to_set().contains(x) implies mine.to_set().contains(x) by {
        let k = choose|k: int| 0 <= k < agreeing.len() && agreeing[k] == x;
        assert(agreeing[k] < votes.len());
        assert(joins(votes, none, i, x as int));
        lemma_cluster_exact(votes, none, i, n, x as int);
    }
    assert(agreeing.to_set().subset_of(mine.to_set()));
    agreeing.unique_seq_to_set();
    vstd::seq_lib::seq_to_set_is_finite(mine);
    vstd::set_lib::lemma_len_subset(agreeing.to_set(), mine.to_set());
    mine.lemma_cardinality_of_set();
}

/// The confidence is the share of agreeing chunks among those that lie inside the
/// master, to the nearest millionth: all of them give one, half of them a half, and
/// without any there is none.
pub proof fn lemma_confidence_is_share(agreeing: int, reach: int)
    requires
        0 <= agreeing <= reach,
    ensures
        0 <= agreement(agreeing, reach) <= 1_000_000,
        2 * size(agreement(agreeing, reach) * reach - agreeing * 1_000_000) <= reach,
        reach > 0 ==> agreement(reach, reach) == 1_000_000,
        agreeing == 0 ==> agreement(agreeing, reach) == 0,
{
    if reach > 0 {
        crate::units::lemma_rounded_near(agreeing * 1_000_000, reach);
        crate::units::lemma_rounded_whole(0, reach);
        crate::units::lemma_rounded_whole(1_000_000, reach);
        assert(0 * reach == 0 && 1_000_000 * reach == reach * 1_000_000);
        crate::units::lemma_rounded_grows(0, agreeing * 1_000_000, reach);
        crate::units::lemma_rounded_grows(agreeing * 1_000_000, reach * 1_000_000, reach);
    } else {
        assert(agreement(agreeing, reach) * 0 == 0);
    }
}

/// A chunk counts for the confidence where all of it lies inside the master, its end
/// taken as the clip's end where that comes first: times are in microseconds from the
/// start of the master.
pub proof fn lemma_reachable_counts_chunks_inside(
    votes: Seq<ChunkVote>,
    offset: int,
    clip_len: int,
    master_len: int,
    n: int,
)
    requires
        0 < n <= votes.len(),
    ensures
        ({
            let start = offset + votes[n - 1].at * 10_000;
            let clip_end = offset + clip_len * 125;
            let inside = start >= 0 && (start + 15_000_000 <= master_len * 125 || clip_end <= master_len * 125);
            reachable(votes, offset, clip_len, master_len, n) == reachable(votes, offset, clip_len, master_len, n - 1)
                + if inside {
                1int
            } else {
                0
            }
        }),
        reachable(votes, offset, clip_len, master_len, 0) == 0,
{
}

/// Chunks that all vote for one offset give that offset, however many there are.
pub proof fn lemma_agreeing_votes_give_their_offset(xs: Seq<i64>, ys: Seq<i64>, y: i64)
    requires
        xs.len() == ys.len(),
        0 < ys.len() <= usize::MAX,
        forall|k: int| 0 <= k < ys.len() ==> (#[trigger] ys[k]) == y,
    ensures
        offset_at_start(xs, ys) == 10_000 * y,
{
    crate::order::lemma_middle_is_in_the_middle(ys, ys);
    assert(median_of(ys) == y);
    if crate::sync::plausible_drift(xs, ys) {
        assert forall|i: int| 0 <= i < xs.len() implies 1 * (#[trigger] ys[i]) == y + 0 * xs[i] by {
            assert(0 * xs[i] == 0);
        }
        crate::sync::lemma_drift_absorbed(xs, ys, 1, y as int, 0);
        crate::units::lemma_rounded_whole(BIN * y, 1);
        assert((BIN * y) * 1 == BIN * y);
    }
}

/// Three votes are too few for a line, and no clock drifts by more than five in ten
/// thousand: the middle offset counts there.
pub proof fn lemma_no_clock_drifts_that_much(xs: Seq<i64>, ys: Seq<i64>, d: int, c: int, s: int)
    requires
        xs.len() == ys.len(),
        xs.len() < 4 || (spread(xs) > 0 && d > 0 && size(s) * 2000 > d && forall|i: int|
            0 <= i < xs.len() ==> d * (#[trigger] ys[i]) == c + s * xs[i]),
    ensures
        offset_at_start(xs, ys) == 10_000 * median_of(ys),
{
    if xs.len() >= 4 {
        crate::sync::lemma_line_sums(xs, ys, d, c, s);
        let n = xs.len() as int;
        let sx = total(xs);
        let sy = total(ys);
        let sxx = dot(xs, xs);
        let sxy = dot(xs, ys);
        let q = spread(xs);
        let p = crate::sync::covary(xs, ys);
        assert(d * (n * sxy - sx * sy) == n * (d * sxy) - sx * (d * sy)) by (nonlinear_arith);
        assert(n * (c * sx + s * sxx) == c * (n * sx) + s * (n * sxx)) by (nonlinear_arith);
        assert(sx * (c * n + s * sx) == c * (n * sx) + s * (sx * sx)) by (nonlinear_arith);
        assert(s * (n * sxx - sx * sx) == s * (n * sxx) - s * (sx * sx)) by (nonlinear_arith);
        assert(d * p == s * q);
        let a = size(p);
        let b = size(s);
        assert(d * a == b * q) by (nonlinear_arith)
            requires
                d * p == s * q,
                d > 0,
                q > 0,
                a == (if p < 0 { -p } else { p }),
                b == (if s < 0 { -s } else { s }),
        ;
        assert(a * 2000 > q) by (nonlinear_arith)
            requires
                d * a == b * q,
                b * 2000 > d,
                d > 0,
                q > 0,
        ;
    }
}

/// The refined offset is within twenty milliseconds of the voted one; no lag that could
/// be compared rates better, and without any the voted one stays.
pub proof fn lemma_refined_offset_is_near_and_best(center: i64, keys: Seq<Option<i64>>, t: int, j: int)
    requires
        is_refined(center, keys, t),
        keys.len() <= 321,
        0 <= j < keys.len(),
    ensures
        size(t - center * 125) <= 20_000,
        keys[j] matches Some(v) ==> exists|k: int|
            0 <= k < keys.len() && t == (center + k - 160) * 125 && (#[trigger] keys[k]) is Some && keys[k]->0 >= v,
{
    if keys[j] is Some {
        let k = choose|k: int|
            {
                &&& 0 <= k < keys.len()
                &&& (#[trigger] keys[k]) is Some
                &&& t == (center - crate::sync::REFINE_RADIUS + k) * SAMPLE
                &&& forall|j: int|
                    0 <= j < keys.len() ==> ((#[trigger] keys[j]) matches Some(v) ==> v <= keys[k]->0)
                &&& forall|j: int| 0 <= j < k ==> ((#[trigger] keys[j]) matches Some(v) ==> v < keys[k]->0)
            };
        assert(keys[k]->0 >= keys[j]->0);
        assert(t == (center + k - 160) * 125);
    }
}

/// Candidates come best first, and each group's offset keeps the group's confidence:
/// every group is among them, once.
pub proof fn lemma_candidates_are_the_groups(
    groups: Seq<Group>,
    offsets: Seq<i64>,
    out: Seq<SyncResult>,
    g: int,
    a: int,
    b: int,
)
    requires
        ranked(groups, offsets, out),
        groups.len() <= usize::MAX,
        groups.len() == offsets.len(),
        0 <= g < groups.len(),
        0 <= a < b < out.len(),
    ensures
        out.len() == groups.len(),
        out[a].confidence >= out[b].confidence,
        exists|k: int|
            0 <= k < out.len() && (#[trigger] out[k]).offset == offsets[g] && out[k].confidence
                == groups[g].confidence,
{
    let values = confidences(groups);
    let order = crate::order::order_of(crate::order::descending_keys(values));
    crate::order::lemma_descending(values, a, b);
    crate::order::lemma_order_is_stable(crate::order::descending_keys(values), a, b, g);
    let m = choose|m: int| 0 <= m < order.len() && #[trigger] order[m] == g;
    assert(out[m].offset == offsets[g]);
}

/// Recording times make sense of the stamps: where these are starts, no clip overlaps the
/// next by them; where they are ends, every recording ends at its stamp. They are taken for
/// ends only where, as starts, they would lay some clip over the next.
pub proof fn lemma_stamps_are_starts_or_ends(creation: Seq<Option<i64>>, durations: Seq<i64>, i: int)
    requires
        creation.len() == durations.len(),
        forall|k: int|
            0 <= k < creation.len() ==> ((#[trigger] creation[k]) matches Some(t) ==> crate::arrange::in_limit(
                t as int,
            )),
        forall|k: int| 0 <= k < durations.len() ==> crate::arrange::in_limit((#[trigger] durations[k]) as int),
        0 <= i < creation.len(),
        creation[i] is Some,
    ensures
        ({
            let ends = ends_stamped(creation, durations);
            let start = start_of(creation[i], durations[i], ends);
            &&& start is Some
            &&& ends ==> start->0 + durations[i] == creation[i]->0
            &&& !ends ==> start->0 == creation[i]->0
            &&& !ends && i + 1 < creation.len() && creation[i + 1] is Some ==> creation[i]->0 + durations[i]
                <= creation[i + 1]->0
            &&& ends ==> exists|k: int|
                0 <= k && k + 1 < creation.len() && (#[trigger] creation[k]) is Some && creation[k + 1] is Some
                    && creation[k]->0 + durations[k] > creation[k + 1]->0
        }),
{
    assert(crate::arrange::in_limit(durations[i] as int));
    if ends_stamped(creation, durations) {
        let k = choose|k: int|
            {
                &&& 0 <= k < durations.len()
                &&& k + 1 < creation.len()
                &&& #[trigger] creation[k] is Some
                &&& creation[k + 1] is Some
                &&& creation[k + 1]->0 - creation[k]->0 < durations[k]
            };
        assert(creation[k] is Some);
    }
}

/// What is compared of a chunk starts where the chunk starts and lasts ten seconds, as far
/// as the clip goes.
pub proof fn lemma_ten_seconds_are_compared(vote: ChunkVote, clip_len: int)
    requires
        0 <= vote.at,
        0 <= clip_len,
    ensures
        ({
            let (a, b) = crate::sync::segment(vote, clip_len);
            &&& 0 <= a <= b <= clip_len
            &&& vote.at * 10_000 <= clip_len * 125 ==> a * 125 == vote.at * 10_000
            &&& vote.at * 10_000 + 10_000_000 <= clip_len * 125 ==> (b - a) * 125 == 10_000_000
            &&& vote.at * 10_000 + 10_000_000 >= clip_len * 125 ==> b == clip_len
        }),
{
}

/// Three chunks are compared, or all where there are fewer, and none that is left out has
/// matched better than one of them.
pub proof fn lemma_strongest_chunks_are_compared(votes: Seq<ChunkVote>, members: Seq<usize>, j: int, k: int)
    requires
        members.len() <= usize::MAX,
        0 <= j < k < members.len(),
        j < crate::sync::strongest_count(members),
    ensures
        members.len() >= 3 ==> crate::sync::strongest_count(members) == 3,
        members.len() < 3 ==> crate::sync::strongest_count(members) == members.len(),
        ({
            let order = crate::order::order_of(
                crate::order::descending_keys(crate::sync::scores_of(votes, members)),
            );
            &&& order[j] < members.len() && order[k] < members.len()
            &&& votes[members[order[j] as int] as int].score >= votes[members[order[k] as int] as int].score
        }),
{
    let values = crate::sync::scores_of(votes, members);
    crate::order::lemma_descending(values, j, k);
}

/// A candidate's confidence is the share of its votes among the chunks that lie inside the
/// master there, and there are no more than four candidates.
pub proof fn lemma_candidates_are_as_sure_as_their_votes(
    votes: Seq<ChunkVote>,
    clip_len: int,
    master_len: int,
    centers: Seq<int>,
    groups: Seq<Group>,
    r: int,
)
    requires
        is_grouping(votes, clip_len, master_len, centers, groups),
        0 <= r < groups.len(),
        groups[r].members@.len() <= reachable(
            votes,
            groups[r].offset as int,
            clip_len,
            master_len,
            votes.len() as int,
        ),
    ensures
        groups.len() <= 4,
        ({
            let inside = reachable(votes, groups[r].offset as int, clip_len, master_len, votes.len() as int);
            &&& 2 * size(groups[r].confidence * inside - groups[r].members@.len() * 1_000_000) <= inside
            &&& groups[r].members@.len() == inside && inside > 0 ==> groups[r].confidence == 1_000_000
        }),
{
    let inside = reachable(votes, groups[r].offset as int, clip_len, master_len, votes.len() as int);
    assert(is_group(
        votes,
        used_after(votes, centers, r),
        centers[r],
        clip_len,
        master_len,
        groups[r],
    ));
    lemma_confidence_is_share(groups[r].members@.len() as int, inside);
}

/// Votes that all say one offset, to the bin, make a candidate there: the group's offset is
/// the one that its members agree on.
pub proof fn lemma_candidate_lies_where_its_votes_say(
    votes: Seq<ChunkVote>,
    clip_len: int,
    master_len: int,
    centers: Seq<int>,
    groups: Seq<Group>,
    r: int,
    y: i64,
)
    requires
        is_grouping(votes, clip_len, master_len, centers, groups),
        0 <= r < groups.len(),
        0 < groups[r].members@.len() <= usize::MAX,
        forall|k: int|
            0 <= k < groups[r].members@.len() ==> votes[(#[trigger] groups[r].members@[k]) as int].offset == y,
    ensures
        groups[r].offset == 10_000 * y,
{
    let g = groups[r];
    assert(is_group(votes, used_after(votes, centers, r), centers[r], clip_len, master_len, g));
    let xs = crate::sync::times_of(votes, g.members@);
    let ys = crate::sync::offsets_of(votes, g.members@);
    assert forall|k: int| 0 <= k < ys.len() implies (#[trigger] ys[k]) == y by {
        assert(votes[g.members@[k] as int].offset == y);
    }
    lemma_agreeing_votes_give_their_offset(xs, ys, y);
}

/// Of candidates that are agreed on equally the one that is first in the clip comes first.
pub proof fn lemma_first_of_equals_comes_first(
    votes: Seq<ChunkVote>,
    clip_len: int,
    master_len: int,
    centers: Seq<int>,
    groups: Seq<Group>,
    i: int,
)
    requires
        is_grouping(votes, clip_len, master_len, centers, groups),
        groups.len() > 0,
        0 <= i < votes.len(),
        votes[i].score >= 200_000,
        support(votes, used_after(votes, centers, 0), i, votes.len() as int) == support(
            votes,
            used_after(votes, centers, 0),
            centers[0],
            votes.len() as int,
        ),
    ensures
        centers[0] <= i,
{
    let none = used_after(votes, centers, 0);
    assert(densest(votes, none, centers[0]));
    assert(crate::sync::open_vote(votes, none, i));
}

/// Where no lag could be compared the voted offset stays; of lags that rate equally well the
/// earliest is taken.
pub proof fn lemma_voted_offset_stays_without_a_comparison(center: i64, keys: Seq<Option<i64>>, t: int, j: int)
    requires
        is_refined(center, keys, t),
    ensures
        (forall|k: int| 0 <= k < keys.len() ==> (#[trigger] keys[k]) is None) ==> t == center * 125,
        0 <= j < keys.len() && keys[j] is Some && (forall|k: int|
            0 <= k < keys.len() ==> ((#[trigger] keys[k]) matches Some(v) ==> v <= keys[j]->0)) ==> t <= (center + j
            - 160) * 125,
{
    if 0 <= j < keys.len() && keys[j] is Some {
        let k = choose|k: int|
            {
                &&& 0 <= k < keys.len()
                &&& (#[trigger] keys[k]) is Some
                &&& t == (center - crate::sync::REFINE_RADIUS + k) * SAMPLE
                &&& forall|j: int|
                    0 <= j < keys.len() ==> ((#[trigger] keys[j]) matches Some(v) ==> v <= keys[k]->0)
                &&& forall|j: int| 0 <= j < k ==> ((#[trigger] keys[j]) matches Some(v) ==> v < keys[k]->0)
            };
        assert(t == (center + k - 160) * 125);
        if j < k {
            assert(keys[j]->0 < keys[k]->0);
        }
    }
}

} // verus!
