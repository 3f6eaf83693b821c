//! Votes, candidates and the arrangement of clips.

use trio_capture::arrange::{arrange, can_arrange, ClipInfo, Placement, SyncResult};
use trio_capture::sync::{
    candidate_groups, candidates_from_votes, chunk_ranges, clipped_window, confidence_of, find_offset, first_max,
    fit_offset_at_start, lags, long_enough, rank, refine_plan, refined_offset, shared_samples, start_times, votes,
    ChunkVote,
};

const SECOND: i64 = 1_000_000;

fn info(duration: i64, start: Option<i64>) -> ClipInfo {
    ClipInfo { duration: duration * SECOND, start_time: start.map(|t| t * SECOND) }
}

fn found(offset: i64, confidence: u32) -> SyncResult {
    SyncResult { offset: offset * SECOND, confidence }
}

#[test]
fn arrange_rejects_overlap() {
    let clips = vec![info(100, Some(0)), info(50, Some(120))];
    // The first clip's strongest candidate would overlap the second clip's strong match.
    let cands = vec![vec![found(300, 500_000), found(200, 400_000)], vec![found(320, 900_000)]];
    let r = arrange(&clips, &cands, &vec![0, 0]);
    assert_eq!(r[0].offset, 200 * SECOND);
    assert_eq!(r[1].offset, 320 * SECOND);
    assert_eq!(r[0].placement, Placement::Audio);
}

#[test]
fn arrange_places_unmatched_by_timestamp() {
    let clips = vec![info(100, Some(1000)), info(50, Some(1130))];
    let cands = vec![vec![], vec![found(500, 700_000)]];
    let r = arrange(&clips, &cands, &vec![0, 0]);
    assert_eq!(r[0].placement, Placement::Timestamp);
    assert_eq!(r[0].offset, 370 * SECOND);
    assert_eq!(r[0].confidence, 0);
}

#[test]
fn detects_end_stamped_creation_times() {
    // Stamps 1000 and 1500 with a first clip of 900 s: the stamps are ends.
    let s = start_times(&vec![Some(1000 * SECOND), Some(1500 * SECOND)], &vec![900 * SECOND, 400 * SECOND]);
    assert_eq!(s, vec![Some(100 * SECOND), Some(1100 * SECOND)]);
    // Stamps 1000 and 2000 with a first clip of 900 s: the stamps are starts.
    let s = start_times(&vec![Some(1000 * SECOND), Some(2000 * SECOND)], &vec![900 * SECOND, 400 * SECOND]);
    assert_eq!(s, vec![Some(1000 * SECOND), Some(2000 * SECOND)]);
}

#[test]
fn nothing_matched_leaves_offsets_alone() {
    let clips = vec![info(10, None), info(10, None)];
    let cands = vec![vec![found(3, 240_000)], vec![]];
    let r = arrange(&clips, &cands, &vec![7 * SECOND]);
    assert_eq!(r[0].offset, 7 * SECOND);
    assert_eq!(r[1].offset, 0);
    assert_eq!(r[0].placement, Placement::Unknown);
    assert_eq!(r[1].placement, Placement::Unknown);
}

#[test]
fn unmatched_clips_without_stamps_lie_next_to_a_sibling() {
    let clips = vec![info(10, None), info(20, None), info(30, None)];
    let cands = vec![vec![], vec![found(100, 500_000)], vec![]];
    let r = arrange(&clips, &cands, &vec![]);
    assert_eq!(r[0].offset, 90 * SECOND);
    assert_eq!(r[1].offset, 100 * SECOND);
    assert_eq!(r[2].offset, 120 * SECOND);
    assert_eq!(r[2].placement, Placement::Timestamp);
}

#[test]
fn a_gap_that_agrees_with_the_stamps_counts_more() {
    let clips = vec![info(10, Some(0)), info(10, Some(100))];
    let cands = vec![vec![found(0, 500_000)], vec![found(50, 500_000), found(102, 400_000)]];
    let r = arrange(&clips, &cands, &vec![0, 0]);
    assert_eq!(r[1].offset, 102 * SECOND);
    assert!(can_arrange(&clips, &cands));
    assert!(!can_arrange(&clips, &vec![vec![]]));
}

#[test]
fn neighbours_overlap_by_half_a_second_at_most() {
    let clips = vec![info(10, None), info(10, None)];
    let near = vec![
        vec![SyncResult { offset: 0, confidence: 500_000 }],
        vec![SyncResult { offset: 9_500_000, confidence: 500_000 }],
    ];
    let r = arrange(&clips, &near, &vec![0, 0]);
    assert_eq!(r[1].offset, 9_500_000);
    let nearer = vec![
        vec![SyncResult { offset: 0, confidence: 600_000 }],
        vec![SyncResult { offset: 9_499_999, confidence: 500_000 }],
    ];
    let r = arrange(&clips, &nearer, &vec![0, 0]);
    assert_eq!(r[1].placement, Placement::Timestamp);
    assert_eq!(r[1].offset, 10 * SECOND);
}

#[test]
fn clips_between_matches_do_not_overlap() {
    // Two clips without a match between two with one: the first leans on the match
    // before it, the second on the one behind it.
    let clips = vec![info(10, None), info(20, None), info(30, None), info(40, None)];
    let cands = vec![vec![found(100, 500_000)], vec![], vec![], vec![found(160, 500_000)]];
    let r = arrange(&clips, &cands, &vec![]);
    let at: Vec<i64> = r.iter().map(|a| a.offset / SECOND).collect();
    assert_eq!(at, vec![100, 110, 130, 160]);
    // Recording times that leave pauses are kept.
    let stamped = vec![info(10, Some(0)), info(20, Some(15)), info(30, Some(50))];
    let cands = vec![vec![found(100, 500_000)], vec![], vec![]];
    let r = arrange(&stamped, &cands, &vec![]);
    let at: Vec<i64> = r.iter().map(|a| a.offset / SECOND).collect();
    assert_eq!(at, vec![100, 115, 150]);
}

#[test]
fn stamped_and_unstamped_clips_do_not_overlap() {
    // The second clip keeps its recording time, the third goes behind it.
    let clips = vec![info(100, Some(0)), info(50, Some(200)), info(100, None)];
    let r = arrange(&clips, &vec![vec![found(0, 900_000)], vec![], vec![]], &vec![]);
    let at: Vec<i64> = r.iter().map(|a| a.offset).collect();
    assert_eq!(at, vec![0, 200 * SECOND, 249_500_000]);
    // Before a match the nearer clip keeps its place too.
    let clips = vec![info(100, None), info(50, Some(800)), info(100, Some(1000))];
    let r = arrange(&clips, &vec![vec![], vec![], vec![found(1000, 900_000)]], &vec![]);
    let at: Vec<i64> = r.iter().map(|a| a.offset).collect();
    assert_eq!(at, vec![700_500_000, 800 * SECOND, 1000 * SECOND]);
    // A recording time behind the next match: the clip gives way as far as it must.
    let clips = vec![info(10, Some(0)), info(20, Some(100)), info(30, None), info(40, None)];
    let cands = vec![vec![found(100, 900_000)], vec![], vec![], vec![found(200, 900_000)]];
    let r = arrange(&clips, &cands, &vec![]);
    let at: Vec<i64> = r.iter().map(|a| a.offset).collect();
    assert_eq!(at, vec![100 * SECOND, 151 * SECOND, 170_500_000, 200 * SECOND]);
    assert_eq!((r[1].placement, r[1].confidence), (Placement::Timestamp, 0));
}

#[test]
fn clips_never_overlap_however_they_are_placed() {
    let mut s: u64 = 7;
    let mut draw = |n: u64| {
        s ^= s << 13;
        s ^= s >> 7;
        s ^= s << 17;
        (s >> 20) % n
    };
    for _ in 0..500 {
        let n = 1 + draw(7) as usize;
        let mut clips = vec![];
        let mut cands = vec![];
        for _ in 0..n {
            let start = if draw(2) == 0 { Some(draw(400) as i64 - 200) } else { None };
            clips.push(info(draw(60) as i64, start));
            let some = draw(3) == 0;
            cands.push(if some { vec![found(draw(400) as i64 - 200, 300_000)] } else { vec![] });
        }
        let r = arrange(&clips, &cands, &vec![]);
        if cands.iter().any(|c| !c.is_empty()) {
            for i in 0..n - 1 {
                assert!(r[i].offset + clips[i].duration <= r[i + 1].offset + 500_000, "{clips:?} {cands:?} {r:?}");
                assert!(r[i].placement != Placement::Unknown);
            }
        }
    }
}

#[test]
fn envelopes_are_cut_into_chunks() {
    assert!(chunk_ranges(499).is_empty());
    assert_eq!(chunk_ranges(500), vec![(0, 500)]);
    assert_eq!(chunk_ranges(1500), vec![(0, 1500)]);
    assert_eq!(chunk_ranges(2600), vec![(0, 1500), (1000, 2500), (2000, 2600)]);
    assert_eq!(chunk_ranges(1501), vec![(0, 1500), (1000, 1501)]);
    assert_eq!(lags(100, 101), 0);
    assert_eq!(lags(100, 100), 1);
    assert_eq!(clipped_window(-5, 10, 8), (0, 5));
    assert_eq!(clipped_window(5, 10, 8), (5, 8));
}

#[test]
fn chunks_vote_for_the_start_of_the_clip() {
    let v = votes(&vec![Some((30, 900_000)), None, Some((2030, 800_000))]);
    assert_eq!(v.len(), 2);
    assert_eq!(v[0], ChunkVote { at: 0, offset: 30, score: 900_000 });
    assert_eq!(v[1], ChunkVote { at: 2000, offset: 30, score: 800_000 });
}

fn vote(at: i64, offset: i64, score: i32) -> ChunkVote {
    ChunkVote { at, offset, score }
}

#[test]
fn the_offset_most_chunks_agree_on_wins() {
    let v = vec![
        vote(0, 500, 700_000),
        vote(1000, 9000, 900_000),
        vote(2000, 510, 600_000),
        vote(3000, 490, 600_000),
        vote(4000, 7000, 100_000),
    ];
    let groups = candidate_groups(&v, 80 * 5500, 80 * 20000);
    assert_eq!(groups.len(), 2);
    assert_eq!(groups[0].members, vec![0, 2, 3]);
    // The median of 500, 510 and 490 bins.
    assert_eq!(groups[0].offset, 5 * SECOND);
    // Three of the five chunks.
    assert_eq!(groups[0].confidence, 600_000);
    assert_eq!(groups[1].members, vec![1]);
    assert_eq!(groups[1].offset, 90 * SECOND);
    let ranked = rank(&groups, &vec![1, 2]);
    assert_eq!(ranked[0], SyncResult { offset: 1, confidence: 600_000 });
    assert_eq!(ranked[1].offset, 2);
    // The first group is ten samples late, and nothing could be compared for the other.
    let mut keys: Vec<Option<i64>> = vec![Some(1); 321];
    keys[170] = Some(2);
    let found = candidates_from_votes(&v, 80 * 5500, 80 * 20000, &vec![keys]);
    assert_eq!(found.len(), 2);
    assert_eq!(found[0], SyncResult { offset: 5 * SECOND + 1_250, confidence: 600_000 });
    assert_eq!(found[1].offset, 90 * SECOND);
    assert!(candidates_from_votes(&vec![], 80 * 5500, 80 * 20000, &vec![]).is_empty());
}

#[test]
fn confidence_is_the_share_of_chunks_that_agree() {
    let v = vec![
        vote(0, 1000, 900_000),
        vote(1000, 1000, 900_000),
        vote(2000, 1000, 900_000),
        vote(3000, 5000, 300_000),
    ];
    let groups = candidate_groups(&v, 360_000, 960_000);
    assert_eq!(groups[0].members, vec![0, 1, 2]);
    assert_eq!(groups[0].offset, 10 * SECOND);
    assert_eq!(groups[0].confidence, 750_000);
    // At an offset of eighty seconds the chunks behind the master's end do not count.
    let late = vec![vote(0, 8000, 900_000), vote(1000, 8000, 900_000), vote(3000, 20, 300_000)];
    assert_eq!(candidate_groups(&late, 360_000, 800_000)[0].confidence, 1_000_000);
}

#[test]
fn overlapping_stamps_are_ends() {
    let starts = start_times(&vec![Some(0), Some(99_500_000)], &vec![100 * SECOND, 50 * SECOND]);
    assert_eq!(starts, vec![Some(-100 * SECOND), Some(49_500_000)]);
    let whole = start_times(&vec![Some(0), Some(100_000_000)], &vec![100 * SECOND, 50 * SECOND]);
    assert_eq!(whole, vec![Some(0), Some(100 * SECOND)]);
}

#[test]
fn the_best_candidate_locates_a_clip() {
    let best = SyncResult { offset: 5, confidence: 900_000 };
    let list = vec![best, SyncResult { offset: 7, confidence: 300_000 }];
    assert_eq!(find_offset(40_000, 40_000, &list), Some(best));
    assert_eq!(find_offset(40_000, 39_999, &list), None);
    assert_eq!(find_offset(40_000, 40_000, &vec![]), None);
}

#[test]
fn no_match_gives_no_candidate() {
    assert!(candidate_groups(&vec![vote(0, 0, 199_999)], 40_000, 40_000).is_empty());
    assert_eq!(candidate_groups(&vec![vote(0, 0, 200_000)], 40_000, 40_000).len(), 1);
}

#[test]
fn drift_is_absorbed_by_a_line() {
    // The clip's clock loses one bin in ten thousand.
    let xs = vec![0, 10_000, 20_000, 30_000];
    let ys = vec![100, 101, 102, 103];
    assert_eq!(fit_offset_at_start(&xs, &ys), SECOND);
    // No clock drifts by five in ten thousand and more: the median counts.
    let steep = vec![100, 110, 120, 130];
    assert_eq!(fit_offset_at_start(&xs, &steep), 1_200_000);
    // Three votes are too few for a line.
    assert_eq!(fit_offset_at_start(&vec![0, 10_000, 20_000], &vec![100, 101, 102]), 1_010_000);
}

#[test]
fn confidence_is_a_share() {
    assert_eq!(confidence_of(1, 3), 333_333);
    assert_eq!(confidence_of(4, 3), 1_000_000);
    assert_eq!(confidence_of(1, 0), 0);
}

#[test]
fn the_strongest_chunks_are_compared_sample_by_sample() {
    let v = vec![vote(0, 5, 300_000), vote(1000, 5, 900_000), vote(2000, 5, 500_000), vote(3000, 5, 600_000)];
    let plan = refine_plan(&v, &vec![0, 1, 2, 3], 50_000, 250_000);
    assert_eq!(plan.center, 400);
    assert_eq!(plan.segments, vec![(80_000, 160_000), (240_000, 250_000), (160_000, 240_000)]);
    assert_eq!(shared_samples(10, 20, -15, 100), (15, 20));
    assert_eq!(shared_samples(10, 20, 85, 100), (10, 15));
    assert_eq!(shared_samples(10, 20, 95, 100), (0, 0));
    let mut keys: Vec<Option<i64>> = vec![None; 321];
    assert_eq!(refined_offset(400, &keys), 50_000);
    keys[170] = Some(9);
    keys[200] = Some(9);
    assert_eq!(refined_offset(400, &keys), 51_250);
    assert_eq!(first_max(&vec![1, 3, 3]), Some(1));
    assert_eq!(first_max(&vec![]), None);
    assert!(long_enough(40_000, 40_000));
    assert!(!long_enough(39_999, 40_000));
}
