//! Synthetic recordings, matched end to end: the sound is compared here, and the
//! library cuts, counts, plans and ranks.

use trio_capture::arrange::SyncResult;
use trio_capture::sync::{
    candidate_groups, candidates_from_votes, chunk_ranges, clipped_window, find_offset, first_max, lags, refine_plan,
    shared_samples, votes, HOP, REFINE_RADIUS, SYNC_RATE,
};

/// A number that orders like the value.
fn key(x: f32) -> i64 {
    let bits = x.to_bits() as i32;
    (if bits < 0 { i32::MIN - bits } else { bits }) as i64
}

fn envelope(samples: &[f32], hop: usize) -> Vec<f32> {
    samples
        .chunks(hop)
        .map(|c| {
            let rms = (c.iter().map(|x| x * x).sum::<f32>() / c.len() as f32).sqrt();
            (rms + 1e-4).ln()
        })
        .collect()
}

struct Master {
    pcm: Vec<f32>,
    env: Vec<f32>,
    sum1: Vec<f64>,
    sum2: Vec<f64>,
}

impl Master {
    fn new(pcm: Vec<f32>) -> Master {
        let mut env = envelope(&pcm, HOP);
        let mean = env.iter().sum::<f32>() / env.len().max(1) as f32;
        let mut sum1 = vec![0.0];
        let mut sum2 = vec![0.0];
        let (mut s1, mut s2) = (0.0f64, 0.0f64);
        for e in &mut env {
            *e -= mean;
            s1 += *e as f64;
            s2 += (*e as f64) * (*e as f64);
            sum1.push(s1);
            sum2.push(s2);
        }
        Master { pcm, env, sum1, sum2 }
    }

    fn local_energy(&self, start: i64, len: usize) -> f64 {
        let (a, b) = clipped_window(start, len, self.env.len());
        if b <= a {
            return 0.0;
        }
        let s1 = self.sum1[b] - self.sum1[a];
        let s2 = self.sum2[b] - self.sum2[a];
        (s2 - s1 * s1 / (b - a) as f64).max(0.0)
    }

    fn match_chunk(&self, chunk: &[f32]) -> Option<(i64, i32)> {
        let m = chunk.len();
        let nb = self.env.len();
        let mean = chunk.iter().sum::<f32>() / m as f32;
        let a: Vec<f32> = chunk.iter().map(|x| x - mean).collect();
        let norm = a.iter().map(|x| x * x).sum::<f32>().sqrt();
        if norm < 1e-6 || m > nb {
            return None;
        }
        let floor = 0.05 * m as f64 * (self.sum2[nb] / nb as f64).max(1e-6);
        let scores: Vec<f32> = (0..lags(nb, m))
            .map(|lag| {
                let c: f32 = a.iter().zip(&self.env[lag..lag + m]).map(|(x, y)| x * y).sum();
                c / (norm * self.local_energy(lag as i64, m).max(floor).sqrt() as f32)
            })
            .collect();
        let keys: Vec<i64> = scores.iter().map(|s| key(*s)).collect();
        let best = first_max(&keys)?;
        Some((best as i64, (scores[best] * 1e6) as i32))
    }

    fn candidates(&self, clip: &[f32]) -> Vec<SyncResult> {
        let env = envelope(clip, HOP);
        let found: Vec<Option<(i64, i32)>> =
            chunk_ranges(env.len()).iter().map(|(s, e)| self.match_chunk(&env[*s..*e])).collect();
        let votes = votes(&found);
        let groups = candidate_groups(&votes, clip.len(), self.pcm.len());
        let rated: Vec<Vec<Option<i64>>> = groups
            .iter()
            .map(|g| {
                let plan = refine_plan(&votes, &g.members, g.offset, clip.len());
                (-REFINE_RADIUS..=REFINE_RADIUS)
                    .map(|d| {
                        let lag = plan.center + d;
                        let (mut total, mut n) = (0.0f32, 0usize);
                        for (s, e) in &plan.segments {
                            let (a, b) = shared_samples(*s, *e, lag, self.pcm.len());
                            if a < b {
                                let first = (a as i64 + lag) as usize;
                                let other = &self.pcm[first..first + (b - a)];
                                total += clip[a..b].iter().zip(other).map(|(x, y)| x * y).sum::<f32>();
                                n += b - a;
                            }
                        }
                        if n > 0 {
                            Some(key(total / n as f32))
                        } else {
                            None
                        }
                    })
                    .collect()
            })
            .collect();
        candidates_from_votes(&votes, clip.len(), self.pcm.len(), &rated)
    }
}

fn locate(clip: &[f32], master: &[f32]) -> Option<SyncResult> {
    let found = Master::new(master.to_vec()).candidates(clip);
    find_offset(clip.len(), master.len(), &found)
}

fn noise(n: usize, seed: u64) -> Vec<f32> {
    let mut s = seed;
    (0..n)
        .map(|_| {
            s ^= s << 13;
            s ^= s >> 7;
            s ^= s << 17;
            (s as f64 / u64::MAX as f64) as f32 * 2.0 - 1.0
        })
        .collect()
}

/// Music-like signal: white-noise carrier under a slowly varying, aperiodic
/// loudness envelope (low-passed noise).
fn music(n: usize, seed: u64) -> Vec<f32> {
    let rate = SYNC_RATE as usize;
    let carrier = noise(n, seed);
    let slow = noise(n, seed.wrapping_mul(31) + 1);
    let mut env = 0.0f32;
    // About 150 ms time constant.
    let alpha = 1.0 / (0.15 * rate as f32);
    carrier
        .iter()
        .zip(&slow)
        .map(|(c, s)| {
            env += alpha * (s - env);
            c * (0.05 + (env.abs() * 40.0).min(1.0))
        })
        .collect()
}

#[test]
fn finds_clip_inside_master() {
    let rate = SYNC_RATE as usize;
    let master = music(120 * rate, 42);
    // Clip: 40 s starting at 23.4 s, with independent noise and gain.
    let start = (23.4 * rate as f64) as usize;
    let extra = noise(40 * rate, 7);
    let clip: Vec<f32> =
        master[start..start + 40 * rate].iter().zip(&extra).map(|(m, e)| 0.5 * m + 0.15 * e).collect();
    let r = locate(&clip, &master).unwrap();
    assert!((r.offset as f64 / 1e6 - 23.4).abs() < 0.002, "offset {}", r.offset);
    assert!(r.confidence > 800_000, "confidence {}", r.confidence);
}

#[test]
fn handles_clip_starting_before_master() {
    let rate = SYNC_RATE as usize;
    let long = music(120 * rate, 3);
    let master = long[30 * rate..].to_vec();
    let clip = long[..60 * rate].to_vec();
    let r = locate(&clip, &master).unwrap();
    assert!((r.offset as f64 / 1e6 + 30.0).abs() < 0.002, "offset {}", r.offset);
    assert!(r.confidence > 800_000, "confidence {}", r.confidence);
}

#[test]
fn repeated_song_does_not_fool_the_vote() {
    // The master is one song, another, and the first again; the clip is the first
    // two, which only fit at the start.
    let rate = SYNC_RATE as usize;
    let a = music(40 * rate, 11);
    let b = music(40 * rate, 12);
    let mut master = a.clone();
    master.extend_from_slice(&b);
    master.extend_from_slice(&a);
    let mut clip = a.clone();
    clip.extend_from_slice(&b);
    let m = Master::new(master);
    let c = m.candidates(&clip);
    assert!((c[0].offset as f64 / 1e6).abs() < 0.002, "{c:?}");
    assert!(c[0].confidence > c.get(1).map(|x| x.confidence).unwrap_or(0));
}

#[test]
fn short_recordings_are_not_matched() {
    assert!(locate(&noise(39_999, 1), &noise(80_000, 2)).is_none());
}
