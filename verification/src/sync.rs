//! Audio-based sync: where does a clip's audio sit inside the master recording?
//!
//! The clip's loudness envelope is cut into chunks, and every chunk is matched
//! against the whole master. Chunks then vote: the offset most chunks agree on
//! wins, and the share of agreeing chunks is the confidence. This is robust to
//! partial overlap (a clip that starts before the master), to sections the
//! master does not contain, and to a song that appears twice, because a wrong
//! peak only ever convinces a few chunks.
//!
//! Correlating the sound itself is left to the caller; this module cuts the
//! chunks, counts the votes and ranks what comes out.

use crate::arrange::SyncResult;
use crate::order::{descending_order, median};
use crate::units::round_div;
use vstd::prelude::*;

verus! {

/// Sample rate of all sound that is matched.
pub const SYNC_RATE: u32 = 8000;

/// Samples per bin of a loudness envelope.
pub const HOP: usize = 80;

/// Microseconds per bin.
pub const BIN: i64 = 10_000;

/// Microseconds per sample.
pub const SAMPLE: i64 = 125;

/// Length of a chunk in bins.
pub const CHUNK_BINS: usize = 1500;

/// Bins from one chunk's start to the next.
pub const CHUNK_STRIDE: usize = 1000;

/// A shorter chunk is not matched.
pub const MIN_CHUNK_BINS: usize = 500;

/// Votes within this distance, in bins, belong to the same candidate.
pub const CLUSTER_TOL: i64 = 50;

/// A chunk whose best correlation is weaker than this, in millionths, did not
/// match anything.
pub const MIN_CHUNK_SCORE: i32 = 200_000;

/// At most this many candidates are offered for a clip.
pub const MAX_CANDIDATES: usize = 4;

/// How far, in samples, the refined offset may be from the voted one.
pub const REFINE_RADIUS: i64 = 160;

/// Length in samples of the stretches that are compared when an offset is refined.
pub const REFINE_SAMPLES: usize = 80_000;

/// No time in bins is larger: about a week. With [`VOTE_LIMIT`] chunks the products
/// of the line fit just fit into 128 bits.
pub const BIN_LIMIT: i64 = 0x400_0000;

/// No voted offset, in microseconds, is larger.
pub const OFFSET_LIMIT: i64 = 2_000_000_000_000;

/// No clip has more chunks. See [`BIN_LIMIT`].
pub const VOTE_LIMIT: usize = 0x1_0000;

/// One chunk's verdict.
#[derive(Debug, Clone, Copy, PartialEq, Eq, Structural)]
pub struct ChunkVote {
    /// Start of the chunk in the clip, in bins.
    pub at: i64,
    /// Offset of the clip start implied by this chunk's best match, in bins.
    pub offset: i64,
    /// Normalized correlation at that match, in millionths.
    pub score: i32,
}

// ---------------------------------------------------------------- chunks

/// Number of chunks of an envelope.
pub open spec fn chunk_count(len: int) -> int {
    if len < MIN_CHUNK_BINS {
        0
    } else if len <= CHUNK_BINS {
        1
    } else {
        1 + (len - MIN_CHUNK_BINS - 1) / CHUNK_STRIDE as int
    }
}

/// Start of chunk `i`.
pub open spec fn chunk_start(i: int) -> int {
    i * CHUNK_STRIDE
}

/// End of chunk `i` of an envelope.
pub open spec fn chunk_end(len: int, i: int) -> int {
    if chunk_start(i) + CHUNK_BINS < len {
        chunk_start(i) + CHUNK_BINS
    } else {
        len
    }
}

/// The chunks of an envelope of `len` bins: start and end of each.
pub fn chunk_ranges(len: usize) -> (out: Vec<(usize, usize)>)
    requires
        len <= usize::MAX - CHUNK_BINS,
    ensures
        out@.len() == chunk_count(len as int),
        forall|i: int|
            0 <= i < out@.len() ==> (#[trigger] out@[i]).0 == chunk_start(i) && out@[i].1 == chunk_end(
                len as int,
                i,
            ),
{
    let mut out: Vec<(usize, usize)> = Vec::new();
    let mut start: usize = 0;
    while start + MIN_CHUNK_BINS <= len
        invariant
            len <= usize::MAX - CHUNK_BINS,
            start == chunk_start(out@.len() as int),
            start == 0 || start + MIN_CHUNK_BINS < len + CHUNK_STRIDE,
            start == 0 ==> out@.len() == 0,
            start > 0 ==> start + MIN_CHUNK_BINS < len,
            forall|i: int|
                0 <= i < out@.len() ==> (#[trigger] out@[i]).0 == chunk_start(i) && out@[i].1 == chunk_end(
                    len as int,
                    i,
                ),
        decreases len - start,
    {
        let end: usize = if start + CHUNK_BINS < len {
            start + CHUNK_BINS
        } else {
            len
        };
        out.push((start, end));
        if end == len {
            return out;
        }
        start = start + CHUNK_STRIDE;
    }
    out
}

/// Every bin of an envelope that is long enough lies in a chunk.
pub proof fn lemma_chunks_cover(len: int, bin: int)
    requires
        MIN_CHUNK_BINS <= len,
        0 <= bin < len,
    ensures
        exists|i: int|
            0 <= i < chunk_count(len) && #[trigger] chunk_start(i) <= bin < chunk_end(len, i),
{
    let i = bin / CHUNK_STRIDE as int;
    if i < chunk_count(len) {
        assert(chunk_start(i) <= bin < chunk_end(len, i));
    } else {
        let last = chunk_count(len) - 1;
        assert(chunk_start(last) <= bin < chunk_end(len, last));
    }
}

/// Every chunk lies inside the envelope and is long enough to be matched.
pub proof fn lemma_chunks_fit(len: int, i: int)
    requires
        0 <= i < chunk_count(len),
    ensures
        0 <= chunk_start(i),
        MIN_CHUNK_BINS <= chunk_end(len, i) - chunk_start(i) <= CHUNK_BINS,
        chunk_end(len, i) <= len,
{
}

/// Number of places at which a chunk of `m` bins lies wholly inside a master of
/// `nb` bins.
pub open spec fn lag_count(nb: int, m: int) -> int {
    if m > nb {
        0
    } else {
        nb - m + 1
    }
}

/// The lags to be tried for a chunk. Only lags where the whole chunk lies inside
/// the master: a partial overlap breaks the normalization and produces bogus
/// peaks.
pub fn lags(nb: usize, m: usize) -> (n: usize)
    requires
        m > 0,
    ensures
        n == lag_count(nb as int, m as int),
{
    if m > nb {
        0
    } else {
        nb - m + 1
    }
}

/// `k` is the first of the largest values.
pub open spec fn first_largest(values: Seq<i64>, k: int) -> bool {
    &&& 0 <= k < values.len()
    &&& forall|j: int| 0 <= j < values.len() ==> (#[trigger] values[j]) <= values[k]
    &&& forall|j: int| 0 <= j < k ==> (#[trigger] values[j]) < values[k]
}

/// The first of the largest values, if there is any.
pub fn first_max(values: &Vec<i64>) -> (k: Option<usize>)
    ensures
        k is None <==> values@.len() == 0,
        k matches Some(i) ==> first_largest(values@, i as int),
{
    if values.len() == 0 {
        return None;
    }
    let mut best: usize = 0;
    let mut i: usize = 1;
    while i < values.len()
        invariant
            1 <= i <= values@.len(),
            best < i,
            forall|j: int| 0 <= j < i ==> (#[trigger] values@[j]) <= values@[best as int],
            forall|j: int| 0 <= j < best ==> (#[trigger] values@[j]) < values@[best as int],
        decreases values@.len() - i,
    {
        if values[i] > values[best] {
            best = i;
        }
        i = i + 1;
    }
    Some(best)
}

/// The part of the window of `len` bins from `start` that lies in `0..nb`.
pub fn clipped_window(start: i64, len: usize, nb: usize) -> (w: (usize, usize))
    requires
        len <= i64::MAX,
        nb <= i64::MAX,
    ensures
        w.0 == crate::units::clamped(start as int, 0, nb as int),
        w.1 == crate::units::clamped(start + len, 0, nb as int),
{
    let a: i128 = start as i128;
    let b: i128 = a + len as i128;
    let n: i128 = nb as i128;
    let lo: i128 = if a < 0 {
        0
    } else if a > n {
        n
    } else {
        a
    };
    let hi: i128 = if b < 0 {
        0
    } else if b > n {
        n
    } else {
        b
    };
    (lo as usize, hi as usize)
}

/// The best match of each chunk, where there is one: lag in bins and score.
/// A chunk votes for the clip start that its match implies.
pub open spec fn vote_of(i: int, m: (i64, i32)) -> ChunkVote {
    ChunkVote { at: chunk_start(i) as i64, offset: (m.0 - chunk_start(i)) as i64, score: m.1 }
}

/// The votes of the first `n` chunks.
pub open spec fn votes_of(matches: Seq<Option<(i64, i32)>>, n: int) -> Seq<ChunkVote>
    decreases n,
{
    if n <= 0 {
        Seq::empty()
    } else {
        match matches[n - 1] {
            Some(m) => votes_of(matches, n - 1).push(vote_of(n - 1, m)),
            None => votes_of(matches, n - 1),
        }
    }
}

/// Every chunk's vote for the clip's offset; a chunk without a match has none.
pub fn votes(matches: &Vec<Option<(i64, i32)>>) -> (out: Vec<ChunkVote>)
    requires
        matches@.len() <= VOTE_LIMIT,
        forall|i: int|
            0 <= i < matches@.len() ==> ((#[trigger] matches@[i]) matches Some(m) ==> 0 <= m.0 <= BIN_LIMIT),
    ensures
        out@ == votes_of(matches@, matches@.len() as int),
{
    let mut out: Vec<ChunkVote> = Vec::new();
    let mut i: usize = 0;
    while i < matches.len()
        invariant
            i <= matches@.len() <= VOTE_LIMIT,
            forall|k: int|
                0 <= k < matches@.len() ==> ((#[trigger] matches@[k]) matches Some(m) ==> 0 <= m.0
                    <= BIN_LIMIT),
            out@ == votes_of(matches@, i as int),
        decreases matches@.len() - i,
    {
        if let Some(m) = matches[i] {
            let at: i64 = (i as i64) * 1000;
            out.push(ChunkVote { at, offset: m.0 - at, score: m.1 });
        }
        i = i + 1;
    }
    out
}

// ---------------------------------------------------------------- line fit

/// Sum of a sequence.
pub open spec fn total(xs: Seq<i64>) -> int
    decreases xs.len(),
{
    if xs.len() == 0 {
        0
    } else {
        total(xs.drop_last()) + xs.last()
    }
}

/// Sum of the products of two sequences of one length.
pub open spec fn dot(xs: Seq<i64>, ys: Seq<i64>) -> int
    decreases xs.len(),
{
    if xs.len() == 0 {
        0
    } else {
        dot(xs.drop_last(), ys.drop_last()) + xs.last() * ys.last()
    }
}

/// How far the values are spread: the count times the sum of squares about the mean.
pub open spec fn spread(xs: Seq<i64>) -> int {
    xs.len() * dot(xs, xs) - total(xs) * total(xs)
}

/// How the values move together: the count times the sum of products about the means.
pub open spec fn covary(xs: Seq<i64>, ys: Seq<i64>) -> int {
    xs.len() * dot(xs, ys) - total(xs) * total(ys)
}

/// The least-squares line through the points has a slope that clock drift can
/// explain: 500 millionths at most.
pub open spec fn plausible_drift(xs: Seq<i64>, ys: Seq<i64>) -> bool {
    xs.len() >= 4 && spread(xs) > 0 && crate::units::size(covary(xs, ys)) * 2000 <= spread(xs)
}

/// Offset at clip time 0, in microseconds: where the least-squares line meets
/// the axis if its slope is plausible drift, else the median.
pub open spec fn offset_at_start(xs: Seq<i64>, ys: Seq<i64>) -> int {
    if plausible_drift(xs, ys) {
        crate::units::rounded(BIN * (total(ys) * dot(xs, xs) - total(xs) * dot(xs, ys)), spread(xs))
    } else {
        BIN * crate::order::median_of(ys)
    }
}

/// All values are in range.
pub open spec fn small(xs: Seq<i64>) -> bool {
    &&& xs.len() <= VOTE_LIMIT
    &&& forall|i: int| 0 <= i < xs.len() ==> -BIN_LIMIT <= (#[trigger] xs[i]) <= BIN_LIMIT
}

proof fn lemma_total_bound(xs: Seq<i64>)
    requires
        small(xs),
    ensures
        -(BIN_LIMIT * xs.len()) <= total(xs) <= BIN_LIMIT * xs.len(),
    decreases xs.len(),
{
    if xs.len() > 0 {
        assert(small(xs.drop_last()));
        lemma_total_bound(xs.drop_last());
        assert(-BIN_LIMIT <= xs[xs.len() - 1] <= BIN_LIMIT);
    }
}

proof fn lemma_dot_bound(xs: Seq<i64>, ys: Seq<i64>)
    requires
        small(xs),
        small(ys),
        xs.len() == ys.len(),
    ensures
        -(0x10_0000_0000_0000 * xs.len()) <= dot(xs, ys) <= 0x10_0000_0000_0000 * xs.len(),
    decreases xs.len(),
{
    if xs.len() > 0 {
        assert(small(xs.drop_last()));
        assert(small(ys.drop_last()));
        lemma_dot_bound(xs.drop_last(), ys.drop_last());
        let a = xs[xs.len() - 1] as int;
        let b = ys[ys.len() - 1] as int;
        lemma_product(a, 0x400_0000, b, 0x400_0000);
    }
}

proof fn lemma_product(a: int, am: int, b: int, bm: int)
    by (nonlinear_arith)
    requires
        -am <= a <= am,
        -bm <= b <= bm,
    ensures
        -(am * bm) <= a * b <= am * bm,
{
    if a >= 0 && b >= 0 {
        assert(a * b <= am * b);
        assert(am * b <= am * bm);
    } else if a < 0 && b < 0 {
        assert(a * b == (-a) * (-b));
        assert((-a) * (-b) <= am * (-b));
        assert(am * (-b) <= am * bm);
    } else if a < 0 {
        assert((-a) * b <= am * b);
        assert(am * b <= am * bm);
        assert(a * b == -((-a) * b));
    } else {
        assert(a * (-b) <= am * (-b));
        assert(am * (-b) <= am * bm);
        assert(a * b == -(a * (-b)));
    }
}

/// Both sums of a fit fit into wide numbers, and the fitted offset is no larger
/// than twice the largest offset.
proof fn lemma_fit_bounds(xs: Seq<i64>, ys: Seq<i64>)
    requires
        small(xs),
        small(ys),
        xs.len() == ys.len(),
    ensures
        crate::units::size(total(xs)) <= 0x400_0000_0000,
        crate::units::size(total(ys)) <= 0x400_0000_0000,
        crate::units::size(dot(xs, xs)) <= 0x10_0000_0000_0000_0000,
        crate::units::size(dot(xs, ys)) <= 0x10_0000_0000_0000_0000,
        crate::units::size(total(ys) * dot(xs, xs)) <= 0x4000_0000_0000_0000_0000_0000_0000,
        crate::units::size(total(xs) * dot(xs, ys)) <= 0x4000_0000_0000_0000_0000_0000_0000,
        crate::units::size(total(xs) * total(xs)) <= 0x10_0000_0000_0000_0000_0000,
        crate::units::size(total(xs) * total(ys)) <= 0x10_0000_0000_0000_0000_0000,
        crate::units::size(xs.len() * dot(xs, xs)) <= 0x10_0000_0000_0000_0000_0000,
        crate::units::size(xs.len() * dot(xs, ys)) <= 0x10_0000_0000_0000_0000_0000,
{
    let n = xs.len() as int;
    lemma_total_bound(xs);
    lemma_total_bound(ys);
    lemma_dot_bound(xs, xs);
    lemma_dot_bound(xs, ys);
    lemma_product(total(ys), 0x400_0000_0000, dot(xs, xs), 0x10_0000_0000_0000_0000);
    lemma_product(total(xs), 0x400_0000_0000, dot(xs, ys), 0x10_0000_0000_0000_0000);
    lemma_product(total(xs), 0x400_0000_0000, total(xs), 0x400_0000_0000);
    lemma_product(total(xs), 0x400_0000_0000, total(ys), 0x400_0000_0000);
    lemma_product(n, 0x1_0000, dot(xs, xs), 0x10_0000_0000_0000_0000);
    lemma_product(n, 0x1_0000, dot(xs, ys), 0x10_0000_0000_0000_0000);
}

/// A fitted offset is at most twice as large as the largest offset.
proof fn lemma_fit_small(xs: Seq<i64>, ys: Seq<i64>)
    requires
        small(xs),
        small(ys),
        xs.len() == ys.len(),
        plausible_drift(xs, ys),
    ensures
        crate::units::size(offset_at_start(xs, ys)) <= 2 * BIN * BIN_LIMIT + 1,
{
    let n = xs.len() as int;
    let sx = total(xs);
    let sy = total(ys);
    let sxx = dot(xs, xs);
    let sxy = dot(xs, ys);
    let q = spread(xs);
    let p = covary(xs, ys);
    let top = sy * sxx - sx * sxy;
    let b = BIN_LIMIT as int;
    lemma_total_bound(xs);
    lemma_total_bound(ys);
    assert(n * top == sy * q - p * sx) by (nonlinear_arith)
        requires
            top == sy * sxx - sx * sxy,
            q == n * sxx - sx * sx,
            p == n * sxy - sx * sy,
    ;
    lemma_product(sy, b * n, q, q);
    lemma_product(p, q, sx, b * n);
    assert(-(2 * b * q) <= top <= 2 * b * q) by (nonlinear_arith)
        requires
            n * top == sy * q - p * sx,
            -(b * n * q) <= sy * q <= b * n * q,
            -(q * (b * n)) <= p * sx <= q * (b * n),
            n >= 4,
    ;
    let r = crate::units::rounded(BIN * top, q);
    crate::units::lemma_rounded_near(BIN * top, q);
    assert(crate::units::size(r) <= 2 * BIN * BIN_LIMIT + 1) by (nonlinear_arith)
        requires
            -q <= 2 * (10_000 * top - r * q) <= q,
            -(2 * b * q) <= top <= 2 * b * q,
            q > 0,
            b == 0x400_0000,
    ;
}

/// Offset of the clip at time 0, in microseconds, from the chunks' times and
/// offsets in bins. A robust line fit absorbs clock drift; a lone chunk just
/// gives its own value.
pub fn fit_offset_at_start(xs: &Vec<i64>, ys: &Vec<i64>) -> (t: i64)
    requires
        xs@.len() == ys@.len(),
        xs@.len() > 0,
        small(xs@),
        small(ys@),
    ensures
        t == offset_at_start(xs@, ys@),
        -(2 * BIN * BIN_LIMIT + 1) <= t <= 2 * BIN * BIN_LIMIT + 1,
{
    let mid: i64 = median(ys);
    assert(-BIN_LIMIT <= mid <= BIN_LIMIT);
    let n: usize = xs.len();
    if n < 4 {
        return 10_000 * mid;
    }
    let mut sx: i128 = 0;
    let mut sy: i128 = 0;
    let mut sxx: i128 = 0;
    let mut sxy: i128 = 0;
    let mut i: usize = 0;
    while i < n
        invariant
            n == xs@.len(),
            n == ys@.len(),
            i <= n,
            small(xs@),
            small(ys@),
            sx == total(xs@.take(i as int)),
            sy == total(ys@.take(i as int)),
            sxx == dot(xs@.take(i as int), xs@.take(i as int)),
            sxy == dot(xs@.take(i as int), ys@.take(i as int)),
        decreases n - i,
    {
        proof {
            let a = xs@.take(i + 1);
            let b = ys@.take(i + 1);
            assert(a.drop_last() =~= xs@.take(i as int));
            assert(b.drop_last() =~= ys@.take(i as int));
            assert(small(a));
            assert(small(b));
            assert(small(a.drop_last()));
            assert(small(b.drop_last()));
            lemma_fit_bounds(a.drop_last(), b.drop_last());
            lemma_product(xs@[i as int] as int, 0x400_0000, xs@[i as int] as int, 0x400_0000);
            lemma_product(xs@[i as int] as int, 0x400_0000, ys@[i as int] as int, 0x400_0000);
        }
        let x: i128 = xs[i] as i128;
        let y: i128 = ys[i] as i128;
        sx = sx + x;
        sy = sy + y;
        sxx = sxx + x * x;
        sxy = sxy + x * y;
        i = i + 1;
    }
    proof {
        assert(xs@.take(i as int) =~= xs@);
        assert(ys@.take(i as int) =~= ys@);
        lemma_fit_bounds(xs@, ys@);
    }
    let q: i128 = (n as i128) * sxx - sx * sx;
    let p: i128 = (n as i128) * sxy - sx * sy;
    let steep: i128 = if p < 0 {
        -p
    } else {
        p
    };
    if q <= 0 || steep * 2000 > q {
        return 10_000 * mid;
    }
    let top: i128 = sy * sxx - sx * sxy;
    let t: i128 = round_div(10_000 * top, q);
    proof {
        lemma_fit_small(xs@, ys@);
    }
    t as i64
}

pub(crate) proof fn lemma_line_sums(xs: Seq<i64>, ys: Seq<i64>, d: int, c: int, s: int)
    requires
        xs.len() == ys.len(),
        forall|i: int| 0 <= i < xs.len() ==> d * (#[trigger] ys[i]) == c + s * xs[i],
    ensures
        d * total(ys) == c * xs.len() + s * total(xs),
        d * dot(xs, ys) == c * total(xs) + s * dot(xs, xs),
    decreases xs.len(),
{
    if xs.len() > 0 {
        let x = xs.last() as int;
        let y = ys.last() as int;
        let n = xs.len() as int;
        lemma_line_sums(xs.drop_last(), ys.drop_last(), d, c, s);
        assert(d * ys[n - 1] == c + s * xs[n - 1]);
        let ty = total(ys.drop_last());
        let tx = total(xs.drop_last());
        let txy = dot(xs.drop_last(), ys.drop_last());
        let txx = dot(xs.drop_last(), xs.drop_last());
        assert(d * (ty + y) == c * n + s * (tx + x)) by (nonlinear_arith)
            requires
                d * ty == c * (n - 1) + s * tx,
                d * y == c + s * x,
        ;
        assert(d * (x * y) == x * (d * y)) by (nonlinear_arith);
        assert(x * (c + s * x) == c * x + s * (x * x)) by (nonlinear_arith);
        assert(d * (txy + x * y) == d * txy + d * (x * y)) by (nonlinear_arith);
        assert(c * (tx + x) == c * tx + c * x) by (nonlinear_arith);
        assert(s * (txx + x * x) == s * txx + s * (x * x)) by (nonlinear_arith);
    } else {
        assert(d * 0 == 0 && c * 0 == 0 && s * 0 == 0) by (nonlinear_arith);
    }
}

/// Clock drift is absorbed: where the offsets lie on a line `(c + s * at) / d`
/// of plausible slope, the fit gives the line's value at clip time 0.
pub proof fn lemma_drift_absorbed(xs: Seq<i64>, ys: Seq<i64>, d: int, c: int, s: int)
    requires
        xs.len() == ys.len(),
        xs.len() >= 4,
        spread(xs) > 0,
        d > 0,
        crate::units::size(s) * 2000 <= d,
        forall|i: int| 0 <= i < xs.len() ==> d * (#[trigger] ys[i]) == c + s * xs[i],
    ensures
        offset_at_start(xs, ys) == crate::units::rounded(BIN * c, d),
{
    lemma_line_sums(xs, ys, d, c, s);
    let n = xs.len() as int;
    let sx = total(xs);
    let sy = total(ys);
    let sxx = dot(xs, xs);
    let sxy = dot(xs, ys);
    let q = spread(xs);
    let p = covary(xs, ys);
    assert(d * (n * sxy - sx * sy) == n * (d * sxy) - sx * (d * sy)) by (nonlinear_arith);
    assert(n * (c * sx + s * sxx) == c * (n * sx) + s * (n * sxx)) by (nonlinear_arith);
    assert(sx * (c * n + s * sx) == c * (n * sx) + s * (sx * sx)) by (nonlinear_arith);
    assert(s * (n * sxx - sx * sx) == s * (n * sxx) - s * (sx * sx)) by (nonlinear_arith);
    assert(d * p == s * q);
    assert(crate::units::size(p) * 2000 <= q) by (nonlinear_arith)
        requires
            d * p == s * q,
            d > 0,
            q > 0,
            (if s < 0 { -s } else { s }) * 2000 <= d,
            crate::units::size(p) == (if p < 0 { -p } else { p }),
    {
        let a = if p < 0 {
            -p
        } else {
            p
        };
        let b = if s < 0 {
            -s
        } else {
            s
        };
        assert(d * a == b * q);
        assert(d * (a * 2000) == (b * 2000) * q);
        assert((b * 2000) * q <= d * q);
    }
    let top = sy * sxx - sx * sxy;
    assert(d * (sy * sxx - sx * sxy) == (d * sy) * sxx - sx * (d * sxy)) by (nonlinear_arith);
    assert((c * n + s * sx) * sxx == c * (n * sxx) + s * (sx * sxx)) by (nonlinear_arith);
    assert(sx * (c * sx + s * sxx) == c * (sx * sx) + s * (sx * sxx)) by (nonlinear_arith);
    assert(c * (n * sxx - sx * sx) == c * (n * sxx) - c * (sx * sx)) by (nonlinear_arith);
    assert(d * top == c * q);
    assert((BIN * top) * d == (BIN * c) * q) by (nonlinear_arith)
        requires
            d * top == c * q,
    ;
    crate::units::lemma_rounded_ratio(BIN * top, q, BIN * c, d);
}

// ---------------------------------------------------------------- clusters

/// The votes are in range.
pub open spec fn votes_ok(votes: Seq<ChunkVote>) -> bool {
    &&& votes.len() <= VOTE_LIMIT
    &&& forall|i: int|
        0 <= i < votes.len() ==> 0 <= (#[trigger] votes[i]).at <= BIN_LIMIT && -BIN_LIMIT <= votes[i].offset
            <= BIN_LIMIT
}

/// Vote `i` matched something and is not yet taken.
pub open spec fn open_vote(votes: Seq<ChunkVote>, used: Seq<bool>, i: int) -> bool {
    !used[i] && votes[i].score >= MIN_CHUNK_SCORE
}

/// Vote `j` belongs to the cluster about vote `c`.
pub open spec fn joins(votes: Seq<ChunkVote>, used: Seq<bool>, c: int, j: int) -> bool {
    open_vote(votes, used, j) && crate::units::size(votes[j].offset - votes[c].offset) <= CLUSTER_TOL
}

/// Summed score of the first `n` votes that belong to the cluster about vote `c`.
pub open spec fn support(votes: Seq<ChunkVote>, used: Seq<bool>, c: int, n: int) -> int
    decreases n,
{
    if n <= 0 {
        0
    } else {
        support(votes, used, c, n - 1) + if joins(votes, used, c, n - 1) {
            votes[n - 1].score as int
        } else {
            0
        }
    }
}

/// Vote `c` is the centre of the densest cluster, and the first such.
pub open spec fn densest(votes: Seq<ChunkVote>, used: Seq<bool>, c: int) -> bool {
    let n = votes.len() as int;
    &&& 0 <= c < n
    &&& open_vote(votes, used, c)
    &&& forall|i: int|
        0 <= i < n && open_vote(votes, used, i) ==> #[trigger] support(votes, used, i, n) <= support(
            votes,
            used,
            c,
            n,
        )
    &&& forall|i: int|
        0 <= i < c && open_vote(votes, used, i) ==> #[trigger] support(votes, used, i, n) < support(
            votes,
            used,
            c,
            n,
        )
}

/// Those of the first `n` votes that belong to the cluster about vote `c`.
pub open spec fn cluster(votes: Seq<ChunkVote>, used: Seq<bool>, c: int, n: int) -> Seq<usize>
    decreases n,
{
    if n <= 0 {
        Seq::empty()
    } else if joins(votes, used, c, n - 1) {
        cluster(votes, used, c, n - 1).push((n - 1) as usize)
    } else {
        cluster(votes, used, c, n - 1)
    }
}

/// The votes that are taken once the cluster about vote `c` is.
pub open spec fn taken(votes: Seq<ChunkVote>, used: Seq<bool>, c: int) -> Seq<bool> {
    Seq::new(votes.len(), |j: int| used[j] || joins(votes, used, c, j))
}

/// The votes that are taken after the clusters about the first `r` centres.
pub open spec fn used_after(votes: Seq<ChunkVote>, centers: Seq<int>, r: int) -> Seq<bool>
    decreases r,
{
    if r <= 0 {
        Seq::new(votes.len(), |j: int| false)
    } else {
        taken(votes, used_after(votes, centers, r - 1), centers[r - 1])
    }
}

/// The members' chunk times.
pub open spec fn times_of(votes: Seq<ChunkVote>, members: Seq<usize>) -> Seq<i64> {
    Seq::new(members.len(), |k: int| votes[members[k] as int].at)
}

/// The members' offsets.
pub open spec fn offsets_of(votes: Seq<ChunkVote>, members: Seq<usize>) -> Seq<i64> {
    Seq::new(members.len(), |k: int| votes[members[k] as int].offset)
}

/// With the clip at `offset` microseconds, the vote's chunk lies inside the master.
/// Clip and master lengths are in samples.
pub open spec fn overlaps(vote: ChunkVote, offset: int, clip_len: int, master_len: int) -> bool {
    let start = vote.at * BIN;
    let end = if start + CHUNK_BINS * BIN < clip_len * SAMPLE {
        start + CHUNK_BINS * BIN
    } else {
        clip_len * SAMPLE
    };
    start + offset >= 0 && end + offset <= master_len * SAMPLE
}

/// Number of those of the first `n` votes whose chunks lie inside the master.
pub open spec fn reachable(
    votes: Seq<ChunkVote>,
    offset: int,
    clip_len: int,
    master_len: int,
    n: int,
) -> int
    decreases n,
{
    if n <= 0 {
        0
    } else {
        reachable(votes, offset, clip_len, master_len, n - 1) + if overlaps(
            votes[n - 1],
            offset,
            clip_len,
            master_len,
        ) {
            1int
        } else {
            0
        }
    }
}

/// Share of the chunks inside the master that agree, in millionths; at most all of
/// them.
pub open spec fn agreement(agreeing: int, reach: int) -> int {
    if reach > 0 {
        crate::units::clamped(crate::units::rounded(agreeing * 1_000_000, reach), 0, 1_000_000)
    } else {
        0
    }
}

/// Votes that agree on an offset.
#[derive(Debug)]
pub struct Group {
    /// Positions of the agreeing votes.
    pub members: Vec<usize>,
    /// Offset of the clip start in microseconds.
    pub offset: i64,
    /// Share of the chunks inside the master that agree, in millionths.
    pub confidence: u32,
}

impl Group {
    /// The members are votes, and the offset is in range.
    pub open spec fn ok(self, votes: int) -> bool {
        &&& forall|k: int| 0 <= k < self.members@.len() ==> (#[trigger] self.members@[k]) < votes
        &&& -OFFSET_LIMIT <= self.offset <= OFFSET_LIMIT
        &&& self.confidence <= 1_000_000
    }
}

/// `g` is the group about vote `c`.
pub open spec fn is_group(
    votes: Seq<ChunkVote>,
    used: Seq<bool>,
    c: int,
    clip_len: int,
    master_len: int,
    g: Group,
) -> bool {
    let n = votes.len() as int;
    &&& g.members@ == cluster(votes, used, c, n)
    &&& g.offset == offset_at_start(times_of(votes, g.members@), offsets_of(votes, g.members@))
    &&& g.confidence == agreement(
        g.members@.len() as int,
        reachable(votes, g.offset as int, clip_len, master_len, n),
    )
}

/// `groups` are the clusters about `centers`: each the densest among the votes
/// that those before it left, until the limit is reached or no match is left.
pub open spec fn is_grouping(
    votes: Seq<ChunkVote>,
    clip_len: int,
    master_len: int,
    centers: Seq<int>,
    groups: Seq<Group>,
) -> bool {
    &&& groups.len() == centers.len()
    &&& groups.len() <= MAX_CANDIDATES
    &&& forall|r: int|
        0 <= r < groups.len() ==> densest(votes, used_after(votes, centers, r), #[trigger] centers[r])
    &&& forall|r: int|
        0 <= r < groups.len() ==> is_group(
            votes,
            used_after(votes, centers, r),
            centers[r],
            clip_len,
            master_len,
            #[trigger] groups[r],
        )
    &&& groups.len() < MAX_CANDIDATES ==> forall|i: int|
        0 <= i < votes.len() ==> !#[trigger] open_vote(
            votes,
            used_after(votes, centers, groups.len() as int),
            i,
        )
}

proof fn lemma_support_bound(votes: Seq<ChunkVote>, used: Seq<bool>, c: int, n: int)
    requires
        0 <= n <= votes.len() <= VOTE_LIMIT,
    ensures
        0 <= support(votes, used, c, n) <= n * 0x8000_0000,
    decreases n,
{
    if n > 0 {
        lemma_support_bound(votes, used, c, n - 1);
    }
}

/// Summed score of the cluster about vote `c`.
fn cluster_support(votes: &Vec<ChunkVote>, used: &Vec<bool>, c: usize) -> (s: i64)
    requires
        votes_ok(votes@),
        used@.len() == votes@.len(),
        c < votes@.len(),
    ensures
        s == support(votes@, used@, c as int, votes@.len() as int),
{
    let mut s: i64 = 0;
    let mut j: usize = 0;
    while j < votes.len()
        invariant
            votes_ok(votes@),
            used@.len() == votes@.len(),
            c < votes@.len(),
            j <= votes@.len(),
            s == support(votes@, used@, c as int, j as int),
        decreases votes@.len() - j,
    {
        proof {
            lemma_support_bound(votes@, used@, c as int, j as int);
        }
        if in_cluster(votes, used, c, j) {
            s = s + votes[j].score as i64;
        }
        j = j + 1;
    }
    s
}

/// Whether vote `j` belongs to the cluster about vote `c`.
fn in_cluster(votes: &Vec<ChunkVote>, used: &Vec<bool>, c: usize, j: usize) -> (b: bool)
    requires
        votes_ok(votes@),
        used@.len() == votes@.len(),
        c < votes@.len(),
        j < votes@.len(),
    ensures
        b == joins(votes@, used@, c as int, j as int),
{
    assert(-BIN_LIMIT <= votes@[j as int].offset <= BIN_LIMIT);
    assert(-BIN_LIMIT <= votes@[c as int].offset <= BIN_LIMIT);
    let d: i64 = votes[j].offset - votes[c].offset;
    !used[j] && votes[j].score >= MIN_CHUNK_SCORE && -CLUSTER_TOL <= d && d <= CLUSTER_TOL
}

/// The centre of the densest cluster of open votes.
fn densest_center(votes: &Vec<ChunkVote>, used: &Vec<bool>) -> (c: Option<usize>)
    requires
        votes_ok(votes@),
        used@.len() == votes@.len(),
    ensures
        match c {
            Some(i) => densest(votes@, used@, i as int),
            None => forall|i: int| 0 <= i < votes@.len() ==> !#[trigger] open_vote(votes@, used@, i),
        },
{
    let ghost n = votes@.len() as int;
    let mut best: Option<(usize, i64)> = None;
    let mut i: usize = 0;
    while i < votes.len()
        invariant
            votes_ok(votes@),
            used@.len() == votes@.len(),
            n == votes@.len(),
            i <= n,
            match best {
                Some((c, s)) => {
                    &&& c < i
                    &&& open_vote(votes@, used@, c as int)
                    &&& s == support(votes@, used@, c as int, n)
                    &&& forall|k: int|
                        0 <= k < i && open_vote(votes@, used@, k) ==> #[trigger] support(
                            votes@,
                            used@,
                            k,
                            n,
                        ) <= s
                    &&& forall|k: int|
                        0 <= k < c && open_vote(votes@, used@, k) ==> #[trigger] support(
                            votes@,
                            used@,
                            k,
                            n,
                        ) < s
                },
                None => forall|k: int| 0 <= k < i ==> !#[trigger] open_vote(votes@, used@, k),
            },
        decreases votes@.len() - i,
    {
        if !used[i] && votes[i].score >= MIN_CHUNK_SCORE {
            let s: i64 = cluster_support(votes, used, i);
            let better: bool = match best {
                Some((_, top)) => s > top,
                None => true,
            };
            if better {
                best = Some((i, s));
            }
        }
        i = i + 1;
    }
    match best {
        Some((c, _)) => Some(c),
        None => None,
    }
}

proof fn lemma_cluster_members(votes: Seq<ChunkVote>, used: Seq<bool>, c: int, n: int)
    requires
        0 <= n <= votes.len() <= VOTE_LIMIT,
    ensures
        cluster(votes, used, c, n).len() <= n,
        forall|k: int|
            0 <= k < cluster(votes, used, c, n).len() ==> (#[trigger] cluster(votes, used, c, n)[k]) < n
                && joins(votes, used, c, cluster(votes, used, c, n)[k] as int),
        forall|j: int|
            0 <= j < n && #[trigger] joins(votes, used, c, j) ==> cluster(votes, used, c, n).contains(
                j as usize,
            ),
    decreases n,
{
    if n > 0 {
        lemma_cluster_members(votes, used, c, n - 1);
        let before = cluster(votes, used, c, n - 1);
        let after = cluster(votes, used, c, n);
        assert forall|j: int| 0 <= j < n && #[trigger] joins(votes, used, c, j) implies after.contains(
            j as usize,
        ) by {
            if j == n - 1 {
                assert(after[after.len() - 1] == j as usize);
            } else {
                assert(before.contains(j as usize));
                let k = choose|k: int| 0 <= k < before.len() && before[k] == j as usize;
                assert(after[k] == j as usize);
            }
        }
    }
}

/// The group about vote `c`; its votes are marked as taken.
fn take_group(votes: &Vec<ChunkVote>, used: &mut Vec<bool>, c: usize, clip_len: usize, master_len: usize) -> (g:
    Group)
    requires
        votes_ok(votes@),
        old(used)@.len() == votes@.len(),
        densest(votes@, old(used)@, c as int),
    ensures
        final(used)@ == taken(votes@, old(used)@, c as int),
        is_group(votes@, old(used)@, c as int, clip_len as int, master_len as int, g),
        g.ok(votes@.len() as int),
{
    let ghost was = used@;
    let ghost n = votes@.len() as int;
    let mut members: Vec<usize> = Vec::new();
    let mut xs: Vec<i64> = Vec::new();
    let mut ys: Vec<i64> = Vec::new();
    let mut j: usize = 0;
    while j < votes.len()
        invariant
            votes_ok(votes@),
            used@ == was,
            was.len() == votes@.len(),
            n == votes@.len(),
            c < n,
            j <= n,
            members@ == cluster(votes@, was, c as int, j as int),
            xs@ == times_of(votes@, members@),
            ys@ == offsets_of(votes@, members@),
            members@.len() <= j,
        decreases n - j,
    {
        if in_cluster(votes, used, c, j) {
            members.push(j);
            xs.push(votes[j].at);
            ys.push(votes[j].offset);
            proof {
                assert(xs@ =~= times_of(votes@, members@));
                assert(ys@ =~= offsets_of(votes@, members@));
            }
        }
        j = j + 1;
    }
    proof {
        lemma_cluster_members(votes@, was, c as int, n);
        assert(joins(votes@, was, c as int, c as int));
        assert(members@.contains(c));
        assert forall|k: int| 0 <= k < xs@.len() implies -BIN_LIMIT <= (#[trigger] xs@[k]) <= BIN_LIMIT by {
            assert(cluster(votes@, was, c as int, n)[k] < n);
            assert(votes@[members@[k] as int].at <= BIN_LIMIT);
        }
        assert forall|k: int| 0 <= k < ys@.len() implies -BIN_LIMIT <= (#[trigger] ys@[k]) <= BIN_LIMIT by {
            assert(cluster(votes@, was, c as int, n)[k] < n);
            assert(votes@[members@[k] as int].offset <= BIN_LIMIT);
        }
    }
    let offset: i64 = fit_offset_at_start(&xs, &ys);
    let reach: i64 = reachable_chunks(votes, offset, clip_len, master_len);
    let confidence: u32 = confidence_of(members.len() as i64, reach);
    let mut m: usize = 0;
    while m < votes.len()
        invariant
            votes_ok(votes@),
            used@.len() == votes@.len(),
            was.len() == votes@.len(),
            n == votes@.len(),
            c < n,
            m <= n,
            forall|k: int| 0 <= k < m ==> #[trigger] used@[k] == (was[k] || joins(votes@, was, c as int, k)),
            forall|k: int| m <= k < n ==> #[trigger] used@[k] == was[k],
        decreases n - m,
    {
        if in_cluster(votes, used, c, m) {
            used.set(m, true);
        }
        m = m + 1;
    }
    proof {
        assert(used@ =~= taken(votes@, was, c as int));
    }
    Group { members, offset, confidence }
}

/// Number of the chunks that lie inside the master.
fn reachable_chunks(votes: &Vec<ChunkVote>, offset: i64, clip_len: usize, master_len: usize) -> (n: i64)
    requires
        votes_ok(votes@),
    ensures
        n == reachable(votes@, offset as int, clip_len as int, master_len as int, votes@.len() as int),
        0 <= n <= VOTE_LIMIT,
{
    let clip_end: i128 = (clip_len as i128) * 125;
    let master_end: i128 = (master_len as i128) * 125;
    let mut n: i64 = 0;
    let mut j: usize = 0;
    while j < votes.len()
        invariant
            votes_ok(votes@),
            j <= votes@.len(),
            clip_end == clip_len * 125,
            master_end == master_len * 125,
            n == reachable(votes@, offset as int, clip_len as int, master_len as int, j as int),
            0 <= n <= j,
        decreases votes@.len() - j,
    {
        assert(0 <= votes@[j as int].at <= BIN_LIMIT);
        let start: i128 = (votes[j].at as i128) * 10_000;
        let end: i128 = if start + 15_000_000 < clip_end {
            start + 15_000_000
        } else {
            clip_end
        };
        if start + offset as i128 >= 0 && end + offset as i128 <= master_end {
            n = n + 1;
        }
        j = j + 1;
    }
    n
}

/// Share of the chunks inside the master that agree, in millionths.
pub fn confidence_of(agreeing: i64, reach: i64) -> (c: u32)
    requires
        0 <= agreeing <= 0x8000_0000,
    ensures
        c == agreement(agreeing as int, reach as int),
        c <= 1_000_000,
{
    if reach > 0 {
        let q: i64 = crate::units::round_div64(agreeing * 1_000_000, reach);
        if q < 0 {
            0
        } else if q > 1_000_000 {
            1_000_000
        } else {
            q as u32
        }
    } else {
        0
    }
}

/// The groups of votes that agree on an offset, densest first.
pub fn candidate_groups(votes: &Vec<ChunkVote>, clip_len: usize, master_len: usize) -> (groups: Vec<Group>)
    requires
        votes_ok(votes@),
    ensures
        exists|centers: Seq<int>| #[trigger]
            is_grouping(votes@, clip_len as int, master_len as int, centers, groups@),
        forall|r: int| 0 <= r < groups@.len() ==> (#[trigger] groups@[r]).ok(votes@.len() as int),
{
    let mut used: Vec<bool> = Vec::new();
    let mut i: usize = 0;
    while i < votes.len()
        invariant
            i <= votes@.len(),
            used@.len() == i,
            forall|k: int| 0 <= k < i ==> !#[trigger] used@[k],
        decreases votes@.len() - i,
    {
        used.push(false);
        i = i + 1;
    }
    let ghost mut centers: Seq<int> = Seq::empty();
    let mut groups: Vec<Group> = Vec::new();
    assert(used@ =~= used_after(votes@, centers, 0));
    while groups.len() < MAX_CANDIDATES
        invariant
            votes_ok(votes@),
            used@.len() == votes@.len(),
            groups@.len() == centers.len(),
            groups@.len() <= MAX_CANDIDATES,
            used@ == used_after(votes@, centers, groups@.len() as int),
            forall|r: int|
                0 <= r < groups@.len() ==> densest(
                    votes@,
                    used_after(votes@, centers, r),
                    #[trigger] centers[r],
                ),
            forall|r: int|
                0 <= r < groups@.len() ==> is_group(
                    votes@,
                    used_after(votes@, centers, r),
                    centers[r],
                    clip_len as int,
                    master_len as int,
                    #[trigger] groups@[r],
                ),
            forall|r: int| 0 <= r < groups@.len() ==> (#[trigger] groups@[r]).ok(votes@.len() as int),
        decreases MAX_CANDIDATES - groups@.len(),
    {
        match densest_center(votes, &used) {
            Some(c) => {
                let ghost was = centers;
                let ghost r0 = groups@.len() as int;
                let g: Group = take_group(votes, &mut used, c, clip_len, master_len);
                groups.push(g);
                proof {
                    centers = was.push(c as int);
                    assert forall|r: int| 0 <= r <= r0 implies #[trigger] used_after(votes@, centers, r)
                        == used_after(votes@, was, r) by {
                        lemma_used_after_prefix(votes@, was, c as int, r);
                    }
                    assert(used_after(votes@, centers, r0 + 1) == taken(
                        votes@,
                        used_after(votes@, centers, r0),
                        c as int,
                    ));
                }
            },
            None => {
                assert(is_grouping(votes@, clip_len as int, master_len as int, centers, groups@));
                return groups;
            },
        }
    }
    assert(is_grouping(votes@, clip_len as int, master_len as int, centers, groups@));
    groups
}

proof fn lemma_used_after_prefix(votes: Seq<ChunkVote>, centers: Seq<int>, c: int, r: int)
    requires
        0 <= r <= centers.len(),
    ensures
        used_after(votes, centers.push(c), r) == used_after(votes, centers, r),
    decreases r,
{
    if r > 0 {
        lemma_used_after_prefix(votes, centers, c, r - 1);
    }
}

/// Two groupings of the same votes agree: the candidates follow from the votes.
pub proof fn lemma_grouping_unique(
    votes: Seq<ChunkVote>,
    clip_len: int,
    master_len: int,
    a: Seq<int>,
    x: Seq<Group>,
    b: Seq<int>,
    y: Seq<Group>,
)
    requires
        is_grouping(votes, clip_len, master_len, a, x),
        is_grouping(votes, clip_len, master_len, b, y),
    ensures
        a == b,
        x.len() == y.len(),
        forall|r: int|
            0 <= r < x.len() ==> {
                &&& (#[trigger] x[r]).members@ == y[r].members@
                &&& x[r].offset == y[r].offset
                &&& x[r].confidence == y[r].confidence
            },
{
    let n = if x.len() <= y.len() {
        x.len() as int
    } else {
        y.len() as int
    };
    lemma_centers_agree(votes, clip_len, master_len, a, x, b, y, n);
    if x.len() < y.len() {
        assert(used_after(votes, a, n) == used_after(votes, b, n));
        assert(densest(votes, used_after(votes, b, n), b[n]));
        assert(!open_vote(votes, used_after(votes, a, n), b[n]));
    }
    if y.len() < x.len() {
        assert(used_after(votes, a, n) == used_after(votes, b, n));
        assert(densest(votes, used_after(votes, a, n), a[n]));
        assert(!open_vote(votes, used_after(votes, b, n), a[n]));
    }
    assert(a =~= b);
    assert forall|r: int| 0 <= r < x.len() implies {
        &&& (#[trigger] x[r]).members@ == y[r].members@
        &&& x[r].offset == y[r].offset
        &&& x[r].confidence == y[r].confidence
    } by {
        assert(is_group(votes, used_after(votes, a, r), a[r], clip_len, master_len, x[r]));
        assert(is_group(votes, used_after(votes, b, r), b[r], clip_len, master_len, y[r]));
    }
}

proof fn lemma_centers_agree(
    votes: Seq<ChunkVote>,
    clip_len: int,
    master_len: int,
    a: Seq<int>,
    x: Seq<Group>,
    b: Seq<int>,
    y: Seq<Group>,
    n: int,
)
    requires
        is_grouping(votes, clip_len, master_len, a, x),
        is_grouping(votes, clip_len, master_len, b, y),
        0 <= n <= x.len(),
        n <= y.len(),
    ensures
        used_after(votes, a, n) == used_after(votes, b, n),
        forall|r: int| 0 <= r < n ==> #[trigger] a[r] == b[r],
    decreases n,
{
    if n > 0 {
        lemma_centers_agree(votes, clip_len, master_len, a, x, b, y, n - 1);
        let used = used_after(votes, a, n - 1);
        let i = a[n - 1];
        let j = b[n - 1];
        assert(densest(votes, used, i));
        assert(densest(votes, used, j));
        assert(i == j);
    } else {
        assert(used_after(votes, a, 0) =~= used_after(votes, b, 0));
    }
}

/// A vote that is taken stays taken.
proof fn lemma_used_grows(votes: Seq<ChunkVote>, centers: Seq<int>, q: int, r: int, j: int)
    requires
        0 <= q <= r,
        0 <= j < votes.len(),
        used_after(votes, centers, q)[j],
    ensures
        used_after(votes, centers, r)[j],
    decreases r - q,
{
    if q < r {
        lemma_used_grows(votes, centers, q, r - 1, j);
    }
}

/// No vote is in two groups, and every vote of a group matched something and is
/// close to the group's centre.
pub proof fn lemma_groups_disjoint(
    votes: Seq<ChunkVote>,
    clip_len: int,
    master_len: int,
    centers: Seq<int>,
    groups: Seq<Group>,
    q: int,
    r: int,
    a: int,
    b: int,
)
    requires
        votes_ok(votes),
        is_grouping(votes, clip_len, master_len, centers, groups),
        0 <= q < r < groups.len(),
        0 <= a < groups[q].members@.len(),
        0 <= b < groups[r].members@.len(),
    ensures
        groups[q].members@[a] != groups[r].members@[b],
        votes[groups[q].members@[a] as int].score >= MIN_CHUNK_SCORE,
        crate::units::size(votes[groups[q].members@[a] as int].offset - votes[centers[q]].offset)
            <= CLUSTER_TOL,
{
    let n = votes.len() as int;
    let uq = used_after(votes, centers, q);
    let ur = used_after(votes, centers, r);
    assert(is_group(votes, uq, centers[q], clip_len, master_len, groups[q]));
    assert(is_group(votes, ur, centers[r], clip_len, master_len, groups[r]));
    lemma_cluster_members(votes, uq, centers[q], n);
    lemma_cluster_members(votes, ur, centers[r], n);
    let i = groups[q].members@[a] as int;
    let j = groups[r].members@[b] as int;
    assert(cluster(votes, uq, centers[q], n)[a] == i);
    assert(cluster(votes, ur, centers[r], n)[b] == j);
    assert(joins(votes, uq, centers[q], i));
    assert(joins(votes, ur, centers[r], j));
    if i == j {
        assert(used_after(votes, centers, q + 1)[i]);
        lemma_used_grows(votes, centers, q + 1, r, i);
    }
}

/// A clip has candidates exactly when one of its chunks matched something.
pub proof fn lemma_candidates_iff_match(
    votes: Seq<ChunkVote>,
    clip_len: int,
    master_len: int,
    centers: Seq<int>,
    groups: Seq<Group>,
)
    requires
        is_grouping(votes, clip_len, master_len, centers, groups),
    ensures
        groups.len() > 0 <==> exists|i: int|
            0 <= i < votes.len() && (#[trigger] votes[i]).score >= MIN_CHUNK_SCORE,
{
    let none = used_after(votes, centers, 0);
    if groups.len() > 0 {
        assert(densest(votes, none, centers[0]));
        assert(votes[centers[0]].score >= MIN_CHUNK_SCORE);
    } else {
        assert forall|i: int| 0 <= i < votes.len() implies (#[trigger] votes[i]).score < MIN_CHUNK_SCORE by {
            assert(!open_vote(votes, none, i));
        }
    }
}

/// A repeated passage does not fool the vote: where every chunk that matched
/// agrees on one offset to within [`CLUSTER_TOL`], there is a single candidate,
/// and all of them stand behind it.
pub proof fn lemma_agreeing_votes_give_one_candidate(
    votes: Seq<ChunkVote>,
    clip_len: int,
    master_len: int,
    centers: Seq<int>,
    groups: Seq<Group>,
)
    requires
        votes_ok(votes),
        is_grouping(votes, clip_len, master_len, centers, groups),
        groups.len() > 0,
        forall|i: int, j: int|
            0 <= i < votes.len() && 0 <= j < votes.len() && (#[trigger] votes[i]).score >= MIN_CHUNK_SCORE
                && (#[trigger] votes[j]).score >= MIN_CHUNK_SCORE ==> crate::units::size(
                votes[i].offset - votes[j].offset,
            ) <= CLUSTER_TOL,
    ensures
        groups.len() == 1,
        forall|i: int|
            0 <= i < votes.len() && (#[trigger] votes[i]).score >= MIN_CHUNK_SCORE
                ==> groups[0].members@.contains(i as usize),
{
    let n = votes.len() as int;
    let none = used_after(votes, centers, 0);
    let c = centers[0];
    assert(densest(votes, none, c));
    assert(is_group(votes, none, c, clip_len, master_len, groups[0]));
    lemma_cluster_members(votes, none, c, n);
    assert forall|i: int| 0 <= i < votes.len() && (#[trigger] votes[i]).score >= MIN_CHUNK_SCORE implies (
    groups[0].members@.contains(i as usize) && used_after(votes, centers, 1)[i]) by {
        assert(votes[c].score >= MIN_CHUNK_SCORE);
        assert(joins(votes, none, c, i));
    }
    if groups.len() > 1 {
        assert(densest(votes, used_after(votes, centers, 1), centers[1]));
        assert(votes[centers[1]].score >= MIN_CHUNK_SCORE);
        assert(false);
    }
}

// ---------------------------------------------------------------- refinement

/// Where to look for the exact offset of a group.
#[derive(Debug)]
pub struct RefinePlan {
    /// The voted offset in samples.
    pub center: i64,
    /// Stretches of the clip, in samples, to be compared with the master.
    pub segments: Vec<(usize, usize)>,
}

/// The members' scores.
pub open spec fn scores_of(votes: Seq<ChunkVote>, members: Seq<usize>) -> Seq<i64> {
    Seq::new(members.len(), |k: int| votes[members[k] as int].score as i64)
}

/// The stretch of the clip that is compared for a chunk, as far as the clip goes.
pub open spec fn segment(vote: ChunkVote, clip_len: int) -> (int, int) {
    let start = vote.at * HOP;
    (
        crate::units::clamped(start, 0, clip_len),
        crate::units::clamped(start + REFINE_SAMPLES, 0, clip_len),
    )
}

/// How many chunks are compared.
pub open spec fn strongest_count(members: Seq<usize>) -> int {
    if members.len() < 3 {
        members.len() as int
    } else {
        3
    }
}

/// The three strongest chunks of a group, strongest first, and the offset in
/// samples about which they are compared with the master.
pub fn refine_plan(votes: &Vec<ChunkVote>, members: &Vec<usize>, offset: i64, clip_len: usize) -> (plan:
    RefinePlan)
    requires
        votes_ok(votes@),
        forall|k: int| 0 <= k < members@.len() ==> (#[trigger] members@[k]) < votes@.len(),
    ensures
        plan.center == crate::units::rounded(offset as int, SAMPLE as int),
        plan.segments@.len() == strongest_count(members@),
        forall|k: int|
            0 <= k < plan.segments@.len() ==> {
                let order = crate::order::order_of(
                    crate::order::descending_keys(scores_of(votes@, members@)),
                );
                let want = segment(votes@[members@[order[k] as int] as int], clip_len as int);
                (#[trigger] plan.segments@[k]).0 == want.0 && plan.segments@[k].1 == want.1
            },
{
    let center: i64 = crate::units::round_div64(offset, SAMPLE);
    let mut scores: Vec<i64> = Vec::new();
    let mut i: usize = 0;
    while i < members.len()
        invariant
            i <= members@.len(),
            scores@.len() == i,
            forall|k: int| 0 <= k < members@.len() ==> (#[trigger] members@[k]) < votes@.len(),
            forall|k: int| 0 <= k < i ==> #[trigger] scores@[k] == votes@[members@[k] as int].score as i64,
        decreases members@.len() - i,
    {
        scores.push(votes[members[i]].score as i64);
        i = i + 1;
    }
    assert(scores@ =~= scores_of(votes@, members@));
    let order: Vec<usize> = descending_order(&scores);
    let n: usize = if members.len() < 3 {
        members.len()
    } else {
        3
    };
    let mut segments: Vec<(usize, usize)> = Vec::new();
    let mut k: usize = 0;
    while k < n
        invariant
            votes_ok(votes@),
            k <= n <= members@.len(),
            order@.len() == members@.len(),
            forall|m: int| 0 <= m < order@.len() ==> (#[trigger] order@[m]) < members@.len(),
            forall|m: int| 0 <= m < members@.len() ==> (#[trigger] members@[m]) < votes@.len(),
            segments@.len() == k,
            forall|m: int|
                0 <= m < k ==> {
                    let want = segment(votes@[members@[order@[m] as int] as int], clip_len as int);
                    (#[trigger] segments@[m]).0 == want.0 && segments@[m].1 == want.1
                },
        decreases n - k,
    {
        let vote: ChunkVote = votes[members[order[k]]];
        assert(0 <= vote.at <= BIN_LIMIT);
        let from: i128 = (vote.at as i128) * 80;
        let to: i128 = from + 80_000;
        let len: i128 = clip_len as i128;
        let start: usize = if from > len {
            clip_len
        } else {
            from as usize
        };
        let end: usize = if to > len {
            clip_len
        } else {
            to as usize
        };
        segments.push((start, end));
        k = k + 1;
    }
    RefinePlan { center, segments }
}

/// The samples of `start..end` that fall on a sample of the master when the clip
/// is moved by `lag`.
pub fn shared_samples(start: usize, end: usize, lag: i64, master_len: usize) -> (r: (usize, usize))
    ensures
        forall|i: int|
            0 <= i ==> (r.0 <= i < r.1) == (start <= i < end && 0 <= #[trigger] (i + lag) < master_len),
{
    let lo: i128 = if (start as i128) < -(lag as i128) {
        -(lag as i128)
    } else {
        start as i128
    };
    let reach: i128 = master_len as i128 - lag as i128;
    let hi: i128 = if (end as i128) < reach {
        end as i128
    } else {
        reach
    };
    if lo >= hi {
        (0, 0)
    } else {
        (lo as usize, hi as usize)
    }
}

/// The refined offset in microseconds: `keys` rates the lags from
/// `center - REFINE_RADIUS` on, and has no value where nothing could be
/// compared. The first of the best lags wins; without any the centre stays.
pub open spec fn is_refined(center: i64, keys: Seq<Option<i64>>, t: int) -> bool {
    if forall|k: int| 0 <= k < keys.len() ==> (#[trigger] keys[k]) is None {
        t == center * SAMPLE
    } else {
        exists|k: int|
            {
                &&& 0 <= k < keys.len()
                &&& (#[trigger] keys[k]) is Some
                &&& t == (center - REFINE_RADIUS + k) * SAMPLE
                &&& forall|j: int|
                    0 <= j < keys.len() ==> ((#[trigger] keys[j]) matches Some(v) ==> v <= keys[k]->0)
                &&& forall|j: int| 0 <= j < k ==> ((#[trigger] keys[j]) matches Some(v) ==> v < keys[k]->0)
            }
    }
}

/// The refined offset.
pub fn refined_offset(center: i64, keys: &Vec<Option<i64>>) -> (t: i64)
    requires
        -0x1_0000_0000_0000 <= center <= 0x1_0000_0000_0000,
        keys@.len() <= 2 * REFINE_RADIUS + 1,
    ensures
        is_refined(center, keys@, t as int),
{
    let mut best: Option<(usize, i64)> = None;
    let mut i: usize = 0;
    while i < keys.len()
        invariant
            i <= keys@.len(),
            match best {
                Some((k, top)) => {
                    &&& k < i
                    &&& keys@[k as int] == Some(top)
                    &&& forall|j: int| 0 <= j < i ==> ((#[trigger] keys@[j]) matches Some(v) ==> v <= top)
                    &&& forall|j: int| 0 <= j < k ==> ((#[trigger] keys@[j]) matches Some(v) ==> v < top)
                },
                None => forall|j: int| 0 <= j < i ==> (#[trigger] keys@[j]) is None,
            },
        decreases keys@.len() - i,
    {
        if let Some(v) = keys[i] {
            let better: bool = match best {
                Some((_, top)) => v > top,
                None => true,
            };
            if better {
                best = Some((i, v));
            }
        }
        i = i + 1;
    }
    match best {
        Some((k, _)) => {
            assert(keys@[k as int] is Some);
            (center - REFINE_RADIUS + k as i64) * SAMPLE
        },
        None => center * SAMPLE,
    }
}

// ---------------------------------------------------------------- ranking

/// The candidates of a clip: the groups' refined offsets, best first.
pub open spec fn ranked(groups: Seq<Group>, offsets: Seq<i64>, out: Seq<SyncResult>) -> bool {
    let order = crate::order::order_of(crate::order::descending_keys(confidences(groups)));
    &&& out.len() == groups.len()
    &&& forall|k: int|
        0 <= k < out.len() ==> #[trigger] out[k] == (SyncResult {
            offset: offsets[order[k] as int],
            confidence: groups[order[k] as int].confidence,
        })
}

/// The groups' confidences.
pub open spec fn confidences(groups: Seq<Group>) -> Seq<i64> {
    Seq::new(groups.len(), |k: int| groups[k].confidence as i64)
}

/// Candidate offsets, best first; equally good ones keep their order.
pub fn rank(groups: &Vec<Group>, offsets: &Vec<i64>) -> (out: Vec<SyncResult>)
    requires
        groups@.len() == offsets@.len(),
    ensures
        ranked(groups@, offsets@, out@),
        forall|a: int, b: int|
            0 <= a <= b < out@.len() ==> (#[trigger] out@[a]).confidence >= (#[trigger] out@[b]).confidence,
{
    let mut values: Vec<i64> = Vec::new();
    let mut i: usize = 0;
    while i < groups.len()
        invariant
            i <= groups@.len(),
            values@.len() == i,
            forall|k: int| 0 <= k < i ==> #[trigger] values@[k] == groups@[k].confidence as i64,
        decreases groups@.len() - i,
    {
        values.push(groups[i].confidence as i64);
        i = i + 1;
    }
    assert(values@ =~= confidences(groups@));
    let order: Vec<usize> = descending_order(&values);
    let mut out: Vec<SyncResult> = Vec::new();
    let mut k: usize = 0;
    while k < order.len()
        invariant
            groups@.len() == offsets@.len(),
            order@.len() == groups@.len(),
            forall|m: int| 0 <= m < order@.len() ==> (#[trigger] order@[m]) < groups@.len(),
            k <= order@.len(),
            out@.len() == k,
            forall|m: int|
                0 <= m < k ==> #[trigger] out@[m] == (SyncResult {
                    offset: offsets@[order@[m] as int],
                    confidence: groups@[order@[m] as int].confidence,
                }),
        decreases order@.len() - k,
    {
        let j: usize = order[k];
        out.push(SyncResult { offset: offsets[j], confidence: groups[j].confidence });
        k = k + 1;
    }
    proof {
        let keys = crate::order::descending_keys(values@);
        assert forall|a: int, b: int| 0 <= a <= b < out@.len() implies (#[trigger] out@[a]).confidence >= (
        #[trigger] out@[b]).confidence by {
            if a < b {
                assert(crate::order::before(keys, order@[a] as int, order@[b] as int));
                let x = keys[order@[a] as int];
                let y = keys[order@[b] as int];
                if x != y {
                    assert(crate::order::key_less(x, y));
                    reveal_with_fuel(crate::order::key_less, 2);
                    assert(x[0] <= y[0]);
                } else {
                    assert(x[0] == y[0]);
                }
            }
        }
    }
    out
}

/// How the lags of group `k` are rated: `rated` has nothing on groups for which
/// nothing could be compared.
pub open spec fn rating(rated: Seq<Vec<Option<i64>>>, k: int) -> Seq<Option<i64>> {
    if k < rated.len() {
        rated[k]@
    } else {
        Seq::empty()
    }
}

/// `out` are the candidates of a clip: its groups with refined offsets, best first.
pub open spec fn are_candidates(
    votes: Seq<ChunkVote>,
    clip_len: int,
    master_len: int,
    rated: Seq<Vec<Option<i64>>>,
    centers: Seq<int>,
    groups: Seq<Group>,
    offsets: Seq<i64>,
    out: Seq<SyncResult>,
) -> bool {
    &&& is_grouping(votes, clip_len, master_len, centers, groups)
    &&& offsets.len() == groups.len()
    &&& forall|k: int|
        0 <= k < offsets.len() ==> is_refined(
            crate::units::rounded(groups[k].offset as int, SAMPLE as int) as i64,
            rating(rated, k),
            (#[trigger] offsets[k]) as int,
        )
    &&& ranked(groups, offsets, out)
}

/// Candidate offsets from the chunks' votes, best first. Empty when nothing matched.
/// `rated` holds for every group, in the order of [`candidate_groups`], how well the
/// lags about its offset fit, in the order of [`refined_offset`].
pub fn candidates_from_votes(
    votes: &Vec<ChunkVote>,
    clip_len: usize,
    master_len: usize,
    rated: &Vec<Vec<Option<i64>>>,
) -> (out: Vec<SyncResult>)
    requires
        votes_ok(votes@),
        forall|k: int| 0 <= k < rated@.len() ==> (#[trigger] rated@[k])@.len() <= 2 * REFINE_RADIUS + 1,
    ensures
        exists|centers: Seq<int>, groups: Seq<Group>, offsets: Seq<i64>| #[trigger]
            are_candidates(
                votes@,
                clip_len as int,
                master_len as int,
                rated@,
                centers,
                groups,
                offsets,
                out@,
            ),
        forall|a: int, b: int|
            0 <= a <= b < out@.len() ==> (#[trigger] out@[a]).confidence >= (#[trigger] out@[b]).confidence,
{
    let groups: Vec<Group> = candidate_groups(votes, clip_len, master_len);
    let ghost centers = choose|centers: Seq<int>| #[trigger]
        is_grouping(votes@, clip_len as int, master_len as int, centers, groups@);
    let mut offsets: Vec<i64> = Vec::new();
    let none: Vec<Option<i64>> = Vec::new();
    let mut k: usize = 0;
    while k < groups.len()
        invariant
            k <= groups@.len(),
            none@ == Seq::<Option<i64>>::empty(),
            forall|r: int| 0 <= r < groups@.len() ==> (#[trigger] groups@[r]).ok(votes@.len() as int),
            forall|r: int| 0 <= r < rated@.len() ==> (#[trigger] rated@[r])@.len() <= 2 * REFINE_RADIUS + 1,
            offsets@.len() == k,
            forall|r: int|
                0 <= r < k ==> is_refined(
                    crate::units::rounded(groups@[r].offset as int, SAMPLE as int) as i64,
                    rating(rated@, r),
                    (#[trigger] offsets@[r]) as int,
                ),
        decreases groups@.len() - k,
    {
        assert(groups@[k as int].ok(votes@.len() as int));
        let center: i64 = crate::units::round_div64(groups[k].offset, SAMPLE);
        let keys: &Vec<Option<i64>> = if k < rated.len() {
            &rated[k]
        } else {
            &none
        };
        assert(keys@ == rating(rated@, k as int));
        offsets.push(refined_offset(center, keys));
        k = k + 1;
    }
    let out: Vec<SyncResult> = rank(&groups, &offsets);
    assert(are_candidates(
        votes@,
        clip_len as int,
        master_len as int,
        rated@,
        centers,
        groups@,
        offsets@,
        out@,
    ));
    out
}

/// Whether both recordings are long enough to be matched. Lengths in samples.
pub fn long_enough(clip_len: usize, master_len: usize) -> (b: bool)
    ensures
        b == (clip_len >= MIN_CHUNK_BINS * HOP && master_len >= MIN_CHUNK_BINS * HOP),
{
    clip_len >= 40_000 && master_len >= 40_000
}

/// Where a clip lies in the master: the best of its candidates, which come best
/// first. Recordings that are too short are not matched. Lengths in samples.
pub fn find_offset(clip_len: usize, master_len: usize, candidates: &Vec<SyncResult>) -> (r: Option<SyncResult>)
    ensures
        r == if clip_len >= MIN_CHUNK_BINS * HOP && master_len >= MIN_CHUNK_BINS * HOP && candidates@.len() > 0 {
            Some(candidates@[0])
        } else {
            None
        },
{
    if long_enough(clip_len, master_len) && candidates.len() > 0 {
        Some(candidates[0])
    } else {
        None
    }
}

// ---------------------------------------------------------------- start times

/// Some stamp follows the one before it by less than the clip's length: the
/// stamps are ends of recordings.
pub open spec fn ends_stamped(creation: Seq<Option<i64>>, durations: Seq<i64>) -> bool {
    exists|i: int|
        {
            &&& 0 <= i < durations.len()
            &&& i + 1 < creation.len()
            &&& #[trigger] creation[i] is Some
            &&& creation[i + 1] is Some
            &&& creation[i + 1]->0 - creation[i]->0 < durations[i]
        }
}

/// The start that a stamp stands for.
pub open spec fn start_of(stamp: Option<i64>, duration: i64, ends: bool) -> Option<i64> {
    match stamp {
        Some(t) => Some(if ends {
            (t - duration) as i64
        } else {
            t
        }),
        None => None,
    }
}

/// Recording start times for a camera's clips from their creation stamps. Some
/// phones stamp the end of the recording instead; that shows as a gap shorter
/// than the clip, and then all stamps are shifted back.
pub fn start_times(creation: &Vec<Option<i64>>, durations: &Vec<i64>) -> (out: Vec<Option<i64>>)
    requires
        forall|i: int|
            0 <= i < creation@.len() ==> ((#[trigger] creation@[i]) matches Some(t)
                ==> crate::arrange::in_limit(t as int)),
        forall|i: int|
            0 <= i < durations@.len() ==> crate::arrange::in_limit((#[trigger] durations@[i]) as int),
    ensures
        out@.len() == if creation@.len() < durations@.len() {
            creation@.len()
        } else {
            durations@.len()
        },
        forall|i: int|
            0 <= i < out@.len() ==> #[trigger] out@[i] == start_of(
                creation@[i],
                durations@[i],
                ends_stamped(creation@, durations@),
            ),
{
    let n: usize = if creation.len() < durations.len() {
        creation.len()
    } else {
        durations.len()
    };
    let mut ends: bool = false;
    let mut i: usize = 0;
    while i < n && !ends
        invariant
            i <= n,
            n <= creation@.len(),
            n <= durations@.len(),
            n == creation@.len() || n == durations@.len(),
            forall|k: int|
                0 <= k < creation@.len() ==> ((#[trigger] creation@[k]) matches Some(t)
                    ==> crate::arrange::in_limit(t as int)),
            forall|k: int|
                0 <= k < durations@.len() ==> crate::arrange::in_limit((#[trigger] durations@[k]) as int),
            ends ==> ends_stamped(creation@, durations@),
            !ends ==> forall|k: int|
                0 <= k < i && k + 1 < creation@.len() && #[trigger] creation@[k] is Some && creation@[k + 1]
                    is Some ==> creation@[k + 1]->0 - creation@[k]->0 >= durations@[k],
        decreases n - i + if ends { 0int } else { 1int },
    {
        if i + 1 < creation.len() {
            if let (Some(a), Some(b)) = (creation[i], creation[i + 1]) {
                assert(creation@[i as int] is Some);
                assert(creation@[i + 1] is Some);
                assert(crate::arrange::in_limit(durations@[i as int] as int));
                ends = b - a < durations[i];
            }
        }
        i = i + 1;
    }
    assert(ends == ends_stamped(creation@, durations@));
    let mut out: Vec<Option<i64>> = Vec::new();
    let mut k: usize = 0;
    while k < n
        invariant
            k <= n,
            n <= creation@.len(),
            n <= durations@.len(),
            forall|m: int|
                0 <= m < creation@.len() ==> ((#[trigger] creation@[m]) matches Some(t)
                    ==> crate::arrange::in_limit(t as int)),
            forall|m: int|
                0 <= m < durations@.len() ==> crate::arrange::in_limit((#[trigger] durations@[m]) as int),
            out@.len() == k,
            forall|m: int|
                0 <= m < k ==> #[trigger] out@[m] == start_of(creation@[m], durations@[m], ends),
        decreases n - k,
    {
        let s: Option<i64> = match creation[k] {
            Some(t) => {
                assert(creation@[k as int] is Some);
                assert(crate::arrange::in_limit(durations@[k as int] as int));
                Some(
                    if ends {
                        t - durations[k]
                    } else {
                        t
                    },
                )
            },
            None => None,
        };
        out.push(s);
        k = k + 1;
    }
    out
}

} // verus!
