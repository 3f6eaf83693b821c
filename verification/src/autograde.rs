//! Automatic colour grade: measure each camera on a few frames, then derive one
//! grade per camera so the cameras match each other and sit at a pleasant
//! exposure. The measurements are plain pixel counts; what they mean in linear
//! light, and what an exposure change would do to them, is worked out by the
//! caller.
//!
//! The targets come from the cameras themselves (their average brightness,
//! contrast, colourfulness and colour balance), so a dark gig stays a dark gig
//! and stage lighting keeps its colour. Only brightness has a floor and ceiling
//! so flat or badly exposed footage lands somewhere sensible.

use crate::model::Grade;
use crate::order::ascending_order;
use crate::units::{clamp, round_div};
use vstd::prelude::*;

verus! {

/// Mean display luma is pulled into this window, in millionths.
pub const MEAN_MIN: i64 = 280_000;

pub const MEAN_MAX: i64 = 500_000;

/// Distance between the 5th and 95th luma percentile after grading.
pub const SPREAD_MIN: i64 = 750_000;

pub const SPREAD_MAX: i64 = 850_000;

/// Mean chroma of the visible pixels after grading.
pub const CHROMA_MIN: i64 = 120_000;

pub const CHROMA_MAX: i64 = 300_000;

/// The 90th luma percentile is kept below this after exposure.
pub const HIGHLIGHT_CEIL: i64 = 950_000;

pub const EXPOSURE_MIN: i64 = -2_500_000;

pub const EXPOSURE_MAX: i64 = 2_500_000;

pub const CONTRAST_MIN: i64 = 950_000;

pub const CONTRAST_MAX: i64 = 1_300_000;

pub const SATURATION_MIN: i64 = 800_000;

pub const SATURATION_MAX: i64 = 1_500_000;

/// Fewer mid-tone pixels than this say nothing about the colour balance.
pub const MIN_MIDTONES: u64 = 64;

/// No ratio of two channels is larger, in millionths.
pub const BALANCE_LIMIT: i64 = 1_000_000_000_000_000;

/// No gain of a channel is larger, in millionths.
pub const GAIN_LIMIT: i64 = 1_000_000_000_000;

/// No camera is measured on more frames.
pub const STATS_FRAMES: usize = 0x10_0000;

// ---------------------------------------------------------------- pixels

/// Luma of a pixel, in ten-thousandths of a step of the pixel values.
pub open spec fn luma_of(r: int, g: int, b: int) -> int {
    2126 * r + 7152 * g + 722 * b
}

/// The luma bin of a pixel: its luma to the nearest step.
pub open spec fn luma_bin(y: int) -> int {
    (y + 5000) / 10_000
}

/// The pixel is not in deep shadow: brighter than eight hundredths.
pub open spec fn is_visible(y: int) -> bool {
    y > 204_000
}

/// The pixel is a mid-tone: visible, and darker than ninety-two hundredths.
pub open spec fn is_midtone(y: int) -> bool {
    204_000 < y < 2_346_000
}

/// Largest minus smallest channel of a pixel.
pub open spec fn chroma_of(r: int, g: int, b: int) -> int {
    let hi = if r >= g && r >= b {
        r
    } else if g >= b {
        g
    } else {
        b
    };
    let lo = if r <= g && r <= b {
        r
    } else if g <= b {
        g
    } else {
        b
    };
    hi - lo
}

/// What can be counted over pixels.
pub enum Tally {
    /// Pixels.
    All,
    /// Pixels in a luma bin.
    Luma(int),
    /// Visible pixels.
    Visible,
    /// Chroma of the visible pixels.
    Chroma,
    /// Mid-tone pixels.
    Mid,
    /// Mid-tone pixels with a value of the red, green or blue channel.
    Red(int),
    Green(int),
    Blue(int),
}

/// What pixel `i` adds to a count.
pub open spec fn weight(rgba: Seq<u8>, tally: Tally, i: int) -> int {
    let r = rgba[4 * i] as int;
    let g = rgba[4 * i + 1] as int;
    let b = rgba[4 * i + 2] as int;
    let y = luma_of(r, g, b);
    match tally {
        Tally::All => 1,
        Tally::Luma(bin) => if luma_bin(y) == bin {
            1
        } else {
            0
        },
        Tally::Visible => if is_visible(y) {
            1
        } else {
            0
        },
        Tally::Chroma => if is_visible(y) {
            chroma_of(r, g, b)
        } else {
            0
        },
        Tally::Mid => if is_midtone(y) {
            1
        } else {
            0
        },
        Tally::Red(v) => if is_midtone(y) && r == v {
            1
        } else {
            0
        },
        Tally::Green(v) => if is_midtone(y) && g == v {
            1
        } else {
            0
        },
        Tally::Blue(v) => if is_midtone(y) && b == v {
            1
        } else {
            0
        },
    }
}

/// A count over the pixels of row `y` from `x0` up to `x`.
pub open spec fn row_count(rgba: Seq<u8>, tally: Tally, w: int, y: int, x0: int, x: int) -> int
    decreases x - x0,
{
    if x <= x0 {
        0
    } else {
        row_count(rgba, tally, w, y, x0, x - 1) + weight(rgba, tally, y * w + x - 1)
    }
}

/// A count over the pixels of the rows from `y0` up to `y`.
pub open spec fn area_count(rgba: Seq<u8>, tally: Tally, w: int, x0: int, x1: int, y0: int, y: int) -> int
    decreases y - y0,
{
    if y <= y0 {
        0
    } else {
        area_count(rgba, tally, w, x0, x1, y0, y - 1) + row_count(rgba, tally, w, y - 1, x0, x1)
    }
}

/// Part of a picture, in millionths of its edges.
#[derive(Debug, Clone, Copy, PartialEq, Eq, Structural)]
pub struct Region {
    pub u0: i64,
    pub v0: i64,
    pub u1: i64,
    pub v1: i64,
}

/// The whole picture.
pub open spec fn whole_region() -> Region {
    Region { u0: 0, v0: 0, u1: 1_000_000, v1: 1_000_000 }
}

/// First pixel at `u` of an edge of `n` pixels.
pub open spec fn first_pixel(u: int, n: int) -> int {
    crate::units::clamped((u * n) / 1_000_000, 0, n)
}

/// End of the pixels up to `u`, not before `from`.
pub open spec fn last_pixel(u: int, n: int, from: int) -> int {
    crate::units::clamped((u * n + 999_999) / 1_000_000, from, n)
}

/// Pixel counts of one camera, accumulated over its sample frames.
#[derive(Debug, Clone)]
pub struct CameraStats {
    /// Pixels per luma bin.
    pub hist: Vec<u64>,
    pub pixels: u64,
    /// Mid-tone pixels per value of each channel.
    pub red: Vec<u64>,
    pub green: Vec<u64>,
    pub blue: Vec<u64>,
    pub mid_n: u64,
    /// Summed chroma of the visible pixels, in steps of the pixel values.
    pub chroma_sum: u64,
    pub chroma_n: u64,
    pub frames: usize,
}

/// Sum of the first `n` counts.
pub open spec fn sum_upto(v: Seq<u64>, n: int) -> int
    decreases n,
{
    if n <= 0 {
        0
    } else {
        sum_upto(v, n - 1) + v[n - 1]
    }
}

/// `was` with one more at `k`.
pub open spec fn bumped(was: Seq<u64>, k: int) -> Seq<u64> {
    was.update(k, (was[k] + 1) as u64)
}

proof fn lemma_sum_bump(v: Seq<u64>, k: int, n: int)
    requires
        0 <= n <= v.len(),
        0 <= k < v.len(),
        v[k] < u64::MAX,
    ensures
        sum_upto(bumped(v, k), n) == sum_upto(v, n) + if k < n {
            1int
        } else {
            0
        },
    decreases n,
{
    if n > 0 {
        lemma_sum_bump(v, k, n - 1);
    }
}

proof fn lemma_sum_grows(v: Seq<u64>, k: int, n: int)
    requires
        0 <= k <= n <= v.len(),
    ensures
        0 <= sum_upto(v, k) <= sum_upto(v, n),
        k < n ==> v[k] <= sum_upto(v, n),
    decreases n,
{
    if n > 0 {
        if k < n {
            lemma_sum_grows(v, k, n - 1);
        } else {
            lemma_sum_grows(v, k - 1, n - 1);
        }
    }
}

impl CameraStats {
    /// The counts fit together: every pixel is in one luma bin, every mid-tone
    /// has one value per channel, and no count is larger than the frames allow.
    pub open spec fn wf(self) -> bool {
        &&& self.hist@.len() == 256
        &&& self.red@.len() == 256
        &&& self.green@.len() == 256
        &&& self.blue@.len() == 256
        &&& sum_upto(self.hist@, 256) == self.pixels
        &&& sum_upto(self.red@, 256) == self.mid_n
        &&& sum_upto(self.green@, 256) == self.mid_n
        &&& sum_upto(self.blue@, 256) == self.mid_n
        &&& self.mid_n <= self.chroma_n <= self.pixels
        &&& self.chroma_sum <= 255 * self.chroma_n
        &&& self.pixels <= self.frames * 0x4000_0000
        &&& self.frames <= STATS_FRAMES
    }

    /// No pixel was counted.
    pub fn new() -> (s: CameraStats)
        ensures
            s.wf(),
            s.pixels == 0,
            s.frames == 0,
            s.chroma_sum == 0,
            s.chroma_n == 0,
            s.mid_n == 0,
            forall|b: int| 0 <= b < 256 ==> #[trigger] s.hist@[b] == 0,
            forall|b: int| 0 <= b < 256 ==> #[trigger] s.red@[b] == 0,
            forall|b: int| 0 <= b < 256 ==> #[trigger] s.green@[b] == 0,
            forall|b: int| 0 <= b < 256 ==> #[trigger] s.blue@[b] == 0,
    {
        let hist: Vec<u64> = zeros();
        let red: Vec<u64> = zeros();
        let green: Vec<u64> = zeros();
        let blue: Vec<u64> = zeros();
        CameraStats {
            hist,
            pixels: 0,
            red,
            green,
            blue,
            mid_n: 0,
            chroma_sum: 0,
            chroma_n: 0,
            frames: 0,
        }
    }

    /// Whether no pixel was counted.
    pub fn is_empty(&self) -> (b: bool)
        ensures
            b == (self.pixels == 0),
    {
        self.pixels == 0
    }

    /// What counting the pixels of an area adds up to.
    pub open spec fn counts(self, was: CameraStats, rgba: Seq<u8>, tally: Tally, n: int) -> bool {
        match tally {
            Tally::All => self.pixels == was.pixels + n,
            Tally::Luma(b) => self.hist@[b] == was.hist@[b] + n,
            Tally::Visible => self.chroma_n == was.chroma_n + n,
            Tally::Chroma => self.chroma_sum == was.chroma_sum + n,
            Tally::Mid => self.mid_n == was.mid_n + n,
            Tally::Red(b) => self.red@[b] == was.red@[b] + n,
            Tally::Green(b) => self.green@[b] == was.green@[b] + n,
            Tally::Blue(b) => self.blue@[b] == was.blue@[b] + n,
        }
    }

    /// The counts after one more pixel.
    pub open spec fn one_more(self, was: CameraStats, rgba: Seq<u8>, i: int) -> bool {
        let r = rgba[4 * i] as int;
        let g = rgba[4 * i + 1] as int;
        let b = rgba[4 * i + 2] as int;
        let y = luma_of(r, g, b);
        &&& self.frames == was.frames
        &&& self.pixels == was.pixels + 1
        &&& self.hist@ == bumped(was.hist@, luma_bin(y))
        &&& self.chroma_n == was.chroma_n + weight(rgba, Tally::Visible, i)
        &&& self.chroma_sum == was.chroma_sum + weight(rgba, Tally::Chroma, i)
        &&& self.mid_n == was.mid_n + weight(rgba, Tally::Mid, i)
        &&& if is_midtone(y) {
            self.red@ == bumped(was.red@, r) && self.green@ == bumped(was.green@, g) && self.blue@ == bumped(
                was.blue@,
                b,
            )
        } else {
            self.red@ == was.red@ && self.green@ == was.green@ && self.blue@ == was.blue@
        }
    }

    /// The counts fit together but for the number of frames.
    pub open spec fn sums_ok(self) -> bool {
        &&& self.hist@.len() == 256
        &&& self.red@.len() == 256
        &&& self.green@.len() == 256
        &&& self.blue@.len() == 256
        &&& sum_upto(self.hist@, 256) == self.pixels
        &&& sum_upto(self.red@, 256) == self.mid_n
        &&& sum_upto(self.green@, 256) == self.mid_n
        &&& sum_upto(self.blue@, 256) == self.mid_n
        &&& self.mid_n <= self.chroma_n <= self.pixels
        &&& self.chroma_sum <= 255 * self.chroma_n
        &&& self.pixels < 0x10_0000_0000_0000
    }

    /// Counts one pixel.
    fn add_pixel(&mut self, r: u8, g: u8, b: u8, Ghost(rgba): Ghost<Seq<u8>>, Ghost(i): Ghost<int>)
        requires
            old(self).sums_ok(),
            old(self).pixels < 0x10_0000_0000_0000 - 1,
            0 <= i,
            4 * i + 3 < rgba.len(),
            r == rgba[4 * i],
            g == rgba[4 * i + 1],
            b == rgba[4 * i + 2],
        ensures
            final(self).sums_ok(),
            final(self).one_more(*old(self), rgba, i),
    {
        let y: u32 = 2126 * (r as u32) + 7152 * (g as u32) + 722 * (b as u32);
        let bin: usize = ((y + 5000) / 10_000) as usize;
        proof {
            lemma_sum_grows(self.hist@, bin as int, 256);
            lemma_sum_bump(self.hist@, bin as int, 256);
        }
        let n: u64 = self.hist[bin];
        self.hist.set(bin, n + 1);
        self.pixels = self.pixels + 1;
        if y > 204_000 {
            let hi: u8 = if r >= g && r >= b {
                r
            } else if g >= b {
                g
            } else {
                b
            };
            let lo: u8 = if r <= g && r <= b {
                r
            } else if g <= b {
                g
            } else {
                b
            };
            self.chroma_sum = self.chroma_sum + (hi - lo) as u64;
            self.chroma_n = self.chroma_n + 1;
            if y < 2_346_000 {
                proof {
                    lemma_sum_grows(self.red@, r as int, 256);
                    lemma_sum_bump(self.red@, r as int, 256);
                    lemma_sum_grows(self.green@, g as int, 256);
                    lemma_sum_bump(self.green@, g as int, 256);
                    lemma_sum_grows(self.blue@, b as int, 256);
                    lemma_sum_bump(self.blue@, b as int, 256);
                }
                let nr: u64 = self.red[r as usize];
                self.red.set(r as usize, nr + 1);
                let ng: u64 = self.green[g as usize];
                self.green.set(g as usize, ng + 1);
                let nb: u64 = self.blue[b as usize];
                self.blue.set(b as usize, nb + 1);
                self.mid_n = self.mid_n + 1;
            }
        }
    }

    /// Accumulates one frame.
    pub fn add_frame(&mut self, rgba: &Vec<u8>, width: u32, height: u32)
        requires
            old(self).wf(),
            old(self).frames < STATS_FRAMES,
            crate::decoder::size_ok(width, height),
        ensures
            final(self).wf(),
            final(self).added(*old(self), rgba@, width as int, height as int, whole_region()),
    {
        self.add_region(
            rgba,
            width,
            height,
            Region { u0: 0, v0: 0, u1: 1_000_000, v1: 1_000_000 },
        );
    }

    /// The counts after the part of a frame inside `region`: every count goes up
    /// by what the pixels there add to it. A frame that is too short is left out.
    pub open spec fn added(self, was: CameraStats, rgba: Seq<u8>, w: int, h: int, region: Region) -> bool {
        let x0 = first_pixel(region.u0 as int, w);
        let x1 = last_pixel(region.u1 as int, w, x0);
        let y0 = first_pixel(region.v0 as int, h);
        let y1 = last_pixel(region.v1 as int, h, y0);
        if rgba.len() < w * h * 4 {
            self == was
        } else {
            &&& self.frames == was.frames + 1
            &&& forall|tally: Tally|
                in_bins(tally) ==> #[trigger] self.counts(
                    was,
                    rgba,
                    tally,
                    area_count(rgba, tally, w, x0, x1, y0, y1),
                )
        }
    }

    /// Accumulates the part of a frame inside `region`, which is what the layout
    /// shows of the camera.
    pub fn add_region(&mut self, rgba: &Vec<u8>, width: u32, height: u32, region: Region)
        requires
            old(self).wf(),
            old(self).frames < STATS_FRAMES,
            crate::decoder::size_ok(width, height),
        ensures
            final(self).wf(),
            final(self).added(*old(self), rgba@, width as int, height as int, region),
    {
        let ghost was = *self;
        let ghost w = width as int;
        let ghost h = height as int;
        proof {
            assert(0 <= w * h) by (nonlinear_arith)
                requires
                    w >= 0,
                    h >= 0,
            ;
        }
        let need: usize = (width * height * 4) as usize;
        if rgba.len() < need {
            return;
        }
        let x0: u32 = pixel_floor(region.u0, width);
        let x1: u32 = pixel_ceil(region.u1, width, x0);
        let y0: u32 = pixel_floor(region.v0, height);
        let y1: u32 = pixel_ceil(region.v1, height, y0);
        let ghost data = rgba@;
        let mut y: u32 = y0;
        proof {
            assert(forall|tally: Tally|
                in_bins(tally) ==> #[trigger] self.counts(
                    was,
                    data,
                    tally,
                    area_count(data, tally, w, x0 as int, x1 as int, y0 as int, y0 as int),
                ));
            assert(self.pixels <= was.pixels + (y - y0) * w) by {
                assert((y - y0) * w == 0) by (nonlinear_arith)
                    requires
                        y == y0,
                ;
            }
            assert(was.pixels <= STATS_FRAMES * 0x4000_0000) by (nonlinear_arith)
                requires
                    was.pixels <= was.frames * 0x4000_0000,
                    was.frames <= STATS_FRAMES,
            ;
        }
        while y < y1
            invariant
                was.wf(),
                self.sums_ok(),
                self.frames == was.frames,
                was.frames < STATS_FRAMES,
                was.pixels <= (STATS_FRAMES - 1) * 0x4000_0000,
                w == width,
                h == height,
                w * h * 4 <= u32::MAX,
                data == rgba@,
                w * h * 4 <= data.len(),
                x0 <= x1 <= w,
                y0 <= y <= y1 <= h,
                self.pixels <= was.pixels + (y - y0) * w,
                forall|tally: Tally|
                    in_bins(tally) ==> #[trigger] self.counts(
                        was,
                        data,
                        tally,
                        area_count(data, tally, w, x0 as int, x1 as int, y0 as int, y as int),
                    ),
            decreases y1 - y,
        {
            let ghost row = *self;
            let mut x: u32 = x0;
            proof {
                assert(y * w + w <= w * h) by (nonlinear_arith)
                    requires
                        y + 1 <= h,
                        w >= 0,
                ;
                assert(0 <= y * w) by (nonlinear_arith)
                    requires
                        y >= 0,
                        w >= 0,
                ;
                assert((y - y0) * w <= y * w) by (nonlinear_arith)
                    requires
                        0 <= y0 <= y,
                        w >= 0,
                ;
                assert(forall|tally: Tally|
                    in_bins(tally) ==> #[trigger] self.counts(
                        row,
                        data,
                        tally,
                        row_count(data, tally, w, y as int, x0 as int, x0 as int),
                    ));
            }
            while x < x1
                invariant
                    self.sums_ok(),
                    self.frames == was.frames,
                    w == width,
                    y * w + w <= w * h,
                    0 <= y * w,
                    w * h * 4 <= u32::MAX,
                    data == rgba@,
                    w * h * 4 <= data.len(),
                    x0 <= x <= x1 <= w,
                    self.pixels == row.pixels + (x - x0),
                    row.pixels + w < 0x10_0000_0000_0000 - 1,
                    forall|tally: Tally|
                        in_bins(tally) ==> #[trigger] self.counts(
                            row,
                            data,
                            tally,
                            row_count(data, tally, w, y as int, x0 as int, x as int),
                        ),
                decreases x1 - x,
            {
                let ghost before = *self;
                let ghost i = y * w + x;
                let at: usize = ((y * width + x) * 4) as usize;
                self.add_pixel(rgba[at], rgba[at + 1], rgba[at + 2], Ghost(data), Ghost(i));
                proof {
                    assert forall|tally: Tally| in_bins(tally) implies #[trigger] self.counts(
                        row,
                        data,
                        tally,
                        row_count(data, tally, w, y as int, x0 as int, x + 1),
                    ) by {
                        assert(before.counts(
                            row,
                            data,
                            tally,
                            row_count(data, tally, w, y as int, x0 as int, x as int),
                        ));
                        lemma_counted(*self, before, data, tally, i);
                    }
                }
                x = x + 1;
            }
            proof {
                assert forall|tally: Tally| in_bins(tally) implies #[trigger] self.counts(
                    was,
                    data,
                    tally,
                    area_count(data, tally, w, x0 as int, x1 as int, y0 as int, y + 1),
                ) by {
                    assert(row.counts(
                        was,
                        data,
                        tally,
                        area_count(data, tally, w, x0 as int, x1 as int, y0 as int, y as int),
                    ));
                    assert(self.counts(
                        row,
                        data,
                        tally,
                        row_count(data, tally, w, y as int, x0 as int, x1 as int),
                    ));
                }
                assert((y + 1 - y0) * w == (y - y0) * w + w) by (nonlinear_arith);
            }
            y = y + 1;
        }
        proof {
            assert((y - y0) * w <= h * w) by (nonlinear_arith)
                requires
                    0 <= y - y0 <= h,
                    w >= 0,
            ;
            assert(h * w == w * h) by (nonlinear_arith);
        }
        let ghost counted = *self;
        self.frames = self.frames + 1;
        proof {
            assert forall|tally: Tally| in_bins(tally) implies #[trigger] self.counts(
                was,
                data,
                tally,
                area_count(data, tally, w, x0 as int, x1 as int, y0 as int, y1 as int),
            ) by {
                assert(counted.counts(
                    was,
                    data,
                    tally,
                    area_count(data, tally, w, x0 as int, x1 as int, y0 as int, y as int),
                ));
            }
        }
    }
}

/// The count is about a bin that there is.
pub open spec fn in_bins(tally: Tally) -> bool {
    match tally {
        Tally::Luma(b) => 0 <= b < 256,
        Tally::Red(b) => 0 <= b < 256,
        Tally::Green(b) => 0 <= b < 256,
        Tally::Blue(b) => 0 <= b < 256,
        _ => true,
    }
}

proof fn lemma_counted(s: CameraStats, was: CameraStats, rgba: Seq<u8>, tally: Tally, i: int)
    requires
        in_bins(tally),
        was.sums_ok(),
        s.sums_ok(),
        s.one_more(was, rgba, i),
        was.pixels < 0x10_0000_0000_0000 - 1,
    ensures
        s.counts(was, rgba, tally, weight(rgba, tally, i)),
{
    match tally {
        Tally::Luma(b) => {
            lemma_sum_grows(was.hist@, b, 256);
        },
        Tally::Red(b) => {
            lemma_sum_grows(was.red@, b, 256);
        },
        Tally::Green(b) => {
            lemma_sum_grows(was.green@, b, 256);
        },
        Tally::Blue(b) => {
            lemma_sum_grows(was.blue@, b, 256);
        },
        _ => {},
    }
}

/// Empty bins.
fn zeros() -> (v: Vec<u64>)
    ensures
        v@.len() == 256,
        forall|b: int| 0 <= b < 256 ==> #[trigger] v@[b] == 0,
        sum_upto(v@, 256) == 0,
{
    let mut v: Vec<u64> = Vec::new();
    while v.len() < 256
        invariant
            v@.len() <= 256,
            forall|b: int| 0 <= b < v@.len() ==> #[trigger] v@[b] == 0,
        decreases 256 - v@.len(),
    {
        v.push(0);
    }
    proof {
        lemma_sum_zero(v@, 256);
    }
    v
}

proof fn lemma_sum_zero(v: Seq<u64>, n: int)
    requires
        0 <= n <= v.len(),
        forall|b: int| 0 <= b < v.len() ==> #[trigger] v[b] == 0,
    ensures
        sum_upto(v, n) == 0,
    decreases n,
{
    if n > 0 {
        lemma_sum_zero(v, n - 1);
    }
}

/// First pixel at `u` of an edge.
fn pixel_floor(u: i64, n: u32) -> (x: u32)
    ensures
        x == first_pixel(u as int, n as int),
{
    if u <= 0 {
        proof {
            assert(u * n <= 0) by (nonlinear_arith)
                requires
                    u <= 0,
                    n >= 0,
            ;
        }
        return 0;
    }
    proof {
        assert(0 <= u * n <= 0x7fff_ffff_ffff_ffff * 0xffff_ffff) by (nonlinear_arith)
            requires
                0 <= u <= 0x7fff_ffff_ffff_ffff,
                0 <= n <= 0xffff_ffff,
        ;
    }
    let q: i128 = ((u as i128) * (n as i128)) / 1_000_000;
    if q > n as i128 {
        n
    } else {
        q as u32
    }
}

/// End of the pixels up to `u`, not before `from`.
fn pixel_ceil(u: i64, n: u32, from: u32) -> (x: u32)
    requires
        from <= n,
    ensures
        x == last_pixel(u as int, n as int, from as int),
        from <= x <= n,
{
    if u <= 0 {
        proof {
            assert(u * n <= 0) by (nonlinear_arith)
                requires
                    u <= 0,
                    n >= 0,
            ;
        }
        return from;
    }
    proof {
        assert(0 <= u * n <= 0x7fff_ffff_ffff_ffff * 0xffff_ffff) by (nonlinear_arith)
            requires
                0 <= u <= 0x7fff_ffff_ffff_ffff,
                0 <= n <= 0xffff_ffff,
        ;
    }
    let q: i128 = ((u as i128) * (n as i128) + 999_999) / 1_000_000;
    if q < from as i128 {
        from
    } else if q > n as i128 {
        n
    } else {
        q as u32
    }
}

// ---------------------------------------------------------------- measurements

/// The first luma bin up to which `want` pixels are counted.
pub open spec fn is_percentile(hist: Seq<u64>, want: int, bin: int) -> bool {
    &&& 0 <= bin < 256
    &&& sum_upto(hist, bin + 1) >= want
    &&& forall|j: int| 0 <= j < bin ==> #[trigger] sum_upto(hist, j + 1) < want
}

/// Sum of bin times count over the first `n` bins.
pub open spec fn weighted_upto(v: Seq<u64>, n: int) -> int
    decreases n,
{
    if n <= 0 {
        0
    } else {
        weighted_upto(v, n - 1) + (n - 1) * v[n - 1]
    }
}

proof fn lemma_weighted_bound(v: Seq<u64>, n: int)
    requires
        0 <= n <= v.len(),
        n <= 256,
    ensures
        0 <= weighted_upto(v, n) <= 255 * sum_upto(v, n),
    decreases n,
{
    if n > 0 {
        lemma_weighted_bound(v, n - 1);
        assert(0 <= (n - 1) * v[n - 1] <= 255 * v[n - 1]) by (nonlinear_arith)
            requires
                0 <= n - 1 <= 255,
                v[n - 1] >= 0,
        ;
    }
}

impl CameraStats {
    /// Mean display luma in millionths, zero without pixels.
    pub open spec fn luma_mean(self) -> int {
        if self.pixels == 0 {
            0
        } else {
            crate::units::rounded(weighted_upto(self.hist@, 256) * 1_000_000, 255 * self.pixels)
        }
    }

    /// Mean chroma of the visible pixels in millionths, zero without any.
    pub open spec fn chroma_mean(self) -> int {
        if self.chroma_n == 0 {
            0
        } else {
            crate::units::rounded(self.chroma_sum * 1_000_000, 255 * self.chroma_n)
        }
    }

    /// Luma bin below which `q` millionths of the pixels fall.
    pub fn percentile(&self, q: i64) -> (bin: usize)
        requires
            self.wf(),
            0 <= q <= 1_000_000,
        ensures
            is_percentile(self.hist@, crate::units::rounded(self.pixels * q, 1_000_000), bin as int),
    {
        proof {
            assert(0 <= self.pixels * q <= self.pixels * 1_000_000) by (nonlinear_arith)
                requires
                    0 <= q <= 1_000_000,
                    self.pixels >= 0,
            ;
            crate::units::lemma_rounded_near(self.pixels * q, 1_000_000);
            assert(self.pixels <= STATS_FRAMES * 0x4000_0000) by (nonlinear_arith)
                requires
                    self.pixels <= self.frames * 0x4000_0000,
                    self.frames <= STATS_FRAMES,
            ;
        }
        let want: i128 = round_div((self.pixels as i128) * (q as i128), 1_000_000);
        assert(want <= self.pixels);
        let mut seen: i128 = 0;
        let mut bin: usize = 0;
        while bin < 255
            invariant
                self.wf(),
                bin <= 255,
                seen == sum_upto(self.hist@, bin as int),
                0 <= seen <= self.pixels,
                want == crate::units::rounded(self.pixels * q, 1_000_000),
                want <= self.pixels,
                forall|j: int| 0 <= j < bin ==> #[trigger] sum_upto(self.hist@, j + 1) < want,
            decreases 255 - bin,
        {
            proof {
                lemma_sum_grows(self.hist@, bin + 1, 256);
            }
            seen = seen + self.hist[bin] as i128;
            if seen >= want {
                return bin;
            }
            bin = bin + 1;
        }
        assert(sum_upto(self.hist@, bin + 1) == self.pixels);
        bin
    }

    /// Mean display luma in millionths, zero without pixels.
    pub fn mean_luma(&self) -> (m: i64)
        requires
            self.wf(),
        ensures
            m == self.luma_mean(),
            0 <= m <= 1_000_000,
    {
        if self.pixels == 0 {
            return 0;
        }
        proof {
            assert(self.pixels <= STATS_FRAMES * 0x4000_0000) by (nonlinear_arith)
                requires
                    self.pixels <= self.frames * 0x4000_0000,
                    self.frames <= STATS_FRAMES,
            ;
            lemma_weighted_bound(self.hist@, 256);
        }
        let mut sum: i128 = 0;
        let mut bin: usize = 0;
        while bin < 256
            invariant
                self.wf(),
                bin <= 256,
                sum == weighted_upto(self.hist@, bin as int),
                self.pixels <= STATS_FRAMES * 0x4000_0000,
            decreases 256 - bin,
        {
            proof {
                lemma_weighted_bound(self.hist@, bin as int);
                lemma_sum_grows(self.hist@, bin as int, 256);
                let n = self.hist@[bin as int] as int;
                assert(0 <= bin * n <= 255 * n) by (nonlinear_arith)
                    requires
                        0 <= bin <= 255,
                        n >= 0,
                ;
            }
            sum = sum + (bin as i128) * (self.hist[bin] as i128);
            bin = bin + 1;
        }
        let d: i128 = 255 * (self.pixels as i128);
        let q: i128 = round_div(sum * 1_000_000, d);
        proof {
            crate::units::lemma_rounded_near(sum * 1_000_000, d as int);
            assert(0 <= q <= 1_000_000) by (nonlinear_arith)
                requires
                    -(d as int) <= 2 * (sum * 1_000_000 - q * d) <= d,
                    0 <= sum <= d,
                    d > 0,
            ;
        }
        q as i64
    }

    /// Mean chroma of the visible pixels in millionths, zero without any.
    pub fn mean_chroma(&self) -> (m: i64)
        requires
            self.wf(),
        ensures
            m == self.chroma_mean(),
            0 <= m <= 1_000_000,
    {
        if self.chroma_n == 0 {
            return 0;
        }
        proof {
            assert(self.pixels <= STATS_FRAMES * 0x4000_0000) by (nonlinear_arith)
                requires
                    self.pixels <= self.frames * 0x4000_0000,
                    self.frames <= STATS_FRAMES,
            ;
        }
        let d: i128 = 255 * (self.chroma_n as i128);
        let sum: i128 = self.chroma_sum as i128;
        let q: i128 = round_div(sum * 1_000_000, d);
        proof {
            crate::units::lemma_rounded_near(sum * 1_000_000, d as int);
            assert(0 <= q <= 1_000_000) by (nonlinear_arith)
                requires
                    -(d as int) <= 2 * (sum * 1_000_000 - q * d) <= d,
                    0 <= sum <= d,
                    d > 0,
            ;
        }
        q as i64
    }

    /// Linear red over green and blue over green of the mid-tones, where enough of
    /// them were counted and there is any green. `light` is what the light curve
    /// makes of them.
    pub open spec fn balance_in(self, light: Light) -> Option<(i64, i64)> {
        if self.mid_n < MIN_MIDTONES || light.green <= 0 {
            None
        } else {
            Some(
                (
                    crate::units::rounded(light.red * 1_000_000, light.green as int) as i64,
                    crate::units::rounded(light.blue * 1_000_000, light.green as int) as i64,
                ),
            )
        }
    }

    /// Linear red over green and blue over green of the mid-tones.
    pub fn balance(&self, light: &Light) -> (b: Option<(i64, i64)>)
        requires
            light.ok(),
        ensures
            b == self.balance_in(*light),
            b matches Some((r, c)) ==> 0 <= r <= BALANCE_LIMIT && 0 <= c <= BALANCE_LIMIT,
    {
        if self.mid_n < MIN_MIDTONES || light.green <= 0 {
            return None;
        }
        proof {
            vstd::arithmetic::div_mod::lemma_div_pos_is_pos(
                2 * (light.red * 1_000_000) + light.green,
                2 * light.green,
            );
            vstd::arithmetic::div_mod::lemma_div_pos_is_pos(
                2 * (light.blue * 1_000_000) + light.green,
                2 * light.green,
            );
        }
        let r: i64 = crate::units::round_div64(light.red * 1_000_000, light.green);
        let c: i64 = crate::units::round_div64(light.blue * 1_000_000, light.green);
        Some((r, c))
    }
}

/// What the light curves say of a camera.
#[derive(Debug, Clone, Copy, PartialEq, Eq, Structural)]
pub struct Light {
    /// 95th minus 5th luma percentile, once exposure has brought the mean to the
    /// brightness target; in millionths.
    pub spread: i64,
    /// Exposure that brings the mean to the camera's goal, in millionths of a stop.
    pub found: i64,
    /// Exposure that brings the 90th luma percentile to [`HIGHLIGHT_CEIL`].
    pub guard: i64,
    /// Mean display luma after the camera's exposure, in millionths.
    pub after: i64,
    /// Mean linear light of the mid-tones, in billionths.
    pub red: i64,
    pub green: i64,
    pub blue: i64,
}

impl Light {
    /// The values are in range: no exposure brings a mean over two and a half, and
    /// linear light goes from nothing to one.
    pub open spec fn ok(self) -> bool {
        &&& -1_000_000_000 <= self.spread <= 1_000_000_000
        &&& 0 <= self.after <= 2_500_000
        &&& 0 <= self.red <= 1_000_000_000
        &&& 0 <= self.green <= 1_000_000_000
        &&& 0 <= self.blue <= 1_000_000_000
    }
}

// ---------------------------------------------------------------- exposure search

/// One stop of exposure in the search.
pub const STOP: i64 = 0x100_0000_0000;

/// Rounds of the search.
pub const SEARCH_ROUNDS: u32 = 40;

/// Looks for the exposure that brings the mean to a target by halving the range
/// from six stops under to six stops over.
#[derive(Debug, Clone, Copy, PartialEq, Eq, Structural)]
pub struct Search {
    pub lo: i64,
    pub hi: i64,
    pub rounds: u32,
}

impl Search {
    /// The range has been halved once per round.
    pub open spec fn wf(self) -> bool {
        &&& self.rounds <= SEARCH_ROUNDS
        &&& -6 * STOP <= self.lo <= self.hi <= 6 * STOP
        &&& self.hi - self.lo == 12 * pow2((SEARCH_ROUNDS - self.rounds) as nat)
    }

    /// The middle of the range.
    pub open spec fn middle(self) -> int {
        (self.lo + self.hi) / 2
    }

    /// The half of the range in which the target lies.
    pub open spec fn narrowed(self, below: bool) -> Search {
        Search {
            lo: if below {
                self.middle() as i64
            } else {
                self.lo
            },
            hi: if below {
                self.hi
            } else {
                self.middle() as i64
            },
            rounds: (self.rounds + 1) as u32,
        }
    }

    /// The whole range.
    pub fn new() -> (s: Search)
        ensures
            s.wf(),
            s.lo == -6 * STOP,
            s.hi == 6 * STOP,
            s.rounds == 0,
    {
        proof {
            lemma_pow2_40();
        }
        Search { lo: -6_597_069_766_656, hi: 6_597_069_766_656, rounds: 0 }
    }

    /// The exposure to be tried next, and the answer when the rounds are over.
    pub fn guess(&self) -> (m: i64)
        requires
            self.wf(),
        ensures
            m == self.middle(),
            -6 * STOP <= m <= 6 * STOP,
    {
        proof {
            lemma_even_width((SEARCH_ROUNDS - self.rounds) as nat);
        }
        self.lo + (self.hi - self.lo) / 2
    }

    /// Whether the rounds are over.
    pub fn done(&self) -> (b: bool)
        ensures
            b == (self.rounds >= SEARCH_ROUNDS),
    {
        self.rounds >= SEARCH_ROUNDS
    }

    /// Learns whether the guess was below the target.
    pub fn feed(&mut self, below: bool)
        requires
            old(self).wf(),
            old(self).rounds < SEARCH_ROUNDS,
        ensures
            *final(self) == old(self).narrowed(below),
            final(self).wf(),
    {
        proof {
            lemma_even_width((SEARCH_ROUNDS - self.rounds) as nat);
            assert(pow2((SEARCH_ROUNDS - self.rounds) as nat) == 2 * pow2(
                (SEARCH_ROUNDS - self.rounds - 1) as nat,
            ));
        }
        let m: i64 = self.guess();
        if below {
            self.lo = m;
        } else {
            self.hi = m;
        }
        self.rounds = self.rounds + 1;
    }
}

/// Two to the power `k`.
pub open spec fn pow2(k: nat) -> int
    decreases k,
{
    if k == 0 {
        1
    } else {
        2 * pow2((k - 1) as nat)
    }
}

proof fn lemma_pow2_40()
    ensures
        pow2(40) == STOP,
{
    reveal_with_fuel(pow2, 41);
}

proof fn lemma_even_width(k: nat)
    ensures
        (12 * pow2(k)) % 2 == 0,
        pow2(k) >= 1,
    decreases k,
{
    if k > 0 {
        lemma_even_width((k - 1) as nat);
    }
}

/// Where the guesses below some exposure are those below the target, the range
/// keeps that exposure, however often it is halved.
pub proof fn lemma_search_keeps_target(s: Search, below: bool, target: int)
    requires
        s.wf(),
        s.rounds < SEARCH_ROUNDS,
        s.lo <= target <= s.hi,
        below == (s.middle() < target),
    ensures
        s.narrowed(below).lo <= target <= s.narrowed(below).hi,
{
}

// ---------------------------------------------------------------- targets

/// Sum of a list.
pub open spec fn list_sum(v: Seq<i64>) -> int
    decreases v.len(),
{
    if v.len() == 0 {
        0
    } else {
        list_sum(v.drop_last()) + v.last()
    }
}

/// The average, zero of an empty list.
pub open spec fn average(v: Seq<i64>) -> int {
    if v.len() == 0 {
        0
    } else {
        crate::units::rounded(list_sum(v), v.len() as int)
    }
}

/// The values are measurements: from nothing to a thousand wholes.
pub open spec fn measured(v: Seq<i64>) -> bool {
    &&& v.len() <= 0x10_0000
    &&& forall|i: int| 0 <= i < v.len() ==> -1_000_000_000 <= (#[trigger] v[i]) <= 1_000_000_000
}

proof fn lemma_list_sum_bound(v: Seq<i64>)
    requires
        measured(v),
    ensures
        -1_000_000_000 * v.len() <= list_sum(v) <= 1_000_000_000 * v.len(),
    decreases v.len(),
{
    if v.len() > 0 {
        assert(measured(v.drop_last())) by {
            assert forall|i: int| 0 <= i < v.len() - 1 implies -1_000_000_000 <= (
            #[trigger] v.drop_last()[i]) <= 1_000_000_000 by {
                assert(v[i] == v.drop_last()[i]);
            }
        }
        lemma_list_sum_bound(v.drop_last());
        assert(-1_000_000_000 <= v[v.len() - 1] <= 1_000_000_000);
    }
}

/// The average, zero of an empty list.
fn average_of(v: &Vec<i64>) -> (m: i64)
    requires
        measured(v@),
    ensures
        m == average(v@),
{
    if v.len() == 0 {
        return 0;
    }
    let mut sum: i128 = 0;
    let mut i: usize = 0;
    while i < v.len()
        invariant
            measured(v@),
            i <= v@.len(),
            sum == list_sum(v@.take(i as int)),
            -1_000_000_000 * i <= sum <= 1_000_000_000 * i,
        decreases v@.len() - i,
    {
        assert(v@.take(i + 1).drop_last() =~= v@.take(i as int));
        assert(-1_000_000_000 <= v@[i as int] <= 1_000_000_000);
        sum = sum + v[i] as i128;
        i = i + 1;
    }
    assert(v@.take(i as int) =~= v@);
    let q: i128 = round_div(sum, v.len() as i128);
    q as i64
}

/// Brightness target: what the cameras average, kept in a sensible window.
pub fn target_mean(means: &Vec<i64>) -> (t: i64)
    requires
        measured(means@),
    ensures
        t == crate::units::clamped(average(means@), MEAN_MIN as int, MEAN_MAX as int),
        MEAN_MIN <= t <= MEAN_MAX,
{
    clamp(average_of(means), MEAN_MIN, MEAN_MAX)
}

/// `target` over `value`, but over `least` where the value is smaller.
pub open spec fn ratio(target: int, value: int, least: int) -> int {
    crate::units::rounded(
        target * 1_000_000,
        if value < least {
            least
        } else {
            value
        },
    )
}

/// `target` over `value` in millionths, clamped.
fn clamped_ratio(target: i64, value: i64, least: i64, lo: i64, hi: i64) -> (r: i64)
    requires
        0 <= target <= 1_000_000,
        0 < least,
        lo <= hi,
    ensures
        r == crate::units::clamped(ratio(target as int, value as int, least as int), lo as int, hi as int),
        lo <= r <= hi,
{
    let d: i64 = if value < least {
        least
    } else {
        value
    };
    let q: i64 = crate::units::round_div64(target * 1_000_000, d);
    clamp(q, lo, hi)
}

/// The target of a list of measurements.
pub open spec fn target_of(v: Seq<i64>, lo: int, hi: int) -> int {
    crate::units::clamped(average(v), lo, hi)
}

/// The contrast of a camera with luma spread `own` among `spreads`.
pub open spec fn contrast_among(spreads: Seq<i64>, own: int) -> int {
    crate::units::clamped(
        ratio(target_of(spreads, SPREAD_MIN as int, SPREAD_MAX as int), own, 50_000),
        CONTRAST_MIN as int,
        CONTRAST_MAX as int,
    )
}

/// Contrasts that bring the cameras' luma spreads together.
pub fn contrasts(spreads: &Vec<i64>) -> (out: Vec<i64>)
    requires
        measured(spreads@),
    ensures
        out@.len() == spreads@.len(),
        forall|i: int|
            0 <= i < out@.len() ==> #[trigger] out@[i] == contrast_among(spreads@, spreads@[i] as int),
        forall|i: int| 0 <= i < out@.len() ==> CONTRAST_MIN <= #[trigger] out@[i] <= CONTRAST_MAX,
{
    let target: i64 = clamp(average_of(spreads), SPREAD_MIN, SPREAD_MAX);
    let mut out: Vec<i64> = Vec::new();
    let mut i: usize = 0;
    while i < spreads.len()
        invariant
            i <= spreads@.len(),
            out@.len() == i,
            target == target_of(spreads@, SPREAD_MIN as int, SPREAD_MAX as int),
            0 <= target <= 1_000_000,
            forall|k: int|
                0 <= k < i ==> #[trigger] out@[k] == contrast_among(spreads@, spreads@[k] as int),
        decreases spreads@.len() - i,
    {
        out.push(clamped_ratio(target, spreads[i], 50_000, CONTRAST_MIN, CONTRAST_MAX));
        i = i + 1;
    }
    out
}

/// The mean before contrast that contrast brings to the target: contrast pivots
/// about one half.
pub open spec fn mean_before_contrast(target: int, contrast: int) -> int {
    crate::units::rounded((target - 500_000) * 1_000_000, contrast) + 500_000
}

/// The mean that exposure has to reach so that contrast brings it to the target.
pub fn exposure_goal(target: i64, contrast: i64) -> (m: i64)
    requires
        MEAN_MIN <= target <= MEAN_MAX,
        CONTRAST_MIN <= contrast <= CONTRAST_MAX,
    ensures
        m == mean_before_contrast(target as int, contrast as int),
{
    let q: i64 = crate::units::round_div64((target - 500_000) * 1_000_000, contrast);
    q + 500_000
}

/// Exposure in millionths of a stop: what the search found, but not so much that
/// highlights clip, and within range.
pub open spec fn guarded_exposure(found: int, guard: int) -> int {
    let g = if guard < 0 {
        0
    } else {
        guard
    };
    crate::units::clamped(
        if found < g {
            found
        } else {
            g
        },
        EXPOSURE_MIN as int,
        EXPOSURE_MAX as int,
    )
}

/// Exposure in millionths of a stop.
pub fn exposure(found: i64, guard: i64) -> (e: i64)
    ensures
        e == guarded_exposure(found as int, guard as int),
        EXPOSURE_MIN <= e <= EXPOSURE_MAX,
{
    let g: i64 = if guard < 0 {
        0
    } else {
        guard
    };
    let e: i64 = if found < g {
        found
    } else {
        g
    };
    clamp(e, EXPOSURE_MIN, EXPOSURE_MAX)
}

/// Colourfulness after exposure and contrast. A mean darker than one step of the
/// pixel values counts as one step.
pub open spec fn chroma_after(chroma: int, before: int, after: int, contrast: int) -> int {
    let m0 = if before < 3922 {
        3922
    } else {
        before
    };
    crate::units::rounded(chroma * after * contrast, m0 * 1_000_000)
}

/// Colourfulness after exposure and contrast.
pub fn graded_chroma(chroma: i64, before: i64, after: i64, contrast: i64) -> (c: i64)
    requires
        0 <= chroma <= 1_000_000,
        0 <= before <= 1_000_000,
        0 <= after <= 2_500_000,
        CONTRAST_MIN <= contrast <= CONTRAST_MAX,
    ensures
        c == chroma_after(chroma as int, before as int, after as int, contrast as int),
        0 <= c <= 1_000_000_000,
{
    let m0: i128 = if before < 3922 {
        3922
    } else {
        before as i128
    };
    proof {
        assert(0 <= chroma * after <= 1_000_000 * 2_500_000) by (nonlinear_arith)
            requires
                0 <= chroma <= 1_000_000,
                0 <= after <= 2_500_000,
        ;
        assert(0 <= chroma * after * contrast <= 1_000_000 * 2_500_000 * 1_300_000) by (nonlinear_arith)
            requires
                0 <= chroma * after <= 1_000_000 * 2_500_000,
                0 <= contrast <= 1_300_000,
        ;
    }
    let top: i128 = (chroma as i128) * (after as i128) * (contrast as i128);
    let d: i128 = m0 * 1_000_000;
    let q: i128 = round_div(top, d);
    proof {
        crate::units::lemma_rounded_near(top as int, d as int);
        assert(0 <= q <= 1_000_000_000) by (nonlinear_arith)
            requires
                -(d as int) <= 2 * (top - q * d) <= d,
                0 <= top <= 1_000_000 * 2_500_000 * 1_300_000,
                d >= 3_922_000_000,
        ;
    }
    q as i64
}

/// The saturation of a camera with colourfulness `own` among `chromas`.
pub open spec fn saturation_among(chromas: Seq<i64>, own: int) -> int {
    crate::units::clamped(
        ratio(target_of(chromas, CHROMA_MIN as int, CHROMA_MAX as int), own, 10_000),
        SATURATION_MIN as int,
        SATURATION_MAX as int,
    )
}

/// Saturations that bring the cameras' colourfulness together.
pub fn saturations(chromas: &Vec<i64>) -> (out: Vec<i64>)
    requires
        measured(chromas@),
    ensures
        out@.len() == chromas@.len(),
        forall|i: int|
            0 <= i < out@.len() ==> #[trigger] out@[i] == saturation_among(chromas@, chromas@[i] as int),
        forall|i: int| 0 <= i < out@.len() ==> SATURATION_MIN <= #[trigger] out@[i] <= SATURATION_MAX,
{
    let target: i64 = clamp(average_of(chromas), CHROMA_MIN, CHROMA_MAX);
    let mut out: Vec<i64> = Vec::new();
    let mut i: usize = 0;
    while i < chromas.len()
        invariant
            i <= chromas@.len(),
            out@.len() == i,
            target == target_of(chromas@, CHROMA_MIN as int, CHROMA_MAX as int),
            0 <= target <= 1_000_000,
            forall|k: int|
                0 <= k < i ==> #[trigger] out@[k] == saturation_among(chromas@, chromas@[k] as int),
        decreases chromas@.len() - i,
    {
        out.push(clamped_ratio(target, chromas[i], 10_000, SATURATION_MIN, SATURATION_MAX));
        i = i + 1;
    }
    out
}

// ---------------------------------------------------------------- colour balance

/// The middle of the sorted values: the middle one, or the mean of the middle two.
pub open spec fn middle_value(v: Seq<i64>) -> int {
    let order = crate::order::order_of(crate::order::ascending_keys(v));
    let n = v.len() as int;
    if n % 2 == 1 {
        v[order[n / 2] as int] as int
    } else {
        crate::units::rounded(v[order[n / 2 - 1] as int] + v[order[n / 2] as int], 2)
    }
}

/// All values are ratios of two channels.
pub open spec fn ratios(v: Seq<i64>) -> bool {
    forall|i: int| 0 <= i < v.len() ==> 0 <= #[trigger] v[i] <= BALANCE_LIMIT
}

/// The middle of the sorted values.
pub fn median(v: &Vec<i64>) -> (m: i64)
    requires
        v@.len() > 0,
        ratios(v@),
    ensures
        m == middle_value(v@),
        0 <= m <= BALANCE_LIMIT,
{
    let order: Vec<usize> = ascending_order(v);
    let n: usize = v.len();
    assert(order@[n as int / 2] < v@.len());
    if n % 2 == 1 {
        let m: i64 = v[order[n / 2]];
        assert(0 <= m <= BALANCE_LIMIT);
        m
    } else {
        assert(order@[n as int / 2 - 1] < v@.len());
        let a: i64 = v[order[n / 2 - 1]];
        let b: i64 = v[order[n / 2]];
        assert(0 <= a <= BALANCE_LIMIT);
        assert(0 <= b <= BALANCE_LIMIT);
        proof {
            crate::units::lemma_rounded_near(a + b, 2);
        }
        crate::units::round_div64(a + b, 2)
    }
}

/// The known ones of the first `n` balances.
pub open spec fn known(balances: Seq<Option<(i64, i64)>>, n: int) -> Seq<(i64, i64)>
    decreases n,
{
    if n <= 0 {
        Seq::empty()
    } else {
        match balances[n - 1] {
            Some(b) => known(balances, n - 1).push(b),
            None => known(balances, n - 1),
        }
    }
}

/// Red over green of each balance.
pub open spec fn reds(v: Seq<(i64, i64)>) -> Seq<i64> {
    Seq::new(v.len(), |i: int| v[i].0)
}

/// Blue over green of each balance.
pub open spec fn blues(v: Seq<(i64, i64)>) -> Seq<i64> {
    Seq::new(v.len(), |i: int| v[i].1)
}

/// The balance to which all cameras move: the median of the cameras. With a
/// single camera there is nothing to match, and neutral is not a safe guess under
/// stage lighting.
pub open spec fn middle_balance(balances: Seq<Option<(i64, i64)>>) -> Option<(i64, i64)> {
    let all = known(balances, balances.len() as int);
    if all.len() >= 2 {
        Some((middle_value(reds(all)) as i64, middle_value(blues(all)) as i64))
    } else {
        None
    }
}

/// The balance to which all cameras move.
pub fn target_balance(balances: &Vec<Option<(i64, i64)>>) -> (t: Option<(i64, i64)>)
    requires
        forall|i: int|
            0 <= i < balances@.len() ==> ((#[trigger] balances@[i]) matches Some(b) ==> 0 <= b.0
                <= BALANCE_LIMIT && 0 <= b.1 <= BALANCE_LIMIT),
    ensures
        t == middle_balance(balances@),
        t matches Some(b) ==> 0 <= b.0 <= BALANCE_LIMIT && 0 <= b.1 <= BALANCE_LIMIT,
{
    let mut rg: Vec<i64> = Vec::new();
    let mut bg: Vec<i64> = Vec::new();
    let mut i: usize = 0;
    while i < balances.len()
        invariant
            i <= balances@.len(),
            forall|k: int|
                0 <= k < balances@.len() ==> ((#[trigger] balances@[k]) matches Some(b) ==> 0 <= b.0
                    <= BALANCE_LIMIT && 0 <= b.1 <= BALANCE_LIMIT),
            rg@ == reds(known(balances@, i as int)),
            bg@ == blues(known(balances@, i as int)),
            rg@.len() <= i,
            ratios(rg@),
            ratios(bg@),
        decreases balances@.len() - i,
    {
        if let Some(b) = balances[i] {
            assert(balances@[i as int] is Some);
            rg.push(b.0);
            bg.push(b.1);
            assert(rg@ =~= reds(known(balances@, i + 1)));
            assert(bg@ =~= blues(known(balances@, i + 1)));
        }
        i = i + 1;
    }
    if rg.len() >= 2 {
        Some((median(&rg), median(&bg)))
    } else {
        None
    }
}

/// `g` is the whole number nearest to the square root of `n`.
pub open spec fn is_root(g: int, n: int) -> bool {
    &&& g >= 0
    &&& 4 * n < (2 * g + 1) * (2 * g + 1)
    &&& g > 0 ==> (2 * g - 1) * (2 * g - 1) <= 4 * n
}

/// The whole number nearest to the square root of `n`.
pub open spec fn nearest_root(n: int) -> int {
    choose|g: int| is_root(g, n)
}

/// There is only one nearest root.
pub proof fn lemma_root_unique(a: int, b: int, n: int)
    requires
        is_root(a, n),
        is_root(b, n),
    ensures
        a == b,
{
    if a < b {
        assert((2 * a + 1) * (2 * a + 1) <= (2 * b - 1) * (2 * b - 1)) by (nonlinear_arith)
            requires
                0 <= a < b,
        ;
    }
    if b < a {
        assert((2 * b + 1) * (2 * b + 1) <= (2 * a - 1) * (2 * a - 1)) by (nonlinear_arith)
            requires
                0 <= b < a,
        ;
    }
}

/// The whole number nearest to the square root of `n`.
fn root(n: i128) -> (g: i128)
    requires
        0 <= n <= 1_000_000_000_000_000_000_000_000,
    ensures
        g == nearest_root(n as int),
        is_root(g as int, n as int),
        0 <= g <= GAIN_LIMIT,
{
    let mut lo: i128 = 0;
    let mut hi: i128 = 1_000_000_000_001;
    while hi - lo > 1
        invariant
            0 <= lo < hi <= 1_000_000_000_001,
            lo * lo <= n < hi * hi,
        decreases hi - lo,
    {
        let mid: i128 = lo + (hi - lo) / 2;
        assert(0 <= mid * mid <= 1_000_000_000_001 * 1_000_000_000_001) by (nonlinear_arith)
            requires
                0 <= mid <= 1_000_000_000_001,
        ;
        if mid * mid <= n {
            lo = mid;
        } else {
            hi = mid;
        }
    }
    assert(hi == lo + 1);
    assert(lo * lo <= n < lo * lo + 2 * lo + 1) by (nonlinear_arith)
        requires
            lo * lo <= n < hi * hi,
            hi == lo + 1,
    ;
    assert((2 * lo - 1) * (2 * lo - 1) == 4 * (lo * lo) - 4 * lo + 1) by (nonlinear_arith);
    assert((2 * lo + 1) * (2 * lo + 1) == 4 * (lo * lo) + 4 * lo + 1) by (nonlinear_arith);
    assert((2 * lo + 3) * (2 * lo + 3) == 4 * (lo * lo) + 12 * lo + 9) by (nonlinear_arith);
    let g: i128 = if n - lo * lo > lo {
        lo + 1
    } else {
        lo
    };
    proof {
        assert(2 * (lo + 1) - 1 == 2 * lo + 1);
        assert(2 * (lo + 1) + 1 == 2 * lo + 3);
        assert(is_root(g as int, n as int));
        lemma_root_unique(g as int, nearest_root(n as int), n as int);
        assert(g <= GAIN_LIMIT) by (nonlinear_arith)
            requires
                g > 0 ==> (2 * g - 1) * (2 * g - 1) <= 4 * n,
                n <= 1_000_000_000_000_000_000_000_000,
                GAIN_LIMIT == 1_000_000_000_000,
        ;
    }
    g
}

/// The gain that takes a channel ratio halfway to `goal`, on a scale where equal
/// steps are equal factors; in millionths.
pub open spec fn halfway(goal: int, own: int) -> int {
    nearest_root(
        (goal * 1_000_000_000_000) / if own < 1000 {
            1000
        } else {
            own
        },
    )
}

/// The gain that takes a channel ratio halfway to `goal`.
fn halfway_gain(goal: i64, own: i64) -> (g: i64)
    requires
        0 <= goal <= BALANCE_LIMIT,
        0 <= own <= BALANCE_LIMIT,
    ensures
        g == halfway(goal as int, own as int),
        0 <= g <= GAIN_LIMIT,
{
    let d: i128 = if own < 1000 {
        1000
    } else {
        own as i128
    };
    let top: i128 = (goal as i128) * 1_000_000_000_000;
    let n: i128 = top / d;
    proof {
        vstd::arithmetic::div_mod::lemma_fundamental_div_mod(top as int, d as int);
        vstd::arithmetic::div_mod::lemma_mod_bound(top as int, d as int);
        assert(0 <= n <= 1_000_000_000_000_000_000_000_000) by (nonlinear_arith)
            requires
                top == d * n + top as int % d as int,
                0 <= top as int % (d as int) < d,
                0 <= top <= 1_000_000_000_000_000_000_000_000_000,
                d >= 1000,
        ;
    }
    root(n) as i64
}

/// Gains of red and blue relative to green that bring a camera halfway to the goal,
/// where both are known.
pub open spec fn gains_to(goal: Option<(i64, i64)>, own: Option<(i64, i64)>) -> Option<(i64, i64)> {
    match (goal, own) {
        (Some((r, b)), Some((rg, bg))) => Some(
            (halfway(r as int, rg as int) as i64, halfway(b as int, bg as int) as i64),
        ),
        _ => None,
    }
}

/// Gains of red and blue relative to green that bring a camera halfway to the goal.
pub fn gains(goal: Option<(i64, i64)>, own: Option<(i64, i64)>) -> (g: Option<(i64, i64)>)
    requires
        goal matches Some(b) ==> 0 <= b.0 <= BALANCE_LIMIT && 0 <= b.1 <= BALANCE_LIMIT,
        own matches Some(b) ==> 0 <= b.0 <= BALANCE_LIMIT && 0 <= b.1 <= BALANCE_LIMIT,
    ensures
        g == gains_to(goal, own),
        g matches Some((a, c)) ==> 0 <= a <= GAIN_LIMIT && 0 <= c <= GAIN_LIMIT,
{
    match (goal, own) {
        (Some((r, b)), Some((rg, bg))) => Some((halfway_gain(r, rg), halfway_gain(b, bg))),
        _ => None,
    }
}

/// Temperature and tint whose channel gains scale red by `a` and blue by `c`
/// relative to green. The gains are one plus a quarter of the temperature for
/// red, one minus a quarter of it for blue, and one minus a quarter of the tint
/// for green.
pub open spec fn balance_grade(a: int, c: int) -> (int, int) {
    let sum = if a + c < 1000 {
        1000
    } else {
        a + c
    };
    (
        crate::units::rounded(4 * (a - c) * 1_000_000, sum),
        crate::units::rounded(4 * (sum - 2_000_000) * 1_000_000, sum),
    )
}

/// Temperature and tint whose channel gains scale red by `a` and blue by `c`
/// relative to green.
pub fn balance_to_grade(a: i64, c: i64) -> (t: (i64, i64))
    requires
        0 <= a <= GAIN_LIMIT,
        0 <= c <= GAIN_LIMIT,
    ensures
        (t.0 as int, t.1 as int) == balance_grade(a as int, c as int),
{
    let sum: i64 = if a + c < 1000 {
        1000
    } else {
        a + c
    };
    (
        crate::units::round_div64(4 * (a - c) * 1_000_000, sum),
        crate::units::round_div64(4 * (sum - 2_000_000) * 1_000_000, sum),
    )
}

/// The gains of the temperature and tint for `a` and `c` give `a` and `c` back, but
/// for the rounding.
pub proof fn lemma_balance_round_trip(a: int, c: int)
    requires
        a >= 0,
        c >= 0,
        a + c >= 1000,
    ensures
        ({
            let (t, tint) = balance_grade(a, c);
            let red = 4_000_000 + t;
            let green = 4_000_000 - tint;
            let blue = 4_000_000 - t;
            &&& 2 * crate::units::size(red * 1_000_000 - a * green) <= 1_000_000 + a
            &&& 2 * crate::units::size(blue * 1_000_000 - c * green) <= 1_000_000 + c
        }),
{
    let sum = a + c;
    let (t, tint) = balance_grade(a, c);
    let p = 4 * (a - c) * 1_000_000;
    let q = 4 * (sum - 2_000_000) * 1_000_000;
    crate::units::lemma_rounded_near(p, sum);
    crate::units::lemma_rounded_near(q, sum);
    let dp = t * sum - p;
    let dq = tint * sum - q;
    let red = 4_000_000 + t;
    let green = 4_000_000 - tint;
    let blue = 4_000_000 - t;
    // red * sum == 8_000_000 * a + dp, blue * sum == 8_000_000 * c - dp and
    // green * sum == 8_000_000_000_000 - dq.
    assert(red * sum == 8_000_000 * a + dp) by (nonlinear_arith)
        requires
            red == 4_000_000 + t,
            dp == t * sum - 4 * (a - c) * 1_000_000,
            sum == a + c,
    ;
    assert(blue * sum == 8_000_000 * c - dp) by (nonlinear_arith)
        requires
            blue == 4_000_000 - t,
            dp == t * sum - 4 * (a - c) * 1_000_000,
            sum == a + c,
    ;
    assert(green * sum == 8_000_000_000_000 - dq) by (nonlinear_arith)
        requires
            green == 4_000_000 - tint,
            dq == tint * sum - 4 * (sum - 2_000_000) * 1_000_000,
    ;
    let x = red * 1_000_000 - a * green;
    let z = blue * 1_000_000 - c * green;
    assert(a * (green * sum) == a * green * sum) by (nonlinear_arith);
    assert(c * (green * sum) == c * green * sum) by (nonlinear_arith);
    assert(a * (8_000_000_000_000 - dq) == 8_000_000_000_000 * a - a * dq) by (nonlinear_arith);
    assert(c * (8_000_000_000_000 - dq) == 8_000_000_000_000 * c - c * dq) by (nonlinear_arith);
    assert(x * sum == (red * sum) * 1_000_000 - a * green * sum) by (nonlinear_arith)
        requires
            x == red * 1_000_000 - a * green,
    ;
    assert(z * sum == (blue * sum) * 1_000_000 - c * green * sum) by (nonlinear_arith)
        requires
            z == blue * 1_000_000 - c * green,
    ;
    assert(x * sum == 1_000_000 * dp + a * dq);
    assert(z * sum == -1_000_000 * dp + c * dq);
    assert(-(a * sum) <= 2 * (a * dq) <= a * sum) by (nonlinear_arith)
        requires
            -sum <= 2 * dq <= sum,
            a >= 0,
    ;
    assert(-(c * sum) <= 2 * (c * dq) <= c * sum) by (nonlinear_arith)
        requires
            -sum <= 2 * dq <= sum,
            c >= 0,
    ;
    assert((1_000_000 + a) * sum == 1_000_000 * sum + a * sum) by (nonlinear_arith);
    assert((1_000_000 + c) * sum == 1_000_000 * sum + c * sum) by (nonlinear_arith);
    lemma_cancel(x, sum, 1_000_000 + a);
    lemma_cancel(z, sum, 1_000_000 + c);
}

proof fn lemma_cancel(x: int, sum: int, bound: int)
    requires
        sum > 0,
        -(bound * sum) <= 2 * (x * sum) <= bound * sum,
    ensures
        2 * crate::units::size(x) <= bound,
{
    assert(2 * x <= bound && -2 * x <= bound) by (nonlinear_arith)
        requires
            sum > 0,
            -(bound * sum) <= 2 * (x * sum) <= bound * sum,
    ;
}

// ---------------------------------------------------------------- grades

/// What was worked out for a camera with pixels.
#[derive(Debug, Clone, Copy)]
pub struct Solution {
    pub exposure: i64,
    pub contrast: i64,
    pub saturation: i64,
    /// Gains of red and blue relative to green that bring the camera halfway to the
    /// target balance, where both are known.
    pub gains: Option<(i64, i64)>,
}

/// To the nearest hundredth.
pub open spec fn hundredths(v: int) -> int {
    10_000 * crate::units::rounded(v, 10_000)
}

/// To the nearest hundredth.
pub fn round2(v: i64) -> (r: i64)
    requires
        -1_000_000_000_000 <= v <= 1_000_000_000_000,
    ensures
        r == hundredths(v as int),
{
    10_000 * crate::units::round_div64(v, 10_000)
}

/// The grade that a solution stands for.
pub open spec fn grade_of(s: Solution) -> Grade {
    let (t, tint) = match s.gains {
        Some((a, c)) => {
            let g = balance_grade(a as int, c as int);
            (
                hundredths(crate::units::clamped(g.0, -1_000_000, 1_000_000)),
                hundredths(crate::units::clamped(g.1, -1_000_000, 1_000_000)),
            )
        },
        None => (0, 0),
    };
    Grade {
        exposure: hundredths(s.exposure as int) as i64,
        contrast: hundredths(s.contrast as int) as i64,
        saturation: hundredths(s.saturation as int) as i64,
        temperature: t as i64,
        tint: tint as i64,
        ..Grade::neutral()
    }
}

/// The solution is in range.
pub open spec fn solution_ok(s: Solution) -> bool {
    &&& EXPOSURE_MIN <= s.exposure <= EXPOSURE_MAX
    &&& CONTRAST_MIN <= s.contrast <= CONTRAST_MAX
    &&& SATURATION_MIN <= s.saturation <= SATURATION_MAX
    &&& s.gains matches Some((a, c)) ==> 0 <= a <= GAIN_LIMIT && 0 <= c <= GAIN_LIMIT
}

/// The grade that a solution stands for.
fn to_grade(s: Solution) -> (g: Grade)
    requires
        solution_ok(s),
    ensures
        g == grade_of(s),
{
    let mut g: Grade = Grade::default();
    g.exposure = round2(s.exposure);
    g.contrast = round2(s.contrast);
    g.saturation = round2(s.saturation);
    if let Some((a, c)) = s.gains {
        let (t, tint): (i64, i64) = balance_to_grade(a, c);
        g.temperature = round2(clamp(t, -1_000_000, 1_000_000));
        g.tint = round2(clamp(tint, -1_000_000, 1_000_000));
    }
    g
}

/// The cameras with pixels among the first `n`.
pub open spec fn live(stats: Seq<CameraStats>, n: int) -> Seq<usize>
    decreases n,
{
    if n <= 0 {
        Seq::empty()
    } else if stats[n - 1].pixels > 0 {
        live(stats, n - 1).push((n - 1) as usize)
    } else {
        live(stats, n - 1)
    }
}

/// The mean luma of every camera with pixels.
pub open spec fn means_of(stats: Seq<CameraStats>) -> Seq<i64> {
    let on = live(stats, stats.len() as int);
    Seq::new(on.len(), |k: int| stats[on[k] as int].luma_mean() as i64)
}

/// Brightness target: what the cameras average, kept in a sensible window.
pub open spec fn brightness(stats: Seq<CameraStats>) -> int {
    target_of(means_of(stats), MEAN_MIN as int, MEAN_MAX as int)
}

/// The luma spread of every camera with pixels.
pub open spec fn spreads_of(stats: Seq<CameraStats>, light: Seq<Light>) -> Seq<i64> {
    let on = live(stats, stats.len() as int);
    Seq::new(on.len(), |k: int| light[on[k] as int].spread)
}

/// Contrast of camera `i`.
pub open spec fn contrast_of(stats: Seq<CameraStats>, light: Seq<Light>, i: int) -> int {
    contrast_among(spreads_of(stats, light), light[i].spread as int)
}

/// Colourfulness of camera `i` after its exposure and contrast.
pub open spec fn chroma_in(stats: Seq<CameraStats>, light: Seq<Light>, i: int) -> int {
    chroma_after(
        stats[i].chroma_mean(),
        stats[i].luma_mean(),
        light[i].after as int,
        contrast_of(stats, light, i),
    )
}

/// The colourfulness of every camera with pixels.
pub open spec fn chromas_of(stats: Seq<CameraStats>, light: Seq<Light>) -> Seq<i64> {
    let on = live(stats, stats.len() as int);
    Seq::new(on.len(), |k: int| chroma_in(stats, light, on[k] as int) as i64)
}

/// The colour balance of every camera with pixels.
pub open spec fn balances_of(stats: Seq<CameraStats>, light: Seq<Light>) -> Seq<Option<(i64, i64)>> {
    let on = live(stats, stats.len() as int);
    Seq::new(on.len(), |k: int| stats[on[k] as int].balance_in(light[on[k] as int]))
}

/// What is worked out for camera `i`: contrast from the luma spreads, exposure as
/// the light curve has it, saturation from the colourfulness, and a colour balance
/// halfway to the median of the cameras. Cameras often look at differently lit parts
/// of the stage, so a full match would wash the real colour out of one of them.
pub open spec fn solution_of(stats: Seq<CameraStats>, light: Seq<Light>, i: int) -> Solution {
    Solution {
        exposure: guarded_exposure(light[i].found as int, light[i].guard as int) as i64,
        contrast: contrast_of(stats, light, i) as i64,
        saturation: saturation_among(chromas_of(stats, light), chroma_in(stats, light, i)) as i64,
        gains: gains_to(middle_balance(balances_of(stats, light)), stats[i].balance_in(light[i])),
    }
}

/// What was measured can be worked with.
pub open spec fn solvable(stats: Seq<CameraStats>, light: Seq<Light>) -> bool {
    &&& light.len() == stats.len() <= 0x10_0000
    &&& forall|i: int| 0 <= i < stats.len() ==> (#[trigger] stats[i]).wf()
    &&& forall|i: int| 0 <= i < light.len() ==> (#[trigger] light[i]).ok()
}

pub(crate) proof fn lemma_live(stats: Seq<CameraStats>, i: int, n: int)
    requires
        0 <= i < n <= stats.len() <= usize::MAX,
        stats[i].pixels > 0,
    ensures
        live(stats, i).len() < live(stats, n).len(),
        live(stats, n)[live(stats, i).len() as int] == i,
    decreases n,
{
    if i < n - 1 {
        lemma_live(stats, i, n - 1);
    }
}

/// The cameras with pixels.
fn live_cameras(stats: &Vec<CameraStats>) -> (on: Vec<usize>)
    ensures
        on@ == live(stats@, stats@.len() as int),
        on@.len() <= stats@.len(),
        forall|k: int|
            0 <= k < on@.len() ==> (#[trigger] on@[k]) < stats@.len() && stats@[on@[k] as int].pixels > 0,
{
    let mut on: Vec<usize> = Vec::new();
    let mut i: usize = 0;
    while i < stats.len()
        invariant
            i <= stats@.len(),
            on@ == live(stats@, i as int),
            on@.len() <= i,
            forall|k: int|
                0 <= k < on@.len() ==> (#[trigger] on@[k]) < stats@.len() && stats@[on@[k] as int].pixels > 0,
        decreases stats@.len() - i,
    {
        if !stats[i].is_empty() {
            on.push(i);
        }
        i = i + 1;
    }
    on
}

/// Brightness target of the cameras: their exposures are to bring their means
/// there.
pub fn brightness_target(stats: &Vec<CameraStats>) -> (t: i64)
    requires
        stats@.len() <= 0x10_0000,
        forall|i: int| 0 <= i < stats@.len() ==> (#[trigger] stats@[i]).wf(),
    ensures
        t == brightness(stats@),
        MEAN_MIN <= t <= MEAN_MAX,
{
    let on: Vec<usize> = live_cameras(stats);
    let mut means: Vec<i64> = Vec::new();
    let mut k: usize = 0;
    while k < on.len()
        invariant
            k <= on@.len() <= stats@.len() <= 0x10_0000,
            on@ == live(stats@, stats@.len() as int),
            forall|j: int| 0 <= j < on@.len() ==> (#[trigger] on@[j]) < stats@.len(),
            forall|i: int| 0 <= i < stats@.len() ==> (#[trigger] stats@[i]).wf(),
            means@.len() == k,
            forall|j: int| 0 <= j < k ==> #[trigger] means@[j] == stats@[on@[j] as int].luma_mean(),
            measured(means@),
        decreases on@.len() - k,
    {
        means.push(stats[on[k]].mean_luma());
        k = k + 1;
    }
    assert(means@ =~= means_of(stats@));
    target_mean(&means)
}

/// The luma spreads of the listed cameras.
fn listed_spreads(stats: &Vec<CameraStats>, light: &Vec<Light>, on: &Vec<usize>) -> (out: Vec<i64>)
    requires
        solvable(stats@, light@),
        on@ == live(stats@, stats@.len() as int),
        on@.len() <= stats@.len(),
        forall|k: int| 0 <= k < on@.len() ==> (#[trigger] on@[k]) < stats@.len(),
    ensures
        out@ == spreads_of(stats@, light@),
        measured(out@),
{
    let mut out: Vec<i64> = Vec::new();
    let mut k: usize = 0;
    while k < on.len()
        invariant
            k <= on@.len() <= stats@.len(),
            solvable(stats@, light@),
            forall|j: int| 0 <= j < on@.len() ==> (#[trigger] on@[j]) < stats@.len(),
            out@.len() == k,
            forall|j: int| 0 <= j < k ==> #[trigger] out@[j] == light@[on@[j] as int].spread,
            measured(out@),
        decreases on@.len() - k,
    {
        assert(light@[on@[k as int] as int].ok());
        out.push(light[on[k]].spread);
        k = k + 1;
    }
    assert(out@ =~= spreads_of(stats@, light@));
    out
}

/// For every camera with pixels the mean that its exposure has to reach so that its
/// contrast brings it to the brightness target. Of the light only the spreads count.
pub fn exposure_goals(stats: &Vec<CameraStats>, light: &Vec<Light>) -> (out: Vec<Option<i64>>)
    requires
        solvable(stats@, light@),
    ensures
        out@.len() == stats@.len(),
        forall|i: int|
            0 <= i < out@.len() ==> match #[trigger] out@[i] {
                Some(g) => stats@[i].pixels > 0 && g == mean_before_contrast(
                    brightness(stats@),
                    contrast_of(stats@, light@, i),
                ),
                None => stats@[i].pixels == 0,
            },
{
    let on: Vec<usize> = live_cameras(stats);
    let target: i64 = brightness_target(stats);
    let spreads: Vec<i64> = listed_spreads(stats, light, &on);
    let contrast: Vec<i64> = contrasts(&spreads);
    let mut out: Vec<Option<i64>> = Vec::new();
    let mut k: usize = 0;
    let mut i: usize = 0;
    while i < stats.len()
        invariant
            i <= stats@.len(),
            solvable(stats@, light@),
            on@ == live(stats@, stats@.len() as int),
            on@.len() <= stats@.len(),
            k == live(stats@, i as int).len(),
            target == brightness(stats@),
            MEAN_MIN <= target <= MEAN_MAX,
            spreads@ == spreads_of(stats@, light@),
            contrast@.len() == on@.len(),
            forall|j: int|
                0 <= j < contrast@.len() ==> #[trigger] contrast@[j] == contrast_among(
                    spreads@,
                    spreads@[j] as int,
                ),
            forall|j: int| 0 <= j < contrast@.len() ==> CONTRAST_MIN <= #[trigger] contrast@[j] <= CONTRAST_MAX,
            out@.len() == i,
            forall|j: int|
                0 <= j < out@.len() ==> match #[trigger] out@[j] {
                    Some(g) => stats@[j].pixels > 0 && g == mean_before_contrast(
                        brightness(stats@),
                        contrast_of(stats@, light@, j),
                    ),
                    None => stats@[j].pixels == 0,
                },
        decreases stats@.len() - i,
    {
        if stats[i].is_empty() {
            out.push(None);
        } else {
            proof {
                lemma_live(stats@, i as int, stats@.len() as int);
                assert(contrast@[k as int] == contrast_of(stats@, light@, i as int));
            }
            out.push(Some(exposure_goal(target, contrast[k])));
            k = k + 1;
        }
        i = i + 1;
    }
    out
}

/// One grade per camera, from what was counted and what the light curves say of it;
/// cameras without pixels get the neutral one.
pub fn solve(stats: &Vec<CameraStats>, light: &Vec<Light>) -> (out: Vec<Grade>)
    requires
        solvable(stats@, light@),
    ensures
        out@.len() == stats@.len(),
        forall|i: int|
            0 <= i < out@.len() ==> #[trigger] out@[i] == if stats@[i].pixels > 0 {
                grade_of(solution_of(stats@, light@, i))
            } else {
                Grade::neutral()
            },
{
    let on: Vec<usize> = live_cameras(stats);
    let spreads: Vec<i64> = listed_spreads(stats, light, &on);
    let contrast: Vec<i64> = contrasts(&spreads);
    let mut chromas: Vec<i64> = Vec::new();
    let mut balances: Vec<Option<(i64, i64)>> = Vec::new();
    let mut k: usize = 0;
    while k < on.len()
        invariant
            k <= on@.len() <= stats@.len(),
            solvable(stats@, light@),
            forall|j: int| 0 <= j < on@.len() ==> (#[trigger] on@[j]) < stats@.len(),
            on@ == live(stats@, stats@.len() as int),
            spreads@ == spreads_of(stats@, light@),
            contrast@.len() == on@.len(),
            forall|j: int|
                0 <= j < contrast@.len() ==> #[trigger] contrast@[j] == contrast_among(
                    spreads@,
                    spreads@[j] as int,
                ),
            forall|j: int| 0 <= j < contrast@.len() ==> CONTRAST_MIN <= #[trigger] contrast@[j] <= CONTRAST_MAX,
            chromas@.len() == k,
            forall|j: int|
                0 <= j < k ==> #[trigger] chromas@[j] == chroma_in(stats@, light@, on@[j] as int),
            measured(chromas@),
            balances@.len() == k,
            forall|j: int|
                0 <= j < k ==> #[trigger] balances@[j] == stats@[on@[j] as int].balance_in(
                    light@[on@[j] as int],
                ),
            forall|j: int|
                0 <= j < k ==> ((#[trigger] balances@[j]) matches Some(b) ==> 0 <= b.0 <= BALANCE_LIMIT && 0
                    <= b.1 <= BALANCE_LIMIT),
        decreases on@.len() - k,
    {
        let i: usize = on[k];
        assert(stats@[i as int].wf());
        assert(light@[i as int].ok());
        assert(contrast@[k as int] == contrast_of(stats@, light@, i as int));
        chromas.push(
            graded_chroma(stats[i].mean_chroma(), stats[i].mean_luma(), light[i].after, contrast[k]),
        );
        balances.push(stats[i].balance(&light[i]));
        k = k + 1;
    }
    assert(chromas@ =~= chromas_of(stats@, light@));
    assert(balances@ =~= balances_of(stats@, light@));
    let saturation: Vec<i64> = saturations(&chromas);
    let goal: Option<(i64, i64)> = target_balance(&balances);
    let mut out: Vec<Grade> = Vec::new();
    let mut n: usize = 0;
    let mut i: usize = 0;
    while i < stats.len()
        invariant
            i <= stats@.len(),
            solvable(stats@, light@),
            on@ == live(stats@, stats@.len() as int),
            on@.len() <= stats@.len(),
            n == live(stats@, i as int).len(),
            spreads@ == spreads_of(stats@, light@),
            chromas@ == chromas_of(stats@, light@),
            balances@ == balances_of(stats@, light@),
            contrast@.len() == on@.len(),
            forall|j: int|
                0 <= j < contrast@.len() ==> #[trigger] contrast@[j] == contrast_among(
                    spreads@,
                    spreads@[j] as int,
                ),
            forall|j: int| 0 <= j < contrast@.len() ==> CONTRAST_MIN <= #[trigger] contrast@[j] <= CONTRAST_MAX,
            forall|j: int|
                0 <= j < on@.len() ==> #[trigger] chromas@[j] == chroma_in(stats@, light@, on@[j] as int),
            saturation@.len() == on@.len(),
            forall|j: int|
                0 <= j < saturation@.len() ==> #[trigger] saturation@[j] == saturation_among(
                    chromas@,
                    chromas@[j] as int,
                ),
            forall|j: int|
                0 <= j < saturation@.len() ==> SATURATION_MIN <= #[trigger] saturation@[j] <= SATURATION_MAX,
            goal == middle_balance(balances@),
            goal matches Some(b) ==> 0 <= b.0 <= BALANCE_LIMIT && 0 <= b.1 <= BALANCE_LIMIT,
            out@.len() == i,
            forall|j: int|
                0 <= j < out@.len() ==> #[trigger] out@[j] == if stats@[j].pixels > 0 {
                    grade_of(solution_of(stats@, light@, j))
                } else {
                    Grade::neutral()
                },
        decreases stats@.len() - i,
    {
        if stats[i].is_empty() {
            out.push(Grade::default());
        } else {
            proof {
                lemma_live(stats@, i as int, stats@.len() as int);
                assert(on@[n as int] == i);
                assert(light@[i as int].ok());
                assert(contrast@[n as int] == contrast_of(stats@, light@, i as int));
                assert(chromas@[n as int] == chroma_in(stats@, light@, i as int));
            }
            let own: Option<(i64, i64)> = stats[i].balance(&light[i]);
            let s: Solution = Solution {
                exposure: exposure(light[i].found, light[i].guard),
                contrast: contrast[n],
                saturation: saturation[n],
                gains: gains(goal, own),
            };
            assert(s == solution_of(stats@, light@, i as int));
            out.push(to_grade(s));
            n = n + 1;
        }
        i = i + 1;
    }
    out
}

/// Every automatic grade stays in its ranges, and leaves lift, gamma and gain
/// alone; without a balance to match it leaves the colour alone too.
pub proof fn lemma_grade_in_range(s: Solution)
    requires
        solution_ok(s),
    ensures
        EXPOSURE_MIN <= grade_of(s).exposure <= EXPOSURE_MAX,
        CONTRAST_MIN <= grade_of(s).contrast <= CONTRAST_MAX,
        SATURATION_MIN <= grade_of(s).saturation <= SATURATION_MAX,
        -1_000_000 <= grade_of(s).temperature <= 1_000_000,
        -1_000_000 <= grade_of(s).tint <= 1_000_000,
        grade_of(s).lift == 0 && grade_of(s).gamma == 1_000_000 && grade_of(s).gain == 1_000_000,
        s.gains is None ==> grade_of(s).temperature == 0 && grade_of(s).tint == 0,
{
}

/// Where camera `i` stands once a camera is inserted at `k`.
pub open spec fn moved(i: int, k: int) -> int {
    if i < k {
        i
    } else {
        i + 1
    }
}

proof fn lemma_live_inserted(stats: Seq<CameraStats>, x: CameraStats, k: int, n: int)
    requires
        0 <= k <= stats.len() < usize::MAX,
        0 <= n <= stats.len(),
        x.pixels == 0,
    ensures
        n <= k ==> live(stats.insert(k, x), n) == live(stats, n),
        n >= k ==> live(stats.insert(k, x), n + 1).len() == live(stats, n).len(),
        n >= k ==> forall|j: int|
            0 <= j < live(stats, n).len() ==> #[trigger] live(stats.insert(k, x), n + 1)[j] == moved(
                live(stats, n)[j] as int,
                k,
            ),
        forall|j: int| 0 <= j < live(stats, n).len() ==> (#[trigger] live(stats, n)[j]) < n,
    decreases n,
{
    let with = stats.insert(k, x);
    if n > 0 {
        lemma_live_inserted(stats, x, k, n - 1);
        if n <= k {
            assert(with[n - 1] == stats[n - 1]);
        } else {
            assert(with[n] == stats[n - 1]);
        }
    }
    if n == k {
        assert(with[n] == x);
        assert(live(with, n + 1) == live(with, n));
    }
}

/// A camera without pixels changes nothing for the others: with it or without it,
/// wherever it stands, they get the same brightness target, the same contrast and
/// the same grade.
pub proof fn lemma_unmeasured_camera_does_not_count(
    stats: Seq<CameraStats>,
    light: Seq<Light>,
    k: int,
    x: CameraStats,
    l: Light,
    i: int,
)
    requires
        stats.len() == light.len() < usize::MAX,
        0 <= k <= stats.len(),
        0 <= i < stats.len(),
        x.pixels == 0,
    ensures
        brightness(stats.insert(k, x)) == brightness(stats),
        contrast_of(stats.insert(k, x), light.insert(k, l), moved(i, k)) == contrast_of(stats, light, i),
        solution_of(stats.insert(k, x), light.insert(k, l), moved(i, k)) == solution_of(stats, light, i),
        grade_of(solution_of(stats.insert(k, x), light.insert(k, l), moved(i, k))) == grade_of(
            solution_of(stats, light, i),
        ),
{
    let with = stats.insert(k, x);
    let lit = light.insert(k, l);
    let on = live(stats, stats.len() as int);
    let now = live(with, with.len() as int);
    lemma_live_inserted(stats, x, k, stats.len() as int);
    assert(now.len() == on.len());
    assert forall|j: int| 0 <= j < on.len() implies with[#[trigger] now[j] as int] == stats[on[j] as int]
        && lit[now[j] as int] == light[on[j] as int] by {
        assert(now[j] == moved(on[j] as int, k));
    }
    assert(means_of(with) =~= means_of(stats));
    assert(spreads_of(with, lit) =~= spreads_of(stats, light));
    assert(chromas_of(with, lit) =~= chromas_of(stats, light));
    assert(balances_of(with, lit) =~= balances_of(stats, light));
    assert(with[moved(i, k)] == stats[i]);
    assert(lit[moved(i, k)] == light[i]);
}

} // verus!
