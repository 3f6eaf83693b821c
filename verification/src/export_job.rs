//! Exporting the composed timeline frame by frame.

use crate::arrange::TIME_LIMIT;
use crate::export::ExportSpec;
use crate::model::{Project, Rate};
use crate::text::{decimal, join2, join3, join4, number_text, wide_text};
use crate::units::{round_div, round_even};
use vstd::prelude::*;

verus! {

/// Largest edge to which clips are decoded for an export.
pub const EXPORT_MAX_EDGE: u32 = 4096;

/// No export is longer, in microseconds.
pub const LENGTH_LIMIT: i64 = 3_000_000_000_000_000_000;

/// `spec` writes the project to `out`, `duration` long.
pub open spec fn is_spec_for(project: Project, out: Seq<char>, duration: i64, spec: ExportSpec) -> bool {
    let (w, h) = project.size_of_output();
    &&& spec.width == w
    &&& spec.height == h
    &&& spec.fps == project.output.fps
    &&& spec.codec == project.output.codec
    &&& spec.quality == project.output.quality
    &&& spec.out_path@ == out
    &&& crate::probe::text_of(spec.wav) == crate::probe::text_of(project.wav)
    &&& spec.audio_start == project.range.start
    &&& spec.duration == duration
}

/// What is to be written to `out`.
pub fn export_spec_for(project: &Project, out: &str, duration: i64) -> (spec: ExportSpec)
    ensures
        is_spec_for(*project, out@, duration, spec),
{
    let (w, h): (u32, u32) = project.output_size();
    let wav: Option<String> = match &project.wav {
        Some(p) => Some(p.clone()),
        None => None,
    };
    ExportSpec {
        width: w,
        height: h,
        fps: project.output.fps,
        codec: project.output.codec,
        quality: project.output.quality,
        out_path: out.to_owned(),
        wav,
        audio_start: project.range.start,
        duration,
    }
}

/// Frames in a stretch of time, to the nearest, and none in a negative one.
pub open spec fn frames_in(duration: int, fps: Rate) -> int {
    let n = crate::units::rounded(duration * fps.num, fps.den * 1_000_000);
    if n < 0 {
        0
    } else {
        n
    }
}

/// Frames in a stretch of time.
pub fn frame_total(duration: i64, fps: Rate) -> (n: u64)
    requires
        fps.ok(),
        duration <= LENGTH_LIMIT,
    ensures
        n == frames_in(duration as int, fps),
        fps.reaches(n as int),
        n <= 400_000_000_000_000_000,
{
    proof {
        assert(-0x8000_0000_0000_0000 * 1_000_000_000_000 <= duration * fps.num <= 0x8000_0000_0000_0000
            * 1_000_000_000_000) by (nonlinear_arith)
            requires
                -0x8000_0000_0000_0000 <= duration <= 0x8000_0000_0000_0000,
                0 < fps.num <= 1_000_000_000_000,
        ;
    }
    let step: i128 = (fps.den as i128) * 1_000_000;
    let n: i128 = round_div((duration as i128) * (fps.num as i128), step);
    proof {
        crate::units::lemma_rounded_near(duration * fps.num, step as int);
        let top = duration * fps.num;
        assert(top <= 3_000_000_000_000_000_000 * fps.num) by (nonlinear_arith)
            requires
                top == duration * fps.num,
                duration <= 3_000_000_000_000_000_000,
                fps.num > 0,
        ;
        assert(2 * (n * step) <= 2 * top + step);
        assert(0 * step == 0);
        assert(n <= 400_000_000_000_000_000) by (nonlinear_arith)
            requires
                2 * (n * step) <= 6_000_000_000_000_000_000 * fps.num + step,
                step == fps.den * 1_000_000,
                0 < fps.num <= 100_000 * fps.den,
        ;
    }
    if n < 0 {
        0
    } else {
        n as u64
    }
}

/// Length of the range of an export; never negative.
pub open spec fn range_length(project: Project) -> int {
    let d = project.range.end - project.range.start;
    if d < 0 {
        0
    } else {
        d
    }
}

/// Length of the range of an export.
pub fn range_duration(project: &Project) -> (d: i64)
    requires
        crate::sampling::project_ok(*project),
    ensures
        d == range_length(*project),
        d <= LENGTH_LIMIT,
{
    let d: i64 = project.range.end - project.range.start;
    if d < 0 {
        0
    } else {
        d
    }
}

/// Length of an export without a window: the range, or from its start to the end of
/// the recording.
pub open spec fn export_length(project: Project, wav: Option<i64>) -> int {
    if project.range.end > project.range.start {
        project.range.end - project.range.start
    } else {
        crate::model::timeline_length(project, wav) - project.range.start
    }
}

/// Length of an export without a window.
pub fn export_duration(project: &Project, wav: Option<i64>) -> (d: i64)
    requires
        crate::sampling::project_ok(*project),
        wav matches Some(w) ==> w <= TIME_LIMIT,
    ensures
        d == export_length(*project, wav),
        d <= LENGTH_LIMIT,
{
    if project.range.end > project.range.start {
        project.range.end - project.range.start
    } else {
        proof {
            crate::sampling::lemma_cameras_end_bound(project.cameras@, project.cameras@.len() as int);
        }
        project.duration(wav) - project.range.start
    }
}

/// Master time of frame `k`.
pub open spec fn moment_of(start: int, k: int, fps: Rate) -> int {
    start + fps.time_of(k)
}

/// Master time of frame `k`.
pub fn frame_moment(start: i64, k: u64, fps: Rate) -> (t: i64)
    requires
        fps.ok(),
        crate::arrange::in_limit(start as int),
        fps.reaches(k as int),
    ensures
        t == moment_of(start as int, k as int, fps),
{
    let d: i64 = fps.frame_time(k);
    start + d
}

/// A running export.
#[derive(Debug)]
pub struct ExportJob {
    pub frame: u64,
    pub total: u64,
    pub fps: Rate,
    /// Master time of the first frame.
    pub start: i64,
    pub done: bool,
    pub error: Option<String>,
}

/// What is to be done next.
#[derive(Debug, Clone, Copy, PartialEq, Eq, Structural)]
pub enum ExportStep {
    /// Compose the picture of a moment and hand it to the encoder.
    Encode { t: i64 },
    /// Close the encoder.
    Finish,
    /// Go on later.
    Rest,
    /// All is over.
    Over,
}

impl ExportJob {
    /// The parts fit together.
    pub open spec fn wf(self) -> bool {
        &&& self.fps.ok()
        &&& crate::arrange::in_limit(self.start as int)
        &&& self.frame <= self.total <= 400_000_000_000_000_000
        &&& 1 <= self.total
        &&& self.fps.reaches(self.total as int)
        &&& self.error is Some ==> self.done
    }

    /// An export of `duration`, of one frame at least.
    pub fn start(start: i64, duration: i64, fps: Rate) -> (e: ExportJob)
        requires
            fps.ok(),
            crate::arrange::in_limit(start as int),
            duration <= LENGTH_LIMIT,
        ensures
            e.wf(),
            e.frame == 0,
            !e.done,
            e.error is None,
            e.fps == fps,
            e.start == start,
            e.total == if frames_in(duration as int, fps) < 1 {
                1
            } else {
                frames_in(duration as int, fps)
            },
    {
        let n: u64 = frame_total(duration, fps);
        let total: u64 = if n < 1 {
            1
        } else {
            n
        };
        proof {
            fps.lemma_frame_step();
        }
        ExportJob { frame: 0, total, fps, start, done: false, error: None }
    }

    /// What is to be done next, as long as there is time for it.
    pub fn step(&self, in_budget: bool) -> (step: ExportStep)
        requires
            self.wf(),
        ensures
            step == if self.done {
                ExportStep::Over
            } else if self.frame >= self.total {
                ExportStep::Finish
            } else if in_budget {
                ExportStep::Encode { t: moment_of(self.start as int, self.frame as int, self.fps) as i64 }
            } else {
                ExportStep::Rest
            },
    {
        if self.done {
            ExportStep::Over
        } else if self.frame >= self.total {
            ExportStep::Finish
        } else if in_budget {
            proof {
                let step = self.fps.den * 1_000_000;
                assert(self.frame * step <= self.total * step) by (nonlinear_arith)
                    requires
                        self.frame <= self.total,
                        step > 0,
                ;
            }
            ExportStep::Encode { t: frame_moment(self.start, self.frame, self.fps) }
        } else {
            ExportStep::Rest
        }
    }

    /// A picture was handed to the encoder.
    pub fn wrote(&mut self, failure: Option<String>)
        requires
            old(self).wf(),
            !old(self).done,
            old(self).frame < old(self).total,
        ensures
            final(self).wf(),
            *final(self) == match failure {
                Some(e) => (ExportJob { error: Some(e), done: true, ..*old(self) }),
                None => (ExportJob { frame: (old(self).frame + 1) as u64, ..*old(self) }),
            },
    {
        match failure {
            Some(e) => {
                self.error = Some(e);
                self.done = true;
            },
            None => {
                self.frame = self.frame + 1;
            },
        }
    }

    /// The encoder was closed.
    pub fn finished(&mut self, failure: Option<String>)
        requires
            old(self).wf(),
        ensures
            final(self).wf(),
            *final(self) == match failure {
                Some(e) => (ExportJob { error: Some(e), done: true, ..*old(self) }),
                None => (ExportJob { done: true, ..*old(self) }),
            },
    {
        match failure {
            Some(e) => {
                self.error = Some(e);
            },
            None => {},
        }
        self.done = true;
    }

    /// How much is done, in millionths.
    pub fn progress(&self) -> (p: i64)
        requires
            self.wf(),
        ensures
            p == crate::units::rounded(self.frame * 1_000_000, self.total as int),
            0 <= p <= 1_000_000,
    {
        let p: i128 = round_div((self.frame as i128) * 1_000_000, self.total as i128);
        proof {
            let n = self.frame * 1_000_000;
            let d = self.total as int;
            crate::units::lemma_rounded_near(n, d);
            assert(0 <= p <= 1_000_000) by (nonlinear_arith)
                requires
                    -d <= 2 * (n - p * d) <= d,
                    0 <= n <= 1_000_000 * d,
                    d > 0,
            ;
        }
        p as i64
    }

    /// Frames per second so far, in tenths; time counts from one millisecond.
    pub open spec fn speed(self, elapsed: int) -> int {
        crate::units::even_rounded(
            self.frame * 10_000_000,
            if elapsed < 1000 {
                1000
            } else {
                elapsed
            },
        )
    }

    /// Seconds that are left at this speed.
    pub open spec fn eta(self, elapsed: int) -> int {
        if self.frame == 0 {
            0
        } else {
            crate::units::even_rounded(
                (self.total - self.frame) * (if elapsed < 1000 {
                    1000
                } else {
                    elapsed
                }),
                self.frame * 1_000_000,
            )
        }
    }

    /// How far the export is.
    pub open spec fn status_text(self, elapsed: int) -> Seq<char> {
        let rate = self.speed(elapsed);
        decimal(self.frame as nat) + " / "@ + decimal(self.total as nat) + " frames, "@ + decimal(
            (rate / 10) as nat,
        ) + "."@ + decimal((rate % 10) as nat) + " fps, ETA "@ + decimal(self.eta(elapsed) as nat) + "s"@
    }

    /// How far the export is, after `elapsed` microseconds.
    pub fn status(&self, elapsed: i64) -> (s: String)
        requires
            self.wf(),
            0 <= elapsed <= 1_000_000_000_000_000,
        ensures
            s@ == self.status_text(elapsed as int),
    {
        let e: i128 = if elapsed < 1000 {
            1000
        } else {
            elapsed as i128
        };
        let rate: i128 = round_even((self.frame as i128) * 10_000_000, e);
        proof {
            crate::units::lemma_even_near(self.frame * 10_000_000, e as int);
        }
        let left: i128 = if self.frame == 0 {
            0
        } else {
            proof {
                let rest = self.total - self.frame;
                assert(0 <= rest * e <= 400_000_000_000_000_000 * 1_000_000_000_000_000) by (nonlinear_arith)
                    requires
                        0 <= rest <= 400_000_000_000_000_000,
                        0 <= e <= 1_000_000_000_000_000,
                ;
                crate::units::lemma_even_near(rest * e, self.frame * 1_000_000);
            }
            let top: i128 = ((self.total - self.frame) as i128) * e;
            round_even(top, (self.frame as i128) * 1_000_000)
        };
        let f: String = number_text(self.frame);
        let t: String = number_text(self.total);
        let a: String = wide_text((rate / 10) as u128);
        let b: String = wide_text((rate % 10) as u128);
        let l: String = wide_text(left as u128);
        let head: String = join4(f.as_str(), " / ", t.as_str(), " frames, ");
        let speed: String = join4(a.as_str(), ".", b.as_str(), " fps, ETA ");
        let tail: String = join2(l.as_str(), "s");
        let s: String = join3(head.as_str(), speed.as_str(), tail.as_str());
        assert(s@ =~= self.status_text(elapsed as int));
        s
    }
}

/// The moments of an export go up, frame by frame, from its start.
pub proof fn lemma_moments_go_up(start: int, fps: Rate, j: int, k: int)
    requires
        fps.ok(),
        0 <= j <= k,
    ensures
        start <= moment_of(start, j, fps) <= moment_of(start, k, fps),
{
    let step = fps.den * 1_000_000;
    let n = fps.num as int;
    let p = j * step;
    let q = k * step;
    assert(0 <= p <= q) by (nonlinear_arith)
        requires
            0 <= j <= k,
            step > 0,
            p == j * step,
            q == k * step,
    ;
    vstd::arithmetic::div_mod::lemma_div_is_ordered(2 * p + n, 2 * q + n, 2 * n);
    vstd::arithmetic::div_mod::lemma_div_pos_is_pos(2 * p + n, 2 * n);
}

} // verus!
