//! The project: cameras and their clips, the layout, grades and output settings.
//!
//! Times are whole microseconds. Factors (zoom, pan, grades, confidences) are
//! millionths. Paths are texts with `/` between their parts.

use crate::arrange::TIME_LIMIT;
use crate::text::{chars_of, number_text};
use vstd::prelude::*;

verus! {

/// A project shows this many cameras.
pub const CAMERA_COUNT: usize = 3;

/// Everything that is saved.
#[derive(Debug, Clone)]
pub struct Project {
    pub version: u32,
    /// The master recording.
    pub wav: Option<String>,
    pub cameras: Vec<Camera>,
    pub layout: LayoutId,
    pub slots: [Slot; 3],
    pub output: OutputSettings,
    pub range: Range,
}

/// One camera and its clips in recording order.
#[derive(Debug, Clone)]
pub struct Camera {
    pub name: String,
    pub folder: Option<String>,
    pub clips: Vec<Clip>,
    pub grade: Grade,
}

/// One recording of a camera.
#[derive(Debug, Clone)]
pub struct Clip {
    pub path: String,
    /// Microseconds.
    pub duration: i64,
    /// Display size after rotation is applied.
    pub width: u32,
    pub height: u32,
    pub fps: Rate,
    /// Degrees.
    pub rotation: i32,
    pub hdr: bool,
    pub has_audio: bool,
    pub creation_time: Option<String>,
    /// The recorder is known to stamp the end of a recording.
    pub end_stamped: bool,
    /// Master-timeline microseconds at which this clip's first frame appears.
    pub offset: i64,
    /// Millionths, present when auto-sync ran.
    pub sync_confidence: Option<u32>,
}

/// Frames per second: `num / den`.
#[derive(Debug, Clone, Copy, PartialEq, Eq, Structural)]
pub struct Rate {
    pub num: i64,
    pub den: i64,
}

/// A place in the layout: which camera it shows, and how.
#[derive(Debug, Clone, Copy, PartialEq, Eq)]
pub struct Slot {
    pub camera: usize,
    /// One whole is cover-fit, larger zooms in.
    pub zoom: i64,
    /// Shift of the crop window, roughly half a whole either way.
    pub pan: (i64, i64),
}

/// Colour settings of a camera.
#[derive(Debug, Clone, Copy, PartialEq, Eq, Structural)]
pub struct Grade {
    /// Stops.
    pub exposure: i64,
    /// One whole is neutral.
    pub contrast: i64,
    /// One whole is neutral.
    pub saturation: i64,
    /// Up to one whole either way, negative is cooler.
    pub temperature: i64,
    /// Up to one whole either way, negative is green, positive is magenta.
    pub tint: i64,
    pub lift: i64,
    pub gamma: i64,
    pub gain: i64,
}

/// Which edge of the picture is the long one.
#[derive(Debug, Clone, Copy, PartialEq, Eq, Structural)]
pub enum Orientation {
    Horizontal,
    Vertical,
}

/// The layout presets.
#[derive(Debug, Clone, Copy, PartialEq, Eq, Structural)]
pub enum LayoutId {
    HThree,
    HBigLeft,
    HBigCenterPip,
    VThree,
    VBigTop,
    VFullPip,
}

/// The video encoders.
#[derive(Debug, Clone, Copy, PartialEq, Eq, Structural)]
pub enum Codec {
    H264Software,
    H265Software,
    H264Vaapi,
    H265Vaapi,
    H264VideoToolbox,
    H265VideoToolbox,
}

/// What is written on export.
#[derive(Debug, Clone)]
pub struct OutputSettings {
    /// Long edge and short edge; orientation comes from the layout.
    pub width: u32,
    pub height: u32,
    pub fps: Rate,
    pub codec: Codec,
    /// Quality knob: constant rate factor for software encoders, quantizer for
    /// hardware ones.
    pub quality: u32,
    pub path: Option<String>,
}

/// A stretch of the master timeline.
#[derive(Debug, Clone, Copy, PartialEq, Eq, Structural)]
pub struct Range {
    pub start: i64,
    pub end: i64,
}

/// No part of a frame rate is larger.
pub const RATE_LIMIT: i64 = 1_000_000_000_000;

/// No frame starts later after the first one, in microseconds.
pub const FRAME_SPAN: i64 = 4_000_000_000_000_000_000;

impl Rate {
    /// A rate that can be counted with: from one frame in a million seconds to a
    /// hundred thousand frames a second, so that frames are several microseconds
    /// long and their times are in range.
    pub open spec fn ok(self) -> bool {
        &&& 0 < self.num <= RATE_LIMIT
        &&& 0 < self.den <= RATE_LIMIT
        &&& self.den <= 1_000_000 * self.num
        &&& self.num <= 100_000 * self.den
    }

    /// Whether this rate can be counted with.
    pub fn is_ok(self) -> (b: bool)
        ensures
            b == self.ok(),
    {
        0 < self.num && self.num <= RATE_LIMIT && 0 < self.den && self.den <= RATE_LIMIT && self.den <= 1_000_000
            * self.num && self.num <= 100_000 * self.den
    }

    /// Microseconds from the start to frame `k`, to the nearest.
    pub open spec fn time_of(self, k: int) -> int {
        crate::units::rounded(k * (self.den * 1_000_000), self.num as int)
    }

    /// The last frame that starts at `t` microseconds or before.
    pub open spec fn frame_at(self, t: int) -> int {
        (t * self.num) / (self.den * 1_000_000)
    }

    /// Frame `k` starts in the range of times that frames can have.
    pub open spec fn reaches(self, k: int) -> bool {
        k * (self.den * 1_000_000) <= FRAME_SPAN * self.num
    }

    /// Whether frame `k` starts in the range of times that frames can have.
    pub fn has_frame(self, k: u64) -> (b: bool)
        requires
            self.ok(),
        ensures
            b == self.reaches(k as int),
    {
        let step: i128 = (self.den as i128) * 1_000_000;
        proof {
            self.lemma_frame_product(k as int);
        }
        (k as i128) * step <= (FRAME_SPAN as i128) * (self.num as i128)
    }

    proof fn lemma_frame_product(self, k: int)
        requires
            self.ok(),
            0 <= k <= u64::MAX,
        ensures
            0 <= k * (self.den * 1_000_000) <= u64::MAX * 1_000_000_000_000_000_000,
            0 <= FRAME_SPAN * self.num <= FRAME_SPAN * RATE_LIMIT,
    {
        let step = self.den * 1_000_000;
        assert(0 <= k * step <= u64::MAX * 1_000_000_000_000_000_000) by (nonlinear_arith)
            requires
                0 <= k <= u64::MAX,
                0 <= step <= 1_000_000_000_000_000_000,
        ;
    }

    /// Microseconds from the start to frame `k`, to the nearest.
    pub fn frame_time(self, k: u64) -> (t: i64)
        requires
            self.ok(),
            self.reaches(k as int),
        ensures
            t == self.time_of(k as int),
            0 <= t <= FRAME_SPAN,
    {
        let step: i128 = (self.den as i128) * 1_000_000;
        proof {
            self.lemma_frame_product(k as int);
        }
        let t: i128 = crate::units::round_div((k as i128) * step, self.num as i128);
        proof {
            let n = self.num as int;
            crate::units::lemma_rounded_near(k * step, n);
            assert(0 <= t <= FRAME_SPAN) by (nonlinear_arith)
                requires
                    -n <= 2 * (k * step - t * n) <= n,
                    0 <= k * step <= FRAME_SPAN * n,
                    n > 0,
                    FRAME_SPAN == 4_000_000_000_000_000_000,
            ;
        }
        t as i64
    }

    /// Microseconds from one frame to the next, to the nearest.
    pub fn frame_step(self) -> (t: i64)
        requires
            self.ok(),
        ensures
            t == self.time_of(1),
            0 <= t <= 1_000_000_000_000,
    {
        proof {
            self.lemma_frame_step();
        }
        self.frame_time(1)
    }

    /// No two frames are more than a million seconds apart.
    pub proof fn lemma_frame_step(self)
        requires
            self.ok(),
        ensures
            self.reaches(1),
            0 <= self.time_of(1) <= 1_000_000_000_000,
    {
        let n = self.num as int;
        let step = self.den * 1_000_000;
        let t = self.time_of(1);
        assert(1 * step == step);
        crate::units::lemma_rounded_near(step, n);
        assert(0 <= t <= 1_000_000_000_000) by (nonlinear_arith)
            requires
                -n <= 2 * (step - t * n) <= n,
                0 <= step <= 1_000_000_000_000 * n,
                n > 0,
        ;
    }

    /// `t`, moved back onto the frame grid.
    pub fn snap(self, t: i64) -> (s: i64)
        requires
            self.ok(),
            0 <= t <= TIME_LIMIT,
        ensures
            s == self.time_of(self.frame_at(t as int)),
            0 <= s <= t,
    {
        let n: i128 = self.num as i128;
        let step: i128 = (self.den as i128) * 1_000_000;
        proof {
            assert(0 <= t * n <= 1_000_000_000_000_000_000 * 1_000_000_000_000) by (nonlinear_arith)
                requires
                    0 <= t <= 1_000_000_000_000_000_000,
                    0 < n <= 1_000_000_000_000,
            ;
        }
        let top: i128 = (t as i128) * n;
        let k: i128 = top / step;
        proof {
            vstd::arithmetic::div_mod::lemma_fundamental_div_mod(top as int, step as int);
            vstd::arithmetic::div_mod::lemma_mod_bound(top as int, step as int);
            vstd::arithmetic::div_mod::lemma_div_pos_is_pos(top as int, step as int);
            assert(0 <= k * step <= top) by (nonlinear_arith)
                requires
                    top == step * k + top as int % step as int,
                    0 <= top as int % (step as int),
                    k >= 0,
                    step > 0,
            ;
            lemma_frame_grid(self, t as int);
            vstd::arithmetic::div_mod::lemma_div_pos_is_pos(2 * (k * step) + n, 2 * n as int);
        }
        crate::units::round_div(k * step, n) as i64
    }
}

/// The frame that is on at a time starts then or before, and not a whole frame
/// before but for the rounding.
pub proof fn lemma_frame_grid(r: Rate, t: int)
    requires
        r.ok(),
        t >= 0,
    ensures
        r.frame_at(t) >= 0,
        r.time_of(r.frame_at(t)) <= t,
        (t - r.time_of(r.frame_at(t)) - 1) * r.num < r.den * 1_000_000,
{
    let n = r.num as int;
    let step = r.den * 1_000_000;
    let k = r.frame_at(t);
    let top = t * n;
    vstd::arithmetic::div_mod::lemma_fundamental_div_mod(top, step);
    vstd::arithmetic::div_mod::lemma_mod_bound(top, step);
    assert(k >= 0) by (nonlinear_arith)
        requires
            top == step * k + top % step,
            0 <= top % step < step,
            top == t * n,
            t >= 0,
            n > 0,
            step > 0,
    ;
    let s = r.time_of(k);
    crate::units::lemma_rounded_near(k * step, n);
    assert(s <= t) by (nonlinear_arith)
        requires
            -n <= 2 * (k * step - s * n) <= n,
            k * step <= t * n,
            n > 0,
    ;
    assert((t - s - 1) * n < step) by (nonlinear_arith)
        requires
            -n <= 2 * (k * step - s * n) <= n,
            t * n < k * step + step,
            n > 0,
    ;
}

// ---------------------------------------------------------------- enumerations

impl LayoutId {
    /// The layouts in menu order.
    pub fn all() -> (v: [LayoutId; 6])
        ensures
            v@ == seq![
                LayoutId::HThree,
                LayoutId::HBigLeft,
                LayoutId::HBigCenterPip,
                LayoutId::VThree,
                LayoutId::VBigTop,
                LayoutId::VFullPip,
            ],
    {
        [
            LayoutId::HThree,
            LayoutId::HBigLeft,
            LayoutId::HBigCenterPip,
            LayoutId::VThree,
            LayoutId::VBigTop,
            LayoutId::VFullPip,
        ]
    }

    /// The layout is wider than high.
    pub open spec fn is_horizontal(self) -> bool {
        self == LayoutId::HThree || self == LayoutId::HBigLeft || self == LayoutId::HBigCenterPip
    }

    /// The orientation that the layout is made for.
    pub fn orientation(self) -> (o: Orientation)
        ensures
            o == if self.is_horizontal() {
                Orientation::Horizontal
            } else {
                Orientation::Vertical
            },
    {
        match self {
            LayoutId::HThree | LayoutId::HBigLeft | LayoutId::HBigCenterPip => Orientation::Horizontal,
            LayoutId::VThree | LayoutId::VBigTop | LayoutId::VFullPip => Orientation::Vertical,
        }
    }

    /// The layout's name in menus.
    pub open spec fn name(self) -> Seq<char> {
        match self {
            LayoutId::HThree => "Three side by side"@,
            LayoutId::HBigLeft => "Big left, two stacked right"@,
            LayoutId::HBigCenterPip => "Full frame, two small overlays"@,
            LayoutId::VThree => "Three stacked"@,
            LayoutId::VBigTop => "Big top, two below"@,
            LayoutId::VFullPip => "Full frame, two small overlays"@,
        }
    }

    /// The layout's name in menus.
    pub fn label(self) -> (s: &'static str)
        ensures
            s@ == self.name(),
    {
        match self {
            LayoutId::HThree => "Three side by side",
            LayoutId::HBigLeft => "Big left, two stacked right",
            LayoutId::HBigCenterPip => "Full frame, two small overlays",
            LayoutId::VThree => "Three stacked",
            LayoutId::VBigTop => "Big top, two below",
            LayoutId::VFullPip => "Full frame, two small overlays",
        }
    }
}

impl Codec {
    /// The encoders in menu order.
    pub fn all() -> (v: [Codec; 6])
        ensures
            v@ == seq![
                Codec::H264Software,
                Codec::H265Software,
                Codec::H264Vaapi,
                Codec::H265Vaapi,
                Codec::H264VideoToolbox,
                Codec::H265VideoToolbox,
            ],
    {
        [
            Codec::H264Software,
            Codec::H265Software,
            Codec::H264Vaapi,
            Codec::H265Vaapi,
            Codec::H264VideoToolbox,
            Codec::H265VideoToolbox,
        ]
    }

    /// The encoder's name in menus.
    pub open spec fn name(self) -> Seq<char> {
        match self {
            Codec::H264Software => "H.264 (libx264, software)"@,
            Codec::H265Software => "H.265 (libx265, software)"@,
            Codec::H264Vaapi => "H.264 (VAAPI, Linux GPU)"@,
            Codec::H265Vaapi => "H.265 (VAAPI, Linux GPU)"@,
            Codec::H264VideoToolbox => "H.264 (VideoToolbox, macOS)"@,
            Codec::H265VideoToolbox => "H.265 (VideoToolbox, macOS)"@,
        }
    }

    /// The encoder's name in menus.
    pub fn label(self) -> (s: &'static str)
        ensures
            s@ == self.name(),
    {
        match self {
            Codec::H264Software => "H.264 (libx264, software)",
            Codec::H265Software => "H.265 (libx265, software)",
            Codec::H264Vaapi => "H.264 (VAAPI, Linux GPU)",
            Codec::H265Vaapi => "H.265 (VAAPI, Linux GPU)",
            Codec::H264VideoToolbox => "H.264 (VideoToolbox, macOS)",
            Codec::H265VideoToolbox => "H.265 (VideoToolbox, macOS)",
        }
    }
}

// ---------------------------------------------------------------- defaults

impl Slot {
    /// Camera `camera`, cover-fit.
    pub open spec fn plain(camera: usize) -> Slot {
        Slot { camera, zoom: 1_000_000, pan: (0, 0) }
    }
}

impl Default for Slot {
    fn default() -> (s: Self)
        ensures
            s == Slot::plain(0),
    {
        Slot { camera: 0, zoom: 1_000_000, pan: (0, 0) }
    }
}

impl Grade {
    /// The grade that changes nothing.
    pub open spec fn neutral() -> Grade {
        Grade {
            exposure: 0,
            contrast: 1_000_000,
            saturation: 1_000_000,
            temperature: 0,
            tint: 0,
            lift: 0,
            gamma: 1_000_000,
            gain: 1_000_000,
        }
    }
}

impl Default for Grade {
    fn default() -> (g: Self)
        ensures
            g == Grade::neutral(),
    {
        Grade {
            exposure: 0,
            contrast: 1_000_000,
            saturation: 1_000_000,
            temperature: 0,
            tint: 0,
            lift: 0,
            gamma: 1_000_000,
            gain: 1_000_000,
        }
    }
}

impl Default for Camera {
    fn default() -> (c: Self)
        ensures
            c.name@ == Seq::<char>::empty(),
            c.folder is None,
            c.clips@.len() == 0,
            c.grade == Grade::neutral(),
    {
        Camera { name: String::new(), folder: None, clips: Vec::new(), grade: Grade::default() }
    }
}

impl Default for OutputSettings {
    fn default() -> (o: Self)
        ensures
            fresh_output(o),
    {
        OutputSettings {
            width: 1920,
            height: 1080,
            fps: Rate { num: 30, den: 1 },
            codec: Codec::H264Software,
            quality: 18,
            path: None,
        }
    }
}

/// `c` is an empty camera with the name that belongs at place `i`.
pub open spec fn fresh_camera(c: Camera, i: int) -> bool {
    &&& c.name@ == "Cam "@ + crate::text::decimal((i + 1) as nat)
    &&& c.folder is None
    &&& c.clips@.len() == 0
    &&& c.grade == Grade::neutral()
}

/// The output settings of a new project.
pub open spec fn fresh_output(o: OutputSettings) -> bool {
    &&& o.width == 1920
    &&& o.height == 1080
    &&& o.fps == (Rate { num: 30, den: 1 })
    &&& o.codec == Codec::H264Software
    &&& o.quality == 18
    &&& o.path is None
}

/// An empty project.
pub open spec fn fresh_project(p: Project) -> bool {
    &&& p.version == 1
    &&& p.wav is None
    &&& p.cameras@.len() == CAMERA_COUNT
    &&& forall|i: int| 0 <= i < CAMERA_COUNT ==> fresh_camera(#[trigger] p.cameras@[i], i)
    &&& p.layout == LayoutId::HBigLeft
    &&& forall|i: int| 0 <= i < 3 ==> #[trigger] p.slots@[i] == Slot::plain(i as usize)
    &&& fresh_output(p.output)
    &&& p.range == (Range { start: 0, end: 0 })
}

impl Default for Project {
    fn default() -> (p: Self)
        ensures
            fresh_project(p),
    {
        let mut cameras: Vec<Camera> = Vec::new();
        let mut i: usize = 0;
        while i < CAMERA_COUNT
            invariant
                i <= CAMERA_COUNT,
                cameras@.len() == i,
                forall|k: int| 0 <= k < i ==> fresh_camera(#[trigger] cameras@[k], k),
            decreases CAMERA_COUNT - i,
        {
            let n: String = number_text(i as u64 + 1);
            let name: String = crate::text::join2("Cam ", n.as_str());
            cameras.push(Camera { name, folder: None, clips: Vec::new(), grade: Grade::default() });
            i = i + 1;
        }
        let a: Slot = Slot { camera: 0, zoom: 1_000_000, pan: (0, 0) };
        let b: Slot = Slot { camera: 1, zoom: 1_000_000, pan: (0, 0) };
        let c: Slot = Slot { camera: 2, zoom: 1_000_000, pan: (0, 0) };
        Project {
            version: 1,
            wav: None,
            cameras,
            layout: LayoutId::HBigLeft,
            slots: [a, b, c],
            output: OutputSettings::default(),
            range: Range { start: 0, end: 0 },
        }
    }
}

// ---------------------------------------------------------------- clips

/// The part of a path behind its last `/`, as operating systems understand it:
/// trailing slashes and dots do not count, and a path that leads upwards or
/// nowhere has no last part.
pub open spec fn last_part(s: Seq<char>) -> Option<Seq<char>>
    decreases s.len(),
{
    if s.len() == 0 {
        None
    } else if s.last() == '/' {
        last_part(s.drop_last())
    } else {
        let k = part_start(s, s.len() as int);
        let name = s.skip(k);
        if name == seq!['.', '.'] {
            None
        } else if name == seq!['.'] {
            if 0 < k < s.len() {
                last_part(s.take(k))
            } else {
                None
            }
        } else {
            Some(name)
        }
    }
}

/// Where the part that ends at `n` starts.
pub open spec fn part_start(s: Seq<char>, n: int) -> int
    decreases n,
{
    if n <= 0 || s[n - 1] == '/' {
        n
    } else {
        part_start(s, n - 1)
    }
}

/// Start and end of a path's last part.
pub fn last_part_range(v: &Vec<char>) -> (r: Option<(usize, usize)>)
    ensures
        match r {
            Some((a, b)) => {
                &&& a <= b <= v@.len()
                &&& last_part(v@) == Some(v@.subrange(a as int, b as int))
            },
            None => last_part(v@) is None,
        },
{
    let mut n: usize = v.len();
    proof {
        assert(v@.take(n as int) =~= v@);
    }
    while n > 0
        invariant
            n <= v@.len(),
            last_part(v@) == last_part(v@.take(n as int)),
        decreases n,
    {
        let ghost s = v@.take(n as int);
        if v[n - 1] == '/' {
            assert(s.drop_last() =~= v@.take(n - 1));
            n = n - 1;
        } else {
            let mut k: usize = n;
            while k > 0 && v[k - 1] != '/'
                invariant
                    k <= n <= v@.len(),
                    s == v@.take(n as int),
                    part_start(s, n as int) == part_start(s, k as int),
                decreases k,
            {
                k = k - 1;
            }
            proof {
                assert(part_start(s, n as int) == k);
                assert(s.skip(k as int) =~= v@.subrange(k as int, n as int));
            }
            if n - k == 2 && v[k] == '.' && v[k + 1] == '.' {
                assert(s.skip(k as int) =~= seq!['.', '.']);
                return None;
            }
            proof {
                if s.skip(k as int) == seq!['.', '.'] {
                    assert(s.skip(k as int)[0] == v@[k as int]);
                    assert(s.skip(k as int)[1] == v@[k + 1]);
                    assert(s.skip(k as int).len() == 2);
                }
            }
            if n - k == 1 && v[k] == '.' {
                assert(s.skip(k as int) =~= seq!['.']);
                if k == 0 {
                    return None;
                }
                assert(s.take(k as int) =~= v@.take(k as int));
                n = k;
            } else {
                proof {
                    if s.skip(k as int) == seq!['.'] {
                        assert(s.skip(k as int)[0] == v@[k as int]);
                        assert(s.skip(k as int).len() == 1);
                    }
                }
                return Some((k, n));
            }
        }
    }
    None
}

/// The last part of a path, empty where there is none.
pub open spec fn file_name_of(path: Seq<char>) -> Seq<char> {
    match last_part(path) {
        Some(name) => name,
        None => Seq::empty(),
    }
}

/// The last part of a path, empty where there is none.
pub fn file_name(path: &str) -> (s: String)
    ensures
        s@ == file_name_of(path@),
{
    let v: Vec<char> = chars_of(path);
    match last_part_range(&v) {
        Some((a, b)) => path.substring_char(a, b).to_owned(),
        None => String::new(),
    }
}

impl Clip {
    /// The clip's times are in range.
    pub open spec fn times_ok(&self) -> bool {
        crate::arrange::in_limit(self.offset as int) && crate::arrange::in_limit(self.duration as int)
    }

    /// The clip covers master time `t`.
    pub open spec fn covers(&self, t: int) -> bool {
        self.offset <= t < self.offset + self.duration
    }

    /// Master time at which the clip is over.
    pub fn end(&self) -> (t: i64)
        requires
            self.times_ok(),
        ensures
            t == self.offset + self.duration,
    {
        self.offset + self.duration
    }

    /// The clip's file name.
    pub fn file_name(&self) -> (s: String)
        ensures
            s@ == file_name_of(self.path@),
    {
        file_name(self.path.as_str())
    }

    /// Whether the clip's times are in range.
    pub fn has_times_in_range(&self) -> (b: bool)
        ensures
            b == self.times_ok(),
    {
        -TIME_LIMIT <= self.offset && self.offset <= TIME_LIMIT && -TIME_LIMIT <= self.duration
            && self.duration <= TIME_LIMIT
    }
}

/// All clips' times are in range.
pub open spec fn clip_times_ok(clips: Seq<Clip>) -> bool {
    forall|i: int| 0 <= i < clips.len() ==> (#[trigger] clips[i]).times_ok()
}

/// Whether all clips' times are in range.
pub fn clips_in_range(clips: &Vec<Clip>) -> (b: bool)
    ensures
        b == clip_times_ok(clips@),
{
    let mut i: usize = 0;
    while i < clips.len()
        invariant
            i <= clips@.len(),
            forall|k: int| 0 <= k < i ==> (#[trigger] clips@[k]).times_ok(),
        decreases clips@.len() - i,
    {
        if !clips[i].has_times_in_range() {
            return false;
        }
        i = i + 1;
    }
    true
}

/// The latest end of the first `n` clips, and not before `floor`.
pub open spec fn latest_end(clips: Seq<Clip>, n: int, floor: int) -> int
    decreases n,
{
    if n <= 0 {
        floor
    } else {
        let before = latest_end(clips, n - 1, floor);
        let t = clips[n - 1].offset + clips[n - 1].duration;
        if t > before {
            t
        } else {
            before
        }
    }
}

/// The latest end of the clips, and not before `floor`.
pub fn clips_end(clips: &Vec<Clip>, floor: i64) -> (e: i64)
    requires
        clip_times_ok(clips@),
    ensures
        e == latest_end(clips@, clips@.len() as int, floor as int),
{
    let mut e: i64 = floor;
    let mut i: usize = 0;
    while i < clips.len()
        invariant
            i <= clips@.len(),
            clip_times_ok(clips@),
            e == latest_end(clips@, i as int, floor as int),
        decreases clips@.len() - i,
    {
        assert(clips@[i as int].times_ok());
        let t: i64 = clips[i].end();
        if t > e {
            e = t;
        }
        i = i + 1;
    }
    e
}

// ---------------------------------------------------------------- projects

/// The latest end of any clip of the first `n` cameras, and not before zero.
pub open spec fn cameras_end(cameras: Seq<Camera>, n: int) -> int
    decreases n,
{
    if n <= 0 {
        0
    } else {
        let clips = cameras[n - 1].clips@;
        latest_end(clips, clips.len() as int, cameras_end(cameras, n - 1))
    }
}

/// Master timeline length: the master recording if present, else the last clip end.
pub open spec fn timeline_length(p: Project, wav: Option<i64>) -> int {
    match wav {
        Some(w) => if w > 0 {
            w as int
        } else {
            cameras_end(p.cameras@, p.cameras@.len() as int)
        },
        None => cameras_end(p.cameras@, p.cameras@.len() as int),
    }
}

impl Project {
    /// All times are in range.
    pub open spec fn times_ok(&self) -> bool {
        forall|c: int| 0 <= c < self.cameras@.len() ==> clip_times_ok(#[trigger] self.cameras@[c].clips@)
    }

    /// Whether all times are in range.
    pub fn has_times_in_range(&self) -> (b: bool)
        ensures
            b == self.times_ok(),
    {
        let mut i: usize = 0;
        while i < self.cameras.len()
            invariant
                i <= self.cameras@.len(),
                forall|c: int| 0 <= c < i ==> clip_times_ok(#[trigger] self.cameras@[c].clips@),
            decreases self.cameras@.len() - i,
        {
            if !clips_in_range(&self.cameras[i].clips) {
                assert(!clip_times_ok(self.cameras@[i as int].clips@));
                return false;
            }
            i = i + 1;
        }
        true
    }

    /// Master timeline length: the master recording if present, else the last
    /// clip end.
    pub fn duration(&self, wav_duration: Option<i64>) -> (d: i64)
        requires
            self.times_ok(),
        ensures
            d == timeline_length(*self, wav_duration),
    {
        let mut e: i64 = 0;
        let mut i: usize = 0;
        while i < self.cameras.len()
            invariant
                i <= self.cameras@.len(),
                self.times_ok(),
                e == cameras_end(self.cameras@, i as int),
            decreases self.cameras@.len() - i,
        {
            assert(clip_times_ok(self.cameras@[i as int].clips@));
            e = clips_end(&self.cameras[i].clips, e);
            i = i + 1;
        }
        match wav_duration {
            Some(w) => if w > 0 {
                w
            } else {
                e
            },
            None => e,
        }
    }

    /// The first clip of `camera` covering master time `t`, if any.
    pub open spec fn is_clip_at(&self, camera: int, t: int, k: int) -> bool {
        &&& 0 <= camera < self.cameras@.len()
        &&& 0 <= k < self.cameras@[camera].clips@.len()
        &&& self.cameras@[camera].clips@[k].covers(t)
        &&& forall|j: int| 0 <= j < k ==> !(#[trigger] self.cameras@[camera].clips@[j]).covers(t)
    }

    /// The clip of `camera` covering master time `t`, if any.
    pub fn clip_at(&self, camera: usize, t: i64) -> (r: Option<(usize, &Clip)>)
        requires
            self.times_ok(),
        ensures
            match r {
                Some((k, c)) => self.is_clip_at(camera as int, t as int, k as int) && *c
                    == self.cameras@[camera as int].clips@[k as int],
                None => forall|k: int| !self.is_clip_at(camera as int, t as int, k),
            },
    {
        if camera >= self.cameras.len() {
            return None;
        }
        let clips: &Vec<Clip> = &self.cameras[camera].clips;
        assert(clip_times_ok(self.cameras@[camera as int].clips@));
        let mut i: usize = 0;
        while i < clips.len()
            invariant
                camera < self.cameras@.len(),
                clips@ == self.cameras@[camera as int].clips@,
                clip_times_ok(clips@),
                i <= clips@.len(),
                forall|j: int| 0 <= j < i ==> !(#[trigger] clips@[j]).covers(t as int),
            decreases clips@.len() - i,
        {
            assert(clips@[i as int].times_ok());
            if t >= clips[i].offset && t < clips[i].end() {
                return Some((i, &clips[i]));
            }
            i = i + 1;
        }
        None
    }

    /// Effective output size honoring the layout orientation.
    pub open spec fn size_of_output(&self) -> (u32, u32) {
        let (w, h) = (self.output.width, self.output.height);
        let long = if w > h {
            w
        } else {
            h
        };
        let short = if w > h {
            h
        } else {
            w
        };
        if self.layout.is_horizontal() {
            (long, short)
        } else {
            (short, long)
        }
    }

    /// Effective output size honoring the layout orientation.
    pub fn output_size(&self) -> (s: (u32, u32))
        ensures
            s == self.size_of_output(),
    {
        let w: u32 = self.output.width;
        let h: u32 = self.output.height;
        let long: u32 = if w > h {
            w
        } else {
            h
        };
        let short: u32 = if w > h {
            h
        } else {
            w
        };
        match self.layout.orientation() {
            Orientation::Horizontal => (long, short),
            Orientation::Vertical => (short, long),
        }
    }
}

pub(crate) proof fn lemma_latest_end(clips: Seq<Clip>, n: int, floor: int, k: int)
    requires
        0 <= n <= clips.len(),
    ensures
        latest_end(clips, n, floor) >= floor,
        0 <= k < n ==> clips[k].offset + clips[k].duration <= latest_end(clips, n, floor),
    decreases n,
{
    if n > 0 {
        lemma_latest_end(clips, n - 1, floor, k);
    }
}

/// Every clip is over by the end of the cameras.
pub proof fn lemma_clips_end_by_duration(cameras: Seq<Camera>, n: int, c: int, k: int)
    requires
        0 <= c < n <= cameras.len(),
        0 <= k < cameras[c].clips@.len(),
    ensures
        cameras[c].clips@[k].offset + cameras[c].clips@[k].duration <= cameras_end(cameras, n),
    decreases n,
{
    let clips = cameras[n - 1].clips@;
    lemma_latest_end(clips, clips.len() as int, cameras_end(cameras, n - 1), k);
    if c < n - 1 {
        lemma_clips_end_by_duration(cameras, n - 1, c, k);
    }
}

/// The output keeps its two edges, whatever the layout; only which of them is
/// the width depends on it.
pub proof fn lemma_output_edges(p: Project)
    ensures
        p.size_of_output() == (p.output.width, p.output.height) || p.size_of_output() == (
            p.output.height,
            p.output.width,
        ),
        p.layout.is_horizontal() ==> p.size_of_output().0 >= p.size_of_output().1,
        !p.layout.is_horizontal() ==> p.size_of_output().0 <= p.size_of_output().1,
{
}

} // verus!
