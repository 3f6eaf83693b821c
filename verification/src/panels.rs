//! What the side panel offers and shows.

use crate::model::{last_part_range, Camera, Clip, Codec, Grade, LayoutId, Orientation, Project, Rate, Slot};
use crate::text::{chars_of, decimal, fixed_text, join2, join3, join4, number_text, padded_text, wide_text};
use crate::units::round_even;
use vstd::prelude::*;

verus! {

// ---------------------------------------------------------------- layouts

/// The layouts in menu order.
pub open spec fn menu() -> Seq<LayoutId> {
    seq![
        LayoutId::HThree,
        LayoutId::HBigLeft,
        LayoutId::HBigCenterPip,
        LayoutId::VThree,
        LayoutId::VBigTop,
        LayoutId::VFullPip,
    ]
}

/// The layouts that are made for an orientation, in menu order.
pub fn layouts_for(o: Orientation) -> (v: [LayoutId; 3])
    ensures
        v@ == match o {
            Orientation::Horizontal => menu().take(3),
            Orientation::Vertical => menu().skip(3),
        },
        forall|l: LayoutId| #[trigger] v@.contains(l) <==> l.is_horizontal() == (o == Orientation::Horizontal),
{
    let all: [LayoutId; 6] = LayoutId::all();
    let v: [LayoutId; 3] = match o {
        Orientation::Horizontal => [all[0], all[1], all[2]],
        Orientation::Vertical => [all[3], all[4], all[5]],
    };
    proof {
        assert(v@ =~= match o {
            Orientation::Horizontal => menu().take(3),
            Orientation::Vertical => menu().skip(3),
        });
        assert forall|l: LayoutId| #[trigger] v@.contains(l) <==> l.is_horizontal() == (o
            == Orientation::Horizontal) by {
            assert(v@.len() == 3);
            if v@.contains(l) {
                let i = choose|i: int| 0 <= i < 3 && v@[i] == l;
                assert(i == 0 || i == 1 || i == 2);
            }
            if l.is_horizontal() == (o == Orientation::Horizontal) {
                assert(v@[0] == l || v@[1] == l || v@[2] == l);
            }
        }
    }
    v
}

/// The layout after an orientation was picked: the same where it fits, else the
/// first that does.
pub fn turned(layout: LayoutId, o: Orientation) -> (l: LayoutId)
    ensures
        l.is_horizontal() == (o == Orientation::Horizontal),
        l == if layout.is_horizontal() == (o == Orientation::Horizontal) {
            layout
        } else if o == Orientation::Horizontal {
            LayoutId::HThree
        } else {
            LayoutId::VThree
        },
{
    if layout.orientation() == o {
        layout
    } else {
        let fitting: [LayoutId; 3] = layouts_for(o);
        fitting[0]
    }
}

// ---------------------------------------------------------------- slots

/// The slots with their cameras moved on by one place.
pub open spec fn moved_on(s: Seq<Slot>) -> Seq<Slot> {
    seq![
        Slot { camera: s[2].camera, ..s[0] },
        Slot { camera: s[0].camera, ..s[1] },
        Slot { camera: s[1].camera, ..s[2] },
    ]
}

/// Moves the cameras on by one place. Zoom and pan stay with the slot.
pub fn rotate_cameras(s: [Slot; 3]) -> (r: [Slot; 3])
    ensures
        r@ == moved_on(s@),
{
    let a: Slot = Slot { camera: s[2].camera, zoom: s[0].zoom, pan: s[0].pan };
    let b: Slot = Slot { camera: s[0].camera, zoom: s[1].zoom, pan: s[1].pan };
    let c: Slot = Slot { camera: s[1].camera, zoom: s[2].zoom, pan: s[2].pan };
    let r: [Slot; 3] = [a, b, c];
    assert(r@ =~= moved_on(s@));
    r
}

/// Moving the cameras on three times changes nothing.
pub proof fn lemma_three_rotations(s: Seq<Slot>)
    requires
        s.len() == 3,
    ensures
        moved_on(moved_on(moved_on(s))) == s,
{
    assert(moved_on(moved_on(moved_on(s))) =~= s);
}

/// The slot with the next camera.
pub fn next_camera(s: Slot) -> (r: Slot)
    ensures
        r == (Slot { camera: ((crate::preview::camera_of(s) + 1) % 3) as usize, ..s }),
{
    let c: usize = crate::preview::slot_camera(s);
    Slot {
        camera: if c == 2 {
            0
        } else {
            c + 1
        },
        zoom: s.zoom,
        pan: s.pan,
    }
}

/// The slot, cover-fit.
pub fn reset_slot(s: Slot) -> (r: Slot)
    ensures
        r == Slot::plain(s.camera),
{
    Slot { camera: s.camera, zoom: 1_000_000, pan: (0, 0) }
}

// ---------------------------------------------------------------- grades

/// Gives all cameras the same grade.
pub fn copy_grade(project: &mut Project, g: Grade)
    ensures
        crate::app::only_cameras(*final(project), *old(project)),
        forall|c: int|
            0 <= c < old(project).cameras@.len() ==> #[trigger] final(project).cameras@[c] == (Camera {
                grade: g,
                ..old(project).cameras@[c]
            }),
{
    let ghost was = *project;
    let mut c: usize = 0;
    while c < project.cameras.len()
        invariant
            crate::app::only_cameras(*project, was),
            c <= project.cameras@.len(),
            forall|j: int| c <= j < was.cameras@.len() ==> #[trigger] project.cameras@[j] == was.cameras@[j],
            forall|j: int|
                0 <= j < c ==> #[trigger] project.cameras@[j] == (Camera { grade: g, ..was.cameras@[j] }),
        decreases project.cameras@.len() - c,
    {
        project.cameras[c].grade = g;
        c = c + 1;
    }
}

// ---------------------------------------------------------------- output

/// A size with a name.
#[derive(Debug, Clone, Copy)]
pub struct Resolution {
    pub name: &'static str,
    pub width: u32,
    pub height: u32,
}

/// The sizes that are offered.
pub fn resolutions() -> (v: [Resolution; 3])
    ensures
        v@[0].name@ == "1080p"@ && v@[0].width == 1920 && v@[0].height == 1080,
        v@[1].name@ == "1440p"@ && v@[1].width == 2560 && v@[1].height == 1440,
        v@[2].name@ == "4K"@ && v@[2].width == 3840 && v@[2].height == 2160,
{
    [
        Resolution { name: "1080p", width: 1920, height: 1080 },
        Resolution { name: "1440p", width: 2560, height: 1440 },
        Resolution { name: "4K", width: 3840, height: 2160 },
    ]
}

/// The name of a size.
pub fn resolution_name(width: u32, height: u32) -> (s: &'static str)
    ensures
        s@ == if width == 1920 && height == 1080 {
            "1080p"@
        } else if width == 2560 && height == 1440 {
            "1440p"@
        } else if width == 3840 && height == 2160 {
            "4K"@
        } else {
            "custom"@
        },
{
    let v: [Resolution; 3] = resolutions();
    let mut i: usize = 0;
    while i < 3
        invariant
            i <= 3,
            v@[0].name@ == "1080p"@ && v@[0].width == 1920 && v@[0].height == 1080,
            v@[1].name@ == "1440p"@ && v@[1].width == 2560 && v@[1].height == 1440,
            v@[2].name@ == "4K"@ && v@[2].width == 3840 && v@[2].height == 2160,
            forall|j: int| 0 <= j < i ==> !((#[trigger] v@[j]).width == width && v@[j].height == height),
        decreases 3 - i,
    {
        if v[i].width == width && v[i].height == height {
            assert(i == 0 || i == 1 || i == 2);
            return v[i].name;
        }
        i = i + 1;
    }
    assert(!(v@[0].width == width && v@[0].height == height));
    assert(!(v@[1].width == width && v@[1].height == height));
    assert(!(v@[2].width == width && v@[2].height == height));
    "custom"
}

/// The frame rates that are offered.
pub fn frame_rates() -> (v: [Rate; 7])
    ensures
        v@ == seq![
            Rate { num: 24, den: 1 },
            Rate { num: 25, den: 1 },
            Rate { num: 2997, den: 100 },
            Rate { num: 30, den: 1 },
            Rate { num: 50, den: 1 },
            Rate { num: 5994, den: 100 },
            Rate { num: 60, den: 1 },
        ],
        forall|i: int| 0 <= i < 7 ==> (#[trigger] v@[i]).ok(),
{
    [
        Rate { num: 24, den: 1 },
        Rate { num: 25, den: 1 },
        Rate { num: 2997, den: 100 },
        Rate { num: 30, den: 1 },
        Rate { num: 50, den: 1 },
        Rate { num: 5994, den: 100 },
        Rate { num: 60, den: 1 },
    ]
}

/// What the quality setting means for an encoder.
pub fn quality_label(c: Codec) -> (s: &'static str)
    ensures
        s@ == match c {
            Codec::H264Software | Codec::H265Software => "CRF (lower = better, 18 is visually lossless)"@,
            Codec::H264Vaapi | Codec::H265Vaapi => "QP (lower = better)"@,
            Codec::H264VideoToolbox | Codec::H265VideoToolbox =>
                "quality (unused for VideoToolbox, bitrate is automatic)"@,
        },
{
    match c {
        Codec::H264Software | Codec::H265Software => "CRF (lower = better, 18 is visually lossless)",
        Codec::H264Vaapi | Codec::H265Vaapi => "QP (lower = better)",
        Codec::H264VideoToolbox | Codec::H265VideoToolbox =>
            "quality (unused for VideoToolbox, bitrate is automatic)",
    }
}

/// Whether an export can start.
pub fn can_export(running: bool, has_path: bool, duration: i64) -> (b: bool)
    ensures
        b == (!running && has_path && duration > 0),
{
    !running && has_path && duration > 0
}

// ---------------------------------------------------------------- texts

/// The name in the menu bar: the project file's, with a star while there are
/// changes that are not saved.
pub open spec fn title_of(path: Option<Seq<char>>, dirty: bool) -> Seq<char> {
    let name = match path {
        Some(p) => match crate::model::last_part(p) {
            Some(n) => n,
            None => "untitled"@,
        },
        None => "untitled"@,
    };
    name + if dirty {
        " *"@
    } else {
        ""@
    }
}

/// The name in the menu bar.
pub fn title(path: &Option<String>, dirty: bool) -> (s: String)
    ensures
        s@ == title_of(crate::probe::text_of(*path), dirty),
{
    let name: String = match path {
        Some(p) => {
            let v: Vec<char> = chars_of(p.as_str());
            match last_part_range(&v) {
                Some((a, b)) => p.as_str().substring_char(a, b).to_owned(),
                None => "untitled".to_owned(),
            }
        },
        None => "untitled".to_owned(),
    };
    join2(
        name.as_str(),
        if dirty {
            " *"
        } else {
            ""
        },
    )
}

/// The lengths of the first `n` clips together.
pub open spec fn total_length(clips: Seq<Clip>, n: int) -> int
    decreases n,
{
    if n <= 0 {
        0
    } else {
        total_length(clips, n - 1) + clips[n - 1].duration
    }
}

/// How many clips a camera has, and how long they are together.
pub open spec fn summary_of(clips: Seq<Clip>) -> Seq<char> {
    decimal(clips.len()) + " clips, "@ + crate::text::signed(
        crate::units::even_rounded(total_length(clips, clips.len() as int), 1_000_000),
    ) + "s"@
}

/// How many clips a camera has, and how long they are together; `None` where the
/// length is out of range.
pub fn camera_summary(c: &Camera) -> (s: Option<String>)
    ensures
        match s {
            Some(t) => t@ == summary_of(c.clips@),
            None => !crate::arrange::in_limit(total_length(c.clips@, c.clips@.len() as int)),
        },
{
    let n: usize = c.clips.len();
    let mut sum: i128 = 0;
    let mut i: usize = 0;
    while i < n
        invariant
            n == c.clips@.len(),
            i <= n,
            sum == total_length(c.clips@, i as int),
            -i * 0x8000_0000_0000_0000 <= sum <= i * 0x8000_0000_0000_0000,
        decreases n - i,
    {
        sum = sum + c.clips[i].duration as i128;
        i = i + 1;
    }
    if sum < -(crate::arrange::TIME_LIMIT as i128) || sum > crate::arrange::TIME_LIMIT as i128 {
        return None;
    }
    let seconds: i64 = round_even(sum, 1_000_000) as i64;
    let count: String = number_text(n as u64);
    let length: String = crate::text::signed_text(seconds);
    Some(join4(count.as_str(), " clips, ", length.as_str(), "s"))
}

/// Size, rate and range of a clip's pictures.
pub open spec fn format_of(c: Clip) -> Seq<char> {
    let r = crate::units::even_rounded(c.fps.num * 100, c.fps.den as int);
    decimal(c.width as nat) + "x"@ + decimal(c.height as nat) + " @ "@ + decimal((r / 100) as nat) + "."@
        + crate::text::padded((r % 100) as nat, 2) + " fps"@ + if c.hdr {
        " HDR"@
    } else {
        ""@
    }
}

/// Size, rate and range of a clip's pictures.
pub fn clip_format(c: &Clip) -> (s: String)
    requires
        c.fps.num >= 0,
        c.fps.den > 0,
    ensures
        s@ == format_of(*c),
{
    let r: i128 = round_even((c.fps.num as i128) * 100, c.fps.den as i128);
    proof {
        let n = c.fps.num * 100;
        let d = c.fps.den as int;
        crate::units::lemma_even_near(n, d);
        assert(0 <= r) by (nonlinear_arith)
            requires
                -d <= 2 * (n - r * d) <= d,
                0 <= n,
                d > 0,
        ;
    }
    let w: String = number_text(c.width as u64);
    let h: String = number_text(c.height as u64);
    let a: String = wide_text((r / 100) as u128);
    let b: String = padded_text((r % 100) as u64, 2);
    let size: String = join4(w.as_str(), "x", h.as_str(), " @ ");
    let rate: String = join4(size.as_str(), a.as_str(), ".", b.as_str());
    join3(
        rate.as_str(),
        " fps",
        if c.hdr {
            " HDR"
        } else {
            ""
        },
    )
}

/// What is shown while the pointer is over a clip.
pub fn clip_hint(c: &Clip) -> (s: String)
    requires
        c.times_ok(),
    ensures
        s@ == crate::model::file_name_of(c.path@) + "\noffset "@ + crate::text::fixed_to(c.offset as int, 3)
            + "s, "@ + crate::text::fixed_to(c.duration as int, 1)
            + "s long\ndrag to nudge, Shift+drag moves all clips of this camera"@,
{
    let name: String = c.file_name();
    let offset: String = fixed_text(c.offset, 3);
    let length: String = fixed_text(c.duration, 1);
    let s: String = join4(name.as_str(), "\noffset ", offset.as_str(), "s, ");
    join3(
        s.as_str(),
        length.as_str(),
        "s long\ndrag to nudge, Shift+drag moves all clips of this camera",
    )
}

} // verus!
