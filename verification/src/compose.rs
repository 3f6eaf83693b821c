//! What the compositor draws: where each slot lies, what it shows and how, and the
//! rows of pictures that come back from it.

use crate::layout::{slot_rects, Rect};
use crate::model::{Grade, Project};
use crate::preview::slot_camera;
use vstd::prelude::*;

verus! {

/// One slot.
#[derive(Debug, Clone, Copy)]
pub struct SlotData {
    pub rect: Rect,
    pub zoom: i64,
    pub pan: (i64, i64),
    /// One of the three cameras.
    pub camera: usize,
}

/// All that the compositor draws.
#[derive(Debug)]
pub struct Uniforms {
    pub width: u32,
    pub height: u32,
    pub slots: Vec<SlotData>,
    /// One grade per camera.
    pub grades: Vec<Grade>,
    /// Sizes of the cameras' pictures.
    pub sources: Vec<Option<(u32, u32)>>,
}

/// Slot `k` of a project.
pub open spec fn slot_data(project: Project, k: int) -> SlotData {
    SlotData {
        rect: crate::layout::rects(project.layout)[k],
        zoom: project.slots@[k].zoom,
        pan: project.slots@[k].pan,
        camera: crate::preview::camera_of(project.slots@[k]) as usize,
    }
}

/// The grade of camera `c`, neutral where there is no such camera or where no grade
/// is to be shown.
pub open spec fn grade_at(project: Project, c: int, original: bool) -> Grade {
    if c < project.cameras@.len() && !original {
        project.cameras@[c].grade
    } else {
        Grade::neutral()
    }
}

impl Uniforms {
    /// What the compositor draws of a project; `original` leaves the grades out.
    pub fn from_project(
        project: &Project,
        width: u32,
        height: u32,
        sources: [Option<(u32, u32)>; 3],
        original: bool,
    ) -> (c: Uniforms)
        ensures
            c.width == width,
            c.height == height,
            c.slots@.len() == 3,
            forall|k: int| 0 <= k < 3 ==> #[trigger] c.slots@[k] == slot_data(*project, k),
            c.grades@.len() == 3,
            forall|k: int| 0 <= k < 3 ==> #[trigger] c.grades@[k] == grade_at(*project, k, original),
            c.sources@ == sources@,
    {
        let rects: [Rect; 3] = slot_rects(project.layout);
        let mut slots: Vec<SlotData> = Vec::new();
        let mut grades: Vec<Grade> = Vec::new();
        let mut list: Vec<Option<(u32, u32)>> = Vec::new();
        let mut k: usize = 0;
        while k < 3
            invariant
                k <= 3,
                rects@ == crate::layout::rects(project.layout),
                slots@.len() == k,
                grades@.len() == k,
                list@.len() == k,
                forall|j: int| 0 <= j < k ==> #[trigger] slots@[j] == slot_data(*project, j),
                forall|j: int| 0 <= j < k ==> #[trigger] grades@[j] == grade_at(*project, j, original),
                forall|j: int| 0 <= j < k ==> #[trigger] list@[j] == sources@[j],
            decreases 3 - k,
        {
            let s: crate::model::Slot = project.slots[k];
            slots.push(SlotData { rect: rects[k], zoom: s.zoom, pan: s.pan, camera: slot_camera(s) });
            let g: Grade = if k < project.cameras.len() && !original {
                project.cameras[k].grade
            } else {
                Grade::default()
            };
            grades.push(g);
            list.push(sources[k]);
            k = k + 1;
        }
        assert(list@ =~= sources@);
        Uniforms { width, height, slots, grades, sources: list }
    }
}

/// Bytes from one row to the next in a picture that is read back: rows start at
/// multiples of 256 bytes.
pub open spec fn row_pitch(width: int) -> int {
    ((width * 4 + 255) / 256) * 256
}

/// Bytes from one row to the next in a picture that is read back.
pub fn padded_row(width: u32) -> (n: u32)
    requires
        width <= 0x1000_0000,
    ensures
        n == row_pitch(width as int),
        n >= width * 4,
{
    ((width * 4 + 255) / 256) * 256
}

/// The rows of a picture, without what is between them.
pub fn unpad(data: &Vec<u8>, width: u32, height: u32) -> (out: Vec<u8>)
    requires
        width <= 0x1000_0000,
        row_pitch(width as int) * height <= data@.len(),
    ensures
        out@.len() == width * 4 * height,
        forall|y: int, x: int|
            0 <= y < height && 0 <= x < width * 4 ==> out@[#[trigger] pixel_at(width as int * 4, x, y)]
                == data@[pixel_at(row_pitch(width as int), x, y)],
{
    let row: usize = (width * 4) as usize;
    let pitch: usize = padded_row(width) as usize;
    let ghost len = data@.len() as int;
    let total: usize = data.len();
    let mut out: Vec<u8> = Vec::new();
    let mut y: u32 = 0;
    let mut from: usize = 0;
    proof {
        assert(row * 0 == 0 && pitch * 0 == 0) by (nonlinear_arith);
    }
    while y < height
        invariant
            width <= 0x1000_0000,
            row == width * 4,
            pitch == row_pitch(width as int),
            row <= pitch,
            y <= height,
            total == data@.len(),
            pitch * height <= total,
            from == pitch * y,
            out@.len() == row * y,
            forall|v: int, x: int|
                0 <= v < y && 0 <= x < row ==> out@[#[trigger] pixel_at(row as int, x, v)]
                    == data@[pixel_at(pitch as int, x, v)],
        decreases height - y,
    {
        proof {
            assert(from + pitch <= total) by (nonlinear_arith)
                requires
                    from == pitch * y,
                    pitch * height <= total,
                    y + 1 <= height,
                    pitch >= 0,
            ;
        }
        let ghost done = out@;
        let mut x: usize = 0;
        while x < row
            invariant
                x <= row,
                row <= pitch,
                total == data@.len(),
                from + pitch <= total,
                done.len() == row * y,
                out@.len() == row * y + x,
                forall|i: int| 0 <= i < done.len() ==> #[trigger] out@[i] == done[i],
                forall|i: int| 0 <= i < x ==> out@[row * y + i] == #[trigger] data@[from + i],
            decreases row - x,
        {
            out.push(data[from + x]);
            x = x + 1;
        }
        proof {
            assert(row * (y + 1) == row * y + row && pitch * (y + 1) == pitch * y + pitch) by (nonlinear_arith);
            assert forall|v: int, u: int| 0 <= v < y + 1 && 0 <= u < row implies out@[#[trigger] pixel_at(
                row as int,
                u,
                v,
            )] == data@[pixel_at(pitch as int, u, v)] by {
                if v < y {
                    assert(pixel_at(row as int, u, v) < row * y && 0 <= pixel_at(row as int, u, v)) by (nonlinear_arith)
                        requires
                            pixel_at(row as int, u, v) == row * v + u,
                            0 <= u < row,
                            0 <= v,
                            v + 1 <= y,
                    ;
                    assert(done[pixel_at(row as int, u, v)] == out@[pixel_at(row as int, u, v)]);
                } else {
                    assert(out@[row * y + u] == data@[from + u]);
                }
            }
        }
        from = from + pitch;
        y = y + 1;
    }
    out
}

/// Place of byte `x` of row `y`.
pub open spec fn pixel_at(pitch: int, x: int, y: int) -> int {
    pitch * y + x
}

} // verus!
