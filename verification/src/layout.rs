//! Layout presets: three slot rectangles in output coordinates. Later slots are
//! drawn on top of earlier ones (overlays come last).
//!
//! Both edges of the output measure [`FULL`] units, which makes thirds and
//! hundredths exact.

use crate::model::LayoutId;
use vstd::prelude::*;

verus! {

/// Length of either edge of the output.
pub const FULL: i64 = 3_000_000;

/// A rectangle in output coordinates.
#[derive(Debug, Clone, Copy, PartialEq, Eq, Structural)]
pub struct Rect {
    pub x: i64,
    pub y: i64,
    pub w: i64,
    pub h: i64,
}

impl Rect {
    /// A rectangle by its corner and its size.
    pub fn new(x: i64, y: i64, w: i64, h: i64) -> (r: Rect)
        ensures
            r == (Rect { x, y, w, h }),
    {
        Rect { x, y, w, h }
    }

    /// The point is inside: the near edges belong to the rectangle, the far ones do not.
    pub open spec fn holds(self, px: int, py: int) -> bool {
        self.x <= px < self.x + self.w && self.y <= py < self.y + self.h
    }

    /// Whether the point is inside.
    pub fn contains(&self, px: i64, py: i64) -> (b: bool)
        ensures
            b == self.holds(px as int, py as int),
    {
        let right: i128 = self.x as i128 + self.w as i128;
        let bottom: i128 = self.y as i128 + self.h as i128;
        px >= self.x && py >= self.y && (px as i128) < right && (py as i128) < bottom
    }
}

/// A rectangle by its corner and its size.
pub open spec fn rect(x: i64, y: i64, w: i64, h: i64) -> Rect {
    Rect { x, y, w, h }
}

/// The slots of a layout.
pub open spec fn rects(layout: LayoutId) -> Seq<Rect> {
    match layout {
        LayoutId::HThree => seq![
            rect(0, 0, 1_000_000, 3_000_000),
            rect(1_000_000, 0, 1_000_000, 3_000_000),
            rect(2_000_000, 0, 1_000_000, 3_000_000),
        ],
        LayoutId::HBigLeft => seq![
            rect(0, 0, 2_000_000, 3_000_000),
            rect(2_000_000, 0, 1_000_000, 1_500_000),
            rect(2_000_000, 1_500_000, 1_000_000, 1_500_000),
        ],
        LayoutId::HBigCenterPip => seq![
            rect(0, 0, 3_000_000, 3_000_000),
            rect(60_000, 2_040_000, 810_000, 900_000),
            rect(2_130_000, 2_040_000, 810_000, 900_000),
        ],
        LayoutId::VThree => seq![
            rect(0, 0, 3_000_000, 1_000_000),
            rect(0, 1_000_000, 3_000_000, 1_000_000),
            rect(0, 2_000_000, 3_000_000, 1_000_000),
        ],
        LayoutId::VBigTop => seq![
            rect(0, 0, 3_000_000, 2_000_000),
            rect(0, 2_000_000, 1_500_000, 1_000_000),
            rect(1_500_000, 2_000_000, 1_500_000, 1_000_000),
        ],
        LayoutId::VFullPip => seq![
            rect(0, 0, 3_000_000, 3_000_000),
            rect(120_000, 2_400_000, 1_080_000, 510_000),
            rect(1_800_000, 2_400_000, 1_080_000, 510_000),
        ],
    }
}

/// The slots of a layout.
pub fn slot_rects(layout: LayoutId) -> (r: [Rect; 3])
    ensures
        r@ == rects(layout),
{
    let r: [Rect; 3] = match layout {
        LayoutId::HThree => [
            Rect::new(0, 0, 1_000_000, 3_000_000),
            Rect::new(1_000_000, 0, 1_000_000, 3_000_000),
            Rect::new(2_000_000, 0, 1_000_000, 3_000_000),
        ],
        LayoutId::HBigLeft => [
            Rect::new(0, 0, 2_000_000, 3_000_000),
            Rect::new(2_000_000, 0, 1_000_000, 1_500_000),
            Rect::new(2_000_000, 1_500_000, 1_000_000, 1_500_000),
        ],
        LayoutId::HBigCenterPip => [
            Rect::new(0, 0, 3_000_000, 3_000_000),
            Rect::new(60_000, 2_040_000, 810_000, 900_000),
            Rect::new(2_130_000, 2_040_000, 810_000, 900_000),
        ],
        LayoutId::VThree => [
            Rect::new(0, 0, 3_000_000, 1_000_000),
            Rect::new(0, 1_000_000, 3_000_000, 1_000_000),
            Rect::new(0, 2_000_000, 3_000_000, 1_000_000),
        ],
        LayoutId::VBigTop => [
            Rect::new(0, 0, 3_000_000, 2_000_000),
            Rect::new(0, 2_000_000, 1_500_000, 1_000_000),
            Rect::new(1_500_000, 2_000_000, 1_500_000, 1_000_000),
        ],
        LayoutId::VFullPip => [
            Rect::new(0, 0, 3_000_000, 3_000_000),
            Rect::new(120_000, 2_400_000, 1_080_000, 510_000),
            Rect::new(1_800_000, 2_400_000, 1_080_000, 510_000),
        ],
    };
    assert(r@ =~= rects(layout));
    r
}

/// `k` is the topmost slot under a point.
pub open spec fn topmost(layout: LayoutId, px: int, py: int, k: int) -> bool {
    &&& 0 <= k < 3
    &&& rects(layout)[k].holds(px, py)
    &&& forall|j: int| k < j < 3 ==> !(#[trigger] rects(layout)[j]).holds(px, py)
}

/// Topmost slot under a point, if any.
pub fn slot_at(layout: LayoutId, px: i64, py: i64) -> (k: Option<usize>)
    ensures
        match k {
            Some(i) => topmost(layout, px as int, py as int, i as int),
            None => forall|i: int| 0 <= i < 3 ==> !(#[trigger] rects(layout)[i]).holds(px as int, py as int),
        },
{
    let r: [Rect; 3] = slot_rects(layout);
    assert(r@ == rects(layout));
    if r[2].contains(px, py) {
        Some(2)
    } else if r[1].contains(px, py) {
        Some(1)
    } else if r[0].contains(px, py) {
        Some(0)
    } else {
        None
    }
}

/// Slots 1 and 2 are drawn over slot 0.
pub open spec fn has_overlays(layout: LayoutId) -> bool {
    layout == LayoutId::HBigCenterPip || layout == LayoutId::VFullPip
}

/// Every slot lies inside the output and is not empty.
pub proof fn lemma_slots_inside(layout: LayoutId, k: int)
    requires
        0 <= k < 3,
    ensures
        0 <= rects(layout)[k].x,
        0 <= rects(layout)[k].y,
        0 < rects(layout)[k].w,
        0 < rects(layout)[k].h,
        rects(layout)[k].x + rects(layout)[k].w <= FULL,
        rects(layout)[k].y + rects(layout)[k].h <= FULL,
{
}

/// Every point of the output is in a slot, and no point outside it is.
pub proof fn lemma_slots_cover(layout: LayoutId, px: int, py: int)
    ensures
        (exists|k: int| 0 <= k < 3 && (#[trigger] rects(layout)[k]).holds(px, py)) <==> (0 <= px < FULL && 0
            <= py < FULL),
{
    if 0 <= px < FULL && 0 <= py < FULL {
        assert(rects(layout)[0].holds(px, py) || rects(layout)[1].holds(px, py)
            || rects(layout)[2].holds(px, py));
    } else {
        assert(!rects(layout)[0].holds(px, py) && !rects(layout)[1].holds(px, py)
            && !rects(layout)[2].holds(px, py));
    }
}

/// No two slots overlap, but for the overlays, which lie on slot 0 alone.
pub proof fn lemma_slots_disjoint(layout: LayoutId, j: int, k: int, px: int, py: int)
    requires
        0 <= j < k < 3,
        has_overlays(layout) ==> j > 0,
    ensures
        !(rects(layout)[j].holds(px, py) && rects(layout)[k].holds(px, py)),
{
}

/// Overlays win the hit test: a point of an overlay is in no other slot but slot
/// 0, and the overlay is topmost there.
pub proof fn lemma_overlays_win(layout: LayoutId, k: int, px: int, py: int)
    requires
        has_overlays(layout),
        1 <= k < 3,
        rects(layout)[k].holds(px, py),
    ensures
        topmost(layout, px, py, k),
        rects(layout)[0].holds(px, py),
{
    if k == 1 {
        lemma_slots_disjoint(layout, 1, 2, px, py);
    }
}

/// A rectangle with its edges exchanged.
pub open spec fn turned(r: Rect) -> Rect {
    Rect { x: r.y, y: r.x, w: r.h, h: r.w }
}

/// Three side by side: equally wide, from edge to edge, over the full height, the first
/// camera on the left. Three stacked is the same, turned: the first camera is on top.
pub proof fn lemma_three_in_a_row(k: int)
    requires
        0 <= k < 3,
    ensures
        ({
            let r = rects(LayoutId::HThree)[k];
            &&& r.y == 0 && r.h == FULL
            &&& 3 * r.w == FULL
            &&& 3 * r.x == k * FULL
            &&& rects(LayoutId::VThree)[k] == turned(r)
        }),
{
}

/// Big left, two stacked right: slot 0 spans the full height and the left two thirds;
/// slots 1 and 2 begin where it ends, reach the right edge, are equally high, and lie
/// above one another, slot 1 on top. Big top, two below is the same, turned: slot 0
/// spans the full width and the upper two thirds, slots 1 and 2 are side by side below.
pub proof fn lemma_big_slot_and_two_beside(k: int)
    requires
        0 <= k < 3,
    ensures
        ({
            let r = rects(LayoutId::HBigLeft);
            &&& r[0].x == 0 && r[0].y == 0 && r[0].h == FULL
            &&& 3 * r[0].w == 2 * FULL
            &&& r[1].x == r[0].w && r[2].x == r[0].w
            &&& r[1].x + r[1].w == FULL && r[2].x + r[2].w == FULL
            &&& r[1].y == 0 && r[2].y == r[1].h
            &&& r[1].h == r[2].h && r[1].h + r[2].h == FULL
            &&& rects(LayoutId::VBigTop)[k] == turned(r[k])
        }),
        ({
            let r = rects(LayoutId::VBigTop);
            &&& r[0].w == FULL && 3 * r[0].h == 2 * FULL
            &&& r[1].y == r[0].h && r[2].y == r[0].h
            &&& r[1].w == r[2].w && r[1].h == r[2].h
            &&& r[1].x + r[1].w == r[2].x && r[2].x + r[2].w == FULL
        }),
{
}

/// Full picture with two insets: slot 0 is the whole picture; slots 1 and 2 have one
/// size and lie at one height near the lower edge, slot 1 as far from the left edge as
/// slot 2 from the right, with a strip of the picture between them and around them.
pub proof fn lemma_insets_are_mirrored(layout: LayoutId)
    requires
        has_overlays(layout),
    ensures
        ({
            let r = rects(layout);
            &&& r[0].x == 0 && r[0].y == 0 && r[0].w == FULL && r[0].h == FULL
            &&& r[1].w == r[2].w && r[1].h == r[2].h && r[1].y == r[2].y
            &&& r[1].x == FULL - (r[2].x + r[2].w)
            &&& 0 < r[1].x && r[1].x + r[1].w < r[2].x
            &&& 2 * FULL < 3 * r[1].y && r[1].y + r[1].h < FULL
        }),
{
}

/// Where the insets are, in hundredths of the edges: in the wide picture two from the
/// left and the lower edge, twenty-seven wide and thirty high; in the tall one four from
/// the left and three from the lower edge, thirty-six wide and seventeen high.
pub proof fn lemma_inset_sizes()
    ensures
        ({
            let r = rects(LayoutId::HBigCenterPip)[1];
            &&& 100 * r.x == 2 * FULL && 100 * (FULL - (r.y + r.h)) == 2 * FULL
            &&& 100 * r.w == 27 * FULL && 100 * r.h == 30 * FULL
        }),
        ({
            let r = rects(LayoutId::VFullPip)[1];
            &&& 100 * r.x == 4 * FULL && 100 * (FULL - (r.y + r.h)) == 3 * FULL
            &&& 100 * r.w == 36 * FULL && 100 * r.h == 17 * FULL
        }),
{
}

/// No two presets have the same slots.
pub proof fn lemma_presets_differ(a: LayoutId, b: LayoutId)
    requires
        a != b,
    ensures
        rects(a) != rects(b),
{
    let p = rects(a);
    let q = rects(b);
    assert(p[0] != q[0] || p[1] != q[1] || p[2] != q[2]);
}

/// The overlays of a preset are the slots that lie on slot 0: those of the two presets
/// with insets, and of no other.
pub proof fn lemma_overlays_lie_on_slot_zero(layout: LayoutId, k: int)
    requires
        1 <= k < 3,
    ensures
        has_overlays(layout) <==> (layout == LayoutId::HBigCenterPip || layout == LayoutId::VFullPip),
        has_overlays(layout) <==> rects(layout)[0].holds(
            rects(layout)[k].x as int,
            rects(layout)[k].y as int,
        ),
{
}

} // verus!
