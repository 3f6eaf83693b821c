//! Direct manipulation of the slots in the composed preview.

use crate::layout::{slot_rects, Rect, FULL};
use crate::model::{Orientation, Project, Slot};
use crate::sampling::{half_seen, slot_ok};
use crate::text::{decimal, join2, join3, join4, number_text, padded_text};
use crate::units::round_div;
use vstd::prelude::*;

verus! {

/// The camera that a slot shows: one of the three.
pub open spec fn camera_of(slot: Slot) -> int {
    if slot.camera < 2 {
        slot.camera as int
    } else {
        2
    }
}

/// The camera that a slot shows: one of the three.
pub fn slot_camera(slot: Slot) -> (c: usize)
    ensures
        c == camera_of(slot),
        c < 3,
{
    if slot.camera < 2 {
        slot.camera
    } else {
        2
    }
}

/// A pan after a drag by `d` on an edge of `screen`: the picture follows the
/// pointer, as far as half of it.
pub open spec fn dragged(pan: int, d: int, half: int, extent: int, screen: int) -> int {
    crate::units::clamped(
        pan - crate::units::rounded(d * (2 * half) * FULL, extent * screen),
        -500_000,
        500_000,
    )
}

/// A pan after a drag.
fn drag_edge(pan: i64, d: i64, half: i64, extent: i64, screen: i64) -> (p: i64)
    requires
        crate::arrange::in_limit(pan as int),
        -1_000_000_000 <= d <= 1_000_000_000,
        0 <= half <= 500_000,
        0 < extent <= FULL,
        0 < screen <= 1_000_000_000,
    ensures
        p == dragged(pan as int, d as int, half as int, extent as int, screen as int),
        -500_000 <= p <= 500_000,
{
    proof {
        assert(-1_000_000_000 * 1_000_000 <= d * (2 * half) <= 1_000_000_000 * 1_000_000) by (nonlinear_arith)
            requires
                -1_000_000_000 <= d <= 1_000_000_000,
                0 <= half <= 500_000,
        ;
        assert(0 < extent * screen <= 3_000_000 * 1_000_000_000) by (nonlinear_arith)
            requires
                0 < extent <= 3_000_000,
                0 < screen <= 1_000_000_000,
        ;
    }
    let q: i128 = round_div(
        (d as i128) * (2 * (half as i128)) * 3_000_000,
        (extent as i128) * (screen as i128),
    );
    let x: i128 = pan as i128 - q;
    if x < -500_000 {
        -500_000
    } else if x > 500_000 {
        500_000
    } else {
        x as i64
    }
}

/// A slot after a drag by `dx`, `dy` in a preview of `screen` and of `size` pixels.
/// `src` is the size of the camera's picture.
pub open spec fn panned(
    slot: Slot,
    rect: Rect,
    size: (u32, u32),
    src: (u32, u32),
    d: (i64, i64),
    screen: (i64, i64),
) -> Slot {
    let half = half_seen(
        rect,
        size.0 as int,
        size.1 as int,
        src.0 as int,
        src.1 as int,
        slot.zoom as int,
    );
    Slot {
        pan: (
            dragged(slot.pan.0 as int, d.0 as int, half.0, rect.w as int, screen.0 as int) as i64,
            dragged(slot.pan.1 as int, d.1 as int, half.1, rect.h as int, screen.1 as int) as i64,
        ),
        ..slot
    }
}

/// Pans a slot by a drag. Drag and screen sizes are in one unit.
pub fn pan_slot(
    project: &Project,
    k: usize,
    size: (u32, u32),
    src: (u32, u32),
    d: (i64, i64),
    screen: (i64, i64),
) -> (s: Slot)
    requires
        k < 3,
        slot_ok(project.slots@[k as int]),
        size.0 > 0,
        -1_000_000_000 <= d.0 <= 1_000_000_000,
        -1_000_000_000 <= d.1 <= 1_000_000_000,
        0 < screen.0 <= 1_000_000_000,
        0 < screen.1 <= 1_000_000_000,
    ensures
        s == panned(
            project.slots@[k as int],
            crate::layout::rects(project.layout)[k as int],
            size,
            src,
            d,
            screen,
        ),
        slot_ok(s),
{
    let rects: [Rect; 3] = slot_rects(project.layout);
    let rect: Rect = rects[k];
    let slot: Slot = project.slots[k];
    proof {
        crate::layout::lemma_slots_inside(project.layout, k as int);
    }
    let half: (i64, i64) = crate::sampling::half_visible(rect, size.0, size.1, src.0, src.1, slot.zoom);
    let px: i64 = drag_edge(slot.pan.0, d.0, half.0, rect.w, screen.0);
    let py: i64 = drag_edge(slot.pan.1, d.1, half.1, rect.h, screen.1);
    Slot { camera: slot.camera, zoom: slot.zoom, pan: (px, py) }
}

/// A zoom after a turn of the wheel by `scroll` thousandths of a pixel: two
/// thousandths per pixel, from cover-fit to four times that.
pub open spec fn scrolled(zoom: int, scroll: int) -> int {
    crate::units::clamped(
        crate::units::rounded(zoom * (1_000_000 + 2 * scroll), 1_000_000),
        1_000_000,
        4_000_000,
    )
}

/// Zooms a slot with the wheel.
pub fn zoom_slot(slot: Slot, scroll: i64) -> (s: Slot)
    requires
        slot_ok(slot),
        -1_000_000_000 <= scroll <= 1_000_000_000,
    ensures
        s == (Slot { zoom: scrolled(slot.zoom as int, scroll as int) as i64, ..slot }),
        slot_ok(s),
{
    proof {
        assert(-400_000_000_000 * 3_000_000_000 <= slot.zoom * (1_000_000 + 2 * scroll) <= 400_000_000_000
            * 3_000_000_000) by (nonlinear_arith)
            requires
                0 <= slot.zoom <= 400_000_000_000,
                -3_000_000_000 <= 1_000_000 + 2 * scroll <= 3_000_000_000,
        ;
    }
    let q: i128 = round_div((slot.zoom as i128) * (1_000_000 + 2 * (scroll as i128)), 1_000_000);
    let zoom: i64 = if q < 1_000_000 {
        1_000_000
    } else if q > 4_000_000 {
        4_000_000
    } else {
        q as i64
    };
    Slot { camera: slot.camera, zoom, pan: slot.pan }
}

/// What is shown of a zoom: nothing at cover-fit, else its factor.
pub open spec fn zoom_text(zoom: int) -> Seq<char> {
    if zoom > 1_001_000 {
        let c = crate::units::even_rounded(zoom, 10_000);
        "  "@ + decimal((c / 100) as nat) + "."@ + crate::text::padded((c % 100) as nat, 2) + "x"@
    } else {
        Seq::empty()
    }
}

/// The label of a slot: its camera's name and the zoom.
pub fn slot_label(name: &str, slot: Slot) -> (s: String)
    requires
        slot_ok(slot),
    ensures
        s@ == name@ + zoom_text(slot.zoom as int),
{
    if slot.zoom > 1_001_000 {
        let c: i128 = crate::units::round_even(slot.zoom as i128, 10_000);
        proof {
            crate::units::lemma_even_near(slot.zoom as int, 10_000);
        }
        let a: String = number_text((c / 100) as u64);
        let b: String = padded_text((c % 100) as u64, 2);
        let head: String = join4("  ", a.as_str(), ".", b.as_str());
        let s: String = join3(name, head.as_str(), "x");
        assert(s@ =~= name@ + zoom_text(slot.zoom as int));
        s
    } else {
        let s: String = name.to_owned();
        assert(s@ =~= name@ + zoom_text(slot.zoom as int));
        s
    }
}

/// The caption of the preview.
pub fn preview_caption(o: Orientation, width: u32, height: u32) -> (s: String)
    ensures
        s@ == (match o {
            Orientation::Horizontal => "16:9"@,
            Orientation::Vertical => "9:16"@,
        }) + " · "@ + decimal(width as nat) + "x"@ + decimal(height as nat) + " preview"@,
{
    let hint: &str = match o {
        Orientation::Horizontal => "16:9",
        Orientation::Vertical => "9:16",
    };
    let w: String = number_text(width as u64);
    let h: String = number_text(height as u64);
    let head: String = join4(hint, " · ", w.as_str(), "x");
    let s: String = join3(head.as_str(), h.as_str(), " preview");
    assert(s@ =~= (match o {
        Orientation::Horizontal => "16:9"@,
        Orientation::Vertical => "9:16"@,
    }) + " · "@ + decimal(width as nat) + "x"@ + decimal(height as nat) + " preview"@);
    s
}

/// How a slot's outline is drawn.
#[derive(Debug, Clone, Copy, PartialEq, Eq, Structural)]
pub enum Outline {
    /// Under the pointer.
    Active,
    /// Its camera is the one that is graded.
    Selected,
    Plain,
}

/// How the outline of slot `k` is drawn.
pub fn outline(k: usize, slot: Slot, hovered: Option<usize>, held: Option<usize>, selected: usize, grading: bool) -> (o:
    Outline)
    ensures
        o == if hovered == Some(k) || held == Some(k) {
            Outline::Active
        } else if camera_of(slot) == selected && grading {
            Outline::Selected
        } else {
            Outline::Plain
        },
{
    let here: bool = match hovered {
        Some(h) => h == k,
        None => false,
    };
    let drag: bool = match held {
        Some(h) => h == k,
        None => false,
    };
    if here || drag {
        Outline::Active
    } else if slot_camera(slot) == selected && grading {
        Outline::Selected
    } else {
        Outline::Plain
    }
}

/// Panning and zooming keep a slot showable, whatever is dragged or scrolled.
pub proof fn lemma_slot_stays_ok(slot: Slot, scroll: int)
    requires
        slot_ok(slot),
    ensures
        1_000_000 <= scrolled(slot.zoom as int, scroll) <= 4_000_000,
{
}

} // verus!
