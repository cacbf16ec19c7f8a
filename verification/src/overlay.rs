//! Placing a badge over an icon frame: where its top-left corner goes for
//! each anchor, kept inside the frame and a margin away from its edges
//! where there is room; and the badge's rendered pixels in RGBA order.

use vstd::prelude::*;

verus! {

/// Where on the frame the badge goes.
#[derive(Clone, Copy, Debug, PartialEq, Eq, Structural)]
pub enum Anchor {
    TopLeft,
    TopRight,
    BottomLeft,
    BottomRight,
    Center,
}

/// `a - b`, or zero where `b` is larger.
pub open spec fn sat_sub(a: int, b: int) -> int {
    if a > b {
        a - b
    } else {
        0
    }
}

/// The smaller of two integers.
pub open spec fn min_int(a: int, b: int) -> int {
    if a <= b {
        a
    } else {
        b
    }
}

/// The badge's top-left corner: along each axis the room left is the frame
/// less the badge (none if the badge is larger); a near edge puts the badge
/// `margin` in, at most that room; a far edge puts it `margin` short of the
/// room, at least at zero; the centre puts it at half the room, rounded
/// down.
pub open spec fn anchored_position_spec(
    canvas_width: int,
    canvas_height: int,
    overlay_width: int,
    overlay_height: int,
    margin: int,
    anchor: Anchor,
) -> (int, int) {
    let max_x = sat_sub(canvas_width, overlay_width);
    let max_y = sat_sub(canvas_height, overlay_height);
    let left = min_int(margin, max_x);
    let top = min_int(margin, max_y);
    let right = sat_sub(max_x, margin);
    let bottom = sat_sub(max_y, margin);
    match anchor {
        Anchor::TopLeft => (left, top),
        Anchor::TopRight => (right, top),
        Anchor::BottomLeft => (left, bottom),
        Anchor::BottomRight => (right, bottom),
        Anchor::Center => (max_x / 2, max_y / 2),
    }
}

/// The badge's top-left corner on the frame, as `anchored_position_spec`
/// says.
pub fn anchored_position(
    canvas_width: u32,
    canvas_height: u32,
    overlay_width: u32,
    overlay_height: u32,
    margin: u32,
    anchor: Anchor,
) -> (r: (u32, u32))
    ensures
        (r.0 as int, r.1 as int) == anchored_position_spec(
            canvas_width as int,
            canvas_height as int,
            overlay_width as int,
            overlay_height as int,
            margin as int,
            anchor,
        ),
{
    let max_x = canvas_width.saturating_sub(overlay_width);
    let max_y = canvas_height.saturating_sub(overlay_height);
    let left = if margin <= max_x {
        margin
    } else {
        max_x
    };
    let top = if margin <= max_y {
        margin
    } else {
        max_y
    };
    let right = max_x.saturating_sub(margin);
    let bottom = max_y.saturating_sub(margin);
    let center_x = max_x / 2;
    let center_y = max_y / 2;
    match anchor {
        Anchor::TopLeft => (left, top),
        Anchor::TopRight => (right, top),
        Anchor::BottomLeft => (left, bottom),
        Anchor::BottomRight => (right, bottom),
        Anchor::Center => (center_x, center_y),
    }
}

/// Wherever it is anchored, a badge no larger than the frame lies wholly
/// inside it.
pub proof fn lemma_badge_inside_frame(
    canvas_width: int,
    canvas_height: int,
    overlay_width: int,
    overlay_height: int,
    margin: int,
    anchor: Anchor,
)
    requires
        0 <= overlay_width <= canvas_width,
        0 <= overlay_height <= canvas_height,
        0 <= margin,
    ensures
        ({
            let (x, y) = anchored_position_spec(
                canvas_width,
                canvas_height,
                overlay_width,
                overlay_height,
                margin,
                anchor,
            );
            &&& 0 <= x && x + overlay_width <= canvas_width
            &&& 0 <= y && y + overlay_height <= canvas_height
        }),
{
}

/// Where the frame leaves room for the badge and the margin on both sides
/// of an axis, an edge anchor keeps exactly `margin` between the badge and
/// that edge.
pub proof fn lemma_margin_kept_where_there_is_room(
    canvas_width: int,
    canvas_height: int,
    overlay_width: int,
    overlay_height: int,
    margin: int,
)
    requires
        0 <= overlay_width,
        0 <= overlay_height,
        0 <= margin,
        overlay_width + 2 * margin <= canvas_width,
        overlay_height + 2 * margin <= canvas_height,
    ensures
        anchored_position_spec(
            canvas_width,
            canvas_height,
            overlay_width,
            overlay_height,
            margin,
            Anchor::TopLeft,
        ) == (margin, margin),
        anchored_position_spec(
            canvas_width,
            canvas_height,
            overlay_width,
            overlay_height,
            margin,
            Anchor::BottomRight,
        ) == (canvas_width - overlay_width - margin, canvas_height - overlay_height - margin),
{
}

/// Each whole four-byte pixel of `data` with its first and third bytes
/// exchanged (blue, green, red, alpha to red, green, blue, alpha); bytes
/// after the last whole pixel are left out.
pub open spec fn swapped_red_blue(data: Seq<u8>) -> Seq<u8> {
    Seq::new(
        ((data.len() / 4) * 4) as nat,
        |i: int|
            if i % 4 == 3 {
                data[i]
            } else {
                data[(i / 4) * 4 + 2 - i % 4]
            },
    )
}

/// The pixels of `data` with red and blue exchanged, as `swapped_red_blue`
/// says.
pub fn swap_red_and_blue(data: &[u8]) -> (r: Vec<u8>)
    ensures
        r@ == swapped_red_blue(data@),
{
    let mut out: Vec<u8> = Vec::new();
    let len = data.len();
    let pixels = len / 4;
    let mut p: usize = 0;
    while p < pixels
        invariant
            len == data@.len(),
            pixels == data@.len() / 4,
            p <= pixels,
            out@.len() == p * 4,
            forall|i: int| 0 <= i < p * 4 ==> #[trigger] out@[i] == swapped_red_blue(data@)[i],
        decreases pixels - p,
    {
        assert(p * 4 + 4 <= len) by (nonlinear_arith)
            requires
                p < pixels,
                pixels == len / 4,
        ;
        let base = p * 4;
        out.push(data[base + 2]);
        out.push(data[base + 1]);
        out.push(data[base]);
        out.push(data[base + 3]);
        proof {
            assert forall|i: int| 0 <= i < (p + 1) * 4 implies #[trigger] out@[i] == swapped_red_blue(
                data@,
            )[i] by {
                if i >= p * 4 {
                    assert(i / 4 == p as int);
                }
            }
        }
        p += 1;
    }
    assert(out@ =~= swapped_red_blue(data@));
    out
}

} // verus!
