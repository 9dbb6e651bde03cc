//! Which chunks a view of the world shows.
//!
//! The view is given in screen units, `CELL_SCALE` of them to a cell. It is
//! widened by a fixed margin, so that chunks are ready before they scroll into
//! sight, and the range of the chunks that meet the widened view is returned.

use vstd::prelude::*;

verus! {

/// Screen units per cell.
pub const CELL_SCALE: i64 = 4;

/// Screen units per chunk: `CHUNK_SIZE * CELL_SCALE`.
pub const CHUNK_SPAN: i64 = 64;

/// Margin added to the view on the x axis, in screen units.
pub const MARGIN_X: i64 = 64;

/// Margin added to the view on the y axis, in screen units.
pub const MARGIN_Y: i64 = 128;

/// A range of chunk coordinates, with both ends included on each axis.
#[derive(Clone, Copy, Debug, PartialEq, Eq, Structural)]
pub struct ChunkRange {
    pub x_min: i64,
    pub x_max: i64,
    pub y_min: i64,
    pub y_max: i64,
}

/// Low edge of the widened view on one axis: the view's centre less the
/// margin and the extent.
pub open spec fn view_low(center: int, margin: int, extent: int) -> int {
    center - margin - extent
}

/// High edge of the widened view on one axis: the view's centre plus the
/// margin.
pub open spec fn view_high(center: int, margin: int) -> int {
    center + margin
}

/// The chunk that holds the screen coordinate `v`.
pub open spec fn chunk_at(v: int) -> int {
    v / (CHUNK_SPAN as int)
}

/// Chunk `c` meets the stretch from `low` to `high` on one axis: it begins
/// at or before `high` and ends after `low`.
pub open spec fn chunk_meets(c: int, low: int, high: int) -> bool {
    c * CHUNK_SPAN <= high && low < (c + 1) * CHUNK_SPAN
}

impl ChunkRange {
    /// The chunk at chunk coordinate `(x, y)` lies in the range.
    pub open spec fn holds(self, x: int, y: int) -> bool {
        self.x_min <= x <= self.x_max && self.y_min <= y <= self.y_max
    }
}

fn chunk_of_screen(v: i128) -> (c: i64)
    requires
        -0x2_0000_0000_0000_0000 <= v <= 0x2_0000_0000_0000_0000,
    ensures
        c == chunk_at(v as int),
{
    if v >= 0 {
        (v / 64) as i64
    } else {
        (-((63 - v) / 64)) as i64
    }
}

/// The range of chunks that a view shows, from the view's centre and its
/// extent, both in screen units: exactly the chunks that meet the view
/// widened by the margins.
pub fn get_visible_chunk_range(center_x: i64, center_y: i64, extent_x: i64, extent_y: i64) -> (range:
    ChunkRange)
    ensures
        range.x_min == chunk_at(view_low(center_x as int, MARGIN_X as int, extent_x as int)),
        range.x_max == chunk_at(view_high(center_x as int, MARGIN_X as int)),
        range.y_min == chunk_at(view_low(center_y as int, MARGIN_Y as int, extent_y as int)),
        range.y_max == chunk_at(view_high(center_y as int, MARGIN_Y as int)),
        forall|x: int, y: int| #[trigger]
            range.holds(x, y) <==> chunk_meets(
                x,
                view_low(center_x as int, MARGIN_X as int, extent_x as int),
                view_high(center_x as int, MARGIN_X as int),
            ) && chunk_meets(
                y,
                view_low(center_y as int, MARGIN_Y as int, extent_y as int),
                view_high(center_y as int, MARGIN_Y as int),
            ),
{
    let range = ChunkRange {
        x_min: chunk_of_screen(center_x as i128 - 64 - extent_x as i128),
        x_max: chunk_of_screen(center_x as i128 + 64),
        y_min: chunk_of_screen(center_y as i128 - 128 - extent_y as i128),
        y_max: chunk_of_screen(center_y as i128 + 128),
    };
    proof {
        assert forall|x: int, y: int| #[trigger]
            range.holds(x, y) <==> chunk_meets(
                x,
                view_low(center_x as int, MARGIN_X as int, extent_x as int),
                view_high(center_x as int, MARGIN_X as int),
            ) && chunk_meets(
                y,
                view_low(center_y as int, MARGIN_Y as int, extent_y as int),
                view_high(center_y as int, MARGIN_Y as int),
            ) by {
            lemma_chunk_meets(
                x,
                view_low(center_x as int, MARGIN_X as int, extent_x as int),
                view_high(center_x as int, MARGIN_X as int),
            );
            lemma_chunk_meets(
                y,
                view_low(center_y as int, MARGIN_Y as int, extent_y as int),
                view_high(center_y as int, MARGIN_Y as int),
            );
        }
    }
    range
}

/// A chunk meets a stretch exactly if it lies between the chunks that hold
/// the ends of the stretch.
pub proof fn lemma_chunk_meets(c: int, low: int, high: int)
    ensures
        chunk_meets(c, low, high) <==> chunk_at(low) <= c <= chunk_at(high),
{
}

/// For a view centred at the origin, the range holds chunk `(0, 0)`, and it
/// grows by one chunk on each axis for every `CHUNK_SPAN` screen units of
/// extent.
pub proof fn lemma_visible_range_at_origin(extent_x: int, extent_y: int)
    requires
        extent_x >= 0,
        extent_y >= 0,
    ensures
        chunk_at(view_low(0, MARGIN_X as int, extent_x)) <= 0 <= chunk_at(
            view_high(0, MARGIN_X as int),
        ),
        chunk_at(view_low(0, MARGIN_Y as int, extent_y)) <= 0 <= chunk_at(
            view_high(0, MARGIN_Y as int),
        ),
        chunk_at(view_high(0, MARGIN_X as int)) - chunk_at(view_low(0, MARGIN_X as int, extent_x))
            == 2 + (extent_x + CHUNK_SPAN - 1) / (CHUNK_SPAN as int),
        chunk_at(view_high(0, MARGIN_Y as int)) - chunk_at(view_low(0, MARGIN_Y as int, extent_y))
            == 4 + (extent_y + CHUNK_SPAN - 1) / (CHUNK_SPAN as int),
        chunk_at(view_low(0, MARGIN_X as int, extent_x + CHUNK_SPAN)) == chunk_at(
            view_low(0, MARGIN_X as int, extent_x),
        ) - 1,
        chunk_at(view_low(0, MARGIN_Y as int, extent_y + CHUNK_SPAN)) == chunk_at(
            view_low(0, MARGIN_Y as int, extent_y),
        ) - 1,
{
}

/// A larger view never shows fewer chunks.
pub proof fn lemma_visible_range_monotonic(center: int, margin: int, small: int, large: int)
    requires
        small <= large,
    ensures
        chunk_at(view_low(center, margin, large)) <= chunk_at(view_low(center, margin, small)),
{
}

} // verus!
