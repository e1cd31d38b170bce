//! The part of the grid that is shown: render cells, each a block of
//! `2^layer` by `2^layer` cells, and the rectangle of them that is visible.

use crate::big::BigNum;
use crate::index::side;
use crate::ndrect::BigRect;
use crate::ndvec::BigVec;
use vstd::prelude::*;

verus! {

/// The margin, in render cells, that is kept around the visible rectangle
/// when positions are clipped to it.
pub const CLIP_PADDING: i64 = 2;

/// `x` held between `low` and `high`.
pub open spec fn clamped(x: int, low: int, high: int) -> int {
    if x < low {
        low
    } else if x > high {
        high
    } else {
        x
    }
}

/// A view of a two-dimensional grid in render cells.
#[derive(Debug)]
pub struct Viewport {
    /// The cell at the lower corner of render cell `(0, 0)`.
    pub origin: BigVec<2>,
    /// A render cell is a block of side `2^render_cell_layer`.
    pub render_cell_layer: usize,
    /// The lowest render cell that is visible.
    pub visible_min: [i64; 2],
    /// The highest render cell that is visible.
    pub visible_max: [i64; 2],
}

impl Viewport {
    /// The origin has two coordinates, the visible rectangle is not
    /// empty, and the padding around it can be named by the machine.
    pub open spec fn wf(&self) -> bool {
        &&& self.origin.wf()
        &&& forall|k: int|
            0 <= k < 2 ==> i64::MIN + CLIP_PADDING <= #[trigger] self.visible_min@[k]
                <= self.visible_max@[k] <= i64::MAX - CLIP_PADDING
    }

    /// The render cell that holds the cell at `cell_pos`, along axis `k`.
    pub open spec fn render_cell_of(&self, cell_pos: Seq<int>, k: int) -> int {
        (cell_pos[k] - self.origin@[k]) / side(self.render_cell_layer as nat)
    }

    /// Returns the render cell position containing the global cell position
    /// if the cell is visible; otherwise, returns the position of the
    /// nearest render cell that is just off-screen.
    pub fn clip_cell_pos_to_visible_render_cells(&self, cell_pos: &BigVec<2>) -> (r: [i64; 2])
        requires
            self.wf(),
            cell_pos.wf(),
        ensures
            forall|k: int|
                0 <= k < 2 ==> #[trigger] r@[k] == clamped(
                    self.render_cell_of(cell_pos@, k),
                    self.visible_min@[k] - CLIP_PADDING,
                    self.visible_max@[k] + CLIP_PADDING,
                ),
    {
        let x = self.clip_axis(cell_pos, 0);
        let y = self.clip_axis(cell_pos, 1);
        [x, y]
    }

    /// The clipped render cell position along axis `k`.
    fn clip_axis(&self, cell_pos: &BigVec<2>, k: usize) -> (r: i64)
        requires
            self.wf(),
            cell_pos.wf(),
            k < 2,
        ensures
            r == clamped(
                self.render_cell_of(cell_pos@, k as int),
                self.visible_min@[k as int] - CLIP_PADDING,
                self.visible_max@[k as int] + CLIP_PADDING,
            ),
    {
        let low = self.visible_min[k] - CLIP_PADDING;
        let high = self.visible_max[k] + CLIP_PADDING;
        let rel = cell_pos.coords[k].sub(&self.origin.coords[k]);
        let cell = rel.shr(self.render_cell_layer);
        if cell.lt(&BigNum::from_i64(low)) {
            low
        } else if BigNum::from_i64(high).lt(&cell) {
            high
        } else {
            match cell.to_i64() {
                Some(v) => v,
                None => low,
            }
        }
    }

    /// Clips the corners of a rectangle of cells to the visible render
    /// cells.
    pub fn clip_cell_rect_to_visible_render_cells(&self, cells: &BigRect<2>) -> (r: (
        [i64; 2],
        [i64; 2],
    ))
        requires
            self.wf(),
            cells.wf(),
        ensures
            forall|k: int|
                0 <= k < 2 ==> #[trigger] r.0@[k] == clamped(
                    self.render_cell_of(cells.min@, k),
                    self.visible_min@[k] - CLIP_PADDING,
                    self.visible_max@[k] + CLIP_PADDING,
                ),
            forall|k: int|
                0 <= k < 2 ==> #[trigger] r.1@[k] == clamped(
                    self.render_cell_of(cells.max@, k),
                    self.visible_min@[k] - CLIP_PADDING,
                    self.visible_max@[k] + CLIP_PADDING,
                ),
            forall|k: int| 0 <= k < 2 ==> #[trigger] r.0@[k] <= r.1@[k],
    {
        let low = self.clip_cell_pos_to_visible_render_cells(&cells.min);
        let high = self.clip_cell_pos_to_visible_render_cells(&cells.max);
        proof {
            let s = side(self.render_cell_layer as nat);
            vstd::arithmetic::power2::lemma_pow2_pos(self.render_cell_layer as nat);
            assert forall|k: int| 0 <= k < 2 implies #[trigger] low@[k] <= high@[k] by {
                assert(cells.min@[k] <= cells.max@[k]);
                vstd::arithmetic::div_mod::lemma_div_is_ordered(
                    cells.min@[k] - self.origin@[k],
                    cells.max@[k] - self.origin@[k],
                    s,
                );
                assert(self.visible_min@[k] <= self.visible_max@[k]);
            }
        }
        (low, high)
    }
}

} // verus!
