//! A concrete search domain: a rectangular grid of cells, each passable or
//! not, with a single target position. Collaborators with richer worlds
//! implement `JPSearchable` themselves; this type serves callers that just
//! have a map, and it exercises every obligation of the trait.

use vstd::prelude::*;
use vstd::pervasive::VecAdditionalExecFns;
use crate::geometry::{in_range, spec_distance, Pos};
use crate::domain::JPSearchable;

verus! {

/// A rectangular grid, indexed row-major, with one target cell.
pub struct Level {
    width: i64,
    height: i64,
    cells: Vec<bool>,
    target: Pos,
}

/// Distinct in-bounds positions occupy distinct row-major indices.
proof fn lemma_index_inj(w: int, x1: int, y1: int, x2: int, y2: int)
    requires
        0 < w,
        0 <= x1 < w,
        0 <= x2 < w,
        y1 * w + x1 == y2 * w + x2,
    ensures
        x1 == x2,
        y1 == y2,
{
    assert(x1 == x2 && y1 == y2) by (nonlinear_arith)
        requires
            0 < w,
            0 <= x1 < w,
            0 <= x2 < w,
            y1 * w + x1 == y2 * w + x2,
    {}
}

impl Level {
    pub closed spec fn spec_width(&self) -> int {
        self.width as int
    }

    pub closed spec fn spec_height(&self) -> int {
        self.height as int
    }

    pub closed spec fn spec_target(&self) -> Pos {
        self.target
    }

    pub open spec fn in_bounds(&self, p: Pos) -> bool {
        &&& 0 <= p.x < self.spec_width()
        &&& 0 <= p.y < self.spec_height()
    }

    /// A fully passable grid with the target at the origin cell.
    pub fn new(width: i64, height: i64) -> (r: Level)
        requires
            1 <= width <= 0x8000,
            1 <= height <= 0x8000,
        ensures
            r.inv(),
            r.spec_width() == width,
            r.spec_height() == height,
            r.spec_target() == (Pos { x: 0, y: 0 }),
            forall|p: Pos| r.spec_passable(p) == r.in_bounds(p),
    {
        proof {
            assert(1 <= width * height <= 0x4000_0000) by (nonlinear_arith)
                requires
                    1 <= width <= 0x8000,
                    1 <= height <= 0x8000,
            {}
        }
        let n: usize = (width * height) as usize;
        let mut cells: Vec<bool> = Vec::new();
        let mut k: usize = 0;
        while k < n
            invariant
                k <= n,
                cells@.len() == k,
                forall|j: int| 0 <= j < k ==> cells@[j] == true,
            decreases n - k,
        {
            cells.push(true);
            k = k + 1;
        }
        let r = Level { width, height, cells, target: Pos { x: 0, y: 0 } };
        proof {
            assert(width * height <= 0x4000_0000) by (nonlinear_arith)
                requires
                    1 <= width <= 0x8000,
                    1 <= height <= 0x8000,
            {}
            assert(forall|p: Pos| r.spec_passable(p) == r.in_bounds(p)) by {
                assert forall|p: Pos| r.in_bounds(p) implies r.spec_passable(p) by {
                    lemma_cell_index_in_len(r.spec_width(), r.spec_height(), p.x as int, p.y as int);
                }
            }
        }
        r
    }

    /// Make one cell passable or impassable.
    pub fn set_passable(&mut self, pos: Pos, value: bool)
        requires
            old(self).inv(),
            old(self).in_bounds(pos),
        ensures
            final(self).inv(),
            final(self).spec_width() == old(self).spec_width(),
            final(self).spec_height() == old(self).spec_height(),
            final(self).spec_target() == old(self).spec_target(),
            forall|q: Pos|
                final(self).spec_passable(q) == (if q == pos {
                    value
                } else {
                    old(self).spec_passable(q)
                }),
    {
        proof {
            lemma_cell_index_in_len(
                self.spec_width(),
                self.spec_height(),
                pos.x as int,
                pos.y as int,
            );
        }
        let idx: usize = (pos.y * self.width + pos.x) as usize;
        self.cells.set(idx, value);
        proof {
            assert forall|q: Pos|
                self.spec_passable(q) == (if q == pos {
                    value
                } else {
                    old(self).spec_passable(q)
                }) by {
                if self.in_bounds(q) {
                    lemma_cell_index_in_len(
                        self.spec_width(),
                        self.spec_height(),
                        q.x as int,
                        q.y as int,
                    );
                    if q.y * self.spec_width() + q.x == pos.y * self.spec_width() + pos.x {
                        lemma_index_inj(
                            self.spec_width(),
                            q.x as int,
                            q.y as int,
                            pos.x as int,
                            pos.y as int,
                        );
                    }
                }
            }
        }
    }

    /// Move the target.
    pub fn set_target(&mut self, t: Pos)
        requires
            old(self).inv(),
            in_range(t),
        ensures
            final(self).inv(),
            final(self).spec_width() == old(self).spec_width(),
            final(self).spec_height() == old(self).spec_height(),
            final(self).spec_target() == t,
            forall|q: Pos| final(self).spec_passable(q) == old(self).spec_passable(q),
    {
        self.target = t;
    }
}

/// Row-major index of an in-bounds cell lies below `w * h`, which itself
/// fits comfortably in a machine word.
proof fn lemma_cell_index_in_len(w: int, h: int, x: int, y: int)
    requires
        0 < w <= 0x8000,
        0 < h <= 0x8000,
        0 <= x < w,
        0 <= y < h,
    ensures
        0 <= y * w,
        y * w + x < w * h,
        w * h <= 0x4000_0000,
{
    assert(0 <= y * w && y * w + x < w * h && w * h <= 0x4000_0000) by (nonlinear_arith)
        requires
            0 < w <= 0x8000,
            0 < h <= 0x8000,
            0 <= x < w,
            0 <= y < h,
    {}
}

impl JPSearchable for Level {
    closed spec fn inv(&self) -> bool {
        &&& 1 <= self.width <= 0x8000
        &&& 1 <= self.height <= 0x8000
        &&& self.cells@.len() == self.width * self.height
        &&& in_range(self.target)
    }

    closed spec fn limit(&self) -> int {
        self.width + self.height
    }

    closed spec fn spec_passable(&self, pos: Pos) -> bool {
        &&& 0 <= pos.x < self.width
        &&& 0 <= pos.y < self.height
        &&& self.cells@[pos.y * self.width + pos.x]
    }

    closed spec fn spec_goal(&self, pos: Pos) -> bool {
        pos == self.target
    }

    closed spec fn spec_heuristic(&self, pos: Pos) -> u64 {
        spec_distance(pos, self.target) as u64
    }

    proof fn lemma_limit_in_range(&self) {
    }

    proof fn lemma_passable_within_limit(&self, pos: Pos) {
    }

    fn passable(&self, pos: Pos) -> (b: bool) {
        if pos.x < 0 || pos.x >= self.width || pos.y < 0 || pos.y >= self.height {
            return false;
        }
        proof {
            lemma_cell_index_in_len(
                self.spec_width(),
                self.spec_height(),
                pos.x as int,
                pos.y as int,
            );
        }
        let idx: usize = (pos.y * self.width + pos.x) as usize;
        self.cells[idx]
    }

    fn is_goal(&self, pos: Pos) -> (b: bool) {
        pos == self.target
    }

    fn heuristic(&self, pos: Pos) -> (h: u64) {
        pos.distance(self.target)
    }
}

} // verus!
