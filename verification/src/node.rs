//! Nodes: the rectangular items placed on the grid.
//!
//! A node has a unique id, a top-left corner `(x, y)` and an extent
//! `(w, h)`; it occupies the half-open rectangle `[x, x+w) x [y, y+h)`.
//! A node with `w == 0` or `h == 0` occupies no cells at all.

use vstd::prelude::*;

use crate::error::InnerGridError;
use crate::inner_grid::{InnerGrid, UpdateGridOperation};
use crate::utils::{for_cell, rect_cell_x, rect_cell_y, ForCellArgs};

verus! {

/// An item of the grid: a rectangle with a unique id.
#[derive(Debug, PartialEq, Eq, Hash)]
pub struct Node {
    /// Unique identifier for the node
    pub id: String,
    /// X coordinate of the top-left corner
    pub x: usize,
    /// Y coordinate of the top-left corner
    pub y: usize,
    /// Width of the node in grid cells
    pub w: usize,
    /// Height of the node in grid cells
    pub h: usize,
}

/// Whether the cell `(cx, cy)` lies inside the rectangle of `n`.
pub open spec fn in_rect(n: Node, cx: int, cy: int) -> bool {
    &&& n.x <= cx < n.x + n.w
    &&& n.y <= cy < n.y + n.h
}

impl Node {
    /// Creates a node from its id, position and extent.
    pub fn new(id: String, x: usize, y: usize, w: usize, h: usize) -> (n: Node)
        ensures
            n.id == id,
            n.x == x,
            n.y == y,
            n.w == w,
            n.h == h,
    {
        Node { id, x, y, w, h }
    }

    /// The cells this node occupies, in column-major order (the outer loop
    /// runs over `x`, the inner one over `y`).
    pub fn for_cell(&self) -> (r: Vec<(usize, usize)>)
        requires
            self.x + self.w <= usize::MAX,
            self.y + self.h <= usize::MAX,
        ensures
            r@.len() == self.w * self.h,
            forall|k: int|
                0 <= k < r@.len() ==> (#[trigger] r@[k]).0 == rect_cell_x(
                    self.x as int,
                    self.h as int,
                    k,
                ) && r@[k].1 == rect_cell_y(self.y as int, self.h as int, k),
            forall|k: int| 0 <= k < r@.len() ==> in_rect(*self, (#[trigger] r@[k]).0 as int, r@[k].1 as int),
    {
        let r = for_cell(ForCellArgs { x: self.x, y: self.y, w: self.w, h: self.h });
        proof {
            assert forall|k: int| 0 <= k < r@.len() implies in_rect(
                *self,
                (#[trigger] r@[k]).0 as int,
                r@[k].1 as int,
            ) by {
                lemma_rect_cell_in_rect(*self, k);
            }
        }
        r
    }

    /// Returns the unique identifier of the node.
    pub fn id(&self) -> (r: &str)
        ensures
            r@ == self.id@,
    {
        self.id.as_str()
    }

    /// Returns the x coordinate of the node.
    pub fn x(&self) -> (r: &usize)
        ensures
            r == self.x,
    {
        &self.x
    }

    /// Returns the y coordinate of the node.
    pub fn y(&self) -> (r: &usize)
        ensures
            r == self.y,
    {
        &self.y
    }

    /// Returns the width of the node.
    pub fn w(&self) -> (r: &usize)
        ensures
            r == self.w,
    {
        &self.w
    }

    /// Returns the height of the node.
    pub fn h(&self) -> (r: &usize)
        ensures
            r == self.h,
    {
        &self.h
    }
}

impl Clone for Node {
    /// An equal copy of the node.
    fn clone(&self) -> (r: Node)
        ensures
            r == *self,
    {
        Node { id: self.id.clone(), x: self.x, y: self.y, w: self.w, h: self.h }
    }
}

impl Node {
    /// Applies this node to `grid`, cell by cell in column-major order:
    /// an `Add` writes the node's id into every cell of its rectangle, a
    /// `Remove` clears each cell of the rectangle that still holds this
    /// node's id. The rectangle must fit the grid's columns (or be empty),
    /// so the walk cannot fail.
    pub(crate) fn update_grid(
        &self,
        grid: &mut InnerGrid,
        update_operation: UpdateGridOperation,
    ) -> (res: Result<(), InnerGridError>)
        requires
            old(grid).wf(),
            old(grid).expandable(),
            self.x + self.w <= usize::MAX,
            self.y + self.h <= usize::MAX,
            self.w == 0 || self.h == 0 || self.x + self.w <= old(grid).width(),
        ensures
            res is Ok,
            final(grid).wf(),
            final(grid).width() == old(grid).width(),
            final(grid).expandable(),
            final(grid).cells().len() == if self.w > 0 && self.h > 0 && self.y + self.h > old(
                grid,
            ).cells().len() {
                self.y + self.h
            } else {
                old(grid).cells().len() as int
            },
            forall|cx: int, cy: int|
                #![trigger final(grid).cell_at(cx, cy)]
                final(grid).cell_at(cx, cy) == if in_rect(*self, cx, cy) {
                    match update_operation {
                        UpdateGridOperation::Add => Some(self.id@),
                        UpdateGridOperation::Remove => {
                            if old(grid).cell_at(cx, cy) == Some(self.id@) {
                                None
                            } else {
                                old(grid).cell_at(cx, cy)
                            }
                        },
                    }
                } else {
                    old(grid).cell_at(cx, cy)
                },
    {
        let cells = self.for_cell();
        let mut k: usize = 0;
        while k < cells.len()
            invariant
                k <= cells@.len(),
                old(grid).wf(),
                grid.wf(),
                grid.expandable() == old(grid).expandable(),
                old(grid).expandable(),
                grid.width() == old(grid).width(),
                self.x + self.w <= usize::MAX,
                self.y + self.h <= usize::MAX,
                self.w == 0 || self.h == 0 || self.x + self.w <= old(grid).width(),
                cells@.len() == self.w * self.h,
                forall|j: int|
                    0 <= j < cells@.len() ==> (#[trigger] cells@[j]).0 == rect_cell_x(
                        self.x as int,
                        self.h as int,
                        j,
                    ) && cells@[j].1 == rect_cell_y(self.y as int, self.h as int, j),
                forall|j: int|
                    0 <= j < cells@.len() ==> in_rect(
                        *self,
                        (#[trigger] cells@[j]).0 as int,
                        cells@[j].1 as int,
                    ),
                grid.cells().len() == if k == 0 {
                    old(grid).cells().len() as int
                } else if k < self.h {
                    vstd::math::max(old(grid).cells().len() as int, self.y + k)
                } else {
                    vstd::math::max(old(grid).cells().len() as int, self.y + self.h)
                },
                forall|cx: int, cy: int|
                    #![trigger grid.cell_at(cx, cy)]
                    grid.cell_at(cx, cy) == if in_rect(*self, cx, cy) && (cx - self.x) * self.h + (
                    cy - self.y) < k {
                        match update_operation {
                            UpdateGridOperation::Add => Some(self.id@),
                            UpdateGridOperation::Remove => {
                                if old(grid).cell_at(cx, cy) == Some(self.id@) {
                                    None
                                } else {
                                    old(grid).cell_at(cx, cy)
                                }
                            },
                        }
                    } else {
                        old(grid).cell_at(cx, cy)
                    },
            decreases cells@.len() - k,
        {
            let ghost kk = k as int;
            let ghost rows_before = grid.cells().len() as int;
            let (cx, cy) = cells[k];
            proof {
                assert(self.w > 0 && self.h > 0) by (nonlinear_arith)
                    requires
                        cells@.len() == self.w * self.h,
                        kk < cells@.len(),
                        0 <= kk,
                ;
                vstd::arithmetic::div_mod::lemma_fundamental_div_mod(kk, self.h as int);
                vstd::arithmetic::div_mod::lemma_mod_division_less_than_divisor(
                    kk,
                    self.h as int,
                );
                if kk < self.h {
                    vstd::arithmetic::div_mod::lemma_small_div_converse(kk, self.h as int);
                    vstd::arithmetic::div_mod::lemma_fundamental_div_mod_converse(
                        kk,
                        self.h as int,
                        0,
                        kk,
                    );
                }
            }
            let res = grid.update(self, cx, cy, update_operation);
            proof {
                assert(res is Ok);
                assert forall|cx2: int, cy2: int|
                    #![trigger grid.cell_at(cx2, cy2)]
                    grid.cell_at(cx2, cy2) == if in_rect(*self, cx2, cy2) && (cx2 - self.x)
                        * self.h + (cy2 - self.y) < kk + 1 {
                        match update_operation {
                            UpdateGridOperation::Add => Some(self.id@),
                            UpdateGridOperation::Remove => {
                                if old(grid).cell_at(cx2, cy2) == Some(self.id@) {
                                    None
                                } else {
                                    old(grid).cell_at(cx2, cy2)
                                }
                            },
                        }
                    } else {
                        old(grid).cell_at(cx2, cy2)
                    } by {
                    if in_rect(*self, cx2, cy2) {
                        crate::utils::lemma_cell_index_unique(
                            self.x as int,
                            self.y as int,
                            self.w as int,
                            self.h as int,
                            kk,
                            cx2,
                            cy2,
                        );
                        assert((cx2 - self.x) * self.h + (cy2 - self.y) >= 0) by (nonlinear_arith)
                            requires
                                cx2 >= self.x,
                                cy2 >= self.y,
                                self.h >= 0,
                        ;
                    }
                }
            }
            k = k + 1;
        }
        proof {
            if self.w > 0 && self.h > 0 {
                assert(cells@.len() >= self.h) by (nonlinear_arith)
                    requires
                        cells@.len() == self.w * self.h,
                        self.w >= 1,
                        self.h >= 1,
                ;
            } else {
                assert(cells@.len() == 0) by (nonlinear_arith)
                    requires
                        cells@.len() == self.w * self.h,
                        self.w == 0 || self.h == 0,
                ;
            }
            assert forall|cx2: int, cy2: int| in_rect(*self, cx2, cy2) implies (cx2 - self.x)
                * self.h + (cy2 - self.y) < cells@.len() by {
                assert((cx2 - self.x) * self.h + (cy2 - self.y) < self.w * self.h)
                    by (nonlinear_arith)
                    requires
                        self.x <= cx2 < self.x + self.w,
                        self.y <= cy2 < self.y + self.h,
                ;
            }
        }
        Ok(())
    }
}

/// The `k`-th enumerated cell of a node's rectangle lies inside that
/// rectangle.
pub proof fn lemma_rect_cell_in_rect(n: Node, k: int)
    requires
        0 <= k < n.w * n.h,
    ensures
        in_rect(n, rect_cell_x(n.x as int, n.h as int, k), rect_cell_y(n.y as int, n.h as int, k)),
{
    let h = n.h as int;
    let w = n.w as int;
    assert(0 < h && 0 < w) by (nonlinear_arith)
        requires
            0 <= k < w * h,
            0 <= h,
            0 <= w,
    ;
    vstd::arithmetic::div_mod::lemma_fundamental_div_mod(k, h);
    vstd::arithmetic::div_mod::lemma_mod_division_less_than_divisor(k, h);
    vstd::arithmetic::div_mod::lemma_div_pos_is_pos(k, h);
    assert(k / h < w) by (nonlinear_arith)
        requires
            0 <= k < w * h,
            0 < h,
            k == h * (k / h) + k % h,
            0 <= k % h < h,
    ;
}

} // verus!
