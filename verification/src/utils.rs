//! Cell enumeration over rectangular regions of the grid.
//!
//! The engine walks the cells of a rectangle in column-major order: the
//! outer loop runs over `x`, the inner loop over `y`. [`for_cell`] produces
//! that enumeration explicitly as a vector of coordinate pairs, which
//! callers consume by iteration (exiting early on the first failure where
//! an operation on a cell can fail).

use vstd::prelude::*;

verus! {

/// A rectangular region of cells: top-left corner `(x, y)`, extent `(w, h)`.
#[derive(Debug, Clone, Copy)]
pub struct ForCellArgs {
    /// X coordinate of the top-left corner
    pub x: usize,
    /// Y coordinate of the top-left corner
    pub y: usize,
    /// Width of the rectangular region
    pub w: usize,
    /// Height of the rectangular region
    pub h: usize,
}

/// The cells of the rectangle `[x, x+w) x [y, y+h)` in column-major order:
/// index `k` holds the cell `(x + k / h, y + k % h)`.
pub open spec fn rect_cell_x(x: int, h: int, k: int) -> int {
    x + k / h
}

/// The row of the `k`-th enumerated cell; see [`rect_cell_x`].
pub open spec fn rect_cell_y(y: int, h: int, k: int) -> int {
    y + k % h
}

/// Each cell of the rectangle appears at exactly one position of the
/// column-major enumeration: `(cx, cy)` is the `k`-th cell if and only if
/// `k` is its column-major index `(cx - x) * h + (cy - y)`.
pub proof fn lemma_cell_index_unique(x: int, y: int, w: int, h: int, k: int, cx: int, cy: int)
    requires
        0 <= k < w * h,
        x <= cx < x + w,
        y <= cy < y + h,
        0 < h,
    ensures
        ((cx - x) * h + (cy - y) == k) <==> (cx == rect_cell_x(x, h, k) && cy == rect_cell_y(
            y,
            h,
            k,
        )),
{
    vstd::arithmetic::div_mod::lemma_fundamental_div_mod(k, h);
    vstd::arithmetic::div_mod::lemma_mod_division_less_than_divisor(k, h);
    assert(h * (k / h) == (k / h) * h) by (nonlinear_arith);
    if (cx - x) * h + (cy - y) == k {
        vstd::arithmetic::div_mod::lemma_fundamental_div_mod_converse(k, h, cx - x, cy - y);
    }
}

/// Enumerates the cells of the rectangle described by `args`, in
/// column-major order: all rows of the leftmost column first, then the
/// next column, and so on.
pub fn for_cell(args: ForCellArgs) -> (r: Vec<(usize, usize)>)
    requires
        args.x + args.w <= usize::MAX,
        args.y + args.h <= usize::MAX,
    ensures
        r@.len() == args.w * args.h,
        forall|k: int|
            0 <= k < r@.len() ==> (#[trigger] r@[k]).0 == rect_cell_x(args.x as int, args.h as int, k)
                && r@[k].1 == rect_cell_y(args.y as int, args.h as int, k),
{
    let mut r: Vec<(usize, usize)> = Vec::new();
    let mut i: usize = 0;
    while i < args.w
        invariant
            i <= args.w,
            args.x + args.w <= usize::MAX,
            args.y + args.h <= usize::MAX,
            r@.len() == i * args.h,
            forall|k: int|
                0 <= k < r@.len() ==> (#[trigger] r@[k]).0 == rect_cell_x(
                    args.x as int,
                    args.h as int,
                    k,
                ) && r@[k].1 == rect_cell_y(args.y as int, args.h as int, k),
        decreases args.w - i,
    {
        let mut j: usize = 0;
        while j < args.h
            invariant
                i < args.w,
                j <= args.h,
                args.x + args.w <= usize::MAX,
                args.y + args.h <= usize::MAX,
                r@.len() == i * args.h + j,
                forall|k: int|
                    0 <= k < r@.len() ==> (#[trigger] r@[k]).0 == rect_cell_x(
                        args.x as int,
                        args.h as int,
                        k,
                    ) && r@[k].1 == rect_cell_y(args.y as int, args.h as int, k),
            decreases args.h - j,
        {
            proof {
                vstd::arithmetic::div_mod::lemma_fundamental_div_mod_converse(
                    (i * args.h + j) as int,
                    args.h as int,
                    i as int,
                    j as int,
                );
            }
            r.push((args.x + i, args.y + j));
            j = j + 1;
        }
        proof {
            assert(i * args.h + args.h == (i + 1) * args.h) by (nonlinear_arith);
        }
        i = i + 1;
    }
    r
}

} // verus!
