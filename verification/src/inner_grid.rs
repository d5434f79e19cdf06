//! The spatial grid: a matrix of optional item ids with a fixed column
//! count and a growable row count.
//!
//! Storage is delegated to `grid::Grid`, which is reached only through the
//! trusted wrappers at the top of this module; everything above those
//! wrappers is verified against the model they describe. The model of a
//! grid value is a sequence of rows, each row a sequence of cells, each
//! cell an optional id (as a sequence of characters), together with the
//! column count the grid was shaped with.

use vstd::prelude::*;

use crate::error::InnerGridError;
use crate::node::{in_rect, Node};

verus! {

/// The rows of a grid value, as the trusted wrappers below describe them:
/// row by row, each cell an optional item id.
pub uninterp spec fn grid_model(g: grid::Grid<Option<String>>) -> Seq<Seq<Option<Seq<char>>>>;

/// The column count a grid value was shaped with.
pub uninterp spec fn grid_width(g: grid::Grid<Option<String>>) -> nat;

#[verifier::external_type_specification]
#[verifier::external_body]
#[verifier::reject_recursive_types(T)]
pub struct ExGrid<T>(grid::Grid<T>);

/// The id held by a cell value, as the model sees it.
pub open spec fn opt_id(c: Option<String>) -> Option<Seq<char>> {
    match c {
        Some(s) => Some(s@),
        None => None,
    }
}

/// A row of cell values, as the model sees it.
pub open spec fn row_model(r: Seq<Option<String>>) -> Seq<Option<Seq<char>>> {
    r.map_values(|c: Option<String>| opt_id(c))
}

/// Relies on `grid::Grid::new`: a `rows` by `cols` grid whose cells all
/// hold the default value `None`; if either count is zero the grid is
/// empty, with zero rows and zero columns. Panics only when
/// `rows * cols` overflows.
#[verifier::external_body]
fn grid_new(rows: usize, cols: usize) -> (g: grid::Grid<Option<String>>)
    requires
        rows * cols <= usize::MAX,
    ensures
        rows == 0 || cols == 0 ==> grid_model(g).len() == 0 && grid_width(g) == 0,
        rows > 0 && cols > 0 ==> grid_model(g).len() == rows && grid_width(g) == cols,
        forall|r: int| 0 <= r < grid_model(g).len() ==> (#[trigger] grid_model(g)[r]).len() == cols,
        forall|r: int, c: int|
            0 <= r < grid_model(g).len() && 0 <= c < grid_model(g)[r].len() ==> grid_model(g)[r][c]
                is None,
{
    grid::Grid::new(rows, cols)
}

/// Relies on `grid::Grid::rows`: the current row count.
#[verifier::external_body]
fn grid_rows(g: &grid::Grid<Option<String>>) -> (r: usize)
    ensures
        r == grid_model(*g).len(),
{
    g.rows()
}

/// Relies on `grid::Grid::cols`: the column count.
#[verifier::external_body]
fn grid_cols(g: &grid::Grid<Option<String>>) -> (r: usize)
    ensures
        r == grid_width(*g),
{
    g.cols()
}

/// Relies on `grid::Grid::get`: `Some` exactly for a row below the row
/// count and a column below the column count, holding that cell's value.
#[verifier::external_body]
fn grid_get(g: &grid::Grid<Option<String>>, row: usize, col: usize) -> (r: Option<Option<String>>)
    ensures
        match r {
            Some(c) => row < grid_model(*g).len() && col < grid_width(*g) && opt_id(c) == grid_model(
                *g,
            )[row as int][col as int],
            None => !(row < grid_model(*g).len() && col < grid_width(*g)),
        },
{
    g.get(row, col).cloned()
}

/// Relies on `grid::Grid::get_mut`: `Some` exactly for in-bounds
/// coordinates; writing through it replaces that single cell.
#[verifier::external_body]
fn grid_set(
    g: &mut grid::Grid<Option<String>>,
    row: usize,
    col: usize,
    v: Option<String>,
) -> (ok: bool)
    ensures
        ok <==> row < grid_model(*old(g)).len() && col < grid_width(*old(g)),
        grid_width(*final(g)) == grid_width(*old(g)),
        ok ==> grid_model(*final(g)) == grid_model(*old(g)).update(
            row as int,
            grid_model(*old(g))[row as int].update(col as int, opt_id(v)),
        ),
        !ok ==> grid_model(*final(g)) == grid_model(*old(g)),
{
    match g.get_mut(row, col) {
        Some(cell) => {
            *cell = v;
            true
        },
        None => false,
    }
}

/// Relies on `grid::Grid::push_row`: appends one row; on a grid with no
/// rows (and hence no columns) it also fixes the column count to the
/// pushed row's length. Panics only on an empty row, a row of the wrong
/// length, or a row-count overflow, all of which the preconditions rule
/// out.
#[verifier::external_body]
fn grid_push_row(g: &mut grid::Grid<Option<String>>, row: Vec<Option<String>>)
    requires
        row@.len() > 0,
        grid_model(*old(g)).len() < usize::MAX,
        if grid_model(*old(g)).len() == 0 {
            grid_width(*old(g)) == 0
        } else {
            row@.len() == grid_width(*old(g))
        },
    ensures
        grid_model(*final(g)) == grid_model(*old(g)).push(row_model(row@)),
        grid_width(*final(g)) == if grid_model(*old(g)).len() == 0 {
            row@.len() as nat
        } else {
            grid_width(*old(g))
        },
{
    g.push_row(row)
}

/// Relies on `grid::Grid::clone`: an identical copy, cell for cell.
#[verifier::external_body]
fn grid_clone(g: &grid::Grid<Option<String>>) -> (r: grid::Grid<Option<String>>)
    ensures
        grid_model(r) == grid_model(*g),
        grid_width(r) == grid_width(*g),
{
    g.clone()
}

/// Operation to perform when updating a grid cell for a node.
#[derive(Debug, Clone, Copy)]
pub enum UpdateGridOperation {
    /// Write the node's id into the cell
    Add,
    /// Clear the cell, but only if it currently holds this node's id
    Remove,
}

/// The spatial grid: optional item ids in a matrix with a fixed column
/// count, whose row count may grow on access when growth is enabled.
pub struct InnerGrid {
    /// Whether accesses past the last row may grow the grid
    can_expand_y: bool,
    /// The underlying storage
    inner: grid::Grid<Option<String>>,
}

impl InnerGrid {
    /// The rows of the grid, each a sequence of optional ids.
    pub closed spec fn cells(self) -> Seq<Seq<Option<Seq<char>>>> {
        grid_model(self.inner)
    }

    /// The fixed column count.
    pub closed spec fn width(self) -> nat {
        grid_width(self.inner)
    }

    /// Whether row growth is enabled.
    pub closed spec fn expandable(self) -> bool {
        self.can_expand_y
    }

    /// Shape well-formedness: every row has exactly `width` cells, the
    /// column count is zero exactly when there are no rows, and both
    /// counts fit the machine.
    pub open spec fn wf(self) -> bool {
        &&& (self.cells().len() == 0 <==> self.width() == 0)
        &&& self.width() <= usize::MAX
        &&& self.cells().len() <= usize::MAX
        &&& forall|r: int| 0 <= r < self.cells().len() ==> (#[trigger] self.cells()[r]).len() == self.width()
    }

    /// The cell at `(x, y)`, with every cell outside the current rows or
    /// columns read as empty.
    pub open spec fn cell_at(self, cx: int, cy: int) -> Option<Seq<char>> {
        if 0 <= cy < self.cells().len() && 0 <= cx < self.cells()[cy].len() {
            self.cells()[cy][cx]
        } else {
            None
        }
    }

    /// Creates a grid of `rows` by `cols` empty cells with growth enabled.
    /// A zero row or column count gives the empty grid, with zero of both.
    pub fn new(rows: usize, cols: usize) -> (g: InnerGrid)
        requires
            rows * cols <= usize::MAX,
        ensures
            g.wf(),
            g.expandable(),
            rows == 0 || cols == 0 ==> g.cells().len() == 0 && g.width() == 0,
            rows > 0 && cols > 0 ==> g.cells().len() == rows && g.width() == cols,
            forall|cx: int, cy: int| g.cell_at(cx, cy) is None,
    {
        let inner = grid_new(rows, cols);
        InnerGrid { inner, can_expand_y: true }
    }

    /// The current row count.
    pub fn rows(&self) -> (r: usize)
        ensures
            r == self.cells().len(),
    {
        grid_rows(&self.inner)
    }

    /// The column count.
    pub fn cols(&self) -> (r: usize)
        ensures
            r == self.width(),
    {
        grid_cols(&self.inner)
    }

    /// Enables or disables automatic row growth.
    pub fn set_can_expand_y(&mut self, value: bool)
        ensures
            final(self).cells() == old(self).cells(),
            final(self).width() == old(self).width(),
            final(self).expandable() == value,
    {
        self.can_expand_y = value;
    }

    /// An identical, independently owned copy of the grid.
    pub fn duplicate(&self) -> (g: InnerGrid)
        ensures
            g.cells() == self.cells(),
            g.width() == self.width(),
            g.expandable() == self.expandable(),
    {
        InnerGrid { inner: grid_clone(&self.inner), can_expand_y: self.can_expand_y }
    }

    /// Reads the cell at `(x, y)` without growing the grid: `None` when
    /// the coordinates lie outside the current rows or columns.
    pub(crate) fn peek(&self, x: usize, y: usize) -> (r: Option<Option<String>>)
        ensures
            match r {
                Some(c) => y < self.cells().len() && x < self.width() && opt_id(c)
                    == self.cells()[y as int][x as int],
                None => !(y < self.cells().len() && x < self.width()),
            },
    {
        grid_get(&self.inner, y, x)
    }

    /// Appends `rows` empty rows.
    pub(crate) fn expand_rows(&mut self, rows: usize)
        requires
            old(self).wf(),
            old(self).width() > 0,
            old(self).cells().len() + rows <= usize::MAX,
        ensures
            final(self).wf(),
            final(self).width() == old(self).width(),
            final(self).expandable() == old(self).expandable(),
            final(self).cells().len() == old(self).cells().len() + rows,
            forall|r: int|
                0 <= r < old(self).cells().len() ==> final(self).cells()[r] == old(self).cells()[r],
            forall|r: int, c: int|
                old(self).cells().len() <= r < final(self).cells().len() && 0 <= c < final(self).cells()[r].len() ==> final(self).cells()[r][c] is None,
    {
        let cols = grid_cols(&self.inner);
        let mut k: usize = 0;
        while k < rows
            invariant
                self.wf(),
                cols == self.width(),
                cols > 0,
                k <= rows,
                self.can_expand_y == old(self).can_expand_y,
                old(self).cells().len() + rows <= usize::MAX,
                self.cells().len() == old(self).cells().len() + k,
                forall|r: int|
                    0 <= r < old(self).cells().len() ==> self.cells()[r] == old(self).cells()[r],
                forall|r: int, c: int|
                    old(self).cells().len() <= r < self.cells().len() && 0 <= c < self.cells()[r].len()
                        ==> self.cells()[r][c] is None,
            decreases rows - k,
        {
            let mut row: Vec<Option<String>> = Vec::new();
            let mut c: usize = 0;
            while c < cols
                invariant
                    c <= cols,
                    row@.len() == c,
                    forall|i: int| 0 <= i < row@.len() ==> row@[i] is None,
                decreases cols - c,
            {
                row.push(None);
                c = c + 1;
            }
            proof {
                assert(row_model(row@).len() == cols);
                assert(forall|i: int| 0 <= i < row@.len() ==> row_model(row@)[i] is None);
            }
            grid_push_row(&mut self.inner, row);
            k = k + 1;
        }
    }

    /// Grows the grid to cover row `y`, when the access at `(x, y)` is one
    /// that growth may serve: growth enabled and `x` within the columns.
    fn handle_expansion(&mut self, x: usize, y: usize)
        requires
            old(self).wf(),
            y < usize::MAX,
        ensures
            final(self).wf(),
            final(self).width() == old(self).width(),
            final(self).expandable() == old(self).expandable(),
            ({
                let grown = old(self).expandable() && x < old(self).width() && y >= old(self).cells().len();
                &&& final(self).cells().len() == if grown {
                    y + 1
                } else {
                    old(self).cells().len() as int
                }
                &&& forall|r: int|
                    0 <= r < old(self).cells().len() ==> final(self).cells()[r] == old(self).cells()[r]
                &&& forall|r: int, c: int|
                    old(self).cells().len() <= r < final(self).cells().len() && 0 <= c < final(self).cells()[r].len() ==> final(self).cells()[r][c] is None
            }),
    {
        let rows = grid_rows(&self.inner);
        let cols = grid_cols(&self.inner);
        let can_expand = self.can_expand_y && x < cols;
        if can_expand && y >= rows {
            self.expand_rows(y - rows + 1);
        }
    }

    /// Reads the cell at `(x, y)`, growing the grid first when the access
    /// lies past the last row and growth may serve it. `None` means the
    /// access is out of bounds even after any growth.
    pub fn get(&mut self, x: usize, y: usize) -> (r: Option<Option<String>>)
        requires
            old(self).wf(),
            y < usize::MAX,
        ensures
            final(self).wf(),
            final(self).width() == old(self).width(),
            final(self).expandable() == old(self).expandable(),
            ({
                let grown = old(self).expandable() && x < old(self).width() && y >= old(self).cells().len();
                &&& final(self).cells().len() == if grown {
                    y + 1
                } else {
                    old(self).cells().len() as int
                }
                &&& forall|r: int|
                    0 <= r < old(self).cells().len() ==> final(self).cells()[r] == old(self).cells()[r]
                &&& forall|r: int, c: int|
                    old(self).cells().len() <= r < final(self).cells().len() && 0 <= c < final(self).cells()[r].len() ==> final(self).cells()[r][c] is None
            }),
            match r {
                Some(c) => x < final(self).width() && y < final(self).cells().len() && opt_id(c)
                    == final(self).cells()[y as int][x as int],
                None => !(x < final(self).width() && (y < old(self).cells().len() || old(self).expandable())),
            },
    {
        if grid_get(&self.inner, y, x).is_none() {
            self.handle_expansion(x, y);
        }
        grid_get(&self.inner, y, x)
    }

    /// Updates the cell at `(x, y)` for `node`: an `Add` writes the node's
    /// id unconditionally; a `Remove` clears the cell only if it currently
    /// holds this node's id. Out-of-bounds accesses that growth cannot
    /// serve fail with `OutOfBoundsAccess` and leave the grid unchanged.
    pub fn update(
        &mut self,
        node: &Node,
        x: usize,
        y: usize,
        operation: UpdateGridOperation,
    ) -> (res: Result<(), InnerGridError>)
        requires
            old(self).wf(),
            y < usize::MAX,
        ensures
            final(self).wf(),
            final(self).width() == old(self).width(),
            final(self).expandable() == old(self).expandable(),
            match res {
                Ok(()) => {
                    let grown = y >= old(self).cells().len();
                    let rows_after = if grown {
                        y + 1
                    } else {
                        old(self).cells().len() as int
                    };
                    let was = old(self).cell_at(x as int, y as int);
                    let written = match operation {
                        UpdateGridOperation::Add => Some(node.id@),
                        UpdateGridOperation::Remove => {
                            if was == Some(node.id@) {
                                None
                            } else {
                                was
                            }
                        },
                    };
                    &&& x < old(self).width()
                    &&& (y < old(self).cells().len() || old(self).expandable())
                    &&& final(self).cells().len() == rows_after
                    &&& final(self).cell_at(x as int, y as int) == written
                    &&& forall|cx: int, cy: int|
                        !(cx == x && cy == y) ==> final(self).cell_at(cx, cy) == old(self).cell_at(
                            cx,
                            cy,
                        )
                },
                Err(e) => {
                    &&& e == (InnerGridError::OutOfBoundsAccess { x, y })
                    &&& !(x < old(self).width() && (y < old(self).cells().len() || old(self).expandable()))
                    &&& final(self).cells() == old(self).cells()
                },
            },
    {
        let cell = match self.get(x, y) {
            Some(c) => c,
            None => {
                proof {
                    assert(self.cells() =~= old(self).cells());
                }
                return Err(InnerGridError::OutOfBoundsAccess { x, y });
            },
        };
        let write_back: Option<String> = match operation {
            UpdateGridOperation::Add => Some(node.id.clone()),
            UpdateGridOperation::Remove => {
                let clear = match &cell {
                    Some(held) => *held == node.id,
                    None => false,
                };
                if clear {
                    None
                } else {
                    cell
                }
            },
        };
        let ok = grid_set(&mut self.inner, y, x, write_back);
        proof {
            assert(ok);
        }
        Ok(())
    }
}

} // verus!
