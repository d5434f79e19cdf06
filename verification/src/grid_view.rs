//! A read-only snapshot of the engine's state, for rendering and
//! persistence collaborators.
//!
//! The snapshot carries an independent copy of the grid cells and of the
//! item registry, and exposes row and column counts, cell reads and the
//! id-ordered node list; a persisted snapshot captures both structures.

use vstd::prelude::*;

use crate::grid_engine::GridEngine;
use crate::inner_grid::InnerGrid;
use crate::node::Node;

verus! {

/// A snapshot of an engine: a copy of its grid and its registry.
pub struct GridView {
    /// The copied grid cells
    grid: InnerGrid,
    /// The copied registry, in ascending id order
    items: Vec<Node>,
}

impl GridView {
    /// The copied grid, as a specification value.
    pub closed spec fn grid_spec(self) -> InnerGrid {
        self.grid
    }

    /// The copied registry, in registry order.
    pub closed spec fn nodes_spec(self) -> Seq<Node> {
        self.items@
    }

    /// Takes a snapshot of the engine's current state.
    pub fn new(grid_engine: &GridEngine) -> (r: GridView)
        ensures
            r.grid_spec().cells() == grid_engine.grid_view().cells(),
            r.grid_spec().width() == grid_engine.grid_view().width(),
            r.nodes_spec() == grid_engine.nodes_seq(),
    {
        GridView {
            grid: grid_engine.get_inner_grid().duplicate(),
            items: grid_engine.get_nodes(),
        }
    }

    /// The snapshot's nodes, in ascending id order.
    pub fn get_nodes(&self) -> (r: Vec<Node>)
        ensures
            r@ == self.nodes_spec(),
    {
        let mut r: Vec<Node> = Vec::new();
        let mut i: usize = 0;
        while i < self.items.len()
            invariant
                i <= self.items@.len(),
                r@.len() == i,
                forall|k: int| 0 <= k < i ==> #[trigger] r@[k] == self.items@[k],
            decreases self.items@.len() - i,
        {
            r.push(self.items[i].clone());
            i = i + 1;
        }
        proof {
            assert(r@ =~= self.nodes_spec());
        }
        r
    }

    /// The snapshot's row count.
    pub fn rows(&self) -> (r: usize)
        ensures
            r == self.grid_spec().cells().len(),
    {
        self.grid.rows()
    }

    /// The snapshot's column count.
    pub fn cols(&self) -> (r: usize)
        ensures
            r == self.grid_spec().width(),
    {
        self.grid.cols()
    }

    /// The cell at `(x, y)`: `None` outside the snapshot's rows or
    /// columns, otherwise the optional id the cell holds.
    pub fn cell(&self, x: usize, y: usize) -> (r: Option<Option<String>>)
        ensures
            match r {
                Some(c) => y < self.grid_spec().cells().len() && x < self.grid_spec().width()
                    && crate::inner_grid::opt_id(c) == self.grid_spec().cells()[y as int][x as int],
                None => !(y < self.grid_spec().cells().len() && x < self.grid_spec().width()),
            },
    {
        self.grid.peek(x, y)
    }
}

} // verus!
