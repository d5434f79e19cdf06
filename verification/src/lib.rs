//! A layout engine for 2D widget grids: rectangular items are placed on a
//! fixed-width, vertically growable grid, and items that would otherwise
//! overlap are pushed downward by a cascading collision-resolution pass.
//!
//! The crate keeps two structures in sync: a spatial grid of optional item
//! ids ([`inner_grid::InnerGrid`]) and a registry of items with their
//! geometry (held by [`grid_engine::GridEngine`]). Every committed operation
//! preserves the consistency invariant between the two: a grid cell holding
//! an id always lies inside the rectangle registered for that id.

pub mod error;
pub mod grid_engine;
pub mod grid_events;
pub mod grid_view;
pub mod inner_grid;
pub mod node;
pub mod utils;
