//! Grid path finding and steering decisions for movable units.
//!
//! The library works on a grid of cells: a cell is free when its value is
//! zero. Units move between neighbouring cells in one of eight compass
//! headings; turning costs inertia. `search` finds a path of such moves with
//! an A* search, and `steering` holds the decisions a unit takes while it
//! follows a path.

pub mod heading;
pub mod coords;
pub mod grid;
pub mod search;
pub mod steering;
