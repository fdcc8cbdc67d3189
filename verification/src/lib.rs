//! A grid-maze engine: rectangular cell topologies, passage carving by the
//! binary-tree and sidewinder algorithms, breadth-first shortest distances
//! over the carved passages, and text and SVG renderings of the result.

use vstd::prelude::*;

pub mod algos;
pub mod base_grid;
pub mod cell;
pub mod distances;
pub mod djikstra;
pub mod grid;
pub mod render;
pub mod rng;
pub mod topology;

verus! {

/// A grid coordinate. `x` grows eastward, `y` grows southward, and the cell
/// at `(x, y)` sits at index `y * width + x` of a grid's row-major cell
/// sequence.
#[derive(Debug, Eq, PartialEq, Hash, Clone, Copy, Structural)]
pub struct Position {
    pub x: i32,
    pub y: i32,
}

/// A compass direction, used only to select an entry of a cell's neighbour
/// table.
#[derive(Debug, Eq, PartialEq, Hash, Clone, Copy, Structural)]
pub enum Direction {
    North,
    East,
    South,
    West,
}

} // verus!
