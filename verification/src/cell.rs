//! A single grid location and its fixed neighbour table.

use vstd::prelude::*;

use crate::topology::{east_of, north_of, pos_in_bounds, south_of, west_of};
use crate::{Direction, Position};

verus! {

/// The neighbour table of a cell: the position of the adjacent cell in each
/// compass direction, absent where the grid boundary is reached.
#[derive(Debug, Eq, PartialEq, Clone, Copy)]
pub struct Neighbours {
    pub north: Option<Position>,
    pub east: Option<Position>,
    pub south: Option<Position>,
    pub west: Option<Position>,
}

/// A grid location. Cells are pure topology descriptors: they are fully
/// formed at grid construction and never change afterwards; passage state
/// lives in the grid's link relation, not here.
#[derive(Debug, Eq, PartialEq, Clone, Copy)]
pub struct Cell {
    pub position: Position,
    pub neighbours: Neighbours,
}

/// The neighbour table a cell at `p` must carry on a `width` by `height`
/// grid: every in-bounds compass neighbour, and nothing else.
pub open spec fn cell_configured(c: Cell, width: int, height: int) -> bool {
    &&& c.neighbours.north == if c.position.y > 0 {
        Some(north_of(c.position))
    } else {
        None::<Position>
    }
    &&& c.neighbours.south == if c.position.y < height - 1 {
        Some(south_of(c.position))
    } else {
        None::<Position>
    }
    &&& c.neighbours.west == if c.position.x > 0 {
        Some(west_of(c.position))
    } else {
        None::<Position>
    }
    &&& c.neighbours.east == if c.position.x < width - 1 {
        Some(east_of(c.position))
    } else {
        None::<Position>
    }
}

impl Cell {
    /// A bare cell at `(x, y)` with an empty neighbour table; the grid fills
    /// the table in while configuring its cells.
    pub fn new(x: i32, y: i32) -> (c: Cell)
        ensures
            c.position == (Position { x, y }),
            c.neighbours.north is None,
            c.neighbours.east is None,
            c.neighbours.south is None,
            c.neighbours.west is None,
    {
        Cell {
            position: Position { x, y },
            neighbours: Neighbours { north: None, east: None, south: None, west: None },
        }
    }

    /// The neighbour in the given direction, absent at the grid boundary.
    pub fn neighbour(&self, dir: Direction) -> (r: Option<Position>)
        ensures
            r == match dir {
                Direction::North => self.neighbours.north,
                Direction::East => self.neighbours.east,
                Direction::South => self.neighbours.south,
                Direction::West => self.neighbours.west,
            },
    {
        match dir {
            Direction::North => self.neighbours.north,
            Direction::East => self.neighbours.east,
            Direction::South => self.neighbours.south,
            Direction::West => self.neighbours.west,
        }
    }

    /// All present neighbours, in north, east, south, west order.
    pub fn get_neighbours(&self) -> (v: Vec<Position>)
        ensures
            v@ == Seq::<Position>::empty().push_maybe(self.neighbours.north).push_maybe(
                self.neighbours.east,
            ).push_maybe(self.neighbours.south).push_maybe(self.neighbours.west),
    {
        let mut v: Vec<Position> = Vec::new();
        if let Some(p) = self.neighbours.north {
            v.push(p);
        }
        if let Some(p) = self.neighbours.east {
            v.push(p);
        }
        if let Some(p) = self.neighbours.south {
            v.push(p);
        }
        if let Some(p) = self.neighbours.west {
            v.push(p);
        }
        v
    }
}

pub trait SeqPushMaybe {
    spec fn push_maybe(self, e: Option<Position>) -> Self;
}

impl SeqPushMaybe for Seq<Position> {
    open spec fn push_maybe(self, e: Option<Position>) -> Seq<Position> {
        match e {
            Some(p) => self.push(p),
            None => self,
        }
    }
}

} // verus!
