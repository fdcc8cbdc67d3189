//! The grid: owns the cell topology and the link (passage) relation, and
//! answers adjacency and connectivity queries.

use vstd::prelude::*;

use crate::base_grid::{grid_cells_wf, GridSetup};
use crate::cell::Cell;
use crate::rng::thread_index;
use crate::topology::{
    has_link, lemma_pos_index_bounds, links_view, pos_in_bounds, pos_index,
};
use crate::Position;

verus! {

/// The grid invariant: dimensions are non-negative and fit the machine,
/// cells carry exactly the in-bounds neighbour tables, and the link
/// relation holds one entry list per cell.
pub open spec fn grid_inv(
    cells: Seq<Cell>,
    width: int,
    height: int,
    lv: Seq<Seq<Position>>,
) -> bool {
    &&& 0 <= width
    &&& 0 <= height
    &&& width * height <= i32::MAX
    &&& grid_cells_wf(cells, width, height)
    &&& lv.len() == width * height
}

/// The query and mutation surface shared by every kind of grid. Cells and
/// dimensions are fixed at construction; only the link relation changes, and
/// only as a whole (carving algorithms compute the full updated relation and
/// install it with `set_links`).
pub trait Grid: Sized {
    spec fn spec_cells(&self) -> Seq<Cell>;

    spec fn spec_width(&self) -> int;

    spec fn spec_height(&self) -> int;

    spec fn spec_links(&self) -> Seq<Seq<Position>>;

    fn map(&self) -> (r: &Vec<Cell>)
        ensures
            r@ == self.spec_cells(),
    ;

    fn width(&self) -> (r: i32)
        ensures
            r as int == self.spec_width(),
    ;

    fn height(&self) -> (r: i32)
        ensures
            r as int == self.spec_height(),
    ;

    fn links(&self) -> (r: &Vec<Vec<Position>>)
        ensures
            links_view(r@) == self.spec_links(),
    ;

    /// Replaces the link relation wholesale; topology is untouched.
    fn set_links(&mut self, links: Vec<Vec<Position>>)
        ensures
            final(self).spec_links() == links_view(links@),
            final(self).spec_cells() == old(self).spec_cells(),
            final(self).spec_width() == old(self).spec_width(),
            final(self).spec_height() == old(self).spec_height(),
    ;

    /// Number of cells.
    fn size(&self) -> (r: i32)
        requires
            grid_inv(self.spec_cells(), self.spec_width(), self.spec_height(), self.spec_links()),
        ensures
            r as int == self.spec_width() * self.spec_height(),
    {
        proof {
            assert(0 <= self.spec_width() * self.spec_height()) by (nonlinear_arith)
                requires
                    0 <= self.spec_width(),
                    0 <= self.spec_height(),
            ;
        }
        self.width() * self.height()
    }

    /// Records a one-directional passage entry from `start` to `neighbour`.
    /// The caller owes `neighbour` being adjacent to `start` for the result
    /// to render meaningfully; the relation itself only asks that `start` be
    /// a cell of the grid.
    fn link(&mut self, start: &Position, neighbour: &Position)
        requires
            grid_inv(old(self).spec_cells(), old(self).spec_width(), old(self).spec_height(), old(self).spec_links()),
            pos_in_bounds(old(self).spec_width(), old(self).spec_height(), *start),
        ensures
            final(self).spec_links() == old(self).spec_links().update(
                pos_index(old(self).spec_width(), *start),
                old(self).spec_links()[pos_index(old(self).spec_width(), *start)].push(
                    *neighbour,
                ),
            ),
            final(self).spec_cells() == old(self).spec_cells(),
            final(self).spec_width() == old(self).spec_width(),
            final(self).spec_height() == old(self).spec_height(),
    {
        let w = self.width();
        proof {
            lemma_pos_index_bounds(self.spec_width(), self.spec_height(), *start);
        }
        let idx = (start.y * w + start.x) as usize;
        let mut ls = crate::algos::clone_links(self.links());
        let entry = &mut ls[idx];
        entry.push(*neighbour);
        proof {
            assert(links_view(ls@) =~= old(self).spec_links().update(
                pos_index(old(self).spec_width(), *start),
                old(self).spec_links()[pos_index(old(self).spec_width(), *start)].push(
                    *neighbour,
                ),
            ));
        }
        self.set_links(ls);
    }

    /// Whether a passage entry from `start` to `pos` is recorded. Carving
    /// records every passage in both directions, so on a carved grid this
    /// answers the symmetric "is there a passage between" question; an
    /// out-of-bounds `start` simply has no entries.
    fn is_linked(&self, start: &Position, pos: &Position) -> (r: bool)
        requires
            grid_inv(self.spec_cells(), self.spec_width(), self.spec_height(), self.spec_links()),
        ensures
            r == has_link(self.spec_links(), self.spec_width(), self.spec_height(), *start, *pos),
    {
        let w = self.width();
        let h = self.height();
        if start.x < 0 || start.x >= w || start.y < 0 || start.y >= h {
            return false;
        }
        proof {
            lemma_pos_index_bounds(self.spec_width(), self.spec_height(), *start);
        }
        let idx = (start.y * w + start.x) as usize;
        let ls = self.links();
        let entry = &ls[idx];
        let ghost eseq = self.spec_links()[pos_index(self.spec_width(), *start)];
        let mut i: usize = 0;
        while i < entry.len()
            invariant
                eseq == entry@,
                eseq == self.spec_links()[pos_index(self.spec_width(), *start)],
                pos_in_bounds(self.spec_width(), self.spec_height(), *start),
                i <= entry@.len(),
                forall|j: int| 0 <= j < i ==> eseq[j] != *pos,
            decreases entry@.len() - i,
        {
            if entry[i].x == pos.x && entry[i].y == pos.y {
                proof {
                    assert(eseq[i as int] == *pos);
                    assert(eseq.contains(*pos));
                }
                return true;
            }
            i = i + 1;
        }
        false
    }

    /// The cell at `pos`, if `pos` lies on the grid.
    fn cell_at(&self, pos: &Position) -> (r: Option<&Cell>)
        requires
            grid_inv(self.spec_cells(), self.spec_width(), self.spec_height(), self.spec_links()),
        ensures
            match r {
                Some(c) => pos_in_bounds(self.spec_width(), self.spec_height(), *pos)
                    && *c == self.spec_cells()[pos_index(self.spec_width(), *pos)]
                    && c.position == *pos,
                None => !pos_in_bounds(self.spec_width(), self.spec_height(), *pos),
            },
    {
        let map = self.map();
        let mut i: usize = 0;
        while i < map.len()
            invariant
                grid_inv(self.spec_cells(), self.spec_width(), self.spec_height(), self.spec_links()),
                map@ == self.spec_cells(),
                i <= map@.len(),
                forall|j: int| 0 <= j < i ==> (#[trigger] map@[j]).position != *pos,
            decreases map@.len() - i,
        {
            if map[i].position.x == pos.x && map[i].position.y == pos.y {
                proof {
                    assert(self.spec_width() >= 1 && self.spec_height() >= 1) by (nonlinear_arith)
                        requires
                            0 <= self.spec_width(),
                            0 <= self.spec_height(),
                            (i as int) < self.spec_width() * self.spec_height(),
                    ;
                    crate::topology::lemma_pos_at_bounds(
                        self.spec_width(),
                        self.spec_height(),
                        i as int,
                    );
                    assert(map@[i as int].position == *pos);
                    lemma_pos_index_bounds(self.spec_width(), self.spec_height(), *pos);
                }
                return Some(&map[i]);
            }
            i = i + 1;
        }
        proof {
            if pos_in_bounds(self.spec_width(), self.spec_height(), *pos) {
                lemma_pos_index_bounds(self.spec_width(), self.spec_height(), *pos);
            }
        }
        None
    }

    /// One cell of the grid, selected uniformly at random.
    fn random_cell(&self) -> (c: Cell)
        requires
            grid_inv(self.spec_cells(), self.spec_width(), self.spec_height(), self.spec_links()),
            self.spec_width() >= 1,
            self.spec_height() >= 1,
        ensures
            pos_in_bounds(self.spec_width(), self.spec_height(), c.position),
            c == self.spec_cells()[pos_index(self.spec_width(), c.position)],
    {
        let w = self.width();
        let h = self.height();
        let y = thread_index(h as usize);
        let x = thread_index(w as usize);
        let ghost p = Position { x: x as i32, y: y as i32 };
        proof {
            lemma_pos_index_bounds(self.spec_width(), self.spec_height(), p);
        }
        let idx = y * (w as usize) + x;
        let c = self.map()[idx];
        proof {
            crate::topology::lemma_pos_at_bounds(
                self.spec_width(),
                self.spec_height(),
                idx as int,
            );
        }
        c
    }
}

/// The ordinary rectangular grid.
#[derive(Debug, Eq, PartialEq)]
pub struct StandardGrid {
    pub map: Vec<Cell>,
    pub width: i32,
    pub height: i32,
    pub links: Vec<Vec<Position>>,
}

impl StandardGrid {
    /// A fully configured but uncarved grid: every cell knows its in-bounds
    /// neighbours, and the link relation is empty.
    pub fn new(width: i32, height: i32) -> (g: StandardGrid)
        requires
            0 <= width,
            0 <= height,
            width * height <= i32::MAX,
        ensures
            grid_inv(g.spec_cells(), g.spec_width(), g.spec_height(), g.spec_links()),
            g.spec_width() == width as int,
            g.spec_height() == height as int,
            grid_cells_wf(g.spec_cells(), width as int, height as int),
            crate::topology::links_all_empty(g.spec_links()),
    {
        let mut map = Self::prepare_map(width, height);
        Self::configure_cells(&mut map, width, height);
        proof {
            assert(0 <= width * height) by (nonlinear_arith)
                requires
                    0 <= width,
                    0 <= height,
            ;
        }
        let n = (width * height) as usize;
        let mut links: Vec<Vec<Position>> = Vec::new();
        while links.len() < n
            invariant
                links@.len() <= n,
                forall|i: int| 0 <= i < links@.len() ==> (#[trigger] links@[i])@.len() == 0,
            decreases n - links@.len(),
        {
            links.push(Vec::new());
        }
        StandardGrid { map, width, height, links }
    }

    /// The text rendering of the maze, with a blank inside every cell.
    pub fn to_text(&self) -> (s: String)
        requires
            grid_inv(self.spec_cells(), self.spec_width(), self.spec_height(), self.spec_links()),
        ensures
            s@ == crate::render::render_text_spec(
                self.spec_links(),
                self.spec_width(),
                self.spec_height(),
                crate::render::blank_bodies(self.spec_width() * self.spec_height()),
            ),
    {
        proof {
            assert(0 <= self.spec_width() * self.spec_height()) by (nonlinear_arith)
                requires
                    0 <= self.spec_width(),
                    0 <= self.spec_height(),
            ;
        }
        let n = (self.width * self.height) as usize;
        let mut bodies: Vec<char> = Vec::new();
        while bodies.len() < n
            invariant
                bodies@.len() <= n,
                forall|j: int| 0 <= j < bodies@.len() ==> #[trigger] bodies@[j] == ' ',
            decreases n - bodies@.len(),
        {
            bodies.push(' ');
        }
        proof {
            assert(bodies@ =~= crate::render::blank_bodies(
                self.spec_width() * self.spec_height(),
            ));
        }
        crate::render::render_text(&self.links, self.width, self.height, &bodies)
    }
}

impl Grid for StandardGrid {
    open spec fn spec_cells(&self) -> Seq<Cell> {
        self.map@
    }

    open spec fn spec_width(&self) -> int {
        self.width as int
    }

    open spec fn spec_height(&self) -> int {
        self.height as int
    }

    open spec fn spec_links(&self) -> Seq<Seq<Position>> {
        links_view(self.links@)
    }

    fn map(&self) -> (r: &Vec<Cell>) {
        &self.map
    }

    fn width(&self) -> (r: i32) {
        self.width
    }

    fn height(&self) -> (r: i32) {
        self.height
    }

    fn links(&self) -> (r: &Vec<Vec<Position>>) {
        &self.links
    }

    fn set_links(&mut self, links: Vec<Vec<Position>>) {
        self.links = links;
    }
}

impl GridSetup for StandardGrid {
}

impl crate::base_grid::Svg for StandardGrid {
}

} // verus!
