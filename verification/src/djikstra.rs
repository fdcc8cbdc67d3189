//! A grid whose text rendering labels every reachable cell with its
//! shortest hop count from the north-west corner, printed as a base-36
//! digit.

use vstd::prelude::*;

use crate::base_grid::{grid_cells_wf, GridSetup};
use crate::cell::Cell;
use crate::distances::{dist_map_correct, distances};
use crate::grid::{grid_inv, Grid};
use crate::render::{render_text, render_text_spec};
use crate::topology::{links_view, links_wf, pos_index};
use crate::Position;

verus! {

/// The base-36 digit for `n`: `0`-`9` then `a`-`z`.
pub open spec fn digit36_spec(n: int) -> char {
    if n < 10 {
        ((48 + n) as u8) as char
    } else {
        ((87 + n) as u8) as char
    }
}

/// The body character for each cell of a distance map: its hop count as a
/// base-36 digit, or a blank where the count does not fit in one digit or
/// the cell is unreachable.
pub open spec fn body_chars(ds: Seq<Option<i32>>) -> Seq<char> {
    Seq::new(
        ds.len(),
        |i: int|
            match ds[i] {
                Some(k) => if 0 <= k < 36 {
                    digit36_spec(k as int)
                } else {
                    ' '
                },
                None => ' ',
            },
    )
}

/// The base-36 digit character for `n`, absent above base 36 or below zero.
pub fn digit36(n: i32) -> (c: Option<char>)
    ensures
        c == if 0 <= n < 36 {
            Some(digit36_spec(n as int))
        } else {
            None::<char>
        },
{
    if 0 <= n && n < 10 {
        Some((48u8 + (n as u8)) as char)
    } else if 10 <= n && n < 36 {
        Some((87u8 + (n as u8)) as char)
    } else {
        None
    }
}

/// A grid that renders shortest distances from its first cell.
#[derive(Debug, Eq, PartialEq)]
pub struct DjikstraGrid {
    pub map: Vec<Cell>,
    pub width: i32,
    pub height: i32,
    pub links: Vec<Vec<Position>>,
}

impl DjikstraGrid {
    /// A fully configured but uncarved grid, exactly as `StandardGrid::new`
    /// builds one.
    pub fn new(width: i32, height: i32) -> (g: DjikstraGrid)
        requires
            0 <= width,
            0 <= height,
            width * height <= i32::MAX,
        ensures
            grid_inv(g.spec_cells(), g.spec_width(), g.spec_height(), g.spec_links()),
            g.spec_width() == width as int,
            g.spec_height() == height as int,
            grid_cells_wf(g.spec_cells(), width as int, height as int),
            crate::topology::links_all_empty(g.spec_links()),
    {
        let mut map = Self::prepare_map(width, height);
        Self::configure_cells(&mut map, width, height);
        proof {
            assert(0 <= width * height) by (nonlinear_arith)
                requires
                    0 <= width,
                    0 <= height,
            ;
        }
        let n = (width * height) as usize;
        let mut links: Vec<Vec<Position>> = Vec::new();
        while links.len() < n
            invariant
                links@.len() <= n,
                forall|i: int| 0 <= i < links@.len() ==> (#[trigger] links@[i])@.len() == 0,
            decreases n - links@.len(),
        {
            links.push(Vec::new());
        }
        DjikstraGrid { map, width, height, links }
    }

    /// The shortest hop count from the north-west corner to `cell`, as a
    /// one-character string: a base-36 digit, or a blank for an unreachable
    /// cell or a count above one digit.
    pub fn contents_of(&self, cell: &Cell) -> (s: String)
        requires
            grid_inv(self.spec_cells(), self.spec_width(), self.spec_height(), self.spec_links()),
            self.spec_width() >= 1,
            self.spec_height() >= 1,
            links_wf(self.spec_links(), self.spec_width(), self.spec_height()),
            crate::topology::pos_in_bounds(
                self.spec_width(),
                self.spec_height(),
                cell.position,
            ),
        ensures
            s@.len() == 1,
            exists|ds: Seq<Option<i32>>|
                dist_map_correct(
                    self.spec_links(),
                    self.spec_width(),
                    self.spec_height(),
                    Position { x: 0, y: 0 },
                    ds,
                ) && s@[0] == body_chars(ds)[pos_index(self.spec_width(), cell.position)],
    {
        proof {
            assert(1 <= self.spec_width() * self.spec_height()) by (nonlinear_arith)
                requires
                    1 <= self.spec_width(),
                    1 <= self.spec_height(),
            ;
        }
        let root = self.map[0].position;
        proof {
            crate::topology::lemma_pos_at_bounds(self.spec_width(), self.spec_height(), 0);
            assert(root == Position { x: 0, y: 0 });
        }
        let ds = distances(&root, &self.links, self.width, self.height);
        proof {
            crate::topology::lemma_pos_index_bounds(
                self.spec_width(),
                self.spec_height(),
                cell.position,
            );
        }
        let ci = (cell.position.y * self.width + cell.position.x) as usize;
        let s = match ds[ci] {
            Some(num) => match digit36(num) {
                Some(ch) => {
                    let mut s = String::new();
                    crate::render::push_char(&mut s, ch);
                    s
                },
                None => {
                    let s = " ".to_owned();
                    proof {
                        reveal_strlit(" ");
                    }
                    s
                },
            },
            None => {
                let s = " ".to_owned();
                proof {
                    reveal_strlit(" ");
                }
                s
            },
        };
        proof {
            assert(s@[0] == body_chars(ds@)[pos_index(self.spec_width(), cell.position)]);
        }
        s
    }

    /// The text rendering of the maze with every cell labelled by its
    /// shortest hop count from the north-west corner.
    pub fn to_text(&self) -> (s: String)
        requires
            grid_inv(self.spec_cells(), self.spec_width(), self.spec_height(), self.spec_links()),
            self.spec_width() >= 1,
            self.spec_height() >= 1,
            links_wf(self.spec_links(), self.spec_width(), self.spec_height()),
        ensures
            exists|ds: Seq<Option<i32>>|
                dist_map_correct(
                    self.spec_links(),
                    self.spec_width(),
                    self.spec_height(),
                    Position { x: 0, y: 0 },
                    ds,
                ) && s@ == render_text_spec(
                    self.spec_links(),
                    self.spec_width(),
                    self.spec_height(),
                    body_chars(ds),
                ),
    {
        proof {
            assert(1 <= self.spec_width() * self.spec_height()) by (nonlinear_arith)
                requires
                    1 <= self.spec_width(),
                    1 <= self.spec_height(),
            ;
        }
        let root = self.map[0].position;
        proof {
            crate::topology::lemma_pos_at_bounds(self.spec_width(), self.spec_height(), 0);
            assert(root == Position { x: 0, y: 0 });
        }
        let ds = distances(&root, &self.links, self.width, self.height);
        let mut bodies: Vec<char> = Vec::new();
        let mut i: usize = 0;
        while i < ds.len()
            invariant
                i <= ds@.len(),
                bodies@.len() == i,
                forall|j: int| 0 <= j < i ==> #[trigger] bodies@[j] == body_chars(ds@)[j],
            decreases ds@.len() - i,
        {
            match ds[i] {
                Some(num) => match digit36(num) {
                    Some(ch) => bodies.push(ch),
                    None => bodies.push(' '),
                },
                None => bodies.push(' '),
            }
            i = i + 1;
        }
        proof {
            assert(bodies@ =~= body_chars(ds@));
        }
        let s = render_text(&self.links, self.width, self.height, &bodies);
        s
    }
}

impl Grid for DjikstraGrid {
    open spec fn spec_cells(&self) -> Seq<Cell> {
        self.map@
    }

    open spec fn spec_width(&self) -> int {
        self.width as int
    }

    open spec fn spec_height(&self) -> int {
        self.height as int
    }

    open spec fn spec_links(&self) -> Seq<Seq<Position>> {
        links_view(self.links@)
    }

    fn map(&self) -> (r: &Vec<Cell>) {
        &self.map
    }

    fn width(&self) -> (r: i32) {
        self.width
    }

    fn height(&self) -> (r: i32) {
        self.height
    }

    fn links(&self) -> (r: &Vec<Vec<Position>>) {
        &self.links
    }

    fn set_links(&mut self, links: Vec<Vec<Position>>) {
        self.links = links;
    }
}

impl GridSetup for DjikstraGrid {
}

impl crate::base_grid::Svg for DjikstraGrid {
}

} // verus!
