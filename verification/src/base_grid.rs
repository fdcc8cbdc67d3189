//! Construction of a grid's cell sequence: one cell per coordinate, each
//! carrying its full in-bounds neighbour table.

use vstd::prelude::*;

use crate::cell::{cell_configured, Cell};
use crate::grid::{grid_inv, Grid};
use crate::render::{has_entry, push_char};
use crate::topology::{has_link, lemma_pos_index_bounds, links_view, pos_at};
use crate::Position;

verus! {

/// The decimal digits of a non-negative number.
pub open spec fn dec_str(n: int) -> Seq<char>
    decreases n,
{
    if n < 10 {
        seq![((48 + n) as u8) as char]
    } else {
        dec_str(n / 10) + seq![((48 + n % 10) as u8) as char]
    }
}

/// One SVG wall segment from `(x1, y1)` to `(x2, y2)`.
pub open spec fn svg_line_spec(x1: int, y1: int, x2: int, y2: int, colour: Seq<char>) -> Seq<
    char,
> {
    "<line x1=\""@ + dec_str(x1) + "\" y1=\""@ + dec_str(y1) + "\" x2=\""@ + dec_str(x2)
        + "\" y2=\""@ + dec_str(y2) + "\" stroke=\""@ + colour
        + "\" stroke-linecap=\"square\" />"@
}

/// The wall segments of the cell at `(x, y)`, each a sixteen-pixel square:
/// north and west only on the grid boundary, east and south on the boundary
/// or wherever no link is recorded in that direction.
pub open spec fn svg_cell(
    lv: Seq<Seq<Position>>,
    width: int,
    height: int,
    x: int,
    y: int,
) -> Seq<char> {
    let black = "black"@;
    (if y == 0 {
        svg_line_spec(16 * x, 16 * y, 16 * (x + 1), 16 * y, black)
    } else {
        Seq::<char>::empty()
    }) + (if x == 0 {
        svg_line_spec(16 * x, 16 * y, 16 * x, 16 * (y + 1), black)
    } else {
        Seq::<char>::empty()
    }) + (if x == width - 1 || !has_link(
        lv,
        width,
        height,
        Position { x: x as i32, y: y as i32 },
        Position { x: (x + 1) as i32, y: y as i32 },
    ) {
        svg_line_spec(16 * (x + 1), 16 * y, 16 * (x + 1), 16 * (y + 1), black)
    } else {
        Seq::<char>::empty()
    }) + (if y == height - 1 || !has_link(
        lv,
        width,
        height,
        Position { x: x as i32, y: y as i32 },
        Position { x: x as i32, y: (y + 1) as i32 },
    ) {
        svg_line_spec(16 * x, 16 * (y + 1), 16 * (x + 1), 16 * (y + 1), black)
    } else {
        Seq::<char>::empty()
    })
}

/// The wall segments of row `y`, up to column `x`.
pub open spec fn svg_row(
    lv: Seq<Seq<Position>>,
    width: int,
    height: int,
    y: int,
    x: int,
) -> Seq<char>
    decreases x,
{
    if x <= 0 {
        Seq::<char>::empty()
    } else {
        svg_row(lv, width, height, y, x - 1) + svg_cell(lv, width, height, x - 1, y)
    }
}

/// The wall segments of the rows above `y`.
pub open spec fn svg_rows(lv: Seq<Seq<Position>>, width: int, height: int, y: int) -> Seq<char>
    decreases y,
{
    if y <= 0 {
        Seq::<char>::empty()
    } else {
        svg_rows(lv, width, height, y - 1) + svg_row(lv, width, height, y - 1, width)
    }
}

/// The full SVG image of a grid's walls.
pub open spec fn svg_spec(lv: Seq<Seq<Position>>, width: int, height: int) -> Seq<char> {
    "<svg viewBox=\"0 0 "@ + dec_str(16 * width) + seq![' '] + dec_str(16 * height)
        + "\" xmlns=\"http://www.w3.org/2000/svg\">"@ + svg_rows(lv, width, height, height)
        + "</svg>"@
}

/// The decimal rendering of `n`.
pub fn u32_to_string(n: u32) -> (s: String)
    ensures
        s@ == dec_str(n as int),
    decreases n,
{
    if n < 10 {
        let mut s = String::new();
        push_char(&mut s, (48u8 + (n as u8)) as char);
        proof {
            assert(s@ =~= dec_str(n as int));
        }
        s
    } else {
        let mut s = u32_to_string(n / 10);
        push_char(&mut s, (48u8 + ((n % 10) as u8)) as char);
        proof {
            assert(s@ =~= dec_str(n as int));
        }
        s
    }
}

/// The cell sequence of a well-formed grid: row-major positions, every
/// neighbour table exactly the in-bounds compass neighbours.
pub open spec fn grid_cells_wf(cells: Seq<Cell>, width: int, height: int) -> bool {
    &&& cells.len() == width * height
    &&& forall|i: int|
        0 <= i < cells.len() ==> (#[trigger] cells[i]).position == pos_at(width, i)
            && cell_configured(cells[i], width, height)
}

/// Builds a grid's cell sequence. Separate from the grid types so that a
/// different kind of grid can override parts of the setup.
pub trait GridSetup: Sized {
    /// One bare cell per coordinate of `[0, width) x [0, height)`, in
    /// row-major order.
    fn prepare_map(width: i32, height: i32) -> (map: Vec<Cell>)
        requires
            0 <= width,
            0 <= height,
            width * height <= i32::MAX,
        ensures
            map@.len() == width * height,
            forall|i: int|
                0 <= i < map@.len() ==> (#[trigger] map@[i]).position == pos_at(width as int, i),
    {
        let mut map: Vec<Cell> = Vec::new();
        let mut y: i32 = 0;
        while y < height
            invariant
                0 <= width,
                0 <= y <= height,
                width * height <= i32::MAX,
                map@.len() == y * width,
                forall|i: int|
                    0 <= i < map@.len() ==> (#[trigger] map@[i]).position == pos_at(
                        width as int,
                        i,
                    ),
            decreases height - y,
        {
            let mut x: i32 = 0;
            proof {
                assert(y * width >= 0 && (y + 1) * width == y * width + width && (y + 1) * width
                    <= width * height) by (nonlinear_arith)
                    requires
                        0 <= y < height,
                        0 <= width,
                ;
            }
            while x < width
                invariant
                    0 <= width,
                    0 <= y < height,
                    0 <= x <= width,
                    width * height <= i32::MAX,
                    y * width + width <= width * height,
                    map@.len() == y * width + x,
                    forall|i: int|
                        0 <= i < map@.len() ==> (#[trigger] map@[i]).position == pos_at(
                            width as int,
                            i,
                        ),
                decreases width - x,
            {
                proof {
                    lemma_pos_index_bounds(width as int, height as int, Position { x, y });
                }
                map.push(Cell::new(x, y));
                x = x + 1;
            }
            y = y + 1;
        }
        proof {
            assert(y * width == width * height) by (nonlinear_arith)
            requires
                y == height,
            ;
        }
        map
    }

    /// Fills each cell's neighbour table with every in-bounds compass
    /// neighbour; edge and corner cells keep fewer than four.
    fn configure_cells(map: &mut Vec<Cell>, width: i32, height: i32)
        requires
            0 <= width,
            0 <= height,
            width * height <= i32::MAX,
            old(map)@.len() == width * height,
            forall|i: int|
                0 <= i < old(map)@.len() ==> (#[trigger] old(map)@[i]).position == pos_at(
                    width as int,
                    i,
                ),
        ensures
            grid_cells_wf(final(map)@, width as int, height as int),
    {
        let mut i: usize = 0;
        while i < map.len()
            invariant
                0 <= width,
                0 <= height,
                width * height <= i32::MAX,
                map@.len() == width * height,
                i <= map@.len(),
                forall|j: int|
                    0 <= j < map@.len() ==> (#[trigger] map@[j]).position == pos_at(
                        width as int,
                        j,
                    ),
                forall|j: int|
                    0 <= j < i ==> cell_configured(#[trigger] map@[j], width as int, height as int),
            decreases map@.len() - i,
        {
            let mut cell = map[i];
            proof {
                crate::topology::lemma_pos_at_bounds(width as int, height as int, i as int);
            }
            let row = cell.position.y;
            let col = cell.position.x;
            if row > 0 {
                cell.neighbours.north = Some(Position { x: col, y: row - 1 });
            } else {
                cell.neighbours.north = None;
            }
            if row < height - 1 {
                cell.neighbours.south = Some(Position { x: col, y: row + 1 });
            } else {
                cell.neighbours.south = None;
            }
            if col > 0 {
                cell.neighbours.west = Some(Position { x: col - 1, y: row });
            } else {
                cell.neighbours.west = None;
            }
            if col < width - 1 {
                cell.neighbours.east = Some(Position { x: col + 1, y: row });
            } else {
                cell.neighbours.east = None;
            }
            map[i] = cell;
            i = i + 1;
        }
    }

    /// What the text renderer prints inside a cell: a single character.
    /// The plain grid shows a blank; a distance-annotated grid overrides
    /// this with the cell's hop count.
    fn contents_of(&self, cell: &Cell) -> (s: String)
        ensures
            s@.len() == 1,
    {
        let s = " ".to_owned();
        proof {
            reveal_strlit(" ");
        }
        s
    }
}

/// Renders a grid's walls as an SVG vector image, each cell a sixteen-pixel
/// square.
pub trait Svg: Grid {
    /// One wall segment.
    fn svg_line(x1: i32, y1: i32, x2: i32, y2: i32, wall_colour: &str) -> (s: String)
        requires
            0 <= x1,
            0 <= y1,
            0 <= x2,
            0 <= y2,
        ensures
            s@ == svg_line_spec(x1 as int, y1 as int, x2 as int, y2 as int, wall_colour@),
    {
        proof {
            reveal_strlit("<line x1=\"");
            reveal_strlit("\" y1=\"");
            reveal_strlit("\" x2=\"");
            reveal_strlit("\" y2=\"");
            reveal_strlit("\" stroke=\"");
            reveal_strlit("\" stroke-linecap=\"square\" />");
        }
        let mut s = String::new();
        s.append("<line x1=\"");
        let d = u32_to_string(x1 as u32);
        s.append(d.as_str());
        s.append("\" y1=\"");
        let d = u32_to_string(y1 as u32);
        s.append(d.as_str());
        s.append("\" x2=\"");
        let d = u32_to_string(x2 as u32);
        s.append(d.as_str());
        s.append("\" y2=\"");
        let d = u32_to_string(y2 as u32);
        s.append(d.as_str());
        s.append("\" stroke=\"");
        s.append(wall_colour);
        s.append("\" stroke-linecap=\"square\" />");
        proof {
            assert(s@ =~= svg_line_spec(
                x1 as int,
                y1 as int,
                x2 as int,
                y2 as int,
                wall_colour@,
            ));
        }
        s
    }

    /// The SVG image of the grid: a wall on every north and west boundary,
    /// and on every east and south edge that is a boundary or carries no
    /// recorded link.
    #[verifier::rlimit(50)]
    fn draw(&self) -> (s: String)
        requires
            grid_inv(self.spec_cells(), self.spec_width(), self.spec_height(), self.spec_links()),
            16 * self.spec_width() <= i32::MAX,
            16 * self.spec_height() <= i32::MAX,
        ensures
            s@ == svg_spec(self.spec_links(), self.spec_width(), self.spec_height()),
    {
        let ghost w = self.spec_width();
        let ghost h = self.spec_height();
        let ghost lv = self.spec_links();
        let width = self.width();
        let height = self.height();
        let links = self.links();
        let wall_colour = "black";
        let mut body = String::new();
        let mut y: i32 = 0;
        while y < height
            invariant
                w == self.spec_width(),
                h == self.spec_height(),
                lv == self.spec_links(),
                grid_inv(self.spec_cells(), w, h, lv),
                width as int == w,
                height as int == h,
                16 * w <= i32::MAX,
                16 * h <= i32::MAX,
                links_view(links@) == lv,
                links@.len() == w * h,
                wall_colour@ == "black"@,
                0 <= y <= height,
                body@ == svg_rows(lv, w, h, y as int),
            decreases height - y,
        {
            let mut x: i32 = 0;
            while x < width
                invariant
                    w == self.spec_width(),
                    h == self.spec_height(),
                    lv == self.spec_links(),
                    grid_inv(self.spec_cells(), w, h, lv),
                    width as int == w,
                    height as int == h,
                    16 * w <= i32::MAX,
                    16 * h <= i32::MAX,
                    links_view(links@) == lv,
                    links@.len() == w * h,
                    wall_colour@ == "black"@,
                    0 <= y < height,
                    0 <= x <= width,
                    body@ == svg_rows(lv, w, h, y as int) + svg_row(lv, w, h, y as int, x as int),
                decreases width - x,
            {
                let x1 = x * 16;
                let y1 = y * 16;
                let x2 = (x + 1) * 16;
                let y2 = (y + 1) * 16;
                if y == 0 {
                    let line = Self::svg_line(x1, y1, x2, y1, wall_colour);
                    body.append(line.as_str());
                }
                if x == 0 {
                    let line = Self::svg_line(x1, y1, x1, y2, wall_colour);
                    body.append(line.as_str());
                }
                let east_open = has_entry(
                    links,
                    width,
                    height,
                    Position { x, y },
                    Position { x: x + 1, y },
                );
                if x == width - 1 || !east_open {
                    let line = Self::svg_line(x2, y1, x2, y2, wall_colour);
                    body.append(line.as_str());
                }
                let south_open = has_entry(
                    links,
                    width,
                    height,
                    Position { x, y },
                    Position { x, y: y + 1 },
                );
                if y == height - 1 || !south_open {
                    let line = Self::svg_line(x1, y2, x2, y2, wall_colour);
                    body.append(line.as_str());
                }
                proof {
                    assert(body@ =~= svg_rows(lv, w, h, y as int) + svg_row(
                        lv,
                        w,
                        h,
                        y as int,
                        x + 1,
                    ));
                }
                x = x + 1;
            }
            proof {
                assert(body@ =~= svg_rows(lv, w, h, y + 1));
            }
            y = y + 1;
        }
        proof {
            reveal_strlit("<svg viewBox=\"0 0 ");
            reveal_strlit(" ");
            reveal_strlit("\" xmlns=\"http://www.w3.org/2000/svg\">");
            reveal_strlit("</svg>");
        }
        let mut out = String::new();
        out.append("<svg viewBox=\"0 0 ");
        let d = u32_to_string((width * 16) as u32);
        out.append(d.as_str());
        out.append(" ");
        let d = u32_to_string((height * 16) as u32);
        out.append(d.as_str());
        out.append("\" xmlns=\"http://www.w3.org/2000/svg\">");
        out.append(body.as_str());
        out.append("</svg>");
        proof {
            assert(out@ =~= svg_spec(lv, w, h));
        }
        out
    }
}

} // verus!
