//! The text rendering contract: a fixed-width character grid built from the
//! link relation and a per-cell body character. Walls stand on the bounding
//! rectangle and on every internal edge without a recorded link.

use vstd::prelude::*;

use crate::topology::{has_link, lemma_pos_index_bounds, links_view, pos_index};
use crate::Position;

verus! {

/// The top border after the opening `+`: one `---+` segment per column.
pub open spec fn wall_top(width: int) -> Seq<char>
    decreases width,
{
    if width <= 0 {
        Seq::<char>::empty()
    } else {
        wall_top(width - 1) + seq!['-', '-', '-', '+']
    }
}

/// The character east of cell `(x, y)`'s body: open where a link to the
/// eastern neighbour is recorded, a wall otherwise.
pub open spec fn east_gap(
    lv: Seq<Seq<Position>>,
    width: int,
    height: int,
    x: int,
    y: int,
) -> Seq<char> {
    if has_link(
        lv,
        width,
        height,
        Position { x: x as i32, y: y as i32 },
        Position { x: (x + 1) as i32, y: y as i32 },
    ) {
        seq![' ']
    } else {
        seq!['|']
    }
}

/// The segment south of cell `(x, y)`: open where a link to the southern
/// neighbour is recorded, a wall otherwise.
pub open spec fn south_gap(
    lv: Seq<Seq<Position>>,
    width: int,
    height: int,
    x: int,
    y: int,
) -> Seq<char> {
    if has_link(
        lv,
        width,
        height,
        Position { x: x as i32, y: y as i32 },
        Position { x: x as i32, y: (y + 1) as i32 },
    ) {
        seq![' ', ' ', ' ', '+']
    } else {
        seq!['-', '-', '-', '+']
    }
}

/// The body line of row `y`, up to column `x`.
pub open spec fn row_left(
    lv: Seq<Seq<Position>>,
    width: int,
    height: int,
    bodies: Seq<char>,
    y: int,
    x: int,
) -> Seq<char>
    decreases x,
{
    if x <= 0 {
        seq!['|']
    } else {
        row_left(lv, width, height, bodies, y, x - 1) + seq![
            ' ',
            bodies[y * width + (x - 1)],
            ' ',
        ] + east_gap(lv, width, height, x - 1, y)
    }
}

/// The wall line under row `y`, up to column `x`.
pub open spec fn row_bottom(
    lv: Seq<Seq<Position>>,
    width: int,
    height: int,
    y: int,
    x: int,
) -> Seq<char>
    decreases x,
{
    if x <= 0 {
        seq!['+']
    } else {
        row_bottom(lv, width, height, y, x - 1) + south_gap(lv, width, height, x - 1, y)
    }
}

/// The rendering down to and including row `y - 1`.
pub open spec fn rows(
    lv: Seq<Seq<Position>>,
    width: int,
    height: int,
    bodies: Seq<char>,
    y: int,
) -> Seq<char>
    decreases y,
{
    if y <= 0 {
        seq!['+'] + wall_top(width) + seq!['\n']
    } else {
        rows(lv, width, height, bodies, y - 1) + row_left(lv, width, height, bodies, y - 1, width)
            + seq!['\n'] + row_bottom(lv, width, height, y - 1, width) + seq!['\n']
    }
}

/// The full text rendering of a grid: the top border, then for each row its
/// body line and the wall line beneath it.
pub open spec fn render_text_spec(
    lv: Seq<Seq<Position>>,
    width: int,
    height: int,
    bodies: Seq<char>,
) -> Seq<char> {
    rows(lv, width, height, bodies, height)
}

/// All-blank cell bodies, for grids that label nothing.
pub open spec fn blank_bodies(n: int) -> Seq<char> {
    Seq::new(
        (if n < 0 {
            0int
        } else {
            n
        }) as nat,
        |i: int| ' ',
    )
}

/// Relies on `String::push`: appends the given character to the end of the
/// string.
#[verifier::external_body]
pub(crate) fn push_char(s: &mut String, c: char)
    ensures
        final(s)@ == old(s)@.push(c),
{
    s.push(c);
}

/// Whether a passage entry from `start` to `pos` is recorded in the given
/// relation; an out-of-bounds `start` has no entries.
pub fn has_entry(
    links: &Vec<Vec<Position>>,
    width: i32,
    height: i32,
    start: Position,
    pos: Position,
) -> (r: bool)
    requires
        0 <= width,
        0 <= height,
        width * height <= i32::MAX,
        links@.len() == width * height,
    ensures
        r == has_link(links_view(links@), width as int, height as int, start, pos),
{
    let ghost w = width as int;
    let ghost h = height as int;
    let ghost lv = links_view(links@);
    if start.x < 0 || start.x >= width || start.y < 0 || start.y >= height {
        return false;
    }
    proof {
        lemma_pos_index_bounds(w, h, start);
    }
    let idx = (start.y * width + start.x) as usize;
    let entry = &links[idx];
    let mut i: usize = 0;
    while i < entry.len()
        invariant
            w == width as int,
            h == height as int,
            lv == links_view(links@),
            links@.len() == w * h,
            entry@ == lv[pos_index(w, start)],
            crate::topology::pos_in_bounds(w, h, start),
            i <= entry@.len(),
            forall|j: int| 0 <= j < i ==> entry@[j] != pos,
        decreases entry@.len() - i,
    {
        if entry[i].x == pos.x && entry[i].y == pos.y {
            proof {
                assert(entry@[i as int] == pos);
                assert(entry@.contains(pos));
            }
            return true;
        }
        i = i + 1;
    }
    false
}

/// Renders the maze as fixed-width text: `+`, `-`, `|` and spaces, with the
/// given body character inside each cell. The output is exactly the
/// rendering that `render_text_spec` describes.
pub fn render_text(links: &Vec<Vec<Position>>, width: i32, height: i32, bodies: &Vec<char>) -> (s:
    String)
    requires
        0 <= width,
        0 <= height,
        width * height <= i32::MAX,
        links@.len() == width * height,
        bodies@.len() == width * height,
    ensures
        s@ == render_text_spec(links_view(links@), width as int, height as int, bodies@),
{
    let ghost w = width as int;
    let ghost h = height as int;
    let ghost lv = links_view(links@);
    proof {
        reveal_strlit("+");
        reveal_strlit("-");
        reveal_strlit("|");
        reveal_strlit(" ");
        reveal_strlit("\n");
        reveal_strlit("---+");
        reveal_strlit("   +");
    }
    let mut out = String::new();
    out.append("+");
    let mut x: i32 = 0;
    while x < width
        invariant
            0 <= x <= width,
            out@ == seq!['+'] + wall_top(x as int),
        decreases width - x,
    {
        proof {
            reveal_strlit("---+");
        }
        out.append("---+");
        proof {
            assert(out@ =~= seq!['+'] + wall_top(x + 1));
        }
        x = x + 1;
    }
    out.append("\n");
    proof {
        assert(out@ =~= rows(lv, w, h, bodies@, 0));
    }
    let mut y: i32 = 0;
    while y < height
        invariant
            0 <= y <= height,
            0 <= width,
            0 <= height,
            w == width as int,
            h == height as int,
            w * h <= i32::MAX,
            lv == links_view(links@),
            links@.len() == w * h,
            bodies@.len() == w * h,
            out@ == rows(lv, w, h, bodies@, y as int),
        decreases height - y,
    {
        let mut left = String::new();
        left.append("|");
        let mut bottom = String::new();
        bottom.append("+");
        proof {
            reveal_strlit("|");
            reveal_strlit("+");
            assert(left@ =~= row_left(lv, w, h, bodies@, y as int, 0));
            assert(bottom@ =~= row_bottom(lv, w, h, y as int, 0));
        }
        let mut x2: i32 = 0;
        while x2 < width
            invariant
                0 <= x2 <= width,
                0 <= y < height,
                0 <= width,
                w == width as int,
                h == height as int,
                w * h <= i32::MAX,
                lv == links_view(links@),
                links@.len() == w * h,
                bodies@.len() == w * h,
                left@ == row_left(lv, w, h, bodies@, y as int, x2 as int),
                bottom@ == row_bottom(lv, w, h, y as int, x2 as int),
            decreases width - x2,
        {
            proof {
                reveal_strlit(" ");
                reveal_strlit("|");
                reveal_strlit("---+");
                reveal_strlit("   +");
                lemma_pos_index_bounds(w, h, Position { x: x2, y });
            }
            let bi = (y * width + x2) as usize;
            left.append(" ");
            push_char(&mut left, bodies[bi]);
            left.append(" ");
            if has_entry(links, width, height, Position { x: x2, y }, Position {
                x: x2 + 1,
                y,
            }) {
                left.append(" ");
            } else {
                left.append("|");
            }
            if has_entry(links, width, height, Position { x: x2, y }, Position {
                x: x2,
                y: y + 1,
            }) {
                bottom.append("   +");
            } else {
                bottom.append("---+");
            }
            proof {
                assert(left@ =~= row_left(lv, w, h, bodies@, y as int, x2 + 1));
                assert(bottom@ =~= row_bottom(lv, w, h, y as int, x2 + 1));
            }
            x2 = x2 + 1;
        }
        out.append(left.as_str());
        out.append("\n");
        out.append(bottom.as_str());
        out.append("\n");
        proof {
            reveal_strlit("\n");
            assert(out@ =~= rows(lv, w, h, bodies@, y + 1));
        }
        y = y + 1;
    }
    out
}

/// An empty link relation renders fully walled: every internal east edge
/// shows a wall and every internal south edge shows a closed segment,
/// whatever the grid size and cell bodies.
pub proof fn lemma_empty_renders_walled(
    lv: Seq<Seq<Position>>,
    width: int,
    height: int,
    x: int,
    y: int,
)
    requires
        crate::topology::links_all_empty(lv),
        lv.len() == width * height,
    ensures
        east_gap(lv, width, height, x, y) == seq!['|'],
        south_gap(lv, width, height, x, y) == seq!['-', '-', '-', '+'],
{
    let p = Position { x: x as i32, y: y as i32 };
    if crate::topology::pos_in_bounds(width, height, p) {
        crate::topology::lemma_pos_index_bounds(width, height, p);
        assert(lv[pos_index(width, p)].len() == 0);
        assert(!has_link(lv, width, height, p, Position { x: (x + 1) as i32, y: y as i32 }));
        assert(!has_link(lv, width, height, p, Position { x: x as i32, y: (y + 1) as i32 }));
    }
}

} // verus!
