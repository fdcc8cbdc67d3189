//! The carving algorithms, and the machinery their shared contract rests
//! on: carving a passage records it in both directions, and each algorithm
//! leaves behind a spanning tree of passages.

use vstd::prelude::*;

use crate::topology::{
    connected, corner, east_of, has_link, lemma_pos_index_injective, lemma_connected_mono, lemma_connected_prepend,
    lemma_connected_refl, lemma_connected_sym, lemma_connected_trans, lemma_pos_index_bounds,
    lemma_total_entries_update, linked_sym, links_extend, links_no_dup, links_symmetric,
    links_view, links_wf, pos_adjacent, pos_in_bounds, pos_index, south_of, total_entries,
};
use crate::Position;

pub mod binary_tree;
pub mod sidewinder;

verus! {

/// An exact copy of the link relation. Written out so that the copy is
/// known, entry for entry, to equal the original.
pub(crate) fn clone_links(src: &Vec<Vec<Position>>) -> (r: Vec<Vec<Position>>)
    ensures
        r@.len() == src@.len(),
        links_view(r@) == links_view(src@),
{
    let mut r: Vec<Vec<Position>> = Vec::new();
    let mut i: usize = 0;
    while i < src.len()
        invariant
            i <= src@.len(),
            r@.len() == i,
            forall|j: int| 0 <= j < i ==> (#[trigger] r@[j])@ == src@[j]@,
        decreases src@.len() - i,
    {
        let row = &src[i];
        let mut copy: Vec<Position> = Vec::new();
        let mut j: usize = 0;
        while j < row.len()
            invariant
                j <= row@.len(),
                copy@ == row@.subrange(0, j as int),
            decreases row@.len() - j,
        {
            copy.push(row[j]);
            proof {
                assert(copy@ =~= row@.subrange(0, j + 1));
            }
            j = j + 1;
        }
        proof {
            assert(copy@ =~= row@);
        }
        r.push(copy);
        i = i + 1;
    }
    proof {
        assert(links_view(r@) =~= links_view(src@));
    }
    r
}

/// The relation after carving a passage between adjacent cells `a` and `b`:
/// one entry appended at each endpoint.
pub open spec fn carve(
    lv: Seq<Seq<Position>>,
    width: int,
    a: Position,
    b: Position,
) -> Seq<Seq<Position>> {
    let l1 = lv.update(pos_index(width, a), lv[pos_index(width, a)].push(b));
    l1.update(pos_index(width, b), l1[pos_index(width, b)].push(a))
}

/// Records the passage between `a` and `b` in both directions.
pub(crate) fn carve_pair(
    links: &mut Vec<Vec<Position>>,
    width: i32,
    height: i32,
    a: Position,
    b: Position,
)
    requires
        0 <= width,
        0 <= height,
        width * height <= i32::MAX,
        old(links)@.len() == width * height,
        pos_in_bounds(width as int, height as int, a),
        pos_in_bounds(width as int, height as int, b),
        a != b,
    ensures
        links_view(final(links)@) == carve(links_view(old(links)@), width as int, a, b),
        final(links)@.len() == old(links)@.len(),
{
    proof {
        lemma_pos_index_bounds(width as int, height as int, a);
        lemma_pos_index_bounds(width as int, height as int, b);
    }
    let ia = (a.y * width + a.x) as usize;
    let ib = (b.y * width + b.x) as usize;
    let ea = &mut links[ia];
    ea.push(b);
    let eb = &mut links[ib];
    eb.push(a);
    proof {
        assert(pos_index(width as int, a) != pos_index(width as int, b)) by {
            if pos_index(width as int, a) == pos_index(width as int, b) {
                lemma_pos_index_injective(width as int, height as int, a, b);
            }
        }
        assert(links_view(links@) =~= carve(links_view(old(links)@), width as int, a, b));
    }
}

/// Carving a fresh passage between adjacent cells keeps the relation
/// well-formed, symmetric and duplicate-free, grows the entry count by
/// exactly two, extends the old relation, and records the new passage.
pub proof fn lemma_carve_preserves(
    lv: Seq<Seq<Position>>,
    width: int,
    height: int,
    a: Position,
    b: Position,
)
    requires
        links_wf(lv, width, height),
        links_symmetric(lv, width, height),
        links_no_dup(lv),
        pos_in_bounds(width, height, a),
        pos_in_bounds(width, height, b),
        pos_adjacent(a, b),
        !lv[pos_index(width, a)].contains(b),
    ensures
        links_wf(carve(lv, width, a, b), width, height),
        links_symmetric(carve(lv, width, a, b), width, height),
        links_no_dup(carve(lv, width, a, b)),
        total_entries(carve(lv, width, a, b)) == total_entries(lv) + 2,
        links_extend(lv, carve(lv, width, a, b), width, height),
        has_link(carve(lv, width, a, b), width, height, a, b),
        has_link(carve(lv, width, a, b), width, height, b, a),
        forall|p: Position, q: Position| #[trigger]
            has_link(carve(lv, width, a, b), width, height, p, q) ==> has_link(
                lv,
                width,
                height,
                p,
                q,
            ) || (p == a && q == b) || (p == b && q == a),
{
    let ia = pos_index(width, a);
    let ib = pos_index(width, b);
    lemma_pos_index_bounds(width, height, a);
    lemma_pos_index_bounds(width, height, b);
    assert(a != b);
    assert(ia != ib) by {
        if ia == ib {
            lemma_pos_index_injective(width, height, a, b);
        }
    }
    let lv2 = carve(lv, width, a, b);
    assert(lv2.len() == lv.len());
    assert(lv2[ia] == lv[ia].push(b));
    assert(lv2[ib] == lv[ib].push(a));
    assert(forall|j: int| 0 <= j < lv.len() && j != ia && j != ib ==> lv2[j] == lv[j]);
    // The mirrored entry is fresh too, by symmetry of the old relation.
    assert(!lv[ib].contains(a)) by {
        if lv[ib].contains(a) {
            assert(has_link(lv, width, height, b, a));
            assert(has_link(lv, width, height, a, b));
        }
    }
    // Extension: every old entry is kept.
    assert forall|p: Position, q: Position| #[trigger]
        has_link(lv, width, height, p, q) implies has_link(lv2, width, height, p, q) by {
        lemma_pos_index_bounds(width, height, p);
        let ip = pos_index(width, p);
        let k = choose|k: int| 0 <= k < lv[ip].len() && lv[ip][k] == q;
        if ip == ia {
            assert(lv2[ip][k] == q);
        } else if ip == ib {
            assert(lv2[ip][k] == q);
        } else {
            assert(lv2[ip][k] == q);
        }
        assert(lv2[ip].contains(q));
    }
    // The new passage stands in both directions.
    assert(lv2[ia][lv[ia].len() as int] == b);
    assert(lv2[ia].contains(b));
    assert(lv2[ib][lv[ib].len() as int] == a);
    assert(lv2[ib].contains(a));
    // Any entry of the new relation is an old entry or one of the two new
    // ones.
    assert forall|p: Position, q: Position| #[trigger]
        has_link(lv2, width, height, p, q) implies has_link(lv, width, height, p, q) || (p == a
        && q == b) || (p == b && q == a) by {
        lemma_pos_index_bounds(width, height, p);
        let ip = pos_index(width, p);
        let k = choose|k: int| 0 <= k < lv2[ip].len() && lv2[ip][k] == q;
        if ip == ia && k == lv[ia].len() {
            lemma_pos_index_injective(width, height, p, a);
        } else if ip == ib && k == lv[ib].len() {
            lemma_pos_index_injective(width, height, p, b);
        } else {
            assert(lv[ip][k] == q);
            assert(lv[ip].contains(q));
        }
    }
    // Well-formed: the new passage joins in-bounds adjacent cells.
    assert forall|p: Position, q: Position| #[trigger]
        has_link(lv2, width, height, p, q) implies pos_in_bounds(width, height, q)
        && pos_adjacent(p, q) by {
        if has_link(lv, width, height, p, q) {
        } else {
            assert(pos_adjacent(b, a));
        }
    }
    // Symmetric: both new entries were added.
    assert forall|p: Position, q: Position| #[trigger]
        has_link(lv2, width, height, p, q) implies has_link(lv2, width, height, q, p) by {
        if has_link(lv, width, height, p, q) {
            assert(has_link(lv, width, height, q, p));
        }
    }
    // Duplicate-free: the appended entries were fresh.
    assert forall|j: int| 0 <= j < lv2.len() implies (#[trigger] lv2[j]).no_duplicates() by {
        if j == ia {
            assert forall|m: int, k: int|
                0 <= m < lv2[j].len() && 0 <= k < lv2[j].len() && m != k implies lv2[j][m]
                != lv2[j][k] by {
                if m < lv[ia].len() && k < lv[ia].len() {
                    assert(lv[ia][m] != lv[ia][k]);
                } else if m < lv[ia].len() {
                    assert(lv2[j][k] == b && lv2[j][m] == lv[ia][m]);
                    assert(!lv[ia].contains(b));
                } else {
                    assert(lv2[j][m] == b && lv2[j][k] == lv[ia][k]);
                    assert(!lv[ia].contains(b));
                }
            }
        } else if j == ib {
            assert forall|m: int, k: int|
                0 <= m < lv2[j].len() && 0 <= k < lv2[j].len() && m != k implies lv2[j][m]
                != lv2[j][k] by {
                if m < lv[ib].len() && k < lv[ib].len() {
                    assert(lv[ib][m] != lv[ib][k]);
                } else if m < lv[ib].len() {
                    assert(lv2[j][k] == a && lv2[j][m] == lv[ib][m]);
                    assert(!lv[ib].contains(a));
                } else {
                    assert(lv2[j][m] == a && lv2[j][k] == lv[ib][k]);
                    assert(!lv[ib].contains(a));
                }
            }
        } else {
            assert(lv2[j] == lv[j]);
        }
    }
    // Entry count: one appended at each endpoint.
    let l1 = lv.update(ia, lv[ia].push(b));
    lemma_total_entries_update(lv, ia, lv[ia].push(b));
    lemma_total_entries_update(l1, ib, l1[ib].push(a));
}

/// Cell `q` already walks to the row below it, or — on the bottom row — to
/// the south-east corner. Once every cell is settled, every cell walks to
/// the corner.
pub open spec fn settled(lv: Seq<Seq<Position>>, width: int, height: int, q: Position) -> bool {
    if q.y < height - 1 {
        exists|r: Position|
            pos_in_bounds(width, height, r) && r.y == q.y + 1 && connected(lv, width, height, q, r)
    } else {
        connected(lv, width, height, q, corner(width, height))
    }
}

pub proof fn lemma_settled_mono(
    l1: Seq<Seq<Position>>,
    l2: Seq<Seq<Position>>,
    width: int,
    height: int,
    q: Position,
)
    requires
        links_extend(l1, l2, width, height),
        settled(l1, width, height, q),
    ensures
        settled(l2, width, height, q),
{
    if q.y < height - 1 {
        let r = choose|r: Position|
            pos_in_bounds(width, height, r) && r.y == q.y + 1 && connected(l1, width, height, q, r);
        lemma_connected_mono(l1, l2, width, height, q, r);
    } else {
        lemma_connected_mono(l1, l2, width, height, q, corner(width, height));
    }
}

/// From everywhere-settled to everywhere-connected-to-the-corner.
pub proof fn lemma_settled_connected(
    lv: Seq<Seq<Position>>,
    width: int,
    height: int,
    p: Position,
)
    requires
        width >= 1,
        height >= 1,
        forall|q: Position| pos_in_bounds(width, height, q) ==> settled(lv, width, height, q),
        pos_in_bounds(width, height, p),
    ensures
        connected(lv, width, height, p, corner(width, height)),
    decreases height - 1 - p.y,
{
    assert(settled(lv, width, height, p));
    if p.y < height - 1 {
        let r = choose|r: Position|
            pos_in_bounds(width, height, r) && r.y == p.y + 1 && connected(lv, width, height, p, r);
        lemma_settled_connected(lv, width, height, r);
        lemma_connected_trans(lv, width, height, p, r, corner(width, height));
    }
}

/// If every non-corner cell has a passage to its east or south neighbour,
/// every cell walks to the corner. This is the shape binary tree leaves
/// behind.
pub proof fn lemma_east_south_connected(
    lv: Seq<Seq<Position>>,
    width: int,
    height: int,
    p: Position,
)
    requires
        width >= 1,
        height >= 1,
        width <= i32::MAX,
        height <= i32::MAX,
        links_wf(lv, width, height),
        forall|q: Position|
            pos_in_bounds(width, height, q) && q != corner(width, height) ==> has_link(
                lv,
                width,
                height,
                q,
                east_of(q),
            ) || has_link(lv, width, height, q, south_of(q)),
        pos_in_bounds(width, height, p),
    ensures
        connected(lv, width, height, p, corner(width, height)),
    decreases (width - 1 - p.x) + (height - 1 - p.y),
{
    if p == corner(width, height) {
        lemma_connected_refl(lv, width, height, p);
    } else {
        if has_link(lv, width, height, p, east_of(p)) {
            let q = east_of(p);
            assert(pos_in_bounds(width, height, q));
            lemma_east_south_connected(lv, width, height, q);
            lemma_connected_prepend(lv, width, height, p, q, corner(width, height));
        } else {
            assert(has_link(lv, width, height, p, south_of(p)));
            let q = south_of(p);
            assert(pos_in_bounds(width, height, q));
            lemma_east_south_connected(lv, width, height, q);
            lemma_connected_prepend(lv, width, height, p, q, corner(width, height));
        }
    }
}

/// Cells of one row joined east-to-west by a chain of passages are
/// connected.
pub proof fn lemma_row_chain(
    lv: Seq<Seq<Position>>,
    width: int,
    height: int,
    y: i32,
    a: i32,
    b: i32,
)
    requires
        0 <= a <= b < width,
        0 <= y < height,
        forall|j: i32|
            a <= j < b ==> has_link(
                lv,
                width,
                height,
                Position { x: j, y },
                #[trigger] east_of(Position { x: j, y }),
            ),
    ensures
        connected(lv, width, height, Position { x: a, y }, Position { x: b, y }),
    decreases b - a,
{
    if a == b {
        lemma_connected_refl(lv, width, height, Position { x: a, y });
    } else {
        let a1: i32 = (a + 1) as i32;
        assert(has_link(lv, width, height, Position { x: a, y }, east_of(Position { x: a, y })));
        assert(east_of(Position { x: a, y }) == Position { x: a1, y });
        lemma_row_chain(lv, width, height, y, a1, b);
        lemma_connected_prepend(
            lv,
            width,
            height,
            Position { x: a, y },
            Position { x: a1, y },
            Position { x: b, y },
        );
    }
}

/// Any two cells of an east-chained row segment are connected.
pub proof fn lemma_run_connected(
    lv: Seq<Seq<Position>>,
    width: int,
    height: int,
    y: i32,
    a: i32,
    b: i32,
    c: i32,
    d: i32,
)
    requires
        0 <= a <= c <= b < width,
        a <= d <= b,
        0 <= y < height,
        forall|j: i32|
            a <= j < b ==> has_link(
                lv,
                width,
                height,
                Position { x: j, y },
                #[trigger] east_of(Position { x: j, y }),
            ),
    ensures
        connected(lv, width, height, Position { x: c, y }, Position { x: d, y }),
{
    if c <= d {
        lemma_row_chain(lv, width, height, y, c, d);
    } else {
        lemma_row_chain(lv, width, height, y, d, c);
        lemma_connected_sym(
            lv,
            width,
            height,
            Position { x: d, y },
            Position { x: c, y },
        );
    }
}

} // verus!
