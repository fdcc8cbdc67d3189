//! The mathematical model of a grid's link (passage) relation, and the
//! notion of connectivity that the carving algorithms' contracts use.

use vstd::prelude::*;

use crate::Position;

verus! {

/// Row-major index of the cell at `p` in a grid `width` cells across.
pub open spec fn pos_index(width: int, p: Position) -> int {
    p.y * width + p.x
}

pub open spec fn pos_in_bounds(width: int, height: int, p: Position) -> bool {
    0 <= p.x < width && 0 <= p.y < height
}

/// The position of the cell at row-major index `i`.
pub open spec fn pos_at(width: int, i: int) -> Position {
    Position { x: (i % width) as i32, y: (i / width) as i32 }
}

pub open spec fn north_of(p: Position) -> Position {
    Position { x: p.x, y: (p.y - 1) as i32 }
}

pub open spec fn south_of(p: Position) -> Position {
    Position { x: p.x, y: (p.y + 1) as i32 }
}

pub open spec fn east_of(p: Position) -> Position {
    Position { x: (p.x + 1) as i32, y: p.y }
}

pub open spec fn west_of(p: Position) -> Position {
    Position { x: (p.x - 1) as i32, y: p.y }
}

/// The south-east cell, the one place both carving algorithms never carve
/// away from.
pub open spec fn corner(width: int, height: int) -> Position {
    Position { x: (width - 1) as i32, y: (height - 1) as i32 }
}

/// Positions exactly one horizontal or vertical step apart.
pub open spec fn pos_adjacent(a: Position, b: Position) -> bool {
    ||| (a.x == b.x && (a.y - b.y == 1 || b.y - a.y == 1))
    ||| (a.y == b.y && (a.x - b.x == 1 || b.x - a.x == 1))
}

/// The link relation as a mathematical object: entry `i` lists the positions
/// that the cell with row-major index `i` has an open passage to.
pub open spec fn links_view(links: Seq<Vec<Position>>) -> Seq<Seq<Position>> {
    Seq::new(links.len(), |i: int| links[i]@)
}

/// The relation holds no passage at all.
pub open spec fn links_all_empty(lv: Seq<Seq<Position>>) -> bool {
    forall|i: int| 0 <= i < lv.len() ==> (#[trigger] lv[i]).len() == 0
}

/// A passage is recorded from `a` to `b`.
pub open spec fn has_link(
    lv: Seq<Seq<Position>>,
    width: int,
    height: int,
    a: Position,
    b: Position,
) -> bool {
    pos_in_bounds(width, height, a) && lv[pos_index(width, a)].contains(b)
}

/// A passage between `a` and `b`, read without regard to the direction in
/// which it was recorded.
pub open spec fn linked_sym(
    lv: Seq<Seq<Position>>,
    width: int,
    height: int,
    a: Position,
    b: Position,
) -> bool {
    has_link(lv, width, height, a, b) || has_link(lv, width, height, b, a)
}

/// Consecutive entries of `p` are joined by passages.
pub open spec fn is_path(
    lv: Seq<Seq<Position>>,
    width: int,
    height: int,
    p: Seq<Position>,
) -> bool {
    forall|i: int|
        0 <= i < p.len() - 1 ==> #[trigger] linked_sym(lv, width, height, p[i], p[i + 1])
}

/// Some passage-to-passage walk joins `a` to `b`.
pub open spec fn connected(
    lv: Seq<Seq<Position>>,
    width: int,
    height: int,
    a: Position,
    b: Position,
) -> bool {
    exists|p: Seq<Position>|
        p.len() >= 1 && p[0] == a && p[p.len() - 1] == b && is_path(lv, width, height, p)
}

/// Every recorded passage joins in-bounds, adjacent cells.
pub open spec fn links_wf(lv: Seq<Seq<Position>>, width: int, height: int) -> bool {
    &&& lv.len() == width * height
    &&& forall|a: Position, b: Position|
        #[trigger] has_link(lv, width, height, a, b) ==> pos_in_bounds(width, height, b)
            && pos_adjacent(a, b)
}

/// Every passage is recorded in both directions.
pub open spec fn links_symmetric(lv: Seq<Seq<Position>>, width: int, height: int) -> bool {
    forall|a: Position, b: Position|
        #[trigger] has_link(lv, width, height, a, b) ==> has_link(lv, width, height, b, a)
}

/// No passage is recorded twice at the same cell.
pub open spec fn links_no_dup(lv: Seq<Seq<Position>>) -> bool {
    forall|i: int| 0 <= i < lv.len() ==> (#[trigger] lv[i]).no_duplicates()
}

/// Total number of recorded (directed) entries.
pub open spec fn total_entries(lv: Seq<Seq<Position>>) -> int
    decreases lv.len(),
{
    if lv.len() == 0 {
        0
    } else {
        total_entries(lv.drop_last()) + lv.last().len()
    }
}

/// Every passage of `l1` also stands in `l2`.
pub open spec fn links_extend(
    l1: Seq<Seq<Position>>,
    l2: Seq<Seq<Position>>,
    width: int,
    height: int,
) -> bool {
    &&& l1.len() == l2.len()
    &&& forall|a: Position, b: Position|
        #[trigger] has_link(l1, width, height, a, b) ==> has_link(l2, width, height, a, b)
}

/// A perfect maze over a `width` by `height` grid: the passages join only
/// adjacent cells, are recorded symmetrically and without duplicates, number
/// exactly `width * height - 1` (each counted once per direction), and join
/// every cell to the south-east corner — hence, through it, every cell to
/// every other.
pub open spec fn is_spanning_tree(lv: Seq<Seq<Position>>, width: int, height: int) -> bool {
    &&& links_wf(lv, width, height)
    &&& links_symmetric(lv, width, height)
    &&& links_no_dup(lv)
    &&& total_entries(lv) == 2 * (width * height - 1)
    &&& forall|p: Position|
        pos_in_bounds(width, height, p) ==> connected(lv, width, height, p, corner(width, height))
}

/// A relation without passages is trivially well-formed, symmetric and
/// duplicate-free.
pub proof fn lemma_empty_links_ok(lv: Seq<Seq<Position>>, width: int, height: int)
    requires
        links_all_empty(lv),
        lv.len() == width * height,
    ensures
        links_wf(lv, width, height),
        links_symmetric(lv, width, height),
        links_no_dup(lv),
        total_entries(lv) == 0,
{
    assert forall|a: Position, b: Position| #[trigger]
        has_link(lv, width, height, a, b) implies false by {
        lemma_pos_index_bounds(width, height, a);
        assert(lv[pos_index(width, a)].len() == 0);
    }
    lemma_total_entries_empty(lv);
}

/// Row-major indexing is injective over the in-bounds positions.
pub proof fn lemma_pos_index_injective(width: int, height: int, a: Position, b: Position)
    requires
        pos_in_bounds(width, height, a),
        pos_in_bounds(width, height, b),
        pos_index(width, a) == pos_index(width, b),
    ensures
        a == b,
{
    assert(a.y == b.y) by (nonlinear_arith)
        requires
            0 <= a.x < width,
            0 <= b.x < width,
            a.y * width + a.x == b.y * width + b.x,
    ;
}

pub proof fn lemma_pos_index_bounds(width: int, height: int, p: Position)
    requires
        pos_in_bounds(width, height, p),
    ensures
        0 <= pos_index(width, p) < width * height,
        pos_at(width, pos_index(width, p)) == p,
{
    assert(0 <= p.y * width + p.x < width * height) by (nonlinear_arith)
        requires
            0 <= p.x < width,
            0 <= p.y < height,
    ;
    assert((p.y * width + p.x) % width == p.x && (p.y * width + p.x) / width == p.y)
        by (nonlinear_arith)
        requires
            0 <= p.x < width,
            0 <= p.y,
    ;
}

pub proof fn lemma_pos_at_bounds(width: int, height: int, i: int)
    requires
        width >= 1,
        height >= 1,
        width * height <= i32::MAX,
        0 <= i < width * height,
    ensures
        pos_in_bounds(width, height, pos_at(width, i)),
        pos_index(width, pos_at(width, i)) == i,
{
    assert(0 <= i % width < width && 0 <= i / width < height && (i / width) * width + i % width
        == i) by (nonlinear_arith)
        requires
            width >= 1,
            height >= 1,
            0 <= i < width * height,
    ;
    assert(width <= width * height && height <= width * height) by (nonlinear_arith)
        requires
            width >= 1,
            height >= 1,
    ;
}

pub proof fn lemma_connected_refl(
    lv: Seq<Seq<Position>>,
    width: int,
    height: int,
    a: Position,
)
    ensures
        connected(lv, width, height, a, a),
{
    let p = seq![a];
    assert(p.len() >= 1 && p[0] == a && p[p.len() - 1] == a && is_path(lv, width, height, p));
}

/// A passage out of `a` begins a walk wherever `b` already walks.
pub proof fn lemma_connected_prepend(
    lv: Seq<Seq<Position>>,
    width: int,
    height: int,
    a: Position,
    b: Position,
    c: Position,
)
    requires
        linked_sym(lv, width, height, a, b),
        connected(lv, width, height, b, c),
    ensures
        connected(lv, width, height, a, c),
{
    let p = choose|p: Seq<Position>|
        p.len() >= 1 && p[0] == b && p[p.len() - 1] == c && is_path(lv, width, height, p);
    let q = seq![a] + p;
    assert forall|i: int| 0 <= i < q.len() - 1 implies #[trigger] linked_sym(
        lv,
        width,
        height,
        q[i],
        q[i + 1],
    ) by {
        if i == 0 {
            assert(q[0] == a && q[1] == p[0]);
            assert(linked_sym(lv, width, height, a, b));
        } else {
            assert(q[i] == p[i - 1] && q[i + 1] == p[i]);
            assert(linked_sym(lv, width, height, p[i - 1], p[i - 1 + 1]));
        }
    }
    assert(q.len() >= 1 && q[0] == a && q[q.len() - 1] == c && is_path(lv, width, height, q));
}

pub proof fn lemma_connected_trans(
    lv: Seq<Seq<Position>>,
    width: int,
    height: int,
    a: Position,
    b: Position,
    c: Position,
)
    requires
        connected(lv, width, height, a, b),
        connected(lv, width, height, b, c),
    ensures
        connected(lv, width, height, a, c),
{
    let p = choose|p: Seq<Position>|
        p.len() >= 1 && p[0] == a && p[p.len() - 1] == b && is_path(lv, width, height, p);
    let q = choose|q: Seq<Position>|
        q.len() >= 1 && q[0] == b && q[q.len() - 1] == c && is_path(lv, width, height, q);
    let r = p + q.subrange(1, q.len() as int);
    if q.len() == 1 {
        assert(r =~= p);
        assert(r.len() >= 1 && r[0] == a && r[r.len() - 1] == c && is_path(lv, width, height, r));
    } else {
        assert forall|i: int| 0 <= i < r.len() - 1 implies #[trigger] linked_sym(
            lv,
            width,
            height,
            r[i],
            r[i + 1],
        ) by {
            if i < p.len() - 1 {
                assert(r[i] == p[i] && r[i + 1] == p[i + 1]);
            } else if i == p.len() - 1 {
                assert(r[i] == b && r[i + 1] == q[1]);
                assert(linked_sym(lv, width, height, q[0], q[1]));
            } else {
                assert(r[i] == q[i - (p.len() - 1)] && r[i + 1] == q[i + 1 - (p.len() - 1)]);
                assert(linked_sym(
                    lv,
                    width,
                    height,
                    q[i - (p.len() - 1)],
                    q[i - (p.len() - 1) + 1],
                ));
            }
        }
        assert(r[r.len() - 1] == q[q.len() - 1]);
        assert(r.len() >= 1 && r[0] == a && r[r.len() - 1] == c && is_path(lv, width, height, r));
    }
}

pub proof fn lemma_connected_sym(
    lv: Seq<Seq<Position>>,
    width: int,
    height: int,
    a: Position,
    b: Position,
)
    requires
        connected(lv, width, height, a, b),
    ensures
        connected(lv, width, height, b, a),
{
    let p = choose|p: Seq<Position>|
        p.len() >= 1 && p[0] == a && p[p.len() - 1] == b && is_path(lv, width, height, p);
    let r = p.reverse();
    assert forall|i: int| 0 <= i < r.len() - 1 implies #[trigger] linked_sym(
        lv,
        width,
        height,
        r[i],
        r[i + 1],
    ) by {
        let j = p.len() - 1 - i;
        assert(r[i] == p[j] && r[i + 1] == p[j - 1]);
        assert(linked_sym(lv, width, height, p[j - 1], p[j - 1 + 1]));
    }
    assert(r.len() >= 1 && r[0] == b && r[r.len() - 1] == a && is_path(lv, width, height, r));
}

/// In a perfect maze every pair of cells is connected: each walks to the
/// south-east corner, and walks reverse and compose.
pub proof fn lemma_spanning_all_pairs(
    lv: Seq<Seq<Position>>,
    width: int,
    height: int,
    a: Position,
    b: Position,
)
    requires
        is_spanning_tree(lv, width, height),
        pos_in_bounds(width, height, a),
        pos_in_bounds(width, height, b),
    ensures
        connected(lv, width, height, a, b),
{
    let c = corner(width, height);
    assert(connected(lv, width, height, a, c));
    assert(connected(lv, width, height, b, c));
    lemma_connected_sym(lv, width, height, b, c);
    lemma_connected_trans(lv, width, height, a, c, b);
}

/// Adding passages never disconnects anything.
pub proof fn lemma_connected_mono(
    l1: Seq<Seq<Position>>,
    l2: Seq<Seq<Position>>,
    width: int,
    height: int,
    a: Position,
    b: Position,
)
    requires
        links_extend(l1, l2, width, height),
        connected(l1, width, height, a, b),
    ensures
        connected(l2, width, height, a, b),
{
    let p = choose|p: Seq<Position>|
        p.len() >= 1 && p[0] == a && p[p.len() - 1] == b && is_path(l1, width, height, p);
    assert forall|i: int| 0 <= i < p.len() - 1 implies #[trigger] linked_sym(
        l2,
        width,
        height,
        p[i],
        p[i + 1],
    ) by {
        assert(linked_sym(l1, width, height, p[i], p[i + 1]));
    }
    assert(p.len() >= 1 && p[0] == a && p[p.len() - 1] == b && is_path(l2, width, height, p));
}

/// A relation without passages has no entries.
pub proof fn lemma_total_entries_empty(lv: Seq<Seq<Position>>)
    requires
        links_all_empty(lv),
    ensures
        total_entries(lv) == 0,
    decreases lv.len(),
{
    if lv.len() > 0 {
        assert(links_all_empty(lv.drop_last())) by {
            assert(forall|i: int|
                0 <= i < lv.len() - 1 ==> lv.drop_last()[i] == #[trigger] lv[i]);
        }
        lemma_total_entries_empty(lv.drop_last());
    }
}

/// Replacing one cell's entry list changes the total count by the change in
/// that list's length.
pub proof fn lemma_total_entries_update(lv: Seq<Seq<Position>>, i: int, v: Seq<Position>)
    requires
        0 <= i < lv.len(),
    ensures
        total_entries(lv.update(i, v)) == total_entries(lv) - lv[i].len() + v.len(),
    decreases lv.len(),
{
    let lu = lv.update(i, v);
    if i == lv.len() - 1 {
        assert(lu.drop_last() =~= lv.drop_last());
        assert(lu.last() == v);
    } else {
        assert(lu.drop_last() =~= lv.drop_last().update(i, v));
        assert(lu.last() == lv.last());
        lemma_total_entries_update(lv.drop_last(), i, v);
    }
}

} // verus!
