//! The binary-tree carving algorithm: visit every cell in row-major order
//! and carve a passage to its south or east neighbour, picked uniformly at
//! random, when it has one.

use vstd::prelude::*;

use crate::algos::{carve, carve_pair, lemma_carve_preserves, lemma_east_south_connected};
use crate::grid::{grid_inv, Grid};
use crate::rng::rand_index;
use crate::topology::{
    corner, east_of, has_link, is_spanning_tree, lemma_pos_at_bounds, links_all_empty,
    links_no_dup, links_symmetric, links_view, links_wf, pos_adjacent, pos_at, pos_in_bounds,
    pos_index, south_of, total_entries,
};
use crate::Position;

use rand::rngs::SmallRng;

verus! {

/// A link relation with one empty entry list per cell.
pub open spec fn empty_links(n: int) -> Seq<Seq<Position>> {
    Seq::new(
        (if n < 0 {
            0int
        } else {
            n
        }) as nat,
        |i: int| Seq::<Position>::empty(),
    )
}

/// How many south-or-east neighbours the cell at index `i` has.
pub open spec fn bt_candidates(width: int, height: int, i: int) -> int {
    let p = pos_at(width, i);
    (if p.y < height - 1 {
        1int
    } else {
        0int
    }) + (if p.x < width - 1 {
        1int
    } else {
        0int
    })
}

/// The neighbour that draw `k` selects at cell `i`: the south neighbour
/// comes first where it exists, the east neighbour after it.
pub open spec fn bt_target(width: int, height: int, i: int, k: int) -> Position {
    let p = pos_at(width, i);
    if p.y < height - 1 && k == 0 {
        south_of(p)
    } else {
        east_of(p)
    }
}

/// One draw per cell, each below that cell's candidate count.
pub open spec fn bt_picks_ok(width: int, height: int, picks: Seq<usize>) -> bool {
    &&& picks.len() == width * height
    &&& forall|k: int|
        0 <= k < picks.len() && bt_candidates(width, height, k) > 0 ==> (#[trigger] picks[k]
            as int) < bt_candidates(width, height, k)
}

/// The link relation binary tree carves for the given draws: cell by cell
/// in row-major order, a passage to the drawn south-or-east neighbour.
pub open spec fn bt_links(width: int, height: int, picks: Seq<usize>, i: int) -> Seq<
    Seq<Position>,
>
    decreases i,
{
    if i <= 0 {
        empty_links(width * height)
    } else {
        let prev = bt_links(width, height, picks, i - 1);
        if bt_candidates(width, height, i - 1) > 0 {
            carve(
                prev,
                width,
                pos_at(width, i - 1),
                bt_target(width, height, i - 1, picks[i - 1] as int),
            )
        } else {
            prev
        }
    }
}

/// Carves the binary-tree maze that the given draws select: the resulting
/// link relation is exactly `bt_links` of the draws — the algorithm is a
/// function of its draws — and it is a spanning tree of passages.
pub fn binary_tree_apply<G: Grid>(grid: &mut G, picks: &Vec<usize>)
    requires
        grid_inv(
            old(grid).spec_cells(),
            old(grid).spec_width(),
            old(grid).spec_height(),
            old(grid).spec_links(),
        ),
        links_all_empty(old(grid).spec_links()),
        old(grid).spec_width() >= 1,
        old(grid).spec_height() >= 1,
        bt_picks_ok(old(grid).spec_width(), old(grid).spec_height(), picks@),
    ensures
        final(grid).spec_cells() == old(grid).spec_cells(),
        final(grid).spec_width() == old(grid).spec_width(),
        final(grid).spec_height() == old(grid).spec_height(),
        final(grid).spec_links() == bt_links(
            old(grid).spec_width(),
            old(grid).spec_height(),
            picks@,
            old(grid).spec_width() * old(grid).spec_height(),
        ),
        is_spanning_tree(
            final(grid).spec_links(),
            old(grid).spec_width(),
            old(grid).spec_height(),
        ),
{
    let width = grid.width();
    let height = grid.height();
    let ghost w = width as int;
    let ghost h = height as int;
    proof {
        assert(w <= w * h && h <= w * h && 1 <= w * h) by (nonlinear_arith)
            requires
                w >= 1,
                h >= 1,
        ;
    }
    let mut links = crate::algos::clone_links(grid.links());
    proof {
        let lv = links_view(links@);
        crate::topology::lemma_empty_links_ok(lv, w, h);
        assert(links_view(links@) =~~= bt_links(w, h, picks@, 0));
    }
    let map = grid.map();
    let n = map.len();
    let mut i: usize = 0;
    while i < n
        invariant
            w == old(grid).spec_width(),
            h == old(grid).spec_height(),
            1 <= w,
            1 <= h,
            w * h <= i32::MAX,
            w <= w * h,
            h <= w * h,
            width as int == w,
            height as int == h,
            n == w * h,
            bt_picks_ok(w, h, picks@),
            map@ == old(grid).spec_cells(),
            crate::base_grid::grid_cells_wf(map@, w, h),
            links@.len() == n,
            0 <= i <= n,
            links_view(links@) == bt_links(w, h, picks@, i as int),
            links_wf(links_view(links@), w, h),
            links_symmetric(links_view(links@), w, h),
            links_no_dup(links_view(links@)),
            total_entries(links_view(links@)) == 2 * (if i < n {
                i as int
            } else {
                n - 1
            }),
            forall|j: int, k: int|
                i <= j < n && 0 <= k < links_view(links@)[j].len() ==> pos_index(
                    w,
                    #[trigger] links_view(links@)[j][k],
                ) < i,
            forall|j: int|
                0 <= j < i && j != n - 1 ==> has_link(
                    links_view(links@),
                    w,
                    h,
                    #[trigger] pos_at(w, j),
                    east_of(pos_at(w, j)),
                ) || has_link(links_view(links@), w, h, pos_at(w, j), south_of(pos_at(w, j))),
        decreases n - i,
    {
        let cell = map[i];
        let ghost p = cell.position;
        proof {
            lemma_pos_at_bounds(w, h, i as int);
        }
        let mut neighbours: Vec<Position> = Vec::new();
        if let Some(s) = cell.neighbours.south {
            neighbours.push(s);
        }
        if let Some(e) = cell.neighbours.east {
            neighbours.push(e);
        }
        proof {
            assert(neighbours@.len() == bt_candidates(w, h, i as int));
        }
        if neighbours.len() > 0 {
            let j = picks[i];
            let target = neighbours[j];
            let ghost lv = links_view(links@);
            proof {
                assert(target == bt_target(w, h, i as int, j as int));
                assert(target == east_of(p) || target == south_of(p));
                assert(target == east_of(p) ==> p.x < w - 1 && pos_index(w, target) == i + 1);
                if target == south_of(p) {
                    assert(p.y < h - 1);
                    assert(pos_index(w, target) == (p.y + 1) * w + p.x);
                    assert((p.y + 1) * w == p.y * w + w) by (nonlinear_arith);
                    assert(pos_index(w, target) == i + w);
                }
                assert(pos_in_bounds(w, h, target));
                assert(pos_adjacent(p, target));
                assert(pos_index(w, target) > i as int);
                assert(p != target);
                // The passage is fresh: every entry recorded at `p` so far
                // points at an earlier cell.
                assert forall|k: int| 0 <= k < lv[i as int].len() implies lv[i as int][k]
                    != target by {
                    assert(pos_index(w, lv[i as int][k]) < i as int);
                }
                assert(!lv[pos_index(w, p)].contains(target));
                crate::topology::lemma_pos_index_bounds(w, h, target);
                lemma_carve_preserves(lv, w, h, p, target);
            }
            carve_pair(&mut links, width, height, cell.position, target);
            proof {
                let lv2 = links_view(links@);
                assert(lv2 == carve(lv, w, p, target));
                assert(lv2 == bt_links(w, h, picks@, i + 1));
                assert(has_link(lv2, w, h, p, target));
                // Entries of unprocessed cells still point backwards: the
                // one new backward entry names the current cell.
                assert forall|j2: int, k: int|
                    i + 1 <= j2 < n && 0 <= k < lv2[j2].len() implies pos_index(
                    w,
                    #[trigger] lv2[j2][k],
                ) < i + 1 by {
                    if j2 == pos_index(w, target) && k == lv[j2].len() {
                        assert(lv2[j2][k] == p);
                    } else {
                        assert(lv2[j2][k] == lv[j2][k]);
                    }
                }
                // Cells already carved keep their east-or-south passage.
                assert forall|j2: int| 0 <= j2 < i + 1 && j2 != n - 1 implies has_link(
                    lv2,
                    w,
                    h,
                    #[trigger] pos_at(w, j2),
                    east_of(pos_at(w, j2)),
                ) || has_link(lv2, w, h, pos_at(w, j2), south_of(pos_at(w, j2))) by {
                    if j2 < i as int {
                        assert(has_link(lv, w, h, pos_at(w, j2), east_of(pos_at(w, j2)))
                            || has_link(lv, w, h, pos_at(w, j2), south_of(pos_at(w, j2))));
                    } else {
                        assert(pos_at(w, j2) == p);
                    }
                }
                assert(i as int != n - 1) by {
                    if i as int == n - 1 {
                        lemma_pos_at_bounds(w, h, n - 1);
                        assert(pos_index(w, corner(w, h)) == (h - 1) * w + (w - 1));
                        assert((h - 1) * w == h * w - w) by (nonlinear_arith);
                        crate::topology::lemma_pos_index_injective(w, h, p, corner(w, h));
                        assert(p == corner(w, h));
                        assert(cell.neighbours.south is None && cell.neighbours.east is None);
                    }
                }
            }
        } else {
            proof {
                assert(p == pos_at(w, i as int));
                assert(p.x == w - 1 && p.y == h - 1);
                assert(p == corner(w, h));
                assert(pos_index(w, p) == i as int);
                assert((h - 1) * w == h * w - w && h * w == w * h) by (nonlinear_arith);
                assert(pos_index(w, corner(w, h)) == (h - 1) * w + (w - 1));
                assert(i as int == n - 1);
                assert(bt_candidates(w, h, i as int) == 0);
                assert(links_view(links@) == bt_links(w, h, picks@, i + 1));
            }
        }
        i = i + 1;
    }
    proof {
        let lv = links_view(links@);
        assert forall|q: Position|
            pos_in_bounds(w, h, q) && q != corner(w, h) implies has_link(
            lv,
            w,
            h,
            q,
            east_of(q),
        ) || has_link(lv, w, h, q, south_of(q)) by {
            crate::topology::lemma_pos_index_bounds(w, h, q);
            let j = pos_index(w, q);
            assert(pos_at(w, j) == q);
            assert(j != n - 1) by {
                if j == n - 1 {
                    lemma_pos_at_bounds(w, h, n - 1);
                    assert(pos_index(w, corner(w, h)) == (h - 1) * w + (w - 1));
                    assert((h - 1) * w == h * w - w) by (nonlinear_arith);
                    crate::topology::lemma_pos_index_injective(w, h, q, corner(w, h));
                }
            }
        }
        assert forall|q: Position| pos_in_bounds(w, h, q) implies crate::topology::connected(
            lv,
            w,
            h,
            q,
            corner(w, h),
        ) by {
            lemma_east_south_connected(lv, w, h, q);
        }
        assert(is_spanning_tree(lv, w, h));
    }
    grid.set_links(links);
}

/// Carves a perfect maze into an uncarved grid: each cell, in row-major
/// order, gains a passage to its south or east neighbour — whichever a fair
/// draw picks among those that exist. Which maze comes out depends only on
/// the drawn values (see `binary_tree_apply`); whatever they are, the result
/// is a spanning tree of passages. A zero-area grid is left untouched.
pub fn binary_tree<G: Grid>(grid: &mut G, rng: &mut SmallRng)
    requires
        grid_inv(
            old(grid).spec_cells(),
            old(grid).spec_width(),
            old(grid).spec_height(),
            old(grid).spec_links(),
        ),
        links_all_empty(old(grid).spec_links()),
    ensures
        final(grid).spec_cells() == old(grid).spec_cells(),
        final(grid).spec_width() == old(grid).spec_width(),
        final(grid).spec_height() == old(grid).spec_height(),
        old(grid).spec_width() >= 1 && old(grid).spec_height() >= 1 ==> is_spanning_tree(
            final(grid).spec_links(),
            old(grid).spec_width(),
            old(grid).spec_height(),
        ) && (exists|picks: Seq<usize>|
            bt_picks_ok(old(grid).spec_width(), old(grid).spec_height(), picks)
                && final(grid).spec_links() == bt_links(
                old(grid).spec_width(),
                old(grid).spec_height(),
                picks,
                old(grid).spec_width() * old(grid).spec_height(),
            )),
        old(grid).spec_width() < 1 || old(grid).spec_height() < 1 ==> final(grid).spec_links()
            == old(grid).spec_links(),
{
    let width = grid.width();
    let height = grid.height();
    if width < 1 || height < 1 {
        return ;
    }
    let ghost w = width as int;
    let ghost h = height as int;
    proof {
        assert(1 <= w * h) by (nonlinear_arith)
            requires
                w >= 1,
                h >= 1,
        ;
    }
    let map = grid.map();
    let n = map.len();
    let mut picks: Vec<usize> = Vec::new();
    let mut i: usize = 0;
    while i < n
        invariant
            w == old(grid).spec_width(),
            h == old(grid).spec_height(),
            1 <= w,
            1 <= h,
            w * h <= i32::MAX,
            n == w * h,
            map@ == old(grid).spec_cells(),
            crate::base_grid::grid_cells_wf(map@, w, h),
            0 <= i <= n,
            picks@.len() == i,
            forall|k: int|
                0 <= k < i && bt_candidates(w, h, k) > 0 ==> (#[trigger] picks@[k] as int)
                    < bt_candidates(w, h, k),
        decreases n - i,
    {
        let cell = map[i];
        proof {
            lemma_pos_at_bounds(w, h, i as int);
        }
        let mut count: usize = 0;
        if cell.neighbours.south.is_some() {
            count = count + 1;
        }
        if cell.neighbours.east.is_some() {
            count = count + 1;
        }
        proof {
            assert(count as int == bt_candidates(w, h, i as int));
        }
        if count > 0 {
            picks.push(rand_index(rng, count));
        } else {
            picks.push(0);
        }
        i = i + 1;
    }
    binary_tree_apply(grid, &picks);
    proof {
        assert(bt_picks_ok(w, h, picks@));
        assert(exists|ps: Seq<usize>|
            bt_picks_ok(w, h, ps) && grid.spec_links() == bt_links(w, h, ps, w * h)) by {
            assert(bt_picks_ok(w, h, picks@) && grid.spec_links() == bt_links(
                w,
                h,
                picks@,
                w * h,
            ));
        }
    }
}

/// The binary-tree algorithm packaged for callers that bring no generator
/// of their own.
pub struct BinaryTree {}

impl BinaryTree {
    /// Carves a binary-tree maze with a generator seeded from the
    /// thread-local randomness source.
    pub fn on<G: Grid>(grid: &mut G)
        requires
            grid_inv(
                old(grid).spec_cells(),
                old(grid).spec_width(),
                old(grid).spec_height(),
                old(grid).spec_links(),
            ),
            links_all_empty(old(grid).spec_links()),
        ensures
            final(grid).spec_cells() == old(grid).spec_cells(),
            final(grid).spec_width() == old(grid).spec_width(),
            final(grid).spec_height() == old(grid).spec_height(),
            old(grid).spec_width() >= 1 && old(grid).spec_height() >= 1 ==> is_spanning_tree(
                final(grid).spec_links(),
                old(grid).spec_width(),
                old(grid).spec_height(),
            ),
            old(grid).spec_width() < 1 || old(grid).spec_height() < 1 ==> final(
                grid
            ).spec_links() == old(grid).spec_links(),
    {
        let mut rng = crate::rng::small_rng_from_thread();
        binary_tree(grid, &mut rng);
    }
}

} // verus!
