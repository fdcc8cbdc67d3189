//! The sidewinder carving algorithm: each row is carved as a sequence of
//! eastward "runs"; a run closes at the row boundary or on a fair coin flip,
//! and a closing run sends one passage south from a member picked uniformly
//! at random.

use vstd::prelude::*;

use crate::algos::binary_tree::empty_links;
use crate::algos::{
    carve, carve_pair, clone_links, lemma_carve_preserves, lemma_run_connected,
    lemma_settled_connected, lemma_settled_mono, settled,
};
use crate::grid::{grid_inv, Grid};
use crate::rng::{coin_flip, rand_index};
use crate::topology::{
    connected, corner, east_of, has_link, is_spanning_tree, lemma_connected_prepend,
    lemma_connected_refl, lemma_connected_trans, lemma_pos_index_bounds, links_all_empty,
    links_extend, links_no_dup, links_symmetric, links_view, links_wf, pos_adjacent,
    pos_at, pos_in_bounds, pos_index, south_of, total_entries,
};
use crate::Position;

use rand::rngs::SmallRng;

verus! {

/// Whether the run closes at cell index `i`: at the row boundary always, and
/// otherwise — above the bottom row — when that cell's coin flip said so.
pub open spec fn sw_close(width: int, height: int, coins: Seq<bool>, i: int) -> bool {
    let p = pos_at(width, i);
    p.x == width - 1 || (p.y < height - 1 && coins[i])
}

/// The column where the run open at cell `i` begins.
pub open spec fn sw_run_start(width: int, height: int, coins: Seq<bool>, i: int) -> int
    decreases i,
{
    if i <= 0 {
        0
    } else {
        let p = pos_at(width, i);
        if p.x == 0 {
            0
        } else if sw_close(width, height, coins, i - 1) {
            p.x as int
        } else {
            sw_run_start(width, height, coins, i - 1)
        }
    }
}

/// How many runs have closed strictly before cell `i`.
pub open spec fn sw_closes(width: int, height: int, coins: Seq<bool>, i: int) -> int
    decreases i,
{
    if i <= 0 {
        0
    } else {
        sw_closes(width, height, coins, i - 1) + if sw_close(width, height, coins, i - 1) {
            1int
        } else {
            0int
        }
    }
}

/// The link relation sidewinder carves for the given coin flips and run
/// draws, after the first `i` cells: an eastward passage from every cell
/// that stays in its run, and a southward passage from the drawn member of
/// every run that closes above the bottom row.
pub open spec fn sw_links(
    width: int,
    height: int,
    coins: Seq<bool>,
    picks: Seq<usize>,
    i: int,
) -> Seq<Seq<Position>>
    decreases i,
{
    if i <= 0 {
        empty_links(width * height)
    } else {
        let prev = sw_links(width, height, coins, picks, i - 1);
        let p = pos_at(width, i - 1);
        if !sw_close(width, height, coins, i - 1) {
            carve(prev, width, p, east_of(p))
        } else if p.y < height - 1 {
            let kx = sw_run_start(width, height, coins, i - 1) + picks[sw_closes(
                width,
                height,
                coins,
                i - 1,
            )] as int;
            let a = Position { x: kx as i32, y: p.y };
            carve(prev, width, a, south_of(a))
        } else {
            prev
        }
    }
}

/// One coin per cell, one draw per close, each draw within its run.
pub open spec fn sw_draws_ok(
    width: int,
    height: int,
    coins: Seq<bool>,
    picks: Seq<usize>,
) -> bool {
    &&& coins.len() == width * height
    &&& picks.len() == sw_closes(width, height, coins, width * height)
    &&& forall|i: int|
        0 <= i < width * height && #[trigger] sw_close(width, height, coins, i) ==> (picks[
            sw_closes(width, height, coins, i)
        ] as int) <= pos_at(width, i).x - sw_run_start(width, height, coins, i)
}

/// Runs close no less often over a longer prefix.
proof fn lemma_sw_closes_mono(width: int, height: int, coins: Seq<bool>, a: int, b: int)
    requires
        a <= b,
    ensures
        sw_closes(width, height, coins, a) <= sw_closes(width, height, coins, b),
    decreases b - a,
{
    if a < b {
        lemma_sw_closes_mono(width, height, coins, a, b - 1);
    }
}

/// The sidewinder state at cell `i` reads only the first `i` coins and the
/// draws of the runs closed before `i`.
proof fn lemma_sw_prefix(
    width: int,
    height: int,
    c1: Seq<bool>,
    c2: Seq<bool>,
    p1: Seq<usize>,
    p2: Seq<usize>,
    i: int,
)
    requires
        forall|j: int| 0 <= j < i ==> c1[j] == c2[j],
        forall|j: int| 0 <= j < sw_closes(width, height, c1, i) ==> p1[j] == p2[j],
    ensures
        sw_closes(width, height, c1, i) == sw_closes(width, height, c2, i),
        sw_run_start(width, height, c1, i) == sw_run_start(width, height, c2, i),
        sw_links(width, height, c1, p1, i) == sw_links(width, height, c2, p2, i),
    decreases i,
{
    if i > 0 {
        lemma_sw_closes_mono(width, height, c1, i - 1, i);
        lemma_sw_prefix(width, height, c1, c2, p1, p2, i - 1);
        assert(sw_close(width, height, c1, i - 1) == sw_close(width, height, c2, i - 1));
        let p = pos_at(width, i - 1);
        if sw_close(width, height, c1, i - 1) && p.y < height - 1 {
            assert(sw_closes(width, height, c1, i - 1) < sw_closes(width, height, c1, i));
            assert(0 <= sw_closes(width, height, c1, i - 1)) by {
                lemma_sw_closes_mono(width, height, c1, 0, i - 1);
            }
            assert(p1[sw_closes(width, height, c1, i - 1)] == p2[sw_closes(
                width,
                height,
                c1,
                i - 1,
            )]);
        }
    }
}

/// Valid draws stay valid when later coins and draws are appended.
proof fn lemma_sw_valid_carry(
    width: int,
    height: int,
    c0: Seq<bool>,
    c1: Seq<bool>,
    p0: Seq<usize>,
    p1: Seq<usize>,
    cur: int,
)
    requires
        forall|j: int| 0 <= j < cur ==> c0[j] == c1[j],
        p0.len() == sw_closes(width, height, c0, cur),
        forall|j: int| 0 <= j < p0.len() ==> p0[j] == p1[j],
        forall|j: int|
            0 <= j < cur && #[trigger] sw_close(width, height, c0, j) ==> (p0[sw_closes(
                width,
                height,
                c0,
                j,
            )] as int) <= pos_at(width, j).x - sw_run_start(width, height, c0, j),
    ensures
        forall|j: int|
            0 <= j < cur && #[trigger] sw_close(width, height, c1, j) ==> (p1[sw_closes(
                width,
                height,
                c1,
                j,
            )] as int) <= pos_at(width, j).x - sw_run_start(width, height, c1, j),
{
    assert forall|j: int|
        0 <= j < cur && #[trigger] sw_close(width, height, c1, j) implies (p1[sw_closes(
        width,
        height,
        c1,
        j,
    )] as int) <= pos_at(width, j).x - sw_run_start(width, height, c1, j) by {
        assert(sw_close(width, height, c0, j) == sw_close(width, height, c1, j));
        lemma_sw_closes_mono(width, height, c0, j, cur);
        lemma_sw_closes_mono(width, height, c0, j + 1, cur);
        lemma_sw_closes_mono(width, height, c0, 0, j);
        lemma_sw_prefix(width, height, c0, c1, p0, p1, j);
        assert(sw_closes(width, height, c0, j) < p0.len());
        assert(p1[sw_closes(width, height, c0, j)] == p0[sw_closes(width, height, c0, j)]);
    }
}

/// Carves a perfect maze into an uncarved grid, row by row. Within a row,
/// each cell either joins the current run with an eastward passage or — at
/// the row boundary, or on a fair coin flip while a south neighbour exists —
/// closes the run, carving one southward passage from a uniformly chosen run
/// member. The bottom row becomes a single eastward corridor, so every run
/// hangs off a path to the south-east corner. A zero-area grid is left
/// untouched.
pub fn sidewinder<G: Grid>(grid: &mut G, rng: &mut SmallRng)
    requires
        grid_inv(
            old(grid).spec_cells(),
            old(grid).spec_width(),
            old(grid).spec_height(),
            old(grid).spec_links(),
        ),
        links_all_empty(old(grid).spec_links()),
    ensures
        final(grid).spec_cells() == old(grid).spec_cells(),
        final(grid).spec_width() == old(grid).spec_width(),
        final(grid).spec_height() == old(grid).spec_height(),
        old(grid).spec_width() >= 1 && old(grid).spec_height() >= 1 ==> is_spanning_tree(
            final(grid).spec_links(),
            old(grid).spec_width(),
            old(grid).spec_height(),
        ) && (exists|coins: Seq<bool>, picks: Seq<usize>|
            sw_draws_ok(old(grid).spec_width(), old(grid).spec_height(), coins, picks) && final(
                grid
            ).spec_links() == sw_links(
                old(grid).spec_width(),
                old(grid).spec_height(),
                coins,
                picks,
                old(grid).spec_width() * old(grid).spec_height(),
            )),
        old(grid).spec_width() < 1 || old(grid).spec_height() < 1 ==> final(grid).spec_links()
            == old(grid).spec_links(),
{
    let width = grid.width();
    let height = grid.height();
    if width < 1 || height < 1 {
        return ;
    }
    let ghost mut gcoins: Seq<bool> = Seq::empty();
    let ghost mut gpicks: Seq<usize> = Seq::empty();
    let ghost w = width as int;
    let ghost h = height as int;
    let ghost n = w * h;
    proof {
        assert(w <= w * h && h <= w * h && 1 <= w * h) by (nonlinear_arith)
            requires
                w >= 1,
                h >= 1,
        ;
    }
    let mut links = clone_links(grid.links());
    proof {
        let lv = links_view(links@);
        crate::topology::lemma_empty_links_ok(lv, w, h);
        assert(links_view(links@) =~~= sw_links(w, h, gcoins, gpicks, 0));
    }
    let mut y: i32 = 0;
    while y < height
        invariant
            w == old(grid).spec_width(),
            h == old(grid).spec_height(),
            1 <= w,
            1 <= h,
            n == w * h,
            n <= i32::MAX,
            w <= n,
            h <= n,
            width as int == w,
            height as int == h,
            0 <= y <= h,
            links@.len() == n,
            links_wf(links_view(links@), w, h),
            links_symmetric(links_view(links@), w, h),
            links_no_dup(links_view(links@)),
            total_entries(links_view(links@)) == 2 * (if y * w < n {
                y * w
            } else {
                n - 1
            }),
            forall|j: int, k: int|
                y * w <= j < n && 0 <= k < links_view(links@)[j].len() ==> pos_index(
                    w,
                    #[trigger] links_view(links@)[j][k],
                ) < y * w,
            forall|q: Position|
                pos_in_bounds(w, h, q) && q.y < y ==> #[trigger] settled(
                    links_view(links@),
                    w,
                    h,
                    q,
                ),
            gcoins.len() == y * w,
            gpicks.len() == sw_closes(w, h, gcoins, y * w),
            links_view(links@) == sw_links(w, h, gcoins, gpicks, y * w),
            forall|j: int|
                0 <= j < y * w && #[trigger] sw_close(w, h, gcoins, j) ==> (gpicks[sw_closes(
                    w,
                    h,
                    gcoins,
                    j,
                )] as int) <= pos_at(w, j).x - sw_run_start(w, h, gcoins, j),
        decreases h - y,
    {
        proof {
            assert(y * w < n && (y + 1) * w == y * w + w && (y + 1) * w <= n) by (nonlinear_arith)
                requires
                    0 <= y < h,
                    1 <= w,
                    n == w * h,
            ;
            assert((y * w) % w == 0) by (nonlinear_arith)
                requires
                    0 <= y,
                    1 <= w,
            ;
            assert(sw_run_start(w, h, gcoins, y * w) == 0) by {
                if y * w > 0 {
                    assert(pos_at(w, y * w).x == 0);
                }
            }
        }
        let mut x: i32 = 0;
        let mut run_start: i32 = 0;
        while x < width
            invariant
                w == old(grid).spec_width(),
                h == old(grid).spec_height(),
                1 <= w,
                1 <= h,
                n == w * h,
                n <= i32::MAX,
                w <= n,
                h <= n,
                width as int == w,
                height as int == h,
                0 <= y < h,
                0 <= x <= w,
                0 <= run_start <= x,
                y * w + w <= n,
                x == w ==> run_start as int == w,
                y == h - 1 ==> run_start == 0 || x == w,
                links@.len() == n,
                links_wf(links_view(links@), w, h),
                links_symmetric(links_view(links@), w, h),
                links_no_dup(links_view(links@)),
                total_entries(links_view(links@)) == 2 * (if y * w + x < n {
                    y * w + x
                } else {
                    n - 1
                }),
                forall|j: int, k: int|
                    y * w + x <= j < n && 0 <= k < links_view(links@)[j].len() ==> pos_index(
                        w,
                        #[trigger] links_view(links@)[j][k],
                    ) < y * w + x,
                forall|q: Position|
                    pos_in_bounds(w, h, q) && (q.y < y || (q.y == y && q.x < run_start))
                        ==> #[trigger] settled(links_view(links@), w, h, q),
                forall|j: i32|
                    run_start <= j < x ==> has_link(
                        links_view(links@),
                        w,
                        h,
                        Position { x: j, y },
                        #[trigger] east_of(Position { x: j, y }),
                    ),
                forall|j: i32|
                    run_start <= j < w ==> !has_link(
                        links_view(links@),
                        w,
                        h,
                        Position { x: j, y },
                        #[trigger] south_of(Position { x: j, y }),
                    ),
                gcoins.len() == y * w + x,
                gpicks.len() == sw_closes(w, h, gcoins, y * w + x),
                x < w ==> run_start as int == sw_run_start(w, h, gcoins, y * w + x),
                links_view(links@) == sw_links(w, h, gcoins, gpicks, y * w + x),
                forall|j: int|
                    0 <= j < y * w + x && #[trigger] sw_close(w, h, gcoins, j) ==> (gpicks[
                        sw_closes(w, h, gcoins, j)
                    ] as int) <= pos_at(w, j).x - sw_run_start(w, h, gcoins, j),
            decreases w - x,
        {
            let at_eastern_boundary = x == width - 1;
            let at_southern_boundary = y == height - 1;
            let mut coin = false;
            if !at_eastern_boundary && !at_southern_boundary {
                coin = coin_flip(rng);
            }
            let close_run = at_eastern_boundary || (!at_southern_boundary && coin);
            let ghost p = Position { x, y };
            let ghost cur = y * w + x;
            let ghost coins0 = gcoins;
            let ghost picks0 = gpicks;
            proof {
                lemma_pos_index_bounds(w, h, p);
                assert(pos_index(w, p) == cur);
                gcoins = gcoins.push(coin);
                assert(pos_at(w, cur) == p);
                assert(sw_close(w, h, gcoins, cur) == close_run);
            }
            if close_run {
                let run_len = (x - run_start + 1) as usize;
                let k_off = rand_index(rng, run_len);
                let kx = run_start + (k_off as i32);
                proof {
                    gpicks = gpicks.push(k_off);
                }
                if !at_southern_boundary {
                    let a = Position { x: kx, y };
                    let b = Position { x: kx, y: y + 1 };
                    let ghost lv = links_view(links@);
                    proof {
                        assert(pos_in_bounds(w, h, a));
                        assert(pos_in_bounds(w, h, b));
                        assert(b == south_of(a));
                        assert(pos_adjacent(a, b));
                        lemma_pos_index_bounds(w, h, a);
                        lemma_pos_index_bounds(w, h, b);
                        assert(pos_index(w, b) == (y + 1) * w + kx);
                        assert((y + 1) * w == y * w + w) by (nonlinear_arith);
                        assert(pos_index(w, b) == y * w + w + kx);
                        assert(pos_index(w, b) > cur);
                        // No southward passage was carved from any cell of
                        // the open run, so this one is fresh.
                        assert(!has_link(lv, w, h, a, south_of(a)));
                        assert(!lv[pos_index(w, a)].contains(b));
                        lemma_carve_preserves(lv, w, h, a, b);
                    }
                    carve_pair(&mut links, width, height, a, b);
                    proof {
                        let lv2 = links_view(links@);
                        assert(lv2 == carve(lv, w, a, b));
                        assert(links_extend(lv, lv2, w, h));
                        assert(y * w + x + 1 < n) by (nonlinear_arith)
                            requires
                                0 <= y <= h - 2,
                                0 <= x < w,
                                1 <= w,
                                n == w * h,
                        ;
                        // Entries of unprocessed cells still point backwards.
                        assert forall|j: int, k: int|
                            cur + 1 <= j < n && 0 <= k < lv2[j].len() implies pos_index(
                            w,
                            #[trigger] lv2[j][k],
                        ) < cur + 1 by {
                            if j == pos_index(w, b) && k == lv[j].len() {
                                assert(lv2[j][k] == a);
                                assert(pos_index(w, a) == y * w + kx);
                            } else {
                                assert(pos_index(w, a) == y * w + kx <= cur);
                                assert(lv2[j][k] == lv[j][k]);
                            }
                        }
                        // The whole run, now closed, is settled through the
                        // chosen cell's new southward passage.
                        assert forall|q: Position|
                            pos_in_bounds(w, h, q) && (q.y < y || (q.y == y && q.x < x + 1))
                            implies #[trigger] settled(lv2, w, h, q) by {
                            if q.y < y || (q.y == y && q.x < run_start) {
                                assert(settled(lv, w, h, q));
                                lemma_settled_mono(lv, lv2, w, h, q);
                            } else {
                                // q is a member of the run.
                                assert(q.y == y && run_start <= q.x <= x);
                                assert forall|j: i32| run_start <= j < x implies has_link(
                                    lv2,
                                    w,
                                    h,
                                    Position { x: j, y },
                                    #[trigger] east_of(Position { x: j, y }),
                                ) by {
                                    assert(has_link(
                                        lv,
                                        w,
                                        h,
                                        Position { x: j, y },
                                        east_of(Position { x: j, y }),
                                    ));
                                }
                                lemma_run_connected(lv2, w, h, y, run_start, x, q.x, kx);
                                assert(has_link(lv2, w, h, a, b));
                                lemma_connected_refl(lv2, w, h, b);
                                lemma_connected_prepend(lv2, w, h, a, b, b);
                                lemma_connected_trans(lv2, w, h, q, a, b);
                                assert(q == Position { x: q.x, y });
                                assert(connected(lv2, w, h, q, b));
                                assert(b.y == q.y + 1);
                            }
                        }
                        // No cell at or beyond the new run start has a
                        // southward passage.
                        assert forall|j: i32| x + 1 <= j < w implies !has_link(
                            lv2,
                            w,
                            h,
                            Position { x: j, y },
                            #[trigger] south_of(Position { x: j, y }),
                        ) by {
                            if has_link(lv2, w, h, Position { x: j, y }, south_of(
                                Position { x: j, y },
                            )) {
                                assert(has_link(lv, w, h, Position { x: j, y }, south_of(
                                    Position { x: j, y },
                                )) || (Position { x: j, y } == a) || (Position { x: j, y }
                                    == b));
                            }
                        }
                        // This cell's coin and draw extend the recorded
                        // draw sequences exactly as sw_links replays them.
                        lemma_sw_prefix(w, h, coins0, gcoins, picks0, gpicks, cur);
                        assert(sw_run_start(w, h, gcoins, cur) == run_start as int);
                        assert(sw_closes(w, h, gcoins, cur) == picks0.len());
                        assert(gpicks[picks0.len() as int] == k_off);
                        assert(sw_links(w, h, gcoins, gpicks, cur + 1) == carve(
                            sw_links(w, h, gcoins, gpicks, cur),
                            w,
                            a,
                            south_of(a),
                        ));
                        assert(links_view(links@) == sw_links(w, h, gcoins, gpicks, cur + 1));
                        lemma_sw_valid_carry(w, h, coins0, gcoins, picks0, gpicks, cur);
                        assert((gpicks[sw_closes(w, h, gcoins, cur)] as int) <= pos_at(
                            w,
                            cur,
                        ).x - sw_run_start(w, h, gcoins, cur));
                        if x + 1 < width {
                            lemma_pos_index_bounds(w, h, Position { x: (x + 1) as i32, y });
                            assert(pos_at(w, cur + 1) == Position { x: (x + 1) as i32, y });
                            assert(sw_run_start(w, h, gcoins, cur + 1) == x + 1);
                        }
                        assert(gpicks.len() == sw_closes(w, h, gcoins, cur + 1));
                    }
                } else {
                    // Bottom row: the run closes at the corner with no
                    // southward carve; the full-row corridor already joins
                    // it to the corner.
                    proof {
                        let lv = links_view(links@);
                        assert(x == w - 1 && y == h - 1 && run_start == 0);
                        assert(y * w + x == n - 1) by (nonlinear_arith)
                            requires
                                x == w - 1,
                                y == h - 1,
                                1 <= w,
                                n == w * h,
                        ;
                        assert forall|q: Position|
                            pos_in_bounds(w, h, q) && (q.y < y || (q.y == y && q.x < x + 1))
                            implies #[trigger] settled(lv, w, h, q) by {
                            if q.y < y {
                                assert(settled(lv, w, h, q));
                            } else {
                                assert(q.y == y && 0 <= q.x <= x);
                                lemma_run_connected(lv, w, h, y, 0, x, q.x, x);
                                assert(Position { x, y } == corner(w, h));
                                assert(q == Position { x: q.x, y });
                            }
                        }
                        lemma_sw_prefix(w, h, coins0, gcoins, picks0, gpicks, cur);
                        assert(sw_run_start(w, h, gcoins, cur) == run_start as int);
                        assert(sw_closes(w, h, gcoins, cur) == picks0.len());
                        assert(gpicks[picks0.len() as int] == k_off);
                        assert(sw_links(w, h, gcoins, gpicks, cur + 1) == sw_links(
                            w,
                            h,
                            gcoins,
                            gpicks,
                            cur,
                        ));
                        assert(links_view(links@) == sw_links(w, h, gcoins, gpicks, cur + 1));
                        lemma_sw_valid_carry(w, h, coins0, gcoins, picks0, gpicks, cur);
                        assert((gpicks[sw_closes(w, h, gcoins, cur)] as int) <= pos_at(
                            w,
                            cur,
                        ).x - sw_run_start(w, h, gcoins, cur));
                        assert(gpicks.len() == sw_closes(w, h, gcoins, cur + 1));
                    }
                }
                run_start = x + 1;
            } else {
                let a = Position { x, y };
                let b = Position { x: x + 1, y };
                let ghost lv = links_view(links@);
                proof {
                    assert(x < w - 1);
                    assert(pos_in_bounds(w, h, a));
                    assert(pos_in_bounds(w, h, b));
                    assert(b == east_of(a));
                    assert(pos_adjacent(a, b));
                    lemma_pos_index_bounds(w, h, b);
                    assert(pos_index(w, b) == cur + 1);
                    // Every entry recorded at the current cell points at an
                    // earlier cell, so the eastward passage is fresh.
                    assert forall|k: int| 0 <= k < lv[cur].len() implies lv[cur][k] != b by {
                        assert(pos_index(w, lv[cur][k]) < cur);
                    }
                    assert(!lv[pos_index(w, a)].contains(b));
                    lemma_carve_preserves(lv, w, h, a, b);
                }
                carve_pair(&mut links, width, height, a, b);
                proof {
                    let lv2 = links_view(links@);
                    assert(lv2 == carve(lv, w, a, b));
                    assert(links_extend(lv, lv2, w, h));
                    assert(has_link(lv2, w, h, a, east_of(a)));
                    assert forall|j: int, k: int|
                        cur + 1 <= j < n && 0 <= k < lv2[j].len() implies pos_index(
                        w,
                        #[trigger] lv2[j][k],
                    ) < cur + 1 by {
                        if j == cur + 1 && k == lv[j].len() {
                            assert(lv2[j][k] == a);
                        } else {
                            assert(lv2[j][k] == lv[j][k]);
                        }
                    }
                    assert forall|q: Position|
                        pos_in_bounds(w, h, q) && (q.y < y || (q.y == y && q.x < run_start))
                        implies #[trigger] settled(lv2, w, h, q) by {
                        assert(settled(lv, w, h, q));
                        lemma_settled_mono(lv, lv2, w, h, q);
                    }
                    assert forall|j: i32| run_start <= j < x + 1 implies has_link(
                        lv2,
                        w,
                        h,
                        Position { x: j, y },
                        #[trigger] east_of(Position { x: j, y }),
                    ) by {
                        if j < x {
                            assert(has_link(
                                lv,
                                w,
                                h,
                                Position { x: j, y },
                                east_of(Position { x: j, y }),
                            ));
                        } else {
                            assert(Position { x: j, y } == a);
                        }
                    }
                    assert forall|j: i32| run_start <= j < w implies !has_link(
                        lv2,
                        w,
                        h,
                        Position { x: j, y },
                        #[trigger] south_of(Position { x: j, y }),
                    ) by {
                        if has_link(lv2, w, h, Position { x: j, y }, south_of(
                            Position { x: j, y },
                        )) {
                            assert(has_link(lv, w, h, Position { x: j, y }, south_of(
                                Position { x: j, y },
                            )) || (Position { x: j, y } == a && south_of(Position { x: j, y })
                                == b) || (Position { x: j, y } == b && south_of(
                                Position { x: j, y },
                            ) == a));
                        }
                    }
                    lemma_sw_prefix(w, h, coins0, gcoins, picks0, gpicks, cur);
                    assert(sw_links(w, h, gcoins, gpicks, cur + 1) == carve(
                        sw_links(w, h, gcoins, gpicks, cur),
                        w,
                        p,
                        east_of(p),
                    ));
                    assert(links_view(links@) == sw_links(w, h, gcoins, gpicks, cur + 1));
                    lemma_sw_valid_carry(w, h, coins0, gcoins, picks0, gpicks, cur);
                    if x + 1 < width {
                        lemma_pos_index_bounds(w, h, Position { x: (x + 1) as i32, y });
                        assert(pos_at(w, cur + 1) == Position { x: (x + 1) as i32, y });
                        assert(sw_run_start(w, h, gcoins, cur + 1) == sw_run_start(
                            w,
                            h,
                            gcoins,
                            cur,
                        ));
                    }
                    assert(gpicks.len() == sw_closes(w, h, gcoins, cur + 1));
                }
            }
            x = x + 1;
        }
        proof {
            assert((y + 1) * w == y * w + w) by (nonlinear_arith);
        }
        y = y + 1;
    }
    proof {
        let lv = links_view(links@);
        assert(y as int == h);
        assert(h * w == n) by (nonlinear_arith)
            requires
                n == w * h,
        ;
        assert forall|q: Position| pos_in_bounds(w, h, q) implies crate::topology::connected(
            lv,
            w,
            h,
            q,
            corner(w, h),
        ) by {
            assert(settled(lv, w, h, q));
            assert forall|q2: Position| pos_in_bounds(w, h, q2) implies settled(
                lv,
                w,
                h,
                q2,
            ) by {}
            lemma_settled_connected(lv, w, h, q);
        }
        assert(is_spanning_tree(lv, w, h));
        assert(gcoins.len() == w * h);
        assert(sw_draws_ok(w, h, gcoins, gpicks));
        assert(exists|coins: Seq<bool>, picks: Seq<usize>|
            sw_draws_ok(w, h, coins, picks) && lv == sw_links(w, h, coins, picks, w * h)) by {
            assert(sw_draws_ok(w, h, gcoins, gpicks) && lv == sw_links(
                w,
                h,
                gcoins,
                gpicks,
                w * h,
            ));
        }
    }
    grid.set_links(links);
}

/// The sidewinder algorithm packaged for callers that bring no generator of
/// their own.
pub struct Sidewinder {}

impl Sidewinder {
    /// Carves a sidewinder maze with a generator seeded from the
    /// thread-local randomness source.
    pub fn on<G: Grid>(grid: &mut G)
        requires
            grid_inv(
                old(grid).spec_cells(),
                old(grid).spec_width(),
                old(grid).spec_height(),
                old(grid).spec_links(),
            ),
            links_all_empty(old(grid).spec_links()),
        ensures
            final(grid).spec_cells() == old(grid).spec_cells(),
            final(grid).spec_width() == old(grid).spec_width(),
            final(grid).spec_height() == old(grid).spec_height(),
            old(grid).spec_width() >= 1 && old(grid).spec_height() >= 1 ==> is_spanning_tree(
                final(grid).spec_links(),
                old(grid).spec_width(),
                old(grid).spec_height(),
            ),
            old(grid).spec_width() < 1 || old(grid).spec_height() < 1 ==> final(
                grid
            ).spec_links() == old(grid).spec_links(),
    {
        let mut rng = crate::rng::small_rng_from_thread();
        sidewinder(grid, &mut rng);
    }
}

} // verus!
