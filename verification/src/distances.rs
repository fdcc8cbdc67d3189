//! The distance engine: breadth-first hop counts over the link relation
//! from a root cell, and path reconstruction.

use vstd::prelude::*;

use crate::topology::{
    has_link, lemma_pos_index_bounds, links_view, links_wf, pos_at, pos_in_bounds, pos_index,
};
use crate::Position;

verus! {

/// `c` can be reached from `root` by following exactly `n` recorded link
/// entries.
pub open spec fn reach_n(
    lv: Seq<Seq<Position>>,
    width: int,
    height: int,
    root: Position,
    c: Position,
    n: nat,
) -> bool
    decreases n,
{
    if n == 0 {
        c == root
    } else {
        exists|b: Position|
            reach_n(lv, width, height, root, b, (n - 1) as nat) && #[trigger] has_link(
                lv,
                width,
                height,
                b,
                c,
            )
    }
}

/// What a finished distance map says: one entry per cell, the root at hop
/// count zero, every assigned count witnessed by a chain of links of that
/// length, and every reachable cell assigned a count no larger than any
/// chain reaching it — together, `Some` of exactly the shortest hop count
/// for every reachable cell, and `None` for every unreachable one.
pub open spec fn dist_map_correct(
    lv: Seq<Seq<Position>>,
    width: int,
    height: int,
    root: Position,
    dist: Seq<Option<i32>>,
) -> bool {
    &&& dist.len() == width * height
    &&& dist[pos_index(width, root)] == Some(0i32)
    &&& forall|c: Position|
        pos_in_bounds(width, height, c) && #[trigger] dist[pos_index(width, c)] is Some ==> reach_n(
            lv,
            width,
            height,
            root,
            c,
            dist[pos_index(width, c)]->0 as nat,
        ) && dist[pos_index(width, c)]->0 >= 0
    &&& forall|c: Position, m: nat|
        #[trigger] reach_n(lv, width, height, root, c, m) ==> pos_in_bounds(width, height, c)
            && dist[pos_index(width, c)] is Some && dist[pos_index(width, c)]->0 <= m
}

/// Number of cells already assigned a distance.
pub open spec fn count_some(dist: Seq<Option<i32>>) -> int
    decreases dist.len(),
{
    if dist.len() == 0 {
        0
    } else {
        count_some(dist.drop_last()) + if dist.last() is Some {
            1int
        } else {
            0int
        }
    }
}

proof fn lemma_count_some_bounds(dist: Seq<Option<i32>>)
    ensures
        0 <= count_some(dist) <= dist.len(),
    decreases dist.len(),
{
    if dist.len() > 0 {
        lemma_count_some_bounds(dist.drop_last());
    }
}

proof fn lemma_count_some_update(dist: Seq<Option<i32>>, i: int, v: i32)
    requires
        0 <= i < dist.len(),
        dist[i] is None,
    ensures
        count_some(dist.update(i, Some(v))) == count_some(dist) + 1,
    decreases dist.len(),
{
    let du = dist.update(i, Some(v));
    if i == dist.len() - 1 {
        assert(du.drop_last() =~= dist.drop_last());
    } else {
        assert(du.drop_last() =~= dist.drop_last().update(i, Some(v)));
        assert(du.last() == dist.last());
        lemma_count_some_update(dist.drop_last(), i, v);
    }
}

proof fn lemma_count_some_push_none(dist: Seq<Option<i32>>)
    ensures
        count_some(dist.push(None)) == count_some(dist),
{
    assert(dist.push(None).drop_last() =~= dist);
}

/// Every cell a BFS layer cell links to has been assigned a distance within
/// the next layer.
pub open spec fn closed_at(
    lv: Seq<Seq<Position>>,
    width: int,
    height: int,
    dist: Seq<Option<i32>>,
    b: Position,
    bound: int,
) -> bool {
    forall|e: Position|
        #[trigger] has_link(lv, width, height, b, e) ==> dist[pos_index(width, e)] is Some
            && dist[pos_index(width, e)]->0 <= bound
}

/// After BFS has exhausted its frontier, any cell reachable in `m` steps
/// holds a distance of at most `m`.
proof fn lemma_bfs_complete(
    lv: Seq<Seq<Position>>,
    width: int,
    height: int,
    root: Position,
    dist: Seq<Option<i32>>,
    d: int,
    c: Position,
    m: nat,
)
    requires
        links_wf(lv, width, height),
        pos_in_bounds(width, height, root),
        dist.len() == width * height,
        dist[pos_index(width, root)] == Some(0i32),
        forall|p: Position|
            pos_in_bounds(width, height, p) && #[trigger] dist[pos_index(width, p)] is Some ==> 0
                <= dist[pos_index(width, p)]->0 <= d,
        forall|p: Position|
            pos_in_bounds(width, height, p) ==> !(#[trigger] dist[pos_index(width, p)] is Some
                && dist[pos_index(width, p)]->0 == d),
        forall|b: Position, e: Position|
            pos_in_bounds(width, height, b) && dist[pos_index(width, b)] is Some && dist[pos_index(
                width,
                b,
            )]->0 < d && #[trigger] has_link(lv, width, height, b, e) ==> dist[pos_index(
                width,
                e,
            )] is Some && dist[pos_index(width, e)]->0 <= dist[pos_index(width, b)]->0 + 1,
        reach_n(lv, width, height, root, c, m),
    ensures
        pos_in_bounds(width, height, c),
        dist[pos_index(width, c)] is Some,
        dist[pos_index(width, c)]->0 <= m,
    decreases m,
{
    if m == 0 {
        assert(c == root);
    } else {
        let b = choose|b: Position|
            reach_n(lv, width, height, root, b, (m - 1) as nat) && #[trigger] has_link(
                lv,
                width,
                height,
                b,
                c,
            );
        lemma_bfs_complete(lv, width, height, root, dist, d, b, (m - 1) as nat);
        assert(pos_in_bounds(width, height, c));
        assert(dist[pos_index(width, b)]->0 < d);
    }
}

/// Breadth-first shortest hop counts from `root` over the recorded link
/// relation: layer by layer, every cell a frontier cell links to and that
/// has no distance yet is assigned the next count. The result holds, for
/// every cell of the grid, `Some` of its least reachable hop count, and
/// `None` exactly where no chain of links reaches.
pub fn distances(root: &Position, links: &Vec<Vec<Position>>, width: i32, height: i32) -> (dist:
    Vec<Option<i32>>)
    requires
        0 <= width,
        0 <= height,
        width * height <= i32::MAX,
        links_wf(links_view(links@), width as int, height as int),
        pos_in_bounds(width as int, height as int, *root),
    ensures
        dist@.len() == width * height,
        dist_map_correct(links_view(links@), width as int, height as int, *root, dist@),
{
    let ghost w = width as int;
    let ghost h = height as int;
    let ghost lv = links_view(links@);
    let ghost r = *root;
    proof {
        assert(0 <= w * h) by (nonlinear_arith)
            requires
                0 <= w,
                0 <= h,
        ;
        lemma_pos_index_bounds(w, h, r);
    }
    let n = (width * height) as usize;
    let mut dist: Vec<Option<i32>> = Vec::new();
    while dist.len() < n
        invariant
            dist@.len() <= n,
            count_some(dist@) == 0,
            forall|i: int| 0 <= i < dist@.len() ==> #[trigger] dist@[i] is None,
        decreases n - dist@.len(),
    {
        proof {
            lemma_count_some_push_none(dist@);
        }
        dist.push(None);
    }
    let ri = (root.y * width + root.x) as usize;
    proof {
        lemma_count_some_update(dist@, ri as int, 0i32);
    }
    dist[ri] = Some(0);
    proof {
        lemma_count_some_bounds(dist@);
    }
    let mut frontier: Vec<Position> = Vec::new();
    frontier.push(*root);
    let mut d: i32 = 0;
    proof {
        assert forall|c: Position|
            pos_in_bounds(w, h, c) && c != r implies dist@[pos_index(w, c)] is None by {
            lemma_pos_index_bounds(w, h, c);
            if pos_index(w, c) == pos_index(w, r) {
                crate::topology::lemma_pos_index_injective(w, h, c, r);
            }
        }
        assert(frontier@[0] == r);
        assert(frontier@.contains(r));
    }
    while frontier.len() > 0
        invariant
            0 <= w,
            0 <= h,
            w * h <= i32::MAX,
            width as int == w,
            height as int == h,
            n == w * h,
            lv == links_view(links@),
            links_wf(lv, w, h),
            r == *root,
            pos_in_bounds(w, h, r),
            dist@.len() == n,
            0 <= d,
            dist@[pos_index(w, r)] == Some(0i32),
            0 <= count_some(dist@) <= n,
            frontier@.len() > 0 ==> d < count_some(dist@),
            forall|c: Position|
                pos_in_bounds(w, h, c) && #[trigger] dist@[pos_index(w, c)] is Some ==> 0 <= dist@[
                    pos_index(w, c)
                ]->0 <= d && reach_n(lv, w, h, r, c, dist@[pos_index(w, c)]->0 as nat),
            forall|fi2: int|
                0 <= fi2 < frontier@.len() ==> pos_in_bounds(w, h, #[trigger] frontier@[fi2])
                    && dist@[pos_index(w, frontier@[fi2])] == Some(d),
            forall|p: Position|
                pos_in_bounds(w, h, p) && #[trigger] dist@[pos_index(w, p)] == Some(d)
                    ==> frontier@.contains(p),
            forall|b: Position, e: Position|
                pos_in_bounds(w, h, b) && dist@[pos_index(w, b)] is Some && dist@[pos_index(
                    w,
                    b,
                )]->0 < d && #[trigger] has_link(lv, w, h, b, e) ==> dist@[pos_index(
                    w,
                    e,
                )] is Some && dist@[pos_index(w, e)]->0 <= dist@[pos_index(w, b)]->0 + 1,
        decreases 2 * (n - count_some(dist@)) + frontier@.len(),
    {
        let mut new_frontier: Vec<Position> = Vec::new();
        let ghost count0 = count_some(dist@);
        let mut fi: usize = 0;
        while fi < frontier.len()
            invariant
                0 <= w,
                0 <= h,
                w * h <= i32::MAX,
                width as int == w,
                height as int == h,
                n == w * h,
                lv == links_view(links@),
                links_wf(lv, w, h),
                r == *root,
                pos_in_bounds(w, h, r),
                dist@.len() == n,
                0 <= d,
                d + 1 <= i32::MAX,
                dist@[pos_index(w, r)] == Some(0i32),
                fi <= frontier@.len(),
                count_some(dist@) == count0 + new_frontier@.len(),
                count_some(dist@) <= n,
                forall|c: Position|
                    pos_in_bounds(w, h, c) && #[trigger] dist@[pos_index(w, c)] is Some ==> 0
                        <= dist@[pos_index(w, c)]->0 <= d + 1 && reach_n(
                        lv,
                        w,
                        h,
                        r,
                        c,
                        dist@[pos_index(w, c)]->0 as nat,
                    ),
                forall|fi2: int|
                    0 <= fi2 < frontier@.len() ==> pos_in_bounds(w, h, #[trigger] frontier@[fi2])
                        && dist@[pos_index(w, frontier@[fi2])] == Some(d),
                forall|p: Position|
                    pos_in_bounds(w, h, p) && #[trigger] dist@[pos_index(w, p)] == Some(d)
                        ==> frontier@.contains(p),
                forall|ni: int|
                    0 <= ni < new_frontier@.len() ==> pos_in_bounds(
                        w,
                        h,
                        #[trigger] new_frontier@[ni],
                    ) && dist@[pos_index(w, new_frontier@[ni])] == Some((d + 1) as i32),
                forall|p: Position|
                    pos_in_bounds(w, h, p) && #[trigger] dist@[pos_index(w, p)] == Some((d + 1) as i32)
                        ==> new_frontier@.contains(p),
                forall|b: Position, e: Position|
                    pos_in_bounds(w, h, b) && dist@[pos_index(w, b)] is Some && dist@[pos_index(
                        w,
                        b,
                    )]->0 < d && #[trigger] has_link(lv, w, h, b, e) ==> dist@[pos_index(
                        w,
                        e,
                    )] is Some && dist@[pos_index(w, e)]->0 <= dist@[pos_index(w, b)]->0 + 1,
                forall|bi: int|
                    0 <= bi < fi ==> closed_at(lv, w, h, dist@, #[trigger] frontier@[bi], d + 1),
            decreases frontier@.len() - fi,
        {
            let pos = frontier[fi];
            proof {
                lemma_pos_index_bounds(w, h, pos);
            }
            let pi = (pos.y * width + pos.x) as usize;
            let mut li: usize = 0;
            while li < links[pi].len()
                invariant
                    0 <= w,
                    0 <= h,
                    w * h <= i32::MAX,
                    width as int == w,
                    height as int == h,
                    n == w * h,
                    lv == links_view(links@),
                    links_wf(lv, w, h),
                    r == *root,
                    pos_in_bounds(w, h, r),
                    dist@.len() == n,
                    0 <= d,
                    d + 1 <= i32::MAX,
                    dist@[pos_index(w, r)] == Some(0i32),
                    fi < frontier@.len(),
                    pos == frontier@[fi as int],
                    pos_in_bounds(w, h, pos),
                    pi == pos_index(w, pos),
                    pi < links@.len(),
                    li <= links@[pi as int]@.len(),
                    count_some(dist@) == count0 + new_frontier@.len(),
                    count_some(dist@) <= n,
                    forall|c: Position|
                        pos_in_bounds(w, h, c) && #[trigger] dist@[pos_index(w, c)] is Some ==> 0
                            <= dist@[pos_index(w, c)]->0 <= d + 1 && reach_n(
                            lv,
                            w,
                            h,
                            r,
                            c,
                            dist@[pos_index(w, c)]->0 as nat,
                        ),
                    forall|fi2: int|
                        0 <= fi2 < frontier@.len() ==> pos_in_bounds(
                            w,
                            h,
                            #[trigger] frontier@[fi2],
                        ) && dist@[pos_index(w, frontier@[fi2])] == Some(d),
                    forall|p: Position|
                        pos_in_bounds(w, h, p) && #[trigger] dist@[pos_index(w, p)] == Some(d)
                            ==> frontier@.contains(p),
                    forall|ni: int|
                        0 <= ni < new_frontier@.len() ==> pos_in_bounds(
                            w,
                            h,
                            #[trigger] new_frontier@[ni],
                        ) && dist@[pos_index(w, new_frontier@[ni])] == Some((d + 1) as i32),
                    forall|p: Position|
                        pos_in_bounds(w, h, p) && #[trigger] dist@[pos_index(w, p)] == Some((d + 1) as i32)
                            ==> new_frontier@.contains(p),
                    forall|b: Position, e: Position|
                        pos_in_bounds(w, h, b) && dist@[pos_index(w, b)] is Some && dist@[pos_index(
                            w,
                            b,
                        )]->0 < d && #[trigger] has_link(lv, w, h, b, e) ==> dist@[pos_index(
                            w,
                            e,
                        )] is Some && dist@[pos_index(w, e)]->0 <= dist@[pos_index(w, b)]->0 + 1,
                    forall|bi: int|
                        0 <= bi < fi ==> closed_at(
                            lv,
                            w,
                            h,
                            dist@,
                            #[trigger] frontier@[bi],
                            d + 1,
                        ),
                    forall|k: int|
                        0 <= k < li ==> dist@[pos_index(w, #[trigger] lv[pi as int][k])] is Some
                            && dist@[pos_index(w, lv[pi as int][k])]->0 <= d + 1,
                decreases links@[pi as int]@.len() - li,
            {
                let e = links[pi][li];
                proof {
                    assert(lv[pi as int] == links@[pi as int]@);
                    assert(lv[pi as int][li as int] == e);
                    assert(lv[pi as int].contains(e));
                    assert(has_link(lv, w, h, pos, e));
                    lemma_pos_index_bounds(w, h, e);
                }
                let ei = (e.y * width + e.x) as usize;
                if dist[ei].is_none() {
                    let ghost dist_before = dist@;
                    let ghost nf_before = new_frontier@;
                    proof {
                        lemma_count_some_update(dist@, ei as int, (d + 1) as i32);
                    }
                    dist[ei] = Some(d + 1);
                    new_frontier.push(e);
                    proof {
                        lemma_count_some_bounds(dist@);
                        assert forall|c2: Position|
                            pos_in_bounds(w, h, c2) && c2 != e implies dist@[pos_index(w, c2)]
                            == dist_before[pos_index(w, c2)] by {
                            lemma_pos_index_bounds(w, h, c2);
                            if pos_index(w, c2) == ei as int {
                                crate::topology::lemma_pos_index_injective(w, h, c2, e);
                            }
                        }
                        assert(dist@[pos_index(w, e)] == Some((d + 1) as i32));
                        assert(dist@[pos_index(w, pos)] == Some(d));
                        assert(reach_n(lv, w, h, r, pos, d as nat));
                        assert(reach_n(lv, w, h, r, e, (d + 1) as nat));
                        assert(new_frontier@ == nf_before.push(e));
                        assert forall|p2: Position|
                            pos_in_bounds(w, h, p2) && dist@[pos_index(w, p2)] == Some(
                            (d + 1) as i32,
                        ) implies new_frontier@.contains(p2) by {
                            if p2 == e {
                                assert(new_frontier@[nf_before.len() as int] == e);
                            } else {
                                assert(nf_before.contains(p2));
                                let k = choose|k: int|
                                    0 <= k < nf_before.len() && nf_before[k] == p2;
                                assert(new_frontier@[k] == p2);
                            }
                        }
                        assert forall|p2: Position|
                            pos_in_bounds(w, h, p2) && dist@[pos_index(w, p2)] == Some(d)
                            implies frontier@.contains(p2) by {
                            assert(p2 != e);
                            assert(dist_before[pos_index(w, p2)] == Some(d));
                        }
                        assert forall|k2: int| 0 <= k2 < li + 1 implies dist@[pos_index(
                            w,
                            #[trigger] lv[pi as int][k2],
                        )] is Some && dist@[pos_index(w, lv[pi as int][k2])]->0 <= d + 1 by {
                            let e2 = lv[pi as int][k2];
                            assert(lv[pi as int].contains(e2));
                            assert(has_link(lv, w, h, pos, e2));
                            if e2 != e {
                                assert(dist@[pos_index(w, e2)] == dist_before[pos_index(
                                    w,
                                    e2,
                                )]);
                            }
                        }
                    }
                }
                li = li + 1;
            }
            proof {
                assert(closed_at(lv, w, h, dist@, pos, d + 1)) by {
                    assert forall|e2: Position| #[trigger]
                        has_link(lv, w, h, pos, e2) implies dist@[pos_index(w, e2)] is Some
                        && dist@[pos_index(w, e2)]->0 <= d + 1 by {
                        let k = choose|k: int|
                            0 <= k < lv[pi as int].len() && lv[pi as int][k] == e2;
                        assert(dist@[pos_index(w, lv[pi as int][k])] is Some);
                    }
                }
            }
            fi = fi + 1;
        }
        let ghost old_frontier = frontier@;
        frontier = new_frontier;
        proof {
            // Every cell of the finished layer is now closed.
            assert forall|b: Position, e: Position|
                pos_in_bounds(w, h, b) && dist@[pos_index(w, b)] is Some && dist@[pos_index(
                    w,
                    b,
                )]->0 < d + 1 && #[trigger] has_link(lv, w, h, b, e) implies dist@[pos_index(
                w,
                e,
            )] is Some && dist@[pos_index(w, e)]->0 <= dist@[pos_index(w, b)]->0 + 1 by {
                if dist@[pos_index(w, b)]->0 == d {
                    assert(old_frontier.contains(b));
                    let bi = choose|bi: int| 0 <= bi < old_frontier.len() && old_frontier[bi] == b;
                    assert(closed_at(lv, w, h, dist@, b, d + 1));
                }
            }
        }
        d = d + 1;
    }
    proof {
        assert forall|c: Position, m: nat| #[trigger]
            reach_n(lv, w, h, r, c, m) implies pos_in_bounds(w, h, c) && dist@[pos_index(
            w,
            c,
        )] is Some && dist@[pos_index(w, c)]->0 <= m by {
            lemma_bfs_complete(lv, w, h, r, dist@, d as int, c, m);
        }
    }
    dist
}

/// Shortest hop counts are unique: two correct distance maps for the same
/// relation and root agree everywhere.
pub proof fn lemma_dist_map_unique(
    lv: Seq<Seq<Position>>,
    width: int,
    height: int,
    root: Position,
    d1: Seq<Option<i32>>,
    d2: Seq<Option<i32>>,
)
    requires
        width >= 1,
        height >= 1,
        width * height <= i32::MAX,
        dist_map_correct(lv, width, height, root, d1),
        dist_map_correct(lv, width, height, root, d2),
    ensures
        d1 == d2,
{
    assert forall|i: int| 0 <= i < d1.len() implies d1[i] == d2[i] by {
        crate::topology::lemma_pos_at_bounds(width, height, i);
        let c = pos_at(width, i);
        match d1[i] {
            Some(k1) => {
                assert(reach_n(lv, width, height, root, c, k1 as nat));
                assert(d2[i] is Some && d2[i]->0 <= k1);
                let k2 = d2[i]->0;
                assert(reach_n(lv, width, height, root, c, k2 as nat));
                assert(d1[i]->0 <= k2);
            },
            None => {
                if d2[i] is Some {
                    let k2 = d2[i]->0;
                    assert(reach_n(lv, width, height, root, c, k2 as nat));
                    assert(d1[i] is Some);
                }
            },
        }
    }
    assert(d1 =~= d2);
}

/// Reconstructs the ordered walk from `root` to `target` along recorded
/// links, shortest first: the result steps through cells of strictly
/// increasing hop count, one link at a time. Returns `None` exactly when no
/// chain of links reaches `target`.
pub fn path_to(
    root: &Position,
    target: &Position,
    links: &Vec<Vec<Position>>,
    width: i32,
    height: i32,
) -> (r: Option<Vec<Position>>)
    requires
        0 <= width,
        0 <= height,
        width * height <= i32::MAX,
        links_wf(links_view(links@), width as int, height as int),
        pos_in_bounds(width as int, height as int, *root),
    ensures
        (r is Some) <==> (exists|m: nat|
            reach_n(links_view(links@), width as int, height as int, *root, *target, m)),
        r matches Some(p) ==> {
            &&& p@.len() >= 1
            &&& p@[0] == *root
            &&& p@[p@.len() - 1] == *target
            &&& forall|i: int|
                0 <= i < p@.len() - 1 ==> has_link(
                    links_view(links@),
                    width as int,
                    height as int,
                    #[trigger] p@[i],
                    p@[i + 1],
                )
            &&& forall|i: int|
                0 <= i < p@.len() ==> reach_n(
                    links_view(links@),
                    width as int,
                    height as int,
                    *root,
                    #[trigger] p@[i],
                    i as nat,
                )
            &&& forall|m: nat|
                #[trigger] reach_n(links_view(links@), width as int, height as int, *root, *target, m)
                    ==> p@.len() - 1 <= m
        },
{
    let ghost w = width as int;
    let ghost h = height as int;
    let ghost lv = links_view(links@);
    let ghost r0 = *root;
    let ghost t = *target;
    if target.x < 0 || target.x >= width || target.y < 0 || target.y >= height {
        proof {
            if exists|m: nat| reach_n(lv, w, h, r0, t, m) {
                let m = choose|m: nat| reach_n(lv, w, h, r0, t, m);
                if m == 0 {
                    assert(t == r0);
                } else {
                    let b = choose|b: Position|
                        reach_n(lv, w, h, r0, b, (m - 1) as nat) && #[trigger] has_link(
                            lv,
                            w,
                            h,
                            b,
                            t,
                        );
                    assert(pos_in_bounds(w, h, t));
                }
            }
        }
        return None;
    }
    let ds = distances(root, links, width, height);
    proof {
        lemma_pos_index_bounds(w, h, t);
    }
    let ti = (target.y * width + target.x) as usize;
    let dt = match ds[ti] {
        Some(dt) => dt,
        None => {
            proof {
                if exists|m: nat| reach_n(lv, w, h, r0, t, m) {
                    let m = choose|m: nat| reach_n(lv, w, h, r0, t, m);
                    assert(ds@[pos_index(w, t)] is Some);
                }
            }
            return None;
        },
    };
    let n = (width * height) as usize;
    proof {
        assert(1 <= w && 1 <= h) by (nonlinear_arith)
            requires
                0 <= w,
                0 <= h,
                1 <= w * h,
        ;
    }
    let mut path_rev: Vec<Position> = Vec::new();
    path_rev.push(*target);
    let mut cur: Position = *target;
    let mut k: i32 = dt;
    while k > 0
        invariant
            0 <= w,
            0 <= h,
            1 <= w,
            1 <= h,
            w * h <= i32::MAX,
            width as int == w,
            height as int == h,
            n == w * h,
            lv == links_view(links@),
            links_wf(lv, w, h),
            r0 == *root,
            t == *target,
            pos_in_bounds(w, h, r0),
            dist_map_correct(lv, w, h, r0, ds@),
            ds@.len() == n,
            0 <= k <= dt,
            pos_in_bounds(w, h, cur),
            ds@[pos_index(w, cur)] == Some(k),
            path_rev@.len() == dt - k + 1,
            path_rev@[0] == t,
            path_rev@[path_rev@.len() - 1] == cur,
            forall|i: int|
                0 <= i < path_rev@.len() - 1 ==> has_link(
                    lv,
                    w,
                    h,
                    path_rev@[i + 1],
                    #[trigger] path_rev@[i],
                ),
            forall|i: int|
                0 <= i < path_rev@.len() ==> pos_in_bounds(w, h, #[trigger] path_rev@[i])
                    && ds@[pos_index(w, path_rev@[i])] == Some((dt - i) as i32),
        decreases k,
    {
        proof {
            assert(reach_n(lv, w, h, r0, cur, k as nat));
        }
        let ghost b0 = choose|b: Position|
            reach_n(lv, w, h, r0, b, (k - 1) as nat) && #[trigger] has_link(lv, w, h, b, cur);
        proof {
            assert(reach_n(lv, w, h, r0, b0, (k - 1) as nat) && has_link(lv, w, h, b0, cur));
            assert(ds@[pos_index(w, b0)] is Some && ds@[pos_index(w, b0)]->0 <= k - 1);
            let kb = ds@[pos_index(w, b0)]->0;
            assert(pos_in_bounds(w, h, b0));
            assert(reach_n(lv, w, h, r0, b0, kb as nat));
            if kb < k - 1 {
                assert(reach_n(lv, w, h, r0, cur, (kb + 1) as nat));
                assert(ds@[pos_index(w, cur)]->0 <= kb + 1);
                assert(false);
            }
            assert(ds@[pos_index(w, b0)] == Some((k - 1) as i32));
            lemma_pos_index_bounds(w, h, b0);
        }
        let mut found: Option<Position> = None;
        let mut i: usize = 0;
        while found.is_none()
            invariant
                0 <= w,
                0 <= h,
                1 <= w,
                1 <= h,
                w * h <= i32::MAX,
                width as int == w,
                height as int == h,
                n == w * h,
                lv == links_view(links@),
                links_wf(lv, w, h),
                dist_map_correct(lv, w, h, r0, ds@),
                ds@.len() == n,
                0 < k <= dt,
                pos_in_bounds(w, h, cur),
                ds@[pos_index(w, b0)] == Some((k - 1) as i32),
                has_link(lv, w, h, b0, cur),
                pos_in_bounds(w, h, b0),
                i <= n,
                found is None ==> forall|j: int|
                    0 <= j < i ==> !(ds@[j] == Some((k - 1) as i32) && has_link(
                        lv,
                        w,
                        h,
                        #[trigger] pos_at(w, j),
                        cur,
                    )),
                found matches Some(b) ==> pos_in_bounds(w, h, b) && ds@[pos_index(w, b)] == Some(
                    (k - 1) as i32,
                ) && has_link(lv, w, h, b, cur),
            decreases n - i,
        {
            proof {
                if i as int == n {
                    lemma_pos_index_bounds(w, h, b0);
                    assert(pos_at(w, pos_index(w, b0)) == b0);
                    assert(!(ds@[pos_index(w, b0)] == Some((k - 1) as i32) && has_link(
                        lv,
                        w,
                        h,
                        pos_at(w, pos_index(w, b0)),
                        cur,
                    )));
                    assert(false);
                }
            }
            let bx = (i as i32) % width;
            let by = (i as i32) / width;
            let b = Position { x: bx, y: by };
            proof {
                crate::topology::lemma_pos_at_bounds(w, h, i as int);
                assert(b == pos_at(w, i as int));
                assert(pos_index(w, b) == i as int);
            }
            let hit = match ds[i] {
                Some(v) => v == k - 1,
                None => false,
            };
            if hit && crate::render::has_entry(links, width, height, b, cur) {
                found = Some(b);
            }
            i = i + 1;
        }
        let b = match found {
            Some(b) => b,
            None => {
                proof {
                    assert(false);
                }
                *root
            },
        };
        path_rev.push(b);
        cur = b;
        k = k - 1;
    }
    proof {
        assert(reach_n(lv, w, h, r0, cur, 0));
        assert(cur == r0);
    }
    let total = path_rev.len();
    let mut path: Vec<Position> = Vec::new();
    let mut j: usize = 0;
    while j < total
        invariant
            total == path_rev@.len(),
            j <= total,
            path@.len() == j,
            forall|i: int| 0 <= i < j ==> #[trigger] path@[i] == path_rev@[total - 1 - i],
        decreases total - j,
    {
        path.push(path_rev[total - 1 - j]);
        j = j + 1;
    }
    proof {
        let p = path@;
        let rev = path_rev@;
        let ghost ln = p.len() as int;
        assert(ln == dt + 1);
        assert(p[0] == rev[ln - 1] && rev[ln - 1] == r0);
        assert(p[ln - 1] == rev[0] && rev[0] == t);
        assert forall|i: int| 0 <= i < ln - 1 implies has_link(
            lv,
            w,
            h,
            #[trigger] p[i],
            p[i + 1],
        ) by {
            assert(p[i] == rev[ln - 1 - i]);
            assert(p[i + 1] == rev[ln - 1 - (i + 1)]);
            assert(has_link(lv, w, h, rev[(ln - 2 - i) + 1], rev[ln - 2 - i]));
        }
        assert forall|i: int| 0 <= i < ln implies reach_n(lv, w, h, r0, #[trigger] p[i], i as nat) by {
            assert(p[i] == rev[ln - 1 - i]);
            assert(ds@[pos_index(w, rev[ln - 1 - i])] == Some((dt - (ln - 1 - i)) as i32));
            assert(dt - (ln - 1 - i) == i);
            assert(pos_in_bounds(w, h, p[i]));
        }
        assert(reach_n(lv, w, h, r0, t, dt as nat)) by {
            assert(ds@[pos_index(w, t)] == Some(dt));
        }
        assert forall|m: nat| #[trigger] reach_n(lv, w, h, r0, t, m) implies ln - 1 <= m by {
            assert(ds@[pos_index(w, t)]->0 <= m);
        }
    }
    Some(path)
}

} // verus!
