//! Flood reachability and the Dijkstra-style distance field over the
//! walkable subgraph: the cells a walker can reach from a start cell,
//! stepping through 8-connected in-bounds walkable neighbours.

use crate::geom::{
    adjacent8, cell_index, in_bounds, lemma_cell_index_bounds, lemma_cell_index_injective,
    step_cost, CARDINAL_COST, DIAGONAL_COST,
};
use crate::map::{grid_wf, walkable_at, GridV, SanityMap};
use vstd::prelude::*;

verus! {

/// One link of a walkable chain: the source is in bounds and the step
/// enters an adjacent in-bounds walkable cell.
pub open spec fn chain_step(g: GridV, a: (int, int), b: (int, int)) -> bool {
    in_bounds(g.width, g.height, a.0, a.1) && adjacent8(a.0, a.1, b.0, b.1) && walkable_at(
        g,
        b.0,
        b.1,
    )
}

/// A walkable chain from `(sx, sy)` to `(x, y)`: the listed cells start
/// at the start cell, end at the target, and every consecutive pair is a
/// `chain_step`.
pub open spec fn is_chain(g: GridV, p: Seq<(int, int)>, sx: int, sy: int, x: int, y: int) -> bool {
    &&& p.len() >= 1
    &&& p[0] == (sx, sy)
    &&& p.last() == (x, y)
    &&& forall|t: int| 0 <= t < p.len() - 1 ==> chain_step(g, #[trigger] p[t], p[t + 1])
}

/// The cell can be reached from the start by some walkable chain.
pub open spec fn reachable(g: GridV, sx: int, sy: int, x: int, y: int) -> bool {
    exists|p: Seq<(int, int)>| is_chain(g, p, sx, sy, x, y)
}

/// The start cell reaches itself.
pub proof fn lemma_reachable_self(g: GridV, sx: int, sy: int)
    ensures
        reachable(g, sx, sy, sx, sy),
{
    let p: Seq<(int, int)> = seq![(sx, sy)];
    assert(is_chain(g, p, sx, sy, sx, sy));
}

/// One step out of a reachable cell into a walkable neighbour stays
/// reachable.
pub proof fn lemma_reachable_step(g: GridV, sx: int, sy: int, px: int, py: int, x: int, y: int)
    requires
        reachable(g, sx, sy, px, py),
        in_bounds(g.width, g.height, px, py),
        adjacent8(px, py, x, y),
        walkable_at(g, x, y),
    ensures
        reachable(g, sx, sy, x, y),
{
    let p = choose|p: Seq<(int, int)>| is_chain(g, p, sx, sy, px, py);
    let q = p.push((x, y));
    assert forall|t: int| 0 <= t < q.len() - 1 implies chain_step(g, #[trigger] q[t], q[t + 1]) by {
        if t < p.len() - 1 {
            assert(q[t] == p[t] && q[t + 1] == p[t + 1]);
            assert(chain_step(g, p[t], p[t + 1]));
        } else {
            assert(q[t] == p.last() && q[t + 1] == (x, y));
        }
    }
    assert(q[0] == p[0]);
    assert(is_chain(g, q, sx, sy, x, y));
}

/// The visited set is closed: every walkable neighbour of a visited cell
/// is visited too.
pub open spec fn visited_closed(g: GridV, vis: Seq<bool>) -> bool {
    forall|px: int, py: int, x: int, y: int|
        in_bounds(g.width, g.height, px, py) && #[trigger] vis[cell_index(g.width, px, py)]
            && adjacent8(px, py, x, y) && #[trigger] walkable_at(g, x, y) ==> vis[cell_index(
            g.width,
            x,
            y,
        )]
}

/// Every visited cell is reachable.
pub open spec fn visited_sound(g: GridV, sx: int, sy: int, vis: Seq<bool>) -> bool {
    forall|x: int, y: int|
        in_bounds(g.width, g.height, x, y) && #[trigger] vis[cell_index(g.width, x, y)]
            ==> reachable(g, sx, sy, x, y)
}

/// A closed visited set holding the start covers everything reachable.
proof fn lemma_closed_covers(g: GridV, sx: int, sy: int, vis: Seq<bool>, p: Seq<(int, int)>, x: int, y: int)
    requires
        grid_wf(g),
        in_bounds(g.width, g.height, sx, sy),
        vis.len() == g.width * g.height,
        vis[cell_index(g.width, sx, sy)],
        visited_closed(g, vis),
        is_chain(g, p, sx, sy, x, y),
    ensures
        in_bounds(g.width, g.height, x, y) ==> vis[cell_index(g.width, x, y)],
    decreases p.len(),
{
    if p.len() == 1 {
        assert(x == sx && y == sy);
    } else {
        let q = p.drop_last();
        let (px, py) = p[p.len() - 2];
        assert(chain_step(g, p[p.len() - 2], p[p.len() - 1]));
        assert forall|t: int| 0 <= t < q.len() - 1 implies chain_step(g, #[trigger] q[t], q[t + 1]) by {
            assert(q[t] == p[t] && q[t + 1] == p[t + 1]);
            assert(chain_step(g, p[t], p[t + 1]));
        }
        assert(q.last() == (px, py));
        assert(is_chain(g, q, sx, sy, px, py));
        lemma_closed_covers(g, sx, sy, vis, q, px, py);
        assert(vis[cell_index(g.width, px, py)]);
        assert(walkable_at(g, x, y));
        assert(vis[cell_index(g.width, x, y)]);
    }
}

/// Number of `true` entries.
pub open spec fn count_trues(s: Seq<bool>) -> int
    decreases s.len(),
{
    if s.len() == 0 {
        0
    } else {
        count_trues(s.drop_last()) + if s.last() {
            1int
        } else {
            0int
        }
    }
}

pub proof fn lemma_count_trues_empty(s: Seq<bool>)
    requires
        s.len() == 0,
    ensures
        count_trues(s) == 0,
{
}

proof fn lemma_count_trues_le_len(s: Seq<bool>)
    ensures
        0 <= count_trues(s) <= s.len(),
    decreases s.len(),
{
    if s.len() > 0 {
        lemma_count_trues_le_len(s.drop_last());
    }
}

proof fn lemma_count_trues_set_true(s: Seq<bool>, i: int)
    requires
        0 <= i < s.len(),
        !s[i],
    ensures
        count_trues(s.update(i, true)) == count_trues(s) + 1,
    decreases s.len(),
{
    let t = s.update(i, true);
    if i == s.len() - 1 {
        assert(t.drop_last() =~= s.drop_last());
        assert(t.last());
        assert(!s.last());
    } else {
        assert(t.drop_last() =~= s.drop_last().update(i, true));
        assert(t.last() == s.last());
        lemma_count_trues_set_true(s.drop_last(), i);
    }
}

/// True when some 8-neighbour of `(x, y)` is in bounds and visited.
pub open spec fn has_visited_neighbour(g: GridV, vis: Seq<bool>, x: int, y: int) -> bool {
    exists|px: int, py: int|
        in_bounds(g.width, g.height, px, py) && adjacent8(px, py, x, y) && #[trigger] vis[cell_index(
            g.width,
            px,
            py,
        )]
}

fn seek_step(
    map: &SanityMap,
    vis: &Vec<bool>,
    x: usize,
    y: usize,
    dx: i32,
    dy: i32,
) -> (r: Option<usize>)
    requires
        map.wf(),
        vis@.len() == map@.tiles.len(),
        in_bounds(map@.width, map@.height, x as int, y as int),
        -1 <= dx <= 1,
        -1 <= dy <= 1,
    ensures
        r is Some <==> (in_bounds(map@.width, map@.height, x as int + dx as int, y as int
            + dy as int) && vis@[cell_index(map@.width, x as int + dx as int, y as int
            + dy as int)]),
        r matches Some(p) ==> p == cell_index(
            map@.width,
            x as int + dx as int,
            y as int + dy as int,
        ) && (p as int) < map@.tiles.len(),
{
    let tx = x as i64 + dx as i64;
    let ty = y as i64 + dy as i64;
    if tx < 0 || ty < 0 || tx >= map.width as i64 || ty >= map.height as i64 {
        return None;
    }
    let idx = map.point2d_to_index(tx as usize, ty as usize);
    if vis[idx] {
        Some(idx)
    } else {
        None
    }
}

/// Finds some visited 8-neighbour of `(x, y)` together with the cost of
/// stepping from it into `(x, y)`.
fn seek_visited_neighbour(map: &SanityMap, vis: &Vec<bool>, x: usize, y: usize) -> (r: Option<
    (usize, u64),
>)
    requires
        map.wf(),
        vis@.len() == map@.tiles.len(),
        in_bounds(map@.width, map@.height, x as int, y as int),
    ensures
        r is None <==> !has_visited_neighbour(map@, vis@, x as int, y as int),
        r matches Some(pc) ==> (pc.0 as int) < map@.tiles.len() && (exists|px: int, py: int|
            in_bounds(map@.width, map@.height, px, py) && adjacent8(px, py, x as int, y as int)
                && #[trigger] vis@[cell_index(map@.width, px, py)] && pc.0 == cell_index(
                map@.width,
                px,
                py,
            ) && pc.1 == step_cost(px, py, x as int, y as int)),
{
    let g = Ghost(map@);
    let xi = Ghost(x as int);
    let yi = Ghost(y as int);
    if let Some(p) = seek_step(map, vis, x, y, -1, 0) {
        proof {
            assert(vis@[cell_index(g@.width, xi@ - 1, yi@)]);
            assert(CARDINAL_COST == step_cost(xi@ - 1, yi@, xi@, yi@));
        }
        return Some((p, CARDINAL_COST));
    }
    if let Some(p) = seek_step(map, vis, x, y, 1, 0) {
        proof {
            assert(vis@[cell_index(g@.width, xi@ + 1, yi@)]);
            assert(CARDINAL_COST == step_cost(xi@ + 1, yi@, xi@, yi@));
        }
        return Some((p, CARDINAL_COST));
    }
    if let Some(p) = seek_step(map, vis, x, y, 0, -1) {
        proof {
            assert(vis@[cell_index(g@.width, xi@, yi@ - 1)]);
            assert(CARDINAL_COST == step_cost(xi@, yi@ - 1, xi@, yi@));
        }
        return Some((p, CARDINAL_COST));
    }
    if let Some(p) = seek_step(map, vis, x, y, 0, 1) {
        proof {
            assert(vis@[cell_index(g@.width, xi@, yi@ + 1)]);
            assert(CARDINAL_COST == step_cost(xi@, yi@ + 1, xi@, yi@));
        }
        return Some((p, CARDINAL_COST));
    }
    if let Some(p) = seek_step(map, vis, x, y, -1, -1) {
        proof {
            assert(vis@[cell_index(g@.width, xi@ - 1, yi@ - 1)]);
            assert(DIAGONAL_COST == step_cost(xi@ - 1, yi@ - 1, xi@, yi@));
        }
        return Some((p, DIAGONAL_COST));
    }
    if let Some(p) = seek_step(map, vis, x, y, 1, -1) {
        proof {
            assert(vis@[cell_index(g@.width, xi@ + 1, yi@ - 1)]);
            assert(DIAGONAL_COST == step_cost(xi@ + 1, yi@ - 1, xi@, yi@));
        }
        return Some((p, DIAGONAL_COST));
    }
    if let Some(p) = seek_step(map, vis, x, y, -1, 1) {
        proof {
            assert(vis@[cell_index(g@.width, xi@ - 1, yi@ + 1)]);
            assert(DIAGONAL_COST == step_cost(xi@ - 1, yi@ + 1, xi@, yi@));
        }
        return Some((p, DIAGONAL_COST));
    }
    if let Some(p) = seek_step(map, vis, x, y, 1, 1) {
        proof {
            assert(vis@[cell_index(g@.width, xi@ + 1, yi@ + 1)]);
            assert(DIAGONAL_COST == step_cost(xi@ + 1, yi@ + 1, xi@, yi@));
        }
        return Some((p, DIAGONAL_COST));
    }
    proof {
        if has_visited_neighbour(g@, vis@, xi@, yi@) {
            let (px, py) = choose|px: int, py: int|
                in_bounds(g@.width, g@.height, px, py) && adjacent8(px, py, xi@, yi@)
                    && #[trigger] vis@[cell_index(g@.width, px, py)];
            assert((px - xi@ == -1 || px - xi@ == 0 || px - xi@ == 1) && (py - yi@ == -1 || py
                - yi@ == 0 || py - yi@ == 1));
            assert(false);
        }
    }
    None
}

/// The seeded distance values agree with the visited set: finite exactly
/// on visited cells, zero exactly at the start, each value the cost of a
/// real chain and bounded by one diagonal step per visited cell.
pub open spec fn seeded_ok(
    g: GridV,
    sx: int,
    sy: int,
    vis: Seq<bool>,
    dist: Seq<u64>,
    count: int,
) -> bool {
    &&& dist.len() == vis.len()
    &&& forall|i: int| 0 <= i < dist.len() ==> ((#[trigger] dist[i]) < UNREACHABLE <==> vis[i])
    &&& dist[cell_index(g.width, sx, sy)] == 0
    &&& forall|i: int|
        0 <= i < dist.len() && #[trigger] dist[i] < UNREACHABLE ==> dist[i] <= count * (
        DIAGONAL_COST as int)
    &&& forall|x: int, y: int|
        in_bounds(g.width, g.height, x, y) && #[trigger] dist[cell_index(g.width, x, y)]
            < UNREACHABLE ==> achieves(g, sx, sy, x, y, dist[cell_index(g.width, x, y)] as int)
    &&& forall|x: int, y: int|
        in_bounds(g.width, g.height, x, y) && #[trigger] dist[cell_index(g.width, x, y)] == 0
            ==> x == sx && y == sy
}

/// One flood sweep: marks every unvisited walkable cell that touches a
/// visited cell and seeds its distance through that neighbour. Reports
/// whether anything changed.
fn flood_sweep(
    map: &SanityMap,
    vis: &mut Vec<bool>,
    dist: &mut Vec<u64>,
    count: &mut usize,
    Ghost(sx): Ghost<int>,
    Ghost(sy): Ghost<int>,
) -> (changed: bool)
    requires
        map.wf(),
        in_bounds(map@.width, map@.height, sx, sy),
        old(vis)@.len() == map@.tiles.len(),
        old(vis)@[cell_index(map@.width, sx, sy)],
        visited_sound(map@, sx, sy, old(vis)@),
        *old(count) == count_trues(old(vis)@),
        seeded_ok(map@, sx, sy, old(vis)@, old(dist)@, *old(count) as int),
    ensures
        final(vis)@.len() == map@.tiles.len(),
        final(vis)@[cell_index(map@.width, sx, sy)],
        visited_sound(map@, sx, sy, final(vis)@),
        *final(count) == count_trues(final(vis)@),
        seeded_ok(map@, sx, sy, final(vis)@, final(dist)@, *final(count) as int),
        forall|i: int| 0 <= i < map@.tiles.len() && old(vis)@[i] ==> final(vis)@[i],
        !changed ==> final(vis)@ == old(vis)@ && final(dist)@ == old(dist)@ && visited_closed(
            map@,
            final(vis)@,
        ),
        changed ==> count_trues(final(vis)@) > count_trues(old(vis)@),
{
    let g = Ghost(map@);
    let n = map.tiles.len();
    proof {
        lemma_cell_index_bounds(g@.width, g@.height, sx, sy);
        assert(n <= 0x10000) by (nonlinear_arith)
            requires
                n == g@.width * g@.height && 1 <= g@.width <= 256 && 1 <= g@.height <= 256;
    }
    let mut changed = false;
    let ghost entry = vis@;
    let ghost entry_dist = dist@;
    let mut idx: usize = 0;
    while idx < n
        invariant
            map.wf(),
            in_bounds(g@.width, g@.height, sx, sy),
            0 <= cell_index(g@.width, sx, sy) < n,
            g@ == map@,
            idx <= n,
            n <= 0x10000,
            n == g@.tiles.len(),
            vis@.len() == n,
            vis@[cell_index(g@.width, sx, sy)],
            visited_sound(g@, sx, sy, vis@),
            *count == count_trues(vis@),
            seeded_ok(g@, sx, sy, vis@, dist@, *count as int),
            forall|i: int| 0 <= i < n && entry[i] ==> vis@[i],
            changed ==> count_trues(vis@) > count_trues(entry),
            !changed ==> vis@ == entry && dist@ == entry_dist && (forall|x: int, y: int|
                in_bounds(g@.width, g@.height, x, y) && cell_index(g@.width, x, y) < idx
                    && #[trigger] walkable_at(g@, x, y) && has_visited_neighbour(g@, vis@, x, y)
                    ==> vis@[cell_index(g@.width, x, y)]),
        decreases n - idx,
    {
        let (x, y) = map.index_to_point2d(idx);
        let ghost pre = vis@;
        let ghost pre_dist = dist@;
        let mut found: Option<(usize, u64)> = None;
        if !vis[idx] && map.tiles[idx].walkable {
            found = seek_visited_neighbour(map, vis, x, y);
        }
        if let Some((pidx, c)) = found {
            proof {
                // the seeding neighbour is visited, so its distance is
                // finite, bounded, and the cost of a real chain
                let (px, py) = choose|px: int, py: int|
                    in_bounds(g@.width, g@.height, px, py) && adjacent8(px, py, x as int, y as int)
                        && #[trigger] pre[cell_index(g@.width, px, py)] && pidx == cell_index(
                        g@.width,
                        px,
                        py,
                    ) && c == step_cost(px, py, x as int, y as int);
                lemma_cell_index_bounds(g@.width, g@.height, px, py);
                assert(dist@[pidx as int] < UNREACHABLE);
                assert(dist@[pidx as int] <= (*count as int) * (DIAGONAL_COST as int));
                lemma_count_trues_le_len(pre);
                assert(c == CARDINAL_COST || c == DIAGONAL_COST);
            }
            let nd = dist[pidx] + c;
            proof {
                lemma_count_trues_set_true(vis@, idx as int);
            }
            dist.set(idx, nd);
            vis.set(idx, true);
            changed = true;
            proof {
                lemma_count_trues_le_len(vis@);
                assert(vis@ =~= pre.update(idx as int, true));
                assert(dist@ =~= pre_dist.update(idx as int, nd));
                let (px, py) = choose|px: int, py: int|
                    in_bounds(g@.width, g@.height, px, py) && adjacent8(px, py, x as int, y as int)
                        && #[trigger] pre[cell_index(g@.width, px, py)] && pidx == cell_index(
                        g@.width,
                        px,
                        py,
                    ) && c == step_cost(px, py, x as int, y as int);
                lemma_cell_index_bounds(g@.width, g@.height, px, py);
                // the newly visited cell is reachable: step from the
                // visited neighbour that put it on the frontier
                assert(reachable(g@, sx, sy, px, py));
                lemma_reachable_step(g@, sx, sy, px, py, x as int, y as int);
                assert forall|x2: int, y2: int|
                    in_bounds(g@.width, g@.height, x2, y2) && #[trigger] vis@[cell_index(
                        g@.width,
                        x2,
                        y2,
                    )] implies reachable(g@, sx, sy, x2, y2) by {
                    lemma_cell_index_bounds(g@.width, g@.height, x2, y2);
                    if cell_index(g@.width, x2, y2) == idx as int {
                        lemma_cell_index_injective(g@.width, g@.height, x2, y2, x as int, y as int);
                    } else {
                        assert(pre[cell_index(g@.width, x2, y2)]);
                    }
                }
                assert(count_trues(vis@) > count_trues(entry)) by {
                    assert(count_trues(vis@) == count_trues(pre) + 1);
                    if !(count_trues(pre) >= count_trues(entry)) {
                        assert(false);
                    }
                }
                // the seeded distance bundle survives: the new value is
                // one step dearer than its neighbour's chain
                assert(seeded_ok(g@, sx, sy, vis@, dist@, count_trues(pre) + 1)) by {
                    let cnt1 = count_trues(pre) + 1;
                    assert(dist@[cell_index(g@.width, sx, sy)] == 0) by {
                        if cell_index(g@.width, sx, sy) == idx as int {
                            assert(pre[idx as int]);
                            assert(false);
                        }
                    }
                    assert forall|i: int|
                        0 <= i < dist@.len() implies ((#[trigger] dist@[i]) < UNREACHABLE
                        <==> vis@[i]) by {
                        if i != idx as int {
                            assert(dist@[i] == pre_dist[i] && vis@[i] == pre[i]);
                        }
                    }
                    assert forall|i: int|
                        0 <= i < dist@.len() && #[trigger] dist@[i] < UNREACHABLE
                        implies dist@[i] <= cnt1 * (DIAGONAL_COST as int) by {
                        if i == idx as int {
                            assert(nd <= (count_trues(pre)) * (DIAGONAL_COST as int)
                                + DIAGONAL_COST);
                        } else {
                            assert(pre_dist[i] <= count_trues(pre) * (DIAGONAL_COST as int));
                        }
                    }
                    assert forall|x2: int, y2: int|
                        in_bounds(g@.width, g@.height, x2, y2) && #[trigger] dist@[cell_index(
                            g@.width,
                            x2,
                            y2,
                        )] < UNREACHABLE implies achieves(
                        g@,
                        sx,
                        sy,
                        x2,
                        y2,
                        dist@[cell_index(g@.width, x2, y2)] as int,
                    ) by {
                        lemma_cell_index_bounds(g@.width, g@.height, x2, y2);
                        if cell_index(g@.width, x2, y2) == idx as int {
                            lemma_cell_index_injective(
                                g@.width,
                                g@.height,
                                x2,
                                y2,
                                x as int,
                                y as int,
                            );
                            assert(achieves(g@, sx, sy, px, py, pre_dist[pidx as int] as int));
                            let pd0 = pre_dist[pidx as int] as int;
                            let p0 = choose|p0: Seq<(int, int)>|
                                is_chain(g@, p0, sx, sy, px, py) && chain_cost(p0) == pd0;
                            assert(chain_step(g@, (px, py), (x as int, y as int)));
                            lemma_chain_extend(g@, p0, sx, sy, px, py, x as int, y as int);
                            assert(is_chain(
                                g@,
                                p0.push((x as int, y as int)),
                                sx,
                                sy,
                                x as int,
                                y as int,
                            ) && chain_cost(p0.push((x as int, y as int))) == nd as int);
                        } else {
                            assert(pre_dist[cell_index(g@.width, x2, y2)] < UNREACHABLE);
                            assert(achieves(
                                g@,
                                sx,
                                sy,
                                x2,
                                y2,
                                pre_dist[cell_index(g@.width, x2, y2)] as int,
                            ));
                        }
                    }
                    assert forall|x2: int, y2: int|
                        in_bounds(g@.width, g@.height, x2, y2) && #[trigger] dist@[cell_index(
                            g@.width,
                            x2,
                            y2,
                        )] == 0 implies x2 == sx && y2 == sy by {
                        lemma_cell_index_bounds(g@.width, g@.height, x2, y2);
                        if cell_index(g@.width, x2, y2) == idx as int {
                            assert(nd >= c >= CARDINAL_COST);
                            assert(false);
                        } else {
                            assert(pre_dist[cell_index(g@.width, x2, y2)] == 0);
                        }
                    }
                }
            }
            *count += 1;
        } else {
            proof {
                if !changed {
                    assert forall|x2: int, y2: int|
                        in_bounds(g@.width, g@.height, x2, y2) && cell_index(g@.width, x2, y2)
                            < idx + 1 && #[trigger] walkable_at(g@, x2, y2)
                            && has_visited_neighbour(g@, vis@, x2, y2) implies vis@[cell_index(
                        g@.width,
                        x2,
                        y2,
                    )] by {
                        lemma_cell_index_bounds(g@.width, g@.height, x2, y2);
                        if cell_index(g@.width, x2, y2) == idx as int {
                            lemma_cell_index_injective(
                                g@.width,
                                g@.height,
                                x2,
                                y2,
                                x as int,
                                y as int,
                            );
                            assert(vis@[idx as int] || !g@.tiles[idx as int].walkable
                                || !has_visited_neighbour(g@, vis@, x2, y2));
                        }
                    }
                }
            }
        }
        idx += 1;
    }
    proof {
        if !changed {
            assert forall|px: int, py: int, x: int, y: int|
                in_bounds(g@.width, g@.height, px, py) && #[trigger] vis@[cell_index(
                    g@.width,
                    px,
                    py,
                )] && adjacent8(px, py, x, y) && #[trigger] walkable_at(g@, x, y)
                implies vis@[cell_index(g@.width, x, y)] by {
                lemma_cell_index_bounds(g@.width, g@.height, x, y);
                assert(has_visited_neighbour(g@, vis@, x, y));
            }
        }
    }
    changed
}

/// Floods outward from `(sx, sy)`, returning the visited flags and the
/// seeded per-cell chain costs the flood walked.
fn seed_distances(map: &SanityMap, sx: usize, sy: usize) -> (r: (Vec<bool>, Vec<u64>))
    requires
        map.wf(),
        in_bounds(map@.width, map@.height, sx as int, sy as int),
    ensures
        r.0@.len() == map@.tiles.len(),
        forall|x: int, y: int|
            in_bounds(map@.width, map@.height, x, y) ==> (#[trigger] r.0@[cell_index(
                map@.width,
                x,
                y,
            )] <==> reachable(map@, sx as int, sy as int, x, y)),
        seeded_ok(map@, sx as int, sy as int, r.0@, r.1@, count_trues(r.0@)),
        count_trues(r.0@) <= map@.tiles.len(),
{
    let g = Ghost(map@);
    let n = map.tiles.len();
    let mut vis: Vec<bool> = Vec::new();
    let mut dist: Vec<u64> = Vec::new();
    let mut i: usize = 0;
    while i < n
        invariant
            i <= n,
            vis@.len() == i,
            dist@.len() == i,
            forall|j: int| 0 <= j < i ==> !vis@[j],
            forall|j: int| 0 <= j < i ==> #[trigger] dist@[j] == UNREACHABLE,
        decreases n - i,
    {
        vis.push(false);
        dist.push(UNREACHABLE);
        i += 1;
    }
    proof {
        lemma_count_trues_all_false(vis@);
    }
    let start_idx = map.point2d_to_index(sx, sy);
    proof {
        lemma_count_trues_set_true(vis@, start_idx as int);
    }
    vis.set(start_idx, true);
    dist.set(start_idx, 0);
    let mut count: usize = 1;
    proof {
        lemma_count_trues_le_len(vis@);
    }
    proof {
        assert forall|x2: int, y2: int|
            in_bounds(g@.width, g@.height, x2, y2) && #[trigger] vis@[cell_index(g@.width, x2, y2)]
            implies reachable(g@, sx as int, sy as int, x2, y2) by {
            lemma_cell_index_bounds(g@.width, g@.height, x2, y2);
            lemma_cell_index_injective(g@.width, g@.height, x2, y2, sx as int, sy as int);
            assert(x2 == sx as int && y2 == sy as int);
            lemma_reachable_self(g@, sx as int, sy as int);
        }
        assert(seeded_ok(g@, sx as int, sy as int, vis@, dist@, 1)) by {
            assert forall|x2: int, y2: int|
                in_bounds(g@.width, g@.height, x2, y2) && #[trigger] dist@[cell_index(
                    g@.width,
                    x2,
                    y2,
                )] < UNREACHABLE implies achieves(
                g@,
                sx as int,
                sy as int,
                x2,
                y2,
                dist@[cell_index(g@.width, x2, y2)] as int,
            ) by {
                lemma_cell_index_bounds(g@.width, g@.height, x2, y2);
                lemma_cell_index_injective(g@.width, g@.height, x2, y2, sx as int, sy as int);
                let p: Seq<(int, int)> = seq![(sx as int, sy as int)];
                assert(is_chain(g@, p, sx as int, sy as int, x2, y2) && chain_cost(p) == 0);
            }
            assert forall|x2: int, y2: int|
                in_bounds(g@.width, g@.height, x2, y2) && #[trigger] dist@[cell_index(
                    g@.width,
                    x2,
                    y2,
                )] == 0 implies x2 == sx as int && y2 == sy as int by {
                lemma_cell_index_bounds(g@.width, g@.height, x2, y2);
                lemma_cell_index_injective(g@.width, g@.height, x2, y2, sx as int, sy as int);
            }
        }
    }
    let mut changed = true;
    while changed
        invariant
            map.wf(),
            g@ == map@,
            in_bounds(g@.width, g@.height, sx as int, sy as int),
            0 <= cell_index(g@.width, sx as int, sy as int) < n,
            n == g@.tiles.len(),
            vis@.len() == n,
            vis@[cell_index(g@.width, sx as int, sy as int)],
            visited_sound(g@, sx as int, sy as int, vis@),
            count == count_trues(vis@),
            count_trues(vis@) <= n,
            seeded_ok(g@, sx as int, sy as int, vis@, dist@, count as int),
            !changed ==> visited_closed(g@, vis@),
        decreases n - count_trues(vis@) + (if changed {
            1int
        } else {
            0int
        }),
    {
        changed = flood_sweep(
            map,
            &mut vis,
            &mut dist,
            &mut count,
            Ghost(sx as int),
            Ghost(sy as int),
        );
        proof {
            lemma_count_trues_le_len(vis@);
        }
    }
    proof {
        assert forall|x: int, y: int| in_bounds(g@.width, g@.height, x, y) implies (
        #[trigger] vis@[cell_index(g@.width, x, y)] <==> reachable(g@, sx as int, sy as int, x, y))
            by {
            lemma_cell_index_bounds(g@.width, g@.height, x, y);
            if reachable(g@, sx as int, sy as int, x, y) {
                let p = choose|p: Seq<(int, int)>| is_chain(g@, p, sx as int, sy as int, x, y);
                lemma_closed_covers(g@, sx as int, sy as int, vis@, p, x, y);
            }
        }
    }
    (vis, dist)
}

/// Computes the set of cells reachable from `(sx, sy)`: `true` exactly at
/// the start cell and at every walkable cell joined to it by a chain of
/// 8-connected walkable cells.
pub fn reachable_cells(map: &SanityMap, sx: usize, sy: usize) -> (r: Vec<bool>)
    requires
        map.wf(),
        in_bounds(map@.width, map@.height, sx as int, sy as int),
    ensures
        r@.len() == map@.tiles.len(),
        forall|x: int, y: int|
            in_bounds(map@.width, map@.height, x, y) ==> (#[trigger] r@[cell_index(map@.width, x, y)]
                <==> reachable(map@, sx as int, sy as int, x, y)),
{
    let (vis, _dist) = seed_distances(map, sx, sy);
    vis
}

proof fn lemma_count_trues_all_false(s: Seq<bool>)
    requires
        forall|j: int| 0 <= j < s.len() ==> !s[j],
    ensures
        count_trues(s) == 0,
    decreases s.len(),
{
    if s.len() > 0 {
        lemma_count_trues_all_false(s.drop_last());
    }
}


// ---------------------------------------------------------------------
// Distance field
// ---------------------------------------------------------------------

/// Sentinel distance of a cell no walkable chain reaches.
pub const UNREACHABLE: u64 = u64::MAX;

/// Total cost of a walkable chain: the sum of its step costs.
pub open spec fn chain_cost(p: Seq<(int, int)>) -> int
    decreases p.len(),
{
    if p.len() <= 1 {
        0
    } else {
        chain_cost(p.drop_last()) + step_cost(
            p[p.len() - 2].0,
            p[p.len() - 2].1,
            p.last().0,
            p.last().1,
        )
    }
}

/// Some walkable chain from the start to `(x, y)` costs exactly `d`.
pub open spec fn achieves(g: GridV, sx: int, sy: int, x: int, y: int, d: int) -> bool {
    exists|p: Seq<(int, int)>| is_chain(g, p, sx, sy, x, y) && chain_cost(p) == d
}

/// Extending a chain by one step keeps it a chain and adds the step cost.
proof fn lemma_chain_extend(
    g: GridV,
    p: Seq<(int, int)>,
    sx: int,
    sy: int,
    px: int,
    py: int,
    x: int,
    y: int,
)
    requires
        is_chain(g, p, sx, sy, px, py),
        chain_step(g, (px, py), (x, y)),
    ensures
        is_chain(g, p.push((x, y)), sx, sy, x, y),
        chain_cost(p.push((x, y))) == chain_cost(p) + step_cost(px, py, x, y),
{
    let q = p.push((x, y));
    assert forall|t: int| 0 <= t < q.len() - 1 implies chain_step(g, #[trigger] q[t], q[t + 1]) by {
        if t < p.len() - 1 {
            assert(q[t] == p[t] && q[t + 1] == p[t + 1]);
            assert(chain_step(g, p[t], p[t + 1]));
        } else {
            assert(q[t] == p.last() && q[t + 1] == (x, y));
        }
    }
    assert(q[0] == p[0]);
    assert(is_chain(g, q, sx, sy, x, y));
    assert(q.drop_last() =~= p);
    assert(q[q.len() - 2] == p.last());
}

/// The distance field never rises along an edge of the walkable graph:
/// stepping from a finite cell into a walkable neighbour costs at most
/// one step more.
pub open spec fn df_relaxed(g: GridV, vals: Seq<u64>) -> bool {
    forall|x: int, y: int, tx: int, ty: int|
        in_bounds(g.width, g.height, x, y) && adjacent8(x, y, tx, ty) && #[trigger] walkable_at(
            g,
            tx,
            ty,
        ) && #[trigger] vals[cell_index(g.width, x, y)] < UNREACHABLE ==> vals[cell_index(
            g.width,
            tx,
            ty,
        )] <= vals[cell_index(g.width, x, y)] + step_cost(x, y, tx, ty)
}

/// Invariant bundle of the distance field: the right length, zero exactly
/// at the start, finite exactly on the reachable cells, every finite
/// value bounded by one diagonal step per cell and the exact cost of an
/// actual walkable chain.
pub open spec fn df_inv(g: GridV, sx: int, sy: int, vals: Seq<u64>) -> bool {
    &&& vals.len() == g.width * g.height
    &&& vals[cell_index(g.width, sx, sy)] == 0
    &&& forall|x: int, y: int|
        in_bounds(g.width, g.height, x, y) ==> (#[trigger] vals[cell_index(g.width, x, y)]
            < UNREACHABLE <==> reachable(g, sx, sy, x, y))
    &&& forall|x: int, y: int|
        in_bounds(g.width, g.height, x, y) && #[trigger] vals[cell_index(g.width, x, y)]
            < UNREACHABLE ==> vals[cell_index(g.width, x, y)] <= g.width * g.height * (
        DIAGONAL_COST as int)
    &&& forall|x: int, y: int|
        in_bounds(g.width, g.height, x, y) && #[trigger] vals[cell_index(g.width, x, y)] == 0
            ==> x == sx && y == sy
    &&& forall|x: int, y: int|
        in_bounds(g.width, g.height, x, y) && #[trigger] vals[cell_index(g.width, x, y)]
            < UNREACHABLE ==> achieves(g, sx, sy, x, y, vals[cell_index(g.width, x, y)] as int)
}

/// Everything the distance field promises.
pub open spec fn distance_field_ok(g: GridV, sx: int, sy: int, vals: Seq<u64>) -> bool {
    df_inv(g, sx, sy, vals) && df_relaxed(g, vals)
}

/// Number of entries below the `UNREACHABLE` sentinel.
pub open spec fn count_finite(s: Seq<u64>) -> int
    decreases s.len(),
{
    if s.len() == 0 {
        0
    } else {
        count_finite(s.drop_last()) + if s.last() < UNREACHABLE {
            1int
        } else {
            0int
        }
    }
}

pub proof fn lemma_count_finite_le_len(s: Seq<u64>)
    ensures
        0 <= count_finite(s) <= s.len(),
    decreases s.len(),
{
    if s.len() > 0 {
        lemma_count_finite_le_len(s.drop_last());
    }
}

/// Sum of all values, for the relaxation termination measure.
spec fn sum_vals(s: Seq<u64>) -> int
    decreases s.len(),
{
    if s.len() == 0 {
        0
    } else {
        sum_vals(s.drop_last()) + s.last()
    }
}

proof fn lemma_sum_vals_nonneg(s: Seq<u64>)
    ensures
        sum_vals(s) >= 0,
    decreases s.len(),
{
    if s.len() > 0 {
        lemma_sum_vals_nonneg(s.drop_last());
    }
}

proof fn lemma_sum_vals_update(s: Seq<u64>, i: int, v: u64)
    requires
        0 <= i < s.len(),
    ensures
        sum_vals(s.update(i, v)) == sum_vals(s) - s[i] + v,
    decreases s.len(),
{
    let t = s.update(i, v);
    if i == s.len() - 1 {
        assert(t.drop_last() =~= s.drop_last());
    } else {
        assert(t.drop_last() =~= s.drop_last().update(i, v));
        assert(t.last() == s.last());
        lemma_sum_vals_update(s.drop_last(), i, v);
    }
}

/// All walkable edges leaving `(x, y)` satisfy the relaxation bound.
pub open spec fn relaxed_at(g: GridV, vals: Seq<u64>, x: int, y: int) -> bool {
    forall|tx: int, ty: int|
        adjacent8(x, y, tx, ty) && #[trigger] walkable_at(g, tx, ty) && vals[cell_index(
            g.width,
            x,
            y,
        )] < UNREACHABLE ==> vals[cell_index(g.width, tx, ty)] <= vals[cell_index(g.width, x, y)]
            + step_cost(x, y, tx, ty)
}

/// Tries to improve the neighbour of `(x, y)` one step of `(dx, dy)`
/// away through `(x, y)`.
fn relax_edge(
    map: &SanityMap,
    vals: &mut Vec<u64>,
    x: usize,
    y: usize,
    dx: i32,
    dy: i32,
    cost: u64,
    Ghost(sx): Ghost<int>,
    Ghost(sy): Ghost<int>,
) -> (changed: bool)
    requires
        map.wf(),
        in_bounds(map@.width, map@.height, sx, sy),
        in_bounds(map@.width, map@.height, x as int, y as int),
        -1 <= dx <= 1,
        -1 <= dy <= 1,
        !(dx == 0 && dy == 0),
        cost == step_cost(x as int, y as int, x as int + dx as int, y as int + dy as int),
        df_inv(map@, sx, sy, old(vals)@),
    ensures
        df_inv(map@, sx, sy, final(vals)@),
        final(vals)@.len() == old(vals)@.len(),
        forall|i: int| 0 <= i < old(vals)@.len() ==> final(vals)@[i] <= old(vals)@[i],
        !changed ==> final(vals)@ == old(vals)@ && ((old(vals)@[cell_index(
            map@.width,
            x as int,
            y as int,
        )] < UNREACHABLE && walkable_at(map@, x as int + dx as int, y as int + dy as int))
            ==> old(vals)@[cell_index(map@.width, x as int + dx as int, y as int + dy as int)]
            <= old(vals)@[cell_index(map@.width, x as int, y as int)] + cost),
        changed ==> sum_vals(final(vals)@) < sum_vals(old(vals)@),
{
    let g = Ghost(map@);
    let u_idx = map.point2d_to_index(x, y);
    let du = vals[u_idx];
    if du == UNREACHABLE {
        return false;
    }
    let tx = x as i64 + dx as i64;
    let ty = y as i64 + dy as i64;
    if tx < 0 || ty < 0 || tx >= map.width as i64 || ty >= map.height as i64 {
        return false;
    }
    let t_idx = map.point2d_to_index(tx as usize, ty as usize);
    if !map.tiles[t_idx].walkable {
        return false;
    }
    let ghost txi = x as int + dx as int;
    let ghost tyi = y as int + dy as int;
    proof {
        // the target is a walkable neighbour of a finite (hence
        // reachable) cell, so it is reachable and already finite
        assert(reachable(g@, sx, sy, x as int, y as int));
        lemma_reachable_step(g@, sx, sy, x as int, y as int, txi, tyi);
        assert(vals@[t_idx as int] < UNREACHABLE);
    }
    let dt = vals[t_idx];
    proof {
        assert(du <= g@.width * g@.height * (DIAGONAL_COST as int));
        assert(g@.width * g@.height * (DIAGONAL_COST as int) <= 0x10000 * 141421)
            by (nonlinear_arith)
            requires 1 <= g@.width <= 256 && 1 <= g@.height <= 256;
    }
    let nd = du + cost;
    if nd < dt {
        proof {
            lemma_sum_vals_update(vals@, t_idx as int, nd);
            // the improved value is the cost of a real chain: the chain
            // reaching (x, y) at cost du, extended by this edge
            assert(achieves(g@, sx, sy, x as int, y as int, du as int));
            let p = choose|p: Seq<(int, int)>|
                is_chain(g@, p, sx, sy, x as int, y as int) && chain_cost(p) == du as int;
            lemma_chain_extend(g@, p, sx, sy, x as int, y as int, txi, tyi);
            assert(achieves(g@, sx, sy, txi, tyi, nd as int)) by {
                assert(is_chain(g@, p.push((txi, tyi)), sx, sy, txi, tyi) && chain_cost(
                    p.push((txi, tyi)),
                ) == nd as int);
            }
        }
        let ghost pre = vals@;
        vals.set(t_idx, nd);
        proof {
            let w = g@.width;
            let h = g@.height;
            assert(vals@ =~= pre.update(t_idx as int, nd));
            assert forall|x2: int, y2: int| in_bounds(w, h, x2, y2) implies {
                let v = #[trigger] vals@[cell_index(w, x2, y2)];
                &&& (v < UNREACHABLE <==> reachable(g@, sx, sy, x2, y2))
                &&& (v < UNREACHABLE ==> v <= w * h * (DIAGONAL_COST as int))
                &&& (v == 0 ==> x2 == sx && y2 == sy)
                &&& (v < UNREACHABLE ==> achieves(g@, sx, sy, x2, y2, v as int))
            } by {
                lemma_cell_index_bounds(w, h, x2, y2);
                if cell_index(w, x2, y2) == t_idx as int {
                    lemma_cell_index_injective(w, h, x2, y2, txi, tyi);
                    assert(vals@[cell_index(w, x2, y2)] == nd);
                    assert(nd > 0);
                    assert(pre[t_idx as int] <= w * h * (DIAGONAL_COST as int));
                } else {
                    assert(vals@[cell_index(w, x2, y2)] == pre[cell_index(w, x2, y2)]);
                }
            }
            assert(vals@[cell_index(w, sx, sy)] == pre[cell_index(w, sx, sy)]) by {
                lemma_cell_index_bounds(w, h, sx, sy);
                if cell_index(w, sx, sy) == t_idx as int {
                    lemma_cell_index_injective(w, h, sx, sy, txi, tyi);
                    assert(pre[t_idx as int] == 0);
                    assert(false);
                }
            }
        }
        true
    } else {
        false
    }
}

/// Relaxes all eight edges leaving the cell at `idx`.
fn relax_from(
    map: &SanityMap,
    vals: &mut Vec<u64>,
    idx: usize,
    Ghost(sx): Ghost<int>,
    Ghost(sy): Ghost<int>,
) -> (changed: bool)
    requires
        map.wf(),
        in_bounds(map@.width, map@.height, sx, sy),
        idx < map@.tiles.len(),
        df_inv(map@, sx, sy, old(vals)@),
    ensures
        df_inv(map@, sx, sy, final(vals)@),
        final(vals)@.len() == old(vals)@.len(),
        forall|i: int| 0 <= i < old(vals)@.len() ==> final(vals)@[i] <= old(vals)@[i],
        !changed ==> final(vals)@ == old(vals)@ && relaxed_at(
            map@,
            final(vals)@,
            idx as int % map@.width,
            idx as int / map@.width,
        ),
        changed ==> sum_vals(final(vals)@) < sum_vals(old(vals)@),
{
    let g = Ghost(map@);
    let (x, y) = map.index_to_point2d(idx);
    let mut changed = false;
    let c1 = relax_edge(map, vals, x, y, -1, 0, CARDINAL_COST, Ghost(sx), Ghost(sy));
    changed = changed || c1;
    let c2 = relax_edge(map, vals, x, y, 1, 0, CARDINAL_COST, Ghost(sx), Ghost(sy));
    changed = changed || c2;
    let c3 = relax_edge(map, vals, x, y, 0, -1, CARDINAL_COST, Ghost(sx), Ghost(sy));
    changed = changed || c3;
    let c4 = relax_edge(map, vals, x, y, 0, 1, CARDINAL_COST, Ghost(sx), Ghost(sy));
    changed = changed || c4;
    let c5 = relax_edge(map, vals, x, y, -1, -1, DIAGONAL_COST, Ghost(sx), Ghost(sy));
    changed = changed || c5;
    let c6 = relax_edge(map, vals, x, y, 1, -1, DIAGONAL_COST, Ghost(sx), Ghost(sy));
    changed = changed || c6;
    let c7 = relax_edge(map, vals, x, y, -1, 1, DIAGONAL_COST, Ghost(sx), Ghost(sy));
    changed = changed || c7;
    let c8 = relax_edge(map, vals, x, y, 1, 1, DIAGONAL_COST, Ghost(sx), Ghost(sy));
    changed = changed || c8;
    proof {
        if !changed {
            let xi = x as int;
            let yi = y as int;
            assert forall|tx: int, ty: int|
                adjacent8(xi, yi, tx, ty) && #[trigger] walkable_at(g@, tx, ty) && vals@[cell_index(
                    g@.width,
                    xi,
                    yi,
                )] < UNREACHABLE implies vals@[cell_index(g@.width, tx, ty)] <= vals@[cell_index(
                g@.width,
                xi,
                yi,
            )] + step_cost(xi, yi, tx, ty) by {
                assert((tx - xi == -1 || tx - xi == 0 || tx - xi == 1) && (ty - yi == -1 || ty - yi
                    == 0 || ty - yi == 1));
            }
        }
    }
    changed
}

/// One relaxation sweep over every cell.
fn relax_sweep(
    map: &SanityMap,
    vals: &mut Vec<u64>,
    Ghost(sx): Ghost<int>,
    Ghost(sy): Ghost<int>,
) -> (changed: bool)
    requires
        map.wf(),
        in_bounds(map@.width, map@.height, sx, sy),
        df_inv(map@, sx, sy, old(vals)@),
    ensures
        df_inv(map@, sx, sy, final(vals)@),
        final(vals)@.len() == old(vals)@.len(),
        !changed ==> final(vals)@ == old(vals)@ && df_relaxed(map@, final(vals)@),
        changed ==> sum_vals(final(vals)@) < sum_vals(old(vals)@),
{
    let g = Ghost(map@);
    let n = map.tiles.len();
    let mut changed = false;
    let ghost entry = vals@;
    let mut idx: usize = 0;
    while idx < n
        invariant
            map.wf(),
            g@ == map@,
            in_bounds(g@.width, g@.height, sx, sy),
            idx <= n,
            n == g@.tiles.len(),
            df_inv(g@, sx, sy, vals@),
            vals@.len() == entry.len(),
            changed ==> sum_vals(vals@) < sum_vals(entry),
            !changed ==> vals@ == entry && (forall|x: int, y: int|
                in_bounds(g@.width, g@.height, x, y) && cell_index(g@.width, x, y) < idx
                    ==> relaxed_at(g@, vals@, x, y)),
        decreases n - idx,
    {
        let ghost pre = vals@;
        let c = relax_from(map, vals, idx, Ghost(sx), Ghost(sy));
        proof {
            if changed || c {
                if c {
                    assert(sum_vals(vals@) < sum_vals(pre));
                } else {
                    assert(vals@ == pre);
                }
            }
        }
        changed = changed || c;
        proof {
            if !changed {
                assert(vals@ == pre && pre == entry);
                assert forall|x2: int, y2: int|
                    in_bounds(g@.width, g@.height, x2, y2) && cell_index(g@.width, x2, y2) < idx
                        + 1 implies relaxed_at(g@, vals@, x2, y2) by {
                    lemma_cell_index_bounds(g@.width, g@.height, x2, y2);
                    if cell_index(g@.width, x2, y2) == idx as int {
                        let w = g@.width;
                        let h = g@.height;
                        let ii = idx as int;
                        assert(0 <= ii % w < w && 0 <= ii / w < h && (ii / w) * w + ii % w
                            == ii) by (nonlinear_arith)
                            requires w >= 1 && h >= 1 && 0 <= ii && ii < w * h;
                        lemma_cell_index_injective(
                            g@.width,
                            g@.height,
                            x2,
                            y2,
                            idx as int % g@.width,
                            idx as int / g@.width,
                        );
                        assert(relaxed_at(g@, vals@, idx as int % g@.width, idx as int / g@.width));
                    }
                }
            }
        }
        idx += 1;
    }
    proof {
        if !changed {
            assert forall|x: int, y: int, tx: int, ty: int|
                in_bounds(g@.width, g@.height, x, y) && adjacent8(x, y, tx, ty)
                    && #[trigger] walkable_at(g@, tx, ty) && #[trigger] vals@[cell_index(
                    g@.width,
                    x,
                    y,
                )] < UNREACHABLE implies vals@[cell_index(g@.width, tx, ty)] <= vals@[cell_index(
                g@.width,
                x,
                y,
            )] + step_cost(x, y, tx, ty) by {
                lemma_cell_index_bounds(g@.width, g@.height, x, y);
                assert(relaxed_at(g@, vals@, x, y));
            }
        }
    }
    changed
}

/// Dense per-cell shortest-path distances from a source cell, in fixed
/// point; `UNREACHABLE` marks cells no walkable chain reaches.
pub struct DistanceField {
    pub width: usize,
    pub height: usize,
    pub values: Vec<u64>,
}

impl DistanceField {
    /// Computes the distance field of `map` from `(sx, sy)`: finite
    /// exactly on the reachable cells, zero exactly at the start,
    /// relaxed along every walkable edge, and each finite value the
    /// exact cost of an actual walkable chain. Together with
    /// `lemma_distance_le_chain_cost` this pins every finite value to
    /// the exact shortest-chain cost.
    pub fn new(map: &SanityMap, sx: usize, sy: usize) -> (r: DistanceField)
        requires
            map.wf(),
            in_bounds(map@.width, map@.height, sx as int, sy as int),
        ensures
            r.width == map@.width,
            r.height == map@.height,
            distance_field_ok(map@, sx as int, sy as int, r.values@),
    {
        let g = Ghost(map@);
        // seed every reachable cell with the cost of the chain the
        // flood walked; relaxation below only ever improves on that
        let (vis, seeded) = seed_distances(map, sx, sy);
        let mut vals = seeded;
        proof {
            let w = g@.width;
            let h = g@.height;
            let sxi = sx as int;
            let syi = sy as int;
            let cnt = count_trues(vis@);
            assert forall|x2: int, y2: int| in_bounds(w, h, x2, y2) implies {
                let v = #[trigger] vals@[cell_index(w, x2, y2)];
                &&& (v < UNREACHABLE <==> reachable(g@, sxi, syi, x2, y2))
                &&& (v < UNREACHABLE ==> v <= w * h * (DIAGONAL_COST as int))
                &&& (v == 0 ==> x2 == sxi && y2 == syi)
                &&& (v < UNREACHABLE ==> achieves(g@, sxi, syi, x2, y2, v as int))
            } by {
                lemma_cell_index_bounds(w, h, x2, y2);
                let j = cell_index(w, x2, y2);
                if vals@[j] < UNREACHABLE {
                    assert(vals@[j] <= cnt * (DIAGONAL_COST as int));
                    assert(cnt * (DIAGONAL_COST as int) <= w * h * (DIAGONAL_COST as int))
                        by (nonlinear_arith)
                        requires 0 <= cnt <= w * h && DIAGONAL_COST > 0;
                }
            }
            assert(df_inv(g@, sxi, syi, vals@));
        }
        let mut changed = true;
        while changed
            invariant
                map.wf(),
                g@ == map@,
                in_bounds(g@.width, g@.height, sx as int, sy as int),
                df_inv(g@, sx as int, sy as int, vals@),
                !changed ==> df_relaxed(g@, vals@),
            decreases sum_vals(vals@) + (if changed {
                1int
            } else {
                0int
            }),
        {
            changed = relax_sweep(map, &mut vals, Ghost(sx as int), Ghost(sy as int));
            proof {
                lemma_sum_vals_nonneg(vals@);
            }
        }
        proof {
            lemma_sum_vals_nonneg(vals@);
        }
        DistanceField { width: map.width, height: map.height, values: vals }
    }

    /// The stored distance of a cell.
    pub fn get(&self, idx: usize) -> (r: u64)
        requires
            idx < self.values@.len(),
        ensures
            r == self.values@[idx as int],
    {
        self.values[idx]
    }

    /// Number of cells with a finite distance.
    pub fn reachable_count(&self) -> (r: usize)
        ensures
            r == count_finite(self.values@),
    {
        let mut count: usize = 0;
        let mut i: usize = 0;
        proof {
            assert(self.values@.subrange(0, 0) =~= Seq::<u64>::empty());
        }
        while i < self.values.len()
            invariant
                i <= self.values@.len(),
                count == count_finite(self.values@.subrange(0, i as int)),
                count <= i,
            decreases self.values@.len() - i,
        {
            proof {
                let next = self.values@.subrange(0, i as int + 1);
                assert(next.drop_last() =~= self.values@.subrange(0, i as int));
                assert(next.last() == self.values@[i as int]);
            }
            if self.values[i] < UNREACHABLE {
                count += 1;
            }
            i += 1;
        }
        proof {
            assert(self.values@.subrange(0, self.values@.len() as int) =~= self.values@);
        }
        count
    }
}

/// Every in-bounds cell is walkable.
pub open spec fn all_walkable(g: GridV) -> bool {
    forall|x: int, y: int| in_bounds(g.width, g.height, x, y) ==> #[trigger] walkable_at(g, x, y)
}

/// In a fully walkable grid every in-bounds cell is reachable from any
/// in-bounds start: walk one step at a time towards the target.
pub proof fn lemma_full_grid_reachable(g: GridV, sx: int, sy: int, x: int, y: int)
    requires
        grid_wf(g),
        all_walkable(g),
        in_bounds(g.width, g.height, sx, sy),
        in_bounds(g.width, g.height, x, y),
    ensures
        reachable(g, sx, sy, x, y),
    decreases (if x >= sx {
        x - sx
    } else {
        sx - x
    }) + (if y >= sy {
        y - sy
    } else {
        sy - y
    }),
{
    if x == sx && y == sy {
        lemma_reachable_self(g, sx, sy);
    } else {
        let px = if x > sx {
            x - 1
        } else if x < sx {
            x + 1
        } else {
            x
        };
        let py = if y > sy {
            y - 1
        } else if y < sy {
            y + 1
        } else {
            y
        };
        lemma_full_grid_reachable(g, sx, sy, px, py);
        lemma_reachable_step(g, sx, sy, px, py, x, y);
    }
}

/// A field whose every entry is finite counts all of them.
pub proof fn lemma_count_finite_full(s: Seq<u64>)
    requires
        forall|j: int| 0 <= j < s.len() ==> #[trigger] s[j] < UNREACHABLE,
    ensures
        count_finite(s) == s.len(),
    decreases s.len(),
{
    if s.len() > 0 {
        lemma_count_finite_full(s.drop_last());
    }
}

/// The two distance laws combined: every finite field value is the cost
/// of some walkable chain from the start and is at most the cost of
/// every such chain, i.e. it is the exact shortest-chain cost.
pub proof fn lemma_distance_minimal(g: GridV, sx: int, sy: int, vals: Seq<u64>, x: int, y: int)
    requires
        grid_wf(g),
        in_bounds(g.width, g.height, sx, sy),
        distance_field_ok(g, sx, sy, vals),
        in_bounds(g.width, g.height, x, y),
        vals[cell_index(g.width, x, y)] < UNREACHABLE,
    ensures
        achieves(g, sx, sy, x, y, vals[cell_index(g.width, x, y)] as int),
        forall|p: Seq<(int, int)>|
            is_chain(g, p, sx, sy, x, y) ==> vals[cell_index(g.width, x, y)] <= #[trigger] chain_cost(
                p,
            ),
{
    lemma_cell_index_bounds(g.width, g.height, x, y);
    assert forall|p: Seq<(int, int)>| is_chain(g, p, sx, sy, x, y) implies vals[cell_index(
        g.width,
        x,
        y,
    )] <= #[trigger] chain_cost(p) by {
        lemma_distance_le_chain_cost(g, sx, sy, vals, p, x, y);
    }
}

/// Minimality law of the distance field: a relaxed field with zero at the
/// start lies at or below the cost of every walkable chain, so a finite
/// value (which `df_inv` shows is the cost of some chain) is exactly the
/// least chain cost.
#[verifier::rlimit(100)]
#[verifier::spinoff_prover]
pub proof fn lemma_distance_le_chain_cost(
    g: GridV,
    sx: int,
    sy: int,
    vals: Seq<u64>,
    p: Seq<(int, int)>,
    x: int,
    y: int,
)
    requires
        grid_wf(g),
        in_bounds(g.width, g.height, sx, sy),
        distance_field_ok(g, sx, sy, vals),
        is_chain(g, p, sx, sy, x, y),
        in_bounds(g.width, g.height, x, y),
    ensures
        vals[cell_index(g.width, x, y)] <= chain_cost(p),
    decreases p.len(),
{
    lemma_cell_index_bounds(g.width, g.height, x, y);
    if p.len() == 1 {
        assert(x == sx && y == sy);
    } else {
        let q = p.drop_last();
        let (px, py) = p[p.len() - 2];
        assert(chain_step(g, p[p.len() - 2], p[p.len() - 1]));
        assert forall|t: int| 0 <= t < q.len() - 1 implies chain_step(g, #[trigger] q[t], q[t + 1]) by {
            assert(q[t] == p[t] && q[t + 1] == p[t + 1]);
            assert(chain_step(g, p[t], p[t + 1]));
        }
        assert(q.last() == (px, py));
        assert(is_chain(g, q, sx, sy, px, py));
        lemma_distance_le_chain_cost(g, sx, sy, vals, q, px, py);
        lemma_cell_index_bounds(g.width, g.height, px, py);
        // the predecessor is reachable via q, hence finite, and the
        // relaxation property bounds this cell through the last edge
        assert(reachable(g, sx, sy, px, py)) by {
            assert(is_chain(g, q, sx, sy, px, py));
        }
        assert(vals[cell_index(g.width, px, py)] < UNREACHABLE);
        assert(vals[cell_index(g.width, x, y)] <= vals[cell_index(g.width, px, py)] + step_cost(
            px,
            py,
            x,
            y,
        ));
        assert(chain_cost(p) == chain_cost(q) + step_cost(px, py, x, y));
    }
}

} // verus!
