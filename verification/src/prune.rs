//! The connectivity pruner: after a solve, walkable cells that no chain
//! from the start cell reaches are blanked out (sprite set to the void
//! tile, walkable cleared), so the playable area is one connected region.

use crate::field::{
    chain_step, distance_field_ok, is_chain, reachable, reachable_cells, DistanceField,
    UNREACHABLE,
};
use crate::geom::{cell_index, in_bounds, lemma_cell_index_bounds};
use crate::map::{grid_wf, walkable_at, GridV, SanityMap};
use crate::tile::{Candidates, RoomTile, TileV};
use vstd::prelude::*;

verus! {

/// The tile left at index `i` after pruning: blanked out when it was
/// walkable but unreachable from the start, untouched otherwise.
pub open spec fn pruned_tile(g: GridV, sx: int, sy: int, null_id: usize, i: int) -> TileV {
    let t = g.tiles[i];
    if t.walkable && !reachable(g, sx, sy, i % g.width, i / g.width) {
        TileV {
            sprite: Some(null_id),
            walkable: false,
            visible: t.visible,
            visited: t.visited,
            candidates: t.candidates,
        }
    } else {
        t
    }
}

/// The whole grid after one pruning pass.
pub open spec fn pruned_grid(g: GridV, sx: int, sy: int, null_id: usize) -> GridV {
    GridV {
        width: g.width,
        height: g.height,
        tiles: Seq::new(g.tiles.len(), |i: int| pruned_tile(g, sx, sy, null_id, i)),
    }
}

/// A chain of the unpruned grid survives pruning: every cell it walks
/// through is itself reachable, so none of them is blanked out.
proof fn lemma_chain_survives_prune(
    g: GridV,
    sx: int,
    sy: int,
    null_id: usize,
    p: Seq<(int, int)>,
    x: int,
    y: int,
)
    requires
        grid_wf(g),
        is_chain(g, p, sx, sy, x, y),
    ensures
        is_chain(pruned_grid(g, sx, sy, null_id), p, sx, sy, x, y),
{
    let pg = pruned_grid(g, sx, sy, null_id);
    assert forall|t: int| 0 <= t < p.len() - 1 implies chain_step(pg, #[trigger] p[t], p[t + 1]) by {
        assert(chain_step(g, p[t], p[t + 1]));
        let (tx, ty) = p[t + 1];
        lemma_cell_index_bounds(g.width, g.height, tx, ty);
        // the prefix of the chain up to t+1 shows p[t+1] is reachable
        let q = p.subrange(0, t + 2);
        assert forall|u: int| 0 <= u < q.len() - 1 implies chain_step(g, #[trigger] q[u], q[u + 1]) by {
            assert(q[u] == p[u] && q[u + 1] == p[u + 1]);
            assert(chain_step(g, p[u], p[u + 1]));
        }
        assert(q[0] == p[0] && q.last() == p[t + 1]);
        assert(is_chain(g, q, sx, sy, tx, ty));
        assert(reachable(g, sx, sy, tx, ty));
        let i = cell_index(g.width, tx, ty);
        assert(i % g.width == tx && i / g.width == ty) by (nonlinear_arith)
            requires g.width >= 1 && 0 <= tx < g.width && 0 <= ty && i == ty * g.width + tx;
        assert(pg.tiles[i] == g.tiles[i]);
        assert(walkable_at(pg, tx, ty));
    }
    assert(is_chain(pg, p, sx, sy, x, y));
}

/// Connectivity law: after pruning, every walkable cell of the pruned
/// grid is reachable from the start within the pruned grid itself.
pub proof fn lemma_pruned_connectivity(g: GridV, sx: int, sy: int, null_id: usize, x: int, y: int)
    requires
        grid_wf(g),
        walkable_at(pruned_grid(g, sx, sy, null_id), x, y),
    ensures
        reachable(pruned_grid(g, sx, sy, null_id), sx, sy, x, y),
{
    let pg = pruned_grid(g, sx, sy, null_id);
    let i = cell_index(g.width, x, y);
    lemma_cell_index_bounds(g.width, g.height, x, y);
    assert(i % g.width == x && i / g.width == y) by (nonlinear_arith)
        requires g.width >= 1 && 0 <= x < g.width && 0 <= y && i == y * g.width + x;
    // a cell still walkable after pruning was reachable before it
    assert(g.tiles[i].walkable && reachable(g, sx, sy, x, y));
    let p = choose|p: Seq<(int, int)>| is_chain(g, p, sx, sy, x, y);
    lemma_chain_survives_prune(g, sx, sy, null_id, p, x, y);
}

/// Idempotence law: pruning an already-pruned grid changes nothing.
pub proof fn lemma_prune_idempotent(g: GridV, sx: int, sy: int, null_id: usize)
    requires
        grid_wf(g),
    ensures
        pruned_grid(pruned_grid(g, sx, sy, null_id), sx, sy, null_id) == pruned_grid(
            g,
            sx,
            sy,
            null_id,
        ),
{
    let p1 = pruned_grid(g, sx, sy, null_id);
    let p2 = pruned_grid(p1, sx, sy, null_id);
    assert(grid_wf(p1));
    assert forall|i: int| 0 <= i < p1.tiles.len() implies p2.tiles[i] == p1.tiles[i] by {
        if p1.tiles[i].walkable {
            let x = i % g.width;
            let y = i / g.width;
            assert(0 <= x < g.width && 0 <= y < g.height && y * g.width + x == i) by (nonlinear_arith)
                requires g.width >= 1 && g.height >= 1 && 0 <= i && i < g.width * g.height && x == i
                    % g.width && y == i / g.width;
            assert(cell_index(g.width, x, y) == i);
            assert(walkable_at(p1, x, y));
            lemma_pruned_connectivity(g, sx, sy, null_id, x, y);
            assert(reachable(p1, sx, sy, x, y));
        }
    }
    assert(p2.tiles =~= p1.tiles);
    assert(p2 =~= p1);
}

fn copy_ids(v: &Vec<usize>) -> (r: Vec<usize>)
    ensures
        r@ == v@,
{
    let mut r: Vec<usize> = Vec::new();
    let mut k: usize = 0;
    while k < v.len()
        invariant
            k <= v.len(),
            r@ == v@.subrange(0, k as int),
        decreases v.len() - k,
    {
        r.push(v[k]);
        proof {
            assert(r@ =~= v@.subrange(0, k as int + 1));
        }
        k += 1;
    }
    proof {
        assert(v@.subrange(0, v@.len() as int) =~= v@);
    }
    r
}

fn copy_candidates(c: &Candidates) -> (r: Candidates)
    ensures
        r@ == c@,
{
    Candidates { n: copy_ids(&c.n), e: copy_ids(&c.e), s: copy_ids(&c.s), w: copy_ids(&c.w) }
}

/// Removes every walkable cell unreachable from `(sx, sy)`, writing the
/// void tile over it, and returns the distance field of the pruned grid
/// as a reusable by-product.
pub fn prune(map: &mut SanityMap, sx: usize, sy: usize, null_id: usize) -> (df: DistanceField)
    requires
        old(map).wf(),
        in_bounds(old(map)@.width, old(map)@.height, sx as int, sy as int),
    ensures
        final(map)@ == pruned_grid(old(map)@, sx as int, sy as int, null_id),
        final(map).wf(),
        df.width == final(map)@.width,
        df.height == final(map)@.height,
        distance_field_ok(final(map)@, sx as int, sy as int, df.values@),
        // connectivity: every cell still walkable has a finite distance
        forall|x: int, y: int|
            walkable_at(final(map)@, x, y) ==> #[trigger] df.values@[cell_index(
                final(map)@.width,
                x,
                y,
            )] < UNREACHABLE,
{
    let g0 = Ghost(map@);
    let vis = reachable_cells(map, sx, sy);
    let n = map.tiles.len();
    let mut i: usize = 0;
    while i < n
        invariant
            grid_wf(g0@),
            in_bounds(g0@.width, g0@.height, sx as int, sy as int),
            n == g0@.tiles.len(),
            i <= n,
            map.width == g0@.width,
            map.height == g0@.height,
            map@.tiles.len() == n,
            vis@.len() == n,
            forall|x: int, y: int|
                in_bounds(g0@.width, g0@.height, x, y) ==> (#[trigger] vis@[cell_index(
                    g0@.width,
                    x,
                    y,
                )] <==> reachable(g0@, sx as int, sy as int, x, y)),
            forall|j: int| 0 <= j < i ==> #[trigger] map@.tiles[j] == pruned_tile(
                g0@,
                sx as int,
                sy as int,
                null_id,
                j,
            ),
            forall|j: int| i <= j < n ==> #[trigger] map@.tiles[j] == g0@.tiles[j],
        decreases n - i,
    {
        let ghost xi = i as int % g0@.width;
        let ghost yi = i as int / g0@.width;
        proof {
            let w = g0@.width;
            let h = g0@.height;
            let ii = i as int;
            assert(0 <= ii % w < w && 0 <= ii / w < h && (ii / w) * w + ii % w
                == ii) by (nonlinear_arith)
                requires w >= 1 && h >= 1 && 0 <= ii && ii < w * h;
            assert(cell_index(w, xi, yi) == ii);
        }
        if map.tiles[i].walkable && !vis[i] {
            let ghost pre = map@.tiles;
            proof {
                assert(map@.tiles[i as int] == g0@.tiles[i as int]);
                assert(g0@.tiles[i as int].walkable);
                assert(!vis@[cell_index(g0@.width, xi, yi)]);
                assert(!reachable(g0@, sx as int, sy as int, xi, yi));
            }
            let cand = copy_candidates(&map.tiles[i].candidates);
            let t = RoomTile {
                sprite: Some(null_id),
                walkable: false,
                visible: map.tiles[i].visible,
                visited: map.tiles[i].visited,
                candidates: cand,
            };
            proof {
                assert(t@ == pruned_tile(g0@, sx as int, sy as int, null_id, i as int));
            }
            map.tiles.set(i, t);
            proof {
                assert(map@.tiles =~= pre.update(
                    i as int,
                    pruned_tile(g0@, sx as int, sy as int, null_id, i as int),
                ));
            }
        } else {
            proof {
                assert(map@.tiles[i as int] == g0@.tiles[i as int]);
                assert(map@.tiles[i as int] == pruned_tile(
                    g0@,
                    sx as int,
                    sy as int,
                    null_id,
                    i as int,
                ));
            }
        }
        i += 1;
    }
    proof {
        assert(map@.tiles =~= pruned_grid(g0@, sx as int, sy as int, null_id).tiles);
        assert(map@ =~= pruned_grid(g0@, sx as int, sy as int, null_id));
    }
    let df = DistanceField::new(map, sx, sy);
    proof {
        assert forall|x: int, y: int| walkable_at(map@, x, y) implies #[trigger] df.values@[cell_index(
            map@.width,
            x,
            y,
        )] < UNREACHABLE by {
            lemma_pruned_connectivity(g0@, sx as int, sy as int, null_id, x, y);
            lemma_cell_index_bounds(map@.width, map@.height, x, y);
        }
    }
    df
}

} // verus!
