//! The map generation pipeline: compile the rule table, solve with the
//! boundary forbidder under a bounded retry budget, resolve tiles, prune
//! unreachable pockets, and hand back the grid with its distance field.

use crate::field::{
    all_walkable, count_finite, distance_field_ok, lemma_count_finite_full,
    lemma_count_finite_le_len, lemma_full_grid_reachable, DistanceField, UNREACHABLE,
};
use crate::geom::{cell_index, in_bounds, MAX_DIM};
use crate::map::{walkable_at, GridV, SanityMap};
use crate::pattern::{
    base_east, base_north, base_south, base_west, describes, final_east, final_north, final_south,
    final_west, gen_patterns, has_base_east, has_base_north, has_base_south, has_base_west,
    isolated, synth_horizontal, synth_vertical, PatternDescription,
};
use crate::prune::{prune, pruned_grid};
use crate::rules::{walkable_id, Pairs};
use crate::tile::{Candidates, CandidatesV, FloorTile, RoomTile, TileV, FLOOR_SPRITE};
use crate::wave::{allows, sole_pattern, solve_once, solved_ok, ForbidCorner, MAX_PATTERNS};
use vstd::prelude::*;

verus! {

/// Failures of the generation pipeline.
#[derive(Clone, Copy, Debug, PartialEq, Eq, Structural)]
pub enum GenError {
    /// Every attempt ended in a contradiction, an unwalkable start cell
    /// or insufficient reachable coverage.
    SolveExhausted { attempts: u32 },
}

/// A generated level: the resolved and pruned wall grid, the fresh floor
/// backdrop, the distance field from the start cell, the number of cells
/// that field can reach, and how many attempts the generation took.
pub struct GenOutput {
    pub walls: SanityMap,
    pub floor: Vec<FloorTile>,
    pub distances: DistanceField,
    pub reachable_cells: usize,
    pub attempts: u32,
}

/// The tile a freshly solved cell resolves to: the chosen pattern id as
/// its sprite, walkable exactly when the rule table says so.
pub open spec fn raw_tile(pairs: Pairs, a: Seq<u32>, i: int) -> TileV {
    TileV {
        sprite: Some(a[i] as usize),
        walkable: walkable_id(pairs, a[i] as usize),
        visible: false,
        visited: false,
        candidates: CandidatesV {
            n: Seq::empty(),
            e: Seq::empty(),
            s: Seq::empty(),
            w: Seq::empty(),
        },
    }
}

/// The grid a solved assignment resolves to, before pruning.
pub open spec fn raw_grid(pairs: Pairs, w: int, h: int, a: Seq<u32>) -> GridV {
    GridV { width: w, height: h, tiles: Seq::new((w * h) as nat, |i: int| raw_tile(pairs, a, i)) }
}

/// A one-tile rule table always compiles to a self-adjacent pattern:
/// with a single tile id, any vertical pair is `(0, 0)` and populates
/// both vertical sides at once (likewise horizontally), so each axis is
/// either explicit self-adjacency, synthesized self-adjacency, or the
/// isolated default.
proof fn lemma_single_tile_sole(pairs: Pairs, ps: Seq<PatternDescription>)
    requires
        ps.len() == 1,
        describes(pairs, 1, 0, ps[0]),
    ensures
        sole_pattern(ps),
{
    let bn = has_base_north(pairs, 1, 0);
    let bs = has_base_south(pairs, 1, 0);
    let bw = has_base_west(pairs, 1, 0);
    let be = has_base_east(pairs, 1, 0);
    assert(bn <==> bs) by {
        if bn {
            let a = choose|a: usize| base_north(pairs, 1, 0, a);
            assert(a == 0);
            assert(base_south(pairs, 1, 0, 0));
        }
        if bs {
            let b = choose|b: usize| base_south(pairs, 1, 0, b);
            assert(b == 0);
            assert(base_north(pairs, 1, 0, 0));
        }
    }
    assert(bw <==> be) by {
        if bw {
            let a = choose|a: usize| base_west(pairs, 1, 0, a);
            assert(a == 0);
            assert(base_east(pairs, 1, 0, 0));
        }
        if be {
            let b = choose|b: usize| base_east(pairs, 1, 0, b);
            assert(b == 0);
            assert(base_west(pairs, 1, 0, 0));
        }
    }
    assert(final_north(pairs, 1, 0, 0)) by {
        if !synth_vertical(pairs, 1, 0) && !isolated(pairs, 1, 0) {
            if !bn {
                assert(bw || be);
                assert(synth_vertical(pairs, 1, 0));
            }
            let a = choose|a: usize| base_north(pairs, 1, 0, a);
            assert(a == 0);
        }
    }
    assert(final_south(pairs, 1, 0, 0)) by {
        if !synth_vertical(pairs, 1, 0) && !isolated(pairs, 1, 0) {
            if !bs {
                assert(synth_vertical(pairs, 1, 0));
            }
            let b = choose|b: usize| base_south(pairs, 1, 0, b);
            assert(b == 0);
        }
    }
    assert(final_west(pairs, 1, 0, 0)) by {
        if !synth_horizontal(pairs, 1, 0) && !isolated(pairs, 1, 0) {
            if !bw {
                assert(bn || bs);
                assert(synth_horizontal(pairs, 1, 0));
            }
            let a = choose|a: usize| base_west(pairs, 1, 0, a);
            assert(a == 0);
        }
    }
    assert(final_east(pairs, 1, 0, 0)) by {
        if !synth_horizontal(pairs, 1, 0) && !isolated(pairs, 1, 0) {
            if !be {
                assert(synth_horizontal(pairs, 1, 0));
            }
            let b = choose|b: usize| base_east(pairs, 1, 0, b);
            assert(b == 0);
        }
    }
    assert((0u32 as usize) == 0);
    assert(allows(ps[0], 0, 0u32) && allows(ps[0], 1, 0u32) && allows(ps[0], 2, 0u32) && allows(
        ps[0],
        3,
        0u32,
    )) by {
        assert(ps[0].north@.contains(0u32));
        assert(ps[0].south@.contains(0u32));
        assert(ps[0].west@.contains(0u32));
        assert(ps[0].east@.contains(0u32));
    }
}

/// Generates a level: compiles the rule table into patterns, solves the
/// wave with the border ring pinned to `border_pattern` and the start
/// cell to `floor_pattern`, resolves tiles, prunes cells unreachable
/// from the start, and retries (up to `max_attempts` in total) whenever
/// a solve contradicts, the start cell ends up unwalkable, or fewer than
/// `min_fill_permille` thousandths of the cells are reachable.
#[verifier::rlimit(100)]
pub fn gen_map(
    pairs: &Pairs,
    max_tiles: usize,
    width: usize,
    height: usize,
    sx: usize,
    sy: usize,
    border_pattern: u32,
    floor_pattern: u32,
    max_attempts: u32,
    min_fill_permille: u32,
) -> (r: Result<GenOutput, GenError>)
    requires
        1 <= max_tiles <= MAX_PATTERNS,
        1 <= width <= MAX_DIM,
        1 <= height <= MAX_DIM,
        sx < width,
        sy < height,
        (border_pattern as int) < max_tiles,
        (floor_pattern as int) < max_tiles,
        pairs.null < max_tiles,
        max_attempts >= 1,
        min_fill_permille <= 1000,
    ensures
        r matches Err(e) ==> e == (GenError::SolveExhausted { attempts: max_attempts }),
        // a single walkable self-adjacent tile always generates: no
        // random draw can fail it
        (max_tiles == 1 && walkable_id(*pairs, 0)) ==> r is Ok,
        r matches Ok(out) ==> ({
            &&& out.walls.wf()
            &&& out.walls@.width == width && out.walls@.height == height
            &&& 1 <= out.attempts <= max_attempts
            // the grid is exactly a solved assignment, resolved to tiles
            // and pruned
            &&& exists|ps: Seq<PatternDescription>, a: Seq<u32>|
                {
                    &&& ps.len() == max_tiles
                    &&& forall|i: int|
                        0 <= i < max_tiles ==> describes(*pairs, max_tiles, (i as usize), #[trigger] ps[i])
                    &&& solved_ok(
                        ps,
                        ForbidCorner {
                            width,
                            height,
                            start_x: sx,
                            start_y: sy,
                            border_pattern,
                            floor_pattern,
                        },
                        a,
                    )
                    &&& out.walls@ == pruned_grid(
                        raw_grid(*pairs, width as int, height as int, a),
                        sx as int,
                        sy as int,
                        pairs.null,
                    )
                }
            // border invariant: the solver pins the whole ring to the
            // border pattern; the guard matters only because a walkable
            // border tile cut off from the start would be pruned to the
            // void sprite afterwards
            &&& !walkable_id(*pairs, border_pattern as usize) ==> forall|x: int, y: int|
                in_bounds(width as int, height as int, x, y) && crate::wave::on_border(
                    width as int,
                    height as int,
                    x,
                    y,
                ) ==> out.walls@.tiles[#[trigger] cell_index(width as int, x, y)].sprite == Some(
                    border_pattern as usize,
                )
            // the start cell survived pruning walkable
            &&& out.walls@.tiles[cell_index(width as int, sx as int, sy as int)].walkable
            // completeness: every cell resolved to a sprite id below
            // `max_tiles`, whether chosen by the solve or written by the
            // pruner from the (in-range) void tile
            &&& forall|i: int|
                0 <= i < out.walls@.tiles.len() ==> ((#[trigger] out.walls@.tiles[i]).sprite
                    matches Some(id) && (id as int) < max_tiles)
            // the distance field belongs to the pruned grid, and every
            // walkable cell is reachable on it
            &&& distance_field_ok(out.walls@, sx as int, sy as int, out.distances.values@)
            &&& forall|x: int, y: int|
                walkable_at(out.walls@, x, y) ==> #[trigger] out.distances.values@[cell_index(
                    width as int,
                    x,
                    y,
                )] < UNREACHABLE
            // reachable coverage meets the requested share of the grid
            &&& out.reachable_cells == count_finite(out.distances.values@)
            &&& out.reachable_cells * 1000 >= min_fill_permille * width * height
            &&& out.floor@.len() == width * height
            &&& forall|i: int|
                0 <= i < out.floor@.len() ==> (#[trigger] out.floor@[i]).sprite == Some(FLOOR_SPRITE)
                    && !out.floor@[i].visible && !out.floor@[i].visited
        }),
{
    let patterns = gen_patterns(pairs, max_tiles);
    let ghost hgen = max_tiles == 1 && walkable_id(*pairs, 0);
    proof {
        assert forall|p: int| 0 <= p < patterns@.len() implies (#[trigger] patterns@[p]).weight
            >= 1 by {
            assert(describes(*pairs, max_tiles, p as usize, patterns@[p]));
        }
        if hgen {
            assert(describes(*pairs, max_tiles, 0, patterns@[0]));
            lemma_single_tile_sole(*pairs, patterns@);
        }
    }
    let fc = ForbidCorner {
        width,
        height,
        start_x: sx,
        start_y: sy,
        border_pattern,
        floor_pattern,
    };
    proof {
        assert(width * height <= 0x10000 && width * height >= 1) by (nonlinear_arith)
            requires 1 <= width <= 256 && 1 <= height <= 256;
    }
    let n = width * height;
    let mut attempt: u32 = 0;
    while attempt < max_attempts
        invariant
            1 <= max_tiles <= MAX_PATTERNS,
            1 <= width <= MAX_DIM,
            1 <= height <= MAX_DIM,
            sx < width,
            sy < height,
            (border_pattern as int) < max_tiles,
            (floor_pattern as int) < max_tiles,
            pairs.null < max_tiles,
            max_attempts >= 1,
            min_fill_permille <= 1000,
            attempt <= max_attempts,
            n == width * height,
            n <= 0x10000,
            patterns@.len() == max_tiles,
            forall|i: int|
                0 <= i < max_tiles ==> describes(*pairs, max_tiles, (i as usize), #[trigger] patterns@[i]),
            crate::wave::patterns_wf(patterns@),
            hgen == (max_tiles == 1 && walkable_id(*pairs, 0)),
            hgen ==> sole_pattern(patterns@),
            hgen ==> attempt == 0,
            fc == (ForbidCorner {
                width,
                height,
                start_x: sx,
                start_y: sy,
                border_pattern,
                floor_pattern,
            }),
        decreases max_attempts - attempt,
    {
        attempt += 1;
        let a = match solve_once(&patterns, &fc) {
            Some(a) => a,
            None => {
                proof {
                    if hgen {
                        assert(false);
                    }
                }
                continue ;
            },
        };
        // resolve the assignment into gameplay tiles
        let mut tiles: Vec<RoomTile> = Vec::new();
        let mut i: usize = 0;
        while i < n
            invariant
                n <= 0x10000,
                a@.len() == n,
                i <= n,
                tiles@.len() == i,
                forall|j: int|
                    0 <= j < i ==> #[trigger] tiles@[j]@ == raw_tile(*pairs, a@, j),
            decreases n - i,
        {
            let id = a[i] as usize;
            let walk = pairs.is_walkable(id);
            let t = RoomTile {
                sprite: Some(id),
                walkable: walk,
                visible: false,
                visited: false,
                candidates: Candidates::empty(),
            };
            proof {
                assert(t@.candidates =~= raw_tile(*pairs, a@, i as int).candidates);
                assert(t@ =~= raw_tile(*pairs, a@, i as int));
            }
            tiles.push(t);
            i += 1;
        }
        let mut walls = SanityMap::new(width, height, tiles);
        proof {
            assert(walls@.tiles =~= raw_grid(*pairs, width as int, height as int, a@).tiles);
            assert(walls@ =~= raw_grid(*pairs, width as int, height as int, a@));
        }
        let ghost g_raw = walls@;
        let df = prune(&mut walls, sx, sy, pairs.null);
        proof {
            if hgen {
                let w = width as int;
                let h = height as int;
                // every solved cell carries tile id 0, which the table
                // marks walkable, so the raw grid is fully walkable
                assert forall|x2: int, y2: int| in_bounds(w, h, x2, y2) implies #[trigger] crate::map::walkable_at(
                    g_raw,
                    x2,
                    y2,
                ) by {
                    crate::geom::lemma_cell_index_bounds(w, h, x2, y2);
                    let j = cell_index(w, x2, y2);
                    assert(g_raw.tiles[j] == raw_tile(*pairs, a@, j));
                    assert((a@[j] as int) < 1);
                    assert((a@[j] as usize) == 0);
                }
                assert(all_walkable(g_raw));
                assert(crate::map::grid_wf(g_raw));
                // a fully walkable grid is fully reachable, so pruning
                // leaves every tile as it was
                assert forall|x2: int, y2: int| in_bounds(w, h, x2, y2) implies #[trigger] crate::map::walkable_at(
                    walls@,
                    x2,
                    y2,
                ) by {
                    crate::geom::lemma_cell_index_bounds(w, h, x2, y2);
                    let j = cell_index(w, x2, y2);
                    assert(0 <= j % w < w && 0 <= j / w < h && (j / w) * w + j % w
                        == j) by (nonlinear_arith)
                        requires w >= 1 && h >= 1 && 0 <= j && j < w * h;
                    assert(j % w == x2 && j / w == y2) by (nonlinear_arith)
                        requires w >= 1 && 0 <= x2 < w && 0 <= y2 < h && j == y2 * w + x2;
                    lemma_full_grid_reachable(g_raw, sx as int, sy as int, x2, y2);
                    assert(walls@.tiles[j] == crate::prune::pruned_tile(
                        g_raw,
                        sx as int,
                        sy as int,
                        pairs.null,
                        j,
                    ));
                    assert(crate::map::walkable_at(g_raw, x2, y2));
                }
                assert(all_walkable(walls@));
            }
        }
        let si = walls.point2d_to_index(sx, sy);
        if !walls.tiles[si].walkable {
            proof {
                if hgen {
                    assert(crate::map::walkable_at(walls@, sx as int, sy as int));
                    assert(false);
                }
            }
            // the start cell itself came out unwalkable: regenerate
            continue ;
        }
        let rc = df.reachable_count();
        proof {
            lemma_count_finite_le_len(df.values@);
            assert(df.values@.len() == n);
            assert((min_fill_permille as int) * (n as int) <= 1000 * 0x10000) by (nonlinear_arith)
                requires min_fill_permille <= 1000 && n <= 0x10000 && 0 <= min_fill_permille && 0
                    <= n;
            if hgen {
                let w = width as int;
                let h = height as int;
                // all cells reachable in the pruned grid: the field is
                // finite everywhere and the coverage bar is met
                assert forall|j: int| 0 <= j < df.values@.len() implies #[trigger] df.values@[j]
                    < UNREACHABLE by {
                    let xj = j % w;
                    let yj = j / w;
                    assert(0 <= xj < w && 0 <= yj < h && yj * w + xj == j) by (nonlinear_arith)
                        requires w >= 1 && h >= 1 && 0 <= j && j < w * h && xj == j % w && yj == j
                            / w;
                    assert(cell_index(w, xj, yj) == j);
                    lemma_full_grid_reachable(walls@, sx as int, sy as int, xj, yj);
                    assert(df.values@[cell_index(w, xj, yj)] < UNREACHABLE);
                }
                lemma_count_finite_full(df.values@);
                assert(rc == n);
                assert(1000 * (n as int) >= (min_fill_permille as int) * (n as int))
                    by (nonlinear_arith)
                    requires min_fill_permille <= 1000 && 0 <= n;
            }
        }
        if (rc as u64) * 1000 < (min_fill_permille as u64) * (n as u64) {
            proof {
                if hgen {
                    assert(false);
                }
            }
            // too little of the grid is reachable: regenerate
            continue ;
        }
        let mut floor: Vec<FloorTile> = Vec::new();
        let mut k: usize = 0;
        while k < n
            invariant
                k <= n,
                floor@.len() == k,
                forall|j: int|
                    0 <= j < k ==> (#[trigger] floor@[j]).sprite == Some(FLOOR_SPRITE)
                        && !floor@[j].visible && !floor@[j].visited,
            decreases n - k,
        {
            floor.push(FloorTile { sprite: Some(FLOOR_SPRITE), visible: false, visited: false });
            k += 1;
        }
        proof {
            // border sprites: an unwalkable border pattern is never
            // pruned, so the ring keeps its sprite
            if !walkable_id(*pairs, border_pattern as usize) {
                assert forall|x: int, y: int|
                    in_bounds(width as int, height as int, x, y) && crate::wave::on_border(
                        width as int,
                        height as int,
                        x,
                        y,
                    ) implies walls@.tiles[#[trigger] cell_index(width as int, x, y)].sprite
                    == Some(border_pattern as usize) by {
                    let w = width as int;
                    let h = height as int;
                    let j = cell_index(w, x, y);
                    crate::geom::lemma_cell_index_bounds(w, h, x, y);
                    assert(a@[j] == border_pattern);
                    assert(g_raw.tiles[j] == raw_tile(*pairs, a@, j));
                    assert(!g_raw.tiles[j].walkable);
                    assert(walls@.tiles[j] == crate::prune::pruned_tile(
                        g_raw,
                        sx as int,
                        sy as int,
                        pairs.null,
                        j,
                    ));
                }
            }
        }
        proof {
            let w = width as int;
            let h = height as int;
            let si2 = cell_index(w, sx as int, sy as int);
            crate::geom::lemma_cell_index_bounds(w, h, sx as int, sy as int);
            assert(walls@.tiles[si2].walkable);
            assert(g_raw == raw_grid(*pairs, w, h, a@));
            assert(walls@ == pruned_grid(raw_grid(*pairs, w, h, a@), sx as int, sy as int, pairs.null));
            assert(solved_ok(
                patterns@,
                ForbidCorner {
                    width,
                    height,
                    start_x: sx,
                    start_y: sy,
                    border_pattern,
                    floor_pattern,
                },
                a@,
            ));
            assert((min_fill_permille as int) * w * h == (min_fill_permille as int) * (n as int))
                by (nonlinear_arith)
                requires n == width * height && w == width && h == height;
            assert(rc * 1000 >= min_fill_permille * width * height);
            assert forall|i: int| 0 <= i < walls@.tiles.len() implies ((#[trigger] walls@.tiles[i]).sprite
                matches Some(id) && (id as int) < max_tiles) by {
                assert(walls@.tiles[i] == crate::prune::pruned_tile(
                    g_raw,
                    sx as int,
                    sy as int,
                    pairs.null,
                    i,
                ));
                assert(g_raw.tiles[i] == raw_tile(*pairs, a@, i));
                assert((a@[i] as int) < max_tiles);
            }
        }
        return Ok(GenOutput {
            walls,
            floor,
            distances: df,
            reachable_cells: rc,
            attempts: attempt,
        });
    }
    Err(GenError::SolveExhausted { attempts: max_attempts })
}

} // verus!
