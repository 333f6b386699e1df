use sanity_core::field::{reachable_cells, UNREACHABLE};
use sanity_core::gen::{gen_map, GenError};
use sanity_core::pattern::PatternDescription;
use sanity_core::rules::Pairs;
use sanity_core::tile::{Candidates, RoomTile, TileType};
use sanity_core::wave::{collapse_retrying, ForbidCorner, SolveError, Wave};

/// A 4x4 grid over a single self-adjacent walkable tile solves to an
/// all-zero grid and the pruner changes nothing.
#[test]
fn single_tile_grid_solves_completely() {
    let pairs = Pairs::new(vec![(0, 0)], vec![(0, 0)], vec![0], 0);
    let out = gen_map(&pairs, 1, 4, 4, 1, 1, 0, 0, 5, 1000).expect("solvable ruleset");
    assert_eq!(out.attempts, 1);
    assert_eq!(out.walls.dimensions(), (4, 4));
    assert_eq!(out.reachable_cells, 16);
    for tile in out.walls.tiles.iter() {
        assert_eq!(tile.sprite, Some(0));
        assert!(tile.walkable);
        assert!(!tile.visible);
        assert!(!tile.visited);
    }
    // already fully connected: every distance is finite
    for v in out.distances.values.iter() {
        assert!(*v < UNREACHABLE);
    }
    // the start cell is at distance zero, a diagonal neighbour one
    // diagonal step away, a straight neighbour one cardinal step away
    let start = out.walls.point2d_to_index(1, 1);
    assert_eq!(out.distances.values[start], 0);
    let diag = out.walls.point2d_to_index(2, 2);
    assert_eq!(out.distances.values[diag], sanity_core::geom::DIAGONAL_COST);
    let east2 = out.walls.point2d_to_index(3, 1);
    assert_eq!(out.distances.values[east2], 2 * sanity_core::geom::CARDINAL_COST);
    // floor backdrop is reset
    assert_eq!(out.floor.len(), 16);
    for f in out.floor.iter() {
        assert_eq!(f.sprite, Some(sanity_core::tile::FLOOR_SPRITE));
        assert!(!f.visible);
        assert!(!f.visited);
    }
}

fn dungeon_like_pairs() -> Pairs {
    // a reduced dungeon-style table over 115 tile ids: walls (17) and
    // floors (6) may sit beside themselves and each other on both axes;
    // every other id has no pairs and is compiled self-only
    let ns = vec![(17, 17), (6, 6), (17, 6), (6, 17)];
    let we = vec![(17, 17), (6, 6), (17, 6), (6, 17)];
    Pairs::new(ns, we, vec![6], 0)
}

/// A 16x16 grid over a 115-tile table with border id 17 and floor id 6:
/// the border ring resolves to 17 and a flood fill from the start
/// reaches every walkable cell.
#[test]
fn dungeon_grid_border_ring_and_connectivity() {
    let pairs = dungeon_like_pairs();
    let out = gen_map(&pairs, 115, 16, 16, 8, 8, 17, 6, 60, 50).expect("solvable ruleset");
    assert!(out.attempts >= 1);
    // border ring is entirely the border tile
    for x in 0..16usize {
        for y in 0..16usize {
            if x == 0 || y == 0 || x == 15 || y == 15 {
                let idx = out.walls.point2d_to_index(x, y);
                assert_eq!(out.walls.tiles[idx].sprite, Some(17));
                assert!(!out.walls.tiles[idx].walkable);
            }
        }
    }
    // the start cell is the floor tile and walkable
    let start = out.walls.point2d_to_index(8, 8);
    assert_eq!(out.walls.tiles[start].sprite, Some(6));
    assert!(out.walls.tiles[start].walkable);
    // flood fill from the start covers every walkable cell
    let vis = reachable_cells(&out.walls, 8, 8);
    for i in 0..out.walls.tiles.len() {
        if out.walls.tiles[i].walkable {
            assert!(vis[i], "walkable cell {} unreachable after pruning", i);
        }
        if out.walls.tiles[i].walkable {
            assert!(out.distances.values[i] < UNREACHABLE);
        }
    }
}

/// A deliberately contradictory two-tile table: tile 0 wants tile 1 to
/// its south but allows nothing east or west, so the first propagation
/// empties a neighbour. The solver must detect the contradiction on
/// every attempt and report the full attempt count instead of hanging.
#[test]
fn contradictory_ruleset_retries_and_exhausts() {
    let patterns = vec![
        PatternDescription {
            weight: 1,
            north: vec![],
            east: vec![],
            south: vec![1],
            west: vec![],
        },
        PatternDescription {
            weight: 1,
            north: vec![0],
            east: vec![],
            south: vec![],
            west: vec![],
        },
    ];
    let fc = ForbidCorner {
        width: 2,
        height: 2,
        start_x: 0,
        start_y: 0,
        border_pattern: 0,
        floor_pattern: 0,
    };
    let r = collapse_retrying(&patterns, &fc, 3);
    match r {
        Err(SolveError::Exhausted { attempts }) => assert_eq!(attempts, 3),
        Ok(_) => panic!("contradictory ruleset must not solve"),
    }
}

/// The same contradiction through the full pipeline surfaces as
/// `SolveExhausted` with the attempt counter at the configured cap.
#[test]
fn contradictory_pairs_exhaust_generation() {
    // tile 0 may sit north of tile 1, nothing else is permitted; on a
    // grid wider than one cell the horizontal axis contradicts
    let pairs = Pairs::new(vec![(0, 1)], vec![], vec![0], 0);
    let r = gen_map(&pairs, 2, 3, 3, 1, 1, 0, 1, 4, 0);
    match r {
        Err(GenError::SolveExhausted { attempts }) => assert_eq!(attempts, 4),
        Ok(_) => panic!("expected exhaustion"),
    }
}

/// Pinning a cell through the forbidder API leaves exactly that pattern
/// possible there and narrows the neighbours accordingly.
#[test]
fn forbid_pins_a_single_pattern() {
    let pairs = Pairs::new(
        vec![(0, 0), (1, 1), (0, 1), (1, 0)],
        vec![(0, 0), (1, 1), (0, 1), (1, 0)],
        vec![0],
        0,
    );
    let patterns = sanity_core::pattern::gen_patterns(&pairs, 2);
    let mut wave = Wave::new(3, 3, 2);
    assert!(wave.count_candidates(4) == 2);
    let ok = wave.forbid_all_patterns_except(4, 1, &patterns);
    assert!(ok);
    assert!(wave.is_possible(4, 1));
    assert!(!wave.is_possible(4, 0));
    assert_eq!(wave.count_candidates(4), 1);
    assert_eq!(wave.first_candidate(4), Some(1));
    // the neighbours keep both patterns: 1 tolerates either beside it
    assert_eq!(wave.count_candidates(3), 2);
}

#[test]
fn tile_records_hold_their_fields() {
    let t = RoomTile {
        sprite: Some(3),
        walkable: true,
        visible: false,
        visited: true,
        candidates: Candidates::empty(),
    };
    assert_eq!(t.sprite, Some(3));
    assert!(t.walkable && !t.visible && t.visited);
    assert!(t.candidates.n.is_empty() && t.candidates.e.is_empty());
    assert_eq!(TileType::Floor as usize, 0);
    assert!(matches!(TileType::CornerNE, TileType::CornerNE));
}

/// A single walkable self-adjacent tile can never fail to generate: the
/// success is part of the generator's contract, not luck of the draw.
#[test]
fn single_tile_generation_cannot_fail() {
    let pairs = Pairs::new(vec![(0, 0)], vec![(0, 0)], vec![0], 0);
    for _ in 0..8 {
        let out = gen_map(&pairs, 1, 6, 5, 2, 2, 0, 0, 1, 1000).expect("contractual success");
        assert_eq!(out.attempts, 1);
        assert_eq!(out.reachable_cells, 30);
    }
}
