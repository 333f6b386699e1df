use sanity_core::ai::{chase_or_attack, choose_random, find_lowest_exit, furthest_cell,
    spawn_candidates, AiAction};
use sanity_core::field::{DistanceField, UNREACHABLE};
use sanity_core::geom::{CARDINAL_COST, COST_SCALE, DIAGONAL_COST};
use sanity_core::map::SanityMap;
use sanity_core::prune::prune;
use sanity_core::tile::{Candidates, RoomTile};

fn tile(walkable: bool) -> RoomTile {
    RoomTile {
        sprite: Some(if walkable { 6 } else { 17 }),
        walkable,
        visible: false,
        visited: false,
        candidates: Candidates::empty(),
    }
}

fn open_map(width: usize, height: usize) -> SanityMap {
    let mut tiles = Vec::new();
    for _ in 0..width * height {
        tiles.push(tile(true));
    }
    SanityMap::new(width, height, tiles)
}

#[test]
fn dimensions_and_indexing_round_trip() {
    let map = open_map(5, 3);
    assert_eq!(map.dimensions(), (5, 3));
    assert_eq!(map.cell_count(), 15);
    let idx = map.point2d_to_index(4, 2);
    assert_eq!(idx, 14);
    assert_eq!(map.index_to_point2d(14), (4, 2));
}

#[test]
fn opacity_follows_walkability_and_bounds() {
    let mut tiles = Vec::new();
    for i in 0..9 {
        tiles.push(tile(i != 4));
    }
    let map = SanityMap::new(3, 3, tiles);
    assert!(map.is_opaque(4));
    assert!(!map.is_opaque(0));
    assert!(map.is_opaque(9));
    assert!(map.is_opaque(1000));
}

#[test]
fn valid_exit_checks_bounds_and_walkability() {
    let mut tiles = Vec::new();
    for i in 0..9 {
        tiles.push(tile(i != 5));
    }
    let map = SanityMap::new(3, 3, tiles);
    assert_eq!(map.valid_exit(1, 1, -1, 0), Some(3));
    assert_eq!(map.valid_exit(1, 1, 1, 0), None); // cell 5 is a wall
    assert_eq!(map.valid_exit(0, 0, -1, 0), None); // out of bounds
    assert_eq!(map.valid_exit(0, 0, 1, 1), Some(4));
}

/// Diagonal-cost property: diagonal exits carry ~1.41421 in fixed point,
/// cardinal exits exactly 1.0.
#[test]
fn exit_costs_cardinal_and_diagonal() {
    let map = open_map(3, 3);
    let exits = map.get_available_exits(4);
    assert_eq!(exits.len(), 8);
    // order: W, E, N, S, then NW, NE, SW, SE
    let expected = vec![
        (3usize, CARDINAL_COST),
        (5, CARDINAL_COST),
        (1, CARDINAL_COST),
        (7, CARDINAL_COST),
        (0, DIAGONAL_COST),
        (2, DIAGONAL_COST),
        (6, DIAGONAL_COST),
        (8, DIAGONAL_COST),
    ];
    assert_eq!(exits, expected);
    for (_, cost) in exits.iter() {
        let unit = *cost as f64 / COST_SCALE as f64;
        assert!(unit == 1.0 || (unit - 1.41421f64).abs() < 1e-4);
    }
}

#[test]
fn corner_cell_has_three_exits() {
    let map = open_map(3, 3);
    let exits = map.get_available_exits(0);
    assert_eq!(exits, vec![(1, CARDINAL_COST), (3, CARDINAL_COST), (4, DIAGONAL_COST)]);
}

#[test]
fn pathing_distance_is_euclidean_fixed_point() {
    let map = open_map(6, 6);
    let a = map.point2d_to_index(0, 0);
    let b = map.point2d_to_index(1, 1);
    assert_eq!(map.get_pathing_distance(a, b), DIAGONAL_COST);
    let c = map.point2d_to_index(3, 4);
    assert_eq!(map.get_pathing_distance(a, c), 5 * COST_SCALE);
    assert_eq!(map.get_pathing_distance(a, a), 0);
}

#[test]
fn distance_field_matches_shortest_paths() {
    let map = open_map(4, 4);
    let df = DistanceField::new(&map, 0, 0);
    assert_eq!(df.values[map.point2d_to_index(0, 0)], 0);
    assert_eq!(df.values[map.point2d_to_index(1, 0)], CARDINAL_COST);
    assert_eq!(df.values[map.point2d_to_index(1, 1)], DIAGONAL_COST);
    assert_eq!(df.values[map.point2d_to_index(3, 3)], 3 * DIAGONAL_COST);
    assert_eq!(df.values[map.point2d_to_index(3, 1)], DIAGONAL_COST + 2 * CARDINAL_COST);
    assert_eq!(df.reachable_count(), 16);
}

#[test]
fn distance_field_marks_walled_off_cells_unreachable() {
    // a vertical wall at x == 2 splits a 5x3 grid
    let mut tiles = Vec::new();
    for y in 0..3 {
        for x in 0..5 {
            let _ = y;
            tiles.push(tile(x != 2));
        }
    }
    let map = SanityMap::new(5, 3, tiles);
    let df = DistanceField::new(&map, 0, 1);
    for y in 0..3usize {
        for x in 0..5usize {
            let v = df.values[map.point2d_to_index(x, y)];
            if x < 2 {
                assert!(v < UNREACHABLE);
            } else {
                assert_eq!(v, UNREACHABLE);
            }
        }
    }
    assert_eq!(df.reachable_count(), 6);
}

/// An isolated 2x2 walkable pocket disconnected from the start is wiped
/// by one pruning pass: all four cells lose their sprite and walkability.
#[test]
fn pruning_removes_isolated_pocket() {
    let mut tiles = Vec::new();
    for y in 0..6 {
        for x in 0..6 {
            let walk = (x <= 2 && y <= 1) || (x >= 4 && y >= 4);
            tiles.push(tile(walk));
        }
    }
    let mut map = SanityMap::new(6, 6, tiles);
    let df = prune(&mut map, 1, 1, 9);
    for &(x, y) in [(4usize, 4usize), (5, 4), (4, 5), (5, 5)].iter() {
        let i = map.point2d_to_index(x, y);
        assert!(!map.tiles[i].walkable);
        assert_eq!(map.tiles[i].sprite, Some(9));
        assert_eq!(df.values[i], UNREACHABLE);
    }
    for &(x, y) in [(0usize, 0usize), (1, 1), (2, 1)].iter() {
        let i = map.point2d_to_index(x, y);
        assert!(map.tiles[i].walkable);
        assert!(df.values[i] < UNREACHABLE);
    }
}

/// Pruner idempotence on concrete data: a second pass leaves every tile
/// exactly as the first pass did.
#[test]
fn pruning_twice_changes_nothing_more() {
    let mut tiles = Vec::new();
    for y in 0..6 {
        for x in 0..6 {
            let walk = (x <= 2 && y <= 1) || (x >= 4 && y >= 4);
            tiles.push(tile(walk));
        }
    }
    let mut once = SanityMap::new(6, 6, tiles);
    prune(&mut once, 1, 1, 9);
    let snapshot: Vec<(Option<usize>, bool, bool, bool)> = once
        .tiles
        .iter()
        .map(|t| (t.sprite, t.walkable, t.visible, t.visited))
        .collect();
    prune(&mut once, 1, 1, 9);
    let again: Vec<(Option<usize>, bool, bool, bool)> = once
        .tiles
        .iter()
        .map(|t| (t.sprite, t.walkable, t.visible, t.visited))
        .collect();
    assert_eq!(snapshot, again);
}

#[test]
fn lowest_exit_descends_towards_source() {
    let map = open_map(4, 4);
    let df = DistanceField::new(&map, 0, 0);
    let corner = map.point2d_to_index(3, 3);
    // from the far corner the diagonal neighbour is strictly closest
    assert_eq!(find_lowest_exit(&map, &df, corner), Some(map.point2d_to_index(2, 2)));
    // the source cell's own lowest exit is any neighbour; all have the
    // same distance, the first listed (west of start is out of bounds,
    // so east) wins
    let start_exit = find_lowest_exit(&map, &df, 0).unwrap();
    assert_eq!(df.values[start_exit], CARDINAL_COST);
}

#[test]
fn lowest_exit_of_sealed_cell_is_none() {
    let mut tiles = Vec::new();
    for i in 0..9 {
        tiles.push(tile(i == 4));
    }
    let map = SanityMap::new(3, 3, tiles);
    let df = DistanceField::new(&map, 1, 1);
    assert_eq!(find_lowest_exit(&map, &df, 4), None);
}

#[test]
fn furthest_cell_and_spawn_band() {
    let map = open_map(5, 1);
    let df = DistanceField::new(&map, 0, 0);
    assert_eq!(furthest_cell(&df), Some(4));
    let band = spawn_candidates(&df, 2 * CARDINAL_COST);
    assert_eq!(band, vec![2, 3, 4]);
    let pick = choose_random(&band).unwrap();
    assert!(band.contains(&pick));
    assert_eq!(choose_random(&Vec::new()), None);
    let empty = DistanceField::new(&map, 0, 0);
    let lone = spawn_candidates(&empty, UNREACHABLE - 1);
    assert_eq!(lone, Vec::<usize>::new());
}

#[test]
fn chase_when_far_attack_when_adjacent() {
    assert_eq!(chase_or_attack(5 * COST_SCALE), AiAction::Chase);
    assert_eq!(chase_or_attack(COST_SCALE + 1), AiAction::Chase);
    assert_eq!(chase_or_attack(COST_SCALE), AiAction::Attack);
    assert_eq!(chase_or_attack(0), AiAction::Attack);
}

/// Every finite distance is the cost of a real chain and minimal over
/// all chains; spot-check against hand-computed shortest costs around
/// an obstacle.
#[test]
fn distances_detour_around_walls() {
    // a 5x3 grid with a wall at (2, 1): the straight row is blocked and
    // the shortest route to (4, 1) goes over or under the wall
    let mut tiles = Vec::new();
    for y in 0..3 {
        for x in 0..5 {
            tiles.push(tile(!(x == 2 && y == 1)));
        }
    }
    let map = SanityMap::new(5, 3, tiles);
    let df = DistanceField::new(&map, 0, 1);
    assert_eq!(df.values[map.point2d_to_index(1, 1)], CARDINAL_COST);
    // over the wall corner: east, then diagonally up-right and
    // down-right
    assert_eq!(
        df.values[map.point2d_to_index(3, 1)],
        CARDINAL_COST + 2 * DIAGONAL_COST
    );
    assert_eq!(
        df.values[map.point2d_to_index(4, 1)],
        2 * CARDINAL_COST + 2 * DIAGONAL_COST
    );
}
