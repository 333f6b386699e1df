use sanity_core::gameplay::{Health, MovementIntent, Projectile, Weapon, MELEE_DAMAGE};
use sanity_core::geom::{CardinalDirection, Position};
use sanity_core::pattern::{gen_patterns, gen_patterns_strict, to_vec, DEFAULT_WEIGHT, SYNTH_WEIGHT};
use sanity_core::rules::{Pairs, RuleError};

/// Totality of the pattern compiler: every tile id gets four non-empty
/// neighbour lists and a positive weight, even on tables with lone
/// one-sided pairs.
#[test]
fn compiler_total_on_any_table() {
    let tables = vec![
        Pairs::new(vec![(0, 1), (1, 0)], vec![(0, 1), (1, 0)], vec![0], 0),
        Pairs::new(vec![(0, 1)], vec![], vec![], 0),
        Pairs::new(vec![], vec![(2, 1)], vec![], 0),
        Pairs::new(vec![(1, 1)], vec![(2, 0)], vec![], 0),
    ];
    for pairs in tables.iter() {
        let patterns = gen_patterns(pairs, 3);
        assert_eq!(patterns.len(), 3);
        for pd in patterns.iter() {
            assert!(pd.weight >= 1);
            assert!(!pd.north.is_empty());
            assert!(!pd.east.is_empty());
            assert!(!pd.south.is_empty());
            assert!(!pd.west.is_empty());
        }
    }
}

/// A tile with vertical pairs but no horizontal pairs gets its whole
/// horizontal axis forced to the tile itself at the deprioritized
/// weight; a side left empty beside its one-sided partner falls back to
/// the tile itself.
#[test]
fn compiler_synthesizes_missing_axis() {
    let pairs = Pairs::new(vec![(0, 1)], vec![], vec![], 0);
    let patterns = gen_patterns(&pairs, 2);
    // tile 0: nothing north of it, tile 1 south of it
    assert_eq!(patterns[0].north, vec![0]);
    assert_eq!(patterns[0].south, vec![1]);
    assert_eq!(patterns[0].west, vec![0]);
    assert_eq!(patterns[0].east, vec![0]);
    assert_eq!(patterns[0].weight, SYNTH_WEIGHT);
    // tile 1: tile 0 north of it, nothing south
    assert_eq!(patterns[1].north, vec![0]);
    assert_eq!(patterns[1].south, vec![1]);
    assert_eq!(patterns[1].west, vec![1]);
    assert_eq!(patterns[1].east, vec![1]);
    assert_eq!(patterns[1].weight, SYNTH_WEIGHT);
}

/// The synthesis rule replaces the incomplete axis: a lone one-sided
/// base entry on a synthesized axis is discarded, not kept beside the
/// self-adjacency.
#[test]
fn compiler_replaces_one_sided_axes() {
    // tile 0: south partner 1 (vertical one-sided), west partner 5
    // (horizontal one-sided): both axes are synthesized to {0}
    let pairs = Pairs::new(vec![(0, 1)], vec![(5, 0)], vec![], 0);
    let patterns = gen_patterns(&pairs, 6);
    assert_eq!(patterns[0].north, vec![0]);
    assert_eq!(patterns[0].south, vec![0]);
    assert_eq!(patterns[0].west, vec![0]);
    assert_eq!(patterns[0].east, vec![0]);
    assert_eq!(patterns[0].weight, SYNTH_WEIGHT);
}

/// The axis splitter keeps pair-list order and duplicates, and drops
/// partners at or above the tile-id cutoff.
#[test]
fn to_vec_exact_order_and_cutoff() {
    let p = vec![(0usize, 1usize), (1, 0), (200, 0), (0, 200)];
    let r = to_vec(&p, 0, 115);
    assert_eq!(r, (vec![1], vec![1]));
    let dup = vec![(2usize, 0usize), (1, 0), (2, 0), (0, 3)];
    let (before, after) = to_vec(&dup, 0, 5);
    assert_eq!(before, vec![2, 1, 2]);
    assert_eq!(after, vec![3]);
}

/// A tile with no pairs at all compiles self-only at the default weight.
#[test]
fn compiler_defaults_isolated_tiles_to_self_only() {
    let pairs = Pairs::new(vec![(5, 0)], vec![], vec![], 0);
    // the only pair references id 5, beyond max_tiles, and is dropped
    let patterns = gen_patterns(&pairs, 2);
    for i in 0..2u32 {
        let pd = &patterns[i as usize];
        assert_eq!(pd.north, vec![i]);
        assert_eq!(pd.east, vec![i]);
        assert_eq!(pd.south, vec![i]);
        assert_eq!(pd.west, vec![i]);
        assert_eq!(pd.weight, DEFAULT_WEIGHT);
    }
}

#[test]
fn strict_compile_rejects_out_of_range_pairs() {
    let bad = Pairs::new(vec![(5, 0)], vec![], vec![], 0);
    assert_eq!(bad.validate(2), Err(RuleError::TileOutOfRange));
    assert!(gen_patterns_strict(&bad, 2).is_err());
    // a void tile id at or above the cutoff is rejected too
    let bad_null = Pairs::new(vec![(1, 0)], vec![], vec![], 7);
    assert_eq!(bad_null.validate(2), Err(RuleError::TileOutOfRange));
    assert!(gen_patterns_strict(&bad_null, 2).is_err());
    let good = Pairs::new(vec![(1, 0)], vec![(0, 1)], vec![], 0);
    assert_eq!(good.validate(2), Ok(()));
    let patterns = gen_patterns_strict(&good, 2).expect("in range");
    assert_eq!(patterns.len(), 2);
}

#[test]
fn walkable_lookup() {
    let pairs = Pairs::new(vec![], vec![], vec![3, 7], 0);
    assert!(pairs.is_walkable(3));
    assert!(pairs.is_walkable(7));
    assert!(!pairs.is_walkable(4));
}

#[test]
fn melee_damage_only_hits_the_living() {
    let mut h = Health::new(30);
    assert_eq!(h.max, 30);
    assert_eq!(h.current, 30);
    h.melee_hit();
    assert_eq!(h.current, 30 - MELEE_DAMAGE);
    h.current = 0;
    h.melee_hit();
    assert_eq!(h.current, 0);
    assert!(h.dead());
}

#[test]
fn projectile_damage_applies_in_full() {
    let mut h = Health::new(20);
    h.projectile_hit(25);
    assert_eq!(h.current, -5);
    assert!(h.dead());
    assert!(!Health::new(1).dead());
}

#[test]
fn weapon_fire_rolls_damage_in_range() {
    let w = Weapon { damage_range: (3, 8), ranged: true };
    for _ in 0..32 {
        let p = w.fire();
        assert!(p.damage >= 3 && p.damage < 8);
    }
    // a one-value range pins the roll exactly
    let fixed = Weapon { damage_range: (3, 4), ranged: true };
    assert_eq!(fixed.fire().damage, 3);
    assert_eq!(Projectile::new(11).damage, 11);
}

#[test]
fn directions_and_positions() {
    assert_eq!(CardinalDirection::North.coord(), (0, -1));
    assert_eq!(CardinalDirection::South.coord(), (0, 1));
    assert_eq!(CardinalDirection::East.coord(), (1, 0));
    assert_eq!(CardinalDirection::West.coord(), (-1, 0));
    for d in [
        CardinalDirection::North,
        CardinalDirection::East,
        CardinalDirection::South,
        CardinalDirection::West,
    ] {
        let (dx, dy) = d.coord();
        assert_eq!(CardinalDirection::from_unit_coord(dx, dy), d);
    }
    let p = Position::new(3, 4).shifted(CardinalDirection::North);
    assert_eq!((p.x, p.y), (3, 3));
    let q = Position::new(3, 4).shifted(CardinalDirection::East);
    assert_eq!((q.x, q.y), (4, 4));
    let m = MovementIntent::new(CardinalDirection::West, 5);
    assert_eq!(m.dir, CardinalDirection::West);
    assert_eq!(m.step, 5);
}

#[test]
fn isqrt_exact_bounds() {
    assert_eq!(sanity_core::map::isqrt(0), 0);
    assert_eq!(sanity_core::map::isqrt(1), 1);
    assert_eq!(sanity_core::map::isqrt(2), 1);
    assert_eq!(sanity_core::map::isqrt(4), 2);
    assert_eq!(sanity_core::map::isqrt(99), 9);
    assert_eq!(sanity_core::map::isqrt(100), 10);
    assert_eq!(sanity_core::map::isqrt(20_000_000_000), 141421);
}
