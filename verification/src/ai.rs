//! Runtime consumers of the distance field: enemy pathing picks the
//! neighbouring cell closest to the player, spawning picks cells a
//! minimum distance away, and exits go to the farthest reachable cell.

use crate::field::{DistanceField, UNREACHABLE};
use crate::geom::{lemma_cell_index_bounds, COST_SCALE};
use crate::map::{exit_entry, exits_spec, walkable_at, GridV, SanityMap};
use vstd::prelude::*;

verus! {

/// One entry of `exits_spec` stays inside the grid.
proof fn lemma_exit_entry_in_range(g: GridV, x: int, y: int, dx: int, dy: int)
    requires
        crate::map::grid_wf(g),
    ensures
        forall|j: int|
            0 <= j < exit_entry(g, x, y, dx, dy).len() ==> (#[trigger] exit_entry(
                g,
                x,
                y,
                dx,
                dy,
            )[j]).0 < g.tiles.len(),
{
    if walkable_at(g, x + dx, y + dy) {
        lemma_cell_index_bounds(g.width, g.height, x + dx, y + dy);
    }
}

/// Every exit entry indexes a cell of the grid.
#[verifier::rlimit(60)]
pub proof fn lemma_exits_in_range(g: GridV, x: int, y: int)
    requires
        crate::map::grid_wf(g),
    ensures
        forall|j: int|
            0 <= j < exits_spec(g, x, y).len() ==> (#[trigger] exits_spec(g, x, y)[j]).0 < g.tiles.len(),
{
    let e1 = exit_entry(g, x, y, -1, 0);
    let e2 = exit_entry(g, x, y, 1, 0);
    let e3 = exit_entry(g, x, y, 0, -1);
    let e4 = exit_entry(g, x, y, 0, 1);
    let e5 = exit_entry(g, x, y, -1, -1);
    let e6 = exit_entry(g, x, y, 1, -1);
    let e7 = exit_entry(g, x, y, -1, 1);
    let e8 = exit_entry(g, x, y, 1, 1);
    lemma_exit_entry_in_range(g, x, y, -1, 0);
    lemma_exit_entry_in_range(g, x, y, 1, 0);
    lemma_exit_entry_in_range(g, x, y, 0, -1);
    lemma_exit_entry_in_range(g, x, y, 0, 1);
    lemma_exit_entry_in_range(g, x, y, -1, -1);
    lemma_exit_entry_in_range(g, x, y, 1, -1);
    lemma_exit_entry_in_range(g, x, y, -1, 1);
    lemma_exit_entry_in_range(g, x, y, 1, 1);
    let es = exits_spec(g, x, y);
    assert forall|j: int| 0 <= j < es.len() implies (#[trigger] es[j]).0 < g.tiles.len() by {
        let c1 = e1.len();
        let c2 = c1 + e2.len();
        let c3 = c2 + e3.len();
        let c4 = c3 + e4.len();
        let c5 = c4 + e5.len();
        let c6 = c5 + e6.len();
        let c7 = c6 + e7.len();
        if j < c1 {
            assert(es[j] == e1[j]);
        } else if j < c2 {
            assert(es[j] == e2[j - c1]);
        } else if j < c3 {
            assert(es[j] == e3[j - c2]);
        } else if j < c4 {
            assert(es[j] == e4[j - c3]);
        } else if j < c5 {
            assert(es[j] == e5[j - c4]);
        } else if j < c6 {
            assert(es[j] == e6[j - c5]);
        } else if j < c7 {
            assert(es[j] == e7[j - c6]);
        } else {
            assert(es[j] == e8[j - c7]);
        }
    }
}

/// The walkable neighbour of `idx` with the lowest distance-field value:
/// one step of gradient descent towards the field's source. `None` when
/// the cell has no walkable neighbour.
pub fn find_lowest_exit(map: &SanityMap, df: &DistanceField, idx: usize) -> (r: Option<usize>)
    requires
        map.wf(),
        idx < map@.tiles.len(),
        df.values@.len() == map@.tiles.len(),
    ensures
        ({
            let es = exits_spec(map@, idx as int % map@.width, idx as int / map@.width);
            &&& r is None <==> es.len() == 0
            &&& r matches Some(t) ==> t < map@.tiles.len() && (exists|j: int|
                0 <= j < es.len() && (#[trigger] es[j]).0 == t) && (forall|j: int|
                0 <= j < es.len() ==> df.values@[(#[trigger] es[j]).0 as int] >= df.values@[t as int])
        }),
{
    let ghost gx = idx as int % map@.width;
    let ghost gy = idx as int / map@.width;
    proof {
        lemma_exits_in_range(map@, gx, gy);
    }
    let exits = map.get_available_exits(idx);
    let mut best: usize = 0;
    let mut best_val: u64 = 0;
    let mut have: bool = false;
    let mut j: usize = 0;
    while j < exits.len()
        invariant
            map.wf(),
            df.values@.len() == map@.tiles.len(),
            exits@ == exits_spec(map@, gx, gy),
            forall|j2: int|
                0 <= j2 < exits@.len() ==> (#[trigger] exits@[j2]).0 < map@.tiles.len(),
            j <= exits@.len(),
            have <==> j > 0,
            have ==> best < map@.tiles.len() && best_val == df.values@[best as int] && (exists|j2: int|
                0 <= j2 < exits@.len() && (#[trigger] exits@[j2]).0 == best),
            have ==> forall|j2: int|
                0 <= j2 < j ==> df.values@[(#[trigger] exits@[j2]).0 as int] >= best_val,
        decreases exits@.len() - j,
    {
        let (t, _cost) = exits[j];
        let v = df.values[t];
        if !have || v < best_val {
            best = t;
            best_val = v;
            have = true;
        }
        j += 1;
    }
    if have {
        Some(best)
    } else {
        None
    }
}

/// The reachable cell with the greatest finite distance from the field's
/// source; `None` when nothing is reachable at all.
pub fn furthest_cell(df: &DistanceField) -> (r: Option<usize>)
    ensures
        r matches Some(t) ==> (t as int) < df.values@.len() && df.values@[t as int] < UNREACHABLE
            && (forall|j: int|
            0 <= j < df.values@.len() && #[trigger] df.values@[j] < UNREACHABLE ==> df.values@[j]
                <= df.values@[t as int]),
        r is None ==> forall|j: int|
            0 <= j < df.values@.len() ==> #[trigger] df.values@[j] == UNREACHABLE,
{
    let mut best: usize = 0;
    let mut best_val: u64 = 0;
    let mut have: bool = false;
    let mut j: usize = 0;
    while j < df.values.len()
        invariant
            j <= df.values@.len(),
            have ==> (best as int) < df.values@.len() && best_val == df.values@[best as int]
                && best_val < UNREACHABLE,
            have ==> forall|j2: int|
                0 <= j2 < j && #[trigger] df.values@[j2] < UNREACHABLE ==> df.values@[j2]
                    <= best_val,
            !have ==> forall|j2: int| 0 <= j2 < j ==> #[trigger] df.values@[j2] == UNREACHABLE,
        decreases df.values@.len() - j,
    {
        let v = df.values[j];
        if v < UNREACHABLE && (!have || v > best_val) {
            best = j;
            best_val = v;
            have = true;
        }
        j += 1;
    }
    if have {
        Some(best)
    } else {
        None
    }
}

proof fn lemma_push_contains_usize(s: Seq<usize>, x: usize)
    ensures
        forall|y: usize| #![trigger s.push(x).contains(y)] s.push(x).contains(y) <==> (s.contains(
            y,
        ) || y == x),
{
    assert forall|y: usize| s.push(x).contains(y) implies (s.contains(y) || y == x) by {
        let t = choose|t: int| 0 <= t < s.push(x).len() && s.push(x)[t] == y;
        if t < s.len() {
            assert(s[t] == y);
        }
    }
    assert forall|y: usize| (s.contains(y) || y == x) implies s.push(x).contains(y) by {
        if s.contains(y) {
            let t = choose|t: int| 0 <= t < s.len() && s[t] == y;
            assert(s.push(x)[t] == y);
        } else {
            assert(s.push(x)[s.len() as int] == y);
        }
    }
}

/// The cells whose distance from the field's source is finite and at
/// least `min_dist`: the band eligible for spawning, away from the
/// player but reachable.
pub fn spawn_candidates(df: &DistanceField, min_dist: u64) -> (r: Vec<usize>)
    requires
        min_dist < UNREACHABLE,
    ensures
        forall|i: usize|
            r@.contains(i) <==> ((i as int) < df.values@.len() && min_dist <= df.values@[i as int]
                < UNREACHABLE),
{
    let mut r: Vec<usize> = Vec::new();
    let mut i: usize = 0;
    while i < df.values.len()
        invariant
            min_dist < UNREACHABLE,
            i <= df.values@.len(),
            forall|c: usize|
                r@.contains(c) <==> ((c as int) < i && min_dist <= df.values@[c as int]
                    < UNREACHABLE),
        decreases df.values@.len() - i,
    {
        let ghost pre = r@;
        let v = df.values[i];
        if min_dist <= v && v < UNREACHABLE {
            proof {
                lemma_push_contains_usize(r@, i);
            }
            r.push(i);
            proof {
                assert forall|c: usize|
                    r@.contains(c) <==> ((c as int) < i + 1 && min_dist <= df.values@[c as int]
                        < UNREACHABLE) by {}
            }
        }
        i += 1;
    }
    r
}

/// A uniformly random element of the list; `None` when it is empty.
pub fn choose_random(v: &Vec<usize>) -> (r: Option<usize>)
    ensures
        r matches Some(x) ==> v@.contains(x),
        r is None <==> v@.len() == 0,
{
    if v.len() == 0 {
        return None;
    }
    let roll = crate::rng::random_range(0, v.len() as u64);
    let k = roll as usize;
    let x = v[k];
    proof {
        assert(v@.contains(v@[k as int]));
    }
    Some(x)
}

/// What an enemy does about the player: close in while farther than one
/// tile (straight-line, fixed point), strike when adjacent.
#[derive(Clone, Copy, Debug, PartialEq, Eq, Structural)]
pub enum AiAction {
    Chase,
    Attack,
}

/// The chase-or-attack rule of the enemy turn.
pub fn chase_or_attack(pathing_distance: u64) -> (r: AiAction)
    ensures
        r == (if pathing_distance > COST_SCALE {
            AiAction::Chase
        } else {
            AiAction::Attack
        }),
{
    if pathing_distance > COST_SCALE {
        AiAction::Chase
    } else {
        AiAction::Attack
    }
}

} // verus!
