//! The pattern compiler: turns the adjacency rule table into one
//! `PatternDescription` per tile id. An axis with pairs whose opposite
//! axis is incomplete is forced to a self-adjacency (both of its sides
//! replaced by exactly the tile itself) and the tile deprioritized, and
//! any side still empty beside a populated partner side falls back to
//! the tile itself too, so the compiler is total: every tile ends with
//! four non-empty sides.

use crate::rules::{pair_in, pairs_in_range, Pairs, RuleError};
use vstd::prelude::*;

verus! {

/// Per-tile compiled pattern: the tile ids permitted on each side, plus a
/// selection weight for the weighted-random collapse step.
#[derive(Clone, Debug)]
pub struct PatternDescription {
    pub weight: u32,
    pub north: Vec<u32>,
    pub east: Vec<u32>,
    pub south: Vec<u32>,
    pub west: Vec<u32>,
}

/// Default weight of a tile with explicit pairs on both axes.
pub const DEFAULT_WEIGHT: u32 = 50;

/// Weight of a tile with a synthesized axis.
pub const SYNTH_WEIGHT: u32 = 1;

/// The partners listed before `idx`: for each pair `(a, idx)` of the
/// list, in order and with duplicates kept, the id `a` when it is below
/// `max_tiles`.
pub open spec fn before_list(p: Seq<(usize, usize)>, idx: usize, max_tiles: usize) -> Seq<u32>
    decreases p.len(),
{
    if p.len() == 0 {
        Seq::empty()
    } else {
        let rest = before_list(p.drop_last(), idx, max_tiles);
        if p.last().1 == idx && p.last().0 < max_tiles {
            rest.push(p.last().0 as u32)
        } else {
            rest
        }
    }
}

/// The partners listed after `idx`: for each pair `(idx, b)` of the
/// list, in order and with duplicates kept, the id `b` when it is below
/// `max_tiles`.
pub open spec fn after_list(p: Seq<(usize, usize)>, idx: usize, max_tiles: usize) -> Seq<u32>
    decreases p.len(),
{
    if p.len() == 0 {
        Seq::empty()
    } else {
        let rest = after_list(p.drop_last(), idx, max_tiles);
        if p.last().0 == idx && p.last().1 < max_tiles {
            rest.push(p.last().1 as u32)
        } else {
            rest
        }
    }
}

proof fn lemma_push_contains(s: Seq<u32>, x: u32)
    ensures
        forall|y: u32| #![trigger s.push(x).contains(y)] s.push(x).contains(y) <==> (s.contains(y)
            || y == x),
{
    assert forall|y: u32| s.push(x).contains(y) implies (s.contains(y) || y == x) by {
        let t = choose|t: int| 0 <= t < s.push(x).len() && s.push(x)[t] == y;
        if t < s.len() {
            assert(s[t] == y);
        }
    }
    assert forall|y: u32| (s.contains(y) || y == x) implies s.push(x).contains(y) by {
        if s.contains(y) {
            let t = choose|t: int| 0 <= t < s.len() && s[t] == y;
            assert(s.push(x)[t] == y);
        } else {
            assert(s.push(x)[s.len() as int] == y);
        }
    }
}

/// What `before_list` holds: exactly the in-range ids paired before `idx`.
pub proof fn lemma_before_list_contents(p: Seq<(usize, usize)>, idx: usize, max_tiles: usize)
    requires
        max_tiles <= u32::MAX,
    ensures
        forall|a: u32|
            #[trigger] before_list(p, idx, max_tiles).contains(a) <==> ((a as usize) < max_tiles
                && pair_in(p, a as usize, idx)),
    decreases p.len(),
{
    if p.len() == 0 {
        assert forall|a: u32|
            #[trigger] before_list(p, idx, max_tiles).contains(a) <==> ((a as usize) < max_tiles
                && pair_in(p, a as usize, idx)) by {
            if pair_in(p, a as usize, idx) {
                let k = choose|k: int| 0 <= k < p.len() && #[trigger] p[k] == (a as usize, idx);
            }
        }
    } else {
        let q = p.drop_last();
        lemma_before_list_contents(q, idx, max_tiles);
        let rest = before_list(q, idx, max_tiles);
        if p.last().1 == idx && p.last().0 < max_tiles {
            lemma_push_contains(rest, p.last().0 as u32);
        }
        assert forall|a: u32|
            #[trigger] before_list(p, idx, max_tiles).contains(a) implies ((a as usize)
            < max_tiles && pair_in(p, a as usize, idx)) by {
            if rest.contains(a) {
                let k = choose|k: int| 0 <= k < q.len() && #[trigger] q[k] == (a as usize, idx);
                assert(p[k] == (a as usize, idx));
            } else {
                assert(p.last() == (a as usize, idx));
                assert(p[p.len() - 1] == (a as usize, idx));
            }
        }
        assert forall|a: u32| ((a as usize) < max_tiles && pair_in(p, a as usize, idx))
            implies #[trigger] before_list(p, idx, max_tiles).contains(a) by {
            let k = choose|k: int| 0 <= k < p.len() && #[trigger] p[k] == (a as usize, idx);
            if k < p.len() - 1 {
                assert(q[k] == (a as usize, idx));
                assert(rest.contains(a));
            } else {
                assert(p.last() == (a as usize, idx));
            }
        }
    }
}

/// What `after_list` holds: exactly the in-range ids paired after `idx`.
pub proof fn lemma_after_list_contents(p: Seq<(usize, usize)>, idx: usize, max_tiles: usize)
    requires
        max_tiles <= u32::MAX,
    ensures
        forall|b: u32|
            #[trigger] after_list(p, idx, max_tiles).contains(b) <==> ((b as usize) < max_tiles
                && pair_in(p, idx, b as usize)),
    decreases p.len(),
{
    if p.len() == 0 {
        assert forall|b: u32|
            #[trigger] after_list(p, idx, max_tiles).contains(b) <==> ((b as usize) < max_tiles
                && pair_in(p, idx, b as usize)) by {
            if pair_in(p, idx, b as usize) {
                let k = choose|k: int| 0 <= k < p.len() && #[trigger] p[k] == (idx, b as usize);
            }
        }
    } else {
        let q = p.drop_last();
        lemma_after_list_contents(q, idx, max_tiles);
        let rest = after_list(q, idx, max_tiles);
        if p.last().0 == idx && p.last().1 < max_tiles {
            lemma_push_contains(rest, p.last().1 as u32);
        }
        assert forall|b: u32|
            #[trigger] after_list(p, idx, max_tiles).contains(b) implies ((b as usize) < max_tiles
            && pair_in(p, idx, b as usize)) by {
            if rest.contains(b) {
                let k = choose|k: int| 0 <= k < q.len() && #[trigger] q[k] == (idx, b as usize);
                assert(p[k] == (idx, b as usize));
            } else {
                assert(p.last() == (idx, b as usize));
                assert(p[p.len() - 1] == (idx, b as usize));
            }
        }
        assert forall|b: u32| ((b as usize) < max_tiles && pair_in(p, idx, b as usize))
            implies #[trigger] after_list(p, idx, max_tiles).contains(b) by {
            let k = choose|k: int| 0 <= k < p.len() && #[trigger] p[k] == (idx, b as usize);
            if k < p.len() - 1 {
                assert(q[k] == (idx, b as usize));
                assert(rest.contains(b));
            } else {
                assert(p.last() == (idx, b as usize));
            }
        }
    }
}

/// `a` sits in the base (pre-synthesis) north set of tile `i`: some pair
/// places `a` directly north of `i`, and `a` is in range.
pub open spec fn base_north(p: Pairs, max_tiles: usize, i: usize, a: usize) -> bool {
    a < max_tiles && pair_in(p.ns@, a, i)
}

pub open spec fn base_south(p: Pairs, max_tiles: usize, i: usize, b: usize) -> bool {
    b < max_tiles && pair_in(p.ns@, i, b)
}

pub open spec fn base_west(p: Pairs, max_tiles: usize, i: usize, a: usize) -> bool {
    a < max_tiles && pair_in(p.we@, a, i)
}

pub open spec fn base_east(p: Pairs, max_tiles: usize, i: usize, b: usize) -> bool {
    b < max_tiles && pair_in(p.we@, i, b)
}

pub open spec fn has_base_north(p: Pairs, max_tiles: usize, i: usize) -> bool {
    exists|a: usize| base_north(p, max_tiles, i, a)
}

pub open spec fn has_base_south(p: Pairs, max_tiles: usize, i: usize) -> bool {
    exists|b: usize| base_south(p, max_tiles, i, b)
}

pub open spec fn has_base_west(p: Pairs, max_tiles: usize, i: usize) -> bool {
    exists|a: usize| base_west(p, max_tiles, i, a)
}

pub open spec fn has_base_east(p: Pairs, max_tiles: usize, i: usize) -> bool {
    exists|b: usize| base_east(p, max_tiles, i, b)
}

/// The vertical axis has pairs but the horizontal axis has an empty
/// side: both horizontal sides are forced to exactly the tile itself.
pub open spec fn synth_horizontal(p: Pairs, max_tiles: usize, i: usize) -> bool {
    (has_base_north(p, max_tiles, i) || has_base_south(p, max_tiles, i))
        && (!has_base_west(p, max_tiles, i) || !has_base_east(p, max_tiles, i))
}

/// The mirrored rule: the horizontal axis has pairs but the vertical
/// axis has an empty side, so both vertical sides are forced to the tile
/// itself.
pub open spec fn synth_vertical(p: Pairs, max_tiles: usize, i: usize) -> bool {
    (has_base_west(p, max_tiles, i) || has_base_east(p, max_tiles, i))
        && (!has_base_north(p, max_tiles, i) || !has_base_south(p, max_tiles, i))
}

/// Tile with no pairs at all: every side defaults to self-only.
pub open spec fn isolated(p: Pairs, max_tiles: usize, i: usize) -> bool {
    !has_base_north(p, max_tiles, i) && !has_base_south(p, max_tiles, i)
        && !has_base_west(p, max_tiles, i) && !has_base_east(p, max_tiles, i)
}

/// Only the north base side of the tile is populated; the totality
/// fallback then fills the south side with the tile itself.
pub open spec fn lone_north(p: Pairs, max_tiles: usize, i: usize) -> bool {
    has_base_north(p, max_tiles, i) && !has_base_south(p, max_tiles, i) && !has_base_west(
        p,
        max_tiles,
        i,
    ) && !has_base_east(p, max_tiles, i)
}

pub open spec fn lone_south(p: Pairs, max_tiles: usize, i: usize) -> bool {
    has_base_south(p, max_tiles, i) && !has_base_north(p, max_tiles, i) && !has_base_west(
        p,
        max_tiles,
        i,
    ) && !has_base_east(p, max_tiles, i)
}

pub open spec fn lone_west(p: Pairs, max_tiles: usize, i: usize) -> bool {
    has_base_west(p, max_tiles, i) && !has_base_east(p, max_tiles, i) && !has_base_north(
        p,
        max_tiles,
        i,
    ) && !has_base_south(p, max_tiles, i)
}

pub open spec fn lone_east(p: Pairs, max_tiles: usize, i: usize) -> bool {
    has_base_east(p, max_tiles, i) && !has_base_west(p, max_tiles, i) && !has_base_north(
        p,
        max_tiles,
        i,
    ) && !has_base_south(p, max_tiles, i)
}

/// Membership of `a` in the final north set of tile `i`: exactly the
/// tile itself when the vertical axis was synthesized, the tile is
/// isolated, or only the south side had data; the base partners
/// otherwise.
pub open spec fn final_north(p: Pairs, max_tiles: usize, i: usize, a: usize) -> bool {
    if synth_vertical(p, max_tiles, i) || isolated(p, max_tiles, i) || lone_south(
        p,
        max_tiles,
        i,
    ) {
        a == i
    } else {
        base_north(p, max_tiles, i, a)
    }
}

pub open spec fn final_south(p: Pairs, max_tiles: usize, i: usize, b: usize) -> bool {
    if synth_vertical(p, max_tiles, i) || isolated(p, max_tiles, i) || lone_north(
        p,
        max_tiles,
        i,
    ) {
        b == i
    } else {
        base_south(p, max_tiles, i, b)
    }
}

pub open spec fn final_west(p: Pairs, max_tiles: usize, i: usize, a: usize) -> bool {
    if synth_horizontal(p, max_tiles, i) || isolated(p, max_tiles, i) || lone_east(
        p,
        max_tiles,
        i,
    ) {
        a == i
    } else {
        base_west(p, max_tiles, i, a)
    }
}

pub open spec fn final_east(p: Pairs, max_tiles: usize, i: usize, b: usize) -> bool {
    if synth_horizontal(p, max_tiles, i) || isolated(p, max_tiles, i) || lone_west(
        p,
        max_tiles,
        i,
    ) {
        b == i
    } else {
        base_east(p, max_tiles, i, b)
    }
}

/// The exact north list of tile `i`: `[i]` on a synthesized vertical
/// axis, an isolated tile, or a lone south side; the filtered base
/// partners in pair-list order otherwise.
pub open spec fn final_north_seq(p: Pairs, max_tiles: usize, i: usize) -> Seq<u32> {
    if synth_vertical(p, max_tiles, i) || isolated(p, max_tiles, i) || lone_south(
        p,
        max_tiles,
        i,
    ) {
        seq![i as u32]
    } else {
        before_list(p.ns@, i, max_tiles)
    }
}

pub open spec fn final_south_seq(p: Pairs, max_tiles: usize, i: usize) -> Seq<u32> {
    if synth_vertical(p, max_tiles, i) || isolated(p, max_tiles, i) || lone_north(
        p,
        max_tiles,
        i,
    ) {
        seq![i as u32]
    } else {
        after_list(p.ns@, i, max_tiles)
    }
}

pub open spec fn final_west_seq(p: Pairs, max_tiles: usize, i: usize) -> Seq<u32> {
    if synth_horizontal(p, max_tiles, i) || isolated(p, max_tiles, i) || lone_east(
        p,
        max_tiles,
        i,
    ) {
        seq![i as u32]
    } else {
        before_list(p.we@, i, max_tiles)
    }
}

pub open spec fn final_east_seq(p: Pairs, max_tiles: usize, i: usize) -> Seq<u32> {
    if synth_horizontal(p, max_tiles, i) || isolated(p, max_tiles, i) || lone_west(
        p,
        max_tiles,
        i,
    ) {
        seq![i as u32]
    } else {
        after_list(p.we@, i, max_tiles)
    }
}

/// The weight the compiler assigns to tile `i`.
pub open spec fn final_weight(p: Pairs, max_tiles: usize, i: usize) -> u32 {
    if synth_horizontal(p, max_tiles, i) || synth_vertical(p, max_tiles, i) {
        SYNTH_WEIGHT
    } else {
        DEFAULT_WEIGHT
    }
}

/// The compiled description of tile `i`: the four lists are pinned as
/// exact sequences, and their contents are characterized for callers
/// that reason by membership.
pub open spec fn describes(p: Pairs, max_tiles: usize, i: usize, pd: PatternDescription) -> bool {
    &&& pd.weight == final_weight(p, max_tiles, i)
    &&& pd.north@ == final_north_seq(p, max_tiles, i)
    &&& pd.east@ == final_east_seq(p, max_tiles, i)
    &&& pd.south@ == final_south_seq(p, max_tiles, i)
    &&& pd.west@ == final_west_seq(p, max_tiles, i)
    &&& forall|a: u32| pd.north@.contains(a) <==> final_north(p, max_tiles, i, a as usize)
    &&& forall|a: u32| pd.east@.contains(a) <==> final_east(p, max_tiles, i, a as usize)
    &&& forall|a: u32| pd.south@.contains(a) <==> final_south(p, max_tiles, i, a as usize)
    &&& forall|a: u32| pd.west@.contains(a) <==> final_west(p, max_tiles, i, a as usize)
}

/// Splits one axis's pair list for tile `idx`: the ids that may sit on
/// the lesser side of `idx` and the ids that may sit on its greater
/// side, in pair-list order with duplicates kept, dropping ids at or
/// above `max_tiles`.
pub fn to_vec(p: &Vec<(usize, usize)>, idx: usize, max_tiles: usize) -> (r: (Vec<u32>, Vec<u32>))
    requires
        max_tiles <= u32::MAX,
    ensures
        r.0@ == before_list(p@, idx, max_tiles),
        r.1@ == after_list(p@, idx, max_tiles),
        forall|a: u32|
            r.0@.contains(a) <==> ((a as usize) < max_tiles && pair_in(p@, a as usize, idx)),
        forall|b: u32|
            r.1@.contains(b) <==> ((b as usize) < max_tiles && pair_in(p@, idx, b as usize)),
{
    let mut before: Vec<u32> = Vec::new();
    let mut after: Vec<u32> = Vec::new();
    let mut k: usize = 0;
    proof {
        assert(p@.subrange(0, 0) =~= Seq::<(usize, usize)>::empty());
    }
    while k < p.len()
        invariant
            max_tiles <= u32::MAX,
            k <= p.len(),
            before@ == before_list(p@.subrange(0, k as int), idx, max_tiles),
            after@ == after_list(p@.subrange(0, k as int), idx, max_tiles),
        decreases p.len() - k,
    {
        proof {
            let cur = p@.subrange(0, k as int);
            let next = p@.subrange(0, k as int + 1);
            assert(next.drop_last() =~= cur);
            assert(next.last() == p@[k as int]);
        }
        let (a, b) = p[k];
        if b == idx && a < max_tiles {
            before.push(a as u32);
        }
        if a == idx && b < max_tiles {
            after.push(b as u32);
        }
        k += 1;
    }
    proof {
        assert(p@.subrange(0, p@.len() as int) =~= p@);
        lemma_before_list_contents(p@, idx, max_tiles);
        lemma_after_list_contents(p@, idx, max_tiles);
    }
    (before, after)
}

fn singleton(x: u32) -> (r: Vec<u32>)
    ensures
        r@ == seq![x],
        forall|y: u32| r@.contains(y) <==> y == x,
{
    let mut r: Vec<u32> = Vec::new();
    r.push(x);
    proof {
        assert(r@ =~= seq![x]);
        assert(r@[0] == x);
        assert forall|y: u32| r@.contains(y) implies y == x by {}
    }
    r
}

/// Compiles the rule table into one pattern per tile id in
/// `0..max_tiles`. An axis with pairs whose opposite axis has an empty
/// side forces that opposite axis to exactly the tile itself at the
/// deprioritized weight; a tile with no pairs at all is self-only on
/// every side at the default weight.
pub fn gen_patterns(pairs: &Pairs, max_tiles: usize) -> (r: Vec<PatternDescription>)
    requires
        max_tiles <= u32::MAX,
    ensures
        r@.len() == max_tiles,
        forall|i: int| 0 <= i < max_tiles
            ==> describes(*pairs, max_tiles, (i as usize), #[trigger] r@[i]),
{
    let mut patterns: Vec<PatternDescription> = Vec::new();
    let mut idx: usize = 0;
    while idx < max_tiles
        invariant
            max_tiles <= u32::MAX,
            idx <= max_tiles,
            patterns@.len() == idx,
            forall|i: int| 0 <= i < idx
                ==> describes(*pairs, max_tiles, (i as usize), #[trigger] patterns@[i]),
        decreases max_tiles - idx,
    {
        let (n_base, s_base) = to_vec(&pairs.ns, idx, max_tiles);
        let (w_base, e_base) = to_vec(&pairs.we, idx, max_tiles);
        let hn = n_base.len() > 0;
        let hs = s_base.len() > 0;
        let hw = w_base.len() > 0;
        let he = e_base.len() > 0;

        proof {
            assert(hn <==> has_base_north(*pairs, max_tiles, idx)) by {
                if n_base@.len() > 0 {
                    assert(n_base@.contains(n_base@[0]));
                    assert(base_north(*pairs, max_tiles, idx, n_base@[0] as usize));
                }
                if has_base_north(*pairs, max_tiles, idx) {
                    let a = choose|a: usize| base_north(*pairs, max_tiles, idx, a);
                    assert((a as u32) as usize == a);
                    assert(n_base@.contains(a as u32));
                }
            }
            assert(hs <==> has_base_south(*pairs, max_tiles, idx)) by {
                if s_base@.len() > 0 {
                    assert(s_base@.contains(s_base@[0]));
                    assert(base_south(*pairs, max_tiles, idx, s_base@[0] as usize));
                }
                if has_base_south(*pairs, max_tiles, idx) {
                    let b = choose|b: usize| base_south(*pairs, max_tiles, idx, b);
                    assert((b as u32) as usize == b);
                    assert(s_base@.contains(b as u32));
                }
            }
            assert(hw <==> has_base_west(*pairs, max_tiles, idx)) by {
                if w_base@.len() > 0 {
                    assert(w_base@.contains(w_base@[0]));
                    assert(base_west(*pairs, max_tiles, idx, w_base@[0] as usize));
                }
                if has_base_west(*pairs, max_tiles, idx) {
                    let a = choose|a: usize| base_west(*pairs, max_tiles, idx, a);
                    assert((a as u32) as usize == a);
                    assert(w_base@.contains(a as u32));
                }
            }
            assert(he <==> has_base_east(*pairs, max_tiles, idx)) by {
                if e_base@.len() > 0 {
                    assert(e_base@.contains(e_base@[0]));
                    assert(base_east(*pairs, max_tiles, idx, e_base@[0] as usize));
                }
                if has_base_east(*pairs, max_tiles, idx) {
                    let b = choose|b: usize| base_east(*pairs, max_tiles, idx, b);
                    assert((b as u32) as usize == b);
                    assert(e_base@.contains(b as u32));
                }
            }
        }

        let cond_h = (hn || hs) && (!hw || !he);
        let cond_v = (hw || he) && (!hn || !hs);
        let all_empty = !hn && !hs && !hw && !he;
        let only_n = hn && !hs && !hw && !he;
        let only_s = hs && !hn && !hw && !he;
        let only_w = hw && !he && !hn && !hs;
        let only_e = he && !hw && !hn && !hs;
        proof {
            assert(cond_h == synth_horizontal(*pairs, max_tiles, idx));
            assert(cond_v == synth_vertical(*pairs, max_tiles, idx));
            assert(all_empty == isolated(*pairs, max_tiles, idx));
            assert(only_n == lone_north(*pairs, max_tiles, idx));
            assert(only_s == lone_south(*pairs, max_tiles, idx));
            assert(only_w == lone_west(*pairs, max_tiles, idx));
            assert(only_e == lone_east(*pairs, max_tiles, idx));
        }

        let wt: u32 = if cond_h || cond_v {
            SYNTH_WEIGHT
        } else {
            DEFAULT_WEIGHT
        };
        // a synthesized or isolated axis becomes self-only; a side left
        // empty beside a populated partner side falls back to the tile
        // itself, keeping the compiler total
        let (n_fin, s_fin) = if cond_v || all_empty {
            (singleton(idx as u32), singleton(idx as u32))
        } else if only_s {
            (singleton(idx as u32), s_base)
        } else if only_n {
            (n_base, singleton(idx as u32))
        } else {
            (n_base, s_base)
        };
        let (w_fin, e_fin) = if cond_h || all_empty {
            (singleton(idx as u32), singleton(idx as u32))
        } else if only_e {
            (singleton(idx as u32), e_base)
        } else if only_w {
            (w_base, singleton(idx as u32))
        } else {
            (w_base, e_base)
        };

        let pd = PatternDescription { weight: wt, north: n_fin, east: e_fin, south: s_fin, west: w_fin };
        proof {
            let p = *pairs;
            assert((idx as u32) as usize == idx);
            assert(pd.north@ == final_north_seq(p, max_tiles, idx));
            assert(pd.south@ == final_south_seq(p, max_tiles, idx));
            assert(pd.west@ == final_west_seq(p, max_tiles, idx));
            assert(pd.east@ == final_east_seq(p, max_tiles, idx));
            assert forall|a: u32| pd.north@.contains(a) <==> final_north(
                p,
                max_tiles,
                idx,
                a as usize,
            ) by {
                assert((a as usize) == idx <==> a == idx as u32);
            }
            assert forall|a: u32| pd.south@.contains(a) <==> final_south(
                p,
                max_tiles,
                idx,
                a as usize,
            ) by {
                assert((a as usize) == idx <==> a == idx as u32);
            }
            assert forall|a: u32| pd.west@.contains(a) <==> final_west(
                p,
                max_tiles,
                idx,
                a as usize,
            ) by {
                assert((a as usize) == idx <==> a == idx as u32);
            }
            assert forall|a: u32| pd.east@.contains(a) <==> final_east(
                p,
                max_tiles,
                idx,
                a as usize,
            ) by {
                assert((a as usize) == idx <==> a == idx as u32);
            }
            assert(describes(p, max_tiles, idx, pd));
        }
        patterns.push(pd);
        idx += 1;
    }
    patterns
}

/// Strict variant: validates the rule table first and only then compiles,
/// surfacing out-of-range pairs or an out-of-range void tile instead of
/// silently accepting them.
pub fn gen_patterns_strict(pairs: &Pairs, max_tiles: usize) -> (r: Result<
    Vec<PatternDescription>,
    RuleError,
>)
    requires
        max_tiles <= u32::MAX,
    ensures
        r is Ok <==> (pairs_in_range(pairs.ns@, max_tiles) && pairs_in_range(
            pairs.we@,
            max_tiles,
        ) && pairs.null < max_tiles),
        r matches Ok(v) ==> v@.len() == max_tiles && forall|i: int|
            0 <= i < max_tiles ==> describes(*pairs, max_tiles, (i as usize), #[trigger] v@[i]),
{
    match pairs.validate(max_tiles) {
        Ok(()) => Ok(gen_patterns(pairs, max_tiles)),
        Err(e) => Err(e),
    }
}

/// Totality law of the pattern compiler: for every rule table, every
/// tile id below `max_tiles` gets a pattern whose four neighbour sets
/// are non-empty, reference only tile ids below `max_tiles`, and whose
/// weight is at least one.
pub proof fn lemma_pattern_compiler_total(
    pairs: Pairs,
    max_tiles: usize,
    r: Seq<PatternDescription>,
)
    requires
        max_tiles <= u32::MAX,
        r.len() == max_tiles,
        forall|i: int| 0 <= i < max_tiles ==> describes(pairs, max_tiles, (i as usize), #[trigger] r[i]),
    ensures
        forall|i: int| 0 <= i < max_tiles ==> (#[trigger] r[i]).weight >= 1,
        forall|i: int| 0 <= i < max_tiles ==> (#[trigger] r[i]).north@.len() > 0,
        forall|i: int| 0 <= i < max_tiles ==> (#[trigger] r[i]).east@.len() > 0,
        forall|i: int| 0 <= i < max_tiles ==> (#[trigger] r[i]).south@.len() > 0,
        forall|i: int| 0 <= i < max_tiles ==> (#[trigger] r[i]).west@.len() > 0,
        forall|i: int, t: int| 0 <= i < max_tiles && 0 <= t < r[i].north@.len()
            ==> (#[trigger] r[i].north@[t] as usize) < max_tiles,
        forall|i: int, t: int| 0 <= i < max_tiles && 0 <= t < r[i].east@.len()
            ==> (#[trigger] r[i].east@[t] as usize) < max_tiles,
        forall|i: int, t: int| 0 <= i < max_tiles && 0 <= t < r[i].south@.len()
            ==> (#[trigger] r[i].south@[t] as usize) < max_tiles,
        forall|i: int, t: int| 0 <= i < max_tiles && 0 <= t < r[i].west@.len()
            ==> (#[trigger] r[i].west@[t] as usize) < max_tiles,
{
    assert forall|i: int| 0 <= i < max_tiles implies (#[trigger] r[i]).north@.len() > 0
        && r[i].east@.len() > 0 && r[i].south@.len() > 0 && r[i].west@.len() > 0
        && r[i].weight >= 1 by {
        let iu = i as usize;
        lemma_pattern_sides_nonempty(pairs, max_tiles, iu, r[i]);
    }
    assert forall|i: int, t: int| 0 <= i < max_tiles && 0 <= t < r[i].north@.len()
        implies (#[trigger] r[i].north@[t] as usize) < max_tiles by {
        assert(r[i].north@.contains(r[i].north@[t]));
    }
    assert forall|i: int, t: int| 0 <= i < max_tiles && 0 <= t < r[i].east@.len()
        implies (#[trigger] r[i].east@[t] as usize) < max_tiles by {
        assert(r[i].east@.contains(r[i].east@[t]));
    }
    assert forall|i: int, t: int| 0 <= i < max_tiles && 0 <= t < r[i].south@.len()
        implies (#[trigger] r[i].south@[t] as usize) < max_tiles by {
        assert(r[i].south@.contains(r[i].south@[t]));
    }
    assert forall|i: int, t: int| 0 <= i < max_tiles && 0 <= t < r[i].west@.len()
        implies (#[trigger] r[i].west@[t] as usize) < max_tiles by {
        assert(r[i].west@.contains(r[i].west@[t]));
    }
}

proof fn lemma_pattern_sides_nonempty(pairs: Pairs, max_tiles: usize, i: usize, pd: PatternDescription)
    requires
        max_tiles <= u32::MAX,
        i < max_tiles,
        describes(pairs, max_tiles, i, pd),
    ensures
        pd.north@.len() > 0,
        pd.east@.len() > 0,
        pd.south@.len() > 0,
        pd.west@.len() > 0,
        pd.weight >= 1,
{
    let bn = has_base_north(pairs, max_tiles, i);
    let bs = has_base_south(pairs, max_tiles, i);
    let bw = has_base_west(pairs, max_tiles, i);
    let be = has_base_east(pairs, max_tiles, i);
    assert((i as u32) as usize == i);

    // north: self-filled unless north itself has base data
    if synth_vertical(pairs, max_tiles, i) || isolated(pairs, max_tiles, i) || lone_south(
        pairs,
        max_tiles,
        i,
    ) {
        assert(pd.north@.contains(i as u32));
    } else {
        assert(bn) by {
            if !bn {
                assert(!bw && !be);
                assert(bs || isolated(pairs, max_tiles, i));
                assert(lone_south(pairs, max_tiles, i));
            }
        }
        let a = choose|a: usize| base_north(pairs, max_tiles, i, a);
        assert((a as u32) as usize == a);
        assert(final_north(pairs, max_tiles, i, a));
        assert(pd.north@.contains(a as u32));
    }

    // south
    if synth_vertical(pairs, max_tiles, i) || isolated(pairs, max_tiles, i) || lone_north(
        pairs,
        max_tiles,
        i,
    ) {
        assert(pd.south@.contains(i as u32));
    } else {
        assert(bs) by {
            if !bs {
                assert(!bw && !be);
                assert(bn || isolated(pairs, max_tiles, i));
                assert(lone_north(pairs, max_tiles, i));
            }
        }
        let b = choose|b: usize| base_south(pairs, max_tiles, i, b);
        assert((b as u32) as usize == b);
        assert(final_south(pairs, max_tiles, i, b));
        assert(pd.south@.contains(b as u32));
    }

    // west
    if synth_horizontal(pairs, max_tiles, i) || isolated(pairs, max_tiles, i) || lone_east(
        pairs,
        max_tiles,
        i,
    ) {
        assert(pd.west@.contains(i as u32));
    } else {
        assert(bw) by {
            if !bw {
                assert(!bn && !bs);
                assert(be || isolated(pairs, max_tiles, i));
                assert(lone_east(pairs, max_tiles, i));
            }
        }
        let a = choose|a: usize| base_west(pairs, max_tiles, i, a);
        assert((a as u32) as usize == a);
        assert(final_west(pairs, max_tiles, i, a));
        assert(pd.west@.contains(a as u32));
    }

    // east
    if synth_horizontal(pairs, max_tiles, i) || isolated(pairs, max_tiles, i) || lone_west(
        pairs,
        max_tiles,
        i,
    ) {
        assert(pd.east@.contains(i as u32));
    } else {
        assert(be) by {
            if !be {
                assert(!bn && !bs);
                assert(bw || isolated(pairs, max_tiles, i));
                assert(lone_west(pairs, max_tiles, i));
            }
        }
        let b = choose|b: usize| base_east(pairs, max_tiles, i, b);
        assert((b as u32) as usize == b);
        assert(final_east(pairs, max_tiles, i, b));
        assert(pd.east@.contains(b as u32));
    }
}

} // verus!
