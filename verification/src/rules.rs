//! The adjacency rule table: which tile may sit north/west of which, the
//! walkable tile set, and the designated "void" tile.

use vstd::prelude::*;

verus! {

/// Adjacency rule table. A pair `(a, b)` in `ns` means tile `a` may sit
/// directly north of tile `b`; a pair `(a, b)` in `we` means `a` may sit
/// directly west of `b`. `walkable` lists the passable tile ids and `null`
/// is the void tile written over pruned cells.
#[derive(Clone, Debug)]
pub struct Pairs {
    pub ns: Vec<(usize, usize)>,
    pub we: Vec<(usize, usize)>,
    pub walkable: Vec<usize>,
    pub null: usize,
}

/// `(a, b)` occurs in the pair list.
pub open spec fn pair_in(s: Seq<(usize, usize)>, a: usize, b: usize) -> bool {
    exists|k: int| 0 <= k < s.len() && #[trigger] s[k] == (a, b)
}

/// The rule table marks this tile id walkable.
pub open spec fn walkable_id(p: Pairs, id: usize) -> bool {
    p.walkable@.contains(id)
}

/// Every tile id referenced by a pair list lies below `max_tiles`.
pub open spec fn pairs_in_range(s: Seq<(usize, usize)>, max_tiles: usize) -> bool {
    forall|k: int| 0 <= k < s.len() ==> (#[trigger] s[k]).0 < max_tiles && s[k].1 < max_tiles
}

/// Ways a rule table can be rejected.
#[derive(Clone, Copy, Debug, PartialEq, Eq, Structural)]
pub enum RuleError {
    /// A pair references a tile id at or above `max_tiles`.
    TileOutOfRange,
}

impl Pairs {
    pub fn new(ns: Vec<(usize, usize)>, we: Vec<(usize, usize)>, walkable: Vec<usize>, null: usize) -> (r: Pairs)
        ensures
            r.ns@ == ns@ && r.we@ == we@ && r.walkable@ == walkable@ && r.null == null,
    {
        Pairs { ns, we, walkable, null }
    }

    /// Does the table mark `id` walkable?
    pub fn is_walkable(&self, id: usize) -> (r: bool)
        ensures
            r == walkable_id(*self, id),
    {
        let mut k: usize = 0;
        while k < self.walkable.len()
            invariant
                k <= self.walkable.len(),
                forall|j: int| 0 <= j < k ==> self.walkable@[j] != id,
            decreases self.walkable.len() - k,
        {
            if self.walkable[k] == id {
                return true;
            }
            k += 1;
        }
        false
    }

    /// Strict validation: rejects a table whose pairs or void tile
    /// reference tile ids at or above `max_tiles` instead of silently
    /// dropping them.
    pub fn validate(&self, max_tiles: usize) -> (r: Result<(), RuleError>)
        ensures
            r is Ok <==> (pairs_in_range(self.ns@, max_tiles) && pairs_in_range(self.we@, max_tiles)
                && self.null < max_tiles),
    {
        if self.null >= max_tiles {
            return Err(RuleError::TileOutOfRange);
        }
        if !list_in_range(&self.ns, max_tiles) {
            return Err(RuleError::TileOutOfRange);
        }
        if !list_in_range(&self.we, max_tiles) {
            return Err(RuleError::TileOutOfRange);
        }
        Ok(())
    }
}

fn list_in_range(s: &Vec<(usize, usize)>, max_tiles: usize) -> (r: bool)
    ensures
        r == pairs_in_range(s@, max_tiles),
{
    let mut k: usize = 0;
    while k < s.len()
        invariant
            k <= s.len(),
            forall|j: int| 0 <= j < k ==> (#[trigger] s@[j]).0 < max_tiles && s@[j].1 < max_tiles,
        decreases s.len() - k,
    {
        let (a, b) = s[k];
        if a >= max_tiles || b >= max_tiles {
            return false;
        }
        k += 1;
    }
    true
}

} // verus!
