//! The wave-function-collapse engine: a grid of per-cell possibility
//! sets, narrowed by constraint propagation after every forced or random
//! collapse, with contradiction detection and a bounded retry driver.

use crate::field::count_trues;
use crate::geom::{cell_index, in_bounds, MAX_DIM};
use crate::pattern::PatternDescription;
use vstd::prelude::*;

verus! {

/// Largest pattern count the solver accepts.
pub const MAX_PATTERNS: usize = 16384;

/// Direction indices used by the propagation step, in the pattern
/// table's order: north, east, south, west.
pub const DIR_NORTH: usize = 0;

pub const DIR_EAST: usize = 1;

pub const DIR_SOUTH: usize = 2;

pub const DIR_WEST: usize = 3;

/// Pattern `q` may sit in direction `d` of pattern `pd`.
pub open spec fn allows(pd: PatternDescription, d: int, q: u32) -> bool {
    if d == 0 {
        pd.north@.contains(q)
    } else if d == 1 {
        pd.east@.contains(q)
    } else if d == 2 {
        pd.south@.contains(q)
    } else {
        pd.west@.contains(q)
    }
}

/// A usable pattern table: non-empty, bounded, all weights positive.
pub open spec fn patterns_wf(ps: Seq<PatternDescription>) -> bool {
    &&& 1 <= ps.len() <= MAX_PATTERNS
    &&& forall|p: int| 0 <= p < ps.len() ==> (#[trigger] ps[p]).weight >= 1
}

/// A one-pattern table whose single pattern tolerates itself on every
/// side: the degenerate case on which solving cannot fail, whatever the
/// random draws.
pub open spec fn sole_pattern(ps: Seq<PatternDescription>) -> bool {
    &&& ps.len() == 1
    &&& allows(ps[0], 0, 0u32)
    &&& allows(ps[0], 1, 0u32)
    &&& allows(ps[0], 2, 0u32)
    &&& allows(ps[0], 3, 0u32)
}

fn list_contains(v: &Vec<u32>, q: u32) -> (r: bool)
    ensures
        r == v@.contains(q),
{
    let mut k: usize = 0;
    while k < v.len()
        invariant
            k <= v.len(),
            forall|j: int| 0 <= j < k ==> v@[j] != q,
        decreases v.len() - k,
    {
        if v[k] == q {
            return true;
        }
        k += 1;
    }
    false
}

/// Does pattern `pd` allow `q` in direction `d`?
fn allowed(pd: &PatternDescription, d: usize, q: u32) -> (r: bool)
    requires
        d < 4,
    ensures
        r == allows(*pd, d as int, q),
{
    if d == 0 {
        list_contains(&pd.north, q)
    } else if d == 1 {
        list_contains(&pd.east, q)
    } else if d == 2 {
        list_contains(&pd.south, q)
    } else {
        list_contains(&pd.west, q)
    }
}

/// The solver's grid of possibility sets, one boolean per cell and
/// pattern, stored row-major cell by cell.
pub struct Wave {
    pub width: usize,
    pub height: usize,
    pub np: usize,
    pub cells: Vec<bool>,
}

impl Wave {
    pub open spec fn wf(self) -> bool {
        &&& 1 <= self.width <= MAX_DIM
        &&& 1 <= self.height <= MAX_DIM
        &&& 1 <= self.np <= MAX_PATTERNS
        &&& self.cells@.len() == self.width * self.height * self.np
    }

    /// Number of grid cells.
    pub open spec fn n_cells(self) -> int {
        self.width * self.height
    }

    /// Pattern `q` is still possible at cell `i`.
    pub open spec fn possible(self, i: int, q: int) -> bool {
        self.cells@[i * self.np + q]
    }

    /// Same grid shape and pattern count.
    pub open spec fn same_shape(self, other: Wave) -> bool {
        self.width == other.width && self.height == other.height && self.np == other.np
    }

    proof fn lemma_flat_bound(self, i: int, q: int)
        requires
            self.wf(),
            0 <= i < self.n_cells(),
            0 <= q < self.np,
        ensures
            0 <= i * self.np + q < self.cells@.len(),
            self.cells@.len() <= 0x4000_0000,
    {
        let np = self.np as int;
        let n = self.n_cells();
        assert(0 <= i * np + q < n * np) by (nonlinear_arith)
            requires 1 <= np && 0 <= i < n && 0 <= q < np;
        assert(n * np == self.width * self.height * np) by (nonlinear_arith)
            requires n == self.width * self.height;
        assert(self.width * self.height * np <= 0x4000_0000) by (nonlinear_arith)
            requires 1 <= self.width <= 256 && 1 <= self.height <= 256 && 1 <= np <= 16384;
    }

    proof fn lemma_flat_injective(self, i1: int, q1: int, i2: int, q2: int)
        requires
            self.wf(),
            0 <= i1 < self.n_cells(),
            0 <= q1 < self.np,
            0 <= i2 < self.n_cells(),
            0 <= q2 < self.np,
            i1 * self.np + q1 == i2 * self.np + q2,
        ensures
            i1 == i2 && q1 == q2,
    {
        let np = self.np as int;
        assert(i1 * np + q1 == i2 * np + q2 ==> i1 == i2 && q1 == q2) by (nonlinear_arith)
            requires 1 <= np && 0 <= q1 < np && 0 <= q2 < np && 0 <= i1 && 0 <= i2;
    }

    /// A fresh wave: every pattern possible in every cell.
    pub fn new(width: usize, height: usize, np: usize) -> (r: Wave)
        requires
            1 <= width <= MAX_DIM,
            1 <= height <= MAX_DIM,
            1 <= np <= MAX_PATTERNS,
        ensures
            r.wf(),
            r.width == width && r.height == height && r.np == np,
            forall|i: int, q: int|
                0 <= i < r.n_cells() && 0 <= q < np ==> r.possible(i, q),
    {
        proof {
            assert(width * height * np <= 0x4000_0000 && width * height * np >= 0)
                by (nonlinear_arith)
                requires 1 <= width <= 256 && 1 <= height <= 256 && 1 <= np <= 16384;
            assert((width * height) * np == width * height * np) by (nonlinear_arith);
            assert(width * height <= 0x10000) by (nonlinear_arith)
                requires 1 <= width <= 256 && 1 <= height <= 256;
        }
        let wh = width * height;
        let total = wh * np;
        let mut cells: Vec<bool> = Vec::new();
        let mut k: usize = 0;
        while k < total
            invariant
                k <= total,
                cells@.len() == k,
                forall|j: int| 0 <= j < k ==> cells@[j],
            decreases total - k,
        {
            cells.push(true);
            k += 1;
        }
        let r = Wave { width, height, np, cells };
        proof {
            assert forall|i: int, q: int|
                0 <= i < r.n_cells() && 0 <= q < np implies r.possible(i, q) by {
                r.lemma_flat_bound(i, q);
            }
        }
        r
    }

    /// Row-major index of an in-bounds cell.
    pub fn idx_of(&self, x: usize, y: usize) -> (r: usize)
        requires
            self.wf(),
            x < self.width,
            y < self.height,
        ensures
            r == y * self.width + x,
            r < self.n_cells(),
    {
        proof {
            let w = self.width as int;
            let h = self.height as int;
            let xi = x as int;
            let yi = y as int;
            assert(0 <= yi * w + xi < w * h) by (nonlinear_arith)
                requires w >= 1 && h >= 1 && 0 <= xi < w && 0 <= yi < h;
            assert(w * h <= 0x10000) by (nonlinear_arith)
                requires 1 <= w <= 256 && 1 <= h <= 256;
        }
        y * self.width + x
    }

    /// Is pattern `q` still possible at cell `i`?
    pub fn is_possible(&self, i: usize, q: usize) -> (r: bool)
        requires
            self.wf(),
            i < self.n_cells(),
            q < self.np,
        ensures
            r == self.possible(i as int, q as int),
    {
        proof {
            self.lemma_flat_bound(i as int, q as int);
        }
        self.cells[i * self.np + q]
    }

    fn clear(&mut self, i: usize, q: usize)
        requires
            old(self).wf(),
            i < old(self).n_cells(),
            q < old(self).np,
        ensures
            final(self).wf(),
            final(self).same_shape(*old(self)),
            forall|i2: int, q2: int|
                0 <= i2 < old(self).n_cells() && 0 <= q2 < old(self).np ==> final(self).possible(
                    i2,
                    q2,
                ) == (old(self).possible(i2, q2) && !(i2 == i && q2 == q)),
    {
        proof {
            self.lemma_flat_bound(i as int, q as int);
        }
        let flat = i * self.np + q;
        self.cells.set(flat, false);
        proof {
            assert forall|i2: int, q2: int|
                0 <= i2 < old(self).n_cells() && 0 <= q2 < old(self).np implies self.possible(
                i2,
                q2,
            ) == (old(self).possible(i2, q2) && !(i2 == i && q2 == q)) by {
                old(self).lemma_flat_bound(i2, q2);
                if i2 * old(self).np + q2 == flat {
                    old(self).lemma_flat_injective(i2, q2, i as int, q as int);
                }
            }
        }
    }

    /// The possibility flags of cell `i` for patterns `0..upto`.
    pub open spec fn possible_row(self, i: int, upto: nat) -> Seq<bool> {
        Seq::new(upto, |q: int| self.possible(i, q))
    }

    /// How many patterns are still possible at cell `i`.
    pub open spec fn candidate_count(self, i: int) -> int {
        count_trues(self.possible_row(i, self.np as nat))
    }

    /// Count of patterns still possible at cell `i` (the cell's entropy).
    pub fn count_candidates(&self, i: usize) -> (r: usize)
        requires
            self.wf(),
            i < self.n_cells(),
        ensures
            r == self.candidate_count(i as int),
            (r == 0) <==> (forall|q: int| 0 <= q < self.np ==> !self.possible(i as int, q)),
    {
        let mut count: usize = 0;
        let mut q: usize = 0;
        proof {
            crate::field::lemma_count_trues_empty(self.possible_row(i as int, 0));
        }
        while q < self.np
            invariant
                self.wf(),
                i < self.n_cells(),
                q <= self.np,
                count <= q,
                count == count_trues(self.possible_row(i as int, q as nat)),
                (count == 0) <==> (forall|q2: int| 0 <= q2 < q ==> !self.possible(i as int, q2)),
            decreases self.np - q,
        {
            proof {
                let cur = self.possible_row(i as int, q as nat);
                let next = self.possible_row(i as int, (q + 1) as nat);
                assert(next.drop_last() =~= cur);
                assert(next.last() == self.possible(i as int, q as int));
            }
            if self.is_possible(i, q) {
                count += 1;
            }
            q += 1;
        }
        count
    }

    /// The lowest-numbered pattern still possible at cell `i`.
    pub fn first_candidate(&self, i: usize) -> (r: Option<u32>)
        requires
            self.wf(),
            i < self.n_cells(),
        ensures
            r matches Some(q) ==> q < self.np && self.possible(i as int, q as int),
            r is None ==> forall|q: int| 0 <= q < self.np ==> !self.possible(i as int, q),
    {
        let mut q: usize = 0;
        while q < self.np
            invariant
                self.wf(),
                i < self.n_cells(),
                q <= self.np,
                forall|q2: int| 0 <= q2 < q ==> !self.possible(i as int, q2),
            decreases self.np - q,
        {
            if self.is_possible(i, q) {
                return Some(q as u32);
            }
            q += 1;
        }
        None
    }
}

impl Wave {
    /// A copy of one cell's possibility row.
    fn row(&self, i: usize) -> (r: Vec<bool>)
        requires
            self.wf(),
            i < self.n_cells(),
        ensures
            r@.len() == self.np,
            forall|q: int| 0 <= q < self.np ==> r@[q] == self.possible(i as int, q),
    {
        let mut r: Vec<bool> = Vec::new();
        let mut q: usize = 0;
        while q < self.np
            invariant
                self.wf(),
                i < self.n_cells(),
                q <= self.np,
                r@.len() == q,
                forall|q2: int| 0 <= q2 < q ==> r@[q2] == self.possible(i as int, q2),
            decreases self.np - q,
        {
            let b = self.is_possible(i, q);
            r.push(b);
            q += 1;
        }
        r
    }

    /// Removes from cell `tgt` every pattern no candidate of `src_row`
    /// allows in direction `d`; reports whether anything was removed.
    /// Only unsupported candidates of `tgt` go; every other cell is left
    /// untouched, and `changed` holds exactly when the wave mutated.
    fn filter_cell(
        &mut self,
        patterns: &Vec<PatternDescription>,
        src_row: &Vec<bool>,
        d: usize,
        tgt: usize,
    ) -> (changed: bool)
        requires
            old(self).wf(),
            old(self).np == patterns@.len(),
            src_row@.len() == old(self).np,
            d < 4,
            tgt < old(self).n_cells(),
        ensures
            final(self).wf(),
            shrinks(*final(self), *old(self)),
            forall|q2: int|
                0 <= q2 < old(self).np && old(self).possible(tgt as int, q2) && (exists|p2: int|
                    0 <= p2 < old(self).np && #[trigger] src_row@[p2] && allows(
                        patterns@[p2],
                        d as int,
                        q2 as u32,
                    )) ==> final(self).possible(tgt as int, #[trigger] (q2 + 0)),
            forall|i2: int, q2: int|
                0 <= i2 < old(self).n_cells() && 0 <= q2 < old(self).np && i2 != tgt
                    ==> final(self).possible(i2, q2) == old(self).possible(i2, q2),
            changed <==> final(self).cells@ != old(self).cells@,
    {
        let np = self.np;
        let mut q: usize = 0;
        let mut changed = false;
        let ghost entry = *self;
        let ghost mut wq: int = 0;
        while q < np
            invariant
                self.wf(),
                self.same_shape(entry),
                self.np == np,
                self.np == patterns@.len(),
                src_row@.len() == np,
                d < 4,
                tgt < self.n_cells(),
                q <= np,
                shrinks(*self, entry),
                forall|q2: int|
                    0 <= q2 < np && entry.possible(tgt as int, q2) && (exists|p2: int|
                        0 <= p2 < np && #[trigger] src_row@[p2] && allows(
                            patterns@[p2],
                            d as int,
                            q2 as u32,
                        )) ==> self.possible(tgt as int, #[trigger] (q2 + 0)),
                forall|i2: int, q2: int|
                    0 <= i2 < entry.n_cells() && 0 <= q2 < np && i2 != tgt ==> self.possible(
                        i2,
                        q2,
                    ) == entry.possible(i2, q2),
                !changed ==> *self == entry,
                changed ==> 0 <= wq < np && entry.possible(tgt as int, wq) && !self.possible(
                    tgt as int,
                    wq,
                ),
            decreases np - q,
        {
            if self.is_possible(tgt, q) {
                // keep q only if some pattern still possible at the
                // source allows it in direction d
                let mut p: usize = 0;
                let mut supported = false;
                while p < np
                    invariant
                        np == patterns@.len(),
                        src_row@.len() == np,
                        d < 4,
                        p <= np,
                        q < np,
                        !supported ==> forall|p2: int|
                            0 <= p2 < p ==> !(#[trigger] src_row@[p2] && allows(
                                patterns@[p2],
                                d as int,
                                q as u32,
                            )),
                    ensures
                        supported || p >= np,
                    decreases np - p,
                {
                    if src_row[p] && allowed(&patterns[p], d, q as u32) {
                        supported = true;
                        break;
                    }
                    p += 1;
                }
                if !supported {
                    let ghost pre = *self;
                    proof {
                        assert(forall|p2: int|
                            0 <= p2 < np ==> !(#[trigger] src_row@[p2] && allows(
                                patterns@[p2],
                                d as int,
                                q as u32,
                            )));
                    }
                    self.clear(tgt, q);
                    changed = true;
                    proof {
                        wq = q as int;
                        lemma_shrinks_trans(*self, pre, entry);
                        assert forall|q2: int|
                            0 <= q2 < np && entry.possible(tgt as int, q2) && (exists|p2: int|
                                0 <= p2 < np && #[trigger] src_row@[p2] && allows(
                                    patterns@[p2],
                                    d as int,
                                    q2 as u32,
                                )) implies self.possible(tgt as int, #[trigger] (q2 + 0)) by {
                            if q2 == q as int {
                                let p2 = choose|p2: int|
                                    0 <= p2 < np && #[trigger] src_row@[p2] && allows(
                                        patterns@[p2],
                                        d as int,
                                        q2 as u32,
                                    );
                                assert(false);
                            } else {
                                assert(pre.possible(tgt as int, q2 + 0));
                            }
                        }
                    }
                }
            }
            q += 1;
        }
        proof {
            if changed {
                entry.lemma_flat_bound(tgt as int, wq);
                assert(self.cells@[tgt as int * np + wq] != entry.cells@[tgt as int * np + wq]);
            }
        }
        changed
    }

    /// Constraint propagation from the cells on the worklist, in the
    /// AC-3 style: whenever a cell's set shrinks, its neighbours are
    /// re-filtered. Returns `false` on contradiction (an emptied cell) or
    /// when the conservative work bound runs out; on success no cell has
    /// been emptied, and a self-adjacent sole pattern is left everywhere.
    fn propagate(&mut self, patterns: &Vec<PatternDescription>, start: usize) -> (ok: bool)
        requires
            old(self).wf(),
            old(self).np == patterns@.len(),
            start < old(self).n_cells(),
        ensures
            final(self).wf(),
            shrinks(*final(self), *old(self)),
            ok ==> forall|i2: int|
                0 <= i2 < old(self).n_cells() && cell_nonempty(*old(self), i2) ==> cell_nonempty(
                    *final(self),
                    #[trigger] (i2 + 0),
                ),
            (sole_pattern(patterns@) && all_possible_sole(*old(self))) ==> (ok
                && final(self).cells@ == old(self).cells@),
    {
        let ghost entry = *self;
        let ghost hsole = sole_pattern(patterns@) && all_possible_sole(entry);
        let mut worklist: Vec<usize> = Vec::new();
        worklist.push(start);
        // each candidate removal re-queues at most four neighbours and
        // there are at most 2^30 candidates, so this bound is never
        // reached on a consistent run
        let mut fuel: u64 = 0x5_0000_0000;
        while worklist.len() > 0
            invariant
                entry == *old(self),
                hsole == (sole_pattern(patterns@) && all_possible_sole(entry)),
                self.wf(),
                self.np == patterns@.len(),
                shrinks(*self, entry),
                forall|j: int| 0 <= j < worklist@.len() ==> #[trigger] worklist@[j] < self.n_cells(),
                forall|i2: int|
                    0 <= i2 < entry.n_cells() && cell_nonempty(entry, i2) ==> cell_nonempty(
                        *self,
                        #[trigger] (i2 + 0),
                    ),
                hsole ==> (self.cells@ == entry.cells@ && fuel as int >= worklist@.len()),
            decreases fuel,
        {
            if fuel == 0 {
                proof {
                    if hsole {
                        assert(false);
                    }
                }
                return false;
            }
            fuel -= 1;
            let ghost wl0 = worklist@;
            let c = match worklist.pop() {
                Some(c) => c,
                None => {
                    return false;
                },
            };
            proof {
                assert(c == wl0[wl0.len() - 1]);
                assert(wl0[wl0.len() - 1] < self.n_cells());
            }
            let x = c % self.width;
            let y = c / self.width;
            proof {
                let w = self.width as int;
                let h = self.height as int;
                let ci = c as int;
                assert(0 <= ci % w < w && 0 <= ci / w < h && (ci / w) * w + ci % w
                    == ci) by (nonlinear_arith)
                    requires w >= 1 && h >= 1 && 0 <= ci && ci < w * h;
            }
            let src_row = self.row(c);
            proof {
                if hsole {
                    assert(entry.possible(c as int, 0));
                    assert(self.possible(c as int, 0));
                    assert(src_row@[0]);
                }
            }
            let mut d: usize = 0;
            while d < 4
                invariant
                    entry == *old(self),
                    hsole == (sole_pattern(patterns@) && all_possible_sole(entry)),
                    self.wf(),
                    self.np == patterns@.len(),
                    shrinks(*self, entry),
                    src_row@.len() == self.np,
                    c < self.n_cells(),
                    hsole ==> src_row@[0],
                    forall|j: int|
                        0 <= j < worklist@.len() ==> #[trigger] worklist@[j] < self.n_cells(),
                    forall|i2: int|
                        0 <= i2 < entry.n_cells() && cell_nonempty(entry, i2) ==> cell_nonempty(
                            *self,
                            #[trigger] (i2 + 0),
                        ),
                    hsole ==> (self.cells@ == entry.cells@ && fuel as int >= worklist@.len()),
                    x < self.width,
                    y < self.height,
                    d <= 4,
                decreases 4 - d,
            {
                let (dx, dy): (i64, i64) = if d == 0 {
                    (0, -1)
                } else if d == 1 {
                    (1, 0)
                } else if d == 2 {
                    (0, 1)
                } else {
                    (-1, 0)
                };
                let tx = x as i64 + dx;
                let ty = y as i64 + dy;
                if tx >= 0 && ty >= 0 && tx < self.width as i64 && ty < self.height as i64 {
                    let tgt = self.idx_of(tx as usize, ty as usize);
                    let ghost pre = *self;
                    let changed = self.filter_cell(patterns, &src_row, d, tgt);
                    proof {
                        lemma_shrinks_trans(*self, pre, entry);
                        // cells that were non-empty stay non-empty unless
                        // the filtered target was emptied, which the
                        // count check below turns into a failure
                        if hsole {
                            // the sole pattern supports itself at the
                            // target, so nothing was removed
                            assert(entry.possible(tgt as int, 0));
                            assert(pre.cells@ == entry.cells@ && pre.np == entry.np);
                            assert(pre.possible(tgt as int, 0));
                            assert(src_row@[0] && allows(patterns@[0], d as int, 0u32));
                            assert(self.possible(tgt as int, 0int + 0));
                            assert forall|i2: int, q2: int|
                                0 <= i2 < self.n_cells() && 0 <= q2 < self.np implies self.possible(
                                i2,
                                q2,
                            ) == pre.possible(i2, q2) by {
                                if i2 == tgt as int {
                                    assert(q2 == 0);
                                }
                            }
                            assert forall|k: int|
                                0 <= k < self.cells@.len() implies self.cells@[k] == pre.cells@[k]
                                by {
                                let np1 = self.np as int;
                                let ik = k / np1;
                                let qk = k % np1;
                                assert(0 <= qk < np1 && ik * np1 + qk == k && 0 <= ik)
                                    by (nonlinear_arith)
                                    requires np1 >= 1 && 0 <= k && ik == k / np1 && qk == k % np1;
                                assert(ik < self.n_cells()) by (nonlinear_arith)
                                    requires
                                        np1 >= 1 && ik * np1 + qk == k && 0 <= qk < np1 && k
                                            < self.n_cells() * np1 && 0 <= ik;
                                assert(self.possible(ik, qk) == pre.possible(ik, qk));
                            }
                            assert(self.cells@ =~= pre.cells@);
                            assert(!changed);
                        }
                    }
                    if changed {
                        if self.count_candidates(tgt) == 0 {
                            return false;
                        }
                        proof {
                            assert(cell_nonempty(*self, tgt as int));
                            assert forall|i2: int|
                                0 <= i2 < entry.n_cells() && cell_nonempty(entry, i2)
                                implies cell_nonempty(*self, #[trigger] (i2 + 0)) by {
                                if i2 != tgt as int {
                                    assert(cell_nonempty(pre, i2 + 0));
                                    let q2 = choose|q2: int|
                                        0 <= q2 < pre.np && #[trigger] pre.possible(i2, q2);
                                    assert(self.possible(i2, q2));
                                }
                            }
                        }
                        worklist.push(tgt);
                    } else {
                        proof {
                            assert(self.cells@ == pre.cells@);
                            assert forall|i2: int|
                                0 <= i2 < entry.n_cells() && cell_nonempty(entry, i2)
                                implies cell_nonempty(*self, #[trigger] (i2 + 0)) by {
                                assert(cell_nonempty(pre, i2 + 0));
                                let q2 = choose|q2: int|
                                    0 <= q2 < pre.np && #[trigger] pre.possible(i2, q2);
                                assert(self.possible(i2, q2) == pre.possible(i2, q2));
                            }
                        }
                    }
                }
                d += 1;
            }
        }
        true
    }

    /// Restricts cell `i` to the single pattern `q` and propagates the
    /// consequence exactly like an ordinary collapse. Returns `false` on
    /// contradiction, including when `q` was no longer possible at `i`;
    /// on success the pin itself is still possible and no cell of the
    /// wave has been emptied.
    pub fn forbid_all_patterns_except(&mut self, i: usize, q: u32, patterns: &Vec<
        PatternDescription,
    >) -> (ok: bool)
        requires
            old(self).wf(),
            old(self).np == patterns@.len(),
            i < old(self).n_cells(),
            q < old(self).np,
        ensures
            final(self).wf(),
            shrinks(*final(self), *old(self)),
            ok ==> forall|q2: int|
                0 <= q2 < final(self).np && #[trigger] final(self).possible(i as int, q2) ==> q2
                    == q,
            ok ==> final(self).possible(i as int, q as int),
            ok ==> forall|i2: int|
                0 <= i2 < old(self).n_cells() && cell_nonempty(*old(self), i2) ==> cell_nonempty(
                    *final(self),
                    #[trigger] (i2 + 0),
                ),
            (sole_pattern(patterns@) && all_possible_sole(*old(self))) ==> (ok
                && all_possible_sole(*final(self))),
    {
        let ghost entry = *self;
        let ghost hsole = sole_pattern(patterns@) && all_possible_sole(entry);
        proof {
            if hsole {
                assert(entry.possible(i as int, 0));
            }
        }
        if !self.is_possible(i, q as usize) {
            return false;
        }
        let np = self.np;
        let mut q2: usize = 0;
        while q2 < np
            invariant
                entry == *old(self),
                hsole == (sole_pattern(patterns@) && all_possible_sole(entry)),
                self.wf(),
                self.same_shape(entry),
                self.np == np,
                self.np == patterns@.len(),
                i < self.n_cells(),
                q < np,
                q2 <= np,
                shrinks(*self, entry),
                self.possible(i as int, q as int),
                forall|q3: int| 0 <= q3 < q2 && q3 != q ==> !self.possible(i as int, q3),
                forall|i2: int, q3: int|
                    0 <= i2 < entry.n_cells() && 0 <= q3 < np && i2 != i ==> self.possible(i2, q3)
                        == entry.possible(i2, q3),
                hsole ==> self.cells@ == entry.cells@,
            decreases np - q2,
        {
            if q2 as u32 != q {
                let ghost pre = *self;
                proof {
                    if hsole {
                        assert(q2 == 0 && q == 0);
                        assert(false);
                    }
                }
                self.clear(i, q2);
                proof {
                    lemma_shrinks_trans(*self, pre, entry);
                }
            }
            q2 += 1;
        }
        let ghost restricted = *self;
        proof {
            assert(cell_nonempty(restricted, i as int));
            assert forall|i2: int|
                0 <= i2 < entry.n_cells() && cell_nonempty(entry, i2) implies cell_nonempty(
                restricted,
                #[trigger] (i2 + 0),
            ) by {
                if i2 != i as int {
                    let q3 = choose|q3: int|
                        0 <= q3 < entry.np && #[trigger] entry.possible(i2, q3);
                    assert(restricted.possible(i2, q3));
                }
            }
            if hsole {
                assert(all_possible_sole(restricted)) by {
                    assert forall|i2: int|
                        0 <= i2 < restricted.n_cells() implies #[trigger] restricted.possible(
                        i2,
                        0,
                    ) by {
                        assert(entry.possible(i2, 0));
                    }
                }
            }
        }
        let ok = self.propagate(patterns, i);
        proof {
            lemma_shrinks_trans(*self, restricted, entry);
            if ok {
                // the pinned pattern survives: the cell is still
                // non-empty and only the pin could remain
                assert(cell_nonempty(*self, i as int + 0));
                let q3 = choose|q3: int| 0 <= q3 < self.np && #[trigger] self.possible(
                    i as int,
                    q3,
                );
                assert(restricted.possible(i as int, q3));
                assert(q3 == q);
                assert forall|i2: int|
                    0 <= i2 < entry.n_cells() && cell_nonempty(entry, i2) implies cell_nonempty(
                    *self,
                    #[trigger] (i2 + 0),
                ) by {
                    assert(cell_nonempty(restricted, i2 + 0));
                }
            }
            if hsole {
                assert(all_possible_sole(*self)) by {
                    assert(self.cells@ == restricted.cells@);
                    assert forall|i2: int|
                        0 <= i2 < self.n_cells() implies #[trigger] self.possible(i2, 0) by {
                        assert(restricted.possible(i2, 0));
                    }
                }
            }
        }
        ok
    }
}

/// `post` holds at most the possibilities of `pre`: propagation and
/// collapse only ever remove candidates.
pub open spec fn shrinks(post: Wave, pre: Wave) -> bool {
    &&& post.same_shape(pre)
    &&& forall|i: int, q: int|
        0 <= i < pre.n_cells() && 0 <= q < pre.np && #[trigger] post.possible(i, q)
            ==> pre.possible(i, q)
}

pub proof fn lemma_shrinks_trans(a: Wave, b: Wave, c: Wave)
    requires
        shrinks(a, b),
        shrinks(b, c),
    ensures
        shrinks(a, c),
{
}

/// Cell `i` still admits at least one pattern.
pub open spec fn cell_nonempty(w: Wave, i: int) -> bool {
    exists|q: int| 0 <= q < w.np && #[trigger] w.possible(i, q)
}

/// A one-pattern wave with that pattern possible everywhere: the state
/// a `sole_pattern` table keeps through every narrowing step.
pub open spec fn all_possible_sole(w: Wave) -> bool {
    w.np == 1 && forall|i: int| 0 <= i < w.n_cells() ==> #[trigger] w.possible(i, 0)
}

/// Cell `i` admits no pattern but `pid`.
pub open spec fn restricted_to(wv: Wave, i: int, pid: u32) -> bool {
    forall|q: int| 0 <= q < wv.np && #[trigger] wv.possible(i, q) ==> q == pid
}

/// Restrictions survive any further narrowing of the wave.
pub proof fn lemma_restricted_shrinks(post: Wave, pre: Wave, i: int, pid: u32)
    requires
        shrinks(post, pre),
        restricted_to(pre, i, pid),
        0 <= i < pre.n_cells(),
    ensures
        restricted_to(post, i, pid),
{
}

/// Cell `i` is pinned to exactly `pid`: nothing else is possible there,
/// and `pid` itself still is.
pub open spec fn pin_ok(wv: Wave, i: int, pid: u32) -> bool {
    restricted_to(wv, i, pid) && wv.possible(i, pid as int)
}

/// A pin survives a narrowing step that empties no cell.
pub proof fn lemma_pin_through_call(post: Wave, pre: Wave, i: int, pid: u32)
    requires
        shrinks(post, pre),
        0 <= i < pre.n_cells(),
        (pid as int) < pre.np,
        pin_ok(pre, i, pid),
        forall|i2: int|
            0 <= i2 < pre.n_cells() && cell_nonempty(pre, i2) ==> cell_nonempty(
                post,
                #[trigger] (i2 + 0),
            ),
    ensures
        pin_ok(post, i, pid),
{
    lemma_restricted_shrinks(post, pre, i, pid);
    assert(cell_nonempty(pre, i)) by {
        assert(pre.possible(i, pid as int));
    }
    assert(cell_nonempty(post, i + 0));
    let q3 = choose|q3: int| 0 <= q3 < post.np && #[trigger] post.possible(i, q3);
    assert(pre.possible(i, q3));
    assert(q3 == pid);
}

/// The cell lies on one of the four grid edges.
pub open spec fn on_border(w: int, h: int, x: int, y: int) -> bool {
    x == 0 || y == 0 || x == w - 1 || y == h - 1
}

/// The boundary forbidder: before general solving, every border cell is
/// pinned to the border pattern and the start cell to the floor pattern,
/// each pin propagated through the constraint network like an ordinary
/// collapse.
pub struct ForbidCorner {
    pub width: usize,
    pub height: usize,
    pub start_x: usize,
    pub start_y: usize,
    pub border_pattern: u32,
    pub floor_pattern: u32,
}

impl ForbidCorner {
    pub open spec fn wf(self, ps: Seq<PatternDescription>) -> bool {
        &&& 1 <= self.width <= MAX_DIM
        &&& 1 <= self.height <= MAX_DIM
        &&& (self.border_pattern as int) < ps.len()
        &&& (self.floor_pattern as int) < ps.len()
        &&& self.start_x < self.width
        &&& self.start_y < self.height
    }

    /// All pins this forbidder promises, over a given wave state: each
    /// border cell and the start cell admit exactly their pinned
    /// pattern, which is still possible there.
    pub open spec fn pinned(self, wv: Wave) -> bool {
        &&& forall|x: int, y: int|
            in_bounds(wv.width as int, wv.height as int, x, y) && on_border(
                wv.width as int,
                wv.height as int,
                x,
                y,
            ) ==> pin_ok(wv, #[trigger] cell_index(wv.width as int, x, y), self.border_pattern)
        &&& pin_ok(
            wv,
            cell_index(wv.width as int, self.start_x as int, self.start_y as int),
            self.floor_pattern,
        )
    }

    /// Pins the border ring and the start cell. Returns `false` when a
    /// pin empties some cell's possibility set.
    pub fn forbid(&self, wave: &mut Wave, patterns: &Vec<PatternDescription>) -> (ok: bool)
        requires
            self.wf(patterns@),
            old(wave).wf(),
            old(wave).np == patterns@.len(),
            old(wave).width == self.width,
            old(wave).height == self.height,
        ensures
            final(wave).wf(),
            final(wave).same_shape(*old(wave)),
            shrinks(*final(wave), *old(wave)),
            ok ==> self.pinned(*final(wave)),
            (sole_pattern(patterns@) && all_possible_sole(*old(wave))) ==> (ok
                && all_possible_sole(*final(wave))),
    {
        let ghost entry = *wave;
        let ghost hsole = sole_pattern(patterns@) && all_possible_sole(entry);
        let w = self.width;
        let h = self.height;
        let mut x: usize = 0;
        while x < w
            invariant
                entry == *old(wave),
                hsole == (sole_pattern(patterns@) && all_possible_sole(entry)),
                self.wf(patterns@),
                wave.wf(),
                wave.np == patterns@.len(),
                wave.width == w,
                wave.height == h,
                w == self.width,
                h == self.height,
                x <= w,
                shrinks(*wave, entry),
                hsole ==> all_possible_sole(*wave),
                forall|x2: int|
                    0 <= x2 < x ==> pin_ok(
                        *wave,
                        #[trigger] cell_index(w as int, x2, 0),
                        self.border_pattern,
                    ) && pin_ok(
                        *wave,
                        cell_index(w as int, x2, h as int - 1),
                        self.border_pattern,
                    ),
            decreases w - x,
        {
            let ghost pre = *wave;
            let top = wave.idx_of(x, 0);
            let ok1 = wave.forbid_all_patterns_except(top, self.border_pattern, patterns);
            let ghost mid = *wave;
            if !ok1 {
                proof {
                    lemma_shrinks_trans(*wave, pre, entry);
                    if hsole {
                        assert(false);
                    }
                }
                return false;
            }
            let bottom = wave.idx_of(x, h - 1);
            let ok2 = wave.forbid_all_patterns_except(bottom, self.border_pattern, patterns);
            proof {
                lemma_shrinks_trans(mid, pre, entry);
                lemma_shrinks_trans(*wave, mid, entry);
            }
            if !ok2 {
                proof {
                    if hsole {
                        assert(all_possible_sole(mid));
                        assert(false);
                    }
                }
                return false;
            }
            proof {
                if hsole {
                    assert(all_possible_sole(mid));
                }
                assert forall|x2: int| 0 <= x2 < x + 1 implies pin_ok(
                    *wave,
                    #[trigger] cell_index(w as int, x2, 0),
                    self.border_pattern,
                ) && pin_ok(
                    *wave,
                    cell_index(w as int, x2, h as int - 1),
                    self.border_pattern,
                ) by {
                    crate::geom::lemma_cell_index_bounds(w as int, h as int, x2, 0);
                    crate::geom::lemma_cell_index_bounds(w as int, h as int, x2, h as int - 1);
                    let ct = cell_index(w as int, x2, 0);
                    let cb = cell_index(w as int, x2, h as int - 1);
                    if x2 < x {
                        lemma_pin_through_call(mid, pre, ct, self.border_pattern);
                        lemma_pin_through_call(mid, pre, cb, self.border_pattern);
                        lemma_pin_through_call(*wave, mid, ct, self.border_pattern);
                        lemma_pin_through_call(*wave, mid, cb, self.border_pattern);
                    } else {
                        assert(pin_ok(mid, ct, self.border_pattern));
                        lemma_pin_through_call(*wave, mid, ct, self.border_pattern);
                        assert(pin_ok(*wave, cb, self.border_pattern));
                    }
                }
            }
            x += 1;
        }
        let ghost after_rows = *wave;
        let mut y: usize = 0;
        while y < h
            invariant
                entry == *old(wave),
                hsole == (sole_pattern(patterns@) && all_possible_sole(entry)),
                self.wf(patterns@),
                wave.wf(),
                wave.np == patterns@.len(),
                wave.width == w,
                wave.height == h,
                w == self.width,
                h == self.height,
                y <= h,
                shrinks(*wave, entry),
                hsole ==> all_possible_sole(*wave),
                forall|x2: int|
                    0 <= x2 < w ==> pin_ok(
                        *wave,
                        #[trigger] cell_index(w as int, x2, 0),
                        self.border_pattern,
                    ) && pin_ok(
                        *wave,
                        cell_index(w as int, x2, h as int - 1),
                        self.border_pattern,
                    ),
                forall|y2: int|
                    0 <= y2 < y ==> pin_ok(
                        *wave,
                        #[trigger] cell_index(w as int, 0, y2),
                        self.border_pattern,
                    ) && pin_ok(
                        *wave,
                        cell_index(w as int, w as int - 1, y2),
                        self.border_pattern,
                    ),
            decreases h - y,
        {
            let ghost pre = *wave;
            let left = wave.idx_of(0, y);
            let ok1 = wave.forbid_all_patterns_except(left, self.border_pattern, patterns);
            let ghost mid = *wave;
            if !ok1 {
                proof {
                    lemma_shrinks_trans(*wave, pre, entry);
                    if hsole {
                        assert(false);
                    }
                }
                return false;
            }
            let right = wave.idx_of(w - 1, y);
            let ok2 = wave.forbid_all_patterns_except(right, self.border_pattern, patterns);
            proof {
                lemma_shrinks_trans(mid, pre, entry);
                lemma_shrinks_trans(*wave, mid, entry);
            }
            if !ok2 {
                proof {
                    if hsole {
                        assert(all_possible_sole(mid));
                        assert(false);
                    }
                }
                return false;
            }
            proof {
                if hsole {
                    assert(all_possible_sole(mid));
                }
                assert forall|x2: int| 0 <= x2 < w implies pin_ok(
                    *wave,
                    #[trigger] cell_index(w as int, x2, 0),
                    self.border_pattern,
                ) && pin_ok(
                    *wave,
                    cell_index(w as int, x2, h as int - 1),
                    self.border_pattern,
                ) by {
                    crate::geom::lemma_cell_index_bounds(w as int, h as int, x2, 0);
                    crate::geom::lemma_cell_index_bounds(w as int, h as int, x2, h as int - 1);
                    let ct = cell_index(w as int, x2, 0);
                    let cb = cell_index(w as int, x2, h as int - 1);
                    lemma_pin_through_call(mid, pre, ct, self.border_pattern);
                    lemma_pin_through_call(mid, pre, cb, self.border_pattern);
                    lemma_pin_through_call(*wave, mid, ct, self.border_pattern);
                    lemma_pin_through_call(*wave, mid, cb, self.border_pattern);
                }
                assert forall|y2: int| 0 <= y2 < y + 1 implies pin_ok(
                    *wave,
                    #[trigger] cell_index(w as int, 0, y2),
                    self.border_pattern,
                ) && pin_ok(
                    *wave,
                    cell_index(w as int, w as int - 1, y2),
                    self.border_pattern,
                ) by {
                    crate::geom::lemma_cell_index_bounds(w as int, h as int, 0, y2);
                    crate::geom::lemma_cell_index_bounds(w as int, h as int, w as int - 1, y2);
                    let cl = cell_index(w as int, 0, y2);
                    let cr = cell_index(w as int, w as int - 1, y2);
                    if y2 < y {
                        lemma_pin_through_call(mid, pre, cl, self.border_pattern);
                        lemma_pin_through_call(mid, pre, cr, self.border_pattern);
                        lemma_pin_through_call(*wave, mid, cl, self.border_pattern);
                        lemma_pin_through_call(*wave, mid, cr, self.border_pattern);
                    } else {
                        assert(pin_ok(mid, cl, self.border_pattern));
                        lemma_pin_through_call(*wave, mid, cl, self.border_pattern);
                        assert(pin_ok(*wave, cr, self.border_pattern));
                    }
                }
            }
            y += 1;
        }
        let ghost after_cols = *wave;
        let start = wave.idx_of(self.start_x, self.start_y);
        let oks = wave.forbid_all_patterns_except(start, self.floor_pattern, patterns);
        proof {
            lemma_shrinks_trans(*wave, after_cols, entry);
        }
        if !oks {
            proof {
                if hsole {
                    assert(all_possible_sole(after_cols));
                    assert(false);
                }
            }
            return false;
        }
        proof {
            if hsole {
                assert(all_possible_sole(after_cols));
            }
            assert forall|x: int, y: int|
                in_bounds(wave.width as int, wave.height as int, x, y) && on_border(
                    wave.width as int,
                    wave.height as int,
                    x,
                    y,
                ) implies pin_ok(
                *wave,
                #[trigger] cell_index(wave.width as int, x, y),
                self.border_pattern,
            ) by {
                crate::geom::lemma_cell_index_bounds(w as int, h as int, x, y);
                if y == 0 {
                    assert(pin_ok(after_cols, cell_index(w as int, x, 0), self.border_pattern));
                    lemma_pin_through_call(
                        *wave,
                        after_cols,
                        cell_index(w as int, x, y),
                        self.border_pattern,
                    );
                } else if y == h as int - 1 {
                    assert(cell_index(w as int, x, 0) >= 0) by {
                        crate::geom::lemma_cell_index_bounds(w as int, h as int, x, 0);
                    }
                    assert(pin_ok(
                        after_cols,
                        cell_index(w as int, x, h as int - 1),
                        self.border_pattern,
                    ));
                    lemma_pin_through_call(
                        *wave,
                        after_cols,
                        cell_index(w as int, x, y),
                        self.border_pattern,
                    );
                } else if x == 0 {
                    assert(pin_ok(after_cols, cell_index(w as int, 0, y), self.border_pattern));
                    lemma_pin_through_call(
                        *wave,
                        after_cols,
                        cell_index(w as int, x, y),
                        self.border_pattern,
                    );
                } else {
                    assert(cell_index(w as int, 0, y) >= 0) by {
                        crate::geom::lemma_cell_index_bounds(w as int, h as int, 0, y);
                    }
                    assert(pin_ok(
                        after_cols,
                        cell_index(w as int, w as int - 1, y),
                        self.border_pattern,
                    ));
                    lemma_pin_through_call(
                        *wave,
                        after_cols,
                        cell_index(w as int, x, y),
                        self.border_pattern,
                    );
                }
            }
        }
        true
    }
}


impl Wave {
    /// Weighted-random pick of one still-possible pattern at cell `i`:
    /// each candidate is drawn with probability proportional to its
    /// weight. Whatever the random draw, the result is a candidate, and
    /// the pick fails exactly on an empty possibility set.
    pub fn pick_pattern(&self, patterns: &Vec<PatternDescription>, i: usize) -> (r: Option<u32>)
        requires
            self.wf(),
            self.np == patterns@.len(),
            patterns_wf(patterns@),
            i < self.n_cells(),
        ensures
            r matches Some(q) ==> (q as int) < self.np && self.possible(i as int, q as int),
            r is Some <==> self.candidate_count(i as int) > 0,
    {
        let np = self.np;
        let mut cands: Vec<u32> = Vec::new();
        let mut total: u64 = 0;
        let mut q: usize = 0;
        proof {
            crate::field::lemma_count_trues_empty(self.possible_row(i as int, 0));
        }
        while q < np
            invariant
                self.wf(),
                self.np == np,
                self.np == patterns@.len(),
                patterns_wf(patterns@),
                i < self.n_cells(),
                q <= np,
                cands@.len() <= q,
                cands@.len() == count_trues(self.possible_row(i as int, q as nat)),
                total <= (q as int) * 0x1_0000_0000,
                total >= cands@.len(),
                forall|j: int|
                    0 <= j < cands@.len() ==> (#[trigger] cands@[j] as int) < np
                        && self.possible(i as int, cands@[j] as int),
            decreases np - q,
        {
            proof {
                let cur = self.possible_row(i as int, q as nat);
                let next = self.possible_row(i as int, (q + 1) as nat);
                assert(next.drop_last() =~= cur);
                assert(next.last() == self.possible(i as int, q as int));
            }
            if self.is_possible(i, q) {
                cands.push(q as u32);
                total += patterns[q].weight as u64;
            }
            q += 1;
        }
        if cands.len() == 0 {
            return None;
        }
        let roll = crate::rng::random_range(0, total);
        let mut acc: u64 = 0;
        let mut j: usize = 0;
        while j < cands.len()
            invariant
                self.wf(),
                self.np == np,
                self.np == patterns@.len(),
                patterns_wf(patterns@),
                i < self.n_cells(),
                self.candidate_count(i as int) >= 1,
                cands@.len() >= 1,
                j <= cands@.len(),
                cands@.len() <= np,
                acc <= (j as int) * 0x1_0000_0000,
                forall|t: int|
                    0 <= t < cands@.len() ==> (#[trigger] cands@[t] as int) < np
                        && self.possible(i as int, cands@[t] as int),
            decreases cands@.len() - j,
        {
            let w = patterns[cands[j] as usize].weight as u64;
            if roll < acc + w {
                return Some(cands[j]);
            }
            acc += w;
            j += 1;
        }
        Some(cands[cands.len() - 1])
    }
}

/// One cell's share of the adjacency consistency of an assignment: its
/// east and south neighbours, checked in both directions.
pub open spec fn pair_ok(ps: Seq<PatternDescription>, w: int, h: int, a: Seq<u32>, x: int, y: int) -> bool {
    &&& (x + 1 < w ==> allows(ps[a[cell_index(w, x, y)] as int], 1, a[cell_index(w, x + 1, y)])
        && allows(ps[a[cell_index(w, x + 1, y)] as int], 3, a[cell_index(w, x, y)]))
    &&& (y + 1 < h ==> allows(ps[a[cell_index(w, x, y)] as int], 2, a[cell_index(w, x, y + 1)])
        && allows(ps[a[cell_index(w, x, y + 1)] as int], 0, a[cell_index(w, x, y)]))
}

/// Every horizontally or vertically adjacent pair of the assignment is
/// permitted by the pattern table, in both directions.
pub open spec fn assignment_consistent(
    ps: Seq<PatternDescription>,
    w: int,
    h: int,
    a: Seq<u32>,
) -> bool {
    forall|x: int, y: int| in_bounds(w, h, x, y) ==> #[trigger] pair_ok(ps, w, h, a, x, y)
}

/// Everything a successful solve promises of the returned assignment.
pub open spec fn solved_ok(ps: Seq<PatternDescription>, fc: ForbidCorner, a: Seq<u32>) -> bool {
    &&& a.len() == fc.width * fc.height
    &&& forall|i: int| 0 <= i < a.len() ==> (#[trigger] a[i] as int) < ps.len()
    &&& forall|x: int, y: int|
        in_bounds(fc.width as int, fc.height as int, x, y) && on_border(
            fc.width as int,
            fc.height as int,
            x,
            y,
        ) ==> a[#[trigger] cell_index(fc.width as int, x, y)] == fc.border_pattern
    &&& a[cell_index(fc.width as int, fc.start_x as int, fc.start_y as int)] == fc.floor_pattern
    &&& assignment_consistent(ps, fc.width as int, fc.height as int, a)
}

/// On a one-pattern self-adjacent wave every cell holds exactly one
/// candidate.
proof fn lemma_sole_count(w: Wave, i: int)
    requires
        w.wf(),
        all_possible_sole(w),
        0 <= i < w.n_cells(),
    ensures
        w.candidate_count(i) == 1,
{
    let row = w.possible_row(i, 1nat);
    assert(row.drop_last() =~= w.possible_row(i, 0nat));
    crate::field::lemma_count_trues_empty(w.possible_row(i, 0nat));
    assert(w.possible(i, 0));
    assert(row.last() == w.possible(i, 0));
}

/// One solve attempt: builds a fresh wave, applies the boundary
/// forbidder, repeatedly collapses the lowest-entropy unresolved cell
/// and propagates, then extracts and validates the assignment. `None`
/// signals a contradiction; the caller retries with fresh randomness.
/// On a one-pattern self-adjacent table the attempt always succeeds:
/// no random draw can steer it into a contradiction.
pub fn solve_once(patterns: &Vec<PatternDescription>, fc: &ForbidCorner) -> (r: Option<Vec<u32>>)
    requires
        patterns_wf(patterns@),
        fc.wf(patterns@),
    ensures
        r matches Some(a) ==> solved_ok(patterns@, *fc, a@),
        sole_pattern(patterns@) ==> r is Some,
{
    let np = patterns.len();
    let mut wave = Wave::new(fc.width, fc.height, np);
    let ghost hsole = sole_pattern(patterns@);
    proof {
        if hsole {
            assert(all_possible_sole(wave));
        }
    }
    if !fc.forbid(&mut wave, patterns) {
        proof {
            if hsole {
                assert(false);
            }
        }
        return None;
    }
    let ghost w_f = wave;
    proof {
        assert(wave.n_cells() <= 0x10000) by (nonlinear_arith)
            requires 1 <= wave.width <= 256 && 1 <= wave.height <= 256;
    }
    let n = wave.idx_of(fc.width - 1, fc.height - 1) + 1;
    proof {
        assert(n == wave.n_cells()) by (nonlinear_arith)
            requires
                n == (fc.height - 1) * fc.width + (fc.width - 1) + 1 && wave.n_cells() == fc.width
                    * fc.height && fc.width >= 1 && fc.height >= 1;
    }
    // collapse: each round resolves one cell, so n rounds suffice
    let mut round: usize = 0;
    while round < n
        invariant
            patterns_wf(patterns@),
            fc.wf(patterns@),
            hsole == sole_pattern(patterns@),
            wave.wf(),
            wave.np == patterns@.len(),
            wave.width == fc.width,
            wave.height == fc.height,
            n == wave.n_cells(),
            n <= 0x10000,
            fc.pinned(w_f),
            w_f.width == fc.width && w_f.height == fc.height,
            w_f.n_cells() == n,
            shrinks(wave, w_f),
            hsole ==> all_possible_sole(wave),
        decreases n - round,
    {
        // lowest-entropy unresolved cell
        let mut best: usize = 0;
        let mut best_count: usize = 0;
        let mut i: usize = 0;
        while i < n
            invariant
                hsole == sole_pattern(patterns@),
                wave.wf(),
                n == wave.n_cells(),
                i <= n,
                best_count >= 2 ==> best < n,
                hsole ==> all_possible_sole(wave),
                hsole ==> best_count < 2,
            decreases n - i,
        {
            let c = wave.count_candidates(i);
            if c == 0 {
                proof {
                    if hsole {
                        lemma_sole_count(wave, i as int);
                        assert(false);
                    }
                }
                return None;
            }
            if c >= 2 && (best_count < 2 || c < best_count) {
                proof {
                    if hsole {
                        lemma_sole_count(wave, i as int);
                        assert(false);
                    }
                }
                best = i;
                best_count = c;
            }
            i += 1;
        }
        if best_count < 2 {
            break;
        }
        let q = match wave.pick_pattern(patterns, best) {
            Some(q) => q,
            None => {
                return None;
            },
        };
        let ghost pre = wave;
        if !wave.forbid_all_patterns_except(best, q, patterns) {
            return None;
        }
        proof {
            lemma_shrinks_trans(wave, pre, w_f);
            if hsole {
                assert(all_possible_sole(wave));
            }
        }
        round += 1;
    }
    // extraction: every cell must hold exactly one candidate
    let mut a: Vec<u32> = Vec::new();
    let mut i: usize = 0;
    while i < n
        invariant
            patterns_wf(patterns@),
            fc.wf(patterns@),
            hsole == sole_pattern(patterns@),
            hsole ==> all_possible_sole(wave),
            wave.wf(),
            wave.np == patterns@.len(),
            wave.width == fc.width,
            wave.height == fc.height,
            n == wave.n_cells(),
            n <= 0x10000,
            fc.pinned(w_f),
            w_f.width == fc.width && w_f.height == fc.height,
            w_f.n_cells() == n,
            shrinks(wave, w_f),
            i <= n,
            a@.len() == i,
            forall|j: int|
                0 <= j < i ==> (#[trigger] a@[j] as int) < wave.np && wave.possible(j, a@[j] as int),
        decreases n - i,
    {
        if wave.count_candidates(i) != 1 {
            proof {
                if hsole {
                    lemma_sole_count(wave, i as int);
                    assert(false);
                }
            }
            return None;
        }
        match wave.first_candidate(i) {
            Some(q) => {
                a.push(q);
            },
            None => {
                proof {
                    if hsole {
                        assert(wave.possible(i as int, 0));
                        assert(false);
                    }
                }
                return None;
            },
        }
        i += 1;
    }
    // validation: reject any adjacency the pattern table does not allow
    let width = fc.width;
    let height = fc.height;
    let mut i: usize = 0;
    while i < n
        invariant
            patterns_wf(patterns@),
            hsole == sole_pattern(patterns@),
            wave.wf(),
            wave.np == patterns@.len(),
            wave.width == width,
            wave.height == height,
            n == wave.n_cells(),
            n <= 0x10000,
            a@.len() == n,
            forall|j: int|
                0 <= j < n ==> (#[trigger] a@[j] as int) < wave.np && wave.possible(j, a@[j] as int),
            i <= n,
            forall|j: int|
                0 <= j < i ==> #[trigger] pair_ok(
                    patterns@,
                    width as int,
                    height as int,
                    a@,
                    j % width as int,
                    j / width as int,
                ),
        decreases n - i,
    {
        let x = i % width;
        let y = i / width;
        proof {
            let w = width as int;
            let h = height as int;
            let ii = i as int;
            assert(0 <= ii % w < w && 0 <= ii / w < h && (ii / w) * w + ii % w
                == ii) by (nonlinear_arith)
                requires w >= 1 && h >= 1 && 0 <= ii && ii < w * h;
            assert(cell_index(w, ii % w, ii / w) == ii);
        }
        if x + 1 < width {
            proof {
                crate::geom::lemma_cell_index_bounds(
                    width as int,
                    height as int,
                    x as int + 1,
                    y as int,
                );
            }
            let e = a[i + 1];
            let me = a[i];
            proof {
                if hsole {
                    assert(me == 0u32 && e == 0u32);
                }
            }
            if !allowed(&patterns[me as usize], DIR_EAST, e) {
                proof {
                    if hsole {
                        assert(false);
                    }
                }
                return None;
            }
            if !allowed(&patterns[e as usize], DIR_WEST, me) {
                proof {
                    if hsole {
                        assert(false);
                    }
                }
                return None;
            }
        }
        if y + 1 < height {
            proof {
                crate::geom::lemma_cell_index_bounds(
                    width as int,
                    height as int,
                    x as int,
                    y as int + 1,
                );
                assert((y as int + 1) * (width as int) + x as int == i as int
                    + width as int) by (nonlinear_arith)
                    requires i as int == (y as int) * (width as int) + (x as int);
            }
            let s = a[i + width];
            let me = a[i];
            proof {
                if hsole {
                    assert(me == 0u32 && s == 0u32);
                }
            }
            if !allowed(&patterns[me as usize], DIR_SOUTH, s) {
                proof {
                    if hsole {
                        assert(false);
                    }
                }
                return None;
            }
            if !allowed(&patterns[s as usize], DIR_NORTH, me) {
                proof {
                    if hsole {
                        assert(false);
                    }
                }
                return None;
            }
        }
        proof {
            assert(pair_ok(patterns@, width as int, height as int, a@, x as int, y as int));
            assert forall|j: int| 0 <= j < i + 1 implies #[trigger] pair_ok(
                patterns@,
                width as int,
                height as int,
                a@,
                j % width as int,
                j / width as int,
            ) by {
                if j == i as int {
                    assert(j % width as int == x as int && j / width as int == y as int);
                }
            }
        }
        i += 1;
    }
    proof {
        let w = width as int;
        let h = height as int;
        let ps = patterns@;
        assert forall|x: int, y: int| in_bounds(w, h, x, y) implies #[trigger] pair_ok(
            ps,
            w,
            h,
            a@,
            x,
            y,
        ) by {
            let j = cell_index(w, x, y);
            crate::geom::lemma_cell_index_bounds(w, h, x, y);
            assert(j % w == x && j / w == y) by (nonlinear_arith)
                requires w >= 1 && 0 <= x < w && 0 <= y && j == y * w + x;
            assert(pair_ok(ps, w, h, a@, j % w, j / w));
        }
        // border and start pins carry from the post-forbid wave through
        // every later shrink to the extracted assignment
        assert forall|x: int, y: int|
            in_bounds(w, h, x, y) && on_border(w, h, x, y) implies a@[#[trigger] cell_index(
            w,
            x,
            y,
        )] == fc.border_pattern by {
            let j = cell_index(w, x, y);
            crate::geom::lemma_cell_index_bounds(w, h, x, y);
            assert(wave.possible(j, a@[j] as int));
            assert(w_f.possible(j, a@[j] as int));
            assert(restricted_to(w_f, j, fc.border_pattern));
        }
        assert(a@[cell_index(w, fc.start_x as int, fc.start_y as int)] == fc.floor_pattern) by {
            let j = cell_index(w, fc.start_x as int, fc.start_y as int);
            crate::geom::lemma_cell_index_bounds(w, h, fc.start_x as int, fc.start_y as int);
            assert(wave.possible(j, a@[j] as int));
            assert(w_f.possible(j, a@[j] as int));
            assert(restricted_to(w_f, j, fc.floor_pattern));
        }
        assert(solved_ok(patterns@, *fc, a@));
    }
    Some(a)
}

/// Failure of the bounded retry driver.
#[derive(Clone, Copy, Debug, PartialEq, Eq, Structural)]
pub enum SolveError {
    /// Every attempt ended in a contradiction.
    Exhausted { attempts: u32 },
}

/// A successful solve and the number of attempts it took.
pub struct Solved {
    pub tiles: Vec<u32>,
    pub attempts: u32,
}

/// The retry driver: repeats whole solve attempts with fresh randomness
/// until one succeeds or the attempt budget is spent. On a one-pattern
/// self-adjacent table the very first attempt succeeds.
pub fn collapse_retrying(
    patterns: &Vec<PatternDescription>,
    fc: &ForbidCorner,
    max_attempts: u32,
) -> (r: Result<Solved, SolveError>)
    requires
        patterns_wf(patterns@),
        fc.wf(patterns@),
        max_attempts >= 1,
    ensures
        r matches Ok(s) ==> solved_ok(patterns@, *fc, s.tiles@) && 1 <= s.attempts <= max_attempts,
        r matches Err(e) ==> e == (SolveError::Exhausted { attempts: max_attempts }),
        sole_pattern(patterns@) ==> r is Ok,
{
    let mut attempt: u32 = 0;
    while attempt < max_attempts
        invariant
            patterns_wf(patterns@),
            fc.wf(patterns@),
            attempt <= max_attempts,
            sole_pattern(patterns@) ==> attempt == 0,
        decreases max_attempts - attempt,
    {
        attempt += 1;
        if let Some(tiles) = solve_once(patterns, fc) {
            return Ok(Solved { tiles, attempts: attempt });
        }
        proof {
            if sole_pattern(patterns@) {
                assert(false);
            }
        }
    }
    Err(SolveError::Exhausted { attempts: max_attempts })
}

} // verus!
