//! The spatial query layer: a read-only graph view over the resolved
//! grid — neighbour enumeration with 4-/8-connectivity, opacity tests and
//! straight-line pathing distance, all in fixed-point arithmetic.

use crate::geom::{
    cell_index, in_bounds, lemma_cell_index_bounds, step_cost, CARDINAL_COST, COST_SCALE,
    DIAGONAL_COST, MAX_DIM,
};
use crate::tile::{RoomTile, TileV};
use vstd::prelude::*;

verus! {

/// Spec-level image of a resolved grid.
#[verifier::ext_equal]
pub ghost struct GridV {
    pub width: int,
    pub height: int,
    pub tiles: Seq<TileV>,
}

/// Well-formed grid: non-degenerate bounded sides, one tile per cell.
pub open spec fn grid_wf(g: GridV) -> bool {
    &&& 1 <= g.width <= MAX_DIM
    &&& 1 <= g.height <= MAX_DIM
    &&& g.tiles.len() == g.width * g.height
}

/// The cell is in bounds and carries a walkable tile.
pub open spec fn walkable_at(g: GridV, x: int, y: int) -> bool {
    in_bounds(g.width, g.height, x, y) && g.tiles[cell_index(g.width, x, y)].walkable
}

/// The resolved wall-layer grid the queries run over.
pub struct SanityMap {
    pub width: usize,
    pub height: usize,
    pub tiles: Vec<RoomTile>,
}

impl View for SanityMap {
    type V = GridV;

    open spec fn view(&self) -> GridV {
        GridV {
            width: self.width as int,
            height: self.height as int,
            tiles: self.tiles@.map_values(|t: RoomTile| t@),
        }
    }
}

/// One neighbour entry of `exits_spec`: empty unless the stepped-to cell
/// is in bounds and walkable.
pub open spec fn exit_entry(g: GridV, x: int, y: int, dx: int, dy: int) -> Seq<(usize, u64)> {
    if walkable_at(g, x + dx, y + dy) {
        seq![(cell_index(g.width, x + dx, y + dy) as usize, step_cost(x, y, x + dx, y + dy))]
    } else {
        seq![]
    }
}

/// The exact neighbour list of a cell: the four cardinal exits at cost
/// 1.0, then the four diagonal exits at cost ~sqrt(2), in fixed order.
pub open spec fn exits_spec(g: GridV, x: int, y: int) -> Seq<(usize, u64)> {
    exit_entry(g, x, y, -1, 0) + exit_entry(g, x, y, 1, 0) + exit_entry(g, x, y, 0, -1)
        + exit_entry(g, x, y, 0, 1) + exit_entry(g, x, y, -1, -1) + exit_entry(g, x, y, 1, -1)
        + exit_entry(g, x, y, -1, 1) + exit_entry(g, x, y, 1, 1)
}

impl SanityMap {
    pub open spec fn wf(self) -> bool {
        grid_wf(self@)
    }

    pub fn new(width: usize, height: usize, tiles: Vec<RoomTile>) -> (r: SanityMap)
        requires
            1 <= width <= MAX_DIM,
            1 <= height <= MAX_DIM,
            tiles@.len() == width * height,
        ensures
            r.wf(),
            r@.width == width,
            r@.height == height,
            r@.tiles == tiles@.map_values(|t: RoomTile| t@),
    {
        SanityMap { width, height, tiles }
    }

    /// Grid width and height.
    pub fn dimensions(&self) -> (r: (usize, usize))
        ensures
            r.0 == self@.width,
            r.1 == self@.height,
    {
        (self.width, self.height)
    }

    /// Number of cells.
    pub fn cell_count(&self) -> (r: usize)
        requires
            self.wf(),
        ensures
            r == self@.tiles.len(),
    {
        self.tiles.len()
    }

    /// Row-major index of an in-bounds cell.
    pub fn point2d_to_index(&self, x: usize, y: usize) -> (r: usize)
        requires
            self.wf(),
            in_bounds(self@.width, self@.height, x as int, y as int),
        ensures
            r == cell_index(self@.width, x as int, y as int),
            r < self@.tiles.len(),
    {
        proof {
            lemma_cell_index_bounds(self@.width, self@.height, x as int, y as int);
            assert(self@.width * self@.height <= MAX_DIM * MAX_DIM) by (nonlinear_arith)
                requires 1 <= self@.width <= MAX_DIM && 1 <= self@.height <= MAX_DIM;
        }
        y * self.width + x
    }

    /// Coordinates of a cell index.
    pub fn index_to_point2d(&self, idx: usize) -> (r: (usize, usize))
        requires
            self.wf(),
            idx < self@.tiles.len(),
        ensures
            in_bounds(self@.width, self@.height, r.0 as int, r.1 as int),
            cell_index(self@.width, r.0 as int, r.1 as int) == idx,
            r.0 as int == idx as int % self@.width,
            r.1 as int == idx as int / self@.width,
    {
        let x = idx % self.width;
        let y = idx / self.width;
        proof {
            let w = self@.width;
            let h = self@.height;
            assert(idx as int == (idx as int / w) * w + (idx as int % w)) by (nonlinear_arith)
                requires w >= 1;
            assert(0 <= idx as int % w < w) by (nonlinear_arith)
                requires w >= 1 && idx >= 0;
            assert(idx as int / w < h) by (nonlinear_arith)
                requires w >= 1 && 0 <= idx as int && idx < w * h;
        }
        (x, y)
    }

    /// A cell is opaque when it is out of range or not walkable.
    pub fn is_opaque(&self, idx: usize) -> (r: bool)
        ensures
            r == !(idx < self@.tiles.len() && self@.tiles[idx as int].walkable),
    {
        if idx < self.tiles.len() {
            !self.tiles[idx].walkable
        } else {
            true
        }
    }

    /// The index of the cell one step of `(dx, dy)` away, when that step
    /// lands in bounds on a walkable tile.
    pub fn valid_exit(&self, x: usize, y: usize, dx: i32, dy: i32) -> (r: Option<usize>)
        requires
            self.wf(),
            in_bounds(self@.width, self@.height, x as int, y as int),
            -1 <= dx <= 1,
            -1 <= dy <= 1,
        ensures
            r is Some <==> walkable_at(self@, x as int + dx as int, y as int + dy as int),
            r matches Some(i) ==> i == cell_index(
                self@.width,
                x as int + dx as int,
                y as int + dy as int,
            ) && i < self@.tiles.len(),
    {
        let tx = x as i64 + dx as i64;
        let ty = y as i64 + dy as i64;
        if tx < 0 || ty < 0 || tx >= self.width as i64 || ty >= self.height as i64 {
            return None;
        }
        let txu = tx as usize;
        let tyu = ty as usize;
        let idx = self.point2d_to_index(txu, tyu);
        if self.tiles[idx].walkable {
            Some(idx)
        } else {
            None
        }
    }

    /// Neighbour enumeration: the walkable 4- and 8-connected exits of a
    /// cell, cardinals at cost 1.0 and diagonals at cost ~1.41421, in
    /// fixed point.
    pub fn get_available_exits(&self, idx: usize) -> (r: Vec<(usize, u64)>)
        requires
            self.wf(),
            idx < self@.tiles.len(),
        ensures
            r@ == exits_spec(self@, idx as int % self@.width, idx as int / self@.width),
    {
        let (x, y) = self.index_to_point2d(idx);
        let mut exits: Vec<(usize, u64)> = Vec::new();
        self.push_exit(&mut exits, x, y, -1, 0, CARDINAL_COST);
        self.push_exit(&mut exits, x, y, 1, 0, CARDINAL_COST);
        self.push_exit(&mut exits, x, y, 0, -1, CARDINAL_COST);
        self.push_exit(&mut exits, x, y, 0, 1, CARDINAL_COST);
        self.push_exit(&mut exits, x, y, -1, -1, DIAGONAL_COST);
        self.push_exit(&mut exits, x, y, 1, -1, DIAGONAL_COST);
        self.push_exit(&mut exits, x, y, -1, 1, DIAGONAL_COST);
        self.push_exit(&mut exits, x, y, 1, 1, DIAGONAL_COST);
        proof {
            assert(exits@ =~= exits_spec(self@, x as int, y as int));
        }
        exits
    }

    /// Straight-line (Euclidean) distance between two cells in fixed
    /// point: the integer square root of `(dx^2 + dy^2) * COST_SCALE^2`.
    /// This is the heuristic distance, not the graph distance.
    pub fn get_pathing_distance(&self, idx1: usize, idx2: usize) -> (r: u64)
        requires
            self.wf(),
            idx1 < self@.tiles.len(),
            idx2 < self@.tiles.len(),
        ensures
            ({
                let x1 = idx1 as int % self@.width;
                let y1 = idx1 as int / self@.width;
                let x2 = idx2 as int % self@.width;
                let y2 = idx2 as int / self@.width;
                let dd = ((x1 - x2) * (x1 - x2) + (y1 - y2) * (y1 - y2)) * (
                COST_SCALE as int) * (COST_SCALE as int);
                r * r <= dd < (r + 1) * (r + 1)
            }),
    {
        let (x1, y1) = self.index_to_point2d(idx1);
        let (x2, y2) = self.index_to_point2d(idx2);
        let dx: u64 = if x1 >= x2 {
            (x1 - x2) as u64
        } else {
            (x2 - x1) as u64
        };
        let dy: u64 = if y1 >= y2 {
            (y1 - y2) as u64
        } else {
            (y2 - y1) as u64
        };
        proof {
            assert(dx <= MAX_DIM && dy <= MAX_DIM);
            assert((dx * dx + dy * dy) * COST_SCALE * COST_SCALE
                <= (MAX_DIM * MAX_DIM + MAX_DIM * MAX_DIM) * COST_SCALE * COST_SCALE
                < 0xffff_ffff_ffff_ffff) by (nonlinear_arith)
                requires dx <= MAX_DIM && dy <= MAX_DIM;
        }
        let dd = (dx * dx + dy * dy) * COST_SCALE * COST_SCALE;
        let r = isqrt(dd);
        proof {
            let sx1 = idx1 as int % self@.width;
            let sy1 = idx1 as int / self@.width;
            let sx2 = idx2 as int % self@.width;
            let sy2 = idx2 as int / self@.width;
            assert((sx1 - sx2) * (sx1 - sx2) == dx * dx) by (nonlinear_arith)
                requires sx1 - sx2 == dx || sx2 - sx1 == dx;
            assert((sy1 - sy2) * (sy1 - sy2) == dy * dy) by (nonlinear_arith)
                requires sy1 - sy2 == dy || sy2 - sy1 == dy;
        }
        r
    }

    fn push_exit(
        &self,
        exits: &mut Vec<(usize, u64)>,
        x: usize,
        y: usize,
        dx: i32,
        dy: i32,
        cost: u64,
    )
        requires
            self.wf(),
            in_bounds(self@.width, self@.height, x as int, y as int),
            -1 <= dx <= 1,
            -1 <= dy <= 1,
            cost == step_cost(x as int, y as int, x as int + dx as int, y as int + dy as int),
        ensures
            final(exits)@ == old(exits)@ + exit_entry(self@, x as int, y as int, dx as int, dy as int),
    {
        match self.valid_exit(x, y, dx, dy) {
            Some(i) => {
                exits.push((i, cost));
                proof {
                    assert(exits@ =~= old(exits)@ + exit_entry(
                        self@,
                        x as int,
                        y as int,
                        dx as int,
                        dy as int,
                    ));
                }
            },
            None => {
                proof {
                    assert(exits@ =~= old(exits)@ + exit_entry(
                        self@,
                        x as int,
                        y as int,
                        dx as int,
                        dy as int,
                    ));
                }
            },
        }
    }
}

/// Integer square root: the unique `r` with `r^2 <= v < (r+1)^2`.
pub fn isqrt(v: u64) -> (r: u64)
    ensures
        r * r <= v < (r + 1) * (r + 1),
{
    let vw = v as u128;
    let mut lo: u128 = 0;
    let mut hi: u128 = 0x1_0000_0000;
    proof {
        assert(hi * hi > vw) by (nonlinear_arith)
            requires hi == 0x1_0000_0000u128 && vw < 0x1_0000_0000_0000_0000u128;
    }
    while lo + 1 < hi
        invariant
            lo < hi <= 0x1_0000_0000,
            lo * lo <= vw,
            hi * hi > vw,
            vw == v,
        decreases hi - lo,
    {
        let mid = lo + (hi - lo) / 2;
        proof {
            assert(lo < mid < hi);
            assert(mid * mid <= 0x1_0000_0000_0000_0000u128) by (nonlinear_arith)
                requires mid <= 0x1_0000_0000u128;
        }
        if mid * mid <= vw {
            lo = mid;
        } else {
            hi = mid;
        }
    }
    proof {
        assert(hi == lo + 1);
        assert((lo as u64) as u128 == lo);
        assert((lo + 1) * (lo + 1) > vw);
    }
    lo as u64
}

/// Diagonal-cost law: a walkable cell diagonally adjacent to `(x, y)`
/// appears among that cell's exits with cost `DIAGONAL_COST`, i.e.
/// 1.41421 in fixed point.
pub proof fn lemma_diagonal_exit_cost(g: GridV, x: int, y: int, dx: int, dy: int)
    requires
        grid_wf(g),
        in_bounds(g.width, g.height, x, y),
        dx == -1 || dx == 1,
        dy == -1 || dy == 1,
        walkable_at(g, x + dx, y + dy),
    ensures
        exits_spec(g, x, y).contains(
            (cell_index(g.width, x + dx, y + dy) as usize, DIAGONAL_COST),
        ),
{
    let elt = (cell_index(g.width, x + dx, y + dy) as usize, DIAGONAL_COST);
    let e1 = exit_entry(g, x, y, -1, 0);
    let e2 = exit_entry(g, x, y, 1, 0);
    let e3 = exit_entry(g, x, y, 0, -1);
    let e4 = exit_entry(g, x, y, 0, 1);
    let e5 = exit_entry(g, x, y, -1, -1);
    let e6 = exit_entry(g, x, y, 1, -1);
    let e7 = exit_entry(g, x, y, -1, 1);
    let e8 = exit_entry(g, x, y, 1, 1);
    let s = exits_spec(g, x, y);
    let pre4 = e1.len() + e2.len() + e3.len() + e4.len();
    if dx == -1 && dy == -1 {
        assert(e5 == seq![elt]);
        assert(s[pre4 as int] == elt);
        assert(s.contains(elt));
    } else if dx == 1 && dy == -1 {
        assert(e6 == seq![elt]);
        assert(s[(pre4 + e5.len()) as int] == elt);
        assert(s.contains(elt));
    } else if dx == -1 && dy == 1 {
        assert(e7 == seq![elt]);
        assert(s[(pre4 + e5.len() + e6.len()) as int] == elt);
        assert(s.contains(elt));
    } else {
        assert(e8 == seq![elt]);
        assert(s[(pre4 + e5.len() + e6.len() + e7.len()) as int] == elt);
        assert(s.contains(elt));
    }
}

} // verus!
