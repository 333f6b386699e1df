//! Grid geometry: bounds, row-major indexing, 8-neighbour adjacency and
//! fixed-point step costs shared by the solver, the pruner and the query
//! layer.

use vstd::prelude::*;

verus! {

/// Largest grid side the core accepts (room layouts are far smaller).
pub const MAX_DIM: usize = 256;

/// Fixed-point scale: 100000 units stand for a distance of 1.0.
pub const COST_SCALE: u64 = 100000;

/// Cost of a step between 4-connected cells (1.0 in fixed point).
pub const CARDINAL_COST: u64 = 100000;

/// Cost of a step between diagonally adjacent cells (~sqrt(2) in fixed point).
pub const DIAGONAL_COST: u64 = 141421;

pub open spec fn in_bounds(width: int, height: int, x: int, y: int) -> bool {
    0 <= x < width && 0 <= y < height
}

/// Row-major cell index.
pub open spec fn cell_index(width: int, x: int, y: int) -> int {
    y * width + x
}

/// The two cells are distinct and touch orthogonally or diagonally.
pub open spec fn adjacent8(x1: int, y1: int, x2: int, y2: int) -> bool {
    &&& -1 <= x2 - x1 <= 1
    &&& -1 <= y2 - y1 <= 1
    &&& !(x1 == x2 && y1 == y2)
}

/// True when the step from (x1, y1) to (x2, y2) is diagonal.
pub open spec fn diagonal_step(x1: int, y1: int, x2: int, y2: int) -> bool {
    x1 != x2 && y1 != y2
}

/// Fixed-point cost of one step between adjacent cells.
pub open spec fn step_cost(x1: int, y1: int, x2: int, y2: int) -> u64 {
    if diagonal_step(x1, y1, x2, y2) {
        DIAGONAL_COST
    } else {
        CARDINAL_COST
    }
}

pub proof fn lemma_cell_index_bounds(width: int, height: int, x: int, y: int)
    requires
        width >= 1,
        in_bounds(width, height, x, y),
    ensures
        0 <= cell_index(width, x, y) < width * height,
{
    assert(y * width + x < width * height) by (nonlinear_arith)
        requires 0 <= x < width && 0 <= y < height;
    assert(y * width + x >= 0) by (nonlinear_arith)
        requires 0 <= x && 0 <= y && width >= 1;
}

/// Distinct in-bounds cells have distinct row-major indices.
pub proof fn lemma_cell_index_injective(width: int, height: int, x1: int, y1: int, x2: int, y2: int)
    requires
        width >= 1,
        in_bounds(width, height, x1, y1),
        in_bounds(width, height, x2, y2),
        cell_index(width, x1, y1) == cell_index(width, x2, y2),
    ensures
        x1 == x2 && y1 == y2,
{
    assert(y1 * width + x1 == y2 * width + x2 ==> y1 == y2 && x1 == x2) by (nonlinear_arith)
        requires 0 <= x1 < width && 0 <= x2 < width && 0 <= y1 && 0 <= y2;
}

/// One of the four cardinal directions of the grid, y growing southward.
#[derive(Clone, Copy, Debug, PartialEq, Eq, Structural)]
pub enum CardinalDirection {
    North,
    East,
    South,
    West,
}

impl CardinalDirection {
    /// The unit coordinate offset of this direction.
    pub open spec fn offset(self) -> (int, int) {
        match self {
            CardinalDirection::North => (0int, -1int),
            CardinalDirection::East => (1int, 0int),
            CardinalDirection::South => (0int, 1int),
            CardinalDirection::West => (-1int, 0int),
        }
    }

    /// The unit step this direction stands for.
    pub fn coord(self) -> (r: (i32, i32))
        ensures
            r.0 as int == self.offset().0,
            r.1 as int == self.offset().1,
    {
        match self {
            CardinalDirection::North => (0, -1),
            CardinalDirection::East => (1, 0),
            CardinalDirection::South => (0, 1),
            CardinalDirection::West => (-1, 0),
        }
    }

    /// Reads a direction back from a unit cardinal offset.
    pub fn from_unit_coord(dx: i32, dy: i32) -> (r: CardinalDirection)
        requires
            (dx == 0 && (dy == 1 || dy == -1)) || (dy == 0 && (dx == 1 || dx == -1)),
        ensures
            r.offset() == (dx as int, dy as int),
    {
        if dx == 1 {
            CardinalDirection::East
        } else if dx == -1 {
            CardinalDirection::West
        } else if dy == 1 {
            CardinalDirection::South
        } else {
            CardinalDirection::North
        }
    }
}

/// A grid position used by the gameplay layer.
#[derive(Clone, Copy, Debug, PartialEq, Eq, Structural)]
pub struct Position {
    pub x: i32,
    pub y: i32,
}

impl Position {
    pub fn new(x: i32, y: i32) -> (r: Position)
        ensures
            r.x == x && r.y == y,
    {
        Position { x, y }
    }

    /// The position one step away in the given direction.
    pub fn shifted(self, dir: CardinalDirection) -> (r: Position)
        requires
            i32::MIN + 1 <= self.x <= i32::MAX - 1,
            i32::MIN + 1 <= self.y <= i32::MAX - 1,
        ensures
            r.x as int == self.x + dir.offset().0,
            r.y as int == self.y + dir.offset().1,
    {
        let (dx, dy) = dir.coord();
        Position { x: self.x + dx, y: self.y + dy }
    }
}

} // verus!
