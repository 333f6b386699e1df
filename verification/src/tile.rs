//! Tile records: the gameplay-facing cell data that the solver writes and
//! the pruner and field-of-view consumers mutate.

use vstd::prelude::*;

verus! {

/// Coarse tile classification used by early level sketches.
#[derive(Clone, Copy, Debug, PartialEq, Eq, Structural)]
pub enum TileType {
    Floor,
    WallN,
    WallE,
    WallS,
    WallW,
    CornerNE,
    CornerSE,
    CornerSW,
    CornerNW,
    DiagonalNE,
    DiagonalSE,
}

/// Editor-only annotation: tile ids that may validly sit on each side of a
/// cell; the solver itself never reads it.
#[derive(Clone, Debug)]
pub struct Candidates {
    pub n: Vec<usize>,
    pub e: Vec<usize>,
    pub s: Vec<usize>,
    pub w: Vec<usize>,
}

/// Spec-level image of `Candidates`.
#[verifier::ext_equal]
pub ghost struct CandidatesV {
    pub n: Seq<usize>,
    pub e: Seq<usize>,
    pub s: Seq<usize>,
    pub w: Seq<usize>,
}

impl View for Candidates {
    type V = CandidatesV;

    open spec fn view(&self) -> CandidatesV {
        CandidatesV { n: self.n@, e: self.e@, s: self.s@, w: self.w@ }
    }
}

impl Candidates {
    pub fn empty() -> (r: Candidates)
        ensures
            r@.n.len() == 0 && r@.e.len() == 0 && r@.s.len() == 0 && r@.w.len() == 0,
    {
        Candidates { n: Vec::new(), e: Vec::new(), s: Vec::new(), w: Vec::new() }
    }
}

/// One resolved wall-layer cell.
#[derive(Clone, Debug)]
pub struct RoomTile {
    pub sprite: Option<usize>,
    pub walkable: bool,
    pub visible: bool,
    pub visited: bool,
    pub candidates: Candidates,
}

/// Spec-level image of `RoomTile`.
#[verifier::ext_equal]
pub ghost struct TileV {
    pub sprite: Option<usize>,
    pub walkable: bool,
    pub visible: bool,
    pub visited: bool,
    pub candidates: CandidatesV,
}

impl View for RoomTile {
    type V = TileV;

    open spec fn view(&self) -> TileV {
        TileV {
            sprite: self.sprite,
            walkable: self.walkable,
            visible: self.visible,
            visited: self.visited,
            candidates: self.candidates@,
        }
    }
}

/// One floor-layer cell: pure backdrop under the wall layer.
#[derive(Clone, Debug)]
pub struct FloorTile {
    pub sprite: Option<usize>,
    pub visible: bool,
    pub visited: bool,
}

/// Sprite index painted on every floor cell of a fresh level.
pub const FLOOR_SPRITE: usize = 88;

} // verus!
