//! The level model: a rectangular grid of optional tiles plus a symmetric
//! wire-link graph, stored row-major. Coordinate `(x, y)` has `x` growing to
//! the right and `y` growing upward; a cell without a tile is a hole and is
//! out of bounds for every rover.

use vstd::prelude::*;

verus! {

/// A grid coordinate.
#[derive(Clone, Copy, Debug, PartialEq, Eq, Structural)]
pub struct Pos {
    pub x: i8,
    pub y: i8,
}

/// The terrain kind of one tile.
#[derive(Clone, Copy, Debug, PartialEq, Eq, Structural)]
pub enum TEGVLA_TYPVS {
    /// Start: a rover spawns here.
    INITIVM,
    /// Finish: carries one collectible crystal.
    FINIS,
    /// Plain path.
    SEMITA,
    /// Power station.
    SATVRNALIA,
    /// Crater.
    CRATERA,
    /// Relay.
    INGENII,
}

/// One tile: its terrain kind and whether it lies in shadow.
#[derive(Clone, Copy, Debug, PartialEq, Eq, Structural)]
pub struct TEGVLA {
    pub TYPVS: TEGVLA_TYPVS,
    pub VMBRA: bool,
}

/// Settings handed to the level loader.
#[derive(Clone, Copy, Debug, PartialEq, Eq, Structural)]
pub struct GRADVM_ORENATOR_CONFIGVRATIONES {
    pub INDEX: u32,
}

/// A level: `LATIVIDO` columns by `ALTIVIDO` rows of optional tiles, and for
/// every cell an optional wire partner. Wire links are symmetric.
pub struct GRADVM {
    /// Row-major tile grid; index of `(x, y)` is `y * LATIVIDO + x`.
    pub TEGLVAE: Vec<Option<TEGVLA>>,
    /// Grid width.
    pub LATIVIDO: i8,
    /// Grid height.
    pub ALTIVIDO: i8,
    /// The level's index, as given by the loader settings.
    pub INDEX: u32,
    /// Number of start tiles, i.e. of rovers.
    pub NVMERVS_VEHICVLORVM_MOBILIVM: i8,
    /// Number of finish tiles, i.e. of collectible crystals.
    pub NVMERVS_CRYSTALLORVM: i8,
    /// Row-major wire-partner grid, indexed like `TEGLVAE`.
    pub NEXVS: Vec<Option<Pos>>,
}

impl GRADVM {
    /// Is `(x, y)` inside the grid rectangle?
    pub open spec fn spec_in_bounds(&self, x: int, y: int) -> bool {
        0 <= x < self.LATIVIDO as int && 0 <= y < self.ALTIVIDO as int
    }

    /// Row-major index of the cell `(x, y)`.
    pub open spec fn spec_index_of(&self, x: int, y: int) -> int {
        y * (self.LATIVIDO as int) + x
    }

    /// The tile at `(x, y)`; `None` outside the rectangle or on a hole.
    pub open spec fn spec_tile(&self, x: int, y: int) -> Option<TEGVLA> {
        if self.spec_in_bounds(x, y) {
            self.TEGLVAE@[self.spec_index_of(x, y)]
        } else {
            None
        }
    }

    /// The wire partner of the cell `(x, y)`, if that cell is linked.
    pub open spec fn spec_partner(&self, x: int, y: int) -> Option<Pos> {
        if self.spec_in_bounds(x, y) {
            self.NEXVS@[self.spec_index_of(x, y)]
        } else {
            None
        }
    }

    /// Well-formedness: the grids cover the rectangle and the wire links are
    /// symmetric, tile-backed and never self-referential.
    pub open spec fn wf(&self) -> bool {
        &&& 0 <= self.LATIVIDO as int
        &&& 0 <= self.ALTIVIDO as int
        &&& self.TEGLVAE@.len() == (self.LATIVIDO as int) * (self.ALTIVIDO as int)
        &&& self.NEXVS@.len() == self.TEGLVAE@.len()
        &&& forall|x: int, y: int|
            self.spec_in_bounds(x, y) && (#[trigger] self.spec_partner(x, y)) is Some ==> {
                let p = self.spec_partner(x, y)->0;
                &&& self.spec_in_bounds(p.x as int, p.y as int)
                &&& self.spec_tile(x, y) is Some
                &&& self.spec_tile(p.x as int, p.y as int) is Some
                &&& self.spec_partner(p.x as int, p.y as int) == Some(
                    Pos { x: x as i8, y: y as i8 },
                )
                &&& !(p.x as int == x && p.y as int == y)
            }
    }

    /// The tile at `(x, y)`.
    pub fn tile_at(&self, x: i8, y: i8) -> (r: Option<TEGVLA>)
        requires
            self.wf(),
        ensures
            r == self.spec_tile(x as int, y as int),
    {
        if 0 <= x && x < self.LATIVIDO && 0 <= y && y < self.ALTIVIDO {
            proof {
                lemma_grid_index(
                    self.LATIVIDO as int,
                    self.ALTIVIDO as int,
                    x as int,
                    y as int,
                );
            }
            let idx: usize = (y as usize) * (self.LATIVIDO as usize) + (x as usize);
            self.TEGLVAE[idx]
        } else {
            None
        }
    }

    /// The wire partner of `(x, y)`, if any.
    pub fn wire_partner(&self, x: i8, y: i8) -> (r: Option<Pos>)
        requires
            self.wf(),
        ensures
            r == self.spec_partner(x as int, y as int),
    {
        if 0 <= x && x < self.LATIVIDO && 0 <= y && y < self.ALTIVIDO {
            proof {
                lemma_grid_index(
                    self.LATIVIDO as int,
                    self.ALTIVIDO as int,
                    x as int,
                    y as int,
                );
            }
            let idx: usize = (y as usize) * (self.LATIVIDO as usize) + (x as usize);
            self.NEXVS[idx]
        } else {
            None
        }
    }
}

/// Does the level have a tile at `pos`? Cells outside the rectangle and holes
/// both count as out of the level.
pub fn is_pos_in_level(level: &GRADVM, pos: &Pos) -> (r: bool)
    requires
        level.wf(),
    ensures
        r == (level.spec_tile(pos.x as int, pos.y as int) is Some),
{
    level.tile_at(pos.x, pos.y).is_some()
}

/// A row-major grid index lies inside the grid's backing vector, and grids
/// with `i8` extents are small.
pub proof fn lemma_grid_index(w: int, h: int, x: int, y: int)
    requires
        0 <= x < w,
        0 <= y < h,
        w <= 127,
        h <= 127,
    ensures
        0 <= y * w + x < w * h,
        w * h <= 16129,
{
    assert(0 <= y * w + x < w * h && w * h <= 16129) by (nonlinear_arith)
        requires
            0 <= x < w,
            0 <= y < h,
            w <= 127,
            h <= 127,
    ;
}

/// Row-major grid indexing is injective on in-bounds coordinates.
pub proof fn lemma_grid_index_injective(w: int, x1: int, y1: int, x2: int, y2: int)
    requires
        0 <= x1 < w,
        0 <= x2 < w,
        0 <= y1,
        0 <= y2,
        y1 * w + x1 == y2 * w + x2,
    ensures
        x1 == x2 && y1 == y2,
{
    assert(x1 == x2 && y1 == y2) by (nonlinear_arith)
        requires
            0 <= x1 < w,
            0 <= x2 < w,
            0 <= y1,
            0 <= y2,
            y1 * w + x1 == y2 * w + x2,
    ;
}

} // verus!
