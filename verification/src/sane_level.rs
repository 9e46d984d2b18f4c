//! An English-named facade over the Latin-named level model.

use crate::level::{lemma_grid_index, GRADVM, TEGVLA, TEGVLA_TYPVS};
use vstd::prelude::*;

verus! {

/// Type of tile in the level.
#[derive(Clone, Copy, Debug, PartialEq, Eq, Structural)]
pub enum TileType {
    Start,
    End,
    Path,
    PowerStation,
    Crater,
    Relay,
}

/// A single tile in the level.
#[derive(Clone, Copy, Debug, PartialEq, Eq, Structural)]
pub struct Tile {
    pub tile_type: TileType,
    pub shadow: bool,
}

impl TileType {
    /// The facade name of a terrain kind.
    pub open spec fn spec_from(value: TEGVLA_TYPVS) -> TileType {
        match value {
            TEGVLA_TYPVS::INITIVM => TileType::Start,
            TEGVLA_TYPVS::FINIS => TileType::End,
            TEGVLA_TYPVS::SEMITA => TileType::Path,
            TEGVLA_TYPVS::SATVRNALIA => TileType::PowerStation,
            TEGVLA_TYPVS::CRATERA => TileType::Crater,
            TEGVLA_TYPVS::INGENII => TileType::Relay,
        }
    }

    /// Translate a terrain kind into its facade name.
    pub fn from(value: &TEGVLA_TYPVS) -> (r: TileType)
        ensures
            r == TileType::spec_from(*value),
    {
        match value {
            TEGVLA_TYPVS::INITIVM => TileType::Start,
            TEGVLA_TYPVS::FINIS => TileType::End,
            TEGVLA_TYPVS::SEMITA => TileType::Path,
            TEGVLA_TYPVS::SATVRNALIA => TileType::PowerStation,
            TEGVLA_TYPVS::CRATERA => TileType::Crater,
            TEGVLA_TYPVS::INGENII => TileType::Relay,
        }
    }
}

impl Tile {
    /// The facade view of a tile.
    pub open spec fn spec_from(value: TEGVLA) -> Tile {
        Tile { tile_type: TileType::spec_from(value.TYPVS), shadow: value.VMBRA }
    }

    /// Translate a tile into its facade view.
    pub fn from(value: &TEGVLA) -> (r: Tile)
        ensures
            r == Tile::spec_from(*value),
    {
        Tile { tile_type: TileType::from(&value.TYPVS), shadow: value.VMBRA }
    }
}

/// A level containing tiles at grid positions.
pub struct Level {
    tiles: Vec<Option<Tile>>,
    width: i8,
    height: i8,
}

impl Level {
    /// The tile cells, row-major.
    pub closed spec fn spec_tiles(&self) -> Seq<Option<Tile>> {
        self.tiles@
    }

    /// Grid width.
    pub closed spec fn spec_width(&self) -> int {
        self.width as int
    }

    /// Grid height.
    pub closed spec fn spec_height(&self) -> int {
        self.height as int
    }

    /// Shape well-formedness.
    pub open spec fn spec_wf(&self) -> bool {
        &&& 0 <= self.spec_width() <= 127
        &&& 0 <= self.spec_height() <= 127
        &&& self.spec_tiles().len() == self.spec_width() * self.spec_height()
    }

    /// The tile at `(x, z)`; `None` outside the grid or on a hole.
    pub open spec fn spec_tile_at(&self, x: int, z: int) -> Option<Tile> {
        if 0 <= x < self.spec_width() && 0 <= z < self.spec_height() {
            self.spec_tiles()[z * self.spec_width() + x]
        } else {
            None
        }
    }

    /// Get all tiles in the level, row-major.
    pub fn tiles(&self) -> (r: &Vec<Option<Tile>>)
        ensures
            r@ == self.spec_tiles(),
    {
        &self.tiles
    }

    /// Get a specific tile at a position.
    pub fn get_tile(&self, x: i8, z: i8) -> (r: Option<Tile>)
        requires
            self.spec_wf(),
        ensures
            r == self.spec_tile_at(x as int, z as int),
    {
        if 0 <= x && x < self.width && 0 <= z && z < self.height {
            proof {
                lemma_grid_index(self.width as int, self.height as int, x as int, z as int);
            }
            let idx: usize = (z as usize) * (self.width as usize) + (x as usize);
            self.tiles[idx]
        } else {
            None
        }
    }

    /// Create a `Level` from the internal Latin representation.
    pub fn from_internal(gradvs: &GRADVM) -> (r: Level)
        requires
            gradvs.wf(),
        ensures
            r.spec_wf(),
            r.spec_width() == gradvs.LATIVIDO as int,
            r.spec_height() == gradvs.ALTIVIDO as int,
            forall|x: int, z: int|
                #[trigger] r.spec_tile_at(x, z) == match gradvs.spec_tile(x, z) {
                    Some(t) => Some(Tile::spec_from(t)),
                    None => None,
                },
    {
        let n = gradvs.TEGLVAE.len();
        let mut tiles: Vec<Option<Tile>> = Vec::new();
        let mut i: usize = 0;
        while i < n
            invariant
                gradvs.wf(),
                n == gradvs.TEGLVAE@.len(),
                i <= n,
                tiles@.len() == i,
                forall|j: int|
                    0 <= j < i ==> #[trigger] tiles@[j] == match gradvs.TEGLVAE@[j] {
                        Some(t) => Some(Tile::spec_from(t)),
                        None => None,
                    },
            decreases n - i,
        {
            let cell: Option<Tile> = match &gradvs.TEGLVAE[i] {
                Some(t) => Some(Tile::from(t)),
                None => None,
            };
            tiles.push(cell);
            i = i + 1;
        }
        let r = Level { tiles, width: gradvs.LATIVIDO, height: gradvs.ALTIVIDO };
        proof {
            assert forall|x: int, z: int| #[trigger] r.spec_tile_at(x, z) == (
            match gradvs.spec_tile(x, z) {
                Some(t) => Some(Tile::spec_from(t)),
                None => None,
            }) by {
                if 0 <= x < r.spec_width() && 0 <= z < r.spec_height() {
                    lemma_grid_index(gradvs.LATIVIDO as int, gradvs.ALTIVIDO as int, x, z);
                }
            }
        }
        r
    }
}

} // verus!
