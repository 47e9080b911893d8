//! The data a level is made of, and the ways in which a level can be refused.

use vstd::prelude::*;

verus! {

/// Number of tiles in a grid: eight rows of eight cells, row after row.
pub const GRID_TILES: usize = 64;

/// Number of bytes in a packed record: 32 bytes of tile pairs and one byte of flags.
pub const RECORD_BYTES: usize = 33;

/// Width in bits of a packed tile id.
pub const TILE_BITS: u8 = 4;

/// Width in bits of the packed clutter level.
pub const CLUTTER_BITS: u8 = 5;

/// A marker placed on a level at a pixel position. Its `id` replaces the
/// background tile of the cell that the position falls in.
#[derive(Clone, Copy, Debug, PartialEq, Eq)]
pub struct Entity {
    pub x: i32,
    pub y: i32,
    pub id: i32,
}

/// The settings of a level that travel with its tiles.
///
/// `clutter_level` is meant to lie in `0..=31`. It is kept signed so that a
/// level that breaks this can be told apart and refused.
#[derive(Clone, Copy, Debug, PartialEq, Eq)]
pub struct LevelValues {
    pub top_door: bool,
    pub left_door: bool,
    pub corner: bool,
    pub clutter_level: i32,
}

/// One level: its background tiles, the entities laid over them, and its settings.
#[derive(Clone, Debug, PartialEq, Eq)]
pub struct Level {
    pub background: Vec<i32>,
    pub entities: Vec<Entity>,
    pub values: LevelValues,
}

/// Why a level cannot be packed.
#[derive(Clone, Copy, Debug, PartialEq, Eq)]
pub enum PackError {
    /// The grid does not hold exactly 64 tiles; `len` is what it holds.
    GridLength { len: usize },
    /// The entity at position `entity` of the level's list lies outside the grid.
    EntityOutOfBounds { entity: usize },
    /// The tile at `index` of the merged grid does not fit four bits.
    TileOutOfRange { index: usize, tile: i32 },
    /// The clutter level does not fit five bits.
    ClutterOutOfRange { clutter_level: i32 },
}

/// Why a batch was refused: the level that failed, by its position in the
/// input, and what was wrong with it.
#[derive(Clone, Copy, Debug, PartialEq, Eq)]
pub struct BatchError {
    pub level: usize,
    pub error: PackError,
}

} // verus!
