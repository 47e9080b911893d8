//! Packs the levels of a tile map into records of 33 bytes each.
//!
//! A level is a background of 64 tiles, a list of entities that overwrite
//! tiles, and a few settings. [`grid`] merges the two layers, [`pack`] turns
//! the merged grid and the settings into a record, [`batch`] does both for a
//! whole set of levels in the order of their clutter level, and [`render`]
//! writes the records out as raw bytes or as C source text.

pub mod batch;
pub mod bits;
pub mod grid;
pub mod level;
pub mod order;
pub mod pack;
pub mod render;

pub use crate::batch::{build, pack_level};
pub use crate::bits::fits_in_n_ubits;
pub use crate::grid::to_tiles;
pub use crate::level::{BatchError, Entity, Level, LevelValues, PackError};
pub use crate::pack::to_binary;
pub use crate::render::{array_decl, header};
