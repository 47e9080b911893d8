//! The packer: 64 tiles and a level's settings become a record of 33 bytes.

use crate::bits::{fits_in_bits, fits_in_n_ubits};
use crate::level::{LevelValues, PackError, CLUTTER_BITS, GRID_TILES, TILE_BITS};
use vstd::arithmetic::power2::*;
use vstd::prelude::*;

verus! {

/// Two tile ids in one byte: `hi` in the upper four bits, `lo` in the lower four.
pub open spec fn nibble_pair(hi: u8, lo: u8) -> u8 {
    (hi << 4) | lo
}

/// A flag as a single bit.
pub open spec fn flag_bit(flag: bool) -> u8 {
    if flag {
        1
    } else {
        0
    }
}

/// The last byte of a record: bit 7 is `top_door`, bit 6 is `left_door`,
/// bit 5 is `corner`, and the low five bits hold the clutter level.
pub open spec fn flags_byte(values: LevelValues) -> u8 {
    (flag_bit(values.top_door) << 7) | (flag_bit(values.left_door) << 6) | (flag_bit(
        values.corner,
    ) << 5) | (values.clutter_level as u8)
}

/// The record of a grid and its settings: byte `k` below 32 pairs tiles `2k`
/// and `2k + 1`, byte 32 holds the flags.
pub open spec fn record_bytes(tiles: Seq<i32>, values: LevelValues) -> Seq<u8> {
    Seq::new(
        33,
        |k: int|
            if k < 32 {
                nibble_pair(tiles[2 * k] as u8, tiles[2 * k + 1] as u8)
            } else {
                flags_byte(values)
            },
    )
}

/// Position `i` holds the first tile of `tiles` that does not fit `n` bits.
pub open spec fn is_first_unfit(tiles: Seq<i32>, n: nat, i: int) -> bool {
    &&& 0 <= i < tiles.len()
    &&& !fits_in_bits(tiles[i] as int, n)
    &&& forall|j: int| 0 <= j < i ==> fits_in_bits(#[trigger] tiles[j] as int, n)
}

/// Every tile of `tiles` fits `n` bits.
pub open spec fn all_fit(tiles: Seq<i32>, n: nat) -> bool {
    forall|i: int| 0 <= i < tiles.len() ==> fits_in_bits(#[trigger] tiles[i] as int, n)
}

/// The position of the first tile that does not fit `n` bits, where there is one.
pub open spec fn first_unfit(tiles: Seq<i32>, n: nat) -> int {
    choose|i: int| is_first_unfit(tiles, n, i)
}

/// A grid and settings that can be packed: 64 tiles of four bits each and a
/// clutter level of five bits.
pub open spec fn packable(tiles: Seq<i32>, values: LevelValues) -> bool {
    &&& tiles.len() == 64
    &&& all_fit(tiles, 4)
    &&& fits_in_bits(values.clutter_level as int, 5)
}

/// What packing yields. The grid's length is looked at first, then the tiles
/// in their order, then the clutter level; the first fault found is the one
/// reported.
pub open spec fn pack_outcome(tiles: Seq<i32>, values: LevelValues) -> Result<Seq<u8>, PackError> {
    if tiles.len() != 64 {
        Err(PackError::GridLength { len: tiles.len() as usize })
    } else if !all_fit(tiles, 4) {
        let i = first_unfit(tiles, 4);
        Err(PackError::TileOutOfRange { index: i as usize, tile: tiles[i] })
    } else if !fits_in_bits(values.clutter_level as int, 5) {
        Err(PackError::ClutterOutOfRange { clutter_level: values.clutter_level })
    } else {
        Ok(record_bytes(tiles, values))
    }
}

/// Packs 64 tiles and a level's settings into a record of 33 bytes, or says
/// what keeps them from fitting.
pub fn to_binary(tile_ids: &[i32], values: LevelValues) -> (packed: Result<[u8; 33], PackError>)
    ensures
        match packed {
            Ok(record) => pack_outcome(tile_ids@, values) == Ok::<Seq<u8>, PackError>(record@),
            Err(e) => pack_outcome(tile_ids@, values) == Err::<Seq<u8>, PackError>(e),
        },
{
    if tile_ids.len() != GRID_TILES {
        return Err(PackError::GridLength { len: tile_ids.len() });
    }
    proof {
        lemma2_to64();
    }
    let mut record = [0u8; 33];
    let mut k: usize = 0;
    while k < 32
        invariant
            k <= 32,
            tile_ids@.len() == 64,
            pow2(4) == 16,
            forall|j: int| 0 <= j < 2 * k ==> fits_in_bits(#[trigger] tile_ids@[j] as int, 4),
            forall|j: int|
                0 <= j < k ==> #[trigger] record@[j] == nibble_pair(
                    tile_ids@[2 * j] as u8,
                    tile_ids@[2 * j + 1] as u8,
                ),
        decreases 32 - k,
    {
        let hi = tile_ids[2 * k];
        let lo = tile_ids[2 * k + 1];
        if !fits_in_n_ubits(hi, TILE_BITS) {
            assert(is_first_unfit(tile_ids@, 4, 2 * k as int));
            return Err(PackError::TileOutOfRange { index: 2 * k, tile: hi });
        }
        if !fits_in_n_ubits(lo, TILE_BITS) {
            assert(is_first_unfit(tile_ids@, 4, 2 * k + 1));
            return Err(PackError::TileOutOfRange { index: 2 * k + 1, tile: lo });
        }
        record[k] = ((hi as u8) << 4) | (lo as u8);
        k += 1;
    }
    assert(all_fit(tile_ids@, 4));
    if !fits_in_n_ubits(values.clutter_level, CLUTTER_BITS) {
        return Err(PackError::ClutterOutOfRange { clutter_level: values.clutter_level });
    }
    let top: u8 = if values.top_door { 1 } else { 0 };
    let left: u8 = if values.left_door { 1 } else { 0 };
    let corner: u8 = if values.corner { 1 } else { 0 };
    record[32] = (top << 7) | (left << 6) | (corner << 5) | (values.clutter_level as u8);
    assert(record@ =~= record_bytes(tile_ids@, values));
    Ok(record)
}

/// The tile id in the upper four bits of a byte.
pub open spec fn high_nibble(byte: u8) -> u8 {
    byte >> 4
}

/// The tile id in the lower four bits of a byte.
pub open spec fn low_nibble(byte: u8) -> u8 {
    byte & 0x0F
}

/// The 64 tiles that the first 32 bytes of a record hold: byte `k` gives
/// tile `2k` from its upper half and tile `2k + 1` from its lower half.
pub open spec fn unpacked_tiles(record: Seq<u8>) -> Seq<i32> {
    Seq::new(
        64,
        |i: int|
            if i % 2 == 0 {
                high_nibble(record[i / 2]) as i32
            } else {
                low_nibble(record[i / 2]) as i32
            },
    )
}

/// The settings that a flags byte holds: bits 7, 6 and 5 are the three
/// flags, the low five bits are the clutter level.
pub open spec fn unpacked_values(flags: u8) -> LevelValues {
    LevelValues {
        top_door: (flags >> 7) & 1 == 1,
        left_door: (flags >> 6) & 1 == 1,
        corner: (flags >> 5) & 1 == 1,
        clutter_level: (flags & 0x1F) as i32,
    }
}

/// A pair of tile ids of four bits each is the number `16 * hi + lo`, and
/// both ids can be read back from it.
pub proof fn lemma_nibble_pair(hi: u8, lo: u8)
    requires
        hi < 16,
        lo < 16,
    ensures
        nibble_pair(hi, lo) == 16 * hi + lo,
        high_nibble(nibble_pair(hi, lo)) == hi,
        low_nibble(nibble_pair(hi, lo)) == lo,
{
    assert(((hi << 4) | lo) == 16 * hi + lo) by (bit_vector)
        requires
            hi < 16,
            lo < 16,
    ;
    assert(((hi << 4) | lo) >> 4 == hi) by (bit_vector)
        requires
            hi < 16,
            lo < 16,
    ;
    assert(((hi << 4) | lo) & 0x0F == lo) by (bit_vector)
        requires
            hi < 16,
            lo < 16,
    ;
}

/// The flags byte is the number `128 * top_door + 64 * left_door + 32 *
/// corner + clutter_level`, and all four settings can be read back from it.
pub proof fn lemma_flags_byte(values: LevelValues)
    requires
        fits_in_bits(values.clutter_level as int, 5),
    ensures
        flags_byte(values) == 128 * flag_bit(values.top_door) + 64 * flag_bit(values.left_door)
            + 32 * flag_bit(values.corner) + values.clutter_level,
        unpacked_values(flags_byte(values)) == values,
{
    lemma2_to64();
    let t = flag_bit(values.top_door);
    let l = flag_bit(values.left_door);
    let c = flag_bit(values.corner);
    let n = values.clutter_level as u8;
    let byte = (t << 7) | (l << 6) | (c << 5) | n;
    assert(byte == 128 * t + 64 * l + 32 * c + n) by (bit_vector)
        requires
            t <= 1,
            l <= 1,
            c <= 1,
            n < 32,
            byte == (t << 7) | (l << 6) | (c << 5) | n,
    ;
    assert((byte >> 7) & 1 == t && (byte >> 6) & 1 == l && (byte >> 5) & 1 == c && byte & 0x1F
        == n) by (bit_vector)
        requires
            t <= 1,
            l <= 1,
            c <= 1,
            n < 32,
            byte == (t << 7) | (l << 6) | (c << 5) | n,
    ;
}

/// Packing loses nothing: for every grid and settings that can be packed,
/// the record is 33 bytes long, its first 32 bytes give back the 64 tiles,
/// and its last byte gives back the settings.
pub proof fn lemma_unpack_inverts_pack(tiles: Seq<i32>, values: LevelValues)
    requires
        packable(tiles, values),
    ensures
        pack_outcome(tiles, values) == Ok::<Seq<u8>, PackError>(record_bytes(tiles, values)),
        record_bytes(tiles, values).len() == 33,
        unpacked_tiles(record_bytes(tiles, values)) == tiles,
        unpacked_values(record_bytes(tiles, values)[32]) == values,
{
    lemma2_to64();
    lemma_flags_byte(values);
    let record = record_bytes(tiles, values);
    assert forall|i: int| 0 <= i < 64 implies unpacked_tiles(record)[i] == tiles[i] by {
        let k = i / 2;
        assert(fits_in_bits(tiles[2 * k] as int, 4));
        assert(fits_in_bits(tiles[2 * k + 1] as int, 4));
        lemma_nibble_pair(tiles[2 * k] as u8, tiles[2 * k + 1] as u8);
    }
    assert(unpacked_tiles(record) =~= tiles);
}

/// Where some tile does not fit, there is a first one that does not, and
/// `first_unfit` is its position.
pub proof fn lemma_first_unfit(tiles: Seq<i32>, n: nat)
    requires
        !all_fit(tiles, n),
    ensures
        is_first_unfit(tiles, n, first_unfit(tiles, n)),
{
    let w = choose|i: int| 0 <= i < tiles.len() && !fits_in_bits(#[trigger] tiles[i] as int, n);
    lemma_unfit_has_first(tiles, n, w);
}

proof fn lemma_unfit_has_first(tiles: Seq<i32>, n: nat, w: int)
    requires
        0 <= w < tiles.len(),
        !fits_in_bits(tiles[w] as int, n),
    ensures
        exists|i: int| is_first_unfit(tiles, n, i),
    decreases w,
{
    if forall|j: int| 0 <= j < w ==> fits_in_bits(#[trigger] tiles[j] as int, n) {
        assert(is_first_unfit(tiles, n, w));
    } else {
        let j = choose|j: int| 0 <= j < w && !fits_in_bits(#[trigger] tiles[j] as int, n);
        lemma_unfit_has_first(tiles, n, j);
    }
}

} // verus!
