//! Range checks for values stored in fixed-width unsigned bit fields.

use vstd::arithmetic::power2::*;
use vstd::bits::*;
use vstd::prelude::*;

verus! {

/// Whether `value` can be stored in an unsigned field that is `n` bits wide.
pub open spec fn fits_in_bits(value: int, n: nat) -> bool {
    0 <= value < pow2(n)
}

/// Decides whether `tile_id` fits an unsigned field of `n` bits.
pub fn fits_in_n_ubits(tile_id: i32, n: u8) -> (fits: bool)
    ensures
        fits == fits_in_bits(tile_id as int, n as nat),
{
    if tile_id < 0 {
        return false;
    }
    if n >= 31 {
        proof {
            lemma2_to64();
            if n > 31 {
                lemma_pow2_strictly_increases(31, n as nat);
            }
        }
        return true;
    }
    let width: u32 = n as u32;
    proof {
        lemma_u32_pow2_no_overflow(n as nat);
        lemma_u32_shl_is_mul(1u32, width);
    }
    let bound: u32 = 1u32 << width;
    (tile_id as u32) < bound
}

} // verus!
