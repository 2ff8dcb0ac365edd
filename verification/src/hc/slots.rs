//! What the hashes of the high-compression levels are, as numbers.
use vstd::prelude::*;
use crate::block::table::word32;
use crate::bytes::{le32, le64};
use super::chase::slot;
use super::mid::{slot4, slot8};

verus! {

/// Chains start at the top bits of the product of four bytes with a prime, in 32
/// bits.
pub proof fn law_chain_slot(s: Seq<u8>, at: int, little: bool)
    ensures
        slot(s, at, little) == (word32(s, at, little) * 2654435761) % 0x1_0000_0000 / 0x2_0000,
{
    reveal(slot);
    let x = word32(s, at, little).wrapping_mul(2654435761u32);
    assert(x >> 17u32 == x / 0x2_0000) by (bit_vector);
}

/// The tables of the lower levels are entered at the top bits of the product of
/// the first four bytes, or the first seven, with a prime.
pub proof fn law_mid_slots(s: Seq<u8>, at: int)
    ensures
        slot4(s, at) == (le32(s, at) * 2654435761) % 0x1_0000_0000 / 0x4_0000,
        slot8(s, at) == ((le64(s, at) % 0x100_0000_0000_0000) * 0x100) * 58295818150454627
            % 0x1_0000_0000_0000_0000 / 0x4_0000_0000_0000,
{
    reveal(slot4);
    reveal(slot8);
    let x = le32(s, at).wrapping_mul(2654435761u32);
    assert(x >> 18u32 == x / 0x4_0000 && x / 0x4_0000 < 0x4000) by (bit_vector);
    let v = le64(s, at);
    assert(v << 8u64 == (v % 0x100_0000_0000_0000) * 0x100) by (bit_vector);
    let y = (v << 8u64).wrapping_mul(58295818150454627u64);
    assert(y >> 50u64 == y / 0x4_0000_0000_0000 && y / 0x4_0000_0000_0000 < 0x4000)
        by (bit_vector);
}

} // verus!
