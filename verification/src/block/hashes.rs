//! What a hash of the block compressor is, as a number.
use vstd::prelude::*;
use super::table::{hash4_spec, hash5_spec, hash_at, word32, word64, TableType};

verus! {

proof fn lemma_top32(x: u32)
    ensures
        x >> 19u32 == x / 0x8_0000,
        x >> 20u32 == x / 0x10_0000,
{
    assert(x >> 19u32 == x / 0x8_0000) by (bit_vector);
    assert(x >> 20u32 == x / 0x10_0000) by (bit_vector);
}

/// Four bytes hash to the top bits of their product with a prime, in 32 bits.
pub proof fn law_hash_of_four(v: u32, tt: TableType)
    ensures
        hash4_spec(v, tt) == (v * 2654435761) % 0x1_0000_0000 / (match tt {
            TableType::U16 => 0x8_0000int,
            TableType::U32 => 0x10_0000int,
        }),
{
    lemma_top32(v.wrapping_mul(2654435761u32));
}

proof fn lemma_top64(x: u64)
    ensures
        x >> 51u64 == x / 0x8_0000_0000_0000,
        x >> 52u64 == x / 0x10_0000_0000_0000,
        x / 0x8_0000_0000_0000 < 0x2000,
{
    assert(x >> 51u64 == x / 0x8_0000_0000_0000) by (bit_vector);
    assert(x >> 52u64 == x / 0x10_0000_0000_0000) by (bit_vector);
}

/// Eight bytes hash to the top bits of a product of five of them with a prime, in
/// 64 bits: the first five, in the order in which the host loads them.
pub proof fn law_hash_of_five(v: u64, tt: TableType, little: bool)
    ensures
        hash5_spec(v, tt, little) == (if little {
            ((v % 0x100_0000_0000) * 0x100_0000) * 889523592379
        } else {
            (v / 0x100_0000) * 11400714785074694791
        }) % 0x1_0000_0000_0000_0000 / (match tt {
            TableType::U16 => 0x8_0000_0000_0000int,
            TableType::U32 => 0x10_0000_0000_0000int,
        }),
{
    assert(v << 24u64 == (v % 0x100_0000_0000) * 0x100_0000) by (bit_vector);
    assert(v >> 24u64 == v / 0x100_0000) by (bit_vector);
    let x = if little {
        (v << 24u64).wrapping_mul(889523592379u64)
    } else {
        (v >> 24u64).wrapping_mul(11400714785074694791u64)
    };
    lemma_top64(x);
}

/// Which bytes are hashed: four for 16-bit indices, and else as many as the host
/// can hash at once.
pub proof fn law_hashed_bytes(s: Seq<u8>, at: int, little: bool)
    ensures
        hash_at(s, at, TableType::U16, little) == hash4_spec(
            word32(s, at, little),
            TableType::U16,
        ),
        hash_at(s, at, TableType::U32, little) == if usize::BITS == 64 {
            hash5_spec(word64(s, at, little), TableType::U32, little)
        } else {
            hash4_spec(word32(s, at, little), TableType::U32)
        },
{
    reveal(hash_at);
}

} // verus!
