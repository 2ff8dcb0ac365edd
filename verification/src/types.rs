//! Sizes of state that callers allocate, and small shared types.
use vstd::prelude::*;

verus! {

/// Memory for the hash table of the fast compressor: two to this many bytes.
pub const LZ4_MEMORY_USAGE: usize = 14;

/// Size in bytes of the state of the fast compressor.
pub const LZ4_STREAM_SIZE: usize = 16416;
/// Alignment in bytes of the state of the fast compressor.
pub const LZ4_STREAM_ALIGN: usize = 8;
/// Size in bytes of the state of a stream decoder.
pub const LZ4_STREAMDECODE_SIZE: usize = 32;
/// Alignment in bytes of the state of a stream decoder.
pub const LZ4_STREAMDECODE_ALIGN: usize = 8;
/// Size in bytes of the state of the high-compression compressor.
pub const LZ4_STREAMHC_SIZE: usize = 262200;
/// Alignment in bytes of the state of the high-compression compressor.
pub const LZ4_STREAMHC_ALIGN: usize = 8;

pub type XXH32_hash_t = u32;

pub type XXH64_hash_t = u64;

/// How a hash function ended.
pub type XXH_errorcode = i32;

pub const XXH_OK: XXH_errorcode = 0;

pub const XXH_ERROR: XXH_errorcode = 1;

/// A hash in its canonical form: high byte first.
#[derive(Clone, Copy)]
pub struct XXH32_canonical_t {
    pub digest: [u8; 4],
}

/// A hash in its canonical form: high byte first.
#[derive(Clone, Copy)]
pub struct XXH64_canonical_t {
    pub digest: [u8; 8],
}

/// The result of a frame function, as a number: a size, or an error.
pub type LZ4F_errorCode_t = usize;

/// The number of an error.
pub type LZ4F_errorCodes = i32;

pub type LZ4F_blockSizeID_t = i32;

pub type LZ4F_blockMode_t = i32;

pub type LZ4F_contentChecksum_t = i32;

pub type LZ4F_blockChecksum_t = i32;

pub type LZ4F_frameType_t = i32;

/// A stream that the caller owns.
pub struct FILE {
    _private: [u8; 0],
}

} // verus!
