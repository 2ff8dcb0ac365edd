//! The block codec: one block of the LZ4 format, compressed and decompressed.
use vstd::prelude::*;

pub mod accepted;
pub mod compress;
pub mod copy;
pub mod decode;
pub mod encode;
pub mod entry;
pub mod filled;
pub mod greedy;
pub mod hashes;
pub mod input;
pub mod laws;
pub mod loaded;
pub mod local;
pub mod parse;
pub mod room;
pub mod search;
pub mod stream;
pub mod streamed;
pub mod table;
pub mod unbounded;

pub use compress::{compress_bound, LZ4_MAX_INPUT_SIZE};
pub use decode::{decompress_dict, decompress_generic};
pub use entry::{
    compress_abi_continue, compress_abi_ext_state, compress_continue, compress_dest_size,
    compress_fast, LZ4_ACCELERATION_DEFAULT, LZ4_ACCELERATION_MAX,
};
pub use input::Input;
pub use stream::{AbiDecodeState, AbiStreamState, StreamState, ABI_STREAM_PADDING_WORDS};
pub use table::{U16_ENTRIES, U32_ENTRIES};
pub use unbounded::decompress_fast_with;

verus! {

/// Why a block could not be compressed or decompressed.
#[derive(Debug, Clone, Copy, PartialEq, Eq, Structural)]
pub enum Error {
    /// The output does not fit the room given for it.
    OutputTooSmall,
    /// The input is malformed, detected after `consumed` bytes of it.
    Malformed { consumed: usize },
}

} // verus!
