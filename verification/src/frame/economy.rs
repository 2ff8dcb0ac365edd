//! How much room blocks take in a frame.
use vstd::prelude::*;
use crate::block::compress::{bound, LZ4_MAX_INPUT_SIZE};
use crate::block::encode::lemma_ext_len;
use crate::block::entry::fast_outcome;
use crate::block::greedy::{law_fast_run, uniform};
use crate::block::parse::Env;
use crate::block::room::law_fast_room_is_exact;
use crate::block::stream::{dict_cells, WINDOW};
use crate::block::table::Cells;
use crate::bytes::le32_bytes;
use crate::format::{enc_block, len_ext, MFLIMIT};
use crate::xxh::xxh32_spec;
use super::compress::{acceleration_of, ample, stream_env, BlockCompressMode, Encoder, Track};

verus! {

/// The bytes of a block: its size and whether it is stored as it is, its
/// payload, and the checksum of that, if one is asked for.
pub open spec fn laid_out(payload: Seq<u8>, stored: bool, checked: bool) -> Seq<u8> {
    le32_bytes(
        (payload.len() + (if stored {
            0x8000_0000int
        } else {
            0
        })) as u32,
    ) + payload + (if checked {
        le32_bytes(xxh32_spec(payload, 0))
    } else {
        Seq::empty()
    })
}

/// In a stream too, room plays no part in how a block is parsed.
proof fn lemma_stream_room(a: Env, b: Env, cells: Cells)
    requires
        a.wf(),
        b.wf(),
        !a.fill,
        0 <= a.room,
        a.limited,
        b.limited,
        a.at_large() == b.at_large(),
        bound(b.len()) <= b.room,
    ensures
        b.parse(cells).block matches Some((seqs, last)) && a.parse(cells).block == if enc_block(
            seqs,
            last,
        ).len() <= a.room {
            Some((seqs, last))
        } else {
            None
        },
{
    a.law_room_is_exact(cells);
    b.law_room_is_exact(cells);
    b.law_bound_suffices(cells);
}

impl Encoder {
    /// Whether the context can take `n` more bytes: indices do not run out.
    pub open spec fn takes(self, n: int) -> bool {
        &&& self.wf()
        &&& self.stage == 1
        &&& 0 < n <= LZ4_MAX_INPUT_SIZE
        &&& self.linked() ==> self.track.offset + n <= u32::MAX
    }

    proof fn lemma_attempt_room(self, chunk: Seq<u8>, space: int, little: bool)
        requires
            self.takes(chunk.len() as int),
            0 <= space,
        ensures
            self.attempt(chunk, bound(chunk.len() as int), little).block matches Some((seqs, last))
                && self.attempt(chunk, space, little).block == if enc_block(seqs, last).len()
                <= space {
                Some((seqs, last))
            } else {
                None
            },
    {
        reveal(Encoder::attempt);
        let n = chunk.len() as int;
        let accel = acceleration_of(self.prefs.compression_level);
        if self.linked() {
            let a = stream_env(chunk, space, self.track, self.dict, true, accel, little);
            let b = stream_env(chunk, bound(n), self.track, self.dict, true, accel, little);
            lemma_stream_room(a, b, self.track.cells);
        } else if self.frame_dict.len() == 0 {
            law_fast_room_is_exact(chunk, space, bound(n), accel, little);
        } else {
            let d = self.frame_dict;
            let cells = dict_cells(d, true, little);
            let t = Track { cells, offset: WINDOW, size: d.len() as u32 };
            let a = stream_env(chunk, space, t, d, false, accel, little);
            let b = stream_env(chunk, bound(n), t, d, false, accel, little);
            lemma_stream_room(a, b, cells);
        }
    }

    /// A block stands in a frame as what it compresses to with room enough, if
    /// that is less than it, and as it is otherwise.
    pub proof fn law_block_takes_least(self, chunk: Seq<u8>, little: bool)
        requires
            self.takes(chunk.len() as int),
        ensures
            self.attempt(chunk, bound(chunk.len() as int), little).block matches Some((seqs, last))
                && {
                let c = enc_block(seqs, last);
                let checked = self.prefs.frame_info.block_checksum;
                self.block_for(chunk, BlockCompressMode::Compressed, little) == if c.len()
                    < chunk.len() {
                    laid_out(c, false, checked)
                } else {
                    laid_out(chunk, true, checked)
                }
            },
    {
        reveal(Encoder::block_in);
        let n = chunk.len() as int;
        self.lemma_attempt_room(chunk, ample(n), little);
        if let Some((seqs, last)) = self.attempt(chunk, bound(n), little).block {
            assert(enc_block(seqs, last).len() >= 1);
        }
    }

    /// A block that is not to be compressed stands in a frame as it is.
    pub proof fn law_block_as_it_is(self, chunk: Seq<u8>, little: bool)
        ensures
            self.block_for(chunk, BlockCompressMode::Uncompressed, little) == laid_out(
                chunk,
                true,
                self.prefs.frame_info.block_checksum,
            ),
    {
        reveal(Encoder::block_in);
    }

    /// A block of `n` equal bytes that refers to nothing before it takes
    /// fourteen bytes, the extension of one length code, and its checksum.
    pub proof fn law_run_block(self, chunk: Seq<u8>, little: bool)
        requires
            self.takes(chunk.len() as int),
            !self.linked(),
            self.frame_dict.len() == 0,
            MFLIMIT < chunk.len(),
            uniform(chunk),
        ensures
            self.block_for(chunk, BlockCompressMode::Compressed, little).len() == 4 + 10 + len_ext(
                chunk.len() - 10,
            ).len() + (if self.prefs.frame_info.block_checksum {
                4int
            } else {
                0
            }),
    {
        let n = chunk.len() as int;
        let accel = acceleration_of(self.prefs.compression_level);
        self.law_block_takes_least(chunk, little);
        law_fast_run(chunk, bound(n), accel, little);
        lemma_ext_len(n - 10);
        reveal(Encoder::attempt);
        assert(self.attempt(chunk, bound(n), little) == fast_outcome(
            chunk,
            bound(n),
            accel,
            little,
        ));
    }
}

} // verus!
