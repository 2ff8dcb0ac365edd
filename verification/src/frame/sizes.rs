//! The sizes of blocks, and how tight the bounds on their bytes are.
use vstd::prelude::*;
use super::compress::{crc_size, BlockCompressMode, Encoder};
use super::{block_size, bound_internal, optimal_bsid_spec};

verus! {

/// Blocks of number four hold 64 KB, and those of each number up to seven four
/// times as much as those of the one before. Zero stands for four.
pub proof fn law_block_sizes(id: i32)
    ensures
        block_size(id) is Some <==> id == 0 || 4 <= id <= 7,
        block_size(4) == Some(0x1_0000int),
        block_size(0) == block_size(4),
        4 <= id < 7 ==> block_size((id + 1) as i32)->0 == 4 * block_size(id)->0,
{
}

/// The size of blocks that is settled on is the smallest, up to the one
/// requested, that holds all of the input, if one does.
pub proof fn law_smallest_block(requested: i32, len: int)
    requires
        4 <= requested <= 7,
    ensures
        ({
            let r = optimal_bsid_spec(requested, len);
            &&& 4 <= r <= requested
            &&& r < requested ==> len <= block_size(r)->0
            &&& forall|s: i32| 4 <= s < r ==> len > (#[trigger] block_size(s))->0
        }),
{
}

impl Encoder {
    /// Input is cut into full blocks. What does not fill one waits, unless it is
    /// to be flushed, and is then a block by itself.
    pub proof fn law_full_blocks(self, data: Seq<u8>, mode: BlockCompressMode, little: bool)
        requires
            self.wf(),
            self.stage == 1,
        ensures
            block_size(self.prefs.frame_info.block_size_id) matches Some(n) && if data.len() >= n {
                let chunk = data.take(n);
                self.blocks(data, mode, little).0 == self.block_for(chunk, mode, little)
                    + self.after(chunk, mode, little).blocks(data.skip(n), mode, little).0
            } else if self.prefs.auto_flush && data.len() > 0 {
                self.blocks(data, mode, little).0 == self.block_for(data, mode, little)
            } else {
                &&& self.blocks(data, mode, little).0.len() == 0
                &&& self.blocks(data, mode, little).1.buffered == data
            },
    {
        assert(self.buffered.len() < self.block);
    }

    /// How many bytes blocks take that are stored as they are.
    proof fn lemma_stored_len(self, data: Seq<u8>, little: bool)
        requires
            0 < self.block,
        ensures
            ({
                let over = crc_size(self.prefs) + 4;
                let n = data.len() as int;
                let last = if self.prefs.auto_flush && n % self.block > 0 {
                    n % self.block + over
                } else {
                    0
                };
                self.blocks(data, BlockCompressMode::Uncompressed, little).0.len() == n / self.block
                    * (self.block + over) + last
            }),
        decreases data.len(),
    {
        let mode = BlockCompressMode::Uncompressed;
        let n = data.len() as int;
        let b = self.block;
        let over = crc_size(self.prefs) + 4;
        if b <= n {
            let chunk = data.take(b);
            let e = self.after(chunk, mode, little);
            assert(e.prefs == self.prefs && e.block == b) by {
                reveal(Encoder::after_in);
            }
            self.law_block_as_it_is(chunk, little);
            e.lemma_stored_len(data.skip(b), little);
            vstd::arithmetic::div_mod::lemma_div_plus_one(n - b, b);
            vstd::arithmetic::div_mod::lemma_mod_add_multiples_vanish(n - b, b);
            assert((n / b) * (b + over) == ((n - b) / b) * (b + over) + (b + over)) by (
            nonlinear_arith)
                requires
                    n / b == (n - b) / b + 1,
            ;
        } else {
            vstd::arithmetic::div_mod::lemma_basic_div(n, b);
            vstd::arithmetic::div_mod::lemma_small_mod(n as nat, b as nat);
            if self.prefs.auto_flush && n > 0 {
                self.law_block_as_it_is(data, little);
            }
        }
    }

    /// The bound for more input is reached by blocks that are stored as they are
    /// and the end of the frame: it is no larger than it has to be.
    pub proof fn law_bound_is_reached(self, src: Seq<u8>, little: bool)
        requires
            self.wf(),
            self.stage == 1,
            src.len() > 0,
        ensures
            bound_internal(src.len() as int, self.prefs, self.buffered.len() as int) == self.blocks(
                self.buffered + src,
                BlockCompressMode::Uncompressed,
                little,
            ).0.len() + (if self.prefs.frame_info.content_checksum {
                8int
            } else {
                4
            }),
    {
        reveal(bound_internal);
        let data = self.buffered + src;
        self.lemma_stored_len(data, little);
        let b = self.block;
        let n = data.len() as int;
        let over = crc_size(self.prefs) + 4;
        let full = n / b;
        assert(over * full + b * full == full * (b + over)) by (nonlinear_arith);
        assert(over * (full + 1) + b * full == full * (b + over) + over) by (nonlinear_arith);
    }
}

} // verus!
