//! Decoding frames, from input and into output that come in pieces of any
//! size.
use vstd::prelude::*;
use crate::block::decode::decompress_dict;
use crate::block::Input;
use crate::bytes::{copy_from, le32, read_le32, read_le64, same_outside, splice};
use crate::format::{lemma_whole, DecodeSetup};
use crate::xxh::{xxh32, xxh32_digest, xxh32_reset, xxh32_spec, xxh32_update, Xxh32State};
use super::compress::{allocated, copy_slice, header_checksum, new_xxh32};
use super::decoder::{
    called, entered, header_info, header_size_spec, is_skippable, lemma_run, lemma_step,
    parse_header, recent, takes, told, Act, DStage, Decoder, Header, Turn, HISTORY,
};
use super::{
    get_block_size, heap_total, no_info, total, Error, FrameInfo, Res, BF_SIZE, BH_SIZE,
    HEADER_SIZE_MAX, HEADER_SIZE_MIN, LZ4F_VERSION, MAGICNUMBER, MIN_SIZE_TO_KNOW_HEADER_LENGTH,
};

verus! {

/// How much more a decoder of linked blocks has room for.
pub const LINKED_ROOM: usize = 0x2_0000;

/// A decoding context.
pub struct Dctx {
    pub version: u32,
    pub stage: DStage,
    pub frame_info: FrameInfo,
    pub frame_remaining_size: u64,
    pub max_block_size: usize,
    pub max_buffer_size: usize,
    /// Holds what a stage waits for, when that comes in pieces.
    pub tmp_in: Vec<u8>,
    pub tmp_in_size: usize,
    pub tmp_in_target: usize,
    /// Holds a block that was decoded for want of room in the output;
    /// `tmp_out_start` is how much of it has been given out.
    pub tmp_out_buffer: Vec<u8>,
    pub tmp_out_size: usize,
    pub tmp_out_start: usize,
    /// What the next block may refer to.
    pub dict: Vec<u8>,
    pub xxh: Xxh32State,
    pub block_checksum: Xxh32State,
    pub skip_checksum: bool,
    pub header: [u8; 19],
    /// What `xxh` has been given.
    pub summed: Ghost<Seq<u8>>,
    /// What `block_checksum` has been given.
    pub block_summed: Ghost<Seq<u8>>,
}

impl View for Dctx {
    type V = Decoder;

    open spec fn view(&self) -> Decoder {
        Decoder {
            stage: self.stage,
            info: self.frame_info,
            remaining: self.frame_remaining_size,
            block_max: self.max_block_size as int,
            got: match self.stage {
                DStage::StoreFrameHeader | DStage::GetBlockChecksum => self.header@.take(
                    self.tmp_in_size as int,
                ),
                DStage::StoreBlockHeader | DStage::StoreCBlock | DStage::StoreSuffix =>
                self.tmp_in@.take(self.tmp_in_size as int),
                DStage::StoreSFrameSize => self.header@.subrange(4, self.tmp_in_size as int),
                _ => Seq::empty(),
            },
            target: match self.stage {
                DStage::StoreFrameHeader
                | DStage::CopyDirect
                | DStage::GetCBlock
                | DStage::StoreCBlock
                | DStage::SkipSkippable => self.tmp_in_target as int,
                _ => 0,
            },
            ready: if self.stage is FlushOut {
                self.tmp_out_buffer@.subrange(self.tmp_out_start as int, self.tmp_out_size as int)
            } else {
                Seq::empty()
            },
            dict: self.dict@,
            content: if self.stage.in_frame() && self.frame_info.content_checksum {
                self.summed@
            } else {
                Seq::empty()
            },
            stored: if (self.stage is CopyDirect || self.stage is GetBlockChecksum)
                && self.frame_info.block_checksum {
                self.block_summed@
            } else {
                Seq::empty()
            },
            skip: self.skip_checksum,
        }
    }
}

/// Whether a call that takes `r` from a step stands where `act` says.
pub open spec fn done(act: Act, r: Res<Option<usize>>, c: Dctx, sp: int, out: Seq<u8>) -> bool {
    match act {
        Act::Go(t) => r == Ok::<Option<usize>, Error>(None) && c@ == t.d && sp == t.at && out
            == t.out,
        Act::Stop(t, hint) => {
            &&& r matches Ok(Some(n)) && n == hint
            &&& c@ == t.d && sp == t.at && out == t.out
        },
        Act::Fail(t, e) => r == Err::<Option<usize>, Error>(e) && c@ == t.d && out == t.out,
    }
}

/// Writes `n` bytes of `src` to `buf`.
fn keep(buf: &mut [u8; 19], at: usize, src: &[u8], from: usize, n: usize)
    requires
        at + n <= 19,
        from + n <= src.len(),
    ensures
        final(buf)@ == splice(old(buf)@, at as int, src@.subrange(from as int, from + n)),
{
    let mut i: usize = 0;
    while i < n
        invariant
            i <= n,
            at + n <= 19,
            from + n <= src.len(),
            buf@ == splice(old(buf)@, at as int, src@.subrange(from as int, from + i)),
        decreases n - i,
    {
        buf[at + i] = src[from + i];
        i = i + 1;
        assert(buf@ =~= splice(old(buf)@, at as int, src@.subrange(from as int, from + i)));
    }
    assert(buf@ =~= splice(old(buf)@, at as int, src@.subrange(from as int, from + n)));
}

impl Dctx {
    /// What holds of every context.
    pub open spec fn intact(&self) -> bool {
        &&& self.xxh.tracks(self.summed@, 0)
        &&& self.block_checksum.tracks(self.block_summed@, 0)
        &&& self.max_buffer_size == self.tmp_out_buffer@.len()
        &&& self.max_buffer_size == 0 || {
            let b = self.tmp_in@.len() - 4;
            &&& b == 0x1_0000 || b == 0x4_0000 || b == 0x10_0000 || b == 0x40_0000
            &&& self.max_buffer_size == b || self.max_buffer_size == b + LINKED_ROOM
        }
        &&& self.stage.in_frame() ==> self.max_block_size + 4 <= self.tmp_in@.len()
            && self.max_block_size <= self.tmp_out_buffer@.len()
        &&& match self.stage {
            DStage::StoreFrameHeader => self.tmp_in_size <= self.tmp_in_target <= HEADER_SIZE_MAX,
            DStage::StoreBlockHeader | DStage::GetBlockChecksum | DStage::StoreSuffix =>
            self.tmp_in_size <= 4,
            DStage::StoreCBlock => self.tmp_in_size <= self.tmp_in@.len() && self.tmp_in_target
                <= self.tmp_in@.len(),
            DStage::StoreSFrameSize => 4 <= self.tmp_in_size <= 8,
            DStage::FlushOut => self.tmp_out_start <= self.tmp_out_size
                <= self.tmp_out_buffer@.len(),
            _ => true,
        }
    }

    /// What a context is like between calls.
    pub open spec fn wf(&self) -> bool {
        self.intact() && self@.wf()
    }

    /// A context that waits for a frame.
    pub fn new() -> (c: Dctx)
        ensures
            c.wf(),
            c@ == Decoder::fresh(0, no_info()),
            c.version == LZ4F_VERSION,
            c.stage == DStage::GetFrameHeader,
            c.frame_info == no_info(),
    {
        let c = Dctx {
            version: LZ4F_VERSION,
            stage: DStage::GetFrameHeader,
            frame_info: FrameInfo::default(),
            frame_remaining_size: 0,
            max_block_size: 0,
            max_buffer_size: 0,
            tmp_in: Vec::new(),
            tmp_in_size: 0,
            tmp_in_target: 0,
            tmp_out_buffer: Vec::new(),
            tmp_out_size: 0,
            tmp_out_start: 0,
            dict: Vec::new(),
            xxh: new_xxh32(),
            block_checksum: new_xxh32(),
            skip_checksum: false,
            header: [0;19],
            summed: Ghost(Seq::empty()),
            block_summed: Ghost(Seq::empty()),
        };
        c
    }

    /// How much memory the context holds besides itself. The allocator may
    /// have given more than is in use.
    pub fn heap_size(&self) -> (n: usize)
        ensures
            exists|a: usize, b: usize, c: usize|
                a >= self.tmp_in@.len() && b >= self.tmp_out_buffer@.len() && c >= self.dict@.len()
                    && n == #[trigger] total(a, b, c),
    {
        heap_total(
            allocated(&self.tmp_in),
            allocated(&self.tmp_out_buffer),
            allocated(&self.dict),
        )
    }

    /// Gives up on the frame at hand: the context waits for the next one.
    pub fn reset(&mut self)
        requires
            old(self).intact(),
        ensures
            final(self).wf(),
            final(self)@ == old(self)@.closed(),
            final(self).version == old(self).version,
    {
        self.stage = DStage::GetFrameHeader;
        self.dict = Vec::new();
        self.skip_checksum = false;
        self.frame_remaining_size = 0;
    }

    /// Reads the header that `src` starts with, and readies the context for
    /// what follows it. Returns how many bytes that took. `from_header` tells
    /// that `src` is what the context had stored.
    #[verifier::rlimit(30)]
    fn decode_header(&mut self, src: &[u8], from_header: bool) -> (r: Res<usize>)
        requires
            old(self).intact(),
            !old(self).stage.in_frame(),
            from_header ==> old(self).stage is StoreFrameHeader && src@ == old(self).header@.take(
                src@.len() as int,
            ) && HEADER_SIZE_MIN <= src@.len() <= HEADER_SIZE_MAX && (src@.len()
                == HEADER_SIZE_MIN || !is_skippable(le32(src@, 0))),
            !from_header ==> old(self).stage is GetFrameHeader,
        ensures
            final(self).intact(),
            final(self)@ == old(self)@.with_header(src@, from_header).1,
            match old(self)@.with_header(src@, from_header).0 {
                Ok(n) => r matches Ok(m) && m == n,
                Err(e) => r == Err::<usize, Error>(e),
            },
            final(self).version == old(self).version,
    {
        let ghost d0 = self@;
        if src.len() < HEADER_SIZE_MIN {
            return Err(Error::FrameHeaderIncomplete);
        }
        self.frame_info = FrameInfo::default();
        let magic = read_le32(src, 0);
        if magic / 16 == 0x184D_2A5 {
            self.frame_info.frame_type = 1;
            if from_header {
                self.tmp_in_size = src.len();
                self.tmp_in_target = 8;
                self.stage = DStage::StoreSFrameSize;
                assert(self.header@.subrange(4, src@.len() as int) =~= src@.skip(4));
                assert(self@ =~= d0.with_header(src@, from_header).1);
                return Ok(src.len());
            }
            self.stage = DStage::GetSFrameSize;
            assert(self@ =~= d0.with_header(src@, from_header).1);
            return Ok(4);
        }
        if magic != MAGICNUMBER {
            assert(self@ =~= d0.with_header(src@, from_header).1);
            return Err(Error::FrameTypeUnknown);
        }
        let flg = src[4];
        if flg / 2 % 2 != 0 {
            assert(self@ =~= d0.with_header(src@, from_header).1);
            return Err(Error::ReservedFlagSet);
        }
        if flg / 64 != 1 {
            assert(self@ =~= d0.with_header(src@, from_header).1);
            return Err(Error::HeaderVersionWrong);
        }
        let sized = flg / 8 % 2 != 0;
        let size: usize = HEADER_SIZE_MIN + (if sized {
            8
        } else {
            0
        }) + (if flg % 2 != 0 {
            4
        } else {
            0
        });
        if src.len() < size {
            if !from_header {
                keep(&mut self.header, 0, src, 0, src.len());
            }
            self.tmp_in_size = src.len();
            self.tmp_in_target = size;
            self.stage = DStage::StoreFrameHeader;
            assert(self.header@.take(src@.len() as int) =~= src@);
            assert(self@ =~= d0.with_header(src@, from_header).1);
            return Ok(src.len());
        }
        let bd = src[5];
        if bd / 128 != 0 {
            assert(self@ =~= d0.with_header(src@, from_header).1);
            return Err(Error::ReservedFlagSet);
        }
        if bd / 16 % 8 < 4 {
            assert(self@ =~= d0.with_header(src@, from_header).1);
            return Err(Error::MaxBlockSizeInvalid);
        }
        if bd % 16 != 0 {
            assert(self@ =~= d0.with_header(src@, from_header).1);
            return Err(Error::ReservedFlagSet);
        }
        if header_checksum(&src[4..size - 1]) != src[size - 1] {
            assert(self@ =~= d0.with_header(src@, from_header).1);
            return Err(Error::HeaderChecksumInvalid);
        }
        let id = (bd / 16 % 8) as i32;
        self.frame_info.block_mode = (flg / 32 % 2) as i32;
        self.frame_info.block_checksum = flg / 16 % 2 != 0;
        self.frame_info.content_checksum = flg / 4 % 2 != 0;
        self.frame_info.block_size_id = id;
        self.max_block_size =
        match get_block_size(id) {
            Ok(n) => n,
            Err(_) => {
                assert(false);
                0
            },
        };
        if sized {
            self.frame_info.content_size = read_le64(src, 6);
            self.frame_remaining_size = self.frame_info.content_size;
        }
        if flg % 2 != 0 {
            self.frame_info.dict_id = read_le32(src, size - 5);
        }
        self.stage = DStage::Init;
        assert(self.frame_info == header_info(src@, size as int));
        assert(self@ =~= d0.with_header(src@, from_header).1);
        Ok(size)
    }
}

impl Default for Dctx {
    fn default() -> (c: Dctx)
        ensures
            c.wf(),
            c@ == Decoder::fresh(0, no_info()),
    {
        Dctx::new()
    }
}

/// The size of the frame header that `src` starts with, as its first bytes
/// tell.
pub fn header_size(src: &[u8]) -> (r: Res<usize>)
    ensures
        match header_size_spec(src@) {
            Ok(n) => r matches Ok(m) && m == n,
            Err(e) => r == Err::<usize, Error>(e),
        },
{
    if src.len() < MIN_SIZE_TO_KNOW_HEADER_LENGTH {
        return Err(Error::FrameHeaderIncomplete);
    }
    let magic = read_le32(src, 0);
    if magic / 16 == 0x184D_2A5 {
        return Ok(8);
    }
    if magic != MAGICNUMBER {
        return Err(Error::FrameTypeUnknown);
    }
    let flg = src[4];
    Ok(
        HEADER_SIZE_MIN + (if flg / 8 % 2 != 0 {
            8
        } else {
            0
        }) + (if flg % 2 != 0 {
            4
        } else {
            0
        }),
    )
}

/// Where a call stands that has a decoder, an input position and output.
pub open spec fn turn(c: Dctx, sp: int, out: Seq<u8>) -> Turn {
    Turn { d: c@, at: sp, out }
}

impl Dctx {
    /// Takes what there is of the bytes that the stage waits for.
    fn top_up(&mut self, src: &[u8], sp: &mut usize, Ghost(out): Ghost<Seq<u8>>)
        requires
            old(self).wf(),
            old(self).stage.rank() == 2 || old(self).stage is GetBlockChecksum,
            *old(sp) <= src.len(),
        ensures
            final(self).intact(),
            turn(*final(self), *final(sp) as int, out) == turn(
                *old(self),
                *old(sp) as int,
                out,
            ).topping(src@),
            *old(sp) <= *final(sp) <= src.len(),
            *final(self) == (Dctx {
                header: final(self).header,
                tmp_in: final(self).tmp_in,
                tmp_in_size: final(self).tmp_in_size,
                ..*old(self)
            }),
            final(self).tmp_in_size == final(self)@.got.len() + (if old(self).stage is StoreSFrameSize {
                4int
            } else {
                0
            }),
    {
        let ghost c0 = *self;
        let ghost t0 = turn(*self, *sp as int, out);
        let have = self.tmp_in_size;
        let need: usize = match self.stage {
            DStage::StoreFrameHeader | DStage::StoreCBlock => self.tmp_in_target,
            DStage::StoreSFrameSize => 8,
            _ => 4,
        };
        let n = (need - have).min(src.len() - *sp);
        assert(n == takes(t0.d.need(), t0.d.got, src@, t0.at));
        match self.stage {
            DStage::StoreFrameHeader | DStage::StoreSFrameSize | DStage::GetBlockChecksum => {
                keep(&mut self.header, have, src, *sp, n);
            },
            _ => {
                copy_from(self.tmp_in.as_mut_slice(), have, src, *sp, n);
            },
        }
        self.tmp_in_size = have + n;
        *sp = *sp + n;
        proof {
            let t1 = t0.topping(src@);
            assert(self@.got =~= t1.d.got);
            assert(self@ =~= t1.d);
        }
    }

    fn get_frame_header(&mut self, src: &[u8], sp: &mut usize, Ghost(out): Ghost<Seq<u8>>) -> (r: Res<Option<usize>>)
        requires
            old(self).wf(),
            old(self).stage is GetFrameHeader,
            *old(sp) <= src.len(),
        ensures
            final(self).intact(),
            done(
                turn(*old(self), *old(sp) as int, out).get_frame_header(src@),
                r,
                *final(self),
                *final(sp) as int,
                out,
            ),
            final(self).version == old(self).version,
    {
        let ghost t0 = turn(*self, *sp as int, out);
        let left = src.len() - *sp;
        if left >= HEADER_SIZE_MAX {
            let rest = &src[*sp..src.len()];
            assert(rest@ =~= src@.skip(*sp as int));
            return match self.decode_header(rest, false) {
                Ok(n) => {
                    *sp = *sp + n;
                    Ok(None)
                },
                Err(e) => Err(e),
            };
        }
        self.tmp_in_size = 0;
        if left == 0 {
            return Ok(Some(HEADER_SIZE_MIN));
        }
        self.tmp_in_target = HEADER_SIZE_MIN;
        self.stage = DStage::StoreFrameHeader;
        proof {
            let d1 = Decoder {
                target: HEADER_SIZE_MIN as int,
                ..t0.d.to(DStage::StoreFrameHeader)
            };
            assert(self@.got =~= Seq::<u8>::empty());
            assert(self@ =~= d1);
        }
        Ok(None)
    }

    fn store_frame_header(&mut self, src: &[u8], sp: &mut usize, Ghost(out): Ghost<Seq<u8>>) -> (r: Res<Option<usize>>)
        requires
            old(self).wf(),
            old(self).stage is StoreFrameHeader,
            *old(sp) <= src.len(),
        ensures
            final(self).intact(),
            done(
                turn(*old(self), *old(sp) as int, out).store_frame_header(src@),
                r,
                *final(self),
                *final(sp) as int,
                out,
            ),
            final(self).version == old(self).version,
    {
        let ghost d0 = self@;
        self.top_up(src, sp, Ghost(out));
        assert(d0.got.len() >= 4 ==> le32(self@.got, 0) == le32(d0.got, 0));
        if self.tmp_in_size < self.tmp_in_target {
            return Ok(Some(self.tmp_in_target - self.tmp_in_size + BH_SIZE));
        }
        let all = self.header;
        let whole = all.as_slice();
        let head = &whole[0..self.tmp_in_target];
        assert(head@ =~= self@.got);
        match self.decode_header(head, true) {
            Ok(_) => Ok(None),
            Err(e) => Err(e),
        }
    }

    fn init(&mut self, Ghost(out): Ghost<Seq<u8>>, Ghost(sp): Ghost<int>) -> (r: Res<Option<usize>>)
        requires
            old(self).wf(),
            old(self).stage is Init,
        ensures
            final(self).intact(),
            done(turn(*old(self), sp, out).init(), r, *final(self), sp, out),
            final(self).version == old(self).version,
    {
        let ghost t0 = turn(*self, sp, out);
        if self.frame_info.content_checksum {
            xxh32_reset(&mut self.xxh, 0);
            self.summed = Ghost(Seq::empty());
        }
        let needed = self.max_block_size + (if self.frame_info.block_mode == 0 {
            LINKED_ROOM
        } else {
            0
        });
        if needed > self.max_buffer_size {
            self.max_buffer_size = 0;
            self.tmp_in.clear();
            self.tmp_in.resize(self.max_block_size + BF_SIZE, 0);
            self.tmp_out_buffer.clear();
            self.tmp_out_buffer.resize(needed, 0);
            self.max_buffer_size = needed;
        }
        self.tmp_in_size = 0;
        self.tmp_in_target = 0;
        self.tmp_out_start = 0;
        self.tmp_out_size = 0;
        self.stage = DStage::GetBlockHeader;
        assert(self@ =~= (Decoder {
            content: Seq::empty(),
            ..t0.d.to(DStage::GetBlockHeader)
        }));
        Ok(None)
    }

    /// Readies the context for the block whose header is `h`.
    fn decode_block_header(&mut self, src: &[u8], sp: usize, room: usize, op: usize, h: u32, Ghost(out): Ghost<Seq<u8>>) -> (r: Res<Option<usize>>)
        requires
            old(self).intact(),
            old(self).stage is GetBlockHeader || old(self).stage is StoreBlockHeader,
            old(self).max_block_size <= 0x40_0000,
            sp <= src.len(),
            op == out.len(),
        ensures
            final(self).intact(),
            done(
                turn(*old(self), sp as int, out).block_header(src@, room as int, h),
                r,
                *final(self),
                sp as int,
                out,
            ),
            final(self).version == old(self).version,
    {
        let ghost t0 = turn(*self, sp as int, out);
        let size = (h % 0x8000_0000) as usize;
        let crc: usize = if self.frame_info.block_checksum {
            BF_SIZE
        } else {
            0
        };
        if h == 0 {
            self.stage = DStage::GetSuffix;
            assert(self@ =~= t0.d.to(DStage::GetSuffix));
            return Ok(None);
        }
        if size > self.max_block_size {
            return Err(Error::MaxBlockSizeInvalid);
        }
        if h >= 0x8000_0000 {
            self.tmp_in_target = size;
            if self.frame_info.block_checksum {
                xxh32_reset(&mut self.block_checksum, 0);
                self.block_summed = Ghost(Seq::empty());
            }
            self.stage = DStage::CopyDirect;
            assert(self@ =~= (Decoder {
                target: size as int,
                ..t0.d.to(DStage::CopyDirect)
            }));
            return Ok(None);
        }
        self.tmp_in_target = size + crc;
        self.stage = DStage::GetCBlock;
        assert(self@ =~= (Decoder {
            target: size + crc,
            ..t0.d.to(DStage::GetCBlock)
        }));
        if op == room || sp == src.len() {
            return Ok(Some(BH_SIZE + size + crc));
        }
        Ok(None)
    }

    fn get_block_header(&mut self, src: &[u8], sp: &mut usize, room: usize, op: usize, Ghost(out): Ghost<Seq<u8>>) -> (r: Res<Option<usize>>)
        requires
            old(self).wf(),
            old(self).stage is GetBlockHeader,
            *old(sp) <= src.len(),
            op == out.len(),
        ensures
            final(self).intact(),
            done(
                turn(*old(self), *old(sp) as int, out).get_block_header(src@, room as int),
                r,
                *final(self),
                *final(sp) as int,
                out,
            ),
            final(self).version == old(self).version,
    {
        let ghost t0 = turn(*self, *sp as int, out);
        if src.len() - *sp >= BH_SIZE {
            let h = read_le32(src, *sp);
            *sp = *sp + BH_SIZE;
            return self.decode_block_header(src, *sp, room, op, h, Ghost(out));
        }
        self.tmp_in_size = 0;
        self.stage = DStage::StoreBlockHeader;
        assert(self@.got =~= Seq::<u8>::empty());
        assert(self@ =~= t0.d.to(DStage::StoreBlockHeader));
        Ok(None)
    }

    fn store_block_header(&mut self, src: &[u8], sp: &mut usize, room: usize, op: usize, Ghost(out): Ghost<Seq<u8>>) -> (r: Res<Option<usize>>)
        requires
            old(self).wf(),
            old(self).stage is StoreBlockHeader,
            *old(sp) <= src.len(),
            op == out.len(),
        ensures
            final(self).intact(),
            done(
                turn(*old(self), *old(sp) as int, out).store_block_header(src@, room as int),
                r,
                *final(self),
                *final(sp) as int,
                out,
            ),
            final(self).version == old(self).version,
    {
        self.top_up(src, sp, Ghost(out));
        if self.tmp_in_size < BH_SIZE {
            return Ok(Some(BH_SIZE - self.tmp_in_size));
        }
        let h = read_le32(self.tmp_in.as_slice(), 0);
        assert(h == le32(self@.got, 0));
        self.decode_block_header(src, *sp, room, op, h, Ghost(out))
    }

    fn get_block_checksum(&mut self, src: &[u8], sp: &mut usize, Ghost(out): Ghost<Seq<u8>>) -> (r: Res<Option<usize>>)
        requires
            old(self).wf(),
            old(self).stage is GetBlockChecksum,
            old(self).frame_info.block_checksum,
            *old(sp) <= src.len(),
        ensures
            final(self).intact(),
            done(
                turn(*old(self), *old(sp) as int, out).get_block_checksum(src@),
                r,
                *final(self),
                *final(sp) as int,
                out,
            ),
            final(self).version == old(self).version,
    {
        let ghost t0 = turn(*self, *sp as int, out);
        if self.tmp_in_size == 0 && src.len() - *sp >= BF_SIZE {
            // The checksum is there as a whole, and is not kept.
            let sum = read_le32(src, *sp);
            *sp = *sp + BF_SIZE;
            proof {
                let t = t0.topping(src@);
                assert(t.d.got =~= src@.subrange(t0.at, t0.at + 4));
                assert(sum == le32(t.d.got, 0));
            }
            if !self.skip_checksum && sum != xxh32_digest(&self.block_checksum) {
                assert(self@.got =~= Seq::<u8>::empty());
                return Err(Error::BlockChecksumInvalid);
            }
            self.stage = DStage::GetBlockHeader;
            assert(self@ =~= t0.topping(src@).d.to(DStage::GetBlockHeader));
            return Ok(None);
        }
        self.top_up(src, sp, Ghost(out));
        if self.tmp_in_size < BF_SIZE {
            return Ok(Some(1));
        }
        if !self.skip_checksum {
            let sum = read_le32(self.header.as_slice(), 0);
            assert(sum == le32(self@.got, 0));
            if sum != xxh32_digest(&self.block_checksum) {
                return Err(Error::BlockChecksumInvalid);
            }
        }
        let ghost d1 = self@;
        self.stage = DStage::GetBlockHeader;
        assert(self@ =~= d1.to(DStage::GetBlockHeader));
        Ok(None)
    }
}

/// Appends `bytes` to what later blocks may refer to, and drops what is out of
/// their reach.
fn update_dict(dict: &mut Vec<u8>, bytes: &[u8])
    ensures
        final(dict)@ == recent(old(dict)@ + bytes@),
{
    let ghost all = dict@ + bytes@;
    let n = bytes.len();
    if n >= HISTORY {
        *dict = copy_slice(bytes, n - HISTORY, n);
        assert(dict@ =~= recent(all));
        return;
    }
    dict.extend_from_slice(bytes);
    assert(dict@ =~= all);
    let len = dict.len();
    if len > HISTORY {
        let kept = dict.split_off(len - HISTORY);
        *dict = kept;
        assert(dict@ =~= recent(all));
    }
}

impl Dctx {
    /// Takes `bytes` of content into account.
    fn count(&mut self, bytes: &[u8])
        requires
            old(self).intact(),
            old(self).stage.in_frame(),
        ensures
            final(self).intact(),
            final(self)@ == old(self)@.counted(bytes@),
            *final(self) == (Dctx {
                xxh: final(self).xxh,
                summed: final(self).summed,
                frame_remaining_size: final(self).frame_remaining_size,
                ..*old(self)
            }),
    {
        let ghost d0 = self@;
        if self.frame_info.content_checksum && !self.skip_checksum {
            xxh32_update(&mut self.xxh, bytes);
            self.summed = Ghost(self.summed@ + bytes@);
        }
        if self.frame_info.content_size != 0 {
            self.frame_remaining_size = self.frame_remaining_size.wrapping_sub(bytes.len() as u64);
        }
        assert(self@ =~= d0.counted(bytes@));
    }

    /// Lets later blocks refer to `bytes`, where blocks are linked.
    fn remember(&mut self, bytes: &[u8])
        requires
            old(self).intact(),
        ensures
            final(self).intact(),
            final(self)@ == old(self)@.remembering(bytes@),
            *final(self) == (Dctx { dict: final(self).dict, ..*old(self) }),
    {
        let ghost d0 = self@;
        if self.frame_info.block_mode == 0 {
            update_dict(&mut self.dict, bytes);
        }
        assert(self@ =~= d0.remembering(bytes@));
    }

    fn copy_direct(&mut self, dst: &mut [u8], op: &mut usize, src: &[u8], sp: &mut usize) -> (r: Res<Option<usize>>)
        requires
            old(self).wf(),
            old(self).stage is CopyDirect,
            *old(sp) <= src.len(),
            *old(op) <= old(dst).len(),
        ensures
            final(self).intact(),
            final(dst)@.len() == old(dst)@.len(),
            *final(op) <= final(dst).len(),
            done(
                turn(*old(self), *old(sp) as int, old(dst)@.take(*old(op) as int)).copy_direct(
                    src@,
                    old(dst)@.len() as int,
                ),
                r,
                *final(self),
                *final(sp) as int,
                final(dst)@.take(*final(op) as int),
            ),
            final(self).version == old(self).version,
    {
        let ghost t0 = turn(*self, *sp as int, dst@.take(*op as int));
        let n = self.tmp_in_target.min((src.len() - *sp).min(dst.len() - *op));
        let bytes = &src[*sp..*sp + n];
        copy_from(dst, *op, src, *sp, n);
        if self.frame_info.block_checksum && !self.skip_checksum {
            xxh32_update(&mut self.block_checksum, bytes);
            self.block_summed = Ghost(self.block_summed@ + bytes@);
        }
        assert(self@ =~= (Decoder {
            stored: if t0.d.info.block_checksum && !t0.d.skip {
                t0.d.stored + bytes@
            } else {
                t0.d.stored
            },
            ..t0.d
        }));
        self.count(bytes);
        self.remember(bytes);
        *sp = *sp + n;
        assert(dst@.take(*op + n) =~= t0.out + bytes@);
        *op = *op + n;
        let ghost d1 = self@;
        if n == self.tmp_in_target {
            if self.frame_info.block_checksum {
                self.tmp_in_size = 0;
                self.stage = DStage::GetBlockChecksum;
                assert(self@.got =~= Seq::<u8>::empty());
                assert(self@ =~= (Decoder {
                    stored: d1.stored,
                    ..d1.to(DStage::GetBlockChecksum)
                }));
            } else {
                self.stage = DStage::GetBlockHeader;
                assert(self@ =~= d1.to(DStage::GetBlockHeader));
            }
            return Ok(None);
        }
        self.tmp_in_target = self.tmp_in_target - n;
        assert(self@ =~= (Decoder { target: d1.target - n, ..d1 }));
        let crc: usize = if self.frame_info.block_checksum {
            BF_SIZE
        } else {
            0
        };
        Ok(Some(self.tmp_in_target + crc + BH_SIZE))
    }

    /// Decodes the block `body` into `buf[at..]`, which has room for a full one.
    fn open_block(&self, buf: &mut [u8], at: usize, body: &[u8]) -> (r: Res<usize>)
        requires
            at + self.max_block_size <= old(buf).len(),
        ensures
            final(buf)@.len() == old(buf)@.len(),
            same_outside(final(buf)@, old(buf)@, at as int, at + self.max_block_size),
            match self@.opened(body@) {
                None => r == Err::<usize, Error>(Error::DecompressionFailed),
                Some(bytes) => {
                    &&& r == Ok::<usize, Error>(bytes.len() as usize)
                    &&& bytes.len() <= self.max_block_size
                    &&& final(buf)@.subrange(at as int, at + bytes.len()) == bytes
                },
            },
    {
        proof {
            let d = DecodeSetup {
                hist: self.dict@,
                prefix: 0,
                cap: self.max_block_size as int,
                partial: false,
                lead: None,
            };
            lemma_whole(d, body@);
            assert(d.hist =~= self.dict@ + buf@.subrange(at as int, at as int));
        }
        match decompress_dict(
            buf,
            at..at + self.max_block_size,
            &Input::Separate(body),
            false,
            0,
            self.dict.as_slice(),
            0,
        ) {
            Ok(n) => Ok(n),
            Err(_) => Err(Error::DecompressionFailed),
        }
    }

    /// The length of a compressed block without its checksum, which is checked.
    fn bare_block(&mut self, block: &[u8]) -> (r: Res<usize>)
        requires
            old(self).intact(),
            old(self).stage is GetCBlock || old(self).stage is StoreCBlock,
            block@.len() == old(self).tmp_in_target,
        ensures
            final(self).intact(),
            final(self).version == old(self).version,
            ({
                let d = old(self)@;
                let len = block@.len() - d.crc_size();
                let bare = Decoder {
                    target: if d.info.block_checksum {
                        len
                    } else {
                        d.target
                    },
                    ..d
                };
                if len < 0 {
                    r == Err::<usize, Error>(Error::BlockChecksumInvalid) && final(self)@ == d
                } else if d.info.block_checksum && !d.skip && le32(block@, len) != xxh32_spec(
                    block@.take(len),
                    0,
                ) {
                    r == Err::<usize, Error>(Error::BlockChecksumInvalid) && final(self)@ == bare
                } else {
                    r == Ok::<usize, Error>(len as usize) && final(self)@ == bare
                }
            }),
            final(self).stage == old(self).stage,
    {
        let ghost d = self@;
        if !self.frame_info.block_checksum {
            assert(self@ =~= d);
            return Ok(block.len());
        }
        if block.len() < BF_SIZE {
            return Err(Error::BlockChecksumInvalid);
        }
        let len = block.len() - BF_SIZE;
        self.tmp_in_target = len;
        assert(self@ =~= (Decoder { target: len as int, ..d }));
        let body = &block[0..len];
        assert(body@ =~= block@.take(len as int));
        if !self.skip_checksum && read_le32(block, len) != xxh32(body, 0) {
            return Err(Error::BlockChecksumInvalid);
        }
        Ok(len)
    }

    /// Decodes `body`, into `dst` where that has room for a full block.
    #[verifier::rlimit(30)]
    fn give_block(&mut self, dst: &mut [u8], op: &mut usize, body: &[u8], Ghost(sp): Ghost<int>) -> (r: Res<Option<usize>>)
        requires
            old(self).intact(),
            old(self).stage is GetCBlock || old(self).stage is StoreCBlock,
            *old(op) <= old(dst).len(),
        ensures
            final(self).intact(),
            final(dst)@.len() == old(dst)@.len(),
            *final(op) <= final(dst).len(),
            ({
                let t = turn(*old(self), sp, old(dst)@.take(*old(op) as int));
                done(
                    match t.d.opened(body@) {
                        None => Act::Fail(t, Error::DecompressionFailed),
                        Some(bytes) => t.cblock_given(old(dst)@.len() as int, bytes),
                    },
                    r,
                    *final(self),
                    sp,
                    final(dst)@.take(*final(op) as int),
                )
            }),
            final(self).version == old(self).version,
    {
        let ghost t0 = turn(*self, sp, dst@.take(*op as int));
        if dst.len() - *op >= self.max_block_size {
            let n = match self.open_block(dst, *op, body) {
                Ok(n) => n,
                Err(e) => {
                    assert(dst@.take(*op as int) =~= t0.out);
                    return Err(e);
                },
            };
            let ghost bytes = t0.d.opened(body@)->0;
            let out = &dst[*op..*op + n];
            assert(out@ == bytes);
            self.count(out);
            self.remember(out);
            assert(dst@.take(*op + n) =~= t0.out + bytes);
            *op = *op + n;
            let ghost d1 = self@;
            self.stage = DStage::GetBlockHeader;
            assert(self@ =~= d1.to(DStage::GetBlockHeader));
            return Ok(None);
        }
        let mut scratch: Vec<u8> = Vec::new();
        std::mem::swap(&mut scratch, &mut self.tmp_out_buffer);
        let opened = self.open_block(scratch.as_mut_slice(), 0, body);
        assert(self@.opened(body@) == t0.d.opened(body@));
        self.tmp_out_buffer = scratch;
        let n = match opened {
            Ok(n) => n,
            Err(e) => {
                return Err(e);
            },
        };
        let ghost bytes = t0.d.opened(body@)->0;
        let out = copy_slice(self.tmp_out_buffer.as_slice(), 0, n);
        assert(out@ == bytes);
        assert(self@ =~= t0.d);
        self.count(out.as_slice());
        let ghost d1 = self@;
        self.tmp_out_size = n;
        self.tmp_out_start = 0;
        self.stage = DStage::FlushOut;
        assert(self@.ready =~= bytes);
        assert(self@ =~= (Decoder { ready: bytes, ..d1.to(DStage::FlushOut) }));
        Ok(None)
    }

    /// Decodes the compressed block `block`, into `dst` where that has room for
    /// a full one.
    fn decode_cblock(&mut self, dst: &mut [u8], op: &mut usize, block: &[u8], Ghost(sp): Ghost<int>) -> (r: Res<Option<usize>>)
        requires
            old(self).intact(),
            old(self).stage is GetCBlock || old(self).stage is StoreCBlock,
            block@.len() == old(self).tmp_in_target,
            *old(op) <= old(dst).len(),
        ensures
            final(self).intact(),
            final(dst)@.len() == old(dst)@.len(),
            *final(op) <= final(dst).len(),
            done(
                turn(*old(self), sp, old(dst)@.take(*old(op) as int)).cblock(
                    old(dst)@.len() as int,
                    block@,
                ),
                r,
                *final(self),
                sp,
                final(dst)@.take(*final(op) as int),
            ),
            final(self).version == old(self).version,
    {
        let ghost t0 = turn(*self, sp, dst@.take(*op as int));
        let ghost room = dst@.len() as int;
        let len = match self.bare_block(block) {
            Ok(n) => n,
            Err(e) => {
                return Err(e);
            },
        };
        let body = &block[0..len];
        assert(body@ =~= block@.take(len as int));
        let ghost t1 = turn(*self, sp, dst@.take(*op as int));
        proof {
            assert(t1 =~= t0.with(t1.d, 0));
            assert(t1.d.opened(body@) == t0.d.opened(body@));
            if let Some(bytes) = t0.d.opened(body@) {
                lemma_target_spent(t0, t1.d.target, room, bytes);
                assert(t1 =~= (Turn { d: Decoder { target: t1.d.target, ..t0.d }, ..t0 }));
            }
        }
        self.give_block(dst, op, body, Ghost(sp))
    }

    fn get_cblock(&mut self, dst: &mut [u8], op: &mut usize, src: &[u8], sp: &mut usize) -> (r: Res<Option<usize>>)
        requires
            old(self).wf(),
            old(self).stage is GetCBlock,
            *old(sp) <= src.len(),
            *old(op) <= old(dst).len(),
        ensures
            final(self).intact(),
            final(dst)@.len() == old(dst)@.len(),
            *final(op) <= final(dst).len(),
            done(
                turn(*old(self), *old(sp) as int, old(dst)@.take(*old(op) as int)).get_cblock(
                    src@,
                    old(dst)@.len() as int,
                ),
                r,
                *final(self),
                *final(sp) as int,
                final(dst)@.take(*final(op) as int),
            ),
            final(self).version == old(self).version,
    {
        let ghost t0 = turn(*self, *sp as int, dst@.take(*op as int));
        let n = self.tmp_in_target;
        if src.len() - *sp < n {
            self.tmp_in_size = 0;
            self.stage = DStage::StoreCBlock;
            assert(self@.got =~= Seq::<u8>::empty());
            assert(self@ =~= (Decoder { target: n as int, ..t0.d.to(DStage::StoreCBlock) }));
            return Ok(None);
        }
        let block = &src[*sp..*sp + n];
        *sp = *sp + n;
        self.decode_cblock(dst, op, block, Ghost(*sp as int))
    }

    fn store_cblock(&mut self, dst: &mut [u8], op: &mut usize, src: &[u8], sp: &mut usize) -> (r: Res<Option<usize>>)
        requires
            old(self).wf(),
            old(self).stage is StoreCBlock,
            *old(sp) <= src.len(),
            *old(op) <= old(dst).len(),
        ensures
            final(self).intact(),
            final(dst)@.len() == old(dst)@.len(),
            *final(op) <= final(dst).len(),
            done(
                turn(*old(self), *old(sp) as int, old(dst)@.take(*old(op) as int)).store_cblock(
                    src@,
                    old(dst)@.len() as int,
                ),
                r,
                *final(self),
                *final(sp) as int,
                final(dst)@.take(*final(op) as int),
            ),
            final(self).version == old(self).version,
    {
        self.top_up(src, sp, Ghost(dst@.take(*op as int)));
        if self.tmp_in_size < self.tmp_in_target {
            let crc: usize = if self.frame_info.block_checksum {
                BF_SIZE
            } else {
                0
            };
            return Ok(Some(self.tmp_in_target - self.tmp_in_size + crc + BH_SIZE));
        }
        let block = copy_slice(self.tmp_in.as_slice(), 0, self.tmp_in_target);
        assert(block@ =~= self@.got);
        self.decode_cblock(dst, op, block.as_slice(), Ghost(*sp as int))
    }

    fn flush_out(&mut self, dst: &mut [u8], op: &mut usize, Ghost(sp): Ghost<int>) -> (r: Res<Option<usize>>)
        requires
            old(self).wf(),
            old(self).stage is FlushOut,
            *old(op) <= old(dst).len(),
        ensures
            final(self).intact(),
            final(dst)@.len() == old(dst)@.len(),
            *final(op) <= final(dst).len(),
            done(
                turn(*old(self), sp, old(dst)@.take(*old(op) as int)).flush_out(
                    old(dst)@.len() as int,
                ),
                r,
                *final(self),
                sp,
                final(dst)@.take(*final(op) as int),
            ),
            final(self).version == old(self).version,
    {
        let ghost t0 = turn(*self, sp, dst@.take(*op as int));
        let from = self.tmp_out_start;
        let n = (self.tmp_out_size - from).min(dst.len() - *op);
        let bytes = copy_slice(self.tmp_out_buffer.as_slice(), from, from + n);
        assert(bytes@ =~= t0.d.ready.take(n as int));
        copy_from(dst, *op, bytes.as_slice(), 0, n);
        assert(bytes@.subrange(0, n as int) =~= bytes@);
        self.tmp_out_start = from + n;
        assert(self@.ready =~= t0.d.ready.skip(n as int));
        assert(self@ =~= (Decoder { ready: t0.d.ready.skip(n as int), ..t0.d }));
        self.remember(bytes.as_slice());
        assert(dst@.take(*op + n) =~= t0.out + bytes@);
        *op = *op + n;
        let ghost d1 = self@;
        if self.tmp_out_start == self.tmp_out_size {
            self.stage = DStage::GetBlockHeader;
            assert(self@ =~= d1.to(DStage::GetBlockHeader));
            return Ok(None);
        }
        Ok(Some(BH_SIZE))
    }

    /// Ends the frame, unless its content has another checksum than `sum`.
    fn check_content_crc(&mut self, sum: u32, Ghost(t): Ghost<Turn>) -> (r: Res<Option<usize>>)
        requires
            old(self).intact(),
            old(self).stage.in_frame(),
            old(self).frame_info.content_checksum,
            old(self)@ == t.d,
        ensures
            final(self).intact(),
            done(t.content_checksum(sum), r, *final(self), t.at, t.out),
            final(self).version == old(self).version,
    {
        if !self.skip_checksum {
            if sum != xxh32_digest(&self.xxh) {
                return Err(Error::ContentChecksumInvalid);
            }
        }
        self.reset();
        Ok(Some(0))
    }

    fn get_suffix(&mut self, src: &[u8], sp: &mut usize, Ghost(out): Ghost<Seq<u8>>) -> (r: Res<Option<usize>>)
        requires
            old(self).wf(),
            old(self).stage is GetSuffix,
            *old(sp) <= src.len(),
        ensures
            final(self).intact(),
            done(
                turn(*old(self), *old(sp) as int, out).get_suffix(src@),
                r,
                *final(self),
                *final(sp) as int,
                out,
            ),
            final(self).version == old(self).version,
    {
        let ghost t0 = turn(*self, *sp as int, out);
        if self.frame_remaining_size != 0 {
            return Err(Error::FrameSizeWrong);
        }
        if !self.frame_info.content_checksum {
            self.reset();
            return Ok(Some(0));
        }
        if src.len() - *sp < 4 {
            self.tmp_in_size = 0;
            self.stage = DStage::StoreSuffix;
            assert(self@.got =~= Seq::<u8>::empty());
            assert(self@ =~= t0.d.to(DStage::StoreSuffix));
            return Ok(None);
        }
        let sum = read_le32(src, *sp);
        *sp = *sp + 4;
        self.check_content_crc(sum, Ghost(turn(*self, *sp as int, out)))
    }

    fn store_suffix(&mut self, src: &[u8], sp: &mut usize, Ghost(out): Ghost<Seq<u8>>) -> (r: Res<Option<usize>>)
        requires
            old(self).wf(),
            old(self).stage is StoreSuffix,
            old(self).frame_info.content_checksum,
            *old(sp) <= src.len(),
        ensures
            final(self).intact(),
            done(
                turn(*old(self), *old(sp) as int, out).store_suffix(src@),
                r,
                *final(self),
                *final(sp) as int,
                out,
            ),
            final(self).version == old(self).version,
    {
        self.top_up(src, sp, Ghost(out));
        if self.tmp_in_size < 4 {
            return Ok(Some(4 - self.tmp_in_size));
        }
        let sum = read_le32(self.tmp_in.as_slice(), 0);
        assert(sum == le32(self@.got, 0));
        self.check_content_crc(sum, Ghost(turn(*self, *sp as int, out)))
    }

    /// Readies the context to skip the `size` bytes of a skippable frame.
    fn start_skipping(&mut self, size: u32, Ghost(t): Ghost<Turn>) -> (r: Res<Option<usize>>)
        requires
            old(self).intact(),
            old(self).stage is GetSFrameSize || old(self).stage is StoreSFrameSize,
            old(self)@ == t.d,
        ensures
            final(self).intact(),
            done(t.skippable(size), r, *final(self), t.at, t.out),
            final(self).version == old(self).version,
    {
        self.frame_info.content_size = size as u64;
        self.tmp_in_target = size as usize;
        self.stage = DStage::SkipSkippable;
        proof {
            let d = t.d.to(DStage::SkipSkippable);
            assert(self@ =~= (Decoder {
                info: FrameInfo { content_size: size as u64, ..d.info },
                target: size as int,
                ..d
            }));
        }
        Ok(None)
    }

    fn get_sframe_size(&mut self, src: &[u8], sp: &mut usize, Ghost(out): Ghost<Seq<u8>>) -> (r: Res<Option<usize>>)
        requires
            old(self).wf(),
            old(self).stage is GetSFrameSize,
            *old(sp) <= src.len(),
        ensures
            final(self).intact(),
            done(
                turn(*old(self), *old(sp) as int, out).get_sframe_size(src@),
                r,
                *final(self),
                *final(sp) as int,
                out,
            ),
            final(self).version == old(self).version,
    {
        let ghost t0 = turn(*self, *sp as int, out);
        if src.len() - *sp >= 4 {
            let size = read_le32(src, *sp);
            *sp = *sp + 4;
            return self.start_skipping(size, Ghost(turn(*self, *sp as int, out)));
        }
        // The magic number counts as the first half of what is stored.
        self.tmp_in_size = 4;
        self.tmp_in_target = 8;
        self.stage = DStage::StoreSFrameSize;
        assert(self@.got =~= Seq::<u8>::empty());
        assert(self@ =~= t0.d.to(DStage::StoreSFrameSize));
        Ok(None)
    }

    fn store_sframe_size(&mut self, src: &[u8], sp: &mut usize, Ghost(out): Ghost<Seq<u8>>) -> (r: Res<Option<usize>>)
        requires
            old(self).wf(),
            old(self).stage is StoreSFrameSize,
            *old(sp) <= src.len(),
        ensures
            final(self).intact(),
            done(
                turn(*old(self), *old(sp) as int, out).store_sframe_size(src@),
                r,
                *final(self),
                *final(sp) as int,
                out,
            ),
            final(self).version == old(self).version,
    {
        self.top_up(src, sp, Ghost(out));
        if self.tmp_in_size < 8 {
            return Ok(Some(8 - self.tmp_in_size));
        }
        let size = read_le32(self.header.as_slice(), 4);
        assert(size == le32(self@.got, 0)) by {
            let g = self@.got;
            assert(g[0] == self.header@[4] && g[1] == self.header@[5] && g[2] == self.header@[6]
                && g[3] == self.header@[7]);
        }
        self.start_skipping(size, Ghost(turn(*self, *sp as int, out)))
    }

    fn skip_skippable(&mut self, src: &[u8], sp: &mut usize, Ghost(out): Ghost<Seq<u8>>) -> (r: Res<Option<usize>>)
        requires
            old(self).wf(),
            old(self).stage is SkipSkippable,
            *old(sp) <= src.len(),
        ensures
            final(self).intact(),
            done(
                turn(*old(self), *old(sp) as int, out).skip_skippable(src@),
                r,
                *final(self),
                *final(sp) as int,
                out,
            ),
            final(self).version == old(self).version,
    {
        let ghost d0 = self@;
        let n = self.tmp_in_target.min(src.len() - *sp);
        *sp = *sp + n;
        self.tmp_in_target = self.tmp_in_target - n;
        assert(self@ =~= (Decoder { target: d0.target - n, ..d0 }));
        if self.tmp_in_target == 0 {
            self.reset();
            return Ok(Some(0));
        }
        Ok(Some(self.tmp_in_target))
    }
}

/// What a call of `decompress` reports.
pub struct Progress {
    /// How many bytes of the input were taken.
    pub src_consumed: usize,
    /// How many bytes were written.
    pub dst_written: usize,
    /// How many bytes the next call would like; none once the frame is
    /// complete.
    pub hint: usize,
}

/// Decodes as much of a frame as there is input and room for. The context
/// carries what is needed to go on with the next call.
///
/// `dict` is what the first block of the frame may refer to.
#[verifier::rlimit(30)]
pub fn decompress(dctx: &mut Dctx, dst: &mut [u8], src: &[u8], dict: Option<&[u8]>, skip_checksums: bool) -> (r: Res<Progress>)
    requires
        old(dctx).wf(),
    ensures
        final(dctx).intact(),
        final(dctx).version == old(dctx).version,
        final(dst)@.len() == old(dst)@.len(),
        match called(
            old(dctx)@,
            src@,
            old(dst)@.len() as int,
            match dict {
                Some(d) => Some(d@),
                None => None,
            },
            skip_checksums,
        ) {
            Act::Go(_) => false,
            Act::Stop(t, hint) => {
                &&& r matches Ok(p)
                &&& p.src_consumed == t.at <= src@.len()
                &&& p.dst_written == t.out.len() <= final(dst)@.len()
                &&& p.hint == hint
                &&& final(dst)@.take(t.out.len() as int) == t.out
                &&& final(dctx)@ == t.d
                &&& final(dctx).wf()
            },
            Act::Fail(t, e) => {
                &&& r == Err::<Progress, Error>(e)
                &&& final(dctx)@ == t.d
                &&& !t.d.stuck() ==> final(dctx).wf()
                &&& t.out.len() <= final(dst)@.len()
                &&& final(dst)@.take(t.out.len() as int) == t.out
            },
        },
{
    let ghost d0 = dctx@;
    let ghost room = dst@.len() as int;
    let ghost given: Option<Seq<u8>> = match dict {
        Some(d) => Some(d@),
        None => None,
    };
    let mut sp: usize = 0;
    let mut op: usize = 0;
    if skip_checksums {
        dctx.skip_checksum = true;
    }
    if let Some(d) = dict {
        if dctx.stage.number() <= 2 {
            dctx.dict = copy_slice(d, 0, d.len());
        }
    }
    let ghost t0 = Turn { d: entered(d0, given, skip_checksums), at: 0, out: Seq::empty() };
    proof {
        if let Some(d) = dict {
            assert(d@.subrange(0, d@.len() as int) =~= d@);
        }
        assert(dctx@ =~= t0.d);
        assert(dst@.take(0) =~= Seq::<u8>::empty());
        lemma_run(t0, src@, room);
    }
    let ghost version = dctx.version;
    loop
        invariant
            dctx.wf(),
            dctx.version == version,
            sp <= src.len(),
            op <= dst.len(),
            dst@.len() == room,
            room == old(dst)@.len(),
            version == old(dctx).version,
            t0.run(src@, room) == turn(*dctx, sp as int, dst@.take(op as int)).run(src@, room),
            t0 == (Turn { d: entered(d0, given, skip_checksums), at: 0, out: Seq::empty() }),
            d0 == old(dctx)@,
            given == (match dict {
                Some(d) => Some(d@),
                None => None,
            }),
            !(t0.run(src@, room) is Go),
        decreases src.len() - sp, dctx.stage.rank(),
    {
        let ghost t = turn(*dctx, sp as int, dst@.take(op as int));
        let len = dst.len();
        proof {
            lemma_step(t, src@, room);
            reveal(Turn::step);
        }
        let r = match dctx.stage {
            DStage::GetFrameHeader => dctx.get_frame_header(src, &mut sp, Ghost(t.out)),
            DStage::StoreFrameHeader => dctx.store_frame_header(src, &mut sp, Ghost(t.out)),
            DStage::Init => dctx.init(Ghost(t.out), Ghost(sp as int)),
            DStage::GetBlockHeader => dctx.get_block_header(src, &mut sp, len, op, Ghost(t.out)),
            DStage::StoreBlockHeader => dctx.store_block_header(
                src,
                &mut sp,
                len,
                op,
                Ghost(t.out),
            ),
            DStage::CopyDirect => dctx.copy_direct(dst, &mut op, src, &mut sp),
            DStage::GetBlockChecksum => dctx.get_block_checksum(src, &mut sp, Ghost(t.out)),
            DStage::GetCBlock => dctx.get_cblock(dst, &mut op, src, &mut sp),
            DStage::StoreCBlock => dctx.store_cblock(dst, &mut op, src, &mut sp),
            DStage::FlushOut => dctx.flush_out(dst, &mut op, Ghost(sp as int)),
            DStage::GetSuffix => dctx.get_suffix(src, &mut sp, Ghost(t.out)),
            DStage::StoreSuffix => dctx.store_suffix(src, &mut sp, Ghost(t.out)),
            DStage::GetSFrameSize => dctx.get_sframe_size(src, &mut sp, Ghost(t.out)),
            DStage::StoreSFrameSize => dctx.store_sframe_size(src, &mut sp, Ghost(t.out)),
            DStage::SkipSkippable => dctx.skip_skippable(src, &mut sp, Ghost(t.out)),
        };
        assert(done(t.step(src@, room), r, *dctx, sp as int, dst@.take(op as int)));
        match r {
            Ok(None) => {},
            Ok(Some(hint)) => {
                return Ok(Progress { src_consumed: sp, dst_written: op, hint });
            },
            Err(e) => {
                return Err(e);
            },
        }
    }
}

/// The parameters of the frame at hand, how much of `src` was taken to learn
/// them, and how many bytes the next call would like. Input is taken only to
/// read the header.
pub fn get_frame_info(dctx: &mut Dctx, src: &[u8]) -> (r: Res<(FrameInfo, usize, usize)>)
    requires
        old(dctx).wf(),
    ensures
        final(dctx).intact(),
        final(dctx)@ == told(old(dctx)@, src@).1,
        final(dctx).version == old(dctx).version,
        match told(old(dctx)@, src@).0 {
            Ok((info, taken, hint)) => {
                &&& r matches Ok(g)
                &&& g.0 == info && g.1 == taken <= src@.len() && g.2 == hint
                &&& final(dctx).wf()
            },
            Err(e) => {
                &&& r == Err::<(FrameInfo, usize, usize), Error>(e)
                &&& !final(dctx)@.stuck() ==> final(dctx).wf()
            },
        },
{
    proof {
        reveal(told);
    }
    if dctx.stage.number() > 1 {
        let mut none: Vec<u8> = Vec::new();
        let nothing: Vec<u8> = Vec::new();
        return match decompress(dctx, none.as_mut_slice(), nothing.as_slice(), None, false) {
            Ok(p) => Ok((dctx.frame_info, 0, p.hint)),
            Err(e) => Err(e),
        };
    }
    if let DStage::StoreFrameHeader = dctx.stage {
        return Err(Error::FrameDecodingAlreadyStarted);
    }
    let size = match header_size(src) {
        Ok(n) => n,
        Err(e) => {
            return Err(e);
        },
    };
    if src.len() < size {
        return Err(Error::FrameHeaderIncomplete);
    }
    let head = &src[0..size];
    assert(head@ =~= src@.take(size as int));
    proof {
        lemma_head(dctx@, src@);
    }
    match dctx.decode_header(head, false) {
        Ok(n) => Ok((dctx.frame_info, n, BH_SIZE)),
        Err(e) => Err(e),
    }
}

/// A header of which every byte is there is read to its end.
proof fn lemma_head(d: Decoder, src: Seq<u8>)
    requires
        d.stage is GetFrameHeader,
        header_size_spec(src) matches Ok(n) && n <= src.len(),
    ensures
        ({
            let head = src.take(header_size_spec(src)->Ok_0);
            d.with_header(head, false).0 is Ok ==> d.with_header(head, false).1.wf()
        }),
{
    let head = src.take(header_size_spec(src)->Ok_0);
    assert(le32(head, 0) == le32(src, 0));
    assert(head[4] == src[4]);
    if let Ok(Header::Whole { size, info, sized }) = parse_header(head) {
        assert(4 <= info.block_size_id <= 7);
        assert(info.block_mode == 0 || info.block_mode == 1);
    }
}

/// What a decoded block leads to does not depend on how many bytes it took.
proof fn lemma_target_spent(t: Turn, target: int, room: int, bytes: Seq<u8>)
    ensures
        (Turn { d: Decoder { target, ..t.d }, ..t }).cblock_given(room, bytes) == t.cblock_given(
            room,
            bytes,
        ),
{
    let u = Turn { d: Decoder { target, ..t.d }, ..t };
    let a = t.d.counted(bytes);
    let b = u.d.counted(bytes);
    assert(a.remembering(bytes).to(DStage::GetBlockHeader) =~= b.remembering(bytes).to(
        DStage::GetBlockHeader,
    ));
    assert(a.to(DStage::FlushOut) =~= b.to(DStage::FlushOut));
}

} // verus!
