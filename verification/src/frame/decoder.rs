//! Decoding frames as mathematics: a machine that takes a frame in pieces of
//! any size and gives its content in pieces of any size.
use vstd::prelude::*;
use crate::bytes::{le32, le64};
use crate::format::{decode, min_int, DecodeSetup, Decoded};
use crate::xxh::xxh32_spec;
use super::compress::header_checksum_spec;
use super::{
    block_size, no_info, Error, FrameInfo, Res, BF_SIZE, BH_SIZE, HEADER_SIZE_MAX, HEADER_SIZE_MIN,
    MAGICNUMBER,
};

verus! {

/// Where a decoder stands in a frame.
#[derive(Debug, Clone, Copy, PartialEq, Eq, Structural)]
pub enum DStage {
    GetFrameHeader,
    StoreFrameHeader,
    Init,
    GetBlockHeader,
    StoreBlockHeader,
    CopyDirect,
    GetBlockChecksum,
    GetCBlock,
    StoreCBlock,
    FlushOut,
    GetSuffix,
    StoreSuffix,
    GetSFrameSize,
    StoreSFrameSize,
    SkipSkippable,
}

impl DStage {
    /// The stages are numbered in order, from zero.
    pub open spec fn number_spec(self) -> u32 {
        match self {
            DStage::GetFrameHeader => 0,
            DStage::StoreFrameHeader => 1,
            DStage::Init => 2,
            DStage::GetBlockHeader => 3,
            DStage::StoreBlockHeader => 4,
            DStage::CopyDirect => 5,
            DStage::GetBlockChecksum => 6,
            DStage::GetCBlock => 7,
            DStage::StoreCBlock => 8,
            DStage::FlushOut => 9,
            DStage::GetSuffix => 10,
            DStage::StoreSuffix => 11,
            DStage::GetSFrameSize => 12,
            DStage::StoreSFrameSize => 13,
            DStage::SkipSkippable => 14,
        }
    }

    /// The number of the stage.
    #[verifier::when_used_as_spec(number_spec)]
    pub fn number(self) -> (n: u32)
        ensures
            n == self.number_spec(),
    {
        match self {
            DStage::GetFrameHeader => 0,
            DStage::StoreFrameHeader => 1,
            DStage::Init => 2,
            DStage::GetBlockHeader => 3,
            DStage::StoreBlockHeader => 4,
            DStage::CopyDirect => 5,
            DStage::GetBlockChecksum => 6,
            DStage::GetCBlock => 7,
            DStage::StoreCBlock => 8,
            DStage::FlushOut => 9,
            DStage::GetSuffix => 10,
            DStage::StoreSuffix => 11,
            DStage::GetSFrameSize => 12,
            DStage::StoreSFrameSize => 13,
            DStage::SkipSkippable => 14,
        }
    }

    /// Steps that take no input lead to a stage of lesser rank.
    pub open spec fn rank(self) -> int {
        match self {
            DStage::Init | DStage::CopyDirect | DStage::FlushOut => 5,
            DStage::GetBlockChecksum => 4,
            DStage::GetFrameHeader
            | DStage::GetBlockHeader
            | DStage::GetCBlock
            | DStage::GetSuffix
            | DStage::GetSFrameSize => 3,
            DStage::StoreFrameHeader
            | DStage::StoreBlockHeader
            | DStage::StoreCBlock
            | DStage::StoreSuffix
            | DStage::StoreSFrameSize => 2,
            DStage::SkipSkippable => 1,
        }
    }

    /// Whether the stage lies between a frame's header and its end.
    pub open spec fn in_frame(self) -> bool {
        3 <= self.number() <= 11
    }
}

// ---------------------------------------------------------------------------
// Headers
// ---------------------------------------------------------------------------

/// Whether a magic number is one of the sixteen that open a skippable frame.
pub open spec fn is_skippable(magic: u32) -> bool {
    magic / 16 == 0x184D_2A5
}

/// The size of a frame header whose flags are `flg`.
pub open spec fn flagged_size(flg: u8) -> int {
    HEADER_SIZE_MIN + (if flg / 8 % 2 != 0 {
        8int
    } else {
        0
    }) + (if flg % 2 != 0 {
        4int
    } else {
        0
    })
}

/// The size of the header that `src` starts with, as its first bytes tell.
pub open spec fn header_size_spec(src: Seq<u8>) -> Res<int> {
    if src.len() < 5 {
        Err(Error::FrameHeaderIncomplete)
    } else if is_skippable(le32(src, 0)) {
        Ok(8)
    } else if le32(src, 0) != MAGICNUMBER {
        Err(Error::FrameTypeUnknown)
    } else {
        Ok(flagged_size(src[4]))
    }
}

/// What a frame header turns out to be.
pub enum Header {
    /// That of a skippable frame.
    Skippable,
    /// One of `need` bytes, not all of them there.
    Short { need: int },
    /// One of `size` bytes, and what it says. `sized` tells whether it gives
    /// the size of the content.
    Whole { size: int, info: FrameInfo, sized: bool },
}

/// What a whole header of `size` bytes says.
pub open spec fn header_info(src: Seq<u8>, size: int) -> FrameInfo {
    let flg = src[4];
    FrameInfo {
        block_size_id: (src[5] / 16 % 8) as i32,
        block_mode: (flg / 32 % 2) as i32,
        content_checksum: flg / 4 % 2 != 0,
        frame_type: 0,
        content_size: if flg / 8 % 2 != 0 {
            le64(src, 6)
        } else {
            0
        },
        dict_id: if flg % 2 != 0 {
            le32(src, size - 5)
        } else {
            0
        },
        block_checksum: flg / 16 % 2 != 0,
    }
}

/// The header that `src` starts with.
pub open spec fn parse_header(src: Seq<u8>) -> Res<Header> {
    if src.len() < HEADER_SIZE_MIN {
        Err(Error::FrameHeaderIncomplete)
    } else if is_skippable(le32(src, 0)) {
        Ok(Header::Skippable)
    } else if le32(src, 0) != MAGICNUMBER {
        Err(Error::FrameTypeUnknown)
    } else {
        let flg = src[4];
        let bd = src[5];
        let size = flagged_size(flg);
        if flg / 2 % 2 != 0 {
            Err(Error::ReservedFlagSet)
        } else if flg / 64 != 1 {
            Err(Error::HeaderVersionWrong)
        } else if src.len() < size {
            Ok(Header::Short { need: size })
        } else if bd / 128 != 0 {
            Err(Error::ReservedFlagSet)
        } else if bd / 16 % 8 < 4 {
            Err(Error::MaxBlockSizeInvalid)
        } else if bd % 16 != 0 {
            Err(Error::ReservedFlagSet)
        } else if header_checksum_spec(src.subrange(4, size - 1)) != src[size - 1] {
            Err(Error::HeaderChecksumInvalid)
        } else {
            Ok(
                Header::Whole {
                    size,
                    info: header_info(src, size),
                    sized: flg / 8 % 2 != 0,
                },
            )
        }
    }
}

// ---------------------------------------------------------------------------
// The machine
// ---------------------------------------------------------------------------

/// How much of what was decoded later blocks may refer to.
pub const HISTORY: usize = 0x1_0000;

/// The last bytes of `s`, as many as later blocks may refer to.
pub open spec fn recent(s: Seq<u8>) -> Seq<u8> {
    if s.len() > HISTORY {
        s.skip(s.len() - HISTORY)
    } else {
        s
    }
}

/// What a decoding context holds. Fields that a stage has no use for are
/// empty or zero.
#[verifier::ext_equal]
pub struct Decoder {
    pub stage: DStage,
    pub info: FrameInfo,
    /// How much content is still to come, where the header gave its size.
    pub remaining: u64,
    /// The size of a full block.
    pub block_max: int,
    /// What has come of the bytes that the stage waits for.
    pub got: Seq<u8>,
    /// How many bytes the stage waits for, where that differs.
    pub target: int,
    /// Content that waits for room.
    pub ready: Seq<u8>,
    /// What the next block may refer to.
    pub dict: Seq<u8>,
    /// The content so far, where the frame has a checksum over it.
    pub content: Seq<u8>,
    /// The stored block so far, where blocks have checksums.
    pub stored: Seq<u8>,
    /// Whether checksums go unchecked.
    pub skip: bool,
}

/// Where a call stands: the decoder, how much input was taken, and the output.
#[verifier::ext_equal]
pub struct Turn {
    pub d: Decoder,
    pub at: int,
    pub out: Seq<u8>,
}

/// What a step comes to.
#[verifier::ext_equal]
pub enum Act {
    /// The call goes on.
    Go(Turn),
    /// The call ends, and asks for so many bytes in the next one.
    Stop(Turn, int),
    /// The call fails.
    Fail(Turn, Error),
}

impl Decoder {
    /// A decoder that waits for a frame.
    pub open spec fn fresh(block_max: int, info: FrameInfo) -> Decoder {
        Decoder {
            stage: DStage::GetFrameHeader,
            info,
            remaining: 0,
            block_max,
            got: Seq::empty(),
            target: 0,
            ready: Seq::empty(),
            dict: Seq::empty(),
            content: Seq::empty(),
            stored: Seq::empty(),
            skip: false,
        }
    }

    /// The decoder at the end of a frame.
    pub open spec fn closed(self) -> Decoder {
        Decoder::fresh(self.block_max, self.info)
    }

    /// The decoder in another stage, which waits for nothing in particular.
    pub open spec fn to(self, stage: DStage) -> Decoder {
        Decoder {
            stage,
            got: Seq::empty(),
            target: 0,
            ready: Seq::empty(),
            stored: Seq::empty(),
            ..self
        }
    }

    /// How many bytes the stage waits for.
    pub open spec fn need(self) -> int {
        match self.stage {
            DStage::StoreFrameHeader | DStage::StoreCBlock => self.target,
            DStage::StoreBlockHeader | DStage::StoreSuffix | DStage::StoreSFrameSize => 4,
            DStage::GetBlockChecksum => 4,
            _ => 0,
        }
    }

    /// What holds of a decoder between calls, also after most failures: where a
    /// stage has all the bytes that it waits for, they are such that it fails
    /// again.
    pub open spec fn wf(self) -> bool {
        &&& 2 <= self.stage.number() <= 11 ==> {
            &&& 4 <= self.info.block_size_id <= 7
            &&& block_size(self.info.block_size_id) == Some(self.block_max)
            &&& self.info.block_mode == 0 || self.info.block_mode == 1
        }
        &&& self.stage.rank() == 2 || self.stage is GetBlockChecksum ==> self.got.len()
            <= self.need()
        &&& match self.stage {
            DStage::StoreFrameHeader => {
                &&& HEADER_SIZE_MIN <= self.target <= HEADER_SIZE_MAX
                &&& self.target > HEADER_SIZE_MIN ==> self.got.len() >= HEADER_SIZE_MIN && le32(
                    self.got,
                    0,
                ) == MAGICNUMBER
                &&& self.got.len() == self.target ==> parse_header(self.got) is Err
            },
            DStage::StoreBlockHeader => self.got.len() == BH_SIZE ==> le32(self.got, 0) as int
                % 0x8000_0000 > self.block_max,
            DStage::StoreSFrameSize => self.got.len() < 4,
            DStage::CopyDirect => 0 <= self.target <= self.block_max,
            DStage::GetCBlock => 0 <= self.target <= self.block_max + self.crc_size(),
            DStage::StoreCBlock => {
                &&& 0 <= self.target <= self.block_max + self.crc_size()
                &&& self.got.len() == self.target ==> if self.info.block_checksum {
                    self.target < BF_SIZE
                } else {
                    self.opened(self.got) is None
                }
            },
            DStage::FlushOut => self.ready.len() <= self.block_max,
            DStage::GetBlockChecksum => self.info.block_checksum,
            DStage::StoreSuffix => self.info.content_checksum,
            DStage::SkipSkippable => 0 <= self.target <= u32::MAX,
            _ => true,
        }
    }

    /// Whether a stored block turned out to be wrong, so that more bytes of it
    /// are at hand than still count. Nothing but a reset helps.
    pub open spec fn stuck(self) -> bool {
        self.stage is StoreCBlock && self.got.len() > self.target
    }

    /// The size of the checksum behind a block.
    pub open spec fn crc_size(self) -> int {
        if self.info.block_checksum {
            BF_SIZE as int
        } else {
            0
        }
    }

    /// Whether the content is summed up.
    pub open spec fn sums(self) -> bool {
        self.info.content_checksum && !self.skip
    }

    /// The decoder after `bytes` of content.
    pub open spec fn counted(self, bytes: Seq<u8>) -> Decoder {
        Decoder {
            content: if self.sums() {
                self.content + bytes
            } else {
                self.content
            },
            remaining: if self.info.content_size != 0 {
                self.remaining.wrapping_sub(bytes.len() as u64)
            } else {
                self.remaining
            },
            ..self
        }
    }

    /// The decoder after it has given `bytes` out: linked blocks may refer to
    /// them.
    pub open spec fn remembering(self, bytes: Seq<u8>) -> Decoder {
        Decoder {
            dict: if self.info.block_mode == 0 {
                recent(self.dict + bytes)
            } else {
                self.dict
            },
            ..self
        }
    }

    /// The decoder after it has given out `bytes` of a stored block.
    pub open spec fn copied(self, bytes: Seq<u8>) -> Decoder {
        Decoder {
            stored: if self.info.block_checksum && !self.skip {
                self.stored + bytes
            } else {
                self.stored
            },
            ..self
        }.counted(bytes).remembering(bytes)
    }

    /// What a compressed block holds.
    pub open spec fn opened(self, body: Seq<u8>) -> Option<Seq<u8>> {
        let setup = DecodeSetup {
            hist: self.dict,
            prefix: 0,
            cap: self.block_max,
            partial: false,
            lead: None,
        };
        match decode(setup, body) {
            Decoded::Done { out, doubt: _ } => Some(out),
            _ => None,
        }
    }

    /// Reading a header, given in place or (`stored`) piece by piece: how many
    /// bytes that took, and the decoder after it.
    pub open spec fn with_header(self, src: Seq<u8>, stored: bool) -> (Res<int>, Decoder) {
        let blank = Decoder { info: no_info(), ..self };
        match parse_header(src) {
            Err(e) => (
                Err(e),
                if src.len() < HEADER_SIZE_MIN {
                    self
                } else {
                    blank
                },
            ),
            Ok(Header::Skippable) => {
                let d = Decoder { info: FrameInfo { frame_type: 1, ..no_info() }, ..self };
                if stored {
                    (
                        Ok(src.len() as int),
                        Decoder { got: src.skip(4), ..d.to(DStage::StoreSFrameSize) },
                    )
                } else {
                    (Ok(4), d.to(DStage::GetSFrameSize))
                }
            },
            Ok(Header::Short { need }) => (
                Ok(src.len() as int),
                Decoder { got: src, target: need, ..blank.to(DStage::StoreFrameHeader) },
            ),
            Ok(Header::Whole { size, info, sized }) => (
                Ok(size),
                Decoder {
                    info,
                    block_max: match block_size(info.block_size_id) {
                        Some(n) => n,
                        None => 0,
                    },
                    remaining: if sized {
                        info.content_size
                    } else {
                        self.remaining
                    },
                    ..self.to(DStage::Init)
                },
            ),
        }
    }
}

/// How many more bytes a stage can take.
pub open spec fn takes(need: int, got: Seq<u8>, src: Seq<u8>, at: int) -> int {
    min_int(need - got.len(), src.len() - at)
}

/// What a stage has got once it has taken what there is.
pub open spec fn topped(need: int, got: Seq<u8>, src: Seq<u8>, at: int) -> Seq<u8> {
    got + src.subrange(at, at + takes(need, got, src, at))
}

impl Turn {
    /// The call with another decoder and more input taken.
    pub open spec fn with(self, d: Decoder, taken: int) -> Turn {
        Turn { d, at: self.at + taken, ..self }
    }

    /// The stage takes what there is of the bytes it waits for.
    pub open spec fn topping(self, src: Seq<u8>) -> Turn {
        let d = self.d;
        self.with(
            Decoder { got: topped(d.need(), d.got, src, self.at), ..d },
            takes(d.need(), d.got, src, self.at),
        )
    }

    pub open spec fn get_frame_header(self, src: Seq<u8>) -> Act {
        let left = src.len() - self.at;
        if left >= HEADER_SIZE_MAX {
            match self.d.with_header(src.skip(self.at), false) {
                (Ok(n), d) => Act::Go(self.with(d, n)),
                (Err(e), d) => Act::Fail(self.with(d, 0), e),
            }
        } else if left == 0 {
            Act::Stop(self, HEADER_SIZE_MIN as int)
        } else {
            let d = Decoder {
                target: HEADER_SIZE_MIN as int,
                ..self.d.to(DStage::StoreFrameHeader)
            };
            Act::Go(self.with(d, 0))
        }
    }

    pub open spec fn store_frame_header(self, src: Seq<u8>) -> Act {
        let t = self.topping(src);
        if t.d.got.len() < t.d.target {
            Act::Stop(t, t.d.target - t.d.got.len() + BH_SIZE)
        } else {
            match t.d.with_header(t.d.got, true) {
                (Ok(_), d) => Act::Go(t.with(d, 0)),
                (Err(e), d) => Act::Fail(t.with(d, 0), e),
            }
        }
    }

    pub open spec fn init(self) -> Act {
        Act::Go(
            self.with(
                Decoder { content: Seq::empty(), ..self.d.to(DStage::GetBlockHeader) },
                0,
            ),
        )
    }

    /// What the block header `h` leads to.
    pub open spec fn block_header(self, src: Seq<u8>, room: int, h: u32) -> Act {
        let size = h as int % 0x8000_0000;
        let d = self.d;
        if h == 0 {
            Act::Go(self.with(d.to(DStage::GetSuffix), 0))
        } else if size > d.block_max {
            Act::Fail(self, Error::MaxBlockSizeInvalid)
        } else if h >= 0x8000_0000 {
            Act::Go(self.with(Decoder { target: size, ..d.to(DStage::CopyDirect) }, 0))
        } else {
            let need = size + d.crc_size();
            let t = self.with(Decoder { target: need, ..d.to(DStage::GetCBlock) }, 0);
            if self.out.len() == room || self.at == src.len() {
                Act::Stop(t, BH_SIZE + need)
            } else {
                Act::Go(t)
            }
        }
    }

    pub open spec fn get_block_header(self, src: Seq<u8>, room: int) -> Act {
        if src.len() - self.at >= BH_SIZE {
            self.with(self.d, BH_SIZE as int).block_header(src, room, le32(src, self.at))
        } else {
            Act::Go(self.with(self.d.to(DStage::StoreBlockHeader), 0))
        }
    }

    pub open spec fn store_block_header(self, src: Seq<u8>, room: int) -> Act {
        let t = self.topping(src);
        if t.d.got.len() < BH_SIZE {
            Act::Stop(t, BH_SIZE - t.d.got.len())
        } else {
            t.block_header(src, room, le32(t.d.got, 0))
        }
    }

    pub open spec fn copy_direct(self, src: Seq<u8>, room: int) -> Act {
        let n = min_int(self.d.target, min_int(src.len() - self.at, room - self.out.len()));
        let bytes = src.subrange(self.at, self.at + n);
        let d = self.d.copied(bytes);
        let t = Turn { out: self.out + bytes, ..self.with(d, n) };
        if n == d.target {
            if d.info.block_checksum {
                Act::Go(
                    t.with(
                        Decoder { stored: d.stored, ..d.to(DStage::GetBlockChecksum) },
                        0,
                    ),
                )
            } else {
                Act::Go(t.with(d.to(DStage::GetBlockHeader), 0))
            }
        } else {
            let left = d.target - n;
            Act::Stop(t.with(Decoder { target: left, ..d }, 0), left + d.crc_size() + BH_SIZE)
        }
    }

    pub open spec fn get_block_checksum(self, src: Seq<u8>) -> Act {
        let t = self.topping(src);
        if t.d.got.len() < BF_SIZE {
            Act::Stop(t, 1)
        } else if !t.d.skip && le32(t.d.got, 0) != xxh32_spec(t.d.stored, 0) {
            // A checksum that was there as a whole is not kept.
            Act::Fail(
                if self.d.got.len() == 0 {
                    self.with(self.d, BF_SIZE as int)
                } else {
                    t
                },
                Error::BlockChecksumInvalid,
            )
        } else {
            Act::Go(t.with(t.d.to(DStage::GetBlockHeader), 0))
        }
    }

    /// What `bytes` out of a compressed block lead to: they are given out at
    /// once where there is room for a full block.
    pub open spec fn cblock_given(self, room: int, bytes: Seq<u8>) -> Act {
        let d = self.d.counted(bytes);
        if room - self.out.len() >= d.block_max {
            let e = d.remembering(bytes).to(DStage::GetBlockHeader);
            Act::Go(Turn { out: self.out + bytes, ..self.with(e, 0) })
        } else {
            Act::Go(self.with(Decoder { ready: bytes, ..d.to(DStage::FlushOut) }, 0))
        }
    }

    /// What the compressed block `block`, checksum and all, leads to.
    pub open spec fn cblock(self, room: int, block: Seq<u8>) -> Act {
        let d = self.d;
        let len = block.len() - d.crc_size();
        // Once the checksum is set apart, the block counts without it.
        let bare = self.with(
            Decoder {
                target: if d.info.block_checksum {
                    len
                } else {
                    d.target
                },
                ..d
            },
            0,
        );
        if len < 0 {
            Act::Fail(self, Error::BlockChecksumInvalid)
        } else if d.info.block_checksum && !d.skip && le32(block, len) != xxh32_spec(
            block.take(len),
            0,
        ) {
            Act::Fail(bare, Error::BlockChecksumInvalid)
        } else {
            match d.opened(block.take(len)) {
                None => Act::Fail(bare, Error::DecompressionFailed),
                Some(bytes) => self.cblock_given(room, bytes),
            }
        }
    }

    pub open spec fn get_cblock(self, src: Seq<u8>, room: int) -> Act {
        let n = self.d.target;
        if src.len() - self.at < n {
            Act::Go(self.with(Decoder { target: n, ..self.d.to(DStage::StoreCBlock) }, 0))
        } else {
            self.with(self.d, n).cblock(room, src.subrange(self.at, self.at + n))
        }
    }

    pub open spec fn store_cblock(self, src: Seq<u8>, room: int) -> Act {
        let t = self.topping(src);
        if t.d.got.len() < t.d.target {
            Act::Stop(t, t.d.target - t.d.got.len() + t.d.crc_size() + BH_SIZE)
        } else {
            t.cblock(room, t.d.got)
        }
    }

    pub open spec fn flush_out(self, room: int) -> Act {
        let n = min_int(self.d.ready.len() as int, room - self.out.len());
        let bytes = self.d.ready.take(n);
        let d = Decoder { ready: self.d.ready.skip(n), ..self.d }.remembering(bytes);
        let t = Turn { out: self.out + bytes, ..self.with(d, 0) };
        if d.ready.len() == 0 {
            Act::Go(t.with(d.to(DStage::GetBlockHeader), 0))
        } else {
            Act::Stop(t, BH_SIZE as int)
        }
    }

    /// The end of a frame whose content has the checksum `sum`.
    pub open spec fn content_checksum(self, sum: u32) -> Act {
        if !self.d.skip && sum != xxh32_spec(self.d.content, 0) {
            Act::Fail(self, Error::ContentChecksumInvalid)
        } else {
            Act::Stop(self.with(self.d.closed(), 0), 0)
        }
    }

    pub open spec fn get_suffix(self, src: Seq<u8>) -> Act {
        if self.d.remaining != 0 {
            Act::Fail(self, Error::FrameSizeWrong)
        } else if !self.d.info.content_checksum {
            Act::Stop(self.with(self.d.closed(), 0), 0)
        } else if src.len() - self.at < 4 {
            Act::Go(self.with(self.d.to(DStage::StoreSuffix), 0))
        } else {
            self.with(self.d, 4).content_checksum(le32(src, self.at))
        }
    }

    pub open spec fn store_suffix(self, src: Seq<u8>) -> Act {
        let t = self.topping(src);
        if t.d.got.len() < 4 {
            Act::Stop(t, 4 - t.d.got.len())
        } else {
            t.content_checksum(le32(t.d.got, 0))
        }
    }

    /// A skippable frame that holds `size` bytes.
    pub open spec fn skippable(self, size: u32) -> Act {
        let d = self.d.to(DStage::SkipSkippable);
        Act::Go(
            self.with(
                Decoder {
                    info: FrameInfo { content_size: size as u64, ..d.info },
                    target: size as int,
                    ..d
                },
                0,
            ),
        )
    }

    pub open spec fn get_sframe_size(self, src: Seq<u8>) -> Act {
        if src.len() - self.at >= 4 {
            self.with(self.d, 4).skippable(le32(src, self.at))
        } else {
            Act::Go(self.with(self.d.to(DStage::StoreSFrameSize), 0))
        }
    }

    pub open spec fn store_sframe_size(self, src: Seq<u8>) -> Act {
        let t = self.topping(src);
        if t.d.got.len() < 4 {
            Act::Stop(t, 4 - t.d.got.len())
        } else {
            t.skippable(le32(t.d.got, 0))
        }
    }

    pub open spec fn skip_skippable(self, src: Seq<u8>) -> Act {
        let n = min_int(self.d.target, src.len() - self.at);
        let left = self.d.target - n;
        if left == 0 {
            Act::Stop(self.with(self.d.closed(), n), 0)
        } else {
            Act::Stop(self.with(Decoder { target: left, ..self.d }, n), left)
        }
    }

    /// One step of a call that is given the input `src` and has room for
    /// `room` bytes of output.
    #[verifier::opaque]
    pub open spec fn step(self, src: Seq<u8>, room: int) -> Act {
        match self.d.stage {
            DStage::GetFrameHeader => self.get_frame_header(src),
            DStage::StoreFrameHeader => self.store_frame_header(src),
            DStage::Init => self.init(),
            DStage::GetBlockHeader => self.get_block_header(src, room),
            DStage::StoreBlockHeader => self.store_block_header(src, room),
            DStage::CopyDirect => self.copy_direct(src, room),
            DStage::GetBlockChecksum => self.get_block_checksum(src),
            DStage::GetCBlock => self.get_cblock(src, room),
            DStage::StoreCBlock => self.store_cblock(src, room),
            DStage::FlushOut => self.flush_out(room),
            DStage::GetSuffix => self.get_suffix(src),
            DStage::StoreSuffix => self.store_suffix(src),
            DStage::GetSFrameSize => self.get_sframe_size(src),
            DStage::StoreSFrameSize => self.store_sframe_size(src),
            DStage::SkipSkippable => self.skip_skippable(src),
        }
    }

    /// Whether `next` is nearer to the end of the call than `self`: more input
    /// was taken, or the stage is of lesser rank.
    pub open spec fn nears(self, next: Turn, src: Seq<u8>) -> bool {
        &&& self.at <= next.at <= src.len()
        &&& self.at == next.at ==> next.d.stage.rank() < self.d.stage.rank()
    }

    /// A whole call: steps until one ends it.
    pub open spec fn run(self, src: Seq<u8>, room: int) -> Act
        decreases src.len() - self.at, self.d.stage.rank(),
    {
        match self.step(src, room) {
            Act::Go(next) => if self.nears(next, src) {
                next.run(src, room)
            } else {
                Act::Go(next)
            },
            end => end,
        }
    }
}

/// The decoder with which a call starts: a dictionary counts until the first
/// block, and checksums once left out stay out.
pub open spec fn entered(d: Decoder, dict: Option<Seq<u8>>, skip: bool) -> Decoder {
    Decoder {
        skip: d.skip || skip,
        dict: if dict is Some && d.stage.number() <= 2 {
            dict->0
        } else {
            d.dict
        },
        ..d
    }
}

/// What a call of the decoder comes to.
pub open spec fn called(d: Decoder, src: Seq<u8>, room: int, dict: Option<Seq<u8>>, skip: bool) -> Act {
    Turn { d: entered(d, dict, skip), at: 0, out: Seq::empty() }.run(src, room)
}

/// What `get_frame_info` gives: the frame's parameters, how much input it took,
/// and how much it asks for; and the decoder after it.
#[verifier::opaque]
pub open spec fn told(d: Decoder, src: Seq<u8>) -> (Res<(FrameInfo, int, int)>, Decoder) {
    if d.stage.number() > 1 {
        match called(d, Seq::empty(), 0, None, false) {
            Act::Stop(t, hint) => (Ok((t.d.info, 0, hint)), t.d),
            Act::Fail(t, e) => (Err(e), t.d),
            Act::Go(t) => (Err(Error::Generic), t.d),
        }
    } else if d.stage is StoreFrameHeader {
        (Err(Error::FrameDecodingAlreadyStarted), d)
    } else {
        match header_size_spec(src) {
            Err(e) => (Err(e), d),
            Ok(n) => if src.len() < n {
                (Err(Error::FrameHeaderIncomplete), d)
            } else {
                match d.with_header(src.take(n), false) {
                    (Ok(m), e) => (Ok((e.info, m, BH_SIZE as int)), e),
                    (Err(e), f) => (Err(e), f),
                }
            },
        }
    }
}

/// Bounds that every step of a call keeps.
pub open spec fn in_bounds(t: Turn, src: Seq<u8>, room: int) -> bool {
    &&& t.d.wf()
    &&& 0 <= t.at <= src.len()
    &&& t.out.len() <= room
}

/// A decoded block fits its room, whatever it holds.
proof fn lemma_opened(d: Decoder, body: Seq<u8>)
    requires
        d.block_max >= 0,
    ensures
        d.opened(body) matches Some(bytes) ==> bytes.len() <= d.block_max,
{
    crate::format::lemma_whole(
        DecodeSetup { hist: d.dict, prefix: 0, cap: d.block_max, partial: false, lead: None },
        body,
    );
}

/// Whether an act keeps the bounds, and nears the end of the call.
pub open spec fn fine(t: Turn, act: Act, src: Seq<u8>, room: int) -> bool {
    match act {
        Act::Go(next) => in_bounds(next, src, room) && t.nears(next, src),
        Act::Stop(next, _) => in_bounds(next, src, room),
        Act::Fail(end, _) => end.d.stuck() || in_bounds(end, src, room),
    }
}

/// A header that is read leads to a stage that fits what was read.
proof fn lemma_with_header(d: Decoder, src: Seq<u8>, stored: bool)
    requires
        stored ==> HEADER_SIZE_MIN <= src.len() <= HEADER_SIZE_MAX,
        stored ==> d.stage is StoreFrameHeader && d.target == src.len() && (src.len() == 7
            || !is_skippable(le32(src, 0))),
        !stored ==> src.len() >= HEADER_SIZE_MAX,
    ensures
        d.with_header(src, stored).0 matches Ok(n) ==> 4 <= n <= src.len() && d.with_header(
            src,
            stored,
        ).1.wf(),
        !stored && d.with_header(src, stored).0 is Ok ==> (d.with_header(src, stored).1.stage is Init
            || d.with_header(src, stored).1.stage is GetSFrameSize),
{
    if let Ok(Header::Whole { size, info, sized }) = parse_header(src) {
        assert(7 <= size <= 19);
        assert(4 <= info.block_size_id <= 7);
        assert(info.block_mode == 0 || info.block_mode == 1);
    }
    if src.len() >= 7 {
        assert(src.skip(4).len() == src.len() - 4);
    }
}

proof fn lemma_frame_header_steps(t: Turn, src: Seq<u8>, room: int)
    requires
        in_bounds(t, src, room),
    ensures
        t.d.stage is GetFrameHeader ==> fine(t, t.get_frame_header(src), src, room),
        t.d.stage is StoreFrameHeader ==> fine(t, t.store_frame_header(src), src, room),
{
    if t.d.stage is GetFrameHeader {
        if src.len() - t.at >= HEADER_SIZE_MAX {
            lemma_with_header(t.d, src.skip(t.at), false);
        }
    } else if t.d.stage is StoreFrameHeader {
        let u = t.topping(src);
        assert(u.d.got.len() <= u.d.target);
        assert(t.d.got.len() >= 4 ==> le32(u.d.got, 0) == le32(t.d.got, 0));
        if u.d.got.len() == u.d.target {
            lemma_with_header(u.d, u.d.got, true);
        }
    }
}

proof fn lemma_skippable_steps(t: Turn, src: Seq<u8>, room: int)
    requires
        in_bounds(t, src, room),
    ensures
        t.d.stage is GetSFrameSize ==> fine(t, t.get_sframe_size(src), src, room),
        t.d.stage is StoreSFrameSize ==> fine(t, t.store_sframe_size(src), src, room),
        t.d.stage is SkipSkippable ==> fine(t, t.skip_skippable(src), src, room),
        t.d.stage is Init ==> fine(t, t.init(), src, room),
{
}

proof fn lemma_block_header_steps(t: Turn, src: Seq<u8>, room: int)
    requires
        in_bounds(t, src, room),
    ensures
        t.d.stage is GetBlockHeader ==> fine(t, t.get_block_header(src, room), src, room),
        t.d.stage is StoreBlockHeader ==> fine(t, t.store_block_header(src, room), src, room),
{
}

proof fn lemma_stored_steps(t: Turn, src: Seq<u8>, room: int)
    requires
        in_bounds(t, src, room),
    ensures
        t.d.stage is CopyDirect ==> fine(t, t.copy_direct(src, room), src, room),
        t.d.stage is GetBlockChecksum ==> fine(t, t.get_block_checksum(src), src, room),
        t.d.stage is FlushOut ==> fine(t, t.flush_out(room), src, room),
{
}

proof fn lemma_cblock_steps(t: Turn, src: Seq<u8>, room: int)
    requires
        in_bounds(t, src, room),
    ensures
        t.d.stage is GetCBlock ==> fine(t, t.get_cblock(src, room), src, room),
        t.d.stage is StoreCBlock ==> fine(t, t.store_cblock(src, room), src, room),
{
    if t.d.stage is GetCBlock {
        let n = t.d.target;
        if src.len() - t.at >= n {
            let block = src.subrange(t.at, t.at + n);
            let len = block.len() - t.d.crc_size();
            if len >= 0 {
                lemma_opened(t.d, block.take(len));
            }
        }
    } else if t.d.stage is StoreCBlock {
        let u = t.topping(src);
        let block = u.d.got;
        let len = block.len() - u.d.crc_size();
        if len >= 0 {
            lemma_opened(u.d, block.take(len));
        }
        assert(block.take(block.len() as int) =~= block);
        if t.d.got.len() == t.d.target {
            assert(block =~= t.d.got);
        }
    }
}

proof fn lemma_suffix_steps(t: Turn, src: Seq<u8>, room: int)
    requires
        in_bounds(t, src, room),
    ensures
        t.d.stage is GetSuffix ==> fine(t, t.get_suffix(src), src, room),
        t.d.stage is StoreSuffix ==> fine(t, t.store_suffix(src), src, room),
{
}

/// A step of a call keeps its decoder well-formed, goes nearer to the end, and
/// writes no more than there is room for.
pub proof fn lemma_step(t: Turn, src: Seq<u8>, room: int)
    requires
        in_bounds(t, src, room),
    ensures
        fine(t, t.step(src, room), src, room),
{
    reveal(Turn::step);
    lemma_frame_header_steps(t, src, room);
    lemma_skippable_steps(t, src, room);
    lemma_block_header_steps(t, src, room);
    lemma_stored_steps(t, src, room);
    lemma_cblock_steps(t, src, room);
    lemma_suffix_steps(t, src, room);
}

/// A call ends in a stop or a failure, with a well-formed decoder unless that is
/// stuck.
pub proof fn lemma_run(t: Turn, src: Seq<u8>, room: int)
    requires
        in_bounds(t, src, room),
    ensures
        match t.run(src, room) {
            Act::Go(_) => false,
            Act::Stop(end, _) => in_bounds(end, src, room),
            Act::Fail(end, _) => end.d.stuck() || in_bounds(end, src, room),
        },
    decreases src.len() - t.at, t.d.stage.rank(),
{
    lemma_step(t, src, room);
    if let Act::Go(next) = t.step(src, room) {
        lemma_run(next, src, room);
    }
}

} // verus!
