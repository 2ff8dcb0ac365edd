//! What a decoder takes for a frame: only what is one.
use vstd::prelude::*;
use crate::bytes::{law_le_bytes, le32, le32_bytes, le64_bytes};
use crate::format::{decode, lemma_whole, min_int, DecodeSetup, Decoded};
use crate::xxh::xxh32_spec;
use super::decoder::{
    entered, flagged_size, header_info, in_bounds, is_skippable, lemma_run, lemma_step,
    parse_header, recent, Act, DStage, Decoder, Header, Turn,
};
use super::laws::{Blk, Frame};
use super::pieces::{given_by, run_of, taken_by, Call};
use super::round_trip::{grown, lemma_grown, lemma_written, written};
use super::{block_size, Error, FrameInfo, HEADER_SIZE_MAX, MAGICNUMBER};

verus! {

/// A header as it is written down: the magic number, flags, the size of blocks,
/// the size of the content and the number of the dictionary where they are
/// `sized` and `keyed`, and one byte of a hash of what follows the magic number.
pub open spec fn shown(i: FrameInfo, sized: bool, keyed: bool) -> Seq<u8> {
    let flags = 64 + 32 * i.block_mode + (if i.block_checksum {
        16int
    } else {
        0
    }) + (if sized {
        8int
    } else {
        0
    }) + (if i.content_checksum {
        4int
    } else {
        0
    }) + (if keyed {
        1int
    } else {
        0
    });
    let desc = seq![flags as u8, (16 * i.block_size_id) as u8] + (if sized {
        le64_bytes(i.content_size)
    } else {
        Seq::empty()
    }) + (if keyed {
        le32_bytes(i.dict_id)
    } else {
        Seq::empty()
    });
    le32_bytes(MAGICNUMBER) + desc + seq![(xxh32_spec(desc, 0) / 0x100 % 0x100) as u8]
}

/// A header that is accepted is written just so: every byte of it is accounted
/// for, its checksum is right, and its blocks have one of four sizes.
pub proof fn law_header_as_shown(src: Seq<u8>)
    ensures
        parse_header(src) matches Ok(Header::Whole { size, info, sized }) ==> {
            &&& 0 <= size <= src.len()
            &&& src.take(size) == shown(info, sized, src[4] % 2 != 0)
            &&& 4 <= info.block_size_id <= 7
            &&& info.block_mode == 0 || info.block_mode == 1
            &&& !sized ==> info.content_size == 0
            &&& src[4] % 2 == 0 ==> info.dict_id == 0
        },
{
    if let Ok(Header::Whole { size, info, sized }) = parse_header(src) {
        let flg = src[4];
        let keyed = flg % 2 != 0;
        law_le_bytes(src, 0);
        lemma_flags_as_shown(flg);
        let desc = src.subrange(4, size - 1);
        let size_bytes = if sized {
            le64_bytes(info.content_size)
        } else {
            Seq::empty()
        };
        let key_bytes = if keyed {
            le32_bytes(info.dict_id)
        } else {
            Seq::empty()
        };
        assert(src[5] == 16 * info.block_size_id);
        assert(size_bytes == src.subrange(6, if sized {
            14
        } else {
            6
        })) by {
            if sized {
                law_le_bytes(src, 6);
            }
        }
        assert(key_bytes == src.subrange(if keyed {
            size - 5
        } else {
            size - 1
        }, size - 1)) by {
            if keyed {
                law_le_bytes(src, size - 5);
            }
        }
        assert(desc =~= seq![flg, src[5]] + size_bytes + key_bytes);
        assert(src.take(size) =~= src.subrange(0, 4) + desc + seq![src[size - 1]]);
    }
}

/// Flags are the sum of their bits.
proof fn lemma_flags_as_shown(flg: u8)
    requires
        flg / 2 % 2 == 0,
        flg / 64 == 1,
    ensures
        flg == 64 + 32 * (flg / 32 % 2) + 16 * (flg / 16 % 2) + 8 * (flg / 8 % 2) + 4 * (flg / 4
            % 2) + flg % 2,
{
}

/// A header says the same without what stands behind it.
proof fn lemma_header_alone(src: Seq<u8>)
    ensures
        parse_header(src) matches Ok(Header::Whole { size, info, sized }) ==> 7 <= size
            <= src.len() && parse_header(src.take(size)) == parse_header(src),
{
    if let Ok(Header::Whole { size, info, sized }) = parse_header(src) {
        let h = src.take(size);
        assert(h.subrange(4, size - 1) =~= src.subrange(4, size - 1));
        assert(header_info(h, size) == header_info(src, size));
    }
}

impl Frame {
    /// Whether block `k` is one that reads as its content.
    pub open spec fn block_reads(self, k: int) -> bool {
        let b = self.blocks[k];
        &&& b.body.len() <= self.block_max()
        &&& if b.stored {
            b.body == b.chunk
        } else {
            &&& b.body.len() >= 1
            &&& decode(
                DecodeSetup {
                    hist: self.hist(k),
                    prefix: 0,
                    cap: self.block_max(),
                    partial: false,
                    lead: None,
                },
                b.body,
            ) matches Decoded::Done { out, doubt: _ } && out == b.chunk
        }
    }

    /// Whether the frame reads as its content: its header is whole, its blocks
    /// read as theirs, and the size of the content is what the header says.
    pub open spec fn reads(self) -> bool {
        &&& self.header_ok()
        &&& forall|k: int| 0 <= k < self.blocks.len() ==> #[trigger] self.block_reads(k)
        &&& self.info.content_size != 0 ==> self.whole().len() as int % 0x1_0000_0000_0000_0000
            == self.info.content_size
    }

    /// The header, and the blocks.
    spec fn front(self) -> Seq<u8> {
        self.header + written(self, self.blocks.len() as int)
    }

    /// The header, and the blocks but the last.
    spec fn before_last(self) -> Seq<u8> {
        self.header + written(self, self.blocks.len() - 1)
    }

    /// What a decoder has in common with the frame that it has read so far, and
    /// with `part` of the block behind it.
    spec fn known(self, d: Decoder, part: Seq<u8>) -> bool {
        &&& self.header_ok()
        &&& forall|k: int| 0 <= k < self.blocks.len() ==> #[trigger] self.block_reads(k)
        &&& d.info == self.info
        &&& d.block_max == self.block_max()
        &&& 0 <= d.block_max < 0x8000_0000
        &&& !d.skip
        &&& self.info.content_checksum ==> d.content == self.whole() + part
        &&& self.info.content_size != 0 ==> (d.remaining + self.whole().len() + part.len())
            % 0x1_0000_0000_0000_0000 == self.info.content_size
    }

    /// What later blocks may refer to, in the middle of a stored block.
    spec fn remembers(self, dict: Seq<u8>, part: Seq<u8>) -> bool {
        let h = self.hist(self.blocks.len() as int);
        if self.info.block_mode != 0 {
            dict == self.dict
        } else {
            part.len() == 0 && dict == h || dict == recent(h + part)
        }
    }

    /// Whether a decoder that has seen `seen` and given `out` has read the frame
    /// up to there, and `part` of the stored block behind it.
    #[verifier::opaque]
    spec fn follows(self, d: Decoder, part: Seq<u8>, seen: Seq<u8>, out: Seq<u8>) -> bool {
        let n = self.blocks.len() as int;
        let even = part.len() == 0 && out == self.whole() && d.dict == self.hist(n);
        &&& self.known(d, part)
        &&& match d.stage {
            DStage::Init => even && n == 0 && seen == self.front(),
            DStage::GetBlockHeader => even && seen == self.front(),
            DStage::StoreBlockHeader => even && d.got.len() <= 4 && seen == self.front() + d.got,
            DStage::CopyDirect => {
                &&& 0 <= d.target
                &&& d.target + part.len() <= d.block_max
                &&& seen == self.front() + le32_bytes(
                    (d.target + part.len() + 0x8000_0000) as u32,
                ) + part
                &&& out == self.whole() + part
                &&& self.remembers(d.dict, part)
                &&& self.info.block_checksum ==> d.stored == part
            },
            DStage::GetBlockChecksum => {
                &&& even
                &&& n > 0
                &&& self.info.block_checksum
                &&& d.got.len() <= 4
                &&& seen == self.before_last() + (le32_bytes(self.head(n - 1)) + self.blocks[n
                    - 1].body) + d.got
                &&& d.stored == self.blocks[n - 1].body
            },
            DStage::GetCBlock => {
                let size = d.target - d.crc_size();
                even && 1 <= size <= d.block_max && seen == self.front() + le32_bytes(size as u32)
            },
            DStage::StoreCBlock => {
                let size = d.target - d.crc_size();
                &&& even
                &&& 1 <= size <= d.block_max
                &&& d.got.len() <= d.target
                &&& seen == self.front() + le32_bytes(size as u32) + d.got
            },
            DStage::FlushOut => {
                &&& part.len() == 0
                &&& n > 0
                &&& seen == self.front()
                &&& out + d.ready == self.whole()
                &&& self.hist(n) == d.remembering(d.ready).dict
            },
            DStage::GetSuffix => {
                part.len() == 0 && out == self.whole() && seen == self.front() + le32_bytes(0)
            },
            DStage::StoreSuffix => {
                &&& part.len() == 0
                &&& out == self.whole()
                &&& self.info.content_checksum
                &&& d.remaining == 0
                &&& d.got.len() <= 4
                &&& seen == self.front() + le32_bytes(0) + d.got
            },
            _ => false,
        }
    }

    /// Whether the frame, with nothing behind it, is what was read.
    spec fn read_as(self, seen: Seq<u8>, out: Seq<u8>) -> bool {
        self.reads() && self.bytes() == seen && self.after.len() == 0 && self.whole() == out
    }
}

/// Whether a step of a call, before which the decoder had seen `pre` and given
/// `given`, goes on within the frame, or ends with it.
spec fn leads_on(g: Frame, part: Seq<u8>, f: Frame, act: Act, src: Seq<u8>, pre: Seq<u8>, given: Seq<u8>) -> bool {
    match act {
        Act::Go(u) => g.follows(u.d, part, pre + src.take(u.at), given + u.out) && g.dict == f.dict,
        Act::Stop(u, hint) => if hint == 0 {
            g.read_as(pre + src.take(u.at), given + u.out) && g.dict == f.dict
        } else {
            g.follows(u.d, part, pre + src.take(u.at), given + u.out) && g.dict == f.dict
        },
        Act::Fail(_, _) => true,
    }
}

/// What was cut off before makes no difference to what is kept.
proof fn lemma_recent(a: Seq<u8>, b: Seq<u8>)
    ensures
        recent(recent(a) + b) == recent(a + b),
{
    assert(recent(recent(a) + b) =~= recent(a + b));
}

/// Counting down wraps as counting up does.
proof fn lemma_counts(left: u64, whole: int, more: int, size: u64)
    requires
        (left + whole) % 0x1_0000_0000_0000_0000 == size,
        0 <= more < 0x8000_0000,
    ensures
        (left.wrapping_sub(more as u64) + whole + more) % 0x1_0000_0000_0000_0000 == size,
{
}

/// More of a stored block.
proof fn lemma_more(f: Frame, d: Decoder, part: Seq<u8>, bytes: Seq<u8>, e: Decoder)
    requires
        f.known(d, part),
        bytes.len() < 0x8000_0000,
        e.info == d.info,
        e.block_max == d.block_max,
        e.skip == d.skip,
        e.content == d.counted(bytes).content,
        e.remaining == d.counted(bytes).remaining,
    ensures
        f.known(e, part + bytes),
{
    assert(f.whole() + part + bytes =~= f.whole() + (part + bytes));
    if f.info.content_size != 0 {
        lemma_counts(
            d.remaining,
            (f.whole().len() + part.len()) as int,
            bytes.len() as int,
            f.info.content_size,
        );
    }
}

/// One more block.
proof fn lemma_grows(f: Frame, d: Decoder, b: Blk)
    requires
        f.known(d, b.chunk),
        grown(f, b).block_reads(f.blocks.len() as int),
    ensures
        ({
            let g = grown(f, b);
            let n = f.blocks.len() as int;
            &&& g.known(d, Seq::empty())
            &&& g.whole() == f.whole() + b.chunk
            &&& g.hist(n) == f.hist(n)
            &&& g.before_last() == f.front()
            &&& g.front() == f.front() + (le32_bytes(g.head(n)) + b.body + g.crc(n))
            &&& g.hist(n + 1) == if f.info.block_mode != 0 {
                f.dict
            } else {
                recent(f.hist(n) + b.chunk)
            }
        }),
{
    let g = grown(f, b);
    let n = f.blocks.len() as int;
    lemma_grown(f, b, n);
    assert(g.blocks[n] == b);
    assert(f.header_ok() ==> g.header_ok()) by {
        reveal(Frame::header_ok);
    }
    assert forall|k: int| 0 <= k < g.blocks.len() implies #[trigger] g.block_reads(k) by {
        if k < n {
            lemma_grown(f, b, k);
            assert(g.blocks[k] == f.blocks[k]);
            assert(f.block_reads(k));
        }
    }
    assert(g.front() =~= f.front() + (le32_bytes(g.head(n)) + b.body + g.crc(n)));
    assert(g.whole() + Seq::<u8>::empty() =~= g.whole());
}

/// What a block header leads to.
#[verifier::rlimit(30)]
proof fn lemma_header_leads(f: Frame, t: Turn, src: Seq<u8>, room: int, h: u32, pre: Seq<u8>, given: Seq<u8>)
    requires
        f.known(t.d, Seq::empty()),
        given + t.out == f.whole(),
        t.d.dict == f.hist(f.blocks.len() as int),
        pre + src.take(t.at) == f.front() + le32_bytes(h),
    ensures
        leads_on(f, Seq::empty(), f, t.block_header(src, room, h), src, pre, given),
{
    reveal(Frame::follows);
    let size = h as int % 0x8000_0000;
    let seen = pre + src.take(t.at);
    if h >= 0x8000_0000 {
        assert((size + 0x8000_0000) as u32 == h);
    } else {
        assert(size as u32 == h);
    }
    assert(seen + Seq::<u8>::empty() =~= seen);
    assert(f.whole() + Seq::<u8>::empty() =~= f.whole());
}

/// Bytes that a call takes are seen after those before.
proof fn lemma_sees(pre: Seq<u8>, src: Seq<u8>, at: int, n: int)
    requires
        0 <= at,
        0 <= n,
        at + n <= src.len(),
    ensures
        pre + src.take(at + n) == pre + src.take(at) + src.subrange(at, at + n),
{
    assert(pre + src.take(at + n) =~= pre + src.take(at) + src.subrange(at, at + n));
}

proof fn lemma_get_header_strict(f: Frame, t: Turn, src: Seq<u8>, room: int, pre: Seq<u8>, given: Seq<u8>)
    requires
        f.follows(t.d, Seq::empty(), pre + src.take(t.at), given + t.out),
        t.d.stage is GetBlockHeader,
        in_bounds(t, src, room),
    ensures
        leads_on(f, Seq::empty(), f, t.get_block_header(src, room), src, pre, given),
{
    reveal(Frame::follows);
    if src.len() - t.at >= 4 {
        law_le_bytes(src, t.at);
        lemma_sees(pre, src, t.at, 4);
        let u = t.with(t.d, 4);
        lemma_header_leads(f, u, src, room, le32(src, t.at), pre, given);
    } else {
        let seen = pre + src.take(t.at);
        assert(seen + Seq::<u8>::empty() =~= seen);
    }
}

proof fn lemma_store_header_strict(f: Frame, t: Turn, src: Seq<u8>, room: int, pre: Seq<u8>, given: Seq<u8>)
    requires
        f.follows(t.d, Seq::empty(), pre + src.take(t.at), given + t.out),
        t.d.stage is StoreBlockHeader,
        in_bounds(t, src, room),
    ensures
        leads_on(f, Seq::empty(), f, t.store_block_header(src, room), src, pre, given),
{
    reveal(Frame::follows);
    let u = t.topping(src);
    lemma_sees(pre, src, t.at, u.at - t.at);
    assert(pre + src.take(u.at) =~= f.front() + u.d.got);
    if u.d.got.len() >= 4 {
        law_le_bytes(u.d.got, 0);
        assert(u.d.got.subrange(0, 4) =~= u.d.got);
        lemma_header_leads(f, u, src, room, le32(u.d.got, 0), pre, given);
    }
}

/// A block that is stored as it is.
#[verifier::rlimit(40)]
proof fn lemma_copy_strict(f: Frame, part: Seq<u8>, t: Turn, src: Seq<u8>, room: int, pre: Seq<u8>, given: Seq<u8>) -> (r: (Frame, Seq<u8>))
    requires
        f.follows(t.d, part, pre + src.take(t.at), given + t.out),
        t.d.stage is CopyDirect,
        in_bounds(t, src, room),
    ensures
        leads_on(r.0, r.1, f, t.copy_direct(src, room), src, pre, given),
{
    reveal(Frame::follows);
    let n = min_int(t.d.target, min_int(src.len() - t.at, room - t.out.len()));
    let bytes = src.subrange(t.at, t.at + n);
    let body = part + bytes;
    let e = t.d.copied(bytes);
    let k = f.blocks.len() as int;
    let seen = pre + src.take(t.at + n);
    lemma_sees(pre, src, t.at, n);
    lemma_more(f, t.d, part, bytes, e);
    lemma_recent(f.hist(k) + part, bytes);
    assert(f.hist(k) + part + bytes =~= f.hist(k) + body);
    assert(given + t.out + bytes =~= f.whole() + body);
    assert(given + (t.out + bytes) =~= given + t.out + bytes);
    let size = (t.d.target + part.len() + 0x8000_0000) as u32;
    assert(seen =~= f.front() + le32_bytes(size) + body);
    assert(part.len() == 0 ==> f.hist(k) + body =~= f.hist(k) + bytes);
    assert(f.info.block_mode == 0 ==> e.dict == recent(f.hist(k) + body));
    assert(f.info.block_checksum ==> e.stored =~= body);
    if n == t.d.target {
        let b = Blk { stored: true, body, chunk: body };
        let g = grown(f, b);
        let h = le32_bytes(g.head(k));
        assert(g.blocks[k] == b);
        lemma_grows(f, e, b);
        assert(g.head(k) == size);
        assert(seen =~= f.front() + (h + body));
        assert(seen + Seq::<u8>::empty() =~= seen);
        assert(f.front() + (h + body + Seq::<u8>::empty()) =~= f.front() + (h + body));
        (g, Seq::empty())
    } else {
        (f, body)
    }
}

/// The checksum behind a stored block.
#[verifier::rlimit(30)]
proof fn lemma_checksum_strict(f: Frame, t: Turn, src: Seq<u8>, room: int, pre: Seq<u8>, given: Seq<u8>)
    requires
        f.follows(t.d, Seq::empty(), pre + src.take(t.at), given + t.out),
        t.d.stage is GetBlockChecksum,
        in_bounds(t, src, room),
    ensures
        leads_on(f, Seq::empty(), f, t.get_block_checksum(src), src, pre, given),
{
    reveal(Frame::follows);
    let u = t.topping(src);
    let k = f.blocks.len() - 1;
    let b = f.blocks[k];
    let seen = pre + src.take(u.at);
    lemma_sees(pre, src, t.at, u.at - t.at);
    assert(seen =~= f.before_last() + (le32_bytes(f.head(k)) + b.body) + u.d.got);
    if u.d.got.len() >= 4 {
        law_le_bytes(u.d.got, 0);
        assert(u.d.got.subrange(0, 4) =~= u.d.got);
        if le32(u.d.got, 0) == xxh32_spec(t.d.stored, 0) {
            assert(f.crc(k) == u.d.got);
            assert(seen =~= f.front());
        }
    }
}

/// A compressed block, checksum and all.
#[verifier::rlimit(40)]
proof fn lemma_cblock_leads(f: Frame, t: Turn, src: Seq<u8>, room: int, block: Seq<u8>, pre: Seq<u8>, given: Seq<u8>) -> (g: Frame)
    requires
        f.known(t.d, Seq::empty()),
        given + t.out == f.whole(),
        t.d.dict == f.hist(f.blocks.len() as int),
        block.len() == t.d.target,
        1 <= t.d.target - t.d.crc_size() <= t.d.block_max,
        pre + src.take(t.at) == f.front() + le32_bytes((t.d.target - t.d.crc_size()) as u32) + block,
    ensures
        leads_on(g, Seq::empty(), f, t.cblock(room, block), src, pre, given),
{
    reveal(Frame::follows);
    let d = t.d;
    let k = f.blocks.len() as int;
    let len = block.len() - d.crc_size();
    let body = block.take(len);
    let none = Seq::<u8>::empty();
    lemma_whole(
        DecodeSetup { hist: d.dict, prefix: 0, cap: d.block_max, partial: false, lead: None },
        body,
    );
    match d.opened(body) {
        None => f,
        Some(bytes) => {
            let b = Blk { stored: false, body, chunk: bytes };
            let g = grown(f, b);
            assert(g.blocks[k] == b);
            lemma_grown(f, b, k);
            assert(g.block_reads(k));
            lemma_more(f, d, none, bytes, d.counted(bytes));
            assert(none + bytes =~= bytes);
            lemma_grows(f, d.counted(bytes), b);
            assert(g.head(k) == len as u32);
            if !f.info.block_checksum || le32(block, len) == xxh32_spec(body, 0) {
                assert(g.crc(k) =~= block.skip(len)) by {
                    if f.info.block_checksum {
                        law_le_bytes(block, len);
                        assert(block.subrange(len, len + 4) =~= block.skip(len));
                    }
                }
                assert(block =~= body + g.crc(k));
                assert(pre + src.take(t.at) =~= g.front());
                assert(given + (t.out + bytes) =~= given + t.out + bytes);
            }
            g
        },
    }
}

proof fn lemma_get_cblock_strict(f: Frame, t: Turn, src: Seq<u8>, room: int, pre: Seq<u8>, given: Seq<u8>) -> (g: Frame)
    requires
        f.follows(t.d, Seq::empty(), pre + src.take(t.at), given + t.out),
        t.d.stage is GetCBlock,
        in_bounds(t, src, room),
    ensures
        leads_on(g, Seq::empty(), f, t.get_cblock(src, room), src, pre, given),
{
    reveal(Frame::follows);
    let n = t.d.target;
    let seen = pre + src.take(t.at);
    if src.len() - t.at < n {
        assert(seen + Seq::<u8>::empty() =~= seen);
        f
    } else {
        let u = t.with(t.d, n);
        lemma_sees(pre, src, t.at, n);
        lemma_cblock_leads(f, u, src, room, src.subrange(t.at, t.at + n), pre, given)
    }
}

proof fn lemma_store_cblock_strict(f: Frame, t: Turn, src: Seq<u8>, room: int, pre: Seq<u8>, given: Seq<u8>) -> (g: Frame)
    requires
        f.follows(t.d, Seq::empty(), pre + src.take(t.at), given + t.out),
        t.d.stage is StoreCBlock,
        in_bounds(t, src, room),
    ensures
        leads_on(g, Seq::empty(), f, t.store_cblock(src, room), src, pre, given),
{
    reveal(Frame::follows);
    let u = t.topping(src);
    let size = t.d.target - t.d.crc_size();
    lemma_sees(pre, src, t.at, u.at - t.at);
    assert(pre + src.take(u.at) =~= f.front() + le32_bytes(size as u32) + u.d.got);
    if u.d.got.len() < u.d.target {
        f
    } else {
        lemma_cblock_leads(f, u, src, room, u.d.got, pre, given)
    }
}

/// Content that waited for room.
proof fn lemma_flush_strict(f: Frame, t: Turn, src: Seq<u8>, room: int, pre: Seq<u8>, given: Seq<u8>)
    requires
        f.follows(t.d, Seq::empty(), pre + src.take(t.at), given + t.out),
        t.d.stage is FlushOut,
        in_bounds(t, src, room),
    ensures
        leads_on(f, Seq::empty(), f, t.flush_out(room), src, pre, given),
{
    reveal(Frame::follows);
    let ready = t.d.ready;
    let n = min_int(ready.len() as int, room - t.out.len());
    let (now, later) = (ready.take(n), ready.skip(n));
    assert(ready =~= now + later);
    lemma_recent(t.d.dict + now, later);
    assert(t.d.dict + now + later =~= t.d.dict + ready);
    assert(given + (t.out + now) + later =~= given + t.out + ready);
    if n == ready.len() {
        assert(now =~= ready);
        assert(given + (t.out + now) =~= given + t.out + ready);
    }
}

/// What follows a frame has no part in it.
proof fn lemma_after_only(f: Frame, g: Frame, k: int)
    requires
        g == (Frame { after: g.after, ..f }),
        0 <= k <= f.blocks.len(),
    ensures
        g.hist(k) == f.hist(k),
        g.content(k) == f.content(k),
        written(g, k) == written(f, k),
    decreases k,
{
    if k > 0 {
        lemma_after_only(f, g, k - 1);
    }
}

/// The end of a frame, behind the checksum of its content, if it has one.
#[verifier::rlimit(30)]
proof fn lemma_closes(f: Frame, d: Decoder, sum: Seq<u8>, seen: Seq<u8>, out: Seq<u8>) -> (g: Frame)
    requires
        f.known(d, Seq::empty()),
        d.remaining == 0,
        out == f.whole(),
        seen == f.front() + le32_bytes(0) + sum,
        sum == if f.info.content_checksum {
            le32_bytes(xxh32_spec(f.whole(), 0))
        } else {
            Seq::empty()
        },
    ensures
        g.read_as(seen, out),
        g.dict == f.dict,
{
    let g = Frame { after: Seq::empty(), ..f };
    let k = f.blocks.len() as int;
    lemma_after_only(f, g, k);
    assert(f.header_ok() ==> g.header_ok()) by {
        reveal(Frame::header_ok);
    }
    assert forall|j: int| 0 <= j < g.blocks.len() implies #[trigger] g.block_reads(j) by {
        lemma_after_only(f, g, j);
        assert(f.block_reads(j));
    }
    lemma_written(g, k);
    assert(g.suffix() =~= sum);
    assert(g.tail(k) == le32_bytes(0) + g.suffix());
    assert(g.bytes() =~= g.header + (written(g, k) + g.tail(k)));
    assert(g.bytes() =~= seen);
    g
}

proof fn lemma_get_suffix_strict(f: Frame, t: Turn, src: Seq<u8>, room: int, pre: Seq<u8>, given: Seq<u8>) -> (g: Frame)
    requires
        f.follows(t.d, Seq::empty(), pre + src.take(t.at), given + t.out),
        t.d.stage is GetSuffix,
        in_bounds(t, src, room),
    ensures
        leads_on(g, Seq::empty(), f, t.get_suffix(src), src, pre, given),
{
    reveal(Frame::follows);
    let seen = pre + src.take(t.at);
    let out = given + t.out;
    assert(seen + Seq::<u8>::empty() =~= seen);
    assert(f.whole() + Seq::<u8>::empty() =~= f.whole());
    if t.d.remaining != 0 {
        f
    } else if !f.info.content_checksum {
        lemma_closes(f, t.d, Seq::empty(), seen, out)
    } else if src.len() - t.at < 4 {
        f
    } else {
        let sum = src.subrange(t.at, t.at + 4);
        law_le_bytes(src, t.at);
        lemma_sees(pre, src, t.at, 4);
        if le32(src, t.at) == xxh32_spec(f.whole(), 0) {
            lemma_closes(f, t.d, sum, pre + src.take(t.at + 4), out)
        } else {
            f
        }
    }
}

proof fn lemma_store_suffix_strict(f: Frame, t: Turn, src: Seq<u8>, room: int, pre: Seq<u8>, given: Seq<u8>) -> (g: Frame)
    requires
        f.follows(t.d, Seq::empty(), pre + src.take(t.at), given + t.out),
        t.d.stage is StoreSuffix,
        in_bounds(t, src, room),
    ensures
        leads_on(g, Seq::empty(), f, t.store_suffix(src), src, pre, given),
{
    reveal(Frame::follows);
    let u = t.topping(src);
    lemma_sees(pre, src, t.at, u.at - t.at);
    assert(pre + src.take(u.at) =~= f.front() + le32_bytes(0) + u.d.got);
    assert(f.whole() + Seq::<u8>::empty() =~= f.whole());
    if u.d.got.len() < 4 {
        f
    } else {
        law_le_bytes(u.d.got, 0);
        assert(u.d.got.subrange(0, 4) =~= u.d.got);
        if le32(u.d.got, 0) == xxh32_spec(f.whole(), 0) {
            lemma_closes(f, u.d, u.d.got, pre + src.take(u.at), given + t.out)
        } else {
            f
        }
    }
}

/// Only a stored block is read in parts.
proof fn lemma_whole_blocks(f: Frame, d: Decoder, part: Seq<u8>, seen: Seq<u8>, out: Seq<u8>)
    requires
        f.follows(d, part, seen, out),
        !(d.stage is CopyDirect),
    ensures
        part == Seq::<u8>::empty(),
{
    reveal(Frame::follows);
    assert(part =~= Seq::<u8>::empty());
}

proof fn lemma_strict_step(f: Frame, part: Seq<u8>, t: Turn, src: Seq<u8>, room: int, pre: Seq<u8>, given: Seq<u8>) -> (r: (Frame, Seq<u8>))
    requires
        f.follows(t.d, part, pre + src.take(t.at), given + t.out),
        in_bounds(t, src, room),
    ensures
        leads_on(r.0, r.1, f, t.step(src, room), src, pre, given),
{
    reveal(Turn::step);
    let none = Seq::<u8>::empty();
    if t.d.stage is CopyDirect {
        lemma_copy_strict(f, part, t, src, room, pre, given)
    } else {
        lemma_whole_blocks(f, t.d, part, pre + src.take(t.at), given + t.out);
        let g = match t.d.stage {
            DStage::GetBlockHeader => {
                lemma_get_header_strict(f, t, src, room, pre, given);
                f
            },
            DStage::StoreBlockHeader => {
                lemma_store_header_strict(f, t, src, room, pre, given);
                f
            },
            DStage::GetBlockChecksum => {
                lemma_checksum_strict(f, t, src, room, pre, given);
                f
            },
            DStage::GetCBlock => lemma_get_cblock_strict(f, t, src, room, pre, given),
            DStage::StoreCBlock => lemma_store_cblock_strict(f, t, src, room, pre, given),
            DStage::FlushOut => {
                lemma_flush_strict(f, t, src, room, pre, given);
                f
            },
            DStage::GetSuffix => lemma_get_suffix_strict(f, t, src, room, pre, given),
            DStage::StoreSuffix => lemma_store_suffix_strict(f, t, src, room, pre, given),
            _ => {
                reveal(Frame::follows);
                assert(f.whole() + none =~= f.whole());
                f
            },
        };
        (g, none)
    }
}

proof fn lemma_strict_run(f: Frame, part: Seq<u8>, t: Turn, src: Seq<u8>, room: int, pre: Seq<u8>, given: Seq<u8>) -> (r: (Frame, Seq<u8>))
    requires
        f.follows(t.d, part, pre + src.take(t.at), given + t.out),
        in_bounds(t, src, room),
    ensures
        leads_on(r.0, r.1, f, t.run(src, room), src, pre, given),
    decreases src.len() - t.at, t.d.stage.rank(),
{
    let (g, more) = lemma_strict_step(f, part, t, src, room, pre, given);
    lemma_step(t, src, room);
    match t.step(src, room) {
        Act::Go(u) => if t.nears(u, src) {
            lemma_strict_run(g, more, u, src, room, pre, given)
        } else {
            (g, more)
        },
        _ => (g, more),
    }
}

/// Whether a decoder is still at the header of a frame.
spec fn heading(d: Decoder, seen: Seq<u8>, out: Seq<u8>, dict: Seq<u8>) -> bool {
    &&& out.len() == 0
    &&& !d.skip
    &&& d.remaining == 0
    &&& d.content.len() == 0
    &&& d.dict == dict
    &&& match d.stage {
        DStage::GetFrameHeader => seen.len() == 0,
        DStage::StoreFrameHeader => {
            &&& d.got == seen
            &&& d.got.len() <= d.target
            &&& d.target == 7 || d.got.len() >= 7 && d.target == flagged_size(d.got[4])
        },
        _ => false,
    }
}

/// Whether input does not start with a skippable frame.
pub open spec fn not_skippable(s: Seq<u8>) -> bool {
    s.len() >= 4 ==> !is_skippable(le32(s, 0))
}

/// What a whole header makes of a decoder.
proof fn lemma_with_header(d: Decoder, header: Seq<u8>, stored: bool, size: int, info: FrameInfo, sized: bool)
    requires
        parse_header(header) == Ok::<Header, Error>(Header::Whole { size, info, sized }),
    ensures
        ({
            let e = d.with_header(header, stored).1;
            &&& e.stage is Init
            &&& e.info == info
            &&& Some(e.block_max) == block_size(info.block_size_id)
            &&& e.remaining == if sized {
                info.content_size
            } else {
                d.remaining
            }
            &&& e.content == d.content
            &&& e.dict == d.dict
            &&& e.skip == d.skip
        }),
        parse_header(header.take(size)) == parse_header(header),
        !sized ==> info.content_size == 0,
{
    lemma_header_alone(header);
    law_header_as_shown(header);
}

/// Once a header is whole, a frame begins with it.
proof fn lemma_begins(e: Decoder, size: int, sized: bool, seen: Seq<u8>, out: Seq<u8>) -> (f: Frame)
    requires
        out.len() == 0,
        !e.skip,
        e.stage is Init,
        e.content.len() == 0,
        Some(e.block_max) == block_size(e.info.block_size_id),
        parse_header(seen) == Ok::<Header, Error>(Header::Whole { size, info: e.info, sized }),
        size == seen.len(),
        e.info.content_size != 0 ==> e.remaining == e.info.content_size,
    ensures
        f.dict == e.dict,
        f.follows(e, Seq::empty(), seen, out),
{
    let f = Frame {
        header: seen,
        info: e.info,
        sized,
        dict: e.dict,
        blocks: Seq::empty(),
        after: Seq::empty(),
    };
    assert(f.header_ok()) by {
        reveal(Frame::header_ok);
    }
    assert(f.front() =~= seen);
    assert(f.whole() =~= Seq::<u8>::empty());
    assert(e.content =~= f.whole() + Seq::<u8>::empty());
    assert(out =~= f.whole());
    reveal(Frame::follows);
    f
}

#[verifier::rlimit(30)]
proof fn lemma_heading_step(t: Turn, src: Seq<u8>, room: int, pre: Seq<u8>, given: Seq<u8>, dict: Seq<u8>) -> (f: Frame)
    requires
        heading(t.d, pre + src.take(t.at), given + t.out, dict),
        in_bounds(t, src, room),
        not_skippable(pre + src),
    ensures
        match t.step(src, room) {
            Act::Go(u) => heading(u.d, pre + src.take(u.at), given + u.out, dict) || f.dict == dict
                && f.follows(u.d, Seq::empty(), pre + src.take(u.at), given + u.out),
            Act::Stop(u, hint) => hint > 0 && heading(
                u.d,
                pre + src.take(u.at),
                given + u.out,
                dict,
            ),
            Act::Fail(_, _) => true,
        },
{
    reveal(Turn::step);
    let seen = pre + src.take(t.at);
    if t.d.stage is GetFrameHeader {
        assert(pre =~= Seq::<u8>::empty());
        assert(pre + src =~= src);
        assert(src.skip(0) =~= src);
        assert(seen =~= Seq::<u8>::empty());
        if src.len() >= HEADER_SIZE_MAX {
            match parse_header(src) {
                Ok(Header::Whole { size, info, sized }) => {
                    lemma_header_alone(src);
                    lemma_with_header(t.d, src, false, size, info, sized);
                    let e = t.d.with_header(src, false).1;
                    assert(pre + src.take(size) =~= src.take(size));
                    lemma_begins(e, size, sized, pre + src.take(size), given + t.out)
                },
                _ => arbitrary(),
            }
        } else {
            arbitrary()
        }
    } else {
        let u = t.topping(src);
        lemma_sees(pre, src, t.at, u.at - t.at);
        assert(u.d.got =~= pre + src.take(u.at));
        if u.d.got.len() >= u.d.target {
            assert(le32(u.d.got, 0) == le32(pre + src, 0)) by {
                let (x, y) = (u.d.got, pre + src);
                assert(x[0] == y[0] && x[1] == y[1] && x[2] == y[2] && x[3] == y[3]);
            }
            match parse_header(u.d.got) {
                Ok(Header::Whole { size, info, sized }) => {
                    assert(size == u.d.got.len());
                    assert(u.d.got.take(size) =~= u.d.got);
                    lemma_with_header(u.d, u.d.got, true, size, info, sized);
                    let e = u.d.with_header(u.d.got, true).1;
                    lemma_begins(e, size, sized, u.d.got, given + t.out)
                },
                _ => arbitrary(),
            }
        } else {
            arbitrary()
        }
    }
}

/// Whether a decoder is at the header of a frame, or within `f`.
spec fn at_work(f: Frame, d: Decoder, part: Seq<u8>, seen: Seq<u8>, out: Seq<u8>, dict: Seq<u8>) -> bool {
    heading(d, seen, out, dict) || f.dict == dict && f.follows(d, part, seen, out)
}

proof fn lemma_heading_run(t: Turn, src: Seq<u8>, room: int, pre: Seq<u8>, given: Seq<u8>, dict: Seq<u8>) -> (r: (Frame, Seq<u8>))
    requires
        heading(t.d, pre + src.take(t.at), given + t.out, dict),
        in_bounds(t, src, room),
        not_skippable(pre + src),
    ensures
        t.run(src, room) matches Act::Stop(u, hint) ==> {
            let seen = pre + src.take(u.at);
            if hint == 0 {
                r.0.read_as(seen, given + u.out) && r.0.dict == dict
            } else {
                at_work(r.0, u.d, r.1, seen, given + u.out, dict)
            }
        },
    decreases src.len() - t.at, t.d.stage.rank(),
{
    let none = Seq::<u8>::empty();
    let f = lemma_heading_step(t, src, room, pre, given, dict);
    lemma_step(t, src, room);
    match t.step(src, room) {
        Act::Go(u) => if t.nears(u, src) {
            if heading(u.d, pre + src.take(u.at), given + u.out, dict) {
                lemma_heading_run(u, src, room, pre, given, dict)
            } else {
                lemma_strict_run(f, none, u, src, room, pre, given)
            }
        } else {
            (f, none)
        },
        _ => (f, none),
    }
}

/// Given the dictionary of the frame once more, a decoder is as it was.
proof fn lemma_entered(f: Frame, d: Decoder, part: Seq<u8>, seen: Seq<u8>, out: Seq<u8>, dict: Seq<u8>, again: Option<Seq<u8>>)
    requires
        at_work(f, d, part, seen, out, dict),
        again matches Some(x) ==> x == dict,
    ensures
        entered(d, again, false) == d,
{
    reveal(Frame::follows);
    assert(entered(d, again, false) =~= d);
}

proof fn lemma_strict_calls(f: Frame, part: Seq<u8>, d: Decoder, calls: Seq<Call>, rest: Seq<u8>, pre: Seq<u8>, given: Seq<u8>, dict: Seq<u8>) -> (g: Frame)
    requires
        calls.len() > 0,
        d.wf(),
        run_of(d, calls, rest),
        not_skippable(pre + rest),
        at_work(f, entered(d, calls[0].dict, false), part, pre, given, dict),
        forall|i: int|
            0 <= i < calls.len() ==> !(#[trigger] calls[i]).skip && (calls[i].dict matches Some(x)
                ==> x == dict),
    ensures
        0 <= taken_by(calls) <= rest.len(),
        calls.last().act is Stop && !calls.last().goes_on() ==> g.read_as(
            pre + rest.take(taken_by(calls)),
            given + given_by(calls),
        ) && g.dict == dict,
    decreases calls.len(),
{
    let c = calls[0];
    let later = calls.skip(1);
    let t = Turn { d: entered(d, c.dict, false), at: 0, out: Seq::empty() };
    assert(pre + c.src.take(0) =~= pre);
    assert(given + t.out =~= given);
    assert(not_skippable(pre + c.src)) by {
        if (pre + c.src).len() >= 4 {
            let (x, y) = (pre + c.src, pre + rest);
            assert(x[0] == y[0] && x[1] == y[1] && x[2] == y[2] && x[3] == y[3]);
        }
    }
    lemma_run(t, c.src, c.room);
    let (g, more) = if heading(t.d, pre, given, dict) {
        lemma_heading_run(t, c.src, c.room, pre, given, dict)
    } else {
        lemma_strict_run(f, part, t, c.src, c.room, pre, given)
    };
    let at = c.taken();
    let seen = pre + c.src.take(at);
    assert(c.src.take(at) =~= rest.take(at));
    if c.goes_on() && later.len() > 0 {
        let e = c.left_with();
        let c1 = later[0];
        assert(c1 == calls[1]);
        let out = given + c.out();
        lemma_entered(g, e, more, seen, out, dict, c1.dict);
        assert(seen + rest.skip(at) =~= pre + rest);
        assert forall|i: int| 0 <= i < later.len() implies !(#[trigger] later[i]).skip && (
        later[i].dict matches Some(x) ==> x == dict) by {
            assert(later[i] == calls[i + 1]);
        }
        let h = lemma_strict_calls(g, more, e, later, rest.skip(at), seen, out, dict);
        assert(calls.last() == later.last());
        let n = taken_by(later);
        assert(seen + rest.skip(at).take(n) =~= pre + rest.take(at + n));
        assert(out + given_by(later) =~= given + (c.out() + given_by(later)));
        h
    } else {
        assert(later.len() == 0 ==> taken_by(later) == 0);
        assert(later.len() == 0 ==> given_by(later) =~= Seq::empty());
        assert(c.out() + Seq::<u8>::empty() =~= c.out());
        assert(calls.last() == c);
        g
    }
}

/// Only what is a frame is taken for one, in whatever pieces it comes and
/// whatever the room in each call. Where calls that are given the beginning of a
/// frame come to the end of it, what they have taken are the bytes of a frame
/// that reads as what they have given: its header is one, with the right
/// checksum; its blocks are no larger than the header allows and read as the
/// content; the checksums of blocks and content are there and right, where the
/// header announces them; and the content has the size that the header gives.
pub proof fn law_only_frames(d: Decoder, calls: Seq<Call>, input: Seq<u8>, dict: Seq<u8>)
    requires
        d == d.closed(),
        d.wf(),
        calls.len() > 0,
        run_of(d, calls, input),
        not_skippable(input),
        dict == match calls[0].dict {
            Some(x) => x,
            None => Seq::empty(),
        },
        forall|i: int|
            0 <= i < calls.len() ==> !(#[trigger] calls[i]).skip && (calls[i].dict matches Some(x)
                ==> x == dict),
        calls.last().act matches Act::Stop(_, hint) && hint == 0,
    ensures
        0 <= taken_by(calls) <= input.len(),
        exists|f: Frame|
            {
                &&& #[trigger] f.bytes() == input.take(taken_by(calls))
                &&& f.reads()
                &&& f.after.len() == 0
                &&& f.whole() == given_by(calls)
                &&& f.dict == dict
            },
{
    let none = Seq::<u8>::empty();
    let any = Frame {
        header: none,
        info: d.info,
        sized: false,
        dict,
        blocks: Seq::empty(),
        after: none,
    };
    assert(none + input =~= input);
    let f = lemma_strict_calls(any, none, d, calls, input, none, none, dict);
    let n = taken_by(calls);
    assert(none + input.take(n) =~= input.take(n));
    assert(none + given_by(calls) =~= given_by(calls));
    assert(f.bytes() == input.take(n));
}

} // verus!
