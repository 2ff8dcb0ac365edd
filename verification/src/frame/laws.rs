//! What decoding gives back of a frame, however it is cut into pieces.
use vstd::prelude::*;
use crate::bytes::{law_le_inverse, le32, le32_bytes};
use crate::format::{encodes, law_round_trip, min_int, DecodeSetup};
use crate::xxh::xxh32_spec;
use super::decoder::{
    called, entered, in_bounds, is_skippable, lemma_run, lemma_step, parse_header, recent, Act,
    DStage, Decoder, Header, Turn,
};
use super::{block_size, Error, FrameInfo, BF_SIZE, BH_SIZE, HEADER_SIZE_MAX, HEADER_SIZE_MIN};

verus! {

/// A block of a frame: the bytes it takes, and the content it stands for.
#[verifier::ext_equal]
pub struct Blk {
    /// Whether the content is stored as it is.
    pub stored: bool,
    pub body: Seq<u8>,
    pub chunk: Seq<u8>,
}

/// A frame, and what follows it.
#[verifier::ext_equal]
pub struct Frame {
    pub header: Seq<u8>,
    pub info: FrameInfo,
    /// Whether the header gives the size of the content.
    pub sized: bool,
    /// What the first block may refer to.
    pub dict: Seq<u8>,
    pub blocks: Seq<Blk>,
    pub after: Seq<u8>,
}

impl Frame {
    pub open spec fn block_max(self) -> int {
        match block_size(self.info.block_size_id) {
            Some(n) => n,
            None => 0,
        }
    }

    pub open spec fn crc_size(self) -> int {
        if self.info.block_checksum {
            BF_SIZE as int
        } else {
            0
        }
    }

    /// The checksum behind block `k`, if there is one.
    pub open spec fn crc(self, k: int) -> Seq<u8> {
        if self.info.block_checksum {
            le32_bytes(xxh32_spec(self.blocks[k].body, 0))
        } else {
            Seq::empty()
        }
    }

    /// The header of block `k`.
    pub open spec fn head(self, k: int) -> u32 {
        (self.blocks[k].body.len() + (if self.blocks[k].stored {
            0x8000_0000int
        } else {
            0
        })) as u32
    }

    /// The content of the first `k` blocks.
    pub open spec fn content(self, k: int) -> Seq<u8>
        decreases k,
    {
        if k <= 0 {
            Seq::empty()
        } else {
            self.content(k - 1) + self.blocks[k - 1].chunk
        }
    }

    /// The content of the frame.
    pub open spec fn whole(self) -> Seq<u8> {
        self.content(self.blocks.len() as int)
    }

    /// The content from block `k` on.
    pub open spec fn left(self, k: int) -> Seq<u8>
        decreases self.blocks.len() - k,
    {
        if k >= self.blocks.len() {
            Seq::empty()
        } else {
            self.blocks[k].chunk + self.left(k + 1)
        }
    }

    /// What stands behind the end mark.
    pub open spec fn suffix(self) -> Seq<u8> {
        (if self.info.content_checksum {
            le32_bytes(xxh32_spec(self.whole(), 0))
        } else {
            Seq::empty()
        }) + self.after
    }

    /// The bytes from block `k` on.
    pub open spec fn tail(self, k: int) -> Seq<u8>
        decreases self.blocks.len() - k,
    {
        if k >= self.blocks.len() {
            le32_bytes(0) + self.suffix()
        } else {
            le32_bytes(self.head(k)) + (self.blocks[k].body + (self.crc(k) + self.tail(k + 1)))
        }
    }

    /// The bytes of the frame, and what follows it.
    pub open spec fn bytes(self) -> Seq<u8> {
        self.header + self.tail(0)
    }

    /// What block `k` may refer to.
    pub open spec fn hist(self, k: int) -> Seq<u8>
        decreases k,
    {
        if k <= 0 || self.info.block_mode != 0 {
            self.dict
        } else {
            recent(self.hist(k - 1) + self.blocks[k - 1].chunk)
        }
    }

    /// Whether block `k` is one that a decoder takes.
    pub open spec fn block_ok(self, k: int) -> bool {
        let b = self.blocks[k];
        &&& b.body.len() <= self.block_max()
        &&& b.chunk.len() <= self.block_max()
        &&& if b.stored {
            b.body == b.chunk
        } else {
            b.body.len() >= 1 && encodes(self.hist(k), b.body, b.chunk)
        }
    }

    /// Whether the header is whole, and says what the frame is like.
    #[verifier::opaque]
    pub open spec fn header_ok(self) -> bool {
        parse_header(self.header) == Ok::<Header, Error>(
            Header::Whole { size: self.header.len() as int, info: self.info, sized: self.sized },
        )
    }

    /// Whether the frame is one that a decoder takes.
    pub open spec fn valid(self) -> bool {
        &&& self.header_ok()
        &&& self.info.content_size != 0 ==> self.info.content_size == self.whole().len()
        &&& self.sized || self.info.content_size == 0
        &&& forall|k: int| 0 <= k < self.blocks.len() ==> #[trigger] self.block_ok(k)
    }

    /// Whether no block is empty.
    pub open spec fn filled(self) -> bool {
        forall|k: int| 0 <= k < self.blocks.len() ==> (#[trigger] self.blocks[k]).chunk.len() > 0
    }

    /// How much content is still to come at block `k`, as the decoder counts.
    pub open spec fn remaining(self, k: int) -> u64 {
        if self.info.content_size != 0 {
            self.left(k).len() as u64
        } else {
            0
        }
    }

    /// What the decoder may refer to once it has given `taken` of block `k`.
    pub open spec fn dict_at(self, k: int, taken: Seq<u8>, dict: Seq<u8>) -> bool {
        ||| self.info.block_mode != 0 && dict == self.dict
        ||| self.info.block_mode == 0 && taken.len() == 0 && dict == self.hist(k)
        ||| self.info.block_mode == 0 && dict == recent(self.hist(k) + taken)
    }

    /// What a decoder within the frame has in common with it, when the content
    /// that it has counted ends at block `k`.
    pub open spec fn within(self, d: Decoder, k: int) -> bool {
        &&& 0 <= k <= self.blocks.len()
        &&& d.info == self.info
        &&& d.block_max == self.block_max()
        &&& d.remaining == self.remaining(k)
        &&& self.info.content_checksum && !d.skip ==> d.content == self.content(k)
    }

    /// The decoder has read nothing of the frame.
    pub open spec fn at_start(self, d: Decoder, k: int, rest: Seq<u8>, left: Seq<u8>) -> bool {
        &&& d.remaining == 0 && d.dict == self.dict && left == self.whole() && k == 0
        &&& rest == self.bytes()
    }

    /// The decoder has read some of the frame's header.
    pub open spec fn in_header(self, d: Decoder, k: int, rest: Seq<u8>, left: Seq<u8>) -> bool {
        &&& d.remaining == 0 && d.dict == self.dict && left == self.whole() && k == 0
        &&& d.got + rest == self.bytes() && d.got.len() < d.target <= self.header.len()
    }

    /// The decoder has read the frame's header.
    pub open spec fn behind_header(self, d: Decoder, k: int, rest: Seq<u8>, left: Seq<u8>) -> bool {
        &&& k == 0 && left == self.whole() && rest == self.tail(0)
        &&& d.dict == self.dict
        &&& d.info == self.info
        &&& d.block_max == self.block_max()
        &&& d.remaining == (if self.sized {
            self.info.content_size
        } else {
            0
        })
    }

    /// The decoder has read some of the header of block `k`, or none of it.
    pub open spec fn at_block(self, d: Decoder, k: int, rest: Seq<u8>, left: Seq<u8>) -> bool {
        &&& self.within(d, k)
        &&& d.dict == self.hist(k)
        &&& d.got + rest == self.tail(k) && left == self.left(k)
        &&& d.got.len() < 4
        &&& d.stage is GetBlockHeader ==> d.got.len() == 0
    }

    /// The decoder has given some of the stored block `k`.
    pub open spec fn copying(self, d: Decoder, k: int, rest: Seq<u8>, left: Seq<u8>) -> bool {
        let b = self.blocks[k];
        let j = b.body.len() - d.target;
        &&& 0 <= k < self.blocks.len() && b.stored && 0 <= j <= b.body.len()
        &&& rest == b.body.skip(j) + (self.crc(k) + self.tail(k + 1))
        &&& left == b.chunk.skip(j) + self.left(k + 1)
        &&& self.dict_at(k, b.chunk.take(j), d.dict)
        &&& d.info == self.info && d.block_max == self.block_max()
        &&& d.remaining == (if self.info.content_size != 0 {
            left.len() as u64
        } else {
            0
        })
        &&& self.info.content_checksum && !d.skip ==> d.content == self.content(k) + b.chunk.take(j)
        &&& self.info.block_checksum && !d.skip ==> d.stored == b.body.take(j)
    }

    /// The decoder has read some of the checksum behind the stored block before block `k`.
    pub open spec fn at_crc(self, d: Decoder, k: int, rest: Seq<u8>, left: Seq<u8>) -> bool {
        &&& 1 <= k && self.within(d, k)
        &&& d.dict == self.hist(k)
        &&& d.got + rest == self.crc(k - 1) + self.tail(k) && left == self.left(k)
        &&& d.got.len() < 4 && self.info.block_checksum
        &&& !d.skip ==> d.stored == self.blocks[k - 1].body
    }

    /// The decoder has read some of the compressed block `k`, or none of it.
    pub open spec fn in_block(self, d: Decoder, k: int, rest: Seq<u8>, left: Seq<u8>) -> bool {
        let b = self.blocks[k];
        &&& self.within(d, k) && k < self.blocks.len() && !b.stored
        &&& d.dict == self.hist(k)
        &&& d.target == b.body.len() + self.crc_size()
        &&& d.got + rest == b.body + (self.crc(k) + self.tail(k + 1)) && left == self.left(k)
        &&& d.got.len() < d.target
        &&& d.stage is GetCBlock ==> d.got.len() == 0
    }

    /// The decoder has given some of the compressed block before block `k`.
    pub open spec fn flushing(self, d: Decoder, k: int, rest: Seq<u8>, left: Seq<u8>) -> bool {
        let c = self.blocks[k - 1].chunk;
        let j = c.len() - d.ready.len();
        &&& 1 <= k && self.within(d, k) && j >= 0 && d.ready == c.skip(j)
        &&& rest == self.tail(k) && left == d.ready + self.left(k)
        &&& self.dict_at(k - 1, c.take(j), d.dict)
    }

    /// The decoder has read the end mark, and some of what stands behind it.
    pub open spec fn at_suffix(self, d: Decoder, k: int, rest: Seq<u8>, left: Seq<u8>) -> bool {
        &&& k == self.blocks.len() && self.within(d, k)
        &&& d.stage is StoreSuffix ==> self.info.content_checksum
        &&& d.got + rest == self.suffix() && left.len() == 0 && d.got.len() < 4
        &&& d.stage is GetSuffix ==> d.got.len() == 0
    }

    /// Whether the decoder `d`, at block `k`, is one that expects `rest` of the
    /// frame's bytes and is to give `left` of its content.
    #[verifier::opaque]
    pub open spec fn expects(self, d: Decoder, k: int, rest: Seq<u8>, left: Seq<u8>) -> bool {
        match d.stage {
            DStage::GetFrameHeader => self.at_start(d, k, rest, left),
            DStage::StoreFrameHeader => self.in_header(d, k, rest, left),
            DStage::Init => self.behind_header(d, k, rest, left),
            DStage::GetBlockHeader | DStage::StoreBlockHeader => self.at_block(d, k, rest, left),
            DStage::CopyDirect => self.copying(d, k, rest, left),
            DStage::GetBlockChecksum => self.at_crc(d, k, rest, left),
            DStage::GetCBlock | DStage::StoreCBlock => self.in_block(d, k, rest, left),
            DStage::FlushOut => self.flushing(d, k, rest, left),
            DStage::GetSuffix | DStage::StoreSuffix => self.at_suffix(d, k, rest, left),
            _ => false,
        }
    }

    /// Whether `act` is what a step with the output `out` may come to: the next part of the
    /// content is given, and the decoder expects the rest; or the frame is at
    /// its end, and all of it is given.
    pub open spec fn kept(self, out: Seq<u8>, act: Act, src: Seq<u8>, more: Seq<u8>, left: Seq<u8>) -> bool {
        match act {
            Act::Go(u) => self.moved(out, u, src, more, left),
            Act::Stop(u, hint) => {
                ||| hint > 0 && self.moved(out, u, src, more, left)
                ||| {
                    &&& hint == 0
                    &&& u.out == out + left
                    &&& src.skip(u.at) + more == self.after
                    &&& u.d.stage is GetFrameHeader
                }
            },
            Act::Fail(_, _) => false,
        }
    }

    /// Whether `u` adds some of the content to `out`, and expects the
    /// rest.
    #[verifier::opaque]
    pub open spec fn moved(self, out: Seq<u8>, u: Turn, src: Seq<u8>, more: Seq<u8>, left: Seq<u8>) -> bool {
        let n = u.out.len() - out.len();
        &&& 0 <= n <= left.len()
        &&& u.out == out + left.take(n)
        &&& exists|k: int| #[trigger]
            self.expects(u.d, k, src.skip(u.at) + more, left.skip(n))
    }
}

/// Keeping the recent part of a history loses nothing of what is kept later.
proof fn lemma_recent(x: Seq<u8>, y: Seq<u8>)
    ensures
        recent(recent(x) + y) == recent(x + y),
{
    assert(recent(recent(x) + y) =~= recent(x + y));
}

proof fn lemma_content(f: Frame, k: int)
    requires
        0 <= k <= f.blocks.len(),
    ensures
        f.content(k) + f.left(k) == f.whole(),
    decreases f.blocks.len() - k,
{
    if k < f.blocks.len() {
        lemma_content(f, k + 1);
        assert(f.content(k + 1) + f.left(k + 1) =~= f.content(k) + f.left(k));
    } else {
        assert(f.content(k) + f.left(k) =~= f.whole());
    }
}

/// What a decoder at each stage expects.
proof fn lemma_expects(f: Frame, d: Decoder, k: int, rest: Seq<u8>, left: Seq<u8>)
    ensures
        d.stage is GetFrameHeader ==> f.expects(d, k, rest, left) == f.at_start(d, k, rest, left),
        d.stage is StoreFrameHeader ==> f.expects(d, k, rest, left) == f.in_header(d, k, rest, left),
        d.stage is Init ==> f.expects(d, k, rest, left) == f.behind_header(d, k, rest, left),
        d.stage is GetBlockHeader || d.stage is StoreBlockHeader ==> f.expects(d, k, rest, left)
            == f.at_block(d, k, rest, left),
        d.stage is CopyDirect ==> f.expects(d, k, rest, left) == f.copying(d, k, rest, left),
        d.stage is GetBlockChecksum ==> f.expects(d, k, rest, left) == f.at_crc(d, k, rest, left),
        d.stage is GetCBlock || d.stage is StoreCBlock ==> f.expects(d, k, rest, left)
            == f.in_block(d, k, rest, left),
        d.stage is FlushOut ==> f.expects(d, k, rest, left) == f.flushing(d, k, rest, left),
        d.stage is GetSuffix || d.stage is StoreSuffix ==> f.expects(d, k, rest, left)
            == f.at_suffix(d, k, rest, left),
{
    reveal(Frame::expects);
}

/// A step that gives no content, and after which the decoder expects the rest.
proof fn lemma_quiet(f: Frame, t: Turn, u: Turn, k: int, src: Seq<u8>, more: Seq<u8>, left: Seq<u8>)
    requires
        u.out == t.out,
        f.expects(u.d, k, src.skip(u.at) + more, left),
    ensures
        f.moved(t.out, u, src, more, left),
{
    assert(left.skip(0) =~= left);
    assert(t.out + left.take(0) =~= t.out);
    lemma_moved(f, t, u, k, src, more, left, 0);
}

/// A step that gives `n` bytes of content, and after which the decoder expects
/// the rest.
proof fn lemma_moved(f: Frame, t: Turn, u: Turn, k: int, src: Seq<u8>, more: Seq<u8>, left: Seq<u8>, n: int)
    requires
        0 <= n <= left.len(),
        u.out == t.out + left.take(n),
        f.expects(u.d, k, src.skip(u.at) + more, left.skip(n)),
    ensures
        f.moved(t.out, u, src, more, left),
{
    reveal(Frame::moved);
    assert(u.out.len() - t.out.len() == n);
}

/// Taking bytes that a stage waits for leaves the frame's bytes as they are.
proof fn lemma_topping(t: Turn, src: Seq<u8>, more: Seq<u8>)
    requires
        0 <= t.at <= src.len(),
        t.d.got.len() <= t.d.need(),
    ensures
        ({
            let u = t.topping(src);
            &&& u.d.got + (src.skip(u.at) + more) == t.d.got + (src.skip(t.at) + more)
            &&& t.d.got.len() <= u.d.got.len() <= t.d.need()
            &&& t.at <= u.at <= src.len()
            &&& u.d.got.len() < t.d.need() ==> u.at == src.len()
            &&& u.d == (Decoder { got: u.d.got, ..t.d })
            &&& u.out == t.out
        }),
{
    let u = t.topping(src);
    assert(u.d.got + (src.skip(u.at) + more) =~= t.d.got + (src.skip(t.at) + more));
}

/// Where two sequences of bytes agree from their first on, so do their parts.
proof fn lemma_split(a: Seq<u8>, b: Seq<u8>, c: Seq<u8>, d: Seq<u8>)
    requires
        a + b == c + d,
        a.len() == c.len(),
    ensures
        a == c,
        b == d,
{
    assert(a =~= (a + b).take(a.len() as int));
    assert(c =~= (c + d).take(c.len() as int));
    assert(b =~= (a + b).skip(a.len() as int));
    assert(d =~= (c + d).skip(c.len() as int));
}

proof fn lemma_le32_prefix(v: u32, rest: Seq<u8>)
    ensures
        le32_bytes(v).len() == 4,
        le32(le32_bytes(v), 0) == v,
        le32(le32_bytes(v) + rest, 0) == v,
{
    law_le_inverse(v, 0);
    let s = le32_bytes(v) + rest;
    assert(s[0] == le32_bytes(v)[0] && s[1] == le32_bytes(v)[1] && s[2] == le32_bytes(v)[2]
        && s[3] == le32_bytes(v)[3]);
}

/// What the header of a stored block leads to.
proof fn lemma_stored_header(f: Frame, t: Turn, k: int, src: Seq<u8>, more: Seq<u8>, room: int, left: Seq<u8>, h: u32, rest: Seq<u8>)
    requires
        f.valid(),
        f.within(t.d, k),
        t.d.dict == f.hist(k),
        left == f.left(k),
        f.tail(k) == le32_bytes(h) + rest,
        src.skip(t.at) + more == rest,
        k < f.blocks.len(),
        f.blocks[k].stored,
    ensures
        f.kept(t.out, t.block_header(src, room, h), src, more, left),
{
    let d = t.d;
    let b = f.blocks[k];
    let size = b.body.len() as int;
    let tail = b.body + (f.crc(k) + f.tail(k + 1));
    assert(f.block_ok(k));
    lemma_le32_prefix(h, rest);
    lemma_le32_prefix(f.head(k), tail);
    lemma_split(le32_bytes(h), tail, le32_bytes(h), rest);
    let u = t.with(Decoder { target: size, ..d.to(DStage::CopyDirect) }, 0);
    assert(t.block_header(src, room, h) == Act::Go(u));
    assert(b.body.skip(0) =~= b.body);
    assert(b.chunk.skip(0) =~= b.chunk);
    assert(b.chunk.take(0) =~= Seq::empty());
    assert(b.body.take(0) =~= Seq::empty());
    assert(f.content(k) + b.chunk.take(0) =~= f.content(k));
    assert(f.dict_at(k, b.chunk.take(0), d.dict));
    lemma_expects(f, u.d, k, src.skip(u.at) + more, left);
    lemma_quiet(f, t, u, k, src, more, left);
}

/// What the header of a compressed block leads to.
proof fn lemma_compressed_header(f: Frame, t: Turn, k: int, src: Seq<u8>, more: Seq<u8>, room: int, left: Seq<u8>, h: u32, rest: Seq<u8>)
    requires
        f.valid(),
        f.within(t.d, k),
        t.d.dict == f.hist(k),
        left == f.left(k),
        f.tail(k) == le32_bytes(h) + rest,
        src.skip(t.at) + more == rest,
        k < f.blocks.len(),
        !f.blocks[k].stored,
    ensures
        f.kept(t.out, t.block_header(src, room, h), src, more, left),
{
    let d = t.d;
    let b = f.blocks[k];
    let size = b.body.len() as int;
    let tail = b.body + (f.crc(k) + f.tail(k + 1));
    assert(f.block_ok(k));
    lemma_le32_prefix(h, rest);
    lemma_le32_prefix(f.head(k), tail);
    lemma_split(le32_bytes(h), tail, le32_bytes(h), rest);
    let u = t.with(Decoder { target: size + d.crc_size(), ..d.to(DStage::GetCBlock) }, 0);
    assert(u.d.got + rest =~= rest);
    lemma_expects(f, u.d, k, src.skip(u.at) + more, left);
    lemma_quiet(f, t, u, k, src, more, left);
}

/// What a block header leads to.
proof fn lemma_block_header(f: Frame, t: Turn, k: int, src: Seq<u8>, more: Seq<u8>, room: int, left: Seq<u8>, h: u32, rest: Seq<u8>)
    requires
        f.valid(),
        f.within(t.d, k),
        t.d.dict == f.hist(k),
        left == f.left(k),
        f.tail(k) == le32_bytes(h) + rest,
        src.skip(t.at) + more == rest,
    ensures
        f.kept(t.out, t.block_header(src, room, h), src, more, left),
{
    if k >= f.blocks.len() {
        lemma_le32_prefix(h, rest);
        lemma_le32_prefix(0, f.suffix());
        assert(h == 0);
        lemma_split(le32_bytes(0), f.suffix(), le32_bytes(h), rest);
        let u = t.with(t.d.to(DStage::GetSuffix), 0);
        assert(u.d.got + rest =~= rest);
        lemma_expects(f, u.d, k, src.skip(u.at) + more, left);
        lemma_quiet(f, t, u, k, src, more, left);
    } else if f.blocks[k].stored {
        lemma_stored_header(f, t, k, src, more, room, left, h, rest);
    } else {
        lemma_compressed_header(f, t, k, src, more, room, left, h, rest);
    }
}

proof fn lemma_tail_head(f: Frame, k: int) -> (r: (u32, Seq<u8>))
    ensures
        f.tail(k) == le32_bytes(r.0) + r.1,
        le32_bytes(r.0).len() == 4,
        le32(f.tail(k), 0) == r.0,
{
    let r = if k >= f.blocks.len() {
        (0u32, f.suffix())
    } else {
        (f.head(k), f.blocks[k].body + (f.crc(k) + f.tail(k + 1)))
    };
    lemma_le32_prefix(r.0, r.1);
    r
}

proof fn lemma_get_block_header(f: Frame, t: Turn, k: int, src: Seq<u8>, more: Seq<u8>, room: int, left: Seq<u8>)
    requires
        f.valid(),
        in_bounds(t, src, room),
        t.d.stage is GetBlockHeader,
        f.expects(t.d, k, src.skip(t.at) + more, left),
    ensures
        f.kept(t.out, t.get_block_header(src, room), src, more, left),
{
    lemma_expects(f, t.d, k, src.skip(t.at) + more, left);
    let rest = src.skip(t.at) + more;
    assert(t.d.got + rest =~= rest);
    if src.len() - t.at >= BH_SIZE {
        let (h, r) = lemma_tail_head(f, k);
        let u = t.with(t.d, 4);
        assert(rest =~= src.subrange(t.at, t.at + 4) + (src.skip(u.at) + more));
        lemma_split(src.subrange(t.at, t.at + 4), src.skip(u.at) + more, le32_bytes(h), r);
        assert(le32(src, t.at) == le32(rest, 0));
        lemma_block_header(f, u, k, src, more, room, left, h, r);
    } else {
        let u = t.with(t.d.to(DStage::StoreBlockHeader), 0);
        assert(u.d.got + rest =~= rest);
        lemma_expects(f, u.d, k, src.skip(u.at) + more, left);
        lemma_quiet(f, t, u, k, src, more, left);
    }
}

proof fn lemma_store_block_header(f: Frame, t: Turn, k: int, src: Seq<u8>, more: Seq<u8>, room: int, left: Seq<u8>)
    requires
        f.valid(),
        in_bounds(t, src, room),
        t.d.stage is StoreBlockHeader,
        f.expects(t.d, k, src.skip(t.at) + more, left),
    ensures
        f.kept(t.out, t.store_block_header(src, room), src, more, left),
{
    lemma_expects(f, t.d, k, src.skip(t.at) + more, left);
    let u = t.topping(src);
    lemma_topping(t, src, more);
    if u.d.got.len() < 4 {
        lemma_expects(f, u.d, k, src.skip(u.at) + more, left);
        lemma_quiet(f, t, u, k, src, more, left);
    } else {
        let (h, r) = lemma_tail_head(f, k);
        lemma_split(u.d.got, src.skip(u.at) + more, le32_bytes(h), r);
        lemma_le32_prefix(h, r);
        lemma_block_header(f, u, k, src, more, room, left, h, r);
    }
}

/// Giving out more of a block.
proof fn lemma_dict_at(f: Frame, k: int, taken: Seq<u8>, dict: Seq<u8>, bytes: Seq<u8>)
    requires
        f.dict_at(k, taken, dict),
    ensures
        f.info.block_mode == 0 ==> recent(dict + bytes) == recent(f.hist(k) + (taken + bytes)),
        f.dict_at(
            k,
            taken + bytes,
            if f.info.block_mode == 0 {
                recent(dict + bytes)
            } else {
                dict
            },
        ),
{
    if f.info.block_mode == 0 {
        assert(f.hist(k) + taken + bytes =~= f.hist(k) + (taken + bytes));
        lemma_recent(f.hist(k) + taken, bytes);
        if taken.len() == 0 {
            assert(taken + bytes =~= bytes);
        }
    }
}

/// Counting content that the frame says is to come.
proof fn lemma_remaining(f: Frame, k: int, left: Seq<u8>, n: int)
    requires
        f.valid(),
        0 <= k <= f.blocks.len(),
        0 <= n <= left.len() <= f.left(k).len(),
        f.info.content_size != 0,
    ensures
        (left.len() as u64).wrapping_sub(n as u64) == (left.len() - n) as u64,
        left.len() <= u64::MAX,
{
    lemma_content(f, k);
    assert(f.whole().len() == f.content(k).len() + f.left(k).len());
}

/// The decoder after `n` more bytes of the stored block `k`.
proof fn lemma_copied(f: Frame, d0: Decoder, k: int, rest: Seq<u8>, left: Seq<u8>, n: int, bytes: Seq<u8>)
    requires
        f.valid(),
        d0.stage is CopyDirect,
        f.copying(d0, k, rest, left),
        0 <= n <= d0.target,
        n <= rest.len(),
        bytes == rest.take(n),
    ensures
        ({
            let d = d0.copied(bytes);
            let e = Decoder { target: d0.target - n, ..d };
            &&& left.take(n) == bytes
            &&& n <= left.len()
            &&& f.copying(e, k, rest.skip(n), left.skip(n))
        }),
{
    let b = f.blocks[k];
    assert(f.block_ok(k));
    let j = b.body.len() - d0.target;
    assert(bytes =~= b.chunk.subrange(j, j + n));
    assert(b.chunk.take(j) + bytes =~= b.chunk.take(j + n));
    assert(b.body.take(j) + bytes =~= b.body.take(j + n));
    assert(f.content(k) + b.chunk.take(j) + bytes =~= f.content(k) + b.chunk.take(j + n));
    lemma_dict_at(f, k, b.chunk.take(j), d0.dict, bytes);
    assert(rest.skip(n) =~= b.body.skip(j + n) + (f.crc(k) + f.tail(k + 1)));
    assert(left.skip(n) =~= b.chunk.skip(j + n) + f.left(k + 1));
    assert(left.take(n) =~= bytes);
    assert(left.len() <= f.left(k).len());
    if f.info.content_size != 0 {
        lemma_remaining(f, k, left, n);
    }
}

/// The decoder at the end of the stored block `k`.
proof fn lemma_copied_all(f: Frame, d: Decoder, k: int, rest: Seq<u8>, left: Seq<u8>)
    requires
        f.valid(),
        f.copying(d, k, rest, left),
        d.target == 0,
        f.info.block_mode == 0 ==> d.dict == recent(f.hist(k) + f.blocks[k].chunk),
    ensures
        f.within(d, k + 1),
        d.dict == f.hist(k + 1),
        left == f.left(k + 1),
        rest == f.crc(k) + f.tail(k + 1),
        f.info.block_checksum && !d.skip ==> d.stored == f.blocks[k].body,
{
    let b = f.blocks[k];
    assert(f.block_ok(k));
    assert(b.chunk.take(b.chunk.len() as int) =~= b.chunk);
    assert(b.body.take(b.body.len() as int) =~= b.body);
    assert(left =~= f.left(k + 1));
    assert(rest =~= f.crc(k) + f.tail(k + 1));
    assert(f.content(k + 1) == f.content(k) + b.chunk);
}

proof fn lemma_copy_direct(f: Frame, t: Turn, k: int, src: Seq<u8>, more: Seq<u8>, room: int, left: Seq<u8>)
    requires
        f.valid(),
        in_bounds(t, src, room),
        t.d.stage is CopyDirect,
        f.expects(t.d, k, src.skip(t.at) + more, left),
    ensures
        f.kept(t.out, t.copy_direct(src, room), src, more, left),
{
    let rest = src.skip(t.at) + more;
    lemma_expects(f, t.d, k, rest, left);
    let n = min_int(t.d.target, min_int(src.len() - t.at, room - t.out.len()));
    let bytes = src.subrange(t.at, t.at + n);
    assert(bytes =~= rest.take(n));
    let d = t.d.copied(bytes);
    let u = Turn { out: t.out + bytes, ..t.with(d, n) };
    let e = Decoder { target: t.d.target - n, ..d };
    lemma_copied(f, t.d, k, rest, left, n, bytes);
    let rest2 = src.skip(u.at) + more;
    assert(rest2 =~= rest.skip(n));
    if n == d.target {
        assert(f.info.block_mode == 0 ==> d.dict == recent(f.hist(k) + f.blocks[k].chunk)) by {
            let b = f.blocks[k];
            let j = b.body.len() - t.d.target;
            assert(f.block_ok(k));
            lemma_dict_at(f, k, b.chunk.take(j), t.d.dict, bytes);
            assert(b.chunk.take(j) + bytes =~= b.chunk) by {
                assert(bytes =~= b.body.skip(j));
            }
        }
        lemma_copied_all(f, e, k, rest2, left.skip(n));
        if d.info.block_checksum {
            let v = u.with(
                Decoder { stored: d.stored, ..d.to(DStage::GetBlockChecksum) },
                0,
            );
            assert(v.d.got + rest2 =~= rest2);
            lemma_expects(f, v.d, k + 1, rest2, left.skip(n));
            lemma_moved(f, t, v, k + 1, src, more, left, n);
        } else {
            let v = u.with(d.to(DStage::GetBlockHeader), 0);
            assert(rest2 =~= f.tail(k + 1));
            assert(v.d.got + rest2 =~= rest2);
            lemma_expects(f, v.d, k + 1, rest2, left.skip(n));
            lemma_moved(f, t, v, k + 1, src, more, left, n);
        }
    } else {
        let v = u.with(e, 0);
        lemma_expects(f, v.d, k, rest2, left.skip(n));
        lemma_moved(f, t, v, k, src, more, left, n);
    }
}

proof fn lemma_get_block_checksum(f: Frame, t: Turn, k: int, src: Seq<u8>, more: Seq<u8>, room: int, left: Seq<u8>)
    requires
        f.valid(),
        in_bounds(t, src, room),
        t.d.stage is GetBlockChecksum,
        f.expects(t.d, k, src.skip(t.at) + more, left),
    ensures
        f.kept(t.out, t.get_block_checksum(src), src, more, left),
{
    lemma_expects(f, t.d, k, src.skip(t.at) + more, left);
    let u = t.topping(src);
    lemma_topping(t, src, more);
    if u.d.got.len() < 4 {
        lemma_expects(f, u.d, k, src.skip(u.at) + more, left);
        lemma_quiet(f, t, u, k, src, more, left);
    } else {
        let sum = xxh32_spec(f.blocks[k - 1].body, 0);
        lemma_le32_prefix(sum, Seq::empty());
        lemma_split(u.d.got, src.skip(u.at) + more, f.crc(k - 1), f.tail(k));
        let v = u.with(u.d.to(DStage::GetBlockHeader), 0);
        assert(v.d.got + (src.skip(v.at) + more) =~= src.skip(v.at) + more);
        lemma_expects(f, v.d, k, src.skip(v.at) + more, left);
        lemma_quiet(f, t, v, k, src, more, left);
    }
}

proof fn lemma_flush_out(f: Frame, t: Turn, k: int, src: Seq<u8>, more: Seq<u8>, room: int, left: Seq<u8>)
    requires
        f.valid(),
        in_bounds(t, src, room),
        t.d.stage is FlushOut,
        f.expects(t.d, k, src.skip(t.at) + more, left),
    ensures
        f.kept(t.out, t.flush_out(room), src, more, left),
{
    lemma_expects(f, t.d, k, src.skip(t.at) + more, left);
    let c = f.blocks[k - 1].chunk;
    let j = c.len() - t.d.ready.len();
    let n = min_int(t.d.ready.len() as int, room - t.out.len());
    let bytes = t.d.ready.take(n);
    let d = Decoder { ready: t.d.ready.skip(n), ..t.d }.remembering(bytes);
    let u = Turn { out: t.out + bytes, ..t.with(d, 0) };
    lemma_dict_at(f, k - 1, c.take(j), t.d.dict, bytes);
    assert(c.take(j) + bytes =~= c.take(j + n));
    assert(d.ready =~= c.skip(j + n));
    assert(left.take(n) =~= bytes);
    assert(left.skip(n) =~= d.ready + f.left(k));
    assert(src.skip(u.at) + more == src.skip(t.at) + more);
    if d.ready.len() == 0 {
        assert(c.take(j + n) =~= c);
        assert(d.dict == f.hist(k));
        let v = u.with(d.to(DStage::GetBlockHeader), 0);
        assert(v.d.got + (src.skip(t.at) + more) =~= src.skip(t.at) + more);
        assert(left.skip(n) =~= f.left(k));
        lemma_expects(f, v.d, k, src.skip(v.at) + more, left.skip(n));
        lemma_moved(f, t, v, k, src, more, left, n);
    } else {
        lemma_expects(f, u.d, k, src.skip(u.at) + more, left.skip(n));
        lemma_moved(f, t, u, k, src, more, left, n);
    }
}

/// What a compressed block leads to.
proof fn lemma_cblock(f: Frame, t: Turn, k: int, src: Seq<u8>, more: Seq<u8>, room: int, left: Seq<u8>)
    requires
        f.valid(),
        f.within(t.d, k),
        k < f.blocks.len(),
        !f.blocks[k].stored,
        t.d.dict == f.hist(k),
        left == f.left(k),
        src.skip(t.at) + more == f.tail(k + 1),
        t.out.len() <= room,
    ensures
        f.kept(t.out, t.cblock(room, f.blocks[k].body + f.crc(k)), src, more, left),
{
    let d = t.d;
    let bytes = f.blocks[k].chunk;
    lemma_opening(f, d, k);
    assert(t.cblock(room, f.blocks[k].body + f.crc(k)) == t.cblock_given(room, bytes));
    lemma_given(f, t, k, src, more, room, left);
}

/// A compressed block of the frame passes its checks, and holds its chunk.
proof fn lemma_opening(f: Frame, d: Decoder, k: int)
    requires
        f.valid(),
        f.within(d, k),
        k < f.blocks.len(),
        !f.blocks[k].stored,
        d.dict == f.hist(k),
    ensures
        ({
            let b = f.blocks[k];
            let block = b.body + f.crc(k);
            let len = block.len() - d.crc_size();
            &&& len == b.body.len()
            &&& block.take(len) == b.body
            &&& d.opened(b.body) == Some(b.chunk)
            &&& f.info.block_checksum ==> le32(block, len) == xxh32_spec(b.body, 0)
            &&& b.chunk.len() <= d.block_max
        }),
{
    let b = f.blocks[k];
    let block = b.body + f.crc(k);
    let len = block.len() - d.crc_size();
    assert(f.block_ok(k));
    lemma_le32_prefix(xxh32_spec(b.body, 0), Seq::empty());
    assert(len == b.body.len());
    assert(block.take(len) =~= b.body);
    if f.info.block_checksum {
        assert(block.skip(len) =~= f.crc(k));
        assert(le32(block, len) == le32(f.crc(k), 0));
    }
    let setup = DecodeSetup {
        hist: d.dict,
        prefix: 0,
        cap: d.block_max,
        partial: false,
        lead: None,
    };
    law_round_trip(setup, b.body, b.chunk);
}

/// What the content of a compressed block leads to.
proof fn lemma_given(f: Frame, t: Turn, k: int, src: Seq<u8>, more: Seq<u8>, room: int, left: Seq<u8>)
    requires
        f.valid(),
        f.within(t.d, k),
        k < f.blocks.len(),
        t.d.dict == f.hist(k),
        left == f.left(k),
        src.skip(t.at) + more == f.tail(k + 1),
        t.out.len() <= room,
    ensures
        f.kept(t.out, t.cblock_given(room, f.blocks[k].chunk), src, more, left),
{
    let d = t.d;
    let bytes = f.blocks[k].chunk;
    assert(left == bytes + f.left(k + 1));
    let n = bytes.len() as int;
    if f.info.content_size != 0 {
        lemma_remaining(f, k, left, n);
    }
    let e = d.counted(bytes);
    assert(f.content(k + 1) == f.content(k) + bytes);
    assert(f.within(e, k + 1));
    if room - t.out.len() >= d.block_max {
        let u = Turn {
            out: t.out + bytes,
            ..t.with(e.remembering(bytes).to(DStage::GetBlockHeader), 0)
        };
        assert(left.take(n) =~= bytes);
        assert(left.skip(n) =~= f.left(k + 1));
        assert(u.d.got + (src.skip(u.at) + more) =~= src.skip(u.at) + more);
        lemma_expects(f, u.d, k + 1, src.skip(u.at) + more, left.skip(n));
        lemma_moved(f, t, u, k + 1, src, more, left, n);
    } else {
        let u = t.with(Decoder { ready: bytes, ..e.to(DStage::FlushOut) }, 0);
        assert(bytes.skip(0) =~= bytes);
        assert(bytes.take(0) =~= Seq::empty());
        assert(f.dict_at(k, bytes.take(0), e.dict));
        lemma_expects(f, u.d, k + 1, src.skip(u.at) + more, left);
        lemma_quiet(f, t, u, k + 1, src, more, left);
    }
}

proof fn lemma_get_cblock(f: Frame, t: Turn, k: int, src: Seq<u8>, more: Seq<u8>, room: int, left: Seq<u8>)
    requires
        f.valid(),
        in_bounds(t, src, room),
        t.d.stage is GetCBlock,
        f.expects(t.d, k, src.skip(t.at) + more, left),
    ensures
        f.kept(t.out, t.get_cblock(src, room), src, more, left),
{
    lemma_expects(f, t.d, k, src.skip(t.at) + more, left);
    let n = t.d.target;
    let rest = src.skip(t.at) + more;
    let b = f.blocks[k];
    assert(t.d.got + rest =~= rest);
    if src.len() - t.at < n {
        let u = t.with(Decoder { target: n, ..t.d.to(DStage::StoreCBlock) }, 0);
        assert(u.d.got + rest =~= rest);
        lemma_expects(f, u.d, k, src.skip(u.at) + more, left);
        lemma_quiet(f, t, u, k, src, more, left);
    } else {
        let u = t.with(t.d, n);
        let block = src.subrange(t.at, t.at + n);
        lemma_le32_prefix(xxh32_spec(b.body, 0), Seq::empty());
        assert(rest =~= block + (src.skip(u.at) + more));
        assert(rest =~= (b.body + f.crc(k)) + f.tail(k + 1));
        lemma_split(block, src.skip(u.at) + more, b.body + f.crc(k), f.tail(k + 1));
        lemma_cblock(f, u, k, src, more, room, left);
    }
}

proof fn lemma_store_cblock(f: Frame, t: Turn, k: int, src: Seq<u8>, more: Seq<u8>, room: int, left: Seq<u8>)
    requires
        f.valid(),
        in_bounds(t, src, room),
        t.d.stage is StoreCBlock,
        f.expects(t.d, k, src.skip(t.at) + more, left),
    ensures
        f.kept(t.out, t.store_cblock(src, room), src, more, left),
{
    lemma_expects(f, t.d, k, src.skip(t.at) + more, left);
    let u = t.topping(src);
    let b = f.blocks[k];
    lemma_topping(t, src, more);
    if u.d.got.len() < u.d.target {
        lemma_expects(f, u.d, k, src.skip(u.at) + more, left);
        lemma_quiet(f, t, u, k, src, more, left);
    } else {
        lemma_le32_prefix(xxh32_spec(b.body, 0), Seq::empty());
        assert(b.body + (f.crc(k) + f.tail(k + 1)) =~= (b.body + f.crc(k)) + f.tail(k + 1));
        lemma_split(u.d.got, src.skip(u.at) + more, b.body + f.crc(k), f.tail(k + 1));
        lemma_cblock(f, u, k, src, more, room, left);
    }
}

/// The end of the frame.
proof fn lemma_closing(f: Frame, t: Turn, u: Turn, src: Seq<u8>, more: Seq<u8>, left: Seq<u8>)
    requires
        u.out == t.out,
        left.len() == 0,
        src.skip(u.at) + more == f.after,
    ensures
        f.kept(t.out, Act::Stop(u.with(u.d.closed(), 0), 0), src, more, left),
{
    assert(t.out + left =~= t.out);
}

proof fn lemma_get_suffix(f: Frame, t: Turn, k: int, src: Seq<u8>, more: Seq<u8>, room: int, left: Seq<u8>)
    requires
        f.valid(),
        in_bounds(t, src, room),
        t.d.stage is GetSuffix,
        f.expects(t.d, k, src.skip(t.at) + more, left),
    ensures
        f.kept(t.out, t.get_suffix(src), src, more, left),
{
    lemma_expects(f, t.d, k, src.skip(t.at) + more, left);
    let rest = src.skip(t.at) + more;
    assert(t.d.got + rest =~= rest);
    assert(f.left(k).len() == 0);
    if !f.info.content_checksum {
        assert(f.suffix() =~= f.after);
        lemma_closing(f, t, t, src, more, left);
    } else if src.len() - t.at < 4 {
        let u = t.with(t.d.to(DStage::StoreSuffix), 0);
        assert(u.d.got + rest =~= rest);
        lemma_expects(f, u.d, k, src.skip(u.at) + more, left);
        lemma_quiet(f, t, u, k, src, more, left);
    } else {
        let sum = xxh32_spec(f.whole(), 0);
        lemma_le32_prefix(sum, f.after);
        let u = t.with(t.d, 4);
        let b = src.subrange(t.at, t.at + 4);
        assert(rest =~= b + (src.skip(u.at) + more));
        lemma_split(b, src.skip(u.at) + more, le32_bytes(sum), f.after);
        assert(le32(src, t.at) == le32(b, 0));
        lemma_closing(f, t, u, src, more, left);
    }
}

proof fn lemma_store_suffix(f: Frame, t: Turn, k: int, src: Seq<u8>, more: Seq<u8>, room: int, left: Seq<u8>)
    requires
        f.valid(),
        in_bounds(t, src, room),
        t.d.stage is StoreSuffix,
        f.expects(t.d, k, src.skip(t.at) + more, left),
    ensures
        f.kept(t.out, t.store_suffix(src), src, more, left),
{
    lemma_expects(f, t.d, k, src.skip(t.at) + more, left);
    let u = t.topping(src);
    lemma_topping(t, src, more);
    if u.d.got.len() < 4 {
        lemma_expects(f, u.d, k, src.skip(u.at) + more, left);
        lemma_quiet(f, t, u, k, src, more, left);
    } else {
        let sum = xxh32_spec(f.whole(), 0);
        lemma_le32_prefix(sum, f.after);
        lemma_split(u.d.got, src.skip(u.at) + more, le32_bytes(sum), f.after);
        lemma_closing(f, t, u, src, more, left);
    }
}

/// A header says the same with more bytes behind it.
pub proof fn lemma_header_local(f: Frame, s: Seq<u8>, x: Seq<u8>)
    requires
        f.header_ok(),
        s + x == f.bytes(),
        s.len() >= HEADER_SIZE_MIN,
    ensures
        HEADER_SIZE_MIN <= f.header.len() <= HEADER_SIZE_MAX,
        4 <= f.info.block_size_id <= 7,
        !is_skippable(le32(s, 0)),
        parse_header(s) == (if s.len() < f.header.len() {
            Ok::<Header, Error>(Header::Short { need: f.header.len() as int })
        } else {
            Ok::<Header, Error>(
                Header::Whole { size: f.header.len() as int, info: f.info, sized: f.sized },
            )
        }),
{
    reveal(Frame::header_ok);
    let h = f.header;
    let all = f.bytes();
    let size = h.len() as int;
    assert(forall|i: int| 0 <= i < size ==> all[i] == h[i]);
    assert(forall|i: int| 0 <= i < s.len() ==> (s + x)[i] == s[i]);
    assert(s[0] == h[0] && s[1] == h[1] && s[2] == h[2] && s[3] == h[3] && s[4] == h[4] && s[5]
        == h[5] && s[6] == h[6]);
    if s.len() >= size {
        assert(s.subrange(4, size - 1) =~= h.subrange(4, size - 1));
    }
}

proof fn lemma_get_frame_header(f: Frame, t: Turn, k: int, src: Seq<u8>, more: Seq<u8>, room: int, left: Seq<u8>)
    requires
        f.valid(),
        in_bounds(t, src, room),
        t.d.stage is GetFrameHeader,
        f.expects(t.d, k, src.skip(t.at) + more, left),
    ensures
        f.kept(t.out, t.get_frame_header(src), src, more, left),
{
    let rest = src.skip(t.at) + more;
    lemma_expects(f, t.d, k, rest, left);
    if src.len() - t.at >= HEADER_SIZE_MAX {
        let s = src.skip(t.at);
        lemma_header_local(f, s, more);
        let (r, d) = t.d.with_header(s, false);
        let u = t.with(d, f.header.len() as int);
        assert(rest =~= s.take(f.header.len() as int) + (src.skip(u.at) + more));
        lemma_split(
            s.take(f.header.len() as int),
            src.skip(u.at) + more,
            f.header,
            f.tail(0),
        );
        lemma_expects(f, u.d, 0, src.skip(u.at) + more, left);
        lemma_quiet(f, t, u, 0, src, more, left);
    } else if src.len() == t.at {
        lemma_quiet(f, t, t, k, src, more, left);
    } else {
        let d = Decoder {
            target: HEADER_SIZE_MIN as int,
            ..t.d.to(DStage::StoreFrameHeader)
        };
        let u = t.with(d, 0);
        assert(f.header.len() >= HEADER_SIZE_MIN) by {
            reveal(Frame::header_ok);
        }
        assert(u.d.got + rest =~= rest);
        lemma_expects(f, u.d, 0, src.skip(u.at) + more, left);
        lemma_quiet(f, t, u, 0, src, more, left);
    }
}

proof fn lemma_store_frame_header(f: Frame, t: Turn, k: int, src: Seq<u8>, more: Seq<u8>, room: int, left: Seq<u8>)
    requires
        f.valid(),
        in_bounds(t, src, room),
        t.d.stage is StoreFrameHeader,
        f.expects(t.d, k, src.skip(t.at) + more, left),
    ensures
        f.kept(t.out, t.store_frame_header(src), src, more, left),
{
    lemma_expects(f, t.d, k, src.skip(t.at) + more, left);
    let u = t.topping(src);
    lemma_topping(t, src, more);
    let rest = src.skip(u.at) + more;
    if u.d.got.len() < u.d.target {
        lemma_expects(f, u.d, k, rest, left);
        lemma_quiet(f, t, u, k, src, more, left);
    } else {
        lemma_header_local(f, u.d.got, rest);
        let (r, d) = u.d.with_header(u.d.got, true);
        let v = u.with(d, 0);
        if u.d.got.len() == f.header.len() {
            lemma_split(u.d.got, rest, f.header, f.tail(0));
        }
        lemma_expects(f, v.d, 0, rest, left);
        lemma_quiet(f, t, v, 0, src, more, left);
    }
}

proof fn lemma_init(f: Frame, t: Turn, k: int, src: Seq<u8>, more: Seq<u8>, room: int, left: Seq<u8>)
    requires
        f.valid(),
        in_bounds(t, src, room),
        t.d.stage is Init,
        f.expects(t.d, k, src.skip(t.at) + more, left),
    ensures
        f.kept(t.out, t.init(), src, more, left),
{
    let rest = src.skip(t.at) + more;
    lemma_expects(f, t.d, k, rest, left);
    lemma_content(f, 0);
    assert(f.content(0) + f.left(0) =~= f.left(0));
    let u = t.with(Decoder { content: Seq::empty(), ..t.d.to(DStage::GetBlockHeader) }, 0);
    assert(u.d.got + rest =~= rest);
    lemma_expects(f, u.d, 0, rest, left);
    lemma_quiet(f, t, u, 0, src, more, left);
}

/// One step within a valid frame never fails, gives the next part of its
/// content and keeps to its bytes.
proof fn lemma_frame_step(f: Frame, t: Turn, k: int, src: Seq<u8>, more: Seq<u8>, room: int, left: Seq<u8>)
    requires
        f.valid(),
        in_bounds(t, src, room),
        f.expects(t.d, k, src.skip(t.at) + more, left),
    ensures
        f.kept(t.out, t.step(src, room), src, more, left),
{
    reveal(Turn::step);
    match t.d.stage {
        DStage::GetFrameHeader => lemma_get_frame_header(f, t, k, src, more, room, left),
        DStage::StoreFrameHeader => lemma_store_frame_header(f, t, k, src, more, room, left),
        DStage::Init => lemma_init(f, t, k, src, more, room, left),
        DStage::GetBlockHeader => lemma_get_block_header(f, t, k, src, more, room, left),
        DStage::StoreBlockHeader => lemma_store_block_header(f, t, k, src, more, room, left),
        DStage::CopyDirect => lemma_copy_direct(f, t, k, src, more, room, left),
        DStage::GetBlockChecksum => lemma_get_block_checksum(f, t, k, src, more, room, left),
        DStage::GetCBlock => lemma_get_cblock(f, t, k, src, more, room, left),
        DStage::StoreCBlock => lemma_store_cblock(f, t, k, src, more, room, left),
        DStage::FlushOut => lemma_flush_out(f, t, k, src, more, room, left),
        DStage::GetSuffix => lemma_get_suffix(f, t, k, src, more, room, left),
        DStage::StoreSuffix => lemma_store_suffix(f, t, k, src, more, room, left),
        _ => {
            reveal(Frame::expects);
        },
    }
}

/// A call within a valid frame never fails, gives the next part of its content
/// and keeps to its bytes.
proof fn lemma_frame_run(f: Frame, t: Turn, k: int, src: Seq<u8>, more: Seq<u8>, room: int, left: Seq<u8>)
    requires
        f.valid(),
        in_bounds(t, src, room),
        f.expects(t.d, k, src.skip(t.at) + more, left),
    ensures
        f.kept(t.out, t.run(src, room), src, more, left),
    decreases src.len() - t.at, t.d.stage.rank(),
{
    lemma_frame_step(f, t, k, src, more, room, left);
    lemma_step(t, src, room);
    if let Act::Go(u) = t.step(src, room) {
        reveal(Frame::moved);
        let n = u.out.len() - t.out.len();
        let k2 = choose|k2: int| #[trigger]
            f.expects(u.d, k2, src.skip(u.at) + more, left.skip(n));
        lemma_frame_run(f, u, k2, src, more, room, left.skip(n));
        if let Act::Stop(v, hint) = u.run(src, room) {
            if hint > 0 && f.moved(u.out, v, src, more, left.skip(n)) {
                let m = v.out.len() - u.out.len();
                assert(left.take(n) + left.skip(n).take(m) =~= left.take(n + m));
                assert(t.out + left.take(n) + left.skip(n).take(m) =~= t.out + left.take(n + m));
                assert(left.skip(n).skip(m) =~= left.skip(n + m));
            } else {
                assert(t.out + left.take(n) + left.skip(n) =~= t.out + left);
            }
        }
        if let Act::Go(v) = u.run(src, room) {
            lemma_run(u, src, room);
        }
    }
}

/// Resuming: a decoder that expects the bytes `src + more` of a valid frame
/// takes `src` without failing, whatever its size and whatever the room for
/// output. It gives the next part of the content. Then either the frame is
/// complete, which the hint of zero tells, and all of its content is given; or
/// the decoder expects the rest.
pub proof fn law_resume(f: Frame, d: Decoder, k: int, src: Seq<u8>, more: Seq<u8>, room: int, left: Seq<u8>, dict: Option<Seq<u8>>, skip: bool)
    requires
        f.valid(),
        d.wf(),
        room >= 0,
        f.expects(entered(d, dict, skip), k, src + more, left),
    ensures
        match called(d, src, room, dict, skip) {
            Act::Stop(u, hint) => {
                let n = u.out.len() as int;
                &&& 0 <= u.at <= src.len() && n <= left.len()
                &&& u.out == left.take(n)
                &&& u.d.wf()
                &&& if hint == 0 {
                    &&& n == left.len()
                    &&& src.skip(u.at) + more == f.after
                } else {
                    exists|j: int| #[trigger]
                        f.expects(u.d, j, src.skip(u.at) + more, left.skip(n))
                }
            },
            _ => false,
        },
{
    let t = Turn { d: entered(d, dict, skip), at: 0, out: Seq::empty() };
    assert(src.skip(0) =~= src);
    lemma_frame_run(f, t, k, src, more, room, left);
    lemma_run(t, src, room);
    if let Act::Stop(u, hint) = t.run(src, room) {
        reveal(Frame::moved);
        assert(Seq::<u8>::empty() + left =~= left);
        assert(left.take(left.len() as int) =~= left);
        assert(Seq::<u8>::empty() + left.take(u.out.len() as int) =~= left.take(
            u.out.len() as int,
        ));
    }
}

/// A decoder that waits for a frame expects any valid one whose blocks refer to
/// the dictionary that it is given.
pub proof fn law_awaits(f: Frame, d: Decoder, dict: Option<Seq<u8>>, skip: bool)
    requires
        d == d.closed(),
        f.dict == (if dict is Some {
            dict->0
        } else {
            Seq::empty()
        }),
    ensures
        f.expects(entered(d, dict, skip), 0, f.bytes(), f.whole()),
{
    reveal(Frame::expects);
}

/// Between calls a decoder goes on expecting what it expects, even when
/// checksums are left out from then on.
pub proof fn law_goes_on(f: Frame, d: Decoder, k: int, rest: Seq<u8>, left: Seq<u8>, skip: bool)
    requires
        f.expects(d, k, rest, left),
    ensures
        f.expects(entered(d, None, skip), k, rest, left),
{
    reveal(Frame::expects);
}

/// With enough input at hand, a stage gets all that it waits for.
proof fn lemma_topped(t: Turn, src: Seq<u8>)
    requires
        0 <= t.at <= src.len(),
        t.d.got.len() <= t.d.need(),
        t.d.got.len() + src.len() - t.at >= t.d.need(),
    ensures
        t.topping(src).d.got.len() == t.d.need(),
{
}

/// With the rest of the frame at hand and room for the rest of its content, a
/// block header does not end the call.
proof fn lemma_block_unhindered(f: Frame, t: Turn, k: int, src: Seq<u8>, room: int, h: u32, rest: Seq<u8>)
    requires
        f.valid(),
        f.filled(),
        f.within(t.d, k),
        f.left(k).len() <= room - t.out.len(),
        f.tail(k) == le32_bytes(h) + rest,
        0 <= t.at <= src.len(),
        src.skip(t.at) == rest,
    ensures
        !(t.block_header(src, room, h) is Stop),
{
    lemma_le32_prefix(h, rest);
    if k < f.blocks.len() {
        let b = f.blocks[k];
        let tail = b.body + (f.crc(k) + f.tail(k + 1));
        assert(f.block_ok(k));
        lemma_le32_prefix(f.head(k), tail);
        lemma_split(le32_bytes(h), tail, le32_bytes(h), rest);
        assert(f.left(k).len() == b.chunk.len() + f.left(k + 1).len());
        assert(rest.len() >= b.body.len());
    } else {
        lemma_le32_prefix(0, f.suffix());
    }
}

proof fn lemma_header_unhindered(f: Frame, t: Turn, k: int, src: Seq<u8>, room: int, left: Seq<u8>)
    requires
        f.valid(),
        f.filled(),
        in_bounds(t, src, room),
        f.at_block(t.d, k, src.skip(t.at), left),
        left.len() <= room - t.out.len(),
        t.d.stage is GetBlockHeader || t.d.stage is StoreBlockHeader,
    ensures
        t.d.stage is GetBlockHeader ==> !(t.get_block_header(src, room) is Stop),
        t.d.stage is StoreBlockHeader ==> !(t.store_block_header(src, room) is Stop),
{
    let (h, r) = lemma_tail_head(f, k);
    let rest = src.skip(t.at);
    assert((t.d.got + rest).len() >= 4);
    if t.d.stage is GetBlockHeader {
        assert(t.d.got + rest =~= rest);
        let u = t.with(t.d, 4);
        assert(rest =~= src.subrange(t.at, t.at + 4) + src.skip(u.at));
        lemma_split(src.subrange(t.at, t.at + 4), src.skip(u.at), le32_bytes(h), r);
        assert(le32(src, t.at) == le32(rest, 0));
        lemma_block_unhindered(f, u, k, src, room, h, r);
    } else {
        let u = t.topping(src);
        lemma_topped(t, src);
        lemma_topping(t, src, Seq::empty());
        assert(src.skip(u.at) + Seq::<u8>::empty() =~= src.skip(u.at));
        assert(rest + Seq::<u8>::empty() =~= rest);
        lemma_split(u.d.got, src.skip(u.at), le32_bytes(h), r);
        lemma_le32_prefix(h, r);
        lemma_block_unhindered(f, u, k, src, room, h, r);
    }
}

proof fn lemma_stored_unhindered(f: Frame, t: Turn, k: int, src: Seq<u8>, room: int, left: Seq<u8>)
    requires
        f.valid(),
        in_bounds(t, src, room),
        t.d.stage is CopyDirect,
        f.copying(t.d, k, src.skip(t.at), left),
        left.len() <= room - t.out.len(),
    ensures
        !(t.copy_direct(src, room) is Stop),
{
    assert(f.block_ok(k));
    assert(src.skip(t.at).len() >= t.d.target);
    assert(left.len() >= t.d.target);
}

/// With the rest of the frame at hand, room for the rest of its content and no
/// empty blocks, a step does not end the call before the end of the frame.
proof fn lemma_unhindered(f: Frame, t: Turn, k: int, src: Seq<u8>, room: int, left: Seq<u8>)
    requires
        f.valid(),
        f.filled(),
        in_bounds(t, src, room),
        f.expects(t.d, k, src.skip(t.at) + Seq::empty(), left),
        left.len() <= room - t.out.len(),
    ensures
        t.step(src, room) matches Act::Stop(_, hint) ==> hint == 0,
{
    let rest = src.skip(t.at) + Seq::empty();
    assert(rest =~= src.skip(t.at));
    lemma_expects(f, t.d, k, rest, left);
    reveal(Turn::step);
    match t.d.stage {
        DStage::GetFrameHeader => {
            assert(f.header.len() >= 7) by {
                reveal(Frame::header_ok);
            }
            assert(rest.len() > 0);
        },
        DStage::StoreFrameHeader => {
            assert((t.d.got + rest).len() == f.bytes().len());
            lemma_topped(t, src);
        },
        DStage::GetBlockHeader | DStage::StoreBlockHeader => {
            lemma_header_unhindered(f, t, k, src, room, left);
        },
        DStage::CopyDirect => {
            lemma_stored_unhindered(f, t, k, src, room, left);
        },
        DStage::GetBlockChecksum => {
            lemma_le32_prefix(xxh32_spec(f.blocks[k - 1].body, 0), Seq::empty());
            assert((t.d.got + rest).len() == (f.crc(k - 1) + f.tail(k)).len());
            lemma_topped(t, src);
        },
        DStage::GetCBlock => {},
        DStage::StoreCBlock => {
            let b = f.blocks[k];
            lemma_le32_prefix(xxh32_spec(b.body, 0), Seq::empty());
            assert((t.d.got + rest).len() == (b.body + (f.crc(k) + f.tail(k + 1))).len());
            lemma_topped(t, src);
        },
        DStage::FlushOut => {
            assert(left.len() >= t.d.ready.len());
        },
        DStage::StoreSuffix => {
            lemma_le32_prefix(xxh32_spec(f.whole(), 0), Seq::empty());
            assert((t.d.got + rest).len() == f.suffix().len());
            lemma_topped(t, src);
        },
        _ => {
            reveal(Frame::expects);
        },
    }
}

proof fn lemma_unhindered_run(f: Frame, t: Turn, k: int, src: Seq<u8>, room: int, left: Seq<u8>)
    requires
        f.valid(),
        f.filled(),
        in_bounds(t, src, room),
        f.expects(t.d, k, src.skip(t.at) + Seq::empty(), left),
        left.len() <= room - t.out.len(),
    ensures
        t.run(src, room) matches Act::Stop(_, hint) ==> hint == 0,
    decreases src.len() - t.at, t.d.stage.rank(),
{
    lemma_unhindered(f, t, k, src, room, left);
    lemma_frame_step(f, t, k, src, Seq::empty(), room, left);
    lemma_step(t, src, room);
    if let Act::Go(u) = t.step(src, room) {
        reveal(Frame::moved);
        let n = u.out.len() - t.out.len();
        let k2 = choose|k2: int| #[trigger]
            f.expects(u.d, k2, src.skip(u.at) + Seq::empty(), left.skip(n));
        lemma_unhindered_run(f, u, k2, src, room, left.skip(n));
    }
}

/// A call that is given a whole valid frame without empty blocks, and room for
/// its content, gives all of it, and takes the frame and no more.
pub proof fn law_decodes(f: Frame, d: Decoder, room: int, dict: Option<Seq<u8>>, skip: bool)
    requires
        f.valid(),
        f.filled(),
        d == d.closed(),
        room >= f.whole().len(),
        f.dict == (if dict is Some {
            dict->0
        } else {
            Seq::empty()
        }),
    ensures
        called(d, f.bytes(), room, dict, skip) matches Act::Stop(u, hint) && hint == 0 && u.out
            == f.whole() && u.at == f.bytes().len() - f.after.len(),
{
    let src = f.bytes();
    law_awaits(f, d, dict, skip);
    assert(src + Seq::<u8>::empty() =~= src);
    law_resume(f, d, 0, src, Seq::empty(), room, f.whole(), dict, skip);
    let t = Turn { d: entered(d, dict, skip), at: 0, out: Seq::empty() };
    assert(src.skip(0) + Seq::<u8>::empty() =~= src);
    lemma_unhindered_run(f, t, 0, src, room, f.whole());
    if let Act::Stop(u, hint) = called(d, src, room, dict, skip) {
        assert(f.whole().take(u.out.len() as int) =~= f.whole());
        assert((src.skip(u.at) + Seq::<u8>::empty()).len() == src.len() - u.at);
    }
}

} // verus!
