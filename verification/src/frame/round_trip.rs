//! Frames that a compression context writes are valid, so that decoding gives
//! back what was compressed.
use vstd::prelude::*;
use crate::block::entry::alone_env;
use crate::block::stream::{dict_cells, WINDOW};
use crate::bytes::{law_le_inverse, le32, le32_bytes, le64, le64_bytes};
use crate::format::{encodes, law_more_history};
use super::compress::{
    acceleration_of, ample, begun, cost, descriptor, frame_header, header_checksum_spec,
    settled_preferences, smaller, space_in, stream_env, used_dict, whole_frame, window_of,
    BlockCompressMode, Encoder, Track,
};
use super::decoder::{
    called, header_info, header_size_spec, parse_header, recent, told, Act, Decoder, Header,
};
use super::laws::{law_decodes, Blk, Frame};
use super::{block_size, Error, FrameInfo, Preferences, BH_SIZE, MAGICNUMBER};

verus! {

/// Whether two encoders differ in no more than what depends on their input.
pub open spec fn alike(e: Encoder, f: Encoder) -> bool {
    &&& e.stage == f.stage
    &&& e.prefs == f.prefs
    &&& e.block == f.block
    &&& e.total == f.total
    &&& e.frame_dict == f.frame_dict
    &&& e.mode == f.mode
}

/// What of a frame an encoder's next block may refer to.
pub open spec fn reach(e: Encoder) -> Seq<u8> {
    if e.linked() {
        e.dict
    } else {
        e.frame_dict
    }
}

/// Whether `s` ends with `t`.
pub open spec fn ends_with(s: Seq<u8>, t: Seq<u8>) -> bool {
    t.len() <= s.len() && s.skip(s.len() - t.len()) == t
}

/// `chunk` as the next block.
pub open spec fn cut_block(e: Encoder, chunk: Seq<u8>, space: int, mode: BlockCompressMode, little: bool) -> Blk {
    let packed = if mode == BlockCompressMode::Compressed {
        smaller(e.attempt(chunk, space, little), chunk.len() as int)
    } else {
        None
    };
    match packed {
        Some(c) => Blk { stored: false, body: c, chunk },
        None => Blk { stored: true, body: chunk, chunk },
    }
}

/// Whether the parts of an encoder within a frame fit together.
pub open spec fn fits(e: Encoder) -> bool {
    &&& e.stage == 1
    &&& block_size(e.prefs.frame_info.block_size_id) == Some(e.block)
    &&& e.buffered.len() < e.block
    &&& e.linked() ==> {
        &&& e.track.size == e.dict.len()
        &&& e.dict.len() <= 0x1_0000
        &&& e.track.size <= e.track.offset
    }
    &&& e.frame_dict.len() == 0 || 8 <= e.frame_dict.len() <= 0x1_0000
}

/// Whether `e` writes the frame `f`, of which it has written the header and
/// the blocks so far.
#[verifier::opaque]
pub open spec fn writes(e: Encoder, f: Frame) -> bool {
    &&& fits(e)
    &&& f.info == (FrameInfo { frame_type: 0, ..e.prefs.frame_info })
    &&& 4 <= f.info.block_size_id <= 7
    &&& f.info.block_mode == 0 || f.info.block_mode == 1
    &&& f.sized == (f.info.content_size > 0)
    &&& f.header == frame_header(e.prefs)
    &&& ends_with(f.hist(f.blocks.len() as int), reach(e))
    &&& e.linked() ==> e.track.offset == WINDOW + f.whole().len() || e.track.offset
        == f.whole().len()
    &&& f.filled()
    &&& forall|k: int| 0 <= k < f.blocks.len() ==> #[trigger] f.block_ok(k)
}

/// The frame with one more block.
pub open spec fn grown(f: Frame, b: Blk) -> Frame {
    Frame { blocks: f.blocks.push(b), ..f }
}

/// Whether two frames differ in no more than their blocks.
pub open spec fn continues(g: Frame, f: Frame) -> bool {
    &&& g.header == f.header
    &&& g.info == f.info
    &&& g.sized == f.sized
    &&& g.dict == f.dict
    &&& g.after == f.after
}

/// The bytes of the first `k` blocks of a frame.
pub open spec fn written(f: Frame, k: int) -> Seq<u8>
    decreases k,
{
    if k <= 0 {
        Seq::empty()
    } else {
        written(f, k - 1) + (le32_bytes(f.head(k - 1)) + f.blocks[k - 1].body + f.crc(k - 1))
    }
}

/// What blocks refer to, and what they hold, does not depend on later ones.
pub proof fn lemma_grown(f: Frame, b: Blk, k: int)
    requires
        0 <= k <= f.blocks.len(),
    ensures
        grown(f, b).hist(k) == f.hist(k),
        grown(f, b).content(k) == f.content(k),
        written(grown(f, b), k) == written(f, k),
    decreases k,
{
    if k > 0 {
        lemma_grown(f, b, k - 1);
        assert(grown(f, b).blocks[k - 1] == f.blocks[k - 1]);
    }
}

/// A frame consists of its header, its blocks and its end.
pub proof fn lemma_written(f: Frame, k: int)
    requires
        0 <= k <= f.blocks.len(),
    ensures
        written(f, k) + f.tail(k) == f.tail(0),
    decreases k,
{
    if k > 0 {
        lemma_written(f, k - 1);
        assert(written(f, k) + f.tail(k) =~= written(f, k - 1) + f.tail(k - 1));
    } else {
        assert(written(f, 0) + f.tail(0) =~= f.tail(0));
    }
}

/// A block that the compressor makes encodes its input.
proof fn lemma_attempt(e: Encoder, chunk: Seq<u8>, space: int, little: bool)
    requires
        0 < space,
        fits(e),
        chunk.len() <= e.block,
        e.linked() ==> e.track.offset + chunk.len() <= u32::MAX,
    ensures
        smaller(e.attempt(chunk, space, little), chunk.len() as int) matches Some(c) ==> encodes(
            reach(e),
            c,
            chunk,
        ) && 1 <= c.len() < chunk.len(),
{
    reveal(Encoder::attempt);
    let accel = acceleration_of(e.prefs.compression_level);
    let o = e.attempt(chunk, space, little);
    assert(chunk.take(chunk.len() as int) =~= chunk);
    if e.linked() {
        let env = stream_env(chunk, space, e.track, e.dict, true, accel, little);
        env.law_parse_encodes(e.track.cells);
        assert(env.hist =~= e.dict);
    } else if e.frame_dict.len() == 0 {
        let env = alone_env(
            chunk,
            0,
            space,
            space < crate::block::compress::bound(chunk.len() as int),
            false,
            accel,
            little,
        );
        env.law_parse_encodes(
            crate::block::table::Cells::zero(crate::block::entry::own_type(chunk.len() as int)),
        );
        assert(env.hist =~= e.frame_dict);
    } else {
        let cells = dict_cells(e.frame_dict, true, little);
        let t = Track { cells, offset: WINDOW, size: e.frame_dict.len() as u32 };
        let env = stream_env(chunk, space, t, e.frame_dict, false, accel, little);
        env.law_parse_encodes(cells);
    }
}

/// Cutting off the front keeps an end.
proof fn lemma_ends_recent(s: Seq<u8>, t: Seq<u8>, x: Seq<u8>)
    requires
        ends_with(s, t),
    ensures
        ends_with(recent(s + x), window_of(t + x)),
{
    let a = recent(s + x);
    let b = window_of(t + x);
    assert(s =~= s.take(s.len() - t.len()) + t);
    assert(a.skip(a.len() - b.len()) =~= b);
}

/// The next block of a frame is a valid one, and the encoder goes on with it.
proof fn lemma_cut_block(e: Encoder, f: Frame, chunk: Seq<u8>, space: int, mode: BlockCompressMode, little: bool)
    requires
        writes(e, f),
        0 < chunk.len() <= e.block,
        0 < space,
        e.linked() ==> e.track.offset + chunk.len() <= u32::MAX,
    ensures
        ({
            let g = grown(f, cut_block(e, chunk, space, mode, little));
            &&& writes(e.after_in(chunk, space, mode, little), g)
            &&& g.whole() == f.whole() + chunk
            &&& written(g, g.blocks.len() as int) == written(f, f.blocks.len() as int)
                + e.block_in(chunk, space, mode, little)
        }),
{
    reveal(writes);
    let b = cut_block(e, chunk, space, mode, little);
    let g = grown(f, b);
    let n = f.blocks.len() as int;
    let e2 = e.after_in(chunk, space, mode, little);
    lemma_attempt(e, chunk, space, little);
    lemma_grown(f, b, n);
    let hist = f.hist(n);
    let own = reach(e);
    let pre = hist.take(hist.len() - own.len());
    assert(hist =~= pre + own);
    assert(g.block_ok(n)) by {
        assert(g.blocks[n] == b);
        if !b.stored {
            law_more_history(pre, own, b.body, chunk);
        }
    }
    assert forall|k: int| 0 <= k < g.blocks.len() implies #[trigger] g.block_ok(k) by {
        if k < n {
            lemma_grown(f, b, k);
            assert(g.blocks[k] == f.blocks[k]);
            assert(f.block_ok(k));
        }
    }
    assert forall|k: int| 0 <= k < g.blocks.len() implies (#[trigger] g.blocks[k]).chunk.len()
        > 0 by {
        if k < n {
            assert(g.blocks[k] == f.blocks[k]);
        }
    }
    assert(g.blocks[n] == b);
    assert(written(g, n + 1) =~= written(f, n) + e.block_in(chunk, space, mode, little)) by {
        reveal(Encoder::block_in);
    }
    assert(writes(e2, g)) by {
        reveal(Encoder::after_in);
        lemma_ends_recent(hist, own, chunk);
        lemma_after_fits(e, chunk, space, mode, little);
    }
}

/// What stays of an encoder when a block was cut.
proof fn lemma_after(e: Encoder, chunk: Seq<u8>, space: int, mode: BlockCompressMode, little: bool)
    requires
        e.linked() ==> e.track.offset + chunk.len() <= u32::MAX,
    ensures
        ({
            let e2 = e.after_in(chunk, space, mode, little);
            &&& alike(e2, e) && e2.buffered.len() == 0
            &&& e.linked() ==> e2.track.offset == e.track.offset + chunk.len()
        }),
{
    reveal(Encoder::after_in);
}

/// The encoder stays in order.
proof fn lemma_after_fits(e: Encoder, chunk: Seq<u8>, space: int, mode: BlockCompressMode, little: bool)
    requires
        fits(e),
        e.linked() ==> e.track.offset + chunk.len() <= u32::MAX,
        chunk.len() <= e.block,
    ensures
        fits(e.after_in(chunk, space, mode, little)),
{
    reveal(Encoder::after_in);
}

/// The frame after `data` was cut into blocks.
pub open spec fn cut(e: Encoder, f: Frame, data: Seq<u8>, mode: BlockCompressMode, little: bool) -> Frame
    decreases data.len(),
{
    if 0 < e.block <= data.len() {
        let chunk = data.take(e.block);
        cut(
            e.after(chunk, mode, little),
            grown(f, cut_block(e, chunk, ample(chunk.len() as int), mode, little)),
            data.skip(e.block),
            mode,
            little,
        )
    } else if e.prefs.auto_flush && data.len() > 0 {
        grown(f, cut_block(e, data, ample(data.len() as int), mode, little))
    } else {
        f
    }
}

/// Whether the encoder `e2` goes on from `e`, having written `bytes` for
/// blocks that hold `data` up to what waits.
#[verifier::opaque]
pub open spec fn goes_on(e: Encoder, f: Frame, e2: Encoder, g: Frame, data: Seq<u8>, bytes: Seq<u8>) -> bool {
    &&& writes(e2, g)
    &&& continues(g, f)
    &&& alike(e2, e)
    &&& g.whole() + e2.buffered == f.whole() + data
    &&& written(g, g.blocks.len() as int) == written(f, f.blocks.len() as int) + bytes
    &&& e.linked() ==> e2.track.offset + e2.buffered.len() == e.track.offset + data.len()
}

/// Going on twice.
proof fn lemma_goes_on(e: Encoder, f: Frame, e1: Encoder, f1: Frame, e2: Encoder, g: Frame, a: Seq<u8>, x: Seq<u8>, b: Seq<u8>, y: Seq<u8>)
    requires
        goes_on(e, f, e1, f1, a, x),
        goes_on(e1, f1, e2, g, b, y),
        e1.buffered.len() == 0,
    ensures
        goes_on(e, f, e2, g, a + b, x + y),
{
    reveal(goes_on);
    let w = f.whole();
    let w1 = f1.whole();
    assert(w1 + e1.buffered =~= w1);
    assert(w + a + b =~= w + (a + b));
    let v = written(f, f.blocks.len() as int);
    assert(v + x + y =~= v + (x + y));
}

proof fn lemma_cut_one(e: Encoder, f: Frame, chunk: Seq<u8>, space: int, mode: BlockCompressMode, little: bool)
    requires
        writes(e, f),
        0 < chunk.len() <= e.block,
        0 < space,
        e.linked() ==> e.track.offset + chunk.len() <= u32::MAX,
    ensures
        goes_on(
            e,
            f,
            e.after_in(chunk, space, mode, little),
            grown(f, cut_block(e, chunk, space, mode, little)),
            chunk,
            e.block_in(chunk, space, mode, little),
        ),
        e.after_in(chunk, space, mode, little).buffered.len() == 0,
{
    reveal(goes_on);
    let e2 = e.after_in(chunk, space, mode, little);
    let g = grown(f, cut_block(e, chunk, space, mode, little));
    lemma_cut_block(e, f, chunk, space, mode, little);
    lemma_after(e, chunk, space, mode, little);
    assert(g.whole() + e2.buffered =~= g.whole());
}

/// Cutting input into blocks goes on with the frame: what is written are its
/// next blocks, and they hold the input up to what waits.
proof fn lemma_cut(e: Encoder, f: Frame, data: Seq<u8>, mode: BlockCompressMode, little: bool)
    requires
        writes(e, f),
        e.linked() ==> e.track.offset + data.len() <= u32::MAX,
    ensures
        goes_on(
            e,
            f,
            e.blocks(data, mode, little).1,
            cut(e, f, data, mode, little),
            data,
            e.blocks(data, mode, little).0,
        ),
    decreases data.len(),
{
    if 0 < e.block <= data.len() {
        let chunk = data.take(e.block);
        let rest = data.skip(e.block);
        let f1 = grown(f, cut_block(e, chunk, ample(chunk.len() as int), mode, little));
        let e1 = e.after(chunk, mode, little);
        lemma_cut_one(e, f, chunk, ample(chunk.len() as int), mode, little);
        assert(writes(e1, f1) && (e1.linked() ==> e1.track.offset + rest.len() <= u32::MAX)) by {
            reveal(goes_on);
        }
        lemma_cut(e1, f1, rest, mode, little);
        let (more, e2) = e1.blocks(rest, mode, little);
        lemma_goes_on(
            e,
            f,
            e1,
            f1,
            e2,
            cut(e1, f1, rest, mode, little),
            chunk,
            e.block_for(chunk, mode, little),
            rest,
            more,
        );
        assert(chunk + rest =~= data);
    } else if e.prefs.auto_flush && data.len() > 0 {
        assert(e.block > 0) by {
            reveal(writes);
        }
        lemma_cut_one(e, f, data, ample(data.len() as int), mode, little);
    } else {
        let e2 = Encoder { buffered: data, ..e };
        reveal(goes_on);
        assert(writes(e2, f)) by {
            reveal(writes);
        }
        let v = written(f, f.blocks.len() as int);
        assert(v + Seq::<u8>::empty() =~= v);
    }
}

/// The frame after `data` was cut into blocks that had to fit in `left` bytes.
pub open spec fn cut_in(e: Encoder, f: Frame, data: Seq<u8>, left: int, mode: BlockCompressMode, little: bool) -> Frame
    decreases data.len(),
{
    let n = e.next_len(data.len() as int);
    if 0 < n <= data.len() && left > BH_SIZE {
        let chunk = data.take(n);
        let space = space_in(n, left);
        cut_in(
            e.after_in(chunk, space, mode, little),
            grown(f, cut_block(e, chunk, space, mode, little)),
            data.skip(n),
            left - e.block_in(chunk, space, mode, little).len(),
            mode,
            little,
        )
    } else {
        f
    }
}

/// Input that was cut into blocks that fit goes on with the frame.
proof fn lemma_cut_in(e: Encoder, f: Frame, data: Seq<u8>, left: int, mode: BlockCompressMode, little: bool)
    requires
        writes(e, f),
        e.linked() ==> e.track.offset + data.len() <= u32::MAX,
        e.blocks_in(data, left, mode, little).0 is Some,
    ensures
        goes_on(
            e,
            f,
            e.blocks_in(data, left, mode, little).1,
            cut_in(e, f, data, left, mode, little),
            data,
            e.blocks_in(data, left, mode, little).0->0,
        ),
    decreases data.len(),
{
    let n = e.next_len(data.len() as int);
    assert(e.block > 0) by {
        reveal(writes);
    }
    if 0 < n <= data.len() {
        let chunk = data.take(n);
        let rest = data.skip(n);
        let space = space_in(n, left);
        let block = e.block_in(chunk, space, mode, little);
        let f1 = grown(f, cut_block(e, chunk, space, mode, little));
        let e1 = e.after_in(chunk, space, mode, little);
        lemma_cut_one(e, f, chunk, space, mode, little);
        assert(writes(e1, f1) && (e1.linked() ==> e1.track.offset + rest.len() <= u32::MAX)) by {
            reveal(goes_on);
        }
        lemma_cut_in(e1, f1, rest, left - block.len(), mode, little);
        let (more, e2) = e1.blocks_in(rest, left - block.len(), mode, little);
        lemma_goes_on(
            e,
            f,
            e1,
            f1,
            e2,
            cut_in(e1, f1, rest, left - block.len(), mode, little),
            chunk,
            block,
            rest,
            more->0,
        );
        assert(chunk + rest =~= data);
    } else {
        let e2 = Encoder { buffered: data, ..e };
        reveal(goes_on);
        assert(writes(e2, f)) by {
            reveal(writes);
        }
        let v = written(f, f.blocks.len() as int);
        assert(v + Seq::<u8>::empty() =~= v);
    }
}

/// What giving input to an encoder writes are the next blocks of its frame.
/// They hold the content so far, up to what waits.
pub proof fn law_update_writes(e: Encoder, f: Frame, src: Seq<u8>, mode: BlockCompressMode, room: int, little: bool) -> (g: Frame)
    requires
        writes(e, f),
        e.linked() ==> e.track.offset + e.buffered.len() + src.len() <= u32::MAX,
        e.updated(src, mode, room, little).0 is Ok,
    ensures
        ({
            let (r, e2) = e.updated(src, mode, room, little);
            &&& goes_on(
                Encoder { mode, total: e2.total, ..e },
                f,
                e2,
                g,
                e.buffered + src,
                r->Ok_0,
            )
            &&& e2.total == (e.total + src.len()) as u64
        }),
{
    let (r, e2) = e.updated(src, mode, room, little);
    assert(e.stage == 1 && e.buffered.len() <= e.block) by {
        reveal(writes);
    }
    let total = e2.total;
    let e0 = Encoder { mode, total, ..e };
    let flushes = e.mode != mode && e.buffered.len() > 0;
    let f1 = if flushes {
        grown(f, cut_block(e, e.buffered, ample(e.buffered.len() as int), e.mode, little))
    } else {
        f
    };
    let e1 = if flushes {
        e.after(e.buffered, e.mode, little)
    } else {
        e
    };
    let head = if flushes {
        e.block_for(e.buffered, e.mode, little)
    } else {
        Seq::empty()
    };
    let waiting = if flushes {
        e.buffered
    } else {
        Seq::empty()
    };
    let e1m = Encoder { mode, ..e1 };
    let data = e1m.buffered + src;
    let left = room - head.len();
    let tight = left < cost(e1m.prefs, e1m.block, data.len() as int);
    let g = if tight {
        cut_in(e1m, f1, data, left, mode, little)
    } else {
        cut(e1m, f1, data, mode, little)
    };
    let (bytes, e3) = if tight {
        let (bytes, e3) = e1m.blocks_in(data, left, mode, little);
        (bytes->0, e3)
    } else {
        e1m.blocks(data, mode, little)
    };
    assert(e2 == (Encoder { total, ..e3 }));
    if flushes {
        lemma_cut_one(e, f, e.buffered, ample(e.buffered.len() as int), e.mode, little);
        lemma_retold(e, f, e1, f1, e.buffered, head, mode, total);
        assert(writes(e1m, f1) && (e1m.linked() ==> e1m.track.offset + data.len() <= u32::MAX)) by {
            reveal(goes_on);
            reveal(writes);
        }
        if tight {
            lemma_cut_in(e1m, f1, data, left, mode, little);
        } else {
            lemma_cut(e1m, f1, data, mode, little);
        }
        lemma_retold(e1m, f1, e3, g, data, bytes, mode, total);
        assert(e1.buffered + src =~= src);
        lemma_goes_on(
            e0,
            f,
            Encoder { mode, total, ..e1 },
            f1,
            Encoder { mode, total, ..e3 },
            g,
            e.buffered,
            head,
            src,
            bytes,
        );
        assert(e3.mode == mode) by {
            reveal(goes_on);
        }
        assert(e2 == (Encoder { mode, total, ..e3 }));
    } else {
        assert(writes(e1m, f1)) by {
            reveal(writes);
        }
        if tight {
            lemma_cut_in(e1m, f1, data, left, mode, little);
        } else {
            lemma_cut(e1m, f1, data, mode, little);
        }
        lemma_retold(e1m, f1, e3, g, data, bytes, mode, total);
        assert(e3.mode == mode) by {
            reveal(goes_on);
        }
        assert(head + bytes =~= bytes);
        assert(e2 == (Encoder { mode, total, ..e3 }));
    }
    g
}

/// How the encoder's input is counted does not matter to its frame.
proof fn lemma_retold(e: Encoder, f: Frame, e2: Encoder, g: Frame, data: Seq<u8>, bytes: Seq<u8>, mode: BlockCompressMode, total: u64)
    requires
        goes_on(e, f, e2, g, data, bytes),
    ensures
        goes_on(Encoder { mode, total, ..e }, f, Encoder { mode, total, ..e2 }, g, data, bytes),
{
    reveal(goes_on);
    reveal(writes);
}

/// How a header is made up.
proof fn lemma_header_shape(p: Preferences)
    ensures
        ({
            let d = descriptor(p);
            let h = frame_header(p);
            &&& h.len() == 5 + d.len()
            &&& h.subrange(4, h.len() - 1) == d
            &&& h[h.len() - 1] == header_checksum_spec(d)
            &&& le32(h, 0) == MAGICNUMBER
        }),
{
    reveal(frame_header);
    let d = descriptor(p);
    let h = frame_header(p);
    let m = le32_bytes(MAGICNUMBER);
    assert(h.subrange(4, h.len() - 1) =~= d);
    assert(h.subrange(0, 4) =~= m);
    lemma_le32_at(h, 0, MAGICNUMBER);
}

/// The fields of a descriptor behind its flags.
proof fn lemma_descriptor_fields(p: Preferences)
    ensures
        ({
            let i = p.frame_info;
            let d = descriptor(p);
            &&& d.len() == 2 + (if i.content_size > 0 {
                8int
            } else {
                0
            }) + (if i.dict_id > 0 {
                4int
            } else {
                0
            })
            &&& i.content_size > 0 ==> d.subrange(2, 10) == le64_bytes(i.content_size)
            &&& i.dict_id > 0 ==> d.subrange(d.len() - 4, d.len() as int) == le32_bytes(i.dict_id)
        }),
{
    let i = p.frame_info;
    let d = descriptor(p);
    if i.content_size > 0 {
        assert(d.subrange(2, 10) =~= le64_bytes(i.content_size));
    }
    if i.dict_id > 0 {
        assert(d.subrange(d.len() - 4, d.len() as int) =~= le32_bytes(i.dict_id));
    }
}

/// What a header says of the size of the content and of the dictionary.
proof fn lemma_header_fields(p: Preferences)
    ensures
        ({
            let i = p.frame_info;
            let h = frame_header(p);
            &&& i.content_size > 0 ==> le64(h, 6) == i.content_size
            &&& i.dict_id > 0 ==> le32(h, h.len() - 5) == i.dict_id
        }),
{
    let i = p.frame_info;
    let d = descriptor(p);
    let h = frame_header(p);
    let size = h.len() as int;
    lemma_header_shape(p);
    lemma_descriptor_fields(p);
    if i.content_size > 0 {
        assert(h.subrange(6, 14) =~= h.subrange(4, size - 1).subrange(2, 10));
        lemma_le64_at(h, 6, i.content_size);
    }
    if i.dict_id > 0 {
        assert(h.subrange(size - 5, size - 1) =~= h.subrange(4, size - 1).subrange(
            d.len() - 4,
            d.len() as int,
        ));
        lemma_le32_at(h, size - 5, i.dict_id);
    }
}

/// What is read from a header is what was written to it.
proof fn lemma_header_parses(p: Preferences)
    requires
        4 <= p.frame_info.block_size_id <= 7,
        p.frame_info.block_mode == 0 || p.frame_info.block_mode == 1,
    ensures
        parse_header(frame_header(p)) == Ok::<Header, Error>(
            Header::Whole {
                size: frame_header(p).len() as int,
                info: FrameInfo { frame_type: 0, ..p.frame_info },
                sized: p.frame_info.content_size > 0,
            },
        ),
{
    let i = p.frame_info;
    let d = descriptor(p);
    let h = frame_header(p);
    let size = h.len() as int;
    lemma_header_shape(p);
    lemma_descriptor_fields(p);
    lemma_header_fields(p);
    assert(0i32 & 1 == 0) by (bit_vector);
    assert(1i32 & 1 == 1) by (bit_vector);
    assert(h.subrange(4, size - 1)[0] == h[4] && h.subrange(4, size - 1)[1] == h[5]);
    lemma_flags(
        i.block_mode != 0,
        i.block_checksum,
        i.content_size > 0,
        i.content_checksum,
        i.dict_id > 0,
        h[4],
    );
    assert(h[5] == 16 * i.block_size_id);
    assert(header_info(h, size) == (FrameInfo { frame_type: 0, ..i }));
}

/// The header that a frame is begun with reads back as the preferences: its
/// size, and what the frame is like, whatever stands behind it.
pub proof fn law_header_reads_back(p: Preferences, after: Seq<u8>, d: Decoder)
    requires
        block_size(p.frame_info.block_size_id) is Some,
        d.stage is GetFrameHeader,
    ensures
        ({
            let i = settled_preferences(p).frame_info;
            let src = frame_header(settled_preferences(p)) + after;
            let n = 7 + (if i.content_size > 0 {
                8int
            } else {
                0
            }) + (if i.dict_id > 0 {
                4int
            } else {
                0
            });
            &&& frame_header(settled_preferences(p)).len() == n
            &&& header_size_spec(src) == Ok::<int, Error>(n)
            &&& told(d, src).0 == Ok::<(FrameInfo, int, int), Error>(
                (FrameInfo { frame_type: 0, block_mode: i.block_mode & 1, ..i }, n, BH_SIZE as int),
            )
        }),
{
    let q = settled_preferences(p);
    let m = q.frame_info.block_mode;
    let q1 = Preferences { frame_info: FrameInfo { block_mode: m & 1, ..q.frame_info }, ..q };
    assert((m & 1) == 0 || (m & 1) == 1) by (bit_vector);
    assert((m & 1) & 1 == m & 1) by (bit_vector);
    let h = frame_header(q);
    assert(h == frame_header(q1)) by {
        reveal(frame_header);
    }
    lemma_header_parses(q1);
    lemma_header_shape(q1);
    lemma_descriptor_fields(q1);
    let src = h + after;
    assert(src.take(h.len() as int) =~= h);
    assert(src[0] == h[0] && src[1] == h[1] && src[2] == h[2] && src[3] == h[3] && src[4] == h[4]);
    reveal(told);
}

proof fn lemma_flags(mode: bool, block_sum: bool, sized: bool, sum: bool, dict: bool, flg: u8)
    requires
        flg == 64 + (if mode {
            32int
        } else {
            0
        }) + (if block_sum {
            16int
        } else {
            0
        }) + (if sized {
            8int
        } else {
            0
        }) + (if sum {
            4int
        } else {
            0
        }) + (if dict {
            1int
        } else {
            0
        }),
    ensures
        flg / 64 == 1,
        flg / 32 % 2 == (if mode {
            1int
        } else {
            0
        }),
        flg / 16 % 2 == (if block_sum {
            1int
        } else {
            0
        }),
        flg / 8 % 2 == (if sized {
            1int
        } else {
            0
        }),
        flg / 4 % 2 == (if sum {
            1int
        } else {
            0
        }),
        flg / 2 % 2 == 0,
        flg % 2 == (if dict {
            1int
        } else {
            0
        }),
{
}

proof fn lemma_le32_at(s: Seq<u8>, at: int, v: u32)
    requires
        0 <= at,
        at + 4 <= s.len(),
        s.subrange(at, at + 4) == le32_bytes(v),
    ensures
        le32(s, at) == v,
{
    law_le_inverse(v, 0);
    let b = s.subrange(at, at + 4);
    assert(b[0] == s[at] && b[1] == s[at + 1] && b[2] == s[at + 2] && b[3] == s[at + 3]);
}

proof fn lemma_le64_at(s: Seq<u8>, at: int, v: u64)
    requires
        0 <= at,
        at + 8 <= s.len(),
        s.subrange(at, at + 8) == le64_bytes(v),
    ensures
        le64(s, at) == v,
{
    law_le_inverse(0, v);
    let b = s.subrange(at, at + 8);
    assert(b[0] == s[at] && b[1] == s[at + 1] && b[2] == s[at + 2] && b[3] == s[at + 3] && b[4]
        == s[at + 4] && b[5] == s[at + 5] && b[6] == s[at + 6] && b[7] == s[at + 7]);
}

/// A frame that has just been begun.
pub open spec fn opened_frame(p: Preferences, loaded: Option<Seq<u8>>, after: Seq<u8>) -> Frame {
    let p1 = settled_preferences(p);
    Frame {
        header: frame_header(p1),
        info: FrameInfo { frame_type: 0, ..p1.frame_info },
        sized: p1.frame_info.content_size > 0,
        dict: match loaded {
            Some(d) => d,
            None => Seq::empty(),
        },
        blocks: Seq::empty(),
        after,
    }
}

/// A context that begins a frame writes one without blocks.
pub proof fn law_begin_writes(p: Preferences, loaded: Option<Seq<u8>>, slow: bool, little: bool, after: Seq<u8>)
    requires
        block_size(p.frame_info.block_size_id) is Some,
        p.frame_info.block_mode == 0 || p.frame_info.block_mode == 1,
    ensures
        writes(begun(p, loaded, slow, little), opened_frame(p, loaded, after)),
        begun(p, loaded, slow, little).linked() ==> begun(p, loaded, slow, little).track.offset
            <= WINDOW,
{
    reveal(writes);
    let e = begun(p, loaded, slow, little);
    let f = opened_frame(p, loaded, after);
    assert(f.whole().len() == 0);
    assert(f.hist(0) == f.dict);
    if let Some(d) = loaded {
        let u = used_dict(d);
        assert(d.skip(d.len() - u.len()) =~= u);
    } else {
        assert(f.dict.skip(0) =~= reach(e));
    }
}

/// A context that ends a frame has written a valid one, which holds the
/// content it was given.
#[verifier::rlimit(30)]
pub proof fn law_end_closes(e: Encoder, f: Frame, content: Seq<u8>, room: int, little: bool) -> (g: Frame)
    requires
        writes(e, f),
        e.linked() ==> e.track.offset + e.buffered.len() <= u32::MAX,
        content == f.whole() + e.buffered,
        e.total == content.len(),
        e.ended(content, room, little).0 is Ok,
    ensures
        g.valid(),
        g.filled(),
        continues(g, f),
        g.whole() == content,
        g.bytes() == f.header + written(f, f.blocks.len() as int) + e.ended(
            content,
            room,
            little,
        ).0->Ok_0 + f.after,
{
    let waits = e.buffered.len() > 0;
    let n = f.blocks.len() as int;
    assert(e.stage == 1 && e.buffered.len() <= e.block) by {
        reveal(writes);
    }
    let g = if waits {
        grown(f, cut_block(e, e.buffered, ample(e.buffered.len() as int), e.mode, little))
    } else {
        f
    };
    let e2 = if waits {
        e.after(e.buffered, e.mode, little)
    } else {
        e
    };
    let head = if waits {
        e.block_for(e.buffered, e.mode, little)
    } else {
        Seq::empty()
    };
    if waits {
        lemma_cut_block(e, f, e.buffered, ample(e.buffered.len() as int), e.mode, little);
        lemma_after(e, e.buffered, ample(e.buffered.len() as int), e.mode, little);
    } else {
        assert(f.whole() + e.buffered =~= f.whole());
        assert(written(f, n) + head =~= written(f, n));
    }
    assert(e2.prefs == e.prefs);
    lemma_closed(e2, g);
    let w = written(f, n);
    let end = e.trailer(content);
    assert(f.header + (w + head) + end + f.after =~= f.header + w + (head + end) + f.after);
    g
}

/// A frame with its end behind it is valid.
proof fn lemma_closed(e: Encoder, g: Frame)
    requires
        writes(e, g),
        e.prefs.frame_info.content_size != 0 ==> e.prefs.frame_info.content_size
            == g.whole().len(),
    ensures
        g.valid(),
        g.filled(),
        g.bytes() == g.header + written(g, g.blocks.len() as int) + e.trailer(g.whole()) + g.after,
{
    let m = g.blocks.len() as int;
    assert(g.header_ok()) by {
        reveal(writes);
        reveal(Frame::header_ok);
        lemma_header_parses(e.prefs);
    }
    reveal(writes);
    lemma_written(g, m);
    let end = e.trailer(g.whole());
    let w = written(g, m);
    assert(g.tail(m) =~= end + g.after);
    assert(g.header + (w + (end + g.after)) =~= g.header + w + end + g.after);
}

/// A whole frame that `compress_frame` writes is valid, and holds what was
/// compressed.
pub proof fn law_frame_valid(p: Preferences, loaded: Option<Seq<u8>>, src: Seq<u8>, little: bool, after: Seq<u8>) -> (g: Frame)
    requires
        block_size(p.frame_info.block_size_id) is Some,
        p.frame_info.block_mode == 0 || p.frame_info.block_mode == 1,
        p.auto_flush,
        p.frame_info.content_size != 0 ==> p.frame_info.content_size == src.len(),
        p.frame_info.block_mode == 0 ==> src.len() + WINDOW <= u32::MAX,
    ensures
        g.valid(),
        g.filled(),
        g.whole() == src,
        g.dict == (match loaded {
            Some(d) => d,
            None => Seq::empty(),
        }),
        g.after == after,
        g.bytes() == whole_frame(p, loaded, src, little) + after,
{
    let e = begun(p, loaded, loaded is Some, little);
    let f = opened_frame(p, loaded, after);
    let mode = BlockCompressMode::Compressed;
    law_begin_writes(p, loaded, loaded is Some, little, after);
    lemma_cut(e, f, src, mode, little);
    let g = cut(e, f, src, mode, little);
    let (bytes, e2) = e.blocks(src, mode, little);
    lemma_blocks_flush(e, src, mode, little);
    assert(e.prefs == settled_preferences(p));
    assert(writes(e2, g) && continues(g, f) && e2.prefs == e.prefs && g.whole() == src && written(
        g,
        g.blocks.len() as int,
    ) == bytes) by {
        reveal(goes_on);
        assert(f.whole() + src =~= src);
        assert(g.whole() + e2.buffered =~= g.whole());
        assert(Seq::<u8>::empty() + bytes =~= bytes);
    }
    lemma_closed(e2, g);
    g
}

/// With automatic flushing, no input waits.
pub proof fn lemma_blocks_flush(e: Encoder, data: Seq<u8>, mode: BlockCompressMode, little: bool)
    requires
        e.prefs.auto_flush,
        e.linked() ==> e.track.offset + data.len() <= u32::MAX,
    ensures
        e.blocks(data, mode, little).1.buffered.len() == 0,
    decreases data.len(),
{
    if 0 < e.block <= data.len() {
        let chunk = data.take(e.block);
        lemma_after(e, chunk, ample(chunk.len() as int), mode, little);
        lemma_blocks_flush(e.after(chunk, mode, little), data.skip(e.block), mode, little);
    } else if data.len() > 0 {
        lemma_after(e, data, ample(data.len() as int), mode, little);
    }
}

/// Decoding a whole frame, with the dictionary it was compressed with, gives
/// back what was compressed.
pub proof fn law_frame_round_trip(p: Preferences, loaded: Option<Seq<u8>>, src: Seq<u8>, little: bool, after: Seq<u8>, d: Decoder, room: int, skip: bool)
    requires
        block_size(p.frame_info.block_size_id) is Some,
        p.frame_info.block_mode == 0 || p.frame_info.block_mode == 1,
        p.auto_flush,
        p.frame_info.content_size != 0 ==> p.frame_info.content_size == src.len(),
        p.frame_info.block_mode == 0 ==> src.len() + WINDOW <= u32::MAX,
        d == d.closed(),
        room >= src.len(),
    ensures
        called(d, whole_frame(p, loaded, src, little) + after, room, loaded, skip) matches Act::Stop(
            u,
            hint,
        ) && hint == 0 && u.out == src && u.at == whole_frame(p, loaded, src, little).len(),
{
    let g = law_frame_valid(p, loaded, src, little, after);
    law_decodes(g, d, room, loaded, skip);
}

} // verus!
